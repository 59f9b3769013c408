use vstd::prelude::*;

verus! {

/// Largest magnitude, in microseconds, accepted for any time value handed to
/// the selection functions (a little over three centuries).
pub const TIME_LIMIT: i64 = 10_000_000_000_000_000;

/// `x` lies within `k` times the accepted magnitude.
pub open spec fn in_limit(x: int, k: int) -> bool {
    -k * TIME_LIMIT <= x <= k * TIME_LIMIT
}

/// Thresholds of the silence detection and of the highlight selection.
#[derive(Clone, Copy, Debug, PartialEq, Eq)]
pub struct Config {
    /// Level under which audio counts as silent, in millidecibels.
    pub silence_threshold_mdb: i64,
    /// Shortest run of quiet audio reported as a silence.
    pub min_silence_duration_us: i64,
    /// Clips shorter than this are discarded.
    pub min_clip_length_us: i64,
    /// Clips longer than this are split.
    pub max_clip_length_us: i64,
    /// Padding kept around each silence boundary.
    pub margin_us: i64,
}

impl Config {
    /// The time thresholds lie within the accepted magnitude.
    pub open spec fn in_limits(&self) -> bool {
        &&& in_limit(self.min_clip_length_us as int, 1)
        &&& in_limit(self.max_clip_length_us as int, 1)
        &&& in_limit(self.margin_us as int, 1)
    }
}

impl Default for Config {
    /// A threshold of -35 dB, silences of at least one second, clips between
    /// one second and one minute, and half a second of margin.
    fn default() -> (r: Config)
        ensures
            r.silence_threshold_mdb == -35_000,
            r.min_silence_duration_us == 1_000_000,
            r.min_clip_length_us == 1_000_000,
            r.max_clip_length_us == 60_000_000,
            r.margin_us == 500_000,
    {
        Config {
            silence_threshold_mdb: -35_000,
            min_silence_duration_us: 1_000_000,
            min_clip_length_us: 1_000_000,
            max_clip_length_us: 60_000_000,
            margin_us: 500_000,
        }
    }
}

} // verus!
