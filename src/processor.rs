use vstd::prelude::*;
use crate::config::{Config, TIME_LIMIT, in_limit};
use crate::ffmpeg::SilenceSegment;
use crate::timeline::{
    lemma_split_starts,
    chunks, coalesce_state, coalesced, gap_before, gap_start, gaps_upto, keep_segments,
    lemma_keep_lengths_bounded, raw_candidates, span_of, spans_of, split, split_all,
    MERGE_FACTOR_TENTHS, NOISE_FLOOR_US,
};

verus! {

/// Selects the stretches of a timeline worth keeping, under one configuration.
pub struct Processor {
    pub config: Config,
}

impl Processor {
    pub fn new(config: Config) -> (r: Processor)
        ensures
            r.config == config,
    {
        Processor { config }
    }

    /// Appends to `segments` the clip `(start, duration)`, whole when it is no
    /// longer than the maximum, else cut into chunks of the maximum length
    /// where the chunks under the minimum are dropped. The start may lie
    /// within twice, the duration within eight times the accepted magnitude,
    /// as the clips that coalescing yields do.
    pub fn add_segments(&self, segments: &mut Vec<(i64, i64)>, start: i64, duration: i64)
        requires
            self.config.in_limits(),
            in_limit(start as int, 2),
            in_limit(duration as int, 8),
        ensures
            spans_of(final(segments)@) == spans_of(old(segments)@) + split(
                (start as int, duration as int),
                self.config.max_clip_length_us as int,
                self.config.min_clip_length_us as int,
            ),
    {
        let max = self.config.max_clip_length_us;
        let min = self.config.min_clip_length_us;
        let ghost old_spans = spans_of(segments@);
        if duration <= max {
            segments.push((start, duration));
            assert(spans_of(segments@) =~= old_spans + seq![(start as int, duration as int)]);
        } else if max > 0 {
            let mut current: i64 = start;
            let mut remaining: i64 = duration;
            while remaining > 0
                invariant
                    in_limit(start as int, 2),
                    in_limit(duration as int, 8),
                    0 < max <= TIME_LIMIT,
                    max == self.config.max_clip_length_us,
                    min == self.config.min_clip_length_us,
                    0 <= remaining,
                    current + remaining == start + duration,
                    start <= current,
                    spans_of(segments@) + chunks(current as int, remaining as int, max as int, min as int)
                        == old_spans + chunks(start as int, duration as int, max as int, min as int),
                decreases remaining,
            {
                let chunk_dur = if remaining < max { remaining } else { max };
                let ghost before = spans_of(segments@);
                if chunk_dur >= min {
                    segments.push((current, chunk_dur));
                    assert(spans_of(segments@) =~= before.push((current as int, chunk_dur as int)));
                }
                let ghost rest = chunks(current + chunk_dur, remaining - chunk_dur, max as int, min as int);
                assert(before + chunks(current as int, remaining as int, max as int, min as int)
                    =~= spans_of(segments@) + rest);
                current = current + chunk_dur;
                remaining = remaining - chunk_dur;
            }
            assert(chunks(current as int, remaining as int, max as int, min as int) =~= seq![]);
            assert(spans_of(segments@) =~= spans_of(segments@) + seq![]);
        } else {
            assert(old_spans + seq![] =~= old_spans);
        }
    }

    /// Merges consecutive candidates whose gap is under 2.1 margins into one
    /// clip, and drops the merged clips shorter than the minimum. Starts may
    /// lie within twice, durations within four times the accepted magnitude,
    /// as the candidates between padded silences do.
    pub fn coalesce_segments(&self, raw_segments: Vec<(i64, i64)>) -> (r: Vec<(i64, i64)>)
        requires
            self.config.in_limits(),
            forall|k: int| 0 <= k < raw_segments@.len() ==>
                in_limit((#[trigger] raw_segments@[k]).0 as int, 2)
                    && in_limit(raw_segments@[k].0 + raw_segments@[k].1, 2),
        ensures
            spans_of(r@) == coalesced(
                spans_of(raw_segments@),
                self.config.margin_us as int,
                self.config.min_clip_length_us as int,
            ),
            forall|k: int| 0 <= k < r@.len() ==>
                in_limit((#[trigger] r@[k]).0 as int, 2) && in_limit(r@[k].0 + r@[k].1, 2),
    {
        let ghost raw = spans_of(raw_segments@);
        let margin = self.config.margin_us;
        let min = self.config.min_clip_length_us;
        if raw_segments.len() == 0 {
            return Vec::new();
        }
        let mut coalesced_segs: Vec<(i64, i64)> = Vec::new();
        let mut current = raw_segments[0];
        let mut i: usize = 1;
        while i < raw_segments.len()
            invariant
                1 <= i <= raw_segments@.len(),
                raw == spans_of(raw_segments@),
                self.config.in_limits(),
                margin == self.config.margin_us,
                min == self.config.min_clip_length_us,
                forall|k: int| 0 <= k < raw_segments@.len() ==>
                    in_limit((#[trigger] raw_segments@[k]).0 as int, 2)
                        && in_limit(raw_segments@[k].0 + raw_segments@[k].1, 2),
                coalesce_state(raw, margin as int, min as int, i as nat) == (spans_of(coalesced_segs@), span_of(current)),
                in_limit(current.0 as int, 2),
                current.0 + current.1 == raw_segments@[i - 1].0 + raw_segments@[i - 1].1,
                forall|k: int| 0 <= k < coalesced_segs@.len() ==>
                    in_limit((#[trigger] coalesced_segs@[k]).0 as int, 2)
                        && in_limit(coalesced_segs@[k].0 + coalesced_segs@[k].1, 2),
            decreases raw_segments@.len() - i,
        {
            let next = raw_segments[i];
            let current_end = current.0 + current.1;
            let gap = next.0 - current_end;
            assert(span_of(next) == raw[i as int]);
            if 10 * gap < MERGE_FACTOR_TENTHS * margin {
                current.1 = (next.0 + next.1) - current.0;
            } else {
                if current.1 >= min {
                    let ghost before = spans_of(coalesced_segs@);
                    coalesced_segs.push(current);
                    assert(spans_of(coalesced_segs@) =~= before.push(span_of(current)));
                }
                current = next;
            }
            i = i + 1;
        }
        if current.1 >= min {
            let ghost before = spans_of(coalesced_segs@);
            coalesced_segs.push(current);
            assert(spans_of(coalesced_segs@) =~= before.push(span_of(current)));
        }
        coalesced_segs
    }

    /// The keep segments of a timeline of length `total_duration` with the
    /// given silences: the gaps between padded silences, coalesced, then
    /// bounded in length.
    pub fn calculate_keep_segments(&self, silences: &[SilenceSegment], total_duration: i64) -> (r: Vec<(i64, i64)>)
        requires
            self.config.in_limits(),
            in_limit(total_duration as int, 1),
            forall|k: int| 0 <= k < silences@.len() ==>
                in_limit((#[trigger] silences@[k]).start as int, 1) && in_limit(silences@[k].end as int, 1),
        ensures
            spans_of(r@) == keep_segments(silences@, total_duration as int, self.config),
            forall|k: int| 0 <= k < r@.len() ==>
                self.config.min_clip_length_us <= (#[trigger] r@[k]).1 <= self.config.max_clip_length_us,
            forall|k: int| 0 <= k < r@.len() ==> in_limit((#[trigger] r@[k]).0 as int, 2),
    {
        let margin = self.config.margin_us;
        let ghost sil = silences@;
        let mut raw_segments: Vec<(i64, i64)> = Vec::new();
        let mut last_end: i64 = 0;
        let mut i: usize = 0;
        while i < silences.len()
            invariant
                0 <= i <= sil.len(),
                sil == silences@,
                self.config.in_limits(),
                margin == self.config.margin_us,
                forall|k: int| 0 <= k < sil.len() ==>
                    in_limit((#[trigger] sil[k]).start as int, 1) && in_limit(sil[k].end as int, 1),
                last_end == gap_start(sil, margin as int, i as int),
                in_limit(last_end as int, 2),
                spans_of(raw_segments@) == gaps_upto(sil, margin as int, i as nat),
                forall|k: int| 0 <= k < raw_segments@.len() ==>
                    in_limit((#[trigger] raw_segments@[k]).0 as int, 2)
                        && in_limit(raw_segments@[k].0 + raw_segments@[k].1, 2),
            decreases sil.len() - i,
        {
            let silence = silences[i];
            let seg_start = last_end;
            let padded = silence.start - margin;
            let seg_end = if padded > seg_start { padded } else { seg_start };
            let duration = seg_end - seg_start;
            assert(gap_before(sil, margin as int, i as int) == (seg_start as int, duration as int));
            if duration >= NOISE_FLOOR_US {
                let ghost before = spans_of(raw_segments@);
                raw_segments.push((seg_start, duration));
                assert(spans_of(raw_segments@) =~= before.push((seg_start as int, duration as int)));
            }
            last_end = silence.end + margin;
            i = i + 1;
        }
        if last_end < total_duration {
            let duration = total_duration - last_end;
            if duration >= NOISE_FLOOR_US {
                let ghost before = spans_of(raw_segments@);
                raw_segments.push((last_end, duration));
                assert(spans_of(raw_segments@) =~= before.push((last_end as int, duration as int)));
            }
        }
        let ghost raw = spans_of(raw_segments@);
        assert(raw == raw_candidates(sil, total_duration as int, margin as int));
        let coalesced_segs = self.coalesce_segments(raw_segments);
        let ghost merged = spans_of(coalesced_segs@);
        let mut final_segments: Vec<(i64, i64)> = Vec::new();
        let mut j: usize = 0;
        while j < coalesced_segs.len()
            invariant
                0 <= j <= coalesced_segs@.len(),
                self.config.in_limits(),
                merged == spans_of(coalesced_segs@),
                forall|k: int| 0 <= k < coalesced_segs@.len() ==>
                    in_limit((#[trigger] coalesced_segs@[k]).0 as int, 2)
                        && in_limit(coalesced_segs@[k].0 + coalesced_segs@[k].1, 2),
                forall|k: int| 0 <= k < final_segments@.len() ==> in_limit((#[trigger] final_segments@[k]).0 as int, 2),
                spans_of(final_segments@) == split_all(
                    merged.take(j as int),
                    self.config.max_clip_length_us as int,
                    self.config.min_clip_length_us as int,
                ),
            decreases coalesced_segs@.len() - j,
        {
            let (start, duration) = coalesced_segs[j];
            let ghost before = final_segments@;
            self.add_segments(&mut final_segments, start, duration);
            proof {
                let p = (start as int, duration as int);
                let max = self.config.max_clip_length_us as int;
                let min = self.config.min_clip_length_us as int;
                lemma_split_starts(p, max, min);
                assert(coalesced_segs@[j as int] == (start, duration));
                assert(spans_of(before).len() == before.len());
                assert(spans_of(final_segments@).len() == final_segments@.len());
                assert(spans_of(final_segments@) == spans_of(before) + split(p, max, min));
                assert forall|k: int| 0 <= k < final_segments@.len() implies
                    in_limit((#[trigger] final_segments@[k]).0 as int, 2) by {
                    assert(spans_of(final_segments@)[k] == span_of(final_segments@[k]));
                    if k < before.len() {
                        assert(spans_of(final_segments@)[k] == spans_of(before)[k]);
                        assert(spans_of(before)[k] == span_of(before[k]));
                    } else {
                        assert(spans_of(final_segments@)[k] == split(p, max, min)[k - before.len()]);
                    }
                }
            }
            assert(merged.take(j + 1).drop_last() =~= merged.take(j as int));
            j = j + 1;
        }
        assert(merged.take(j as int) =~= merged);
        proof {
            lemma_keep_lengths_bounded(sil, total_duration as int, self.config);
            assert forall|k: int| 0 <= k < final_segments@.len() implies
                self.config.min_clip_length_us <= (#[trigger] final_segments@[k]).1
                    <= self.config.max_clip_length_us by {
                assert(spans_of(final_segments@)[k] == span_of(final_segments@[k]));
                assert(keep_segments(sil, total_duration as int, self.config)[k] == span_of(final_segments@[k]));
            }
        }
        final_segments
    }
}

} // verus!
