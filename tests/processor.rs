use high_cut::ffmpeg::SilenceSegment;
use high_cut::{Config, Processor};

const S: i64 = 1_000_000;

fn processor(min: i64, max: i64, margin: i64) -> Processor {
    Processor::new(Config {
        min_clip_length_us: min,
        max_clip_length_us: max,
        margin_us: margin,
        ..Default::default()
    })
}

fn silence(start: i64, end: i64) -> SilenceSegment {
    SilenceSegment { start, end }
}

#[test]
fn test_calculate_keep_segments() {
    let config = Config {
        min_clip_length_us: 2 * S,
        max_clip_length_us: 10 * S,
        margin_us: S,
        ..Default::default()
    };
    let processor = Processor::new(config);

    let silences = vec![silence(5 * S, 10 * S), silence(20 * S, 25 * S)];
    let total_duration = 40 * S;

    let segments = processor.calculate_keep_segments(&silences, total_duration);
    assert_eq!(segments.len(), 4);
    assert_eq!(segments[0], (0, 4 * S));
    assert_eq!(segments[1], (11 * S, 8 * S));
    assert_eq!(segments[2], (26 * S, 10 * S));
    assert_eq!(segments[3], (36 * S, 4 * S));
}

#[test]
fn test_add_segments_split() {
    let config = Config {
        min_clip_length_us: S,
        max_clip_length_us: 5 * S,
        ..Default::default()
    };
    let processor = Processor::new(config);
    let mut segments = Vec::new();

    processor.add_segments(&mut segments, 0, 12 * S);
    assert_eq!(segments.len(), 3);
    assert_eq!(segments[0], (0, 5 * S));
    assert_eq!(segments[1], (5 * S, 5 * S));
    assert_eq!(segments[2], (10 * S, 2 * S));
}

#[test]
fn default_config_values() {
    let c = Config::default();
    assert_eq!(c.silence_threshold_mdb, -35_000);
    assert_eq!(c.min_silence_duration_us, S);
    assert_eq!(c.min_clip_length_us, S);
    assert_eq!(c.max_clip_length_us, 60 * S);
    assert_eq!(c.margin_us, S / 2);
}

#[test]
fn empty_input_gives_whole_timeline() {
    let p = processor(2 * S, 60 * S, S);
    assert_eq!(p.calculate_keep_segments(&[], 30 * S), vec![(0, 30 * S)]);
}

#[test]
fn empty_input_long_timeline_is_split() {
    let p = processor(2 * S, 10 * S, S);
    assert_eq!(
        p.calculate_keep_segments(&[], 25 * S),
        vec![(0, 10 * S), (10 * S, 10 * S), (20 * S, 5 * S)]
    );
}

#[test]
fn empty_input_short_timeline_gives_nothing() {
    let p = processor(2 * S, 10 * S, S);
    assert!(p.calculate_keep_segments(&[], S).is_empty());
    assert!(p.calculate_keep_segments(&[], 0).is_empty());
    assert!(p.calculate_keep_segments(&[], -5 * S).is_empty());
}

#[test]
fn noise_floor_is_inclusive() {
    let p = processor(0, 10 * S, 0);
    assert_eq!(
        p.calculate_keep_segments(&[silence(100_000, 200_000)], 200_000),
        vec![(0, 100_000)]
    );
    assert!(p.calculate_keep_segments(&[silence(99_999, 200_000)], 200_000).is_empty());
}

#[test]
fn silence_past_the_end_is_clamped() {
    let p = processor(S, 60 * S, S);
    assert_eq!(p.calculate_keep_segments(&[silence(35 * S, 45 * S)], 40 * S), vec![(0, 34 * S)]);
}

#[test]
fn close_candidates_are_merged() {
    let p = processor(S, 60 * S, S);
    let merged = p.coalesce_segments(vec![(0, 3 * S), (5 * S, 4 * S)]);
    assert_eq!(merged, vec![(0, 9 * S)]);
}

#[test]
fn gap_of_exactly_the_threshold_is_not_merged() {
    let p = processor(S, 60 * S, 10);
    let kept = p.coalesce_segments(vec![(0, 2 * S), (2 * S + 21, 2 * S)]);
    assert_eq!(kept, vec![(0, 2 * S), (2 * S + 21, 2 * S)]);
    let merged = p.coalesce_segments(vec![(0, 2 * S), (2 * S + 20, 2 * S)]);
    assert_eq!(merged, vec![(0, 4 * S + 20)]);
}

#[test]
fn short_clips_are_dropped_after_merging() {
    let p = processor(3 * S, 60 * S, S);
    let out = p.coalesce_segments(vec![(0, S), (10 * S, 2 * S), (12 * S, 2 * S), (30 * S, S)]);
    assert_eq!(out, vec![(10 * S, 4 * S)]);
    assert!(p.coalesce_segments(Vec::new()).is_empty());
}

#[test]
fn short_trailing_chunk_is_dropped() {
    let p = processor(3 * S, 5 * S, 0);
    let mut v = vec![(100, 1)];
    p.add_segments(&mut v, 0, 12 * S);
    assert_eq!(v, vec![(100, 1), (0, 5 * S), (5 * S, 5 * S)]);
}

#[test]
fn clip_within_maximum_is_kept_whole() {
    let p = processor(S, 5 * S, 0);
    let mut v = Vec::new();
    p.add_segments(&mut v, 7, 5 * S);
    assert_eq!(v, vec![(7, 5 * S)]);
}

#[test]
fn non_positive_maximum_yields_no_chunks() {
    let p = processor(0, 0, 0);
    let mut v = Vec::new();
    p.add_segments(&mut v, 0, 12 * S);
    assert!(v.is_empty());
}

#[test]
fn outputs_respect_bounds_order_and_total() {
    let p = processor(2 * S, 7 * S, S / 2);
    let silences = vec![
        silence(3 * S, 4 * S),
        silence(5 * S, 6 * S),
        silence(20 * S, 21 * S),
        silence(22 * S, 30 * S),
        silence(50 * S, 51 * S),
    ];
    let total = 70 * S;
    let out = p.calculate_keep_segments(&silences, total);
    assert!(!out.is_empty());
    let mut sum = 0;
    for (k, &(start, dur)) in out.iter().enumerate() {
        assert!(2 * S <= dur && dur <= 7 * S);
        assert!(start >= 0 && start + dur <= total);
        if k > 0 {
            let (ps, pd) = out[k - 1];
            assert!(ps < start && ps + pd <= start);
        }
        sum += dur;
    }
    assert!(sum <= total);
}

#[test]
fn rerun_on_each_segment_is_identity() {
    let p = processor(2 * S, 10 * S, S);
    let silences = vec![silence(5 * S, 10 * S), silence(20 * S, 25 * S)];
    let out = p.calculate_keep_segments(&silences, 40 * S);
    for &(_, dur) in &out {
        assert_eq!(p.calculate_keep_segments(&[], dur), vec![(0, dur)]);
    }
}

#[test]
fn coalescing_twice_changes_nothing() {
    let p = processor(2 * S, 60 * S, S);
    let raw = vec![(0, 3 * S), (4 * S, S), (9 * S, S / 2), (20 * S, 4 * S), (30 * S, 3 * S)];
    let once = p.coalesce_segments(raw);
    assert_eq!(once, vec![(0, 5 * S), (20 * S, 4 * S), (30 * S, 3 * S)]);
    assert_eq!(p.coalesce_segments(once.clone()), once);
}

#[test]
fn splitting_a_selected_segment_keeps_it_whole() {
    let p = processor(2 * S, 10 * S, S);
    let silences = vec![silence(5 * S, 10 * S), silence(20 * S, 25 * S)];
    let out = p.calculate_keep_segments(&silences, 40 * S);
    for &(start, dur) in &out {
        let mut v = Vec::new();
        p.add_segments(&mut v, start, dur);
        assert_eq!(v, vec![(start, dur)]);
    }
}
