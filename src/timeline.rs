//! The selection stated over mathematical integers: gap inversion, coalescing
//! and splitting as spec functions, and the laws that the selection obeys.
use vstd::prelude::*;
use crate::config::Config;
use crate::ffmpeg::SilenceSegment;

verus! {

/// Shortest keep candidate worth emitting: a tenth of a second.
pub const NOISE_FLOOR_US: i64 = 100_000;

/// Two candidates merge when their gap is under this many tenths of the margin.
pub const MERGE_FACTOR_TENTHS: i64 = 21;

/// A stretch of the timeline as (start, duration).
pub type Span = (int, int);

pub open spec fn span_of(p: (i64, i64)) -> Span {
    (p.0 as int, p.1 as int)
}

pub open spec fn spans_of(s: Seq<(i64, i64)>) -> Seq<Span> {
    s.map_values(|p: (i64, i64)| span_of(p))
}

pub open spec fn end_of(p: Span) -> int {
    p.0 + p.1
}

// ---- gap inversion ----

/// Where the keep candidate before silence `i` begins: the padded end of the
/// silence before it, or the start of the timeline.
pub open spec fn gap_start(sil: Seq<SilenceSegment>, margin: int, i: int) -> int {
    if i <= 0 {
        0
    } else {
        sil[i - 1].end + margin
    }
}

/// The keep candidate before silence `i`, clamped to a non-negative duration.
pub open spec fn gap_before(sil: Seq<SilenceSegment>, margin: int, i: int) -> Span {
    let s = gap_start(sil, margin, i);
    let e = if sil[i].start - margin > s { sil[i].start - margin } else { s };
    (s, e - s)
}

/// The candidates above the noise floor before each of the first `n` silences.
pub open spec fn gaps_upto(sil: Seq<SilenceSegment>, margin: int, n: nat) -> Seq<Span>
    decreases n,
{
    if n == 0 {
        seq![]
    } else {
        let prev = gaps_upto(sil, margin, (n - 1) as nat);
        let c = gap_before(sil, margin, n - 1);
        if c.1 >= NOISE_FLOOR_US {
            prev.push(c)
        } else {
            prev
        }
    }
}

/// All raw keep candidates: those between silences, then the trailing one up
/// to `total`.
pub open spec fn raw_candidates(sil: Seq<SilenceSegment>, total: int, margin: int) -> Seq<Span> {
    let prev = gaps_upto(sil, margin, sil.len());
    let s = gap_start(sil, margin, sil.len() as int);
    if s < total && total - s >= NOISE_FLOOR_US {
        prev.push((s, total - s))
    } else {
        prev
    }
}

// ---- coalescing ----

/// `next` is close enough behind `cur` to be absorbed into it.
pub open spec fn merges(cur: Span, next: Span, margin: int) -> bool {
    10 * (next.0 - end_of(cur)) < MERGE_FACTOR_TENTHS * margin
}

/// After the first `n` candidates (`n >= 1`): the clips flushed so far, and
/// the clip still growing.
pub open spec fn coalesce_state(raw: Seq<Span>, margin: int, min: int, n: nat) -> (Seq<Span>, Span)
    decreases n,
{
    if n <= 1 {
        (seq![], raw[0])
    } else {
        let st = coalesce_state(raw, margin, min, (n - 1) as nat);
        let cur = st.1;
        let next = raw[n - 1];
        if merges(cur, next, margin) {
            (st.0, (cur.0, end_of(next) - cur.0))
        } else if cur.1 >= min {
            (st.0.push(cur), next)
        } else {
            (st.0, next)
        }
    }
}

/// Candidates with small gaps merged, and merged clips under `min` dropped.
pub open spec fn coalesced(raw: Seq<Span>, margin: int, min: int) -> Seq<Span> {
    if raw.len() == 0 {
        seq![]
    } else {
        let st = coalesce_state(raw, margin, min, raw.len());
        if st.1.1 >= min {
            st.0.push(st.1)
        } else {
            st.0
        }
    }
}

// ---- splitting ----

/// Consecutive chunks of at most `max` from `cur` over `rem`, keeping those of
/// at least `min`.
pub open spec fn chunks(cur: int, rem: int, max: int, min: int) -> Seq<Span>
    decreases rem,
{
    if rem <= 0 || max <= 0 {
        seq![]
    } else {
        let c = if rem < max { rem } else { max };
        let rest = chunks(cur + c, rem - c, max, min);
        if c >= min {
            seq![(cur, c)] + rest
        } else {
            rest
        }
    }
}

/// One clip, kept whole when it fits in `max`, else cut into chunks.
pub open spec fn split(p: Span, max: int, min: int) -> Seq<Span> {
    if p.1 <= max {
        seq![p]
    } else {
        chunks(p.0, p.1, max, min)
    }
}

/// Every clip of `segs` split, in order.
pub open spec fn split_all(segs: Seq<Span>, max: int, min: int) -> Seq<Span>
    decreases segs.len(),
{
    if segs.len() == 0 {
        seq![]
    } else {
        split_all(segs.drop_last(), max, min) + split(segs.last(), max, min)
    }
}

/// The keep segments selected from `sil` on a timeline of length `total`.
pub open spec fn keep_segments(sil: Seq<SilenceSegment>, total: int, cfg: Config) -> Seq<Span> {
    let m = cfg.margin_us as int;
    let min = cfg.min_clip_length_us as int;
    let max = cfg.max_clip_length_us as int;
    split_all(coalesced(raw_candidates(sil, total, m), m, min), max, min)
}

} // verus!

verus! {

// ---- length bounds ----

proof fn lemma_coalesce_state_min(raw: Seq<Span>, margin: int, min: int, n: nat)
    requires
        1 <= n <= raw.len(),
    ensures
        forall|k: int| 0 <= k < coalesce_state(raw, margin, min, n).0.len() ==>
            #[trigger] coalesce_state(raw, margin, min, n).0[k].1 >= min,
    decreases n,
{
    if n > 1 {
        lemma_coalesce_state_min(raw, margin, min, (n - 1) as nat);
        let st = coalesce_state(raw, margin, min, (n - 1) as nat);
        if !merges(st.1, raw[n - 1], margin) && st.1.1 >= min {
            assert forall|k: int| 0 <= k < st.0.push(st.1).len() implies
                #[trigger] st.0.push(st.1)[k].1 >= min by {
                if k < st.0.len() {
                    assert(st.0.push(st.1)[k] == st.0[k]);
                }
            }
        }
    }
}

proof fn lemma_coalesced_min(raw: Seq<Span>, margin: int, min: int)
    ensures
        forall|k: int| 0 <= k < coalesced(raw, margin, min).len() ==>
            #[trigger] coalesced(raw, margin, min)[k].1 >= min,
{
    if raw.len() > 0 {
        lemma_coalesce_state_min(raw, margin, min, raw.len());
    }
}

proof fn lemma_chunks_bounds(cur: int, rem: int, max: int, min: int)
    ensures
        forall|k: int| 0 <= k < chunks(cur, rem, max, min).len() ==>
            min <= (#[trigger] chunks(cur, rem, max, min)[k]).1 <= max,
    decreases rem,
{
    if rem > 0 && max > 0 {
        let c = if rem < max { rem } else { max };
        lemma_chunks_bounds(cur + c, rem - c, max, min);
        let rest = chunks(cur + c, rem - c, max, min);
        if c >= min {
            assert forall|k: int| 0 <= k < chunks(cur, rem, max, min).len() implies
                min <= (#[trigger] chunks(cur, rem, max, min)[k]).1 <= max by {
                if k > 0 {
                    assert(chunks(cur, rem, max, min)[k] == rest[k - 1]);
                }
            }
        }
    }
}

proof fn lemma_split_all_bounds(segs: Seq<Span>, max: int, min: int)
    requires
        forall|k: int| 0 <= k < segs.len() ==> (#[trigger] segs[k]).1 >= min,
    ensures
        forall|k: int| 0 <= k < split_all(segs, max, min).len() ==>
            min <= (#[trigger] split_all(segs, max, min)[k]).1 <= max,
    decreases segs.len(),
{
    if segs.len() > 0 {
        let init = segs.drop_last();
        lemma_split_all_bounds(init, max, min);
        let p = segs.last();
        lemma_chunks_bounds(p.0, p.1, max, min);
        let a = split_all(init, max, min);
        let b = split(p, max, min);
        assert forall|k: int| 0 <= k < split_all(segs, max, min).len() implies
            min <= (#[trigger] split_all(segs, max, min)[k]).1 <= max by {
            if k >= a.len() {
                assert(split_all(segs, max, min)[k] == b[k - a.len()]);
            } else {
                assert(split_all(segs, max, min)[k] == a[k]);
            }
        }
    }
}

/// Every selected segment is at least the minimum clip length and at most the
/// maximum clip length.
pub proof fn lemma_keep_lengths_bounded(sil: Seq<SilenceSegment>, total: int, cfg: Config)
    ensures
        forall|k: int| 0 <= k < keep_segments(sil, total, cfg).len() ==>
            cfg.min_clip_length_us <= (#[trigger] keep_segments(sil, total, cfg)[k]).1
                <= cfg.max_clip_length_us,
{
    let m = cfg.margin_us as int;
    let min = cfg.min_clip_length_us as int;
    let max = cfg.max_clip_length_us as int;
    let c = coalesced(raw_candidates(sil, total, m), m, min);
    lemma_coalesced_min(raw_candidates(sil, total, m), m, min);
    lemma_split_all_bounds(c, max, min);
}

} // verus!

verus! {

// ---- layout on the timeline ----

/// Every span has a positive duration and ends before the next one begins.
pub open spec fn ordered(s: Seq<Span>) -> bool {
    &&& forall|i: int| 0 <= i < s.len() ==> (#[trigger] s[i]).1 > 0
    &&& forall|i: int, j: int| 0 <= i < j < s.len() ==> end_of(#[trigger] s[i]) <= (#[trigger] s[j]).0
}

/// Every span lies between `lo` and `hi`.
pub open spec fn inside(s: Seq<Span>, lo: int, hi: int) -> bool {
    forall|i: int| 0 <= i < s.len() ==> lo <= (#[trigger] s[i]).0 && end_of(s[i]) <= hi
}

/// Each silence ends no earlier than it starts, and they come in order of start.
pub open spec fn silences_ordered(sil: Seq<SilenceSegment>) -> bool {
    &&& forall|i: int| 0 <= i < sil.len() ==> (#[trigger] sil[i]).start <= sil[i].end
    &&& forall|i: int, j: int| 0 <= i < j < sil.len() ==> (#[trigger] sil[i]).start <= (#[trigger] sil[j]).start
}

/// Each silence starts within a timeline of length `total`.
pub open spec fn on_timeline(sil: Seq<SilenceSegment>, total: int) -> bool {
    forall|i: int| 0 <= i < sil.len() ==> 0 <= (#[trigger] sil[i]).start <= total
}

/// The summed duration of the spans.
pub open spec fn total_length(s: Seq<Span>) -> int
    decreases s.len(),
{
    if s.len() == 0 {
        0
    } else {
        total_length(s.drop_last()) + s.last().1
    }
}

proof fn lemma_concat(a: Seq<Span>, b: Seq<Span>, lo: int, mid: int, hi: int)
    requires
        ordered(a),
        ordered(b),
        inside(a, lo, mid),
        inside(b, mid, hi),
        lo <= mid <= hi,
    ensures
        ordered(a + b),
        inside(a + b, lo, hi),
{
    let s = a + b;
    assert forall|i: int| 0 <= i < s.len() implies lo <= (#[trigger] s[i]).0 && end_of(s[i]) <= hi && s[i].1 > 0 by {
        if i < a.len() {
            assert(s[i] == a[i]);
        } else {
            assert(s[i] == b[i - a.len()]);
        }
    }
    assert forall|i: int, j: int| 0 <= i < j < s.len() implies end_of(#[trigger] s[i]) <= (#[trigger] s[j]).0 by {
        if j < a.len() {
            assert(s[i] == a[i] && s[j] == a[j]);
        } else if i >= a.len() {
            assert(s[i] == b[i - a.len()] && s[j] == b[j - a.len()]);
        } else {
            assert(s[i] == a[i] && s[j] == b[j - a.len()]);
        }
    }
}

proof fn lemma_ordered_hull(s: Seq<Span>)
    requires
        ordered(s),
        s.len() > 0,
    ensures
        inside(s, s[0].0, end_of(s.last())),
{
    assert forall|i: int| 0 <= i < s.len() implies s[0].0 <= (#[trigger] s[i]).0 && end_of(s[i]) <= end_of(s.last()) by {
        if i > 0 {
            assert(end_of(s[0]) <= s[i].0);
        }
        if i < s.len() - 1 {
            assert(end_of(s[i]) <= s[s.len() - 1].0);
        }
    }
}

proof fn lemma_chunks_layout(cur: int, rem: int, max: int, min: int)
    ensures
        ordered(chunks(cur, rem, max, min)),
        inside(chunks(cur, rem, max, min), cur, cur + rem),
    decreases rem,
{
    if rem > 0 && max > 0 {
        let c = if rem < max { rem } else { max };
        lemma_chunks_layout(cur + c, rem - c, max, min);
        if c >= min {
            let first: Seq<Span> = seq![(cur, c)];
            lemma_concat(first, chunks(cur + c, rem - c, max, min), cur, cur + c, cur + rem);
        }
    }
}

proof fn lemma_split_all_layout(segs: Seq<Span>, lo: int, hi: int, max: int, min: int)
    requires
        ordered(segs),
        inside(segs, lo, hi),
    ensures
        ordered(split_all(segs, max, min)),
        inside(split_all(segs, max, min), lo, hi),
    decreases segs.len(),
{
    if segs.len() > 0 {
        let init = segs.drop_last();
        let p = segs.last();
        assert forall|i: int| 0 <= i < init.len() implies lo <= (#[trigger] init[i]).0 && end_of(init[i]) <= p.0 by {
            assert(init[i] == segs[i]);
            assert(end_of(segs[i]) <= segs[segs.len() - 1].0);
        }
        assert forall|i: int, j: int| 0 <= i < j < init.len() implies end_of(#[trigger] init[i]) <= (#[trigger] init[j]).0 by {
            assert(init[i] == segs[i] && init[j] == segs[j]);
        }
        lemma_split_all_layout(init, lo, p.0, max, min);
        lemma_chunks_layout(p.0, p.1, max, min);
        let b = split(p, max, min);
        if p.1 <= max {
            assert(b[0] == p);
        }
        lemma_concat(split_all(init, max, min), b, lo, p.0, hi);
    }
}

proof fn lemma_coalesce_state_layout(raw: Seq<Span>, margin: int, min: int, lo: int, n: nat)
    requires
        ordered(raw),
        inside(raw, lo, end_of(raw.last())),
        1 <= n <= raw.len(),
    ensures
        ordered(coalesce_state(raw, margin, min, n).0),
        inside(coalesce_state(raw, margin, min, n).0, lo, coalesce_state(raw, margin, min, n).1.0),
        lo <= coalesce_state(raw, margin, min, n).1.0 <= raw[n - 1].0,
        end_of(coalesce_state(raw, margin, min, n).1) == end_of(raw[n - 1]),
    decreases n,
{
    if n > 1 {
        lemma_coalesce_state_layout(raw, margin, min, lo, (n - 1) as nat);
        let st = coalesce_state(raw, margin, min, (n - 1) as nat);
        let cur = st.1;
        let next = raw[n - 1];
        assert(end_of(raw[n - 2]) <= raw[n - 1].0);
        assert(raw[n - 2].1 > 0);
        if !merges(cur, next, margin) {
            if cur.1 >= min {
                let one: Seq<Span> = seq![cur];
                lemma_concat(st.0, one, lo, cur.0, next.0);
                assert(st.0.push(cur) =~= st.0 + one);
            } else {
                assert forall|i: int| 0 <= i < st.0.len() implies lo <= (#[trigger] st.0[i]).0 && end_of(st.0[i]) <= next.0 by {}
            }
        }
    }
}

proof fn lemma_coalesced_layout(raw: Seq<Span>, margin: int, min: int, lo: int, hi: int)
    requires
        ordered(raw),
        inside(raw, lo, hi),
    ensures
        ordered(coalesced(raw, margin, min)),
        inside(coalesced(raw, margin, min), lo, hi),
{
    if raw.len() > 0 {
        let last = raw[raw.len() - 1];
        assert forall|i: int| 0 <= i < raw.len() implies lo <= (#[trigger] raw[i]).0 && end_of(raw[i]) <= end_of(raw.last()) by {
            if i < raw.len() - 1 {
                assert(end_of(raw[i]) <= last.0);
            }
        }
        lemma_coalesce_state_layout(raw, margin, min, lo, raw.len());
        let st = coalesce_state(raw, margin, min, raw.len());
        assert(end_of(last) <= hi);
        if st.1.1 >= min {
            let one: Seq<Span> = seq![st.1];
            lemma_concat(st.0, one, lo, st.1.0, hi);
            assert(st.0.push(st.1) =~= st.0 + one);
        } else {
            assert forall|i: int| 0 <= i < st.0.len() implies lo <= (#[trigger] st.0[i]).0 && end_of(st.0[i]) <= hi by {}
        }
    }
}

} // verus!

verus! {

proof fn lemma_push_ordered(a: Seq<Span>, p: Span)
    requires
        ordered(a),
        p.1 > 0,
        forall|k: int| 0 <= k < a.len() ==> end_of(#[trigger] a[k]) <= p.0,
    ensures
        ordered(a.push(p)),
{
    let s = a.push(p);
    assert forall|i: int, j: int| 0 <= i < j < s.len() implies end_of(#[trigger] s[i]) <= (#[trigger] s[j]).0 by {
        assert(s[i] == a[i]);
    }
    assert forall|i: int| 0 <= i < s.len() implies (#[trigger] s[i]).1 > 0 by {
        if i < a.len() {
            assert(s[i] == a[i]);
        }
    }
}

proof fn lemma_gaps_layout(sil: Seq<SilenceSegment>, margin: int, n: nat)
    requires
        silences_ordered(sil),
        margin >= 0,
        n <= sil.len(),
    ensures
        ordered(gaps_upto(sil, margin, n)),
        n >= 1 ==> forall|k: int| 0 <= k < gaps_upto(sil, margin, n).len() ==>
            end_of(#[trigger] gaps_upto(sil, margin, n)[k]) <= sil[n - 1].start - margin,
        (forall|i: int| 0 <= i < sil.len() ==> 0 <= (#[trigger] sil[i]).start) ==>
            inside(gaps_upto(sil, margin, n), 0, if n == 0 { 0 } else { sil[n - 1].start - margin }),
    decreases n,
{
    if n >= 1 {
        lemma_gaps_layout(sil, margin, (n - 1) as nat);
        let prev = gaps_upto(sil, margin, (n - 1) as nat);
        let c = gap_before(sil, margin, n - 1);
        let hi = sil[n - 1].start - margin;
        if n >= 2 {
            assert(sil[n - 2].start <= sil[n - 1].start);
            assert(sil[n - 2].start <= sil[n - 2].end);
        }
        assert forall|k: int| 0 <= k < prev.len() implies end_of(#[trigger] prev[k]) <= c.0 && end_of(prev[k]) <= hi by {}
        if c.1 >= NOISE_FLOOR_US {
            let one: Seq<Span> = seq![c];
            if (forall|i: int| 0 <= i < sil.len() ==> 0 <= (#[trigger] sil[i]).start) {
                if n >= 2 {
                    assert(0 <= sil[n - 2].start);
                }
                lemma_concat(prev, one, 0, c.0, hi);
            } else {
                lemma_push_ordered(prev, c);
            }
            assert(prev.push(c) =~= prev + one);
        } else {
            if (forall|i: int| 0 <= i < sil.len() ==> 0 <= (#[trigger] sil[i]).start) {
                assert forall|k: int| 0 <= k < prev.len() implies 0 <= (#[trigger] prev[k]).0 && end_of(prev[k]) <= hi by {}
            }
        }
    }
}

proof fn lemma_raw_layout(sil: Seq<SilenceSegment>, total: int, margin: int)
    requires
        silences_ordered(sil),
        margin >= 0,
    ensures
        ordered(raw_candidates(sil, total, margin)),
        on_timeline(sil, total) && total >= 0 ==> inside(raw_candidates(sil, total, margin), 0, total),
{
    let n = sil.len();
    lemma_gaps_layout(sil, margin, n);
    let prev = gaps_upto(sil, margin, n);
    let s = gap_start(sil, margin, n as int);
    if n >= 1 {
        assert(sil[n - 1].start <= sil[n - 1].end);
    }
    assert forall|k: int| 0 <= k < prev.len() implies end_of(#[trigger] prev[k]) <= s by {}
    if s < total && total - s >= NOISE_FLOOR_US {
        let one: Seq<Span> = seq![(s, total - s)];
        assert(prev.push((s, total - s)) =~= prev + one);
        if on_timeline(sil, total) && total >= 0 {
            if n >= 1 {
                assert(0 <= sil[n - 1].start);
            }
            lemma_concat(prev, one, 0, s, total);
        } else {
            lemma_push_ordered(prev, (s, total - s));
        }
    } else if on_timeline(sil, total) && total >= 0 {
        if n >= 1 {
            assert(sil[n - 1].start <= total);
        }
    }
}

proof fn lemma_total_length(s: Seq<Span>, lo: int, hi: int)
    requires
        ordered(s),
        inside(s, lo, hi),
        lo <= hi,
    ensures
        total_length(s) <= hi - lo,
    decreases s.len(),
{
    if s.len() > 0 {
        let init = s.drop_last();
        let p = s.last();
        assert forall|i: int| 0 <= i < init.len() implies lo <= (#[trigger] init[i]).0 && end_of(init[i]) <= p.0 by {
            assert(init[i] == s[i]);
            assert(end_of(s[i]) <= s[s.len() - 1].0);
        }
        assert forall|i: int, j: int| 0 <= i < j < init.len() implies end_of(#[trigger] init[i]) <= (#[trigger] init[j]).0 by {
            assert(init[i] == s[i] && init[j] == s[j]);
        }
        lemma_total_length(init, lo, p.0);
    }
}

/// With silences in order of start, each ending no earlier than it starts,
/// and a non-negative margin, the selected segments have positive durations,
/// start in strictly increasing order, and never overlap.
pub proof fn lemma_keep_ordered(sil: Seq<SilenceSegment>, total: int, cfg: Config)
    requires
        silences_ordered(sil),
        cfg.margin_us >= 0,
    ensures
        ordered(keep_segments(sil, total, cfg)),
        forall|i: int, j: int| 0 <= i < j < keep_segments(sil, total, cfg).len() ==>
            (#[trigger] keep_segments(sil, total, cfg)[i]).0 < (#[trigger] keep_segments(sil, total, cfg)[j]).0,
{
    let m = cfg.margin_us as int;
    let min = cfg.min_clip_length_us as int;
    let max = cfg.max_clip_length_us as int;
    let raw = raw_candidates(sil, total, m);
    lemma_raw_layout(sil, total, m);
    if raw.len() > 0 {
        lemma_ordered_hull(raw);
        lemma_coalesced_layout(raw, m, min, raw[0].0, end_of(raw.last()));
        lemma_split_all_layout(coalesced(raw, m, min), raw[0].0, end_of(raw.last()), max, min);
    }
    let out = keep_segments(sil, total, cfg);
    assert forall|i: int, j: int| 0 <= i < j < out.len() implies (#[trigger] out[i]).0 < (#[trigger] out[j]).0 by {
        assert(out[i].1 > 0);
        assert(end_of(out[i]) <= out[j].0);
    }
}

/// When every silence starts within a timeline of non-negative length
/// `total`, in order, and the margin is non-negative, the selected segments
/// lie within the timeline and their durations sum to at most `total`.
pub proof fn lemma_keep_within_total(sil: Seq<SilenceSegment>, total: int, cfg: Config)
    requires
        silences_ordered(sil),
        on_timeline(sil, total),
        cfg.margin_us >= 0,
        total >= 0,
    ensures
        inside(keep_segments(sil, total, cfg), 0, total),
        total_length(keep_segments(sil, total, cfg)) <= total,
{
    let m = cfg.margin_us as int;
    let min = cfg.min_clip_length_us as int;
    let max = cfg.max_clip_length_us as int;
    let raw = raw_candidates(sil, total, m);
    lemma_raw_layout(sil, total, m);
    lemma_coalesced_layout(raw, m, min, 0, total);
    lemma_split_all_layout(coalesced(raw, m, min), 0, total, max, min);
    lemma_total_length(keep_segments(sil, total, cfg), 0, total);
}

} // verus!

verus! {

proof fn lemma_no_silence_split(total: int, cfg: Config)
    requires
        total >= NOISE_FLOOR_US,
        total >= cfg.min_clip_length_us,
    ensures
        keep_segments(seq![], total, cfg) == split(
            (0, total),
            cfg.max_clip_length_us as int,
            cfg.min_clip_length_us as int,
        ),
{
    let m = cfg.margin_us as int;
    let min = cfg.min_clip_length_us as int;
    let max = cfg.max_clip_length_us as int;
    let sil: Seq<SilenceSegment> = seq![];
    let raw = raw_candidates(sil, total, m);
    assert(raw =~= seq![(0, total)]);
    assert(coalesce_state(raw, m, min, 1) == (Seq::<Span>::empty(), (0int, total)));
    assert(coalesced(raw, m, min) =~= seq![(0, total)]);
    let c = coalesced(raw, m, min);
    assert(c.drop_last() =~= seq![]);
    assert(split_all(c.drop_last(), max, min) =~= seq![]);
    assert(c.last() == (0int, total));
    assert(split_all(c.drop_last(), max, min) + split((0, total), max, min) =~= split((0, total), max, min));
    assert(split_all(c, max, min) =~= split((0, total), max, min));
}

/// With no silence, a timeline longer than the minimum clip length and at
/// least the noise floor is kept whole from its start, cut only where it
/// exceeds the maximum clip length.
pub proof fn lemma_no_silence(total: int, cfg: Config)
    requires
        total > cfg.min_clip_length_us,
        total >= NOISE_FLOOR_US,
    ensures
        keep_segments(seq![], total, cfg) == split(
            (0, total),
            cfg.max_clip_length_us as int,
            cfg.min_clip_length_us as int,
        ),
        total <= cfg.max_clip_length_us ==> keep_segments(seq![], total, cfg) == seq![(0int, total)],
{
    lemma_no_silence_split(total, cfg);
}

/// Where the minimum clip length is at least the noise floor, running the
/// selection again on any selected segment alone, as a timeline of its own
/// length with no silence, gives back that one segment unchanged.
pub proof fn lemma_rerun_keeps_segment(sil: Seq<SilenceSegment>, total: int, cfg: Config, k: int)
    requires
        cfg.min_clip_length_us >= NOISE_FLOOR_US,
        0 <= k < keep_segments(sil, total, cfg).len(),
    ensures
        keep_segments(seq![], keep_segments(sil, total, cfg)[k].1, cfg)
            == seq![(0int, keep_segments(sil, total, cfg)[k].1)],
{
    lemma_keep_lengths_bounded(sil, total, cfg);
    let d = keep_segments(sil, total, cfg)[k].1;
    lemma_no_silence_split(d, cfg);
}

} // verus!

verus! {

/// Every piece that splitting a clip yields starts within the clip: at its
/// start, or before its end.
pub proof fn lemma_split_starts(p: Span, max: int, min: int)
    ensures
        forall|k: int| 0 <= k < split(p, max, min).len() ==>
            p.0 <= (#[trigger] split(p, max, min)[k]).0
                && (split(p, max, min)[k].0 == p.0 || split(p, max, min)[k].0 < end_of(p)),
{
    lemma_chunks_layout(p.0, p.1, max, min);
    if p.1 <= max {
        assert(split(p, max, min)[0] == p);
    }
}

} // verus!

verus! {

/// Every clip reaches `min`, and no clip would absorb the one after it.
pub open spec fn spread(s: Seq<Span>, margin: int, min: int) -> bool {
    &&& forall|i: int| 0 <= i < s.len() ==> (#[trigger] s[i]).1 >= min
    &&& forall|i: int| 0 <= i < s.len() - 1 ==> !merges(#[trigger] s[i], s[i + 1], margin)
}

proof fn lemma_spread_state(s: Seq<Span>, margin: int, min: int, n: nat)
    requires
        spread(s, margin, min),
        1 <= n <= s.len(),
    ensures
        coalesce_state(s, margin, min, n) == (s.take(n - 1), s[n - 1]),
    decreases n,
{
    if n > 1 {
        lemma_spread_state(s, margin, min, (n - 1) as nat);
        assert(!merges(s[n - 2], s[n - 1], margin));
        assert(s.take(n - 2).push(s[n - 2]) =~= s.take(n - 1));
    } else {
        assert(s.take(0) =~= Seq::<Span>::empty());
    }
}

proof fn lemma_spread_fixed(s: Seq<Span>, margin: int, min: int)
    requires
        spread(s, margin, min),
    ensures
        coalesced(s, margin, min) == s,
{
    if s.len() > 0 {
        lemma_spread_state(s, margin, min, s.len());
        assert(s.take(s.len() - 1).push(s[s.len() - 1]) =~= s);
    }
}

proof fn lemma_state_spread(raw: Seq<Span>, margin: int, min: int, n: nat)
    requires
        ordered(raw),
        1 <= n <= raw.len(),
    ensures
        spread(coalesce_state(raw, margin, min, n).0, margin, min),
        coalesce_state(raw, margin, min, n).0.len() > 0 ==> !merges(
            coalesce_state(raw, margin, min, n).0.last(),
            coalesce_state(raw, margin, min, n).1,
            margin,
        ),
    decreases n,
{
    lemma_coalesce_state_min(raw, margin, min, n);
    if n > 1 {
        lemma_state_spread(raw, margin, min, (n - 1) as nat);
        lemma_ordered_hull(raw);
        lemma_coalesce_state_layout(raw, margin, min, raw[0].0, (n - 1) as nat);
        let st = coalesce_state(raw, margin, min, (n - 1) as nat);
        let cur = st.1;
        let next = raw[n - 1];
        assert(end_of(raw[n - 2]) <= raw[n - 1].0);
        assert(raw[n - 2].1 > 0);
        if !merges(cur, next, margin) && cur.1 >= min {
            let d = st.0.push(cur);
            assert forall|i: int| 0 <= i < d.len() - 1 implies !merges(#[trigger] d[i], d[i + 1], margin) by {
                if i < st.0.len() - 1 {
                    assert(d[i] == st.0[i] && d[i + 1] == st.0[i + 1]);
                } else {
                    assert(d[i] == st.0.last() && d[i + 1] == cur);
                }
            }
            assert(d.last() == cur);
        }
    }
}

/// For candidates in order, coalescing what coalescing returned changes
/// nothing: no two clips it keeps would merge, and each reaches the minimum.
pub proof fn lemma_coalesce_idempotent(raw: Seq<Span>, margin: int, min: int)
    requires
        ordered(raw),
    ensures
        coalesced(coalesced(raw, margin, min), margin, min) == coalesced(raw, margin, min),
{
    if raw.len() > 0 {
        lemma_state_spread(raw, margin, min, raw.len());
        let st = coalesce_state(raw, margin, min, raw.len());
        if st.1.1 >= min {
            let d = st.0.push(st.1);
            assert forall|i: int| 0 <= i < d.len() - 1 implies !merges(#[trigger] d[i], d[i + 1], margin) by {
                if i < st.0.len() - 1 {
                    assert(d[i] == st.0[i] && d[i + 1] == st.0[i + 1]);
                } else {
                    assert(d[i] == st.0.last() && d[i + 1] == st.1);
                }
            }
            assert forall|i: int| 0 <= i < d.len() implies (#[trigger] d[i]).1 >= min by {
                if i < st.0.len() {
                    assert(d[i] == st.0[i]);
                }
            }
        }
        lemma_spread_fixed(coalesced(raw, margin, min), margin, min);
    }
}

/// Splitting any selected segment again keeps it whole.
pub proof fn lemma_split_keeps_selected(sil: Seq<SilenceSegment>, total: int, cfg: Config, k: int)
    requires
        0 <= k < keep_segments(sil, total, cfg).len(),
    ensures
        split(keep_segments(sil, total, cfg)[k], cfg.max_clip_length_us as int, cfg.min_clip_length_us as int)
            == seq![keep_segments(sil, total, cfg)[k]],
{
    lemma_keep_lengths_bounded(sil, total, cfg);
}

} // verus!
