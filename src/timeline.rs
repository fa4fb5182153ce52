//! Timelines of fixes and gaps, and the output frames that they call for.

use vstd::prelude::*;
use crate::trace::{GpsSample, SampleView, samples_view};

verus! {

/// One step of a timeline: a fix of the trace (by its index there and its
/// timestamp), or a gap of `gap` seconds with no position.
#[derive(Clone, Copy, Debug, PartialEq, Eq, Structural)]
pub enum Entry {
    Fix { index: usize, timestamp: u32 },
    Padding { gap: u32 },
}

/// The timestamps of a sequence of samples.
pub open spec fn timestamps(v: Seq<SampleView>) -> Seq<u32> {
    v.map_values(|s: SampleView| s.timestamp)
}

/// The first index from `k` on whose timestamp is above `bound`, or the length.
pub open spec fn first_above(ts: Seq<u32>, bound: u32, k: int) -> int
    decreases ts.len() - k,
{
    if k >= ts.len() {
        ts.len() as int
    } else if ts[k] > bound {
        k
    } else {
        first_above(ts, bound, k + 1)
    }
}

/// The indices below `n` whose timestamp is after `start`, in order.
pub open spec fn after_start(ts: Seq<u32>, start: u32, n: int) -> Seq<int>
    decreases n,
{
    if n <= 0 {
        Seq::empty()
    } else if ts[n - 1] > start {
        after_start(ts, start, n - 1).push(n - 1)
    } else {
        after_start(ts, start, n - 1)
    }
}

/// The timeline of the window `(start, end]` over a trace with timestamps
/// `ts`. The trace is read up to its first sample after `end`; the samples
/// after `start` before that point are the window's fixes. A gap from `start`
/// to the first fix leads them, and where they end before the window does, a
/// gap from the last fix (or from `start`, if there is none) to `end` closes
/// them.
pub open spec fn window_entries(ts: Seq<u32>, start: u32, end: u32) -> Seq<Entry> {
    let p = first_above(ts, end, 0);
    let sel = after_start(ts, start, p);
    let lead = if sel.len() > 0 {
        seq![Entry::Padding { gap: (ts[sel[0]] - start) as u32 }]
    } else {
        Seq::empty()
    };
    let fixes = sel.map_values(|i: int| Entry::Fix { index: i as usize, timestamp: ts[i] });
    let last = if sel.len() > 0 {
        ts[sel.last()]
    } else {
        start
    };
    let trail = if last < end {
        seq![Entry::Padding { gap: (end - last) as u32 }]
    } else {
        Seq::empty()
    };
    lead + fixes + trail
}

proof fn lemma_first_above(ts: Seq<u32>, bound: u32, k: int, i: int)
    requires
        0 <= k <= i <= ts.len(),
        forall|j: int| k <= j < i ==> ts[j] <= bound,
        i == ts.len() || ts[i] > bound,
    ensures
        first_above(ts, bound, k) == i,
    decreases i - k,
{
    if k < i {
        lemma_first_above(ts, bound, k + 1, i);
    }
}

proof fn lemma_after_start_bounds(ts: Seq<u32>, start: u32, n: int)
    requires
        0 <= n <= ts.len(),
    ensures
        forall|j: int|
            0 <= j < after_start(ts, start, n).len() ==> 0 <= #[trigger] after_start(
                ts,
                start,
                n,
            )[j] < n && ts[after_start(ts, start, n)[j]] > start,
    decreases n,
{
    if n > 0 {
        lemma_after_start_bounds(ts, start, n - 1);
        let prev = after_start(ts, start, n - 1);
        let cur = after_start(ts, start, n);
        assert forall|j: int| 0 <= j < cur.len() implies 0 <= #[trigger] cur[j] < n && ts[cur[j]]
            > start by {
            if j < prev.len() {
                assert(cur[j] == prev[j]);
            }
        }
    }
}

/// The timeline of the window `(video_start, video_end]` over the samples of
/// a trace: see [`window_entries`].
pub fn extract_gps_data_for_video(video_start: u32, video_end: u32, gps_data: &Vec<GpsSample>) -> (r:
    Vec<Entry>)
    requires
        video_start <= video_end,
    ensures
        r@ == window_entries(timestamps(samples_view(gps_data@)), video_start, video_end),
{
    let ghost ts = timestamps(samples_view(gps_data@));
    let mut out: Vec<Entry> = Vec::new();
    let mut last: u32 = video_start;
    let mut i: usize = 0;
    while i < gps_data.len() && gps_data[i].timestamp <= video_end
        invariant
            i <= gps_data@.len() == ts.len(),
            ts == timestamps(samples_view(gps_data@)),
            video_start <= video_end,
            forall|j: int| 0 <= j < i ==> ts[j] <= video_end,
            ({
                let sel = after_start(ts, video_start, i as int);
                &&& out@ == (if sel.len() > 0 {
                    seq![Entry::Padding { gap: (ts[sel[0]] - video_start) as u32 }]
                } else {
                    Seq::<Entry>::empty()
                }) + sel.map_values(
                    |k: int| Entry::Fix { index: k as usize, timestamp: ts[k] },
                )
                &&& last == (if sel.len() > 0 {
                    ts[sel.last()]
                } else {
                    video_start
                })
            }),
            video_start <= last <= video_end,
        decreases gps_data@.len() - i,
    {
        let t = gps_data[i].timestamp;
        assert(t == ts[i as int]);
        let ghost sel = after_start(ts, video_start, i as int);
        proof {
            lemma_after_start_bounds(ts, video_start, i as int);
        }
        if t > video_start {
            let ghost before = out@;
            if out.len() == 0 {
                out.push(Entry::Padding { gap: t - video_start });
            }
            out.push(Entry::Fix { index: i, timestamp: t });
            last = t;
            let ghost nsel = after_start(ts, video_start, i + 1);
            assert(nsel == sel.push(i as int));
            assert(nsel.map_values(|k: int| Entry::Fix { index: k as usize, timestamp: ts[k] })
                =~= sel.map_values(|k: int| Entry::Fix { index: k as usize, timestamp: ts[k] }).push(
                Entry::Fix { index: i, timestamp: t },
            ));
            proof {
                if sel.len() == 0 {
                    assert(out@ =~= seq![Entry::Padding { gap: (ts[nsel[0]] - video_start) as u32 }]
                        + nsel.map_values(
                        |k: int| Entry::Fix { index: k as usize, timestamp: ts[k] },
                    ));
                } else {
                    assert(nsel[0] == sel[0]);
                    assert(out@ =~= before.push(Entry::Fix { index: i, timestamp: t }));
                }
            }
        }
        i = i + 1;
    }
    proof {
        if i < ts.len() {
            assert(ts[i as int] == gps_data@[i as int].timestamp);
        }
        lemma_first_above(ts, video_end, 0, i as int);
    }
    if last < video_end {
        out.push(Entry::Padding { gap: video_end - last });
    } else {
        assert(out@ =~= out@ + Seq::<Entry>::empty());
    }
    out
}

/// The time of an entry: a fix's timestamp; a gap has none.
pub open spec fn fix_time(e: Entry) -> Option<u32> {
    match e {
        Entry::Fix { timestamp, .. } => Some(timestamp),
        Entry::Padding { .. } => None,
    }
}

/// The entry is a fix later than `target`.
pub open spec fn fix_after(e: Entry, target: int) -> bool {
    fix_time(e) is Some && fix_time(e).unwrap() > target
}

/// The first index from `k` on that holds a fix later than `target`, or the
/// length.
pub open spec fn first_fix_after(tl: Seq<Entry>, target: int, k: int) -> int
    decreases tl.len() - k,
{
    if k >= tl.len() {
        tl.len() as int
    } else if fix_after(tl[k], target) {
        k
    } else {
        first_fix_after(tl, target, k + 1)
    }
}

/// The entry that covers `target`: the one just before the first fix later
/// than `target`, if it is a fix; a gap there means no coverage. Where the
/// very first entry is already later, `clamp` picks it, and otherwise there
/// is no coverage.
pub open spec fn nearest_preceding(tl: Seq<Entry>, target: int, clamp: bool) -> Option<int> {
    let p = first_fix_after(tl, target, 0);
    if p > 0 {
        if tl[p - 1] is Fix {
            Some(p - 1)
        } else {
            None
        }
    } else if clamp && tl.len() > 0 {
        Some(0)
    } else {
        None
    }
}

proof fn lemma_first_fix_after(tl: Seq<Entry>, target: int, k: int, i: int)
    requires
        0 <= k <= i <= tl.len(),
        forall|j: int| k <= j < i ==> !fix_after(#[trigger] tl[j], target),
        i == tl.len() || fix_after(tl[i], target),
    ensures
        first_fix_after(tl, target, k) == i,
    decreases i - k,
{
    if k < i {
        lemma_first_fix_after(tl, target, k + 1, i);
    }
}

proof fn lemma_first_fix_after_bounds(tl: Seq<Entry>, target: int, k: int)
    requires
        0 <= k <= tl.len(),
    ensures
        k <= first_fix_after(tl, target, k) <= tl.len(),
        forall|j: int| k <= j < first_fix_after(tl, target, k) ==> !fix_after(#[trigger] tl[j], target),
        first_fix_after(tl, target, k) < tl.len() ==> fix_after(
            tl[first_fix_after(tl, target, k)],
            target,
        ),
    decreases tl.len() - k,
{
    if k < tl.len() && !fix_after(tl[k], target) {
        lemma_first_fix_after_bounds(tl, target, k + 1);
    }
}

/// On a timeline of fixes in time order, the covering entry is the last fix
/// at or before the target; where every fix is later, it is the first one
/// with `clamp` and none without.
pub proof fn lemma_nearest_is_last_at_or_before(tl: Seq<Entry>, target: int, clamp: bool)
    requires
        forall|j: int| 0 <= j < tl.len() ==> (#[trigger] tl[j]) is Fix,
        forall|i: int, j: int|
            0 <= i <= j < tl.len() ==> fix_time(tl[i]).unwrap() <= fix_time(tl[j]).unwrap(),
    ensures
        match nearest_preceding(tl, target, clamp) {
            Some(k) => 0 <= k < tl.len() && ((fix_time(tl[k]).unwrap() <= target && forall|j: int|
                k < j < tl.len() ==> fix_time(#[trigger] tl[j]).unwrap() > target) || (k == 0
                && clamp && fix_time(tl[0]).unwrap() > target)),
            None => tl.len() == 0 || (!clamp && fix_time(tl[0]).unwrap() > target),
        },
{
    lemma_first_fix_after_bounds(tl, target, 0);
    let p = first_fix_after(tl, target, 0);
    if p > 0 {
        assert(!fix_after(tl[p - 1], target));
        assert forall|j: int| p - 1 < j < tl.len() implies fix_time(#[trigger] tl[j]).unwrap()
            > target by {
            assert(fix_time(tl[p]).unwrap() <= fix_time(tl[j]).unwrap());
        }
    } else if tl.len() > 0 {
        assert(fix_after(tl[0], target));
    }
}

fn is_fix_after(e: &Entry, target: u64) -> (r: bool)
    ensures
        r == fix_after(*e, target as int),
{
    match e {
        Entry::Fix { timestamp, .. } => *timestamp as u64 > target,
        Entry::Padding { .. } => false,
    }
}

/// Finds the entry of `timeline` that covers `target`: see
/// [`nearest_preceding`]. `clamp` is set in trip mode and clear in window
/// mode.
pub fn find_gps_record(timeline: &Vec<Entry>, target: u64, clamp: bool) -> (r: Option<usize>)
    ensures
        match nearest_preceding(timeline@, target as int, clamp) {
            Some(k) => r is Some && r.unwrap() == k,
            None => r is None,
        },
        r matches Some(k) ==> k < timeline@.len() && timeline@[k as int] is Fix,
{
    let mut i: usize = 0;
    while i < timeline.len() && !is_fix_after(&timeline[i], target)
        invariant
            i <= timeline@.len(),
            forall|j: int| 0 <= j < i ==> !fix_after(#[trigger] timeline@[j], target as int),
        decreases timeline@.len() - i,
    {
        i = i + 1;
    }
    proof {
        lemma_first_fix_after(timeline@, target as int, 0, i as int);
    }
    if i > 0 {
        match timeline[i - 1] {
            Entry::Fix { .. } => Some(i - 1),
            Entry::Padding { .. } => None,
        }
    } else if clamp && timeline.len() > 0 {
        Some(0)
    } else {
        None
    }
}

/// The output frame clock: `fps` frames per second of output, and a timelapse
/// factor `factor_num / factor_den`, so that one output frame stands for
/// `factor_den / (fps * factor_num)` seconds of recording.
#[derive(Clone, Copy, Debug, PartialEq, Eq, Structural)]
pub struct Timing {
    pub fps: u32,
    pub factor_num: u32,
    pub factor_den: u32,
}

impl Timing {
    /// A frame rate above zero and a factor in (0, 1].
    pub open spec fn wf(&self) -> bool {
        &&& self.fps > 0
        &&& 0 < self.factor_num <= self.factor_den
    }

    /// The clock for `fps` frames per second and the timelapse factor
    /// `factor_num / factor_den`; `None` unless the rate is above zero and the
    /// factor in (0, 1].
    pub fn new(fps: u32, factor_num: u32, factor_den: u32) -> (r: Option<Timing>)
        ensures
            r is Some <==> (fps > 0 && 0 < factor_num <= factor_den),
            r matches Some(t) ==> t.wf() && t == (Timing { fps, factor_num, factor_den }),
    {
        if fps > 0 && 0 < factor_num && factor_num <= factor_den {
            Some(Timing { fps, factor_num, factor_den })
        } else {
            None
        }
    }
}

/// Seconds from the segment start to the target of frame `n`:
/// `floor(n / (fps * factor))`.
pub open spec fn frame_offset(t: Timing, n: int) -> int {
    (n * t.factor_den) / (t.fps * t.factor_num)
}

/// The number of blank frames that fill a gap of `gap_ms` milliseconds:
/// `floor(gap / frame_time)`.
pub open spec fn padding_count(t: Timing, gap_ms: int) -> int {
    (gap_ms * t.fps * t.factor_num) / (1000 * t.factor_den)
}

/// The number of blank frames that fill a gap of `gap_ms` milliseconds, a
/// gap between two timestamps of the trace at most.
pub fn padding_frame_count(timing: &Timing, gap_ms: u64) -> (r: u64)
    requires
        timing.wf(),
        gap_ms <= 4_294_967_295_000,
    ensures
        r == padding_count(*timing, gap_ms as int),
{
    let fps = timing.fps as u128;
    let num = timing.factor_num as u128;
    let den = timing.factor_den as u128;
    let g = gap_ms as u128;
    assert(g * fps <= 4_294_967_295_000 * 4_294_967_295) by (nonlinear_arith)
        requires
            g <= 4_294_967_295_000,
            fps <= 4_294_967_295,
    ;
    assert(g * fps * num <= 4_294_967_295_000 * 4_294_967_295 * 4_294_967_295)
        by (nonlinear_arith)
        requires
            g * fps <= 4_294_967_295_000 * 4_294_967_295,
            num <= 4_294_967_295,
    ;
    let x = g * fps * num;
    let d = 1000 * den;
    let q = x / d;
    assert(q <= 18_446_744_065_119_617_025) by (nonlinear_arith)
        requires
            q == x / d,
            d == 1000 * den,
            den > 0,
            0 < num <= den,
            x == g * fps * num,
            g * fps <= 4_294_967_295_000 * 4_294_967_295,
    {
        assert(q * d <= x);
        assert(x <= g * fps * den);
        assert(q * 1000 * den <= g * fps * den);
        assert(q * 1000 <= g * fps);
    }
    q as u64
}

/// Whether the entry at `k` is a fix with the timestamp of the timeline's
/// final fix; a timeline that ends in a gap has none.
pub open spec fn hits_last(tl: Seq<Entry>, k: int) -> bool {
    &&& tl.len() > 0
    &&& fix_time(tl.last()) is Some
    &&& fix_time(tl[k]) == fix_time(tl.last())
}

/// The entry that covers frame `n` of a segment that starts at `start`.
pub open spec fn covering(tl: Seq<Entry>, start: u32, t: Timing, n: int, clamp: bool) -> Option<
    int,
> {
    nearest_preceding(tl, start + frame_offset(t, n), clamp)
}

/// The sample index of a fix entry.
pub open spec fn fix_index(e: Entry) -> int {
    match e {
        Entry::Fix { index, .. } => index as int,
        Entry::Padding { .. } => -1,
    }
}

proof fn lemma_beyond_every_fix(tl: Seq<Entry>, target: int, clamp: bool)
    requires
        target > u32::MAX,
    ensures
        nearest_preceding(tl, target, clamp) is None || hits_last(
            tl,
            nearest_preceding(tl, target, clamp).unwrap(),
        ),
{
    assert forall|j: int| 0 <= j < tl.len() implies !fix_after(#[trigger] tl[j], target) by {}
    lemma_first_fix_after(tl, target, 0, tl.len() as int);
}

/// Frames `first..first + r.len()` of the segment each show a fix, and `r`
/// holds the sample indices of those fixes, in order.
pub open spec fn shows_fixes(
    tl: Seq<Entry>,
    start: u32,
    t: Timing,
    first: int,
    clamp: bool,
    r: Seq<usize>,
) -> bool {
    forall|j: int|
        0 <= j < r.len() ==> {
            &&& #[trigger] covering(tl, start, t, first + j, clamp) is Some
            &&& fix_index(tl[covering(tl, start, t, first + j, clamp).unwrap()]) == r[j]
        }
}

/// None of frames `first..first + count` shows the final fix.
pub open spec fn none_final(
    tl: Seq<Entry>,
    start: u32,
    t: Timing,
    first: int,
    clamp: bool,
    count: int,
) -> bool {
    forall|j: int|
        0 <= j < count ==> !hits_last(tl, #[trigger] covering(tl, start, t, first + j, clamp).unwrap())
}

/// The segment stops after `count` map frames from `first`: frame
/// `first + count` has no coverage, or the last frame shown is the final fix.
pub open spec fn stops_after(
    tl: Seq<Entry>,
    start: u32,
    t: Timing,
    first: int,
    clamp: bool,
    count: int,
) -> bool {
    ||| covering(tl, start, t, first + count, clamp) is None
    ||| (count > 0 && hits_last(tl, covering(tl, start, t, first + count - 1, clamp).unwrap()))
}

/// The sample indices of the map frames of a segment that starts at `start`,
/// from frame `first_frame` on: each frame shows the fix that covers its
/// target time; the segment ends before the first frame with no coverage, or
/// after the first frame that shows the timeline's final timestamp.
/// `first_frame` lies at most 2^32 seconds past the start, the span of the
/// trace's timestamps, so that the segment is sure to end.
pub fn map_frames(tl: &Vec<Entry>, start: u32, timing: &Timing, first_frame: u64, clamp: bool) -> (r:
    Vec<usize>)
    requires
        timing.wf(),
        first_frame * timing.factor_den <= 4_294_967_296 * timing.fps * timing.factor_num,
    ensures
        shows_fixes(tl@, start, *timing, first_frame as int, clamp, r@),
        none_final(tl@, start, *timing, first_frame as int, clamp, r@.len() - 1),
        stops_after(tl@, start, *timing, first_frame as int, clamp, r@.len() as int),
{
    let fps = timing.fps as u128;
    let num = timing.factor_num as u128;
    assert(1 <= fps * num <= 4_294_967_295 * 4_294_967_295) by (nonlinear_arith)
        requires
            1 <= fps <= 4_294_967_295,
            1 <= num <= 4_294_967_295,
    ;
    let f = fps * num;
    let den = timing.factor_den as u128;
    let ghost bound: int = 4_294_967_296 * f + den;
    let mut out: Vec<usize> = Vec::new();
    let mut n: u128 = first_frame as u128;
    assert(f == timing.fps * timing.factor_num);
    assert(n * den == first_frame * timing.factor_den);
    assert(n * den <= 4_294_967_296 * f) by (nonlinear_arith)
        requires
            n * den == first_frame * timing.factor_den,
            first_frame * timing.factor_den <= 4_294_967_296 * timing.fps * timing.factor_num,
            f == timing.fps * timing.factor_num,
    ;
    loop
        invariant
            timing.wf(),
            f == timing.fps * timing.factor_num,
            den == timing.factor_den,
            1 <= f <= 4_294_967_295 * 4_294_967_295,
            bound == 4_294_967_296 * f + den,
            n == first_frame + out@.len(),
            n * den <= bound,
            shows_fixes(tl@, start, *timing, first_frame as int, clamp, out@),
            none_final(tl@, start, *timing, first_frame as int, clamp, out@.len() as int),
        decreases bound - n * den,
    {
        let off = n * den / f;
        assert(off <= 8_589_934_592) by (nonlinear_arith)
            requires
                off == (n * den) / (f as int),
                n * den <= 4_294_967_296 * f + den,
                f >= 1,
                den <= 4_294_967_295,
        {
            assert((n * den) / (f as int) <= (4_294_967_296 * f + den) / (f as int));
            assert((4_294_967_296 * f + den) / (f as int) == 4_294_967_296 + (den as int) / (
            f as int));
            assert((den as int) / (f as int) <= den);
        }
        let target: u64 = start as u64 + off as u64;
        assert(target == start + frame_offset(*timing, n as int));
        let ghost count = out@.len() as int;
        match find_gps_record(tl, target, clamp) {
            None => {
                assert(covering(tl@, start, *timing, first_frame + count, clamp) is None);
                return out;
            },
            Some(p) => {
                let index = match tl[p] {
                    Entry::Fix { index, .. } => index,
                    Entry::Padding { .. } => 0,
                };
                let ghost before = out@;
                out.push(index);
                assert(covering(tl@, start, *timing, first_frame + count, clamp) == Some(p as int));
                assert forall|j: int| 0 <= j < out@.len() implies {
                    &&& #[trigger] covering(tl@, start, *timing, first_frame + j, clamp) is Some
                    &&& fix_index(tl@[covering(tl@, start, *timing, first_frame + j, clamp).unwrap()])
                        == out@[j]
                } by {
                    if j < count {
                        assert(out@[j] == before[j]);
                    }
                }
                let last_time = match tl[tl.len() - 1] {
                    Entry::Fix { timestamp, .. } => Some(timestamp),
                    Entry::Padding { .. } => None,
                };
                let this_time = match tl[p] {
                    Entry::Fix { timestamp, .. } => Some(timestamp),
                    Entry::Padding { .. } => None,
                };
                if last_time.is_some() && this_time == last_time {
                    assert(hits_last(tl@, p as int));
                    return out;
                }
                proof {
                    // Past every timestamp, coverage ends or the final fix shows.
                    if n * den >= 4_294_967_296 * f {
                        assert(off >= 4_294_967_296) by (nonlinear_arith)
                            requires
                                off == (n * den) / (f as int),
                                n * den >= 4_294_967_296 * f,
                                f >= 1,
                        ;
                        lemma_beyond_every_fix(tl@, target as int, clamp);
                    }
                }
                assert(n <= n * den) by (nonlinear_arith)
                    requires
                        den >= 1,
                ;
                let ghost old_n = n;
                n = n + 1;
                assert(n * den == old_n * den + den && n * den <= bound) by (nonlinear_arith)
                    requires
                        n == old_n + 1,
                        old_n * den < 4_294_967_296 * f,
                        bound == 4_294_967_296 * f + den,
                ;
            },
        }
    }
}

/// The frames of one segment: `leading_blank` blank frames, then one map
/// frame for each sample index in `fixes`, then `trailing_blank` blank
/// frames.
pub struct FramePlan {
    pub leading_blank: u64,
    pub fixes: Vec<usize>,
    pub trailing_blank: u64,
}

/// The gap that opens a timeline, if it opens with one.
pub open spec fn leading_gap(tl: Seq<Entry>) -> Option<u32> {
    if tl.len() > 0 {
        match tl[0] {
            Entry::Padding { gap } => Some(gap),
            Entry::Fix { .. } => None,
        }
    } else {
        None
    }
}

/// The gap that closes a timeline of more than one entry, if it closes with
/// one.
pub open spec fn trailing_gap(tl: Seq<Entry>) -> Option<u32> {
    if tl.len() > 1 {
        match tl.last() {
            Entry::Padding { gap } => Some(gap),
            Entry::Fix { .. } => None,
        }
    } else {
        None
    }
}

/// Blank frames for an optional gap of whole seconds.
pub open spec fn gap_frames(t: Timing, gap: Option<u32>) -> int {
    match gap {
        Some(g) => padding_count(t, g * 1000),
        None => 0,
    }
}

/// `p` is the plan of a segment over `tl` that starts at `start`: blank
/// frames for its opening and closing gaps, and between them the map frames
/// from the frame just after the opening blanks, until coverage ends or the
/// final fix is shown.
pub open spec fn is_plan(p: FramePlan, tl: Seq<Entry>, start: u32, t: Timing, clamp: bool) -> bool {
    &&& p.leading_blank == gap_frames(t, leading_gap(tl))
    &&& p.trailing_blank == gap_frames(t, trailing_gap(tl))
    &&& shows_fixes(tl, start, t, p.leading_blank as int, clamp, p.fixes@)
    &&& none_final(tl, start, t, p.leading_blank as int, clamp, p.fixes@.len() - 1)
    &&& stops_after(tl, start, t, p.leading_blank as int, clamp, p.fixes@.len() as int)
}

fn gap_frame_count(timing: &Timing, gap: Option<u32>) -> (r: u64)
    requires
        timing.wf(),
    ensures
        r == gap_frames(*timing, gap),
        r * timing.factor_den <= 4_294_967_296 * timing.fps * timing.factor_num,
{
    match gap {
        Some(g) => {
            let r = padding_frame_count(timing, g as u64 * 1000);
            let ghost f = timing.fps * timing.factor_num;
            assert(r * timing.factor_den <= 4_294_967_296 * timing.fps * timing.factor_num)
                by (nonlinear_arith)
                requires
                    r == (g * 1000 * timing.fps * timing.factor_num) / (1000 * timing.factor_den),
                    timing.factor_den >= 1,
                    g <= 4_294_967_295,
            {
                let x = g * 1000 * timing.fps * timing.factor_num;
                let d = 1000 * timing.factor_den;
                assert(r * d <= x);
                assert(r * timing.factor_den <= g * timing.fps * timing.factor_num);
                assert(g * timing.fps * timing.factor_num <= 4_294_967_296 * timing.fps
                    * timing.factor_num);
            }
            r
        },
        None => 0,
    }
}

fn first_gap(tl: &Vec<Entry>) -> (r: Option<u32>)
    ensures
        r == leading_gap(tl@),
{
    if tl.len() > 0 {
        match tl[0] {
            Entry::Padding { gap } => Some(gap),
            Entry::Fix { .. } => None,
        }
    } else {
        None
    }
}

fn last_gap(tl: &Vec<Entry>) -> (r: Option<u32>)
    ensures
        r == trailing_gap(tl@),
{
    if tl.len() > 1 {
        match tl[tl.len() - 1] {
            Entry::Padding { gap } => Some(gap),
            Entry::Fix { .. } => None,
        }
    } else {
        None
    }
}

/// The frames of a window whose timeline is `tl` and which starts at `start`:
/// blank frames for the gap before its first fix, map frames from there on,
/// and blank frames for the gap after its last fix.
pub fn build_window_plan(tl: &Vec<Entry>, start: u32, timing: &Timing) -> (r: FramePlan)
    requires
        timing.wf(),
    ensures
        is_plan(r, tl@, start, *timing, false),
{
    let leading_blank = gap_frame_count(timing, first_gap(tl));
    let fixes = map_frames(tl, start, timing, leading_blank, false);
    let trailing_blank = gap_frame_count(timing, last_gap(tl));
    FramePlan { leading_blank, fixes, trailing_blank }
}

/// The timeline of a trip: each of its samples a fix, in order.
pub open spec fn trip_entries(v: Seq<SampleView>) -> Seq<Entry> {
    Seq::new(v.len(), |i: int| Entry::Fix { index: i as usize, timestamp: v[i].timestamp })
}

/// The timeline of a trip.
pub fn trip_timeline(trip: &Vec<GpsSample>) -> (r: Vec<Entry>)
    ensures
        r@ == trip_entries(samples_view(trip@)),
{
    let mut r: Vec<Entry> = Vec::new();
    let mut i: usize = 0;
    while i < trip.len()
        invariant
            i <= trip@.len(),
            r@ == trip_entries(samples_view(trip@)).take(i as int),
        decreases trip@.len() - i,
    {
        r.push(Entry::Fix { index: i, timestamp: trip[i].timestamp });
        assert(r@ =~= trip_entries(samples_view(trip@)).take(i + 1));
        i = i + 1;
    }
    assert(r@ =~= trip_entries(samples_view(trip@)));
    r
}

/// The start of a trip: its first timestamp (zero for an empty trip).
pub open spec fn trip_start(v: Seq<SampleView>) -> u32 {
    if v.len() > 0 {
        v[0].timestamp
    } else {
        0
    }
}

/// The frames of a trip: map frames from its own first timestamp, frame 0
/// on, the first sample standing in for any frame before it.
pub fn build_trip_plan(trip: &Vec<GpsSample>, timing: &Timing) -> (r: FramePlan)
    requires
        timing.wf(),
    ensures
        is_plan(r, trip_entries(samples_view(trip@)), trip_start(samples_view(trip@)), *timing, true),
{
    let tl = trip_timeline(trip);
    let start = if trip.len() > 0 {
        trip[0].timestamp
    } else {
        0
    };
    assert(leading_gap(tl@) is None);
    assert(trailing_gap(tl@) is None);
    let fixes = map_frames(&tl, start, timing, 0, true);
    FramePlan { leading_blank: 0, fixes, trailing_blank: 0 }
}

/// A recorded clip's span of time, `(start_timestamp, end_timestamp]`, and
/// its label.
pub struct VideoWindow {
    pub start_timestamp: u32,
    pub end_timestamp: u32,
    pub label: String,
}

impl VideoWindow {
    /// The window does not end before it starts.
    pub open spec fn wf(&self) -> bool {
        self.start_timestamp <= self.end_timestamp
    }
}

/// The plans of the windows, in order, each over the trace samples that
/// fall in it.
pub fn build_animation(windows: &Vec<VideoWindow>, gps_data: &Vec<GpsSample>, timing: &Timing) -> (r:
    Vec<FramePlan>)
    requires
        timing.wf(),
        forall|k: int| 0 <= k < windows@.len() ==> (#[trigger] windows@[k]).wf(),
    ensures
        r@.len() == windows@.len(),
        forall|k: int|
            0 <= k < r@.len() ==> is_plan(
                #[trigger] r@[k],
                window_entries(
                    timestamps(samples_view(gps_data@)),
                    windows@[k].start_timestamp,
                    windows@[k].end_timestamp,
                ),
                windows@[k].start_timestamp,
                *timing,
                false,
            ),
{
    let mut plans: Vec<FramePlan> = Vec::new();
    let mut k: usize = 0;
    while k < windows.len()
        invariant
            k <= windows@.len(),
            timing.wf(),
            forall|k: int| 0 <= k < windows@.len() ==> (#[trigger] windows@[k]).wf(),
            plans@.len() == k,
            forall|j: int|
                0 <= j < k ==> is_plan(
                    #[trigger] plans@[j],
                    window_entries(
                        timestamps(samples_view(gps_data@)),
                        windows@[j].start_timestamp,
                        windows@[j].end_timestamp,
                    ),
                    windows@[j].start_timestamp,
                    *timing,
                    false,
                ),
        decreases windows@.len() - k,
    {
        let w = &windows[k];
        let tl = extract_gps_data_for_video(w.start_timestamp, w.end_timestamp, gps_data);
        let plan = build_window_plan(&tl, w.start_timestamp, timing);
        plans.push(plan);
        k = k + 1;
    }
    plans
}

/// The plans of the trips, in order, each from frame 0.
pub fn build_trip_animation(trips: &Vec<Vec<GpsSample>>, timing: &Timing) -> (r: Vec<FramePlan>)
    requires
        timing.wf(),
    ensures
        r@.len() == trips@.len(),
        forall|k: int|
            0 <= k < r@.len() ==> (#[trigger] r@[k]).leading_blank == 0 && r@[k].trailing_blank
                == 0,
        forall|k: int|
            0 <= k < r@.len() ==> is_plan(
                #[trigger] r@[k],
                trip_entries(samples_view(trips@[k]@)),
                trip_start(samples_view(trips@[k]@)),
                *timing,
                true,
            ),
{
    let mut plans: Vec<FramePlan> = Vec::new();
    let mut k: usize = 0;
    while k < trips.len()
        invariant
            k <= trips@.len(),
            timing.wf(),
            plans@.len() == k,
            forall|j: int|
                0 <= j < k ==> is_plan(
                    #[trigger] plans@[j],
                    trip_entries(samples_view(trips@[j]@)),
                    trip_start(samples_view(trips@[j]@)),
                    *timing,
                    true,
                ),
        decreases trips@.len() - k,
    {
        let plan = build_trip_plan(&trips[k], timing);
        plans.push(plan);
        k = k + 1;
    }
    plans
}

} // verus!
