//! The GPS trace: one record per line, trips separated by blank lines.

use vstd::prelude::*;
use crate::text::{
    all_digits, chars_of, copy_range, digit_value, digits_up_to, digits_value, i32_field, is_digit,
    lemma_digits_value_push, parse_i32_field, parse_u32_field, split_on, split_ranges, text_of,
    u32_field, unsigned_body,
};

verus! {

/// Fixed-point scale of coordinates: a degree is this many units.
pub const DEGREE_UNITS: i64 = 10_000_000;

/// The integer part of a coordinate may be at most this many degrees.
pub const MAX_WHOLE_DEGREES: u64 = 999;

/// Number of fractional digits that a coordinate keeps.
pub const FRACTION_DIGITS: usize = 7;

/// Length of the run of digits at the start of `s`.
pub open spec fn digit_run(s: Seq<char>) -> nat
    decreases s.len(),
{
    if s.len() > 0 && is_digit(s[0]) {
        1 + digit_run(s.drop_first())
    } else {
        0
    }
}

/// The first seven fractional digits of `f`, padded with zeros.
pub open spec fn fraction_digits(f: Seq<char>) -> Seq<char> {
    Seq::new(7, |i: int| if i < f.len() { f[i] } else { '0' })
}

/// The magnitude, in units of 1e-7 degree, written by an unsigned decimal `b`:
/// digits, then optionally a `.` and more digits, with at least one digit in
/// all and at most 999 whole degrees. Digits past the seventh after the point
/// are dropped.
pub open spec fn decimal_units(b: Seq<char>) -> Option<nat> {
    let p = digit_run(b) as int;
    let whole = b.take(p);
    let frac = if p < b.len() {
        b.skip(p + 1)
    } else {
        Seq::<char>::empty()
    };
    if (p == b.len() || (b[p] == '.' && all_digits(frac))) && p + frac.len() > 0 && digits_value(
        whole,
    ) <= 999 {
        Some(digits_value(whole) * 10_000_000 + digits_value(fraction_digits(frac)))
    } else {
        None
    }
}

/// A coordinate field in units of 1e-7 degree: an optional sign before an
/// unsigned decimal.
pub open spec fn coordinate_units(s: Seq<char>) -> Option<int> {
    if s.len() > 0 && s[0] == '-' {
        match decimal_units(s.drop_first()) {
            Some(v) => Some(-(v as int)),
            None => None,
        }
    } else {
        match decimal_units(unsigned_body(s)) {
            Some(v) => Some(v as int),
            None => None,
        }
    }
}

proof fn lemma_digit_run(s: Seq<char>, p: int)
    requires
        0 <= p <= s.len(),
        all_digits(s.take(p)),
        p == s.len() || !is_digit(s[p]),
    ensures
        digit_run(s) == p,
    decreases p,
{
    if p > 0 {
        assert(is_digit(s.take(p)[0]));
        let t = s.drop_first();
        assert forall|i: int| 0 <= i < p - 1 implies is_digit(#[trigger] t.take(p - 1)[i]) by {
            assert(s.take(p)[i + 1] == t[i]);
        }
        if p < s.len() {
            assert(t[p - 1] == s[p]);
        }
        lemma_digit_run(t, p - 1);
    }
}

/// Reads the unsigned decimal `s[lo..hi]` in units of 1e-7 degree.
fn parse_decimal_units(s: &Vec<char>, lo: usize, hi: usize) -> (r: Option<u64>)
    requires
        lo <= hi <= s@.len(),
    ensures
        match decimal_units(s@.subrange(lo as int, hi as int)) {
            Some(v) => r is Some && r.unwrap() == v,
            None => r is None,
        },
        r matches Some(v) ==> v < 10_000_000_000,
{
    let ghost b = s@.subrange(lo as int, hi as int);
    let mut p: usize = lo;
    while p < hi && '0' <= s[p] && s[p] <= '9'
        invariant
            lo <= p <= hi <= s@.len(),
            b == s@.subrange(lo as int, hi as int),
            all_digits(b.take(p - lo)),
        decreases hi - p,
    {
        assert(b.take(p + 1 - lo) =~= b.take(p - lo).push(s@[p as int]));
        p = p + 1;
    }
    proof {
        lemma_digit_run(b, p - lo);
    }
    let whole: u64 = if p == lo {
        assert(b.take(0) =~= Seq::<char>::empty());
        0
    } else {
        assert(b.take(p - lo) =~= s@.subrange(lo as int, p as int));
        match digits_up_to(s, lo, p, MAX_WHOLE_DEGREES) {
            Some(v) => v,
            None => {
                return None;
            },
        }
    };
    let ghost frac = if p - lo < b.len() {
        b.skip(p - lo + 1)
    } else {
        Seq::<char>::empty()
    };
    let mut fs: usize = hi;
    if p < hi {
        if s[p] != '.' {
            return None;
        }
        fs = p + 1;
        let mut j: usize = fs;
        while j < hi
            invariant
                fs <= j <= hi <= s@.len(),
                fs == p + 1,
                p < hi,
                lo <= p,
                digit_run(b) == p - lo,
                frac == b.skip(p - lo + 1),
                b == s@.subrange(lo as int, hi as int),
                all_digits(frac.take(j - fs)),
            decreases hi - j,
        {
            if !('0' <= s[j] && s[j] <= '9') {
                assert(frac[j - fs] == s@[j as int]);
                assert(!is_digit(frac[j - fs]));
                assert(!all_digits(frac));
                assert(digit_run(b) == p - lo);
                assert(p - lo < b.len());
                return None;
            }
            assert(frac.take(j + 1 - fs) =~= frac.take(j - fs).push(s@[j as int]));
            j = j + 1;
        }
        assert(frac.take(j - fs) =~= frac);
        assert(frac =~= s@.subrange(fs as int, hi as int));
    } else {
        assert(frac =~= s@.subrange(fs as int, hi as int));
    }
    if p == lo && fs == hi {
        return None;
    }
    let ghost fd = fraction_digits(frac);
    let mut acc: u64 = 0;
    let mut k: usize = 0;
    while k < FRACTION_DIGITS
        invariant
            k <= 7,
            fs <= hi <= s@.len(),
            frac =~= s@.subrange(fs as int, hi as int),
            all_digits(frac),
            fd == fraction_digits(frac),
            acc == digits_value(fd.take(k as int)),
            acc < 10_000_000,
            acc < pow10_spec(k as nat),
        decreases 7 - k,
    {
        let c = if k < hi - fs {
            s[fs + k]
        } else {
            '0'
        };
        assert(c == fd[k as int]);
        assert(is_digit(c));
        assert(fd.take(k + 1) =~= fd.take(k as int).push(c));
        proof {
            lemma_digits_value_push(fd.take(k as int), c);
            assert(acc * 10 + digit_value(c) < pow10_spec(k as nat) * 10) by (nonlinear_arith)
                requires
                    acc < pow10_spec(k as nat),
                    digit_value(c) <= 9,
            ;
        }
        acc = acc * 10 + (c as u32 - '0' as u32) as u64;
        k = k + 1;
        proof {
            reveal_with_fuel(pow10_spec, 8);
            lemma_pow10_monotone(k as nat, 7);
        }
    }
    assert(fd.take(7) =~= fd);
    Some(whole * 10_000_000 + acc)
}

/// Ten to the power `k`.
pub open spec fn pow10_spec(k: nat) -> nat
    decreases k,
{
    if k == 0 {
        1
    } else {
        10 * pow10_spec((k - 1) as nat)
    }
}

proof fn lemma_pow10_monotone(a: nat, b: nat)
    requires
        a <= b,
    ensures
        pow10_spec(a) <= pow10_spec(b),
    decreases b,
{
    if a < b {
        lemma_pow10_monotone(a, (b - 1) as nat);
    }
}

/// Reads the coordinate field `s[lo..hi]` in units of 1e-7 degree.
pub fn parse_coordinate(s: &Vec<char>, lo: usize, hi: usize) -> (r: Option<i64>)
    requires
        lo <= hi <= s@.len(),
    ensures
        match coordinate_units(s@.subrange(lo as int, hi as int)) {
            Some(v) => r is Some && r.unwrap() == v,
            None => r is None,
        },
{
    let ghost f = s@.subrange(lo as int, hi as int);
    if lo < hi && s[lo] == '-' {
        assert(f.drop_first() =~= s@.subrange(lo + 1, hi as int));
        match parse_decimal_units(s, lo + 1, hi) {
            Some(v) => Some(0 - (v as i64)),
            None => None,
        }
    } else {
        let mut start = lo;
        if lo < hi && s[lo] == '+' {
            start = lo + 1;
        }
        assert(unsigned_body(f) =~= s@.subrange(start as int, hi as int));
        match parse_decimal_units(s, start, hi) {
            Some(v) => Some(v as i64),
            None => None,
        }
    }
}

} // verus!

verus! {

/// Number of comma-separated fields of a record line.
pub const FIELD_COUNT: usize = 13;

/// Number of auxiliary device-status integers of a record.
pub const AUX_COUNT: usize = 9;

/// One GPS fix as read from the trace.
///
/// Coordinates are fixed-point, in units of 1e-7 degree. A coordinate field
/// that does not read as a decimal is stored as zero, and `position_valid` is
/// then false; it is also false where a coordinate is out of range, so a fix
/// at the equator or the prime meridian is told apart from a defaulted one.
pub struct GpsSample {
    pub timestamp: u32,
    pub latitude: i64,
    pub longitude: i64,
    pub position_valid: bool,
    pub fix_letter: String,
    pub auxiliary: [i32; 9],
}

/// The mathematical content of a [`GpsSample`].
pub struct SampleView {
    pub timestamp: u32,
    pub latitude: int,
    pub longitude: int,
    pub position_valid: bool,
    pub fix_letter: Seq<char>,
    pub auxiliary: Seq<i32>,
}

impl View for GpsSample {
    type V = SampleView;

    open spec fn view(&self) -> SampleView {
        SampleView {
            timestamp: self.timestamp,
            latitude: self.latitude as int,
            longitude: self.longitude as int,
            position_valid: self.position_valid,
            fix_letter: self.fix_letter@,
            auxiliary: self.auxiliary@,
        }
    }
}

/// Why a record line was rejected.
#[derive(Clone, Copy, Debug, PartialEq, Eq, Structural)]
pub enum LineFault {
    /// The line has fewer than thirteen comma-separated fields.
    TooFewFields,
    /// The field at this index (from zero) does not read as its integer type.
    BadInteger { field: usize },
}

/// Why a trace was rejected: the fault and its line, counted from one.
#[derive(Clone, Copy, Debug, PartialEq, Eq, Structural)]
pub enum TraceError {
    TooFewFields { line: usize },
    BadInteger { line: usize, field: usize },
}

/// A latitude within [-90, 90] degrees.
pub open spec fn latitude_in_range(v: int) -> bool {
    -900_000_000 <= v <= 900_000_000
}

/// A longitude within [-180, 180] degrees.
pub open spec fn longitude_in_range(v: int) -> bool {
    -1_800_000_000 <= v <= 1_800_000_000
}

/// Index of the first auxiliary field from `k` on that is not an `i32`.
pub open spec fn first_bad_aux(f: Seq<Seq<char>>, k: nat) -> Option<nat>
    decreases 9 - k,
{
    if k >= 9 {
        None
    } else if i32_field(f[4 + k as int]) is None {
        Some(k)
    } else {
        first_bad_aux(f, k + 1)
    }
}

/// What a record line reads as: `timestamp,fix_letter,latitude,longitude`
/// and nine auxiliary integers; fields past the thirteenth are ignored.
pub open spec fn record_of(line: Seq<char>) -> Result<SampleView, LineFault> {
    let f = split_on(line, ',');
    if f.len() < 13 {
        Err(LineFault::TooFewFields)
    } else if u32_field(f[0]) is None {
        Err(LineFault::BadInteger { field: 0 })
    } else if first_bad_aux(f, 0) is Some {
        Err(LineFault::BadInteger { field: (4 + first_bad_aux(f, 0).unwrap()) as usize })
    } else {
        let lat = coordinate_units(f[2]);
        let lon = coordinate_units(f[3]);
        Ok(
            SampleView {
                timestamp: u32_field(f[0]).unwrap(),
                latitude: if lat is Some {
                    lat.unwrap()
                } else {
                    0
                },
                longitude: if lon is Some {
                    lon.unwrap()
                } else {
                    0
                },
                position_valid: lat is Some && lon is Some && latitude_in_range(lat.unwrap())
                    && longitude_in_range(lon.unwrap()),
                fix_letter: f[1],
                auxiliary: Seq::new(9, |k: int| i32_field(f[4 + k]).unwrap()),
            },
        )
    }
}

/// Reads the record line `s[lo..hi]`.
pub fn parse_record(s: &Vec<char>, lo: usize, hi: usize) -> (r: Result<GpsSample, LineFault>)
    requires
        lo <= hi <= s@.len(),
    ensures
        match record_of(s@.subrange(lo as int, hi as int)) {
            Ok(v) => r is Ok && r.unwrap()@ == v,
            Err(e) => r == Err::<GpsSample, LineFault>(e),
        },
{
    let ghost line = s@.subrange(lo as int, hi as int);
    let f = split_ranges(s, lo, hi, ',');
    let ghost fs = split_on(line, ',');
    if f.len() < FIELD_COUNT {
        return Err(LineFault::TooFewFields);
    }
    let timestamp = match parse_u32_field(s, f[0].0, f[0].1) {
        Some(t) => t,
        None => {
            return Err(LineFault::BadInteger { field: 0 });
        },
    };
    let mut auxiliary: [i32; 9] = [0i32; 9];
    let mut k: usize = 0;
    while k < AUX_COUNT
        invariant
            k <= 9,
            lo <= hi <= s@.len(),
            line == s@.subrange(lo as int, hi as int),
            f@.len() == fs.len() >= 13,
            fs == split_on(line, ','),
            forall|j: int|
                0 <= j < f@.len() ==> {
                    &&& lo <= (#[trigger] f@[j]).0 <= f@[j].1 <= hi
                    &&& s@.subrange(f@[j].0 as int, f@[j].1 as int) == fs[j]
                },
            first_bad_aux(fs, 0) == first_bad_aux(fs, k as nat),
            u32_field(fs[0]) == Some(timestamp),
            forall|j: int| 0 <= j < k ==> i32_field(fs[4 + j]) == Some(#[trigger] auxiliary@[j]),
        decreases 9 - k,
    {
        let (a, b) = f[4 + k];
        assert(s@.subrange(a as int, b as int) == fs[4 + k as int]);
        match parse_i32_field(s, a, b) {
            Some(v) => {
                auxiliary[k] = v;
            },
            None => {
                assert(first_bad_aux(fs, k as nat) == Some(k as nat));
                return Err(LineFault::BadInteger { field: 4 + k });
            },
        }
        k = k + 1;
    }
    let lat = parse_coordinate(s, f[2].0, f[2].1);
    let lon = parse_coordinate(s, f[3].0, f[3].1);
    let latitude: i64 = match lat {
        Some(v) => v,
        None => 0,
    };
    let longitude: i64 = match lon {
        Some(v) => v,
        None => 0,
    };
    let position_valid = lat.is_some() && lon.is_some() && -900_000_000 <= latitude
        && latitude <= 900_000_000 && -1_800_000_000 <= longitude && longitude <= 1_800_000_000;
    let letter = copy_range(s, f[1].0, f[1].1);
    let sample = GpsSample {
        timestamp,
        latitude,
        longitude,
        position_valid,
        fix_letter: text_of(&letter),
        auxiliary,
    };
    assert(sample@.auxiliary =~= Seq::new(9, |k: int| i32_field(fs[4 + k]).unwrap()));
    Ok(sample)
}

} // verus!

verus! {

/// A line of nothing but spaces, tabs and carriage returns (or of nothing).
pub open spec fn is_blank(line: Seq<char>) -> bool {
    forall|i: int|
        0 <= i < line.len() ==> (#[trigger] line[i] == ' ' || line[i] == '\t' || line[i] == '\r')
}

/// What the lines of a trace read as, in order: `None` for a blank line, the
/// sample for a record; or the fault of the first line that is neither.
pub open spec fn trace_lines(lines: Seq<Seq<char>>) -> Result<Seq<Option<SampleView>>, TraceError>
    decreases lines.len(),
{
    if lines.len() == 0 {
        Ok(Seq::empty())
    } else {
        match trace_lines(lines.drop_last()) {
            Err(e) => Err(e),
            Ok(es) => if is_blank(lines.last()) {
                Ok(es.push(None))
            } else {
                match record_of(lines.last()) {
                    Ok(v) => Ok(es.push(Some(v))),
                    Err(LineFault::TooFewFields) => Err(
                        TraceError::TooFewFields { line: lines.len() as usize },
                    ),
                    Err(LineFault::BadInteger { field }) => Err(
                        TraceError::BadInteger { line: lines.len() as usize, field },
                    ),
                }
            },
        }
    }
}

/// What the trace text reads as, line by line.
pub open spec fn trace_of(text: Seq<char>) -> Result<Seq<Option<SampleView>>, TraceError> {
    trace_lines(split_on(text, '\n'))
}

/// The samples of the lines, blank lines dropped.
pub open spec fn records_of(es: Seq<Option<SampleView>>) -> Seq<SampleView>
    decreases es.len(),
{
    if es.len() == 0 {
        Seq::empty()
    } else {
        match es.last() {
            Some(v) => records_of(es.drop_last()).push(v),
            None => records_of(es.drop_last()),
        }
    }
}

/// The trips closed so far and the trip still open after the lines `es`: a
/// blank line closes the open trip if it holds any sample.
pub open spec fn trip_split(es: Seq<Option<SampleView>>) -> (Seq<Seq<SampleView>>, Seq<SampleView>)
    decreases es.len(),
{
    if es.len() == 0 {
        (Seq::empty(), Seq::empty())
    } else {
        let (closed, open) = trip_split(es.drop_last());
        match es.last() {
            Some(v) => (closed, open.push(v)),
            None => if open.len() > 0 {
                (closed.push(open), Seq::empty())
            } else {
                (closed, open)
            },
        }
    }
}

/// The trips of the lines: the runs of samples between blank lines, empty
/// runs dropped.
pub open spec fn trips_of(es: Seq<Option<SampleView>>) -> Seq<Seq<SampleView>> {
    let (closed, open) = trip_split(es);
    if open.len() > 0 {
        closed.push(open)
    } else {
        closed
    }
}

/// The views of a sequence of samples.
pub open spec fn samples_view(v: Seq<GpsSample>) -> Seq<SampleView> {
    v.map_values(|s: GpsSample| s@)
}

/// The views of a sequence of trips.
pub open spec fn trips_view(v: Seq<Vec<GpsSample>>) -> Seq<Seq<SampleView>> {
    v.map_values(|t: Vec<GpsSample>| samples_view(t@))
}

proof fn lemma_trace_lines_error_stays(lines: Seq<Seq<char>>, i: int)
    requires
        0 <= i <= lines.len(),
        trace_lines(lines.take(i)) is Err,
    ensures
        trace_lines(lines) == trace_lines(lines.take(i)),
    decreases lines.len(),
{
    if i < lines.len() {
        assert(lines.drop_last().take(i) =~= lines.take(i));
        lemma_trace_lines_error_stays(lines.drop_last(), i);
    } else {
        assert(lines.take(i) =~= lines);
    }
}

/// Whether `s[lo..hi]` is a blank line.
fn blank_range(s: &Vec<char>, lo: usize, hi: usize) -> (r: bool)
    requires
        lo <= hi <= s@.len(),
    ensures
        r == is_blank(s@.subrange(lo as int, hi as int)),
{
    let ghost line = s@.subrange(lo as int, hi as int);
    let mut i: usize = lo;
    while i < hi
        invariant
            lo <= i <= hi <= s@.len(),
            line == s@.subrange(lo as int, hi as int),
            forall|j: int|
                0 <= j < i - lo ==> (#[trigger] line[j] == ' ' || line[j] == '\t' || line[j]
                    == '\r'),
        decreases hi - i,
    {
        let c = s[i];
        if !(c == ' ' || c == '\t' || c == '\r') {
            assert(line[i - lo] == c);
            return false;
        }
        i = i + 1;
    }
    true
}

/// What the line `s[lo..hi]`, the `number`-th of its trace, reads as.
fn parse_line(s: &Vec<char>, lo: usize, hi: usize, number: usize) -> (r: Result<
    Option<GpsSample>,
    TraceError,
>)
    requires
        lo <= hi <= s@.len(),
    ensures
        ({
            let line = s@.subrange(lo as int, hi as int);
            if is_blank(line) {
                r is Ok && r.unwrap() is None
            } else {
                match record_of(line) {
                    Ok(v) => r is Ok && r.unwrap() is Some && r.unwrap().unwrap()@ == v,
                    Err(LineFault::TooFewFields) => r == Err::<Option<GpsSample>, TraceError>(
                        TraceError::TooFewFields { line: number },
                    ),
                    Err(LineFault::BadInteger { field }) => r == Err::<
                        Option<GpsSample>,
                        TraceError,
                    >(TraceError::BadInteger { line: number, field }),
                }
            }
        }),
{
    if blank_range(s, lo, hi) {
        return Ok(None);
    }
    match parse_record(s, lo, hi) {
        Ok(sample) => Ok(Some(sample)),
        Err(LineFault::TooFewFields) => Err(TraceError::TooFewFields { line: number }),
        Err(LineFault::BadInteger { field }) => Err(TraceError::BadInteger { line: number, field }),
    }
}

/// Reads a trace for window mode: every record in file order, blank lines
/// skipped. Fails on the first line that is neither blank nor a record.
pub fn parse_samples(text: &str) -> (r: Result<Vec<GpsSample>, TraceError>)
    ensures
        match trace_of(text@) {
            Ok(es) => r is Ok && samples_view(r.unwrap()@) == records_of(es),
            Err(e) => r == Err::<Vec<GpsSample>, TraceError>(e),
        },
{
    let s = chars_of(text);
    let ranges = split_ranges(&s, 0, s.len(), '\n');
    let ghost lines = split_on(s@.subrange(0, s@.len() as int), '\n');
    assert(s@.subrange(0, s@.len() as int) =~= text@);
    let mut out: Vec<GpsSample> = Vec::new();
    let ghost mut es: Seq<Option<SampleView>> = Seq::empty();
    let mut i: usize = 0;
    assert(lines.take(0) =~= Seq::<Seq<char>>::empty());
    while i < ranges.len()
        invariant
            i <= ranges@.len() == lines.len(),
            lines == split_on(text@, '\n'),
            forall|k: int|
                0 <= k < ranges@.len() ==> {
                    &&& (#[trigger] ranges@[k]).0 <= ranges@[k].1 <= s@.len()
                    &&& s@.subrange(ranges@[k].0 as int, ranges@[k].1 as int) == lines[k]
                },
            trace_lines(lines.take(i as int)) == Ok::<Seq<Option<SampleView>>, TraceError>(es),
            samples_view(out@) == records_of(es),
        decreases ranges@.len() - i,
    {
        let (a, b) = ranges[i];
        let ghost prefix = lines.take(i + 1);
        assert(prefix.drop_last() =~= lines.take(i as int));
        assert(prefix.last() == lines[i as int]);
        match parse_line(&s, a, b, i + 1) {
            Ok(Some(sample)) => {
                let ghost old_es = es;
                let ghost old_out = out@;
                proof {
                    es = es.push(Some(sample@));
                }
                out.push(sample);
                assert(es.drop_last() =~= old_es);
                assert(samples_view(out@) =~= samples_view(old_out).push(sample@));
            },
            Ok(None) => {
                let ghost old_es = es;
                proof {
                    es = es.push(None);
                }
                assert(es.drop_last() =~= old_es);
                assert(records_of(es) == records_of(es.drop_last()));
            },
            Err(e) => {
                proof {
                    lemma_trace_lines_error_stays(lines, i + 1);
                }
                return Err(e);
            },
        }
        i = i + 1;
    }
    assert(lines.take(i as int) =~= lines);
    Ok(out)
}

/// Reads a trace for trip mode: the runs of records between blank lines, in
/// file order, each run one trip; no trip is empty. Fails on the first line
/// that is neither blank nor a record.
pub fn parse_trips(text: &str) -> (r: Result<Vec<Vec<GpsSample>>, TraceError>)
    ensures
        match trace_of(text@) {
            Ok(es) => r is Ok && trips_view(r.unwrap()@) == trips_of(es),
            Err(e) => r == Err::<Vec<Vec<GpsSample>>, TraceError>(e),
        },
{
    let s = chars_of(text);
    let ranges = split_ranges(&s, 0, s.len(), '\n');
    let ghost lines = split_on(s@.subrange(0, s@.len() as int), '\n');
    assert(s@.subrange(0, s@.len() as int) =~= text@);
    let mut trips: Vec<Vec<GpsSample>> = Vec::new();
    let mut open: Vec<GpsSample> = Vec::new();
    let ghost mut es: Seq<Option<SampleView>> = Seq::empty();
    let mut i: usize = 0;
    assert(lines.take(0) =~= Seq::<Seq<char>>::empty());
    assert(trips_view(trips@) =~= Seq::<Seq<SampleView>>::empty());
    assert(samples_view(open@) =~= Seq::<SampleView>::empty());
    while i < ranges.len()
        invariant
            i <= ranges@.len() == lines.len(),
            lines == split_on(text@, '\n'),
            forall|k: int|
                0 <= k < ranges@.len() ==> {
                    &&& (#[trigger] ranges@[k]).0 <= ranges@[k].1 <= s@.len()
                    &&& s@.subrange(ranges@[k].0 as int, ranges@[k].1 as int) == lines[k]
                },
            trace_lines(lines.take(i as int)) == Ok::<Seq<Option<SampleView>>, TraceError>(es),
            trip_split(es) == (trips_view(trips@), samples_view(open@)),
        decreases ranges@.len() - i,
    {
        let (a, b) = ranges[i];
        let ghost prefix = lines.take(i + 1);
        assert(prefix.drop_last() =~= lines.take(i as int));
        assert(prefix.last() == lines[i as int]);
        match parse_line(&s, a, b, i + 1) {
            Ok(Some(sample)) => {
                let ghost old_es = es;
                let ghost old_open = open@;
                proof {
                    es = es.push(Some(sample@));
                }
                open.push(sample);
                assert(es.drop_last() =~= old_es);
                assert(samples_view(open@) =~= samples_view(old_open).push(sample@));
            },
            Ok(None) => {
                let ghost old_es = es;
                proof {
                    es = es.push(None);
                }
                assert(es.drop_last() =~= old_es);
                if open.len() > 0 {
                    let ghost before = trips@;
                    let ghost closing = open@;
                    trips.push(open);
                    open = Vec::new();
                    assert(trips_view(trips@) =~= trips_view(before).push(samples_view(closing)));
                    assert(samples_view(open@) =~= Seq::<SampleView>::empty());
                }
            },
            Err(e) => {
                proof {
                    lemma_trace_lines_error_stays(lines, i + 1);
                }
                return Err(e);
            },
        }
        i = i + 1;
    }
    assert(lines.take(i as int) =~= lines);
    if open.len() > 0 {
        let ghost before = trips@;
        let ghost closing = open@;
        trips.push(open);
        assert(trips_view(trips@) =~= trips_view(before).push(samples_view(closing)));
    }
    Ok(trips)
}

/// A blank line splits the trips: the trips of lines `before`, a blank line
/// and lines `after` are the trips of `before` followed by those of `after`;
/// none runs across the blank line.
pub proof fn lemma_blank_line_splits_trips(
    before: Seq<Option<SampleView>>,
    after: Seq<Option<SampleView>>,
)
    ensures
        trips_of(before.push(None) + after) == trips_of(before) + trips_of(after),
{
    let a = before.push(None);
    assert(a.drop_last() =~= before);
    assert(trip_split(a).1 =~= Seq::<SampleView>::empty());
    assert(trip_split(a).0 =~= trips_of(before));
    lemma_trip_split_append(a, after);
    assert(trips_of(a + after) =~= trips_of(before) + trips_of(after));
}

proof fn lemma_trip_split_append(a: Seq<Option<SampleView>>, b: Seq<Option<SampleView>>)
    requires
        trip_split(a).1.len() == 0,
    ensures
        trip_split(a + b) == (trip_split(a).0 + trip_split(b).0, trip_split(b).1),
    decreases b.len(),
{
    if b.len() == 0 {
        assert(a + b =~= a);
        assert(trip_split(a).0 + trip_split(b).0 =~= trip_split(a).0);
        assert(trip_split(a).1 =~= Seq::<SampleView>::empty());
    } else {
        assert((a + b).drop_last() =~= a + b.drop_last());
        lemma_trip_split_append(a, b.drop_last());
        let (cb, ob) = trip_split(b.drop_last());
        match b.last() {
            Some(v) => {},
            None => {
                if ob.len() > 0 {
                    assert(trip_split(a).0 + cb.push(ob) =~= (trip_split(a).0 + cb).push(ob));
                }
            },
        }
    }
}

} // verus!
