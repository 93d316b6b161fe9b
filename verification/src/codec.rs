use vstd::prelude::*;
use vstd::string::StrSliceExecFns;
use crate::calendar::{calendar_wf, Calendar};
use crate::date::Date;
use crate::day::{DayView, Location, OneDaysWork};
use crate::interval::{IntervalView, WorkTimes};

verus! {

// The stored form of a calendar is a stream of 64-bit words: the number of
// day records, then each record in order. A record is its date (year,
// month, day), the cumulative total, the two optional sums, the location,
// the vacation flag, the interval count, and the intervals. An optional
// value is a presence tag followed by the value; a label is a tag, a
// length, and one word per character. Decoding accepts exactly the streams
// that encoding produces for a well-formed calendar: anything else —
// truncated input, an unknown tag, an invalid date, trailing words, or
// records that break the calendar's invariants — is rejected.

pub open spec fn enc_u64(v: u64) -> Seq<u64> {
    seq![v]
}

pub open spec fn enc_opt(v: Option<u64>) -> Seq<u64> {
    match v {
        None => seq![0u64],
        Some(x) => seq![1u64, x],
    }
}

pub open spec fn enc_chars(s: Seq<char>) -> Seq<u64> {
    Seq::new(s.len(), |i: int| (s[i] as u32) as u64)
}

pub open spec fn enc_label(l: Option<Seq<char>>) -> Seq<u64> {
    match l {
        None => seq![0u64],
        Some(s) => seq![1u64, s.len() as u64] + enc_chars(s),
    }
}

pub open spec fn enc_loc(l: Option<Location>) -> Seq<u64> {
    match l {
        None => seq![0u64],
        Some(Location::Homeoffice) => seq![1u64],
        Some(Location::Office) => seq![2u64],
    }
}

pub open spec fn enc_bool(b: bool) -> Seq<u64> {
    if b {
        seq![1u64]
    } else {
        seq![0u64]
    }
}

pub open spec fn enc_interval(iv: IntervalView) -> Seq<u64> {
    enc_label(iv.label) + enc_opt(iv.start) + enc_opt(iv.end) + enc_opt(iv.duration) + enc_opt(
        iv.pause,
    )
}

pub open spec fn enc_intervals(ivs: Seq<IntervalView>) -> Seq<u64>
    decreases ivs.len(),
{
    if ivs.len() == 0 {
        Seq::empty()
    } else {
        enc_interval(ivs[0]) + enc_intervals(ivs.drop_first())
    }
}

pub open spec fn enc_date(d: Date) -> Seq<u64> {
    seq![d.year as u64, d.month as u64, d.day as u64]
}

pub open spec fn enc_day(d: DayView) -> Seq<u64> {
    enc_date(d.date) + enc_u64(d.sum_total) + enc_opt(d.sum_work) + enc_opt(d.sum_pause) + enc_loc(
        d.location,
    ) + enc_bool(d.vacation) + enc_u64(d.work_duration.len() as u64) + enc_intervals(
        d.work_duration,
    )
}

pub open spec fn enc_days(days: Seq<DayView>) -> Seq<u64>
    decreases days.len(),
{
    if days.len() == 0 {
        Seq::empty()
    } else {
        enc_day(days[0]) + enc_days(days.drop_first())
    }
}

/// The stored form of a whole calendar.
pub open spec fn spec_encode(days: Seq<DayView>) -> Seq<u64> {
    enc_u64(days.len() as u64) + enc_days(days)
}

// ---------------------------------------------------------------------
// Decoding: each function reads one layer at a word position and yields
// the value with the position after it, or `None` when the stream does
// not hold one.

pub open spec fn dec_u64(s: Seq<u64>, i: int) -> Option<(u64, int)> {
    if 0 <= i < s.len() {
        Some((s[i], i + 1))
    } else {
        None
    }
}

pub open spec fn dec_opt(s: Seq<u64>, i: int) -> Option<(Option<u64>, int)> {
    match dec_u64(s, i) {
        None => None,
        Some((tag, j)) => {
            if tag == 0 {
                Some((None, j))
            } else if tag == 1 {
                match dec_u64(s, j) {
                    None => None,
                    Some((v, k)) => Some((Some(v), k)),
                }
            } else {
                None
            }
        },
    }
}

/// A word that holds a Unicode scalar value.
pub open spec fn valid_char_word(w: u64) -> bool {
    w < 0xD800 || (0xE000 <= w && w <= 0x10FFFF)
}

pub open spec fn dec_chars(s: Seq<u64>, i: int, count: int) -> Option<(Seq<char>, int)>
    decreases count,
{
    if count <= 0 {
        if count == 0 {
            Some((Seq::empty(), i))
        } else {
            None
        }
    } else {
        match dec_u64(s, i) {
            None => None,
            Some((w, j)) => {
                if valid_char_word(w) {
                    match dec_chars(s, j, count - 1) {
                        None => None,
                        Some((cs, k)) => Some((seq![(w as u32) as char] + cs, k)),
                    }
                } else {
                    None
                }
            },
        }
    }
}

pub open spec fn dec_label(s: Seq<u64>, i: int) -> Option<(Option<Seq<char>>, int)> {
    match dec_u64(s, i) {
        None => None,
        Some((tag, j)) => {
            if tag == 0 {
                Some((None, j))
            } else if tag == 1 {
                match dec_u64(s, j) {
                    None => None,
                    Some((count, k)) => match dec_chars(s, k, count as int) {
                        None => None,
                        Some((cs, m)) => Some((Some(cs), m)),
                    },
                }
            } else {
                None
            }
        },
    }
}

pub open spec fn dec_loc(s: Seq<u64>, i: int) -> Option<(Option<Location>, int)> {
    match dec_u64(s, i) {
        None => None,
        Some((tag, j)) => {
            if tag == 0 {
                Some((None, j))
            } else if tag == 1 {
                Some((Some(Location::Homeoffice), j))
            } else if tag == 2 {
                Some((Some(Location::Office), j))
            } else {
                None
            }
        },
    }
}

pub open spec fn dec_bool(s: Seq<u64>, i: int) -> Option<(bool, int)> {
    match dec_u64(s, i) {
        None => None,
        Some((tag, j)) => {
            if tag == 0 {
                Some((false, j))
            } else if tag == 1 {
                Some((true, j))
            } else {
                None
            }
        },
    }
}

pub open spec fn dec_interval(s: Seq<u64>, i: int) -> Option<(IntervalView, int)> {
    match dec_label(s, i) {
        None => None,
        Some((label, i1)) => match dec_opt(s, i1) {
            None => None,
            Some((start, i2)) => match dec_opt(s, i2) {
                None => None,
                Some((end, i3)) => match dec_opt(s, i3) {
                    None => None,
                    Some((duration, i4)) => match dec_opt(s, i4) {
                        None => None,
                        Some((pause, i5)) => Some(
                            (IntervalView { label, start, end, duration, pause }, i5),
                        ),
                    },
                },
            },
        },
    }
}

pub open spec fn dec_intervals(s: Seq<u64>, i: int, count: int) -> Option<
    (Seq<IntervalView>, int),
>
    decreases count,
{
    if count <= 0 {
        if count == 0 {
            Some((Seq::empty(), i))
        } else {
            None
        }
    } else {
        match dec_interval(s, i) {
            None => None,
            Some((iv, j)) => match dec_intervals(s, j, count - 1) {
                None => None,
                Some((ivs, k)) => Some((seq![iv] + ivs, k)),
            },
        }
    }
}

pub open spec fn dec_date(s: Seq<u64>, i: int) -> Option<(Date, int)> {
    match dec_u64(s, i) {
        None => None,
        Some((y, i1)) => match dec_u64(s, i1) {
            None => None,
            Some((m, i2)) => match dec_u64(s, i2) {
                None => None,
                Some((d, i3)) => Some(
                    (Date { year: y as i64, month: m as i64, day: d as i64 }, i3),
                ),
            },
        },
    }
}

pub open spec fn dec_day(s: Seq<u64>, i: int) -> Option<(DayView, int)> {
    match dec_date(s, i) {
        None => None,
        Some((date, i1)) => match dec_u64(s, i1) {
            None => None,
            Some((sum_total, i2)) => match dec_opt(s, i2) {
                None => None,
                Some((sum_work, i3)) => match dec_opt(s, i3) {
                    None => None,
                    Some((sum_pause, i4)) => match dec_loc(s, i4) {
                        None => None,
                        Some((location, i5)) => match dec_bool(s, i5) {
                            None => None,
                            Some((vacation, i6)) => match dec_u64(s, i6) {
                                None => None,
                                Some((count, i7)) => match dec_intervals(s, i7, count as int) {
                                    None => None,
                                    Some((work_duration, i8)) => Some(
                                        (
                                            DayView {
                                                date,
                                                work_duration,
                                                sum_work,
                                                sum_pause,
                                                sum_total,
                                                location,
                                                vacation,
                                            },
                                            i8,
                                        ),
                                    ),
                                },
                            },
                        },
                    },
                },
            },
        },
    }
}

pub open spec fn dec_days(s: Seq<u64>, i: int, count: int) -> Option<(Seq<DayView>, int)>
    decreases count,
{
    if count <= 0 {
        if count == 0 {
            Some((Seq::empty(), i))
        } else {
            None
        }
    } else {
        match dec_day(s, i) {
            None => None,
            Some((d, j)) => match dec_days(s, j, count - 1) {
                None => None,
                Some((ds, k)) => Some((seq![d] + ds, k)),
            },
        }
    }
}

/// Decoding a whole stream: the day count, that many records, nothing
/// left over, and the result well-formed — otherwise nothing.
pub open spec fn spec_decode(s: Seq<u64>) -> Option<Seq<DayView>> {
    match dec_u64(s, 0) {
        None => None,
        Some((count, i)) => match dec_days(s, i, count as int) {
            None => None,
            Some((days, k)) => {
                if k == s.len() && calendar_wf(days) {
                    Some(days)
                } else {
                    None
                }
            },
        },
    }
}

// ---------------------------------------------------------------------
// What encoding can represent losslessly: every length must fit in one
// word. Any calendar actually held in memory satisfies this.

pub open spec fn interval_encodable(iv: IntervalView) -> bool {
    match iv.label {
        Some(cs) => cs.len() <= u64::MAX,
        None => true,
    }
}

pub open spec fn day_encodable(d: DayView) -> bool {
    &&& d.work_duration.len() <= u64::MAX
    &&& forall|i: int| 0 <= i < d.work_duration.len() ==> interval_encodable(
        #[trigger] d.work_duration[i],
    )
}

pub open spec fn days_encodable(days: Seq<DayView>) -> bool {
    &&& days.len() <= u64::MAX
    &&& forall|i: int| 0 <= i < days.len() ==> day_encodable(#[trigger] days[i])
}

// ---------------------------------------------------------------------
// Round trip: decoding reads back exactly what encoding wrote.

/// Splitting a stream slice along the border of two encoded pieces.
proof fn lemma_subrange_split(s: Seq<u64>, i: int, x: Seq<u64>, y: Seq<u64>)
    requires
        0 <= i,
        i + x.len() + y.len() <= s.len(),
        s.subrange(i, i + x.len() + y.len()) == x + y,
    ensures
        s.subrange(i, i + x.len()) == x,
        s.subrange(i + x.len(), i + x.len() + y.len()) == y,
{
    assert forall|k: int| 0 <= k < x.len() implies s.subrange(i, i + x.len())[k] == x[k] by {
        assert(s.subrange(i, i + x.len())[k] == s[i + k]);
        assert(s[i + k] == s.subrange(i, i + x.len() + y.len())[k]);
        assert((x + y)[k] == x[k]);
    }
    assert(s.subrange(i, i + x.len()) =~= x);
    assert forall|k: int|
        0 <= k < y.len() implies s.subrange(i + x.len(), i + x.len() + y.len())[k] == y[k] by {
        assert(s.subrange(i + x.len(), i + x.len() + y.len())[k] == s[i + x.len() + k]);
        assert(s[i + x.len() + k] == s.subrange(i, i + x.len() + y.len())[x.len() + k]);
        assert((x + y)[x.len() + k] == y[k]);
    }
    assert(s.subrange(i + x.len(), i + x.len() + y.len()) =~= y);
}

proof fn lemma_dec_u64(s: Seq<u64>, i: int, v: u64)
    requires
        0 <= i,
        i + 1 <= s.len(),
        s.subrange(i, i + 1) == enc_u64(v),
    ensures
        dec_u64(s, i) == Some((v, i + 1)),
{
    assert(s[i] == s.subrange(i, i + 1)[0]);
}

proof fn lemma_dec_opt(s: Seq<u64>, i: int, v: Option<u64>)
    requires
        0 <= i,
        i + enc_opt(v).len() <= s.len(),
        s.subrange(i, i + enc_opt(v).len()) == enc_opt(v),
    ensures
        dec_opt(s, i) == Some((v, i + enc_opt(v).len())),
{
    match v {
        None => {
            assert(s[i] == s.subrange(i, i + 1)[0]);
        },
        Some(x) => {
            assert(s[i] == s.subrange(i, i + 2)[0]);
            assert(s[i + 1] == s.subrange(i, i + 2)[1]);
        },
    }
}

/// A character's code point survives the trip into a word and back.
proof fn lemma_char_word_roundtrip(c: char)
    ensures
        valid_char_word((c as u32) as u64),
        (((c as u32) as u64) as u32) as char == c,
{
    vstd::utf8::char_is_scalar(c);
    vstd::utf8::char_u32_cast(c, c as u32);
}

proof fn lemma_dec_chars(s: Seq<u64>, i: int, cs: Seq<char>)
    requires
        0 <= i,
        i + cs.len() <= s.len(),
        s.subrange(i, i + cs.len()) == enc_chars(cs),
    ensures
        dec_chars(s, i, cs.len() as int) == Some((cs, i + cs.len())),
    decreases cs.len(),
{
    if cs.len() == 0 {
        assert(dec_chars(s, i, 0) == Some((Seq::<char>::empty(), i)));
        assert(cs =~= Seq::<char>::empty());
    } else {
        let w = (cs[0] as u32) as u64;
        lemma_char_word_roundtrip(cs[0]);
        assert(s[i] == s.subrange(i, i + cs.len())[0]);
        assert(s[i] == w);
        let rest = cs.drop_first();
        assert forall|k: int|
            0 <= k < rest.len() implies s.subrange(i + 1, i + 1 + rest.len())[k] == enc_chars(
            rest,
        )[k] by {
            assert(s.subrange(i + 1, i + 1 + rest.len())[k] == s[i + 1 + k]);
            assert(s[i + 1 + k] == s.subrange(i, i + cs.len())[1 + k]);
            assert(enc_chars(cs)[1 + k] == (cs[1 + k] as u32) as u64);
            assert(enc_chars(rest)[k] == (rest[k] as u32) as u64);
            assert(rest[k] == cs[1 + k]);
        }
        assert(s.subrange(i + 1, i + 1 + rest.len()) =~= enc_chars(rest));
        lemma_dec_chars(s, i + 1, rest);
        assert(seq![cs[0]] + rest =~= cs);
    }
}

proof fn lemma_dec_label(s: Seq<u64>, i: int, l: Option<Seq<char>>)
    requires
        0 <= i,
        i + enc_label(l).len() <= s.len(),
        s.subrange(i, i + enc_label(l).len()) == enc_label(l),
        match l {
            Some(cs) => cs.len() <= u64::MAX,
            None => true,
        },
    ensures
        dec_label(s, i) == Some((l, i + enc_label(l).len())),
{
    match l {
        None => {
            assert(s[i] == s.subrange(i, i + 1)[0]);
        },
        Some(cs) => {
            let hdr = seq![1u64, cs.len() as u64];
            lemma_subrange_split(s, i, hdr, enc_chars(cs));
            assert(s[i] == s.subrange(i, i + 2)[0]);
            assert(s[i + 1] == s.subrange(i, i + 2)[1]);
            lemma_dec_chars(s, i + 2, cs);
        },
    }
}

proof fn lemma_dec_loc(s: Seq<u64>, i: int, l: Option<Location>)
    requires
        0 <= i,
        i + enc_loc(l).len() <= s.len(),
        s.subrange(i, i + enc_loc(l).len()) == enc_loc(l),
    ensures
        dec_loc(s, i) == Some((l, i + enc_loc(l).len())),
{
    assert(s[i] == s.subrange(i, i + 1)[0]);
}

proof fn lemma_dec_bool(s: Seq<u64>, i: int, b: bool)
    requires
        0 <= i,
        i + 1 <= s.len(),
        s.subrange(i, i + 1) == enc_bool(b),
    ensures
        dec_bool(s, i) == Some((b, i + 1)),
{
    assert(s[i] == s.subrange(i, i + 1)[0]);
}

proof fn lemma_dec_interval(s: Seq<u64>, i: int, iv: IntervalView)
    requires
        0 <= i,
        i + enc_interval(iv).len() <= s.len(),
        s.subrange(i, i + enc_interval(iv).len()) == enc_interval(iv),
        interval_encodable(iv),
    ensures
        dec_interval(s, i) == Some((iv, i + enc_interval(iv).len())),
{
    let e1 = enc_label(iv.label);
    let e2 = enc_opt(iv.start);
    let e3 = enc_opt(iv.end);
    let e4 = enc_opt(iv.duration);
    let e5 = enc_opt(iv.pause);
    assert(enc_interval(iv) =~= e1 + (e2 + (e3 + (e4 + e5))));
    lemma_subrange_split(s, i, e1, e2 + (e3 + (e4 + e5)));
    let i1 = i + e1.len();
    lemma_subrange_split(s, i1, e2, e3 + (e4 + e5));
    let i2 = i1 + e2.len();
    lemma_subrange_split(s, i2, e3, e4 + e5);
    let i3 = i2 + e3.len();
    lemma_subrange_split(s, i3, e4, e5);
    let i4 = i3 + e4.len();
    lemma_dec_label(s, i, iv.label);
    lemma_dec_opt(s, i1, iv.start);
    lemma_dec_opt(s, i2, iv.end);
    lemma_dec_opt(s, i3, iv.duration);
    lemma_dec_opt(s, i4, iv.pause);
}

proof fn lemma_dec_intervals(s: Seq<u64>, i: int, ivs: Seq<IntervalView>)
    requires
        0 <= i,
        i + enc_intervals(ivs).len() <= s.len(),
        s.subrange(i, i + enc_intervals(ivs).len()) == enc_intervals(ivs),
        forall|k: int| 0 <= k < ivs.len() ==> interval_encodable(#[trigger] ivs[k]),
    ensures
        dec_intervals(s, i, ivs.len() as int) == Some((ivs, i + enc_intervals(ivs).len())),
    decreases ivs.len(),
{
    if ivs.len() == 0 {
        assert(ivs =~= Seq::<IntervalView>::empty());
    } else {
        let first = ivs[0];
        let rest = ivs.drop_first();
        lemma_subrange_split(s, i, enc_interval(first), enc_intervals(rest));
        lemma_dec_interval(s, i, first);
        assert(forall|k: int|
            0 <= k < rest.len() ==> interval_encodable(#[trigger] rest[k]) && rest[k] == ivs[k
                + 1]);
        lemma_dec_intervals(s, i + enc_interval(first).len(), rest);
        assert(seq![first] + rest =~= ivs);
    }
}

proof fn lemma_dec_date(s: Seq<u64>, i: int, d: Date)
    requires
        0 <= i,
        i + 3 <= s.len(),
        s.subrange(i, i + 3) == enc_date(d),
        d.valid(),
    ensures
        dec_date(s, i) == Some((d, i + 3)),
{
    assert(s[i] == s.subrange(i, i + 3)[0]);
    assert(s[i + 1] == s.subrange(i, i + 3)[1]);
    assert(s[i + 2] == s.subrange(i, i + 3)[2]);
}

proof fn lemma_dec_day(s: Seq<u64>, i: int, d: DayView)
    requires
        0 <= i,
        i + enc_day(d).len() <= s.len(),
        s.subrange(i, i + enc_day(d).len()) == enc_day(d),
        d.date.valid(),
        day_encodable(d),
    ensures
        dec_day(s, i) == Some((d, i + enc_day(d).len())),
{
    let e1 = enc_date(d.date);
    let e2 = enc_u64(d.sum_total);
    let e3 = enc_opt(d.sum_work);
    let e4 = enc_opt(d.sum_pause);
    let e5 = enc_loc(d.location);
    let e6 = enc_bool(d.vacation);
    let e7 = enc_u64(d.work_duration.len() as u64);
    let e8 = enc_intervals(d.work_duration);
    assert(enc_day(d) =~= e1 + (e2 + (e3 + (e4 + (e5 + (e6 + (e7 + e8)))))));
    lemma_subrange_split(s, i, e1, e2 + (e3 + (e4 + (e5 + (e6 + (e7 + e8))))));
    let i1 = i + e1.len();
    lemma_subrange_split(s, i1, e2, e3 + (e4 + (e5 + (e6 + (e7 + e8)))));
    let i2 = i1 + e2.len();
    lemma_subrange_split(s, i2, e3, e4 + (e5 + (e6 + (e7 + e8))));
    let i3 = i2 + e3.len();
    lemma_subrange_split(s, i3, e4, e5 + (e6 + (e7 + e8)));
    let i4 = i3 + e4.len();
    lemma_subrange_split(s, i4, e5, e6 + (e7 + e8));
    let i5 = i4 + e5.len();
    lemma_subrange_split(s, i5, e6, e7 + e8);
    let i6 = i5 + e6.len();
    lemma_subrange_split(s, i6, e7, e8);
    let i7 = i6 + e7.len();
    lemma_dec_date(s, i, d.date);
    lemma_dec_u64(s, i1, d.sum_total);
    lemma_dec_opt(s, i2, d.sum_work);
    lemma_dec_opt(s, i3, d.sum_pause);
    lemma_dec_loc(s, i4, d.location);
    lemma_dec_bool(s, i5, d.vacation);
    lemma_dec_u64(s, i6, d.work_duration.len() as u64);
    lemma_dec_intervals(s, i7, d.work_duration);
}

proof fn lemma_dec_days(s: Seq<u64>, i: int, days: Seq<DayView>)
    requires
        0 <= i,
        i + enc_days(days).len() <= s.len(),
        s.subrange(i, i + enc_days(days).len()) == enc_days(days),
        forall|k: int|
            0 <= k < days.len() ==> (#[trigger] days[k]).date.valid() && day_encodable(days[k]),
    ensures
        dec_days(s, i, days.len() as int) == Some((days, i + enc_days(days).len())),
    decreases days.len(),
{
    if days.len() == 0 {
        assert(days =~= Seq::<DayView>::empty());
    } else {
        let first = days[0];
        let rest = days.drop_first();
        lemma_subrange_split(s, i, enc_day(first), enc_days(rest));
        lemma_dec_day(s, i, first);
        assert(forall|k: int| 0 <= k < rest.len() ==> #[trigger] rest[k] == days[k + 1]);
        lemma_dec_days(s, i + enc_day(first).len(), rest);
        assert(seq![first] + rest =~= days);
    }
}

/// Appending one more item on the right extends the interval encoding on
/// the right.
proof fn lemma_enc_intervals_snoc(ivs: Seq<IntervalView>, iv: IntervalView)
    ensures
        enc_intervals(ivs.push(iv)) == enc_intervals(ivs) + enc_interval(iv),
    decreases ivs.len(),
{
    if ivs.len() == 0 {
        assert(ivs.push(iv)[0] == iv);
        assert(ivs.push(iv).drop_first() =~= Seq::<IntervalView>::empty());
        assert(enc_intervals(ivs.push(iv)) == enc_interval(iv) + enc_intervals(
            Seq::<IntervalView>::empty(),
        ));
        assert(enc_interval(iv) + Seq::<u64>::empty() =~= Seq::<u64>::empty() + enc_interval(iv));
    } else {
        let e0 = enc_interval(ivs[0]);
        let tail = enc_intervals(ivs.drop_first());
        let e = enc_interval(iv);
        assert(ivs.push(iv)[0] == ivs[0]);
        assert(ivs.push(iv).drop_first() =~= ivs.drop_first().push(iv));
        lemma_enc_intervals_snoc(ivs.drop_first(), iv);
        assert(enc_intervals(ivs.push(iv)) == e0 + (tail + e));
        assert(e0 + (tail + e) =~= (e0 + tail) + e);
        assert(enc_intervals(ivs) == e0 + tail);
    }
}

/// Appending one more record on the right extends the calendar encoding
/// on the right.
proof fn lemma_enc_days_snoc(days: Seq<DayView>, d: DayView)
    ensures
        enc_days(days.push(d)) == enc_days(days) + enc_day(d),
    decreases days.len(),
{
    if days.len() == 0 {
        assert(days.push(d)[0] == d);
        assert(days.push(d).drop_first() =~= Seq::<DayView>::empty());
        assert(enc_days(days.push(d)) == enc_day(d) + enc_days(Seq::<DayView>::empty()));
        assert(enc_day(d) + Seq::<u64>::empty() =~= Seq::<u64>::empty() + enc_day(d));
    } else {
        let e0 = enc_day(days[0]);
        let tail = enc_days(days.drop_first());
        let e = enc_day(d);
        assert(days.push(d)[0] == days[0]);
        assert(days.push(d).drop_first() =~= days.drop_first().push(d));
        lemma_enc_days_snoc(days.drop_first(), d);
        assert(enc_days(days.push(d)) == e0 + (tail + e));
        assert(e0 + (tail + e) =~= (e0 + tail) + e);
        assert(enc_days(days) == e0 + tail);
    }
}

// ---------------------------------------------------------------------
// Executable encoding.

/// Appends an optional value to the stream.
fn push_opt(out: &mut Vec<u64>, v: Option<u64>)
    ensures
        final(out)@ == old(out)@ + enc_opt(v),
{
    match v {
        None => {
            out.push(0);
        },
        Some(x) => {
            out.push(1);
            out.push(x);
        },
    }
    proof {
        assert(out@ =~= old(out)@ + enc_opt(v));
    }
}

/// Appends an optional label to the stream.
fn push_label(out: &mut Vec<u64>, l: &Option<String>)
    ensures
        final(out)@ == old(out)@ + enc_label(l.deep_view()),
{
    match l {
        None => {
            out.push(0);
            proof {
                assert(out@ =~= old(out)@ + enc_label(l.deep_view()));
            }
        },
        Some(text) => {
            out.push(1);
            let len = text.as_str().unicode_len();
            out.push(len as u64);
            let ghost prefix = out@;
            let mut i: usize = 0;
            while i < len
                invariant
                    i <= len,
                    len == text@.len(),
                    out@ == prefix + enc_chars(text@.take(i as int)),
                decreases len - i,
            {
                let c = text.as_str().get_char(i);
                out.push((c as u32) as u64);
                proof {
                    assert(enc_chars(text@.take(i + 1)) =~= enc_chars(text@.take(i as int)).push(
                        (text@[i as int] as u32) as u64,
                    ));
                    assert(out@ =~= prefix + enc_chars(text@.take(i + 1)));
                }
                i = i + 1;
            }
            proof {
                assert(text@.take(len as int) =~= text@);
                assert(out@ =~= old(out)@ + enc_label(l.deep_view()));
            }
        },
    }
}

/// Appends one interval to the stream.
fn push_interval(out: &mut Vec<u64>, wt: &WorkTimes)
    ensures
        final(out)@ == old(out)@ + enc_interval(wt@),
{
    push_label(out, &wt.label);
    push_opt(out, wt.start);
    push_opt(out, wt.end);
    push_opt(out, wt.duration);
    push_opt(out, wt.pause);
    proof {
        assert(out@ =~= old(out)@ + enc_interval(wt@));
    }
}

/// Appends one day record to the stream.
#[verifier::rlimit(60)]
fn push_day(out: &mut Vec<u64>, day: &OneDaysWork)
    requires
        day@.date.valid(),
    ensures
        final(out)@ == old(out)@ + enc_day(day@),
{
    let date = day.date();
    out.push(date.year as u64);
    out.push(date.month as u64);
    out.push(date.day as u64);
    out.push(day.sum_total());
    push_opt(out, day.sum_work());
    push_opt(out, day.sum_pause());
    match day.location() {
        None => out.push(0),
        Some(Location::Homeoffice) => out.push(1),
        Some(Location::Office) => out.push(2),
    }
    if day.vacation() {
        out.push(1);
    } else {
        out.push(0);
    }
    let intervals = day.work_duration();
    let n = intervals.len();
    out.push(n as u64);
    let ghost prefix = out@;
    let ghost ivs = day@.work_duration;
    let mut i: usize = 0;
    while i < n
        invariant
            i <= n,
            n == ivs.len(),
            ivs == intervals.deep_view(),
            out@ == prefix + enc_intervals(ivs.take(i as int)),
        decreases n - i,
    {
        push_interval(out, &intervals[i]);
        proof {
            assert(ivs.take(i + 1) =~= ivs.take(i as int).push(ivs[i as int]));
            lemma_enc_intervals_snoc(ivs.take(i as int), ivs[i as int]);
            assert(out@ =~= prefix + enc_intervals(ivs.take(i + 1)));
        }
        i = i + 1;
    }
    proof {
        assert(ivs.take(n as int) =~= ivs);
        assert(out@ =~= old(out)@ + enc_day(day@));
    }
}

/// Writes a calendar as a word stream (see `spec_encode`).
pub fn encode_calendar(cal: &Calendar) -> (out: Vec<u64>)
    requires
        calendar_wf(cal@),
    ensures
        out@ == spec_encode(cal@),
{
    let mut out: Vec<u64> = Vec::new();
    let n = cal.len();
    out.push(n as u64);
    let ghost prefix = out@;
    let ghost days = cal@;
    let mut i: usize = 0;
    while i < n
        invariant
            i <= n,
            n == days.len(),
            days == cal@,
            calendar_wf(days),
            out@ == prefix + enc_days(days.take(i as int)),
        decreases n - i,
    {
        push_day(&mut out, cal.day(i));
        proof {
            assert(days.take(i + 1) =~= days.take(i as int).push(days[i as int]));
            lemma_enc_days_snoc(days.take(i as int), days[i as int]);
            assert(out@ =~= prefix + enc_days(days.take(i + 1)));
        }
        i = i + 1;
    }
    proof {
        assert(days.take(n as int) =~= days);
        assert(out@ =~= spec_encode(days));
    }
    out
}

// ---------------------------------------------------------------------
// Executable decoding.

/// Relies on char::from_u32: yields the character with the given code
/// point exactly when the value is a Unicode scalar value (not a
/// surrogate and at most 0x10FFFF).
#[verifier::external_body]
fn char_from_u32(v: u32) -> (r: Option<char>)
    ensures
        r is Some <==> (v < 0xD800 || (0xE000 <= v && v <= 0x10FFFF)),
        r matches Some(c) ==> c == v as char,
{
    char::from_u32(v)
}

/// Relies on String::push: appends the given character to the string.
#[verifier::external_body]
fn push_char(s: &mut String, c: char)
    ensures
        final(s)@ == old(s)@.push(c),
{
    s.push(c);
}

/// Reads one word of the stream.
fn d_word(s: &Vec<u64>, i: usize) -> (r: Option<(u64, usize)>)
    ensures
        match r {
            Some(p) => dec_u64(s@, i as int) == Some((p.0, p.1 as int)) && i < p.1 <= s@.len(),
            None => dec_u64(s@, i as int) is None,
        },
{
    if i < s.len() {
        Some((s[i], i + 1))
    } else {
        None
    }
}

/// Reads an optional value.
fn d_opt(s: &Vec<u64>, i: usize) -> (r: Option<(Option<u64>, usize)>)
    ensures
        match r {
            Some(p) => dec_opt(s@, i as int) == Some((p.0, p.1 as int)) && i < p.1 <= s@.len(),
            None => dec_opt(s@, i as int) is None,
        },
{
    match d_word(s, i) {
        None => None,
        Some((tag, j)) => {
            if tag == 0 {
                Some((None, j))
            } else if tag == 1 {
                match d_word(s, j) {
                    None => None,
                    Some((v, k)) => Some((Some(v), k)),
                }
            } else {
                None
            }
        },
    }
}

/// What remains of a character run, put after what was already read.
spec fn chars_cont(s: Seq<u64>, idx: int, remaining: int, acc: Seq<char>) -> Option<
    (Seq<char>, int),
> {
    match dec_chars(s, idx, remaining) {
        None => None,
        Some((cs, m)) => Some((acc + cs, m)),
    }
}

/// Reads a run of `count` characters.
fn d_string(s: &Vec<u64>, i: usize, count: u64) -> (r: Option<(String, usize)>)
    requires
        i <= s@.len(),
    ensures
        match r {
            Some(p) => dec_chars(s@, i as int, count as int) == Some((p.0@, p.1 as int)) && i
                <= p.1 <= s@.len(),
            None => dec_chars(s@, i as int, count as int) is None,
        },
{
    let mut text = String::new();
    let mut idx: usize = i;
    let mut remaining: u64 = count;
    proof {
        let rec = dec_chars(s@, i as int, count as int);
        if rec is Some {
            let pair = rec->0;
            assert(Seq::<char>::empty() + pair.0 =~= pair.0);
        }
    }
    while remaining > 0
        invariant
            i <= idx <= s@.len(),
            dec_chars(s@, i as int, count as int) == chars_cont(
                s@,
                idx as int,
                remaining as int,
                text@,
            ),
        decreases remaining,
    {
        let ghost text0 = text@;
        match d_word(s, idx) {
            None => {
                return None;
            },
            Some((w, j)) => {
                if w > 0x10FFFF {
                    return None;
                }
                match char_from_u32(w as u32) {
                    None => {
                        return None;
                    },
                    Some(c) => {
                        proof {
                            assert(valid_char_word(w));
                            assert(c == (w as u32) as char);
                        }
                        push_char(&mut text, c);
                        idx = j;
                        remaining = remaining - 1;
                        proof {
                            let rec = dec_chars(s@, idx as int, remaining as int);
                            if rec is Some {
                                let pair = rec->0;
                                assert(text0 + (seq![c] + pair.0) =~= text0.push(c) + pair.0);
                            }
                        }
                    },
                }
            },
        }
    }
    proof {
        assert(dec_chars(s@, idx as int, 0) == Some((Seq::<char>::empty(), idx as int)));
        assert(text@ + Seq::<char>::empty() =~= text@);
    }
    Some((text, idx))
}

/// Reads an optional label.
fn d_label(s: &Vec<u64>, i: usize) -> (r: Option<(Option<String>, usize)>)
    ensures
        match r {
            Some(p) => dec_label(s@, i as int) == Some((p.0.deep_view(), p.1 as int)) && i < p.1
                <= s@.len(),
            None => dec_label(s@, i as int) is None,
        },
{
    match d_word(s, i) {
        None => None,
        Some((tag, j)) => {
            if tag == 0 {
                Some((None, j))
            } else if tag == 1 {
                match d_word(s, j) {
                    None => None,
                    Some((count, k)) => match d_string(s, k, count) {
                        None => None,
                        Some((text, m)) => Some((Some(text), m)),
                    },
                }
            } else {
                None
            }
        },
    }
}

/// Reads one interval.
fn d_interval(s: &Vec<u64>, i: usize) -> (r: Option<(WorkTimes, usize)>)
    ensures
        match r {
            Some(p) => dec_interval(s@, i as int) == Some((p.0@, p.1 as int)) && i < p.1
                <= s@.len(),
            None => dec_interval(s@, i as int) is None,
        },
{
    match d_label(s, i) {
        None => None,
        Some((label, i1)) => match d_opt(s, i1) {
            None => None,
            Some((start, i2)) => match d_opt(s, i2) {
                None => None,
                Some((end, i3)) => match d_opt(s, i3) {
                    None => None,
                    Some((duration, i4)) => match d_opt(s, i4) {
                        None => None,
                        Some((pause, i5)) => {
                            let wt = WorkTimes { label, start, end, duration, pause };
                            proof {
                                assert(wt@ =~= (IntervalView {
                                    label: wt.label.deep_view(),
                                    start,
                                    end,
                                    duration,
                                    pause,
                                }));
                            }
                            Some((wt, i5))
                        },
                    },
                },
            },
        },
    }
}

/// What remains of an interval run, put after what was already read.
spec fn intervals_cont(
    s: Seq<u64>,
    idx: int,
    remaining: int,
    acc: Seq<IntervalView>,
) -> Option<(Seq<IntervalView>, int)> {
    match dec_intervals(s, idx, remaining) {
        None => None,
        Some((ivs, m)) => Some((acc + ivs, m)),
    }
}

/// Reads a run of `count` intervals.
fn d_intervals(s: &Vec<u64>, i: usize, count: u64) -> (r: Option<(Vec<WorkTimes>, usize)>)
    requires
        i <= s@.len(),
    ensures
        match r {
            Some(p) => dec_intervals(s@, i as int, count as int) == Some(
                (p.0.deep_view(), p.1 as int),
            ) && i <= p.1 <= s@.len(),
            None => dec_intervals(s@, i as int, count as int) is None,
        },
{
    let mut items: Vec<WorkTimes> = Vec::new();
    let mut idx: usize = i;
    let mut remaining: u64 = count;
    proof {
        let rec = dec_intervals(s@, i as int, count as int);
        if rec is Some {
            let pair = rec->0;
            assert(Seq::<IntervalView>::empty() + pair.0 =~= pair.0);
        }
        assert(items.deep_view() =~= Seq::<IntervalView>::empty());
    }
    while remaining > 0
        invariant
            i <= idx <= s@.len(),
            dec_intervals(s@, i as int, count as int) == intervals_cont(
                s@,
                idx as int,
                remaining as int,
                items.deep_view(),
            ),
        decreases remaining,
    {
        let ghost acc0 = items.deep_view();
        match d_interval(s, idx) {
            None => {
                return None;
            },
            Some((wt, j)) => {
                let ghost wtv = wt@;
                items.push(wt);
                idx = j;
                remaining = remaining - 1;
                proof {
                    assert(items.deep_view() =~= acc0.push(wtv));
                    let rec = dec_intervals(s@, idx as int, remaining as int);
                    if rec is Some {
                        let pair = rec->0;
                        assert(acc0 + (seq![wtv] + pair.0) =~= acc0.push(wtv) + pair.0);
                    }
                }
            },
        }
    }
    proof {
        assert(dec_intervals(s@, idx as int, 0) == Some(
            (Seq::<IntervalView>::empty(), idx as int),
        ));
        assert(items.deep_view() + Seq::<IntervalView>::empty() =~= items.deep_view());
    }
    Some((items, idx))
}

/// Reads a date (validity is checked with the rest of the calendar's
/// well-formedness, once the whole stream is read).
fn d_date(s: &Vec<u64>, i: usize) -> (r: Option<(Date, usize)>)
    ensures
        match r {
            Some(p) => dec_date(s@, i as int) == Some((p.0, p.1 as int)) && i < p.1 <= s@.len(),
            None => dec_date(s@, i as int) is None,
        },
{
    match d_word(s, i) {
        None => None,
        Some((y, i1)) => match d_word(s, i1) {
            None => None,
            Some((m, i2)) => match d_word(s, i2) {
                None => None,
                Some((d, i3)) => Some(
                    (Date { year: y as i64, month: m as i64, day: d as i64 }, i3),
                ),
            },
        },
    }
}

/// Reads one day record.
#[verifier::rlimit(60)]
fn d_day(s: &Vec<u64>, i: usize) -> (r: Option<(OneDaysWork, usize)>)
    ensures
        match r {
            Some(p) => dec_day(s@, i as int) == Some((p.0@, p.1 as int)) && i < p.1 <= s@.len(),
            None => dec_day(s@, i as int) is None,
        },
{
    match d_date(s, i) {
        None => None,
        Some((date, i1)) => match d_word(s, i1) {
            None => None,
            Some((sum_total, i2)) => match d_opt(s, i2) {
                None => None,
                Some((sum_work, i3)) => match d_opt(s, i3) {
                    None => None,
                    Some((sum_pause, i4)) => match d_word(s, i4) {
                        None => None,
                        Some((loc_tag, i5)) => {
                            let location: Option<Location> = if loc_tag == 0 {
                                None
                            } else if loc_tag == 1 {
                                Some(Location::Homeoffice)
                            } else if loc_tag == 2 {
                                Some(Location::Office)
                            } else {
                                return None;
                            };
                            match d_word(s, i5) {
                                None => None,
                                Some((vac_tag, i6)) => {
                                    if vac_tag > 1 {
                                        return None;
                                    }
                                    let vacation = vac_tag == 1;
                                    match d_word(s, i6) {
                                        None => None,
                                        Some((count, i7)) => match d_intervals(s, i7, count) {
                                            None => None,
                                            Some((work_duration, i8)) => {
                                                let record = OneDaysWork::from_parts(
                                                    date,
                                                    work_duration,
                                                    sum_work,
                                                    sum_pause,
                                                    sum_total,
                                                    location,
                                                    vacation,
                                                );
                                                Some((record, i8))
                                            },
                                        },
                                    }
                                },
                            }
                        },
                    },
                },
            },
        },
    }
}

/// What remains of a record run, put after what was already read.
spec fn days_cont(s: Seq<u64>, idx: int, remaining: int, acc: Seq<DayView>) -> Option<
    (Seq<DayView>, int),
> {
    match dec_days(s, idx, remaining) {
        None => None,
        Some((ds, m)) => Some((acc + ds, m)),
    }
}

/// Reads a run of `count` day records.
fn d_days(s: &Vec<u64>, i: usize, count: u64) -> (r: Option<(Vec<OneDaysWork>, usize)>)
    requires
        i <= s@.len(),
    ensures
        match r {
            Some(p) => dec_days(s@, i as int, count as int) == Some(
                (p.0.deep_view(), p.1 as int),
            ) && i <= p.1 <= s@.len(),
            None => dec_days(s@, i as int, count as int) is None,
        },
{
    let mut items: Vec<OneDaysWork> = Vec::new();
    let mut idx: usize = i;
    let mut remaining: u64 = count;
    proof {
        let rec = dec_days(s@, i as int, count as int);
        if rec is Some {
            let pair = rec->0;
            assert(Seq::<DayView>::empty() + pair.0 =~= pair.0);
        }
        assert(items.deep_view() =~= Seq::<DayView>::empty());
    }
    while remaining > 0
        invariant
            i <= idx <= s@.len(),
            dec_days(s@, i as int, count as int) == days_cont(
                s@,
                idx as int,
                remaining as int,
                items.deep_view(),
            ),
        decreases remaining,
    {
        let ghost acc0 = items.deep_view();
        match d_day(s, idx) {
            None => {
                return None;
            },
            Some((record, j)) => {
                let ghost dv = record@;
                items.push(record);
                idx = j;
                remaining = remaining - 1;
                proof {
                    assert(items.deep_view() =~= acc0.push(dv));
                    let rec = dec_days(s@, idx as int, remaining as int);
                    if rec is Some {
                        let pair = rec->0;
                        assert(acc0 + (seq![dv] + pair.0) =~= acc0.push(dv) + pair.0);
                    }
                }
            },
        }
    }
    proof {
        assert(dec_days(s@, idx as int, 0) == Some((Seq::<DayView>::empty(), idx as int)));
        assert(items.deep_view() + Seq::<DayView>::empty() =~= items.deep_view());
    }
    Some((items, idx))
}

/// Reads a calendar back from a word stream (see `spec_decode`): yields a
/// calendar exactly when the whole stream decodes to a well-formed one.
pub fn decode_calendar(words: &Vec<u64>) -> (r: Option<Calendar>)
    ensures
        match r {
            Some(c) => spec_decode(words@) == Some(c@) && calendar_wf(c@),
            None => spec_decode(words@) is None,
        },
{
    match d_word(words, 0) {
        None => None,
        Some((count, i)) => match d_days(words, i, count) {
            None => None,
            Some((days, k)) => {
                if k == words.len() {
                    let cal = Calendar::from_days(days);
                    if cal.check_wf() {
                        Some(cal)
                    } else {
                        None
                    }
                } else {
                    None
                }
            },
        },
    }
}

/// Law: decoding an encoded calendar yields that calendar again, record
/// for record and field for field.
pub proof fn lemma_codec_roundtrip(days: Seq<DayView>)
    requires
        calendar_wf(days),
        days_encodable(days),
    ensures
        spec_decode(spec_encode(days)) == Some(days),
{
    let s = spec_encode(days);
    assert(s == enc_u64(days.len() as u64) + enc_days(days));
    assert(s.subrange(0, 1) =~= enc_u64(days.len() as u64));
    assert(dec_u64(s, 0) == Some((days.len() as u64, 1int)));
    assert(s.subrange(1, 1 + enc_days(days).len() as int) =~= enc_days(days));
    assert forall|k: int|
        0 <= k < days.len() implies (#[trigger] days[k]).date.valid() && day_encodable(days[k]) by {
        assert(days[k].wf());
    }
    lemma_dec_days(s, 1, days);
    assert(1 + enc_days(days).len() == s.len());
}

} // verus!
