//! Calendar dates for document headers: a year, month and day with full
//! calendar validity (month lengths, leap years), parsed from and rendered to
//! the `YYYY-M-D` / `YYYY-MM-DD` header form.

use vstd::prelude::*;

use crate::text::{char_from_u32, push_char, split_on, split_char};
use crate::text::{lemma_split_no_sep, lemma_split_on_append};

verus! {

/// A calendar date, no time component.  Documents are ordered by their date.
#[derive(Clone, Copy, Debug, PartialEq, Eq, Structural)]
pub struct Date {
    pub year: i32,
    pub month: u32,
    pub day: u32,
}

pub open spec fn is_leap_year(y: int) -> bool {
    y % 4 == 0 && (y % 100 != 0 || y % 400 == 0)
}

pub open spec fn days_in_month(y: int, m: int) -> int {
    if m == 2 {
        if is_leap_year(y) {
            29
        } else {
            28
        }
    } else if m == 4 || m == 6 || m == 9 || m == 11 {
        30
    } else {
        31
    }
}

impl Date {
    /// A date the four-digit header form can hold: a real calendar date with
    /// a year between 0 and 9999.
    pub open spec fn wf(self) -> bool {
        &&& 0 <= self.year <= 9999
        &&& 1 <= self.month <= 12
        &&& 1 <= self.day <= days_in_month(self.year as int, self.month as int)
    }
}

/// How two dates compare: by year, then month, then day.
pub open spec fn date_order(a: Date, b: Date) -> core::cmp::Ordering {
    if a.year != b.year {
        if a.year < b.year {
            core::cmp::Ordering::Less
        } else {
            core::cmp::Ordering::Greater
        }
    } else if a.month != b.month {
        if a.month < b.month {
            core::cmp::Ordering::Less
        } else {
            core::cmp::Ordering::Greater
        }
    } else if a.day != b.day {
        if a.day < b.day {
            core::cmp::Ordering::Less
        } else {
            core::cmp::Ordering::Greater
        }
    } else {
        core::cmp::Ordering::Equal
    }
}

/// Compares two dates chronologically.
pub fn date_order_exec(a: &Date, b: &Date) -> (r: core::cmp::Ordering)
    ensures
        r == date_order(*a, *b),
{
    if a.year != b.year {
        if a.year < b.year {
            core::cmp::Ordering::Less
        } else {
            core::cmp::Ordering::Greater
        }
    } else if a.month != b.month {
        if a.month < b.month {
            core::cmp::Ordering::Less
        } else {
            core::cmp::Ordering::Greater
        }
    } else if a.day != b.day {
        if a.day < b.day {
            core::cmp::Ordering::Less
        } else {
            core::cmp::Ordering::Greater
        }
    } else {
        core::cmp::Ordering::Equal
    }
}

pub open spec fn is_digit(c: char) -> bool {
    48 <= c as u32 <= 57
}

pub open spec fn all_digits(s: Seq<char>) -> bool {
    forall|i: int| 0 <= i < s.len() ==> is_digit(#[trigger] s[i])
}

/// The number a digit string denotes.
pub open spec fn dec_val(s: Seq<char>) -> int
    decreases s.len(),
{
    if s.len() == 0 {
        0
    } else {
        dec_val(s.drop_last()) * 10 + (s.last() as u32 - 48)
    }
}

pub open spec fn pow10(w: nat) -> int
    decreases w,
{
    if w == 0 {
        1
    } else {
        10 * pow10((w - 1) as nat)
    }
}

pub open spec fn digit_char(d: int) -> char {
    (48 + d) as char
}

/// `n` written in decimal with exactly `w` digits, zero padded.
pub open spec fn dec_digits(n: int, w: nat) -> Seq<char>
    decreases w,
{
    if w == 0 {
        Seq::<char>::empty()
    } else {
        dec_digits(n / 10, (w - 1) as nat).push(digit_char(n % 10))
    }
}

/// The canonical `YYYY-MM-DD` header form of a date.
pub open spec fn date_chars(d: Date) -> Seq<char> {
    dec_digits(d.year as int, 4) + seq!['-'] + dec_digits(d.month as int, 2) + seq!['-']
        + dec_digits(d.day as int, 2)
}

/// The date a header line denotes: three dash-separated decimal fields, a
/// four-digit year and one- or two-digit month and day, naming a real
/// calendar date.
pub open spec fn parse_date_spec(s: Seq<char>) -> Option<Date> {
    let ps = split_on(s, '-');
    if ps.len() == 3 && ps[0].len() == 4 && 1 <= ps[1].len() <= 2 && 1 <= ps[2].len() <= 2
        && all_digits(ps[0]) && all_digits(ps[1]) && all_digits(ps[2]) {
        let y = dec_val(ps[0]);
        let m = dec_val(ps[1]);
        let d = dec_val(ps[2]);
        if 1 <= m <= 12 && 1 <= d <= days_in_month(y, m) {
            Some(Date { year: y as i32, month: m as u32, day: d as u32 })
        } else {
            None
        }
    } else {
        None
    }
}

pub proof fn lemma_dec_val_bound(s: Seq<char>)
    requires
        all_digits(s),
    ensures
        0 <= dec_val(s) < pow10(s.len()),
    decreases s.len(),
{
    if s.len() == 0 {
    } else {
        assert(all_digits(s.drop_last())) by {
            assert forall|i: int| 0 <= i < s.drop_last().len() implies is_digit(
                #[trigger] s.drop_last()[i],
            ) by {
                assert(s.drop_last()[i] == s[i]);
            }
        }
        lemma_dec_val_bound(s.drop_last());
        assert(is_digit(s.last()));
    }
}

/// A digit string of value `n` and width `w` reads back as `n`.
pub proof fn lemma_dec_digits_val(n: int, w: nat)
    requires
        0 <= n < pow10(w),
    ensures
        dec_digits(n, w).len() == w,
        all_digits(dec_digits(n, w)),
        !dec_digits(n, w).contains('-'),
        dec_val(dec_digits(n, w)) == n,
    decreases w,
{
    if w == 0 {
    } else {
        assert(pow10(w) == 10 * pow10((w - 1) as nat));
        assert(0 <= n / 10 < pow10((w - 1) as nat));
        lemma_dec_digits_val(n / 10, (w - 1) as nat);
        let t = dec_digits(n / 10, (w - 1) as nat);
        let d = n % 10;
        assert(0 <= d <= 9);
        assert(digit_char(d) as u32 == 48 + d);
        assert(is_digit(digit_char(d)));
        let r = dec_digits(n, w);
        assert(r == t.push(digit_char(d)));
        assert(all_digits(r)) by {
            assert forall|i: int| 0 <= i < r.len() implies is_digit(#[trigger] r[i]) by {
                if i < t.len() {
                    assert(r[i] == t[i]);
                }
            }
        }
        assert(!r.contains('-')) by {
            assert forall|i: int| 0 <= i < r.len() implies r[i] != '-' by {
                assert(is_digit(r[i]));
                assert('-' as u32 == 45);
            }
        }
        assert(r.drop_last() =~= t);
        assert(r.last() == digit_char(d));
        assert(dec_val(r) == dec_val(t) * 10 + d);
        assert(dec_val(t) == n / 10);
        assert((n / 10) * 10 + n % 10 == n);
    }
}

/// Rendering a valid date and parsing it back yields the same date.
pub proof fn lemma_date_round_trip(d: Date)
    requires
        d.wf(),
    ensures
        parse_date_spec(date_chars(d)) == Some(d),
{
    assert(pow10(4) == 10000 && pow10(2) == 100) by {
        reveal_with_fuel(pow10, 5);
    }
    let ys = dec_digits(d.year as int, 4);
    let ms = dec_digits(d.month as int, 2);
    let ds = dec_digits(d.day as int, 2);
    lemma_dec_digits_val(d.year as int, 4);
    lemma_dec_digits_val(d.month as int, 2);
    lemma_dec_digits_val(d.day as int, 2);
    lemma_split_no_sep(ds, '-');
    lemma_split_on_append(ms, ds, '-');
    lemma_split_on_append(ys, ms + seq!['-'] + ds, '-');
    assert(date_chars(d) =~= ys + seq!['-'] + (ms + seq!['-'] + ds));
    let ps = split_on(date_chars(d), '-');
    assert(ps =~~= seq![ys, ms, ds]);
    assert(ps[0] == ys && ps[1] == ms && ps[2] == ds);
}

/// A date the header form denotes is well formed.
pub proof fn lemma_parse_date_wf(s: Seq<char>)
    ensures
        parse_date_spec(s) matches Some(d) ==> d.wf(),
{
    let ps = split_on(s, '-');
    if parse_date_spec(s) is Some {
        lemma_dec_val_bound(ps[0]);
        assert(pow10(4) == 10000) by {
            reveal_with_fuel(pow10, 5);
        }
    }
}

/// A rendered date consists of digits and dashes only, so it contains no
/// line break and no other control character.
pub proof fn lemma_date_chars_plain(d: Date)
    requires
        d.wf(),
    ensures
        forall|i: int|
            0 <= i < date_chars(d).len() ==> (is_digit(#[trigger] date_chars(d)[i]) || date_chars(
                d,
            )[i] == '-'),
{
    assert(pow10(4) == 10000 && pow10(2) == 100) by {
        reveal_with_fuel(pow10, 5);
    }
    let ys = dec_digits(d.year as int, 4);
    let ms = dec_digits(d.month as int, 2);
    let ds = dec_digits(d.day as int, 2);
    lemma_dec_digits_val(d.year as int, 4);
    lemma_dec_digits_val(d.month as int, 2);
    lemma_dec_digits_val(d.day as int, 2);
    assert forall|i: int|
        0 <= i < date_chars(d).len() implies (is_digit(#[trigger] date_chars(d)[i]) || date_chars(
        d,
    )[i] == '-') by {
        let s = date_chars(d);
        if i < 4 {
            assert(s[i] == ys[i]);
        } else if i == 4 {
            assert(s[i] == '-');
        } else if i < 7 {
            assert(s[i] == ms[i - 5]);
        } else if i == 7 {
            assert(s[i] == '-');
        } else {
            assert(s[i] == ds[i - 8]);
        }
    }
}

/// One decimal field of a date: at least `min_len` and at most `max_len`
/// digits and nothing else.
fn parse_fixed_number(s: &str, min_len: usize, max_len: usize) -> (r: Option<u32>)
    requires
        1 <= min_len <= max_len <= 4,
    ensures
        r matches Some(v) ==> min_len <= s@.len() <= max_len && all_digits(s@) && v == dec_val(s@),
        r is None ==> !(min_len <= s@.len() <= max_len && all_digits(s@)),
{
    let n = s.unicode_len();
    if n < min_len || n > max_len {
        return None;
    }
    let mut acc: u32 = 0;
    let mut i: usize = 0;
    proof {
        assert(s@.take(0) =~= Seq::<char>::empty());
        assert(pow10(0) == 1 && pow10(1) == 10 && pow10(2) == 100 && pow10(3) == 1000 && pow10(4)
            == 10000) by {
            reveal_with_fuel(pow10, 5);
        }
    }
    while i < n
        invariant
            n == s@.len(),
            0 <= i <= n <= 4,
            all_digits(s@.take(i as int)),
            acc == dec_val(s@.take(i as int)),
            acc < pow10(i as nat),
            pow10(0) == 1 && pow10(1) == 10 && pow10(2) == 100 && pow10(3) == 1000 && pow10(4)
                == 10000,
        decreases n - i,
    {
        let c = s.get_char(i);
        let u = c as u32;
        if u < 48 || u > 57 {
            proof {
                assert(s@[i as int] == c);
                assert(!is_digit(c));
            }
            return None;
        }
        proof {
            if i == 0 {
                assert(acc < 1);
            } else if i == 1 {
                assert(acc < 10);
            } else if i == 2 {
                assert(acc < 100);
            } else {
                assert(acc < 1000);
            }
        }
        let ghost t0 = s@.take(i as int);
        acc = acc * 10 + (u - 48);
        proof {
            let t1 = s@.take(i as int + 1);
            assert(t1 =~= t0.push(c));
            assert(t1.drop_last() =~= t0);
            assert(t1.last() == c);
            assert(all_digits(t1)) by {
                assert forall|k: int| 0 <= k < t1.len() implies is_digit(#[trigger] t1[k]) by {
                    if k < t0.len() {
                        assert(t1[k] == t0[k]);
                    }
                }
            }
            assert(dec_val(t1) == dec_val(t0) * 10 + (c as u32 - 48));
        }
        i = i + 1;
    }
    proof {
        assert(s@.take(n as int) =~= s@);
    }
    Some(acc)
}

pub(crate) fn days_in_month_exec(y: i32, m: u32) -> (r: u32)
    requires
        0 <= y,
        1 <= m <= 12,
    ensures
        r == days_in_month(y as int, m as int),
{
    if m == 2 {
        if y % 4 == 0 && (y % 100 != 0 || y % 400 == 0) {
            29
        } else {
            28
        }
    } else if m == 4 || m == 6 || m == 9 || m == 11 {
        30
    } else {
        31
    }
}

/// Reads a `YYYY-M-D` / `YYYY-MM-DD` header line as a calendar date.
pub fn parse_date(s: &str) -> (r: Option<Date>)
    ensures
        r == parse_date_spec(s@),
        r matches Some(d) ==> d.wf(),
{
    let parts = split_char(s, '-');
    let ghost ps = split_on(s@, '-');
    if parts.len() != 3 {
        return None;
    }
    proof {
        assert(parts@.map_values(|p: String| p@).len() == 3);
        assert(ps[0] == parts@[0]@ && ps[1] == parts@[1]@ && ps[2] == parts@[2]@);
    }
    let y = match parse_fixed_number(parts[0].as_str(), 4, 4) {
        Some(v) => v,
        None => {
            return None;
        },
    };
    let m = match parse_fixed_number(parts[1].as_str(), 1, 2) {
        Some(v) => v,
        None => {
            return None;
        },
    };
    let d = match parse_fixed_number(parts[2].as_str(), 1, 2) {
        Some(v) => v,
        None => {
            return None;
        },
    };
    proof {
        lemma_dec_val_bound(ps[0]);
        lemma_dec_val_bound(ps[1]);
        lemma_dec_val_bound(ps[2]);
        assert(pow10(4) == 10000 && pow10(2) == 100) by {
            reveal_with_fuel(pow10, 5);
        }
    }
    if m < 1 || m > 12 {
        return None;
    }
    if d < 1 || d > days_in_month_exec(y as i32, m) {
        return None;
    }
    Some(Date { year: y as i32, month: m, day: d })
}

/// Writes a date in its canonical `YYYY-MM-DD` form.
pub fn date_string(d: &Date) -> (r: String)
    requires
        d.wf(),
    ensures
        r@ == date_chars(*d),
{
    proof {
        assert(pow10(4) == 10000 && pow10(2) == 100) by {
            reveal_with_fuel(pow10, 5);
        }
        lemma_dec_digits_val(d.year as int, 4);
        lemma_dec_digits_val(d.month as int, 2);
        lemma_dec_digits_val(d.day as int, 2);
    }
    let mut r = String::new();
    let y = d.year as u32;
    push_char(&mut r, char_from_u32(48 + y / 1000));
    push_char(&mut r, char_from_u32(48 + (y / 100) % 10));
    push_char(&mut r, char_from_u32(48 + (y / 10) % 10));
    push_char(&mut r, char_from_u32(48 + y % 10));
    proof {
        reveal_with_fuel(dec_digits, 5);
        assert(r@ =~= dec_digits(d.year as int, 4));
    }
    push_char(&mut r, '-');
    push_char(&mut r, char_from_u32(48 + d.month / 10));
    push_char(&mut r, char_from_u32(48 + d.month % 10));
    proof {
        reveal_with_fuel(dec_digits, 3);
        assert(r@ =~= dec_digits(d.year as int, 4) + seq!['-'] + dec_digits(d.month as int, 2));
    }
    push_char(&mut r, '-');
    push_char(&mut r, char_from_u32(48 + d.day / 10));
    push_char(&mut r, char_from_u32(48 + d.day % 10));
    proof {
        reveal_with_fuel(dec_digits, 3);
        assert(r@ =~= date_chars(*d));
    }
    r
}

} // verus!
