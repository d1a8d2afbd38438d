//! Diary entry keys: UTC timestamps with minute resolution, their canonical
//! text form `YYYY-MM-DD HH:MM +HHMM`, the index form `YYYYMMDDThhmm+HHMM`,
//! the entry file-name form `YYYYMMDDThhmm`, and their chronological order.
//!
//! Parsing accepts any fixed offset and normalizes the instant to UTC; a key
//! itself always holds UTC calendar fields.

use vstd::prelude::*;

use crate::strutil::chars_of;
use crate::strutil::digit_char;
use crate::strutil::digit_val;
use crate::strutil::exec_digit_char;
use crate::strutil::exec_digit_val;
use crate::strutil::exec_is_digit;
use crate::strutil::is_digit;
use crate::strutil::lemma_digit_char_val;
use crate::strutil::string_from_chars;

verus! {

/// A diary entry key: a UTC timestamp with minute resolution.
#[derive(Clone, Copy, Debug, PartialEq, Eq, Structural)]
pub struct DiaryEntryKey {
    pub year: u32,
    pub month: u32,
    pub day: u32,
    pub hour: u32,
    pub minute: u32,
}

pub open spec fn is_leap_year(y: int) -> bool {
    (y % 4 == 0 && y % 100 != 0) || y % 400 == 0
}

pub open spec fn days_in_month(y: int, m: int) -> int {
    if m == 2 {
        if is_leap_year(y) {
            29
        } else {
            28
        }
    } else if m == 4 || m == 6 || m == 9 || m == 11 {
        30
    } else {
        31
    }
}

impl DiaryEntryKey {
    /// A well-formed key names a real calendar minute with a four-digit year.
    pub open spec fn wf(self) -> bool {
        &&& self.year <= 9999
        &&& 1 <= self.month <= 12
        &&& 1 <= self.day <= days_in_month(self.year as int, self.month as int)
        &&& self.hour < 24
        &&& self.minute < 60
    }
}

pub fn exec_is_leap_year(y: u32) -> (r: bool)
    ensures
        r == is_leap_year(y as int),
{
    (y % 4 == 0 && y % 100 != 0) || y % 400 == 0
}

pub fn exec_days_in_month(y: u32, m: u32) -> (r: u32)
    ensures
        r == days_in_month(y as int, m as int),
{
    if m == 2 {
        if exec_is_leap_year(y) {
            29
        } else {
            28
        }
    } else if m == 4 || m == 6 || m == 9 || m == 11 {
        30
    } else {
        31
    }
}

/// The calendar day after (y, m, d).
pub open spec fn next_day(y: int, m: int, d: int) -> (int, int, int) {
    if d < days_in_month(y, m) {
        (y, m, d + 1)
    } else if m < 12 {
        (y, m + 1, 1)
    } else {
        (y + 1, 1, 1)
    }
}

/// The calendar day before (y, m, d).
pub open spec fn prev_day(y: int, m: int, d: int) -> (int, int, int) {
    if d > 1 {
        (y, m, d - 1)
    } else if m > 1 {
        (y, m - 1, days_in_month(y, m - 1))
    } else {
        (y - 1, 12, 31)
    }
}

/// Resolves a day (y, m, d) together with `total` minutes (possibly negative
/// or a day or more) into a key, stepping through the calendar. `fuel` bounds
/// the day steps; every caller's offset fits well within it.
pub open spec fn normalize_fuel(y: int, m: int, d: int, total: int, fuel: nat) -> Option<
    DiaryEntryKey,
>
    decreases fuel,
{
    if 0 <= total < 1440 {
        if 0 <= y <= 9999 {
            Some(
                DiaryEntryKey {
                    year: y as u32,
                    month: m as u32,
                    day: d as u32,
                    hour: (total / 60) as u32,
                    minute: (total % 60) as u32,
                },
            )
        } else {
            None
        }
    } else if fuel == 0 {
        None
    } else if total < 0 {
        if y == 0 && m == 1 && d == 1 {
            None
        } else {
            let (y2, m2, d2) = prev_day(y, m, d);
            normalize_fuel(y2, m2, d2, total + 1440, (fuel - 1) as nat)
        }
    } else {
        if y == 9999 && m == 12 && d == 31 {
            None
        } else {
            let (y2, m2, d2) = next_day(y, m, d);
            normalize_fuel(y2, m2, d2, total - 1440, (fuel - 1) as nat)
        }
    }
}

/// Resolving a valid calendar day with an offset-adjusted minute count.
pub open spec fn normalize_key(y: int, m: int, d: int, total: int) -> Option<DiaryEntryKey> {
    normalize_fuel(y, m, d, total, 8)
}

/// A normalized key is well-formed, provided the starting day was a real one.
pub proof fn lemma_normalize_fuel_wf(y: int, m: int, d: int, total: int, fuel: nat)
    requires
        0 <= y <= 9999,
        1 <= m <= 12,
        1 <= d <= days_in_month(y, m),
        normalize_fuel(y, m, d, total, fuel) is Some,
    ensures
        normalize_fuel(y, m, d, total, fuel)->0.wf(),
    decreases fuel,
{
    if 0 <= total < 1440 {
    } else if fuel == 0 {
    } else if total < 0 {
        if !(y == 0 && m == 1 && d == 1) {
            let (y2, m2, d2) = prev_day(y, m, d);
            lemma_normalize_fuel_wf(y2, m2, d2, total + 1440, (fuel - 1) as nat);
        }
    } else {
        if !(y == 9999 && m == 12 && d == 31) {
            let (y2, m2, d2) = next_day(y, m, d);
            lemma_normalize_fuel_wf(y2, m2, d2, total - 1440, (fuel - 1) as nat);
        }
    }
}

/// Executable mirror of `normalize_key`.
fn normalize_exec(y: u32, m: u32, d: u32, total: i32) -> (r: Option<DiaryEntryKey>)
    requires
        y <= 9999,
        1 <= m <= 12,
        1 <= d <= days_in_month(y as int, m as int),
        -11520 < total < 11520,
    ensures
        r == normalize_key(y as int, m as int, d as int, total as int),
        r is Some ==> r->0.wf(),
{
    let mut cy: u32 = y;
    let mut cm: u32 = m;
    let mut cd: u32 = d;
    let mut ct: i32 = total;
    let mut fuel: u32 = 8;
    loop
        invariant
            cy <= 9999,
            1 <= cm <= 12,
            1 <= cd <= days_in_month(cy as int, cm as int),
            -11520 < ct < 11520,
            normalize_fuel(cy as int, cm as int, cd as int, ct as int, fuel as nat)
                == normalize_key(y as int, m as int, d as int, total as int),
        ensures
            cy <= 9999,
            1 <= cm <= 12,
            1 <= cd <= days_in_month(cy as int, cm as int),
            -11520 < ct < 11520,
            normalize_fuel(cy as int, cm as int, cd as int, ct as int, fuel as nat)
                == normalize_key(y as int, m as int, d as int, total as int),
            !(0 <= ct < 1440) ==> fuel == 0,
        decreases fuel,
    {
        if 0 <= ct && ct < 1440 {
            break;
        }
        if fuel == 0 {
            break;
        }
        if ct < 0 {
            if cy == 0 && cm == 1 && cd == 1 {
                fuel = 0;
                break;
            }
            if cd > 1 {
                cd = cd - 1;
            } else if cm > 1 {
                cm = cm - 1;
                cd = exec_days_in_month(cy, cm);
            } else {
                cy = cy - 1;
                cm = 12;
                cd = 31;
            }
            ct = ct + 1440;
        } else {
            if cy == 9999 && cm == 12 && cd == 31 {
                fuel = 0;
                break;
            }
            let dim = exec_days_in_month(cy, cm);
            if cd < dim {
                cd = cd + 1;
            } else if cm < 12 {
                cm = cm + 1;
                cd = 1;
            } else {
                cy = cy + 1;
                cm = 1;
                cd = 1;
            }
            ct = ct - 1440;
        }
        fuel = fuel - 1;
    }
    if 0 <= ct && ct < 1440 {
        let key = DiaryEntryKey {
            year: cy,
            month: cm,
            day: cd,
            hour: (ct as u32) / 60,
            minute: (ct as u32) % 60,
        };
        proof {
            if normalize_key(y as int, m as int, d as int, total as int) is Some {
                lemma_normalize_fuel_wf(y as int, m as int, d as int, total as int, 8);
            }
        }
        Some(key)
    } else {
        None
    }
}

/// Every character of `s` in `[i, j)` is a decimal digit.
pub open spec fn all_digits(s: Seq<char>, i: int, j: int) -> bool {
    forall|k: int| i <= k < j ==> is_digit(s[k])
}

/// The two-digit number at position `i`.
pub open spec fn num2(s: Seq<char>, i: int) -> int {
    digit_val(s[i]) * 10 + digit_val(s[i + 1])
}

/// The four-digit number at position `i`.
pub open spec fn num4(s: Seq<char>, i: int) -> int {
    digit_val(s[i]) * 1000 + digit_val(s[i + 1]) * 100 + digit_val(s[i + 2]) * 10 + digit_val(
        s[i + 3],
    )
}

/// An offset suffix `+HHMM`, `-HHMM`, `+HH:MM` or `-HH:MM` fills the rest of
/// `s` starting at `i`.
pub open spec fn offset_shape_ok(s: Seq<char>, i: int) -> bool {
    &&& i + 5 <= s.len()
    &&& (s[i] == '+' || s[i] == '-')
    &&& if s.len() == i + 5 {
        all_digits(s, i + 1, i + 5)
    } else if s.len() == i + 6 {
        all_digits(s, i + 1, i + 3) && s[i + 3] == ':' && all_digits(s, i + 4, i + 6)
    } else {
        false
    }
}

pub open spec fn offset_hh(s: Seq<char>, i: int) -> int {
    num2(s, i + 1)
}

pub open spec fn offset_mm(s: Seq<char>, i: int) -> int {
    if s.len() == i + 5 {
        num2(s, i + 3)
    } else {
        num2(s, i + 4)
    }
}

/// The offset, in signed minutes east of UTC.
pub open spec fn offset_minutes(s: Seq<char>, i: int) -> int {
    if s[i] == '-' {
        -(offset_hh(s, i) * 60 + offset_mm(s, i))
    } else {
        offset_hh(s, i) * 60 + offset_mm(s, i)
    }
}

/// The calendar fields name a real day and time.
pub open spec fn fields_ok(y: int, m: int, d: int, h: int, mi: int) -> bool {
    &&& 1 <= m <= 12
    &&& 1 <= d <= days_in_month(y, m)
    &&& h < 24
    &&& mi < 60
}

/// The canonical shape `YYYY-MM-DD HH:MM` followed by an offset.
pub open spec fn canonical_shape_ok(s: Seq<char>) -> bool {
    &&& s.len() >= 17
    &&& all_digits(s, 0, 4)
    &&& s[4] == '-'
    &&& all_digits(s, 5, 7)
    &&& s[7] == '-'
    &&& all_digits(s, 8, 10)
    &&& s[10] == ' '
    &&& all_digits(s, 11, 13)
    &&& s[13] == ':'
    &&& all_digits(s, 14, 16)
    &&& s[16] == ' '
    &&& offset_shape_ok(s, 17)
}

/// What parsing the canonical form returns: the named instant, normalized
/// to UTC; nothing on any malformed input.
pub open spec fn parse_key_spec(s: Seq<char>) -> Option<DiaryEntryKey> {
    if canonical_shape_ok(s) && fields_ok(num4(s, 0), num2(s, 5), num2(s, 8), num2(s, 11), num2(s, 14))
        && offset_mm(s, 17) < 60 {
        normalize_key(
            num4(s, 0),
            num2(s, 5),
            num2(s, 8),
            num2(s, 11) * 60 + num2(s, 14) - offset_minutes(s, 17),
        )
    } else {
        None
    }
}

/// The index shape `YYYYMMDDThhmm` followed by an offset.
pub open spec fn db_shape_ok(s: Seq<char>) -> bool {
    &&& s.len() >= 13
    &&& all_digits(s, 0, 8)
    &&& s[8] == 'T'
    &&& all_digits(s, 9, 13)
    &&& offset_shape_ok(s, 13)
}

/// What parsing the index form of a key returns.
pub open spec fn parse_db_spec(s: Seq<char>) -> Option<DiaryEntryKey> {
    if db_shape_ok(s) && fields_ok(num4(s, 0), num2(s, 4), num2(s, 6), num2(s, 9), num2(s, 11))
        && offset_mm(s, 13) < 60 {
        normalize_key(
            num4(s, 0),
            num2(s, 4),
            num2(s, 6),
            num2(s, 9) * 60 + num2(s, 11) - offset_minutes(s, 13),
        )
    } else {
        None
    }
}

/// The entry file-name shape `YYYYMMDDThhmm`, with no offset.
pub open spec fn file_name_shape_ok(s: Seq<char>) -> bool {
    &&& s.len() == 13
    &&& all_digits(s, 0, 8)
    &&& s[8] == 'T'
    &&& all_digits(s, 9, 13)
}

/// What parsing an entry file name returns: the named UTC minute.
pub open spec fn parse_file_name_spec(s: Seq<char>) -> Option<DiaryEntryKey> {
    if file_name_shape_ok(s) && fields_ok(num4(s, 0), num2(s, 4), num2(s, 6), num2(s, 9), num2(s, 11)) {
        Some(
            DiaryEntryKey {
                year: num4(s, 0) as u32,
                month: num2(s, 4) as u32,
                day: num2(s, 6) as u32,
                hour: num2(s, 9) as u32,
                minute: num2(s, 11) as u32,
            },
        )
    } else {
        None
    }
}

pub open spec fn two_digit_chars(v: int) -> Seq<char> {
    seq![digit_char(v / 10), digit_char(v % 10)]
}

pub open spec fn four_digit_chars(v: int) -> Seq<char> {
    seq![
        digit_char(v / 1000),
        digit_char((v / 100) % 10),
        digit_char((v / 10) % 10),
        digit_char(v % 10),
    ]
}

/// The canonical rendering `YYYY-MM-DD HH:MM +0000` of a key.
pub open spec fn canonical_chars(k: DiaryEntryKey) -> Seq<char> {
    four_digit_chars(k.year as int) + seq!['-'] + two_digit_chars(k.month as int) + seq!['-']
        + two_digit_chars(k.day as int) + seq![' '] + two_digit_chars(k.hour as int) + seq![':']
        + two_digit_chars(k.minute as int) + seq![' ', '+', '0', '0', '0', '0']
}

/// The index rendering `YYYYMMDDThhmm+0000` of a key.
pub open spec fn db_key_chars(k: DiaryEntryKey) -> Seq<char> {
    four_digit_chars(k.year as int) + two_digit_chars(k.month as int) + two_digit_chars(
        k.day as int,
    ) + seq!['T'] + two_digit_chars(k.hour as int) + two_digit_chars(k.minute as int) + seq![
        '+',
        '0',
        '0',
        '0',
        '0',
    ]
}

/// The entry file-name rendering `YYYYMMDDThhmm` of a key.
pub open spec fn file_name_chars(k: DiaryEntryKey) -> Seq<char> {
    four_digit_chars(k.year as int) + two_digit_chars(k.month as int) + two_digit_chars(
        k.day as int,
    ) + seq!['T'] + two_digit_chars(k.hour as int) + two_digit_chars(k.minute as int)
}

/// Appends the two decimal digits of `x` to `v`.
fn push_two_digits(v: &mut Vec<char>, x: u32)
    requires
        x <= 99,
    ensures
        final(v)@ == old(v)@ + two_digit_chars(x as int),
{
    v.push(exec_digit_char(x / 10));
    v.push(exec_digit_char(x % 10));
    proof {
        assert(v@ =~= old(v)@ + two_digit_chars(x as int));
    }
}

/// Appends the four decimal digits of `x` to `v`.
fn push_four_digits(v: &mut Vec<char>, x: u32)
    requires
        x <= 9999,
    ensures
        final(v)@ == old(v)@ + four_digit_chars(x as int),
{
    v.push(exec_digit_char(x / 1000));
    v.push(exec_digit_char((x / 100) % 10));
    v.push(exec_digit_char((x / 10) % 10));
    v.push(exec_digit_char(x % 10));
    proof {
        assert(v@ =~= old(v)@ + four_digit_chars(x as int));
    }
}

/// The two-digit number at `i`, if both characters are digits.
fn read_two(v: &Vec<char>, i: usize) -> (r: Option<u32>)
    requires
        i + 2 <= v.len(),
    ensures
        r is Some <==> all_digits(v@, i as int, i + 2),
        r is Some ==> r->0 == num2(v@, i as int) && r->0 <= 99,
{
    if exec_is_digit(v[i]) && exec_is_digit(v[i + 1]) {
        let r = exec_digit_val(v[i]) * 10 + exec_digit_val(v[i + 1]);
        proof {
            assert forall|k: int| i <= k < i + 2 implies is_digit(v@[k]) by {
                assert(k == i || k == i + 1);
            }
        }
        Some(r)
    } else {
        None
    }
}

/// The four-digit number at `i`, if all four characters are digits.
fn read_four(v: &Vec<char>, i: usize) -> (r: Option<u32>)
    requires
        i + 4 <= v.len(),
    ensures
        r is Some <==> all_digits(v@, i as int, i + 4),
        r is Some ==> r->0 == num4(v@, i as int) && r->0 <= 9999,
{
    if exec_is_digit(v[i]) && exec_is_digit(v[i + 1]) && exec_is_digit(v[i + 2]) && exec_is_digit(
        v[i + 3],
    ) {
        let r = exec_digit_val(v[i]) * 1000 + exec_digit_val(v[i + 1]) * 100 + exec_digit_val(
            v[i + 2],
        ) * 10 + exec_digit_val(v[i + 3]);
        proof {
            assert forall|k: int| i <= k < i + 4 implies is_digit(v@[k]) by {
                assert(k == i || k == i + 1 || k == i + 2 || k == i + 3);
            }
        }
        Some(r)
    } else {
        None
    }
}

/// The offset suffix starting at `i`, in signed minutes, if well-shaped with
/// an in-range minute part.
fn parse_offset(v: &Vec<char>, i: usize) -> (r: Option<i32>)
    requires
        i <= v.len(),
    ensures
        r is Some <==> offset_shape_ok(v@, i as int) && offset_mm(v@, i as int) < 60,
        r is Some ==> r->0 == offset_minutes(v@, i as int) && -5940 - 59 <= r->0 <= 5940 + 59,
{
    if v.len() < i {
        return None;
    }
    let rem = v.len() - i;
    if rem < 5 || rem > 6 {
        return None;
    }
    let sign_c = v[i];
    if !(sign_c == '+' || sign_c == '-') {
        return None;
    }
    let hh = match read_two(v, i + 1) {
        Some(x) => x,
        None => { return None; },
    };
    let mm = if v.len() == i + 5 {
        match read_two(v, i + 3) {
            Some(x) => x,
            None => { return None; },
        }
    } else {
        if !(v[i + 3] == ':') {
            return None;
        }
        match read_two(v, i + 4) {
            Some(x) => x,
            None => { return None; },
        }
    };
    if mm >= 60 {
        return None;
    }
    let mag: i32 = (hh as i32) * 60 + (mm as i32);
    if sign_c == '-' {
        Some(-mag)
    } else {
        Some(mag)
    }
}

impl DiaryEntryKey {
    /// Parses the canonical form `YYYY-MM-DD HH:MM +HHMM` (the offset may
    /// carry a colon), normalizing the instant to UTC. Returns nothing on
    /// malformed input.
    pub fn parse_from_string(s: &str) -> (r: Option<DiaryEntryKey>)
        ensures
            r == parse_key_spec(s@),
            r is Some ==> r->0.wf(),
    {
        let v = chars_of(s);
        if v.len() < 22 {
            return None;
        }
        if !(v[4] == '-' && v[7] == '-' && v[10] == ' ' && v[13] == ':' && v[16] == ' ') {
            return None;
        }
        let y = match read_four(&v, 0) {
            Some(x) => x,
            None => { return None; },
        };
        let m = match read_two(&v, 5) {
            Some(x) => x,
            None => { return None; },
        };
        let d = match read_two(&v, 8) {
            Some(x) => x,
            None => { return None; },
        };
        let h = match read_two(&v, 11) {
            Some(x) => x,
            None => { return None; },
        };
        let mi = match read_two(&v, 14) {
            Some(x) => x,
            None => { return None; },
        };
        let off = match parse_offset(&v, 17) {
            Some(o) => o,
            None => { return None; },
        };
        if !(1 <= m && m <= 12 && h < 24 && mi < 60) {
            return None;
        }
        if !(1 <= d && d <= exec_days_in_month(y, m)) {
            return None;
        }
        let total: i32 = (h as i32) * 60 + (mi as i32) - off;
        normalize_exec(y, m, d, total)
    }

    /// The canonical rendering of this key, offset `+0000`.
    pub fn canonical_string(&self) -> (r: String)
        requires
            self.wf(),
        ensures
            r@ == canonical_chars(*self),
    {
        let mut v: Vec<char> = Vec::new();
        push_four_digits(&mut v, self.year);
        v.push('-');
        push_two_digits(&mut v, self.month);
        v.push('-');
        push_two_digits(&mut v, self.day);
        v.push(' ');
        push_two_digits(&mut v, self.hour);
        v.push(':');
        push_two_digits(&mut v, self.minute);
        v.push(' ');
        v.push('+');
        v.push('0');
        v.push('0');
        v.push('0');
        v.push('0');
        proof {
            assert(v@ =~= canonical_chars(*self));
        }
        string_from_chars(&v)
    }

    /// The index rendering of this key, offset `+0000`.
    pub fn db_string(&self) -> (r: String)
        requires
            self.wf(),
        ensures
            r@ == db_key_chars(*self),
    {
        let mut v: Vec<char> = Vec::new();
        push_four_digits(&mut v, self.year);
        push_two_digits(&mut v, self.month);
        push_two_digits(&mut v, self.day);
        v.push('T');
        push_two_digits(&mut v, self.hour);
        push_two_digits(&mut v, self.minute);
        v.push('+');
        v.push('0');
        v.push('0');
        v.push('0');
        v.push('0');
        proof {
            assert(v@ =~= db_key_chars(*self));
        }
        string_from_chars(&v)
    }

    /// Parses the index rendering, normalizing to UTC.
    pub fn parse_db_string(s: &str) -> (r: Option<DiaryEntryKey>)
        ensures
            r == parse_db_spec(s@),
            r is Some ==> r->0.wf(),
    {
        let v = chars_of(s);
        if v.len() < 18 {
            return None;
        }
        if !(v[8] == 'T') {
            return None;
        }
        let y = match read_four(&v, 0) {
            Some(x) => x,
            None => { return None; },
        };
        let m = match read_two(&v, 4) {
            Some(x) => x,
            None => { return None; },
        };
        let d = match read_two(&v, 6) {
            Some(x) => x,
            None => { return None; },
        };
        let h = match read_two(&v, 9) {
            Some(x) => x,
            None => { return None; },
        };
        let mi = match read_two(&v, 11) {
            Some(x) => x,
            None => { return None; },
        };
        let off = match parse_offset(&v, 13) {
            Some(o) => o,
            None => { return None; },
        };
        if !(1 <= m && m <= 12 && h < 24 && mi < 60) {
            return None;
        }
        if !(1 <= d && d <= exec_days_in_month(y, m)) {
            return None;
        }
        let total: i32 = (h as i32) * 60 + (mi as i32) - off;
        normalize_exec(y, m, d, total)
    }
}

/// The file-name rendering of `k`.
pub fn format_file_name(k: &DiaryEntryKey) -> (r: String)
    requires
        k.wf(),
    ensures
        r@ == file_name_chars(*k),
{
    let mut v: Vec<char> = Vec::new();
    push_four_digits(&mut v, k.year);
    push_two_digits(&mut v, k.month);
    push_two_digits(&mut v, k.day);
    v.push('T');
    push_two_digits(&mut v, k.hour);
    push_two_digits(&mut v, k.minute);
    proof {
        assert(v@ =~= file_name_chars(*k));
    }
    string_from_chars(&v)
}

/// Parses an entry file name `YYYYMMDDThhmm` as a UTC minute.
pub fn parse_file_name(s: &str) -> (r: Option<DiaryEntryKey>)
    ensures
        r == parse_file_name_spec(s@),
        r is Some ==> r->0.wf(),
{
    let v = chars_of(s);
    if v.len() != 13 {
        return None;
    }
    if !(v[8] == 'T') {
        return None;
    }
    let y = match read_four(&v, 0) {
        Some(x) => x,
        None => { return None; },
    };
    let m = match read_two(&v, 4) {
        Some(x) => x,
        None => { return None; },
    };
    let d = match read_two(&v, 6) {
        Some(x) => x,
        None => { return None; },
    };
    let h = match read_two(&v, 9) {
        Some(x) => x,
        None => { return None; },
    };
    let mi = match read_two(&v, 11) {
        Some(x) => x,
        None => { return None; },
    };
    if !(1 <= m && m <= 12 && h < 24 && mi < 60) {
        return None;
    }
    if !(1 <= d && d <= exec_days_in_month(y, m)) {
        return None;
    }
    Some(DiaryEntryKey { year: y, month: m, day: d, hour: h, minute: mi })
}

/// Reading back the four digits a formatter wrote recovers the number.
proof fn lemma_num4_of_digits(s: Seq<char>, i: int, v: int)
    requires
        0 <= v <= 9999,
        0 <= i,
        i + 4 <= s.len(),
        s.subrange(i, i + 4) == four_digit_chars(v),
    ensures
        num4(s, i) == v,
        all_digits(s, i, i + 4),
{
    lemma_digit_char_val(v / 1000);
    lemma_digit_char_val((v / 100) % 10);
    lemma_digit_char_val((v / 10) % 10);
    lemma_digit_char_val(v % 10);
    assert(s[i] == s.subrange(i, i + 4)[0]);
    assert(s[i + 1] == s.subrange(i, i + 4)[1]);
    assert(s[i + 2] == s.subrange(i, i + 4)[2]);
    assert(s[i + 3] == s.subrange(i, i + 4)[3]);
    lemma_decompose_four(v);
    assert forall|k: int| i <= k < i + 4 implies is_digit(s[k]) by {
        assert(k == i || k == i + 1 || k == i + 2 || k == i + 3);
    }
}

/// Reading back the two digits a formatter wrote recovers the number.
proof fn lemma_num2_of_digits(s: Seq<char>, i: int, v: int)
    requires
        0 <= v <= 99,
        0 <= i,
        i + 2 <= s.len(),
        s.subrange(i, i + 2) == two_digit_chars(v),
    ensures
        num2(s, i) == v,
        all_digits(s, i, i + 2),
{
    lemma_digit_char_val(v / 10);
    lemma_digit_char_val(v % 10);
    assert(s[i] == s.subrange(i, i + 2)[0]);
    assert(s[i + 1] == s.subrange(i, i + 2)[1]);
    assert((v / 10) * 10 + v % 10 == v) by {
        vstd::arithmetic::div_mod::lemma_fundamental_div_mod(v, 10);
    }
    assert forall|k: int| i <= k < i + 2 implies is_digit(s[k]) by {
        assert(k == i || k == i + 1);
    }
}

/// A four-digit number is its decimal digits reassembled.
proof fn lemma_decompose_four(v: int)
    requires
        0 <= v <= 9999,
    ensures
        (v / 1000) * 1000 + ((v / 100) % 10) * 100 + ((v / 10) % 10) * 10 + v % 10 == v,
{
    vstd::arithmetic::div_mod::lemma_fundamental_div_mod(v, 10);
    vstd::arithmetic::div_mod::lemma_fundamental_div_mod(v / 10, 10);
    vstd::arithmetic::div_mod::lemma_fundamental_div_mod(v / 100, 10);
    assert(v / 10 / 10 == v / 100) by {
        vstd::arithmetic::div_mod::lemma_div_denominator(v, 10, 10);
    }
    assert(v / 100 / 10 == v / 1000) by {
        vstd::arithmetic::div_mod::lemma_div_denominator(v, 100, 10);
    }
}

/// Round trip: parsing the canonical rendering of any well-formed key gives
/// back exactly that key.
#[verifier::rlimit(80)]
pub proof fn lemma_parse_canonical_roundtrip(k: DiaryEntryKey)
    requires
        k.wf(),
    ensures
        parse_key_spec(canonical_chars(k)) == Some(k),
{
    let s = canonical_chars(k);
    assert(s.len() == 22);
    lemma_digit_char_val(0);
    assert(s.subrange(0, 4) =~= four_digit_chars(k.year as int));
    assert(s.subrange(5, 7) =~= two_digit_chars(k.month as int));
    assert(s.subrange(8, 10) =~= two_digit_chars(k.day as int));
    assert(s.subrange(11, 13) =~= two_digit_chars(k.hour as int));
    assert(s.subrange(14, 16) =~= two_digit_chars(k.minute as int));
    lemma_num4_of_digits(s, 0, k.year as int);
    lemma_num2_of_digits(s, 5, k.month as int);
    lemma_num2_of_digits(s, 8, k.day as int);
    lemma_num2_of_digits(s, 11, k.hour as int);
    lemma_num2_of_digits(s, 14, k.minute as int);
    assert(s[4] == '-' && s[7] == '-' && s[10] == ' ' && s[13] == ':' && s[16] == ' ');
    assert(s[17] == '+' && s[18] == '0' && s[19] == '0' && s[20] == '0' && s[21] == '0');
    assert(all_digits(s, 18, 22)) by {
        assert forall|j: int| 18 <= j < 22 implies is_digit(s[j]) by {
            assert(s[j] == '0');
        }
    }
    assert(offset_shape_ok(s, 17));
    assert(offset_minutes(s, 17) == 0);
    assert(canonical_shape_ok(s));
    let total = (k.hour as int) * 60 + (k.minute as int);
    assert(0 <= total < 1440);
    assert(total / 60 == k.hour as int && total % 60 == k.minute as int) by (nonlinear_arith)
        requires
            total == (k.hour as int) * 60 + (k.minute as int),
            0 <= k.minute < 60,
            0 <= k.hour < 24,
    ;
    assert(normalize_key(k.year as int, k.month as int, k.day as int, total) == Some(k));
}

/// Round trip for the index rendering.
#[verifier::rlimit(80)]
pub proof fn lemma_parse_db_roundtrip(k: DiaryEntryKey)
    requires
        k.wf(),
    ensures
        parse_db_spec(db_key_chars(k)) == Some(k),
{
    let s = db_key_chars(k);
    assert(s.len() == 18);
    lemma_digit_char_val(0);
    assert(s.subrange(0, 4) =~= four_digit_chars(k.year as int));
    assert(s.subrange(4, 6) =~= two_digit_chars(k.month as int));
    assert(s.subrange(6, 8) =~= two_digit_chars(k.day as int));
    assert(s.subrange(9, 11) =~= two_digit_chars(k.hour as int));
    assert(s.subrange(11, 13) =~= two_digit_chars(k.minute as int));
    lemma_num4_of_digits(s, 0, k.year as int);
    lemma_num2_of_digits(s, 4, k.month as int);
    lemma_num2_of_digits(s, 6, k.day as int);
    lemma_num2_of_digits(s, 9, k.hour as int);
    lemma_num2_of_digits(s, 11, k.minute as int);
    assert(s[8] == 'T');
    assert(s[13] == '+' && s[14] == '0' && s[15] == '0' && s[16] == '0' && s[17] == '0');
    assert(all_digits(s, 14, 18)) by {
        assert forall|j: int| 14 <= j < 18 implies is_digit(s[j]) by {
            assert(s[j] == '0');
        }
    }
    assert(all_digits(s, 0, 8)) by {
        assert forall|j: int| 0 <= j < 8 implies is_digit(s[j]) by {
            if j < 4 {
            } else if j < 6 {
                assert(is_digit(s[j]));
            } else {
                assert(is_digit(s[j]));
            }
        }
    }
    assert(offset_shape_ok(s, 13));
    assert(offset_minutes(s, 13) == 0);
    assert(db_shape_ok(s));
    let total = (k.hour as int) * 60 + (k.minute as int);
    assert(0 <= total < 1440);
    assert(total / 60 == k.hour as int && total % 60 == k.minute as int) by (nonlinear_arith)
        requires
            total == (k.hour as int) * 60 + (k.minute as int),
            0 <= k.minute < 60,
            0 <= k.hour < 24,
    ;
    assert(normalize_key(k.year as int, k.month as int, k.day as int, total) == Some(k));
}

/// Round trip for the file-name rendering.
#[verifier::rlimit(80)]
pub proof fn lemma_parse_file_name_roundtrip(k: DiaryEntryKey)
    requires
        k.wf(),
    ensures
        parse_file_name_spec(file_name_chars(k)) == Some(k),
{
    let s = file_name_chars(k);
    assert(s.len() == 13);
    assert(s.subrange(0, 4) =~= four_digit_chars(k.year as int));
    assert(s.subrange(4, 6) =~= two_digit_chars(k.month as int));
    assert(s.subrange(6, 8) =~= two_digit_chars(k.day as int));
    assert(s.subrange(9, 11) =~= two_digit_chars(k.hour as int));
    assert(s.subrange(11, 13) =~= two_digit_chars(k.minute as int));
    lemma_num4_of_digits(s, 0, k.year as int);
    lemma_num2_of_digits(s, 4, k.month as int);
    lemma_num2_of_digits(s, 6, k.day as int);
    lemma_num2_of_digits(s, 9, k.hour as int);
    lemma_num2_of_digits(s, 11, k.minute as int);
    assert(s[8] == 'T');
    assert(all_digits(s, 0, 8)) by {
        assert forall|j: int| 0 <= j < 8 implies is_digit(s[j]) by {
            if j < 4 {
            } else if j < 6 {
                assert(is_digit(s[j]));
            } else {
                assert(is_digit(s[j]));
            }
        }
    }
    assert(file_name_shape_ok(s));
}

/// Two distinct well-formed keys never share an index rendering.
pub proof fn lemma_db_key_injective(a: DiaryEntryKey, b: DiaryEntryKey)
    requires
        a.wf(),
        b.wf(),
        db_key_chars(a) == db_key_chars(b),
    ensures
        a == b,
{
    lemma_parse_db_roundtrip(a);
    lemma_parse_db_roundtrip(b);
}

/// Chronological order on keys: lexicographic on the UTC calendar fields.
pub open spec fn key_le(a: DiaryEntryKey, b: DiaryEntryKey) -> bool {
    if a.year != b.year {
        a.year < b.year
    } else if a.month != b.month {
        a.month < b.month
    } else if a.day != b.day {
        a.day < b.day
    } else if a.hour != b.hour {
        a.hour < b.hour
    } else {
        a.minute <= b.minute
    }
}

/// Keys in ascending chronological order.
pub open spec fn keys_sorted(s: Seq<DiaryEntryKey>) -> bool {
    forall|i: int, j: int| 0 <= i < j < s.len() ==> key_le(s[i], s[j])
}

/// Whether `a` is at or before `b` in time.
pub fn exec_key_le(a: &DiaryEntryKey, b: &DiaryEntryKey) -> (r: bool)
    ensures
        r == key_le(*a, *b),
{
    if a.year != b.year {
        a.year < b.year
    } else if a.month != b.month {
        a.month < b.month
    } else if a.day != b.day {
        a.day < b.day
    } else if a.hour != b.hour {
        a.hour < b.hour
    } else {
        a.minute <= b.minute
    }
}

/// Sorts keys ascending by instant; the result holds exactly the given keys.
#[verifier::rlimit(60)]
pub fn sort_keys(keys: Vec<DiaryEntryKey>) -> (r: Vec<DiaryEntryKey>)
    ensures
        keys_sorted(r@),
        r@.to_multiset() == keys@.to_multiset(),
        forall|i: int| 0 <= i < r@.len() ==> keys@.contains(#[trigger] r@[i]),
{
    broadcast use vstd::seq_lib::group_to_multiset_ensures;
    broadcast use vstd::seq_lib::to_multiset_insert;

    let mut r: Vec<DiaryEntryKey> = Vec::new();
    let mut i: usize = 0;
    proof {
        assert(keys@.subrange(0, 0) =~= Seq::<DiaryEntryKey>::empty());
        assert(r@.to_multiset() =~= keys@.subrange(0, 0).to_multiset());
    }
    while i < keys.len()
        invariant
            i <= keys.len(),
            keys_sorted(r@),
            r@.to_multiset() == keys@.subrange(0, i as int).to_multiset(),
        decreases keys.len() - i,
    {
        let k = keys[i];
        let mut j: usize = 0;
        loop
            invariant
                j <= r.len(),
                keys_sorted(r@),
                forall|x: int| 0 <= x < j ==> key_le(r@[x], k),
            ensures
                j <= r.len(),
                forall|x: int| 0 <= x < j ==> key_le(r@[x], k),
                j < r.len() ==> key_le(k, r@[j as int]),
            decreases r.len() - j,
        {
            if j == r.len() {
                break;
            }
            if !exec_key_le(&r[j], &k) {
                break;
            }
            j = j + 1;
        }
        let ghost rb = r@;
        r.insert(j, k);
        proof {
            assert(keys@.subrange(0, i + 1) =~= keys@.subrange(0, i as int).push(k));
            vstd::seq_lib::to_multiset_build(keys@.subrange(0, i as int), k);
            vstd::seq_lib::to_multiset_insert(rb, j as int, k);
            assert(r@.to_multiset() == keys@.subrange(0, i + 1).to_multiset());
            rb.insert_ensures(j as int, k);
            assert forall|x: int, y: int| 0 <= x < y < r@.len() implies key_le(r@[x], r@[y]) by {
                let s = rb.insert(j as int, k);
                assert(r@ == s);
                if x < j {
                    assert(s[x] == rb[x]);
                } else if x == j {
                    assert(s[x] == k);
                } else {
                    assert(s[(x - 1) + 1] == rb[x - 1]);
                }
                if y < j {
                    assert(s[y] == rb[y]);
                } else if y == j {
                    assert(s[y] == k);
                } else {
                    assert(s[(y - 1) + 1] == rb[y - 1]);
                }
                if x == j && y > j {
                    assert(key_le(k, rb[j as int]));
                    if y - 1 > j {
                        assert(key_le(rb[j as int], rb[y - 1]));
                    }
                }
                if x < j && y == j {
                    assert(key_le(rb[x], k));
                }
                if x < j && y > j {
                    assert(key_le(rb[x], rb[y - 1]));
                }
            }
        }
        i = i + 1;
    }
    proof {
        assert(keys@.subrange(0, keys@.len() as int) =~= keys@);
        assert forall|x: int| 0 <= x < r@.len() implies keys@.contains(r@[x]) by {
            assert(r@.contains(r@[x]));
            assert(r@.to_multiset().count(r@[x]) > 0);
            assert(keys@.to_multiset().count(r@[x]) > 0);
        }
    }
    r
}

} // verus!
