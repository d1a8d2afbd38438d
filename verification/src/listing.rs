//! Rendering key listings: one line per entry in its canonical form,
//! optionally numbered ascending or descending, earliest or latest first.

use vstd::prelude::*;

use crate::key::canonical_chars;
use crate::key::DiaryEntryKey;
use crate::strutil::digit_char;
use crate::strutil::exec_digit_char;
use crate::strutil::string_from_chars;

verus! {

/// How an entry list is numbered.
pub enum ListOption {
    Enumerate,
    EnumerateReverse,
    Plain,
}

/// Which end of the list comes first.
pub enum KeyOrdering {
    LatestFirst,
    EarliestFirst,
}

/// One less than the number of decimal digits of `n` (zero for zero): the
/// column width the numbered listings pad their indices to.
pub open spec fn magnitude_spec(n: int) -> int
    decreases n,
{
    if n < 10 {
        0
    } else {
        1 + magnitude_spec(n / 10)
    }
}

/// The decimal rendering of `n`.
pub open spec fn dec_digits(n: int) -> Seq<char>
    decreases n,
{
    if n < 10 {
        seq![digit_char(n)]
    } else {
        dec_digits(n / 10) + seq![digit_char(n % 10)]
    }
}

/// `n` spaces.
pub open spec fn spaces(n: int) -> Seq<char>
    decreases n,
{
    if n <= 0 {
        Seq::empty()
    } else {
        spaces(n - 1) + seq![' ']
    }
}

/// `idx`, right-aligned in a column of `width` characters.
pub open spec fn padded_index_chars(idx: int, width: int) -> Seq<char> {
    if dec_digits(idx).len() < width {
        spaces(width - dec_digits(idx).len()) + dec_digits(idx)
    } else {
        dec_digits(idx)
    }
}

/// One numbered listing line: the padded index, a space, the key.
pub open spec fn entry_line_chars(idx: int, width: int, k: DiaryEntryKey) -> Seq<char> {
    padded_index_chars(idx, width) + seq![' '] + canonical_chars(k)
}

/// Line `i` of the listing of `keys`, before any reversal.
pub open spec fn raw_line(option: ListOption, keys: Seq<DiaryEntryKey>, i: int) -> Seq<char> {
    match option {
        ListOption::Plain => canonical_chars(keys[i]),
        ListOption::Enumerate => entry_line_chars(i + 1, magnitude_spec(keys.len() as int), keys[i]),
        ListOption::EnumerateReverse => entry_line_chars(
            keys.len() - i,
            magnitude_spec(keys.len() as int),
            keys[i],
        ),
    }
}

/// Line `i` of the final listing: with `LatestFirst` the lines come out in
/// reverse; the numbering itself is not recomputed.
pub open spec fn listed_line(
    option: ListOption,
    ordering: KeyOrdering,
    keys: Seq<DiaryEntryKey>,
    i: int,
) -> Seq<char> {
    match ordering {
        KeyOrdering::EarliestFirst => raw_line(option, keys, i),
        KeyOrdering::LatestFirst => raw_line(option, keys, keys.len() - 1 - i),
    }
}

/// The magnitude is non-negative and well below its argument.
proof fn lemma_magnitude_bounds(n: int)
    ensures
        0 <= magnitude_spec(n),
        n >= 10 ==> magnitude_spec(n) < n,
    decreases n,
{
    if n >= 10 {
        lemma_magnitude_bounds(n / 10);
    }
}

/// One less than the number of decimal digits of `n`, and zero for zero.
pub fn order_of_magnitude(n: usize) -> (r: usize)
    ensures
        r == magnitude_spec(n as int),
{
    let mut m: usize = n;
    let mut r: usize = 0;
    proof {
        lemma_magnitude_bounds(n as int);
    }
    while m >= 10
        invariant
            r + magnitude_spec(m as int) == magnitude_spec(n as int),
            0 <= magnitude_spec(n as int) <= n,
        decreases m,
    {
        proof {
            lemma_magnitude_bounds(m as int);
            lemma_magnitude_bounds(m as int / 10);
            assert(magnitude_spec(m as int) >= 1);
        }
        m = m / 10;
        r = r + 1;
    }
    r
}

/// Appends the decimal digits of `n` to `v`.
fn push_dec(v: &mut Vec<char>, n: usize)
    ensures
        final(v)@ == old(v)@ + dec_digits(n as int),
    decreases n,
{
    if n < 10 {
        v.push(exec_digit_char(n as u32));
        proof {
            assert(v@ =~= old(v)@ + dec_digits(n as int));
        }
    } else {
        push_dec(v, n / 10);
        v.push(exec_digit_char((n % 10) as u32));
        proof {
            assert(v@ =~= old(v)@ + dec_digits(n as int));
        }
    }
}

/// The digits of `idx`, right-aligned to `width` with spaces.
fn padded_index(idx: usize, width: usize) -> (r: Vec<char>)
    ensures
        r@ == padded_index_chars(idx as int, width as int),
{
    let mut digits: Vec<char> = Vec::new();
    push_dec(&mut digits, idx);
    proof {
        assert(digits@ =~= dec_digits(idx as int));
    }
    if digits.len() < width {
        let pad = width - digits.len();
        let mut r: Vec<char> = Vec::new();
        let mut i: usize = 0;
        proof {
            assert(r@ =~= spaces(0));
        }
        while i < pad
            invariant
                i <= pad,
                r@ == spaces(i as int),
            decreases pad - i,
        {
            r.push(' ');
            proof {
                assert(r@ =~= spaces(i as int) + seq![' ']);
            }
            i = i + 1;
        }
        let mut j: usize = 0;
        while j < digits.len()
            invariant
                j <= digits.len(),
                digits@ == dec_digits(idx as int),
                r@ == spaces(pad as int) + digits@.take(j as int),
            decreases digits.len() - j,
        {
            r.push(digits[j]);
            proof {
                assert(r@ =~= spaces(pad as int) + digits@.take(j + 1));
            }
            j = j + 1;
        }
        proof {
            assert(digits@.take(digits@.len() as int) =~= digits@);
        }
        r
    } else {
        digits
    }
}

/// One numbered listing line.
fn entry_line(idx: usize, width: usize, k: &DiaryEntryKey) -> (r: String)
    requires
        k.wf(),
    ensures
        r@ == entry_line_chars(idx as int, width as int, *k),
{
    let mut v = padded_index(idx, width);
    v.push(' ');
    let key_text = k.canonical_string();
    let kv = crate::strutil::chars_of(key_text.as_str());
    let mut j: usize = 0;
    while j < kv.len()
        invariant
            j <= kv.len(),
            kv@ == canonical_chars(*k),
            v@ == padded_index_chars(idx as int, width as int) + seq![' '] + kv@.take(j as int),
        decreases kv.len() - j,
    {
        v.push(kv[j]);
        proof {
            assert(v@ =~= padded_index_chars(idx as int, width as int) + seq![' '] + kv@.take(
                j + 1,
            ));
        }
        j = j + 1;
    }
    proof {
        assert(kv@.take(kv@.len() as int) =~= kv@);
    }
    string_from_chars(&v)
}

/// Renders the listing of `keys`: their canonical forms, numbered as
/// `option` says, reversed whole when `ordering` is latest-first.
pub fn make_entry_list(keys: &Vec<DiaryEntryKey>, option: ListOption, ordering: KeyOrdering) -> (r:
    Vec<String>)
    requires
        forall|i: int| 0 <= i < keys@.len() ==> (#[trigger] keys@[i]).wf(),
    ensures
        r@.len() == keys@.len(),
        forall|i: int|
            0 <= i < r@.len() ==> (#[trigger] r@[i])@ == listed_line(option, ordering, keys@, i),
{
    let width = order_of_magnitude(keys.len());
    let mut lines: Vec<String> = Vec::new();
    let mut i: usize = 0;
    while i < keys.len()
        invariant
            i <= keys.len(),
            lines@.len() == i,
            forall|x: int| 0 <= x < keys@.len() ==> (#[trigger] keys@[x]).wf(),
            width == magnitude_spec(keys@.len() as int),
            forall|x: int|
                0 <= x < i ==> (#[trigger] lines@[x])@ == raw_line(option, keys@, x),
        decreases keys.len() - i,
    {
        let line = match option {
            ListOption::Plain => keys[i].canonical_string(),
            ListOption::Enumerate => entry_line(i + 1, width, &keys[i]),
            ListOption::EnumerateReverse => entry_line(keys.len() - i, width, &keys[i]),
        };
        lines.push(line);
        i = i + 1;
    }
    match ordering {
        KeyOrdering::EarliestFirst => lines,
        KeyOrdering::LatestFirst => {
            let mut rev: Vec<String> = Vec::new();
            let mut j: usize = 0;
            while j < lines.len()
                invariant
                    j <= lines.len(),
                    rev@.len() == j,
                    lines@.len() == keys@.len(),
                    forall|x: int|
                        0 <= x < lines@.len() ==> (#[trigger] lines@[x])@ == raw_line(
                            option,
                            keys@,
                            x,
                        ),
                    forall|x: int|
                        0 <= x < j ==> (#[trigger] rev@[x])@ == raw_line(
                            option,
                            keys@,
                            keys@.len() - 1 - x,
                        ),
                decreases lines.len() - j,
            {
                rev.push(lines[lines.len() - 1 - j].clone());
                j = j + 1;
            }
            rev
        },
    }
}

} // verus!
