//! The entry store's naming scheme. An entry lives in a two-level directory
//! tree, `<root>/<YYYY>/<MM>/<YYYYMMDDThhmm>`: zero-padded year and month
//! directories, and a file named after the full timestamp. Listing reduces
//! to a directory walk plus file-name parsing: a file counts only when its
//! year and month directories match the name's own year and month, and the
//! name parses as a timestamp; anything else is silently skipped. The walk
//! itself happens outside the library; the decisions stand here.

use vstd::prelude::*;

use crate::key::file_name_chars;
use crate::key::four_digit_chars;
use crate::key::parse_file_name;
use crate::key::parse_file_name_spec;
use crate::key::two_digit_chars;
use crate::key::DiaryEntryKey;
use crate::strutil::chars_of;
use crate::strutil::exec_digit_char;
use crate::strutil::string_from_chars;

verus! {

/// The first `n` characters of `s`, or all of them if fewer.
pub open spec fn prefix_up_to(s: Seq<char>, n: int) -> Seq<char> {
    if s.len() <= n {
        s
    } else {
        s.subrange(0, n)
    }
}

/// Characters 4 and 5 of `s`, as far as they exist.
pub open spec fn mid_two(s: Seq<char>) -> Seq<char> {
    if s.len() <= 4 {
        Seq::empty()
    } else if s.len() <= 6 {
        s.subrange(4, s.len() as int)
    } else {
        s.subrange(4, 6)
    }
}

/// The placement rule: a file under directories `year_dir`/`month_dir` is
/// an entry candidate only when the directory names repeat the file name's
/// own year and month digits.
pub open spec fn placement_ok(year_dir: Seq<char>, month_dir: Seq<char>, name: Seq<char>) -> bool {
    year_dir == prefix_up_to(name, 4) && month_dir == mid_two(name)
}

/// Whether two character vectors hold the same characters.
fn chars_eq(a: &Vec<char>, b: &Vec<char>) -> (r: bool)
    ensures
        r == (a@ == b@),
{
    if a.len() != b.len() {
        proof {
            assert(a@ != b@);
        }
        return false;
    }
    let mut i: usize = 0;
    while i < a.len()
        invariant
            i <= a.len(),
            a@.len() == b@.len(),
            forall|k: int| 0 <= k < i ==> a@[k] == b@[k],
        decreases a.len() - i,
    {
        if !(a[i] == b[i]) {
            return false;
        }
        i = i + 1;
    }
    proof {
        assert(a@ =~= b@);
    }
    true
}

/// Copies `v[from..to]` into a fresh vector.
fn copy_range(v: &Vec<char>, from: usize, to: usize) -> (r: Vec<char>)
    requires
        from <= to <= v.len(),
    ensures
        r@ == v@.subrange(from as int, to as int),
{
    let mut r: Vec<char> = Vec::new();
    let mut i: usize = from;
    proof {
        assert(r@ =~= v@.subrange(from as int, from as int));
    }
    while i < to
        invariant
            from <= i <= to <= v.len(),
            r@ == v@.subrange(from as int, i as int),
        decreases to - i,
    {
        r.push(v[i]);
        proof {
            assert(r@ =~= v@.subrange(from as int, i + 1));
        }
        i = i + 1;
    }
    r
}

/// Applies the placement rule to one walked file.
pub fn entry_file_accepted(year_dir: &String, month_dir: &String, name: &String) -> (r: bool)
    ensures
        r == placement_ok(year_dir@, month_dir@, name@),
{
    let nv = chars_of(name.as_str());
    let yv = chars_of(year_dir.as_str());
    let mv = chars_of(month_dir.as_str());
    let cut4: usize = if nv.len() <= 4 {
        nv.len()
    } else {
        4
    };
    let p4 = copy_range(&nv, 0, cut4);
    proof {
        if nv@.len() <= 4 {
            assert(nv@.subrange(0, nv@.len() as int) =~= nv@);
        }
        assert(p4@ == prefix_up_to(name@, 4));
    }
    let m2 = if nv.len() <= 4 {
        let empty: Vec<char> = Vec::new();
        proof {
            assert(empty@ =~= mid_two(name@));
        }
        empty
    } else if nv.len() <= 6 {
        copy_range(&nv, 4, nv.len())
    } else {
        copy_range(&nv, 4, 6)
    };
    proof {
        assert(m2@ == mid_two(name@));
    }
    let yr_ok = chars_eq(&yv, &p4);
    let mo_ok = chars_eq(&mv, &m2);
    yr_ok && mo_ok
}

/// The views of a walked (year directory, month directory, file name)
/// triple.
pub open spec fn triple_views(t: (String, String, String)) -> (Seq<char>, Seq<char>, Seq<char>) {
    (t.0@, t.1@, t.2@)
}

/// The keys of the well-placed, well-named files among `items`, from
/// position `i` on, in walk order.
pub open spec fn listed_from(
    items: Seq<(Seq<char>, Seq<char>, Seq<char>)>,
    i: int,
) -> Seq<DiaryEntryKey>
    decreases items.len() - i,
    when 0 <= i <= items.len()
{
    if i >= items.len() {
        Seq::empty()
    } else {
        let (yd, md, name) = items[i];
        if placement_ok(yd, md, name) && parse_file_name_spec(name) is Some {
            seq![parse_file_name_spec(name)->0] + listed_from(items, i + 1)
        } else {
            listed_from(items, i + 1)
        }
    }
}

/// The entry keys named by the walked files: exactly those whose placement
/// matches and whose name parses, in walk order, misfits silently skipped.
pub fn collect_dates(files: &Vec<(String, String, String)>) -> (r: Vec<DiaryEntryKey>)
    ensures
        r@ == listed_from(files@.map_values(|t: (String, String, String)| triple_views(t)), 0),
        forall|x: int| 0 <= x < r@.len() ==> (#[trigger] r@[x]).wf(),
{
    let ghost fm = files@.map_values(|t: (String, String, String)| triple_views(t));
    let mut r: Vec<DiaryEntryKey> = Vec::new();
    let mut i: usize = 0;
    proof {
        assert(r@ + listed_from(fm, 0) =~= listed_from(fm, 0));
    }
    while i < files.len()
        invariant
            i <= files.len(),
            fm == files@.map_values(|t: (String, String, String)| triple_views(t)),
            r@ + listed_from(fm, i as int) == listed_from(fm, 0),
            forall|x: int| 0 <= x < r@.len() ==> (#[trigger] r@[x]).wf(),
        decreases files.len() - i,
    {
        let ghost before = r@;
        let accepted = entry_file_accepted(&files[i].0, &files[i].1, &files[i].2);
        if accepted {
            match parse_file_name(files[i].2.as_str()) {
                Some(k) => {
                    r.push(k);
                    proof {
                        assert(fm[i as int] == triple_views(files@[i as int]));
                        assert(listed_from(fm, i as int) == seq![k] + listed_from(fm, i + 1));
                        assert(before.push(k) + listed_from(fm, i + 1) =~= before + listed_from(
                            fm,
                            i as int,
                        ));
                    }
                },
                None => {
                    proof {
                        assert(fm[i as int] == triple_views(files@[i as int]));
                        assert(listed_from(fm, i as int) == listed_from(fm, i + 1));
                    }
                },
            }
        } else {
            proof {
                assert(fm[i as int] == triple_views(files@[i as int]));
                assert(listed_from(fm, i as int) == listed_from(fm, i + 1));
            }
        }
        i = i + 1;
    }
    proof {
        assert(listed_from(fm, files@.len() as int) =~= Seq::<DiaryEntryKey>::empty());
        assert(r@ =~= r@ + listed_from(fm, files@.len() as int));
    }
    r
}

/// The year and month directory names an entry's file stands under:
/// zero-padded to four and two digits.
pub fn file_directory(k: &DiaryEntryKey) -> (r: (String, String))
    requires
        k.wf(),
    ensures
        r.0@ == four_digit_chars(k.year as int),
        r.1@ == two_digit_chars(k.month as int),
{
    let mut y: Vec<char> = Vec::new();
    y.push(exec_digit_char(k.year / 1000));
    y.push(exec_digit_char((k.year / 100) % 10));
    y.push(exec_digit_char((k.year / 10) % 10));
    y.push(exec_digit_char(k.year % 10));
    let mut m: Vec<char> = Vec::new();
    m.push(exec_digit_char(k.month / 10));
    m.push(exec_digit_char(k.month % 10));
    proof {
        assert(y@ =~= four_digit_chars(k.year as int));
        assert(m@ =~= two_digit_chars(k.month as int));
    }
    (string_from_chars(&y), string_from_chars(&m))
}

/// A stored entry's directories always match its file name: what `write`
/// lays down, `list` accepts.
pub proof fn lemma_placement_of_own_name(k: DiaryEntryKey)
    requires
        k.wf(),
    ensures
        placement_ok(
            four_digit_chars(k.year as int),
            two_digit_chars(k.month as int),
            file_name_chars(k),
        ),
{
    let name = file_name_chars(k);
    assert(name.len() == 13);
    assert(prefix_up_to(name, 4) =~= four_digit_chars(k.year as int));
    assert(mid_two(name) =~= two_digit_chars(k.month as int));
}

} // verus!
