//! Entry text as stored: trailing whitespace trimmed and a single trailing
//! newline enforced on write; on append, the old text, a blank line, and the
//! new text. Storing a text never changes its tag set: the characters that
//! trimming removes or appending adds can take no part in any tag.

use vstd::prelude::*;

use crate::strutil::chars_of;
use crate::strutil::is_space;
use crate::strutil::lemma_trim_end_parts;
use crate::strutil::string_from_chars;
use crate::strutil::trim_end_chars;
use crate::strutil::trim_end_spec;
use crate::tags::first_close;
use crate::tags::hash_run;
use crate::tags::is_close_at;
use crate::tags::phrase_at;
use crate::tags::scan;
use crate::tags::scan_tags;
use crate::tags::word_at;
use crate::tags::word_char;
use crate::tags::word_run;

verus! {

/// Entry text as written to the store: trailing whitespace trimmed, exactly
/// one trailing newline.
pub open spec fn normalize_spec(s: Seq<char>) -> Seq<char> {
    trim_end_spec(s).push('\n')
}

/// Normalizes entry text for storage.
pub fn normalize_entry_text(s: &str) -> (r: String)
    ensures
        r@ == normalize_spec(s@),
{
    let v = chars_of(s);
    let mut t = trim_end_chars(&v);
    t.push('\n');
    string_from_chars(&t)
}

/// The text stored when appending to an existing entry: the old text
/// trimmed, a blank line, then the (already normalized) new text.
pub open spec fn append_merge_spec(old_text: Seq<char>, formatted: Seq<char>) -> Seq<char> {
    trim_end_spec(old_text) + seq!['\n', '\n'] + formatted
}

/// Merges an existing entry's text with newly supplied, normalized text.
pub fn append_merge(old_text: &str, formatted: &str) -> (r: String)
    ensures
        r@ == append_merge_spec(old_text@, formatted@),
{
    let v = chars_of(old_text);
    let mut t = trim_end_chars(&v);
    t.push('\n');
    t.push('\n');
    let f = chars_of(formatted);
    let mut i: usize = 0;
    while i < f.len()
        invariant
            i <= f.len(),
            t@ == trim_end_spec(old_text@) + seq!['\n', '\n'] + f@.take(i as int),
            f@ == formatted@,
        decreases f.len() - i,
    {
        t.push(f[i]);
        proof {
            assert(t@ =~= trim_end_spec(old_text@) + seq!['\n', '\n'] + f@.take(i + 1));
        }
        i = i + 1;
    }
    proof {
        assert(f@.take(f@.len() as int) =~= f@);
        assert(t@ =~= append_merge_spec(old_text@, formatted@));
    }
    string_from_chars(&t)
}

/// A character that can take no part in any tag: not a word character and
/// none of `#`, `(`, `)`. Whitespace and the newline qualify.
pub open spec fn tail_inert(c: char) -> bool {
    &&& !word_char(c)
    &&& c != '#'
    &&& c != '('
    &&& c != ')'
}

/// Whitespace characters are inert.
pub proof fn lemma_space_inert(c: char)
    requires
        is_space(c),
    ensures
        tail_inert(c),
{
}

/// Text that is inert from `i` on holds no tag from `i` on.
proof fn lemma_scan_inert_tail(s: Seq<char>, i: int)
    requires
        0 <= i <= s.len(),
        forall|k: int| i <= k < s.len() ==> tail_inert(s[k]),
    ensures
        scan(s, i) == Seq::<Seq<char>>::empty(),
    decreases s.len() - i,
{
    if i < s.len() {
        assert(hash_run(s, i) == 0);
        assert(phrase_at(s, i) is None);
        assert(word_at(s, i) is None);
        lemma_scan_inert_tail(s, i + 1);
    }
}

/// Hash runs that start in the common prefix agree and end within it.
proof fn lemma_hash_run_agree(s1: Seq<char>, s2: Seq<char>, p: int, i: int)
    requires
        0 <= i <= p,
        p <= s1.len(),
        p <= s2.len(),
        s1.subrange(0, p) == s2.subrange(0, p),
        forall|k: int| p <= k < s1.len() ==> tail_inert(s1[k]),
        forall|k: int| p <= k < s2.len() ==> tail_inert(s2[k]),
    ensures
        hash_run(s1, i) == hash_run(s2, i),
        i + hash_run(s1, i) <= p,
    decreases p - i,
{
    if i < p {
        assert(s1[i] == s1.subrange(0, p)[i] && s2[i] == s2.subrange(0, p)[i]);
        if s1[i] == '#' {
            lemma_hash_run_agree(s1, s2, p, i + 1);
        }
    } else {
        assert(hash_run(s1, p) == 0);
        assert(hash_run(s2, p) == 0);
    }
}

/// Word runs that start in the common prefix agree and end within it.
proof fn lemma_word_run_agree(s1: Seq<char>, s2: Seq<char>, p: int, i: int)
    requires
        0 <= i <= p,
        p <= s1.len(),
        p <= s2.len(),
        s1.subrange(0, p) == s2.subrange(0, p),
        forall|k: int| p <= k < s1.len() ==> tail_inert(s1[k]),
        forall|k: int| p <= k < s2.len() ==> tail_inert(s2[k]),
    ensures
        word_run(s1, i) == word_run(s2, i),
        i + word_run(s1, i) <= p,
    decreases p - i,
{
    if i < p {
        assert(s1[i] == s1.subrange(0, p)[i] && s2[i] == s2.subrange(0, p)[i]);
        if word_char(s1[i]) {
            lemma_word_run_agree(s1, s2, p, i + 1);
        }
    } else {
        assert(word_run(s1, p) == 0);
        assert(word_run(s2, p) == 0);
    }
}

/// Phrase closes agree everywhere: beyond the common prefix neither text
/// holds a `)` or a `#`, and a close found within it lies entirely within it.
proof fn lemma_close_agree(s1: Seq<char>, s2: Seq<char>, p: int, n: nat)
    requires
        0 <= p <= s1.len(),
        p <= s2.len(),
        s1.subrange(0, p) == s2.subrange(0, p),
        forall|k: int| p <= k < s1.len() ==> tail_inert(s1[k]),
        forall|k: int| p <= k < s2.len() ==> tail_inert(s2[k]),
    ensures
        forall|j: int| is_close_at(s1, j, n) == is_close_at(s2, j, n),
        forall|j: int| is_close_at(s1, j, n) ==> j + n < p,
{
    assert forall|j: int| is_close_at(s1, j, n) implies j + n < p by {
        if j >= p {
            assert(tail_inert(s1[j]));
        } else if j + n >= p {
            assert(s1[p] == '#');
            assert(tail_inert(s1[p]));
        }
    }
    assert forall|j: int| is_close_at(s2, j, n) implies j + n < p by {
        if j >= p {
            assert(tail_inert(s2[j]));
        } else if j + n >= p {
            assert(s2[p] == '#');
            assert(tail_inert(s2[p]));
        }
    }
    assert forall|j: int| is_close_at(s1, j, n) == is_close_at(s2, j, n) by {
        if is_close_at(s1, j, n) {
            assert forall|k: int| j < k <= j + n implies s2[k] == '#' by {
                assert(s1[k] == s1.subrange(0, p)[k]);
            }
            assert(s2[j] == s2.subrange(0, p)[j] && s1[j] == s1.subrange(0, p)[j]);
            assert(is_close_at(s2, j, n));
        }
        if is_close_at(s2, j, n) {
            assert forall|k: int| j < k <= j + n implies s1[k] == '#' by {
                assert(s2[k] == s2.subrange(0, p)[k]);
            }
            assert(s2[j] == s2.subrange(0, p)[j] && s1[j] == s1.subrange(0, p)[j]);
            assert(is_close_at(s1, j, n));
        }
    }
}

/// If no close exists at or after `from`, the search finds none.
proof fn lemma_first_close_none(s: Seq<char>, from: int, n: nat)
    requires
        0 <= from <= s.len(),
        forall|j: int| from <= j ==> !is_close_at(s, j, n),
    ensures
        first_close(s, from, n) is None,
    decreases s.len() - from,
{
    if from < s.len() {
        lemma_first_close_none(s, from + 1, n);
    }
}

/// The search finds exactly the least close at or after `from`.
proof fn lemma_first_close_exact(s: Seq<char>, from: int, n: nat, j: int)
    requires
        0 <= from <= s.len(),
        from <= j,
        is_close_at(s, j, n),
        forall|x: int| from <= x < j ==> !is_close_at(s, x, n),
    ensures
        first_close(s, from, n) == Some(j),
    decreases j - from,
{
    if from == j {
    } else {
        lemma_first_close_exact(s, from + 1, n, j);
    }
}

/// Phrase matches that start in the common prefix agree, and end within it.
proof fn lemma_phrase_agree(s1: Seq<char>, s2: Seq<char>, p: int, i: int)
    requires
        0 <= i <= p,
        p <= s1.len(),
        p <= s2.len(),
        s1.subrange(0, p) == s2.subrange(0, p),
        forall|k: int| p <= k < s1.len() ==> tail_inert(s1[k]),
        forall|k: int| p <= k < s2.len() ==> tail_inert(s2[k]),
    ensures
        phrase_at(s1, i) == phrase_at(s2, i),
        phrase_at(s1, i) is Some ==> i < (phrase_at(s1, i)->0).1 <= p,
{
    lemma_hash_run_agree(s1, s2, p, i);
    let n = hash_run(s1, i);
    lemma_close_agree(s1, s2, p, n);
    if n >= 1 && i + n < p {
        assert(s1[i + n] == s1.subrange(0, p)[i + n] && s2[i + n] == s2.subrange(0, p)[i + n]);
    } else if n >= 1 && i + n == p {
        if i + n < s1.len() {
            assert(tail_inert(s1[i + n]));
        }
        if i + n < s2.len() {
            assert(tail_inert(s2[i + n]));
        }
    }
    if n >= 1 && i + n < s1.len() && s1[i + n] == '(' {
        assert(i + n < p);
        match first_close(s1, i + n + 1, n) {
            Some(j) => {
                crate::tags::lemma_first_close_found(s1, i + n + 1, n);
                assert(is_close_at(s2, j, n));
                assert(j + n < p);
                assert forall|x: int| i + n + 1 <= x < j implies !is_close_at(s2, x, n) by {
                    assert(!is_close_at(s1, x, n));
                }
                lemma_first_close_exact(s2, i + n + 1, n, j);
                if j > i + n + 1 {
                    assert forall|z: int|
                        #![trigger s1.subrange(i + n + 1, j)[z]]
                        0 <= z < j - (i + n + 1) implies s1.subrange(i + n + 1, j)[z]
                        == s2.subrange(i + n + 1, j)[z] by {
                        assert(s1[i + n + 1 + z] == s1.subrange(0, p)[i + n + 1 + z]);
                        assert(s2[i + n + 1 + z] == s2.subrange(0, p)[i + n + 1 + z]);
                    }
                    assert(s1.subrange(i + n + 1, j) =~= s2.subrange(i + n + 1, j));
                }
            },
            None => {
                assert forall|x: int| i + n + 1 <= x implies !is_close_at(s2, x, n) by {
                    if is_close_at(s2, x, n) {
                        assert(is_close_at(s1, x, n));
                        crate::tags::lemma_first_close_none_means(s1, i + n + 1, n, x);
                    }
                }
                lemma_first_close_none(s2, i + n + 1, n);
            },
        }
    }
}

/// Word matches that start in the common prefix agree, and end within it.
proof fn lemma_word_agree(s1: Seq<char>, s2: Seq<char>, p: int, i: int)
    requires
        0 <= i <= p,
        p <= s1.len(),
        p <= s2.len(),
        s1.subrange(0, p) == s2.subrange(0, p),
        forall|k: int| p <= k < s1.len() ==> tail_inert(s1[k]),
        forall|k: int| p <= k < s2.len() ==> tail_inert(s2[k]),
    ensures
        word_at(s1, i) == word_at(s2, i),
        word_at(s1, i) is Some ==> i < (word_at(s1, i)->0).1 <= p,
{
    if i < p {
        assert(s1[i] == s1.subrange(0, p)[i] && s2[i] == s2.subrange(0, p)[i]);
        if s1[i] == '#' {
            lemma_word_run_agree(s1, s2, p, i + 1);
            let w = word_run(s1, i + 1);
            if w >= 1 {
                assert forall|z: int|
                    #![trigger s1.subrange(i + 1, i + 1 + w)[z]]
                    0 <= z < w implies s1.subrange(i + 1, i + 1 + w)[z] == s2.subrange(
                    i + 1,
                    i + 1 + w,
                )[z] by {
                    assert(s1[i + 1 + z] == s1.subrange(0, p)[i + 1 + z]);
                    assert(s2[i + 1 + z] == s2.subrange(0, p)[i + 1 + z]);
                }
                assert(s1.subrange(i + 1, i + 1 + w) =~= s2.subrange(i + 1, i + 1 + w));
            }
        }
    } else {
        if i < s1.len() {
            assert(tail_inert(s1[i]));
        }
        if i < s2.len() {
            assert(tail_inert(s2[i]));
        }
    }
}

/// Texts that share a prefix and are inert beyond it scan to the same tags.
proof fn lemma_scan_agree(s1: Seq<char>, s2: Seq<char>, p: int, i: int)
    requires
        0 <= i <= p,
        p <= s1.len(),
        p <= s2.len(),
        s1.subrange(0, p) == s2.subrange(0, p),
        forall|k: int| p <= k < s1.len() ==> tail_inert(s1[k]),
        forall|k: int| p <= k < s2.len() ==> tail_inert(s2[k]),
    ensures
        scan(s1, i) == scan(s2, i),
    decreases p - i,
{
    if i == p {
        lemma_scan_inert_tail(s1, i);
        lemma_scan_inert_tail(s2, i);
    } else {
        lemma_phrase_agree(s1, s2, p, i);
        lemma_word_agree(s1, s2, p, i);
        if phrase_at(s1, i) is Some {
            let (tag, next) = phrase_at(s1, i)->0;
            lemma_scan_agree(s1, s2, p, next);
        } else if word_at(s1, i) is Some {
            let (tag, next) = word_at(s1, i)->0;
            lemma_scan_agree(s1, s2, p, next);
        } else {
            lemma_scan_agree(s1, s2, p, i + 1);
        }
    }
}

/// Storing entry text keeps its tags: normalization trims whitespace and
/// adds a newline, and none of those characters can take part in a tag, so
/// the stored text scans to exactly the tags of the text that was supplied.
/// Re-extracting after a read-back therefore yields the same tag set.
pub proof fn lemma_tags_stable_under_storage(t: Seq<char>)
    ensures
        scan_tags(normalize_spec(t)) == scan_tags(t),
{
    lemma_trim_end_parts(t);
    let p = trim_end_spec(t).len() as int;
    let norm = normalize_spec(t);
    assert(norm.subrange(0, p) =~= trim_end_spec(t));
    assert(t.subrange(0, p) =~= trim_end_spec(t));
    assert forall|k: int| p <= k < t.len() implies tail_inert(t[k]) by {
        lemma_space_inert(t[k]);
    }
    assert forall|k: int| p <= k < norm.len() implies tail_inert(norm[k]) by {
        assert(norm[k] == '\n');
        assert(is_space('\n'));
        lemma_space_inert('\n');
    }
    lemma_scan_agree(t, norm, p, 0);
}

} // verus!
