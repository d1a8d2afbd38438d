//! The tag grammar: scanning entry text for word tags (`#` followed by
//! alphanumeric characters) and phrase tags (`#`×n `(` content `)` `#`×n,
//! where the close must repeat the opening hash count). The scanner tries a
//! phrase tag, then a word tag, at each position, and otherwise consumes one
//! plain character.

use vstd::prelude::*;

use crate::strutil::chars_of;
use crate::strutil::is_space;
use crate::strutil::string_from_chars;

verus! {

/// A single tag token, as extracted from entry text.
pub struct Tag(pub String);

/// Names the result of char::is_alphanumeric.
pub uninterp spec fn unicode_alnum(c: char) -> bool;

/// A word-tag character: alphanumeric, hence never whitespace.
pub open spec fn word_char(c: char) -> bool {
    unicode_alnum(c) && !is_space(c)
}

/// Relies on char::is_alphanumeric: the result depends on the character
/// alone, and no alphanumeric character is Unicode whitespace.
#[verifier::external_body]
fn char_is_alnum(c: char) -> (r: bool)
    ensures
        r == unicode_alnum(c),
        r ==> !is_space(c),
{
    c.is_alphanumeric()
}

/// Whether `c` can stand in a word tag.
fn exec_word_char(c: char) -> (r: bool)
    ensures
        r == word_char(c),
{
    char_is_alnum(c)
}

/// How many consecutive `#` characters stand at position `i`.
pub open spec fn hash_run(s: Seq<char>, i: int) -> nat
    decreases s.len() - i,
    when 0 <= i <= s.len()
{
    if i < s.len() && s[i] == '#' {
        (1 + hash_run(s, i + 1)) as nat
    } else {
        0
    }
}

/// How many consecutive word-tag characters stand at position `i`.
pub open spec fn word_run(s: Seq<char>, i: int) -> nat
    decreases s.len() - i,
    when 0 <= i <= s.len()
{
    if i < s.len() && word_char(s[i]) {
        (1 + word_run(s, i + 1)) as nat
    } else {
        0
    }
}

/// Position `j` closes a phrase opened with `n` hashes: `)` followed by at
/// least `n` `#` characters (of which the close consumes exactly `n`).
pub open spec fn is_close_at(s: Seq<char>, j: int, n: nat) -> bool {
    &&& 0 <= j
    &&& j + n < s.len()
    &&& s[j] == ')'
    &&& forall|k: int| j < k <= j + n ==> s[k] == '#'
}

/// The first close position at or after `from`, if any.
pub open spec fn first_close(s: Seq<char>, from: int, n: nat) -> Option<int>
    decreases s.len() - from,
    when 0 <= from <= s.len()
{
    if from >= s.len() {
        None
    } else if is_close_at(s, from, n) {
        Some(from)
    } else {
        first_close(s, from + 1, n)
    }
}

proof fn lemma_hash_run_bound(s: Seq<char>, i: int)
    requires
        0 <= i <= s.len(),
    ensures
        i + hash_run(s, i) <= s.len(),
    decreases s.len() - i,
{
    if i < s.len() && s[i] == '#' {
        lemma_hash_run_bound(s, i + 1);
    }
}

proof fn lemma_word_run_bound(s: Seq<char>, i: int)
    requires
        0 <= i <= s.len(),
    ensures
        i + word_run(s, i) <= s.len(),
    decreases s.len() - i,
{
    if i < s.len() && word_char(s[i]) {
        lemma_word_run_bound(s, i + 1);
    }
}

/// A found close is a close, lies at or after `from`, and is the first one.
pub proof fn lemma_first_close_found(s: Seq<char>, from: int, n: nat)
    requires
        0 <= from <= s.len(),
        first_close(s, from, n) is Some,
    ensures
        from <= first_close(s, from, n)->0,
        is_close_at(s, first_close(s, from, n)->0, n),
        forall|x: int| from <= x < first_close(s, from, n)->0 ==> !is_close_at(s, x, n),
    decreases s.len() - from,
{
    if from >= s.len() {
    } else if is_close_at(s, from, n) {
    } else {
        lemma_first_close_found(s, from + 1, n);
    }
}

/// When the search finds no close, there is none at or after `from`.
pub proof fn lemma_first_close_none_means(s: Seq<char>, from: int, n: nat, j: int)
    requires
        0 <= from <= s.len(),
        first_close(s, from, n) is None,
        from <= j,
    ensures
        !is_close_at(s, j, n),
    decreases s.len() - from,
{
    if from >= s.len() {
    } else if j > from {
        lemma_first_close_none_means(s, from + 1, n, j);
    }
}

/// A phrase tag at `i`: its content and the position just past its close.
pub open spec fn phrase_at(s: Seq<char>, i: int) -> Option<(Seq<char>, int)> {
    let n = hash_run(s, i);
    if n >= 1 && i + n < s.len() && s[i + n] == '(' {
        match first_close(s, i + n + 1, n) {
            Some(j) => if j > i + n + 1 {
                Some((s.subrange(i + n + 1, j), j + n + 1))
            } else {
                None
            },
            None => None,
        }
    } else {
        None
    }
}

/// A word tag at `i`: its content and the position just past it.
pub open spec fn word_at(s: Seq<char>, i: int) -> Option<(Seq<char>, int)> {
    if 0 <= i < s.len() && s[i] == '#' && word_run(s, i + 1) >= 1 {
        let w = word_run(s, i + 1);
        Some((s.subrange(i + 1, i + 1 + w), i + 1 + w))
    } else {
        None
    }
}

/// A matched phrase tag ends strictly after it begins, within the text.
pub proof fn lemma_phrase_at_bounds(s: Seq<char>, i: int)
    requires
        0 <= i <= s.len(),
        phrase_at(s, i) is Some,
    ensures
        i < (phrase_at(s, i)->0).1 <= s.len(),
{
    let n = hash_run(s, i);
    lemma_first_close_found(s, i + n + 1, n);
}

/// A matched word tag ends strictly after it begins, within the text.
pub proof fn lemma_word_at_bounds(s: Seq<char>, i: int)
    requires
        0 <= i <= s.len(),
        word_at(s, i) is Some,
    ensures
        i < (word_at(s, i)->0).1 <= s.len(),
{
    if word_at(s, i) is Some {
        lemma_word_run_bound(s, i + 1);
    }
}

/// Every tag in `s` from position `i` on, leftmost first: a phrase tag is
/// tried first, then a word tag, and otherwise one character is consumed as
/// plain text. The bound checks on `next` always hold (see the bounds
/// lemmas); they keep the recursion visibly well-founded.
pub open spec fn scan(s: Seq<char>, i: int) -> Seq<Seq<char>>
    decreases s.len() - i,
    when 0 <= i <= s.len()
{
    if i >= s.len() {
        Seq::empty()
    } else if phrase_at(s, i) is Some {
        let (tag, next) = phrase_at(s, i)->0;
        if i < next <= s.len() {
            seq![tag] + scan(s, next)
        } else {
            seq![tag]
        }
    } else if word_at(s, i) is Some {
        let (tag, next) = word_at(s, i)->0;
        if i < next <= s.len() {
            seq![tag] + scan(s, next)
        } else {
            seq![tag]
        }
    } else {
        scan(s, i + 1)
    }
}

/// The tags of an entire text, in scan order, duplicates included.
pub open spec fn scan_tags(s: Seq<char>) -> Seq<Seq<char>> {
    scan(s, 0)
}

/// The length of the `#` run at `i`.
pub fn exec_hash_run(v: &Vec<char>, i: usize) -> (r: usize)
    requires
        i <= v.len(),
    ensures
        r == hash_run(v@, i as int),
        i + r <= v.len(),
{
    let mut j: usize = i;
    loop
        invariant
            i <= j <= v.len(),
            hash_run(v@, i as int) == (j - i) + hash_run(v@, j as int),
        ensures
            i <= j <= v.len(),
            hash_run(v@, i as int) == (j - i) + hash_run(v@, j as int),
            hash_run(v@, j as int) == 0,
        decreases v.len() - j,
    {
        if j == v.len() {
            break;
        }
        if !(v[j] == '#') {
            break;
        }
        proof {
            lemma_hash_run_bound(v@, j + 1);
        }
        j = j + 1;
    }
    j - i
}

/// The length of the word-character run at `i`.
pub fn exec_word_run(v: &Vec<char>, i: usize) -> (r: usize)
    requires
        i <= v.len(),
    ensures
        r == word_run(v@, i as int),
        i + r <= v.len(),
{
    let mut j: usize = i;
    loop
        invariant
            i <= j <= v.len(),
            word_run(v@, i as int) == (j - i) + word_run(v@, j as int),
        ensures
            i <= j <= v.len(),
            word_run(v@, i as int) == (j - i) + word_run(v@, j as int),
            word_run(v@, j as int) == 0,
        decreases v.len() - j,
    {
        if j == v.len() {
            break;
        }
        if !exec_word_char(v[j]) {
            break;
        }
        proof {
            lemma_word_run_bound(v@, j + 1);
        }
        j = j + 1;
    }
    j - i
}

/// Whether a phrase close with hash count `n` stands at `j`.
pub fn exec_is_close_at(v: &Vec<char>, j: usize, n: usize) -> (r: bool)
    requires
        j <= v.len(),
    ensures
        r == is_close_at(v@, j as int, n as nat),
{
    if j == v.len() {
        return false;
    }
    if !(v[j] == ')') {
        return false;
    }
    if v.len() - j <= n {
        return false;
    }
    let mut k: usize = 1;
    loop
        invariant
            1 <= k <= n + 1,
            j + n < v.len(),
            forall|x: int| j < x < j + k ==> v@[x] == '#',
        ensures
            1 <= k <= n + 1,
            k == n + 1 || !(v@[j + k] == '#'),
            forall|x: int| j < x < j + k ==> v@[x] == '#',
        decreases n + 1 - k,
    {
        if k > n {
            break;
        }
        if !(v[j + k] == '#') {
            break;
        }
        k = k + 1;
    }
    if k == n + 1 {
        true
    } else {
        false
    }
}

/// The first close position at or after `from`.
pub fn exec_first_close(v: &Vec<char>, from: usize, n: usize) -> (r: Option<usize>)
    requires
        from <= v.len(),
    ensures
        r is Some <==> first_close(v@, from as int, n as nat) is Some,
        r is Some ==> first_close(v@, from as int, n as nat) == Some(r->0 as int),
        r is Some ==> from <= r->0 && is_close_at(v@, r->0 as int, n as nat),
{
    let mut j: usize = from;
    loop
        invariant
            from <= j <= v.len(),
            first_close(v@, from as int, n as nat) == first_close(v@, j as int, n as nat),
        ensures
            from <= j <= v.len(),
            first_close(v@, from as int, n as nat) == first_close(v@, j as int, n as nat),
            j < v.len() ==> is_close_at(v@, j as int, n as nat),
            j == v.len() ==> first_close(v@, j as int, n as nat) is None,
        decreases v.len() - j,
    {
        if j == v.len() {
            break;
        }
        if exec_is_close_at(v, j, n) {
            break;
        }
        j = j + 1;
    }
    if j < v.len() {
        proof {
            lemma_first_close_found(v@, j as int, n as nat);
        }
        Some(j)
    } else {
        None
    }
}

/// The phrase tag at `i`, if one is matched there.
pub fn exec_phrase_at(v: &Vec<char>, i: usize) -> (r: Option<(Vec<char>, usize)>)
    requires
        i <= v.len(),
    ensures
        r is Some <==> phrase_at(v@, i as int) is Some,
        r is Some ==> phrase_at(v@, i as int) == Some(((r->0).0@, (r->0).1 as int)),
        r is Some ==> i < (r->0).1 <= v.len(),
{
    let n = exec_hash_run(v, i);
    if n == 0 {
        return None;
    }
    if i + n == v.len() {
        return None;
    }
    if !(v[i + n] == '(') {
        return None;
    }
    match exec_first_close(v, i + n + 1, n) {
        None => None,
        Some(j) => {
            if j == i + n + 1 {
                None
            } else {
                let mut content: Vec<char> = Vec::new();
                let mut x: usize = i + n + 1;
                while x < j
                    invariant
                        i + n + 1 <= x <= j,
                        j <= v.len(),
                        content@ == v@.subrange(i + n + 1, x as int),
                    decreases j - x,
                {
                    content.push(v[x]);
                    proof {
                        assert(content@ =~= v@.subrange(i + n + 1, x + 1));
                    }
                    x = x + 1;
                }
                Some((content, j + n + 1))
            }
        },
    }
}

/// The word tag at `i`, if one is matched there.
pub fn exec_word_at(v: &Vec<char>, i: usize) -> (r: Option<(Vec<char>, usize)>)
    requires
        i <= v.len(),
    ensures
        r is Some <==> word_at(v@, i as int) is Some,
        r is Some ==> word_at(v@, i as int) == Some(((r->0).0@, (r->0).1 as int)),
        r is Some ==> i < (r->0).1 <= v.len(),
{
    if i == v.len() {
        return None;
    }
    if !(v[i] == '#') {
        return None;
    }
    let w = exec_word_run(v, i + 1);
    if w == 0 {
        return None;
    }
    let mut content: Vec<char> = Vec::new();
    let mut x: usize = i + 1;
    while x < i + 1 + w
        invariant
            i + 1 <= x <= i + 1 + w,
            i + 1 + w <= v.len(),
            content@ == v@.subrange(i + 1, x as int),
        decreases i + 1 + w - x,
    {
        content.push(v[x]);
        proof {
            assert(content@ =~= v@.subrange(i + 1, x + 1));
        }
        x = x + 1;
    }
    Some((content, i + 1 + w))
}

/// Every tag of the text, in scan order.
fn exec_scan(v: &Vec<char>) -> (r: Vec<Vec<char>>)
    ensures
        r@.map_values(|t: Vec<char>| t@) == scan(v@, 0),
{
    let mut r: Vec<Vec<char>> = Vec::new();
    let mut i: usize = 0;
    proof {
        assert(r@.map_values(|t: Vec<char>| t@) =~= Seq::<Seq<char>>::empty());
    }
    while i < v.len()
        invariant
            i <= v.len(),
            r@.map_values(|t: Vec<char>| t@) + scan(v@, i as int) == scan(v@, 0),
        decreases v.len() - i,
    {
        let ghost prev = r@.map_values(|t: Vec<char>| t@);
        match exec_phrase_at(v, i) {
            Some((tag, next)) => {
                proof {
                    assert(scan(v@, i as int) == seq![tag@] + scan(v@, next as int));
                }
                r.push(tag);
                proof {
                    assert(r@.map_values(|t: Vec<char>| t@) =~= prev.push(tag@));
                    assert(prev.push(tag@) + scan(v@, next as int) =~= prev + scan(v@, i as int));
                }
                i = next;
            },
            None => {
                match exec_word_at(v, i) {
                    Some((tag, next)) => {
                        proof {
                            assert(scan(v@, i as int) == seq![tag@] + scan(v@, next as int));
                        }
                        r.push(tag);
                        proof {
                            assert(r@.map_values(|t: Vec<char>| t@) =~= prev.push(tag@));
                            assert(prev.push(tag@) + scan(v@, next as int) =~= prev + scan(
                                v@,
                                i as int,
                            ));
                        }
                        i = next;
                    },
                    None => {
                        proof {
                            assert(scan(v@, i as int) == scan(v@, i + 1));
                        }
                        i = i + 1;
                    },
                }
            },
        }
    }
    proof {
        assert(scan(v@, v@.len() as int) =~= Seq::<Seq<char>>::empty());
        assert(r@.map_values(|t: Vec<char>| t@) =~= r@.map_values(|t: Vec<char>| t@) + scan(
            v@,
            i as int,
        ));
    }
    r
}

/// Lexicographic order on tags by character code, the order `Vec<String>`
/// sorting gives (UTF-8 byte order coincides with code-point order).
pub open spec fn tag_lt(a: Seq<char>, b: Seq<char>) -> bool
    decreases a.len(),
{
    if b.len() == 0 {
        false
    } else if a.len() == 0 {
        true
    } else if (a[0] as u32) < (b[0] as u32) {
        true
    } else if a[0] == b[0] {
        tag_lt(a.drop_first(), b.drop_first())
    } else {
        false
    }
}

/// Strictly ascending: sorted with no duplicates.
pub open spec fn strict_sorted(ts: Seq<Seq<char>>) -> bool {
    forall|i: int, j: int| 0 <= i < j < ts.len() ==> tag_lt(ts[i], ts[j])
}

/// Sequences with the same head and the same tail are the same sequence.
proof fn lemma_head_tail_eq<A>(a: Seq<A>, b: Seq<A>)
    requires
        a.len() > 0,
        b.len() > 0,
        a[0] == b[0],
        a.drop_first() == b.drop_first(),
    ensures
        a == b,
{
    let ta = a.subrange(1, a.len() as int);
    let tb = b.subrange(1, b.len() as int);
    assert(a.drop_first() == ta && b.drop_first() == tb);
    assert(ta.len() == a.len() - 1 && tb.len() == b.len() - 1);
    assert(a.len() == b.len());
    assert forall|k: int| 0 <= k < a.len() implies a[k] == b[k] by {
        if k > 0 {
            assert(ta[k - 1] == a[k]);
            assert(tb[k - 1] == b[k]);
            assert(ta[k - 1] == tb[k - 1]);
        }
    }
    assert(a =~= b);
}

/// Any two tags compare: below, above, or equal.
pub proof fn lemma_tag_lt_trichotomy(a: Seq<char>, b: Seq<char>)
    ensures
        tag_lt(a, b) || tag_lt(b, a) || a == b,
    decreases a.len(),
{
    if b.len() == 0 {
        if a.len() == 0 {
            assert(a =~= b);
        } else {
            assert(tag_lt(b, a));
        }
    } else if a.len() == 0 {
        assert(tag_lt(a, b));
    } else if (a[0] as u32) < (b[0] as u32) {
        assert(tag_lt(a, b));
    } else if a[0] == b[0] {
        lemma_tag_lt_trichotomy(a.drop_first(), b.drop_first());
        if tag_lt(a.drop_first(), b.drop_first()) {
            assert(tag_lt(a, b));
        } else if tag_lt(b.drop_first(), a.drop_first()) {
            assert(tag_lt(b, a));
        } else {
            lemma_head_tail_eq(a, b);
        }
    } else {
        vstd::utf8::char_u32_cast(a[0], a[0] as u32);
        vstd::utf8::char_u32_cast(b[0], b[0] as u32);
        assert((b[0] as u32) < (a[0] as u32));
        assert(tag_lt(b, a));
    }
}

/// The order is irreflexive and asymmetric.
pub proof fn lemma_tag_lt_asymmetric(a: Seq<char>, b: Seq<char>)
    ensures
        tag_lt(a, b) ==> !tag_lt(b, a),
        !tag_lt(a, a),
    decreases a.len(),
{
    if a.len() > 0 && b.len() > 0 && a[0] == b[0] {
        lemma_tag_lt_asymmetric(a.drop_first(), b.drop_first());
    }
    if a.len() > 0 {
        lemma_tag_lt_asymmetric(a.drop_first(), a.drop_first());
    }
}

/// The order is transitive.
pub proof fn lemma_tag_lt_transitive(a: Seq<char>, b: Seq<char>, c: Seq<char>)
    requires
        tag_lt(a, b),
        tag_lt(b, c),
    ensures
        tag_lt(a, c),
    decreases a.len(),
{
    if c.len() == 0 {
    } else if a.len() == 0 {
    } else if b.len() == 0 {
    } else if a[0] == b[0] && b[0] == c[0] {
        lemma_tag_lt_transitive(a.drop_first(), b.drop_first(), c.drop_first());
    }
}

/// Whether `a` comes strictly before `b` in tag order.
fn exec_tag_lt(a: &Vec<char>, b: &Vec<char>) -> (r: bool)
    ensures
        r == tag_lt(a@, b@),
{
    let mut i: usize = 0;
    proof {
        assert(a@.skip(0) =~= a@);
        assert(b@.skip(0) =~= b@);
    }
    loop
        invariant
            i <= a.len(),
            i <= b.len(),
            tag_lt(a@, b@) == tag_lt(a@.skip(i as int), b@.skip(i as int)),
        decreases a.len() - i,
    {
        if i == b.len() {
            assert(b@.skip(i as int).len() == 0);
            return false;
        }
        if i == a.len() {
            assert(a@.skip(i as int).len() == 0);
            return true;
        }
        let ca = a[i];
        let cb = b[i];
        assert(a@.skip(i as int)[0] == a@[i as int] && b@.skip(i as int)[0] == b@[i as int]);
        if (ca as u32) < (cb as u32) {
            return true;
        }
        if !(ca == cb) {
            return false;
        }
        proof {
            assert(a@.skip(i as int).drop_first() =~= a@.skip(i + 1));
            assert(b@.skip(i as int).drop_first() =~= b@.skip(i + 1));
        }
        i = i + 1;
    }
}

/// Inserting an element into a sequence adds it to the element set.
proof fn lemma_insert_to_set(s: Seq<Seq<char>>, j: int, t: Seq<char>)
    requires
        0 <= j <= s.len(),
    ensures
        s.insert(j, t).to_set() == s.to_set().insert(t),
{
    s.insert_ensures(j, t);
    let ins = s.insert(j, t);
    assert forall|x: Seq<char>| ins.to_set().contains(x) implies s.to_set().insert(t).contains(
        x,
    ) by {
        let k = choose|k: int| 0 <= k < ins.len() && ins[k] == x;
        if k < j {
            assert(s[k] == x);
        } else if k == j {
        } else {
            assert(ins[(k - 1) + 1] == s[k - 1]);
            assert(s[k - 1] == x);
        }
    }
    assert forall|x: Seq<char>| s.to_set().insert(t).contains(x) implies ins.to_set().contains(
        x,
    ) by {
        if x == t {
            assert(ins[j] == t);
        } else {
            let k = choose|k: int| 0 <= k < s.len() && s[k] == x;
            if k < j {
                assert(ins[k] == x);
            } else {
                assert(ins[k + 1] == x);
            }
        }
    }
    assert(ins.to_set() =~= s.to_set().insert(t));
}

/// Sorts tags ascending and drops duplicates: the result is strictly sorted
/// and holds exactly the given tags.
#[verifier::rlimit(80)]
fn sort_dedup_tags(raw: Vec<Vec<char>>) -> (r: Vec<Vec<char>>)
    ensures
        strict_sorted(r@.map_values(|t: Vec<char>| t@)),
        r@.map_values(|t: Vec<char>| t@).to_set() == raw@.map_values(|t: Vec<char>| t@).to_set(),
{
    let mut out: Vec<Vec<char>> = Vec::new();
    let mut i: usize = 0;
    proof {
        assert(raw@.map_values(|t: Vec<char>| t@).take(0) =~= Seq::<Seq<char>>::empty());
        assert(out@.map_values(|t: Vec<char>| t@).to_set() =~= raw@.map_values(
            |t: Vec<char>| t@,
        ).take(0).to_set());
    }
    while i < raw.len()
        invariant
            i <= raw.len(),
            strict_sorted(out@.map_values(|t: Vec<char>| t@)),
            out@.map_values(|t: Vec<char>| t@).to_set() == raw@.map_values(
                |t: Vec<char>| t@,
            ).take(i as int).to_set(),
        decreases raw.len() - i,
    {
        let ghost om = out@.map_values(|t: Vec<char>| t@);
        let ghost rm = raw@.map_values(|t: Vec<char>| t@);
        let t = raw[i].clone();
        assert(t@ == rm[i as int]);
        let mut j: usize = 0;
        loop
            invariant
                j <= out.len(),
                forall|x: int| 0 <= x < j ==> tag_lt(om[x], t@),
                om == out@.map_values(|t2: Vec<char>| t2@),
                strict_sorted(om),
            ensures
                j <= out.len(),
                forall|x: int| 0 <= x < j ==> tag_lt(om[x], t@),
                j < out.len() ==> !tag_lt(om[j as int], t@),
            decreases out.len() - j,
        {
            if j == out.len() {
                break;
            }
            if !exec_tag_lt(&out[j], &t) {
                break;
            }
            j = j + 1;
        }
        let duplicate: bool = if j < out.len() {
            !exec_tag_lt(&t, &out[j])
        } else {
            false
        };
        if duplicate {
            proof {
                lemma_tag_lt_trichotomy(t@, om[j as int]);
                assert(t@ == om[j as int]);
                assert(om.to_set().contains(t@));
                assert(rm.take(i + 1) =~= rm.take(i as int) + seq![t@]);
                Seq::<Seq<char>>::lemma_to_set_insert_commutes(rm.take(i as int), t@);
                assert(rm.take(i + 1).to_set() =~= rm.take(i as int).to_set().insert(t@));
                assert(om.to_set() =~= rm.take(i as int).to_set().insert(t@));
            }
        } else {
            let ghost ob = out@.map_values(|t2: Vec<char>| t2@);
            out.insert(j, t);
            proof {
                assert(out@.map_values(|t2: Vec<char>| t2@) =~= ob.insert(j as int, t@));
                lemma_insert_to_set(ob, j as int, t@);
                assert(rm.take(i + 1) =~= rm.take(i as int) + seq![t@]);
                Seq::<Seq<char>>::lemma_to_set_insert_commutes(rm.take(i as int), t@);
                assert(rm.take(i + 1).to_set() =~= rm.take(i as int).to_set().insert(t@));
                ob.insert_ensures(j as int, t@);
                let s = ob.insert(j as int, t@);
                assert forall|x: int, y: int|
                    0 <= x < y < s.len() implies tag_lt(s[x], s[y]) by {
                    if x < j {
                        assert(s[x] == ob[x]);
                    } else if x == j {
                        assert(s[x] == t@);
                    } else {
                        assert(s[(x - 1) + 1] == ob[x - 1]);
                    }
                    if y < j {
                        assert(s[y] == ob[y]);
                    } else if y == j {
                        assert(s[y] == t@);
                    } else {
                        assert(s[(y - 1) + 1] == ob[y - 1]);
                    }
                    if x == j && y > j {
                        assert(j < ob.len());
                        assert(!tag_lt(ob[j as int], t@));
                        lemma_tag_lt_trichotomy(t@, ob[j as int]);
                        assert(tag_lt(t@, ob[j as int]));
                        if y - 1 > j {
                            assert(tag_lt(ob[j as int], ob[y - 1]));
                            lemma_tag_lt_transitive(t@, ob[j as int], ob[y - 1]);
                        }
                    }
                    if x < j && y == j {
                        assert(tag_lt(ob[x], t@));
                    }
                    if x < j && y > j {
                        assert(tag_lt(ob[x], ob[y - 1]));
                    }
                }
            }
        }
        i = i + 1;
    }
    proof {
        assert(raw@.map_values(|t: Vec<char>| t@).take(raw@.len() as int) =~= raw@.map_values(
            |t: Vec<char>| t@,
        ));
    }
    out
}

/// The strictly sorted sequence holding a given set of tags is unique: the
/// result of `find_tags` is pinned by its contract.
pub proof fn lemma_strict_sorted_unique(a: Seq<Seq<char>>, b: Seq<Seq<char>>)
    requires
        strict_sorted(a),
        strict_sorted(b),
        a.to_set() == b.to_set(),
    ensures
        a == b,
    decreases a.len(),
{
    if a.len() == 0 {
        if b.len() > 0 {
            assert(a.to_set().contains(b[0]));
        }
        assert(a =~= b);
    } else if b.len() == 0 {
        assert(b.to_set().contains(a[0]));
    } else {
        lemma_tag_lt_trichotomy(a[0], b[0]);
        if tag_lt(a[0], b[0]) {
            assert(a.contains(a[0]));
            assert(b.to_set().contains(a[0]));
            assert(b.contains(a[0]));
            let k = choose|k: int| 0 <= k < b.len() && b[k] == a[0];
            if k > 0 {
                assert(tag_lt(b[0], b[k]));
                lemma_tag_lt_transitive(a[0], b[0], b[k]);
                lemma_tag_lt_asymmetric(a[0], b[k]);
            } else {
                lemma_tag_lt_asymmetric(a[0], b[0]);
            }
            assert(false);
        } else if tag_lt(b[0], a[0]) {
            assert(b.contains(b[0]));
            assert(a.to_set().contains(b[0]));
            assert(a.contains(b[0]));
            let k = choose|k: int| 0 <= k < a.len() && a[k] == b[0];
            if k > 0 {
                assert(tag_lt(a[0], a[k]));
                lemma_tag_lt_transitive(b[0], a[0], a[k]);
                lemma_tag_lt_asymmetric(b[0], a[k]);
            } else {
                lemma_tag_lt_asymmetric(b[0], a[0]);
            }
            assert(false);
        } else {
            assert(a.drop_first().to_set() =~= b.drop_first().to_set()) by {
                assert forall|x: Seq<char>|
                    a.drop_first().to_set().contains(x) implies b.drop_first().to_set().contains(
                    x,
                ) by {
                    let k = choose|k: int| 0 <= k < a.drop_first().len() && a.drop_first()[k] == x;
                    assert(a[k + 1] == x);
                    assert(tag_lt(a[0], x));
                    assert(b.to_set().contains(x));
                    let k2 = choose|k2: int| 0 <= k2 < b.len() && b[k2] == x;
                    if k2 == 0 {
                        lemma_tag_lt_asymmetric(a[0], x);
                        assert(false);
                    }
                    assert(b.drop_first()[k2 - 1] == x);
                }
                assert forall|x: Seq<char>|
                    b.drop_first().to_set().contains(x) implies a.drop_first().to_set().contains(
                    x,
                ) by {
                    let k = choose|k: int| 0 <= k < b.drop_first().len() && b.drop_first()[k] == x;
                    assert(b[k + 1] == x);
                    assert(tag_lt(b[0], x));
                    assert(a.to_set().contains(x));
                    let k2 = choose|k2: int| 0 <= k2 < a.len() && a[k2] == x;
                    if k2 == 0 {
                        lemma_tag_lt_asymmetric(b[0], x);
                        assert(false);
                    }
                    assert(a.drop_first()[k2 - 1] == x);
                }
            }
            assert(strict_sorted(a.drop_first())) by {
                assert(forall|i: int, j: int|
                    0 <= i < j < a.drop_first().len() ==> a.drop_first()[i] == a[i + 1]
                        && a.drop_first()[j] == a[j + 1]);
            }
            assert(strict_sorted(b.drop_first())) by {
                assert(forall|i: int, j: int|
                    0 <= i < j < b.drop_first().len() ==> b.drop_first()[i] == b[i + 1]
                        && b.drop_first()[j] == b[j + 1]);
            }
            lemma_strict_sorted_unique(a.drop_first(), b.drop_first());
            lemma_head_tail_eq(a, b);
        }
    }
}

/// All tags found in the text, sorted ascending, duplicates collapsed.
/// The contract pins the result: it is the one strictly sorted sequence
/// holding exactly the scanned tags (`lemma_strict_sorted_unique`).
pub fn find_tags(s: &str) -> (r: Vec<String>)
    ensures
        strict_sorted(r@.map_values(|t: String| t@)),
        r@.map_values(|t: String| t@).to_set() == scan_tags(s@).to_set(),
{
    let v = chars_of(s);
    let raw = exec_scan(&v);
    let sorted = sort_dedup_tags(raw);
    let mut r: Vec<String> = Vec::new();
    let mut i: usize = 0;
    proof {
        assert(r@.map_values(|t: String| t@) =~= sorted@.map_values(|t: Vec<char>| t@).take(0));
    }
    while i < sorted.len()
        invariant
            i <= sorted.len(),
            r@.map_values(|t: String| t@) == sorted@.map_values(|t: Vec<char>| t@).take(i as int),
        decreases sorted.len() - i,
    {
        let ghost before = r@.map_values(|t: String| t@);
        r.push(string_from_chars(&sorted[i]));
        proof {
            assert(r@.map_values(|t: String| t@) =~= before.push(sorted@[i as int]@));
            assert(sorted@.map_values(|t: Vec<char>| t@).take(i + 1) =~= before.push(
                sorted@[i as int]@,
            ));
        }
        i = i + 1;
    }
    proof {
        let sm = sorted@.map_values(|t: Vec<char>| t@);
        assert(sm.take(sorted@.len() as int) =~= sm);
    }
    r
}

/// The phrase rule's nesting law: inside a phrase opened with `n` hashes no
/// earlier position closes it, and a close with fewer than `n` hashes is no
/// close at all — only the matching `n`-hash close ends the content.
pub proof fn lemma_phrase_nesting(s: Seq<char>, i: int)
    requires
        0 <= i <= s.len(),
        phrase_at(s, i) is Some,
    ensures
        ({
            let (content, next) = phrase_at(s, i)->0;
            let n = hash_run(s, i);
            let open_end = i + n + 1;
            &&& content == s.subrange(open_end, next - n - 1)
            &&& is_close_at(s, next - n - 1, n)
            &&& forall|x: int| open_end <= x < next - n - 1 ==> !is_close_at(s, x, n)
        }),
{
    let n = hash_run(s, i);
    lemma_first_close_found(s, i + n + 1, n);
}

} // verus!
