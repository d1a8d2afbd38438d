//! The diary orchestrator: the one component that couples the entry store
//! and the tag index. Adding an entry updates the index from the newly
//! supplied text (and only that text), then computes what the store must
//! hold; listing sorts the walked keys; searching delegates to the index;
//! reindexing rebuilds the index from the authoritative store contents.
//!
//! Reading and writing the files themselves happens outside the library:
//! the store's caller walks the tree, reads old text and writes what
//! `add_entry` returns.

use vstd::prelude::*;

use crate::index::pairs_for;
use crate::index::matching_tags;
use crate::index::rebuilt_rows;
use crate::index::rows_canonical;
use crate::index::rows_with_tags_set;
use crate::index::search_found;
use crate::index::views_of;
use crate::index::TagIndex;
use crate::index::TagIndexError;
use crate::key::db_key_chars;
use crate::key::keys_sorted;
use crate::key::sort_keys;
use crate::key::DiaryEntryKey;
use crate::store::collect_dates;
use crate::store::listed_from;
use crate::store::triple_views;
use crate::tags::find_tags;
use crate::tags::scan_tags;
use crate::text::append_merge;
use crate::text::append_merge_spec;
use crate::text::normalize_entry_text;
use crate::text::normalize_spec;

verus! {

/// How adding an entry treats text already stored under the same key.
pub enum MatchingDateBehavior {
    Overwrite,
    Append,
}

/// What can go wrong in the entry store. The store's file handling happens
/// outside the library, which reports failures through these cases.
#[derive(Debug)]
pub enum FileRepoError {
    BadPathError(String),
    EntryNotFound(DiaryEntryKey),
    IoError(String),
    NameParseError(String),
    EntryContentDecodingError(String),
}

/// What can go wrong in the diary: a storage failure or an index failure,
/// wrapped without further cases.
#[derive(Debug)]
pub enum DiaryError {
    FileRepoError(FileRepoError),
    TagIndexError(TagIndexError),
}

impl From<FileRepoError> for DiaryError {
    fn from(error: FileRepoError) -> (r: DiaryError) {
        DiaryError::FileRepoError(error)
    }
}

impl vstd::std_specs::convert::FromSpecImpl<FileRepoError> for DiaryError {
    open spec fn obeys_from_spec() -> bool {
        true
    }

    open spec fn from_spec(error: FileRepoError) -> DiaryError {
        DiaryError::FileRepoError(error)
    }
}

impl From<TagIndexError> for DiaryError {
    fn from(error: TagIndexError) -> (r: DiaryError) {
        DiaryError::TagIndexError(error)
    }
}

impl vstd::std_specs::convert::FromSpecImpl<TagIndexError> for DiaryError {
    open spec fn obeys_from_spec() -> bool {
        true
    }

    open spec fn from_spec(error: TagIndexError) -> DiaryError {
        DiaryError::TagIndexError(error)
    }
}

/// A source of the current instant, injected so that a caller — or a test —
/// can supply a deterministic time.
pub trait Clock {
    /// The instant this clock reads, at the level of specifications. An
    /// implementation the verifier never sees (a real system clock) leaves
    /// it at the default: some unspecified instant.
    open spec fn spec_now(&self) -> DiaryEntryKey {
        vstd::pervasive::arbitrary()
    }

    /// The current UTC minute.
    fn now(&self) -> (k: DiaryEntryKey)
        ensures
            k == self.spec_now(),
            k.wf(),
    ;
}

/// A clock pinned to one instant.
pub struct FixedClock {
    key: DiaryEntryKey,
}

impl FixedClock {
    #[verifier::type_invariant]
    spec fn type_inv(self) -> bool {
        self.key.wf()
    }

    /// A clock that always reads `key`.
    pub fn new(key: DiaryEntryKey) -> (r: FixedClock)
        requires
            key.wf(),
        ensures
            r.spec_now() == key,
    {
        FixedClock { key }
    }
}

impl Clock for FixedClock {
    closed spec fn spec_now(&self) -> DiaryEntryKey {
        self.key
    }

    fn now(&self) -> (k: DiaryEntryKey) {
        proof {
            use_type_invariant(self);
        }
        self.key
    }
}

/// The text the store holds for an entry after an add: the new text
/// normalized, and under the append policy stacked onto whatever text the
/// key already had.
pub open spec fn stored_text_spec(
    behavior: MatchingDateBehavior,
    old_text: Option<Seq<char>>,
    content: Seq<char>,
) -> Seq<char> {
    match behavior {
        MatchingDateBehavior::Overwrite => normalize_spec(content),
        MatchingDateBehavior::Append => match old_text {
            Some(o) => append_merge_spec(o, normalize_spec(content)),
            None => normalize_spec(content),
        },
    }
}

/// The view of an optional borrowed text.
pub open spec fn opt_text_view(t: Option<&String>) -> Option<Seq<char>> {
    match t {
        Some(s) => Some(s@),
        None => None,
    }
}

/// The index rows a reindex run builds: for each (key, stored text) pair,
/// one row per tag of that text.
pub open spec fn reindexed_rows(es: Seq<(DiaryEntryKey, Seq<char>)>) -> Set<
    (Seq<char>, Seq<char>),
> {
    rebuilt_rows(es.map_values(|e: (DiaryEntryKey, Seq<char>)| (e.0, scan_tags(e.1))))
}

/// The diary over an injected clock. The entry files live with the caller,
/// which walks, reads and writes them; every decision about their names
/// and contents, and the whole tag index, stands in this library.
pub struct Diary<C: Clock> {
    pub clock: C,
}

impl<C: Clock> Diary<C> {
    /// A diary over the given clock.
    pub fn open_custom(clock: C) -> (r: Diary<C>)
        ensures
            r.clock == clock,
    {
        Diary { clock }
    }

    /// The effective key for a new entry: the caller's, or the clock's
    /// current minute when none was given.
    pub fn resolve_key(&self, key: Option<DiaryEntryKey>) -> (r: DiaryEntryKey)
        requires
            key matches Some(k) ==> k.wf(),
        ensures
            key matches Some(k) ==> r == k,
            key is None ==> r == self.clock.spec_now(),
            r.wf(),
    {
        match key {
            Some(k) => k,
            None => self.clock.now(),
        }
    }

    /// Every walked key, sorted ascending by instant: exactly the keys of
    /// the well-placed, well-named files, however the walk ordered them.
    pub fn list_keys(&self, files: &Vec<(String, String, String)>) -> (r: Vec<DiaryEntryKey>)
        ensures
            keys_sorted(r@),
            r@.to_multiset() == listed_from(
                files@.map_values(|t: (String, String, String)| triple_views(t)),
                0,
            ).to_multiset(),
            forall|i: int| 0 <= i < r@.len() ==> (#[trigger] r@[i]).wf(),
    {
        let found = collect_dates(files);
        let r = sort_keys(found);
        proof {
            assert forall|i: int| 0 <= i < r@.len() implies (#[trigger] r@[i]).wf() by {
                assert(found@.contains(r@[i]));
                let k = choose|k: int| 0 <= k < found@.len() && found@[k] == r@[i];
                assert(found@[k].wf());
            }
        }
        r
    }

    /// Replaces the index rows of `key` by the tags of `text`.
    fn save_tags(&self, tag_index: &mut TagIndex, key: &DiaryEntryKey, text: &str) -> (r: Result<
        (),
        DiaryError,
    >)
        requires
            key.wf(),
        ensures
            final(tag_index).root_view() == old(tag_index).root_view(),
            r is Ok ==> final(tag_index).rows() == rows_with_tags_set(
                old(tag_index).rows(),
                db_key_chars(*key),
                scan_tags(text@),
            ),
    {
        let tags = find_tags(text);
        let result = tag_index.set_tags(key, &tags);
        match result {
            Ok(()) => {
                proof {
                    let tv = views_of(tags@);
                    assert forall|row: (Seq<char>, Seq<char>)|
                        pairs_for(db_key_chars(*key), tv).contains(row)
                            == pairs_for(db_key_chars(*key), scan_tags(text@)).contains(row) by {
                        assert(tv.contains(row.0) == tv.to_set().contains(row.0));
                        assert(scan_tags(text@).contains(row.0) == scan_tags(
                            text@,
                        ).to_set().contains(row.0));
                    }
                    assert(pairs_for(db_key_chars(*key), tv) =~= pairs_for(
                        db_key_chars(*key),
                        scan_tags(text@),
                    ));
                }
                Ok(())
            },
            Err(e) => Err(DiaryError::TagIndexError(e)),
        }
    }

    /// Adds or replaces the entry at the effective key: the index rows of
    /// that key become the tags of the newly supplied text — only that
    /// text, under either policy — and the result carries the key together
    /// with the exact text the store must now hold for it. The caller
    /// passes in whatever text the store already held at the key — none on
    /// a fresh key, and none on a failed read, which appends as if fresh —
    /// and afterwards writes the returned text at the key's path.
    pub fn add_entry(
        &self,
        tag_index: &mut TagIndex,
        content: &str,
        key: Option<DiaryEntryKey>,
        old_text: Option<&String>,
        behavior: MatchingDateBehavior,
    ) -> (r: Result<(DiaryEntryKey, String), DiaryError>)
        requires
            key matches Some(k) ==> k.wf(),
        ensures
            final(tag_index).root_view() == old(tag_index).root_view(),
            r matches Ok(p) ==> {
                &&& (key matches Some(k) ==> p.0 == k)
                &&& (key is None ==> p.0 == self.clock.spec_now())
                &&& p.0.wf()
                &&& final(tag_index).rows() == rows_with_tags_set(
                    old(tag_index).rows(),
                    db_key_chars(p.0),
                    scan_tags(content@),
                )
                &&& p.1@ == stored_text_spec(behavior, opt_text_view(old_text), content@)
            },
    {
        let effective = self.resolve_key(key);
        match self.save_tags(tag_index, &effective, content) {
            Ok(()) => {},
            Err(e) => {
                return Err(e);
            },
        }
        let formatted = normalize_entry_text(content);
        let text = match behavior {
            MatchingDateBehavior::Overwrite => formatted,
            MatchingDateBehavior::Append => match old_text {
                Some(old) => append_merge(old.as_str(), formatted.as_str()),
                None => formatted,
            },
        };
        Ok((effective, text))
    }

    /// Finds the keys of entries carrying at least one of the given tags.
    pub fn search_tags(&self, tag_index: &TagIndex, tags: &Vec<String>) -> (r: Result<
        Vec<DiaryEntryKey>,
        DiaryError,
    >)
        ensures
            tags@.len() == 0 ==> (r matches Ok(v) && v@.len() == 0),
            r matches Ok(v) ==> search_found(
                tag_index.rows(),
                views_of(tags@).to_set(),
                v@,
            ),
            r matches Ok(v) ==> forall|i: int| 0 <= i < v@.len() ==> (#[trigger] v@[i]).wf(),
            r matches Ok(v) ==> (rows_canonical(tag_index.rows(), views_of(tags@).to_set())
                ==> forall|k: DiaryEntryKey|
                    k.wf() ==> v@.to_multiset().count(k) == #[trigger] matching_tags(
                        tag_index.rows(),
                        views_of(tags@).to_set(),
                        crate::key::db_key_chars(k),
                    ).len()),
            r matches Err(de) ==> (de matches DiaryError::TagIndexError(e) && (e is DBError
                || e is IndexFormatError)),
    {
        match tag_index.search_tags(tags) {
            Ok(keys) => Ok(keys),
            Err(e) => Err(DiaryError::TagIndexError(e)),
        }
    }

    /// Rebuilds the whole tag index from the authoritative entries: every
    /// key with its stored text, as the caller read them back.
    pub fn reindex(&self, tag_index: &mut TagIndex, entries: &Vec<(DiaryEntryKey, String)>) -> (r:
        Result<(), DiaryError>)
        requires
            forall|x: int| 0 <= x < entries@.len() ==> (#[trigger] entries@[x]).0.wf(),
        ensures
            final(tag_index).root_view() == old(tag_index).root_view(),
            r is Ok ==> final(tag_index).rows() == reindexed_rows(
                entries@.map_values(|e: (DiaryEntryKey, String)| (e.0, e.1@)),
            ),
    {
        let ghost ev = entries@.map_values(|e: (DiaryEntryKey, String)| (e.0, e.1@));
        let mut keyed: Vec<(DiaryEntryKey, Vec<String>)> = Vec::new();
        let mut i: usize = 0;
        while i < entries.len()
            invariant
                i <= entries.len(),
                ev == entries@.map_values(|e: (DiaryEntryKey, String)| (e.0, e.1@)),
                forall|x: int| 0 <= x < entries@.len() ==> (#[trigger] entries@[x]).0.wf(),
                keyed@.len() == i,
                forall|x: int|
                    0 <= x < i ==> (#[trigger] keyed@[x]).0 == entries@[x].0 && views_of(
                        keyed@[x].1@,
                    ).to_set() == scan_tags(entries@[x].1@).to_set(),
            decreases entries.len() - i,
        {
            let tags = find_tags(entries[i].1.as_str());
            keyed.push((entries[i].0, tags));
            i = i + 1;
        }
        proof {
            assert forall|x: int| 0 <= x < keyed@.len() implies (#[trigger] keyed@[x]).0.wf() by {
                assert(keyed@[x].0 == entries@[x].0);
            }
        }
        match tag_index.recreate_index(&keyed) {
            Ok(()) => {
                proof {
                    let km = keyed@.map_values(
                        |e: (DiaryEntryKey, Vec<String>)| (e.0, views_of(e.1@)),
                    );
                    let rm = ev.map_values(|e: (DiaryEntryKey, Seq<char>)| (e.0, scan_tags(e.1)));
                    assert(km.len() == rm.len());
                    assert forall|row: (Seq<char>, Seq<char>)|
                        rebuilt_rows(km).contains(row) == rebuilt_rows(rm).contains(row) by {
                        if rebuilt_rows(km).contains(row) {
                            let x = choose|x: int|
                                0 <= x < km.len() && row.1 == db_key_chars(km[x].0)
                                    && #[trigger] km[x].1.contains(row.0);
                            assert(km[x].0 == keyed@[x].0 && km[x].1 == views_of(keyed@[x].1@));
                            assert(rm[x].0 == ev[x].0 && rm[x].1 == scan_tags(ev[x].1));
                            assert(ev[x] == (entries@[x].0, entries@[x].1@));
                            assert(km[x].1.to_set().contains(row.0));
                            assert(rm[x].1.contains(row.0));
                        }
                        if rebuilt_rows(rm).contains(row) {
                            let x = choose|x: int|
                                0 <= x < rm.len() && row.1 == db_key_chars(rm[x].0)
                                    && #[trigger] rm[x].1.contains(row.0);
                            assert(km[x].0 == keyed@[x].0 && km[x].1 == views_of(keyed@[x].1@));
                            assert(rm[x].0 == ev[x].0 && rm[x].1 == scan_tags(ev[x].1));
                            assert(ev[x] == (entries@[x].0, entries@[x].1@));
                            assert(rm[x].1.to_set().contains(row.0));
                            assert(km[x].1.contains(row.0));
                        }
                    }
                    assert(rebuilt_rows(km) =~= rebuilt_rows(rm));
                }
                Ok(())
            },
            Err(e) => Err(DiaryError::TagIndexError(e)),
        }
    }
}

} // verus!
