//! Laws that tie the components together: what tag search returns after
//! entries were added, and that a full reindex from the stored texts
//! restores exactly the rows the earlier adds had built.

use vstd::prelude::*;

use crate::diary::reindexed_rows;
use crate::index::rows_with_tags_set;
use crate::index::search_found;
use crate::key::db_key_chars;
use crate::key::lemma_db_key_injective;
use crate::key::lemma_parse_db_roundtrip;
use crate::key::DiaryEntryKey;
use crate::tags::scan_tags;
use crate::text::lemma_tags_stable_under_storage;
use crate::text::normalize_spec;

verus! {

/// Search is a union, not an intersection: once two distinct keys carry
/// tag sets that each hold some queried tag, any search result under the
/// contract of `TagIndex::search_tags` names both keys — whichever other
/// tags the query names, and whatever the index held before the two
/// entries were added.
pub proof fn lemma_search_tags_union(
    rows0: Set<(Seq<char>, Seq<char>)>,
    k1: DiaryEntryKey,
    tags1: Seq<Seq<char>>,
    t1: Seq<char>,
    k2: DiaryEntryKey,
    tags2: Seq<Seq<char>>,
    t2: Seq<char>,
    query: Set<Seq<char>>,
    out: Seq<DiaryEntryKey>,
)
    requires
        k1.wf(),
        k2.wf(),
        k1 != k2,
        tags1.contains(t1),
        tags2.contains(t2),
        query.contains(t1),
        query.contains(t2),
        search_found(
            rows_with_tags_set(
                rows_with_tags_set(rows0, db_key_chars(k1), tags1),
                db_key_chars(k2),
                tags2,
            ),
            query,
            out,
        ),
    ensures
        out.contains(k1),
        out.contains(k2),
{
    let dbk1 = db_key_chars(k1);
    let dbk2 = db_key_chars(k2);
    if dbk1 == dbk2 {
        lemma_db_key_injective(k1, k2);
    }
    let rows1 = rows_with_tags_set(rows0, dbk1, tags1);
    let rows2 = rows_with_tags_set(rows1, dbk2, tags2);
    assert(rows1.contains((t1, dbk1)));
    assert(rows2.contains((t1, dbk1)));
    assert(rows2.contains((t2, dbk2)));
    lemma_parse_db_roundtrip(k1);
    lemma_parse_db_roundtrip(k2);
    assert(out.contains(k1));
    assert(out.contains(k2));
}

/// The rows the index holds after adding each entry in turn onto `init`:
/// every add replaces its key's rows by the tags of its text.
pub open spec fn rows_after_adds(
    init: Set<(Seq<char>, Seq<char>)>,
    es: Seq<(DiaryEntryKey, Seq<char>)>,
) -> Set<(Seq<char>, Seq<char>)>
    decreases es.len(),
{
    if es.len() == 0 {
        init
    } else {
        rows_with_tags_set(
            rows_after_adds(init, es.drop_last()),
            db_key_chars(es.last().0),
            scan_tags(es.last().1),
        )
    }
}

/// The entries as the store returns them: each text normalized on write.
pub open spec fn stored_entries(es: Seq<(DiaryEntryKey, Seq<char>)>) -> Seq<
    (DiaryEntryKey, Seq<char>),
> {
    es.map_values(|e: (DiaryEntryKey, Seq<char>)| (e.0, normalize_spec(e.1)))
}

/// Reindexing restores the index: rebuilding from the stored texts of
/// entries added under distinct keys onto an empty index yields exactly
/// the rows those adds had built — however the index was corrupted in
/// between, a reindex brings back the same search results.
pub proof fn lemma_reindex_restores(es: Seq<(DiaryEntryKey, Seq<char>)>)
    requires
        forall|x: int| 0 <= x < es.len() ==> (#[trigger] es[x]).0.wf(),
        forall|x: int, y: int| 0 <= x < y < es.len() ==> es[x].0 != es[y].0,
    ensures
        reindexed_rows(stored_entries(es)) == rows_after_adds(
            Set::empty(),
            es,
        ),
    decreases es.len(),
{
    let reindexed = reindexed_rows(stored_entries(es));
    let rm = stored_entries(es).map_values(
        |e: (DiaryEntryKey, Seq<char>)| (e.0, scan_tags(e.1)),
    );
    if es.len() == 0 {
        assert forall|row: (Seq<char>, Seq<char>)| !reindexed.contains(row) by {}
        assert(reindexed =~= Set::<(Seq<char>, Seq<char>)>::empty());
    } else {
        let front = es.drop_last();
        let last = es.last();
        let n = es.len() - 1;
        assert forall|x: int| 0 <= x < front.len() implies #[trigger] front[x] == es[x] by {
            assert(front[x] == es.subrange(0, es.len() - 1)[x]);
        }
        assert forall|x: int| 0 <= x < front.len() implies (#[trigger] front[x]).0.wf() by {
            assert(front[x] == es[x]);
        }
        lemma_reindex_restores(front);
        lemma_tags_stable_under_storage(last.1);
        let prev = rows_after_adds(Set::empty(), front);
        let dbkl = db_key_chars(last.0);
        let front_reindexed = reindexed_rows(stored_entries(front));
        let frm = stored_entries(front).map_values(
            |e: (DiaryEntryKey, Seq<char>)| (e.0, scan_tags(e.1)),
        );
        assert(frm.len() == n);
        assert forall|x: int| 0 <= x < n implies frm[x] == rm[x] by {
            assert(stored_entries(front)[x] == (front[x].0, normalize_spec(front[x].1)));
            assert(stored_entries(es)[x] == (es[x].0, normalize_spec(es[x].1)));
            assert(front[x] == es[x]);
        }
        assert forall|x: int| 0 <= x < n implies db_key_chars(rm[x].0) != dbkl by {
            assert(rm[x].0 == es[x].0);
            if db_key_chars(es[x].0) == dbkl {
                lemma_db_key_injective(es[x].0, last.0);
                assert(es[x].0 == es[es.len() - 1].0);
                assert(false);
            }
        }
        assert forall|row: (Seq<char>, Seq<char>)|
            reindexed.contains(row) == rows_with_tags_set(prev, dbkl, scan_tags(last.1)).contains(
            row,
        ) by {
            if reindexed.contains(row) {
                let x = choose|x: int|
                    0 <= x < rm.len() && row.1 == db_key_chars(rm[x].0)
                        && (#[trigger] rm[x].1).contains(row.0);
                if x < n {
                    assert(frm[x] == rm[x]);
                    assert(frm[x].1.contains(row.0));
                    assert(front_reindexed.contains(row));
                    assert(row.1 != dbkl);
                } else {
                    assert(rm[x] == (es[es.len() - 1].0, scan_tags(normalize_spec(last.1))));
                    assert(row.1 == dbkl);
                    assert(scan_tags(last.1).contains(row.0));
                }
            }
            if rows_with_tags_set(prev, dbkl, scan_tags(last.1)).contains(row) {
                if row.1 == dbkl && scan_tags(last.1).contains(row.0) {
                    assert(rm[es.len() - 1] == (
                        es[es.len() - 1].0,
                        scan_tags(normalize_spec(last.1)),
                    ));
                    assert(rm[es.len() - 1].1.contains(row.0));
                    assert(row.1 == db_key_chars(rm[es.len() - 1].0));
                } else {
                    assert(prev.contains(row) && row.1 != dbkl);
                    assert(front_reindexed.contains(row));
                    let x = choose|x: int|
                        0 <= x < frm.len() && row.1 == db_key_chars(frm[x].0)
                            && (#[trigger] frm[x].1).contains(row.0);
                    assert(rm[x] == frm[x]);
                    assert(rm[x].1.contains(row.0));
                }
            }
        }
        assert(reindexed =~= rows_with_tags_set(prev, dbkl, scan_tags(last.1)));
    }
}

} // verus!
