//! The tag index: a persistent mapping from tag to entry keys, backed by a
//! small relational store with one table, `tag(tag, entry_key)`, unique on
//! the pair. The stored rows are modeled as a set of (tag, entry key) pairs
//! of character sequences; every operation's contract speaks of that set.

use vstd::prelude::*;
use vstd::string::StringExecFns;

use crate::key::db_key_chars;
use crate::key::parse_db_spec;
use crate::key::DiaryEntryKey;

verus! {

#[verifier::external_type_specification]
#[verifier::external_body]
pub struct ExConnection(rusqlite::Connection);

#[verifier::external_type_specification]
#[verifier::external_body]
pub struct ExSqlError(rusqlite::Error);

/// The rows of the tag table behind a connection, each a (tag, entry key)
/// pair of character sequences.
pub uninterp spec fn rows_of(conn: rusqlite::Connection) -> Set<(Seq<char>, Seq<char>)>;

/// The tag schema stands in the database behind the connection: the table
/// `tag(tag TEXT NOT NULL, entry_key TEXT NOT NULL, UNIQUE(tag, entry_key))`.
pub uninterp spec fn schema_ready(conn: rusqlite::Connection) -> bool;

/// The rows as they stood when the transaction open on the connection
/// began: the state an automatic rollback returns to.
pub uninterp spec fn txn_base(conn: rusqlite::Connection) -> Set<(Seq<char>, Seq<char>)>;

/// What can go wrong in the tag index.
#[derive(Debug)]
pub enum TagIndexError {
    DBError(rusqlite::Error),
    BadPathError(String),
    IoError(String),
    IndexFormatError(String),
}

/// A handle on the diary's tag index.
pub struct TagIndex {
    pub root: String,
    conn: rusqlite::Connection,
}

/// The placeholder list `?, ?, ..., ?` with `n` entries.
pub open spec fn placeholders_spec(n: int) -> Seq<char>
    decreases n,
{
    if n <= 1 {
        seq!['?']
    } else {
        placeholders_spec(n - 1) + seq![',', ' ', '?']
    }
}

/// The parameter placeholders for a query over `times` values.
pub fn make_placeholders(times: usize) -> (r: String)
    requires
        times >= 1,
    ensures
        r@ == placeholders_spec(times as int),
{
    let mut v: Vec<char> = Vec::new();
    v.push('?');
    let mut i: usize = 1;
    proof {
        assert(v@ =~= placeholders_spec(1));
    }
    while i < times
        invariant
            1 <= i <= times,
            v@ == placeholders_spec(i as int),
        decreases times - i,
    {
        v.push(',');
        v.push(' ');
        v.push('?');
        proof {
            assert(v@ =~= placeholders_spec(i as int) + seq![',', ' ', '?']);
        }
        i = i + 1;
    }
    crate::strutil::string_from_chars(&v)
}

/// Relies on rusqlite's Connection::open: opens the database file at
/// `path`, creating it when absent. Nothing is assumed of the stored rows.
#[verifier::external_body]
fn conn_open(path: &String) -> (r: Result<rusqlite::Connection, rusqlite::Error>) {
    rusqlite::Connection::open(std::path::Path::new(path.as_str()))
}

/// The character sequences of a vector of strings.
pub open spec fn views_of(ss: Seq<String>) -> Seq<Seq<char>> {
    ss.map_values(|s: String| s@)
}

/// The (tag, entry key) pairs keyed `dbk` whose tag is among `tags`.
pub open spec fn pairs_for(dbk: Seq<char>, tags: Seq<Seq<char>>) -> Set<(Seq<char>, Seq<char>)> {
    Set::new(|r: (Seq<char>, Seq<char>)| r.1 == dbk && tags.contains(r.0))
}

/// The rows of every entry other than the one keyed `dbk`.
pub open spec fn rows_excluding(rows: Set<(Seq<char>, Seq<char>)>, dbk: Seq<char>) -> Set<
    (Seq<char>, Seq<char>),
> {
    rows.filter(|r: (Seq<char>, Seq<char>)| r.1 != dbk)
}

/// The rows after replacing the tag set of the entry keyed `dbk` by `tags`.
pub open spec fn rows_with_tags_set(
    rows: Set<(Seq<char>, Seq<char>)>,
    dbk: Seq<char>,
    tags: Seq<Seq<char>>,
) -> Set<(Seq<char>, Seq<char>)> {
    rows_excluding(rows, dbk).union(pairs_for(dbk, tags))
}

/// Neither replacing one key's rows nor adding rows keyed `dbk` touches the
/// rows of the other entries.
pub proof fn lemma_excluding_untouched(
    rows: Set<(Seq<char>, Seq<char>)>,
    dbk: Seq<char>,
    tags: Seq<Seq<char>>,
)
    ensures
        rows_excluding(rows.union(pairs_for(dbk, tags)), dbk) == rows_excluding(rows, dbk),
        rows_excluding(rows_excluding(rows, dbk), dbk) == rows_excluding(rows, dbk),
        rows_excluding(rows_with_tags_set(rows, dbk, tags), dbk) == rows_excluding(rows, dbk),
{
    assert(rows_excluding(rows.union(pairs_for(dbk, tags)), dbk) =~= rows_excluding(rows, dbk));
    assert(rows_excluding(rows_excluding(rows, dbk), dbk) =~= rows_excluding(rows, dbk));
    assert(rows_excluding(rows_with_tags_set(rows, dbk, tags), dbk) =~= rows_excluding(rows, dbk));
}

/// The rows rebuilt from scratch out of (key, tags) pairs.
pub open spec fn rebuilt_rows(es: Seq<(DiaryEntryKey, Seq<Seq<char>>)>) -> Set<
    (Seq<char>, Seq<char>),
> {
    Set::new(
        |r: (Seq<char>, Seq<char>)|
            exists|x: int|
                0 <= x < es.len() && r.1 == db_key_chars(es[x].0) && #[trigger] es[x].1.contains(
                    r.0,
                ),
    )
}

/// The queried tags under which the entry keyed `k` stands.
pub open spec fn matching_tags(
    rows: Set<(Seq<char>, Seq<char>)>,
    tags: Set<Seq<char>>,
    k: Seq<char>,
) -> Set<Seq<char>> {
    Set::new(|t: Seq<char>| tags.contains(t) && rows.contains((t, k)))
}

/// The strings in `out` are the entry keys of exactly the rows whose tag is
/// in `tags`: each result comes from such a row, each such row's key is
/// among the results, and each key appears once per matching row.
pub open spec fn selection_of(
    rows: Set<(Seq<char>, Seq<char>)>,
    tags: Set<Seq<char>>,
    out: Seq<Seq<char>>,
) -> bool {
    &&& forall|x: int|
        #![trigger out[x]]
        0 <= x < out.len() ==> exists|t: Seq<char>|
            tags.contains(t) && #[trigger] rows.contains((t, out[x]))
    &&& forall|t: Seq<char>, k: Seq<char>|
        tags.contains(t) && #[trigger] rows.contains((t, k)) ==> out.contains(k)
    &&& forall|k: Seq<char>|
        #![trigger matching_tags(rows, tags, k)]
        out.to_multiset().count(k) == matching_tags(rows, tags, k).len()
}

/// `k` is the parse of the stored key string of some row whose tag is in
/// `tags`.
pub open spec fn key_from_matching_row(
    rows: Set<(Seq<char>, Seq<char>)>,
    tags: Set<Seq<char>>,
    k: DiaryEntryKey,
) -> bool {
    exists|t: Seq<char>, ks: Seq<char>|
        tags.contains(t) && #[trigger] rows.contains((t, ks)) && parse_db_spec(ks) == Some(k)
}

/// Every matching row's key string is some well-formed key's index
/// rendering — true of every row the library itself wrote.
pub open spec fn rows_canonical(rows: Set<(Seq<char>, Seq<char>)>, tags: Set<Seq<char>>) -> bool {
    forall|t: Seq<char>, ks: Seq<char>|
        tags.contains(t) && #[trigger] rows.contains((t, ks)) ==> exists|k: DiaryEntryKey|
            k.wf() && ks == db_key_chars(k)
}

/// The keys found by a search: each comes from a matching row, every
/// matching row's key string parses, and its key is among the results.
pub open spec fn search_found(
    rows: Set<(Seq<char>, Seq<char>)>,
    tags: Set<Seq<char>>,
    out: Seq<DiaryEntryKey>,
) -> bool {
    &&& forall|x: int|
        0 <= x < out.len() ==> key_from_matching_row(rows, tags, #[trigger] out[x])
    &&& forall|t: Seq<char>, k: Seq<char>|
        tags.contains(t) && #[trigger] rows.contains((t, k)) ==> parse_db_spec(k) is Some
            && out.contains(parse_db_spec(k)->0)
}

/// Two aligned sequences in which `x` stands exactly where `y` does hold
/// `x` and `y` equally often.
proof fn lemma_count_correspondence<A, B>(a: Seq<A>, b: Seq<B>, x: A, y: B)
    requires
        a.len() == b.len(),
        forall|i: int| #![trigger a[i]] 0 <= i < a.len() ==> ((a[i] == x) <==> (b[i] == y)),
    ensures
        a.to_multiset().count(x) == b.to_multiset().count(y),
    decreases a.len(),
{
    broadcast use vstd::seq_lib::group_to_multiset_ensures;

    if a.len() > 0 {
        let a2 = a.drop_last();
        let b2 = b.drop_last();
        assert forall|i: int| #![trigger a2[i]] 0 <= i < a2.len() implies ((a2[i] == x) <==> (
        b2[i] == y)) by {
            assert(a2[i] == a[i] && b2[i] == b[i]);
        }
        lemma_count_correspondence(a2, b2, x, y);
        assert(a =~= a2.push(a.last()));
        assert(b =~= b2.push(b.last()));
        assert(a2.push(a.last()).to_multiset() =~= a2.to_multiset().insert(a.last()));
        assert(b2.push(b.last()).to_multiset() =~= b2.to_multiset().insert(b.last()));
    }
}

impl TagIndex {
    /// The stored rows, as a set of (tag, entry key) pairs.
    pub closed spec fn rows(self) -> Set<(Seq<char>, Seq<char>)> {
        rows_of(self.conn)
    }

    /// The root directory this index was opened under.
    pub closed spec fn root_view(self) -> Seq<char> {
        self.root@
    }

    /// Opens the index database under `root`, creating the file when
    /// absent. The caller sees to it that `root` is an existing directory.
    pub fn new(root: &String) -> (r: Result<TagIndex, TagIndexError>)
        ensures
            r matches Ok(ix) ==> ix.root_view() == root@,
    {
        let mut path = root.clone();
        path.append("/index.sqlite");
        match conn_open(&path) {
            Ok(conn) => Ok(TagIndex { root: root.clone(), conn }),
            Err(e) => Err(TagIndexError::DBError(e)),
        }
    }

    /// Relies on Connection::execute with CREATE TABLE IF NOT EXISTS:
    /// idempotently creates the tag table. On success the schema stands and
    /// the stored rows are as they were (a table that already existed is
    /// left alone; a fresh one is empty either way).
    #[verifier::external_body]
    fn db_init(&mut self) -> (r: Result<(), rusqlite::Error>)
        ensures
            final(self).root_view() == old(self).root_view(),
            r is Ok ==> rows_of(final(self).conn) == rows_of(old(self).conn) && schema_ready(
                final(self).conn,
            ),
    {
        self.conn.execute(
            "CREATE TABLE IF NOT EXISTS tag (
                tag         TEXT NOT NULL,
                entry_key   TEXT NOT NULL,
                UNIQUE(tag, entry_key)
            )",
            (),
        ).map(|_| ())
    }

    /// Relies on Connection::execute with BEGIN TRANSACTION: opens a
    /// transaction whose base is the current rows; the rows themselves are
    /// untouched whether it opens or not.
    #[verifier::external_body]
    fn db_begin(&mut self) -> (r: Result<(), rusqlite::Error>)
        ensures
            final(self).root_view() == old(self).root_view(),
            rows_of(final(self).conn) == rows_of(old(self).conn),
            r is Ok ==> txn_base(final(self).conn) == rows_of(final(self).conn),
    {
        self.conn.execute("BEGIN TRANSACTION", ()).map(|_| ())
    }

    /// Relies on Connection::execute with COMMIT: on success the rows stay
    /// as they are, now durable; on failure the transaction either stays
    /// open (rows unchanged) or was rolled back to its base.
    #[verifier::external_body]
    fn db_commit(&mut self) -> (r: Result<(), rusqlite::Error>)
        ensures
            final(self).root_view() == old(self).root_view(),
            r is Ok ==> rows_of(final(self).conn) == rows_of(old(self).conn),
            r is Err ==> rows_of(final(self).conn) == rows_of(old(self).conn) || rows_of(
                final(self).conn,
            ) == txn_base(old(self).conn),
    {
        self.conn.execute("COMMIT", ()).map(|_| ())
    }

    /// Relies on Connection::execute with DELETE ... WHERE entry_key = ?:
    /// removes exactly the rows keyed `db_key`. A failed statement has no
    /// effect of its own; at worst the whole transaction rolled back.
    #[verifier::external_body]
    fn db_delete_entry(&mut self, db_key: &String) -> (r: Result<(), rusqlite::Error>)
        ensures
            final(self).root_view() == old(self).root_view(),
            r is Ok ==> rows_of(final(self).conn) == rows_excluding(
                rows_of(old(self).conn),
                db_key@,
            ) && txn_base(final(self).conn) == txn_base(old(self).conn),
            r is Err ==> rows_of(final(self).conn) == rows_of(old(self).conn) || rows_of(
                final(self).conn,
            ) == txn_base(old(self).conn),
    {
        self.conn.execute("DELETE FROM tag WHERE entry_key = ?1", (db_key.as_str(),)).map(|_| ())
    }

    /// Relies on Connection::execute with DELETE FROM tag: empties the
    /// table. A failed statement has no effect of its own; at worst the
    /// whole transaction rolled back.
    #[verifier::external_body]
    fn db_clear(&mut self) -> (r: Result<(), rusqlite::Error>)
        ensures
            final(self).root_view() == old(self).root_view(),
            r is Ok ==> rows_of(final(self).conn) == Set::<(Seq<char>, Seq<char>)>::empty()
                && txn_base(final(self).conn) == txn_base(old(self).conn),
            r is Err ==> rows_of(final(self).conn) == rows_of(old(self).conn) || rows_of(
                final(self).conn,
            ) == txn_base(old(self).conn),
    {
        self.conn.execute("DELETE FROM tag", ()).map(|_| ())
    }

    /// Relies on Connection::execute with INSERT INTO tag: adds the one row
    /// (tag, db_key); the unique constraint rejects a duplicate with an
    /// error. A failed statement has no effect of its own; at worst the
    /// whole transaction rolled back.
    #[verifier::external_body]
    fn db_insert(&mut self, tag: &String, db_key: &String) -> (r: Result<(), rusqlite::Error>)
        ensures
            final(self).root_view() == old(self).root_view(),
            r is Ok ==> rows_of(final(self).conn) == rows_of(old(self).conn).insert(
                (tag@, db_key@),
            ) && txn_base(final(self).conn) == txn_base(old(self).conn),
            r is Err ==> rows_of(final(self).conn) == rows_of(old(self).conn) || rows_of(
                final(self).conn,
            ) == txn_base(old(self).conn),
    {
        self.conn.execute(
            "INSERT INTO tag (tag, entry_key) VALUES (?1, ?2)",
            (tag.as_str(), db_key.as_str()),
        ).map(|_| ())
    }

    /// Relies on Connection::prepare and Statement::query_map over
    /// SELECT entry_key FROM tag WHERE tag IN (...) ORDER BY rowid: yields
    /// the entry keys of the rows whose tag is among `tags`, one per
    /// matching row, in storage order.
    #[verifier::external_body]
    fn db_keys_for_tags(&self, tags: &Vec<String>) -> (r: Result<Vec<String>, rusqlite::Error>)
        requires
            tags.len() >= 1,
        ensures
            r matches Ok(keys) ==> selection_of(
                rows_of(self.conn),
                views_of(tags@).to_set(),
                views_of(keys@),
            ),
    {
        let sql = format!(
            "SELECT entry_key FROM tag WHERE tag IN ({}) ORDER BY rowid",
            make_placeholders(tags.len()),
        );
        let mut stmt = self.conn.prepare(&sql)?;
        let found = stmt.query_map(rusqlite::params_from_iter(tags.iter()), |row| row.get(0))?;
        found.collect()
    }

    /// Whether the tag schema stands behind this index's connection.
    pub closed spec fn schema_ok(self) -> bool {
        schema_ready(self.conn)
    }

    /// Creates the table when absent, idempotently: on success the schema
    /// stands and the stored rows are exactly as they were.
    pub fn initdb(&mut self) -> (r: Result<(), TagIndexError>)
        ensures
            final(self).root_view() == old(self).root_view(),
            r is Ok ==> final(self).rows() == old(self).rows() && final(self).schema_ok(),
    {
        match self.db_init() {
            Ok(()) => Ok(()),
            Err(e) => Err(TagIndexError::DBError(e)),
        }
    }

    /// Inserts one row per tag for the entry keyed `db_key`.
    fn insert_tags_for(&mut self, db_key: &String, tags: &Vec<String>) -> (r: Result<
        (),
        TagIndexError,
    >)
        ensures
            final(self).root_view() == old(self).root_view(),
            r is Ok ==> final(self).rows() == old(self).rows().union(
                pairs_for(db_key@, views_of(tags@)),
            ) && txn_base(final(self).conn) == txn_base(old(self).conn),
            r is Err ==> rows_excluding(final(self).rows(), db_key@) == rows_excluding(
                old(self).rows(),
                db_key@,
            ) || final(self).rows() == txn_base(old(self).conn),
    {
        let ghost base = self.rows();
        let ghost tv = views_of(tags@);
        let ghost dbk = db_key@;
        let mut i: usize = 0;
        proof {
            assert(self.rows() =~= base.union(pairs_for(dbk, tv.take(0))));
        }
        while i < tags.len()
            invariant
                i <= tags.len(),
                self.root_view() == old(self).root_view(),
                tv == views_of(tags@),
                dbk == db_key@,
                self.rows() == base.union(pairs_for(dbk, tv.take(i as int))),
                txn_base(self.conn) == txn_base(old(self).conn),
                base == old(self).rows(),
            decreases tags.len() - i,
        {
            let ghost prev = self.rows();
            match self.db_insert(&tags[i], db_key) {
                Ok(()) => {},
                Err(e) => {
                    proof {
                        lemma_excluding_untouched(base, dbk, tv.take(i as int));
                    }
                    return Err(TagIndexError::DBError(e));
                },
            }
            proof {
                assert(tv.take(i + 1) =~= tv.take(i as int).push(tv[i as int]));
                assert forall|row: (Seq<char>, Seq<char>)|
                    prev.insert((tv[i as int], dbk)).contains(row) implies base.union(
                    pairs_for(dbk, tv.take(i + 1)),
                ).contains(row) by {
                    if row == (tv[i as int], dbk) {
                        assert(tv.take(i + 1)[i as int] == tv[i as int]);
                        assert(tv.take(i + 1).contains(row.0));
                    } else {
                        if pairs_for(dbk, tv.take(i as int)).contains(row) {
                            let x = choose|x: int|
                                0 <= x < i && (#[trigger] tv.take(i as int)[x]) == row.0;
                            assert(tv.take(i + 1)[x] == row.0);
                            assert(tv.take(i + 1).contains(row.0));
                        }
                    }
                }
                assert forall|row: (Seq<char>, Seq<char>)|
                    base.union(pairs_for(dbk, tv.take(i + 1))).contains(row) implies prev.insert(
                    (tv[i as int], dbk),
                ).contains(row) by {
                    if pairs_for(dbk, tv.take(i + 1)).contains(row) {
                        let x = choose|x: int| 0 <= x < i + 1 && (#[trigger] tv.take(i + 1)[x]) == row.0;
                        if x < i {
                            assert(tv.take(i as int)[x] == row.0);
                            assert(tv.take(i as int).contains(row.0));
                        } else {
                            assert(row.0 == tv[i as int]);
                            assert(row == (tv[i as int], dbk));
                        }
                    }
                }
                assert(self.rows() =~= base.union(pairs_for(dbk, tv.take(i + 1))));
            }
            i = i + 1;
        }
        proof {
            assert(tv.take(tags@.len() as int) =~= tv);
        }
        Ok(())
    }

    /// Replaces the tag rows of `key` by one row per given tag, in a single
    /// transaction. The rows of other entries are untouched in every
    /// outcome: on failure this entry's rows are in some intermediate or
    /// rolled-back state, but no other entry's.
    pub fn set_tags(&mut self, key: &DiaryEntryKey, tags: &Vec<String>) -> (r: Result<
        (),
        TagIndexError,
    >)
        requires
            key.wf(),
        ensures
            final(self).root_view() == old(self).root_view(),
            rows_excluding(final(self).rows(), db_key_chars(*key)) == rows_excluding(
                old(self).rows(),
                db_key_chars(*key),
            ),
            r is Ok ==> final(self).rows() == rows_with_tags_set(
                old(self).rows(),
                db_key_chars(*key),
                views_of(tags@),
            ),
    {
        let ghost base = self.rows();
        let ghost dbk = db_key_chars(*key);
        let ghost tv = views_of(tags@);
        let db_key = key.db_string();
        match self.db_begin() {
            Ok(()) => {},
            Err(e) => {
                return Err(TagIndexError::DBError(e));
            },
        }
        let ghost tb = txn_base(self.conn);
        proof {
            assert(tb == base);
        }
        match self.db_delete_entry(&db_key) {
            Ok(()) => {},
            Err(e) => {
                return Err(TagIndexError::DBError(e));
            },
        }
        proof {
            lemma_excluding_untouched(base, dbk, tv);
        }
        match self.insert_tags_for(&db_key, tags) {
            Ok(()) => {},
            Err(e) => {
                proof {
                    lemma_excluding_untouched(base, dbk, tv);
                }
                return Err(e);
            },
        }
        let ghost before_commit = self.rows();
        match self.db_commit() {
            Ok(()) => {},
            Err(e) => {
                proof {
                    lemma_excluding_untouched(base, dbk, tv);
                    assert(before_commit =~= rows_with_tags_set(base, dbk, tv));
                }
                return Err(TagIndexError::DBError(e));
            },
        }
        proof {
            assert(self.rows() =~= rows_with_tags_set(base, dbk, tv));
            lemma_excluding_untouched(base, dbk, tv);
        }
        Ok(())
    }

    /// Drops the whole index content and rebuilds it from the given
    /// authoritative (key, tags) list.
    pub fn recreate_index(&mut self, entries: &Vec<(DiaryEntryKey, Vec<String>)>) -> (r: Result<
        (),
        TagIndexError,
    >)
        requires
            forall|x: int| 0 <= x < entries@.len() ==> (#[trigger] entries@[x]).0.wf(),
        ensures
            final(self).root_view() == old(self).root_view(),
            r is Ok ==> final(self).rows() == rebuilt_rows(
                entries@.map_values(
                    |e: (DiaryEntryKey, Vec<String>)| (e.0, views_of(e.1@)),
                ),
            ),
    {
        let ghost em = entries@.map_values(
            |e: (DiaryEntryKey, Vec<String>)| (e.0, views_of(e.1@)),
        );
        match self.db_begin() {
            Ok(()) => {},
            Err(e) => {
                return Err(TagIndexError::DBError(e));
            },
        }
        match self.db_clear() {
            Ok(()) => {},
            Err(e) => {
                return Err(TagIndexError::DBError(e));
            },
        }
        let mut i: usize = 0;
        proof {
            assert(self.rows() =~= rebuilt_rows(em.take(0)));
        }
        while i < entries.len()
            invariant
                i <= entries.len(),
                self.root_view() == old(self).root_view(),
                em == entries@.map_values(
                    |e: (DiaryEntryKey, Vec<String>)| (e.0, views_of(e.1@)),
                ),
                forall|x: int| 0 <= x < entries@.len() ==> (#[trigger] entries@[x]).0.wf(),
                self.rows() == rebuilt_rows(em.take(i as int)),
            decreases entries.len() - i,
        {
            let ghost prev = self.rows();
            let db_key = entries[i].0.db_string();
            let ghost dbk = db_key@;
            proof {
                assert(em[i as int].0 == entries@[i as int].0);
                assert(dbk == db_key_chars(em[i as int].0));
            }
            match self.insert_tags_for(&db_key, &entries[i].1) {
                Ok(()) => {},
                Err(e) => {
                    return Err(e);
                },
            }
            proof {
                let tv = em[i as int].1;
                assert(tv == views_of(entries@[i as int].1@));
                assert forall|row: (Seq<char>, Seq<char>)|
                    prev.union(pairs_for(dbk, tv)).contains(row) implies rebuilt_rows(
                    em.take(i + 1),
                ).contains(row) by {
                    if prev.contains(row) {
                        let x = choose|x: int|
                            0 <= x < i && row.1 == db_key_chars(em.take(i as int)[x].0)
                                && #[trigger] em.take(i as int)[x].1.contains(row.0);
                        assert(em.take(i + 1)[x] == em[x]);
                        assert(em.take(i + 1)[x].1.contains(row.0));
                    } else {
                        assert(em.take(i + 1)[i as int] == em[i as int]);
                        assert(em.take(i + 1)[i as int].1.contains(row.0));
                    }
                }
                assert forall|row: (Seq<char>, Seq<char>)|
                    rebuilt_rows(em.take(i + 1)).contains(row) implies prev.union(
                    pairs_for(dbk, tv),
                ).contains(row) by {
                    let x = choose|x: int|
                        0 <= x < i + 1 && row.1 == db_key_chars(em.take(i + 1)[x].0)
                            && #[trigger] em.take(i + 1)[x].1.contains(row.0);
                    if x < i {
                        assert(em.take(i as int)[x] == em[x]);
                        assert(em.take(i as int)[x].1.contains(row.0));
                        assert(rebuilt_rows(em.take(i as int)).contains(row));
                    } else {
                        assert(em.take(i + 1)[x] == em[i as int]);
                        assert(tv.contains(row.0));
                        assert(pairs_for(dbk, tv).contains(row));
                    }
                }
                assert(self.rows() =~= rebuilt_rows(em.take(i + 1)));
            }
            i = i + 1;
        }
        match self.db_commit() {
            Ok(()) => {},
            Err(e) => {
                return Err(TagIndexError::DBError(e));
            },
        }
        proof {
            assert(em.take(entries@.len() as int) =~= em);
        }
        Ok(())
    }

    /// Searches for entries carrying at least one of the given tags (union
    /// semantics). An empty tag list yields an empty result without
    /// touching the store. Each stored key string of a matching row is
    /// parsed back; an unparsable one fails the whole search. Duplicates
    /// are deliberately kept: an entry carrying several queried tags comes
    /// back once per matching row.
    pub fn search_tags(&self, tags: &Vec<String>) -> (r: Result<Vec<DiaryEntryKey>, TagIndexError>)
        ensures
            tags@.len() == 0 ==> (r matches Ok(v) && v@.len() == 0),
            r matches Ok(v) ==> search_found(
                self.rows(),
                views_of(tags@).to_set(),
                v@,
            ),
            r matches Ok(v) ==> forall|x: int| 0 <= x < v@.len() ==> (#[trigger] v@[x]).wf(),
            r matches Ok(v) ==> (rows_canonical(self.rows(), views_of(tags@).to_set())
                ==> forall|k: DiaryEntryKey|
                    k.wf() ==> v@.to_multiset().count(k) == #[trigger] matching_tags(
                        self.rows(),
                        views_of(tags@).to_set(),
                        db_key_chars(k),
                    ).len()),
            r matches Err(e) ==> (e is DBError || e is IndexFormatError),
            r matches Err(e) ==> ((e is IndexFormatError) ==> exists|t: Seq<char>, ks: Seq<char>|
                views_of(tags@).to_set().contains(t) && #[trigger] self.rows().contains((t, ks))
                    && parse_db_spec(ks) is None),
    {
        if tags.len() == 0 {
            let empty: Vec<DiaryEntryKey> = Vec::new();
            proof {
                let tset = views_of(tags@).to_set();
                assert forall|t: Seq<char>, k: Seq<char>|
                    tset.contains(t) && #[trigger] self.rows().contains((t, k)) implies false by {
                    assert(views_of(tags@).contains(t));
                }
                assert forall|k: DiaryEntryKey| k.wf() implies empty@.to_multiset().count(k)
                    == #[trigger] matching_tags(self.rows(), tset, db_key_chars(k)).len() by {
                    assert(matching_tags(self.rows(), tset, db_key_chars(k)) =~= Set::<
                        Seq<char>,
                    >::empty());
                    empty@.to_multiset_ensures();
                    assert(!empty@.contains(k));
                }
            }
            return Ok(empty);
        }
        let key_strings = match self.db_keys_for_tags(tags) {
            Ok(ks) => ks,
            Err(e) => {
                return Err(TagIndexError::DBError(e));
            },
        };
        let mut out: Vec<DiaryEntryKey> = Vec::new();
        let mut i: usize = 0;
        while i < key_strings.len()
            invariant
                tags@.len() != 0,
                i <= key_strings.len(),
                out@.len() == i,
                selection_of(
                    self.rows(),
                    views_of(tags@).to_set(),
                    views_of(key_strings@),
                ),
                forall|x: int|
                    0 <= x < i ==> parse_db_spec(key_strings@[x]@) == Some(#[trigger] out@[x])
                        && out@[x].wf(),
            decreases key_strings.len() - i,
        {
            match DiaryEntryKey::parse_db_string(key_strings[i].as_str()) {
                Some(k) => {
                    out.push(k);
                },
                None => {
                    let msg = String::from_str("Error parsing entry key from index: ").concat(
                        key_strings[i].as_str(),
                    );
                    proof {
                        let tset = views_of(tags@).to_set();
                        let km = views_of(key_strings@);
                        assert(km[i as int] == key_strings@[i as int]@);
                        let t = choose|t: Seq<char>|
                            tset.contains(t) && #[trigger] self.rows().contains((t, km[i as int]));
                        assert(self.rows().contains((t, km[i as int])) && parse_db_spec(
                            km[i as int],
                        ) is None);
                    }
                    return Err(TagIndexError::IndexFormatError(msg));
                },
            }
            i = i + 1;
        }
        proof {
            let rows = self.rows();
            let tset = views_of(tags@).to_set();
            let km = views_of(key_strings@);
            assert forall|x: int|
                0 <= x < out@.len() implies key_from_matching_row(rows, tset, #[trigger] out@[x]) by {
                assert(km[x] == key_strings@[x]@);
                let t = choose|t: Seq<char>| tset.contains(t) && #[trigger] rows.contains(
                    (t, km[x]),
                );
                assert(rows.contains((t, km[x])) && parse_db_spec(km[x]) == Some(out@[x]));
            }
            assert forall|t: Seq<char>, k: Seq<char>|
                tset.contains(t) && #[trigger] rows.contains((t, k)) implies parse_db_spec(k)
                is Some && out@.contains(parse_db_spec(k)->0) by {
                assert(km.contains(k));
                let x = choose|x: int| 0 <= x < km.len() && (#[trigger] km[x]) == k;
                assert(km[x] == key_strings@[x]@);
                assert(parse_db_spec(k) == Some(out@[x]));
                assert(out@[x] == parse_db_spec(k)->0);
            }
            if rows_canonical(rows, tset) {
                assert forall|k: DiaryEntryKey| k.wf() implies out@.to_multiset().count(k)
                    == #[trigger] matching_tags(rows, tset, db_key_chars(k)).len() by {
                    assert forall|x: int| #![trigger out@[x]] 0 <= x < out@.len() implies ((
                    out@[x] == k) <==> (km[x] == db_key_chars(k))) by {
                        assert(km[x] == key_strings@[x]@);
                        let t = choose|t: Seq<char>|
                            tset.contains(t) && #[trigger] rows.contains((t, km[x]));
                        assert(rows.contains((t, km[x])));
                        let kp = choose|kp: DiaryEntryKey| kp.wf() && km[x] == db_key_chars(kp);
                        crate::key::lemma_parse_db_roundtrip(kp);
                        assert(parse_db_spec(km[x]) == Some(kp));
                        assert(out@[x] == kp);
                        if km[x] == db_key_chars(k) {
                            crate::key::lemma_parse_db_roundtrip(k);
                            assert(out@[x] == k);
                        }
                        if out@[x] == k {
                            assert(km[x] == db_key_chars(k));
                        }
                    }
                    lemma_count_correspondence(out@, km, k, db_key_chars(k));
                    assert(km.to_multiset().count(db_key_chars(k)) == matching_tags(
                        rows,
                        tset,
                        db_key_chars(k),
                    ).len());
                }
            }
        }
        Ok(out)
    }
}

} // verus!
