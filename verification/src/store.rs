//! The content store: snippet rows kept in creation order, the migration
//! log, and the schema history the runner maintains.

use vstd::prelude::*;
use vstd::string::StringExecFns;

use crate::migrate::{bodies_of, fingerprint, fingerprint_of, run_all, Migration};
use crate::text::{make_preview, preview, string_views};

verus! {

/// A stored (or to-be-stored) snippet.  `id` is `None` until the snippet is
/// first saved; the store assigns the id and it never changes afterwards.
#[derive(Clone)]
pub struct Snippet {
    pub id: Option<i64>,
    pub name: String,
    pub content: String,
}

impl Default for Snippet {
    /// An unsaved snippet with empty name and content.
    fn default() -> (r: Self)
        ensures
            r.id is None,
            r.name@ == Seq::<char>::empty(),
            r.content@ == Seq::<char>::empty(),
    {
        Snippet { id: None, name: String::new(), content: String::new() }
    }
}

/// One row of a result list: the snippet's id and name, and a short
/// one-line excerpt of its content.
pub struct SearchResult {
    pub id: i64,
    pub name: String,
    pub hint: String,
}

impl Default for SearchResult {
    /// A blank result row.
    fn default() -> (r: Self)
        ensures
            r.id == 0,
            r.name@ == Seq::<char>::empty(),
            r.hint@ == Seq::<char>::empty(),
    {
        SearchResult { id: 0, name: String::new(), hint: String::new() }
    }
}

/// The store's error taxonomy.
#[derive(Clone, Copy, Debug, PartialEq, Eq, Structural)]
pub enum StoreError {
    /// The storage layer itself failed (for this store: id space exhausted).
    Storage,
    /// A migration script could not be executed.
    Schema,
    /// `fetch_snippet` was given an id no row carries.
    NotFound,
    /// A save violated a shape or uniqueness invariant.
    Constraint,
}

/// One persisted snippet row.
struct Row {
    id: i64,
    name: String,
    content: String,
}

/// The mathematical image of one row.
pub struct RowModel {
    pub id: int,
    pub name: Seq<char>,
    pub content: Seq<char>,
}

/// The mathematical image of the whole store.
#[verifier::ext_equal]
pub struct StoreModel {
    /// Snippet rows, oldest first: rows are appended on insert and updated
    /// in place, so their order is creation order.
    pub rows: Seq<RowModel>,
    /// Fingerprints of the executed migration scripts, in execution order.
    pub log: Seq<Seq<char>>,
    /// Bodies of the executed migration scripts, in execution order.
    pub schema: Seq<Seq<char>>,
    /// The id the next inserted row will get.
    pub next_id: int,
}

/// An open store.  It owns all state; callers share it by reference.
pub struct Connection {
    rows: Vec<Row>,
    log: Vec<String>,
    schema: Vec<String>,
    next_id: i64,
}

impl View for Connection {
    type V = StoreModel;

    closed spec fn view(&self) -> StoreModel {
        StoreModel {
            rows: Seq::new(
                self.rows@.len(),
                |i: int|
                    RowModel {
                        id: self.rows@[i].id as int,
                        name: self.rows@[i].name@,
                        content: self.rows@[i].content@,
                    },
            ),
            log: string_views(self.log@),
            schema: string_views(self.schema@),
            next_id: self.next_id as int,
        }
    }
}

impl Connection {
    /// Well-formedness: ids are assigned from 1 upwards, strictly increasing
    /// in creation order, and all below the next free id.
    pub open spec fn wf(&self) -> bool {
        &&& 1 <= self@.next_id <= i64::MAX
        &&& forall|i: int, j: int|
            0 <= i < j < self@.rows.len() ==> (#[trigger] self@.rows[i]).id < (
            #[trigger] self@.rows[j]).id
        &&& forall|i: int|
            0 <= i < self@.rows.len() ==> 1 <= (#[trigger] self@.rows[i]).id < self@.next_id
    }

    /// Opens a fresh, empty store and runs the built-in migration scripts
    /// over it.
    pub fn open_in_memory() -> (r: Result<Connection, StoreError>)
        ensures
            r matches Ok(c) && c.wf() && c@.rows =~= Seq::<RowModel>::empty() && c@.next_id == 1
                && c@.log == run_all(
                Seq::<Seq<char>>::empty(),
                Seq::<Seq<char>>::empty(),
                builtin_bodies(),
            ).0 && c@.schema == run_all(
                Seq::<Seq<char>>::empty(),
                Seq::<Seq<char>>::empty(),
                builtin_bodies(),
            ).1,
    {
        let mut c = Connection { rows: Vec::new(), log: Vec::new(), schema: Vec::new(), next_id: 1 };
        proof {
            assert(c@.rows =~= Seq::<RowModel>::empty());
            assert(c@.log =~= Seq::<Seq<char>>::empty());
            assert(c@.schema =~= Seq::<Seq<char>>::empty());
        }
        let scripts = builtin_migrations();
        match c.apply_migrations(&scripts) {
            Ok(()) => Ok(c),
            Err(e) => Err(e),
        }
    }

    /// Reopens a store from previously enumerated snippets (see
    /// [`Connection::snippets`]): a fresh store with the built-in scripts
    /// applied, holding exactly the given rows under their saved ids.
    /// Rejects with `Constraint` any list that does not have the shape the
    /// store itself produces: every id present, at least 1, below the
    /// largest id, and strictly increasing.
    pub fn open_from(list: &Vec<Snippet>) -> (r: Result<Connection, StoreError>)
        ensures
            list_well_formed(list@) ==> (r matches Ok(c) && c.wf() && c@.rows == rows_of(list@)
                && c@.next_id == (if list@.len() == 0 {
                1int
            } else {
                snip_id(list@.last()) + 1
            }) && c@.log == run_all(
                Seq::<Seq<char>>::empty(),
                Seq::<Seq<char>>::empty(),
                builtin_bodies(),
            ).0 && c@.schema == run_all(
                Seq::<Seq<char>>::empty(),
                Seq::<Seq<char>>::empty(),
                builtin_bodies(),
            ).1),
            !list_well_formed(list@) ==> r == Err::<Connection, StoreError>(StoreError::Constraint),
    {
        let mut c = match Connection::open_in_memory() {
            Ok(c) => c,
            Err(e) => {
                return Err(e);
            },
        };
        let mut k: usize = 0;
        while k < list.len()
            invariant
                k <= list@.len(),
                c.wf(),
                c@.rows == rows_of(list@.subrange(0, k as int)),
                c@.next_id == (if k == 0 {
                    1int
                } else {
                    snip_id(list@[k - 1]) + 1
                }),
                c@.log == run_all(
                    Seq::<Seq<char>>::empty(),
                    Seq::<Seq<char>>::empty(),
                    builtin_bodies(),
                ).0,
                c@.schema == run_all(
                    Seq::<Seq<char>>::empty(),
                    Seq::<Seq<char>>::empty(),
                    builtin_bodies(),
                ).1,
                forall|i: int| 0 <= i < k ==> (#[trigger] list@[i]).id is Some,
                forall|i: int| 0 <= i < k ==> 1 <= snip_id(#[trigger] list@[i]) < i64::MAX,
                forall|i: int, j: int|
                    0 <= i < j < k ==> snip_id(#[trigger] list@[i]) < snip_id(#[trigger] list@[j]),
            decreases list@.len() - k,
        {
            match list[k].id {
                None => {
                    return Err(StoreError::Constraint);
                },
                Some(id) => {
                    if id < c.next_id || id == i64::MAX {
                        proof {
                            if k > 0 && id as int <= snip_id(list@[k - 1]) {
                                assert(!list_well_formed(list@)) by {
                                    assert(snip_id(list@[k as int]) <= snip_id(list@[k - 1]));
                                }
                            }
                        }
                        return Err(StoreError::Constraint);
                    }
                    let ghost pre = c@.rows;
                    c.rows.push(
                        Row { id, name: list[k].name.clone(), content: list[k].content.clone() },
                    );
                    c.next_id = id + 1;
                    proof {
                        assert(c@.rows =~= pre.push(
                            RowModel {
                                id: id as int,
                                name: list@[k as int].name@,
                                content: list@[k as int].content@,
                            },
                        ));
                        assert(c@.rows =~= rows_of(list@.subrange(0, k + 1)));
                        assert(c@.log =~= run_all(
                            Seq::<Seq<char>>::empty(),
                            Seq::<Seq<char>>::empty(),
                            builtin_bodies(),
                        ).0);
                        assert(c@.schema =~= run_all(
                            Seq::<Seq<char>>::empty(),
                            Seq::<Seq<char>>::empty(),
                            builtin_bodies(),
                        ).1);
                    }
                },
            }
            k += 1;
        }
        proof {
            assert(list@.subrange(0, list@.len() as int) =~= list@);
        }
        Ok(c)
    }

    /// Does the migration log already hold this fingerprint?
    fn log_contains(&self, fp: &String) -> (r: bool)
        ensures
            r == self@.log.contains(fp@),
    {
        let mut i: usize = 0;
        while i < self.log.len()
            invariant
                i <= self@.log.len(),
                self@.log.len() == self.log@.len(),
                forall|j: int| 0 <= j < i ==> self@.log[j] != fp@,
            decreases self@.log.len() - i,
        {
            if self.log[i].eq(fp) {
                proof {
                    assert(self@.log[i as int] == fp@);
                }
                return true;
            }
            i += 1;
        }
        false
    }

    /// Applies an ordered sequence of migration scripts: each script whose
    /// body's fingerprint is already logged is skipped; each other script is
    /// executed and its fingerprint recorded, the two as one step.  Snippet
    /// rows are untouched.
    pub fn apply_migrations(&mut self, scripts: &Vec<Migration>) -> (r: Result<(), StoreError>)
        requires
            old(self).wf(),
        ensures
            final(self).wf(),
            r is Ok,
            final(self)@.log == run_all(old(self)@.log, old(self)@.schema, bodies_of(scripts@)).0,
            final(self)@.schema == run_all(
                old(self)@.log,
                old(self)@.schema,
                bodies_of(scripts@),
            ).1,
            final(self)@.rows == old(self)@.rows,
            final(self)@.next_id == old(self)@.next_id,
    {
        let ghost bodies = bodies_of(scripts@);
        let ghost goal = run_all(old(self)@.log, old(self)@.schema, bodies);
        proof {
            assert(bodies.skip(0) =~= bodies);
        }
        let mut i: usize = 0;
        while i < scripts.len()
            invariant
                i <= scripts@.len(),
                bodies == bodies_of(scripts@),
                goal == run_all(old(self)@.log, old(self)@.schema, bodies),
                goal == run_all(self@.log, self@.schema, bodies.skip(i as int)),
                self@.rows == old(self)@.rows,
                self@.next_id == old(self)@.next_id,
                self.wf(),
            decreases scripts@.len() - i,
        {
            let ghost pre_log = self@.log;
            let ghost pre_schema = self@.schema;
            let fp = fingerprint(scripts[i].body.as_str());
            proof {
                assert(bodies.skip(i as int)[0] == scripts@[i as int].body@);
                assert(bodies.skip(i as int).drop_first() =~= bodies.skip(i + 1));
            }
            if !self.log_contains(&fp) {
                let body_copy = scripts[i].body.clone();
                self.log.push(fp);
                self.schema.push(body_copy);
                proof {
                    assert(self@.log =~= pre_log.push(fingerprint_of(scripts@[i as int].body@)));
                    assert(self@.schema =~= pre_schema.push(scripts@[i as int].body@));
                    assert(self@.rows =~= old(self)@.rows);
                }
            }
            i += 1;
        }
        proof {
            assert(bodies.skip(scripts@.len() as int) =~= Seq::<Seq<char>>::empty());
        }
        Ok(())
    }

    /// Returns the snippet stored under `id`, or `NotFound` when no row
    /// carries that id.
    pub fn fetch_snippet(&self, id: i64) -> (r: Result<Snippet, StoreError>)
        requires
            self.wf(),
        ensures
            match r {
                Ok(s) => s.id == Some(id) && exists|k: int|
                    0 <= k < self@.rows.len() && (#[trigger] self@.rows[k]).id == id
                        && s.name@ == self@.rows[k].name && s.content@ == self@.rows[k].content,
                Err(e) => e == StoreError::NotFound && forall|k: int|
                    0 <= k < self@.rows.len() ==> (#[trigger] self@.rows[k]).id != id,
            },
    {
        let mut k: usize = 0;
        while k < self.rows.len()
            invariant
                k <= self@.rows.len(),
                self@.rows.len() == self.rows@.len(),
                forall|j: int| 0 <= j < k ==> (#[trigger] self@.rows[j]).id != id,
            decreases self@.rows.len() - k,
        {
            if self.rows[k].id == id {
                let s = Snippet {
                    id: Some(id),
                    name: self.rows[k].name.clone(),
                    content: self.rows[k].content.clone(),
                };
                proof {
                    assert((self@.rows[k as int]).id == id);
                }
                return Ok(s);
            }
            k += 1;
        }
        Err(StoreError::NotFound)
    }

    /// Inserts or updates `snippet`.  With an id, the row carrying it gets
    /// the new name and content (a no-op when no row does) and the same id
    /// comes back; without one, a fresh id is assigned and returned.
    pub fn save_snippet(&mut self, snippet: &Snippet) -> (r: Result<i64, StoreError>)
        requires
            old(self).wf(),
        ensures
            final(self).wf(),
            final(self)@.log == old(self)@.log,
            final(self)@.schema == old(self)@.schema,
            match snippet.id {
                Some(id) => {
                    &&& r == Ok::<i64, StoreError>(id)
                    &&& final(self)@.next_id == old(self)@.next_id
                    &&& if exists|k: int|
                        0 <= k < old(self)@.rows.len() && (#[trigger] old(self)@.rows[k]).id == id {
                        exists|k: int|
                            0 <= k < old(self)@.rows.len() && (#[trigger] old(self)@.rows[k]).id
                                == id && final(self)@.rows == old(self)@.rows.update(
                                k,
                                RowModel {
                                    id: id as int,
                                    name: snippet.name@,
                                    content: snippet.content@,
                                },
                            )
                    } else {
                        final(self)@.rows == old(self)@.rows
                    }
                },
                None => {
                    if old(self)@.next_id == i64::MAX {
                        &&& r == Err::<i64, StoreError>(StoreError::Storage)
                        &&& final(self)@.rows == old(self)@.rows
                        &&& final(self)@.next_id == old(self)@.next_id
                    } else {
                        &&& r matches Ok(nid) && nid as int == old(self)@.next_id
                        &&& final(self)@.next_id == old(self)@.next_id + 1
                        &&& final(self)@.rows == old(self)@.rows.push(
                            RowModel {
                                id: old(self)@.next_id,
                                name: snippet.name@,
                                content: snippet.content@,
                            },
                        )
                    }
                },
            },
    {
        match snippet.id {
            Some(id) => {
                let mut k: usize = 0;
                while k < self.rows.len()
                    invariant
                        k <= self@.rows.len(),
                        self@.rows.len() == self.rows@.len(),
                        self@ == old(self)@,
                        old(self).wf(),
                        snippet.id == Some(id),
                        forall|j: int| 0 <= j < k ==> (#[trigger] self@.rows[j]).id != id,
                    decreases self@.rows.len() - k,
                {
                    if self.rows[k].id == id {
                        let new_row = Row {
                            id,
                            name: snippet.name.clone(),
                            content: snippet.content.clone(),
                        };
                        let ghost pre = self@.rows;
                        let _ = self.rows.remove(k);
                        self.rows.insert(k, new_row);
                        proof {
                            assert(self@.rows =~= pre.update(
                                k as int,
                                RowModel {
                                    id: id as int,
                                    name: snippet.name@,
                                    content: snippet.content@,
                                },
                            ));
                            assert((old(self)@.rows[k as int]).id == id);
                            assert(self@.log =~= old(self)@.log);
                            assert(self@.schema =~= old(self)@.schema);
                            assert(forall|j: int|
                                0 <= j < self@.rows.len() ==> (#[trigger] self@.rows[j]).id == (
                                old(self)@.rows[j]).id);
                            assert(self@.rows == old(self)@.rows.update(
                                k as int,
                                RowModel {
                                    id: id as int,
                                    name: snippet.name@,
                                    content: snippet.content@,
                                },
                            ));
                            assert(exists|j: int|
                                0 <= j < old(self)@.rows.len() && (#[trigger] old(
                                    self,
                                )@.rows[j]).id == id && self@.rows == old(self)@.rows.update(
                                    j,
                                    RowModel {
                                        id: id as int,
                                        name: snippet.name@,
                                        content: snippet.content@,
                                    },
                                ));
                        }
                        return Ok(id);
                    }
                    k += 1;
                }
                Ok(id)
            },
            None => {
                if self.next_id == i64::MAX {
                    return Err(StoreError::Storage);
                }
                let id = self.next_id;
                let new_row = Row {
                    id,
                    name: snippet.name.clone(),
                    content: snippet.content.clone(),
                };
                let ghost pre = self@.rows;
                self.rows.push(new_row);
                self.next_id = self.next_id + 1;
                proof {
                    assert(self@.rows =~= pre.push(
                        RowModel { id: id as int, name: snippet.name@, content: snippet.content@ },
                    ));
                    assert(self@.log =~= old(self)@.log);
                    assert(self@.schema =~= old(self)@.schema);
                }
                Ok(id)
            },
        }
    }

    /// The `limit` most recently created snippets, newest first, each
    /// projected to a result row whose hint is the content preview.
    pub fn recent(&self, limit: u16) -> (r: Result<Vec<SearchResult>, StoreError>)
        requires
            self.wf(),
        ensures
            r matches Ok(v) && v@.len() == (if limit as int <= self@.rows.len() {
                limit as int
            } else {
                self@.rows.len() as int
            }) && forall|i: int|
                0 <= i < v@.len() ==> {
                    let row = self@.rows[self@.rows.len() - 1 - i];
                    (#[trigger] v@[i]).id == row.id && v@[i].name@ == row.name && v@[i].hint@
                        == preview(row.content)
                },
    {
        let n: usize = self.rows.len();
        let want: usize = if (limit as usize) <= n {
            limit as usize
        } else {
            n
        };
        let mut out: Vec<SearchResult> = Vec::new();
        let mut i: usize = 0;
        while i < want
            invariant
                want <= n,
                n == self@.rows.len(),
                i <= want,
                out@.len() == i,
                forall|j: int|
                    0 <= j < i ==> {
                        let row = self@.rows[n - 1 - j];
                        (#[trigger] out@[j]).id == row.id && out@[j].name@ == row.name
                            && out@[j].hint@ == preview(row.content)
                    },
            decreases want - i,
        {
            let idx = n - 1 - i;
            let sr = SearchResult {
                id: self.rows[idx].id,
                name: self.rows[idx].name.clone(),
                hint: make_preview(self.rows[idx].content.as_str()),
            };
            out.push(sr);
            i += 1;
        }
        Ok(out)
    }

    /// How many snippet rows the store holds.
    pub(crate) fn row_count(&self) -> (r: usize)
        ensures
            r == self@.rows.len(),
    {
        self.rows.len()
    }

    /// The id of the row at position `k`.
    pub(crate) fn row_id(&self, k: usize) -> (r: i64)
        requires
            k < self@.rows.len(),
        ensures
            r as int == self@.rows[k as int].id,
    {
        self.rows[k].id
    }

    /// The name of the row at position `k`, as characters.
    pub(crate) fn row_name_chars(&self, k: usize) -> (r: Vec<char>)
        requires
            k < self@.rows.len(),
        ensures
            r@ == self@.rows[k as int].name,
    {
        crate::text::chars_of(self.rows[k].name.as_str())
    }

    /// The content of the row at position `k`, as characters.
    pub(crate) fn row_content_chars(&self, k: usize) -> (r: Vec<char>)
        requires
            k < self@.rows.len(),
        ensures
            r@ == self@.rows[k as int].content,
    {
        crate::text::chars_of(self.rows[k].content.as_str())
    }

    /// The name of the row at position `k`, as an owned string.
    pub(crate) fn row_name_string(&self, k: usize) -> (r: String)
        requires
            k < self@.rows.len(),
        ensures
            r@ == self@.rows[k as int].name,
    {
        self.rows[k].name.clone()
    }

    /// Every stored snippet, in creation order, with its assigned id — the
    /// full store contents, as a collaborator that persists them needs.
    pub fn snippets(&self) -> (r: Vec<Snippet>)
        ensures
            r@.len() == self@.rows.len(),
            forall|i: int|
                0 <= i < r@.len() ==> ((#[trigger] r@[i]).id matches Some(id) && id as int
                    == self@.rows[i].id && r@[i].name@ == self@.rows[i].name && r@[i].content@
                    == self@.rows[i].content),
    {
        let mut out: Vec<Snippet> = Vec::new();
        let mut k: usize = 0;
        while k < self.rows.len()
            invariant
                k <= self@.rows.len(),
                self@.rows.len() == self.rows@.len(),
                out@.len() == k,
                forall|i: int|
                    0 <= i < k ==> ((#[trigger] out@[i]).id matches Some(id) && id as int
                        == self@.rows[i].id && out@[i].name@ == self@.rows[i].name
                        && out@[i].content@ == self@.rows[i].content),
            decreases self@.rows.len() - k,
        {
            out.push(
                Snippet {
                    id: Some(self.rows[k].id),
                    name: self.rows[k].name.clone(),
                    content: self.rows[k].content.clone(),
                },
            );
            k += 1;
        }
        out
    }

    /// The migration log: one fingerprint per executed script, in order.
    pub fn migration_log(&self) -> (r: Vec<String>)
        ensures
            string_views(r@) == self@.log,
    {
        let mut out: Vec<String> = Vec::new();
        let mut i: usize = 0;
        while i < self.log.len()
            invariant
                i <= self@.log.len(),
                self@.log.len() == self.log@.len(),
                out@.len() == i,
                forall|j: int| 0 <= j < i ==> (#[trigger] out@[j])@ == self@.log[j],
            decreases self@.log.len() - i,
        {
            out.push(self.log[i].clone());
            i += 1;
        }
        proof {
            assert(string_views(out@) =~= self@.log);
        }
        out
    }

    /// The bodies of the executed migration scripts, in execution order.
    pub fn schema_history(&self) -> (r: Vec<String>)
        ensures
            string_views(r@) == self@.schema,
    {
        let mut out: Vec<String> = Vec::new();
        let mut i: usize = 0;
        while i < self.schema.len()
            invariant
                i <= self@.schema.len(),
                self@.schema.len() == self.schema@.len(),
                out@.len() == i,
                forall|j: int| 0 <= j < i ==> (#[trigger] out@[j])@ == self@.schema[j],
            decreases self@.schema.len() - i,
        {
            out.push(self.schema[i].clone());
            i += 1;
        }
        proof {
            assert(string_views(out@) =~= self@.schema);
        }
        out
    }
}

/// The bodies of the built-in schema scripts, in order.
pub open spec fn builtin_bodies() -> Seq<Seq<char>> {
    seq![
        "CREATE TABLE snippets (name TEXT NOT NULL, content TEXT NOT NULL, created_at INTEGER NOT NULL);"@,
        "CREATE INDEX snippets_by_created_at ON snippets (created_at);"@,
    ]
}

/// The built-in, version-controlled migration scripts that
/// [`Connection::open_in_memory`] applies.
pub fn builtin_migrations() -> (r: Vec<Migration>)
    ensures
        bodies_of(r@) == builtin_bodies(),
        r@.len() == 2,
{
    let mut v: Vec<Migration> = Vec::new();
    v.push(
        Migration {
            identifier: String::from_str("0001_create_snippets.sql"),
            body: String::from_str(
                "CREATE TABLE snippets (name TEXT NOT NULL, content TEXT NOT NULL, created_at INTEGER NOT NULL);",
            ),
        },
    );
    v.push(
        Migration {
            identifier: String::from_str("0002_index_snippets.sql"),
            body: String::from_str(
                "CREATE INDEX snippets_by_created_at ON snippets (created_at);",
            ),
        },
    );
    proof {
        assert(bodies_of(v@) =~= builtin_bodies());
    }
    v
}

/// The id a snippet carries (0 when it has none).
pub open spec fn snip_id(s: Snippet) -> int {
    match s.id {
        Some(id) => id as int,
        None => 0,
    }
}

/// A snippet list has the shape the store itself enumerates: every id
/// present, at least 1, below the largest representable id, and strictly
/// increasing.
pub open spec fn list_well_formed(list: Seq<Snippet>) -> bool {
    &&& forall|i: int| 0 <= i < list.len() ==> (#[trigger] list[i]).id is Some
    &&& forall|i: int| 0 <= i < list.len() ==> 1 <= snip_id(#[trigger] list[i]) < i64::MAX
    &&& forall|i: int, j: int|
        0 <= i < j < list.len() ==> snip_id(#[trigger] list[i]) < snip_id(#[trigger] list[j])
}

/// The row models a snippet list stands for.
pub open spec fn rows_of(list: Seq<Snippet>) -> Seq<RowModel> {
    Seq::new(
        list.len(),
        |i: int| RowModel { id: snip_id(list[i]), name: list[i].name@, content: list[i].content@ },
    )
}

/// Save round-trip, insert half: a store whose row ids are all below the
/// fresh id, extended by the new row, holds a row with that id, and every
/// row with that id carries the saved name and content — which is what a
/// fetch of that id returns.
pub proof fn lemma_save_round_trip(
    rows: Seq<RowModel>,
    nid: int,
    name: Seq<char>,
    content: Seq<char>,
)
    requires
        forall|i: int| 0 <= i < rows.len() ==> (#[trigger] rows[i]).id < nid,
    ensures
        ({
            let rows2 = rows.push(RowModel { id: nid, name, content });
            &&& exists|k: int| 0 <= k < rows2.len() && (#[trigger] rows2[k]).id == nid
            &&& forall|k: int|
                0 <= k < rows2.len() && (#[trigger] rows2[k]).id == nid ==> rows2[k].name == name
                    && rows2[k].content == content
        }),
{
    let rows2 = rows.push(RowModel { id: nid, name, content });
    assert(rows2[rows.len() as int].id == nid);
}

/// Save round-trip, update half: updating the one row that carries an id
/// changes no other row, keeps every id in place, and afterwards every row
/// carrying that id holds the new name and content.
pub proof fn lemma_update_round_trip(rows: Seq<RowModel>, k: int, name: Seq<char>, content: Seq<char>)
    requires
        0 <= k < rows.len(),
        forall|i: int, j: int|
            0 <= i < j < rows.len() ==> (#[trigger] rows[i]).id < (#[trigger] rows[j]).id,
    ensures
        ({
            let rows2 = rows.update(k, RowModel { id: rows[k].id, name, content });
            &&& forall|j: int| 0 <= j < rows2.len() ==> (#[trigger] rows2[j]).id == rows[j].id
            &&& forall|j: int|
                0 <= j < rows2.len() && (#[trigger] rows2[j]).id == rows[k].id ==> rows2[j].name
                    == name && rows2[j].content == content
        }),
{
    let rows2 = rows.update(k, RowModel { id: rows[k].id, name, content });
    assert forall|j: int|
        0 <= j < rows2.len() && (#[trigger] rows2[j]).id == rows[k].id implies rows2[j].name
        == name && rows2[j].content == content by {
        if j != k {
            if j < k {
                assert(rows[j].id < rows[k].id);
            } else {
                assert(rows[k].id < rows[j].id);
            }
        }
    }
}

} // verus!

