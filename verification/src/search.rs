//! The search engine: a vocabulary derived from all snippet text, per-term
//! spelling correction against it, and ranked substring search.

use vstd::prelude::*;

use crate::distance::{best_in, correct, correction};
use crate::store::{Connection, RowModel, SearchResult, StoreError};
use crate::text::{
    chars_of, contains_at, contains_chars, contains_seq, copy_chars, count_occurrences, eq_chars,
    find_first, flatten_newlines, lemma_tokens_nonempty, lower, lower_vec, make_preview_chars,
    occurrences, preview, string_of, string_views, tokenize, tokens, views_of,
};

verus! {

/// The normalized terms one row contributes to the vocabulary: the tokens
/// of its lower-cased name, then of its lower-cased content.
pub open spec fn row_terms(row: RowModel) -> Seq<Seq<char>> {
    tokens(lower(row.name)) + tokens(lower(row.content))
}

/// Appends to `acc` every term of `ts` not present yet, in order.
pub open spec fn add_terms(acc: Seq<Seq<char>>, ts: Seq<Seq<char>>) -> Seq<Seq<char>>
    decreases ts.len(),
{
    if ts.len() == 0 {
        acc
    } else {
        add_terms(
            if acc.contains(ts[0]) {
                acc
            } else {
                acc.push(ts[0])
            },
            ts.drop_first(),
        )
    }
}

/// Folds the rows' terms into a vocabulary, row by row.
pub open spec fn vocab_from(acc: Seq<Seq<char>>, rows: Seq<RowModel>) -> Seq<Seq<char>>
    decreases rows.len(),
{
    if rows.len() == 0 {
        acc
    } else {
        vocab_from(add_terms(acc, row_terms(rows[0])), rows.drop_first())
    }
}

/// The vocabulary of a store: every distinct normalized term occurring in
/// any snippet's name or content, in order of first occurrence.
pub open spec fn vocab_of(rows: Seq<RowModel>) -> Seq<Seq<char>> {
    vocab_from(Seq::empty(), rows)
}

/// Does this row's text contain `term` (already lower-cased) as a
/// substring of its lower-cased name or content?
pub open spec fn row_text_matches(row: RowModel, term: Seq<char>) -> bool {
    contains_seq(lower(row.name), term) || contains_seq(lower(row.content), term)
}

/// Does any row's text contain `term`?
pub open spec fn store_has_term(rows: Seq<RowModel>, term: Seq<char>) -> bool {
    exists|i: int| 0 <= i < rows.len() && row_text_matches(#[trigger] rows[i], term)
}

/// What becomes of one query term: a term some indexed text already
/// contains is used verbatim; otherwise the nearest vocabulary term
/// replaces it; when the corrector finds nothing, the term passes through.
pub open spec fn corrected_term(rows: Seq<RowModel>, term: Seq<char>) -> Seq<char> {
    if store_has_term(rows, term) {
        term
    } else {
        match correction(vocab_of(rows), term) {
            Some(c) => c,
            None => term,
        }
    }
}

/// The corrected query: the query lower-cased and tokenized, each term
/// corrected independently.
pub open spec fn corrected_query(rows: Seq<RowModel>, q: Seq<char>) -> Seq<Seq<char>> {
    tokens(lower(q)).map(|_i: int, t: Seq<char>| corrected_term(rows, t))
}

/// Is `t` one of the vectors of `acc`?
fn contains_vec(acc: &Vec<Vec<char>>, t: &Vec<char>) -> (r: bool)
    ensures
        r == views_of(acc@).contains(t@),
{
    let mut i: usize = 0;
    while i < acc.len()
        invariant
            i <= acc@.len(),
            forall|j: int| 0 <= j < i ==> views_of(acc@)[j] != t@,
        decreases acc@.len() - i,
    {
        if eq_chars(&acc[i], t) {
            proof {
                assert(views_of(acc@)[i as int] == t@);
            }
            return true;
        }
        i += 1;
    }
    proof {
        assert(!views_of(acc@).contains(t@));
    }
    false
}

/// Adds every term of `ts` that `acc` lacks, in order.
fn add_terms_exec(acc: &mut Vec<Vec<char>>, ts: &Vec<Vec<char>>)
    ensures
        views_of(final(acc)@) == add_terms(views_of(old(acc)@), views_of(ts@)),
{
    let ghost goal = add_terms(views_of(old(acc)@), views_of(ts@));
    proof {
        assert(views_of(ts@).skip(0) =~= views_of(ts@));
    }
    let mut i: usize = 0;
    while i < ts.len()
        invariant
            i <= ts@.len(),
            goal == add_terms(views_of(acc@), views_of(ts@).skip(i as int)),
        decreases ts@.len() - i,
    {
        proof {
            assert(views_of(ts@).skip(i as int)[0] == ts@[i as int]@);
            assert(views_of(ts@).skip(i as int).drop_first() =~= views_of(ts@).skip(i + 1));
        }
        let ghost pre = views_of(acc@);
        if !contains_vec(acc, &ts[i]) {
            acc.push(copy_chars(&ts[i]));
            proof {
                assert(views_of(acc@) =~= pre.push(ts@[i as int]@));
            }
        }
        i += 1;
    }
    proof {
        assert(views_of(ts@).skip(ts@.len() as int) =~= Seq::<Seq<char>>::empty());
    }
}

impl Connection {
    /// Builds the vocabulary of the current rows.
    fn build_vocab(&self) -> (r: Vec<Vec<char>>)
        ensures
            views_of(r@) == vocab_of(self@.rows),
    {
        let ghost goal = vocab_of(self@.rows);
        proof {
            assert(self@.rows.skip(0) =~= self@.rows);
            assert(views_of(Seq::<Vec<char>>::empty()) =~= Seq::<Seq<char>>::empty());
        }
        let mut acc: Vec<Vec<char>> = Vec::new();
        let n = self.row_count();
        let mut k: usize = 0;
        while k < n
            invariant
                n == self@.rows.len(),
                k <= n,
                goal == vocab_from(views_of(acc@), self@.rows.skip(k as int)),
            decreases n - k,
        {
            let name_l = lower_vec(&self.row_name_chars(k));
            let content_l = lower_vec(&self.row_content_chars(k));
            let toks_n = tokenize(&name_l);
            let toks_c = tokenize(&content_l);
            proof {
                assert(self@.rows.skip(k as int)[0] == self@.rows[k as int]);
                assert(self@.rows.skip(k as int).drop_first() =~= self@.rows.skip(k + 1));
            }
            let ghost pre = views_of(acc@);
            add_terms_exec(&mut acc, &toks_n);
            add_terms_exec(&mut acc, &toks_c);
            proof {
                lemma_add_terms_concat(pre, views_of(toks_n@), views_of(toks_c@));
                assert(views_of(toks_n@) + views_of(toks_c@) == row_terms(self@.rows[k as int]));
            }
            k += 1;
        }
        proof {
            assert(self@.rows.skip(n as int) =~= Seq::<RowModel>::empty());
        }
        acc
    }

    /// The vocabulary as strings, for callers outside the engine.
    pub fn vocabulary(&self) -> (r: Vec<String>)
        ensures
            string_views(r@) == vocab_of(self@.rows),
    {
        let vocab = self.build_vocab();
        let mut out: Vec<String> = Vec::new();
        let mut i: usize = 0;
        while i < vocab.len()
            invariant
                i <= vocab@.len(),
                out@.len() == i,
                forall|j: int| 0 <= j < i ==> (#[trigger] out@[j])@ == views_of(vocab@)[j],
            decreases vocab@.len() - i,
        {
            out.push(string_of(&vocab[i]));
            i += 1;
        }
        proof {
            assert(string_views(out@) =~= views_of(vocab@));
        }
        out
    }

    /// Does any row's lower-cased text contain `term` as a substring?
    fn has_term(&self, term: &Vec<char>) -> (r: bool)
        requires
            term@.len() > 0,
        ensures
            r == store_has_term(self@.rows, term@),
    {
        let n = self.row_count();
        let mut k: usize = 0;
        while k < n
            invariant
                n == self@.rows.len(),
                k <= n,
                term@.len() > 0,
                forall|j: int| 0 <= j < k ==> !row_text_matches(#[trigger] self@.rows[j], term@),
            decreases n - k,
        {
            let name_l = lower_vec(&self.row_name_chars(k));
            if contains_chars(&name_l, term) {
                proof {
                    assert(row_text_matches(self@.rows[k as int], term@));
                }
                return true;
            }
            let content_l = lower_vec(&self.row_content_chars(k));
            if contains_chars(&content_l, term) {
                proof {
                    assert(row_text_matches(self@.rows[k as int], term@));
                }
                return true;
            }
            k += 1;
        }
        false
    }

    /// Lower-cases and tokenizes the query, and corrects each term
    /// independently: substring presence short-circuits correction.
    fn corrected_terms(&self, query: &Vec<char>) -> (r: Vec<Vec<char>>)
        ensures
            views_of(r@) == corrected_query(self@.rows, query@),
            forall|i: int| 0 <= i < r@.len() ==> (#[trigger] views_of(r@)[i]).len() > 0,
    {
        let ghost rows = self@.rows;
        let ql = lower_vec(query);
        let toks = tokenize(&ql);
        let ghost tv = tokens(lower(query@));
        let vocab = self.build_vocab();
        proof {
            lemma_tokens_nonempty(lower(query@));
            lemma_vocab_nonempty(rows);
        }
        let mut out: Vec<Vec<char>> = Vec::new();
        let mut i: usize = 0;
        while i < toks.len()
            invariant
                i <= toks@.len(),
                views_of(toks@) == tv,
                views_of(vocab@) == vocab_of(rows),
                rows == self@.rows,
                forall|j: int| 0 <= j < tv.len() ==> (#[trigger] tv[j]).len() > 0,
                forall|j: int|
                    0 <= j < vocab_of(rows).len() ==> (#[trigger] vocab_of(rows)[j]).len() > 0,
                out@.len() == i,
                forall|j: int|
                    0 <= j < i ==> (#[trigger] views_of(out@)[j]) == corrected_term(rows, tv[j]),
                forall|j: int| 0 <= j < i ==> (#[trigger] views_of(out@)[j]).len() > 0,
            decreases toks@.len() - i,
        {
            let t = &toks[i];
            let ghost pre_out = views_of(out@);
            proof {
                assert(t@ == tv[i as int]);
            }
            if self.has_term(t) {
                out.push(copy_chars(t));
                proof {
                    assert(views_of(out@) =~= pre_out.push(t@));
                    assert(corrected_term(rows, tv[i as int]) == t@);
                }
            } else {
                match correct(&vocab, t) {
                    Some(c) => {
                        let ghost cv = c@;
                        proof {
                            lemma_correction_member(vocab_of(rows), t@);
                            assert(vocab_of(rows).contains(cv));
                            let k = choose|k: int|
                                0 <= k < vocab_of(rows).len() && vocab_of(rows)[k] == cv;
                            assert(vocab_of(rows)[k].len() > 0);
                        }
                        out.push(c);
                        proof {
                            assert(views_of(out@) =~= pre_out.push(cv));
                            assert(corrected_term(rows, tv[i as int]) == cv);
                        }
                    },
                    None => {
                        out.push(copy_chars(t));
                        proof {
                            assert(views_of(out@) =~= pre_out.push(t@));
                            assert(corrected_term(rows, tv[i as int]) == t@);
                        }
                    },
                }
            }
            i += 1;
        }
        proof {
            assert(views_of(out@) =~= corrected_query(rows, query@));
        }
        out
    }

    /// The corrected form of `query`, term by term, as strings: what the
    /// engine actually matches against the index.
    pub fn fix_search(&self, query: &str) -> (r: Vec<String>)
        ensures
            string_views(r@) == corrected_query(self@.rows, query@),
    {
        let q_chars = chars_of(query);
        let terms = self.corrected_terms(&q_chars);
        let mut out: Vec<String> = Vec::new();
        let mut i: usize = 0;
        while i < terms.len()
            invariant
                i <= terms@.len(),
                out@.len() == i,
                forall|j: int| 0 <= j < i ==> (#[trigger] out@[j])@ == views_of(terms@)[j],
            decreases terms@.len() - i,
        {
            out.push(string_of(&terms[i]));
            i += 1;
        }
        proof {
            assert(string_views(out@) =~= views_of(terms@));
        }
        out
    }
}

/// Splitting a term list in two and folding the halves one after the other
/// folds the whole.
proof fn lemma_add_terms_concat(acc: Seq<Seq<char>>, x: Seq<Seq<char>>, y: Seq<Seq<char>>)
    ensures
        add_terms(add_terms(acc, x), y) == add_terms(acc, x + y),
    decreases x.len(),
{
    if x.len() == 0 {
        assert(x + y =~= y);
    } else {
        let acc2 = if acc.contains(x[0]) {
            acc
        } else {
            acc.push(x[0])
        };
        assert((x + y)[0] == x[0]);
        assert((x + y).drop_first() =~= x.drop_first() + y);
        lemma_add_terms_concat(acc2, x.drop_first(), y);
    }
}

/// Folding keeps every accumulated term non-empty when the new ones are.
proof fn lemma_add_terms_nonempty(acc: Seq<Seq<char>>, ts: Seq<Seq<char>>)
    requires
        forall|i: int| 0 <= i < acc.len() ==> (#[trigger] acc[i]).len() > 0,
        forall|i: int| 0 <= i < ts.len() ==> (#[trigger] ts[i]).len() > 0,
    ensures
        forall|i: int|
            0 <= i < add_terms(acc, ts).len() ==> (#[trigger] add_terms(acc, ts)[i]).len() > 0,
    decreases ts.len(),
{
    if ts.len() > 0 {
        let acc2 = if acc.contains(ts[0]) {
            acc
        } else {
            acc.push(ts[0])
        };
        assert(forall|i: int| 0 <= i < acc2.len() ==> (#[trigger] acc2[i]).len() > 0);
        assert(forall|i: int|
            0 <= i < ts.drop_first().len() ==> (#[trigger] ts.drop_first()[i]).len() > 0);
        lemma_add_terms_nonempty(acc2, ts.drop_first());
        assert(add_terms(acc, ts) == add_terms(acc2, ts.drop_first()));
    }
}

/// Every vocabulary term is non-empty: each comes from a token.
proof fn lemma_vocab_from_nonempty(acc: Seq<Seq<char>>, rows: Seq<RowModel>)
    requires
        forall|i: int| 0 <= i < acc.len() ==> (#[trigger] acc[i]).len() > 0,
    ensures
        forall|i: int|
            0 <= i < vocab_from(acc, rows).len() ==> (#[trigger] vocab_from(acc, rows)[i]).len()
                > 0,
    decreases rows.len(),
{
    if rows.len() > 0 {
        let ts = row_terms(rows[0]);
        assert forall|i: int| 0 <= i < ts.len() implies (#[trigger] ts[i]).len() > 0 by {
            lemma_tokens_nonempty(lower(rows[0].name));
            lemma_tokens_nonempty(lower(rows[0].content));
            if i < tokens(lower(rows[0].name)).len() {
                assert(ts[i] == tokens(lower(rows[0].name))[i]);
            } else {
                assert(ts[i] == tokens(lower(rows[0].content))[i - tokens(
                    lower(rows[0].name),
                ).len()]);
            }
        }
        lemma_add_terms_nonempty(acc, ts);
        lemma_vocab_from_nonempty(add_terms(acc, ts), rows.drop_first());
        assert(vocab_from(acc, rows) == vocab_from(add_terms(acc, ts), rows.drop_first()));
    }
}

/// Every term of a store's vocabulary is non-empty.
proof fn lemma_vocab_nonempty(rows: Seq<RowModel>)
    ensures
        forall|i: int| 0 <= i < vocab_of(rows).len() ==> (#[trigger] vocab_of(rows)[i]).len() > 0,
{
    lemma_vocab_from_nonempty(Seq::empty(), rows);
}

/// The best-match scan returns a member of the vocabulary.
proof fn lemma_best_in_member(vocab: Seq<Seq<char>>, term: Seq<char>)
    ensures
        best_in(vocab, term) matches Some(b) ==> vocab.contains(b.0),
    decreases vocab.len(),
{
    if vocab.len() > 0 {
        lemma_best_in_member(vocab.drop_last(), term);
        match best_in(vocab, term) {
            Some(b) => {
                if b.0 == vocab.last() {
                    assert(vocab[vocab.len() - 1] == vocab.last());
                } else {
                    assert(vocab.drop_last().contains(b.0));
                    let k = choose|k: int|
                        0 <= k < vocab.drop_last().len() && vocab.drop_last()[k] == b.0;
                    assert(vocab[k] == b.0);
                }
            },
            None => {},
        }
    }
}

/// A correction, when one is found, is a non-empty vocabulary term.
proof fn lemma_correction_member(vocab: Seq<Seq<char>>, term: Seq<char>)
    ensures
        correction(vocab, term) matches Some(c) ==> vocab.contains(c),
{
    lemma_best_in_member(vocab, term);
}

/// Addition of relevance scores, capped so it always fits a machine word.
pub open spec fn sat_add(a: int, b: int) -> int {
    if a + b > u64::MAX {
        u64::MAX as int
    } else {
        a + b
    }
}

/// Capped addition, executable.
fn sat_add_u64(a: u64, b: u64) -> (r: u64)
    ensures
        r as int == sat_add(a as int, b as int),
{
    if a > u64::MAX - b {
        u64::MAX
    } else {
        a + b
    }
}

/// How often one (lower-cased) term occurs in a row's text, name and
/// content counted together.
pub open spec fn term_score(row: RowModel, term: Seq<char>) -> int {
    sat_add(
        occurrences(lower(row.name), term) as int,
        occurrences(lower(row.content), term) as int,
    )
}

/// A row's relevance for a corrected query: the total number of term
/// occurrences over all its fields (term frequency), capped.  Plain term
/// frequency is the relevance measure here, deliberately: it is exact,
/// deterministic and engine-independent; no document-frequency weighting
/// is applied.
pub open spec fn score(row: RowModel, terms: Seq<Seq<char>>) -> int
    decreases terms.len(),
{
    if terms.len() == 0 {
        0
    } else {
        sat_add(term_score(row, terms[0]), score(row, terms.drop_first()))
    }
}

/// Does the row's text contain every query term?
pub open spec fn matches_all(row: RowModel, terms: Seq<Seq<char>>) -> bool {
    forall|i: int| 0 <= i < terms.len() ==> row_text_matches(row, #[trigger] terms[i])
}

/// The strict ranking order on (score, id) pairs: lower score first, and
/// for equal scores the older row (smaller id) first.
pub open spec fn key_lt(a: (int, int), b: (int, int)) -> bool {
    a.0 < b.0 || (a.0 == b.0 && a.1 < b.1)
}

/// The ranking key of the row at position `k`.
pub open spec fn row_key(rows: Seq<RowModel>, terms: Seq<Seq<char>>, k: int) -> (int, int) {
    (score(rows[k], terms), rows[k].id)
}

/// The ranking key of the row carrying `id` (well-defined when ids are
/// unique and some row carries it).
pub open spec fn key_of_id(rows: Seq<RowModel>, terms: Seq<Seq<char>>, id: int) -> (int, int) {
    row_key(rows, terms, choose|k: int| 0 <= k < rows.len() && (#[trigger] rows[k]).id == id)
}

/// With strictly increasing ids, the key looked up by id is the key of the
/// row's position.
proof fn lemma_key_of_id(rows: Seq<RowModel>, terms: Seq<Seq<char>>, k: int)
    requires
        forall|i: int, j: int|
            0 <= i < j < rows.len() ==> (#[trigger] rows[i]).id < (#[trigger] rows[j]).id,
        0 <= k < rows.len(),
    ensures
        key_of_id(rows, terms, rows[k].id) == row_key(rows, terms, k),
{
    let id = rows[k].id;
    assert(0 <= k < rows.len() && rows[k].id == id);
    let k2 = choose|k2: int| 0 <= k2 < rows.len() && (#[trigger] rows[k2]).id == id;
    if k2 < k {
        assert(rows[k2].id < rows[k].id);
    } else if k2 > k {
        assert(rows[k].id < rows[k2].id);
    }
}

/// Is `id` the id of some listed result?
pub open spec fn in_results(out: Seq<SearchResult>, id: int) -> bool {
    exists|i: int| 0 <= i < out.len() && (#[trigger] out[i]).id as int == id
}

/// A result row faithfully projects some matching snippet row.
pub open spec fn result_corresponds(
    rows: Seq<RowModel>,
    terms: Seq<Seq<char>>,
    sr: SearchResult,
) -> bool {
    exists|k: int|
        0 <= k < rows.len() && (#[trigger] rows[k]).id == sr.id as int && matches_all(
            rows[k],
            terms,
        ) && sr.name@ == rows[k].name && sr.hint@ == hint_of(rows[k].content, terms)
}

/// Everything `search` promises of its output: every result projects a
/// matching row; results come in strictly falling ranking order; at most
/// `limit` come back; and a matching row was left out only when the list
/// is full of strictly better-ranked rows.  An empty corrected query
/// yields no results.
pub open spec fn search_post(
    rows: Seq<RowModel>,
    terms: Seq<Seq<char>>,
    limit: int,
    out: Seq<SearchResult>,
) -> bool {
    &&& out.len() <= limit
    &&& (terms.len() == 0 ==> out.len() == 0)
    &&& (forall|i: int| 0 <= i < out.len() ==> result_corresponds(rows, terms, #[trigger] out[i]))
    &&& (forall|i: int, j: int|
        0 <= i < j < out.len() ==> key_lt(
            key_of_id(rows, terms, (#[trigger] out[j]).id as int),
            key_of_id(rows, terms, (#[trigger] out[i]).id as int),
        ))
    &&& (forall|k: int|
        0 <= k < rows.len() && terms.len() > 0 && matches_all(#[trigger] rows[k], terms)
            && !in_results(out, rows[k].id) ==> out.len() == limit && (forall|i: int|
            0 <= i < out.len() ==> key_lt(
                row_key(rows, terms, k),
                key_of_id(rows, terms, (#[trigger] out[i]).id as int),
            )))
}

/// How many characters of content a matched-term excerpt keeps.
pub const FRAGMENT_LEN: usize = 24;

/// The least position at or after `i` where `nd` occurs in `hay`.
pub open spec fn first_from(hay: Seq<char>, nd: Seq<char>, i: int) -> Option<int>
    decreases hay.len() + 1 - i,
{
    if !(0 <= i && i + nd.len() <= hay.len()) {
        None
    } else if contains_at(hay, nd, i) {
        Some(i)
    } else {
        first_from(hay, nd, i + 1)
    }
}

/// The excerpt starting at `p`: up to [`FRAGMENT_LEN`] characters of the
/// content, newlines flattened.
pub open spec fn fragment_at(content: Seq<char>, p: int) -> Seq<char> {
    flatten_newlines(
        content.subrange(
            p,
            if p + FRAGMENT_LEN <= content.len() {
                p + FRAGMENT_LEN as int
            } else {
                content.len() as int
            },
        ),
    )
}

/// One excerpt per term that occurs in the (lower-cased) content, at its
/// first occurrence, in term order.
pub open spec fn fragments(content: Seq<char>, terms: Seq<Seq<char>>) -> Seq<Seq<char>>
    decreases terms.len(),
{
    if terms.len() == 0 {
        Seq::empty()
    } else {
        let rest = fragments(content, terms.drop_first());
        match first_from(lower(content), terms[0], 0) {
            Some(p) => seq![fragment_at(content, p)] + rest,
            None => rest,
        }
    }
}

/// Excerpts joined by an ellipsis marker.
pub open spec fn join_fragments(fr: Seq<Seq<char>>) -> Seq<char>
    decreases fr.len(),
{
    if fr.len() == 0 {
        Seq::empty()
    } else if fr.len() == 1 {
        fr[0]
    } else {
        fr[0] + seq!['.', '.'] + join_fragments(fr.drop_first())
    }
}

/// A result's hint: the matched-term excerpts, ellipsis-joined; when no
/// term occurs in the content (the match was on the name), the plain
/// content preview.
pub open spec fn hint_of(content: Seq<char>, terms: Seq<Seq<char>>) -> Seq<char> {
    let fr = fragments(content, terms);
    if fr.len() == 0 {
        preview(content)
    } else {
        join_fragments(fr)
    }
}

/// A position that matches, with none matching before it, is the first.
proof fn lemma_first_from_is(hay: Seq<char>, nd: Seq<char>, s: int, i: int)
    requires
        0 <= s <= i,
        contains_at(hay, nd, i),
        forall|j: int| s <= j < i ==> !contains_at(hay, nd, j),
    ensures
        first_from(hay, nd, s) == Some(i),
    decreases i - s,
{
    if s < i {
        lemma_first_from_is(hay, nd, s + 1, i);
    }
}

/// Where nothing matches, there is no first occurrence.
proof fn lemma_first_from_none(hay: Seq<char>, nd: Seq<char>, s: int)
    requires
        !contains_seq(hay, nd),
    ensures
        first_from(hay, nd, s) is None,
    decreases hay.len() + 1 - s,
{
    if 0 <= s && s + nd.len() <= hay.len() {
        assert(!contains_at(hay, nd, s));
        lemma_first_from_none(hay, nd, s + 1);
    }
}

/// Joining after appending one excerpt appends it behind a separator
/// (or is just the excerpt, for the first one).
proof fn lemma_join_push(fr: Seq<Seq<char>>, x: Seq<char>)
    ensures
        join_fragments(fr.push(x)) == if fr.len() == 0 {
            x
        } else {
            join_fragments(fr) + seq!['.', '.'] + x
        },
    decreases fr.len(),
{
    let frx = fr.push(x);
    if fr.len() == 0 {
        assert(frx.len() == 1);
        assert(frx[0] == x);
    } else {
        assert(frx[0] == fr[0]);
        assert(frx.drop_first() =~= fr.drop_first().push(x));
        lemma_join_push(fr.drop_first(), x);
        if fr.len() == 1 {
            assert(join_fragments(fr.drop_first().push(x)) == x);
            assert(join_fragments(fr) == fr[0]);
            assert(join_fragments(frx) =~= fr[0] + seq!['.', '.'] + x);
        } else {
            assert(join_fragments(frx) == frx[0] + seq!['.', '.'] + join_fragments(
                frx.drop_first(),
            ));
            assert(join_fragments(fr.drop_first().push(x)) == join_fragments(fr.drop_first())
                + seq!['.', '.'] + x);
            assert(join_fragments(fr) + seq!['.', '.'] + x =~= fr[0] + seq!['.', '.'] + (
            join_fragments(fr.drop_first()) + seq!['.', '.'] + x));
        }
    }
}

/// Builds the hint for one matching row.
fn build_hint(content: &Vec<char>, terms: &Vec<Vec<char>>) -> (r: String)
    requires
        forall|i: int| 0 <= i < terms@.len() ==> (#[trigger] views_of(terms@)[i]).len() > 0,
    ensures
        r@ == hint_of(content@, views_of(terms@)),
{
    let ghost tv = views_of(terms@);
    let lc = lower_vec(content);
    let n: usize = content.len();
    let mut frags: Vec<Vec<char>> = Vec::new();
    let mut i: usize = 0;
    proof {
        assert(tv.skip(0) =~= tv);
        assert(views_of(frags@) + fragments(content@, tv) =~= fragments(content@, tv));
    }
    while i < terms.len()
        invariant
            i <= terms@.len(),
            tv == views_of(terms@),
            lc@ == lower(content@),
            n == content@.len(),
            forall|j: int| 0 <= j < tv.len() ==> (#[trigger] tv[j]).len() > 0,
            fragments(content@, tv) == views_of(frags@) + fragments(content@, tv.skip(i as int)),
        decreases terms@.len() - i,
    {
        proof {
            assert(tv.skip(i as int)[0] == tv[i as int]);
            assert(tv.skip(i as int).drop_first() =~= tv.skip(i + 1));
        }
        let ghost pre = views_of(frags@);
        match find_first(&lc, &terms[i]) {
            Some(p) => {
                proof {
                    lemma_first_from_is(lc@, tv[i as int], 0, p as int);
                }
                let end: usize = if n - p >= FRAGMENT_LEN {
                    p + FRAGMENT_LEN
                } else {
                    n
                };
                let mut frag: Vec<char> = Vec::new();
                let mut j: usize = p;
                while j < end
                    invariant
                        p <= j <= end,
                        end <= content@.len(),
                        frag@.len() == j - p,
                        forall|q: int|
                            0 <= q < j - p ==> frag@[q] == (if content@[p + q] == '\n' {
                                ' '
                            } else {
                                content@[p + q]
                            }),
                    decreases end - j,
                {
                    let c = content[j];
                    if c == '\n' {
                        frag.push(' ');
                    } else {
                        frag.push(c);
                    }
                    j += 1;
                }
                proof {
                    assert(frag@ =~= fragment_at(content@, p as int));
                }
                frags.push(frag);
                proof {
                    assert(views_of(frags@) =~= pre.push(fragment_at(content@, p as int)));
                    assert(fragments(content@, tv.skip(i as int)) == seq![
                        fragment_at(content@, p as int),
                    ] + fragments(content@, tv.skip(i + 1)));
                    assert(pre + (seq![fragment_at(content@, p as int)] + fragments(
                        content@,
                        tv.skip(i + 1),
                    )) =~= views_of(frags@) + fragments(content@, tv.skip(i + 1)));
                }
            },
            None => {
                proof {
                    lemma_first_from_none(lc@, tv[i as int], 0);
                }
            },
        }
        i += 1;
    }
    proof {
        assert(tv.skip(terms@.len() as int) =~= Seq::<Seq<char>>::empty());
        assert(views_of(frags@) + fragments(content@, tv.skip(terms@.len() as int)) =~= views_of(
            frags@,
        ));
    }
    if frags.len() == 0 {
        proof {
            assert(fragments(content@, tv) =~= Seq::<Seq<char>>::empty());
        }
        make_preview_chars(content)
    } else {
        let mut joined: Vec<char> = Vec::new();
        let mut i: usize = 0;
        while i < frags.len()
            invariant
                i <= frags@.len(),
                joined@ == join_fragments(views_of(frags@).take(i as int)),
            decreases frags@.len() - i,
        {
            let ghost prefix = views_of(frags@).take(i as int);
            proof {
                lemma_join_push(prefix, views_of(frags@)[i as int]);
                assert(prefix.push(views_of(frags@)[i as int]) =~= views_of(frags@).take(i + 1));
            }
            if i > 0 {
                joined.push('.');
                joined.push('.');
            }
            let ghost base = joined@;
            let mut j: usize = 0;
            while j < frags[i].len()
                invariant
                    i < frags@.len(),
                    j <= frags@[i as int]@.len(),
                    joined@ == base + frags@[i as int]@.subrange(0, j as int),
                decreases frags@[i as int]@.len() - j,
            {
                joined.push(frags[i][j]);
                proof {
                    assert(base + frags@[i as int]@.subrange(0, j as int) + seq![
                        frags@[i as int]@[j as int],
                    ] =~= base + frags@[i as int]@.subrange(0, j + 1));
                }
                j += 1;
            }
            proof {
                assert(frags@[i as int]@.subrange(0, frags@[i as int]@.len() as int) =~= frags@[
                    i as int
                ]@);
                assert(views_of(frags@)[i as int] == frags@[i as int]@);
                if i == 0 {
                    assert(base =~= Seq::<char>::empty());
                    assert(joined@ =~= join_fragments(views_of(frags@).take(i + 1)));
                } else {
                    assert(joined@ =~= join_fragments(prefix) + seq!['.', '.'] + frags@[
                        i as int
                    ]@);
                    assert(joined@ =~= join_fragments(views_of(frags@).take(i + 1)));
                }
            }
            i += 1;
        }
        proof {
            assert(views_of(frags@).take(frags@.len() as int) =~= views_of(frags@));
        }
        string_of(&joined)
    }
}

/// Is `j` one of the listed positions?
pub open spec fn idx_in(s: Seq<usize>, j: int) -> bool {
    exists|p: int| 0 <= p < s.len() && (#[trigger] s[p]) as int == j
}

impl Connection {
    /// Does the row at position `k` contain every query term?
    fn row_matches_all_exec(&self, k: usize, terms: &Vec<Vec<char>>) -> (r: bool)
        requires
            k < self@.rows.len(),
            forall|i: int| 0 <= i < terms@.len() ==> (#[trigger] views_of(terms@)[i]).len() > 0,
        ensures
            r == matches_all(self@.rows[k as int], views_of(terms@)),
    {
        let ghost row = self@.rows[k as int];
        let ghost tv = views_of(terms@);
        let name_l = lower_vec(&self.row_name_chars(k));
        let content_l = lower_vec(&self.row_content_chars(k));
        let mut i: usize = 0;
        while i < terms.len()
            invariant
                i <= terms@.len(),
                tv == views_of(terms@),
                k < self@.rows.len(),
                row == self@.rows[k as int],
                forall|j: int| 0 <= j < tv.len() ==> (#[trigger] tv[j]).len() > 0,
                name_l@ == lower(row.name),
                content_l@ == lower(row.content),
                forall|j: int| 0 <= j < i ==> row_text_matches(row, #[trigger] tv[j]),
            decreases terms@.len() - i,
        {
            let t = &terms[i];
            proof {
                assert(t@ == tv[i as int]);
            }
            if !contains_chars(&name_l, t) && !contains_chars(&content_l, t) {
                proof {
                    assert(!row_text_matches(row, tv[i as int]));
                }
                return false;
            }
            i += 1;
        }
        true
    }

    /// The relevance score of the row at position `k`.
    fn score_row(&self, k: usize, terms: &Vec<Vec<char>>) -> (r: u64)
        requires
            k < self@.rows.len(),
            forall|i: int| 0 <= i < terms@.len() ==> (#[trigger] views_of(terms@)[i]).len() > 0,
        ensures
            r as int == score(self@.rows[k as int], views_of(terms@)),
    {
        let ghost row = self@.rows[k as int];
        let ghost tv = views_of(terms@);
        let name_l = lower_vec(&self.row_name_chars(k));
        let content_l = lower_vec(&self.row_content_chars(k));
        let mut acc: u64 = 0;
        let mut i: usize = terms.len();
        proof {
            assert(tv.skip(terms@.len() as int) =~= Seq::<Seq<char>>::empty());
        }
        while i > 0
            invariant
                i <= terms@.len(),
                tv == views_of(terms@),
                forall|j: int| 0 <= j < tv.len() ==> (#[trigger] tv[j]).len() > 0,
                name_l@ == lower(row.name),
                content_l@ == lower(row.content),
                acc as int == score(row, tv.skip(i as int)),
            decreases i,
        {
            i -= 1;
            let t = &terms[i];
            proof {
                assert(t@ == tv[i as int]);
                assert(tv.skip(i as int)[0] == tv[i as int]);
                assert(tv.skip(i as int).drop_first() =~= tv.skip(i + 1));
            }
            let oc_n = count_occurrences(&name_l, t);
            let oc_c = count_occurrences(&content_l, t);
            let ts = sat_add_u64(oc_n as u64, oc_c as u64);
            acc = sat_add_u64(ts, acc);
        }
        proof {
            assert(tv.skip(0) =~= tv);
        }
        acc
    }

    /// Searches: tokenizes and corrects the query, keeps the rows whose
    /// text contains every corrected term, ranks them by falling relevance
    /// (ties to the newer row), and returns at most `limit` of them.
    pub fn search(&self, query: &str, limit: u16) -> (r: Result<Vec<SearchResult>, StoreError>)
        requires
            self.wf(),
        ensures
            r matches Ok(v) && search_post(
                self@.rows,
                corrected_query(self@.rows, query@),
                limit as int,
                v@,
            ),
    {
        let ghost rows = self@.rows;
        let q_chars = chars_of(query);
        let terms = self.corrected_terms(&q_chars);
        let ghost tv = views_of(terms@);
        if terms.len() == 0 {
            let out: Vec<SearchResult> = Vec::new();
            return Ok(out);
        }
        let n = self.row_count();
        let mut cand_idx: Vec<usize> = Vec::new();
        let mut cand_score: Vec<u64> = Vec::new();
        let mut k: usize = 0;
        while k < n
            invariant
                self.wf(),
                rows == self@.rows,
                n == rows.len(),
                k <= n,
                tv == views_of(terms@),
                forall|j: int| 0 <= j < tv.len() ==> (#[trigger] tv[j]).len() > 0,
                cand_idx@.len() == cand_score@.len(),
                forall|p: int|
                    0 <= p < cand_idx@.len() ==> ((#[trigger] cand_idx@[p]) as int) < k,
                forall|p: int|
                    0 <= p < cand_idx@.len() ==> matches_all(
                        rows[(#[trigger] cand_idx@[p]) as int],
                        tv,
                    ),
                forall|p: int|
                    0 <= p < cand_idx@.len() ==> (#[trigger] cand_score@[p]) as int == score(
                        rows[cand_idx@[p] as int],
                        tv,
                    ),
                forall|p: int, q: int|
                    0 <= p < q < cand_idx@.len() ==> (#[trigger] cand_idx@[p]) < (
                    #[trigger] cand_idx@[q]),
                forall|j: int|
                    0 <= j < k && matches_all(#[trigger] rows[j], tv) ==> idx_in(cand_idx@, j),
            decreases n - k,
        {
            let ghost pre_ci = cand_idx@;
            if self.row_matches_all_exec(k, &terms) {
                let s = self.score_row(k, &terms);
                cand_idx.push(k);
                cand_score.push(s);
                proof {
                    assert(cand_idx@[cand_idx@.len() - 1] == k);
                    assert forall|j: int|
                        0 <= j < k + 1 && matches_all(#[trigger] rows[j], tv) implies idx_in(
                        cand_idx@,
                        j,
                    ) by {
                        if j < k {
                            let p = choose|p: int|
                                0 <= p < pre_ci.len() && (#[trigger] pre_ci[p]) as int == j;
                            assert(cand_idx@[p] as int == j);
                        } else {
                            assert(cand_idx@[cand_idx@.len() - 1] as int == j);
                        }
                    }
                }
            }
            k += 1;
        }
        let limit_us: usize = limit as usize;
        let mut out: Vec<SearchResult> = Vec::new();
        let ghost mut chosen: Seq<int> = Seq::empty();
        while out.len() < limit_us && cand_idx.len() > 0
            invariant
                self.wf(),
                rows == self@.rows,
                n == rows.len(),
                tv == views_of(terms@),
                tv.len() > 0,
                forall|j: int| 0 <= j < tv.len() ==> (#[trigger] tv[j]).len() > 0,
                cand_idx@.len() == cand_score@.len(),
                forall|p: int| 0 <= p < cand_idx@.len() ==> ((#[trigger] cand_idx@[p]) as int) < n,
                forall|p: int|
                    0 <= p < cand_idx@.len() ==> matches_all(
                        rows[(#[trigger] cand_idx@[p]) as int],
                        tv,
                    ),
                forall|p: int|
                    0 <= p < cand_idx@.len() ==> (#[trigger] cand_score@[p]) as int == score(
                        rows[cand_idx@[p] as int],
                        tv,
                    ),
                forall|p: int, q: int|
                    0 <= p < q < cand_idx@.len() ==> (#[trigger] cand_idx@[p]) < (
                    #[trigger] cand_idx@[q]),
                chosen.len() == out@.len(),
                out@.len() <= limit_us,
                forall|i: int|
                    0 <= i < chosen.len() ==> 0 <= #[trigger] chosen[i] < n && matches_all(
                        rows[chosen[i]],
                        tv,
                    ),
                forall|i: int|
                    0 <= i < chosen.len() ==> (#[trigger] out@[i]).id as int == rows[chosen[i]].id
                        && out@[i].name@ == rows[chosen[i]].name && out@[i].hint@ == hint_of(
                        rows[chosen[i]].content,
                        tv,
                    ),
                forall|i: int, j: int|
                    0 <= i < j < chosen.len() ==> key_lt(
                        row_key(rows, tv, #[trigger] chosen[j]),
                        row_key(rows, tv, #[trigger] chosen[i]),
                    ),
                forall|i: int, p: int|
                    0 <= i < chosen.len() && 0 <= p < cand_idx@.len() ==> key_lt(
                        row_key(rows, tv, (#[trigger] cand_idx@[p]) as int),
                        row_key(rows, tv, #[trigger] chosen[i]),
                    ),
                forall|j: int|
                    0 <= j < n && matches_all(#[trigger] rows[j], tv) ==> idx_in(cand_idx@, j)
                        || chosen.contains(j),
            decreases cand_idx@.len(),
        {
            let mut best_p: usize = 0;
            let mut p: usize = 1;
            while p < cand_idx.len()
                invariant
                    self.wf(),
                    rows == self@.rows,
                    n == rows.len(),
                    tv == views_of(terms@),
                    cand_idx@.len() == cand_score@.len(),
                    cand_idx@.len() > 0,
                    forall|q: int|
                        0 <= q < cand_idx@.len() ==> ((#[trigger] cand_idx@[q]) as int) < n,
                    forall|q: int|
                        0 <= q < cand_idx@.len() ==> (#[trigger] cand_score@[q]) as int == score(
                            rows[cand_idx@[q] as int],
                            tv,
                        ),
                    forall|q: int, q2: int|
                        0 <= q < q2 < cand_idx@.len() ==> (#[trigger] cand_idx@[q]) < (
                        #[trigger] cand_idx@[q2]),
                    best_p < p,
                    p <= cand_idx@.len(),
                    forall|q: int|
                        0 <= q < p && q != best_p ==> key_lt(
                            row_key(rows, tv, (#[trigger] cand_idx@[q]) as int),
                            row_key(rows, tv, cand_idx@[best_p as int] as int),
                        ),
                decreases cand_idx@.len() - p,
            {
                proof {
                    if cand_idx@[p as int] != cand_idx@[best_p as int] {
                        if p < best_p {
                            assert(cand_idx@[p as int] < cand_idx@[best_p as int]);
                        } else {
                            assert(cand_idx@[best_p as int] < cand_idx@[p as int]);
                        }
                        let a = cand_idx@[p as int] as int;
                        let b = cand_idx@[best_p as int] as int;
                        if a < b {
                            assert(rows[a].id < rows[b].id);
                        } else {
                            assert(rows[b].id < rows[a].id);
                        }
                    }
                }
                if cand_score[p] > cand_score[best_p] || (cand_score[p] == cand_score[best_p]
                    && cand_idx[p] > cand_idx[best_p]) {
                    best_p = p;
                }
                p += 1;
            }
            let bi = cand_idx[best_p];
            let name = self.row_name_string(bi);
            let content_chars = self.row_content_chars(bi);
            let hint = build_hint(&content_chars, &terms);
            let id = self.row_id(bi);
            let ghost pre_chosen = chosen;
            let ghost pre_ci = cand_idx@;
            let ghost pre_cs = cand_score@;
            out.push(SearchResult { id, name, hint });
            proof {
                chosen = chosen.push(bi as int);
            }
            cand_idx.remove(best_p);
            cand_score.remove(best_p);
            proof {
                // every remaining candidate sits one to the left or stays put
                assert(forall|q: int|
                    0 <= q < cand_idx@.len() ==> (#[trigger] cand_idx@[q]) == (if q < best_p {
                        pre_ci[q]
                    } else {
                        pre_ci[q + 1]
                    }));
                assert(forall|q: int|
                    0 <= q < cand_score@.len() ==> (#[trigger] cand_score@[q]) == (if q < best_p {
                        pre_cs[q]
                    } else {
                        pre_cs[q + 1]
                    }));
                // conservation: a matching row still listed or now chosen
                assert forall|j: int|
                    0 <= j < n && matches_all(#[trigger] rows[j], tv) implies idx_in(cand_idx@, j)
                    || chosen.contains(j) by {
                    if idx_in(pre_ci, j) {
                        let q = choose|q: int| 0 <= q < pre_ci.len() && (#[trigger] pre_ci[q]) as int == j;
                        if q == best_p {
                            assert(chosen[chosen.len() - 1] == j);
                        } else if q < best_p {
                            assert(cand_idx@[q] as int == j);
                        } else {
                            assert(cand_idx@[q - 1] as int == j);
                        }
                    } else {
                        assert(pre_chosen.contains(j));
                        let i = choose|i: int| 0 <= i < pre_chosen.len() && pre_chosen[i] == j;
                        assert(chosen[i] == j);
                    }
                }
            }
        }
        proof {
            // the postcondition, piece by piece
            assert forall|i: int| 0 <= i < out@.len() implies result_corresponds(
                rows,
                tv,
                #[trigger] out@[i],
            ) by {
                assert(0 <= chosen[i] < n && rows[chosen[i]].id == out@[i].id as int);
            }
            assert forall|i: int, j: int| 0 <= i < j < out@.len() implies key_lt(
                key_of_id(rows, tv, (#[trigger] out@[j]).id as int),
                key_of_id(rows, tv, (#[trigger] out@[i]).id as int),
            ) by {
                lemma_key_of_id(rows, tv, chosen[i]);
                lemma_key_of_id(rows, tv, chosen[j]);
            }
            assert forall|k2: int|
                0 <= k2 < n && tv.len() > 0 && matches_all(#[trigger] rows[k2], tv) && !in_results(
                    out@,
                    rows[k2].id,
                ) implies out@.len() == limit as int && (forall|i: int|
                0 <= i < out@.len() ==> key_lt(
                    row_key(rows, tv, k2),
                    key_of_id(rows, tv, (#[trigger] out@[i]).id as int),
                )) by {
                if chosen.contains(k2) {
                    let i = choose|i: int| 0 <= i < chosen.len() && chosen[i] == k2;
                    assert(out@[i].id as int == rows[k2].id);
                    assert(false);
                }
                assert(idx_in(cand_idx@, k2));
                assert(cand_idx@.len() > 0);
                assert(out@.len() == limit as int);
                assert forall|i: int| 0 <= i < out@.len() implies key_lt(
                    row_key(rows, tv, k2),
                    key_of_id(rows, tv, (#[trigger] out@[i]).id as int),
                ) by {
                    let q = choose|q: int|
                        0 <= q < cand_idx@.len() && (#[trigger] cand_idx@[q]) as int == k2;
                    lemma_key_of_id(rows, tv, chosen[i]);
                }
            }
        }
        Ok(out)
    }
}

} // verus!
