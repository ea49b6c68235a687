//! Levenshtein edit distance, and the nearest-vocabulary-term lookup the
//! spelling corrector is built on.

use vstd::prelude::*;

verus! {

/// How far apart a query term may be from a vocabulary term for the
/// corrector still to substitute it.  A tunable, documented constant.
pub const MAX_EDIT_DISTANCE: usize = 2;

/// Levenshtein distance between the length-`i` prefix of `a` and the
/// length-`j` prefix of `b`: the least number of single-character
/// insertions, deletions and substitutions turning one into the other.
pub open spec fn prefix_dist(a: Seq<char>, b: Seq<char>, i: int, j: int) -> int
    decreases i + j,
{
    if i <= 0 || j <= 0 {
        if i <= 0 {
            if j <= 0 {
                0
            } else {
                j
            }
        } else {
            i
        }
    } else {
        let d_del = prefix_dist(a, b, i - 1, j) + 1;
        let d_ins = prefix_dist(a, b, i, j - 1) + 1;
        let d_sub = prefix_dist(a, b, i - 1, j - 1) + (if a[i - 1] == b[j - 1] {
            0int
        } else {
            1int
        });
        if d_sub <= d_del && d_sub <= d_ins {
            d_sub
        } else if d_del <= d_ins {
            d_del
        } else {
            d_ins
        }
    }
}

/// Levenshtein distance between `a` and `b`.
pub open spec fn dist(a: Seq<char>, b: Seq<char>) -> int {
    prefix_dist(a, b, a.len() as int, b.len() as int)
}

/// The distance between prefixes is at least zero and at most the longer
/// prefix length.
pub proof fn lemma_prefix_dist_bounds(a: Seq<char>, b: Seq<char>, i: int, j: int)
    requires
        0 <= i,
        0 <= j,
    ensures
        0 <= prefix_dist(a, b, i, j),
        prefix_dist(a, b, i, j) <= if i >= j {
            i
        } else {
            j
        },
    decreases i + j,
{
    if i > 0 && j > 0 {
        lemma_prefix_dist_bounds(a, b, i - 1, j);
        lemma_prefix_dist_bounds(a, b, i, j - 1);
        lemma_prefix_dist_bounds(a, b, i - 1, j - 1);
    }
}

/// Computes the Levenshtein distance by the usual row-by-row dynamic
/// programming recurrence.
pub fn edit_distance(a: &Vec<char>, b: &Vec<char>) -> (r: usize)
    ensures
        r == dist(a@, b@),
{
    let m: usize = a.len();
    let n: usize = b.len();
    let mut prev: Vec<usize> = Vec::new();
    prev.push(0);
    let mut j: usize = 0;
    while j < n
        invariant
            n == b@.len(),
            j <= n,
            prev@.len() == j + 1,
            forall|k: int| 0 <= k <= j ==> prev@[k] == prefix_dist(a@, b@, 0, k),
        decreases n - j,
    {
        prev.push(j + 1);
        j += 1;
    }
    let mut i: usize = 0;
    while i < m
        invariant
            m == a@.len(),
            n == b@.len(),
            i <= m,
            prev@.len() == n + 1,
            forall|k: int| 0 <= k <= n ==> prev@[k] == prefix_dist(a@, b@, i as int, k),
        decreases m - i,
    {
        let row = i + 1;
        let mut cur: Vec<usize> = Vec::new();
        cur.push(row);
        let mut j: usize = 0;
        while j < n
            invariant
                m == a@.len(),
                n == b@.len(),
                i < m,
                row == i + 1,
                j <= n,
                prev@.len() == n + 1,
                forall|k: int| 0 <= k <= n ==> prev@[k] == prefix_dist(a@, b@, i as int, k),
                cur@.len() == j + 1,
                forall|k: int| 0 <= k <= j ==> cur@[k] == prefix_dist(a@, b@, row as int, k),
            decreases n - j,
        {
            let up = prev[j + 1];
            let left = cur[j];
            let diag = prev[j];
            proof {
                lemma_prefix_dist_bounds(a@, b@, i as int, j as int);
                lemma_prefix_dist_bounds(a@, b@, i as int, j + 1);
                lemma_prefix_dist_bounds(a@, b@, row as int, j as int);
            }
            let cost: usize = if a[i] == b[j] {
                0
            } else {
                1
            };
            let d_sub = diag + cost;
            let d1 = if up >= d_sub {
                d_sub
            } else {
                up + 1
            };
            let d = if left >= d1 {
                d1
            } else {
                left + 1
            };
            proof {
                assert(d == prefix_dist(a@, b@, row as int, j + 1));
            }
            cur.push(d);
            j += 1;
        }
        prev = cur;
        i += 1;
    }
    prev[n]
}

/// The leftmost vocabulary term at the least edit distance from `term`,
/// with that distance: a later term replaces an earlier one only when it
/// is strictly closer.
pub open spec fn best_in(vocab: Seq<Seq<char>>, term: Seq<char>) -> Option<(Seq<char>, int)>
    decreases vocab.len(),
{
    if vocab.len() == 0 {
        None
    } else {
        let head = best_in(vocab.drop_last(), term);
        let cand = vocab.last();
        let d = dist(term, cand);
        match head {
            None => Some((cand, d)),
            Some(best) => if d < best.1 {
                Some((cand, d))
            } else {
                Some(best)
            },
        }
    }
}

/// The correction for `term`: the nearest vocabulary term, provided it is
/// within [`MAX_EDIT_DISTANCE`]; `None` when the vocabulary is empty or no
/// term is close enough.
pub open spec fn correction(vocab: Seq<Seq<char>>, term: Seq<char>) -> Option<Seq<char>> {
    match best_in(vocab, term) {
        Some(best) => if best.1 <= MAX_EDIT_DISTANCE {
            Some(best.0)
        } else {
            None
        },
        None => None,
    }
}

/// Finds the correction for `term` by scanning the whole vocabulary.
pub fn correct(vocab: &Vec<Vec<char>>, term: &Vec<char>) -> (r: Option<Vec<char>>)
    ensures
        match r {
            Some(t) => correction(crate::text::views_of(vocab@), term@) == Some(t@),
            None => correction(crate::text::views_of(vocab@), term@) is None,
        },
{
    let ghost vs = crate::text::views_of(vocab@);
    let mut best: Option<usize> = None;
    let mut best_d: usize = 0;
    let mut i: usize = 0;
    while i < vocab.len()
        invariant
            i <= vocab@.len(),
            vs == crate::text::views_of(vocab@),
            match best {
                None => i == 0 && best_in(vs.subrange(0, i as int), term@) is None,
                Some(k) => k < i && best_in(vs.subrange(0, i as int), term@) == Some(
                    (vocab@[k as int]@, best_d as int),
                ),
            },
        decreases vocab@.len() - i,
    {
        let d = edit_distance(term, &vocab[i]);
        proof {
            assert(vs.subrange(0, i + 1).drop_last() =~= vs.subrange(0, i as int));
            assert(vs.subrange(0, i + 1).last() == vocab@[i as int]@);
        }
        match best {
            None => {
                best = Some(i);
                best_d = d;
            },
            Some(_) => {
                if d < best_d {
                    best = Some(i);
                    best_d = d;
                }
            },
        }
        i += 1;
    }
    proof {
        assert(vs.subrange(0, vocab@.len() as int) =~= vs);
    }
    match best {
        Some(k) => {
            if best_d <= MAX_EDIT_DISTANCE {
                let mut out: Vec<char> = Vec::new();
                let chosen = &vocab[k];
                let mut i: usize = 0;
                while i < chosen.len()
                    invariant
                        i <= chosen@.len(),
                        out@ == chosen@.subrange(0, i as int),
                    decreases chosen@.len() - i,
                {
                    out.push(chosen[i]);
                    proof {
                        assert(out@ =~= chosen@.subrange(0, i + 1));
                    }
                    i += 1;
                }
                proof {
                    assert(out@ =~= chosen@);
                }
                Some(out)
            } else {
                None
            }
        },
        None => None,
    }
}

} // verus!
