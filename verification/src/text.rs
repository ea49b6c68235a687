//! Character-level utilities shared by the store and the search engine:
//! ASCII lower-casing, whitespace tokenization, and substring matching.

use vstd::prelude::*;
use vstd::string::StrSliceExecFns;

verus! {

/// The characters a query is split on: the Unicode white-space set
/// (horizontal tab through carriage return, space, next line, no-break
/// space, ogham space mark, the en-quad..hair-space range, the line and
/// paragraph separators, narrow no-break space, medium mathematical space,
/// and ideographic space).
pub open spec fn is_space(c: char) -> bool {
    ||| c == ' '
    ||| ('\u{9}' <= c && c <= '\u{D}')
    ||| c == '\u{85}'
    ||| c == '\u{A0}'
    ||| c == '\u{1680}'
    ||| ('\u{2000}' <= c && c <= '\u{200A}')
    ||| c == '\u{2028}'
    ||| c == '\u{2029}'
    ||| c == '\u{202F}'
    ||| c == '\u{205F}'
    ||| c == '\u{3000}'
}

/// ASCII lower-casing of one character; everything outside 'A'..='Z' is kept.
pub open spec fn lower_char(c: char) -> char {
    if 'A' <= c && c <= 'Z' {
        (((c as u32) + 32) as char)
    } else {
        c
    }
}

/// ASCII lower-casing of a whole character sequence.
pub open spec fn lower(s: Seq<char>) -> Seq<char> {
    s.map(|_i: int, c: char| lower_char(c))
}

/// Relies on char::from_u32: it returns `Some` exactly on Unicode scalar
/// values (everything below the surrogate range, and the range from the end
/// of the surrogates up to the largest code point), and the character it
/// returns casts back to the given number.
pub assume_specification[ char::from_u32 ](u: u32) -> (r: Option<char>)
    ensures
        (u < 0xD800 || (0xE000 <= u && u <= 0x10FFFF)) <==> r is Some,
        r matches Some(c) ==> c as u32 == u,
;

/// Executable counterpart of [`is_space`].
pub fn space_char(c: char) -> (r: bool)
    ensures
        r == is_space(c),
{
    c == ' ' || ('\u{9}' <= c && c <= '\u{D}') || c == '\u{85}' || c == '\u{A0}' || c == '\u{1680}'
        || ('\u{2000}' <= c && c <= '\u{200A}') || c == '\u{2028}' || c == '\u{2029}'
        || c == '\u{202F}' || c == '\u{205F}' || c == '\u{3000}'
}

/// Executable counterpart of [`lower_char`].
pub fn lower_char_exec(c: char) -> (r: char)
    ensures
        r == lower_char(c),
{
    if 'A' <= c && c <= 'Z' {
        let u: u32 = (c as u32) + 32;
        let low: char = char::from_u32(u).unwrap();
        proof {
            vstd::utf8::char_u32_cast(low, u);
        }
        low
    } else {
        c
    }
}

/// Copies the characters of a string slice into a vector, so that the
/// algorithms below can index them in constant time.
pub fn chars_of(s: &str) -> (r: Vec<char>)
    ensures
        r@ == s@,
{
    let n: usize = s.unicode_len();
    let mut r: Vec<char> = Vec::new();
    let mut i: usize = 0;
    while i < n
        invariant
            i <= n,
            n == s@.len(),
            r@ == s@.subrange(0, i as int),
        decreases n - i,
    {
        r.push(s.get_char(i));
        proof {
            assert(r@ =~= s@.subrange(0, i + 1));
        }
        i += 1;
    }
    proof {
        assert(r@ =~= s@);
    }
    r
}

/// The whitespace-separated tokens of `s`, in order, built left to right:
/// a non-space character either extends the token in progress (when the
/// character before it was also non-space) or opens a new one.
pub open spec fn tokens(s: Seq<char>) -> Seq<Seq<char>>
    decreases s.len(),
{
    if s.len() == 0 {
        Seq::empty()
    } else {
        let rest = tokens(s.drop_last());
        let c = s.last();
        if is_space(c) {
            rest
        } else if s.len() >= 2 && !is_space(s[s.len() - 2]) {
            rest.update(rest.len() - 1, rest.last().push(c))
        } else {
            rest.push(seq![c])
        }
    }
}

/// The views of a sequence of character vectors.
pub open spec fn views_of(ts: Seq<Vec<char>>) -> Seq<Seq<char>> {
    Seq::new(ts.len(), |i: int| ts[i]@)
}

/// Splits `s` on ASCII whitespace into its ordered tokens.
pub fn tokenize(s: &Vec<char>) -> (r: Vec<Vec<char>>)
    ensures
        views_of(r@) == tokens(s@),
{
    let n: usize = s.len();
    let mut res: Vec<Vec<char>> = Vec::new();
    let mut cur: Vec<char> = Vec::new();
    let mut i: usize = 0;
    while i < n
        invariant
            i <= n,
            n == s@.len(),
            cur@.len() == 0 ==> tokens(s@.subrange(0, i as int)) == views_of(res@) && (i == 0
                || is_space(s@[i - 1])),
            cur@.len() > 0 ==> tokens(s@.subrange(0, i as int)) == views_of(res@).push(cur@) && i
                > 0 && !is_space(s@[i - 1]),
        decreases n - i,
    {
        let c = s[i];
        proof {
            assert(s@.subrange(0, i + 1).drop_last() =~= s@.subrange(0, i as int));
            assert(s@.subrange(0, i + 1).last() == s@[i as int]);
        }
        if space_char(c) {
            if cur.len() > 0 {
                let ghost old_res = res@;
                let ghost cur_v = cur@;
                res.push(cur);
                cur = Vec::new();
                proof {
                    assert(views_of(res@) =~= views_of(old_res).push(cur_v));
                }
            }
        } else {
            if cur.len() == 0 {
                cur.push(c);
                proof {
                    assert(cur@ =~= seq![s@[i as int]]);
                }
            } else {
                let ghost old_cur = cur@;
                cur.push(c);
                proof {
                    let full = views_of(res@).push(old_cur);
                    assert(full.update(full.len() - 1, full.last().push(s@[i as int]))
                        =~= views_of(res@).push(cur@));
                }
            }
        }
        i += 1;
    }
    proof {
        assert(s@.subrange(0, n as int) =~= s@);
    }
    if cur.len() > 0 {
        let ghost old_res = res@;
        let ghost cur_v = cur@;
        res.push(cur);
        proof {
            assert(views_of(res@) =~= views_of(old_res).push(cur_v));
        }
    }
    res
}

/// Every token is non-empty, and a sequence ending in a non-space character
/// has at least one token.
pub proof fn lemma_tokens_nonempty(s: Seq<char>)
    ensures
        forall|i: int| 0 <= i < tokens(s).len() ==> (#[trigger] tokens(s)[i]).len() > 0,
        s.len() > 0 && !is_space(s.last()) ==> tokens(s).len() > 0,
    decreases s.len(),
{
    if s.len() > 0 {
        lemma_tokens_nonempty(s.drop_last());
        let rest = tokens(s.drop_last());
        let c = s.last();
        if !is_space(c) && s.len() >= 2 && !is_space(s[s.len() - 2]) {
            assert(s.drop_last().len() > 0);
            assert(s.drop_last().last() == s[s.len() - 2]);
            assert(rest.len() > 0);
        }
    }
}

/// Are two character vectors equal?
pub fn eq_chars(a: &Vec<char>, b: &Vec<char>) -> (r: bool)
    ensures
        r == (a@ == b@),
{
    if a.len() != b.len() {
        return false;
    }
    let mut i: usize = 0;
    while i < a.len()
        invariant
            a@.len() == b@.len(),
            i <= a@.len(),
            forall|j: int| 0 <= j < i ==> a@[j] == b@[j],
        decreases a@.len() - i,
    {
        if a[i] != b[i] {
            return false;
        }
        i += 1;
    }
    proof {
        assert(a@ =~= b@);
    }
    true
}

/// Copies a character vector.
pub fn copy_chars(a: &Vec<char>) -> (r: Vec<char>)
    ensures
        r@ == a@,
{
    let mut out: Vec<char> = Vec::new();
    let mut i: usize = 0;
    while i < a.len()
        invariant
            i <= a@.len(),
            out@ == a@.subrange(0, i as int),
        decreases a@.len() - i,
    {
        out.push(a[i]);
        proof {
            assert(out@ =~= a@.subrange(0, i + 1));
        }
        i += 1;
    }
    proof {
        assert(out@ =~= a@);
    }
    out
}

/// `nd` occurs in `hay` starting at position `i`.
pub open spec fn contains_at(hay: Seq<char>, nd: Seq<char>, i: int) -> bool {
    0 <= i && i + nd.len() <= hay.len() && hay.subrange(i, i + nd.len()) == nd
}

/// `nd` occurs somewhere in `hay`.
pub open spec fn contains_seq(hay: Seq<char>, nd: Seq<char>) -> bool {
    exists|i: int| contains_at(hay, nd, i)
}

/// Does `nd` occur in `hay` starting at `i`?
fn match_at(hay: &Vec<char>, nd: &Vec<char>, i: usize) -> (r: bool)
    requires
        i + nd@.len() <= hay@.len(),
    ensures
        r == contains_at(hay@, nd@, i as int),
{
    let hay_len: usize = hay.len();
    let mut k: usize = 0;
    while k < nd.len()
        invariant
            k <= nd@.len(),
            i + nd@.len() <= hay@.len(),
            hay@.len() == hay_len,
            forall|j: int| 0 <= j < k ==> hay@[i + j] == nd@[j],
        decreases nd@.len() - k,
    {
        if hay[i + k] != nd[k] {
            proof {
                assert(hay@.subrange(i as int, i + nd@.len())[k as int] == hay@[i + k]);
            }
            return false;
        }
        k += 1;
    }
    proof {
        assert(hay@.subrange(i as int, i + nd@.len()) =~= nd@);
    }
    true
}

/// The first position at which `nd` occurs in `hay`, if any.
pub fn find_first(hay: &Vec<char>, nd: &Vec<char>) -> (r: Option<usize>)
    requires
        nd@.len() > 0,
    ensures
        match r {
            Some(i) => contains_at(hay@, nd@, i as int) && forall|j: int|
                0 <= j < i ==> !contains_at(hay@, nd@, j),
            None => !contains_seq(hay@, nd@),
        },
{
    if nd.len() > hay.len() {
        return None;
    }
    let last: usize = hay.len() - nd.len();
    let mut i: usize = 0;
    while i <= last
        invariant
            nd@.len() > 0,
            last == hay@.len() - nd@.len(),
            hay@.len() <= usize::MAX,
            i <= last + 1,
            forall|j: int| 0 <= j < i ==> !contains_at(hay@, nd@, j),
        decreases last + 1 - i,
    {
        if match_at(hay, nd, i) {
            return Some(i);
        }
        i += 1;
    }
    None
}

/// `nd` occurs somewhere in `hay` (executable).
pub fn contains_chars(hay: &Vec<char>, nd: &Vec<char>) -> (r: bool)
    requires
        nd@.len() > 0,
    ensures
        r == contains_seq(hay@, nd@),
{
    find_first(hay, nd).is_some()
}

/// The number of positions at or after `i` where `nd` occurs in `hay`.
pub open spec fn occ_from(hay: Seq<char>, nd: Seq<char>, i: int) -> nat
    decreases hay.len() + 1 - i,
{
    if !(0 <= i && i + nd.len() <= hay.len()) {
        0
    } else {
        (if contains_at(hay, nd, i) {
            1nat
        } else {
            0nat
        }) + occ_from(hay, nd, i + 1)
    }
}

/// How often `nd` occurs in `hay`, counting every start position.
pub open spec fn occurrences(hay: Seq<char>, nd: Seq<char>) -> nat {
    occ_from(hay, nd, 0)
}

/// Counts the occurrences of `nd` in `hay`.
pub fn count_occurrences(hay: &Vec<char>, nd: &Vec<char>) -> (r: usize)
    requires
        nd@.len() > 0,
    ensures
        r == occurrences(hay@, nd@),
{
    if nd.len() > hay.len() {
        return 0;
    }
    let last: usize = hay.len() - nd.len();
    let mut count: usize = 0;
    let mut i: usize = 0;
    while i <= last
        invariant
            nd@.len() > 0,
            last == hay@.len() - nd@.len(),
            hay@.len() <= usize::MAX,
            i <= last + 1,
            count <= i,
            count + occ_from(hay@, nd@, i as int) == occurrences(hay@, nd@),
        decreases last + 1 - i,
    {
        if match_at(hay, nd, i) {
            count += 1;
        }
        i += 1;
    }
    count
}

/// Lower-cases a whole character vector.
pub fn lower_vec(s: &Vec<char>) -> (r: Vec<char>)
    ensures
        r@ == lower(s@),
{
    let mut r: Vec<char> = Vec::new();
    let mut i: usize = 0;
    while i < s.len()
        invariant
            i <= s@.len(),
            r@.len() == i,
            forall|j: int| 0 <= j < i ==> r@[j] == lower_char(s@[j]),
        decreases s@.len() - i,
    {
        r.push(lower_char_exec(s[i]));
        i += 1;
    }
    proof {
        assert(r@ =~= lower(s@));
    }
    r
}

/// The views of a sequence of strings.
pub open spec fn string_views(ts: Seq<String>) -> Seq<Seq<char>> {
    Seq::new(ts.len(), |i: int| ts[i]@)
}

/// How many characters of a snippet's content a preview keeps.
pub const PREVIEW_LEN: usize = 63;

/// Newlines flattened to spaces, so a preview stays on one line.
pub open spec fn flatten_newlines(s: Seq<char>) -> Seq<char> {
    s.map(|_i: int, c: char| if c == '\n' {
        ' '
    } else {
        c
    })
}

/// The one-line preview of a snippet's content: its first characters, up to
/// [`PREVIEW_LEN`], newlines flattened, with an ellipsis marker appended
/// only when the content was actually truncated.
pub open spec fn preview(content: Seq<char>) -> Seq<char> {
    if content.len() <= PREVIEW_LEN {
        flatten_newlines(content)
    } else {
        flatten_newlines(content.take(PREVIEW_LEN as int)) + seq!['.', '.']
    }
}

/// Builds the one-line preview of `content`.
pub fn make_preview(content: &str) -> (r: String)
    ensures
        r@ == preview(content@),
{
    let cs = chars_of(content);
    make_preview_chars(&cs)
}

/// Builds the one-line preview of a content given as characters.
pub fn make_preview_chars(cs: &Vec<char>) -> (r: String)
    ensures
        r@ == preview(cs@),
{
    let n: usize = cs.len();
    let keep: usize = if n <= PREVIEW_LEN {
        n
    } else {
        PREVIEW_LEN
    };
    let mut out: Vec<char> = Vec::new();
    let mut i: usize = 0;
    while i < keep
        invariant
            keep <= cs@.len(),
            i <= keep,
            out@.len() == i,
            forall|j: int|
                0 <= j < i ==> out@[j] == (if cs@[j] == '\n' {
                    ' '
                } else {
                    cs@[j]
                }),
        decreases keep - i,
    {
        let c = cs[i];
        if c == '\n' {
            out.push(' ');
        } else {
            out.push(c);
        }
        i += 1;
    }
    if n > PREVIEW_LEN {
        out.push('.');
        out.push('.');
    }
    proof {
        assert(out@ =~= preview(cs@));
    }
    string_of(&out)
}

/// Relies on String::push: it appends exactly the one given character.
#[verifier::external_body]
fn push_char(s: &mut String, c: char)
    ensures
        final(s)@ == old(s)@.push(c),
{
    s.push(c);
}

/// Builds a string out of a character vector.
pub fn string_of(chars: &Vec<char>) -> (r: String)
    ensures
        r@ == chars@,
{
    let mut r = String::new();
    let mut i: usize = 0;
    while i < chars.len()
        invariant
            i <= chars@.len(),
            r@ == chars@.subrange(0, i as int),
        decreases chars@.len() - i,
    {
        push_char(&mut r, chars[i]);
        proof {
            assert(r@ =~= chars@.subrange(0, i + 1));
        }
        i += 1;
    }
    proof {
        assert(chars@.subrange(0, chars@.len() as int) =~= chars@);
    }
    r
}

} // verus!
