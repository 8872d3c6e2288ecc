//! Splitting fed text into whitespace-delimited words.

use vstd::prelude::*;

verus! {

/// ASCII whitespace, the delimiter between words.
pub open spec fn is_space(c: char) -> bool {
    c == ' ' || c == '\t' || c == '\n' || c == '\r' || c == '\u{c}'
}

/// Length of the maximal leading run of non-whitespace characters.
pub open spec fn token_len(s: Seq<char>) -> int
    decreases s.len(),
{
    if s.len() == 0 || is_space(s[0]) {
        0
    } else {
        1 + token_len(s.drop_first())
    }
}

pub proof fn lemma_token_len_bounds(s: Seq<char>)
    ensures
        0 <= token_len(s) <= s.len(),
    decreases s.len(),
{
    if s.len() > 0 && !is_space(s[0]) {
        lemma_token_len_bounds(s.drop_first());
    }
}

/// The whitespace-separated tokens of `s`, in order; empty runs produce no
/// token.
pub open spec fn spec_tokens(s: Seq<char>) -> Seq<Seq<char>>
    decreases s.len(),
    via spec_tokens_decreases
{
    if s.len() == 0 {
        Seq::empty()
    } else if is_space(s[0]) {
        spec_tokens(s.drop_first())
    } else {
        seq![s.take(token_len(s))] + spec_tokens(s.skip(token_len(s)))
    }
}

#[via_fn]
proof fn spec_tokens_decreases(s: Seq<char>) {
    lemma_token_len_bounds(s);
    if s.len() > 0 && !is_space(s[0]) {
        lemma_token_len_bounds(s.drop_first());
    }
}

/// `token_len` is exactly the position of the first whitespace character (or
/// the whole length when there is none).
proof fn lemma_token_len_is(s: Seq<char>, m: int)
    requires
        0 <= m <= s.len(),
        forall|k: int| 0 <= k < m ==> !is_space(s[k]),
        m == s.len() || is_space(s[m]),
    ensures
        token_len(s) == m,
    decreases m,
{
    if m > 0 {
        lemma_token_len_is(s.drop_first(), m - 1);
    }
}

/// A text never holds more tokens than characters; with this a caller can
/// bound the work `feed` does from the text's length alone.
pub proof fn lemma_tokens_len_le(s: Seq<char>)
    ensures
        spec_tokens(s).len() <= s.len(),
    decreases s.len(),
{
    if s.len() > 0 {
        if is_space(s[0]) {
            lemma_tokens_len_le(s.drop_first());
        } else {
            lemma_token_len_bounds(s);
            lemma_token_len_bounds(s.drop_first());
            lemma_tokens_len_le(s.skip(token_len(s)));
        }
    }
}

/// The views of a vector of words.
pub open spec fn views_of(ws: Seq<String>) -> Seq<Seq<char>> {
    ws.map_values(|w: String| w@)
}

/// Whether a character is ASCII whitespace.
fn is_space_char(c: char) -> (r: bool)
    ensures
        r == is_space(c),
{
    c == ' ' || c == '\t' || c == '\n' || c == '\r' || c == '\u{c}'
}

/// Split `text` into its whitespace-separated words.
pub fn tokenize(text: &str) -> (r: Vec<String>)
    ensures
        views_of(r@) == spec_tokens(text@),
{
    let n = text.unicode_len();
    let mut out: Vec<String> = Vec::new();
    let mut i: usize = 0;
    proof {
        assert(text@.skip(0) =~= text@);
    }
    while i < n
        invariant
            n == text@.len(),
            i <= n,
            spec_tokens(text@) == views_of(out@) + spec_tokens(text@.skip(i as int)),
        decreases n - i,
    {
        let c = text.get_char(i);
        if is_space_char(c) {
            proof {
                assert(text@.skip(i as int).drop_first() =~= text@.skip(i + 1));
            }
            i = i + 1;
        } else {
            let mut j = i + 1;
            while j < n && !is_space_char(text.get_char(j))
                invariant
                    n == text@.len(),
                    i < j <= n,
                    forall|k: int| i <= k < j ==> !is_space(text@[k]),
                decreases n - j,
            {
                j = j + 1;
            }
            let tok = text.substring_char(i, j).to_owned();
            proof {
                let rest = text@.skip(i as int);
                lemma_token_len_is(rest, j - i);
                assert(rest.take(j - i) =~= text@.subrange(i as int, j as int));
                assert(rest.skip(j - i) =~= text@.skip(j as int));
                assert(spec_tokens(rest) == seq![tok@] + spec_tokens(text@.skip(j as int)));
                assert(views_of(out@.push(tok)) =~= views_of(out@) + seq![tok@]);
                assert(views_of(out@) + (seq![tok@] + spec_tokens(text@.skip(j as int))) =~= (
                views_of(out@) + seq![tok@]) + spec_tokens(text@.skip(j as int)));
            }
            out.push(tok);
            i = j;
        }
    }
    proof {
        assert(spec_tokens(text@.skip(n as int)) =~= Seq::<Seq<char>>::empty());
        assert(views_of(out@) + Seq::<Seq<char>>::empty() =~= views_of(out@));
    }
    out
}

} // verus!
