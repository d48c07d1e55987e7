//! Text primitives: Unicode case mapping, whitespace, and tokenization.

use vstd::prelude::*;

verus! {

/// Whether `c` is whitespace in Unicode's sense, as `char::is_whitespace` decides it.
pub uninterp spec fn is_whitespace(c: char) -> bool;

/// The Unicode upper-case mapping of `s`, as `str::to_uppercase` computes it.
pub uninterp spec fn uppercase(s: Seq<char>) -> Seq<char>;

/// The Unicode lower-case mapping of `s`, as `str::to_lowercase` computes it.
pub uninterp spec fn lowercase(s: Seq<char>) -> Seq<char>;

/// Calls `char::is_whitespace`. Trusted: the result is the whitespace
/// predicate of the character, which this crate leaves uninterpreted.
#[verifier::external_body]
fn char_is_whitespace(c: char) -> (b: bool)
    ensures
        b == is_whitespace(c),
{
    c.is_whitespace()
}

/// Calls `str::to_uppercase`. Trusted: the result is the upper-case mapping
/// of the argument, a function of its characters alone.
#[verifier::external_body]
pub(crate) fn str_to_uppercase(s: &str) -> (r: String)
    ensures
        r@ == uppercase(s@),
{
    s.to_uppercase()
}

/// Calls `str::to_lowercase`. Trusted: the result is the lower-case mapping
/// of the argument, a function of its characters alone.
#[verifier::external_body]
pub(crate) fn str_to_lowercase(s: &str) -> (r: String)
    ensures
        r@ == lowercase(s@),
{
    s.to_lowercase()
}

/// The length of the longest prefix of `s` that holds no whitespace.
pub open spec fn token_len(s: Seq<char>) -> nat
    decreases s.len(),
{
    if s.len() == 0 || is_whitespace(s[0]) {
        0
    } else {
        1 + token_len(s.drop_first())
    }
}

/// The whitespace-separated tokens of `s`: the maximal runs of characters
/// that are not whitespace, in the order in which they occur.
pub open spec fn split_tokens(s: Seq<char>) -> Seq<Seq<char>>
    decreases s.len(),
{
    if s.len() == 0 {
        Seq::empty()
    } else if is_whitespace(s[0]) {
        split_tokens(s.drop_first())
    } else {
        let n = token_len(s) as int;
        proof {
            lemma_token_len_bounds(s);
        }
        seq![s.take(n)] + split_tokens(s.skip(n))
    }
}

/// What the items of `items` stand for, one by one.
pub open spec fn views<T: View>(items: Seq<T>) -> Seq<T::V> {
    items.map_values(|item: T| item@)
}

/// A token never runs past the end of the text, and is not empty where the
/// text starts with a character that is not whitespace.
pub proof fn lemma_token_len_bounds(s: Seq<char>)
    ensures
        token_len(s) <= s.len(),
        s.len() > 0 && !is_whitespace(s[0]) ==> token_len(s) >= 1,
    decreases s.len(),
{
    if s.len() > 0 && !is_whitespace(s[0]) {
        lemma_token_len_bounds(s.drop_first());
    }
}

/// A prefix of `n` characters without whitespace that ends the text, or
/// that whitespace follows, is the leading token.
pub proof fn lemma_token_len_is(s: Seq<char>, n: int)
    requires
        0 <= n <= s.len(),
        forall|k: int| 0 <= k < n ==> !is_whitespace(#[trigger] s[k]),
        n == s.len() || is_whitespace(s[n]),
    ensures
        token_len(s) == n,
    decreases n,
{
    if n > 0 {
        lemma_token_len_is(s.drop_first(), n - 1);
    }
}

/// Splits `s` at whitespace into its tokens, each of them a slice of `s`.
pub fn tokenize<'a>(s: &'a str) -> (toks: Vec<&'a str>)
    ensures
        views(toks@) == split_tokens(s@),
{
    // The length in characters bounds the positions counted below.
    let n: usize = s.unicode_len();
    let mut toks: Vec<&'a str> = Vec::new();
    let mut start: Option<usize> = None;
    let mut i: usize = 0;
    proof {
        assert(s@.skip(0) =~= s@);
    }
    for c in it: s.chars()
        invariant
            it.seq() == s@,
            n == s@.len(),
            i == it.index(),
            match start {
                None => split_tokens(s@) == views(toks@) + split_tokens(s@.skip(i as int)),
                Some(st) => {
                    &&& st < i
                    &&& forall|k: int| st <= k < i ==> !is_whitespace(#[trigger] s@[k])
                    &&& split_tokens(s@) == views(toks@) + split_tokens(
                        s@.skip(st as int),
                    )
                },
            },
    {
        if char_is_whitespace(c) {
            match start {
                Some(st) => {
                    let tok = s.substring_char(st, i);
                    proof {
                        lemma_split_after_token(s@, st as int, i as int);
                        lemma_split_skip_whitespace(s@, i as int);
                    }
                    toks.push(tok);
                    start = None;
                },
                None => {
                    proof {
                        lemma_split_skip_whitespace(s@, i as int);
                    }
                },
            }
        } else if start.is_none() {
            start = Some(i);
        }
        i = i + 1;
    }
    match start {
        Some(st) => {
            let tok = s.substring_char(st, i);
            proof {
                lemma_split_after_token(s@, st as int, i as int);
            }
            toks.push(tok);
        },
        None => {},
    }
    toks
}

/// Whitespace at position `i` belongs to no token.
proof fn lemma_split_skip_whitespace(s: Seq<char>, i: int)
    requires
        0 <= i < s.len(),
        is_whitespace(s[i]),
    ensures
        split_tokens(s.skip(i)) == split_tokens(s.skip(i + 1)),
{
    assert(s.skip(i).drop_first() =~= s.skip(i + 1));
}

/// A run without whitespace from `st` to `i`, ended by whitespace or by
/// the end of the text, is the first token at `st`.
proof fn lemma_split_after_token(s: Seq<char>, st: int, i: int)
    requires
        0 <= st < i <= s.len(),
        forall|k: int| st <= k < i ==> !is_whitespace(#[trigger] s[k]),
        i == s.len() || is_whitespace(s[i]),
    ensures
        split_tokens(s.skip(st)) == seq![s.subrange(st, i)] + split_tokens(s.skip(i)),
{
    let t = s.skip(st);
    lemma_token_len_is(t, i - st);
    assert(t.take(i - st) =~= s.subrange(st, i));
    assert(t.skip(i - st) =~= s.skip(i));
}

} // verus!
