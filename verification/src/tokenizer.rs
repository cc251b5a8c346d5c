//! Splitting an input line into whitespace-delimited tokens, preserving the
//! original casing of each token.

use vstd::prelude::*;
use vstd::string::*;
use crate::text::{is_space, is_space_char, views_of};

verus! {

/// The length of the maximal non-whitespace prefix.
pub open spec fn first_word_len(s: Seq<char>) -> nat
    decreases s.len(),
{
    if s.len() == 0 || is_space(s[0]) {
        0
    } else {
        1 + first_word_len(s.drop_first())
    }
}

proof fn lemma_first_word_len_le(s: Seq<char>)
    ensures
        first_word_len(s) <= s.len(),
    decreases s.len(),
{
    if s.len() > 0 && !is_space(s[0]) {
        lemma_first_word_len_le(s.drop_first());
    }
}

/// The whitespace-delimited tokens of the input, in order.
pub open spec fn tokens_of(s: Seq<char>) -> Seq<Seq<char>>
    decreases s.len(),
    via tokens_of_decreases
{
    if s.len() == 0 {
        Seq::empty()
    } else if is_space(s[0]) {
        tokens_of(s.drop_first())
    } else {
        let k = 1 + first_word_len(s.drop_first());
        seq![s.take(k as int)] + tokens_of(s.skip(k as int))
    }
}

#[via_fn]
proof fn tokens_of_decreases(s: Seq<char>) {
    if s.len() > 0 && !is_space(s[0]) {
        lemma_first_word_len_le(s.drop_first());
    }
}

/// A word runs to the first whitespace character at or after its start.
proof fn lemma_first_word_len_at(s: Seq<char>, m: int)
    requires
        0 <= m <= s.len(),
        forall|k: int| 0 <= k < m ==> !is_space(#[trigger] s[k]),
        m == s.len() || is_space(s[m]),
    ensures
        first_word_len(s) == m,
    decreases s.len(),
{
    if m == 0 {
    } else {
        lemma_first_word_len_at(s.drop_first(), m - 1);
    }
}

/// Scans from `start` (a non-space position) to the end of the current word.
fn word_end(s: &str, n: usize, start: usize) -> (j: usize)
    requires
        n == s@.len(),
        start < n,
        !is_space(s@[start as int]),
    ensures
        start < j <= n,
        j - start == first_word_len(s@.skip(start as int)),
{
    let mut j = start;
    let mut done = false;
    while !done
        invariant
            n == s@.len(),
            start <= j <= n,
            forall|k: int| start <= k < j ==> !is_space(#[trigger] s@[k]),
            done ==> j == n || is_space(s@[j as int]),
        decreases n - j + (if done {
            0int
        } else {
            1int
        }),
    {
        if j >= n {
            done = true;
        } else {
            let c = s.get_char(j);
            if is_space_char(c) {
                done = true;
            } else {
                j += 1;
            }
        }
    }
    proof {
        assert forall|k: int| 0 <= k < j - start implies !is_space(
            #[trigger] s@.skip(start as int)[k],
        ) by {
            assert(s@.skip(start as int)[k] == s@[start + k]);
        }
        if j < n {
            assert(s@.skip(start as int)[j - start] == s@[j as int]);
        }
        lemma_first_word_len_at(s@.skip(start as int), j - start);
    }
    j
}

/// Splits the input into its whitespace-delimited tokens.
pub fn tokenize(s: &str) -> (r: Vec<String>)
    ensures
        views_of(r@) == tokens_of(s@),
{
    let n = s.unicode_len();
    let mut toks: Vec<String> = Vec::new();
    let mut i: usize = 0;
    proof {
        assert(s@.skip(0) =~= s@);
        assert(views_of(toks@) + tokens_of(s@) =~= tokens_of(s@));
    }
    while i < n
        invariant
            i <= n,
            n == s@.len(),
            tokens_of(s@) == views_of(toks@) + tokens_of(s@.skip(i as int)),
        decreases n - i,
    {
        let c = s.get_char(i);
        if is_space_char(c) {
            proof {
                assert(s@.skip(i as int).drop_first() =~= s@.skip(i + 1));
            }
            i += 1;
        } else {
            let j = word_end(s, n, i);
            let w = s.substring_char(i, j);
            let tok = String::from_str(w);
            toks.push(tok);
            proof {
                let rest = s@.skip(i as int);
                assert(rest.drop_first() =~= s@.skip(i + 1));
                assert(first_word_len(s@.skip(i + 1)) == first_word_len(rest.drop_first()));
                let k = 1 + first_word_len(rest.drop_first());
                assert(k == j - i);
                assert(rest.take(k as int) =~= s@.subrange(i as int, j as int));
                assert(rest.skip(k as int) =~= s@.skip(j as int));
                assert(tokens_of(rest) == seq![s@.subrange(i as int, j as int)] + tokens_of(
                    s@.skip(j as int),
                ));
                assert(views_of(toks@) =~= views_of(toks@.drop_last()) + seq![tok@]);
                assert(views_of(toks@.drop_last()) + seq![tok@] + tokens_of(s@.skip(j as int))
                    =~= views_of(toks@.drop_last()) + (seq![tok@] + tokens_of(s@.skip(j as int))));
            }
            i = j;
        }
    }
    proof {
        assert(s@.skip(n as int) =~= Seq::<char>::empty());
        assert(views_of(toks@) + tokens_of(s@.skip(n as int)) =~= views_of(toks@));
    }
    toks
}

} // verus!
