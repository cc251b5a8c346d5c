//! The laws of the stack machine, stated over the same functions that the
//! contracts of the evaluator use.

use vstd::prelude::*;
use crate::numbers::{digits_of, has_sign, is_digit, is_literal, literal_val};
use crate::semantics::{lemma_lookup_some, lookup, resolve, step_op, swap_top, DefView, Instruction};
use crate::text::{norm, upper_char};
use crate::Error;

verus! {

/// Law: duplicating the top of a non-empty stack and then dropping the copy
/// restores the original stack exactly.
pub proof fn lemma_dup_then_drop(stack: Seq<i32>)
    requires
        stack.len() > 0,
    ensures
        step_op(Instruction::Dup, stack) == Ok::<Seq<i32>, Error>(stack.push(stack.last())),
        step_op(Instruction::Drop, stack.push(stack.last())) == Ok::<Seq<i32>, Error>(stack),
{
    assert(stack.push(stack.last()).drop_last() =~= stack);
}

/// Law: exchanging the top two values of a stack with at least two values,
/// twice, restores the original stack exactly.
pub proof fn lemma_swap_twice(stack: Seq<i32>)
    requires
        stack.len() >= 2,
    ensures
        step_op(Instruction::Swap, stack) == Ok::<Seq<i32>, Error>(swap_top(stack)),
        step_op(Instruction::Swap, swap_top(stack)) == Ok::<Seq<i32>, Error>(stack),
{
    assert(swap_top(swap_top(stack)) =~= stack);
}

/// Law: resolution under a scoping bound can only invoke a strictly earlier
/// definition, and it invokes the latest one of the word's canonical name.
/// This is what keeps every expansion of a user-defined word finite: a word
/// can call neither itself nor anything defined after it.
pub proof fn lemma_scoping_bound(defs: Seq<DefView>, word: Seq<char>, bound: int)
    requires
        defs.len() <= usize::MAX,
    ensures
        resolve(defs, word, bound) matches Some(Instruction::CallDefinition(i))
            ==> (i as int) < bound && (i as int) < defs.len() && defs[i as int].name == norm(word),
{
    lemma_lookup_some(defs, norm(word), bound);
    let looked = lookup(defs, norm(word), bound);
    if looked is Some {
        assert(0 <= looked->0 < bound);
    }
}

proof fn lemma_upper_char_facts(c: char)
    ensures
        upper_char(upper_char(c)) == upper_char(c),
        is_digit(upper_char(c)) == is_digit(c),
        (upper_char(c) == '+') == (c == '+'),
        (upper_char(c) == '-') == (c == '-'),
        is_digit(c) || c == '+' || c == '-' ==> upper_char(c) == c,
{
}

/// Canonicalising a word is idempotent.
pub proof fn lemma_norm_idempotent(s: Seq<char>)
    ensures
        norm(norm(s)) == norm(s),
{
    assert forall|i: int| 0 <= i < s.len() implies upper_char(upper_char(s[i])) == upper_char(
        s[i],
    ) by {
        lemma_upper_char_facts(s[i]);
    }
    assert(norm(norm(s)) =~= norm(s));
}

/// Canonicalisation does not create or destroy numeric literals: a literal
/// is made of signs and digits, which it leaves unchanged.
pub proof fn lemma_literal_case_insensitive(s: Seq<char>)
    ensures
        is_literal(norm(s)) == is_literal(s),
        is_literal(s) ==> norm(s) == s,
{
    if is_literal(s) {
        assert forall|i: int| 0 <= i < s.len() implies upper_char(s[i]) == s[i] by {
            if has_sign(s) && i == 0 {
            } else {
                let j = if has_sign(s) {
                    i - 1
                } else {
                    i
                };
                assert(digits_of(s)[j] == s[i]);
                assert(is_digit(s[i]));
            }
            lemma_upper_char_facts(s[i]);
        }
        assert(norm(s) =~= s);
    }
    if is_literal(norm(s)) {
        let n = norm(s);
        assert forall|i: int| 0 <= i < s.len() implies upper_char(s[i]) == s[i] by {
            if has_sign(n) && i == 0 {
            } else {
                let j = if has_sign(n) {
                    i - 1
                } else {
                    i
                };
                assert(digits_of(n)[j] == n[i]);
                assert(is_digit(n[i]));
            }
            lemma_upper_char_facts(s[i]);
        }
        assert(norm(s) =~= s);
    }
}

/// Law: token resolution is case-insensitive. A word and its canonical
/// (upper-case) form resolve to the same instruction under every definition
/// table and every scoping bound; in particular, a definition is invocable
/// under any casing of its name, and the built-ins under any casing of
/// theirs.
pub proof fn lemma_resolve_case_insensitive(defs: Seq<DefView>, word: Seq<char>, bound: int)
    ensures
        resolve(defs, word, bound) == resolve(defs, norm(word), bound),
{
    lemma_norm_idempotent(word);
    lemma_literal_case_insensitive(word);
    if is_literal(word) {
        assert(literal_val(norm(word)) == literal_val(word));
    }
}

} // verus!
