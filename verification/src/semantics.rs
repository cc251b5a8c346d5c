//! The meaning of a program, stated over mathematical values: token
//! resolution under a scoping bound, the stack effect of every instruction,
//! and the recursive expansion of user-defined words. The executable
//! evaluator is proved against these functions.

use vstd::prelude::*;
use crate::numbers::{is_literal, literal_val};
use crate::text::norm;
use crate::Error;

verus! {

/// A resolved, executable unit, produced from one token and consumed at once.
#[derive(Debug)]
pub enum Instruction {
    Number(i32),
    Add,
    Subtract,
    Multiply,
    Divide,
    Dup,
    Drop,
    Over,
    Swap,
    CallDefinition(usize),
}

/// The mathematical content of one stored word definition.
pub struct DefView {
    pub name: Seq<char>,
    pub body: Seq<Seq<char>>,
}

/// The highest definition index below `bound` whose name is `name`.
pub open spec fn lookup(defs: Seq<DefView>, name: Seq<char>, bound: int) -> Option<int>
    recommends
        bound <= defs.len(),
    decreases bound,
{
    if bound <= 0 || bound > defs.len() {
        None
    } else if defs[bound - 1].name == name {
        Some(bound - 1)
    } else {
        lookup(defs, name, bound - 1)
    }
}

pub proof fn lemma_lookup_some(defs: Seq<DefView>, name: Seq<char>, bound: int)
    ensures
        lookup(defs, name, bound) matches Some(i) ==> 0 <= i < bound && i < defs.len()
            && defs[i].name == name,
    decreases bound,
{
    if 0 < bound <= defs.len() && defs[bound - 1].name != name {
        lemma_lookup_some(defs, name, bound - 1);
    }
}

/// The fixed built-in word set, keyed by canonical (upper-case) names.
pub open spec fn builtin_of(canon: Seq<char>) -> Option<Instruction> {
    if canon == "+"@ {
        Some(Instruction::Add)
    } else if canon == "-"@ {
        Some(Instruction::Subtract)
    } else if canon == "*"@ {
        Some(Instruction::Multiply)
    } else if canon == "/"@ {
        Some(Instruction::Divide)
    } else if canon == "DUP"@ {
        Some(Instruction::Dup)
    } else if canon == "DROP"@ {
        Some(Instruction::Drop)
    } else if canon == "SWAP"@ {
        Some(Instruction::Swap)
    } else if canon == "OVER"@ {
        Some(Instruction::Over)
    } else {
        None
    }
}

/// What a token means under a scoping bound: a user definition first, then a
/// built-in, then a numeric literal; anything else is unknown.
pub open spec fn resolve(defs: Seq<DefView>, word: Seq<char>, bound: int) -> Option<Instruction> {
    let canon = norm(word);
    match lookup(defs, canon, bound) {
        Some(i) => Some(Instruction::CallDefinition(i as usize)),
        None => match builtin_of(canon) {
            Some(ins) => Some(ins),
            None => if is_literal(word) {
                Some(Instruction::Number(literal_val(word) as i32))
            } else {
                None
            },
        },
    }
}

/// Quotient truncated toward zero, as the host's `/` computes it.
pub open spec fn trunc_div(a: int, b: int) -> int
    recommends
        b != 0,
{
    if a == 0 {
        0
    } else if a > 0 && b > 0 {
        a / b
    } else if a < 0 && b < 0 {
        (a * -1) / (b * -1)
    } else if a < 0 {
        ((a * -1) / b) * -1
    } else {
        (a / (b * -1)) * -1
    }
}

/// Division on operands, wrapping on the one overflowing quotient.
pub open spec fn div_wrap(a: i32, b: i32) -> i32
    recommends
        b != 0,
{
    if trunc_div(a as int, b as int) > i32::MAX {
        i32::MIN
    } else {
        trunc_div(a as int, b as int) as i32
    }
}

/// One arithmetic combination step. Additive and multiplicative operators
/// wrap around the operand range; this evaluator fixes the host's wrapping
/// behaviour rather than trapping.
pub open spec fn apply_op(ins: Instruction, a: i32, b: i32) -> i32 {
    match ins {
        Instruction::Subtract => a.wrapping_sub(b),
        Instruction::Multiply => a.wrapping_mul(b),
        Instruction::Divide => div_wrap(a, b),
        _ => a.wrapping_add(b),
    }
}

/// The left fold of an arithmetic operator over the whole stack, bottom
/// value first.
pub open spec fn fold_stack(ins: Instruction, s: Seq<i32>) -> i32
    recommends
        s.len() >= 1,
    decreases s.len(),
{
    if s.len() <= 1 {
        if s.len() == 1 {
            s[0]
        } else {
            0
        }
    } else {
        apply_op(ins, fold_stack(ins, s.drop_last()), s.last())
    }
}

/// Does any operand above the bottom equal zero?
pub open spec fn zero_divisor(s: Seq<i32>) -> bool {
    exists|i: int| 1 <= i < s.len() && s[i] == 0
}

/// The top two values exchanged.
pub open spec fn swap_top(s: Seq<i32>) -> Seq<i32>
    recommends
        s.len() >= 2,
{
    s.drop_last().drop_last().push(s.last()).push(s[s.len() - 2])
}

/// Whether an instruction is one of the four arithmetic operators.
pub open spec fn is_arith(ins: Instruction) -> bool {
    match ins {
        Instruction::Add | Instruction::Subtract | Instruction::Multiply
        | Instruction::Divide => true,
        _ => false,
    }
}

/// The stack effect of one instruction other than a word invocation.
/// An instruction that finds too few operands fails without touching the
/// stack; Divide checks every divisor before dividing.
pub open spec fn step_op(ins: Instruction, s: Seq<i32>) -> Result<Seq<i32>, Error> {
    match ins {
        Instruction::Number(v) => Ok(s.push(v)),
        Instruction::Dup => if s.len() >= 1 {
            Ok(s.push(s.last()))
        } else {
            Err(Error::StackUnderflow)
        },
        Instruction::Drop => if s.len() >= 1 {
            Ok(s.drop_last())
        } else {
            Err(Error::StackUnderflow)
        },
        Instruction::Swap => if s.len() >= 2 {
            Ok(swap_top(s))
        } else {
            Err(Error::StackUnderflow)
        },
        Instruction::Over => if s.len() >= 2 {
            Ok(s.push(s[s.len() - 2]))
        } else {
            Err(Error::StackUnderflow)
        },
        Instruction::CallDefinition(_) => Ok(s),
        _ => if s.len() < 2 {
            Err(Error::StackUnderflow)
        } else if (ins is Divide) && zero_divisor(s) {
            Err(Error::DivisionByZero)
        } else {
            Ok(seq![fold_stack(ins, s)])
        },
    }
}

/// Runs one token under a scoping bound: the resulting stack together with
/// the error that stopped execution, if one did. A failing invocation keeps
/// every stack effect already performed inside it.
pub open spec fn run_word(defs: Seq<DefView>, stack: Seq<i32>, word: Seq<char>, bound: int) -> (
    Seq<i32>,
    Option<Error>,
)
    recommends
        bound <= defs.len(),
    decreases bound, 0int, 0int,
    via run_word_decreases
{
    match resolve(defs, word, bound) {
        None => (stack, Some(Error::UnknownWord)),
        Some(ins) => match ins {
            Instruction::CallDefinition(i) => run_body(defs, stack, defs[i as int].body, i as int),
            _ => match step_op(ins, stack) {
                Ok(s2) => (s2, None),
                Err(e) => (stack, Some(e)),
            },
        },
    }
}

/// Runs the stored body of a definition, each token under the bound of the
/// definition itself, stopping at the first error.
pub open spec fn run_body(defs: Seq<DefView>, stack: Seq<i32>, words: Seq<Seq<char>>, bound: int) -> (
    Seq<i32>,
    Option<Error>,
)
    recommends
        bound <= defs.len(),
    decreases bound, 1int, words.len(),
{
    if words.len() == 0 {
        (stack, None)
    } else {
        let (s1, e) = run_word(defs, stack, words[0], bound);
        if e is Some {
            (s1, e)
        } else {
            run_body(defs, s1, words.skip(1), bound)
        }
    }
}

#[via_fn]
proof fn run_word_decreases(defs: Seq<DefView>, stack: Seq<i32>, word: Seq<char>, bound: int) {
    lemma_lookup_some(defs, norm(word), bound);
}

/// The first definition-end marker at or after `from`.
pub open spec fn find_end(tokens: Seq<Seq<char>>, from: int) -> Option<int>
    decreases tokens.len() - from,
{
    if from < 0 || from >= tokens.len() {
        None
    } else if tokens[from] == ";"@ {
        Some(from)
    } else {
        find_end(tokens, from + 1)
    }
}

pub proof fn lemma_find_end(tokens: Seq<Seq<char>>, from: int)
    ensures
        find_end(tokens, from) matches Some(j) ==> from <= j < tokens.len() && tokens[j] == ";"@
            && (forall|k: int| from <= k < j ==> (#[trigger] tokens[k]) != ";"@),
        find_end(tokens, from) is None && 0 <= from ==> forall|k: int|
            from <= k < tokens.len() ==> (#[trigger] tokens[k]) != ";"@,
    decreases tokens.len() - from,
{
    if 0 <= from < tokens.len() && tokens[from] != ";"@ {
        lemma_find_end(tokens, from + 1);
    }
}

/// A scan that saw no end marker before `j` determines `find_end`.
pub proof fn lemma_find_end_val(tokens: Seq<Seq<char>>, from: int, j: int)
    requires
        0 <= from <= j <= tokens.len(),
        forall|k: int| from <= k < j ==> (#[trigger] tokens[k]) != ";"@,
    ensures
        j < tokens.len() && tokens[j] == ";"@ ==> find_end(tokens, from) == Some(j),
        j == tokens.len() ==> find_end(tokens, from) is None,
    decreases j - from,
{
    if from < j {
        lemma_find_end_val(tokens, from + 1, j);
    }
}

/// Searching a suffix finds the same marker, at shifted positions.
pub proof fn lemma_find_end_skip(tokens: Seq<Seq<char>>, p: int, from: int)
    requires
        0 <= p <= tokens.len(),
        0 <= from,
    ensures
        find_end(tokens, p + from) == match find_end(tokens.skip(p), from) {
            Some(j) => Some(p + j),
            None => None::<int>,
        },
    decreases tokens.len() - p - from,
{
    if from < tokens.skip(p).len() && tokens.skip(p)[from] != ";"@ {
        lemma_find_end_skip(tokens, p, from + 1);
    }
}

/// One evaluation call over an already-tokenized input: the definition-start
/// marker opens a definition that runs to the next end marker, and every
/// other token is run under the bound of all definitions made so far. The
/// first error stops the call and leaves the state it found.
pub open spec fn eval_tokens(defs: Seq<DefView>, stack: Seq<i32>, tokens: Seq<Seq<char>>) -> (
    Seq<DefView>,
    Seq<i32>,
    Option<Error>,
)
    decreases tokens.len(),
    via eval_tokens_decreases
{
    if tokens.len() == 0 {
        (defs, stack, None)
    } else if tokens[0] == ":"@ {
        if tokens.len() < 2 || is_literal(tokens[1]) {
            (defs, stack, Some(Error::InvalidWord))
        } else {
            match find_end(tokens, 2) {
                None => (defs, stack, Some(Error::InvalidWord)),
                Some(j) => eval_tokens(
                    defs.push(DefView { name: norm(tokens[1]), body: tokens.subrange(2, j) }),
                    stack,
                    tokens.skip(j + 1),
                ),
            }
        }
    } else {
        let (s1, e) = run_word(defs, stack, tokens[0], defs.len() as int);
        if e is Some {
            (defs, s1, e)
        } else {
            eval_tokens(defs, s1, tokens.skip(1))
        }
    }
}

#[via_fn]
proof fn eval_tokens_decreases(defs: Seq<DefView>, stack: Seq<i32>, tokens: Seq<Seq<char>>) {
    lemma_find_end(tokens, 2);
}

} // verus!
