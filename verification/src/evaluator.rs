//! The evaluator: a numeric stack plus an ordered, append-only table of word
//! definitions. Every public operation is proved against the functions of
//! `semantics`.

use vstd::prelude::*;
use vstd::string::*;
use crate::numbers::{is_literal, parse_literal};
use crate::semantics::{
    lookup, lemma_lookup_some, resolve, run_word, run_body, find_end, lemma_find_end_val,
    lemma_find_end_skip, eval_tokens, step_op, is_arith, fold_stack, zero_divisor, DefView,
    Instruction,
};
use crate::text::{norm, to_upper, views_of};
use crate::tokenizer::{tokenize, tokens_of};
use crate::{Error, ForthResult, Value};

verus! {

/// A stored word definition: a canonical (upper-case) name and the raw
/// tokens of its body, kept verbatim and resolved only at invocation time.
#[derive(Debug)]
pub struct Definition {
    pub name: String,
    pub instructions: Vec<String>,
}

impl View for Definition {
    type V = DefView;

    open spec fn view(&self) -> DefView {
        DefView { name: self.name@, body: views_of(self.instructions@) }
    }
}

/// The mathematical content of a definition table.
pub open spec fn defs_view(defs: Seq<Definition>) -> Seq<DefView> {
    defs.map_values(|d: Definition| d@)
}

/// Ok when nothing stopped execution, otherwise the error that did.
pub open spec fn outcome(e: Option<Error>) -> Result<(), Error> {
    match e {
        None => Ok(()),
        Some(err) => Err(err),
    }
}

/// The atomic effect of one non-invocation instruction: the stack moves
/// exactly as `step_op` says, or stays put when `step_op` fails.
pub open spec fn op_effect(
    pre: Seq<i32>,
    ins: Instruction,
    post: Seq<i32>,
    r: Result<(), Error>,
) -> bool {
    match step_op(ins, pre) {
        Ok(s2) => post == s2 && r == Ok::<(), Error>(()),
        Err(e) => post == pre && r == Err::<(), Error>(e),
    }
}

/// Compares an owned token against a marker word.
fn str_is(a: &String, b: &str) -> (r: bool)
    ensures
        r == (a@ == b@),
{
    let s = String::from_str(b);
    a.eq(&s)
}

/// The evaluator: an operand stack and the table of definitions, both empty
/// at construction and alive for the life of the instance.
pub struct Forth {
    pub stack: Vec<Value>,
    pub definitions: Vec<Definition>,
}

impl Default for Forth {
    /// The same fresh evaluator that `new` returns.
    fn default() -> (f: Forth)
        ensures
            f.stack@ == Seq::<i32>::empty(),
            f.defs() == Seq::<DefView>::empty(),
    {
        Forth::new()
    }
}

impl Forth {
    /// The definition table as a mathematical sequence.
    pub open spec fn defs(&self) -> Seq<DefView> {
        defs_view(self.definitions@)
    }

    /// A fresh evaluator: empty stack, empty definition table.
    pub fn new() -> (f: Forth)
        ensures
            f.stack@ == Seq::<i32>::empty(),
            f.defs() == Seq::<DefView>::empty(),
    {
        let f = Forth { stack: Vec::<Value>::new(), definitions: Vec::<Definition>::new() };
        proof {
            assert(f.defs() =~= Seq::<DefView>::empty());
        }
        f
    }

    /// The current operand sequence, bottom to top.
    pub fn stack(&self) -> (r: &[Value])
        ensures
            r@ == self.stack@,
    {
        self.stack.as_slice()
    }

    fn stack_push(&mut self, value: Value)
        ensures
            final (self).definitions == old(self).definitions,
            final (self).stack@ == old(self).stack@.push(value),
    {
        self.stack.push(value);
    }

    fn stack_pop(&mut self) -> (r: Result<Value, Error>)
        ensures
            final (self).definitions == old(self).definitions,
            old(self).stack@.len() == 0 ==> r == Err::<Value, Error>(Error::StackUnderflow)
                && final (self).stack@ == old(self).stack@,
            old(self).stack@.len() > 0 ==> r == Ok::<Value, Error>(old(self).stack@.last())
                && final (self).stack@ == old(self).stack@.drop_last(),
    {
        match self.stack.pop() {
            Some(value) => Ok(value),
            _ => Err(Error::StackUnderflow),
        }
    }

    fn push_value_onto_the_stack(&mut self, value: Value) -> (r: ForthResult)
        ensures
            final (self).definitions == old(self).definitions,
            op_effect(old(self).stack@, Instruction::Number(value), final (self).stack@, r),
    {
        self.stack_push(value);
        Ok(())
    }

    fn dup(&mut self) -> (r: ForthResult)
        ensures
            final (self).definitions == old(self).definitions,
            op_effect(old(self).stack@, Instruction::Dup, final (self).stack@, r),
    {
        let last = match self.stack_pop() {
            Ok(v) => v,
            Err(e) => {
                return Err(e);
            },
        };
        self.stack_push(last);
        self.stack_push(last);
        proof {
            assert(old(self).stack@.drop_last().push(old(self).stack@.last()) =~= old(
                self,
            ).stack@);
        }
        Ok(())
    }

    fn drop(&mut self) -> (r: ForthResult)
        ensures
            final (self).definitions == old(self).definitions,
            op_effect(old(self).stack@, Instruction::Drop, final (self).stack@, r),
    {
        match self.stack_pop() {
            Ok(_) => Ok(()),
            Err(e) => Err(e),
        }
    }

    fn swap(&mut self) -> (r: ForthResult)
        ensures
            final (self).definitions == old(self).definitions,
            op_effect(old(self).stack@, Instruction::Swap, final (self).stack@, r),
    {
        if self.stack.len() < 2 {
            return Err(Error::StackUnderflow);
        }
        let last = self.stack_pop().unwrap();
        let previous = self.stack_pop().unwrap();
        self.stack_push(last);
        self.stack_push(previous);
        Ok(())
    }

    fn over(&mut self) -> (r: ForthResult)
        ensures
            final (self).definitions == old(self).definitions,
            op_effect(old(self).stack@, Instruction::Over, final (self).stack@, r),
    {
        if self.stack.len() < 2 {
            return Err(Error::StackUnderflow);
        }
        let last = self.stack_pop().unwrap();
        let previous = self.stack_pop().unwrap();
        self.stack_push(previous);
        self.stack_push(last);
        self.stack_push(previous);
        proof {
            assert(old(self).stack@.drop_last().drop_last().push(
                old(self).stack@[old(self).stack@.len() - 2],
            ).push(old(self).stack@.last()) =~= old(self).stack@);
        }
        Ok(())
    }

    /// Folds one arithmetic operator over the whole stack, bottom value
    /// first, and replaces the stack by the single result.
    fn perform_maths_operation(&mut self, instruction: Instruction) -> (r: ForthResult)
        requires
            is_arith(instruction),
        ensures
            final (self).definitions == old(self).definitions,
            op_effect(old(self).stack@, instruction, final (self).stack@, r),
    {
        let n = self.stack.len();
        if n < 2 {
            return Err(Error::StackUnderflow);
        }
        match instruction {
            Instruction::Divide => {
                let mut k: usize = 1;
                while k < n
                    invariant
                        1 <= k <= n,
                        n == self.stack@.len(),
                        self == old(self),
                        instruction is Divide,
                        forall|t: int| 1 <= t < k ==> self.stack@[t] != 0,
                    decreases n - k,
                {
                    if self.stack[k] == 0 {
                        proof {
                            assert(1 <= k < self.stack@.len() && self.stack@[k as int] == 0);
                            assert(zero_divisor(self.stack@));
                        }
                        return Err(Error::DivisionByZero);
                    }
                    k += 1;
                }
                assert(!zero_divisor(self.stack@));
            },
            _ => {},
        }
        let mut acc: i32 = self.stack[0];
        let mut k: usize = 1;
        proof {
            assert(self.stack@.take(1) =~= seq![self.stack@[0]]);
        }
        while k < n
            invariant
                1 <= k <= n,
                n == self.stack@.len(),
                self == old(self),
                is_arith(instruction),
                instruction is Divide ==> !zero_divisor(self.stack@),
                acc == fold_stack(instruction, self.stack@.take(k as int)),
            decreases n - k,
        {
            let v = self.stack[k];
            acc = match instruction {
                Instruction::Add => acc.wrapping_add(v),
                Instruction::Subtract => acc.wrapping_sub(v),
                Instruction::Multiply => acc.wrapping_mul(v),
                _ => match acc.checked_div(v) {
                    Some(q) => q,
                    None => i32::MIN,
                },
            };
            proof {
                assert(self.stack@.take(k + 1).drop_last() =~= self.stack@.take(k as int));
                assert(self.stack@.take(k + 1).last() == self.stack@[k as int]);
            }
            k += 1;
        }
        proof {
            assert(self.stack@.take(n as int) =~= self.stack@);
        }
        let mut replaced: Vec<i32> = Vec::new();
        replaced.push(acc);
        self.stack = replaced;
        proof {
            assert(final (self).stack@ =~= seq![fold_stack(instruction, old(self).stack@)]);
        }
        Ok(())
    }

    /// Resolves one token under a scoping bound: the definition table first,
    /// then the built-ins, then a numeric literal.
    fn instruction_from_word(&self, word: &str, bound: usize) -> (r: Result<Instruction, Error>)
        requires
            bound <= self.definitions@.len(),
        ensures
            (match resolve(self.defs(), word@, bound as int) {
                Some(ins) => r == Ok::<Instruction, Error>(ins),
                None => r == Err::<Instruction, Error>(Error::UnknownWord),
            }),
            (r matches Ok(Instruction::CallDefinition(i)) ==> i < bound),
    {
        let canonical = to_upper(word);
        let mut k: usize = bound;
        while k > 0
            invariant
                k <= bound <= self.definitions@.len(),
                canonical@ == norm(word@),
                lookup(self.defs(), canonical@, bound as int) == lookup(
                    self.defs(),
                    canonical@,
                    k as int,
                ),
            decreases k,
        {
            if self.definitions[k - 1].name.eq(&canonical) {
                proof {
                    lemma_lookup_some(self.defs(), canonical@, k as int);
                }
                return Ok(Instruction::CallDefinition(k - 1));
            }
            k -= 1;
        }
        if str_is(&canonical, "+") {
            return Ok(Instruction::Add);
        }
        if str_is(&canonical, "-") {
            return Ok(Instruction::Subtract);
        }
        if str_is(&canonical, "*") {
            return Ok(Instruction::Multiply);
        }
        if str_is(&canonical, "/") {
            return Ok(Instruction::Divide);
        }
        if str_is(&canonical, "DUP") {
            return Ok(Instruction::Dup);
        }
        if str_is(&canonical, "DROP") {
            return Ok(Instruction::Drop);
        }
        if str_is(&canonical, "SWAP") {
            return Ok(Instruction::Swap);
        }
        if str_is(&canonical, "OVER") {
            return Ok(Instruction::Over);
        }
        match parse_literal(word) {
            Some(value) => Ok(Instruction::Number(value)),
            None => Err(Error::UnknownWord),
        }
    }

    /// Runs one token against the stack machine under a scoping bound.
    fn eval_instruction(&mut self, word: &str, bound: usize) -> (r: ForthResult)
        requires
            bound <= old(self).definitions@.len(),
        ensures
            final (self).definitions == old(self).definitions,
            ({
                let (s2, e) = run_word(old(self).defs(), old(self).stack@, word@, bound as int);
                final (self).stack@ == s2 && r == outcome(e)
            }),
        decreases bound, 0int,
    {
        let instruction = match self.instruction_from_word(word, bound) {
            Ok(ins) => ins,
            Err(e) => {
                return Err(e);
            },
        };
        match instruction {
            Instruction::Number(value) => self.push_value_onto_the_stack(value),
            Instruction::Add => self.perform_maths_operation(Instruction::Add),
            Instruction::Subtract => self.perform_maths_operation(Instruction::Subtract),
            Instruction::Multiply => self.perform_maths_operation(Instruction::Multiply),
            Instruction::Divide => self.perform_maths_operation(Instruction::Divide),
            Instruction::Dup => self.dup(),
            Instruction::Drop => self.drop(),
            Instruction::Swap => self.swap(),
            Instruction::Over => self.over(),
            Instruction::CallDefinition(instruction_index) => self.call_user_defined_instruction(
                instruction_index,
            ),
        }
    }

    /// Expands a stored definition: every body token runs under the bound of
    /// the definition itself, so only strictly earlier definitions are
    /// visible, and the first failure stops the expansion where it stands.
    fn call_user_defined_instruction(&mut self, instruction_index: usize) -> (r: ForthResult)
        requires
            instruction_index < old(self).definitions@.len(),
        ensures
            final (self).definitions == old(self).definitions,
            ({
                let (s2, e) = run_body(
                    old(self).defs(),
                    old(self).stack@,
                    old(self).defs()[instruction_index as int].body,
                    instruction_index as int,
                );
                final (self).stack@ == s2 && r == outcome(e)
            }),
        decreases instruction_index, 1int,
    {
        let ghost body = old(self).defs()[instruction_index as int].body;
        let num_words = self.definitions[instruction_index].instructions.len();
        let mut j: usize = 0;
        proof {
            assert(body.skip(0) =~= body);
        }
        while j < num_words
            invariant
                j <= num_words,
                instruction_index < self.definitions@.len(),
                self.definitions == old(self).definitions,
                body == self.defs()[instruction_index as int].body,
                num_words == body.len(),
                run_body(
                    old(self).defs(),
                    old(self).stack@,
                    body,
                    instruction_index as int,
                ) == run_body(
                    self.defs(),
                    self.stack@,
                    body.skip(j as int),
                    instruction_index as int,
                ),
            decreases num_words - j,
        {
            let word = self.definitions[instruction_index].instructions[j].clone();
            let res = self.eval_instruction(word.as_str(), instruction_index);
            proof {
                assert(body.skip(j as int)[0] == body[j as int]);
                assert(body[j as int] == word@);
                assert(body.skip(j as int).skip(1) =~= body.skip(j + 1));
            }
            if let Err(e) = res {
                return Err(e);
            }
            j += 1;
        }
        proof {
            assert(body.skip(num_words as int) =~= Seq::<Seq<char>>::empty());
        }
        Ok(())
    }

    /// Parses one definition whose start marker stood just before `start`:
    /// the token at `start` names the word (a numeric name is refused), the
    /// tokens up to the next end marker are stored verbatim, and the next
    /// position to read follows the marker. Without an end marker, nothing
    /// is committed.
    fn add_definition(&mut self, words: &Vec<String>, start: usize) -> (res: Result<usize, Error>)
        ensures
            final (self).stack@ == old(self).stack@,
            ({
                let t = views_of(words@);
                match res {
                    Err(e) => {
                        &&& e == Error::InvalidWord
                        &&& final (self).definitions == old(self).definitions
                        &&& (start >= t.len() || is_literal(t[start as int]) || find_end(
                            t,
                            start + 1,
                        ) is None)
                    },
                    Ok(next) => {
                        &&& start < t.len()
                        &&& !is_literal(t[start as int])
                        &&& start + 1 <= next - 1 < t.len()
                        &&& find_end(t, start + 1) == Some(next - 1)
                        &&& final (self).defs() == old(self).defs().push(
                            DefView {
                                name: norm(t[start as int]),
                                body: t.subrange(start + 1, next - 1),
                            },
                        )
                    },
                }
            }),
    {
        let len = words.len();
        if start >= len {
            return Err(Error::InvalidWord);
        }
        if parse_literal(words[start].as_str()).is_some() {
            return Err(Error::InvalidWord);
        }
        let mut j: usize = start + 1;
        let mut found = false;
        let mut done = false;
        while !done
            invariant
                start + 1 <= j <= len,
                len == words@.len(),
                self == old(self),
                forall|k: int| start + 1 <= k < j ==> (#[trigger] words@[k])@ != ";"@,
                done ==> (found ==> j < len && words@[j as int]@ == ";"@),
                done ==> (!found ==> j == len),
                !done ==> !found,
            decreases len - j + (if done {
                0int
            } else {
                1int
            }),
        {
            if j >= len {
                done = true;
            } else if str_is(&words[j], ";") {
                found = true;
                done = true;
            } else {
                j += 1;
            }
        }
        proof {
            let t = views_of(words@);
            assert(forall|k: int| start + 1 <= k < j ==> (#[trigger] t[k]) != ";"@);
            lemma_find_end_val(t, start + 1, j as int);
        }
        if !found {
            return Err(Error::InvalidWord);
        }
        let mut body_words: Vec<String> = Vec::new();
        let mut k: usize = start + 1;
        proof {
            assert(views_of(body_words@) =~= views_of(words@).subrange(
                start + 1,
                start + 1,
            ));
        }
        while k < j
            invariant
                start + 1 <= k <= j,
                j < words@.len(),
                views_of(body_words@) == views_of(words@).subrange(start + 1, k as int),
            decreases j - k,
        {
            let tok = words[k].clone();
            let ghost prev = body_words@;
            body_words.push(tok);
            proof {
                assert(views_of(prev.push(tok)) =~= views_of(prev).push(tok@));
                assert(views_of(words@).subrange(start + 1, k + 1) =~= views_of(
                    words@,
                ).subrange(start + 1, k as int).push(words@[k as int]@));
            }
            k += 1;
        }
        let upper = to_upper(words[start].as_str());
        self.definitions.push(Definition { name: upper, instructions: body_words });
        proof {
            let t = views_of(words@);
            let d = DefView { name: norm(t[start as int]), body: t.subrange(start + 1, j as int) };
            assert(final (self).definitions@.last()@ == d);
            assert(final (self).defs() =~= old(self).defs().push(d));
        }
        Ok(j + 1)
    }

    /// Processes one chunk of input: tokens run in order, definitions are
    /// collected and appended, and the first error stops the call with all
    /// earlier effects kept in place.
    pub fn eval(&mut self, input: &str) -> (r: ForthResult)
        ensures
            ({
                let (d2, s2, e) = eval_tokens(
                    old(self).defs(),
                    old(self).stack@,
                    tokens_of(input@),
                );
                final (self).defs() == d2 && final (self).stack@ == s2 && r == outcome(e)
            }),
    {
        let words = tokenize(input);
        let ghost t = views_of(words@);
        let mut pos: usize = 0;
        proof {
            assert(t.skip(0) =~= t);
        }
        while pos < words.len()
            invariant
                pos <= words@.len(),
                t == views_of(words@),
                t == tokens_of(input@),
                eval_tokens(old(self).defs(), old(self).stack@, t) == eval_tokens(
                    self.defs(),
                    self.stack@,
                    t.skip(pos as int),
                ),
            decreases words@.len() - pos,
        {
            let ghost rest = t.skip(pos as int);
            proof {
                assert(rest[0] == t[pos as int]);
            }
            if str_is(&words[pos], ":") {
                let ghost defs_before = self.defs();
                let ghost stack_before = self.stack@;
                let start = pos + 1;
                let res = self.add_definition(&words, start);
                proof {
                    lemma_find_end_skip(t, pos as int, 2);
                    if 1 < rest.len() {
                        assert(rest[1] == t[pos + 1]);
                    }
                }
                match res {
                    Ok(next) => {
                        proof {
                            let j = next - 1;
                            let jr = j - pos;
                            assert(find_end(rest, 2) == Some(jr));
                            assert(rest.subrange(2, jr) =~= t.subrange(pos + 2, j));
                            assert(rest.skip(jr + 1) =~= t.skip(next as int));
                            assert(self.defs() == defs_before.push(
                                DefView { name: norm(rest[1]), body: rest.subrange(2, jr) },
                            ));
                        }
                        pos = next;
                    },
                    Err(e) => {
                        proof {
                            assert(eval_tokens(defs_before, stack_before, rest) == (
                                defs_before,
                                stack_before,
                                Some(Error::InvalidWord),
                            ));
                        }
                        return Err(e);
                    },
                }
            } else {
                let bound = self.definitions.len();
                let ghost defs_before = self.defs();
                let ghost stack_before = self.stack@;
                let res = self.eval_instruction(words[pos].as_str(), bound);
                proof {
                    assert(rest.skip(1) =~= t.skip(pos + 1));
                }
                if let Err(e) = res {
                    return Err(e);
                }
                pos += 1;
            }
        }
        proof {
            assert(t.skip(words@.len() as int) =~= Seq::<Seq<char>>::empty());
        }
        Ok(())
    }
}

} // verus!
