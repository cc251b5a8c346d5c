use forth_tui::{Error, Forth};

#[test]
fn empty_input_is_ok() {
    let mut f = Forth::new();
    assert_eq!(f.eval(""), Ok(()));
    assert_eq!(f.eval("   \t \n "), Ok(()));
    assert_eq!(f.stack(), &[] as &[i32]);
}

#[test]
fn literals_are_pushed_in_order() {
    let mut f = Forth::new();
    assert_eq!(f.eval("1 2 3"), Ok(()));
    assert_eq!(f.stack(), &[1, 2, 3]);
}

#[test]
fn signed_literals() {
    let mut f = Forth::new();
    assert_eq!(f.eval("-5 +7 007"), Ok(()));
    assert_eq!(f.stack(), &[-5, 7, 7]);
}

#[test]
fn literal_bounds() {
    let mut f = Forth::new();
    assert_eq!(f.eval("2147483647 -2147483648"), Ok(()));
    assert_eq!(f.stack(), &[i32::MAX, i32::MIN]);

    let mut g = Forth::new();
    assert_eq!(g.eval("2147483648"), Err(Error::UnknownWord));
    let mut h = Forth::new();
    assert_eq!(h.eval("-2147483649"), Err(Error::UnknownWord));
}

#[test]
fn add_folds_whole_stack() {
    let mut f = Forth::new();
    assert_eq!(f.eval("1 2 3 +"), Ok(()));
    assert_eq!(f.stack(), &[6]);
}

#[test]
fn subtract_folds_whole_stack() {
    let mut f = Forth::new();
    assert_eq!(f.eval("1 2 3 -"), Ok(()));
    assert_eq!(f.stack(), &[-4]);
}

#[test]
fn multiply_folds_whole_stack() {
    let mut f = Forth::new();
    assert_eq!(f.eval("2 3 4 *"), Ok(()));
    assert_eq!(f.stack(), &[24]);
}

#[test]
fn divide_two_values() {
    let mut f = Forth::new();
    assert_eq!(f.eval("10 2 /"), Ok(()));
    assert_eq!(f.stack(), &[5]);
}

#[test]
fn divide_folds_whole_stack() {
    let mut f = Forth::new();
    assert_eq!(f.eval("12 3 2 /"), Ok(()));
    assert_eq!(f.stack(), &[2]);
}

#[test]
fn division_truncates_toward_zero() {
    let mut f = Forth::new();
    assert_eq!(f.eval("-7 2 /"), Ok(()));
    assert_eq!(f.stack(), &[-3]);
}

#[test]
fn division_by_zero_fails() {
    let mut f = Forth::new();
    assert_eq!(f.eval("1 0 /"), Err(Error::DivisionByZero));
    assert_eq!(f.stack(), &[1, 0]);
}

#[test]
fn division_checks_every_divisor_first() {
    let mut f = Forth::new();
    assert_eq!(f.eval("4 2 0 /"), Err(Error::DivisionByZero));
    assert_eq!(f.stack(), &[4, 2, 0]);
}

#[test]
fn zero_dividend_is_fine() {
    let mut f = Forth::new();
    assert_eq!(f.eval("0 5 /"), Ok(()));
    assert_eq!(f.stack(), &[0]);
}

#[test]
fn addition_wraps_around() {
    let mut f = Forth::new();
    assert_eq!(f.eval("2147483647 1 +"), Ok(()));
    assert_eq!(f.stack(), &[i32::MIN]);
}

#[test]
fn dup_then_drop_restores_stack() {
    let mut f = Forth::new();
    assert_eq!(f.eval("1 2"), Ok(()));
    assert_eq!(f.eval("dup"), Ok(()));
    assert_eq!(f.stack(), &[1, 2, 2]);
    assert_eq!(f.eval("drop"), Ok(()));
    assert_eq!(f.stack(), &[1, 2]);
}

#[test]
fn swap_twice_restores_stack() {
    let mut f = Forth::new();
    assert_eq!(f.eval("1 2 3 swap"), Ok(()));
    assert_eq!(f.stack(), &[1, 3, 2]);
    assert_eq!(f.eval("swap"), Ok(()));
    assert_eq!(f.stack(), &[1, 2, 3]);
}

#[test]
fn over_copies_second_value() {
    let mut f = Forth::new();
    assert_eq!(f.eval("1 2 over"), Ok(()));
    assert_eq!(f.stack(), &[1, 2, 1]);
}

#[test]
fn add_underflows_on_empty_stack() {
    let mut f = Forth::new();
    assert_eq!(f.eval("+"), Err(Error::StackUnderflow));
    assert_eq!(f.stack(), &[] as &[i32]);
}

#[test]
fn dup_underflows_on_empty_stack() {
    let mut f = Forth::new();
    assert_eq!(f.eval("dup"), Err(Error::StackUnderflow));
    assert_eq!(f.stack(), &[] as &[i32]);
}

#[test]
fn arithmetic_underflows_on_one_value() {
    let mut f = Forth::new();
    assert_eq!(f.eval("1 +"), Err(Error::StackUnderflow));
    assert_eq!(f.stack(), &[1]);
}

#[test]
fn swap_underflow_leaves_stack_alone() {
    let mut f = Forth::new();
    assert_eq!(f.eval("1 swap"), Err(Error::StackUnderflow));
    assert_eq!(f.stack(), &[1]);
}

#[test]
fn over_underflow_leaves_stack_alone() {
    let mut f = Forth::new();
    assert_eq!(f.eval("1 over"), Err(Error::StackUnderflow));
    assert_eq!(f.stack(), &[1]);
}

#[test]
fn unknown_word_fails() {
    let mut f = Forth::new();
    assert_eq!(f.eval("foo"), Err(Error::UnknownWord));
}

#[test]
fn effects_before_an_error_persist() {
    let mut f = Forth::new();
    assert_eq!(f.eval("1 2 3 + bad"), Err(Error::UnknownWord));
    assert_eq!(f.stack(), &[6]);
    assert_eq!(f.eval("2"), Ok(()));
    assert_eq!(f.stack(), &[6, 2]);
}

#[test]
fn simple_definition() {
    let mut f = Forth::new();
    assert_eq!(f.eval(": double dup + ; 4 double"), Ok(()));
    assert_eq!(f.stack(), &[8]);
}

#[test]
fn definition_is_stored_with_canonical_name() {
    let mut f = Forth::new();
    assert_eq!(f.eval(": foo 1 2 ;"), Ok(()));
    assert_eq!(f.definitions.len(), 1);
    assert_eq!(f.definitions[0].name, "FOO");
    assert_eq!(f.definitions[0].instructions, ["1", "2"]);
}

#[test]
fn scoping_binds_bodies_to_earlier_definitions() {
    let mut f = Forth::new();
    assert_eq!(f.eval(": foo 5 ; : foo foo 6 ; foo"), Ok(()));
    assert_eq!(f.stack(), &[5, 6]);
}

#[test]
fn redefinition_shadows_builtin() {
    let mut f = Forth::new();
    assert_eq!(f.eval(": + * ; 2 3 +"), Ok(()));
    assert_eq!(f.stack(), &[6]);
}

#[test]
fn numeric_names_are_rejected() {
    let mut f = Forth::new();
    assert_eq!(f.eval(": 1 2 ;"), Err(Error::InvalidWord));
    assert!(f.definitions.is_empty());
}

#[test]
fn signed_numeric_names_are_rejected() {
    let mut f = Forth::new();
    assert_eq!(f.eval(": -5 2 ;"), Err(Error::InvalidWord));
}

#[test]
fn out_of_range_numbers_make_valid_names() {
    let mut f = Forth::new();
    assert_eq!(f.eval(": 2147483648 7 ; 2147483648"), Ok(()));
    assert_eq!(f.stack(), &[7]);
}

#[test]
fn unterminated_definition_fails() {
    let mut f = Forth::new();
    assert_eq!(f.eval(": foo 1 2"), Err(Error::InvalidWord));
    assert!(f.definitions.is_empty());
    assert_eq!(f.stack(), &[] as &[i32]);
}

#[test]
fn definition_without_name_fails() {
    let mut f = Forth::new();
    assert_eq!(f.eval(":"), Err(Error::InvalidWord));
}

#[test]
fn a_word_cannot_call_itself() {
    let mut f = Forth::new();
    assert_eq!(f.eval(": foo foo ; foo"), Err(Error::UnknownWord));
}

#[test]
fn bodies_use_the_word_set_at_definition_time() {
    let mut f = Forth::new();
    assert_eq!(f.eval(": double dup + ; : dup 0 ; 2 double"), Ok(()));
    assert_eq!(f.stack(), &[4]);
}

#[test]
fn builtins_are_case_insensitive() {
    let mut f = Forth::new();
    assert_eq!(f.eval("1 DUP Dup dup"), Ok(()));
    assert_eq!(f.stack(), &[1, 1, 1, 1]);
}

#[test]
fn definitions_are_case_insensitive() {
    let mut f = Forth::new();
    assert_eq!(f.eval(": foo 9 ; FOO Foo foo"), Ok(()));
    assert_eq!(f.stack(), &[9, 9, 9]);
}

#[test]
fn words_used_before_their_definition_are_unknown() {
    let mut f = Forth::new();
    assert_eq!(f.eval("foo : foo 1 ;"), Err(Error::UnknownWord));
    assert!(f.definitions.is_empty());
}

#[test]
fn failure_inside_a_body_keeps_earlier_effects() {
    let mut f = Forth::new();
    assert_eq!(f.eval(": foo 1 2 bad 3 ; foo"), Err(Error::UnknownWord));
    assert_eq!(f.stack(), &[1, 2]);
}

#[test]
fn tabs_and_newlines_separate_tokens() {
    let mut f = Forth::new();
    assert_eq!(f.eval("1\t2\n3 +"), Ok(()));
    assert_eq!(f.stack(), &[6]);
}

#[test]
fn default_is_a_fresh_evaluator() {
    let f = Forth::default();
    assert_eq!(f.stack(), &[] as &[i32]);
    assert!(f.definitions.is_empty());
}
