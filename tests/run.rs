use stacklang::error::Error;
use stacklang::flags::Flags;
use stacklang::lexer::lex;
use stacklang::run::{run, run_program, Interpreter};

fn stack_of(text: &str) -> Result<Vec<isize>, Error> {
    let tokens = lex(&String::from("test"), String::from(text))?;
    run(tokens).map(|s| s.to_vec().clone())
}

fn output_of(text: &str) -> (String, Result<(), Error>) {
    let tokens = lex(&String::from("test"), String::from(text)).unwrap();
    let mut interpreter = Interpreter::new();
    let r = interpreter.interpret(&tokens);
    (interpreter.out.iter().collect(), r)
}

#[test]
fn add_is_commutative() {
    assert_eq!(stack_of("(2 3 +)"), Ok(vec![5]));
    assert_eq!(stack_of("(3 2 +)"), Ok(vec![5]));
}

#[test]
fn mul_is_commutative() {
    assert_eq!(stack_of("(4 6 *)"), Ok(vec![24]));
    assert_eq!(stack_of("(6 4 *)"), Ok(vec![24]));
}

#[test]
fn arithmetic_on_one_value_is_noop() {
    assert_eq!(stack_of("(5 +)"), Ok(vec![5]));
    assert_eq!(stack_of("(-)"), Ok(vec![]));
    assert_eq!(stack_of("(!)"), Ok(vec![]));
}

#[test]
fn subtraction_and_comparisons() {
    assert_eq!(stack_of("10 4 -"), Ok(vec![6]));
    assert_eq!(stack_of("3 3 = 3 4 = 2 5 < 5 2 < 5 2 >"), Ok(vec![1, 0, 1, 0, 1]));
    assert_eq!(stack_of("0 ! 7 !"), Ok(vec![1, 0]));
}

#[test]
fn division_truncates_toward_zero() {
    assert_eq!(stack_of("(7 2 /)"), Ok(vec![3]));
    assert_eq!(stack_of("(0 7 - 2 /)"), Ok(vec![-3]));
    assert_eq!(stack_of("(7 0 2 - /)"), Ok(vec![-3]));
    assert_eq!(stack_of("(0 7 - 0 2 - /)"), Ok(vec![3]));
}

#[test]
fn minus_seven_literal_is_subtraction_then_seven() {
    assert_eq!(stack_of("(-7 2 /)"), Ok(vec![3]));
}

#[test]
fn division_by_zero_fails() {
    assert_eq!(stack_of("1 0 /"), Err(Error::DivideByZero));
}

#[test]
fn overflow_fails() {
    assert_eq!(stack_of("9223372036854775807 1 +"), Err(Error::Overflow));
    assert_eq!(stack_of("0 9223372036854775807 - 1 - 0 1 - /"), Err(Error::Overflow));
}

#[test]
fn conditional_zero_without_else_keeps_top() {
    assert_eq!(stack_of("(0 if(99))"), Ok(vec![0]));
}

#[test]
fn conditional_nonzero_runs_then() {
    assert_eq!(stack_of("(1 if(99))"), Ok(vec![99]));
}

#[test]
fn conditional_zero_runs_else() {
    assert_eq!(stack_of("(0 if(1) else(2))"), Ok(vec![2]));
    assert_eq!(stack_of("(if(1))"), Ok(vec![]));
}

#[test]
fn repeat_zero_runs_nothing() {
    assert_eq!(stack_of("(0 repeat(1 1 +))"), Ok(vec![]));
    assert_eq!(stack_of("(3 repeat(7))"), Ok(vec![7, 7, 7]));
}

#[test]
fn while_runs_until_zero() {
    assert_eq!(stack_of("3 while(1 -)"), Ok(vec![0]));
    assert_eq!(stack_of("0 while(5 @x 0)"), Ok(vec![0, 0]));
}

#[test]
fn while_emptying_stack_fails() {
    assert_eq!(stack_of("1 while(@x)"), Err(Error::EmptyLoop));
}

#[test]
fn bind_and_reference() {
    assert_eq!(stack_of("5 @x x x +"), Ok(vec![10]));
    assert_eq!(stack_of("5 @x 6 @x x"), Ok(vec![6]));
    assert_eq!(stack_of("@x"), Err(Error::StackUnderflow));
}

#[test]
fn bind_to_macro_fails() {
    assert_eq!(stack_of("macro f (1) 5 @f"), Err(Error::IdIsMacro));
    assert_eq!(stack_of("macro f (1) 5 {f}"), Err(Error::IdIsMacro));
}

#[test]
fn undefined_name_fails() {
    assert_eq!(stack_of("y"), Err(Error::IdNotFound));
}

#[test]
fn mapping_pattern_binds_in_reverse() {
    assert_eq!(stack_of("1 2 3 {a b c} c b a"), Ok(vec![3, 2, 1]));
    assert_eq!(stack_of("1 {a b}"), Err(Error::StackUnderflow));
}

#[test]
fn macro_cannot_see_caller_variable() {
    assert_eq!(stack_of("5 @x macro f (x) f"), Err(Error::IdNotFound));
    assert_eq!(stack_of("5 @x macro f (1) f x"), Ok(vec![1, 5]));
}

#[test]
fn macro_variables_do_not_leak() {
    assert_eq!(stack_of("macro f (7 @y) f y"), Err(Error::IdNotFound));
}

#[test]
fn macro_arity_is_enforced() {
    assert_eq!(stack_of("macro[2] f (+) 1 f"), Err(Error::MacroArity(2)));
    assert_eq!(stack_of("macro[2] f (+) 1 2 f"), Ok(vec![3]));
}

#[test]
fn macro_arity_from_variable_and_length() {
    assert_eq!(stack_of("3 @n macro[n] f (1) 1 2 f"), Err(Error::MacroArity(3)));
    assert_eq!(stack_of("1 2 macro[LENGTH] f (+) f"), Ok(vec![3]));
    assert_eq!(stack_of("macro[z] f (1)"), Err(Error::IdNotFound));
}

#[test]
fn macro_redefinition_fails() {
    assert_eq!(stack_of("macro f (1) macro f (2)"), Err(Error::MacroRedefined));
}

#[test]
fn recursive_macro() {
    assert_eq!(stack_of("macro down ({n} n 1 - @m m if(m down) else(0)) 3 down"), Ok(vec![0]));
}

#[test]
fn length_pushes_stack_size() {
    assert_eq!(stack_of("4 4 LENGTH"), Ok(vec![4, 4, 2]));
}

#[test]
fn print_pops_and_writes_decimal() {
    assert_eq!(output_of("12 0 3 - print print print"), (String::from("-312 "), Ok(())));
}

#[test]
fn stack_snapshot_prints_without_consuming() {
    let (out, r) = output_of("1 0 22 - STACK");
    assert_eq!(out, "[1, -22]\n");
    assert_eq!(r, Ok(()));
    assert_eq!(output_of("STACK").0, "[]\n");
    assert_eq!(output_of("macro[STACK] f (1)").0, "[]\n");
}

#[test]
fn bare_size_is_reported() {
    assert_eq!(output_of("[3]"), (String::from("unknown token\n"), Ok(())));
}

#[test]
fn preamble_definitions_are_visible() {
    let mut interpreter = Interpreter::new();
    assert_eq!(interpreter.load_std(String::from("macro[1] sq ({n} n n *) 10 @ten")), Ok(()));
    let tokens = lex(&String::from("main"), String::from("4 sq ten +")).unwrap();
    assert_eq!(interpreter.interpret(&tokens), Ok(()));
    assert_eq!(interpreter.stack.to_vec(), &vec![26]);
}

#[test]
fn preamble_parse_error_is_returned() {
    let mut interpreter = Interpreter::new();
    assert_eq!(interpreter.load_std(String::from("(")), Err(Error::Eof(1)));
    assert!(interpreter.stack.is_empty());
}

#[test]
fn evaluate_arity_nodes() {
    let mut interpreter = Interpreter::new();
    let tokens = lex(&String::from("t"), String::from("[[4]] LENGTH q")).unwrap();
    assert_eq!(interpreter.get(&tokens[0]), Ok(4));
    assert_eq!(interpreter.get(&tokens[1]), Ok(0));
    assert_eq!(interpreter.get(&tokens[2]), Err(Error::IdNotFound));
}

#[test]
fn flags_start_off() {
    let flags = Flags::new();
    assert!(!flags.stack);
    assert!(!flags.tokens);
}

#[test]
fn run_program_runs_preamble_first() {
    let tokens = lex(&String::from("main"), String::from("4 sq ten + print 1")).unwrap();
    let (r, out) = run_program(Some(String::from("macro[1] sq ({n} n n *) 10 @ten")), &tokens);
    assert_eq!(r.unwrap().to_vec(), &vec![1]);
    assert_eq!(out, "26");
}

#[test]
fn run_program_stops_on_preamble_error() {
    let tokens = lex(&String::from("main"), String::from("1")).unwrap();
    let (r, out) = run_program(Some(String::from("7 print y")), &tokens);
    assert_eq!(r.unwrap_err(), Error::IdNotFound);
    assert_eq!(out, "7");
    let (r, _) = run_program(Some(String::from("(")), &tokens);
    assert_eq!(r.unwrap_err(), Error::Eof(1));
}

#[test]
fn run_program_without_preamble() {
    let tokens = lex(&String::from("main"), String::from("2 3 * STACK")).unwrap();
    let (r, out) = run_program(None, &tokens);
    assert_eq!(r.unwrap().to_vec(), &vec![6]);
    assert_eq!(out, "[6]\n");
}
