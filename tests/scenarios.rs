use fift_core::cont::StackValue;
use fift_core::context::Context;
use fift_core::error::Error;
use fift_core::interp::RunOutcome;
use fift_core::vocab::{base_dictionary, interpret_text};
use num_bigint::BigInt;

fn chars(s: &str) -> Vec<char> {
    s.chars().collect()
}

fn interpret(src: &str) -> (Context, Result<RunOutcome, Error>) {
    let mut ctx = Context::new(base_dictionary());
    let r = interpret_text(&mut ctx, "test".to_string(), &chars(src), 100_000);
    (ctx, r)
}

fn ints(ctx: &Context) -> Vec<BigInt> {
    ctx.stack
        .items
        .iter()
        .map(|v| match v {
            StackValue::Int(b) => (**b).clone(),
            _ => panic!("not an integer"),
        })
        .collect()
}

fn assert_finished(r: &Result<RunOutcome, Error>) {
    match r {
        Ok(RunOutcome::Finished(_)) => {}
        Ok(RunOutcome::Paused(_)) => panic!("ran out of steps"),
        Err(e) => panic!("failed: {:?}", e),
    }
}

#[test]
fn adds_two_numbers() {
    let (ctx, r) = interpret("2 3 +");
    assert_finished(&r);
    assert_eq!(ints(&ctx), vec![BigInt::from(5)]);
}

#[test]
fn repeats_block_three_times() {
    let (ctx, r) = interpret("{ 2 * } 5 swap 3 times");
    assert_finished(&r);
    assert_eq!(ints(&ctx), vec![BigInt::from(40)]);
}

#[test]
fn while_counts_up_to_five() {
    let (ctx, r) = interpret("0 { dup 5 < } { 1+ } while");
    assert_finished(&r);
    assert_eq!(ints(&ctx), vec![BigInt::from(5)]);
}

#[test]
fn hex_and_binary_divide() {
    let (ctx, r) = interpret("0x10 0b10 /");
    assert_finished(&r);
    assert_eq!(ints(&ctx), vec![BigInt::from(8)]);
}

#[test]
fn undefined_word_is_reported() {
    let (_ctx, r) = interpret("undefined_word");
    match r {
        Err(Error::UndefinedWord(w)) => assert_eq!(w, chars("undefined_word")),
        _ => panic!("expected an undefined word"),
    }
}

#[test]
fn reverses_string_literal() {
    let (ctx, r) = interpret("\"hello\" reverse-utf8");
    assert_finished(&r);
    assert_eq!(ctx.stack.items.len(), 1);
    match &ctx.stack.items[0] {
        StackValue::Str(s) => assert_eq!(s.as_str(), "olleh"),
        _ => panic!("expected a string"),
    }
}

#[test]
fn reverse_keeps_combining_marks() {
    let (ctx, r) = interpret("\"ae\u{301}b\" reverse-utf8");
    assert_finished(&r);
    match &ctx.stack.items[0] {
        StackValue::Str(s) => assert_eq!(s.as_str(), "be\u{301}a"),
        _ => panic!("expected a string"),
    }
}

#[test]
fn until_loop_runs_body_first() {
    let (ctx, r) = interpret("0 { 1+ dup 3 < 0 = } until");
    // `=` is not a base word: the run must fail on it
    assert!(matches!(r, Err(Error::UndefinedWord(_))));
    let _ = ctx;
}

#[test]
fn until_loop_counts() {
    let (ctx, r) = interpret("0 { 1+ dup 2 swap < } until");
    assert_finished(&r);
    assert_eq!(ints(&ctx), vec![BigInt::from(3)]);
}

#[test]
fn rational_literal_pushes_two_numbers() {
    let (ctx, r) = interpret("3/4");
    assert_finished(&r);
    assert_eq!(ints(&ctx), vec![BigInt::from(3), BigInt::from(4)]);
}

#[test]
fn negative_and_large_numbers() {
    let (ctx, r) = interpret("-7 123456789012345678901234567890 -0x1F");
    assert_finished(&r);
    assert_eq!(
        ints(&ctx),
        vec![
            BigInt::from(-7),
            "123456789012345678901234567890".parse::<BigInt>().unwrap(),
            BigInt::from(-31)
        ]
    );
}

#[test]
fn floor_division_rounds_down() {
    let (ctx, r) = interpret("-7 2 /");
    assert_finished(&r);
    assert_eq!(ints(&ctx), vec![BigInt::from(-4)]);
}

#[test]
fn division_by_zero_fails() {
    let (_ctx, r) = interpret("1 0 /");
    assert!(matches!(r, Err(Error::DivisionByZero)));
}

#[test]
fn ordinary_words_need_whole_tokens() {
    let (_ctx, r) = interpret("4 1+1+");
    match r {
        Err(Error::UndefinedWord(w)) => assert_eq!(w, chars("1+1+")),
        _ => panic!("expected an undefined word"),
    }
}

#[test]
fn prefix_word_starts_longer_token() {
    let (ctx, r) = interpret("\"ab cd\" 1");
    assert_finished(&r);
    assert_eq!(ctx.stack.items.len(), 2);
    match &ctx.stack.items[0] {
        StackValue::Str(s) => assert_eq!(s.as_str(), "ab cd"),
        _ => panic!("expected a string"),
    }
}

#[test]
fn nested_blocks_compile_literals() {
    let (ctx, r) = interpret("1 { { 10 + } 2 times } 1 times");
    assert_finished(&r);
    assert_eq!(ints(&ctx), vec![BigInt::from(21)]);
}

#[test]
fn invalid_hex_is_an_error() {
    let (_ctx, r) = interpret("0xZZ");
    assert!(matches!(r, Err(Error::InvalidNumber)));
}

#[test]
fn bad_denominator_is_an_error() {
    let (_ctx, r) = interpret("1/x");
    assert!(matches!(r, Err(Error::InvalidNumber)));
}

#[test]
fn stack_underflow_is_reported() {
    let (_ctx, r) = interpret("1 +");
    assert!(matches!(r, Err(Error::StackUnderflow)));
}

#[test]
fn budget_pauses_the_run() {
    let mut ctx = Context::new(base_dictionary());
    let r = interpret_text(&mut ctx, "t".to_string(), &chars("1 2 3"), 2);
    assert!(matches!(r, Ok(RunOutcome::Paused(_))));
}

#[test]
fn multiline_input() {
    let (ctx, r) = interpret("1\n2\n\n  +\n");
    assert_finished(&r);
    assert_eq!(ints(&ctx), vec![BigInt::from(3)]);
}

#[test]
fn unterminated_string_is_eof() {
    let (_ctx, r) = interpret("\"abc");
    assert!(matches!(r, Err(Error::UnexpectedEof)));
}

#[test]
fn base_dictionary_defines_words_with_space() {
    let d = base_dictionary();
    assert!(d.lookup(&chars("+ ")).is_some());
    assert!(d.lookup(&chars("+")).is_none());
    assert!(d.lookup(&chars("\"")).unwrap().active);
    assert!(d.lookup(&chars("{ ")).unwrap().active);
    assert!(!d.lookup(&chars("dup ")).unwrap().active);
    assert!(d.lookup(&chars("nosuch ")).is_none());
}

#[test]
fn end_of_input_finishes_with_empty_stack() {
    let (ctx, r) = interpret("   \n\t ");
    assert_finished(&r);
    assert!(ctx.stack.items.is_empty());
    assert!(ctx.input.blocks.is_empty());
}
