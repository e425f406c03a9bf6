use ratelimitsub::parse::{
    chars_of, chunk_one_level, generate_streamrate, generate_streamrate_rec,
    get_next_parenthesized_chunk, parse, parse_chunk, parse_number, parse_rate, parse_side, skip_run,
    split_level, trim, CharClass, ExprOp, ParseError,
};
use ratelimitsub::rate::Rate;
use ratelimitsub::stream::StreamRate;

fn raw(events: u64, window: u64) -> StreamRate {
    StreamRate::Raw(Rate::new(events, window).unwrap())
}

fn sum(a: StreamRate, b: StreamRate) -> StreamRate {
    StreamRate::Sum(Box::new(a), Box::new(b))
}

fn par(a: StreamRate, b: StreamRate) -> StreamRate {
    StreamRate::Par(Box::new(a), Box::new(b))
}

fn concat(a: StreamRate, b: StreamRate) -> StreamRate {
    StreamRate::Concat(Box::new(a), Box::new(b))
}

fn read(text: &str) -> Result<(StreamRate, StreamRate), ParseError> {
    parse(&text.to_string())
}

fn side(text: &str) -> Result<StreamRate, ParseError> {
    parse_side(&chars_of(text))
}

fn text_of(chunk: &[char]) -> String {
    chunk.iter().collect()
}

#[test]
fn the_characters_of_a_text() {
    assert_eq!(chars_of(""), Vec::<char>::new());
    assert_eq!(chars_of("a<:\u{3000}b"), vec!['a', '<', ':', '\u{3000}', 'b']);
}

#[test]
fn two_rates() {
    assert_eq!(read("10/5 <: 20/5"), Ok((raw(10, 5), raw(20, 5))));
    assert_eq!(read("10/5<:20/5"), Ok((raw(10, 5), raw(20, 5))));
    assert_eq!(read("\t 007/01 \n<:\r\n 0/9 "), Ok((raw(7, 1), raw(0, 9))));
}

#[test]
fn operators_in_prefix_form() {
    assert_eq!(
        read("(|| 10/5 12/4) <: (. (|| 300/50 40/10 50/5) 2/1)"),
        Ok((
            par(raw(10, 5), raw(12, 4)),
            concat(par(raw(300, 50), par(raw(40, 10), raw(50, 5))), raw(2, 1))
        ))
    );
    assert_eq!(read("(+ 1/2 3/4) <: 5/6"), Ok((sum(raw(1, 2), raw(3, 4)), raw(5, 6))));
}

#[test]
fn a_deeply_nested_side() {
    let text = "(. (|| 10000/234090980909790 100/30) (|| (. 10/5 35209890/1090809383) \
                (. 109/9898 190987/4545 7676/257890176)))";
    assert_eq!(
        side(text),
        Ok(concat(
            par(raw(10000, 234090980909790), raw(100, 30)),
            par(
                concat(raw(10, 5), raw(35209890, 1090809383)),
                concat(raw(109, 9898), concat(raw(190987, 4545), raw(7676, 257890176)))
            )
        ))
    );
}

#[test]
fn more_operands_than_two_nest_to_the_right() {
    assert_eq!(
        side("(+ 1/1 2/2 3/3 4/4)"),
        Ok(sum(raw(1, 1), sum(raw(2, 2), sum(raw(3, 3), raw(4, 4)))))
    );
}

#[test]
fn blanks_between_operands_are_free() {
    let expected = Ok(par(sum(raw(1, 2), raw(3, 4)), raw(5, 6)));
    assert_eq!(side("(||(+1/2 3/4)5/6)"), expected);
    assert_eq!(side("( \t|| ( +  1/2\t3/4 )   5/6  )"), expected);
    assert_eq!(side("  (|| (+ 1/2 3/4) 5/6)  "), expected);
}

#[test]
fn nothing_follows_the_parenthesis_that_closes_a_side() {
    assert_eq!(side("(+ 1/2 3/4) and more )("), Err(ParseError::TrailingText));
    assert_eq!(side("(+ 1/2 3/4))"), Err(ParseError::TrailingText));
    assert_eq!(side("(+ 1/2 3/4)5/6"), Err(ParseError::TrailingText));
    assert_eq!(side("(+ 1/2 3/4) (+ 5/6 7/8)"), Err(ParseError::TrailingText));
    assert_eq!(side("(+ 1/2) x"), Err(ParseError::TrailingText));
    assert_eq!(read("(+ 1/2 3/4) x <: 5/6"), Err(ParseError::TrailingText));
    assert_eq!(read("5/6 <: (. 1/2 3/4)."), Err(ParseError::TrailingText));
    assert_eq!(side(" \t(+ 1/2 (. 3/4 5/6) )\n "), Ok(sum(raw(1, 2), concat(raw(3, 4), raw(5, 6)))));
}

#[test]
fn a_judgment_has_one_arrow() {
    assert_eq!(read("1/2 <: 3/4 <: 5/6"), Err(ParseError::TooManySides));
    assert_eq!(read("(+ 1/2 3/4) <: (. 5/6 7/8) <: ignored"), Err(ParseError::TooManySides));
    assert_eq!(read("1/2 <: 3/4 <:"), Err(ParseError::TooManySides));
    assert_eq!(read("<:<:"), Err(ParseError::TooManySides));
    assert_eq!(read("x <: 3/4 <: y"), Err(ParseError::TooManySides));
    assert_eq!(read("1/2 <: 3/4 <"), Err(ParseError::NotAnExpression));
    assert_eq!(read("1/2 <: 3/4 :"), Err(ParseError::NotAnExpression));
}

#[test]
fn a_judgment_needs_two_sides() {
    assert_eq!(read("10/5"), Err(ParseError::MissingSide));
    assert_eq!(read(""), Err(ParseError::MissingSide));
    assert_eq!(read("10/5 < : 1/2"), Err(ParseError::MissingSide));
    assert_eq!(read("<:"), Err(ParseError::EmptyExpression));
    assert_eq!(read(" <: 1/2"), Err(ParseError::EmptyExpression));
    assert_eq!(read("1/2 <:   "), Err(ParseError::EmptyExpression));
}

#[test]
fn the_left_side_is_read_first() {
    assert_eq!(read("x <: (+ 1/2)"), Err(ParseError::NotAnExpression));
    assert_eq!(read("1/2 <: (+ 1/2)"), Err(ParseError::TooFewOperands));
}

#[test]
fn a_side_is_a_rate_or_begins_with_a_parenthesis() {
    assert_eq!(side("abc"), Err(ParseError::NotAnExpression));
    assert_eq!(side("10/5 x"), Err(ParseError::NotAnExpression));
    assert_eq!(side("10 / 5"), Err(ParseError::NotAnExpression));
    assert_eq!(side("1/2(+ 3/4 5/6)"), Err(ParseError::NotAnExpression));
    assert_eq!(side("+ 1/2 3/4"), Err(ParseError::NotAnExpression));
}

#[test]
fn an_operator_follows_the_parenthesis() {
    assert_eq!(side("("), Err(ParseError::MissingOperator));
    assert_eq!(side("(   "), Err(ParseError::MissingOperator));
    assert_eq!(side("(1/2 + 3/4)"), Err(ParseError::MissingOperator));
    assert_eq!(side("(* 1/2 3/4)"), Err(ParseError::MissingOperator));
    assert_eq!(side("(\n+ 1/2 3/4)"), Err(ParseError::MissingOperator));
    assert_eq!(side("(| 1/2 3/4)"), Err(ParseError::HalfBar));
    assert_eq!(side("(|"), Err(ParseError::HalfBar));
}

#[test]
fn operands_hold_digits_slashes_and_parentheses() {
    assert_eq!(side("(+ 1/2 x)"), Err(ParseError::UnexpectedCharacter));
    assert_eq!(side("(+ 1/2 + 3/4)"), Err(ParseError::UnexpectedCharacter));
    assert_eq!(side("(+ 1/2\n3/4)"), Err(ParseError::UnexpectedCharacter));
}

#[test]
fn parentheses_are_closed() {
    assert_eq!(side("(+ 1/2 3/4"), Err(ParseError::NotClosed));
    assert_eq!(side("(+"), Err(ParseError::NotClosed));
    assert_eq!(side("(+ 1/2 (+ 3/4 5/6)"), Err(ParseError::NotClosed));
    assert_eq!(side("(+ 1/2 (+ 3/4 5/6"), Err(ParseError::UnclosedOperand));
    assert_eq!(side("(+ 1/2 (+ 3/4 (. 5/6 7/8)"), Err(ParseError::UnclosedOperand));
}

#[test]
fn an_operator_has_two_operands_at_least() {
    assert_eq!(side("(+)"), Err(ParseError::TooFewOperands));
    assert_eq!(side("(|| 1/2)"), Err(ParseError::TooFewOperands));
    assert_eq!(side("(. (+ 1/2 3/4))"), Err(ParseError::TooFewOperands));
    assert_eq!(side("(+ 1/2 (. 3/4))"), Err(ParseError::TooFewOperands));
}

#[test]
fn a_rate_is_two_numbers_with_a_slash_between() {
    let rate = |text: &str| parse_rate(&chars_of(text));
    assert_eq!(rate("10/5"), Ok(Rate::new(10, 5).unwrap()));
    assert_eq!(rate("0/1"), Ok(Rate::new(0, 1).unwrap()));
    assert_eq!(
        rate("18446744073709551615/18446744073709551615"),
        Ok(Rate::new(u64::MAX, u64::MAX).unwrap())
    );
    assert_eq!(rate("12"), Err(ParseError::RateWithoutWindow));
    assert_eq!(rate(""), Err(ParseError::BadEventCount));
    assert_eq!(rate("/5"), Err(ParseError::BadEventCount));
    assert_eq!(rate("x/5"), Err(ParseError::BadEventCount));
    assert_eq!(rate("12a/5"), Err(ParseError::BadEventCount));
    assert_eq!(rate("+12/5"), Err(ParseError::BadEventCount));
    assert_eq!(rate("18446744073709551616/5"), Err(ParseError::BadEventCount));
    assert_eq!(rate("10/"), Err(ParseError::BadWindow));
    assert_eq!(rate("10//5"), Err(ParseError::BadWindow));
    assert_eq!(rate("10/5/3"), Err(ParseError::BadWindow));
    assert_eq!(rate("10/5 "), Err(ParseError::BadWindow));
    assert_eq!(rate("10/18446744073709551616"), Err(ParseError::BadWindow));
    assert_eq!(rate("10/0"), Err(ParseError::ZeroWindow));
    assert_eq!(rate("10/000"), Err(ParseError::ZeroWindow));
}

#[test]
fn bad_rates_inside_an_expression() {
    assert_eq!(side("12"), Err(ParseError::RateWithoutWindow));
    assert_eq!(side("(+ 1/2 7)"), Err(ParseError::RateWithoutWindow));
    assert_eq!(side("(+ /2 7/1)"), Err(ParseError::BadEventCount));
    assert_eq!(side("(+ 1/2 7/)"), Err(ParseError::BadWindow));
    assert_eq!(side("(+ 1/2 7/0)"), Err(ParseError::ZeroWindow));
    assert_eq!(side("10/5/3"), Err(ParseError::BadWindow));
    assert_eq!(read("1/0 <: 1/1"), Err(ParseError::ZeroWindow));
}

#[test]
fn numbers() {
    let number = |text: &str| parse_number(&chars_of(text));
    assert_eq!(number("0"), Some(0));
    assert_eq!(number("0042"), Some(42));
    assert_eq!(number("18446744073709551615"), Some(u64::MAX));
    assert_eq!(number("18446744073709551616"), None);
    assert_eq!(number("99999999999999999999999999"), None);
    assert_eq!(number(""), None);
    assert_eq!(number("1 "), None);
    assert_eq!(number("-1"), None);
    assert_eq!(number("12x"), None);
}

#[test]
fn runs_and_trimming() {
    let text = chars_of("  12/3 \t(");
    assert_eq!(skip_run(&text, 0, CharClass::Space), 2);
    assert_eq!(skip_run(&text, 2, CharClass::Digit), 4);
    assert_eq!(skip_run(&text, 2, CharClass::RatePart), 6);
    assert_eq!(skip_run(&text, 6, CharClass::Blank), 8);
    assert_eq!(skip_run(&text, 8, CharClass::Blank), 8);
    assert_eq!(skip_run(&text, 9, CharClass::Blank), 9);
    assert_eq!(skip_run(&text, 12, CharClass::Blank), 12);
    assert_eq!(text_of(trim(&chars_of(" \u{a0}\n a b\t\u{2003}\u{3000}"))), "a b");
    assert_eq!(text_of(trim(&chars_of("  \r\n "))), "");
    assert_eq!(text_of(trim(&chars_of("ab"))), "ab");
    assert_eq!(text_of(trim(&chars_of("\u{200b}a"))), "\u{200b}a");
    for c in ['\u{9}', '\u{b}', '\u{c}', '\u{85}', '\u{1680}', '\u{2028}', '\u{2029}', '\u{202f}', '\u{205f}'] {
        assert!(CharClass::Space.holds(c));
        assert!(c.is_whitespace());
    }
    assert!(!CharClass::Blank.holds('\n'));
    assert!(CharClass::RatePart.holds('/'));
    assert!(!CharClass::Digit.holds('/'));
}

#[test]
fn white_space_is_what_the_standard_library_calls_so() {
    for u in 0..0x3100u32 {
        if let Some(c) = char::from_u32(u) {
            assert_eq!(CharClass::Space.holds(c), c.is_whitespace(), "{:x}", u);
        }
    }
}

#[test]
fn a_parenthesized_chunk_ends_where_its_parenthesis_closes() {
    let text = chars_of("a (b (c) d) e)");
    assert_eq!(get_next_parenthesized_chunk(&text, 2).map(text_of), Ok("(b (c) d)".to_string()));
    assert_eq!(get_next_parenthesized_chunk(&text, 5).map(text_of), Ok("(c)".to_string()));
    assert_eq!(get_next_parenthesized_chunk(&text, 0), Err(ParseError::NotParenthesized));
    assert_eq!(get_next_parenthesized_chunk(&text, 14), Err(ParseError::NotParenthesized));
    let open = chars_of("((a)");
    assert_eq!(get_next_parenthesized_chunk(&open, 0), Err(ParseError::UnclosedOperand));
    assert_eq!(get_next_parenthesized_chunk(&open, 1).map(text_of), Ok("(a)".to_string()));
}

#[test]
fn one_level_of_chunks() {
    let chunks = |text: &str| {
        let chars = chars_of(text);
        chunk_one_level(&chars).map(|(op, v)| (op, v.into_iter().map(text_of).collect::<Vec<_>>()))
    };
    assert_eq!(chunks(""), Ok((ExprOp::Bare, vec![])));
    assert_eq!(chunks("   "), Ok((ExprOp::Bare, vec![])));
    assert_eq!(chunks(" 10/5 "), Ok((ExprOp::Bare, vec!["10/5".to_string()])));
    assert_eq!(chunks("//1"), Ok((ExprOp::Bare, vec!["//1".to_string()])));
    assert_eq!(
        chunks("(|| 10/5 (+ 1/2 (. 3/4 5/6)) 7)"),
        Ok((
            ExprOp::Par,
            vec!["10/5".to_string(), "(+ 1/2 (. 3/4 5/6))".to_string(), "7".to_string()]
        ))
    );
    assert_eq!(chunks("(.)"), Ok((ExprOp::Concat, vec![])));
    assert_eq!(chunks("(+1/2(x)3/4)5"), Ok((
        ExprOp::Sum,
        vec!["1/2".to_string(), "(x)".to_string(), "3/4".to_string()]
    )));
}

#[test]
fn what_stands_behind_an_expression_is_counted() {
    let unread = |text: &str| split_level(&chars_of(text)).map(|(op, v, n)| (op, v.len(), n));
    assert_eq!(unread(""), Ok((ExprOp::Bare, 0, 0)));
    assert_eq!(unread(" 10/5 "), Ok((ExprOp::Bare, 1, 0)));
    assert_eq!(unread(" (+ 1/2 3/4) "), Ok((ExprOp::Sum, 2, 0)));
    assert_eq!(unread("(+ 1/2 3/4)5"), Ok((ExprOp::Sum, 2, 1)));
    assert_eq!(unread("  (|| 1/2 (. 3/4 5/6)) and more  "), Ok((ExprOp::Par, 2, 9)));
    assert_eq!(unread("(+ 1/2 3/4"), Err(ParseError::NotClosed));
    // One level of chunks is cut out whatever follows it.
    let chars = chars_of("(+ 1/2 3/4) and more");
    assert_eq!(chunk_one_level(&chars).map(|(op, v)| (op, v.len())), Ok((ExprOp::Sum, 2)));
    assert_eq!(parse_chunk(&chars), Err(ParseError::TrailingText));
}

#[test]
fn chunks_are_read_as_rates_or_sides() {
    assert_eq!(parse_chunk(&chars_of("3/4")), Ok(raw(3, 4)));
    assert_eq!(parse_chunk(&chars_of("(+ 1/2 3/4)")), Ok(sum(raw(1, 2), raw(3, 4))));
    assert_eq!(parse_chunk(&chars_of("")), Err(ParseError::EmptyChunk));
    assert_eq!(parse_chunk(&chars_of(" 3/4")), Err(ParseError::BadEventCount));
}

#[test]
fn operands_are_folded_under_their_operator() {
    let a = chars_of("1/2");
    let b = chars_of(" (+ 3/4 5/6) ");
    let c = chars_of("7/8");
    let all: Vec<&[char]> = vec![&a, &b, &c];
    assert_eq!(generate_streamrate_rec(&ExprOp::Sum, &[]), Ok(None));
    assert_eq!(generate_streamrate_rec(&ExprOp::Sum, &all[..1]), Ok(Some(raw(1, 2))));
    assert_eq!(generate_streamrate_rec(&ExprOp::Bare, &all[..1]), Ok(Some(raw(1, 2))));
    assert_eq!(generate_streamrate_rec(&ExprOp::Bare, &all), Ok(None));
    assert_eq!(
        generate_streamrate_rec(&ExprOp::Concat, &all),
        Ok(Some(concat(raw(1, 2), concat(sum(raw(3, 4), raw(5, 6)), raw(7, 8)))))
    );
    assert_eq!(
        generate_streamrate(&ExprOp::Par, &all),
        Ok(par(raw(1, 2), par(sum(raw(3, 4), raw(5, 6)), raw(7, 8))))
    );
    assert_eq!(generate_streamrate(&ExprOp::Par, &all[..1]), Err(ParseError::TooFewOperands));
    assert_eq!(generate_streamrate(&ExprOp::Par, &[]), Err(ParseError::TooFewOperands));
    assert_eq!(generate_streamrate(&ExprOp::Bare, &all), Err(ParseError::MissingOperator));
    let bad = chars_of("7/0");
    let with_bad: Vec<&[char]> = vec![&a, &bad];
    assert_eq!(generate_streamrate(&ExprOp::Sum, &with_bad), Err(ParseError::ZeroWindow));
}
