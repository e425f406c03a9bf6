use ratelimitsub::parse::{parse, parse_side, ExprOp};
use ratelimitsub::rate::Rate;
use ratelimitsub::render::{compound, digits, render, render_judgment, symbol};
use ratelimitsub::stream::StreamRate;

fn raw(events: u64, window: u64) -> StreamRate {
    StreamRate::Raw(Rate::new(events, window).unwrap())
}

fn sum(a: StreamRate, b: StreamRate) -> StreamRate {
    StreamRate::Sum(Box::new(a), Box::new(b))
}

fn par(a: StreamRate, b: StreamRate) -> StreamRate {
    StreamRate::Par(Box::new(a), Box::new(b))
}

fn concat(a: StreamRate, b: StreamRate) -> StreamRate {
    StreamRate::Concat(Box::new(a), Box::new(b))
}

fn text(chars: Vec<char>) -> String {
    chars.into_iter().collect()
}

fn samples() -> Vec<StreamRate> {
    vec![
        raw(0, 1),
        raw(10, 5),
        raw(u64::MAX, u64::MAX),
        sum(raw(1, 2), raw(3, 4)),
        par(raw(10, 3), raw(12, 5)),
        concat(par(raw(300, 50), par(raw(40, 10), raw(50, 5))), raw(2, 1)),
        sum(sum(sum(raw(1, 1), raw(2, 2)), raw(3, 3)), concat(raw(4, 4), par(raw(5, 5), raw(6, 6)))),
    ]
}

#[test]
fn numbers_are_written_without_leading_zeros() {
    assert_eq!(text(digits(0)), "0");
    assert_eq!(text(digits(9)), "9");
    assert_eq!(text(digits(10)), "10");
    assert_eq!(text(digits(1090809383)), "1090809383");
    assert_eq!(text(digits(u64::MAX)), "18446744073709551615");
}

#[test]
fn operators_as_they_are_written() {
    assert_eq!(text(symbol(ExprOp::Sum)), "+");
    assert_eq!(text(symbol(ExprOp::Par)), "||");
    assert_eq!(text(symbol(ExprOp::Concat)), ".");
    assert_eq!(text(symbol(ExprOp::Bare)), "");
    assert_eq!(text(compound(ExprOp::Par, vec!['a'], vec!['b', 'c'])), "(|| a bc)");
}

#[test]
fn expressions_are_written_in_prefix_form() {
    assert_eq!(text(render(&raw(10, 5))), "10/5");
    assert_eq!(text(render(&sum(raw(1, 2), raw(3, 4)))), "(+ 1/2 3/4)");
    assert_eq!(
        text(render(&concat(par(raw(300, 50), par(raw(40, 10), raw(50, 5))), raw(2, 1)))),
        "(. (|| 300/50 (|| 40/10 50/5)) 2/1)"
    );
    assert_eq!(
        text(render_judgment(&par(raw(10, 3), raw(12, 5)), &raw(7, 1))),
        "(|| 10/3 12/5) <: 7/1"
    );
}

#[test]
fn what_is_written_is_read_back() {
    for left in samples() {
        assert_eq!(parse_side(&render(&left)).as_ref(), Ok(&left));
        for right in samples() {
            let written = text(render_judgment(&left, &right));
            let (l, r) = parse(&written).unwrap();
            assert_eq!(l, left, "{}", written);
            assert_eq!(r, right, "{}", written);
        }
    }
}
