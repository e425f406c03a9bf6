//! The textual form that every stream-rate expression has, and the proof
//! that the reader gives the expression back when it reads that form.

use crate::parse::{
    arrow_at, chunk_one_level_spec, closing_spec, decimal, generate_streamrate_rec_spec,
    generate_streamrate_spec, lemma_padded, lemma_parse_side_trims, lemma_run_exact,
    lemma_trim_fixed, operands_spec, operator_spec, parse_chunk_spec, parse_rate_spec,
    parse_side_spec, parse_spec, run_end, trim_spec, unread_spec, CharClass, ExprOp, ParseError,
};
use crate::rate::lemma_rate_of;
use crate::stream::StreamRate;
use vstd::prelude::*;

verus! {

/// The character that writes the digit `d`.
pub open spec fn digit_char(d: nat) -> char {
    ((d + 48) as u8) as char
}

/// The decimal digits of `n`, without leading zeros.
pub open spec fn digits_spec(n: nat) -> Seq<char>
    decreases n,
{
    if n < 10 {
        seq![digit_char(n)]
    } else {
        digits_spec(n / 10).push(digit_char(n % 10))
    }
}

/// The digits of a number are digits, at least one, and write the number.
pub proof fn lemma_digits(n: nat)
    ensures
        digits_spec(n).len() >= 1,
        forall|i: int|
            0 <= i < digits_spec(n).len() ==> CharClass::Digit.holds_spec(
                #[trigger] digits_spec(n)[i],
            ),
        decimal(digits_spec(n)) == n,
    decreases n,
{
    reveal_with_fuel(decimal, 2);
    if n < 10 {
        let s = seq![digit_char(n)];
        assert(s.drop_last() == Seq::<char>::empty());
        assert(s.last() == digit_char(n));
        assert(digit_char(n) as u32 == n + 48);
    } else {
        lemma_digits(n / 10);
        let front = digits_spec(n / 10);
        let s = front.push(digit_char(n % 10));
        assert(s.drop_last() == front);
        assert(digit_char(n % 10) as u32 == n % 10 + 48);
    }
}

/// The text `events/window`.
pub open spec fn render_rate(events: nat, window: nat) -> Seq<char> {
    digits_spec(events) + seq!['/'] + digits_spec(window)
}

/// The reader takes the text of a rate for that rate.
pub proof fn lemma_rate_round_trip(events: u64, window: u64)
    requires
        window >= 1,
    ensures
        parse_rate_spec(render_rate(events as nat, window as nat)) == Ok::<
            (u64, u64),
            ParseError,
        >((events, window)),
{
    let e = digits_spec(events as nat);
    let w = digits_spec(window as nat);
    let s = render_rate(events as nat, window as nat);
    lemma_digits(events as nat);
    lemma_digits(window as nat);
    let slash = e.len() as int;
    assert(s[slash] == '/');
    assert forall|k: int| 0 <= k < slash implies CharClass::Digit.holds_spec(#[trigger] s[k]) by {
        assert(s[k] == e[k]);
    }
    lemma_run_exact(s, 0, slash, CharClass::Digit);
    assert(s.subrange(0, slash) == e);
    assert(s.subrange(slash + 1, s.len() as int) == w);
    lemma_run_exact(e, 0, e.len() as int, CharClass::Digit);
    lemma_run_exact(w, 0, w.len() as int, CharClass::Digit);
}

/// How an operator is written.
pub open spec fn symbol_spec(op: ExprOp) -> Seq<char> {
    match op {
        ExprOp::Sum => seq!['+'],
        ExprOp::Par => seq!['|', '|'],
        ExprOp::Concat => seq!['.'],
        ExprOp::Bare => Seq::empty(),
    }
}

/// The text `(op a b)`.
pub open spec fn compound_spec(op: ExprOp, a: Seq<char>, b: Seq<char>) -> Seq<char> {
    seq!['('] + symbol_spec(op) + seq![' '] + a + seq![' '] + b + seq![')']
}

/// The text of a stream-rate expression: a rate as `events/window`, an
/// operator with its two operands in prefix form and in parentheses.
pub open spec fn render_spec(sr: StreamRate) -> Seq<char>
    decreases sr,
{
    match sr {
        StreamRate::Raw(r) => render_rate(r.events_spec() as nat, r.window_spec() as nat),
        StreamRate::Sum(a, b) => compound_spec(ExprOp::Sum, render_spec(*a), render_spec(*b)),
        StreamRate::Par(a, b) => compound_spec(ExprOp::Par, render_spec(*a), render_spec(*b)),
        StreamRate::Concat(a, b) => compound_spec(
            ExprOp::Concat,
            render_spec(*a),
            render_spec(*b),
        ),
    }
}

/// Whether every rate in `sr` has a window.
pub open spec fn well_formed(sr: StreamRate) -> bool
    decreases sr,
{
    match sr {
        StreamRate::Raw(r) => r.wf(),
        StreamRate::Sum(a, b) | StreamRate::Par(a, b) | StreamRate::Concat(a, b) => well_formed(*a)
            && well_formed(*b),
    }
}

/// The operator at the root of `sr`, and its two operands.
pub open spec fn root(sr: StreamRate) -> (ExprOp, StreamRate, StreamRate) {
    match sr {
        StreamRate::Raw(_) => (ExprOp::Bare, sr, sr),
        StreamRate::Sum(a, b) => (ExprOp::Sum, *a, *b),
        StreamRate::Par(a, b) => (ExprOp::Par, *a, *b),
        StreamRate::Concat(a, b) => (ExprOp::Concat, *a, *b),
    }
}

/// Where the parts of `(op a b)` stand.
proof fn lemma_layout(op: ExprOp, a: Seq<char>, b: Seq<char>)
    requires
        op != ExprOp::Bare,
    ensures
        ({
            let x = compound_spec(op, a, b);
            let k = symbol_spec(op).len() as int;
            &&& 1 <= k <= 2
            &&& x.len() == k + a.len() + b.len() + 4
            &&& x[0] == '('
            &&& x.subrange(1, 1 + k) == symbol_spec(op)
            &&& x[1 + k] == ' '
            &&& x.subrange(2 + k, 2 + k + a.len()) == a
            &&& x[2 + k + a.len()] == ' '
            &&& x.subrange(3 + k + a.len(), 3 + k + a.len() + b.len()) == b
            &&& x[3 + k + a.len() + b.len()] == ')'
        }),
{
}

/// A text that stands in `s` at `i` has its parts in `s` where it has them
/// in itself, `i` places on.
proof fn lemma_within(s: Seq<char>, i: int, x: Seq<char>, from: int, to: int)
    requires
        0 <= i,
        i + x.len() <= s.len(),
        s.subrange(i, i + x.len()) == x,
        0 <= from <= to <= x.len(),
    ensures
        s.subrange(i + from, i + to) == x.subrange(from, to),
        forall|j: int| 0 <= j < x.len() ==> s[i + j] == #[trigger] x[j],
{
    assert forall|j: int| 0 <= j < x.len() implies s[i + j] == #[trigger] x[j] by {
        assert(s.subrange(i, i + x.len())[j] == s[i + j]);
    }
    assert(s.subrange(i + from, i + to) =~= x.subrange(from, to));
}

/// The text of a rate is made of digits and one `/`; the text of any other
/// expression is parenthesized. No text holds a `<`.
pub proof fn lemma_shape(sr: StreamRate)
    ensures
        render_spec(sr).len() >= 3,
        sr is Raw ==> forall|j: int|
            0 <= j < render_spec(sr).len() ==> CharClass::RatePart.holds_spec(
                #[trigger] render_spec(sr)[j],
            ),
        !(sr is Raw) ==> render_spec(sr)[0] == '(' && render_spec(sr).last() == ')',
        !CharClass::Space.holds_spec(render_spec(sr)[0]),
        !CharClass::Space.holds_spec(render_spec(sr).last()),
        forall|j: int| 0 <= j < render_spec(sr).len() ==> #[trigger] render_spec(sr)[j] != '<',
    decreases sr,
{
    let x = render_spec(sr);
    match sr {
        StreamRate::Raw(r) => {
            let e = digits_spec(r.events_spec() as nat);
            let w = digits_spec(r.window_spec() as nat);
            lemma_digits(r.events_spec() as nat);
            lemma_digits(r.window_spec() as nat);
            assert forall|j: int| 0 <= j < x.len() implies CharClass::RatePart.holds_spec(
                #[trigger] x[j],
            ) by {
                if j < e.len() {
                    assert(x[j] == e[j]);
                } else if j > e.len() {
                    assert(x[j] == w[j - e.len() - 1]);
                }
            }
            assert(CharClass::RatePart.holds_spec(x[0]));
            assert(CharClass::RatePart.holds_spec(x[x.len() - 1]));
        },
        StreamRate::Sum(a, b) | StreamRate::Par(a, b) | StreamRate::Concat(a, b) => {
            let op = root(sr).0;
            let (ta, tb) = (render_spec(*a), render_spec(*b));
            lemma_shape(*a);
            lemma_shape(*b);
            lemma_layout(op, ta, tb);
            let k = symbol_spec(op).len() as int;
            assert forall|j: int| 0 <= j < x.len() implies #[trigger] x[j] != '<' by {
                if 1 <= j < 1 + k {
                    assert(x[j] == x.subrange(1, 1 + k)[j - 1]);
                } else if 2 + k <= j < 2 + k + ta.len() {
                    assert(x[j] == x.subrange(2 + k, 2 + k + ta.len())[j - 2 - k]);
                } else if 3 + k + ta.len() <= j < 3 + k + ta.len() + tb.len() {
                    assert(x[j] == x.subrange(
                        3 + k + ta.len(),
                        3 + k + ta.len() + tb.len(),
                    )[j - 3 - k - ta.len()]);
                }
            }
        },
    }
}

/// Where no parenthesis stands, the search for the closing one goes on.
proof fn lemma_skip_plain(s: Seq<char>, i: int, j: int, depth: nat)
    requires
        0 <= i <= j <= s.len(),
        forall|k: int| i <= k < j ==> #[trigger] s[k] != '(' && s[k] != ')',
    ensures
        closing_spec(s, i, depth) == closing_spec(s, j, depth),
    decreases j - i,
{
    if i < j {
        assert(s[i] != '(' && s[i] != ')');
        lemma_skip_plain(s, i + 1, j, depth);
    }
}

/// Behind the opening parenthesis of a parenthesized expression, the search
/// for a closing parenthesis comes to the one that closes the expression
/// with the depth it began with.
proof fn lemma_skip_inside(s: Seq<char>, i: int, sr: StreamRate, depth: nat)
    requires
        !(sr is Raw),
        depth >= 1,
        0 <= i,
        i + render_spec(sr).len() <= s.len(),
        s.subrange(i, i + render_spec(sr).len()) == render_spec(sr),
    ensures
        closing_spec(s, i + 1, depth) == closing_spec(s, i + render_spec(sr).len() - 1, depth),
    decreases sr, 0nat,
{
    let x = render_spec(sr);
    let (op, a, b) = root(sr);
    let (ta, tb) = (render_spec(a), render_spec(b));
    let k = symbol_spec(op).len() as int;
    lemma_layout(op, ta, tb);
    let pa = 2 + k;
    let pb = 3 + k + ta.len();
    lemma_within(s, i, x, 1, 1 + k);
    lemma_within(s, i, x, pa, pa + ta.len());
    lemma_within(s, i, x, pb, pb + tb.len());
    assert forall|j: int| i + 1 <= j < i + pa implies #[trigger] s[j] != '(' && s[j] != ')' by {
        assert(s[j] == x[j - i]);
        if j < i + 1 + k {
            assert(x[j - i] == x.subrange(1, 1 + k)[j - i - 1]);
        }
    }
    lemma_skip_plain(s, i + 1, i + pa, depth);
    lemma_skip(s, i + pa, a, depth);
    assert(s[i + pb - 1] == x[pb - 1]);
    lemma_skip_plain(s, i + pb - 1, i + pb, depth);
    lemma_skip(s, i + pb, b, depth);
}

/// The search for a closing parenthesis passes over the text of an
/// expression.
proof fn lemma_skip(s: Seq<char>, i: int, sr: StreamRate, depth: nat)
    requires
        depth >= 1,
        0 <= i,
        i + render_spec(sr).len() <= s.len(),
        s.subrange(i, i + render_spec(sr).len()) == render_spec(sr),
    ensures
        closing_spec(s, i, depth) == closing_spec(s, i + render_spec(sr).len(), depth),
    decreases sr, 1nat,
{
    let x = render_spec(sr);
    lemma_shape(sr);
    lemma_within(s, i, x, 0, 0);
    if sr is Raw {
        assert forall|j: int| i <= j < i + x.len() implies #[trigger] s[j] != '(' && s[j]
            != ')' by {
            assert(s[j] == x[j - i]);
            assert(CharClass::RatePart.holds_spec(x[j - i]));
        }
        lemma_skip_plain(s, i, i + x.len(), depth);
    } else {
        assert(s[i] == x[0]);
        assert(s[i + x.len() - 1] == x[x.len() - 1]);
        lemma_skip_inside(s, i, sr, depth + 1);
    }
}

/// The text of an expression has no white space at its ends.
proof fn lemma_trim_rendered(sr: StreamRate)
    ensures
        trim_spec(render_spec(sr)) == render_spec(sr),
{
    lemma_shape(sr);
    lemma_trim_fixed(render_spec(sr));
}

/// The reader takes the text of an expression, where it stands among the
/// operands, for one operand.
proof fn lemma_operand(t: Seq<char>, p: int, sr: StreamRate, found: Seq<Seq<char>>)
    requires
        0 <= p,
        p + render_spec(sr).len() < t.len(),
        t.subrange(p, p + render_spec(sr).len()) == render_spec(sr),
        t[p + render_spec(sr).len()] == ' ' || t[p + render_spec(sr).len()] == ')',
    ensures
        operands_spec(t, p, found) == operands_spec(
            t,
            p + render_spec(sr).len(),
            found.push(render_spec(sr)),
        ),
{
    let x = render_spec(sr);
    let q = p + x.len();
    lemma_shape(sr);
    lemma_within(t, p, x, 0, 0);
    assert(t[p] == x[0]);
    if sr is Raw {
        assert forall|k: int| p <= k < q implies CharClass::RatePart.holds_spec(#[trigger] t[k]) by {
            assert(t[k] == x[k - p]);
        }
        assert(CharClass::RatePart.holds_spec(t[p]));
        lemma_run_exact(t, p, q, CharClass::RatePart);
    } else {
        assert(t[q - 1] == x[x.len() - 1]);
        lemma_skip_inside(t, p, sr, 1);
        assert(closing_spec(t, q - 1, 1) == Some(q - 1));
    }
}

/// The reader finds in the text of a parenthesized expression its operator
/// and the texts of its two operands.
proof fn lemma_chunks_of_rendered(sr: StreamRate)
    requires
        !(sr is Raw),
    ensures
        chunk_one_level_spec(render_spec(sr)) == Ok::<(ExprOp, Seq<Seq<char>>), ParseError>(
            (root(sr).0, seq![render_spec(root(sr).1), render_spec(root(sr).2)]),
        ),
        unread_spec(render_spec(sr)) == 0,
{
    let x = render_spec(sr);
    let (op, a, b) = root(sr);
    let (ta, tb) = (render_spec(a), render_spec(b));
    let k = symbol_spec(op).len() as int;
    lemma_trim_rendered(sr);
    lemma_layout(op, ta, tb);
    let pa = 2 + k;
    let pb = 3 + k + ta.len();
    assert(x[1] == x.subrange(1, 1 + k)[0]);
    if k == 2 {
        assert(x[2] == x.subrange(1, 1 + k)[1]);
    }
    assert(run_end(x, 1, CharClass::Blank) == 1);
    assert(operator_spec(x, 1) == Ok::<(ExprOp, int), ParseError>((op, 1 + k)));
    let none = Seq::<Seq<char>>::empty();
    assert(operands_spec(x, 1 + k, none) == operands_spec(x, pa, none));
    lemma_operand(x, pa, a, none);
    assert(operands_spec(x, pb - 1, none.push(ta)) == operands_spec(x, pb, none.push(ta)));
    lemma_operand(x, pb, b, none.push(ta));
    assert(operands_spec(x, pb + tb.len(), none.push(ta).push(tb)) == Ok::<
        (Seq<Seq<char>>, int),
        ParseError,
    >((none.push(ta).push(tb), x.len() as int)));
    assert(none.push(ta).push(tb) == seq![ta, tb]);
}

/// The reader gives back the expression whose text it reads.
pub proof fn lemma_side_round_trip(sr: StreamRate)
    requires
        well_formed(sr),
    ensures
        parse_side_spec(render_spec(sr)) == Ok::<StreamRate, ParseError>(sr),
    decreases sr, 0nat,
{
    let x = render_spec(sr);
    lemma_shape(sr);
    match sr {
        StreamRate::Raw(r) => {
            lemma_trim_rendered(sr);
            lemma_rate_of(r);
            lemma_run_exact(x, 0, x.len() as int, CharClass::RatePart);
            lemma_rate_round_trip(r.events_spec() as u64, r.window_spec() as u64);
            assert(x[0] != '(') by {
                assert(CharClass::RatePart.holds_spec(x[0]));
            }
            assert(chunk_one_level_spec(x) == Ok::<(ExprOp, Seq<Seq<char>>), ParseError>(
                (ExprOp::Bare, seq![x]),
            ));
        },
        StreamRate::Sum(a, b) | StreamRate::Par(a, b) | StreamRate::Concat(a, b) => {
            let op = root(sr).0;
            let (ta, tb) = (render_spec(*a), render_spec(*b));
            lemma_chunks_of_rendered(sr);
            lemma_operand_round_trip(*a);
            lemma_operand_round_trip(*b);
            let chunks = seq![ta, tb];
            assert(chunks.drop_first() == seq![tb]);
            assert(seq![tb].drop_first() == Seq::<Seq<char>>::empty());
            assert(generate_streamrate_rec_spec(op, seq![tb]) == Ok::<
                Option<StreamRate>,
                ParseError,
            >(Some(*b)));
            assert(generate_streamrate_rec_spec(op, chunks) == Ok::<
                Option<StreamRate>,
                ParseError,
            >(Some(sr)));
            assert(generate_streamrate_spec(op, chunks) == Ok::<StreamRate, ParseError>(sr));
        },
    }
}

/// The reader gives back the expression whose text it reads as an operand.
pub proof fn lemma_operand_round_trip(sr: StreamRate)
    requires
        well_formed(sr),
    ensures
        parse_chunk_spec(trim_spec(render_spec(sr))) == Ok::<StreamRate, ParseError>(sr),
    decreases sr, 1nat,
{
    let x = render_spec(sr);
    lemma_shape(sr);
    lemma_trim_rendered(sr);
    match sr {
        StreamRate::Raw(r) => {
            lemma_rate_of(r);
            lemma_rate_round_trip(r.events_spec() as u64, r.window_spec() as u64);
            assert(x[0] != '(') by {
                assert(CharClass::RatePart.holds_spec(x[0]));
            }
        },
        _ => {
            lemma_side_round_trip(sr);
        },
    }
}

/// The text `left <: right` of a judgment.
pub open spec fn render_judgment_spec(left: StreamRate, right: StreamRate) -> Seq<char> {
    render_spec(left) + seq![' ', '<', ':', ' '] + render_spec(right)
}

/// The first `<:` at or after `i` stands at `j`, where no `<` stands before.
proof fn lemma_arrow_exact(s: Seq<char>, i: int, j: int)
    requires
        0 <= i <= j <= s.len(),
        forall|k: int| i <= k < j ==> #[trigger] s[k] != '<',
        j == s.len() || (j + 1 < s.len() && s[j] == '<' && s[j + 1] == ':'),
    ensures
        arrow_at(s, i) == j,
    decreases j - i,
{
    if i < j {
        assert(s[i] != '<');
        lemma_arrow_exact(s, i + 1, j);
    }
}

/// The reader gives back the two expressions of the judgment whose text it
/// reads.
pub proof fn lemma_judgment_round_trip(left: StreamRate, right: StreamRate)
    requires
        well_formed(left),
        well_formed(right),
    ensures
        parse_spec(render_judgment_spec(left, right)) == Ok::<
            (StreamRate, StreamRate),
            ParseError,
        >((left, right)),
{
    let l = render_spec(left);
    let r = render_spec(right);
    let s = render_judgment_spec(left, right);
    lemma_shape(left);
    lemma_shape(right);
    let a = l.len() as int + 1;
    assert forall|k: int| 0 <= k < a implies #[trigger] s[k] != '<' by {
        if k < l.len() {
            assert(s[k] == l[k]);
        }
    }
    lemma_arrow_exact(s, 0, a);
    let before = s.subrange(0, a);
    let rest = s.subrange(a + 2, s.len() as int);
    assert(before == l.push(' '));
    assert(rest == seq![' '] + r);
    assert forall|k: int| 0 <= k < rest.len() implies #[trigger] rest[k] != '<' by {
        if k > 0 {
            assert(rest[k] == r[k - 1]);
        }
    }
    lemma_arrow_exact(rest, 0, rest.len() as int);
    lemma_padded(l, Seq::empty(), seq![' ']);
    lemma_padded(r, seq![' '], Seq::empty());
    assert(Seq::<char>::empty() + l + seq![' '] == before);
    assert(seq![' '] + r + Seq::<char>::empty() == rest);
    lemma_parse_side_trims(before);
    lemma_parse_side_trims(rest);
    lemma_side_round_trip(left);
    lemma_side_round_trip(right);
}

/// Writes `n` in decimal digits.
pub fn digits(n: u64) -> (text: Vec<char>)
    ensures
        text@ == digits_spec(n as nat),
    decreases n,
{
    if n < 10 {
        let mut text: Vec<char> = Vec::new();
        text.push((n as u8 + 48) as char);
        assert(text@ == seq![digit_char(n as nat)]);
        text
    } else {
        let mut text = digits(n / 10);
        text.push(((n % 10) as u8 + 48) as char);
        text
    }
}

/// Writes an operator.
pub fn symbol(op: ExprOp) -> (text: Vec<char>)
    ensures
        text@ == symbol_spec(op),
{
    let mut text: Vec<char> = Vec::new();
    match op {
        ExprOp::Sum => {
            text.push('+');
        },
        ExprOp::Par => {
            text.push('|');
            text.push('|');
        },
        ExprOp::Concat => {
            text.push('.');
        },
        ExprOp::Bare => {},
    }
    assert(text@ =~= symbol_spec(op));
    text
}

/// Writes `(op a b)`.
pub fn compound(op: ExprOp, a: Vec<char>, b: Vec<char>) -> (text: Vec<char>)
    ensures
        text@ == compound_spec(op, a@, b@),
{
    let mut first = a;
    let mut second = b;
    let mut text: Vec<char> = Vec::new();
    text.push('(');
    let mut sign = symbol(op);
    text.append(&mut sign);
    text.push(' ');
    text.append(&mut first);
    text.push(' ');
    text.append(&mut second);
    text.push(')');
    assert(text@ =~= compound_spec(op, a@, b@));
    text
}

/// Writes a stream-rate expression in the form that the reader reads.
pub fn render(sr: &StreamRate) -> (text: Vec<char>)
    ensures
        text@ == render_spec(*sr),
    decreases *sr,
{
    match sr {
        StreamRate::Raw(r) => {
            let mut text = digits(r.events());
            text.push('/');
            let mut window = digits(r.window());
            text.append(&mut window);
            assert(text@ =~= render_rate(r.events_spec() as nat, r.window_spec() as nat));
            text
        },
        StreamRate::Sum(a, b) => compound(ExprOp::Sum, render(a), render(b)),
        StreamRate::Par(a, b) => compound(ExprOp::Par, render(a), render(b)),
        StreamRate::Concat(a, b) => compound(ExprOp::Concat, render(a), render(b)),
    }
}

/// Writes the judgment `left <: right`.
pub fn render_judgment(left: &StreamRate, right: &StreamRate) -> (text: Vec<char>)
    ensures
        text@ == render_judgment_spec(*left, *right),
{
    let mut text = render(left);
    text.push(' ');
    text.push('<');
    text.push(':');
    text.push(' ');
    let mut second = render(right);
    text.append(&mut second);
    assert(text@ =~= render_judgment_spec(*left, *right));
    text
}

} // verus!
