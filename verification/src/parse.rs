//! The textual form of a subtyping judgment and its reader.
//!
//! A judgment is written `left <: right`. Each side is a rate `n/t`, or an
//! operator applied to two or more sides, in prefix form and in parentheses:
//! `(+ a b)` for a union, `(|| a b)` for a parallel merge and `(. a b)` for a
//! sequence. An operator with more operands than two nests to the right.

use crate::rate::Rate;
use crate::stream::StreamRate;
use vstd::prelude::*;

verus! {

/// The characters of `s`, one by one.
pub fn chars_of(s: &str) -> (v: Vec<char>)
    ensures
        v@ == s@,
{
    let mut v: Vec<char> = Vec::new();
    for c in it: s.chars()
        invariant
            v@ == it.seq().take(it.index() as int),
    {
        v.push(c);
    }
    v
}


/// Why a text is not a judgment.
#[derive(Clone, Copy, Debug, PartialEq, Eq, Structural)]
pub enum ParseError {
    /// There is no `<:` with a side on either hand.
    MissingSide,
    /// There is more than one `<:`.
    TooManySides,
    /// A side holds nothing.
    EmptyExpression,
    /// A side neither begins with `(` nor is a single rate.
    NotAnExpression,
    /// No operator follows an opening parenthesis.
    MissingOperator,
    /// A single `|` stands where `||` is meant.
    HalfBar,
    /// A character stands among the operands that no operand can hold.
    UnexpectedCharacter,
    /// The text ends before the parenthesis of an expression is closed.
    NotClosed,
    /// The text ends before the parenthesis of an operand is closed.
    UnclosedOperand,
    /// Something stands behind the parenthesis that closes a side.
    TrailingText,
    /// An operator has fewer than two operands.
    TooFewOperands,
    /// An operand holds nothing.
    EmptyChunk,
    /// What should be a parenthesized operand does not begin with `(`.
    NotParenthesized,
    /// A rate has no `/`.
    RateWithoutWindow,
    /// What stands before the `/` of a rate is not a number that fits.
    BadEventCount,
    /// What stands after the `/` of a rate is not a number that fits.
    BadWindow,
    /// The window of a rate is 0.
    ZeroWindow,
}

/// The operator of an expression, or none where it is a single rate.
#[derive(Clone, Copy, Debug, PartialEq, Eq, Structural)]
pub enum ExprOp {
    Bare,
    Sum,
    Par,
    Concat,
}

/// A set of characters that the reader runs over in one go.
#[derive(Clone, Copy, Debug, PartialEq, Eq, Structural)]
pub enum CharClass {
    /// White space, as Unicode defines it.
    Space,
    /// A space or a tab.
    Blank,
    /// A decimal digit.
    Digit,
    /// A decimal digit or `/`.
    RatePart,
}

impl CharClass {
    /// Whether `c` belongs to the class.
    pub open spec fn holds_spec(self, c: char) -> bool {
        match self {
            CharClass::Space => {
                let u = c as u32;
                ||| 0x09 <= u <= 0x0D
                ||| u == 0x20
                ||| u == 0x85
                ||| u == 0xA0
                ||| u == 0x1680
                ||| 0x2000 <= u <= 0x200A
                ||| u == 0x2028
                ||| u == 0x2029
                ||| u == 0x202F
                ||| u == 0x205F
                ||| u == 0x3000
            },
            CharClass::Blank => c == ' ' || c == '\t',
            CharClass::Digit => '0' <= c <= '9',
            CharClass::RatePart => '0' <= c <= '9' || c == '/',
        }
    }

    /// Whether `c` belongs to the class.
    pub fn holds(self, c: char) -> (b: bool)
        ensures
            b == self.holds_spec(c),
    {
        match self {
            CharClass::Space => {
                let u = c as u32;
                (0x09 <= u && u <= 0x0D) || u == 0x20 || u == 0x85 || u == 0xA0 || u == 0x1680 || (
                0x2000 <= u && u <= 0x200A) || u == 0x2028 || u == 0x2029 || u == 0x202F || u
                    == 0x205F || u == 0x3000
            },
            CharClass::Blank => c == ' ' || c == '\t',
            CharClass::Digit => '0' <= c && c <= '9',
            CharClass::RatePart => ('0' <= c && c <= '9') || c == '/',
        }
    }
}

/// The first place at or after `i` where `s` holds no character of `class`,
/// or the length of `s` if there is none.
pub open spec fn run_end(s: Seq<char>, i: int, class: CharClass) -> int
    decreases s.len() - i,
{
    if 0 <= i < s.len() && class.holds_spec(s[i]) {
        run_end(s, i + 1, class)
    } else {
        i
    }
}

/// The least place at or after `low` such that `s` holds only characters of
/// `class` from there up to `j`.
pub open spec fn run_start(s: Seq<char>, low: int, j: int, class: CharClass) -> int
    decreases j - low,
{
    if 0 <= low < j <= s.len() && class.holds_spec(s[j - 1]) {
        run_start(s, low, j - 1, class)
    } else {
        j
    }
}

/// `s` without the white space at its start and at its end.
pub open spec fn trim_spec(s: Seq<char>) -> Seq<char> {
    let a = run_end(s, 0, CharClass::Space);
    let b = run_start(s, a, s.len() as int, CharClass::Space);
    s.subrange(a, b)
}

/// A run ends at or after the place where it begins, and within the text.
pub proof fn lemma_run_end_bounds(s: Seq<char>, i: int, class: CharClass)
    requires
        0 <= i <= s.len(),
    ensures
        i <= run_end(s, i, class) <= s.len(),
    decreases s.len() - i,
{
    if i < s.len() && class.holds_spec(s[i]) {
        lemma_run_end_bounds(s, i + 1, class);
    }
}

/// A run that is followed backwards begins between the bound and the place
/// where it ends.
pub proof fn lemma_run_start_bounds(s: Seq<char>, low: int, j: int, class: CharClass)
    requires
        0 <= low <= j <= s.len(),
    ensures
        low <= run_start(s, low, j, class) <= j,
    decreases j,
{
    if low < j && class.holds_spec(s[j - 1]) {
        lemma_run_start_bounds(s, low, j - 1, class);
    }
}

/// Runs over the characters of `class` that `s` holds from `i` on.
pub fn skip_run(s: &[char], i: usize, class: CharClass) -> (j: usize)
    ensures
        j == run_end(s@, i as int, class),
        i <= j,
        i <= s@.len() ==> j <= s@.len(),
{
    let mut j = i;
    while j < s.len() && class.holds(s[j])
        invariant
            i <= j,
            i <= s@.len() ==> j <= s@.len(),
            run_end(s@, j as int, class) == run_end(s@, i as int, class),
        decreases s@.len() - j,
    {
        j += 1;
    }
    j
}

/// Cuts the white space off both ends of `s`.
pub fn trim(s: &[char]) -> (t: &[char])
    ensures
        t@ == trim_spec(s@),
{
    let a = skip_run(s, 0, CharClass::Space);
    let mut b = s.len();
    while a < b && CharClass::Space.holds(s[b - 1])
        invariant
            a <= b <= s@.len(),
            run_start(s@, a as int, b as int, CharClass::Space) == run_start(
                s@,
                a as int,
                s@.len() as int,
                CharClass::Space,
            ),
        decreases b,
    {
        b -= 1;
    }
    vstd::slice::slice_subrange(s, a, b)
}

/// The number that the decimal digits `digits` write.
pub open spec fn decimal(digits: Seq<char>) -> nat
    decreases digits.len(),
{
    if digits.len() == 0 {
        0
    } else {
        decimal(digits.drop_last()) * 10 + ((digits.last() as u32 - '0' as u32) as nat)
    }
}

/// The number that `text` writes, if it is made of decimal digits, at least
/// one, and the number fits.
pub open spec fn number_spec(text: Seq<char>) -> Option<u64> {
    if text.len() > 0 && run_end(text, 0, CharClass::Digit) == text.len() && decimal(text)
        <= u64::MAX {
        Some(decimal(text) as u64)
    } else {
        None
    }
}

proof fn lemma_decimal_grows(digits: Seq<char>, k: int)
    requires
        0 <= k <= digits.len(),
        forall|i: int| 0 <= i < digits.len() ==> CharClass::Digit.holds_spec(#[trigger] digits[i]),
    ensures
        decimal(digits.take(k)) <= decimal(digits),
    decreases digits.len() - k,
{
    if k < digits.len() {
        lemma_decimal_grows(digits, k + 1);
        assert(digits.take(k + 1).drop_last() == digits.take(k));
        assert(CharClass::Digit.holds_spec(digits[k]));
    } else {
        assert(digits.take(k) == digits);
    }
}

proof fn lemma_run_all(s: Seq<char>, i: int, class: CharClass)
    requires
        0 <= i <= s.len(),
    ensures
        run_end(s, i, class) == s.len() <==> forall|k: int|
            i <= k < s.len() ==> class.holds_spec(#[trigger] s[k]),
    decreases s.len() - i,
{
    if i < s.len() {
        lemma_run_all(s, i + 1, class);
        lemma_run_end_bounds(s, i + 1, class);
        if class.holds_spec(s[i]) {
        } else {
            assert(!class.holds_spec(s[i]));
        }
    }
}

/// Reads `text` as a decimal number.
pub fn parse_number(text: &[char]) -> (n: Option<u64>)
    ensures
        n == number_spec(text@),
{
    if text.len() == 0 {
        return None;
    }
    let mut value: u64 = 0;
    let mut i: usize = 0;
    while i < text.len()
        invariant
            i <= text@.len(),
            value == decimal(text@.take(i as int)),
            forall|k: int| 0 <= k < i ==> CharClass::Digit.holds_spec(#[trigger] text@[k]),
        decreases text@.len() - i,
    {
        let c = text[i];
        if !CharClass::Digit.holds(c) {
            proof {
                lemma_run_all(text@, 0, CharClass::Digit);
            }
            return None;
        }
        let digit = (c as u32 - '0' as u32) as u64;
        if value > (u64::MAX - digit) / 10 {
            proof {
                lemma_run_all(text@, 0, CharClass::Digit);
                if run_end(text@, 0, CharClass::Digit) == text@.len() {
                    assert(text@.take(i + 1).drop_last() == text@.take(i as int));
                    lemma_decimal_grows(text@, i + 1);
                }
            }
            return None;
        }
        value = value * 10 + digit;
        i += 1;
        assert(text@.take(i as int).drop_last() == text@.take(i - 1));
    }
    proof {
        lemma_run_all(text@, 0, CharClass::Digit);
        assert(text@.take(i as int) == text@);
    }
    Some(value)
}


/// The rate that `chunk` writes: a number, a `/` and a number that is not 0,
/// and nothing else.
pub open spec fn parse_rate_spec(chunk: Seq<char>) -> Result<(u64, u64), ParseError> {
    let slash = run_end(chunk, 0, CharClass::Digit);
    if slash >= chunk.len() {
        if slash == 0 {
            Err(ParseError::BadEventCount)
        } else {
            Err(ParseError::RateWithoutWindow)
        }
    } else if chunk[slash] != '/' {
        Err(ParseError::BadEventCount)
    } else {
        match number_spec(chunk.subrange(0, slash)) {
            None => Err(ParseError::BadEventCount),
            Some(events) => match number_spec(chunk.subrange(slash + 1, chunk.len() as int)) {
                None => Err(ParseError::BadWindow),
                Some(window) => if window == 0 {
                    Err(ParseError::ZeroWindow)
                } else {
                    Ok((events, window))
                },
            },
        }
    }
}

/// Reads `chunk` as a rate.
pub fn parse_rate(chunk: &[char]) -> (out: Result<Rate, ParseError>)
    ensures
        out == match parse_rate_spec(chunk@) {
            Ok((events, window)) => Ok::<Rate, ParseError>(Rate::of(events, window)),
            Err(e) => Err(e),
        },
{
    let slash = skip_run(chunk, 0, CharClass::Digit);
    if slash >= chunk.len() {
        if slash == 0 {
            return Err(ParseError::BadEventCount);
        } else {
            return Err(ParseError::RateWithoutWindow);
        }
    }
    if chunk[slash] != '/' {
        return Err(ParseError::BadEventCount);
    }
    let events = match parse_number(vstd::slice::slice_subrange(chunk, 0, slash)) {
        Some(n) => n,
        None => {
            return Err(ParseError::BadEventCount);
        },
    };
    let window = match parse_number(vstd::slice::slice_subrange(chunk, slash + 1, chunk.len())) {
        Some(n) => n,
        None => {
            return Err(ParseError::BadWindow);
        },
    };
    match Rate::new(events, window) {
        Some(r) => Ok(r),
        None => Err(ParseError::ZeroWindow),
    }
}

/// The place of the `)` that closes the innermost of `depth` parentheses
/// open at `i`, if `s` holds it.
pub open spec fn closing_spec(s: Seq<char>, i: int, depth: nat) -> Option<int>
    decreases s.len() - i,
{
    if !(0 <= i < s.len()) {
        None
    } else if s[i] == ')' {
        if depth <= 1 {
            Some(i)
        } else {
            closing_spec(s, i + 1, (depth - 1) as nat)
        }
    } else if s[i] == '(' {
        closing_spec(s, i + 1, depth + 1)
    } else {
        closing_spec(s, i + 1, depth)
    }
}

/// What was found for a closing parenthesis is one, and stands at or after
/// the place where the search began.
pub proof fn lemma_closing_bounds(s: Seq<char>, i: int, depth: nat)
    requires
        0 <= i,
    ensures
        closing_spec(s, i, depth) matches Some(k) ==> i <= k < s.len() && s[k] == ')',
    decreases s.len() - i,
{
    if i < s.len() {
        if s[i] == ')' {
            if depth > 1 {
                lemma_closing_bounds(s, i + 1, (depth - 1) as nat);
            }
        } else if s[i] == '(' {
            lemma_closing_bounds(s, i + 1, depth + 1);
        } else {
            lemma_closing_bounds(s, i + 1, depth);
        }
    }
}

/// The parenthesized chunk of `s` that begins at `start`: from the `(` there
/// up to and with the `)` that closes it.
pub open spec fn group_spec(s: Seq<char>, start: int) -> Result<Seq<char>, ParseError> {
    if !(0 <= start < s.len()) || s[start] != '(' {
        Err(ParseError::NotParenthesized)
    } else {
        match closing_spec(s, start + 1, 1) {
            Some(k) => Ok(s.subrange(start, k + 1)),
            None => Err(ParseError::UnclosedOperand),
        }
    }
}

/// Cuts out of `s` the parenthesized chunk that begins at `start_idx`.
pub fn get_next_parenthesized_chunk<'a>(s: &'a [char], start_idx: usize) -> (out: Result<
    &'a [char],
    ParseError,
>)
    ensures
        match group_spec(s@, start_idx as int) {
            Ok(chunk) => out matches Ok(c) && c@ == chunk,
            Err(e) => out matches Err(f) && f == e,
        },
{
    if start_idx >= s.len() || s[start_idx] != '(' {
        return Err(ParseError::NotParenthesized);
    }
    let mut open_parens: usize = 1;
    let mut i: usize = start_idx + 1;
    while i < s.len()
        invariant
            start_idx < i <= s@.len(),
            s@[start_idx as int] == '(',
            1 <= open_parens <= i - start_idx,
            closing_spec(s@, i as int, open_parens as nat) == closing_spec(
                s@,
                start_idx + 1,
                1,
            ),
        decreases s@.len() - i,
    {
        let c = s[i];
        if c == ')' {
            if open_parens == 1 {
                proof {
                    lemma_closing_bounds(s@, start_idx + 1, 1);
                }
                return Ok(vstd::slice::slice_subrange(s, start_idx, i + 1));
            }
            open_parens -= 1;
        } else if c == '(' {
            open_parens += 1;
        }
        i += 1;
    }
    Err(ParseError::UnclosedOperand)
}

/// The operator that `s` holds at or after `i`, behind blanks if any, and the
/// place behind it.
pub open spec fn operator_spec(s: Seq<char>, i: int) -> Result<(ExprOp, int), ParseError> {
    let j = run_end(s, i, CharClass::Blank);
    if !(0 <= j < s.len()) {
        Err(ParseError::MissingOperator)
    } else if s[j] == '.' {
        Ok((ExprOp::Concat, j + 1))
    } else if s[j] == '+' {
        Ok((ExprOp::Sum, j + 1))
    } else if s[j] == '|' {
        if j + 1 < s.len() && s[j + 1] == '|' {
            Ok((ExprOp::Par, j + 2))
        } else {
            Err(ParseError::HalfBar)
        }
    } else {
        Err(ParseError::MissingOperator)
    }
}

/// The operands that `s` holds from `i` up to the `)` that ends them, behind
/// those in `found`, and the place behind that `)`. An operand is an
/// unbroken run of digits and `/`, or a parenthesized chunk; blanks may stand
/// between operands.
pub open spec fn operands_spec(s: Seq<char>, i: int, found: Seq<Seq<char>>) -> Result<
    (Seq<Seq<char>>, int),
    ParseError,
>
    decreases s.len() - i,
{
    if !(0 <= i < s.len()) {
        Err(ParseError::NotClosed)
    } else if CharClass::RatePart.holds_spec(s[i]) {
        let j = run_end(s, i, CharClass::RatePart);
        proof {
            lemma_run_end_bounds(s, i + 1, CharClass::RatePart);
        }
        operands_spec(s, j, found.push(s.subrange(i, j)))
    } else if CharClass::Blank.holds_spec(s[i]) {
        operands_spec(s, i + 1, found)
    } else if s[i] == '(' {
        match closing_spec(s, i + 1, 1) {
            Some(k) => {
                proof {
                    lemma_closing_bounds(s, i + 1, 1);
                }
                operands_spec(s, k + 1, found.push(s.subrange(i, k + 1)))
            },
            None => Err(ParseError::UnclosedOperand),
        }
    } else if s[i] == ')' {
        Ok((found, i + 1))
    } else {
        Err(ParseError::UnexpectedCharacter)
    }
}

/// The operator of the expression `s` and its operands, as they stand. A
/// text without white space around it that begins with `(` has the operator
/// behind that and the operands up to the `)` that closes it; what follows
/// that `)` is not looked at. A text of digits and `/` alone is its own
/// single operand, without an operator. A text of white space has neither.
pub open spec fn chunk_one_level_spec(s: Seq<char>) -> Result<(ExprOp, Seq<Seq<char>>), ParseError> {
    let t = trim_spec(s);
    if t.len() == 0 {
        Ok((ExprOp::Bare, Seq::empty()))
    } else if t[0] == '(' {
        match operator_spec(t, 1) {
            Err(e) => Err(e),
            Ok((op, i)) => match operands_spec(t, i, Seq::empty()) {
                Err(e) => Err(e),
                Ok((chunks, _)) => Ok((op, chunks)),
            },
        }
    } else if run_end(t, 0, CharClass::RatePart) == t.len() {
        Ok((ExprOp::Bare, seq![t]))
    } else {
        Err(ParseError::NotAnExpression)
    }
}

/// How many characters of `s`, trimmed, stand behind the expression that
/// [`chunk_one_level_spec`] finds in it: those behind the `)` that closes a
/// parenthesized expression, and none behind any other.
pub open spec fn unread_spec(s: Seq<char>) -> int {
    let t = trim_spec(s);
    if t.len() > 0 && t[0] == '(' {
        match operator_spec(t, 1) {
            Err(_) => 0,
            Ok((_, i)) => match operands_spec(t, i, Seq::empty()) {
                Err(_) => 0,
                Ok((_, end)) => t.len() - end,
            },
        }
    } else {
        0
    }
}

/// The texts of `chunks`.
pub open spec fn texts(chunks: Seq<&[char]>) -> Seq<Seq<char>> {
    chunks.map_values(|c: &[char]| c@)
}

fn find_operator(s: &[char], i: usize) -> (out: Result<(ExprOp, usize), ParseError>)
    requires
        i <= s@.len(),
    ensures
        match operator_spec(s@, i as int) {
            Ok((op, j)) => out matches Ok((o, k)) && o == op && k == j && k <= s@.len(),
            Err(e) => out matches Err(f) && f == e,
        },
{
    let j = skip_run(s, i, CharClass::Blank);
    if j >= s.len() {
        return Err(ParseError::MissingOperator);
    }
    let c = s[j];
    if c == '.' {
        Ok((ExprOp::Concat, j + 1))
    } else if c == '+' {
        Ok((ExprOp::Sum, j + 1))
    } else if c == '|' {
        if j + 1 < s.len() && s[j + 1] == '|' {
            Ok((ExprOp::Par, j + 2))
        } else {
            Err(ParseError::HalfBar)
        }
    } else {
        Err(ParseError::MissingOperator)
    }
}

/// Splits an expression into its operator and its operands, without
/// reading the operands. What stands behind the `)` that closes the
/// expression is not looked at.
pub fn chunk_one_level<'a>(s: &'a [char]) -> (out: Result<(ExprOp, Vec<&'a [char]>), ParseError>)
    ensures
        match chunk_one_level_spec(s@) {
            Ok((op, chunks)) => out matches Ok((o, v)) && o == op && texts(v@) == chunks,
            Err(e) => out matches Err(f) && f == e,
        },
{
    match split_level(s) {
        Ok((op, chunks, _)) => Ok((op, chunks)),
        Err(e) => Err(e),
    }
}

/// Splits an expression into its operator and its operands, and counts the
/// characters that stand behind it.
pub fn split_level<'a>(s: &'a [char]) -> (out: Result<
    (ExprOp, Vec<&'a [char]>, usize),
    ParseError,
>)
    ensures
        match chunk_one_level_spec(s@) {
            Ok((op, chunks)) => out matches Ok((o, v, unread)) && o == op && texts(v@) == chunks
                && unread == unread_spec(s@),
            Err(e) => out matches Err(f) && f == e,
        },
{
    let t = trim(s);
    let mut chunked: Vec<&'a [char]> = Vec::new();
    if t.len() == 0 {
        assert(texts(chunked@) == Seq::<Seq<char>>::empty());
        return Ok((ExprOp::Bare, chunked, 0));
    }
    if t[0] != '(' {
        if skip_run(t, 0, CharClass::RatePart) == t.len() {
            chunked.push(t);
            assert(texts(chunked@) == seq![t@]);
            return Ok((ExprOp::Bare, chunked, 0));
        } else {
            return Err(ParseError::NotAnExpression);
        }
    }
    let (op, start) = match find_operator(t, 1) {
        Ok(found) => found,
        Err(e) => {
            return Err(e);
        },
    };
    assert(texts(chunked@) == Seq::<Seq<char>>::empty());
    let mut i: usize = start;
    while i < t.len()
        invariant
            i <= t@.len(),
            t@ == trim_spec(s@),
            t@.len() > 0,
            t@[0] == '(',
            operator_spec(t@, 1) == Ok::<(ExprOp, int), ParseError>((op, start as int)),
            operands_spec(t@, i as int, texts(chunked@)) == operands_spec(
                t@,
                start as int,
                Seq::empty(),
            ),
        decreases t@.len() - i,
    {
        let c = t[i];
        if CharClass::RatePart.holds(c) {
            let j = skip_run(t, i, CharClass::RatePart);
            proof {
                lemma_run_end_bounds(t@, i + 1, CharClass::RatePart);
            }
            let ghost before = texts(chunked@);
            chunked.push(vstd::slice::slice_subrange(t, i, j));
            assert(texts(chunked@) == before.push(t@.subrange(i as int, j as int)));
            i = j;
        } else if CharClass::Blank.holds(c) {
            i += 1;
        } else if c == '(' {
            proof {
                lemma_closing_bounds(t@, i + 1, 1);
            }
            let chunk = match get_next_parenthesized_chunk(t, i) {
                Ok(chunk) => chunk,
                Err(e) => {
                    return Err(e);
                },
            };
            let ghost before = texts(chunked@);
            chunked.push(chunk);
            assert(texts(chunked@) == before.push(chunk@));
            i = i + chunk.len();
        } else if c == ')' {
            return Ok((op, chunked, t.len() - i - 1));
        } else {
            return Err(ParseError::UnexpectedCharacter);
        }
    }
    Err(ParseError::NotClosed)
}


/// How many characters `chunks` hold, all in all.
pub open spec fn total_len(chunks: Seq<Seq<char>>) -> nat
    decreases chunks.len(),
{
    if chunks.len() == 0 {
        0
    } else {
        chunks[0].len() + total_len(chunks.drop_first())
    }
}

proof fn lemma_total_len_push(chunks: Seq<Seq<char>>, last: Seq<char>)
    ensures
        total_len(chunks.push(last)) == total_len(chunks) + last.len(),
    decreases chunks.len(),
{
    if chunks.len() == 0 {
        assert(chunks.push(last).drop_first() == chunks);
    } else {
        lemma_total_len_push(chunks.drop_first(), last);
        assert(chunks.push(last).drop_first() == chunks.drop_first().push(last));
    }
}

proof fn lemma_operands_len(s: Seq<char>, i: int, found: Seq<Seq<char>>)
    requires
        0 <= i <= s.len(),
    ensures
        operands_spec(s, i, found) matches Ok((v, end)) ==> total_len(v) <= total_len(found) + (
        s.len() - i) && i < end <= s.len(),
    decreases s.len() - i,
{
    if i < s.len() {
        if CharClass::RatePart.holds_spec(s[i]) {
            let j = run_end(s, i, CharClass::RatePart);
            lemma_run_end_bounds(s, i + 1, CharClass::RatePart);
            lemma_total_len_push(found, s.subrange(i, j));
            lemma_operands_len(s, j, found.push(s.subrange(i, j)));
        } else if CharClass::Blank.holds_spec(s[i]) {
            lemma_operands_len(s, i + 1, found);
        } else if s[i] == '(' {
            if let Some(k) = closing_spec(s, i + 1, 1) {
                lemma_closing_bounds(s, i + 1, 1);
                lemma_total_len_push(found, s.subrange(i, k + 1));
                lemma_operands_len(s, k + 1, found.push(s.subrange(i, k + 1)));
            }
        }
    }
}

/// Trimming does not make a text longer.
pub proof fn lemma_trim_len(s: Seq<char>)
    ensures
        trim_spec(s).len() <= s.len(),
{
    let a = run_end(s, 0, CharClass::Space);
    lemma_run_end_bounds(s, 0, CharClass::Space);
    lemma_run_start_bounds(s, a, s.len() as int, CharClass::Space);
}

/// The operands of an expression are shorter than the expression, even
/// taken together.
pub proof fn lemma_chunks_shorter(s: Seq<char>)
    ensures
        chunk_one_level_spec(s) matches Ok((op, chunks)) ==> total_len(chunks) <= s.len() && (op
            != ExprOp::Bare ==> total_len(chunks) < s.len()),
{
    let t = trim_spec(s);
    lemma_trim_len(s);
    if t.len() == 0 {
    } else if t[0] == '(' {
        if let Ok((op, i)) = operator_spec(t, 1) {
            lemma_run_end_bounds(t, 1, CharClass::Blank);
            assert(2 <= i <= t.len());
            assert(op != ExprOp::Bare);
            lemma_operands_len(t, i, Seq::empty());
            assert(total_len(Seq::<Seq<char>>::empty()) == 0);
        }
    } else {
        lemma_total_len_push(Seq::empty(), t);
        assert(Seq::<Seq<char>>::empty().push(t) == seq![t]);
    }
}

/// The expression that an operand writes: a parenthesized one is read as a
/// side, any other as a rate.
pub open spec fn parse_chunk_spec(chunk: Seq<char>) -> Result<StreamRate, ParseError>
    decreases chunk.len(), 0nat, 2nat,
{
    if chunk.len() == 0 {
        Err(ParseError::EmptyChunk)
    } else if chunk[0] == '(' {
        parse_side_spec(chunk)
    } else {
        match parse_rate_spec(chunk) {
            Ok((events, window)) => Ok(StreamRate::Raw(Rate::of(events, window))),
            Err(e) => Err(e),
        }
    }
}

/// The operands `chunks`, each trimmed and read, under the operator `op`,
/// nested to the right. Without operands there is no expression; nor is
/// there one for several operands without an operator.
pub open spec fn generate_streamrate_rec_spec(op: ExprOp, chunks: Seq<Seq<char>>) -> Result<
    Option<StreamRate>,
    ParseError,
>
    decreases total_len(chunks), chunks.len(), 0nat,
{
    if chunks.len() == 0 {
        Ok(None)
    } else {
        proof {
            lemma_trim_len(chunks[0]);
        }
        match parse_chunk_spec(trim_spec(chunks[0])) {
            Err(e) => Err(e),
            Ok(head) => if chunks.len() == 1 {
                Ok(Some(head))
            } else {
                match generate_streamrate_rec_spec(op, chunks.drop_first()) {
                    Err(e) => Err(e),
                    Ok(None) => Ok(None),
                    Ok(Some(tail)) => match op {
                        ExprOp::Bare => Ok(None),
                        ExprOp::Sum => Ok(Some(StreamRate::Sum(Box::new(head), Box::new(tail)))),
                        ExprOp::Par => Ok(Some(StreamRate::Par(Box::new(head), Box::new(tail)))),
                        ExprOp::Concat => Ok(
                            Some(StreamRate::Concat(Box::new(head), Box::new(tail))),
                        ),
                    },
                }
            },
        }
    }
}

/// The expression of the operator `op` over the operands `chunks`, of which
/// there must be two at least.
pub open spec fn generate_streamrate_spec(op: ExprOp, chunks: Seq<Seq<char>>) -> Result<
    StreamRate,
    ParseError,
>
    decreases total_len(chunks), chunks.len(), 1nat,
{
    if chunks.len() < 2 {
        Err(ParseError::TooFewOperands)
    } else {
        match generate_streamrate_rec_spec(op, chunks) {
            Err(e) => Err(e),
            Ok(None) => Err(ParseError::MissingOperator),
            Ok(Some(sr)) => Ok(sr),
        }
    }
}

/// The expression that one side of a judgment writes. White space around
/// the side does not count; anything else behind the `)` that closes it makes
/// it no side.
pub open spec fn parse_side_spec(s: Seq<char>) -> Result<StreamRate, ParseError>
    decreases s.len(), 0nat, 1nat,
{
    match chunk_one_level_spec(s) {
        Err(e) => Err(e),
        Ok((ExprOp::Bare, chunks)) => if chunks.len() == 0 {
            Err(ParseError::EmptyExpression)
        } else {
            match parse_rate_spec(chunks[0]) {
                Ok((events, window)) => Ok(StreamRate::Raw(Rate::of(events, window))),
                Err(e) => Err(e),
            }
        },
        Ok((op, chunks)) => if unread_spec(s) != 0 {
            Err(ParseError::TrailingText)
        } else {
            proof {
                lemma_chunks_shorter(s);
            }
            generate_streamrate_spec(op, chunks)
        },
    }
}


/// Reads an operand: a parenthesized one as a side, any other as a rate.
pub fn parse_chunk(chunk: &[char]) -> (out: Result<StreamRate, ParseError>)
    ensures
        out == parse_chunk_spec(chunk@),
    decreases chunk@.len(), 0nat, 2nat,
{
    if chunk.len() == 0 {
        Err(ParseError::EmptyChunk)
    } else if chunk[0] == '(' {
        parse_side(chunk)
    } else {
        match parse_rate(chunk) {
            Ok(r) => Ok(StreamRate::Raw(r)),
            Err(e) => Err(e),
        }
    }
}

/// Reads the operands `v` and nests them to the right under the operator
/// `eo`. Gives no expression where there is no operand, and none for
/// several operands without an operator.
pub fn generate_streamrate_rec(eo: &ExprOp, v: &[&[char]]) -> (out: Result<
    Option<StreamRate>,
    ParseError,
>)
    ensures
        out == generate_streamrate_rec_spec(*eo, texts(v@)),
    decreases total_len(texts(v@)), v@.len(), 0nat,
{
    if v.len() == 0 {
        return Ok(None);
    }
    proof {
        lemma_trim_len(v@[0]@);
        assert(texts(v@)[0] == v@[0]@);
        assert(texts(v@.subrange(1, v@.len() as int)) == texts(v@).drop_first());
    }
    let head = match parse_chunk(trim(v[0])) {
        Ok(head) => head,
        Err(e) => {
            return Err(e);
        },
    };
    if v.len() == 1 {
        return Ok(Some(head));
    }
    let tail = match generate_streamrate_rec(eo, vstd::slice::slice_subrange(v, 1, v.len())) {
        Ok(Some(tail)) => tail,
        Ok(None) => {
            return Ok(None);
        },
        Err(e) => {
            return Err(e);
        },
    };
    match eo {
        ExprOp::Bare => Ok(None),
        ExprOp::Sum => Ok(Some(StreamRate::Sum(Box::new(head), Box::new(tail)))),
        ExprOp::Par => Ok(Some(StreamRate::Par(Box::new(head), Box::new(tail)))),
        ExprOp::Concat => Ok(Some(StreamRate::Concat(Box::new(head), Box::new(tail)))),
    }
}

/// Builds the expression of the operator `eo` over the operands `v`.
pub fn generate_streamrate(eo: &ExprOp, v: &[&[char]]) -> (out: Result<StreamRate, ParseError>)
    ensures
        out == generate_streamrate_spec(*eo, texts(v@)),
    decreases total_len(texts(v@)), v@.len(), 1nat,
{
    if v.len() < 2 {
        return Err(ParseError::TooFewOperands);
    }
    match generate_streamrate_rec(eo, v) {
        Err(e) => Err(e),
        Ok(None) => Err(ParseError::MissingOperator),
        Ok(Some(sr)) => Ok(sr),
    }
}

/// Reads one side of a judgment: a rate, or a parenthesized expression that
/// ends with the text.
pub fn parse_side(s: &[char]) -> (out: Result<StreamRate, ParseError>)
    ensures
        out == parse_side_spec(s@),
    decreases s@.len(), 0nat, 1nat,
{
    let (op, chunks, unread) = match split_level(s) {
        Ok(found) => found,
        Err(e) => {
            return Err(e);
        },
    };
    match op {
        ExprOp::Bare => {
            if chunks.len() == 0 {
                Err(ParseError::EmptyExpression)
            } else {
                assert(texts(chunks@)[0] == chunks@[0]@);
                match parse_rate(chunks[0]) {
                    Ok(r) => Ok(StreamRate::Raw(r)),
                    Err(e) => Err(e),
                }
            }
        },
        _ => {
            if unread != 0 {
                return Err(ParseError::TrailingText);
            }
            proof {
                lemma_chunks_shorter(s@);
            }
            generate_streamrate(&op, chunks.as_slice())
        },
    }
}

/// The first place at or after `i` where `s` holds `<:`, or the length of
/// `s` if it holds none.
pub open spec fn arrow_at(s: Seq<char>, i: int) -> int
    decreases s.len() - i,
{
    if 0 <= i && i + 1 < s.len() {
        if s[i] == '<' && s[i + 1] == ':' {
            i
        } else {
            arrow_at(s, i + 1)
        }
    } else {
        s.len() as int
    }
}

/// A `<:` that was found stands at or after the place where the search
/// began, and both of its characters stand within the text.
pub proof fn lemma_arrow_bounds(s: Seq<char>, i: int)
    requires
        0 <= i <= s.len(),
    ensures
        i <= arrow_at(s, i) <= s.len(),
        arrow_at(s, i) < s.len() ==> arrow_at(s, i) + 2 <= s.len(),
    decreases s.len() - i,
{
    if i + 1 < s.len() && !(s[i] == '<' && s[i + 1] == ':') {
        lemma_arrow_bounds(s, i + 1);
    }
}

/// The two sides of the judgment that `s` writes: what stands before its
/// `<:` and what stands behind it. A text without a `<:` is no judgment, and
/// neither is one with more than one.
pub open spec fn parse_spec(s: Seq<char>) -> Result<(StreamRate, StreamRate), ParseError> {
    let a = arrow_at(s, 0);
    if a >= s.len() {
        Err(ParseError::MissingSide)
    } else {
        let rest = s.subrange(a + 2, s.len() as int);
        if arrow_at(rest, 0) < rest.len() {
            Err(ParseError::TooManySides)
        } else {
            match parse_side_spec(s.subrange(0, a)) {
                Err(e) => Err(e),
                Ok(left) => match parse_side_spec(rest) {
                    Err(e) => Err(e),
                    Ok(right) => Ok((left, right)),
                },
            }
        }
    }
}

fn find_arrow(s: &[char]) -> (a: usize)
    ensures
        a == arrow_at(s@, 0),
        a <= s@.len(),
        a < s@.len() ==> a + 2 <= s@.len(),
{
    let mut i: usize = 0;
    proof {
        lemma_arrow_bounds(s@, 0);
    }
    while i < s.len() && i + 1 < s.len()
        invariant
            i <= s@.len(),
            arrow_at(s@, i as int) == arrow_at(s@, 0),
        decreases s@.len() - i,
    {
        if s[i] == '<' && s[i + 1] == ':' {
            return i;
        }
        i += 1;
    }
    s.len()
}

/// Reads a judgment `left <: right`, which has one `<:` and no more.
pub fn parse(full_sub_str: &String) -> (out: Result<(StreamRate, StreamRate), ParseError>)
    ensures
        out == parse_spec(full_sub_str@),
{
    let text = chars_of(full_sub_str.as_str());
    let s = text.as_slice();
    let a = find_arrow(s);
    if a >= s.len() {
        return Err(ParseError::MissingSide);
    }
    let rest = vstd::slice::slice_subrange(s, a + 2, s.len());
    if find_arrow(rest) < rest.len() {
        return Err(ParseError::TooManySides);
    }
    let left = match parse_side(vstd::slice::slice_subrange(s, 0, a)) {
        Ok(left) => left,
        Err(e) => {
            return Err(e);
        },
    };
    let right = match parse_side(rest) {
        Ok(right) => right,
        Err(e) => {
            return Err(e);
        },
    };
    Ok((left, right))
}

/// Where a run ends within the text, a character stands that is not of its
/// class.
pub proof fn lemma_run_end_stops(s: Seq<char>, i: int, class: CharClass)
    requires
        0 <= i <= s.len(),
    ensures
        i <= run_end(s, i, class) <= s.len(),
        run_end(s, i, class) < s.len() ==> !class.holds_spec(s[run_end(s, i, class)]),
    decreases s.len() - i,
{
    if i < s.len() && class.holds_spec(s[i]) {
        lemma_run_end_stops(s, i + 1, class);
    }
}

/// Before the place where a run begins that is followed backwards, unless
/// that is the bound, a character stands that is not of its class.
pub proof fn lemma_run_start_stops(s: Seq<char>, low: int, j: int, class: CharClass)
    requires
        0 <= low <= j <= s.len(),
    ensures
        low <= run_start(s, low, j, class) <= j,
        run_start(s, low, j, class) > low ==> !class.holds_spec(
            s[run_start(s, low, j, class) - 1],
        ),
    decreases j - low,
{
    if low < j && class.holds_spec(s[j - 1]) {
        lemma_run_start_stops(s, low, j - 1, class);
    }
}

/// A text that neither begins nor ends with white space is left as it is.
pub proof fn lemma_trim_fixed(s: Seq<char>)
    requires
        s.len() > 0 ==> !CharClass::Space.holds_spec(s[0]) && !CharClass::Space.holds_spec(
            s.last(),
        ),
    ensures
        trim_spec(s) == s,
{
    assert(run_end(s, 0, CharClass::Space) == 0);
    assert(run_start(s, 0, s.len() as int, CharClass::Space) == s.len());
    assert(s.subrange(0, s.len() as int) == s);
}

/// Trimming twice is trimming once.
pub proof fn lemma_trim_idempotent(s: Seq<char>)
    ensures
        trim_spec(trim_spec(s)) == trim_spec(s),
{
    let a = run_end(s, 0, CharClass::Space);
    lemma_run_end_bounds(s, 0, CharClass::Space);
    let b = run_start(s, a, s.len() as int, CharClass::Space);
    lemma_run_start_bounds(s, a, s.len() as int, CharClass::Space);
    lemma_run_end_stops(s, 0, CharClass::Space);
    lemma_run_start_stops(s, a, s.len() as int, CharClass::Space);
    let t = trim_spec(s);
    if t.len() > 0 {
        assert(t[0] == s[a] && t.last() == s[b - 1]);
    }
    lemma_trim_fixed(t);
}

/// White space around a side does not count.
pub proof fn lemma_parse_side_trims(s: Seq<char>)
    ensures
        parse_side_spec(s) == parse_side_spec(trim_spec(s)),
        chunk_one_level_spec(s) == chunk_one_level_spec(trim_spec(s)),
        unread_spec(s) == unread_spec(trim_spec(s)),
{
    lemma_trim_idempotent(s);
}

/// A run ends where the first character stands that is not of its class.
pub proof fn lemma_run_exact(s: Seq<char>, i: int, j: int, class: CharClass)
    requires
        0 <= i <= j <= s.len(),
        forall|k: int| i <= k < j ==> class.holds_spec(#[trigger] s[k]),
        j == s.len() || !class.holds_spec(s[j]),
    ensures
        run_end(s, i, class) == j,
    decreases j - i,
{
    if i < j {
        assert(class.holds_spec(s[i]));
        lemma_run_exact(s, i + 1, j, class);
    }
}

/// White space around a text that has none at its ends is trimmed away.
pub proof fn lemma_padded(x: Seq<char>, before: Seq<char>, after: Seq<char>)
    requires
        x.len() > 0,
        !CharClass::Space.holds_spec(x[0]),
        !CharClass::Space.holds_spec(x.last()),
        forall|k: int| 0 <= k < before.len() ==> CharClass::Space.holds_spec(#[trigger] before[k]),
        forall|k: int| 0 <= k < after.len() ==> CharClass::Space.holds_spec(#[trigger] after[k]),
    ensures
        trim_spec(before + x + after) == x,
{
    let s = before + x + after;
    let a = before.len() as int;
    let b = a + x.len();
    assert forall|k: int| 0 <= k < a implies CharClass::Space.holds_spec(#[trigger] s[k]) by {
        assert(s[k] == before[k]);
    }
    assert(s[a] == x[0]);
    lemma_run_exact(s, 0, a, CharClass::Space);
    assert(s[b - 1] == x.last());
    assert forall|k: int| b <= k < s.len() implies CharClass::Space.holds_spec(#[trigger] s[k]) by {
        assert(s[k] == after[k - b]);
    }
    lemma_run_back(s, a, b, s.len() as int, CharClass::Space);
    assert(s.subrange(a, b) == x);
}

/// A run that is followed backwards begins behind the last character that
/// is not of its class.
pub proof fn lemma_run_back(s: Seq<char>, low: int, i: int, j: int, class: CharClass)
    requires
        0 <= low <= i <= j <= s.len(),
        forall|k: int| i <= k < j ==> class.holds_spec(#[trigger] s[k]),
        i == low || !class.holds_spec(s[i - 1]),
    ensures
        run_start(s, low, j, class) == i,
    decreases j - i,
{
    if i < j {
        assert(class.holds_spec(s[j - 1]));
        lemma_run_back(s, low, i, j - 1, class);
    }
}

/// The place that the operands end at is behind a `)`.
pub proof fn lemma_operands_end(s: Seq<char>, i: int, found: Seq<Seq<char>>)
    requires
        0 <= i,
    ensures
        operands_spec(s, i, found) matches Ok((_, end)) ==> i < end <= s.len() && s[end - 1] == ')',
    decreases s.len() - i,
{
    if i < s.len() {
        if CharClass::RatePart.holds_spec(s[i]) {
            let j = run_end(s, i, CharClass::RatePart);
            lemma_run_end_bounds(s, i + 1, CharClass::RatePart);
            lemma_operands_end(s, j, found.push(s.subrange(i, j)));
        } else if CharClass::Blank.holds_spec(s[i]) {
            lemma_operands_end(s, i + 1, found);
        } else if s[i] == '(' {
            if let Some(k) = closing_spec(s, i + 1, 1) {
                lemma_closing_bounds(s, i + 1, 1);
                lemma_operands_end(s, k + 1, found.push(s.subrange(i, k + 1)));
            }
        }
    }
}

/// A side that is read is, white space apart, a text of digits and `/`, or
/// a text that begins with `(` and ends with the `)` that closes it.
pub proof fn lemma_side_is_whole(s: Seq<char>)
    requires
        parse_side_spec(s) is Ok,
    ensures
        unread_spec(s) == 0,
        trim_spec(s).len() > 0,
        trim_spec(s)[0] == '(' ==> trim_spec(s).last() == ')',
        trim_spec(s)[0] != '(' ==> run_end(trim_spec(s), 0, CharClass::RatePart) == trim_spec(
            s,
        ).len(),
{
    let t = trim_spec(s);
    if t.len() > 0 && t[0] == '(' {
        if let Ok((op, i)) = operator_spec(t, 1) {
            lemma_run_end_bounds(t, 1, CharClass::Blank);
            lemma_operands_end(t, i, Seq::empty());
        }
    }
}

/// A judgment that is read has one `<:` and no more.
pub proof fn lemma_judgment_has_one_arrow(s: Seq<char>)
    requires
        parse_spec(s) is Ok,
    ensures
        arrow_at(s, 0) < s.len(),
        arrow_at(s.subrange(arrow_at(s, 0) + 2, s.len() as int), 0) == s.len() - arrow_at(s, 0)
            - 2,
{
    lemma_arrow_bounds(s, 0);
    let rest = s.subrange(arrow_at(s, 0) + 2, s.len() as int);
    lemma_arrow_bounds(rest, 0);
}

/// Whether `s` holds `<:` at `k`.
pub open spec fn arrow_stands_at(s: Seq<char>, k: int) -> bool {
    0 <= k && k + 1 < s.len() && s[k] == '<' && s[k + 1] == ':'
}

/// The place that the search for `<:` gives is that of the first `<:` at
/// or after the place where it began; where it gives the length of the
/// text, no `<:` stands there.
pub proof fn lemma_arrow_first(s: Seq<char>, i: int)
    requires
        0 <= i <= s.len(),
    ensures
        arrow_at(s, i) < s.len() ==> arrow_stands_at(s, arrow_at(s, i)),
        forall|k: int| i <= k < arrow_at(s, i) ==> !#[trigger] arrow_stands_at(s, k),
    decreases s.len() - i,
{
    lemma_arrow_bounds(s, i);
    if i + 1 < s.len() && !(s[i] == '<' && s[i + 1] == ':') {
        lemma_arrow_first(s, i + 1);
    }
}

/// In a judgment that is read, `<:` stands at one place only.
pub proof fn lemma_judgment_arrow_is_alone(s: Seq<char>, k: int)
    requires
        parse_spec(s) is Ok,
        arrow_stands_at(s, k),
    ensures
        k == arrow_at(s, 0),
{
    let a = arrow_at(s, 0);
    lemma_arrow_first(s, 0);
    lemma_judgment_has_one_arrow(s);
    let rest = s.subrange(a + 2, s.len() as int);
    lemma_arrow_first(rest, 0);
    if k > a {
        if k == a + 1 {
            assert(s[k] == ':');
        } else {
            assert(rest[k - a - 2] == s[k] && rest[k - a - 1] == s[k + 1]);
            assert(arrow_stands_at(rest, k - a - 2));
        }
    }
}

} // verus!
