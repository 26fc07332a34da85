use vstd::prelude::*;
use vstd::string::*;

verus! {

/// A lexical token. A number token holds an `N`: the tokenizer yields the literal's
/// bytes as written, and converting them to a value is left to the caller.
#[derive(Debug, PartialEq)]
pub enum Token<N> {
    Plus,
    Minus,
    Multiply,
    Divide,
    Power,
    Factorial,
    Sin,
    Cos,
    Tan,
    Exp,
    Log,
    LParens,
    RParens,
    Number(N),
}

impl<N: View> View for Token<N> {
    type V = Token<N::V>;

    open spec fn view(&self) -> Token<N::V> {
        match self {
            Token::Plus => Token::Plus,
            Token::Minus => Token::Minus,
            Token::Multiply => Token::Multiply,
            Token::Divide => Token::Divide,
            Token::Power => Token::Power,
            Token::Factorial => Token::Factorial,
            Token::Sin => Token::Sin,
            Token::Cos => Token::Cos,
            Token::Tan => Token::Tan,
            Token::Exp => Token::Exp,
            Token::Log => Token::Log,
            Token::LParens => Token::LParens,
            Token::RParens => Token::RParens,
            Token::Number(n) => Token::Number(n.view()),
        }
    }
}

impl<N: Clone> Clone for Token<N> {
    /// The same token, with a clone of what a number holds.
    fn clone(&self) -> (out: Token<N>)
        ensures
            match *self {
                Token::Number(n) => out matches Token::Number(m) && cloned(n, m),
                _ => out.kind() == self.kind(),
            },
            out.kind() == self.kind(),
    {
        match self {
            Token::Plus => Token::Plus,
            Token::Minus => Token::Minus,
            Token::Multiply => Token::Multiply,
            Token::Divide => Token::Divide,
            Token::Power => Token::Power,
            Token::Factorial => Token::Factorial,
            Token::Sin => Token::Sin,
            Token::Cos => Token::Cos,
            Token::Tan => Token::Tan,
            Token::Exp => Token::Exp,
            Token::Log => Token::Log,
            Token::LParens => Token::LParens,
            Token::RParens => Token::RParens,
            Token::Number(n) => Token::Number(n.clone()),
        }
    }
}

impl<N> Token<N> {
    /// The token without what a number holds.
    pub open spec fn kind(self) -> Token<()> {
        match self {
            Token::Plus => Token::Plus,
            Token::Minus => Token::Minus,
            Token::Multiply => Token::Multiply,
            Token::Divide => Token::Divide,
            Token::Power => Token::Power,
            Token::Factorial => Token::Factorial,
            Token::Sin => Token::Sin,
            Token::Cos => Token::Cos,
            Token::Tan => Token::Tan,
            Token::Exp => Token::Exp,
            Token::Log => Token::Log,
            Token::LParens => Token::LParens,
            Token::RParens => Token::RParens,
            Token::Number(_) => Token::Number(()),
        }
    }

    /// Whether `out` is this token, with what a number holds replaced by
    /// something that `made` relates to it.
    pub open spec fn maps_to<M>(self, made: spec_fn(N, M) -> bool, out: Token<M>) -> bool {
        out.kind() == self.kind() && match self {
            Token::Number(n) => out matches Token::Number(m) && made(n, m),
            _ => true,
        }
    }

    /// The token with what a number holds replaced by what `f` makes of it.
    pub fn map<M, F: Fn(&N) -> M>(&self, f: &F) -> (out: Token<M>)
        requires
            forall|n: &N| call_requires(*f, (n,)),
        ensures
            self.maps_to(|n: N, m: M| call_ensures(*f, (&n,), m), out),
    {
        match self {
            Token::Plus => Token::Plus,
            Token::Minus => Token::Minus,
            Token::Multiply => Token::Multiply,
            Token::Divide => Token::Divide,
            Token::Power => Token::Power,
            Token::Factorial => Token::Factorial,
            Token::Sin => Token::Sin,
            Token::Cos => Token::Cos,
            Token::Tan => Token::Tan,
            Token::Exp => Token::Exp,
            Token::Log => Token::Log,
            Token::LParens => Token::LParens,
            Token::RParens => Token::RParens,
            Token::Number(n) => Token::Number(f(n)),
        }
    }
}

/// A character at which no token starts. `position` is the offset of its first
/// byte in the input.
#[derive(Debug, PartialEq, Eq, Clone, Copy, Structural)]
pub struct LexError {
    pub position: usize,
}

/// What the tokenizer yields at one step, as a mathematical value.
pub type Lexeme = Result<Token<Seq<u8>>, LexError>;

/// Space, tab, newline and form feed separate tokens.
pub open spec fn is_blank(b: u8) -> bool {
    b == 32 || b == 9 || b == 10 || b == 12
}

/// The decimal digits.
pub open spec fn is_digit(b: u8) -> bool {
    48 <= b <= 57
}

/// The first offset at or after `pos` that holds no blank.
pub open spec fn skip_blanks(s: Seq<u8>, pos: int) -> int
    decreases s.len() - pos,
{
    if 0 <= pos < s.len() && is_blank(s[pos]) {
        skip_blanks(s, pos + 1)
    } else {
        pos
    }
}

/// The first offset at or after `pos` that holds no decimal digit.
pub open spec fn digits_end(s: Seq<u8>, pos: int) -> int
    decreases s.len() - pos,
{
    if 0 <= pos < s.len() && is_digit(s[pos]) {
        digits_end(s, pos + 1)
    } else {
        pos
    }
}

/// Where the integer part that starts at `start` ends: a lone `0`, or a digit from
/// 1 to 9 with the digits that follow it. `start` itself where there is none.
pub open spec fn integer_end(s: Seq<u8>, start: int) -> int {
    if 0 <= start < s.len() && s[start] == 48 {
        start + 1
    } else if 0 <= start < s.len() && is_digit(s[start]) {
        digits_end(s, start + 1)
    } else {
        start
    }
}

/// Where an optional fraction that starts at `pos` ends: a point and at least one digit.
pub open spec fn fraction_end(s: Seq<u8>, pos: int) -> int {
    if 0 <= pos < s.len() && s[pos] == 46 && digits_end(s, pos + 1) > pos + 1 {
        digits_end(s, pos + 1)
    } else {
        pos
    }
}

/// Where an optional exponent that starts at `pos` ends: `e` or `E`, an optional sign,
/// and at least one digit.
pub open spec fn exponent_end(s: Seq<u8>, pos: int) -> int {
    if 0 <= pos < s.len() && (s[pos] == 101 || s[pos] == 69) {
        let digits = if pos + 1 < s.len() && (s[pos + 1] == 43 || s[pos + 1] == 45) {
            pos + 2
        } else {
            pos + 1
        };
        if digits_end(s, digits) > digits {
            digits_end(s, digits)
        } else {
            pos
        }
    } else {
        pos
    }
}

/// Where the longest number literal that starts at `start` ends; `start` itself
/// where none starts there.
pub open spec fn number_end(s: Seq<u8>, start: int) -> int {
    let whole = integer_end(s, start);
    if whole == start {
        start
    } else {
        exponent_end(s, fraction_end(s, whole))
    }
}

/// Whether the two bytes `a`, `b` stand at offset `p`.
pub open spec fn word2(s: Seq<u8>, p: int, a: u8, b: u8) -> bool {
    0 <= p && p + 1 < s.len() && s[p] == a && s[p + 1] == b
}

/// Whether the three bytes `a`, `b`, `c` stand at offset `p`.
pub open spec fn word3(s: Seq<u8>, p: int, a: u8, b: u8, c: u8) -> bool {
    0 <= p && p + 2 < s.len() && s[p] == a && s[p + 1] == b && s[p + 2] == c
}

/// The token that starts at offset `p` and the offset where it ends, if one starts there.
pub open spec fn token_at(s: Seq<u8>, p: int) -> Option<(Token<Seq<u8>>, int)> {
    if !(0 <= p < s.len()) {
        None
    } else if s[p] == 43 {
        Some((Token::Plus, p + 1))
    } else if s[p] == 45 {
        Some((Token::Minus, p + 1))
    } else if s[p] == 42 {
        Some((Token::Multiply, p + 1))
    } else if s[p] == 47 {
        Some((Token::Divide, p + 1))
    } else if s[p] == 94 {
        Some((Token::Power, p + 1))
    } else if s[p] == 33 {
        Some((Token::Factorial, p + 1))
    } else if s[p] == 40 {
        Some((Token::LParens, p + 1))
    } else if s[p] == 41 {
        Some((Token::RParens, p + 1))
    } else if word3(s, p, 115, 105, 110) {
        Some((Token::Sin, p + 3))
    } else if word3(s, p, 99, 111, 115) {
        Some((Token::Cos, p + 3))
    } else if word3(s, p, 116, 97, 110) {
        Some((Token::Tan, p + 3))
    } else if word3(s, p, 101, 120, 112) {
        Some((Token::Exp, p + 3))
    } else if word2(s, p, 108, 110) {
        Some((Token::Log, p + 2))
    } else if number_end(s, p) > p {
        Some((Token::Number(s.subrange(p, number_end(s, p))), number_end(s, p)))
    } else {
        None
    }
}

/// Whether a byte goes on a character that an earlier byte started.
pub open spec fn is_continuation(b: u8) -> bool {
    128 <= b < 192
}

/// The first offset at or after `pos` at which a character starts, or the end of
/// the input.
pub open spec fn char_end(s: Seq<u8>, pos: int) -> int
    decreases s.len() - pos,
{
    if 0 <= pos < s.len() && is_continuation(s[pos]) {
        char_end(s, pos + 1)
    } else {
        pos
    }
}

/// One step of the tokenizer from offset `pos`: what it yields and the offset it
/// goes on from, or `None` at the end of the input. Blanks are passed over; a
/// character at which no token starts is an error, and the tokenizer goes on
/// behind it, all its bytes taken as one.
pub open spec fn scan(s: Seq<u8>, pos: int) -> Option<(Lexeme, int)> {
    let p = skip_blanks(s, pos);
    if !(0 <= p < s.len()) {
        None
    } else {
        match token_at(s, p) {
            Some((t, end)) => Some((Ok(t), end)),
            None => Some((Err(LexError { position: p as usize }), char_end(s, p + 1))),
        }
    }
}

/// The start of the next character lies ahead, within the input.
pub proof fn lemma_char_end_bounds(s: Seq<u8>, pos: int)
    ensures
        pos <= char_end(s, pos),
        pos <= s.len() ==> char_end(s, pos) <= s.len(),
    decreases s.len() - pos,
{
    if 0 <= pos < s.len() && is_continuation(s[pos]) {
        lemma_char_end_bounds(s, pos + 1);
    }
}

/// Everything the tokenizer yields from offset `pos` to the end of the input.
pub open spec fn tokens(s: Seq<u8>, pos: int) -> Seq<Lexeme>
    decreases s.len() - pos,
{
    match scan(s, pos) {
        None => Seq::empty(),
        Some((lexeme, end)) => {
            proof {
                lemma_scan_advances(s, pos);
            }
            seq![lexeme] + tokens(s, end)
        },
    }
}

/// Passing over blanks goes forward, stays within the input, and passes over
/// blanks only.
pub proof fn lemma_skip_blanks_bounds(s: Seq<u8>, pos: int)
    ensures
        pos <= skip_blanks(s, pos),
        pos <= s.len() ==> skip_blanks(s, pos) <= s.len(),
        forall|i: int| pos <= i < skip_blanks(s, pos) ==> is_blank(#[trigger] s[i]),
    decreases s.len() - pos,
{
    if 0 <= pos < s.len() && is_blank(s[pos]) {
        lemma_skip_blanks_bounds(s, pos + 1);
    }
}

/// A run of digits goes forward, stays within the input, holds digits only and
/// ends before a byte that is none.
pub proof fn lemma_digits_end_bounds(s: Seq<u8>, pos: int)
    ensures
        pos <= digits_end(s, pos),
        pos <= s.len() ==> digits_end(s, pos) <= s.len(),
        forall|i: int| pos <= i < digits_end(s, pos) ==> is_digit(#[trigger] s[i]),
        0 <= digits_end(s, pos) < s.len() ==> !is_digit(s[digits_end(s, pos)]),
    decreases s.len() - pos,
{
    if 0 <= pos < s.len() && is_digit(s[pos]) {
        lemma_digits_end_bounds(s, pos + 1);
    }
}

/// A number literal lies within the input.
pub proof fn lemma_number_end_bounds(s: Seq<u8>, start: int)
    requires
        0 <= start <= s.len(),
    ensures
        start <= number_end(s, start) <= s.len(),
{
    lemma_digits_end_bounds(s, start + 1);
    let whole = integer_end(s, start);
    lemma_digits_end_bounds(s, whole + 1);
    let frac = fraction_end(s, whole);
    lemma_digits_end_bounds(s, frac + 1);
    lemma_digits_end_bounds(s, frac + 2);
}

/// Each step of the tokenizer ends behind the offset it started from, within the input.
pub proof fn lemma_scan_advances(s: Seq<u8>, pos: int)
    ensures
        scan(s, pos) matches Some((_, end)) ==> pos < end <= s.len() && 0 <= pos,
{
    lemma_skip_blanks_bounds(s, pos);
    let p = skip_blanks(s, pos);
    if 0 <= p < s.len() {
        lemma_number_end_bounds(s, p);
        lemma_char_end_bounds(s, p + 1);
    }
}

/// Whether the bytes from `from` up to `to` are decimal digits.
pub open spec fn digits_in(s: Seq<u8>, from: int, to: int) -> bool {
    forall|i: int| from <= i < to ==> is_digit(#[trigger] s[i])
}

/// Whether the bytes from `from` up to `to` are an integer part: one digit or
/// more, with no zero before another digit.
pub open spec fn integer_part(s: Seq<u8>, from: int, to: int) -> bool {
    from < to && digits_in(s, from, to) && (s[from] == 48 ==> to == from + 1)
}

/// Whether the bytes from `from` up to `to` are a fraction or nothing: a point
/// and one digit or more.
pub open spec fn fraction_part(s: Seq<u8>, from: int, to: int) -> bool {
    from == to || (from + 1 < to && s[from] == 46 && digits_in(s, from + 1, to))
}

/// Whether the bytes from `from` up to `to` are an exponent or nothing: `e` or
/// `E`, a sign or none, and one digit or more.
pub open spec fn exponent_part(s: Seq<u8>, from: int, to: int) -> bool {
    from == to || ((s[from] == 101 || s[from] == 69) && ((from + 1 < to && digits_in(
        s,
        from + 1,
        to,
    )) || (from + 2 < to && (s[from + 1] == 43 || s[from + 1] == 45) && digits_in(
        s,
        from + 2,
        to,
    ))))
}

/// Whether the bytes from `from` up to `to` spell a number: an integer part, then
/// a fraction or none, then an exponent or none.
pub open spec fn is_number(s: Seq<u8>, from: int, to: int) -> bool {
    0 <= from && to <= s.len() && exists|i: int, j: int|
        #![trigger fraction_part(s, i, j)]
        from < i <= j <= to && integer_part(s, from, i) && fraction_part(s, i, j)
            && exponent_part(s, j, to)
}

/// A run of digits ends no earlier than any stretch of digits from the same start.
pub proof fn lemma_digits_end_is_longest(s: Seq<u8>, from: int, to: int)
    requires
        0 <= from <= to <= s.len(),
        digits_in(s, from, to),
    ensures
        to <= digits_end(s, from),
    decreases to - from,
{
    if from < to {
        assert(is_digit(s[from]));
        lemma_digits_end_is_longest(s, from + 1, to);
    } else {
        lemma_digits_end_bounds(s, from);
    }
}

proof fn lemma_exponent_end_is_longest(s: Seq<u8>, from: int, to: int)
    requires
        0 <= from <= to <= s.len(),
        exponent_part(s, from, to),
    ensures
        to <= exponent_end(s, from),
{
    if from < to {
        if from + 1 < to && digits_in(s, from + 1, to) {
            assert(is_digit(s[from + 1]));
            lemma_digits_end_is_longest(s, from + 1, to);
        } else {
            lemma_digits_end_is_longest(s, from + 2, to);
        }
    }
}

proof fn lemma_exponent_end_is_exponent(s: Seq<u8>, from: int)
    requires
        0 <= from <= s.len(),
    ensures
        exponent_part(s, from, exponent_end(s, from)),
        from <= exponent_end(s, from) <= s.len(),
{
    lemma_digits_end_bounds(s, from + 1);
    lemma_digits_end_bounds(s, from + 2);
}

proof fn lemma_fraction_end_is_fraction(s: Seq<u8>, from: int)
    requires
        0 <= from <= s.len(),
    ensures
        fraction_part(s, from, fraction_end(s, from)),
        from <= fraction_end(s, from) <= s.len(),
{
    lemma_digits_end_bounds(s, from + 1);
}

/// What the tokenizer takes for a number spells a number.
pub proof fn lemma_number_end_is_number(s: Seq<u8>, start: int)
    requires
        0 <= start,
        number_end(s, start) > start,
    ensures
        is_number(s, start, number_end(s, start)),
{
    let whole = integer_end(s, start);
    let fraction = fraction_end(s, whole);
    lemma_digits_end_bounds(s, start + 1);
    lemma_fraction_end_is_fraction(s, whole);
    lemma_exponent_end_is_exponent(s, fraction);
    assert(integer_part(s, start, whole));
    assert(fraction_part(s, whole, fraction));
}

/// The tokenizer takes the longest number there is: no stretch of bytes from the
/// same start that spells a number ends behind the one it takes.
pub proof fn lemma_number_end_is_longest(s: Seq<u8>, start: int, to: int)
    requires
        is_number(s, start, to),
    ensures
        to <= number_end(s, start),
{
    let (i, j) = choose|i: int, j: int|
        #![trigger fraction_part(s, i, j)]
        start < i <= j <= to && integer_part(s, start, i) && fraction_part(s, i, j)
            && exponent_part(s, j, to);
    let whole = integer_end(s, start);
    let fraction = fraction_end(s, whole);
    assert(is_digit(s[start]));
    lemma_digits_end_bounds(s, start + 1);
    lemma_fraction_end_is_fraction(s, whole);
    lemma_exponent_end_is_exponent(s, fraction);
    if s[start] != 48 {
        lemma_digits_end_is_longest(s, start + 1, i);
    }
    assert(i <= whole);
    if i < whole {
        // A digit follows: neither a fraction nor an exponent starts there.
        assert(is_digit(s[i]));
        assert(j == i);
        assert(to == j);
    } else if j == i {
        if to > j {
            assert(s[whole] != 46);
            lemma_exponent_end_is_longest(s, whole, to);
        }
    } else {
        lemma_digits_end_is_longest(s, whole + 1, j);
        assert(is_digit(s[whole + 1]));
        assert(j <= fraction);
        if j < fraction {
            lemma_digits_end_bounds(s, whole + 1);
            assert(is_digit(s[j]));
            assert(to == j);
        } else {
            lemma_exponent_end_is_longest(s, fraction, to);
        }
    }
}

/// What the tokenizer yields at one step, with a number's bytes taken by their view.
pub open spec fn lexeme_of(item: Result<Token<Vec<u8>>, LexError>) -> Lexeme {
    match item {
        Ok(token) => Ok(token@),
        Err(error) => Err(error),
    }
}

fn is_blank_byte(b: u8) -> (r: bool)
    ensures
        r == is_blank(b),
{
    b == 32 || b == 9 || b == 10 || b == 12
}

fn is_digit_byte(b: u8) -> (r: bool)
    ensures
        r == is_digit(b),
{
    48 <= b && b <= 57
}

fn skip_blanks_from(s: &[u8], pos: usize) -> (p: usize)
    ensures
        p == skip_blanks(s@, pos as int),
{
    let mut p: usize = pos;
    while p < s.len() && is_blank_byte(s[p])
        invariant
            skip_blanks(s@, p as int) == skip_blanks(s@, pos as int),
        decreases s.len() - p,
    {
        p += 1;
    }
    p
}

fn char_end_from(s: &[u8], pos: usize) -> (p: usize)
    ensures
        p == char_end(s@, pos as int),
{
    let mut p: usize = pos;
    while p < s.len() && 128 <= s[p] && s[p] < 192
        invariant
            char_end(s@, p as int) == char_end(s@, pos as int),
        decreases s.len() - p,
    {
        p += 1;
    }
    p
}

fn digits_end_from(s: &[u8], pos: usize) -> (p: usize)
    ensures
        p == digits_end(s@, pos as int),
{
    let mut p: usize = pos;
    while p < s.len() && is_digit_byte(s[p])
        invariant
            digits_end(s@, p as int) == digits_end(s@, pos as int),
        decreases s.len() - p,
    {
        p += 1;
    }
    p
}

fn fraction_end_from(s: &[u8], pos: usize) -> (p: usize)
    requires
        pos <= s.len(),
    ensures
        p == fraction_end(s@, pos as int),
        pos <= p <= s.len(),
{
    proof {
        lemma_digits_end_bounds(s@, pos + 1);
    }
    if pos < s.len() && s[pos] == 46 {
        let after: usize = digits_end_from(s, pos + 1);
        if after > pos + 1 {
            after
        } else {
            pos
        }
    } else {
        pos
    }
}

fn exponent_end_from(s: &[u8], pos: usize) -> (p: usize)
    requires
        pos <= s.len(),
    ensures
        p == exponent_end(s@, pos as int),
        pos <= p <= s.len(),
{
    if pos < s.len() && (s[pos] == 101 || s[pos] == 69) {
        let digits: usize = if pos + 1 < s.len() && (s[pos + 1] == 43 || s[pos + 1] == 45) {
            pos + 2
        } else {
            pos + 1
        };
        proof {
            lemma_digits_end_bounds(s@, digits as int);
        }
        let after: usize = digits_end_from(s, digits);
        if after > digits {
            after
        } else {
            pos
        }
    } else {
        pos
    }
}

fn number_end_from(s: &[u8], start: usize) -> (p: usize)
    requires
        start < s.len(),
    ensures
        p == number_end(s@, start as int),
        start <= p <= s.len(),
{
    proof {
        lemma_digits_end_bounds(s@, start + 1);
    }
    let whole: usize = if s[start] == 48 {
        start + 1
    } else if is_digit_byte(s[start]) {
        digits_end_from(s, start + 1)
    } else {
        start
    };
    if whole == start {
        start
    } else {
        let fraction: usize = fraction_end_from(s, whole);
        exponent_end_from(s, fraction)
    }
}

fn has_word2(s: &[u8], p: usize, a: u8, b: u8) -> (r: bool)
    requires
        p < s.len(),
    ensures
        r == word2(s@, p as int, a, b),
{
    s.len() - p > 1 && s[p] == a && s[p + 1] == b
}

fn has_word3(s: &[u8], p: usize, a: u8, b: u8, c: u8) -> (r: bool)
    requires
        p < s.len(),
    ensures
        r == word3(s@, p as int, a, b, c),
{
    s.len() - p > 2 && s[p] == a && s[p + 1] == b && s[p + 2] == c
}

fn copy_range(s: &[u8], from: usize, to: usize) -> (v: Vec<u8>)
    requires
        from <= to <= s.len(),
    ensures
        v@ == s@.subrange(from as int, to as int),
{
    let mut v: Vec<u8> = Vec::new();
    let mut i: usize = from;
    while i < to
        invariant
            from <= i <= to <= s.len(),
            v@ == s@.subrange(from as int, i as int),
        decreases to - i,
    {
        v.push(s[i]);
        i += 1;
    }
    v
}

fn token_from(s: &[u8], p: usize) -> (r: Option<(Token<Vec<u8>>, usize)>)
    requires
        p < s.len(),
    ensures
        match token_at(s@, p as int) {
            Some((token, end)) => r matches Some((t, e)) && t@ == token && e == end,
            None => r is None,
        },
{
    let b: u8 = s[p];
    if b == 43 {
        Some((Token::Plus, p + 1))
    } else if b == 45 {
        Some((Token::Minus, p + 1))
    } else if b == 42 {
        Some((Token::Multiply, p + 1))
    } else if b == 47 {
        Some((Token::Divide, p + 1))
    } else if b == 94 {
        Some((Token::Power, p + 1))
    } else if b == 33 {
        Some((Token::Factorial, p + 1))
    } else if b == 40 {
        Some((Token::LParens, p + 1))
    } else if b == 41 {
        Some((Token::RParens, p + 1))
    } else if has_word3(s, p, 115, 105, 110) {
        Some((Token::Sin, p + 3))
    } else if has_word3(s, p, 99, 111, 115) {
        Some((Token::Cos, p + 3))
    } else if has_word3(s, p, 116, 97, 110) {
        Some((Token::Tan, p + 3))
    } else if has_word3(s, p, 101, 120, 112) {
        Some((Token::Exp, p + 3))
    } else if has_word2(s, p, 108, 110) {
        Some((Token::Log, p + 2))
    } else {
        let end: usize = number_end_from(s, p);
        if end > p {
            Some((Token::Number(copy_range(s, p, end)), end))
        } else {
            None
        }
    }
}

fn scan_from(s: &[u8], pos: usize) -> (r: Option<(Result<Token<Vec<u8>>, LexError>, usize)>)
    ensures
        match scan(s@, pos as int) {
            Some((lexeme, end)) => r matches Some((item, e)) && lexeme_of(item) == lexeme && e
                == end,
            None => r is None,
        },
{
    let p: usize = skip_blanks_from(s, pos);
    if p < s.len() {
        match token_from(s, p) {
            Some((token, end)) => Some((Ok(token), end)),
            None => Some((Err(LexError { position: p }), char_end_from(s, p + 1))),
        }
    } else {
        None
    }
}

/// A tokenizer over one input: it yields the input's tokens one by one, from the start.
pub struct Lexer<'a> {
    source: &'a [u8],
    pos: usize,
}

impl<'a> Lexer<'a> {
    /// The bytes of the input.
    pub closed spec fn bytes(&self) -> Seq<u8> {
        self.source@
    }

    /// The offset from which the next token is looked for.
    pub closed spec fn offset(&self) -> int {
        self.pos as int
    }

    /// What is still to come.
    pub open spec fn remaining(&self) -> Seq<Lexeme> {
        tokens(self.bytes(), self.offset())
    }

    /// A tokenizer at the start of `input`.
    pub fn new(input: &'a str) -> (lexer: Lexer<'a>)
        ensures
            lexer.bytes() == input.spec_bytes(),
            lexer.offset() == 0,
            lexer.remaining() == tokens(input.spec_bytes(), 0),
    {
        Lexer { source: input.as_bytes(), pos: 0 }
    }

    /// The next token, which stays to be taken; `None` at the end of the input.
    pub fn peek(&self) -> (item: Option<Result<Token<Vec<u8>>, LexError>>)
        ensures
            item is None <==> self.remaining().len() == 0,
            item matches Some(x) ==> lexeme_of(x) == self.remaining()[0],
    {
        match scan_from(self.source, self.pos) {
            Some((item, _)) => Some(item),
            None => None,
        }
    }

    /// Takes the next token; `None` at the end of the input.
    pub fn next(&mut self) -> (item: Option<Result<Token<Vec<u8>>, LexError>>)
        ensures
            final(self).bytes() == old(self).bytes(),
            item is None <==> old(self).remaining().len() == 0,
            item is None ==> final(self).remaining() == old(self).remaining(),
            item matches Some(x) ==> lexeme_of(x) == old(self).remaining()[0],
            item is Some ==> final(self).remaining() == old(self).remaining().skip(1),
    {
        match scan_from(self.source, self.pos) {
            Some((item, end)) => {
                proof {
                    let rest = tokens(self.source@, end as int);
                    assert((seq![lexeme_of(item)] + rest).skip(1) == rest);
                }
                self.pos = end;
                Some(item)
            },
            None => None,
        }
    }
}

} // verus!
