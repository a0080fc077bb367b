//! Tokenizer of the circuit language: the text is read line by line, each line
//! is cut into words at whitespace, and each word becomes one token.
use vstd::prelude::*;

verus! {

/// A gate that the language names directly.
#[derive(Clone, Debug)]
pub enum PrimitiveGate {
    H,
    CNOT,
    /// A phase shift by the angle written between the parentheses, kept as
    /// its decimal text.
    R(String),
    /// The identity of the given dimension.
    I(usize),
}

#[derive(Clone, Debug)]
pub enum TokenType {
    Identifier(String),
    Number(usize),
    ByteArray(Vec<bool>),
    Gate(PrimitiveGate),
    Initialize,
    Select,
    Apply,
    Concat,
    Tensor,
    Inverse,
    Measure,
    NewLine,
}

/// A token with its position: line number and column, both counted from zero;
/// the column counts bytes.
#[derive(Clone, Debug)]
pub struct Token {
    pub ty: TokenType,
    pub line: usize,
    pub col: usize,
}

impl Token {
    pub fn line(&self) -> (line: usize)
        ensures
            line == self.line,
    {
        self.line
    }

    pub fn col(&self) -> (col: usize)
        ensures
            col == self.col,
    {
        self.col
    }
}

/// Why a text could not be tokenized.
#[derive(Clone, Copy, Debug, PartialEq, Eq, Structural)]
pub enum ScanError {
    /// A bracketed word holds something other than `0` and `1`.
    MalformedBits,
    /// The angle of an `R(...)` gate is no decimal number.
    MalformedAngle,
    /// The dimension of an `I(...)` gate is no unsigned integer.
    MalformedDimension,
    /// A number does not fit in a `usize`.
    NumberTooLarge,
    /// A column does not fit in a `usize`.
    LineTooLong,
}

impl ScanError {
    pub fn message(&self) -> (m: &'static str)
        ensures
            m == match self {
                ScanError::MalformedBits => "Malformed bit literal",
                ScanError::MalformedAngle => "Failed to parse theta",
                ScanError::MalformedDimension => "Failed to parse n",
                ScanError::NumberTooLarge => "Number too large",
                ScanError::LineTooLong => "Line too long",
            },
    {
        match self {
            ScanError::MalformedBits => "Malformed bit literal",
            ScanError::MalformedAngle => "Failed to parse theta",
            ScanError::MalformedDimension => "Failed to parse n",
            ScanError::NumberTooLarge => "Number too large",
            ScanError::LineTooLong => "Line too long",
        }
    }
}

// ---------------------------------------------------------------------------
// Characters and numbers

/// Unicode white space, as `char::is_whitespace` has it.
pub open spec fn is_whitespace(c: char) -> bool {
    ('\u{9}' <= c && c <= '\u{d}') || c == ' ' || c == '\u{85}' || c == '\u{a0}' || c == '\u{1680}'
        || ('\u{2000}' <= c && c <= '\u{200a}') || c == '\u{2028}' || c == '\u{2029}'
        || c == '\u{202f}' || c == '\u{205f}' || c == '\u{3000}'
}

/// Number of bytes of `c` in UTF-8.
pub open spec fn utf8_len(c: char) -> nat {
    if (c as u32) < 0x80 {
        1
    } else if (c as u32) < 0x800 {
        2
    } else if (c as u32) < 0x10000 {
        3
    } else {
        4
    }
}

/// Number of bytes of `w` in UTF-8.
pub open spec fn byte_len(w: Seq<char>) -> nat
    decreases w.len(),
{
    if w.len() == 0 {
        0
    } else {
        byte_len(w.drop_last()) + utf8_len(w.last())
    }
}

pub open spec fn is_digit(c: char) -> bool {
    '0' <= c && c <= '9'
}

pub open spec fn all_digits(s: Seq<char>) -> bool {
    forall|i: int| 0 <= i < s.len() ==> is_digit(#[trigger] s[i])
}

/// The value of a string of decimal digits.
pub open spec fn decimal_value(s: Seq<char>) -> nat
    decreases s.len(),
{
    if s.len() == 0 {
        0
    } else {
        decimal_value(s.drop_last()) * 10 + ((s.last() as u32) - ('0' as u32)) as nat
    }
}

/// What `usize::from_str` reads in `s`: an optional `+` and at least one
/// decimal digit, of a value that fits.
pub open spec fn unsigned_of(s: Seq<char>) -> Option<nat> {
    let digits = if s.len() > 0 && s[0] == '+' { s.drop_first() } else { s };
    if digits.len() > 0 && all_digits(digits) && decimal_value(digits) <= usize::MAX {
        Some(decimal_value(digits))
    } else {
        None
    }
}

/// States of a reader of decimal floating-point literals.
#[derive(Clone, Copy, PartialEq, Eq, Structural)]
pub enum FloatReader {
    Start,
    Signed,
    Whole,
    BareDot,
    WholeDot,
    Fraction,
    ExponentMark,
    ExponentSign,
    Exponent,
    Rejected,
}

pub open spec fn float_step(state: FloatReader, c: char) -> FloatReader {
    match state {
        FloatReader::Start => if c == '+' || c == '-' {
            FloatReader::Signed
        } else if is_digit(c) {
            FloatReader::Whole
        } else if c == '.' {
            FloatReader::BareDot
        } else {
            FloatReader::Rejected
        },
        FloatReader::Signed => if is_digit(c) {
            FloatReader::Whole
        } else if c == '.' {
            FloatReader::BareDot
        } else {
            FloatReader::Rejected
        },
        FloatReader::Whole => if is_digit(c) {
            FloatReader::Whole
        } else if c == '.' {
            FloatReader::WholeDot
        } else if c == 'e' || c == 'E' {
            FloatReader::ExponentMark
        } else {
            FloatReader::Rejected
        },
        FloatReader::BareDot => if is_digit(c) {
            FloatReader::Fraction
        } else {
            FloatReader::Rejected
        },
        FloatReader::WholeDot | FloatReader::Fraction => if is_digit(c) {
            FloatReader::Fraction
        } else if c == 'e' || c == 'E' {
            FloatReader::ExponentMark
        } else {
            FloatReader::Rejected
        },
        FloatReader::ExponentMark => if c == '+' || c == '-' {
            FloatReader::ExponentSign
        } else if is_digit(c) {
            FloatReader::Exponent
        } else {
            FloatReader::Rejected
        },
        FloatReader::ExponentSign | FloatReader::Exponent => if is_digit(c) {
            FloatReader::Exponent
        } else {
            FloatReader::Rejected
        },
        FloatReader::Rejected => FloatReader::Rejected,
    }
}

/// The state of the reader after the characters of `s`.
pub open spec fn float_run(s: Seq<char>) -> FloatReader
    decreases s.len(),
{
    if s.len() == 0 {
        FloatReader::Start
    } else {
        float_step(float_run(s.drop_last()), s.last())
    }
}

pub open spec fn ascii_lower(c: char) -> char {
    if 'A' <= c && c <= 'Z' {
        ((c as u8) + 32) as char
    } else {
        c
    }
}

/// `inf`, `infinity` or `nan` in any case, after an optional sign.
pub open spec fn is_special_float(s: Seq<char>) -> bool {
    let body = if s.len() > 0 && (s[0] == '+' || s[0] == '-') { s.drop_first() } else { s };
    let lower = body.map_values(|c: char| ascii_lower(c));
    lower == seq!['i', 'n', 'f'] || lower == seq!['i', 'n', 'f', 'i', 'n', 'i', 't', 'y'] || lower
        == seq!['n', 'a', 'n']
}

/// Whether `s` is a floating-point literal as `f64::from_str` reads them: an
/// optional sign, digits with at most one decimal point and at least one
/// digit, and an optional exponent; or a name of infinity or of NaN.
pub open spec fn is_float_literal(s: Seq<char>) -> bool {
    match float_run(s) {
        FloatReader::Whole | FloatReader::WholeDot | FloatReader::Fraction
        | FloatReader::Exponent => true,
        _ => is_special_float(s),
    }
}

fn is_whitespace_char(c: char) -> (r: bool)
    ensures
        r == is_whitespace(c),
{
    ('\u{9}' <= c && c <= '\u{d}') || c == ' ' || c == '\u{85}' || c == '\u{a0}' || c == '\u{1680}'
        || ('\u{2000}' <= c && c <= '\u{200a}') || c == '\u{2028}' || c == '\u{2029}'
        || c == '\u{202f}' || c == '\u{205f}' || c == '\u{3000}'
}

fn utf8_width(c: char) -> (r: usize)
    ensures
        r == utf8_len(c),
{
    let code = c as u32;
    if code < 0x80 {
        1
    } else if code < 0x800 {
        2
    } else if code < 0x10000 {
        3
    } else {
        4
    }
}

fn is_digit_char(c: char) -> (r: bool)
    ensures
        r == is_digit(c),
{
    '0' <= c && c <= '9'
}

/// The characters of `text`, in order.
fn chars_of(text: &str) -> (chars: Vec<char>)
    ensures
        chars@ == text@,
{
    let mut chars: Vec<char> = Vec::new();
    let ghost all = text@;
    for c in it: text.chars()
        invariant
            chars@ == it.seq().take(it.index() as int),
            it.seq() == all,
    {
        chars.push(c);
    }
    chars
}

/// Relies on `String: FromIterator<&char>`: the string of the given characters.
#[verifier::external_body]
fn string_of(chars: &[char]) -> (s: String)
    ensures
        s@ == chars@,
{
    chars.iter().collect()
}

fn same_chars(a: &[char], b: &[char]) -> (r: bool)
    ensures
        r == (a@ == b@),
{
    if a.len() != b.len() {
        return false;
    }
    let mut i: usize = 0;
    while i < a.len()
        invariant
            a.len() == b.len(),
            i <= a.len(),
            forall|j: int| 0 <= j < i ==> a@[j] == b@[j],
        decreases a.len() - i,
    {
        if a[i] != b[i] {
            return false;
        }
        i = i + 1;
    }
    assert(a@ =~= b@);
    true
}

fn chars_between(s: &[char], from: usize, to: usize) -> (r: Vec<char>)
    requires
        from <= to <= s.len(),
    ensures
        r@ == s@.subrange(from as int, to as int),
{
    let mut r: Vec<char> = Vec::new();
    let mut i: usize = from;
    while i < to
        invariant
            from <= i <= to <= s.len(),
            r@ == s@.subrange(from as int, i as int),
        decreases to - i,
    {
        r.push(s[i]);
        i = i + 1;
        assert(r@ =~= s@.subrange(from as int, i as int));
    }
    r
}

proof fn lemma_decimal_prefix_le(s: Seq<char>, k: int)
    requires
        0 <= k <= s.len(),
    ensures
        decimal_value(s.take(k)) <= decimal_value(s),
    decreases s.len() - k,
{
    if k < s.len() {
        lemma_decimal_prefix_le(s, k + 1);
        assert(s.take(k + 1).drop_last() =~= s.take(k));
        assert(decimal_value(s.take(k + 1)) >= decimal_value(s.take(k)) * 10);
    } else {
        assert(s.take(k) =~= s);
    }
}

/// The value of the decimal digits `s[from..]`, if they are at least one, all
/// digits, and of a value that fits.
fn read_decimal(s: &[char], from: usize) -> (r: Option<usize>)
    requires
        from <= s.len(),
    ensures
        ({
            let digits = s@.skip(from as int);
            r == if digits.len() > 0 && all_digits(digits) && decimal_value(digits) <= usize::MAX {
                Some(decimal_value(digits) as usize)
            } else {
                None::<usize>
            }
        }),
{
    let ghost digits = s@.skip(from as int);
    if from == s.len() {
        return None;
    }
    let mut value: usize = 0;
    let mut i: usize = from;
    while i < s.len()
        invariant
            from <= i <= s.len(),
            digits == s@.skip(from as int),
            all_digits(digits.take(i - from)),
            value == decimal_value(digits.take(i - from)),
        decreases s.len() - i,
    {
        let c = s[i];
        if !is_digit_char(c) {
            assert(digits[i - from] == c);
            return None;
        }
        let ghost before = digits.take(i - from);
        assert(digits.take(i - from + 1).drop_last() =~= before);
        assert(digits.take(i - from + 1) =~= before.push(c));
        let d = (c as u32 - '0' as u32) as usize;
        let next = match value.checked_mul(10) {
            Some(v) => v.checked_add(d),
            None => None,
        };
        match next {
            Some(v) => {
                value = v;
            },
            None => {
                proof {
                    lemma_decimal_prefix_le(digits, i - from + 1);
                }
                return None;
            },
        }
        i = i + 1;
    }
    assert(digits.take(i - from) =~= digits);
    Some(value)
}

/// What `usize::from_str` reads in `s`.
fn read_unsigned(s: &[char]) -> (r: Option<usize>)
    ensures
        r matches Some(v) ==> unsigned_of(s@) == Some(v as nat),
        r is None ==> unsigned_of(s@) is None,
{
    if s.len() > 0 && s[0] == '+' {
        assert(s@.skip(1) =~= s@.drop_first());
        read_decimal(s, 1)
    } else {
        assert(s@.skip(0) =~= s@);
        read_decimal(s, 0)
    }
}

fn float_next(state: FloatReader, c: char) -> (r: FloatReader)
    ensures
        r == float_step(state, c),
{
    let digit = is_digit_char(c);
    match state {
        FloatReader::Start => if c == '+' || c == '-' {
            FloatReader::Signed
        } else if digit {
            FloatReader::Whole
        } else if c == '.' {
            FloatReader::BareDot
        } else {
            FloatReader::Rejected
        },
        FloatReader::Signed => if digit {
            FloatReader::Whole
        } else if c == '.' {
            FloatReader::BareDot
        } else {
            FloatReader::Rejected
        },
        FloatReader::Whole => if digit {
            FloatReader::Whole
        } else if c == '.' {
            FloatReader::WholeDot
        } else if c == 'e' || c == 'E' {
            FloatReader::ExponentMark
        } else {
            FloatReader::Rejected
        },
        FloatReader::BareDot => if digit {
            FloatReader::Fraction
        } else {
            FloatReader::Rejected
        },
        FloatReader::WholeDot | FloatReader::Fraction => if digit {
            FloatReader::Fraction
        } else if c == 'e' || c == 'E' {
            FloatReader::ExponentMark
        } else {
            FloatReader::Rejected
        },
        FloatReader::ExponentMark => if c == '+' || c == '-' {
            FloatReader::ExponentSign
        } else if digit {
            FloatReader::Exponent
        } else {
            FloatReader::Rejected
        },
        FloatReader::ExponentSign | FloatReader::Exponent => if digit {
            FloatReader::Exponent
        } else {
            FloatReader::Rejected
        },
        FloatReader::Rejected => FloatReader::Rejected,
    }
}

fn lower_matches(body: &[char], from: usize, word: &[char]) -> (r: bool)
    requires
        from <= body.len(),
    ensures
        r == (body@.skip(from as int).map_values(|c: char| ascii_lower(c)) == word@),
{
    let ghost lower = body@.skip(from as int).map_values(|c: char| ascii_lower(c));
    if body.len() - from != word.len() {
        return false;
    }
    let mut i: usize = 0;
    while i < word.len()
        invariant
            from <= body.len(),
            body.len() - from == word.len(),
            lower == body@.skip(from as int).map_values(|c: char| ascii_lower(c)),
            i <= word.len(),
            forall|j: int| 0 <= j < i ==> lower[j] == word@[j],
        decreases word.len() - i,
    {
        let c = body[from + i];
        let l = if 'A' <= c && c <= 'Z' { ((c as u8) + 32) as char } else { c };
        assert(lower[i as int] == l);
        if l != word[i] {
            return false;
        }
        i = i + 1;
    }
    assert(lower =~= word@);
    true
}

/// Whether `s` is a literal that `f64::from_str` accepts.
fn is_float_text(s: &[char]) -> (r: bool)
    ensures
        r == is_float_literal(s@),
{
    let mut state = FloatReader::Start;
    let mut i: usize = 0;
    while i < s.len()
        invariant
            i <= s.len(),
            state == float_run(s@.take(i as int)),
        decreases s.len() - i,
    {
        assert(s@.take(i + 1).drop_last() =~= s@.take(i as int));
        state = float_next(state, s[i]);
        i = i + 1;
    }
    assert(s@.take(i as int) =~= s@);
    match state {
        FloatReader::Whole | FloatReader::WholeDot | FloatReader::Fraction
        | FloatReader::Exponent => true,
        _ => {
            let from: usize = if s.len() > 0 && (s[0] == '+' || s[0] == '-') { 1 } else { 0 };
            proof {
                if from == 1 {
                    assert(s@.skip(1) =~= s@.drop_first());
                } else {
                    assert(s@.skip(0) =~= s@);
                }
            }
            let inf = ['i', 'n', 'f'];
            let infinity = ['i', 'n', 'f', 'i', 'n', 'i', 't', 'y'];
            let nan = ['n', 'a', 'n'];
            assert(inf@ =~= seq!['i', 'n', 'f']);
            assert(infinity@ =~= seq!['i', 'n', 'f', 'i', 'n', 'i', 't', 'y']);
            assert(nan@ =~= seq!['n', 'a', 'n']);
            lower_matches(s, from, &inf) || lower_matches(s, from, &infinity) || lower_matches(
                s,
                from,
                &nan,
            )
        },
    }
}


// ---------------------------------------------------------------------------
// Words

pub open spec fn keyword_of(w: Seq<char>) -> Option<TokenType> {
    if w == seq!['I', 'N', 'I', 'T', 'I', 'A', 'L', 'I', 'Z', 'E'] {
        Some(TokenType::Initialize)
    } else if w == seq!['S', 'E', 'L', 'E', 'C', 'T'] {
        Some(TokenType::Select)
    } else if w == seq!['A', 'P', 'P', 'L', 'Y'] {
        Some(TokenType::Apply)
    } else if w == seq!['M', 'E', 'A', 'S', 'U', 'R', 'E'] {
        Some(TokenType::Measure)
    } else if w == seq!['T', 'E', 'N', 'S', 'O', 'R'] {
        Some(TokenType::Tensor)
    } else if w == seq!['C', 'O', 'N', 'C', 'A', 'T'] {
        Some(TokenType::Concat)
    } else if w == seq!['I', 'N', 'V', 'E', 'R', 'S', 'E'] {
        Some(TokenType::Inverse)
    } else {
        None
    }
}

/// Whether `w` is `open`, then something, then `close`.
pub open spec fn is_wrapped(w: Seq<char>, open: Seq<char>, close: char) -> bool {
    w.len() >= open.len() + 1 && w.take(open.len() as int) == open && w.last() == close
}

/// What stands between the first `open_len` characters and the last one.
pub open spec fn inner(w: Seq<char>, open_len: int) -> Seq<char> {
    w.subrange(open_len, w.len() - 1)
}

pub open spec fn is_bit(c: char) -> bool {
    c == '0' || c == '1'
}

pub open spec fn bits_of(s: Seq<char>) -> Seq<bool> {
    s.map_values(|c: char| c == '1')
}

/// The error that word `w` fails with, if any. Words are tried in this
/// order: keywords, bracketed bit strings, `H` and `CNOT`, `R(angle)`,
/// `I(dimension)`, numbers, identifiers.
pub open spec fn word_error(w: Seq<char>) -> Option<ScanError> {
    if keyword_of(w) is Some {
        None
    } else if is_wrapped(w, seq!['['], ']') {
        if forall|i: int| 0 <= i < inner(w, 1).len() ==> is_bit(#[trigger] inner(w, 1)[i]) {
            None
        } else {
            Some(ScanError::MalformedBits)
        }
    } else if w == seq!['H'] || w == seq!['C', 'N', 'O', 'T'] {
        None
    } else if is_wrapped(w, seq!['R', '('], ')') {
        if is_float_literal(inner(w, 2)) {
            None
        } else {
            Some(ScanError::MalformedAngle)
        }
    } else if is_wrapped(w, seq!['I', '('], ')') {
        if unsigned_of(inner(w, 2)) is Some {
            None
        } else {
            Some(ScanError::MalformedDimension)
        }
    } else if w.len() > 0 && all_digits(w) {
        if decimal_value(w) <= usize::MAX {
            None
        } else {
            Some(ScanError::NumberTooLarge)
        }
    } else {
        None
    }
}

/// Whether `t` is the token of word `w` (for a word without error).
pub open spec fn lexes_to(w: Seq<char>, t: TokenType) -> bool {
    if keyword_of(w) is Some {
        t == keyword_of(w)->0
    } else if is_wrapped(w, seq!['['], ']') {
        match t {
            TokenType::ByteArray(b) => b@ == bits_of(inner(w, 1)),
            _ => false,
        }
    } else if w == seq!['H'] {
        t matches TokenType::Gate(PrimitiveGate::H)
    } else if w == seq!['C', 'N', 'O', 'T'] {
        t matches TokenType::Gate(PrimitiveGate::CNOT)
    } else if is_wrapped(w, seq!['R', '('], ')') {
        match t {
            TokenType::Gate(PrimitiveGate::R(angle)) => angle@ == inner(w, 2),
            _ => false,
        }
    } else if is_wrapped(w, seq!['I', '('], ')') {
        match t {
            TokenType::Gate(PrimitiveGate::I(n)) => unsigned_of(inner(w, 2)) == Some(n as nat),
            _ => false,
        }
    } else if w.len() > 0 && all_digits(w) {
        match t {
            TokenType::Number(n) => n == decimal_value(w),
            _ => false,
        }
    } else {
        match t {
            TokenType::Identifier(name) => name@ == w,
            _ => false,
        }
    }
}

fn wrapped(w: &[char], open: &[char], close: char) -> (r: bool)
    ensures
        r == is_wrapped(w@, open@, close),
{
    if w.len() <= open.len() {
        return false;
    }
    let head = chars_between(w, 0, open.len());
    assert(head@ =~= w@.take(open.len() as int));
    same_chars(&head, open) && w[w.len() - 1] == close
}

fn read_bits(s: &[char]) -> (r: Option<Vec<bool>>)
    ensures
        r matches Some(b) ==> b@ == bits_of(s@) && forall|i: int| 0 <= i < s@.len() ==> is_bit(#[trigger] s@[i]),
        r is None ==> !(forall|i: int| 0 <= i < s@.len() ==> is_bit(#[trigger] s@[i])),
{
    let mut bits: Vec<bool> = Vec::new();
    let mut i: usize = 0;
    while i < s.len()
        invariant
            i <= s.len(),
            bits@ == bits_of(s@.take(i as int)),
            forall|j: int| 0 <= j < i ==> is_bit(#[trigger] s@[j]),
        decreases s.len() - i,
    {
        let c = s[i];
        if c == '0' {
            bits.push(false);
        } else if c == '1' {
            bits.push(true);
        } else {
            assert(!is_bit(s@[i as int]));
            return None;
        }
        i = i + 1;
        assert(bits@ =~= bits_of(s@.take(i as int)));
    }
    assert(s@.take(i as int) =~= s@);
    Some(bits)
}

fn all_digit_chars(s: &[char]) -> (r: bool)
    ensures
        r == all_digits(s@),
{
    let mut i: usize = 0;
    while i < s.len()
        invariant
            i <= s.len(),
            forall|j: int| 0 <= j < i ==> is_digit(#[trigger] s@[j]),
        decreases s.len() - i,
    {
        if !is_digit_char(s[i]) {
            return false;
        }
        i = i + 1;
    }
    true
}

/// The token of one word, or the error it fails with.
pub fn classify_word(w: &[char]) -> (r: Result<TokenType, ScanError>)
    ensures
        match r {
            Ok(t) => word_error(w@) is None && lexes_to(w@, t),
            Err(e) => word_error(w@) == Some(e),
        },
{
    assert(['I', 'N', 'I', 'T', 'I', 'A', 'L', 'I', 'Z', 'E']@ =~= seq!['I', 'N', 'I', 'T', 'I', 'A', 'L', 'I', 'Z', 'E']);
    assert(['S', 'E', 'L', 'E', 'C', 'T']@ =~= seq!['S', 'E', 'L', 'E', 'C', 'T']);
    assert(['A', 'P', 'P', 'L', 'Y']@ =~= seq!['A', 'P', 'P', 'L', 'Y']);
    assert(['M', 'E', 'A', 'S', 'U', 'R', 'E']@ =~= seq!['M', 'E', 'A', 'S', 'U', 'R', 'E']);
    assert(['T', 'E', 'N', 'S', 'O', 'R']@ =~= seq!['T', 'E', 'N', 'S', 'O', 'R']);
    assert(['C', 'O', 'N', 'C', 'A', 'T']@ =~= seq!['C', 'O', 'N', 'C', 'A', 'T']);
    assert(['I', 'N', 'V', 'E', 'R', 'S', 'E']@ =~= seq!['I', 'N', 'V', 'E', 'R', 'S', 'E']);
    assert(['[']@ =~= seq!['[']);
    assert(['H']@ =~= seq!['H']);
    assert(['C', 'N', 'O', 'T']@ =~= seq!['C', 'N', 'O', 'T']);
    assert(['R', '(']@ =~= seq!['R', '(']);
    assert(['I', '(']@ =~= seq!['I', '(']);
    if same_chars(w, &['I', 'N', 'I', 'T', 'I', 'A', 'L', 'I', 'Z', 'E']) {
        Ok(TokenType::Initialize)
    } else if same_chars(w, &['S', 'E', 'L', 'E', 'C', 'T']) {
        Ok(TokenType::Select)
    } else if same_chars(w, &['A', 'P', 'P', 'L', 'Y']) {
        Ok(TokenType::Apply)
    } else if same_chars(w, &['M', 'E', 'A', 'S', 'U', 'R', 'E']) {
        Ok(TokenType::Measure)
    } else if same_chars(w, &['T', 'E', 'N', 'S', 'O', 'R']) {
        Ok(TokenType::Tensor)
    } else if same_chars(w, &['C', 'O', 'N', 'C', 'A', 'T']) {
        Ok(TokenType::Concat)
    } else if same_chars(w, &['I', 'N', 'V', 'E', 'R', 'S', 'E']) {
        Ok(TokenType::Inverse)
    } else if wrapped(w, &['['], ']') {
        let body = chars_between(w, 1, w.len() - 1);
        assert(body@ == inner(w@, 1));
        match read_bits(&body) {
            Some(bits) => Ok(TokenType::ByteArray(bits)),
            None => {
                let ghost i = choose|i: int| 0 <= i < body@.len() && !is_bit(#[trigger] body@[i]);
                assert(!is_bit(inner(w@, 1)[i]));
                Err(ScanError::MalformedBits)
            },
        }
    } else if same_chars(w, &['H']) {
        Ok(TokenType::Gate(PrimitiveGate::H))
    } else if same_chars(w, &['C', 'N', 'O', 'T']) {
        Ok(TokenType::Gate(PrimitiveGate::CNOT))
    } else if wrapped(w, &['R', '('], ')') {
        let body = chars_between(w, 2, w.len() - 1);
        if is_float_text(&body) {
            Ok(TokenType::Gate(PrimitiveGate::R(string_of(&body))))
        } else {
            Err(ScanError::MalformedAngle)
        }
    } else if wrapped(w, &['I', '('], ')') {
        let body = chars_between(w, 2, w.len() - 1);
        match read_unsigned(&body) {
            Some(n) => Ok(TokenType::Gate(PrimitiveGate::I(n))),
            None => Err(ScanError::MalformedDimension),
        }
    } else if w.len() > 0 && all_digit_chars(w) {
        assert(w@.skip(0) =~= w@);
        match read_decimal(w, 0) {
            Some(n) => Ok(TokenType::Number(n)),
            None => Err(ScanError::NumberTooLarge),
        }
    } else {
        Ok(TokenType::Identifier(string_of(w)))
    }
}


// ---------------------------------------------------------------------------
// Lines and words

/// The lines of `text`: its pieces between line feeds.
pub open spec fn lines_of(text: Seq<char>) -> Seq<Seq<char>>
    decreases text.len(),
{
    if text.len() == 0 {
        seq![Seq::<char>::empty()]
    } else {
        let prev = lines_of(text.drop_last());
        if text.last() == '\n' {
            prev.push(Seq::<char>::empty())
        } else {
            prev.update(prev.len() - 1, prev.last().push(text.last()))
        }
    }
}

/// The words of `line`: its longest runs of characters other than white space.
pub open spec fn words_of(line: Seq<char>) -> Seq<Seq<char>>
    decreases line.len(),
{
    if line.len() == 0 {
        seq![]
    } else {
        let prev = words_of(line.drop_last());
        let c = line.last();
        if is_whitespace(c) {
            prev
        } else if line.len() >= 2 && !is_whitespace(line[line.len() - 2]) {
            prev.update(prev.len() - 1, prev.last().push(c))
        } else {
            prev.push(seq![c])
        }
    }
}

fn split_lines(text: &[char]) -> (lines: Vec<Vec<char>>)
    ensures
        lines@.map_values(|l: Vec<char>| l@) == lines_of(text@),
{
    let mut lines: Vec<Vec<char>> = Vec::new();
    lines.push(Vec::new());
    let mut i: usize = 0;
    assert(lines@.map_values(|l: Vec<char>| l@) =~= lines_of(text@.take(0)));
    while i < text.len()
        invariant
            i <= text.len(),
            lines.len() >= 1,
            lines@.map_values(|l: Vec<char>| l@) == lines_of(text@.take(i as int)),
        decreases text.len() - i,
    {
        let c = text[i];
        let ghost before = lines@.map_values(|l: Vec<char>| l@);
        assert(text@.take(i + 1).drop_last() =~= text@.take(i as int));
        if c == '\n' {
            lines.push(Vec::new());
        } else {
            let mut last = lines.pop().unwrap();
            last.push(c);
            lines.push(last);
        }
        i = i + 1;
        assert(lines@.map_values(|l: Vec<char>| l@) =~= lines_of(text@.take(i as int)));
    }
    assert(text@.take(i as int) =~= text@);
    lines
}

fn split_words(line: &[char]) -> (words: Vec<Vec<char>>)
    ensures
        words@.map_values(|w: Vec<char>| w@) == words_of(line@),
{
    let mut words: Vec<Vec<char>> = Vec::new();
    let mut in_word = false;
    let mut i: usize = 0;
    assert(words@.map_values(|w: Vec<char>| w@) =~= words_of(line@.take(0)));
    while i < line.len()
        invariant
            i <= line.len(),
            in_word == (i > 0 && !is_whitespace(line@[i - 1])),
            in_word ==> words.len() > 0,
            words@.map_values(|w: Vec<char>| w@) == words_of(line@.take(i as int)),
        decreases line.len() - i,
    {
        let c = line[i];
        let ghost prefix = line@.take(i + 1);
        assert(prefix.drop_last() =~= line@.take(i as int));
        if is_whitespace_char(c) {
            in_word = false;
        } else if in_word {
            assert(prefix[prefix.len() - 2] == line@[i - 1]);
            let mut last = words.pop().unwrap();
            last.push(c);
            words.push(last);
        } else {
            let mut fresh: Vec<char> = Vec::new();
            fresh.push(c);
            words.push(fresh);
            in_word = true;
        }
        i = i + 1;
        assert(words@.map_values(|w: Vec<char>| w@) =~= words_of(line@.take(i as int)));
    }
    assert(line@.take(i as int) =~= line@);
    words
}

proof fn lemma_byte_len_prefix_le(w: Seq<char>, k: int)
    requires
        0 <= k <= w.len(),
    ensures
        byte_len(w.take(k)) <= byte_len(w),
    decreases w.len() - k,
{
    if k < w.len() {
        lemma_byte_len_prefix_le(w, k + 1);
        assert(w.take(k + 1).drop_last() =~= w.take(k));
    } else {
        assert(w.take(k) =~= w);
    }
}

/// `start` plus the number of bytes of `w`, if that fits.
fn add_byte_len(start: usize, w: &[char]) -> (r: Option<usize>)
    ensures
        r == if start + byte_len(w@) <= usize::MAX {
            Some((start + byte_len(w@)) as usize)
        } else {
            None::<usize>
        },
{
    let mut total: usize = start;
    let mut i: usize = 0;
    while i < w.len()
        invariant
            i <= w.len(),
            total == start + byte_len(w@.take(i as int)),
        decreases w.len() - i,
    {
        assert(w@.take(i + 1).drop_last() =~= w@.take(i as int));
        let width = utf8_width(w[i]);
        match total.checked_add(width) {
            Some(t) => {
                total = t;
            },
            None => {
                proof {
                    lemma_byte_len_prefix_le(w@, i + 1);
                }
                return None;
            },
        }
        i = i + 1;
    }
    assert(w@.take(i as int) =~= w@);
    Some(total)
}

// ---------------------------------------------------------------------------
// Tokens of a text

/// A word of the text, or the end of a line that holds words, with its position.
pub struct Piece {
    pub word: Seq<char>,
    pub line: nat,
    pub col: nat,
    pub newline: bool,
}

/// The column of word `k` of a line: each word before it counts its bytes and
/// one separating space.
pub open spec fn word_col(ws: Seq<Seq<char>>, k: nat) -> nat
    decreases k,
{
    if k == 0 {
        0
    } else {
        word_col(ws, (k - 1) as nat) + byte_len(ws[k - 1]) + 1
    }
}

/// The pieces of a line with words `ws`: each word, then the line's end at the
/// column where its last word ends. A line without words gives none.
pub open spec fn line_pieces(ws: Seq<Seq<char>>, line: nat) -> Seq<Piece> {
    if ws.len() == 0 {
        seq![]
    } else {
        Seq::new(ws.len(), |k: int| Piece { word: ws[k], line, col: word_col(ws, k as nat), newline: false })
            .push(Piece { word: seq![], line, col: (word_col(ws, ws.len()) - 1) as nat, newline: true })
    }
}

/// The pieces of the first `n` lines.
pub open spec fn pieces_upto(lines: Seq<Seq<char>>, n: nat) -> Seq<Piece>
    decreases n,
{
    if n == 0 {
        seq![]
    } else {
        pieces_upto(lines, (n - 1) as nat) + line_pieces(words_of(lines[n - 1]), (n - 1) as nat)
    }
}

/// The pieces of a text, in order.
pub open spec fn text_pieces(text: Seq<char>) -> Seq<Piece> {
    pieces_upto(lines_of(text), lines_of(text).len())
}

/// The error of a piece: a column that does not fit, or a word that fails.
pub open spec fn piece_error(p: Piece) -> Option<ScanError> {
    if p.col > usize::MAX {
        Some(ScanError::LineTooLong)
    } else if p.newline {
        None
    } else {
        word_error(p.word)
    }
}

pub open spec fn token_of_piece(t: Token, p: Piece) -> bool {
    &&& t.line == p.line
    &&& t.col == p.col
    &&& if p.newline {
        t.ty matches TokenType::NewLine
    } else {
        lexes_to(p.word, t.ty)
    }
}

proof fn lemma_pieces_prefix(lines: Seq<Seq<char>>, a: nat, b: nat)
    requires
        a <= b,
    ensures
        pieces_upto(lines, a).len() <= pieces_upto(lines, b).len(),
        forall|i: int| 0 <= i < pieces_upto(lines, a).len() ==> pieces_upto(lines, b)[i] == pieces_upto(lines, a)[i],
    decreases b,
{
    if a < b {
        lemma_pieces_prefix(lines, a, (b - 1) as nat);
    }
}

/// Tokenizes a program. Lines are numbered from zero and a line without
/// words gives no token; each word of a line gives one token, and a line
/// with words ends in a `NewLine` token. The scan fails with the error of the
/// first piece that has one.
pub fn scan(text: &str) -> (r: Result<Vec<Token>, ScanError>)
    ensures
        match r {
            Ok(tokens) => {
                &&& tokens.len() == text_pieces(text@).len()
                &&& forall|i: int| 0 <= i < tokens.len() ==> piece_error(#[trigger] text_pieces(text@)[i]) is None
                    && token_of_piece(tokens[i], text_pieces(text@)[i])
            },
            Err(e) => exists|i: int| 0 <= i < text_pieces(text@).len()
                && piece_error(#[trigger] text_pieces(text@)[i]) == Some(e)
                && forall|j: int| 0 <= j < i ==> piece_error(#[trigger] text_pieces(text@)[j]) is None,
        },
{
    let chars = chars_of(text);
    let lines = split_lines(&chars);
    let ghost ls = lines_of(text@);
    let ghost all = text_pieces(text@);
    let mut tokens: Vec<Token> = Vec::new();
    let mut li: usize = 0;
    while li < lines.len()
        invariant
            li <= lines.len(),
            lines@.map_values(|l: Vec<char>| l@) == ls,
            all == pieces_upto(ls, ls.len()),
            all == text_pieces(text@),
            tokens.len() == pieces_upto(ls, li as nat).len(),
            forall|i: int| 0 <= i < tokens.len() ==> piece_error(#[trigger] pieces_upto(ls, li as nat)[i]) is None
                && token_of_piece(tokens[i], pieces_upto(ls, li as nat)[i]),
        decreases lines.len() - li,
    {
        let words = split_words(&lines[li]);
        let ghost ws = words_of(ls[li as int]);
        let ghost lp = line_pieces(ws, li as nat);
        let ghost base = tokens.len();
        let ghost done = pieces_upto(ls, li as nat);
        assert(pieces_upto(ls, (li + 1) as nat) == done + lp);
        proof {
            lemma_pieces_prefix(ls, (li + 1) as nat, ls.len());
        }
        if words.len() > 0 {
            let mut col: usize = 0;
            let mut k: usize = 0;
            while k < words.len()
                invariant
                    li < lines.len(),
                    words@.map_values(|w: Vec<char>| w@) == ws,
                    ws.len() > 0,
                    lp == line_pieces(ws, li as nat),
                    pieces_upto(ls, (li + 1) as nat) == done + lp,
                    base == done.len(),
                    all == pieces_upto(ls, ls.len()),
                    all == text_pieces(text@),
                    pieces_upto(ls, (li + 1) as nat).len() <= all.len(),
                    forall|i: int| 0 <= i < pieces_upto(ls, (li + 1) as nat).len() ==> all[i] == pieces_upto(ls, (li + 1) as nat)[i],
                    k <= words.len(),
                    k < words.len() ==> col == word_col(ws, k as nat),
                    k == words.len() ==> tokens.len() == base + k + 1,
                    k < words.len() ==> tokens.len() == base + k,
                    forall|i: int| 0 <= i < tokens.len() ==> piece_error(#[trigger] (done + lp)[i]) is None
                        && token_of_piece(tokens[i], (done + lp)[i]),
                decreases words.len() - k,
            {
                let ghost p = base + k;
                assert((done + lp)[p] == lp[k as int]);
                assert(lp[k as int] == Piece { word: ws[k as int], line: li as nat, col: word_col(ws, k as nat), newline: false });
                assert(words@[k as int]@ == ws[k as int]);
                match classify_word(&words[k]) {
                    Err(e) => {
                        assert(all[p] == lp[k as int]);
                        assert(piece_error(text_pieces(text@)[p as int]) == Some(e));
                        assert(forall|j: int| 0 <= j < p ==> piece_error(#[trigger] text_pieces(text@)[j]) is None) by {
                            assert(forall|j: int| 0 <= j < p ==> all[j] == (done + lp)[j]);
                        }
                        return Err(e);
                    },
                    Ok(ty) => {
                        tokens.push(Token { ty, line: li, col });
                    },
                }
                let end = add_byte_len(col, &words[k]);
                assert(word_col(ws, (k + 1) as nat) == word_col(ws, k as nat) + byte_len(ws[k as int]) + 1);
                match end {
                    None => {
                        assert(all[p + 1] == lp[k + 1]);
                        assert(piece_error(text_pieces(text@)[p + 1]) == Some(ScanError::LineTooLong));
                        assert(forall|j: int| 0 <= j < p + 1 ==> piece_error(#[trigger] text_pieces(text@)[j]) is None) by {
                            assert(forall|j: int| 0 <= j < p + 1 ==> all[j] == (done + lp)[j]);
                        }
                        return Err(ScanError::LineTooLong);
                    },
                    Some(end) => {
                        if k + 1 < words.len() {
                            if end == usize::MAX {
                                assert(all[p + 1] == lp[k + 1]);
                                assert(piece_error(text_pieces(text@)[p + 1]) == Some(ScanError::LineTooLong));
                                assert(forall|j: int| 0 <= j < p + 1 ==> piece_error(#[trigger] text_pieces(text@)[j]) is None) by {
                                    assert(forall|j: int| 0 <= j < p + 1 ==> all[j] == (done + lp)[j]);
                                }
                                return Err(ScanError::LineTooLong);
                            }
                            col = end + 1;
                        } else {
                            assert((done + lp)[p + 1] == lp[k + 1]);
                            tokens.push(Token { ty: TokenType::NewLine, line: li, col: end });
                        }
                    },
                }
                k = k + 1;
            }
        } else {
            assert(lp =~= seq![]);
            assert(done + lp =~= done);
        }
        assert(tokens.len() == (done + lp).len());
        li = li + 1;
    }
    Ok(tokens)
}

} // verus!
