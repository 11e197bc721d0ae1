use vstd::prelude::*;
use vstd::string::StrSliceExecFns;

verus! {

/// A binary arithmetic operator.
#[derive(Debug, Clone, Copy, PartialEq, Eq, Structural)]
pub enum Operator {
    ADD,
    SUB,
    MULT,
    DIV,
}

/// Binding strength of an operator: additive operators bind less tightly than
/// multiplicative ones.
pub open spec fn tier(op: Operator) -> int {
    match op {
        Operator::ADD | Operator::SUB => 0,
        Operator::MULT | Operator::DIV => 1,
    }
}

/// How the precedence of `a` compares with that of `b`.
pub open spec fn precedence_cmp(a: Operator, b: Operator) -> core::cmp::Ordering {
    if tier(a) < tier(b) {
        core::cmp::Ordering::Less
    } else if tier(a) > tier(b) {
        core::cmp::Ordering::Greater
    } else {
        core::cmp::Ordering::Equal
    }
}

impl PartialOrd for Operator {
    fn partial_cmp(&self, other: &Self) -> Option<core::cmp::Ordering> {
        match (self, other) {
            (Operator::ADD, Operator::MULT) | (Operator::ADD, Operator::DIV) => Some(
                core::cmp::Ordering::Less,
            ),
            (Operator::SUB, Operator::MULT) | (Operator::SUB, Operator::DIV) => Some(
                core::cmp::Ordering::Less,
            ),
            (Operator::MULT, Operator::ADD) | (Operator::MULT, Operator::SUB) => Some(
                core::cmp::Ordering::Greater,
            ),
            (Operator::DIV, Operator::ADD) | (Operator::DIV, Operator::SUB) => Some(
                core::cmp::Ordering::Greater,
            ),
            _ => Some(core::cmp::Ordering::Equal),
        }
    }
}

impl vstd::std_specs::cmp::PartialOrdSpecImpl for Operator {
    open spec fn obeys_partial_cmp_spec() -> bool {
        true
    }

    open spec fn partial_cmp_spec(&self, other: &Operator) -> Option<core::cmp::Ordering> {
        Some(precedence_cmp(*self, *other))
    }
}

/// A token of the input text. A number carries the bytes of its numeral.
#[derive(Debug, Clone, PartialEq, PartialOrd)]
pub enum Token {
    EOF,
    Number(Vec<u8>),
    Operator(Operator),
    LPAREN,
    RPAREN,
}

/// The mathematical value of a token.
pub enum Lexeme {
    End,
    Num(Seq<u8>),
    Op(Operator),
    Open,
    Close,
}

impl View for Token {
    type V = Lexeme;

    open spec fn view(&self) -> Lexeme {
        match self {
            Token::EOF => Lexeme::End,
            Token::Number(n) => Lexeme::Num(n@),
            Token::Operator(o) => Lexeme::Op(*o),
            Token::LPAREN => Lexeme::Open,
            Token::RPAREN => Lexeme::Close,
        }
    }
}

/// The calculator as a whole; it holds no state of its own.
pub struct Calculator {}

/// Why the lexer could not hand out a token: the character at the cursor starts none.
#[derive(Debug, Clone, Copy, PartialEq, Eq, Structural)]
pub enum LexerError {
    BadToken(char),
}

/// The character at `i`, or `'\0'` past either end of `s`.
pub open spec fn char_at(s: Seq<char>, i: int) -> char {
    if 0 <= i < s.len() {
        s[i]
    } else {
        '\0'
    }
}

/// ASCII whitespace: space, tab, line feed, form feed, carriage return.
pub open spec fn is_space(c: char) -> bool {
    c == ' ' || c == '\t' || c == '\n' || c == '\x0C' || c == '\r'
}

pub open spec fn is_digit(c: char) -> bool {
    '0' <= c <= '9'
}

pub open spec fn is_numeral_char(c: char) -> bool {
    is_digit(c) || c == '.'
}

/// The bytes of a run of ASCII characters.
pub open spec fn ascii_bytes(cs: Seq<char>) -> Seq<u8> {
    cs.map_values(|c: char| c as u8)
}

/// The first position at or after `i` that does not hold whitespace.
pub open spec fn skip_spaces(s: Seq<char>, i: int) -> int
    decreases s.len() - i,
{
    if 0 <= i < s.len() && is_space(s[i]) {
        skip_spaces(s, i + 1)
    } else {
        i
    }
}

/// The first position at or after `i` that holds neither a digit nor a `.`.
pub open spec fn numeral_end(s: Seq<char>, i: int) -> int
    decreases s.len() - i,
{
    if 0 <= i < s.len() && is_numeral_char(s[i]) {
        numeral_end(s, i + 1)
    } else {
        i
    }
}

/// What the token that starts at position `j` is: the end of input only where
/// the text ends, and any character outside the token set is refused.
pub open spec fn classify(s: Seq<char>, j: int) -> Result<Lexeme, LexerError> {
    if j >= s.len() {
        Ok(Lexeme::End)
    } else {
        let c = s[j];
        if is_digit(c) {
            Ok(Lexeme::Num(ascii_bytes(s.subrange(j, numeral_end(s, j)))))
        } else if c == '+' {
            Ok(Lexeme::Op(Operator::ADD))
        } else if c == '-' {
            Ok(Lexeme::Op(Operator::SUB))
        } else if c == '*' {
            Ok(Lexeme::Op(Operator::MULT))
        } else if c == '/' {
            Ok(Lexeme::Op(Operator::DIV))
        } else if c == '(' {
            Ok(Lexeme::Open)
        } else if c == ')' {
            Ok(Lexeme::Close)
        } else {
            Err(LexerError::BadToken(c))
        }
    }
}

/// Where the cursor stands after the token that starts at position `j`: past the
/// whole numeral, or past the one character read, but never past the end.
pub open spec fn token_end(s: Seq<char>, j: int) -> int {
    if j >= s.len() {
        j
    } else if is_digit(s[j]) {
        numeral_end(s, j)
    } else {
        j + 1
    }
}

pub proof fn lemma_skip_spaces(s: Seq<char>, i: int)
    requires
        0 <= i <= s.len(),
    ensures
        i <= skip_spaces(s, i) <= s.len(),
        skip_spaces(s, i) < s.len() ==> !is_space(s[skip_spaces(s, i)]),
    decreases s.len() - i,
{
    if i < s.len() && is_space(s[i]) {
        lemma_skip_spaces(s, i + 1);
    }
}

pub proof fn lemma_numeral_end(s: Seq<char>, i: int)
    requires
        0 <= i <= s.len(),
    ensures
        i <= numeral_end(s, i) <= s.len(),
    decreases s.len() - i,
{
    if i < s.len() && is_numeral_char(s[i]) {
        lemma_numeral_end(s, i + 1);
    }
}

/// The token that starts at `j` ends past `j` unless it is the end of input.
pub proof fn lemma_token_end(s: Seq<char>, j: int)
    requires
        0 <= j <= s.len(),
    ensures
        j <= token_end(s, j) <= s.len(),
        j < s.len() ==> j < token_end(s, j),
{
    if j < s.len() && is_digit(s[j]) {
        lemma_numeral_end(s, j + 1);
        assert(numeral_end(s, j) == numeral_end(s, j + 1));
    }
}

/// The tokens of `s` from position `i` up to the end of input, and the offending
/// character if a character that starts no token stops the scan first.
pub open spec fn tokens_from(s: Seq<char>, i: int) -> (Seq<Lexeme>, Option<char>)
    decreases s.len() - i,
{
    let j = skip_spaces(s, i);
    match classify(s, j) {
        Err(LexerError::BadToken(c)) => (Seq::empty(), Some(c)),
        Ok(Lexeme::End) => (Seq::empty(), None),
        Ok(t) => if i < token_end(s, j) <= s.len() {
            let rest = tokens_from(s, token_end(s, j));
            (seq![t] + rest.0, rest.1)
        } else {
            (Seq::empty(), None)
        },
    }
}

proof fn lemma_skip_spaces_extended(s: Seq<char>, r: Seq<char>, i: int)
    requires
        0 <= i <= s.len(),
        skip_spaces(s, i) < s.len(),
    ensures
        skip_spaces(s + r, i) == skip_spaces(s, i),
    decreases s.len() - i,
{
    if is_space(s[i]) {
        lemma_skip_spaces_extended(s, r, i + 1);
    }
    assert((s + r)[i] == s[i]);
}

proof fn lemma_numeral_end_extended(s: Seq<char>, r: Seq<char>, i: int)
    requires
        0 <= i <= s.len(),
        numeral_end(s, i) < s.len(),
    ensures
        numeral_end(s + r, i) == numeral_end(s, i),
    decreases s.len() - i,
{
    if is_numeral_char(s[i]) {
        lemma_numeral_end_extended(s, r, i + 1);
    }
    assert((s + r)[i] == s[i]);
}

/// A scan that a bad character stops reads nothing past that character, so
/// characters appended to the text do not change it.
pub proof fn lemma_tokens_from_extended(s: Seq<char>, r: Seq<char>, i: int)
    requires
        0 <= i <= s.len(),
        tokens_from(s, i).1 is Some,
    ensures
        tokens_from(s + r, i) == tokens_from(s, i),
    decreases s.len() - i,
{
    let j = skip_spaces(s, i);
    lemma_skip_spaces(s, i);
    lemma_token_end(s, j);
    if j == s.len() {
        assert(classify(s, j) == Ok::<Lexeme, LexerError>(Lexeme::End));
    } else {
        lemma_skip_spaces_extended(s, r, i);
        assert((s + r)[j] == s[j]);
        let e = token_end(s, j);
        if is_digit(s[j]) {
            lemma_numeral_end(s, j);
            if numeral_end(s, j) == s.len() {
                lemma_skip_spaces(s, e);
                assert(skip_spaces(s, e) == e);
                assert(tokens_from(s, e).1 is None);
            } else {
                lemma_numeral_end_extended(s, r, j);
                assert((s + r).subrange(j, e) =~= s.subrange(j, e));
            }
        }
        assert(classify(s + r, j) == classify(s, j));
        assert(token_end(s + r, j) == e);
        if classify(s, j) is Ok {
            lemma_tokens_from_extended(s, r, e);
        }
    }
}

/// A cursor over the characters of a text, which hands out one token at a time.
pub struct Lexer {
    position: usize,
    ch: char,
    input: Vec<char>,
}

impl View for Lexer {
    /// The characters of the text and the cursor's position in them.
    type V = (Seq<char>, int);

    closed spec fn view(&self) -> (Seq<char>, int) {
        (self.input@, self.position as int)
    }
}

impl Lexer {
    /// The cursor stands within the text, on the character it reports (`'\0'` at
    /// the end).
    pub closed spec fn wf(&self) -> bool {
        &&& self.position <= self.input.len()
        &&& self.ch == char_at(self.input@, self.position as int)
    }

    /// A well-formed cursor stands within its text.
    pub proof fn lemma_within(&self)
        requires
            self.wf(),
        ensures
            0 <= self@.1 <= self@.0.len(),
    {
    }

    pub fn from(input: &str) -> (r: Self)
        ensures
            r.wf(),
            r@ == (input@, 0int),
    {
        let n = input.unicode_len();
        let mut chars: Vec<char> = Vec::new();
        let mut i: usize = 0;
        while i < n
            invariant
                n == input@.len(),
                i <= n,
                chars@ == input@.subrange(0, i as int),
            decreases n - i,
        {
            chars.push(input.get_char(i));
            i = i + 1;
            proof {
                assert(chars@ =~= input@.subrange(0, i as int));
            }
        }
        proof {
            assert(chars@ =~= input@);
        }
        let ch: char = if chars.len() > 0 {
            chars[0]
        } else {
            '\0'
        };
        Self { position: 0, ch, input: chars }
    }

    /// Moves the cursor one character on, and no further than the end of the text.
    pub fn read(&mut self)
        requires
            old(self).wf(),
        ensures
            final(self).wf(),
            final(self)@.0 == old(self)@.0,
            final(self)@.1 == if old(self)@.1 < old(self)@.0.len() {
                old(self)@.1 + 1
            } else {
                old(self)@.1
            },
    {
        if self.position < self.input.len() {
            self.position = self.position + 1;
        }
        if self.position < self.input.len() {
            self.ch = self.input[self.position];
        } else {
            self.ch = '\0';
        }
    }

    fn skip_whitespace(&mut self)
        requires
            old(self).wf(),
        ensures
            final(self).wf(),
            final(self)@.0 == old(self)@.0,
            final(self)@.1 == skip_spaces(old(self)@.0, old(self)@.1),
    {
        while self.ch == ' ' || self.ch == '\t' || self.ch == '\n' || self.ch == '\x0C'
            || self.ch == '\r'
            invariant
                self.wf(),
                self@.0 == old(self)@.0,
                skip_spaces(self@.0, self@.1) == skip_spaces(old(self)@.0, old(self)@.1),
            decreases self@.0.len() - self@.1,
        {
            self.read();
        }
    }

    fn read_number(&mut self) -> (r: Vec<u8>)
        requires
            old(self).wf(),
        ensures
            final(self).wf(),
            final(self)@.0 == old(self)@.0,
            final(self)@.1 == numeral_end(old(self)@.0, old(self)@.1),
            r@ == ascii_bytes(old(self)@.0.subrange(old(self)@.1, final(self)@.1)),
    {
        let pos = self.position;
        while ('0' <= self.ch && self.ch <= '9') || self.ch == '.'
            invariant
                self.wf(),
                self@.0 == old(self)@.0,
                pos == old(self)@.1,
                pos <= self.position,
                numeral_end(self@.0, self@.1) == numeral_end(old(self)@.0, old(self)@.1),
            decreases self@.0.len() - self@.1,
        {
            self.read();
        }
        let mut numeral: Vec<u8> = Vec::new();
        let mut k: usize = pos;
        while k < self.position
            invariant
                self.wf(),
                pos <= k <= self.position,
                numeral@ == ascii_bytes(self.input@.subrange(pos as int, k as int)),
            decreases self.position - k,
        {
            numeral.push(self.input[k] as u8);
            k = k + 1;
            proof {
                assert(numeral@ =~= ascii_bytes(self.input@.subrange(pos as int, k as int)));
            }
        }
        numeral
    }

    /// Skips whitespace and hands out the token that follows it.
    pub fn get_token(&mut self) -> (r: Result<Token, LexerError>)
        requires
            old(self).wf(),
        ensures
            final(self).wf(),
            final(self)@.0 == old(self)@.0,
            final(self)@.1 == token_end(old(self)@.0, skip_spaces(old(self)@.0, old(self)@.1)),
            match r {
                Ok(t) => classify(old(self)@.0, skip_spaces(old(self)@.0, old(self)@.1)) == Ok::<
                    Lexeme,
                    LexerError,
                >(t@),
                Err(e) => classify(old(self)@.0, skip_spaces(old(self)@.0, old(self)@.1)) == Err::<
                    Lexeme,
                    LexerError,
                >(e),
            },
    {
        self.skip_whitespace();
        if self.position >= self.input.len() {
            return Ok(Token::EOF);
        }
        let c = self.ch;
        if '0' <= c && c <= '9' {
            return Ok(Token::Number(self.read_number()));
        }
        let result = if c == '+' {
            Ok(Token::Operator(Operator::ADD))
        } else if c == '-' {
            Ok(Token::Operator(Operator::SUB))
        } else if c == '*' {
            Ok(Token::Operator(Operator::MULT))
        } else if c == '/' {
            Ok(Token::Operator(Operator::DIV))
        } else if c == '(' {
            Ok(Token::LPAREN)
        } else if c == ')' {
            Ok(Token::RPAREN)
        } else {
            Err(LexerError::BadToken(c))
        };
        self.read();
        result
    }
}

} // verus!
