//! A very simple tokenizer that splits a byte slice into tokens:
//! * `Token::EOF`    - end of the input reached, or the state right after
//!   `Tokenizer::new` before anything has been processed
//! * `Token::NUMBER` - a run of digits, read as a base-10 number
//! * `Token::STRING` - either a run of alphanumeric bytes starting with a
//!   letter, or anything enclosed in quotation marks; quoted strings may span
//!   lines and hold any byte except the quotation mark, with no escapes
//! * `Token::CHAR`   - any other byte
//!
//! `#` begins a comment that runs through the end of the line.
//!
//! The whole scan is specified by `spec_scan`, a function of the input bytes
//! and the cursor; `Tokenizer::next` is proved to follow it exactly.
use vstd::prelude::*;
use vstd::string::StringSliceAdditionalSpecFns;
use crate::text::{
    all_digits, copy_range, dec_bytes, dec_u32, digits_value, is_alnum, is_alnum_byte, is_digit,
    is_digit_byte, is_space, is_space_byte, bytes_eq, parse_num, str_vec,
};

verus! {

pub enum Token {
    EOF,
    NUMBER(i32),
    STRING(Vec<u8>),
    CHAR(u8),
}

/// The mathematical shape of a token. `LEXERR` never stands for a token a
/// caller can hold: it marks the point of a scan failure in a token stream.
pub enum TokenView {
    EOF,
    NUMBER(i32),
    STRING(Seq<u8>),
    CHAR(u8),
    LEXERR,
}

impl View for Token {
    type V = TokenView;

    open spec fn view(&self) -> TokenView {
        match self {
            Token::EOF => TokenView::EOF,
            Token::NUMBER(n) => TokenView::NUMBER(*n),
            Token::STRING(s) => TokenView::STRING(s@),
            Token::CHAR(c) => TokenView::CHAR(*c),
        }
    }
}

/// End of the maximal alphanumeric run that starts at `pos`.
pub open spec fn run_end(input: Seq<u8>, pos: nat) -> nat
    decreases input.len() - pos,
{
    if pos >= input.len() {
        pos
    } else if is_alnum(input[pos as int]) {
        run_end(input, pos + 1)
    } else {
        pos
    }
}

pub proof fn lemma_run_end(input: Seq<u8>, pos: nat)
    requires
        pos <= input.len(),
    ensures
        pos <= run_end(input, pos) <= input.len(),
        forall|j: int| pos <= j < run_end(input, pos) ==> is_alnum(#[trigger] input[j]),
    decreases input.len() - pos,
{
    if pos < input.len() && is_alnum(input[pos as int]) {
        lemma_run_end(input, pos + 1);
    }
}

/// Characterizes `run_end` by the first non-alphanumeric position.
pub proof fn lemma_run_end_at(input: Seq<u8>, pos: nat, k: nat)
    requires
        pos <= k <= input.len(),
        forall|j: int| pos <= j < k ==> is_alnum(#[trigger] input[j]),
        k < input.len() ==> !is_alnum(input[k as int]),
    ensures
        run_end(input, pos) == k,
    decreases input.len() - pos,
{
    if pos < input.len() && is_alnum(input[pos as int]) {
        lemma_run_end_at(input, pos + 1, k);
    }
}

/// Position of the next quotation mark at or after `pos`, if any.
pub open spec fn find_quote(input: Seq<u8>, pos: nat) -> Option<nat>
    decreases input.len() - pos,
{
    if pos >= input.len() {
        None
    } else if input[pos as int] == 0x22 {
        Some(pos)
    } else {
        find_quote(input, pos + 1)
    }
}

pub proof fn lemma_find_quote(input: Seq<u8>, pos: nat)
    ensures
        match find_quote(input, pos) {
            Some(q) => pos <= q < input.len() && input[q as int] == 0x22,
            None => true,
        },
    decreases input.len() - pos,
{
    if pos < input.len() && input[pos as int] != 0x22 {
        lemma_find_quote(input, pos + 1);
    }
}

/// Characterizes `find_quote` by the first quotation mark.
pub proof fn lemma_find_quote_at(input: Seq<u8>, pos: nat, k: nat)
    requires
        pos <= k <= input.len(),
        forall|j: int| pos <= j < k ==> #[trigger] input[j] != 0x22,
        k < input.len() ==> input[k as int] == 0x22,
    ensures
        find_quote(input, pos) == if k < input.len() {
            Some(k)
        } else {
            None::<nat>
        },
    decreases input.len() - pos,
{
    if pos < input.len() && input[pos as int] != 0x22 {
        lemma_find_quote_at(input, pos + 1, k);
    }
}

/// One step of the scan: skipping whitespace and comments, the next token and
/// the cursor after it, or `None` when the input ends inside a comment or a
/// quoted string.
pub open spec fn spec_scan(input: Seq<u8>, pos: nat) -> Option<(TokenView, nat)>
    decreases input.len() - pos,
{
    if pos >= input.len() {
        Some((TokenView::EOF, pos))
    } else {
        let c = input[pos as int];
        if is_space(c) {
            spec_scan(input, pos + 1)
        } else if c == 0x23 {
            spec_scan_comment(input, pos + 1)
        } else if is_alnum(c) {
            let e = run_end(input, pos + 1);
            let w = input.subrange(pos as int, e as int);
            if is_digit(c) && all_digits(w) && digits_value(w) <= i32::MAX as int {
                Some((TokenView::NUMBER(digits_value(w) as i32), e))
            } else {
                Some((TokenView::STRING(w), e))
            }
        } else if c == 0x22 {
            match find_quote(input, pos + 1) {
                Some(q) => Some((TokenView::STRING(input.subrange(pos as int + 1, q as int)), q + 1)),
                None => None,
            }
        } else {
            Some((TokenView::CHAR(c), pos + 1))
        }
    }
}

/// The scan inside a comment: through the next newline, then on as usual.
pub open spec fn spec_scan_comment(input: Seq<u8>, pos: nat) -> Option<(TokenView, nat)>
    decreases input.len() - pos,
{
    if pos >= input.len() {
        None
    } else if input[pos as int] == 0x0a {
        spec_scan(input, pos + 1)
    } else {
        spec_scan_comment(input, pos + 1)
    }
}

/// A successful scan stays inside the input, moves forward for every token
/// but `EOF`, and yields `EOF` only at the very end.
pub proof fn lemma_scan_bounds(input: Seq<u8>, pos: nat)
    ensures
        match spec_scan(input, pos) {
            Some((t, p)) => pos <= p && t != TokenView::LEXERR && (t != TokenView::EOF ==> pos < p
                <= input.len()) && (t == TokenView::EOF ==> p >= input.len()),
            None => true,
        },
    decreases input.len() - pos,
{
    if pos < input.len() {
        let c = input[pos as int];
        if is_space(c) {
            lemma_scan_bounds(input, pos + 1);
        } else if c == 0x23 {
            lemma_scan_comment_bounds(input, pos + 1);
        } else if is_alnum(c) {
            lemma_run_end(input, pos + 1);
        } else if c == 0x22 {
            lemma_find_quote(input, pos + 1);
        }
    }
}

pub proof fn lemma_scan_comment_bounds(input: Seq<u8>, pos: nat)
    ensures
        match spec_scan_comment(input, pos) {
            Some((t, p)) => pos <= p && t != TokenView::LEXERR && (t != TokenView::EOF ==> pos < p
                <= input.len()) && (t == TokenView::EOF ==> p >= input.len()),
            None => true,
        },
    decreases input.len() - pos,
{
    if pos < input.len() {
        if input[pos as int] == 0x0a {
            lemma_scan_bounds(input, pos + 1);
        } else {
            lemma_scan_comment_bounds(input, pos + 1);
        }
    }
}

/// The stream of tokens from `pos` on: it ends with `EOF`, or with `LEXERR`
/// at the point where scanning fails.
pub open spec fn spec_tokens(input: Seq<u8>, pos: nat) -> Seq<TokenView>
    decreases input.len() - pos,
{
    match spec_scan(input, pos) {
        None => seq![TokenView::LEXERR],
        Some((t, p)) => if t == TokenView::EOF {
            seq![TokenView::EOF]
        } else {
            proof {
                lemma_scan_bounds(input, pos);
            }
            seq![t] + spec_tokens(input, p)
        },
    }
}

/// A quoted string left unterminated at the end of the input fails the
/// scan: there is no token to hand out, only the unexpected-end condition.
pub proof fn lemma_unterminated_quote(input: Seq<u8>, pos: nat)
    requires
        pos < input.len(),
        input[pos as int] == 0x22,
        forall|j: int| pos < j < input.len() ==> #[trigger] input[j] != 0x22,
    ensures
        spec_scan(input, pos) is None,
{
    lemma_find_quote_at(input, pos + 1, input.len());
}

/// An error when something is read from the tokenizer, but there is nothing
/// more to read.
pub struct UnexpectedEndError;

/// The preview of a token kept in diagnostics: strings are cut to their
/// first seven bytes followed by "...".
pub open spec fn preview(t: TokenView) -> TokenView {
    match t {
        TokenView::STRING(s) => if s.len() <= 10 {
            TokenView::STRING(s)
        } else {
            TokenView::STRING(s.take(7) + seq![0x2eu8, 0x2e, 0x2e])
        },
        _ => t,
    }
}

/// A self-contained token, suitable for diagnostics. When one is made from a
/// `Token`, string contents are truncated to a bounded preview.
pub enum PrintableToken {
    EOF,
    NUMBER(i32),
    STRING(Vec<u8>),
    CHAR(u8),
}

impl View for PrintableToken {
    type V = TokenView;

    open spec fn view(&self) -> TokenView {
        match self {
            PrintableToken::EOF => TokenView::EOF,
            PrintableToken::NUMBER(n) => TokenView::NUMBER(*n),
            PrintableToken::STRING(s) => TokenView::STRING(s@),
            PrintableToken::CHAR(c) => TokenView::CHAR(*c),
        }
    }
}

impl PrintableToken {
    pub fn of_token(t: &Token) -> (r: PrintableToken)
        ensures
            r@ == preview(t@),
    {
        match t {
            Token::EOF => PrintableToken::EOF,
            Token::NUMBER(n) => PrintableToken::NUMBER(*n),
            Token::STRING(s) => {
                if s.len() <= 10 {
                    let w = copy_range(s.as_slice(), 0, s.len());
                    proof {
                        assert(w@ =~= s@);
                    }
                    PrintableToken::STRING(w)
                } else {
                    let mut w = copy_range(s.as_slice(), 0, 7);
                    w.push(0x2e);
                    w.push(0x2e);
                    w.push(0x2e);
                    proof {
                        assert(s@.subrange(0, s@.len() as int) =~= s@);
                        assert(w@ =~= s@.take(7) + seq![0x2eu8, 0x2e, 0x2e]);
                    }
                    PrintableToken::STRING(w)
                }
            },
            Token::CHAR(c) => PrintableToken::CHAR(*c),
        }
    }
}

/// The view of an `ExpectedTokenError`: the previews of both sides.
pub struct ExpectedTokenView {
    pub expected: TokenView,
    pub found: TokenView,
}

/// An error when the current token is not the one that was expected.
pub struct ExpectedTokenError {
    pub expected: PrintableToken,
    pub found: PrintableToken,
}

impl View for ExpectedTokenError {
    type V = ExpectedTokenView;

    open spec fn view(&self) -> ExpectedTokenView {
        ExpectedTokenView { expected: self.expected@, found: self.found@ }
    }
}

impl ExpectedTokenError {
    pub fn new(s: &Token, t: &Token) -> (r: Self)
        ensures
            r@ == (ExpectedTokenView { expected: preview(s@), found: preview(t@) }),
    {
        ExpectedTokenError { expected: PrintableToken::of_token(s), found: PrintableToken::of_token(
            t,
        ) }
    }
}

/// The decimal rendering of a number, with a sign where it is negative.
pub open spec fn spec_dec_i32(n: int) -> Seq<u8> {
    if n >= 0 {
        dec_bytes(n)
    } else {
        seq![0x2du8] + dec_bytes(-n)
    }
}

/// The rendering of a token inside a diagnostic message.
pub open spec fn spec_render(t: TokenView) -> Seq<u8> {
    match t {
        TokenView::EOF => ("<EOF>").spec_bytes(),
        TokenView::NUMBER(n) => ("number <").spec_bytes() + spec_dec_i32(n as int) + (
        ">").spec_bytes(),
        TokenView::STRING(s) => seq![0x22u8] + s + seq![0x22u8],
        TokenView::CHAR(c) => seq![0x27u8, c, 0x27u8],
        TokenView::LEXERR => Seq::empty(),
    }
}

/// Renders a number in decimal, with a sign where it is negative.
fn dec_i32(n: i32) -> (v: Vec<u8>)
    ensures
        v@ == spec_dec_i32(n as int),
{
    if n >= 0 {
        dec_u32(n as u32)
    } else {
        let mut v: Vec<u8> = Vec::new();
        v.push(0x2d);
        let m: u32 = (-(n as i64)) as u32;
        proof {
            assert(m as int == -(n as int));
        }
        let mut d = dec_u32(m);
        v.append(&mut d);
        proof {
            assert(v@ =~= seq![0x2du8] + dec_bytes(-(n as int)));
        }
        v
    }
}

impl PrintableToken {
    /// The rendering of this token, as a diagnostic message shows it.
    pub fn render(&self) -> (v: Vec<u8>)
        ensures
            v@ == spec_render(self@),
    {
        match self {
            PrintableToken::EOF => str_vec("<EOF>"),
            PrintableToken::NUMBER(n) => {
                let mut v = str_vec("number <");
                let mut d = dec_i32(*n);
                v.append(&mut d);
                let mut g = str_vec(">");
                v.append(&mut g);
                proof {
                    assert(v@ =~= ("number <").spec_bytes() + spec_dec_i32(*n as int) + (
                    ">").spec_bytes());
                }
                v
            },
            PrintableToken::STRING(s) => {
                let mut v: Vec<u8> = Vec::new();
                v.push(0x22);
                let mut m = copy_range(s.as_slice(), 0, s.len());
                v.append(&mut m);
                v.push(0x22);
                proof {
                    assert(v@ =~= seq![0x22u8] + s@ + seq![0x22u8]);
                }
                v
            },
            PrintableToken::CHAR(c) => {
                let mut v: Vec<u8> = Vec::new();
                v.push(0x27);
                v.push(*c);
                v.push(0x27);
                proof {
                    assert(v@ =~= seq![0x27u8, *c, 0x27u8]);
                }
                v
            },
        }
    }
}

/// Equality of tokens, decided by their views.
fn token_eq(a: &Token, b: &Token) -> (r: bool)
    ensures
        r == (a@ == b@),
{
    match (a, b) {
        (Token::EOF, Token::EOF) => true,
        (Token::NUMBER(x), Token::NUMBER(y)) => x == y,
        (Token::STRING(x), Token::STRING(y)) => bytes_eq(x.as_slice(), y.as_slice()),
        (Token::CHAR(x), Token::CHAR(y)) => x == y,
        _ => false,
    }
}

/// The scanner: an immutable view of the input bytes, the cursor, and the
/// current token. The fields are public so that contracts can speak of them.
pub struct Tokenizer<'a> {
    pub input: &'a [u8],
    /// The current token; a string token copies its bytes out of the input.
    pub t: Token,
    pub index: usize,
}

impl<'a> Tokenizer<'a> {
    pub open spec fn wf(&self) -> bool {
        self.index <= self.input@.len()
    }

    pub fn new(input: &'a [u8]) -> (r: Tokenizer<'a>)
        ensures
            r.input@ == input@,
            r.index == 0,
            r.t@ == TokenView::EOF,
            r.wf(),
    {
        Tokenizer { input, t: Token::EOF, index: 0 }
    }

    /// Advances to the next token if the current token equals the argument,
    /// or returns an error without advancing.
    pub fn eat(&mut self, t: &Token) -> (r: Result<(), ExpectedTokenError>)
        requires
            old(self).wf(),
        ensures
            final(self).wf(),
            final(self).input@ == old(self).input@,
            if old(self).t@ != t@ {
                r matches Err(e) && e@ == (ExpectedTokenView {
                    expected: preview(t@),
                    found: preview(old(self).t@),
                }) && *final(self) == *old(self)
            } else {
                match spec_scan(old(self).input@, old(self).index as nat) {
                    Some((tok, p)) => r is Ok && final(self).t@ == tok && final(self).index == p
                        && final(self).index >= old(self).index && (tok != TokenView::EOF
                        ==> final(self).index > old(self).index),
                    None => r matches Err(e) && e@ == (ExpectedTokenView {
                        expected: preview(t@),
                        found: TokenView::EOF,
                    }) && final(self).index >= old(self).index,
                }
            },
    {
        if token_eq(&self.t, t) {
            match self.next() {
                Ok(()) => Ok(()),
                Err(UnexpectedEndError) => Err(ExpectedTokenError::new(t, &Token::EOF)),
            }
        } else {
            Err(ExpectedTokenError::new(t, &self.t))
        }
    }

    /// Puts the next token into `self.t`, exactly as `spec_scan` says.
    pub fn next(&mut self) -> (r: Result<(), UnexpectedEndError>)
        requires
            old(self).wf(),
        ensures
            final(self).wf(),
            final(self).input@ == old(self).input@,
            match spec_scan(old(self).input@, old(self).index as nat) {
                Some((tok, p)) => r is Ok && final(self).t@ == tok && final(self).index == p
                    && final(self).index >= old(self).index && (tok != TokenView::EOF
                    ==> final(self).index > old(self).index),
                None => r is Err && final(self).t == old(self).t && final(self).index
                    >= old(self).index,
            },
    {
        loop
            invariant
                self.wf(),
                self.input@ == old(self).input@,
                self.t == old(self).t,
                self.index >= old(self).index,
                spec_scan(self.input@, self.index as nat) == spec_scan(
                    old(self).input@,
                    old(self).index as nat,
                ),
            decreases self.input@.len() - self.index,
        {
            if self.index >= self.input.len() {
                self.t = Token::EOF;
                return Ok(());
            }
            let c = self.input[self.index];
            let ghost i0 = self.index as nat;
            self.index = self.index + 1;
            if is_space_byte(c) {
                // skip whitespace; the scan is unchanged
            } else if c == 0x23 {
                // skip a comment (through the end of the line)
                loop
                    invariant_except_break
                        spec_scan_comment(self.input@, self.index as nat) == spec_scan(
                            old(self).input@,
                            old(self).index as nat,
                        ),
                    invariant
                        self.wf(),
                        self.input@ == old(self).input@,
                        self.t == old(self).t,
                        self.index > i0,
                        self.index >= old(self).index,
                    ensures
                        self.wf(),
                        self.input@ == old(self).input@,
                        self.t == old(self).t,
                        self.index > i0,
                        self.index >= old(self).index,
                        spec_scan(self.input@, self.index as nat) == spec_scan(
                            old(self).input@,
                            old(self).index as nat,
                        ),
                    decreases self.input@.len() - self.index,
                {
                    if self.index >= self.input.len() {
                        return Err(UnexpectedEndError);
                    }
                    let c2 = self.input[self.index];
                    self.index = self.index + 1;
                    if c2 == 0x0a {
                        break ;
                    }
                }
            } else if is_alnum_byte(c) {
                // read a word or number: a maximal alphanumeric run
                let word_start = self.index - 1;
                loop
                    invariant
                        self.wf(),
                        self.input@ == old(self).input@,
                        word_start + 1 <= self.index <= self.input@.len(),
                        forall|j: int|
                            word_start + 1 <= j < self.index ==> is_alnum(
                                #[trigger] self.input@[j],
                            ),
                    ensures
                        self.wf(),
                        self.input@ == old(self).input@,
                        word_start + 1 <= self.index <= self.input@.len(),
                        forall|j: int|
                            word_start + 1 <= j < self.index ==> is_alnum(
                                #[trigger] self.input@[j],
                            ),
                        self.index == self.input@.len() || !is_alnum(
                            self.input@[self.index as int],
                        ),
                    decreases self.input@.len() - self.index,
                {
                    if self.index >= self.input.len() {
                        break ;
                    }
                    if !is_alnum_byte(self.input[self.index]) {
                        break ;
                    }
                    self.index = self.index + 1;
                }
                proof {
                    lemma_run_end_at(
                        self.input@,
                        (word_start + 1) as nat,
                        self.index as nat,
                    );
                }
                let w = copy_range(self.input, word_start, self.index);
                if is_digit_byte(c) {
                    match parse_num(w.as_slice()) {
                        Some(n) => {
                            self.t = Token::NUMBER(n);
                        },
                        None => {
                            self.t = Token::STRING(w);
                        },
                    }
                } else {
                    self.t = Token::STRING(w);
                }
                return Ok(());
            } else if c == 0x22 {
                // read a quoted string
                let string_start = self.index;
                loop
                    invariant_except_break
                        forall|j: int|
                            string_start <= j < self.index ==> #[trigger] self.input@[j] != 0x22,
                    invariant
                        self.wf(),
                        self.input@ == old(self).input@,
                        self.t == old(self).t,
                        string_start <= self.index <= self.input@.len(),
                        string_start == i0 + 1,
                        i0 < old(self).input@.len(),
                        old(self).input@[i0 as int] == 0x22,
                        !is_space(0x22) && !is_alnum(0x22) && 0x22 != 0x23,
                        spec_scan(old(self).input@, i0) == spec_scan(
                            old(self).input@,
                            old(self).index as nat,
                        ),
                    ensures
                        self.wf(),
                        self.input@ == old(self).input@,
                        self.t == old(self).t,
                        string_start <= self.index - 1 < self.input@.len(),
                        self.input@[self.index - 1] == 0x22,
                        forall|j: int|
                            string_start <= j < self.index - 1 ==> #[trigger] self.input@[j]
                                != 0x22,
                    decreases self.input@.len() - self.index,
                {
                    if self.index >= self.input.len() {
                        proof {
                            lemma_find_quote_at(
                                self.input@,
                                string_start as nat,
                                self.index as nat,
                            );
                        }
                        return Err(UnexpectedEndError);
                    }
                    let c2 = self.input[self.index];
                    self.index = self.index + 1;
                    if c2 == 0x22 {
                        break ;
                    }
                }
                proof {
                    lemma_find_quote_at(
                        self.input@,
                        string_start as nat,
                        (self.index - 1) as nat,
                    );
                }
                // the closing quotation mark is excluded from the token
                let w = copy_range(self.input, string_start, self.index - 1);
                self.t = Token::STRING(w);
                return Ok(());
            } else {
                self.t = Token::CHAR(c);
                return Ok(());
            }
        }
    }
}

} // verus!
