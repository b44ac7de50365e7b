//! The tokenizer: character stream to token stream.
//!
//! Whitespace only separates tokens.  Tokens are identifiers, quoted
//! strings, integers, the reserved words of the language, and one-character
//! punctuation.  A `-` immediately followed by a digit starts a negative
//! integer; any other `-` is the `Minus` token.  Any character outside the
//! language is a lexical error.
//!
//! Identifiers and whitespace are drawn from the ASCII classes of
//! `chars`: a letter beyond ASCII is not an identifier character but an
//! `Unrecognized character` error.  Only quoted strings carry arbitrary
//! characters.

use vstd::prelude::*;
use crate::chars::{
    is_ws_char, is_alpha_char, is_digit_char, is_id_char, digit_val,
    ws_char, alpha_char, digit_char, id_char, str_chars, chars_to_string, push_char, str_eq,
};

verus! {

/// A token of the definition language.
#[derive(Debug)]
pub enum Token {
    Ident(String),
    QuotedString(String),
    Integer(i64),
    Root,
    Subtree,
    Selector,
    Sequence,
    Priority,
    Inverter,
    LeftBracket,
    RightBracket,
    Comma,
    Colon,
    LeftParenthesis,
    RightParenthesis,
    LeftArray,
    RightArray,
    Plus,
    Minus,
    Multiply,
    Divide,
}

/// The mathematical value of a token: strings become character sequences
/// and integers become unbounded integers.
pub enum TokenV {
    Ident(Seq<char>),
    QuotedString(Seq<char>),
    Integer(int),
    Root,
    Subtree,
    Selector,
    Sequence,
    Priority,
    Inverter,
    LeftBracket,
    RightBracket,
    Comma,
    Colon,
    LeftParenthesis,
    RightParenthesis,
    LeftArray,
    RightArray,
    Plus,
    Minus,
    Multiply,
    Divide,
}

impl View for Token {
    type V = TokenV;

    open spec fn view(&self) -> TokenV {
        match self {
            Token::Ident(s) => TokenV::Ident(s@),
            Token::QuotedString(s) => TokenV::QuotedString(s@),
            Token::Integer(n) => TokenV::Integer(*n as int),
            Token::Root => TokenV::Root,
            Token::Subtree => TokenV::Subtree,
            Token::Selector => TokenV::Selector,
            Token::Sequence => TokenV::Sequence,
            Token::Priority => TokenV::Priority,
            Token::Inverter => TokenV::Inverter,
            Token::LeftBracket => TokenV::LeftBracket,
            Token::RightBracket => TokenV::RightBracket,
            Token::Comma => TokenV::Comma,
            Token::Colon => TokenV::Colon,
            Token::LeftParenthesis => TokenV::LeftParenthesis,
            Token::RightParenthesis => TokenV::RightParenthesis,
            Token::LeftArray => TokenV::LeftArray,
            Token::RightArray => TokenV::RightArray,
            Token::Plus => TokenV::Plus,
            Token::Minus => TokenV::Minus,
            Token::Multiply => TokenV::Multiply,
            Token::Divide => TokenV::Divide,
        }
    }
}

impl DeepView for Token {
    type V = TokenV;

    open spec fn deep_view(&self) -> TokenV {
        self.view()
    }
}

/// A lexical error.
pub enum LexErr {
    /// A character that no token can start with.
    Unrecognized(char),
    /// The input ended inside a quoted string.
    UnfinishedString,
    /// The input ended inside an escape sequence of a quoted string.
    UnfinishedEscape,
    /// An integer literal whose magnitude does not fit a signed 64-bit value.
    IntOutOfRange,
}

/// The first position at or after `i` holding a non-whitespace character.
pub open spec fn skip_ws(s: Seq<char>, i: int) -> int
    decreases s.len() - i,
{
    if i < s.len() && is_ws_char(s[i]) {
        skip_ws(s, i + 1)
    } else {
        i
    }
}

/// The first position at or after `i` whose character cannot continue
/// an identifier.
pub open spec fn scan_id_end(s: Seq<char>, i: int) -> int
    decreases s.len() - i,
{
    if i < s.len() && is_id_char(s[i]) {
        scan_id_end(s, i + 1)
    } else {
        i
    }
}

/// The first position at or after `i` holding a non-digit character.
pub open spec fn scan_digit_end(s: Seq<char>, i: int) -> int
    decreases s.len() - i,
{
    if i < s.len() && is_digit_char(s[i]) {
        scan_digit_end(s, i + 1)
    } else {
        i
    }
}

/// The value of a sequence of decimal digits.
pub open spec fn digits_val(s: Seq<char>) -> int
    decreases s.len(),
{
    if s.len() == 0 {
        0
    } else {
        digits_val(s.drop_last()) * 10 + digit_val(s.last())
    }
}

/// The replacement for a character escaped with `\`.  Recognised escapes
/// are `\\`, `\n`, `\t` and `\"`; any other escaped character stands for
/// itself.
pub open spec fn escape_char(c: char) -> char {
    if c == 'n' {
        '\n'
    } else if c == 't' {
        '\t'
    } else {
        c
    }
}

/// The outcome of scanning a quoted string body from a position just
/// after the opening quote: the string's contents and the position just
/// after the closing quote, or a lexical error.
pub enum StrScan {
    Body(Seq<char>, int),
    Bad(LexErr),
}

/// Scans the body of a quoted string starting at `i` (just after the
/// opening quote).
pub open spec fn scan_string(s: Seq<char>, i: int) -> StrScan
    decreases s.len() - i,
{
    if i < 0 || i >= s.len() {
        StrScan::Bad(LexErr::UnfinishedString)
    } else if s[i] == '"' {
        StrScan::Body(Seq::empty(), i + 1)
    } else if s[i] == '\\' {
        if i + 1 >= s.len() {
            StrScan::Bad(LexErr::UnfinishedEscape)
        } else {
            match scan_string(s, i + 2) {
                StrScan::Body(rest, j) => StrScan::Body(seq![escape_char(s[i + 1])] + rest, j),
                fail => fail,
            }
        }
    } else {
        match scan_string(s, i + 1) {
            StrScan::Body(rest, j) => StrScan::Body(seq![s[i]] + rest, j),
            fail => fail,
        }
    }
}

/// Prepends already-scanned characters to the outcome of a string scan.
pub open spec fn prepend_scan(acc: Seq<char>, sc: StrScan) -> StrScan {
    match sc {
        StrScan::Body(rest, j) => StrScan::Body(acc + rest, j),
        bad => bad,
    }
}

/// The keyword token for a scanned word, if the word is reserved.
pub open spec fn keyword_of(w: Seq<char>) -> Option<TokenV> {
    if w == "tree"@ {
        Some(TokenV::Root)
    } else if w == "subtree"@ {
        Some(TokenV::Subtree)
    } else if w == "selector"@ {
        Some(TokenV::Selector)
    } else if w == "sequence"@ {
        Some(TokenV::Sequence)
    } else if w == "inverter"@ {
        Some(TokenV::Inverter)
    } else if w == "priority"@ {
        Some(TokenV::Priority)
    } else {
        None
    }
}

/// The outcome of one step of the tokenizer: the end of the input, a
/// lexical error, or a token together with the position just after it.
pub enum NextTok {
    End,
    Fail(LexErr),
    Tok(TokenV, int),
}

/// The single-character punctuation tokens.
pub open spec fn punct_token(c: char) -> Option<TokenV> {
    if c == '{' {
        Some(TokenV::LeftBracket)
    } else if c == '}' {
        Some(TokenV::RightBracket)
    } else if c == ',' {
        Some(TokenV::Comma)
    } else if c == ':' {
        Some(TokenV::Colon)
    } else if c == '(' {
        Some(TokenV::LeftParenthesis)
    } else if c == ')' {
        Some(TokenV::RightParenthesis)
    } else if c == '[' {
        Some(TokenV::LeftArray)
    } else if c == ']' {
        Some(TokenV::RightArray)
    } else if c == '+' {
        Some(TokenV::Plus)
    } else if c == '*' {
        Some(TokenV::Multiply)
    } else if c == '/' {
        Some(TokenV::Divide)
    } else {
        None
    }
}

/// The token starting at or after position `i`, skipping whitespace first.
pub open spec fn spec_next_token(s: Seq<char>, i: int) -> NextTok {
    let i0 = skip_ws(s, i);
    if i0 >= s.len() {
        NextTok::End
    } else {
        let c = s[i0];
        if punct_token(c) is Some {
            NextTok::Tok(punct_token(c)->Some_0, i0 + 1)
        } else if is_alpha_char(c) {
            let j = scan_id_end(s, i0);
            let w = s.subrange(i0, j);
            match keyword_of(w) {
                Some(t) => NextTok::Tok(t, j),
                None => NextTok::Tok(TokenV::Ident(w), j),
            }
        } else if c == '"' {
            match scan_string(s, i0 + 1) {
                StrScan::Body(body, j) => NextTok::Tok(TokenV::QuotedString(body), j),
                StrScan::Bad(e) => NextTok::Fail(e),
            }
        } else if is_digit_char(c) {
            let j = scan_digit_end(s, i0);
            let v = digits_val(s.subrange(i0, j));
            if v > i64::MAX {
                NextTok::Fail(LexErr::IntOutOfRange)
            } else {
                NextTok::Tok(TokenV::Integer(v), j)
            }
        } else if c == '-' {
            if i0 + 1 < s.len() && is_digit_char(s[i0 + 1]) {
                let j = scan_digit_end(s, i0 + 1);
                let v = digits_val(s.subrange(i0 + 1, j));
                if v > i64::MAX {
                    NextTok::Fail(LexErr::IntOutOfRange)
                } else {
                    NextTok::Tok(TokenV::Integer(-v), j)
                }
            } else {
                NextTok::Tok(TokenV::Minus, i0 + 1)
            }
        } else {
            NextTok::Fail(LexErr::Unrecognized(c))
        }
    }
}

/// The token sequence of the whole input from position `i` on.
pub open spec fn spec_tokenize(s: Seq<char>, i: int) -> Result<Seq<TokenV>, LexErr>
    decreases s.len() - i,
{
    match spec_next_token(s, i) {
        NextTok::End => Ok(Seq::empty()),
        NextTok::Fail(e) => Err(e),
        NextTok::Tok(t, j) => if i < j <= s.len() {
            match spec_tokenize(s, j) {
                Ok(rest) => Ok(seq![t] + rest),
                Err(e) => Err(e),
            }
        } else {
            // Unreachable: a token always advances the position.
            Ok(Seq::empty())
        },
    }
}

/// Prepends already-read tokens to the outcome of tokenizing the rest.
pub open spec fn prepend_tokens(
    acc: Seq<TokenV>,
    r: Result<Seq<TokenV>, LexErr>,
) -> Result<Seq<TokenV>, LexErr> {
    match r {
        Ok(rest) => Ok(acc + rest),
        Err(e) => Err(e),
    }
}

pub proof fn lemma_skip_ws_bounds(s: Seq<char>, i: int)
    requires
        0 <= i <= s.len(),
    ensures
        i <= skip_ws(s, i) <= s.len(),
        skip_ws(s, i) < s.len() ==> !is_ws_char(s[skip_ws(s, i)]),
        forall|k: int| i <= k < skip_ws(s, i) ==> is_ws_char(s[k]),
    decreases s.len() - i,
{
    if i < s.len() && is_ws_char(s[i]) {
        lemma_skip_ws_bounds(s, i + 1);
    }
}

pub proof fn lemma_scan_id_end_bounds(s: Seq<char>, i: int)
    requires
        0 <= i <= s.len(),
    ensures
        i <= scan_id_end(s, i) <= s.len(),
        scan_id_end(s, i) < s.len() ==> !is_id_char(s[scan_id_end(s, i)]),
        forall|k: int| i <= k < scan_id_end(s, i) ==> is_id_char(s[k]),
    decreases s.len() - i,
{
    if i < s.len() && is_id_char(s[i]) {
        lemma_scan_id_end_bounds(s, i + 1);
    }
}

pub proof fn lemma_scan_digit_end_bounds(s: Seq<char>, i: int)
    requires
        0 <= i <= s.len(),
    ensures
        i <= scan_digit_end(s, i) <= s.len(),
        scan_digit_end(s, i) < s.len() ==> !is_digit_char(s[scan_digit_end(s, i)]),
        forall|k: int| i <= k < scan_digit_end(s, i) ==> is_digit_char(s[k]),
    decreases s.len() - i,
{
    if i < s.len() && is_digit_char(s[i]) {
        lemma_scan_digit_end_bounds(s, i + 1);
    }
}

pub proof fn lemma_scan_string_bounds(s: Seq<char>, i: int)
    requires
        0 <= i <= s.len(),
    ensures
        scan_string(s, i) matches StrScan::Body(_, j) ==> i < j <= s.len(),
    decreases s.len() - i,
{
    if i < s.len() && s[i] != '"' {
        if s[i] == '\\' {
            if i + 2 <= s.len() {
                lemma_scan_string_bounds(s, i + 2);
            }
        } else {
            lemma_scan_string_bounds(s, i + 1);
        }
    }
}

/// A token always advances the position.
pub proof fn lemma_next_token_advances(s: Seq<char>, i: int)
    requires
        0 <= i <= s.len(),
    ensures
        spec_next_token(s, i) matches NextTok::Tok(_, j) ==> i < j <= s.len(),
{
    lemma_skip_ws_bounds(s, i);
    let i0 = skip_ws(s, i);
    if i0 < s.len() {
        lemma_scan_id_end_bounds(s, i0);
        lemma_scan_digit_end_bounds(s, i0);
        lemma_scan_string_bounds(s, i0 + 1);
        if i0 + 1 <= s.len() {
            lemma_scan_digit_end_bounds(s, i0 + 1);
        }
    }
}

/// The value of a digit sequence never shrinks as digits are appended.
pub proof fn lemma_digits_val_nonneg(s: Seq<char>)
    requires
        forall|k: int| 0 <= k < s.len() ==> is_digit_char(s[k]),
    ensures
        digits_val(s) >= 0,
    decreases s.len(),
{
    if s.len() > 0 {
        lemma_digits_val_nonneg(s.drop_last());
    }
}

/// A longer digit sequence has at least the value of its prefix.
pub proof fn lemma_digits_val_prefix(s: Seq<char>, n: int)
    requires
        forall|k: int| 0 <= k < s.len() ==> is_digit_char(s[k]),
        0 <= n <= s.len(),
    ensures
        digits_val(s) >= digits_val(s.subrange(0, n)),
    decreases s.len() - n,
{
    if n < s.len() {
        lemma_digits_val_prefix(s, n + 1);
        let sn = s.subrange(0, n);
        let sn1 = s.subrange(0, n + 1);
        assert(sn1.drop_last() =~= sn);
        assert(sn1.last() == s[n]);
        assert(forall|k: int| 0 <= k < sn.len() ==> is_digit_char(sn[k]));
        lemma_digits_val_nonneg(sn);
        assert(digits_val(sn1) == digits_val(sn) * 10 + digit_val(s[n]));
        assert(digit_val(s[n]) >= 0);
        assert(digits_val(sn) * 10 >= digits_val(sn));
    } else {
        assert(s.subrange(0, n) =~= s);
    }
}

/// The message for a lexical error.
pub open spec fn lex_err_msg(e: LexErr) -> Seq<char> {
    match e {
        LexErr::Unrecognized(c) => "Unrecognized character "@ + seq![c],
        LexErr::UnfinishedString => "Lexer error: unfinished quoted string"@,
        LexErr::UnfinishedEscape => "Lexer error: unfinished quoted string during escape sequence"@,
        LexErr::IntOutOfRange => "Lexer error: integer literal out of range"@,
    }
}

/// Renders a lexical error as its message.
pub fn lex_err_message(e: &LexErr) -> (r: String)
    ensures
        r@ == lex_err_msg(*e),
{
    match e {
        LexErr::Unrecognized(c) => {
            let mut m = String::from_str("Unrecognized character ");
            push_char(&mut m, *c);
            m
        }
        LexErr::UnfinishedString => String::from_str("Lexer error: unfinished quoted string"),
        LexErr::UnfinishedEscape => String::from_str(
            "Lexer error: unfinished quoted string during escape sequence",
        ),
        LexErr::IntOutOfRange => String::from_str("Lexer error: integer literal out of range"),
    }
}

/// The tokenizer over a character stream, with a current position.
pub struct Tokenizer {
    chars: Vec<char>,
    pos: usize,
}

impl Tokenizer {
    /// The character stream being tokenized.
    pub closed spec fn input(&self) -> Seq<char> {
        self.chars@
    }

    /// The current position in the stream.
    pub closed spec fn position(&self) -> int {
        self.pos as int
    }

    pub open spec fn wf(&self) -> bool {
        0 <= self.position() <= self.input().len()
    }

    pub fn new(input: &str) -> (t: Tokenizer)
        ensures
            t.input() == input@,
            t.position() == 0,
            t.wf(),
    {
        Tokenizer { chars: str_chars(input), pos: 0 }
    }

    fn skip_whitespace(&mut self)
        requires
            old(self).wf(),
        ensures
            final(self).wf(),
            final(self).input() == old(self).input(),
            final(self).position() == skip_ws(old(self).input(), old(self).position()),
    {
        let len = self.chars.len();
        while self.pos < len && ws_char(self.chars[self.pos])
            invariant
                len == self.chars@.len(),
                self.wf(),
                self.chars@ == old(self).input(),
                skip_ws(self.chars@, self.pos as int)
                    == skip_ws(old(self).input(), old(self).position()),
            decreases len - self.pos,
        {
            self.pos += 1;
        }
    }

    fn parse_word(&mut self) -> (r: Token)
        requires
            old(self).wf(),
            old(self).position() < old(self).input().len(),
            is_alpha_char(old(self).input()[old(self).position()]),
        ensures
            final(self).wf(),
            final(self).input() == old(self).input(),
            final(self).position() == scan_id_end(old(self).input(), old(self).position()),
            ({
                let w = old(self).input().subrange(
                    old(self).position(),
                    scan_id_end(old(self).input(), old(self).position()),
                );
                match keyword_of(w) {
                    Some(t) => r@ == t,
                    None => r@ == TokenV::Ident(w),
                }
            }),
    {
        let ghost s = self.chars@;
        let ghost start = self.pos as int;
        let len = self.chars.len();
        let mut word: Vec<char> = Vec::new();
        proof {
            lemma_scan_id_end_bounds(s, start);
        }
        while self.pos < len && id_char(self.chars[self.pos])
            invariant
                len == self.chars@.len(),
                self.wf(),
                self.chars@ == s,
                0 <= start <= self.pos as int <= s.len(),
                scan_id_end(s, self.pos as int) == scan_id_end(s, start),
                word@ == s.subrange(start, self.pos as int),
            decreases len - self.pos,
        {
            word.push(self.chars[self.pos]);
            self.pos += 1;
            proof {
                lemma_scan_id_end_bounds(s, self.pos as int);
                assert(word@ =~= s.subrange(start, self.pos as int));
            }
        }
        assert(self.pos as int == scan_id_end(s, start));
        let ghost w = s.subrange(start, scan_id_end(s, start));
        assert(word@ == w);
        let text = chars_to_string(&word);
        if str_eq(text.as_str(), "tree") {
            Token::Root
        } else if str_eq(text.as_str(), "subtree") {
            Token::Subtree
        } else if str_eq(text.as_str(), "selector") {
            Token::Selector
        } else if str_eq(text.as_str(), "sequence") {
            Token::Sequence
        } else if str_eq(text.as_str(), "inverter") {
            Token::Inverter
        } else if str_eq(text.as_str(), "priority") {
            Token::Priority
        } else {
            Token::Ident(text)
        }
    }

    fn parse_number(&mut self) -> (r: Result<i64, LexErr>)
        requires
            old(self).wf(),
            old(self).position() < old(self).input().len(),
            is_digit_char(old(self).input()[old(self).position()]),
        ensures
            final(self).wf(),
            final(self).input() == old(self).input(),
            final(self).position() == scan_digit_end(old(self).input(), old(self).position()),
            ({
                let v = digits_val(old(self).input().subrange(
                    old(self).position(),
                    scan_digit_end(old(self).input(), old(self).position()),
                ));
                if v <= i64::MAX {
                    r == Ok::<i64, LexErr>(v as i64)
                } else {
                    r == Err::<i64, LexErr>(LexErr::IntOutOfRange)
                }
            }),
            r matches Ok(v) ==> v >= 0,
    {
        let ghost s = self.chars@;
        let ghost start = self.pos as int;
        let ghost end = scan_digit_end(s, start);
        proof {
            lemma_scan_digit_end_bounds(s, start);
        }
        let ghost digits = s.subrange(start, end);
        assert(forall|k: int| 0 <= k < digits.len() ==> is_digit_char(digits[k]));
        let len = self.chars.len();
        let mut acc: i64 = 0;
        let mut overflow = false;
        while self.pos < len && digit_char(self.chars[self.pos])
            invariant
                len == self.chars@.len(),
                self.wf(),
                self.chars@ == s,
                0 <= start <= self.pos as int <= end <= s.len(),
                end == scan_digit_end(s, start),
                scan_digit_end(s, self.pos as int) == end,
                digits == s.subrange(start, end),
                forall|k: int| 0 <= k < digits.len() ==> is_digit_char(digits[k]),
                !overflow ==> acc as int == digits_val(s.subrange(start, self.pos as int)),
                !overflow ==> acc >= 0,
                overflow ==> digits_val(s.subrange(start, self.pos as int)) > i64::MAX,
            decreases len - self.pos,
        {
            let c = self.chars[self.pos];
            let ghost before = s.subrange(start, self.pos as int);
            let d: i64 = ((c as u32) - ('0' as u32)) as i64;
            assert(d as int == digit_val(c));
            assert(0 <= d <= 9);
            if !overflow {
                match acc.checked_mul(10) {
                    Some(t) => {
                        match t.checked_add(d) {
                            Some(n) => {
                                acc = n;
                            }
                            None => {
                                overflow = true;
                            }
                        }
                    }
                    None => {
                        overflow = true;
                    }
                }
            }
            self.pos += 1;
            proof {
                lemma_scan_digit_end_bounds(s, self.pos as int);
                let after = s.subrange(start, self.pos as int);
                assert(after.drop_last() =~= before);
                assert(after.last() == c);
                assert(digits_val(after) == digits_val(before) * 10 + digit_val(c));
                if !overflow {
                } else {
                    lemma_digits_val_nonneg(before);
                }
            }
        }
        assert(self.pos as int == end);
        assert(s.subrange(start, self.pos as int) == digits);
        if overflow {
            proof {
                lemma_digits_val_prefix(digits, digits.len() as int);
            }
            Err(LexErr::IntOutOfRange)
        } else {
            Ok(acc)
        }
    }

    fn parse_quoted_string(&mut self) -> (r: Result<Token, LexErr>)
        requires
            old(self).wf(),
        ensures
            final(self).wf(),
            final(self).input() == old(self).input(),
            final(self).position() >= old(self).position(),
            ({
                match scan_string(old(self).input(), old(self).position()) {
                    StrScan::Body(body, j) => r matches Ok(t) && t@ == TokenV::QuotedString(body)
                        && final(self).position() == j,
                    StrScan::Bad(e) => r == Err::<Token, LexErr>(e),
                }
            }),
    {
        let ghost s = self.chars@;
        let ghost start = self.pos as int;
        let len = self.chars.len();
        let mut body: Vec<char> = Vec::new();
        proof {
            match scan_string(s, start) {
                StrScan::Body(rest, j) => {
                    assert(body@ + rest =~= rest);
                }
                StrScan::Bad(_) => {}
            }
        }
        loop
            invariant
                len == self.chars@.len(),
                self.wf(),
                self.chars@ == s,
                s == old(self).input(),
                start == old(self).position(),
                0 <= start <= self.pos as int <= s.len(),
                prepend_scan(body@, scan_string(s, self.pos as int)) == scan_string(s, start),
            decreases len - self.pos,
        {
            if self.pos >= len {
                assert(scan_string(s, self.pos as int) == StrScan::Bad(LexErr::UnfinishedString));
                return Err(LexErr::UnfinishedString);
            }
            let c = self.chars[self.pos];
            if c == '"' {
                self.pos += 1;
                proof {
                    assert(scan_string(s, self.pos as int - 1)
                        == StrScan::Body(Seq::<char>::empty(), self.pos as int));
                    assert(body@ + Seq::<char>::empty() =~= body@);
                }
                let text = chars_to_string(&body);
                return Ok(Token::QuotedString(text));
            } else if c == '\\' {
                if self.pos + 1 >= len {
                    assert(scan_string(s, self.pos as int)
                        == StrScan::Bad(LexErr::UnfinishedEscape));
                    return Err(LexErr::UnfinishedEscape);
                }
                let e = self.chars[self.pos + 1];
                let replaced = escape(e);
                let ghost old_pos = self.pos as int;
                let ghost prev = body@;
                body.push(replaced);
                self.pos += 2;
                proof {
                    match scan_string(s, self.pos as int) {
                        StrScan::Body(rest, j) => {
                            assert(scan_string(s, old_pos)
                                == StrScan::Body(seq![escape_char(e)] + rest, j));
                            assert(prev + (seq![escape_char(e)] + rest) =~= body@ + rest);
                        }
                        StrScan::Bad(_) => {
                            assert(scan_string(s, old_pos) == scan_string(s, self.pos as int));
                        }
                    }
                }
            } else {
                let ghost old_pos = self.pos as int;
                let ghost prev = body@;
                body.push(c);
                self.pos += 1;
                proof {
                    match scan_string(s, self.pos as int) {
                        StrScan::Body(rest, j) => {
                            assert(scan_string(s, old_pos) == StrScan::Body(seq![c] + rest, j));
                            assert(prev + (seq![c] + rest) =~= body@ + rest);
                        }
                        StrScan::Bad(_) => {
                            assert(scan_string(s, old_pos) == scan_string(s, self.pos as int));
                        }
                    }
                }
            }
        }
    }


    /// Produces the next token: `None` at the end of the input, and an
    /// error message on a lexical error.
    pub fn next(&mut self) -> (r: Option<Result<Token, String>>)
        requires
            old(self).wf(),
        ensures
            final(self).wf(),
            final(self).input() == old(self).input(),
            ({
                match spec_next_token(old(self).input(), old(self).position()) {
                    NextTok::End => r is None,
                    NextTok::Fail(e) => r matches Some(res) && res matches Err(m)
                        && m@ == lex_err_msg(e),
                    NextTok::Tok(t, j) => r matches Some(res) && res matches Ok(tok)
                        && tok@ == t && final(self).position() == j,
                }
            }),
            final(self).position() >= old(self).position(),
            (spec_next_token(old(self).input(), old(self).position()) matches NextTok::Tok(_, j)
                ==> final(self).position() == j),
    {
        let ghost s = self.chars@;
        let ghost p0 = self.pos as int;
        proof {
            lemma_next_token_advances(s, p0);
        }
        self.skip_whitespace();
        proof {
            lemma_skip_ws_bounds(s, p0);
        }
        let len = self.chars.len();
        if self.pos >= len {
            return None;
        }
        let c = self.chars[self.pos];
        let token = if c == '{' {
            self.pos += 1;
            Token::LeftBracket
        } else if c == '}' {
            self.pos += 1;
            Token::RightBracket
        } else if c == ',' {
            self.pos += 1;
            Token::Comma
        } else if c == ':' {
            self.pos += 1;
            Token::Colon
        } else if c == '(' {
            self.pos += 1;
            Token::LeftParenthesis
        } else if c == ')' {
            self.pos += 1;
            Token::RightParenthesis
        } else if c == '[' {
            self.pos += 1;
            Token::LeftArray
        } else if c == ']' {
            self.pos += 1;
            Token::RightArray
        } else if c == '+' {
            self.pos += 1;
            Token::Plus
        } else if c == '*' {
            self.pos += 1;
            Token::Multiply
        } else if c == '/' {
            self.pos += 1;
            Token::Divide
        } else if alpha_char(c) {
            self.parse_word()
        } else if c == '"' {
            self.pos += 1;
            match self.parse_quoted_string() {
                Ok(t) => t,
                Err(e) => {
                    return Some(Err(lex_err_message(&e)));
                }
            }
        } else if digit_char(c) {
            proof {
                lemma_scan_digit_end_bounds(s, self.pos as int);
                let ds = s.subrange(self.pos as int, scan_digit_end(s, self.pos as int));
                assert(forall|k: int| 0 <= k < ds.len() ==> is_digit_char(ds[k]));
                lemma_digits_val_nonneg(ds);
            }
            match self.parse_number() {
                Ok(v) => {
                    assert(v as int == digits_val(
                        s.subrange(skip_ws(s, p0), scan_digit_end(s, skip_ws(s, p0))),
                    ));
                    Token::Integer(v)
                }
                Err(e) => {
                    return Some(Err(lex_err_message(&e)));
                }
            }
        } else if c == '-' {
            if self.pos + 1 < len && digit_char(self.chars[self.pos + 1]) {
                self.pos += 1;
                proof {
                    lemma_scan_digit_end_bounds(s, self.pos as int);
                    let ds = s.subrange(self.pos as int, scan_digit_end(s, self.pos as int));
                    assert(forall|k: int| 0 <= k < ds.len() ==> is_digit_char(ds[k]));
                    lemma_digits_val_nonneg(ds);
                }
                match self.parse_number() {
                    Ok(v) => {
                        assert(v as int == digits_val(
                            s.subrange(skip_ws(s, p0) + 1, scan_digit_end(s, skip_ws(s, p0) + 1)),
                        ));
                        assert((-v) as int == -(v as int));
                        Token::Integer(-v)
                    }
                    Err(e) => {
                        return Some(Err(lex_err_message(&e)));
                    }
                }
            } else {
                self.pos += 1;
                Token::Minus
            }
        } else {
            return Some(Err(lex_err_message(&LexErr::Unrecognized(c))));
        };
        Some(Ok(token))
    }
}

/// Replaces an escaped character by what it stands for.
fn escape(c: char) -> (r: char)
    ensures
        r == escape_char(c),
{
    if c == 'n' {
        '\n'
    } else if c == 't' {
        '\t'
    } else {
        c
    }
}

/// Tokenizes a whole input: the token sequence, or the message of the
/// first lexical error.
pub fn tokenize(input: &str) -> (r: Result<Vec<Token>, String>)
    ensures
        ({
            match spec_tokenize(input@, 0) {
                Ok(ts) => r matches Ok(v) && v.deep_view() == ts,
                Err(e) => r matches Err(m) && m@ == lex_err_msg(e),
            }
        }),
{
    let mut tok = Tokenizer::new(input);
    let ghost s = input@;
    let mut out: Vec<Token> = Vec::new();
    proof {
        match spec_tokenize(s, 0) {
            Ok(rest) => {
                assert(out.deep_view() + rest =~= rest);
            }
            Err(_) => {}
        }
    }
    loop
        invariant
            tok.wf(),
            tok.input() == s,
            s == input@,
            prepend_tokens(out.deep_view(), spec_tokenize(s, tok.position()))
                == spec_tokenize(s, 0),
        decreases s.len() - tok.position() + 1,
    {
        let ghost p = tok.position();
        proof {
            lemma_next_token_advances(s, p);
        }
        match tok.next() {
            None => {
                proof {
                    assert(spec_tokenize(s, p) == Ok::<Seq<TokenV>, LexErr>(Seq::<TokenV>::empty()));
                    assert(out.deep_view() + Seq::<TokenV>::empty() =~= out.deep_view());
                }
                return Ok(out);
            }
            Some(Err(m)) => {
                return Err(m);
            }
            Some(Ok(t)) => {
                let ghost tv = t@;
                let ghost prev = out.deep_view();
                out.push(t);
                proof {
                    assert(out.deep_view() =~= prev.push(tv));
                    match spec_tokenize(s, tok.position()) {
                        Ok(rest) => {
                            assert(spec_tokenize(s, p)
                                == Ok::<Seq<TokenV>, LexErr>(seq![tv] + rest));
                            assert(prev + (seq![tv] + rest) =~= out.deep_view() + rest);
                        }
                        Err(_) => {
                            assert(spec_tokenize(s, p) == spec_tokenize(s, tok.position()));
                        }
                    }
                }
            }
        }
    }
}

} // verus!
