use vstd::prelude::*;

use crate::strings::{chars_of, same_chars, string_of};
use crate::token::{Token, TokenType, TokenView, Value};

verus! {

broadcast use vstd::string::group_string_axioms;

/// The character at `i`, or the sentinel `'\0'` outside the text.
pub open spec fn char_at(input: Seq<char>, i: int) -> char {
    if 0 <= i < input.len() {
        input[i]
    } else {
        '\0'
    }
}

/// ASCII letters and the underscore.
pub open spec fn letter(c: char) -> bool {
    ('a' <= c && c <= 'z') || ('A' <= c && c <= 'Z') || c == '_'
}

/// ASCII decimal digits.
pub open spec fn digit(c: char) -> bool {
    '0' <= c && c <= '9'
}

/// The characters that separate tokens.
pub open spec fn white_space(c: char) -> bool {
    c == ' ' || c == '\t' || c == '\n' || c == '\r'
}

/// The first position at or after `i` that holds no white space.
pub open spec fn skip_ws(input: Seq<char>, i: nat) -> nat
    decreases input.len() - i,
{
    if i < input.len() && white_space(input[i as int]) {
        skip_ws(input, i + 1)
    } else {
        i
    }
}

/// The end of the run of letters that starts at `i`.
pub open spec fn letters_end(input: Seq<char>, i: nat) -> nat
    decreases input.len() - i,
{
    if i < input.len() && letter(input[i as int]) {
        letters_end(input, i + 1)
    } else {
        i
    }
}

/// The end of the run of digits that starts at `i`.
pub open spec fn digits_end(input: Seq<char>, i: nat) -> nat
    decreases input.len() - i,
{
    if i < input.len() && digit(input[i as int]) {
        digits_end(input, i + 1)
    } else {
        i
    }
}

/// The kind of a word: a keyword's own kind, else `Ident`.
pub open spec fn keyword_kind(w: Seq<char>) -> TokenType {
    if w == seq!['f', 'n'] {
        TokenType::Function
    } else if w == seq!['l', 'e', 't'] {
        TokenType::Let
    } else if w == seq!['t', 'r', 'u', 'e'] {
        TokenType::True
    } else if w == seq!['f', 'a', 'l', 's', 'e'] {
        TokenType::False
    } else if w == seq!['i', 'f'] {
        TokenType::If
    } else if w == seq!['e', 'l', 's', 'e'] {
        TokenType::Else
    } else if w == seq!['r', 'e', 't', 'u', 'r', 'n'] {
        TokenType::Return
    } else {
        TokenType::Ident
    }
}

/// The kind of a one-character operator or delimiter (other than `=` and `!`).
pub open spec fn single_kind(c: char) -> Option<TokenType> {
    if c == '+' {
        Some(TokenType::Plus)
    } else if c == '-' {
        Some(TokenType::Minus)
    } else if c == '*' {
        Some(TokenType::Asterisk)
    } else if c == '/' {
        Some(TokenType::Slash)
    } else if c == '<' {
        Some(TokenType::Lt)
    } else if c == '>' {
        Some(TokenType::Gt)
    } else if c == ';' {
        Some(TokenType::Semicolon)
    } else if c == ',' {
        Some(TokenType::Comma)
    } else if c == '(' {
        Some(TokenType::Lparen)
    } else if c == ')' {
        Some(TokenType::Rparen)
    } else if c == '{' {
        Some(TokenType::Lbrace)
    } else if c == '}' {
        Some(TokenType::Rbrace)
    } else {
        None
    }
}

/// The token that starts exactly at `p`, and the position just after it.
/// At the end of the text this is `Eof`, which consumes nothing.
pub open spec fn scan_at(input: Seq<char>, p: nat) -> (TokenView, nat) {
    let c = char_at(input, p as int);
    if p >= input.len() {
        ((TokenType::Eof, None), p)
    } else if c == '=' {
        if char_at(input, p + 1int) == '=' {
            ((TokenType::Eq, Some(seq!['=', '='])), p + 2)
        } else {
            ((TokenType::Assign, Some(seq!['='])), p + 1)
        }
    } else if c == '!' {
        if char_at(input, p + 1int) == '=' {
            ((TokenType::NotEq, Some(seq!['!', '='])), p + 2)
        } else {
            ((TokenType::Bang, Some(seq!['!'])), p + 1)
        }
    } else if single_kind(c) is Some {
        ((single_kind(c)->0, Some(seq![c])), p + 1)
    } else if letter(c) {
        let e = letters_end(input, p);
        ((keyword_kind(input.subrange(p as int, e as int)), Some(input.subrange(p as int, e as int))), e)
    } else if digit(c) {
        let e = digits_end(input, p);
        ((TokenType::Int, Some(input.subrange(p as int, e as int))), e)
    } else {
        ((TokenType::Illegal, Some(seq![c])), p + 1)
    }
}

/// The token that `next_token` returns from position `i`, white space skipped.
pub open spec fn lex_token(input: Seq<char>, i: nat) -> TokenView {
    scan_at(input, skip_ws(input, i)).0
}

/// Where `next_token` leaves the cursor from position `i`.
pub open spec fn lex_next(input: Seq<char>, i: nat) -> nat {
    scan_at(input, skip_ws(input, i)).1
}

/// A scanner over source text that hands out one token per call.
pub struct Lexer {
    input: Vec<char>,
    position: usize,
    ch: char,
}

impl Lexer {
    /// The source text.
    pub closed spec fn text(&self) -> Seq<char> {
        self.input@
    }

    /// The cursor: the position of the character under examination.
    pub closed spec fn pos(&self) -> nat {
        self.position as nat
    }

    /// The cursor lies within the text, or just past it, and `ch` is the character under it.
    pub closed spec fn wf(&self) -> bool {
        &&& self.position <= self.input.len()
        &&& self.ch == char_at(self.input@, self.position as int)
    }

    /// The cursor of a well-formed lexer lies within the text or just past it.
    pub proof fn lemma_pos_bound(&self)
        requires
            self.wf(),
        ensures
            self.pos() <= self.text().len(),
    {
    }

    /// A lexer at the start of `input`.
    pub fn new(input: String) -> (r: Lexer)
        ensures
            r.wf(),
            r.text() == input@,
            r.pos() == 0,
    {
        let chars = chars_of(input.as_str());
        let ch = if chars.len() > 0 {
            chars[0]
        } else {
            '\0'
        };
        Lexer { input: chars, position: 0, ch }
    }

    /// Moves the cursor one character on; at the end of the text it stays there.
    pub fn read_char(&mut self)
        requires
            old(self).wf(),
        ensures
            final(self).wf(),
            final(self).text() == old(self).text(),
            final(self).pos() == if old(self).pos() < old(self).text().len() {
                old(self).pos() + 1
            } else {
                old(self).pos()
            },
    {
        if self.position < self.input.len() {
            self.position = self.position + 1;
        }
        self.ch = if self.position < self.input.len() {
            self.input[self.position]
        } else {
            '\0'
        };
    }

    /// The character just after the cursor, or `'\0'` past the end.
    pub fn peek_char(&self) -> (r: char)
        requires
            self.wf(),
        ensures
            r == char_at(self.text(), self.pos() + 1int),
    {
        if self.input.len() - self.position > 1 {
            self.input[self.position + 1]
        } else {
            '\0'
        }
    }

    /// Moves the cursor past white space.
    pub fn skip_white_space(&mut self)
        requires
            old(self).wf(),
        ensures
            final(self).wf(),
            final(self).text() == old(self).text(),
            final(self).pos() == skip_ws(old(self).text(), old(self).pos()),
    {
        while self.ch == ' ' || self.ch == '\t' || self.ch == '\n' || self.ch == '\r'
            invariant
                self.wf(),
                self.text() == old(self).text(),
                skip_ws(self.text(), self.pos()) == skip_ws(old(self).text(), old(self).pos()),
            decreases self.text().len() - self.pos(),
        {
            self.read_char();
        }
    }

    /// Reads the run of letters under the cursor and moves past it.
    pub fn read_identifier(&mut self) -> (r: String)
        requires
            old(self).wf(),
        ensures
            final(self).wf(),
            final(self).text() == old(self).text(),
            final(self).pos() == letters_end(old(self).text(), old(self).pos()),
            r@ == old(self).text().subrange(old(self).pos() as int, final(self).pos() as int),
    {
        let start = self.position;
        while is_letter(self.ch)
            invariant
                self.wf(),
                self.text() == old(self).text(),
                start <= self.pos(),
                letters_end(self.text(), self.pos()) == letters_end(old(self).text(), start as nat),
            decreases self.text().len() - self.pos(),
        {
            self.read_char();
        }
        string_of(&self.input, start, self.position)
    }

    /// Reads the run of digits under the cursor and moves past it.
    pub fn read_number(&mut self) -> (r: String)
        requires
            old(self).wf(),
        ensures
            final(self).wf(),
            final(self).text() == old(self).text(),
            final(self).pos() == digits_end(old(self).text(), old(self).pos()),
            r@ == old(self).text().subrange(old(self).pos() as int, final(self).pos() as int),
    {
        let start = self.position;
        while is_digit(self.ch)
            invariant
                self.wf(),
                self.text() == old(self).text(),
                start <= self.pos(),
                digits_end(self.text(), self.pos()) == digits_end(old(self).text(), start as nat),
            decreases self.text().len() - self.pos(),
        {
            self.read_char();
        }
        string_of(&self.input, start, self.position)
    }

    /// Reads the token that starts under the cursor, `s`, and moves past it.
    pub fn get_token(&mut self, s: char) -> (r: Token)
        requires
            old(self).wf(),
            s == char_at(old(self).text(), old(self).pos() as int),
        ensures
            final(self).wf(),
            final(self).text() == old(self).text(),
            (r@, final(self).pos()) == scan_at(old(self).text(), old(self).pos()),
    {
        if self.position >= self.input.len() {
            return Token { token_type: TokenType::Eof, value: None };
        }
        let token = if s == '=' {
            if self.peek_char() == '=' {
                self.read_char();
                text_token(TokenType::Eq, '=', Some('='))
            } else {
                text_token(TokenType::Assign, '=', None)
            }
        } else if s == '!' {
            if self.peek_char() == '=' {
                self.read_char();
                text_token(TokenType::NotEq, '!', Some('='))
            } else {
                text_token(TokenType::Bang, '!', None)
            }
        } else if s == '+' {
            text_token(TokenType::Plus, s, None)
        } else if s == '-' {
            text_token(TokenType::Minus, s, None)
        } else if s == '*' {
            text_token(TokenType::Asterisk, s, None)
        } else if s == '/' {
            text_token(TokenType::Slash, s, None)
        } else if s == '<' {
            text_token(TokenType::Lt, s, None)
        } else if s == '>' {
            text_token(TokenType::Gt, s, None)
        } else if s == ';' {
            text_token(TokenType::Semicolon, s, None)
        } else if s == ',' {
            text_token(TokenType::Comma, s, None)
        } else if s == '(' {
            text_token(TokenType::Lparen, s, None)
        } else if s == ')' {
            text_token(TokenType::Rparen, s, None)
        } else if s == '{' {
            text_token(TokenType::Lbrace, s, None)
        } else if s == '}' {
            text_token(TokenType::Rbrace, s, None)
        } else if is_letter(s) {
            let identifier = self.read_identifier();
            let kind = self.lookup_ident(identifier.as_str());
            return Token { token_type: kind, value: Some(Value::Str(identifier)) };
        } else if is_digit(s) {
            let number = self.read_number();
            return Token { token_type: TokenType::Int, value: Some(Value::Str(number)) };
        } else {
            text_token(TokenType::Illegal, s, None)
        };
        self.read_char();
        token
    }

    /// Like `next_token`, and also gives the position where the token starts.
    pub fn next_located_token(&mut self) -> (r: (Token, usize))
        requires
            old(self).wf(),
        ensures
            final(self).wf(),
            final(self).text() == old(self).text(),
            r.0@ == lex_token(old(self).text(), old(self).pos()),
            r.1 as nat == skip_ws(old(self).text(), old(self).pos()),
            final(self).pos() == lex_next(old(self).text(), old(self).pos()),
    {
        self.skip_white_space();
        let start = self.position;
        let c = self.ch;
        let t = self.get_token(c);
        (t, start)
    }

    /// Skips white space, then reads the next token; at the end of the text this
    /// is `Eof`, again and again, with the cursor left where it is.
    pub fn next_token(&mut self) -> (r: Token)
        requires
            old(self).wf(),
        ensures
            final(self).wf(),
            final(self).text() == old(self).text(),
            r@ == lex_token(old(self).text(), old(self).pos()),
            final(self).pos() == lex_next(old(self).text(), old(self).pos()),
    {
        self.skip_white_space();
        let c = self.ch;
        self.get_token(c)
    }

    /// The kind of a word: the keyword's own kind, or `Ident`.
    pub fn lookup_ident(&self, s: &str) -> (r: TokenType)
        ensures
            r == keyword_kind(s@),
    {
        let w = chars_of(s);
        if same_chars(&w, &['f', 'n']) {
            TokenType::Function
        } else if same_chars(&w, &['l', 'e', 't']) {
            TokenType::Let
        } else if same_chars(&w, &['t', 'r', 'u', 'e']) {
            TokenType::True
        } else if same_chars(&w, &['f', 'a', 'l', 's', 'e']) {
            TokenType::False
        } else if same_chars(&w, &['i', 'f']) {
            TokenType::If
        } else if same_chars(&w, &['e', 'l', 's', 'e']) {
            TokenType::Else
        } else if same_chars(&w, &['r', 'e', 't', 'u', 'r', 'n']) {
            TokenType::Return
        } else {
            TokenType::Ident
        }
    }
}

/// A token of one or two given characters.
fn text_token(kind: TokenType, first: char, second: Option<char>) -> (r: Token)
    ensures
        r@ == (kind, Some(
            match second {
                Some(c) => seq![first, c],
                None => seq![first],
            },
        )),
{
    let mut text = String::new();
    text.push(first);
    match second {
        Some(c) => {
            text.push(c);
        },
        None => {},
    }
    assert(text@ =~= match second {
        Some(c) => seq![first, c],
        None => seq![first],
    });
    Token { token_type: kind, value: Some(Value::Str(text)) }
}

/// Whether `ch` is an ASCII letter or the underscore.
pub fn is_letter(ch: char) -> (r: bool)
    ensures
        r == letter(ch),
{
    ('a' <= ch && ch <= 'z') || ('A' <= ch && ch <= 'Z') || ch == '_'
}

/// Whether `ch` is an ASCII decimal digit.
pub fn is_digit(ch: char) -> (r: bool)
    ensures
        r == digit(ch),
{
    '0' <= ch && ch <= '9'
}

} // verus!

verus! {

/// The kind of every one-character operator or delimiter, `=` and `!` included.
pub open spec fn operator_kind(c: char) -> Option<TokenType> {
    if c == '=' {
        Some(TokenType::Assign)
    } else if c == '!' {
        Some(TokenType::Bang)
    } else {
        single_kind(c)
    }
}

/// A text made of one operator character lexes as exactly one token of that
/// operator's kind, carrying the character, followed by `Eof`.
pub proof fn lemma_single_operator(c: char)
    requires
        operator_kind(c) is Some,
    ensures
        lex_token(seq![c], 0) == (operator_kind(c)->0, Some(seq![c])),
        lex_token(seq![c], lex_next(seq![c], 0)) == (TokenType::Eof, None::<Seq<char>>),
{
    let s = seq![c];
    assert(skip_ws(s, 0) == 0);
    assert(lex_next(s, 0) == 1);
    assert(skip_ws(s, 1) == 1);
}

/// Once the text is used up, `next_token` yields `Eof` and leaves the cursor where it is,
/// so every later call yields `Eof` again.
pub proof fn lemma_eof_sticky(input: Seq<char>, i: nat)
    requires
        i <= input.len(),
        lex_token(input, i).0 == TokenType::Eof,
    ensures
        lex_next(input, i) == input.len(),
        lex_token(input, lex_next(input, i)) == (TokenType::Eof, None::<Seq<char>>),
        lex_next(input, lex_next(input, i)) == lex_next(input, i),
{
    lemma_skip_ws_bounds(input, i);
    lemma_skip_ws_bounds(input, input.len());
}

/// White space skipping never moves backwards nor past the end.
pub proof fn lemma_skip_ws_bounds(input: Seq<char>, i: nat)
    ensures
        i <= input.len() ==> i <= skip_ws(input, i) <= input.len(),
        i >= input.len() ==> skip_ws(input, i) == i,
    decreases input.len() - i,
{
    if i < input.len() && white_space(input[i as int]) {
        lemma_skip_ws_bounds(input, i + 1);
    }
}

} // verus!

verus! {

/// The literal that every token of kind `k` carries, for the kinds that have only one.
pub open spec fn fixed_literal(k: TokenType) -> Option<Seq<char>> {
    match k {
        TokenType::Assign => Some(seq!['=']),
        TokenType::Plus => Some(seq!['+']),
        TokenType::Minus => Some(seq!['-']),
        TokenType::Bang => Some(seq!['!']),
        TokenType::Asterisk => Some(seq!['*']),
        TokenType::Slash => Some(seq!['/']),
        TokenType::Eq => Some(seq!['=', '=']),
        TokenType::NotEq => Some(seq!['!', '=']),
        TokenType::Lt => Some(seq!['<']),
        TokenType::Gt => Some(seq!['>']),
        TokenType::Comma => Some(seq![',']),
        TokenType::Semicolon => Some(seq![';']),
        TokenType::Lparen => Some(seq!['(']),
        TokenType::Rparen => Some(seq![')']),
        TokenType::Lbrace => Some(seq!['{']),
        TokenType::Rbrace => Some(seq!['}']),
        TokenType::Function => Some(seq!['f', 'n']),
        TokenType::Let => Some(seq!['l', 'e', 't']),
        TokenType::True => Some(seq!['t', 'r', 'u', 'e']),
        TokenType::False => Some(seq!['f', 'a', 'l', 's', 'e']),
        TokenType::If => Some(seq!['i', 'f']),
        TokenType::Else => Some(seq!['e', 'l', 's', 'e']),
        TokenType::Return => Some(seq!['r', 'e', 't', 'u', 'r', 'n']),
        _ => None,
    }
}

/// A token of a kind with one spelling carries that spelling; every token but
/// `Eof` carries a literal.
pub proof fn lemma_token_literal(input: Seq<char>, i: nat)
    ensures
        fixed_literal(lex_token(input, i).0) is Some ==> lex_token(input, i).1 == fixed_literal(
            lex_token(input, i).0,
        ),
        lex_token(input, i).0 != TokenType::Eof ==> lex_token(input, i).1 is Some,
{
}

} // verus!
