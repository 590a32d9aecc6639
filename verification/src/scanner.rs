//! The scanner: a cursor over the source text that reads one token at a time.

use crate::lexis::{
    blank_end, char_at, coherent, is_alpha, is_digit, keyword_kind, lemma_blank_end_bounds,
    lemma_blank_end_stops, lemma_lex_advances, lemma_newlines_bound, lemma_run_in_bounds,
    lemma_run_members, lemma_run_stops_at, lemma_same_line, lemma_tokens_shape, lex_at, line_at,
    number_end, run_len, tokens_from, tokens_of, unexpected_message, CharClass,
};
use crate::token::{literal_fits, Token, TokenView};
use crate::tokentype::{Literal, TokenType};
use vstd::prelude::*;

verus! {

/// The views of a sequence of tokens, one for one.
pub open spec fn token_views(tokens: Seq<Token>) -> Seq<TokenView> {
    tokens.map_values(|t: Token| t@)
}

/// Whether `c` is a decimal digit.
pub fn digit(c: char) -> (yes: bool)
    ensures
        yes == is_digit(c),
{
    '0' <= c && c <= '9'
}

/// Whether `c` is a letter of the ASCII alphabet.
pub fn alphabetic(c: char) -> (yes: bool)
    ensures
        yes == is_alpha(c),
{
    ('a' <= c && c <= 'z') || ('A' <= c && c <= 'Z')
}

/// Whether two texts hold the same characters.
fn same_text(a: &str, b: &str) -> (same: bool)
    ensures
        same == (a@ == b@),
{
    let n = a.unicode_len();
    if n != b.unicode_len() {
        return false;
    }
    let mut i: usize = 0;
    while i < n
        invariant
            n == a@.len(),
            n == b@.len(),
            i <= n,
            forall|k: int| 0 <= k < i ==> a@[k] == b@[k],
        decreases n - i,
    {
        if a.get_char(i) != b.get_char(i) {
            return false;
        }
        i += 1;
    }
    proof {
        assert(a@ =~= b@);
    }
    true
}

/// Looks `word` up in the table of keywords.
pub fn keyword(word: &str) -> (kind: Option<TokenType>)
    ensures
        kind == keyword_kind(word@),
{
    if same_text(word, "and") {
        Some(TokenType::And)
    } else if same_text(word, "class") {
        Some(TokenType::Class)
    } else if same_text(word, "else") {
        Some(TokenType::Else)
    } else if same_text(word, "false") {
        Some(TokenType::False)
    } else if same_text(word, "fun") {
        Some(TokenType::Fun)
    } else if same_text(word, "for") {
        Some(TokenType::For)
    } else if same_text(word, "if") {
        Some(TokenType::If)
    } else if same_text(word, "nil") {
        Some(TokenType::Nil)
    } else if same_text(word, "or") {
        Some(TokenType::Or)
    } else if same_text(word, "print") {
        Some(TokenType::Print)
    } else if same_text(word, "return") {
        Some(TokenType::Return)
    } else if same_text(word, "super") {
        Some(TokenType::Super)
    } else if same_text(word, "this") {
        Some(TokenType::This)
    } else if same_text(word, "true") {
        Some(TokenType::True)
    } else if same_text(word, "var") {
        Some(TokenType::Var)
    } else if same_text(word, "while") {
        Some(TokenType::While)
    } else {
        None
    }
}

/// A cursor over a source text, with the tokens read so far.
pub struct Scanner<'a> {
    source: &'a str,
    tokens: Vec<Token>,
    start: usize,
    current: usize,
    line: usize,
    len: usize,
}

impl<'a> Scanner<'a> {
    /// The text being scanned.
    pub closed spec fn text(&self) -> Seq<char> {
        self.source@
    }

    /// The tokens read so far, in the order of the text.
    pub closed spec fn scanned(&self) -> Seq<Token> {
        self.tokens@
    }

    /// The position of the next character to read.
    pub closed spec fn position(&self) -> int {
        self.current as int
    }

    /// The position at which the token being read starts.
    pub closed spec fn token_start(&self) -> int {
        self.start as int
    }

    /// The line of the next character to read.
    pub closed spec fn current_line(&self) -> nat {
        self.line as nat
    }

    /// The cursor lies inside the text or at its end, behind the start of
    /// the token being read, and the line counter has counted every line
    /// feed before the cursor.
    pub closed spec fn well_formed(&self) -> bool {
        &&& self.len == self.source@.len()
        &&& self.len < usize::MAX
        &&& self.start <= self.current <= self.len
        &&& self.line == line_at(self.source@, self.current as int)
    }

    /// A scanner at the start of `source`, with no token read yet.
    pub fn new(source: &'a str) -> (scanner: Self)
        requires
            source@.len() < usize::MAX,
        ensures
            scanner.well_formed(),
            scanner.text() == source@,
            scanner.position() == 0,
            scanner.token_start() == 0,
            scanner.scanned().len() == 0,
    {
        let len = source.unicode_len();
        Scanner { source, tokens: Vec::new(), start: 0, current: 0, line: 1, len }
    }

    /// The tokens read so far.
    pub fn tokens(&self) -> (tokens: &Vec<Token>)
        ensures
            tokens@ == self.scanned(),
    {
        &self.tokens
    }

    /// Gives up the scanner for the tokens it has read.
    pub fn into_tokens(self) -> (tokens: Vec<Token>)
        ensures
            tokens@ == self.scanned(),
    {
        self.tokens
    }

    /// Whether the cursor has reached the end of the text.
    pub fn is_at_end(&self) -> (at_end: bool)
        requires
            self.well_formed(),
        ensures
            at_end == (self.position() >= self.text().len()),
    {
        self.current >= self.len
    }

    /// The character under the cursor, NUL at the end of the text.
    pub fn peek(&self) -> (c: char)
        requires
            self.well_formed(),
        ensures
            c == char_at(self.text(), self.position()),
    {
        if self.current < self.len {
            self.source.get_char(self.current)
        } else {
            '\0'
        }
    }

    /// The character behind the one under the cursor, NUL where there is
    /// none.
    pub fn peek_next(&self) -> (c: char)
        requires
            self.well_formed(),
        ensures
            c == char_at(self.text(), self.position() + 1),
    {
        if self.current + 1 < self.len {
            self.source.get_char(self.current + 1)
        } else {
            '\0'
        }
    }

    /// Reads the character under the cursor and moves past it, counting the
    /// line where it is a line feed. At the end of the text it reads a NUL
    /// and stays.
    pub fn advance(&mut self) -> (c: char)
        requires
            old(self).well_formed(),
        ensures
            final(self).well_formed(),
            final(self).text() == old(self).text(),
            final(self).scanned() == old(self).scanned(),
            final(self).token_start() == old(self).token_start(),
            c == char_at(old(self).text(), old(self).position()),
            final(self).position() == if old(self).position() < old(self).text().len() {
                old(self).position() + 1
            } else {
                old(self).position()
            },
    {
        if self.current < self.len {
            let c = self.source.get_char(self.current);
            proof {
                lemma_newlines_bound(self.source@, self.current as int);
            }
            self.current += 1;
            if c == '\n' {
                self.line += 1;
            }
            c
        } else {
            '\0'
        }
    }

    /// Reads the rest of a run of characters of `class`.
    fn take_run(&mut self, class: CharClass)
        requires
            old(self).well_formed(),
        ensures
            final(self).well_formed(),
            final(self).text() == old(self).text(),
            final(self).scanned() == old(self).scanned(),
            final(self).token_start() == old(self).token_start(),
            final(self).position() == old(self).position() + run_len(
                old(self).text(),
                old(self).position(),
                class,
            ),
    {
        let ghost from = self.current as int;
        while self.current < self.len && Self::in_class(class, self.peek())
            invariant
                self.well_formed(),
                self.source@ == old(self).source@,
                self.tokens@ == old(self).tokens@,
                self.start == old(self).start,
                from == old(self).current,
                from <= self.current,
                forall|k: int| from <= k < self.current ==> class.holds(#[trigger] self.source@[k]),
            decreases self.len - self.current,
        {
            self.advance();
        }
        proof {
            lemma_run_stops_at(self.source@, from, self.current as int, class);
        }
    }

    /// The token of `kind` whose lexeme is the text between the token start
    /// and the cursor.
    fn new_token(&self, kind: TokenType, literal: Option<Literal>) -> (token: Token)
        requires
            self.well_formed(),
            literal_fits(kind, literal),
        ensures
            token.kind == kind,
            token.lexeme@ == self.text().subrange(self.token_start(), self.position()),
            token.literal == literal,
            token.line == self.current_line(),
            token.well_formed(),
    {
        let text = String::from_str(self.source.substring_char(self.start, self.current));
        Token::new(kind, text, literal, self.line)
    }

    /// The token that ends the sequence.
    fn new_eof(&self) -> (token: Token)
        ensures
            token.kind == TokenType::Eof,
            token.lexeme@ == Seq::<char>::empty(),
            token.literal is None,
            token.line == self.current_line(),
            token.well_formed(),
    {
        Token::new(TokenType::Eof, String::new(), None, self.line)
    }

    /// The token that reports a lexical error by `message`.
    fn error_token(&self, message: String) -> (token: Token)
        ensures
            token.kind == TokenType::Error,
            token.lexeme == message,
            token.literal is None,
            token.line == self.current_line(),
            token.well_formed(),
    {
        Token::new(TokenType::Error, message, None, self.line)
    }

    /// Moves the cursor over blanks and `//` comments to where the next
    /// token starts.
    fn skip_whitespace(&mut self)
        requires
            old(self).well_formed(),
        ensures
            final(self).well_formed(),
            final(self).text() == old(self).text(),
            final(self).scanned() == old(self).scanned(),
            final(self).position() == blank_end(old(self).text(), old(self).position()),
    {
        let ghost target = blank_end(self.source@, self.current as int);
        while !self.is_at_end()
            invariant
                self.well_formed(),
                self.source@ == old(self).source@,
                self.tokens@ == old(self).tokens@,
                blank_end(self.source@, self.current as int) == target,
                target == blank_end(old(self).source@, old(self).current as int),
            decreases self.len - self.current,
        {
            let c = self.peek();
            if c == ' ' || c == '\r' || c == '\t' || c == '\n' {
                self.advance();
            } else if c == '/' && self.peek_next() == '/' {
                self.take_run(CharClass::InLine);
            } else {
                return ;
            }
        }
    }

    /// Reads a word whose first letter has just been read: a keyword where
    /// the whole run of letters spells one, an identifier otherwise.
    fn identifier(&mut self) -> (token: Token)
        requires
            old(self).well_formed(),
            old(self).position() == old(self).token_start() + 1,
            is_alpha(old(self).text()[old(self).token_start()]),
        ensures
            final(self).well_formed(),
            final(self).text() == old(self).text(),
            final(self).scanned() == old(self).scanned(),
            token@ == lex_at(old(self).text(), old(self).token_start()).token,
            final(self).position() == lex_at(old(self).text(), old(self).token_start()).end,
            token.well_formed(),
    {
        // Taking the whole run of letters before the lookup is what makes
        // `classic` an identifier and not the keyword `class`.
        self.take_run(CharClass::Letter);
        proof {
            lemma_run_in_bounds(self.source@, self.start as int, CharClass::Letter);
            lemma_run_members(self.source@, self.start as int, CharClass::Letter);
            lemma_same_line(self.source@, self.start as int, self.current as int);
        }
        let word = self.source.substring_char(self.start, self.current);
        match keyword(word) {
            Some(kind) => self.new_token(kind, None),
            None => {
                // A keyword needs no payload: its kind says what it is.
                self.new_token(TokenType::Identifier, Some(Literal::Identifier(String::from_str(word))))
            },
        }
    }

    /// Reads a number whose first digit has just been read. The payload is
    /// the number's text, which is made of digits with at most one dot
    /// between two of them.
    fn number(&mut self) -> (token: Token)
        requires
            old(self).well_formed(),
            old(self).position() == old(self).token_start() + 1,
            is_digit(old(self).text()[old(self).token_start()]),
        ensures
            final(self).well_formed(),
            final(self).text() == old(self).text(),
            final(self).scanned() == old(self).scanned(),
            token@ == lex_at(old(self).text(), old(self).token_start()).token,
            final(self).position() == lex_at(old(self).text(), old(self).token_start()).end,
            token.well_formed(),
    {
        self.take_run(CharClass::Digit);
        let ghost whole = self.current as int;
        proof {
            lemma_run_in_bounds(self.source@, self.start as int, CharClass::Digit);
            lemma_run_members(self.source@, self.start as int, CharClass::Digit);
        }
        if self.peek() == '.' && digit(self.peek_next()) {
            // The dot belongs to the number only where a digit follows it.
            self.advance();
            self.take_run(CharClass::Digit);
            proof {
                lemma_run_in_bounds(self.source@, whole + 1, CharClass::Digit);
                lemma_run_members(self.source@, whole + 1, CharClass::Digit);
            }
        }
        proof {
            assert(self.current as int == number_end(self.source@, self.start as int));
            lemma_same_line(self.source@, self.start as int, self.current as int);
        }
        let text = String::from_str(self.source.substring_char(self.start, self.current));
        self.new_token(TokenType::Number, Some(Literal::Number(text)))
    }

    /// Reads a string whose opening quote has just been read. The payload
    /// is the text between the quotes, taken as it stands. Where the text
    /// ends before the closing quote the result is an error token.
    fn string(&mut self) -> (token: Token)
        requires
            old(self).well_formed(),
            old(self).position() == old(self).token_start() + 1,
            old(self).text()[old(self).token_start()] == '"',
        ensures
            final(self).well_formed(),
            final(self).text() == old(self).text(),
            final(self).scanned() == old(self).scanned(),
            token@ == lex_at(old(self).text(), old(self).token_start()).token,
            final(self).position() == lex_at(old(self).text(), old(self).token_start()).end,
            token.well_formed(),
    {
        let line = self.line;
        proof {
            lemma_same_line(self.source@, self.start as int, self.current as int);
            lemma_run_in_bounds(self.source@, self.current as int, CharClass::InString);
        }
        self.take_run(CharClass::InString);
        if self.is_at_end() {
            return Token::new(TokenType::Error, String::from_str("unterminated string"), None, line);
        }
        self.advance();
        // The value of the string is the text with both quotes trimmed.
        let value = String::from_str(self.source.substring_char(self.start + 1, self.current - 1));
        let text = String::from_str(self.source.substring_char(self.start, self.current));
        Token::new(TokenType::String, text, Some(Literal::String(value)), line)
    }

    /// Reads the next token: skips blanks and comments, then reads the
    /// longest token that starts at the cursor. What cannot start a token
    /// becomes an error token of one character, so that scanning goes on
    /// behind it.
    pub fn scan_token(&mut self) -> (token: Token)
        requires
            old(self).well_formed(),
        ensures
            final(self).well_formed(),
            final(self).text() == old(self).text(),
            final(self).scanned() == old(self).scanned(),
            token@ == lex_at(
                old(self).text(),
                blank_end(old(self).text(), old(self).position()),
            ).token,
            final(self).position() == lex_at(
                old(self).text(),
                blank_end(old(self).text(), old(self).position()),
            ).end,
            token.well_formed(),
    {
        proof {
            lemma_blank_end_bounds(self.source@, self.current as int);
            lemma_blank_end_stops(self.source@, self.current as int);
        }
        self.skip_whitespace();
        // The token starts where the blanks end.
        self.start = self.current;
        let c = self.advance();
        proof {
            lemma_same_line(self.source@, self.start as int, self.current as int);
        }
        match c {
            '(' => self.new_token(TokenType::LeftParen, None),
            ')' => self.new_token(TokenType::RightParen, None),
            '{' => self.new_token(TokenType::LeftBrace, None),
            '}' => self.new_token(TokenType::RightBrace, None),
            ',' => self.new_token(TokenType::Comma, None),
            '.' => self.new_token(TokenType::Dot, None),
            '-' => self.new_token(TokenType::Minus, None),
            '+' => self.new_token(TokenType::Plus, None),
            ';' => self.new_token(TokenType::Semicolon, None),
            '*' => self.new_token(TokenType::Star, None),
            '!' => {
                let kind = if self.peek() == '=' {
                    self.advance();
                    TokenType::BangEqual
                } else {
                    TokenType::Bang
                };
                proof {
                    lemma_same_line(self.source@, self.start as int, self.current as int);
                }
                self.new_token(kind, None)
            },
            '=' => {
                let kind = if self.peek() == '=' {
                    self.advance();
                    TokenType::EqualEqual
                } else {
                    TokenType::Equal
                };
                proof {
                    lemma_same_line(self.source@, self.start as int, self.current as int);
                }
                self.new_token(kind, None)
            },
            '<' => {
                let kind = if self.peek() == '=' {
                    self.advance();
                    TokenType::LessEqual
                } else {
                    TokenType::Less
                };
                proof {
                    lemma_same_line(self.source@, self.start as int, self.current as int);
                }
                self.new_token(kind, None)
            },
            '>' => {
                let kind = if self.peek() == '=' {
                    self.advance();
                    TokenType::GreaterEqual
                } else {
                    TokenType::Greater
                };
                proof {
                    lemma_same_line(self.source@, self.start as int, self.current as int);
                }
                self.new_token(kind, None)
            },
            '/' => self.new_token(TokenType::Slash, None),
            '"' => self.string(),
            '\0' => self.new_eof(),
            c => {
                if digit(c) {
                    self.number()
                } else if alphabetic(c) {
                    self.identifier()
                } else {
                    let mut message = String::from_str("unexpected character '");
                    message.append(self.source.substring_char(self.start, self.current));
                    message.append("' ");
                    proof {
                        assert(self.source@.subrange(self.start as int, self.current as int)
                            =~= seq![c]);
                        assert(message@ =~= unexpected_message(c));
                    }
                    self.error_token(message)
                }
            },
        }
    }

    /// Reads tokens up to and including the end token, and appends them to
    /// those read before. A NUL in the text ends the scan as the end of the
    /// text does.
    pub fn scan_tokens(&mut self)
        requires
            old(self).well_formed(),
        ensures
            final(self).well_formed(),
            final(self).text() == old(self).text(),
            token_views(final(self).scanned()) == token_views(old(self).scanned()) + tokens_from(
                old(self).text(),
                old(self).position(),
            ),
            forall|i: int|
                old(self).scanned().len() <= i < final(self).scanned().len()
                    ==> (#[trigger] final(self).scanned()[i]).well_formed(),
    {
        loop
            invariant_except_break
                token_views(self.tokens@) + tokens_from(self.source@, self.current as int)
                    == token_views(old(self).tokens@) + tokens_from(
                    old(self).source@,
                    old(self).current as int,
                ),
            invariant
                self.well_formed(),
                self.source@ == old(self).source@,
                old(self).tokens@.len() <= self.tokens@.len(),
                forall|i: int|
                    old(self).tokens@.len() <= i < self.tokens@.len()
                        ==> (#[trigger] self.tokens@[i]).well_formed(),
            ensures
                self.well_formed(),
                self.source@ == old(self).source@,
                token_views(self.tokens@) == token_views(old(self).tokens@) + tokens_from(
                    old(self).source@,
                    old(self).current as int,
                ),
                forall|i: int|
                    old(self).tokens@.len() <= i < self.tokens@.len()
                        ==> (#[trigger] self.tokens@[i]).well_formed(),
            decreases self.len - self.current,
        {
            let ghost before = self.tokens@;
            let ghost from = self.current as int;
            proof {
                lemma_blank_end_bounds(self.source@, from);
                lemma_lex_advances(self.source@, blank_end(self.source@, from));
            }
            let token = self.scan_token();
            let last = token.kind == TokenType::Eof;
            self.tokens.push(token);
            proof {
                assert(token_views(self.tokens@) =~= token_views(before).push(token@));
                if last {
                    assert(tokens_from(self.source@, from) =~= seq![token@]);
                    assert(token_views(self.tokens@) =~= token_views(before) + tokens_from(
                        self.source@,
                        from,
                    ));
                } else {
                    assert(tokens_from(self.source@, from) =~= seq![token@] + tokens_from(
                        self.source@,
                        self.current as int,
                    ));
                    assert(token_views(self.tokens@) + tokens_from(
                        self.source@,
                        self.current as int,
                    ) =~= token_views(before) + tokens_from(self.source@, from));
                }
            }
            if last {
                break ;
            }
        }
    }

    /// Whether `c` belongs to `class`.
    fn in_class(class: CharClass, c: char) -> (yes: bool)
        ensures
            yes == class.holds(c),
    {
        match class {
            CharClass::Digit => digit(c),
            CharClass::Letter => alphabetic(c),
            CharClass::InLine => c != '\n',
            CharClass::InString => c != '"',
        }
    }
}

/// Scans a whole text into its tokens.
///
/// The result ends in the one end token it holds, every token lies on a
/// line counted from one, and a token has a payload exactly when it is a
/// string, a number or an identifier.
pub fn scan(source: &str) -> (tokens: Vec<Token>)
    requires
        source@.len() < usize::MAX,
    ensures
        token_views(tokens@) == tokens_of(source@),
        tokens@.len() >= 1,
        tokens@.last().kind is Eof,
        forall|i: int| 0 <= i < tokens@.len() - 1 ==> !((#[trigger] tokens@[i]).kind is Eof),
        forall|i: int|
            0 <= i < tokens@.len() ==> {
                &&& (#[trigger] tokens@[i]).line >= 1
                &&& tokens@[i].well_formed()
                &&& coherent(tokens@[i]@)
            },
{
    let mut scanner = Scanner::new(source);
    scanner.scan_tokens();
    proof {
        let views = token_views(scanner.tokens@);
        assert(views =~= tokens_of(source@));
        lemma_tokens_shape(source@, 0);
        assert forall|i: int| 0 <= i < scanner.tokens@.len() implies {
            &&& (#[trigger] scanner.tokens@[i]).line >= 1
            &&& coherent(scanner.tokens@[i]@)
            &&& (i < scanner.tokens@.len() - 1 ==> !(scanner.tokens@[i].kind is Eof))
        } by {
            assert(views[i] == scanner.tokens@[i]@);
        }
        assert(views.last() == scanner.tokens@.last()@);
    }
    scanner.into_tokens()
}

} // verus!
