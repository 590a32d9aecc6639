//! The mathematical model of scanning: what the tokens of a text are.

use crate::token::TokenView;
use crate::tokentype::{LiteralView, TokenType};
use vstd::prelude::*;

verus! {

/// The character at `i`, or NUL where `i` lies outside the text: the end of
/// the text reads as a NUL.
pub open spec fn char_at(s: Seq<char>, i: int) -> char {
    if 0 <= i < s.len() {
        s[i]
    } else {
        '\0'
    }
}

/// A decimal digit.
pub open spec fn is_digit(c: char) -> bool {
    '0' <= c && c <= '9'
}

/// A letter of the ASCII alphabet.
pub open spec fn is_alpha(c: char) -> bool {
    ('a' <= c && c <= 'z') || ('A' <= c && c <= 'Z')
}

/// A character that separates tokens without being one.
pub open spec fn is_blank(c: char) -> bool {
    c == ' ' || c == '\r' || c == '\t' || c == '\n'
}

/// The sets of characters of which the scanner reads whole runs.
#[derive(Clone, Copy)]
pub enum CharClass {
    /// Decimal digits.
    Digit,
    /// ASCII letters.
    Letter,
    /// Everything but a line feed: the rest of a comment.
    InLine,
    /// Everything but a double quote: the inside of a string.
    InString,
}

impl CharClass {
    pub open spec fn holds(self, c: char) -> bool {
        match self {
            CharClass::Digit => is_digit(c),
            CharClass::Letter => is_alpha(c),
            CharClass::InLine => c != '\n',
            CharClass::InString => c != '"',
        }
    }
}

/// The length of the longest run of characters of `class` that starts at
/// `from`.
pub open spec fn run_len(s: Seq<char>, from: int, class: CharClass) -> nat
    decreases s.len() - from,
{
    if 0 <= from < s.len() && class.holds(s[from]) {
        1 + run_len(s, from + 1, class)
    } else {
        0
    }
}

/// The number of line feeds among the first `upto` characters.
pub open spec fn newlines(s: Seq<char>, upto: int) -> nat
    decreases upto,
{
    if upto <= 0 || upto > s.len() {
        0
    } else {
        newlines(s, upto - 1) + if s[upto - 1] == '\n' {
            1nat
        } else {
            0nat
        }
    }
}

/// The line, counted from one, on which position `pos` lies.
pub open spec fn line_at(s: Seq<char>, pos: int) -> nat {
    1 + newlines(s, pos)
}

/// Where the next token starts: the first position at or after `from` that
/// is neither blank nor inside a `//` comment, or the end of the text.
pub open spec fn blank_end(s: Seq<char>, from: int) -> int
    decreases s.len() - from,
{
    if from < 0 || from >= s.len() {
        from
    } else if is_blank(s[from]) {
        blank_end(s, from + 1)
    } else if s[from] == '/' && char_at(s, from + 1) == '/' {
        proof {
            lemma_run_in_bounds(s, from, CharClass::InLine);
        }
        blank_end(s, from + run_len(s, from, CharClass::InLine))
    } else {
        from
    }
}

/// The keyword that `word` spells, if it spells one.
pub open spec fn keyword_kind(word: Seq<char>) -> Option<TokenType> {
    if word == "and"@ {
        Some(TokenType::And)
    } else if word == "class"@ {
        Some(TokenType::Class)
    } else if word == "else"@ {
        Some(TokenType::Else)
    } else if word == "false"@ {
        Some(TokenType::False)
    } else if word == "fun"@ {
        Some(TokenType::Fun)
    } else if word == "for"@ {
        Some(TokenType::For)
    } else if word == "if"@ {
        Some(TokenType::If)
    } else if word == "nil"@ {
        Some(TokenType::Nil)
    } else if word == "or"@ {
        Some(TokenType::Or)
    } else if word == "print"@ {
        Some(TokenType::Print)
    } else if word == "return"@ {
        Some(TokenType::Return)
    } else if word == "super"@ {
        Some(TokenType::Super)
    } else if word == "this"@ {
        Some(TokenType::This)
    } else if word == "true"@ {
        Some(TokenType::True)
    } else if word == "var"@ {
        Some(TokenType::Var)
    } else if word == "while"@ {
        Some(TokenType::While)
    } else {
        None
    }
}

/// The kind of a character that is a token by itself whatever follows it.
pub open spec fn punctuation(c: char) -> Option<TokenType> {
    if c == '(' {
        Some(TokenType::LeftParen)
    } else if c == ')' {
        Some(TokenType::RightParen)
    } else if c == '{' {
        Some(TokenType::LeftBrace)
    } else if c == '}' {
        Some(TokenType::RightBrace)
    } else if c == ',' {
        Some(TokenType::Comma)
    } else if c == '.' {
        Some(TokenType::Dot)
    } else if c == '-' {
        Some(TokenType::Minus)
    } else if c == '+' {
        Some(TokenType::Plus)
    } else if c == ';' {
        Some(TokenType::Semicolon)
    } else if c == '*' {
        Some(TokenType::Star)
    } else if c == '/' {
        Some(TokenType::Slash)
    } else {
        None
    }
}

/// The kind of an operator character that may be followed by `=` to form a
/// longer operator: the kind of the pair where `paired`, else its kind alone.
pub open spec fn operator(c: char, paired: bool) -> Option<TokenType> {
    if c == '!' {
        Some(if paired { TokenType::BangEqual } else { TokenType::Bang })
    } else if c == '=' {
        Some(if paired { TokenType::EqualEqual } else { TokenType::Equal })
    } else if c == '<' {
        Some(if paired { TokenType::LessEqual } else { TokenType::Less })
    } else if c == '>' {
        Some(if paired { TokenType::GreaterEqual } else { TokenType::Greater })
    } else {
        None
    }
}

/// A token together with the position just behind it.
pub struct Lexed {
    pub token: TokenView,
    pub end: int,
}

/// The token without payload that spans `start..end`.
pub open spec fn plain(kind: TokenType, s: Seq<char>, start: int, end: int) -> Lexed {
    Lexed {
        token: TokenView {
            kind,
            lexeme: s.subrange(start, end),
            literal: None,
            line: line_at(s, start),
        },
        end,
    }
}

/// The token read at an opening quote at `start`: the string up to the next
/// quote, or an error where the text ends first.
pub open spec fn lex_string(s: Seq<char>, start: int) -> Lexed {
    let close = start + 1 + run_len(s, start + 1, CharClass::InString);
    if close < s.len() {
        Lexed {
            token: TokenView {
                kind: TokenType::String,
                lexeme: s.subrange(start, close + 1),
                literal: Some(LiteralView::String(s.subrange(start + 1, close))),
                line: line_at(s, start),
            },
            end: close + 1,
        }
    } else {
        Lexed {
            token: TokenView {
                kind: TokenType::Error,
                lexeme: "unterminated string"@,
                literal: None,
                line: line_at(s, start),
            },
            end: s.len() as int,
        }
    }
}

/// Where the number that starts at `start` ends: behind its digits, and
/// behind a fraction where a dot and at least one digit follow them.
pub open spec fn number_end(s: Seq<char>, start: int) -> int {
    let whole = start + run_len(s, start, CharClass::Digit);
    if char_at(s, whole) == '.' && is_digit(char_at(s, whole + 1)) {
        whole + 1 + run_len(s, whole + 1, CharClass::Digit)
    } else {
        whole
    }
}

/// The token read at a digit at `start`.
pub open spec fn lex_number(s: Seq<char>, start: int) -> Lexed {
    let end = number_end(s, start);
    Lexed {
        token: TokenView {
            kind: TokenType::Number,
            lexeme: s.subrange(start, end),
            literal: Some(LiteralView::Number(s.subrange(start, end))),
            line: line_at(s, start),
        },
        end,
    }
}

/// The token read at a letter at `start`: the keyword that the whole run of
/// letters spells, or else an identifier.
pub open spec fn lex_word(s: Seq<char>, start: int) -> Lexed {
    let end = start + run_len(s, start, CharClass::Letter);
    let word = s.subrange(start, end);
    match keyword_kind(word) {
        Some(kind) => plain(kind, s, start, end),
        None => Lexed {
            token: TokenView {
                kind: TokenType::Identifier,
                lexeme: word,
                literal: Some(LiteralView::Identifier(word)),
                line: line_at(s, start),
            },
            end,
        },
    }
}

/// The message of the error token for a character that starts no token.
pub open spec fn unexpected_message(c: char) -> Seq<char> {
    "unexpected character '"@.push(c) + "' "@
}

/// The token that starts at `start`, a position where no blank and no
/// comment starts. A NUL there, like the end of the text, gives the end
/// token.
pub open spec fn lex_at(s: Seq<char>, start: int) -> Lexed {
    let c = char_at(s, start);
    if c == '\0' {
        Lexed {
            token: TokenView {
                kind: TokenType::Eof,
                lexeme: Seq::empty(),
                literal: None,
                line: line_at(s, start),
            },
            end: if 0 <= start < s.len() {
                start + 1
            } else {
                start
            },
        }
    } else if punctuation(c) is Some {
        plain(punctuation(c)->0, s, start, start + 1)
    } else if operator(c, false) is Some {
        if char_at(s, start + 1) == '=' {
            plain(operator(c, true)->0, s, start, start + 2)
        } else {
            plain(operator(c, false)->0, s, start, start + 1)
        }
    } else if c == '"' {
        lex_string(s, start)
    } else if is_digit(c) {
        lex_number(s, start)
    } else if is_alpha(c) {
        lex_word(s, start)
    } else {
        Lexed {
            token: TokenView {
                kind: TokenType::Error,
                lexeme: unexpected_message(c),
                literal: None,
                line: line_at(s, start),
            },
            end: start + 1,
        }
    }
}

/// The tokens of the text from `pos` on: each token in turn, blanks and
/// comments left out, up to and including the end token.
pub open spec fn tokens_from(s: Seq<char>, pos: int) -> Seq<TokenView>
    decreases s.len() - pos,
{
    let lexed = lex_at(s, blank_end(s, pos));
    if lexed.token.kind is Eof || pos < 0 {
        seq![lexed.token]
    } else {
        proof {
            lemma_blank_end_bounds(s, pos);
            lemma_lex_advances(s, blank_end(s, pos));
        }
        seq![lexed.token] + tokens_from(s, lexed.end)
    }
}

/// The tokens of a whole text.
pub open spec fn tokens_of(s: Seq<char>) -> Seq<TokenView> {
    tokens_from(s, 0)
}

/// Whether every character of `text` is a decimal digit.
pub open spec fn all_digits(text: Seq<char>) -> bool {
    forall|i: int| 0 <= i < text.len() ==> is_digit(#[trigger] text[i])
}

/// Whether every character of `text` is an ASCII letter.
pub open spec fn all_letters(text: Seq<char>) -> bool {
    forall|i: int| 0 <= i < text.len() ==> is_alpha(#[trigger] text[i])
}

/// Whether `text` is a decimal numeral: one digit or more, and optionally a
/// dot with one digit or more behind it.
pub open spec fn is_decimal(text: Seq<char>) -> bool {
    ||| text.len() > 0 && all_digits(text)
    ||| exists|dot: int|
        0 < dot < text.len() - 1 && #[trigger] text[dot] == '.' && all_digits(
            text.subrange(0, dot),
        ) && all_digits(text.subrange(dot + 1, text.len() as int))
}

/// Whether a token's lexeme and payload go with its kind: an operator or a
/// keyword is spelled as its kind says and has no payload, a number's
/// payload is its lexeme and a decimal numeral, an identifier's payload is
/// its lexeme, made of letters that spell no keyword, and a string's lexeme
/// is its payload between two quotes.
pub open spec fn coherent(token: TokenView) -> bool {
    match token.kind {
        TokenType::String => {
            &&& token.literal matches Some(LiteralView::String(value))
            &&& token.lexeme == seq!['"'] + value + seq!['"']
            &&& !value.contains('"')
        },
        TokenType::Number => {
            &&& token.literal == Some(LiteralView::Number(token.lexeme))
            &&& is_decimal(token.lexeme)
        },
        TokenType::Identifier => {
            &&& token.literal == Some(LiteralView::Identifier(token.lexeme))
            &&& token.lexeme.len() > 0
            &&& all_letters(token.lexeme)
            &&& keyword_kind(token.lexeme) is None
        },
        TokenType::Eof => token.literal is None && token.lexeme.len() == 0,
        TokenType::Error => token.literal is None,
        _ => token.literal is None && token.lexeme == token.kind.text(),
    }
}

/// A run stays inside the text.
pub proof fn lemma_run_in_bounds(s: Seq<char>, from: int, class: CharClass)
    requires
        0 <= from <= s.len(),
    ensures
        from + run_len(s, from, class) <= s.len(),
    decreases s.len() - from,
{
    if from < s.len() && class.holds(s[from]) {
        lemma_run_in_bounds(s, from + 1, class);
    }
}

/// A run holds only characters of its class and stops at the first that is
/// not, or at the end of the text.
pub proof fn lemma_run_members(s: Seq<char>, from: int, class: CharClass)
    requires
        0 <= from <= s.len(),
    ensures
        forall|k: int| from <= k < from + run_len(s, from, class) ==> class.holds(#[trigger] s[k]),
        !class.holds(char_at(s, from + run_len(s, from, class))) || from + run_len(s, from, class)
            == s.len(),
    decreases s.len() - from,
{
    if from < s.len() && class.holds(s[from]) {
        lemma_run_members(s, from + 1, class);
    }
}

/// The position `end` is where the run from `from` stops if everything
/// before it is of the class and it is not, or is the end of the text.
pub proof fn lemma_run_stops_at(s: Seq<char>, from: int, end: int, class: CharClass)
    requires
        0 <= from <= end <= s.len(),
        forall|k: int| from <= k < end ==> class.holds(#[trigger] s[k]),
        end == s.len() || !class.holds(s[end]),
    ensures
        from + run_len(s, from, class) == end,
    decreases end - from,
{
    if from < end {
        lemma_run_stops_at(s, from + 1, end, class);
    }
}

/// No more line feeds than characters.
pub proof fn lemma_newlines_bound(s: Seq<char>, upto: int)
    ensures
        newlines(s, upto) <= upto || upto < 0,
    decreases upto,
{
    if 0 < upto <= s.len() {
        lemma_newlines_bound(s, upto - 1);
    }
}

/// Two positions with no line feed between them lie on the same line.
pub proof fn lemma_same_line(s: Seq<char>, from: int, to: int)
    requires
        0 <= from <= to <= s.len(),
        forall|k: int| from <= k < to ==> #[trigger] s[k] != '\n',
    ensures
        line_at(s, from) == line_at(s, to),
    decreases to - from,
{
    if from < to {
        lemma_same_line(s, from, to - 1);
    }
}

/// Skipping blanks and comments moves forward and stays inside the text.
pub proof fn lemma_blank_end_bounds(s: Seq<char>, from: int)
    requires
        0 <= from <= s.len(),
    ensures
        from <= blank_end(s, from) <= s.len(),
    decreases s.len() - from,
{
    if from < s.len() {
        if is_blank(s[from]) {
            lemma_blank_end_bounds(s, from + 1);
        } else if s[from] == '/' && char_at(s, from + 1) == '/' {
            lemma_run_in_bounds(s, from, CharClass::InLine);
            lemma_blank_end_bounds(s, from + run_len(s, from, CharClass::InLine));
        }
    }
}

/// Where the next token starts there is no blank and no comment.
pub proof fn lemma_blank_end_stops(s: Seq<char>, from: int)
    requires
        0 <= from <= s.len(),
    ensures
        !is_blank(char_at(s, blank_end(s, from))),
        !(char_at(s, blank_end(s, from)) == '/' && char_at(s, blank_end(s, from) + 1) == '/'),
        blank_end(s, blank_end(s, from)) == blank_end(s, from),
    decreases s.len() - from,
{
    if from < s.len() {
        if is_blank(s[from]) {
            lemma_blank_end_stops(s, from + 1);
        } else if s[from] == '/' && char_at(s, from + 1) == '/' {
            lemma_run_in_bounds(s, from, CharClass::InLine);
            lemma_blank_end_stops(s, from + run_len(s, from, CharClass::InLine));
        }
    }
}

/// A token other than the end token is not empty, and no token reaches
/// beyond the text.
pub proof fn lemma_lex_advances(s: Seq<char>, start: int)
    requires
        0 <= start <= s.len(),
    ensures
        start <= lex_at(s, start).end <= s.len(),
        !(lex_at(s, start).token.kind is Eof) ==> start < lex_at(s, start).end,
{
    let c = char_at(s, start);
    if c == '"' {
        lemma_run_in_bounds(s, start + 1, CharClass::InString);
    } else if is_digit(c) {
        lemma_run_in_bounds(s, start, CharClass::Digit);
        let whole = start + run_len(s, start, CharClass::Digit);
        if char_at(s, whole) == '.' && is_digit(char_at(s, whole + 1)) {
            lemma_run_in_bounds(s, whole + 1, CharClass::Digit);
        }
    } else if is_alpha(c) {
        lemma_run_in_bounds(s, start, CharClass::Letter);
    }
}

/// The token read at any position is coherent and lies on a line counted
/// from one.
pub proof fn lemma_lexed_coherent(s: Seq<char>, start: int)
    requires
        0 <= start <= s.len(),
    ensures
        coherent(lex_at(s, start).token),
        lex_at(s, start).token.well_formed(),
        lex_at(s, start).token.line >= 1,
{
    let c = char_at(s, start);
    let token = lex_at(s, start).token;
    if c == '\0' {
    } else if punctuation(c) is Some {
        assert(s.subrange(start, start + 1) =~= seq![c]);
        reveal_strlit("(");
        reveal_strlit(")");
        reveal_strlit("{");
        reveal_strlit("}");
        reveal_strlit(",");
        reveal_strlit(".");
        reveal_strlit("-");
        reveal_strlit("+");
        reveal_strlit(";");
        reveal_strlit("*");
        reveal_strlit("/");
        assert(token.lexeme =~= token.kind.text());
    } else if operator(c, false) is Some {
        reveal_strlit("!");
        reveal_strlit("!=");
        reveal_strlit("=");
        reveal_strlit("==");
        reveal_strlit("<");
        reveal_strlit("<=");
        reveal_strlit(">");
        reveal_strlit(">=");
        if char_at(s, start + 1) == '=' {
            assert(s.subrange(start, start + 2) =~= seq![c, '=']);
        } else {
            assert(s.subrange(start, start + 1) =~= seq![c]);
        }
        assert(token.lexeme =~= token.kind.text());
    } else if c == '"' {
        lemma_run_in_bounds(s, start + 1, CharClass::InString);
        lemma_run_members(s, start + 1, CharClass::InString);
        let close = start + 1 + run_len(s, start + 1, CharClass::InString);
        if close < s.len() {
            let value = s.subrange(start + 1, close);
            assert(s.subrange(start, close + 1) =~= seq!['"'] + value + seq!['"']);
            assert forall|i: int| 0 <= i < value.len() implies value[i] != '"' by {
                assert(value[i] == s[start + 1 + i]);
            }
        }
    } else if is_digit(c) {
        lemma_number_is_decimal(s, start);
    } else if is_alpha(c) {
        lemma_run_in_bounds(s, start, CharClass::Letter);
        lemma_run_members(s, start, CharClass::Letter);
        let end = start + run_len(s, start, CharClass::Letter);
        let word = s.subrange(start, end);
        assert forall|i: int| 0 <= i < word.len() implies is_alpha(#[trigger] word[i]) by {
            assert(word[i] == s[start + i]);
        }
    }
}

/// A word is the longest run of letters at its place: the token read at a
/// letter spans every letter up to the first character that is none, and it
/// is a keyword only where all of them together spell one.
pub proof fn lemma_word_is_longest(s: Seq<char>, start: int)
    requires
        0 <= start < s.len(),
        is_alpha(s[start]),
    ensures
        start < lex_at(s, start).end <= s.len(),
        lex_at(s, start).token.lexeme == s.subrange(start, lex_at(s, start).end),
        all_letters(lex_at(s, start).token.lexeme),
        !is_alpha(char_at(s, lex_at(s, start).end)),
        lex_at(s, start).token.kind == match keyword_kind(lex_at(s, start).token.lexeme) {
            Some(kind) => kind,
            None => TokenType::Identifier,
        },
{
    lemma_run_in_bounds(s, start, CharClass::Letter);
    lemma_run_members(s, start, CharClass::Letter);
    let end = start + run_len(s, start, CharClass::Letter);
    let word = s.subrange(start, end);
    assert forall|i: int| 0 <= i < word.len() implies is_alpha(#[trigger] word[i]) by {
        assert(word[i] == s[start + i]);
    }
}

/// The text of a number token is a decimal numeral.
pub proof fn lemma_number_is_decimal(s: Seq<char>, start: int)
    requires
        0 <= start < s.len(),
        is_digit(s[start]),
    ensures
        is_decimal(lex_number(s, start).token.lexeme),
        start < number_end(s, start) <= s.len(),
{
    lemma_run_in_bounds(s, start, CharClass::Digit);
    lemma_run_members(s, start, CharClass::Digit);
    let whole = start + run_len(s, start, CharClass::Digit);
    let end = number_end(s, start);
    let text = s.subrange(start, end);
    if char_at(s, whole) == '.' && is_digit(char_at(s, whole + 1)) {
        lemma_run_in_bounds(s, whole + 1, CharClass::Digit);
        lemma_run_members(s, whole + 1, CharClass::Digit);
        let dot = whole - start;
        let head = text.subrange(0, dot);
        let tail = text.subrange(dot + 1, text.len() as int);
        assert(text[dot] == '.');
        assert forall|i: int| 0 <= i < head.len() implies is_digit(#[trigger] head[i]) by {
            assert(head[i] == s[start + i]);
        }
        assert forall|i: int| 0 <= i < tail.len() implies is_digit(#[trigger] tail[i]) by {
            assert(tail[i] == s[whole + 1 + i]);
        }
    } else {
        assert forall|i: int| 0 <= i < text.len() implies is_digit(#[trigger] text[i]) by {
            assert(text[i] == s[start + i]);
        }
    }
}

/// The tokens of a text end in the end token and hold no other; each lies
/// on a line counted from one and is coherent, so that it has a payload
/// exactly when it is a string, a number or an identifier.
pub proof fn lemma_tokens_shape(s: Seq<char>, pos: int)
    requires
        0 <= pos <= s.len(),
    ensures
        tokens_from(s, pos).len() >= 1,
        tokens_from(s, pos).last().kind is Eof,
        forall|i: int|
            0 <= i < tokens_from(s, pos).len() - 1 ==> !((#[trigger] tokens_from(s, pos)[i]).kind
                is Eof),
        forall|i: int|
            0 <= i < tokens_from(s, pos).len() ==> {
                &&& (#[trigger] tokens_from(s, pos)[i]).line >= 1
                &&& coherent(tokens_from(s, pos)[i])
                &&& tokens_from(s, pos)[i].well_formed()
            },
    decreases s.len() - pos,
{
    lemma_blank_end_bounds(s, pos);
    let start = blank_end(s, pos);
    lemma_lex_advances(s, start);
    lemma_lexed_coherent(s, start);
    let lexed = lex_at(s, start);
    if !(lexed.token.kind is Eof) {
        lemma_tokens_shape(s, lexed.end);
        let rest = tokens_from(s, lexed.end);
        let all = tokens_from(s, pos);
        assert(all =~= seq![lexed.token] + rest);
        assert forall|i: int| 0 <= i < all.len() implies {
            &&& (#[trigger] all[i]).line >= 1
            &&& coherent(all[i])
            &&& all[i].well_formed()
            &&& (i < all.len() - 1 ==> !(all[i].kind is Eof))
        } by {
            if i > 0 {
                assert(all[i] == rest[i - 1]);
            }
        }
    }
}

} // verus!
