use crate::error::{ErrorLoc, ParseError};
use crate::text::{chars_of, collect_text};
use crate::token::{
    duplicate_tokens, keyword, keyword_in, token_views, Token, TokenType, TokenTypeDiscriminants,
    TokenView,
};
use vstd::prelude::*;

verus! {

/// The sets of characters that the scanner reads in runs.
pub enum CharClass {
    /// `0` to `9`.
    Digit,
    /// Letters, digits and the underscore.
    Word,
    /// Everything but the double quote.
    NotQuote,
    /// Everything but the line feed.
    NotNewline,
}

pub open spec fn is_digit(c: char) -> bool {
    '0' <= c && c <= '9'
}

pub open spec fn is_alpha(c: char) -> bool {
    ('a' <= c && c <= 'z') || ('A' <= c && c <= 'Z') || c == '_'
}

pub open spec fn is_blank(c: char) -> bool {
    c == ' ' || c == '\r' || c == '\t' || c == '\n'
}

pub open spec fn in_class(class: CharClass, c: char) -> bool {
    match class {
        CharClass::Digit => is_digit(c),
        CharClass::Word => is_alpha(c) || is_digit(c),
        CharClass::NotQuote => c != '"',
        CharClass::NotNewline => c != '\n',
    }
}

/// How many characters of `class` stand in a row in `s` from offset `i` on.
pub open spec fn run_len(s: Seq<char>, i: int, class: CharClass) -> nat
    decreases s.len() - i,
{
    if 0 <= i < s.len() && in_class(class, s[i]) {
        1 + run_len(s, i + 1, class)
    } else {
        0
    }
}

/// How many line feeds stand in `s[from..to]`.
pub open spec fn newlines(s: Seq<char>, from: int, to: int) -> nat
    decreases to - from,
{
    if 0 <= from < to <= s.len() {
        (if s[from] == '\n' {
            1nat
        } else {
            0nat
        }) + newlines(s, from + 1, to)
    } else {
        0
    }
}

/// What the scanner makes of the text at one offset.
pub enum Scan {
    /// A token; scanning goes on at `next`, on line `line`.
    Token { token: TokenView, next: int, line: int },
    /// Blank text or a comment; scanning goes on at `next`, on line `line`.
    Skip { next: int, line: int },
    /// The text is refused.
    Failure { error: ParseError },
}

/// A token that carries no text.
pub open spec fn plain(kind: TokenTypeDiscriminants, line: int) -> TokenView {
    TokenView { kind, text: Seq::empty(), lexeme: None, line }
}

/// A token that carries `text`, which is also its lexeme.
pub open spec fn worded(kind: TokenTypeDiscriminants, text: Seq<char>, line: int) -> TokenView {
    TokenView { kind, text, lexeme: Some(text), line }
}

/// An operator of one character that becomes another when `=` follows.
pub open spec fn one_or_two(
    s: Seq<char>,
    pos: int,
    line: int,
    short: TokenTypeDiscriminants,
    long: TokenTypeDiscriminants,
) -> Scan {
    if pos + 1 < s.len() && s[pos + 1] == '=' {
        Scan::Token { token: plain(long, line), next: pos + 2, line }
    } else {
        Scan::Token { token: plain(short, line), next: pos + 1, line }
    }
}

/// A string literal whose opening quote stands at `pos`. Its text is what stands
/// between the quotes, line feeds included and nothing escaped; its lexeme is
/// the literal as it is written, quotes included; the token stands on the line
/// of the closing quote. Without a closing quote the literal is refused, with
/// the place of the opening quote.
pub open spec fn string_at(s: Seq<char>, pos: int, line: int) -> Scan {
    let close = pos + 1 + run_len(s, pos + 1, CharClass::NotQuote);
    if close >= s.len() {
        Scan::Failure {
            error: ParseError::UnterminatedString(
                ErrorLoc { line: line as usize, at: pos as usize },
            ),
        }
    } else {
        let text = s.subrange(pos + 1, close);
        let last = line + newlines(s, pos + 1, close);
        Scan::Token {
            token: TokenView {
                kind: TokenTypeDiscriminants::String,
                text,
                lexeme: Some(s.subrange(pos, close + 1)),
                line: last,
            },
            next: close + 1,
            line: last,
        }
    }
}

/// Where the number literal that begins at `pos` ends: after its digits, and
/// after a fraction if a dot and a digit follow them.
pub open spec fn number_end(s: Seq<char>, pos: int) -> int {
    let dot = pos + 1 + run_len(s, pos + 1, CharClass::Digit);
    if dot + 1 < s.len() && s[dot] == '.' && is_digit(s[dot + 1]) {
        dot + 2 + run_len(s, dot + 2, CharClass::Digit)
    } else {
        dot
    }
}

/// A number literal whose first digit stands at `pos`.
pub open spec fn number_at(s: Seq<char>, pos: int, line: int) -> Scan {
    let end = number_end(s, pos);
    Scan::Token {
        token: worded(TokenTypeDiscriminants::Number, s.subrange(pos, end), line),
        next: end,
        line,
    }
}

/// An identifier or a reserved word whose first character stands at `pos`.
pub open spec fn word_at(s: Seq<char>, pos: int, line: int) -> Scan {
    let end = pos + 1 + run_len(s, pos + 1, CharClass::Word);
    let text = s.subrange(pos, end);
    match keyword(text) {
        Some(kind) => Scan::Token { token: plain(kind, line), next: end, line },
        None => Scan::Token {
            token: worded(TokenTypeDiscriminants::Identifier, text, line),
            next: end,
            line,
        },
    }
}

/// What stands at offset `pos` of `s`, read on line `line`.
pub open spec fn scan_at(s: Seq<char>, pos: int, line: int) -> Scan
    recommends
        0 <= pos < s.len(),
{
    let c = s[pos];
    if c == '(' {
        Scan::Token { token: plain(TokenTypeDiscriminants::LeftParen, line), next: pos + 1, line }
    } else if c == ')' {
        Scan::Token { token: plain(TokenTypeDiscriminants::RightParen, line), next: pos + 1, line }
    } else if c == '{' {
        Scan::Token { token: plain(TokenTypeDiscriminants::LeftBrace, line), next: pos + 1, line }
    } else if c == '}' {
        Scan::Token { token: plain(TokenTypeDiscriminants::RightBrace, line), next: pos + 1, line }
    } else if c == ',' {
        Scan::Token { token: plain(TokenTypeDiscriminants::Comma, line), next: pos + 1, line }
    } else if c == '.' {
        Scan::Token { token: plain(TokenTypeDiscriminants::Dot, line), next: pos + 1, line }
    } else if c == '-' {
        Scan::Token { token: plain(TokenTypeDiscriminants::Minus, line), next: pos + 1, line }
    } else if c == '+' {
        Scan::Token { token: plain(TokenTypeDiscriminants::Plus, line), next: pos + 1, line }
    } else if c == ';' {
        Scan::Token { token: plain(TokenTypeDiscriminants::Semicolon, line), next: pos + 1, line }
    } else if c == '*' {
        Scan::Token { token: plain(TokenTypeDiscriminants::Star, line), next: pos + 1, line }
    } else if c == '!' {
        one_or_two(s, pos, line, TokenTypeDiscriminants::Bang, TokenTypeDiscriminants::BangEqual)
    } else if c == '=' {
        one_or_two(s, pos, line, TokenTypeDiscriminants::Equal, TokenTypeDiscriminants::EqualEqual)
    } else if c == '<' {
        one_or_two(s, pos, line, TokenTypeDiscriminants::Less, TokenTypeDiscriminants::LessEqual)
    } else if c == '>' {
        one_or_two(
            s,
            pos,
            line,
            TokenTypeDiscriminants::Greater,
            TokenTypeDiscriminants::GreaterEqual,
        )
    } else if c == '/' {
        if pos + 1 < s.len() && s[pos + 1] == '/' {
            Scan::Skip { next: pos + 2 + run_len(s, pos + 2, CharClass::NotNewline), line }
        } else {
            Scan::Token { token: plain(TokenTypeDiscriminants::Slash, line), next: pos + 1, line }
        }
    } else if c == ' ' || c == '\r' || c == '\t' {
        Scan::Skip { next: pos + 1, line }
    } else if c == '\n' {
        Scan::Skip { next: pos + 1, line: line + 1 }
    } else if c == '"' {
        string_at(s, pos, line)
    } else if is_digit(c) {
        number_at(s, pos, line)
    } else if is_alpha(c) {
        word_at(s, pos, line)
    } else {
        Scan::Failure { error: ParseError::UnexpectedCharacter { character: c, line: line as usize } }
    }
}

/// The tokens of `s` from offset `pos` on, read from line `line` on: every
/// token in order, then the end-of-input token on the last line. The first
/// text that is refused refuses the whole source.
///
/// Scanning always moves ahead ([`lemma_scan_advances`]); the case of
/// standing still is there so that the definition is well-founded, and for
/// no other reason.
pub open spec fn lex_from(s: Seq<char>, pos: int, line: int) -> Result<Seq<TokenView>, ParseError>
    decreases s.len() - pos,
{
    if 0 <= pos < s.len() {
        match scan_at(s, pos, line) {
            Scan::Token { token, next, line: after } => {
                if pos < next <= s.len() {
                    match lex_from(s, next, after) {
                        Ok(rest) => Ok(seq![token] + rest),
                        Err(error) => Err(error),
                    }
                } else {
                    Err(ParseError::UnknownTokenType)
                }
            },
            Scan::Skip { next, line: after } => {
                if pos < next <= s.len() {
                    lex_from(s, next, after)
                } else {
                    Err(ParseError::UnknownTokenType)
                }
            },
            Scan::Failure { error } => Err(error),
        }
    } else {
        Ok(seq![plain(TokenTypeDiscriminants::Eof, line)])
    }
}

/// The tokens of a whole source text.
pub open spec fn lex(s: Seq<char>) -> Result<Seq<TokenView>, ParseError> {
    lex_from(s, 0, 1)
}

/// `tokens` followed by what `rest` holds, or the error that `rest` is.
pub open spec fn followed_by(
    tokens: Seq<TokenView>,
    rest: Result<Seq<TokenView>, ParseError>,
) -> Result<Seq<TokenView>, ParseError> {
    match rest {
        Ok(more) => Ok(tokens + more),
        Err(error) => Err(error),
    }
}

/// A run ends where its class ends.
pub proof fn lemma_run_len(s: Seq<char>, from: int, to: int, class: CharClass)
    requires
        0 <= from <= to <= s.len(),
        forall|k: int| from <= k < to ==> in_class(class, s[k]),
        to == s.len() || !in_class(class, s[to]),
    ensures
        run_len(s, from, class) == to - from,
    decreases to - from,
{
    if from < to {
        lemma_run_len(s, from + 1, to, class);
    }
}

/// A run stays inside the text.
pub proof fn lemma_run_len_bound(s: Seq<char>, from: int, class: CharClass)
    requires
        0 <= from <= s.len(),
    ensures
        from + run_len(s, from, class) <= s.len(),
    decreases s.len() - from,
{
    if from < s.len() && in_class(class, s[from]) {
        lemma_run_len_bound(s, from + 1, class);
    }
}

/// Every character of a run is of the run's class.
pub proof fn lemma_run_members(s: Seq<char>, from: int, class: CharClass)
    requires
        0 <= from <= s.len(),
    ensures
        forall|k: int| from <= k < from + run_len(s, from, class) ==> in_class(class, #[trigger] s[k]),
    decreases s.len() - from,
{
    if from < s.len() && in_class(class, s[from]) {
        lemma_run_members(s, from + 1, class);
    }
}

/// One more character adds one line feed or none.
pub proof fn lemma_newlines_extend(s: Seq<char>, from: int, to: int)
    requires
        0 <= from <= to < s.len(),
    ensures
        newlines(s, from, to + 1) == newlines(s, from, to) + (if s[to] == '\n' {
            1nat
        } else {
            0nat
        }),
    decreases to - from,
{
    if from < to {
        lemma_newlines_extend(s, from + 1, to);
    } else {
        assert(newlines(s, to + 1, to + 1) == 0);
    }
}

/// Scanning moves forward, and never back a line.
pub proof fn lemma_scan_advances(s: Seq<char>, pos: int, line: int)
    requires
        0 <= pos < s.len(),
    ensures
        match scan_at(s, pos, line) {
            Scan::Token { token, next, line: after } => pos < next <= s.len() && line <= after
                && token.line == after && token.kind != TokenTypeDiscriminants::Eof,
            Scan::Skip { next, line: after } => pos < next <= s.len() && line <= after,
            Scan::Failure { error } => true,
        },
{
    lemma_run_len_bound(s, pos + 1, CharClass::NotQuote);
    lemma_run_len_bound(s, pos + 1, CharClass::Digit);
    lemma_run_len_bound(s, pos + 1, CharClass::Word);
    if pos + 2 <= s.len() {
        lemma_run_len_bound(s, pos + 2, CharClass::NotNewline);
    }
    let dot = pos + 1 + run_len(s, pos + 1, CharClass::Digit);
    if dot + 2 <= s.len() {
        lemma_run_len_bound(s, dot + 2, CharClass::Digit);
    }
}

/// One step of [`lex_from`]: what stands at `pos` comes first, the rest follows.
pub proof fn lemma_lex_step(s: Seq<char>, pos: int, line: int, before: Seq<TokenView>)
    requires
        0 <= pos < s.len(),
    ensures
        match scan_at(s, pos, line) {
            Scan::Token { token, next, line: after } => followed_by(
                before.push(token),
                lex_from(s, next, after),
            ) == followed_by(before, lex_from(s, pos, line)),
            Scan::Skip { next, line: after } => lex_from(s, next, after) == lex_from(s, pos, line),
            Scan::Failure { error } => lex_from(s, pos, line) == Err::<Seq<TokenView>, ParseError>(
                error,
            ),
        },
{
    lemma_scan_advances(s, pos, line);
    match scan_at(s, pos, line) {
        Scan::Token { token, next, line: after } => {
            match lex_from(s, next, after) {
                Ok(rest) => {
                    assert(before.push(token) + rest =~= before + (seq![token] + rest));
                },
                Err(error) => {},
            }
        },
        Scan::Skip { next, line: after } => {},
        Scan::Failure { error } => {},
    }
}

/// Whatever the source, the last token is the end-of-input token, and it is
/// the only one of its kind.
pub proof fn lemma_lex_ends_with_eof(s: Seq<char>, pos: int, line: int)
    ensures
        lex_from(s, pos, line) matches Ok(tokens) ==> {
            &&& tokens.len() >= 1
            &&& tokens.last().kind == TokenTypeDiscriminants::Eof
            &&& forall|i: int|
                0 <= i < tokens.len() - 1 ==> (#[trigger] tokens[i]).kind
                    != TokenTypeDiscriminants::Eof
        },
    decreases s.len() - pos,
{
    if 0 <= pos < s.len() {
        lemma_scan_advances(s, pos, line);
        match scan_at(s, pos, line) {
            Scan::Token { token, next, line: after } => {
                lemma_lex_ends_with_eof(s, next, after);
            },
            Scan::Skip { next, line: after } => {
                lemma_lex_ends_with_eof(s, next, after);
            },
            Scan::Failure { error } => {},
        }
    }
}

/// Line numbers never decrease from one token to the next, and none lies
/// before the line on which scanning began.
pub proof fn lemma_lex_lines_ordered(s: Seq<char>, pos: int, line: int)
    ensures
        lex_from(s, pos, line) matches Ok(tokens) ==> {
            &&& forall|i: int| 0 <= i < tokens.len() ==> line <= (#[trigger] tokens[i]).line
            &&& forall|i: int, j: int|
                0 <= i <= j < tokens.len() ==> (#[trigger] tokens[i]).line <= (
                #[trigger] tokens[j]).line
        },
    decreases s.len() - pos,
{
    if 0 <= pos < s.len() {
        lemma_scan_advances(s, pos, line);
        match scan_at(s, pos, line) {
            Scan::Token { token, next, line: after } => {
                lemma_lex_lines_ordered(s, next, after);
            },
            Scan::Skip { next, line: after } => {
                lemma_lex_lines_ordered(s, next, after);
            },
            Scan::Failure { error } => {},
        }
    }
}

/// A source of blanks alone gives the end-of-input token alone, on the line
/// that the line feeds lead to.
pub proof fn lemma_lex_blank(s: Seq<char>, pos: int, line: int)
    requires
        0 <= pos <= s.len(),
        forall|k: int| pos <= k < s.len() ==> is_blank(s[k]),
    ensures
        lex_from(s, pos, line) == Ok::<Seq<TokenView>, ParseError>(
            seq![plain(TokenTypeDiscriminants::Eof, line + newlines(s, pos, s.len() as int))],
        ),
    decreases s.len() - pos,
{
    if pos < s.len() {
        if s[pos] == '\n' {
            lemma_lex_blank(s, pos + 1, line + 1);
        } else {
            lemma_lex_blank(s, pos + 1, line);
        }
    }
}

/// The line feeds of a text are those of its two parts.
pub proof fn lemma_newlines_split(s: Seq<char>, from: int, mid: int, to: int)
    requires
        0 <= from <= mid <= to <= s.len(),
    ensures
        newlines(s, from, to) == newlines(s, from, mid) + newlines(s, mid, to),
    decreases mid - from,
{
    if from < mid {
        lemma_newlines_split(s, from + 1, mid, to);
    }
}

/// Characters that are no line feeds hold no line feed.
pub proof fn lemma_no_newlines(s: Seq<char>, from: int, to: int)
    requires
        0 <= from <= to <= s.len(),
        forall|k: int| from <= k < to ==> s[k] != '\n',
    ensures
        newlines(s, from, to) == 0,
    decreases to - from,
{
    if from < to {
        lemma_no_newlines(s, from + 1, to);
    }
}

/// What the scanner reads at an offset ends on the line to which the line
/// feeds that it has read lead.
pub proof fn lemma_scan_counts_lines(s: Seq<char>, pos: int, line: int)
    requires
        0 <= pos < s.len(),
    ensures
        match scan_at(s, pos, line) {
            Scan::Token { token, next, line: after } => after == line + newlines(s, pos, next),
            Scan::Skip { next, line: after } => after == line + newlines(s, pos, next),
            Scan::Failure { error } => true,
        },
{
    lemma_scan_advances(s, pos, line);
    let c = s[pos];
    if c == '"' {
        let close = pos + 1 + run_len(s, pos + 1, CharClass::NotQuote);
        lemma_run_len_bound(s, pos + 1, CharClass::NotQuote);
        if close < s.len() {
            lemma_newlines_split(s, pos, pos + 1, close + 1);
            lemma_newlines_split(s, pos + 1, close, close + 1);
            lemma_no_newlines(s, pos, pos + 1);
            lemma_run_end(s, pos + 1, CharClass::NotQuote);
            lemma_no_newlines(s, close, close + 1);
        }
    } else if c == '\n' {
        assert(newlines(s, pos + 1, pos + 1) == 0);
    } else {
        let next = match scan_at(s, pos, line) {
            Scan::Token { token, next, line: after } => next,
            Scan::Skip { next, line: after } => next,
            Scan::Failure { error } => pos,
        };
        if next > pos {
            lemma_run_members(s, pos + 1, CharClass::Digit);
            lemma_run_members(s, pos + 1, CharClass::Word);
            lemma_run_len_bound(s, pos + 1, CharClass::Digit);
            let dot = pos + 1 + run_len(s, pos + 1, CharClass::Digit);
            if dot + 2 <= s.len() {
                lemma_run_members(s, dot + 2, CharClass::Digit);
            }
            if pos + 2 <= s.len() {
                lemma_run_members(s, pos + 2, CharClass::NotNewline);
            }
            assert forall|k: int| pos <= k < next implies s[k] != '\n' by {}
            lemma_no_newlines(s, pos, next);
        }
    }
}

/// A run ends at the end of the text or before a character of another
/// class.
pub proof fn lemma_run_end(s: Seq<char>, from: int, class: CharClass)
    requires
        0 <= from <= s.len(),
    ensures
        from + run_len(s, from, class) == s.len() || !in_class(
            class,
            s[from + run_len(s, from, class)],
        ),
    decreases s.len() - from,
{
    if from < s.len() && in_class(class, s[from]) {
        lemma_run_end(s, from + 1, class);
    }
}

/// The end-of-input token of the tokens from an offset on stands on the
/// line to which the line feeds from there on lead.
pub proof fn lemma_lex_counts_lines(s: Seq<char>, pos: int, line: int)
    requires
        0 <= pos <= s.len(),
    ensures
        lex_from(s, pos, line) matches Ok(tokens) ==> tokens.len() >= 1 && tokens.last().line
            == line + newlines(s, pos, s.len() as int),
    decreases s.len() - pos,
{
    if pos < s.len() {
        lemma_scan_advances(s, pos, line);
        lemma_scan_counts_lines(s, pos, line);
        match scan_at(s, pos, line) {
            Scan::Token { token, next, line: after } => {
                lemma_lex_counts_lines(s, next, after);
                lemma_newlines_split(s, pos, next, s.len() as int);
            },
            Scan::Skip { next, line: after } => {
                lemma_lex_counts_lines(s, next, after);
                lemma_newlines_split(s, pos, next, s.len() as int);
            },
            Scan::Failure { error } => {},
        }
    }
}

/// For every source that the scanner accepts, the end-of-input token
/// stands on line 1 plus the number of line feeds in the source, wherever
/// they stand: between tokens, in a comment or in a string.
pub proof fn lex_ends_on_the_last_line(source: Seq<char>)
    ensures
        lex(source) matches Ok(tokens) ==> tokens.len() >= 1 && tokens.last().kind
            == TokenTypeDiscriminants::Eof && tokens.last().line == 1 + newlines(
            source,
            0,
            source.len() as int,
        ),
{
    lemma_lex_counts_lines(source, 0, 1);
    lemma_lex_ends_with_eof(source, 0, 1);
}

/// For every source that the scanner accepts, the last token is the
/// end-of-input token and no other token is.
pub proof fn lex_ends_with_eof(source: Seq<char>)
    ensures
        lex(source) matches Ok(tokens) ==> {
            &&& tokens.len() >= 1
            &&& tokens.last().kind == TokenTypeDiscriminants::Eof
            &&& forall|i: int|
                0 <= i < tokens.len() - 1 ==> (#[trigger] tokens[i]).kind
                    != TokenTypeDiscriminants::Eof
        },
{
    lemma_lex_ends_with_eof(source, 0, 1);
}

/// For every source that the scanner accepts, line numbers start at 1 or
/// later and never decrease from one token to the next.
pub proof fn lex_lines_never_decrease(source: Seq<char>)
    ensures
        lex(source) matches Ok(tokens) ==> {
            &&& forall|i: int| 0 <= i < tokens.len() ==> 1 <= (#[trigger] tokens[i]).line
            &&& forall|i: int, j: int|
                0 <= i <= j < tokens.len() ==> (#[trigger] tokens[i]).line <= (
                #[trigger] tokens[j]).line
        },
{
    lemma_lex_lines_ordered(source, 0, 1);
}

/// A source made of spaces, carriage returns, tabs and line feeds gives the
/// end-of-input token alone, and its line is 1 plus the number of line feeds.
pub proof fn lex_of_blank_source(source: Seq<char>)
    requires
        forall|k: int| 0 <= k < source.len() ==> is_blank(source[k]),
    ensures
        lex(source) == Ok::<Seq<TokenView>, ParseError>(
            seq![
                plain(
                    TokenTypeDiscriminants::Eof,
                    1int + newlines(source, 0, source.len() as int),
                ),
            ],
        ),
{
    lemma_lex_blank(source, 0, 1);
}

/// Whether a token carries text as the scanner gives it: an identifier and a
/// number carry the text they were read from, which is not empty, and it is
/// their lexeme; the lexeme of a string is the literal as it was written, of
/// two characters at least, and the string carries what stands between its
/// first and its last, which may be nothing; any other token carries no text
/// and has no lexeme.
pub open spec fn carries_its_text(token: TokenView) -> bool {
    if token.kind == TokenTypeDiscriminants::Identifier || token.kind
        == TokenTypeDiscriminants::Number {
        token.lexeme == Some(token.text) && token.text.len() >= 1
    } else if token.kind == TokenTypeDiscriminants::String {
        token.lexeme matches Some(written) && written.len() >= 2 && token.text
            == written.subrange(1, written.len() - 1)
    } else {
        token.lexeme is None && token.text.len() == 0
    }
}

/// The token that the scanner reads at an offset carries its text.
pub proof fn lemma_scan_carries_text(s: Seq<char>, pos: int, line: int)
    requires
        0 <= pos < s.len(),
    ensures
        scan_at(s, pos, line) matches Scan::Token { token, next, line: after } ==> carries_its_text(
            token,
        ),
{
    lemma_scan_advances(s, pos, line);
    lemma_run_len_bound(s, pos + 1, CharClass::NotQuote);
    lemma_run_len_bound(s, pos + 1, CharClass::Digit);
    lemma_run_len_bound(s, pos + 1, CharClass::Word);
    let dot = pos + 1 + run_len(s, pos + 1, CharClass::Digit);
    if dot + 2 <= s.len() {
        lemma_run_len_bound(s, dot + 2, CharClass::Digit);
    }
    let close = pos + 1 + run_len(s, pos + 1, CharClass::NotQuote);
    if s[pos] == '"' && close < s.len() {
        let written = s.subrange(pos, close + 1);
        assert(written.subrange(1, written.len() - 1) =~= s.subrange(pos + 1, close));
    }
}

/// Every token of the tokens from an offset on carries its text.
pub proof fn lemma_lex_carries_text(s: Seq<char>, pos: int, line: int)
    ensures
        lex_from(s, pos, line) matches Ok(tokens) ==> forall|i: int|
            0 <= i < tokens.len() ==> carries_its_text(#[trigger] tokens[i]),
    decreases s.len() - pos,
{
    if 0 <= pos < s.len() {
        lemma_scan_advances(s, pos, line);
        lemma_scan_carries_text(s, pos, line);
        match scan_at(s, pos, line) {
            Scan::Token { token, next, line: after } => {
                lemma_lex_carries_text(s, next, after);
            },
            Scan::Skip { next, line: after } => {
                lemma_lex_carries_text(s, next, after);
            },
            Scan::Failure { error } => {},
        }
    }
}

/// For every source that the scanner accepts, every token carries its text:
/// see [`carries_its_text`].
pub proof fn lex_tokens_carry_their_text(source: Seq<char>)
    ensures
        lex(source) matches Ok(tokens) ==> forall|i: int|
            0 <= i < tokens.len() ==> carries_its_text(#[trigger] tokens[i]),
{
    lemma_lex_carries_text(source, 0, 1);
}

/// Reads a source text into tokens, one pass from the first character to the
/// last.
#[derive(Debug)]
pub struct Scanner {
    source: Vec<char>,
    tokens: Vec<Token>,
    start: usize,
    current: usize,
    line: usize,
}

fn digit(c: char) -> (r: bool)
    ensures
        r == is_digit(c),
{
    c >= '0' && c <= '9'
}

fn alpha(c: char) -> (r: bool)
    ensures
        r == is_alpha(c),
{
    (c >= 'a' && c <= 'z') || (c >= 'A' && c <= 'Z') || c == '_'
}

impl Scanner {
    /// The source text.
    pub closed spec fn source(&self) -> Seq<char> {
        self.source@
    }

    /// The tokens read so far.
    pub closed spec fn emitted(&self) -> Seq<TokenView> {
        token_views(self.tokens@)
    }

    /// The offset of the next character to read.
    pub closed spec fn position(&self) -> int {
        self.current as int
    }

    /// The line of the next character to read.
    pub closed spec fn line_number(&self) -> int {
        self.line as int
    }

    /// The scanner stands inside its text, on a line that the text read so far
    /// can have reached.
    pub closed spec fn wf(&self) -> bool {
        &&& self.start <= self.current <= self.source.len() < usize::MAX
        &&& 1 <= self.line <= self.current + 1
    }

    /// A scanner at the beginning of `source`, on line 1.
    pub fn new(source: String) -> (r: Scanner)
        requires
            source@.len() < usize::MAX,
        ensures
            r.wf(),
            r.source() == source@,
            r.emitted() == Seq::<TokenView>::empty(),
            r.position() == 0,
            r.line_number() == 1,
    {
        let chars = chars_of(source.as_str());
        let r = Scanner { source: chars, tokens: Vec::new(), start: 0, current: 0, line: 1 };
        assert(token_views(r.tokens@) =~= Seq::<TokenView>::empty());
        r
    }

    /// The line that the scanner has reached.
    pub fn line(&self) -> (r: usize)
        ensures
            r == self.line_number(),
    {
        self.line
    }

    /// The tokens read so far.
    pub fn tokens(&self) -> (r: &Vec<Token>)
        ensures
            token_views(r@) == self.emitted(),
    {
        &self.tokens
    }

    /// Reads the rest of the source. The tokens read so far, those of the rest
    /// and the end-of-input token are kept, and a copy of them is returned; a
    /// text that is refused gives its error.
    pub fn scan_tokens(&mut self) -> (r: Result<Vec<Token>, ParseError>)
        requires
            old(self).wf(),
        ensures
            final(self).wf(),
            final(self).source() == old(self).source(),
            match lex_from(old(self).source(), old(self).position(), old(self).line_number()) {
                Ok(rest) => {
                    &&& r is Ok
                    &&& token_views(r->Ok_0@) == old(self).emitted() + rest
                    &&& final(self).emitted() == old(self).emitted() + rest
                    &&& final(self).position() == final(self).source().len()
                    &&& final(self).line_number() == rest.last().line
                },
                Err(error) => r == Err::<Vec<Token>, ParseError>(error),
            },
    {
        while self.current < self.source.len()
            invariant
                self.wf(),
                self.source == old(self).source,
                followed_by(
                    token_views(self.tokens@),
                    lex_from(self.source@, self.current as int, self.line as int),
                ) == followed_by(
                    token_views(old(self).tokens@),
                    lex_from(old(self).source@, old(self).current as int, old(self).line as int),
                ),
            decreases self.source.len() - self.current,
        {
            self.start = self.current;
            proof {
                lemma_lex_step(
                    self.source@,
                    self.current as int,
                    self.line as int,
                    token_views(self.tokens@),
                );
            }
            match self.scan_token() {
                Ok(()) => {},
                Err(error) => {
                    return Err(error);
                },
            }
        }
        let ghost before = token_views(self.tokens@);
        let ghost last = plain(TokenTypeDiscriminants::Eof, self.line as int);
        self.add_token(TokenType::Eof, None);
        proof {
            assert(before.push(last) =~= before + seq![last]);
            lemma_lex_ends_with_eof(
                old(self).source@,
                old(self).current as int,
                old(self).line as int,
            );
            let rest = lex_from(
                old(self).source@,
                old(self).current as int,
                old(self).line as int,
            )->Ok_0;
            let all = token_views(old(self).tokens@) + rest;
            assert(all == before + seq![last]);
            assert(all.last() == rest.last());
            assert(all.last() == last);
        }
        Ok(duplicate_tokens(&self.tokens))
    }

    /// Reads what stands at the current offset: one token, or blank text, or a
    /// comment.
    fn scan_token(&mut self) -> (r: Result<(), ParseError>)
        requires
            old(self).wf(),
            old(self).current < old(self).source.len(),
            old(self).start == old(self).current,
        ensures
            final(self).wf(),
            final(self).source == old(self).source,
            final(self).current > old(self).current || r is Err,
            match scan_at(old(self).source@, old(self).current as int, old(self).line as int) {
                Scan::Token { token, next, line } => {
                    &&& r is Ok
                    &&& token_views(final(self).tokens@) == token_views(old(self).tokens@).push(
                        token,
                    )
                    &&& final(self).current == next
                    &&& final(self).line == line
                },
                Scan::Skip { next, line } => {
                    &&& r is Ok
                    &&& final(self).tokens == old(self).tokens
                    &&& final(self).current == next
                    &&& final(self).line == line
                },
                Scan::Failure { error } => r == Err::<(), ParseError>(error),
            },
    {
        if let Some(c) = self.next() {
            if c == '(' {
                self.add_token(TokenType::LeftParen, None);
            } else if c == ')' {
                self.add_token(TokenType::RightParen, None);
            } else if c == '{' {
                self.add_token(TokenType::LeftBrace, None);
            } else if c == '}' {
                self.add_token(TokenType::RightBrace, None);
            } else if c == ',' {
                self.add_token(TokenType::Comma, None);
            } else if c == '.' {
                self.add_token(TokenType::Dot, None);
            } else if c == '-' {
                self.add_token(TokenType::Minus, None);
            } else if c == '+' {
                self.add_token(TokenType::Plus, None);
            } else if c == ';' {
                self.add_token(TokenType::Semicolon, None);
            } else if c == '*' {
                self.add_token(TokenType::Star, None);
            } else if c == '!' {
                if self.next_is('=') {
                    self.add_token(TokenType::BangEqual, None);
                } else {
                    self.add_token(TokenType::Bang, None);
                }
            } else if c == '=' {
                if self.next_is('=') {
                    self.add_token(TokenType::EqualEqual, None);
                } else {
                    self.add_token(TokenType::Equal, None);
                }
            } else if c == '<' {
                if self.next_is('=') {
                    self.add_token(TokenType::LessEqual, None);
                } else {
                    self.add_token(TokenType::Less, None);
                }
            } else if c == '>' {
                if self.next_is('=') {
                    self.add_token(TokenType::GreaterEqual, None);
                } else {
                    self.add_token(TokenType::Greater, None);
                }
            } else if c == '/' {
                if self.next_is('/') {
                    let ghost from = self.current as int;
                    while self.current < self.source.len() && self.source[self.current] != '\n'
                        invariant
                            self.wf(),
                            self.source == old(self).source,
                            self.tokens == old(self).tokens,
                            self.line == old(self).line,
                            from <= self.current,
                            forall|k: int|
                                from <= k < self.current ==> in_class(
                                    CharClass::NotNewline,
                                    self.source@[k],
                                ),
                        decreases self.source.len() - self.current,
                    {
                        let _ = self.next();
                    }
                    proof {
                        lemma_run_len(
                            self.source@,
                            from,
                            self.current as int,
                            CharClass::NotNewline,
                        );
                    }
                } else {
                    self.add_token(TokenType::Slash, None);
                }
            } else if c == ' ' || c == '\r' || c == '\t' {
            } else if c == '\n' {
                self.line += 1;
            } else if c == '"' {
                return self.add_string();
            } else if digit(c) {
                self.add_number();
            } else if alpha(c) {
                self.add_identifier();
            } else {
                return Err(ParseError::UnexpectedCharacter { character: c, line: self.line });
            }
        }
        Ok(())
    }

    /// Appends a token on the current line.
    fn add_token(&mut self, t: TokenType, lexeme: Option<String>)
        ensures
            final(self).source == old(self).source,
            final(self).start == old(self).start,
            final(self).current == old(self).current,
            final(self).line == old(self).line,
            final(self).tokens@ == old(self).tokens@.push(
                Token { token_type: t, lexeme, line: old(self).line },
            ),
            token_views(final(self).tokens@) == token_views(old(self).tokens@).push(
                (Token { token_type: t, lexeme, line: old(self).line })@,
            ),
    {
        self.tokens.push(Token::new(t, lexeme, self.line));
        assert(token_views(self.tokens@) =~= token_views(old(self).tokens@).push(
            (Token { token_type: t, lexeme, line: old(self).line })@,
        ));
    }

    /// Reads a string literal whose opening quote was just read.
    fn add_string(&mut self) -> (r: Result<(), ParseError>)
        requires
            old(self).wf(),
            old(self).current == old(self).start + 1,
        ensures
            final(self).wf(),
            final(self).source == old(self).source,
            final(self).current >= old(self).current,
            match string_at(old(self).source@, old(self).start as int, old(self).line as int) {
                Scan::Token { token, next, line } => {
                    &&& r is Ok
                    &&& token_views(final(self).tokens@) == token_views(old(self).tokens@).push(
                        token,
                    )
                    &&& final(self).current == next
                    &&& final(self).line == line
                },
                Scan::Skip { next, line } => false,
                Scan::Failure { error } => r == Err::<(), ParseError>(error),
            },
    {
        let first = self.line;
        while self.current < self.source.len() && self.source[self.current] != '"'
            invariant
                self.wf(),
                self.source == old(self).source,
                self.tokens == old(self).tokens,
                self.start == old(self).start,
                self.start + 1 <= self.current,
                first == old(self).line,
                self.line == first + newlines(
                    self.source@,
                    self.start + 1,
                    self.current as int,
                ),
                self.line <= first + (self.current - (self.start + 1)),
                forall|k: int|
                    self.start + 1 <= k < self.current ==> in_class(
                        CharClass::NotQuote,
                        self.source@[k],
                    ),
            decreases self.source.len() - self.current,
        {
            proof {
                lemma_newlines_extend(self.source@, self.start + 1, self.current as int);
            }
            if let Some(c) = self.next() {
                if c == '\n' {
                    self.line += 1;
                }
            }
        }
        proof {
            lemma_run_len(
                self.source@,
                self.start + 1,
                self.current as int,
                CharClass::NotQuote,
            );
        }
        if self.peek().is_none() {
            return Err(ParseError::UnterminatedString(ErrorLoc { line: first, at: self.start }));
        }
        let _ = self.next();
        let value = collect_text(&self.source, self.start + 1, self.current - 1);
        let lexeme = collect_text(&self.source, self.start, self.current);
        self.add_token(TokenType::String(value), Some(lexeme));
        Ok(())
    }

    /// Reads a number literal whose first digit was just read.
    fn add_number(&mut self)
        requires
            old(self).wf(),
            old(self).current == old(self).start + 1,
        ensures
            final(self).wf(),
            final(self).source == old(self).source,
            final(self).current >= old(self).current,
            final(self).line == old(self).line,
            final(self).current == number_end(old(self).source@, old(self).start as int),
            token_views(final(self).tokens@) == token_views(old(self).tokens@).push(
                worded(
                    TokenTypeDiscriminants::Number,
                    old(self).source@.subrange(
                        old(self).start as int,
                        number_end(old(self).source@, old(self).start as int),
                    ),
                    old(self).line as int,
                ),
            ),
    {
        self.skip_run_of_digits();
        if self.peek() == Some('.') {
            if let Some(c) = self.peek_next() {
                if digit(c) {
                    let _ = self.next();
                    let _ = self.next();
                    self.skip_run_of_digits();
                }
            }
        }
        let text = collect_text(&self.source, self.start, self.current);
        let lexeme = text.clone();
        self.add_token(TokenType::Number(text), Some(lexeme));
    }

    /// Reads on to the end of a run of digits.
    fn skip_run_of_digits(&mut self)
        requires
            old(self).wf(),
        ensures
            final(self).wf(),
            final(self).source == old(self).source,
            final(self).tokens == old(self).tokens,
            final(self).start == old(self).start,
            final(self).line == old(self).line,
            final(self).current == old(self).current + run_len(
                old(self).source@,
                old(self).current as int,
                CharClass::Digit,
            ),
    {
        while self.current < self.source.len() && digit(self.source[self.current])
            invariant
                self.wf(),
                self.source == old(self).source,
                self.tokens == old(self).tokens,
                self.start == old(self).start,
                self.line == old(self).line,
                old(self).current <= self.current,
                forall|k: int|
                    old(self).current <= k < self.current ==> in_class(
                        CharClass::Digit,
                        self.source@[k],
                    ),
            decreases self.source.len() - self.current,
        {
            let _ = self.next();
        }
        proof {
            lemma_run_len(
                self.source@,
                old(self).current as int,
                self.current as int,
                CharClass::Digit,
            );
        }
    }

    /// Reads an identifier or a reserved word whose first character was just
    /// read.
    fn add_identifier(&mut self)
        requires
            old(self).wf(),
            old(self).current == old(self).start + 1,
        ensures
            final(self).wf(),
            final(self).source == old(self).source,
            final(self).current >= old(self).current,
            match word_at(old(self).source@, old(self).start as int, old(self).line as int) {
                Scan::Token { token, next, line } => {
                    &&& token_views(final(self).tokens@) == token_views(old(self).tokens@).push(
                        token,
                    )
                    &&& final(self).current == next
                    &&& final(self).line == line
                },
                Scan::Skip { next, line } => false,
                Scan::Failure { error } => false,
            },
    {
        while self.current < self.source.len() && (alpha(self.source[self.current]) || digit(
            self.source[self.current],
        ))
            invariant
                self.wf(),
                self.source == old(self).source,
                self.tokens == old(self).tokens,
                self.start == old(self).start,
                self.line == old(self).line,
                old(self).current <= self.current,
                forall|k: int|
                    old(self).current <= k < self.current ==> in_class(
                        CharClass::Word,
                        self.source@[k],
                    ),
            decreases self.source.len() - self.current,
        {
            let _ = self.next();
        }
        proof {
            lemma_run_len(
                self.source@,
                old(self).current as int,
                self.current as int,
                CharClass::Word,
            );
        }
        match keyword_in(&self.source, self.start, self.current) {
            Some(token_type) => {
                self.add_token(token_type, None);
            },
            None => {
                let text = collect_text(&self.source, self.start, self.current);
                let lexeme = text.clone();
                self.add_token(TokenType::Identifier(text), Some(lexeme));
            },
        }
    }

    /// Reads one character, if one is left.
    fn next(&mut self) -> (r: Option<char>)
        requires
            old(self).wf(),
        ensures
            final(self).wf(),
            final(self).source == old(self).source,
            final(self).tokens == old(self).tokens,
            final(self).start == old(self).start,
            final(self).line == old(self).line,
            old(self).current < old(self).source.len() ==> r == Some(
                old(self).source@[old(self).current as int],
            ) && final(self).current == old(self).current + 1,
            old(self).current >= old(self).source.len() ==> r is None && final(self).current
                == old(self).current,
    {
        if self.current < self.source.len() {
            self.current += 1;
            Some(self.source[self.current - 1])
        } else {
            None
        }
    }

    /// The next character, if one is left.
    fn peek(&self) -> (r: Option<char>)
        requires
            self.wf(),
        ensures
            self.current < self.source.len() ==> r == Some(self.source@[self.current as int]),
            self.current >= self.source.len() ==> r is None,
    {
        if self.current < self.source.len() {
            Some(self.source[self.current])
        } else {
            None
        }
    }

    /// The character after the next, if there is one.
    fn peek_next(&self) -> (r: Option<char>)
        requires
            self.wf(),
        ensures
            self.current + 1 < self.source.len() ==> r == Some(
                self.source@[self.current + 1],
            ),
            self.current + 1 >= self.source.len() ==> r is None,
    {
        if self.current + 1 < self.source.len() {
            Some(self.source[self.current + 1])
        } else {
            None
        }
    }

    /// Reads the next character if it is `c`.
    fn next_is(&mut self, c: char) -> (r: bool)
        requires
            old(self).wf(),
        ensures
            final(self).wf(),
            final(self).source == old(self).source,
            final(self).tokens == old(self).tokens,
            final(self).start == old(self).start,
            final(self).line == old(self).line,
            r == (old(self).current < old(self).source.len() && old(self).source@[old(
                self,
            ).current as int] == c),
            final(self).current == old(self).current + (if r {
                1int
            } else {
                0int
            }),
    {
        if self.peek() == Some(c) {
            self.current += 1;
            true
        } else {
            false
        }
    }
}

} // verus!
