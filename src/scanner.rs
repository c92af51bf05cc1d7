//! Tokens of the grammar source format, and the scanner that produces them.
use vstd::prelude::*;
use crate::productions::{sym, syms, Sym};

verus! {

/// A line (from 1) and a column (from 1) in the grammar source.
#[derive(Debug, Clone, Copy, PartialEq, Eq, Structural)]
pub struct Coord {
    pub line_num: usize,
    pub col: usize,
}

/// Where a token starts and where it ends.
#[derive(Debug, Clone, Copy, PartialEq, Eq, Structural)]
pub struct Span {
    pub start: Coord,
    pub end: Coord,
}

/// The kinds of token of the grammar source format.
#[derive(Debug, Clone, Copy, PartialEq, Eq, Structural)]
pub enum TokenKind {
    /// An identifier: a non-terminal, or a bare terminal once classified.
    Id,
    /// A terminal (a quoted literal, or an identifier that names no non-terminal).
    Term,
    /// End of input.
    Eof,
    /// `:` or `::=`.
    Equals,
    /// `;` or `.`.
    End,
    /// `|`.
    Bar,
}

/// A token: its kind, its text and where it stands.
#[derive(Debug)]
pub struct Token {
    pub kind: TokenKind,
    pub value: String,
    pub span: Span,
}

impl Clone for Token {
    fn clone(&self) -> (r: Self)
        ensures
            r.kind == self.kind,
            r.value@ == self.value@,
            r.span == self.span,
    {
        Token { kind: self.kind, value: self.value.clone(), span: self.span }
    }
}

/// Why the scanner stopped.
#[derive(Debug, Clone, Copy, PartialEq, Eq, Structural)]
pub enum ScanError {
    /// Expected a character (`'_'` when any of several was allowed), saw another.
    UnexpectedChar(char, char, Coord),
    /// The input ended inside a token.
    NoMoreChars(Coord),
}

/// The characters with the Unicode `White_Space` property.
pub open spec fn white_space(c: char) -> bool {
    ||| '\u{9}' <= c <= '\u{d}'
    ||| c == ' ' || c == '\u{85}' || c == '\u{a0}' || c == '\u{1680}'
    ||| '\u{2000}' <= c <= '\u{200a}'
    ||| c == '\u{2028}' || c == '\u{2029}' || c == '\u{202f}' || c == '\u{205f}' || c == '\u{3000}'
}

/// An ASCII letter.
pub open spec fn alphabetic(c: char) -> bool {
    ('a' <= c <= 'z') || ('A' <= c <= 'Z')
}

/// Whether `c` is white space (the Unicode `White_Space` characters, which
/// `char::is_whitespace` recognises).
fn is_whitespace(c: char) -> (r: bool)
    ensures
        r == white_space(c),
{
    ('\u{9}' <= c && c <= '\u{d}') || c == ' ' || c == '\u{85}' || c == '\u{a0}' || c == '\u{1680}'
        || ('\u{2000}' <= c && c <= '\u{200a}') || c == '\u{2028}' || c == '\u{2029}' || c == '\u{202f}'
        || c == '\u{205f}' || c == '\u{3000}'
}

fn is_alphabetic(c: char) -> (r: bool)
    ensures
        r == alphabetic(c),
{
    ('a' <= c && c <= 'z') || ('A' <= c && c <= 'Z')
}

/// Relies on `str::chars`: the characters of the text, in order.
#[verifier::external_body]
pub(crate) fn chars_of(s: &str) -> (r: Vec<char>)
    ensures
        r@ == s@,
{
    s.chars().collect()
}

/// Relies on `FromIterator<char>` for `String`: the text of those characters.
#[verifier::external_body]
pub(crate) fn text_of(chars: &Vec<char>, from: usize, to: usize) -> (r: String)
    requires
        from <= to <= chars@.len(),
    ensures
        r@ == chars@.subrange(from as int, to as int),
{
    chars[from..to].iter().collect()
}

pub open spec fn is_digit(c: char) -> bool {
    '0' <= c <= '9'
}

/// A character that may follow the first one of an identifier.
pub open spec fn ident_char(c: char) -> bool {
    c == '_' || alphabetic(c) || is_digit(c)
}

/// What each kind of token looks like.
pub open spec fn token_shape(t: Token) -> bool {
    let v = t.value@;
    match t.kind {
        TokenKind::Id => v.len() >= 1 && (v[0] == '_' || alphabetic(v[0])) && forall|i: int| 1 <= i < v.len() ==> ident_char(#[trigger] v[i]),
        TokenKind::Term => v.len() >= 2 && (v[0] == '"' || v[0] == '\'') && v.last() == v[0]
            && forall|i: int| 1 <= i < v.len() - 1 ==> #[trigger] v[i] != v[0] && v[i] != '\n',
        TokenKind::Eof => v.len() == 0,
        TokenKind::Equals => v == seq![':'] || v == seq![':', ':', '='],
        TokenKind::End => v == seq![';'] || v == seq!['.'],
        TokenKind::Bar => v == seq!['|'],
    }
}

/// A well-formed token list: shaped tokens, and `EOF` last and only last.
pub open spec fn tokens_ok(ts: Seq<Token>) -> bool {
    &&& ts.len() >= 1
    &&& ts.last().kind == TokenKind::Eof
    &&& forall|i: int| 0 <= i < ts.len() ==> token_shape(#[trigger] ts[i])
    &&& forall|i: int| 0 <= i < ts.len() - 1 ==> (#[trigger] ts[i]).kind != TokenKind::Eof
}

/// The first position from `i` on that holds no identifier character.
pub open spec fn ident_end(s: Seq<char>, i: int) -> int
    decreases s.len() - i,
{
    if 0 <= i < s.len() && ident_char(s[i]) {
        ident_end(s, i + 1)
    } else {
        i
    }
}

/// The first position from `i` on that holds `q` or a newline, or the end.
pub open spec fn quote_end(s: Seq<char>, i: int, q: char) -> int
    decreases s.len() - i,
{
    if 0 <= i < s.len() && s[i] != q && s[i] != '\n' {
        quote_end(s, i + 1, q)
    } else {
        i
    }
}

/// The first newline from `i` on, or the end.
pub open spec fn line_end(s: Seq<char>, i: int) -> int
    decreases s.len() - i,
{
    if 0 <= i < s.len() && s[i] != '\n' {
        line_end(s, i + 1)
    } else {
        i
    }
}

pub open spec fn cons(t: Sym, rest: Option<Seq<Sym>>) -> Option<Seq<Sym>> {
    match rest {
        Some(r) => Some(seq![t] + r),
        None => None,
    }
}

/// The tokens (kind and text) of `s` from position `i` on, `EOF` left out;
/// `None` where the text breaks the format. White space and `//` comments
/// separate tokens; an identifier is `_` or an ASCII letter, then `_`,
/// ASCII letters and digits; a literal runs from a quote to the same quote on the same line;
/// `:` and `::=` are equals signs, `;` and `.` end a rule, `|` separates
/// alternatives.
pub open spec fn lex(s: Seq<char>, i: int) -> Option<Seq<Sym>>
    decreases s.len() - i,
{
    if i < 0 || i >= s.len() {
        Some(Seq::empty())
    } else {
        let c = s[i];
        if white_space(c) {
            lex(s, i + 1)
        } else if c == '/' {
            if i + 1 < s.len() && s[i + 1] == '/' {
                let e = line_end(s, i + 2);
                if e >= s.len() {
                    Some(Seq::empty())
                } else if e > i {
                    lex(s, e + 1)
                } else {
                    None
                }
            } else {
                None
            }
        } else if c == '_' || alphabetic(c) {
            let e = ident_end(s, i + 1);
            if i < e <= s.len() {
                cons((TokenKind::Id, s.subrange(i, e)), lex(s, e))
            } else {
                None
            }
        } else if c == '"' || c == '\'' {
            let e = quote_end(s, i + 1, c);
            if e > i && e < s.len() && s[e] == c {
                cons((TokenKind::Term, s.subrange(i, e + 1)), lex(s, e + 1))
            } else {
                None
            }
        } else if c == ':' {
            if i + 1 < s.len() && s[i + 1] == ':' {
                if i + 2 < s.len() && s[i + 2] == '=' {
                    cons((TokenKind::Equals, s.subrange(i, i + 3)), lex(s, i + 3))
                } else {
                    None
                }
            } else {
                cons((TokenKind::Equals, seq![':']), lex(s, i + 1))
            }
        } else if c == ';' || c == '.' {
            cons((TokenKind::End, seq![c]), lex(s, i + 1))
        } else if c == '|' {
            cons((TokenKind::Bar, seq!['|']), lex(s, i + 1))
        } else {
            None
        }
    }
}

/// The error that scanning `s` from position `i` meets first where `lex`
/// fails: `Some((expected, seen))` for an unexpected character (`'_'` where
/// no token can start), `None` where the text ends inside a token.
pub open spec fn lex_error(s: Seq<char>, i: int) -> Option<(char, char)>
    decreases s.len() - i,
{
    if i < 0 || i >= s.len() {
        None
    } else {
        let c = s[i];
        if white_space(c) {
            lex_error(s, i + 1)
        } else if c == '/' {
            if i + 1 < s.len() && s[i + 1] == '/' {
                let e = line_end(s, i + 2);
                if e >= s.len() {
                    None
                } else if e > i {
                    lex_error(s, e + 1)
                } else {
                    None
                }
            } else if i + 1 < s.len() {
                Some(('/', s[i + 1]))
            } else {
                None
            }
        } else if c == '_' || alphabetic(c) {
            let e = ident_end(s, i + 1);
            if i < e <= s.len() {
                lex_error(s, e)
            } else {
                None
            }
        } else if c == '"' || c == '\'' {
            let e = quote_end(s, i + 1, c);
            if e > i && e < s.len() && s[e] == c {
                lex_error(s, e + 1)
            } else if 0 <= e < s.len() {
                Some((c, s[e]))
            } else {
                None
            }
        } else if c == ':' {
            if i + 1 < s.len() && s[i + 1] == ':' {
                if i + 2 < s.len() && s[i + 2] == '=' {
                    lex_error(s, i + 3)
                } else if i + 2 < s.len() {
                    Some(('=', s[i + 2]))
                } else {
                    None
                }
            } else {
                lex_error(s, i + 1)
            }
        } else if c == ';' || c == '.' || c == '|' {
            lex_error(s, i + 1)
        } else {
            Some(('_', c))
        }
    }
}

/// The characters an error names: expected and seen, or none at the end of
/// the text.
pub open spec fn err_shape(e: ScanError) -> Option<(char, char)> {
    match e {
        ScanError::UnexpectedChar(x, y, _) => Some((x, y)),
        ScanError::NoMoreChars(_) => None,
    }
}

proof fn lemma_ident_end(s: Seq<char>, i: int)
    requires
        0 <= i <= s.len(),
    ensures
        i <= ident_end(s, i) <= s.len(),
        forall|j: int| i <= j < ident_end(s, i) ==> ident_char(#[trigger] s[j]),
    decreases s.len() - i,
{
    if i < s.len() && ident_char(s[i]) {
        lemma_ident_end(s, i + 1);
    }
}

proof fn lemma_quote_end(s: Seq<char>, i: int, q: char)
    requires
        0 <= i <= s.len(),
    ensures
        i <= quote_end(s, i, q) <= s.len(),
        forall|j: int| i <= j < quote_end(s, i, q) ==> #[trigger] s[j] != q && s[j] != '\n',
    decreases s.len() - i,
{
    if i < s.len() && s[i] != q && s[i] != '\n' {
        lemma_quote_end(s, i + 1, q);
    }
}

proof fn lemma_line_end(s: Seq<char>, i: int)
    requires
        0 <= i <= s.len(),
    ensures
        i <= line_end(s, i) <= s.len(),
    decreases s.len() - i,
{
    if i < s.len() && s[i] != '\n' {
        lemma_line_end(s, i + 1);
    }
}

/// Turns grammar text into tokens.
pub struct Scanner {
    pub file: Vec<char>,
    pub next_char: usize,
    pub seen_newlines: usize,
    pub line_start: usize,
}

impl Scanner {
    pub fn new(file: &str) -> (r: Scanner)
        ensures
            r.file@ == file@,
            r.next_char == 0,
            r.wf(),
    {
        let chars = chars_of(file);
        let _n = chars.len();
        Scanner { file: chars, next_char: 0, seen_newlines: 0, line_start: 0 }
    }

    pub open spec fn wf(&self) -> bool {
        &&& self.file@.len() <= usize::MAX
        &&& self.next_char <= self.file@.len()
        &&& self.line_start <= self.next_char
    }

    pub fn has_next(&self) -> (r: bool)
        ensures
            r == (self.next_char < self.file@.len()),
    {
        self.next_char < self.file.len()
    }

    /// Where the next character stands.
    pub fn index_to_coord(&self, index: usize) -> (r: Coord)
        requires
            self.line_start <= index,
    {
        let line_num = if self.seen_newlines < usize::MAX { self.seen_newlines + 1 } else { self.seen_newlines };
        let col = if index - self.line_start < usize::MAX { index - self.line_start + 1 } else { index - self.line_start };
        Coord { line_num, col }
    }

    /// The next character.
    pub fn current(&self) -> (r: Result<char, ScanError>)
        requires
            self.wf(),
        ensures
            self.next_char < self.file@.len() ==> r == Ok::<char, ScanError>(self.file@[self.next_char as int]),
            self.next_char >= self.file@.len() ==> r is Err,
    {
        if !self.has_next() {
            return Err(ScanError::NoMoreChars(self.index_to_coord(self.next_char)));
        }
        Ok(self.file[self.next_char])
    }

    /// Consumes the next character, which must be `expected`.
    pub fn match_char(&mut self, expected: char) -> (r: Result<(), ScanError>)
        requires
            old(self).wf(),
        ensures
            final(self).wf(),
            final(self).file == old(self).file,
            final(self).line_start == old(self).line_start,
            final(self).seen_newlines == old(self).seen_newlines,
            r is Ok <==> old(self).next_char < old(self).file@.len() && old(self).file@[old(self).next_char as int] == expected,
            r is Ok ==> final(self).next_char == old(self).next_char + 1,
            r is Err ==> final(self).next_char == old(self).next_char,
            match r {
                Err(e) => err_shape(e) == if old(self).next_char < old(self).file@.len() {
                    Some((expected, old(self).file@[old(self).next_char as int]))
                } else {
                    None::<(char, char)>
                },
                Ok(_) => true,
            },
    {
        if !self.has_next() {
            return Err(ScanError::NoMoreChars(self.index_to_coord(self.next_char)));
        }
        let c = self.file[self.next_char];
        if c != expected {
            return Err(ScanError::UnexpectedChar(expected, c, self.index_to_coord(self.next_char)));
        }
        self.next_char = self.next_char + 1;
        Ok(())
    }

    /// Skips a `//` comment up to and including the end of its line.
    pub fn comment(&mut self) -> (r: Result<(), ScanError>)
        requires
            old(self).wf(),
            old(self).next_char < old(self).file@.len(),
            old(self).file@[old(self).next_char as int] == '/',
        ensures
            final(self).wf(),
            final(self).file == old(self).file,
            final(self).next_char >= old(self).next_char,
            r is Ok <==> ({
                let s = old(self).file@;
                let i = old(self).next_char as int;
                i + 1 < s.len() && s[i + 1] == '/'
            }),
            r is Ok ==> final(self).next_char > old(self).next_char
                && lex(final(self).file@, final(self).next_char as int) == lex(old(self).file@, old(self).next_char as int)
                && lex_error(final(self).file@, final(self).next_char as int) == lex_error(old(self).file@, old(self).next_char as int),
            r is Err ==> lex(old(self).file@, old(self).next_char as int) is None,
            match r {
                Err(e) => err_shape(e) == lex_error(old(self).file@, old(self).next_char as int),
                Ok(_) => true,
            },
    {
        let ghost s = self.file@;
        let ghost i = self.next_char as int;
        self.match_char('/')?;
        self.match_char('/')?;
        proof {
            lemma_line_end(s, i + 2);
        }
        while self.has_next() && self.file[self.next_char] != '\n'
            invariant
                self.wf(),
                self.file == old(self).file,
                self.file@ == s,
                self.next_char >= i + 2,
                0 <= i,
                line_end(s, self.next_char as int) == line_end(s, i + 2),
            decreases self.file@.len() - self.next_char,
        {
            self.next_char = self.next_char + 1;
        }
        if self.has_next() {
            self.next_char = self.next_char + 1;
            self.seen_newlines = if self.seen_newlines < usize::MAX { self.seen_newlines + 1 } else { self.seen_newlines };
            self.line_start = self.next_char;
        }
        Ok(())
    }

    /// Skips white space, counting lines.
    pub fn whitespace(&mut self)
        requires
            old(self).wf(),
        ensures
            final(self).wf(),
            final(self).file == old(self).file,
            final(self).next_char >= old(self).next_char,
            old(self).next_char < old(self).file@.len() && white_space(old(self).file@[old(self).next_char as int])
                ==> final(self).next_char > old(self).next_char,
            lex(final(self).file@, final(self).next_char as int) == lex(old(self).file@, old(self).next_char as int),
            lex_error(final(self).file@, final(self).next_char as int) == lex_error(old(self).file@, old(self).next_char as int),
    {
        while self.has_next() && is_whitespace(self.file[self.next_char])
            invariant
                self.wf(),
                self.file == old(self).file,
                self.next_char >= old(self).next_char,
                old(self).next_char < old(self).file@.len() && white_space(old(self).file@[old(self).next_char as int])
                    && self.next_char == old(self).next_char ==> self.next_char < self.file@.len()
                    && white_space(self.file@[self.next_char as int]),
                lex(self.file@, self.next_char as int) == lex(old(self).file@, old(self).next_char as int),
                lex_error(self.file@, self.next_char as int) == lex_error(old(self).file@, old(self).next_char as int),
            decreases self.file@.len() - self.next_char,
        {
            let c = self.file[self.next_char];
            self.next_char = self.next_char + 1;
            if c == '\n' {
                self.seen_newlines = if self.seen_newlines < usize::MAX { self.seen_newlines + 1 } else { self.seen_newlines };
                self.line_start = self.next_char;
            }
        }
    }

    /// Consumes an identifier: `_` or a letter, then `_`, letters and digits.
    pub fn identifier(&mut self)
        requires
            old(self).wf(),
            old(self).next_char < old(self).file@.len(),
        ensures
            final(self).wf(),
            final(self).file == old(self).file,
            final(self).line_start == old(self).line_start,
            final(self).seen_newlines == old(self).seen_newlines,
            final(self).next_char > old(self).next_char,
            final(self).next_char == ident_end(old(self).file@, old(self).next_char + 1),
            forall|i: int| old(self).next_char < i < final(self).next_char ==> ident_char(#[trigger] final(self).file@[i]),
    {
        let ghost s = self.file@;
        let ghost start = self.next_char as int;
        self.next_char = self.next_char + 1;
        proof {
            lemma_ident_end(s, start + 1);
        }
        while self.has_next() && (self.file[self.next_char] == '_' || is_alphabetic(self.file[self.next_char])
            || ('0' <= self.file[self.next_char] && self.file[self.next_char] <= '9'))
            invariant
                self.wf(),
                self.file == old(self).file,
                s == self.file@,
                start == old(self).next_char,
                self.line_start == old(self).line_start,
                self.seen_newlines == old(self).seen_newlines,
                self.next_char > old(self).next_char,
                ident_end(s, self.next_char as int) == ident_end(s, start + 1),
                forall|i: int| old(self).next_char < i < self.next_char ==> ident_char(#[trigger] self.file@[i]),
            decreases self.file@.len() - self.next_char,
        {
            self.next_char = self.next_char + 1;
        }
    }

    /// Consumes a literal: a quote, characters other than it and newlines,
    /// and the same quote.
    pub fn literal(&mut self) -> (r: Result<(), ScanError>)
        requires
            old(self).wf(),
            old(self).next_char < old(self).file@.len(),
            old(self).file@[old(self).next_char as int] == '"' || old(self).file@[old(self).next_char as int] == '\'',
        ensures
            final(self).wf(),
            final(self).file == old(self).file,
            final(self).line_start == old(self).line_start,
            final(self).seen_newlines == old(self).seen_newlines,
            ({
                let s = old(self).file@;
                let i = old(self).next_char as int;
                let e = quote_end(s, i + 1, s[i]);
                &&& r is Ok <==> e < s.len() && s[e] == s[i]
                &&& r is Ok ==> final(self).next_char == e + 1
                &&& match r {
                    Err(er) => err_shape(er) == if e < s.len() { Some((s[i], s[e])) } else { None::<(char, char)> },
                    Ok(_) => true,
                }
            }),
            r is Ok ==> final(self).next_char >= old(self).next_char + 2 && final(self).file@[final(self).next_char - 1]
                == final(self).file@[old(self).next_char as int]
                && forall|i: int| old(self).next_char < i < final(self).next_char - 1 ==> #[trigger] final(self).file@[i]
                    != final(self).file@[old(self).next_char as int] && final(self).file@[i] != '\n',
    {
        let ghost s = self.file@;
        let ghost start = self.next_char as int;
        let quote = self.file[self.next_char];
        self.next_char = self.next_char + 1;
        proof {
            lemma_quote_end(s, start + 1, quote);
        }
        while self.has_next() && self.file[self.next_char] != quote && self.file[self.next_char] != '\n'
            invariant
                self.wf(),
                self.file == old(self).file,
                s == self.file@,
                start == old(self).next_char,
                self.line_start == old(self).line_start,
                self.seen_newlines == old(self).seen_newlines,
                quote == self.file@[old(self).next_char as int],
                self.next_char > old(self).next_char,
                quote_end(s, self.next_char as int, quote) == quote_end(s, start + 1, quote),
                forall|i: int| old(self).next_char < i < self.next_char ==> #[trigger] self.file@[i] != quote && self.file@[i] != '\n',
            decreases self.file@.len() - self.next_char,
        {
            self.next_char = self.next_char + 1;
        }
        if !self.has_next() {
            return Err(ScanError::NoMoreChars(self.index_to_coord(self.next_char)));
        }
        let c = self.file[self.next_char];
        if c != quote {
            return Err(ScanError::UnexpectedChar(quote, c, self.index_to_coord(self.next_char)));
        }
        self.next_char = self.next_char + 1;
        Ok(())
    }

    /// Splits the text into tokens, skipping white space and comments, and
    /// ends the list with an `EOF` token. Succeeds exactly when the text
    /// follows the format, and then gives the tokens that `lex` names.
    pub fn scan(&mut self) -> (r: Result<Vec<Token>, ScanError>)
        requires
            old(self).wf(),
        ensures
            match r {
                Ok(ts) => tokens_ok(ts@) && lex(old(self).file@, old(self).next_char as int) == Some(syms(ts@).drop_last()),
                Err(e) => lex(old(self).file@, old(self).next_char as int) is None
                    && err_shape(e) == lex_error(old(self).file@, old(self).next_char as int),
            },
    {
        let ghost s = self.file@;
        let ghost i0 = self.next_char as int;
        let mut tokens: Vec<Token> = Vec::new();
        proof {
            assert(syms(tokens@) =~= Seq::<Sym>::empty());
            if lex(s, i0) is Some {
                assert(Seq::<Sym>::empty() + lex(s, i0)->Some_0 =~= lex(s, i0)->Some_0);
            }
        }
        while self.has_next()
            invariant
                self.wf(),
                self.file@ == s,
                s == old(self).file@,
                i0 == old(self).next_char as int,
                lex(s, i0) is None ==> lex_error(s, i0) == lex_error(s, self.next_char as int),
                forall|i: int| 0 <= i < tokens@.len() ==> token_shape(#[trigger] tokens@[i]) && tokens@[i].kind != TokenKind::Eof,
                lex(s, i0) == match lex(s, self.next_char as int) {
                    Some(rest) => Some(syms(tokens@) + rest),
                    None => None::<Seq<Sym>>,
                },
            decreases self.file@.len() - self.next_char,
        {
            let start = self.next_char;
            let start_coord = self.index_to_coord(start);
            let c = self.file[start];
            let kind: TokenKind;
            if is_whitespace(c) {
                self.whitespace();
                continue;
            } else if c == '/' {
                match self.comment() {
                    Ok(()) => {},
                    Err(e) => {
                        proof {
                            assert(lex(s, start as int) is None);
                        }
                        return Err(e);
                    },
                }
                continue;
            } else if c == '_' || is_alphabetic(c) {
                self.identifier();
                proof {
                    lemma_ident_end(s, start + 1);
                }
                kind = TokenKind::Id;
            } else if c == '"' || c == '\'' {
                proof {
                    lemma_quote_end(s, start + 1, c);
                }
                match self.literal() {
                    Ok(()) => {},
                    Err(e) => {
                        proof {
                            assert(lex(s, start as int) is None);
                        }
                        return Err(e);
                    },
                }
                kind = TokenKind::Term;
            } else if c == ':' {
                let len = self.file.len();
                if start + 1 < len && self.file[start + 1] == ':' {
                    if start + 2 < len && self.file[start + 2] == '=' {
                        self.next_char = start + 3;
                    } else {
                        proof {
                            assert(lex(s, start as int) is None);
                        }
                        if start + 2 < len {
                            return Err(ScanError::UnexpectedChar('=', self.file[start + 2], self.index_to_coord(start + 2)));
                        }
                        return Err(ScanError::NoMoreChars(self.index_to_coord(len)));
                    }
                } else {
                    self.next_char = start + 1;
                }
                kind = TokenKind::Equals;
            } else if c == ';' || c == '.' || c == '|' {
                self.next_char = start + 1;
                kind = if c == '|' { TokenKind::Bar } else { TokenKind::End };
            } else {
                proof {
                    assert(lex(s, start as int) is None);
                }
                return Err(ScanError::UnexpectedChar('_', c, self.index_to_coord(start)));
            }
            let value = text_of(&self.file, start, self.next_char);
            let span = Span { start: start_coord, end: self.index_to_coord(self.next_char) };
            let tok = Token { kind, value, span };
            proof {
                let v = tok.value@;
                assert(v.len() == self.next_char - start);
                if kind == TokenKind::Id {
                    assert(v[0] == c);
                    assert forall|i: int| 1 <= i < v.len() implies ident_char(#[trigger] v[i]) by {
                        assert(v[i] == self.file@[start + i]);
                    }
                } else if kind == TokenKind::Term {
                    assert(v[0] == c);
                    assert(v.last() == self.file@[self.next_char - 1]);
                    assert forall|i: int| 1 <= i < v.len() - 1 implies #[trigger] v[i] != v[0] && v[i] != '\n' by {
                        assert(v[i] == self.file@[start + i]);
                    }
                } else if kind == TokenKind::Equals {
                    if v.len() == 1 {
                        assert(v =~= seq![':']);
                    } else {
                        assert(v =~= seq![':', ':', '=']);
                    }
                } else if kind == TokenKind::Bar {
                    assert(v =~= seq!['|']);
                } else {
                    if c == ';' {
                        assert(v =~= seq![';']);
                    } else {
                        assert(v =~= seq!['.']);
                    }
                }
                assert(lex(s, start as int) == cons(sym(tok), lex(s, self.next_char as int)));
                assert(lex_error(s, start as int) == lex_error(s, self.next_char as int));
            }
            let ghost before = tokens@;
            tokens.push(tok);
            proof {
                assert(syms(tokens@) =~= syms(before).push(sym(tok)));
                if lex(s, self.next_char as int) is Some {
                    let rest = lex(s, self.next_char as int)->Some_0;
                    assert(syms(before) + (seq![sym(tok)] + rest) =~= syms(tokens@) + rest);
                }
            }
        }
        let end = self.index_to_coord(self.next_char);
        let eof = Token { kind: TokenKind::Eof, value: String::new(), span: Span { start: end, end } };
        let ghost before = tokens@;
        tokens.push(eof);
        proof {
            assert forall|i: int| 0 <= i < tokens@.len() implies token_shape(#[trigger] tokens@[i]) by {
                if i < before.len() {
                    assert(tokens@[i] == before[i]);
                }
            }
            assert forall|i: int| 0 <= i < tokens@.len() - 1 implies (#[trigger] tokens@[i]).kind != TokenKind::Eof by {
                assert(tokens@[i] == before[i]);
            }
            assert(syms(tokens@).drop_last() =~= syms(before));
            assert(syms(before) + Seq::<Sym>::empty() =~= syms(before));
        }
        Ok(tokens)
    }
}

} // verus!
