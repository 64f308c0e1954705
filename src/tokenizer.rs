use vstd::prelude::*;
use vstd::string::*;

use crate::error::Error;
use crate::value::spells;

verus! {

/// Whether a non-ASCII character has Unicode's White_Space property.
pub uninterp spec fn unicode_white_space(c: char) -> bool;

/// Whether a non-ASCII character has Unicode's Alphabetic property.
pub uninterp spec fn unicode_alphabetic(c: char) -> bool;

/// Whether a non-ASCII character is alphabetic or numeric in Unicode.
pub uninterp spec fn unicode_alphanumeric(c: char) -> bool;

/// Whether `char::is_whitespace` holds of a character: in ASCII the space
/// and the tab through carriage return.
pub open spec fn whitespace_of(c: char) -> bool {
    if (c as u32) < 128 {
        c == ' ' || ('\t' <= c && c <= '\r')
    } else {
        unicode_white_space(c)
    }
}

/// Whether `char::is_alphabetic` holds of a character: in ASCII the
/// letters.
pub open spec fn alphabetic_of(c: char) -> bool {
    if (c as u32) < 128 {
        ('a' <= c && c <= 'z') || ('A' <= c && c <= 'Z')
    } else {
        unicode_alphabetic(c)
    }
}

/// Whether `char::is_alphanumeric` holds of a character: in ASCII the
/// letters and digits.
pub open spec fn alphanumeric_of(c: char) -> bool {
    if (c as u32) < 128 {
        ('a' <= c && c <= 'z') || ('A' <= c && c <= 'Z') || ('0' <= c && c <= '9')
    } else {
        unicode_alphanumeric(c)
    }
}

/// Relies on char::is_whitespace: the White_Space property, which in ASCII
/// holds of the space and of tab through carriage return.
#[verifier::external_body]
fn is_space(c: char) -> (r: bool)
    ensures
        r == whitespace_of(c),
        (c as u32) >= 128 ==> r == unicode_white_space(c),
{
    c.is_whitespace()
}

/// Relies on char::is_alphabetic: the Alphabetic property, which in ASCII
/// holds of the letters.
#[verifier::external_body]
fn is_letter(c: char) -> (r: bool)
    ensures
        r == alphabetic_of(c),
        (c as u32) >= 128 ==> r == unicode_alphabetic(c),
{
    c.is_alphabetic()
}

/// Relies on char::is_alphanumeric: alphabetic or numeric, which in ASCII
/// holds of the letters and digits.
#[verifier::external_body]
fn is_letter_or_digit(c: char) -> (r: bool)
    ensures
        r == alphanumeric_of(c),
        (c as u32) >= 128 ==> r == unicode_alphanumeric(c),
{
    c.is_alphanumeric()
}

/// An ASCII decimal digit.
pub open spec fn is_digit(c: char) -> bool {
    '0' <= c && c <= '9'
}

/// A character that may start a bare word.
pub open spec fn starts_word(c: char) -> bool {
    alphabetic_of(c) || c == '_' || c == '-' || c == '+' || c == '.' || c == ','
        || c == '/' || c == '\\'
}

/// The kinds of maximal runs that the tokenizer scans.
#[derive(Clone, Copy)]
pub enum Run {
    /// Digits and dots: the body of a number.
    Digits,
    /// Letters, digits and underscores: the rest of a bare word.
    Word,
    /// Anything up to a newline: the body of a comment.
    Line,
    /// Anything up to a double quote: the body of a quoted string.
    Quoted,
}

/// Whether a run of the given kind goes on over `c`.
pub open spec fn continues(run: Run, c: char) -> bool {
    match run {
        Run::Digits => is_digit(c) || c == '.',
        Run::Word => alphanumeric_of(c) || c == '_',
        Run::Line => c != '\n',
        Run::Quoted => c != '"',
    }
}

/// Where the maximal run of kind `run` that starts at `i` ends.
pub open spec fn run_end(s: Seq<char>, i: int, run: Run) -> int
    decreases s.len() - i,
{
    if 0 <= i < s.len() && continues(run, s[i]) {
        run_end(s, i + 1, run)
    } else {
        i
    }
}

/// The first position at or after `i` that holds no whitespace.
pub open spec fn skip_ws(s: Seq<char>, i: int) -> int
    decreases s.len() - i,
{
    if 0 <= i < s.len() && whitespace_of(s[i]) {
        skip_ws(s, i + 1)
    } else {
        i
    }
}

/// The mathematical form of a [`Token`].
pub enum Lexeme {
    OpenBracket,
    CloseBracket,
    OpenBrace,
    CloseBrace,
    Colon,
    Text(Seq<char>),
    Number(Seq<char>),
    Flag(bool),
    At,
    Comment,
    Eof,
}

/// What lexing one token from a position gives: the token and the position
/// after it, or the character that starts no token.
pub enum Lexed {
    Tok(Lexeme, int),
    Bad(char),
}

/// The token of a bare word.
pub open spec fn word_lexeme(w: Seq<char>) -> Lexeme {
    if w == "true"@ {
        Lexeme::Flag(true)
    } else if w == "false"@ {
        Lexeme::Flag(false)
    } else {
        Lexeme::Text(w)
    }
}

/// The token that starts at `i`, which holds the character `c`.
pub open spec fn lex_at(s: Seq<char>, i: int, c: char) -> Lexed {
    if c == '[' {
        Lexed::Tok(Lexeme::OpenBracket, i + 1)
    } else if c == ']' {
        Lexed::Tok(Lexeme::CloseBracket, i + 1)
    } else if c == '{' {
        Lexed::Tok(Lexeme::OpenBrace, i + 1)
    } else if c == '}' {
        Lexed::Tok(Lexeme::CloseBrace, i + 1)
    } else if c == ':' {
        Lexed::Tok(Lexeme::Colon, i + 1)
    } else if c == '@' {
        Lexed::Tok(Lexeme::At, i + 1)
    } else if c == '#' {
        Lexed::Tok(Lexeme::Comment, run_end(s, i + 1, Run::Line))
    } else if c == '"' {
        let e = run_end(s, i + 1, Run::Quoted);
        Lexed::Tok(Lexeme::Text(s.subrange(i + 1, e)), if e < s.len() { e + 1 } else { e })
    } else if is_digit(c) {
        let e = run_end(s, i, Run::Digits);
        Lexed::Tok(Lexeme::Number(s.subrange(i, e)), e)
    } else if starts_word(c) {
        let e = run_end(s, i + 1, Run::Word);
        Lexed::Tok(word_lexeme(s.subrange(i, e)), e)
    } else {
        Lexed::Bad(c)
    }
}

/// The token that the text `s` holds from position `p` on, after whitespace.
pub open spec fn lex(s: Seq<char>, p: int) -> Lexed {
    let i = skip_ws(s, p);
    if i >= s.len() {
        Lexed::Tok(Lexeme::Eof, i)
    } else {
        lex_at(s, i, s[i])
    }
}

pub proof fn lemma_run_end_bounds(s: Seq<char>, i: int, run: Run)
    requires
        0 <= i <= s.len(),
    ensures
        i <= run_end(s, i, run) <= s.len(),
    decreases s.len() - i,
{
    if i < s.len() && continues(run, s[i]) {
        lemma_run_end_bounds(s, i + 1, run);
    }
}

pub proof fn lemma_skip_ws_bounds(s: Seq<char>, i: int)
    requires
        0 <= i <= s.len(),
    ensures
        i <= skip_ws(s, i) <= s.len(),
    decreases s.len() - i,
{
    if i < s.len() && whitespace_of(s[i]) {
        lemma_skip_ws_bounds(s, i + 1);
    }
}

/// Every token but the end of input moves past the position it is lexed
/// from, and no token moves past the end.
pub proof fn lemma_lex_progress(s: Seq<char>, p: int)
    requires
        0 <= p <= s.len(),
    ensures
        match lex(s, p) {
            Lexed::Tok(t, e) => p <= e <= s.len() && (t is Eof <==> skip_ws(s, p) == s.len()) && (
            t is Eof ==> e == s.len()) && (!(t is Eof) ==> p < e),
            Lexed::Bad(_) => true,
        },
{
    lemma_skip_ws_bounds(s, p);
    let i = skip_ws(s, p);
    if i < s.len() {
        lemma_run_end_bounds(s, i + 1, Run::Line);
        lemma_run_end_bounds(s, i + 1, Run::Quoted);
        lemma_run_end_bounds(s, i, Run::Digits);
        lemma_run_end_bounds(s, i + 1, Run::Word);
        if is_digit(s[i]) {
            assert(continues(Run::Digits, s[i]));
            lemma_run_end_bounds(s, i + 1, Run::Digits);
            assert(run_end(s, i, Run::Digits) == run_end(s, i + 1, Run::Digits));
        }
        assert(lex(s, p) == lex_at(s, i, s[i]));
    } else {
        assert(lex(s, p) == Lexed::Tok(Lexeme::Eof, i));
    }
}

/// Every character of a run lies in it.
pub proof fn lemma_run_chars(s: Seq<char>, i: int, run: Run)
    requires
        0 <= i <= s.len(),
    ensures
        forall|j: int| i <= j < run_end(s, i, run) ==> continues(run, #[trigger] s[j]),
    decreases s.len() - i,
{
    if i < s.len() && continues(run, s[i]) {
        lemma_run_chars(s, i + 1, run);
    }
}

/// A number token holds only digits and dots.
pub proof fn lemma_number_chars(s: Seq<char>, p: int)
    requires
        0 <= p <= s.len(),
    ensures
        match lex(s, p) {
            Lexed::Tok(Lexeme::Number(t), _) => forall|j: int|
                0 <= j < t.len() ==> ('0' <= #[trigger] t[j] <= '9' || t[j] == '.'),
            _ => true,
        },
{
    lemma_skip_ws_bounds(s, p);
    let i = skip_ws(s, p);
    if i < s.len() {
        lemma_run_chars(s, i, Run::Digits);
        lemma_run_end_bounds(s, i, Run::Digits);
        let e = run_end(s, i, Run::Digits);
        let t = s.subrange(i, e);
        assert forall|j: int| 0 <= j < t.len() implies ('0' <= #[trigger] t[j] <= '9' || t[j]
            == '.') by {
            assert(t[j] == s[i + j]);
        }
    }
}

/// A quote that is never closed runs to the end of the input: its token is
/// the string of everything after it, not a failure.
pub proof fn lemma_unterminated_quote(body: Seq<char>)
    requires
        forall|j: int| 0 <= j < body.len() ==> #[trigger] body[j] != '"',
    ensures
        lex(seq!['"'] + body, 0) == Lexed::Tok(Lexeme::Text(body), body.len() + 1int),
{
    let s = seq!['"'] + body;
    assert(s[0] == '"');
    assert(skip_ws(s, 0) == 0);
    lemma_quoted_to_end(s, 1);
    assert(s.subrange(1, s.len() as int) =~= body);
}

proof fn lemma_quoted_to_end(s: Seq<char>, i: int)
    requires
        1 <= i <= s.len(),
        forall|j: int| 1 <= j < s.len() ==> #[trigger] s[j] != '"',
    ensures
        run_end(s, i, Run::Quoted) == s.len(),
    decreases s.len() - i,
{
    if i < s.len() {
        lemma_quoted_to_end(s, i + 1);
    }
}

/// One unit of Dent text, borrowing its text from the input.
#[derive(Clone, Copy, Debug, PartialEq)]
pub enum Token<'s> {
    OpenBracket,
    CloseBracket,
    OpenBrace,
    CloseBrace,
    Colon,
    String(&'s str),
    Number(&'s str),
    Bool(bool),
    At,
    Comment,
    Eof,
}

/// The name that errors give for each kind of token.
pub open spec fn lexeme_name(t: Lexeme) -> Seq<char> {
    match t {
        Lexeme::OpenBracket => "BRACKET_OPEN"@,
        Lexeme::CloseBracket => "BRACKET_CLOSE"@,
        Lexeme::OpenBrace => "BRACE_OPEN"@,
        Lexeme::CloseBrace => "BRACE_CLOSE"@,
        Lexeme::Colon => "COLON"@,
        Lexeme::Text(_) => "STRING"@,
        Lexeme::Number(_) => "NUMBER"@,
        Lexeme::Flag(_) => "BOOL"@,
        Lexeme::Comment => "COMMENT"@,
        Lexeme::At => "AT"@,
        Lexeme::Eof => "EOF"@,
    }
}

impl<'s> View for Token<'s> {
    type V = Lexeme;

    open spec fn view(&self) -> Lexeme {
        match self {
            Token::OpenBracket => Lexeme::OpenBracket,
            Token::CloseBracket => Lexeme::CloseBracket,
            Token::OpenBrace => Lexeme::OpenBrace,
            Token::CloseBrace => Lexeme::CloseBrace,
            Token::Colon => Lexeme::Colon,
            Token::String(s) => Lexeme::Text(s@),
            Token::Number(s) => Lexeme::Number(s@),
            Token::Bool(b) => Lexeme::Flag(*b),
            Token::At => Lexeme::At,
            Token::Comment => Lexeme::Comment,
            Token::Eof => Lexeme::Eof,
        }
    }
}

impl<'s> Token<'s> {
    /// The name of this token's kind, as errors report it.
    pub fn kind_name(&self) -> (r: String)
        ensures
            r@ == lexeme_name(self@),
    {
        let name: &str = match self {
            Token::OpenBracket => "BRACKET_OPEN",
            Token::CloseBracket => "BRACKET_CLOSE",
            Token::OpenBrace => "BRACE_OPEN",
            Token::CloseBrace => "BRACE_CLOSE",
            Token::Colon => "COLON",
            Token::String(_) => "STRING",
            Token::Number(_) => "NUMBER",
            Token::Bool(_) => "BOOL",
            Token::Comment => "COMMENT",
            Token::At => "AT",
            Token::Eof => "EOF",
        };
        String::from_str(name)
    }
}

impl Run {
    /// Whether a run of this kind goes on over `c`.
    fn admits(self, c: char) -> (r: bool)
        ensures
            r == continues(self, c),
    {
        match self {
            Run::Digits => ('0' <= c && c <= '9') || c == '.',
            Run::Word => is_letter_or_digit(c) || c == '_',
            Run::Line => c != '\n',
            Run::Quoted => c != '"',
        }
    }
}

/// Splits Dent text into tokens, one at a time.
///
/// It keeps the input and a position in it, counted in characters.
pub struct Tokenizer<'s> {
    input: &'s str,
    len: usize,
    pos: usize,
}

impl<'s> Tokenizer<'s> {
    /// The text being split.
    pub closed spec fn text(&self) -> Seq<char> {
        self.input@
    }

    /// The position of the next character to read.
    pub closed spec fn pos(&self) -> int {
        self.pos as int
    }

    /// The position lies within the text.
    pub closed spec fn wf(&self) -> bool {
        self.len as int == self.input@.len() && self.pos <= self.len
    }

    /// A well-formed tokenizer stands within its text.
    pub proof fn lemma_pos_in_text(&self)
        requires
            self.wf(),
        ensures
            0 <= self.pos() <= self.text().len(),
    {
    }

    /// A tokenizer at the start of `input`.
    pub fn new(input: &'s str) -> (r: Tokenizer<'s>)
        ensures
            r.wf(),
            r.text() == input@,
            r.pos() == 0,
    {
        let len = input.unicode_len();
        Tokenizer { input, len, pos: 0 }
    }

    fn skip_whitespace(&mut self)
        requires
            old(self).wf(),
        ensures
            final(self).wf(),
            final(self).input == old(self).input,
            final(self).pos() == skip_ws(old(self).text(), old(self).pos()),
    {
        while self.pos < self.len && is_space(self.input.get_char(self.pos))
            invariant
                self.wf(),
                self.input == old(self).input,
                skip_ws(self.text(), self.pos()) == skip_ws(old(self).text(), old(self).pos()),
            decreases self.len - self.pos,
        {
            self.next_char();
        }
    }

    fn next_char(&mut self)
        requires
            old(self).wf(),
            old(self).pos < old(self).len,
        ensures
            final(self).wf(),
            final(self).input == old(self).input,
            final(self).pos == old(self).pos + 1,
    {
        self.pos = self.pos + 1;
    }

    fn scan(&mut self, run: Run)
        requires
            old(self).wf(),
        ensures
            final(self).wf(),
            final(self).input == old(self).input,
            final(self).pos() == run_end(old(self).text(), old(self).pos(), run),
    {
        while self.pos < self.len && run.admits(self.input.get_char(self.pos))
            invariant
                self.wf(),
                self.input == old(self).input,
                run_end(self.text(), self.pos(), run) == run_end(
                    old(self).text(),
                    old(self).pos(),
                    run,
                ),
            decreases self.len - self.pos,
        {
            self.next_char();
        }
    }

    /// Reads the next token, skipping whitespace before it.
    ///
    /// Once the input is used up this returns `Eof`, as often as it is
    /// called.
    pub fn next(&mut self) -> (r: Result<Token<'s>, Error>)
        requires
            old(self).wf(),
        ensures
            final(self).wf(),
            final(self).text() == old(self).text(),
            match lex(old(self).text(), old(self).pos()) {
                Lexed::Tok(t, e) => r is Ok && r->Ok_0@ == t && final(self).pos() == e,
                Lexed::Bad(c) => r is Err && r->Err_0 == Error::UnexpectedChar(c),
            },
    {
        self.skip_whitespace();
        if self.pos >= self.len {
            return Ok(Token::Eof);
        }
        let i = self.pos;
        let c = self.input.get_char(i);
        proof {
            lemma_run_end_bounds(self.text(), i + 1, Run::Line);
        }
        if c == '[' {
            self.next_char();
            Ok(Token::OpenBracket)
        } else if c == ']' {
            self.next_char();
            Ok(Token::CloseBracket)
        } else if c == '{' {
            self.next_char();
            Ok(Token::OpenBrace)
        } else if c == '}' {
            self.next_char();
            Ok(Token::CloseBrace)
        } else if c == ':' {
            self.next_char();
            Ok(Token::Colon)
        } else if c == '@' {
            self.next_char();
            Ok(Token::At)
        } else if c == '#' {
            self.next_char();
            self.scan(Run::Line);
            Ok(Token::Comment)
        } else if c == '"' {
            self.next_char();
            let start = self.pos;
            self.scan(Run::Quoted);
            let end = self.pos;
            if self.pos < self.len {
                self.next_char();
            }
            proof {
                lemma_run_end_bounds(self.text(), i + 1, Run::Quoted);
            }
            Ok(Token::String(self.input.substring_char(start, end)))
        } else if '0' <= c && c <= '9' {
            self.scan(Run::Digits);
            proof {
                lemma_run_end_bounds(self.text(), i as int, Run::Digits);
            }
            Ok(Token::Number(self.input.substring_char(i, self.pos)))
        } else if is_letter(c) || c == '_' || c == '-' || c == '+' || c == '.' || c == ','
            || c == '/' || c == '\\' {
            self.next_char();
            self.scan(Run::Word);
            proof {
                lemma_run_end_bounds(self.text(), i + 1, Run::Word);
            }
            let w = self.input.substring_char(i, self.pos);
            if spells(w, "true") {
                Ok(Token::Bool(true))
            } else if spells(w, "false") {
                Ok(Token::Bool(false))
            } else {
                Ok(Token::String(w))
            }
        } else {
            Err(Error::UnexpectedChar(c))
        }
    }
}

} // verus!
