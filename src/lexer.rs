use vstd::prelude::*;

use crate::literal::{int_of, is_float_literal, is_float_text, parse_int};
use crate::text::{chars_of, lower_of, lowercase, same_text, string_of};

verus! {

/// A word of the query text, as the lexer cut it out.
#[derive(Debug)]
pub struct Token {
    pub word: String,
    pub kind: TokenKind,
    pub line: usize,
    pub col: usize,
}

/// What a word of the query is: a keyword, a literal, or an unknown word.
#[derive(Debug, Clone, Copy, PartialEq, Eq, Structural)]
pub enum TokenKind {
    Plus,
    Minus,
    SetField,
    Select,
    SelectAll,
    Filter,
    Drop,
    Id,
    Int,
    Float,
    String,
    Word,
    Range,
    It,
    Do,
    End,
}

/// The mathematical form of a `Token`.
pub struct TokenView {
    pub word: Seq<char>,
    pub kind: TokenKind,
    pub line: int,
    pub col: int,
}

impl View for Token {
    type V = TokenView;

    open spec fn view(&self) -> TokenView {
        TokenView { word: self.word@, kind: self.kind, line: self.line as int, col: self.col as int }
    }
}

/// The views of a list of tokens.
pub open spec fn tokens_view(t: Seq<Token>) -> Seq<TokenView> {
    t.map_values(|k: Token| k@)
}

/// How many times `c` occurs in `w`.
pub open spec fn count_of(w: Seq<char>, c: char) -> nat
    decreases w.len(),
{
    if w.len() == 0 {
        0
    } else {
        count_of(w.drop_last(), c) + if w.last() == c {
            1nat
        } else {
            0nat
        }
    }
}

/// The kind of a word that is already in lower case: a keyword, a quoted string,
/// an integer, a float, an identity `@table:row` (exactly one `:`), or else a plain word.
pub open spec fn word_kind(w: Seq<char>) -> TokenKind {
    if w == "+"@ {
        TokenKind::Plus
    } else if w == "-"@ {
        TokenKind::Minus
    } else if w == "set"@ {
        TokenKind::SetField
    } else if w == "select"@ {
        TokenKind::Select
    } else if w == "select_all"@ {
        TokenKind::SelectAll
    } else if w == "filter"@ {
        TokenKind::Filter
    } else if w == "drop"@ {
        TokenKind::Drop
    } else if w == "range"@ {
        TokenKind::Range
    } else if w == "it"@ {
        TokenKind::It
    } else if w == "do"@ {
        TokenKind::Do
    } else if w == "end"@ {
        TokenKind::End
    } else if w.len() > 0 && w[0] == '"' && w.last() == '"' {
        TokenKind::String
    } else if int_of(w) is Some {
        TokenKind::Int
    } else if is_float_text(w) {
        TokenKind::Float
    } else if w.len() > 0 && w[0] == '@' && count_of(w, ':') == 1 {
        TokenKind::Id
    } else {
        TokenKind::Word
    }
}

pub(crate) fn count_char(w: &Vec<char>, c: char) -> (r: usize)
    ensures
        r == count_of(w@, c),
{
    let mut n: usize = 0;
    let mut i: usize = 0;
    while i < w.len()
        invariant
            i <= w@.len(),
            n <= i,
            n == count_of(w@.subrange(0, i as int), c),
        decreases w@.len() - i,
    {
        assert(w@.subrange(0, i + 1).drop_last() =~= w@.subrange(0, i as int));
        if w[i] == c {
            n = n + 1;
        }
        i = i + 1;
    }
    assert(w@.subrange(0, i as int) =~= w@);
    n
}

/// Classifies a word that is already in lower case.
pub fn kind_of_lowered(word: &str) -> (r: TokenKind)
    ensures
        r == word_kind(word@),
{
    if same_text(word, "+") {
        TokenKind::Plus
    } else if same_text(word, "-") {
        TokenKind::Minus
    } else if same_text(word, "set") {
        TokenKind::SetField
    } else if same_text(word, "select") {
        TokenKind::Select
    } else if same_text(word, "select_all") {
        TokenKind::SelectAll
    } else if same_text(word, "filter") {
        TokenKind::Filter
    } else if same_text(word, "drop") {
        TokenKind::Drop
    } else if same_text(word, "range") {
        TokenKind::Range
    } else if same_text(word, "it") {
        TokenKind::It
    } else if same_text(word, "do") {
        TokenKind::Do
    } else if same_text(word, "end") {
        TokenKind::End
    } else {
        let w = chars_of(word);
        let n = w.len();
        if n > 0 && w[0] == '"' && w[n - 1] == '"' {
            TokenKind::String
        } else if parse_int(&w).is_some() {
            TokenKind::Int
        } else if is_float_literal(&w) {
            TokenKind::Float
        } else if n > 0 && w[0] == '@' && count_char(&w, ':') == 1 {
            TokenKind::Id
        } else {
            TokenKind::Word
        }
    }
}

/// Classifies a word, ignoring case.
pub fn match_token_kind(word: &str) -> (r: TokenKind)
    ensures
        r == word_kind(lower_of(word@)),
{
    let lowered = lowercase(word);
    kind_of_lowered(lowered.as_str())
}

/// Whether a character has the Unicode White_Space property, as
/// `char::is_whitespace` says.
pub open spec fn is_white_space(c: char) -> bool {
    ||| '\u{9}' <= c && c <= '\u{d}'
    ||| c == ' '
    ||| c == '\u{85}'
    ||| c == '\u{a0}'
    ||| c == '\u{1680}'
    ||| '\u{2000}' <= c && c <= '\u{200a}'
    ||| c == '\u{2028}'
    ||| c == '\u{2029}'
    ||| c == '\u{202f}'
    ||| c == '\u{205f}'
    ||| c == '\u{3000}'
}

fn white_space(c: char) -> (r: bool)
    ensures
        r == is_white_space(c),
{
    ('\u{9}' <= c && c <= '\u{d}') || c == ' ' || c == '\u{85}' || c == '\u{a0}' || c == '\u{1680}'
        || ('\u{2000}' <= c && c <= '\u{200a}') || c == '\u{2028}' || c == '\u{2029}' || c
        == '\u{202f}' || c == '\u{205f}' || c == '\u{3000}'
}

/// Text without its leading white space.
pub open spec fn trim_start(w: Seq<char>) -> Seq<char>
    decreases w.len(),
{
    if w.len() > 0 && is_white_space(w[0]) {
        trim_start(w.drop_first())
    } else {
        w
    }
}

/// Text without its trailing white space.
pub open spec fn trim_end(w: Seq<char>) -> Seq<char>
    decreases w.len(),
{
    if w.len() > 0 && is_white_space(w.last()) {
        trim_end(w.drop_last())
    } else {
        w
    }
}

/// Text without white space at either end, as `str::trim` gives it.
pub open spec fn trim(w: Seq<char>) -> Seq<char> {
    trim_end(trim_start(w))
}

/// Where the trimmed text starts and ends within `w`.
fn trim_bounds(w: &Vec<char>) -> (r: (usize, usize))
    ensures
        r.0 <= r.1 <= w@.len(),
        w@.subrange(r.0 as int, r.1 as int) == trim(w@),
{
    let n = w.len();
    let mut a: usize = 0;
    assert(w@.subrange(0, n as int) =~= w@);
    while a < n && white_space(w[a])
        invariant
            a <= n,
            n == w@.len(),
            trim_start(w@) == trim_start(w@.subrange(a as int, n as int)),
        decreases n - a,
    {
        assert(w@.subrange(a as int, n as int).drop_first() =~= w@.subrange(a + 1, n as int));
        a = a + 1;
    }
    let ghost v = w@.subrange(a as int, n as int);
    assert(trim_start(w@) == v);
    let mut b: usize = n;
    assert(w@.subrange(a as int, b as int) =~= v);
    while b > a && white_space(w[b - 1])
        invariant
            a <= b <= n,
            n == w@.len(),
            trim_end(v) == trim_end(w@.subrange(a as int, b as int)),
        decreases b - a,
    {
        assert(w@.subrange(a as int, b as int).drop_last() =~= w@.subrange(a as int, b - 1));
        b = b - 1;
    }
    (a, b)
}

/// The lexer's state between two characters.
pub struct LexState {
    pub tokens: Seq<TokenView>,
    pub word: Seq<char>,
    pub line: int,
    pub col: int,
    pub in_str: bool,
    pub in_comment: bool,
}

/// The state before the first character.
pub open spec fn lex_start() -> LexState {
    LexState { tokens: Seq::empty(), word: Seq::empty(), line: 1, col: 1, in_str: false, in_comment: false }
}

/// Ends the current word: unless it is blank, it becomes a token at the current
/// position and the word starts anew. A blank word is kept as it is.
pub open spec fn flush(st: LexState) -> LexState {
    let w = trim(st.word);
    if w.len() == 0 {
        st
    } else {
        LexState {
            tokens: st.tokens.push(
                TokenView { word: w, kind: word_kind(lower_of(w)), line: st.line, col: st.col },
            ),
            word: Seq::empty(),
            ..st
        }
    }
}

/// One character of input. A space, carriage return or newline ends the word
/// outside quotes, and a newline also ends a comment; `#` starts a comment; `"`
/// outside a comment toggles quoting. Every character outside a comment joins the word.
pub open spec fn lex_step(st: LexState, ch: char) -> LexState {
    let s1 = if ch == ' ' || ch == '\n' || ch == '\r' {
        let f = if !st.in_str {
            flush(st)
        } else {
            st
        };
        if ch == '\n' {
            LexState { in_comment: false, line: f.line + 1, col: 0, ..f }
        } else {
            f
        }
    } else if ch == '#' {
        LexState { in_comment: true, ..st }
    } else if ch == '"' && !st.in_comment {
        LexState { in_str: !st.in_str, ..st }
    } else {
        st
    };
    if !s1.in_comment {
        LexState { word: s1.word.push(ch), col: s1.col + 1, ..s1 }
    } else {
        s1
    }
}

/// The state after the given characters.
pub open spec fn lex_prefix(s: Seq<char>) -> LexState
    decreases s.len(),
{
    if s.len() == 0 {
        lex_start()
    } else {
        lex_step(lex_prefix(s.drop_last()), s.last())
    }
}

/// The tokens of a text.
pub open spec fn lex(s: Seq<char>) -> Seq<TokenView> {
    flush(lex_prefix(s)).tokens
}

fn flush_token(tokens: &mut Vec<Token>, word: &mut Vec<char>, line: usize, col: usize)
    ensures
        ({
            let st = LexState {
                tokens: tokens_view(old(tokens)@),
                word: old(word)@,
                line: line as int,
                col: col as int,
                in_str: false,
                in_comment: false,
            };
            &&& tokens_view(final(tokens)@) == flush(st).tokens
            &&& final(word)@ == flush(st).word
        }),
{
    let (a, b) = trim_bounds(word);
    if a == b {
        return;
    }
    let w = string_of(word, a, b);
    let kind = match_token_kind(w.as_str());
    let ghost before = tokens@;
    tokens.push(Token { word: w, kind, line, col });
    assert(tokens_view(tokens@) =~= tokens_view(before).push(tokens@.last()@));
    word.clear();
}

/// Cuts text into tokens. A `#` starts a comment that runs to the end of the
/// line; double quotes keep spaces inside one token. Lexing never fails.
pub fn tokenize(contents: String) -> (r: Result<Vec<Token>, String>)
    requires
        contents@.len() < usize::MAX,
    ensures
        r matches Ok(t) && tokens_view(t@) == lex(contents@),
{
    let chars = chars_of(contents.as_str());
    let mut tokens: Vec<Token> = Vec::new();
    let mut word: Vec<char> = Vec::new();
    let mut line: usize = 1;
    let mut col: usize = 1;
    let mut is_str = false;
    let mut is_comment = false;
    let mut i: usize = 0;
    assert(tokens_view(tokens@) =~= Seq::<TokenView>::empty());
    assert(chars@.subrange(0, 0) =~= Seq::<char>::empty());
    while i < chars.len()
        invariant
            i <= chars@.len(),
            chars@ == contents@,
            chars@.len() < usize::MAX,
            line <= i + 1,
            col <= i + 1,
            lex_prefix(chars@.subrange(0, i as int)) == (LexState {
                tokens: tokens_view(tokens@),
                word: word@,
                line: line as int,
                col: col as int,
                in_str: is_str,
                in_comment: is_comment,
            }),
        decreases chars@.len() - i,
    {
        let ch = chars[i];
        assert(chars@.subrange(0, i + 1).drop_last() =~= chars@.subrange(0, i as int));
        if ch == ' ' || ch == '\n' || ch == '\r' {
            if !is_str {
                flush_token(&mut tokens, &mut word, line, col);
            }
            if ch == '\n' {
                is_comment = false;
                line = line + 1;
                col = 0;
            }
        } else if ch == '#' {
            is_comment = true;
        } else if ch == '"' && !is_comment {
            is_str = !is_str;
        }
        if !is_comment {
            word.push(ch);
            col = col + 1;
        }
        i = i + 1;
    }
    assert(chars@.subrange(0, i as int) =~= contents@);
    flush_token(&mut tokens, &mut word, line, col);
    Ok(tokens)
}

} // verus!
