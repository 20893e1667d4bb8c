use vstd::prelude::*;

use crate::diagnostic::{error_view, Diagnostic, DiagnosticBuilder, DiagnosticView, XynError};
use crate::token::{Token, TokenLocation, TokenTag, Tokens};

verus! {

/// What can go wrong while splitting source text into tokens.
#[derive(Debug, PartialEq, Eq, Clone, Copy, Structural)]
pub enum LexerError {
    UnknownChar,
    UnclosedString,
    UnclosedMultiLineComment,
}

impl XynError for LexerError {
    open spec fn code_spec(&self) -> usize {
        match self {
            LexerError::UnknownChar => 2000,
            LexerError::UnclosedString => 2001,
            LexerError::UnclosedMultiLineComment => 2002,
        }
    }

    open spec fn message_spec(&self) -> Seq<char> {
        match self {
            LexerError::UnknownChar => "Unknown character:"@,
            LexerError::UnclosedString => "Unclosed string:"@,
            LexerError::UnclosedMultiLineComment => "Unclosed multi-line comment:"@,
        }
    }

    fn to_usize(self) -> (r: usize) {
        match self {
            LexerError::UnknownChar => 2000,
            LexerError::UnclosedString => 2001,
            LexerError::UnclosedMultiLineComment => 2002,
        }
    }

    fn message(&self) -> (r: &'static str) {
        match self {
            LexerError::UnknownChar => "Unknown character:",
            LexerError::UnclosedString => "Unclosed string:",
            LexerError::UnclosedMultiLineComment => "Unclosed multi-line comment:",
        }
    }
}

// ---------------------------------------------------------------------------
// The token grammar, as spec functions over the source characters.
// ---------------------------------------------------------------------------

pub open spec fn is_digit(c: char) -> bool {
    '0' <= c <= '9'
}

pub open spec fn is_ident_start(c: char) -> bool {
    ('a' <= c <= 'z') || ('A' <= c <= 'Z') || c == '_'
}

pub open spec fn is_ident_char(c: char) -> bool {
    is_ident_start(c) || is_digit(c)
}

/// The end of the run of identifier characters that starts at `i`.
pub open spec fn ident_end(s: Seq<char>, i: int) -> int
    decreases s.len() - i,
{
    if 0 <= i < s.len() && is_ident_char(s[i]) {
        ident_end(s, i + 1)
    } else {
        i
    }
}

/// The end of the run of digits that starts at `i`.
pub open spec fn digits_end(s: Seq<char>, i: int) -> int
    decreases s.len() - i,
{
    if 0 <= i < s.len() && is_digit(s[i]) {
        digits_end(s, i + 1)
    } else {
        i
    }
}

/// The position of the first line break at or after `i`, or the end.
pub open spec fn line_end(s: Seq<char>, i: int) -> int
    decreases s.len() - i,
{
    if 0 <= i < s.len() && s[i] != '\n' {
        line_end(s, i + 1)
    } else {
        i
    }
}

/// The position just after the first `*~` that starts at or after `i`.
pub open spec fn comment_end(s: Seq<char>, i: int) -> Option<int>
    decreases s.len() - i,
{
    if i < 0 || i + 1 >= s.len() {
        None
    } else if s[i] == '*' && s[i + 1] == '~' {
        Some(i + 2)
    } else {
        comment_end(s, i + 1)
    }
}

/// The rest of a string literal whose contents start at `i`: the position
/// after the closing quote and the contents, a backslash taking the next
/// character as it is; `None` when the source ends first.
pub open spec fn string_scan(s: Seq<char>, i: int) -> Option<(int, Seq<char>)>
    decreases s.len() - i,
{
    if i < 0 || i >= s.len() {
        None
    } else if s[i] == '"' {
        Some((i + 1, Seq::empty()))
    } else if s[i] == '\\' {
        if i + 1 < s.len() {
            match string_scan(s, i + 2) {
                Some((j, rest)) => Some((j, seq![s[i + 1]] + rest)),
                None => None,
            }
        } else {
            None
        }
    } else {
        match string_scan(s, i + 1) {
            Some((j, rest)) => Some((j, seq![s[i]] + rest)),
            None => None,
        }
    }
}

/// The number of bytes of `c` in UTF-8.
pub open spec fn utf8_width(c: char) -> int {
    if (c as u32) < 0x80 {
        1
    } else if (c as u32) < 0x800 {
        2
    } else if (c as u32) < 0x10000 {
        3
    } else {
        4
    }
}

/// The byte offset, in the UTF-8 text, of the character at position `i`.
pub open spec fn byte_pos(s: Seq<char>, i: int) -> int
    decreases i,
{
    if i <= 0 {
        0
    } else {
        byte_pos(s, i - 1) + utf8_width(s[i - 1])
    }
}

/// Column and line after reading `s[from..to]` at column `col` and line
/// `line`: a line break moves to column 1 of the next line, any other
/// character as many columns on as it has bytes.
pub open spec fn pos_after(s: Seq<char>, from: int, to: int, col: int, line: int) -> (int, int)
    decreases to - from,
{
    if from >= to {
        (col, line)
    } else if s[from] == '\n' {
        pos_after(s, from + 1, to, 1, line + 1)
    } else {
        pos_after(s, from + 1, to, col + utf8_width(s[from]), line)
    }
}

/// The tag of a word: one of the keywords, or an identifier.
pub open spec fn keyword_tag(w: Seq<char>) -> TokenTag {
    if w =~= seq!['l', 'e', 't'] {
        TokenTag::LetKeyword
    } else if w =~= seq!['m', 'u', 't'] {
        TokenTag::MutKeyword
    } else if w =~= seq!['c', 'o', 'n', 's', 't'] {
        TokenTag::ConstKeyword
    } else {
        TokenTag::Identifier
    }
}

/// The tag of a one-character symbol.
pub open spec fn symbol_tag(c: char) -> Option<TokenTag> {
    if c == '=' {
        Some(TokenTag::EqualOp)
    } else if c == ';' {
        Some(TokenTag::SemicolonOp)
    } else if c == '+' {
        Some(TokenTag::PlusSign)
    } else if c == '-' {
        Some(TokenTag::MinusSign)
    } else if c == '*' {
        Some(TokenTag::StarSign)
    } else if c == '{' {
        Some(TokenTag::LCurlyBracket)
    } else if c == '}' {
        Some(TokenTag::RCurlyBracket)
    } else {
        None
    }
}

/// One step of the lexer from position `i`.
pub struct LexStep {
    pub next: int,
    pub col: int,
    pub line: int,
    pub token: Option<(Seq<char>, TokenTag)>,
    pub error: Option<LexerError>,
}

/// What the lexer reads at position `i` (column `col`, line `line`): blanks
/// and line breaks are skipped, `//` starts a comment to the end of the line,
/// `~*` one up to the next `*~`, words are keywords or identifiers, runs of
/// digits integers, `"` starts a string literal; anything else unknown is an
/// error and is skipped.
pub open spec fn lex_step(s: Seq<char>, i: int, col: int, line: int) -> LexStep {
    let c = s[i];
    let plain = LexStep { next: i + 1, col: col + utf8_width(c), line, token: None, error: None };
    if c == '\n' {
        LexStep { next: i + 1, col: 1, line: line + 1, token: None, error: None }
    } else if c == ' ' || c == '\t' || c == '\r' {
        plain
    } else if is_ident_start(c) {
        let j = ident_end(s, i + 1);
        let w = s.subrange(i, j);
        LexStep { next: j, col: col + (j - i), line, token: Some((w, keyword_tag(w))), error: None }
    } else if is_digit(c) {
        let j = digits_end(s, i + 1);
        LexStep {
            next: j,
            col: col + (j - i),
            line,
            token: Some((s.subrange(i, j), TokenTag::Integer)),
            error: None,
        }
    } else if c == '/' {
        if i + 1 < s.len() && s[i + 1] == '/' {
            LexStep { next: line_end(s, i + 1), ..plain }
        } else {
            LexStep { token: Some((seq!['/'], TokenTag::DivSign)), ..plain }
        }
    } else if c == '~' && i + 1 < s.len() && s[i + 1] == '*' {
        match comment_end(s, i + 2) {
            Some(j) => {
                let p = pos_after(s, i, j, col, line);
                LexStep { next: j, col: p.0, line: p.1, token: None, error: None }
            },
            None => {
                let p = pos_after(s, i, s.len() as int, col, line);
                LexStep {
                    next: s.len() as int,
                    col: p.0,
                    line: p.1,
                    token: None,
                    error: Some(LexerError::UnclosedMultiLineComment),
                }
            },
        }
    } else if c == '"' {
        match string_scan(s, i + 1) {
            Some((j, content)) => {
                let p = pos_after(s, i, j, col, line);
                LexStep {
                    next: j,
                    col: p.0,
                    line: p.1,
                    token: Some((content, TokenTag::Str)),
                    error: None,
                }
            },
            None => {
                let p = pos_after(s, i, s.len() as int, col, line);
                LexStep {
                    next: s.len() as int,
                    col: p.0,
                    line: p.1,
                    token: None,
                    error: Some(LexerError::UnclosedString),
                }
            },
        }
    } else {
        match symbol_tag(c) {
            Some(t) => LexStep { token: Some((seq![c], t)), ..plain },
            None => LexStep { error: Some(LexerError::UnknownChar), ..plain },
        }
    }
}

/// What the lexer produces: lexemes, tags and locations of the tokens, and
/// the errors met, each in source order.
pub struct LexOut {
    pub lexemes: Seq<Seq<char>>,
    pub tags: Seq<TokenTag>,
    pub locs: Seq<TokenLocation>,
    pub errors: Seq<LexerError>,
}

pub open spec fn empty_out() -> LexOut {
    LexOut { lexemes: Seq::empty(), tags: Seq::empty(), locs: Seq::empty(), errors: Seq::empty() }
}

pub open spec fn concat_out(a: LexOut, b: LexOut) -> LexOut {
    LexOut {
        lexemes: a.lexemes + b.lexemes,
        tags: a.tags + b.tags,
        locs: a.locs + b.locs,
        errors: a.errors + b.errors,
    }
}

/// What one step contributes to the output.
pub open spec fn step_out(s: Seq<char>, i: int, col: int, line: int) -> LexOut {
    let st = lex_step(s, i, col, line);
    LexOut {
        lexemes: match st.token {
            Some((w, t)) => seq![w],
            None => Seq::empty(),
        },
        tags: match st.token {
            Some((w, t)) => seq![t],
            None => Seq::empty(),
        },
        locs: match st.token {
            Some((w, t)) => seq![
                TokenLocation {
                    start_idx: byte_pos(s, i) as usize,
                    end_idx: byte_pos(s, st.next) as usize,
                    start_col: col as u16,
                    end_col: st.col as u16,
                    start_line: line as u16,
                    end_line: st.line as u16,
                },
            ],
            None => Seq::empty(),
        },
        errors: match st.error {
            Some(e) => seq![e],
            None => Seq::empty(),
        },
    }
}

/// The lexer's output for the source from position `i` on.
pub open spec fn lex_from(s: Seq<char>, i: int, col: int, line: int) -> LexOut
    decreases s.len() - i,
{
    if i < 0 || i >= s.len() {
        empty_out()
    } else {
        let st = lex_step(s, i, col, line);
        if st.next <= i || st.next > s.len() {
            empty_out()
        } else {
            concat_out(step_out(s, i, col, line), lex_from(s, st.next, st.col, st.line))
        }
    }
}

/// The lexer's output for a whole source text.
pub open spec fn lex_spec(s: Seq<char>) -> LexOut {
    lex_from(s, 0, 1, 1)
}

/// Every column and line the lexer stops at, from position `i` on, fits in
/// the `u16` of a token location.
pub open spec fn positions_fit(s: Seq<char>, i: int, col: int, line: int) -> bool
    decreases s.len() - i,
{
    &&& col <= u16::MAX
    &&& line <= u16::MAX
    &&& (0 <= i < s.len() ==> {
        let st = lex_step(s, i, col, line);
        st.next <= i || st.next > s.len() || positions_fit(s, st.next, st.col, st.line)
    })
}

// ---------------------------------------------------------------------------
// Facts about the grammar.
// ---------------------------------------------------------------------------

proof fn lemma_ident_end(s: Seq<char>, i: int)
    requires
        0 <= i <= s.len(),
    ensures
        i <= ident_end(s, i) <= s.len(),
        forall|k: int| i <= k < ident_end(s, i) ==> is_ident_char(#[trigger] s[k]),
        ident_end(s, i) == s.len() || !is_ident_char(s[ident_end(s, i)]),
    decreases s.len() - i,
{
    if i < s.len() && is_ident_char(s[i]) {
        lemma_ident_end(s, i + 1);
    }
}

proof fn lemma_digits_end(s: Seq<char>, i: int)
    requires
        0 <= i <= s.len(),
    ensures
        i <= digits_end(s, i) <= s.len(),
        forall|k: int| i <= k < digits_end(s, i) ==> is_digit(#[trigger] s[k]),
        digits_end(s, i) == s.len() || !is_digit(s[digits_end(s, i)]),
    decreases s.len() - i,
{
    if i < s.len() && is_digit(s[i]) {
        lemma_digits_end(s, i + 1);
    }
}

proof fn lemma_line_end(s: Seq<char>, i: int)
    requires
        0 <= i <= s.len(),
    ensures
        i <= line_end(s, i) <= s.len(),
    decreases s.len() - i,
{
    if i < s.len() && s[i] != '\n' {
        lemma_line_end(s, i + 1);
    }
}

proof fn lemma_comment_end(s: Seq<char>, i: int)
    requires
        0 <= i,
    ensures
        comment_end(s, i) matches Some(j) ==> i + 2 <= j <= s.len(),
    decreases s.len() - i,
{
    if i + 1 < s.len() && !(s[i] == '*' && s[i + 1] == '~') {
        lemma_comment_end(s, i + 1);
    }
}

proof fn lemma_string_scan(s: Seq<char>, i: int)
    requires
        0 <= i,
    ensures
        string_scan(s, i) matches Some((j, w)) ==> i + 1 <= j <= s.len(),
    decreases s.len() - i,
{
    if 0 <= i < s.len() && s[i] != '"' {
        if s[i] == '\\' {
            if i + 1 < s.len() {
                lemma_string_scan(s, i + 2);
            }
        } else {
            lemma_string_scan(s, i + 1);
        }
    }
}

proof fn lemma_pos_after(s: Seq<char>, from: int, to: int, col: int, line: int)
    requires
        0 <= from <= to <= s.len(),
        col >= 1,
        line >= 1,
    ensures
        1 <= pos_after(s, from, to, col, line).0 <= col + (byte_pos(s, to) - byte_pos(s, from)),
        line <= pos_after(s, from, to, col, line).1 <= line + (to - from),
    decreases to - from,
{
    lemma_byte_pos_mono(s, from, to);
    if from < to {
        lemma_byte_pos_mono(s, from + 1, to);
        if s[from] == '\n' {
            lemma_pos_after(s, from + 1, to, 1, line + 1);
        } else {
            lemma_pos_after(s, from + 1, to, col + utf8_width(s[from]), line);
        }
    }
}

/// A step keeps the column and the line at 1 or more.
proof fn lemma_step_pos(s: Seq<char>, i: int, col: int, line: int)
    requires
        0 <= i < s.len(),
        1 <= col,
        1 <= line,
    ensures
        1 <= lex_step(s, i, col, line).col,
        1 <= lex_step(s, i, col, line).line,
{
    lemma_ident_end(s, i + 1);
    lemma_digits_end(s, i + 1);
    lemma_comment_end(s, i + 2);
    lemma_string_scan(s, i + 1);
    let st = lex_step(s, i, col, line);
    if i <= st.next <= s.len() {
        lemma_pos_after(s, i, st.next, col, line);
    }
}

/// A step always moves on, stays within the source, and keeps the column
/// within one more than the byte offset and the line within one more than the
/// position.
pub proof fn lemma_step(s: Seq<char>, i: int, col: int, line: int)
    requires
        0 <= i < s.len(),
        1 <= col <= byte_pos(s, i) + 1,
        1 <= line <= i + 1,
    ensures
        i < lex_step(s, i, col, line).next <= s.len(),
        1 <= lex_step(s, i, col, line).col <= byte_pos(s, lex_step(s, i, col, line).next) + 1,
        1 <= lex_step(s, i, col, line).line <= lex_step(s, i, col, line).next + 1,
{
    lemma_ident_end(s, i + 1);
    lemma_digits_end(s, i + 1);
    lemma_line_end(s, i + 1);
    lemma_comment_end(s, i + 2);
    lemma_string_scan(s, i + 1);
    let st = lex_step(s, i, col, line);
    lemma_pos_after(s, i, st.next, col, line);
    lemma_byte_pos_mono(s, i, st.next);
    lemma_byte_pos_mono(s, i + 1, st.next);
}

} // verus!

verus! {

/// `acc` put in front of the contents of a string scan.
pub open spec fn prepend_scan(acc: Seq<char>, r: Option<(int, Seq<char>)>) -> Option<(int, Seq<char>)> {
    match r {
        Some((j, w)) => Some((j, acc + w)),
        None => None,
    }
}

proof fn lemma_prepend_assoc(a: Seq<char>, b: Seq<char>, r: Option<(int, Seq<char>)>)
    ensures
        prepend_scan(a, prepend_scan(b, r)) == prepend_scan(a + b, r),
{
    if let Some((j, w)) = r {
        assert(a + (b + w) =~= (a + b) + w);
    }
}

fn utf8_width_exec(c: char) -> (r: usize)
    ensures
        r == utf8_width(c),
{
    let v = c as u32;
    if v < 0x80 {
        1
    } else if v < 0x800 {
        2
    } else if v < 0x10000 {
        3
    } else {
        4
    }
}

fn is_digit_exec(c: char) -> (r: bool)
    ensures
        r == is_digit(c),
{
    '0' <= c && c <= '9'
}

fn is_ident_start_exec(c: char) -> (r: bool)
    ensures
        r == is_ident_start(c),
{
    ('a' <= c && c <= 'z') || ('A' <= c && c <= 'Z') || c == '_'
}

fn is_ident_char_exec(c: char) -> (r: bool)
    ensures
        r == is_ident_char(c),
{
    is_ident_start_exec(c) || is_digit_exec(c)
}

fn symbol_tag_exec(c: char) -> (r: Option<TokenTag>)
    ensures
        r == symbol_tag(c),
{
    if c == '=' {
        Some(TokenTag::EqualOp)
    } else if c == ';' {
        Some(TokenTag::SemicolonOp)
    } else if c == '+' {
        Some(TokenTag::PlusSign)
    } else if c == '-' {
        Some(TokenTag::MinusSign)
    } else if c == '*' {
        Some(TokenTag::StarSign)
    } else if c == '{' {
        Some(TokenTag::LCurlyBracket)
    } else if c == '}' {
        Some(TokenTag::RCurlyBracket)
    } else {
        None
    }
}

/// The tag of the word `chars[i..j]`.
fn keyword_tag_exec(chars: &Vec<char>, i: usize, j: usize) -> (r: TokenTag)
    requires
        i <= j <= chars.len(),
    ensures
        r == keyword_tag(chars@.subrange(i as int, j as int)),
{
    let ghost w = chars@.subrange(i as int, j as int);
    if j - i == 3 && chars[i] == 'l' && chars[i + 1] == 'e' && chars[i + 2] == 't' {
        assert(w =~= seq!['l', 'e', 't']);
        TokenTag::LetKeyword
    } else if j - i == 3 && chars[i] == 'm' && chars[i + 1] == 'u' && chars[i + 2] == 't' {
        assert(w =~= seq!['m', 'u', 't']);
        assert(!(w =~= seq!['l', 'e', 't']));
        TokenTag::MutKeyword
    } else if j - i == 5 && chars[i] == 'c' && chars[i + 1] == 'o' && chars[i + 2] == 'n'
        && chars[i + 3] == 's' && chars[i + 4] == 't' {
        assert(w =~= seq!['c', 'o', 'n', 's', 't']);
        assert(!(w =~= seq!['l', 'e', 't']));
        assert(!(w =~= seq!['m', 'u', 't']));
        TokenTag::ConstKeyword
    } else {
        assert(!(w =~= seq!['l', 'e', 't'])) by {
            if w =~= seq!['l', 'e', 't'] {
                assert(w[0] == 'l' && w[1] == 'e' && w[2] == 't');
            }
        }
        assert(!(w =~= seq!['m', 'u', 't'])) by {
            if w =~= seq!['m', 'u', 't'] {
                assert(w[0] == 'm' && w[1] == 'u' && w[2] == 't');
            }
        }
        assert(!(w =~= seq!['c', 'o', 'n', 's', 't'])) by {
            if w =~= seq!['c', 'o', 'n', 's', 't'] {
                assert(w[0] == 'c' && w[1] == 'o' && w[2] == 'n' && w[3] == 's' && w[4] == 't');
            }
        }
        TokenTag::Identifier
    }
}

/// Splits source text into tokens.
pub struct Lexer<'src> {
    src: &'src str,
    chars: Vec<char>,
    idx: usize,
    byte: usize,
    col: usize,
    line: usize,
    len: usize,
    locations: Vec<TokenLocation>,
}

impl<'src> Lexer<'src> {
    /// The source characters.
    pub closed spec fn chars(&self) -> Seq<char> {
        self.chars@
    }

    /// Position, column and line where lexing goes on.
    pub closed spec fn position(&self) -> (int, int, int) {
        (self.idx as int, self.col as int, self.line as int)
    }

    /// Locations of the tokens of the last run of `lex`.
    pub closed spec fn locations_spec(&self) -> Seq<TokenLocation> {
        self.locations@
    }

    pub closed spec fn wf(&self) -> bool {
        &&& self.src@ == self.chars@
        &&& self.len == self.chars@.len()
        &&& self.len < usize::MAX
        &&& byte_pos(self.chars@, self.len as int) < usize::MAX
        &&& self.idx <= self.len
        &&& self.byte == byte_pos(self.chars@, self.idx as int)
        &&& 1 <= self.col <= self.byte + 1
        &&& 1 <= self.line <= self.idx + 1
    }

    pub fn new(src: &'src str) -> (r: Self)
        requires
            src@.len() < usize::MAX,
            vstd::utf8::encode_utf8(src@).len() < usize::MAX,
        ensures
            r.wf(),
            r.chars() == src@,
            r.position() == (0int, 1int, 1int),
            r.locations_spec() == Seq::<TokenLocation>::empty(),
    {
        let mut chars: Vec<char> = Vec::new();
        proof {
            broadcast use vstd::string::axiom_spec_iter;
        }
        for c in it: src.chars()
            invariant
                it.seq() == src@,
                chars@ == src@.take(it.index() as int),
        {
            chars.push(c);
        }
        assert(chars@ =~= src@);
        let n = chars.len();
        proof {
            lemma_byte_slice(src@, 0, 0);
        }
        Lexer { src, chars, idx: 0, byte: 0, col: 1, line: 1, len: n, locations: Vec::new() }
    }

    /// Splits the rest of the source into tokens. Unknown characters,
    /// unclosed strings and unclosed `~*` comments are errors; all of them are
    /// reported, and then no tokens are returned. The locations of the tokens
    /// are kept in the lexer.
    pub fn lex(&mut self) -> (r: Result<Tokens, Vec<Diagnostic>>)
        requires
            old(self).wf(),
            positions_fit(old(self).chars(), old(self).position().0, old(self).position().1, old(self).position().2),
        ensures
            final(self).wf(),
            final(self).chars() == old(self).chars(),
            final(self).position().0 == old(self).chars().len(),
            ({
                let out = lex_from(
                    old(self).chars(),
                    old(self).position().0,
                    old(self).position().1,
                    old(self).position().2,
                );
                &&& final(self).locations_spec() == out.locs
                &&& match r {
                    Ok(t) => {
                        &&& out.errors.len() == 0
                        &&& t.lexemes() == out.lexemes
                        &&& t.tag_seq() == out.tags
                    },
                    Err(es) => {
                        &&& out.errors.len() > 0
                        &&& es@.map_values(|d: Diagnostic| d@) == out.errors.map_values(
                            |e: LexerError| error_view(e),
                        )
                    },
                }
            }),
    {
        let ghost s = self.chars();
        let ghost start = self.position();
        let ghost total = lex_from(s, start.0, start.1, start.2);
        let mut tokens = Tokens::new();
        let mut errors: Vec<Diagnostic> = Vec::new();
        let ghost mut errs: Seq<LexerError> = Seq::empty();
        self.locations = Vec::new();
        while self.idx < self.len
            invariant
                self.wf(),
                self.chars() == s,
                positions_fit(s, self.idx as int, self.col as int, self.line as int),
                errors@.map_values(|d: Diagnostic| d@) == errs.map_values(|e: LexerError| error_view(e)),
                concat_out(
                    LexOut {
                        lexemes: tokens.lexemes(),
                        tags: tokens.tag_seq(),
                        locs: self.locations@,
                        errors: errs,
                    },
                    lex_from(s, self.idx as int, self.col as int, self.line as int),
                ) == total,
            decreases self.len - self.idx,
        {
            let i = self.idx;
            let col = self.col;
            let line = self.line;
            let ghost before = LexOut {
                lexemes: tokens.lexemes(),
                tags: tokens.tag_seq(),
                locs: self.locations@,
                errors: errs,
            };
            proof {
                lemma_step(s, i as int, col as int, line as int);
            }
            let (next, ncol, nline, tok, err) = self.scan_at(i, col, line);
            let ghost step = step_out(s, i as int, col as int, line as int);
            match tok {
                Some((w, tag)) => {
                    let ghost old_toks = tokens.token_seq();
                    tokens.push(Token { lexeme: w }, tag);
                    let end_byte = self.byte_after(i, next, self.byte);
                    self.locations.push(
                        TokenLocation {
                            start_idx: self.byte,
                            end_idx: end_byte,
                            start_col: col as u16,
                            end_col: ncol as u16,
                            start_line: line as u16,
                            end_line: nline as u16,
                        },
                    );
                    proof {
                        assert(tokens.lexemes() =~= before.lexemes + step.lexemes) by {
                            assert(tokens.token_seq() == old_toks.push(Token { lexeme: w }));
                        }
                    }
                },
                None => {},
            }
            match err {
                Some(e) => {
                    let d = DiagnosticBuilder::default().with_error_code(e).build();
                    let ghost old_errors = errors@;
                    let ghost old_errs = errs;
                    errors.push(d);
                    proof {
                        errs = errs.push(e);
                        assert(errors@.map_values(|d: Diagnostic| d@) =~= errs.map_values(
                            |e: LexerError| error_view(e),
                        )) by {
                            assert(errors@ == old_errors.push(d));
                            assert(old_errors.map_values(|d: Diagnostic| d@).len() == old_errs.map_values(
                                |e: LexerError| error_view(e),
                            ).len());
                            assert(old_errors.len() == old_errs.len());
                            assert(d@ == error_view(e));
                            assert forall|k: int| 0 <= k < errors@.len() implies #[trigger] errors@[k]@
                                == error_view(errs[k]) by {
                                if k < old_errors.len() {
                                    assert(old_errors.map_values(|d: Diagnostic| d@)[k] == old_errs.map_values(
                                        |e: LexerError| error_view(e),
                                    )[k]);
                                }
                            }
                        }
                    }
                },
                None => {},
            }
            self.byte = self.byte_after(i, next, self.byte);
            self.idx = next;
            self.col = ncol;
            self.line = nline;
            proof {
                let after = LexOut {
                    lexemes: tokens.lexemes(),
                    tags: tokens.tag_seq(),
                    locs: self.locations@,
                    errors: errs,
                };
                assert(after.lexemes =~= before.lexemes + step.lexemes);
                assert(after.tags =~= before.tags + step.tags);
                assert(after.locs =~= before.locs + step.locs);
                assert(after.errors =~= before.errors + step.errors);
                let rest = lex_from(s, next as int, ncol as int, nline as int);
                assert(concat_out(after, rest).lexemes =~= before.lexemes + (step.lexemes + rest.lexemes));
                assert(concat_out(after, rest).tags =~= before.tags + (step.tags + rest.tags));
                assert(concat_out(after, rest).locs =~= before.locs + (step.locs + rest.locs));
                assert(concat_out(after, rest).errors =~= before.errors + (step.errors + rest.errors));
            }
        }
        proof {
            let fin = LexOut {
                lexemes: tokens.lexemes(),
                tags: tokens.tag_seq(),
                locs: self.locations@,
                errors: errs,
            };
            assert(concat_out(fin, empty_out()).lexemes =~= fin.lexemes);
            assert(concat_out(fin, empty_out()).tags =~= fin.tags);
            assert(concat_out(fin, empty_out()).locs =~= fin.locs);
            assert(concat_out(fin, empty_out()).errors =~= fin.errors);
        }
        if errors.len() == 0 {
            Ok(tokens)
        } else {
            Err(errors)
        }
    }

    /// Whether every column and line met while lexing the rest of the source
    /// fits in a token location.
    pub fn positions_fit(&self) -> (r: bool)
        requires
            self.wf(),
        ensures
            r == positions_fit(self.chars(), self.position().0, self.position().1, self.position().2),
    {
        let ghost s = self.chars();
        let mut i = self.idx;
        let mut col = self.col;
        let mut line = self.line;
        while i < self.len
            invariant
                self.wf(),
                self.chars() == s,
                i <= self.len,
                1 <= col <= byte_pos(s, i as int) + 1,
                1 <= line <= i + 1,
                positions_fit(s, i as int, col as int, line as int) == positions_fit(
                    s,
                    self.position().0,
                    self.position().1,
                    self.position().2,
                ),
            decreases self.len - i,
        {
            if col > 65535 || line > 65535 {
                return false;
            }
            proof {
                lemma_step(s, i as int, col as int, line as int);
            }
            let (next, ncol, nline, _tok, _err) = self.scan_at(i, col, line);
            i = next;
            col = ncol;
            line = nline;
        }
        col <= 65535 && line <= 65535
    }

    /// The locations of the tokens of the last run of `lex`, one per token.
    pub fn locations(&self) -> (r: &Vec<TokenLocation>)
        ensures
            r@ == self.locations_spec(),
    {
        &self.locations
    }

    fn scan_ident(&self, i: usize) -> (r: usize)
        requires
            self.wf(),
            i <= self.len,
        ensures
            r == ident_end(self.chars(), i as int),
            i <= r <= self.len,
    {
        let mut j = i;
        while j < self.len && is_ident_char_exec(self.chars[j])
            invariant
                self.wf(),
                i <= j <= self.len,
                ident_end(self.chars(), j as int) == ident_end(self.chars(), i as int),
            decreases self.len - j,
        {
            j = j + 1;
        }
        j
    }

    fn scan_digits(&self, i: usize) -> (r: usize)
        requires
            self.wf(),
            i <= self.len,
        ensures
            r == digits_end(self.chars(), i as int),
            i <= r <= self.len,
    {
        let mut j = i;
        while j < self.len && is_digit_exec(self.chars[j])
            invariant
                self.wf(),
                i <= j <= self.len,
                digits_end(self.chars(), j as int) == digits_end(self.chars(), i as int),
            decreases self.len - j,
        {
            j = j + 1;
        }
        j
    }

    fn scan_line(&self, i: usize) -> (r: usize)
        requires
            self.wf(),
            i <= self.len,
        ensures
            r == line_end(self.chars(), i as int),
            i <= r <= self.len,
    {
        let mut j = i;
        while j < self.len && self.chars[j] != '\n'
            invariant
                self.wf(),
                i <= j <= self.len,
                line_end(self.chars(), j as int) == line_end(self.chars(), i as int),
            decreases self.len - j,
        {
            j = j + 1;
        }
        j
    }

    fn scan_comment(&self, i: usize) -> (r: Option<usize>)
        requires
            self.wf(),
            i <= self.len,
        ensures
            match r {
                Some(j) => comment_end(self.chars(), i as int) == Some(j as int) && j <= self.len,
                None => comment_end(self.chars(), i as int) is None,
            },
    {
        let mut k = i;
        while k < self.len && k + 1 < self.len
            invariant
                self.wf(),
                i <= k <= self.len,
                comment_end(self.chars(), k as int) == comment_end(self.chars(), i as int),
            decreases self.len - k,
        {
            if self.chars[k] == '*' && self.chars[k + 1] == '~' {
                return Some(k + 2);
            }
            k = k + 1;
        }
        None
    }

    /// The contents of the string literal that starts at `i`.
    fn scan_string(&self, i: usize) -> (r: Option<(usize, String)>)
        requires
            self.wf(),
            i <= self.len,
        ensures
            match r {
                Some((j, w)) => string_scan(self.chars(), i as int) == Some((j as int, w@))
                    && j <= self.len,
                None => string_scan(self.chars(), i as int) is None,
            },
    {
        let mut k = i;
        let mut acc = String::new();
        while k < self.len
            invariant
                self.wf(),
                i <= k <= self.len,
                string_scan(self.chars(), i as int) == prepend_scan(acc@, string_scan(self.chars(), k as int)),
            decreases self.len - k,
        {
            let c = self.chars[k];
            if c == '"' {
                return Some((k + 1, acc));
            } else if c == '\\' {
                if k + 1 < self.len {
                    let piece = self.src.substring_char(k + 1, k + 2);
                    let ghost old_acc = acc@;
                    acc.append(piece);
                    proof {
                        assert(piece@ =~= seq![self.chars()[k + 1]]);
                        assert(acc@ =~= old_acc + seq![self.chars()[k + 1]]);
                        lemma_prepend_assoc(old_acc, seq![self.chars()[k + 1]], string_scan(self.chars(), k + 2));
                    }
                    k = k + 2;
                } else {
                    return None;
                }
            } else {
                let piece = self.src.substring_char(k, k + 1);
                let ghost old_acc = acc@;
                acc.append(piece);
                proof {
                    assert(piece@ =~= seq![c]);
                    assert(acc@ =~= old_acc + seq![c]);
                    lemma_prepend_assoc(old_acc, seq![c], string_scan(self.chars(), k + 1));
                }
                k = k + 1;
            }
        }
        None
    }

    /// The byte offset of position `to`, given that of position `from`.
    fn byte_after(&self, from: usize, to: usize, b: usize) -> (r: usize)
        requires
            self.wf(),
            from <= to <= self.len,
            b == byte_pos(self.chars(), from as int),
        ensures
            r == byte_pos(self.chars(), to as int),
    {
        let mut k = from;
        let mut r = b;
        while k < to
            invariant
                self.wf(),
                from <= k <= to <= self.len,
                r == byte_pos(self.chars(), k as int),
            decreases to - k,
        {
            proof {
                lemma_byte_pos_mono(self.chars(), k + 1, self.len as int);
            }
            r = r + utf8_width_exec(self.chars[k]);
            k = k + 1;
        }
        r
    }

    /// Column and line after reading `from..to`.
    fn advance(&self, from: usize, to: usize, col: usize, line: usize) -> (r: (usize, usize))
        requires
            self.wf(),
            from <= to <= self.len,
            1 <= col <= byte_pos(self.chars(), from as int) + 1,
            1 <= line <= from + 1,
        ensures
            (r.0 as int, r.1 as int) == pos_after(self.chars(), from as int, to as int, col as int, line as int),
    {
        let mut k = from;
        let mut c = col;
        let mut l = line;
        while k < to
            invariant
                self.wf(),
                from <= k <= to <= self.len,
                1 <= c <= byte_pos(self.chars(), k as int) + 1,
                line <= l <= k + 1,
                1 <= col <= byte_pos(self.chars(), from as int) + 1,
                1 <= line <= from + 1,
                pos_after(self.chars(), k as int, to as int, c as int, l as int)
                    == pos_after(self.chars(), from as int, to as int, col as int, line as int),
            decreases to - k,
        {
            proof {
                lemma_byte_pos_mono(self.chars(), k + 1, self.len as int);
            }
            if self.chars[k] == '\n' {
                c = 1;
                l = l + 1;
            } else {
                c = c + utf8_width_exec(self.chars[k]);
            }
            k = k + 1;
        }
        (c, l)
    }

    /// One step of the lexer at position `i`.
    fn scan_at(&self, i: usize, col: usize, line: usize) -> (r: (
        usize,
        usize,
        usize,
        Option<(String, TokenTag)>,
        Option<LexerError>,
    ))
        requires
            self.wf(),
            i < self.len,
            1 <= col <= byte_pos(self.chars(), i as int) + 1,
            1 <= line <= i + 1,
        ensures
            ({
                let st = lex_step(self.chars(), i as int, col as int, line as int);
                &&& r.0 == st.next
                &&& r.1 == st.col
                &&& r.2 == st.line
                &&& r.4 == st.error
                &&& match r.3 {
                    Some((w, t)) => st.token == Some((w@, t)),
                    None => st.token is None,
                }
            }),
    {
        let ghost s = self.chars();
        proof {
            lemma_step(s, i as int, col as int, line as int);
            lemma_pos_after(s, i as int, s.len() as int, col as int, line as int);
            assert forall|k: int| i <= k <= s.len() implies byte_pos(s, k) + 1 <= usize::MAX by {
                lemma_byte_pos_mono(s, k, s.len() as int);
            }
        }
        let c = self.chars[i];
        if c == '\n' {
            (i + 1, 1, line + 1, None, None)
        } else if c == ' ' || c == '\t' || c == '\r' {
            (i + 1, col + utf8_width_exec(c), line, None, None)
        } else if is_ident_start_exec(c) {
            let j = self.scan_ident(i + 1);
            let w = self.src.substring_char(i, j);
            let tag = keyword_tag_exec(&self.chars, i, j);
            (j, col + (j - i), line, Some((String::from_str(w), tag)), None)
        } else if is_digit_exec(c) {
            let j = self.scan_digits(i + 1);
            let w = self.src.substring_char(i, j);
            (j, col + (j - i), line, Some((String::from_str(w), TokenTag::Integer)), None)
        } else if c == '/' {
            if i + 1 < self.len && self.chars[i + 1] == '/' {
                let j = self.scan_line(i + 1);
                (j, col + utf8_width_exec(c), line, None, None)
            } else {
                let w = self.src.substring_char(i, i + 1);
                proof {
                    assert(w@ =~= seq!['/']);
                }
                (i + 1, col + utf8_width_exec(c), line, Some((String::from_str(w), TokenTag::DivSign)), None)
            }
        } else if c == '~' && i + 1 < self.len && self.chars[i + 1] == '*' {
            match self.scan_comment(i + 2) {
                Some(j) => {
                    proof {
                        lemma_pos_after(s, i as int, j as int, col as int, line as int);
                    }
                    let (c2, l2) = self.advance(i, j, col, line);
                    (j, c2, l2, None, None)
                },
                None => {
                    let (c2, l2) = self.advance(i, self.len, col, line);
                    (self.len, c2, l2, None, Some(LexerError::UnclosedMultiLineComment))
                },
            }
        } else if c == '"' {
            match self.scan_string(i + 1) {
                Some((j, content)) => {
                    proof {
                        lemma_pos_after(s, i as int, j as int, col as int, line as int);
                    }
                    let (c2, l2) = self.advance(i, j, col, line);
                    (j, c2, l2, Some((content, TokenTag::Str)), None)
                },
                None => {
                    let (c2, l2) = self.advance(i, self.len, col, line);
                    (self.len, c2, l2, None, Some(LexerError::UnclosedString))
                },
            }
        } else {
            match symbol_tag_exec(c) {
                Some(t) => {
                    let w = self.src.substring_char(i, i + 1);
                    proof {
                        assert(w@ =~= seq![c]);
                    }
                    (i + 1, col + utf8_width_exec(c), line, Some((String::from_str(w), t)), None)
                },
                None => (i + 1, col + utf8_width_exec(c), line, None, Some(LexerError::UnknownChar)),
            }
        }
    }
}

} // verus!

verus! {

// ---------------------------------------------------------------------------
// Laws of the lexer.
// ---------------------------------------------------------------------------

/// There are as many lexemes and as many locations as tags.
pub open spec fn out_aligned(out: LexOut) -> bool {
    &&& out.lexemes.len() == out.tags.len()
    &&& out.locs.len() == out.tags.len()
}

/// Every token stands in the bytes `lo..hi`, is not empty, and the tokens come
/// in source order without overlapping.
pub open spec fn locs_ordered(locs: Seq<TokenLocation>, lo: int, hi: int) -> bool {
    &&& forall|k: int|
        0 <= k < locs.len() ==> lo <= (#[trigger] locs[k]).start_idx < locs[k].end_idx <= hi
    &&& forall|a: int, b: int|
        0 <= a < b < locs.len() ==> (#[trigger] locs[a]).end_idx <= (#[trigger] locs[b]).start_idx
}

/// The text of every token but a string literal is the source text at its
/// location: the bytes of the source there are the bytes of the token. Words
/// are keywords exactly when they spell one.
pub open spec fn lexemes_from_source(s: Seq<char>, out: LexOut) -> bool {
    forall|k: int|
        0 <= k < out.tags.len() && out.tags[k] != TokenTag::Str ==> {
            &&& vstd::utf8::encode_utf8(#[trigger] out.lexemes[k]) == vstd::utf8::encode_utf8(s).subrange(
                out.locs[k].start_idx as int,
                out.locs[k].end_idx as int,
            )
            &&& (out.tags[k] == TokenTag::LetKeyword || out.tags[k] == TokenTag::MutKeyword
                || out.tags[k] == TokenTag::ConstKeyword || out.tags[k] == TokenTag::Identifier)
                ==> out.tags[k] == keyword_tag(out.lexemes[k])
        }
}

/// A token other than a string literal stays on one line and spans as many
/// columns as bytes.
pub open spec fn spans_match(out: LexOut) -> bool {
    forall|k: int|
        0 <= k < out.tags.len() && out.tags[k] != TokenTag::Str ==> {
            &&& (#[trigger] out.locs[k]).start_line == out.locs[k].end_line
            &&& out.locs[k].end_col - out.locs[k].start_col == out.locs[k].end_idx - out.locs[k].start_idx
        }
}

proof fn lemma_step_out(s: Seq<char>, i: int, col: int, line: int)
    requires
        0 <= i < s.len(),
        byte_pos(s, s.len() as int) <= usize::MAX,
        i < lex_step(s, i, col, line).next <= s.len(),
    ensures
        out_aligned(step_out(s, i, col, line)),
        locs_ordered(step_out(s, i, col, line).locs, byte_pos(s, i), byte_pos(s, lex_step(s, i, col, line).next)),
        lexemes_from_source(s, step_out(s, i, col, line)),
        0 <= col <= u16::MAX && 0 <= line <= u16::MAX && lex_step(s, i, col, line).col <= u16::MAX
            ==> spans_match(step_out(s, i, col, line)),
{
    let st = lex_step(s, i, col, line);
    let o = step_out(s, i, col, line);
    let c = s[i];
    lemma_byte_pos_mono(s, i, st.next);
    lemma_byte_pos_mono(s, st.next, s.len() as int);
    lemma_byte_pos_mono(s, 0, i);
    if o.tags.len() == 1 && o.tags[0] != TokenTag::Str {
        assert(o.locs[0].start_idx == byte_pos(s, i) && o.locs[0].end_idx == byte_pos(s, st.next));
        if c == '/' || !(is_ident_start(c) || is_digit(c) || c == '"' || c == '~') {
            assert(s.subrange(i, i + 1) =~= seq![c]);
        }
        assert(o.lexemes[0] == s.subrange(i, st.next));
        lemma_byte_slice(s, i, st.next);
        lemma_ident_end(s, i + 1);
        lemma_digits_end(s, i + 1);
        assert forall|k: int| i <= k < st.next implies (#[trigger] s[k] as u32) < 0x80 by {
            if k > i {
                if is_ident_start(c) {
                    assert(is_ident_char(s[k]));
                } else {
                    assert(is_digit(s[k]));
                }
            }
        }
        lemma_byte_pos_mono(s, i, st.next);
    }
}

proof fn lemma_concat_out(s: Seq<char>, a: LexOut, b: LexOut, lo: int, mid: int, hi: int)
    requires
        lo <= mid <= hi,
        out_aligned(a),
        out_aligned(b),
        locs_ordered(a.locs, lo, mid),
        locs_ordered(b.locs, mid, hi),
        lexemes_from_source(s, a),
        lexemes_from_source(s, b),
    ensures
        out_aligned(concat_out(a, b)),
        locs_ordered(concat_out(a, b).locs, lo, hi),
        lexemes_from_source(s, concat_out(a, b)),
        spans_match(a) && spans_match(b) ==> spans_match(concat_out(a, b)),
{
    let o = concat_out(a, b);
    let n = a.locs.len() as int;
    assert forall|k: int| 0 <= k < o.locs.len() implies lo <= (#[trigger] o.locs[k]).start_idx
        < o.locs[k].end_idx <= hi by {
        if k < n {
            assert(o.locs[k] == a.locs[k]);
        } else {
            assert(o.locs[k] == b.locs[k - n]);
        }
    }
    assert forall|x: int, y: int| 0 <= x < y < o.locs.len() implies (#[trigger] o.locs[x]).end_idx
        <= (#[trigger] o.locs[y]).start_idx by {
        if y < n {
            assert(o.locs[x] == a.locs[x] && o.locs[y] == a.locs[y]);
        } else if x < n {
            assert(o.locs[x] == a.locs[x] && o.locs[y] == b.locs[y - n]);
        } else {
            assert(o.locs[x] == b.locs[x - n] && o.locs[y] == b.locs[y - n]);
        }
    }
    assert forall|k: int| 0 <= k < o.tags.len() && o.tags[k] != TokenTag::Str implies {
        &&& vstd::utf8::encode_utf8(#[trigger] o.lexemes[k]) == vstd::utf8::encode_utf8(s).subrange(
            o.locs[k].start_idx as int,
            o.locs[k].end_idx as int,
        )
        &&& (o.tags[k] == TokenTag::LetKeyword || o.tags[k] == TokenTag::MutKeyword || o.tags[k]
            == TokenTag::ConstKeyword || o.tags[k] == TokenTag::Identifier) ==> o.tags[k] == keyword_tag(
            o.lexemes[k],
        )
    } by {
        if k < n {
            assert(o.lexemes[k] == a.lexemes[k] && o.tags[k] == a.tags[k] && o.locs[k] == a.locs[k]);
        } else {
            assert(o.lexemes[k] == b.lexemes[k - n] && o.tags[k] == b.tags[k - n] && o.locs[k]
                == b.locs[k - n]);
        }
    }
    if spans_match(a) && spans_match(b) {
        assert forall|k: int| 0 <= k < o.tags.len() && o.tags[k] != TokenTag::Str implies {
            &&& (#[trigger] o.locs[k]).start_line == o.locs[k].end_line
            &&& o.locs[k].end_col - o.locs[k].start_col == o.locs[k].end_idx - o.locs[k].start_idx
        } by {
            if k < n {
                assert(o.tags[k] == a.tags[k] && o.locs[k] == a.locs[k]);
            } else {
                assert(o.tags[k] == b.tags[k - n] && o.locs[k] == b.locs[k - n]);
            }
        }
    }
}

/// The lexer's output from position `i` on: one lexeme and one location per
/// tag, the tokens in source order within the bytes from `i` to the end, and
/// every token's text (but a string literal's) the source text at its
/// location.
pub proof fn lemma_lex_from(s: Seq<char>, i: int, col: int, line: int)
    requires
        0 <= i <= s.len(),
        byte_pos(s, s.len() as int) <= usize::MAX,
    ensures
        out_aligned(lex_from(s, i, col, line)),
        locs_ordered(lex_from(s, i, col, line).locs, byte_pos(s, i), byte_pos(s, s.len() as int)),
        lexemes_from_source(s, lex_from(s, i, col, line)),
        1 <= col && 1 <= line && positions_fit(s, i, col, line) ==> spans_match(lex_from(s, i, col, line)),
    decreases s.len() - i,
{
    lemma_byte_pos_mono(s, i, s.len() as int);
    if i < s.len() {
        let st = lex_step(s, i, col, line);
        if !(st.next <= i || st.next > s.len()) {
            lemma_step_out(s, i, col, line);
            if 1 <= col && 1 <= line {
                lemma_step_pos(s, i, col, line);
            }
            lemma_lex_from(s, st.next, st.col, st.line);
            lemma_byte_pos_mono(s, i, st.next);
            lemma_byte_pos_mono(s, st.next, s.len() as int);
            lemma_concat_out(
                s,
                step_out(s, i, col, line),
                lex_from(s, st.next, st.col, st.line),
                byte_pos(s, i),
                byte_pos(s, st.next),
                byte_pos(s, s.len() as int),
            );
        }
    }
}

/// Of a whole source text, the lexer gives one lexeme and one location per
/// tag; locations are byte offsets in the UTF-8 text, the tokens come in
/// source order and do not overlap; the bytes of the source at the location of
/// every token but a string literal are the bytes of its text, and a word is a
/// keyword exactly when it spells `let`, `mut` or `const`. Where the positions
/// fit in a location, a token other than a string literal stays on one line
/// and spans as many columns as bytes.
pub proof fn law_lex_tokens(s: Seq<char>)
    requires
        vstd::utf8::encode_utf8(s).len() <= usize::MAX,
    ensures
        out_aligned(lex_spec(s)),
        locs_ordered(lex_spec(s).locs, 0, vstd::utf8::encode_utf8(s).len() as int),
        lexemes_from_source(s, lex_spec(s)),
        positions_fit(s, 0, 1, 1) ==> spans_match(lex_spec(s)),
{
    lemma_byte_slice(s, 0, 0);
    lemma_lex_from(s, 0, 1, 1);
}

} // verus!

verus! {

// ---------------------------------------------------------------------------
// Character positions and byte offsets.
// ---------------------------------------------------------------------------

proof fn lemma_encode_scalar_len(c: char)
    ensures
        vstd::utf8::encode_scalar(c as u32).len() == utf8_width(c),
{
    vstd::utf8::char_is_scalar(c);
}

proof fn lemma_encode_concat(a: Seq<char>, b: Seq<char>)
    ensures
        vstd::utf8::encode_utf8(a + b) == vstd::utf8::encode_utf8(a) + vstd::utf8::encode_utf8(b),
    decreases a.len(),
{
    if a.len() == 0 {
        assert(a + b =~= b);
        assert(vstd::utf8::encode_utf8(a) =~= Seq::<u8>::empty());
        assert(vstd::utf8::encode_utf8(a) + vstd::utf8::encode_utf8(b) =~= vstd::utf8::encode_utf8(b));
    } else {
        assert((a + b).drop_first() =~= a.drop_first() + b);
        assert((a + b)[0] == a[0]);
        lemma_encode_concat(a.drop_first(), b);
        assert(vstd::utf8::encode_utf8(a + b) =~= vstd::utf8::encode_scalar(a[0] as u32) + (
        vstd::utf8::encode_utf8(a.drop_first()) + vstd::utf8::encode_utf8(b)));
    }
}

/// The bytes of the first `i` characters number `byte_pos(s, i)`.
pub proof fn lemma_byte_pos(s: Seq<char>, i: int)
    requires
        0 <= i <= s.len(),
    ensures
        vstd::utf8::encode_utf8(s.take(i)).len() == byte_pos(s, i),
        i <= byte_pos(s, i) <= 4 * i,
    decreases i,
{
    if i > 0 {
        lemma_byte_pos(s, i - 1);
        assert(s.take(i) =~= s.take(i - 1) + seq![s[i - 1]]);
        lemma_encode_concat(s.take(i - 1), seq![s[i - 1]]);
        assert(seq![s[i - 1]].drop_first() =~= Seq::<char>::empty());
        assert(vstd::utf8::encode_utf8(seq![s[i - 1]]) =~= vstd::utf8::encode_scalar(s[i - 1] as u32)
            + vstd::utf8::encode_utf8(Seq::<char>::empty()));
        lemma_encode_scalar_len(s[i - 1]);
    }
}

/// Byte offsets grow with positions: strictly, by one per ASCII character.
pub proof fn lemma_byte_pos_mono(s: Seq<char>, i: int, j: int)
    requires
        0 <= i <= j <= s.len(),
    ensures
        byte_pos(s, i) + (j - i) <= byte_pos(s, j),
        (forall|k: int| i <= k < j ==> (#[trigger] s[k] as u32) < 0x80) ==> byte_pos(s, j) - byte_pos(s, i) == j - i,
    decreases j - i,
{
    if i < j {
        lemma_byte_pos_mono(s, i, j - 1);
    }
}

/// The bytes between the offsets of positions `i` and `j` encode the
/// characters between them.
pub proof fn lemma_byte_slice(s: Seq<char>, i: int, j: int)
    requires
        0 <= i <= j <= s.len(),
    ensures
        vstd::utf8::encode_utf8(s).subrange(byte_pos(s, i), byte_pos(s, j)) == vstd::utf8::encode_utf8(
            s.subrange(i, j),
        ),
        vstd::utf8::encode_utf8(s).len() == byte_pos(s, s.len() as int),
{
    let a = s.take(i);
    let m = s.subrange(i, j);
    let c = s.skip(j);
    assert(s =~= a + m + c);
    assert(s.take(j) =~= a + m);
    lemma_encode_concat(a + m, c);
    lemma_encode_concat(a, m);
    lemma_byte_pos(s, i);
    lemma_byte_pos(s, j);
    lemma_byte_pos(s, s.len() as int);
    assert(s.take(s.len() as int) =~= s);
    let ea = vstd::utf8::encode_utf8(a);
    let em = vstd::utf8::encode_utf8(m);
    let ec = vstd::utf8::encode_utf8(c);
    assert(vstd::utf8::encode_utf8(s) == ea + em + ec);
    assert((ea + em + ec).subrange(ea.len() as int, (ea.len() + em.len()) as int) =~= em);
}

} // verus!

verus! {

// ---------------------------------------------------------------------------
// Words and numbers are read whole.
// ---------------------------------------------------------------------------

/// A letter, a decimal digit, or `_`.
pub open spec fn word_char(c: char) -> bool {
    ('a' <= c <= 'z') || ('A' <= c <= 'Z') || ('0' <= c <= '9') || c == '_'
}

/// `w` stands in the source at some position `c`, where no letter, digit or
/// `_` follows it.
pub open spec fn word_read_whole(s: Seq<char>, w: Seq<char>) -> bool {
    exists|c: int|
        0 <= c && c + w.len() <= s.len() && #[trigger] s.subrange(c, c + w.len()) == w && (c + w.len() == s.len()
            || !word_char(s[c + w.len()]))
}

/// `w` stands in the source at some position `c`, where no digit follows it.
pub open spec fn number_read_whole(s: Seq<char>, w: Seq<char>) -> bool {
    exists|c: int|
        0 <= c && c + w.len() <= s.len() && #[trigger] s.subrange(c, c + w.len()) == w && (c + w.len() == s.len()
            || !('0' <= s[c + w.len()] <= '9'))
}

/// Every keyword or identifier starts with a letter or `_`, is made of
/// letters, digits and `_`, and is followed in the source by none of them;
/// every integer is made of digits and is followed by no digit.
pub open spec fn words_whole(s: Seq<char>, out: LexOut) -> bool {
    forall|k: int|
        0 <= k < out.tags.len() ==> {
            let w = #[trigger] out.lexemes[k];
            let t = out.tags[k];
            &&& (t == TokenTag::Identifier || t == TokenTag::LetKeyword || t == TokenTag::MutKeyword || t
                == TokenTag::ConstKeyword) ==> {
                &&& w.len() > 0
                &&& (('a' <= w[0] <= 'z') || ('A' <= w[0] <= 'Z') || w[0] == '_')
                &&& forall|x: int| 0 <= x < w.len() ==> word_char(#[trigger] w[x])
                &&& word_read_whole(s, w)
            }
            &&& t == TokenTag::Integer ==> {
                &&& w.len() > 0
                &&& forall|x: int| 0 <= x < w.len() ==> '0' <= #[trigger] w[x] <= '9'
                &&& number_read_whole(s, w)
            }
        }
}

proof fn lemma_step_words(s: Seq<char>, i: int, col: int, line: int)
    requires
        0 <= i < s.len(),
        i < lex_step(s, i, col, line).next <= s.len(),
    ensures
        out_aligned(step_out(s, i, col, line)),
        words_whole(s, step_out(s, i, col, line)),
{
    let st = lex_step(s, i, col, line);
    let o = step_out(s, i, col, line);
    let c = s[i];
    lemma_ident_end(s, i + 1);
    lemma_digits_end(s, i + 1);
    if o.tags.len() == 1 {
        let w = o.lexemes[0];
        let t = o.tags[0];
        if is_ident_start(c) {
            let j = ident_end(s, i + 1);
            assert(w == s.subrange(i, j));
            assert forall|x: int| 0 <= x < w.len() implies word_char(#[trigger] w[x]) by {
                assert(w[x] == s[i + x]);
                if x > 0 {
                    assert(is_ident_char(s[i + x]));
                }
            }
            assert(s.subrange(i, i + w.len()) == w);
            assert(j == s.len() || !word_char(s[i + w.len()]));
            assert(word_read_whole(s, w));
        } else if is_digit(c) {
            let j = digits_end(s, i + 1);
            assert(w == s.subrange(i, j));
            assert forall|x: int| 0 <= x < w.len() implies '0' <= #[trigger] w[x] <= '9' by {
                assert(w[x] == s[i + x]);
                if x > 0 {
                    assert(is_digit(s[i + x]));
                }
            }
            assert(s.subrange(i, i + w.len()) == w);
            assert(j == s.len() || !('0' <= s[i + w.len()] <= '9'));
            assert(number_read_whole(s, w));
        }
    }
}

proof fn lemma_concat_words(s: Seq<char>, a: LexOut, b: LexOut)
    requires
        out_aligned(a),
        out_aligned(b),
        words_whole(s, a),
        words_whole(s, b),
    ensures
        words_whole(s, concat_out(a, b)),
{
    let o = concat_out(a, b);
    let n = a.tags.len() as int;
    assert forall|k: int| 0 <= k < o.tags.len() implies {
        let w = #[trigger] o.lexemes[k];
        let t = o.tags[k];
        &&& (t == TokenTag::Identifier || t == TokenTag::LetKeyword || t == TokenTag::MutKeyword || t
            == TokenTag::ConstKeyword) ==> {
            &&& w.len() > 0
            &&& (('a' <= w[0] <= 'z') || ('A' <= w[0] <= 'Z') || w[0] == '_')
            &&& forall|x: int| 0 <= x < w.len() ==> word_char(#[trigger] w[x])
            &&& word_read_whole(s, w)
        }
        &&& t == TokenTag::Integer ==> {
            &&& w.len() > 0
            &&& forall|x: int| 0 <= x < w.len() ==> '0' <= #[trigger] w[x] <= '9'
            &&& number_read_whole(s, w)
        }
    } by {
        if k < n {
            assert(o.lexemes[k] == a.lexemes[k] && o.tags[k] == a.tags[k]);
        } else {
            assert(o.lexemes[k] == b.lexemes[k - n] && o.tags[k] == b.tags[k - n]);
        }
    }
}

proof fn lemma_lex_from_words(s: Seq<char>, i: int, col: int, line: int)
    requires
        0 <= i <= s.len(),
    ensures
        out_aligned(lex_from(s, i, col, line)),
        words_whole(s, lex_from(s, i, col, line)),
    decreases s.len() - i,
{
    if i < s.len() {
        let st = lex_step(s, i, col, line);
        if !(st.next <= i || st.next > s.len()) {
            lemma_step_words(s, i, col, line);
            lemma_lex_from_words(s, st.next, st.col, st.line);
            lemma_concat_words(s, step_out(s, i, col, line), lex_from(s, st.next, st.col, st.line));
        }
    }
}

/// Words and numbers are read whole: every keyword or identifier the lexer
/// gives starts with a letter or `_`, is made of letters, digits and `_`, and
/// stands in the source where no letter, digit or `_` follows it; every
/// integer is made of digits and stands where no digit follows it.
pub proof fn law_lex_words(s: Seq<char>)
    ensures
        words_whole(s, lex_spec(s)),
{
    lemma_lex_from_words(s, 0, 1, 1);
}

} // verus!

