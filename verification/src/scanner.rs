use vstd::prelude::*;

use crate::error::{err_column, err_line, err_message, has_report_at, is_report, ParsingError};
use crate::text::{
    alnum_end, alpha_end, alphabetic, blank, col_of, dangling_minus, digits_end, illegal,
    is_alphabetic_char, is_numeric_char, kept_chars, lemma_kept_extend, lemma_kept_take_succ,
    lemma_nonblank_extend, lemma_nonblank_take_succ, lemma_pos_bounds, lemma_run_end_bounds,
    line_of, nonblank, numeric, punctuation, push_char,
};
use crate::token_type::TokenType;

verus! {

/// One lexeme of the source text: its kind, its literal text, and the 1-based
/// line and column of its first character.
#[derive(Debug, Clone)]
pub struct Token {
    pub variant: TokenType,
    pub lexeme: String,
    pub line: usize,
    pub column: usize,
}

impl Token {
    /// An owned copy; the derived `clone` tells Verus nothing about its result.
    pub fn dup(&self) -> (r: Token)
        ensures
            r == *self,
    {
        Token {
            variant: self.variant,
            lexeme: self.lexeme.clone(),
            line: self.line,
            column: self.column,
        }
    }
}

/// Token kinds that a parsed tree does not retain as leaves: brackets and the
/// separators `,`, `:`, `;`.
pub open spec fn dropped_kind(v: TokenType) -> bool {
    v == TokenType::LeftParen || v == TokenType::RightParen || v == TokenType::LeftBracket
        || v == TokenType::RightBracket || v == TokenType::LeftBrace || v == TokenType::RightBrace
        || v == TokenType::Comma || v == TokenType::Colon || v == TokenType::SemiColon
}

/// The text a token contributes to the leaf reading of a tree.
pub open spec fn kept_entry(t: Token) -> Seq<char> {
    if dropped_kind(t.variant) {
        Seq::empty()
    } else {
        t.lexeme@
    }
}

/// The lexemes of the tokens `a..b`, concatenated.
pub open spec fn cat_lexemes(ts: Seq<Token>, a: int, b: int) -> Seq<char>
    decreases b - a,
{
    if a < 0 || a >= b {
        Seq::empty()
    } else {
        ts[a].lexeme@ + cat_lexemes(ts, a + 1, b)
    }
}

/// The leaf contributions of the tokens `a..b`, concatenated.
pub open spec fn cat_kept(ts: Seq<Token>, a: int, b: int) -> Seq<char>
    decreases b - a,
{
    if a < 0 || a >= b {
        Seq::empty()
    } else {
        kept_entry(ts[a]) + cat_kept(ts, a + 1, b)
    }
}

pub proof fn lemma_cat_lexemes_split(ts: Seq<Token>, a: int, m: int, b: int)
    requires
        0 <= a <= m <= b,
    ensures
        cat_lexemes(ts, a, b) == cat_lexemes(ts, a, m) + cat_lexemes(ts, m, b),
    decreases m - a,
{
    if a == m {
        assert(cat_lexemes(ts, a, m) + cat_lexemes(ts, m, b) =~= cat_lexemes(ts, m, b));
    } else {
        lemma_cat_lexemes_split(ts, a + 1, m, b);
        assert(cat_lexemes(ts, a, m) + cat_lexemes(ts, m, b) =~= ts[a].lexeme@ + (cat_lexemes(
            ts,
            a + 1,
            m,
        ) + cat_lexemes(ts, m, b)));
    }
}

pub proof fn lemma_cat_kept_split(ts: Seq<Token>, a: int, m: int, b: int)
    requires
        0 <= a <= m <= b,
    ensures
        cat_kept(ts, a, b) == cat_kept(ts, a, m) + cat_kept(ts, m, b),
    decreases m - a,
{
    if a == m {
        assert(cat_kept(ts, a, m) + cat_kept(ts, m, b) =~= cat_kept(ts, m, b));
    } else {
        lemma_cat_kept_split(ts, a + 1, m, b);
        assert(cat_kept(ts, a, m) + cat_kept(ts, m, b) =~= kept_entry(ts[a]) + (cat_kept(
            ts,
            a + 1,
            m,
        ) + cat_kept(ts, m, b)));
    }
}

/// Two token sequences that agree on `a..b` concatenate alike there.
pub proof fn lemma_cat_agree(t1: Seq<Token>, t2: Seq<Token>, a: int, b: int)
    requires
        forall|i: int| a <= i < b ==> t1[i] == t2[i],
    ensures
        cat_lexemes(t1, a, b) == cat_lexemes(t2, a, b),
        cat_kept(t1, a, b) == cat_kept(t2, a, b),
    decreases b - a,
{
    if 0 <= a && a < b {
        lemma_cat_agree(t1, t2, a + 1, b);
    }
}

/// Appending one token extends both concatenations by that token's text.
pub proof fn lemma_cat_push(ts: Seq<Token>, t: Token)
    ensures
        cat_lexemes(ts.push(t), 0, ts.len() + 1 as int) == cat_lexemes(ts, 0, ts.len() as int)
            + t.lexeme@,
        cat_kept(ts.push(t), 0, ts.len() + 1 as int) == cat_kept(ts, 0, ts.len() as int)
            + kept_entry(t),
{
    let ts2 = ts.push(t);
    let n = ts.len() as int;
    lemma_cat_lexemes_split(ts2, 0, n, n + 1);
    lemma_cat_kept_split(ts2, 0, n, n + 1);
    lemma_cat_agree(ts, ts2, 0, n);
    assert(ts2[n] == t);
    assert(cat_lexemes(ts2, n + 1, n + 1) =~= Seq::<char>::empty());
    assert(cat_kept(ts2, n + 1, n + 1) =~= Seq::<char>::empty());
    assert(cat_lexemes(ts2, n, n + 1) =~= t.lexeme@);
    assert(cat_kept(ts2, n, n + 1) =~= kept_entry(t));
}

/// The kinds of the tokens of `ts`, in order.
pub open spec fn kind_seq(ts: Seq<Token>) -> Seq<TokenType>
    decreases ts.len(),
{
    if ts.len() == 0 {
        Seq::empty()
    } else {
        kind_seq(ts.drop_last()).push(ts.last().variant)
    }
}

pub broadcast proof fn lemma_kind_seq_len(ts: Seq<Token>)
    ensures
        (#[trigger] kind_seq(ts)).len() == ts.len(),
    decreases ts.len(),
{
    if ts.len() > 0 {
        lemma_kind_seq_len(ts.drop_last());
    }
}

pub broadcast proof fn lemma_kind_seq_index(ts: Seq<Token>, i: int)
    requires
        0 <= i < ts.len(),
    ensures
        #[trigger] kind_seq(ts)[i] == ts[i].variant,
    decreases ts.len(),
{
    lemma_kind_seq_len(ts);
    lemma_kind_seq_len(ts.drop_last());
    if i < ts.len() - 1 {
        lemma_kind_seq_index(ts.drop_last(), i);
        assert(kind_seq(ts)[i] == kind_seq(ts.drop_last())[i]);
        assert(ts.drop_last()[i] == ts[i]);
    }
}

/// Appending one token appends its kind.
pub proof fn lemma_kind_seq_push(ts: Seq<Token>, t: Token)
    ensures
        kind_seq(ts.push(t)) == kind_seq(ts).push(t.variant),
{
    assert(ts.push(t).drop_last() =~= ts);
    assert(ts.push(t).last() == t);
}

/// A well-formed token stream: nonempty, and exactly one end-of-input marker,
/// which stands last and has an empty lexeme.
pub open spec fn tokens_wf(ts: Seq<Token>) -> bool {
    ts.len() >= 1 && ts[ts.len() - 1].variant == TokenType::EOF && ts[ts.len()
        - 1].lexeme@.len() == 0 && (forall|i: int|
        0 <= i < ts.len() - 1 ==> (#[trigger] ts[i].variant) != TokenType::EOF)
}

/// Walks the source text character by character, producing the token stream
/// and reporting malformed characters without halting. The fields are public
/// so that contracts can speak of them.
pub struct Scanner {
    pub source: Vec<char>,
    pub current: usize,
    pub start: usize,
    pub line: usize,
    pub column: usize,
    pub column_start: usize,
    pub tokens: Vec<Token>,
    pub errors: Vec<ParsingError>,
    pub had_error: bool,
}

/// Everything except the cursor, line and column is unchanged.
pub open spec fn same_io(pre: Scanner, post: Scanner) -> bool {
    post.source == pre.source && post.tokens == pre.tokens && post.errors == pre.errors
        && post.had_error == pre.had_error && post.start == pre.start && post.column_start
        == pre.column_start
}

/// Where the numeric part of a number lexeme starting at `i` ends: the digit
/// run after the first character, extended over a fraction when a `.` with a
/// digit directly after it follows the run.
pub open spec fn number_frac_end(s: Seq<char>, i: int) -> int {
    let d = digits_end(s, i + 1);
    if d < s.len() && s[d] == '.' && d + 1 < s.len() && numeric(s[d + 1]) {
        digits_end(s, d + 1)
    } else {
        d
    }
}

/// Where the lexeme or whitespace step starting at `i` ends: one character
/// for punctuation, combinators and whitespace, the one-character `=`
/// lookahead for `!`, `=`, `<` and `>`, the maximal `-?digits(.digits)?`
/// run with its trailing letters for a digit or `-` start, and the maximal
/// alphanumeric run for a letter or `_` start. Malformed characters count
/// one character, which is how the scanner skips them.
pub open spec fn step_end(s: Seq<char>, i: int) -> int {
    let c = s[i];
    if c == '(' || c == ')' || c == '[' || c == ']' || c == '{' || c == '}' || c == ',' || c == ':'
        || c == ';' || c == '&' || c == '|' {
        i + 1
    } else if c == '!' || c == '=' || c == '<' || c == '>' {
        if i + 1 < s.len() && s[i + 1] == '=' {
            i + 2
        } else {
            i + 1
        }
    } else if blank(c) || c == '.' {
        i + 1
    } else if numeric(c) || c == '-' {
        alpha_end(s, number_frac_end(s, i))
    } else if alphabetic(c) || c == '_' {
        alnum_end(s, i + 1)
    } else {
        i + 1
    }
}

/// The kind of the token the lexeme starting at `i` produces: a digit or `-`
/// start is a Number, reclassified as an Identifier exactly when letters
/// follow the numeric run.
pub open spec fn step_kind(s: Seq<char>, i: int) -> TokenType {
    let c = s[i];
    if c == '(' {
        TokenType::LeftParen
    } else if c == ')' {
        TokenType::RightParen
    } else if c == '[' {
        TokenType::LeftBracket
    } else if c == ']' {
        TokenType::RightBracket
    } else if c == '{' {
        TokenType::LeftBrace
    } else if c == '}' {
        TokenType::RightBrace
    } else if c == ',' {
        TokenType::Comma
    } else if c == ':' {
        TokenType::Colon
    } else if c == ';' {
        TokenType::SemiColon
    } else if c == '&' {
        TokenType::And
    } else if c == '|' {
        TokenType::Or
    } else if c == '!' {
        if i + 1 < s.len() && s[i + 1] == '=' {
            TokenType::BangEqual
        } else {
            TokenType::Bang
        }
    } else if c == '=' {
        if i + 1 < s.len() && s[i + 1] == '=' {
            TokenType::EqualEqual
        } else {
            TokenType::Equal
        }
    } else if c == '<' {
        if i + 1 < s.len() && s[i + 1] == '=' {
            TokenType::LessEqual
        } else {
            TokenType::Less
        }
    } else if c == '>' {
        if i + 1 < s.len() && s[i + 1] == '=' {
            TokenType::GreaterEqual
        } else {
            TokenType::Greater
        }
    } else if numeric(c) || c == '-' {
        if alpha_end(s, number_frac_end(s, i)) > number_frac_end(s, i) {
            TokenType::Identifier
        } else {
            TokenType::Number
        }
    } else {
        TokenType::Identifier
    }
}

/// A malformed character at a lexeme boundary: illegal anywhere, a stray
/// `.`, or a dangling minus.
pub open spec fn step_err(s: Seq<char>, i: int) -> bool {
    illegal(s[i]) || s[i] == '.' || dangling_minus(s, i)
}

pub proof fn lemma_step_end_bounds(s: Seq<char>, i: int)
    requires
        0 <= i < s.len(),
    ensures
        i < step_end(s, i) <= s.len(),
{
    lemma_run_end_bounds(s, i + 1);
    let d = digits_end(s, i + 1);
    if d < s.len() && s[d] == '.' && d + 1 < s.len() && numeric(s[d + 1]) {
        lemma_run_end_bounds(s, d + 1);
    }
    lemma_run_end_bounds(s, number_frac_end(s, i));
}

/// The kinds of the tokens the scanner produces for `s` from boundary `i`
/// on, without the final end-of-input marker; malformed characters are
/// skipped.
pub open spec fn spec_kinds(s: Seq<char>, i: int) -> Seq<TokenType>
    decreases s.len() - i,
{
    if !(0 <= i < s.len()) {
        Seq::empty()
    } else if step_err(s, i) || blank(s[i]) {
        spec_kinds(s, i + 1)
    } else {
        let e = step_end(s, i);
        if i < e <= s.len() {
            seq![step_kind(s, i)] + spec_kinds(s, e)
        } else {
            seq![step_kind(s, i)]
        }
    }
}

/// The lexemes the scanner produces for `s` from boundary `i` on,
/// concatenated: the source without its whitespace and without its
/// malformed characters.
pub open spec fn scan_text(s: Seq<char>, i: int) -> Seq<char>
    decreases s.len() - i,
{
    if !(0 <= i < s.len()) {
        Seq::empty()
    } else if step_err(s, i) || blank(s[i]) {
        scan_text(s, i + 1)
    } else {
        let e = step_end(s, i);
        if i < e <= s.len() {
            s.subrange(i, e) + scan_text(s, e)
        } else {
            s.subrange(i, i + 1)
        }
    }
}

/// Whether scanning `s` from boundary `i` on meets no malformed character.
pub open spec fn lex_ok(s: Seq<char>, i: int) -> bool
    decreases s.len() - i,
{
    if !(0 <= i < s.len()) {
        true
    } else if step_err(s, i) {
        false
    } else if blank(s[i]) {
        lex_ok(s, i + 1)
    } else {
        let e = step_end(s, i);
        if i < e <= s.len() {
            lex_ok(s, e)
        } else {
            true
        }
    }
}

/// Token `t` is the one the scanner produces at lexeme boundary `b` of `s`:
/// its lexeme covers exactly the step starting there, its kind follows the
/// step's classification, and its position is the boundary's line and column.
pub open spec fn token_at(s: Seq<char>, b: int, t: Token) -> bool {
    0 <= b < s.len() && !step_err(s, b) && !blank(s[b]) && t.lexeme@ == s.subrange(
        b,
        step_end(s, b),
    ) && t.variant == step_kind(s, b) && t.line == line_of(s, b) && t.column == col_of(s, b)
}

/// Some lexeme boundary of `s` produces exactly the token `t`.
pub open spec fn placed(s: Seq<char>, t: Token) -> bool {
    exists|b: int| token_at(s, b, t)
}

/// A token was pushed whose lexeme covers exactly the source characters
/// `pre.start..post.current`, none of them whitespace; the extent and kind
/// follow the lexeme step rules; it is positioned at its first character; a
/// punctuation token covers exactly its one punctuation character, any other
/// token covers no punctuation at all.
pub open spec fn pushed_token(pre: Scanner, post: Scanner) -> bool {
    let src = pre.source@;
    let t = post.tokens@.last();
    post.tokens@ == pre.tokens@.push(t) && t.variant != TokenType::EOF && pre.start
        < post.current <= src.len() && t.lexeme@ == src.subrange(
        pre.start as int,
        post.current as int,
    ) && post.current == step_end(src, pre.start as int) && t.variant == step_kind(
        src,
        pre.start as int,
    ) && t.line == line_of(
        src,
        pre.start as int,
    ) && t.column == col_of(src, pre.start as int) && (forall|i: int|
        pre.start <= i < post.current ==> !blank(#[trigger] src[i])) && (dropped_kind(t.variant)
        ==> post.current == pre.start + 1 && punctuation(src[pre.start as int])) && (!dropped_kind(
        t.variant,
    ) ==> forall|i: int| pre.start <= i < post.current ==> !punctuation(#[trigger] src[i]))
}

/// One scanning step succeeded: either one whitespace character was skipped,
/// or one token was pushed.
pub open spec fn step_ok(pre: Scanner, post: Scanner) -> bool {
    (post.tokens == pre.tokens && post.current == pre.start + 1 && blank(
        pre.source@[pre.start as int],
    )) || pushed_token(pre, post)
}

impl Scanner {
    /// Index bounds every scanner state keeps. The strict bound on the length
    /// leaves room for the 1-based line and column counters.
    pub open spec fn bounds(self) -> bool {
        self.current <= self.source@.len() && self.source@.len() < usize::MAX
    }

    /// The line and column counters agree with the cursor.
    pub open spec fn pos_ok(self) -> bool {
        self.bounds() && self.line == line_of(self.source@, self.current as int) && self.column
            == col_of(self.source@, self.current as int)
    }

    pub fn new(source: &str) -> (s: Scanner)
        requires
            source@.len() < usize::MAX,
        ensures
            s.pos_ok(),
            s.source@ == source@,
            s.current == 0,
            s.start == 0,
            s.tokens@.len() == 0,
            s.errors@.len() == 0,
            !s.had_error,
    {
        let n = source.unicode_len();
        let mut chars: Vec<char> = Vec::new();
        let mut i: usize = 0;
        while i < n
            invariant
                i <= n,
                n == source@.len(),
                chars@ == source@.take(i as int),
            decreases n - i,
        {
            let c = source.get_char(i);
            chars.push(c);
            i = i + 1;
            proof {
                assert(chars@ =~= source@.take(i as int));
            }
        }
        proof {
            assert(chars@ =~= source@);
        }
        Scanner {
            source: chars,
            current: 0,
            start: 0,
            line: 1,
            column: 1,
            column_start: 1,
            tokens: Vec::new(),
            errors: Vec::new(),
            had_error: false,
        }
    }

    fn at_end(&self) -> (r: bool)
        ensures
            r == (self.current >= self.source@.len()),
    {
        self.current >= self.source.len()
    }

    /// The character under the cursor, if any, without advancing.
    fn peek(&self) -> (r: Option<char>)
        ensures
            r == if self.current < self.source@.len() {
                Some(self.source@[self.current as int])
            } else {
                None::<char>
            },
    {
        if self.current < self.source.len() {
            Some(self.source[self.current])
        } else {
            None
        }
    }

    /// The character after the cursor, if any, without advancing.
    fn peek_next(&self) -> (r: Option<char>)
        requires
            self.bounds(),
        ensures
            r == if self.current + 1 < self.source@.len() {
                Some(self.source@[self.current + 1])
            } else {
                None::<char>
            },
    {
        if self.current + 1 < self.source.len() {
            Some(self.source[self.current + 1])
        } else {
            None
        }
    }

    /// Consumes and returns the character under the cursor.
    fn advance(&mut self) -> (c: char)
        requires
            old(self).bounds(),
            old(self).current < old(self).source@.len(),
            old(self).column <= old(self).current + 1,
        ensures
            same_io(*old(self), *final(self)),
            final(self).line == old(self).line,
            c == old(self).source@[old(self).current as int],
            final(self).current == old(self).current + 1,
            final(self).column == old(self).column + 1,
    {
        let c = self.source[self.current];
        self.current = self.current + 1;
        self.column = self.column + 1;
        c
    }

    /// Consumes the character under the cursor when it equals `expected`.
    fn match_char(&mut self, expected: char) -> (r: bool)
        requires
            old(self).bounds(),
            old(self).column <= old(self).current + 1,
        ensures
            same_io(*old(self), *final(self)),
            final(self).line == old(self).line,
            r ==> old(self).current < old(self).source@.len()
                && old(self).source@[old(self).current as int] == expected && final(self).current
                == old(self).current + 1 && final(self).column == old(self).column + 1,
            !r ==> *final(self) == *old(self) && !(old(self).current < old(
                self,
            ).source@.len() && old(self).source@[old(self).current as int] == expected),
    {
        if let Some(c) = self.peek() {
            if c == expected {
                self.advance();
                return true;
            }
        }
        false
    }

    /// The text of the lexeme `start..current`, as an owned string.
    fn lexeme_string(&self) -> (s: String)
        requires
            self.bounds(),
            self.start <= self.current,
        ensures
            s@ == self.source@.subrange(self.start as int, self.current as int),
    {
        let mut s = String::new();
        let mut j: usize = self.start;
        while j < self.current
            invariant
                self.start <= j <= self.current,
                self.current <= self.source@.len(),
                s@ == self.source@.subrange(self.start as int, j as int),
            decreases self.current - j,
        {
            push_char(&mut s, self.source[j]);
            j = j + 1;
            proof {
                assert(s@ =~= self.source@.subrange(self.start as int, j as int));
            }
        }
        s
    }

    /// Pushes a token for the lexeme `start..current` (empty for `EOF`),
    /// positioned at the recorded lexeme start.
    fn add_token(&mut self, kind: TokenType)
        requires
            old(self).bounds(),
            old(self).start <= old(self).current,
        ensures
            final(self).source == old(self).source,
            final(self).errors == old(self).errors,
            final(self).had_error == old(self).had_error,
            final(self).current == old(self).current,
            final(self).line == old(self).line,
            final(self).column == old(self).column,
            final(self).start == old(self).start,
            final(self).column_start == old(self).column_start,
            final(self).tokens@ == old(self).tokens@.push(final(self).tokens@.last()),
            final(self).tokens@.last().variant == kind,
            final(self).tokens@.last().lexeme@ == if kind == TokenType::EOF {
                Seq::<char>::empty()
            } else {
                old(self).source@.subrange(old(self).start as int, old(self).current as int)
            },
            final(self).tokens@.last().line == old(self).line,
            final(self).tokens@.last().column == old(self).column_start,
    {
        let lexeme = if kind != TokenType::EOF {
            self.lexeme_string()
        } else {
            String::new()
        };
        let token = Token { variant: kind, lexeme, line: self.line, column: self.column_start };
        self.tokens.push(token);
    }

    /// Whether `c` may begin an identifier.
    fn is_alpha(c: char) -> (r: bool)
        ensures
            r == (alphabetic(c) || c == '_'),
            r ==> !blank(c) && !punctuation(c) && !illegal(c) && c != '\n' && c != '&' && c != '|'
                && c != '!' && c != '=' && c != '<' && c != '>' && c != '-' && c != '.',
    {
        is_alphabetic_char(c) || c == '_'
    }

    /// Whether `c` may continue an identifier.
    fn is_alphanumeric(c: char) -> (r: bool)
        ensures
            r == (alphabetic(c) || numeric(c) || c == '_'),
            r ==> !blank(c) && !punctuation(c) && !illegal(c) && c != '\n' && c != '-',
    {
        is_alphabetic_char(c) || is_numeric_char(c) || c == '_'
    }

    /// Scans the rest of an identifier lexeme: the maximal run of alphanumeric
    /// or `_` characters after the already consumed first character.
    fn identifier(&mut self) -> (r: Result<(), ParsingError>)
        requires
            old(self).pos_ok(),
            old(self).start + 1 == old(self).current,
            old(self).current <= old(self).source@.len(),
            !blank(old(self).source@[old(self).start as int]),
            !punctuation(old(self).source@[old(self).start as int]),
            !illegal(old(self).source@[old(self).start as int]),
            !numeric(old(self).source@[old(self).start as int]),
            alphabetic(old(self).source@[old(self).start as int]) || old(self).source@[old(
                self,
            ).start as int] == '_',
            old(self).source@[old(self).start as int] != '.',
            old(self).source@[old(self).start as int] != '-',
            old(self).source@[old(self).start as int] != '&',
            old(self).source@[old(self).start as int] != '|',
            old(self).source@[old(self).start as int] != '!',
            old(self).source@[old(self).start as int] != '=',
            old(self).source@[old(self).start as int] != '<',
            old(self).source@[old(self).start as int] != '>',
            old(self).line == line_of(old(self).source@, old(self).start as int),
            old(self).column_start == col_of(old(self).source@, old(self).start as int),
        ensures
            final(self).pos_ok(),
            final(self).source == old(self).source,
            final(self).errors == old(self).errors,
            final(self).had_error == old(self).had_error,
            final(self).start == old(self).start,
            old(self).current <= final(self).current <= old(self).source@.len(),
            forall|i: int|
                old(self).current <= i < final(self).current ==> !illegal(
                    #[trigger] old(self).source@[i],
                ) && old(self).source@[i] != '-',
            r is Ok,
            pushed_token(*old(self), *final(self)),
    {
        let ghost pre = *self;
        let mut go = true;
        while go
            invariant
                self.pos_ok(),
                same_io(pre, *self),
                self.line == pre.line,
                pre.start + 1 <= self.current <= self.source@.len(),
                pre.start + 1 == pre.current,
                alnum_end(self.source@, pre.current as int) == alnum_end(
                    self.source@,
                    self.current as int,
                ),
                !go ==> self.current >= self.source@.len() || !(alphabetic(
                    self.source@[self.current as int],
                ) || numeric(self.source@[self.current as int]) || self.source@[self.current as int]
                    == '_'),
                forall|i: int|
                    pre.start <= i < self.current ==> !blank(#[trigger] self.source@[i])
                        && !punctuation(self.source@[i]) && !illegal(self.source@[i]),
                forall|i: int|
                    pre.start < i < self.current ==> (#[trigger] self.source@[i]) != '-',
            decreases self.source@.len() - self.current + (if go {
                1int
            } else {
                0int
            }),
        {
            match self.peek() {
                Some(c) => {
                    if Self::is_alphanumeric(c) {
                        proof {
                            lemma_pos_bounds(self.source@, self.current as int);
                        }
                        self.advance();
                    } else {
                        go = false;
                    }
                },
                None => {
                    go = false;
                },
            }
        }
        proof {
            assert(alnum_end(self.source@, self.current as int) == self.current);
            assert(self.current == step_end(self.source@, pre.start as int));
            assert(step_kind(self.source@, pre.start as int) == TokenType::Identifier);
        }
        self.add_token(TokenType::Identifier);
        Ok(())
    }

    /// Scans the rest of a number lexeme after its first character `c_start`:
    /// a digit run, then one `.` only when a digit follows it, then a further
    /// digit run; trailing letters reclassify the whole run as an identifier.
    /// A `-` followed by no digit is reported as a fatal error.
    fn number_or_identifier(&mut self, c_start: char) -> (r: Result<(), ParsingError>)
        requires
            old(self).pos_ok(),
            old(self).start + 1 == old(self).current,
            old(self).source@[old(self).start as int] == c_start,
            numeric(c_start) || c_start == '-',
            !blank(c_start),
            !punctuation(c_start),
            !illegal(c_start),
            c_start != '&' && c_start != '|' && c_start != '!' && c_start != '=' && c_start != '<'
                && c_start != '>' && c_start != '.',
            old(self).line == line_of(old(self).source@, old(self).start as int),
            old(self).column_start == col_of(old(self).source@, old(self).start as int),
        ensures
            final(self).pos_ok(),
            final(self).source == old(self).source,
            final(self).errors == old(self).errors,
            final(self).had_error == old(self).had_error,
            final(self).start == old(self).start,
            old(self).current <= final(self).current <= old(self).source@.len(),
            forall|i: int|
                old(self).current <= i < final(self).current ==> !illegal(
                    #[trigger] old(self).source@[i],
                ) && old(self).source@[i] != '-',
            r is Ok ==> pushed_token(*old(self), *final(self)),
            r is Err <==> dangling_minus(old(self).source@, old(self).start as int),
            r matches Err(e) ==> *final(self) == *old(self) && is_report(e) && err_line(e) == old(
                self,
            ).line && err_column(e) == old(self).column && err_message(e)
                == "Expected number"@,
    {
        // Rule out the case of a minus without a number.
        if c_start == '-' {
            let follows_digit = match self.peek() {
                Some(c) => is_numeric_char(c),
                None => false,
            };
            if !follows_digit {
                return Err(
                    ParsingError::Report {
                        message: "Expected number".to_owned(),
                        line: self.line,
                        column: self.column,
                    },
                );
            }
        }
        let ghost pre = *self;
        // Integer part of the number.
        let mut go = true;
        while go
            invariant
                self.pos_ok(),
                same_io(pre, *self),
                self.line == pre.line,
                pre.start + 1 <= self.current <= self.source@.len(),
                pre.start + 1 == pre.current,
                digits_end(self.source@, pre.current as int) == digits_end(
                    self.source@,
                    self.current as int,
                ),
                !go ==> self.current >= self.source@.len() || !numeric(
                    self.source@[self.current as int],
                ),
                forall|i: int|
                    pre.start <= i < self.current ==> !blank(#[trigger] self.source@[i])
                        && !punctuation(self.source@[i]) && !illegal(self.source@[i]),
                forall|i: int|
                    pre.start < i < self.current ==> (#[trigger] self.source@[i]) != '-',
            decreases self.source@.len() - self.current + (if go {
                1int
            } else {
                0int
            }),
        {
            match self.peek() {
                Some(c) => {
                    if is_numeric_char(c) {
                        proof {
                            lemma_pos_bounds(self.source@, self.current as int);
                        }
                        self.advance();
                    } else {
                        go = false;
                    }
                },
                None => {
                    go = false;
                },
            }
        }
        let ghost d = self.current as int;
        proof {
            assert(digits_end(self.source@, pre.current as int) == d);
        }
        // Fractional part: the '.' is consumed only when a digit follows.
        let mut fraction = false;
        if let Some(c) = self.peek() {
            if c == '.' {
                if let Some(c_next) = self.peek_next() {
                    if is_numeric_char(c_next) {
                        fraction = true;
                    }
                }
            }
        }
        proof {
            assert(fraction == (d < self.source@.len() && self.source@[d] == '.' && d + 1
                < self.source@.len() && numeric(self.source@[d + 1])));
        }
        if fraction {
            proof {
                lemma_pos_bounds(self.source@, self.current as int);
            }
            self.advance();  // the '.'
            let mut go2 = true;
            while go2
                invariant
                    self.pos_ok(),
                    same_io(pre, *self),
                    self.line == pre.line,
                    pre.start + 1 <= self.current <= self.source@.len(),
                    pre.start + 1 == pre.current,
                    digits_end(self.source@, d + 1) == digits_end(
                        self.source@,
                        self.current as int,
                    ),
                    !go2 ==> self.current >= self.source@.len() || !numeric(
                        self.source@[self.current as int],
                    ),
                    forall|i: int|
                        pre.start <= i < self.current ==> !blank(#[trigger] self.source@[i])
                            && !punctuation(self.source@[i]) && !illegal(self.source@[i]),
                    forall|i: int|
                        pre.start < i < self.current ==> (#[trigger] self.source@[i]) != '-',
                decreases self.source@.len() - self.current + (if go2 {
                    1int
                } else {
                    0int
                }),
            {
                match self.peek() {
                    Some(c) => {
                        if is_numeric_char(c) {
                            proof {
                                lemma_pos_bounds(self.source@, self.current as int);
                            }
                            self.advance();
                        } else {
                            go2 = false;
                        }
                    },
                    None => {
                        go2 = false;
                    },
                }
            }
        }
        let ghost nfe = self.current as int;
        proof {
            assert(nfe == number_frac_end(self.source@, pre.start as int));
        }
        // Letters directly after the numeric run make the lexeme an identifier.
        let mut is_identifier = false;
        let mut go3 = true;
        while go3
            invariant
                self.pos_ok(),
                same_io(pre, *self),
                self.line == pre.line,
                pre.start + 1 <= self.current <= self.source@.len(),
                pre.start + 1 == pre.current,
                nfe <= self.current,
                alpha_end(self.source@, nfe) == alpha_end(self.source@, self.current as int),
                is_identifier == (self.current > nfe),
                !go3 ==> self.current >= self.source@.len() || !(alphabetic(
                    self.source@[self.current as int],
                ) || self.source@[self.current as int] == '_'),
                forall|i: int|
                    pre.start <= i < self.current ==> !blank(#[trigger] self.source@[i])
                        && !punctuation(self.source@[i]) && !illegal(self.source@[i]),
                forall|i: int|
                    pre.start < i < self.current ==> (#[trigger] self.source@[i]) != '-',
            decreases self.source@.len() - self.current + (if go3 {
                1int
            } else {
                0int
            }),
        {
            match self.peek() {
                Some(c) => {
                    if Self::is_alpha(c) {
                        proof {
                            lemma_pos_bounds(self.source@, self.current as int);
                        }
                        self.advance();
                        is_identifier = true;
                    } else {
                        go3 = false;
                    }
                },
                None => {
                    go3 = false;
                },
            }
        }
        proof {
            assert(alpha_end(self.source@, nfe) == self.current);
            assert(self.current == step_end(self.source@, pre.start as int));
            assert(is_identifier == (step_kind(self.source@, pre.start as int)
                == TokenType::Identifier));
        }
        if is_identifier {
            self.add_token(TokenType::Identifier);
        } else {
            self.add_token(TokenType::Number);
        }
        Ok(())
    }

    /// Scans one lexeme, or skips one whitespace character, starting at the
    /// cursor, which the caller has marked as the lexeme start.
    fn scan_token(&mut self) -> (r: Result<(), ParsingError>)
        requires
            old(self).pos_ok(),
            old(self).current < old(self).source@.len(),
            old(self).start == old(self).current,
            old(self).column_start == old(self).column,
        ensures
            final(self).pos_ok(),
            final(self).source == old(self).source,
            final(self).errors == old(self).errors,
            final(self).had_error == old(self).had_error,
            final(self).start == old(self).start,
            old(self).current < final(self).current <= old(self).source@.len(),
            forall|i: int|
                old(self).current < i < final(self).current ==> !illegal(
                    #[trigger] old(self).source@[i],
                ) && old(self).source@[i] != '-',
            r is Err <==> illegal(old(self).source@[old(self).current as int]) || old(
                self,
            ).source@[old(self).current as int] == '.' || dangling_minus(
                old(self).source@,
                old(self).current as int,
            ),
            r is Ok ==> step_ok(*old(self), *final(self)),
            r matches Err(e) ==> final(self).tokens == old(self).tokens && final(self).current
                == old(self).current + 1 && is_report(e) && ((illegal(
                old(self).source@[old(self).current as int],
            ) || old(self).source@[old(self).current as int] == '.') ==> err_line(e) == line_of(
                old(self).source@,
                old(self).current as int,
            ) && err_column(e) == col_of(old(self).source@, old(self).current as int)),
            r matches Err(e) ==> (dangling_minus(old(self).source@, old(self).current as int)
                ==> err_line(e) == line_of(old(self).source@, old(self).current as int)
                && err_column(e) == col_of(old(self).source@, old(self).current as int) + 1),
            r matches Err(e) ==> (illegal(old(self).source@[old(self).current as int])
                ==> err_message(e) == "Unexpected character"@) && (old(self).source@[old(
                self,
            ).current as int] == '.' ==> err_message(e)
                == "'.' only allowed as decimal separator"@) && (dangling_minus(
                old(self).source@,
                old(self).current as int,
            ) ==> err_message(e) == "Expected number"@),
    {
        proof {
            lemma_pos_bounds(self.source@, self.current as int);
        }
        let c = self.advance();
        proof {
            if c == '\n' {
                assert(col_of(self.source@, self.current as int) == 1);
                assert(line_of(self.source@, self.current as int) == line_of(
                    self.source@,
                    self.current - 1,
                ) + 1);
            } else {
                assert(col_of(self.source@, self.current as int) == col_of(
                    self.source@,
                    self.current - 1,
                ) + 1);
                assert(line_of(self.source@, self.current as int) == line_of(
                    self.source@,
                    self.current - 1,
                ));
            }
        }
        if c == '(' {
            self.add_token(TokenType::LeftParen);
            Ok(())
        } else if c == ')' {
            self.add_token(TokenType::RightParen);
            Ok(())
        } else if c == '[' {
            self.add_token(TokenType::LeftBracket);
            Ok(())
        } else if c == ']' {
            self.add_token(TokenType::RightBracket);
            Ok(())
        } else if c == '{' {
            self.add_token(TokenType::LeftBrace);
            Ok(())
        } else if c == '}' {
            self.add_token(TokenType::RightBrace);
            Ok(())
        } else if c == ',' {
            self.add_token(TokenType::Comma);
            Ok(())
        } else if c == '.' {
            // A '.' is consumed inside a number lexeme only; anywhere else it
            // is malformed.
            Err(
                ParsingError::Report {
                    message: "'.' only allowed as decimal separator".to_owned(),
                    line: self.line,
                    column: self.column - 1,
                },
            )
        } else if c == ':' {
            self.add_token(TokenType::Colon);
            Ok(())
        } else if c == ';' {
            self.add_token(TokenType::SemiColon);
            Ok(())
        } else if c == '&' {
            self.add_token(TokenType::And);
            Ok(())
        } else if c == '|' {
            self.add_token(TokenType::Or);
            Ok(())
        } else if c == '!' {
            if self.match_char('=') {
                proof {
                    assert(col_of(self.source@, self.current as int) == col_of(
                        self.source@,
                        self.current - 1,
                    ) + 1);
                    assert(line_of(self.source@, self.current as int) == line_of(
                        self.source@,
                        self.current - 1,
                    ));
                }
                self.add_token(TokenType::BangEqual);
            } else {
                self.add_token(TokenType::Bang);
            }
            Ok(())
        } else if c == '=' {
            if self.match_char('=') {
                proof {
                    assert(col_of(self.source@, self.current as int) == col_of(
                        self.source@,
                        self.current - 1,
                    ) + 1);
                    assert(line_of(self.source@, self.current as int) == line_of(
                        self.source@,
                        self.current - 1,
                    ));
                }
                self.add_token(TokenType::EqualEqual);
            } else {
                self.add_token(TokenType::Equal);
            }
            Ok(())
        } else if c == '<' {
            if self.match_char('=') {
                proof {
                    assert(col_of(self.source@, self.current as int) == col_of(
                        self.source@,
                        self.current - 1,
                    ) + 1);
                    assert(line_of(self.source@, self.current as int) == line_of(
                        self.source@,
                        self.current - 1,
                    ));
                }
                self.add_token(TokenType::LessEqual);
            } else {
                self.add_token(TokenType::Less);
            }
            Ok(())
        } else if c == '>' {
            if self.match_char('=') {
                proof {
                    assert(col_of(self.source@, self.current as int) == col_of(
                        self.source@,
                        self.current - 1,
                    ) + 1);
                    assert(line_of(self.source@, self.current as int) == line_of(
                        self.source@,
                        self.current - 1,
                    ));
                }
                self.add_token(TokenType::GreaterEqual);
            } else {
                self.add_token(TokenType::Greater);
            }
            Ok(())
        } else if c == ' ' || c == '\r' || c == '\t' {
            // Whitespace is skipped without a token.
            Ok(())
        } else if c == '\n' {
            self.line = self.line + 1;
            self.column = 1;
            Ok(())
        } else {
            let numeric_start = is_numeric_char(c);
            if numeric_start || c == '-' {
                self.number_or_identifier(c)
            } else if Self::is_alpha(c) {
                self.identifier()
            } else {
                Err(
                    ParsingError::Report {
                        message: "Unexpected character".to_owned(),
                        line: self.line,
                        column: self.column - 1,
                    },
                )
            }
        }
    }

    /// Scans the whole source, appending tokens and diagnostics. The token
    /// stream always ends in exactly one `EOF` marker, its kinds follow the
    /// lexeme steps of the source exactly, and the token texts together
    /// spell the source without its whitespace and its malformed characters.
    /// Every token carries the lexeme, kind, line and column of its source
    /// boundary. Every illegal character and every dangling minus is
    /// reported at its position, and the fatal flag is raised exactly when
    /// some lexeme boundary holds a malformed character.
    pub fn scan(&mut self) -> (r: Result<(), ParsingError>)
        requires
            old(self).pos_ok(),
            old(self).current == 0,
            old(self).tokens@.len() == 0,
            old(self).errors@.len() == 0,
            !old(self).had_error,
        ensures
            r is Ok,
            final(self).source == old(self).source,
            tokens_wf(final(self).tokens@),
            forall|j: int|
                0 <= j < final(self).tokens@.len() ==> (#[trigger] final(self).tokens@[j].variant)
                    != TokenType::Minus,
            !final(self).had_error ==> cat_lexemes(
                final(self).tokens@,
                0,
                final(self).tokens@.len() as int,
            ) == nonblank(old(self).source@),
            !final(self).had_error ==> cat_kept(
                final(self).tokens@,
                0,
                final(self).tokens@.len() as int,
            ) == kept_chars(old(self).source@),
            final(self).had_error <==> final(self).errors@.len() > 0,
            forall|k: int|
                0 <= k < final(self).errors@.len() ==> is_report(#[trigger] final(self).errors@[k]),
            forall|i: int|
                0 <= i < old(self).source@.len() && illegal(#[trigger] old(self).source@[i])
                    ==> has_report_at(
                    final(self).errors@,
                    line_of(old(self).source@, i),
                    col_of(old(self).source@, i),
                ),
            forall|i: int|
                0 <= i < old(self).source@.len() && dangling_minus(old(self).source@, i)
                    ==> has_report_at(
                    final(self).errors@,
                    line_of(old(self).source@, i),
                    col_of(old(self).source@, i) + 1,
                ) && final(self).had_error,
            final(self).had_error ==> exists|i: int|
                0 <= i < old(self).source@.len() && (illegal(#[trigger] old(self).source@[i])
                    || old(self).source@[i] == '.' || dangling_minus(old(self).source@, i)),
            kind_seq(final(self).tokens@) == spec_kinds(old(self).source@, 0).push(TokenType::EOF),
            cat_lexemes(final(self).tokens@, 0, final(self).tokens@.len() as int) == scan_text(
                old(self).source@,
                0,
            ),
            final(self).had_error <==> !lex_ok(old(self).source@, 0),
            forall|j: int|
                0 <= j < final(self).tokens@.len() - 1 ==> #[trigger] placed(
                    old(self).source@,
                    final(self).tokens@[j],
                ),
    {
        while !self.at_end()
            invariant
                self.pos_ok(),
                self.source == old(self).source,
                forall|j: int|
                    0 <= j < self.tokens@.len() ==> (#[trigger] self.tokens@[j].variant)
                        != TokenType::EOF,
                forall|j: int|
                    0 <= j < self.tokens@.len() ==> (#[trigger] self.tokens@[j].variant)
                        != TokenType::Minus,
                !self.had_error ==> cat_lexemes(self.tokens@, 0, self.tokens@.len() as int)
                    == nonblank(self.source@.take(self.current as int)),
                !self.had_error ==> cat_kept(self.tokens@, 0, self.tokens@.len() as int)
                    == kept_chars(self.source@.take(self.current as int)),
                self.had_error <==> self.errors@.len() > 0,
                forall|k: int| 0 <= k < self.errors@.len() ==> is_report(#[trigger] self.errors@[k]),
                forall|i: int|
                    0 <= i < self.current && illegal(#[trigger] self.source@[i]) ==> has_report_at(
                        self.errors@,
                        line_of(self.source@, i),
                        col_of(self.source@, i),
                    ),
                forall|i: int|
                    0 <= i < self.current && dangling_minus(self.source@, i) && (
                    #[trigger] self.source@[i]) == '-' ==> has_report_at(
                        self.errors@,
                        line_of(self.source@, i),
                        col_of(self.source@, i) + 1,
                    ),
                self.had_error ==> exists|i: int|
                    0 <= i < self.current && (illegal(#[trigger] self.source@[i])
                        || self.source@[i] == '.' || dangling_minus(self.source@, i)),
                spec_kinds(self.source@, 0) == kind_seq(self.tokens@) + spec_kinds(
                    self.source@,
                    self.current as int,
                ),
                scan_text(self.source@, 0) == cat_lexemes(
                    self.tokens@,
                    0,
                    self.tokens@.len() as int,
                ) + scan_text(self.source@, self.current as int),
                lex_ok(self.source@, 0) <==> (!self.had_error && lex_ok(
                    self.source@,
                    self.current as int,
                )),
                forall|j: int|
                    0 <= j < self.tokens@.len() ==> #[trigger] placed(
                        self.source@,
                        self.tokens@[j],
                    ),
            decreases self.source@.len() - self.current,
        {
            self.start = self.current;
            self.column_start = self.column;
            let ghost pre = *self;
            let result = self.scan_token();
            match result {
                Ok(()) => {
                    proof {
                        if pushed_token(pre, *self) {
                            let t = self.tokens@.last();
                            lemma_cat_push(pre.tokens@, t);
                            lemma_kind_seq_push(pre.tokens@, t);
                            assert(spec_kinds(self.source@, pre.current as int) == seq![
                                step_kind(self.source@, pre.current as int),
                            ] + spec_kinds(self.source@, self.current as int));
                            assert(kind_seq(self.tokens@) =~= kind_seq(pre.tokens@) + seq![
                                t.variant,
                            ]);
                            assert(spec_kinds(self.source@, 0) =~= kind_seq(self.tokens@)
                                + spec_kinds(self.source@, self.current as int));
                            assert(scan_text(self.source@, pre.current as int) == self.source@.subrange(
                                pre.current as int,
                                self.current as int,
                            ) + scan_text(self.source@, self.current as int));
                            assert(scan_text(self.source@, 0) =~= cat_lexemes(
                                self.tokens@,
                                0,
                                self.tokens@.len() as int,
                            ) + scan_text(self.source@, self.current as int));
                            assert(lex_ok(self.source@, pre.current as int) == lex_ok(
                                self.source@,
                                self.current as int,
                            ));
                            assert(token_at(self.source@, pre.current as int, t));
                            assert(placed(self.source@, t));
                            if !self.had_error {
                                lemma_nonblank_extend(
                                    self.source@,
                                    pre.current as int,
                                    self.current as int,
                                );
                                assert(cat_lexemes(self.tokens@, 0, self.tokens@.len() as int)
                                    =~= nonblank(self.source@.take(self.current as int)));
                                if dropped_kind(t.variant) {
                                    lemma_kept_take_succ(self.source@, pre.current as int);
                                    assert(cat_kept(self.tokens@, 0, self.tokens@.len() as int)
                                        =~= kept_chars(self.source@.take(self.current as int)));
                                } else {
                                    lemma_kept_extend(
                                        self.source@,
                                        pre.current as int,
                                        self.current as int,
                                    );
                                    assert(cat_kept(self.tokens@, 0, self.tokens@.len() as int)
                                        =~= kept_chars(self.source@.take(self.current as int)));
                                }
                            }
                        } else {
                            assert(spec_kinds(self.source@, pre.current as int) == spec_kinds(
                                self.source@,
                                self.current as int,
                            ));
                            assert(scan_text(self.source@, pre.current as int) == scan_text(
                                self.source@,
                                self.current as int,
                            ));
                            assert(lex_ok(self.source@, pre.current as int) == lex_ok(
                                self.source@,
                                self.current as int,
                            ));
                            if !self.had_error {
                                lemma_nonblank_take_succ(self.source@, pre.current as int);
                                lemma_kept_take_succ(self.source@, pre.current as int);
                            }
                        }
                    }
                },
                Err(e) => {
                    self.errors.push(e);
                    self.had_error = true;
                    proof {
                        assert(step_err(self.source@, pre.current as int));
                        assert(spec_kinds(self.source@, pre.current as int) == spec_kinds(
                            self.source@,
                            self.current as int,
                        ));
                        assert(scan_text(self.source@, pre.current as int) == scan_text(
                            self.source@,
                            self.current as int,
                        ));
                        assert(!lex_ok(self.source@, pre.current as int));
                        assert forall|i: int|
                            0 <= i < self.current && illegal(self.source@[i]) implies has_report_at(
                            self.errors@,
                            line_of(self.source@, i),
                            col_of(self.source@, i),
                        ) by {
                            if i < pre.current {
                                let l = line_of(self.source@, i);
                                let cc = col_of(self.source@, i);
                                let k = choose|k: int|
                                    0 <= k < pre.errors@.len() && is_report(#[trigger] pre.errors@[k])
                                        && err_line(pre.errors@[k]) == l && err_column(
                                        pre.errors@[k],
                                    ) == cc;
                                assert(self.errors@[k] == pre.errors@[k]);
                            } else if i == pre.current {
                                assert(self.errors@[self.errors@.len() - 1] == e);
                            }
                        }
                        assert forall|i: int|
                            0 <= i < self.current && dangling_minus(self.source@, i)
                                && self.source@[i] == '-' implies has_report_at(
                            self.errors@,
                            line_of(self.source@, i),
                            col_of(self.source@, i) + 1,
                        ) by {
                            if i < pre.current {
                                let l = line_of(self.source@, i);
                                let cc = col_of(self.source@, i) + 1;
                                let k = choose|k: int|
                                    0 <= k < pre.errors@.len() && is_report(#[trigger] pre.errors@[k])
                                        && err_line(pre.errors@[k]) == l && err_column(
                                        pre.errors@[k],
                                    ) == cc;
                                assert(self.errors@[k] == pre.errors@[k]);
                            } else if i == pre.current {
                                assert(self.errors@[self.errors@.len() - 1] == e);
                            }
                        }
                    }
                },
            }
        }
        proof {
            assert(self.source@.take(self.current as int) =~= self.source@);
        }
        self.start = self.current;
        self.column_start = self.column;
        let ghost before_eof = *self;
        self.add_token(TokenType::EOF);
        proof {
            let t = self.tokens@.last();
            lemma_cat_push(before_eof.tokens@, t);
            lemma_kind_seq_push(before_eof.tokens@, t);
            assert(spec_kinds(self.source@, self.source@.len() as int) =~= Seq::<
                TokenType,
            >::empty());
            assert(scan_text(self.source@, self.source@.len() as int) =~= Seq::<char>::empty());
            assert(kind_seq(self.tokens@) =~= spec_kinds(self.source@, 0).push(TokenType::EOF));
            assert(cat_lexemes(self.tokens@, 0, self.tokens@.len() as int) =~= scan_text(
                self.source@,
                0,
            ));
            if !self.had_error {
                assert(cat_lexemes(self.tokens@, 0, self.tokens@.len() as int) =~= nonblank(
                    self.source@,
                ));
                assert(cat_kept(self.tokens@, 0, self.tokens@.len() as int) =~= kept_chars(
                    self.source@,
                ));
            }
        }
        Ok(())
    }
}

} // verus!
