use vstd::prelude::*;

verus! {

// ---------------------------------------------------------------------------
// Character classification
//
// The scanner classifies characters with Unicode rules: an identifier may
// contain any alphabetic character, a number lexeme any numeric one. The two
// Unicode tables are not restated here; they are named, and only their ASCII
// fragment is pinned down, which is all the lexical rules of this language
// depend on.
// ---------------------------------------------------------------------------
/// Whether `char::is_alphabetic` holds of `c`.
pub uninterp spec fn alphabetic(c: char) -> bool;

/// Whether `char::is_numeric` holds of `c`.
pub uninterp spec fn numeric(c: char) -> bool;

/// Relies on char::is_alphabetic: the result depends on the character alone;
/// among ASCII characters exactly the letters 'a'..='z' and 'A'..='Z' are
/// alphabetic.
#[verifier::external_body]
pub fn is_alphabetic_char(c: char) -> (r: bool)
    ensures
        r == alphabetic(c),
        (c as u32) < 128 ==> (r <==> (('a' as u32) <= (c as u32) && (c as u32) <= ('z' as u32))
            || (('A' as u32) <= (c as u32) && (c as u32) <= ('Z' as u32))),
{
    c.is_alphabetic()
}

/// Relies on char::is_numeric: the result depends on the character alone;
/// among ASCII characters exactly the digits '0'..='9' are numeric.
#[verifier::external_body]
pub fn is_numeric_char(c: char) -> (r: bool)
    ensures
        r == numeric(c),
        (c as u32) < 128 ==> (r <==> (('0' as u32) <= (c as u32) && (c as u32) <= ('9' as u32))),
{
    c.is_numeric()
}

/// Relies on String::push: appends exactly the one character `c`.
#[verifier::external_body]
pub fn push_char(s: &mut String, c: char)
    ensures
        final(s)@ == old(s)@.push(c),
{
    s.push(c);
}

/// Whitespace: skipped by the scanner without producing a token.
pub open spec fn blank(c: char) -> bool {
    c == ' ' || c == '\r' || c == '\t' || c == '\n'
}

/// Punctuation that structures an expression but is not retained as a leaf
/// of the tree: brackets, and the separators `,`, `:`, `;`.
pub open spec fn punctuation(c: char) -> bool {
    c == '(' || c == ')' || c == '[' || c == ']' || c == '{' || c == '}' || c == ',' || c == ':'
        || c == ';'
}

/// A character that can begin no lexeme and continue none: not punctuation,
/// not an operator character, not whitespace, not `-`, `.` or `_`, and
/// neither alphabetic nor numeric. The scanner reports every occurrence of
/// such a character.
pub open spec fn illegal(c: char) -> bool {
    !(punctuation(c) || c == '&' || c == '|' || c == '!' || c == '=' || c == '<' || c == '>'
        || blank(c) || c == '-' || c == '.' || c == '_' || alphabetic(c) || numeric(c))
}

/// A `-` at index `i` of `s` that no digit follows: such a minus begins no
/// number and is reported wherever it occurs, since `-` can stand nowhere
/// inside a lexeme either.
pub open spec fn dangling_minus(s: Seq<char>, i: int) -> bool {
    s[i] == '-' && !(i + 1 < s.len() && numeric(s[i + 1]))
}

/// The end of the maximal digit run starting at `i`.
pub open spec fn digits_end(s: Seq<char>, i: int) -> int
    decreases s.len() - i,
{
    if 0 <= i && i < s.len() && numeric(s[i]) {
        digits_end(s, i + 1)
    } else {
        i
    }
}

/// The end of the maximal run of alphabetic or `_` characters from `i` on.
pub open spec fn alpha_end(s: Seq<char>, i: int) -> int
    decreases s.len() - i,
{
    if 0 <= i && i < s.len() && (alphabetic(s[i]) || s[i] == '_') {
        alpha_end(s, i + 1)
    } else {
        i
    }
}

/// The end of the maximal run of alphanumeric or `_` characters from `i` on.
pub open spec fn alnum_end(s: Seq<char>, i: int) -> int
    decreases s.len() - i,
{
    if 0 <= i && i < s.len() && (alphabetic(s[i]) || numeric(s[i]) || s[i] == '_') {
        alnum_end(s, i + 1)
    } else {
        i
    }
}

pub proof fn lemma_run_end_bounds(s: Seq<char>, i: int)
    requires
        0 <= i <= s.len(),
    ensures
        i <= digits_end(s, i) <= s.len(),
        i <= alpha_end(s, i) <= s.len(),
        i <= alnum_end(s, i) <= s.len(),
    decreases s.len() - i,
{
    if i < s.len() {
        lemma_run_end_bounds(s, i + 1);
    }
}

// ---------------------------------------------------------------------------
// Source positions
//
// Lines and columns are 1-based; a newline starts the next line at column 1.
// ---------------------------------------------------------------------------
/// The line on which the character at index `i` of `s` stands.
pub open spec fn line_of(s: Seq<char>, i: int) -> int
    decreases i,
{
    if i <= 0 {
        1
    } else {
        line_of(s, i - 1) + if s[i - 1] == '\n' {
            1int
        } else {
            0int
        }
    }
}

/// The column at which the character at index `i` of `s` stands.
pub open spec fn col_of(s: Seq<char>, i: int) -> int
    decreases i,
{
    if i <= 0 {
        1
    } else if s[i - 1] == '\n' {
        1
    } else {
        col_of(s, i - 1) + 1
    }
}

pub proof fn lemma_pos_bounds(s: Seq<char>, i: int)
    requires
        0 <= i,
    ensures
        1 <= line_of(s, i) <= i + 1,
        1 <= col_of(s, i) <= i + 1,
    decreases i,
{
    if i > 0 {
        lemma_pos_bounds(s, i - 1);
    }
}

// ---------------------------------------------------------------------------
// Filtered readings of the source text
// ---------------------------------------------------------------------------
/// The characters of `s` with whitespace removed.
pub open spec fn nonblank(s: Seq<char>) -> Seq<char>
    decreases s.len(),
{
    if s.len() == 0 {
        Seq::empty()
    } else if blank(s.last()) {
        nonblank(s.drop_last())
    } else {
        nonblank(s.drop_last()).push(s.last())
    }
}

/// The characters of `s` with whitespace and punctuation removed: the
/// characters a parsed tree retains in its leaf tokens.
pub open spec fn kept_chars(s: Seq<char>) -> Seq<char>
    decreases s.len(),
{
    if s.len() == 0 {
        Seq::empty()
    } else if blank(s.last()) || punctuation(s.last()) {
        kept_chars(s.drop_last())
    } else {
        kept_chars(s.drop_last()).push(s.last())
    }
}

pub proof fn lemma_nonblank_take_succ(s: Seq<char>, i: int)
    requires
        0 <= i < s.len(),
    ensures
        nonblank(s.take(i + 1)) == if blank(s[i]) {
            nonblank(s.take(i))
        } else {
            nonblank(s.take(i)).push(s[i])
        },
{
    assert(s.take(i + 1).drop_last() =~= s.take(i));
    assert(s.take(i + 1).last() == s[i]);
}

pub proof fn lemma_kept_take_succ(s: Seq<char>, i: int)
    requires
        0 <= i < s.len(),
    ensures
        kept_chars(s.take(i + 1)) == if blank(s[i]) || punctuation(s[i]) {
            kept_chars(s.take(i))
        } else {
            kept_chars(s.take(i)).push(s[i])
        },
{
    assert(s.take(i + 1).drop_last() =~= s.take(i));
    assert(s.take(i + 1).last() == s[i]);
}

/// Appending a run of non-whitespace characters extends the whitespace-free
/// reading by exactly that run.
pub proof fn lemma_nonblank_extend(s: Seq<char>, a: int, b: int)
    requires
        0 <= a <= b <= s.len(),
        forall|i: int| a <= i < b ==> !blank(#[trigger] s[i]),
    ensures
        nonblank(s.take(b)) == nonblank(s.take(a)) + s.subrange(a, b),
    decreases b - a,
{
    if a == b {
        assert(nonblank(s.take(a)) + s.subrange(a, a) =~= nonblank(s.take(a)));
    } else {
        lemma_nonblank_extend(s, a, b - 1);
        lemma_nonblank_take_succ(s, b - 1);
        assert(nonblank(s.take(a)) + s.subrange(a, b) =~= (nonblank(s.take(a)) + s.subrange(
            a,
            b - 1,
        )).push(s[b - 1]));
    }
}

/// The same for a run free of whitespace and of punctuation.
pub proof fn lemma_kept_extend(s: Seq<char>, a: int, b: int)
    requires
        0 <= a <= b <= s.len(),
        forall|i: int| a <= i < b ==> !blank(#[trigger] s[i]) && !punctuation(s[i]),
    ensures
        kept_chars(s.take(b)) == kept_chars(s.take(a)) + s.subrange(a, b),
    decreases b - a,
{
    if a == b {
        assert(kept_chars(s.take(a)) + s.subrange(a, a) =~= kept_chars(s.take(a)));
    } else {
        lemma_kept_extend(s, a, b - 1);
        lemma_kept_take_succ(s, b - 1);
        assert(kept_chars(s.take(a)) + s.subrange(a, b) =~= (kept_chars(s.take(a)) + s.subrange(
            a,
            b - 1,
        )).push(s[b - 1]));
    }
}

} // verus!
