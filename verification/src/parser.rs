use vstd::prelude::*;

use crate::error::{err_message, is_report, ParsingError};
use crate::expr::{
    derives_and, derives_list, derives_or, derives_primary, derives_rhs, derives_set, is_cmp_op,
    leaves, wf_and, wf_list, wf_or, wf_primary, wf_rhs, wf_set, width, Expr,
};
use crate::scanner::{
    cat_kept, dropped_kind, kept_entry, kind_seq, lemma_cat_kept_split, tokens_wf, Token,
};
use crate::text::push_char;
use crate::token_type::TokenType;
use vstd::string::StringExecFns;

verus! {

broadcast use crate::scanner::lemma_kind_seq_len, crate::scanner::lemma_kind_seq_index;

/// A recursive-descent parser for the filter grammar:
///
/// ```text
/// or_group  -> and_group ( "|" or_group )?
/// and_group -> primary ( "&" and_group )?
/// primary   -> filter | grouping
/// grouping  -> "(" or_group ")" | "[" or_group "]" | "{" or_group "}"
/// filter    -> set cmp_op ( range | list | set | NUMBER )
/// cmp_op    -> "=" | "==" | "!=" | ">" | ">=" | "<" | "<="
/// set       -> ( ( NUMBER | IDENTIFIER ) ";" )? IDENTIFIER
/// range     -> NUMBER ":" NUMBER
/// list      -> NUMBER ( "," NUMBER )*
/// ```
///
/// Both combinators recurse into their own right-hand side, so `&` and `|`
/// are right-associative by construction. After a failed group the parser
/// synchronizes: it skips to just past the next combinator and goes on, so
/// one malformed segment costs one user-facing diagnostic. The fields are
/// public so that contracts can speak of them.
pub struct Parser {
    pub tokens: Vec<Token>,
    pub current: usize,
    pub errors: Vec<ParsingError>,
    pub had_error: bool,
    pub synchronized: bool,
}

/// What every parsing step preserves: the token stream and the synchronized
/// flag are untouched, the cursor only moves forward and stays in bounds,
/// recorded diagnostics are only appended to, and a raised fatal flag stays
/// raised.
pub open spec fn steps(pre: Parser, post: Parser) -> bool {
    post.tokens == pre.tokens && post.synchronized == pre.synchronized && pre.current
        <= post.current && post.current < pre.tokens@.len() && (pre.had_error ==> post.had_error)
        && post.errors@.len() >= pre.errors@.len() && (forall|i: int|
        0 <= i < pre.errors@.len() ==> post.errors@[i] == pre.errors@[i])
}

/// A `;` stands directly after position `a`.
pub open spec fn semi_next(ks: Seq<TokenType>, a: int) -> bool {
    a + 1 < ks.len() && ks[a + 1] == TokenType::SemiColon
}

/// The token shape on which `set` is bound to succeed: a bare item
/// identifier, or question `;` item.
pub open spec fn set_shape(ks: Seq<TokenType>, a: int) -> bool {
    if semi_next(ks, a) {
        (ks[a] == TokenType::Identifier || ks[a] == TokenType::Number) && a + 2
            < ks.len() && ks[a + 2] == TokenType::Identifier
    } else {
        ks[a] == TokenType::Identifier
    }
}

/// The token shape on which `range` is bound to succeed: number `:` number.
pub open spec fn range_shape(ks: Seq<TokenType>, a: int) -> bool {
    ks[a] == TokenType::Number && a + 1 < ks.len() && ks[a + 1] == TokenType::Colon
        && a + 2 < ks.len() && ks[a + 2] == TokenType::Number
}

/// The token shape on which `list` is bound to succeed: a number, and after
/// every directly following comma a further list.
pub open spec fn list_shape(ks: Seq<TokenType>, a: int) -> bool
    decreases ks.len() - a,
{
    ks[a] == TokenType::Number && (if a + 1 < ks.len() && ks[a + 1]
        == TokenType::Comma {
        list_shape(ks, a + 2)
    } else {
        true
    })
}

/// The token shape on which the right-hand side of a filter is bound to
/// succeed, following the parser's lookahead order: a range when a `:`
/// stands next-but-one, a list when a `,` does, a set reference when an
/// identifier stands under the cursor or a `;` next-but-one, and a bare
/// number otherwise.
pub open spec fn rhs_shape(ks: Seq<TokenType>, b: int) -> bool {
    if b + 1 < ks.len() && ks[b + 1] == TokenType::Colon {
        range_shape(ks, b)
    } else if b + 1 < ks.len() && ks[b + 1] == TokenType::Comma {
        list_shape(ks, b)
    } else if ks[b] == TokenType::Identifier || semi_next(ks, b) {
        set_shape(ks, b)
    } else {
        ks[b] == TokenType::Number
    }
}

/// The token shape on which `filter` is bound to succeed: a set reference,
/// a comparison operator, and a right-hand side.
pub open spec fn filter_shape(ks: Seq<TokenType>, a: int) -> bool {
    set_shape(ks, a) && ({
        let m = if semi_next(ks, a) {
            a + 3
        } else {
            a + 1
        };
        is_cmp_op(ks[m]) && rhs_shape(ks, m + 1)
    })
}

/// Where the maximal comma-joined list starting at `a` ends.
pub open spec fn list_end(ks: Seq<TokenType>, a: int) -> int
    decreases ks.len() - a,
{
    if a + 1 < ks.len() && ks[a + 1] == TokenType::Comma {
        list_end(ks, a + 2)
    } else {
        a + 1
    }
}

/// Where the right-hand side of a filter starting at `b` ends, following the
/// parser's lookahead order.
pub open spec fn rhs_end(ks: Seq<TokenType>, b: int) -> int {
    if b + 1 < ks.len() && ks[b + 1] == TokenType::Colon {
        b + 3
    } else if b + 1 < ks.len() && ks[b + 1] == TokenType::Comma {
        list_end(ks, b)
    } else if ks[b] == TokenType::Identifier || semi_next(ks, b) {
        b + (if semi_next(ks, b) {
            3int
        } else {
            1int
        })
    } else {
        b + 1
    }
}

/// Where a filter starting at `a` ends.
pub open spec fn filter_end(ks: Seq<TokenType>, a: int) -> int {
    rhs_end(
        ks,
        a + (if semi_next(ks, a) {
            3int
        } else {
            1int
        }) + 1,
    )
}

/// Whether `v` opens a bracketed group.
pub open spec fn open_bracket(v: TokenType) -> bool {
    v == TokenType::LeftParen || v == TokenType::LeftBracket || v == TokenType::LeftBrace
}

/// Where a primary expression starting at `a` ends: past the matching close
/// bracket for a group, past the filter otherwise.
pub open spec fn primary_end(ks: Seq<TokenType>, a: int) -> int
    decreases ks.len() - a, 0int,
{
    if a < ks.len() && open_bracket(ks[a]) {
        or_end(ks, a + 1) + 1
    } else {
        filter_end(ks, a)
    }
}

/// Where an `&`-group starting at `a` ends.
pub open spec fn and_end(ks: Seq<TokenType>, a: int) -> int
    decreases ks.len() - a, 1int,
{
    let m = primary_end(ks, a);
    if a < m + 1 && m < ks.len() && ks[m] == TokenType::And {
        and_end(ks, m + 1)
    } else {
        m
    }
}

/// Where an `|`-group starting at `a` ends.
pub open spec fn or_end(ks: Seq<TokenType>, a: int) -> int
    decreases ks.len() - a, 2int,
{
    let n = and_end(ks, a);
    if a < n + 1 && n < ks.len() && ks[n] == TokenType::Or {
        or_end(ks, n + 1)
    } else {
        n
    }
}

/// Every lexical unit covers at least one token: the end positions lie
/// strictly past their starts.
pub proof fn lemma_list_end_increase(ks: Seq<TokenType>, a: int)
    ensures
        list_end(ks, a) > a,
    decreases ks.len() - a,
{
    if a + 1 < ks.len() && ks[a + 1] == TokenType::Comma {
        lemma_list_end_increase(ks, a + 2);
    }
}

pub proof fn lemma_primary_end_increase(ks: Seq<TokenType>, a: int)
    ensures
        primary_end(ks, a) > a,
    decreases ks.len() - a, 0int,
{
    if a < ks.len() && open_bracket(ks[a]) {
        lemma_or_end_increase(ks, a + 1);
    } else {
        let m = a + (if semi_next(ks, a) {
            3int
        } else {
            1int
        });
        if m + 2 < ks.len() && ks[m + 2] == TokenType::Comma {
            lemma_list_end_increase(ks, m + 1);
        }
    }
}

pub proof fn lemma_and_end_increase(ks: Seq<TokenType>, a: int)
    ensures
        and_end(ks, a) > a,
    decreases ks.len() - a, 1int,
{
    lemma_primary_end_increase(ks, a);
    let m = primary_end(ks, a);
    if a < m + 1 && m < ks.len() && ks[m] == TokenType::And {
        lemma_and_end_increase(ks, m + 1);
    }
}

pub proof fn lemma_or_end_increase(ks: Seq<TokenType>, a: int)
    ensures
        or_end(ks, a) > a,
    decreases ks.len() - a, 2int,
{
    lemma_and_end_increase(ks, a);
    let n = and_end(ks, a);
    if a < n + 1 && n < ks.len() && ks[n] == TokenType::Or {
        lemma_or_end_increase(ks, n + 1);
    }
}

/// The token shape on which `grouping` is bound to succeed: an opening
/// bracket, an inner `|`-group, and the matching closing bracket where that
/// group ends.
pub open spec fn grouping_shape(ks: Seq<TokenType>, a: int) -> bool
    decreases ks.len() - a, 1int,
{
    let c = or_end(ks, a + 1);
    a < ks.len() && or_shape(ks, a + 1) && c < ks.len() && ((ks[a] == TokenType::LeftParen
        && ks[c] == TokenType::RightParen) || (ks[a] == TokenType::LeftBracket
        && ks[c] == TokenType::RightBracket) || (ks[a] == TokenType::LeftBrace
        && ks[c] == TokenType::RightBrace))
}

/// The token shape on which `primary` is bound to succeed.
pub open spec fn primary_shape(ks: Seq<TokenType>, a: int) -> bool
    decreases ks.len() - a, 2int,
{
    filter_shape(ks, a) || grouping_shape(ks, a)
}

/// The token shape on which `and_group` is bound to succeed: a primary, and
/// after a directly following `&` a further `&`-group.
pub open spec fn and_shape(ks: Seq<TokenType>, a: int) -> bool
    decreases ks.len() - a, 3int,
{
    let m = primary_end(ks, a);
    primary_shape(ks, a) && (if a < m + 1 && m < ks.len() && ks[m] == TokenType::And {
        and_shape(ks, m + 1)
    } else {
        true
    })
}

/// The token shape on which `or_group` is bound to succeed.
pub open spec fn or_shape(ks: Seq<TokenType>, a: int) -> bool
    decreases ks.len() - a, 4int,
{
    let n = and_end(ks, a);
    and_shape(ks, a) && (if a < n + 1 && n < ks.len() && ks[n] == TokenType::Or {
        or_shape(ks, n + 1)
    } else {
        true
    })
}

/// A well-shaped `|`-group starts with an identifier, a number, or an
/// opening bracket; in particular never with `;`.
pub proof fn lemma_or_shape_start(ks: Seq<TokenType>, a: int)
    requires
        or_shape(ks, a),
    ensures
        ks[a] == TokenType::Identifier || ks[a] == TokenType::Number
            || open_bracket(ks[a]),
{
    assert(and_shape(ks, a));
    assert(primary_shape(ks, a));
    if filter_shape(ks, a) {
        assert(set_shape(ks, a));
    }
}

impl Parser {
    /// The token stream is well formed and the cursor in bounds.
    pub open spec fn wf(self) -> bool {
        tokens_wf(self.tokens@) && self.current < self.tokens@.len()
    }

    /// A state the parser may continue from: well formed, and synchronized
    /// only after a fatal error has been recorded.
    pub open spec fn ready(self) -> bool {
        self.wf() && (self.synchronized ==> self.had_error)
    }

    pub fn new(tokens: Vec<Token>, errors: Vec<ParsingError>, scanner_had_error: bool) -> (p:
        Parser)
        ensures
            p.tokens == tokens,
            p.errors == errors,
            p.had_error == scanner_had_error,
            p.current == 0,
            !p.synchronized,
    {
        Parser {
            tokens,
            current: 0,
            errors,
            had_error: scanner_had_error,
            synchronized: false,
        }
    }

    fn at_end(&self) -> (r: bool)
        requires
            self.wf(),
        ensures
            r == (self.tokens@[self.current as int].variant == TokenType::EOF),
            r == (self.current == self.tokens@.len() - 1),
    {
        self.tokens[self.current].variant == TokenType::EOF
    }

    fn next_is_end(&self) -> (r: bool)
        requires
            self.wf(),
        ensures
            r == (self.current + 1 >= self.tokens@.len() || self.tokens@[self.current
                + 1].variant == TokenType::EOF),
    {
        if self.at_end() {
            true
        } else {
            // Binding the length keeps the index arithmetic in bounds.
            let n = self.tokens.len();
            self.tokens[self.current + 1].variant == TokenType::EOF
        }
    }

    /// Whether the token under the cursor has the given kind (never true at
    /// the end of input).
    fn check(&self, kind: TokenType) -> (r: bool)
        requires
            self.wf(),
        ensures
            r == (kind != TokenType::EOF && self.tokens@[self.current as int].variant == kind),
    {
        if self.at_end() {
            false
        } else {
            self.tokens[self.current].variant == kind
        }
    }

    /// Whether the token after the cursor has the given kind (never true for
    /// the end marker).
    fn check_next(&self, kind: TokenType) -> (r: bool)
        requires
            self.wf(),
        ensures
            r == (self.current + 1 < self.tokens@.len() && kind != TokenType::EOF
                && self.tokens@[self.current + 1].variant == kind),
    {
        if self.next_is_end() {
            false
        } else {
            // Binding the length keeps the index arithmetic in bounds.
            let n = self.tokens.len();
            self.tokens[self.current + 1].variant == kind
        }
    }

    /// Moves past the token under the cursor; the end marker is never left.
    fn advance(&mut self)
        requires
            old(self).wf(),
        ensures
            final(self).tokens == old(self).tokens,
            final(self).errors == old(self).errors,
            final(self).had_error == old(self).had_error,
            final(self).synchronized == old(self).synchronized,
            final(self).current < final(self).tokens@.len(),
            old(self).tokens@[old(self).current as int].variant != TokenType::EOF ==> final(self).current == old(self).current + 1,
            old(self).tokens@[old(self).current as int].variant == TokenType::EOF ==> final(self).current == old(self).current,
    {
        if !self.at_end() {
            // Binding the length keeps the increment in bounds.
            let n = self.tokens.len();
            self.current = self.current + 1;
        }
    }

    fn peek(&self) -> (r: &Token)
        requires
            self.wf(),
        ensures
            *r == self.tokens@[self.current as int],
    {
        &self.tokens[self.current]
    }

    fn previous(&self) -> (r: Token)
        requires
            self.wf(),
            self.current >= 1,
        ensures
            r == self.tokens@[self.current - 1],
    {
        self.tokens[self.current - 1].dup()
    }

    /// Consumes the token under the cursor when it has the given kind.
    fn match_token(&mut self, kind: TokenType) -> (r: bool)
        requires
            old(self).wf(),
        ensures
            steps(*old(self), *final(self)),
            final(self).errors == old(self).errors,
            final(self).had_error == old(self).had_error,
            r ==> kind != TokenType::EOF && old(self).tokens@[old(self).current as int].variant
                == kind && final(self).current == old(self).current + 1,
            !r ==> *final(self) == *old(self) && (kind == TokenType::EOF || old(self).tokens@[old(self).current as int].variant != kind),
    {
        if self.check(kind) {
            self.advance();
            true
        } else {
            false
        }
    }

    /// Consumes the token under the cursor when it has either given kind.
    fn match_token2(&mut self, k1: TokenType, k2: TokenType) -> (r: bool)
        requires
            old(self).wf(),
        ensures
            steps(*old(self), *final(self)),
            final(self).errors == old(self).errors,
            final(self).had_error == old(self).had_error,
            r ==> (old(self).tokens@[old(self).current as int].variant == k1 || old(self).tokens@[old(self).current as int].variant == k2) && old(self).tokens@[old(self).current as int].variant != TokenType::EOF && final(self).current
                == old(self).current + 1,
            !r ==> *final(self) == *old(self) && (k1 == TokenType::EOF || old(self).tokens@[old(self).current as int].variant != k1) && (k2 == TokenType::EOF || old(self).tokens@[old(self).current as int].variant != k2),
    {
        if self.match_token(k1) {
            true
        } else {
            self.match_token(k2)
        }
    }

    /// Consumes the token under the cursor when it is a comparison operator.
    fn match_cmp_op(&mut self) -> (r: bool)
        requires
            old(self).wf(),
        ensures
            steps(*old(self), *final(self)),
            final(self).errors == old(self).errors,
            final(self).had_error == old(self).had_error,
            r ==> is_cmp_op(old(self).tokens@[old(self).current as int].variant) && final(self).current == old(self).current + 1,
            !r ==> *final(self) == *old(self) && !is_cmp_op(old(self).tokens@[old(self).current as int].variant),
    {
        if self.match_token(TokenType::Equal) {
            true
        } else if self.match_token(TokenType::EqualEqual) {
            true
        } else if self.match_token(TokenType::BangEqual) {
            true
        } else if self.match_token(TokenType::Greater) {
            true
        } else if self.match_token(TokenType::GreaterEqual) {
            true
        } else if self.match_token(TokenType::Less) {
            true
        } else {
            self.match_token(TokenType::LessEqual)
        }
    }

    /// Records a diagnostic at the token under the cursor and returns it:
    /// user facing and fatal, or internal when the parser is merely probing
    /// which production applies.
    fn error(&mut self, message: String, fatal: bool) -> (r: ParsingError)
        requires
            old(self).wf(),
        ensures
            steps(*old(self), *final(self)),
            final(self).current == old(self).current,
            final(self).errors@ == old(self).errors@.push(r),
            err_message(r) == message@,
            crate::error::err_line(r) == old(self).tokens@[old(self).current as int].line,
            crate::error::err_column(r) == old(self).tokens@[old(self).current as int].column,
            fatal ==> final(self).had_error && is_report(r),
            !fatal ==> final(self).had_error == old(self).had_error && !is_report(r),
    {
        if fatal {
            self.had_error = true;
        }
        let line = self.tokens[self.current].line;
        let column = self.tokens[self.current].column;
        let e = if fatal {
            ParsingError::Report { message, line, column }
        } else {
            ParsingError::Internal { message, line, column }
        };
        let out = e.dup();
        self.errors.push(e);
        out
    }

    /// After a failed group, skips to just past the next `&` or `|`, or to
    /// the end of the input, and marks the parser synchronized.
    fn synchronize(&mut self)
        requires
            old(self).wf(),
        ensures
            final(self).tokens == old(self).tokens,
            final(self).errors == old(self).errors,
            final(self).had_error == old(self).had_error,
            final(self).synchronized,
            old(self).current <= final(self).current < old(self).tokens@.len(),
            old(self).tokens@[old(self).current as int].variant != TokenType::EOF ==> final(self).current > old(self).current,
            forall|i: int|
                old(self).current <= i < final(self).current - 1 ==> (#[trigger] old(self).tokens@[i].variant) != TokenType::And && old(self).tokens@[i].variant
                    != TokenType::Or,
            final(self).current == old(self).tokens@.len() - 1 || old(self).tokens@[final(self).current - 1].variant == TokenType::And || old(self).tokens@[final(self).current
                - 1].variant == TokenType::Or,
    {
        self.synchronized = true;
        while !self.at_end()
            invariant
                self.wf(),
                self.tokens == old(self).tokens,
                self.errors == old(self).errors,
                self.had_error == old(self).had_error,
                self.synchronized,
                old(self).current <= self.current,
                old(self).tokens@[old(self).current as int].variant != TokenType::EOF ==> (
                self.current > old(self).current || self.tokens@[self.current as int].variant
                    != TokenType::EOF),
                forall|i: int|
                    old(self).current <= i < self.current ==> (#[trigger] self.tokens@[i].variant)
                        != TokenType::And && self.tokens@[i].variant != TokenType::Or,
            decreases self.tokens@.len() - self.current,
        {
            let kind = self.tokens[self.current].variant;
            if kind == TokenType::Or || kind == TokenType::And {
                self.advance();
                return ;
            }
            self.advance();
        }
    }

    /// Parses `set -> ( ( NUMBER | IDENTIFIER ) ";" )? IDENTIFIER`, for
    /// example `q01;elb001` or `elb001`.
    fn set(&mut self) -> (r: Result<Expr, ParsingError>)
        requires
            old(self).ready(),
        ensures
            steps(*old(self), *final(self)),
            r matches Ok(e) ==> wf_set(e) && final(self).current > old(self).current && (!final(self).had_error ==> leaves(e) == cat_kept(
                old(self).tokens@,
                old(self).current as int,
                final(self).current as int,
            )),
            r is Err && !final(self).had_error ==> final(self).current == old(self).current
                && old(self).tokens@[old(self).current as int].variant != TokenType::Identifier
                && !(old(self).current + 1 < old(self).tokens@.len() && old(self).tokens@[old(self).current + 1].variant == TokenType::SemiColon),
            r matches Ok(e) ==> (!final(self).had_error ==> derives_set(
                old(self).tokens@,
                old(self).current as int,
                e,
            ) && final(self).current == old(self).current + width(e)),
            set_shape(kind_seq(old(self).tokens@), old(self).current as int) ==> r is Ok && final(self).current == old(self).current + (if semi_next(
                kind_seq(old(self).tokens@),
                old(self).current as int,
            ) {
                3int
            } else {
                1int
            }) && final(self).had_error == old(self).had_error,
            !semi_next(kind_seq(old(self).tokens@), old(self).current as int) && old(self).tokens@[old(self).current as int].variant != TokenType::Identifier ==> r is Err && final(self).current == old(self).current && final(self).had_error == old(self).had_error,
            r is Ok && !final(self).had_error ==> set_shape(kind_seq(old(self).tokens@), old(self).current as int) && final(self).current == old(self).current + (if semi_next(kind_seq(old(self).tokens@), old(self).current as int) { 3int } else { 1int }),
    {
        proof {
            assert forall|i: int| 0 <= i < old(self).tokens@.len() implies #[trigger] kind_seq(
                old(self).tokens@,
            )[i] == old(self).tokens@[i].variant by {
                crate::scanner::lemma_kind_seq_index(old(self).tokens@, i);
            }
        }
        let ghost pre = *self;
        if self.check_next(TokenType::SemiColon) {
            // The qualified case, e.g. `q01;elb001`.
            if self.match_token2(TokenType::Identifier, TokenType::Number) {
                let question = self.previous();
                self.advance();  // the ';'
                if self.match_token(TokenType::Identifier) {
                    let item = self.previous();
                    proof {
                        let ts = self.tokens@;
                        let a = pre.current as int;
                        assert(cat_kept(ts, a + 3, a + 3) =~= Seq::<char>::empty());
                        assert(cat_kept(ts, a + 2, a + 3) == kept_entry(ts[a + 2]) + cat_kept(
                            ts,
                            a + 3,
                            a + 3,
                        ));
                        assert(cat_kept(ts, a + 1, a + 3) == kept_entry(ts[a + 1]) + cat_kept(
                            ts,
                            a + 2,
                            a + 3,
                        ));
                        assert(cat_kept(ts, a, a + 3) == kept_entry(ts[a]) + cat_kept(
                            ts,
                            a + 1,
                            a + 3,
                        ));
                        assert(cat_kept(ts, a, a + 3) =~= question.lexeme@ + item.lexeme@);
                    }
                    Ok(Expr::SetRef { question: Some(question), item })
                } else {
                    Err(self.error("Expected item identifier".to_owned(), true))
                }
            } else {
                Err(self.error("Expected question identifier".to_owned(), true))
            }
        } else {
            // The bare case, e.g. `elb001`.
            if self.match_token(TokenType::Identifier) {
                let item = self.previous();
                proof {
                    let ts = self.tokens@;
                    let a = pre.current as int;
                    assert(cat_kept(ts, a + 1, a + 1) =~= Seq::<char>::empty());
                    assert(cat_kept(ts, a, a + 1) =~= item.lexeme@);
                }
                Ok(Expr::SetRef { question: None, item })
            } else {
                // Allowed to fail silently: primary() probes filter() before
                // grouping().
                Err(self.error("Expected item identifier".to_owned(), false))
            }
        }
    }

    /// Parses `range -> NUMBER ":" NUMBER`, for example `1:5`; it probes only
    /// when a `:` stands after the token under the cursor.
    fn range(&mut self) -> (r: Result<Expr, ParsingError>)
        requires
            old(self).ready(),
        ensures
            steps(*old(self), *final(self)),
            r matches Ok(e) ==> wf_rhs(e) && final(self).current > old(self).current && (!final(self).had_error ==> leaves(e) == cat_kept(
                old(self).tokens@,
                old(self).current as int,
                final(self).current as int,
            )),
            r is Err && !final(self).had_error ==> final(self).current == old(self).current,
            r matches Ok(e) ==> (!final(self).had_error ==> derives_rhs(
                old(self).tokens@,
                old(self).current as int,
                e,
            ) && final(self).current == old(self).current + width(e)),
            range_shape(kind_seq(old(self).tokens@), old(self).current as int) ==> r is Ok && final(self).current == old(self).current + 3 && final(self).had_error == old(self).had_error,
            !(old(self).current + 1 < old(self).tokens@.len() && old(self).tokens@[old(self).current + 1].variant == TokenType::Colon) ==> r is Err && final(self).current == old(self).current && final(self).had_error == old(self).had_error,
            r is Ok ==> range_shape(kind_seq(old(self).tokens@), old(self).current as int) && final(self).current == old(self).current + 3,
            r is Err && !final(self).had_error ==> !(old(self).current + 1 < old(self).tokens@.len() && old(self).tokens@[old(self).current + 1].variant == TokenType::Colon),
    {
        proof {
            assert forall|i: int| 0 <= i < old(self).tokens@.len() implies #[trigger] kind_seq(
                old(self).tokens@,
            )[i] == old(self).tokens@[i].variant by {
                crate::scanner::lemma_kind_seq_index(old(self).tokens@, i);
            }
        }
        let ghost pre = *self;
        // Look ahead for the ':' before consuming anything.
        if self.check_next(TokenType::Colon) {
            if self.match_token(TokenType::Number) {
                let number_left = self.previous();
                self.advance();  // the ':'
                if self.match_token(TokenType::Number) {
                    let number_right = self.previous();
                    proof {
                        let ts = self.tokens@;
                        let a = pre.current as int;
                        assert(cat_kept(ts, a + 3, a + 3) =~= Seq::<char>::empty());
                        assert(cat_kept(ts, a + 2, a + 3) == kept_entry(ts[a + 2]) + cat_kept(
                            ts,
                            a + 3,
                            a + 3,
                        ));
                        assert(cat_kept(ts, a + 1, a + 3) == kept_entry(ts[a + 1]) + cat_kept(
                            ts,
                            a + 2,
                            a + 3,
                        ));
                        assert(cat_kept(ts, a, a + 3) == kept_entry(ts[a]) + cat_kept(
                            ts,
                            a + 1,
                            a + 3,
                        ));
                        assert(cat_kept(ts, a, a + 3) =~= number_left.lexeme@
                            + number_right.lexeme@);
                    }
                    Ok(Expr::Range { left: number_left, right: number_right })
                } else {
                    Err(self.error("Expected number".to_owned(), true))
                }
            } else {
                Err(self.error("Expected number".to_owned(), true))
            }
        } else {
            Err(self.error("No ':' in range()".to_owned(), false))
        }
    }

    /// Parses `list -> NUMBER ( "," NUMBER )*`, for example `2,4,10`. A
    /// single number with no comma also satisfies this production.
    fn list(&mut self) -> (r: Result<Expr, ParsingError>)
        requires
            old(self).ready(),
        ensures
            steps(*old(self), *final(self)),
            r matches Ok(e) ==> wf_list(e) && final(self).current > old(self).current && (!final(self).had_error ==> leaves(e) == cat_kept(
                old(self).tokens@,
                old(self).current as int,
                final(self).current as int,
            )),
            r is Err ==> final(self).had_error,
            r matches Ok(e) ==> (!final(self).had_error ==> derives_list(
                old(self).tokens@,
                old(self).current as int,
                e,
            ) && final(self).current == old(self).current + width(e)),
            list_shape(kind_seq(old(self).tokens@), old(self).current as int) ==> r is Ok && final(self).current == list_end(kind_seq(old(self).tokens@), old(self).current as int) && final(self).had_error == old(self).had_error,
            r is Ok ==> list_shape(kind_seq(old(self).tokens@), old(self).current as int) && final(self).current == list_end(kind_seq(old(self).tokens@), old(self).current as int),
        decreases self.tokens@.len() - self.current,
    {
        proof {
            assert forall|i: int| 0 <= i < old(self).tokens@.len() implies #[trigger] kind_seq(
                old(self).tokens@,
            )[i] == old(self).tokens@[i].variant by {
                crate::scanner::lemma_kind_seq_index(old(self).tokens@, i);
            }
        }
        let ghost pre = *self;
        if self.match_token(TokenType::Number) {
            let value = self.previous();
            if self.match_token(TokenType::Comma) {
                let ghost mid = *self;
                match self.list() {
                    Ok(next) => {
                        proof {
                            if !self.had_error {
                                let ts = self.tokens@;
                                let a = pre.current as int;
                                let b = self.current as int;
                                assert(cat_kept(ts, a, b) == kept_entry(ts[a]) + cat_kept(
                                    ts,
                                    a + 1,
                                    b,
                                ));
                                assert(cat_kept(ts, a + 1, b) == kept_entry(ts[a + 1]) + cat_kept(
                                    ts,
                                    a + 2,
                                    b,
                                ));
                                assert(cat_kept(ts, a, b) =~= value.lexeme@ + leaves(next));
                            }
                        }
                        Ok(Expr::List { value, next: Box::new(next) })
                    },
                    Err(e) => Err(e),
                }
            } else {
                proof {
                    let ts = self.tokens@;
                    let a = pre.current as int;
                    assert(cat_kept(ts, a + 1, a + 1) =~= Seq::<char>::empty());
                    assert(cat_kept(ts, a, a + 1) =~= value.lexeme@ + leaves(Expr::EndOfList));
                }
                Ok(Expr::List { value, next: Box::new(Expr::EndOfList) })
            }
        } else {
            Err(self.error("Expected number".to_owned(), true))
        }
    }

    /// Parses `filter -> set cmp_op ( range | list | set | NUMBER )`, for
    /// example `q02;elb0003>1` or `elb0002=1,2` or `02;elb0002!=elb0001`.
    fn filter(&mut self) -> (r: Result<Expr, ParsingError>)
        requires
            old(self).ready(),
        ensures
            steps(*old(self), *final(self)),
            r matches Ok(e) ==> wf_primary(e) && final(self).current > old(self).current && (
            !final(self).had_error ==> leaves(e) == cat_kept(
                old(self).tokens@,
                old(self).current as int,
                final(self).current as int,
            )),
            r is Err && !final(self).had_error ==> final(self).current == old(self).current,
            r matches Ok(e) ==> (!final(self).had_error ==> derives_primary(
                old(self).tokens@,
                old(self).current as int,
                e,
            ) && final(self).current == old(self).current + width(e)),
            r matches Ok(e) ==> e matches Expr::Filter { .. },
            filter_shape(kind_seq(old(self).tokens@), old(self).current as int) ==> r is Ok && final(self).current == filter_end(kind_seq(old(self).tokens@), old(self).current as int) && final(self).had_error == old(self).had_error,
            !semi_next(kind_seq(old(self).tokens@), old(self).current as int) && old(self).tokens@[old(self).current as int].variant != TokenType::Identifier ==> r is Err && final(self).current == old(self).current && final(self).had_error == old(self).had_error,
            r is Ok && !final(self).had_error ==> filter_shape(kind_seq(old(self).tokens@), old(self).current as int) && final(self).current == filter_end(kind_seq(old(self).tokens@), old(self).current as int),
        decreases self.tokens@.len() - self.current, 2int,
    {
        proof {
            assert forall|i: int| 0 <= i < old(self).tokens@.len() implies #[trigger] kind_seq(
                old(self).tokens@,
            )[i] == old(self).tokens@[i].variant by {
                crate::scanner::lemma_kind_seq_index(old(self).tokens@, i);
            }
        }
        let ghost pre = *self;
        // The left-hand side, e.g. `q04;elb0003`.
        let set_expr = match self.set() {
            Ok(s) => s,
            Err(e) => {
                return Err(e);
            },
        };
        let ghost after_left = *self;
        // The comparison operator.
        if !self.match_cmp_op() {
            return Err(
                self.error("Expected one of '=', '==', '!=', '>', '>=', '<', '<='".to_owned(), true),
            );
        }
        let operator = self.previous();
        // The right-hand side: a range ...
        match self.range() {
            Ok(range_expr) => {
                proof {
                    if !self.had_error {
                        let ts = self.tokens@;
                        let a = pre.current as int;
                        let m = after_left.current as int;
                        let b = self.current as int;
                        lemma_cat_kept_split(ts, a, m, b);
                        assert(cat_kept(ts, m, b) == kept_entry(ts[m]) + cat_kept(ts, m + 1, b));
                        assert(cat_kept(ts, a, b) =~= leaves(set_expr) + operator.lexeme@ + leaves(
                            range_expr,
                        ));
                    }
                }
                return Ok(
                    Expr::Filter {
                        left: Box::new(set_expr),
                        operator,
                        right: Box::new(range_expr),
                    },
                );
            },
            Err(_) => {},
        }
        // ... or a list of numbers ...
        if self.check_next(TokenType::Comma) {
            match self.list() {
                Ok(list_expr) => {
                    proof {
                        if !self.had_error {
                            let ts = self.tokens@;
                            let a = pre.current as int;
                            let m = after_left.current as int;
                            let b = self.current as int;
                            lemma_cat_kept_split(ts, a, m, b);
                            assert(cat_kept(ts, m, b) == kept_entry(ts[m]) + cat_kept(
                                ts,
                                m + 1,
                                b,
                            ));
                            assert(cat_kept(ts, a, b) =~= leaves(set_expr) + operator.lexeme@
                                + leaves(list_expr));
                        }
                    }
                    return Ok(
                        Expr::Filter {
                            left: Box::new(set_expr),
                            operator,
                            right: Box::new(list_expr),
                        },
                    );
                },
                Err(_) => {
                    return Err(self.error("list() failed in filter()".to_owned(), false));
                },
            }
        }
        // ... or another set reference ...
        if self.check(TokenType::Identifier) || self.check_next(TokenType::SemiColon) {
            match self.set() {
                Ok(set_right) => {
                    proof {
                        if !self.had_error {
                            let ts = self.tokens@;
                            let a = pre.current as int;
                            let m = after_left.current as int;
                            let b = self.current as int;
                            lemma_cat_kept_split(ts, a, m, b);
                            assert(cat_kept(ts, m, b) == kept_entry(ts[m]) + cat_kept(
                                ts,
                                m + 1,
                                b,
                            ));
                            assert(cat_kept(ts, a, b) =~= leaves(set_expr) + operator.lexeme@
                                + leaves(set_right));
                        }
                    }
                    return Ok(
                        Expr::Filter {
                            left: Box::new(set_expr),
                            operator,
                            right: Box::new(set_right),
                        },
                    );
                },
                Err(_) => {
                    return Err(self.error("set() failed in filter()".to_owned(), false));
                },
            }
        }
        // ... or a bare number.
        if self.match_token(TokenType::Number) {
            let number = self.previous();
            proof {
                if !self.had_error {
                    let ts = self.tokens@;
                    let a = pre.current as int;
                    let m = after_left.current as int;
                    let b = self.current as int;
                    lemma_cat_kept_split(ts, a, m, b);
                    assert(cat_kept(ts, m, b) == kept_entry(ts[m]) + cat_kept(ts, m + 1, b));
                    assert(cat_kept(ts, m + 1, b) == kept_entry(ts[m + 1]) + cat_kept(
                        ts,
                        m + 2,
                        b,
                    ));
                    assert(cat_kept(ts, m + 2, b) =~= Seq::<char>::empty());
                    assert(leaves(Expr::Literal { value: number }) == number.lexeme@);
                    assert(width(Expr::Literal { value: number }) == 1);
                    assert(derives_rhs(ts, m + 1, Expr::Literal { value: number }));
                    assert(cat_kept(ts, a, b) =~= leaves(set_expr) + operator.lexeme@
                        + number.lexeme@);
                }
            }
            return Ok(
                Expr::Filter {
                    left: Box::new(set_expr),
                    operator,
                    right: Box::new(Expr::Literal { value: number }),
                },
            );
        }
        Err(self.error("Expected number, list of numbers, range, or item".to_owned(), true))
    }

    /// Consumes one bracket pair around an inner group; `expect` names the
    /// closing character in the diagnostic when it is missing.
    fn consume(&mut self, left_paren: TokenType, right_paren: TokenType, expect: char) -> (r:
        Result<Expr, ParsingError>)
        requires
            old(self).ready(),
            dropped_kind(left_paren),
            dropped_kind(right_paren),
            (left_paren == TokenType::LeftParen && right_paren == TokenType::RightParen)
                || (left_paren == TokenType::LeftBracket && right_paren
                == TokenType::RightBracket) || (left_paren == TokenType::LeftBrace
                && right_paren == TokenType::RightBrace),
        ensures
            steps(*old(self), *final(self)),
            r matches Ok(e) ==> wf_primary(e) && final(self).current > old(self).current && (
            !final(self).had_error ==> leaves(e) == cat_kept(
                old(self).tokens@,
                old(self).current as int,
                final(self).current as int,
            )),
            r is Err && !final(self).had_error ==> final(self).current == old(self).current,
            r matches Ok(e) ==> (!final(self).had_error ==> derives_primary(
                old(self).tokens@,
                old(self).current as int,
                e,
            ) && final(self).current == old(self).current + width(e)),
            r matches Ok(e) ==> e matches Expr::Grouping { .. },
            old(self).tokens@[old(self).current as int].variant != left_paren ==> r is Err && final(self).current == old(self).current && final(self).had_error == old(self).had_error,
            old(self).tokens@[old(self).current as int].variant == left_paren && or_shape(kind_seq(old(self).tokens@), old(self).current + 1) && or_end(kind_seq(old(self).tokens@), old(self).current + 1) < old(self).tokens@.len() && old(self).tokens@[or_end(kind_seq(old(self).tokens@), old(self).current + 1)].variant == right_paren ==> r is Ok && final(self).current == or_end(kind_seq(old(self).tokens@), old(self).current + 1) + 1 && final(self).had_error == old(self).had_error,
            r is Ok && !final(self).had_error ==> kind_seq(old(self).tokens@)[old(self).current as int] == left_paren && or_shape(kind_seq(old(self).tokens@), old(self).current + 1) && or_end(kind_seq(old(self).tokens@), old(self).current + 1) < old(self).tokens@.len() && kind_seq(old(self).tokens@)[or_end(kind_seq(old(self).tokens@), old(self).current + 1)] == right_paren && final(self).current == or_end(kind_seq(old(self).tokens@), old(self).current + 1) + 1,
        decreases self.tokens@.len() - self.current, 1int,
    {
        proof {
            assert forall|i: int| 0 <= i < old(self).tokens@.len() implies #[trigger] kind_seq(
                old(self).tokens@,
            )[i] == old(self).tokens@[i].variant by {
                crate::scanner::lemma_kind_seq_index(old(self).tokens@, i);
            }
        }
        let ghost pre = *self;
        if self.match_token(left_paren) {
            match self.or_group() {
                Ok(expr) => {
                    if self.match_token(right_paren) {
                        proof {
                            if !self.had_error {
                                let ts = self.tokens@;
                                let a = pre.current as int;
                                let b = self.current as int;
                                lemma_cat_kept_split(ts, a + 1, b - 1, b);
                                assert(cat_kept(ts, a, b) == kept_entry(ts[a]) + cat_kept(
                                    ts,
                                    a + 1,
                                    b,
                                ));
                                assert(cat_kept(ts, b - 1, b) == kept_entry(ts[b - 1]) + cat_kept(
                                    ts,
                                    b,
                                    b,
                                ));
                                assert(cat_kept(ts, b, b) =~= Seq::<char>::empty());
                                assert(cat_kept(ts, a, b) =~= leaves(expr));
                            }
                        }
                        Ok(Expr::Grouping { expr: Box::new(expr) })
                    } else {
                        let mut msg = "Expected '".to_owned();
                        push_char(&mut msg, expect);
                        push_char(&mut msg, '\'');
                        Err(self.error(msg, true))
                    }
                },
                Err(e) => Err(e),
            }
        } else {
            Err(self.error("Not a parenthesized expression".to_owned(), false))
        }
    }

    /// Parses `grouping -> "(" or_group ")" | "[" or_group "]" |
    /// "{" or_group "}"`: the three bracket styles are equivalent.
    fn grouping(&mut self) -> (r: Result<Expr, ParsingError>)
        requires
            old(self).ready(),
        ensures
            steps(*old(self), *final(self)),
            r matches Ok(e) ==> wf_primary(e) && final(self).current > old(self).current && (
            !final(self).had_error ==> leaves(e) == cat_kept(
                old(self).tokens@,
                old(self).current as int,
                final(self).current as int,
            )),
            r is Err && !final(self).had_error ==> final(self).current == old(self).current,
            r matches Ok(e) ==> (!final(self).had_error ==> derives_primary(
                old(self).tokens@,
                old(self).current as int,
                e,
            ) && final(self).current == old(self).current + width(e)),
            r matches Ok(e) ==> e matches Expr::Grouping { .. },
            grouping_shape(kind_seq(old(self).tokens@), old(self).current as int) ==> r is Ok && final(self).current == primary_end(kind_seq(old(self).tokens@), old(self).current as int) && final(self).had_error == old(self).had_error,
            r is Ok && !final(self).had_error ==> grouping_shape(kind_seq(old(self).tokens@), old(self).current as int) && final(self).current == primary_end(kind_seq(old(self).tokens@), old(self).current as int),
        decreases self.tokens@.len() - self.current, 2int,
    {
        proof {
            assert forall|i: int| 0 <= i < old(self).tokens@.len() implies #[trigger] kind_seq(
                old(self).tokens@,
            )[i] == old(self).tokens@[i].variant by {
                crate::scanner::lemma_kind_seq_index(old(self).tokens@, i);
            }
            lemma_or_end_increase(kind_seq(old(self).tokens@), old(self).current + 1);
        }
        match self.consume(TokenType::LeftParen, TokenType::RightParen, ')') {
            Ok(expr) => {
                return Ok(expr);
            },
            Err(_) => {},
        }
        match self.consume(TokenType::LeftBracket, TokenType::RightBracket, ']') {
            Ok(expr) => {
                return Ok(expr);
            },
            Err(_) => {},
        }
        match self.consume(TokenType::LeftBrace, TokenType::RightBrace, '}') {
            Ok(expr) => {
                return Ok(expr);
            },
            Err(_) => {},
        }
        let mut msg = "Did not expect '".to_owned();
        msg.append(self.tokens[self.current].lexeme.as_str());
        push_char(&mut msg, '\'');
        // Suppressed for the user while the parser is in a synchronized state.
        let fatal = !self.synchronized;
        Err(self.error(msg, fatal))
    }

    /// Parses `primary -> filter | grouping`. The filter is probed first; a
    /// probe that failed without a fatal error has left the cursor in place.
    fn primary(&mut self) -> (r: Result<Expr, ParsingError>)
        requires
            old(self).ready(),
        ensures
            steps(*old(self), *final(self)),
            r matches Ok(e) ==> wf_primary(e) && final(self).current > old(self).current && (
            !final(self).had_error ==> leaves(e) == cat_kept(
                old(self).tokens@,
                old(self).current as int,
                final(self).current as int,
            )),
            r is Err ==> final(self).had_error,
            r matches Ok(e) ==> (!final(self).had_error ==> derives_primary(
                old(self).tokens@,
                old(self).current as int,
                e,
            ) && final(self).current == old(self).current + width(e)),
            primary_shape(kind_seq(old(self).tokens@), old(self).current as int) ==> r is Ok && final(self).current == primary_end(kind_seq(old(self).tokens@), old(self).current as int) && final(self).had_error == old(self).had_error,
            r is Ok && !final(self).had_error ==> primary_shape(kind_seq(old(self).tokens@), old(self).current as int) && final(self).current == primary_end(kind_seq(old(self).tokens@), old(self).current as int),
        decreases self.tokens@.len() - self.current, 3int,
    {
        proof {
            assert forall|i: int| 0 <= i < old(self).tokens@.len() implies #[trigger] kind_seq(
                old(self).tokens@,
            )[i] == old(self).tokens@[i].variant by {
                crate::scanner::lemma_kind_seq_index(old(self).tokens@, i);
            }
        }
        proof {
            if grouping_shape(kind_seq(self.tokens@), self.current as int) {
                lemma_or_shape_start(kind_seq(self.tokens@), self.current + 1);
            }
        }
        match self.filter() {
            Ok(filter_expr) => {
                return Ok(filter_expr);
            },
            Err(_) => {},
        }
        match self.grouping() {
            Ok(grouping_expr) => {
                return Ok(grouping_expr);
            },
            Err(_) => {},
        }
        let fatal = !self.synchronized;
        Err(self.error("Expected filter or one of '(', '[', '{'".to_owned(), fatal))
    }

    /// Parses `and_group -> primary ( "&" and_group )?`; recursing into the
    /// right-hand side makes `&` right-associative.
    fn and_group(&mut self) -> (r: Result<Expr, ParsingError>)
        requires
            old(self).ready(),
        ensures
            steps(*old(self), *final(self)),
            r matches Ok(e) ==> wf_and(e) && final(self).current > old(self).current && (!final(self).had_error ==> leaves(e) == cat_kept(
                old(self).tokens@,
                old(self).current as int,
                final(self).current as int,
            )),
            r is Err ==> final(self).had_error,
            r matches Ok(e) ==> (!final(self).had_error ==> derives_and(
                old(self).tokens@,
                old(self).current as int,
                e,
            ) && final(self).current == old(self).current + width(e)),
            r is Ok ==> final(self).tokens@[final(self).current as int].variant != TokenType::And,
            and_shape(kind_seq(old(self).tokens@), old(self).current as int) ==> r is Ok && final(self).current == and_end(kind_seq(old(self).tokens@), old(self).current as int) && final(self).had_error == old(self).had_error,
            r is Ok && !final(self).had_error ==> and_shape(kind_seq(old(self).tokens@), old(self).current as int) && final(self).current == and_end(kind_seq(old(self).tokens@), old(self).current as int),
        decreases self.tokens@.len() - self.current, 4int,
    {
        proof {
            assert forall|i: int| 0 <= i < old(self).tokens@.len() implies #[trigger] kind_seq(
                old(self).tokens@,
            )[i] == old(self).tokens@[i].variant by {
                crate::scanner::lemma_kind_seq_index(old(self).tokens@, i);
            }
        }
        let ghost pre = *self;
        let left = match self.primary() {
            Ok(e) => e,
            Err(e) => {
                return Err(e);
            },
        };
        let ghost after_left = *self;
        if self.match_token(TokenType::And) {
            let operator = self.previous();
            match self.and_group() {
                Ok(right) => {
                    proof {
                        if !self.had_error {
                            let ts = self.tokens@;
                            let a = pre.current as int;
                            let m = after_left.current as int;
                            let b = self.current as int;
                            lemma_cat_kept_split(ts, a, m, b);
                            assert(cat_kept(ts, m, b) == kept_entry(ts[m]) + cat_kept(
                                ts,
                                m + 1,
                                b,
                            ));
                            assert(cat_kept(ts, a, b) =~= leaves(left) + operator.lexeme@ + leaves(
                                right,
                            ));
                        }
                    }
                    Ok(Expr::Logical { left: Box::new(left), operator, right: Box::new(right) })
                },
                Err(_) => Err(self.error("Expected filter expression".to_owned(), true)),
            }
        } else {
            Ok(left)
        }
    }

    /// Parses `or_group -> and_group ( "|" or_group )?`; recursing into the
    /// right-hand side makes `|` right-associative.
    fn or_group(&mut self) -> (r: Result<Expr, ParsingError>)
        requires
            old(self).ready(),
        ensures
            steps(*old(self), *final(self)),
            r matches Ok(e) ==> wf_or(e) && final(self).current > old(self).current && (!final(self).had_error ==> leaves(e) == cat_kept(
                old(self).tokens@,
                old(self).current as int,
                final(self).current as int,
            )),
            r is Err ==> final(self).had_error,
            r matches Ok(e) ==> (!final(self).had_error ==> derives_or(
                old(self).tokens@,
                old(self).current as int,
                e,
            ) && final(self).current == old(self).current + width(e)),
            r is Ok ==> final(self).tokens@[final(self).current as int].variant != TokenType::And
                && final(self).tokens@[final(self).current as int].variant != TokenType::Or,
            or_shape(kind_seq(old(self).tokens@), old(self).current as int) ==> r is Ok && final(self).current == or_end(kind_seq(old(self).tokens@), old(self).current as int) && final(self).had_error == old(self).had_error,
            r is Ok && !final(self).had_error ==> or_shape(kind_seq(old(self).tokens@), old(self).current as int) && final(self).current == or_end(kind_seq(old(self).tokens@), old(self).current as int),
        decreases self.tokens@.len() - self.current, 5int,
    {
        proof {
            assert forall|i: int| 0 <= i < old(self).tokens@.len() implies #[trigger] kind_seq(
                old(self).tokens@,
            )[i] == old(self).tokens@[i].variant by {
                crate::scanner::lemma_kind_seq_index(old(self).tokens@, i);
            }
        }
        let ghost pre = *self;
        let left = match self.and_group() {
            Ok(e) => e,
            Err(e) => {
                return Err(e);
            },
        };
        let ghost after_left = *self;
        if self.match_token(TokenType::Or) {
            let operator = self.previous();
            match self.or_group() {
                Ok(right) => {
                    proof {
                        if !self.had_error {
                            let ts = self.tokens@;
                            let a = pre.current as int;
                            let m = after_left.current as int;
                            let b = self.current as int;
                            lemma_cat_kept_split(ts, a, m, b);
                            assert(cat_kept(ts, m, b) == kept_entry(ts[m]) + cat_kept(
                                ts,
                                m + 1,
                                b,
                            ));
                            assert(cat_kept(ts, a, b) =~= leaves(left) + operator.lexeme@ + leaves(
                                right,
                            ));
                        }
                    }
                    Ok(Expr::Logical { left: Box::new(left), operator, right: Box::new(right) })
                },
                Err(_) => Err(self.error("Expected filter expression".to_owned(), true)),
            }
        } else {
            Ok(left)
        }
    }

    /// Parses the whole token stream into one expression tree; diagnostics
    /// accumulate in `errors`. On success no fatal diagnostic was recorded,
    /// the whole input was consumed, and the tree derives exactly the token
    /// stream. On failure the returned diagnostic is user facing, all
    /// recorded diagnostics are kept, and a scan that had already failed
    /// always fails the parse. Success is owed: a clean scan whose tokens
    /// form one `|`-group covering the whole input always parses.
    pub fn parse(&mut self) -> (r: Result<Expr, ParsingError>)
        requires
            old(self).ready(),
            old(self).current == 0,
        ensures
            final(self).tokens == old(self).tokens,
            final(self).errors@.len() >= old(self).errors@.len(),
            forall|i: int|
                0 <= i < old(self).errors@.len() ==> final(self).errors@[i] == old(self).errors@[i],
            old(self).had_error ==> final(self).had_error,
            final(self).had_error ==> r is Err,
            r matches Err(e) ==> is_report(e) && (err_message(e) == "Expected '&' or '|'"@ || (
            err_message(e) == "Parsing Error"@ && crate::error::err_line(e) == 1
                && crate::error::err_column(e) == 1)),
            r matches Ok(e) ==> !old(self).had_error && !final(self).had_error && wf_or(e)
                && leaves(e) == cat_kept(old(self).tokens@, 0, old(self).tokens@.len() - 1),
            r is Err ==> final(self).had_error || old(self).tokens@.len() == 1,
            old(self).tokens@.len() == 1 ==> r is Err,
            !old(self).had_error && or_shape(kind_seq(old(self).tokens@), 0) && or_end(
                kind_seq(old(self).tokens@),
                0,
            ) == old(self).tokens@.len() - 1 ==> r is Ok,
            r matches Ok(e) ==> derives_or(old(self).tokens@, 0, e) && width(e) == old(self).tokens@.len() - 1,
            r matches Ok(e) ==> or_shape(kind_seq(old(self).tokens@), 0) && or_end(kind_seq(old(self).tokens@), 0) == old(self).tokens@.len() - 1,
    {
        let mut result: Option<Expr> = None;
        while !self.at_end()
            invariant
                self.ready(),
                self.tokens == old(self).tokens,
                self.errors@.len() >= old(self).errors@.len(),
                forall|i: int|
                    0 <= i < old(self).errors@.len() ==> self.errors@[i] == old(self).errors@[i],
                old(self).had_error ==> self.had_error,
                old(self).tokens@.len() == 1 ==> result is None,
                (!old(self).had_error && or_shape(kind_seq(old(self).tokens@), 0) && or_end(
                    kind_seq(old(self).tokens@),
                    0,
                ) == old(self).tokens@.len() - 1) ==> !self.had_error,
                !self.had_error ==> (match result {
                    Option::None => self.current == 0 && !self.synchronized,
                    Option::Some(e) => wf_or(e) && leaves(e) == cat_kept(
                        self.tokens@,
                        0,
                        self.current as int,
                    ) && derives_or(self.tokens@, 0, e) && width(e) == self.current
                        && or_shape(kind_seq(self.tokens@), 0) && or_end(kind_seq(self.tokens@), 0)
                        == self.current && self.tokens@[self.current as int].variant
                        == TokenType::EOF,
                }),
            decreases self.tokens@.len() - self.current,
        {
            let ghost head = *self;
            match self.or_group() {
                Ok(expr) => {
                    if !self.at_end() && !self.synchronized {
                        // Two groups with nothing between them, e.g.
                        // `q01;elb001=1 q02;elb002=2`.
                        return Err(self.error("Expected '&' or '|'".to_owned(), true));
                    } else {
                        result = Some(expr);
                    }
                },
                Err(_) => {
                    // Skip to the next combinator and try the next group.
                    self.synchronize();
                    result = None;
                },
            }
        }
        let error = ParsingError::Report {
            message: "Parsing Error".to_owned(),
            line: 1,
            column: 1,
        };
        if self.had_error {
            Err(error)
        } else {
            match result {
                Some(expr) => Ok(expr),
                None => {
                    proof {
                        // Only the empty input reaches this arm without a
                        // fatal diagnostic, and the empty input satisfies no
                        // group shape.
                        if !old(self).had_error && or_shape(kind_seq(old(self).tokens@), 0) && or_end(
                            kind_seq(old(self).tokens@),
                            0,
                        ) == old(self).tokens@.len() - 1 {
                            assert(!set_shape(kind_seq(old(self).tokens@), 0));
                            assert(!filter_shape(kind_seq(old(self).tokens@), 0));
                            assert(!grouping_shape(kind_seq(old(self).tokens@), 0));
                            assert(!primary_shape(kind_seq(old(self).tokens@), 0));
                            assert(!and_shape(kind_seq(old(self).tokens@), 0));
                            assert(!or_shape(kind_seq(old(self).tokens@), 0));
                        }
                    }
                    Err(error)
                },
            }
        }
    }
}

} // verus!
