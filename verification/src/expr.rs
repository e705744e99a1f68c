use vstd::prelude::*;

use crate::scanner::{placed, Token};
use crate::token_type::TokenType;

verus! {

/// The expression tree a successful parse produces. Every leaf token keeps
/// its original lexeme, line and column. `Term` and `Element` are reserved
/// for grammar extensions and constructed by no current rule.
#[derive(Debug)]
pub enum Expr {
    Grouping { expr: Box<Expr> },
    Logical { left: Box<Expr>, operator: Token, right: Box<Expr> },
    Term { expr: Box<Expr> },
    Filter { left: Box<Expr>, operator: Token, right: Box<Expr> },
    SetRef { question: Option<Token>, item: Token },
    Element,
    Range { left: Token, right: Token },
    List { value: Token, next: Box<Expr> },
    EndOfList,
    Literal { value: Token },
}

/// The lexemes of the leaf tokens of `e`, concatenated in order.
pub open spec fn leaves(e: Expr) -> Seq<char>
    decreases e,
{
    match e {
        Expr::Grouping { expr } => leaves(*expr),
        Expr::Logical { left, operator, right } => leaves(*left) + operator.lexeme@ + leaves(
            *right,
        ),
        Expr::Term { expr } => leaves(*expr),
        Expr::Filter { left, operator, right } => leaves(*left) + operator.lexeme@ + leaves(*right),
        Expr::SetRef { question, item } => (match question {
            Some(q) => q.lexeme@,
            None => Seq::empty(),
        }) + item.lexeme@,
        Expr::Element => Seq::empty(),
        Expr::Range { left, right } => left.lexeme@ + right.lexeme@,
        Expr::List { value, next } => value.lexeme@ + leaves(*next),
        Expr::EndOfList => Seq::empty(),
        Expr::Literal { value } => value.lexeme@,
    }
}

/// The comparison operators a filter accepts.
pub open spec fn is_cmp_op(v: TokenType) -> bool {
    v == TokenType::Equal || v == TokenType::EqualEqual || v == TokenType::BangEqual || v
        == TokenType::Greater || v == TokenType::GreaterEqual || v == TokenType::Less || v
        == TokenType::LessEqual
}

/// A set reference: an item identifier, optionally qualified by a question
/// given as an identifier or a number.
pub open spec fn wf_set(e: Expr) -> bool {
    match e {
        Expr::SetRef { question, item } => item.variant == TokenType::Identifier && (match question {
            Some(q) => q.variant == TokenType::Identifier || q.variant == TokenType::Number,
            None => true,
        }),
        _ => false,
    }
}

/// A nonempty comma-joined list of numbers, closed by `EndOfList`.
pub open spec fn wf_list(e: Expr) -> bool
    decreases e,
{
    match e {
        Expr::List { value, next } => value.variant == TokenType::Number && (*next
            matches Expr::EndOfList || wf_list(*next)),
        _ => false,
    }
}

/// What may stand right of a comparison operator: a set reference, a number
/// literal, a range of numbers, or a list of numbers.
pub open spec fn wf_rhs(e: Expr) -> bool {
    wf_set(e) || wf_list(e) || (match e {
        Expr::Range { left, right } => left.variant == TokenType::Number && right.variant
            == TokenType::Number,
        Expr::Literal { value } => value.variant == TokenType::Number,
        _ => false,
    })
}

/// A primary expression: one filter comparison, or a bracketed group.
pub open spec fn wf_primary(e: Expr) -> bool
    decreases e, 0int,
{
    match e {
        Expr::Filter { left, operator, right } => wf_set(*left) && is_cmp_op(operator.variant)
            && wf_rhs(*right),
        Expr::Grouping { expr } => wf_or(*expr),
        _ => false,
    }
}

/// An `&`-joined group. The `&` combinator is right-associative: the left
/// child of a conjunction is always a single primary expression, never a
/// conjunction itself.
pub open spec fn wf_and(e: Expr) -> bool
    decreases e, 1int,
{
    wf_primary(e) || (match e {
        Expr::Logical { left, operator, right } => operator.variant == TokenType::And && wf_primary(
            *left,
        ) && wf_and(*right),
        _ => false,
    })
}

/// An `|`-joined group of `&`-groups, likewise right-associative.
pub open spec fn wf_or(e: Expr) -> bool
    decreases e, 2int,
{
    wf_and(e) || (match e {
        Expr::Logical { left, operator, right } => operator.variant == TokenType::Or && wf_and(
            *left,
        ) && wf_or(*right),
        _ => false,
    })
}

/// The number of tokens a tree covers in the stream it was parsed from.
pub open spec fn width(e: Expr) -> int
    decreases e,
{
    match e {
        Expr::Grouping { expr } => width(*expr) + 2,
        Expr::Logical { left, operator, right } => width(*left) + 1 + width(*right),
        Expr::Term { expr } => width(*expr),
        Expr::Filter { left, operator, right } => width(*left) + 1 + width(*right),
        Expr::SetRef { question, item } => if question is Some {
            3int
        } else {
            1int
        },
        Expr::Element => 0,
        Expr::Range { left, right } => 3,
        Expr::List { value, next } => match *next {
            Expr::EndOfList => 1,
            _ => 2 + width(*next),
        },
        Expr::EndOfList => 0,
        Expr::Literal { value } => 1,
    }
}

/// The tree `e` derives exactly the tokens `a..a + width(e)` of `ts`: every
/// leaf of the tree is the stream's own token, standing at its own place.
pub open spec fn derives_set(ts: Seq<Token>, a: int, e: Expr) -> bool {
    match e {
        Expr::SetRef { question, item } => match question {
            Some(q) => q == ts[a] && (q.variant == TokenType::Identifier || q.variant
                == TokenType::Number) && ts[a + 1].variant == TokenType::SemiColon && item == ts[a
                + 2] && item.variant == TokenType::Identifier,
            None => item == ts[a] && item.variant == TokenType::Identifier,
        },
        _ => false,
    }
}

pub open spec fn derives_list(ts: Seq<Token>, a: int, e: Expr) -> bool
    decreases e,
{
    match e {
        Expr::List { value, next } => value == ts[a] && value.variant == TokenType::Number && (
        match *next {
            Expr::EndOfList => true,
            _ => ts[a + 1].variant == TokenType::Comma && derives_list(ts, a + 2, *next),
        }),
        _ => false,
    }
}

pub open spec fn derives_rhs(ts: Seq<Token>, a: int, e: Expr) -> bool {
    derives_set(ts, a, e) || derives_list(ts, a, e) || (match e {
        Expr::Range { left, right } => left == ts[a] && left.variant == TokenType::Number && ts[a
            + 1].variant == TokenType::Colon && right == ts[a + 2] && right.variant
            == TokenType::Number,
        Expr::Literal { value } => value == ts[a] && value.variant == TokenType::Number,
        _ => false,
    })
}

pub open spec fn derives_primary(ts: Seq<Token>, a: int, e: Expr) -> bool
    decreases e, 0int,
{
    match e {
        Expr::Filter { left, operator, right } => derives_set(ts, a, *left) && operator == ts[a
            + width(*left)] && is_cmp_op(operator.variant) && derives_rhs(
            ts,
            a + width(*left) + 1,
            *right,
        ),
        Expr::Grouping { expr } => ((ts[a].variant == TokenType::LeftParen && ts[a + 1 + width(
            *expr,
        )].variant == TokenType::RightParen) || (ts[a].variant == TokenType::LeftBracket && ts[a
            + 1 + width(*expr)].variant == TokenType::RightBracket) || (ts[a].variant
            == TokenType::LeftBrace && ts[a + 1 + width(*expr)].variant == TokenType::RightBrace))
            && derives_or(ts, a + 1, *expr),
        _ => false,
    }
}

pub open spec fn derives_and(ts: Seq<Token>, a: int, e: Expr) -> bool
    decreases e, 1int,
{
    derives_primary(ts, a, e) || (match e {
        Expr::Logical { left, operator, right } => operator.variant == TokenType::And
            && derives_primary(ts, a, *left) && operator == ts[a + width(*left)] && derives_and(
            ts,
            a + width(*left) + 1,
            *right,
        ),
        _ => false,
    })
}

pub open spec fn derives_or(ts: Seq<Token>, a: int, e: Expr) -> bool
    decreases e, 2int,
{
    derives_and(ts, a, e) || (match e {
        Expr::Logical { left, operator, right } => operator.variant == TokenType::Or
            && derives_and(ts, a, *left) && operator == ts[a + width(*left)] && derives_or(
            ts,
            a + width(*left) + 1,
            *right,
        ),
        _ => false,
    })
}

pub proof fn lemma_width_nonneg(e: Expr)
    ensures
        width(e) >= 0,
    decreases e,
{
    match e {
        Expr::Grouping { expr } => lemma_width_nonneg(*expr),
        Expr::Logical { left, operator, right } => {
            lemma_width_nonneg(*left);
            lemma_width_nonneg(*right);
        },
        Expr::Term { expr } => lemma_width_nonneg(*expr),
        Expr::Filter { left, operator, right } => {
            lemma_width_nonneg(*left);
            lemma_width_nonneg(*right);
        },
        Expr::List { value, next } => lemma_width_nonneg(*next),
        _ => {},
    }
}

/// Every leaf token of `e` is one the scanner produces for the source `s`:
/// its lexeme, kind, line and column belong to some lexeme boundary of `s`.
pub open spec fn leaves_placed(s: Seq<char>, e: Expr) -> bool
    decreases e,
{
    match e {
        Expr::Grouping { expr } => leaves_placed(s, *expr),
        Expr::Logical { left, operator, right } => leaves_placed(s, *left) && placed(s, operator)
            && leaves_placed(s, *right),
        Expr::Term { expr } => leaves_placed(s, *expr),
        Expr::Filter { left, operator, right } => leaves_placed(s, *left) && placed(s, operator)
            && leaves_placed(s, *right),
        Expr::SetRef { question, item } => (match question {
            Some(q) => placed(s, q),
            None => true,
        }) && placed(s, item),
        Expr::Element => true,
        Expr::Range { left, right } => placed(s, left) && placed(s, right),
        Expr::List { value, next } => placed(s, value) && leaves_placed(s, *next),
        Expr::EndOfList => true,
        Expr::Literal { value } => placed(s, value),
    }
}

/// A tree that derives a run of placed tokens has only placed leaves.
pub proof fn lemma_derives_placed_list(s: Seq<char>, ts: Seq<Token>, a: int, e: Expr)
    requires
        derives_list(ts, a, e),
        forall|j: int| a <= j < a + width(e) ==> placed(s, #[trigger] ts[j]),
    ensures
        leaves_placed(s, e),
    decreases e,
{
    match e {
        Expr::List { value, next } => {
            match *next {
                Expr::EndOfList => {
                    assert(width(e) == 1);
                    assert(placed(s, ts[a]));
                    assert(value == ts[a]);
                    assert(leaves_placed(s, *next));
                },
                _ => {
                    lemma_width_nonneg(*next);
                    assert(width(e) == 2 + width(*next));
                    assert(placed(s, ts[a]));
                    assert(value == ts[a]);
                    lemma_derives_placed_list(s, ts, a + 2, *next);
                },
            }
        },
        _ => {},
    }
}

pub proof fn lemma_derives_placed_primary(s: Seq<char>, ts: Seq<Token>, a: int, e: Expr)
    requires
        derives_primary(ts, a, e),
        forall|j: int| a <= j < a + width(e) ==> placed(s, #[trigger] ts[j]),
    ensures
        leaves_placed(s, e),
    decreases e, 0int,
{
    match e {
        Expr::Filter { left, operator, right } => {
            lemma_width_nonneg(*left);
            lemma_width_nonneg(*right);
            let m = a + width(*left);
            assert(leaves_placed(s, *left));
            assert(placed(s, ts[m]));
            if derives_list(ts, m + 1, *right) {
                lemma_derives_placed_list(s, ts, m + 1, *right);
            } else {
                lemma_width_nonneg(*right);
                assert(leaves_placed(s, *right));
            }
        },
        Expr::Grouping { expr } => {
            lemma_width_nonneg(*expr);
            lemma_derives_placed_or(s, ts, a + 1, *expr);
        },
        _ => {},
    }
}

pub proof fn lemma_derives_placed_and(s: Seq<char>, ts: Seq<Token>, a: int, e: Expr)
    requires
        derives_and(ts, a, e),
        forall|j: int| a <= j < a + width(e) ==> placed(s, #[trigger] ts[j]),
    ensures
        leaves_placed(s, e),
    decreases e, 1int,
{
    if derives_primary(ts, a, e) {
        lemma_derives_placed_primary(s, ts, a, e);
    } else {
        match e {
            Expr::Logical { left, operator, right } => {
                lemma_width_nonneg(*left);
                lemma_width_nonneg(*right);
                lemma_derives_placed_primary(s, ts, a, *left);
                assert(placed(s, ts[a + width(*left)]));
                lemma_derives_placed_and(s, ts, a + width(*left) + 1, *right);
            },
            _ => {},
        }
    }
}

pub proof fn lemma_derives_placed_or(s: Seq<char>, ts: Seq<Token>, a: int, e: Expr)
    requires
        derives_or(ts, a, e),
        forall|j: int| a <= j < a + width(e) ==> placed(s, #[trigger] ts[j]),
    ensures
        leaves_placed(s, e),
    decreases e, 2int,
{
    if derives_and(ts, a, e) {
        lemma_derives_placed_and(s, ts, a, e);
    } else {
        match e {
            Expr::Logical { left, operator, right } => {
                lemma_width_nonneg(*left);
                lemma_width_nonneg(*right);
                lemma_derives_placed_and(s, ts, a, *left);
                assert(placed(s, ts[a + width(*left)]));
                lemma_derives_placed_or(s, ts, a + width(*left) + 1, *right);
            },
            _ => {},
        }
    }
}

/// `&` is right-associative: in every well-formed `&`-group that is a
/// combination at all, the combinator is `&`, the left child is one primary
/// expression — never a combination itself — and the right child carries the
/// whole rest of the chain.
pub proof fn lemma_and_right_associative(e: Expr)
    requires
        wf_and(e),
    ensures
        e matches Expr::Logical { left, operator, right } ==> operator.variant == TokenType::And
            && wf_primary(*left) && wf_and(*right) && !(*left matches Expr::Logical { .. }),
{
    match e {
        Expr::Logical { left, operator, right } => {
            assert(!wf_primary(e));
            assert(wf_primary(*left));
            match *left {
                Expr::Logical { .. } => {
                    assert(false);
                },
                _ => {},
            }
        },
        _ => {},
    }
}

/// `|` likewise: in a well-formed `|`-group whose combinator is `|`, the
/// left child is one `&`-group — never an `|`-combination itself — and the
/// right child carries the whole rest of the chain.
pub proof fn lemma_or_right_associative(e: Expr)
    requires
        wf_or(e),
    ensures
        e matches Expr::Logical { left, operator, right } ==> (operator.variant == TokenType::Or
            ==> wf_and(*left) && wf_or(*right) && !(*left matches Expr::Logical {
            left: _,
            operator: op2,
            right: _,
        } && op2.variant == TokenType::Or)),
{
    match e {
        Expr::Logical { left, operator, right } => {
            if operator.variant == TokenType::Or {
                assert(!wf_primary(e));
                assert(!wf_and(e));
                assert(wf_and(*left));
                lemma_and_right_associative(*left);
            }
        },
        _ => {},
    }
}

} // verus!
