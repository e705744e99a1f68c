//! A scanner and recursive-descent parser for a compact survey-filter
//! syntax such as `q01;elb0001=2:4`, turning a single line of text into a
//! position-tagged token stream and then into a typed expression tree,
//! collecting diagnostics instead of stopping at the first error.

pub mod error;
pub mod expr;
pub mod parser;
pub mod scanner;
pub mod text;
pub mod token_type;

use vstd::prelude::*;

use crate::error::{err_column, err_line, has_report_at, is_report, ParsingError};
use crate::expr::{leaves, leaves_placed, lemma_derives_placed_or, wf_or, width, Expr};
use crate::parser::{or_end, or_shape, Parser};
use crate::scanner::{
    cat_kept, kept_entry, kind_seq, lemma_cat_kept_split, lemma_kind_seq_len, lex_ok, placed,
    spec_kinds, Scanner,
};
use crate::text::{col_of, dangling_minus, illegal, kept_chars, line_of};
use crate::token_type::TokenType;

verus! {

/// The filter grammar accepts `s`: it scans without a lexical error, and its
/// token stream forms one `|`-group spanning the whole input.
pub open spec fn accepts(s: Seq<char>) -> bool {
    let ks = spec_kinds(s, 0).push(TokenType::EOF);
    lex_ok(s, 0) && or_shape(ks, 0) && or_end(ks, 0) == ks.len() - 1
}

/// Whether some diagnostic in `es` sits at line `l`, column `c`.
fn has_position(es: &Vec<ParsingError>, l: usize, c: usize) -> (r: bool)
    ensures
        r == exists|k: int|
            0 <= k < es@.len() && err_line(#[trigger] es@[k]) == l && err_column(es@[k]) == c,
{
    let mut idx: usize = 0;
    while idx < es.len()
        invariant
            idx <= es@.len(),
            forall|k: int|
                0 <= k < idx ==> !(err_line(#[trigger] es@[k]) == l && err_column(es@[k]) == c),
        decreases es@.len() - idx,
    {
        let (el, ec) = es[idx].position();
        if el == l && ec == c {
            return true;
        }
        idx = idx + 1;
    }
    false
}

/// Every entry of `ds` is one of the diagnostics of `source`, verbatim.
pub open spec fn entries_from(ds: Seq<ParsingError>, source: Seq<ParsingError>) -> bool {
    forall|k: int| 0 <= k < ds.len() ==> source.contains(#[trigger] ds[k])
}

/// The user-facing diagnostics of `errors`, deduplicated by position: of the
/// entries at one (line, column) only the first is kept, and `Internal`
/// entries are dropped.
#[verifier::rlimit(60)]
fn dedup_reports(errors: &Vec<ParsingError>) -> (r: Vec<ParsingError>)
    ensures
        forall|k: int| 0 <= k < r@.len() ==> is_report(#[trigger] r@[k]),
        forall|k1: int, k2: int|
            0 <= k1 < k2 < r@.len() ==> !(err_line(#[trigger] r@[k1]) == err_line(
                #[trigger] r@[k2],
            ) && err_column(r@[k1]) == err_column(r@[k2])),
        forall|k: int|
            0 <= k < errors@.len() && is_report(#[trigger] errors@[k]) ==> has_report_at(
                r@,
                err_line(errors@[k]) as int,
                err_column(errors@[k]) as int,
            ),
        entries_from(r@, errors@),
        forall|j: int|
            0 <= j < errors@.len() && is_report(#[trigger] errors@[j]) && (forall|j2: int|
                0 <= j2 < j ==> !(is_report(#[trigger] errors@[j2]) && err_line(errors@[j2])
                    == err_line(errors@[j]) && err_column(errors@[j2]) == err_column(
                    errors@[j],
                ))) ==> exists|k: int| 0 <= k < r@.len() && (#[trigger] r@[k]) == errors@[j],
{
    let mut out: Vec<ParsingError> = Vec::new();
    let mut idx: usize = 0;

    while idx < errors.len()
        invariant
            idx <= errors@.len(),
            forall|k: int| 0 <= k < out@.len() ==> is_report(#[trigger] out@[k]),
            forall|k1: int, k2: int|
                0 <= k1 < k2 < out@.len() ==> !(err_line(#[trigger] out@[k1]) == err_line(
                    #[trigger] out@[k2],
                ) && err_column(out@[k1]) == err_column(out@[k2])),
            forall|k: int|
                0 <= k < idx && is_report(#[trigger] errors@[k]) ==> has_report_at(
                    out@,
                    err_line(errors@[k]) as int,
                    err_column(errors@[k]) as int,
                ),
            entries_from(out@, errors@.take(idx as int)),
            forall|j: int|
                0 <= j < idx && is_report(#[trigger] errors@[j]) && (forall|j2: int|
                    0 <= j2 < j ==> !(is_report(#[trigger] errors@[j2]) && err_line(errors@[j2])
                        == err_line(errors@[j]) && err_column(errors@[j2]) == err_column(
                        errors@[j],
                    ))) ==> exists|k: int| 0 <= k < out@.len() && (#[trigger] out@[k])
                    == errors@[j],
        decreases errors@.len() - idx,
    {
        let ghost prev = out@;
        let e = &errors[idx];
        if e.is_reportable() {
            let (el, ec) = e.position();
            if !has_position(&out, el, ec) {
                out.push(e.dup());
                proof {
                    assert forall|k: int|
                        0 <= k < idx + 1 && is_report(errors@[k]) implies has_report_at(
                        out@,
                        err_line(errors@[k]) as int,
                        err_column(errors@[k]) as int,
                    ) by {
                        if k < idx {
                            let l = err_line(errors@[k]) as int;
                            let c = err_column(errors@[k]) as int;
                            let w = choose|w: int|
                                0 <= w < prev.len() && is_report(#[trigger] prev[w]) && err_line(
                                    prev[w],
                                ) == l && err_column(prev[w]) == c;
                            assert(out@[w] == prev[w]);
                        } else {
                            assert(out@[out@.len() - 1] == errors@[idx as int]);
                        }
                    }
                    assert forall|k: int| 0 <= k < out@.len() implies errors@.take(
                        idx + 1,
                    ).contains(#[trigger] out@[k]) by {
                        if k < out@.len() - 1 {
                            assert(out@[k] == prev[k]);
                            let j = choose|j: int|
                                0 <= j < errors@.take(idx as int).len() && #[trigger] errors@.take(
                                    idx as int,
                                )[j] == prev[k];
                            assert(errors@.take(idx + 1)[j] == out@[k]);
                        } else {
                            assert(out@[k] == errors@[idx as int]);
                            assert(errors@.take(idx + 1)[idx as int] == out@[k]);
                        }
                    }
                    assert forall|j: int|
                        0 <= j < idx + 1 && is_report(errors@[j]) && (forall|j2: int|
                            0 <= j2 < j ==> !(is_report(#[trigger] errors@[j2]) && err_line(
                                errors@[j2],
                            ) == err_line(errors@[j]) && err_column(errors@[j2]) == err_column(
                                errors@[j],
                            ))) implies exists|k: int|
                        0 <= k < out@.len() && (#[trigger] out@[k]) == errors@[j] by {
                        if j < idx {
                            let k = choose|k: int| 0 <= k < prev.len() && (#[trigger] prev[k])
                                == errors@[j];
                            assert(out@[k] == errors@[j]);
                        } else {
                            assert(out@[out@.len() - 1] == errors@[j]);
                        }
                    }
                }
            } else {
                proof {
                    let w = choose|w: int|
                        0 <= w < out@.len() && err_line(#[trigger] out@[w]) == el && err_column(
                            out@[w],
                        ) == ec;
                    assert(is_report(out@[w]));
                    // The entry already standing at this position came from an
                    // earlier input diagnostic, so the skipped one is not the
                    // first report at its position.
                    assert(errors@.take(idx as int).contains(out@[w]));
                    let j3 = choose|j3: int|
                        0 <= j3 < errors@.take(idx as int).len() && #[trigger] errors@.take(
                            idx as int,
                        )[j3] == out@[w];
                    assert(0 <= j3 < idx && errors@[j3] == out@[w]);
                    assert(is_report(errors@[j3]) && err_line(errors@[j3]) == el && err_column(
                        errors@[j3],
                    ) == ec);
                    assert forall|j: int|
                        0 <= j < idx + 1 && is_report(errors@[j]) && (forall|j2: int|
                            0 <= j2 < j ==> !(is_report(#[trigger] errors@[j2]) && err_line(
                                errors@[j2],
                            ) == err_line(errors@[j]) && err_column(errors@[j2]) == err_column(
                                errors@[j],
                            ))) implies exists|k: int|
                        0 <= k < out@.len() && (#[trigger] out@[k]) == errors@[j] by {
                        if j < idx {
                            let k = choose|k: int|
                                0 <= k < out@.len() && (#[trigger] out@[k]) == errors@[j];
                        } else {
                            assert(is_report(errors@[j3]) && err_line(errors@[j3]) == err_line(
                                errors@[j],
                            ) && err_column(errors@[j3]) == err_column(errors@[j]));
                        }
                    }
                    assert forall|k: int| 0 <= k < out@.len() implies errors@.take(
                        idx + 1,
                    ).contains(#[trigger] out@[k]) by {
                        let j = choose|j: int|
                            0 <= j < errors@.take(idx as int).len() && #[trigger] errors@.take(
                                idx as int,
                            )[j] == out@[k];
                        assert(errors@.take(idx + 1)[j] == out@[k]);
                    }
                }
            }
        } else {
            proof {
                assert(!is_report(errors@[idx as int]));
                assert forall|k: int| 0 <= k < out@.len() implies errors@.take(idx + 1).contains(
                    #[trigger] out@[k],
                ) by {
                    let j = choose|j: int|
                        0 <= j < errors@.take(idx as int).len() && #[trigger] errors@.take(
                            idx as int,
                        )[j] == out@[k];
                    assert(errors@.take(idx + 1)[j] == out@[k]);
                }
            }
        }
        idx = idx + 1;
    }
    proof {
        assert(errors@.take(errors@.len() as int) =~= errors@);
    }
    out
}

/// Scans and parses one filter expression.
///
/// Success is exactly acceptance: the result is `Ok` if and only if the
/// source scans without a lexical error and its tokens form one `|`-group
/// spanning the whole input. On success the returned tree is shaped by the
/// grammar and its leaf lexemes, concatenated in order, spell exactly the
/// source text stripped of whitespace and punctuation. On failure the
/// returned diagnostics are the user-facing ones, at least one, deduplicated
/// by position with the first message at each position kept; every illegal
/// character and every dangling minus is reported at its own position.
pub fn run(source: &str) -> (r: Result<Expr, Vec<ParsingError>>)
    requires
        source@.len() < usize::MAX,
    ensures
        r is Ok <==> accepts(source@),
        r matches Ok(e) ==> wf_or(e) && leaves(e) == kept_chars(source@) && leaves_placed(
            source@,
            e,
        ),
        r matches Err(ds) ==> ds@.len() >= 1 && (forall|k: int|
            0 <= k < ds@.len() ==> is_report(#[trigger] ds@[k])) && (forall|k1: int, k2: int|
            0 <= k1 < k2 < ds@.len() ==> !(err_line(#[trigger] ds@[k1]) == err_line(
                #[trigger] ds@[k2],
            ) && err_column(ds@[k1]) == err_column(ds@[k2]))),
        forall|i: int|
            0 <= i < source@.len() && illegal(#[trigger] source@[i]) ==> (r matches Err(ds)
                && has_report_at(ds@, line_of(source@, i), col_of(source@, i))),
        forall|i: int|
            0 <= i < source@.len() && dangling_minus(source@, i) ==> (r matches Err(ds)
                && has_report_at(ds@, line_of(source@, i), col_of(source@, i) + 1)),
{
    let mut scanner = Scanner::new(source);
    let _ = scanner.scan();
    let had_error = scanner.had_error;
    let ghost scanner_errors = scanner.errors@;
    let ghost toks = scanner.tokens@;
    let mut parser = Parser::new(scanner.tokens, scanner.errors, had_error);
    let result = parser.parse();
    proof {
        lemma_kind_seq_len(toks);
    }
    match result {
        Ok(expr) => {
            proof {
                assert(accepts(source@));
                assert forall|j: int| 0 <= j < width(expr) implies placed(
                    source@,
                    #[trigger] toks[j],
                ) by {
                    assert(placed(source@, toks[j]));
                }
                lemma_derives_placed_or(source@, toks, 0, expr);
                let n = toks.len() as int;
                lemma_cat_kept_split(toks, 0, n - 1, n);
                assert(cat_kept(toks, n, n) =~= Seq::<char>::empty());
                assert(cat_kept(toks, n - 1, n) == kept_entry(toks[n - 1]) + cat_kept(toks, n, n));
                assert(kept_entry(toks[n - 1]) =~= Seq::<char>::empty());
                assert(leaves(expr) =~= kept_chars(source@));
                assert forall|i: int| 0 <= i < source@.len() implies !illegal(source@[i])
                    && !dangling_minus(source@, i) by {
                    if illegal(source@[i]) {
                        assert(has_report_at(
                            scanner_errors,
                            line_of(source@, i),
                            col_of(source@, i),
                        ));
                    }
                    if dangling_minus(source@, i) {
                        assert(has_report_at(
                            scanner_errors,
                            line_of(source@, i),
                            col_of(source@, i) + 1,
                        ));
                    }
                }
            }
            Ok(expr)
        },
        Err(final_err) => {
            proof {
                // An accepted source would have scanned cleanly and parsed.
                if accepts(source@) {
                    assert(!had_error);
                    assert(false);
                }
            }
            let mut ds = dedup_reports(&parser.errors);
            let ghost deduped = ds@;
            if ds.len() == 0 {
                ds.push(final_err);
            }
            proof {
                assert forall|i: int|
                    0 <= i < source@.len() && illegal(source@[i]) implies has_report_at(
                    ds@,
                    line_of(source@, i),
                    col_of(source@, i),
                ) by {
                    let l = line_of(source@, i);
                    let c = col_of(source@, i);
                    let k1 = choose|k1: int|
                        0 <= k1 < scanner_errors.len() && is_report(#[trigger] scanner_errors[k1])
                            && err_line(scanner_errors[k1]) == l && err_column(
                            scanner_errors[k1],
                        ) == c;
                    assert(parser.errors@[k1] == scanner_errors[k1]);
                    assert(has_report_at(deduped, l, c));
                    let w = choose|w: int|
                        0 <= w < deduped.len() && is_report(#[trigger] deduped[w]) && err_line(
                            deduped[w],
                        ) == l && err_column(deduped[w]) == c;
                    assert(ds@[w] == deduped[w]);
                }
                assert forall|i: int|
                    0 <= i < source@.len() && dangling_minus(source@, i) implies has_report_at(
                    ds@,
                    line_of(source@, i),
                    col_of(source@, i) + 1,
                ) by {
                    let l = line_of(source@, i);
                    let c = col_of(source@, i) + 1;
                    let k1 = choose|k1: int|
                        0 <= k1 < scanner_errors.len() && is_report(#[trigger] scanner_errors[k1])
                            && err_line(scanner_errors[k1]) == l && err_column(
                            scanner_errors[k1],
                        ) == c;
                    assert(parser.errors@[k1] == scanner_errors[k1]);
                    assert(has_report_at(deduped, l, c));
                    let w = choose|w: int|
                        0 <= w < deduped.len() && is_report(#[trigger] deduped[w]) && err_line(
                            deduped[w],
                        ) == l && err_column(deduped[w]) == c;
                    assert(ds@[w] == deduped[w]);
                }
            }
            Err(ds)
        },
    }
}

} // verus!
