//! The fixture oracle: caret annotations and expected-tag comparison.
//!
//! A fixture interleaves code with comment lines whose `^` characters
//! stand under the columns of annotated tokens. This module extracts
//! the annotated columns from such a line and diffs an expected
//! `(span, tag)` list against the classifier's actual output, reporting
//! every discrepancy per span rather than a bare pass or fail.

use vstd::prelude::*;
use crate::span::Span;
use crate::kinds::Tag;

verus! {

/// The caret byte, `^`.
pub const CARET: u8 = 94;

/// One expected-vs-actual discrepancy: the annotated span, the tag the
/// fixture expects, and the tag actually produced — `None` when the
/// output covers the span not at all.
#[derive(Clone, Copy, PartialEq, Eq, Debug)]
pub struct Mismatch {
    pub span: Span,
    pub expected: Tag,
    pub found: Option<Tag>,
}

/// The columns of an annotation line that carry a caret, in order.
pub open spec fn caret_columns_model(line: Seq<u8>) -> Seq<usize>
    decreases line.len(),
{
    if line.len() == 0 {
        Seq::<usize>::empty()
    } else if line.last() == CARET {
        caret_columns_model(line.drop_last()) + seq![(line.len() - 1) as usize]
    } else {
        caret_columns_model(line.drop_last())
    }
}

/// Extracts the annotated columns from one `^` line.
pub fn caret_columns(line: &Vec<u8>) -> (cols: Vec<usize>)
    ensures
        cols@ == caret_columns_model(line@),
{
    let mut cols: Vec<usize> = Vec::new();
    let mut k: usize = 0;
    while k < line.len()
        invariant
            k <= line@.len(),
            cols@ == caret_columns_model(line@.take(k as int)),
        decreases line@.len() - k,
    {
        proof {
            assert(line@.take(k + 1).drop_last() =~= line@.take(k as int));
            assert(line@.take(k + 1).last() == line@[k as int]);
        }
        if line[k] == CARET {
            cols.push(k);
        }
        k += 1;
    }
    proof {
        assert(line@.take(line@.len() as int) =~= line@);
    }
    cols
}

/// The tag the actual output assigns to span `s`: its first entry for
/// that span, if any.
pub open spec fn first_match(actual: Seq<(Span, Tag)>, s: Span) -> Option<Tag>
    decreases actual.len(),
{
    if actual.len() == 0 {
        None::<Tag>
    } else if actual[0].0 == s {
        Some(actual[0].1)
    } else {
        first_match(actual.drop_first(), s)
    }
}

pub proof fn lemma_first_match_at(actual: Seq<(Span, Tag)>, s: Span, j: int)
    requires
        0 <= j <= actual.len(),
        forall|x: int| 0 <= x < j ==> (#[trigger] actual[x]).0 != s,
        j < actual.len() ==> actual[j].0 == s,
    ensures
        first_match(actual, s) == if j < actual.len() {
            Some(actual[j].1)
        } else {
            None::<Tag>
        },
    decreases j,
{
    if j > 0 {
        lemma_first_match_at(actual.drop_first(), s, j - 1);
    }
}

/// What one expected entry contributes to the report.
pub open spec fn entry_mismatch(e: (Span, Tag), actual: Seq<(Span, Tag)>) -> Seq<Mismatch> {
    match first_match(actual, e.0) {
        Some(t) => if t == e.1 {
            Seq::<Mismatch>::empty()
        } else {
            seq![Mismatch { span: e.0, expected: e.1, found: Some(t) }]
        },
        None => seq![Mismatch { span: e.0, expected: e.1, found: None::<Tag> }],
    }
}

/// The whole report, one entry per failed expectation, in fixture
/// order.
pub open spec fn mismatches_model(
    expected: Seq<(Span, Tag)>,
    actual: Seq<(Span, Tag)>,
) -> Seq<Mismatch>
    decreases expected.len(),
{
    if expected.len() == 0 {
        Seq::<Mismatch>::empty()
    } else {
        mismatches_model(expected.drop_last(), actual) + entry_mismatch(expected.last(), actual)
    }
}

fn lookup_actual(actual: &Vec<(Span, Tag)>, s: Span) -> (r: Option<Tag>)
    ensures
        r == first_match(actual@, s),
{
    let mut j: usize = 0;
    while j < actual.len()
        invariant
            j <= actual@.len(),
            forall|x: int| 0 <= x < j ==> (#[trigger] actual@[x]).0 != s,
        decreases actual@.len() - j,
    {
        if actual[j].0 == s {
            proof {
                lemma_first_match_at(actual@, s, j as int);
            }
            return Some(actual[j].1);
        }
        j += 1;
    }
    proof {
        lemma_first_match_at(actual@, s, actual@.len() as int);
    }
    None
}

/// Diffs the expected assertions of one fixture section against the
/// classifier's output. An empty report means every `^`-marked
/// assertion holds.
pub fn compare_tags(expected: &Vec<(Span, Tag)>, actual: &Vec<(Span, Tag)>) -> (ms: Vec<Mismatch>)
    ensures
        ms@ == mismatches_model(expected@, actual@),
{
    let mut ms: Vec<Mismatch> = Vec::new();
    let mut k: usize = 0;
    while k < expected.len()
        invariant
            k <= expected@.len(),
            ms@ == mismatches_model(expected@.take(k as int), actual@),
        decreases expected@.len() - k,
    {
        proof {
            assert(expected@.take(k + 1).drop_last() =~= expected@.take(k as int));
            assert(expected@.take(k + 1).last() == expected@[k as int]);
        }
        let e = expected[k];
        match lookup_actual(actual, e.0) {
            Some(t) => {
                if t != e.1 {
                    ms.push(Mismatch { span: e.0, expected: e.1, found: Some(t) });
                }
            },
            None => {
                ms.push(Mismatch { span: e.0, expected: e.1, found: None });
            },
        }
        k += 1;
    }
    proof {
        assert(expected@.take(expected@.len() as int) =~= expected@);
    }
    ms
}

} // verus!
