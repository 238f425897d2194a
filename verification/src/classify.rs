//! The capture classifier and the whole resolution pass.
//!
//! A definition's final tag is its declared kind. A resolved reference
//! inherits the tag of the binding it resolved to; a field or method
//! name tags `field` without scope lookup; an unresolved call target or
//! type position falls back to `function` or `type`, resolved by an
//! external namespace; any other unresolved reference is a free
//! reference.

use vstd::prelude::*;
use crate::span::Span;
use crate::kinds::RefHint;
use crate::kinds::StructError;
use crate::kinds::Tag;
use crate::kinds::kind_tag;
use crate::kinds::tag_of_kind;
use crate::scope::ScopeModel;
use crate::scope::build_scope_tree;
use crate::scope::build_error_witness;
use crate::scope::scopes_ok;
use crate::scope::tree_matches;
use crate::collect::DefCandidate;
use crate::collect::attach_all;
use crate::collect::collect_bindings;
use crate::resolver::RefCandidate;
use crate::resolver::Resolution;
use crate::resolver::res_valid;
use crate::resolver::resolve_ref_model;

verus! {

/// The final tag of one reference, given what it resolved to.
pub open spec fn ref_tag_model(m: Seq<ScopeModel>, r: RefCandidate, res: Resolution) -> Tag {
    match res {
        Resolution::Bound { scope, binding } => tag_of_kind(
            m[scope as int].bindings[binding as int].kind,
        ),
        Resolution::FieldOrMethod => Tag::Field,
        Resolution::Free => match r.hint {
            RefHint::CallTarget => Tag::Function,
            RefHint::TypePos => Tag::Type,
            _ => Tag::FreeReference,
        },
    }
}

/// The whole pass's output: one `(span, tag)` pair for every definition
/// candidate, then one for every reference candidate, in input order.
pub open spec fn output_model(
    m: Seq<ScopeModel>,
    defs: Seq<DefCandidate>,
    refs: Seq<RefCandidate>,
) -> Seq<(Span, Tag)> {
    defs.map(|i: int, d: DefCandidate| (d.span, tag_of_kind(d.kind))) + refs.map(
        |i: int, r: RefCandidate| (r.span, ref_tag_model(m, r, resolve_ref_model(m, r))),
    )
}

/// When the whole pass succeeds: well-shaped scope spans, and every
/// candidate that takes part in lookup inside the root.
pub open spec fn analysis_ok(
    root: Span,
    scopes: Seq<Span>,
    defs: Seq<DefCandidate>,
    refs: Seq<RefCandidate>,
) -> bool {
    &&& scopes_ok(root, scopes)
    &&& forall|k: int| 0 <= k < defs.len() ==> root.contains_pos((#[trigger] defs[k]).anchor as int)
    &&& forall|k: int|
        0 <= k < refs.len() ==> ((#[trigger] refs[k]).hint == RefHint::FieldRhs
            || root.contains_pos(refs[k].span.start as int))
}

/// The fault an error of the whole pass reports is really present in
/// the input.
pub open spec fn analysis_error_witness(
    root: Span,
    scopes: Seq<Span>,
    defs: Seq<DefCandidate>,
    refs: Seq<RefCandidate>,
    e: StructError,
) -> bool {
    match e {
        StructError::OutsideRoot(s) => (scopes.contains(s) && !root.contains(s)) || (exists|k: int|
            0 <= k < defs.len() && (#[trigger] defs[k]).span == s && !root.contains_pos(
                defs[k].anchor as int,
            )) || (exists|k: int|
            0 <= k < refs.len() && (#[trigger] refs[k]).span == s && refs[k].hint
                != RefHint::FieldRhs && !root.contains_pos(refs[k].span.start as int)),
        _ => build_error_witness(root, scopes, e),
    }
}

/// Runs the whole resolution pass: builds the scope tree, attaches the
/// definitions, resolves the references, and classifies every candidate.
///
/// The output is one `(span, final tag)` pair per candidate, definitions
/// first, each list in input order. It is a function of the inputs
/// alone: the ensured equation pins every pair.
pub fn analyze(
    root: Span,
    scopes: &Vec<Span>,
    defs: &Vec<DefCandidate>,
    refs: &Vec<RefCandidate>,
) -> (r: Result<Vec<(Span, Tag)>, StructError>)
    ensures
        r.is_ok() <==> analysis_ok(root, scopes@, defs@, refs@),
        (r matches Ok(out) ==> exists|m: Seq<ScopeModel>|
            #[trigger] tree_matches(root, scopes@, m) && out@ == output_model(
                attach_all(m, defs@),
                defs@,
                refs@,
            )),
        (r matches Err(e) ==> analysis_error_witness(root, scopes@, defs@, refs@, e)),
{
    let mut t = match build_scope_tree(root, scopes) {
        Ok(t) => t,
        Err(e) => {
            return Err(e);
        },
    };
    let ghost base = t@;
    match collect_bindings(&mut t, defs) {
        Ok(()) => (),
        Err(e) => {
            return Err(e);
        },
    }
    assert(t@ == attach_all(base, defs@));
    let resolutions = match crate::resolver::resolve_all(&t, refs) {
        Ok(rs) => rs,
        Err(e) => {
            return Err(e);
        },
    };
    let nd = defs.len();
    let mut out: Vec<(Span, Tag)> = Vec::new();
    let mut k: usize = 0;
    while k < nd
        invariant
            nd == defs@.len(),
            k <= nd,
            out@.len() == k,
            forall|x: int|
                0 <= x < k ==> out@[x] == (((#[trigger] defs@[x]).span, tag_of_kind(
                    defs@[x].kind,
                ))),
        decreases nd - k,
    {
        out.push((defs[k].span, kind_tag(defs[k].kind)));
        k += 1;
    }
    let nr = refs.len();
    let mut k: usize = 0;
    while k < nr
        invariant
            nd == defs@.len(),
            nr == refs@.len(),
            nr == resolutions@.len(),
            k <= nr,
            t.wf(),
            out@.len() == nd + k,
            forall|x: int|
                0 <= x < nr ==> resolutions@[x] == resolve_ref_model(t@, #[trigger] refs@[x]),
            forall|x: int| 0 <= x < nr ==> res_valid(t@, #[trigger] resolutions@[x]),
            forall|x: int|
                0 <= x < nd ==> out@[x] == (((#[trigger] defs@[x]).span, tag_of_kind(
                    defs@[x].kind,
                ))),
            forall|x: int|
                0 <= x < k ==> out@[nd + x] == (((#[trigger] refs@[x]).span, ref_tag_model(
                    t@,
                    refs@[x],
                    resolve_ref_model(t@, refs@[x]),
                ))),
        decreases nr - k,
    {
        assert(res_valid(t@, resolutions@[k as int]));
        let tag = match resolutions[k] {
            Resolution::Bound { scope, binding } => kind_tag(
                t.nodes[scope].bindings[binding].kind,
            ),
            Resolution::FieldOrMethod => Tag::Field,
            Resolution::Free => match refs[k].hint {
                RefHint::CallTarget => Tag::Function,
                RefHint::TypePos => Tag::Type,
                _ => Tag::FreeReference,
            },
        };
        out.push((refs[k].span, tag));
        k += 1;
    }
    proof {
        assert(out@ =~= output_model(t@, defs@, refs@));
        assert(tree_matches(root, scopes@, base) && out@ == output_model(
            attach_all(base, defs@),
            defs@,
            refs@,
        ));
    }
    Ok(out)
}

} // verus!
