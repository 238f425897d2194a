//! The resolver's guarantees, stated and proved once and for all:
//! resolution never escapes the scopes that contain a reference, early
//! bindings are visible position-independently, field accesses never
//! enter scope lookup, and the whole pass is deterministic.

use vstd::prelude::*;
use crate::span::Span;
use crate::kinds::RefHint;
use crate::kinds::Tag;
use crate::scope::ScopeModel;
use crate::scope::home_of;
use crate::scope::is_home;
use crate::scope::model_wf;
use crate::scope::tree_matches;
use crate::collect::DefCandidate;
use crate::collect::attach_all;
use crate::resolver::RefCandidate;
use crate::resolver::Resolution;
use crate::resolver::lookup_from;
use crate::resolver::pick_index;
use crate::resolver::qualifies;
use crate::resolver::resolve_ref_model;
use crate::classify::output_model;
use crate::classify::ref_tag_model;

verus! {

/// The scope a lookup from `s` lands in is `s` or one of its ancestors,
/// so its span contains the span of `s`.
pub proof fn lemma_lookup_scope_encloses(m: Seq<ScopeModel>, name: Seq<char>, pos: int, s: int)
    requires
        model_wf(m),
        0 <= s < m.len(),
        m.len() <= usize::MAX as int,
    ensures
        match lookup_from(m, name, pos, s) {
            Resolution::Bound { scope, binding } => 0 <= (scope as int) <= s && m[
                scope as int
            ].span.contains(m[s].span),
            _ => true,
        },
    decreases s + 1,
{
    match pick_index(m[s].bindings, name, pos) {
        Some(j) => {
            assert(m[s].span.contains(m[s].span));
        },
        None => {
            if 0 <= m[s].parent < s {
                lemma_lookup_scope_encloses(m, name, pos, m[s].parent);
            }
        },
    }
}

/// A reference only ever resolves to a binding owned by a scope whose
/// span contains the reference.
pub proof fn lemma_resolved_scope_contains_reference(
    m: Seq<ScopeModel>,
    r: RefCandidate,
    scope: usize,
    binding: usize,
)
    requires
        model_wf(m),
        m.len() <= usize::MAX as int,
        exists|h: int| is_home(m, r.span.start as int, h),
        resolve_ref_model(m, r) == (Resolution::Bound { scope, binding }),
    ensures
        0 <= (scope as int) < m.len(),
        m[scope as int].span.contains_pos(r.span.start as int),
{
    let h = home_of(m, r.span.start as int);
    assert(is_home(m, r.span.start as int, h));
    lemma_lookup_scope_encloses(m, r.name@, r.span.start as int, h);
    assert(m[scope as int].span.contains(m[h].span));
    assert(m[h].span.contains_pos(r.span.start as int));
}

/// Module opacity: a binding owned by a scope that does not contain a
/// reference — a `mod` body seen from outside — never wins that
/// reference's lookup, however the names compare.
pub proof fn lemma_module_opaque(m: Seq<ScopeModel>, r: RefCandidate, mod_scope: usize)
    requires
        model_wf(m),
        m.len() <= usize::MAX as int,
        exists|h: int| is_home(m, r.span.start as int, h),
        (mod_scope as int) < m.len(),
        !m[mod_scope as int].span.contains_pos(r.span.start as int),
    ensures
        forall|b: usize| resolve_ref_model(m, r) != (Resolution::Bound {
            scope: mod_scope,
            binding: b,
        }),
{
    assert forall|b: usize| resolve_ref_model(m, r) != (Resolution::Bound {
        scope: mod_scope,
        binding: b,
    }) by {
        if resolve_ref_model(m, r) == (Resolution::Bound { scope: mod_scope, binding: b }) {
            lemma_resolved_scope_contains_reference(m, r, mod_scope, b);
        }
    }
}

/// Block-scope containment: a binding declared inside a block
/// expression is invisible to every reference that begins at or after
/// the block's end. Nothing leaks out of a nested scope; only the
/// block's value does, bound by the enclosing `let` to an outer name.
pub proof fn lemma_block_no_leak(m: Seq<ScopeModel>, r: RefCandidate, block: usize)
    requires
        model_wf(m),
        m.len() <= usize::MAX as int,
        exists|h: int| is_home(m, r.span.start as int, h),
        (block as int) < m.len(),
        m[block as int].span.end <= r.span.start,
    ensures
        forall|b: usize| resolve_ref_model(m, r) != (Resolution::Bound {
            scope: block,
            binding: b,
        }),
{
    assert(!m[block as int].span.contains_pos(r.span.start as int));
    lemma_module_opaque(m, r, block);
}

/// An early binding — a parameter, `self`, a pattern binding, an item
/// name — is visible at every position alike: whether it qualifies for
/// a reference does not depend on where the reference stands.
pub proof fn lemma_early_position_independent(
    b: crate::scope::Binding,
    name: Seq<char>,
    p1: int,
    p2: int,
)
    requires
        b.early,
    ensures
        qualifies(b, name, p1) == qualifies(b, name, p2),
{
}

/// A scope that holds some qualifying binding always offers one.
pub proof fn lemma_pick_some(l: Seq<crate::scope::Binding>, name: Seq<char>, pos: int, k: int)
    requires
        0 <= k < l.len(),
        qualifies(l[k], name, pos),
    ensures
        pick_index(l, name, pos) is Some,
    decreases l.len(),
{
    if k < l.len() - 1 {
        lemma_pick_some(l.drop_last(), name, pos, k);
    }
}

/// `h` is `s` or a descendant of `s` through parent links.
pub open spec fn on_chain(m: Seq<ScopeModel>, s: int, h: int) -> bool
    decreases h + 1,
{
    if h == s {
        true
    } else if 0 < h < m.len() && 0 <= m[h].parent < h {
        on_chain(m, s, m[h].parent)
    } else {
        false
    }
}

/// A lookup whose walk passes a scope holding a qualifying binding
/// never comes back empty.
pub proof fn lemma_lookup_finds_on_chain(
    m: Seq<ScopeModel>,
    name: Seq<char>,
    pos: int,
    h: int,
    s: int,
    k: int,
)
    requires
        model_wf(m),
        0 <= h < m.len(),
        on_chain(m, s, h),
        0 <= s < m.len(),
        0 <= k < m[s].bindings.len(),
        qualifies(m[s].bindings[k], name, pos),
    ensures
        lookup_from(m, name, pos, h) is Bound,
    decreases h + 1,
{
    match pick_index(m[h].bindings, name, pos) {
        Some(j) => {},
        None => {
            if h == s {
                lemma_pick_some(m[s].bindings, name, pos, k);
            } else {
                lemma_lookup_finds_on_chain(m, name, pos, m[h].parent, s, k);
            }
        },
    }
}

/// The walk from a scope covering an offset visits every enclosing
/// scope that also covers it: nothing between a reference and the root
/// is skipped.
pub proof fn lemma_chain_visits_containers(m: Seq<ScopeModel>, pos: int, h: int, c: int)
    requires
        model_wf(m),
        0 <= h < m.len(),
        m[h].span.contains_pos(pos),
        0 <= c < m.len(),
        m[c].span.contains_pos(pos),
        m[c].span.contains(m[h].span),
    ensures
        on_chain(m, c, h),
    decreases h,
{
    if h != c {
        assert(m[c].span != m[h].span);
        assert(h != 0) by {
            if h == 0 {
                assert(m[0].span.contains(m[c].span));
            }
        }
        let p = m[h].parent;
        assert(m[p].span.contains(m[h].span));
        assert(m[p].span.contains_pos(pos));
        if p != c {
            assert(m[h].span.contains_pos(pos));
            // The parent is the innermost other container of the scope's
            // span, so the outer container `c` contains it too.
            assert(m[p].span.inner_than(m[c].span));
            assert(m[c].span.compatible(m[p].span));
            assert(m[c].span.contains(m[p].span)) by {
                if m[p].span.contains(m[c].span) {
                    assert(m[c].span.inner_than(m[p].span));
                }
            }
            lemma_chain_visits_containers(m, pos, p, c);
        }
    }
}

/// The innermost scope covering an offset lies inside every scope
/// covering that offset.
pub proof fn lemma_home_is_innermost(m: Seq<ScopeModel>, pos: int, h: int, c: int)
    requires
        model_wf(m),
        is_home(m, pos, h),
        0 <= c < m.len(),
        m[c].span.contains_pos(pos),
    ensures
        m[c].span.contains(m[h].span),
        on_chain(m, c, h),
{
    if c != h {
        assert(m[c].span.compatible(m[h].span));
        assert(m[h].span.inner_than(m[c].span));
        assert(m[c].span.contains(m[h].span)) by {
            if m[h].span.contains(m[c].span) {
                assert(m[c].span.inner_than(m[h].span));
            }
        }
    }
    lemma_chain_visits_containers(m, pos, h, c);
}

/// Parameter full-body visibility: a reference standing anywhere inside
/// a body scope that holds an early binding of its name — a parameter
/// or `self` — resolves to a binding, wherever in the body it stands
/// relative to other statements.
pub proof fn lemma_parameter_visible_everywhere(
    m: Seq<ScopeModel>,
    r: RefCandidate,
    body: usize,
    k: int,
)
    requires
        model_wf(m),
        m.len() <= usize::MAX as int,
        r.hint != RefHint::FieldRhs,
        exists|h: int| is_home(m, r.span.start as int, h),
        (body as int) < m.len(),
        m[body as int].span.contains_pos(r.span.start as int),
        0 <= k < m[body as int].bindings.len(),
        m[body as int].bindings[k].early,
        m[body as int].bindings[k].name@ == r.name@,
    ensures
        resolve_ref_model(m, r) is Bound,
{
    let h = home_of(m, r.span.start as int);
    assert(is_home(m, r.span.start as int, h));
    lemma_home_is_innermost(m, r.span.start as int, h, body as int);
    lemma_lookup_finds_on_chain(m, r.name@, r.span.start as int, h, body as int, k);
}

/// A field or method name after `.` never enters scope lookup: against
/// every scope tree it resolves structurally and tags `field`, whatever
/// bindings of the same spelling are in scope.
pub proof fn lemma_field_access_never_scope_resolved(m: Seq<ScopeModel>, r: RefCandidate)
    requires
        r.hint == RefHint::FieldRhs,
    ensures
        resolve_ref_model(m, r) == Resolution::FieldOrMethod,
        ref_tag_model(m, r, resolve_ref_model(m, r)) == Tag::Field,
{
}

/// Some scope of `m` spans `x`.
pub open spec fn span_in(m: Seq<ScopeModel>, x: Span) -> bool {
    exists|i: int| 0 <= i < m.len() && m[i].span == x
}

/// Two arenas ordered outermost-first over the same span set list the
/// same spans in the same places.
pub proof fn lemma_ascending_same_spans(m1: Seq<ScopeModel>, m2: Seq<ScopeModel>)
    requires
        forall|i: int, j: int|
            0 <= i < j < m1.len() ==> (#[trigger] m1[j].span).inner_than(#[trigger] m1[i].span),
        forall|i: int, j: int|
            0 <= i < j < m2.len() ==> (#[trigger] m2[j].span).inner_than(#[trigger] m2[i].span),
        forall|x: Span| span_in(m1, x) <==> span_in(m2, x),
    ensures
        m1.len() == m2.len(),
        forall|i: int| 0 <= i < m1.len() ==> (#[trigger] m1[i].span) == m2[i].span,
    decreases m1.len(),
{
    if m1.len() == 0 {
        if m2.len() > 0 {
            assert(span_in(m2, m2[0].span));
            assert(span_in(m1, m2[0].span));
        }
    } else if m2.len() == 0 {
        assert(span_in(m1, m1[0].span));
        assert(span_in(m2, m1[0].span));
    } else {
        assert(span_in(m1, m1[0].span));
        assert(span_in(m2, m2[0].span));
        let i = choose|i: int| 0 <= i < m2.len() && m2[i].span == m1[0].span;
        let j = choose|j: int| 0 <= j < m1.len() && m1[j].span == m2[0].span;
        assert(m1[0].span == m2[0].span) by {
            if i > 0 && j > 0 {
                assert(m2[i].span.inner_than(m2[0].span));
                assert(m1[j].span.inner_than(m1[0].span));
            }
        }
        let t1 = m1.drop_first();
        let t2 = m2.drop_first();
        assert forall|x: Span| span_in(t1, x) <==> span_in(t2, x) by {
            if span_in(t1, x) {
                let w = choose|w: int| 0 <= w < t1.len() && t1[w].span == x;
                assert(m1[w + 1].span == x);
                assert(m1[w + 1].span.inner_than(m1[0].span));
                assert(span_in(m1, x));
                let v = choose|v: int| 0 <= v < m2.len() && m2[v].span == x;
                assert(v != 0);
                assert(t2[v - 1].span == x);
                assert(span_in(t2, x));
            }
            if span_in(t2, x) {
                let w = choose|w: int| 0 <= w < t2.len() && t2[w].span == x;
                assert(m2[w + 1].span == x);
                assert(m2[w + 1].span.inner_than(m2[0].span));
                assert(span_in(m2, x));
                let v = choose|v: int| 0 <= v < m1.len() && m1[v].span == x;
                assert(v != 0);
                assert(t1[v - 1].span == x);
                assert(span_in(t1, x));
            }
        }
        lemma_ascending_same_spans(t1, t2);
        assert forall|x: int| 0 <= x < m1.len() implies (#[trigger] m1[x].span) == m2[x].span by {
            if x > 0 {
                assert(t1[x - 1].span == t2[x - 1].span);
            }
        }
    }
}

/// Two strictly ascending integer sequences over the same value set are
/// equal.
pub proof fn lemma_ascending_same_ints(a: Seq<int>, b: Seq<int>)
    requires
        forall|x: int, y: int| 0 <= x < y < a.len() ==> (#[trigger] a[x]) < (#[trigger] a[y]),
        forall|x: int, y: int| 0 <= x < y < b.len() ==> (#[trigger] b[x]) < (#[trigger] b[y]),
        forall|v: int| a.contains(v) <==> b.contains(v),
    ensures
        a =~= b,
    decreases a.len(),
{
    if a.len() == 0 {
        if b.len() > 0 {
            assert(b.contains(b[0]));
            assert(a.contains(b[0]));
        }
    } else if b.len() == 0 {
        assert(a.contains(a[0]));
        assert(b.contains(a[0]));
    } else {
        assert(a.contains(a[0]));
        assert(b.contains(b[0]));
        let i = choose|i: int| 0 <= i < b.len() && b[i] == a[0];
        let j = choose|j: int| 0 <= j < a.len() && a[j] == b[0];
        assert(a[0] == b[0]) by {
            if i > 0 && j > 0 {
                assert(b[0] < b[i]);
                assert(a[0] < a[j]);
            }
        }
        let t1 = a.drop_first();
        let t2 = b.drop_first();
        assert forall|v: int| t1.contains(v) <==> t2.contains(v) by {
            if t1.contains(v) {
                let w = choose|w: int| 0 <= w < t1.len() && t1[w] == v;
                assert(a[w + 1] == v);
                assert(a[0] < a[w + 1]);
                assert(a.contains(v));
                let u = choose|u: int| 0 <= u < b.len() && b[u] == v;
                assert(u != 0);
                assert(t2[u - 1] == v);
                assert(t2.contains(v));
            }
            if t2.contains(v) {
                let w = choose|w: int| 0 <= w < t2.len() && t2[w] == v;
                assert(b[w + 1] == v);
                assert(b[0] < b[w + 1]);
                assert(b.contains(v));
                let u = choose|u: int| 0 <= u < a.len() && a[u] == v;
                assert(u != 0);
                assert(t1[u - 1] == v);
                assert(t1.contains(v));
            }
        }
        lemma_ascending_same_ints(t1, t2);
        assert forall|x: int| 0 <= x < a.len() implies a[x] == b[x] by {
            if x > 0 {
                assert(t1[x - 1] == t2[x - 1]);
            }
        }
    }
}

/// One syntax tree has one scope arena: the builder's characterization
/// pins it completely.
pub proof fn lemma_tree_matches_unique(
    root: Span,
    scopes: Seq<Span>,
    m1: Seq<ScopeModel>,
    m2: Seq<ScopeModel>,
)
    requires
        tree_matches(root, scopes, m1),
        tree_matches(root, scopes, m2),
    ensures
        m1 == m2,
{
    assert forall|x: Span| span_in(m1, x) <==> span_in(m2, x) by {
        if span_in(m1, x) {
            let w = choose|w: int| 0 <= w < m1.len() && m1[w].span == x;
            if w == 0 {
                assert(m2[0].span == x);
            } else {
                assert(scopes.contains(x));
                let k = choose|k: int| 0 <= k < scopes.len() && scopes[k] == x;
                assert(exists|i: int| 0 <= i < m2.len() && m2[i].span == scopes[k]);
            }
            assert(span_in(m2, x));
        }
        if span_in(m2, x) {
            let w = choose|w: int| 0 <= w < m2.len() && m2[w].span == x;
            if w == 0 {
                assert(m1[0].span == x);
            } else {
                assert(scopes.contains(x));
                let k = choose|k: int| 0 <= k < scopes.len() && scopes[k] == x;
                assert(exists|i: int| 0 <= i < m1.len() && m1[i].span == scopes[k]);
            }
            assert(span_in(m1, x));
        }
    }
    lemma_ascending_same_spans(m1, m2);
    assert forall|i: int| 0 <= i < m1.len() implies m1[i].parent == m2[i].parent by {
        assert(m1[i].span == m2[i].span);
        if i > 0 {
            let p1 = m1[i].parent;
            let p2 = m2[i].parent;
            if p1 != p2 {
                assert(m1[p2].span.contains(m1[i].span)) by {
                    assert(m2[p2].span.contains(m2[i].span));
                    assert(m1[p2].span == m2[p2].span);
                }
                assert(m1[p1].span.inner_than(m1[p2].span));
                assert(m2[p1].span.contains(m2[i].span)) by {
                    assert(m1[p1].span.contains(m1[i].span));
                }
                assert(m2[p2].span.inner_than(m2[p1].span));
            }
        }
    }
    assert forall|i: int| 0 <= i < m1.len() implies m1[i].children =~= m2[i].children by {
        assert forall|v: int| m1[i].children.contains(v) <==> m2[i].children.contains(v) by {
            if m1[i].children.contains(v) {
                let w = choose|w: int| 0 <= w < m1[i].children.len() && m1[i].children[w] == v;
                assert(1 <= v < m1.len() && m1[v].parent == i);
                assert(m2[v].parent == i);
                assert(m2[m2[v].parent].children.contains(v));
            }
            if m2[i].children.contains(v) {
                let w = choose|w: int| 0 <= w < m2[i].children.len() && m2[i].children[w] == v;
                assert(1 <= v < m2.len() && m2[v].parent == i);
                assert(m1[v].parent == i);
                assert(m1[m1[v].parent].children.contains(v));
            }
        }
        lemma_ascending_same_ints(m1[i].children, m2[i].children);
    }
    assert forall|i: int| 0 <= i < m1.len() implies m1[i] == m2[i] by {
        assert(m1[i].span == m2[i].span);
        assert(m1[i].parent == m2[i].parent);
        assert(m1[i].children == m2[i].children);
        assert(m1[i].bindings =~= m2[i].bindings);
    }
    assert(m1 =~= m2);
}

/// Idempotence: the whole pass is a function of the syntax tree and the
/// candidate sets alone. Two results that each satisfy the pass's
/// guarantee for the same input are the same output, pair for pair —
/// there is no hidden state to diverge on.
pub proof fn lemma_resolution_deterministic(
    root: Span,
    scopes: Seq<Span>,
    defs: Seq<DefCandidate>,
    refs: Seq<RefCandidate>,
    out1: Seq<(Span, Tag)>,
    out2: Seq<(Span, Tag)>,
)
    requires
        exists|m: Seq<ScopeModel>|
            #[trigger] tree_matches(root, scopes, m) && out1 == output_model(
                attach_all(m, defs),
                defs,
                refs,
            ),
        exists|m: Seq<ScopeModel>|
            #[trigger] tree_matches(root, scopes, m) && out2 == output_model(
                attach_all(m, defs),
                defs,
                refs,
            ),
    ensures
        out1 == out2,
{
    let m1 = choose|m: Seq<ScopeModel>|
        #[trigger] tree_matches(root, scopes, m) && out1 == output_model(
            attach_all(m, defs),
            defs,
            refs,
        );
    let m2 = choose|m: Seq<ScopeModel>|
        #[trigger] tree_matches(root, scopes, m) && out2 == output_model(
            attach_all(m, defs),
            defs,
            refs,
        );
    lemma_tree_matches_unique(root, scopes, m1, m2);
}

} // verus!
