//! Reference resolution: the scope-chain walk with shadowing.
//!
//! Each reference is resolved from the innermost scope containing it,
//! walking parent links outward. Within one scope a binding qualifies
//! when its name matches and it is visible at the reference's position:
//! everywhere for an early binding, from its `avail` offset for a
//! positional one. Among qualifiers the latest defining span start wins,
//! and a tie prefers the binding later in the collector's stable order.

use vstd::prelude::*;
use crate::span::Span;
use crate::kinds::RefHint;
use crate::kinds::StructError;
use crate::scope::Binding;
use crate::scope::ScopeModel;
use crate::scope::ScopeTree;
use crate::scope::home_of;

verus! {

/// A reference candidate as the upstream query layer hands it over.
pub struct RefCandidate {
    /// The identifier text.
    pub name: String,
    /// The span of the referring token.
    pub span: Span,
    /// The raw syntactic position of the token.
    pub hint: RefHint,
}

/// What a reference resolved to: a binding, named by the scope that owns
/// it and its index there; a field or method name, which never enters
/// scope lookup; or no lexical binding at all.
#[derive(Clone, Copy, PartialEq, Eq, Structural, Debug)]
pub enum Resolution {
    Bound { scope: usize, binding: usize },
    FieldOrMethod,
    Free,
}

/// The binding is visible under this name at this position.
pub open spec fn qualifies(b: Binding, name: Seq<char>, pos: int) -> bool {
    b.name@ == name && (b.early || b.avail <= pos)
}

/// The qualifying binding a scope offers: the one with the latest
/// defining span start, ties going to the later list position.
pub open spec fn pick_index(l: Seq<Binding>, name: Seq<char>, pos: int) -> Option<int>
    decreases l.len(),
{
    if l.len() <= 0 {
        None::<int>
    } else {
        let last = l.len() - 1;
        let prev = pick_index(l.drop_last(), name, pos);
        if qualifies(l[last], name, pos) {
            match prev {
                Some(j) => if l[last].span.start >= l[j].span.start {
                    Some(last as int)
                } else {
                    Some(j)
                },
                None => Some(last as int),
            }
        } else {
            prev
        }
    }
}

/// The chosen index is in range and qualifies.
pub proof fn lemma_pick_index_valid(l: Seq<Binding>, name: Seq<char>, pos: int, j: int)
    requires
        pick_index(l, name, pos) == Some(j),
    ensures
        0 <= j < l.len(),
        qualifies(l[j], name, pos),
    decreases l.len(),
{
    if l.len() > 0 {
        match pick_index(l.drop_last(), name, pos) {
            Some(p) => lemma_pick_index_valid(l.drop_last(), name, pos, p),
            None => (),
        }
    }
}

/// The scope-chain walk from scope `s` outward to the root.
pub open spec fn lookup_from(m: Seq<ScopeModel>, name: Seq<char>, pos: int, s: int) -> Resolution
    decreases s + 1,
{
    if s < 0 || s >= m.len() {
        Resolution::Free
    } else {
        match pick_index(m[s].bindings, name, pos) {
            Some(j) => Resolution::Bound { scope: s as usize, binding: j as usize },
            None => if 0 <= m[s].parent < s {
                lookup_from(m, name, pos, m[s].parent)
            } else {
                Resolution::Free
            },
        }
    }
}

/// A resolution that names a binding names a real binding of a real
/// scope of the arena.
pub open spec fn res_valid(m: Seq<ScopeModel>, r: Resolution) -> bool {
    match r {
        Resolution::Bound { scope, binding } => 0 <= (scope as int) < m.len() && 0 <= (
        binding as int) < m[scope as int].bindings.len(),
        _ => true,
    }
}

/// What one reference resolves to against a finished scope tree: a
/// field or method name never enters lookup; anything else walks the
/// chain from its innermost containing scope.
pub open spec fn resolve_ref_model(m: Seq<ScopeModel>, r: RefCandidate) -> Resolution {
    if r.hint == RefHint::FieldRhs {
        Resolution::FieldOrMethod
    } else {
        lookup_from(m, r.name@, r.span.start as int, home_of(m, r.span.start as int))
    }
}

fn pick_binding(l: &Vec<Binding>, name: &String, pos: usize) -> (r: Option<usize>)
    ensures
        match r {
            Some(j) => pick_index(l@, name@, pos as int) == Some(j as int) && j < l@.len(),
            None => pick_index(l@, name@, pos as int) is None,
        },
{
    let mut best: Option<usize> = None;
    let mut x: usize = 0;
    while x < l.len()
        invariant
            x <= l@.len(),
            match best {
                Some(j) => j < x && pick_index(l@.take(x as int), name@, pos as int) == Some(
                    j as int,
                ),
                None => pick_index(l@.take(x as int), name@, pos as int) is None,
            },
        decreases l@.len() - x,
    {
        proof {
            assert(l@.take(x + 1).drop_last() =~= l@.take(x as int));
            assert(l@.take(x + 1)[x as int] == l@[x as int]);
        }
        let q = l[x].name == *name && (l[x].early || l[x].avail <= pos);
        assert(q == qualifies(l@[x as int], name@, pos as int));
        if q {
            best = match best {
                Some(j) => if l[x].span.start >= l[j].span.start {
                    Some(x)
                } else {
                    Some(j)
                },
                None => Some(x),
            };
        }
        x += 1;
    }
    proof {
        assert(l@.take(l@.len() as int) =~= l@);
    }
    best
}

fn lookup(t: &ScopeTree, name: &String, pos: usize, start: usize) -> (r: Resolution)
    requires
        t.wf(),
        start < t.nodes@.len(),
    ensures
        r == lookup_from(t@, name@, pos as int, start as int),
        res_valid(t@, r),
{
    let mut s = start;
    loop
        invariant
            t.wf(),
            s < t.nodes@.len(),
            lookup_from(t@, name@, pos as int, start as int) == lookup_from(
                t@,
                name@,
                pos as int,
                s as int,
            ),
        decreases s,
    {
        assert(t@[s as int].bindings == t.nodes@[s as int].bindings@);
        match pick_binding(&t.nodes[s].bindings, name, pos) {
            Some(j) => {
                return Resolution::Bound { scope: s, binding: j };
            },
            None => {
                if s == 0 {
                    assert(t@[0].parent == 0);
                    return Resolution::Free;
                }
                assert(0 <= t@[s as int].parent < s as int);
                s = t.nodes[s].parent;
            },
        }
    }
}

/// Resolves every reference candidate against the finished scope tree.
///
/// Fails exactly when some candidate that takes part in scope lookup
/// lies outside the root scope.
pub fn resolve_all(t: &ScopeTree, refs: &Vec<RefCandidate>) -> (r: Result<Vec<Resolution>, StructError>)
    requires
        t.wf(),
    ensures
        r.is_ok() <==> (forall|k: int|
            0 <= k < refs@.len() ==> ((#[trigger] refs@[k]).hint == RefHint::FieldRhs
                || t@[0].span.contains_pos(refs@[k].span.start as int))),
        (r matches Ok(out) ==> out@.len() == refs@.len() && (forall|k: int|
            0 <= k < refs@.len() ==> out@[k] == resolve_ref_model(t@, #[trigger] refs@[k])) && (
        forall|k: int| 0 <= k < refs@.len() ==> res_valid(t@, #[trigger] out@[k]))),
        (r matches Err(e) ==> (e matches StructError::OutsideRoot(s) && exists|k: int|
            0 <= k < refs@.len() && (#[trigger] refs@[k]).span == s && refs@[k].hint
                != RefHint::FieldRhs && !t@[0].span.contains_pos(s.start as int))),
{
    let n = refs.len();
    let mut out: Vec<Resolution> = Vec::new();
    let mut k: usize = 0;
    while k < n
        invariant
            n == refs@.len(),
            k <= n,
            t.wf(),
            out@.len() == k,
            forall|x: int|
                0 <= x < k ==> ((#[trigger] refs@[x]).hint == RefHint::FieldRhs
                    || t@[0].span.contains_pos(refs@[x].span.start as int)),
            forall|x: int| 0 <= x < k ==> out@[x] == resolve_ref_model(t@, #[trigger] refs@[x]),
            forall|x: int| 0 <= x < k ==> res_valid(t@, #[trigger] out@[x]),
        decreases n - k,
    {
        if refs[k].hint == RefHint::FieldRhs {
            out.push(Resolution::FieldOrMethod);
        } else {
            match t.find_home(refs[k].span.start) {
                None => {
                    return Err(StructError::OutsideRoot(refs[k].span));
                },
                Some(h) => {
                    let res = lookup(t, &refs[k].name, refs[k].span.start, h);
                    out.push(res);
                },
            }
        }
        k += 1;
    }
    Ok(out)
}

} // verus!
