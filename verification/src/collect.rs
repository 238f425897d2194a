//! Attaching definition candidates to their scopes.
//!
//! Each definition candidate is attached to the innermost scope that
//! covers its declaration point; a scope's binding list stays ordered
//! by defining span start, and candidates attached at the same start
//! keep their input order (a stable insertion).

use vstd::prelude::*;
use crate::span::Span;
use crate::kinds::BindKind;
use crate::kinds::StructError;
use crate::scope::Binding;
use crate::scope::ScopeModel;
use crate::scope::ScopeTree;
use crate::scope::home_of;

verus! {

/// A definition candidate as the upstream query layer hands it over.
pub struct DefCandidate {
    /// The identifier text.
    pub name: String,
    /// The span of the defining token.
    pub span: Span,
    /// The declared kind.
    pub kind: BindKind,
    /// Visible from the start of the owning construct, as a parameter,
    /// a pattern binding or an item name is.
    pub early: bool,
    /// For a positional binding, the offset from which it is visible:
    /// the end of the declaring statement. Ignored when `early`.
    pub avail: usize,
    /// The declares-in-scope pointer: an offset inside the scope that
    /// owns the binding. A `let` target declares where it stands; a
    /// parameter, `self` or a loop pattern declares at the start of the
    /// construct's body, a function or type name in the enclosing
    /// scope.
    pub anchor: usize,
}

impl DefCandidate {
    /// The binding this candidate becomes once attached.
    pub open spec fn as_binding(self) -> Binding {
        Binding { name: self.name, span: self.span, kind: self.kind, early: self.early, avail: self.avail }
    }
}

/// Stable insertion by defining span start: the new binding goes after
/// every binding whose start is not greater.
pub open spec fn insert_sorted(l: Seq<Binding>, b: Binding) -> Seq<Binding>
    decreases l.len(),
{
    if l.len() == 0 {
        seq![b]
    } else if l[0].span.start <= b.span.start {
        seq![l[0]] + insert_sorted(l.drop_first(), b)
    } else {
        seq![b] + l
    }
}

/// Where `insert_sorted` puts the new binding: at the first position
/// whose binding starts later.
pub proof fn lemma_insert_sorted_at(l: Seq<Binding>, b: Binding, pos: int)
    requires
        0 <= pos <= l.len(),
        forall|x: int| 0 <= x < pos ==> (#[trigger] l[x]).span.start <= b.span.start,
        pos < l.len() ==> l[pos].span.start > b.span.start,
    ensures
        insert_sorted(l, b) =~= l.insert(pos, b),
    decreases l.len(),
{
    if l.len() == 0 {
        assert(insert_sorted(l, b) =~= l.insert(0, b));
    } else if l[0].span.start <= b.span.start {
        assert(pos >= 1);
        lemma_insert_sorted_at(l.drop_first(), b, pos - 1);
        assert(insert_sorted(l, b) =~= seq![l[0]] + l.drop_first().insert(pos - 1, b));
        assert(seq![l[0]] + l.drop_first().insert(pos - 1, b) =~= l.insert(pos, b));
    } else {
        assert(pos == 0);
        assert(insert_sorted(l, b) =~= l.insert(0, b));
    }
}

/// One candidate attached to its home scope.
pub open spec fn attach_one(m: Seq<ScopeModel>, d: DefCandidate) -> Seq<ScopeModel> {
    let h = home_of(m, d.anchor as int);
    m.update(
        h,
        ScopeModel {
            span: m[h].span,
            parent: m[h].parent,
            children: m[h].children,
            bindings: insert_sorted(m[h].bindings, d.as_binding()),
        },
    )
}

/// All candidates attached, in input order.
pub open spec fn attach_all(m: Seq<ScopeModel>, defs: Seq<DefCandidate>) -> Seq<ScopeModel>
    decreases defs.len(),
{
    if defs.len() == 0 {
        m
    } else {
        attach_one(attach_all(m, defs.drop_last()), defs.last())
    }
}

/// Attaches every definition candidate to the innermost scope covering
/// its declaration point, keeping each scope's binding list ordered by
/// defining span start, stably.
///
/// Fails, leaving the tree unchanged, exactly when some candidate's
/// declaration point lies outside the root scope.
pub fn collect_bindings(t: &mut ScopeTree, defs: &Vec<DefCandidate>) -> (r: Result<(), StructError>)
    requires
        old(t).wf(),
    ensures
        final(t).wf(),
        final(t)@.len() == old(t)@.len(),
        forall|i: int|
            0 <= i < old(t)@.len() ==> (#[trigger] final(t)@[i]).span == old(t)@[i].span
                && final(t)@[i].parent == old(t)@[i].parent,
        r.is_ok() <==> (forall|k: int|
            0 <= k < defs@.len() ==> old(t)@[0].span.contains_pos(
                (#[trigger] defs@[k]).anchor as int,
            )),
        r.is_ok() ==> final(t)@ == attach_all(old(t)@, defs@),
        r matches Err(e) ==> final(t)@ == old(t)@ && (e matches StructError::OutsideRoot(s)
            && exists|k: int|
            0 <= k < defs@.len() && (#[trigger] defs@[k]).span == s && !old(t)@[0].span.contains_pos(
                defs@[k].anchor as int,
            )),
{
    let n = defs.len();
    let mut k: usize = 0;
    while k < n
        invariant
            n == defs@.len(),
            k <= n,
            t.wf(),
            t == old(t),
            forall|x: int| 0 <= x < k ==> t@[0].span.contains_pos((#[trigger] defs@[x]).anchor as int),
        decreases n - k,
    {
        if !t.nodes[0].span.contains_at(defs[k].anchor) {
            assert(t@[0].span == t.nodes@[0]@.span);
            return Err(StructError::OutsideRoot(defs[k].span));
        }
        assert(t@[0].span == t.nodes@[0]@.span);
        k += 1;
    }
    let mut k: usize = 0;
    while k < n
        invariant
            n == defs@.len(),
            k <= n,
            t.wf(),
            old(t).wf(),
            t@.len() == old(t)@.len(),
            forall|i: int|
                0 <= i < old(t)@.len() ==> (#[trigger] t@[i]).span == old(t)@[i].span && t@[i].parent
                    == old(t)@[i].parent,
            forall|x: int| 0 <= x < n ==> old(t)@[0].span.contains_pos(
                (#[trigger] defs@[x]).anchor as int,
            ),
            t@ == attach_all(old(t)@, defs@.take(k as int)),
        decreases n - k,
    {
        let ghost prev = t@;
        let dspan = defs[k].span;
        let h = match t.find_home(defs[k].anchor) {
            Some(h) => h,
            None => {
                assert(t@[0].span.contains_pos(defs@[k as int].anchor as int));
                assert(false);
                return Err(StructError::OutsideRoot(dspan));
            },
        };
        let blen = t.nodes[h].bindings.len();
        let mut pos: usize = 0;
        while pos < blen && t.nodes[h].bindings[pos].span.start <= dspan.start
            invariant
                t.wf(),
                h < t.nodes@.len(),
                blen == t.nodes@[h as int].bindings@.len(),
                pos <= blen,
                forall|x: int|
                    0 <= x < pos ==> (#[trigger] t.nodes@[h as int].bindings@[x]).span.start
                        <= dspan.start,
            decreases blen - pos,
        {
            pos += 1;
        }
        let b = Binding {
            name: defs[k].name.clone(),
            span: dspan,
            kind: defs[k].kind,
            early: defs[k].early,
            avail: defs[k].avail,
        };
        assert(b == defs@[k as int].as_binding());
        proof {
            lemma_insert_sorted_at(
                t.nodes@[h as int].bindings@,
                defs@[k as int].as_binding(),
                pos as int,
            );
        }
        t.nodes[h].bindings.insert(pos, b);
        proof {
            let d = defs@[k as int];
            assert(home_of(prev, d.anchor as int) == h as int);
            assert(t@ =~= attach_one(prev, d)) by {
                assert forall|i: int| 0 <= i < t@.len() implies t@[i] == attach_one(prev, d)[i] by {
                    if i == h as int {
                        assert(t@[i].bindings =~= insert_sorted(
                            prev[i].bindings,
                            d.as_binding(),
                        ));
                        assert(t@[i].bindings == attach_one(prev, d)[i].bindings);
                    } else {
                        assert(t@[i] == prev[i]);
                    }
                }
            }
            assert(defs@.take(k + 1).drop_last() =~= defs@.take(k as int));
            assert(defs@.take(k + 1).last() == d);
            assert(t@ == attach_all(old(t)@, defs@.take(k + 1)));
        }
        k += 1;
    }
    proof {
        assert(defs@.take(n as int) =~= defs@);
    }
    Ok(())
}

} // verus!
