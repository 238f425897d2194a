//! The tree of nested scopes and its builder.
//!
//! The builder consumes the spans of the scope-introducing nodes of one
//! syntax tree and produces an arena of scope nodes: each node holds its
//! span, the index of its parent, and the bindings declared directly in
//! it. The parent of a node is the innermost other node whose span
//! contains it; the root node spans the whole input and has itself as
//! parent.

use vstd::prelude::*;
use crate::span::Span;
use crate::span::lemma_container_sorts_first;
use crate::kinds::BindKind;
use crate::kinds::StructError;

verus! {

/// A named declaration attached to a scope.
#[derive(Debug)]
pub struct Binding {
    /// The identifier text.
    pub name: String,
    /// The span of the defining token.
    pub span: Span,
    /// The declared kind.
    pub kind: BindKind,
    /// Declared at construct start: the binding is visible everywhere in
    /// its scope, as a parameter or a pattern binding is, not only after
    /// its textual position.
    pub early: bool,
    /// The offset at which a positional binding takes effect: for a
    /// `let`, the end of the declaring statement. Ignored when `early`.
    pub avail: usize,
}

/// One scope in the arena.
#[derive(Debug)]
pub struct ScopeNode {
    pub span: Span,
    /// Index of the enclosing scope; the root is its own parent.
    pub parent: usize,
    /// Indices of the scopes nested directly in this one, ordered by
    /// start position.
    pub children: Vec<usize>,
    /// Bindings declared directly in this scope, ordered by defining
    /// span start.
    pub bindings: Vec<Binding>,
}

/// The mathematical image of one scope node.
pub struct ScopeModel {
    pub span: Span,
    pub parent: int,
    pub children: Seq<int>,
    pub bindings: Seq<Binding>,
}

impl View for ScopeNode {
    type V = ScopeModel;

    open spec fn view(&self) -> ScopeModel {
        ScopeModel {
            span: self.span,
            parent: self.parent as int,
            children: self.children@.map(|i: int, c: usize| c as int),
            bindings: self.bindings@,
        }
    }
}

/// The scope tree: an arena of nodes, the root at index 0.
#[derive(Debug)]
pub struct ScopeTree {
    pub nodes: Vec<ScopeNode>,
}

impl View for ScopeTree {
    type V = Seq<ScopeModel>;

    open spec fn view(&self) -> Seq<ScopeModel> {
        self.nodes@.map(|i: int, n: ScopeNode| n@)
    }
}

/// Well-formedness of a scope arena: the root is first and spans
/// everything, spans are pairwise distinct, nodes are ordered outermost
/// first, and each node's parent is the innermost other node containing
/// it.
pub open spec fn model_wf(m: Seq<ScopeModel>) -> bool {
    &&& 1 <= m.len()
    &&& m[0].parent == 0
    &&& forall|i: int| 0 <= i < m.len() ==> (#[trigger] m[i].span).wf()
    &&& forall|i: int| 0 <= i < m.len() ==> m[0].span.contains(#[trigger] m[i].span)
    &&& forall|i: int, j: int|
        0 <= i < m.len() && 0 <= j < m.len() && i != j ==> (#[trigger] m[i].span) != (
        #[trigger] m[j].span)
    &&& forall|i: int, j: int|
        0 <= i < m.len() && 0 <= j < m.len() ==> (#[trigger] m[i].span).compatible(
            #[trigger] m[j].span,
        )
    &&& forall|i: int, j: int|
        0 <= i < j < m.len() ==> (#[trigger] m[j].span).inner_than(#[trigger] m[i].span)
    &&& forall|i: int| 1 <= i < m.len() ==> 0 <= #[trigger] m[i].parent < i
    &&& forall|i: int| 1 <= i < m.len() ==> m[m[i].parent].span.contains(#[trigger] m[i].span)
    &&& forall|i: int, j: int|
        1 <= i < m.len() && 0 <= j < m.len() && j != i && j != m[i].parent && (
        #[trigger] m[j].span).contains(#[trigger] m[i].span) ==> m[m[i].parent].span.inner_than(
            m[j].span,
        )
    &&& forall|j: int, x: int|
        0 <= j < m.len() && 0 <= x < m[j].children.len() ==> 1 <= #[trigger] m[j].children[x]
            < m.len() && m[m[j].children[x]].parent == j
    &&& forall|i: int| 1 <= i < m.len() ==> m[m[i].parent].children.contains(i)
    &&& forall|j: int, a: int, b: int|
        0 <= j < m.len() && 0 <= a < b < m[j].children.len() ==> (#[trigger] m[j].children[a]) < (
        #[trigger] m[j].children[b])
}

impl ScopeTree {
    pub open spec fn wf(self) -> bool {
        model_wf(self@)
    }

    pub open spec fn root_span(self) -> Span {
        self@[0].span
    }
}

/// `i` is the innermost scope of the arena whose span covers the
/// offset `p`.
pub open spec fn is_home(m: Seq<ScopeModel>, p: int, i: int) -> bool {
    &&& 0 <= i < m.len()
    &&& m[i].span.contains_pos(p)
    &&& forall|j: int|
        0 <= j < m.len() && j != i && (#[trigger] m[j].span).contains_pos(p)
            ==> m[i].span.inner_than(m[j].span)
}

/// The innermost scope covering offset `p`. Meaningful only when some
/// scope covers `p`, which holds exactly when the root does.
pub open spec fn home_of(m: Seq<ScopeModel>, p: int) -> int {
    choose|i: int| is_home(m, p, i)
}

/// No offset has two innermost covering scopes.
pub proof fn lemma_home_unique(m: Seq<ScopeModel>, p: int, i: int, j: int)
    requires
        is_home(m, p, i),
        is_home(m, p, j),
    ensures
        i == j,
{
    if i != j {
        assert(m[i].span.inner_than(m[j].span));
        assert(m[j].span.inner_than(m[i].span));
    }
}

impl ScopeTree {
    /// Locates the innermost scope covering offset `p`, or reports that
    /// `p` lies outside the root scope.
    pub fn find_home(&self, p: usize) -> (r: Option<usize>)
        requires
            self.wf(),
        ensures
            match r {
                Some(i) => is_home(self@, p as int, i as int) && home_of(self@, p as int)
                    == i as int,
                None => !self@[0].span.contains_pos(p as int),
            },
    {
        let n = self.nodes.len();
        if !self.nodes[0].span.contains_at(p) {
            return None;
        }
        let mut best: usize = 0;
        assert(self@[0].span.contains_pos(p as int));
        let mut j: usize = 1;
        while j < n
            invariant
                n == self.nodes@.len(),
                self.wf(),
                j <= n,
                best < n,
                self@[best as int].span.contains_pos(p as int),
                forall|x: int|
                    0 <= x < j && x != best && (#[trigger] self@[x].span).contains_pos(p as int)
                        ==> self@[best as int].span.inner_than(self@[x].span),
            decreases n - j,
        {
            if self.nodes[j].span.contains_at(p) && self.nodes[j].span.is_inner_than(
                &self.nodes[best].span,
            ) {
                assert(self@[j as int].span == self.nodes@[j as int].span);
                best = j;
            }
            j += 1;
        }
        proof {
            assert(is_home(self@, p as int, best as int));
            lemma_home_unique(self@, p as int, best as int, home_of(self@, p as int));
        }
        Some(best)
    }
}

/// What must hold of the scope-introducing spans for the builder to
/// succeed: every span well-formed, inside the root, and pairwise
/// nested or disjoint.
pub open spec fn scopes_ok(root: Span, scopes: Seq<Span>) -> bool {
    &&& root.wf()
    &&& forall|k: int| 0 <= k < scopes.len() ==> (#[trigger] scopes[k]).wf()
    &&& forall|k: int| 0 <= k < scopes.len() ==> root.contains(#[trigger] scopes[k])
    &&& forall|k: int, l: int|
        0 <= k < scopes.len() && 0 <= l < scopes.len() ==> (#[trigger] scopes[k]).compatible(
            #[trigger] scopes[l],
        )
}

/// The builder's result, characterized: a well-formed arena whose node
/// spans are the root plus exactly the distinct scope spans, with no
/// bindings attached yet.
pub open spec fn tree_matches(root: Span, scopes: Seq<Span>, m: Seq<ScopeModel>) -> bool {
    &&& model_wf(m)
    &&& m[0].span == root
    &&& forall|k: int|
        0 <= k < scopes.len() ==> exists|i: int|
            0 <= i < m.len() && m[i].span == #[trigger] scopes[k]
    &&& forall|i: int|
        1 <= i < m.len() ==> scopes.contains(#[trigger] m[i].span) && m[i].span != root
    &&& forall|i: int| 0 <= i < m.len() ==> (#[trigger] m[i].bindings).len() == 0
}

/// The fault a builder error reports is really present in the input.
pub open spec fn build_error_witness(root: Span, scopes: Seq<Span>, e: StructError) -> bool {
    match e {
        StructError::MalformedSpan(s) => (s == root && !root.wf()) || (scopes.contains(s)
            && !s.wf()),
        StructError::OverlappingScopes(a, b) => scopes.contains(a) && scopes.contains(b)
            && !a.compatible(b),
        StructError::OutsideRoot(s) => scopes.contains(s) && !root.contains(s),
    }
}

fn vec_has_span(v: &Vec<Span>, s: &Span) -> (r: bool)
    ensures
        r == v@.contains(*s),
{
    let mut k: usize = 0;
    while k < v.len()
        invariant
            k <= v@.len(),
            forall|x: int| 0 <= x < k ==> v@[x] != *s,
        decreases v@.len() - k,
    {
        if v[k] == *s {
            return true;
        }
        k += 1;
    }
    false
}

/// Builds the scope tree for one syntax tree.
///
/// `root` is the span of the whole input; `scopes` are the spans the
/// query layer flagged as scope-introducing. Fails, reporting the
/// offending spans, exactly when some span is malformed, lies outside
/// the root, or overlaps another without nesting.
pub fn build_scope_tree(root: Span, scopes: &Vec<Span>) -> (r: Result<ScopeTree, StructError>)
    ensures
        r.is_ok() <==> scopes_ok(root, scopes@),
        (r matches Ok(t) ==> tree_matches(root, scopes@, t@) && t.wf()),
        (r matches Err(e) ==> build_error_witness(root, scopes@, e)),
{
    let n = scopes.len();
    if !root.is_wf() {
        return Err(StructError::MalformedSpan(root));
    }
    let mut k: usize = 0;
    while k < n
        invariant
            n == scopes@.len(),
            k <= n,
            root.wf(),
            forall|x: int| 0 <= x < k ==> (#[trigger] scopes@[x]).wf() && root.contains(scopes@[x]),
        decreases n - k,
    {
        let s = scopes[k];
        if !s.is_wf() {
            assert(scopes@.contains(s));
            return Err(StructError::MalformedSpan(s));
        }
        if !root.contains_span(&s) {
            assert(scopes@.contains(s));
            return Err(StructError::OutsideRoot(s));
        }
        k += 1;
    }
    let mut a: usize = 0;
    while a < n
        invariant
            n == scopes@.len(),
            a <= n,
            forall|x: int, y: int|
                0 <= x < a && 0 <= y < n ==> (#[trigger] scopes@[x]).compatible(
                    #[trigger] scopes@[y],
                ),
        decreases n - a,
    {
        let mut b: usize = 0;
        while b < n
            invariant
                n == scopes@.len(),
                a < n,
                b <= n,
                forall|y: int| 0 <= y < b ==> scopes@[a as int].compatible(#[trigger] scopes@[y]),
            decreases n - b,
        {
            if !scopes[a].is_compatible(&scopes[b]) {
                assert(scopes@.contains(scopes@[a as int]));
                assert(scopes@.contains(scopes@[b as int]));
                return Err(StructError::OverlappingScopes(scopes[a], scopes[b]));
            }
            b += 1;
        }
        a += 1;
    }
    // Sort by (start ascending, end descending): an enclosing scope comes
    // before every scope nested in it.
    let mut sorted: Vec<Span> = Vec::new();
    let mut k: usize = 0;
    while k < n
        invariant
            n == scopes@.len(),
            k <= n,
            sorted@.len() == k,
            forall|x: int, y: int| 0 <= x < y < k ==> (#[trigger] sorted@[x]).le(
                #[trigger] sorted@[y],
            ),
            forall|x: int| 0 <= x < k ==> scopes@.contains(#[trigger] sorted@[x]),
            forall|x: int| 0 <= x < k ==> sorted@.contains(#[trigger] scopes@[x]),
        decreases n - k,
    {
        let s = scopes[k];
        let mut pos: usize = 0;
        while pos < sorted.len() && sorted[pos].is_le(&s)
            invariant
                pos <= sorted@.len(),
                forall|x: int| 0 <= x < pos ==> (#[trigger] sorted@[x]).le(s),
            decreases sorted@.len() - pos,
        {
            pos += 1;
        }
        assert(forall|x: int| pos <= x < sorted@.len() ==> s.le(#[trigger] sorted@[x]));
        proof {
            sorted@.insert_ensures(pos as int, s);
        }
        let ghost old_sorted = sorted@;
        sorted.insert(pos, s);
        assert(scopes@.contains(s));
        assert forall|x: int| 0 <= x < k + 1 implies sorted@.contains(#[trigger] scopes@[x]) by {
            if x < k {
                let w = choose|w: int| 0 <= w < old_sorted.len() && old_sorted[w] == scopes@[x];
                if w < pos {
                    assert(sorted@[w] == scopes@[x]);
                } else {
                    assert(sorted@[w + 1] == scopes@[x]);
                }
            } else {
                assert(sorted@[pos as int] == s);
            }
        }
        assert forall|x: int| 0 <= x < k + 1 implies scopes@.contains(#[trigger] sorted@[x]) by {
            if x < pos {
                assert(sorted@[x] == old_sorted[x]);
            } else if x == pos {
                assert(sorted@[x] == s);
            } else {
                assert(sorted@[x] == old_sorted[x - 1]);
            }
        }
        k += 1;
    }
    // Keep one node per distinct span, the root first, the rest in sorted
    // order, so that every scope follows its enclosing scopes.
    let mut tspans: Vec<Span> = Vec::new();
    tspans.push(root);
    let mut k: usize = 0;
    while k < n
        invariant
            n == scopes@.len(),
            n == sorted@.len(),
            k <= n,
            root.wf(),
            tspans@.len() >= 1,
            tspans@[0] == root,
            forall|x: int| 0 <= x < n ==> (#[trigger] scopes@[x]).wf() && root.contains(
                scopes@[x],
            ),
            forall|x: int, y: int| 0 <= x < y < n ==> (#[trigger] sorted@[x]).le(
                #[trigger] sorted@[y],
            ),
            forall|x: int| 0 <= x < n ==> scopes@.contains(#[trigger] sorted@[x]),
            forall|x: int| 0 <= x < n ==> sorted@.contains(#[trigger] scopes@[x]),
            forall|i: int, j: int| 0 <= i < j < tspans@.len() ==> (#[trigger] tspans@[j]).inner_than(
                #[trigger] tspans@[i],
            ),
            forall|i: int|
                1 <= i < tspans@.len() ==> scopes@.contains(#[trigger] tspans@[i]) && tspans@[i]
                    != root,
            forall|i: int|
                1 <= i < tspans@.len() ==> exists|w: int| 0 <= w < k && sorted@[w] == #[trigger] tspans@[i],
            forall|x: int| 0 <= x < k ==> sorted@[x] == root || tspans@.contains(
                #[trigger] sorted@[x],
            ),
        decreases n - k,
    {
        let s = sorted[k];
        let ghost old_tspans = tspans@;
        if s != root && !vec_has_span(&tspans, &s) {
            assert forall|i: int| 0 <= i < tspans@.len() implies s.inner_than(
                #[trigger] tspans@[i],
            ) by {
                if i == 0 {
                    assert(root.contains(s));
                    lemma_container_sorts_first(root, s);
                } else {
                    let w = choose|w: int| 0 <= w < k && sorted@[w] == tspans@[i];
                    assert(sorted@[w].le(sorted@[k as int]));
                }
            }
            tspans.push(s);
            assert(tspans@[tspans@.len() - 1] == s);
        }
        assert forall|x: int| 0 <= x < k + 1 implies sorted@[x] == root || tspans@.contains(
            #[trigger] sorted@[x],
        ) by {
            if x < k {
                if sorted@[x] != root {
                    let w = choose|w: int| 0 <= w < old_tspans.len() && old_tspans[w] == sorted@[x];
                    assert(tspans@[w] == sorted@[x]);
                }
            } else {
                if s != root {
                    if old_tspans.contains(s) {
                        let w = choose|w: int| 0 <= w < old_tspans.len() && old_tspans[w] == s;
                        assert(tspans@[w] == s);
                    } else {
                        assert(tspans@[tspans@.len() - 1] == s);
                    }
                }
            }
        }
        k += 1;
    }
    let len = tspans.len();
    // The parent of each node: the innermost other node containing it.
    let mut parents: Vec<usize> = Vec::new();
    parents.push(0);
    let mut i: usize = 1;
    while i < len
        invariant
            len == tspans@.len(),
            1 <= i <= len,
            parents@.len() == i,
            root.wf(),
            tspans@[0] == root,
            parents@[0] == 0,
            forall|x: int, y: int| 0 <= x < y < len ==> (#[trigger] tspans@[y]).inner_than(
                #[trigger] tspans@[x],
            ),
            forall|x: int| 1 <= x < len ==> root.contains(#[trigger] tspans@[x]) && tspans@[x]
                != root && tspans@[x].wf(),
            forall|x: int|
                1 <= x < i ==> 0 <= #[trigger] parents@[x] < x && tspans@[parents@[x] as int].contains(
                    tspans@[x],
                ),
            forall|x: int, j: int|
                1 <= x < i && 0 <= j < len && j != x && j != parents@[x] && (
                #[trigger] tspans@[j]).contains(#[trigger] tspans@[x]) ==> tspans@[parents@[x] as int].inner_than(
                    tspans@[j],
                ),
        decreases len - i,
    {
        let mut best: usize = 0;
        assert(tspans@[0].contains(tspans@[i as int]));
        let mut j: usize = 1;
        while j < len
            invariant
                len == tspans@.len(),
                1 <= i < len,
                j <= len,
                best < len,
                best != i,
                forall|x: int, y: int| 0 <= x < y < len ==> (#[trigger] tspans@[y]).inner_than(
                    #[trigger] tspans@[x],
                ),
                tspans@[best as int].contains(tspans@[i as int]),
                forall|x: int|
                    0 <= x < j && x != i && x != best && (#[trigger] tspans@[x]).contains(
                        tspans@[i as int],
                    ) ==> tspans@[best as int].inner_than(tspans@[x]),
            decreases len - j,
        {
            if j != i && tspans[j].contains_span(&tspans[i]) && tspans[j].is_inner_than(
                &tspans[best],
            ) {
                best = j;
            }
            j += 1;
        }
        // The chosen parent comes before its child in the arena.
        assert(best < i) by {
            if best > i {
                assert(tspans@[best as int].inner_than(tspans@[i as int]));
                assert(tspans@[i as int] != tspans@[best as int]);
                lemma_container_sorts_first(tspans@[best as int], tspans@[i as int]);
            }
        }
        parents.push(best);
        i += 1;
    }
    // The child lists: node i is a child of parents[i], and pushing in
    // index order keeps each list ordered by start position.
    let mut childlists: Vec<Vec<usize>> = Vec::new();
    let mut i: usize = 0;
    while i < len
        invariant
            i <= len,
            childlists@.len() == i,
            forall|j: int| 0 <= j < i ==> (#[trigger] childlists@[j])@.len() == 0,
        decreases len - i,
    {
        childlists.push(Vec::new());
        i += 1;
    }
    let mut i: usize = 1;
    while i < len
        invariant
            len == parents@.len(),
            len == childlists@.len(),
            1 <= len,
            1 <= i <= len,
            forall|x: int| 1 <= x < len ==> 0 <= #[trigger] parents@[x] < x,
            forall|j: int, x: int|
                0 <= j < len && 0 <= x < childlists@[j]@.len() ==> 1 <= (
                #[trigger] childlists@[j]@[x]) < i && parents@[childlists@[j]@[x] as int] == j,
            forall|c: usize|
                1 <= c < i ==> #[trigger] childlists@[parents@[c as int] as int]@.contains(c),
            forall|j: int, a: int, b: int|
                0 <= j < len && 0 <= a < b < childlists@[j]@.len() ==> (
                #[trigger] childlists@[j]@[a]) < (#[trigger] childlists@[j]@[b]),
        decreases len - i,
    {
        let p = parents[i];
        let ghost oldcl = childlists@;
        childlists[p].push(i);
        proof {
            assert(childlists@[p as int]@ =~= oldcl[p as int]@.push(i));
            assert(forall|j2: int| 0 <= j2 < len && j2 != p as int ==> #[trigger] childlists@[j2]
                == oldcl[j2]);
            assert(forall|c: usize|
                1 <= c < i ==> #[trigger] oldcl[parents@[c as int] as int]@.contains(c));
            assert forall|c: usize| 1 <= c < i + 1 implies #[trigger] childlists@[parents@[c as int] as int]@.contains(
                c,
            ) by {
                let q = parents@[c as int] as int;
                if c < i {
                    assert(oldcl[q]@.contains(c));
                    let w = choose|w: int| 0 <= w < oldcl[q]@.len() && oldcl[q]@[w] == c;
                    if q == p as int {
                        assert(childlists@[q]@[w] == c);
                    } else {
                        assert(childlists@[q]@[w] == c);
                    }
                } else {
                    assert(childlists@[q]@.last() == i);
                }
            }
        }
        i += 1;
    }
    let ghost all_children = childlists@;
    proof {
        assert(forall|j: int, x: int|
            0 <= j < len && 0 <= x < all_children[j]@.len() ==> 1 <= (
            #[trigger] all_children[j]@[x]) < len && parents@[all_children[j]@[x] as int] == j);
        assert(forall|c: usize|
            1 <= c < len ==> #[trigger] all_children[parents@[c as int] as int]@.contains(c));
        assert(forall|j: int, a: int, b: int|
            0 <= j < len && 0 <= a < b < all_children[j]@.len() ==> (
            #[trigger] all_children[j]@[a]) < (#[trigger] all_children[j]@[b]));
    }
    let mut nodes: Vec<ScopeNode> = Vec::new();
    let mut i: usize = 0;
    while i < len
        invariant
            len == tspans@.len(),
            len == parents@.len(),
            all_children.len() == len,
            childlists@ =~= all_children.skip(i as int),
            i <= len,
            nodes@.len() == i,
            forall|x: int|
                0 <= x < i ==> (#[trigger] nodes@[x]).span == tspans@[x] && nodes@[x].parent
                    == parents@[x] && nodes@[x].bindings@.len() == 0 && nodes@[x].children@
                    == all_children[x]@,
        decreases len - i,
    {
        let cl = childlists.remove(0);
        proof {
            assert(cl == all_children.skip(i as int)[0]);
            assert(cl == all_children[i as int]);
            assert(childlists@ =~= all_children.skip(i + 1));
        }
        nodes.push(
            ScopeNode { span: tspans[i], parent: parents[i], children: cl, bindings: Vec::new() },
        );
        i += 1;
    }
    let t = ScopeTree { nodes };
    proof {
        assert(t@.len() == len);
        assert forall|x: int| 0 <= x < len implies (#[trigger] t@[x]).span == tspans@[x] && t@[x].parent
            == parents@[x] as int && t@[x].bindings.len() == 0 by {
            assert(t@[x] == t.nodes@[x]@);
        }
        assert forall|i: int, j: int| 0 <= i < t@.len() && 0 <= j < t@.len() && i != j implies (
        #[trigger] t@[i].span) != (#[trigger] t@[j].span) by {
            if i < j {
                assert(tspans@[j].inner_than(tspans@[i]));
            } else {
                assert(tspans@[i].inner_than(tspans@[j]));
            }
        }
        assert(forall|i: int| 0 <= i < t@.len() ==> t@[0].span.contains(#[trigger] t@[i].span));
        assert forall|x: int, y: int|
            0 <= x < len && 0 <= y < t@[x].children.len() implies #[trigger] t@[x].children[y]
            == all_children[x]@[y] as int by {
            assert(t@[x] == t.nodes@[x]@);
        }
        assert forall|x: int| 0 <= x < len implies (#[trigger] t@[x]).children.len()
            == all_children[x]@.len() by {
            assert(t@[x] == t.nodes@[x]@);
        }
        assert forall|i: int| 1 <= i < t@.len() implies #[trigger] t@[t@[i].parent].children.contains(
            i,
        ) by {
            let p = parents@[i] as int;
            assert(all_children[p]@.contains(i as usize));
            let w = choose|w: int| 0 <= w < all_children[p]@.len() && all_children[p]@[w] == (
            i as usize);
            assert(t@[p].children[w] == i);
        }
        assert forall|i: int, j: int| 0 <= i < t@.len() && 0 <= j < t@.len() implies (
        #[trigger] t@[i].span).compatible(#[trigger] t@[j].span) by {
            if i == 0 || j == 0 {
                assert(t@[0].span.contains(t@[i].span) && t@[0].span.contains(t@[j].span));
            } else {
                assert(scopes@.contains(tspans@[i]) && scopes@.contains(tspans@[j]));
                let ki = choose|ki: int| 0 <= ki < scopes@.len() && scopes@[ki] == tspans@[i];
                let kj = choose|kj: int| 0 <= kj < scopes@.len() && scopes@[kj] == tspans@[j];
                assert(scopes@[ki].compatible(scopes@[kj]));
            }
        }
        assert(model_wf(t@));
        assert forall|k2: int| 0 <= k2 < scopes@.len() implies exists|w: int|
            0 <= w < t@.len() && t@[w].span == #[trigger] scopes@[k2] by {
            assert(sorted@.contains(scopes@[k2]));
            let m = choose|m: int| 0 <= m < sorted@.len() && sorted@[m] == scopes@[k2];
            if sorted@[m] == root {
                assert(t@[0].span == scopes@[k2]);
            } else {
                assert(tspans@.contains(sorted@[m]));
                let w = choose|w: int| 0 <= w < tspans@.len() && tspans@[w] == sorted@[m];
                assert(t@[w].span == scopes@[k2]);
            }
        }
        assert(tree_matches(root, scopes@, t@));
    }
    Ok(t)
}

} // verus!
