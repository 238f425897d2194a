//! Unit tests: builder and collector contracts, error reporting, tie
//! breaking, the caret oracle, and the text encoder.

use lexscope::span::Span;
use lexscope::kinds::BindKind;
use lexscope::kinds::RefHint;
use lexscope::kinds::StructError;
use lexscope::kinds::Tag;
use lexscope::collect::DefCandidate;
use lexscope::collect::collect_bindings;
use lexscope::resolver::RefCandidate;
use lexscope::resolver::Resolution;
use lexscope::resolver::resolve_all;
use lexscope::scope::build_scope_tree;
use lexscope::classify::analyze;
use lexscope::oracle::caret_columns;
use lexscope::oracle::compare_tags;
use lexscope::render::Encode;

fn d(name: &str, start: usize, end: usize, kind: BindKind, early: bool, avail: usize) -> DefCandidate {
    DefCandidate {
        name: String::from(name),
        span: Span::new(start, end),
        kind,
        early,
        avail,
        anchor: start,
    }
}

fn r(name: &str, start: usize, end: usize, hint: RefHint) -> RefCandidate {
    RefCandidate { name: String::from(name), span: Span::new(start, end), hint }
}

#[test]
fn builder_accepts_nested_scopes() {
    let root = Span::new(0, 100);
    let scopes = vec![Span::new(10, 90), Span::new(20, 40), Span::new(50, 80), Span::new(55, 60)];
    let t = build_scope_tree(root, &scopes).unwrap();
    assert_eq!(t.nodes.len(), 5);
    assert_eq!(t.nodes[0].span, root);
    assert_eq!(t.nodes[0].parent, 0);
    // Outermost first; each node's parent is its innermost container.
    assert_eq!(t.nodes[1].span, Span::new(10, 90));
    assert_eq!(t.nodes[1].parent, 0);
    assert_eq!(t.nodes[2].span, Span::new(20, 40));
    assert_eq!(t.nodes[2].parent, 1);
    assert_eq!(t.nodes[3].span, Span::new(50, 80));
    assert_eq!(t.nodes[3].parent, 1);
    assert_eq!(t.nodes[4].span, Span::new(55, 60));
    assert_eq!(t.nodes[4].parent, 3);
    // Child lists mirror the parent links, ordered by start position.
    assert_eq!(t.nodes[0].children, vec![1]);
    assert_eq!(t.nodes[1].children, vec![2, 3]);
    assert_eq!(t.nodes[2].children, Vec::<usize>::new());
    assert_eq!(t.nodes[3].children, vec![4]);
    assert_eq!(t.nodes[4].children, Vec::<usize>::new());
}

#[test]
fn builder_collapses_duplicate_spans() {
    let root = Span::new(0, 50);
    let scopes = vec![Span::new(5, 40), Span::new(5, 40), root];
    let t = build_scope_tree(root, &scopes).unwrap();
    // One node per distinct span; a scope equal to the root folds into
    // the root.
    assert_eq!(t.nodes.len(), 2);
}

#[test]
fn builder_rejects_malformed_root() {
    let scopes: Vec<Span> = Vec::new();
    let e = build_scope_tree(Span::new(7, 3), &scopes).unwrap_err();
    assert_eq!(e, StructError::MalformedSpan(Span::new(7, 3)));
}

#[test]
fn builder_rejects_malformed_scope_span() {
    let scopes = vec![Span::new(9, 4)];
    let e = build_scope_tree(Span::new(0, 20), &scopes).unwrap_err();
    assert_eq!(e, StructError::MalformedSpan(Span::new(9, 4)));
}

#[test]
fn builder_rejects_scope_outside_root() {
    let scopes = vec![Span::new(10, 30)];
    let e = build_scope_tree(Span::new(0, 20), &scopes).unwrap_err();
    assert_eq!(e, StructError::OutsideRoot(Span::new(10, 30)));
}

#[test]
fn builder_rejects_partial_overlap() {
    let scopes = vec![Span::new(2, 6), Span::new(4, 8)];
    let e = build_scope_tree(Span::new(0, 10), &scopes).unwrap_err();
    assert_eq!(e, StructError::OverlappingScopes(Span::new(2, 6), Span::new(4, 8)));
}

#[test]
fn collector_keeps_lists_sorted_and_stable() {
    let root = Span::new(0, 100);
    let scopes: Vec<Span> = Vec::new();
    let mut t = build_scope_tree(root, &scopes).unwrap();
    // Handed over out of order, and two bindings sharing one start.
    let defs = vec![
        d("c", 50, 51, BindKind::Variable, false, 52),
        d("a", 10, 11, BindKind::Variable, false, 12),
        d("b", 30, 31, BindKind::Variable, false, 32),
        d("a2", 10, 12, BindKind::Const, true, 0),
    ];
    collect_bindings(&mut t, &defs).unwrap();
    let starts: Vec<usize> = t.nodes[0].bindings.iter().map(|b| b.span.start).collect();
    assert_eq!(starts, vec![10, 10, 30, 50]);
    // Equal starts keep their input order: `a` before `a2`.
    assert_eq!(t.nodes[0].bindings[0].name, "a");
    assert_eq!(t.nodes[0].bindings[1].name, "a2");
}

#[test]
fn collector_rejects_binding_outside_root() {
    let root = Span::new(0, 10);
    let scopes: Vec<Span> = Vec::new();
    let mut t = build_scope_tree(root, &scopes).unwrap();
    let defs = vec![d("a", 15, 16, BindKind::Variable, false, 17)];
    let e = collect_bindings(&mut t, &defs).unwrap_err();
    assert_eq!(e, StructError::OutsideRoot(Span::new(15, 16)));
    // The tree stands as it was.
    assert_eq!(t.nodes.len(), 1);
    assert!(t.nodes[0].bindings.is_empty());
}

#[test]
fn shadow_tie_prefers_later_collector_order() {
    let root = Span::new(0, 100);
    let scopes: Vec<Span> = Vec::new();
    let mut t = build_scope_tree(root, &scopes).unwrap();
    // Two bindings with one defining start: the one later in the
    // collector's stable order wins, and nothing fails.
    let defs = vec![
        d("x", 10, 11, BindKind::Variable, true, 0),
        d("x", 10, 11, BindKind::Const, true, 0),
    ];
    collect_bindings(&mut t, &defs).unwrap();
    let refs = vec![r("x", 40, 41, RefHint::Bare)];
    let rs = resolve_all(&t, &refs).unwrap();
    assert_eq!(rs[0], Resolution::Bound { scope: 0, binding: 1 });
}

#[test]
fn resolver_rejects_reference_outside_root() {
    let root = Span::new(0, 10);
    let scopes: Vec<Span> = Vec::new();
    let t = build_scope_tree(root, &scopes).unwrap();
    let refs = vec![r("x", 12, 13, RefHint::Bare)];
    let e = resolve_all(&t, &refs).unwrap_err();
    assert_eq!(e, StructError::OutsideRoot(Span::new(12, 13)));
    // A field name outside the root is no error: it never enters scope
    // lookup.
    let refs2 = vec![r("x", 12, 13, RefHint::FieldRhs)];
    let rs = resolve_all(&t, &refs2).unwrap();
    assert_eq!(rs[0], Resolution::FieldOrMethod);
}

#[test]
fn unresolved_hints_fall_back() {
    let root = Span::new(0, 50);
    let scopes: Vec<Span> = Vec::new();
    let defs: Vec<DefCandidate> = Vec::new();
    let refs = vec![
        r("f", 1, 2, RefHint::CallTarget),
        r("T", 3, 4, RefHint::TypePos),
        r("x", 5, 6, RefHint::Bare),
    ];
    let out = analyze(root, &scopes, &defs, &refs).unwrap();
    assert_eq!(out[0].1, Tag::Function);
    assert_eq!(out[1].1, Tag::Type);
    assert_eq!(out[2].1, Tag::FreeReference);
}

#[test]
fn trait_and_type_definitions_tag_their_references() {
    let root = Span::new(0, 100);
    let scopes: Vec<Span> = Vec::new();
    let defs = vec![
        d("Show", 5, 9, BindKind::Trait, true, 0),
        d("Tree", 20, 24, BindKind::Type, true, 0),
    ];
    let refs = vec![
        r("Show", 40, 44, RefHint::TypePos),
        r("Tree", 50, 54, RefHint::TypePos),
    ];
    let out = analyze(root, &scopes, &defs, &refs).unwrap();
    assert_eq!(out[0].1, Tag::Trait);
    assert_eq!(out[1].1, Tag::Type);
    assert_eq!(out[2].1, Tag::Trait);
    assert_eq!(out[3].1, Tag::Type);
}

#[test]
fn analyze_propagates_structural_errors() {
    let scopes = vec![Span::new(2, 6), Span::new(4, 8)];
    let defs: Vec<DefCandidate> = Vec::new();
    let refs: Vec<RefCandidate> = Vec::new();
    let e = analyze(Span::new(0, 10), &scopes, &defs, &refs).unwrap_err();
    assert_eq!(e, StructError::OverlappingScopes(Span::new(2, 6), Span::new(4, 8)));
}

#[test]
fn caret_columns_finds_annotated_columns() {
    let line: Vec<u8> = b"//  ^   ^".to_vec();
    assert_eq!(caret_columns(&line), vec![4, 8]);
    let empty: Vec<u8> = Vec::new();
    assert!(caret_columns(&empty).is_empty());
    let none: Vec<u8> = b"// nothing".to_vec();
    assert!(caret_columns(&none).is_empty());
}

#[test]
fn compare_tags_reports_each_discrepancy() {
    let s1 = Span::new(0, 1);
    let s2 = Span::new(2, 3);
    let s3 = Span::new(4, 5);
    let actual = vec![(s1, Tag::Variable), (s2, Tag::Const)];
    let expected = vec![(s1, Tag::Variable), (s2, Tag::Function), (s3, Tag::Field)];
    let ms = compare_tags(&expected, &actual);
    assert_eq!(ms.len(), 2);
    assert_eq!(ms[0].span, s2);
    assert_eq!(ms[0].expected, Tag::Function);
    assert_eq!(ms[0].found, Some(Tag::Const));
    assert_eq!(ms[1].span, s3);
    assert_eq!(ms[1].found, None);
    // All met: an empty report.
    let good = vec![(s1, Tag::Variable), (s2, Tag::Const)];
    assert!(compare_tags(&good, &actual).is_empty());
}

#[test]
fn tag_names_are_the_wire_names() {
    assert_eq!(Tag::Variable.name(), "variable");
    assert_eq!(Tag::Parameter.name(), "variable.parameter");
    assert_eq!(Tag::SelfVar.name(), "variable.self");
    assert_eq!(Tag::Function.name(), "function");
    assert_eq!(Tag::Type.name(), "type");
    assert_eq!(Tag::Trait.name(), "trait");
    assert_eq!(Tag::Const.name(), "const");
    assert_eq!(Tag::Field.name(), "field");
    assert_eq!(Tag::FreeReference.name(), "free-reference");
    assert_eq!(Tag::Unresolved.name(), "unresolved");
}

#[test]
fn encode_renders_tag_lines() {
    let mut e = Encode::new();
    assert_eq!(e.as_str(), "");
    e.put(Tag::Variable);
    e.put(Tag::Field);
    assert_eq!(e.as_str(), "variable\nfield\n");
}
