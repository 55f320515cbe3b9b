use syntax_core::js::parse_js;
use syntax_core::kind::NodeKind;
use syntax_core::semantic::{find_references, scope_of, SemanticModel};
use syntax_core::traverse::{collect, Filter};

#[test]
fn binding_has_two_references_in_source_order() {
    let src = b"const FOO = \"FOO\";\nconsole.log(FOO); f(FOO);";
    let parse = parse_js(src);
    let root = parse.tree();
    let model = SemanticModel::build(root);
    assert_eq!(model.bindings().len(), 1);
    let binding = &model.bindings()[0];
    assert_eq!(root.node_at(binding.node()).unwrap().kind(), NodeKind::JsIdentifierBinding);
    assert!(binding.scope().is_empty());
    let references = model.all_references(binding.node()).unwrap();
    assert_eq!(references.len(), 2);
    let first = root.trimmed_range_at(references[0].node()).unwrap();
    let second = root.trimmed_range_at(references[1].node()).unwrap();
    assert_eq!((first.start, first.end), (31, 34));
    assert_eq!((second.start, second.end), (39, 42));
    for reference in references {
        let node = root.node_at(reference.node()).unwrap();
        assert_eq!(node.kind(), NodeKind::JsReferenceIdentifier);
        assert_eq!(node.text_trimmed().as_slice(), b"FOO");
    }
}

#[test]
fn other_names_are_no_references() {
    let parse = parse_js(b"const FOO = 1; FOOD; foo; FOO.FOO; x.FOO");
    let model = SemanticModel::build(parse.tree());
    let binding = &model.bindings()[0];
    assert_eq!(binding.references().len(), 1);
}

#[test]
fn references_are_looked_for_in_the_scope_of_the_binding() {
    let src = b"a; { const a = 1; a; } a; x => { a }";
    let parse = parse_js(src);
    let root = parse.tree();
    let model = SemanticModel::build(root);
    assert_eq!(model.bindings().len(), 2);
    let inner = &model.bindings()[0];
    assert_eq!(root.node_at(inner.scope()).unwrap().kind(), NodeKind::JsBlockStatement);
    assert_eq!(inner.references().len(), 1);
    let used = root.trimmed_range_at(inner.references()[0].node()).unwrap();
    assert_eq!((used.start, used.end), (18, 19));
    let parameter = &model.bindings()[1];
    assert_eq!(root.node_at(parameter.scope()).unwrap().kind(), NodeKind::JsArrowFunctionExpression);
    assert!(parameter.references().is_empty());
}

#[test]
fn loop_variable_belongs_to_the_loop() {
    let parse = parse_js(b"for (const el of els) { el } el");
    let root = parse.tree();
    let model = SemanticModel::build(root);
    let binding = &model.bindings()[0];
    assert_eq!(root.node_at(binding.scope()).unwrap().kind(), NodeKind::JsForOfStatement);
    assert_eq!(binding.references().len(), 1);
}

#[test]
fn unknown_binding_has_no_entry() {
    let parse = parse_js(b"const a = 1; a");
    let model = SemanticModel::build(parse.tree());
    assert!(model.all_references(&[0, 1]).is_none());
    assert!(model.all_references(&[9, 9, 9]).is_none());
}

#[test]
fn model_agrees_with_a_direct_search() {
    let parse = parse_js(b"const a = 1, b = a; { a; b } f(a => a)");
    let root = parse.tree();
    let model = SemanticModel::build(root);
    let bindings = collect(root, &Filter::of_kind(NodeKind::JsIdentifierBinding));
    assert_eq!(bindings.len(), 3);
    assert_eq!(model.bindings().len(), 3);
    for (binding, path) in model.bindings().iter().zip(bindings.iter()) {
        assert_eq!(binding.node(), path);
        assert_eq!(binding.scope(), &scope_of(root, path));
        assert_eq!(binding.references(), &find_references(root, path));
    }
    assert_eq!(model.bindings()[0].references().len(), 3);
    assert_eq!(model.bindings()[1].references().len(), 1);
    assert_eq!(model.bindings()[2].references().len(), 1);
}

#[test]
fn walk_lists_nodes_in_source_order() {
    let parse = parse_js(b"f(g(a), h)(b)");
    let root = parse.tree();
    let calls = collect(root, &Filter::of_kind(NodeKind::JsCallExpression));
    let texts: Vec<Vec<u8>> = calls.iter().map(|p| root.node_at(p).unwrap().text()).collect();
    assert_eq!(texts, vec![b"f(g(a), h)(b)".to_vec(), b"f(g(a), h)".to_vec(), b"g(a)".to_vec()]);
    let named = collect(root, &Filter::named(NodeKind::JsReferenceIdentifier, b"h".to_vec()));
    assert_eq!(named.len(), 1);
}

#[test]
fn walk_meets_every_node_of_the_kind_exactly_once() {
    let parse = parse_js(b"f(a)(b); { g(h(c), d => e(d)) } x.y(z)");
    let root = parse.tree();
    let calls = collect(root, &Filter::of_kind(NodeKind::JsCallExpression));
    assert_eq!(calls.len(), 6);
    for (i, first) in calls.iter().enumerate() {
        assert_eq!(root.node_at(first).unwrap().kind(), NodeKind::JsCallExpression);
        for second in &calls[i + 1..] {
            assert_ne!(first, second);
        }
    }
    let starts: Vec<usize> = calls.iter().map(|p| root.trimmed_range_at(p).unwrap().start).collect();
    let mut sorted = starts.clone();
    sorted.sort();
    assert_eq!(starts, sorted);
}
