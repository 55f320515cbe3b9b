use syntax_core::analyzer::{
    analyze, run_rule, ActionCategory, Applicability, Rule, RuleContext, Signal,
};
use syntax_core::diagnostic::Severity;
use syntax_core::js::parse_js;
use syntax_core::kind::NodeKind;
use syntax_core::no_for_each::NoForEach;
use syntax_core::no_shouty_constants::{
    find_parent, is_id_and_string_literal_inner_text_equal, NoShoutyConstants,
};
use syntax_core::semantic::SemanticModel;
use syntax_core::traverse::{collect, Filter};

fn signals(src: &[u8], rule: Rule) -> Vec<Signal> {
    let parse = parse_js(src);
    analyze(parse.tree(), &[rule])
}

#[test]
fn for_each_on_a_static_member_is_signalled_once() {
    let found = signals(b"els.forEach(el => { el })", Rule::NoForEach);
    assert_eq!(found.len(), 1);
    assert_eq!(found[0].rule(), Rule::NoForEach);
    assert!(found[0].action().is_none());
}

#[test]
fn for_each_on_a_computed_member_is_signalled_once() {
    assert_eq!(signals(b"els['forEach'](el => { el })", Rule::NoForEach).len(), 1);
    assert_eq!(signals(b"els[(\"forEach\")](el => { el })", Rule::NoForEach).len(), 1);
    assert_eq!(signals(b"(els.forEach)(el => { el })", Rule::NoForEach).len(), 1);
}

#[test]
fn for_of_is_not_signalled() {
    assert!(signals(b"for (const el of els) { el }", Rule::NoForEach).is_empty());
}

#[test]
fn other_calls_are_not_signalled() {
    assert!(signals(b"els.map(el => el); forEach(x); els[forEach](x); els.forEach", Rule::NoForEach)
        .is_empty());
    assert!(signals(b"els.foreach(x); els['forEach '](x); els.forEach.call(x)", Rule::NoForEach)
        .is_empty());
}

#[test]
fn no_for_each_diagnostic_covers_the_call() {
    let found = signals(b"  els.forEach(x) // tail", Rule::NoForEach);
    let diagnostic = found[0].diagnostic().as_ref().unwrap();
    assert_eq!(diagnostic.severity(), Severity::Error);
    assert_eq!((diagnostic.range().start, diagnostic.range().end), (2, 16));
    assert_eq!(diagnostic.message(), "Prefer for...of instead of Array.forEach");
    assert_eq!(
        diagnostic.footer().as_deref(),
        Some(
            "forEach could lead to performance issues when working with large arrays. \
             When combined with functions like .filter or .map, this causes multiple \
             iterations over the same type."
        )
    );
    assert!(diagnostic.annotations().is_empty());
}

#[test]
fn no_for_each_run_on_single_nodes() {
    let parse = parse_js(b"a.forEach(b.map(c))");
    let root = parse.tree();
    let model = SemanticModel::build(root);
    let calls = collect(root, &Filter::of_kind(NodeKind::JsCallExpression));
    assert_eq!(calls.len(), 2);
    let outer = RuleContext::new(root, &calls[0], &model).unwrap();
    let inner = RuleContext::new(root, &calls[1], &model).unwrap();
    assert_eq!(NoForEach::run(&outer), Some(()));
    assert_eq!(NoForEach::run(&inner), None);
    let statement = RuleContext::new(root, &[0, 0], &model).unwrap();
    assert_eq!(NoForEach::run(&statement), None);
    assert!(RuleContext::new(root, &[5], &model).is_none());
}

#[test]
fn shouty_constant_is_signalled_with_its_uses() {
    let src = b"const FOO = \"FOO\";\nconsole.log(FOO); f(FOO);";
    let found = signals(src, Rule::NoShoutyConstants);
    assert_eq!(found.len(), 1);
    let diagnostic = found[0].diagnostic().as_ref().unwrap();
    assert_eq!(diagnostic.severity(), Severity::Warning);
    assert_eq!(diagnostic.message(), "Redundant constant declaration.");
    assert_eq!((diagnostic.range().start, diagnostic.range().end), (6, 17));
    let uses: Vec<(usize, usize, &str)> = diagnostic
        .annotations()
        .iter()
        .map(|a| (a.range().start, a.range().end, a.message().as_str()))
        .collect();
    assert_eq!(uses, vec![(31, 34, "Used here."), (39, 42, "Used here.")]);
    assert_eq!(
        diagnostic.footer().as_deref(),
        Some(
            "You should avoid declaring constants with a string that's the same\n    \
             value as the variable name. It introduces a level of unnecessary\n    \
             indirection when it's only two additional characters to inline."
        )
    );
}

#[test]
fn shouty_constant_fix_inlines_the_string() {
    let src = b"const FOO = \"FOO\";\nconsole.log(FOO); f(FOO);";
    let parse = parse_js(src);
    let found = analyze(parse.tree(), &[Rule::NoShoutyConstants]);
    let action = found[0].action().as_ref().unwrap();
    assert_eq!(action.category(), ActionCategory::Refactor);
    assert_eq!(action.applicability(), Applicability::Unspecified);
    assert_eq!(action.message(), "Use the constant value directly");
    assert_eq!(action.mutation().len(), 3);
    let fixed = action.mutation().commit(parse.tree()).unwrap();
    assert_eq!(fixed.text().as_slice(), b"\nconsole.log(\"FOO\"); f(\"FOO\");");
    assert_eq!(parse.tree().text().as_slice(), src);
    let again = parse_js(&fixed.text());
    assert!(again.diagnostics().is_empty());
    assert!(analyze(again.tree(), &[Rule::NoShoutyConstants]).is_empty());
}

#[test]
fn shouty_constant_among_others_keeps_the_list_valid() {
    let src = b"const FOO = \"FOO\", BAR = 1;\nf(FOO, BAR)";
    let parse = parse_js(src);
    let found = analyze(parse.tree(), &[Rule::NoShoutyConstants]);
    assert_eq!(found.len(), 1);
    let fixed = found[0].action().as_ref().unwrap().mutation().commit(parse.tree()).unwrap();
    assert_eq!(fixed.text().as_slice(), b"const BAR = 1;\nf(\"FOO\", BAR)");
    let last = parse_js(b"const BAR = 1, FOO = \"FOO\";\nFOO");
    let found = analyze(last.tree(), &[Rule::NoShoutyConstants]);
    let fixed = found[0].action().as_ref().unwrap().mutation().commit(last.tree()).unwrap();
    assert_eq!(fixed.text().as_slice(), b"const BAR = 1;\"FOO\"");
}

#[test]
fn declarators_that_are_not_shouty() {
    for src in [
        &b"const a = \"b\";"[..],
        b"let FOO = \"FOO\";",
        b"var FOO = \"FOO\";",
        b"const FOO = FOO;",
        b"const FOO = (\"FOO\");",
        b"const FOO = 1;",
        b"const FOO;",
        b"const FOO = \"FOO \";",
        b"for (const FOO of x) {}",
    ] {
        assert!(signals(src, Rule::NoShoutyConstants).is_empty());
    }
    assert_eq!(signals(b"const FOO = 'FOO', a = \"a\", b = 'c';", Rule::NoShoutyConstants).len(), 2);
}

#[test]
fn shouty_parts_of_a_declarator() {
    let parse = parse_js(b"const a = \"a\", b = \"c\";");
    let root = parse.tree();
    let paths = collect(root, &Filter::of_kind(NodeKind::JsVariableDeclarator));
    let first = root.node_at(&paths[0]).unwrap();
    let second = root.node_at(&paths[1]).unwrap();
    let (id, literal) = is_id_and_string_literal_inner_text_equal(first).unwrap();
    assert_eq!(id.kind(), NodeKind::JsIdentifierBinding);
    assert_eq!(id.text_trimmed().as_slice(), b"a");
    assert_eq!(literal.kind(), NodeKind::JsStringLiteralExpression);
    assert_eq!(literal.text_trimmed().as_slice(), b"\"a\"");
    assert!(is_id_and_string_literal_inner_text_equal(second).is_none());
    assert!(is_id_and_string_literal_inner_text_equal(root).is_none());
}

#[test]
fn shouty_rule_steps_on_one_node() {
    let parse = parse_js(b"const k = 'k'; g(k)");
    let root = parse.tree();
    let model = SemanticModel::build(root);
    let declarator = &collect(root, &Filter::of_kind(NodeKind::JsVariableDeclarator))[0];
    let ctx = RuleContext::new(root, declarator, &model).unwrap();
    let state = NoShoutyConstants::run(&ctx).unwrap();
    assert_eq!(state.literal().text().as_slice(), b"'k'");
    assert_eq!(state.references().len(), 1);
    let diagnostic = NoShoutyConstants::diagnostic(&ctx, &state).unwrap();
    assert_eq!(diagnostic.annotations().len(), 1);
    let action = NoShoutyConstants::action(&ctx, &state).unwrap();
    assert_eq!(action.mutation().commit(root).unwrap().text().as_slice(), b"g('k')");
    let signal = run_rule(Rule::NoShoutyConstants, &ctx).unwrap();
    assert_eq!(signal.node(), declarator);
    assert!(run_rule(Rule::NoForEach, &ctx).is_none());
    let elsewhere = RuleContext::new(root, &[0], &model).unwrap();
    assert!(NoShoutyConstants::run(&elsewhere).is_none());
}

#[test]
fn state_of_another_tree_gives_no_diagnostic() {
    let parse = parse_js(b"const k = 'k'; a.b.c(k)");
    let root = parse.tree();
    let model = SemanticModel::build(root);
    let declarator = &collect(root, &Filter::of_kind(NodeKind::JsVariableDeclarator))[0];
    let ctx = RuleContext::new(root, declarator, &model).unwrap();
    let state = NoShoutyConstants::run(&ctx).unwrap();
    let other = parse_js(b"const k = 'k';");
    let other_model = SemanticModel::build(other.tree());
    let other_ctx = RuleContext::new(other.tree(), declarator, &other_model).unwrap();
    assert!(NoShoutyConstants::diagnostic(&other_ctx, &state).is_none());
    assert!(NoShoutyConstants::action(&other_ctx, &state).is_none());
}

#[test]
fn rules_run_in_the_order_given_over_nodes_in_source_order() {
    let src = b"a.forEach(f); const B = 'B'; B.forEach(g)";
    let parse = parse_js(src);
    let both = analyze(parse.tree(), &[Rule::NoShoutyConstants, Rule::NoForEach]);
    let rules: Vec<Rule> = both.iter().map(|s| s.rule()).collect();
    assert_eq!(rules, vec![Rule::NoShoutyConstants, Rule::NoForEach, Rule::NoForEach]);
    let first = both[1].diagnostic().as_ref().unwrap().range();
    let second = both[2].diagnostic().as_ref().unwrap().range();
    assert!(first.start < second.start);
    assert!(analyze(parse.tree(), &[]).is_empty());
    assert_eq!(analyze(parse.tree(), &[Rule::NoForEach, Rule::NoForEach]).len(), 4);
    assert_eq!(Rule::NoForEach.query_kind(), NodeKind::JsCallExpression);
    assert_eq!(Rule::NoShoutyConstants.query_kind(), NodeKind::JsVariableDeclarator);
}

#[test]
fn rules_run_on_what_is_well_formed_in_a_broken_file() {
    let src = b"const = ;\n)\nels.forEach(x)\n}\nconst A = 'A'";
    let parse = parse_js(src);
    assert!(!parse.diagnostics().is_empty());
    assert_eq!(parse.tree().text().as_slice(), src);
    assert_eq!(analyze(parse.tree(), &[Rule::NoForEach, Rule::NoShoutyConstants]).len(), 2);
}

#[test]
fn parent_of_a_given_kind() {
    let parse = parse_js(b"const a = 1");
    let root = parse.tree();
    let declarator = &collect(root, &Filter::of_kind(NodeKind::JsVariableDeclarator))[0];
    let list = find_parent(root, declarator, NodeKind::JsVariableDeclaratorList).unwrap();
    assert_eq!(list.as_slice(), &declarator[..declarator.len() - 1]);
    assert!(find_parent(root, declarator, NodeKind::JsVariableDeclaration).is_none());
    assert!(find_parent(root, &[], NodeKind::JsModule).is_none());
}

#[test]
fn rules_are_known_by_their_names() {
    let for_each = Rule::NoForEach.metadata();
    assert_eq!((for_each.name, for_each.version, for_each.recommended), ("noForEach", "1.0.0", true));
    let shouty = Rule::NoShoutyConstants.metadata();
    assert_eq!((shouty.name, shouty.version, shouty.recommended), ("noShoutyConstants", "0.7.0", true));
}
