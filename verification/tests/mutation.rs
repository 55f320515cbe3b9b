use syntax_core::js::parse_js;
use syntax_core::kind::NodeKind;
use syntax_core::mutation::{BatchMutation, MutationError};
use syntax_core::traverse::path_is_prefix;
use syntax_core::no_shouty_constants::remove_declarator;
use syntax_core::syntax::SyntaxNode;
use syntax_core::traverse::{collect, Filter};

fn declarators(root: &SyntaxNode) -> Vec<Vec<usize>> {
    collect(root, &Filter::of_kind(NodeKind::JsVariableDeclarator))
}

fn remove(src: &[u8], which: usize) -> Vec<u8> {
    let parse = parse_js(src);
    let root = parse.tree();
    let mut batch = BatchMutation::new();
    assert_eq!(remove_declarator(&mut batch, root, &declarators(root)[which]), Some(()));
    batch.commit(root).unwrap().text()
}

#[test]
fn removing_the_only_declarator_removes_the_statement() {
    assert_eq!(remove(b"const FOO = \"FOO\";", 0).as_slice(), b"");
    assert_eq!(remove(b"a; const FOO = \"FOO\"; b", 0).as_slice(), b"a; b");
}

#[test]
fn removing_a_declarator_that_is_not_last_takes_its_comma() {
    assert_eq!(remove(b"const FOO = \"FOO\", BAR = 1;", 0).as_slice(), b"const BAR = 1;");
    assert_eq!(remove(b"const a = 1, b = 2, c = 3;", 1).as_slice(), b"const a = 1, c = 3;");
}

#[test]
fn removing_the_last_declarator_takes_the_comma_before_it() {
    assert_eq!(remove(b"const BAR = 1, FOO = \"FOO\";", 1).as_slice(), b"const BAR = 1;");
    assert_eq!(remove(b"const a = 1, b = 2, c = 3;", 2).as_slice(), b"const a = 1, b = 2;");
}

#[test]
fn list_repair_asks_for_the_expected_edits() {
    let parse = parse_js(b"const a = 1, b = 2;");
    let root = parse.tree();
    let paths = declarators(root);
    let mut first = BatchMutation::new();
    remove_declarator(&mut first, root, &paths[0]);
    assert_eq!(first.len(), 2);
    let mut last = BatchMutation::new();
    remove_declarator(&mut last, root, &paths[1]);
    assert_eq!(last.len(), 2);
    assert_eq!(first.edits()[1].path(), last.edits()[1].path());
}

#[test]
fn declarator_outside_a_statement_is_left_alone() {
    let parse = parse_js(b"for (const el of els) { }");
    let root = parse.tree();
    let mut batch = BatchMutation::new();
    assert_eq!(remove_declarator(&mut batch, root, &declarators(root)[0]), None);
    assert_eq!(batch.len(), 0);
    assert_eq!(remove_declarator(&mut batch, root, &[0]), None);
    assert_eq!(remove_declarator(&mut batch, root, &[]), None);
    assert_eq!(batch.len(), 0);
}

#[test]
fn empty_batch_changes_nothing() {
    let parse = parse_js(b"const a = 1; // keep\n f(a)");
    let root = parse.tree();
    let tree = BatchMutation::new().commit(root).unwrap();
    assert_eq!(&tree, root);
}

#[test]
fn untouched_tokens_keep_their_trivia() {
    let src = b"/* head */ const a = 1 /* one */, b = 2; // tail\n f(a) // end";
    let parse = parse_js(src);
    let root = parse.tree();
    let mut batch = BatchMutation::new();
    remove_declarator(&mut batch, root, &declarators(root)[1]);
    let tree = batch.commit(root).unwrap();
    assert_eq!(tree.text().as_slice(), b"/* head */ const a = 1 /* one */; // tail\n f(a) // end");
    assert_eq!(root.text().as_slice(), src);
}

#[test]
fn replacing_a_node_puts_the_new_one_in_its_place() {
    let parse = parse_js(b"f(a, b)");
    let root = parse.tree();
    let replacement = parse_js(b"\"s\"");
    let literal = replacement.tree().node_at(&[0, 0, 0]).unwrap().clone();
    assert_eq!(literal.kind(), NodeKind::JsStringLiteralExpression);
    let arguments = collect(root, &Filter::of_kind(NodeKind::JsIdentifierExpression));
    let mut batch = BatchMutation::new();
    assert_eq!(arguments.len(), 3);
    batch.replace_node(&arguments[2], literal);
    let tree = batch.commit(root).unwrap();
    assert_eq!(tree.text().as_slice(), b"f(a, \"s\")");
    assert_eq!(parse.tree().text().as_slice(), b"f(a, b)");
}

#[test]
fn edit_that_names_nothing_rejects_the_batch() {
    let parse = parse_js(b"f(a)");
    let root = parse.tree();
    let mut batch = BatchMutation::new();
    batch.remove_node(&[0, 0]);
    batch.remove_node(&[0, 7]);
    assert_eq!(batch.commit(root), Err(MutationError::NotFound));
    let mut at_root = BatchMutation::new();
    at_root.remove_node(&[]);
    assert_eq!(at_root.commit(root), Err(MutationError::NotFound));
    let mut wrong_sort = BatchMutation::new();
    wrong_sort.remove_token(&[0]);
    assert_eq!(wrong_sort.commit(root), Err(MutationError::NotFound));
    let mut token_as_node = BatchMutation::new();
    token_as_node.remove_node(&[1]);
    assert_eq!(token_as_node.commit(root), Err(MutationError::NotFound));
}

#[test]
fn edits_that_overlap_reject_the_batch() {
    let parse = parse_js(b"f(a); g(b)");
    let root = parse.tree();
    let mut nested = BatchMutation::new();
    nested.remove_node(&[0, 0, 0]);
    nested.remove_node(&[0, 0]);
    assert_eq!(nested.commit(root), Err(MutationError::Conflict));
    let mut twice = BatchMutation::new();
    twice.remove_node(&[0, 1]);
    twice.remove_node(&[0, 1]);
    assert_eq!(twice.commit(root), Err(MutationError::Conflict));
    let mut apart = BatchMutation::new();
    apart.remove_node(&[0, 0]);
    apart.remove_node(&[0, 1]);
    assert_eq!(apart.commit(root).unwrap().text().as_slice(), b"");
}

#[test]
fn edits_of_several_signals_combine() {
    let src = b"const a = 1, b = 2; const c = 3, d = 4;";
    let parse = parse_js(src);
    let root = parse.tree();
    let paths = declarators(root);
    let mut batch = BatchMutation::new();
    remove_declarator(&mut batch, root, &paths[3]);
    remove_declarator(&mut batch, root, &paths[0]);
    assert_eq!(batch.commit(root).unwrap().text().as_slice(), b"const b = 2; const c = 3;");
}

#[test]
fn prefix_of_a_path() {
    assert!(path_is_prefix(&[], &[1]));
    assert!(path_is_prefix(&[1, 2], &[1, 2]));
    assert!(path_is_prefix(&[1], &[1, 2]));
    assert!(!path_is_prefix(&[1, 2], &[1]));
    assert!(!path_is_prefix(&[2], &[1, 2]));
}

#[test]
fn inserting_before_an_element_keeps_the_element() {
    let parse = parse_js(b"f(b)");
    let root = parse.tree();
    let other = parse_js(b"a, ");
    let inserted = other.tree().clone();
    let arguments = collect(root, &Filter::of_kind(NodeKind::JsIdentifierExpression));
    let mut batch = BatchMutation::new();
    batch.insert_before(&arguments[1], inserted);
    assert_eq!(batch.len(), 1);
    assert_eq!(batch.commit(root).unwrap().text().as_slice(), b"f(a, b)");
    let mut nowhere = BatchMutation::new();
    nowhere.insert_before(&[4, 4], other.tree().clone());
    assert_eq!(nowhere.commit(root), Err(MutationError::NotFound));
    let mut before_token = BatchMutation::new();
    before_token.insert_before(&[1], other.tree().clone());
    assert_eq!(before_token.commit(root).unwrap().text().as_slice(), b"f(b)a, ");
}

#[test]
fn untouched_subtrees_are_shared_with_the_new_tree() {
    let parse = parse_js(b"f(a); g(b)");
    let root = parse.tree();
    let mut batch = BatchMutation::new();
    batch.remove_node(&[0, 0]);
    let tree = batch.commit(root).unwrap();
    assert_eq!(tree.text().as_slice(), b"g(b)");
    let kept_before = root.node_at(&[0, 1]).unwrap();
    let kept_after = tree.node_at(&[0, 0]).unwrap();
    assert!(std::ptr::eq(kept_before, kept_after));
}
