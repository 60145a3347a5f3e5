use askl::cfg::{ControlFlowGraph, NodeList};
use askl::framing::{new_request_buf, parse_content_length};
use askl::parser::{build_statement, Production};
use askl::statement::{DefaultStatement, Scope};
use askl::symbols::{FileHash, SourceRange, Symbol, SymbolId, SymbolMap};
use askl::verb::Verb;

fn id(s: &str) -> SymbolId {
    SymbolId::new(s.to_string())
}

fn range(file: &str, line: u64) -> SourceRange {
    SourceRange {
        file: FileHash::new(file),
        begin_line: line,
        begin_col: 1,
        end_line: line,
        end_col: 10,
    }
}

fn sym(name: &str, children: Vec<&str>) -> Symbol {
    let kids = children.into_iter().map(id).collect::<Vec<_>>();
    Symbol::new(name.to_string(), vec![range("f.c", 1)], kids)
}

/// A store where each entry is (id, name, children).
fn store(entries: Vec<(&str, &str, Vec<&str>)>) -> SymbolMap {
    let mut m = SymbolMap::new();
    for (i, name, kids) in entries {
        m.add(id(i), sym(name, kids)).expect("no conflict");
    }
    m
}

fn contains(v: &Vec<SymbolId>, s: &str) -> bool {
    v.iter().any(|x| *x == id(s))
}

#[test]
fn merge_idempotent() {
    let mut s = store(vec![("A", "a", vec!["B"]), ("B", "b", vec![])]);
    let copy = s.clone();
    s.merge(copy).expect("self-merge succeeds");
    assert_eq!(s.len(), 2);
    let a = s.get(&id("A")).expect("A present");
    assert_eq!(a.name, "a");
    assert_eq!(a.ranges.len(), 1);
    let kids = s.get_children(&id("A"));
    assert_eq!(kids.len(), 1);
    assert!(contains(&kids, "B"));
}

#[test]
fn merge_union() {
    let mut s1 = store(vec![("A", "a", vec!["B"])]);
    let s2 = store(vec![("A", "a", vec!["C"])]);
    s1.merge(s2).expect("no conflict");
    let kids = s1.get_children(&id("A"));
    assert_eq!(kids.len(), 2);
    assert!(contains(&kids, "B"));
    assert!(contains(&kids, "C"));
}

#[test]
fn merge_ranges_unioned() {
    let mut s1 = SymbolMap::new();
    s1.add(id("A"), Symbol::new("a".to_string(), vec![range("f.c", 1)], vec![]))
        .unwrap();
    let mut s2 = SymbolMap::new();
    s2.add(
        id("A"),
        Symbol::new("a".to_string(), vec![range("f.c", 1), range("g.c", 2)], vec![]),
    )
    .unwrap();
    s1.merge(s2).unwrap();
    let a = s1.get(&id("A")).unwrap();
    // the shared range collapses; the new one is appended
    assert_eq!(a.ranges.len(), 2);
}

#[test]
fn merge_conflict() {
    let mut s1 = store(vec![("A", "foo", vec![])]);
    let s2 = store(vec![("A", "bar", vec![])]);
    let err = s1.merge(s2).expect_err("conflicting names must fail");
    assert_eq!(err.id, id("A"));
    assert_eq!(err.existing, "foo");
    assert_eq!(err.incoming, "bar");
    // the store is left unchanged
    assert_eq!(s1.get(&id("A")).unwrap().name, "foo");
}

#[test]
fn add_conflict() {
    let mut s = store(vec![("A", "foo", vec![])]);
    let err = s.add(id("A"), sym("bar", vec![])).expect_err("name mismatch");
    assert_eq!(err.existing, "foo");
    assert_eq!(err.incoming, "bar");
}

#[test]
fn edge_derivation() {
    let g = ControlFlowGraph::from_symbols(store(vec![
        ("A", "a", vec!["B"]),
        ("B", "b", vec![]),
    ]));
    let a_kids = g.get_children(&id("A"));
    assert_eq!(a_kids.len(), 1);
    assert!(contains(&a_kids, "B"));
    // and no other edges exist
    assert_eq!(g.get_children(&id("B")).len(), 0);
}

#[test]
fn unknown_child_is_a_node() {
    // B has no record of its own: it is a node reachable only structurally
    let g = ControlFlowGraph::from_symbols(store(vec![("A", "a", vec!["B"])]));
    assert!(g.get_symbol(&id("B")).is_none());
    let kids = g.get_children(&id("A"));
    assert!(contains(&kids, "B"));
}

#[test]
fn trivial_path() {
    let g = ControlFlowGraph::from_symbols(store(vec![("X", "x", vec![])]));
    let paths = g.find_paths(&id("X"), &id("X"), None);
    assert_eq!(paths.len(), 1);
    assert_eq!(paths[0], vec![id("X")]);
}

#[test]
fn no_path() {
    let g = ControlFlowGraph::from_symbols(store(vec![
        ("X", "x", vec![]),
        ("Y", "y", vec![]),
    ]));
    let paths = g.find_paths(&id("X"), &id("Y"), None);
    assert_eq!(paths.len(), 0);
}

#[test]
fn bounded_path() {
    let g = ControlFlowGraph::from_symbols(store(vec![
        ("A", "a", vec!["B"]),
        ("B", "b", vec!["C"]),
        ("C", "c", vec!["D"]),
        ("D", "d", vec![]),
    ]));
    let none = g.find_paths(&id("A"), &id("D"), Some(0));
    assert_eq!(none.len(), 0);
    let some = g.find_paths(&id("A"), &id("D"), Some(2));
    assert_eq!(some.len(), 1);
    assert_eq!(some[0], vec![id("A"), id("B"), id("C"), id("D")]);
}

#[test]
fn all_match_verb() {
    let s = store(vec![
        ("A", "a", vec![]),
        ("B", "b", vec![]),
        ("C", "c", vec![]),
    ]);
    let n = s.len();
    let g = ControlFlowGraph::from_symbols(s);
    let stmt = DefaultStatement { verb: Verb::All, scope: Scope::Empty };
    let (nodes, _) = stmt.run(&g);
    assert_eq!(nodes.0.len(), n);
}

#[test]
fn empty_scope_identity() {
    let g = ControlFlowGraph::from_symbols(store(vec![
        ("A", "a", vec!["B"]),
        ("B", "b", vec![]),
    ]));
    let outer = NodeList(vec![id("A"), id("B"), id("A")]);
    let anything = NodeList(vec![id("B")]);
    let (nodes, edges) = Scope::Empty.combine(&g, outer, anything);
    assert_eq!(nodes.0, vec![id("A"), id("B"), id("A")]);
    assert_eq!(edges.0.len(), 0);
}

#[test]
fn end_to_end() {
    let g = ControlFlowGraph::from_symbols(store(vec![
        ("A", "a", vec!["B"]),
        ("B", "b", vec!["C"]),
        ("C", "c", vec![]),
    ]));
    let stmt = DefaultStatement { verb: Verb::All, scope: Scope::Empty };
    let (nodes, edges) = stmt.run(&g);
    assert_eq!(nodes.0.len(), 3);
    assert!(contains(&nodes.0, "A"));
    assert!(contains(&nodes.0, "B"));
    assert!(contains(&nodes.0, "C"));
    assert_eq!(edges.0.len(), 0);
    let paths = g.find_paths(&id("A"), &id("C"), None);
    assert_eq!(paths.len(), 1);
    assert_eq!(paths[0], vec![id("A"), id("B"), id("C")]);
}

#[test]
fn named_verb_selects_by_name() {
    let g = ControlFlowGraph::from_symbols(store(vec![
        ("A", "foo", vec![]),
        ("B", "bar", vec![]),
    ]));
    let stmt = build_statement("foo").expect("parses");
    let (nodes, _) = stmt.run(&g);
    assert_eq!(nodes.0, vec![id("A")]);
}

#[test]
fn nested_scope_narrows_by_edge() {
    let g = ControlFlowGraph::from_symbols(store(vec![
        ("A", "alpha", vec!["B"]),
        ("B", "beta", vec![]),
        ("C", "gamma", vec![]),
    ]));
    // every symbol, narrowed to those with an edge to a "beta" match
    let stmt = build_statement("* { beta }").expect("parses");
    let (nodes, edges) = stmt.run(&g);
    assert_eq!(nodes.0, vec![id("A")]);
    assert_eq!(edges.0, vec![(id("A"), id("B"))]);
}

#[test]
fn find_matches_filters_children() {
    let g = ControlFlowGraph::from_symbols(store(vec![
        ("A", "alpha", vec!["B", "C"]),
        ("B", "beta", vec![]),
        ("C", "gamma", vec![]),
    ]));
    let stmt = DefaultStatement { verb: Verb::Named("beta".to_string()), scope: Scope::Empty };
    let (nodes, edges) = stmt.find_matches(&g, id("A"));
    assert_eq!(nodes.0, vec![id("B")]);
    assert_eq!(edges.0.len(), 0);
}

#[test]
fn parse_defaults() {
    let stmt = build_statement("").expect("empty text is the default statement");
    assert!(matches!(stmt.verb, Verb::All));
    assert!(matches!(stmt.scope, Scope::Empty));
    let star = build_statement(" * ").expect("star is the all verb");
    assert!(matches!(star.verb, Verb::All));
}

#[test]
fn parse_verb_and_scope() {
    let stmt = build_statement("foo { bar baz }").expect("parses");
    match &stmt.verb {
        Verb::Named(n) => assert_eq!(n, "foo"),
        Verb::All => panic!("expected a named verb"),
    }
    match &stmt.scope {
        Scope::Block(inner) => {
            assert_eq!(inner.len(), 2);
            match &inner[0].verb {
                Verb::Named(n) => assert_eq!(n, "bar"),
                Verb::All => panic!("expected a named verb"),
            }
        }
        Scope::Empty => panic!("expected a scope block"),
    }
}

#[test]
fn parse_failure_names_productions_and_span() {
    let err = build_statement("foo !").expect_err("bad token");
    assert_eq!(err.expected, vec![Production::Verb, Production::Scope]);
    assert_eq!(err.found, "!");
    assert_eq!((err.span_start, err.span_end), (4, 5));
}

#[test]
fn parse_failure_unclosed_scope() {
    assert!(build_statement("foo {").is_err());
    assert!(build_statement("}").is_err());
}

#[test]
fn parse_failure_empty_scope() {
    // a scope-clause nests one or more statements
    assert!(build_statement("foo {}").is_err());
    assert!(build_statement("{}").is_err());
    let err = build_statement("* {}").expect_err("empty scope block");
    assert_eq!(err.expected, vec![Production::Verb, Production::Scope]);
}

#[test]
fn file_hash_is_deterministic() {
    assert_eq!(FileHash::new("src/a.c"), FileHash::new("src/a.c"));
}

#[test]
fn symbol_ids_compare_by_content() {
    assert_eq!(id("A"), id("A"));
    assert!(id("A") != id("B"));
}

#[test]
fn request_framing() {
    let buf = new_request_buf("hello");
    assert_eq!(buf, b"Content-Length: 5\r\n\r\nhello".to_vec());
    let empty = new_request_buf("");
    assert_eq!(empty, b"Content-Length: 0\r\n\r\n".to_vec());
}

#[test]
fn store_iteration_and_ids() {
    let s = store(vec![("A", "a", vec![]), ("B", "b", vec![])]);
    let ids = s.into_vec();
    assert_eq!(ids.len(), 2);
    assert!(contains(&ids, "A"));
    assert!(contains(&ids, "B"));
    assert_eq!(s.iter().len(), 2);
}

#[test]
fn content_length_header() {
    assert_eq!(parse_content_length("Content-Length: 123\r\n"), Some(123));
    assert_eq!(parse_content_length("Content-Length:0"), Some(0));
    assert_eq!(parse_content_length("Content-Type: 5"), None);
    assert_eq!(parse_content_length("Content-Length: "), None);
    assert_eq!(parse_content_length("Content-Length: 12a"), None);
    assert_eq!(
        parse_content_length("Content-Length: 99999999999999999999999"),
        None
    );
}
