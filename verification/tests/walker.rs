use lib::ast_parser::ast_parser::{
    ArgsCondition, Head, HeadParam, Node as GNode, NodeParameters, NodeType as GNodeType, Tree,
};
use lib::lexer::tokenizer::{Operators, Tokens};
use lib::tree_walker::tree_walker::{generate_tree, parse_node, Node, NodeType, WalkError};

fn s(x: &str) -> String {
    x.to_string()
}

fn text(x: &str) -> Tokens {
    Tokens::Text(s(x))
}

fn pattern(x: &str) -> Tokens {
    Tokens::String(s(x))
}

fn args(pairs: &[(&str, &str)]) -> NodeParameters {
    NodeParameters { entries: pairs.iter().map(|(k, v)| (s(k), s(v))).collect() }
}

fn expect(kind: Tokens, a: &[(&str, &str)]) -> GNodeType {
    GNodeType::Expect(GNode { kind, arguments: args(a), nodes: vec![] })
}

fn maybe(kind: Tokens, a: &[(&str, &str)], nodes: Vec<GNodeType>) -> GNodeType {
    GNodeType::Maybe(GNode { kind, arguments: args(a), nodes })
}

fn tree(heads: Vec<(&str, Vec<HeadParam>, Vec<GNodeType>)>) -> Tree {
    Tree {
        entries: heads
            .into_iter()
            .map(|(name, parameters, nodes)| (s(name), Head { parameters, nodes }))
            .collect(),
    }
}

fn walk(tokens: &Vec<Tokens>, syntax: &Tree, params: &[(&str, &str)], id: &str) -> (Result<Node, (WalkError, bool)>, usize) {
    let mut idx = 0;
    let r = parse_node(tokens, syntax, &args(params), &mut idx, &s(id));
    (r, idx)
}

fn field<'a>(n: &'a Node, name: &str) -> &'a NodeType {
    &n.nodes.iter().find(|(k, _)| k == name).expect("field").1
}

fn value(n: &Node, name: &str) -> (Tokens, Option<Tokens>) {
    match field(n, name) {
        NodeType::Value(v) => (v.name.clone(), v.data.clone()),
        NodeType::Array(_) => panic!("expected a single value"),
    }
}

fn statement() -> Tree {
    tree(vec![(
        "entry",
        vec![HeadParam::Value(s("name"))],
        vec![
            expect(pattern("let"), &[]),
            expect(pattern("'text"), &[("set", "name")]),
            expect(Tokens::Semicolon, &[]),
        ],
    )])
}

#[test]
fn walk_matches_a_statement() {
    let tokens = vec![text("let"), text("x"), Tokens::Semicolon];
    let (r, idx) = walk(&tokens, &statement(), &[], "entry");
    let n = r.ok().expect("parsed");
    assert_eq!(idx, 3);
    assert_eq!(n.name, text("entry"));
    assert!(n.data.is_none());
    assert_eq!(n.nodes.len(), 1);
    assert_eq!(value(&n, "name"), (text("x"), Some(pattern("'text"))));
}

#[test]
fn generate_tree_starts_at_entry() {
    let tokens = vec![text("let"), text("y"), Tokens::Semicolon];
    let n = generate_tree(&tokens, &statement()).ok().expect("parsed");
    assert_eq!(n.name, text("entry"));
    assert_eq!(value(&n, "name"), (text("y"), Some(pattern("'text"))));
}

#[test]
fn walk_reports_unexpected_token() {
    let tokens = vec![text("var"), text("x"), Tokens::Semicolon];
    let (r, idx) = walk(&tokens, &statement(), &[], "entry");
    match r {
        Err((WalkError::Expected(a, b), hard)) => {
            assert_eq!(a, pattern("let"));
            assert_eq!(b, text("var"));
            assert!(!hard);
        }
        _ => panic!("expected an error"),
    }
    assert_eq!(idx, 0);
}

#[test]
fn walk_reports_end_of_tokens() {
    let (r, idx) = walk(&vec![text("let")], &statement(), &[], "entry");
    assert!(matches!(r, Err((WalkError::FileEnd, false))));
    assert_eq!(idx, 1);
    let (r, _) = walk(&vec![text("let"), text("x")], &statement(), &[], "entry");
    assert!(matches!(r, Err((WalkError::FileEndPeaceful, true))));
}

#[test]
fn walk_unset_value_keeps_placeholder() {
    let syntax = tree(vec![(
        "entry",
        vec![HeadParam::Value(s("neg")), HeadParam::Value(s("name"))],
        vec![
            maybe(Tokens::Operator(Operators::Not), &[("set", "neg")], vec![]),
            expect(pattern("'text"), &[("set", "name")]),
        ],
    )]);
    let (r, idx) = walk(&vec![text("a")], &syntax, &[], "entry");
    let n = r.ok().expect("parsed");
    assert_eq!(idx, 1);
    assert_eq!(value(&n, "neg"), (text("'none"), None));
    assert_eq!(value(&n, "name"), (text("a"), Some(pattern("'text"))));

    let (r, idx) = walk(&vec![Tokens::Operator(Operators::Not), text("a")], &syntax, &[], "entry");
    let n = r.ok().expect("parsed");
    assert_eq!(idx, 2);
    assert_eq!(value(&n, "neg"), (Tokens::Operator(Operators::Not), None));
    assert_eq!(value(&n, "name"), (text("a"), Some(pattern("'text"))));
}

#[test]
fn walk_collects_substructures() {
    let syntax = tree(vec![
        (
            "entry",
            vec![HeadParam::Array(s("items"))],
            vec![
                expect(text("item"), &[("set", "items")]),
                maybe(Tokens::Comma, &[], vec![expect(text("item"), &[("set", "items")])]),
            ],
        ),
        ("item", vec![HeadParam::Value(s("v"))], vec![expect(pattern("'text"), &[("set", "v")])]),
    ]);
    let tokens = vec![text("a"), Tokens::Comma, text("b")];
    let (r, idx) = walk(&tokens, &syntax, &[], "entry");
    let n = r.ok().expect("parsed");
    assert_eq!(idx, 3);
    match field(&n, "items") {
        NodeType::Array(items) => {
            assert_eq!(items.len(), 2);
            assert_eq!(items[0].name, text("item"));
            assert_eq!(value(&items[0], "v"), (text("a"), Some(pattern("'text"))));
            assert_eq!(value(&items[1], "v"), (text("b"), Some(pattern("'text"))));
        }
        NodeType::Value(_) => panic!("expected a list"),
    }
}

#[test]
fn walk_end_argument_chains_out() {
    let syntax = tree(vec![(
        "entry",
        vec![],
        vec![expect(pattern("'any"), &[("end", "true")]), expect(Tokens::Semicolon, &[])],
    )]);
    let (r, idx) = walk(&vec![text("a"), text("b")], &syntax, &[], "entry");
    assert!(r.is_ok());
    assert_eq!(idx, 1);
    let syntax = tree(vec![(
        "entry",
        vec![],
        vec![expect(pattern("'any"), &[("end", "no")]), expect(Tokens::Semicolon, &[])],
    )]);
    let (r, idx) = walk(&vec![text("a"), text("b")], &syntax, &[], "entry");
    assert!(r.is_ok());
    assert_eq!(idx, 0);
}

#[test]
fn walk_err_argument_and_hard_errors() {
    let syntax = tree(vec![("entry", vec![], vec![expect(pattern("'any"), &[("err", "bad")])])]);
    match walk(&vec![text("a")], &syntax, &[], "entry").0 {
        Err((WalkError::Msg(m), hard)) => {
            assert_eq!(m, "bad");
            assert!(!hard);
        }
        _ => panic!("expected a message"),
    }
    let syntax = tree(vec![(
        "entry",
        vec![],
        vec![expect(pattern("'any"), &[("harderr", "true"), ("err", "bad")])],
    )]);
    assert!(matches!(walk(&vec![text("a")], &syntax, &[], "entry").0, Err((WalkError::Msg(_), true))));
}

#[test]
fn walk_args_condition_follows_parameters() {
    let syntax = tree(vec![(
        "entry",
        vec![],
        vec![GNodeType::ArgsCondition(ArgsCondition {
            params: args(&[("mode", "a")]),
            nodes: vec![expect(pattern("x"), &[])],
        })],
    )]);
    let tokens = vec![text("x")];
    let (r, idx) = walk(&tokens, &syntax, &[("mode", "a")], "entry");
    assert!(r.is_ok());
    assert_eq!(idx, 1);
    let (r, idx) = walk(&tokens, &syntax, &[("mode", "b")], "entry");
    assert!(r.is_ok());
    assert_eq!(idx, 0);
    let (r, idx) = walk(&tokens, &syntax, &[], "entry");
    assert!(r.is_ok());
    assert_eq!(idx, 0);
}

#[test]
fn walk_pass_lands_on_stop() {
    let syntax = tree(vec![
        ("entry", vec![], vec![expect(text("sub"), &[]), expect(pattern("'text"), &[("stop", "skip")])]),
        ("sub", vec![], vec![expect(pattern("'any"), &[("pass", "skip")])]),
    ]);
    let (r, idx) = walk(&vec![text("a"), text("b")], &syntax, &[], "entry");
    assert!(r.is_ok());
    assert_eq!(idx, 1);

    let syntax = tree(vec![
        ("entry", vec![], vec![expect(text("sub"), &[]), expect(pattern("'text"), &[("stop", "other")])]),
        ("sub", vec![], vec![expect(pattern("'any"), &[("pass", "skip")])]),
    ]);
    match walk(&vec![text("a"), text("b")], &syntax, &[], "entry").0 {
        Err((WalkError::Msg(m), false)) => assert_eq!(m, "Could not find break with matching name"),
        _ => panic!("expected a message"),
    }
}

#[test]
fn walk_optional_substructure_recovers() {
    let syntax = tree(vec![
        ("entry", vec![], vec![maybe(text("sub"), &[], vec![]), expect(pattern("b"), &[])]),
        ("sub", vec![], vec![expect(pattern("a"), &[])]),
    ]);
    let (r, idx) = walk(&vec![text("b")], &syntax, &[], "entry");
    assert!(r.is_ok());
    assert_eq!(idx, 1);

    let syntax = tree(vec![
        ("entry", vec![], vec![expect(text("sub"), &[]), expect(pattern("b"), &[])]),
        ("sub", vec![], vec![expect(pattern("a"), &[])]),
    ]);
    match walk(&vec![text("b")], &syntax, &[], "entry").0 {
        Err((WalkError::Expected(a, b), false)) => {
            assert_eq!(a, pattern("a"));
            assert_eq!(b, text("b"));
        }
        _ => panic!("expected an error"),
    }
}

#[test]
fn walk_back_argument_repeats_nodes() {
    let syntax = tree(vec![(
        "entry",
        vec![],
        vec![expect(pattern("a"), &[]), expect(pattern("b"), &[("back", "1")])],
    )]);
    let tokens = vec![text("a"), text("b"), text("a"), text("b"), text("c")];
    match walk(&tokens, &syntax, &[], "entry") {
        (Err((WalkError::Expected(a, b), false)), idx) => {
            assert_eq!(a, pattern("a"));
            assert_eq!(b, text("c"));
            assert_eq!(idx, 4);
        }
        _ => panic!("expected an error"),
    }
    let tokens = vec![text("a"), text("b"), text("a"), text("b")];
    assert!(matches!(walk(&tokens, &syntax, &[], "entry"), (Err((WalkError::FileEnd, false)), 4)));

    let syntax = tree(vec![(
        "entry",
        vec![],
        vec![expect(pattern("a"), &[]), expect(pattern("b"), &[("back", "5")])],
    )]);
    let (r, idx) = walk(&vec![text("a"), text("b")], &syntax, &[], "entry");
    assert!(r.is_ok());
    assert_eq!(idx, 2);
}

#[test]
fn walk_advance_and_peek_arguments() {
    let syntax = tree(vec![(
        "entry",
        vec![],
        vec![expect(pattern("a"), &[("advance", "2")]), expect(pattern("d"), &[])],
    )]);
    let tokens = vec![text("a"), text("b"), text("c"), text("d")];
    let (r, idx) = walk(&tokens, &syntax, &[], "entry");
    assert!(r.is_ok());
    assert_eq!(idx, 4);

    let syntax = tree(vec![(
        "entry",
        vec![],
        vec![expect(pattern("a"), &[("advance", "x")]), expect(pattern("c"), &[])],
    )]);
    let (r, idx) = walk(&vec![text("a"), text("b"), text("c")], &syntax, &[], "entry");
    assert!(r.is_ok());
    assert_eq!(idx, 3);

    let syntax = tree(vec![(
        "entry",
        vec![],
        vec![expect(pattern("a"), &[("peek", "")]), expect(pattern("a"), &[])],
    )]);
    let (r, idx) = walk(&vec![text("a")], &syntax, &[], "entry");
    assert!(r.is_ok());
    assert_eq!(idx, 1);
}

#[test]
fn walk_patterns_by_kind() {
    let syntax = tree(vec![(
        "entry",
        vec![],
        vec![
            expect(pattern("'string"), &[]),
            expect(pattern("'number"), &[]),
            expect(pattern("'char"), &[]),
            expect(Tokens::Tab, &[]),
        ],
    )]);
    let tokens = vec![Tokens::String(s("q")), Tokens::Number(1, 2, 'u'), Tokens::Char('c'), Tokens::Tab];
    let (r, idx) = walk(&tokens, &syntax, &[], "entry");
    assert!(r.is_ok());
    assert_eq!(idx, 4);
    let tokens = vec![Tokens::String(s("q")), text("1")];
    match walk(&tokens, &syntax, &[], "entry").0 {
        Err((WalkError::Expected(a, b), false)) => {
            assert_eq!(a, pattern("'number"));
            assert_eq!(b, text("1"));
        }
        _ => panic!("expected an error"),
    }
}

#[test]
fn walk_node_has_declared_fields() {
    let syntax = tree(vec![(
        "entry",
        vec![
            HeadParam::Value(s("a")),
            HeadParam::Array(s("b")),
            HeadParam::Array(s("a")),
            HeadParam::Value(s("c")),
        ],
        vec![expect(pattern("'any"), &[("set", "b")]), expect(pattern("'any"), &[])],
    )]);
    let mut idx = 1;
    let r = parse_node(&vec![text("p"), text("q"), text("r")], &syntax, &args(&[]), &mut idx, &s("entry"));
    let n = r.ok().expect("parsed");
    assert!(idx >= 1);
    assert_eq!(idx, 3);
    let names: Vec<&str> = n.nodes.iter().map(|(k, _)| k.as_str()).collect();
    assert_eq!(names, vec!["a", "b", "c"]);
    match field(&n, "a") {
        NodeType::Array(v) => assert!(v.is_empty()),
        NodeType::Value(_) => panic!("a later parameter takes the place of an earlier one"),
    }
    match field(&n, "b") {
        NodeType::Array(v) => {
            assert_eq!(v.len(), 1);
            assert_eq!(v[0].name, text("q"));
        }
        NodeType::Value(_) => panic!("expected a list"),
    }
}
