use yaml_from_env::engine::ResolveError;
use yaml_from_env::env::Env;
use yaml_from_env::node::Node;

fn text(s: &str) -> Node {
    Node::Text(String::from(s))
}

#[test]
fn test_process_node_no_replace() {
    // A document with no placeholder anywhere:
    // key1:
    //     value: abc
    // key2: def
    // key3: [ 1, 2, 3]
    let doc = Node::Mapping(vec![
        (text("key1"), Node::Mapping(vec![(text("value"), text("abc"))])),
        (text("key2"), text("def")),
        (
            text("key3"),
            Node::Sequence(vec![Node::Integer(1), Node::Integer(2), Node::Integer(3)]),
        ),
    ]);
    let env = Env::new();
    let result = doc.resolve(&env).unwrap();
    println!("{:?}", result);
}

#[test]
fn test_process_node_replace() {
    // key: ${HOME}
    let home = String::from("/home/somebody");
    let mut env = Env::new();
    env.insert(String::from("HOME"), home.clone());
    let doc = Node::Mapping(vec![(text("key"), text("${HOME}"))]);
    let result = doc.resolve(&env).unwrap();
    match result {
        Node::Mapping(pairs) => {
            assert_eq!(pairs.len(), 1);
            assert_eq!(pairs[0].0, text("key"));
            assert_eq!(pairs[0].1, Node::Text(home));
        }
        other => panic!("expected a mapping, got {:?}", other),
    }
}

#[test]
fn non_placeholder_text_is_kept() {
    let mut env = Env::new();
    env.insert(String::from("FOO"), String::from("bar"));
    for s in [
        "plain",
        "",
        "prefix-${FOO}-suffix",
        "${FOO",
        "FOO}",
        "$FOO",
        "{FOO}",
        "${",
        "$",
        "x${FOO}",
        "${FOO}x",
    ] {
        assert_eq!(text(s).resolve(&env).unwrap(), text(s));
    }
}

#[test]
fn non_text_scalars_are_kept() {
    let env = Env::new();
    assert_eq!(Node::Null.resolve(&env).unwrap(), Node::Null);
    assert_eq!(Node::Boolean(true).resolve(&env).unwrap(), Node::Boolean(true));
    assert_eq!(Node::Integer(-7).resolve(&env).unwrap(), Node::Integer(-7));
    assert_eq!(
        Node::Real(String::from("3.25")).resolve(&env).unwrap(),
        Node::Real(String::from("3.25"))
    );
    assert_eq!(Node::BadValue.resolve(&env).unwrap(), Node::BadValue);
    assert_eq!(Node::Alias(4).resolve(&env).unwrap(), Node::Alias(4));
}

#[test]
fn resolves_whole_string_placeholder() {
    let mut env = Env::new();
    env.insert(String::from("FOO"), String::from("bar"));
    assert_eq!(text("${FOO}").resolve(&env).unwrap(), text("bar"));
}

#[test]
fn trims_whitespace_around_the_name() {
    let mut env = Env::new();
    env.insert(String::from("FOO"), String::from("bar"));
    assert_eq!(text("${ FOO }").resolve(&env).unwrap(), text("bar"));
    assert_eq!(text("${\tFOO\n}").resolve(&env).unwrap(), text("bar"));
    assert_eq!(text("${   FOO}").resolve(&env).unwrap(), text("bar"));
}

#[test]
fn fails_fast_on_missing_variable() {
    let mut env = Env::new();
    env.insert(String::from("PRESENT"), String::from("yes"));
    let r = text("${MISSING}").resolve(&env);
    assert_eq!(
        r,
        Err(ResolveError::UnresolvedVariable(String::from("MISSING")))
    );
    // The first unresolved variable in depth-first order names the error,
    // and no partial document comes back.
    let doc = Node::Sequence(vec![
        text("${PRESENT}"),
        text("${FIRST_MISSING}"),
        text("${SECOND_MISSING}"),
    ]);
    assert_eq!(
        doc.resolve(&env),
        Err(ResolveError::UnresolvedVariable(String::from("FIRST_MISSING")))
    );
}

#[test]
fn value_is_taken_verbatim_not_coerced() {
    let mut env = Env::new();
    env.insert(String::from("PORT"), String::from("8080"));
    // A numeric-looking value stays a text scalar.
    assert_eq!(text("${PORT}").resolve(&env).unwrap(), text("8080"));
}

#[test]
fn later_binding_shadows_earlier_one() {
    let mut env = Env::new();
    env.insert(String::from("X"), String::from("old"));
    env.insert(String::from("X"), String::from("new"));
    assert_eq!(text("${X}").resolve(&env).unwrap(), text("new"));
}

#[test]
fn empty_name_placeholder_looks_up_the_empty_string() {
    // "${}" is a placeholder whose trimmed name is empty; without a binding
    // for the empty name it is an error.
    let env = Env::new();
    assert_eq!(
        text("${}").resolve(&env),
        Err(ResolveError::UnresolvedVariable(String::from("")))
    );
    let mut env2 = Env::new();
    env2.insert(String::from(""), String::from("empty-name"));
    assert_eq!(text("${}").resolve(&env2).unwrap(), text("empty-name"));
    assert_eq!(
        text("${ }").resolve(&env2).unwrap(),
        text("empty-name")
    );
}

#[test]
fn mapping_order_is_preserved() {
    // {key2: ${A}, key1: ${B}} keeps key2 before key1.
    let mut env = Env::new();
    env.insert(String::from("A"), String::from("1"));
    env.insert(String::from("B"), String::from("2"));
    let doc = Node::Mapping(vec![
        (text("key2"), text("${A}")),
        (text("key1"), text("${B}")),
    ]);
    let expected = Node::Mapping(vec![
        (text("key2"), text("1")),
        (text("key1"), text("2")),
    ]);
    assert_eq!(doc.resolve(&env).unwrap(), expected);
}

#[test]
fn keys_are_never_substituted() {
    let mut env = Env::new();
    env.insert(String::from("K"), String::from("replaced")) ;
    let doc = Node::Mapping(vec![(text("${K}"), text("${K}"))]);
    let expected = Node::Mapping(vec![(text("${K}"), text("replaced"))]);
    assert_eq!(doc.resolve(&env).unwrap(), expected);
}

#[test]
fn nested_structures_resolve_at_every_depth() {
    // A sequence holding a mapping holding a further sequence, with a
    // placeholder at every text leaf.
    let mut env = Env::new();
    env.insert(String::from("A"), String::from("alpha"));
    env.insert(String::from("B"), String::from("beta"));
    env.insert(String::from("C"), String::from("gamma"));
    let doc = Node::Sequence(vec![
        text("${A}"),
        Node::Mapping(vec![
            (text("k"), Node::Sequence(vec![text("${B}"), text("${C}"), Node::Null])),
        ]),
    ]);
    let expected = Node::Sequence(vec![
        text("alpha"),
        Node::Mapping(vec![
            (text("k"), Node::Sequence(vec![text("beta"), text("gamma"), Node::Null])),
        ]),
    ]);
    assert_eq!(doc.resolve(&env).unwrap(), expected);
    // A failure deep inside aborts the whole document.
    let bad = Node::Sequence(vec![Node::Mapping(vec![(text("k"), text("${NOPE}"))])]);
    assert_eq!(
        bad.resolve(&env),
        Err(ResolveError::UnresolvedVariable(String::from("NOPE")))
    );
}

#[test]
fn resolving_twice_changes_nothing_more() {
    let mut env = Env::new();
    env.insert(String::from("FOO"), String::from("bar"));
    let doc = Node::Mapping(vec![
        (text("a"), text("${FOO}")),
        (text("b"), Node::Sequence(vec![text("plain"), Node::Integer(1)])),
    ]);
    let once = doc.resolve(&env).unwrap();
    let twice = once.resolve(&env).unwrap();
    assert_eq!(once, twice);
}

#[test]
fn structure_is_preserved_on_success() {
    let mut env = Env::new();
    env.insert(String::from("V"), String::from("w"));
    let doc = Node::Sequence(vec![
        text("${V}"),
        Node::Integer(9),
        Node::Sequence(vec![]),
        Node::Mapping(vec![(Node::Integer(1), text("${V}"))]),
    ]);
    let out = doc.resolve(&env).unwrap();
    match (&doc, &out) {
        (Node::Sequence(a), Node::Sequence(b)) => {
            assert_eq!(a.len(), b.len());
            match (&a[3], &b[3]) {
                (Node::Mapping(p), Node::Mapping(q)) => {
                    assert_eq!(p.len(), q.len());
                    assert_eq!(p[0].0, q[0].0);
                }
                _ => panic!("mapping expected"),
            }
        }
        _ => panic!("sequence expected"),
    }
}

#[test]
fn duplicate_copies_the_whole_tree() {
    let doc = Node::Mapping(vec![
        (text("k"), Node::Sequence(vec![text("v"), Node::Boolean(false)])),
        (Node::Integer(3), Node::Real(String::from("1.5"))),
    ]);
    assert_eq!(doc.duplicate(), doc);
}

#[test]
fn lookup_finds_only_bound_names() {
    let mut env = Env::new();
    env.insert(String::from("A"), String::from("1"));
    env.insert(String::from("B"), String::from("2"));
    assert_eq!(env.lookup(&String::from("A")), Some(String::from("1")));
    assert_eq!(env.lookup(&String::from("B")), Some(String::from("2")));
    assert_eq!(env.lookup(&String::from("C")), None);
}
