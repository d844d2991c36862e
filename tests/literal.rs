use search::literal::Literal;

#[test]
fn can_create_root_literal() {
    let root = Literal::root();
    assert_eq!(root.to_string(), "root");
}

#[test]
fn can_create_nested() {
    let root = Literal::root();
    let verb = Literal::new(root, "verb");

    println!("{}", verb.to_string());
    assert_eq!(verb.to_string(), "root.verb");
}

#[test]
fn nested_literal_writes_the_whole_path() {
    let past = Literal::new(Literal::new(Literal::root(), "verb"), "past");
    assert_eq!(past.to_string(), "root.verb.past");
    assert!(past.parent.is_some());
    assert_eq!(past.name, "past");
}
