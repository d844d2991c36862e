use search::fact::{
    literal_to_string, object_to_string, Fact, FactError, IdAllocator, LiteralValue, ObjectValue,
    Predicate,
};

#[test]
fn predicates_are_ordered_word_distance_node() {
    assert_eq!(Predicate::Word.order(), 10);
    assert_eq!(Predicate::Distance.order(), 20);
    assert_eq!(Predicate::Node.order(), 30);
    assert_eq!(Predicate::Word.name(), "word");
    assert_eq!(Predicate::Distance.name(), "dist");
    assert_eq!(Predicate::Node.name(), "node");
}

#[test]
fn integer_literals_render_in_decimal() {
    assert_eq!(literal_to_string(&LiteralValue::Integer(0)), "0");
    assert_eq!(literal_to_string(&LiteralValue::Integer(7)), "7");
    assert_eq!(literal_to_string(&LiteralValue::Integer(1231)), "1231");
    assert_eq!(literal_to_string(&LiteralValue::Integer(-42)), "-42");
    assert_eq!(literal_to_string(&LiteralValue::Integer(i64::MAX)), "9223372036854775807");
    assert_eq!(literal_to_string(&LiteralValue::Integer(i64::MIN)), "-9223372036854775808");
}

#[test]
fn text_literals_render_verbatim() {
    assert_eq!(literal_to_string(&LiteralValue::Text("word ".to_string())), "word ");
    assert_eq!(literal_to_string(&LiteralValue::Text(String::new())), "");
    assert_eq!(object_to_string(&ObjectValue::Id(17)), "17");
    assert_eq!(object_to_string(&ObjectValue::Literal(LiteralValue::Integer(-3))), "-3");
}

#[test]
fn text_representation_of_every_object() {
    assert_eq!(Fact::new_integer_fact(1, Predicate::Distance, -2).get_text_literal(), "-2");
    assert_eq!(Fact::new_text_fact(1, Predicate::Word, "dad").get_text_literal(), "dad");
    assert_eq!(Fact::new_object_fact(1, Predicate::Node, 99).get_text_literal(), "99");
}

#[test]
fn accessors_report_type_mismatch() {
    let node = Fact::new_object_fact(4, Predicate::Node, 3);
    let dist = Fact::new_integer_fact(4, Predicate::Distance, 2);
    let word = Fact::new_text_fact(4, Predicate::Word, "went");
    assert_eq!(node.get_object_id(), Ok(3));
    assert_eq!(dist.get_object_id(), Err(FactError::TypeMismatch));
    assert_eq!(word.get_object_id(), Err(FactError::TypeMismatch));
    assert_eq!(dist.get_integer_literal(), Ok(2));
    assert_eq!(word.get_integer_literal(), Err(FactError::TypeMismatch));
    assert_eq!(node.get_integer_literal(), Err(FactError::TypeMismatch));
}

#[test]
fn facts_display_as_triples() {
    assert_eq!(Fact::new_object_fact(5, Predicate::Node, 1).to_string(), "(5, :node, 1)");
    assert_eq!(Fact::new_text_fact(5, Predicate::Word, "dad").to_string(), "(5, :word, dad)");
    assert_eq!(Fact::new_integer_fact(5, Predicate::Distance, -1).to_string(), "(5, :dist, -1)");
    let f = Fact::new_literal_fact(12, Predicate::Distance, LiteralValue::Integer(0));
    assert_eq!(f.to_string(), "(12, :dist, 0)");
}

#[test]
fn duplicate_keeps_every_field() {
    let f = Fact::new_text_fact(8, Predicate::Word, "fishing");
    let g = f.duplicate();
    assert_eq!(g.subject, 8);
    assert_eq!(g.predicate, Predicate::Word);
    assert_eq!(g.to_string(), f.to_string());
}

#[test]
fn identifiers_count_up_from_one() {
    let mut ids = IdAllocator::new();
    assert_eq!(ids.new_id(), 1);
    assert_eq!(ids.new_id(), 2);
    assert_eq!(ids.new_id(), 3);
    let mut other = IdAllocator::new();
    assert_eq!(other.new_id(), 1);
}

#[test]
fn vec_is0based() {
    assert_eq!(["A"].to_vec().get(0).unwrap(), &"A");
}

#[allow(non_snake_case)]
#[test]
fn vec_lenIsActual() {
    assert_eq!(["A"].to_vec().len(), 1);
}
