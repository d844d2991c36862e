use search::fact::{Fact, FactError, LiteralValue, ObjectValue, Predicate};
use search::parser::parse;
use search::space::FactSpace;

const EXAMPLE: &str =
"\
In linguistics a word is the smallest element that may be uttered in isolation with semantic or\
pragmatic content (with literal or practical meaning). This contrasts with a morpheme, which is\
the smallest unit of meaning but will not necessarily stand on its own.\
";

fn lettered_facts() -> Vec<Fact> {
    let mut facts: Vec<Fact> = Vec::new();
    facts.push(Fact::new_text_fact(1, Predicate::Word, "a"));
    facts.push(Fact::new_text_fact(1, Predicate::Distance, "b"));
    facts.push(Fact::new_text_fact(2, Predicate::Word, "c"));
    facts.push(Fact::new_text_fact(3, Predicate::Distance, "d"));
    facts.push(Fact::new_text_fact(3, Predicate::Word, "e"));
    facts.push(Fact::new_text_fact(3, Predicate::Distance, "f"));
    facts
}

fn shown(space: &FactSpace) -> Vec<String> {
    space.facts().iter().map(|f| f.to_string()).collect()
}

#[test]
fn can_enumerate_subjects() {
    let facts = lettered_facts();

    let space = FactSpace::from_facts(&facts);

    let subjects = space.get_subjects();

    assert_eq!(vec![1, 2, 3], subjects);
}

#[test]
fn can_open_subjects() {
    let mut facts = lettered_facts();
    facts.push(Fact::new_text_fact(3, Predicate::Word, "g"));

    let space = FactSpace::from_facts(&facts);

    let open_subjects = space.open_subjects(vec![1, 3]);

    assert_eq!(6, open_subjects.len());
}

#[test]
fn can_create_derived_fact_space() {
    let facts = parse(EXAMPLE);
    let space = FactSpace::from_facts(&facts);

    let small_space = space.match_objects(|s, p| {
        s == facts[0].subject && p.order() == facts[0].predicate.order()
    });

    for fact0 in small_space.facts().iter() {
        println!("{}", fact0.to_string());
    }
    assert_eq!(shown(&small_space), vec!["(2, :node, 1)".to_string()]);
}

#[test]
fn can_cast_space_to_literals() {
    let facts = parse(EXAMPLE);
    let space = FactSpace::from_facts(&facts);

    let small_space = space.match_predicates(|p| match p {
        Predicate::Word => true,
        _ => false,
    });

    for fact0 in small_space.facts().iter() {
        println!("{}", fact0.to_string());
    }
    assert_eq!(small_space.len(), 195);
    let literals = small_space.as_literals().unwrap();
    assert_eq!(literals.len(), 195);
    assert!(matches!(&literals[0], LiteralValue::Text(t) if t == "In"));
}

#[test]
fn it_finds_positive_facts_for_contrasts() {
    let facts = parse(EXAMPLE);
    let space = FactSpace::from_facts(&facts);

    let contrasts_facts = space.match_subject_with_text(|_p, t| t == "contrasts");

    let dist_facts = space.match_objects(|s, p| match p {
        Predicate::Distance => contrasts_facts.contains_subject(s),
        _ => false,
    });

    let positive_dist_facts = dist_facts.match_subject_with_integer(|_p, i| i > 0);

    for fact in positive_dist_facts.facts().iter() {
        println!("positive fact: {}", fact.to_string());
    }
    assert_eq!(dist_facts.len(), 5);
    assert_eq!(positive_dist_facts.len(), 2);
}

#[test]
fn subjects_come_sorted_and_once() {
    let mut facts: Vec<Fact> = Vec::new();
    facts.push(Fact::new_integer_fact(9, Predicate::Distance, 0));
    facts.push(Fact::new_integer_fact(-4, Predicate::Distance, 0));
    facts.push(Fact::new_integer_fact(9, Predicate::Distance, 1));
    facts.push(Fact::new_integer_fact(2, Predicate::Distance, 0));
    facts.push(Fact::new_integer_fact(-4, Predicate::Distance, 2));
    let space = FactSpace::from_facts(&facts);
    assert_eq!(space.get_subjects(), vec![-4, 2, 9]);
    assert!(space.contains_subject(2));
    assert!(!space.contains_subject(3));
    assert!(FactSpace::from_facts(&Vec::new()).get_subjects().is_empty());
}

#[test]
fn open_subject_keeps_order() {
    let space = FactSpace::from_facts(&lettered_facts());
    let three = space.open_subject(3);
    assert_eq!(shown(&three), vec!["(3, :dist, d)", "(3, :word, e)", "(3, :dist, f)"]);
    assert_eq!(space.open_subject(7).len(), 0);
}

#[test]
fn narrowing_filters_skip_other_shapes() {
    let mut facts: Vec<Fact> = Vec::new();
    facts.push(Fact::new_object_fact(1, Predicate::Node, 10));
    facts.push(Fact::new_integer_fact(1, Predicate::Distance, 3));
    facts.push(Fact::new_text_fact(1, Predicate::Word, "3"));
    let space = FactSpace::from_facts(&facts);
    assert_eq!(space.match_subject_with_literal(|_p, _l| true).len(), 2);
    assert_eq!(shown(&space.match_subject_with_integer(|_p, _n| true)), vec!["(1, :dist, 3)"]);
    assert_eq!(shown(&space.match_subject_with_text(|_p, _t| true)), vec!["(1, :word, 3)"]);
    let ids = space.match_subjects(|_p, o| matches!(o, ObjectValue::Id(_)));
    assert_eq!(shown(&ids), vec!["(1, :node, 10)"]);
    let all = space.match_any(|s, _p, _o| s == 1);
    assert_eq!(all.len(), 3);
}

#[test]
fn single_needs_exactly_one_fact() {
    let space = FactSpace::from_facts(&lettered_facts());
    let one = space.open_subject(2).single().unwrap();
    assert_eq!(one.to_string(), "(2, :word, c)");
    assert!(matches!(space.open_subject(3).single(), Err(FactError::Cardinality)));
    assert!(matches!(space.open_subject(5).single(), Err(FactError::Cardinality)));
}

#[test]
fn literals_of_a_space_with_identifiers_mismatch() {
    let mut facts = lettered_facts();
    facts.push(Fact::new_object_fact(4, Predicate::Node, 1));
    let space = FactSpace::from_facts(&facts);
    assert!(matches!(space.as_literals(), Err(FactError::TypeMismatch)));
    let texts = space.match_subject_with_literal(|_p, _l| true).as_literals().unwrap();
    assert_eq!(texts.len(), 6);
}

#[test]
fn queries_leave_the_space_unchanged() {
    let facts = parse(EXAMPLE);
    let space = FactSpace::from_facts(&facts);
    let before = shown(&space);
    let _ = space.match_predicates(|p| p == Predicate::Node);
    let _ = space.match_subject_with_text(|_p, t| t == "word");
    let _ = space.open_subjects(vec![2, 3, 4]);
    let _ = space.match_subject_with_integer(|_p, n| n == 0).get_subjects();
    assert_eq!(space.len(), 585);
    assert_eq!(shown(&space), before);
}
