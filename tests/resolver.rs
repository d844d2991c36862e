use search::fact::{Fact, FactError, LiteralValue, Predicate};
use search::parser::parse;
use search::resolver::{
    collect_island_facts, collect_word_facts, find_next_word, resolve_adjacent_word,
    resolve_literal, resolve_object, resolve_word_distance,
};

const EXAMPLE: &str =
"\
In linguistics a word is the smallest element that may be uttered in isolation with semantic or\
pragmatic content (with literal or practical meaning). This contrasts with a morpheme, which is\
the smallest unit of meaning but will not necessarily stand on its own.\
";

#[test]
fn it_finds_next_word_for_contrasts() {
    let facts = parse(EXAMPLE);
    let word_facts: Vec<Fact> = collect_word_facts(&facts, "contrasts");

    let previous_word_facts: Vec<&Fact> = word_facts
        .iter()
        .filter(|x| {
            resolve_word_distance(&facts, x.subject).unwrap().get_integer_literal().unwrap() == 1
        })
        .collect();

    let previous_word_fact: &Fact = previous_word_facts.first().unwrap();
    println!("previous word fact: {}", previous_word_fact.to_string());

    let island = resolve_object(&facts, previous_word_fact.subject, Predicate::Node).unwrap();
    println!("island: {}", island);

    let island_facts = collect_island_facts(&facts, island);
    println!("island facts: {}", island_facts.len());

    let island_dist0_facts: Vec<&Fact> = island_facts
        .iter()
        .filter(|x| {
            resolve_word_distance(&facts, x.subject).unwrap().get_integer_literal().unwrap() == 0
        })
        .collect();
    let island_dist0_fact = island_dist0_facts.first().unwrap();

    let literal = resolve_literal(&facts, island_dist0_fact.subject, Predicate::Word).unwrap();
    let previous_word = search::fact::literal_to_string(&literal);
    println!("previous word: {}", previous_word);
    assert_eq!(previous_word, "This");
}

#[test]
fn word_before_contrasts_is_this() {
    let facts = parse(EXAMPLE);
    assert_eq!(find_next_word(&facts, "contrasts"), Ok("This".to_string()));
    assert_eq!(resolve_adjacent_word(&facts, "contrasts", 1), Ok("This".to_string()));
}

#[test]
fn word_after_this_is_contrasts() {
    let facts = parse(EXAMPLE);
    assert_eq!(resolve_adjacent_word(&facts, "This", -1), Ok("contrasts".to_string()));
}

#[test]
fn missing_word_is_not_found() {
    let facts = parse(EXAMPLE);
    assert_eq!(find_next_word(&facts, "grammar"), Err(FactError::NotFound));
    assert_eq!(resolve_adjacent_word(&facts, "contrasts", 7), Err(FactError::NotFound));
}

#[test]
fn island_without_reference_word_is_not_found() {
    let mut facts: Vec<Fact> = Vec::new();
    facts.push(Fact::new_object_fact(2, Predicate::Node, 1));
    facts.push(Fact::new_text_fact(2, Predicate::Word, "went"));
    facts.push(Fact::new_integer_fact(2, Predicate::Distance, 1));
    assert_eq!(find_next_word(&facts, "went"), Err(FactError::NotFound));
}

#[test]
fn resolution_reports_cardinality_and_mismatch() {
    let mut facts: Vec<Fact> = Vec::new();
    facts.push(Fact::new_text_fact(2, Predicate::Word, "went"));
    facts.push(Fact::new_integer_fact(2, Predicate::Distance, 1));
    assert_eq!(find_next_word(&facts, "went"), Err(FactError::Cardinality));
    facts.push(Fact::new_integer_fact(2, Predicate::Node, 1));
    assert_eq!(find_next_word(&facts, "went"), Err(FactError::TypeMismatch));
}

#[test]
fn resolve_literal_and_object_check_their_facts() {
    let mut facts: Vec<Fact> = Vec::new();
    facts.push(Fact::new_object_fact(2, Predicate::Node, 1));
    facts.push(Fact::new_text_fact(2, Predicate::Word, "dad"));
    facts.push(Fact::new_integer_fact(3, Predicate::Distance, 4));
    facts.push(Fact::new_integer_fact(3, Predicate::Distance, 5));
    assert!(matches!(
        resolve_literal(&facts, 2, Predicate::Word),
        Ok(LiteralValue::Text(t)) if t == "dad"
    ));
    assert!(matches!(resolve_literal(&facts, 2, Predicate::Node), Err(FactError::TypeMismatch)));
    assert!(matches!(resolve_literal(&facts, 2, Predicate::Distance), Err(FactError::Cardinality)));
    assert!(matches!(resolve_literal(&facts, 3, Predicate::Distance), Err(FactError::Cardinality)));
    assert_eq!(resolve_object(&facts, 2, Predicate::Node), Ok(1));
    assert_eq!(resolve_object(&facts, 2, Predicate::Word), Err(FactError::TypeMismatch));
    assert_eq!(resolve_object(&facts, 9, Predicate::Node), Err(FactError::Cardinality));
}

#[test]
fn first_distance_fact_is_taken() {
    let mut facts: Vec<Fact> = Vec::new();
    facts.push(Fact::new_integer_fact(3, Predicate::Distance, 4));
    facts.push(Fact::new_integer_fact(3, Predicate::Distance, 5));
    let d = resolve_word_distance(&facts, 3).unwrap();
    assert_eq!(d.get_integer_literal(), Ok(4));
    assert!(matches!(resolve_word_distance(&facts, 8), Err(FactError::NotFound)));
}

#[test]
fn collectors_keep_matching_facts_in_order() {
    let facts = parse("a b a");
    let a = collect_word_facts(&facts, "a");
    let shown: Vec<String> = a.iter().map(|f| f.to_string()).collect();
    assert_eq!(shown, vec!["(2, :word, a)", "(5, :word, a)", "(7, :word, a)"]);
    let island: Vec<String> =
        collect_island_facts(&facts, 1).iter().map(|f| f.to_string()).collect();
    assert_eq!(island, vec!["(2, :node, 1)", "(3, :node, 1)"]);
}
