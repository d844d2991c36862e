use std::collections::BTreeMap;

use search::fact::{Fact, ObjectValue, LiteralValue, Predicate};
use search::parser::{parse, parse_space, split_sentence, ISLAND_SIZE};

const EXAMPLE: &str =
"\
In linguistics a word is the smallest element that may be uttered in isolation with semantic or\
pragmatic content (with literal or practical meaning). This contrasts with a morpheme, which is\
the smallest unit of meaning but will not necessarily stand on its own.\
";

/// Facts grouped by subject: (word facts, distance facts, node facts).
fn counts_by_subject(facts: &[Fact]) -> BTreeMap<i64, (usize, usize, usize)> {
    let mut counts: BTreeMap<i64, (usize, usize, usize)> = BTreeMap::new();
    for f in facts {
        let entry = counts.entry(f.subject).or_insert((0, 0, 0));
        match f.predicate {
            Predicate::Word => entry.0 += 1,
            Predicate::Distance => entry.1 += 1,
            Predicate::Node => entry.2 += 1,
        }
    }
    counts
}

#[test]
fn it_parses() {
    let facts = parse(EXAMPLE);
    assert_eq!(585, facts.len())
}

#[test]
fn it_finds_facts_for_contrasts() {
    let space = parse_space(EXAMPLE);
    let word_space = space.match_subject_with_text(|_p, t| t == "contrasts");
    assert_eq!(ISLAND_SIZE, word_space.len());
}

#[test]
fn it_can_split_to_sentence_epochs() {
    let split = split_sentence("A great day to actually die");

    assert_eq!(["A", "great"].to_vec(), split.initial_words);
    assert_eq!(["actually", "die"].to_vec(), split.tail_words);
}

#[test]
fn split_sentence_keeps_the_middle_and_all_words() {
    let split = split_sentence("A great day to actually die");
    assert_eq!(["day", "to"].to_vec(), split.middle_words);
    assert_eq!(["A", "great", "day", "to", "actually", "die"].to_vec(), split.all_words);
}

#[test]
fn split_sentence_of_short_texts() {
    let empty = split_sentence("");
    assert!(empty.all_words.is_empty());
    assert!(empty.initial_words.is_empty());
    assert!(empty.tail_words.is_empty());
    let one = split_sentence("alone");
    assert_eq!(["alone"].to_vec(), one.initial_words);
    assert!(one.tail_words.is_empty());
    let three = split_sentence("a b c");
    assert_eq!(["a", "b"].to_vec(), three.initial_words);
    assert!(three.middle_words.is_empty());
    assert_eq!(["c"].to_vec(), three.tail_words);
}

#[test]
fn words_split_on_single_spaces() {
    let split = split_sentence("a  b ");
    assert_eq!(["a", "", "b", ""].to_vec(), split.all_words);
}

#[test]
fn fact_count_follows_the_window_formula() {
    // 3 * (2 + 3) boundary facts, and 3 * 5 for each span of five words.
    assert_eq!(parse("a b c").len(), 15);
    assert_eq!(parse("a b c d").len(), 15);
    assert_eq!(parse("a b c d e").len(), 30);
    assert_eq!(parse("A great day to actually die").len(), 45);
    assert_eq!(parse(EXAMPLE).len(), 15 + 15 * (42 - 5 + 1));
}

#[test]
fn empty_text_has_no_facts() {
    assert_eq!(parse("").len(), 0);
}

#[test]
fn short_texts_clip_the_boundary_islands() {
    assert_eq!(parse("x").len(), 3);
    assert_eq!(parse("x y").len(), 12);
}

#[test]
fn parse_emits_node_word_distance_per_occurrence() {
    let facts = parse("a b c");
    let shown: Vec<String> = facts.iter().map(|f| f.to_string()).collect();
    let expected = [
        "(2, :node, 1)",
        "(2, :word, a)",
        "(2, :dist, 0)",
        "(3, :node, 1)",
        "(3, :word, b)",
        "(3, :dist, -1)",
        "(5, :node, 4)",
        "(5, :word, a)",
        "(5, :dist, 1)",
        "(6, :node, 4)",
        "(6, :word, b)",
        "(6, :dist, 0)",
        "(7, :node, 4)",
        "(7, :word, c)",
        "(7, :dist, -1)",
    ];
    assert_eq!(shown, expected.to_vec());
}

#[test]
fn sliding_islands_count_distance_from_the_centre() {
    let facts = parse("a b c d e");
    let shown: Vec<String> = facts[15..].iter().map(|f| f.to_string()).collect();
    let expected = [
        "(9, :node, 8)",
        "(9, :word, a)",
        "(9, :dist, -2)",
        "(10, :node, 8)",
        "(10, :word, b)",
        "(10, :dist, -1)",
        "(11, :node, 8)",
        "(11, :word, c)",
        "(11, :dist, 0)",
        "(12, :node, 8)",
        "(12, :word, d)",
        "(12, :dist, 1)",
        "(13, :node, 8)",
        "(13, :word, e)",
        "(13, :dist, 2)",
    ];
    assert_eq!(shown, expected.to_vec());
}

#[test]
fn parse_is_the_same_on_every_call() {
    let first: Vec<String> = parse(EXAMPLE).iter().map(|f| f.to_string()).collect();
    let second: Vec<String> = parse(EXAMPLE).iter().map(|f| f.to_string()).collect();
    assert_eq!(first, second);
}

#[test]
fn every_occurrence_has_one_fact_per_predicate() {
    let facts = parse(EXAMPLE);
    for (_, counts) in counts_by_subject(&facts) {
        assert_eq!(counts, (1, 1, 1));
    }
}

#[test]
fn every_island_has_one_reference_word() {
    let facts = parse(EXAMPLE);
    let mut distance: BTreeMap<i64, i64> = BTreeMap::new();
    for f in &facts {
        if let (Predicate::Distance, ObjectValue::Literal(LiteralValue::Integer(d))) =
            (f.predicate, &f.object)
        {
            distance.insert(f.subject, *d);
        }
    }
    let mut references: BTreeMap<i64, usize> = BTreeMap::new();
    for f in &facts {
        if let (Predicate::Node, ObjectValue::Id(island)) = (f.predicate, &f.object) {
            let entry = references.entry(*island).or_insert(0);
            if distance[&f.subject] == 0 {
                *entry += 1;
            }
        }
    }
    assert_eq!(references.len(), 2 + 38);
    for (_, n) in references {
        assert_eq!(n, 1);
    }
}
