//! Resolution over a sequence of facts: looking up the object of a subject,
//! and predicting the word at a given distance from a target word.

use vstd::prelude::*;

use crate::fact::{
    literal_to_string, object_text, Fact, FactError, LiteralValue, ObjectValue, Predicate,
};

verus! {

broadcast use Seq::lemma_filter_push;

/// The facts of `facts` with subject `s` and predicate `p`.
pub open spec fn about(facts: Seq<Fact>, s: i64, p: Predicate) -> Seq<Fact> {
    facts.filter(|f: Fact| f.subject == s && f.predicate == p)
}

/// The literal of the one fact with subject `s` and predicate `p`: a
/// cardinality error unless there is exactly one such fact, a type mismatch
/// if its object is an identifier.
pub open spec fn literal_about(facts: Seq<Fact>, s: i64, p: Predicate) -> Result<
    LiteralValue,
    FactError,
> {
    let c = about(facts, s, p);
    if c.len() != 1 {
        Err(FactError::Cardinality)
    } else {
        match c[0].object {
            ObjectValue::Literal(l) => Ok(l),
            ObjectValue::Id(_) => Err(FactError::TypeMismatch),
        }
    }
}

/// The identifier of the one fact with subject `s` and predicate `p`: a
/// cardinality error unless there is exactly one such fact, a type mismatch
/// if its object is a literal.
pub open spec fn object_about(facts: Seq<Fact>, s: i64, p: Predicate) -> Result<i64, FactError> {
    let c = about(facts, s, p);
    if c.len() != 1 {
        Err(FactError::Cardinality)
    } else {
        match c[0].object {
            ObjectValue::Id(id) => Ok(id),
            ObjectValue::Literal(_) => Err(FactError::TypeMismatch),
        }
    }
}

/// The object is the text `word`.
pub open spec fn is_text(o: ObjectValue, word: Seq<char>) -> bool {
    match o {
        ObjectValue::Literal(LiteralValue::Text(s)) => s@ == word,
        _ => false,
    }
}

/// The facts whose object is the text `word`.
pub open spec fn word_facts(facts: Seq<Fact>, word: Seq<char>) -> Seq<Fact> {
    facts.filter(|f: Fact| is_text(f.object, word))
}

/// The Node facts that place their subject in `island`.
pub open spec fn island_members(facts: Seq<Fact>, island: i64) -> Seq<Fact> {
    facts.filter(|f: Fact| f.predicate == Predicate::Node && f.object == ObjectValue::Id(island))
}

/// The Distance facts of subject `s`.
pub open spec fn distance_facts(facts: Seq<Fact>, s: i64) -> Seq<Fact> {
    facts.filter(|f: Fact| f.predicate == Predicate::Distance && f.subject == s)
}

/// The first Distance fact of `s` holds the integer `n`.
pub open spec fn distance_is(facts: Seq<Fact>, s: i64, n: i64) -> bool {
    let d = distance_facts(facts, s);
    d.len() > 0 && d[0].object == ObjectValue::Literal(LiteralValue::Integer(n))
}

/// The word at distance `offset` from `word`: take the first fact whose
/// object is `word` and whose subject lies at distance `offset`, the island
/// of that subject, the first member of the island at distance 0, and that
/// member's word.
pub open spec fn adjacent_word(facts: Seq<Fact>, word: Seq<char>, offset: i64) -> Result<
    Seq<char>,
    FactError,
> {
    let hits = word_facts(facts, word).filter(|f: Fact| distance_is(facts, f.subject, offset));
    if hits.len() == 0 {
        Err(FactError::NotFound)
    } else {
        match object_about(facts, hits[0].subject, Predicate::Node) {
            Err(e) => Err(e),
            Ok(island) => {
                let refs = island_members(facts, island).filter(
                    |f: Fact| distance_is(facts, f.subject, 0),
                );
                if refs.len() == 0 {
                    Err(FactError::NotFound)
                } else {
                    match literal_about(facts, refs[0].subject, Predicate::Word) {
                        Err(e) => Err(e),
                        Ok(l) => Ok(object_text(l@)),
                    }
                }
            },
        }
    }
}

proof fn lemma_filter_none(s: Seq<Fact>, p: spec_fn(Fact) -> bool)
    requires
        forall|j: int| 0 <= j < s.len() ==> !p(#[trigger] s[j]),
    ensures
        s.filter(p).len() == 0,
    decreases s.len(),
{
    if s.len() > 0 {
        lemma_filter_none(s.drop_last(), p);
        assert(s.drop_last().push(s.last()) =~= s);
        assert(!p(s[s.len() - 1]));
    } else {
        assert(s =~= Seq::<Fact>::empty());
    }
}

proof fn lemma_filter_first(s: Seq<Fact>, p: spec_fn(Fact) -> bool, i: int)
    requires
        0 <= i < s.len(),
        forall|j: int| 0 <= j < i ==> !p(#[trigger] s[j]),
        p(s[i]),
    ensures
        s.filter(p).len() > 0,
        s.filter(p)[0] == s[i],
    decreases s.len(),
{
    assert(s.drop_last().push(s.last()) =~= s);
    if i == s.len() - 1 {
        lemma_filter_none(s.drop_last(), p);
    } else {
        lemma_filter_first(s.drop_last(), p, i);
    }
}

/// The facts with subject `s` and predicate `p`.
fn facts_about(facts: &Vec<Fact>, s: i64, p: Predicate) -> (r: Vec<Fact>)
    ensures
        r@ == about(facts@, s, p),
{
    let ghost keep = |f: Fact| f.subject == s && f.predicate == p;
    let mut out: Vec<Fact> = Vec::new();
    let mut i: usize = 0;
    while i < facts.len()
        invariant
            i <= facts.len(),
            keep == (|f: Fact| f.subject == s && f.predicate == p),
            out@ == facts@.take(i as int).filter(keep),
        decreases facts.len() - i,
    {
        assert(facts@.take(i + 1) =~= facts@.take(i as int).push(facts@[i as int]));
        if facts[i].subject == s && facts[i].predicate == p {
            out.push(facts[i].duplicate());
        }
        i = i + 1;
    }
    assert(facts@.take(i as int) =~= facts@);
    out
}

/// The literal of the one fact with subject `subject` and predicate
/// `predicate`.
pub fn resolve_literal(facts: &Vec<Fact>, subject: i64, predicate: Predicate) -> (r: Result<
    LiteralValue,
    FactError,
>)
    ensures
        r == literal_about(facts@, subject, predicate),
{
    let candidates = facts_about(facts, subject, predicate);
    if candidates.len() != 1 {
        return Err(FactError::Cardinality);
    }
    match &candidates[0].object {
        ObjectValue::Literal(literal) => Ok(literal.duplicate()),
        ObjectValue::Id(_) => Err(FactError::TypeMismatch),
    }
}

/// The identifier of the one fact with subject `subject` and predicate
/// `predicate`.
pub fn resolve_object(facts: &Vec<Fact>, subject: i64, predicate: Predicate) -> (r: Result<
    i64,
    FactError,
>)
    ensures
        r == object_about(facts@, subject, predicate),
{
    let candidates = facts_about(facts, subject, predicate);
    if candidates.len() != 1 {
        return Err(FactError::Cardinality);
    }
    match &candidates[0].object {
        ObjectValue::Id(id) => Ok(*id),
        ObjectValue::Literal(_) => Err(FactError::TypeMismatch),
    }
}

/// The facts whose object is the text `word`, in order.
pub fn collect_word_facts(facts: &Vec<Fact>, word: &str) -> (r: Vec<Fact>)
    ensures
        r@ == word_facts(facts@, word@),
{
    let target = word.to_owned();
    let ghost keep = |f: Fact| is_text(f.object, word@);
    let mut out: Vec<Fact> = Vec::new();
    let mut i: usize = 0;
    while i < facts.len()
        invariant
            i <= facts.len(),
            target@ == word@,
            keep == (|f: Fact| is_text(f.object, word@)),
            out@ == facts@.take(i as int).filter(keep),
        decreases facts.len() - i,
    {
        assert(facts@.take(i + 1) =~= facts@.take(i as int).push(facts@[i as int]));
        let hit = match &facts[i].object {
            ObjectValue::Literal(LiteralValue::Text(s)) => *s == target,
            _ => false,
        };
        if hit {
            out.push(facts[i].duplicate());
        }
        i = i + 1;
    }
    assert(facts@.take(i as int) =~= facts@);
    out
}

/// The Node facts that place their subject in `island`, in order.
pub fn collect_island_facts(facts: &Vec<Fact>, island: i64) -> (r: Vec<Fact>)
    ensures
        r@ == island_members(facts@, island),
{
    let ghost keep = |f: Fact|
        f.predicate == Predicate::Node && f.object == ObjectValue::Id(island);
    let mut out: Vec<Fact> = Vec::new();
    let mut i: usize = 0;
    while i < facts.len()
        invariant
            i <= facts.len(),
            keep == (|f: Fact|
                f.predicate == Predicate::Node && f.object == ObjectValue::Id(island)),
            out@ == facts@.take(i as int).filter(keep),
        decreases facts.len() - i,
    {
        assert(facts@.take(i + 1) =~= facts@.take(i as int).push(facts@[i as int]));
        let hit = match facts[i].predicate {
            Predicate::Node => match facts[i].object {
                ObjectValue::Id(id) => id == island,
                _ => false,
            },
            _ => false,
        };
        if hit {
            out.push(facts[i].duplicate());
        }
        i = i + 1;
    }
    assert(facts@.take(i as int) =~= facts@);
    out
}

/// The first Distance fact of `subject`; none is not found.
pub fn resolve_word_distance(facts: &Vec<Fact>, subject: i64) -> (r: Result<Fact, FactError>)
    ensures
        r == (if distance_facts(facts@, subject).len() > 0 {
            Ok(distance_facts(facts@, subject)[0])
        } else {
            Err(FactError::NotFound)
        }),
{
    let ghost keep = |f: Fact| f.predicate == Predicate::Distance && f.subject == subject;
    let mut i: usize = 0;
    while i < facts.len()
        invariant
            i <= facts.len(),
            keep == (|f: Fact| f.predicate == Predicate::Distance && f.subject == subject),
            forall|j: int| 0 <= j < i ==> !keep(#[trigger] facts@[j]),
        decreases facts.len() - i,
    {
        if facts[i].subject == subject && facts[i].predicate == Predicate::Distance {
            proof {
                lemma_filter_first(facts@, keep, i as int);
            }
            return Ok(facts[i].duplicate());
        }
        i = i + 1;
    }
    proof {
        lemma_filter_none(facts@, keep);
    }
    Err(FactError::NotFound)
}

/// Whether the first Distance fact of `subject` holds the integer `n`.
fn has_distance(facts: &Vec<Fact>, subject: i64, n: i64) -> (r: bool)
    ensures
        r == distance_is(facts@, subject, n),
{
    match resolve_word_distance(facts, subject) {
        Ok(d) => match d.get_integer_literal() {
            Ok(v) => v == n,
            Err(_) => false,
        },
        Err(_) => false,
    }
}

/// The index of the first fact of `candidates` whose subject lies at
/// distance `n`.
fn first_at_distance(facts: &Vec<Fact>, candidates: &Vec<Fact>, n: i64) -> (r: Option<usize>)
    ensures
        ({
            let hits = candidates@.filter(|f: Fact| distance_is(facts@, f.subject, n));
            match r {
                Some(i) => i < candidates@.len() && hits.len() > 0 && hits[0]
                    == candidates@[i as int],
                None => hits.len() == 0,
            }
        }),
{
    let ghost keep = |f: Fact| distance_is(facts@, f.subject, n);
    let mut i: usize = 0;
    while i < candidates.len()
        invariant
            i <= candidates.len(),
            keep == (|f: Fact| distance_is(facts@, f.subject, n)),
            forall|j: int| 0 <= j < i ==> !keep(#[trigger] candidates@[j]),
        decreases candidates.len() - i,
    {
        if has_distance(facts, candidates[i].subject, n) {
            proof {
                lemma_filter_first(candidates@, keep, i as int);
            }
            return Some(i);
        }
        i = i + 1;
    }
    proof {
        lemma_filter_none(candidates@, keep);
    }
    None
}

/// The word at distance `offset` from `word`: the reference word of the
/// island of the first occurrence of `word` at that distance.
pub fn resolve_adjacent_word(facts: &Vec<Fact>, word: &str, offset: i64) -> (r: Result<
    String,
    FactError,
>)
    ensures
        match r {
            Ok(s) => adjacent_word(facts@, word@, offset) == Ok::<Seq<char>, FactError>(s@),
            Err(e) => adjacent_word(facts@, word@, offset) == Err::<Seq<char>, FactError>(e),
        },
{
    let occurrences = collect_word_facts(facts, word);
    let first = match first_at_distance(facts, &occurrences, offset) {
        Some(i) => i,
        None => return Err(FactError::NotFound),
    };
    let island = match resolve_object(facts, occurrences[first].subject, Predicate::Node) {
        Ok(island) => island,
        Err(e) => return Err(e),
    };
    let members = collect_island_facts(facts, island);
    let reference = match first_at_distance(facts, &members, 0) {
        Some(i) => i,
        None => return Err(FactError::NotFound),
    };
    match resolve_literal(facts, members[reference].subject, Predicate::Word) {
        Ok(literal) => Ok(literal_to_string(&literal)),
        Err(e) => Err(e),
    }
}

/// The word that `word` follows: the reference word of the first island in
/// which `word` lies at distance 1.
pub fn find_next_word(facts: &Vec<Fact>, word: &str) -> (r: Result<String, FactError>)
    ensures
        match r {
            Ok(s) => adjacent_word(facts@, word@, 1) == Ok::<Seq<char>, FactError>(s@),
            Err(e) => adjacent_word(facts@, word@, 1) == Err::<Seq<char>, FactError>(e),
        },
{
    resolve_adjacent_word(facts, word, 1)
}

} // verus!
