//! The fact model: predicates, literal and object values, and facts.

use vstd::prelude::*;

use crate::decimal::{decimal_of, decimal_text};

verus! {

/// The relation that a fact states between its subject and its object.
#[derive(Clone, Copy, Debug, PartialEq, Eq, Structural)]
pub enum Predicate {
    Word,
    Distance,
    Node,
}

/// The failures of queries and resolution over facts.
#[derive(Clone, Copy, Debug, PartialEq, Eq, Structural)]
pub enum FactError {
    /// The object has another shape than the one asked for.
    TypeMismatch,
    /// A query that had to find exactly one fact found none or several.
    Cardinality,
    /// Resolution found no occurrence, or no reference word in an island.
    NotFound,
}

/// A literal object: an integer or a piece of text.
#[derive(Debug)]
pub enum LiteralValue {
    Integer(i64),
    Text(String),
}

/// The object of a fact: the identifier of another subject, or a literal.
#[derive(Debug)]
pub enum ObjectValue {
    Id(i64),
    Literal(LiteralValue),
}

/// A subject–predicate–object triple.
#[derive(Debug)]
pub struct Fact {
    pub subject: i64,
    pub predicate: Predicate,
    pub object: ObjectValue,
}

/// The mathematical value of an object, with text as a sequence of characters.
pub enum ObjectModel {
    Id(int),
    Integer(int),
    Text(Seq<char>),
}

/// The mathematical value of a fact.
pub struct FactModel {
    pub subject: int,
    pub predicate: Predicate,
    pub object: ObjectModel,
}

impl View for LiteralValue {
    type V = ObjectModel;

    open spec fn view(&self) -> ObjectModel {
        match self {
            LiteralValue::Integer(n) => ObjectModel::Integer(*n as int),
            LiteralValue::Text(s) => ObjectModel::Text(s@),
        }
    }
}

impl View for ObjectValue {
    type V = ObjectModel;

    open spec fn view(&self) -> ObjectModel {
        match self {
            ObjectValue::Id(id) => ObjectModel::Id(*id as int),
            ObjectValue::Literal(l) => l@,
        }
    }
}

impl View for Fact {
    type V = FactModel;

    open spec fn view(&self) -> FactModel {
        FactModel { subject: self.subject as int, predicate: self.predicate, object: self.object@ }
    }
}

/// The rank of a predicate in the order Word < Distance < Node.
pub open spec fn predicate_rank(p: Predicate) -> int {
    match p {
        Predicate::Word => 10,
        Predicate::Distance => 20,
        Predicate::Node => 30,
    }
}

/// The name under which a predicate is displayed.
pub open spec fn predicate_name(p: Predicate) -> Seq<char> {
    match p {
        Predicate::Word => seq!['w', 'o', 'r', 'd'],
        Predicate::Distance => seq!['d', 'i', 's', 't'],
        Predicate::Node => seq!['n', 'o', 'd', 'e'],
    }
}

/// The text form of an object: the decimal form of an identifier or an
/// integer, and text as it is.
pub open spec fn object_text(o: ObjectModel) -> Seq<char> {
    match o {
        ObjectModel::Id(id) => decimal_of(id),
        ObjectModel::Integer(n) => decimal_of(n),
        ObjectModel::Text(s) => s,
    }
}

/// The display form of a fact: `(subject, :predicate, object)`.
pub open spec fn fact_text(f: FactModel) -> Seq<char> {
    seq!['('] + decimal_of(f.subject) + seq![',', ' ', ':'] + predicate_name(f.predicate)
        + seq![',', ' '] + object_text(f.object) + seq![')']
}

impl Predicate {
    /// The rank of the predicate; it orders Word before Distance before Node.
    pub fn order(&self) -> (r: i64)
        ensures
            r == predicate_rank(*self),
    {
        match self {
            Predicate::Word => 10,
            Predicate::Distance => 20,
            Predicate::Node => 30,
        }
    }

    /// The display name: `word`, `dist` or `node`.
    pub fn name(&self) -> (r: &'static str)
        ensures
            r@ == predicate_name(*self),
    {
        proof {
            reveal_strlit("word");
            reveal_strlit("dist");
            reveal_strlit("node");
        }
        match self {
            Predicate::Word => "word",
            Predicate::Distance => "dist",
            Predicate::Node => "node",
        }
    }
}

impl LiteralValue {
    /// A copy of the literal.
    pub fn duplicate(&self) -> (r: LiteralValue)
        ensures
            r == *self,
    {
        match self {
            LiteralValue::Integer(n) => LiteralValue::Integer(*n),
            LiteralValue::Text(s) => LiteralValue::Text(s.clone()),
        }
    }
}

impl ObjectValue {
    /// A copy of the object.
    pub fn duplicate(&self) -> (r: ObjectValue)
        ensures
            r == *self,
    {
        match self {
            ObjectValue::Id(id) => ObjectValue::Id(*id),
            ObjectValue::Literal(l) => ObjectValue::Literal(l.duplicate()),
        }
    }
}

/// The text form of a literal: the decimal form of an integer, text as it is.
pub fn literal_to_string(literal: &LiteralValue) -> (r: String)
    ensures
        r@ == object_text(literal@),
{
    match literal {
        LiteralValue::Integer(n) => decimal_text(*n),
        LiteralValue::Text(s) => s.clone(),
    }
}

/// The text form of an object: the decimal form of an identifier, else that
/// of the literal.
pub fn object_to_string(object_value: &ObjectValue) -> (r: String)
    ensures
        r@ == object_text(object_value@),
{
    match object_value {
        ObjectValue::Literal(literal) => literal_to_string(literal),
        ObjectValue::Id(id) => decimal_text(*id),
    }
}

impl Fact {
    /// A fact whose object is the identifier `object_id`.
    pub fn new_object_fact(subject_id: i64, predicate: Predicate, object_id: i64) -> (r: Fact)
        ensures
            r@ == (FactModel {
                subject: subject_id as int,
                predicate,
                object: ObjectModel::Id(object_id as int),
            }),
    {
        Fact { subject: subject_id, predicate, object: ObjectValue::Id(object_id) }
    }

    /// A fact whose object is `literal`.
    pub fn new_literal_fact(
        subject_id: i64,
        predicate: Predicate,
        literal: LiteralValue,
    ) -> (r: Fact)
        ensures
            r.subject == subject_id,
            r.predicate == predicate,
            r.object == ObjectValue::Literal(literal),
    {
        Fact { subject: subject_id, predicate, object: ObjectValue::Literal(literal) }
    }

    /// A fact whose object is the integer `value`.
    pub fn new_integer_fact(subject_id: i64, predicate: Predicate, value: i64) -> (r: Fact)
        ensures
            r@ == (FactModel {
                subject: subject_id as int,
                predicate,
                object: ObjectModel::Integer(value as int),
            }),
    {
        Fact {
            subject: subject_id,
            predicate,
            object: ObjectValue::Literal(LiteralValue::Integer(value)),
        }
    }

    /// A fact whose object is the text `value`.
    pub fn new_text_fact(subject_id: i64, predicate: Predicate, value: &str) -> (r: Fact)
        ensures
            r@ == (FactModel {
                subject: subject_id as int,
                predicate,
                object: ObjectModel::Text(value@),
            }),
    {
        Fact {
            subject: subject_id,
            predicate,
            object: ObjectValue::Literal(LiteralValue::Text(value.to_owned())),
        }
    }

    /// A copy of the fact.
    pub fn duplicate(&self) -> (r: Fact)
        ensures
            r == *self,
    {
        Fact { subject: self.subject, predicate: self.predicate, object: self.object.duplicate() }
    }

    /// The identifier that the object holds; a literal object is a type
    /// mismatch.
    pub fn get_object_id(&self) -> (r: Result<i64, FactError>)
        ensures
            r == (match self.object {
                ObjectValue::Id(id) => Ok(id),
                ObjectValue::Literal(_) => Err(FactError::TypeMismatch),
            }),
    {
        match self.object {
            ObjectValue::Id(id) => Ok(id),
            ObjectValue::Literal(_) => Err(FactError::TypeMismatch),
        }
    }

    /// The integer that the object holds; text and identifiers are a type
    /// mismatch.
    pub fn get_integer_literal(&self) -> (r: Result<i64, FactError>)
        ensures
            r == (match self.object {
                ObjectValue::Literal(LiteralValue::Integer(n)) => Ok(n),
                _ => Err(FactError::TypeMismatch),
            }),
    {
        match &self.object {
            ObjectValue::Literal(LiteralValue::Integer(n)) => Ok(*n),
            _ => Err(FactError::TypeMismatch),
        }
    }

    /// The text form of the object; it never fails.
    pub fn get_text_literal(&self) -> (r: String)
        ensures
            r@ == object_text(self.object@),
    {
        object_to_string(&self.object)
    }

    /// The display form `(subject, :predicate, object)`.
    pub fn to_string(&self) -> (r: String)
        ensures
            r@ == fact_text(self@),
    {
        proof {
            reveal_strlit("(");
            reveal_strlit(", :");
            reveal_strlit(", ");
            reveal_strlit(")");
        }
        let subject = decimal_text(self.subject);
        let object = object_to_string(&self.object);
        let text = String::from_str("(");
        let text = text.concat(subject.as_str());
        let text = text.concat(", :");
        let text = text.concat(self.predicate.name());
        let text = text.concat(", ");
        let text = text.concat(object.as_str());
        let text = text.concat(")");
        text
    }
}

/// Mints identifiers for one parse: 1, 2, 3, ... in the order of the calls.
pub struct IdAllocator {
    last: i64,
}

impl IdAllocator {
    /// The identifier handed out last, 0 before the first.
    pub closed spec fn last_issued(&self) -> int {
        self.last as int
    }

    /// An allocator that has handed out nothing yet.
    pub fn new() -> (r: IdAllocator)
        ensures
            r.last_issued() == 0,
    {
        IdAllocator { last: 0 }
    }

    /// The next identifier: one above the last one handed out.
    pub fn new_id(&mut self) -> (r: i64)
        requires
            old(self).last_issued() < i64::MAX,
        ensures
            r == old(self).last_issued() + 1,
            final(self).last_issued() == r,
    {
        self.last = self.last + 1;
        self.last
    }
}

} // verus!
