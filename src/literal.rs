//! Hierarchical names: a literal is the root or a named child of another
//! literal, and is written as the dotted path from the root.

use vstd::prelude::*;

verus! {

/// The root, or a child named `name` of `parent`.
pub struct Literal {
    pub parent: Option<Box<Literal>>,
    pub name: String,
}

/// The dotted path of a literal: `root` for the root, else the parent's path,
/// a dot and the name.
pub open spec fn path_of(l: Literal) -> Seq<char>
    decreases l,
{
    match l.parent {
        Some(p) => path_of(*p) + seq!['.'] + l.name@,
        None => seq!['r', 'o', 'o', 't'],
    }
}

impl Literal {
    /// A child of `parent` named `name`.
    pub fn new(parent: Literal, name: &str) -> (r: Literal)
        ensures
            r.parent == Some(Box::new(parent)),
            r.name@ == name@,
    {
        Literal { parent: Some(Box::new(parent)), name: name.to_owned() }
    }

    /// The root literal, with an empty name.
    pub fn root() -> (r: Literal)
        ensures
            r.parent is None,
            r.name@ == Seq::<char>::empty(),
    {
        Literal { parent: None, name: String::new() }
    }

    /// The dotted path from the root.
    pub fn to_string(&self) -> (r: String)
        ensures
            r@ == path_of(*self),
        decreases self,
    {
        match &self.parent {
            Some(p) => {
                proof {
                    reveal_strlit(".");
                }
                let head = p.to_string();
                let head = head.concat(".");
                head.concat(self.name.as_str())
            },
            None => {
                proof {
                    reveal_strlit("root");
                }
                String::from_str("root")
            },
        }
    }
}

} // verus!
