//! The fact space: an immutable collection of facts with non-destructive
//! filters. Every query returns a new space holding, in their original
//! order, the facts that pass its test.

use vstd::prelude::*;

use crate::fact::{Fact, FactError, LiteralValue, ObjectValue, Predicate};

verus! {

/// The facts of `src` at the positions where `picks` holds, in order.
pub open spec fn picked(src: Seq<Fact>, picks: Seq<bool>) -> Seq<Fact>
    decreases src.len(),
{
    if src.len() == 0 {
        Seq::empty()
    } else {
        let rest = picked(src.drop_last(), picks.drop_last());
        if picks.last() {
            rest.push(src.last())
        } else {
            rest
        }
    }
}

/// `out` keeps the facts of `src` for which some verdict was given that
/// `verdict` allows: `verdict(x, true)` for each fact kept, `verdict(x,
/// false)` for each fact left out.
pub open spec fn sifted(
    src: Seq<Fact>,
    out: Seq<Fact>,
    verdict: spec_fn(Fact, bool) -> bool,
) -> bool {
    exists|picks: Seq<bool>|
        picks.len() == src.len() && (forall|i: int|
            0 <= i < src.len() ==> verdict(src[i], #[trigger] picks[i])) && out == picked(
            src,
            picks,
        )
}

proof fn lemma_picked_filter(src: Seq<Fact>, picks: Seq<bool>, keep: spec_fn(Fact) -> bool)
    requires
        picks.len() == src.len(),
        forall|i: int| 0 <= i < src.len() ==> #[trigger] picks[i] == keep(src[i]),
    ensures
        picked(src, picks) == src.filter(keep),
    decreases src.len(),
{
    broadcast use Seq::lemma_filter_push;

    if src.len() > 0 {
        let n = src.len() - 1;
        assert forall|i: int| 0 <= i < n implies #[trigger] picks.drop_last()[i] == keep(
            src.drop_last()[i],
        ) by {
            assert(picks[i] == keep(src[i]));
        }
        lemma_picked_filter(src.drop_last(), picks.drop_last(), keep);
        assert(src.drop_last().push(src.last()) =~= src);
        assert(picks[n] == keep(src[n]));
    } else {
        assert(src =~= Seq::<Fact>::empty());
    }
}

/// Where each verdict is fixed by `keep`, a sifted sequence is the filter by
/// `keep`.
pub proof fn lemma_sifted_filter(
    src: Seq<Fact>,
    out: Seq<Fact>,
    verdict: spec_fn(Fact, bool) -> bool,
    keep: spec_fn(Fact) -> bool,
)
    requires
        sifted(src, out, verdict),
        forall|x: Fact, b: bool| #[trigger] verdict(x, b) ==> b == keep(x),
    ensures
        out == src.filter(keep),
{
    let picks = choose|picks: Seq<bool>|
        picks.len() == src.len() && (forall|i: int|
            0 <= i < src.len() ==> verdict(src[i], #[trigger] picks[i])) && out == picked(
            src,
            picks,
        );
    assert forall|i: int| 0 <= i < src.len() implies #[trigger] picks[i] == keep(src[i]) by {
        assert(verdict(src[i], picks[i]));
    }
    lemma_picked_filter(src, picks, keep);
}

proof fn lemma_picked_narrows(src: Seq<Fact>, picks: Seq<bool>)
    ensures
        picked(src, picks).len() <= src.len(),
        forall|i: int|
            0 <= i < picked(src, picks).len() ==> src.contains(#[trigger] picked(src, picks)[i]),
    decreases src.len(),
{
    if src.len() > 0 {
        let rest = picked(src.drop_last(), picks.drop_last());
        lemma_picked_narrows(src.drop_last(), picks.drop_last());
        assert forall|i: int| 0 <= i < picked(src, picks).len() implies src.contains(
            #[trigger] picked(src, picks)[i],
        ) by {
            if i < rest.len() {
                let k = choose|k: int|
                    0 <= k < src.drop_last().len() && src.drop_last()[k] == rest[i];
                assert(src[k] == rest[i]);
            } else {
                assert(src[src.len() - 1] == src.last());
            }
        }
    }
}

/// A query only narrows: the space it returns is no longer than the one it
/// was asked of, and holds only facts of that space.
pub proof fn lemma_sifted_narrows(
    src: Seq<Fact>,
    out: Seq<Fact>,
    verdict: spec_fn(Fact, bool) -> bool,
)
    requires
        sifted(src, out, verdict),
    ensures
        out.len() <= src.len(),
        forall|i: int| 0 <= i < out.len() ==> src.contains(#[trigger] out[i]),
{
    let picks = choose|picks: Seq<bool>|
        picks.len() == src.len() && (forall|i: int|
            0 <= i < src.len() ==> verdict(src[i], #[trigger] picks[i])) && out == picked(
            src,
            picks,
        );
    lemma_picked_narrows(src, picks);
}

proof fn lemma_sifted_weaken(
    src: Seq<Fact>,
    out: Seq<Fact>,
    narrow: spec_fn(Fact, bool) -> bool,
    wide: spec_fn(Fact, bool) -> bool,
)
    requires
        sifted(src, out, narrow),
        forall|x: Fact, b: bool| #[trigger] narrow(x, b) ==> wide(x, b),
    ensures
        sifted(src, out, wide),
{
    let picks = choose|picks: Seq<bool>|
        picks.len() == src.len() && (forall|i: int|
            0 <= i < src.len() ==> narrow(src[i], #[trigger] picks[i])) && out == picked(
            src,
            picks,
        );
    assert forall|i: int| 0 <= i < src.len() implies wide(src[i], #[trigger] picks[i]) by {
        assert(narrow(src[i], picks[i]));
    }
}

/// A collection of facts that queries narrow into new collections.
pub struct FactSpace {
    facts: Vec<Fact>,
}

impl View for FactSpace {
    type V = Seq<Fact>;

    closed spec fn view(&self) -> Seq<Fact> {
        self.facts@
    }
}

/// A copy of `facts`.
fn copy_facts(facts: &Vec<Fact>) -> (r: Vec<Fact>)
    ensures
        r@ == facts@,
{
    let mut r: Vec<Fact> = Vec::new();
    let mut i: usize = 0;
    while i < facts.len()
        invariant
            i <= facts.len(),
            r@ == facts@.take(i as int),
        decreases facts.len() - i,
    {
        r.push(facts[i].duplicate());
        assert(r@ =~= facts@.take(i + 1));
        i = i + 1;
    }
    assert(facts@.take(i as int) =~= facts@);
    r
}

/// Whether `ids` holds `x`.
fn holds_id(ids: &Vec<i64>, x: i64) -> (r: bool)
    ensures
        r == ids@.contains(x),
{
    let mut i: usize = 0;
    while i < ids.len()
        invariant
            i <= ids.len(),
            forall|j: int| 0 <= j < i ==> ids@[j] != x,
        decreases ids.len() - i,
    {
        if ids[i] == x {
            assert(ids@[i as int] == x);
            return true;
        }
        i = i + 1;
    }
    false
}

/// The sequence `s` has no repeated element and is in increasing order.
pub open spec fn strictly_increasing(s: Seq<i64>) -> bool {
    forall|i: int, j: int| 0 <= i < j < s.len() ==> s[i] < s[j]
}

impl FactSpace {
    /// A space over a copy of `facts`.
    pub fn from_facts(facts: &Vec<Fact>) -> (r: FactSpace)
        ensures
            r@ == facts@,
    {
        FactSpace { facts: copy_facts(facts) }
    }

    /// A space that takes over the boxed `facts`.
    pub fn from_heap(facts: Box<Vec<Fact>>) -> (r: FactSpace)
        ensures
            r@ == facts@,
    {
        FactSpace { facts: *facts }
    }

    /// The facts of the space, in order.
    pub fn facts(&self) -> (r: &Vec<Fact>)
        ensures
            r@ == self@,
    {
        &self.facts
    }

    /// The number of facts.
    pub fn len(&self) -> (r: usize)
        ensures
            r == self@.len(),
    {
        self.facts.len()
    }

    /// The facts for which `f(subject, predicate, object)` returns true.
    pub fn match_any<F: Fn(i64, Predicate, &ObjectValue) -> bool>(&self, f: F) -> (r: FactSpace)
        requires
            forall|s: i64, p: Predicate, o: &ObjectValue| f.requires((s, p, o)),
        ensures
            sifted(
                self@,
                r@,
                |x: Fact, b: bool| f.ensures((x.subject, x.predicate, &x.object), b),
            ),
    {
        let ghost verdict = |x: Fact, b: bool| f.ensures((x.subject, x.predicate, &x.object), b);
        let mut out: Vec<Fact> = Vec::new();
        let ghost mut picks = Seq::<bool>::empty();
        let mut i: usize = 0;
        while i < self.facts.len()
            invariant
                i <= self.facts.len(),
                forall|s: i64, p: Predicate, o: &ObjectValue| f.requires((s, p, o)),
                verdict == (|x: Fact, b: bool| f.ensures((x.subject, x.predicate, &x.object), b)),
                picks.len() == i,
                forall|j: int| 0 <= j < i ==> verdict(self.facts@[j], #[trigger] picks[j]),
                out@ == picked(self.facts@.take(i as int), picks),
            decreases self.facts.len() - i,
        {
            let x = &self.facts[i];
            let keep = f(x.subject, x.predicate, &x.object);
            if keep {
                out.push(x.duplicate());
            }
            proof {
                let before = picks;
                picks = picks.push(keep);
                assert(picks.drop_last() =~= before);
                assert(self.facts@.take(i + 1).drop_last() =~= self.facts@.take(i as int));
                assert(verdict(self.facts@[i as int], picks[i as int]));
            }
            i = i + 1;
        }
        assert(self.facts@.take(i as int) =~= self.facts@);
        FactSpace { facts: out }
    }

    /// The facts for which `f(subject, predicate)` returns true.
    pub fn match_objects<F: Fn(i64, Predicate) -> bool>(&self, f: F) -> (r: FactSpace)
        requires
            forall|s: i64, p: Predicate| f.requires((s, p)),
        ensures
            sifted(self@, r@, |x: Fact, b: bool| f.ensures((x.subject, x.predicate), b)),
    {
        let f = &f;
        let g = |s: i64, p: Predicate, o: &ObjectValue| -> (b: bool)
            requires
                forall|s: i64, p: Predicate| f.requires((s, p)),
            ensures
                f.ensures((s, p), b),
            { f(s, p) };
        let r = self.match_any(g);
        proof {
            lemma_sifted_weaken(
                self@,
                r@,
                |x: Fact, b: bool| g.ensures((x.subject, x.predicate, &x.object), b),
                |x: Fact, b: bool| f.ensures((x.subject, x.predicate), b),
            );
        }
        r
    }

    /// The facts whose predicate passes `f`.
    pub fn match_predicates<F: Fn(Predicate) -> bool>(&self, f: F) -> (r: FactSpace)
        requires
            forall|p: Predicate| f.requires((p,)),
        ensures
            sifted(self@, r@, |x: Fact, b: bool| f.ensures((x.predicate,), b)),
    {
        let f = &f;
        let g = |s: i64, p: Predicate, o: &ObjectValue| -> (b: bool)
            requires
                forall|p: Predicate| f.requires((p,)),
            ensures
                f.ensures((p,), b),
            { f(p) };
        let r = self.match_any(g);
        proof {
            lemma_sifted_weaken(
                self@,
                r@,
                |x: Fact, b: bool| g.ensures((x.subject, x.predicate, &x.object), b),
                |x: Fact, b: bool| f.ensures((x.predicate,), b),
            );
        }
        r
    }

    /// The facts for which `f(predicate, object)` returns true.
    pub fn match_subjects<F: Fn(Predicate, &ObjectValue) -> bool>(&self, f: F) -> (r: FactSpace)
        requires
            forall|p: Predicate, o: &ObjectValue| f.requires((p, o)),
        ensures
            sifted(self@, r@, |x: Fact, b: bool| f.ensures((x.predicate, &x.object), b)),
    {
        let f = &f;
        let g = |s: i64, p: Predicate, o: &ObjectValue| -> (b: bool)
            requires
                forall|p: Predicate, o: &ObjectValue| f.requires((p, o)),
            ensures
                f.ensures((p, o), b),
            { f(p, o) };
        let r = self.match_any(g);
        proof {
            lemma_sifted_weaken(
                self@,
                r@,
                |x: Fact, b: bool| g.ensures((x.subject, x.predicate, &x.object), b),
                |x: Fact, b: bool| f.ensures((x.predicate, &x.object), b),
            );
        }
        r
    }

    /// The facts whose object is a literal and for which `f(predicate,
    /// literal)` returns true; facts whose object is an identifier are left
    /// out.
    pub fn match_subject_with_literal<F: Fn(Predicate, &LiteralValue) -> bool>(
        &self,
        f: F,
    ) -> (r: FactSpace)
        requires
            forall|p: Predicate, l: &LiteralValue| f.requires((p, l)),
        ensures
            sifted(
                self@,
                r@,
                |x: Fact, b: bool|
                    match x.object {
                        ObjectValue::Literal(l) => f.ensures((x.predicate, &l), b),
                        ObjectValue::Id(_) => !b,
                    },
            ),
    {
        let f = &f;
        let g = |s: i64, p: Predicate, o: &ObjectValue| -> (b: bool)
            requires
                forall|p: Predicate, l: &LiteralValue| f.requires((p, l)),
            ensures
                match *o {
                    ObjectValue::Literal(l) => f.ensures((p, &l), b),
                    ObjectValue::Id(_) => !b,
                },
            {
                match o {
                    ObjectValue::Literal(l) => f(p, l),
                    ObjectValue::Id(_) => false,
                }
            };
        let r = self.match_any(g);
        proof {
            lemma_sifted_weaken(
                self@,
                r@,
                |x: Fact, b: bool| g.ensures((x.subject, x.predicate, &x.object), b),
                |x: Fact, b: bool|
                    match x.object {
                        ObjectValue::Literal(l) => f.ensures((x.predicate, &l), b),
                        ObjectValue::Id(_) => !b,
                    },
            );
        }
        r
    }

    /// The facts whose object is an integer literal `n` with `f(predicate,
    /// n)` true; all other facts are left out.
    pub fn match_subject_with_integer<F: Fn(Predicate, i64) -> bool>(
        &self,
        f: F,
    ) -> (r: FactSpace)
        requires
            forall|p: Predicate, n: i64| f.requires((p, n)),
        ensures
            sifted(
                self@,
                r@,
                |x: Fact, b: bool|
                    match x.object {
                        ObjectValue::Literal(LiteralValue::Integer(n)) => f.ensures(
                            (x.predicate, n),
                            b,
                        ),
                        _ => !b,
                    },
            ),
    {
        let f = &f;
        let g = |p: Predicate, l: &LiteralValue| -> (b: bool)
            requires
                forall|p: Predicate, n: i64| f.requires((p, n)),
            ensures
                match *l {
                    LiteralValue::Integer(n) => f.ensures((p, n), b),
                    LiteralValue::Text(_) => !b,
                },
            {
                match l {
                    LiteralValue::Integer(n) => f(p, *n),
                    LiteralValue::Text(_) => false,
                }
            };
        let r = self.match_subject_with_literal(g);
        proof {
            lemma_sifted_weaken(
                self@,
                r@,
                |x: Fact, b: bool|
                    match x.object {
                        ObjectValue::Literal(l) => g.ensures((x.predicate, &l), b),
                        ObjectValue::Id(_) => !b,
                    },
                |x: Fact, b: bool|
                    match x.object {
                        ObjectValue::Literal(LiteralValue::Integer(n)) => f.ensures(
                            (x.predicate, n),
                            b,
                        ),
                        _ => !b,
                    },
            );
        }
        r
    }

    /// The facts whose object is a text literal `t` with `f(predicate, t)`
    /// true; all other facts are left out.
    pub fn match_subject_with_text<F: Fn(Predicate, &str) -> bool>(&self, f: F) -> (r: FactSpace)
        requires
            forall|p: Predicate, t: &str| f.requires((p, t)),
        ensures
            sifted(
                self@,
                r@,
                |x: Fact, b: bool|
                    match x.object {
                        ObjectValue::Literal(LiteralValue::Text(t)) => exists|u: &str|
                            u@ == t@ && f.ensures((x.predicate, u), b),
                        _ => !b,
                    },
            ),
    {
        let f = &f;
        let g = |p: Predicate, l: &LiteralValue| -> (b: bool)
            requires
                forall|p: Predicate, t: &str| f.requires((p, t)),
            ensures
                match *l {
                    LiteralValue::Text(t) => exists|u: &str| u@ == t@ && f.ensures((p, u), b),
                    LiteralValue::Integer(_) => !b,
                },
            {
                match l {
                    LiteralValue::Text(t) => {
                        let u = t.as_str();
                        let b = f(p, u);
                        assert(u@ == t@ && f.ensures((p, u), b));
                        b
                    },
                    LiteralValue::Integer(_) => false,
                }
            };
        let r = self.match_subject_with_literal(g);
        proof {
            lemma_sifted_weaken(
                self@,
                r@,
                |x: Fact, b: bool|
                    match x.object {
                        ObjectValue::Literal(l) => g.ensures((x.predicate, &l), b),
                        ObjectValue::Id(_) => !b,
                    },
                |x: Fact, b: bool|
                    match x.object {
                        ObjectValue::Literal(LiteralValue::Text(t)) => exists|u: &str|
                            u@ == t@ && f.ensures((x.predicate, u), b),
                        _ => !b,
                    },
            );
        }
        r
    }

    /// The objects of all facts as literals; a fact whose object is an
    /// identifier makes it a type mismatch.
    pub fn as_literals(&self) -> (r: Result<Vec<LiteralValue>, FactError>)
        ensures
            r is Ok <==> forall|i: int|
                0 <= i < self@.len() ==> (#[trigger] self@[i]).object is Literal,
            r matches Ok(v) ==> v@.len() == self@.len() && forall|i: int|
                0 <= i < v@.len() ==> ObjectValue::Literal(#[trigger] v@[i]) == self@[i].object,
            r matches Err(e) ==> e == FactError::TypeMismatch,
    {
        let mut out: Vec<LiteralValue> = Vec::new();
        let mut i: usize = 0;
        while i < self.facts.len()
            invariant
                i <= self.facts.len(),
                out@.len() == i,
                forall|j: int|
                    0 <= j < i ==> ObjectValue::Literal(#[trigger] out@[j]) == self@[j].object,
            decreases self.facts.len() - i,
        {
            match &self.facts[i].object {
                ObjectValue::Literal(l) => {
                    out.push(l.duplicate());
                },
                ObjectValue::Id(_) => {
                    assert(!(self@[i as int].object is Literal));
                    return Err(FactError::TypeMismatch);
                },
            }
            i = i + 1;
        }
        assert forall|j: int| 0 <= j < self@.len() implies (#[trigger] self@[j]).object
            is Literal by {
            assert(ObjectValue::Literal(out@[j]) == self@[j].object);
        }
        Ok(out)
    }

    /// The one fact of the space; a space of another size is a cardinality
    /// error.
    pub fn single(&self) -> (r: Result<Fact, FactError>)
        ensures
            r == (if self@.len() == 1 {
                Ok(self@[0])
            } else {
                Err(FactError::Cardinality)
            }),
    {
        if self.facts.len() == 1 {
            Ok(self.facts[0].duplicate())
        } else {
            Err(FactError::Cardinality)
        }
    }

    /// The subjects of the facts, each once, in increasing order.
    pub fn get_subjects(&self) -> (r: Vec<i64>)
        ensures
            strictly_increasing(r@),
            forall|x: i64|
                r@.contains(x) <==> exists|i: int|
                    0 <= i < self@.len() && #[trigger] self@[i].subject == x,
    {
        let mut out: Vec<i64> = Vec::new();
        let mut i: usize = 0;
        while i < self.facts.len()
            invariant
                i <= self.facts.len(),
                strictly_increasing(out@),
                forall|x: i64|
                    out@.contains(x) <==> exists|j: int|
                        0 <= j < i && #[trigger] self@[j].subject == x,
            decreases self.facts.len() - i,
        {
            let s = self.facts[i].subject;
            let mut pos: usize = 0;
            while pos < out.len() && out[pos] < s
                invariant
                    pos <= out.len(),
                    forall|q: int| 0 <= q < pos ==> out@[q] < s,
                decreases out.len() - pos,
            {
                pos = pos + 1;
            }
            let ghost before = out@;
            if pos < out.len() && out[pos] == s {
                assert(before.contains(s) && before[pos as int] == s);
            } else {
                out.insert(pos, s);
                assert(out@ == before.insert(pos as int, s));
                assert forall|a: int, b: int| 0 <= a < b < out@.len() implies out@[a] < out@[b] by {
                    if b > pos {
                        assert(out@[b] == before[b - 1]);
                        if a == pos {
                            assert(before[pos as int] > s);
                            assert(before[pos as int] <= before[b - 1]);
                        } else if a > pos {
                            assert(out@[a] == before[a - 1]);
                        }
                    }
                }
                assert forall|x: i64| out@.contains(x) <==> (before.contains(x) || x == s) by {
                    if out@.contains(x) {
                        let k = choose|k: int| 0 <= k < out@.len() && out@[k] == x;
                        if k < pos {
                            assert(before[k] == x);
                        } else if k > pos {
                            assert(before[k - 1] == x);
                        }
                    }
                    if before.contains(x) {
                        let k = choose|k: int| 0 <= k < before.len() && before[k] == x;
                        if k < pos {
                            assert(out@[k] == x);
                        } else {
                            assert(out@[k + 1] == x);
                        }
                    }
                    if x == s {
                        assert(out@[pos as int] == x);
                    }
                }
            }
            assert forall|x: i64|
                out@.contains(x) <==> exists|j: int|
                    0 <= j < i + 1 && #[trigger] self@[j].subject == x by {
                if exists|j: int| 0 <= j < i + 1 && #[trigger] self@[j].subject == x {
                    let j = choose|j: int| 0 <= j < i + 1 && #[trigger] self@[j].subject == x;
                    if j < i {
                        assert(before.contains(x));
                    }
                }
                if before.contains(x) {
                    let j = choose|j: int| 0 <= j < i && #[trigger] self@[j].subject == x;
                    assert(0 <= j < i + 1);
                }
            }
            i = i + 1;
        }
        out
    }

    /// Whether some fact has the subject `subject`.
    pub fn contains_subject(&self, subject: i64) -> (r: bool)
        ensures
            r == exists|i: int| 0 <= i < self@.len() && #[trigger] self@[i].subject == subject,
    {
        let mut i: usize = 0;
        while i < self.facts.len()
            invariant
                i <= self.facts.len(),
                forall|j: int| 0 <= j < i ==> #[trigger] self@[j].subject != subject,
            decreases self.facts.len() - i,
        {
            if self.facts[i].subject == subject {
                return true;
            }
            i = i + 1;
        }
        false
    }

    /// The facts about `subject`.
    pub fn open_subject(&self, subject: i64) -> (r: FactSpace)
        ensures
            r@ == self@.filter(|x: Fact| x.subject == subject),
    {
        let g = |s: i64, p: Predicate, o: &ObjectValue| -> (b: bool)
            ensures
                b == (s == subject),
            { s == subject };
        let r = self.match_any(g);
        proof {
            lemma_sifted_filter(
                self@,
                r@,
                |x: Fact, b: bool| g.ensures((x.subject, x.predicate, &x.object), b),
                |x: Fact| x.subject == subject,
            );
        }
        r
    }

    /// The facts about any of `subjects`.
    pub fn open_subjects(&self, subjects: Vec<i64>) -> (r: FactSpace)
        ensures
            r@ == self@.filter(|x: Fact| subjects@.contains(x.subject)),
    {
        let ids = &subjects;
        let g = |s: i64, p: Predicate, o: &ObjectValue| -> (b: bool)
            ensures
                b == ids@.contains(s),
            { holds_id(ids, s) };
        let r = self.match_any(g);
        proof {
            lemma_sifted_filter(
                self@,
                r@,
                |x: Fact, b: bool| g.ensures((x.subject, x.predicate, &x.object), b),
                |x: Fact| subjects@.contains(x.subject),
            );
        }
        r
    }
}

} // verus!
