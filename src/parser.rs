//! The sentence windowing parser: words are grouped into overlapping islands,
//! and each word of an island becomes an occurrence with three facts.

use vstd::prelude::*;

use crate::fact::{Fact, FactModel, IdAllocator, LiteralValue, ObjectModel, ObjectValue, Predicate};
use crate::space::FactSpace;
use crate::words::{lemma_split_len, split_words, texts, words_of};

verus! {

/// Half-width of an island: the words on each side of its reference word.
pub const ISLAND_RADIUS: usize = 2;

/// Width of a sliding island.
pub const ISLAND_SIZE: usize = 5;

/// The longest text, in characters, that `parse` takes: every occurrence and
/// every island needs an `i64` identifier.
pub const MAX_TEXT_CHARS: u64 = 1099511627776;

pub open spec fn min(a: int, b: int) -> int {
    if a <= b {
        a
    } else {
        b
    }
}

/// The boundary islands of a text of `w` words: island `i`, for each of the
/// first `radius` words, covers positions `0 .. i + radius` (as far as there
/// are words) and gives position `p` the distance `i - p`.
pub open spec fn boundary_islands(w: int, radius: int) -> Seq<Seq<(int, int)>> {
    Seq::new(
        min(radius, w) as nat,
        |i: int| Seq::new(min(i + radius, w) as nat, |p: int| (p, i - p)),
    )
}

/// How many spans of `size` consecutive words a text of `w` words has.
pub open spec fn sliding_count(w: int, size: int) -> int {
    if w >= size {
        w - size + 1
    } else {
        0
    }
}

/// The sliding islands: one per span of `size` consecutive words, giving the
/// word at local offset `j` the distance `j - radius`.
pub open spec fn sliding_islands(w: int, radius: int, size: int) -> Seq<Seq<(int, int)>> {
    Seq::new(
        sliding_count(w, size) as nat,
        |k: int| Seq::new(size as nat, |j: int| (k + j, j - radius)),
    )
}

/// All islands, boundary ones first; each is a list of (position, distance).
pub open spec fn islands(w: int, radius: int, size: int) -> Seq<Seq<(int, int)>> {
    boundary_islands(w, radius) + sliding_islands(w, radius, size)
}

/// The three facts of one occurrence: its island, its word and its distance.
pub open spec fn occurrence_facts(id: int, island: int, word: Seq<char>, distance: int) -> Seq<
    FactModel,
> {
    seq![
        FactModel { subject: id, predicate: Predicate::Node, object: ObjectModel::Id(island) },
        FactModel { subject: id, predicate: Predicate::Word, object: ObjectModel::Text(word) },
        FactModel {
            subject: id,
            predicate: Predicate::Distance,
            object: ObjectModel::Integer(distance),
        },
    ]
}

/// The facts of the island `island` with the given members; its `t`-th
/// member gets the identifier `island + t + 1`.
pub open spec fn island_facts(words: Seq<Seq<char>>, members: Seq<(int, int)>, island: int) -> Seq<
    FactModel,
>
    decreases members.len(),
{
    if members.len() == 0 {
        Seq::empty()
    } else {
        island_facts(words, members.drop_last(), island) + occurrence_facts(
            island + members.len(),
            island,
            words[members.last().0],
            members.last().1,
        )
    }
}

/// How many identifiers the islands take: one for each island and one for
/// each of its members.
pub open spec fn span(isl: Seq<Seq<(int, int)>>) -> int
    decreases isl.len(),
{
    if isl.len() == 0 {
        0
    } else {
        span(isl.drop_last()) + 1 + isl.last().len()
    }
}

/// The facts of the islands in order, identifiers counting up from `last + 1`.
pub open spec fn emitted(words: Seq<Seq<char>>, isl: Seq<Seq<(int, int)>>, last: int) -> Seq<
    FactModel,
>
    decreases isl.len(),
{
    if isl.len() == 0 {
        Seq::empty()
    } else {
        emitted(words, isl.drop_last(), last) + island_facts(
            words,
            isl.last(),
            last + span(isl.drop_last()) + 1,
        )
    }
}

/// The facts of a sequence of words for the given island shape, with
/// identifiers from 1.
pub open spec fn window_facts(words: Seq<Seq<char>>, radius: int, size: int) -> Seq<FactModel> {
    emitted(words, islands(words.len() as int, radius, size), 0)
}

/// The facts that `parse` makes of a text.
pub open spec fn parsed(t: Seq<char>) -> Seq<FactModel> {
    window_facts(words_of(t), ISLAND_RADIUS as int, ISLAND_SIZE as int)
}

/// The models of a sequence of facts.
pub open spec fn models(v: Seq<Fact>) -> Seq<FactModel> {
    v.map_values(|f: Fact| f@)
}

/// The members of a run: `count` consecutive positions from `first`, with
/// distances counting up or down from `base`.
spec fn run(first: int, count: int, base: int, ascending: bool) -> Seq<(int, int)> {
    Seq::new(count as nat, |t: int| (first + t, if ascending { base + t } else { base - t }))
}

proof fn lemma_span_take(isl: Seq<Seq<(int, int)>>, k: int, bound: int)
    requires
        0 <= k <= isl.len(),
        0 <= bound,
        forall|j: int| 0 <= j < isl.len() ==> #[trigger] isl[j].len() <= bound,
    ensures
        0 <= span(isl.take(k)) <= k * (1 + bound),
    decreases k,
{
    if k > 0 {
        lemma_span_take(isl, k - 1, bound);
        assert(isl.take(k).drop_last() =~= isl.take(k - 1));
        assert(span(isl.take(k)) == span(isl.take(k - 1)) + 1 + isl[k - 1].len());
        assert((k - 1) * (1 + bound) + 1 + bound == k * (1 + bound)) by (nonlinear_arith);
    }
}

/// Appends the facts of one island whose identifier `island` was just minted.
fn emit_run(
    words: &Vec<String>,
    first: usize,
    count: usize,
    base: i64,
    ascending: bool,
    island: i64,
    alloc: &mut IdAllocator,
    out: &mut Vec<Fact>,
)
    requires
        first + count <= words.len(),
        old(alloc).last_issued() == island,
        island + count <= i64::MAX,
        -0x1000_0000_0000 <= base <= 0x1000_0000_0000,
        count <= 0x1000_0000_0000,
    ensures
        final(alloc).last_issued() == island + count,
        models(final(out)@) == models(old(out)@) + island_facts(
            texts(words@),
            run(first as int, count as int, base as int, ascending),
            island as int,
        ),
{
    let ghost members = run(first as int, count as int, base as int, ascending);
    let ghost start = models(out@);
    let mut t: usize = 0;
    assert(members.take(0) =~= Seq::<(int, int)>::empty());
    assert(models(out@) =~= start + island_facts(texts(words@), members.take(0), island as int));
    while t < count
        invariant
            t <= count,
            first + count <= words.len(),
            island + count <= i64::MAX,
            -0x1000_0000_0000 <= base <= 0x1000_0000_0000,
            count <= 0x1000_0000_0000,
            members == run(first as int, count as int, base as int, ascending),
            alloc.last_issued() == island + t,
            models(out@) == start + island_facts(
                texts(words@),
                members.take(t as int),
                island as int,
            ),
        decreases count - t,
    {
        let distance: i64 = if ascending {
            base + t as i64
        } else {
            base - t as i64
        };
        let id = alloc.new_id();
        let ghost before = models(out@);
        out.push(Fact::new_object_fact(id, Predicate::Node, island));
        out.push(
            Fact {
                subject: id,
                predicate: Predicate::Word,
                object: ObjectValue::Literal(LiteralValue::Text(words[first + t].clone())),
            },
        );
        out.push(Fact::new_integer_fact(id, Predicate::Distance, distance));
        assert(members.take(t + 1).drop_last() =~= members.take(t as int));
        assert(members.take(t + 1).last() == members[t as int]);
        assert(texts(words@)[first + t] == words@[first + t]@);
        assert(models(out@) =~= before + occurrence_facts(
            island + t + 1,
            island as int,
            texts(words@)[first + t],
            distance as int,
        ));
        t = t + 1;
    }
    assert(members.take(count as int) =~= members);
}

/// The facts of `words` for islands of the given shape, identifiers from 1.
fn window_facts_of(words: &Vec<String>, radius: usize, size: usize) -> (r: Vec<Fact>)
    requires
        radius < size <= 1024,
        words.len() <= MAX_TEXT_CHARS + 1,
    ensures
        models(r@) == window_facts(texts(words@), radius as int, size as int),
{
    let w = words.len();
    let ghost isl = islands(w as int, radius as int, size as int);
    let ghost bound: int = 2 * radius + size;
    let boundary: usize = if radius <= w {
        radius
    } else {
        w
    };
    let sliding: usize = if w >= size {
        (w - size) + 1
    } else {
        0
    };
    assert(boundary + sliding <= w);
    assert(isl.len() == boundary + sliding);
    assert forall|j: int| 0 <= j < isl.len() implies #[trigger] isl[j].len() <= bound by {
        if j >= boundary {
            assert(isl[j] == sliding_islands(w as int, radius as int, size as int)[j - boundary]);
        }
    }
    let mut alloc = IdAllocator::new();
    let mut out: Vec<Fact> = Vec::new();
    let mut k: usize = 0;
    assert(isl.take(0) =~= Seq::<Seq<(int, int)>>::empty());
    assert(models(out@) =~= Seq::<FactModel>::empty());
    while k < boundary + sliding
        invariant
            k <= boundary + sliding,
            w == words.len(),
            radius < size <= 1024,
            w <= MAX_TEXT_CHARS + 1,
            boundary + sliding <= w,
            boundary == min(radius as int, w as int),
            sliding == sliding_count(w as int, size as int),
            isl == islands(w as int, radius as int, size as int),
            isl.len() == boundary + sliding,
            bound == 2 * radius + size,
            forall|j: int| 0 <= j < isl.len() ==> #[trigger] isl[j].len() <= bound,
            alloc.last_issued() == span(isl.take(k as int)),
            models(out@) == emitted(texts(words@), isl.take(k as int), 0),
        decreases boundary + sliding - k,
    {
        proof {
            lemma_span_take(isl, k + 1, bound);
            assert(isl.take(k + 1).drop_last() =~= isl.take(k as int));
            assert(isl.take(k + 1).last() == isl[k as int]);
            assert((k + 1) * (1 + bound) <= 0x20_0000_0000_0000) by (nonlinear_arith)
                requires
                    k + 1 <= MAX_TEXT_CHARS + 1,
                    bound <= 3072,
            ;
        }
        let island = alloc.new_id();
        let ghost before = models(out@);
        if k < boundary {
            let count: usize = if k + radius <= w {
                k + radius
            } else {
                w
            };
            emit_run(words, 0, count, k as i64, false, island, &mut alloc, &mut out);
            assert(run(0, count as int, k as int, false) =~= isl[k as int]);
        } else {
            emit_run(
                words,
                k - boundary,
                size,
                0 - radius as i64,
                true,
                island,
                &mut alloc,
                &mut out,
            );
            assert(isl[k as int] == sliding_islands(w as int, radius as int, size as int)[k
                - boundary]);
            assert(run((k - boundary) as int, size as int, 0 - radius, true) =~= isl[k as int]);
        }
        k = k + 1;
    }
    assert(isl.take(k as int) =~= isl);
    out
}

/// A text's words, and the same words cut into the first `ISLAND_RADIUS`,
/// the last `ISLAND_RADIUS` of the rest, and what lies between.
pub struct SentenceSplit {
    pub all_words: Vec<String>,
    pub initial_words: Vec<String>,
    pub middle_words: Vec<String>,
    pub tail_words: Vec<String>,
}

/// How many words open a text of `w` words.
pub open spec fn initial_count(w: int) -> int {
    min(ISLAND_RADIUS as int, w)
}

/// How many words close a text of `w` words, after the opening ones.
pub open spec fn tail_count(w: int) -> int {
    min(ISLAND_RADIUS as int, w - initial_count(w))
}

/// A copy of `v[from..to]`.
fn copy_range(v: &Vec<String>, from: usize, to: usize) -> (r: Vec<String>)
    requires
        from <= to <= v.len(),
    ensures
        r@ == v@.subrange(from as int, to as int),
{
    let mut r: Vec<String> = Vec::new();
    let mut i: usize = from;
    while i < to
        invariant
            from <= i <= to <= v.len(),
            r@ == v@.subrange(from as int, i as int),
        decreases to - i,
    {
        r.push(v[i].clone());
        assert(r@ =~= v@.subrange(from as int, i + 1));
        i = i + 1;
    }
    r
}

/// Splits a text into its words and cuts them into opening, middle and
/// closing words; a text too short for both ends gives what it has to the
/// opening words first.
pub fn split_sentence(text: &str) -> (r: SentenceSplit)
    ensures
        texts(r.all_words@) == words_of(text@),
        r.initial_words@ == r.all_words@.take(initial_count(r.all_words@.len() as int)),
        r.middle_words@ == r.all_words@.subrange(
            initial_count(r.all_words@.len() as int),
            r.all_words@.len() - tail_count(r.all_words@.len() as int),
        ),
        r.tail_words@ == r.all_words@.subrange(
            r.all_words@.len() - tail_count(r.all_words@.len() as int),
            r.all_words@.len() as int,
        ),
{
    let all_words = split_words(text);
    let w = all_words.len();
    let initial: usize = if ISLAND_RADIUS <= w {
        ISLAND_RADIUS
    } else {
        w
    };
    let tail: usize = if ISLAND_RADIUS <= w - initial {
        ISLAND_RADIUS
    } else {
        w - initial
    };
    let initial_words = copy_range(&all_words, 0, initial);
    let middle_words = copy_range(&all_words, initial, w - tail);
    let tail_words = copy_range(&all_words, w - tail, w);
    assert(all_words@.take(initial as int) =~= all_words@.subrange(0, initial as int));
    SentenceSplit { all_words, initial_words, middle_words, tail_words }
}

/// The facts of a text: for each island, boundary islands first, an island
/// identifier, then for each of its words an occurrence identifier with a
/// Node, a Word and a Distance fact. Identifiers count up from 1 in that
/// order. A text of fewer words than the boundary islands reach has them
/// clipped to its words; the empty text has no facts.
pub fn parse(text: &str) -> (r: Vec<Fact>)
    requires
        text@.len() <= MAX_TEXT_CHARS,
    ensures
        models(r@) == parsed(text@),
{
    let split = split_sentence(text);
    proof {
        lemma_split_len(text@);
    }
    window_facts_of(&split.all_words, ISLAND_RADIUS, ISLAND_SIZE)
}

/// A fact space over the facts of a text.
pub fn parse_space(text: &str) -> (r: FactSpace)
    requires
        text@.len() <= MAX_TEXT_CHARS,
    ensures
        models(r@) == parsed(text@),
{
    let boxed: Box<Vec<Fact>> = Box::new(parse(text));
    FactSpace::from_heap(boxed)
}

} // verus!
