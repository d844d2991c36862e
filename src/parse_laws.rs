//! What holds of every parse: how many facts it makes, that each occurrence
//! has one fact per predicate, and that each island has one reference word.

use vstd::prelude::*;

use crate::fact::{FactModel, ObjectModel, Predicate};
use crate::parser::{
    boundary_islands, emitted, island_facts, islands, occurrence_facts, parsed, sliding_islands,
    span, ISLAND_RADIUS, ISLAND_SIZE,
};
use crate::words::words_of;

verus! {

/// `n` terms `r, r + 1, ..., r + n - 1`, summed: the members of the first
/// `n` boundary islands when the text is long enough.
pub open spec fn opening_sum(n: int, r: int) -> int
    decreases n,
{
    if n <= 0 {
        0
    } else {
        opening_sum(n - 1, r) + (n - 1 + r)
    }
}

/// The number of members of all islands together.
pub open spec fn members_total(isl: Seq<Seq<(int, int)>>) -> int
    decreases isl.len(),
{
    if isl.len() == 0 {
        0
    } else {
        members_total(isl.drop_last()) + isl.last().len()
    }
}

proof fn lemma_island_facts_len(words: Seq<Seq<char>>, members: Seq<(int, int)>, island: int)
    ensures
        island_facts(words, members, island).len() == 3 * members.len(),
    decreases members.len(),
{
    if members.len() > 0 {
        lemma_island_facts_len(words, members.drop_last(), island);
    }
}

proof fn lemma_emitted_len(words: Seq<Seq<char>>, isl: Seq<Seq<(int, int)>>, last: int)
    ensures
        emitted(words, isl, last).len() == 3 * members_total(isl),
    decreases isl.len(),
{
    if isl.len() > 0 {
        lemma_emitted_len(words, isl.drop_last(), last);
        lemma_island_facts_len(words, isl.last(), last + span(isl.drop_last()) + 1);
    }
}

proof fn lemma_total_append(a: Seq<Seq<(int, int)>>, b: Seq<Seq<(int, int)>>)
    ensures
        members_total(a + b) == members_total(a) + members_total(b),
    decreases b.len(),
{
    if b.len() > 0 {
        lemma_total_append(a, b.drop_last());
        assert((a + b).drop_last() =~= a + b.drop_last());
    } else {
        assert(a + b =~= a);
    }
}

/// The total of the first `n` islands of `isl`, where island `k` has
/// `len(k)` members.
proof fn lemma_total_take(isl: Seq<Seq<(int, int)>>, n: int, len: spec_fn(int) -> int, r: int)
    requires
        0 <= n <= isl.len(),
        forall|k: int| 0 <= k < isl.len() ==> #[trigger] isl[k].len() == len(k),
        forall|k: int| 0 <= k < isl.len() ==> #[trigger] len(k) == k + r,
    ensures
        members_total(isl.take(n)) == opening_sum(n, r),
    decreases n,
{
    if n > 0 {
        lemma_total_take(isl, n - 1, len, r);
        assert(isl.take(n).drop_last() =~= isl.take(n - 1));
        assert(isl[n - 1].len() == len(n - 1));
    }
}

proof fn lemma_total_uniform(isl: Seq<Seq<(int, int)>>, n: int, size: int)
    requires
        0 <= n <= isl.len(),
        forall|k: int| 0 <= k < isl.len() ==> #[trigger] isl[k].len() == size,
    ensures
        members_total(isl.take(n)) == n * size,
    decreases n,
{
    if n > 0 {
        lemma_total_uniform(isl, n - 1, size);
        assert(isl.take(n).drop_last() =~= isl.take(n - 1));
        assert(isl.take(n).last() == isl[n - 1]);
        assert((n - 1) * size + size == n * size) by (nonlinear_arith);
    } else {
        assert(0 * size == 0);
    }
}

/// The number of facts of a parse: three for each occurrence, of which the
/// boundary islands hold `r + (r + 1) + ... + (2r - 1)` and the sliding
/// islands `size` for each span of `size` consecutive words. The count of
/// the boundary islands needs a text of at least `2r - 1` words.
pub proof fn lemma_parse_fact_count(t: Seq<char>)
    requires
        ISLAND_RADIUS <= words_of(t).len(),
        2 * ISLAND_RADIUS - 1 <= words_of(t).len(),
    ensures
        parsed(t).len() == 3 * opening_sum(ISLAND_RADIUS as int, ISLAND_RADIUS as int) + 3
            * ISLAND_SIZE * (if words_of(t).len() >= ISLAND_SIZE {
            words_of(t).len() - ISLAND_SIZE + 1
        } else {
            0
        }),
{
    let w = words_of(t).len() as int;
    let r = ISLAND_RADIUS as int;
    let size = ISLAND_SIZE as int;
    let b = boundary_islands(w, r);
    let s = sliding_islands(w, r, size);
    lemma_emitted_len(words_of(t), islands(w, r, size), 0);
    lemma_total_append(b, s);
    let len = |k: int| k + r;
    assert forall|k: int| 0 <= k < b.len() implies #[trigger] b[k].len() == len(k) by {}
    lemma_total_take(b, b.len() as int, len, r);
    assert(b.take(b.len() as int) =~= b);
    lemma_total_uniform(s, s.len() as int, size);
    assert(s.take(s.len() as int) =~= s);
}

/// Some fact of `f` has subject `s` and predicate `p`.
pub open spec fn has_fact(f: Seq<FactModel>, s: int, p: Predicate) -> bool {
    exists|j: int| 0 <= j < f.len() && f[j].subject == s && f[j].predicate == p
}

/// Every subject of `f` has exactly one fact of each predicate.
pub open spec fn one_per_predicate(f: Seq<FactModel>) -> bool {
    &&& forall|i: int, j: int|
        0 <= i < f.len() && 0 <= j < f.len() && i != j && #[trigger] f[i].subject
            == #[trigger] f[j].subject ==> f[i].predicate != f[j].predicate
    &&& forall|i: int|
        0 <= i < f.len() ==> {
            &&& has_fact(f, #[trigger] f[i].subject, Predicate::Word)
            &&& has_fact(f, f[i].subject, Predicate::Distance)
            &&& has_fact(f, f[i].subject, Predicate::Node)
        }
}

/// The subjects of `f` lie above `lo` and at most at `hi`.
spec fn subjects_within(f: Seq<FactModel>, lo: int, hi: int) -> bool {
    forall|i: int| 0 <= i < f.len() ==> lo < #[trigger] f[i].subject <= hi
}

proof fn lemma_span_nonnegative(isl: Seq<Seq<(int, int)>>)
    ensures
        span(isl) >= 0,
    decreases isl.len(),
{
    if isl.len() > 0 {
        lemma_span_nonnegative(isl.drop_last());
    }
}

proof fn lemma_one_per_predicate_concat(
    a: Seq<FactModel>,
    b: Seq<FactModel>,
    lo: int,
    mid: int,
    hi: int,
)
    requires
        one_per_predicate(a),
        one_per_predicate(b),
        subjects_within(a, lo, mid),
        subjects_within(b, mid, hi),
        lo <= mid <= hi,
    ensures
        one_per_predicate(a + b),
        subjects_within(a + b, lo, hi),
{
    let f = a + b;
    let n = a.len() as int;
    assert forall|i: int, j: int|
        0 <= i < f.len() && 0 <= j < f.len() && i != j && #[trigger] f[i].subject
            == #[trigger] f[j].subject implies f[i].predicate != f[j].predicate by {
        if i < n && j < n {
            assert(a[i].subject == a[j].subject);
        } else if i >= n && j >= n {
            assert(b[i - n].subject == b[j - n].subject);
        } else if i < n {
            assert(a[i].subject <= mid < b[j - n].subject);
        } else {
            assert(a[j].subject <= mid < b[i - n].subject);
        }
    }
    assert forall|i: int| 0 <= i < f.len() implies {
        &&& has_fact(f, #[trigger] f[i].subject, Predicate::Word)
        &&& has_fact(f, f[i].subject, Predicate::Distance)
        &&& has_fact(f, f[i].subject, Predicate::Node)
    } by {
        if i < n {
            assert(f[i] == a[i]);
            assert(has_fact(a, a[i].subject, Predicate::Word));
            assert(has_fact(a, a[i].subject, Predicate::Distance));
            assert(has_fact(a, a[i].subject, Predicate::Node));
            let jw = choose|j: int|
                0 <= j < a.len() && a[j].subject == a[i].subject && a[j].predicate
                    == Predicate::Word;
            let jd = choose|j: int|
                0 <= j < a.len() && a[j].subject == a[i].subject && a[j].predicate
                    == Predicate::Distance;
            let jn = choose|j: int|
                0 <= j < a.len() && a[j].subject == a[i].subject && a[j].predicate
                    == Predicate::Node;
            assert(f[jw] == a[jw] && f[jd] == a[jd] && f[jn] == a[jn]);
        } else {
            let k = i - n;
            assert(f[i] == b[k]);
            assert(has_fact(b, b[k].subject, Predicate::Word));
            assert(has_fact(b, b[k].subject, Predicate::Distance));
            assert(has_fact(b, b[k].subject, Predicate::Node));
            let jw = choose|j: int|
                0 <= j < b.len() && b[j].subject == b[k].subject && b[j].predicate
                    == Predicate::Word;
            let jd = choose|j: int|
                0 <= j < b.len() && b[j].subject == b[k].subject && b[j].predicate
                    == Predicate::Distance;
            let jn = choose|j: int|
                0 <= j < b.len() && b[j].subject == b[k].subject && b[j].predicate
                    == Predicate::Node;
            assert(f[jw + n] == b[jw] && f[jd + n] == b[jd] && f[jn + n] == b[jn]);
        }
    }
    assert forall|i: int| 0 <= i < f.len() implies lo < #[trigger] f[i].subject <= hi by {
        if i < n {
            assert(f[i] == a[i]);
        } else {
            assert(f[i] == b[i - n]);
        }
    }
}

proof fn lemma_island_one_per_predicate(
    words: Seq<Seq<char>>,
    members: Seq<(int, int)>,
    island: int,
)
    ensures
        one_per_predicate(island_facts(words, members, island)),
        subjects_within(island_facts(words, members, island), island, island + members.len()),
    decreases members.len(),
{
    let f = island_facts(words, members, island);
    if members.len() == 0 {
        assert(f.len() == 0);
    } else {
        let id = island + members.len();
        let rest = members.drop_last();
        lemma_island_one_per_predicate(words, rest, island);
        let t = occurrence_facts(id, island, words[members.last().0], members.last().1);
        assert(t[0].predicate == Predicate::Node && t[0].subject == id);
        assert(t[1].predicate == Predicate::Word && t[1].subject == id);
        assert(t[2].predicate == Predicate::Distance && t[2].subject == id);
        assert(has_fact(t, id, Predicate::Node));
        assert(has_fact(t, id, Predicate::Word));
        assert(has_fact(t, id, Predicate::Distance));
        assert(one_per_predicate(t));
        assert(subjects_within(t, id - 1, id));
        lemma_one_per_predicate_concat(
            island_facts(words, rest, island),
            t,
            island,
            id - 1,
            id,
        );
    }
}

proof fn lemma_emitted_one_per_predicate(
    words: Seq<Seq<char>>,
    isl: Seq<Seq<(int, int)>>,
    last: int,
)
    ensures
        one_per_predicate(emitted(words, isl, last)),
        subjects_within(emitted(words, isl, last), last, last + span(isl)),
    decreases isl.len(),
{
    if isl.len() == 0 {
        assert(emitted(words, isl, last).len() == 0);
    } else {
        let rest = isl.drop_last();
        let mid = last + span(rest);
        lemma_span_nonnegative(rest);
        lemma_emitted_one_per_predicate(words, rest, last);
        lemma_island_one_per_predicate(words, isl.last(), mid + 1);
        let b = island_facts(words, isl.last(), mid + 1);
        assert(subjects_within(b, mid, last + span(isl)));
        lemma_one_per_predicate_concat(
            emitted(words, rest, last),
            b,
            last,
            mid,
            last + span(isl),
        );
    }
}

/// Every occurrence that a parse makes has exactly one Word fact, one
/// Distance fact and one Node fact: no two facts of one subject share a
/// predicate, and each subject has a fact of every predicate.
pub proof fn lemma_occurrence_invariant(t: Seq<char>)
    ensures
        one_per_predicate(parsed(t)),
{
    let w = words_of(t);
    lemma_emitted_one_per_predicate(
        w,
        islands(w.len() as int, ISLAND_RADIUS as int, ISLAND_SIZE as int),
        0,
    );
}

/// `f[j]` places its subject in `island`, and `f[k]` gives that subject the
/// distance 0.
pub open spec fn reference_pair(f: Seq<FactModel>, island: int, j: int, k: int) -> bool {
    &&& 0 <= j < f.len()
    &&& 0 <= k < f.len()
    &&& f[j].predicate == Predicate::Node
    &&& f[j].object == ObjectModel::Id(island)
    &&& f[k].predicate == Predicate::Distance
    &&& f[k].subject == f[j].subject
    &&& f[k].object == ObjectModel::Integer(0)
}

/// Some member of `island` has the distance 0.
pub open spec fn has_reference(f: Seq<FactModel>, island: int) -> bool {
    exists|j: int, k: int| reference_pair(f, island, j, k)
}

/// At most one member of `island` has the distance 0.
pub open spec fn reference_unique(f: Seq<FactModel>, island: int) -> bool {
    forall|j1: int, k1: int, j2: int, k2: int|
        reference_pair(f, island, j1, k1) && reference_pair(f, island, j2, k2) ==> f[j1].subject
            == f[j2].subject
}

/// Each island that a Node fact of `f` names has exactly one member with the
/// distance 0.
pub open spec fn islands_closed(f: Seq<FactModel>) -> bool {
    forall|i: int|
        0 <= i < f.len() && (#[trigger] f[i]).predicate == Predicate::Node && f[i].object is Id
            ==> has_reference(f, f[i].object->Id_0) && reference_unique(f, f[i].object->Id_0)
}

/// The Node facts of `f` name islands above `lo` and at most at `hi`.
spec fn islands_within(f: Seq<FactModel>, lo: int, hi: int) -> bool {
    forall|i: int|
        0 <= i < f.len() && (#[trigger] f[i]).predicate == Predicate::Node ==> f[i].object is Id
            && lo < f[i].object->Id_0 <= hi
}

/// Exactly one member of the island has the distance 0.
spec fn one_reference(members: Seq<(int, int)>) -> bool {
    &&& exists|t: int| 0 <= t < members.len() && (#[trigger] members[t]).1 == 0
    &&& forall|t1: int, t2: int|
        0 <= t1 < members.len() && 0 <= t2 < members.len() && (#[trigger] members[t1]).1 == 0
            && (#[trigger] members[t2]).1 == 0 ==> t1 == t2
}

proof fn lemma_island_shape(words: Seq<Seq<char>>, members: Seq<(int, int)>, island: int)
    ensures
        ({
            let f = island_facts(words, members, island);
            &&& forall|i: int|
                0 <= i < f.len() && (#[trigger] f[i]).predicate == Predicate::Node ==> f[i].object
                    == ObjectModel::Id(island)
            &&& forall|i: int|
                0 <= i < f.len() && (#[trigger] f[i]).predicate == Predicate::Distance ==> exists|
                    t: int,
                |
                    0 <= t < members.len() && f[i].subject == island + t + 1 && f[i].object
                        == ObjectModel::Integer((#[trigger] members[t]).1)
            &&& forall|t: int|
                0 <= t < members.len() ==> exists|j: int, k: int|
                    0 <= j < f.len() && 0 <= k < f.len() && f[j] == (FactModel {
                        subject: island + t + 1,
                        predicate: Predicate::Node,
                        object: ObjectModel::Id(island),
                    }) && f[k] == (FactModel {
                        subject: island + t + 1,
                        predicate: Predicate::Distance,
                        object: ObjectModel::Integer((#[trigger] members[t]).1),
                    })
        }),
    decreases members.len(),
{
    let f = island_facts(words, members, island);
    if members.len() > 0 {
        let rest = members.drop_last();
        let a = island_facts(words, rest, island);
        let n = a.len() as int;
        let last = members.len() - 1;
        let id = island + members.len();
        lemma_island_shape(words, rest, island);
        lemma_island_facts_len(words, rest, island);
        let b = occurrence_facts(id, island, words[members.last().0], members.last().1);
        assert(f == a + b);
        assert forall|i: int|
            0 <= i < f.len() && (#[trigger] f[i]).predicate == Predicate::Node implies f[i].object
                == ObjectModel::Id(island) by {
            if i < n {
                assert(f[i] == a[i]);
            } else {
                assert(f[i] == b[i - n]);
            }
        }
        assert forall|i: int|
            0 <= i < f.len() && (#[trigger] f[i]).predicate == Predicate::Distance implies exists|
                t: int,
            |
                0 <= t < members.len() && f[i].subject == island + t + 1 && f[i].object
                    == ObjectModel::Integer((#[trigger] members[t]).1) by {
            if i < n {
                assert(f[i] == a[i]);
                assert(a[i].predicate == Predicate::Distance);
                let t = choose|t: int|
                    0 <= t < rest.len() && a[i].subject == island + t + 1 && a[i].object
                        == ObjectModel::Integer((#[trigger] rest[t]).1);
                assert(rest[t] == members[t]);
            } else {
                assert(f[i] == b[i - n]);
                assert(i - n == 2);
                assert(members[last] == members.last());
            }
        }
        assert forall|t: int| 0 <= t < members.len() implies exists|j: int, k: int|
            0 <= j < f.len() && 0 <= k < f.len() && f[j] == (FactModel {
                subject: island + t + 1,
                predicate: Predicate::Node,
                object: ObjectModel::Id(island),
            }) && f[k] == (FactModel {
                subject: island + t + 1,
                predicate: Predicate::Distance,
                object: ObjectModel::Integer((#[trigger] members[t]).1),
            }) by {
            if t < last {
                assert(rest[t] == members[t]);
                let (j, k) = choose|j: int, k: int|
                    0 <= j < a.len() && 0 <= k < a.len() && a[j] == (FactModel {
                        subject: island + t + 1,
                        predicate: Predicate::Node,
                        object: ObjectModel::Id(island),
                    }) && a[k] == (FactModel {
                        subject: island + t + 1,
                        predicate: Predicate::Distance,
                        object: ObjectModel::Integer((#[trigger] rest[t]).1),
                    });
                assert(f[j] == a[j] && f[k] == a[k]);
            } else {
                assert(f[n] == b[0] && f[n + 2] == b[2]);
                assert(members[last] == members.last());
            }
        }
    }
}

proof fn lemma_island_closed(words: Seq<Seq<char>>, members: Seq<(int, int)>, island: int)
    requires
        one_reference(members),
    ensures
        islands_closed(island_facts(words, members, island)),
        islands_within(island_facts(words, members, island), island - 1, island),
{
    let f = island_facts(words, members, island);
    lemma_island_shape(words, members, island);
    let t0 = choose|t: int| 0 <= t < members.len() && (#[trigger] members[t]).1 == 0;
    assert(members[t0].1 == 0);
    let (j0, k0) = choose|j: int, k: int|
        0 <= j < f.len() && 0 <= k < f.len() && f[j] == (FactModel {
            subject: island + t0 + 1,
            predicate: Predicate::Node,
            object: ObjectModel::Id(island),
        }) && f[k] == (FactModel {
            subject: island + t0 + 1,
            predicate: Predicate::Distance,
            object: ObjectModel::Integer((#[trigger] members[t0]).1),
        });
    assert(reference_pair(f, island, j0, k0));
    assert forall|i: int|
        0 <= i < f.len() && (#[trigger] f[i]).predicate == Predicate::Node && f[i].object is Id
            implies has_reference(f, f[i].object->Id_0) && reference_unique(
        f,
        f[i].object->Id_0,
    ) by {
        assert(f[i].object == ObjectModel::Id(island));
        assert forall|j1: int, k1: int, j2: int, k2: int|
            reference_pair(f, island, j1, k1) && reference_pair(
                f,
                island,
                j2,
                k2,
            ) implies f[j1].subject == f[j2].subject by {
            assert(f[k1].predicate == Predicate::Distance);
            assert(f[k2].predicate == Predicate::Distance);
            let t1 = choose|t: int|
                0 <= t < members.len() && f[k1].subject == island + t + 1 && f[k1].object
                    == ObjectModel::Integer((#[trigger] members[t]).1);
            let t2 = choose|t: int|
                0 <= t < members.len() && f[k2].subject == island + t + 1 && f[k2].object
                    == ObjectModel::Integer((#[trigger] members[t]).1);
            assert(members[t1].1 == 0 && members[t2].1 == 0);
        }
    }
}

proof fn lemma_pair_in_front(a: Seq<FactModel>, b: Seq<FactModel>, x: int, j: int, k: int, mid: int)
    requires
        reference_pair(a + b, x, j, k),
        x <= mid,
        forall|i: int| 0 <= i < b.len() ==> mid < #[trigger] b[i].subject,
        forall|i: int| 0 <= i < a.len() ==> #[trigger] a[i].subject <= mid,
        forall|i: int|
            0 <= i < b.len() && (#[trigger] b[i]).predicate == Predicate::Node ==> b[i].object is Id
                && mid < b[i].object->Id_0,
    ensures
        j < a.len(),
        k < a.len(),
        reference_pair(a, x, j, k),
{
    let n = a.len() as int;
    if j >= n {
        assert((a + b)[j] == b[j - n]);
    }
    assert((a + b)[j] == a[j]);
    if k >= n {
        assert((a + b)[k] == b[k - n]);
    }
    assert((a + b)[k] == a[k]);
}

proof fn lemma_pair_behind(a: Seq<FactModel>, b: Seq<FactModel>, x: int, j: int, k: int, mid: int)
    requires
        reference_pair(a + b, x, j, k),
        mid < x,
        forall|i: int| 0 <= i < b.len() ==> mid < #[trigger] b[i].subject,
        forall|i: int| 0 <= i < a.len() ==> #[trigger] a[i].subject <= mid,
        forall|i: int|
            0 <= i < a.len() && (#[trigger] a[i]).predicate == Predicate::Node ==> a[i].object is Id
                && a[i].object->Id_0 <= mid,
    ensures
        j >= a.len(),
        k >= a.len(),
        reference_pair(b, x, j - a.len(), k - a.len()),
{
    let n = a.len() as int;
    if j < n {
        assert((a + b)[j] == a[j]);
    }
    assert((a + b)[j] == b[j - n]);
    if k < n {
        assert((a + b)[k] == a[k]);
    }
    assert((a + b)[k] == b[k - n]);
}

proof fn lemma_closed_concat(a: Seq<FactModel>, b: Seq<FactModel>, lo: int, mid: int, hi: int)
    requires
        islands_closed(a),
        islands_closed(b),
        subjects_within(a, lo, mid),
        subjects_within(b, mid, hi),
        islands_within(a, lo, mid),
        islands_within(b, mid, hi),
    ensures
        islands_closed(a + b),
{
    let f = a + b;
    let n = a.len() as int;
    assert forall|i: int| 0 <= i < a.len() implies #[trigger] a[i].subject <= mid by {}
    assert forall|i: int| 0 <= i < b.len() implies mid < #[trigger] b[i].subject by {}
    assert forall|i: int|
        0 <= i < f.len() && (#[trigger] f[i]).predicate == Predicate::Node && f[i].object is Id
            implies has_reference(f, f[i].object->Id_0) && reference_unique(
        f,
        f[i].object->Id_0,
    ) by {
        let x = f[i].object->Id_0;
        if i < n {
            assert(f[i] == a[i]);
            assert(x <= mid);
            let (j, k) = choose|j: int, k: int| reference_pair(a, x, j, k);
            assert(f[j] == a[j] && f[k] == a[k]);
            assert(reference_pair(f, x, j, k));
            assert forall|j1: int, k1: int, j2: int, k2: int|
                reference_pair(f, x, j1, k1) && reference_pair(
                    f,
                    x,
                    j2,
                    k2,
                ) implies f[j1].subject == f[j2].subject by {
                lemma_pair_in_front(a, b, x, j1, k1, mid);
                lemma_pair_in_front(a, b, x, j2, k2, mid);
                assert(reference_unique(a, x));
                assert(f[j1] == a[j1] && f[j2] == a[j2]);
            }
        } else {
            assert(f[i] == b[i - n]);
            assert(mid < x);
            let (j, k) = choose|j: int, k: int| reference_pair(b, x, j, k);
            assert(f[j + n] == b[j] && f[k + n] == b[k]);
            assert(reference_pair(f, x, j + n, k + n));
            assert forall|j1: int, k1: int, j2: int, k2: int|
                reference_pair(f, x, j1, k1) && reference_pair(
                    f,
                    x,
                    j2,
                    k2,
                ) implies f[j1].subject == f[j2].subject by {
                lemma_pair_behind(a, b, x, j1, k1, mid);
                lemma_pair_behind(a, b, x, j2, k2, mid);
                assert(reference_unique(b, x));
                assert(f[j1] == b[j1 - n] && f[j2] == b[j2 - n]);
            }
        }
    }
}

proof fn lemma_emitted_closed(words: Seq<Seq<char>>, isl: Seq<Seq<(int, int)>>, last: int)
    requires
        forall|k: int| 0 <= k < isl.len() ==> one_reference(#[trigger] isl[k]),
    ensures
        islands_closed(emitted(words, isl, last)),
        subjects_within(emitted(words, isl, last), last, last + span(isl)),
        islands_within(emitted(words, isl, last), last, last + span(isl)),
    decreases isl.len(),
{
    if isl.len() == 0 {
        assert(emitted(words, isl, last).len() == 0);
    } else {
        let rest = isl.drop_last();
        let mid = last + span(rest);
        let hi = last + span(isl);
        assert forall|k: int| 0 <= k < rest.len() implies one_reference(#[trigger] rest[k]) by {
            assert(rest[k] == isl[k]);
        }
        assert(isl.last() == isl[isl.len() - 1]);
        lemma_span_nonnegative(rest);
        lemma_emitted_closed(words, rest, last);
        lemma_emitted_one_per_predicate(words, rest, last);
        lemma_island_closed(words, isl.last(), mid + 1);
        lemma_island_one_per_predicate(words, isl.last(), mid + 1);
        let a = emitted(words, rest, last);
        let b = island_facts(words, isl.last(), mid + 1);
        assert(subjects_within(b, mid, hi));
        assert(islands_within(b, mid, hi));
        lemma_closed_concat(a, b, last, mid, hi);
        lemma_one_per_predicate_concat(a, b, last, mid, hi);
        let f = a + b;
        let n = a.len() as int;
        assert forall|i: int|
            0 <= i < f.len() && (#[trigger] f[i]).predicate == Predicate::Node implies f[i].object
                is Id && last < f[i].object->Id_0 <= hi by {
            if i < n {
                assert(f[i] == a[i]);
            } else {
                assert(f[i] == b[i - n]);
            }
        }
    }
}

proof fn lemma_islands_have_one_reference(w: int, radius: int, size: int)
    requires
        1 <= radius < size,
        0 <= w,
    ensures
        forall|k: int|
            0 <= k < islands(w, radius, size).len() ==> one_reference(
                #[trigger] islands(w, radius, size)[k],
            ),
{
    let isl = islands(w, radius, size);
    let b = boundary_islands(w, radius);
    let s = sliding_islands(w, radius, size);
    assert forall|k: int| 0 <= k < isl.len() implies one_reference(#[trigger] isl[k]) by {
        if k < b.len() {
            let m = b[k];
            assert(isl[k] == m);
            assert(m[k].1 == 0);
        } else {
            let m = s[k - b.len()];
            assert(isl[k] == m);
            assert(m[radius].1 == 0);
        }
    }
}

/// Every island that a parse names has exactly one member with the distance
/// 0: its reference word.
pub proof fn lemma_island_closure(t: Seq<char>)
    ensures
        islands_closed(parsed(t)),
{
    let w = words_of(t);
    let r = ISLAND_RADIUS as int;
    let size = ISLAND_SIZE as int;
    lemma_islands_have_one_reference(w.len() as int, r, size);
    lemma_emitted_closed(w, islands(w.len() as int, r, size), 0);
}

} // verus!
