//! Splitting text into words on single spaces.

use vstd::prelude::*;

verus! {

/// The views of a sequence of strings.
pub open spec fn texts(s: Seq<String>) -> Seq<Seq<char>> {
    s.map_values(|x: String| x@)
}

/// The pieces of `t` between single spaces, as `str::split(" ")` gives them:
/// two spaces in a row leave an empty piece between them, and a text without
/// spaces is one piece.
pub open spec fn split_on_space(t: Seq<char>) -> Seq<Seq<char>>
    decreases t.len(),
{
    if t.len() == 0 {
        seq![Seq::<char>::empty()]
    } else {
        let r = split_on_space(t.drop_last());
        if t.last() == ' ' {
            r.push(Seq::<char>::empty())
        } else {
            r.update(r.len() - 1, r.last().push(t.last()))
        }
    }
}

/// The words of `t`: none for the empty text, else its pieces between
/// single spaces.
pub open spec fn words_of(t: Seq<char>) -> Seq<Seq<char>> {
    if t.len() == 0 {
        Seq::empty()
    } else {
        split_on_space(t)
    }
}

/// A text has one piece more than it has spaces, so at most one more than
/// its length.
pub proof fn lemma_split_len(t: Seq<char>)
    ensures
        1 <= split_on_space(t).len() <= t.len() + 1,
    decreases t.len(),
{
    if t.len() > 0 {
        lemma_split_len(t.drop_last());
    }
}

/// The words of `text`, in order.
pub fn split_words(text: &str) -> (r: Vec<String>)
    ensures
        texts(r@) == words_of(text@),
{
    let n = text.unicode_len();
    let mut words: Vec<String> = Vec::new();
    if n == 0 {
        assert(texts(words@) =~= Seq::<Seq<char>>::empty());
        return words;
    }
    let mut start: usize = 0;
    let mut i: usize = 0;
    assert(text@.take(0) =~= Seq::<char>::empty());
    assert(texts(words@).push(text@.subrange(0, 0)) =~= seq![Seq::<char>::empty()]);
    for c in it: text.chars()
        invariant
            n == text@.len(),
            it.seq() == text@,
            i == it.index(),
            start <= i <= n,
            split_on_space(text@.take(i as int)) == texts(words@).push(
                text@.subrange(start as int, i as int),
            ),
    {
        assert(c == text@[i as int]);
        let ghost before = texts(words@);
        assert(text@.take(i + 1).drop_last() =~= text@.take(i as int));
        assert(text@.take(i + 1).last() == c);
        if c == ' ' {
            let piece = text.substring_char(start, i).to_owned();
            let ghost old_start = start;
            words.push(piece);
            start = i + 1;
            assert(texts(words@) =~= before.push(text@.subrange(old_start as int, i as int)));
            assert(text@.subrange(start as int, i + 1) =~= Seq::<char>::empty());
            assert(split_on_space(text@.take(i + 1)) =~= texts(words@).push(
                text@.subrange(start as int, i + 1),
            ));
        } else {
            assert(text@.subrange(start as int, i + 1) =~= text@.subrange(
                start as int,
                i as int,
            ).push(c));
            assert(split_on_space(text@.take(i + 1)) =~= texts(words@).push(
                text@.subrange(start as int, i + 1),
            ));
        }
        i = i + 1;
    }
    let ghost before = texts(words@);
    let piece = text.substring_char(start, n);
    words.push(piece.to_owned());
    assert(text@.take(n as int) =~= text@);
    assert(texts(words@) =~= before.push(text@.subrange(start as int, n as int)));
    words
}

} // verus!
