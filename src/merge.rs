use vstd::prelude::*;

use crate::count::{count_of, count_words, sum, word_count_of, WordCount};

verus! {

/// The word-by-word sum of all the counts in `ms`.
pub open spec fn total(ms: Seq<Map<Seq<char>, nat>>) -> Map<Seq<char>, nat>
    decreases ms.len(),
{
    if ms.len() == 0 {
        Map::empty()
    } else {
        sum(total(ms.drop_last()), ms.last())
    }
}

/// The number of times `w` occurs over all the counts in `ms`.
pub open spec fn column(ms: Seq<Map<Seq<char>, nat>>, w: Seq<char>) -> nat
    decreases ms.len(),
{
    if ms.len() == 0 {
        0
    } else {
        column(ms.drop_last(), w) + count_of(ms.last(), w)
    }
}

/// The models of the counts in `cs`.
pub open spec fn views(cs: Seq<WordCount>) -> Seq<Map<Seq<char>, nat>> {
    cs.map_values(|c: WordCount| c@)
}

/// Whether every word's total over `ms` fits in a `usize`.
pub open spec fn total_fits(ms: Seq<Map<Seq<char>, nat>>) -> bool {
    forall|k: Seq<char>| #[trigger] count_of(total(ms), k) <= usize::MAX
}

/// In a merged count, each word occurs as often as in all the parts together.
pub proof fn lemma_total_is_wordwise_sum(ms: Seq<Map<Seq<char>, nat>>, w: Seq<char>)
    ensures
        count_of(total(ms), w) == column(ms, w),
    decreases ms.len(),
{
    if ms.len() > 0 {
        lemma_total_is_wordwise_sum(ms.drop_last(), w);
    }
}

/// Merging two counts does not depend on which comes first.
pub proof fn lemma_sum_commutative(a: Map<Seq<char>, nat>, b: Map<Seq<char>, nat>)
    ensures
        sum(a, b) == sum(b, a),
{
    assert(sum(a, b) =~= sum(b, a));
}

/// Merging three counts does not depend on how they are grouped.
pub proof fn lemma_sum_associative(a: Map<Seq<char>, nat>, b: Map<Seq<char>, nat>, c: Map<Seq<char>, nat>)
    ensures
        sum(sum(a, b), c) == sum(a, sum(b, c)),
{
    assert(sum(sum(a, b), c) =~= sum(a, sum(b, c)));
}

/// Merging with an empty count changes nothing.
pub proof fn lemma_sum_empty(a: Map<Seq<char>, nat>)
    ensures
        sum(a, Map::empty()) == a,
        sum(Map::empty(), a) == a,
{
    assert(sum(a, Map::empty()) =~= a);
    assert(sum(Map::empty(), a) =~= a);
}

/// The total of two lists of counts, one after the other, is the sum of
/// their totals.
pub proof fn lemma_total_concat(xs: Seq<Map<Seq<char>, nat>>, ys: Seq<Map<Seq<char>, nat>>)
    ensures
        total(xs + ys) == sum(total(xs), total(ys)),
    decreases ys.len(),
{
    if ys.len() == 0 {
        assert(xs + ys =~= xs);
        lemma_sum_empty(total(xs));
    } else {
        assert((xs + ys).drop_last() =~= xs + ys.drop_last());
        assert((xs + ys).last() == ys.last());
        lemma_total_concat(xs, ys.drop_last());
        lemma_sum_associative(total(xs), total(ys.drop_last()), ys.last());
    }
}

/// The total does not depend on the order in which the parts are merged:
/// two lists of counts in either order give the same total.
pub proof fn lemma_total_order_free(xs: Seq<Map<Seq<char>, nat>>, ys: Seq<Map<Seq<char>, nat>>)
    ensures
        total(xs + ys) == total(ys + xs),
{
    lemma_total_concat(xs, ys);
    lemma_total_concat(ys, xs);
    lemma_sum_commutative(total(xs), total(ys));
}

/// The total does not depend on the order in which the parts are merged:
/// any two lists that hold the same counts, each as often, give the same
/// total.
pub proof fn lemma_total_permutation(xs: Seq<Map<Seq<char>, nat>>, ys: Seq<Map<Seq<char>, nat>>)
    requires
        xs.to_multiset() == ys.to_multiset(),
    ensures
        total(xs) == total(ys),
    decreases xs.len(),
{
    broadcast use vstd::seq_lib::group_to_multiset_ensures;

    vstd::seq_lib::to_multiset_len(xs);
    vstd::seq_lib::to_multiset_len(ys);
    if xs.len() > 0 {
        let x = xs.last();
        let rest = xs.drop_last();
        assert(xs =~= rest.push(x));
        vstd::seq_lib::to_multiset_build(rest, x);
        vstd::seq_lib::to_multiset_contains(ys, x);
        assert(ys.to_multiset().count(x) > 0);
        let j = choose|j: int| 0 <= j < ys.len() && ys[j] == x;
        let others = ys.remove(j);
        vstd::seq_lib::to_multiset_remove(ys, j);
        assert(rest.to_multiset() =~= others.to_multiset());
        lemma_total_permutation(rest, others);
        let pre = ys.subrange(0, j);
        let post = ys.subrange(j + 1, ys.len() as int);
        assert(ys =~= pre.push(x) + post);
        assert(others =~= pre + post);
        assert(pre.push(x).drop_last() =~= pre);
        lemma_total_concat(pre.push(x), post);
        lemma_total_concat(pre, post);
        lemma_sum_associative(total(pre), x, total(post));
        lemma_sum_commutative(x, total(post));
        lemma_sum_associative(total(pre), total(post), x);
    }
}

/// A file that cannot be read counts as empty text, and adding it to the
/// parts changes no word's total.
pub proof fn lemma_empty_text_adds_nothing(ms: Seq<Map<Seq<char>, nat>>)
    ensures
        word_count_of(Seq::empty()) == Map::<Seq<char>, nat>::empty(),
        total(ms.push(word_count_of(Seq::empty()))) == total(ms),
{
    assert(crate::count::keys_of(Seq::empty()) =~= seq![]);
    assert(ms.push(word_count_of(Seq::empty())).drop_last() =~= ms);
    lemma_sum_empty(total(ms));
}

proof fn lemma_total_grows(ms: Seq<Map<Seq<char>, nat>>, i: int, k: Seq<char>)
    requires
        0 <= i <= ms.len(),
    ensures
        count_of(total(ms.take(i)), k) <= count_of(total(ms), k),
    decreases ms.len() - i,
{
    if i < ms.len() {
        lemma_total_grows(ms, i + 1, k);
        assert(ms.take(i + 1).drop_last() =~= ms.take(i));
    } else {
        assert(ms.take(i) =~= ms);
    }
}

/// Merges all the counts in `parts` into one, word by word. The result does
/// not depend on their order. Where some word's total would not fit in a
/// `usize`, `None` is returned.
pub fn merge_all(parts: &Vec<WordCount>) -> (r: Option<WordCount>)
    requires
        forall|i: int| 0 <= i < parts@.len() ==> (#[trigger] parts@[i]).wf(),
    ensures
        r is Some <==> total_fits(views(parts@)),
        r matches Some(w) ==> w.wf() && w@ == total(views(parts@)),
{
    let ghost ms = views(parts@);
    let mut acc = WordCount::new();
    let mut i: usize = 0;
    assert(ms.take(0) =~= seq![]);
    while i < parts.len()
        invariant
            ms == views(parts@),
            forall|j: int| 0 <= j < parts@.len() ==> (#[trigger] parts@[j]).wf(),
            i <= parts@.len(),
            acc.wf(),
            acc@ == total(ms.take(i as int)),
        decreases parts@.len() - i,
    {
        let ok = acc.merge(&parts[i]);
        proof {
            assert(ms.take(i + 1).drop_last() =~= ms.take(i as int));
            assert(ms.take(i + 1).last() == parts@[i as int]@);
        }
        if !ok {
            proof {
                let k = choose|k: Seq<char>| !(#[trigger] count_of(total(ms.take(i as int)), k) + count_of(parts@[i as int]@, k) <= usize::MAX);
                assert(count_of(total(ms.take(i + 1)), k) > usize::MAX);
                lemma_total_grows(ms, i + 1, k);
            }
            return None;
        }
        i = i + 1;
    }
    proof {
        assert(ms.take(i as int) =~= ms);
        assert forall|k: Seq<char>| #[trigger] count_of(total(ms), k) <= usize::MAX by {
            acc.lemma_counts_fit(k);
        }
    }
    Some(acc)
}

/// The word counts of the texts in `texts`, one for each.
pub open spec fn counts_of(texts: Seq<String>) -> Seq<Map<Seq<char>, nat>> {
    texts.map_values(|t: String| word_count_of(t@))
}

/// Counts the words of every text in `texts` and merges the counts into
/// one. Where some word's total would not fit in a `usize`, `None` is
/// returned.
pub fn count_texts(texts: &Vec<String>) -> (r: Option<WordCount>)
    ensures
        r is Some <==> total_fits(counts_of(texts@)),
        r matches Some(w) ==> w.wf() && w@ == total(counts_of(texts@)),
{
    let ghost ms = counts_of(texts@);
    let mut acc = WordCount::new();
    let mut i: usize = 0;
    assert(ms.take(0) =~= seq![]);
    while i < texts.len()
        invariant
            ms == counts_of(texts@),
            i <= texts@.len(),
            acc.wf(),
            acc@ == total(ms.take(i as int)),
        decreases texts@.len() - i,
    {
        let part = count_words(texts[i].as_str());
        let ok = acc.merge(&part);
        proof {
            assert(ms.take(i + 1).drop_last() =~= ms.take(i as int));
            assert(ms.take(i + 1).last() == part@);
        }
        if !ok {
            proof {
                let k = choose|k: Seq<char>| !(#[trigger] count_of(total(ms.take(i as int)), k) + count_of(part@, k) <= usize::MAX);
                assert(count_of(total(ms.take(i + 1)), k) > usize::MAX);
                lemma_total_grows(ms, i + 1, k);
            }
            return None;
        }
        i = i + 1;
    }
    proof {
        assert(ms.take(i as int) =~= ms);
        assert forall|k: Seq<char>| #[trigger] count_of(total(ms), k) <= usize::MAX by {
            acc.lemma_counts_fit(k);
        }
    }
    Some(acc)
}

} // verus!
