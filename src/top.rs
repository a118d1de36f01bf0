use vstd::prelude::*;

use crate::count::WordCount;
use crate::text::chars_of;

verus! {

/// Whether `a` comes before `b` in code point order, character by character,
/// a proper prefix first.
pub open spec fn lex_less(a: Seq<char>, b: Seq<char>) -> bool
    decreases a.len(),
{
    if a.len() == 0 {
        b.len() > 0
    } else if b.len() == 0 {
        false
    } else if a[0] != b[0] {
        a[0] < b[0]
    } else {
        lex_less(a.drop_first(), b.drop_first())
    }
}

/// A word and its count, as plain values.
pub open spec fn entry(e: (String, usize)) -> (Seq<char>, nat) {
    (e.0@, e.1 as nat)
}

/// Whether `a` ranks above `b`: a higher count first, and among equal counts
/// the word that comes first in code point order.
pub open spec fn ranks_before(a: (Seq<char>, nat), b: (Seq<char>, nat)) -> bool {
    a.1 > b.1 || (a.1 == b.1 && lex_less(a.0, b.0))
}

proof fn lemma_lex_total(a: Seq<char>, b: Seq<char>)
    ensures
        !lex_less(a, a),
        a != b ==> lex_less(a, b) || lex_less(b, a),
    decreases a.len(),
{
    if a.len() > 0 && b.len() > 0 {
        lemma_lex_total(a.drop_first(), b.drop_first());
        if a[0] == b[0] && a.drop_first() == b.drop_first() {
            assert(a =~= seq![a[0]] + a.drop_first());
            assert(b =~= seq![b[0]] + b.drop_first());
        }
    } else if a.len() > 0 {
        lemma_lex_total(a.drop_first(), a.drop_first());
    } else if b.len() == 0 {
        assert(a =~= b);
    }
}

proof fn lemma_lex_transitive(a: Seq<char>, b: Seq<char>, c: Seq<char>)
    requires
        lex_less(a, b),
        lex_less(b, c),
    ensures
        lex_less(a, c),
    decreases a.len(),
{
    if a.len() > 0 && b.len() > 0 && c.len() > 0 && a[0] == b[0] && b[0] == c[0] {
        lemma_lex_transitive(a.drop_first(), b.drop_first(), c.drop_first());
    }
}

proof fn lemma_ranks_total(a: (Seq<char>, nat), b: (Seq<char>, nat))
    requires
        a.0 != b.0,
    ensures
        ranks_before(a, b) || ranks_before(b, a),
{
    lemma_lex_total(a.0, b.0);
}

proof fn lemma_ranks_transitive(a: (Seq<char>, nat), b: (Seq<char>, nat), c: (Seq<char>, nat))
    requires
        ranks_before(a, b),
        ranks_before(b, c),
    ensures
        ranks_before(a, c),
{
    if a.1 == b.1 && b.1 == c.1 {
        lemma_lex_transitive(a.0, b.0, c.0);
    }
}

fn lex_less_exec(a: &String, b: &String) -> (r: bool)
    ensures
        r == lex_less(a@, b@),
{
    let x = chars_of(a.as_str());
    let y = chars_of(b.as_str());
    let mut i: usize = 0;
    assert(x@.skip(0) =~= x@);
    assert(y@.skip(0) =~= y@);
    while i < x.len() && i < y.len() && x[i] == y[i]
        invariant
            x@ == a@,
            y@ == b@,
            i <= x@.len(),
            i <= y@.len(),
            lex_less(a@, b@) == lex_less(x@.skip(i as int), y@.skip(i as int)),
        decreases x@.len() - i,
    {
        assert(x@.skip(i as int).drop_first() =~= x@.skip(i + 1));
        assert(y@.skip(i as int).drop_first() =~= y@.skip(i + 1));
        i = i + 1;
    }
    if i == x.len() {
        i < y.len()
    } else if i == y.len() {
        false
    } else {
        assert(x@.skip(i as int)[0] == x@[i as int]);
        assert(y@.skip(i as int)[0] == y@[i as int]);
        x[i] < y[i]
    }
}

fn ranks_before_exec(a: &(String, usize), b: &(String, usize)) -> (r: bool)
    ensures
        r == ranks_before(entry(*a), entry(*b)),
{
    if a.1 != b.1 {
        a.1 > b.1
    } else {
        lex_less_exec(&a.0, &b.0)
    }
}

/// Whether the entries of `s` are in strictly ranked order.
pub open spec fn ranked(s: Seq<(String, usize)>) -> bool {
    forall|a: int, b: int| 0 <= a < b < s.len() ==> ranks_before(
        #[trigger] entry(s[a]),
        #[trigger] entry(s[b]),
    )
}

/// Inserts `e` into the ranked `sorted` where it belongs; returns its place.
fn insert_ranked(sorted: &mut Vec<(String, usize)>, e: (String, usize)) -> (p: usize)
    requires
        ranked(old(sorted)@),
        forall|q: int| 0 <= q < old(sorted)@.len() ==> (#[trigger] old(sorted)@[q]).0@ != e.0@,
    ensures
        p <= old(sorted)@.len(),
        final(sorted)@ == old(sorted)@.insert(p as int, e),
        ranked(final(sorted)@),
{
    let mut p: usize = 0;
    while p < sorted.len() && ranks_before_exec(&sorted[p], &e)
        invariant
            sorted@ == old(sorted)@,
            p <= sorted@.len(),
            forall|q: int| 0 <= q < p ==> ranks_before(#[trigger] entry(sorted@[q]), entry(e)),
        decreases sorted@.len() - p,
    {
        p = p + 1;
    }
    let ghost old_sorted = sorted@;
    proof {
        if p < old_sorted.len() {
            lemma_ranks_total(entry(old_sorted[p as int]), entry(e));
        }
    }
    sorted.insert(p, e);
    proof {
        assert forall|a: int, b: int| 0 <= a < b < sorted@.len() implies ranks_before(
            #[trigger] entry(sorted@[a]),
            #[trigger] entry(sorted@[b]),
        ) by {
            if b < p {
                assert(sorted@[a] == old_sorted[a] && sorted@[b] == old_sorted[b]);
            } else if b == p {
                assert(sorted@[a] == old_sorted[a]);
            } else if a > p {
                assert(sorted@[a] == old_sorted[a - 1] && sorted@[b] == old_sorted[b - 1]);
            } else if a == p {
                assert(sorted@[b] == old_sorted[b - 1]);
                if b - 1 > p {
                    lemma_ranks_transitive(entry(e), entry(old_sorted[p as int]), entry(old_sorted[b - 1]));
                }
            } else {
                assert(sorted@[a] == old_sorted[a] && sorted@[b] == old_sorted[b - 1]);
            }
        }
    }
    p
}

/// The `n` words with the highest counts, highest first; among equal counts
/// the word that comes first in code point order goes first. With fewer than
/// `n` distinct words, all of them are listed.
pub fn top_words(wc: &WordCount, n: usize) -> (r: Vec<(String, usize)>)
    requires
        wc.wf(),
    ensures
        r@.len() == if n < wc@.len() { n as int } else { wc@.len() as int },
        forall|i: int| 0 <= i < r@.len() ==> #[trigger] wc@.contains_key(r@[i].0@)
            && wc@[r@[i].0@] == r@[i].1 as nat,
        forall|i: int, j: int| 0 <= i < j < r@.len() ==> ranks_before(
            #[trigger] entry(r@[i]),
            #[trigger] entry(r@[j]),
        ),
        forall|k: Seq<char>, i: int|
            #![trigger wc@.contains_key(k), entry(r@[i])]
            wc@.contains_key(k) && 0 <= i < r@.len() && (forall|j: int| 0 <= j < r@.len() ==> r@[j].0@ != k)
                ==> ranks_before(entry(r@[i]), (k, wc@[k])),
{
    let es = wc.to_vec();
    let mut sorted: Vec<(String, usize)> = Vec::new();
    let mut i: usize = 0;
    while i < es.len()
        invariant
            i <= es@.len(),
            es@.len() == wc@.len(),
            forall|j: int| 0 <= j < es@.len() ==> #[trigger] wc@.contains_key(es@[j].0@)
                && wc@[es@[j].0@] == es@[j].1 as nat,
            forall|a: int, b: int| 0 <= a < b < es@.len() ==> #[trigger] es@[a].0@ != #[trigger] es@[b].0@,
            sorted@.len() == i,
            ranked(sorted@),
            forall|q: int| 0 <= q < sorted@.len() ==> #[trigger] wc@.contains_key(sorted@[q].0@)
                && wc@[sorted@[q].0@] == sorted@[q].1 as nat,
            forall|q: int, j: int| 0 <= q < sorted@.len() && i <= j < es@.len()
                ==> #[trigger] sorted@[q].0@ != #[trigger] es@[j].0@,
            forall|j: int| 0 <= j < i ==> exists|q: int|
                0 <= q < sorted@.len() && #[trigger] sorted@[q].0@ == #[trigger] es@[j].0@,
        decreases es@.len() - i,
    {
        let e = (es[i].0.clone(), es[i].1);
        let ghost old_sorted = sorted@;
        proof {
            assert forall|q: int| 0 <= q < old_sorted.len() implies (#[trigger] old_sorted[q]).0@ != e.0@ by {
                assert(old_sorted[q].0@ != es@[i as int].0@);
            }
        }
        let p = insert_ranked(&mut sorted, e);
        proof {
            assert(wc@.contains_key(es@[i as int].0@));
            assert forall|q: int| 0 <= q < sorted@.len() implies #[trigger] wc@.contains_key(sorted@[q].0@)
                && wc@[sorted@[q].0@] == sorted@[q].1 as nat by {
                if q < p {
                    assert(sorted@[q] == old_sorted[q]);
                } else if q > p {
                    assert(sorted@[q] == old_sorted[q - 1]);
                }
            }
            assert forall|q: int, j: int| 0 <= q < sorted@.len() && i + 1 <= j < es@.len()
                implies #[trigger] sorted@[q].0@ != #[trigger] es@[j].0@ by {
                if q < p {
                    assert(sorted@[q] == old_sorted[q]);
                } else if q > p {
                    assert(sorted@[q] == old_sorted[q - 1]);
                } else {
                    assert(es@[i as int].0@ != es@[j].0@);
                }
            }
            assert forall|j: int| 0 <= j < i + 1 implies exists|q: int|
                0 <= q < sorted@.len() && #[trigger] sorted@[q].0@ == #[trigger] es@[j].0@ by {
                if j == i {
                    assert(sorted@[p as int].0@ == es@[j].0@);
                } else {
                    let q = choose|q: int| 0 <= q < old_sorted.len() && #[trigger] old_sorted[q].0@ == #[trigger] es@[j].0@;
                    if q < p {
                        assert(sorted@[q] == old_sorted[q]);
                    } else {
                        assert(sorted@[q + 1] == old_sorted[q]);
                    }
                }
            }
        }
        i = i + 1;
    }
    let ghost all = sorted@;
    if n < sorted.len() {
        sorted.truncate(n);
    }
    proof {
        assert forall|i: int| 0 <= i < sorted@.len() implies #[trigger] wc@.contains_key(sorted@[i].0@)
            && wc@[sorted@[i].0@] == sorted@[i].1 as nat by {
            assert(sorted@[i] == all[i]);
        }
        assert forall|a: int, b: int| 0 <= a < b < sorted@.len() implies ranks_before(
            #[trigger] entry(sorted@[a]),
            #[trigger] entry(sorted@[b]),
        ) by {
            assert(sorted@[a] == all[a] && sorted@[b] == all[b]);
        }
        assert forall|k: Seq<char>, i: int|
            #![trigger wc@.contains_key(k), entry(sorted@[i])]
            wc@.contains_key(k) && 0 <= i < sorted@.len() && (forall|j: int| 0 <= j < sorted@.len() ==> sorted@[j].0@ != k)
                implies ranks_before(entry(sorted@[i]), (k, wc@[k])) by {
            let j = choose|j: int| 0 <= j < es@.len() && #[trigger] es@[j].0@ == k;
            let q = choose|q: int| 0 <= q < all.len() && #[trigger] all[q].0@ == #[trigger] es@[j].0@;
            if q < sorted@.len() {
                assert(sorted@[q] == all[q]);
            }
            assert(sorted@[i] == all[i]);
            assert(ranks_before(entry(all[i]), entry(all[q])));
            assert(wc@.contains_key(all[q].0@));
        }
    }
    sorted
}

} // verus!
