use vstd::prelude::*;

use crate::text::{alphanumeric, chars_of, is_space, normalize_range, normalized, run_end, white_space, words, words_from};

verus! {

/// The number of times `w` occurs in `m`: zero for a word that is not a key.
pub open spec fn count_of(m: Map<Seq<char>, nat>, w: Seq<char>) -> nat {
    if m.contains_key(w) {
        m[w]
    } else {
        0
    }
}

/// `m` with one more occurrence of `w`.
pub open spec fn add_one(m: Map<Seq<char>, nat>, w: Seq<char>) -> Map<Seq<char>, nat> {
    m.insert(w, (count_of(m, w) + 1) as nat)
}

/// How often each word occurs in `ws`.
pub open spec fn tally(ws: Seq<Seq<char>>) -> Map<Seq<char>, nat>
    decreases ws.len(),
{
    if ws.len() == 0 {
        Map::empty()
    } else {
        add_one(tally(ws.drop_last()), ws.last())
    }
}

/// The keys of the tokens of `s`, in order.
pub open spec fn keys_of(s: Seq<char>) -> Seq<Seq<char>> {
    words(s).map_values(|w: Seq<char>| normalized(w))
}

/// The word frequencies of the text `s`.
pub open spec fn word_count_of(s: Seq<char>) -> Map<Seq<char>, nat> {
    tally(keys_of(s))
}

/// The word-by-word sum of two counts.
pub open spec fn sum(a: Map<Seq<char>, nat>, b: Map<Seq<char>, nat>) -> Map<Seq<char>, nat> {
    Map::new(
        |k: Seq<char>| a.contains_key(k) || b.contains_key(k),
        |k: Seq<char>| count_of(a, k) + count_of(b, k),
    )
}

/// Whether every word's sum over `a` and `b` fits in a `usize`.
pub open spec fn sum_fits(a: Map<Seq<char>, nat>, b: Map<Seq<char>, nat>) -> bool {
    forall|k: Seq<char>| #[trigger] count_of(a, k) + count_of(b, k) <= usize::MAX
}

/// A map from words to how often they occur. Each word has one entry.
pub struct WordCount {
    entries: Vec<(String, usize)>,
    model: Ghost<Map<Seq<char>, nat>>,
}

impl View for WordCount {
    type V = Map<Seq<char>, nat>;

    closed spec fn view(&self) -> Map<Seq<char>, nat> {
        self.model@
    }
}

impl WordCount {
    /// The entries hold each key once and agree with the model.
    pub closed spec fn wf(&self) -> bool {
        &&& self.model@.dom().finite()
        &&& self.model@.dom().len() == self.entries@.len()
        &&& forall|i: int|
            0 <= i < self.entries@.len() ==> #[trigger] self.model@.contains_key(self.entries@[i].0@)
                && self.model@[self.entries@[i].0@] == self.entries@[i].1 as nat
        &&& forall|i: int, j: int|
            0 <= i < j < self.entries@.len() ==> #[trigger] self.entries@[i].0@
                != #[trigger] self.entries@[j].0@
        &&& forall|k: Seq<char>|
            #[trigger] self.model@.contains_key(k) ==> exists|i: int|
                0 <= i < self.entries@.len() && #[trigger] self.entries@[i].0@ == k
    }

    /// Every count fits in a `usize`.
    pub proof fn lemma_counts_fit(&self, k: Seq<char>)
        requires
            self.wf(),
        ensures
            count_of(self@, k) <= usize::MAX,
    {
        if self.model@.contains_key(k) {
            let i = choose|i: int| 0 <= i < self.entries@.len() && #[trigger] self.entries@[i].0@ == k;
            assert(self.model@.contains_key(self.entries@[i].0@));
        }
    }

    /// An empty count.
    pub fn new() -> (r: WordCount)
        ensures
            r.wf(),
            r@ == Map::<Seq<char>, nat>::empty(),
    {
        WordCount { entries: Vec::new(), model: Ghost(Map::empty()) }
    }

    /// The number of distinct words.
    pub fn len(&self) -> (r: usize)
        requires
            self.wf(),
        ensures
            r == self@.len(),
    {
        self.entries.len()
    }

    /// Whether no word has been counted.
    pub fn is_empty(&self) -> (r: bool)
        requires
            self.wf(),
        ensures
            r == (self@.len() == 0),
    {
        self.entries.len() == 0
    }

    fn find(&self, w: &String) -> (r: Option<usize>)
        requires
            self.wf(),
        ensures
            match r {
                Some(i) => i < self.entries@.len() && self.entries@[i as int].0@ == w@,
                None => !self@.contains_key(w@),
            },
    {
        let mut i: usize = 0;
        while i < self.entries.len()
            invariant
                self.wf(),
                i <= self.entries@.len(),
                forall|j: int| 0 <= j < i ==> self.entries@[j].0@ != w@,
            decreases self.entries@.len() - i,
        {
            if self.entries[i].0 == *w {
                return Some(i);
            }
            i = i + 1;
        }
        None
    }

    /// How often `word` was counted: zero if never.
    pub fn get(&self, word: &str) -> (r: usize)
        requires
            self.wf(),
        ensures
            r == count_of(self@, word@),
    {
        let w = word.to_owned();
        match self.find(&w) {
            Some(i) => self.entries[i].1,
            None => 0,
        }
    }

    /// Adds `n` occurrences of `word`.
    pub fn add(&mut self, word: String, n: usize)
        requires
            old(self).wf(),
            count_of(old(self)@, word@) + n <= usize::MAX,
        ensures
            final(self).wf(),
            final(self)@ == old(self)@.insert(word@, (count_of(old(self)@, word@) + n) as nat),
    {
        let ghost k = word@;
        match self.find(&word) {
            Some(i) => {
                let c = self.entries[i].1;
                proof {
                    assert(self.model@.contains_key(self.entries@[i as int].0@));
                }
                let ghost m = self.model@.insert(k, (c + n) as nat);
                self.entries.set(i, (word, c + n));
                self.model = Ghost(m);
                proof {
                    assert(self.model@.dom() =~= old(self).model@.dom());
                    assert forall|j: int| 0 <= j < self.entries@.len() implies #[trigger] self.model@.contains_key(self.entries@[j].0@)
                        && self.model@[self.entries@[j].0@] == self.entries@[j].1 as nat by {
                        if j != i {
                            assert(old(self).entries@[j] == self.entries@[j]);
                            assert(old(self).model@.contains_key(old(self).entries@[j].0@));
                            if j < i {
                                assert(old(self).entries@[j].0@ != old(self).entries@[i as int].0@);
                            } else {
                                assert(old(self).entries@[i as int].0@ != old(self).entries@[j].0@);
                            }
                        }
                    }
                    assert forall|kk: Seq<char>| #[trigger] self.model@.contains_key(kk) implies exists|j: int|
                        0 <= j < self.entries@.len() && #[trigger] self.entries@[j].0@ == kk by {
                        assert(old(self).model@.contains_key(kk));
                        let j = choose|j: int| 0 <= j < old(self).entries@.len() && #[trigger] old(self).entries@[j].0@ == kk;
                        assert(self.entries@[j].0@ == kk);
                    }
                }
            },
            None => {
                let ghost m = self.model@.insert(k, n as nat);
                self.entries.push((word, n));
                self.model = Ghost(m);
                proof {
                    assert(self.model@.dom() =~= old(self).model@.dom().insert(k));
                    assert forall|j: int| 0 <= j < self.entries@.len() implies #[trigger] self.model@.contains_key(self.entries@[j].0@)
                        && self.model@[self.entries@[j].0@] == self.entries@[j].1 as nat by {
                        if j < old(self).entries@.len() {
                            assert(old(self).entries@[j] == self.entries@[j]);
                            assert(old(self).model@.contains_key(old(self).entries@[j].0@));
                        }
                    }
                    assert forall|a: int, b: int| 0 <= a < b < self.entries@.len() implies #[trigger] self.entries@[a].0@
                        != #[trigger] self.entries@[b].0@ by {
                        if b == old(self).entries@.len() {
                            assert(old(self).model@.contains_key(old(self).entries@[a].0@));
                        } else {
                            assert(old(self).entries@[a] == self.entries@[a]);
                            assert(old(self).entries@[b] == self.entries@[b]);
                        }
                    }
                    assert forall|kk: Seq<char>| #[trigger] self.model@.contains_key(kk) implies exists|j: int|
                        0 <= j < self.entries@.len() && #[trigger] self.entries@[j].0@ == kk by {
                        if kk == k {
                            assert(self.entries@[old(self).entries@.len() as int].0@ == kk);
                        } else {
                            assert(old(self).model@.contains_key(kk));
                            let j = choose|j: int| 0 <= j < old(self).entries@.len() && #[trigger] old(self).entries@[j].0@ == kk;
                            assert(self.entries@[j].0@ == kk);
                        }
                    }
                }
            },
        }
    }

    /// Every word with its count, each word once, in no particular order.
    pub fn to_vec(&self) -> (r: Vec<(String, usize)>)
        requires
            self.wf(),
        ensures
            r@.len() == self@.len(),
            forall|i: int| 0 <= i < r@.len() ==> #[trigger] self@.contains_key(r@[i].0@)
                && self@[r@[i].0@] == r@[i].1 as nat,
            forall|i: int, j: int| 0 <= i < j < r@.len() ==> #[trigger] r@[i].0@ != #[trigger] r@[j].0@,
            forall|k: Seq<char>| #[trigger] self@.contains_key(k) ==> exists|i: int|
                0 <= i < r@.len() && #[trigger] r@[i].0@ == k,
    {
        let mut r: Vec<(String, usize)> = Vec::new();
        let mut i: usize = 0;
        while i < self.entries.len()
            invariant
                self.wf(),
                i <= self.entries@.len(),
                r@.len() == i,
                forall|j: int| 0 <= j < i ==> (#[trigger] r@[j]).0@ == self.entries@[j].0@ && r@[j].1 == self.entries@[j].1,
            decreases self.entries@.len() - i,
        {
            r.push((self.entries[i].0.clone(), self.entries[i].1));
            i = i + 1;
        }
        proof {
            assert forall|i: int| 0 <= i < r@.len() implies #[trigger] self@.contains_key(r@[i].0@)
                && self@[r@[i].0@] == r@[i].1 as nat by {
                assert(self.model@.contains_key(self.entries@[i].0@));
            }
            assert forall|a: int, b: int| 0 <= a < b < r@.len() implies #[trigger] r@[a].0@ != #[trigger] r@[b].0@ by {
                assert(self.entries@[a].0@ != self.entries@[b].0@);
            }
            assert forall|k: Seq<char>| #[trigger] self@.contains_key(k) implies exists|i: int|
                0 <= i < r@.len() && #[trigger] r@[i].0@ == k by {
                assert(self.model@.contains_key(k));
                let j = choose|j: int| 0 <= j < self.entries@.len() && #[trigger] self.entries@[j].0@ == k;
                assert(r@[j].0@ == k);
            }
        }
        r
    }

    /// Adds every count of `other` to this one, word by word. Where some
    /// sum would not fit in a `usize`, nothing changes and `false` is returned.
    pub fn merge(&mut self, other: &WordCount) -> (ok: bool)
        requires
            old(self).wf(),
            other.wf(),
        ensures
            final(self).wf(),
            ok == sum_fits(old(self)@, other@),
            ok ==> final(self)@ == sum(old(self)@, other@),
            !ok ==> final(self)@ == old(self)@,
    {
        let n = other.entries.len();
        let mut i: usize = 0;
        while i < n
            invariant
                self.wf(),
                other.wf(),
                n == other.entries@.len(),
                i <= n,
                forall|j: int| 0 <= j < i ==> count_of(self@, #[trigger] other.entries@[j].0@)
                    + other.entries@[j].1 <= usize::MAX,
            decreases n - i,
        {
            let c = self.get(other.entries[i].0.as_str());
            if c > usize::MAX - other.entries[i].1 {
                proof {
                    let k = other.entries@[i as int].0@;
                    assert(other.model@.contains_key(other.entries@[i as int].0@));
                    assert(count_of(self@, k) + count_of(other@, k) > usize::MAX);
                }
                return false;
            }
            i = i + 1;
        }
        assert forall|k: Seq<char>| #[trigger] count_of(self@, k) + count_of(other@, k) <= usize::MAX by {
            self.lemma_counts_fit(k);
            if other.model@.contains_key(k) {
                let j = choose|j: int| 0 <= j < other.entries@.len() && #[trigger] other.entries@[j].0@ == k;
                assert(other.model@.contains_key(other.entries@[j].0@));
            }
        }
        let ghost start = self@;
        let ghost mut seen: Map<Seq<char>, nat> = Map::empty();
        assert(sum(start, seen) =~= start);
        i = 0;
        while i < n
            invariant
                self.wf(),
                other.wf(),
                n == other.entries@.len(),
                i <= n,
                sum_fits(start, other@),
                self@ == sum(start, seen),
                forall|k: Seq<char>| #[trigger] seen.contains_key(k) ==> exists|j: int|
                    0 <= j < i && #[trigger] other.entries@[j].0@ == k,
                forall|j: int| 0 <= j < i ==> #[trigger] seen.contains_key(other.entries@[j].0@),
                forall|k: Seq<char>| #[trigger] seen.contains_key(k) ==> other@.contains_key(k) && seen[k] == other@[k],
            decreases n - i,
        {
            let ghost k = other.entries@[i as int].0@;
            let c = other.entries[i].1;
            proof {
                assert(other.model@.contains_key(other.entries@[i as int].0@));
                if seen.contains_key(k) {
                    let j = choose|j: int| 0 <= j < i && #[trigger] other.entries@[j].0@ == k;
                    assert(other.entries@[j].0@ != other.entries@[i as int].0@);
                }
                assert(count_of(self@, k) == count_of(start, k));
                assert(count_of(start, k) + count_of(other@, k) <= usize::MAX);
            }
            self.add(other.entries[i].0.clone(), c);
            proof {
                let seen2 = seen.insert(k, c as nat);
                assert(self@ =~= sum(start, seen2));
                assert forall|kk: Seq<char>| #[trigger] seen2.contains_key(kk) implies exists|j: int|
                    0 <= j < i + 1 && #[trigger] other.entries@[j].0@ == kk by {
                    if kk != k {
                        let j = choose|j: int| 0 <= j < i && #[trigger] other.entries@[j].0@ == kk;
                        assert(other.entries@[j].0@ == kk);
                    } else {
                        assert(other.entries@[i as int].0@ == kk);
                    }
                }
                seen = seen2;
            }
            i = i + 1;
        }
        proof {
            assert forall|k: Seq<char>| #[trigger] other@.contains_key(k) implies seen.contains_key(k) by {
                let j = choose|j: int| 0 <= j < other.entries@.len() && #[trigger] other.entries@[j].0@ == k;
                assert(seen.contains_key(other.entries@[j].0@));
            }
            assert(seen =~= other@);
        }
        true
    }
}

/// A token of punctuation alone is not dropped: a text that is one such
/// token has one word, counted once under the key of the empty token.
pub proof fn lemma_punctuation_token_is_counted(w: Seq<char>)
    requires
        w.len() > 0,
        forall|i: int| 0 <= i < w.len() ==> !alphanumeric(#[trigger] w[i]) && !white_space(w[i]),
    ensures
        word_count_of(w) == Map::<Seq<char>, nat>::empty().insert(normalized(Seq::<char>::empty()), 1),
{
    crate::text::lemma_punctuation_token(w);
    let ks = keys_of(w);
    assert(ks =~= seq![normalized(Seq::<char>::empty())]);
    assert(ks.drop_last() =~= Seq::<Seq<char>>::empty());
    assert(tally(ks.drop_last()) == Map::<Seq<char>, nat>::empty());
    assert(tally(ks) == add_one(Map::<Seq<char>, nat>::empty(), normalized(Seq::<char>::empty())));
    assert(word_count_of(w) =~= Map::<Seq<char>, nat>::empty().insert(normalized(Seq::<char>::empty()), 1));
}

proof fn lemma_tally_push(ws: Seq<Seq<char>>, w: Seq<char>)
    ensures
        tally(ws.push(w)) == add_one(tally(ws), w),
{
    assert(ws.push(w).drop_last() =~= ws);
}

/// Counts the words of `contents`: it is split on whitespace, and each token
/// is counted under its normalized key. Empty text gives an empty count.
pub fn count_words(contents: &str) -> (r: WordCount)
    ensures
        r.wf(),
        r@ == word_count_of(contents@),
{
    let cs = chars_of(contents);
    let ghost s = cs@;
    let mut r = WordCount::new();
    let ghost mut done: Seq<Seq<char>> = seq![];
    let mut i: usize = 0;
    assert(done + words_from(s, 0) =~= words(s));
    assert(done.map_values(|w: Seq<char>| normalized(w)) =~= seq![]);
    while i < cs.len()
        invariant
            s == cs@,
            r.wf(),
            i <= cs@.len(),
            done.len() <= i,
            words(s) == done + words_from(s, i as int),
            r@ == tally(done.map_values(|w: Seq<char>| normalized(w))),
            forall|k: Seq<char>| #[trigger] count_of(r@, k) <= done.len(),
        decreases cs@.len() - i,
    {
        if is_space(cs[i]) {
            i = i + 1;
        } else {
            let mut j: usize = i;
            while j < cs.len() && !is_space(cs[j])
                invariant
                    s == cs@,
                    i <= j <= cs@.len(),
                    i < cs@.len(),
                    !white_space(s[i as int]),
                    run_end(s, i as int) == run_end(s, j as int),
                decreases cs@.len() - j,
            {
                j = j + 1;
            }
            proof {
                crate::text::lemma_run_end_bounds(s, i as int);
            }
            let key = normalize_range(&cs, i, j);
            let ghost t = s.subrange(i as int, j as int);
            proof {
                assert(count_of(r@, key@) <= done.len());
            }
            let ghost prev = r@;
            r.add(key, 1);
            proof {
                let f = |w: Seq<char>| normalized(w);
                assert(done.push(t).map_values(f) =~= done.map_values(f).push(f(t)));
                lemma_tally_push(done.map_values(f), f(t));
                assert(words_from(s, i as int) == seq![t] + words_from(s, j as int));
                assert(done + (seq![t] + words_from(s, j as int)) =~= done.push(t) + words_from(s, j as int));
                assert forall|k: Seq<char>| #[trigger] count_of(r@, k) <= done.len() + 1 by {
                    assert(count_of(prev, k) <= done.len());
                }
                done = done.push(t);
            }
            i = j;
        }
    }
    r
}

} // verus!
