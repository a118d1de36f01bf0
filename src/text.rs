use vstd::prelude::*;

verus! {

/// Whether `c` has the Unicode White_Space property.
pub uninterp spec fn white_space(c: char) -> bool;

/// Whether `c` is alphabetic or numeric in Unicode's sense.
pub uninterp spec fn alphanumeric(c: char) -> bool;

/// The Unicode lowercase mapping of a whole string.
pub uninterp spec fn lower_of(s: Seq<char>) -> Seq<char>;

/// Relies on char::is_whitespace, which depends on the character alone.
#[verifier::external_body]
pub(crate) fn is_space(c: char) -> (r: bool)
    ensures
        r == white_space(c),
{
    c.is_whitespace()
}

/// Relies on char::is_alphanumeric, which depends on the character alone.
#[verifier::external_body]
fn is_alnum(c: char) -> (r: bool)
    ensures
        r == alphanumeric(c),
{
    c.is_alphanumeric()
}

/// Relies on str::to_lowercase: the result depends on the characters alone.
#[verifier::external_body]
fn lowercase(cs: &Vec<char>) -> (r: String)
    ensures
        r@ == lower_of(cs@),
{
    cs.iter().collect::<String>().to_lowercase()
}

/// Relies on str::chars: the characters of `s`, in order.
#[verifier::external_body]
pub(crate) fn chars_of(s: &str) -> (r: Vec<char>)
    ensures
        r@ == s@,
{
    s.chars().collect()
}

/// `w` without its leading characters that are not alphanumeric.
pub open spec fn strip_front(w: Seq<char>) -> Seq<char>
    decreases w.len(),
{
    if w.len() > 0 && !alphanumeric(w[0]) {
        strip_front(w.drop_first())
    } else {
        w
    }
}

/// `w` without its trailing characters that are not alphanumeric.
pub open spec fn strip_back(w: Seq<char>) -> Seq<char>
    decreases w.len(),
{
    if w.len() > 0 && !alphanumeric(w.last()) {
        strip_back(w.drop_last())
    } else {
        w
    }
}

/// The key under which a token is counted: stripped of non-alphanumeric
/// characters at both ends, then lowercased.
pub open spec fn normalized(w: Seq<char>) -> Seq<char> {
    lower_of(strip_back(strip_front(w)))
}

/// The end of the run of non-whitespace characters that starts at `i`.
pub open spec fn run_end(s: Seq<char>, i: int) -> int
    decreases s.len() - i,
{
    if i < 0 || i >= s.len() || white_space(s[i]) {
        i
    } else {
        run_end(s, i + 1)
    }
}

/// The whitespace-separated tokens of `s` from position `i` on.
pub open spec fn words_from(s: Seq<char>, i: int) -> Seq<Seq<char>>
    decreases s.len() - i,
{
    if i < 0 || i >= s.len() {
        seq![]
    } else if white_space(s[i]) {
        words_from(s, i + 1)
    } else {
        let j = run_end(s, i);
        if j <= i || j > s.len() {
            seq![]
        } else {
            seq![s.subrange(i, j)] + words_from(s, j)
        }
    }
}

/// The whitespace-separated tokens of `s`, in order.
pub open spec fn words(s: Seq<char>) -> Seq<Seq<char>> {
    words_from(s, 0)
}

pub(crate) proof fn lemma_run_end_bounds(s: Seq<char>, i: int)
    requires
        0 <= i <= s.len(),
    ensures
        i <= run_end(s, i) <= s.len(),
        i < s.len() && !white_space(s[i]) ==> run_end(s, i) > i,
    decreases s.len() - i,
{
    if i < s.len() && !white_space(s[i]) {
        lemma_run_end_bounds(s, i + 1);
    }
}

proof fn lemma_strip_front_all(w: Seq<char>)
    requires
        forall|i: int| 0 <= i < w.len() ==> !alphanumeric(#[trigger] w[i]),
    ensures
        strip_front(w) == Seq::<char>::empty(),
    decreases w.len(),
{
    if w.len() > 0 {
        assert forall|i: int| 0 <= i < w.drop_first().len() implies !alphanumeric(#[trigger] w.drop_first()[i]) by {
            assert(w.drop_first()[i] == w[i + 1]);
        }
        lemma_strip_front_all(w.drop_first());
    } else {
        assert(w =~= Seq::<char>::empty());
    }
}

proof fn lemma_run_to_end(w: Seq<char>, i: int)
    requires
        0 <= i <= w.len(),
        forall|k: int| 0 <= k < w.len() ==> !white_space(#[trigger] w[k]),
    ensures
        run_end(w, i) == w.len(),
    decreases w.len() - i,
{
    if i < w.len() {
        lemma_run_to_end(w, i + 1);
    }
}

/// A token with no alphanumeric character strips to nothing, and a text
/// that is just such a token has that one token.
pub proof fn lemma_punctuation_token(w: Seq<char>)
    requires
        w.len() > 0,
        forall|i: int| 0 <= i < w.len() ==> !alphanumeric(#[trigger] w[i]) && !white_space(w[i]),
    ensures
        strip_back(strip_front(w)) == Seq::<char>::empty(),
        normalized(w) == normalized(Seq::<char>::empty()),
        words(w) == seq![w],
{
    lemma_strip_front_all(w);
    assert(strip_back(Seq::<char>::empty()) == Seq::<char>::empty());
    assert(strip_front(Seq::<char>::empty()) == Seq::<char>::empty());
    lemma_run_to_end(w, 0);
    assert(w.subrange(0, w.len() as int) =~= w);
    assert(words_from(w, w.len() as int) == Seq::<Seq<char>>::empty());
    assert(words(w) =~= seq![w]);
}

/// Strips `cs[lo..hi]` at both ends; returns the bounds of what is left.
fn trim_bounds(cs: &Vec<char>, lo: usize, hi: usize) -> (r: (usize, usize))
    requires
        lo <= hi <= cs@.len(),
    ensures
        lo <= r.0 <= r.1 <= hi,
        cs@.subrange(r.0 as int, r.1 as int) == strip_back(strip_front(cs@.subrange(lo as int, hi as int))),
{
    let mut a: usize = lo;
    while a < hi && !is_alnum(cs[a])
        invariant
            lo <= a <= hi <= cs@.len(),
            strip_front(cs@.subrange(lo as int, hi as int)) == strip_front(cs@.subrange(a as int, hi as int)),
        decreases hi - a,
    {
        assert(cs@.subrange(a as int, hi as int).drop_first() =~= cs@.subrange(a + 1, hi as int));
        a = a + 1;
    }
    assert(strip_front(cs@.subrange(a as int, hi as int)) == cs@.subrange(a as int, hi as int));
    let mut b: usize = hi;
    while b > a && !is_alnum(cs[b - 1])
        invariant
            lo <= a <= b <= hi <= cs@.len(),
            strip_back(cs@.subrange(a as int, hi as int)) == strip_back(cs@.subrange(a as int, b as int)),
        decreases b - a,
    {
        assert(cs@.subrange(a as int, b as int).drop_last() =~= cs@.subrange(a as int, b - 1));
        b = b - 1;
    }
    (a, b)
}

/// Copies `cs[lo..hi]` into a vector of its own.
fn copy_range(cs: &Vec<char>, lo: usize, hi: usize) -> (r: Vec<char>)
    requires
        lo <= hi <= cs@.len(),
    ensures
        r@ == cs@.subrange(lo as int, hi as int),
{
    let mut r: Vec<char> = Vec::new();
    let mut k: usize = lo;
    while k < hi
        invariant
            lo <= k <= hi <= cs@.len(),
            r@ == cs@.subrange(lo as int, k as int),
        decreases hi - k,
    {
        r.push(cs[k]);
        k = k + 1;
        assert(r@ =~= cs@.subrange(lo as int, k as int));
    }
    r
}

/// The counting key of the token `cs[lo..hi]`.
pub(crate) fn normalize_range(cs: &Vec<char>, lo: usize, hi: usize) -> (r: String)
    requires
        lo <= hi <= cs@.len(),
    ensures
        r@ == normalized(cs@.subrange(lo as int, hi as int)),
{
    let (a, b) = trim_bounds(cs, lo, hi);
    let core = copy_range(cs, a, b);
    lowercase(&core)
}

/// The key under which `token` is counted: leading and trailing characters
/// that are not alphanumeric are removed, inner ones are kept, and the rest
/// is lowercased. A token of punctuation alone gives the empty key.
pub fn normalize(token: &str) -> (r: String)
    ensures
        r@ == normalized(token@),
{
    let cs = chars_of(token);
    assert(cs@.subrange(0, cs@.len() as int) =~= cs@);
    normalize_range(&cs, 0, cs.len())
}

} // verus!
