//! Character-level helpers on strings, with their models over `Seq<char>`.

use vstd::prelude::*;

verus! {

/// The characters of `s`, in order.
pub fn chars_of(s: &str) -> (r: Vec<char>)
    ensures
        r@ == s@,
{
    let mut r: Vec<char> = Vec::new();
    for c in it: s.chars()
        invariant
            it.seq() == s@,
            r@ == it.seq().take(it.index() as int),
    {
        r.push(c);
    }
    assert(r@ =~= s@);
    r
}

/// `pat` stands in `t` at position `p`.
pub open spec fn occurs_at(t: Seq<char>, p: int, pat: Seq<char>) -> bool {
    &&& 0 <= p
    &&& p + pat.len() <= t.len()
    &&& forall|k: int| 0 <= k < pat.len() ==> #[trigger] t[p + k] == pat[k]
}

/// The first position at or after `from` where `pat` stands in `t`.
pub open spec fn find_spec(t: Seq<char>, pat: Seq<char>, from: int) -> Option<int>
    decreases t.len() - from,
{
    if from < 0 || from + pat.len() > t.len() {
        None
    } else if occurs_at(t, from, pat) {
        Some(from)
    } else {
        find_spec(t, pat, from + 1)
    }
}

/// `pat` stands somewhere in `t`.
pub open spec fn contains(t: Seq<char>, pat: Seq<char>) -> bool {
    exists|p: int| occurs_at(t, p, pat)
}

/// What a search result means: the first occurrence from `from` on, or none.
pub proof fn lemma_find_spec(t: Seq<char>, pat: Seq<char>, from: int)
    requires
        0 <= from,
    ensures
        match find_spec(t, pat, from) {
            Some(p) => from <= p && occurs_at(t, p, pat) && forall|q: int|
                from <= q < p ==> !occurs_at(t, q, pat),
            None => forall|q: int| from <= q ==> !occurs_at(t, q, pat),
        },
    decreases t.len() - from,
{
    if from + pat.len() > t.len() {
    } else if occurs_at(t, from, pat) {
    } else {
        lemma_find_spec(t, pat, from + 1);
    }
}

/// A search finds an occurrence at `p` when nothing stands between `from` and `p`.
pub proof fn lemma_find_at(t: Seq<char>, pat: Seq<char>, from: int, p: int)
    requires
        0 <= from <= p,
        occurs_at(t, p, pat),
        forall|q: int| from <= q < p ==> !occurs_at(t, q, pat),
    ensures
        find_spec(t, pat, from) == Some(p),
{
    lemma_find_spec(t, pat, from);
}

/// Whether `pat` stands in `t` at position `p`.
pub fn matches_at(t: &Vec<char>, p: usize, pat: &Vec<char>) -> (r: bool)
    ensures
        r == occurs_at(t@, p as int, pat@),
{
    if p > t.len() || pat.len() > t.len() - p {
        return false;
    }
    let mut k: usize = 0;
    while k < pat.len()
        invariant
            p + pat.len() <= t.len(),
            k <= pat.len(),
            forall|j: int| 0 <= j < k ==> #[trigger] t@[p + j] == pat@[j],
        decreases pat@.len() - k,
    {
        if t[p + k] != pat[k] {
            return false;
        }
        k = k + 1;
    }
    true
}

/// The first position at or after `from` where `pat` stands in `t`.
pub fn find_from(t: &Vec<char>, pat: &Vec<char>, from: usize) -> (r: Option<usize>)
    ensures
        match r {
            Some(p) => find_spec(t@, pat@, from as int) == Some(p as int),
            None => find_spec(t@, pat@, from as int) is None,
        },
{
    let mut p: usize = from;
    while p <= t.len() && pat.len() <= t.len() - p
        invariant
            from <= p,
            find_spec(t@, pat@, from as int) == find_spec(t@, pat@, p as int),
        decreases t@.len() + 1 - p,
    {
        if matches_at(t, p, pat) {
            return Some(p);
        }
        p = p + 1;
    }
    None
}

} // verus!
