//! Sequences of names: first-appearance order without repeats, and the
//! executable searches every fold here leans on.

use vstd::prelude::*;

verus! {

/// `s` with every repeat of an earlier element dropped, in first-appearance
/// order.
pub open spec fn distinct<A>(s: Seq<A>) -> Seq<A>
    decreases s.len(),
{
    if s.len() == 0 {
        Seq::empty()
    } else {
        let earlier = distinct(s.drop_last());
        if earlier.contains(s.last()) {
            earlier
        } else {
            earlier.push(s.last())
        }
    }
}

/// Appending one element extends the distinct prefix by it, unless it was
/// already there.
pub proof fn lemma_distinct_push<A>(s: Seq<A>, x: A)
    ensures
        distinct(s.push(x)) == (if distinct(s).contains(x) {
            distinct(s)
        } else {
            distinct(s).push(x)
        }),
{
    assert(s.push(x).drop_last() =~= s);
}

/// The distinct prefix holds exactly the elements of the sequence, once each.
pub proof fn lemma_distinct_contains<A>(s: Seq<A>, x: A)
    ensures
        distinct(s).contains(x) <==> s.contains(x),
    decreases s.len(),
{
    if s.len() > 0 {
        let d = s.drop_last();
        lemma_distinct_contains(d, x);
        assert(s =~= d.push(s.last()));
        assert(s.contains(x) <==> (d.contains(x) || x == s.last())) by {
            if s.contains(x) {
                let i = choose|i: int| 0 <= i < s.len() && s[i] == x;
                if i < s.len() - 1 {
                    assert(d[i] == x);
                }
            }
            if d.contains(x) {
                let i = choose|i: int| 0 <= i < d.len() && d[i] == x;
                assert(s[i] == x);
            }
            if x == s.last() {
                assert(s[s.len() - 1] == x);
            }
        }
        let e = distinct(d);
        if !e.contains(s.last()) {
            assert(e.push(s.last()).contains(x) <==> (e.contains(x) || x == s.last())) by {
                if e.push(s.last()).contains(x) {
                    let i = choose|i: int|
                        0 <= i < e.push(s.last()).len() && e.push(s.last())[i] == x;
                    if i < e.len() {
                        assert(e[i] == x);
                    }
                }
                if e.contains(x) {
                    let i = choose|i: int| 0 <= i < e.len() && e[i] == x;
                    assert(e.push(s.last())[i] == x);
                }
                if x == s.last() {
                    assert(e.push(s.last())[e.len() as int] == x);
                }
            }
        }
    }
}

/// The distinct prefix is no longer than the sequence.
pub proof fn lemma_distinct_len<A>(s: Seq<A>)
    ensures
        distinct(s).len() <= s.len(),
    decreases s.len(),
{
    if s.len() > 0 {
        lemma_distinct_len(s.drop_last());
    }
}

/// The distinct prefix has no repeats.
pub proof fn lemma_distinct_no_repeats<A>(s: Seq<A>)
    ensures
        distinct(s).no_duplicates(),
    decreases s.len(),
{
    if s.len() > 0 {
        lemma_distinct_no_repeats(s.drop_last());
        lemma_distinct_contains(s.drop_last(), s.last());
    }
}

/// The names held by a vector of strings.
pub open spec fn names(v: Seq<String>) -> Seq<Seq<char>> {
    v.map_values(|s: String| s@)
}

/// Whether a vector of strings holds `name`.
pub fn holds(v: &Vec<String>, name: &str) -> (found: bool)
    ensures
        found == names(v@).contains(name@),
{
    let mut i: usize = 0;
    while i < v.len()
        invariant
            i <= v.len(),
            forall|j: int| 0 <= j < i ==> v@[j]@ != name@,
        decreases v.len() - i,
    {
        if same_text(v[i].as_str(), name) {
            assert(names(v@)[i as int] == name@);
            return true;
        }
        i = i + 1;
    }
    proof {
        if names(v@).contains(name@) {
            let j = choose|j: int| 0 <= j < names(v@).len() && names(v@)[j] == name@;
            assert(v@[j]@ == name@);
        }
    }
    false
}

/// Push `name` unless the vector already holds it.
pub fn push_distinct(v: &mut Vec<String>, name: &str)
    ensures
        names(final(v)@) == (if names(old(v)@).contains(name@) {
            names(old(v)@)
        } else {
            names(old(v)@).push(name@)
        }),
{
    if !holds(v, name) {
        v.push(name.to_owned());
        assert(names(v@) =~= names(old(v)@).push(name@));
    }
}

/// Whether two string slices hold the same characters.
pub fn same_text(a: &str, b: &str) -> (same: bool)
    ensures
        same == (a@ == b@),
{
    let n = a.unicode_len();
    if n != b.unicode_len() {
        return false;
    }
    let mut i: usize = 0;
    while i < n
        invariant
            n == a@.len() == b@.len(),
            i <= n,
            forall|j: int| 0 <= j < i ==> a@[j] == b@[j],
        decreases n - i,
    {
        if a.get_char(i) != b.get_char(i) {
            return false;
        }
        i = i + 1;
    }
    assert(a@ =~= b@);
    true
}

} // verus!
