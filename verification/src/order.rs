//! The order names sort in: character by character, by code point, a proper
//! prefix first. It is the order `str` compares in, since UTF-8 keeps code
//! point order byte for byte.

use vstd::prelude::*;

use crate::names::{names, same_text};
use crate::text::chars_of;

verus! {

/// Whether `a` sorts strictly before `b`.
pub open spec fn text_lt(a: Seq<char>, b: Seq<char>) -> bool
    decreases a.len(),
{
    if a.len() == 0 {
        b.len() > 0
    } else if b.len() == 0 {
        false
    } else if a[0] != b[0] {
        (a[0] as int) < (b[0] as int)
    } else {
        text_lt(a.drop_first(), b.drop_first())
    }
}

/// Nothing sorts before itself.
pub proof fn lemma_text_irreflexive(a: Seq<char>)
    ensures
        !text_lt(a, a),
    decreases a.len(),
{
    if a.len() > 0 {
        lemma_text_irreflexive(a.drop_first());
    }
}

/// The order is transitive.
pub proof fn lemma_text_transitive(a: Seq<char>, b: Seq<char>, c: Seq<char>)
    requires
        text_lt(a, b),
        text_lt(b, c),
    ensures
        text_lt(a, c),
    decreases a.len(),
{
    if a.len() > 0 && b.len() > 0 && c.len() > 0 && a[0] == b[0] && b[0] == c[0] {
        lemma_text_transitive(a.drop_first(), b.drop_first(), c.drop_first());
    }
}

/// Of two different names, one sorts first, and not both.
pub proof fn lemma_text_total(a: Seq<char>, b: Seq<char>)
    ensures
        a != b ==> (text_lt(a, b) || text_lt(b, a)),
        !(text_lt(a, b) && text_lt(b, a)),
    decreases a.len(),
{
    if a.len() > 0 && b.len() > 0 {
        if a[0] == b[0] {
            lemma_text_total(a.drop_first(), b.drop_first());
            if a.drop_first() == b.drop_first() {
                assert(a =~= seq![a[0]] + a.drop_first());
                assert(b =~= seq![b[0]] + b.drop_first());
            }
        } else {
            assert((a[0] as int) != (b[0] as int));
        }
    } else if a.len() == 0 && b.len() == 0 {
        assert(a =~= b);
    }
}

/// Comparing what is left after a common prefix decides the whole.
proof fn lemma_text_skip(a: Seq<char>, b: Seq<char>, i: int)
    requires
        0 <= i < a.len(),
        i < b.len(),
        a[i] == b[i],
    ensures
        text_lt(a.skip(i), b.skip(i)) == text_lt(a.skip(i + 1), b.skip(i + 1)),
{
    assert(a.skip(i).drop_first() =~= a.skip(i + 1));
    assert(b.skip(i).drop_first() =~= b.skip(i + 1));
}

/// Whether `a` sorts strictly before `b`.
pub fn text_less(a: &str, b: &str) -> (less: bool)
    ensures
        less == text_lt(a@, b@),
{
    let x = chars_of(a);
    let y = chars_of(b);
    let mut i: usize = 0;
    assert(x@.skip(0) =~= x@);
    assert(y@.skip(0) =~= y@);
    while i < x.len() && i < y.len()
        invariant
            x@ == a@,
            y@ == b@,
            i <= x@.len(),
            i <= y@.len(),
            text_lt(a@, b@) == text_lt(x@.skip(i as int), y@.skip(i as int)),
        decreases x@.len() - i,
    {
        if x[i] != y[i] {
            return x[i] < y[i];
        }
        proof {
            lemma_text_skip(x@, y@, i as int);
        }
        i = i + 1;
    }
    i < y.len()
}

/// Whether names are strictly ascending.
pub open spec fn ascending_names(s: Seq<Seq<char>>) -> bool {
    forall|i: int, j: int| 0 <= i < j < s.len() ==> text_lt(#[trigger] s[i], #[trigger] s[j])
}

/// Insert `name` into a strictly ascending list of names, unless it is
/// already there.
pub fn insert_name(v: &mut Vec<String>, name: &str)
    requires
        ascending_names(names(old(v)@)),
    ensures
        ascending_names(names(final(v)@)),
        forall|x: Seq<char>|
            #![trigger names(final(v)@).contains(x)]
            names(final(v)@).contains(x) <==> (names(old(v)@).contains(x) || x == name@),
{
    let ghost old_names = names(v@);
    let mut p: usize = 0;
    while p < v.len() && text_less(v[p].as_str(), name)
        invariant
            p <= v@.len(),
            names(v@) == old_names,
            forall|i: int| 0 <= i < p ==> text_lt(#[trigger] old_names[i], name@),
        decreases v@.len() - p,
    {
        assert(old_names[p as int] == v@[p as int]@);
        p = p + 1;
    }
    if p < v.len() && same_text(v[p].as_str(), name) {
        assert(old_names[p as int] == name@);
        assert forall|x: Seq<char>| #![trigger names(v@).contains(x)]
            names(v@).contains(x) <==> (old_names.contains(x) || x == name@) by {
            if x == name@ {
                assert(old_names[p as int] == x);
            }
        }
        return;
    }
    proof {
        if p < old_names.len() {
            assert(old_names[p as int] == v@[p as int]@);
            lemma_text_total(old_names[p as int], name@);
            assert(text_lt(name@, old_names[p as int]));
        }
    }
    let ghost q = p as int;
    v.insert(p, name.to_owned());
    let ghost now = names(v@);
    assert(now =~= old_names.insert(q, name@));
    assert forall|i: int, j: int| 0 <= i < j < now.len() implies text_lt(#[trigger] now[i], #[trigger] now[j]) by {
        if j < q {
            assert(now[i] == old_names[i] && now[j] == old_names[j]);
        } else if j == q {
            assert(now[i] == old_names[i]);
        } else if i < q {
            assert(now[i] == old_names[i] && now[j] == old_names[j - 1]);
            assert(text_lt(old_names[i], name@));
            if j - 1 > q {
                assert(text_lt(old_names[q], old_names[j - 1]));
                lemma_text_transitive(name@, old_names[q], old_names[j - 1]);
            }
            lemma_text_transitive(old_names[i], name@, old_names[j - 1]);
        } else if i == q {
            assert(now[j] == old_names[j - 1]);
            if j - 1 > q {
                assert(text_lt(old_names[q], old_names[j - 1]));
                lemma_text_transitive(name@, old_names[q], old_names[j - 1]);
            }
        } else {
            assert(now[i] == old_names[i - 1] && now[j] == old_names[j - 1]);
        }
    }
    assert forall|x: Seq<char>| #![trigger names(v@).contains(x)]
        names(v@).contains(x) <==> (old_names.contains(x) || x == name@) by {
        if old_names.contains(x) {
            let i = choose|i: int| 0 <= i < old_names.len() && old_names[i] == x;
            if i < q {
                assert(now[i] == x);
            } else {
                assert(now[i + 1] == x);
            }
        }
        if x == name@ {
            assert(now[q] == x);
        }
        if now.contains(x) {
            let i = choose|i: int| 0 <= i < now.len() && now[i] == x;
            if i < q {
                assert(old_names[i] == x);
            } else if i > q {
                assert(old_names[i - 1] == x);
            }
        }
    }
}

} // verus!
