//! A transcript delivered twice over deposits nothing new: the same rows
//! leave the same deposits, and where a deposit was written names it.

use vstd::prelude::*;

use super::grammar::Mark;
use super::positions::lemma_marks_grow;
use super::{deposited, deposits_of, lemma_sorted, medium, resolved, view_key};
use crate::session::{Sequence, SessionAuthor, SessionMessage};
use vstd::utf8::encode_utf8;

verus! {

/// A transcript with every row delivered twice in a row, as a host meets a
/// duplicate.
pub open spec fn redelivered(messages: Seq<SessionMessage>) -> Seq<SessionMessage> {
    Seq::new((2 * messages.len()) as nat, |k: int| messages[k / 2])
}

/// Whether a sequence number names one row: rows that share a sequence are
/// the same row.
pub open spec fn sequences_name_rows(messages: Seq<SessionMessage>) -> bool {
    forall|i: int, j: int|
        0 <= i < messages.len() && 0 <= j < messages.len() && (#[trigger] messages[i]).sequence
            == (#[trigger] messages[j]).sequence ==> messages[i] == messages[j]
}

/// Whether every body's UTF-8 encoding fits in a `usize`, as the body of a
/// `String` does.
pub open spec fn bodies_fit(messages: Seq<SessionMessage>) -> bool {
    forall|i: int| 0 <= i < messages.len() ==> encode_utf8((#[trigger] messages[i]).content@).len() <= usize::MAX
}

/// Whether deposits written at one address are one deposit.
pub open spec fn addresses_determine(s: Seq<(Sequence, SessionAuthor, Mark)>) -> bool {
    forall|i: int, j: int|
        0 <= i < s.len() && 0 <= j < s.len() && view_key(#[trigger] s[i]) == view_key(#[trigger] s[j]) ==> s[i]
            == s[j]
}

/// A key is made of its row's sequence and its byte offset.
pub proof fn lemma_view_key_parts(a: (Sequence, SessionAuthor, Mark), b: (Sequence, SessionAuthor, Mark))
    requires
        view_key(a) == view_key(b),
    ensures
        a.0 == b.0,
        a.2.offset == b.2.offset,
{
    let (x, y, u, v) = (a.0.0 as int, a.2.offset as int, b.0.0 as int, b.2.offset as int);
    assert(x == u && y == v) by (nonlinear_arith)
        requires
            x * 18446744073709551616 + y == u * 18446744073709551616 + v,
            0 <= y < 18446744073709551616,
            0 <= v < 18446744073709551616,
    ;
}

/// Where each deposit came from: a row of the list, and one of the markers
/// its body keeps.
pub(super) proof fn lemma_deposit_origin(messages: Seq<SessionMessage>, i: int) -> (origin: (int, int))
    requires
        0 <= i < deposits_of(messages).len(),
    ensures
        0 <= origin.0 < messages.len(),
        0 <= origin.1 < resolved(messages[origin.0].content@, None).len(),
        deposits_of(messages)[i] == (
            messages[origin.0].sequence,
            messages[origin.0].author,
            resolved(messages[origin.0].content@, None)[origin.1],
        ),
    decreases messages.len(),
{
    let rest = messages.drop_last();
    let m = messages.last();
    let before = deposits_of(rest);
    let own = deposited(resolved(m.content@, None), m.author, m.sequence);
    assert(deposits_of(messages) == before + own);
    if i < before.len() {
        let o = lemma_deposit_origin(rest, i);
        assert(rest[o.0] == messages[o.0]);
        o
    } else {
        let p = i - before.len();
        assert(own[p] == (m.sequence, m.author, resolved(m.content@, None)[p]));
        (messages.len() - 1, p)
    }
}

/// The markers a body keeps come in strictly increasing byte order.
proof fn lemma_resolved_grow(body: Seq<char>)
    requires
        encode_utf8(body).len() <= usize::MAX,
    ensures
        forall|p: int, q: int|
            0 <= p < q < resolved(body, None).len() ==> (#[trigger] resolved(body, None)[p]).offset < (
            #[trigger] resolved(body, None)[q]).offset,
{
    lemma_marks_grow(body);
    let all = super::marks(body);
    let kept = resolved(body, None);
    assert forall|p: int, q: int| 0 <= p < q < kept.len() implies (#[trigger] kept[p]).offset < (
    #[trigger] kept[q]).offset by {
        assert(kept[p] == all[p] && kept[q] == all[q]);
    }
}

/// Where sequences name rows, an address names one deposit.
pub proof fn lemma_deposits_determine(messages: Seq<SessionMessage>)
    requires
        sequences_name_rows(messages),
        bodies_fit(messages),
    ensures
        addresses_determine(deposits_of(messages)),
{
    let d = deposits_of(messages);
    assert forall|i: int, j: int|
        0 <= i < d.len() && 0 <= j < d.len() && view_key(#[trigger] d[i]) == view_key(#[trigger] d[j]) implies d[i]
        == d[j] by {
        let a = lemma_deposit_origin(messages, i);
        let b = lemma_deposit_origin(messages, j);
        lemma_view_key_parts(d[i], d[j]);
        assert(messages[a.0].sequence == messages[b.0].sequence);
        assert(messages[a.0] == messages[b.0]);
        let body = messages[a.0].content@;
        lemma_resolved_grow(body);
        let kept = resolved(body, None);
        if a.1 < b.1 {
            assert(kept[a.1].offset < kept[b.1].offset);
        } else if b.1 < a.1 {
            assert(kept[b.1].offset < kept[a.1].offset);
        }
    }
}

/// The medium holds exactly the deposits, reordered.
pub proof fn lemma_medium_holds_deposits(messages: Seq<SessionMessage>)
    ensures
        forall|v: (Sequence, SessionAuthor, Mark)|
            #[trigger] medium(messages).contains(v) == deposits_of(messages).contains(v),
{
    broadcast use vstd::seq_lib::group_to_multiset_ensures;

    lemma_sorted(deposits_of(messages));
    assert forall|v: (Sequence, SessionAuthor, Mark)|
        #[trigger] medium(messages).contains(v) == deposits_of(messages).contains(v) by {
        assert(medium(messages).to_multiset().count(v) == deposits_of(messages).to_multiset().count(v));
    }
}

/// Delivering every row twice deposits the same things, each twice.
pub proof fn lemma_deposits_redelivered(messages: Seq<SessionMessage>)
    ensures
        forall|v: (Sequence, SessionAuthor, Mark)|
            #[trigger] deposits_of(redelivered(messages)).contains(v) == deposits_of(messages).contains(v),
    decreases messages.len(),
{
    if messages.len() > 0 {
        let rest = messages.drop_last();
        let m = messages.last();
        lemma_deposits_redelivered(rest);
        let twice = redelivered(messages);
        let once = redelivered(rest).push(m);
        assert(twice =~= once.push(m));
        assert(once.drop_last() =~= redelivered(rest));
        assert(twice.drop_last() =~= once);
        let own = deposited(resolved(m.content@, None), m.author, m.sequence);
        assert(twice.last() == m && once.last() == m);
        assert(deposits_of(once) == deposits_of(redelivered(rest)) + own);
        assert(deposits_of(twice) == deposits_of(once) + own);
        assert(deposits_of(messages) == deposits_of(rest) + own);
        assert forall|v: (Sequence, SessionAuthor, Mark)|
            #[trigger] deposits_of(twice).contains(v) == deposits_of(messages).contains(v) by {
            let x = deposits_of(redelivered(rest));
            let y = deposits_of(rest);
            if deposits_of(twice).contains(v) {
                let k = choose|k: int| 0 <= k < deposits_of(twice).len() && deposits_of(twice)[k] == v;
                if k < x.len() {
                    assert(x[k] == v);
                    assert(x.contains(v));
                    let j = choose|j: int| 0 <= j < y.len() && y[j] == v;
                    assert(deposits_of(messages)[j] == v);
                } else if k < x.len() + own.len() {
                    assert(own[k - x.len()] == v);
                    assert(deposits_of(messages)[y.len() + k - x.len()] == v);
                } else {
                    assert(own[k - x.len() - own.len()] == v);
                    assert(deposits_of(messages)[y.len() + k - x.len() - own.len()] == v);
                }
            }
            if deposits_of(messages).contains(v) {
                let k = choose|k: int| 0 <= k < deposits_of(messages).len() && deposits_of(messages)[k] == v;
                if k < y.len() {
                    assert(y[k] == v);
                    assert(y.contains(v));
                    assert(x.contains(v));
                    let j = choose|j: int| 0 <= j < x.len() && x[j] == v;
                    assert(deposits_of(twice)[j] == v);
                } else {
                    assert(own[k - y.len()] == v);
                    assert(deposits_of(twice)[x.len() + k - y.len()] == v);
                }
            }
        }
    } else {
        assert(redelivered(messages) =~= messages);
    }
}

} // verus!
