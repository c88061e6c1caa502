//! Where markers sit in a body: each line carries at most one, lines do not
//! overlap, and so a body's markers come in strictly increasing byte order.

use vstd::prelude::*;

use super::grammar::{
    byte_offset, line_end, lines_from, mark_of_line, marks, marks_of_lines, parse_marker, skip_ws,
    trim_breaks, Mark,
};
use super::redelivery::{lemma_deposit_origin, lemma_medium_holds_deposits};
use super::{deposits_of, desk_rows, medium, resolved};
use crate::session::{Sequence, SessionAuthor, SessionMessage};
use vstd::utf8::{encode_scalar, encode_utf8};

verus! {

/// Encoding a concatenation encodes each part in turn.
proof fn lemma_encode_concat(a: Seq<char>, c: Seq<char>)
    ensures
        encode_utf8(a + c) == encode_utf8(a) + encode_utf8(c),
    decreases a.len(),
{
    if a.len() > 0 {
        assert((a + c).drop_first() =~= a.drop_first() + c);
        assert((a + c)[0] == a[0]);
        lemma_encode_concat(a.drop_first(), c);
        assert(encode_scalar(a[0] as u32) + (encode_utf8(a.drop_first()) + encode_utf8(c)) =~= (
        encode_scalar(a[0] as u32) + encode_utf8(a.drop_first())) + encode_utf8(c));
    } else {
        assert(a + c =~= c);
        assert(encode_utf8(a) + encode_utf8(c) =~= encode_utf8(c));
    }
}

/// Every character takes at least one byte.
proof fn lemma_encode_len(c: Seq<char>)
    ensures
        encode_utf8(c).len() >= c.len(),
    decreases c.len(),
{
    if c.len() > 0 {
        lemma_encode_len(c.drop_first());
    }
}

/// Byte offsets grow with the character index, strictly, in a body whose
/// encoding fits in a `usize`.
pub proof fn lemma_byte_offset_grows(b: Seq<char>, i: int, j: int)
    requires
        0 <= i <= j <= b.len(),
        encode_utf8(b).len() <= usize::MAX,
    ensures
        byte_offset(b, i) <= byte_offset(b, j),
        i < j ==> byte_offset(b, i) < byte_offset(b, j),
        byte_offset(b, j) == encode_utf8(b.take(j)).len(),
{
    assert(b.take(j) =~= b.take(i) + b.subrange(i, j));
    lemma_encode_concat(b.take(i), b.subrange(i, j));
    lemma_encode_len(b.subrange(i, j));
    assert(b =~= b.take(j) + b.skip(j));
    lemma_encode_concat(b.take(j), b.skip(j));
}

/// The lines of a body, from `i` on, are non-empty, in order, and do not
/// overlap.
pub proof fn lemma_lines_shape(b: Seq<char>, i: int)
    requires
        0 <= i,
    ensures
        forall|k: int|
            0 <= k < lines_from(b, i).len() ==> i <= (#[trigger] lines_from(b, i)[k]).0 < lines_from(b, i)[k].1
                <= b.len(),
        forall|k: int, l: int|
            0 <= k < l < lines_from(b, i).len() ==> (#[trigger] lines_from(b, i)[k]).1 <= (
            #[trigger] lines_from(b, i)[l]).0,
    decreases b.len() - i,
{
    if i < b.len() {
        let e = line_end(b, i);
        if e > i && e <= b.len() {
            lemma_lines_shape(b, e);
            let rest = lines_from(b, e);
            let all = lines_from(b, i);
            assert(all == seq![(i, e)] + rest);
            assert forall|k: int| 0 <= k < all.len() implies i <= (#[trigger] all[k]).0 < all[k].1 <= b.len() by {
                if k > 0 {
                    assert(all[k] == rest[k - 1]);
                }
            }
            assert forall|k: int, l: int| 0 <= k < l < all.len() implies (#[trigger] all[k]).1 <= (
            #[trigger] all[l]).0 by {
                assert(all[l] == rest[l - 1]);
                if k > 0 {
                    assert(all[k] == rest[k - 1]);
                }
            }
        }
    }
}

/// Trimming line breaks never moves past the line's end.
proof fn lemma_trim_breaks(b: Seq<char>, start: int, end: int)
    ensures
        trim_breaks(b, start, end) <= end,
    decreases end - start,
{
    if !(end <= start || (b[end - 1] != '\n' && b[end - 1] != '\r')) {
        lemma_trim_breaks(b, start, end - 1);
    }
}

/// Skipping whitespace never moves backwards.
proof fn lemma_skip_ws(b: Seq<char>, i: int, end: int)
    ensures
        skip_ws(b, i, end) >= i,
    decreases end - i,
{
    if i < end && super::grammar::is_ws(b[i]) {
        lemma_skip_ws(b, i + 1, end);
    }
}

/// A line's marker sits at the byte offset of a character of that line.
proof fn lemma_mark_in_line(b: Seq<char>, ranges: Seq<(int, int)>, start: int, end: int)
    requires
        mark_of_line(b, ranges, start, end) is Some,
    ensures
        ({
            let content = trim_breaks(b, start, end);
            let f = skip_ws(b, start, content);
            &&& start <= f < content <= end
            &&& mark_of_line(b, ranges, start, end)->0.offset == byte_offset(b, f)
            &&& mark_of_line(b, ranges, start, end)->0.text == b.subrange(f, content)
            &&& b[f] == '!'
        }),
{
    lemma_trim_breaks(b, start, end);
    lemma_skip_ws(b, start, trim_breaks(b, start, end));
}

/// The markers of ordered, non-overlapping lines come in strictly
/// increasing byte order, all before the end of the last line.
proof fn lemma_marks_of_lines_grow(b: Seq<char>, ranges: Seq<(int, int)>, lines: Seq<(int, int)>)
    requires
        encode_utf8(b).len() <= usize::MAX,
        forall|k: int| 0 <= k < lines.len() ==> 0 <= (#[trigger] lines[k]).0 < lines[k].1 <= b.len(),
        forall|k: int, l: int| 0 <= k < l < lines.len() ==> (#[trigger] lines[k]).1 <= (#[trigger] lines[l]).0,
    ensures
        ({
            let ms = marks_of_lines(b, ranges, lines);
            &&& forall|p: int, q: int| 0 <= p < q < ms.len() ==> (#[trigger] ms[p]).offset < (#[trigger] ms[q]).offset
            &&& lines.len() > 0 ==> forall|p: int|
                0 <= p < ms.len() ==> (#[trigger] ms[p]).offset < byte_offset(b, lines.last().1)
        }),
    decreases lines.len(),
{
    if lines.len() > 0 {
        let earlier_lines = lines.drop_last();
        lemma_marks_of_lines_grow(b, ranges, earlier_lines);
        let earlier = marks_of_lines(b, ranges, earlier_lines);
        let (start, end) = lines.last();
        let ms = marks_of_lines(b, ranges, lines);
        if earlier_lines.len() > 0 {
            let prev_end = earlier_lines.last().1;
            assert(lines[lines.len() - 2].1 <= lines[lines.len() - 1].0);
            lemma_byte_offset_grows(b, prev_end, start);
            lemma_byte_offset_grows(b, prev_end, end);
        }
        match mark_of_line(b, ranges, start, end) {
            Some(m) => {
                lemma_mark_in_line(b, ranges, start, end);
                let f = skip_ws(b, start, trim_breaks(b, start, end));
                lemma_byte_offset_grows(b, start, f);
                lemma_byte_offset_grows(b, f, end);
                assert(ms == earlier.push(m));
                assert forall|p: int, q: int| 0 <= p < q < ms.len() implies (#[trigger] ms[p]).offset < (
                #[trigger] ms[q]).offset by {
                    if q == ms.len() - 1 {
                        assert(earlier[p] == ms[p]);
                    } else {
                        assert(earlier[p] == ms[p] && earlier[q] == ms[q]);
                    }
                }
                assert forall|p: int| 0 <= p < ms.len() implies (#[trigger] ms[p]).offset < byte_offset(
                    b,
                    lines.last().1,
                ) by {
                    if p < ms.len() - 1 {
                        assert(earlier[p] == ms[p]);
                    }
                }
            },
            None => {
                assert(ms == earlier);
            },
        }
    }
}

/// The markers of a body come in strictly increasing byte order, so no two
/// of them share an offset.
pub proof fn lemma_marks_grow(b: Seq<char>)
    requires
        encode_utf8(b).len() <= usize::MAX,
    ensures
        forall|p: int, q: int|
            0 <= p < q < marks(b).len() ==> (#[trigger] marks(b)[p]).offset < (#[trigger] marks(b)[q]).offset,
{
    let lines = lines_from(b, 0);
    lemma_lines_shape(b, 0);
    assert forall|k: int| 0 <= k < lines.len() implies 0 <= (#[trigger] lines[k]).0 < lines[k].1 <= b.len() by {}
    lemma_marks_of_lines_grow(b, super::grammar::fenced(b), lines);
}

/// Whether a marker sits at a `!` of the body: at a character boundary, the
/// byte offset it records, where its text begins.
pub open spec fn at_its_bang(b: Seq<char>, m: Mark) -> bool {
    exists|f: int|
        0 <= f < b.len() && b[f] == '!' && byte_offset(b, f) == m.offset && m.text.len() > 0 && m.text[0]
            == '!'
}

/// The markers of lines of a body sit at their `!`.
proof fn lemma_marks_of_lines_at_bang(b: Seq<char>, ranges: Seq<(int, int)>, lines: Seq<(int, int)>)
    requires
        forall|k: int| 0 <= k < lines.len() ==> 0 <= (#[trigger] lines[k]).0 < lines[k].1 <= b.len(),
    ensures
        forall|p: int|
            0 <= p < marks_of_lines(b, ranges, lines).len() ==> at_its_bang(
                b,
                #[trigger] marks_of_lines(b, ranges, lines)[p],
            ),
    decreases lines.len(),
{
    if lines.len() > 0 {
        let earlier_lines = lines.drop_last();
        lemma_marks_of_lines_at_bang(b, ranges, earlier_lines);
        let earlier = marks_of_lines(b, ranges, earlier_lines);
        let ms = marks_of_lines(b, ranges, lines);
        let (start, end) = lines.last();
        match mark_of_line(b, ranges, start, end) {
            Some(m) => {
                lemma_mark_in_line(b, ranges, start, end);
                let content = trim_breaks(b, start, end);
                let f = skip_ws(b, start, content);
                assert(m.text[0] == b[f]);
                assert(at_its_bang(b, m));
                assert(ms == earlier.push(m));
                assert forall|p: int| 0 <= p < ms.len() implies at_its_bang(b, #[trigger] ms[p]) by {
                    if p < ms.len() - 1 {
                        assert(ms[p] == earlier[p]);
                    }
                }
            },
            None => {
                assert(ms == earlier);
            },
        }
    }
}

/// Every marker of a body sits at the `!` that opens it: the byte offset it
/// records is a character boundary of the body, the character there is `!`,
/// and the marker's text starts with it.
pub proof fn law_markers_sit_at_their_bang(b: Seq<char>)
    ensures
        forall|p: int| 0 <= p < marks(b).len() ==> at_its_bang(b, #[trigger] marks(b)[p]),
{
    let lines = lines_from(b, 0);
    lemma_lines_shape(b, 0);
    assert forall|k: int| 0 <= k < lines.len() implies 0 <= (#[trigger] lines[k]).0 < lines[k].1 <= b.len() by {}
    lemma_marks_of_lines_at_bang(b, super::grammar::fenced(b), lines);
}

/// Whether a deposit points at a marker of a desk row of `messages`: a row
/// addressed to the desk, at the deposit's sequence and by its author, whose
/// body holds the marker at its `!`.
pub open spec fn points_at_marker(messages: Seq<SessionMessage>, v: (Sequence, SessionAuthor, Mark)) -> bool {
    exists|k: int|
        0 <= k < messages.len() && (#[trigger] messages[k]).audience is Desk && messages[k].sequence == v.0
            && messages[k].author == v.1 && at_its_bang(messages[k].content@, v.2)
}

/// Every desk row is a row of the transcript, addressed to the desk.
proof fn lemma_desk_rows_from(messages: Seq<SessionMessage>, k: int) -> (j: int)
    requires
        0 <= k < desk_rows(messages).len(),
    ensures
        0 <= j < messages.len(),
        messages[j] == desk_rows(messages)[k],
        messages[j].audience is Desk,
    decreases messages.len(),
{
    let rest = messages.drop_last();
    if messages.last().audience is Desk && k == desk_rows(messages).len() - 1 {
        messages.len() - 1
    } else {
        let j = lemma_desk_rows_from(rest, k);
        assert(rest[j] == messages[j]);
        j
    }
}

/// Every trace the fold of a transcript holds points at its marker: a desk
/// row at its sequence and by its author wrote it, and that row's body holds
/// its `!` at its offset, on a character boundary.
pub proof fn law_traces_point_at_their_markers(messages: Seq<SessionMessage>)
    ensures
        forall|i: int|
            0 <= i < medium(desk_rows(messages)).len() ==> points_at_marker(
                messages,
                #[trigger] medium(desk_rows(messages))[i],
            ),
{
    let rows = desk_rows(messages);
    let held = medium(rows);
    lemma_medium_holds_deposits(rows);
    assert forall|i: int| 0 <= i < held.len() implies points_at_marker(messages, #[trigger] held[i]) by {
        let v = held[i];
        assert(held.contains(v));
        assert(deposits_of(rows).contains(v));
        let d = choose|d: int| 0 <= d < deposits_of(rows).len() && deposits_of(rows)[d] == v;
        let origin = lemma_deposit_origin(rows, d);
        let k = lemma_desk_rows_from(messages, origin.0);
        let body = messages[k].content@;
        law_markers_sit_at_their_bang(body);
        let kept = resolved(body, None);
        assert(kept[origin.1] == marks(body)[origin.1]);
        assert(at_its_bang(body, marks(body)[origin.1]));
    }
}

} // verus!
