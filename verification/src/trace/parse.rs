//! Reading the marker grammar off the characters of a body.

use vstd::prelude::*;

use super::grammar::{
    Mark, all_digits, digits_value, fence_fold, fence_of, fenced, in_fence, is_ws, kind_named,
    lemma_line_end, line_end, lines_from, mark_of_line, marks, marks_of_lines, parse_marker,
    parse_u64, qualify, qualify_step, run_end, skip_ws, trim_breaks, words_between, Qualifiers,
    byte_offset,
};
use super::types::{TopicId, Trace, TraceKind};
use crate::session::{Sequence, SessionAuthor};
use crate::text::chars_of;

verus! {

/// Whether a character is Unicode whitespace.
pub fn is_whitespace(c: char) -> (ws: bool)
    ensures
        ws == is_ws(c),
{
    c == '\t' || c == '\n' || c == '\x0B' || c == '\x0C' || c == '\r' || c == ' ' || c == '\u{85}'
        || c == '\u{A0}' || c == '\u{1680}' || ('\u{2000}' <= c && c <= '\u{200A}') || c
        == '\u{2028}' || c == '\u{2029}' || c == '\u{202F}' || c == '\u{205F}' || c == '\u{3000}'
}

/// The marker a trace records, as plain values.
pub open spec fn mark_view(t: Trace) -> Mark {
    Mark {
        kind: t.kind,
        topic: t.topic_name(),
        target: match t.target {
            Some(s) => Some(s.0),
            None => None,
        },
        cites: t.cites@.map_values(|c: Sequence| c.0),
        text: t.text@,
        offset: t.offset,
    }
}

/// Whether `t` is the trace `m` deposits for `author` at `sequence`.
pub open spec fn deposits(t: Trace, m: Mark, author: SessionAuthor, sequence: Sequence) -> bool {
    t.sequence == sequence && t.author == author && mark_view(t) == m
}

/// Where the line starting at `i` ends.
fn line_end_at(b: &Vec<char>, i: usize) -> (e: usize)
    requires
        i < b@.len(),
    ensures
        e == line_end(b@, i as int),
{
    let mut j = i;
    while j < b.len() && b[j] != '\n'
        invariant
            i <= j <= b@.len(),
            line_end(b@, i as int) == line_end(b@, j as int),
        decreases b@.len() - j,
    {
        j = j + 1;
    }
    if j < b.len() {
        j + 1
    } else {
        j
    }
}

/// The first non-whitespace position in `[i, end)`, or `end`.
fn skip_ws_at(b: &Vec<char>, i: usize, end: usize) -> (j: usize)
    requires
        i <= end <= b@.len(),
    ensures
        j == skip_ws(b@, i as int, end as int),
        i <= j <= end,
{
    let mut j = i;
    while j < end && is_whitespace(b[j])
        invariant
            i <= j <= end <= b@.len(),
            skip_ws(b@, i as int, end as int) == skip_ws(b@, j as int, end as int),
        decreases end - j,
    {
        j = j + 1;
    }
    j
}

/// Where a line's content ends once trailing `\n` and `\r` are gone.
fn trim_breaks_at(b: &Vec<char>, start: usize, end: usize) -> (e: usize)
    requires
        start <= end <= b@.len(),
    ensures
        e == trim_breaks(b@, start as int, end as int),
        start <= e <= end,
{
    let mut e = end;
    while e > start && (b[e - 1] == '\n' || b[e - 1] == '\r')
        invariant
            start <= e <= end <= b@.len(),
            trim_breaks(b@, start as int, end as int) == trim_breaks(b@, start as int, e as int),
        decreases e,
    {
        e = e - 1;
    }
    e
}

/// The fence a line opens or closes, if any.
fn fence_at(b: &Vec<char>, start: usize, end: usize) -> (fence: Option<char>)
    requires
        start <= end <= b@.len(),
    ensures
        fence == fence_of(b@, start as int, end as int),
{
    let t = skip_ws_at(b, start, end);
    if end - t >= 3 && b[t] == '`' && b[t + 1] == '`' && b[t + 2] == '`' {
        Some('`')
    } else if end - t >= 3 && b[t] == '~' && b[t + 1] == '~' && b[t + 2] == '~' {
        Some('~')
    } else {
        None
    }
}

/// Ranges as plain integers.
pub open spec fn spans(v: Seq<(usize, usize)>) -> Seq<(int, int)> {
    v.map_values(|p: (usize, usize)| (p.0 as int, p.1 as int))
}

/// The still-open fence as plain integers.
pub open spec fn open_view(o: Option<(usize, char)>) -> Option<(int, char)> {
    match o {
        Some((from, c)) => Some((from as int, c)),
        None => None,
    }
}

/// Reading one more line extends the lines read by it.
proof fn lemma_lines_step(b: Seq<char>, i: int)
    requires
        0 <= i < b.len(),
    ensures
        lines_from(b, i) == seq![(i, line_end(b, i))] + lines_from(b, line_end(b, i)),
        i < line_end(b, i) <= b.len(),
{
    lemma_line_end(b, i);
}

/// The fenced ranges of a body, in character positions.
///
/// CommonMark recognizes both a backtick and a tilde fence, and a fence only
/// closes on a line that opens with the same character. A fence never
/// closed runs to the end of the body.
pub fn fenced_ranges(b: &Vec<char>) -> (ranges: Vec<(usize, usize)>)
    ensures
        spans(ranges@) == fenced(b@),
{
    let mut ranges: Vec<(usize, usize)> = Vec::new();
    let mut open: Option<(usize, char)> = None;
    let ghost mut done: Seq<(int, int)> = Seq::empty();
    let mut i: usize = 0;
    while i < b.len()
        invariant
            i <= b@.len(),
            lines_from(b@, 0) == done + lines_from(b@, i as int),
            (spans(ranges@), open_view(open)) == fence_fold(b@, done),
            forall|k: int| 0 <= k < ranges@.len() ==> ranges@[k].1 <= b@.len(),
        decreases b@.len() - i,
    {
        let e = line_end_at(b, i);
        proof {
            lemma_lines_step(b@, i as int);
            assert(done.push((i as int, e as int)).drop_last() =~= done);
            assert(lines_from(b@, 0) =~= done.push((i as int, e as int)) + lines_from(b@, e as int));
        }
        let ghost before = ranges@;
        match fence_at(b, i, e) {
            None => {},
            Some(fence) => {
                match open {
                    None => {
                        open = Some((i, fence));
                    },
                    Some((from, opener)) => {
                        if opener == fence {
                            ranges.push((from, e));
                            assert(spans(ranges@) =~= spans(before).push((from as int, e as int)));
                            open = None;
                        }
                    },
                }
            },
        }
        proof {
            done = done.push((i as int, e as int));
        }
        i = e;
    }
    proof {
        assert(lines_from(b@, i as int) =~= Seq::<(int, int)>::empty());
        assert(done + lines_from(b@, i as int) =~= done);
    }
    match open {
        Some((from, _)) => {
            let ghost before = ranges@;
            ranges.push((from, b.len()));
            assert(spans(ranges@) =~= spans(before).push((from as int, b@.len() as int)));
        },
        None => {},
    }
    ranges
}

/// Whether a line starting at `start` lies inside a fenced range.
fn inside_fence(ranges: &Vec<(usize, usize)>, start: usize) -> (inside: bool)
    ensures
        inside == in_fence(spans(ranges@), start as int),
{
    let mut k: usize = 0;
    while k < ranges.len()
        invariant
            k <= ranges@.len(),
            forall|m: int|
                #![trigger spans(ranges@)[m]]
                0 <= m < k ==> !(spans(ranges@)[m].0 <= start < spans(ranges@)[m].1),
        decreases ranges@.len() - k,
    {
        let (from, to) = ranges[k];
        if from <= start && start < to {
            assert(spans(ranges@)[k as int] == (from as int, to as int));
            return true;
        }
        k = k + 1;
    }
    false
}

/// The next word in `[pos, end)`, as a `[start, end)` pair.
fn next_word(b: &Vec<char>, pos: usize, end: usize) -> (word: Option<(usize, usize)>)
    requires
        pos <= end <= b@.len(),
    ensures
        match word {
            None => words_between(b@, pos as int, end as int) == Seq::<Seq<char>>::empty(),
            Some((s, e)) => pos <= s < e <= end && words_between(b@, pos as int, end as int)
                == seq![b@.subrange(s as int, e as int)] + words_between(b@, e as int, end as int),
        },
{
    let mut p = pos;
    while p < end && is_whitespace(b[p])
        invariant
            pos <= p <= end <= b@.len(),
            words_between(b@, pos as int, end as int) == words_between(b@, p as int, end as int),
        decreases end - p,
    {
        p = p + 1;
    }
    if p >= end {
        return None;
    }
    let mut q = p + 1;
    while q < end && !is_whitespace(b[q])
        invariant
            p < q <= end <= b@.len(),
            !is_ws(b@[p as int]),
            run_end(b@, p as int, end as int) == run_end(b@, q as int, end as int),
        decreases end - q,
    {
        q = q + 1;
    }
    Some((p, q))
}

/// Whether `b[s..e]` spells `lit`.
fn spells(b: &Vec<char>, s: usize, e: usize, lit: &str) -> (same: bool)
    requires
        s <= e <= b@.len(),
    ensures
        same == (b@.subrange(s as int, e as int) == lit@),
{
    let n = lit.unicode_len();
    if e - s != n {
        return false;
    }
    let mut i: usize = 0;
    while i < n
        invariant
            n == lit@.len() == e - s,
            s <= e <= b@.len(),
            i <= n,
            forall|j: int| 0 <= j < i ==> b@[s + j] == lit@[j],
        decreases n - i,
    {
        if b[s + i] != lit.get_char(i) {
            assert(b@.subrange(s as int, e as int)[i as int] != lit@[i as int]);
            return false;
        }
        i = i + 1;
    }
    assert(b@.subrange(s as int, e as int) =~= lit@);
    true
}

/// The marker `b[s..e]` names.
fn kind_at(b: &Vec<char>, s: usize, e: usize) -> (kind: Option<TraceKind>)
    requires
        s <= e <= b@.len(),
    ensures
        kind == kind_named(b@.subrange(s as int, e as int)),
{
    if spells(b, s, e, "propose") {
        Some(TraceKind::Propose)
    } else if spells(b, s, e, "support") {
        Some(TraceKind::Support)
    } else if spells(b, s, e, "object") {
        Some(TraceKind::Object)
    } else if spells(b, s, e, "refute") {
        Some(TraceKind::Refute)
    } else if spells(b, s, e, "evidence") {
        Some(TraceKind::Evidence)
    } else if spells(b, s, e, "question") {
        Some(TraceKind::Question)
    } else if spells(b, s, e, "commit") {
        Some(TraceKind::Commit)
    } else if spells(b, s, e, "defer") {
        Some(TraceKind::Defer)
    } else {
        None
    }
}

/// A longer run of digits is worth at least as much as its prefix.
proof fn lemma_digits_grow(d: Seq<char>, j: int)
    requires
        all_digits(d),
        0 <= j <= d.len(),
    ensures
        digits_value(d.take(j)) <= digits_value(d),
        digits_value(d.take(j)) >= 0,
    decreases d.len(),
{
    if d.len() > 0 {
        let shorter = d.drop_last();
        assert(all_digits(shorter)) by {
            assert forall|i: int| 0 <= i < shorter.len() implies '0' <= #[trigger] shorter[i] <= '9' by {
                assert(shorter[i] == d[i]);
            }
        }
        if j == d.len() {
            assert(d.take(j) =~= d);
            lemma_digits_grow(shorter, shorter.len() as int);
            assert(shorter.take(shorter.len() as int) =~= shorter);
        } else {
            lemma_digits_grow(shorter, j);
            assert(shorter.take(j) =~= d.take(j));
            lemma_digits_grow(shorter, shorter.len() as int);
            assert(shorter.take(shorter.len() as int) =~= shorter);
        }
    } else {
        assert(d.take(j) =~= d);
    }
}

/// The `u64` `b[s..e]` writes, as `str::parse` reads it.
fn number_at(b: &Vec<char>, s: usize, e: usize) -> (n: Option<u64>)
    requires
        s <= e <= b@.len(),
    ensures
        n == parse_u64(b@.subrange(s as int, e as int)),
{
    let ghost w = b@.subrange(s as int, e as int);
    let ds = if s < e && b[s] == '+' {
        s + 1
    } else {
        s
    };
    let ghost d = b@.subrange(ds as int, e as int);
    assert(d =~= (if w.len() > 0 && w[0] == '+' {
        w.drop_first()
    } else {
        w
    }));
    if ds >= e {
        return None;
    }
    let mut value: u64 = 0;
    let mut j = ds;
    while j < e
        invariant
            ds <= j <= e <= b@.len(),
            ds < e,
            w == b@.subrange(s as int, e as int),
            d == b@.subrange(ds as int, e as int),
            d == (if w.len() > 0 && w[0] == '+' {
                w.drop_first()
            } else {
                w
            }),
            all_digits(d.take(j - ds)),
            value == digits_value(d.take(j - ds)),
        decreases e - j,
    {
        let c = b[j];
        assert(d.take(j + 1 - ds).drop_last() =~= d.take(j - ds));
        assert(d[j - ds] == c);
        if !('0' <= c && c <= '9') {
            assert(!all_digits(d)) by {
                assert(d[j - ds] == c);
            }
            return None;
        }
        let digit = (c as u32 - '0' as u32) as u64;
        assert(digit == c as int - '0' as int);
        assert(all_digits(d.take(j + 1 - ds))) by {
            assert forall|i: int| 0 <= i < d.take(j + 1 - ds).len() implies '0' <= #[trigger] d.take(
                j + 1 - ds,
            )[i] <= '9' by {
                if i < j - ds {
                    assert(d.take(j + 1 - ds)[i] == d.take(j - ds)[i]);
                }
            }
        }
        if value > (u64::MAX - digit) / 10 {
            proof {
                let v = value as int;
                let g = digit as int;
                assert(v * 10 + g > u64::MAX) by (nonlinear_arith)
                    requires
                        v > (u64::MAX - g) / 10,
                        0 <= g <= 9,
                ;
                assert(digits_value(d.take(j + 1 - ds)) > u64::MAX);
                if all_digits(d) {
                    lemma_digits_grow(d, j + 1 - ds);
                }
            }
            return None;
        }
        value = value * 10 + digit;
        j = j + 1;
    }
    assert(d.take(e - ds) =~= d);
    Some(value)
}

/// Whether a vector already holds a value.
fn has_cite(cites: &Vec<u64>, n: u64) -> (found: bool)
    ensures
        found == cites@.contains(n),
{
    let mut i: usize = 0;
    while i < cites.len()
        invariant
            i <= cites@.len(),
            forall|j: int| 0 <= j < i ==> cites@[j] != n,
        decreases cites@.len() - i,
    {
        if cites[i] == n {
            return true;
        }
        i = i + 1;
    }
    false
}

/// The topic span as characters.
pub open spec fn topic_span(b: Seq<char>, topic: Option<(usize, usize)>) -> Option<Seq<char>> {
    match topic {
        Some((s, e)) => Some(b.subrange(s as int, e as int)),
        None => None,
    }
}

/// Copy a vector of rows.
fn rows_of(cites: &Vec<u64>) -> (rows: Vec<Sequence>)
    ensures
        rows@.map_values(|c: Sequence| c.0) == cites@,
{
    let mut rows: Vec<Sequence> = Vec::new();
    let mut i: usize = 0;
    while i < cites.len()
        invariant
            i <= cites@.len(),
            rows@.len() == i,
            forall|k: int| 0 <= k < i ==> (#[trigger] rows@[k]).0 == cites@[k],
        decreases cites@.len() - i,
    {
        rows.push(Sequence(cites[i]));
        i = i + 1;
    }
    assert(rows@.map_values(|c: Sequence| c.0) =~= cites@);
    rows
}

/// Read the marker on the content `[first, content)` of one line.
pub fn parse_line(
    body: &str,
    b: &Vec<char>,
    first: usize,
    content: usize,
    author: &SessionAuthor,
    sequence: Sequence,
) -> (trace: Option<Trace>)
    requires
        b@ == body@,
        first <= content <= b@.len(),
    ensures
        match trace {
            None => parse_marker(b@, first as int, content as int) is None,
            Some(t) => parse_marker(b@, first as int, content as int) matches Some(m) && deposits(
                t,
                m,
                *author,
                sequence,
            ),
        },
{
    if first >= content || b[first] != '!' {
        return None;
    }
    let (s0, e0) = match next_word(b, first + 1, content) {
        None => {
            return None;
        },
        Some(w) => w,
    };
    let kind = match kind_at(b, s0, e0) {
        None => {
            return None;
        },
        Some(kind) => kind,
    };
    let ghost all = words_between(b@, first + 1, content as int);
    assert(all.drop_first() =~= words_between(b@, e0 as int, content as int));
    assert(all[0] == b@.subrange(s0 as int, e0 as int));
    let mut topic: Option<(usize, usize)> = None;
    let mut target: Option<u64> = None;
    let mut cites: Vec<u64> = Vec::new();
    let ghost mut done: Seq<Seq<char>> = Seq::empty();
    let mut pos = e0;
    loop
        invariant
            e0 <= pos <= content <= b@.len(),
            all == words_between(b@, first + 1, content as int),
            all.len() > 0,
            kind_named(all[0]) == Some(kind),
            all.drop_first() == done + words_between(b@, pos as int, content as int),
            qualify(done) == (Qualifiers { topic: topic_span(b@, topic), target, cites: cites@ }),
            match topic {
                Some((ts, te)) => ts <= te <= b@.len(),
                None => true,
            },
        ensures
            all == words_between(b@, first + 1, content as int),
            all.len() > 0,
            kind_named(all[0]) == Some(kind),
            all.drop_first() == done,
            qualify(done) == (Qualifiers { topic: topic_span(b@, topic), target, cites: cites@ }),
            match topic {
                Some((ts, te)) => ts <= te <= b@.len(),
                None => true,
            },
        decreases content - pos,
    {
        let (s, e) = match next_word(b, pos, content) {
            None => {
                assert(all.drop_first() =~= done);
                break ;
            },
            Some(w) => w,
        };
        let ghost w = b@.subrange(s as int, e as int);
        proof {
            assert(done.push(w).drop_last() =~= done);
            assert(all.drop_first() =~= done.push(w) + words_between(b@, e as int, content as int));
            assert(w.len() > 0 && w[0] == b@[s as int]);
            assert(w.drop_first() =~= b@.subrange(s + 1, e as int));
        }
        let lead = b[s];
        if lead == '#' {
            if topic.is_none() && e - s > 1 {
                topic = Some((s + 1, e));
            }
        } else if lead == '>' {
            if target.is_none() {
                target = number_at(b, s + 1, e);
            }
        } else if lead == '^' {
            match number_at(b, s + 1, e) {
                Some(n) => {
                    if !has_cite(&cites, n) {
                        cites.push(n);
                    }
                },
                None => {},
            }
        }
        proof {
            done = done.push(w);
        }
        pos = e;
    }
    if kind == TraceKind::Refute && (topic.is_none() || cites.len() == 0) {
        return None;
    }
    let topic_id = match topic {
        Some((ts, te)) => Some(TopicId(body.substring_char(ts, te).to_owned())),
        None => None,
    };
    let text = body.substring_char(first, content).to_owned();
    let offset = body.substring_char(0, first).len();
    assert(b@.take(first as int) =~= b@.subrange(0, first as int));
    let trace = Trace {
        sequence,
        author: author.duplicate(),
        kind,
        topic: topic_id,
        target: match target {
            Some(n) => Some(Sequence(n)),
            None => None,
        },
        cites: rows_of(&cites),
        text,
        offset,
    };
    assert(mark_view(trace) == parse_marker(b@, first as int, content as int)->0);
    Some(trace)
}

/// Every trace a body deposits, in reading order.
pub fn extract(body: &str, author: &SessionAuthor, sequence: Sequence) -> (traces: Vec<Trace>)
    ensures
        traces@.len() == marks(body@).len(),
        forall|i: int|
            0 <= i < traces@.len() ==> deposits(#[trigger] traces@[i], marks(body@)[i], *author, sequence),
{
    let b = chars_of(body);
    let ranges = fenced_ranges(&b);
    let ghost fence = fenced(b@);
    let mut traces: Vec<Trace> = Vec::new();
    let ghost mut done: Seq<(int, int)> = Seq::empty();
    let mut i: usize = 0;
    while i < b.len()
        invariant
            b@ == body@,
            spans(ranges@) == fence,
            fence == fenced(b@),
            i <= b@.len(),
            lines_from(b@, 0) == done + lines_from(b@, i as int),
            traces@.len() == marks_of_lines(b@, fence, done).len(),
            forall|k: int|
                0 <= k < traces@.len() ==> deposits(
                    #[trigger] traces@[k],
                    marks_of_lines(b@, fence, done)[k],
                    *author,
                    sequence,
                ),
        decreases b@.len() - i,
    {
        let e = line_end_at(&b, i);
        proof {
            lemma_lines_step(b@, i as int);
            assert(done.push((i as int, e as int)).drop_last() =~= done);
            assert(lines_from(b@, 0) =~= done.push((i as int, e as int)) + lines_from(b@, e as int));
        }
        let ghost before = traces@;
        if !inside_fence(&ranges, i) {
            let content = trim_breaks_at(&b, i, e);
            let first = skip_ws_at(&b, i, content);
            match parse_line(body, &b, first, content, author, sequence) {
                Some(t) => {
                    traces.push(t);
                    assert forall|k: int| 0 <= k < traces@.len() implies deposits(
                        #[trigger] traces@[k],
                        marks_of_lines(b@, fence, done.push((i as int, e as int)))[k],
                        *author,
                        sequence,
                    ) by {
                        if k < before.len() {
                            assert(traces@[k] == before[k]);
                        }
                    }
                },
                None => {},
            }
        }
        proof {
            done = done.push((i as int, e as int));
        }
        i = e;
    }
    proof {
        assert(lines_from(b@, i as int) =~= Seq::<(int, int)>::empty());
        assert(done + lines_from(b@, i as int) =~= done);
    }
    traces
}

} // verus!
