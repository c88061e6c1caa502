//! The marker grammar, stated over the characters of a body.
//!
//! ```text
//! !<kind> [#topic] [>target] [^cite ...] [free text]
//! ```
//!
//! A marker counts only at the start of a line, ignoring leading whitespace,
//! and only outside a fenced code block.

use vstd::prelude::*;

use super::types::TraceKind;
use vstd::utf8::encode_utf8;

verus! {

/// Unicode `White_Space`, the class `split_whitespace` and `trim_start`
/// split and trim on.
pub open spec fn is_ws(c: char) -> bool {
    c == '\t' || c == '\n' || c == '\x0B' || c == '\x0C' || c == '\r' || c == ' ' || c == '\u{85}'
        || c == '\u{A0}' || c == '\u{1680}' || ('\u{2000}' <= c && c <= '\u{200A}') || c
        == '\u{2028}' || c == '\u{2029}' || c == '\u{202F}' || c == '\u{205F}' || c == '\u{3000}'
}

/// The byte offset of character `i` of `b`, as `str::len` reports it.
pub open spec fn byte_offset(b: Seq<char>, i: int) -> usize {
    encode_utf8(b.take(i)).len() as usize
}

/// Where the line starting at `i` ends: just past its `\n`, or at the end
/// of the body.
pub open spec fn line_end(b: Seq<char>, i: int) -> int
    decreases b.len() - i,
{
    if i < 0 || i >= b.len() {
        b.len() as int
    } else if b[i] == '\n' {
        i + 1
    } else {
        line_end(b, i + 1)
    }
}

/// A line ends after it starts and no later than the body.
pub proof fn lemma_line_end(b: Seq<char>, i: int)
    requires
        0 <= i < b.len(),
    ensures
        i < line_end(b, i) <= b.len(),
    decreases b.len() - i,
{
    reveal_with_fuel(line_end, 2);
    if b[i] != '\n' && i + 1 < b.len() {
        lemma_line_end(b, i + 1);
    }
}

/// The lines of `b` from character `i` on, as `[start, end)` pairs, each
/// keeping its line ending.
pub open spec fn lines_from(b: Seq<char>, i: int) -> Seq<(int, int)>
    decreases b.len() - i,
{
    if i < 0 || i >= b.len() {
        Seq::empty()
    } else {
        let e = line_end(b, i);
        if e <= i || e > b.len() {
            Seq::empty()
        } else {
            seq![(i, e)] + lines_from(b, e)
        }
    }
}

/// The first character at or after `i`, and before `end`, that is not
/// whitespace (or `end`).
pub open spec fn skip_ws(b: Seq<char>, i: int, end: int) -> int
    decreases end - i,
{
    if i >= end || !is_ws(b[i]) {
        i
    } else {
        skip_ws(b, i + 1, end)
    }
}

/// Where a line's content ends once every trailing `\n` and `\r` is gone.
pub open spec fn trim_breaks(b: Seq<char>, start: int, end: int) -> int
    decreases end - start,
{
    if end <= start || (b[end - 1] != '\n' && b[end - 1] != '\r') {
        end
    } else {
        trim_breaks(b, start, end - 1)
    }
}

/// The fence a line opens or closes: three backticks or three tildes after
/// its indentation.
pub open spec fn fence_of(b: Seq<char>, start: int, end: int) -> Option<char> {
    let t = skip_ws(b, start, end);
    if t + 3 <= end && b[t] == '`' && b[t + 1] == '`' && b[t + 2] == '`' {
        Some('`')
    } else if t + 3 <= end && b[t] == '~' && b[t + 1] == '~' && b[t + 2] == '~' {
        Some('~')
    } else {
        None
    }
}

/// The fenced ranges closed so far, and the fence still open, after reading
/// `lines`.
pub open spec fn fence_fold(b: Seq<char>, lines: Seq<(int, int)>) -> (Seq<(int, int)>, Option<(int, char)>)
    decreases lines.len(),
{
    if lines.len() == 0 {
        (Seq::empty(), None)
    } else {
        let (ranges, open) = fence_fold(b, lines.drop_last());
        let (start, end) = lines.last();
        match fence_of(b, start, end) {
            None => (ranges, open),
            Some(fence) => match open {
                None => (ranges, Some((start, fence))),
                Some((from, opener)) => if opener == fence {
                    (ranges.push((from, end)), None)
                } else {
                    (ranges, open)
                },
            },
        }
    }
}

/// Every fenced range of the body. A fence only closes on a line opening
/// with the same character, and one never closed runs to the end.
pub open spec fn fenced(b: Seq<char>) -> Seq<(int, int)> {
    let (ranges, open) = fence_fold(b, lines_from(b, 0));
    match open {
        Some((from, _)) => ranges.push((from, b.len() as int)),
        None => ranges,
    }
}

/// Whether a line starting at `start` lies inside a fenced range.
pub open spec fn in_fence(ranges: Seq<(int, int)>, start: int) -> bool {
    exists|k: int| 0 <= k < ranges.len() && (#[trigger] ranges[k]).0 <= start < ranges[k].1
}

/// Where the run of non-whitespace starting at `i` ends, before `end`.
pub open spec fn run_end(b: Seq<char>, i: int, end: int) -> int
    decreases end - i,
{
    if i < 0 || i >= end || is_ws(b[i]) {
        i
    } else {
        run_end(b, i + 1, end)
    }
}

/// The whitespace-separated words of `b` between `i` and `end`.
pub open spec fn words_between(b: Seq<char>, i: int, end: int) -> Seq<Seq<char>>
    decreases end - i,
{
    if i < 0 || i >= end {
        Seq::empty()
    } else if is_ws(b[i]) {
        words_between(b, i + 1, end)
    } else {
        let e = run_end(b, i, end);
        if e <= i || e > end {
            Seq::empty()
        } else {
            seq![b.subrange(i, e)] + words_between(b, e, end)
        }
    }
}

/// Whether every character is an ASCII digit.
pub open spec fn all_digits(s: Seq<char>) -> bool {
    forall|i: int| 0 <= i < s.len() ==> '0' <= #[trigger] s[i] <= '9'
}

/// The decimal value of a run of digits.
pub open spec fn digits_value(s: Seq<char>) -> int
    decreases s.len(),
{
    if s.len() == 0 {
        0
    } else {
        digits_value(s.drop_last()) * 10 + (s.last() as int - '0' as int)
    }
}

/// A `u64` written in decimal, with an optional leading `+`: what
/// `str::parse::<u64>` accepts.
pub open spec fn parse_u64(s: Seq<char>) -> Option<u64> {
    let d = if s.len() > 0 && s[0] == '+' {
        s.drop_first()
    } else {
        s
    };
    if d.len() > 0 && all_digits(d) && digits_value(d) <= u64::MAX {
        Some(digits_value(d) as u64)
    } else {
        None
    }
}

/// The marker a word names.
pub open spec fn kind_named(w: Seq<char>) -> Option<TraceKind> {
    if w == "propose"@ {
        Some(TraceKind::Propose)
    } else if w == "support"@ {
        Some(TraceKind::Support)
    } else if w == "object"@ {
        Some(TraceKind::Object)
    } else if w == "refute"@ {
        Some(TraceKind::Refute)
    } else if w == "evidence"@ {
        Some(TraceKind::Evidence)
    } else if w == "question"@ {
        Some(TraceKind::Question)
    } else if w == "commit"@ {
        Some(TraceKind::Commit)
    } else if w == "defer"@ {
        Some(TraceKind::Defer)
    } else {
        None
    }
}

/// What the words after the marker say.
pub struct Qualifiers {
    /// The first non-empty `#topic`.
    pub topic: Option<Seq<char>>,
    /// The first `>target` that parsed, unless an earlier one was tried.
    pub target: Option<u64>,
    /// Every distinct `^cite` that parsed, in order.
    pub cites: Seq<u64>,
}

/// Read one more word into the qualifiers.
pub open spec fn qualify_step(q: Qualifiers, w: Seq<char>) -> Qualifiers {
    if w.len() > 0 && w[0] == '#' {
        if q.topic is None && w.len() > 1 {
            Qualifiers { topic: Some(w.drop_first()), ..q }
        } else {
            q
        }
    } else if w.len() > 0 && w[0] == '>' {
        if q.target is None {
            Qualifiers { target: parse_u64(w.drop_first()), ..q }
        } else {
            q
        }
    } else if w.len() > 0 && w[0] == '^' {
        match parse_u64(w.drop_first()) {
            Some(n) => if q.cites.contains(n) {
                q
            } else {
                Qualifiers { cites: q.cites.push(n), ..q }
            },
            None => q,
        }
    } else {
        q
    }
}

/// The qualifiers a sequence of words carries.
pub open spec fn qualify(ws: Seq<Seq<char>>) -> Qualifiers
    decreases ws.len(),
{
    if ws.len() == 0 {
        Qualifiers { topic: None, target: None, cites: Seq::empty() }
    } else {
        qualify_step(qualify(ws.drop_last()), ws.last())
    }
}

/// One marker read off a line.
pub struct Mark {
    pub kind: TraceKind,
    pub topic: Option<Seq<char>>,
    pub target: Option<u64>,
    pub cites: Seq<u64>,
    /// The marker line, from its `!` to before its line ending.
    pub text: Seq<char>,
    /// Byte offset of the `!` within the body.
    pub offset: usize,
}

/// The marker the content `[first, content)` of a line carries, if any: `!`,
/// a known kind, and its qualifiers. A refutation needs a topic and a
/// citation or is nothing.
pub open spec fn parse_marker(b: Seq<char>, first: int, content: int) -> Option<Mark> {
    if first >= content || b[first] != '!' {
        None
    } else {
        let ws = words_between(b, first + 1, content);
        if ws.len() == 0 {
            None
        } else {
            match kind_named(ws[0]) {
                None => None,
                Some(kind) => {
                    let q = qualify(ws.drop_first());
                    if kind == TraceKind::Refute && (q.topic is None || q.cites.len() == 0) {
                        None
                    } else {
                        Some(
                            Mark {
                                kind,
                                topic: q.topic,
                                target: q.target,
                                cites: q.cites,
                                text: b.subrange(first, content),
                                offset: byte_offset(b, first),
                            },
                        )
                    }
                },
            }
        }
    }
}

/// The marker one line carries, unless it sits inside a fence.
pub open spec fn mark_of_line(b: Seq<char>, ranges: Seq<(int, int)>, start: int, end: int) -> Option<
    Mark,
> {
    if in_fence(ranges, start) {
        None
    } else {
        let content = trim_breaks(b, start, end);
        parse_marker(b, skip_ws(b, start, content), content)
    }
}

/// The markers of `lines`, in reading order.
pub open spec fn marks_of_lines(b: Seq<char>, ranges: Seq<(int, int)>, lines: Seq<(int, int)>) -> Seq<
    Mark,
>
    decreases lines.len(),
{
    if lines.len() == 0 {
        Seq::empty()
    } else {
        let earlier = marks_of_lines(b, ranges, lines.drop_last());
        match mark_of_line(b, ranges, lines.last().0, lines.last().1) {
            Some(m) => earlier.push(m),
            None => earlier,
        }
    }
}

/// Every marker a body carries, in reading order.
pub open spec fn marks(b: Seq<char>) -> Seq<Mark> {
    marks_of_lines(b, fenced(b), lines_from(b, 0))
}

} // verus!
