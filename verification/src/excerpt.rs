//! Buffers, excerpts, and the frozen sort key.
//!
//! A buffer is an independently edited unit of text; an excerpt is one
//! contiguous slice of a buffer shown inside a multi-buffer. Excerpts carry
//! a snapshot of their buffer's text, cached text summaries, and a sort key
//! `(initial path, buffer id, range)` whose path component is frozen when
//! the buffer's first excerpt is created.

use vstd::prelude::*;

use crate::order::bytes_cmp;
use crate::order::lemma_path_lt_asym;
use crate::order::lemma_path_lt_connex;
use crate::order::lemma_path_lt_trans;
use crate::order::opt_path_view;
use crate::order::path_cmp;
use crate::order::path_lt;
use crate::order::Cmp;

verus! {

/// A live buffer handle, as the external text engine presents it: a stable
/// id, the current path, the current content, and state flags.
pub struct Buffer {
    /// Stable, process-unique identifier, assigned monotonically at open.
    pub id: u64,
    /// The buffer's current path, if it has one.
    pub path: Option<Vec<u8>>,
    /// The buffer's current content.
    pub text: Vec<u8>,
    /// Whether the handle has been closed and is no longer valid.
    pub closed: bool,
    /// Whether the buffer has unsaved edits.
    pub is_dirty: bool,
    /// Whether the buffer conflicts with its on-disk state.
    pub has_conflict: bool,
}

/// An immutable snapshot of one buffer's text.
pub struct BufferSnapshot {
    /// The id of the buffer this snapshot was taken from.
    pub buffer_id: u64,
    /// The buffer's content at snapshot time.
    pub text: Vec<u8>,
}

/// A pair of positions in one buffer's coordinate space, with
/// `start <= end`; the excerpt covers the half-open span `[start, end)`.
#[derive(Clone, Copy, Debug, PartialEq, Eq, Structural)]
pub struct ExcerptRange {
    /// First covered offset.
    pub start: usize,
    /// First offset past the covered span.
    pub end: usize,
}

/// Cached aggregate of an excerpt's text.
#[derive(Clone, Copy, Debug, PartialEq, Eq, Structural)]
pub struct TextSummary {
    /// Number of bytes covered.
    pub len: usize,
    /// Number of newline bytes covered.
    pub lines: usize,
}

/// One contiguous, disjoint slice of a buffer inside a multi-buffer.
pub struct Excerpt {
    /// Identity of this excerpt, stable while it exists.
    pub id: u64,
    /// The buffer being excerpted.
    pub buffer_id: u64,
    /// The buffer's path when its first excerpt was created; frozen, used
    /// purely as the leading sort-key component.
    pub initial_buffer_path: Option<Vec<u8>>,
    /// Snapshot of the source buffer when the excerpt was created.
    pub buffer_snapshot: BufferSnapshot,
    /// The excerpted span, in the buffer's own coordinates.
    pub range: ExcerptRange,
    /// Last row index touched by the span: newlines before `range.end`.
    pub max_row: usize,
    /// Cached summary of the excerpted text.
    pub text_summary: TextSummary,
    /// Whether a newline is synthesized after this excerpt when it is
    /// concatenated with the next one.
    pub trailing_newline: bool,
}

/// Number of newline bytes in a byte sequence.
pub open spec fn nl_count(s: Seq<u8>) -> int
    decreases s.len(),
{
    if s.len() == 0 {
        0
    } else {
        nl_count(s.drop_last()) + if s.last() == 10 {
            1int
        } else {
            0int
        }
    }
}

/// Newline counts are between zero and the sequence length.
pub proof fn lemma_nl_count_bounds(s: Seq<u8>)
    ensures
        0 <= nl_count(s) <= s.len(),
    decreases s.len(),
{
    if s.len() > 0 {
        lemma_nl_count_bounds(s.drop_last());
    }
}

/// The path component of an excerpt's sort key.
pub open spec fn e_path(e: Excerpt) -> Option<Seq<u8>> {
    opt_path_view(e.initial_buffer_path)
}

/// Strict total order on excerpts: by frozen path, then by buffer id
/// (creation order), then by range.
pub open spec fn key_lt(a: Excerpt, b: Excerpt) -> bool {
    ||| path_lt(e_path(a), e_path(b))
    ||| (e_path(a) == e_path(b) && (a.buffer_id < b.buffer_id || (a.buffer_id == b.buffer_id && (
    a.range.start < b.range.start || (a.range.start == b.range.start && a.range.end
        < b.range.end)))))
}

/// Two excerpts unordered by `key_lt` agree on every key component.
pub proof fn lemma_key_lt_connex(a: Excerpt, b: Excerpt)
    ensures
        !key_lt(a, b) && !key_lt(b, a) ==> e_path(a) == e_path(b) && a.buffer_id == b.buffer_id
            && a.range == b.range,
{
    lemma_path_lt_connex(e_path(a), e_path(b));
}

/// `key_lt` is transitive.
pub proof fn lemma_key_lt_trans(a: Excerpt, b: Excerpt, c: Excerpt)
    requires
        key_lt(a, b),
        key_lt(b, c),
    ensures
        key_lt(a, c),
{
    if path_lt(e_path(a), e_path(b)) && path_lt(e_path(b), e_path(c)) {
        lemma_path_lt_trans(e_path(a), e_path(b), e_path(c));
    } else if path_lt(e_path(a), e_path(b)) || path_lt(e_path(b), e_path(c)) {
    }
}

/// Whether two ranges of one buffer may not coexist: their half-open spans
/// intersect, or the ranges coincide (which covers empty ranges at the
/// same position).
pub open spec fn ranges_conflict(a: ExcerptRange, b: ExcerptRange) -> bool {
    (a.start < b.end && b.start < a.end) || a == b
}

/// Whether a removal request for `req` hits an excerpt covering `covered`:
/// the spans intersect, or the ranges coincide.
pub open spec fn ranges_intersect(req: ExcerptRange, covered: ExcerptRange) -> bool {
    ranges_conflict(req, covered)
}

/// The excerpt's synthesized-trailing-newline policy: a newline is added
/// unless the covered span already ends with one.
pub open spec fn trailing_nl(text: Seq<u8>, range: ExcerptRange) -> bool {
    range.start == range.end || text[range.end - 1] != 10
}

/// Internal consistency of one excerpt: the range lies within the snapshot,
/// the snapshot names the excerpted buffer, and the cached summary fields
/// match the snapshot's text.
pub open spec fn excerpt_wf(e: Excerpt) -> bool {
    &&& e.range.start <= e.range.end <= e.buffer_snapshot.text@.len()
    &&& e.buffer_id == e.buffer_snapshot.buffer_id
    &&& e.text_summary.len == e.range.end - e.range.start
    &&& e.text_summary.lines == nl_count(
        e.buffer_snapshot.text@.subrange(e.range.start as int, e.range.end as int),
    )
    &&& e.max_row == nl_count(e.buffer_snapshot.text@.take(e.range.end as int))
    &&& e.trailing_newline == trailing_nl(e.buffer_snapshot.text@, e.range)
}

/// Bytes an excerpt contributes to the multi-buffer's concatenated text:
/// its own length plus the synthesized trailing newline, if any.
pub open spec fn footprint(e: Excerpt) -> int {
    e.text_summary.len + if e.trailing_newline {
        1int
    } else {
        0int
    }
}

/// Rows an excerpt contributes: its own newlines plus the synthesized one.
pub open spec fn row_footprint(e: Excerpt) -> int {
    e.text_summary.lines + if e.trailing_newline {
        1int
    } else {
        0int
    }
}

/// The excerpts are strictly sorted by their key.
pub open spec fn sorted(s: Seq<Excerpt>) -> bool {
    forall|i: int, j: int| 0 <= i < j < s.len() ==> key_lt(#[trigger] s[i], #[trigger] s[j])
}

/// No two excerpts of one buffer have conflicting ranges.
pub open spec fn disjoint(s: Seq<Excerpt>) -> bool {
    forall|i: int, j: int|
        0 <= i < s.len() && 0 <= j < s.len() && i != j && #[trigger] s[i].buffer_id == #[trigger] s[j].buffer_id
            ==> !ranges_conflict(s[i].range, s[j].range)
}

/// Every excerpt id occurs at most once.
pub open spec fn unique_ids(s: Seq<Excerpt>) -> bool {
    forall|i: int, j: int| 0 <= i < j < s.len() ==> (#[trigger] s[i].id) != (#[trigger] s[j].id)
}

/// A verified byte copy, so that contracts can speak of the copy's value.
pub fn copy_bytes(v: &Vec<u8>) -> (r: Vec<u8>)
    ensures
        r@ == v@,
{
    let mut r: Vec<u8> = Vec::new();
    let mut i: usize = 0;
    while i < v.len()
        invariant
            i <= v.len(),
            r@ == v@.take(i as int),
        decreases v.len() - i,
    {
        r.push(v[i]);
        proof {
            assert(v@.take(i + 1) =~= v@.take(i as int).push(v@[i as int]));
        }
        i = i + 1;
    }
    proof {
        assert(v@.take(v@.len() as int) =~= v@);
    }
    r
}

/// A verified copy of an optional path.
pub fn copy_path(p: &Option<Vec<u8>>) -> (r: Option<Vec<u8>>)
    ensures
        opt_path_view(r) == opt_path_view(*p),
{
    match p {
        Option::None => Option::None,
        Option::Some(v) => Option::Some(copy_bytes(v)),
    }
}

/// Counts newline bytes in `text[from..to]`.
pub fn count_newlines(text: &Vec<u8>, from: usize, to: usize) -> (r: usize)
    requires
        from <= to <= text@.len(),
    ensures
        r == nl_count(text@.subrange(from as int, to as int)),
{
    let mut count: usize = 0;
    let mut i: usize = from;
    proof {
        assert(text@.subrange(from as int, from as int) =~= Seq::<u8>::empty());
    }
    while i < to
        invariant
            from <= i <= to <= text@.len(),
            count == nl_count(text@.subrange(from as int, i as int)),
            count <= i - from,
        decreases to - i,
    {
        let ghost prev = text@.subrange(from as int, i as int);
        let ghost next = text@.subrange(from as int, i + 1);
        proof {
            assert(next.drop_last() =~= prev);
            assert(next.last() == text@[i as int]);
        }
        if text[i] == 10 {
            count = count + 1;
        }
        i = i + 1;
    }
    count
}

/// Compares two excerpts by their sort key; the result reflects `key_lt`.
pub fn key_lt_exec(a: &Excerpt, b: &Excerpt) -> (r: bool)
    ensures
        r == key_lt(*a, *b),
{
    match path_cmp(&a.initial_buffer_path, &b.initial_buffer_path) {
        Cmp::Lt => true,
        Cmp::Gt => false,
        Cmp::Eq => {
            if a.buffer_id != b.buffer_id {
                a.buffer_id < b.buffer_id
            } else if a.range.start != b.range.start {
                a.range.start < b.range.start
            } else {
                proof {
                    lemma_path_lt_asym_trigger(*a, *b);
                }
                a.range.end < b.range.end
            }
        },
    }
}

/// Helper: with equal paths, neither path is below the other.
proof fn lemma_path_lt_asym_trigger(a: Excerpt, b: Excerpt)
    requires
        e_path(a) == e_path(b),
    ensures
        !path_lt(e_path(a), e_path(b)),
        !path_lt(e_path(b), e_path(a)),
{
    if path_lt(e_path(a), e_path(b)) {
        lemma_path_lt_asym(e_path(a), e_path(b));
    }
    if path_lt(e_path(b), e_path(a)) {
        lemma_path_lt_asym(e_path(b), e_path(a));
    }
}

/// Builds the excerpt for one accepted `(buffer, range)` pair: captures a
/// snapshot of the buffer's text and computes the cached summaries. The
/// frozen path is chosen by the caller (per the first-excerpt rule).
pub fn make_excerpt(id: u64, buffer: &Buffer, range: ExcerptRange, path: Option<Vec<u8>>) -> (e:
    Excerpt)
    requires
        range.start <= range.end <= buffer.text@.len(),
    ensures
        excerpt_wf(e),
        e.id == id,
        e.buffer_id == buffer.id,
        e.range == range,
        e_path(e) == opt_path_view(path),
        e.buffer_snapshot.text@ == buffer.text@,
{
    let text = copy_bytes(&buffer.text);
    let lines = count_newlines(&buffer.text, range.start, range.end);
    let max_row = count_newlines(&buffer.text, 0, range.end);
    let trailing = range.start == range.end || buffer.text[range.end - 1] != 10;
    proof {
        assert(buffer.text@.take(range.end as int) =~= buffer.text@.subrange(
            0,
            range.end as int,
        ));
    }
    Excerpt {
        id,
        buffer_id: buffer.id,
        initial_buffer_path: path,
        buffer_snapshot: BufferSnapshot { buffer_id: buffer.id, text },
        range,
        max_row,
        text_summary: TextSummary { len: range.end - range.start, lines },
        trailing_newline: trailing,
    }
}

} // verus!
