//! The mutable multi-buffer controller and its immutable snapshots.
//!
//! A `MultiBuffer` owns the ordered, disjoint excerpt set and the per-buffer
//! state map, and publishes a fresh immutable `MultiBufferSnapshot` after
//! every mutation. Batch mutations are evaluated pair by pair; only the
//! singleton check gates a whole call.

use vstd::prelude::*;

use crate::excerpt::disjoint;
use crate::excerpt::e_path;
use crate::excerpt::excerpt_wf;
use crate::excerpt::footprint;
use crate::excerpt::key_lt;
use crate::excerpt::key_lt_exec;
use crate::excerpt::lemma_key_lt_connex;
use crate::excerpt::lemma_key_lt_trans;
use crate::excerpt::make_excerpt;
use crate::excerpt::copy_bytes;
use crate::excerpt::copy_path;
use crate::excerpt::ranges_conflict;
use crate::excerpt::ranges_intersect;
use crate::excerpt::row_footprint;
use crate::excerpt::sorted;
use crate::excerpt::unique_ids;
use crate::excerpt::Buffer;
use crate::excerpt::BufferSnapshot;
use crate::excerpt::Excerpt;
use crate::excerpt::ExcerptRange;
use crate::excerpt::TextSummary;
use crate::order::opt_path_view;

verus! {

/// Why a mutation, or one pair inside a batch mutation, was rejected.
#[derive(Clone, Copy, Debug, PartialEq, Eq, Structural)]
pub enum ExcerptError {
    /// A range was out of bounds for its buffer, or had `start > end`.
    InvalidRange,
    /// Two excerpts of one buffer would overlap.
    Overlap,
    /// Excerpt management was attempted on a singleton multi-buffer.
    SingletonViolation,
    /// The referenced buffer handle is no longer valid.
    BufferClosed,
}

/// A change notification, carrying the edit count it produced.
#[derive(Clone, Copy, Debug, PartialEq, Eq, Structural)]
pub enum Event {
    /// The excerpt set changed without reordering existing excerpts.
    Edited { edit_count: usize },
    /// Existing excerpts changed ordinal position; captured ordinals must
    /// be recomputed.
    Reordered { edit_count: usize },
    /// The aggregate dirty or conflict flag changed.
    DirtyChanged { edit_count: usize },
}

/// The contents of a multi-buffer at a single point in time.
pub struct MultiBufferSnapshot {
    /// Whether the owning multi-buffer wraps exactly one whole buffer.
    pub singleton: bool,
    /// The excerpts, in sort-key order.
    pub excerpts: Vec<Excerpt>,
    /// Number of excerpt mutations applied since creation.
    pub edit_count: usize,
    /// Bumped whenever the trailing excerpt changes.
    pub trailing_excerpt_update_count: usize,
    /// Bumped whenever non-text state (dirty or conflict flags) changes.
    pub non_text_state_update_count: usize,
    /// Whether any constituent buffer is dirty.
    pub is_dirty: bool,
    /// Whether any constituent buffer has a conflict.
    pub has_conflict: bool,
}

/// Per-buffer state kept while the buffer has at least one excerpt.
pub struct BufferState {
    /// The buffer this state belongs to.
    pub buffer_id: u64,
    /// The buffer's path when its first excerpt was created; frozen.
    pub initial_path: Option<Vec<u8>>,
    /// Dirty flag captured from the buffer.
    pub is_dirty: bool,
    /// Conflict flag captured from the buffer.
    pub has_conflict: bool,
}

/// The single mutable owner of the live excerpt set.
pub struct MultiBuffer {
    /// The current published snapshot.
    pub snapshot: MultiBufferSnapshot,
    /// One entry per buffer that currently has at least one excerpt.
    pub buffers: Vec<BufferState>,
    /// Next excerpt id to hand out; ids are never reused.
    pub next_excerpt_id: u64,
    /// Change notifications, oldest first.
    pub events: Vec<Event>,
}

/// Whether a state entry for `id` exists.
pub open spec fn has_state(states: Seq<BufferState>, id: u64) -> bool {
    exists|i: int| 0 <= i < states.len() && states[i].buffer_id == id
}

/// The frozen path stored for buffer `id` (meaningful when `has_state`).
pub open spec fn state_path(states: Seq<BufferState>, id: u64) -> Option<Seq<u8>> {
    let i = choose|i: int| 0 <= i < states.len() && states[i].buffer_id == id;
    opt_path_view(states[i].initial_path)
}

/// Every buffer id occurs at most once in the state map.
pub open spec fn unique_state_ids(states: Seq<BufferState>) -> bool {
    forall|i: int, j: int|
        0 <= i < j < states.len() ==> (#[trigger] states[i].buffer_id) != (
        #[trigger] states[j].buffer_id)
}

/// Whether any tracked buffer is dirty.
pub open spec fn any_dirty(states: Seq<BufferState>) -> bool {
    exists|i: int| 0 <= i < states.len() && states[i].is_dirty
}

/// Whether any tracked buffer has a conflict.
pub open spec fn any_conflict(states: Seq<BufferState>) -> bool {
    exists|i: int| 0 <= i < states.len() && states[i].has_conflict
}

/// Total bytes of the concatenated view: each excerpt's length plus its
/// synthesized trailing newline.
pub open spec fn total_fp(s: Seq<Excerpt>) -> int
    decreases s.len(),
{
    if s.len() == 0 {
        0
    } else {
        total_fp(s.drop_last()) + footprint(s.last())
    }
}

/// Total rows of the concatenated view.
pub open spec fn total_rows(s: Seq<Excerpt>) -> int
    decreases s.len(),
{
    if s.len() == 0 {
        0
    } else {
        total_rows(s.drop_last()) + row_footprint(s.last())
    }
}

/// `total_fp` and `total_rows` split over concatenation.
pub proof fn lemma_total_fp_add(a: Seq<Excerpt>, b: Seq<Excerpt>)
    ensures
        total_fp(a + b) == total_fp(a) + total_fp(b),
        total_rows(a + b) == total_rows(a) + total_rows(b),
    decreases b.len(),
{
    if b.len() == 0 {
        assert(a + b =~= a);
    } else {
        assert((a + b).drop_last() =~= a + b.drop_last());
        assert((a + b).last() == b.last());
        lemma_total_fp_add(a, b.drop_last());
    }
}

impl MultiBufferSnapshot {
    /// Structural consistency of a snapshot: excerpts are strictly sorted
    /// by their frozen key, pairwise disjoint per buffer, internally
    /// consistent, have unique ids, and the concatenated view fits in a
    /// `usize`.
    pub open spec fn wf(self) -> bool {
        &&& sorted(self.excerpts@)
        &&& disjoint(self.excerpts@)
        &&& unique_ids(self.excerpts@)
        &&& forall|i: int| 0 <= i < self.excerpts@.len() ==> excerpt_wf(#[trigger] self.excerpts@[i])
        &&& total_fp(self.excerpts@) <= usize::MAX
    }
}

/// Observational equality of excerpts: every field agrees, with buffer
/// contents and paths compared by value.
pub open spec fn same_excerpt(a: Excerpt, b: Excerpt) -> bool {
    &&& a.id == b.id
    &&& a.buffer_id == b.buffer_id
    &&& e_path(a) == e_path(b)
    &&& a.buffer_snapshot.buffer_id == b.buffer_snapshot.buffer_id
    &&& a.buffer_snapshot.text@ == b.buffer_snapshot.text@
    &&& a.range == b.range
    &&& a.max_row == b.max_row
    &&& a.text_summary == b.text_summary
    &&& a.trailing_newline == b.trailing_newline
}

/// Observational equality of excerpt sequences.
pub open spec fn same_excerpts(a: Seq<Excerpt>, b: Seq<Excerpt>) -> bool {
    a.len() == b.len() && forall|i: int|
        0 <= i < a.len() ==> same_excerpt(#[trigger] a[i], #[trigger] b[i])
}

/// Observational equality of snapshots: everything a reader can see agrees.
pub open spec fn same_snapshot(a: MultiBufferSnapshot, b: MultiBufferSnapshot) -> bool {
    &&& a.singleton == b.singleton
    &&& same_excerpts(a.excerpts@, b.excerpts@)
    &&& a.edit_count == b.edit_count
    &&& a.trailing_excerpt_update_count == b.trailing_excerpt_update_count
    &&& a.non_text_state_update_count == b.non_text_state_update_count
    &&& a.is_dirty == b.is_dirty
    &&& a.has_conflict == b.has_conflict
}

/// Observationally equal excerpt sequences have equal totals.
pub proof fn lemma_same_total_fp(a: Seq<Excerpt>, b: Seq<Excerpt>)
    requires
        same_excerpts(a, b),
    ensures
        total_fp(a) == total_fp(b),
    decreases a.len(),
{
    if a.len() > 0 {
        assert(same_excerpts(a.drop_last(), b.drop_last()));
        lemma_same_total_fp(a.drop_last(), b.drop_last());
        assert(same_excerpt(a.last(), b.last()));
    }
}

/// Observational equality preserves snapshot well-formedness.
pub proof fn lemma_same_snapshot_wf(a: MultiBufferSnapshot, b: MultiBufferSnapshot)
    requires
        same_snapshot(a, b),
        b.wf(),
    ensures
        a.wf(),
{
    let sa = a.excerpts@;
    let sb = b.excerpts@;
    assert forall|i: int, j: int| 0 <= i < j < sa.len() implies key_lt(
        #[trigger] sa[i],
        #[trigger] sa[j],
    ) by {
        assert(same_excerpt(sa[i], sb[i]));
        assert(same_excerpt(sa[j], sb[j]));
        assert(key_lt(sb[i], sb[j]));
    }
    assert forall|i: int, j: int|
        0 <= i < sa.len() && 0 <= j < sa.len() && i != j && (#[trigger] sa[i].buffer_id) == (
        #[trigger] sa[j].buffer_id) implies !ranges_conflict(sa[i].range, sa[j].range) by {
        assert(same_excerpt(sa[i], sb[i]));
        assert(same_excerpt(sa[j], sb[j]));
    }
    assert forall|i: int, j: int| 0 <= i < j < sa.len() implies (#[trigger] sa[i].id) != (
    #[trigger] sa[j].id) by {
        assert(same_excerpt(sa[i], sb[i]));
        assert(same_excerpt(sa[j], sb[j]));
    }
    assert forall|i: int| 0 <= i < sa.len() implies excerpt_wf(#[trigger] sa[i]) by {
        assert(same_excerpt(sa[i], sb[i]));
        assert(excerpt_wf(sb[i]));
    }
    lemma_same_total_fp(sa, sb);
}

/// A verified deep copy of one excerpt.
pub fn copy_excerpt(e: &Excerpt) -> (r: Excerpt)
    ensures
        same_excerpt(r, *e),
{
    Excerpt {
        id: e.id,
        buffer_id: e.buffer_id,
        initial_buffer_path: copy_path(&e.initial_buffer_path),
        buffer_snapshot: BufferSnapshot {
            buffer_id: e.buffer_snapshot.buffer_id,
            text: copy_bytes(&e.buffer_snapshot.text),
        },
        range: e.range,
        max_row: e.max_row,
        text_summary: e.text_summary,
        trailing_newline: e.trailing_newline,
    }
}

/// The path a new excerpt of `buffer` is keyed by: the path frozen when the
/// buffer's first excerpt was created, or the buffer's current path if it
/// has no excerpts yet.
pub open spec fn frozen_path(states: Seq<BufferState>, buffer: Buffer) -> Option<Seq<u8>> {
    if has_state(states, buffer.id) {
        state_path(states, buffer.id)
    } else {
        opt_path_view(buffer.path)
    }
}

/// With unique state ids, `state_path` agrees with any matching entry.
pub proof fn lemma_state_path_at(states: Seq<BufferState>, k: int)
    requires
        unique_state_ids(states),
        0 <= k < states.len(),
    ensures
        state_path(states, states[k].buffer_id) == opt_path_view(states[k].initial_path),
{
    let id = states[k].buffer_id;
    assert(has_state(states, id));
    let i = choose|i: int| 0 <= i < states.len() && states[i].buffer_id == id;
    if i != k {
        assert(states[i].buffer_id == states[k].buffer_id);
        assert(false);
    }
}

/// Finds the state entry for `id`, if one exists.
fn find_state(states: &Vec<BufferState>, id: u64) -> (r: Option<usize>)
    ensures
        match r {
            Option::Some(k) => k < states@.len() && states@[k as int].buffer_id == id,
            Option::None => !has_state(states@, id),
        },
{
    let mut k: usize = 0;
    while k < states.len()
        invariant
            k <= states@.len(),
            forall|j: int| 0 <= j < k ==> (#[trigger] states@[j]).buffer_id != id,
        decreases states@.len() - k,
    {
        if states[k].buffer_id == id {
            return Option::Some(k);
        }
        k = k + 1;
    }
    Option::None
}

/// Looks up or creates the state entry for `buffer`, refreshing its dirty
/// and conflict flags from the handle, and returns the frozen path a new
/// excerpt of this buffer must be keyed by.
fn get_or_create_state(states: &mut Vec<BufferState>, buffer: &Buffer) -> (path: Option<Vec<u8>>)
    requires
        unique_state_ids(old(states)@),
    ensures
        unique_state_ids(final(states)@),
        opt_path_view(path) == frozen_path(old(states)@, *buffer),
        has_state(final(states)@, buffer.id),
        final(states)@.len() == old(states)@.len() + (if has_state(old(states)@, buffer.id) {
            0int
        } else {
            1int
        }),
        forall|k: int|
            0 <= k < old(states)@.len() ==> (#[trigger] final(states)@[k]).buffer_id == old(
                states,
            )@[k].buffer_id,
        forall|k: int|
            0 <= k < old(states)@.len() && old(states)@[k].buffer_id != buffer.id ==> (
            #[trigger] final(states)@[k]) == old(states)@[k],
        forall|k: int|
            old(states)@.len() <= k < final(states)@.len() ==> (
            #[trigger] final(states)@[k]).buffer_id == buffer.id,
        exists|k: int|
            0 <= k < final(states)@.len() && (#[trigger] final(states)@[k]).buffer_id == buffer.id
                && opt_path_view(final(states)@[k].initial_path) == frozen_path(
                old(states)@,
                *buffer,
            ) && final(states)@[k].is_dirty == buffer.is_dirty
                && final(states)@[k].has_conflict == buffer.has_conflict,
        forall|k: int|
            0 <= k < final(states)@.len() && (#[trigger] final(states)@[k]).buffer_id == buffer.id
                ==> opt_path_view(final(states)@[k].initial_path) == frozen_path(
                old(states)@,
                *buffer,
            ) && final(states)@[k].is_dirty == buffer.is_dirty && final(states)@[k].has_conflict
                == buffer.has_conflict,
{
    let found = find_state(states, buffer.id);
    match found {
        Option::Some(k) => {
            proof {
                lemma_state_path_at(old(states)@, k as int);
            }
            let mut st = states.remove(k);
            let path = copy_path(&st.initial_path);
            st.is_dirty = buffer.is_dirty;
            st.has_conflict = buffer.has_conflict;
            states.insert(k, st);
            proof {
                let o = old(states)@;
                let f = states@;
                assert(f =~= o.update(k as int, f[k as int]));
                assert(f[k as int].buffer_id == buffer.id);
                assert forall|i: int, j: int| 0 <= i < j < f.len() implies (
                #[trigger] f[i].buffer_id) != (#[trigger] f[j].buffer_id) by {
                    assert(f[i].buffer_id == o[i].buffer_id);
                    assert(f[j].buffer_id == o[j].buffer_id);
                }
                assert forall|i: int|
                    0 <= i < f.len() && (#[trigger] f[i].buffer_id) == buffer.id implies i
                    == k as int by {
                    if i != k as int {
                        assert(o[i].buffer_id == o[k as int].buffer_id);
                        assert(false);
                    }
                }
            }
            path
        },
        Option::None => {
            let path = copy_path(&buffer.path);
            let stored = copy_path(&buffer.path);
            states.push(
                BufferState {
                    buffer_id: buffer.id,
                    initial_path: stored,
                    is_dirty: buffer.is_dirty,
                    has_conflict: buffer.has_conflict,
                },
            );
            proof {
                let o = old(states)@;
                let f = states@;
                assert(f.len() == o.len() + 1);
                assert(f[o.len() as int].buffer_id == buffer.id);
                assert forall|i: int, j: int| 0 <= i < j < f.len() implies (
                #[trigger] f[i].buffer_id) != (#[trigger] f[j].buffer_id) by {
                    if j < o.len() {
                        assert(f[i] == o[i] && f[j] == o[j]);
                    } else {
                        assert(f[i] == o[i]);
                        assert(f[j].buffer_id == buffer.id);
                        assert(!has_state(o, buffer.id));
                    }
                }
            }
            path
        },
    }
}

/// Computes the aggregate dirty and conflict flags: the OR over all
/// tracked buffers.
fn compute_flags(states: &Vec<BufferState>) -> (r: (bool, bool))
    ensures
        r.0 == any_dirty(states@),
        r.1 == any_conflict(states@),
{
    let mut dirty = false;
    let mut conflict = false;
    let mut k: usize = 0;
    while k < states.len()
        invariant
            k <= states@.len(),
            dirty == exists|j: int| 0 <= j < k && (#[trigger] states@[j]).is_dirty,
            conflict == exists|j: int| 0 <= j < k && (#[trigger] states@[j]).has_conflict,
        decreases states@.len() - k,
    {
        if states[k].is_dirty {
            dirty = true;
        }
        if states[k].has_conflict {
            conflict = true;
        }
        k = k + 1;
    }
    (dirty, conflict)
}

/// The id of the trailing excerpt, if any.
pub open spec fn last_excerpt_id(s: Seq<Excerpt>) -> Option<u64> {
    if s.len() == 0 {
        Option::None
    } else {
        Option::Some(s.last().id)
    }
}

/// Reads the trailing excerpt's id.
fn last_id(v: &Vec<Excerpt>) -> (r: Option<u64>)
    ensures
        r == last_excerpt_id(v@),
{
    if v.len() == 0 {
        Option::None
    } else {
        Option::Some(v[v.len() - 1].id)
    }
}

/// Whether an excerpt created by the current call (id at least
/// `first_new`) now sorts before an excerpt that already existed: exactly
/// then have the ordinal positions of existing excerpts changed.
pub open spec fn reordered_after(first_new: u64, s: Seq<Excerpt>) -> bool {
    exists|i: int, j: int|
        0 <= i < j < s.len() && (#[trigger] s[i]).id >= first_new && (#[trigger] s[j]).id
            < first_new
}

/// Detects whether a new excerpt stands before an old one.
fn is_reordered(v: &Vec<Excerpt>, first_new: u64) -> (r: bool)
    ensures
        r == reordered_after(first_new, v@),
{
    let mut seen_new = false;
    let mut k: usize = 0;
    while k < v.len()
        invariant
            k <= v@.len(),
            seen_new == exists|i: int| 0 <= i < k && (#[trigger] v@[i]).id >= first_new,
            !reordered_after_prefix(first_new, v@, k as int),
        decreases v@.len() - k,
    {
        if v[k].id >= first_new {
            seen_new = true;
        } else if seen_new {
            proof {
                let i = choose|i: int| 0 <= i < k && (#[trigger] v@[i]).id >= first_new;
                assert(v@[i].id >= first_new && v@[k as int].id < first_new);
            }
            return true;
        }
        k = k + 1;
    }
    false
}

/// No witness pair for `reordered_after` lies within the first `n` items.
pub open spec fn reordered_after_prefix(first_new: u64, s: Seq<Excerpt>, n: int) -> bool {
    exists|i: int, j: int|
        0 <= i < j < n && j < s.len() && (#[trigger] s[i]).id >= first_new && (#[trigger] s[j]).id
            < first_new
}

/// Whether `range` in buffer `buffer_id` conflicts with an existing
/// excerpt of the same buffer.
fn conflicts_existing(v: &Vec<Excerpt>, buffer_id: u64, range: ExcerptRange) -> (r: bool)
    ensures
        r == exists|k: int|
            0 <= k < v@.len() && (#[trigger] v@[k]).buffer_id == buffer_id && ranges_conflict(
                v@[k].range,
                range,
            ),
{
    let mut k: usize = 0;
    while k < v.len()
        invariant
            k <= v@.len(),
            forall|j: int|
                0 <= j < k ==> !((#[trigger] v@[j]).buffer_id == buffer_id && ranges_conflict(
                    v@[j].range,
                    range,
                )),
        decreases v@.len() - k,
    {
        if v[k].buffer_id == buffer_id {
            let er = v[k].range;
            if (er.start < range.end && range.start < er.end) || (er.start == range.start
                && er.end == range.end) {
                return true;
            }
        }
        k = k + 1;
    }
    false
}

/// Inserts `e` at its sorted position; requires that `e` is fresh and
/// conflicts with nothing already present.
fn insert_sorted(v: &mut Vec<Excerpt>, e: Excerpt) -> (idx: usize)
    requires
        sorted(old(v)@),
        unique_ids(old(v)@),
        disjoint(old(v)@),
        forall|k: int| 0 <= k < old(v)@.len() ==> excerpt_wf(#[trigger] old(v)@[k]),
        excerpt_wf(e),
        forall|k: int| 0 <= k < old(v)@.len() ==> (#[trigger] old(v)@[k]).id != e.id,
        !(exists|k: int|
            0 <= k < old(v)@.len() && (#[trigger] old(v)@[k]).buffer_id == e.buffer_id
                && ranges_conflict(old(v)@[k].range, e.range)),
    ensures
        idx <= old(v)@.len(),
        final(v)@ == old(v)@.insert(idx as int, e),
        sorted(final(v)@),
        unique_ids(final(v)@),
        disjoint(final(v)@),
        forall|k: int| 0 <= k < final(v)@.len() ==> excerpt_wf(#[trigger] final(v)@[k]),
        total_fp(final(v)@) == total_fp(old(v)@) + footprint(e),
{
    let mut idx: usize = 0;
    while idx < v.len() && key_lt_exec(&v[idx], &e)
        invariant
            idx <= v@.len(),
            forall|k: int| 0 <= k < idx ==> key_lt(#[trigger] v@[k], e),
            *v == *old(v),
        decreases v@.len() - idx,
    {
        idx = idx + 1;
    }
    proof {
        let o = old(v)@;
        if idx < o.len() {
            assert(!key_lt(o[idx as int], e));
            lemma_key_lt_connex(o[idx as int], e);
            if !key_lt(e, o[idx as int]) {
                assert(o[idx as int].buffer_id == e.buffer_id);
                assert(o[idx as int].range == e.range);
                assert(ranges_conflict(o[idx as int].range, e.range));
                assert(false);
            }
        }
        assert forall|k: int| idx <= k < o.len() implies key_lt(e, #[trigger] o[k]) by {
            if k > idx {
                lemma_key_lt_trans(e, o[idx as int], o[k]);
            }
        }
    }
    v.insert(idx, e);
    proof {
        let o = old(v)@;
        let f = v@;
        o.insert_ensures(idx as int, e);
        assert forall|i: int, j: int| 0 <= i < j < f.len() implies key_lt(
            #[trigger] f[i],
            #[trigger] f[j],
        ) by {
            lemma_insert_index_cases(o, e, idx as int, i);
            lemma_insert_index_cases(o, e, idx as int, j);
        }
        assert forall|i: int, j: int| 0 <= i < j < f.len() implies (#[trigger] f[i]).id != (
        #[trigger] f[j]).id by {
            lemma_insert_index_cases(o, e, idx as int, i);
            lemma_insert_index_cases(o, e, idx as int, j);
        }
        assert forall|i: int, j: int|
            0 <= i < f.len() && 0 <= j < f.len() && i != j && (#[trigger] f[i]).buffer_id == (
            #[trigger] f[j]).buffer_id implies !ranges_conflict(f[i].range, f[j].range) by {
            lemma_insert_index_cases(o, e, idx as int, i);
            lemma_insert_index_cases(o, e, idx as int, j);
        }
        assert forall|k: int| 0 <= k < f.len() implies excerpt_wf(#[trigger] f[k]) by {
            lemma_insert_index_cases(o, e, idx as int, k);
        }
        assert(f =~= o.take(idx as int) + seq![e] + o.skip(idx as int));
        lemma_total_fp_add(o.take(idx as int) + seq![e], o.skip(idx as int));
        lemma_total_fp_add(o.take(idx as int), seq![e]);
        lemma_total_fp_add(o.take(idx as int), o.skip(idx as int));
        assert(o.take(idx as int) + o.skip(idx as int) =~= o);
        assert(seq![e].drop_last() =~= Seq::<Excerpt>::empty());
        assert(total_fp(Seq::<Excerpt>::empty()) == 0);
        assert(total_fp(seq![e]) == footprint(e));
    }
    idx
}

/// Where an index of `s.insert(pos, e)` comes from: the new element, or an
/// old element at the same or the previous index.
proof fn lemma_insert_index_cases(s: Seq<Excerpt>, e: Excerpt, pos: int, i: int)
    requires
        0 <= pos <= s.len(),
        0 <= i < s.len() + 1,
    ensures
        i < pos ==> s.insert(pos, e)[i] == s[i],
        i == pos ==> s.insert(pos, e)[i] == e,
        i > pos ==> s.insert(pos, e)[i] == s[i - 1],
{
    s.insert_ensures(pos, e);
}

/// A pair names a range that is valid for its buffer's current content.
pub open spec fn pair_range_ok(p: (Buffer, ExcerptRange)) -> bool {
    p.1.start <= p.1.end <= p.0.text@.len()
}

/// All pairs that name one buffer id present the same handle data: the
/// same path, content, and flags. Genuine handles to one buffer cannot
/// disagree within a single call.
pub open spec fn buffers_agree(pairs: Seq<(Buffer, ExcerptRange)>) -> bool {
    forall|i: int, j: int|
        0 <= i < pairs.len() && 0 <= j < pairs.len() && (#[trigger] pairs[i]).0.id == (
        #[trigger] pairs[j]).0.id ==> opt_path_view(pairs[i].0.path) == opt_path_view(
            pairs[j].0.path,
        ) && pairs[i].0.text@ == pairs[j].0.text@ && pairs[i].0.closed == pairs[j].0.closed
            && pairs[i].0.is_dirty == pairs[j].0.is_dirty && pairs[i].0.has_conflict
            == pairs[j].0.has_conflict
}

/// The pair's range conflicts with an excerpt of the same buffer in `ex`.
pub open spec fn overlaps_existing(ex: Seq<Excerpt>, p: (Buffer, ExcerptRange)) -> bool {
    exists|k: int|
        0 <= k < ex.len() && (#[trigger] ex[k]).buffer_id == p.0.id && ranges_conflict(
            ex[k].range,
            p.1,
        )
}

/// Pair `i` conflicts with an earlier accepted pair of the same buffer.
pub open spec fn overlaps_prior(
    pairs: Seq<(Buffer, ExcerptRange)>,
    res: Seq<Result<u64, ExcerptError>>,
    i: int,
) -> bool {
    exists|j: int|
        0 <= j < i && j < res.len() && (#[trigger] res[j]) is Ok && pairs[j].0.id == pairs[i].0.id
            && ranges_conflict(pairs[j].1, pairs[i].1)
}

/// The per-pair verdict of an insertion batch, evaluated pair by pair:
/// a closed handle is reported first, then an invalid range, then an
/// overlap with an existing or an earlier accepted excerpt; otherwise the
/// pair is accepted.
pub open spec fn insert_verdict(
    old_ex: Seq<Excerpt>,
    pairs: Seq<(Buffer, ExcerptRange)>,
    res: Seq<Result<u64, ExcerptError>>,
    i: int,
) -> bool {
    let p = pairs[i];
    &&& ((res[i] == Result::<u64, ExcerptError>::Err(ExcerptError::BufferClosed)) <==> p.0.closed)
    &&& ((res[i] == Result::<u64, ExcerptError>::Err(ExcerptError::InvalidRange)) <==> (!p.0.closed
        && !pair_range_ok(p)))
    &&& ((res[i] == Result::<u64, ExcerptError>::Err(ExcerptError::Overlap)) <==> (!p.0.closed
        && pair_range_ok(p) && (overlaps_existing(old_ex, p) || overlaps_prior(pairs, res, i))))
    &&& ((res[i] is Ok) <==> (!p.0.closed && pair_range_ok(p) && !overlaps_existing(old_ex, p)
        && !overlaps_prior(pairs, res, i)))
}

/// Number of accepted pairs.
pub open spec fn ok_count(res: Seq<Result<u64, ExcerptError>>) -> int
    decreases res.len(),
{
    if res.len() == 0 {
        0
    } else {
        ok_count(res.drop_last()) + if res.last() is Ok {
            1int
        } else {
            0int
        }
    }
}

pub proof fn lemma_ok_count_push(res: Seq<Result<u64, ExcerptError>>, x: Result<u64, ExcerptError>)
    ensures
        ok_count(res.push(x)) == ok_count(res) + if x is Ok {
            1int
        } else {
            0int
        },
{
    assert(res.push(x).drop_last() =~= res);
    assert(res.push(x).last() == x);
}

pub proof fn lemma_ok_count_bounds(res: Seq<Result<u64, ExcerptError>>)
    ensures
        0 <= ok_count(res) <= res.len(),
    decreases res.len(),
{
    if res.len() > 0 {
        lemma_ok_count_bounds(res.drop_last());
    }
}

/// The excerpt created for accepted pair `p`: keyed by the buffer's frozen
/// path over `states`, covering exactly the requested range, with a fresh
/// snapshot of the buffer's content and consistent cached summaries.
pub open spec fn excerpt_for_pair(
    e: Excerpt,
    p: (Buffer, ExcerptRange),
    id: u64,
    states: Seq<BufferState>,
) -> bool {
    &&& e.id == id
    &&& e.buffer_id == p.0.id
    &&& e.range == p.1
    &&& e_path(e) == frozen_path(states, p.0)
    &&& e.buffer_snapshot.text@ == p.0.text@
    &&& excerpt_wf(e)
}

/// Upper bound on the bytes one pair can add to the concatenated view.
pub open spec fn pair_budget(p: (Buffer, ExcerptRange)) -> int {
    if p.1.start <= p.1.end {
        p.1.end - p.1.start + 1
    } else {
        0
    }
}

/// Upper bound on the bytes an insertion batch can add.
pub open spec fn insert_budget(pairs: Seq<(Buffer, ExcerptRange)>) -> int
    decreases pairs.len(),
{
    if pairs.len() == 0 {
        0
    } else {
        pair_budget(pairs[0]) + insert_budget(pairs.skip(1))
    }
}

pub proof fn lemma_insert_budget_nonneg(pairs: Seq<(Buffer, ExcerptRange)>)
    ensures
        insert_budget(pairs) >= 0,
    decreases pairs.len(),
{
    if pairs.len() > 0 {
        lemma_insert_budget_nonneg(pairs.skip(1));
    }
}

pub proof fn lemma_insert_budget_skip(pairs: Seq<(Buffer, ExcerptRange)>, i: int)
    requires
        0 <= i < pairs.len(),
    ensures
        insert_budget(pairs.skip(i)) == pair_budget(pairs[i]) + insert_budget(pairs.skip(i + 1)),
{
    assert(pairs.skip(i).len() > 0);
    assert(pairs.skip(i)[0] == pairs[i]);
    assert(pairs.skip(i).skip(1) =~= pairs.skip(i + 1));
}

/// The events one mutation appends: a single `Reordered` if existing
/// excerpts changed ordinal position, else a single `Edited` if the
/// excerpt set changed, followed by `DirtyChanged` if the aggregate flags
/// changed.
pub open spec fn mutation_events(
    reordered: bool,
    changed: bool,
    dirty_changed: bool,
    ec: usize,
) -> Seq<Event> {
    (if reordered {
        seq![Event::Reordered { edit_count: ec }]
    } else if changed {
        seq![Event::Edited { edit_count: ec }]
    } else {
        Seq::<Event>::empty()
    }) + (if dirty_changed {
        seq![Event::DirtyChanged { edit_count: ec }]
    } else {
        Seq::<Event>::empty()
    })
}

/// How one `get_or_create_state` call changes the state map, as seen from
/// outside: entry data for the touched buffer, everything else untouched.
pub open spec fn state_update(pre: Seq<BufferState>, post: Seq<BufferState>, b: Buffer) -> bool {
    &&& post.len() == pre.len() + (if has_state(pre, b.id) {
        0int
    } else {
        1int
    })
    &&& forall|k: int| 0 <= k < pre.len() ==> (#[trigger] post[k]).buffer_id == pre[k].buffer_id
    &&& forall|k: int|
        0 <= k < pre.len() && pre[k].buffer_id != b.id ==> (#[trigger] post[k]) == pre[k]
    &&& forall|k: int| pre.len() <= k < post.len() ==> (#[trigger] post[k]).buffer_id == b.id
    &&& forall|k: int|
        0 <= k < post.len() && (#[trigger] post[k]).buffer_id == b.id ==> opt_path_view(
            post[k].initial_path,
        ) == frozen_path(pre, b) && post[k].is_dirty == b.is_dirty && post[k].has_conflict
            == b.has_conflict
}

/// A state update touching `touched` keeps membership for every other id,
/// adds `touched.id`, and keeps every agreeing handle's frozen path.
pub proof fn lemma_state_update(
    pre: Seq<BufferState>,
    post: Seq<BufferState>,
    touched: Buffer,
    b: Buffer,
)
    requires
        unique_state_ids(pre),
        unique_state_ids(post),
        state_update(pre, post, touched),
        b.id == touched.id ==> opt_path_view(b.path) == opt_path_view(touched.path),
    ensures
        has_state(post, b.id) <==> (has_state(pre, b.id) || b.id == touched.id),
        frozen_path(post, b) == frozen_path(pre, b),
{
    if b.id == touched.id {
        if has_state(pre, b.id) {
            let k = choose|k: int| 0 <= k < pre.len() && pre[k].buffer_id == b.id;
            assert(post[k].buffer_id == b.id);
            assert(has_state(post, b.id));
            let k2 = choose|k2: int| 0 <= k2 < post.len() && post[k2].buffer_id == b.id;
            assert(opt_path_view(post[k2].initial_path) == frozen_path(pre, touched));
            assert(state_path(post, b.id) == frozen_path(pre, touched));
            assert(frozen_path(pre, touched) == state_path(pre, touched.id));
        } else {
            assert(post[pre.len() as int].buffer_id == b.id);
            assert(has_state(post, b.id));
            let k2 = choose|k2: int| 0 <= k2 < post.len() && post[k2].buffer_id == b.id;
            assert(state_path(post, b.id) == frozen_path(pre, touched));
            assert(frozen_path(pre, touched) == opt_path_view(touched.path));
            assert(frozen_path(pre, b) == opt_path_view(b.path));
        }
    } else {
        if has_state(pre, b.id) {
            let k = choose|k: int| 0 <= k < pre.len() && pre[k].buffer_id == b.id;
            assert(post[k].buffer_id == b.id);
            assert(has_state(post, b.id));
            assert(pre[k].buffer_id != touched.id);
            assert(post[k] == pre[k]);
            lemma_state_path_at(pre, k);
            lemma_state_path_at(post, k);
        } else {
            if has_state(post, b.id) {
                let k = choose|k: int| 0 <= k < post.len() && post[k].buffer_id == b.id;
                if k < pre.len() {
                    assert(pre[k].buffer_id == b.id);
                    assert(false);
                } else {
                    assert(post[k].buffer_id == touched.id);
                    assert(false);
                }
            }
        }
    }
}

/// The predicate selecting excerpts that existed before an id watermark.
pub open spec fn is_old_excerpt(n0: u64) -> spec_fn(Excerpt) -> bool {
    |e: Excerpt| e.id < n0
}

/// Filtering keeps a sequence whose members all satisfy the predicate.
proof fn lemma_filter_all(s: Seq<Excerpt>, p: spec_fn(Excerpt) -> bool)
    requires
        forall|k: int| 0 <= k < s.len() ==> p(#[trigger] s[k]),
    ensures
        s.filter(p) == s,
    decreases s.len(),
{
    reveal(Seq::filter);
    if s.len() > 0 {
        assert(forall|k: int| 0 <= k < s.drop_last().len() ==> p(#[trigger] s.drop_last()[k]));
        lemma_filter_all(s.drop_last(), p);
        assert(s.drop_last().push(s.last()) =~= s);
    }
}

/// A singleton whose element fails the predicate filters to nothing.
proof fn lemma_filter_single_false(e: Excerpt, p: spec_fn(Excerpt) -> bool)
    requires
        !p(e),
    ensures
        seq![e].filter(p) == Seq::<Excerpt>::empty(),
{
    reveal(Seq::filter);
    assert(seq![e].drop_last() =~= Seq::<Excerpt>::empty());
    assert(Seq::<Excerpt>::empty().filter(p) =~= Seq::<Excerpt>::empty());
}

/// Inserting an element that fails the predicate leaves a filter
/// unchanged.
proof fn lemma_filter_insert_new(s: Seq<Excerpt>, e: Excerpt, idx: int, p: spec_fn(Excerpt) -> bool)
    requires
        0 <= idx <= s.len(),
        !p(e),
    ensures
        s.insert(idx, e).filter(p) == s.filter(p),
{
    let a = s.take(idx);
    let b = s.skip(idx);
    assert(s.insert(idx, e) =~= (a + seq![e]) + b);
    Seq::filter_distributes_over_add(a + seq![e], b, p);
    Seq::filter_distributes_over_add(a, seq![e], p);
    Seq::filter_distributes_over_add(a, b, p);
    lemma_filter_single_false(e, p);
    assert((a + seq![e]).filter(p) =~= a.filter(p) + seq![e].filter(p));
    assert(a.filter(p) + seq![e].filter(p) =~= a.filter(p));
    assert(a + b =~= s);
    assert(s.insert(idx, e).filter(p) =~= s.filter(p));
}

/// A state update touching `touched` adds exactly `touched.id` to the map.
pub proof fn lemma_state_membership(
    pre: Seq<BufferState>,
    post: Seq<BufferState>,
    touched: Buffer,
    id: u64,
)
    requires
        unique_state_ids(pre),
        unique_state_ids(post),
        state_update(pre, post, touched),
    ensures
        has_state(post, id) <==> (has_state(pre, id) || id == touched.id),
{
    if has_state(pre, id) {
        let k = choose|k: int| 0 <= k < pre.len() && pre[k].buffer_id == id;
        assert(post[k].buffer_id == id);
        assert(has_state(post, id));
    }
    if id == touched.id {
        if has_state(pre, id) {
        } else {
            assert(post[pre.len() as int].buffer_id == id);
            assert(has_state(post, id));
        }
    }
    if has_state(post, id) && !has_state(pre, id) && id != touched.id {
        let k = choose|k: int| 0 <= k < post.len() && post[k].buffer_id == id;
        if k < pre.len() {
            assert(pre[k].buffer_id == id);
            assert(false);
        } else {
            assert(post[k].buffer_id == touched.id);
            assert(false);
        }
    }
}

/// The invariant of an insertion batch after some prefix of the pairs has
/// been processed: `ex`, `st`, `res`, `next` are the current excerpts,
/// states, per-pair results and id counter; `oex`, `ost`, `n0` are their
/// values before the call.
pub open spec fn insert_inv(
    oex: Seq<Excerpt>,
    ost: Seq<BufferState>,
    pairs: Seq<(Buffer, ExcerptRange)>,
    n0: u64,
    ex: Seq<Excerpt>,
    st: Seq<BufferState>,
    res: Seq<Result<u64, ExcerptError>>,
    next: u64,
) -> bool {
    &&& res.len() <= pairs.len()
    &&& sorted(ex)
    &&& disjoint(ex)
    &&& unique_ids(ex)
    &&& (forall|k: int| 0 <= k < ex.len() ==> excerpt_wf(#[trigger] ex[k]))
    &&& (forall|k: int| 0 <= k < ex.len() ==> (#[trigger] ex[k]).id < next)
    &&& ex.len() == oex.len() + ok_count(res)
    &&& next == n0 + ok_count(res)
    &&& ex.filter(is_old_excerpt(n0)) == oex
    &&& (forall|m: int| 0 <= m < res.len() ==> insert_verdict(oex, pairs, res, m))
    &&& (forall|m: int|
        0 <= m < res.len() && (#[trigger] res[m]) is Ok ==> exists|k: int|
            0 <= k < ex.len() && (#[trigger] ex[k]).id == res[m]->Ok_0 && excerpt_for_pair(
                ex[k],
                pairs[m],
                res[m]->Ok_0,
                ost,
            ))
    &&& (forall|k: int|
        0 <= k < ex.len() && (#[trigger] ex[k]).id >= n0 ==> exists|m: int|
            0 <= m < res.len() && res[m] == Result::<u64, ExcerptError>::Ok(ex[k].id)
                && excerpt_for_pair(ex[k], pairs[m], ex[k].id, ost))
    &&& (forall|m: int|
        0 <= m < res.len() && (#[trigger] res[m]) is Ok ==> n0 <= res[m]->Ok_0 < next)
    &&& (forall|m1: int, m2: int|
        0 <= m1 < m2 < res.len() && (#[trigger] res[m1]) is Ok && (#[trigger] res[m2]) is Ok
            ==> res[m1]->Ok_0 < res[m2]->Ok_0)
    &&& unique_state_ids(st)
    &&& (forall|id: u64|
        #[trigger] has_state(st, id) <==> (has_state(ost, id) || exists|m: int|
            0 <= m < res.len() && (#[trigger] res[m]) is Ok && pairs[m].0.id == id))
    &&& st.len() >= ost.len()
    &&& (forall|k: int|
        0 <= k < ost.len() ==> (#[trigger] st[k]).buffer_id == ost[k].buffer_id && opt_path_view(
            st[k].initial_path,
        ) == opt_path_view(ost[k].initial_path))
    &&& (forall|m: int|
        0 <= m < pairs.len() ==> frozen_path(st, (#[trigger] pairs[m]).0) == frozen_path(
            ost,
            pairs[m].0,
        ))
    &&& (forall|ks: int|
        0 <= ks < st.len() ==> exists|k: int|
            0 <= k < ex.len() && (#[trigger] st[ks]).buffer_id == ex[k].buffer_id)
    &&& (forall|k: int| 0 <= k < ex.len() ==> has_state(st, (#[trigger] ex[k]).buffer_id))
    &&& (forall|k: int, ks: int|
        0 <= k < ex.len() && 0 <= ks < st.len() && (#[trigger] ex[k]).buffer_id == (
        #[trigger] st[ks]).buffer_id ==> e_path(ex[k]) == opt_path_view(st[ks].initial_path))
}

/// Pushing a result does not change which earlier pairs overlap.
proof fn lemma_prior_push(
    pairs: Seq<(Buffer, ExcerptRange)>,
    res: Seq<Result<u64, ExcerptError>>,
    x: Result<u64, ExcerptError>,
    m: int,
)
    requires
        0 <= m <= res.len(),
    ensures
        overlaps_prior(pairs, res.push(x), m) == overlaps_prior(pairs, res, m),
{
    let res1 = res.push(x);
    if overlaps_prior(pairs, res1, m) {
        let j = choose|j: int|
            0 <= j < m && j < res1.len() && (#[trigger] res1[j]) is Ok && pairs[j].0.id
                == pairs[m].0.id && ranges_conflict(pairs[j].1, pairs[m].1);
        assert(res1[j] == res[j]);
        assert(overlaps_prior(pairs, res, m));
    }
    if overlaps_prior(pairs, res, m) {
        let j = choose|j: int|
            0 <= j < m && j < res.len() && (#[trigger] res[j]) is Ok && pairs[j].0.id
                == pairs[m].0.id && ranges_conflict(pairs[j].1, pairs[m].1);
        assert(res1[j] == res[j]);
        assert(overlaps_prior(pairs, res1, m));
    }
}

/// Earlier verdicts survive pushing a new result.
proof fn lemma_verdicts_push(
    oex: Seq<Excerpt>,
    pairs: Seq<(Buffer, ExcerptRange)>,
    res: Seq<Result<u64, ExcerptError>>,
    x: Result<u64, ExcerptError>,
)
    requires
        forall|m: int| 0 <= m < res.len() ==> insert_verdict(oex, pairs, res, m),
        res.len() < pairs.len(),
    ensures
        forall|m: int| 0 <= m < res.len() ==> insert_verdict(oex, pairs, res.push(x), m),
{
    let res1 = res.push(x);
    assert forall|m: int| 0 <= m < res.len() implies insert_verdict(oex, pairs, res1, m) by {
        assert(insert_verdict(oex, pairs, res, m));
        assert(res1[m] == res[m]);
        lemma_prior_push(pairs, res, x, m);
    }
}

/// Why one pair is rejected.
pub open spec fn reject_reason(
    oex: Seq<Excerpt>,
    pairs: Seq<(Buffer, ExcerptRange)>,
    res: Seq<Result<u64, ExcerptError>>,
    i: int,
    err: ExcerptError,
) -> bool {
    let p = pairs[i];
    match err {
        ExcerptError::BufferClosed => p.0.closed,
        ExcerptError::InvalidRange => !p.0.closed && !pair_range_ok(p),
        ExcerptError::Overlap => !p.0.closed && pair_range_ok(p) && (overlaps_existing(oex, p)
            || overlaps_prior(pairs, res, i)),
        ExcerptError::SingletonViolation => false,
    }
}

/// A rejected pair extends the batch invariant.
#[verifier::rlimit(100)]
proof fn lemma_reject_step(
    oex: Seq<Excerpt>,
    ost: Seq<BufferState>,
    pairs: Seq<(Buffer, ExcerptRange)>,
    n0: u64,
    ex: Seq<Excerpt>,
    st: Seq<BufferState>,
    res: Seq<Result<u64, ExcerptError>>,
    next: u64,
    err: ExcerptError,
)
    requires
        insert_inv(oex, ost, pairs, n0, ex, st, res, next),
        res.len() < pairs.len(),
        err != ExcerptError::SingletonViolation,
        reject_reason(oex, pairs, res, res.len() as int, err),
    ensures
        insert_inv(oex, ost, pairs, n0, ex, st, res.push(Result::Err(err)), next),
{
    let i = res.len() as int;
    let res1 = res.push(Result::<u64, ExcerptError>::Err(err));
    lemma_ok_count_push(res, Result::Err(err));
    lemma_verdicts_push(oex, pairs, res, Result::Err(err));
    lemma_prior_push(pairs, res, Result::Err(err), i);
    assert(res1[i] == Result::<u64, ExcerptError>::Err(err));
    assert(insert_verdict(oex, pairs, res1, i)) by {
        match err {
            ExcerptError::BufferClosed => {},
            ExcerptError::InvalidRange => {},
            ExcerptError::Overlap => {},
            ExcerptError::SingletonViolation => {},
        }
    }
    assert forall|m: int|
        0 <= m < res1.len() && (#[trigger] res1[m]) is Ok implies exists|k: int|
            0 <= k < ex.len() && (#[trigger] ex[k]).id == res1[m]->Ok_0 && excerpt_for_pair(
                ex[k],
                pairs[m],
                res1[m]->Ok_0,
                ost,
            ) by {
        assert(res1[m] == res[m]);
    }
    assert forall|k: int|
        0 <= k < ex.len() && (#[trigger] ex[k]).id >= n0 implies exists|m: int|
            0 <= m < res1.len() && res1[m] == Result::<u64, ExcerptError>::Ok(ex[k].id)
                && excerpt_for_pair(ex[k], pairs[m], ex[k].id, ost) by {
        let m = choose|m: int|
            0 <= m < res.len() && res[m] == Result::<u64, ExcerptError>::Ok(ex[k].id)
                && excerpt_for_pair(ex[k], pairs[m], ex[k].id, ost);
        assert(res1[m] == res[m]);
    }
    assert forall|id: u64| #[trigger]
        has_state(st, id) <==> (has_state(ost, id) || exists|m: int|
            0 <= m < res1.len() && (#[trigger] res1[m]) is Ok && pairs[m].0.id == id) by {
        if exists|m: int| 0 <= m < res1.len() && (#[trigger] res1[m]) is Ok && pairs[m].0.id
            == id {
            let m = choose|m: int|
                0 <= m < res1.len() && (#[trigger] res1[m]) is Ok && pairs[m].0.id == id;
            if m < res.len() {
                assert(res[m] is Ok);
            } else {
                assert(res1[m] == Result::<u64, ExcerptError>::Err(err));
            }
        }
        if has_state(st, id) && !has_state(ost, id) {
            let m = choose|m: int|
                0 <= m < res.len() && (#[trigger] res[m]) is Ok && pairs[m].0.id == id;
            assert(res1[m] == res[m]);
        }
    }
}

/// In the current excerpt set, a conflict with pair `i` is exactly a
/// conflict with a pre-existing excerpt or with an earlier accepted pair.
proof fn lemma_conflict_equiv(
    oex: Seq<Excerpt>,
    ost: Seq<BufferState>,
    pairs: Seq<(Buffer, ExcerptRange)>,
    n0: u64,
    ex: Seq<Excerpt>,
    st: Seq<BufferState>,
    res: Seq<Result<u64, ExcerptError>>,
    next: u64,
)
    requires
        insert_inv(oex, ost, pairs, n0, ex, st, res, next),
        res.len() < pairs.len(),
    ensures
        overlaps_existing(ex, pairs[res.len() as int]) == (overlaps_existing(
            oex,
            pairs[res.len() as int],
        ) || overlaps_prior(pairs, res, res.len() as int)),
{
    let i = res.len() as int;
    let p = pairs[i];
    if overlaps_existing(ex, p) {
        let k = choose|k: int|
            0 <= k < ex.len() && (#[trigger] ex[k]).buffer_id == p.0.id && ranges_conflict(
                ex[k].range,
                p.1,
            );
        if ex[k].id < n0 {
            assert(is_old_excerpt(n0)(ex[k]));
            ex.lemma_filter_contains(is_old_excerpt(n0), k);
            assert(oex.contains(ex[k]));
            let k2 = choose|k2: int| 0 <= k2 < oex.len() && oex[k2] == ex[k];
            assert(overlaps_existing(oex, p));
        } else {
            let m = choose|m: int|
                0 <= m < res.len() && res[m] == Result::<u64, ExcerptError>::Ok(ex[k].id)
                    && excerpt_for_pair(ex[k], pairs[m], ex[k].id, ost);
            assert(overlaps_prior(pairs, res, i)) by {
                assert(res[m] is Ok && pairs[m].0.id == p.0.id && ranges_conflict(
                    pairs[m].1,
                    p.1,
                ));
            }
        }
    }
    if overlaps_existing(oex, p) {
        let k2 = choose|k2: int|
            0 <= k2 < oex.len() && (#[trigger] oex[k2]).buffer_id == p.0.id && ranges_conflict(
                oex[k2].range,
                p.1,
            );
        assert(ex.filter(is_old_excerpt(n0)).contains(oex[k2])) by {
            assert(ex.filter(is_old_excerpt(n0))[k2] == oex[k2]);
        }
        ex.lemma_filter_contains_rev(is_old_excerpt(n0), oex[k2]);
        let k = choose|k: int| 0 <= k < ex.len() && ex[k] == oex[k2];
        assert(overlaps_existing(ex, p));
    }
    if overlaps_prior(pairs, res, i) {
        let j = choose|j: int|
            0 <= j < i && j < res.len() && (#[trigger] res[j]) is Ok && pairs[j].0.id == p.0.id
                && ranges_conflict(pairs[j].1, p.1);
        let k = choose|k: int|
            0 <= k < ex.len() && (#[trigger] ex[k]).id == res[j]->Ok_0 && excerpt_for_pair(
                ex[k],
                pairs[j],
                res[j]->Ok_0,
                ost,
            );
        assert(ex[k].buffer_id == p.0.id && ranges_conflict(ex[k].range, p.1));
        assert(overlaps_existing(ex, p));
    }
}

/// An accepted pair extends the batch invariant: the new excerpt stands at
/// its sorted position, the state map gained at most the pair's buffer,
/// and every bookkeeping clause carries over.
#[verifier::rlimit(100)]
proof fn lemma_accept_step(
    oex: Seq<Excerpt>,
    ost: Seq<BufferState>,
    pairs: Seq<(Buffer, ExcerptRange)>,
    n0: u64,
    ex: Seq<Excerpt>,
    st: Seq<BufferState>,
    mid_st: Seq<BufferState>,
    res: Seq<Result<u64, ExcerptError>>,
    next: u64,
    e: Excerpt,
    idx: int,
)
    requires
        insert_inv(oex, ost, pairs, n0, ex, st, res, next),
        buffers_agree(pairs),
        res.len() < pairs.len(),
        !pairs[res.len() as int].0.closed,
        pair_range_ok(pairs[res.len() as int]),
        !overlaps_existing(ex, pairs[res.len() as int]),
        unique_state_ids(mid_st),
        state_update(st, mid_st, pairs[res.len() as int].0),
        e.id == next,
        e.buffer_id == pairs[res.len() as int].0.id,
        e.range == pairs[res.len() as int].1,
        e_path(e) == frozen_path(st, pairs[res.len() as int].0),
        e.buffer_snapshot.text@ == pairs[res.len() as int].0.text@,
        excerpt_wf(e),
        0 <= idx <= ex.len(),
        sorted(ex.insert(idx, e)),
        disjoint(ex.insert(idx, e)),
        unique_ids(ex.insert(idx, e)),
        forall|k: int|
            0 <= k < ex.insert(idx, e).len() ==> excerpt_wf(#[trigger] ex.insert(idx, e)[k]),
        next < u64::MAX,
    ensures
        insert_inv(
            oex,
            ost,
            pairs,
            n0,
            ex.insert(idx, e),
            mid_st,
            res.push(Result::Ok(next)),
            (next + 1) as u64,
        ),
{
    let i = res.len() as int;
    let p = pairs[i];
    let f = ex.insert(idx, e);
    let res1 = res.push(Result::<u64, ExcerptError>::Ok(next));
    lemma_ok_count_push(res, Result::Ok(next));
    lemma_verdicts_push(oex, pairs, res, Result::Ok(next));
    lemma_prior_push(pairs, res, Result::Ok(next), i);
    ex.insert_ensures(idx, e);
    lemma_filter_insert_new(ex, e, idx, is_old_excerpt(n0));
    lemma_conflict_equiv(oex, ost, pairs, n0, ex, st, res, next);
    assert(insert_verdict(oex, pairs, res1, i));
    assert(frozen_path(st, p.0) == frozen_path(ost, p.0));
    assert(excerpt_for_pair(e, p, next, ost));
    // ids stay below the bumped counter
    assert forall|k: int| 0 <= k < f.len() implies (#[trigger] f[k]).id < next + 1 by {
        if k != idx {
            let k0 = if k < idx {
                k
            } else {
                k - 1
            };
            assert(f[k] == ex[k0]);
        }
    }
    // accepted pairs still name excerpts
    assert forall|m: int|
        0 <= m < res1.len() && (#[trigger] res1[m]) is Ok implies exists|k: int|
            0 <= k < f.len() && (#[trigger] f[k]).id == res1[m]->Ok_0 && excerpt_for_pair(
                f[k],
                pairs[m],
                res1[m]->Ok_0,
                ost,
            ) by {
        if m < i {
            assert(res1[m] == res[m]);
            let k = choose|k: int|
                0 <= k < ex.len() && (#[trigger] ex[k]).id == res[m]->Ok_0 && excerpt_for_pair(
                    ex[k],
                    pairs[m],
                    res[m]->Ok_0,
                    ost,
                );
            if k < idx {
                assert(f[k] == ex[k]);
            } else {
                assert(f[k + 1] == ex[k]);
            }
        } else {
            assert(f[idx] == e);
        }
    }
    // new excerpts all belong to accepted pairs
    assert forall|k: int|
        0 <= k < f.len() && (#[trigger] f[k]).id >= n0 implies exists|m: int|
            0 <= m < res1.len() && res1[m] == Result::<u64, ExcerptError>::Ok(f[k].id)
                && excerpt_for_pair(f[k], pairs[m], f[k].id, ost) by {
        if k == idx {
            assert(f[k] == e);
            assert(res1[i] == Result::<u64, ExcerptError>::Ok(e.id));
        } else {
            let k0 = if k < idx {
                k
            } else {
                k - 1
            };
            assert(f[k] == ex[k0]);
            if ex[k0].id >= n0 {
                let m = choose|m: int|
                    0 <= m < res.len() && res[m] == Result::<u64, ExcerptError>::Ok(ex[k0].id)
                        && excerpt_for_pair(ex[k0], pairs[m], ex[k0].id, ost);
                assert(res1[m] == res[m]);
            }
        }
    }
    // accepted ids are increasing
    assert forall|m1: int, m2: int|
        0 <= m1 < m2 < res1.len() && (#[trigger] res1[m1]) is Ok && (
        #[trigger] res1[m2]) is Ok implies res1[m1]->Ok_0 < res1[m2]->Ok_0 by {
        if m2 < i {
            assert(res1[m1] == res[m1] && res1[m2] == res[m2]);
        } else {
            assert(res1[m1] == res[m1]);
        }
    }
    // state-map membership
    assert forall|id2: u64| #[trigger]
        has_state(mid_st, id2) <==> (has_state(ost, id2) || exists|m: int|
            0 <= m < res1.len() && (#[trigger] res1[m]) is Ok && pairs[m].0.id == id2) by {
        lemma_state_membership(st, mid_st, p.0, id2);
        if has_state(mid_st, id2) && !has_state(ost, id2) {
            if id2 == p.0.id {
                assert(res1[i] is Ok && pairs[i].0.id == id2);
            } else {
                assert(has_state(st, id2));
                let m = choose|m: int|
                    0 <= m < res.len() && (#[trigger] res[m]) is Ok && pairs[m].0.id == id2;
                assert(res1[m] == res[m]);
            }
        }
        if exists|m: int| 0 <= m < res1.len() && (#[trigger] res1[m]) is Ok && pairs[m].0.id
            == id2 {
            let m = choose|m: int|
                0 <= m < res1.len() && (#[trigger] res1[m]) is Ok && pairs[m].0.id == id2;
            if m < i {
                assert(res[m] is Ok);
                assert(has_state(st, id2));
            }
        }
    }
    // old state entries keep id and frozen path
    assert forall|k: int| 0 <= k < ost.len() implies (#[trigger] mid_st[k]).buffer_id
        == ost[k].buffer_id && opt_path_view(mid_st[k].initial_path) == opt_path_view(
        ost[k].initial_path,
    ) by {
        assert(st[k].buffer_id == ost[k].buffer_id);
        if st[k].buffer_id != p.0.id {
            assert(mid_st[k] == st[k]);
        } else {
            assert(opt_path_view(mid_st[k].initial_path) == frozen_path(st, p.0));
            assert(has_state(st, p.0.id));
            lemma_state_path_at(st, k);
        }
    }
    // frozen paths stay stable for the whole batch
    assert forall|m: int| 0 <= m < pairs.len() implies frozen_path(
        mid_st,
        (#[trigger] pairs[m]).0,
    ) == frozen_path(ost, pairs[m].0) by {
        lemma_state_update(st, mid_st, p.0, pairs[m].0);
    }
    // every state entry still has an excerpt
    assert forall|ks: int| 0 <= ks < mid_st.len() implies exists|k: int|
        0 <= k < f.len() && (#[trigger] mid_st[ks]).buffer_id == f[k].buffer_id by {
        if mid_st[ks].buffer_id == p.0.id {
            assert(f[idx].buffer_id == p.0.id);
        } else {
            assert(ks < st.len());
            assert(mid_st[ks] == st[ks]);
            let k = choose|k: int|
                0 <= k < ex.len() && (#[trigger] st[ks]).buffer_id == ex[k].buffer_id;
            if k < idx {
                assert(f[k] == ex[k]);
            } else {
                assert(f[k + 1] == ex[k]);
            }
        }
    }
    // every excerpt still has a state entry
    assert forall|k: int| 0 <= k < f.len() implies has_state(
        mid_st,
        (#[trigger] f[k]).buffer_id,
    ) by {
        if k == idx {
            lemma_state_membership(st, mid_st, p.0, e.buffer_id);
        } else {
            let k0 = if k < idx {
                k
            } else {
                k - 1
            };
            assert(f[k] == ex[k0]);
            lemma_state_membership(st, mid_st, p.0, ex[k0].buffer_id);
        }
    }
    // path congruence between excerpts and state entries
    assert forall|k: int, ks: int|
        0 <= k < f.len() && 0 <= ks < mid_st.len() && (#[trigger] f[k]).buffer_id == (
        #[trigger] mid_st[ks]).buffer_id implies e_path(f[k]) == opt_path_view(
        mid_st[ks].initial_path,
    ) by {
        let k0 = if k < idx {
            k
        } else {
            k - 1
        };
        if mid_st[ks].buffer_id == p.0.id {
            assert(opt_path_view(mid_st[ks].initial_path) == frozen_path(st, p.0));
            if k == idx {
            } else {
                assert(f[k] == ex[k0]);
                assert(ex[k0].buffer_id == p.0.id);
                assert(has_state(st, p.0.id));
                let ks0 = choose|ks0: int|
                    0 <= ks0 < st.len() && st[ks0].buffer_id == p.0.id;
                assert(e_path(ex[k0]) == opt_path_view(st[ks0].initial_path));
                lemma_state_path_at(st, ks0);
            }
        } else {
            assert(ks < st.len());
            assert(mid_st[ks] == st[ks]);
            assert(k != idx);
            assert(f[k] == ex[k0]);
        }
    }
}


/// Whether any removal pair hits this excerpt.
fn pair_hits(pairs: &Vec<(Buffer, ExcerptRange)>, e: &Excerpt) -> (r: bool)
    ensures
        r == removed_by(pairs@, *e),
{
    let mut i: usize = 0;
    while i < pairs.len()
        invariant
            i <= pairs@.len(),
            forall|j: int| 0 <= j < i ==> !pair_removes(#[trigger] pairs@[j], *e),
        decreases pairs@.len() - i,
    {
        let p = &pairs[i];
        if !p.0.closed && p.1.start <= p.1.end && e.buffer_id == p.0.id && ((p.1.start
            < e.range.end && e.range.start < p.1.end) || (p.1.start == e.range.start && p.1.end
            == e.range.end)) {
            proof {
                assert(pair_removes(pairs@[i as int], *e));
            }
            return true;
        }
        i = i + 1;
    }
    false
}

/// Whether some excerpt of buffer `id` is present.
fn buffer_has_excerpt(v: &Vec<Excerpt>, id: u64) -> (r: bool)
    ensures
        r == exists|k: int| 0 <= k < v@.len() && (#[trigger] v@[k]).buffer_id == id,
{
    let mut k: usize = 0;
    while k < v.len()
        invariant
            k <= v@.len(),
            forall|j: int| 0 <= j < k ==> (#[trigger] v@[j]).buffer_id != id,
        decreases v@.len() - k,
    {
        if v[k].buffer_id == id {
            return true;
        }
        k = k + 1;
    }
    false
}

/// Publishes the outcome of one mutation: bumps `edit_count` by the
/// number of excerpts touched, bumps the trailing counter if the trailing
/// excerpt changed, recomputes the aggregate flags (bumping the non-text
/// counter on a change), and appends the mutation's events.
#[verifier::rlimit(100)]
fn publish_mutation(
    snap: &mut MultiBufferSnapshot,
    events: &mut Vec<Event>,
    states: &Vec<BufferState>,
    touched: usize,
    reordered: bool,
    old_last: Option<u64>,
)
    requires
        old(snap).edit_count + touched <= usize::MAX,
        old(snap).trailing_excerpt_update_count + 1 <= usize::MAX,
        old(snap).non_text_state_update_count + 1 <= usize::MAX,
    ensures
        final(snap).singleton == old(snap).singleton,
        final(snap).excerpts == old(snap).excerpts,
        final(snap).edit_count == old(snap).edit_count + touched,
        final(snap).is_dirty == any_dirty(states@),
        final(snap).has_conflict == any_conflict(states@),
        final(snap).trailing_excerpt_update_count == old(snap).trailing_excerpt_update_count + (
        if last_excerpt_id(old(snap).excerpts@) != old_last {
            1int
        } else {
            0int
        }),
        final(snap).non_text_state_update_count == old(snap).non_text_state_update_count + (
        if final(snap).is_dirty != old(snap).is_dirty || final(snap).has_conflict != old(
            snap,
        ).has_conflict {
            1int
        } else {
            0int
        }),
        final(events)@ == old(events)@ + mutation_events(
            reordered,
            touched > 0,
            final(snap).is_dirty != old(snap).is_dirty || final(snap).has_conflict != old(
                snap,
            ).has_conflict,
            final(snap).edit_count,
        ),
{
    snap.edit_count = snap.edit_count + touched;
    let new_last = last_id(&snap.excerpts);
    let last_changed = match (old_last, new_last) {
        (Option::None, Option::None) => false,
        (Option::Some(a), Option::Some(b)) => a != b,
        _ => true,
    };
    if last_changed {
        snap.trailing_excerpt_update_count = snap.trailing_excerpt_update_count + 1;
    }
    let flags = compute_flags(states);
    let dirty_changed = flags.0 != snap.is_dirty || flags.1 != snap.has_conflict;
    snap.is_dirty = flags.0;
    snap.has_conflict = flags.1;
    if dirty_changed {
        snap.non_text_state_update_count = snap.non_text_state_update_count + 1;
    }
    let ec = snap.edit_count;
    let ghost events_before = events@;
    if reordered {
        events.push(Event::Reordered { edit_count: ec });
    } else if touched > 0 {
        events.push(Event::Edited { edit_count: ec });
    }
    if dirty_changed {
        events.push(Event::DirtyChanged { edit_count: ec });
    }
    proof {
        let main = if reordered {
            seq![Event::Reordered { edit_count: ec }]
        } else if touched > 0 {
            seq![Event::Edited { edit_count: ec }]
        } else {
            Seq::<Event>::empty()
        };
        let tail = if dirty_changed {
            seq![Event::DirtyChanged { edit_count: ec }]
        } else {
            Seq::<Event>::empty()
        };
        assert(events@ =~= events_before + (main + tail));
    }
}

/// The insertion batch holds at entry with no pair processed yet.
proof fn lemma_insert_inv_init(m: MultiBuffer, pairs: Seq<(Buffer, ExcerptRange)>)
    requires
        m.wf(),
    ensures
        insert_inv(
            m.snapshot.excerpts@,
            m.buffers@,
            pairs,
            m.next_excerpt_id,
            m.snapshot.excerpts@,
            m.buffers@,
            Seq::empty(),
            m.next_excerpt_id,
        ),
{
    let oex = m.snapshot.excerpts@;
    assert(forall|k: int| 0 <= k < oex.len() ==> is_old_excerpt(m.next_excerpt_id)(
        #[trigger] oex[k],
    ));
    lemma_filter_all(oex, is_old_excerpt(m.next_excerpt_id));
}

/// Whether one removal pair hits an excerpt: the pair is usable (open
/// handle, ordered range), names the excerpt's buffer, and its range
/// intersects the excerpt's range. Hit excerpts are removed whole.
pub open spec fn pair_removes(p: (Buffer, ExcerptRange), e: Excerpt) -> bool {
    !p.0.closed && p.1.start <= p.1.end && e.buffer_id == p.0.id && ranges_intersect(p.1, e.range)
}

/// Whether any pair of the batch hits the excerpt.
pub open spec fn removed_by(pairs: Seq<(Buffer, ExcerptRange)>, e: Excerpt) -> bool {
    exists|i: int| 0 <= i < pairs.len() && pair_removes(#[trigger] pairs[i], e)
}

/// The predicate selecting the excerpts a removal batch keeps.
pub open spec fn keeps(pairs: Seq<(Buffer, ExcerptRange)>) -> spec_fn(Excerpt) -> bool {
    |e: Excerpt| !removed_by(pairs, e)
}

/// The predicate selecting the excerpts a removal batch drops.
pub open spec fn removes(pairs: Seq<(Buffer, ExcerptRange)>) -> spec_fn(Excerpt) -> bool {
    |e: Excerpt| removed_by(pairs, e)
}

/// The id of an excerpt, for reporting removed sets.
pub open spec fn id_of() -> spec_fn(Excerpt) -> u64 {
    |e: Excerpt| e.id
}

/// The predicate selecting state entries whose buffer still has an
/// excerpt in `fex`.
pub open spec fn state_keeper(fex: Seq<Excerpt>) -> spec_fn(BufferState) -> bool {
    |st: BufferState| exists|k: int| 0 <= k < fex.len() && (#[trigger] fex[k]).buffer_id == st.buffer_id
}

/// The per-pair verdict of a removal batch: a closed handle is rejected,
/// then an unordered range; every other pair applies.
pub open spec fn remove_verdict(
    pairs: Seq<(Buffer, ExcerptRange)>,
    res: Seq<Result<(), ExcerptError>>,
    i: int,
) -> bool {
    let p = pairs[i];
    &&& ((res[i] == Result::<(), ExcerptError>::Err(ExcerptError::BufferClosed)) <==> p.0.closed)
    &&& ((res[i] == Result::<(), ExcerptError>::Err(ExcerptError::InvalidRange)) <==> (!p.0.closed
        && p.1.start > p.1.end))
    &&& ((res[i] is Ok) <==> (!p.0.closed && p.1.start <= p.1.end))
}

/// Filtering never increases the total footprint.
proof fn lemma_total_fp_filter_le(s: Seq<Excerpt>, p: spec_fn(Excerpt) -> bool)
    ensures
        total_fp(s.filter(p)) <= total_fp(s),
    decreases s.len(),
{
    reveal(Seq::filter);
    if s.len() > 0 {
        let d = s.drop_last();
        lemma_total_fp_filter_le(d, p);
        if p(s.last()) {
            assert(s.filter(p) =~= d.filter(p).push(s.last()));
            assert(d.filter(p).push(s.last()).drop_last() =~= d.filter(p));
        }
    }
}

/// Filtering keeps state ids unique.
proof fn lemma_filter_state_unique(s: Seq<BufferState>, p: spec_fn(BufferState) -> bool)
    requires
        unique_state_ids(s),
    ensures
        unique_state_ids(s.filter(p)),
        forall|k: int|
            0 <= k < s.filter(p).len() ==> s.contains(#[trigger] s.filter(p)[k]),
    decreases s.len(),
{
    reveal(Seq::filter);
    if s.len() > 0 {
        let d = s.drop_last();
        assert(unique_state_ids(d));
        lemma_filter_state_unique(d, p);
        let fd = d.filter(p);
        assert forall|k: int| 0 <= k < fd.len() implies s.contains(#[trigger] fd[k]) by {
            assert(d.contains(fd[k]));
            let m = choose|m: int| 0 <= m < d.len() && d[m] == fd[k];
            assert(s[m] == fd[k]);
        }
        if p(s.last()) {
            let f = s.filter(p);
            assert(f =~= fd.push(s.last()));
            assert forall|i: int, j: int| 0 <= i < j < f.len() implies (
            #[trigger] f[i].buffer_id) != (#[trigger] f[j].buffer_id) by {
                if j < f.len() - 1 {
                    assert(f[i] == fd[i] && f[j] == fd[j]);
                } else {
                    assert(f[i] == fd[i]);
                    assert(d.contains(fd[i]));
                    let m = choose|m: int| 0 <= m < d.len() && d[m] == fd[i];
                    assert(s[m] == fd[i]);
                    assert(s[m].buffer_id != s.last().buffer_id);
                }
            }
        }
    }
}

/// Helper for removal: hit excerpts are exactly the filtered-out ones, so
/// after a removal batch no kept excerpt is hit by any pair.
pub proof fn lemma_removal_complete(
    oex: Seq<Excerpt>,
    pairs: Seq<(Buffer, ExcerptRange)>,
    k: int,
)
    requires
        0 <= k < oex.filter(keeps(pairs)).len(),
    ensures
        !removed_by(pairs, oex.filter(keeps(pairs))[k]),
{
    oex.lemma_filter_pred(keeps(pairs), k);
}

/// Filtering a strictly sorted, disjoint, well-formed excerpt sequence
/// preserves all of that, and keeps only members of the original.
proof fn lemma_filter_excerpts_props(s: Seq<Excerpt>, p: spec_fn(Excerpt) -> bool)
    requires
        sorted(s),
        disjoint(s),
        unique_ids(s),
        forall|k: int| 0 <= k < s.len() ==> excerpt_wf(#[trigger] s[k]),
    ensures
        sorted(s.filter(p)),
        disjoint(s.filter(p)),
        unique_ids(s.filter(p)),
        forall|k: int| 0 <= k < s.filter(p).len() ==> excerpt_wf(#[trigger] s.filter(p)[k]),
        forall|k: int| 0 <= k < s.filter(p).len() ==> s.contains(#[trigger] s.filter(p)[k]),
    decreases s.len(),
{
    reveal(Seq::filter);
    if s.len() > 0 {
        let d = s.drop_last();
        assert(sorted(d) && disjoint(d) && unique_ids(d));
        assert(forall|k: int| 0 <= k < d.len() ==> excerpt_wf(#[trigger] d[k]));
        lemma_filter_excerpts_props(d, p);
        let fd = d.filter(p);
        assert forall|k: int| 0 <= k < fd.len() implies s.contains(#[trigger] fd[k]) by {
            assert(d.contains(fd[k]));
            let m = choose|m: int| 0 <= m < d.len() && d[m] == fd[k];
            assert(s[m] == fd[k]);
        }
        if p(s.last()) {
            let f = s.filter(p);
            assert(f =~= fd.push(s.last()));
            assert forall|i: int, j: int| 0 <= i < j < f.len() implies key_lt(
                #[trigger] f[i],
                #[trigger] f[j],
            ) && f[i].id != f[j].id by {
                if j < f.len() - 1 {
                    assert(f[i] == fd[i] && f[j] == fd[j]);
                } else {
                    assert(f[i] == fd[i]);
                    assert(d.contains(fd[i]));
                    let m = choose|m: int| 0 <= m < d.len() && d[m] == fd[i];
                    assert(s[m] == fd[i] && m < s.len() - 1);
                    assert(key_lt(s[m], s[s.len() - 1]));
                }
            }
            assert forall|i: int, j: int|
                0 <= i < f.len() && 0 <= j < f.len() && i != j && (#[trigger] f[i]).buffer_id == (
                #[trigger] f[j]).buffer_id implies !ranges_conflict(f[i].range, f[j].range) by {
                let a = if i < j {
                    i
                } else {
                    j
                };
                let b = if i < j {
                    j
                } else {
                    i
                };
                if b < f.len() - 1 {
                    assert(f[a] == fd[a] && f[b] == fd[b]);
                } else {
                    assert(f[a] == fd[a]);
                    assert(d.contains(fd[a]));
                    let m = choose|m: int| 0 <= m < d.len() && d[m] == fd[a];
                    assert(s[m] == fd[a] && m != s.len() - 1);
                }
            }
            assert forall|k: int| 0 <= k < f.len() implies excerpt_wf(#[trigger] f[k]) by {
                if k < f.len() - 1 {
                    assert(f[k] == fd[k]);
                }
            }
        }
    }
}

/// After a removal batch, the rebuilt controller is well-formed.
#[verifier::rlimit(100)]
proof fn lemma_remove_wf(m: MultiBuffer, o: MultiBuffer, pairs: Seq<(Buffer, ExcerptRange)>)
    requires
        o.wf(),
        !m.snapshot.singleton,
        m.snapshot.excerpts@ == o.snapshot.excerpts@.filter(keeps(pairs)),
        m.buffers@ == o.buffers@.filter(state_keeper(m.snapshot.excerpts@)),
        m.next_excerpt_id == o.next_excerpt_id,
        m.snapshot.is_dirty == any_dirty(m.buffers@),
        m.snapshot.has_conflict == any_conflict(m.buffers@),
    ensures
        m.wf(),
{
    let oex = o.snapshot.excerpts@;
    let fex = m.snapshot.excerpts@;
    let ost = o.buffers@;
    let nst = m.buffers@;
    lemma_total_fp_filter_le(oex, keeps(pairs));
    lemma_filter_state_unique(ost, state_keeper(fex));
    lemma_filter_excerpts_props(oex, keeps(pairs));
    assert forall|k: int| 0 <= k < fex.len() implies (#[trigger] fex[k]).id
        < m.next_excerpt_id by {
        assert(oex.contains(fex[k]));
        let k0 = choose|k0: int| 0 <= k0 < oex.len() && oex[k0] == fex[k];
    }
    assert forall|ks: int| 0 <= ks < nst.len() implies exists|k: int|
        0 <= k < fex.len() && (#[trigger] nst[ks]).buffer_id == fex[k].buffer_id by {
        ost.lemma_filter_pred(state_keeper(fex), ks);
    }
    assert forall|k: int| 0 <= k < fex.len() implies has_state(
        nst,
        (#[trigger] fex[k]).buffer_id,
    ) by {
        assert(oex.contains(fex[k]));
        let k0 = choose|k0: int| 0 <= k0 < oex.len() && oex[k0] == fex[k];
        let bid = fex[k].buffer_id;
        assert(has_state(ost, bid));
        let ks0 = choose|ks0: int| 0 <= ks0 < ost.len() && ost[ks0].buffer_id == bid;
        assert(state_keeper(fex)(ost[ks0]));
        ost.lemma_filter_contains(state_keeper(fex), ks0);
        assert(nst.contains(ost[ks0]));
        let ksn = choose|ksn: int| 0 <= ksn < nst.len() && nst[ksn] == ost[ks0];
        assert(nst[ksn].buffer_id == bid);
    }
    assert forall|k: int, ks: int|
        0 <= k < fex.len() && 0 <= ks < nst.len() && (#[trigger] fex[k]).buffer_id == (
        #[trigger] nst[ks]).buffer_id implies e_path(fex[k]) == opt_path_view(
        nst[ks].initial_path,
    ) by {
        assert(oex.contains(fex[k]));
        let k0 = choose|k0: int| 0 <= k0 < oex.len() && oex[k0] == fex[k];
        assert(ost.contains(nst[ks]));
        let ks0 = choose|ks0: int| 0 <= ks0 < ost.len() && ost[ks0] == nst[ks];
        assert(e_path(oex[k0]) == opt_path_view(ost[ks0].initial_path));
    }
}

/// After a batch, a controller whose flags are recomputed is well-formed.
proof fn lemma_wf_from_inv(
    m: MultiBuffer,
    oex: Seq<Excerpt>,
    ost: Seq<BufferState>,
    pairs: Seq<(Buffer, ExcerptRange)>,
    n0: u64,
    res: Seq<Result<u64, ExcerptError>>,
)
    requires
        insert_inv(oex, ost, pairs, n0, m.snapshot.excerpts@, m.buffers@, res, m.next_excerpt_id),
        total_fp(m.snapshot.excerpts@) <= usize::MAX,
        m.snapshot.is_dirty == any_dirty(m.buffers@),
        m.snapshot.has_conflict == any_conflict(m.buffers@),
        !m.snapshot.singleton,
    ensures
        m.wf(),
{
}

/// Processes an insertion batch pair by pair against the excerpt set, the
/// state map, and the id counter; returns the per-pair results and the
/// number of accepted pairs.
#[verifier::rlimit(100)]
fn insert_batch(
    excerpts: &mut Vec<Excerpt>,
    states: &mut Vec<BufferState>,
    next: &mut u64,
    pairs: &Vec<(Buffer, ExcerptRange)>,
) -> (out: (Vec<Result<u64, ExcerptError>>, usize))
    requires
        buffers_agree(pairs@),
        insert_inv(
            old(excerpts)@,
            old(states)@,
            pairs@,
            *old(next),
            old(excerpts)@,
            old(states)@,
            Seq::empty(),
            *old(next),
        ),
        *old(next) + pairs@.len() <= u64::MAX,
        total_fp(old(excerpts)@) + insert_budget(pairs@) <= usize::MAX,
    ensures
        out.0@.len() == pairs@.len(),
        out.1 as int == ok_count(out.0@),
        out.1 <= pairs@.len(),
        insert_inv(
            old(excerpts)@,
            old(states)@,
            pairs@,
            *old(next),
            final(excerpts)@,
            final(states)@,
            out.0@,
            *final(next),
        ),
        total_fp(final(excerpts)@) <= usize::MAX,
        *final(next) == *old(next) + out.1,
{
    let ghost oex = old(excerpts)@;
    let ghost ost = old(states)@;
    let ghost n0 = *old(next);
    let mut res: Vec<Result<u64, ExcerptError>> = Vec::new();
    let mut added: usize = 0;
    let mut i: usize = 0;
    proof {
        assert(pairs@.skip(0) =~= pairs@);
    }
    while i < pairs.len()
        invariant
            i <= pairs@.len(),
            res@.len() == i as int,
            added as int == ok_count(res@),
            added <= i,
            buffers_agree(pairs@),
            n0 + pairs@.len() <= u64::MAX,
            *next == n0 + added,
            total_fp(excerpts@) + insert_budget(pairs@.skip(i as int)) <= usize::MAX,
            insert_inv(oex, ost, pairs@, n0, excerpts@, states@, res@, *next),
        decreases pairs@.len() - i,
    {
        let ghost pre_res = res@;
        let ghost pre_ex = excerpts@;
        let ghost pre_st = states@;
        let pair = &pairs[i];
        let rg = pair.1;
        proof {
            lemma_insert_budget_skip(pairs@, i as int);
            lemma_insert_budget_nonneg(pairs@.skip(i + 1));
        }
        if pair.0.closed {
            res.push(Result::Err(ExcerptError::BufferClosed));
            proof {
                lemma_ok_count_push(pre_res, Result::Err(ExcerptError::BufferClosed));
                lemma_reject_step(
                    oex,
                    ost,
                    pairs@,
                    n0,
                    pre_ex,
                    pre_st,
                    pre_res,
                    *next,
                    ExcerptError::BufferClosed,
                );
            }
        } else if !(rg.start <= rg.end && rg.end <= pair.0.text.len()) {
            res.push(Result::Err(ExcerptError::InvalidRange));
            proof {
                lemma_ok_count_push(pre_res, Result::Err(ExcerptError::InvalidRange));
                assert(!pair_range_ok(pairs@[i as int]));
                lemma_reject_step(
                    oex,
                    ost,
                    pairs@,
                    n0,
                    pre_ex,
                    pre_st,
                    pre_res,
                    *next,
                    ExcerptError::InvalidRange,
                );
            }
        } else {
            let conflict = conflicts_existing(excerpts, pair.0.id, rg);
            proof {
                lemma_conflict_equiv(oex, ost, pairs@, n0, pre_ex, pre_st, pre_res, *next);
                assert(conflict == overlaps_existing(pre_ex, pairs@[i as int]));
            }
            if conflict {
                res.push(Result::Err(ExcerptError::Overlap));
                proof {
                    lemma_ok_count_push(pre_res, Result::Err(ExcerptError::Overlap));
                    assert(reject_reason(oex, pairs@, pre_res, i as int, ExcerptError::Overlap));
                    lemma_reject_step(
                        oex,
                        ost,
                        pairs@,
                        n0,
                        pre_ex,
                        pre_st,
                        pre_res,
                        *next,
                        ExcerptError::Overlap,
                    );
                }
            } else {
                let path = get_or_create_state(states, &pair.0);
                let id = *next;
                let e = make_excerpt(id, &pair.0, rg, path);
                let idx = insert_sorted(excerpts, e);
                *next = *next + 1;
                res.push(Result::Ok(id));
                added = added + 1;
                proof {
                    lemma_ok_count_push(pre_res, Result::Ok(id));
                    assert(state_update(pre_st, states@, pairs@[i as int].0));
                    assert(excerpts@ == pre_ex.insert(idx as int, e));
                    lemma_accept_step(
                        oex,
                        ost,
                        pairs@,
                        n0,
                        pre_ex,
                        pre_st,
                        states@,
                        pre_res,
                        id,
                        e,
                        idx as int,
                    );
                    assert(res@ == pre_res.push(Result::Ok(id)));
                    assert(footprint(e) <= pair_budget(pairs@[i as int]));
                    assert(total_fp(excerpts@) == total_fp(pre_ex) + footprint(e));
                }
            }
        }
        i = i + 1;
        proof {
            assert(pairs@.skip(i - 1).skip(1) =~= pairs@.skip(i as int));
        }
    }
    proof {
        assert(pairs@.skip(pairs@.len() as int) =~= Seq::<(Buffer, ExcerptRange)>::empty());
        lemma_ok_count_bounds(res@);
        lemma_insert_budget_nonneg(pairs@.skip(pairs@.len() as int));
    }
    (res, added)
}

impl MultiBuffer {
    /// Invariant of the controller: the snapshot is well-formed, the state
    /// map holds exactly the buffers that have excerpts (with unique ids
    /// and the frozen paths the excerpts use), excerpt ids stay below the
    /// id counter, and the aggregate flags are the OR over the states.
    pub open spec fn wf(self) -> bool {
        &&& self.snapshot.wf()
        &&& unique_state_ids(self.buffers@)
        &&& forall|i: int|
            0 <= i < self.buffers@.len() ==> exists|k: int|
                0 <= k < self.snapshot.excerpts@.len() && (#[trigger] self.buffers@[i]).buffer_id
                    == self.snapshot.excerpts@[k].buffer_id
        &&& forall|k: int|
            0 <= k < self.snapshot.excerpts@.len() ==> has_state(
                self.buffers@,
                (#[trigger] self.snapshot.excerpts@[k]).buffer_id,
            )
        &&& forall|k: int, i: int|
            0 <= k < self.snapshot.excerpts@.len() && 0 <= i < self.buffers@.len() && (
            #[trigger] self.snapshot.excerpts@[k]).buffer_id == (
            #[trigger] self.buffers@[i]).buffer_id ==> e_path(self.snapshot.excerpts@[k])
                == opt_path_view(self.buffers@[i].initial_path)
        &&& forall|k: int|
            0 <= k < self.snapshot.excerpts@.len() ==> (#[trigger] self.snapshot.excerpts@[k]).id
                < self.next_excerpt_id
        &&& self.snapshot.is_dirty == any_dirty(self.buffers@)
        &&& self.snapshot.has_conflict == any_conflict(self.buffers@)
        &&& (self.snapshot.singleton ==> self.snapshot.excerpts@.len() == 1 && self.buffers@.len()
            == 1)
    }

    /// Whether excerpt management is disabled on this multi-buffer.
    pub open spec fn is_singleton(self) -> bool {
        self.snapshot.singleton
    }

    /// Creates an empty, managed multi-buffer.
    pub fn new() -> (m: MultiBuffer)
        ensures
            m.wf(),
            !m.is_singleton(),
            m.snapshot.excerpts@.len() == 0,
            m.snapshot.edit_count == 0,
            m.snapshot.trailing_excerpt_update_count == 0,
            m.snapshot.non_text_state_update_count == 0,
            !m.snapshot.is_dirty,
            !m.snapshot.has_conflict,
            m.buffers@.len() == 0,
            m.next_excerpt_id == 0,
            m.events@.len() == 0,
    {
        MultiBuffer {
            snapshot: MultiBufferSnapshot {
                singleton: false,
                excerpts: Vec::new(),
                edit_count: 0,
                trailing_excerpt_update_count: 0,
                non_text_state_update_count: 0,
                is_dirty: false,
                has_conflict: false,
            },
            buffers: Vec::new(),
            next_excerpt_id: 0,
            events: Vec::new(),
        }
    }

    /// Creates a singleton multi-buffer: it wraps exactly one buffer with
    /// one excerpt covering its entire content, and excerpt management is
    /// disabled on it.
    pub fn singleton(buffer: &Buffer) -> (m: MultiBuffer)
        requires
            !buffer.closed,
            buffer.text@.len() + 1 <= usize::MAX,
        ensures
            m.wf(),
            m.is_singleton(),
            m.snapshot.excerpts@.len() == 1,
            m.snapshot.excerpts@[0].buffer_id == buffer.id,
            m.snapshot.excerpts@[0].range.start == 0,
            m.snapshot.excerpts@[0].range.end == buffer.text@.len(),
            e_path(m.snapshot.excerpts@[0]) == opt_path_view(buffer.path),
            m.snapshot.excerpts@[0].buffer_snapshot.text@ == buffer.text@,
            m.snapshot.edit_count == 0,
            m.snapshot.is_dirty == buffer.is_dirty,
            m.snapshot.has_conflict == buffer.has_conflict,
            m.events@.len() == 0,
    {
        let path_for_state = copy_path(&buffer.path);
        let path_for_excerpt = copy_path(&buffer.path);
        let range = ExcerptRange { start: 0, end: buffer.text.len() };
        let e = make_excerpt(0, buffer, range, path_for_excerpt);
        let mut excerpts: Vec<Excerpt> = Vec::new();
        excerpts.push(e);
        let mut buffers: Vec<BufferState> = Vec::new();
        buffers.push(
            BufferState {
                buffer_id: buffer.id,
                initial_path: path_for_state,
                is_dirty: buffer.is_dirty,
                has_conflict: buffer.has_conflict,
            },
        );
        let m = MultiBuffer {
            snapshot: MultiBufferSnapshot {
                singleton: true,
                excerpts,
                edit_count: 0,
                trailing_excerpt_update_count: 0,
                non_text_state_update_count: 0,
                is_dirty: buffer.is_dirty,
                has_conflict: buffer.has_conflict,
            },
            buffers,
            next_excerpt_id: 1,
            events: Vec::new(),
        };
        proof {
            let s = m.snapshot.excerpts@;
            assert(s.drop_last() =~= Seq::<Excerpt>::empty());
            assert(total_fp(Seq::<Excerpt>::empty()) == 0);
            assert(s.last() == e);
            assert(total_fp(s) == footprint(e));
            assert(has_state(m.buffers@, e.buffer_id)) by {
                assert(m.buffers@[0].buffer_id == e.buffer_id);
            }
            if buffer.is_dirty {
                assert(any_dirty(m.buffers@)) by {
                    assert(m.buffers@[0].is_dirty);
                }
            }
            if buffer.has_conflict {
                assert(any_conflict(m.buffers@)) by {
                    assert(m.buffers@[0].has_conflict);
                }
            }
        }
        m
    }

    /// Publishes the current contents as an immutable snapshot value.
    /// The returned snapshot shares nothing mutable with the controller:
    /// later mutations of `self` cannot change it.
    pub fn snapshot(&self) -> (s: MultiBufferSnapshot)
        ensures
            same_snapshot(s, self.snapshot),
            self.snapshot.wf() ==> s.wf(),
    {
        let src = &self.snapshot.excerpts;
        let mut excerpts: Vec<Excerpt> = Vec::new();
        let mut i: usize = 0;
        while i < src.len()
            invariant
                i <= src@.len(),
                same_excerpts(excerpts@, src@.take(i as int)),
            decreases src@.len() - i,
        {
            excerpts.push(copy_excerpt(&src[i]));
            proof {
                assert(src@.take(i + 1) =~= src@.take(i as int).push(src@[i as int]));
            }
            i = i + 1;
        }
        proof {
            assert(src@.take(src@.len() as int) =~= src@);
        }
        let s = MultiBufferSnapshot {
            singleton: self.snapshot.singleton,
            excerpts,
            edit_count: self.snapshot.edit_count,
            trailing_excerpt_update_count: self.snapshot.trailing_excerpt_update_count,
            non_text_state_update_count: self.snapshot.non_text_state_update_count,
            is_dirty: self.snapshot.is_dirty,
            has_conflict: self.snapshot.has_conflict,
        };
        proof {
            if self.snapshot.wf() {
                lemma_same_snapshot_wf(s, self.snapshot);
            }
        }
        s
    }

    /// Inserts excerpts (managed mode only). Pairs are evaluated in
    /// order and accepted or rejected one by one: a closed handle, an
    /// invalid range, or an overlap with an existing or earlier accepted
    /// excerpt of the same buffer rejects only that pair. Each accepted
    /// pair creates one excerpt keyed by its buffer's frozen path: the
    /// path recorded when the buffer's first excerpt was created, or, for
    /// a buffer new to this multi-buffer, the handle's current path,
    /// recorded now. On a singleton multi-buffer the whole call fails with
    /// `SingletonViolation` and nothing changes. Afterwards `edit_count`
    /// has grown by the number of excerpts added, and a single `Reordered`
    /// event was emitted if an added excerpt sorts before a pre-existing
    /// one (else `Edited` if anything was added), then `DirtyChanged` if
    /// the aggregate flags changed.
    #[verifier::rlimit(100)]
    pub fn insert_excerpts(&mut self, pairs: &Vec<(Buffer, ExcerptRange)>) -> (r: Result<
        Vec<Result<u64, ExcerptError>>,
        ExcerptError,
    >)
        requires
            old(self).wf(),
            buffers_agree(pairs@),
            old(self).next_excerpt_id + pairs@.len() <= u64::MAX,
            old(self).snapshot.edit_count + pairs@.len() <= usize::MAX,
            old(self).snapshot.trailing_excerpt_update_count + 1 <= usize::MAX,
            old(self).snapshot.non_text_state_update_count + 1 <= usize::MAX,
            total_fp(old(self).snapshot.excerpts@) + insert_budget(pairs@) <= usize::MAX,
        ensures
            final(self).wf(),
            final(self).is_singleton() == old(self).is_singleton(),
            final(self).snapshot.edit_count >= old(self).snapshot.edit_count,
            old(self).is_singleton() ==> r == Result::<Vec<Result<u64, ExcerptError>>,
                ExcerptError,
            >::Err(ExcerptError::SingletonViolation) && *final(self) == *old(self),
            !old(self).is_singleton() ==> r is Ok && ({
                let res = r->Ok_0@;
                let oex = old(self).snapshot.excerpts@;
                let ost = old(self).buffers@;
                let n0 = old(self).next_excerpt_id;
                let fex = final(self).snapshot.excerpts@;
                let dirty_changed = final(self).snapshot.is_dirty != old(self).snapshot.is_dirty
                    || final(self).snapshot.has_conflict != old(self).snapshot.has_conflict;
                &&& res.len() == pairs@.len()
                &&& insert_inv(
                    oex,
                    ost,
                    pairs@,
                    n0,
                    fex,
                    final(self).buffers@,
                    res,
                    final(self).next_excerpt_id,
                )
                &&& final(self).snapshot.edit_count == old(self).snapshot.edit_count + ok_count(
                    res,
                )
                &&& final(self).snapshot.trailing_excerpt_update_count == old(
                    self,
                ).snapshot.trailing_excerpt_update_count + (if last_excerpt_id(fex)
                    != last_excerpt_id(oex) {
                    1int
                } else {
                    0int
                })
                &&& final(self).snapshot.non_text_state_update_count == old(
                    self,
                ).snapshot.non_text_state_update_count + (if dirty_changed {
                    1int
                } else {
                    0int
                })
                &&& final(self).events@ == old(self).events@ + mutation_events(
                    reordered_after(n0, fex),
                    ok_count(res) > 0,
                    dirty_changed,
                    final(self).snapshot.edit_count,
                )
            }),
    {
        if self.snapshot.singleton {
            return Result::Err(ExcerptError::SingletonViolation);
        }
        let ghost o = *old(self);
        let ghost oex = o.snapshot.excerpts@;
        let ghost ost = o.buffers@;
        let n0 = self.next_excerpt_id;
        let old_last = last_id(&self.snapshot.excerpts);
        proof {
            lemma_insert_inv_init(*self, pairs@);
        }
        let batch = insert_batch(
            &mut self.snapshot.excerpts,
            &mut self.buffers,
            &mut self.next_excerpt_id,
            pairs,
        );
        let res = batch.0;
        let added = batch.1;
        proof {
            lemma_ok_count_bounds(res@);
        }
        let reord = is_reordered(&self.snapshot.excerpts, n0);
        publish_mutation(&mut self.snapshot, &mut self.events, &self.buffers, added, reord, old_last);
        proof {
            lemma_wf_from_inv(*self, oex, ost, pairs@, n0, res@);
        }
        Result::Ok(res)
    }

    /// Removes every excerpt whose buffer matches a usable pair and whose
    /// range intersects the pair's range; hit excerpts are removed whole.
    /// Per pair, a closed handle or an unordered range is rejected without
    /// effect. On a singleton multi-buffer the whole call fails with
    /// `SingletonViolation` and nothing changes. A buffer whose last
    /// excerpt is removed loses its state entry, so a later insertion
    /// freezes that buffer's path anew. Removal never reorders the kept
    /// excerpts and never emits `Reordered`; the ids of the removed
    /// excerpts are returned so callers can invalidate anchors into them.
    #[verifier::rlimit(100)]
    pub fn remove_excerpts(&mut self, pairs: &Vec<(Buffer, ExcerptRange)>) -> (r: Result<
        (Vec<Result<(), ExcerptError>>, Vec<u64>),
        ExcerptError,
    >)
        requires
            old(self).wf(),
            old(self).snapshot.edit_count + old(self).snapshot.excerpts@.len() <= usize::MAX,
            old(self).snapshot.trailing_excerpt_update_count + 1 <= usize::MAX,
            old(self).snapshot.non_text_state_update_count + 1 <= usize::MAX,
        ensures
            final(self).wf(),
            final(self).is_singleton() == old(self).is_singleton(),
            final(self).snapshot.edit_count >= old(self).snapshot.edit_count,
            old(self).is_singleton() ==> r == Result::<
                (Vec<Result<(), ExcerptError>>, Vec<u64>),
                ExcerptError,
            >::Err(ExcerptError::SingletonViolation) && *final(self) == *old(self),
            !old(self).is_singleton() ==> r is Ok && ({
                let pr = r->Ok_0.0@;
                let removed = r->Ok_0.1@;
                let oex = old(self).snapshot.excerpts@;
                let fex = final(self).snapshot.excerpts@;
                let dirty_changed = final(self).snapshot.is_dirty != old(self).snapshot.is_dirty
                    || final(self).snapshot.has_conflict != old(self).snapshot.has_conflict;
                &&& pr.len() == pairs@.len()
                &&& (forall|m: int| 0 <= m < pairs@.len() ==> remove_verdict(pairs@, pr, m))
                &&& fex == oex.filter(keeps(pairs@))
                &&& removed == oex.filter(removes(pairs@)).map_values(id_of())
                &&& removed.len() + fex.len() == oex.len()
                &&& final(self).buffers@ == old(self).buffers@.filter(state_keeper(fex))
                &&& final(self).next_excerpt_id == old(self).next_excerpt_id
                &&& final(self).snapshot.edit_count == old(self).snapshot.edit_count
                    + removed.len()
                &&& final(self).snapshot.trailing_excerpt_update_count == old(
                    self,
                ).snapshot.trailing_excerpt_update_count + (if last_excerpt_id(fex)
                    != last_excerpt_id(oex) {
                    1int
                } else {
                    0int
                })
                &&& final(self).snapshot.non_text_state_update_count == old(
                    self,
                ).snapshot.non_text_state_update_count + (if dirty_changed {
                    1int
                } else {
                    0int
                })
                &&& final(self).events@ == old(self).events@ + mutation_events(
                    false,
                    removed.len() > 0,
                    dirty_changed,
                    final(self).snapshot.edit_count,
                )
            }),
    {
        if self.snapshot.singleton {
            return Result::Err(ExcerptError::SingletonViolation);
        }
        let ghost o = *old(self);
        let ghost oex = o.snapshot.excerpts@;
        let ghost ost = o.buffers@;
        let old_last = last_id(&self.snapshot.excerpts);
        let mut pr: Vec<Result<(), ExcerptError>> = Vec::new();
        let mut m: usize = 0;
        while m < pairs.len()
            invariant
                m <= pairs@.len(),
                pr@.len() == m as int,
                forall|j: int| 0 <= j < m ==> remove_verdict(pairs@, pr@, j),
            decreases pairs@.len() - m,
        {
            let ghost pre_pr = pr@;
            let p = &pairs[m];
            let closed = p.0.closed;
            let bad = p.1.start > p.1.end;
            if closed {
                pr.push(Result::Err(ExcerptError::BufferClosed));
            } else if bad {
                pr.push(Result::Err(ExcerptError::InvalidRange));
            } else {
                pr.push(Result::Ok(()));
            }
            proof {
                assert(remove_verdict(pairs@, pr@, m as int));
                assert forall|j: int| 0 <= j < m + 1 implies remove_verdict(pairs@, pr@, j) by {
                    if j < m {
                        assert(pr@[j] == pre_pr[j]);
                        assert(remove_verdict(pairs@, pre_pr, j));
                    }
                }
            }
            m = m + 1;
        }
        let mut rem_ids: Vec<u64> = Vec::new();
        let mut k: usize = 0;
        let ghost j: int = 0;
        proof {
            assert(oex.take(0).filter(keeps(pairs@)) =~= Seq::<Excerpt>::empty());
            assert(oex.take(0).filter(removes(pairs@)) =~= Seq::<Excerpt>::empty());
            assert(Seq::<Excerpt>::empty().filter(keeps(pairs@)) =~= Seq::<Excerpt>::empty());
            assert(Seq::<Excerpt>::empty().filter(removes(pairs@)) =~= Seq::<Excerpt>::empty());
            assert(self.snapshot.excerpts@ =~= oex.take(0).filter(keeps(pairs@)) + oex.skip(0));
            assert(rem_ids@ =~= oex.take(0).filter(removes(pairs@)).map_values(id_of()));
        }
        while k < self.snapshot.excerpts.len()
            invariant
                0 <= j <= oex.len(),
                self.snapshot.excerpts@ == oex.take(j).filter(keeps(pairs@)) + oex.skip(j),
                k as int == oex.take(j).filter(keeps(pairs@)).len(),
                rem_ids@ == oex.take(j).filter(removes(pairs@)).map_values(id_of()),
                rem_ids@.len() + k as int == j,
                self.buffers@ == ost,
                self.snapshot.singleton == false,
                self.snapshot.edit_count == o.snapshot.edit_count,
                self.snapshot.trailing_excerpt_update_count
                    == o.snapshot.trailing_excerpt_update_count,
                self.snapshot.non_text_state_update_count
                    == o.snapshot.non_text_state_update_count,
                self.snapshot.is_dirty == o.snapshot.is_dirty,
                self.snapshot.has_conflict == o.snapshot.has_conflict,
                self.events@ == o.events@,
                self.next_excerpt_id == o.next_excerpt_id,
            decreases oex.len() - j,
        {
            let ghost tk = oex.take(j);
            let ghost tk1 = oex.take(j + 1);
            proof {
                if j >= oex.len() {
                    assert(oex.skip(j).len() == 0);
                    assert(self.snapshot.excerpts@.len() == k as int);
                    assert(false);
                }
                assert(tk1.drop_last() =~= tk);
                assert(tk1.last() == oex[j]);
                reveal(Seq::filter);
                assert(self.snapshot.excerpts@[k as int] == oex.skip(j)[0]);
                assert(oex.skip(j)[0] == oex[j]);
            }
            let hit = pair_hits(pairs, &self.snapshot.excerpts[k]);
            if hit {
                let e = self.snapshot.excerpts.remove(k);
                rem_ids.push(e.id);
                proof {
                    assert(!keeps(pairs@)(oex[j]));
                    assert(removes(pairs@)(oex[j]));
                    assert(tk1.filter(keeps(pairs@)) =~= tk.filter(keeps(pairs@)));
                    assert(tk1.filter(removes(pairs@)) =~= tk.filter(removes(pairs@)).push(
                        oex[j],
                    ));
                    assert(self.snapshot.excerpts@ =~= tk1.filter(keeps(pairs@)) + oex.skip(
                        j + 1,
                    ));
                    assert(rem_ids@ =~= tk1.filter(removes(pairs@)).map_values(id_of()));
                }
                proof {
                    j = j + 1;
                }
            } else {
                proof {
                    assert(keeps(pairs@)(oex[j]));
                    assert(!removes(pairs@)(oex[j]));
                    assert(tk1.filter(keeps(pairs@)) =~= tk.filter(keeps(pairs@)).push(oex[j]));
                    assert(tk1.filter(removes(pairs@)) =~= tk.filter(removes(pairs@)));
                    assert(self.snapshot.excerpts@ =~= tk1.filter(keeps(pairs@)) + oex.skip(
                        j + 1,
                    ));
                    assert(rem_ids@ =~= tk1.filter(removes(pairs@)).map_values(id_of()));
                }
                k = k + 1;
                proof {
                    j = j + 1;
                }
            }
        }
        proof {
            assert(oex.skip(j).len() == 0);
            assert(j == oex.len());
            assert(oex.take(j) =~= oex);
            assert(self.snapshot.excerpts@ =~= oex.filter(keeps(pairs@)));
            oex.lemma_filter_len(keeps(pairs@));
            oex.lemma_filter_len(removes(pairs@));
        }
        let ghost fex = self.snapshot.excerpts@;
        let mut ks: usize = 0;
        let ghost js: int = 0;
        proof {
            assert(ost.take(0).filter(state_keeper(fex)) =~= Seq::<BufferState>::empty());
            assert(Seq::<BufferState>::empty().filter(state_keeper(fex)) =~= Seq::<
                BufferState,
            >::empty());
            assert(self.buffers@ =~= ost.take(0).filter(state_keeper(fex)) + ost.skip(0));
        }
        while ks < self.buffers.len()
            invariant
                0 <= js <= ost.len(),
                fex == self.snapshot.excerpts@,
                self.buffers@ == ost.take(js).filter(state_keeper(fex)) + ost.skip(js),
                ks as int == ost.take(js).filter(state_keeper(fex)).len(),
                self.snapshot.singleton == false,
                self.snapshot.edit_count == o.snapshot.edit_count,
                self.snapshot.trailing_excerpt_update_count
                    == o.snapshot.trailing_excerpt_update_count,
                self.snapshot.non_text_state_update_count
                    == o.snapshot.non_text_state_update_count,
                self.snapshot.is_dirty == o.snapshot.is_dirty,
                self.snapshot.has_conflict == o.snapshot.has_conflict,
                self.events@ == o.events@,
                self.next_excerpt_id == o.next_excerpt_id,
            decreases ost.len() - js,
        {
            let ghost tk = ost.take(js);
            let ghost tk1 = ost.take(js + 1);
            proof {
                if js >= ost.len() {
                    assert(ost.skip(js).len() == 0);
                    assert(false);
                }
                assert(tk1.drop_last() =~= tk);
                assert(tk1.last() == ost[js]);
                reveal(Seq::filter);
                assert(self.buffers@[ks as int] == ost.skip(js)[0]);
                assert(ost.skip(js)[0] == ost[js]);
            }
            let keep = buffer_has_excerpt(&self.snapshot.excerpts, self.buffers[ks].buffer_id);
            if keep {
                proof {
                    assert(state_keeper(fex)(ost[js]));
                    assert(tk1.filter(state_keeper(fex)) =~= tk.filter(state_keeper(fex)).push(
                        ost[js],
                    ));
                    assert(self.buffers@ =~= tk1.filter(state_keeper(fex)) + ost.skip(js + 1));
                }
                ks = ks + 1;
                proof {
                    js = js + 1;
                }
            } else {
                let _dropped = self.buffers.remove(ks);
                proof {
                    assert(!state_keeper(fex)(ost[js]));
                    assert(tk1.filter(state_keeper(fex)) =~= tk.filter(state_keeper(fex)));
                    assert(self.buffers@ =~= tk1.filter(state_keeper(fex)) + ost.skip(js + 1));
                }
                proof {
                    js = js + 1;
                }
            }
        }
        proof {
            assert(ost.skip(js).len() == 0);
            assert(js == ost.len());
            assert(ost.take(js) =~= ost);
            assert(self.buffers@ =~= ost.filter(state_keeper(fex)));
        }
        let removed_count = rem_ids.len();
        proof {
            assert(rem_ids@.len() <= oex.len());
        }
        publish_mutation(
            &mut self.snapshot,
            &mut self.events,
            &self.buffers,
            removed_count,
            false,
            old_last,
        );
        proof {
            lemma_remove_wf(*self, o, pairs@);
        }
        Result::Ok((pr, rem_ids))
    }
}

} // verus!
