use multi_buffer::excerpt::Buffer;
use multi_buffer::excerpt::ExcerptRange;
use multi_buffer::multi_buffer::Event;
use multi_buffer::multi_buffer::ExcerptError;
use multi_buffer::multi_buffer::MultiBuffer;
use multi_buffer::order::Cmp;
use multi_buffer::order::bytes_cmp;
use multi_buffer::scrollbar::ScrollbarDisplayStyle;
use multi_buffer::scrollbar::ScrollbarVisibility;

fn buf(id: u64, path: Option<&str>, text: &str) -> Buffer {
    Buffer {
        id,
        path: path.map(|p| p.as_bytes().to_vec()),
        text: text.as_bytes().to_vec(),
        closed: false,
        is_dirty: false,
        has_conflict: false,
    }
}

fn rg(start: usize, end: usize) -> ExcerptRange {
    ExcerptRange { start, end }
}

#[test]
fn later_insert_with_earlier_path_reorders() {
    let mut mb = MultiBuffer::new();
    let a = buf(1, Some("b.txt"), "0123456789a");
    let b = buf(2, Some("a.txt"), "012345");
    let r1 = mb.insert_excerpts(&vec![(a, rg(0, 10))]).unwrap();
    assert!(r1[0].is_ok());
    assert!(mb.events.last() == Some(&Event::Edited { edit_count: 1 }));
    let r2 = mb.insert_excerpts(&vec![(b, rg(0, 5))]).unwrap();
    assert!(r2[0].is_ok());
    // path "a.txt" sorts before "b.txt": the new excerpt stands first
    assert_eq!(mb.snapshot.excerpts.len(), 2);
    assert_eq!(mb.snapshot.excerpts[0].buffer_id, 2);
    assert_eq!(mb.snapshot.excerpts[1].buffer_id, 1);
    assert!(mb.events.last() == Some(&Event::Reordered { edit_count: 2 }));
}

#[test]
fn removal_intersecting_range_removes_whole_excerpt() {
    let mut mb = MultiBuffer::new();
    let x = buf(7, Some("x.txt"), "abcdefghijklmnopqrstu");
    let r1 = mb.insert_excerpts(&vec![(x, rg(0, 20))]).unwrap();
    assert!(r1[0].is_ok());
    assert_eq!(mb.buffers.len(), 1);
    let x2 = buf(7, Some("x.txt"), "abcdefghijklmnopqrstu");
    let (pr, removed) = mb.remove_excerpts(&vec![(x2, rg(5, 8))]).unwrap();
    assert!(pr[0].is_ok());
    assert_eq!(removed.len(), 1);
    assert_eq!(mb.snapshot.excerpts.len(), 0);
    // the buffer's state entry is dropped with its last excerpt
    assert_eq!(mb.buffers.len(), 0);
}

#[test]
fn singleton_rejects_excerpt_management() {
    let base = buf(3, Some("one.txt"), "only\n");
    let mut mb = MultiBuffer::singleton(&base);
    let before_edit = mb.snapshot.edit_count;
    let other = buf(4, Some("two.txt"), "more");
    let r = mb.insert_excerpts(&vec![(other, rg(0, 2))]);
    assert_eq!(r.unwrap_err(), ExcerptError::SingletonViolation);
    assert_eq!(mb.snapshot.excerpts.len(), 1);
    assert_eq!(mb.snapshot.edit_count, before_edit);
    let other2 = buf(4, Some("two.txt"), "more");
    let r2 = mb.remove_excerpts(&vec![(other2, rg(0, 1))]);
    assert_eq!(r2.unwrap_err(), ExcerptError::SingletonViolation);
}

#[test]
fn overlapping_pair_is_rejected_alone() {
    let mut mb = MultiBuffer::new();
    let b1 = buf(1, Some("f.txt"), "0123456789");
    let b2 = buf(1, Some("f.txt"), "0123456789");
    let b3 = buf(1, Some("f.txt"), "0123456789");
    let res = mb
        .insert_excerpts(&vec![(b1, rg(0, 5)), (b2, rg(3, 7)), (b3, rg(5, 9))])
        .unwrap();
    assert!(res[0].is_ok());
    assert_eq!(res[1], Err(ExcerptError::Overlap));
    assert!(res[2].is_ok());
    assert_eq!(mb.snapshot.excerpts.len(), 2);
    assert_eq!(mb.snapshot.edit_count, 2);
}

#[test]
fn invalid_range_and_closed_buffer_are_per_pair_errors() {
    let mut mb = MultiBuffer::new();
    let good = buf(1, Some("f.txt"), "0123456789");
    let reversed = buf(2, Some("g.txt"), "0123456789");
    let beyond = buf(3, Some("h.txt"), "0123");
    let mut closed = buf(4, Some("i.txt"), "0123");
    closed.closed = true;
    let res = mb
        .insert_excerpts(&vec![
            (good, rg(0, 5)),
            (reversed, rg(5, 2)),
            (beyond, rg(0, 10)),
            (closed, rg(0, 1)),
        ])
        .unwrap();
    assert!(res[0].is_ok());
    assert_eq!(res[1], Err(ExcerptError::InvalidRange));
    assert_eq!(res[2], Err(ExcerptError::InvalidRange));
    assert_eq!(res[3], Err(ExcerptError::BufferClosed));
    assert_eq!(mb.snapshot.excerpts.len(), 1);
}

#[test]
fn renamed_buffer_keeps_frozen_path_order() {
    let mut mb = MultiBuffer::new();
    let a = buf(1, Some("a.txt"), "0123456789");
    let m = buf(2, Some("m.txt"), "0123456789");
    mb.insert_excerpts(&vec![(a, rg(0, 3))]).unwrap();
    mb.insert_excerpts(&vec![(m, rg(0, 3))]).unwrap();
    // buffer 1 is renamed to z.txt; its new excerpt still sorts by the
    // frozen path a.txt, before m.txt
    let renamed = buf(1, Some("z.txt"), "0123456789");
    let res = mb.insert_excerpts(&vec![(renamed, rg(5, 8))]).unwrap();
    assert!(res[0].is_ok());
    assert_eq!(mb.snapshot.excerpts.len(), 3);
    assert_eq!(mb.snapshot.excerpts[0].buffer_id, 1);
    assert_eq!(mb.snapshot.excerpts[1].buffer_id, 1);
    assert_eq!(mb.snapshot.excerpts[2].buffer_id, 2);
    assert_eq!(
        mb.snapshot.excerpts[1].initial_buffer_path,
        Some(b"a.txt".to_vec())
    );
}

#[test]
fn snapshots_are_immutable_under_later_mutation() {
    let mut mb = MultiBuffer::new();
    let a = buf(1, Some("a.txt"), "hello\nworld");
    mb.insert_excerpts(&vec![(a, rg(0, 11))]).unwrap();
    let snap = mb.snapshot();
    assert_eq!(snap.excerpts.len(), 1);
    let edit_at_snap = snap.edit_count;
    let a2 = buf(1, Some("a.txt"), "hello\nworld");
    mb.remove_excerpts(&vec![(a2, rg(0, 11))]).unwrap();
    assert_eq!(mb.snapshot.excerpts.len(), 0);
    // the previously taken snapshot still shows the old state
    assert_eq!(snap.excerpts.len(), 1);
    assert_eq!(snap.excerpts[0].buffer_id, 1);
    assert_eq!(snap.edit_count, edit_at_snap);
}

#[test]
fn edit_count_is_monotonic_and_strict_on_change() {
    let mut mb = MultiBuffer::new();
    let e0 = mb.snapshot.edit_count;
    let a = buf(1, Some("a.txt"), "0123456789");
    mb.insert_excerpts(&vec![(a, rg(0, 4))]).unwrap();
    let e1 = mb.snapshot.edit_count;
    assert!(e1 > e0);
    // a batch that changes nothing leaves the count unchanged
    let reversed = buf(2, Some("b.txt"), "0123");
    mb.insert_excerpts(&vec![(reversed, rg(3, 1))]).unwrap();
    let e2 = mb.snapshot.edit_count;
    assert_eq!(e2, e1);
    let a2 = buf(1, Some("a.txt"), "0123456789");
    mb.remove_excerpts(&vec![(a2, rg(0, 4))]).unwrap();
    let e3 = mb.snapshot.edit_count;
    assert!(e3 > e2);
}

#[test]
fn text_summary_counts_bytes_and_newlines() {
    let mut mb = MultiBuffer::new();
    let a = buf(1, Some("a.txt"), "ab\ncd\nef");
    let res = mb.insert_excerpts(&vec![(a, rg(0, 6))]).unwrap();
    assert!(res[0].is_ok());
    let e = &mb.snapshot.excerpts[0];
    assert_eq!(e.text_summary.len, 6);
    assert_eq!(e.text_summary.lines, 2);
    assert_eq!(e.max_row, 2);
    // the slice ends with a newline, so none is synthesized
    assert!(!e.trailing_newline);
    let b = buf(2, Some("b.txt"), "xyz");
    mb.insert_excerpts(&vec![(b, rg(0, 2))]).unwrap();
    let e2 = &mb.snapshot.excerpts[1];
    assert!(e2.trailing_newline);
}

#[test]
fn dirty_flag_is_or_over_buffers() {
    let mut mb = MultiBuffer::new();
    let mut a = buf(1, Some("a.txt"), "0123");
    a.is_dirty = true;
    mb.insert_excerpts(&vec![(a, rg(0, 2))]).unwrap();
    assert!(mb.snapshot.is_dirty);
    assert!(!mb.snapshot.has_conflict);
    assert!(mb
        .events
        .iter()
        .any(|e| matches!(e, Event::DirtyChanged { .. })));
    let a2 = buf(1, Some("a.txt"), "0123");
    mb.remove_excerpts(&vec![(a2, rg(0, 2))]).unwrap();
    assert!(!mb.snapshot.is_dirty);
}

#[test]
fn removal_does_not_reorder_remaining_excerpts() {
    let mut mb = MultiBuffer::new();
    let a = buf(1, Some("a.txt"), "0123456789");
    let b = buf(2, Some("b.txt"), "0123456789");
    let c = buf(3, Some("c.txt"), "0123456789");
    mb.insert_excerpts(&vec![(a, rg(0, 3))]).unwrap();
    mb.insert_excerpts(&vec![(b, rg(0, 3))]).unwrap();
    mb.insert_excerpts(&vec![(c, rg(0, 3))]).unwrap();
    let b2 = buf(2, Some("b.txt"), "0123456789");
    mb.remove_excerpts(&vec![(b2, rg(0, 3))]).unwrap();
    assert_eq!(mb.snapshot.excerpts.len(), 2);
    assert_eq!(mb.snapshot.excerpts[0].buffer_id, 1);
    assert_eq!(mb.snapshot.excerpts[1].buffer_id, 3);
    assert!(!mb
        .events
        .iter()
        .any(|e| matches!(e, Event::Reordered { .. })));
}

#[test]
fn pathless_buffers_sort_first_by_creation_order() {
    let mut mb = MultiBuffer::new();
    let named = buf(1, Some("a.txt"), "0123456789");
    let anon_late = buf(3, None, "0123456789");
    let anon_early = buf(2, None, "0123456789");
    mb.insert_excerpts(&vec![(named, rg(0, 3))]).unwrap();
    mb.insert_excerpts(&vec![(anon_late, rg(0, 3))]).unwrap();
    mb.insert_excerpts(&vec![(anon_early, rg(0, 3))]).unwrap();
    assert_eq!(mb.snapshot.excerpts[0].buffer_id, 2);
    assert_eq!(mb.snapshot.excerpts[1].buffer_id, 3);
    assert_eq!(mb.snapshot.excerpts[2].buffer_id, 1);
}

#[test]
fn byte_order_is_lexicographic() {
    assert_eq!(bytes_cmp(&b"abc".to_vec(), &b"abd".to_vec()), Cmp::Lt);
    assert_eq!(bytes_cmp(&b"ab".to_vec(), &b"abc".to_vec()), Cmp::Lt);
    assert_eq!(bytes_cmp(&b"abc".to_vec(), &b"abc".to_vec()), Cmp::Eq);
    assert_eq!(bytes_cmp(&b"b".to_vec(), &b"abc".to_vec()), Cmp::Gt);
}

#[test]
fn scrollbar_visibility_maps_to_display_style() {
    assert_eq!(
        ScrollbarDisplayStyle::from(ScrollbarVisibility::OnHover),
        ScrollbarDisplayStyle::Overlay
    );
    assert_eq!(
        ScrollbarDisplayStyle::from(ScrollbarVisibility::Always),
        ScrollbarDisplayStyle::Block
    );
    assert_eq!(
        ScrollbarDisplayStyle::from(ScrollbarVisibility::Never),
        ScrollbarDisplayStyle::Block
    );
    assert_eq!(ScrollbarVisibility::default(), ScrollbarVisibility::Always);
    assert_eq!(ScrollbarDisplayStyle::default(), ScrollbarDisplayStyle::Block);
}
