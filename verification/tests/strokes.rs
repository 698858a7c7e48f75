//! Stroke capture tests: commit-time correction, tile association, and the
//! render-memoization flag.
use koko::stroke::StrokeBuffer;
use koko::units::V2;

#[test]
fn commit_associates_stroke_with_the_tile_under_its_first_sample() {
    // samples [(100,100),(110,110),(120,100)] at origin (0,0) belong to
    // tile (0,0); the same samples at origin (1280,0) belong to (0,1)
    let mut buf = StrokeBuffer::new();
    buf.begin_stroke();
    buf.add_sample(V2(100, 100));
    buf.add_sample(V2(110, 110));
    buf.add_sample(V2(120, 100));
    let (path, row, col) = buf.commit_stroke(V2(0, 0));
    assert_eq!((row, col), (0, 0));
    assert_eq!(path.len(), 3);

    let mut buf = StrokeBuffer::new();
    buf.begin_stroke();
    buf.add_sample(V2(100, 100));
    buf.add_sample(V2(110, 110));
    buf.add_sample(V2(120, 100));
    let (_, row, col) = buf.commit_stroke(V2(1280, 0));
    assert_eq!((row, col), (0, 1));
}

#[test]
fn correction_adds_half_offset_on_x_and_subtracts_on_y() {
    let mut buf = StrokeBuffer::new();
    buf.begin_stroke();
    buf.add_sample(V2(100, 200));
    let (path, _, _) = buf.commit_stroke(V2(640, 360));
    assert_eq!(path.sample_at(0), V2(100 + 320, 200 - 180));
}

#[test]
fn correction_at_origin_zero_is_identity() {
    let mut buf = StrokeBuffer::new();
    buf.begin_stroke();
    buf.add_sample(V2(3, 4));
    let (path, _, _) = buf.commit_stroke(V2(0, 0));
    assert_eq!(path.sample_at(0), V2(3, 4));
}

#[test]
fn recommitting_same_samples_gives_identical_corrections() {
    // the correction is applied exactly once per commit: two gestures from
    // the same raw samples give two independent, identically corrected
    // paths, not a doubly-corrected second one
    let raw = [V2(100, 100), V2(110, 110), V2(120, 100)];
    let origin = V2(500, 300);

    let mut buf = StrokeBuffer::new();
    buf.begin_stroke();
    for p in raw {
        buf.add_sample(p);
    }
    let (first, _, _) = buf.commit_stroke(origin);

    buf.begin_stroke();
    assert_eq!(buf.sample_count(), 0);
    for p in raw {
        buf.add_sample(p);
    }
    let (second, _, _) = buf.commit_stroke(origin);

    assert_eq!(first.len(), second.len());
    for i in 0..first.len() {
        assert_eq!(first.sample_at(i), second.sample_at(i));
        assert_eq!(first.sample_at(i), V2(raw[i].0 + 250, raw[i].1 - 150));
    }
}

#[test]
fn commit_empties_the_buffer() {
    let mut buf = StrokeBuffer::new();
    buf.begin_stroke();
    buf.add_sample(V2(1, 1));
    assert_eq!(buf.sample_count(), 1);
    let _ = buf.commit_stroke(V2(0, 0));
    assert_eq!(buf.sample_count(), 0);
}

#[test]
fn path_render_flag_is_consumed_once_until_marked_dirty() {
    let mut buf = StrokeBuffer::new();
    buf.begin_stroke();
    buf.add_sample(V2(5, 5));
    let (mut path, _, _) = buf.commit_stroke(V2(0, 0));
    assert!(path.take_needs_render());
    assert!(!path.take_needs_render());
    path.mark_dirty();
    assert!(path.take_needs_render());
    assert!(!path.take_needs_render());
}
