use std::cell::RefCell;
use kite_gcs::apple_sink::{Pacing, Shared, MAX_OUTPUTS};
use kite_gcs::sink_outputs::{await_keyframe, stack_order, sync_outputs, FrameGate, HostAction, LayerStatus, Output};
use kite_gcs::surface::{SinkSurface, SurfaceRect};

fn rect(id: &str, x: i32) -> SurfaceRect {
    SurfaceRect { id: id.to_string(), x, y: 2, w: 3, h: 4, cx: 5, cy: 6, cw: 7, ch: 8 }
}

fn surface(window: &str, id: &str, x: i32) -> SinkSurface {
    SinkSurface::new(window, 0, &rect(id, x))
}

#[test]
fn sink_surface_key_joins_window_and_id() {
    let s = SinkSurface::new("main", 42, &rect("widget", 1));
    assert_eq!(s.key, "main/widget");
    assert_eq!(s.window, "main");
    assert_eq!(s.parent, 42);
    assert_eq!(s.full, (1, 2, 3, 4));
    assert_eq!(s.clip, (5, 6, 7, 8));
    assert_eq!(s.rect(), [1, 2, 3, 4, 5, 6, 7, 8]);
    assert!(s.same_as(&s.clone()));
    assert!(!s.same_as(&surface("video", "widget", 1)));
}

#[test]
fn surfaces_are_capped_and_republishing_is_quiet() {
    let mut shared = Shared::new();
    let list = vec![surface("main", "a", 1), surface("main", "b", 2), surface("main", "c", 3)];
    assert!(shared.set_surfaces(&list));
    let (rev, served) = shared.published();
    assert_eq!(rev, 1);
    assert_eq!(served.len(), MAX_OUTPUTS);
    assert_eq!(served[0].key, "main/a");
    assert_eq!(served[1].key, "main/b");
    // The same list again, or one that differs only past the cap: nothing to do.
    assert!(!shared.set_surfaces(&list));
    assert!(!shared.set_surfaces(&list[..2]));
    assert_eq!(shared.published().0, 1);
    // A moved surface is a change.
    assert!(shared.set_surfaces(&[surface("main", "a", 9)]));
    assert_eq!(shared.published().0, 2);
    assert!(shared.set_surfaces(&[]));
    assert_eq!(shared.published().1.len(), 0);
}

#[test]
fn first_error_wins_and_counters_work() {
    let mut shared = Shared::new();
    assert_eq!(shared.error(), None);
    shared.fail("decode failed".to_string());
    shared.fail("second".to_string());
    assert_eq!(shared.error(), Some("decode failed".to_string()));
    assert_eq!(shared.frames_presented(), 0);
    shared.count_presented();
    shared.count_presented();
    assert_eq!(shared.frames_presented(), 2);
    assert_eq!(shared.picture_size(), None);
    shared.record_picture(1920, 0);
    assert_eq!(shared.picture_size(), None);
    shared.record_picture(1920, 1080);
    assert_eq!(shared.picture_size(), Some((1920, 1080)));
    shared.set_buffer(2);
    assert_eq!(shared.buffer_frames(), 2);
    shared.set_buffer(7);
    assert_eq!(shared.buffer_frames(), 3);
    shared.set_buffer(0);
    assert_eq!(shared.buffer_frames(), 0);
}

#[test]
fn pacing_anchors_a_cushion_behind_the_timeline() {
    let mut p = Pacing::new();
    assert_eq!(p.anchor(), None);
    // First frame: seeded at 60 fps, anchored one interval behind.
    assert_eq!(p.schedule(0, 90_000, 9_000, 1), Some(7_500));
    assert_eq!(p.interval(), 1_500);
    assert_eq!(p.anchor(), Some((9_000, 1)));
    // 30 fps gap: the average moves an eighth of the way; the frame is due within the cushion.
    assert_eq!(p.schedule(7_500, 90_000, 12_000, 1), None);
    assert_eq!(p.interval(), 1_500 + (3_000 - 1_500) / 8);
    // A changed depth re-anchors.
    let lead = 2 * p.interval();
    assert_eq!(p.schedule(9_000, 90_000, 15_000, 2), Some(15_000 - 2 * (1_687 + (3_000 - 1_687) / 8)));
    assert!(lead > 0);
    // A timeline jump (frame due far behind the clock) re-anchors; the interval ignores the gap.
    let before = p.interval();
    assert_eq!(p.schedule(1_000_000, 90_000, 20_000_000, 2), Some(20_000_000 - 2 * before));
    assert_eq!(p.interval(), before);
    // A timebase in another timescale is converted to 90 kHz ticks.
    let mut q = Pacing::new();
    q.schedule(0, 90_000, 90_000, 1);
    assert_eq!(q.schedule(1_000, 1_000, 91_500, 1), None);
    q.clear_anchor();
    assert_eq!(q.anchor(), None);
    assert_eq!(q.schedule(1_000, 1_000, 93_000, 1), Some(93_000 - q.interval()));
}

#[test]
fn sync_creates_places_drops_and_restacks() {
    let mut outs: Vec<Output<String>> = Vec::new();
    let mut order: Vec<String> = Vec::new();
    let released: RefCell<Vec<String>> = RefCell::new(Vec::new());
    let want = vec![surface("main", "a", 1), surface("video", "b", 2)];
    let actions = sync_outputs(
        &mut outs,
        &want,
        &mut order,
        |o: Output<String>| released.borrow_mut().push(o.key),
        |s: &SinkSurface| Some(format!("layer {}", s.key)),
    );
    assert!(released.borrow().is_empty());
    assert_eq!(outs.len(), 2);
    assert_eq!(outs[0].layer, "layer main/a");
    assert!(outs[0].wait_for_idr);
    assert!(!outs[0].has_timebase);
    assert_eq!(outs[0].pacing.anchor(), None);
    assert_eq!(outs[1].rect, [2, 2, 3, 4, 5, 6, 7, 8]);
    assert_eq!(order, vec!["main/a".to_string(), "video/b".to_string()]);
    assert_eq!(actions.len(), 3);
    assert!(matches!(&actions[0], HostAction::Place(k, r) if k == "main/a" && r[0] == 1));
    assert!(matches!(&actions[1], HostAction::Place(k, _) if k == "video/b"));
    assert!(matches!(&actions[2], HostAction::Restack(v) if v.len() == 2));

    // The same layout again: nothing to do.
    let actions = sync_outputs(
        &mut outs,
        &want,
        &mut order,
        |o: Output<String>| released.borrow_mut().push(o.key),
        |_s: &SinkSurface| -> Option<String> { panic!("no layer should be asked for") },
    );
    assert!(released.borrow().is_empty());
    assert!(actions.is_empty());

    // "a" moves, "b" goes (released before any layer is asked for), "c" comes but gets no layer.
    let want2 = vec![surface("main", "c", 3), surface("main", "a", 7)];
    let actions = sync_outputs(
        &mut outs,
        &want2,
        &mut order,
        |o: Output<String>| released.borrow_mut().push(o.key),
        |_s: &SinkSurface| {
            assert_eq!(released.borrow().len(), 1, "dropped outputs are released first");
            None
        },
    );
    assert_eq!(*released.borrow(), vec!["video/b".to_string()]);
    assert_eq!(outs.len(), 1);
    assert_eq!(outs[0].rect[0], 7);
    assert_eq!(order, vec!["main/a".to_string()]);
    assert_eq!(actions.len(), 2);
    assert!(matches!(&actions[0], HostAction::Place(k, r) if k == "main/a" && r[0] == 7));
    assert!(matches!(&actions[1], HostAction::Restack(v) if v.len() == 1));
    assert_eq!(stack_order(&want2, &outs), vec!["main/a".to_string()]);
}

#[test]
fn sessions_wait_for_an_intra_frame() {
    let mut outs: Vec<Output<u8>> = Vec::new();
    let mut order = Vec::new();
    sync_outputs(&mut outs, &[surface("main", "a", 1)], &mut order, |_o: Output<u8>| {}, |_s: &SinkSurface| Some(1u8));
    let out = &mut outs[0];
    assert!(!out.admits_frame(false));
    assert!(out.wait_for_idr);
    assert!(out.admits_frame(true));
    assert!(out.admits_frame(false));
    out.restart();
    assert!(out.wait_for_idr);
    assert!(!out.admits_frame(false));
    out.admits_frame(true);
    await_keyframe(&mut outs);
    assert!(outs[0].wait_for_idr);
}

#[test]
fn frame_gate_per_layer_status() {
    let mut outs: Vec<Output<u8>> = Vec::new();
    let mut order = Vec::new();
    sync_outputs(&mut outs, &[surface("main", "a", 1)], &mut order, |_o: Output<u8>| {}, |_s: &SinkSurface| Some(1u8));
    let out = &mut outs[0];
    assert_eq!(out.on_frame(LayerStatus::Ready, false), FrameGate::Skip);
    assert_eq!(out.on_frame(LayerStatus::Ready, true), FrameGate::Take);
    assert_eq!(out.on_frame(LayerStatus::Ready, false), FrameGate::Take);
    assert_eq!(out.pacing.schedule(0, 90_000, 9_000, 1), Some(7_500));
    assert_eq!(out.on_frame(LayerStatus::NeedsFlush, true), FrameGate::Flush);
    assert!(out.wait_for_idr);
    assert_eq!(out.pacing.anchor(), None);
    assert_eq!(out.on_frame(LayerStatus::Failed, true), FrameGate::Fail);
    assert!(out.wait_for_idr);
}
