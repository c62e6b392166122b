use kite_gcs::apple_sink::{Pacing, ParameterSets, Shared};
use kite_gcs::decode_step::{begin_frame, description_built, layer_failure_message, pace_output, plan_frame, resync_needed, NEVER_APPLIED};
use kite_gcs::sink_outputs::{sync_outputs, FrameGate, LayerStatus, Output};
use kite_gcs::surface::{SinkSurface, SurfaceRect};

const SPS_PPS_IDR: [u8; 16] = [0, 0, 0, 1, 0x67, 1, 2, 0, 0, 1, 0x68, 3, 0, 0, 1, 0x65];
const SLICE: [u8; 6] = [0, 0, 1, 0x41, 7, 7];

fn output(key: &str, wait_for_idr: bool, has_timebase: bool) -> Output<u8> {
    Output { key: key.to_string(), layer: 0, wait_for_idr, has_timebase, pacing: Pacing::new(), rect: [0; 8] }
}

#[test]
fn resync_only_when_the_revision_moved() {
    assert!(resync_needed(NEVER_APPLIED, 0));
    assert!(resync_needed(3, 4));
    assert!(!resync_needed(3, 3));
}

#[test]
fn new_parameter_sets_rebuild_the_description_and_restart_every_session() {
    let mut sets = ParameterSets::default();
    let st = begin_frame(&mut sets, false, &SPS_PPS_IDR, false);
    assert!(st.changed && st.rebuild);
    assert_eq!(sets.sps, vec![vec![0x67, 1, 2]]);
    assert_eq!(sets.pps, vec![vec![0x68, 3]]);
    // The same sets again: no rebuild once a description exists.
    let st = begin_frame(&mut sets, false, &SPS_PPS_IDR, true);
    assert!(!st.changed && !st.rebuild);
    // No description yet: rebuild, though nothing changed.
    let st = begin_frame(&mut sets, false, &SLICE, false);
    assert!(!st.changed && st.rebuild);

    let mut outs = vec![output("main/a", false, true), output("main/b", false, false)];
    description_built(&mut outs, false);
    assert!(outs.iter().all(|o| !o.wait_for_idr));
    description_built(&mut outs, true);
    assert!(outs.iter().all(|o| o.wait_for_idr));
    assert!(outs[0].has_timebase);
}

#[test]
fn a_frame_without_description_or_outputs_is_skipped() {
    let mut outs = vec![output("main/a", false, false)];
    let p = plan_frame(&mut outs, false, &SLICE, false, 1, &[LayerStatus::Ready]);
    assert!(p.skip);
    assert!(p.steps.is_empty());
    assert!(!p.make_sample && !p.count_presented);
    let mut none: Vec<Output<u8>> = Vec::new();
    let p = plan_frame(&mut none, false, &SLICE, true, 1, &[]);
    assert!(p.skip);
}

#[test]
fn a_failed_layer_stops_the_frame_with_its_key() {
    let mut outs = vec![output("main/a", true, false), output("video/b", false, false), output("main/c", false, false)];
    let p = plan_frame(&mut outs, false, &SPS_PPS_IDR, true, 0, &[LayerStatus::Ready, LayerStatus::Failed, LayerStatus::Ready]);
    assert!(!p.skip);
    assert_eq!(p.stopped_at, Some(1));
    assert_eq!(p.steps.len(), 1);
    assert_eq!(p.steps[0].gate, FrameGate::Take);
    assert!(p.make_sample);
    assert!(!p.count_presented);
    assert!(!outs[0].wait_for_idr);
    assert_eq!(
        layer_failure_message(&outs[1].key, "display layer failed"),
        "decode failed (video/b): display layer failed"
    );
}

#[test]
fn flush_skip_and_take_per_output() {
    let mut outs = vec![output("a", false, false), output("b", true, false), output("c", false, false)];
    outs[0].pacing.schedule(0, 90_000, 9_000, 2);
    let p = plan_frame(&mut outs, false, &SLICE, true, 2, &[LayerStatus::NeedsFlush, LayerStatus::Ready, LayerStatus::Ready]);
    assert_eq!(p.stopped_at, None);
    assert_eq!(p.steps.len(), 3);
    assert_eq!(p.steps[0].gate, FrameGate::Flush);
    assert!(outs[0].wait_for_idr);
    assert_eq!(outs[0].pacing.anchor(), None);
    assert_eq!(p.steps[1].gate, FrameGate::Skip);
    assert!(outs[1].wait_for_idr);
    assert_eq!(p.steps[2].gate, FrameGate::Take);
    assert!(p.steps[2].needs_clock && !p.steps[2].drop_timebase);
    assert!(!p.display_immediately);
    assert!(p.make_sample && p.count_presented);
}

#[test]
fn nothing_taken_means_no_sample_and_no_count() {
    let mut outs = vec![output("a", true, false)];
    let p = plan_frame(&mut outs, false, &SLICE, true, 1, &[LayerStatus::Ready]);
    assert_eq!(p.steps[0].gate, FrameGate::Skip);
    assert!(!p.make_sample && !p.count_presented);
}

#[test]
fn depth_zero_shows_at_once_and_drops_the_timebase() {
    let mut outs = vec![output("a", false, true), output("b", false, false)];
    let p = plan_frame(&mut outs, false, &SLICE, true, 0, &[LayerStatus::Ready, LayerStatus::Ready]);
    assert!(p.display_immediately);
    assert!(p.steps[0].drop_timebase && !p.steps[0].needs_clock);
    assert!(!p.steps[1].drop_timebase && !p.steps[1].needs_clock);
    assert!(!outs[0].has_timebase && !outs[1].has_timebase);
    assert!(p.count_presented);
}

#[test]
fn taken_outputs_are_paced_on_their_timebase() {
    let mut outs = vec![output("a", false, false), output("b", false, true)];
    let p = plan_frame(&mut outs, false, &SLICE, true, 1, &[LayerStatus::Ready, LayerStatus::Ready]);
    assert!(p.steps[0].needs_clock && p.steps[0].new_timebase);
    assert!(p.steps[1].needs_clock && !p.steps[1].new_timebase);
    assert!(outs[0].pacing.fits(0, 90_000, 9_000, 1));
    assert_eq!(pace_output(&mut outs[0], 1, 0, 90_000, 9_000), Some(7_500));
    assert!(outs[0].has_timebase);
    assert_eq!(outs[0].pacing.anchor(), Some((9_000, 1)));
    // The next frame is due inside the cushion: no re-anchor.
    let p = plan_frame(&mut outs, false, &SLICE, true, 1, &[LayerStatus::Ready, LayerStatus::Ready]);
    assert!(!p.steps[0].new_timebase);
    assert_eq!(pace_output(&mut outs[0], 1, 7_500, 90_000, 10_500), None);
    assert_eq!(outs[0].pacing.interval(), 1_500);
}

#[test]
fn pacing_that_would_overflow_is_refused() {
    let p = Pacing::new();
    assert!(p.fits(0, 90_000, 9_000, 3));
    assert!(!p.fits(i64::MAX, 1_000, 9_000, 1));
    assert!(p.fits(i64::MAX, 90_000, 9_000, 1));
    assert!(!p.fits(0, 90_000, i64::MIN, 1));
}

#[test]
fn a_waiting_output_first_takes_an_intra_frame() {
    let mut outs = vec![output("a", false, false)];
    let ready = [LayerStatus::Ready];
    assert_eq!(plan_frame(&mut outs, false, &SLICE, true, 0, &ready).steps[0].gate, FrameGate::Take);
    // New sets: the next slices are dropped until the keyframe, which is taken, and so is what follows.
    description_built(&mut outs, true);
    assert_eq!(plan_frame(&mut outs, false, &SLICE, true, 0, &ready).steps[0].gate, FrameGate::Skip);
    assert_eq!(plan_frame(&mut outs, false, &SLICE, true, 0, &ready).steps[0].gate, FrameGate::Skip);
    assert_eq!(plan_frame(&mut outs, false, &SPS_PPS_IDR, true, 0, &ready).steps[0].gate, FrameGate::Take);
    assert_eq!(plan_frame(&mut outs, false, &SLICE, true, 0, &ready).steps[0].gate, FrameGate::Take);
    // A flush starts the wait again.
    assert_eq!(plan_frame(&mut outs, false, &SLICE, true, 0, &[LayerStatus::NeedsFlush]).steps[0].gate, FrameGate::Flush);
    assert_eq!(plan_frame(&mut outs, false, &SLICE, true, 0, &ready).steps[0].gate, FrameGate::Skip);
    assert_eq!(plan_frame(&mut outs, false, &SPS_PPS_IDR, true, 0, &ready).steps[0].gate, FrameGate::Take);
}

#[test]
fn the_outputs_follow_the_list_published_last() {
    let rect = |id: &str, x: i32| SurfaceRect { id: id.to_string(), x, y: 0, w: 4, h: 3, cx: x, cy: 0, cw: 4, ch: 3 };
    let mut shared = Shared::new();
    let mut applied = NEVER_APPLIED;
    let mut outs: Vec<Output<u8>> = Vec::new();
    let mut order: Vec<String> = Vec::new();
    // Two lists published before the decode thread looks: only the second is applied.
    shared.set_surfaces(&[SinkSurface::new("main", 0, &rect("a", 1))]);
    shared.set_surfaces(&[SinkSurface::new("main", 0, &rect("b", 2))]);
    let (rev, list) = shared.published();
    assert!(resync_needed(applied, rev));
    applied = rev;
    let want = list.clone();
    sync_outputs(&mut outs, &want, &mut order, |_o: Output<u8>| {}, |_s: &SinkSurface| Some(0u8));
    assert_eq!(outs.len(), 1);
    assert_eq!(outs[0].key, "main/b");
    // Nothing new published: no re-sync.
    assert!(!resync_needed(applied, shared.published().0));
}
