//! One frame of the macOS decode sink, decided. The decode thread follows the published surfaces
//! (re-synced only when their revision moved), then per access unit: the parameter sets are taken
//! in, and the format description is rebuilt only when they changed or none exists yet (once
//! rebuilt from new sets, every session goes back to waiting for a keyframe); a frame with no
//! description or no outputs is skipped; each output in turn either ends the stream (its layer
//! failed), is flushed and waits for the next intra frame, skips the frame while it waits, or takes
//! it — shown at once at smoothing depth 0 (its control timebase dropped), or paced on its control
//! timebase at depths 1–3. One sample serves every output that took the frame, and the frame
//! counts as presented once, when a sample was made. The layers, descriptions, timebases and
//! samples themselves are the app's: it carries out what is decided here, output by output, and
//! the first of its calls that fails ends the stream with that error.

use vstd::prelude::*;
use vstd::string::*;
use crate::annexb::{has_intra_frame, spec_has_intra_frame};
use crate::apple_sink::{ParameterSets, absorbed, brings_new, capped, same_list, sets_in, slot_view};
use crate::surface::SinkSurface;
use crate::sink_outputs::{FrameGate, LayerStatus, Output, OutputView, await_keyframe, output_view};

verus! {

/// The revision the decode thread starts with: it differs from every published revision the
/// sink starts with, which forces one sync before the first frame.
pub const NEVER_APPLIED: u64 = u64::MAX;

/// The outputs follow the published surfaces only when the published revision moved since the one
/// last applied.
pub fn resync_needed(applied: u64, published: u64) -> (r: bool)
    ensures
        r == (applied != published),
{
    applied != published
}

/// Whether an access unit changes the parameter sets held.
pub open spec fn sets_change(sets: ParameterSets, hevc: bool, au: Seq<u8>) -> bool {
    ||| brings_new(slot_view(sets.vps), sets_in(hevc, au, 0))
    ||| brings_new(slot_view(sets.sps), sets_in(hevc, au, 1))
    ||| brings_new(slot_view(sets.pps), sets_in(hevc, au, 2))
}

/// What an access unit's parameter sets mean for the format description.
#[derive(Debug, Clone, Copy, PartialEq, Eq, Structural)]
pub struct FrameStart {
    /// The access unit brought new parameter sets.
    pub changed: bool,
    /// The format description has to be (re)built: the sets changed, or there is none yet.
    pub rebuild: bool,
}

/// Take in the parameter sets of an access unit (`has_format`: a format description exists).
pub fn begin_frame(sets: &mut ParameterSets, hevc: bool, au: &[u8], has_format: bool) -> (st: FrameStart)
    ensures
        slot_view(final(sets).vps) == absorbed(slot_view(old(sets).vps), sets_in(hevc, au@, 0)),
        slot_view(final(sets).sps) == absorbed(slot_view(old(sets).sps), sets_in(hevc, au@, 1)),
        slot_view(final(sets).pps) == absorbed(slot_view(old(sets).pps), sets_in(hevc, au@, 2)),
        st.changed == sets_change(*old(sets), hevc, au@),
        st.rebuild == (sets_change(*old(sets), hevc, au@) || !has_format),
{
    let changed = sets.absorb(hevc, au);
    FrameStart { changed, rebuild: changed || !has_format }
}

/// A format description was built from the sets held. When they were new, every session goes back
/// to waiting for an intra frame: a rebuilt description is what makes the next one decodable.
pub fn description_built<L>(outs: &mut Vec<Output<L>>, changed: bool)
    ensures
        final(outs)@.len() == old(outs)@.len(),
        changed ==> forall|i: int|
            0 <= i < final(outs)@.len() ==> #[trigger] output_view(final(outs)@[i]) == (OutputView {
                wait_for_idr: true,
                ..output_view(old(outs)@[i])
            }),
        !changed ==> *final(outs) == *old(outs),
{
    if changed {
        await_keyframe(outs);
    }
}

/// What one output does with the current frame.
#[derive(Debug, Clone, Copy, PartialEq, Eq, Structural)]
pub struct OutputStep {
    pub gate: FrameGate,
    /// The output takes the frame at depth 0 and had a control timebase: remove it.
    pub drop_timebase: bool,
    /// The output takes the frame at a depth above 0: it is paced on its control timebase, whose
    /// current time [`pace_output`] needs.
    pub needs_clock: bool,
    /// The output takes the frame at a depth above 0 and has no control timebase yet: one is made
    /// and attached to its layer first.
    pub new_timebase: bool,
}

/// The decisions for one frame.
pub struct FramePlan {
    /// No format description yet, or no output: nothing to decode.
    pub skip: bool,
    /// The output whose layer failed: the stream ends there (outputs before it were handled).
    pub stopped_at: Option<usize>,
    /// One step per output handled, in output order.
    pub steps: Vec<OutputStep>,
    /// The sample is tagged to be shown at once (smoothing depth 0).
    pub display_immediately: bool,
    /// Some output takes the frame, so one sample is made.
    pub make_sample: bool,
    /// The frame counts as presented (a sample was made and the stream goes on).
    pub count_presented: bool,
}

/// What an output becomes and does for the current frame, given its layer's status, whether the
/// frame carries an intra picture, and the smoothing depth.
pub open spec fn output_step<L>(o: OutputView<L>, status: LayerStatus, intra: bool, depth: u32) -> (OutputView<L>, OutputStep) {
    match status {
        LayerStatus::Failed => (o, OutputStep { gate: FrameGate::Fail, drop_timebase: false, needs_clock: false, new_timebase: false }),
        LayerStatus::NeedsFlush => (
            OutputView { wait_for_idr: true, pacing: o.pacing.without_anchor(), ..o },
            OutputStep { gate: FrameGate::Flush, drop_timebase: false, needs_clock: false, new_timebase: false },
        ),
        LayerStatus::Ready => if o.wait_for_idr && !intra {
            (o, OutputStep { gate: FrameGate::Skip, drop_timebase: false, needs_clock: false, new_timebase: false })
        } else if depth == 0 {
            (
                OutputView { wait_for_idr: false, has_timebase: false, ..o },
                OutputStep { gate: FrameGate::Take, drop_timebase: o.has_timebase, needs_clock: false, new_timebase: false },
            )
        } else {
            (
                OutputView { wait_for_idr: false, ..o },
                OutputStep { gate: FrameGate::Take, drop_timebase: false, needs_clock: true, new_timebase: !o.has_timebase },
            )
        },
    }
}

/// Decide one output whose layer has not failed, as [`output_step`] says. `intra` caches whether
/// the frame carries an intra picture: it is computed at most once per frame, and only when a
/// session waits for one.
fn step_output<L>(out: &mut Output<L>, status: LayerStatus, hevc: bool, au: &[u8], intra: &mut Option<bool>, depth: u32) -> (st: OutputStep)
    requires
        status != LayerStatus::Failed,
        *old(intra) matches Some(b) ==> b == spec_has_intra_frame(hevc, au@),
    ensures
        (output_view(*final(out)), st) == output_step(output_view(*old(out)), status, spec_has_intra_frame(hevc, au@), depth),
        *final(intra) matches Some(b) ==> b == spec_has_intra_frame(hevc, au@),
{
    match status {
        LayerStatus::Failed => OutputStep { gate: FrameGate::Fail, drop_timebase: false, needs_clock: false, new_timebase: false },
        LayerStatus::NeedsFlush => {
            out.wait_for_idr = true;
            let mut pacing = out.pacing.copy_of();
            pacing.clear_anchor();
            out.pacing = pacing;
            OutputStep { gate: FrameGate::Flush, drop_timebase: false, needs_clock: false, new_timebase: false }
        },
        LayerStatus::Ready => {
            let waiting = out.wait_for_idr;
            let is_intra = if waiting {
                match *intra {
                    Some(b) => b,
                    None => {
                        let b = has_intra_frame(hevc, au);
                        *intra = Some(b);
                        b
                    },
                }
            } else {
                false
            };
            if waiting && !is_intra {
                OutputStep { gate: FrameGate::Skip, drop_timebase: false, needs_clock: false, new_timebase: false }
            } else {
                out.wait_for_idr = false;
                if depth == 0 {
                    let had = out.has_timebase;
                    out.has_timebase = false;
                    OutputStep { gate: FrameGate::Take, drop_timebase: had, needs_clock: false, new_timebase: false }
                } else {
                    let fresh = !out.has_timebase;
                    OutputStep { gate: FrameGate::Take, drop_timebase: false, needs_clock: true, new_timebase: fresh }
                }
            }
        },
    }
}

/// Index of the first failed layer at or after `i`, or the number of statuses.
pub open spec fn first_failed(statuses: Seq<LayerStatus>, i: int) -> int
    decreases statuses.len() - i,
{
    if i < 0 || i >= statuses.len() {
        statuses.len() as int
    } else if statuses[i] == LayerStatus::Failed {
        i
    } else {
        first_failed(statuses, i + 1)
    }
}

proof fn lemma_first_failed(statuses: Seq<LayerStatus>, i: int)
    requires
        0 <= i <= statuses.len(),
    ensures
        i <= first_failed(statuses, i) <= statuses.len(),
        first_failed(statuses, i) < statuses.len() ==> statuses[first_failed(statuses, i)] == LayerStatus::Failed,
        forall|j: int| i <= j < first_failed(statuses, i) ==> statuses[j] != LayerStatus::Failed,
    decreases statuses.len() - i,
{
    if i < statuses.len() && statuses[i] != LayerStatus::Failed {
        lemma_first_failed(statuses, i + 1);
    }
}

/// Some handled output takes the frame.
pub open spec fn some_take(steps: Seq<OutputStep>) -> bool {
    exists|i: int| 0 <= i < steps.len() && #[trigger] steps[i].gate == FrameGate::Take
}

/// Decide the current frame for every output, in order, given each layer's status (`statuses`,
/// one per output), whether a format description exists (`has_desc`), and the smoothing depth.
/// Each handled output is updated as its step says; handling stops at the first failed layer.
#[verifier::spinoff_prover]
pub fn plan_frame<L>(outs: &mut Vec<Output<L>>, hevc: bool, au: &[u8], has_desc: bool, depth: u32, statuses: &[LayerStatus]) -> (p: FramePlan)
    requires
        statuses@.len() == old(outs)@.len(),
    ensures
        final(outs)@.len() == old(outs)@.len(),
        p.display_immediately == (depth == 0),
        p.skip == (!has_desc || old(outs)@.len() == 0),
        p.skip ==> *final(outs) == *old(outs) && p.steps@.len() == 0 && p.stopped_at is None
            && !p.make_sample && !p.count_presented,
        !p.skip ==> ({
            let f = first_failed(statuses@, 0);
            let intra = spec_has_intra_frame(hevc, au@);
            &&& p.steps@.len() == f
            &&& p.stopped_at == (if f < statuses@.len() { Some(f as usize) } else { None })
            &&& forall|i: int| 0 <= i < f ==> #[trigger] output_view(final(outs)@[i]) == output_step(output_view(old(outs)@[i]), statuses@[i], intra, depth).0
                && p.steps@[i] == output_step(output_view(old(outs)@[i]), statuses@[i], intra, depth).1
            &&& forall|i: int| f <= i < final(outs)@.len() ==> #[trigger] final(outs)@[i] == old(outs)@[i]
            &&& p.make_sample == some_take(p.steps@)
            &&& p.count_presented == (some_take(p.steps@) && p.stopped_at is None)
        }),
{
    if !has_desc || outs.len() == 0 {
        return FramePlan { skip: true, stopped_at: None, steps: Vec::new(), display_immediately: depth == 0, make_sample: false, count_presented: false };
    }
    proof {
        lemma_first_failed(statuses@, 0);
    }
    let ghost f = first_failed(statuses@, 0);
    let ghost intra_s = spec_has_intra_frame(hevc, au@);
    let mut intra: Option<bool> = None;
    let mut steps: Vec<OutputStep> = Vec::new();
    let mut stopped_at: Option<usize> = None;
    let mut take = false;
    let mut go = true;
    let mut i: usize = 0;
    while go && i < outs.len()
        invariant
            statuses@.len() == old(outs)@.len(),
            outs@.len() == old(outs)@.len(),
            f == first_failed(statuses@, 0),
            0 <= f <= statuses@.len(),
            f < statuses@.len() ==> statuses@[f] == LayerStatus::Failed,
            forall|j: int| 0 <= j < f ==> statuses@[j] != LayerStatus::Failed,
            intra_s == spec_has_intra_frame(hevc, au@),
            intra matches Some(b) ==> b == intra_s,
            i <= f,
            go ==> stopped_at is None,
            !go ==> stopped_at == Some(i) && i as int == f && i < outs@.len(),
            steps@.len() == i,
            forall|j: int| 0 <= j < i ==> #[trigger] output_view(outs@[j]) == output_step(output_view(old(outs)@[j]), statuses@[j], intra_s, depth).0
                && steps@[j] == output_step(output_view(old(outs)@[j]), statuses@[j], intra_s, depth).1,
            forall|j: int| i <= j < outs@.len() ==> #[trigger] outs@[j] == old(outs)@[j],
            take == some_take(steps@),
        decreases outs.len() - i + (if go { 1int } else { 0int }),
    {
        let status = statuses[i];
        let ghost o0 = outs@;
        let ghost ov = output_view(outs@[i as int]);
        let ghost s0 = steps@;
        if status == LayerStatus::Failed {
            stopped_at = Some(i);
            go = false;
            assert(i as int == f);
        } else {
            let st = step_output(&mut outs[i], status, hevc, au, &mut intra, depth);
            steps.push(st);
            if st.gate == FrameGate::Take {
                take = true;
            }
            proof {
                assert(steps@[i as int] == output_step(ov, statuses@[i as int], intra_s, depth).1);
                assert(output_view(outs@[i as int]) == output_step(ov, statuses@[i as int], intra_s, depth).0);
                assert(forall|j: int| 0 <= j < i ==> steps@[j] == s0[j]);
                assert(outs@.len() == o0.len());
                assert forall|j: int| 0 <= j < outs@.len() && j != i implies outs@[j] == o0[j] by {}
                assert forall|j: int| 0 <= j < i + 1 implies #[trigger] output_view(outs@[j]) == output_step(output_view(old(outs)@[j]), statuses@[j], intra_s, depth).0
                    && steps@[j] == output_step(output_view(old(outs)@[j]), statuses@[j], intra_s, depth).1 by {
                    if j < i {
                        assert(outs@[j] == o0[j]);
                        assert(steps@[j] == s0[j]);
                    }
                }
                if steps@[i as int].gate == FrameGate::Take {
                    assert(some_take(steps@));
                } else if some_take(steps@) {
                    let w = choose|w: int| 0 <= w < steps@.len() && #[trigger] steps@[w].gate == FrameGate::Take;
                    assert(w < i);
                    assert(some_take(s0));
                }
                if some_take(s0) {
                    let w = choose|w: int| 0 <= w < s0.len() && #[trigger] s0[w].gate == FrameGate::Take;
                    assert(steps@[w] == s0[w]);
                }
            }
            i += 1;
        }
    }
    proof {
        if go {
            assert(i as int == outs@.len());
            assert(f == statuses@.len());
        } else {
            assert(f < statuses@.len());
            assert(f as usize == i);
        }
        assert(steps@.len() == f);
        assert(stopped_at == (if f < statuses@.len() { Some(f as usize) } else { None }));
        assert(forall|j: int| f <= j < outs@.len() ==> #[trigger] outs@[j] == old(outs)@[j]);
        assert(forall|j: int| 0 <= j < f ==> #[trigger] output_view(outs@[j]) == output_step(output_view(old(outs)@[j]), statuses@[j], intra_s, depth).0
                && steps@[j] == output_step(output_view(old(outs)@[j]), statuses@[j], intra_s, depth).1);
    }
    FramePlan { skip: false, stopped_at, steps, display_immediately: depth == 0, make_sample: take, count_presented: take && stopped_at.is_none() }
}

/// Pace an output that took the frame at depth `depth` above 0 on its control timebase, whose
/// current time the app read (after making the timebase where the step asked for one). The output
/// now has a timebase; returns the time that timebase is set to when the timeline is re-anchored.
pub fn pace_output<L>(out: &mut Output<L>, depth: u32, now_value: i64, now_timescale: i32, pts: i64) -> (set_to: Option<i64>)
    requires
        old(out).pacing.schedule_fits(now_value, now_timescale, pts, depth),
    ensures
        ({
            let r = old(out).pacing.scheduled(now_value, now_timescale, pts, depth);
            &&& output_view(*final(out)) == (OutputView { pacing: r.0, has_timebase: true, ..output_view(*old(out)) })
            &&& set_to == r.1
        }),
{
    let mut pacing = out.pacing.copy_of();
    let t = pacing.schedule(now_value, now_timescale, pts, depth);
    out.pacing = pacing;
    out.has_timebase = true;
    t
}

/// The error a failed layer ends the stream with.
pub fn layer_failure_message(key: &str, msg: &str) -> (m: String)
    ensures
        m@ == "decode failed ("@ + key@ + "): "@ + msg@,
{
    let mut m = String::from_str("decode failed (");
    m.append(key);
    m.append("): ");
    m.append(msg);
    m
}

/// What happens to one output between two frames, or with one frame.
pub ghost enum OutputEvent {
    /// A frame arrives, its layer reporting `status`; `intra` says whether it carries an intra
    /// picture.
    Frame(LayerStatus, bool),
    /// A format description was built from new parameter sets ([`description_built`]).
    NewSets,
}

/// An output after one event, as [`plan_frame`] and [`description_built`] leave it.
pub open spec fn after_event<L>(o: OutputView<L>, e: OutputEvent, depth: u32) -> OutputView<L> {
    match e {
        OutputEvent::Frame(status, intra) => output_step(o, status, intra, depth).0,
        OutputEvent::NewSets => OutputView { wait_for_idr: true, ..o },
    }
}

/// The output takes the frame of this event.
pub open spec fn takes<L>(o: OutputView<L>, e: OutputEvent, depth: u32) -> bool {
    match e {
        OutputEvent::Frame(status, intra) => output_step(o, status, intra, depth).1.gate == FrameGate::Take,
        OutputEvent::NewSets => false,
    }
}

/// An output after a run of events, in order.
pub open spec fn after_events<L>(o: OutputView<L>, events: Seq<OutputEvent>, depth: u32) -> OutputView<L>
    decreases events.len(),
{
    if events.len() == 0 {
        o
    } else {
        after_event(after_events(o, events.drop_last(), depth), events.last(), depth)
    }
}

/// Resume on a keyframe: once an output waits for an intra frame (it was just created, new sets
/// were described, or its layer was flushed), the first frame it takes after that is an intra
/// frame — every frame before it is dropped for that output, so its decoder never starts
/// mid-picture-group.
pub proof fn law_resume_on_keyframe<L>(o: OutputView<L>, events: Seq<OutputEvent>, depth: u32, j: int, k: int)
    requires
        0 <= j <= k < events.len(),
        after_events(o, events.take(j), depth).wait_for_idr,
        forall|m: int| j <= m < k ==> !takes(after_events(o, #[trigger] events.take(m), depth), events[m], depth),
        takes(after_events(o, events.take(k), depth), events[k], depth),
    ensures
        events[k] matches OutputEvent::Frame(_, intra) && intra,
    decreases k - j,
{
    if j < k {
        let v = after_events(o, events.take(j), depth);
        assert(events.take(j + 1).drop_last() =~= events.take(j));
        assert(events.take(j + 1).last() == events[j]);
        assert(!takes(v, events[j], depth));
        assert(after_events(o, events.take(j + 1), depth).wait_for_idr);
        law_resume_on_keyframe(o, events, depth, j + 1, k);
    }
}

/// The events that send an output back to waiting for an intra frame: new sets, and a layer that
/// needs a flush.
pub proof fn law_restart_events_wait<L>(o: OutputView<L>, intra: bool, depth: u32)
    ensures
        after_event(o, OutputEvent::NewSets, depth).wait_for_idr,
        after_event(o, OutputEvent::Frame(LayerStatus::NeedsFlush, intra), depth).wait_for_idr,
{
}

/// What the decode thread and the surface router are told, in order.
pub ghost enum SinkCommand {
    /// The router publishes a surface list ([`Shared::set_surfaces`](crate::apple_sink::Shared::set_surfaces)).
    Publish(Seq<SinkSurface>),
    /// The decode thread takes its next command: it first follows the published surfaces.
    Take,
}

/// The published revision and list, and the revision the decode thread last applied with the
/// list it handed to the outputs then.
pub ghost struct SinkModel {
    pub rev: u64,
    pub list: Seq<SinkSurface>,
    pub applied: u64,
    pub synced: Seq<SinkSurface>,
}

/// The state the sink starts in: revision 0, nothing published, nothing applied.
pub open spec fn sink_start() -> SinkModel {
    SinkModel { rev: 0, list: Seq::empty(), applied: NEVER_APPLIED, synced: Seq::empty() }
}

/// `t` may follow `s` on command `c`: a publish is what `set_surfaces` allows, and taking a
/// command re-syncs the outputs to the published list exactly when [`resync_needed`] says so.
pub open spec fn sink_step(s: SinkModel, c: SinkCommand, t: SinkModel) -> bool {
    match c {
        SinkCommand::Publish(surfaces) => {
            &&& t.applied == s.applied
            &&& t.synced == s.synced
            &&& if same_list(s.list, capped(surfaces)) {
                t.rev == s.rev && t.list == s.list
            } else {
                t.rev == s.rev.wrapping_add(1) && same_list(t.list, capped(surfaces))
            }
        },
        SinkCommand::Take => {
            &&& t.rev == s.rev
            &&& t.list == s.list
            &&& if s.applied != s.rev {
                t.applied == s.rev && t.synced == s.list
            } else {
                t.applied == s.applied && t.synced == s.synced
            }
        },
    }
}

/// The surfaces published last among the first `n` commands (none before any publish).
pub open spec fn last_published(cmds: Seq<SinkCommand>, n: int) -> Seq<SinkSurface>
    decreases n,
{
    if n <= 0 || n > cmds.len() {
        Seq::empty()
    } else {
        match cmds[n - 1] {
            SinkCommand::Publish(surfaces) => surfaces,
            SinkCommand::Take => last_published(cmds, n - 1),
        }
    }
}

proof fn lemma_sink_run(cmds: Seq<SinkCommand>, states: Seq<SinkModel>, n: int)
    requires
        states.len() == cmds.len() + 1,
        cmds.len() < NEVER_APPLIED,
        states[0] == sink_start(),
        forall|k: int| 0 <= k < cmds.len() ==> sink_step(#[trigger] states[k], cmds[k], states[k + 1]),
        0 <= n <= cmds.len(),
    ensures
        states[n].rev <= n,
        states[n].applied == NEVER_APPLIED || states[n].applied <= states[n].rev,
        states[n].applied == states[n].rev ==> states[n].synced == states[n].list,
        same_list(states[n].list, capped(last_published(cmds, n))),
    decreases n,
{
    if n == 0 {
        assert(capped(Seq::<SinkSurface>::empty()) == Seq::<SinkSurface>::empty());
    } else {
        lemma_sink_run(cmds, states, n - 1);
        let s = states[n - 1];
        let t = states[n];
        assert(sink_step(s, cmds[n - 1], t));
        match cmds[n - 1] {
            SinkCommand::Publish(surfaces) => {
                if !same_list(s.list, capped(surfaces)) {
                    assert(s.rev < NEVER_APPLIED);
                    assert(t.rev == s.rev + 1);
                }
            },
            SinkCommand::Take => {
                assert(last_published(cmds, n) == last_published(cmds, n - 1));
            },
        }
    }
}

/// A frame lands in the layout published last: over any run of publishes and taken commands
/// (fewer than `u64::MAX` of them, so the revision cannot come round to the one the thread starts
/// with), whenever the decode thread takes a command, the list its outputs follow is the one
/// published last — lists superseded in between are never applied.
pub proof fn law_latest_layout_wins(cmds: Seq<SinkCommand>, states: Seq<SinkModel>, k: int)
    requires
        states.len() == cmds.len() + 1,
        cmds.len() < NEVER_APPLIED,
        states[0] == sink_start(),
        forall|i: int| 0 <= i < cmds.len() ==> sink_step(#[trigger] states[i], cmds[i], states[i + 1]),
        0 <= k < cmds.len(),
        cmds[k] is Take,
    ensures
        states[k + 1].applied == states[k + 1].rev,
        states[k + 1].synced == states[k + 1].list,
        same_list(states[k + 1].synced, capped(last_published(cmds, k + 1))),
{
    lemma_sink_run(cmds, states, k);
    lemma_sink_run(cmds, states, k + 1);
    assert(sink_step(states[k], cmds[k], states[k + 1]));
}

/// Taking a frame ends the wait for an intra frame, at every smoothing depth; a waiting output
/// takes a frame of a ready layer exactly when it is an intra frame, and an output that does not
/// wait takes every frame its ready layer gets.
pub proof fn law_taking_ends_the_wait<L>(o: OutputView<L>, status: LayerStatus, intra: bool, depth: u32)
    ensures
        output_step(o, status, intra, depth).1.gate == FrameGate::Take ==> !output_step(o, status, intra, depth).0.wait_for_idr,
        status == LayerStatus::Ready && !o.wait_for_idr ==> output_step(o, status, intra, depth).1.gate == FrameGate::Take,
        status == LayerStatus::Ready && o.wait_for_idr ==> (output_step(o, status, intra, depth).1.gate == FrameGate::Take <==> intra),
        status != LayerStatus::Ready ==> output_step(o, status, intra, depth).1.gate != FrameGate::Take,
{
}

/// Once an output has taken a frame, it takes every later frame its ready layer gets, intra or
/// not, until something sends it back to waiting.
pub proof fn law_taken_keeps_taking<L>(o: OutputView<L>, events: Seq<OutputEvent>, depth: u32, j: int, k: int)
    requires
        0 <= j <= k < events.len(),
        takes(after_events(o, events.take(j), depth), events[j], depth),
        forall|m: int| j < m <= k ==> #[trigger] events[m] matches OutputEvent::Frame(LayerStatus::Ready, _),
    ensures
        takes(after_events(o, events.take(k), depth), events[k], depth),
    decreases k - j,
{
    if j < k {
        let v = after_events(o, events.take(j), depth);
        assert(events.take(j + 1).drop_last() =~= events.take(j));
        assert(events.take(j + 1).last() == events[j]);
        law_taking_ends_the_wait(v, events[j]->Frame_0, events[j]->Frame_1, depth);
        let w = after_events(o, events.take(j + 1), depth);
        assert(!w.wait_for_idr);
        assert(events[j + 1] matches OutputEvent::Frame(LayerStatus::Ready, _));
        law_taking_ends_the_wait(w, events[j + 1]->Frame_0, events[j + 1]->Frame_1, depth);
        law_taken_keeps_taking(o, events, depth, j + 1, k);
    }
}

} // verus!
