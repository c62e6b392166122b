//! The live outputs of the macOS decode sink and how they follow the published surfaces. One
//! output per on-screen surface, each with its own display layer: a surface that appears gets a
//! layer, one that moved gets its new rect, one that left is dropped entirely (a kept layer would
//! keep decoding), and the layers are stacked the way the DOM stacks their surfaces.

use vstd::prelude::*;
use crate::apple_sink::Pacing;
use crate::surface::{SinkSurface, spec_rect_of};

verus! {

/// One live output: the surface it serves, its layer, and what belongs to that layer's
/// decoding session.
pub struct Output<L> {
    pub key: String,
    pub layer: L,
    /// This session starts on an intra frame; a flush or new parameter sets restart the wait.
    pub wait_for_idr: bool,
    /// The layer has a control timebase (it is paced rather than shown immediately).
    pub has_timebase: bool,
    pub pacing: Pacing,
    /// Last rect handed to the host — placing is a main-thread hop, so it happens on change only.
    pub rect: [i32; 8],
}

/// What a display layer reports before a frame is enqueued.
#[derive(Debug, Clone, Copy, PartialEq, Eq, Structural)]
pub enum LayerStatus {
    /// Decoding failed for good: the stream ends.
    Failed,
    /// The layer needs a flush before it accepts anything again.
    NeedsFlush,
    /// Ready for the next sample.
    Ready,
}

/// What happens to one output for the current frame.
#[derive(Debug, Clone, Copy, PartialEq, Eq, Structural)]
pub enum FrameGate {
    /// Stop the stream with the layer's error.
    Fail,
    /// Flush the layer; the session waits for the next intra frame.
    Flush,
    /// Skip this frame: the session waits for an intra frame.
    Skip,
    /// Enqueue the frame.
    Take,
}

impl<L> Output<L> {
    /// Decide on one output for the current frame, given its layer's status and whether the frame
    /// carries an intra picture: a failed layer ends the stream; a layer that needs a flush is
    /// flushed and restarts on the next intra frame with a new timeline; a session waiting for an
    /// intra frame skips until one arrives.
    pub fn on_frame(&mut self, status: LayerStatus, intra: bool) -> (g: FrameGate)
        ensures
            status == LayerStatus::Failed ==> g == FrameGate::Fail && *final(self) == *old(self),
            status == LayerStatus::NeedsFlush ==> g == FrameGate::Flush && final(self).wait_for_idr
                && final(self).pacing == old(self).pacing.without_anchor(),
            status == LayerStatus::Ready ==> g == (if !old(self).wait_for_idr || intra {
                FrameGate::Take
            } else {
                FrameGate::Skip
            }) && final(self).wait_for_idr == (old(self).wait_for_idr && !intra)
                && final(self).pacing == old(self).pacing,
            final(self).key == old(self).key,
            final(self).layer == old(self).layer,
            final(self).rect == old(self).rect,
            final(self).has_timebase == old(self).has_timebase,
    {
        match status {
            LayerStatus::Failed => FrameGate::Fail,
            LayerStatus::NeedsFlush => {
                self.restart();
                FrameGate::Flush
            },
            LayerStatus::Ready => {
                if self.admits_frame(intra) {
                    FrameGate::Take
                } else {
                    FrameGate::Skip
                }
            },
        }
    }

    /// Whether this output takes the current frame: a session that waits for an intra frame drops
    /// everything until one arrives, so the decoder never restarts mid-GOP. `intra` says whether
    /// the frame carries one.
    pub fn admits_frame(&mut self, intra: bool) -> (take: bool)
        ensures
            take == (!old(self).wait_for_idr || intra),
            final(self).wait_for_idr == (old(self).wait_for_idr && !intra),
            final(self).key == old(self).key,
            final(self).layer == old(self).layer,
            final(self).pacing == old(self).pacing,
            final(self).rect == old(self).rect,
            final(self).has_timebase == old(self).has_timebase,
    {
        if self.wait_for_idr {
            if !intra {
                return false;
            }
            self.wait_for_idr = false;
        }
        true
    }

    /// The layer was flushed: wait for the next intra frame and start a new timeline.
    pub fn restart(&mut self)
        ensures
            final(self).wait_for_idr,
            final(self).pacing == old(self).pacing.without_anchor(),
            final(self).key == old(self).key,
            final(self).layer == old(self).layer,
            final(self).rect == old(self).rect,
            final(self).has_timebase == old(self).has_timebase,
    {
        self.wait_for_idr = true;
        self.pacing.clear_anchor();
    }
}

/// New parameter sets mid-stream: every session must restart on the next intra frame.
pub fn await_keyframe<L>(outs: &mut Vec<Output<L>>)
    ensures
        final(outs)@.len() == old(outs)@.len(),
        forall|i: int|
            0 <= i < final(outs)@.len() ==> #[trigger] output_view(final(outs)@[i]) == (OutputView {
                wait_for_idr: true,
                ..output_view(old(outs)@[i])
            }),
{
    let mut i: usize = 0;
    while i < outs.len()
        invariant
            i <= outs@.len(),
            outs@.len() == old(outs)@.len(),
            forall|j: int|
                0 <= j < i ==> #[trigger] output_view(outs@[j]) == (OutputView {
                    wait_for_idr: true,
                    ..output_view(old(outs)@[j])
                }),
            forall|j: int| i <= j < outs@.len() ==> #[trigger] outs@[j] == old(outs)@[j],
        decreases outs.len() - i,
    {
        outs[i].wait_for_idr = true;
        i += 1;
    }
}

/// A main-thread request for the host, in the order it has to be carried out.
pub enum HostAction {
    /// Take the output's container out of its window.
    Remove(String),
    /// Lay the output out at this rect (full box, then visible box).
    Place(String, [i32; 8]),
    /// Stack the containers in this order, highest priority first.
    Restack(Vec<String>),
}

/// An output as its key's characters and its other fields.
pub ghost struct OutputView<L> {
    pub key: Seq<char>,
    pub layer: L,
    pub wait_for_idr: bool,
    pub has_timebase: bool,
    pub pacing: Pacing,
    pub rect: [i32; 8],
}

/// A host request with its strings as characters.
pub ghost enum HostStep {
    Remove(Seq<char>),
    Place(Seq<char>, [i32; 8]),
    Restack(Seq<Seq<char>>),
}

pub open spec fn output_view<L>(o: Output<L>) -> OutputView<L> {
    OutputView { key: o.key@, layer: o.layer, wait_for_idr: o.wait_for_idr, has_timebase: o.has_timebase, pacing: o.pacing, rect: o.rect }
}

pub open spec fn outputs_view<L>(v: Seq<Output<L>>) -> Seq<OutputView<L>> {
    v.map_values(|o: Output<L>| output_view(o))
}

pub open spec fn keys_view(v: Seq<String>) -> Seq<Seq<char>> {
    v.map_values(|s: String| s@)
}

pub open spec fn action_view(a: HostAction) -> HostStep {
    match a {
        HostAction::Remove(k) => HostStep::Remove(k@),
        HostAction::Place(k, r) => HostStep::Place(k@, r),
        HostAction::Restack(v) => HostStep::Restack(keys_view(v@)),
    }
}

pub open spec fn actions_view(v: Seq<HostAction>) -> Seq<HostStep> {
    v.map_values(|a: HostAction| action_view(a))
}

/// Some published surface has this key.
pub open spec fn is_wanted(want: Seq<SinkSurface>, key: Seq<char>) -> bool {
    exists|i: int| 0 <= i < want.len() && #[trigger] want[i].key@ == key
}

/// The first `n` outputs that some published surface still wants, in order.
pub open spec fn kept_upto<L>(outs: Seq<OutputView<L>>, want: Seq<SinkSurface>, n: int) -> Seq<OutputView<L>>
    decreases n,
{
    if n <= 0 {
        seq![]
    } else if is_wanted(want, outs[n - 1].key) {
        kept_upto(outs, want, n - 1).push(outs[n - 1])
    } else {
        kept_upto(outs, want, n - 1)
    }
}

/// The first `n` outputs that no published surface wants any more, in order.
pub open spec fn gone_upto<L>(outs: Seq<OutputView<L>>, want: Seq<SinkSurface>, n: int) -> Seq<OutputView<L>>
    decreases n,
{
    if n <= 0 {
        seq![]
    } else if is_wanted(want, outs[n - 1].key) {
        gone_upto(outs, want, n - 1)
    } else {
        gone_upto(outs, want, n - 1).push(outs[n - 1])
    }
}

/// The removal requests for dropped outputs, in order.
pub open spec fn removals<L>(gone: Seq<OutputView<L>>) -> Seq<HostStep> {
    gone.map_values(|o: OutputView<L>| HostStep::Remove(o.key))
}

/// Index of the first output with this key at or after `i`, or -1.
pub open spec fn first_key<L>(outs: Seq<OutputView<L>>, key: Seq<char>, i: int) -> int
    decreases outs.len() - i,
{
    if i < 0 || i >= outs.len() {
        -1
    } else if outs[i].key == key {
        i
    } else {
        first_key(outs, key, i + 1)
    }
}

/// One surface of the published list applied to the outputs: an existing output whose rect moved
/// takes the new rect and is placed again; a surface without an output gets one when a layer could
/// be made for it (`made`), which starts waiting for an intra frame and is placed.
pub open spec fn place_step<L>(
    outs: Seq<OutputView<L>>,
    steps: Seq<HostStep>,
    s: SinkSurface,
    made: Option<L>,
) -> (Seq<OutputView<L>>, Seq<HostStep>) {
    let i = first_key(outs, s.key@, 0);
    let r = spec_rect_of(s);
    if i >= 0 {
        if outs[i].rect != r {
            (outs.update(i, OutputView { rect: r, ..outs[i] }), steps.push(HostStep::Place(s.key@, r)))
        } else {
            (outs, steps)
        }
    } else {
        match made {
            Some(layer) => (
                outs.push(OutputView { key: s.key@, layer, wait_for_idr: true, has_timebase: false, pacing: Pacing::unanchored(), rect: r }),
                steps.push(HostStep::Place(s.key@, r)),
            ),
            None => (outs, steps),
        }
    }
}

/// The first `k` surfaces applied in order, with the layer-creation outcomes `made`.
pub open spec fn placed_upto<L>(
    outs: Seq<OutputView<L>>,
    want: Seq<SinkSurface>,
    made: Seq<Option<L>>,
    k: int,
) -> (Seq<OutputView<L>>, Seq<HostStep>)
    decreases k,
{
    if k <= 0 {
        (outs, seq![])
    } else {
        let prev = placed_upto(outs, want, made, k - 1);
        place_step(prev.0, prev.1, want[k - 1], made[k - 1])
    }
}

/// The keys of the first `n` published surfaces that have an output, in published order.
pub open spec fn order_upto<L>(want: Seq<SinkSurface>, outs: Seq<OutputView<L>>, n: int) -> Seq<Seq<char>>
    decreases n,
{
    if n <= 0 {
        seq![]
    } else if first_key(outs, want[n - 1].key@, 0) >= 0 {
        order_upto(want, outs, n - 1).push(want[n - 1].key@)
    } else {
        order_upto(want, outs, n - 1)
    }
}

/// Whether some published surface has this key.
fn wanted(key: &String, want: &[SinkSurface]) -> (b: bool)
    ensures
        b == is_wanted(want@, key@),
{
    let mut i: usize = 0;
    while i < want.len()
        invariant
            i <= want.len(),
            forall|j: int| 0 <= j < i ==> want@[j].key@ != key@,
        decreases want.len() - i,
    {
        if want[i].key == *key {
            assert(want@[i as int].key@ == key@);
            return true;
        }
        i += 1;
    }
    false
}

/// Drop every output that no published surface wants any more. Returns the dropped outputs (their
/// layers have to be flushed) and one removal request per dropped output, both in order.
#[verifier::spinoff_prover]
pub fn drop_unwanted<L>(outs: &mut Vec<Output<L>>, want: &[SinkSurface]) -> (r: (Vec<Output<L>>, Vec<HostAction>))
    ensures
        outputs_view(final(outs)@) == kept_upto(outputs_view(old(outs)@), want@, old(outs)@.len() as int),
        outputs_view(r.0@) == gone_upto(outputs_view(old(outs)@), want@, old(outs)@.len() as int),
        actions_view(r.1@) == removals(gone_upto(outputs_view(old(outs)@), want@, old(outs)@.len() as int)),
{
    let ghost ov0 = outputs_view(outs@);
    let ghost n = outs@.len() as int;
    let mut dropped: Vec<Output<L>> = Vec::new();
    let mut actions: Vec<HostAction> = Vec::new();
    let mut i: usize = 0;
    let ghost mut j: int = 0;
    while i < outs.len()
        invariant
            0 <= j <= n,
            ov0.len() == n,
            outputs_view(outs@) == kept_upto(ov0, want@, j) + ov0.subrange(j, n),
            i as int == kept_upto(ov0, want@, j).len(),
            outputs_view(dropped@) == gone_upto(ov0, want@, j),
            actions_view(actions@) == removals(gone_upto(ov0, want@, j)),
        decreases outs.len() - i,
    {
        assert(outputs_view(outs@)[i as int] == ov0[j]);
        let ghost before = outputs_view(outs@);
        if wanted(&outs[i].key, want) {
            i += 1;
            proof {
                assert(kept_upto(ov0, want@, j + 1) + ov0.subrange(j + 1, n) =~= kept_upto(ov0, want@, j) + ov0.subrange(j, n));
            }
        } else {
            let o = outs.remove(i);
            let k = o.key.clone();
            assert(k@ == ov0[j].key);
            let ghost acts0 = actions@;
            actions.push(HostAction::Remove(k));
            dropped.push(o);
            proof {
                assert(outputs_view(outs@) =~= before.remove(i as int));
                assert(before.remove(i as int) =~= kept_upto(ov0, want@, j) + ov0.subrange(j + 1, n));
                assert(outputs_view(dropped@) =~= gone_upto(ov0, want@, j).push(ov0[j]));
                assert(gone_upto(ov0, want@, j + 1) == gone_upto(ov0, want@, j).push(ov0[j]));
                assert(actions_view(actions@) =~= actions_view(acts0).push(HostStep::Remove(ov0[j].key)));
                assert(actions_view(actions@) =~= removals(gone_upto(ov0, want@, j + 1)));
            }
        }
        proof {
            j = j + 1;
        }
    }
    proof {
        assert(ov0.subrange(j, n) =~= Seq::<OutputView<L>>::empty());
        assert(outputs_view(outs@) =~= kept_upto(ov0, want@, n));
    }
    (dropped, actions)
}

/// Whether the surface at `k` had no output when its turn came, so a layer was asked for.
pub open spec fn asked_for_layer<L>(
    outs: Seq<OutputView<L>>,
    want: Seq<SinkSurface>,
    made: Seq<Option<L>>,
    k: int,
) -> bool {
    first_key(placed_upto(outs, want, made, k).0, want[k].key@, 0) < 0
}

proof fn lemma_placed_prefix<L>(
    outs: Seq<OutputView<L>>,
    want: Seq<SinkSurface>,
    made: Seq<Option<L>>,
    x: Option<L>,
    k: int,
)
    requires
        0 <= k <= made.len(),
    ensures
        placed_upto(outs, want, made.push(x), k) == placed_upto(outs, want, made, k),
    decreases k,
{
    if k > 0 {
        lemma_placed_prefix(outs, want, made, x, k - 1);
        assert(made.push(x)[k - 1] == made[k - 1]);
    }
}

/// Index of the first output with this key.
fn find_output<L>(outs: &Vec<Output<L>>, key: &String) -> (r: Option<usize>)
    ensures
        match r {
            Some(i) => i as int == first_key(outputs_view(outs@), key@, 0),
            None => first_key(outputs_view(outs@), key@, 0) == -1,
        },
        r matches Some(i) ==> i < outs@.len(),
{
    let ghost v = outputs_view(outs@);
    let mut i: usize = 0;
    while i < outs.len()
        invariant
            v == outputs_view(outs@),
            i <= outs@.len(),
            first_key(v, key@, 0) == first_key(v, key@, i as int),
        decreases outs.len() - i,
    {
        assert(v[i as int].key == outs@[i as int].key@);
        if outs[i].key == *key {
            return Some(i);
        }
        i += 1;
    }
    None
}

/// Whether two rects are the same.
fn rect_eq(a: &[i32; 8], b: &[i32; 8]) -> (r: bool)
    ensures
        r == (*a == *b),
{
    let mut i: usize = 0;
    while i < 8
        invariant
            i <= 8,
            forall|j: int| 0 <= j < i ==> a[j] == b[j],
        decreases 8 - i,
    {
        if a[i] != b[i] {
            return false;
        }
        i += 1;
    }
    proof {
        vstd::array::axiom_array_ext_equal(*a, *b);
    }
    true
}

/// Apply the published surfaces in order: an output that moved is placed at its new rect, and a
/// surface without an output gets one when `create` makes it a layer. Returns the placement
/// requests in order. `create` may fail (its window is already closing, say); such a surface simply
/// has no output, and the next push tries again.
#[verifier::spinoff_prover]
pub fn place_wanted<L, F: Fn(&SinkSurface) -> Option<L>>(
    outs: &mut Vec<Output<L>>,
    want: &[SinkSurface],
    create: F,
) -> (actions: Vec<HostAction>)
    requires
        forall|k: int| 0 <= k < want@.len() ==> call_requires(create, (&want@[k],)),
    ensures
        exists|made: Seq<Option<L>>|
            {
                &&& made.len() == want@.len()
                &&& #[trigger] placed_upto(outputs_view(old(outs)@), want@, made, want@.len() as int)
                    == (outputs_view(final(outs)@), actions_view(actions@))
                &&& forall|k: int|
                    #![trigger made[k]]
                    0 <= k < want@.len() && asked_for_layer(outputs_view(old(outs)@), want@, made, k)
                        ==> call_ensures(create, (&want@[k],), made[k])
            },
{
    let ghost ov0 = outputs_view(outs@);
    let ghost mut made: Seq<Option<L>> = seq![];
    let mut actions: Vec<HostAction> = Vec::new();
    let mut k: usize = 0;
    while k < want.len()
        invariant
            k <= want@.len(),
            made.len() == k,
            forall|j: int| 0 <= j < want@.len() ==> call_requires(create, (&want@[j],)),
            placed_upto(ov0, want@, made, k as int) == (outputs_view(outs@), actions_view(actions@)),
            forall|j: int|
                #![trigger made[j]]
                0 <= j < k && asked_for_layer(ov0, want@, made, j) ==> call_ensures(
                    create,
                    (&want@[j],),
                    made[j],
                ),
        decreases want.len() - k,
    {
        let s = &want[k];
        let r = s.rect();
        let ghost before = outputs_view(outs@);
        let ghost acts0 = actions_view(actions@);
        let found = find_output(outs, &s.key);
        let ghost step_made: Option<L>;
        match found {
            Some(i) => {
                if !rect_eq(&outs[i].rect, &r) {
                    outs[i].rect = r;
                    let key = s.key.clone();
                    actions.push(HostAction::Place(key, r));
                    proof {
                        assert(outputs_view(outs@) =~= before.update(
                            i as int,
                            OutputView { rect: r, ..before[i as int] },
                        ));
                        assert(actions_view(actions@) =~= acts0.push(HostStep::Place(s.key@, r)));
                    }
                }
                proof {
                    step_made = None;
                }
            },
            None => {
                let m = create(s);
                proof {
                    step_made = m;
                }
                match m {
                    Some(layer) => {
                        let key = s.key.clone();
                        outs.push(Output { key, layer, wait_for_idr: true, has_timebase: false, pacing: Pacing::new(), rect: r });
                        let key2 = s.key.clone();
                        actions.push(HostAction::Place(key2, r));
                        proof {
                            assert(outputs_view(outs@) =~= before.push(
                                OutputView { key: s.key@, layer: layer, wait_for_idr: true, has_timebase: false, pacing: Pacing::unanchored(), rect: r },
                            ));
                            assert(actions_view(actions@) =~= acts0.push(HostStep::Place(s.key@, r)));
                        }
                    },
                    None => {},
                }
            },
        }
        proof {
            let made2 = made.push(step_made);
            lemma_placed_prefix(ov0, want@, made, step_made, k as int);
            assert(made2[k as int] == step_made);
            assert forall|j: int|
                #![trigger made2[j]]
                0 <= j < k + 1 && asked_for_layer(ov0, want@, made2, j) implies call_ensures(
                    create,
                    (&want@[j],),
                    made2[j],
                ) by {
                if j < k {
                    lemma_placed_prefix(ov0, want@, made, step_made, j);
                    assert(made2[j] == made[j]);
                }
            }
            made = made2;
        }
        k += 1;
    }
    actions
}

/// The keys of the published surfaces that have an output, in published order — the stacking
/// order for the hosts.
pub fn stack_order<L>(want: &[SinkSurface], outs: &Vec<Output<L>>) -> (order: Vec<String>)
    ensures
        keys_view(order@) == order_upto(want@, outputs_view(outs@), want@.len() as int),
{
    let mut order: Vec<String> = Vec::new();
    let mut k: usize = 0;
    while k < want.len()
        invariant
            k <= want@.len(),
            keys_view(order@) == order_upto(want@, outputs_view(outs@), k as int),
        decreases want.len() - k,
    {
        let ghost o0 = keys_view(order@);
        if find_output(outs, &want[k].key).is_some() {
            order.push(want[k].key.clone());
            assert(keys_view(order@) =~= o0.push(want@[k as int].key@));
        }
        k += 1;
    }
    order
}

/// The request to restack, when the stacking order changed.
pub open spec fn restack_steps(before: Seq<Seq<char>>, after: Seq<Seq<char>>) -> Seq<HostStep> {
    if before == after {
        seq![]
    } else {
        seq![HostStep::Restack(after)]
    }
}

/// Whether two key lists are the same.
fn keys_eq(a: &Vec<String>, b: &Vec<String>) -> (r: bool)
    ensures
        r == (keys_view(a@) == keys_view(b@)),
{
    if a.len() != b.len() {
        assert(keys_view(a@).len() != keys_view(b@).len());
        return false;
    }
    let mut i: usize = 0;
    while i < a.len()
        invariant
            a@.len() == b@.len(),
            i <= a@.len(),
            forall|j: int| 0 <= j < i ==> a@[j]@ == b@[j]@,
        decreases a.len() - i,
    {
        if a[i] != b[i] {
            assert(keys_view(a@)[i as int] != keys_view(b@)[i as int]);
            return false;
        }
        i += 1;
    }
    assert(keys_view(a@) =~= keys_view(b@));
    true
}

/// A copy of a key list.
fn copy_keys(a: &Vec<String>) -> (c: Vec<String>)
    ensures
        keys_view(c@) == keys_view(a@),
{
    let mut c: Vec<String> = Vec::new();
    let mut i: usize = 0;
    while i < a.len()
        invariant
            i <= a@.len(),
            keys_view(c@) == keys_view(a@).subrange(0, i as int),
        decreases a.len() - i,
    {
        let ghost c0 = keys_view(c@);
        c.push(a[i].clone());
        assert(keys_view(c@) =~= c0.push(a@[i as int]@));
        assert(keys_view(a@).subrange(0, i + 1) =~= keys_view(a@).subrange(0, i as int).push(
            a@[i as int]@,
        ));
        i += 1;
    }
    assert(keys_view(a@).subrange(0, a@.len() as int) =~= keys_view(a@));
    c
}

/// Bring the outputs in line with what the router published: every output nobody wants any more
/// is handed to `release` first, in order (its layer is flushed and its container leaves the window
/// — a kept layer would keep decoding, and each session is budget), before any new layer is asked
/// for; outputs that moved are placed again; surfaces without an output get one when `create` makes
/// them a layer (starting without a control timebase); and the stacking order follows the
/// published order — a restack is requested only when it changed. Returns the placement and
/// restack requests, in order.
#[verifier::spinoff_prover]
pub fn sync_outputs<L, R: Fn(Output<L>), F: Fn(&SinkSurface) -> Option<L>>(
    outs: &mut Vec<Output<L>>,
    want: &[SinkSurface],
    order: &mut Vec<String>,
    release: R,
    create: F,
) -> (actions: Vec<HostAction>)
    requires
        forall|o: Output<L>| call_requires(release, (o,)),
        forall|k: int| 0 <= k < want@.len() ==> call_requires(create, (&want@[k],)),
    ensures
        ({
            let ov0 = outputs_view(old(outs)@);
            let gone = gone_upto(ov0, want@, ov0.len() as int);
            &&& exists|dropped: Seq<Output<L>>|
                #![trigger outputs_view(dropped)]
                outputs_view(dropped) == gone && forall|i: int|
                    0 <= i < dropped.len() ==> call_ensures(release, (#[trigger] dropped[i],), ())
            &&& keys_view(final(order)@) == order_upto(
                want@,
                outputs_view(final(outs)@),
                want@.len() as int,
            )
            &&& exists|made: Seq<Option<L>>|
                #![trigger placed_upto(kept_upto(ov0, want@, ov0.len() as int), want@, made, want@.len() as int)]
                {
                    let kept = kept_upto(ov0, want@, ov0.len() as int);
                    let placed = placed_upto(kept, want@, made, want@.len() as int);
                    &&& made.len() == want@.len()
                    &&& placed.0 == outputs_view(final(outs)@)
                    &&& actions_view(actions@) == placed.1 + restack_steps(
                        keys_view(old(order)@),
                        keys_view(final(order)@),
                    )
                    &&& forall|k: int|
                        #![trigger made[k]]
                        0 <= k < want@.len() && asked_for_layer(kept, want@, made, k)
                            ==> call_ensures(create, (&want@[k],), made[k])
                }
        }),
{
    let ghost ov0 = outputs_view(outs@);
    let (mut dropped, _removals) = drop_unwanted(outs, want);
    let ghost d0 = dropped@;
    let total = dropped.len();
    let mut n: usize = 0;
    while dropped.len() > 0
        invariant
            forall|o: Output<L>| call_requires(release, (o,)),
            n <= d0.len(),
            dropped@ == d0.subrange(n as int, d0.len() as int),
            dropped@.len() == d0.len() - n,
            d0.len() == total,
            forall|i: int| 0 <= i < n ==> call_ensures(release, (#[trigger] d0[i],), ()),
        decreases dropped.len(),
    {
        let o = dropped.remove(0);
        assert(o == d0[n as int]);
        release(o);
        n += 1;
        assert(dropped@ =~= d0.subrange(n as int, d0.len() as int));
    }
    let ghost kept = outputs_view(outs@);
    let mut actions = place_wanted(outs, want, create);
    let ghost made = choose|made: Seq<Option<L>>|
        {
            &&& made.len() == want@.len()
            &&& #[trigger] placed_upto(kept, want@, made, want@.len() as int) == (
                outputs_view(outs@),
                actions_view(actions@),
            )
            &&& forall|k: int|
                #![trigger made[k]]
                0 <= k < want@.len() && asked_for_layer(kept, want@, made, k) ==> call_ensures(
                    create,
                    (&want@[k],),
                    made[k],
                )
        };
    let ghost a2 = actions_view(actions@);
    let new_order = stack_order(want, outs);
    if !keys_eq(order, &new_order) {
        let copy = copy_keys(&new_order);
        actions.push(HostAction::Restack(copy));
        *order = new_order;
        assert(actions_view(actions@) =~= a2 + restack_steps(keys_view(old(order)@), keys_view(order@)));
    } else {
        assert(actions_view(actions@) =~= a2 + restack_steps(keys_view(old(order)@), keys_view(order@)));
    }
    proof {
        let placed_v = placed_upto(kept, want@, made, want@.len() as int);
        assert(kept == kept_upto(ov0, want@, ov0.len() as int));
        assert(placed_v.0 == outputs_view(outs@));
        assert(placed_v.1 == a2);
        assert(outputs_view(d0) == gone_upto(ov0, want@, ov0.len() as int));
        assert(forall|i: int| 0 <= i < d0.len() ==> call_ensures(release, (#[trigger] d0[i],), ()));
    }
    actions
}

/// No two outputs serve the same surface.
pub open spec fn unique_keys<L>(outs: Seq<OutputView<L>>) -> bool {
    forall|i: int, j: int| 0 <= i < outs.len() && 0 <= j < outs.len() && i != j ==> outs[i].key != outs[j].key
}

/// Index of the last of the first `n` published surfaces with this key, or -1.
pub open spec fn last_with_key(want: Seq<SinkSurface>, key: Seq<char>, n: int) -> int
    decreases n,
{
    if n <= 0 {
        -1
    } else if want[n - 1].key@ == key {
        n - 1
    } else {
        last_with_key(want, key, n - 1)
    }
}

proof fn lemma_first_key<L>(outs: Seq<OutputView<L>>, key: Seq<char>, i: int)
    requires
        0 <= i,
    ensures
        first_key(outs, key, i) == -1 ==> forall|j: int| i <= j < outs.len() ==> outs[j].key != key,
        first_key(outs, key, i) != -1 ==> i <= first_key(outs, key, i) < outs.len() && outs[first_key(
            outs,
            key,
            i,
        )].key == key,
    decreases outs.len() - i,
{
    if i < outs.len() && outs[i].key != key {
        lemma_first_key(outs, key, i + 1);
    }
}

proof fn lemma_last_with_key(want: Seq<SinkSurface>, key: Seq<char>, n: int)
    requires
        0 <= n <= want.len(),
    ensures
        last_with_key(want, key, n) == -1 ==> forall|j: int| 0 <= j < n ==> want[j].key@ != key,
        last_with_key(want, key, n) != -1 ==> 0 <= last_with_key(want, key, n) < n && want[last_with_key(
            want,
            key,
            n,
        )].key@ == key,
    decreases n,
{
    if n > 0 {
        lemma_last_with_key(want, key, n - 1);
    }
}

/// What every step of applying the published list keeps true: each output serves a published
/// surface, no two serve the same one, and an output whose surface has come up so far sits at the
/// rect of its latest mention.
pub open spec fn placement_holds<L>(outs: Seq<OutputView<L>>, want: Seq<SinkSurface>, k: int) -> bool {
    &&& forall|i: int| 0 <= i < outs.len() ==> is_wanted(want, #[trigger] outs[i].key)
    &&& unique_keys(outs)
    &&& forall|i: int|
        0 <= i < outs.len() && last_with_key(want, #[trigger] outs[i].key, k) >= 0 ==> outs[i].rect
            == spec_rect_of(want[last_with_key(want, outs[i].key, k)])
}

#[verifier::spinoff_prover]
proof fn lemma_placement_steps<L>(
    kept: Seq<OutputView<L>>,
    want: Seq<SinkSurface>,
    made: Seq<Option<L>>,
    k: int,
)
    requires
        0 <= k <= want.len(),
        k <= made.len(),
        forall|i: int| 0 <= i < kept.len() ==> is_wanted(want, #[trigger] kept[i].key),
        unique_keys(kept),
    ensures
        placement_holds(placed_upto(kept, want, made, k).0, want, k),
    decreases k,
{
    if k > 0 {
        lemma_placement_steps(kept, want, made, k - 1);
        let prev = placed_upto(kept, want, made, k - 1).0;
        let cur = placed_upto(kept, want, made, k).0;
        let s = want[k - 1];
        let r = spec_rect_of(s);
        let f = first_key(prev, s.key@, 0);
        lemma_first_key(prev, s.key@, 0);
        assert(is_wanted(want, s.key@)) by {
            assert(want[k - 1].key@ == s.key@);
        }
        assert forall|i: int|
            0 <= i < cur.len() && last_with_key(want, #[trigger] cur[i].key, k) >= 0 implies cur[i].rect
            == spec_rect_of(want[last_with_key(want, cur[i].key, k)]) by {
            if cur[i].key == s.key@ {
                assert(last_with_key(want, cur[i].key, k) == k - 1);
                if f >= 0 {
                    if i != f {
                        assert(cur[i] == prev[i]);
                        assert(prev[f].key == prev[i].key);
                    }
                }
            } else {
                assert(last_with_key(want, cur[i].key, k) == last_with_key(want, cur[i].key, k - 1));
                if i < prev.len() {
                    assert(cur[i] == prev[i]);
                }
            }
        }
        assert forall|i: int, j: int|
            0 <= i < cur.len() && 0 <= j < cur.len() && i != j implies cur[i].key != cur[j].key by {
            if f < 0 && made[k - 1] is Some {
                if i < prev.len() && j < prev.len() {
                    assert(cur[i] == prev[i] && cur[j] == prev[j]);
                } else if i < prev.len() {
                    assert(cur[i] == prev[i]);
                } else if j < prev.len() {
                    assert(cur[j] == prev[j]);
                }
            } else if f >= 0 {
                if i != f && j != f {
                    assert(cur[i] == prev[i] && cur[j] == prev[j]);
                } else if i == f {
                    assert(cur[j] == prev[j]);
                } else {
                    assert(cur[i] == prev[i]);
                }
            }
        }
        assert forall|i: int| 0 <= i < cur.len() implies is_wanted(want, #[trigger] cur[i].key) by {
            if i < prev.len() {
                assert(cur[i].key == prev[i].key);
            }
        }
    }
}

/// Following a published list leaves every output serving a published surface, keeps outputs
/// unique per surface, and puts each output at the rect of the latest mention of its surface.
pub proof fn law_sync_follows_the_list<L>(
    outs: Seq<OutputView<L>>,
    want: Seq<SinkSurface>,
    made: Seq<Option<L>>,
)
    requires
        made.len() == want.len(),
        unique_keys(outs),
    ensures
        placement_holds(
            placed_upto(kept_upto(outs, want, outs.len() as int), want, made, want.len() as int).0,
            want,
            want.len() as int,
        ),
{
    lemma_kept(outs, want, outs.len() as int);
    lemma_placement_steps(kept_upto(outs, want, outs.len() as int), want, made, want.len() as int);
}

proof fn lemma_kept<L>(outs: Seq<OutputView<L>>, want: Seq<SinkSurface>, n: int)
    requires
        0 <= n <= outs.len(),
        unique_keys(outs),
    ensures
        forall|i: int|
            0 <= i < kept_upto(outs, want, n).len() ==> is_wanted(want, #[trigger] kept_upto(outs, want, n)[i].key),
        unique_keys(kept_upto(outs, want, n)),
        forall|i: int| 0 <= i < kept_upto(outs, want, n).len() ==> exists|j: int| 0 <= j < n && #[trigger] kept_upto(outs, want, n)[i] == outs[j],
    decreases n,
{
    if n > 0 {
        lemma_kept(outs, want, n - 1);
        let prev = kept_upto(outs, want, n - 1);
        let cur = kept_upto(outs, want, n);
        if is_wanted(want, outs[n - 1].key) {
            assert forall|i: int| 0 <= i < cur.len() implies exists|j: int| 0 <= j < n && #[trigger] cur[i] == outs[j] by {
                if i < prev.len() {
                    assert(cur[i] == prev[i]);
                    let j = choose|j: int| 0 <= j < n - 1 && prev[i] == outs[j];
                } else {
                    assert(cur[i] == outs[n - 1]);
                }
            }
            assert forall|i: int, j: int|
                0 <= i < cur.len() && 0 <= j < cur.len() && i != j implies cur[i].key != cur[j].key by {
                if i < prev.len() && j < prev.len() {
                    assert(cur[i] == prev[i] && cur[j] == prev[j]);
                } else if i < prev.len() {
                    assert(cur[i] == prev[i]);
                    let a = choose|a: int| 0 <= a < n - 1 && prev[i] == outs[a];
                    assert(outs[a].key != outs[n - 1].key);
                } else if j < prev.len() {
                    assert(cur[j] == prev[j]);
                    let a = choose|a: int| 0 <= a < n - 1 && prev[j] == outs[a];
                    assert(outs[a].key != outs[n - 1].key);
                }
            }
            assert forall|i: int| 0 <= i < cur.len() implies is_wanted(want, #[trigger] cur[i].key) by {
                if i < prev.len() {
                    assert(cur[i] == prev[i]);
                }
            }
        }
    }
}

/// A layout that is already in place is applied without a single request and without asking for
/// a layer: when every published surface has an output at exactly its rect and every output is
/// still published, nothing is dropped, placed, or created.
pub proof fn law_unchanged_layout_is_quiet<L>(
    outs: Seq<OutputView<L>>,
    want: Seq<SinkSurface>,
    made: Seq<Option<L>>,
)
    requires
        made.len() == want.len(),
        forall|i: int| 0 <= i < outs.len() ==> is_wanted(want, #[trigger] outs[i].key),
        forall|k: int|
            0 <= k < want.len() ==> first_key(outs, #[trigger] want[k].key@, 0) >= 0 && outs[first_key(
                outs,
                want[k].key@,
                0,
            )].rect == spec_rect_of(want[k]),
    ensures
        kept_upto(outs, want, outs.len() as int) == outs,
        gone_upto(outs, want, outs.len() as int) == Seq::<OutputView<L>>::empty(),
        placed_upto(outs, want, made, want.len() as int) == (outs, Seq::<HostStep>::empty()),
        forall|k: int| 0 <= k < want.len() ==> !asked_for_layer(outs, want, made, k),
{
    lemma_all_kept(outs, want, outs.len() as int);
    lemma_quiet_steps(outs, want, made, want.len() as int);
    assert forall|k: int| 0 <= k < want.len() implies !asked_for_layer(outs, want, made, k) by {
        lemma_quiet_steps(outs, want, made, k);
    }
}

/// After a sync in which every published surface got its output, re-sending the same list costs
/// nothing — unless the list names one surface twice at different rects, which moves that output
/// back and forth on every push.
pub proof fn law_resync_is_quiet<L>(
    outs: Seq<OutputView<L>>,
    want: Seq<SinkSurface>,
    made: Seq<Option<L>>,
)
    requires
        made.len() == want.len(),
        placement_holds(outs, want, want.len() as int),
        forall|k: int| 0 <= k < want.len() ==> first_key(outs, #[trigger] want[k].key@, 0) >= 0,
        forall|k: int, j: int|
            0 <= k < want.len() && 0 <= j < want.len() && want[k].key@ == want[j].key@ ==> spec_rect_of(want[k])
                == spec_rect_of(want[j]),
    ensures
        kept_upto(outs, want, outs.len() as int) == outs,
        placed_upto(outs, want, made, want.len() as int) == (outs, Seq::<HostStep>::empty()),
        forall|k: int| 0 <= k < want.len() ==> !asked_for_layer(outs, want, made, k),
{
    assert forall|k: int| 0 <= k < want.len() implies first_key(outs, #[trigger] want[k].key@, 0) >= 0 && outs[first_key(
        outs,
        want[k].key@,
        0,
    )].rect == spec_rect_of(want[k]) by {
        let key = want[k].key@;
        let f = first_key(outs, key, 0);
        lemma_first_key(outs, key, 0);
        lemma_last_with_key(want, key, want.len() as int);
        assert(want[k].key@ == key);
        let l = last_with_key(want, outs[f].key, want.len() as int);
        assert(l >= 0);
        assert(outs[f].rect == spec_rect_of(want[l]));
    }
    law_unchanged_layout_is_quiet(outs, want, made);
}

proof fn lemma_all_kept<L>(outs: Seq<OutputView<L>>, want: Seq<SinkSurface>, n: int)
    requires
        0 <= n <= outs.len(),
        forall|i: int| 0 <= i < outs.len() ==> is_wanted(want, #[trigger] outs[i].key),
    ensures
        kept_upto(outs, want, n) == outs.subrange(0, n),
        gone_upto(outs, want, n) == Seq::<OutputView<L>>::empty(),
    decreases n,
{
    if n > 0 {
        lemma_all_kept(outs, want, n - 1);
        assert(is_wanted(want, outs[n - 1].key));
        assert(outs.subrange(0, n - 1).push(outs[n - 1]) =~= outs.subrange(0, n));
    } else {
        assert(outs.subrange(0, 0) =~= Seq::<OutputView<L>>::empty());
    }
    if n == outs.len() {
        assert(outs.subrange(0, n) =~= outs);
    }
}

proof fn lemma_quiet_steps<L>(
    outs: Seq<OutputView<L>>,
    want: Seq<SinkSurface>,
    made: Seq<Option<L>>,
    k: int,
)
    requires
        0 <= k <= want.len(),
        forall|j: int|
            0 <= j < want.len() ==> first_key(outs, #[trigger] want[j].key@, 0) >= 0 && outs[first_key(
                outs,
                want[j].key@,
                0,
            )].rect == spec_rect_of(want[j]),
    ensures
        placed_upto(outs, want, made, k) == (outs, Seq::<HostStep>::empty()),
    decreases k,
{
    if k > 0 {
        lemma_quiet_steps(outs, want, made, k - 1);
        assert(first_key(outs, want[k - 1].key@, 0) >= 0);
    }
}

} // verus!
