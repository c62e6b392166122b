//! The decisions of the macOS hardware decode sink: which parameter sets an access unit brings,
//! how a smoothed presentation is scheduled on a layer's control timebase, what the published
//! surface list becomes, and how the live outputs follow it. The AVFoundation and CoreMedia work
//! itself happens where those frameworks are.

use vstd::prelude::*;
use crate::annexb::{nal_units, slices_view, spec_nal_units};
use crate::surface::{SinkSurface, same_surface};

verus! {

/// Which parameter set a NAL unit is, by its first byte: 0 for a VPS, 1 for an SPS, 2 for a PPS,
/// -1 for anything else. HEVC types 32/33/34; H.264 types 7/8 (H.264 has no VPS).
pub open spec fn ps_kind(hevc: bool, b0: u8) -> int {
    if hevc {
        let t = (b0 >> 1) & 0x3f;
        if t == 32 {
            0
        } else if t == 33 {
            1
        } else if t == 34 {
            2
        } else {
            -1
        }
    } else {
        let t = b0 & 0x1f;
        if t == 7 {
            1
        } else if t == 8 {
            2
        } else {
            -1
        }
    }
}

/// The units of the given kind among the first `n` units, in order.
pub open spec fn of_kind(hevc: bool, units: Seq<Seq<u8>>, kind: int, n: int) -> Seq<Seq<u8>>
    decreases n,
{
    if n <= 0 {
        seq![]
    } else if ps_kind(hevc, units[n - 1][0]) == kind {
        of_kind(hevc, units, kind, n - 1).push(units[n - 1])
    } else {
        of_kind(hevc, units, kind, n - 1)
    }
}

/// The parameter sets of one kind that an access unit carries, in stream order.
pub open spec fn sets_in(hevc: bool, au: Seq<u8>, kind: int) -> Seq<Seq<u8>> {
    of_kind(hevc, spec_nal_units(au), kind, spec_nal_units(au).len() as int)
}

/// Some unit in `us` is not among the sets already held.
pub open spec fn brings_new(held: Seq<Seq<u8>>, us: Seq<Seq<u8>>) -> bool {
    exists|i: int| 0 <= i < us.len() && !held.contains(#[trigger] us[i])
}

/// What a slot holds after seeing `us`: unchanged when every unit is already held, otherwise just
/// the newest unit — a re-sent set replaces, and the newest instance is the one the encoder uses.
pub open spec fn absorbed(held: Seq<Seq<u8>>, us: Seq<Seq<u8>>) -> Seq<Seq<u8>> {
    if brings_new(held, us) {
        seq![us.last()]
    } else {
        held
    }
}

/// The byte contents of a slot.
pub open spec fn slot_view(v: Vec<Vec<u8>>) -> Seq<Seq<u8>> {
    v@.map_values(|x: Vec<u8>| x@)
}

/// VPS/SPS/PPS bytes as last seen (emulation prevention kept — CoreMedia wants raw NAL bytes).
pub struct ParameterSets {
    pub vps: Vec<Vec<u8>>,
    pub sps: Vec<Vec<u8>>,
    pub pps: Vec<Vec<u8>>,
}

impl Default for ParameterSets {
    fn default() -> (s: Self)
        ensures
            s.vps@.len() == 0,
            s.sps@.len() == 0,
            s.pps@.len() == 0,
    {
        ParameterSets { vps: Vec::new(), sps: Vec::new(), pps: Vec::new() }
    }
}

/// Byte-wise equality.
fn bytes_eq(a: &[u8], b: &[u8]) -> (r: bool)
    ensures
        r == (a@ == b@),
{
    if a.len() != b.len() {
        return false;
    }
    let mut i: usize = 0;
    while i < a.len()
        invariant
            a@.len() == b@.len(),
            i <= a.len(),
            forall|j: int| 0 <= j < i ==> a@[j] == b@[j],
        decreases a.len() - i,
    {
        if a[i] != b[i] {
            return false;
        }
        i += 1;
    }
    assert(a@ =~= b@);
    true
}

/// Take one parameter-set unit into its slot: nothing happens when the slot already holds these
/// exact bytes, otherwise the slot becomes just this unit.
fn absorb_unit(slot: &mut Vec<Vec<u8>>, nal: &[u8]) -> (changed: bool)
    ensures
        changed == !slot_view(*old(slot)).contains(nal@),
        changed ==> slot_view(*final(slot)) == seq![nal@],
        !changed ==> *final(slot) == *old(slot),
{
    let mut i: usize = 0;
    while i < slot.len()
        invariant
            i <= slot@.len(),
            forall|j: int| 0 <= j < i ==> slot@[j]@ != nal@,
        decreases slot.len() - i,
    {
        if bytes_eq(slot[i].as_slice(), nal) {
            assert(slot_view(*slot)[i as int] == nal@);
            return false;
        }
        i += 1;
    }
    assert(!slot_view(*slot).contains(nal@)) by {
        if slot_view(*slot).contains(nal@) {
            let j = choose|j: int| 0 <= j < slot_view(*slot).len() && slot_view(*slot)[j] == nal@;
            assert(slot@[j]@ == nal@);
        }
    }
    slot.clear();
    slot.push(vstd::slice::slice_to_vec(nal));
    assert(slot_view(*slot) =~= seq![nal@]);
    true
}

proof fn lemma_of_kind_step(hevc: bool, units: Seq<Seq<u8>>, kind: int, n: int)
    requires
        0 <= n < units.len(),
    ensures
        of_kind(hevc, units, kind, n + 1) == if ps_kind(hevc, units[n][0]) == kind {
            of_kind(hevc, units, kind, n).push(units[n])
        } else {
            of_kind(hevc, units, kind, n)
        },
{
}

proof fn lemma_absorb_step(held: Seq<Seq<u8>>, us: Seq<Seq<u8>>, u: Seq<u8>)
    ensures
        absorbed(held, us).contains(u) ==> absorbed(held, us.push(u)) == absorbed(held, us),
        !absorbed(held, us).contains(u) ==> absorbed(held, us.push(u)) == seq![u],
        brings_new(held, us.push(u)) == (brings_new(held, us) || !absorbed(held, us).contains(u)),
{
    let us2 = us.push(u);
    assert(us2.last() == u);
    if brings_new(held, us) {
        let i = choose|i: int| 0 <= i < us.len() && !held.contains(#[trigger] us[i]);
        assert(us2[i] == us[i]);
        assert(brings_new(held, us2));
        if absorbed(held, us).contains(u) {
            assert(seq![us.last()][0] == us.last());
            assert(u == us.last());
        }
    } else {
        if !held.contains(u) {
            assert(us2[us.len() as int] == u);
            assert(brings_new(held, us2));
        } else {
            assert forall|i: int| 0 <= i < us2.len() implies held.contains(#[trigger] us2[i]) by {
                if i < us.len() {
                    assert(us2[i] == us[i]);
                }
            }
        }
    }
}

impl ParameterSets {
    /// Capture the parameter sets in `au`. Returns true when the sets changed byte-wise.
    pub fn absorb(&mut self, hevc: bool, au: &[u8]) -> (changed: bool)
        ensures
            slot_view(final(self).vps) == absorbed(slot_view(old(self).vps), sets_in(hevc, au@, 0)),
            slot_view(final(self).sps) == absorbed(slot_view(old(self).sps), sets_in(hevc, au@, 1)),
            slot_view(final(self).pps) == absorbed(slot_view(old(self).pps), sets_in(hevc, au@, 2)),
            changed == (brings_new(slot_view(old(self).vps), sets_in(hevc, au@, 0)) || brings_new(
                slot_view(old(self).sps),
                sets_in(hevc, au@, 1),
            ) || brings_new(slot_view(old(self).pps), sets_in(hevc, au@, 2))),
    {
        let units = nal_units(au);
        let ghost us = spec_nal_units(au@);
        let ghost v0 = slot_view(self.vps);
        let ghost s0 = slot_view(self.sps);
        let ghost p0 = slot_view(self.pps);
        let mut changed = false;
        let mut k: usize = 0;
        while k < units.len()
            invariant
                us == spec_nal_units(au@),
                slices_view(units@) == us,
                forall|j: int| 0 <= j < units@.len() ==> #[trigger] units@[j]@.len() > 0,
                k <= units.len(),
                slot_view(self.vps) == absorbed(v0, of_kind(hevc, us, 0, k as int)),
                slot_view(self.sps) == absorbed(s0, of_kind(hevc, us, 1, k as int)),
                slot_view(self.pps) == absorbed(p0, of_kind(hevc, us, 2, k as int)),
                changed == (brings_new(v0, of_kind(hevc, us, 0, k as int)) || brings_new(
                    s0,
                    of_kind(hevc, us, 1, k as int),
                ) || brings_new(p0, of_kind(hevc, us, 2, k as int))),
            decreases units.len() - k,
        {
            let nal = units[k];
            assert(nal@ == us[k as int]);
            let b0 = nal[0];
            let kind: i8 = if hevc {
                let t = (b0 >> 1) & 0x3f;
                if t == 32 {
                    0
                } else if t == 33 {
                    1
                } else if t == 34 {
                    2
                } else {
                    -1
                }
            } else {
                let t = b0 & 0x1f;
                if t == 7 {
                    1
                } else if t == 8 {
                    2
                } else {
                    -1
                }
            };
            assert(kind == ps_kind(hevc, us[k as int][0]));
            proof {
                lemma_of_kind_step(hevc, us, 0, k as int);
                lemma_of_kind_step(hevc, us, 1, k as int);
                lemma_of_kind_step(hevc, us, 2, k as int);
                lemma_absorb_step(v0, of_kind(hevc, us, 0, k as int), nal@);
                lemma_absorb_step(s0, of_kind(hevc, us, 1, k as int), nal@);
                lemma_absorb_step(p0, of_kind(hevc, us, 2, k as int), nal@);
            }
            if kind == 0 {
                let c = absorb_unit(&mut self.vps, nal);
                changed = changed || c;
            } else if kind == 1 {
                let c = absorb_unit(&mut self.sps, nal);
                changed = changed || c;
            } else if kind == 2 {
                let c = absorb_unit(&mut self.pps, nal);
                changed = changed || c;
            }
            k += 1;
        }
        changed
    }
}

/// The parameter sets a format description is built from, in order (VPS, SPS, PPS for HEVC; SPS,
/// PPS for H.264), once every required kind is present.
pub open spec fn spec_description_sets(hevc: bool, vps: Seq<Seq<u8>>, sps: Seq<Seq<u8>>, pps: Seq<Seq<u8>>) -> Option<Seq<Seq<u8>>> {
    if hevc {
        if vps.len() == 0 || sps.len() == 0 || pps.len() == 0 {
            None
        } else {
            Some(vps + sps + pps)
        }
    } else if sps.len() == 0 || pps.len() == 0 {
        None
    } else {
        Some(sps + pps)
    }
}

/// Append the byte contents of every set in `slot` to `all`.
fn push_sets<'a>(all: &mut Vec<&'a [u8]>, slot: &'a Vec<Vec<u8>>)
    ensures
        slices_view(final(all)@) == slices_view(old(all)@) + slot_view(*slot),
{
    let mut i: usize = 0;
    while i < slot.len()
        invariant
            i <= slot@.len(),
            slices_view(all@) == slices_view(old(all)@) + slot_view(*slot).subrange(0, i as int),
        decreases slot.len() - i,
    {
        let ghost a0 = slices_view(all@);
        all.push(slot[i].as_slice());
        proof {
            assert(slices_view(all@) =~= a0.push(slot@[i as int]@));
            assert(slot_view(*slot).subrange(0, i + 1) =~= slot_view(*slot).subrange(0, i as int).push(slot@[i as int]@));
        }
        i += 1;
    }
    assert(slot_view(*slot).subrange(0, slot@.len() as int) =~= slot_view(*slot));
}

impl ParameterSets {
    /// The sets the format description is built from, once all required sets are present:
    /// `None` while one is still missing.
    pub fn description_sets(&self, hevc: bool) -> (all: Option<Vec<&[u8]>>)
        ensures
            match all {
                Some(v) => spec_description_sets(hevc, slot_view(self.vps), slot_view(self.sps), slot_view(self.pps)) == Some(slices_view(v@)),
                None => spec_description_sets(hevc, slot_view(self.vps), slot_view(self.sps), slot_view(self.pps)) is None,
            },
    {
        let mut all: Vec<&[u8]> = Vec::new();
        if hevc {
            if self.vps.len() == 0 || self.sps.len() == 0 || self.pps.len() == 0 {
                return None;
            }
            push_sets(&mut all, &self.vps);
        } else if self.sps.len() == 0 || self.pps.len() == 0 {
            return None;
        }
        proof {
            if !hevc {
                assert(slices_view(all@) =~= Seq::<Seq<u8>>::empty());
            }
        }
        push_sets(&mut all, &self.sps);
        push_sets(&mut all, &self.pps);
        proof {
            if hevc {
                assert(slices_view(all@) =~= slot_view(self.vps) + slot_view(self.sps) + slot_view(self.pps));
            } else {
                assert(slices_view(all@) =~= slot_view(self.sps) + slot_view(self.pps));
            }
        }
        Some(all)
    }
}

/// Absorbing an access unit a second time changes nothing, as long as the unit carries no two
/// different sets of one kind: encoders resend identical sets on every keyframe, and those must
/// not count as a change.
pub proof fn law_absorb_twice_settles(held: Seq<Seq<u8>>, us: Seq<Seq<u8>>)
    requires
        forall|i: int, j: int| 0 <= i < us.len() && 0 <= j < us.len() ==> us[i] == us[j],
    ensures
        !brings_new(absorbed(held, us), us),
        absorbed(absorbed(held, us), us) == absorbed(held, us),
{
    if brings_new(held, us) {
        assert forall|i: int| 0 <= i < us.len() implies absorbed(held, us).contains(
            #[trigger] us[i],
        ) by {
            assert(us[i] == us[us.len() - 1]);
            assert(absorbed(held, us)[0] == us.last());
        }
    }
}

/// A slot never holds more than one set once it holds at most one: a new set replaces.
pub proof fn law_slot_holds_one(held: Seq<Seq<u8>>, us: Seq<Seq<u8>>)
    requires
        held.len() <= 1,
    ensures
        absorbed(held, us).len() <= 1,
        brings_new(held, us) ==> absorbed(held, us) == seq![us.last()],
{
}

/// Rust's integer division: the quotient rounded toward zero (for a positive divisor).
pub open spec fn trunc_div(a: int, b: int) -> int {
    if a >= 0 {
        a / b
    } else {
        -((-a) / b)
    }
}

proof fn lemma_ema_band(i0: int, d: int)
    requires
        450 <= i0 <= 9000,
        450 <= d <= 9000,
    ensures
        450 <= i0 + trunc_div(d - i0, 8) <= 9000,
{
    if d >= i0 {
        assert(0 <= (d - i0) / 8 <= d - i0);
    } else {
        assert(0 <= (i0 - d) / 8 <= i0 - d);
    }
}

/// RTP video clock — presentation timestamps are 90 kHz ticks.
pub const TIMESCALE: i32 = 90000;

/// The media frame interval after seeing a frame at `pts`: seeded at 60 fps (1500 ticks), then an
/// exponential moving average (weight 1/8) over the gaps between 5 ms and 100 ms; other gaps are
/// timeline jumps and leave it alone.
pub open spec fn next_interval(interval: i64, last_pts: Option<i64>, pts: i64) -> int {
    let i0: int = if interval == 0 {
        1500
    } else {
        interval as int
    };
    match last_pts {
        Some(last) => {
            let d = pts - last;
            if 450 <= d <= 9000 {
                i0 + trunc_div(d - i0, 8)
            } else {
                i0
            }
        },
        None => i0,
    }
}

/// A timebase reading in 90 kHz ticks.
pub open spec fn ticks_at(value: i64, timescale: i32) -> int {
    if timescale == TIMESCALE {
        value as int
    } else {
        trunc_div(
            value * TIMESCALE,
            if timescale < 1 {
                1
            } else {
                timescale as int
            },
        )
    }
}

/// Whether the timeline has to be anchored again: it never was, the depth changed, or the frame is
/// due behind the clock or further ahead than the cushion plus 100 ms (no runaway schedule).
pub open spec fn needs_anchor(anchor: Option<(i64, u32)>, depth: u32, due_in: int, lead: int) -> bool {
    match anchor {
        Some((_, d)) => d != depth || !(0 <= due_in <= lead + 9000),
        None => true,
    }
}

/// Presentation pacing for smoothing-buffer depths above zero: the layer's control timebase is
/// anchored so that a frame's timestamp falls `depth × frame-interval` after the anchor time; the
/// moving average of the media frame interval sizes that cushion; a timeline jump or a changed
/// depth re-anchors.
pub struct Pacing {
    /// (media timestamp at the anchor, depth) — once anchored, the timebase runs on its own.
    anchor: Option<(i64, u32)>,
    /// Moving average of the media-time frame interval (90 kHz ticks); 0 until the first frame.
    interval: i64,
    last_pts: Option<i64>,
}

impl Pacing {
    #[verifier::type_invariant]
    spec fn in_band(self) -> bool {
        self.interval == 0 || 450 <= self.interval <= 9000
    }

    /// A pacing that is unanchored and has seen no frame.
    pub closed spec fn unanchored() -> Pacing {
        Pacing { anchor: None, interval: 0, last_pts: None }
    }

    /// The same pacing with its anchor forgotten.
    pub closed spec fn without_anchor(self) -> Pacing {
        Pacing { anchor: None, ..self }
    }

    /// The pacing after scheduling a frame at `pts` at depth `depth` against the timebase reading
    /// `now_value / now_timescale`, and the time the timebase is set to when re-anchored.
    pub closed spec fn scheduled(self, now_value: i64, now_timescale: i32, pts: i64, depth: u32) -> (Pacing, Option<i64>) {
        let interval = next_interval(self.interval, self.last_pts, pts);
        let lead = depth * interval;
        let due_in = pts - ticks_at(now_value, now_timescale);
        if needs_anchor(self.anchor, depth, due_in, lead) {
            (Pacing { anchor: Some((pts, depth)), interval: interval as i64, last_pts: Some(pts) }, Some((pts - lead) as i64))
        } else {
            (Pacing { anchor: self.anchor, interval: interval as i64, last_pts: Some(pts) }, None)
        }
    }

    pub closed spec fn spec_anchor(self) -> Option<(i64, u32)> {
        self.anchor
    }

    pub closed spec fn spec_interval(self) -> i64 {
        self.interval
    }

    pub closed spec fn spec_last_pts(self) -> Option<i64> {
        self.last_pts
    }

    /// A copy of this pacing.
    pub fn copy_of(&self) -> (p: Self)
        ensures
            p == *self,
    {
        proof {
            use_type_invariant(self);
        }
        Pacing { anchor: self.anchor, interval: self.interval, last_pts: self.last_pts }
    }

    /// An unanchored pacing with no frame seen.
    pub fn new() -> (p: Self)
        ensures
            p == Pacing::unanchored(),
            p.spec_anchor() is None,
            p.spec_interval() == 0,
            p.spec_last_pts() is None,
    {
        Pacing { anchor: None, interval: 0, last_pts: None }
    }

    /// The current anchor, if the timeline is anchored.
    pub fn anchor(&self) -> (a: Option<(i64, u32)>)
        ensures
            a == self.spec_anchor(),
    {
        self.anchor
    }

    /// The current frame-interval estimate (90 kHz ticks, 0 before the first frame): either
    /// unseeded or within the accepted band of frame gaps.
    pub fn interval(&self) -> (i: i64)
        ensures
            i == self.spec_interval(),
            i == 0 || 450 <= i <= 9000,
    {
        proof {
            use_type_invariant(self);
        }
        self.interval
    }

    /// Forget the anchor: the layer was flushed and the next frame starts a new timeline.
    pub fn clear_anchor(&mut self)
        ensures
            *final(self) == old(self).without_anchor(),
            final(self).spec_anchor() is None,
            final(self).spec_interval() == old(self).spec_interval(),
            final(self).spec_last_pts() == old(self).spec_last_pts(),
    {
        proof {
            use_type_invariant(&*self);
        }
        self.anchor = None;
    }

    /// No step of scheduling a frame at `pts` overflows.
    pub open spec fn schedule_fits(self, now_value: i64, now_timescale: i32, pts: i64, depth: u32) -> bool {
        let lead = depth * next_interval(self.spec_interval(), self.spec_last_pts(), pts);
        let due_in = pts - ticks_at(now_value, now_timescale);
        &&& (self.spec_last_pts() matches Some(last) ==> i64::MIN <= pts - last <= i64::MAX)
        &&& now_timescale != TIMESCALE ==> i64::MIN <= now_value * TIMESCALE <= i64::MAX
        &&& (self.spec_anchor() matches Some((_, d)) && d == depth ==> i64::MIN <= due_in
            <= i64::MAX)
        &&& needs_anchor(self.spec_anchor(), depth, due_in, lead) ==> i64::MIN <= pts - lead
    }

    /// Whether scheduling the frame at `pts` against this timebase reading stays within 64-bit
    /// arithmetic, so that [`Pacing::schedule`] may be called.
    pub fn fits(&self, now_value: i64, now_timescale: i32, pts: i64, depth: u32) -> (r: bool)
        ensures
            r == self.schedule_fits(now_value, now_timescale, pts, depth),
    {
        proof {
            use_type_invariant(self);
        }
        let lo: i128 = -9223372036854775808;
        let hi: i128 = 9223372036854775807;
        let p = pts as i128;
        let mut ok = true;
        let i0: i128 = if self.interval == 0 {
            1500
        } else {
            self.interval as i128
        };
        let mut interval = i0;
        match self.last_pts {
            Some(last) => {
                let d = p - last as i128;
                if d < lo || d > hi {
                    ok = false;
                }
                if 450 <= d && d <= 9000 {
                    interval = i0 + (d - i0) / 8;
                    proof {
                        lemma_ema_band(i0 as int, d as int);
                    }
                }
            },
            None => {},
        }
        assert(interval as int == next_interval(self.interval, self.last_pts, pts));
        assert(0 <= depth as i128 * interval <= 4294967295 * 9000) by (nonlinear_arith)
            requires
                450 <= interval <= 9000,
                depth <= 4294967295,
        ;
        let lead = depth as i128 * interval;
        let ticks: i128 = if now_timescale == TIMESCALE {
            now_value as i128
        } else {
            let scaled = now_value as i128 * 90000;
            if scaled < lo || scaled > hi {
                ok = false;
            }
            let ts: i128 = if now_timescale < 1 {
                1
            } else {
                now_timescale as i128
            };
            assert(-9223372036854775808 * 90000 <= scaled <= 9223372036854775807 * 90000);
            scaled / ts
        };
        let due_in = p - ticks;
        let again = match self.anchor {
            Some((_, d)) => {
                if d == depth {
                    if due_in < lo || due_in > hi {
                        ok = false;
                    }
                    !(0 <= due_in && due_in <= lead + 9000)
                } else {
                    true
                }
            },
            None => true,
        };
        if again && p - lead < lo {
            ok = false;
        }
        ok
    }

    /// Schedule the frame at `pts` (90 kHz ticks) at smoothing depth `depth`, given the timebase's
    /// current time `now_value / now_timescale` seconds. Returns the time (90 kHz ticks) the
    /// timebase must be set to when the timeline is re-anchored, `None` when it runs on as it is.
    pub fn schedule(&mut self, now_value: i64, now_timescale: i32, pts: i64, depth: u32) -> (set_to: Option<i64>)
        requires
            old(self).schedule_fits(now_value, now_timescale, pts, depth),
        ensures
            (*final(self), set_to) == old(self).scheduled(now_value, now_timescale, pts, depth),
            ({
                let interval = next_interval(old(self).spec_interval(), old(self).spec_last_pts(), pts);
                let lead = depth * interval;
                let due_in = pts - ticks_at(now_value, now_timescale);
                let again = needs_anchor(old(self).spec_anchor(), depth, due_in, lead);
                &&& final(self).spec_interval() == interval
                &&& 450 <= interval <= 9000
                &&& final(self).spec_last_pts() == Some(pts)
                &&& again ==> set_to == Some((pts - lead) as i64) && final(self).spec_anchor() == Some((pts, depth))
                &&& !again ==> set_to is None && final(self).spec_anchor() == old(self).spec_anchor()
            }),
    {
        proof {
            use_type_invariant(&*self);
        }
        let mut interval = self.interval;
        if interval == 0 {
            interval = 1500;
        }
        match self.last_pts {
            Some(last) => {
                let delta = pts - last;
                if 450 <= delta && delta <= 9000 {
                    interval = interval + (delta - interval) / 8;
                }
            },
            None => {},
        }
        assert(interval as int == next_interval(self.interval, self.last_pts, pts));
        proof {
            let i0: int = if self.interval == 0 {
                1500
            } else {
                self.interval as int
            };
            if let Some(last) = self.last_pts {
                if 450 <= pts - last <= 9000 {
                    lemma_ema_band(i0, pts - last);
                }
            }
        }
        assert(0 <= depth as i64 * interval <= 4294967295 * 9000) by (nonlinear_arith)
            requires
                450 <= interval <= 9000,
                depth <= 4294967295,
        ;
        self.interval = interval;
        self.last_pts = Some(pts);
        let lead = depth as i64 * interval;
        let now_ticks = if now_timescale == TIMESCALE {
            now_value
        } else {
            let ts: i64 = if now_timescale < 1 {
                1
            } else {
                now_timescale as i64
            };
            now_value * (TIMESCALE as i64) / ts
        };
        let again = match self.anchor {
            Some((_, d)) => {
                if d == depth {
                    let due_in = pts - now_ticks;
                    !(0 <= due_in && due_in <= lead + 9000)
                } else {
                    true
                }
            },
            None => true,
        };
        if again {
            self.anchor = Some((pts, depth));
            Some(pts - lead)
        } else {
            None
        }
    }
}

impl Default for Pacing {
    fn default() -> (p: Self)
        ensures
            p.spec_anchor() is None,
            p.spec_interval() == 0,
            p.spec_last_pts() is None,
    {
        Pacing::new()
    }
}

/// Surfaces served at once (the widget tile plus one large surface). Each costs a decode session,
/// so the cap is a real budget.
pub const MAX_OUTPUTS: usize = 2;

/// Deepest smoothing buffer, in frames.
pub const MAX_BUFFER_FRAMES: u32 = 3;

/// Two surface lists describe the same thing, surface by surface.
pub open spec fn same_list(a: Seq<SinkSurface>, b: Seq<SinkSurface>) -> bool {
    a.len() == b.len() && forall|i: int| 0 <= i < a.len() ==> same_surface(#[trigger] a[i], b[i])
}

/// The surfaces that are served: the highest-priority ones, up to the cap.
pub open spec fn capped(surfaces: Seq<SinkSurface>) -> Seq<SinkSurface> {
    if surfaces.len() > MAX_OUTPUTS {
        surfaces.take(MAX_OUTPUTS as int)
    } else {
        surfaces
    }
}

/// What the decode thread shares with the rest of the app: the first fatal error, the counters the
/// panel shows, the smoothing depth, and the surface list as last published with its revision.
pub struct Shared {
    error: Option<String>,
    presented: u64,
    width: u32,
    height: u32,
    /// Smoothing-buffer depth in frames (0 = display immediately).
    buffer_frames: u32,
    /// What the router last published, latest wins, plus a revision the decode thread compares
    /// against its own.
    surfaces: Vec<SinkSurface>,
    rev: u64,
}

impl Shared {
    pub closed spec fn spec_error(self) -> Option<Seq<char>> {
        match self.error {
            Some(e) => Some(e@),
            None => None,
        }
    }

    pub closed spec fn spec_presented(self) -> u64 {
        self.presented
    }

    pub closed spec fn spec_picture(self) -> (u32, u32) {
        (self.width, self.height)
    }

    pub closed spec fn spec_buffer_frames(self) -> u32 {
        self.buffer_frames
    }

    pub closed spec fn spec_surfaces(self) -> Seq<SinkSurface> {
        self.surfaces@
    }

    pub closed spec fn spec_rev(self) -> u64 {
        self.rev
    }

    /// Nothing failed, nothing presented, no picture yet, no buffer, no surfaces.
    pub fn new() -> (s: Self)
        ensures
            s.spec_error() is None,
            s.spec_presented() == 0,
            s.spec_picture() == (0u32, 0u32),
            s.spec_buffer_frames() == 0,
            s.spec_surfaces().len() == 0,
            s.spec_rev() == 0,
    {
        Shared { error: None, presented: 0, width: 0, height: 0, buffer_frames: 0, surfaces: Vec::new(), rev: 0 }
    }

    /// Record a fatal sink error. The first one wins: it is what ended the stream.
    pub fn fail(&mut self, msg: String)
        ensures
            final(self).spec_error() == fail_effect(old(self).spec_error(), msg@),
            old(self).spec_error() is None ==> final(self).spec_error() == Some(msg@),
            old(self).spec_error() is Some ==> final(self).spec_error() == old(self).spec_error(),
            final(self).spec_presented() == old(self).spec_presented(),
            final(self).spec_picture() == old(self).spec_picture(),
            final(self).spec_buffer_frames() == old(self).spec_buffer_frames(),
            final(self).spec_surfaces() == old(self).spec_surfaces(),
            final(self).spec_rev() == old(self).spec_rev(),
    {
        proof {
            use_type_invariant(&*self);
        }
        if self.error.is_none() {
            self.error = Some(msg);
        }
    }

    /// First fatal sink error, if any.
    pub fn error(&self) -> (e: Option<String>)
        ensures
            match e {
                Some(m) => self.spec_error() == Some(m@),
                None => self.spec_error() is None,
            },
    {
        match &self.error {
            Some(m) => Some(m.clone()),
            None => None,
        }
    }

    /// One more frame went to the layers (per frame, not per surface). Wraps like the atomic
    /// counter it models.
    pub fn count_presented(&mut self)
        ensures
            final(self).spec_presented() == old(self).spec_presented().wrapping_add(1),
            final(self).spec_error() == old(self).spec_error(),
            final(self).spec_picture() == old(self).spec_picture(),
            final(self).spec_buffer_frames() == old(self).spec_buffer_frames(),
            final(self).spec_surfaces() == old(self).spec_surfaces(),
            final(self).spec_rev() == old(self).spec_rev(),
    {
        proof {
            use_type_invariant(&*self);
        }
        self.presented = self.presented.wrapping_add(1);
    }

    /// Frames presented so far.
    pub fn frames_presented(&self) -> (n: u64)
        ensures
            n == self.spec_presented(),
    {
        self.presented
    }

    /// Record the display picture size read from a new format description.
    pub fn record_picture(&mut self, width: u32, height: u32)
        ensures
            final(self).spec_picture() == (width, height),
            final(self).spec_error() == old(self).spec_error(),
            final(self).spec_presented() == old(self).spec_presented(),
            final(self).spec_buffer_frames() == old(self).spec_buffer_frames(),
            final(self).spec_surfaces() == old(self).spec_surfaces(),
            final(self).spec_rev() == old(self).spec_rev(),
    {
        proof {
            use_type_invariant(&*self);
        }
        self.width = width;
        self.height = height;
    }

    /// Display picture size, once the parameter sets arrived (both sides non-zero).
    pub fn picture_size(&self) -> (p: Option<(u32, u32)>)
        ensures
            p == (if self.spec_picture().0 > 0 && self.spec_picture().1 > 0 {
                Some(self.spec_picture())
            } else {
                None
            }),
    {
        if self.width > 0 && self.height > 0 {
            Some((self.width, self.height))
        } else {
            None
        }
    }

    /// Smoothing-buffer depth in frames, at most three (0 = display immediately).
    pub fn set_buffer(&mut self, frames: u32)
        ensures
            final(self).spec_buffer_frames() == (if frames < MAX_BUFFER_FRAMES {
                frames
            } else {
                MAX_BUFFER_FRAMES
            }),
            final(self).spec_error() == old(self).spec_error(),
            final(self).spec_presented() == old(self).spec_presented(),
            final(self).spec_picture() == old(self).spec_picture(),
            final(self).spec_surfaces() == old(self).spec_surfaces(),
            final(self).spec_rev() == old(self).spec_rev(),
    {
        self.buffer_frames = if frames < MAX_BUFFER_FRAMES {
            frames
        } else {
            MAX_BUFFER_FRAMES
        };
    }

    /// The current smoothing depth.
    pub fn buffer_frames(&self) -> (d: u32)
        ensures
            d == self.spec_buffer_frames(),
            d <= MAX_BUFFER_FRAMES,
    {
        proof {
            use_type_invariant(self);
        }
        self.buffer_frames
    }

    #[verifier::type_invariant]
    spec fn depth_in_range(self) -> bool {
        self.buffer_frames <= MAX_BUFFER_FRAMES
    }

    /// The surfaces to present into, highest priority first, capped at [`MAX_OUTPUTS`]. The
    /// revision moves only when the served list actually changed. Returns whether it did.
    pub fn set_surfaces(&mut self, surfaces: &[SinkSurface]) -> (changed: bool)
        ensures
            changed == !same_list(old(self).spec_surfaces(), capped(surfaces@)),
            same_list(final(self).spec_surfaces(), capped(surfaces@)),
            changed ==> final(self).spec_rev() == old(self).spec_rev().wrapping_add(1),
            !changed ==> final(self).spec_rev() == old(self).spec_rev() && final(self).spec_surfaces()
                == old(self).spec_surfaces(),
            final(self).spec_error() == old(self).spec_error(),
            final(self).spec_presented() == old(self).spec_presented(),
            final(self).spec_picture() == old(self).spec_picture(),
            final(self).spec_buffer_frames() == old(self).spec_buffer_frames(),
    {
        proof {
            use_type_invariant(&*self);
        }
        let n = if surfaces.len() > MAX_OUTPUTS {
            MAX_OUTPUTS
        } else {
            surfaces.len()
        };
        let mut want: Vec<SinkSurface> = Vec::new();
        let mut i: usize = 0;
        while i < n
            invariant
                n <= surfaces@.len(),
                n == capped(surfaces@).len(),
                i <= n,
                want@.len() == i,
                forall|j: int| 0 <= j < i ==> same_surface(#[trigger] want@[j], surfaces@[j]),
            decreases n - i,
        {
            want.push(surfaces[i].duplicate());
            i += 1;
        }
        let mut same = self.surfaces.len() == want.len();
        let mut j: usize = 0;
        while same && j < want.len()
            invariant
                want@.len() == n,
                j <= want@.len(),
                forall|k: int| 0 <= k < n ==> same_surface(#[trigger] want@[k], surfaces@[k]),
                same ==> self.surfaces@.len() == want@.len(),
                same ==> forall|k: int| 0 <= k < j ==> same_surface(#[trigger] self.surfaces@[k], want@[k]),
                !same ==> !same_list(self.surfaces@, capped(surfaces@)),
                n == capped(surfaces@).len(),
                n <= surfaces@.len(),
            decreases want@.len() - j,
        {
            if !self.surfaces[j].same_as(&want[j]) {
                same = false;
                assert(capped(surfaces@)[j as int] == surfaces@[j as int]);
            }
            j += 1;
        }
        proof {
            assert forall|k: int| 0 <= k < n implies capped(surfaces@)[k] == surfaces@[k] by {}
        }
        if same {
            false
        } else {
            self.surfaces = want;
            self.rev = self.rev.wrapping_add(1);
            true
        }
    }

    /// The published surfaces and their revision.
    pub fn published(&self) -> (p: (u64, &Vec<SinkSurface>))
        ensures
            p.0 == self.spec_rev(),
            p.1@ == self.spec_surfaces(),
    {
        (self.rev, &self.surfaces)
    }
}

/// The error held after one more failure is reported: the one held, if any, else the new one.
pub open spec fn fail_effect(held: Option<Seq<char>>, msg: Seq<char>) -> Option<Seq<char>> {
    match held {
        Some(e) => Some(e),
        None => Some(msg),
    }
}

/// The error held after the failures `msgs` are reported in order, starting from `held`.
pub open spec fn after_fails(held: Option<Seq<char>>, msgs: Seq<Seq<char>>) -> Option<Seq<char>>
    decreases msgs.len(),
{
    if msgs.len() == 0 {
        held
    } else {
        after_fails(fail_effect(held, msgs[0]), msgs.drop_first())
    }
}

/// The first fatal error wins: however many failures are reported after it, the error the sink
/// shows is the first one, and with none reported there is none.
pub proof fn law_first_error_wins(held: Option<Seq<char>>, msgs: Seq<Seq<char>>)
    ensures
        after_fails(held, msgs) == (match held {
            Some(e) => Some(e),
            None => if msgs.len() == 0 {
                None
            } else {
                Some(msgs[0])
            },
        }),
    decreases msgs.len(),
{
    if msgs.len() > 0 {
        law_first_error_wins(fail_effect(held, msgs[0]), msgs.drop_first());
    }
}

proof fn lemma_of_kind_filter(hevc: bool, units: Seq<Seq<u8>>, kind: int, pred: spec_fn(Seq<u8>) -> bool, n: int)
    requires
        0 <= n <= units.len(),
        forall|u: Seq<u8>| #[trigger] pred(u) == (ps_kind(hevc, u[0]) == kind),
    ensures
        of_kind(hevc, units, kind, n) == units.take(n).filter(pred),
    decreases n,
{
    reveal_with_fuel(Seq::filter, 1);
    if n == 0 {
        assert(units.take(0).filter(pred) =~= Seq::<Seq<u8>>::empty());
    } else {
        lemma_of_kind_filter(hevc, units, kind, pred, n - 1);
        assert(units.take(n).drop_last() =~= units.take(n - 1));
        assert(units.take(n).last() == units[n - 1]);
        assert(pred(units[n - 1]) == (ps_kind(hevc, units[n - 1][0]) == kind));
    }
}

proof fn lemma_of_kind_none(hevc: bool, units: Seq<Seq<u8>>, kind: int, n: int)
    requires
        0 <= kind,
        n <= units.len(),
        forall|j: int| 0 <= j < units.len() ==> ps_kind(hevc, #[trigger] units[j][0]) == -1,
    ensures
        of_kind(hevc, units, kind, n).len() == 0,
    decreases n,
{
    if n > 0 {
        assert(ps_kind(hevc, units[n - 1][0]) == -1);
        lemma_of_kind_none(hevc, units, kind, n - 1);
    }
}

/// Which units are parameter sets, and of what kind, by their type: in H.264 an SPS is type 7 and
/// a PPS type 8 (there is no VPS); in HEVC a VPS is type 32, an SPS 33 and a PPS 34. Every other
/// unit — slices, SEI, access-unit delimiters — is in no slot.
pub proof fn law_parameter_set_types(hevc: bool, au: Seq<u8>)
    ensures
        sets_in(hevc, au, 0) == spec_nal_units(au).filter(|u: Seq<u8>| hevc && (u[0] >> 1) & 0x3f == 32),
        sets_in(hevc, au, 1) == spec_nal_units(au).filter(
            |u: Seq<u8>| if hevc { (u[0] >> 1) & 0x3f == 33 } else { u[0] & 0x1f == 7 },
        ),
        sets_in(hevc, au, 2) == spec_nal_units(au).filter(
            |u: Seq<u8>| if hevc { (u[0] >> 1) & 0x3f == 34 } else { u[0] & 0x1f == 8 },
        ),
{
    let us = spec_nal_units(au);
    let n = us.len() as int;
    assert(us.take(n) =~= us);
    let p0 = |u: Seq<u8>| hevc && (u[0] >> 1) & 0x3f == 32;
    let p1 = |u: Seq<u8>| if hevc { (u[0] >> 1) & 0x3f == 33 } else { u[0] & 0x1f == 7 };
    let p2 = |u: Seq<u8>| if hevc { (u[0] >> 1) & 0x3f == 34 } else { u[0] & 0x1f == 8 };
    lemma_of_kind_filter(hevc, us, 0, p0, n);
    lemma_of_kind_filter(hevc, us, 1, p1, n);
    lemma_of_kind_filter(hevc, us, 2, p2, n);
}

/// An access unit without parameter sets changes nothing: every slot stays as it is and no change
/// is reported, whatever the slot held.
pub proof fn law_no_sets_no_change(hevc: bool, au: Seq<u8>, held: Seq<Seq<u8>>)
    requires
        forall|k: int|
            0 <= k < spec_nal_units(au).len() ==> if hevc {
                !(32 <= (#[trigger] spec_nal_units(au)[k][0] >> 1) & 0x3f <= 34)
            } else {
                spec_nal_units(au)[k][0] & 0x1f != 7 && spec_nal_units(au)[k][0] & 0x1f != 8
            },
    ensures
        forall|kind: int|
            0 <= kind < 3 ==> #[trigger] sets_in(hevc, au, kind).len() == 0 && absorbed(held, sets_in(hevc, au, kind)) == held
                && !brings_new(held, sets_in(hevc, au, kind)),
{
    let us = spec_nal_units(au);
    assert forall|j: int| 0 <= j < us.len() implies ps_kind(hevc, #[trigger] us[j][0]) == -1 by {}
    assert forall|kind: int| 0 <= kind < 3 implies #[trigger] sets_in(hevc, au, kind).len() == 0 by {
        lemma_of_kind_none(hevc, us, kind, us.len() as int);
    }
}

} // verus!
