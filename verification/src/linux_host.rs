//! The seats of the Linux hole-punch host and their geometry. Each window has a fixed number of
//! seats; a seat owns one clip layer and holds one video widget for the sink's whole life, and is
//! either given to a surface (placed at its rect) or parked. Rects arrive in physical px and are
//! laid out in GTK's logical px through the window's integer scale factor. Each window label has at
//! most one tree of seats, rebuilt when the label turns up in a new window. The GTK widgets
//! themselves are the app's; this is what its main-loop hops apply.

use vstd::prelude::*;

verus! {

/// On-screen surfaces one window can show at once: the widget tile plus one large surface.
pub const SLOTS: usize = 2;

/// Where an idle seat's clip goes: one logical pixel off the base layout's top-left corner, so it
/// is clipped away instead of drawn — parked, never hidden, so its widget stays realized.
pub const PARK_POS: i32 = -8;

/// Rect of a seat before its first placement.
pub const INITIAL_RECT: [i32; 8] = [0, 0, 1, 1, 0, 0, 1, 1];

/// `v / scale` rounded to the nearest integer, halves away from zero.
pub open spec fn spec_to_logical(v: int, scale: int) -> int {
    if v >= 0 {
        (2 * v + scale) / (2 * scale)
    } else {
        -((-2 * v + scale) / (2 * scale))
    }
}

/// The window's scale factor as used: at least 1.
pub open spec fn used_scale(scale: i32) -> int {
    if scale < 1 {
        1
    } else {
        scale as int
    }
}

/// A physical-px length or position in logical px at the window's scale factor (taken as at
/// least 1), rounded to nearest.
pub fn to_logical(v: i32, scale: i32) -> (l: i32)
    ensures
        l == spec_to_logical(v as int, used_scale(scale)),
{
    proof {
        lemma_logical_fits(v as int, used_scale(scale));
    }
    let s: i64 = if scale < 1 {
        1
    } else {
        scale as i64
    };
    let v2 = 2 * (v as i64);
    if v >= 0 {
        let r = (v2 + s) / (2 * s);
        r as i32
    } else {
        let r = -((-v2 + s) / (2 * s));
        r as i32
    }
}

/// The conversion picks the nearest logical pixel: it is off by at most half a logical pixel
/// (`scale / 2` physical px), and exact on whole logical pixels.
pub proof fn law_logical_is_nearest(v: int, scale: int)
    requires
        scale >= 1,
    ensures
        -scale <= 2 * scale * spec_to_logical(v, scale) - 2 * v <= scale,
        spec_to_logical(v * scale, scale) == v,
{
    if v >= 0 {
        let q = (2 * v + scale) / (2 * scale);
        assert(2 * scale * q <= 2 * v + scale < 2 * scale * q + 2 * scale) by (nonlinear_arith)
            requires
                q == (2 * v + scale) / (2 * scale),
                scale >= 1,
                v >= 0,
        ;
        assert((2 * (v * scale) + scale) / (2 * scale) == v) by (nonlinear_arith)
            requires
                scale >= 1,
                v >= 0,
        ;
        assert(v * scale >= 0) by (nonlinear_arith)
            requires
                scale >= 1,
                v >= 0,
        ;
    } else {
        let q = (-2 * v + scale) / (2 * scale);
        assert(2 * scale * q <= -2 * v + scale < 2 * scale * q + 2 * scale) by (nonlinear_arith)
            requires
                q == (-2 * v + scale) / (2 * scale),
                scale >= 1,
                v < 0,
        ;
        assert(2 * scale * (-q) == -(2 * scale * q)) by (nonlinear_arith);
        assert(spec_to_logical(v, scale) == -q);
        assert((-2 * (v * scale) + scale) / (2 * scale) == -v) by (nonlinear_arith)
            requires
                scale >= 1,
                v < 0,
        ;
        assert(v * scale < 0) by (nonlinear_arith)
            requires
                scale >= 1,
                v < 0,
        ;
    }
}

/// Where a seat's clip and video widget go, in logical px: the clip at the visible box (inside
/// the base layout), the video at the full box offset into the clip.
pub struct SeatGeometry {
    pub clip_pos: (i32, i32),
    pub clip_size: (i32, i32),
    pub video_pos: (i32, i32),
    pub video_size: (i32, i32),
}

pub open spec fn at_least_one(v: int) -> int {
    if v < 1 {
        1
    } else {
        v
    }
}

/// The geometry of a seat: parked, its clip sits at [`PARK_POS`] at 1×1 with the video at its
/// corner at 1×1; placed, the clip is the visible box and the video the full box relative to it,
/// sizes at least one logical pixel.
pub open spec fn spec_seat_layout(rect: [i32; 8], parked: bool, scale: int) -> SeatGeometry {
    if parked {
        SeatGeometry { clip_pos: (PARK_POS, PARK_POS), clip_size: (1, 1), video_pos: (0, 0), video_size: (1, 1) }
    } else {
        let (x, y, w, h, cx, cy, cw, ch) = (rect[0] as int, rect[1] as int, rect[2] as int, rect[3] as int, rect[4] as int, rect[5] as int, rect[6] as int, rect[7] as int);
        SeatGeometry {
            clip_pos: (spec_to_logical(cx, scale) as i32, spec_to_logical(cy, scale) as i32),
            clip_size: (at_least_one(spec_to_logical(cw, scale)) as i32, at_least_one(spec_to_logical(ch, scale)) as i32),
            video_pos: (spec_to_logical(x - cx, scale) as i32, spec_to_logical(y - cy, scale) as i32),
            video_size: (at_least_one(spec_to_logical(w, scale)) as i32, at_least_one(spec_to_logical(h, scale)) as i32),
        }
    }
}

/// Physical px to logical px never grows a value's magnitude, so the results fit in `i32`.
proof fn lemma_logical_fits(v: int, scale: int)
    requires
        scale >= 1,
        i32::MIN <= v <= i32::MAX,
    ensures
        i32::MIN <= spec_to_logical(v, scale) <= i32::MAX,
{
    if v >= 0 {
        assert(0 <= (2 * v + scale) / (2 * scale) <= v + 1) by (nonlinear_arith)
            requires
                v >= 0,
                scale >= 1,
        ;
        if v == i32::MAX {
            assert((2 * v + scale) / (2 * scale) <= v) by (nonlinear_arith)
                requires
                    v == i32::MAX,
                    scale >= 1,
            ;
        }
    } else {
        assert(0 <= (-2 * v + scale) / (2 * scale) <= -v + 1) by (nonlinear_arith)
            requires
                v < 0,
                scale >= 1,
        ;
        assert((-2 * v + scale) / (2 * scale) <= -v) by (nonlinear_arith)
            requires
                v < 0,
                scale >= 1,
        ;
    }
}

/// The seat's rect offsets fit the coordinate type (the full box's position relative to the clip).
pub open spec fn offsets_fit(rect: [i32; 8]) -> bool {
    &&& i32::MIN <= rect[0] - rect[4] <= i32::MAX
    &&& i32::MIN <= rect[1] - rect[5] <= i32::MAX
}

/// Apply one seat's rect (physical px) at the window's scale factor (taken as at least 1).
pub fn seat_layout(rect: [i32; 8], parked: bool, scale: i32) -> (g: SeatGeometry)
    requires
        !parked ==> offsets_fit(rect),
    ensures
        g == spec_seat_layout(rect, parked, used_scale(scale)),
{
    if parked {
        return SeatGeometry { clip_pos: (PARK_POS, PARK_POS), clip_size: (1, 1), video_pos: (0, 0), video_size: (1, 1) };
    }
    let x = rect[0];
    let y = rect[1];
    let w = rect[2];
    let h = rect[3];
    let cx = rect[4];
    let cy = rect[5];
    let cw = rect[6];
    let ch = rect[7];
    let cw_l = to_logical(cw, scale);
    let ch_l = to_logical(ch, scale);
    let w_l = to_logical(w, scale);
    let h_l = to_logical(h, scale);
    SeatGeometry {
        clip_pos: (to_logical(cx, scale), to_logical(cy, scale)),
        clip_size: (if cw_l < 1 { 1 } else { cw_l }, if ch_l < 1 { 1 } else { ch_l }),
        video_pos: (to_logical(x - cx, scale), to_logical(y - cy, scale)),
        video_size: (if w_l < 1 { 1 } else { w_l }, if h_l < 1 { 1 } else { h_l }),
    }
}

/// One seat: the rect it was last given, whether it is parked, and the widget in it.
pub struct Seat<W> {
    pub rect: [i32; 8],
    pub parked: bool,
    pub video: Option<W>,
}

/// A window's seats as built: all parked, empty, at the initial rect.
pub fn new_seats<W>() -> (seats: Vec<Seat<W>>)
    ensures
        seats@.len() == SLOTS,
        forall|i: int|
            0 <= i < SLOTS ==> #[trigger] seats@[i].parked && seats@[i].video is None && seats@[i].rect
                == INITIAL_RECT,
{
    let mut seats: Vec<Seat<W>> = Vec::new();
    let mut i: usize = 0;
    while i < SLOTS
        invariant
            i <= SLOTS,
            seats@.len() == i,
            forall|j: int|
                0 <= j < i ==> #[trigger] seats@[j].parked && seats@[j].video is None && seats@[j].rect
                    == INITIAL_RECT,
        decreases SLOTS - i,
    {
        seats.push(Seat { rect: INITIAL_RECT, parked: true, video: None });
        i += 1;
    }
    seats
}

/// On-screen rect of one seat (physical px, window client coordinates): full box, then visible
/// box. An unknown seat changes nothing. Returns whether the seat exists (and is laid out again).
pub fn set_rect<W>(seats: &mut Vec<Seat<W>>, slot: usize, rect: [i32; 8]) -> (known: bool)
    ensures
        known == (slot < old(seats)@.len()),
        final(seats)@.len() == old(seats)@.len(),
        forall|i: int|
            0 <= i < final(seats)@.len() ==> #[trigger] final(seats)@[i] == if i == slot {
                Seat { rect: rect, ..old(seats)@[i] }
            } else {
                old(seats)@[i]
            },
{
    if slot < seats.len() {
        seats[slot].rect = rect;
        true
    } else {
        false
    }
}

/// Give a seat to a surface, or park it because no surface wants it right now. Parking is not
/// hiding. Returns whether the seat exists.
pub fn set_visible<W>(seats: &mut Vec<Seat<W>>, slot: usize, visible: bool) -> (known: bool)
    ensures
        known == (slot < old(seats)@.len()),
        final(seats)@.len() == old(seats)@.len(),
        forall|i: int|
            0 <= i < final(seats)@.len() ==> #[trigger] final(seats)@[i] == if i == slot {
                Seat { parked: !visible, ..old(seats)@[i] }
            } else {
                old(seats)@[i]
            },
{
    if slot < seats.len() {
        seats[slot].parked = !visible;
        true
    } else {
        false
    }
}

/// Take the widget out of a seat, if it holds one.
pub fn detach_widget<W>(seats: &mut Vec<Seat<W>>, slot: usize) -> (w: Option<W>)
    ensures
        final(seats)@.len() == old(seats)@.len(),
        slot < old(seats)@.len() ==> w == old(seats)@[slot as int].video,
        slot >= old(seats)@.len() ==> w is None,
        forall|i: int|
            0 <= i < final(seats)@.len() ==> #[trigger] final(seats)@[i] == if i == slot {
                Seat { video: None, ..old(seats)@[i] }
            } else {
                old(seats)@[i]
            },
{
    if slot < seats.len() {
        seats[slot].video.take()
    } else {
        None
    }
}

/// Put a video widget into a seat, replacing any previous one (which is returned, to be taken
/// out of the clip). `made` is what the widget factory produced on the main loop; it is placed
/// only when there is one and the seat exists, and then the seat is given to its surface.
/// Returns the replaced widget and whether `made` was placed.
pub fn attach<W>(seats: &mut Vec<Seat<W>>, slot: usize, made: Option<W>) -> (r: (Option<W>, bool))
    ensures
        final(seats)@.len() == old(seats)@.len(),
        slot < old(seats)@.len() ==> r.0 == old(seats)@[slot as int].video,
        slot >= old(seats)@.len() ==> r.0 is None,
        r.1 == (slot < old(seats)@.len() && made is Some),
        forall|i: int|
            0 <= i < final(seats)@.len() ==> #[trigger] final(seats)@[i] == if i == slot {
                if made is Some {
                    Seat { video: made, ..old(seats)@[i] }
                } else {
                    Seat { video: None, ..old(seats)@[i] }
                }
            } else {
                old(seats)@[i]
            },
{
    let old_widget = detach_widget(seats, slot);
    match made {
        Some(w) => {
            if slot < seats.len() {
                seats[slot].video = Some(w);
                (old_widget, true)
            } else {
                (old_widget, false)
            }
        },
        None => (old_widget, false),
    }
}

/// The widgets held by the seats `start..n` (those that exist), in seat order.
pub open spec fn widgets_in<W>(seats: Seq<Seat<W>>, start: int, n: int) -> Seq<W>
    decreases n - start,
{
    if n <= start || n > seats.len() {
        if n > seats.len() && n > start {
            widgets_in(seats, start, n - 1)
        } else {
            seq![]
        }
    } else {
        match seats[n - 1].video {
            Some(w) => widgets_in(seats, start, n - 1).push(w),
            None => widgets_in(seats, start, n - 1),
        }
    }
}

/// Remove every video widget of the seats in `start..end` and park them (the pipeline is going
/// away). Returns the widgets taken out, in seat order.
pub fn detach<W>(seats: &mut Vec<Seat<W>>, start: usize, end: usize) -> (gone: Vec<W>)
    ensures
        final(seats)@.len() == old(seats)@.len(),
        forall|i: int|
            0 <= i < final(seats)@.len() ==> #[trigger] final(seats)@[i] == if start <= i < end {
                Seat { video: None, parked: true, ..old(seats)@[i] }
            } else {
                old(seats)@[i]
            },
        gone@ == widgets_in(old(seats)@, start as int, end as int),
{
    let mut gone: Vec<W> = Vec::new();
    let mut slot = start;
    while slot < end
        invariant
            start <= slot,
            start < end ==> slot <= end,
            start >= end ==> slot == start,
            seats@.len() == old(seats)@.len(),
            forall|i: int|
                0 <= i < seats@.len() ==> #[trigger] seats@[i] == if start <= i < slot {
                    Seat { video: None, parked: true, ..old(seats)@[i] }
                } else {
                    old(seats)@[i]
                },
            gone@ == widgets_in(old(seats)@, start as int, slot as int),
        decreases end - slot,
    {
        if slot < seats.len() {
            let w = seats[slot].video.take();
            seats[slot].parked = true;
            match w {
                Some(x) => {
                    gone.push(x);
                },
                None => {},
            }
        }
        slot += 1;
    }
    gone
}

/// The seats to raise, in order: `order` arrives highest priority first and DOM stacking is the
/// reverse of that, so raising them in that order leaves the last one on top. Unknown seats are
/// skipped.
pub fn restack(seat_count: usize, order: &Vec<usize>) -> (raise: Vec<usize>)
    ensures
        raise@ == order@.filter(|s: usize| s < seat_count),
{
    let mut raise: Vec<usize> = Vec::new();
    let mut i: usize = 0;
    while i < order.len()
        invariant
            i <= order@.len(),
            raise@ == order@.subrange(0, i as int).filter(|s: usize| s < seat_count),
        decreases order.len() - i,
    {
        proof {
            reveal_with_fuel(Seq::filter, 1);
            assert(order@.subrange(0, i + 1).drop_last() =~= order@.subrange(0, i as int));
        }
        if order[i] < seat_count {
            raise.push(order[i]);
        }
        i += 1;
    }
    assert(order@.subrange(0, order@.len() as int) =~= order@);
    raise
}

/// One window's video layer tree: its label, the window it was built in (an identity the app
/// chooses for the toplevel, such as its address), and its seats.
pub struct WindowTree<W> {
    pub label: String,
    pub window: u64,
    pub seats: Vec<Seat<W>>,
}

/// Index of the first tree at or after `i` that belongs to `label`, or the number of trees.
pub open spec fn first_tree<W>(trees: Seq<WindowTree<W>>, label: Seq<char>, i: int) -> int
    decreases trees.len() - i,
{
    if i < 0 || i >= trees.len() {
        trees.len() as int
    } else if trees[i].label@ == label {
        i
    } else {
        first_tree(trees, label, i + 1)
    }
}

proof fn lemma_first_tree<W>(trees: Seq<WindowTree<W>>, label: Seq<char>, i: int)
    requires
        0 <= i <= trees.len(),
    ensures
        i <= first_tree(trees, label, i) <= trees.len(),
        first_tree(trees, label, i) < trees.len() ==> trees[first_tree(trees, label, i)].label@ == label,
    decreases trees.len() - i,
{
    if i < trees.len() && trees[i].label@ != label {
        lemma_first_tree(trees, label, i + 1);
    }
}

/// Where the tree of `label` stands, or the number of trees when it has none.
fn find_tree<W>(trees: &Vec<WindowTree<W>>, label: &String) -> (r: usize)
    ensures
        r == first_tree(trees@, label@, 0),
        r <= trees@.len(),
        r < trees@.len() ==> trees@[r as int].label@ == label@,
{
    proof {
        lemma_first_tree(trees@, label@, 0);
    }
    let mut i: usize = 0;
    while i < trees.len()
        invariant
            i <= trees@.len(),
            first_tree(trees@, label@, 0) == first_tree(trees@, label@, i as int),
        decreases trees.len() - i,
    {
        if trees[i].label == *label {
            return i;
        }
        i += 1;
    }
    i
}

/// Build the tree of `label` in `window`: all seats parked and empty. A label that already has a
/// tree is left alone. Returns whether a tree was added.
pub fn install_tree<W>(trees: &mut Vec<WindowTree<W>>, label: &String, window: u64) -> (installed: bool)
    ensures
        installed == (first_tree(old(trees)@, label@, 0) == old(trees)@.len()),
        !installed ==> *final(trees) == *old(trees),
        installed ==> ({
            let t = final(trees)@.last();
            &&& final(trees)@.len() == old(trees)@.len() + 1
            &&& final(trees)@.drop_last() == old(trees)@
            &&& t.label@ == label@
            &&& t.window == window
            &&& t.seats@.len() == SLOTS
            &&& forall|i: int|
                0 <= i < SLOTS ==> #[trigger] t.seats@[i].parked && t.seats@[i].video is None && t.seats@[i].rect == INITIAL_RECT
        }),
{
    if find_tree(trees, label) < trees.len() {
        return false;
    }
    let ghost before = trees@;
    trees.push(WindowTree { label: label.clone(), window, seats: new_seats() });
    assert(trees@.drop_last() =~= before);
    true
}

/// Take the tree at `i` out, with every widget removed from its seats first (so the pipeline can
/// drop them safely). Returns those widgets, in seat order.
fn take_tree<W>(trees: &mut Vec<WindowTree<W>>, i: usize) -> (gone: Vec<W>)
    requires
        i < old(trees)@.len(),
    ensures
        final(trees)@ == old(trees)@.remove(i as int),
        gone@ == widgets_in(old(trees)@[i as int].seats@, 0, old(trees)@[i as int].seats@.len() as int),
{
    let mut tree = trees.remove(i);
    let n = tree.seats.len();
    detach(&mut tree.seats, 0, n)
}

/// What installing a window's tree has to do first.
pub enum InstallPrep<W> {
    /// The label's tree is already in this very window: nothing to do.
    Installed,
    /// The label's tree was built in a window that is gone: it was taken out, and these widgets
    /// have to leave their clips; then the tree is built again in the new window.
    Rebuild(Vec<W>),
    /// The label has no tree yet: build it.
    Fresh,
}

/// Before installing the tree of `label` in `window`: a tree on file for the same window stays as
/// it is; one left behind by a window that is gone is taken out (keeping it would seat the new
/// window's video in the dead one's layer).
pub fn prepare_install<W>(trees: &mut Vec<WindowTree<W>>, label: &String, window: u64) -> (p: InstallPrep<W>)
    ensures
        ({
            let i = first_tree(old(trees)@, label@, 0);
            &&& i == old(trees)@.len() ==> p is Fresh && *final(trees) == *old(trees)
            &&& i < old(trees)@.len() && old(trees)@[i].window == window ==> p is Installed && *final(trees) == *old(trees)
            &&& i < old(trees)@.len() && old(trees)@[i].window != window ==> (p matches InstallPrep::Rebuild(ws)
                && ws@ == widgets_in(old(trees)@[i].seats@, 0, old(trees)@[i].seats@.len() as int)
                && final(trees)@ == old(trees)@.remove(i))
        }),
{
    let i = find_tree(trees, label);
    if i == trees.len() {
        InstallPrep::Fresh
    } else if trees[i].window == window {
        InstallPrep::Installed
    } else {
        InstallPrep::Rebuild(take_tree(trees, i))
    }
}

/// Forget the tree of `label` (its window is going away), its widgets removed first. Returns them,
/// in seat order; `None` when the label has no tree.
pub fn uninstall<W>(trees: &mut Vec<WindowTree<W>>, label: &String) -> (gone: Option<Vec<W>>)
    ensures
        ({
            let i = first_tree(old(trees)@, label@, 0);
            &&& i == old(trees)@.len() ==> gone is None && *final(trees) == *old(trees)
            &&& i < old(trees)@.len() ==> (gone matches Some(ws)
                && ws@ == widgets_in(old(trees)@[i].seats@, 0, old(trees)@[i].seats@.len() as int)
                && final(trees)@ == old(trees)@.remove(i))
        }),
{
    let i = find_tree(trees, label);
    if i == trees.len() {
        None
    } else {
        Some(take_tree(trees, i))
    }
}

/// An undecorated window other than the main one gets its move and resize gestures from a press
/// handler: whether `label` needs one.
pub fn needs_drag_handler(label: &String) -> (b: bool)
    ensures
        b == (label@ != "main"@),
{
    let main = String::from_str("main");
    !(*label == main)
}

} // verus!
