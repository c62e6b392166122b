//! What a window's surface router publishes: every DOM hole the native decode sink has to present
//! into right now. A surface is identified by its window label and its own id, and the whole list
//! is replaced on every push.

use vstd::prelude::*;
use vstd::string::*;

verus! {

/// One surface as the frontend reports it (physical px, its own window's client coordinates): the
/// full box `x/y/w/h` the video is aspect-fitted into, and the visible box `cx/cy/cw/ch` it is cut at.
#[derive(Debug, Clone)]
pub struct SurfaceRect {
    pub id: String,
    pub x: i32,
    pub y: i32,
    pub w: i32,
    pub h: i32,
    pub cx: i32,
    pub cy: i32,
    pub cw: i32,
    pub ch: i32,
}

/// A reported surface resolved against the window it came from — what the sinks work with.
#[derive(Debug, PartialEq, Eq)]
pub struct SinkSurface {
    /// `window/id`, stable for as long as the surface exists: the sinks key their outputs on it.
    pub key: String,
    /// Window label the hole lives in.
    pub window: String,
    /// Native parent window handle for the platforms that parent a child window to it; 0 when the
    /// label has no handle registered.
    pub parent: isize,
    /// Full box (x, y, w, h) — the video's aspect-fit layout box.
    pub full: (i32, i32, i32, i32),
    /// Visible box (x, y, w, h) — what is left of it after the DOM's clipping ancestors.
    pub clip: (i32, i32, i32, i32),
}

/// The key a surface is known by: the window label, a slash, and the surface's own id.
pub open spec fn surface_key(window: Seq<char>, id: Seq<char>) -> Seq<char> {
    window + seq!['/'] + id
}

/// The eight numbers a host places an output with: the full box, then the visible box.
pub open spec fn spec_rect_of(s: SinkSurface) -> [i32; 8] {
    [s.full.0, s.full.1, s.full.2, s.full.3, s.clip.0, s.clip.1, s.clip.2, s.clip.3]
}

/// Two surfaces describe the same thing: same key, window, parent handle and boxes.
pub open spec fn same_surface(a: SinkSurface, b: SinkSurface) -> bool {
    &&& a.key@ == b.key@
    &&& a.window@ == b.window@
    &&& a.parent == b.parent
    &&& a.full == b.full
    &&& a.clip == b.clip
}

impl SinkSurface {
    /// Resolve a reported rect against the window it came from.
    pub fn new(window: &str, parent: isize, r: &SurfaceRect) -> (s: Self)
        ensures
            s.key@ == surface_key(window@, r.id@),
            s.window@ == window@,
            s.parent == parent,
            s.full == (r.x, r.y, r.w, r.h),
            s.clip == (r.cx, r.cy, r.cw, r.ch),
    {
        let mut key = String::from_str(window);
        key.append("/");
        key.append(r.id.as_str());
        proof {
            reveal_strlit("/");
        }
        Self {
            key,
            window: String::from_str(window),
            parent,
            full: (r.x, r.y, r.w, r.h),
            clip: (r.cx, r.cy, r.cw, r.ch),
        }
    }

    /// The full box followed by the visible box, as the hosts take them.
    pub fn rect(&self) -> (r: [i32; 8])
        ensures
            r == spec_rect_of(*self),
    {
        [
            self.full.0,
            self.full.1,
            self.full.2,
            self.full.3,
            self.clip.0,
            self.clip.1,
            self.clip.2,
            self.clip.3,
        ]
    }

    /// A field-by-field copy.
    pub fn duplicate(&self) -> (c: Self)
        ensures
            same_surface(c, *self),
    {
        SinkSurface {
            key: self.key.clone(),
            window: self.window.clone(),
            parent: self.parent,
            full: self.full,
            clip: self.clip,
        }
    }

    /// Whether two surfaces describe the same thing.
    pub fn same_as(&self, other: &SinkSurface) -> (b: bool)
        ensures
            b == same_surface(*self, *other),
    {
        self.key == other.key && self.window == other.window && self.parent == other.parent
            && self.full.0 == other.full.0 && self.full.1 == other.full.1 && self.full.2
            == other.full.2 && self.full.3 == other.full.3 && self.clip.0 == other.clip.0
            && self.clip.1 == other.clip.1 && self.clip.2 == other.clip.2 && self.clip.3
            == other.clip.3
    }
}

impl Clone for SinkSurface {
    fn clone(&self) -> (c: Self)
        ensures
            same_surface(c, *self),
    {
        self.duplicate()
    }
}

} // verus!
