//! The table behind the macOS hole-punch host: one output per surface, keyed by the surface's
//! `window/id`, each with the rect it was last placed at (physical px: full box, then visible box)
//! and its AppKit objects, plus the picture orientation every output shares. AppKit itself is
//! main-thread only and lives with the app; this is the bookkeeping its main-thread hops apply.

use vstd::prelude::*;

verus! {

/// Rect of a freshly created container before the first placement.
pub const INITIAL_RECT: [i32; 8] = [0, 0, 1, 1, 0, 0, 1, 1];

/// One on-screen output: its key, the last rect pushed, and what the app keeps for it.
pub struct HostOutput<V> {
    pub key: String,
    pub rect: [i32; 8],
    pub item: V,
}

/// The outputs by surface key, and the stream's orientation (mirror, rotate 180°).
pub struct AppleHost<V> {
    outputs: Vec<HostOutput<V>>,
    orient: (bool, bool),
}

/// Some output has this key.
pub open spec fn has_key<V>(s: Seq<HostOutput<V>>, key: Seq<char>) -> bool {
    exists|j: int| 0 <= j < s.len() && #[trigger] s[j].key@ == key
}

/// The output with this key (meaningful when there is one).
pub open spec fn entry_for<V>(s: Seq<HostOutput<V>>, key: Seq<char>) -> HostOutput<V> {
    s[choose|j: int| 0 <= j < s.len() && #[trigger] s[j].key@ == key]
}

/// No two outputs share a key.
pub open spec fn keys_unique<V>(s: Seq<HostOutput<V>>) -> bool {
    forall|i: int, j: int| 0 <= i < s.len() && 0 <= j < s.len() && i != j ==> s[i].key@ != s[j].key@
}

/// What the table says about `key`: the rect and item of its output, if there is one.
pub open spec fn lookup<V>(s: Seq<HostOutput<V>>, key: Seq<char>) -> Option<([i32; 8], V)> {
    if has_key(s, key) {
        Some((entry_for(s, key).rect, entry_for(s, key).item))
    } else {
        None
    }
}

proof fn lemma_entry_unique<V>(s: Seq<HostOutput<V>>, j: int)
    requires
        keys_unique(s),
        0 <= j < s.len(),
    ensures
        has_key(s, s[j].key@),
        entry_for(s, s[j].key@) == s[j],
{
    let k = s[j].key@;
    assert(s[j].key@ == k);
    let c = choose|i: int| 0 <= i < s.len() && #[trigger] s[i].key@ == k;
    assert(c == j);
}

/// Index of the output with this key.
fn index_of<V>(outs: &Vec<HostOutput<V>>, key: &String) -> (r: Option<usize>)
    ensures
        match r {
            Some(i) => i < outs@.len() && outs@[i as int].key@ == key@,
            None => !has_key(outs@, key@),
        },
{
    let mut i: usize = 0;
    while i < outs.len()
        invariant
            i <= outs@.len(),
            forall|j: int| 0 <= j < i ==> outs@[j].key@ != key@,
        decreases outs.len() - i,
    {
        if outs[i].key == *key {
            return Some(i);
        }
        i += 1;
    }
    None
}

impl<V> AppleHost<V> {
    #[verifier::type_invariant]
    spec fn wf(self) -> bool {
        keys_unique(self.outputs@)
    }

    pub closed spec fn spec_outputs(self) -> Seq<HostOutput<V>> {
        self.outputs@
    }

    pub closed spec fn spec_orient(self) -> (bool, bool) {
        self.orient
    }

    /// What the host holds for `key`.
    pub open spec fn spec_lookup(self, key: Seq<char>) -> Option<([i32; 8], V)> {
        lookup(self.spec_outputs(), key)
    }

    /// No outputs, upright picture.
    pub fn new() -> (h: Self)
        ensures
            forall|k: Seq<char>| #[trigger] h.spec_lookup(k) is None,
            h.spec_outputs().len() == 0,
            h.spec_orient() == (false, false),
    {
        AppleHost { outputs: Vec::new(), orient: (false, false) }
    }

    /// Whether an output exists for `key`.
    pub fn contains(&self, key: &String) -> (b: bool)
        ensures
            b == self.spec_lookup(key@) is Some,
    {
        index_of(&self.outputs, key).is_some()
    }

    /// The output for `key`, if there is one.
    pub fn get(&self, key: &String) -> (o: Option<&HostOutput<V>>)
        ensures
            match o {
                Some(out) => out.key@ == key@ && self.spec_lookup(key@) == Some((out.rect, out.item)),
                None => self.spec_lookup(key@) is None,
            },
    {
        proof {
            use_type_invariant(self);
        }
        match index_of(&self.outputs, key) {
            Some(i) => {
                proof {
                    lemma_entry_unique(self.outputs@, i as int);
                }
                Some(&self.outputs[i])
            },
            None => None,
        }
    }

    /// The picture orientation every output is shown with.
    pub fn orient(&self) -> (o: (bool, bool))
        ensures
            o == self.spec_orient(),
    {
        self.orient
    }

    /// Keep a new output for `key` — its container was just built in the surface's window — at the
    /// initial rect. Nothing happens when `key` already has one (the existing output is reused).
    /// Returns whether the output was added.
    pub fn insert(&mut self, key: String, item: V) -> (added: bool)
        ensures
            added == old(self).spec_lookup(key@) is None,
            added ==> final(self).spec_lookup(key@) == Some((INITIAL_RECT, item)),
            forall|k: Seq<char>| k != key@ ==> #[trigger] final(self).spec_lookup(k) == old(self).spec_lookup(k),
            !added ==> final(self).spec_lookup(key@) == old(self).spec_lookup(key@),
            final(self).spec_orient() == old(self).spec_orient(),
    {
        proof {
            use_type_invariant(&*self);
        }
        if index_of(&self.outputs, &key).is_some() {
            return false;
        }
        let ghost old_s = self.outputs@;
        let ghost kv = key@;
        let mut outs: Vec<HostOutput<V>> = Vec::new();
        std::mem::swap(&mut outs, &mut self.outputs);
        outs.push(HostOutput { key, rect: INITIAL_RECT, item });
        proof {
            let s = outs@;
            assert(keys_unique(s)) by {
                assert forall|i: int, j: int| 0 <= i < s.len() && 0 <= j < s.len() && i != j implies s[i].key@ != s[j].key@ by {
                    if i < old_s.len() && j < old_s.len() {
                        assert(s[i] == old_s[i] && s[j] == old_s[j]);
                    } else if i < old_s.len() {
                        assert(s[i] == old_s[i]);
                        assert(!(old_s[i].key@ == kv));
                    } else {
                        assert(s[j] == old_s[j]);
                        assert(!(old_s[j].key@ == kv));
                    }
                }
            }
            lemma_entry_unique(s, old_s.len() as int);
            assert forall|k: Seq<char>| k != kv implies #[trigger] lookup(s, k) == lookup(old_s, k) by {
                if has_key(old_s, k) {
                    let j = choose|j: int| 0 <= j < old_s.len() && #[trigger] old_s[j].key@ == k;
                    assert(s[j] == old_s[j]);
                    lemma_entry_unique(old_s, j);
                    lemma_entry_unique(s, j);
                } else if has_key(s, k) {
                    let j = choose|j: int| 0 <= j < s.len() && #[trigger] s[j].key@ == k;
                    if j < old_s.len() {
                        assert(s[j] == old_s[j]);
                    }
                }
            }
        }
        self.outputs = outs;
        true
    }
}

/// Attach a new item to an existing output — a fresh display layer in its container, say — and
/// hand back the one it replaces (to be taken out of the tree); the output keeps its rect. For an
/// unknown key nothing changes and `item` comes back as the error.
#[verifier::spinoff_prover]
pub fn replace_item<V>(host: &mut AppleHost<V>, key: &String, item: V) -> (r: Result<V, V>)
    ensures
        match r {
            Ok(prev) => old(host).spec_lookup(key@) matches Some(e) && e.1 == prev
                && final(host).spec_lookup(key@) == Some((e.0, item)),
            Err(back) => old(host).spec_lookup(key@) is None && back == item
                && final(host).spec_lookup(key@) is None,
        },
        forall|k: Seq<char>| k != key@ ==> #[trigger] final(host).spec_lookup(k) == old(host).spec_lookup(k),
        final(host).spec_orient() == old(host).spec_orient(),
{
    proof {
        use_type_invariant(&*host);
    }
    match index_of(&host.outputs, key) {
        Some(i) => {
            let ghost old_s = host.outputs@;
            let mut outs: Vec<HostOutput<V>> = Vec::new();
            std::mem::swap(&mut outs, &mut host.outputs);
            let out = outs.remove(i);
            let HostOutput { key: k0, rect, item: prev } = out;
            outs.insert(i, HostOutput { key: k0, rect, item });
            proof {
                let s = outs@;
                assert(s =~= old_s.update(i as int, HostOutput { item: item, ..old_s[i as int] }));
                lemma_entry_unique(old_s, i as int);
                lemma_entry_unique(s, i as int);
                assert forall|k: Seq<char>| k != key@ implies #[trigger] lookup(s, k) == lookup(old_s, k) by {
                    if has_key(old_s, k) {
                        let j = choose|j: int| 0 <= j < old_s.len() && #[trigger] old_s[j].key@ == k;
                        assert(j != i);
                        assert(s[j] == old_s[j]);
                        lemma_entry_unique(old_s, j);
                        lemma_entry_unique(s, j);
                    } else if has_key(s, k) {
                        let j = choose|j: int| 0 <= j < s.len() && #[trigger] s[j].key@ == k;
                        assert(s[j] == old_s[j]);
                    }
                }
            }
            host.outputs = outs;
            Ok(prev)
        },
        None => Err(item),
    }
}

/// On-screen rect of one output (physical px, its window's client coordinates, top-left origin):
/// the full box for the video's aspect-fit layout, then the visible box for the clip. An unknown
/// key changes nothing. Returns whether an output took the rect (and has to be laid out again).
#[verifier::spinoff_prover]
pub fn place<V>(host: &mut AppleHost<V>, key: String, rect: [i32; 8]) -> (placed: bool)
    ensures
        placed == old(host).spec_lookup(key@) is Some,
        placed ==> final(host).spec_lookup(key@) == Some((rect, old(host).spec_lookup(key@).unwrap().1)),
        !placed ==> final(host).spec_lookup(key@) is None,
        forall|k: Seq<char>| k != key@ ==> #[trigger] final(host).spec_lookup(k) == old(host).spec_lookup(k),
        final(host).spec_orient() == old(host).spec_orient(),
{
    proof {
        use_type_invariant(&*host);
    }
    match index_of(&host.outputs, &key) {
        Some(i) => {
            let ghost old_s = host.outputs@;
            let mut outs: Vec<HostOutput<V>> = Vec::new();
            std::mem::swap(&mut outs, &mut host.outputs);
            outs[i].rect = rect;
            proof {
                let s = outs@;
                assert(s == old_s.update(i as int, HostOutput { rect: rect, ..old_s[i as int] }));
                lemma_entry_unique(old_s, i as int);
                lemma_entry_unique(s, i as int);
                assert forall|k: Seq<char>| k != key@ implies #[trigger] lookup(s, k) == lookup(old_s, k) by {
                    if has_key(old_s, k) {
                        let j = choose|j: int| 0 <= j < old_s.len() && #[trigger] old_s[j].key@ == k;
                        assert(j != i);
                        assert(s[j] == old_s[j]);
                        lemma_entry_unique(old_s, j);
                        lemma_entry_unique(s, j);
                    } else if has_key(s, k) {
                        let j = choose|j: int| 0 <= j < s.len() && #[trigger] s[j].key@ == k;
                        assert(s[j] == old_s[j]);
                    }
                }
            }
            host.outputs = outs;
            true
        },
        None => false,
    }
}

/// Drop one output: its layer leaves the tree and its container leaves the window. Returns what the
/// app kept for it, so it can tear it down; `None` for an unknown key.
#[verifier::spinoff_prover]
pub fn remove<V>(host: &mut AppleHost<V>, key: String) -> (gone: Option<V>)
    ensures
        match gone {
            Some(v) => old(host).spec_lookup(key@) matches Some(e) && e.1 == v,
            None => old(host).spec_lookup(key@) is None,
        },
        final(host).spec_lookup(key@) is None,
        forall|k: Seq<char>| k != key@ ==> #[trigger] final(host).spec_lookup(k) == old(host).spec_lookup(k),
        final(host).spec_orient() == old(host).spec_orient(),
{
    proof {
        use_type_invariant(&*host);
    }
    match index_of(&host.outputs, &key) {
        Some(i) => {
            let ghost old_s = host.outputs@;
            proof {
                lemma_entry_unique(old_s, i as int);
            }
            let mut outs: Vec<HostOutput<V>> = Vec::new();
            std::mem::swap(&mut outs, &mut host.outputs);
            let out = outs.remove(i);
            proof {
                let s = outs@;
                assert(s == old_s.remove(i as int));
                assert forall|a: int| 0 <= a < s.len() implies #[trigger] s[a] == old_s[if a < i { a } else { a + 1 }] by {}
                assert(!has_key(s, key@)) by {
                    if has_key(s, key@) {
                        let j = choose|j: int| 0 <= j < s.len() && #[trigger] s[j].key@ == key@;
                        assert(s[j] == old_s[if j < i { j } else { j + 1 }]);
                    }
                }
                assert(keys_unique(s)) by {
                    assert forall|a: int, b: int| 0 <= a < s.len() && 0 <= b < s.len() && a != b implies s[a].key@ != s[b].key@ by {
                        assert(s[a] == old_s[if a < i { a } else { a + 1 }]);
                        assert(s[b] == old_s[if b < i { b } else { b + 1 }]);
                    }
                }
                assert forall|k: Seq<char>| k != key@ implies #[trigger] lookup(s, k) == lookup(old_s, k) by {
                    if has_key(old_s, k) {
                        let j = choose|j: int| 0 <= j < old_s.len() && #[trigger] old_s[j].key@ == k;
                        assert(j != i);
                        let a = if j < i { j } else { j - 1 };
                        assert(s[a] == old_s[j]);
                        lemma_entry_unique(old_s, j);
                        lemma_entry_unique(s, a);
                    } else if has_key(s, k) {
                        let j = choose|j: int| 0 <= j < s.len() && #[trigger] s[j].key@ == k;
                        assert(s[j] == old_s[if j < i { j } else { j + 1 }]);
                    }
                }
            }
            host.outputs = outs;
            Some(out.item)
        },
        None => None,
    }
}

/// Drop every output (the stream ended). Returns what the app kept for them, in table order.
pub fn remove_all<V>(host: &mut AppleHost<V>) -> (gone: Vec<V>)
    ensures
        gone@ == old(host).spec_outputs().map_values(|o: HostOutput<V>| o.item),
        forall|k: Seq<char>| #[trigger] final(host).spec_lookup(k) is None,
        final(host).spec_orient() == old(host).spec_orient(),
{
    let mut outs: Vec<HostOutput<V>> = Vec::new();
    std::mem::swap(&mut outs, &mut host.outputs);
    let ghost all = outs@;
    let mut gone: Vec<V> = Vec::new();
    let mut rest: Vec<HostOutput<V>> = Vec::new();
    while outs.len() > 0
        invariant
            all.len() == gone@.len() + outs@.len(),
            outs@ == all.subrange(gone@.len() as int, all.len() as int),
            gone@ == all.subrange(0, gone@.len() as int).map_values(|o: HostOutput<V>| o.item),
        decreases outs.len(),
    {
        let o = outs.remove(0);
        let ghost g0 = gone@;
        gone.push(o.item);
        proof {
            assert(all.subrange(0, gone@.len() as int) =~= all.subrange(0, g0.len() as int).push(all[g0.len() as int]));
            assert(gone@ =~= all.subrange(0, gone@.len() as int).map_values(|o: HostOutput<V>| o.item));
            assert(outs@ =~= all.subrange(gone@.len() as int, all.len() as int));
        }
    }
    proof {
        assert(all.subrange(0, all.len() as int) =~= all);
    }
    gone
}

/// Mirror / 180° rotation — a property of the stream, so it applies to every output and to any
/// output created later. The outputs themselves are unchanged (the app lays each out again).
pub fn set_orient<V>(host: &mut AppleHost<V>, mirror: bool, rotate180: bool)
    ensures
        final(host).spec_orient() == (mirror, rotate180),
        final(host).spec_outputs() == old(host).spec_outputs(),
{
    proof {
        use_type_invariant(&*host);
    }
    host.orient = (mirror, rotate180);
}

/// The containers to send below their siblings, in order, to stack them the way the DOM stacks
/// their surfaces: `keys` arrives highest priority first and the DOM stacks the reverse, so the
/// list is walked backwards — which leaves the first entry lowest. Keys without an output are
/// skipped.
pub fn restack_moves<V>(host: &AppleHost<V>, keys: &Vec<String>) -> (moves: Vec<usize>)
    ensures
        moves@.len() <= keys@.len(),
        forall|m: int| 0 <= m < moves@.len() ==> #[trigger] moves@[m] < keys@.len() && host.spec_lookup(keys@[moves@[m] as int]@) is Some,
        forall|m: int, n: int| 0 <= m < n < moves@.len() ==> moves@[n] < moves@[m],
        forall|i: int| 0 <= i < keys@.len() && host.spec_lookup(#[trigger] keys@[i]@) is Some ==> moves@.contains(i as usize),
{
    let mut moves: Vec<usize> = Vec::new();
    let mut i: usize = keys.len();
    while i > 0
        invariant
            i <= keys@.len(),
            moves@.len() <= keys@.len() - i,
            forall|m: int| 0 <= m < moves@.len() ==> i <= #[trigger] moves@[m] < keys@.len() && host.spec_lookup(keys@[moves@[m] as int]@) is Some,
            forall|m: int, n: int| 0 <= m < n < moves@.len() ==> moves@[n] < moves@[m],
            forall|j: int| i <= j < keys@.len() && host.spec_lookup(#[trigger] keys@[j]@) is Some ==> moves@.contains(j as usize),
        decreases i,
    {
        i -= 1;
        let ghost m0 = moves@;
        if host.contains(&keys[i]) {
            moves.push(i);
            proof {
                assert(moves@[m0.len() as int] == i);
                assert forall|j: int| i <= j < keys@.len() && host.spec_lookup(#[trigger] keys@[j]@) is Some implies moves@.contains(j as usize) by {
                    if j == i {
                        assert(moves@[m0.len() as int] == j as usize);
                    } else {
                        let w = choose|w: int| 0 <= w < m0.len() && m0[w] == j as usize;
                        assert(moves@[w] == m0[w]);
                    }
                }
            }
        }
    }
    moves
}

} // verus!
