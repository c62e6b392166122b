//! Annex-B access units as the RTSP depacketizer delivers them: NAL units separated by 3- or
//! 4-byte start codes, parameter sets in band. CoreMedia wants the AVCC/HVCC framing instead —
//! each unit behind a 4-byte big-endian length, the parameter sets kept apart.

use vstd::prelude::*;
use vstd::slice::slice_subrange;
use vstd::string::*;

verus! {

/// `au[j..j + 3]` is a start code `00 00 01`.
pub open spec fn is_start_code(au: Seq<u8>, j: int) -> bool {
    &&& 0 <= j
    &&& j + 3 <= au.len()
    &&& au[j] == 0
    &&& au[j + 1] == 0
    &&& au[j + 2] == 1
}

/// Offsets of the first payload byte after every start code that begins before `n`, ascending.
pub open spec fn starts_before(au: Seq<u8>, n: int) -> Seq<int>
    decreases n,
{
    if n <= 0 {
        seq![]
    } else if is_start_code(au, n - 1) {
        starts_before(au, n - 1).push(n + 2)
    } else {
        starts_before(au, n - 1)
    }
}

/// Offsets of the first payload byte after every start code of `au`.
pub open spec fn nal_starts(au: Seq<u8>) -> Seq<int> {
    starts_before(au, au.len() as int)
}

/// `e` with the zero bytes in front of it (but not before `s`) taken off: a 4-byte start code
/// leaves a trailing zero on the unit before it.
pub open spec fn trimmed_end(au: Seq<u8>, s: int, e: int) -> int
    decreases e - s,
{
    if e > s && au[e - 1] == 0 {
        trimmed_end(au, s, e - 1)
    } else {
        e
    }
}

/// Where the unit starting at `starts[k]` ends before trimming: three bytes before the next
/// start's payload, or the end of the access unit.
pub open spec fn raw_end(au: Seq<u8>, starts: Seq<int>, k: int) -> int {
    if k + 1 < starts.len() {
        starts[k + 1] - 3
    } else {
        au.len() as int
    }
}

/// The non-empty units among the first `k` starts.
pub open spec fn units_upto(au: Seq<u8>, starts: Seq<int>, k: int) -> Seq<Seq<u8>>
    decreases k,
{
    if k <= 0 {
        seq![]
    } else {
        let prev = units_upto(au, starts, k - 1);
        let s = starts[k - 1];
        let e = trimmed_end(au, s, raw_end(au, starts, k - 1));
        if e > s {
            prev.push(au.subrange(s, e))
        } else {
            prev
        }
    }
}

/// The NAL unit payloads of an Annex-B access unit, in stream order.
pub open spec fn spec_nal_units(au: Seq<u8>) -> Seq<Seq<u8>> {
    units_upto(au, nal_starts(au), nal_starts(au).len() as int)
}

/// The byte contents of a list of slices.
pub open spec fn slices_view(v: Seq<&[u8]>) -> Seq<Seq<u8>> {
    v.map_values(|s: &[u8]| s@)
}

proof fn lemma_starts_bounds(au: Seq<u8>, n: int)
    ensures
        forall|k: int|
            0 <= k < starts_before(au, n).len() ==> 3 <= #[trigger] starts_before(au, n)[k]
                <= au.len(),
    decreases n,
{
    if n > 0 {
        lemma_starts_bounds(au, n - 1);
        let prev = starts_before(au, n - 1);
        if is_start_code(au, n - 1) {
            assert forall|k: int| 0 <= k < starts_before(au, n).len() implies 3
                <= #[trigger] starts_before(au, n)[k] <= au.len() by {
                if k < prev.len() {
                    assert(starts_before(au, n)[k] == prev[k]);
                }
            }
        }
    }
}

proof fn lemma_no_more_starts(au: Seq<u8>, i: int, n: int)
    requires
        0 <= i <= n,
        i + 3 > au.len(),
    ensures
        starts_before(au, n) == starts_before(au, i),
    decreases n - i,
{
    if n > i {
        lemma_no_more_starts(au, i, n - 1);
    }
}

proof fn lemma_trimmed_end(au: Seq<u8>, s: int, e: int)
    requires
        0 <= s <= e <= au.len(),
    ensures
        s <= trimmed_end(au, s, e) <= e,
        trimmed_end(au, s, e) > s ==> au[trimmed_end(au, s, e) - 1] != 0,
    decreases e - s,
{
    if e > s && au[e - 1] == 0 {
        lemma_trimmed_end(au, s, e - 1);
    }
}

/// Split an Annex-B byte stream into NAL unit payloads (start codes of 3 or 4 bytes).
pub fn nal_units(au: &[u8]) -> (out: Vec<&[u8]>)
    ensures
        slices_view(out@) == spec_nal_units(au@),
        forall|k: int| 0 <= k < out@.len() ==> #[trigger] out@[k]@.len() > 0,
        forall|k: int|
            0 <= k < out@.len() ==> #[trigger] out@[k]@[out@[k]@.len() - 1] != 0,
{
    let ghost a = au@;
    let mut starts: Vec<usize> = Vec::new();
    let mut i: usize = 0;
    while i < au.len() && au.len() - i >= 3
        invariant
            a == au@,
            i <= au.len(),
            starts@.len() == starts_before(a, i as int).len(),
            forall|k: int|
                0 <= k < starts@.len() ==> starts@[k] as int == #[trigger] starts_before(
                    a,
                    i as int,
                )[k],
        decreases au.len() - i,
    {
        if au[i] == 0 && au[i + 1] == 0 && au[i + 2] == 1 {
            proof {
                assert(starts_before(a, i + 1) == starts_before(a, i as int).push(i + 3));
                assert(!is_start_code(a, i + 1));
                assert(starts_before(a, i + 2) == starts_before(a, i + 1));
                assert(!is_start_code(a, i + 2));
                assert(starts_before(a, i + 3) == starts_before(a, i + 2));
            }
            starts.push(i + 3);
            i += 3;
        } else {
            proof {
                assert(starts_before(a, i + 1) == starts_before(a, i as int));
            }
            i += 1;
        }
    }
    let ghost sts = nal_starts(a);
    proof {
        lemma_no_more_starts(a, i as int, a.len() as int);
        lemma_starts_bounds(a, a.len() as int);
    }
    let mut out: Vec<&[u8]> = Vec::with_capacity(starts.len());
    let mut k: usize = 0;
    while k < starts.len()
        invariant
            a == au@,
            sts == nal_starts(a),
            starts@.len() == sts.len(),
            forall|j: int| 0 <= j < starts@.len() ==> starts@[j] as int == #[trigger] sts[j],
            forall|j: int| 0 <= j < sts.len() ==> 3 <= #[trigger] sts[j] <= a.len(),
            k <= starts.len(),
            slices_view(out@) == units_upto(a, sts, k as int),
            forall|j: int| 0 <= j < out@.len() ==> #[trigger] out@[j]@.len() > 0,
            forall|j: int| 0 <= j < out@.len() ==> #[trigger] out@[j]@[out@[j]@.len() - 1] != 0,
        decreases starts.len() - k,
    {
        let s = starts[k];
        let mut e: usize = if k + 1 < starts.len() {
            let next = starts[k + 1];
            assert(next as int == sts[k + 1]);
            next - 3
        } else {
            au.len()
        };
        let ghost e0 = e as int;
        assert(e0 == raw_end(a, sts, k as int));
        while e > s && au[e - 1] == 0
            invariant
                a == au@,
                e <= au.len(),
                e0 <= au.len(),
                trimmed_end(a, s as int, e as int) == trimmed_end(a, s as int, e0),
            decreases e,
        {
            e -= 1;
        }
        assert(trimmed_end(a, s as int, e as int) == e as int);
        let ghost prev = out@;
        if e > s {
            proof {
                lemma_trimmed_end(a, s as int, e as int);
            }
            let unit = slice_subrange(au, s, e);
            out.push(unit);
            proof {
                assert(slices_view(out@) =~= slices_view(prev).push(a.subrange(s as int, e as int)));
            }
        }
        k += 1;
    }
    out
}

/// The first byte of a NAL unit marks an intra frame: an H.264 IDR slice (type 5) or an HEVC
/// IRAP picture (types 16 to 21).
pub open spec fn is_intra(hevc: bool, b0: u8) -> bool {
    if hevc {
        16 <= (b0 >> 1) & 0x3f <= 21
    } else {
        b0 & 0x1f == 5
    }
}

/// Some NAL unit of the access unit starts an intra frame.
pub open spec fn spec_has_intra_frame(hevc: bool, au: Seq<u8>) -> bool {
    exists|k: int|
        0 <= k < spec_nal_units(au).len() && #[trigger] is_intra(hevc, spec_nal_units(au)[k][0])
}

/// Does this access unit contain an intra frame (H.264 IDR / HEVC IRAP)?
pub fn has_intra_frame(hevc: bool, au: &[u8]) -> (b: bool)
    ensures
        b == spec_has_intra_frame(hevc, au@),
{
    let units = nal_units(au);
    let ghost us = spec_nal_units(au@);
    let mut k: usize = 0;
    while k < units.len()
        invariant
            us == spec_nal_units(au@),
            slices_view(units@) == us,
            forall|j: int| 0 <= j < units@.len() ==> #[trigger] units@[j]@.len() > 0,
            k <= units.len(),
            forall|j: int| 0 <= j < k ==> !#[trigger] is_intra(hevc, us[j][0]),
        decreases units.len() - k,
    {
        let nal = units[k];
        assert(nal@ == us[k as int]);
        let b0 = nal[0];
        let hit = if hevc {
            let t = (b0 >> 1) & 0x3f;
            16 <= t && t <= 21
        } else {
            b0 & 0x1f == 5
        };
        if hit {
            assert(is_intra(hevc, us[k as int][0]));
            return true;
        }
        k += 1;
    }
    false
}

/// Units that do not travel in a compressed sample: parameter sets (they live in the format
/// description) and access-unit delimiters (they carry nothing) — HEVC types 32 to 35, H.264
/// types 7 to 9.
pub open spec fn is_out_of_band(hevc: bool, b0: u8) -> bool {
    if hevc {
        let t = (b0 >> 1) & 0x3f;
        t == 32 || t == 33 || t == 34 || t == 35
    } else {
        let t = b0 & 0x1f;
        t == 7 || t == 8 || t == 9
    }
}

/// A 32-bit length, big-endian.
pub open spec fn be32(n: u32) -> Seq<u8> {
    seq![(n >> 24) as u8, (n >> 16) as u8, (n >> 8) as u8, n as u8]
}

/// The first `k` units in AVCC/HVCC framing: each kept unit behind its 4-byte big-endian length.
pub open spec fn avcc_upto(hevc: bool, units: Seq<Seq<u8>>, k: int) -> Seq<u8>
    decreases k,
{
    if k <= 0 {
        seq![]
    } else if is_out_of_band(hevc, units[k - 1][0]) {
        avcc_upto(hevc, units, k - 1)
    } else {
        avcc_upto(hevc, units, k - 1) + be32(units[k - 1].len() as u32) + units[k - 1]
    }
}

/// The sample data an access unit becomes: its slice/SEI units, length-prefixed.
pub open spec fn spec_sample_data(hevc: bool, au: Seq<u8>) -> Seq<u8> {
    avcc_upto(hevc, spec_nal_units(au), spec_nal_units(au).len() as int)
}

/// Append `src` to `dst`.
fn append_bytes(dst: &mut Vec<u8>, src: &[u8])
    ensures
        final(dst)@ == old(dst)@ + src@,
{
    let mut i: usize = 0;
    while i < src.len()
        invariant
            i <= src.len(),
            dst@ == old(dst)@ + src@.subrange(0, i as int),
        decreases src.len() - i,
    {
        dst.push(src[i]);
        i += 1;
        assert(dst@ =~= old(dst)@ + src@.subrange(0, i as int));
    }
    assert(src@.subrange(0, src@.len() as int) =~= src@);
}

/// The data of one compressed sample: the access unit's slice/SEI units with 4-byte big-endian
/// length prefixes (parameter sets and access-unit delimiters dropped). An access unit that leaves
/// nothing is an error.
pub fn make_sample_data(hevc: bool, au: &[u8]) -> (r: Result<Vec<u8>, String>)
    ensures
        spec_sample_data(hevc, au@).len() > 0 ==> (r matches Ok(d) && d@ == spec_sample_data(
            hevc,
            au@,
        )),
        spec_sample_data(hevc, au@).len() == 0 ==> (r matches Err(e) && e@
            == "access unit without slices"@),
{
    let units = nal_units(au);
    let ghost us = spec_nal_units(au@);
    let mut data: Vec<u8> = Vec::new();
    let mut k: usize = 0;
    while k < units.len()
        invariant
            us == spec_nal_units(au@),
            slices_view(units@) == us,
            forall|j: int| 0 <= j < units@.len() ==> #[trigger] units@[j]@.len() > 0,
            k <= units.len(),
            data@ == avcc_upto(hevc, us, k as int),
        decreases units.len() - k,
    {
        let nal = units[k];
        assert(nal@ == us[k as int]);
        let b0 = nal[0];
        let skip = if hevc {
            let t = (b0 >> 1) & 0x3f;
            t == 32 || t == 33 || t == 34 || t == 35
        } else {
            let t = b0 & 0x1f;
            t == 7 || t == 8 || t == 9
        };
        if !skip {
            let n = nal.len() as u32;
            data.push((n >> 24) as u8);
            data.push((n >> 16) as u8);
            data.push((n >> 8) as u8);
            data.push(n as u8);
            append_bytes(&mut data, nal);
            assert(data@ =~= avcc_upto(hevc, us, k as int) + be32(us[k as int].len() as u32)
                + us[k as int]);
        }
        k += 1;
    }
    if data.len() == 0 {
        return Err(String::from_str("access unit without slices"));
    }
    Ok(data)
}

/// `b` opens with a 3- or 4-byte start code.
pub open spec fn opens_with_start_code(b: Seq<u8>) -> bool {
    ||| (b.len() >= 3 && b[0] == 0 && b[1] == 0 && b[2] == 1)
    ||| (b.len() >= 4 && b[0] == 0 && b[1] == 0 && b[2] == 0 && b[3] == 1)
}

/// A start code on its own: `00 00 01` or `00 00 00 01`.
pub open spec fn is_start_code_bytes(sc: Seq<u8>) -> bool {
    sc == seq![0u8, 0u8, 1u8] || sc == seq![0u8, 0u8, 0u8, 1u8]
}

/// A NAL unit payload that reads back as itself: not empty, not ending in a zero byte, and with
/// no `00 00 01` inside.
pub open spec fn plain_unit(u: Seq<u8>) -> bool {
    &&& u.len() > 0
    &&& u.last() != 0
    &&& forall|j: int| !is_start_code(u, j)
}

/// The access unit made of `codes[0] ++ units[0] ++ codes[1] ++ units[1] ++ ...`.
pub open spec fn framed(codes: Seq<Seq<u8>>, units: Seq<Seq<u8>>) -> Seq<u8>
    decreases units.len(),
{
    if units.len() == 0 || codes.len() == 0 {
        seq![]
    } else {
        framed(codes.drop_last(), units.drop_last()) + codes.last() + units.last()
    }
}

spec fn shifted(s: Seq<int>, n: int) -> Seq<int> {
    s.map_values(|x: int| x + n)
}

proof fn lemma_starts_prefix(a: Seq<u8>, b: Seq<u8>, m: int)
    requires
        0 <= m <= a.len(),
        !is_start_code(a + b, a.len() - 2),
        !is_start_code(a + b, a.len() - 1),
    ensures
        starts_before(a + b, m) == starts_before(a, m),
    decreases m,
{
    if m > 0 {
        lemma_starts_prefix(a, b, m - 1);
        let j = m - 1;
        if j + 3 <= a.len() {
            assert((a + b)[j] == a[j] && (a + b)[j + 1] == a[j + 1] && (a + b)[j + 2] == a[j + 2]);
        }
        assert(is_start_code(a + b, j) == is_start_code(a, j));
    }
}

proof fn lemma_starts_concat(a: Seq<u8>, b: Seq<u8>, m: int)
    requires
        0 <= m <= b.len(),
        !is_start_code(a + b, a.len() - 2),
        !is_start_code(a + b, a.len() - 1),
    ensures
        starts_before(a + b, a.len() + m) == starts_before(a, a.len() as int) + shifted(
            starts_before(b, m),
            a.len() as int,
        ),
    decreases m,
{
    let n = a.len() as int;
    if m == 0 {
        lemma_starts_prefix(a, b, n);
        assert(starts_before(a, n) + shifted(starts_before(b, 0), n) =~= starts_before(a, n));
    } else {
        lemma_starts_concat(a, b, m - 1);
        let j = m - 1;
        if j + 3 <= b.len() {
            assert((a + b)[n + j] == b[j] && (a + b)[n + j + 1] == b[j + 1] && (a + b)[n + j + 2]
                == b[j + 2]);
        }
        assert(is_start_code(a + b, n + j) == is_start_code(b, j));
        if is_start_code(b, j) {
            assert(shifted(starts_before(b, m), n) =~= shifted(starts_before(b, m - 1), n).push(
                m + 2 + n,
            ));
            assert((starts_before(a, n) + shifted(starts_before(b, m - 1), n)).push(n + m + 2)
                =~= starts_before(a, n) + shifted(starts_before(b, m - 1), n).push(m + 2 + n));
        }
    }
}

proof fn lemma_starts_grow(au: Seq<u8>, m: int, m2: int)
    requires
        0 <= m <= m2,
    ensures
        starts_before(au, m).len() <= starts_before(au, m2).len(),
        forall|i: int|
            0 <= i < starts_before(au, m).len() ==> starts_before(au, m2)[i] == starts_before(
                au,
                m,
            )[i],
    decreases m2 - m,
{
    if m2 > m {
        lemma_starts_grow(au, m, m2 - 1);
    }
}

proof fn lemma_no_starts(u: Seq<u8>, m: int)
    requires
        0 <= m,
        forall|j: int| !is_start_code(u, j),
    ensures
        starts_before(u, m) == Seq::<int>::empty(),
    decreases m,
{
    if m > 0 {
        lemma_no_starts(u, m - 1);
        assert(!is_start_code(u, m - 1));
    }
}

/// Where the first unit of a stream that opens with a start code begins.
proof fn lemma_first_start(b: Seq<u8>)
    requires
        opens_with_start_code(b),
    ensures
        nal_starts(b).len() >= 1,
        nal_starts(b)[0] == (if b[2] == 1 { 3int } else { 4int }),
{
    assert(starts_before(b, 0) == Seq::<int>::empty());
    if b[2] == 1 {
        assert(is_start_code(b, 0));
        assert(starts_before(b, 1) == seq![3int]);
        lemma_starts_grow(b, 1, b.len() as int);
    } else {
        assert(!is_start_code(b, 0));
        assert(starts_before(b, 1) == Seq::<int>::empty());
        assert(is_start_code(b, 1));
        assert(starts_before(b, 2) == seq![4int]);
        lemma_starts_grow(b, 2, b.len() as int);
    }
}

proof fn lemma_trimmed_le(au: Seq<u8>, s: int, e: int)
    ensures
        trimmed_end(au, s, e) <= e,
    decreases e - s,
{
    if e > s && au[e - 1] == 0 {
        lemma_trimmed_le(au, s, e - 1);
    }
}

proof fn lemma_trimmed_prefix(a: Seq<u8>, b: Seq<u8>, s: int, e: int)
    requires
        0 <= s,
        e <= a.len(),
    ensures
        trimmed_end(a + b, s, e) == trimmed_end(a, s, e),
    decreases e - s,
{
    if e > s {
        assert((a + b)[e - 1] == a[e - 1]);
        if a[e - 1] == 0 {
            lemma_trimmed_prefix(a, b, s, e - 1);
        }
    }
}

proof fn lemma_trimmed_shift(a: Seq<u8>, b: Seq<u8>, s: int, e: int)
    requires
        0 <= s,
        e <= b.len(),
    ensures
        trimmed_end(a + b, s + a.len(), e + a.len()) == trimmed_end(b, s, e) + a.len(),
    decreases e - s,
{
    if e > s {
        assert((a + b)[e + a.len() - 1] == b[e - 1]);
        if b[e - 1] == 0 {
            lemma_trimmed_shift(a, b, s, e - 1);
        }
    }
}

proof fn lemma_units_concat(a: Seq<u8>, b: Seq<u8>, k: int)
    requires
        opens_with_start_code(b),
        0 <= k <= nal_starts(a).len() + nal_starts(b).len(),
    ensures
        ({
            let sa = nal_starts(a);
            let sb = nal_starts(b);
            let sc = sa + shifted(sb, a.len() as int);
            units_upto(a + b, sc, k) == if k <= sa.len() {
                units_upto(a, sa, k)
            } else {
                units_upto(a, sa, sa.len() as int) + units_upto(b, sb, k - sa.len())
            }
        }),
    decreases k,
{
    let n = a.len() as int;
    let c = a + b;
    let sa = nal_starts(a);
    let sb = nal_starts(b);
    let sc = sa + shifted(sb, n);
    if k > 0 {
        lemma_units_concat(a, b, k - 1);
        lemma_starts_bounds(a, n);
        lemma_starts_bounds(b, b.len() as int);
        lemma_first_start(b);
        let idx = k - 1;
        let s = sc[idx];
        let raw = raw_end(c, sc, idx);
        let e = trimmed_end(c, s, raw);
        lemma_trimmed_le(c, s, raw);
        if idx < sa.len() {
            assert(s == sa[idx]);
            let ra = raw_end(a, sa, idx);
            if idx + 1 < sa.len() {
                assert(sc[idx + 1] == sa[idx + 1]);
                assert(raw == ra);
            } else {
                assert(sc[idx + 1] == sb[0] + n);
                assert(ra == n);
                if raw == n + 1 {
                    assert(c[n] == b[0]);
                    assert(trimmed_end(c, s, raw) == trimmed_end(c, s, n));
                }
            }
            lemma_trimmed_prefix(a, b, s, ra);
            assert(e == trimmed_end(a, s, ra));
            lemma_trimmed_le(a, s, ra);
            if e > s {
                assert(c.subrange(s, e) =~= a.subrange(s, e));
            }
        } else {
            let j = idx - sa.len();
            assert(s == sb[j] + n);
            let rb = raw_end(b, sb, j);
            if j + 1 < sb.len() {
                assert(sc[idx + 1] == sb[j + 1] + n);
            }
            assert(raw == rb + n);
            lemma_trimmed_shift(a, b, sb[j], rb);
            let eb = trimmed_end(b, sb[j], rb);
            assert(e == eb + n);
            lemma_trimmed_le(b, sb[j], rb);
            if e > s {
                assert(c.subrange(s, e) =~= b.subrange(sb[j], eb));
            }
            let pa = units_upto(a, sa, sa.len() as int);
            if j == 0 {
                assert(units_upto(b, sb, 0) == Seq::<Seq<u8>>::empty());
                assert(pa + units_upto(b, sb, 0) =~= pa);
            }
            if eb > sb[j] {
                assert(pa + units_upto(b, sb, j + 1) =~= (pa + units_upto(b, sb, j)).push(
                    b.subrange(sb[j], eb),
                ));
            }
        }
    }
}

/// Splitting is compatible with joining at a start code: the units of `a ++ b`, where `b` is empty
/// or opens with a 3- or 4-byte start code, are the units of `a` followed by those of `b` (the
/// zero of a 4-byte code is not left on the last unit of `a`).
pub proof fn law_nal_units_concat(a: Seq<u8>, b: Seq<u8>)
    requires
        b.len() == 0 || opens_with_start_code(b),
    ensures
        spec_nal_units(a + b) == spec_nal_units(a) + spec_nal_units(b),
{
    if b.len() == 0 {
        assert(a + b =~= a);
        assert(starts_before(b, 0) == Seq::<int>::empty());
        assert(spec_nal_units(b) == Seq::<Seq<u8>>::empty());
        assert(spec_nal_units(a) + spec_nal_units(b) =~= spec_nal_units(a));
    } else {
        let n = a.len() as int;
        assert((a + b)[n] == b[0]);
        assert((a + b)[n + 1] == b[1]);
        assert(!is_start_code(a + b, n - 2));
        assert(!is_start_code(a + b, n - 1));
        lemma_starts_concat(a, b, b.len() as int);
        assert(a.len() + b.len() == (a + b).len());
        lemma_first_start(b);
        lemma_units_concat(a, b, (nal_starts(a).len() + nal_starts(b).len()) as int);
    }
}

proof fn lemma_single_unit(sc: Seq<u8>, u: Seq<u8>)
    requires
        is_start_code_bytes(sc),
        plain_unit(u),
    ensures
        spec_nal_units(sc + u) == seq![u],
{
    let c = sc + u;
    let n = sc.len() as int;
    assert(c[n - 1] == 1);
    assert(!is_start_code(c, n - 2));
    assert(!is_start_code(c, n - 1));
    lemma_starts_concat(sc, u, u.len() as int);
    lemma_no_starts(u, u.len() as int);
    assert(starts_before(sc, 0) == Seq::<int>::empty());
    if n == 3 {
        assert(is_start_code(sc, 0));
        assert(starts_before(sc, 1) == seq![3int]);
        assert(starts_before(sc, 2) == seq![3int]);
        assert(starts_before(sc, 3) == seq![3int]);
    } else {
        assert(!is_start_code(sc, 0));
        assert(starts_before(sc, 1) == Seq::<int>::empty());
        assert(is_start_code(sc, 1));
        assert(starts_before(sc, 2) == seq![4int]);
        assert(starts_before(sc, 3) == seq![4int]);
        assert(starts_before(sc, 4) == seq![4int]);
    }
    assert(shifted(Seq::<int>::empty(), n) =~= Seq::<int>::empty());
    assert(c.len() == n + u.len());
    assert(nal_starts(c) =~= seq![n]);
    assert(c[c.len() - 1] == u.last());
    assert(trimmed_end(c, n, c.len() as int) == c.len());
    assert(units_upto(c, seq![n], 0) == Seq::<Seq<u8>>::empty());
    assert(c.subrange(n, c.len() as int) =~= u);
    assert(units_upto(c, seq![n], 1) =~= seq![u]);
}

/// Units framed by start codes come back out as they went in: for plain units (not empty, not
/// ending in a zero byte, no `00 00 01` inside), each behind a 3- or 4-byte start code, splitting
/// the framed access unit gives exactly those units, in order.
pub proof fn law_nal_units_round_trip(codes: Seq<Seq<u8>>, units: Seq<Seq<u8>>)
    requires
        codes.len() == units.len(),
        forall|i: int| 0 <= i < codes.len() ==> is_start_code_bytes(#[trigger] codes[i]),
        forall|i: int| 0 <= i < units.len() ==> plain_unit(#[trigger] units[i]),
    ensures
        spec_nal_units(framed(codes, units)) == units,
    decreases units.len(),
{
    if units.len() == 0 {
        assert(framed(codes, units) == Seq::<u8>::empty());
        assert(starts_before(Seq::<u8>::empty(), 0) == Seq::<int>::empty());
        assert(spec_nal_units(Seq::<u8>::empty()) =~= units);
    } else {
        let k = units.len() - 1;
        let cs = codes.drop_last();
        let us = units.drop_last();
        assert forall|i: int| 0 <= i < cs.len() implies is_start_code_bytes(#[trigger] cs[i]) by {
            assert(cs[i] == codes[i]);
        }
        assert forall|i: int| 0 <= i < us.len() implies plain_unit(#[trigger] us[i]) by {
            assert(us[i] == units[i]);
        }
        law_nal_units_round_trip(cs, us);
        let pre = framed(cs, us);
        let sc = codes[k];
        let u = units[k];
        assert(is_start_code_bytes(sc));
        assert(plain_unit(u));
        let tail = sc + u;
        assert(framed(codes, units) == pre + sc + u);
        assert(pre + sc + u =~= pre + tail);
        assert(tail[0] == 0 && tail[1] == 0);
        assert(sc.len() == 3 ==> tail[2] == 1);
        assert(sc.len() == 4 ==> tail[2] == 0 && tail[3] == 1);
        assert(opens_with_start_code(tail));
        law_nal_units_concat(pre, tail);
        lemma_single_unit(sc, u);
        assert(us.push(u) =~= units);
    }
}

/// The length prefix reads back as the length: its four bytes, most significant first, make up
/// `n` again.
pub proof fn law_length_is_big_endian(n: u32)
    ensures
        be32(n).len() == 4,
        ((be32(n)[0] as u32) << 24u32) | ((be32(n)[1] as u32) << 16u32) | ((be32(n)[2] as u32) << 8u32) | (
        be32(n)[3] as u32) == n,
{
    let b0 = (n >> 24) as u8;
    let b1 = (n >> 16) as u8;
    let b2 = (n >> 8) as u8;
    let b3 = n as u8;
    assert(((b0 as u32) << 24u32) | ((b1 as u32) << 16u32) | ((b2 as u32) << 8u32) | (b3 as u32) == n)
        by (bit_vector)
        requires
            b0 == (n >> 24) as u8,
            b1 == (n >> 16) as u8,
            b2 == (n >> 8) as u8,
            b3 == n as u8,
    ;
}

/// Units in AVCC/HVCC framing: each behind its 4-byte big-endian length, in order.
pub open spec fn length_prefixed(units: Seq<Seq<u8>>) -> Seq<u8>
    decreases units.len(),
{
    if units.len() == 0 {
        seq![]
    } else {
        length_prefixed(units.drop_last()) + be32(units.last().len() as u32) + units.last()
    }
}

/// What a decoder is fed of a unit: not an H.264 SPS, PPS or access-unit delimiter (types 7–9),
/// not an HEVC VPS, SPS, PPS or access-unit delimiter (types 32–35).
pub open spec fn decoded_unit(hevc: bool, u: Seq<u8>) -> bool {
    if hevc {
        !(32 <= (u[0] >> 1) & 0x3f <= 35)
    } else {
        !(7 <= u[0] & 0x1f <= 9)
    }
}

proof fn lemma_avcc_filtered(hevc: bool, units: Seq<Seq<u8>>, k: int)
    requires
        0 <= k <= units.len(),
    ensures
        avcc_upto(hevc, units, k) == length_prefixed(
            units.take(k).filter(|u: Seq<u8>| decoded_unit(hevc, u)),
        ),
    decreases k,
{
    reveal_with_fuel(Seq::filter, 1);
    let p = |u: Seq<u8>| decoded_unit(hevc, u);
    if k == 0 {
        assert(units.take(0).filter(p) =~= Seq::<Seq<u8>>::empty());
    } else {
        lemma_avcc_filtered(hevc, units, k - 1);
        assert(units.take(k).drop_last() =~= units.take(k - 1));
        assert(units.take(k).last() == units[k - 1]);
        assert(is_out_of_band(hevc, units[k - 1][0]) == !decoded_unit(hevc, units[k - 1]));
        if decoded_unit(hevc, units[k - 1]) {
            assert(units.take(k).filter(p) == units.take(k - 1).filter(p).push(units[k - 1]));
            assert(units.take(k).filter(p).drop_last() =~= units.take(k - 1).filter(p));
        }
    }
}

/// The sample data holds exactly the units a decoder is fed, in stream order, each behind its
/// length: no parameter set and no access-unit delimiter is ever left in it, and no slice is lost.
pub proof fn law_sample_holds_the_decoded_units(hevc: bool, au: Seq<u8>)
    ensures
        spec_sample_data(hevc, au) == length_prefixed(
            spec_nal_units(au).filter(|u: Seq<u8>| decoded_unit(hevc, u)),
        ),
{
    let us = spec_nal_units(au);
    lemma_avcc_filtered(hevc, us, us.len() as int);
    assert(us.take(us.len() as int) =~= us);
}

/// Which units start an intra frame: an H.264 IDR slice (type 5), or an HEVC IRAP picture — BLA
/// (16–18), IDR (19, 20) or CRA (21). An access unit carries an intra frame exactly when one of
/// its units is one of these.
pub proof fn law_intra_frame_types(hevc: bool, au: Seq<u8>)
    ensures
        spec_has_intra_frame(hevc, au) <==> exists|k: int|
            0 <= k < spec_nal_units(au).len() && if hevc {
                16 <= (#[trigger] spec_nal_units(au)[k][0] >> 1) & 0x3f <= 21
            } else {
                spec_nal_units(au)[k][0] & 0x1f == 5
            },
{
    let us = spec_nal_units(au);
    if spec_has_intra_frame(hevc, au) {
        let k = choose|k: int| 0 <= k < us.len() && #[trigger] is_intra(hevc, us[k][0]);
        assert(is_intra(hevc, us[k][0]));
    }
    assert forall|k: int| 0 <= k < us.len() && (if hevc {
        16 <= (#[trigger] us[k][0] >> 1) & 0x3f <= 21
    } else {
        us[k][0] & 0x1f == 5
    }) implies spec_has_intra_frame(hevc, au) by {
        assert(is_intra(hevc, us[k][0]));
    }
}

} // verus!
