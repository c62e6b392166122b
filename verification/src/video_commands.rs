//! The decisions behind the video commands the frontend calls: how the requested RTSP transport
//! is handed to the streaming engine, what a WHEP answer is worth, which MJPEG route an RTSP
//! source takes, and how big the detached video window opens. Spawning processes, HTTP and
//! windows are the app's.

use vstd::prelude::*;
use vstd::string::*;

verus! {

/// The transport the engine pulls the source with: `udp` and `tcp` as asked, anything else lets
/// the engine negotiate.
pub open spec fn spec_engine_transport(transport: Seq<char>) -> Seq<char> {
    if transport == "udp"@ {
        "udp"@
    } else if transport == "tcp"@ {
        "tcp"@
    } else {
        "automatic"@
    }
}

/// Map the frontend's transport choice (`udp` | `tcp` | `auto`) to the engine's.
pub fn engine_transport(transport: &str) -> (t: String)
    ensures
        t@ == spec_engine_transport(transport@),
{
    let asked = String::from_str(transport);
    if asked == String::from_str("udp") {
        String::from_str("udp")
    } else if asked == String::from_str("tcp") {
        String::from_str("tcp")
    } else {
        String::from_str("automatic")
    }
}

/// A character with the Unicode `White_Space` property.
pub open spec fn is_white_space(c: char) -> bool {
    let u = c as int;
    ||| 0x09 <= u <= 0x0D
    ||| u == 0x20
    ||| u == 0x85
    ||| u == 0xA0
    ||| u == 0x1680
    ||| 0x2000 <= u <= 0x200A
    ||| u == 0x2028
    ||| u == 0x2029
    ||| u == 0x202F
    ||| u == 0x205F
    ||| u == 0x3000
}

/// The text without its leading white space.
pub open spec fn trim_start(s: Seq<char>) -> Seq<char>
    decreases s.len(),
{
    if s.len() > 0 && is_white_space(s[0]) {
        trim_start(s.drop_first())
    } else {
        s
    }
}

/// The text without its trailing white space.
pub open spec fn trim_end(s: Seq<char>) -> Seq<char>
    decreases s.len(),
{
    if s.len() > 0 && is_white_space(s.last()) {
        trim_end(s.drop_last())
    } else {
        s
    }
}

/// The text without its leading and trailing white space.
pub open spec fn trimmed(s: Seq<char>) -> Seq<char> {
    trim_end(trim_start(s))
}

/// Whether a character has the Unicode `White_Space` property.
fn is_space(c: char) -> (b: bool)
    ensures
        b == is_white_space(c),
{
    let u = c as u32;
    (0x09 <= u && u <= 0x0D) || u == 0x20 || u == 0x85 || u == 0xA0 || u == 0x1680 || (0x2000 <= u
        && u <= 0x200A) || u == 0x2028 || u == 0x2029 || u == 0x202F || u == 0x205F || u == 0x3000
}

/// The text with its leading and trailing white space removed, white space being the Unicode
/// `White_Space` characters (what `str::trim` does).
fn trim(s: &str) -> (t: &str)
    ensures
        t@ == trimmed(s@),
{
    let n = s.unicode_len();
    let mut a: usize = 0;
    assert(s@.subrange(0, n as int) =~= s@);
    loop
        invariant
            n == s@.len(),
            a <= n,
            trim_start(s@) == trim_start(s@.subrange(a as int, n as int)),
        ensures
            a <= n,
            trim_start(s@) == trim_start(s@.subrange(a as int, n as int)),
            a == n || !is_white_space(s@[a as int]),
        decreases n - a,
    {
        if a == n {
            break;
        }
        if !is_space(s.get_char(a)) {
            break;
        }
        assert(s@.subrange(a as int, n as int).drop_first() =~= s@.subrange(a + 1, n as int));
        a += 1;
    }
    assert(trim_start(s@) == s@.subrange(a as int, n as int));
    let mut b: usize = n;
    loop
        invariant
            n == s@.len(),
            a <= b <= n,
            trim_end(s@.subrange(a as int, n as int)) == trim_end(s@.subrange(a as int, b as int)),
        ensures
            a <= b <= n,
            trim_end(s@.subrange(a as int, n as int)) == trim_end(s@.subrange(a as int, b as int)),
            b == a || !is_white_space(s@[b - 1]),
        decreases b - a,
    {
        if b == a {
            break;
        }
        if !is_space(s.get_char(b - 1)) {
            break;
        }
        assert(s@.subrange(a as int, b as int).drop_last() =~= s@.subrange(a as int, b - 1));
        b -= 1;
    }
    assert(trim_end(s@.subrange(a as int, b as int)) == s@.subrange(a as int, b as int));
    s.substring_char(a, b)
}

/// The status class a WHEP answer counts as a success in: 2xx.
pub open spec fn is_success(status: u16) -> bool {
    200 <= status <= 299
}

/// Judge the engine's answer to a WHEP offer: `status` with its display text, and the body. A
/// non-success status is an error that shows the status and the engine's own (trimmed) error
/// text; an answer that is blank once trimmed is an error; otherwise the SDP answer is the body,
/// untouched.
pub fn whep_answer(status: u16, status_text: &str, body: String) -> (r: Result<String, String>)
    ensures
        !is_success(status) ==> (r matches Err(m) && m@ == "WHEP offer HTTP "@ + status_text@ + ": "@ + trimmed(body@)),
        is_success(status) && trimmed(body@).len() == 0 ==> (r matches Err(m) && m@ == "WHEP answer is empty"@),
        is_success(status) && trimmed(body@).len() > 0 ==> (r matches Ok(sdp) && sdp@ == body@),
{
    let t = trim(body.as_str());
    if !(200 <= status && status <= 299) {
        let mut m = String::from_str("WHEP offer HTTP ");
        m.append(status_text);
        m.append(": ");
        m.append(t);
        return Err(m);
    }
    if t.unicode_len() == 0 {
        return Err(String::from_str("WHEP answer is empty"));
    }
    Ok(body)
}

/// How an RTSP source reaches the MJPEG route.
pub enum Transcode {
    /// The source already carries MJPEG: passed through untouched.
    Copy,
    /// Decoded and re-encoded on the CPU.
    Software,
    /// Hardware decode through V4L2 memory-to-memory (the Pi-class path).
    V4l2m2m,
    /// The whole chain on a VAAPI render node.
    Vaapi(String),
}

/// What choosing the transcode needs next.
pub enum TranscodeStep {
    /// Ask whether V4L2 memory-to-memory decode is available.
    ProbeV4l2,
    /// Ask for a VAAPI render node.
    ProbeVaapi,
    /// The choice is made.
    Done(Transcode),
}

/// The next step in choosing the transcode for a source that does not carry MJPEG, given what the
/// probes answered so far (`None`: not asked yet). Hardware is used unless the caller turned it
/// off (`allow_hw_decode`, default allowed); V4L2 M2M is probed first (on a Pi a render node exists
/// with no VAAPI driver behind it), then VAAPI; otherwise software. A probe is asked for only when
/// its turn comes: V4L2 M2M only while hardware is allowed, VAAPI only once V4L2 M2M said no.
pub fn transcode_step(allow_hw_decode: Option<bool>, v4l2: Option<bool>, vaapi: Option<Option<String>>) -> (s: TranscodeStep)
    ensures
        allow_hw_decode == Some(false) ==> s matches TranscodeStep::Done(Transcode::Software),
        allow_hw_decode != Some(false) ==> match v4l2 {
            None => s is ProbeV4l2,
            Some(true) => s matches TranscodeStep::Done(Transcode::V4l2m2m),
            Some(false) => match vaapi {
                None => s is ProbeVaapi,
                Some(Some(node)) => s == TranscodeStep::Done(Transcode::Vaapi(node)),
                Some(None) => s matches TranscodeStep::Done(Transcode::Software),
            },
        },
{
    let allowed = match allow_hw_decode {
        Some(a) => a,
        None => true,
    };
    if !allowed {
        return TranscodeStep::Done(Transcode::Software);
    }
    match v4l2 {
        None => TranscodeStep::ProbeV4l2,
        Some(true) => TranscodeStep::Done(Transcode::V4l2m2m),
        Some(false) => match vaapi {
            None => TranscodeStep::ProbeVaapi,
            Some(Some(node)) => TranscodeStep::Done(Transcode::Vaapi(node)),
            Some(None) => TranscodeStep::Done(Transcode::Software),
        },
    }
}

/// Pick the transcode for a source that does not carry MJPEG, running each probe when
/// [`transcode_step`] asks for it.
pub fn pick_transcode<P: Fn() -> bool, Q: Fn() -> Option<String>>(
    allow_hw_decode: Option<bool>,
    v4l2_available: P,
    vaapi_render_node: Q,
) -> (t: Transcode)
    requires
        call_requires(v4l2_available, ()),
        call_requires(vaapi_render_node, ()),
    ensures
        allow_hw_decode == Some(false) ==> t is Software,
        allow_hw_decode != Some(false) ==> match t {
            Transcode::V4l2m2m => call_ensures(v4l2_available, (), true),
            Transcode::Vaapi(node) => call_ensures(v4l2_available, (), false) && call_ensures(vaapi_render_node, (), Some(node)),
            Transcode::Software => call_ensures(v4l2_available, (), false) && call_ensures(vaapi_render_node, (), None::<String>),
            Transcode::Copy => false,
        },
{
    let mut v4l2: Option<bool> = None;
    let mut vaapi: Option<Option<String>> = None;
    loop
        invariant
            call_requires(v4l2_available, ()),
            call_requires(vaapi_render_node, ()),
            v4l2 is None ==> vaapi is None,
            v4l2 matches Some(b) ==> call_ensures(v4l2_available, (), b),
            vaapi matches Some(n) ==> call_ensures(vaapi_render_node, (), n),
        decreases (if v4l2 is None { 2int } else { 0int }) + (if vaapi is None { 1int } else { 0int }),
    {
        match transcode_step(allow_hw_decode, v4l2, vaapi) {
            TranscodeStep::Done(t) => {
                return t;
            },
            TranscodeStep::ProbeV4l2 => {
                v4l2 = Some(v4l2_available());
                vaapi = None;
            },
            TranscodeStep::ProbeVaapi => {
                vaapi = Some(vaapi_render_node());
            },
        }
    }
}

/// What to do after trying to stream-copy an RTSP source into the MJPEG server.
pub enum CopyOutcome {
    /// The source carries MJPEG: serve it, copied, on this port.
    Serve(u16),
    /// The caller wanted the copy only, and the source does not carry MJPEG.
    Fail(String),
    /// Fall back to a transcode.
    Transcode,
}

/// Judge the stream-copy attempt: a started copy is served; a failed one is an error when the
/// caller asked for the copy only (after a failed WebRTC negotiation, settling for a transcode
/// would be a permanent downgrade), and otherwise leads to a transcode.
pub fn copy_outcome(attempt: Result<u16, String>, require_copy: bool) -> (o: CopyOutcome)
    ensures
        match attempt {
            Ok(port) => o matches CopyOutcome::Serve(p) && p == port,
            Err(e) => if require_copy {
                o matches CopyOutcome::Fail(m) && m@ == "source does not carry MJPEG: "@ + e@
            } else {
                o is Transcode
            },
        },
{
    match attempt {
        Ok(port) => CopyOutcome::Serve(port),
        Err(e) => {
            if require_copy {
                let mut m = String::from_str("source does not carry MJPEG: ");
                m.append(e.as_str());
                CopyOutcome::Fail(m)
            } else {
                CopyOutcome::Transcode
            }
        },
    }
}

/// Smallest inner size the detached video window opens at (physical px).
pub const DETACHED_MIN_W: u32 = 200;
pub const DETACHED_MIN_H: u32 = 120;

/// The inner size the detached window is given: as asked, but not below the minimum.
pub fn detached_size(w: u32, h: u32) -> (s: (u32, u32))
    ensures
        s.0 == (if w < DETACHED_MIN_W { DETACHED_MIN_W } else { w }),
        s.1 == (if h < DETACHED_MIN_H { DETACHED_MIN_H } else { h }),
{
    (if w < DETACHED_MIN_W { DETACHED_MIN_W } else { w }, if h < DETACHED_MIN_H { DETACHED_MIN_H } else { h })
}

} // verus!
