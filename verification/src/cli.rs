//! The arguments of the command-line tool, and what it keeps of a source that
//! it watches.

use crate::deframer::OwnedFrame;
use crate::frame::ExtendedHeader;
use crate::text::{
    begins, chars_of, eq_ignore_case, find, from_index, has_char, index_of, parse_signed,
    parse_unsigned, same_letters, same_text, signed_of, unsigned_of, up_to,
};
use vstd::prelude::*;

verus! {

/// What the tool is asked to do.
#[derive(Clone, Copy, Debug, PartialEq, Eq, Structural)]
pub enum Verb {
    /// Show the sources on the network.
    List,
    /// Send a test pattern.
    Send,
    /// Receive a source.
    Recv,
    /// Run a discovery server.
    DiscoveryServer,
    /// Print the version.
    Version,
}

/// What a first argument asks for.
pub open spec fn verb_of(s: Seq<char>) -> Option<Verb> {
    if s == "list"@ {
        Some(Verb::List)
    } else if s == "send"@ {
        Some(Verb::Send)
    } else if s == "recv"@ {
        Some(Verb::Recv)
    } else if s == "discovery-server"@ {
        Some(Verb::DiscoveryServer)
    } else if s == "version"@ || s == "--version"@ || s == "-V"@ {
        Some(Verb::Version)
    } else {
        None
    }
}

/// Whether a text is a given string.
fn is(s: &str, t: &str) -> (r: bool)
    ensures
        r == (s@ == t@),
{
    let a: Vec<char> = chars_of(s);
    let b: Vec<char> = chars_of(t);
    same_text(a.as_slice(), b.as_slice())
}

/// What the first argument asks for.
pub fn verb(s: &str) -> (r: Option<Verb>)
    ensures
        r == verb_of(s@),
{
    if is(s, "list") {
        Some(Verb::List)
    } else if is(s, "send") {
        Some(Verb::Send)
    } else if is(s, "recv") {
        Some(Verb::Recv)
    } else if is(s, "discovery-server") {
        Some(Verb::DiscoveryServer)
    } else if is(s, "version") || is(s, "--version") || is(s, "-V") {
        Some(Verb::Version)
    } else {
        None
    }
}

/// Where a flag first stands among the arguments.
pub open spec fn flag_at(args: Seq<Seq<char>>, flag: Seq<char>) -> Option<int>
    decreases args.len(),
{
    if args.len() == 0 {
        None
    } else if args[0] == flag {
        Some(0)
    } else {
        match flag_at(args.skip(1), flag) {
            Some(i) => Some(i + 1),
            None => None,
        }
    }
}

/// The argument behind the first occurrence of a flag.
pub open spec fn option_of(args: Seq<Seq<char>>, flag: Seq<char>) -> Option<Seq<char>> {
    match flag_at(args, flag) {
        Some(i) => if i + 1 < args.len() {
            Some(args[i + 1])
        } else {
            None
        },
        None => None,
    }
}

/// Arguments as plain values.
pub open spec fn arg_views(args: Seq<String>) -> Seq<Seq<char>> {
    args.map_values(|s: String| s@)
}

/// Where a flag first stands among the arguments.
pub fn find_flag(args: &[String], flag: &str) -> (r: Option<usize>)
    ensures
        match r {
            Some(i) => flag_at(arg_views(args@), flag@) == Some(i as int) && i < args@.len(),
            None => flag_at(arg_views(args@), flag@) is None,
        },
{
    let ghost all = arg_views(args@);
    let mut i: usize = 0;
    assert(all.skip(0) =~= all);
    while i < args.len()
        invariant
            i <= args@.len(),
            all == arg_views(args@),
            match flag_at(all.skip(i as int), flag@) {
                Some(k) => flag_at(all, flag@) == Some(k + i),
                None => flag_at(all, flag@) is None,
            },
        decreases args@.len() - i,
    {
        if is(args[i].as_str(), flag) {
            assert(all.skip(i as int)[0] == flag@);
            return Some(i);
        }
        assert(all.skip(i as int)[0] == args@[i as int]@);
        assert(all.skip(i as int).skip(1) =~= all.skip(i + 1));
        i = i + 1;
    }
    assert(all.skip(i as int).len() == 0);
    None
}

/// Whether a flag is given.
pub fn has_flag(args: &[String], flag: &str) -> (r: bool)
    ensures
        r == (flag_at(arg_views(args@), flag@) is Some),
{
    match find_flag(args, flag) {
        Some(_) => true,
        None => false,
    }
}

/// `--flag value` lookup.
pub fn opt(args: &[String], flag: &str) -> (r: Option<String>)
    ensures
        match r {
            Some(v) => option_of(arg_views(args@), flag@) == Some(v@),
            None => option_of(arg_views(args@), flag@) is None,
        },
{
    match find_flag(args, flag) {
        Some(i) => {
            let n: usize = args.len();
            assert(i < n);
            if i + 1 < n {
                assert(arg_views(args@)[i + 1] == args@[i + 1]@);
                Some(args[i + 1].clone())
            } else {
                None
            }
        },
        None => None,
    }
}

/// A number of seconds.
pub fn parse_seconds(s: &str) -> (r: Option<u64>)
    ensures
        match r {
            Some(v) => unsigned_of(s@, 10, u64::MAX as int) == Some(v as int),
            None => unsigned_of(s@, 10, u64::MAX as int) is None,
        },
{
    let v: Vec<char> = chars_of(s);
    parse_unsigned(v.as_slice(), 10, u64::MAX)
}

/// A port.
pub fn parse_port(s: &str) -> (r: Option<u16>)
    ensures
        match r {
            Some(v) => unsigned_of(s@, 10, 65535) == Some(v as int),
            None => unsigned_of(s@, 10, 65535) is None,
        },
{
    let v: Vec<char> = chars_of(s);
    match parse_unsigned(v.as_slice(), 10, 65535) {
        Some(n) => Some(n as u16),
        None => None,
    }
}

/// A frame rate as a fraction: the usual names of the rates over 1.001, or a
/// whole number.
pub open spec fn fps_of(s: Seq<char>) -> Option<(int, int)> {
    if s == "23.976"@ || s == "23.98"@ {
        Some((24000, 1001))
    } else if s == "29.97"@ {
        Some((30000, 1001))
    } else if s == "59.94"@ {
        Some((60000, 1001))
    } else {
        match signed_of(s, i32::MAX as int) {
            Some(n) => Some((n, 1)),
            None => None,
        }
    }
}

/// A frame rate as a fraction.
pub fn parse_fps(s: &str) -> (r: Option<(i32, i32)>)
    ensures
        match r {
            Some(f) => fps_of(s@) == Some((f.0 as int, f.1 as int)),
            None => fps_of(s@) is None,
        },
{
    if is(s, "23.976") || is(s, "23.98") {
        Some((24000, 1001))
    } else if is(s, "29.97") {
        Some((30000, 1001))
    } else if is(s, "59.94") {
        Some((60000, 1001))
    } else {
        let v: Vec<char> = chars_of(s);
        match parse_signed(v.as_slice()) {
            Some(n) => Some((n, 1)),
            None => None,
        }
    }
}

/// A size, `WxH`.
pub open spec fn size_of(s: Seq<char>) -> Option<(int, int)> {
    match index_of(s, 'x') {
        Some(i) => match (
            unsigned_of(s.take(i), 10, usize::MAX as int),
            unsigned_of(s.skip(i + 1), 10, usize::MAX as int),
        ) {
            (Some(w), Some(h)) => Some((w, h)),
            _ => None,
        },
        None => None,
    }
}

/// A size, `WxH`.
pub fn parse_size(s: &str) -> (r: Option<(usize, usize)>)
    ensures
        match r {
            Some(p) => size_of(s@) == Some((p.0 as int, p.1 as int)),
            None => size_of(s@) is None,
        },
{
    let v: Vec<char> = chars_of(s);
    match find(v.as_slice(), 'x') {
        Some(i) => {
            let n: usize = v.len();
            assert(i < n);
            let w: Option<u64> = parse_unsigned(up_to(v.as_slice(), i), 10, usize::MAX as u64);
            let h: Option<u64> = parse_unsigned(from_index(v.as_slice(), i + 1), 10, usize::MAX as u64);
            match (w, h) {
                (Some(a), Some(b)) => Some((a as usize, b as usize)),
                _ => None,
            }
        },
        None => None,
    }
}

/// Whether a source is given by its full name or as a URL, rather than as
/// `host:port`.
pub open spec fn is_named(s: Seq<char>) -> bool {
    s.contains('(') || (s.len() >= 6 && same_letters(s.take(6), "omt://"@))
}

/// Whether a source is given by its full name or as a URL, rather than as
/// `host:port`.
pub fn is_named_source(s: &str) -> (r: bool)
    ensures
        r == is_named(s@),
{
    let v: Vec<char> = chars_of(s);
    if has_char(v.as_slice(), '(') {
        return true;
    }
    v.len() >= 6 && eq_ignore_case(up_to(v.as_slice(), 6), "omt://")
}

/// Whether an argument is a flag rather than a source.
pub fn is_flag(s: &str) -> (r: bool)
    ensures
        r == begins(s@, "--"@),
{
    let v: Vec<char> = chars_of(s);
    crate::text::starts_with(v.as_slice(), "--")
}

/// Whether a snapshot is to be a PNG file: the path ends in `.png`, in any
/// letter case.
pub fn is_png_path(s: &str) -> (r: bool)
    ensures
        r == (s@.len() >= 4 && same_letters(s@.skip(s@.len() - 4), ".png"@)),
{
    let v: Vec<char> = chars_of(s);
    v.len() >= 4 && eq_ignore_case(from_index(v.as_slice(), v.len() - 4), ".png")
}

// ---------------------------------------------------------------------------
// Watching a source
// ---------------------------------------------------------------------------

/// What arrived since the last report.
#[derive(Clone, Copy, Debug, PartialEq, Eq, Structural)]
pub struct Window {
    /// Video frames.
    pub video: u64,
    /// Audio frames.
    pub audio: u64,
    /// Audio frames in which some channel is not silent.
    pub audio_with_sound: u64,
    /// Bytes of video and audio.
    pub bytes: u64,
}

/// What is known of a source that is being watched. One video frame between
/// two reports is decoded: that shows that the stream decodes, without the
/// cost of every frame.
#[derive(Clone, Copy, Debug, PartialEq, Eq, Structural)]
pub struct Monitor {
    /// Since the last report.
    pub window: Window,
    /// The next video frame is to be decoded.
    pub decode_due: bool,
    /// Some frame was decoded.
    pub have_frame: bool,
    /// Frames that could not be decoded.
    pub decode_errors: u64,
}

/// A count with `n` more. It stops at the largest number.
pub open spec fn counted(count: u64, n: int) -> u64 {
    if count + n > u64::MAX {
        u64::MAX
    } else {
        (count + n) as u64
    }
}

/// Nothing has arrived.
pub open spec fn empty_window() -> Window {
    Window { video: 0, audio: 0, audio_with_sound: 0, bytes: 0 }
}

fn count(n: u64, more: u64) -> (r: u64)
    ensures
        r == counted(n, more as int),
{
    if more > u64::MAX - n {
        u64::MAX
    } else {
        n + more
    }
}

impl Monitor {
    /// The state after a frame of `len` bytes, and whether to decode it.
    pub open spec fn heard(self, ext: ExtendedHeader, len: int) -> (Monitor, bool) {
        let w = self.window;
        match ext {
            ExtendedHeader::Video(_) => (
                Monitor {
                    window: Window { video: counted(w.video, 1), bytes: counted(w.bytes, len), ..w },
                    decode_due: false,
                    ..self
                },
                self.decode_due,
            ),
            ExtendedHeader::Audio(a) => (
                Monitor {
                    window: Window {
                        audio: counted(w.audio, 1),
                        audio_with_sound: counted(
                            w.audio_with_sound,
                            if a.active_channels != 0 {
                                1
                            } else {
                                0
                            },
                        ),
                        bytes: counted(w.bytes, len),
                        ..w
                    },
                    ..self
                },
                false,
            ),
            ExtendedHeader::Absent => (self, false),
        }
    }

    /// Nothing has arrived, and the first video frame is to be decoded.
    pub fn new() -> (r: Monitor)
        ensures
            r == (Monitor { window: empty_window(), decode_due: true, have_frame: false, decode_errors: 0 }),
    {
        Monitor {
            window: Window { video: 0, audio: 0, audio_with_sound: 0, bytes: 0 },
            decode_due: true,
            have_frame: false,
            decode_errors: 0,
        }
    }

    /// A frame arrived. Returns whether to decode it.
    pub fn frame(&mut self, f: &OwnedFrame) -> (r: bool)
        ensures
            (*final(self), r) == old(self).heard(f.ext, f.data@.len() as int),
    {
        let len: u64 = f.data.len() as u64;
        match f.ext {
            ExtendedHeader::Video(_) => {
                let due: bool = self.decode_due;
                self.window.video = count(self.window.video, 1);
                self.window.bytes = count(self.window.bytes, len);
                self.decode_due = false;
                due
            },
            ExtendedHeader::Audio(a) => {
                self.window.audio = count(self.window.audio, 1);
                self.window.audio_with_sound = count(
                    self.window.audio_with_sound,
                    if a.active_channels != 0 {
                        1
                    } else {
                        0
                    },
                );
                self.window.bytes = count(self.window.bytes, len);
                false
            },
            ExtendedHeader::Absent => false,
        }
    }

    /// A frame was decoded, or could not be.
    pub fn decoded(&mut self, ok: bool)
        ensures
            *final(self) == (if ok {
                Monitor { have_frame: true, ..*old(self) }
            } else {
                Monitor { decode_errors: counted(old(self).decode_errors, 1), ..*old(self) }
            }),
    {
        if ok {
            self.have_frame = true;
        } else {
            self.decode_errors = count(self.decode_errors, 1);
        }
    }

    /// It is time for a report: what arrived since the last one. The counts
    /// start again, and the next video frame is to be decoded.
    pub fn report(&mut self) -> (r: Window)
        ensures
            r == old(self).window,
            *final(self) == (Monitor { window: empty_window(), decode_due: true, ..*old(self) }),
    {
        let w: Window = self.window;
        self.window = Window { video: 0, audio: 0, audio_with_sound: 0, bytes: 0 };
        self.decode_due = true;
        w
    }
}

/// The state after frames, each given by its header and its length, and how
/// many of them are decoded.
pub open spec fn heard_all(m: Monitor, frames: Seq<(ExtendedHeader, int)>) -> (Monitor, int)
    decreases frames.len(),
{
    if frames.len() == 0 {
        (m, 0)
    } else {
        let (before, n) = heard_all(m, frames.drop_last());
        let (after, decode) = before.heard(frames.last().0, frames.last().1);
        (
            after,
            n + if decode {
                1int
            } else {
                0
            },
        )
    }
}

/// Between two reports one video frame is decoded if any arrives, and no more
/// than one.
pub proof fn law_one_decode(m: Monitor, frames: Seq<(ExtendedHeader, int)>)
    requires
        m.decode_due,
    ensures
        ({
            let (after, n) = heard_all(m, frames);
            &&& n == 0 || n == 1
            &&& n == 1 <==> exists|i: int| 0 <= i < frames.len() && (#[trigger] frames[i]).0 is Video
            &&& after.decode_due == (n == 0)
        }),
    decreases frames.len(),
{
    if frames.len() > 0 {
        let rest = frames.drop_last();
        law_one_decode(m, rest);
        let k = frames.len() - 1;
        if exists|i: int| 0 <= i < rest.len() && (#[trigger] rest[i]).0 is Video {
            let i = choose|i: int| 0 <= i < rest.len() && (#[trigger] rest[i]).0 is Video;
            assert(frames[i].0 is Video);
        } else if !(frames[k].0 is Video) {
            assert forall|i: int| 0 <= i < frames.len() implies !((#[trigger] frames[i]).0 is Video) by {
                if i < k {
                    assert(rest[i] == frames[i]);
                }
            }
        }
    }
}

} // verus!
