//! Redirects, reconnecting and counters of a receiver.

use crate::address::{address_of, address_text, Address, AddressView};
use crate::command::{
    classify, is_command, is_info_text, is_quality_text, is_redirect_text, Command, Message,
};
use crate::deframer::{all_frames, law_frame_parts, left_over, next_in, Deframer, FrameView, OwnedFrame};
use crate::error::Error;
use crate::frame::ExtendedHeader;
use crate::receiver::plan::{Channel, Event, ReceiverConfig};
use crate::redirect::redirect_in;
use crate::text::{chars_of, same_text};
use vstd::prelude::*;

verus! {

/// Milliseconds between connection attempts, at least.
pub const RETRY_INTERVAL_MS: u64 = 1000;

/// Milliseconds that a connection attempt may take.
pub const CONNECT_TIMEOUT_MS: u64 = 2000;

/// Milliseconds that the first connection waits for a full name to be
/// discovered.
pub const RESOLVE_TIMEOUT_MS: u64 = 5000;

/// Bytes and frames received on one channel.
#[derive(Clone, Copy, Debug, PartialEq, Eq, Structural)]
pub struct ChannelStats {
    /// Bytes read from the socket.
    pub bytes: u64,
    /// Complete frames, protocol messages included.
    pub frames: u64,
}

impl Default for ChannelStats {
    fn default() -> (r: Self)
        ensures
            r == (ChannelStats { bytes: 0, frames: 0 }),
    {
        ChannelStats { bytes: 0, frames: 0 }
    }
}

/// Counters since the receiver started.
#[derive(Clone, Copy, Debug, PartialEq, Eq, Structural)]
pub struct ReceiverStats {
    /// The video and metadata connection.
    pub video: ChannelStats,
    /// The audio connection.
    pub audio: ChannelStats,
    /// Times the connections were re-established after the first attempt,
    /// other than to follow a redirect.
    pub reconnects: u64,
    /// Times the receiver switched source for a redirect.
    pub redirects: u64,
}

/// Counters at the start.
pub open spec fn no_stats() -> ReceiverStats {
    let c = ChannelStats { bytes: 0, frames: 0 };
    ReceiverStats { video: c, audio: c, reconnects: 0, redirects: 0 }
}

impl Default for ReceiverStats {
    fn default() -> (r: Self)
        ensures
            r == no_stats(),
    {
        ReceiverStats {
            video: ChannelStats { bytes: 0, frames: 0 },
            audio: ChannelStats { bytes: 0, frames: 0 },
            reconnects: 0,
            redirects: 0,
        }
    }
}

/// A counter after some more. It wraps around.
pub open spec fn plus(old: u64, n: int) -> u64 {
    ((old + n) % 0x1_0000_0000_0000_0000) as u64
}

/// Adds to a counter.
fn bump(c: u64, n: u64) -> (r: u64)
    ensures
        r == plus(c, n as int),
{
    if n <= 0xFFFF_FFFF_FFFF_FFFF - c {
        c + n
    } else {
        c - (0xFFFF_FFFF_FFFF_FFFF - n) - 1
    }
}

/// What a receiver holds.
#[verifier::ext_equal]
pub struct ReceiverView {
    /// The address given.
    pub original: AddressView,
    /// What to ask for.
    pub config: ReceiverConfig,
    /// The address being followed; `None` means the original.
    pub redirect: Option<Seq<char>>,
    /// A first redirect has been seen.
    pub following: bool,
    /// The target changed: reconnect now.
    pub retarget: bool,
    /// There is a side connection to the original address.
    pub side: bool,
    /// The receiver is being closed.
    pub closing: bool,
    /// Counters.
    pub stats: ReceiverStats,
}

/// The state of a receiver.
pub struct Receiver {
    original: Address,
    config: ReceiverConfig,
    redirect: Option<String>,
    following: bool,
    retarget: bool,
    side: bool,
    closing: bool,
    stats: ReceiverStats,
}

/// An optional text as a plain value.
pub open spec fn text_view(s: Option<String>) -> Option<Seq<char>> {
    match s {
        Some(t) => Some(t@),
        None => None,
    }
}

impl View for Receiver {
    type V = ReceiverView;

    closed spec fn view(&self) -> ReceiverView {
        ReceiverView {
            original: self.original@,
            config: self.config,
            redirect: text_view(self.redirect),
            following: self.following,
            retarget: self.retarget,
            side: self.side,
            closing: self.closing,
            stats: self.stats,
        }
    }
}

impl ReceiverView {
    /// Whether a redirect message is acted upon. A redirect back to the
    /// original is ignored. From the side connection, a change counts; from a
    /// main connection only the first redirect does, and not an empty one.
    pub open spec fn heeds(self, from_side: bool, address: Seq<char>) -> bool {
        &&& self.config.follow_redirects
        &&& !self.closing
        &&& address != address_text(self.original)
        &&& if from_side {
            address != (match self.redirect {
                Some(r) => r,
                None => Seq::empty(),
            })
        } else {
            !self.following && address.len() > 0
        }
    }

    /// The receiver after a redirect message that it acts upon: an empty
    /// address returns it to the original.
    pub open spec fn moved(self, from_side: bool, address: Seq<char>) -> ReceiverView {
        ReceiverView {
            redirect: if address.len() == 0 {
                None
            } else {
                Some(address)
            },
            following: self.following || !from_side,
            retarget: true,
            stats: ReceiverStats { redirects: plus(self.stats.redirects, 1), ..self.stats },
            ..self
        }
    }

    /// The receiver after a redirect message.
    pub open spec fn after_redirect(self, from_side: bool, address: Seq<char>) -> ReceiverView {
        if self.heeds(from_side, address) {
            self.moved(from_side, address)
        } else {
            self
        }
    }

    /// Where to connect now: the redirect if one is followed and it is an
    /// address, otherwise the original.
    pub open spec fn target(self) -> AddressView {
        match self.redirect {
            Some(r) => match address_of(r) {
                Ok(a) => a,
                Err(_) => self.original,
            },
            None => self.original,
        }
    }
}

/// Something that happened on a connection, as a plain value.
pub enum EventView {
    /// A connection was established.
    Connected(Channel),
    /// A complete frame.
    Frame(Channel, FrameView),
    /// A connection closed, by an error or not.
    Closed(Channel, bool),
    /// The receiver is switching source.
    Redirect(Option<Seq<char>>),
}

/// An event as a plain value.
pub open spec fn event_view(e: Event) -> EventView {
    match e {
        Event::Connected(c) => EventView::Connected(c),
        Event::Frame(c, f) => EventView::Frame(c, f@),
        Event::Closed(c, reason) => EventView::Closed(c, reason is Some),
        Event::Redirect(a) => EventView::Redirect(text_view(a)),
    }
}

/// Events as plain values.
pub open spec fn event_views(s: Seq<Event>) -> Seq<EventView> {
    s.map_values(|e: Event| event_view(e))
}

impl ReceiverView {
    /// The receiver with one more frame counted.
    pub open spec fn counted(self, channel: Channel) -> ReceiverView {
        ReceiverView {
            stats: match channel {
                Channel::Video => ReceiverStats {
                    video: ChannelStats { frames: plus(self.stats.video.frames, 1), ..self.stats.video },
                    ..self.stats
                },
                Channel::Audio => ReceiverStats {
                    audio: ChannelStats { frames: plus(self.stats.audio.frames, 1), ..self.stats.audio },
                    ..self.stats
                },
            },
            ..self
        }
    }

    /// The receiver with more bytes counted.
    pub open spec fn read_bytes(self, channel: Channel, n: int) -> ReceiverView {
        ReceiverView {
            stats: match channel {
                Channel::Video => ReceiverStats {
                    video: ChannelStats { bytes: plus(self.stats.video.bytes, n), ..self.stats.video },
                    ..self.stats
                },
                Channel::Audio => ReceiverStats {
                    audio: ChannelStats { bytes: plus(self.stats.audio.bytes, n), ..self.stats.audio },
                    ..self.stats
                },
            },
            ..self
        }
    }

    /// The receiver after a frame on a main connection.
    #[verifier::opaque]
    pub open spec fn after_frame(self, channel: Channel, f: FrameView) -> ReceiverView {
        match redirect_of_frame(f) {
            Some(a) => self.counted(channel).after_redirect(false, a),
            None => self.counted(channel),
        }
    }

    /// What a frame gives rise to: the frame itself, and a switch of source if
    /// it is a redirect that the receiver acts upon.
    #[verifier::opaque]
    pub open spec fn frame_events(self, channel: Channel, f: FrameView) -> Seq<EventView> {
        match redirect_of_frame(f) {
            Some(a) => if self.counted(channel).heeds(false, a) {
                seq![
                    EventView::Frame(channel, f),
                    EventView::Redirect(self.after_frame(channel, f).redirect),
                ]
            } else {
                seq![EventView::Frame(channel, f)]
            },
            None => seq![EventView::Frame(channel, f)],
        }
    }

    /// The receiver after frames on a main connection.
    pub open spec fn after_frames(self, channel: Channel, frames: Seq<FrameView>) -> ReceiverView
        decreases frames.len(),
    {
        if frames.len() == 0 {
            self
        } else {
            self.after_frames(channel, frames.drop_last()).after_frame(channel, frames.last())
        }
    }

    /// What frames on a main connection give rise to.
    pub open spec fn frames_events(self, channel: Channel, frames: Seq<FrameView>) -> Seq<EventView>
        decreases frames.len(),
    {
        if frames.len() == 0 {
            Seq::empty()
        } else {
            self.frames_events(channel, frames.drop_last()) + self.after_frames(
                channel,
                frames.drop_last(),
            ).frame_events(channel, frames.last())
        }
    }
}

/// What the supervisor of a receiver is to do.
#[derive(Clone, Copy, Debug, PartialEq, Eq, Structural)]
pub struct Decision {
    /// Stop: the receiver is being closed.
    pub stop: bool,
    /// Start the side connection.
    pub start_side: bool,
    /// Close the connections and open them again.
    pub reconnect: bool,
    /// That is because of a redirect.
    pub retarget: bool,
}

/// The redirect address of a frame, if it is a redirect message that can be
/// read.
pub open spec fn redirect_of_frame(f: FrameView) -> Option<Seq<char>> {
    if f.ext == ExtendedHeader::Absent && !is_command(f.data) && !is_quality_text(f.data) && !is_info_text(f.data)
        && is_redirect_text(f.data) {
        redirect_in(f.data)
    } else {
        None
    }
}

/// The redirect address of a frame, if it is a redirect message that can be
/// read.
pub fn redirect_heard_in(f: &OwnedFrame) -> (r: Option<String>)
    ensures
        text_view(r) == redirect_of_frame(f@),
{
    match f.ext {
        ExtendedHeader::Absent => match classify(f.data.as_slice()) {
            Message::Redirect(x) => crate::redirect::parse(x),
            _ => None,
        },
        _ => None,
    }
}

/// One more frame is taken into account.
proof fn lemma_one_more(s: ReceiverView, channel: Channel, done: Seq<FrameView>, f: FrameView)
    ensures
        s.after_frames(channel, done.push(f)) == s.after_frames(channel, done).after_frame(channel, f),
        s.frames_events(channel, done.push(f)) == s.frames_events(channel, done) + s.after_frames(
            channel,
            done,
        ).frame_events(channel, f),
{
    assert(done.push(f).drop_last() =~= done);
}

/// The first frame of a stream moves over to the frames that are done.
proof fn lemma_frame_taken(max: int, bytes: Seq<u8>, done: Seq<FrameView>)
    ensures
        match next_in(max, bytes) {
            Ok(Some((f, n))) => {
                &&& done + all_frames(max, bytes) == done.push(f) + all_frames(max, bytes.skip(n))
                &&& left_over(max, bytes) == left_over(max, bytes.skip(n))
                &&& 0 < n <= bytes.len()
            },
            _ => {
                &&& done + all_frames(max, bytes) == done
                &&& left_over(max, bytes) == bytes
            },
        },
{
    law_frame_parts(max, bytes);
    match next_in(max, bytes) {
        Ok(Some((f, n))) => {
            assert(done + (seq![f] + all_frames(max, bytes.skip(n))) =~= done.push(f) + all_frames(
                max,
                bytes.skip(n),
            ));
        },
        _ => {
            assert(done + Seq::<FrameView>::empty() =~= done);
        },
    }
}

impl Receiver {
    /// A receiver of a sender at an address.
    pub fn new(address: Address, config: ReceiverConfig) -> (r: Receiver)
        ensures
            r@ == (ReceiverView {
                original: address@,
                config,
                redirect: None,
                following: false,
                retarget: false,
                side: false,
                closing: false,
                stats: no_stats(),
            }),
    {
        Receiver {
            original: address,
            config,
            redirect: None,
            following: false,
            retarget: false,
            side: false,
            closing: false,
            stats: ReceiverStats::default(),
        }
    }

    /// The address given to this receiver.
    pub fn address(&self) -> (r: &Address)
        ensures
            r@ == self@.original,
    {
        &self.original
    }

    /// What it asks for.
    pub fn config(&self) -> (r: ReceiverConfig)
        ensures
            r == self@.config,
    {
        self.config
    }

    /// The redirect being followed, if any.
    pub fn redirect(&self) -> (r: Option<String>)
        ensures
            text_view(r) == self@.redirect,
    {
        match &self.redirect {
            Some(s) => Some(s.clone()),
            None => None,
        }
    }

    /// Counters since the receiver started.
    pub fn stats(&self) -> (r: ReceiverStats)
        ensures
            r == self@.stats,
    {
        self.stats
    }

    /// A command to the sender, e.g. a tally or quality change. Tally, quality
    /// and preview are remembered and sent again after a reconnect. Returns the
    /// bytes to send.
    pub fn send(&mut self, command: Command) -> (r: Vec<u8>)
        ensures
            final(self)@ == (ReceiverView { config: old(self)@.config.remembers(command), ..old(self)@ }),
            r@ == crate::receiver::plan::command_frames(seq![command]),
    {
        match command {
            Command::Tally(t) => {
                self.config.tally = t;
            },
            Command::Quality(q) => {
                self.config.quality = q;
            },
            Command::Preview(p) => {
                self.config.preview = p;
            },
            _ => {},
        }
        let one: [Command; 1] = [command];
        assert(one@ =~= seq![command]);
        crate::receiver::plan::command_stream(one.as_slice())
    }

    /// Where to connect now.
    pub fn target(&self) -> (r: Address)
        ensures
            r@ == self@.target(),
    {
        match &self.redirect {
            Some(s) => match Address::parse(s.as_str()) {
                Ok(a) => a,
                Err(_) => self.original.copy(),
            },
            None => self.original.copy(),
        }
    }

    /// A redirect message arrived, on a main connection or (`from_side`) on
    /// the side connection to the original address. Returns the new redirect
    /// if the receiver is to move.
    pub fn redirect_heard(&mut self, from_side: bool, address: &str) -> (r: Option<Option<String>>)
        ensures
            final(self)@ == old(self)@.after_redirect(from_side, address@),
            match r {
                Some(new) => {
                    &&& old(self)@.heeds(from_side, address@)
                    &&& text_view(new) == final(self)@.redirect
                },
                None => !old(self)@.heeds(from_side, address@),
            },
    {
        if !self.config.follow_redirects || self.closing {
            return None;
        }
        let a: Vec<char> = chars_of(address);
        let original: String = self.original.to_string();
        let o: Vec<char> = chars_of(original.as_str());
        if same_text(a.as_slice(), o.as_slice()) {
            return None;
        }
        if from_side {
            let now: Vec<char> = match &self.redirect {
                Some(s) => chars_of(s.as_str()),
                None => Vec::new(),
            };
            if same_text(a.as_slice(), now.as_slice()) {
                return None;
            }
        } else {
            if self.following || a.len() == 0 {
                return None;
            }
            self.following = true;
        }
        let new: Option<String> = if a.len() == 0 {
            None
        } else {
            Some(address.to_string())
        };
        self.redirect = match &new {
            Some(s) => Some(s.clone()),
            None => None,
        };
        self.retarget = true;
        self.stats.redirects = bump(self.stats.redirects, 1);
        Some(new)
    }

    /// How many milliseconds the supervisor waits, `since` the last attempt,
    /// before it decides: not at all when there is something to do at once.
    pub fn wait_ms(&self, since: u64) -> (r: Option<u64>)
        ensures
            r == (if self@.closing || self@.retarget {
                None
            } else if since >= RETRY_INTERVAL_MS {
                Some(RETRY_INTERVAL_MS)
            } else if RETRY_INTERVAL_MS - since < 10 {
                Some(10)
            } else {
                Some((RETRY_INTERVAL_MS - since) as u64)
            }),
            r matches Some(ms) ==> 10 <= ms <= 1000 && since + ms >= 1000,
    {
        if self.closing || self.retarget {
            None
        } else if since >= RETRY_INTERVAL_MS {
            Some(RETRY_INTERVAL_MS)
        } else if RETRY_INTERVAL_MS - since < 10 {
            Some(10)
        } else {
            Some(RETRY_INTERVAL_MS - since)
        }
    }

    /// What the supervisor is to do, `since` milliseconds after the last
    /// attempt: reconnect when a needed connection is down, at most once a
    /// second, and at once when a redirect changes the target. `pending` tells
    /// that the last attempt failed.
    pub fn decide(&mut self, since: u64, connected: bool, pending: bool) -> (r: Decision)
        ensures
            r.stop == old(self)@.closing,
            !r.stop ==> {
                &&& r.retarget == old(self)@.retarget
                &&& r.start_side == (old(self)@.following && !old(self)@.side)
                &&& r.reconnect == (old(self)@.retarget || ((old(self)@.config.reconnect || pending) && since
                    >= RETRY_INTERVAL_MS && !connected))
                &&& final(self)@ == (ReceiverView { retarget: false, ..old(self)@ })
            },
            r.stop ==> final(self)@ == old(self)@ && !r.start_side && !r.reconnect,
            r.reconnect && !r.retarget ==> since >= 1000 && !connected,
    {
        if self.closing {
            return Decision { stop: true, start_side: false, reconnect: false, retarget: false };
        }
        let retarget: bool = self.retarget;
        self.retarget = false;
        Decision {
            stop: false,
            start_side: self.following && !self.side,
            reconnect: retarget || ((self.config.reconnect || pending) && since >= RETRY_INTERVAL_MS && !connected),
            retarget,
        }
    }

    /// The side connection was started.
    pub fn side_started(&mut self)
        ensures
            final(self)@ == (ReceiverView { side: true, ..old(self)@ }),
    {
        self.side = true;
    }

    /// A decision to reconnect was carried out.
    pub fn reopened(&mut self, decision: &Decision, ok: bool)
        ensures
            final(self)@ == (if ok && !decision.retarget {
                ReceiverView {
                    stats: ReceiverStats {
                        reconnects: plus(old(self)@.stats.reconnects, 1),
                        ..old(self)@.stats
                    },
                    ..old(self)@
                }
            } else {
                old(self)@
            }),
    {
        if ok && !decision.retarget {
            self.stats.reconnects = bump(self.stats.reconnects, 1);
        }
    }

    /// The receiver is being closed.
    pub fn close(&mut self)
        ensures
            final(self)@ == (ReceiverView { closing: true, ..old(self)@ }),
    {
        self.closing = true;
    }

    /// Counts bytes read from a socket.
    fn count_bytes(&mut self, channel: Channel, n: u64)
        ensures
            final(self)@ == old(self)@.read_bytes(channel, n as int),
    {
        match channel {
            Channel::Video => {
                self.stats.video.bytes = bump(self.stats.video.bytes, n);
            },
            Channel::Audio => {
                self.stats.audio.bytes = bump(self.stats.audio.bytes, n);
            },
        }
    }

    /// Counts a complete frame.
    fn count_frame(&mut self, channel: Channel)
        ensures
            final(self)@ == old(self)@.counted(channel),
    {
        match channel {
            Channel::Video => {
                self.stats.video.frames = bump(self.stats.video.frames, 1);
            },
            Channel::Audio => {
                self.stats.audio.frames = bump(self.stats.audio.frames, 1);
            },
        }
    }

    /// A complete frame arrived on a main connection.
    fn frame_arrived(&mut self, channel: Channel, f: OwnedFrame, events: &mut Vec<Event>)
        ensures
            final(self)@ == old(self)@.after_frame(channel, f@),
            event_views(final(events)@) == event_views(old(events)@) + old(self)@.frame_events(channel, f@),
    {
        proof {
            reveal(ReceiverView::after_frame);
            reveal(ReceiverView::frame_events);
        }
        let ghost view = f@;
        self.count_frame(channel);
        let heard: Option<String> = redirect_heard_in(&f);
        events.push(Event::Frame(channel, f));
        match heard {
            Some(a) => match self.redirect_heard(false, a.as_str()) {
                Some(new) => {
                    events.push(Event::Redirect(new));
                },
                None => {},
            },
            None => {},
        }
        assert(event_views(events@) =~= event_views(old(events)@) + old(self)@.frame_events(channel, view));
    }

    /// Whether it is being closed.
    pub fn is_closing(&self) -> (r: bool)
        ensures
            r == self@.closing,
    {
        self.closing
    }

    /// Bytes were read from the socket of a main connection. Returns what they
    /// give rise to, in order, and why the connection is to be closed if the
    /// stream turns out to be bad.
    #[verifier::rlimit(40)]
    pub fn received(&mut self, channel: Channel, deframer: &mut Deframer, bytes: &[u8]) -> (r: (
        Vec<Event>,
        Option<Error>,
    ))
        requires
            old(deframer).wf(),
        ensures
            final(deframer).wf(),
            final(deframer).max() == old(deframer).max(),
            final(deframer)@ == left_over(old(deframer).max(), old(deframer)@ + bytes@),
            final(self)@ == old(self)@.read_bytes(channel, bytes@.len() as int).after_frames(
                channel,
                all_frames(old(deframer).max(), old(deframer)@ + bytes@),
            ),
            event_views(r.0@) == old(self)@.read_bytes(channel, bytes@.len() as int).frames_events(
                channel,
                all_frames(old(deframer).max(), old(deframer)@ + bytes@),
            ),
            r.1 == (match next_in(old(deframer).max(), final(deframer)@) {
                Err(e) => Some(e),
                Ok(_) => None,
            }),
    {
        let ghost max = deframer.max();
        let ghost stream = deframer@ + bytes@;
        self.count_bytes(channel, bytes.len() as u64);
        deframer.push(bytes);
        let ghost start = self@;
        let ghost mut done: Seq<FrameView> = Seq::empty();
        let mut events: Vec<Event> = Vec::new();
        assert(event_views(events@) =~= Seq::<EventView>::empty());
        assert(done + all_frames(max, deframer@) =~= all_frames(max, stream));
        loop
            invariant
                deframer.wf(),
                deframer.max() == max,
                max == old(deframer).max(),
                stream == old(deframer)@ + bytes@,
                start == old(self)@.read_bytes(channel, bytes@.len() as int),
                all_frames(max, stream) == done + all_frames(max, deframer@),
                left_over(max, stream) == left_over(max, deframer@),
                self@ == start.after_frames(channel, done),
                event_views(events@) == start.frames_events(channel, done),
            decreases deframer@.len(),
        {
            let ghost before = deframer@;
            proof {
                lemma_frame_taken(max, before, done);
            }
            match deframer.next_frame() {
                Ok(Some(f)) => {
                    let ghost view = f@;
                    self.frame_arrived(channel, f, &mut events);
                    proof {
                        lemma_one_more(start, channel, done, view);
                        done = done.push(view);
                    }
                },
                Ok(None) => {
                    return (events, None);
                },
                Err(e) => {
                    return (events, Some(e));
                },
            }
        }
    }
}

/// A receiver follows a redirect, moves when the side connection says so, and
/// returns to its original address when that redirect ends.
pub proof fn law_follows_moves_and_returns(s: ReceiverView, b: Seq<char>, c: Seq<char>)
    requires
        s.config.follow_redirects,
        !s.closing,
        !s.following,
        s.redirect is None,
        b.len() > 0,
        c.len() > 0,
        b != c,
        b != address_text(s.original),
        c != address_text(s.original),
        address_text(s.original).len() > 0,
    ensures
        ({
            let at_b = s.after_redirect(false, b);
            let at_c = at_b.after_redirect(true, c);
            let back = at_c.after_redirect(true, Seq::empty());
            &&& at_b.redirect == Some(b)
            &&& at_c.redirect == Some(c)
            &&& back.redirect is None
            &&& back.target() == s.original
        }),
{
    assert(Seq::<char>::empty() != c);
}

/// Once a receiver follows a redirect, what the main connections say of
/// redirects is ignored; an empty first redirect does nothing, and neither
/// does a redirect to the original address.
pub proof fn law_redirects_ignored(s: ReceiverView, from_side: bool, address: Seq<char>)
    ensures
        s.following ==> s.after_redirect(false, address) == s,
        s.after_redirect(false, Seq::empty()) == s,
        s.after_redirect(from_side, address_text(s.original)) == s,
        !s.config.follow_redirects ==> s.after_redirect(from_side, address) == s,
{
}

} // verus!
