//! The connections of a sender: what they asked for, and what they are sent.

use crate::command::{
    classify, command_bytes, is_command, is_info_text, is_quality_text, is_redirect_text, law_commands_differ,
    tally_or, Command, Message, Quality, Tally,
};
use crate::frame::ExtendedHeader;
use crate::ip::SocketAddr;
use crate::redirect::{redirect_text, to_xml};
use crate::sender::audio::{active_mask, audio_header, pack_audio, packed};
use crate::sender::outbox::{Outbox, OutboxView};
use crate::sender::video::{
    make_parcel, parcel_of, parcel_view, produced, produces, Running, VideoParcel, VideoParcelView, VideoParams,
    VideoState,
};
use crate::text::{chars_of, same_text};
use crate::vmx::encoder::Profile;
use crate::vmx::error::Error;
use crate::vmx::frame::Frame;
use std::sync::Arc;
use vstd::prelude::*;

verus! {

/// What a connection asked for.
#[derive(Clone, Copy, Debug, PartialEq, Eq, Structural)]
pub struct PeerState {
    /// Video.
    pub video: bool,
    /// Audio.
    pub audio: bool,
    /// Metadata broadcasts.
    pub metadata: bool,
    /// 1/8 preview video in place of full frames.
    pub preview: bool,
    /// Its tally.
    pub tally: Tally,
    /// The quality it suggests.
    pub quality: Quality,
}

/// What a connection asked for before its first command.
pub open spec fn asked_nothing() -> PeerState {
    PeerState {
        video: false,
        audio: false,
        metadata: false,
        preview: false,
        tally: Tally { preview: false, program: false },
        quality: Quality::Default,
    }
}

impl Default for PeerState {
    fn default() -> (r: Self)
        ensures
            r == asked_nothing(),
    {
        PeerState {
            video: false,
            audio: false,
            metadata: false,
            preview: false,
            tally: Tally { preview: false, program: false },
            quality: Quality::Default,
        }
    }
}

/// A connection.
pub struct Peer {
    /// Its number.
    pub id: u64,
    /// Where it came from.
    pub addr: SocketAddr,
    /// What it asked for.
    pub state: PeerState,
    /// What waits to be written to it.
    pub outbox: Outbox,
}

/// A connection as plain values.
#[verifier::ext_equal]
pub struct PeerView {
    /// Its number.
    pub id: u64,
    /// Where it came from.
    pub addr: SocketAddr,
    /// What it asked for.
    pub state: PeerState,
    /// What waits to be written to it.
    pub outbox: OutboxView,
}

impl View for Peer {
    type V = PeerView;

    open spec fn view(&self) -> PeerView {
        PeerView { id: self.id, addr: self.addr, state: self.state, outbox: self.outbox@ }
    }
}

/// Connections as plain values.
pub open spec fn peer_views(v: Seq<Peer>) -> Seq<PeerView> {
    Seq::new(v.len(), |i: int| v[i]@)
}

/// Something to send to every connection that asked for it. A frame that is
/// too large to be sent is dropped for each of them.
pub enum Parcel {
    /// A video frame.
    Video(VideoParcel),
    /// An audio frame.
    Audio(Option<Arc<Vec<u8>>>),
    /// A metadata frame.
    Metadata(Option<Arc<Vec<u8>>>),
}

/// The same as plain values.
#[verifier::ext_equal]
pub enum Cast {
    /// A video frame.
    Video(VideoParcelView),
    /// An audio frame.
    Audio(Option<Seq<u8>>),
    /// A metadata frame.
    Metadata(Option<Seq<u8>>),
}

impl View for Parcel {
    type V = Cast;

    open spec fn view(&self) -> Cast {
        match self {
            Parcel::Video(v) => Cast::Video(v@),
            Parcel::Audio(a) => Cast::Audio(parcel_view(*a)),
            Parcel::Metadata(m) => Cast::Metadata(parcel_view(*m)),
        }
    }
}

/// What a connection gets of a parcel, if it asked for it.
pub open spec fn item_for(c: Cast, s: PeerState) -> Option<Option<Seq<u8>>> {
    match c {
        Cast::Video(v) => if s.video {
            Some(
                match v.preview {
                    Some(p) => if s.preview {
                        p
                    } else {
                        v.full
                    },
                    None => v.full,
                },
            )
        } else {
            None
        },
        Cast::Audio(a) => if s.audio {
            Some(a)
        } else {
            None
        },
        Cast::Metadata(m) => if s.metadata {
            Some(m)
        } else {
            None
        },
    }
}

/// Whether an item can be queued for a connection.
pub open spec fn queues(p: PeerView, item: Option<Seq<u8>>, metadata: bool) -> bool {
    item is Some && p.outbox.takes(metadata)
}

/// A connection after an item is queued for it, if it can be.
pub open spec fn queued_for(p: PeerView, item: Option<Seq<u8>>, metadata: bool) -> PeerView {
    if queues(p, item, metadata) {
        PeerView { outbox: p.outbox.with(item->0, metadata), ..p }
    } else {
        p
    }
}

/// A connection after a parcel.
pub open spec fn cast_one(p: PeerView, c: Cast) -> PeerView {
    match item_for(c, p.state) {
        Some(item) => queued_for(p, item, c is Metadata),
        None => p,
    }
}

/// The first `n` connections after a parcel, and the others.
pub open spec fn cast_peers(peers: Seq<PeerView>, c: Cast, n: int) -> Seq<PeerView> {
    Seq::new(
        peers.len(),
        |i: int|
            if i < n {
                cast_one(peers[i], c)
            } else {
                peers[i]
            },
    )
}

/// For how many of the first `n` connections a parcel is queued, or for how
/// many it is dropped.
pub open spec fn cast_count(peers: Seq<PeerView>, c: Cast, n: int, ok: bool) -> int
    decreases n,
{
    if n <= 0 {
        0
    } else {
        cast_count(peers, c, n - 1, ok) + match item_for(c, peers[n - 1].state) {
            Some(item) => if queues(peers[n - 1], item, c is Metadata) == ok {
                1int
            } else {
                0
            },
            None => 0,
        }
    }
}

/// A counter after some more events. It wraps around.
pub open spec fn counted(old: u64, n: int) -> u64 {
    ((old + n) % 0x1_0000_0000_0000_0000) as u64
}

/// Counts one event.
fn count_one(c: u64) -> (r: u64)
    ensures
        r == counted(c, 1),
{
    if c == 0xFFFF_FFFF_FFFF_FFFF {
        0
    } else {
        c + 1
    }
}

/// The combined tally of the first `n` connections.
pub open spec fn tally_of(peers: Seq<PeerView>, n: int) -> Tally
    decreases n,
{
    if n <= 0 {
        Tally { preview: false, program: false }
    } else {
        tally_or(tally_of(peers, n - 1), peers[n - 1].state.tally)
    }
}

/// What a sender holds.
#[verifier::ext_equal]
pub struct SenderView {
    /// Its own quality.
    pub quality: Quality,
    /// What every connection is sent first.
    pub on_connect: Seq<Seq<u8>>,
    /// The combined tally.
    pub tally: Tally,
    /// The number of the last connection.
    pub last_id: u64,
    /// The open connections.
    pub peers: Seq<PeerView>,
    /// Frames queued to a connection.
    pub queued: u64,
    /// Frames dropped.
    pub dropped: u64,
    /// The addresses of this sender itself.
    pub own: Seq<Seq<char>>,
    /// Where the application redirects receivers.
    pub target: Option<Seq<char>>,
    /// Where that source redirects them in turn.
    pub forwarded: Option<Seq<char>>,
}

impl SenderView {
    /// What holds of every sender: each connection has its own number and a
    /// queue within its limits, and the tally is that of all connections
    /// together.
    pub open spec fn consistent(self) -> bool {
        &&& forall|i: int, j: int|
            0 <= i < j < self.peers.len() ==> (#[trigger] self.peers[i]).id != (#[trigger] self.peers[j]).id
        &&& forall|i: int| 0 <= i < self.peers.len() ==> (#[trigger] self.peers[i]).id <= self.last_id
        &&& forall|i: int| 0 <= i < self.peers.len() ==> (#[trigger] self.peers[i]).outbox.bounded()
        &&& self.tally == tally_of(self.peers, self.peers.len() as int)
    }

    /// The sender after a parcel.
    pub open spec fn cast(self, c: Cast) -> SenderView {
        let n = self.peers.len() as int;
        SenderView {
            peers: cast_peers(self.peers, c, n),
            queued: counted(self.queued, cast_count(self.peers, c, n, true)),
            dropped: counted(self.dropped, cast_count(self.peers, c, n, false)),
            ..self
        }
    }

    /// The sender after its connections changed: the combined tally goes to
    /// the metadata connections if it changed.
    pub open spec fn tallied(self) -> SenderView {
        let t = tally_of(self.peers, self.peers.len() as int);
        if t == self.tally {
            self
        } else {
            SenderView { tally: t, ..self }.cast(Cast::Metadata(tally_parcel(t)))
        }
    }

    /// Where receivers are redirected now.
    pub open spec fn redirect(self) -> Option<Seq<char>> {
        match self.forwarded {
            Some(f) => Some(f),
            None => self.target,
        }
    }

    /// The sender after its redirect changed from `before`: the new one goes
    /// to the metadata connections, empty for none.
    pub open spec fn redirected_from(self, before: Option<Seq<char>>) -> SenderView {
        if self.redirect() == before {
            self
        } else {
            self.cast(Cast::Metadata(redirect_parcel(self.redirect())))
        }
    }
}

/// The frame of a tally.
pub open spec fn tally_parcel(t: Tally) -> Option<Seq<u8>> {
    parcel_of(0, ExtendedHeader::Absent, command_bytes(Command::Tally(t)), Seq::empty())
}

/// The frame of a redirect.
pub open spec fn redirect_parcel(address: Option<Seq<char>>) -> Option<Seq<u8>> {
    parcel_of(
        0,
        ExtendedHeader::Absent,
        vstd::utf8::encode_utf8(
            redirect_text(
                match address {
                    Some(a) => a,
                    None => Seq::empty(),
                },
            ),
        ),
        Seq::empty(),
    )
}

/// A metadata frame.
pub open spec fn message_parcel(xml: Seq<u8>) -> Option<Seq<u8>> {
    parcel_of(0, ExtendedHeader::Absent, xml, Seq::empty())
}

/// What a new connection is sent: what every connection is sent, the combined
/// tally, and the redirect if there is one.
pub open spec fn greeting(s: SenderView) -> Seq<Option<Seq<u8>>> {
    let first = Seq::new(s.on_connect.len(), |i: int| message_parcel(s.on_connect[i])).push(
        tally_parcel(s.tally),
    );
    if s.redirect() is Some {
        first.push(redirect_parcel(s.redirect()))
    } else {
        first
    }
}

/// A connection after the first `n` of some messages.
pub open spec fn greeted(p: PeerView, items: Seq<Option<Seq<u8>>>, n: int) -> PeerView
    decreases n,
{
    if n <= 0 {
        p
    } else {
        queued_for(greeted(p, items, n - 1), items[n - 1], true)
    }
}

/// How many of the first `n` messages are queued, or how many are dropped.
pub open spec fn greeted_count(p: PeerView, items: Seq<Option<Seq<u8>>>, n: int, ok: bool) -> int
    decreases n,
{
    if n <= 0 {
        0
    } else {
        greeted_count(p, items, n - 1, ok) + if queues(greeted(p, items, n - 1), items[n - 1], true) == ok {
            1int
        } else {
            0
        }
    }
}

/// A sender after a connection was made.
pub open spec fn connected(s: SenderView, addr: SocketAddr) -> SenderView {
    let id = (s.last_id + 1) as u64;
    let p = PeerView { id, addr, state: asked_nothing(), outbox: OutboxView::fresh() };
    let items = greeting(s);
    let n = items.len() as int;
    SenderView {
        last_id: id,
        peers: s.peers.push(greeted(p, items, n)),
        queued: counted(s.queued, greeted_count(p, items, n, true)),
        dropped: counted(s.dropped, greeted_count(p, items, n, false)),
        ..s
    }
}

/// The place of a connection.
pub open spec fn peer_at(peers: Seq<PeerView>, id: u64) -> Option<int>
    decreases peers.len(),
{
    if peers.len() == 0 {
        None
    } else if peers.last().id == id {
        Some(peers.len() - 1)
    } else {
        peer_at(peers.drop_last(), id)
    }
}

/// What [`peer_at`] tells.
pub proof fn lemma_peer_at(peers: Seq<PeerView>, id: u64)
    ensures
        match peer_at(peers, id) {
            Some(i) => 0 <= i < peers.len() && peers[i].id == id,
            None => forall|i: int| 0 <= i < peers.len() ==> (#[trigger] peers[i]).id != id,
        },
    decreases peers.len(),
{
    if peers.len() > 0 && peers.last().id != id {
        lemma_peer_at(peers.drop_last(), id);
        if peer_at(peers, id) is None {
            assert forall|i: int| 0 <= i < peers.len() implies (#[trigger] peers[i]).id != id by {
                if i < peers.len() - 1 {
                    assert(peers.drop_last()[i].id != id);
                }
            }
        }
    }
}

/// What a connection asks for after a command.
pub open spec fn after_command(s: PeerState, c: Command) -> PeerState {
    match c {
        Command::SubscribeVideo => PeerState { video: true, ..s },
        Command::SubscribeAudio => PeerState { audio: true, ..s },
        Command::SubscribeMetadata => PeerState { metadata: true, ..s },
        Command::Preview(on) => PeerState { preview: on, ..s },
        Command::Tally(t) => PeerState { tally: t, ..s },
        Command::Quality(q) => PeerState { quality: q, ..s },
    }
}

/// Whether metadata is for the application.
pub open spec fn is_for_application(data: Seq<u8>) -> bool {
    !is_command(data) && !is_quality_text(data) && (is_info_text(data) || !is_redirect_text(data))
}

/// The sender with another state of one connection.
pub open spec fn with_state(s: SenderView, at: int, state: PeerState) -> SenderView {
    SenderView { peers: s.peers.update(at, PeerView { state, ..s.peers[at] }), ..s }
}

/// The order of qualities.
pub open spec fn rank(q: Quality) -> int {
    match q {
        Quality::Default => 0,
        Quality::Low => 1,
        Quality::Medium => 2,
        Quality::High => 3,
    }
}

/// The highest quality that the first `n` connections with video suggest.
pub open spec fn suggested(peers: Seq<PeerView>, n: int) -> Quality
    decreases n,
{
    if n <= 0 {
        Quality::Default
    } else {
        let q = suggested(peers, n - 1);
        let p = peers[n - 1].state;
        if p.video && rank(p.quality) > rank(q) {
            p.quality
        } else {
            q
        }
    }
}

/// The profile of a sender: its own quality, or the highest suggestion among
/// video connections when that is `Default`; `Default` everywhere means
/// standard quality.
pub open spec fn profile_of(s: SenderView) -> Profile {
    let q = if s.quality != Quality::Default {
        s.quality
    } else {
        suggested(s.peers, s.peers.len() as int)
    };
    match q {
        Quality::Low => Profile::OmtLq,
        Quality::Default => Profile::OmtSq,
        Quality::Medium => Profile::OmtSq,
        Quality::High => Profile::OmtHq,
    }
}

/// Whether a connection with video wants previews.
pub open spec fn preview_wanted(peers: Seq<PeerView>, n: int) -> bool
    decreases n,
{
    n > 0 && (preview_wanted(peers, n - 1) || (peers[n - 1].state.video && peers[n - 1].state.preview))
}

/// How many connections have subscribed to video.
pub open spec fn video_count(peers: Seq<PeerView>, n: int) -> int
    decreases n,
{
    if n <= 0 {
        0
    } else {
        video_count(peers, n - 1) + if peers[n - 1].state.video {
            1int
        } else {
            0
        }
    }
}

/// Counters since the sender started.
#[derive(Clone, Copy, Debug, PartialEq, Eq, Structural)]
pub struct SenderStats {
    /// Frames queued to a connection.
    pub frames_queued: u64,
    /// Frames dropped because a connection's queue was full or the frame was
    /// too large.
    pub frames_dropped: u64,
}

impl Default for SenderStats {
    fn default() -> (r: Self)
        ensures
            r == (SenderStats { frames_queued: 0, frames_dropped: 0 }),
    {
        SenderStats { frames_queued: 0, frames_dropped: 0 }
    }
}

/// A source: its connections and its encoder.
pub struct Sender {
    quality: Quality,
    on_connect: Vec<Vec<u8>>,
    tally: Tally,
    last_id: u64,
    peers: Vec<Peer>,
    queued: u64,
    dropped: u64,
    own: Vec<String>,
    target: Option<String>,
    forwarded: Option<String>,
    video: VideoState,
}

/// Byte strings as plain values.
pub open spec fn bytes_views(v: Seq<Vec<u8>>) -> Seq<Seq<u8>> {
    Seq::new(v.len(), |i: int| v[i]@)
}

/// Texts as plain values.
pub open spec fn text_views(v: Seq<String>) -> Seq<Seq<char>> {
    Seq::new(v.len(), |i: int| v[i]@)
}

/// An optional text as a plain value.
pub open spec fn text_view(s: Option<String>) -> Option<Seq<char>> {
    match s {
        Some(t) => Some(t@),
        None => None,
    }
}

impl View for Sender {
    type V = SenderView;

    closed spec fn view(&self) -> SenderView {
        SenderView {
            quality: self.quality,
            on_connect: bytes_views(self.on_connect@),
            tally: self.tally,
            last_id: self.last_id,
            peers: peer_views(self.peers@),
            queued: self.queued,
            dropped: self.dropped,
            own: text_views(self.own@),
            target: text_view(self.target),
            forwarded: text_view(self.forwarded),
        }
    }
}

// ---------------------------------------------------------------------------
// Lemmas
// ---------------------------------------------------------------------------

/// The tally of the first connections does not depend on the others.
pub proof fn lemma_tally_same(a: Seq<PeerView>, b: Seq<PeerView>, n: int)
    requires
        n <= a.len(),
        n <= b.len(),
        forall|i: int| 0 <= i < n ==> (#[trigger] a[i]).state.tally == b[i].state.tally,
    ensures
        tally_of(a, n) == tally_of(b, n),
    decreases n,
{
    if n > 0 {
        lemma_tally_same(a, b, n - 1);
        assert(a[n - 1].state.tally == b[n - 1].state.tally);
    }
}

/// A parcel changes no state and no number, and keeps the queues within their
/// limits.
proof fn lemma_cast_one(p: PeerView, c: Cast)
    requires
        p.outbox.bounded(),
    ensures
        cast_one(p, c).id == p.id,
        cast_one(p, c).state == p.state,
        cast_one(p, c).outbox.bounded(),
{
    match item_for(c, p.state) {
        Some(item) => {
            lemma_queued(p, item, c is Metadata);
        },
        None => {},
    }
}

/// Queueing keeps the queue within its limits.
proof fn lemma_queued(p: PeerView, item: Option<Seq<u8>>, metadata: bool)
    requires
        p.outbox.bounded(),
    ensures
        queued_for(p, item, metadata).outbox.bounded(),
        queued_for(p, item, metadata).id == p.id,
        queued_for(p, item, metadata).addr == p.addr,
        queued_for(p, item, metadata).state == p.state,
{
    if queues(p, item, metadata) {
        let items = p.outbox.items;
        let more = items.push((item->0, metadata));
        assert(more.drop_last() =~= items);
    }
}

/// A parcel keeps a sender consistent, but for its tally.
proof fn lemma_cast(s: SenderView, c: Cast)
    requires
        s.consistent(),
    ensures
        s.cast(c).consistent(),
{
    let t = s.cast(c);
    let n = s.peers.len() as int;
    assert forall|i: int| 0 <= i < n implies (#[trigger] t.peers[i]).id == s.peers[i].id && t.peers[i].state
        == s.peers[i].state && t.peers[i].outbox.bounded() by {
        assert(s.peers[i].outbox.bounded());
        lemma_cast_one(s.peers[i], c);
    }
    assert forall|i: int, j: int| 0 <= i < j < n implies (#[trigger] t.peers[i]).id != (#[trigger] t.peers[j]).id by {
        assert(s.peers[i].id != s.peers[j].id);
    }
    assert forall|i: int| 0 <= i < n implies (#[trigger] t.peers[i]).id <= t.last_id by {
        assert(s.peers[i].id <= s.last_id);
    }
    lemma_tally_same(s.peers, t.peers, n);
}

/// A message keeps a new connection's queue within its limits.
proof fn lemma_greeted(p: PeerView, items: Seq<Option<Seq<u8>>>, n: int)
    requires
        p.outbox.bounded(),
        0 <= n <= items.len(),
    ensures
        greeted(p, items, n).outbox.bounded(),
        greeted(p, items, n).id == p.id,
        greeted(p, items, n).addr == p.addr,
        greeted(p, items, n).state == p.state,
    decreases n,
{
    if n > 0 {
        lemma_greeted(p, items, n - 1);
        lemma_queued(greeted(p, items, n - 1), items[n - 1], true);
    }
}

// ---------------------------------------------------------------------------
// Sender
// ---------------------------------------------------------------------------

/// Copies a text.
fn copy_text(s: &Option<String>) -> (r: Option<String>)
    ensures
        text_view(r) == text_view(*s),
{
    match s {
        Some(t) => Some(t.clone()),
        None => None,
    }
}

/// Whether two optional texts are the same.
fn same_option(a: &Option<String>, b: &Option<String>) -> (r: bool)
    ensures
        r == (text_view(*a) == text_view(*b)),
{
    match (a, b) {
        (Some(x), Some(y)) => {
            let v: Vec<char> = chars_of(x.as_str());
            let w: Vec<char> = chars_of(y.as_str());
            same_text(v.as_slice(), w.as_slice())
        },
        (None, None) => true,
        _ => false,
    }
}

/// Makes a metadata frame.
fn make_message(xml: &[u8]) -> (r: Option<Arc<Vec<u8>>>)
    ensures
        parcel_view(r) == message_parcel(xml@),
{
    let none: Vec<u8> = Vec::new();
    assert(none@ =~= Seq::empty());
    make_parcel(0, &ExtendedHeader::Absent, xml, none.as_slice())
}

/// Makes the frame of a redirect.
fn make_redirect(address: &Option<String>) -> (r: Option<Arc<Vec<u8>>>)
    ensures
        parcel_view(r) == redirect_parcel(text_view(*address)),
{
    let xml: String = match address {
        Some(a) => to_xml(a.as_str()),
        None => {
            proof {
                reveal_strlit("");
                assert(""@ =~= Seq::empty());
            }
            to_xml("")
        },
    };
    make_message(xml.as_str().as_bytes())
}

impl Sender {
    /// What holds of every sender.
    pub closed spec fn wf(&self) -> bool {
        self@.consistent() && self.video.wf()
    }

    /// The encoder that runs.
    pub closed spec fn running(&self) -> Option<Running> {
        self.video.running()
    }

    /// A sender without connections. `on_connect` is sent to every connection
    /// first; `own` are the addresses of this sender itself.
    pub fn new(quality: Quality, on_connect: Vec<Vec<u8>>, own: Vec<String>) -> (r: Sender)
        ensures
            r.wf(),
            r.running() is None,
            r@ == (SenderView {
                quality,
                on_connect: bytes_views(on_connect@),
                tally: Tally { preview: false, program: false },
                last_id: 0,
                peers: Seq::empty(),
                queued: 0,
                dropped: 0,
                own: text_views(own@),
                target: None,
                forwarded: None,
            }),
    {
        let r: Sender = Sender {
            quality,
            on_connect,
            tally: Tally { preview: false, program: false },
            last_id: 0,
            peers: Vec::new(),
            queued: 0,
            dropped: 0,
            own,
            target: None,
            forwarded: None,
            video: VideoState::new(),
        };
        assert(r@.peers =~= Seq::empty());
        r
    }

    /// Open connections.
    pub fn connections(&self) -> (r: usize)
        ensures
            r == self@.peers.len(),
    {
        self.peers.len()
    }

    /// Connections currently subscribed to video.
    pub fn video_receivers(&self) -> (r: usize)
        ensures
            r == video_count(self@.peers, self@.peers.len() as int),
    {
        let mut n: usize = 0;
        let mut i: usize = 0;
        while i < self.peers.len()
            invariant
                i <= self.peers@.len(),
                n <= i,
                n == video_count(peer_views(self.peers@), i as int),
            decreases self.peers@.len() - i,
        {
            assert(peer_views(self.peers@)[i as int] == self.peers@[i as int]@);
            if self.peers[i].state.video {
                n = n + 1;
            }
            i = i + 1;
        }
        n
    }

    /// Combined tally of all receivers.
    pub fn tally(&self) -> (r: Tally)
        requires
            self.wf(),
        ensures
            r == self@.tally,
            r == tally_of(self@.peers, self@.peers.len() as int),
    {
        self.tally
    }

    /// Frame counters.
    pub fn stats(&self) -> (r: SenderStats)
        ensures
            r.frames_queued == self@.queued,
            r.frames_dropped == self@.dropped,
    {
        SenderStats { frames_queued: self.queued, frames_dropped: self.dropped }
    }

    /// Where receivers are redirected now.
    pub fn redirect(&self) -> (r: Option<String>)
        ensures
            text_view(r) == self@.redirect(),
    {
        match &self.forwarded {
            Some(f) => Some(f.clone()),
            None => copy_text(&self.target),
        }
    }

    /// Queues a parcel for every connection that asked for it. Returns for how
    /// many.
    fn broadcast(&mut self, parcel: &Parcel) -> (r: usize)
        requires
            old(self)@.consistent(),
        ensures
            final(self)@ == old(self)@.cast(parcel@),
            final(self)@.consistent(),
            final(self).video == old(self).video,
            r == cast_count(old(self)@.peers, parcel@, old(self)@.peers.len() as int, true),
    {
        let ghost s = self@;
        let ghost c = parcel@;
        let total: usize = self.peers.len();
        let metadata: bool = match parcel {
            Parcel::Metadata(_) => true,
            _ => false,
        };
        let mut ok: usize = 0;
        let mut i: usize = 0;
        assert(self@.peers =~= cast_peers(s.peers, c, 0));
        while i < total
            invariant
                i <= total,
                total == s.peers.len(),
                self.peers@.len() == total,
                s.consistent(),
                c == parcel@,
                metadata == (c is Metadata),
                ok <= i,
                ok == cast_count(s.peers, c, i as int, true),
                cast_count(s.peers, c, i as int, false) >= 0,
                self@.peers == cast_peers(s.peers, c, i as int),
                self@ == (SenderView {
                    peers: cast_peers(s.peers, c, i as int),
                    queued: counted(s.queued, cast_count(s.peers, c, i as int, true)),
                    dropped: counted(s.dropped, cast_count(s.peers, c, i as int, false)),
                    ..s
                }),
                self.video == old(self).video,
            decreases total - i,
        {
            let ghost before = self@;
            proof {
                assert(before.peers[i as int] == s.peers[i as int]);
                assert(before.peers[i as int] == self.peers@[i as int]@);
                assert(s.peers[i as int].outbox.bounded());
            }
            let st: PeerState = self.peers[i].state;
            let item: Option<&Option<Arc<Vec<u8>>>> = match parcel {
                Parcel::Video(v) => if st.video {
                    match &v.preview {
                        Some(p) => if st.preview {
                            Some(p)
                        } else {
                            Some(&v.full)
                        },
                        None => Some(&v.full),
                    }
                } else {
                    None
                },
                Parcel::Audio(a) => if st.audio {
                    Some(a)
                } else {
                    None
                },
                Parcel::Metadata(m) => if st.metadata {
                    Some(m)
                } else {
                    None
                },
            };
            match item {
                Some(slot) => {
                    assert(item_for(c, s.peers[i as int].state) == Some(parcel_view(*slot)));
                    let done: bool = self.queue_at(i, slot, metadata);
                    if done {
                        ok = ok + 1;
                    }
                },
                None => {
                    assert(item_for(c, s.peers[i as int].state) is None);
                },
            }
            proof {
                assert(self@.peers =~= cast_peers(s.peers, c, i + 1));
            }
            i = i + 1;
        }
        proof {
            lemma_cast(s, c);
        }
        ok
    }

    /// Queues an item for the connection at a place, if it can be.
    fn queue_at(&mut self, i: usize, slot: &Option<Arc<Vec<u8>>>, metadata: bool) -> (r: bool)
        requires
            i < old(self)@.peers.len(),
            old(self)@.peers[i as int].outbox.bounded(),
        ensures
            r == queues(old(self)@.peers[i as int], parcel_view(*slot), metadata),
            final(self)@ == (SenderView {
                peers: old(self)@.peers.update(
                    i as int,
                    queued_for(old(self)@.peers[i as int], parcel_view(*slot), metadata),
                ),
                queued: if r {
                    counted(old(self)@.queued, 1)
                } else {
                    old(self)@.queued
                },
                dropped: if r {
                    old(self)@.dropped
                } else {
                    counted(old(self)@.dropped, 1)
                },
                ..old(self)@
            }),
            final(self).video == old(self).video,
    {
        let ghost s = self@;
        let ghost p = s.peers[i as int];
        assert(p == self.peers@[i as int]@);
        let done: bool = match slot {
            Some(b) => {
                let bytes: Arc<Vec<u8>> = b.clone();
                self.peers[i].outbox.push(bytes, metadata)
            },
            None => false,
        };
        if done {
            self.queued = count_one(self.queued);
        } else {
            self.dropped = count_one(self.dropped);
        }
        assert(self@.peers =~= s.peers.update(i as int, queued_for(p, parcel_view(*slot), metadata)));
        done
    }

    /// Recomputes the combined tally and broadcasts it if it changed.
    fn update_tally(&mut self)
        requires
            (SenderView {
                tally: tally_of(old(self)@.peers, old(self)@.peers.len() as int),
                ..old(self)@
            }).consistent(),
        ensures
            final(self)@ == old(self)@.tallied(),
            final(self)@.consistent(),
            final(self).video == old(self).video,
    {
        let ghost s = self@;
        let mut t: Tally = Tally { preview: false, program: false };
        let mut i: usize = 0;
        while i < self.peers.len()
            invariant
                i <= self.peers@.len(),
                s == self@,
                t == tally_of(s.peers, i as int),
            decreases self.peers@.len() - i,
        {
            assert(s.peers[i as int] == self.peers@[i as int]@);
            t = t.union(self.peers[i].state.tally);
            i = i + 1;
        }
        if t != self.tally {
            self.tally = t;
            let m: Option<Arc<Vec<u8>>> = make_message(Command::Tally(t).as_bytes());
            let _ = self.broadcast(&Parcel::Metadata(m));
        }
    }

    /// Queues a message for a new connection.
    fn greet(&mut self, p: &mut Peer, slot: &Option<Arc<Vec<u8>>>)
        requires
            old(p)@.outbox.bounded(),
        ensures
            final(p)@ == queued_for(old(p)@, parcel_view(*slot), true),
            final(p)@.outbox.bounded(),
            final(self).video == old(self).video,
            final(self)@ == (SenderView {
                queued: if queues(old(p)@, parcel_view(*slot), true) {
                    counted(old(self)@.queued, 1)
                } else {
                    old(self)@.queued
                },
                dropped: if queues(old(p)@, parcel_view(*slot), true) {
                    old(self)@.dropped
                } else {
                    counted(old(self)@.dropped, 1)
                },
                ..old(self)@
            }),
    {
        let done: bool = match slot {
            Some(b) => {
                let bytes: Arc<Vec<u8>> = b.clone();
                p.outbox.push(bytes, true)
            },
            None => false,
        };
        if done {
            self.queued = count_one(self.queued);
        } else {
            self.dropped = count_one(self.dropped);
        }
    }

    /// A receiver connected from an address. Returns the number of the
    /// connection. Sender info, connection metadata, the combined tally and
    /// the redirect are queued for it, whatever it later subscribes to.
    pub fn connect(&mut self, addr: SocketAddr) -> (r: u64)
        requires
            old(self).wf(),
            old(self)@.last_id < u64::MAX,
        ensures
            final(self).wf(),
            final(self).running() == old(self).running(),
            r == old(self)@.last_id + 1,
            final(self)@ == connected(old(self)@, addr),
    {
        let ghost s = self@;
        let id: u64 = self.last_id + 1;
        self.last_id = id;
        let mut p: Peer = Peer { id, addr, state: PeerState::default(), outbox: Outbox::new() };
        let ghost p0 = p@;
        let ghost items = greeting(s);
        let ghost total = s.on_connect.len() as int;
        let mut i: usize = 0;
        while i < self.on_connect.len()
            invariant
                i <= self.on_connect@.len(),
                self.on_connect@.len() == total,
                total == s.on_connect.len(),
                items == greeting(s),
                p0.outbox.bounded(),
                p@.outbox.bounded(),
                p@ == greeted(p0, items, i as int),
                greeted_count(p0, items, i as int, true) >= 0,
                greeted_count(p0, items, i as int, false) >= 0,
                self@ == (SenderView {
                    last_id: id,
                    queued: counted(s.queued, greeted_count(p0, items, i as int, true)),
                    dropped: counted(s.dropped, greeted_count(p0, items, i as int, false)),
                    ..s
                }),
                self.video == old(self).video,
            decreases self.on_connect@.len() - i,
        {
            let m: Option<Arc<Vec<u8>>> = make_message(self.on_connect[i].as_slice());
            proof {
                assert(self@.on_connect[i as int] == self.on_connect@[i as int]@);
                assert(items[i as int] == parcel_view(m));
            }
            self.greet(&mut p, &m);
            i = i + 1;
        }
        let m: Option<Arc<Vec<u8>>> = make_message(Command::Tally(self.tally).as_bytes());
        assert(items[total] == parcel_view(m));
        self.greet(&mut p, &m);
        proof {
            assert(p@ == greeted(p0, items, total + 1));
            assert(self@.queued == counted(s.queued, greeted_count(p0, items, total + 1, true)));
            assert(self@.dropped == counted(s.dropped, greeted_count(p0, items, total + 1, false)));
            assert(self@.redirect() == s.redirect());
        }
        let to: Option<String> = self.redirect();
        if to.is_some() {
            let m: Option<Arc<Vec<u8>>> = make_redirect(&to);
            assert(items[total + 1] == parcel_view(m));
            self.greet(&mut p, &m);
            proof {
                assert(p@ == greeted(p0, items, total + 2));
                assert(self@.queued == counted(s.queued, greeted_count(p0, items, total + 2, true)));
                assert(self@.dropped == counted(s.dropped, greeted_count(p0, items, total + 2, false)));
            }
        }
        proof {
            lemma_greeted(p0, items, items.len() as int);
        }
        let ghost before = self.peers@;
        let ghost pv = p@;
        self.peers.push(p);
        proof {
            assert(self@.peers =~= s.peers.push(pv));
            let t = self@;
            assert(t =~= connected(s, addr));
            assert forall|i: int, j: int| 0 <= i < j < t.peers.len() implies (#[trigger] t.peers[i]).id != (
            #[trigger] t.peers[j]).id by {
                assert(t.peers[i] == s.peers[i]);
                if j < s.peers.len() {
                    assert(t.peers[j] == s.peers[j]);
                }
            }
            assert forall|i: int| 0 <= i < t.peers.len() implies (#[trigger] t.peers[i]).id <= t.last_id
                && t.peers[i].outbox.bounded() by {
                if i < s.peers.len() {
                    assert(t.peers[i] == s.peers[i]);
                }
            }
            lemma_tally_same(s.peers, t.peers, s.peers.len() as int);
        }
        id
    }

    /// The place of a connection.
    fn place(&self, id: u64) -> (r: Option<usize>)
        ensures
            match r {
                Some(i) => peer_at(self@.peers, id) == Some(i as int) && i < self@.peers.len(),
                None => peer_at(self@.peers, id) is None,
            },
    {
        let ghost all = self@.peers;
        let mut n: usize = self.peers.len();
        assert(all.take(n as int) =~= all);
        while n > 0
            invariant
                n <= self.peers@.len(),
                all == peer_views(self.peers@),
                peer_at(all, id) == peer_at(all.take(n as int), id),
            decreases n,
        {
            proof {
                assert(all.take(n as int).drop_last() =~= all.take(n - 1));
                assert(all[n - 1] == self.peers@[n - 1]@);
            }
            if self.peers[n - 1].id == id {
                return Some(n - 1);
            }
            n = n - 1;
        }
        None
    }

    /// A metadata payload from a connection. Returns what is for the
    /// application, and where it came from. A payload from a connection that
    /// is not open does nothing.
    pub fn handle_metadata(&mut self, id: u64, data: &[u8]) -> (r: Option<(SocketAddr, Vec<u8>)>)
        requires
            old(self).wf(),
        ensures
            final(self).wf(),
            final(self).running() == old(self).running(),
            match peer_at(old(self)@.peers, id) {
                None => r is None && final(self)@ == old(self)@,
                Some(at) => {
                    &&& forall|c: Command|
                        data@ == #[trigger] command_bytes(c) ==> r is None && final(self)@ == with_state(
                            old(self)@,
                            at,
                            after_command(old(self)@.peers[at].state, c),
                        ).tallied()
                    &&& !is_command(data@) ==> final(self)@ == old(self)@
                    &&& !is_command(data@) ==> match r {
                        Some(m) => is_for_application(data@) && m.0 == old(self)@.peers[at].addr && m.1@ == data@,
                        None => !is_for_application(data@),
                    }
                },
            },
    {
        let ghost s = self@;
        let at: usize = match self.place(id) {
            Some(i) => i,
            None => {
                return None;
            },
        };
        let ghost all = self.peers@;
        proof {
            lemma_peer_at(s.peers, id);
            assert(s.peers[at as int] == self.peers@[at as int]@);
        }
        match classify(data) {
            Message::Command(c) => {
                let old_state: PeerState = self.peers[at].state;
                let new_state: PeerState = match c {
                    Command::SubscribeVideo => PeerState { video: true, ..old_state },
                    Command::SubscribeAudio => PeerState { audio: true, ..old_state },
                    Command::SubscribeMetadata => PeerState { metadata: true, ..old_state },
                    Command::Preview(on) => PeerState { preview: on, ..old_state },
                    Command::Tally(t) => PeerState { tally: t, ..old_state },
                    Command::Quality(q) => PeerState { quality: q, ..old_state },
                };
                self.peers[at].state = new_state;
                proof {
                    let t = self@;
                    assert(t.peers =~= s.peers.update(at as int, PeerView { state: new_state, ..s.peers[at as int] }));
                    assert(t =~= with_state(s, at as int, new_state));
                    assert forall|i: int| 0 <= i < t.peers.len() implies (#[trigger] t.peers[i]).id == s.peers[i].id
                        && t.peers[i].outbox == s.peers[i].outbox by {}
                    assert forall|i: int, j: int| 0 <= i < j < t.peers.len() implies (#[trigger] t.peers[i]).id != (
                    #[trigger] t.peers[j]).id by {
                        assert(s.peers[i].id != s.peers[j].id);
                    }
                    assert forall|i: int| 0 <= i < t.peers.len() implies (#[trigger] t.peers[i]).id <= t.last_id
                        && t.peers[i].outbox.bounded() by {
                        assert(s.peers[i].id <= s.last_id);
                    }
                    assert forall|d: Command| data@ == #[trigger] command_bytes(d) implies d == c by {
                        law_commands_differ(c, d);
                    }
                }
                self.update_tally();
                None
            },
            Message::SenderInfo(x) => {
                let mut v: Vec<u8> = Vec::new();
                v.extend_from_slice(x);
                assert(v@ =~= data@);
                Some((self.peers[at].addr, v))
            },
            Message::Application(x) => {
                let mut v: Vec<u8> = Vec::new();
                v.extend_from_slice(x);
                assert(v@ =~= data@);
                Some((self.peers[at].addr, v))
            },
            _ => None,
        }
    }

    /// A connection ended.
    pub fn remove(&mut self, id: u64)
        requires
            old(self).wf(),
        ensures
            final(self).wf(),
            final(self).running() == old(self).running(),
            match peer_at(old(self)@.peers, id) {
                None => final(self)@ == old(self)@,
                Some(at) => {
                    &&& final(self)@ == (SenderView { peers: old(self)@.peers.remove(at), ..old(self)@ }).tallied()
                    &&& peer_at(old(self)@.peers.remove(at), id) is None
                },
            },
    {
        let ghost s = self@;
        let at: usize = match self.place(id) {
            Some(i) => i,
            None => {
                return;
            },
        };
        let ghost all = self.peers@;
        let _ = self.peers.remove(at);
        proof {
            let t = self@;
            assert(t.peers =~= s.peers.remove(at as int));
            lemma_peer_at(s.peers, id);
            lemma_peer_at(t.peers, id);
            assert forall|i: int| 0 <= i < t.peers.len() implies #[trigger] t.peers[i] == s.peers[if i < at {
                i
            } else {
                i + 1
            }] by {}
            assert forall|i: int, j: int| 0 <= i < j < t.peers.len() implies (#[trigger] t.peers[i]).id != (
            #[trigger] t.peers[j]).id by {
                let x = if i < at { i } else { i + 1 };
                let y = if j < at { j } else { j + 1 };
                assert(s.peers[x].id != s.peers[y].id);
            }
            assert forall|i: int| 0 <= i < t.peers.len() implies (#[trigger] t.peers[i]).id <= t.last_id
                && t.peers[i].outbox.bounded() && t.peers[i].id != id by {
                let x = if i < at { i } else { i + 1 };
                assert(s.peers[x].id <= s.last_id && s.peers[x].outbox.bounded());
                if x < at {
                    assert(s.peers[x].id != s.peers[at as int].id);
                } else {
                    assert(s.peers[at as int].id != s.peers[x].id);
                }
            }
        }
        self.update_tally();
    }

    /// The next bytes to write to a connection, if there are any.
    pub fn next_write(&mut self, id: u64) -> (r: Option<(Arc<Vec<u8>>, bool)>)
        requires
            old(self).wf(),
        ensures
            final(self).wf(),
            final(self).running() == old(self).running(),
            match peer_at(old(self)@.peers, id) {
                None => r is None && final(self)@ == old(self)@,
                Some(at) => {
                    let q = old(self)@.peers[at].outbox;
                    match r {
                        Some(item) => {
                            &&& !q.closed && q.items.len() > 0
                            &&& (item.0@, item.1) == q.items[0]
                            &&& final(self)@ == with_outbox(
                                old(self)@,
                                at,
                                OutboxView { items: q.items.skip(1), ..q },
                            )
                        },
                        None => (q.closed || q.items.len() == 0) && final(self)@ == old(self)@,
                    }
                },
            },
    {
        let ghost s = self@;
        let at: usize = match self.place(id) {
            Some(i) => i,
            None => {
                return None;
            },
        };
        proof {
            lemma_peer_at(s.peers, id);
            assert(s.peers[at as int] == self.peers@[at as int]@);
            assert(s.peers[at as int].outbox.bounded());
        }
        let r: Option<(Arc<Vec<u8>>, bool)> = self.peers[at].outbox.pop();
        proof {
            let q = self.peers@[at as int].outbox@;
            assert(self@.peers =~= s.peers.update(at as int, PeerView { outbox: q, ..s.peers[at as int] }));
            assert(self@ =~= with_outbox(s, at as int, q));
            if r is None {
                assert(self@.peers =~= s.peers);
            }
            lemma_with_outbox(s, at as int, q);
        }
        r
    }

    /// What [`Sender::next_write`] gave has been written.
    pub fn written(&mut self, id: u64, metadata: bool)
        requires
            old(self).wf(),
            peer_at(old(self)@.peers, id) matches Some(at) ==> old(self)@.peers[at].outbox.in_flight(metadata) > 0,
        ensures
            final(self).wf(),
            final(self).running() == old(self).running(),
            match peer_at(old(self)@.peers, id) {
                None => final(self)@ == old(self)@,
                Some(at) => {
                    let q = old(self)@.peers[at].outbox;
                    final(self)@ == with_outbox(
                        old(self)@,
                        at,
                        if metadata {
                            OutboxView { metadata: q.metadata - 1, ..q }
                        } else {
                            OutboxView { av: q.av - 1, ..q }
                        },
                    )
                },
            },
    {
        let ghost s = self@;
        let at: usize = match self.place(id) {
            Some(i) => i,
            None => {
                return;
            },
        };
        proof {
            lemma_peer_at(s.peers, id);
            assert(s.peers[at as int] == self.peers@[at as int]@);
            assert(s.peers[at as int].outbox.bounded());
        }
        self.peers[at].outbox.done(metadata);
        proof {
            let q = self.peers@[at as int].outbox@;
            assert(self@.peers =~= s.peers.update(at as int, PeerView { outbox: q, ..s.peers[at as int] }));
            assert(self@ =~= with_outbox(s, at as int, q));
            lemma_with_outbox(s, at as int, q);
        }
    }

    /// The profile to encode with.
    fn profile(&self) -> (r: Profile)
        ensures
            r == profile_of(self@),
    {
        let ghost all = self@.peers;
        let mut q: Quality = self.quality;
        if q == Quality::Default {
            let mut i: usize = 0;
            while i < self.peers.len()
                invariant
                    i <= self.peers@.len(),
                    all == peer_views(self.peers@),
                    q == suggested(all, i as int),
                decreases self.peers@.len() - i,
            {
                assert(all[i as int] == self.peers@[i as int]@);
                let st: PeerState = self.peers[i].state;
                if st.video && rank_of(st.quality) > rank_of(q) {
                    q = st.quality;
                }
                i = i + 1;
            }
        }
        match q {
            Quality::Low => Profile::OmtLq,
            Quality::Default => Profile::OmtSq,
            Quality::Medium => Profile::OmtSq,
            Quality::High => Profile::OmtHq,
        }
    }

    /// Whether a connection with video wants previews.
    fn wants_preview(&self) -> (r: bool)
        ensures
            r == preview_wanted(self@.peers, self@.peers.len() as int),
    {
        let ghost all = self@.peers;
        let mut w: bool = false;
        let mut i: usize = 0;
        while i < self.peers.len()
            invariant
                i <= self.peers@.len(),
                all == peer_views(self.peers@),
                w == preview_wanted(all, i as int),
            decreases self.peers@.len() - i,
        {
            assert(all[i as int] == self.peers@[i as int]@);
            if self.peers[i].state.video && self.peers[i].state.preview {
                w = true;
            }
            i = i + 1;
        }
        w
    }

    /// Encodes `frame` and queues it for every video subscriber. `metadata` is
    /// per-frame XML (with a trailing NUL if receivers expect one). Returns the
    /// number of connections it was queued for.
    pub fn send_video(&mut self, frame: &Frame, params: &VideoParams, timestamp: i64, metadata: &[u8]) -> (r: Result<
        usize,
        Error,
    >)
        requires
            old(self).wf(),
            metadata@.len() <= 65535,
        ensures
            final(self).wf(),
            exists|p: Result<VideoParcelView, Error>|
                {
                    &&& #[trigger] produces(
                        old(self).running(),
                        profile_of(old(self)@),
                        *frame,
                        *params,
                        timestamp,
                        metadata@,
                        preview_wanted(old(self)@.peers, old(self)@.peers.len() as int),
                        final(self).running(),
                        p,
                    )
                    &&& match p {
                        Ok(v) => {
                            &&& final(self)@ == old(self)@.cast(Cast::Video(v))
                            &&& r is Ok
                            &&& r->Ok_0 == cast_count(
                                old(self)@.peers,
                                Cast::Video(v),
                                old(self)@.peers.len() as int,
                                true,
                            )
                        },
                        Err(e) => final(self)@ == old(self)@ && r == Err::<usize, Error>(e),
                    }
                },
    {
        let profile: Profile = self.profile();
        let wants: bool = self.wants_preview();
        let made: Result<VideoParcel, Error> = self.video.produce(
            profile,
            frame,
            params,
            timestamp,
            metadata,
            wants,
        );
        let ghost p = produced(made);
        assert(produces(
            old(self).running(),
            profile_of(old(self)@),
            *frame,
            *params,
            timestamp,
            metadata@,
            preview_wanted(old(self)@.peers, old(self)@.peers.len() as int),
            self.running(),
            p,
        ));
        match made {
            Err(e) => Err(e),
            Ok(v) => {
                let n: usize = self.broadcast(&Parcel::Video(v));
                Ok(n)
            },
        }
    }

    /// Queues planar 32-bit float audio for every audio subscriber: `samples`
    /// holds the bits of `channels` planes of `samples.len() / channels`
    /// samples each. Returns the number of connections it was queued for.
    pub fn send_audio(
        &mut self,
        samples: &[u32],
        channels: usize,
        sample_rate: i32,
        timestamp: i64,
        metadata: &[u8],
    ) -> (r: usize)
        requires
            old(self).wf(),
            1 <= channels <= 32,
            samples@.len() % channels as nat == 0,
            samples@.len() <= i32::MAX,
            metadata@.len() <= 65535,
        ensures
            final(self).wf(),
            final(self).running() == old(self).running(),
            ({
                let n = channels as int;
                let spc = samples@.len() as int / n;
                let c = Cast::Audio(
                    parcel_of(
                        timestamp,
                        ExtendedHeader::Audio(
                            audio_header(n, spc, sample_rate, active_mask(samples@, spc, n)),
                        ),
                        packed(samples@, spc, n),
                        metadata@,
                    ),
                );
                &&& final(self)@ == old(self)@.cast(c)
                &&& r == cast_count(old(self)@.peers, c, old(self)@.peers.len() as int, true)
            }),
    {
        let (active, data): (u32, Vec<u8>) = pack_audio(samples, channels);
        let spc: usize = samples.len() / channels;
        proof {
            assert(spc <= samples@.len()) by (nonlinear_arith)
                requires
                    spc == samples@.len() / channels as nat,
                    channels >= 1,
            ;
        }
        let header = crate::frame::AudioHeader {
            codec: crate::frame::CODEC_FPA1,
            sample_rate,
            samples_per_channel: spc as i32,
            channels: channels as i32,
            active_channels: active,
            reserved: 0,
        };
        let m: Option<Arc<Vec<u8>>> = make_parcel(
            timestamp,
            &ExtendedHeader::Audio(header),
            data.as_slice(),
            metadata,
        );
        self.broadcast(&Parcel::Audio(m))
    }

    /// Queues application metadata for every connection that subscribed to
    /// metadata. Returns the number of connections it was queued for.
    pub fn send_metadata(&mut self, xml: &[u8], timestamp: i64) -> (r: usize)
        requires
            old(self).wf(),
        ensures
            final(self).wf(),
            final(self).running() == old(self).running(),
            ({
                let c = Cast::Metadata(parcel_of(timestamp, ExtendedHeader::Absent, xml@, Seq::empty()));
                &&& final(self)@ == old(self)@.cast(c)
                &&& r == cast_count(old(self)@.peers, c, old(self)@.peers.len() as int, true)
            }),
    {
        let none: Vec<u8> = Vec::new();
        assert(none@ =~= Seq::empty());
        let m: Option<Arc<Vec<u8>>> = make_parcel(timestamp, &ExtendedHeader::Absent, xml, none.as_slice());
        self.broadcast(&Parcel::Metadata(m))
    }

    /// Whether an address is one of this sender itself.
    fn is_own(&self, address: &str) -> (r: bool)
        ensures
            r == self@.own.contains(address@),
    {
        let wanted: Vec<char> = chars_of(address);
        let mut i: usize = 0;
        while i < self.own.len()
            invariant
                i <= self.own@.len(),
                wanted@ == address@,
                forall|k: int| 0 <= k < i ==> #[trigger] text_views(self.own@)[k] != address@,
            decreases self.own@.len() - i,
        {
            let v: Vec<char> = chars_of(self.own[i].as_str());
            assert(text_views(self.own@)[i as int] == v@);
            if same_text(v.as_slice(), wanted.as_slice()) {
                return true;
            }
            i = i + 1;
        }
        false
    }

    /// An address to redirect to: none for the empty one and for this sender
    /// itself.
    fn redirect_target(&self, address: Option<&str>) -> (r: Option<String>)
        ensures
            text_view(r) == usable_target(
                self@.own,
                match address {
                    Some(a) => Some(a@),
                    None => None,
                },
            ),
    {
        match address {
            Some(a) => {
                let v: Vec<char> = chars_of(a);
                if v.len() == 0 || self.is_own(a) {
                    assert(v@.len() == 0 ==> a@ =~= Seq::empty());
                    None
                } else {
                    Some(a.to_string())
                }
            },
            None => None,
        }
    }

    /// Redirects receivers to another address, or no longer. Redirecting to
    /// this sender itself is no redirect.
    pub fn set_redirect(&mut self, address: Option<&str>)
        requires
            old(self).wf(),
        ensures
            final(self).wf(),
            final(self).running() == old(self).running(),
            final(self)@ == (SenderView {
                target: usable_target(
                    old(self)@.own,
                    match address {
                        Some(a) => Some(a@),
                        None => None,
                    },
                ),
                forwarded: None,
                ..old(self)@
            }).redirected_from(old(self)@.redirect()),
    {
        let before: Option<String> = self.redirect();
        self.target = self.redirect_target(address);
        self.forwarded = None;
        self.announce_redirect(&before);
    }

    /// The source that receivers are redirected to redirects them in turn, or
    /// no longer: chains are resolved here.
    pub fn target_redirected(&mut self, address: &str)
        requires
            old(self).wf(),
        ensures
            final(self).wf(),
            final(self).running() == old(self).running(),
            final(self)@ == (if old(self)@.target is Some {
                (SenderView { forwarded: usable_target(old(self)@.own, Some(address@)), ..old(self)@ }).redirected_from(
                    old(self)@.redirect(),
                )
            } else {
                old(self)@
            }),
    {
        if self.target.is_none() {
            return;
        }
        let before: Option<String> = self.redirect();
        self.forwarded = self.redirect_target(Some(address));
        self.announce_redirect(&before);
    }

    /// Tells the metadata connections of a new redirect.
    fn announce_redirect(&mut self, before: &Option<String>)
        requires
            old(self).wf(),
        ensures
            final(self).wf(),
            final(self).video == old(self).video,
            final(self)@ == old(self)@.redirected_from(text_view(*before)),
    {
        let now: Option<String> = self.redirect();
        if !same_option(&now, before) {
            let m: Option<Arc<Vec<u8>>> = make_redirect(&now);
            let _ = self.broadcast(&Parcel::Metadata(m));
        }
    }
}

/// An address to redirect to.
pub open spec fn usable_target(own: Seq<Seq<char>>, address: Option<Seq<char>>) -> Option<Seq<char>> {
    match address {
        Some(a) => if a.len() == 0 || own.contains(a) {
            None
        } else {
            Some(a)
        },
        None => None,
    }
}

/// The sender with another queue of one connection.
pub open spec fn with_outbox(s: SenderView, at: int, q: OutboxView) -> SenderView {
    SenderView { peers: s.peers.update(at, PeerView { outbox: q, ..s.peers[at] }), ..s }
}

/// Another queue within its limits keeps a sender consistent.
proof fn lemma_with_outbox(s: SenderView, at: int, q: OutboxView)
    requires
        s.consistent(),
        0 <= at < s.peers.len(),
        q.bounded(),
    ensures
        with_outbox(s, at, q).consistent(),
{
    let t = with_outbox(s, at, q);
    assert forall|i: int| 0 <= i < t.peers.len() implies (#[trigger] t.peers[i]).id == s.peers[i].id
        && t.peers[i].state == s.peers[i].state && t.peers[i].outbox.bounded() && t.peers[i].id <= t.last_id by {
        assert(s.peers[i].outbox.bounded() && s.peers[i].id <= s.last_id);
    }
    assert forall|i: int, j: int| 0 <= i < j < t.peers.len() implies (#[trigger] t.peers[i]).id != (
    #[trigger] t.peers[j]).id by {
        assert(s.peers[i].id != s.peers[j].id);
    }
    lemma_tally_same(s.peers, t.peers, s.peers.len() as int);
}

/// The order of a quality.
fn rank_of(q: Quality) -> (r: u8)
    ensures
        r == rank(q),
{
    match q {
        Quality::Default => 0,
        Quality::Low => 1,
        Quality::Medium => 2,
        Quality::High => 3,
    }
}

} // verus!
