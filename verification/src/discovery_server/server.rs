//! The server's side: connections, the sources they registered, and what is
//! sent to whom.

use crate::command::{
    classify, command_bytes, is_command, is_info_text, is_quality_text, is_redirect_text, Command, Message, Tally,
};
use crate::discovery_server::message::{
    address_frame, law_addresses_kept, message_bytes, message_frame, message_in, payload_frame, push_payload,
    with_address, AddressMessage, MessageView,
};
use crate::discovery_server::round_trip::{lemma_message_is_plain, readable};
use crate::ip::SocketAddr;
use crate::text::{chars_of, same_text};
use vstd::prelude::*;

verus! {

/// Something the server did, for logging.
#[derive(Clone, Debug, PartialEq, Eq)]
pub enum ServerEvent {
    /// A client connected.
    Connected(SocketAddr),
    /// A client disconnected; its sources have been removed.
    Disconnected(SocketAddr),
    /// A source was added, by the client at the given address.
    Added(SocketAddr, AddressMessage),
    /// A source was removed, by or on behalf of the client at the given
    /// address.
    Removed(SocketAddr, AddressMessage),
}

/// An event as plain values.
#[verifier::ext_equal]
pub enum ServerEventView {
    /// A client connected.
    Connected(SocketAddr),
    /// A client disconnected.
    Disconnected(SocketAddr),
    /// A source was added.
    Added(SocketAddr, MessageView),
    /// A source was removed.
    Removed(SocketAddr, MessageView),
}

impl View for ServerEvent {
    type V = ServerEventView;

    open spec fn view(&self) -> ServerEventView {
        match self {
            ServerEvent::Connected(a) => ServerEventView::Connected(*a),
            ServerEvent::Disconnected(a) => ServerEventView::Disconnected(*a),
            ServerEvent::Added(a, m) => ServerEventView::Added(*a, m@),
            ServerEvent::Removed(a, m) => ServerEventView::Removed(*a, m@),
        }
    }
}

/// A connection.
#[derive(Clone, Copy, Debug, PartialEq, Eq, Structural)]
pub struct Peer {
    /// Its number.
    pub id: u64,
    /// Where it came from.
    pub addr: SocketAddr,
    /// Whether it has subscribed to metadata.
    pub metadata: bool,
}

/// A source the server knows about.
#[derive(Clone, Debug, PartialEq, Eq)]
pub struct ServerEntry {
    /// The source, with the registering connection's address.
    pub address: AddressMessage,
    /// The connection that registered it.
    pub from: SocketAddr,
}

/// A source as the server keeps it, with the number of its connection.
#[derive(Clone, Debug, PartialEq, Eq)]
pub struct Registration {
    /// The source, with the registering connection's address.
    pub address: AddressMessage,
    /// The connection that registered it.
    pub peer: u64,
    /// Where that connection came from.
    pub from: SocketAddr,
}

/// An entry as plain values.
#[verifier::ext_equal]
pub struct EntryView {
    /// The source.
    pub address: MessageView,
    /// The connection.
    pub peer: u64,
    /// Where it came from.
    pub from: SocketAddr,
}

impl View for Registration {
    type V = EntryView;

    open spec fn view(&self) -> EntryView {
        EntryView { address: self.address@, peer: self.peer, from: self.from }
    }
}

/// Bytes for a connection.
#[derive(Clone, Debug, PartialEq, Eq)]
pub struct Delivery {
    /// The connection.
    pub peer: u64,
    /// What to write.
    pub bytes: Vec<u8>,
}

/// A delivery as plain values.
#[verifier::ext_equal]
pub struct DeliveryView {
    /// The connection.
    pub peer: u64,
    /// What to write.
    pub bytes: Seq<u8>,
}

impl View for Delivery {
    type V = DeliveryView;

    open spec fn view(&self) -> DeliveryView {
        DeliveryView { peer: self.peer, bytes: self.bytes@ }
    }
}

/// What is to be done: bytes to write, in order, and events to report.
#[derive(Clone, Debug, PartialEq, Eq)]
pub struct Outcome {
    /// Writes, in order.
    pub sends: Vec<Delivery>,
    /// Events, in order.
    pub events: Vec<ServerEvent>,
}

/// What is to be done, as plain values.
#[verifier::ext_equal]
pub struct OutcomeView {
    /// Writes, in order.
    pub sends: Seq<DeliveryView>,
    /// Events, in order.
    pub events: Seq<ServerEventView>,
}

impl View for Outcome {
    type V = OutcomeView;

    open spec fn view(&self) -> OutcomeView {
        OutcomeView {
            sends: Seq::new(self.sends@.len(), |i: int| self.sends@[i]@),
            events: Seq::new(self.events@.len(), |i: int| self.events@[i]@),
        }
    }
}

/// Nothing to do.
pub open spec fn nothing() -> OutcomeView {
    OutcomeView { sends: Seq::empty(), events: Seq::empty() }
}

/// What a server holds.
#[verifier::ext_equal]
pub struct ServerView {
    /// The number of the last connection.
    pub last_id: u64,
    /// The open connections.
    pub peers: Seq<Peer>,
    /// The registered sources.
    pub entries: Seq<EntryView>,
}

/// The state of a discovery server.
pub struct Server {
    last_id: u64,
    peers: Vec<Peer>,
    entries: Vec<Registration>,
}

/// Entries as plain values.
pub open spec fn entry_views(v: Seq<Registration>) -> Seq<EntryView> {
    Seq::new(v.len(), |i: int| v[i]@)
}

impl View for Server {
    type V = ServerView;

    closed spec fn view(&self) -> ServerView {
        ServerView { last_id: self.last_id, peers: self.peers@, entries: entry_views(self.entries@) }
    }
}

/// The place of a connection.
pub open spec fn peer_at(peers: Seq<Peer>, id: u64) -> Option<int>
    decreases peers.len(),
{
    if peers.len() == 0 {
        None
    } else if peers.last().id == id {
        Some(peers.len() - 1)
    } else {
        peer_at(peers.drop_last(), id)
    }
}

/// What [`peer_at`] tells.
pub proof fn lemma_peer_at(peers: Seq<Peer>, id: u64)
    ensures
        match peer_at(peers, id) {
            Some(i) => 0 <= i < peers.len() && peers[i].id == id,
            None => forall|i: int| 0 <= i < peers.len() ==> (#[trigger] peers[i]).id != id,
        },
    decreases peers.len(),
{
    if peers.len() > 0 && peers.last().id != id {
        lemma_peer_at(peers.drop_last(), id);
        assert(peer_at(peers, id) is None ==> forall|i: int|
            0 <= i < peers.len() ==> (#[trigger] peers[i]).id != id) by {
            assert forall|i: int| peer_at(peers, id) is None && 0 <= i < peers.len() implies (#[trigger] peers[i]).id
                != id by {
                if i < peers.len() - 1 {
                    assert(peers.drop_last()[i].id != id);
                }
            }
        }
    }
}

/// The place of the entry with a name and a port.
pub open spec fn entry_at(entries: Seq<EntryView>, m: MessageView) -> Option<int>
    decreases entries.len(),
{
    if entries.len() == 0 {
        None
    } else if entries[0].address.full_name == m.full_name && entries[0].address.port == m.port {
        Some(0)
    } else {
        match entry_at(entries.skip(1), m) {
            Some(i) => Some(i + 1),
            None => None,
        }
    }
}

/// What [`entry_at`] tells.
pub proof fn lemma_entry_at(entries: Seq<EntryView>, m: MessageView)
    ensures
        match entry_at(entries, m) {
            Some(i) => 0 <= i < entries.len() && same_source(entries[i].address, m),
            None => forall|i: int| 0 <= i < entries.len() ==> !same_source((#[trigger] entries[i]).address, m),
        },
    decreases entries.len(),
{
    if entries.len() > 0 && !same_source(entries[0].address, m) {
        lemma_entry_at(entries.skip(1), m);
        if entry_at(entries, m) is None {
            assert forall|i: int| 0 <= i < entries.len() implies !same_source((#[trigger] entries[i]).address, m) by {
                if i > 0 {
                    assert(entries.skip(1)[i - 1] == entries[i]);
                }
            }
        }
    }
}

/// The same name and port.
pub open spec fn same_source(a: MessageView, b: MessageView) -> bool {
    a.full_name == b.full_name && a.port == b.port
}

/// Bytes to every connection subscribed to metadata.
pub open spec fn to_subscribers(peers: Seq<Peer>, bytes: Seq<u8>) -> Seq<DeliveryView>
    decreases peers.len(),
{
    if peers.len() == 0 {
        Seq::empty()
    } else if peers.last().metadata {
        to_subscribers(peers.drop_last(), bytes).push(DeliveryView { peer: peers.last().id, bytes })
    } else {
        to_subscribers(peers.drop_last(), bytes)
    }
}

/// The whole table to one connection.
pub open spec fn table_for(entries: Seq<EntryView>, id: u64) -> Seq<DeliveryView> {
    Seq::new(entries.len(), |i: int| DeliveryView { peer: id, bytes: message_frame(entries[i].address) })
}

/// A message as the server records it: with the address of the connection in
/// place of those that the client gave.
pub open spec fn recorded(m: MessageView, peer: Peer) -> MessageView {
    MessageView { addresses: with_address(Seq::empty(), peer.addr.ip), ..m }
}

/// A message with the source gone.
pub open spec fn gone(m: MessageView) -> MessageView {
    MessageView { removed: true, ..m }
}

/// What a message from a connection does: an unknown name and port is added
/// with the connection's address; a removal of a known one removes it,
/// whichever connection sends it; anything else is ignored. Changes go to
/// every metadata connection.
pub open spec fn updated(s: ServerView, peer: Peer, m: MessageView) -> (ServerView, OutcomeView) {
    match entry_at(s.entries, m) {
        None => if m.removed {
            (s, nothing())
        } else {
            let r = recorded(m, peer);
            (
                ServerView {
                    entries: s.entries.push(EntryView { address: r, peer: peer.id, from: peer.addr }),
                    ..s
                },
                OutcomeView {
                    sends: to_subscribers(s.peers, message_frame(r)),
                    events: seq![ServerEventView::Added(peer.addr, r)],
                },
            )
        },
        Some(i) => if m.removed {
            let r = gone(s.entries[i].address);
            (
                ServerView { entries: s.entries.remove(i), ..s },
                OutcomeView {
                    sends: to_subscribers(s.peers, message_frame(r)),
                    events: seq![ServerEventView::Removed(peer.addr, r)],
                },
            )
        } else {
            (s, nothing())
        },
    }
}

/// What a payload from a connection does. A metadata subscription gets the
/// full table, once; a message updates it.
pub open spec fn handled(s: ServerView, at: int, data: Seq<u8>) -> (ServerView, OutcomeView) {
    let peer = s.peers[at];
    if data == command_bytes(Command::SubscribeMetadata) {
        if peer.metadata {
            (s, nothing())
        } else {
            (
                ServerView { peers: s.peers.update(at, Peer { metadata: true, ..peer }), ..s },
                OutcomeView { sends: table_for(s.entries, peer.id), events: Seq::empty() },
            )
        }
    } else if !is_command(data) && !is_quality_text(data) && (is_info_text(data) || !is_redirect_text(data)) {
        match message_in(data) {
            Some(m) => updated(s, peer, m),
            None => (s, nothing()),
        }
    } else {
        (s, nothing())
    }
}

/// The connections but one.
pub open spec fn peers_without(peers: Seq<Peer>, id: u64) -> Seq<Peer>
    decreases peers.len(),
{
    if peers.len() == 0 {
        Seq::empty()
    } else if peers.last().id == id {
        peers_without(peers.drop_last(), id)
    } else {
        peers_without(peers.drop_last(), id).push(peers.last())
    }
}

/// The entries that a connection registered, or those that it did not.
pub open spec fn entries_of(entries: Seq<EntryView>, id: u64, own: bool) -> Seq<EntryView>
    decreases entries.len(),
{
    if entries.len() == 0 {
        Seq::empty()
    } else if (entries.last().peer == id) == own {
        entries_of(entries.drop_last(), id, own).push(entries.last())
    } else {
        entries_of(entries.drop_last(), id, own)
    }
}

/// The removals of entries, to the subscribers among some connections.
pub open spec fn removals_to(peers: Seq<Peer>, entries: Seq<EntryView>) -> Seq<DeliveryView>
    decreases entries.len(),
{
    if entries.len() == 0 {
        Seq::empty()
    } else {
        removals_to(peers, entries.drop_last()) + to_subscribers(
            peers,
            message_frame(gone(entries.last().address)),
        )
    }
}

/// The events of the removals of entries.
pub open spec fn removal_events(addr: SocketAddr, entries: Seq<EntryView>) -> Seq<ServerEventView> {
    Seq::new(entries.len(), |i: int| ServerEventView::Removed(addr, gone(entries[i].address)))
}

/// What the end of a connection does: its entries are removed and the removals
/// sent to everyone left.
pub open spec fn dropped(s: ServerView, peer: Peer) -> (ServerView, OutcomeView) {
    let left = peers_without(s.peers, peer.id);
    let own = entries_of(s.entries, peer.id, true);
    (
        ServerView { peers: left, entries: entries_of(s.entries, peer.id, false), ..s },
        OutcomeView {
            sends: removals_to(left, own),
            events: removal_events(peer.addr, own).push(ServerEventView::Disconnected(peer.addr)),
        },
    )
}

/// What holds of every server: each connection has its own number; each name
/// and port is registered once, is not a removal, and belongs to an open
/// connection.
pub open spec fn consistent(s: ServerView) -> bool {
    &&& forall|i: int, j: int| 0 <= i < j < s.peers.len() ==> (#[trigger] s.peers[i]).id != (#[trigger] s.peers[j]).id
    &&& forall|i: int| 0 <= i < s.peers.len() ==> (#[trigger] s.peers[i]).id <= s.last_id
    &&& forall|i: int, j: int|
        0 <= i < j < s.entries.len() ==> !same_source(
            (#[trigger] s.entries[i]).address,
            (#[trigger] s.entries[j]).address,
        )
    &&& forall|i: int| 0 <= i < s.entries.len() ==> !(#[trigger] s.entries[i]).address.removed
    &&& forall|i: int| 0 <= i < s.entries.len() ==> peer_at(s.peers, (#[trigger] s.entries[i]).peer) is Some
}

/// The tally that every new connection is sent: off.
pub open spec fn welcome() -> Seq<u8> {
    payload_frame(command_bytes(Command::Tally(Tally { preview: false, program: false })))
}

/// What a new connection does.
pub open spec fn connected(s: ServerView, addr: SocketAddr) -> (ServerView, OutcomeView) {
    let id = (s.last_id + 1) as u64;
    (
        ServerView { last_id: id, peers: s.peers.push(Peer { id, addr, metadata: false }), ..s },
        OutcomeView {
            sends: seq![DeliveryView { peer: id, bytes: welcome() }],
            events: seq![ServerEventView::Connected(addr)],
        },
    )
}

impl Outcome {
    /// Nothing to do.
    fn empty() -> (r: Outcome)
        ensures
            r@ == nothing(),
    {
        let r: Outcome = Outcome { sends: Vec::new(), events: Vec::new() };
        assert(r@.sends =~= Seq::empty());
        assert(r@.events =~= Seq::empty());
        r
    }

    /// One more write.
    fn send(&mut self, peer: u64, bytes: Vec<u8>)
        ensures
            final(self)@.sends == old(self)@.sends.push(DeliveryView { peer, bytes: bytes@ }),
            final(self)@.events == old(self)@.events,
    {
        self.sends.push(Delivery { peer, bytes });
        assert(self@.sends =~= old(self)@.sends.push(DeliveryView { peer, bytes: bytes@ }));
        assert(self@.events =~= old(self)@.events);
    }

    /// One more event.
    fn event(&mut self, e: ServerEvent)
        ensures
            final(self)@.events == old(self)@.events.push(e@),
            final(self)@.sends == old(self)@.sends,
    {
        self.events.push(e);
        assert(self@.events =~= old(self)@.events.push(e@));
        assert(self@.sends =~= old(self)@.sends);
    }
}

/// Copies bytes.
fn copy_bytes(b: &[u8]) -> (r: Vec<u8>)
    ensures
        r@ == b@,
{
    let mut v: Vec<u8> = Vec::new();
    v.extend_from_slice(b);
    assert(v@ =~= b@);
    v
}

impl Server {
    /// What holds of every server.
    pub closed spec fn wf(&self) -> bool {
        consistent(self@)
    }

    /// A server without connections.
    pub fn new() -> (r: Server)
        ensures
            r.wf(),
            r@ == (ServerView { last_id: 0, peers: Seq::empty(), entries: Seq::empty() }),
    {
        let r: Server = Server { last_id: 0, peers: Vec::new(), entries: Vec::new() };
        assert(r@.entries =~= Seq::empty());
        r
    }

    /// Open client connections.
    pub fn connections(&self) -> (r: usize)
        ensures
            r == self@.peers.len(),
    {
        self.peers.len()
    }

    /// The sources currently registered.
    pub fn entries(&self) -> (r: Vec<ServerEntry>)
        ensures
            r@.len() == self@.entries.len(),
            forall|i: int|
                0 <= i < r@.len() ==> (#[trigger] r@[i]).address@ == self@.entries[i].address && r@[i].from
                    == self@.entries[i].from,
    {
        let mut r: Vec<ServerEntry> = Vec::new();
        let mut i: usize = 0;
        while i < self.entries.len()
            invariant
                i <= self.entries@.len(),
                r@.len() == i,
                forall|k: int|
                    0 <= k < i ==> (#[trigger] r@[k]).address@ == self@.entries[k].address && r@[k].from
                        == self@.entries[k].from,
            decreases self.entries@.len() - i,
        {
            r.push(ServerEntry { address: self.entries[i].address.copy(), from: self.entries[i].from });
            i = i + 1;
        }
        r
    }

    /// Writes to every connection subscribed to metadata.
    fn broadcast(&self, m: &AddressMessage, out: &mut Outcome)
        ensures
            final(out)@.sends == old(out)@.sends + to_subscribers(self@.peers, message_frame(m@)),
            final(out)@.events == old(out)@.events,
    {
        let bytes: Vec<u8> = address_frame(m);
        let ghost head = out@.sends;
        let mut i: usize = 0;
        assert(self.peers@.take(0) =~= Seq::empty());
        assert(out@.sends =~= head + to_subscribers(self.peers@.take(0), bytes@));
        while i < self.peers.len()
            invariant
                i <= self.peers@.len(),
                out@.sends == head + to_subscribers(self.peers@.take(i as int), bytes@),
                out@.events == old(out)@.events,
            decreases self.peers@.len() - i,
        {
            assert(self.peers@.take(i + 1).drop_last() =~= self.peers@.take(i as int));
            if self.peers[i].metadata {
                out.send(self.peers[i].id, copy_bytes(bytes.as_slice()));
                assert(out@.sends =~= head + to_subscribers(self.peers@.take(i + 1), bytes@));
            }
            i = i + 1;
        }
        assert(self.peers@.take(i as int) =~= self.peers@);
    }

    /// A client connected from an address. Returns the number of the
    /// connection.
    pub fn connect(&mut self, addr: SocketAddr) -> (r: (u64, Outcome))
        requires
            old(self).wf(),
            old(self)@.last_id < u64::MAX,
        ensures
            final(self).wf(),
            r.0 == old(self)@.last_id + 1,
            (final(self)@, r.1@) == connected(old(self)@, addr),
    {
        let ghost before = self@;
        let id: u64 = self.last_id + 1;
        self.last_id = id;
        self.peers.push(Peer { id, addr, metadata: false });
        let mut out: Outcome = Outcome::empty();
        let mut tally: Vec<u8> = Vec::new();
        push_payload(
            Command::Tally(Tally { preview: false, program: false }).as_bytes(),
            &mut tally,
        );
        assert(tally@ =~= welcome());
        out.send(id, tally);
        out.event(ServerEvent::Connected(addr));
        proof {
            assert(out@.sends =~= connected(before, addr).1.sends);
            assert(out@.events =~= connected(before, addr).1.events);
            let s = self@;
            assert(s =~= connected(before, addr).0);
            assert forall|i: int, j: int| 0 <= i < j < s.peers.len() implies (#[trigger] s.peers[i]).id != (
            #[trigger] s.peers[j]).id by {
                assert(s.peers[i] == before.peers[i]);
                if j < before.peers.len() {
                    assert(s.peers[j] == before.peers[j]);
                }
            }
            assert forall|i: int| 0 <= i < s.entries.len() implies peer_at(
                s.peers,
                (#[trigger] s.entries[i]).peer,
            ) is Some by {
                assert(s.entries[i] == before.entries[i]);
                assert(s.peers.drop_last() =~= before.peers);
            }
        }
        (id, out)
    }

    /// The place of a connection.
    fn place(&self, id: u64) -> (r: Option<usize>)
        ensures
            match r {
                Some(i) => peer_at(self@.peers, id) == Some(i as int) && i < self@.peers.len(),
                None => peer_at(self@.peers, id) is None,
            },
    {
        let mut n: usize = self.peers.len();
        assert(self.peers@.take(n as int) =~= self.peers@);
        while n > 0
            invariant
                n <= self.peers@.len(),
                peer_at(self.peers@, id) == peer_at(self.peers@.take(n as int), id),
            decreases n,
        {
            assert(self.peers@.take(n as int).drop_last() =~= self.peers@.take(n - 1));
            if self.peers[n - 1].id == id {
                return Some(n - 1);
            }
            n = n - 1;
        }
        None
    }

    /// The place of the entry with a name and a port.
    fn entry_place(&self, m: &AddressMessage) -> (r: Option<usize>)
        ensures
            match r {
                Some(i) => entry_at(self@.entries, m@) == Some(i as int) && i < self@.entries.len(),
                None => entry_at(self@.entries, m@) is None,
            },
    {
        let ghost all = entry_views(self.entries@);
        let wanted: Vec<char> = chars_of(m.full_name.as_str());
        let mut i: usize = 0;
        assert(all.skip(0) =~= all);
        while i < self.entries.len()
            invariant
                i <= self.entries@.len(),
                all == entry_views(self.entries@),
                wanted@ == m@.full_name,
                entry_at(all, m@) == (match entry_at(all.skip(i as int), m@) {
                    Some(k) => Some(k + i),
                    None => None,
                }),
            decreases self.entries@.len() - i,
        {
            let own: Vec<char> = chars_of(self.entries[i].address.full_name.as_str());
            proof {
                assert(all.skip(i as int)[0] == self.entries@[i as int]@);
                assert(all.skip(i as int).skip(1) =~= all.skip(i + 1));
            }
            if same_text(own.as_slice(), wanted.as_slice()) && self.entries[i].address.port == m.port {
                return Some(i);
            }
            i = i + 1;
        }
        None
    }

    /// A message from a connection.
    fn update(&mut self, peer: Peer, m: AddressMessage) -> (r: Outcome)
        requires
            old(self).wf(),
            peer_at(old(self)@.peers, peer.id) is Some,
        ensures
            final(self).wf(),
            (final(self)@, r@) == updated(old(self)@, peer, m@),
    {
        let ghost before = self@;
        let ghost mv = m@;
        let mut out: Outcome = Outcome::empty();
        proof {
            lemma_entry_at(before.entries, mv);
        }
        match self.entry_place(&m) {
            None => {
                if m.removed {
                    return out;
                }
                let mut r: AddressMessage = AddressMessage {
                    full_name: m.full_name,
                    port: m.port,
                    removed: m.removed,
                    addresses: Vec::new(),
                };
                let _ = r.add_address(peer.addr.ip);
                assert(r@ =~= recorded(mv, peer));
                self.broadcast(&r, &mut out);
                let copy: AddressMessage = r.copy();
                out.event(ServerEvent::Added(peer.addr, copy));
                let ghost old_entries = self.entries@;
                self.entries.push(Registration { address: r, peer: peer.id, from: peer.addr });
                proof {
                    let after = updated(before, peer, mv);
                    assert(entry_views(self.entries@) =~= entry_views(old_entries).push(
                        EntryView { address: r@, peer: peer.id, from: peer.addr },
                    ));
                    assert(out@.sends =~= after.1.sends);
                    assert(out@.events =~= after.1.events);
                    let s = self@;
                    assert forall|i: int, j: int| 0 <= i < j < s.entries.len() implies !same_source(
                        (#[trigger] s.entries[i]).address,
                        (#[trigger] s.entries[j]).address,
                    ) by {
                        assert(s.entries[i] == before.entries[i]);
                        if j < before.entries.len() {
                            assert(s.entries[j] == before.entries[j]);
                        }
                    }
                    assert forall|i: int| 0 <= i < s.entries.len() implies !(#[trigger] s.entries[i]).address.removed
                        && peer_at(s.peers, s.entries[i].peer) is Some by {
                        if i < before.entries.len() {
                            assert(s.entries[i] == before.entries[i]);
                        }
                    }
                }
                out
            },
            Some(k) => {
                if !m.removed {
                    return out;
                }
                let ghost old_entries = self.entries@;
                let e: Registration = self.entries.remove(k);
                let mut a: AddressMessage = e.address;
                a.removed = true;
                assert(a@ =~= gone(before.entries[k as int].address));
                self.broadcast(&a, &mut out);
                out.event(ServerEvent::Removed(peer.addr, a));
                proof {
                    let after = updated(before, peer, mv);
                    assert(entry_views(self.entries@) =~= entry_views(old_entries).remove(k as int));
                    assert(out@.sends =~= after.1.sends);
                    assert(out@.events =~= after.1.events);
                    let s = self@;
                    assert forall|i: int, j: int| 0 <= i < j < s.entries.len() implies !same_source(
                        (#[trigger] s.entries[i]).address,
                        (#[trigger] s.entries[j]).address,
                    ) by {
                        let x = if i < k { i } else { i + 1 };
                        let y = if j < k { j } else { j + 1 };
                        assert(s.entries[i] == before.entries[x] && s.entries[j] == before.entries[y]);
                    }
                    assert forall|i: int| 0 <= i < s.entries.len() implies !(#[trigger] s.entries[i]).address.removed
                        && peer_at(s.peers, s.entries[i].peer) is Some by {
                        let x = if i < k { i } else { i + 1 };
                        assert(s.entries[i] == before.entries[x]);
                    }
                }
                out
            },
        }
    }

    /// The whole table to one connection.
    fn table_to(&self, id: u64) -> (r: Outcome)
        ensures
            r@.sends == table_for(self@.entries, id),
            r@.events == Seq::<ServerEventView>::empty(),
    {
        let ghost all = entry_views(self.entries@);
        let mut out: Outcome = Outcome::empty();
        let mut i: usize = 0;
        while i < self.entries.len()
            invariant
                i <= self.entries@.len(),
                all == entry_views(self.entries@),
                out@.sends == table_for(all.take(i as int), id),
                out@.events == Seq::<ServerEventView>::empty(),
            decreases self.entries@.len() - i,
        {
            out.send(id, address_frame(&self.entries[i].address));
            assert(all[i as int] == self.entries@[i as int]@);
            assert(out@.sends =~= table_for(all.take(i + 1), id));
            i = i + 1;
        }
        assert(all.take(i as int) =~= all);
        out
    }

    /// A metadata payload from a connection. One from a connection that is
    /// not open does nothing. One that is a message as it is written updates
    /// the table with that message.
    pub fn handle(&mut self, id: u64, data: &[u8]) -> (r: Outcome)
        requires
            old(self).wf(),
        ensures
            final(self).wf(),
            match peer_at(old(self)@.peers, id) {
                Some(at) => (final(self)@, r@) == handled(old(self)@, at, data@),
                None => final(self)@ == old(self)@ && r@ == nothing(),
            },
            forall|m: MessageView|
                data@ == #[trigger] message_bytes(m) && readable(m) ==> match peer_at(old(self)@.peers, id) {
                    Some(at) => (final(self)@, r@) == updated(old(self)@, old(self)@.peers[at], m),
                    None => true,
                },
    {
        proof {
            assert forall|m: MessageView| data@ == #[trigger] message_bytes(m) implies !is_command(data@)
                && !is_quality_text(data@) && !is_redirect_text(data@) by {
                lemma_message_is_plain(m);
            }
        }
        let ghost before = self@;
        let at: usize = match self.place(id) {
            Some(i) => i,
            None => {
                return Outcome::empty();
            },
        };
        proof {
            lemma_peer_at(before.peers, id);
        }
        let peer: Peer = self.peers[at];
        match classify(data) {
            Message::Command(c) => match c {
                Command::SubscribeMetadata => {
                    if peer.metadata {
                        return Outcome::empty();
                    }
                    self.peers[at] = Peer { id: peer.id, addr: peer.addr, metadata: true };
                    let out: Outcome = self.table_to(peer.id);
                    proof {
                        let s = self@;
                        assert(s.peers =~= before.peers.update(at as int, Peer { metadata: true, ..peer }));
                        assert(out@ =~= handled(before, at as int, data@).1);
                        assert forall|i: int| 0 <= i < s.entries.len() implies peer_at(
                            s.peers,
                            (#[trigger] s.entries[i]).peer,
                        ) is Some by {
                            assert(s.entries[i] == before.entries[i]);
                            lemma_same_ids(before.peers, s.peers, s.entries[i].peer);
                        }
                    }
                    out
                },
                _ => {
                    proof {
                        if data@ == command_bytes(Command::SubscribeMetadata) {
                            crate::command::law_commands_differ(c, Command::SubscribeMetadata);
                        }
                    }
                    Outcome::empty()
                },
            },
            Message::Application(x) => self.update_from(peer, x),
            Message::SenderInfo(x) => self.update_from(peer, x),
            _ => Outcome::empty(),
        }
    }

    /// A payload that may hold a message.
    fn update_from(&mut self, peer: Peer, x: &[u8]) -> (r: Outcome)
        requires
            old(self).wf(),
            peer_at(old(self)@.peers, peer.id) is Some,
        ensures
            final(self).wf(),
            (final(self)@, r@) == (match message_in(x@) {
                Some(m) => updated(old(self)@, peer, m),
                None => (old(self)@, nothing()),
            }),
            forall|m: MessageView|
                x@ == #[trigger] message_bytes(m) && readable(m) ==> (final(self)@, r@) == updated(
                    old(self)@,
                    peer,
                    m,
                ),
    {
        match AddressMessage::from_xml(x) {
            Some(m) => self.update(peer, m),
            None => Outcome::empty(),
        }
    }

    /// A connection ended.
    pub fn disconnected(&mut self, id: u64) -> (r: Outcome)
        requires
            old(self).wf(),
        ensures
            final(self).wf(),
            match peer_at(old(self)@.peers, id) {
                Some(at) => (final(self)@, r@) == dropped(old(self)@, old(self)@.peers[at]),
                None => final(self)@ == old(self)@ && r@ == nothing(),
            },
    {
        let ghost before = self@;
        let at: usize = match self.place(id) {
            Some(i) => i,
            None => {
                return Outcome::empty();
            },
        };
        proof {
            lemma_peer_at(before.peers, id);
        }
        let addr: SocketAddr = self.peers[at].addr;
        self.forget_peer(id);
        let own: Vec<AddressMessage> = self.forget_entries(id);
        let ghost removed = entries_of(before.entries, id, true);
        let mut out: Outcome = Outcome::empty();
        let mut i: usize = 0;
        assert(removed.take(0) =~= Seq::empty());
        assert(out@.sends =~= removals_to(self@.peers, removed.take(0)));
        assert(out@.events =~= removal_events(addr, removed.take(0)));
        while i < own.len()
            invariant
                i <= own@.len(),
                own@.len() == removed.len(),
                forall|k: int| 0 <= k < own@.len() ==> (#[trigger] own@[k])@ == gone(removed[k].address),
                out@.sends == removals_to(self@.peers, removed.take(i as int)),
                out@.events == removal_events(addr, removed.take(i as int)),
            decreases own@.len() - i,
        {
            self.broadcast(&own[i], &mut out);
            out.event(ServerEvent::Removed(addr, own[i].copy()));
            proof {
                assert(removed.take(i + 1).drop_last() =~= removed.take(i as int));
                assert(own@[i as int]@ == gone(removed[i as int].address));
                assert(out@.sends =~= removals_to(self@.peers, removed.take(i + 1)));
                assert(out@.events =~= removal_events(addr, removed.take(i + 1)));
            }
            i = i + 1;
        }
        assert(removed.take(i as int) =~= removed);
        out.event(ServerEvent::Disconnected(addr));
        proof {
            lemma_dropped(before, id);
        }
        out
    }

    /// Forgets a connection.
    fn forget_peer(&mut self, id: u64)
        ensures
            final(self)@ == (ServerView { peers: peers_without(old(self)@.peers, id), ..old(self)@ }),
    {
        let mut left: Vec<Peer> = Vec::new();
        let mut i: usize = 0;
        let ghost all = self.peers@;
        assert(all.take(0) =~= Seq::empty());
        while i < self.peers.len()
            invariant
                i <= self.peers@.len(),
                all == self.peers@,
                left@ == peers_without(all.take(i as int), id),
            decreases self.peers@.len() - i,
        {
            assert(all.take(i + 1).drop_last() =~= all.take(i as int));
            if self.peers[i].id != id {
                left.push(self.peers[i]);
            }
            i = i + 1;
        }
        assert(all.take(i as int) =~= all);
        self.peers = left;
    }

    /// Forgets the entries of a connection, and returns their removals.
    fn forget_entries(&mut self, id: u64) -> (r: Vec<AddressMessage>)
        ensures
            final(self)@ == (ServerView { entries: entries_of(old(self)@.entries, id, false), ..old(self)@ }),
            r@.len() == entries_of(old(self)@.entries, id, true).len(),
            forall|k: int|
                0 <= k < r@.len() ==> (#[trigger] r@[k])@ == gone(
                    entries_of(old(self)@.entries, id, true)[k].address,
                ),
    {
        let ghost all = self@.entries;
        let mut own: Vec<AddressMessage> = Vec::new();
        let mut left: Vec<Registration> = Vec::new();
        let mut i: usize = 0;
        assert(all.take(0) =~= Seq::empty());
        assert(entry_views(left@) =~= entries_of(all.take(0), id, false));
        while i < self.entries.len()
            invariant
                i <= self.entries@.len(),
                all == entry_views(self.entries@),
                entry_views(left@) == entries_of(all.take(i as int), id, false),
                own@.len() == entries_of(all.take(i as int), id, true).len(),
                forall|k: int|
                    0 <= k < own@.len() ==> (#[trigger] own@[k])@ == gone(
                        entries_of(all.take(i as int), id, true)[k].address,
                    ),
            decreases self.entries@.len() - i,
        {
            proof {
                assert(all.take(i + 1).drop_last() =~= all.take(i as int));
                assert(all[i as int] == self.entries@[i as int]@);
            }
            let mut a: AddressMessage = self.entries[i].address.copy();
            if self.entries[i].peer == id {
                a.removed = true;
                assert(a@ =~= gone(all[i as int].address));
                own.push(a);
            } else {
                let ghost before = left@;
                let e: Registration = Registration {
                    address: a,
                    peer: self.entries[i].peer,
                    from: self.entries[i].from,
                };
                left.push(e);
                assert(e@ =~= all[i as int]);
                assert(entry_views(left@) =~= entry_views(before).push(e@));
            }
            i = i + 1;
        }
        assert(all.take(i as int) =~= all);
        self.entries = left;
        own
    }
}

/// Where the numbers of the connections are the same, so are their places.
proof fn lemma_same_ids(a: Seq<Peer>, b: Seq<Peer>, id: u64)
    requires
        a.len() == b.len(),
        forall|i: int| 0 <= i < a.len() ==> (#[trigger] a[i]).id == b[i].id,
    ensures
        peer_at(a, id) == peer_at(b, id),
    decreases a.len(),
{
    if a.len() > 0 {
        assert(a[a.len() - 1].id == b[b.len() - 1].id);
        lemma_same_ids(a.drop_last(), b.drop_last(), id);
    }
}

/// The connections but one are those with another number.
proof fn lemma_peers_without(peers: Seq<Peer>, id: u64, other: u64)
    ensures
        other != id ==> (peer_at(peers_without(peers, id), other) is Some == (peer_at(peers, other) is Some)),
        peer_at(peers_without(peers, id), id) is None,
        peers_without(peers, id).len() <= peers.len(),
        forall|i: int|
            0 <= i < peers_without(peers, id).len() ==> exists|k: int|
                0 <= k < peers.len() && #[trigger] peers[k] == #[trigger] peers_without(peers, id)[i],
    decreases peers.len(),
{
    if peers.len() > 0 {
        let p0 = peers.drop_last();
        lemma_peers_without(p0, id, other);
        let w = peers_without(peers, id);
        let w0 = peers_without(p0, id);
        if peers.last().id != id {
            assert(w.drop_last() =~= w0);
        }
        assert forall|i: int| 0 <= i < w.len() implies exists|k: int|
            0 <= k < peers.len() && #[trigger] peers[k] == #[trigger] w[i] by {
            if i < w0.len() {
                assert(w[i] == w0[i]);
                let k = choose|k: int| 0 <= k < p0.len() && #[trigger] p0[k] == w0[i];
                assert(peers[k] == w[i]);
            } else {
                assert(peers[peers.len() - 1] == w[i]);
            }
        }
    }
}

/// Distinct numbers stay distinct.
proof fn lemma_distinct_without(peers: Seq<Peer>, id: u64)
    requires
        forall|i: int, j: int| 0 <= i < j < peers.len() ==> (#[trigger] peers[i]).id != (#[trigger] peers[j]).id,
    ensures
        forall|i: int, j: int|
            0 <= i < j < peers_without(peers, id).len() ==> (#[trigger] peers_without(peers, id)[i]).id != (
            #[trigger] peers_without(peers, id)[j]).id,
    decreases peers.len(),
{
    if peers.len() > 0 {
        let p0 = peers.drop_last();
        assert forall|i: int, j: int| 0 <= i < j < p0.len() implies (#[trigger] p0[i]).id != (#[trigger] p0[j]).id by {
            assert(peers[i].id != peers[j].id);
        }
        lemma_distinct_without(p0, id);
        lemma_peers_without(p0, id, id);
        let w = peers_without(peers, id);
        let w0 = peers_without(p0, id);
        assert forall|i: int, j: int| 0 <= i < j < w.len() implies (#[trigger] w[i]).id != (#[trigger] w[j]).id by {
            assert(w[i] == w0[i]);
            if j < w0.len() {
                assert(w[j] == w0[j]);
            } else {
                let k = choose|k: int| 0 <= k < p0.len() && #[trigger] p0[k] == w0[i];
                assert(peers[k].id != peers[peers.len() - 1].id);
            }
        }
    }
}

/// The entries that a connection did not register are entries.
proof fn lemma_entries_of(entries: Seq<EntryView>, id: u64, own: bool)
    ensures
        forall|i: int|
            0 <= i < entries_of(entries, id, own).len() ==> (#[trigger] entries_of(entries, id, own)[i].peer == id)
                == own,
        forall|i: int|
            0 <= i < entries_of(entries, id, own).len() ==> exists|k: int|
                0 <= k < entries.len() && #[trigger] entries[k] == #[trigger] entries_of(entries, id, own)[i],
    decreases entries.len(),
{
    if entries.len() > 0 {
        let e0 = entries.drop_last();
        lemma_entries_of(e0, id, own);
        let w = entries_of(entries, id, own);
        let w0 = entries_of(e0, id, own);
        assert forall|i: int| 0 <= i < w.len() implies (#[trigger] w[i].peer == id) == own by {
            if i < w0.len() {
                assert(w[i] == w0[i]);
                assert((w0[i].peer == id) == own);
            }
        }
        assert forall|i: int| 0 <= i < w.len() implies exists|k: int|
            0 <= k < entries.len() && #[trigger] entries[k] == #[trigger] w[i] by {
            if i < w0.len() {
                assert(w[i] == w0[i]);
                let k = choose|k: int| 0 <= k < e0.len() && #[trigger] e0[k] == w0[i];
                assert(entries[k] == w[i]);
            } else {
                assert(entries[entries.len() - 1] == w[i]);
            }
        }
    }
}

/// Names and ports stay distinct.
proof fn lemma_distinct_entries(entries: Seq<EntryView>, id: u64, own: bool)
    requires
        forall|i: int, j: int|
            0 <= i < j < entries.len() ==> !same_source(
                (#[trigger] entries[i]).address,
                (#[trigger] entries[j]).address,
            ),
    ensures
        forall|i: int, j: int|
            0 <= i < j < entries_of(entries, id, own).len() ==> !same_source(
                (#[trigger] entries_of(entries, id, own)[i]).address,
                (#[trigger] entries_of(entries, id, own)[j]).address,
            ),
    decreases entries.len(),
{
    if entries.len() > 0 {
        let e0 = entries.drop_last();
        assert forall|i: int, j: int| 0 <= i < j < e0.len() implies !same_source(
            (#[trigger] e0[i]).address,
            (#[trigger] e0[j]).address,
        ) by {
            assert(!same_source(entries[i].address, entries[j].address));
        }
        lemma_distinct_entries(e0, id, own);
        lemma_entries_of(e0, id, own);
        let w = entries_of(entries, id, own);
        let w0 = entries_of(e0, id, own);
        assert forall|i: int, j: int| 0 <= i < j < w.len() implies !same_source(
            (#[trigger] w[i]).address,
            (#[trigger] w[j]).address,
        ) by {
            assert(w[i] == w0[i]);
            if j < w0.len() {
                assert(w[j] == w0[j]);
            } else {
                let k = choose|k: int| 0 <= k < e0.len() && #[trigger] e0[k] == w0[i];
                assert(!same_source(entries[k].address, entries[entries.len() - 1].address));
            }
        }
    }
}

/// The end of a connection leaves a consistent table.
proof fn lemma_dropped(s: ServerView, id: u64)
    requires
        consistent(s),
    ensures
        consistent(
            ServerView {
                peers: peers_without(s.peers, id),
                entries: entries_of(s.entries, id, false),
                ..s
            },
        ),
{
    let left = peers_without(s.peers, id);
    let kept = entries_of(s.entries, id, false);
    lemma_distinct_without(s.peers, id);
    lemma_peers_without(s.peers, id, id);
    lemma_distinct_entries(s.entries, id, false);
    lemma_entries_of(s.entries, id, false);
    assert forall|i: int| 0 <= i < left.len() implies (#[trigger] left[i]).id <= s.last_id by {
        let k = choose|k: int| 0 <= k < s.peers.len() && #[trigger] s.peers[k] == left[i];
        assert(s.peers[k].id <= s.last_id);
    }
    assert forall|i: int| 0 <= i < kept.len() implies !(#[trigger] kept[i]).address.removed && peer_at(
        left,
        kept[i].peer,
    ) is Some by {
        let k = choose|k: int| 0 <= k < s.entries.len() && #[trigger] s.entries[k] == kept[i];
        assert(!s.entries[k].address.removed);
        assert(kept[i].peer != id) by {
            assert((kept[i].peer == id) == false);
        }
        lemma_peers_without(s.peers, id, kept[i].peer);
    }
}

/// A source that a connection registers goes to every subscriber, that
/// connection too if it has subscribed, and is recorded with the address that
/// the server sees; registering it again does nothing, and removing it leaves
/// the table as it was.
pub proof fn law_register_and_remove(s: ServerView, peer: Peer, m: MessageView)
    requires
        consistent(s),
        !m.removed,
        entry_at(s.entries, m) is None,
    ensures
        ({
            let (t, out) = updated(s, peer, m);
            &&& out.sends == to_subscribers(s.peers, message_frame(recorded(m, peer)))
            &&& updated(t, peer, m) == (t, nothing())
            &&& updated(t, peer, gone(m)).0 == s
        }),
{
    let (t, out) = updated(s, peer, m);
    lemma_entry_push(s.entries, t.entries.last(), m);
    lemma_entry_push(s.entries, t.entries.last(), gone(m));
    assert(t.entries.remove(s.entries.len() as int) =~= s.entries);
}

/// What the server passes on of a readable registration, and of its end, is
/// readable too: the name and port of the registration come through, with at
/// most the one address that the server saw.
pub proof fn law_passed_on_readable(m: MessageView, peer: Peer)
    requires
        readable(m),
    ensures
        readable(recorded(m, peer)),
        readable(gone(recorded(m, peer))),
        same_source(recorded(m, peer), m),
        same_source(gone(recorded(m, peer)), m),
        recorded(m, peer).addresses.len() <= 1,
{
    law_addresses_kept(Seq::empty(), peer.addr.ip);
    crate::discovery_server::message::lemma_v4_count(Seq::empty());
}

/// The place of a source that was added last.
proof fn lemma_entry_push(entries: Seq<EntryView>, e: EntryView, m: MessageView)
    requires
        entry_at(entries, MessageView { removed: false, ..m }) is None || entry_at(entries, m) is None,
        same_source(e.address, m),
    ensures
        entry_at(entries.push(e), m) == Some(entries.len() as int),
    decreases entries.len(),
{
    let all = entries.push(e);
    if entries.len() > 0 {
        lemma_entry_push(entries.skip(1), e, m);
        assert(all.skip(1) =~= entries.skip(1).push(e));
    }
}

/// After a connection has ended none of its sources is left, and the others
/// are as they were.
pub proof fn law_sources_go_with_connection(s: ServerView, peer: Peer)
    requires
        consistent(s),
    ensures
        ({
            let t = dropped(s, peer).0;
            &&& forall|i: int| 0 <= i < t.entries.len() ==> (#[trigger] t.entries[i]).peer != peer.id
            &&& forall|i: int|
                0 <= i < s.entries.len() && (#[trigger] s.entries[i]).peer != peer.id ==> t.entries.contains(
                    s.entries[i],
                )
            &&& peer_at(t.peers, peer.id) is None
        }),
{
    lemma_entries_of(s.entries, peer.id, false);
    lemma_peers_without(s.peers, peer.id, peer.id);
    let t = entries_of(s.entries, peer.id, false);
    assert forall|i: int| 0 <= i < t.len() implies (#[trigger] t[i]).peer != peer.id by {
        assert((t[i].peer == peer.id) == false);
    }
    assert forall|i: int| 0 <= i < s.entries.len() && (#[trigger] s.entries[i]).peer != peer.id implies t.contains(
        s.entries[i],
    ) by {
        lemma_kept(s.entries, peer.id, i);
    }
}

/// An entry of another connection is kept.
proof fn lemma_kept(entries: Seq<EntryView>, id: u64, i: int)
    requires
        0 <= i < entries.len(),
        entries[i].peer != id,
    ensures
        entries_of(entries, id, false).contains(entries[i]),
    decreases entries.len(),
{
    let w = entries_of(entries, id, false);
    if i == entries.len() - 1 {
        assert(w.last() == entries[i]);
        assert(w[w.len() - 1] == entries[i]);
    } else {
        lemma_kept(entries.drop_last(), id, i);
        let w0 = entries_of(entries.drop_last(), id, false);
        let k = choose|k: int| 0 <= k < w0.len() && w0[k] == entries[i];
        assert(w[k] == entries[i]);
    }
}

/// A subscription is answered with exactly the sources that are registered.
pub proof fn law_subscription_gets_the_table(s: ServerView, at: int)
    requires
        consistent(s),
        0 <= at < s.peers.len(),
        !s.peers[at].metadata,
    ensures
        ({
            let (t, out) = handled(s, at, command_bytes(Command::SubscribeMetadata));
            &&& out.sends.len() == s.entries.len()
            &&& forall|i: int|
                0 <= i < s.entries.len() ==> #[trigger] out.sends[i] == (DeliveryView {
                    peer: s.peers[at].id,
                    bytes: message_frame(s.entries[i].address),
                })
            &&& t.entries == s.entries
            &&& t.peers[at].metadata
        }),
{
}

/// How many connections have subscribed.
pub open spec fn subscriber_count(peers: Seq<Peer>) -> int
    decreases peers.len(),
{
    if peers.len() == 0 {
        0
    } else {
        subscriber_count(peers.drop_last()) + if peers.last().metadata {
            1int
        } else {
            0
        }
    }
}

/// A change goes to every subscriber and to nobody else, once for each.
pub proof fn law_subscribers_are_told(peers: Seq<Peer>, bytes: Seq<u8>)
    ensures
        to_subscribers(peers, bytes).len() == subscriber_count(peers),
        forall|i: int|
            0 <= i < peers.len() && (#[trigger] peers[i]).metadata ==> to_subscribers(peers, bytes).contains(
                DeliveryView { peer: peers[i].id, bytes },
            ),
        forall|k: int|
            0 <= k < to_subscribers(peers, bytes).len() ==> is_told(
                peers,
                bytes,
                #[trigger] to_subscribers(peers, bytes)[k],
            ),
    decreases peers.len(),
{
    let all = to_subscribers(peers, bytes);
    if peers.len() > 0 {
        let before = peers.drop_last();
        law_subscribers_are_told(before, bytes);
        let had = to_subscribers(before, bytes);
        assert forall|i: int| 0 <= i < peers.len() && (#[trigger] peers[i]).metadata implies all.contains(
            DeliveryView { peer: peers[i].id, bytes },
        ) by {
            let d = DeliveryView { peer: peers[i].id, bytes };
            if i < before.len() {
                assert(before[i] == peers[i]);
                let k = choose|k: int| 0 <= k < had.len() && had[k] == d;
                assert(all[k] == d);
            } else {
                assert(all[all.len() - 1] == d);
            }
        }
        assert forall|k: int| 0 <= k < all.len() implies is_told(peers, bytes, #[trigger] all[k]) by {
            if k < had.len() {
                assert(is_told(before, bytes, had[k]));
                let i = choose|i: int| 0 <= i < before.len() && (#[trigger] before[i]).metadata && before[i].id == had[k].peer;
                assert(peers[i].metadata && peers[i].id == all[k].peer);
            } else {
                let i = peers.len() - 1;
                assert(peers[i].metadata && peers[i].id == all[k].peer);
            }
        }
    }
}

/// The delivery is one of these bytes to a subscriber.
pub open spec fn is_told(peers: Seq<Peer>, bytes: Seq<u8>, d: DeliveryView) -> bool {
    d.bytes == bytes && exists|i: int| 0 <= i < peers.len() && (#[trigger] peers[i]).metadata && peers[i].id == d.peer
}

proof fn lemma_removals_to(peers: Seq<Peer>, entries: Seq<EntryView>, e: int, i: int)
    requires
        0 <= e < entries.len(),
        0 <= i < peers.len(),
        peers[i].metadata,
    ensures
        removals_to(peers, entries).contains(
            DeliveryView { peer: peers[i].id, bytes: message_frame(gone(entries[e].address)) },
        ),
    decreases entries.len(),
{
    let d = DeliveryView { peer: peers[i].id, bytes: message_frame(gone(entries[e].address)) };
    let before = removals_to(peers, entries.drop_last());
    let last = to_subscribers(peers, message_frame(gone(entries.last().address)));
    if e < entries.len() - 1 {
        lemma_removals_to(peers, entries.drop_last(), e, i);
        let k = choose|k: int| 0 <= k < before.len() && before[k] == d;
        assert((before + last)[k] == d);
    } else {
        law_subscribers_are_told(peers, message_frame(gone(entries.last().address)));
        let k = choose|k: int| 0 <= k < last.len() && last[k] == d;
        assert((before + last)[before.len() + k] == d);
    }
}

/// An entry of the connection is among its entries.
proof fn lemma_own_entry(entries: Seq<EntryView>, id: u64, e: int) -> (k: int)
    requires
        0 <= e < entries.len(),
        entries[e].peer == id,
    ensures
        0 <= k < entries_of(entries, id, true).len(),
        entries_of(entries, id, true)[k] == entries[e],
    decreases entries.len(),
{
    if e == entries.len() - 1 {
        entries_of(entries, id, true).len() - 1
    } else {
        lemma_own_entry(entries.drop_last(), id, e)
    }
}

/// A connection that is left is among those that are left.
proof fn lemma_left_peer(peers: Seq<Peer>, id: u64, i: int) -> (k: int)
    requires
        0 <= i < peers.len(),
        peers[i].id != id,
    ensures
        0 <= k < peers_without(peers, id).len(),
        peers_without(peers, id)[k] == peers[i],
    decreases peers.len(),
{
    if i == peers.len() - 1 {
        peers_without(peers, id).len() - 1
    } else {
        lemma_left_peer(peers.drop_last(), id, i)
    }
}

/// When a connection ends, every subscriber that is left is told of the end of
/// every source that it had registered.
pub proof fn law_end_is_told(s: ServerView, peer: Peer, e: int, i: int)
    requires
        0 <= e < s.entries.len(),
        s.entries[e].peer == peer.id,
        0 <= i < s.peers.len(),
        s.peers[i].metadata,
        s.peers[i].id != peer.id,
    ensures
        dropped(s, peer).1.sends.contains(
            DeliveryView {
                peer: s.peers[i].id,
                bytes: message_frame(MessageView { removed: true, ..s.entries[e].address }),
            },
        ),
{
    let a = lemma_own_entry(s.entries, peer.id, e);
    let b = lemma_left_peer(s.peers, peer.id, i);
    lemma_removals_to(peers_without(s.peers, peer.id), entries_of(s.entries, peer.id, true), a, b);
}

} // verus!
