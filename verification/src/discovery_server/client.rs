//! The client's side of a discovery server: what it sends, and what it knows.

use crate::command::{classify, command_bytes, is_command, is_quality_text, is_redirect_text, Command, Message};
use crate::deframer::{FrameView, OwnedFrame};
use crate::discovery::{Source, SourceChange, SourceEvent, SourceView};
use crate::discovery_server::message::{
    address_frame, has_address, message_bytes, message_frame, message_in, payload_frame, push_payload, with_address, AddressMessage,
    MessageView,
};
use crate::discovery_server::round_trip::{lemma_message_is_plain, readable};
use crate::frame::ExtendedHeader;
use crate::ip::{in_order, ip_text, push_ip, sort_addresses, IpAddr};
use crate::table::{lists, views, SourceTable};
use crate::text::{chars_of, same_text, string_of};
use vstd::prelude::*;

verus! {

/// What a client knows.
#[verifier::ext_equal]
pub struct ClientView {
    /// Whether the connection to the server is up.
    pub connected: bool,
    /// Sources registered here, resent on every connect.
    pub local: Seq<MessageView>,
    /// Sources the server told of, by full name.
    pub learned: Map<Seq<char>, SourceView>,
}

/// The state of a connection to a discovery server.
///
/// It is a metadata-only receiver: one TCP connection that sends
/// `<OMTSubscribe Metadata="true" />` and then the local sources.
pub struct Client {
    connected: bool,
    local: Vec<AddressMessage>,
    learned: SourceTable,
}

/// Messages as plain values.
pub open spec fn message_views(v: Seq<AddressMessage>) -> Seq<MessageView> {
    Seq::new(v.len(), |i: int| v[i]@)
}

impl View for Client {
    type V = ClientView;

    closed spec fn view(&self) -> ClientView {
        ClientView {
            connected: self.connected,
            local: message_views(self.local@),
            learned: self.learned@,
        }
    }
}

/// The place of a name among messages.
pub open spec fn place_of(local: Seq<MessageView>, name: Seq<char>) -> Option<int>
    decreases local.len(),
{
    if local.len() == 0 {
        None
    } else if local[0].full_name == name {
        Some(0)
    } else {
        match place_of(local.skip(1), name) {
            Some(i) => Some(i + 1),
            None => None,
        }
    }
}

/// The message that registers a source here: its address is sent as loopback,
/// and the server replaces it with the one it sees.
pub open spec fn registration(name: Seq<char>, port: u16) -> MessageView {
    MessageView {
        full_name: name,
        port,
        removed: false,
        addresses: with_address(Seq::empty(), IpAddr::V4(0x7F00_0001)),
    }
}

/// The frames of messages, one behind the other.
pub open spec fn message_frames(s: Seq<MessageView>) -> Seq<u8>
    decreases s.len(),
{
    if s.len() == 0 {
        Seq::empty()
    } else {
        message_frames(s.drop_last()) + message_frame(s.last())
    }
}

/// What is sent on a new connection: the subscription, then every local
/// source.
pub open spec fn greeting_of(local: Seq<MessageView>) -> Seq<u8> {
    payload_frame(command_bytes(Command::SubscribeMetadata)) + message_frames(local)
}

/// The addresses of a source with those of a message that it does not have
/// yet.
pub open spec fn merged(s: Seq<IpAddr>, more: Seq<IpAddr>) -> Seq<IpAddr>
    decreases more.len(),
{
    if more.len() == 0 {
        s
    } else {
        let t = merged(s, more.drop_last());
        if t.contains(more.last()) {
            t
        } else {
            t.push(more.last())
        }
    }
}

/// The source of a message before it is merged: the one that is known, or one
/// without addresses.
pub open spec fn known_source(learned: Map<Seq<char>, SourceView>, m: MessageView) -> SourceView {
    if learned.contains_key(m.full_name) {
        learned[m.full_name]
    } else {
        SourceView { full_name: m.full_name, host: Seq::empty(), port: m.port, addresses: Seq::empty() }
    }
}

/// Whether a message changes what is known of its source.
pub open spec fn changes(learned: Map<Seq<char>, SourceView>, m: MessageView) -> bool {
    let s = known_source(learned, m);
    s.port != m.port || s.addresses.len() == 0 || merged(s.addresses, m.addresses) != s.addresses
}

/// What a source is after a message is merged into it: the port of the
/// message, and all addresses in the order in which they are tried. The server
/// gives no host name; the best address stands in for it. A source without
/// addresses keeps its host.
pub open spec fn merges(learned: Map<Seq<char>, SourceView>, m: MessageView, s: SourceView) -> bool {
    let k = known_source(learned, m);
    let all = merged(k.addresses, m.addresses);
    &&& s.full_name == k.full_name
    &&& s.port == m.port
    &&& s.addresses.to_multiset() == all.to_multiset()
    &&& s.addresses.len() == all.len()
    &&& in_order(s.addresses)
    &&& s.host == (if all.len() == 0 {
        k.host
    } else {
        ip_text(s.addresses[0])
    })
}

/// What a message does: a removal drops the entry, anything else creates it or
/// merges port and addresses into it. Subscribers are told of a change that
/// leaves a source to connect to, and of the removal of such a source.
pub open spec fn applied(
    before: Map<Seq<char>, SourceView>,
    m: MessageView,
    after: Map<Seq<char>, SourceView>,
    told: Option<SourceChange>,
) -> bool {
    if m.removed {
        &&& after == before.remove(m.full_name)
        &&& told == (if before.contains_key(m.full_name) && before[m.full_name].addresses.len() > 0 {
            Some(SourceChange::Removed(m.full_name))
        } else {
            None
        })
    } else {
        let s = after[m.full_name];
        &&& merges(before, m, s)
        &&& after == before.insert(m.full_name, s)
        &&& told == (if changes(before, m) && s.addresses.len() > 0 {
            Some(SourceChange::Resolved(s))
        } else {
            None
        })
    }
}

/// Changes as plain values.
pub open spec fn change_views(v: Seq<SourceEvent>) -> Seq<SourceChange> {
    Seq::new(v.len(), |i: int| v[i]@)
}

/// An optional change as a plain value.
pub open spec fn told_view(e: Option<SourceEvent>) -> Option<SourceChange> {
    match e {
        Some(e) => Some(e@),
        None => None,
    }
}

/// The sources with an address to connect to.
pub open spec fn with_addresses(rows: Seq<SourceView>) -> Seq<SourceView>
    decreases rows.len(),
{
    if rows.len() == 0 {
        Seq::empty()
    } else if rows.last().addresses.len() > 0 {
        with_addresses(rows.drop_last()).push(rows.last())
    } else {
        with_addresses(rows.drop_last())
    }
}

/// The removals of sources.
pub open spec fn removals(rows: Seq<SourceView>) -> Seq<SourceChange> {
    Seq::new(rows.len(), |i: int| SourceChange::Removed(rows[i].full_name))
}

/// The message of a frame: a metadata frame that is no command, setting or
/// redirect, and holds a message.
pub open spec fn frame_message(f: FrameView) -> Option<MessageView> {
    if f.ext == ExtendedHeader::Absent && !is_command(f.data) && !is_quality_text(f.data) && (
    crate::command::is_info_text(f.data) || !is_redirect_text(f.data)) {
        message_in(f.data)
    } else {
        None
    }
}

impl Client {
    /// The learned sources are kept by name, each under its own.
    pub closed spec fn wf(&self) -> bool {
        &&& self.learned.wf()
        &&& forall|n: Seq<char>| #[trigger] self.learned@.contains_key(n) ==> self.learned@[n].full_name == n
    }

    /// A client that is not connected and knows nothing.
    pub fn new() -> (r: Client)
        ensures
            r.wf(),
            r@ == (ClientView { connected: false, local: Seq::empty(), learned: Map::empty() }),
    {
        let r: Client = Client { connected: false, local: Vec::new(), learned: SourceTable::new() };
        assert(message_views(r.local@) =~= Seq::empty());
        r
    }

    /// The place of a name among the local sources.
    fn place(&self, full_name: &str) -> (r: Option<usize>)
        ensures
            match r {
                Some(i) => place_of(self@.local, full_name@) == Some(i as int) && i < self@.local.len(),
                None => place_of(self@.local, full_name@) is None,
            },
    {
        let ghost all = message_views(self.local@);
        let wanted: Vec<char> = chars_of(full_name);
        let mut i: usize = 0;
        assert(all.skip(0) =~= all);
        while i < self.local.len()
            invariant
                i <= self.local@.len(),
                all == message_views(self.local@),
                wanted@ == full_name@,
                place_of(all, full_name@) == (match place_of(all.skip(i as int), full_name@) {
                    Some(k) => Some(k + i),
                    None => None,
                }),
            decreases self.local@.len() - i,
        {
            let own: Vec<char> = chars_of(self.local[i].full_name.as_str());
            proof {
                assert(all.skip(i as int)[0] == self.local@[i as int]@);
                assert(all.skip(i as int).skip(1) =~= all.skip(i + 1));
            }
            if same_text(own.as_slice(), wanted.as_slice()) {
                return Some(i);
            }
            i = i + 1;
        }
        None
    }

    /// Registers a local source. It is sent now if connected, and again on
    /// every reconnect. Returns whether it is new, and the frame to send.
    pub fn register(&mut self, full_name: &str, port: u16) -> (r: (bool, Option<Vec<u8>>))
        requires
            old(self).wf(),
        ensures
            final(self).wf(),
            r.0 == (place_of(old(self)@.local, full_name@) is None),
            final(self)@ == (if r.0 {
                ClientView { local: old(self)@.local.push(registration(full_name@, port)), ..old(self)@ }
            } else {
                old(self)@
            }),
            r.1 is Some == (r.0 && old(self)@.connected),
            r.1 matches Some(f) ==> f@ == message_frame(registration(full_name@, port)),
    {
        match self.place(full_name) {
            Some(_) => (false, None),
            None => {
                let mut m: AddressMessage = AddressMessage::new(full_name, port);
                let _ = m.add_address(IpAddr::V4(0x7F00_0001));
                let send: Option<Vec<u8>> = if self.connected {
                    Some(address_frame(&m))
                } else {
                    None
                };
                let ghost before = self.local@;
                self.local.push(m);
                assert(message_views(self.local@) =~= message_views(before).push(m@));
                (true, send)
            },
        }
    }

    /// Withdraws a source, telling the server with
    /// `<Removed>True</Removed>`. Returns whether it was registered, and the
    /// frame to send.
    pub fn deregister(&mut self, full_name: &str) -> (r: (bool, Option<Vec<u8>>))
        requires
            old(self).wf(),
        ensures
            final(self).wf(),
            match place_of(old(self)@.local, full_name@) {
                Some(i) => {
                    &&& r.0
                    &&& final(self)@ == (ClientView { local: old(self)@.local.remove(i), ..old(self)@ })
                    &&& r.1 is Some == old(self)@.connected
                    &&& r.1 matches Some(f) ==> f@ == message_frame(
                        MessageView { removed: true, ..old(self)@.local[i] },
                    )
                },
                None => !r.0 && r.1 is None && final(self)@ == old(self)@,
            },
    {
        match self.place(full_name) {
            None => (false, None),
            Some(i) => {
                let ghost before = self.local@;
                let mut m: AddressMessage = self.local.remove(i);
                assert(message_views(self.local@) =~= message_views(before).remove(i as int));
                m.removed = true;
                let send: Option<Vec<u8>> = if self.connected {
                    Some(address_frame(&m))
                } else {
                    None
                };
                (true, send)
            },
        }
    }

    /// Whether the connection to the server is up.
    pub fn is_connected(&self) -> (r: bool)
        ensures
            r == self@.connected,
    {
        self.connected
    }

    /// What to send on a new connection.
    pub fn greeting(&self) -> (r: Vec<u8>)
        ensures
            r@ == greeting_of(self@.local),
    {
        let mut out: Vec<u8> = Vec::new();
        push_payload(Command::SubscribeMetadata.as_bytes(), &mut out);
        let ghost head = out@;
        let ghost all = message_views(self.local@);
        let mut i: usize = 0;
        assert(out@ =~= head + message_frames(all.take(0)));
        while i < self.local.len()
            invariant
                i <= self.local@.len(),
                all == message_views(self.local@),
                out@ == head + message_frames(all.take(i as int)),
            decreases self.local@.len() - i,
        {
            let f: Vec<u8> = address_frame(&self.local[i]);
            let ghost before = out@;
            out.extend_from_slice(f.as_slice());
            proof {
                assert(all.take(i + 1).drop_last() =~= all.take(i as int));
                assert(all.take(i + 1).last() == self.local@[i as int]@);
                assert(out@ =~= head + message_frames(all.take(i + 1)));
            }
            i = i + 1;
        }
        assert(all.take(i as int) =~= all);
        assert(head =~= payload_frame(command_bytes(Command::SubscribeMetadata)));
        out
    }

    /// The greeting has been sent.
    pub fn connected(&mut self)
        requires
            old(self).wf(),
        ensures
            final(self).wf(),
            final(self)@ == (ClientView { connected: true, ..old(self)@ }),
    {
        self.connected = true;
    }

    /// The connection has dropped: what the server told goes with it. Returns
    /// what to tell the subscribers.
    pub fn disconnected(&mut self) -> (r: Vec<SourceEvent>)
        requires
            old(self).wf(),
        ensures
            final(self).wf(),
            final(self)@ == (ClientView { connected: false, learned: Map::empty(), ..old(self)@ }),
            exists|rows: Seq<SourceView>|
                #[trigger] lists(old(self)@.learned, rows) && change_views(r@) == removals(with_addresses(rows)),
    {
        let gone: Vec<Source> = self.learned.list();
        let ghost learned = self@.learned;
        self.connected = false;
        self.learned = SourceTable::new();
        let ghost rows = views(gone@);
        let mut r: Vec<SourceEvent> = Vec::new();
        let mut i: usize = 0;
        proof {
            assert(rows.take(0) =~= Seq::empty());
            assert(change_views(r@) =~= removals(with_addresses(rows.take(0))));
        }
        while i < gone.len()
            invariant
                i <= gone@.len(),
                rows == views(gone@),
                lists(learned, rows),
                change_views(r@) == removals(with_addresses(rows.take(i as int))),
            decreases gone@.len() - i,
        {
            let ghost before = r@;
            proof {
                assert(rows.take(i + 1).drop_last() =~= rows.take(i as int));
                assert(rows.take(i + 1).last() == gone@[i as int]@);
            }
            if gone[i].addresses.len() > 0 {
                let e: SourceEvent = SourceEvent::Removed(gone[i].full_name.clone());
                r.push(e);
                assert(change_views(r@) =~= change_views(before).push(e@));
                assert(change_views(r@) =~= removals(with_addresses(rows.take(i + 1))));
            }
            i = i + 1;
        }
        assert(rows.take(i as int) =~= rows);
        r
    }

    /// A message arrived. Returns what to tell the subscribers.
    pub fn apply(&mut self, m: AddressMessage) -> (r: Option<SourceEvent>)
        requires
            old(self).wf(),
        ensures
            final(self).wf(),
            final(self)@.connected == old(self)@.connected,
            final(self)@.local == old(self)@.local,
            applied(old(self)@.learned, m@, final(self)@.learned, told_view(r)),
    {
        let ghost before = self.learned@;
        let ghost mv = m@;
        if m.removed {
            match self.learned.remove(m.full_name.as_str()) {
                Some(s) => {
                    if s.addresses.len() > 0 {
                        return Some(SourceEvent::Removed(m.full_name));
                    }
                },
                None => {},
            }
            return None;
        }
        let mut entry: Source = match self.learned.get(m.full_name.as_str()) {
            Some(s) => s,
            None => Source {
                full_name: m.full_name.clone(),
                host: String::new(),
                port: m.port,
                addresses: Vec::new(),
            },
        };
        let ghost k = entry@;
        proof {
            assert(k =~= known_source(before, mv));
        }
        let mut changed: bool = entry.port != m.port || entry.addresses.len() == 0;
        entry.port = m.port;
        let mut i: usize = 0;
        assert(m.addresses@.take(0) =~= Seq::empty());
        while i < m.addresses.len()
            invariant
                i <= m.addresses@.len(),
                entry@ == (SourceView {
                    addresses: merged(k.addresses, m.addresses@.take(i as int)),
                    port: m.port,
                    ..k
                }),
                changed == (k.port != m.port || k.addresses.len() == 0 || entry@.addresses != k.addresses),
                entry@.addresses.len() >= k.addresses.len(),
                entry@.addresses.len() == k.addresses.len() ==> entry@.addresses == k.addresses,
            decreases m.addresses@.len() - i,
        {
            assert(m.addresses@.take(i + 1).drop_last() =~= m.addresses@.take(i as int));
            if !has_address(&entry.addresses, m.addresses[i]) {
                entry.addresses.push(m.addresses[i]);
                changed = true;
            }
            i = i + 1;
        }
        assert(m.addresses@.take(i as int) =~= m.addresses@);
        let ghost all = entry.addresses@;
        entry.addresses = sort_addresses(entry.addresses.as_slice());
        if entry.addresses.len() == 0 {
            // Nothing to connect to yet.
            let ghost s = entry@;
            self.learned.insert(entry);
            assert(self.learned@[mv.full_name] == s);
            return None;
        }
        let mut host: Vec<char> = Vec::new();
        push_ip(&mut host, entry.addresses[0]);
        assert(host@ =~= ip_text(entry.addresses@[0]));
        entry.host = string_of(&host);
        let copy: Source = entry.copy();
        let ghost s = entry@;
        self.learned.insert(entry);
        assert(self.learned@[mv.full_name] == s);
        if changed {
            Some(SourceEvent::Resolved(copy))
        } else {
            None
        }
    }

    /// A frame arrived. Commands such as the tally that the server sends on
    /// connect are not for the client. Returns what to tell the subscribers.
    /// A frame that carries a message as it is written has that message
    /// applied.
    pub fn received(&mut self, f: &OwnedFrame) -> (r: Option<SourceEvent>)
        requires
            old(self).wf(),
        ensures
            final(self).wf(),
            final(self)@.connected == old(self)@.connected,
            final(self)@.local == old(self)@.local,
            match frame_message(f@) {
                Some(m) => applied(old(self)@.learned, m, final(self)@.learned, told_view(r)),
                None => final(self)@ == old(self)@ && r is None,
            },
            forall|m: MessageView|
                f@.ext == ExtendedHeader::Absent && f@.data == #[trigger] message_bytes(m) && readable(m) ==> applied(
                    old(self)@.learned,
                    m,
                    final(self)@.learned,
                    told_view(r),
                ),
    {
        proof {
            assert forall|m: MessageView| f@.data == #[trigger] message_bytes(m) implies !is_command(f@.data)
                && !is_quality_text(f@.data) && !is_redirect_text(f@.data) by {
                lemma_message_is_plain(m);
            }
        }
        match f.ext {
            ExtendedHeader::Absent => {},
            _ => {
                return None;
            },
        }
        match classify(f.data.as_slice()) {
            Message::Application(x) => match AddressMessage::from_xml(x) {
                Some(m) => self.apply(m),
                None => None,
            },
            Message::SenderInfo(x) => match AddressMessage::from_xml(x) {
                Some(m) => self.apply(m),
                None => None,
            },
            _ => None,
        }
    }

    /// Sources the server has reported and not removed, with at least one
    /// usable address, sorted by full name.
    pub fn sources(&self) -> (r: Vec<Source>)
        requires
            self.wf(),
        ensures
            exists|rows: Seq<SourceView>|
                #[trigger] lists(self@.learned, rows) && views(r@) == with_addresses(rows),
    {
        let all: Vec<Source> = self.learned.list();
        let ghost rows = views(all@);
        let mut r: Vec<Source> = Vec::new();
        let mut i: usize = 0;
        proof {
            assert(rows.take(0) =~= Seq::empty());
            assert(views(r@) =~= with_addresses(rows.take(0)));
        }
        while i < all.len()
            invariant
                i <= all@.len(),
                rows == views(all@),
                lists(self@.learned, rows),
                views(r@) == with_addresses(rows.take(i as int)),
            decreases all@.len() - i,
        {
            let ghost before = r@;
            proof {
                assert(rows.take(i + 1).drop_last() =~= rows.take(i as int));
                assert(rows.take(i + 1).last() == all@[i as int]@);
            }
            if all[i].addresses.len() > 0 {
                r.push(all[i].copy());
                assert(views(r@) =~= views(before).push(all@[i as int]@));
            }
            i = i + 1;
        }
        assert(rows.take(i as int) =~= rows);
        r
    }

    /// What a new subscriber is told first: each source already known.
    pub fn subscribe(&self) -> (r: Vec<SourceEvent>)
        requires
            self.wf(),
        ensures
            exists|rows: Seq<SourceView>|
                #[trigger] lists(self@.learned, rows) && change_views(r@) == resolutions(with_addresses(rows)),
    {
        let all: Vec<Source> = self.sources();
        let ghost rows = views(all@);
        let mut r: Vec<SourceEvent> = Vec::new();
        let mut i: usize = 0;
        while i < all.len()
            invariant
                i <= all@.len(),
                rows == views(all@),
                change_views(r@) == resolutions(rows.take(i as int)),
            decreases all@.len() - i,
        {
            let ghost before = r@;
            let e: SourceEvent = SourceEvent::Resolved(all[i].copy());
            r.push(e);
            assert(change_views(r@) =~= change_views(before).push(e@));
            assert(resolutions(rows.take(i + 1)) =~= resolutions(rows.take(i as int)).push(e@));
            i = i + 1;
        }
        assert(rows.take(i as int) =~= rows);
        r
    }
}

/// The resolutions of sources.
pub open spec fn resolutions(rows: Seq<SourceView>) -> Seq<SourceChange> {
    Seq::new(rows.len(), |i: int| SourceChange::Resolved(rows[i]))
}

/// Registering a name and withdrawing it leaves the local sources as they
/// were, and a name cannot be registered twice.
pub proof fn law_register_once(local: Seq<MessageView>, name: Seq<char>, port: u16)
    requires
        place_of(local, name) is None,
    ensures
        ({
            let more = local.push(registration(name, port));
            &&& place_of(more, name) == Some(local.len() as int)
            &&& more.remove(local.len() as int) == local
        }),
    decreases local.len(),
{
    let more = local.push(registration(name, port));
    if local.len() > 0 {
        law_register_once(local.skip(1), name, port);
        assert(more.skip(1) =~= local.skip(1).push(registration(name, port)));
    }
    assert(more.remove(local.len() as int) =~= local);
}

/// A source that the server reports and then removes is gone, and what is
/// known of other sources stays as it was.
pub proof fn law_removal_undoes(
    before: Map<Seq<char>, SourceView>,
    m: MessageView,
    mid: Map<Seq<char>, SourceView>,
    told: Option<SourceChange>,
    after: Map<Seq<char>, SourceView>,
    told2: Option<SourceChange>,
)
    requires
        !m.removed,
        applied(before, m, mid, told),
        applied(mid, MessageView { removed: true, ..m }, after, told2),
    ensures
        after == before.remove(m.full_name),
{
    assert(after =~= before.remove(m.full_name));
}

} // verus!
