//! The `<OMTAddress>` message and the URL of a server.

use crate::discovery::{full_name_chars, full_name_of, text_of, valid_full_name};
use crate::document::{
    child, child_of, document_of, inner_text, inner_text_of, is_named_child, named_child, node_views,
    parse_document, pieces_text, NodeKind, XmlNode, XmlNodeView,
};
use crate::discovery_server::round_trip::{lemma_message_bytes, lemma_message_round_trip, message_pieces, readable};
use crate::frame::{frame_bytes, write_metadata, ExtendedHeader};
use crate::ip::{canonical, ip_of, ip_text, is_ipv6_link_local, push_ip, IpAddr};
use crate::text::{
    chars_of, cut_zeros, decimal, decimal_chars, decode_lossy, digits_value, eq_ignore_case, find, find_last, from_index, has_char,
    index_of, is_text, last_index_of, law_decimal, lemma_index_at, lemma_index_none, lemma_last_index_at,
    lemma_last_index_of, lossy, parse_unsigned, push_chars, push_str, same_letters, string_of, trim,
    trimmed, unsigned_of, up_to, without_zeros,
};
use crate::xml::{escaped, push_escaped};
use vstd::prelude::*;

verus! {

/// Port a client uses when the server URL has none.
pub const DEFAULT_PORT: u16 = 6399;

/// One `<OMTAddress>` message.
#[derive(Clone, Debug, PartialEq, Eq)]
pub struct AddressMessage {
    /// `MACHINE (Name)`.
    pub full_name: String,
    /// The source's TCP port.
    pub port: u16,
    /// `<Removed>True</Removed>`: the source went away.
    pub removed: bool,
    /// IPv4 first, then IPv6, no IPv6 link-local, no duplicates. IPv4 is
    /// written as IPv4-mapped IPv6.
    pub addresses: Vec<IpAddr>,
}

/// A message as plain values.
#[verifier::ext_equal]
pub struct MessageView {
    /// `MACHINE (Name)`.
    pub full_name: Seq<char>,
    /// Port.
    pub port: u16,
    /// The source went away.
    pub removed: bool,
    /// Addresses.
    pub addresses: Seq<IpAddr>,
}

impl View for AddressMessage {
    type V = MessageView;

    open spec fn view(&self) -> MessageView {
        MessageView {
            full_name: self.full_name@,
            port: self.port,
            removed: self.removed,
            addresses: self.addresses@,
        }
    }
}

/// How many addresses at the front are IPv4.
pub open spec fn v4_count(s: Seq<IpAddr>) -> int
    decreases s.len(),
{
    if s.len() > 0 && s[0] is V4 {
        1 + v4_count(s.skip(1))
    } else {
        0
    }
}

/// Whether an address is refused: IPv6 link-local or there already.
pub open spec fn refused(s: Seq<IpAddr>, ip: IpAddr) -> bool {
    ip.unmapped().v6_link_local() || s.contains(ip.unmapped())
}

/// The addresses with one more: IPv4 goes behind the other IPv4 addresses and
/// before all IPv6 ones.
pub open spec fn with_address(s: Seq<IpAddr>, ip: IpAddr) -> Seq<IpAddr> {
    let ip = ip.unmapped();
    if refused(s, ip) {
        s
    } else if ip is V4 {
        s.insert(v4_count(s), ip)
    } else {
        s.push(ip)
    }
}

/// Addresses as a message keeps them: IPv4 first, each once, none of them
/// IPv6 link-local or an IPv4 address in disguise.
pub open spec fn kept(s: Seq<IpAddr>) -> bool {
    &&& forall|i: int, j: int| 0 <= i < j < s.len() && (#[trigger] s[j]) is V4 ==> (#[trigger] s[i]) is V4
    &&& forall|i: int, j: int| 0 <= i < j < s.len() ==> #[trigger] s[i] != #[trigger] s[j]
    &&& forall|i: int| 0 <= i < s.len() ==> !(#[trigger] s[i]).v6_link_local() && s[i].unmapped() == s[i]
}

/// The IPv4 addresses at the front are all of them.
pub proof fn lemma_v4_count(s: Seq<IpAddr>)
    requires
        kept(s),
    ensures
        0 <= v4_count(s) <= s.len(),
        forall|i: int| 0 <= i < s.len() ==> (#[trigger] s[i] is V4 <==> i < v4_count(s)),
    decreases s.len(),
{
    if s.len() > 0 && s[0] is V4 {
        let t = s.skip(1);
        assert forall|i: int, j: int| 0 <= i < j < t.len() && (#[trigger] t[j]) is V4 implies (#[trigger] t[i]) is V4 by {
            assert(s[j + 1] is V4 ==> s[i + 1] is V4);
        }
        assert forall|i: int, j: int| 0 <= i < j < t.len() implies #[trigger] t[i] != #[trigger] t[j] by {
            assert(s[i + 1] != s[j + 1]);
        }
        lemma_v4_count(t);
        assert forall|i: int| 0 <= i < s.len() implies (#[trigger] s[i] is V4 <==> i < v4_count(s)) by {
            if i > 0 {
                assert(s[i] == t[i - 1]);
            }
        }
    } else if s.len() > 0 {
        assert forall|i: int| 0 <= i < s.len() implies !(#[trigger] s[i] is V4) by {
            if i > 0 && s[i] is V4 {
                assert(s[0] is V4);
            }
        }
    }
}

/// Adding an address keeps IPv4 first, duplicates and IPv6 link-local
/// addresses out, and leaves what was there in its order.
pub proof fn law_addresses_kept(s: Seq<IpAddr>, ip: IpAddr)
    requires
        kept(s),
    ensures
        kept(with_address(s, ip)),
        with_address(with_address(s, ip), ip) == with_address(s, ip),
        !ip.unmapped().v6_link_local() ==> with_address(s, ip).contains(ip.unmapped()),
{
    let a = ip.unmapped();
    lemma_v4_count(s);
    let t = with_address(s, ip);
    let n = v4_count(s);
    if !refused(s, ip) {
        if a is V4 {
            assert(t[n] == a);
            assert forall|i: int| 0 <= i < t.len() && i != n implies #[trigger] t[i] == s[if i < n { i } else { i - 1 }] by {}
        } else {
            assert(t[s.len() as int] == a);
        }
        assert forall|i: int, j: int| 0 <= i < j < t.len() && (#[trigger] t[j]) is V4 implies (#[trigger] t[i]) is V4 by {
            if a is V4 {
                if i != n {
                    let x = if i < n { i } else { i - 1 };
                    assert(t[i] == s[x]);
                    if j != n {
                        let y = if j < n { j } else { j - 1 };
                        assert(t[j] == s[y]);
                    }
                }
            } else {
                assert(t[j] == s[j] && t[i] == s[i]);
            }
        }
        assert forall|i: int, j: int| 0 <= i < j < t.len() implies #[trigger] t[i] != #[trigger] t[j] by {
            let m = if a is V4 { n } else { s.len() as int };
            let x = if i < m { i } else { i - 1 };
            let y = if j < m { j } else { j - 1 };
            if i != m && j != m {
                assert(t[i] == s[x] && t[j] == s[y]);
                assert(s[x] != s[y]);
            } else if i == m {
                assert(t[j] == s[y]);
            } else {
                assert(t[i] == s[x]);
            }
        }
        assert forall|i: int| 0 <= i < t.len() implies !(#[trigger] t[i]).v6_link_local() && t[i].unmapped() == t[i] by {
            let m = if a is V4 { n } else { s.len() as int };
            if i != m {
                let x = if i < m { i } else { i - 1 };
                assert(t[i] == s[x]);
            }
        }
    }
}

/// The text of a message: an element per line, indented by two spaces.
pub open spec fn message_text(m: MessageView) -> Seq<char> {
    "<OMTAddress>\n  <Name>"@ + escaped(m.full_name, false) + "</Name>\n  <Port>"@ + decimal(m.port as nat)
        + "</Port>\n"@ + removed_text(m.removed) + addresses_text(m.addresses) + "</OMTAddress>"@
}

/// The line of a removal.
pub open spec fn removed_text(removed: bool) -> Seq<char> {
    if removed {
        "  <Removed>True</Removed>\n"@
    } else {
        Seq::empty()
    }
}

/// The lines of the addresses.
pub open spec fn addresses_text(s: Seq<IpAddr>) -> Seq<char> {
    if s.len() == 0 {
        "  <Addresses />\n"@
    } else {
        "  <Addresses>\n"@ + address_lines(s) + "  </Addresses>\n"@
    }
}

/// One line per address.
pub open spec fn address_lines(s: Seq<IpAddr>) -> Seq<char>
    decreases s.len(),
{
    if s.len() == 0 {
        Seq::empty()
    } else {
        address_lines(s.drop_last()) + "    <IPAddress>"@ + ip_text(s.last().mapped()) + "</IPAddress>\n"@
    }
}

/// The bytes of a message.
pub open spec fn message_bytes(m: MessageView) -> Seq<u8> {
    vstd::utf8::encode_utf8(message_text(m))
}

/// The frame of a payload. One that is too long for a frame gives none.
pub open spec fn payload_frame(xml: Seq<u8>) -> Seq<u8> {
    if xml.len() <= i32::MAX {
        frame_bytes(0, ExtendedHeader::Absent, xml, Seq::empty())
    } else {
        Seq::empty()
    }
}

/// The frame of a message.
pub open spec fn message_frame(m: MessageView) -> Seq<u8> {
    payload_frame(message_bytes(m))
}

/// An IPv4 address as the IPv6 address that maps it.
fn wire_ip(ip: IpAddr) -> (r: IpAddr)
    ensures
        r == ip.mapped(),
{
    match ip {
        IpAddr::V4(b) => IpAddr::V6(0xFFFF_0000_0000 + b as u128),
        IpAddr::V6(_) => ip,
    }
}

/// Appends the frame of a payload, unless it is too long for one.
pub(crate) fn push_payload(xml: &[u8], out: &mut Vec<u8>)
    ensures
        final(out)@ == old(out)@ + payload_frame(xml@),
{
    if xml.len() <= 0x7FFF_FFFF {
        write_metadata(0, xml, out);
    } else {
        assert(out@ + payload_frame(xml@) =~= out@);
    }
}

/// The frame of a message.
pub fn address_frame(m: &AddressMessage) -> (r: Vec<u8>)
    ensures
        r@ == message_frame(m@),
{
    let mut out: Vec<u8> = Vec::new();
    let xml: String = m.to_xml();
    push_payload(xml.as_str().as_bytes(), &mut out);
    assert(out@ =~= message_frame(m@));
    out
}

impl AddressMessage {
    /// A message for `full_name` on `port`.
    pub fn new(full_name: &str, port: u16) -> (r: AddressMessage)
        ensures
            r@ == (MessageView { full_name: full_name@, port, removed: false, addresses: Seq::empty() }),
    {
        AddressMessage { full_name: full_name.to_string(), port, removed: false, addresses: Vec::new() }
    }

    /// A copy.
    pub fn copy(&self) -> (r: AddressMessage)
        ensures
            r@ == self@,
    {
        AddressMessage {
            full_name: self.full_name.clone(),
            port: self.port,
            removed: self.removed,
            addresses: crate::discovery::copy_addresses(&self.addresses),
        }
    }

    /// Adds an address: IPv6 link-local is refused, duplicates are ignored,
    /// IPv4 goes after the other IPv4 addresses and before all IPv6 ones.
    /// Returns whether it was added.
    pub fn add_address(&mut self, ip: IpAddr) -> (r: bool)
        ensures
            final(self)@ == (MessageView { addresses: with_address(old(self)@.addresses, ip), ..old(self)@ }),
            r == !refused(old(self)@.addresses, ip),
    {
        let ip: IpAddr = canonical(ip);
        if is_ipv6_link_local(&ip) || has_address(&self.addresses, ip) {
            return false;
        }
        if ip.is_ipv4() {
            let at: usize = count_v4(&self.addresses);
            self.addresses.insert(at, ip);
        } else {
            self.addresses.push(ip);
        }
        true
    }

    /// The XML of the message. Text escapes `&`, `<` and `>`.
    pub fn to_xml(&self) -> (r: String)
        ensures
            r@ == message_text(self@),
    {
        let name: Vec<char> = chars_of(self.full_name.as_str());
        let port: Vec<char> = decimal_chars(self.port as u64);
        let mut v: Vec<char> = Vec::new();
        push_str(&mut v, "<OMTAddress>\n  <Name>");
        push_escaped(&mut v, name.as_slice(), false);
        push_str(&mut v, "</Name>\n  <Port>");
        push_chars(&mut v, port.as_slice());
        push_str(&mut v, "</Port>\n");
        let ghost head = v@;
        if self.removed {
            push_str(&mut v, "  <Removed>True</Removed>\n");
        }
        assert(v@ =~= head + removed_text(self.removed));
        self.push_addresses(&mut v);
        push_str(&mut v, "</OMTAddress>");
        assert(v@ =~= message_text(self@));
        string_of(&v)
    }

    /// Appends the lines of the addresses.
    fn push_addresses(&self, v: &mut Vec<char>)
        ensures
            final(v)@ == old(v)@ + addresses_text(self.addresses@),
    {
        if self.addresses.len() == 0 {
            push_str(v, "  <Addresses />\n");
            return;
        }
        let ghost s = self.addresses@;
        push_str(v, "  <Addresses>\n");
        let ghost head = v@;
        let mut i: usize = 0;
        assert(v@ =~= head + address_lines(s.take(0)));
        while i < self.addresses.len()
            invariant
                i <= self.addresses@.len(),
                s == self.addresses@,
                v@ == head + address_lines(s.take(i as int)),
            decreases self.addresses@.len() - i,
        {
            push_str(v, "    <IPAddress>");
            push_ip(v, wire_ip(self.addresses[i]));
            push_str(v, "</IPAddress>\n");
            proof {
                assert(s.take(i + 1).drop_last() =~= s.take(i as int));
                assert(v@ =~= head + address_lines(s.take(i + 1)));
            }
            i = i + 1;
        }
        push_str(v, "  </Addresses>\n");
        assert(s.take(i as int) =~= s);
        assert(v@ =~= old(v)@ + addresses_text(s));
    }

    /// Parses a metadata payload: the root element must be `OMTAddress` with
    /// `Name` and `Port` children; `Name` is rebuilt (machine part trimmed, the
    /// last character dropped as the closing parenthesis, 63-character limit);
    /// addresses come from `Addresses/IPAddress`; `Removed` counts if its text
    /// is `true` in any case. Trailing NULs are ignored. Returns `None` for
    /// anything else. What [`AddressMessage::to_xml`] writes is read back.
    pub fn from_xml(payload: &[u8]) -> (r: Option<AddressMessage>)
        ensures
            match r {
                Some(m) => message_in(payload@) == Some(m@),
                None => message_in(payload@) is None,
            },
            forall|m: MessageView|
                payload@ == #[trigger] message_bytes(m) && readable(m) ==> r is Some && r->0@ == m,
    {
        let text: String = decode_lossy(cut_zeros(payload));
        let nodes: Option<Vec<XmlNode>> = parse_document(text.as_str());
        proof {
            assert forall|m: MessageView|
                payload@ == #[trigger] message_bytes(m) && readable(m) implies nodes is Some && message_of(
                node_views(nodes->0@),
            ) == Some(m) by {
                lemma_message_bytes(m);
                lemma_message_round_trip(m);
                assert(text@ == pieces_text(message_pieces(m)));
            }
        }
        match nodes {
            Some(nodes) => AddressMessage::from_nodes(&nodes),
            None => None,
        }
    }

    /// The message that a document holds.
    pub fn from_nodes(nodes: &Vec<XmlNode>) -> (r: Option<AddressMessage>)
        ensures
            match r {
                Some(m) => message_of(node_views(nodes@)) == Some(m@),
                None => message_of(node_views(nodes@)) is None,
            },
    {
        let ghost all = node_views(nodes@);
        let root: usize = match root_element(nodes) {
            Some(i) => i,
            None => {
                return None;
            },
        };
        assert(all[root as int] == nodes@[root as int]@);
        let tag: Vec<char> = chars_of(nodes[root].name.as_str());
        if !is_text(tag.as_slice(), "OMTAddress") || nodes[root].namespaced {
            return None;
        }
        let name: Vec<char> = match child(nodes, root, "Name") {
            Some(i) => inner_text(nodes, i),
            None => {
                return None;
            },
        };
        let port_text: Vec<char> = match child(nodes, root, "Port") {
            Some(i) => inner_text(nodes, i),
            None => {
                return None;
            },
        };
        let port: u16 = match parse_port(trim(port_text.as_slice())) {
            Some(p) => p,
            None => {
                return None;
            },
        };
        let full_name: Vec<char> = match normalize_full_name(name.as_slice()) {
            Some(n) => n,
            None => {
                return None;
            },
        };
        let mut m: AddressMessage = AddressMessage {
            full_name: string_of(&full_name),
            port,
            removed: false,
            addresses: Vec::new(),
        };
        let mut j: usize = 0;
        while j < nodes.len()
            invariant
                all == node_views(nodes@),
                j <= nodes@.len(),
                m@ == (MessageView {
                    full_name: full_name@,
                    port,
                    removed: false,
                    addresses: addresses_before(all, root as int, j as int),
                }),
            decreases nodes@.len() - j,
        {
            if is_address_node(nodes, root, j) {
                let t: Vec<char> = inner_text(nodes, j);
                match parse_ip(t.as_slice()) {
                    Some(ip) => {
                        let _ = m.add_address(ip);
                    },
                    None => {},
                }
            }
            j = j + 1;
        }
        match child(nodes, root, "Removed") {
            Some(i) => {
                let t: Vec<char> = inner_text(nodes, i);
                m.removed = eq_ignore_case(t.as_slice(), "true");
            },
            None => {},
        }
        Some(m)
    }
}

/// Whether an address is there.
pub(crate) fn has_address(v: &Vec<IpAddr>, ip: IpAddr) -> (r: bool)
    ensures
        r == v@.contains(ip),
{
    let mut i: usize = 0;
    while i < v.len()
        invariant
            i <= v@.len(),
            forall|k: int| 0 <= k < i ==> #[trigger] v@[k] != ip,
        decreases v@.len() - i,
    {
        if v[i] == ip {
            assert(v@[i as int] == ip);
            return true;
        }
        i = i + 1;
    }
    false
}

/// Counts the IPv4 addresses at the front.
fn count_v4(v: &Vec<IpAddr>) -> (r: usize)
    ensures
        r == v4_count(v@),
        r <= v@.len(),
{
    let mut i: usize = 0;
    assert(v@.skip(0) =~= v@);
    while i < v.len() && v[i].is_ipv4()
        invariant
            i <= v@.len(),
            v4_count(v@) == i + v4_count(v@.skip(i as int)),
        decreases v@.len() - i,
    {
        assert(v@.skip(i as int).skip(1) =~= v@.skip(i + 1));
        i = i + 1;
    }
    i
}

// ---------------------------------------------------------------------------
// Reading a message
// ---------------------------------------------------------------------------

/// The message of a payload.
pub open spec fn message_in(payload: Seq<u8>) -> Option<MessageView> {
    match document_of(lossy(without_zeros(payload))) {
        Some(nodes) => message_of(nodes),
        None => None,
    }
}

/// The root element: the first element that is a child of the document.
pub open spec fn root_from(nodes: Seq<XmlNodeView>, j: int) -> Option<int>
    decreases nodes.len() - j,
{
    if j >= nodes.len() {
        None
    } else if nodes[j].kind == NodeKind::Element && nodes[j].parent == 0 {
        Some(j)
    } else {
        root_from(nodes, j + 1)
    }
}

/// Finds the root element.
fn root_element(nodes: &Vec<XmlNode>) -> (r: Option<usize>)
    ensures
        match r {
            Some(i) => root_from(node_views(nodes@), 1) == Some(i as int) && i < nodes@.len(),
            None => root_from(node_views(nodes@), 1) is None,
        },
{
    let mut j: usize = 1;
    while j < nodes.len()
        invariant
            1 <= j,
            root_from(node_views(nodes@), 1) == root_from(node_views(nodes@), j as int),
        decreases nodes@.len() - j,
    {
        assert(node_views(nodes@)[j as int] == nodes@[j as int]@);
        match nodes[j].kind {
            NodeKind::Element => {
                if nodes[j].parent == 0 {
                    return Some(j);
                }
            },
            _ => {},
        }
        j = j + 1;
    }
    None
}

/// A port: a number with an optional sign, from 0 to 65535.
pub open spec fn port_of(s: Seq<char>) -> Option<int> {
    if s.len() > 0 && s[0] == '-' {
        if s.len() > 1 && digits_value(s.skip(1), 10) == Some(0int) {
            Some(0)
        } else {
            None
        }
    } else {
        unsigned_of(s, 10, 65535)
    }
}

/// Reads a port.
fn parse_port(s: &[char]) -> (r: Option<u16>)
    ensures
        match r {
            Some(p) => port_of(s@) == Some(p as int),
            None => port_of(s@) is None,
        },
{
    if s.len() > 0 && s[0] == '-' {
        if s.len() > 1 {
            match crate::text::read_digits(from_index(s, 1), 10, 0) {
                Some(_) => Some(0),
                None => None,
            }
        } else {
            None
        }
    } else {
        match parse_unsigned(s, 10, 65535) {
            Some(p) => Some(p as u16),
            None => None,
        }
    }
}

/// A full name rebuilt from its parts: the machine is what stands before the
/// first `(`, trimmed, and the name what stands behind it but for the last
/// character.
pub open spec fn normalized(full: Seq<char>) -> Option<Seq<char>> {
    if !valid_full_name(full) {
        None
    } else {
        match index_of(full, '(') {
            Some(open) => {
                let rest = full.skip(open + 1);
                if open == 0 || rest.len() == 0 {
                    None
                } else {
                    Some(full_name_of(trimmed(full.take(open)), rest.drop_last()))
                }
            },
            None => None,
        }
    }
}

/// Rebuilds a full name.
fn normalize_full_name(full: &[char]) -> (r: Option<Vec<char>>)
    ensures
        match r {
            Some(v) => normalized(full@) == Some(v@),
            None => normalized(full@) is None,
        },
{
    let n: usize = full.len();
    if !has_char(full, '(') || !has_char(full, ')') {
        return None;
    }
    match find(full, '(') {
        None => None,
        Some(open) => {
            assert(open < n);
            let rest: &[char] = from_index(full, open + 1);
            if open == 0 || rest.len() == 0 {
                return None;
            }
            let name: &[char] = up_to(rest, rest.len() - 1);
            assert(name@ =~= rest@.drop_last());
            Some(full_name_chars(trim(up_to(full, open)), name))
        },
    }
}

/// An address in text, perhaps in brackets, with white space around it and a
/// scope behind it.
pub open spec fn ip_in(s: Seq<char>) -> Option<IpAddr> {
    let t = trimmed(s);
    let u = if t.len() >= 2 && t[0] == '[' && t.last() == ']' {
        t.subrange(1, t.len() - 1)
    } else {
        t
    };
    ip_of(
        match index_of(u, '%') {
            Some(i) => u.take(i),
            None => u,
        },
    )
}

/// Reads an address. The scope of an IPv6 address is dropped.
fn parse_ip(s: &[char]) -> (r: Option<IpAddr>)
    ensures
        r == ip_in(s@),
{
    let t: &[char] = trim(s);
    let u: &[char] = if t.len() >= 2 && t[0] == '[' && t[t.len() - 1] == ']' {
        crate::text::between(t, 1, t.len() - 1)
    } else {
        t
    };
    match find(u, '%') {
        Some(i) => crate::ip::parse(up_to(u, i)),
        None => crate::ip::parse(u),
    }
}

/// An `IPAddress` element of an `Addresses` element of the root.
pub open spec fn address_node(nodes: Seq<XmlNodeView>, root: int, j: int) -> bool {
    &&& 0 <= j < nodes.len()
    &&& named_child(nodes, root, nodes[j].parent, "Addresses"@)
    &&& named_child(nodes, nodes[j].parent, j, "IPAddress"@)
}

/// Whether a node holds an address.
fn is_address_node(nodes: &Vec<XmlNode>, root: usize, j: usize) -> (r: bool)
    requires
        j < nodes@.len(),
    ensures
        r == address_node(node_views(nodes@), root as int, j as int),
{
    let p: usize = nodes[j].parent;
    assert(node_views(nodes@)[j as int].parent == p);
    is_named_child(nodes, root, p, "Addresses") && is_named_child(nodes, p, j, "IPAddress")
}

/// The addresses among the nodes before a place.
pub open spec fn addresses_before(nodes: Seq<XmlNodeView>, root: int, j: int) -> Seq<IpAddr>
    decreases j,
{
    if j <= 0 {
        Seq::empty()
    } else {
        let s = addresses_before(nodes, root, j - 1);
        if address_node(nodes, root, j - 1) {
            match ip_in(inner_text_of(nodes, j - 1)) {
                Some(ip) => with_address(s, ip),
                None => s,
            }
        } else {
            s
        }
    }
}

/// The message of a document.
pub open spec fn message_of(nodes: Seq<XmlNodeView>) -> Option<MessageView> {
    match root_from(nodes, 1) {
        None => None,
        Some(root) => if nodes[root].name != "OMTAddress"@ || nodes[root].namespaced {
            None
        } else {
            match (child_of(nodes, root, "Name"@), child_of(nodes, root, "Port"@)) {
                (Some(name), Some(port)) => match (
                    normalized(inner_text_of(nodes, name)),
                    port_of(trimmed(inner_text_of(nodes, port))),
                ) {
                    (Some(full_name), Some(port)) => Some(
                        MessageView {
                            full_name,
                            port: port as u16,
                            removed: match child_of(nodes, root, "Removed"@) {
                                Some(i) => same_letters(inner_text_of(nodes, i), "true"@),
                                None => false,
                            },
                            addresses: addresses_before(nodes, root, nodes.len() as int),
                        },
                    ),
                    _ => None,
                },
                _ => None,
            }
        },
    }
}

// ---------------------------------------------------------------------------
// The URL of a server
// ---------------------------------------------------------------------------

/// Why a text is not the URL of a server.
#[derive(Clone, Debug, PartialEq, Eq)]
pub struct UrlError {
    /// The text.
    pub url: String,
}

impl UrlError {
    /// What went wrong, in words.
    pub fn to_string(&self) -> (r: String)
        ensures
            r@ == "not an omt:// URL: "@ + self.url@,
    {
        let mut v: Vec<char> = Vec::new();
        push_str(&mut v, "not an omt:// URL: ");
        push_str(&mut v, self.url.as_str());
        assert(v@ =~= "not an omt:// URL: "@ + self.url@);
        string_of(&v)
    }
}

/// The host of a server and its port, still as text.
pub open spec fn server_parts(s: Seq<char>) -> Option<(Seq<char>, Option<Seq<char>>)> {
    if s.len() > 0 && s[0] == '[' {
        let t = s.skip(1);
        match index_of(t, ']') {
            None => None,
            Some(i) => {
                let after = t.skip(i + 1);
                Some(
                    (
                        t.take(i),
                        if after.len() > 0 && after[0] == ':' {
                            Some(after.skip(1))
                        } else {
                            None
                        },
                    ),
                )
            },
        }
    } else {
        match last_index_of(s, ':') {
            None => Some((s, None)),
            Some(i) => Some((s.take(i), Some(s.skip(i + 1)))),
        }
    }
}

/// The authority of a server URL: what stands between the prefix and a `/`.
pub open spec fn server_authority(s: Seq<char>) -> Seq<char> {
    match index_of(s.skip(6), '/') {
        Some(i) => s.skip(6).take(i),
        None => s.skip(6),
    }
}

/// The host and the port of a server URL.
pub open spec fn server_of(s: Seq<char>) -> Option<(Seq<char>, int)> {
    if !crate::address::is_url(s) {
        None
    } else {
        match server_parts(server_authority(s)) {
            None => None,
            Some((host, port)) => if host.len() == 0 {
                None
            } else {
                match port {
                    None => Some((host, DEFAULT_PORT as int)),
                    Some(p) => if p.len() == 0 {
                        Some((host, DEFAULT_PORT as int))
                    } else {
                        match unsigned_of(p, 10, 65535) {
                            None => None,
                            Some(n) => Some(
                                (
                                    host,
                                    if n == 0 {
                                        DEFAULT_PORT as int
                                    } else {
                                        n
                                    },
                                ),
                            ),
                        }
                    },
                }
            },
        }
    }
}

/// Splits an authority into the host of a server and its port.
fn split_server<'a>(s: &'a [char]) -> (r: Option<(&'a [char], Option<&'a [char]>)>)
    ensures
        match r {
            Some((h, Some(p))) => server_parts(s@) == Some((h@, Some(p@))),
            Some((h, None)) => server_parts(s@) == Some((h@, None::<Seq<char>>)),
            None => server_parts(s@) is None,
        },
{
    let n: usize = s.len();
    if n > 0 && s[0] == '[' {
        let t: &[char] = from_index(s, 1);
        match find(t, ']') {
            None => None,
            Some(i) => {
                assert(i < n);
                let after: &[char] = from_index(t, i + 1);
                if after.len() > 0 && after[0] == ':' {
                    Some((up_to(t, i), Some(from_index(after, 1))))
                } else {
                    Some((up_to(t, i), None))
                }
            },
        }
    } else {
        match find_last(s, ':') {
            None => Some((s, None)),
            Some(i) => {
                assert(i < n);
                Some((up_to(s, i), Some(from_index(s, i + 1))))
            },
        }
    }
}

/// Reads the host and the port of a server URL.
fn read_url(s: &[char]) -> (r: Option<(String, u16)>)
    ensures
        match r {
            Some(p) => server_of(s@) == Some((p.0@, p.1 as int)),
            None => server_of(s@) is None,
        },
{
    if s.len() < 6 || !eq_ignore_case(up_to(s, 6), crate::address::URL_PREFIX) {
        return None;
    }
    let rest: &[char] = from_index(s, 6);
    let authority: &[char] = match find(rest, '/') {
        Some(i) => up_to(rest, i),
        None => rest,
    };
    match split_server(authority) {
        None => None,
        Some((host, port)) => {
            if host.len() == 0 {
                return None;
            }
            let p: u16 = match port {
                None => DEFAULT_PORT,
                Some(t) => if t.len() == 0 {
                    DEFAULT_PORT
                } else {
                    match parse_unsigned(t, 10, 65535) {
                        None => {
                            return None;
                        },
                        Some(n) => if n == 0 {
                            DEFAULT_PORT
                        } else {
                            n as u16
                        },
                    }
                },
            };
            Some((text_of(host), p))
        },
    }
}

/// Splits `omt://host:port` into host and port, with [`DEFAULT_PORT`] when the
/// port is missing or 0. IPv6 hosts go in brackets: `omt://[::1]:6399`.
pub fn parse_url(url: &str) -> (r: Result<(String, u16), UrlError>)
    ensures
        match r {
            Ok(p) => server_of(url@) == Some((p.0@, p.1 as int)),
            Err(e) => server_of(url@) is None && e.url@ == url@,
        },
{
    let v: Vec<char> = chars_of(url);
    match read_url(v.as_slice()) {
        Some(p) => Ok(p),
        None => Err(UrlError { url: url.to_string() }),
    }
}

/// An authority is found behind the prefix.
proof fn lemma_behind_prefix(a: Seq<char>)
    requires
        !a.contains('/'),
    ensures
        crate::address::is_url("omt://"@ + a),
        server_authority("omt://"@ + a) == a,
{
    let s = "omt://"@ + a;
    reveal_strlit("omt://");
    assert(s.take(6) =~= "omt://"@);
    assert(s.skip(6) =~= a);
    assert forall|k: int| 0 <= k < a.len() implies #[trigger] a[k] != '/' by {
        assert(a.contains(a[k]));
    }
    lemma_index_none(a, '/');
}

/// A port is read as it is written.
proof fn lemma_port(port: u16)
    ensures
        unsigned_of(decimal(port as nat), 10, 65535) == Some(port as int),
        decimal(port as nat).len() > 0,
        !decimal(port as nat).contains('/'),
        !decimal(port as nat).contains(':'),
{
    law_decimal(port as nat);
    assert('0' <= decimal(port as nat)[0]);
}

/// A server URL names the host and the port that are written in it, an IPv6
/// host in brackets, and port 6399 where none is.
pub proof fn law_server_url(host: Seq<char>, port: u16)
    requires
        host.len() > 0,
        port > 0,
        !host.contains('/'),
        !host.contains(']'),
        !host.contains('['),
    ensures
        !host.contains(':') ==> server_of("omt://"@ + host) == Some((host, 6399int)),
        !host.contains(':') ==> server_of("omt://"@ + (host + seq![':'] + decimal(port as nat))) == Some(
            (host, port as int),
        ),
        server_of("omt://"@ + (seq!['['] + host + seq![']'])) == Some((host, 6399int)),
        server_of("omt://"@ + (seq!['['] + host + seq![']', ':'] + decimal(port as nat))) == Some((host, port as int)),
{
    let d = decimal(port as nat);
    lemma_port(port);
    assert(host.contains(host[0]));
    let a = host + seq![':'] + d;
    let b = seq!['['] + host + seq![']'];
    let c = seq!['['] + host + seq![']', ':'] + d;
    assert(!a.contains('/')) by {
        assert forall|i: int| 0 <= i < a.len() implies #[trigger] a[i] != '/' by {
            lemma_either(host, d, i, '/');
        }
    }
    assert(!b.contains('/')) by {
        assert forall|i: int| 0 <= i < b.len() implies #[trigger] b[i] != '/' by {
            if 0 < i <= host.len() {
                assert(host.contains(host[i - 1]));
            }
        }
    }
    assert(!c.contains('/')) by {
        assert forall|i: int| 0 <= i < c.len() implies #[trigger] c[i] != '/' by {
            if 0 < i <= host.len() {
                assert(host.contains(host[i - 1]));
            } else if i > host.len() + 2 {
                assert(d.contains(d[i - host.len() - 3]));
            }
        }
    }
    lemma_behind_prefix(host);
    lemma_behind_prefix(a);
    lemma_behind_prefix(b);
    lemma_behind_prefix(c);
    lemma_bracketed(host, seq![]);
    lemma_bracketed(host, seq![':'] + d);
    assert(b =~= seq!['['] + host + seq![']'] + seq![]);
    assert(c =~= seq!['['] + host + seq![']'] + (seq![':'] + d));
    assert((seq![':'] + d).skip(1) =~= d);
    if !host.contains(':') {
        lemma_last_index_of(host, ':');
        assert forall|k: int| host.len() < k < a.len() implies #[trigger] a[k] != ':' by {
            assert(d.contains(d[k - host.len() - 1]));
        }
        lemma_last_index_at(a, ':', host.len() as int);
        assert(a.take(host.len() as int) =~= host);
        assert(a.skip(host.len() as int + 1) =~= d);
        assert(a[0] == host[0]);
    }
}

/// A character of a host, a colon or a port.
proof fn lemma_either(host: Seq<char>, d: Seq<char>, i: int, c: char)
    requires
        !host.contains(c),
        !d.contains(c),
        c != ':',
        0 <= i < host.len() + 1 + d.len(),
    ensures
        (host + seq![':'] + d)[i] != c,
{
    if i < host.len() {
        assert(host.contains(host[i]));
    } else if i > host.len() {
        assert(d.contains(d[i - host.len() - 1]));
    }
}

/// A host in brackets.
proof fn lemma_bracketed(host: Seq<char>, after: Seq<char>)
    requires
        !host.contains(']'),
    ensures
        server_parts(seq!['['] + host + seq![']'] + after) == Some(
            (
                host,
                if after.len() > 0 && after[0] == ':' {
                    Some(after.skip(1))
                } else {
                    None
                },
            ),
        ),
{
    let s = seq!['['] + host + seq![']'] + after;
    let t = s.skip(1);
    assert forall|k: int| 0 <= k < host.len() implies #[trigger] t[k] != ']' by {
        assert(host.contains(host[k]));
    }
    lemma_index_at(t, ']', host.len() as int);
    assert(t.take(host.len() as int) =~= host);
    assert(t.skip(host.len() as int + 1) =~= after);
}

} // verus!
