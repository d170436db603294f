//! Names, addresses and the discovery server.

use open_media_transport::address::{Address, AddressError, Directory, ResolveError};
use open_media_transport::discovery::{
    announcement, escape_instance, full_name, host_name_or_default, instance_name, is_valid_full_name,
    machine_name, machine_name_of, os_host_name, service_name, service_removed, service_resolved,
    split_full_name, srv_host, Source, SourceEvent, MAX_FULL_NAME,
};
use open_media_transport::discovery_server::message::{address_frame, DEFAULT_PORT};
use open_media_transport::discovery_server::{
    parse_url, AddressMessage, Client, Outcome, Server, ServerEvent,
};
use open_media_transport::ip::{is_ipv6_link_local, push_ip, sort_addresses, IpAddr, SocketAddr};
use open_media_transport::table::SourceTable;
use open_media_transport::{Deframer, Limits};

fn ip(s: &str) -> IpAddr {
    let chars: Vec<char> = s.chars().collect();
    open_media_transport::ip::parse(&chars).unwrap()
}

fn ip_string(ip: IpAddr) -> String {
    let mut v = Vec::new();
    push_ip(&mut v, ip);
    v.into_iter().collect()
}

fn socket(s: &str, port: u16) -> SocketAddr {
    SocketAddr::new(ip(s), port)
}

// ---------------------------------------------------------------------------
// IP addresses
// ---------------------------------------------------------------------------

#[test]
fn addresses_in_text() {
    for s in [
        "0.0.0.0",
        "127.0.0.1",
        "255.255.255.255",
        "::",
        "::1",
        "1::",
        "2001:db8::1",
        "fe80::4a6:3a1c:277d:23f0",
        "::ffff:10.0.0.1",
        "1:0:0:2::3",
        "1:2:3:4:5:6:7:8",
        "1:0:2:3:4:5:6:7",
    ] {
        assert_eq!(ip_string(ip(s)), s);
    }
    assert_eq!(ip("127.0.0.1"), IpAddr::V4(0x7F00_0001));
    assert_eq!(ip("::1"), IpAddr::V6(1));
    for bad in ["", "1.2.3", "1.2.3.4.5", "256.0.0.1", "01.2.3.4", ":::", "1::2::3", "12345::", "g::"] {
        let chars: Vec<char> = bad.chars().collect();
        assert_eq!(open_media_transport::ip::parse(&chars), None, "{bad}");
    }
}

// ---------------------------------------------------------------------------
// Names
// ---------------------------------------------------------------------------

#[test]
fn full_name_format_and_limit() {
    assert_eq!(full_name("HOST", "Cam 1"), "HOST (Cam 1)");
    let long = "x".repeat(80);
    let f = full_name("SAULS-MACBOOK-PRO.LOCAL", &long);
    assert_eq!(f.chars().count(), MAX_FULL_NAME);
    assert!(f.starts_with("SAULS-MACBOOK-PRO.LOCAL (xxx") && f.ends_with(')'));
    // Name too short to absorb the excess: left as is.
    let host = "H".repeat(70);
    assert_eq!(full_name(&host, "a"), format!("{host} (a)"));
}

#[test]
fn validity_and_split() {
    assert!(is_valid_full_name("SAULS-MACBOOK-PRO.LOCAL (Cam 1.5)"));
    assert!(!is_valid_full_name("Printer"));
    assert_eq!(
        split_full_name("SAULS-MACBOOK-PRO.LOCAL (Cam 1.5)"),
        Some(("SAULS-MACBOOK-PRO.LOCAL".to_string(), "Cam 1.5".to_string()))
    );
}

#[test]
fn instance_names_are_unescaped() {
    assert_eq!(
        instance_name(r"SAULS-MACBOOK-PRO\.LOCAL\032(Cam\0321\.5)._omt._tcp.local."),
        "SAULS-MACBOOK-PRO.LOCAL (Cam 1.5)"
    );
    assert_eq!(instance_name("HOST (A)._omt._tcp.local."), "HOST (A)");
    assert_eq!(instance_name(r"a\\b (c)._omt._tcp.local."), r"a\b (c)");
}

#[test]
fn instance_names_round_trip() {
    for name in ["HOST (A)", r"a\b.c (d.e)", "x.y.z", r"\\..\"] {
        assert_eq!(instance_name(&service_name(name)), name);
    }
    assert_eq!(escape_instance(r"a.b\c"), r"a\.b\\c");
}

#[test]
fn address_order() {
    let mut a: Vec<IpAddr> = [
        "::1",
        "fe80::1",
        "127.0.0.1",
        "172.16.80.59",
        "fe80::4a6:3a1c:277d:23f0",
        "2001:db8::1",
    ]
    .iter()
    .map(|s| ip(s))
    .collect();
    a.retain(|x| !is_ipv6_link_local(x));
    let a = sort_addresses(&a);
    let s: Vec<String> = a.iter().map(|x| ip_string(*x)).collect();
    assert_eq!(s, ["172.16.80.59", "2001:db8::1", "127.0.0.1", "::1"]);
}

#[test]
fn srv_host_forms() {
    assert_eq!(srv_host("Sauls-MacBook-Pro.local"), "Sauls-MacBook-Pro-omt.local.");
    assert_eq!(srv_host("pi5"), "pi5-omt.local.");
}

#[test]
fn host_names() {
    let host = os_host_name();
    assert!(!host.is_empty());
    assert_eq!(machine_name(), host.to_uppercase());
    assert_eq!(machine_name_of("pi5.local"), "PI5.LOCAL");
    assert_eq!(machine_name_of("stra\u{df}e"), "STRASSE");
    assert_eq!(host_name_or_default(Some("pi5".to_string())), "pi5");
    assert!(!host_name_or_default(None).is_empty());
    assert_eq!(
        announcement("Cam 1", "pi5.local"),
        ("PI5.LOCAL (Cam 1)".to_string(), "pi5-omt.local.".to_string())
    );
}

#[test]
fn services_become_sources() {
    let addresses = [ip("127.0.0.1"), ip("fe80::1"), ip("10.0.0.1")];
    match service_resolved(r"HOST\032(A)._omt._tcp.local.", "host-omt.local.", 6400, &addresses) {
        Some(SourceEvent::Resolved(s)) => {
            assert_eq!(s.full_name, "HOST (A)");
            assert_eq!(s.host, "host-omt.local.");
            assert_eq!(s.port, 6400);
            assert_eq!(s.addresses, vec![ip("10.0.0.1"), ip("127.0.0.1")]);
        }
        other => panic!("{other:?}"),
    }
    assert_eq!(service_resolved("Printer._omt._tcp.local.", "h", 1, &addresses), None);
    assert_eq!(service_resolved("HOST (A)._omt._tcp.local.", "h", 1, &[ip("fe80::1")]), None);
    assert_eq!(
        service_removed("HOST (A)._omt._tcp.local."),
        SourceEvent::Removed("HOST (A)".to_string())
    );
}

#[test]
fn a_table_keeps_one_source_per_name() {
    let source = |name: &str, port| Source {
        full_name: name.to_string(),
        host: String::new(),
        port,
        addresses: vec![],
    };
    let mut t = SourceTable::new();
    for (name, port) in [("b", 1), ("a", 2), ("c", 3), ("b", 4)] {
        t.insert(source(name, port));
    }
    let names: Vec<String> = t.list().into_iter().map(|s| s.full_name).collect();
    assert_eq!(names, ["a", "b", "c"]);
    assert_eq!(t.get("b").unwrap().port, 4);
    assert_eq!(t.remove("b").unwrap().port, 4);
    assert_eq!(t.get("b"), None);
    assert_eq!(t.remove("b"), None);
}

// ---------------------------------------------------------------------------
// Addresses
// ---------------------------------------------------------------------------

#[test]
fn parses_names_and_urls() {
    assert_eq!(
        Address::parse("MY-MAC.LOCAL (Cam 1)"),
        Ok(Address::Name("MY-MAC.LOCAL (Cam 1)".into()))
    );
    // Anything that is not a URL is a name.
    assert_eq!(Address::parse("127.0.0.1:6400"), Ok(Address::Name("127.0.0.1:6400".into())));
    assert_eq!(
        Address::parse("omt://my-mac.local:6400"),
        Ok(Address::Url { host: "my-mac.local".into(), port: 6400 })
    );
    assert_eq!(
        Address::parse("OMT://10.0.0.2:6401/"),
        Ok(Address::Url { host: "10.0.0.2".into(), port: 6401 })
    );
    assert_eq!(
        Address::parse("omt://[::1]:6400"),
        Ok(Address::Url { host: "::1".into(), port: 6400 })
    );
    assert_eq!(Address::parse(""), Err(AddressError::Empty));
    assert_eq!(Address::parse("omt://host"), Err(AddressError::BadPort));
    assert_eq!(Address::parse("omt://host:0"), Err(AddressError::BadPort));
    assert_eq!(Address::parse("omt://:6400"), Err(AddressError::MissingHost));
    assert_eq!(AddressError::Empty.to_string(), "empty OMT address");
    assert_eq!(AddressError::MissingHost.to_string(), "omt:// URL without a host");
    assert_eq!(AddressError::BadPort.to_string(), "omt:// URL needs a port in 1..=65535");
}

#[test]
fn display_round_trips() {
    for s in ["HOST (A)", "omt://h:1", "omt://[::1]:6400"] {
        assert_eq!(Address::parse(s).unwrap().to_string(), s);
    }
    assert_eq!(Address::Socket(socket("127.0.0.1", 6400)).to_string(), "omt://127.0.0.1:6400");
}

#[test]
fn urls_resolve_without_discovery() {
    let a = Address::parse("omt://127.0.0.1:6400").unwrap();
    assert_eq!(a.resolve(None, vec![]).unwrap(), [socket("127.0.0.1", 6400)]);
}

#[test]
fn names_follow_the_directory() {
    let mut d = Directory::manual();
    let name = Address::parse("HOST (A)").unwrap();
    assert_eq!(name.resolve(None, vec![]), Err(ResolveError::NeedsDirectory));
    assert_eq!(name.resolve(Some(&d), vec![]), Err(ResolveError::NotFound));
    let src = |port| Source {
        full_name: "HOST (A)".into(),
        host: "host-omt.local.".into(),
        port,
        addresses: vec![ip("127.0.0.1")],
    };
    d.apply(SourceEvent::Resolved(src(6400)));
    assert_eq!(name.resolve(Some(&d), vec![]).unwrap()[0].port, 6400);
    d.apply(SourceEvent::Resolved(src(6405)));
    assert_eq!(name.resolve(Some(&d), vec![]).unwrap()[0].port, 6405);
    d.apply(SourceEvent::Removed("HOST (A)".into()));
    assert!(name.resolve(Some(&d), vec![]).is_err());
    assert!(d.get("HOST (A)").is_none());
}

// ---------------------------------------------------------------------------
// Messages of the discovery server
// ---------------------------------------------------------------------------

const ADDRESS_XML: &str = "<OMTAddress>\n  <Name>HOST (Cam 1)</Name>\n  <Port>6400</Port>\n  <Addresses>\n    <IPAddress>::ffff:127.0.0.1</IPAddress>\n  </Addresses>\n</OMTAddress>";

#[test]
fn xml_round_trip() {
    let mut m = AddressMessage::new("HOST (Cam 1)", 6400);
    m.add_address(ip("127.0.0.1"));
    assert_eq!(m.to_xml(), ADDRESS_XML);
    assert_eq!(AddressMessage::from_xml(ADDRESS_XML.as_bytes()), Some(m.clone()));

    m.removed = true;
    m.addresses.clear();
    let x = m.to_xml();
    assert_eq!(
        x,
        "<OMTAddress>\n  <Name>HOST (Cam 1)</Name>\n  <Port>6400</Port>\n  <Removed>True</Removed>\n  <Addresses />\n</OMTAddress>"
    );
    assert_eq!(AddressMessage::from_xml(x.as_bytes()), Some(m));
}

#[test]
fn messages_with_markup_and_many_addresses_round_trip() {
    let mut m = AddressMessage::new("H&T <x> (a > b \u{e9}\u{1F3A5}\t)", 1);
    for a in ["2001:db8::1", "10.0.0.1", "10.0.0.2", "::1", "1:2:3:4:5:6:7:8"] {
        assert!(m.add_address(ip(a)));
    }
    let x = m.to_xml();
    assert_eq!(AddressMessage::from_xml(x.as_bytes()), Some(m));
}

#[test]
fn parsing_follows_libomtnet() {
    let doc = "<OMTAddress><Name> M  (a&amp;b)</Name><Port> 7 </Port><Removed>TRUE</Removed>\
               <Addresses><Address>1.2.3.4</Address><IPAddress>fe80::1</IPAddress>\
               <IPAddress>2001:db8::1</IPAddress><IPAddress>10.0.0.1</IPAddress></Addresses></OMTAddress>\0";
    let m = AddressMessage::from_xml(doc.as_bytes()).unwrap();
    assert_eq!(m.full_name, "M (a&b)");
    assert_eq!(m.port, 7);
    assert!(m.removed);
    let want: Vec<IpAddr> = vec![ip("10.0.0.1"), ip("2001:db8::1")];
    assert_eq!(m.addresses, want);
    assert!(m.to_xml().contains("<Name>M (a&amp;b)</Name>"));

    for bad in [
        "<Other><Name>A (b)</Name><Port>1</Port></Other>",
        "<OMTAddress><Name>no parens</Name><Port>1</Port></OMTAddress>",
        "<OMTAddress><Name>(b)</Name><Port>1</Port></OMTAddress>",
        "<OMTAddress><Name>A (b)</Name></OMTAddress>",
        "<OMTAddress><Name>A (b)</Name><Port>x</Port></OMTAddress>",
        "not xml",
    ] {
        assert_eq!(AddressMessage::from_xml(bad.as_bytes()), None, "{bad}");
    }
}

#[test]
fn bytes_that_are_not_text_are_replaced() {
    let mut doc = b"<OMTAddress><Name>A (".to_vec();
    doc.push(0xFF);
    doc.extend_from_slice(b")</Name><Port>1</Port></OMTAddress>");
    let m = AddressMessage::from_xml(&doc).unwrap();
    assert_eq!(m.full_name, "A (\u{FFFD})");
}

#[test]
fn address_order_like_libomtnet() {
    let mut m = AddressMessage::new("A (b)", 1);
    for a in ["2001:db8::1", "10.0.0.1", "::ffff:10.0.0.2", "10.0.0.1", "fe80::2"] {
        m.add_address(ip(a));
    }
    let xml = m.to_xml();
    let got: Vec<&str> = xml
        .lines()
        .filter_map(|l| l.trim().strip_prefix("<IPAddress>"))
        .filter_map(|l| l.strip_suffix("</IPAddress>"))
        .collect();
    assert_eq!(got, ["::ffff:10.0.0.1", "::ffff:10.0.0.2", "2001:db8::1"]);
}

#[test]
fn urls() {
    assert_eq!(parse_url("omt://srv:1234").unwrap(), ("srv".into(), 1234));
    assert_eq!(parse_url("OMT://srv").unwrap(), ("srv".into(), DEFAULT_PORT));
    assert_eq!(parse_url("omt://[::1]:7/").unwrap(), ("::1".into(), 7));
    assert!(parse_url("srv:1234").is_err());
    assert!(parse_url("omt://:5").is_err());
    assert_eq!(parse_url("srv:1234").unwrap_err().to_string(), "not an omt:// URL: srv:1234");
}

// ---------------------------------------------------------------------------
// A server and its clients
// ---------------------------------------------------------------------------

/// A server with clients whose sockets are vectors.
struct Network {
    server: Server,
    clients: Vec<(u64, Client, Vec<SourceEvent>)>,
}

impl Network {
    fn new() -> Network {
        Network { server: Server::new(), clients: Vec::new() }
    }

    fn join(&mut self, mut client: Client, port: u16) -> usize {
        let (id, out) = self.server.connect(socket("127.0.0.1", port));
        let hello = client.greeting();
        client.connected();
        self.clients.push((id, client, Vec::new()));
        self.carry(out);
        self.to_server(id, &hello);
        self.clients.len() - 1
    }

    /// Bytes of a client arrive at the server.
    fn to_server(&mut self, id: u64, bytes: &[u8]) {
        let mut d = Deframer::new(Limits::audio_or_metadata());
        let (frames, error) = d.received(bytes);
        assert_eq!(error, None);
        for f in frames {
            assert!(f.is_metadata());
            let out = self.server.handle(id, &f.data);
            self.carry(out);
        }
    }

    /// What the server sends arrives at the clients.
    fn carry(&mut self, out: Outcome) {
        for send in out.sends {
            for (id, client, events) in self.clients.iter_mut() {
                if *id == send.peer {
                    let mut d = Deframer::new(Limits::audio_or_metadata());
                    for f in d.received(&send.bytes).0 {
                        events.extend(client.received(&f));
                    }
                }
            }
        }
    }

    fn register(&mut self, at: usize, name: &str, port: u16) {
        let (new, bytes) = self.clients[at].1.register(name, port);
        assert!(new);
        let id = self.clients[at].0;
        self.to_server(id, &bytes.unwrap());
    }
}

#[test]
fn clients_find_each_other_through_the_server() {
    let mut net = Network::new();
    let a = net.join(Client::new(), 50001);
    net.register(a, "HOST (a)", 6401);
    let b = net.join(Client::new(), 50002);

    // b, connecting later, gets a's source with the address the server saw.
    match &net.clients[b].2[..] {
        [SourceEvent::Resolved(s)] => {
            assert_eq!(s.full_name, "HOST (a)");
            assert_eq!(s.port, 6401);
            assert_eq!(s.addresses, vec![ip("127.0.0.1")]);
        }
        other => panic!("{other:?}"),
    }
    assert_eq!(net.clients[b].1.subscribe(), net.clients[b].2);

    // The origin hears its own registration back.
    assert!(matches!(&net.clients[a].2[..], [SourceEvent::Resolved(s)] if s.full_name == "HOST (a)"));

    let (known, bytes) = net.clients[a].1.deregister("HOST (a)");
    assert!(known);
    let id = net.clients[a].0;
    net.to_server(id, &bytes.unwrap());
    assert_eq!(net.clients[b].2[1], SourceEvent::Removed("HOST (a)".into()));

    // A client's sources go when it disconnects.
    net.register(a, "HOST (a2)", 6402);
    assert!(matches!(&net.clients[b].2[2], SourceEvent::Resolved(s) if s.full_name == "HOST (a2)"));
    let out = net.server.disconnected(id);
    assert!(matches!(out.events.last(), Some(ServerEvent::Disconnected(_))));
    net.carry(out);
    assert_eq!(net.clients[b].2[3], SourceEvent::Removed("HOST (a2)".into()));
    assert!(net.server.entries().is_empty());
    assert_eq!(net.server.connections(), 1);
}

#[test]
fn client_reregisters_after_server_restart_and_forgets_on_disconnect() {
    let mut net = Network::new();
    let a = net.join(Client::new(), 50001);
    net.register(a, "HOST (r)", 6403);
    assert_eq!(net.clients[a].1.sources().len(), 1);

    // Learned sources are forgotten with the connection.
    let (_, mut client, _) = net.clients.remove(a);
    assert_eq!(client.disconnected(), vec![SourceEvent::Removed("HOST (r)".into())]);
    assert!(client.sources().is_empty());
    assert!(!client.is_connected());

    // On reconnect the client sends its sources again.
    let mut net = Network::new();
    let a = net.join(client, 50002);
    assert!(matches!(&net.clients[a].2[..], [SourceEvent::Resolved(s)] if s.full_name == "HOST (r)"));
    assert_eq!(net.server.entries().len(), 1);
}

#[test]
fn a_source_is_registered_once() {
    let mut c = Client::new();
    assert_eq!(c.register("HOST (a)", 1), (true, None));
    assert_eq!(c.register("HOST (a)", 1), (false, None));
    c.connected();
    let (new, bytes) = c.register("HOST (b)", 2);
    assert!(new);
    let mut m = AddressMessage::new("HOST (b)", 2);
    m.add_address(ip("127.0.0.1"));
    assert_eq!(bytes.unwrap(), address_frame(&m));
    assert_eq!(c.deregister("HOST (c)"), (false, None));
}

// ---------------------------------------------------------------------------
// Scoped addresses
// ---------------------------------------------------------------------------

#[test]
fn a_scope_is_kept_and_written() {
    let scoped = SocketAddr { scope: 2, flow: 7, ..socket("fe80::1", 6400) };
    let a = Address::from(scoped);
    assert_eq!(a, Address::Socket(scoped));
    assert_eq!(a.to_string(), "omt://[fe80::1%2]:6400");
    assert_eq!(a.resolve(None, vec![]), Ok(vec![scoped]));
    assert_eq!(Address::from(socket("fe80::1", 6400)).to_string(), "omt://[fe80::1]:6400");
    assert_eq!(Address::from(socket("10.0.0.1", 6400)).to_string(), "omt://10.0.0.1:6400");
    let url = Address::Url { host: "camera".into(), port: 6400 };
    assert_eq!(url.resolve(None, vec![scoped]), Ok(vec![scoped]));
}

#[test]
fn addresses_from_text_and_in_sets() {
    let a: Address = "omt://camera:6400".parse().unwrap();
    assert_eq!(a, Address::Url { host: "camera".into(), port: 6400 });
    assert_eq!("omt://camera".parse::<Address>(), Err(AddressError::BadPort));
    let set: std::collections::HashSet<Address> = [a.clone(), a.clone(), Address::Name("A (B)".into())].into();
    assert_eq!(set.len(), 2);
}
