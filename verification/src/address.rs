//! Addressing a sender: full names, `omt://` URLs, and a directory of
//! discovered sources to look names up in.
//!
//! An address is either a full name `MACHINE (Name)`, matched exactly against
//! what discovery has found, or a URL `omt://host:port`, whose host is
//! resolved with DNS and never through discovery. Which one is decided by the
//! `omt://` prefix, in any case. The same strings are what a redirect carries.

use crate::discovery::{text_of, Source, SourceChange, SourceEvent, SourceView};
use crate::ip::{ip_of, push_socket, socket_at, socket_text, SocketAddr};
use crate::table::{lists, views, SourceTable};
use crate::text::{
    chars_of, decimal, decimal_chars, eq_ignore_case, find, find_first_of, find_last, first_of, from_index,
    has_char, index_of, last_index_of, law_decimal, lemma_first_of, lemma_first_of_is, lemma_index_at,
    lemma_index_of, lemma_last_index_at, lemma_last_index_of, parse_unsigned, push_chars, push_str,
    same_letters, string_of, unsigned_of, up_to,
};
use vstd::prelude::*;

verus! {

/// The URL scheme prefix, compared without regard to case.
pub const URL_PREFIX: &'static str = "omt://";

/// Where a receiver should connect.
#[derive(Clone, Debug, PartialEq, Eq, Hash)]
pub enum Address {
    /// A fixed socket address. Nothing is resolved.
    Socket(SocketAddr),
    /// A full name `MACHINE (Name)`, looked up in a [`Directory`] by exact
    /// equality.
    Name(String),
    /// `omt://host:port`: `host` is resolved with DNS on every connection
    /// attempt.
    Url {
        /// Host name or IP address, without brackets.
        host: String,
        /// TCP port.
        port: u16,
    },
}

/// An address as plain values.
#[verifier::ext_equal]
pub enum AddressView {
    /// A fixed socket address.
    Socket(SocketAddr),
    /// A full name.
    Name(Seq<char>),
    /// A host and a port.
    Url {
        /// Host, without brackets.
        host: Seq<char>,
        /// Port.
        port: int,
    },
}

impl View for Address {
    type V = AddressView;

    open spec fn view(&self) -> AddressView {
        match self {
            Address::Socket(a) => AddressView::Socket(*a),
            Address::Name(n) => AddressView::Name(n@),
            Address::Url { host, port } => AddressView::Url { host: host@, port: *port as int },
        }
    }
}

/// Why a string is not an address.
#[derive(Clone, Copy, Debug, PartialEq, Eq, Structural)]
pub enum AddressError {
    /// The empty string.
    Empty,
    /// An `omt://` URL without a host.
    MissingHost,
    /// An `omt://` URL without a port, or with one outside 1..=65535.
    BadPort,
}

impl AddressError {
    /// What went wrong, in words.
    pub open spec fn text(self) -> Seq<char> {
        match self {
            AddressError::Empty => "empty OMT address"@,
            AddressError::MissingHost => "omt:// URL without a host"@,
            AddressError::BadPort => "omt:// URL needs a port in 1..=65535"@,
        }
    }

    /// What went wrong, in words.
    pub fn to_string(&self) -> (r: String)
        ensures
            r@ == self.text(),
    {
        match self {
            AddressError::Empty => "empty OMT address".to_string(),
            AddressError::MissingHost => "omt:// URL without a host".to_string(),
            AddressError::BadPort => "omt:// URL needs a port in 1..=65535".to_string(),
        }
    }
}

// ---------------------------------------------------------------------------
// Text
// ---------------------------------------------------------------------------

/// Whether a text is a URL.
pub open spec fn is_url(s: Seq<char>) -> bool {
    s.len() >= 6 && same_letters(s.take(6), URL_PREFIX@)
}

/// The host and the port of an authority, still as text: `[host]:port` or
/// `host:port`.
pub open spec fn host_and_port(s: Seq<char>) -> Result<(Seq<char>, Seq<char>), AddressError> {
    if s.len() > 0 && s[0] == '[' {
        let t = s.skip(1);
        match index_of(t, ']') {
            None => Err(AddressError::MissingHost),
            Some(i) => {
                let after = t.skip(i + 1);
                if after.len() > 0 && after[0] == ':' {
                    Ok((t.take(i), after.skip(1)))
                } else {
                    Err(AddressError::BadPort)
                }
            },
        }
    } else {
        match last_index_of(s, ':') {
            None => Err(AddressError::BadPort),
            Some(i) => Ok((s.take(i), s.skip(i + 1))),
        }
    }
}

/// The characters that end an authority.
pub open spec fn authority_ends() -> Seq<char> {
    seq!['/', '?', '#']
}

/// The authority of a URL: what stands between the prefix and a path, a query
/// or a fragment.
pub open spec fn authority_of(s: Seq<char>) -> Seq<char> {
    s.skip(6).take(first_of(s.skip(6), authority_ends()))
}

/// What a text addresses.
pub open spec fn address_of(s: Seq<char>) -> Result<AddressView, AddressError> {
    if s.len() == 0 {
        Err(AddressError::Empty)
    } else if !is_url(s) {
        Ok(AddressView::Name(s))
    } else {
        match host_and_port(authority_of(s)) {
            Err(e) => Err(e),
            Ok((host, port)) => if host.len() == 0 {
                Err(AddressError::MissingHost)
            } else {
                match unsigned_of(port, 10, 65535) {
                    Some(p) => if p == 0 {
                        Err(AddressError::BadPort)
                    } else {
                        Ok(AddressView::Url { host, port: p })
                    },
                    None => Err(AddressError::BadPort),
                }
            },
        }
    }
}

/// The text form of an address: the full name, or `omt://host:port`.
pub open spec fn address_text(a: AddressView) -> Seq<char> {
    match a {
        AddressView::Socket(s) => URL_PREFIX@ + socket_text(s),
        AddressView::Name(n) => n,
        AddressView::Url { host, port } => if host.contains(':') {
            URL_PREFIX@ + "["@ + host + "]:"@ + decimal(port as nat)
        } else {
            URL_PREFIX@ + host + ":"@ + decimal(port as nat)
        },
    }
}

/// Splits an authority into host and port.
fn split_authority<'a>(s: &'a [char]) -> (r: Result<(&'a [char], &'a [char]), AddressError>)
    ensures
        match r {
            Ok(p) => host_and_port(s@) == Ok::<(Seq<char>, Seq<char>), AddressError>((p.0@, p.1@)),
            Err(e) => host_and_port(s@) == Err::<(Seq<char>, Seq<char>), AddressError>(e),
        },
{
    let n: usize = s.len();
    if n > 0 && s[0] == '[' {
        let t: &[char] = from_index(s, 1);
        match find(t, ']') {
            None => Err(AddressError::MissingHost),
            Some(i) => {
                assert(i < n);
                let after: &[char] = from_index(t, i + 1);
                if after.len() > 0 && after[0] == ':' {
                    Ok((up_to(t, i), from_index(after, 1)))
                } else {
                    Err(AddressError::BadPort)
                }
            },
        }
    } else {
        match find_last(s, ':') {
            None => Err(AddressError::BadPort),
            Some(i) => {
                assert(i < n);
                Ok((up_to(s, i), from_index(s, i + 1)))
            },
        }
    }
}

impl Address {
    /// Parses a full name or an `omt://host:port` URL: anything that does not
    /// start with `omt://` (any case) is a full name. Names are not trimmed or
    /// otherwise changed.
    pub fn parse(s: &str) -> (r: Result<Address, AddressError>)
        ensures
            match r {
                Ok(a) => address_of(s@) == Ok::<AddressView, AddressError>(a@),
                Err(e) => address_of(s@) == Err::<AddressView, AddressError>(e),
            },
    {
        let v: Vec<char> = chars_of(s);
        let all: &[char] = v.as_slice();
        if all.len() == 0 {
            return Err(AddressError::Empty);
        }
        if all.len() < 6 || !eq_ignore_case(up_to(all, 6), URL_PREFIX) {
            let a: Address = Address::Name(s.to_string());
            return Ok(a);
        }
        let rest: &[char] = from_index(all, 6);
        let stops: [char; 3] = ['/', '?', '#'];
        assert(stops@ =~= authority_ends());
        let authority: &[char] = up_to(rest, find_first_of(rest, stops.as_slice()));
        match split_authority(authority) {
            Err(e) => Err(e),
            Ok((host, port)) => {
                if host.len() == 0 {
                    return Err(AddressError::MissingHost);
                }
                match parse_unsigned(port, 10, 65535) {
                    None => Err(AddressError::BadPort),
                    Some(p) => {
                        if p == 0 {
                            return Err(AddressError::BadPort);
                        }
                        let a: Address = Address::Url { host: text_of(host), port: p as u16 };
                        assert(a@ == AddressView::Url { host: host@, port: p as int });
                        Ok(a)
                    },
                }
            },
        }
    }

    /// The form that a sender would put in a redirect: the full name, or
    /// `omt://host:port`.
    pub fn to_string(&self) -> (r: String)
        ensures
            r@ == address_text(self@),
    {
        let mut v: Vec<char> = Vec::new();
        match self {
            Address::Socket(a) => {
                push_str(&mut v, URL_PREFIX);
                push_socket(&mut v, *a);
                assert(v@ =~= address_text(self@));
            },
            Address::Name(n) => {
                push_str(&mut v, n.as_str());
                assert(v@ =~= address_text(self@));
            },
            Address::Url { host, port } => {
                let h: Vec<char> = chars_of(host.as_str());
                let p: Vec<char> = decimal_chars(*port as u64);
                push_str(&mut v, URL_PREFIX);
                if has_char(h.as_slice(), ':') {
                    push_str(&mut v, "[");
                    push_chars(&mut v, h.as_slice());
                    push_str(&mut v, "]:");
                } else {
                    push_chars(&mut v, h.as_slice());
                    push_str(&mut v, ":");
                }
                push_chars(&mut v, p.as_slice());
                assert(v@ =~= address_text(self@));
            },
        }
        string_of(&v)
    }

    /// A copy.
    pub fn copy(&self) -> (r: Address)
        ensures
            r@ == self@,
    {
        match self {
            Address::Socket(a) => Address::Socket(*a),
            Address::Name(n) => Address::Name(n.clone()),
            Address::Url { host, port } => Address::Url { host: host.clone(), port: *port },
        }
    }

    /// The socket addresses to try, best first. Names need a directory and
    /// are looked up without waiting. The host of a URL that is no IP address
    /// is resolved by the system: `looked_up` is what that gave.
    pub fn resolve(&self, directory: Option<&Directory>, looked_up: Vec<SocketAddr>) -> (r: Result<
        Vec<SocketAddr>,
        ResolveError,
    >)
        requires
            directory matches Some(d) ==> d.wf(),
        ensures
            match r {
                Ok(v) => resolved(
                    self@,
                    match directory {
                        Some(d) => Some(d@),
                        None => None,
                    },
                    looked_up@,
                ) == Ok::<Seq<SocketAddr>, ResolveError>(v@),
                Err(e) => resolved(
                    self@,
                    match directory {
                        Some(d) => Some(d@),
                        None => None,
                    },
                    looked_up@,
                ) == Err::<Seq<SocketAddr>, ResolveError>(e),
            },
    {
        let found: Vec<SocketAddr> = match self {
            Address::Socket(a) => {
                let mut v: Vec<SocketAddr> = Vec::new();
                v.push(*a);
                assert(v@ =~= seq![*a]);
                v
            },
            Address::Name(name) => match directory {
                None => {
                    return Err(ResolveError::NeedsDirectory);
                },
                Some(d) => match d.get(name.as_str()) {
                    Some(s) => socket_addrs(&s),
                    None => Vec::new(),
                },
            },
            Address::Url { host, port } => {
                let h: Vec<char> = chars_of(host.as_str());
                match crate::ip::parse(h.as_slice()) {
                    Some(ip) => {
                        let mut v: Vec<SocketAddr> = Vec::new();
                        v.push(SocketAddr::new(ip, *port));
                        assert(v@ =~= seq![socket_at(ip, *port)]);
                        v
                    },
                    None => looked_up,
                }
            },
        };
        if found.len() == 0 {
            return Err(ResolveError::NotFound);
        }
        Ok(found)
    }
}

impl std::str::FromStr for Address {
    type Err = AddressError;

    fn from_str(s: &str) -> (r: Result<Address, AddressError>)
        ensures
            match r {
                Ok(a) => address_of(s@) == Ok::<AddressView, AddressError>(a@),
                Err(e) => address_of(s@) == Err::<AddressView, AddressError>(e),
            },
    {
        Address::parse(s)
    }
}

impl From<SocketAddr> for Address {
    fn from(a: SocketAddr) -> (r: Address) {
        Address::Socket(a)
    }
}

impl vstd::std_specs::convert::FromSpecImpl<SocketAddr> for Address {
    open spec fn obeys_from_spec() -> bool {
        true
    }

    open spec fn from_spec(a: SocketAddr) -> Address {
        Address::Socket(a)
    }
}

/// Why an address cannot be connected to.
#[derive(Clone, Copy, Debug, PartialEq, Eq, Structural)]
pub enum ResolveError {
    /// A full name was given without a directory to look it up in.
    NeedsDirectory,
    /// There is no socket address to try.
    NotFound,
}

/// The addresses of a source with its port.
pub open spec fn sockets_of(s: SourceView) -> Seq<SocketAddr> {
    Seq::new(s.addresses.len(), |i: int| socket_at(s.addresses[i], s.port))
}

/// The socket addresses to try for an address.
pub open spec fn candidates(
    a: AddressView,
    directory: Option<Map<Seq<char>, SourceView>>,
    looked_up: Seq<SocketAddr>,
) -> Seq<SocketAddr> {
    match a {
        AddressView::Socket(s) => seq![s],
        AddressView::Name(n) => match directory {
            Some(d) => if d.contains_key(n) {
                sockets_of(d[n])
            } else {
                Seq::empty()
            },
            None => Seq::empty(),
        },
        AddressView::Url { host, port } => match ip_of(host) {
            Some(ip) => seq![socket_at(ip, port as u16)],
            None => looked_up,
        },
    }
}

/// What resolving an address gives.
pub open spec fn resolved(
    a: AddressView,
    directory: Option<Map<Seq<char>, SourceView>>,
    looked_up: Seq<SocketAddr>,
) -> Result<Seq<SocketAddr>, ResolveError> {
    if a is Name && directory is None {
        Err(ResolveError::NeedsDirectory)
    } else if candidates(a, directory, looked_up).len() == 0 {
        Err(ResolveError::NotFound)
    } else {
        Ok(candidates(a, directory, looked_up))
    }
}

/// The addresses of a source with its port.
pub fn socket_addrs(s: &Source) -> (r: Vec<SocketAddr>)
    ensures
        r@ == sockets_of(s@),
{
    let mut r: Vec<SocketAddr> = Vec::new();
    let mut i: usize = 0;
    while i < s.addresses.len()
        invariant
            i <= s.addresses@.len(),
            r@.len() == i,
            forall|k: int| 0 <= k < i ==> #[trigger] r@[k] == sockets_of(s@)[k],
        decreases s.addresses@.len() - i,
    {
        r.push(SocketAddr::new(s.addresses[i], s.port));
        i = i + 1;
    }
    assert(r@ =~= sockets_of(s@));
    r
}

// ---------------------------------------------------------------------------
// Directory
// ---------------------------------------------------------------------------

/// The sources currently on the network, by full name.
///
/// A source that goes away is removed; when it comes back, possibly on another
/// port or address, the entry is replaced, so looking the name up again finds
/// where it is now.
pub struct Directory {
    table: SourceTable,
}

impl View for Directory {
    type V = Map<Seq<char>, SourceView>;

    closed spec fn view(&self) -> Map<Seq<char>, SourceView> {
        self.table@
    }
}

/// What a change does to the sources.
pub open spec fn after_change(m: Map<Seq<char>, SourceView>, e: SourceChange) -> Map<Seq<char>, SourceView> {
    match e {
        SourceChange::Resolved(s) => m.insert(s.full_name, s),
        SourceChange::Removed(n) => m.remove(n),
    }
}

impl Directory {
    /// The table is kept by name.
    pub closed spec fn wf(&self) -> bool {
        self.table.wf()
    }

    /// An empty directory, fed through [`Directory::apply`].
    pub fn manual() -> (r: Directory)
        ensures
            r.wf(),
            r@ == Map::<Seq<char>, SourceView>::empty(),
    {
        Directory { table: SourceTable::new() }
    }

    /// Records a change.
    pub fn apply(&mut self, event: SourceEvent)
        requires
            old(self).wf(),
        ensures
            final(self).wf(),
            final(self)@ == after_change(old(self)@, event@),
    {
        match event {
            SourceEvent::Resolved(s) => self.table.insert(s),
            SourceEvent::Removed(name) => {
                let _ = self.table.remove(name.as_str());
            },
        }
    }

    /// The source with exactly this full name, if present now.
    pub fn get(&self, full_name: &str) -> (r: Option<Source>)
        requires
            self.wf(),
        ensures
            match r {
                Some(s) => self@.contains_key(full_name@) && s@ == self@[full_name@],
                None => !self@.contains_key(full_name@),
            },
    {
        self.table.get(full_name)
    }

    /// Every source present now, sorted by full name.
    pub fn sources(&self) -> (r: Vec<Source>)
        requires
            self.wf(),
        ensures
            lists(self@, views(r@)),
    {
        self.table.list()
    }
}

/// A name finds where its source was last resolved, and nothing once the
/// source has gone, whatever happens to other names in between.
pub proof fn law_names_follow_the_directory(
    m: Map<Seq<char>, SourceView>,
    s: SourceView,
    other: SourceChange,
)
    requires
        other matches SourceChange::Resolved(o) ==> o.full_name != s.full_name,
        other matches SourceChange::Removed(n) ==> n != s.full_name,
    ensures
        ({
            let a = AddressView::Name(s.full_name);
            let there = after_change(after_change(m, SourceChange::Resolved(s)), other);
            let gone = after_change(there, SourceChange::Removed(s.full_name));
            &&& candidates(a, Some(there), Seq::empty()) == sockets_of(s)
            &&& resolved(a, Some(gone), Seq::empty()) == Err::<Seq<SocketAddr>, ResolveError>(
                ResolveError::NotFound,
            )
        }),
{
}

// ---------------------------------------------------------------------------
// What is written is read back
// ---------------------------------------------------------------------------

/// A host that its URL form gives back: one with a colon stands in brackets
/// and must not close them, one without must not open them.
pub open spec fn plain_host(host: Seq<char>) -> bool {
    if host.contains(':') {
        !host.contains(']')
    } else {
        host[0] != '['
    }
}

/// The text of a number is a number, without a sign.
proof fn lemma_port_text(port: int)
    requires
        0 <= port <= 65535,
    ensures
        unsigned_of(decimal(port as nat), 10, 65535) == Some(port),
        !decimal(port as nat).contains(':'),
        forall|k: int|
            0 <= k < decimal(port as nat).len() ==> !authority_ends().contains(#[trigger] decimal(port as nat)[k]),
{
    let d = decimal(port as nat);
    law_decimal(port as nat);
    assert('0' <= d[0] <= '9');
    assert forall|k: int| 0 <= k < d.len() implies d[k] != ':' by {
        assert('0' <= d[k] <= '9');
    }
    assert forall|k: int| 0 <= k < d.len() implies !authority_ends().contains(#[trigger] d[k]) by {
        assert('0' <= d[k] <= '9');
        assert(authority_ends()[0] == '/' && authority_ends()[1] == '?' && authority_ends()[2] == '#');
    }
}

/// The prefix and an authority without an end are a URL with that authority.
proof fn lemma_url(authority: Seq<char>)
    requires
        forall|k: int| 0 <= k < authority.len() ==> !authority_ends().contains(#[trigger] authority[k]),
    ensures
        is_url(URL_PREFIX@ + authority),
        authority_of(URL_PREFIX@ + authority) == authority,
{
    reveal_strlit("omt://");
    let s = URL_PREFIX@ + authority;
    assert(s.take(6) =~= URL_PREFIX@);
    assert(s.skip(6) =~= authority);
    lemma_first_of(authority, authority_ends(), authority.len() as int);
    assert(authority.take(authority.len() as int) =~= authority);
}

/// Where an address has a plain host, its text form gives it back.
proof fn lemma_url_round_trip(host: Seq<char>, port: int)
    requires
        host.len() > 0,
        plain_host(host),
        1 <= port <= 65535,
        forall|k: int| 0 <= k < host.len() ==> !authority_ends().contains(#[trigger] host[k]),
    ensures
        address_of(address_text(AddressView::Url { host, port })) == Ok::<AddressView, AddressError>(
            AddressView::Url { host, port },
        ),
{
    let d = decimal(port as nat);
    lemma_port_text(port);
    assert(authority_ends()[0] == '/' && authority_ends()[1] == '?' && authority_ends()[2] == '#');
    if host.contains(':') {
        reveal_strlit("[");
        reveal_strlit("]:");
        let a = "["@ + host + "]:"@ + d;
        assert(URL_PREFIX@ + "["@ + host + "]:"@ + d =~= URL_PREFIX@ + a);
        assert forall|k: int| 0 <= k < a.len() implies !authority_ends().contains(#[trigger] a[k]) by {
            if 0 < k <= host.len() {
                assert(a[k] == host[k - 1]);
            } else if k > host.len() + 2 {
                assert(a[k] == d[k - host.len() - 3]);
            }
        }
        lemma_url(a);
        let t = a.skip(1);
        let n = host.len() as int;
        assert forall|k: int| 0 <= k < n implies #[trigger] t[k] != ']' by {
            assert(t[k] == host[k]);
        }
        assert(t[n] == ']');
        lemma_index_at(t, ']', n);
        assert(t.take(n) =~= host);
        assert(t.skip(n + 1)[0] == ':');
        assert(t.skip(n + 1).skip(1) =~= d);
    } else {
        reveal_strlit(":");
        let a = host + ":"@ + d;
        assert(URL_PREFIX@ + host + ":"@ + d =~= URL_PREFIX@ + a);
        let n = host.len() as int;
        assert forall|k: int| 0 <= k < a.len() implies !authority_ends().contains(#[trigger] a[k]) by {
            if k < n {
                assert(a[k] == host[k]);
            } else if k > n {
                assert(a[k] == d[k - n - 1]);
            }
        }
        lemma_url(a);
        assert(a[0] == host[0]);
        assert(a[n] == ':');
        assert forall|k: int| n < k < a.len() implies #[trigger] a[k] != ':' by {
            assert(a[k] == d[k - n - 1]);
        }
        lemma_last_index_at(a, ':', n);
        assert(a.take(n) =~= host);
        assert(a.skip(n + 1) =~= d);
    }
}

/// The host and the port of a URL hold no character that ends an authority.
proof fn lemma_host_chars(s: Seq<char>)
    requires
        is_url(s),
        host_and_port(authority_of(s)) is Ok,
    ensures
        ({
            let host = host_and_port(authority_of(s))->Ok_0.0;
            forall|k: int| 0 <= k < host.len() ==> !authority_ends().contains(#[trigger] host[k])
        }),
{
    let rest = s.skip(6);
    lemma_first_of_is(rest, authority_ends());
    let a = authority_of(s);
    let host = host_and_port(a)->Ok_0.0;
    lemma_index_of(a.skip(1), ']');
    lemma_last_index_of(a, ':');
    assert forall|k: int| 0 <= k < host.len() implies !authority_ends().contains(#[trigger] host[k]) by {
        if a[0] == '[' {
            assert(host[k] == a[k + 1]);
            assert(a[k + 1] == rest[k + 1]);
        } else {
            assert(host[k] == a[k]);
            assert(a[k] == rest[k]);
        }
    }
}

/// What a text addresses is read back from the text form of that address: a
/// name always, a URL unless its host opens a bracket or closes one behind a
/// colon.
pub proof fn law_address_round_trip(s: Seq<char>)
    requires
        address_of(s) is Ok,
        address_of(s)->Ok_0 matches AddressView::Url { host, port } ==> plain_host(host),
    ensures
        address_of(address_text(address_of(s)->Ok_0)) == address_of(s),
{
    match address_of(s)->Ok_0 {
        AddressView::Socket(_) => {},
        AddressView::Name(_) => {},
        AddressView::Url { host, port } => {
            lemma_host_chars(s);
            lemma_unsigned_range(host_and_port(authority_of(s))->Ok_0.1);
            lemma_url_round_trip(host, port);
        },
    }
}

/// A number that was read is in range.
proof fn lemma_unsigned_range(s: Seq<char>)
    ensures
        unsigned_of(s, 10, 65535) matches Some(v) ==> 0 <= v <= 65535,
{
    let t = if s.len() > 0 && s[0] == '+' {
        s.skip(1)
    } else {
        s
    };
    crate::text::lemma_digits_grow(t, 10, 0);
}

} // verus!
