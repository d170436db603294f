//! Discovery of sources: their names and what is told of them.
//!
//! A source is called `MACHINE (Name)`, where `MACHINE` is the host name in
//! capitals, cut to 63 characters by shortening `Name`. Responders announce
//! it as the instance of a DNS-SD service, with some characters escaped.

use crate::ip::{in_order, is_ipv6_link_local, sort_addresses, IpAddr};
use crate::text::{
    chars_of, digit, digit_of, digits_value, ends, ends_with, find, from_index, has_char, index_of,
    push_chars, push_str, string_of, trim, trimmed, up_to,
};
use vstd::prelude::*;

verus! {

/// The DNS-SD service type, with domain.
pub const SERVICE_TYPE: &'static str = "_omt._tcp.local.";

/// Longest full name.
pub const MAX_FULL_NAME: usize = 63;

// ---------------------------------------------------------------------------
// Host and machine name
// ---------------------------------------------------------------------------

/// `hostname::get` asks the system for the host name, and
/// `OsString::into_string` refuses one that is not Unicode. Nothing is
/// claimed of the name.
#[verifier::external_body]
fn system_host_name() -> (r: Option<String>) {
    hostname::get().ok().and_then(|h| h.into_string().ok())
}

/// The host name to use, given what the system said.
pub open spec fn host_name_from(found: Option<Seq<char>>) -> Seq<char> {
    match found {
        Some(h) => if h.len() > 0 {
            h
        } else {
            "localhost"@
        },
        None => "localhost"@,
    }
}

/// The host name to use, given what the system said: that, or `localhost`.
pub fn host_name_or_default(found: Option<String>) -> (r: String)
    ensures
        r@ == host_name_from(
            match found {
                Some(h) => Some(h@),
                None => None,
            },
        ),
{
    match found {
        Some(h) => {
            let v: Vec<char> = chars_of(h.as_str());
            if v.len() > 0 {
                h
            } else {
                "localhost".to_string()
            }
        },
        None => "localhost".to_string(),
    }
}

/// The host name of the system, or `localhost` when there is none.
pub fn os_host_name() -> (r: String)
    ensures
        r@.len() > 0,
{
    proof {
        reveal_strlit("localhost");
    }
    host_name_or_default(system_host_name())
}

/// What `str::to_uppercase` makes of a text.
pub uninterp spec fn uppercase(s: Seq<char>) -> Seq<char>;

/// `str::to_uppercase` replaces each character by its Unicode upper case. Its
/// result is named [`uppercase`].
#[verifier::external_body]
fn to_uppercase(s: &str) -> (r: String)
    ensures
        r@ == uppercase(s@),
{
    s.to_uppercase()
}

/// The machine part of a source name for a host: its name in capitals.
pub fn machine_name_of(host: &str) -> (r: String)
    ensures
        r@ == uppercase(host@),
{
    to_uppercase(host)
}

/// The machine part of the names of sources here.
pub fn machine_name() -> (r: String)
    ensures
        exists|host: Seq<char>| host.len() > 0 && r@ == #[trigger] uppercase(host),
{
    let host: String = os_host_name();
    machine_name_of(host.as_str())
}

// ---------------------------------------------------------------------------
// Full names
// ---------------------------------------------------------------------------

/// `MACHINE (Name)`.
pub open spec fn named(machine: Seq<char>, name: Seq<char>) -> Seq<char> {
    machine + " ("@ + name + ")"@
}

/// `MACHINE (Name)`, with as many characters cut from the end of `Name` as
/// the whole has too many, and then the white space around it. A name that
/// has no more characters than that is left as it is.
pub open spec fn full_name_of(machine: Seq<char>, name: Seq<char>) -> Seq<char> {
    let full = named(machine, name);
    let over = full.len() - MAX_FULL_NAME;
    if over <= 0 || over >= name.len() {
        full
    } else {
        named(machine, trimmed(name.take(name.len() - over)))
    }
}

/// `MACHINE (Name)`.
fn make_name(machine: &[char], name: &[char]) -> (r: Vec<char>)
    ensures
        r@ == named(machine@, name@),
{
    let mut v: Vec<char> = Vec::new();
    push_chars(&mut v, machine);
    push_str(&mut v, " (");
    push_chars(&mut v, name);
    push_str(&mut v, ")");
    assert(v@ =~= named(machine@, name@));
    v
}

/// `MACHINE (Name)` as characters, shortening `Name` if the whole exceeds 63.
pub fn full_name_chars(machine: &[char], name: &[char]) -> (r: Vec<char>)
    ensures
        r@ == full_name_of(machine@, name@),
{
    let full: Vec<char> = make_name(machine, name);
    if full.len() <= MAX_FULL_NAME {
        return full;
    }
    let over: usize = full.len() - MAX_FULL_NAME;
    if over >= name.len() {
        return full;
    }
    make_name(machine, trim(up_to(name, name.len() - over)))
}

/// `MACHINE (Name)`, shortening `Name` if the whole exceeds 63 characters.
pub fn full_name(machine: &str, name: &str) -> (r: String)
    ensures
        r@ == full_name_of(machine@, name@),
{
    let m: Vec<char> = chars_of(machine);
    let n: Vec<char> = chars_of(name);
    let v: Vec<char> = full_name_chars(m.as_slice(), n.as_slice());
    string_of(&v)
}

/// A full name has at most 63 characters whenever its name has enough to cut.
pub proof fn law_full_name_limit(machine: Seq<char>, name: Seq<char>)
    requires
        machine.len() + 3 < MAX_FULL_NAME,
    ensures
        full_name_of(machine, name).len() <= MAX_FULL_NAME,
{
    reveal_strlit(" (");
    reveal_strlit(")");
    let over = named(machine, name).len() - MAX_FULL_NAME;
    if over > 0 {
        let cut = name.take(name.len() - over);
        crate::text::lemma_trimmed_len(cut);
        crate::text::lemma_trimmed_end_len(crate::text::trimmed_start(cut));
    }
}

/// What a name of a source holds: `(` and `)`.
pub open spec fn valid_full_name(s: Seq<char>) -> bool {
    s.contains('(') && s.contains(')')
}

/// Whether an instance name looks like a source: it holds both `(` and `)`.
pub fn is_valid_full_name(full_name: &str) -> (r: bool)
    ensures
        r == valid_full_name(full_name@),
{
    let v: Vec<char> = chars_of(full_name);
    has_char(v.as_slice(), '(') && has_char(v.as_slice(), ')')
}

/// The machine and the name of a full name.
pub open spec fn parts_of(s: Seq<char>) -> Option<(Seq<char>, Seq<char>)> {
    match index_of(s, '(') {
        Some(open) => {
            let rest = s.skip(open + 1);
            if rest.len() > 0 && rest.last() == ')' {
                Some((trimmed(s.take(open)), rest.drop_last()))
            } else {
                None
            }
        },
        None => None,
    }
}

/// Splits `MACHINE (Name)` into its parts.
pub fn split_full_name(full_name: &str) -> (r: Option<(String, String)>)
    ensures
        match r {
            Some(p) => parts_of(full_name@) == Some((p.0@, p.1@)),
            None => parts_of(full_name@) is None,
        },
{
    let v: Vec<char> = chars_of(full_name);
    let s: &[char] = v.as_slice();
    let n: usize = s.len();
    match find(s, '(') {
        None => None,
        Some(open) => {
            assert(open < n);
            let rest: &[char] = from_index(s, open + 1);
            if rest.len() == 0 || rest[rest.len() - 1] != ')' {
                return None;
            }
            let name: &[char] = up_to(rest, rest.len() - 1);
            assert(name@ =~= rest@.drop_last());
            Some((text_of(trim(up_to(s, open))), text_of(name)))
        },
    }
}

/// Characters as a string.
pub fn text_of(s: &[char]) -> (r: String)
    ensures
        r@ == s@,
{
    let mut v: Vec<char> = Vec::new();
    push_chars(&mut v, s);
    assert(v@ =~= s@);
    string_of(&v)
}

/// The parts of a full name are read back, but for white space around the
/// machine, unless the machine holds a `(`.
pub proof fn law_parts(machine: Seq<char>, name: Seq<char>)
    requires
        !machine.contains('('),
    ensures
        parts_of(named(machine, name)) == Some((trimmed(machine + seq![' ']), name)),
        valid_full_name(named(machine, name)),
{
    reveal_strlit(" (");
    reveal_strlit(")");
    let s = named(machine, name);
    let i = machine.len() as int + 1;
    assert forall|k: int| 0 <= k < i implies #[trigger] s[k] != '(' by {
        if k < i - 1 {
            assert(s[k] == machine[k]);
        }
    }
    assert(s[i] == '(');
    crate::text::lemma_index_at(s, '(', i);
    assert(s.take(i) =~= machine + seq![' ']);
    let rest = s.skip(i + 1);
    assert(rest.last() == ')');
    assert(rest.drop_last() =~= name);
    assert(s[s.len() - 1] == ')');
}

// ---------------------------------------------------------------------------
// Names in DNS
// ---------------------------------------------------------------------------

/// `s` without the dots at its end.
pub open spec fn without_dots(s: Seq<char>) -> Seq<char>
    decreases s.len(),
{
    if s.len() > 0 && s.last() == '.' {
        without_dots(s.drop_last())
    } else {
        s
    }
}

/// The host that announcements point at: the host name without dots at its
/// end and without `.local`, and `-omt.local.`.
pub open spec fn srv_host_of(host: Seq<char>) -> Seq<char> {
    let base = without_dots(host);
    let short = if ends(base, ".local"@) {
        base.take(base.len() - 6)
    } else {
        base
    };
    short + "-omt.local."@
}

/// Cuts the dots at the end off.
fn cut_dots<'a>(s: &'a [char]) -> (r: &'a [char])
    ensures
        r@ == without_dots(s@),
{
    let mut n: usize = s.len();
    assert(s@.take(n as int) =~= s@);
    while n > 0 && s[n - 1] == '.'
        invariant
            n <= s@.len(),
            without_dots(s@) == without_dots(s@.take(n as int)),
        decreases n,
    {
        assert(s@.take(n as int).drop_last() =~= s@.take(n - 1));
        n = n - 1;
    }
    up_to(s, n)
}

/// The SRV target of announcements: `<host>-omt.local.`. A name of its own
/// does not collide with the one that the responder of the system publishes.
pub fn srv_host(os_host: &str) -> (r: String)
    ensures
        r@ == srv_host_of(os_host@),
{
    proof {
        reveal_strlit(".local");
    }
    let v: Vec<char> = chars_of(os_host);
    let base: &[char] = cut_dots(v.as_slice());
    let short: &[char] = if ends_with(base, ".local") {
        up_to(base, base.len() - 6)
    } else {
        base
    };
    let mut out: Vec<char> = Vec::new();
    push_chars(&mut out, short);
    push_str(&mut out, "-omt.local.");
    assert(out@ =~= srv_host_of(os_host@));
    string_of(&out)
}

/// An instance name with its backslashes and dots escaped.
pub open spec fn escaped_instance(s: Seq<char>) -> Seq<char>
    decreases s.len(),
{
    if s.len() == 0 {
        Seq::empty()
    } else if s[0] == '\\' || s[0] == '.' {
        seq!['\\', s[0]] + escaped_instance(s.skip(1))
    } else {
        seq![s[0]] + escaped_instance(s.skip(1))
    }
}

/// Escapes backslashes and dots.
pub fn escape_instance(name: &str) -> (r: String)
    ensures
        r@ == escaped_instance(name@),
{
    let v: Vec<char> = chars_of(name);
    let mut out: Vec<char> = Vec::new();
    let mut i: usize = 0;
    assert(v@.skip(0) =~= v@);
    assert(out@ + escaped_instance(v@) =~= escaped_instance(v@));
    while i < v.len()
        invariant
            i <= v@.len(),
            escaped_instance(v@) == out@ + escaped_instance(v@.skip(i as int)),
        decreases v@.len() - i,
    {
        let ghost before = out@;
        if v[i] == '\\' || v[i] == '.' {
            out.push('\\');
        }
        out.push(v[i]);
        proof {
            let rest = v@.skip(i as int);
            assert(rest.skip(1) =~= v@.skip(i + 1));
            assert(out@ + escaped_instance(v@.skip(i + 1)) =~= before + escaped_instance(rest));
        }
        i = i + 1;
    }
    assert(v@.skip(i as int) =~= Seq::empty());
    assert(out@ + escaped_instance(v@.skip(i as int)) =~= out@);
    string_of(&out)
}

/// How many of the first `n` characters are digits in a row.
pub open spec fn leading_digits(s: Seq<char>, n: nat) -> int
    decreases n,
{
    if n == 0 || s.len() == 0 || digit_of(s[0], 10) is None {
        0
    } else {
        1 + leading_digits(s.skip(1), (n - 1) as nat)
    }
}

/// There are as many characters as leading digits.
pub proof fn lemma_leading_digits(s: Seq<char>, n: nat)
    ensures
        0 <= leading_digits(s, n) <= n,
        leading_digits(s, n) <= s.len(),
    decreases n,
{
    if n > 0 && s.len() > 0 && digit_of(s[0], 10) is Some {
        lemma_leading_digits(s.skip(1), (n - 1) as nat);
    }
}

/// An instance name with its escapes undone: a backslash before three digits
/// gives the character of that number, one before one or two digits is left
/// out, and one before anything else gives that character.
pub open spec fn unescaped_instance(s: Seq<char>) -> Seq<char>
    decreases s.len(),
{
    if s.len() == 0 {
        Seq::empty()
    } else if s[0] != '\\' {
        seq![s[0]] + unescaped_instance(s.skip(1))
    } else {
        let n = leading_digits(s.skip(1), 3);
        proof {
            lemma_leading_digits(s.skip(1), 3);
        }
        if n == 3 {
            seq![digits_value(s.subrange(1, 4), 10)->0 as u32 as char] + unescaped_instance(s.skip(4))
        } else if n == 0 {
            if s.len() == 1 {
                Seq::empty()
            } else {
                seq![s[1]] + unescaped_instance(s.skip(2))
            }
        } else {
            s.subrange(1, 1 + n) + unescaped_instance(s.skip(1 + n))
        }
    }
}

/// The instance part of `Instance._omt._tcp.local.`.
pub open spec fn instance_of(s: Seq<char>) -> Seq<char> {
    let raw = if ends(s, SERVICE_TYPE@) {
        let t = s.take(s.len() - SERVICE_TYPE@.len());
        if t.len() > 0 && t.last() == '.' {
            t.drop_last()
        } else {
            t
        }
    } else {
        s
    };
    unescaped_instance(raw)
}

/// Counts the leading digits.
fn count_digits(s: &[char], n: usize) -> (r: usize)
    ensures
        r == leading_digits(s@, n as nat),
        r <= s@.len(),
        r <= n,
    decreases n,
{
    if n == 0 || s.len() == 0 {
        return 0;
    }
    match digit(s[0], 10) {
        None => 0,
        Some(_) => 1 + count_digits(from_index(s, 1), n - 1),
    }
}

/// Three digits write a number below a thousand.
proof fn lemma_three_digits(s: Seq<char>)
    requires
        s.len() >= 4,
        leading_digits(s.skip(1), 3) == 3,
    ensures
        digits_value(s.subrange(1, 4), 10) is Some,
        0 <= digits_value(s.subrange(1, 4), 10)->0 < 1000,
{
    reveal_with_fuel(leading_digits, 4);
    let t = s.subrange(1, 4);
    let a = s.skip(1);
    assert(a.skip(1).skip(1) =~= s.skip(3));
    assert(a.skip(1) =~= s.skip(2));
    assert(digit_of(s[1], 10) is Some && digit_of(s[2], 10) is Some && digit_of(s[3], 10) is Some);
    assert(t.drop_last().drop_last().drop_last() =~= Seq::empty());
    assert(t.last() == s[3] && t.drop_last().last() == s[2] && t.drop_last().drop_last().last() == s[1]);
    assert(digits_value(t.drop_last().drop_last().drop_last(), 10) == Some(0int));
    assert(digits_value(t.drop_last().drop_last(), 10) is Some);
    assert(digits_value(t.drop_last(), 10) is Some);
}

/// Undoes the escapes.
fn unescape_instance(s: &[char]) -> (r: Vec<char>)
    ensures
        r@ == unescaped_instance(s@),
{
    let n: usize = s.len();
    let mut out: Vec<char> = Vec::new();
    let mut i: usize = 0;
    assert(s@.skip(0) =~= s@);
    assert(out@ + unescaped_instance(s@) =~= unescaped_instance(s@));
    while i < n
        invariant
            n == s@.len(),
            i <= n,
            unescaped_instance(s@) == out@ + unescaped_instance(s@.skip(i as int)),
        decreases n - i,
    {
        let ghost before = out@;
        let ghost rest = s@.skip(i as int);
        let ghost from = i as int;
        if s[i] != '\\' {
            out.push(s[i]);
            i = i + 1;
            assert(rest.skip(1) =~= s@.skip(i as int));
        } else {
            let tail: &[char] = from_index(s, i + 1);
            assert(tail@ =~= rest.skip(1));
            let d: usize = count_digits(tail, 3);
            if d == 3 {
                proof {
                    lemma_three_digits(rest);
                }
                let part: &[char] = up_to(tail, 3);
                assert(part@ =~= rest.subrange(1, 4));
                match crate::text::read_digits(part, 10, 999) {
                    Some(v) => match char::from_u32(v as u32) {
                        Some(c) => {
                            out.push(c);
                        },
                        None => {},
                    },
                    None => {},
                }
                i = i + 4;
                assert(rest.skip(4) =~= s@.skip(i as int));
            } else if d == 0 {
                if i + 1 < n {
                    out.push(s[i + 1]);
                    i = i + 2;
                    assert(rest.skip(2) =~= s@.skip(i as int));
                } else {
                    i = i + 1;
                    assert(s@.skip(i as int) =~= Seq::empty());
                }
            } else {
                push_chars(&mut out, up_to(tail, d));
                assert(tail@.take(d as int) =~= rest.subrange(1, 1 + d));
                i = i + 1 + d;
                assert(rest.skip(1 + d) =~= s@.skip(i as int));
            }
        }
        assert(out@ + unescaped_instance(s@.skip(i as int)) =~= before + unescaped_instance(rest));
    }
    assert(s@.skip(i as int) =~= Seq::empty());
    assert(out@ + unescaped_instance(s@.skip(i as int)) =~= out@);
    out
}

/// The instance part of `Instance._omt._tcp.local.`, with DNS escapes (`\.`,
/// `\\`, `\DDD`) undone.
pub fn instance_name(fullname: &str) -> (r: String)
    ensures
        r@ == instance_of(fullname@),
{
    let v: Vec<char> = chars_of(fullname);
    let all: &[char] = v.as_slice();
    let kind: Vec<char> = chars_of(SERVICE_TYPE);
    let raw: &[char] = if ends_with(all, SERVICE_TYPE) {
        let t: &[char] = up_to(all, all.len() - kind.len());
        if t.len() > 0 && t[t.len() - 1] == '.' {
            assert(t@.take(t@.len() - 1) =~= t@.drop_last());
            up_to(t, t.len() - 1)
        } else {
            t
        }
    } else {
        all
    };
    let out: Vec<char> = unescape_instance(raw);
    string_of(&out)
}

/// Undoing escapes undoes escaping.
proof fn lemma_unescape_instance(s: Seq<char>)
    ensures
        unescaped_instance(escaped_instance(s)) == s,
    decreases s.len(),
{
    if s.len() == 0 {
        assert(s =~= Seq::empty());
    } else {
        lemma_unescape_instance(s.skip(1));
        let rest = escaped_instance(s.skip(1));
        let e = escaped_instance(s);
        if s[0] == '\\' || s[0] == '.' {
            assert(e.skip(2) =~= rest);
            assert(e.skip(1)[0] == s[0]);
            assert(leading_digits(e.skip(1), 3) == 0);
        } else {
            assert(e.skip(1) =~= rest);
        }
        assert(seq![s[0]] + s.skip(1) =~= s);
    }
}

/// The full name of an announced source is read back from its service name.
pub proof fn law_instance_round_trip(name: Seq<char>)
    ensures
        instance_of(escaped_instance(name) + "."@ + SERVICE_TYPE@) == name,
{
    reveal_strlit(".");
    let e = escaped_instance(name);
    let s = e + "."@ + SERVICE_TYPE@;
    let n = SERVICE_TYPE@.len();
    assert(s.skip(s.len() - n) =~= SERVICE_TYPE@);
    assert(s.take(s.len() - n) =~= e + "."@);
    assert((e + "."@).drop_last() =~= e);
    lemma_unescape_instance(name);
}

// ---------------------------------------------------------------------------
// Sources
// ---------------------------------------------------------------------------

/// A source found on the network.
#[derive(Clone, Debug, PartialEq, Eq)]
pub struct Source {
    /// `MACHINE (Name)`, the name receivers use to select it.
    pub full_name: String,
    /// SRV target host, e.g. `my-mac.local.`.
    pub host: String,
    /// TCP port of the sender.
    pub port: u16,
    /// Addresses for `host`, best first: routable before link-local before
    /// loopback, IPv4 before IPv6.
    pub addresses: Vec<IpAddr>,
}

/// A source as plain values.
#[verifier::ext_equal]
pub struct SourceView {
    /// `MACHINE (Name)`.
    pub full_name: Seq<char>,
    /// Host.
    pub host: Seq<char>,
    /// Port.
    pub port: u16,
    /// Addresses, best first.
    pub addresses: Seq<IpAddr>,
}

impl View for Source {
    type V = SourceView;

    open spec fn view(&self) -> SourceView {
        SourceView {
            full_name: self.full_name@,
            host: self.host@,
            port: self.port,
            addresses: self.addresses@,
        }
    }
}

impl Source {
    /// A copy.
    pub fn copy(&self) -> (r: Source)
        ensures
            r@ == self@,
    {
        Source {
            full_name: self.full_name.clone(),
            host: self.host.clone(),
            port: self.port,
            addresses: copy_addresses(&self.addresses),
        }
    }
}

/// Copies addresses.
pub fn copy_addresses(v: &Vec<IpAddr>) -> (r: Vec<IpAddr>)
    ensures
        r@ == v@,
{
    let mut r: Vec<IpAddr> = Vec::new();
    let mut i: usize = 0;
    while i < v.len()
        invariant
            i <= v@.len(),
            r@ == v@.take(i as int),
        decreases v@.len() - i,
    {
        r.push(v[i]);
        assert(v@.take(i + 1) =~= v@.take(i as int).push(v@[i as int]));
        i = i + 1;
    }
    assert(v@.take(i as int) =~= v@);
    r
}

/// A change in what is on the network.
#[derive(Clone, Debug, PartialEq, Eq)]
pub enum SourceEvent {
    /// A source appeared, or its port or addresses changed.
    Resolved(Source),
    /// A source went away. Holds its full name.
    Removed(String),
}

/// A change as plain values.
#[verifier::ext_equal]
pub enum SourceChange {
    /// A source appeared or changed.
    Resolved(SourceView),
    /// A source went away.
    Removed(Seq<char>),
}

impl View for SourceEvent {
    type V = SourceChange;

    open spec fn view(&self) -> SourceChange {
        match self {
            SourceEvent::Resolved(s) => SourceChange::Resolved(s@),
            SourceEvent::Removed(n) => SourceChange::Removed(n@),
        }
    }
}

/// The addresses that can be used: IPv6 link-local ones need an interface and
/// are left out.
pub open spec fn usable(s: Seq<IpAddr>) -> Seq<IpAddr>
    decreases s.len(),
{
    if s.len() == 0 {
        Seq::empty()
    } else if s.last().v6_link_local() {
        usable(s.drop_last())
    } else {
        usable(s.drop_last()).push(s.last())
    }
}

/// The addresses that can be used.
fn usable_addresses(v: &[IpAddr]) -> (r: Vec<IpAddr>)
    ensures
        r@ == usable(v@),
{
    let mut r: Vec<IpAddr> = Vec::new();
    let mut i: usize = 0;
    assert(v@.take(0) =~= Seq::empty());
    while i < v.len()
        invariant
            i <= v@.len(),
            r@ == usable(v@.take(i as int)),
        decreases v@.len() - i,
    {
        assert(v@.take(i + 1).drop_last() =~= v@.take(i as int));
        if !is_ipv6_link_local(&v[i]) {
            r.push(v[i]);
        }
        i = i + 1;
    }
    assert(v@.take(i as int) =~= v@);
    r
}

/// What a resolved service tells: a source, unless its name is not that of a
/// source or it has no address that can be used yet.
pub open spec fn tells(
    fullname: Seq<char>,
    host: Seq<char>,
    port: u16,
    addresses: Seq<IpAddr>,
    event: SourceChange,
) -> bool {
    event matches SourceChange::Resolved(s) && {
        &&& s.full_name == instance_of(fullname)
        &&& s.host == host
        &&& s.port == port
        &&& s.addresses.to_multiset() == usable(addresses).to_multiset()
        &&& s.addresses.len() == usable(addresses).len()
        &&& in_order(s.addresses)
    }
}

/// The change that a resolved service makes. Instances without `(` and `)` in
/// their name are skipped, and so are those without an address that can be
/// used: the responder reports a service as soon as it has any address.
pub fn service_resolved(fullname: &str, host: &str, port: u16, addresses: &[IpAddr]) -> (r: Option<SourceEvent>)
    ensures
        r is Some <==> valid_full_name(instance_of(fullname@)) && usable(addresses@).len() > 0,
        r matches Some(e) ==> tells(fullname@, host@, port, addresses@, e@),
{
    let full_name: String = instance_name(fullname);
    if !is_valid_full_name(full_name.as_str()) {
        return None;
    }
    let found: Vec<IpAddr> = usable_addresses(addresses);
    if found.len() == 0 {
        return None;
    }
    let sorted: Vec<IpAddr> = sort_addresses(found.as_slice());
    let e: SourceEvent = SourceEvent::Resolved(
        Source { full_name, host: host.to_string(), port, addresses: sorted },
    );
    Some(e)
}

/// The change that a removed service makes.
pub fn service_removed(fullname: &str) -> (r: SourceEvent)
    ensures
        r@ == SourceChange::Removed(instance_of(fullname@)),
{
    SourceEvent::Removed(instance_name(fullname))
}

/// How a source called `name` is announced from a host: its full name and its
/// SRV target.
pub fn announcement(name: &str, host: &str) -> (r: (String, String))
    ensures
        r.0@ == full_name_of(uppercase(host@), name@),
        r.1@ == srv_host_of(host@),
{
    let machine: String = machine_name_of(host);
    (full_name(machine.as_str(), name), srv_host(host))
}

/// The service name under which a source is announced and withdrawn.
pub fn service_name(full_name: &str) -> (r: String)
    ensures
        r@ == escaped_instance(full_name@) + "."@ + SERVICE_TYPE@,
{
    let e: String = escape_instance(full_name);
    let mut v: Vec<char> = chars_of(e.as_str());
    push_str(&mut v, ".");
    push_str(&mut v, SERVICE_TYPE);
    string_of(&v)
}

/// The addresses of a resolved service that can be used are those outside
/// `fe80::/10`, which mean nothing without the link they belong to.
pub proof fn law_usable_addresses(s: Seq<IpAddr>, a: IpAddr)
    ensures
        usable(s).contains(a) <==> s.contains(a) && !(a matches IpAddr::V6(b)
            && 0xFE80_0000_0000_0000_0000_0000_0000_0000 <= b <= 0xFEBF_FFFF_FFFF_FFFF_FFFF_FFFF_FFFF_FFFF),
        usable(s).len() <= s.len(),
    decreases s.len(),
{
    if s.len() > 0 {
        let (rest, last) = (s.drop_last(), s.last());
        law_usable_addresses(rest, a);
        assert(s =~= rest.push(last));
        assert(s.contains(a) <==> rest.contains(a) || last == a) by {
            if rest.contains(a) {
                let i = choose|i: int| 0 <= i < rest.len() && rest[i] == a;
                assert(s[i] == a);
            }
            if s.contains(a) {
                let i = choose|i: int| 0 <= i < s.len() && s[i] == a;
                if i < rest.len() {
                    assert(rest[i] == a);
                }
            }
            assert(s[s.len() - 1] == last);
        }
        let u = usable(rest);
        let v = u.push(last);
        assert(v.contains(a) <==> u.contains(a) || last == a) by {
            if u.contains(a) {
                let i = choose|i: int| 0 <= i < u.len() && u[i] == a;
                assert(v[i] == a);
            }
            if v.contains(a) {
                let i = choose|i: int| 0 <= i < v.len() && v[i] == a;
                if i < u.len() {
                    assert(u[i] == a);
                }
            }
            assert(v[u.len() as int] == last);
        }
    }
}

} // verus!
