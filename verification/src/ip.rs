//! IP addresses: their text form, their classes, and the order in which they
//! are tried.

use crate::text::{
    decimal, digits_value, find, from_index, hexadecimal, hexadecimal_chars, index_of, lemma_index_of,
    push_chars, push_decimal, push_str, read_digits, up_to,
};
use vstd::prelude::*;

verus! {

/// An IP address, as the number that its bytes write, most significant first.
#[derive(Clone, Copy, Debug, PartialEq, Eq, Hash, Structural)]
pub enum IpAddr {
    /// An IPv4 address.
    V4(u32),
    /// An IPv6 address.
    V6(u128),
}

/// An IP address and a TCP port.
#[derive(Clone, Copy, Debug, PartialEq, Eq, Hash, Structural)]
pub struct SocketAddr {
    /// The host.
    pub ip: IpAddr,
    /// The port.
    pub port: u16,
    /// The flow information of an IPv6 address; 0 otherwise.
    pub flow: u32,
    /// The scope of an IPv6 address, such as the interface through which a
    /// link-local address is reached; 0 if there is none.
    pub scope: u32,
}

/// An address and a port without a scope.
pub open spec fn socket_at(ip: IpAddr, port: u16) -> SocketAddr {
    SocketAddr { ip, port, flow: 0, scope: 0 }
}

impl SocketAddr {
    /// An address and a port without a scope.
    pub fn new(ip: IpAddr, port: u16) -> (r: SocketAddr)
        ensures
            r == socket_at(ip, port),
    {
        SocketAddr { ip, port, flow: 0, scope: 0 }
    }
}

// ---------------------------------------------------------------------------
// Text to address
// ---------------------------------------------------------------------------

/// One byte of an IPv4 address: at most three digits, no leading zero.
pub open spec fn octet(s: Seq<char>) -> Option<int> {
    if 1 <= s.len() <= 3 && (s.len() > 1 ==> s[0] != '0') {
        match digits_value(s, 10) {
            Some(v) => if v <= 255 {
                Some(v)
            } else {
                None
            },
            None => None,
        }
    } else {
        None
    }
}

/// Bytes separated by dots.
pub open spec fn octets(s: Seq<char>) -> Option<Seq<int>>
    decreases s.len(),
{
    proof {
        lemma_index_of(s, '.');
    }
    match index_of(s, '.') {
        None => match octet(s) {
            Some(v) => Some(seq![v]),
            None => None,
        },
        Some(i) => match (octet(s.take(i)), octets(s.skip(i + 1))) {
            (Some(v), Some(rest)) => Some(seq![v] + rest),
            _ => None,
        },
    }
}

/// The IPv4 address that a text writes: four bytes.
pub open spec fn v4_of(s: Seq<char>) -> Option<int> {
    match octets(s) {
        Some(o) => if o.len() == 4 {
            Some(((o[0] * 256 + o[1]) * 256 + o[2]) * 256 + o[3])
        } else {
            None
        },
        None => None,
    }
}

/// One group of an IPv6 address: at most four hexadecimal digits.
pub open spec fn hextet(s: Seq<char>) -> Option<int> {
    if 1 <= s.len() <= 4 {
        match digits_value(s, 16) {
            Some(v) => if v <= 0xFFFF {
                Some(v)
            } else {
                None
            },
            None => None,
        }
    } else {
        None
    }
}

/// Groups separated by colons. At the end, an IPv4 address may stand for the
/// last two.
pub open spec fn hextets(s: Seq<char>, v4_end: bool) -> Option<Seq<int>>
    decreases s.len(),
{
    proof {
        lemma_index_of(s, ':');
    }
    match index_of(s, ':') {
        None => match v4_of(s) {
            Some(b) if v4_end => Some(seq![b / 65536, b % 65536]),
            _ => match hextet(s) {
                Some(v) => Some(seq![v]),
                None => None,
            },
        },
        Some(i) => match (hextet(s.take(i)), hextets(s.skip(i + 1), v4_end)) {
            (Some(v), Some(rest)) => Some(seq![v] + rest),
            _ => None,
        },
    }
}

/// Groups separated by colons, or no groups at all.
pub open spec fn some_hextets(s: Seq<char>, v4_end: bool) -> Option<Seq<int>> {
    if s.len() == 0 {
        Some(Seq::empty())
    } else {
        hextets(s, v4_end)
    }
}

/// The place of the first `::`.
pub open spec fn gap_of(s: Seq<char>) -> Option<int>
    decreases s.len(),
{
    if s.len() < 2 {
        None
    } else if s[0] == ':' && s[1] == ':' {
        Some(0)
    } else {
        match gap_of(s.skip(1)) {
            Some(i) => Some(i + 1),
            None => None,
        }
    }
}

/// The number that groups write.
pub open spec fn number(g: Seq<int>) -> int
    decreases g.len(),
{
    if g.len() == 0 {
        0
    } else {
        number(g.drop_last()) * 65536 + g.last()
    }
}

/// `n` groups of zeros.
pub open spec fn zeros(n: int) -> Seq<int> {
    Seq::new(n as nat, |i: int| 0)
}

/// The IPv6 address that a text writes: eight groups, or fewer around a `::`
/// that stands for the missing ones, at least one.
pub open spec fn v6_of(s: Seq<char>) -> Option<int> {
    match gap_of(s) {
        None => match hextets(s, true) {
            Some(g) => if g.len() == 8 {
                Some(number(g))
            } else {
                None
            },
            None => None,
        },
        Some(i) => match (some_hextets(s.take(i), false), some_hextets(s.skip(i + 2), true)) {
            (Some(head), Some(tail)) => if head.len() + tail.len() <= 7 {
                Some(number(head + zeros(8 - head.len() - tail.len()) + tail))
            } else {
                None
            },
            _ => None,
        },
    }
}

/// The address that a text writes.
pub open spec fn ip_of(s: Seq<char>) -> Option<IpAddr> {
    match v4_of(s) {
        Some(b) => Some(IpAddr::V4(b as u32)),
        None => match v6_of(s) {
            Some(b) => Some(IpAddr::V6(b as u128)),
            None => None,
        },
    }
}

/// Group values as integers.
pub open spec fn ints(v: Seq<u16>) -> Seq<int> {
    Seq::new(v.len(), |i: int| v[i] as int)
}

/// Reads one byte.
fn read_octet(s: &[char]) -> (r: Option<u16>)
    ensures
        match r {
            Some(v) => octet(s@) == Some(v as int) && v <= 255,
            None => octet(s@) is None,
        },
{
    if s.len() < 1 || s.len() > 3 || (s.len() > 1 && s[0] == '0') {
        return None;
    }
    match read_digits(s, 10, 255) {
        Some(v) => Some(v as u16),
        None => None,
    }
}

/// Reads one group.
fn read_hextet(s: &[char]) -> (r: Option<u16>)
    ensures
        match r {
            Some(v) => hextet(s@) == Some(v as int),
            None => hextet(s@) is None,
        },
{
    if s.len() < 1 || s.len() > 4 {
        return None;
    }
    match read_digits(s, 16, 0xFFFF) {
        Some(v) => Some(v as u16),
        None => None,
    }
}

/// Reads bytes separated by dots.
fn read_octets(s: &[char]) -> (r: Option<Vec<u16>>)
    ensures
        match r {
            Some(v) => {
                &&& octets(s@) == Some(ints(v@))
                &&& forall|i: int| 0 <= i < v@.len() ==> #[trigger] v@[i] <= 255
            },
            None => octets(s@) is None,
        },
{
    let n: usize = s.len();
    let mut v: Vec<u16> = Vec::new();
    let mut at: usize = 0;
    assert(s@.skip(0) =~= s@);
    proof {
        match octets(s@) {
            Some(t) => {
                assert(ints(v@) + t =~= t);
            },
            None => {},
        }
    }
    loop
        invariant
            n == s@.len(),
            at <= n,
            forall|i: int| 0 <= i < v@.len() ==> #[trigger] v@[i] <= 255,
            match octets(s@.skip(at as int)) {
                Some(t) => octets(s@) == Some(ints(v@) + t),
                None => octets(s@) is None,
            },
        decreases n - at,
    {
        let rest: &[char] = from_index(s, at);
        let ghost before = v@;
        proof {
            lemma_index_of(rest@, '.');
        }
        match find(rest, '.') {
            None => match read_octet(rest) {
                None => {
                    return None;
                },
                Some(o) => {
                    v.push(o);
                    assert(ints(v@) =~= ints(before) + seq![o as int]);
                    return Some(v);
                },
            },
            Some(i) => match read_octet(up_to(rest, i)) {
                None => {
                    return None;
                },
                Some(o) => {
                    v.push(o);
                    proof {
                        assert(rest@.skip(i + 1) =~= s@.skip(at + i + 1));
                        match octets(s@.skip(at + i + 1)) {
                            Some(t) => {
                                assert(ints(v@) + t =~= ints(before) + (seq![o as int] + t));
                            },
                            None => {},
                        }
                    }
                    at = at + i + 1;
                },
            },
        }
    }
}

/// Reads an IPv4 address.
fn read_v4(s: &[char]) -> (r: Option<u32>)
    ensures
        match r {
            Some(v) => v4_of(s@) == Some(v as int),
            None => v4_of(s@) is None,
        },
{
    match read_octets(s) {
        None => None,
        Some(o) => {
            if o.len() != 4 {
                return None;
            }
            Some(((o[0] as u32 * 256 + o[1] as u32) * 256 + o[2] as u32) * 256 + o[3] as u32)
        },
    }
}

/// Reads groups separated by colons.
fn read_hextets(s: &[char], v4_end: bool) -> (r: Option<Vec<u16>>)
    ensures
        match r {
            Some(v) => hextets(s@, v4_end) == Some(ints(v@)),
            None => hextets(s@, v4_end) is None,
        },
{
    let n: usize = s.len();
    let mut v: Vec<u16> = Vec::new();
    let mut at: usize = 0;
    assert(s@.skip(0) =~= s@);
    proof {
        match hextets(s@, v4_end) {
            Some(t) => {
                assert(ints(v@) + t =~= t);
            },
            None => {},
        }
    }
    loop
        invariant
            n == s@.len(),
            at <= n,
            match hextets(s@.skip(at as int), v4_end) {
                Some(t) => hextets(s@, v4_end) == Some(ints(v@) + t),
                None => hextets(s@, v4_end) is None,
            },
        decreases n - at,
    {
        let rest: &[char] = from_index(s, at);
        let ghost before = v@;
        proof {
            lemma_index_of(rest@, ':');
        }
        match find(rest, ':') {
            None => {
                if v4_end {
                    match read_v4(rest) {
                        Some(b) => {
                            v.push((b / 65536) as u16);
                            v.push((b % 65536) as u16);
                            assert(ints(v@) =~= ints(before) + seq![b as int / 65536, b as int % 65536]);
                            return Some(v);
                        },
                        None => {},
                    }
                }
                match read_hextet(rest) {
                    None => {
                        return None;
                    },
                    Some(g) => {
                        v.push(g);
                        assert(ints(v@) =~= ints(before) + seq![g as int]);
                        return Some(v);
                    },
                }
            },
            Some(i) => match read_hextet(up_to(rest, i)) {
                None => {
                    return None;
                },
                Some(g) => {
                    v.push(g);
                    proof {
                        assert(rest@.skip(i + 1) =~= s@.skip(at + i + 1));
                        match hextets(s@.skip(at + i + 1), v4_end) {
                            Some(t) => {
                                assert(ints(v@) + t =~= ints(before) + (seq![g as int] + t));
                            },
                            None => {},
                        }
                    }
                    at = at + i + 1;
                },
            },
        }
    }
}

/// Reads groups separated by colons, or none.
fn read_some_hextets(s: &[char], v4_end: bool) -> (r: Option<Vec<u16>>)
    ensures
        match r {
            Some(v) => some_hextets(s@, v4_end) == Some(ints(v@)),
            None => some_hextets(s@, v4_end) is None,
        },
{
    if s.len() == 0 {
        let v: Vec<u16> = Vec::new();
        assert(ints(v@) =~= Seq::empty());
        Some(v)
    } else {
        read_hextets(s, v4_end)
    }
}

/// The first `::`.
pub proof fn lemma_gap_at(s: Seq<char>, i: int)
    requires
        0 <= i < s.len() - 1,
        s[i] == ':',
        s[i + 1] == ':',
        forall|k: int| 0 <= k < i ==> !(#[trigger] s[k] == ':' && s[k + 1] == ':'),
    ensures
        gap_of(s) == Some(i),
    decreases i,
{
    if i > 0 {
        assert(!(s[0] == ':' && s[1] == ':'));
        let t = s.skip(1);
        assert forall|k: int| 0 <= k < i - 1 implies !(#[trigger] t[k] == ':' && t[k + 1] == ':') by {
            assert(!(s[k + 1] == ':' && s[k + 2] == ':'));
        }
        lemma_gap_at(t, i - 1);
    }
}

/// No `::`.
pub proof fn lemma_gap_none(s: Seq<char>)
    requires
        forall|k: int| 0 <= k < s.len() - 1 ==> !(#[trigger] s[k] == ':' && s[k + 1] == ':'),
    ensures
        gap_of(s) is None,
    decreases s.len(),
{
    if s.len() >= 2 {
        assert(!(s[0] == ':' && s[1] == ':'));
        let t = s.skip(1);
        assert forall|k: int| 0 <= k < t.len() - 1 implies !(#[trigger] t[k] == ':' && t[k + 1] == ':') by {
            assert(!(s[k + 1] == ':' && s[k + 2] == ':'));
        }
        lemma_gap_none(t);
    }
}

/// Finds the first `::`.
fn find_gap(s: &[char]) -> (r: Option<usize>)
    ensures
        match r {
            Some(i) => gap_of(s@) == Some(i as int) && i + 2 <= s@.len(),
            None => gap_of(s@) is None,
        },
{
    let n: usize = s.len();
    if n < 2 {
        return None;
    }
    let mut i: usize = 0;
    while i < n - 1
        invariant
            n == s@.len(),
            2 <= n,
            i <= n - 1,
            forall|k: int| 0 <= k < i ==> !(#[trigger] s@[k] == ':' && s@[k + 1] == ':'),
        decreases n - i,
    {
        if s[i] == ':' && s[i + 1] == ':' {
            proof {
                lemma_gap_at(s@, i as int);
            }
            return Some(i);
        }
        i = i + 1;
    }
    proof {
        lemma_gap_none(s@);
    }
    None
}

/// 65536 to the `n`.
pub open spec fn scale(n: nat) -> int
    decreases n,
{
    if n == 0 {
        1
    } else {
        65536 * scale((n - 1) as nat)
    }
}

/// Eight groups fill an address.
pub proof fn lemma_scale()
    ensures
        scale(8) == 0x1_0000_0000_0000_0000_0000_0000_0000_0000,
        forall|n: nat| n <= 8 ==> 1 <= #[trigger] scale(n) <= scale(8),
{
    reveal_with_fuel(scale, 9);
}

/// A number of groups is below its scale.
proof fn lemma_number_bound(g: Seq<int>)
    requires
        forall|i: int| 0 <= i < g.len() ==> 0 <= #[trigger] g[i] < 65536,
    ensures
        0 <= number(g) < scale(g.len()),
    decreases g.len(),
{
    if g.len() > 0 {
        let h = g.drop_last();
        assert forall|i: int| 0 <= i < h.len() implies 0 <= #[trigger] h[i] < 65536 by {
            assert(h[i] == g[i]);
        }
        lemma_number_bound(h);
    }
}

/// The number that eight groups write.
fn number_of(g: &Vec<u16>) -> (r: u128)
    requires
        g@.len() == 8,
    ensures
        r == number(ints(g@)),
{
    let mut v: u128 = 0;
    let mut i: usize = 0;
    assert(ints(g@).take(0) =~= Seq::empty());
    while i < 8
        invariant
            i <= 8,
            g@.len() == 8,
            v == number(ints(g@).take(i as int)),
        decreases 8 - i,
    {
        proof {
            let t = ints(g@).take(i + 1);
            assert(t.drop_last() =~= ints(g@).take(i as int));
            lemma_number_bound(t);
            lemma_scale();
            assert(t.len() == i + 1);
        }
        v = v * 65536 + g[i] as u128;
        i = i + 1;
    }
    assert(ints(g@).take(8) =~= ints(g@));
    v
}

/// Reads an IPv6 address.
fn read_v6(s: &[char]) -> (r: Option<u128>)
    ensures
        match r {
            Some(v) => v6_of(s@) == Some(v as int),
            None => v6_of(s@) is None,
        },
{
    let n: usize = s.len();
    match find_gap(s) {
        None => match read_hextets(s, true) {
            None => None,
            Some(g) => {
                if g.len() != 8 {
                    return None;
                }
                Some(number_of(&g))
            },
        },
        Some(i) => {
            assert(i + 2 <= n);
            let head: Vec<u16> = match read_some_hextets(up_to(s, i), false) {
                Some(h) => h,
                None => {
                    return None;
                },
            };
            let tail: Vec<u16> = match read_some_hextets(from_index(s, i + 2), true) {
                Some(t) => t,
                None => {
                    return None;
                },
            };
            if head.len() > 7 || tail.len() > 7 - head.len() {
                return None;
            }
            let mut g: Vec<u16> = Vec::new();
            let mut k: usize = 0;
            while k < 8
                invariant
                    k <= 8,
                    k == g@.len(),
                    head@.len() + tail@.len() <= 7,
                    forall|j: int|
                        0 <= j < k ==> #[trigger] g@[j] == (if j < head@.len() {
                            head@[j]
                        } else if j < 8 - tail@.len() {
                            0u16
                        } else {
                            tail@[j - (8 - tail@.len())]
                        }),
                decreases 8 - k,
            {
                if k < head.len() {
                    g.push(head[k]);
                } else if k < 8 - tail.len() {
                    g.push(0);
                } else {
                    g.push(tail[k - (8 - tail.len())]);
                }
                k = k + 1;
            }
            assert(ints(g@) =~= ints(head@) + zeros(8 - head@.len() - tail@.len()) + ints(tail@));
            Some(number_of(&g))
        },
    }
}

/// Reads an IP address in its text form.
pub fn parse(s: &[char]) -> (r: Option<IpAddr>)
    ensures
        r == ip_of(s@),
{
    match read_v4(s) {
        Some(b) => Some(IpAddr::V4(b)),
        None => match read_v6(s) {
            Some(b) => Some(IpAddr::V6(b)),
            None => None,
        },
    }
}

// ---------------------------------------------------------------------------
// Address to text
// ---------------------------------------------------------------------------

/// An IPv4 address in text.
pub open spec fn v4_text(b: int) -> Seq<char> {
    decimal((b / 0x100_0000) as nat) + "."@ + decimal((b / 0x1_0000 % 256) as nat) + "."@ + decimal(
        (b / 0x100 % 256) as nat,
    ) + "."@ + decimal((b % 256) as nat)
}

/// The last `n` groups of a number.
pub open spec fn groups(v: int, n: nat) -> Seq<int>
    decreases n,
{
    if n == 0 {
        Seq::empty()
    } else {
        groups(v / 65536, (n - 1) as nat).push(v % 65536)
    }
}

/// Groups in text, separated by colons.
pub open spec fn joined(g: Seq<int>) -> Seq<char>
    decreases g.len(),
{
    if g.len() == 0 {
        Seq::empty()
    } else if g.len() == 1 {
        hexadecimal(g[0] as nat)
    } else {
        hexadecimal(g[0] as nat) + ":"@ + joined(g.skip(1))
    }
}

/// How many zero groups stand from `i` on.
pub open spec fn zero_run(g: Seq<int>, i: int) -> int
    decreases g.len() - i,
{
    if 0 <= i < g.len() && g[i] == 0 {
        1 + zero_run(g, i + 1)
    } else {
        0
    }
}

/// The first of the longest runs of zero groups that start before `n`: its
/// place and its length.
pub open spec fn longest_run(g: Seq<int>, n: nat) -> (int, int)
    decreases n,
{
    if n == 0 {
        (0, 0)
    } else {
        let best = longest_run(g, (n - 1) as nat);
        let here = zero_run(g, n - 1);
        if here > best.1 {
            (n - 1, here)
        } else {
            best
        }
    }
}

/// An IPv6 address in text: the first of the longest runs of two or more zero
/// groups is written `::`, and an address that maps an IPv4 address shows it.
pub open spec fn v6_text(b: int) -> Seq<char> {
    if b / 0x1_0000_0000 == 0xFFFF {
        "::ffff:"@ + v4_text(b % 0x1_0000_0000)
    } else {
        let g = groups(b, 8);
        let run = longest_run(g, 8);
        if run.1 > 1 {
            joined(g.take(run.0)) + "::"@ + joined(g.skip(run.0 + run.1))
        } else {
            joined(g)
        }
    }
}

/// An address in text.
pub open spec fn ip_text(ip: IpAddr) -> Seq<char> {
    match ip {
        IpAddr::V4(b) => v4_text(b as int),
        IpAddr::V6(b) => v6_text(b as int),
    }
}

/// A scope in text: nothing where there is none.
pub open spec fn scope_text(scope: u32) -> Seq<char> {
    if scope == 0 {
        Seq::empty()
    } else {
        "%"@ + decimal(scope as nat)
    }
}

/// An address and a port in text.
pub open spec fn socket_text(a: SocketAddr) -> Seq<char> {
    match a.ip {
        IpAddr::V4(b) => v4_text(b as int) + ":"@ + decimal(a.port as nat),
        IpAddr::V6(b) => "["@ + v6_text(b as int) + scope_text(a.scope) + "]:"@ + decimal(a.port as nat),
    }
}

/// Appends an IPv4 address.
fn push_v4(out: &mut Vec<char>, b: u32)
    ensures
        final(out)@ == old(out)@ + v4_text(b as int),
{
    push_decimal(out, (b / 0x100_0000) as u64);
    push_str(out, ".");
    push_decimal(out, (b / 0x1_0000 % 256) as u64);
    push_str(out, ".");
    push_decimal(out, (b / 0x100 % 256) as u64);
    push_str(out, ".");
    push_decimal(out, (b % 256) as u64);
    assert(out@ =~= old(out)@ + v4_text(b as int));
}

/// The last groups of a number.
fn split_groups(v: u128, n: usize) -> (r: Vec<u16>)
    ensures
        ints(r@) == groups(v as int, n as nat),
        r@.len() == n,
    decreases n,
{
    if n == 0 {
        let r: Vec<u16> = Vec::new();
        assert(ints(r@) =~= Seq::empty());
        r
    } else {
        let mut r: Vec<u16> = split_groups(v / 65536, n - 1);
        let ghost before = r@;
        r.push((v % 65536) as u16);
        assert(ints(r@) =~= ints(before).push(v as int % 65536));
        r
    }
}

/// Appends groups separated by colons.
fn push_groups(out: &mut Vec<char>, g: &[u16])
    ensures
        final(out)@ == old(out)@ + joined(ints(g@)),
{
    let ghost all = ints(g@);
    let mut i: usize = 0;
    assert(all.skip(0) =~= all);
    assert(g@.len() == 0 ==> out@ =~= old(out)@ + joined(all));
    while i < g.len()
        invariant
            i <= g@.len(),
            all == ints(g@),
            old(out)@ + joined(all) == out@ + joined(all.skip(i as int)),
        decreases g@.len() - i,
    {
        let ghost before = out@;
        let d: Vec<char> = hexadecimal_chars(g[i] as u64);
        push_chars(out, d.as_slice());
        if i + 1 < g.len() {
            push_str(out, ":");
        }
        proof {
            let rest = all.skip(i as int);
            assert(rest[0] == g@[i as int]);
            assert(rest.skip(1) =~= all.skip(i + 1));
            assert(out@ + joined(all.skip(i + 1)) =~= before + joined(rest));
        }
        i = i + 1;
    }
    assert(all.skip(i as int) =~= Seq::empty());
    assert(out@ + joined(all.skip(i as int)) =~= out@);
}

/// Counts the zero groups from `i` on.
fn count_zeros(g: &Vec<u16>, i: usize) -> (r: usize)
    requires
        i <= g@.len(),
    ensures
        r == zero_run(ints(g@), i as int),
        i + r <= g@.len(),
    decreases g@.len() - i,
{
    if i < g.len() && g[i] == 0 {
        1 + count_zeros(g, i + 1)
    } else {
        0
    }
}

/// Appends an IPv6 address.
fn push_v6(out: &mut Vec<char>, b: u128)
    ensures
        final(out)@ == old(out)@ + v6_text(b as int),
{
    if b / 0x1_0000_0000 == 0xFFFF {
        push_str(out, "::ffff:");
        push_v4(out, (b % 0x1_0000_0000) as u32);
        assert(out@ =~= old(out)@ + v6_text(b as int));
        return;
    }
    let g: Vec<u16> = split_groups(b, 8);
    let mut start: usize = 0;
    let mut len: usize = 0;
    let mut i: usize = 0;
    while i < 8
        invariant
            i <= 8,
            g@.len() == 8,
            longest_run(ints(g@), i as nat) == (start as int, len as int),
            start + len <= 8,
        decreases 8 - i,
    {
        let here: usize = count_zeros(&g, i);
        if here > len {
            start = i;
            len = here;
        }
        i = i + 1;
    }
    if len > 1 {
        let head: &[u16] = vstd::slice::slice_subrange(g.as_slice(), 0, start);
        let tail: &[u16] = vstd::slice::slice_subrange(g.as_slice(), start + len, 8);
        proof {
            assert(ints(head@) =~= ints(g@).take(start as int));
            assert(ints(tail@) =~= ints(g@).skip(start + len));
        }
        push_groups(out, head);
        push_str(out, "::");
        push_groups(out, tail);
        assert(out@ =~= old(out)@ + v6_text(b as int));
    } else {
        push_groups(out, g.as_slice());
    }
}

/// Appends an address.
pub fn push_ip(out: &mut Vec<char>, ip: IpAddr)
    ensures
        final(out)@ == old(out)@ + ip_text(ip),
{
    match ip {
        IpAddr::V4(b) => push_v4(out, b),
        IpAddr::V6(b) => push_v6(out, b),
    }
}

/// Appends an address and a port.
pub fn push_socket(out: &mut Vec<char>, a: SocketAddr)
    ensures
        final(out)@ == old(out)@ + socket_text(a),
{
    match a.ip {
        IpAddr::V4(b) => {
            push_v4(out, b);
            push_str(out, ":");
        },
        IpAddr::V6(b) => {
            push_str(out, "[");
            push_v6(out, b);
            if a.scope != 0 {
                push_str(out, "%");
                push_decimal(out, a.scope as u64);
            }
            push_str(out, "]:");
        },
    }
    push_decimal(out, a.port as u64);
    assert(out@ =~= old(out)@ + socket_text(a));
}

// ---------------------------------------------------------------------------
// Classes and order
// ---------------------------------------------------------------------------

impl IpAddr {
    /// An IPv6 address of the link-local range `fe80::/10`.
    pub open spec fn v6_link_local(self) -> bool {
        match self {
            IpAddr::V4(_) => false,
            IpAddr::V6(b) => b as int / 0x40_0000_0000_0000_0000_0000_0000_0000 == 0x3FA,
        }
    }

    /// An IPv4 address of the link-local range `169.254.0.0/16`.
    pub open spec fn v4_link_local(self) -> bool {
        match self {
            IpAddr::V4(b) => b as int / 0x1_0000 == 0xA9FE,
            IpAddr::V6(_) => false,
        }
    }

    /// An address of this machine: `127.0.0.0/8` or `::1`.
    pub open spec fn loopback(self) -> bool {
        match self {
            IpAddr::V4(b) => b as int / 0x100_0000 == 127,
            IpAddr::V6(b) => b == 1,
        }
    }

    /// An IPv4-mapped IPv6 address as the IPv4 address it maps.
    pub open spec fn unmapped(self) -> IpAddr {
        match self {
            IpAddr::V4(_) => self,
            IpAddr::V6(b) => if b as int / 0x1_0000_0000 == 0xFFFF {
                IpAddr::V4((b as int % 0x1_0000_0000) as u32)
            } else {
                self
            },
        }
    }

    /// An IPv4 address as the IPv6 address that maps it.
    pub open spec fn mapped(self) -> IpAddr {
        match self {
            IpAddr::V4(b) => IpAddr::V6((0xFFFF_0000_0000 + b) as u128),
            IpAddr::V6(_) => self,
        }
    }

    /// Whether this is an IPv4 address.
    pub fn is_ipv4(&self) -> (r: bool)
        ensures
            r == (*self is V4),
    {
        match self {
            IpAddr::V4(_) => true,
            IpAddr::V6(_) => false,
        }
    }

    /// Whether this is an address of this machine.
    pub fn is_loopback(&self) -> (r: bool)
        ensures
            r == self.loopback(),
    {
        match self {
            IpAddr::V4(b) => *b / 0x100_0000 == 127,
            IpAddr::V6(b) => *b == 1,
        }
    }

    /// The class of an address: 2 for this machine, 1 for an IPv4 link-local
    /// address, else 0.
    pub open spec fn class(self) -> int {
        if self.loopback() {
            2
        } else if self.v4_link_local() {
            1
        } else {
            0
        }
    }

    /// The number that the bytes of an address write.
    pub open spec fn bits(self) -> int {
        match self {
            IpAddr::V4(b) => b as int,
            IpAddr::V6(b) => b as int,
        }
    }

    /// Whether an address is tried before another: by class, then IPv4 before
    /// IPv6, then by number.
    pub open spec fn before(self, other: IpAddr) -> bool {
        if self.class() != other.class() {
            self.class() < other.class()
        } else if (self is V4) != (other is V4) {
            self is V4
        } else {
            self.bits() < other.bits()
        }
    }
}

/// Whether this is an IPv6 link-local address.
pub fn is_ipv6_link_local(a: &IpAddr) -> (r: bool)
    ensures
        r == a.v6_link_local(),
{
    match a {
        IpAddr::V4(_) => false,
        IpAddr::V6(b) => *b / 0x40_0000_0000_0000_0000_0000_0000_0000 == 0x3FA,
    }
}

/// IPv4-mapped IPv6 becomes plain IPv4.
pub fn canonical(ip: IpAddr) -> (r: IpAddr)
    ensures
        r == ip.unmapped(),
{
    match ip {
        IpAddr::V4(_) => ip,
        IpAddr::V6(b) => if b / 0x1_0000_0000 == 0xFFFF {
            IpAddr::V4((b % 0x1_0000_0000) as u32)
        } else {
            ip
        },
    }
}

/// The order of addresses: class, whether it is IPv6, and number.
pub fn address_preference(a: &IpAddr) -> (r: (u8, bool, u128))
    ensures
        r.0 == a.class(),
        r.1 == (*a is V6),
        r.2 == a.bits(),
{
    let class: u8 = if a.is_loopback() {
        2
    } else {
        match a {
            IpAddr::V4(b) => if *b / 0x1_0000 == 0xA9FE {
                1
            } else {
                0
            },
            IpAddr::V6(_) => 0,
        }
    };
    match a {
        IpAddr::V4(b) => (class, false, *b as u128),
        IpAddr::V6(b) => (class, true, *b),
    }
}

/// Whether `a` is tried before `b`.
pub fn is_before(a: &IpAddr, b: &IpAddr) -> (r: bool)
    ensures
        r == a.before(*b),
{
    let x: (u8, bool, u128) = address_preference(a);
    let y: (u8, bool, u128) = address_preference(b);
    if x.0 != y.0 {
        x.0 < y.0
    } else if x.1 != y.1 {
        y.1
    } else {
        x.2 < y.2
    }
}

/// Addresses in the order in which they are tried.
pub open spec fn in_order(s: Seq<IpAddr>) -> bool {
    forall|i: int, j: int| 0 <= i < j < s.len() ==> !(#[trigger] s[j]).before(#[trigger] s[i])
}

/// Puts one more address in its place.
fn insert_in_order(v: &mut Vec<IpAddr>, ip: IpAddr)
    requires
        in_order(old(v)@),
    ensures
        in_order(final(v)@),
        final(v)@.to_multiset() == old(v)@.to_multiset().insert(ip),
        final(v)@.len() == old(v)@.len() + 1,
{
    let mut i: usize = v.len();
    while i > 0 && is_before(&ip, &v[i - 1])
        invariant
            i <= v@.len(),
            forall|k: int| i <= k < v@.len() ==> ip.before(#[trigger] v@[k]),
        decreases i,
    {
        i = i - 1;
    }
    let ghost s = v@;
    v.insert(i, ip);
    proof {
        let t = v@;
        assert(t == s.insert(i as int, ip));
        vstd::seq_lib::to_multiset_insert(s, i as int, ip);
        assert forall|a: int, b: int| 0 <= a < b < t.len() implies !(#[trigger] t[b]).before(#[trigger] t[a]) by {
            if a == i {
                assert(t[b] == s[b - 1]);
                assert(ip.before(s[b - 1]));
            } else if b == i {
                assert(t[a] == s[a]);
                if a < i - 1 {
                    assert(!s[i - 1].before(s[a]));
                }
            } else {
                let x = if a < i { a } else { a - 1 };
                let y = if b < i { b } else { b - 1 };
                assert(t[a] == s[x] && t[b] == s[y]);
                assert(!s[y].before(s[x]));
            }
        }
    }
}

/// Sorts addresses into the order in which they are tried.
pub fn sort_addresses(v: &[IpAddr]) -> (r: Vec<IpAddr>)
    ensures
        in_order(r@),
        r@.to_multiset() == v@.to_multiset(),
        r@.len() == v@.len(),
{
    let mut r: Vec<IpAddr> = Vec::new();
    let mut i: usize = 0;
    proof {
        assert(v@.take(0) =~= Seq::empty());
    }
    while i < v.len()
        invariant
            i <= v@.len(),
            in_order(r@),
            r@.to_multiset() == v@.take(i as int).to_multiset(),
            r@.len() == i,
        decreases v@.len() - i,
    {
        insert_in_order(&mut r, v[i]);
        proof {
            let s = v@.take(i as int);
            assert(v@.take(i + 1) =~= s.push(v@[i as int]));
            s.to_multiset_ensures();
        }
        i = i + 1;
    }
    assert(v@.take(i as int) =~= v@);
    r
}

/// Addresses are tried so that this machine (`127.x.x.x` and `::1`) comes
/// last, an IPv4 address that only reaches the local link (`169.254.x.x`)
/// before that, and IPv4 before IPv6 among the rest.
pub proof fn law_tried_in_order(s: Seq<IpAddr>, i: int, j: int)
    requires
        in_order(s),
        0 <= i < j < s.len(),
    ensures
        (s[i] matches IpAddr::V4(b) && 0x7F00_0000 <= b <= 0x7FFF_FFFF) || s[i] == IpAddr::V6(1) ==> (s[j] matches IpAddr::V4(
            b,
        ) && 0x7F00_0000 <= b <= 0x7FFF_FFFF) || s[j] == IpAddr::V6(1),
        (s[i] matches IpAddr::V4(b) && 0xA9FE_0000 <= b <= 0xA9FE_FFFF) ==> (s[j] matches IpAddr::V4(b) && (0xA9FE_0000 <= b
            <= 0xA9FE_FFFF || 0x7F00_0000 <= b <= 0x7FFF_FFFF)) || s[j] == IpAddr::V6(1),
        (s[i] matches IpAddr::V6(b) && b != 1) ==> (s[j] matches IpAddr::V4(b) ==> 0xA9FE_0000 <= b <= 0xA9FE_FFFF
            || 0x7F00_0000 <= b <= 0x7FFF_FFFF),
{
    assert(!s[j].before(s[i]));
}

/// The order of addresses is strict, and any two addresses are ordered.
pub proof fn law_address_order(a: IpAddr, b: IpAddr, c: IpAddr)
    ensures
        !a.before(a),
        a.before(b) && b.before(c) ==> a.before(c),
        a == b || a.before(b) || b.before(a),
{
}

} // verus!
