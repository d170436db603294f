//! What is written for an address is read back as that address.

use crate::ip::{
    groups, hextet, hextets, ip_of, ip_text, joined, lemma_gap_at, lemma_gap_none, longest_run, number,
    octet, octets, some_hextets, v4_of, v4_text, v6_of, v6_text, zero_run, zeros, IpAddr,
};
use crate::text::{
    decimal, digits_value, hexadecimal, index_of, law_decimal, law_hexadecimal, lemma_index_at,
    lemma_index_none, lemma_index_of,
};
use vstd::prelude::*;

verus! {

/// A byte is read back.
proof fn lemma_octet(v: int)
    requires
        0 <= v <= 255,
    ensures
        octet(decimal(v as nat)) == Some(v),
        forall|i: int| 0 <= i < decimal(v as nat).len() ==> '0' <= #[trigger] decimal(v as nat)[i] <= '9',
{
    law_decimal(v as nat);
}

/// A first byte and a dot.
proof fn lemma_octets_step(v: int, rest: Seq<char>)
    requires
        0 <= v <= 255,
    ensures
        octets(decimal(v as nat) + "."@ + rest) == (match octets(rest) {
            Some(t) => Some(seq![v] + t),
            None => None,
        }),
{
    let d = decimal(v as nat);
    let s = d + "."@ + rest;
    lemma_octet(v);
    reveal_strlit(".");
    assert forall|k: int| 0 <= k < d.len() implies #[trigger] s[k] != '.' by {
        assert(s[k] == d[k]);
    }
    assert(s[d.len() as int] == '.');
    lemma_index_at(s, '.', d.len() as int);
    assert(s.take(d.len() as int) =~= d);
    assert(s.skip(d.len() as int + 1) =~= rest);
}

/// An IPv4 address is read back.
proof fn lemma_v4(b: int)
    requires
        0 <= b < 0x1_0000_0000,
    ensures
        v4_of(v4_text(b)) == Some(b),
{
    let o0 = b / 0x100_0000;
    let o1 = b / 0x1_0000 % 256;
    let o2 = b / 0x100 % 256;
    let o3 = b % 256;
    let t3 = decimal(o3 as nat);
    lemma_octet(o3);
    lemma_index_none(t3, '.');
    assert(octets(t3) == Some(seq![o3]));
    let t2 = decimal(o2 as nat) + "."@ + t3;
    lemma_octets_step(o2, t3);
    let t1 = decimal(o1 as nat) + "."@ + t2;
    lemma_octets_step(o1, t2);
    let t0 = decimal(o0 as nat) + "."@ + t1;
    lemma_octets_step(o0, t1);
    assert(t0 =~= v4_text(b));
    assert(octets(t0)->0 =~= seq![o0, o1, o2, o3]);
}

/// A text with a colon is no number.
proof fn lemma_colon_no_digits(s: Seq<char>, i: int)
    requires
        0 <= i < s.len(),
        s[i] == ':',
    ensures
        digits_value(s, 10) is None,
    decreases s.len(),
{
    if i < s.len() - 1 {
        lemma_colon_no_digits(s.drop_last(), i);
    }
}

/// A text with a colon is no IPv4 address.
proof fn lemma_colon_no_v4(s: Seq<char>, i: int)
    requires
        0 <= i < s.len(),
        s[i] == ':',
    ensures
        octets(s) is None,
    decreases s.len(),
{
    lemma_index_of(s, '.');
    match index_of(s, '.') {
        None => {
            lemma_colon_no_digits(s, i);
        },
        Some(d) => {
            if i < d {
                assert(s.take(d)[i] == ':');
                lemma_colon_no_digits(s.take(d), i);
            } else {
                assert(s.skip(d + 1)[i - d - 1] == ':');
                lemma_colon_no_v4(s.skip(d + 1), i - d - 1);
            }
        },
    }
}

/// A text without a dot is no IPv4 address.
proof fn lemma_no_dot_no_v4(s: Seq<char>)
    requires
        forall|k: int| 0 <= k < s.len() ==> #[trigger] s[k] != '.',
    ensures
        v4_of(s) is None,
{
    lemma_index_none(s, '.');
}

/// Group values.
spec fn small(g: Seq<int>) -> bool {
    forall|i: int| 0 <= i < g.len() ==> 0 <= #[trigger] g[i] < 65536
}

/// A group is read back.
proof fn lemma_hextet(v: int)
    requires
        0 <= v < 65536,
    ensures
        hextet(hexadecimal(v as nat)) == Some(v),
        1 <= hexadecimal(v as nat).len(),
        forall|i: int|
            0 <= i < hexadecimal(v as nat).len() ==> #[trigger] hexadecimal(v as nat)[i] != ':' && hexadecimal(
                v as nat,
            )[i] != '.',
{
    law_hexadecimal(v as nat);
}

/// A first group and a colon.
proof fn lemma_hextets_step(v: int, rest: Seq<char>, v4_end: bool)
    requires
        0 <= v < 65536,
    ensures
        hextets(hexadecimal(v as nat) + ":"@ + rest, v4_end) == (match hextets(rest, v4_end) {
            Some(t) => Some(seq![v] + t),
            None => None,
        }),
{
    let d = hexadecimal(v as nat);
    let s = d + ":"@ + rest;
    lemma_hextet(v);
    reveal_strlit(":");
    assert forall|k: int| 0 <= k < d.len() implies #[trigger] s[k] != ':' by {
        assert(s[k] == d[k]);
    }
    assert(s[d.len() as int] == ':');
    lemma_index_at(s, ':', d.len() as int);
    assert(s.take(d.len() as int) =~= d);
    assert(s.skip(d.len() as int + 1) =~= rest);
}

/// Groups are read back, and their text neither starts nor ends with a colon
/// and holds no two in a row.
proof fn lemma_joined(g: Seq<int>, v4_end: bool)
    requires
        small(g),
        g.len() > 0,
    ensures
        hextets(joined(g), v4_end) == Some(g),
        joined(g).len() > 0,
        joined(g)[0] != ':',
        joined(g).last() != ':',
        forall|k: int| 0 <= k < joined(g).len() - 1 ==> !(#[trigger] joined(g)[k] == ':' && joined(g)[k + 1] == ':'),
        g.len() > 1 ==> exists|k: int| 0 <= k < joined(g).len() && #[trigger] joined(g)[k] == ':',
    decreases g.len(),
{
    let d = hexadecimal(g[0] as nat);
    assert(0 <= g[0] < 65536);
    lemma_hextet(g[0]);
    assert(d[0] != ':' && d.last() != ':');
    if g.len() == 1 {
        lemma_index_none(d, ':');
        lemma_no_dot_no_v4(d);
        assert(seq![g[0]] =~= g);
    } else {
        let r = g.skip(1);
        assert forall|i: int| 0 <= i < r.len() implies 0 <= #[trigger] r[i] < 65536 by {
            assert(r[i] == g[i + 1]);
        }
        lemma_joined(r, v4_end);
        lemma_hextets_step(g[0], joined(r), v4_end);
        assert(seq![g[0]] + r =~= g);
        reveal_strlit(":");
        let j = joined(g);
        let n = d.len() as int;
        assert(j == d + ":"@ + joined(r));
        assert(j[n] == ':');
        assert forall|k: int| 0 <= k < j.len() - 1 implies !(#[trigger] j[k] == ':' && j[k + 1] == ':') by {
            if k < n {
                assert(j[k] == d[k]);
            } else if k == n {
                assert(j[k + 1] == joined(r)[0]);
            } else {
                assert(j[k] == joined(r)[k - n - 1]);
                assert(j[k + 1] == joined(r)[k - n - 1 + 1]);
            }
        }
    }
}

/// The groups of a number write it.
proof fn lemma_groups(v: int, n: nat)
    requires
        0 <= v,
    ensures
        groups(v, n).len() == n,
        small(groups(v, n)),
        v < crate::ip::scale(n) ==> number(groups(v, n)) == v,
    decreases n,
{
    if n > 0 {
        lemma_groups(v / 65536, (n - 1) as nat);
        let g = groups(v, n);
        assert(g.drop_last() =~= groups(v / 65536, (n - 1) as nat));
        assert forall|i: int| 0 <= i < g.len() implies 0 <= #[trigger] g[i] < 65536 by {
            if i < n - 1 {
                assert(g[i] == groups(v / 65536, (n - 1) as nat)[i]);
            }
        }
    }
}

/// A run of zeros holds zeros.
proof fn lemma_zero_run(g: Seq<int>, i: int)
    requires
        0 <= i <= g.len(),
    ensures
        0 <= zero_run(g, i) <= g.len() - i,
        forall|k: int| i <= k < i + zero_run(g, i) ==> #[trigger] g[k] == 0,
    decreases g.len() - i,
{
    if i < g.len() && g[i] == 0 {
        lemma_zero_run(g, i + 1);
    }
}

/// The longest run is a run of zeros.
proof fn lemma_longest_run(g: Seq<int>, n: nat)
    requires
        n <= g.len(),
    ensures
        0 <= longest_run(g, n).0,
        0 <= longest_run(g, n).1,
        longest_run(g, n).0 + longest_run(g, n).1 <= g.len(),
        forall|k: int|
            longest_run(g, n).0 <= k < longest_run(g, n).0 + longest_run(g, n).1 ==> #[trigger] g[k] == 0,
    decreases n,
{
    if n > 0 {
        lemma_longest_run(g, (n - 1) as nat);
        lemma_zero_run(g, n - 1);
    }
}

/// Groups, or none, are read back.
proof fn lemma_some_joined(g: Seq<int>, v4_end: bool)
    requires
        small(g),
    ensures
        some_hextets(joined(g), v4_end) == Some(g),
{
    if g.len() == 0 {
        assert(g =~= Seq::empty());
    } else {
        lemma_joined(g, v4_end);
    }
}

/// A text with a gap is read back.
proof fn lemma_gap(head: Seq<int>, tail: Seq<int>)
    requires
        small(head),
        small(tail),
        head.len() + tail.len() <= 7,
    ensures
        v6_of(joined(head) + "::"@ + joined(tail)) == Some(
            number(head + zeros(8 - head.len() - tail.len()) + tail),
        ),
        v4_of(joined(head) + "::"@ + joined(tail)) is None,
{
    reveal_strlit("::");
    let h = joined(head);
    let t = joined(tail);
    let s = h + "::"@ + t;
    let n = h.len() as int;
    assert(s[n] == ':' && s[n + 1] == ':');
    if head.len() > 0 {
        lemma_joined(head, false);
        assert forall|k: int| 0 <= k < n implies !(#[trigger] s[k] == ':' && s[k + 1] == ':') by {
            assert(s[k] == h[k]);
            if k < n - 1 {
                assert(s[k + 1] == h[k + 1]);
            }
        }
    }
    lemma_gap_at(s, n);
    lemma_some_joined(head, false);
    lemma_some_joined(tail, true);
    assert(s.take(n) =~= h);
    assert(s.skip(n + 2) =~= t);
    lemma_colon_no_v4(s, n);
}

/// An IPv6 address that maps an IPv4 address is read back.
proof fn lemma_v6_mapped(b: int)
    requires
        0 <= b,
        b / 0x1_0000_0000 == 0xFFFF,
    ensures
        v6_of(v6_text(b)) == Some(b),
        v4_of(v6_text(b)) is None,
{
    let low = b % 0x1_0000_0000;
    let v4 = v4_text(low);
    let s = v6_text(b);
    reveal_strlit("::ffff:");
    reveal_strlit(":");
    lemma_gap_at(s, 0);
    assert(s.take(0) =~= Seq::empty());
    let tail = s.skip(2);
    let f = seq!['f', 'f', 'f', 'f'];
    assert(hexadecimal(0xFFFF) =~= f) by {
        reveal_with_fuel(hexadecimal, 4);
    }
    assert(tail =~= hexadecimal(0xFFFF) + ":"@ + v4);
    lemma_hextets_step(0xFFFF, v4, true);
    lemma_v4(low);
    assert forall|k: int| 0 <= k < v4.len() implies #[trigger] v4[k] != ':' by {
        if v4[k] == ':' {
            lemma_colon_no_v4(v4, k);
        }
    }
    lemma_index_none(v4, ':');
    let g = seq![0xFFFF, low / 65536, low % 65536];
    assert(hextets(tail, true)->0 =~= g);
    let full = Seq::<int>::empty() + zeros(5) + g;
    assert(full =~= seq![0, 0, 0, 0, 0, 0xFFFF, low / 65536, low % 65536]);
    assert(full.drop_last() =~= seq![0, 0, 0, 0, 0, 0xFFFF, low / 65536]);
    assert(full.drop_last().drop_last() =~= seq![0, 0, 0, 0, 0, 0xFFFF]);
    assert(full.drop_last().drop_last().drop_last() =~= zeros(5));
    lemma_number_zeros(5);
    assert(number(full.drop_last().drop_last()) == 0xFFFF);
    assert(number(full.drop_last()) == 0xFFFF * 65536 + low / 65536);
    assert(number(full) == (0xFFFF * 65536 + low / 65536) * 65536 + low % 65536);
    lemma_colon_no_v4(s, 0);
}

/// Zeros write zero.
proof fn lemma_number_zeros(n: nat)
    ensures
        number(zeros(n as int)) == 0,
    decreases n,
{
    if n > 0 {
        lemma_number_zeros((n - 1) as nat);
        assert(zeros(n as int).drop_last() =~= zeros(n - 1));
    }
}

/// An IPv6 address is read back.
proof fn lemma_v6(b: int)
    requires
        0 <= b < crate::ip::scale(8),
    ensures
        v6_of(v6_text(b)) == Some(b),
        v4_of(v6_text(b)) is None,
{
    if b / 0x1_0000_0000 == 0xFFFF {
        lemma_v6_mapped(b);
    } else {
        let g = groups(b, 8);
        lemma_groups(b, 8);
        lemma_longest_run(g, 8);
        let run = longest_run(g, 8);
        if run.1 > 1 {
            let head = g.take(run.0);
            let tail = g.skip(run.0 + run.1);
            assert forall|i: int| 0 <= i < tail.len() implies 0 <= #[trigger] tail[i] < 65536 by {
                assert(tail[i] == g[i + run.0 + run.1]);
            }
            assert forall|i: int| 0 <= i < head.len() implies 0 <= #[trigger] head[i] < 65536 by {
                assert(head[i] == g[i]);
            }
            lemma_gap(head, tail);
            assert(head + zeros(8 - head.len() - tail.len()) + tail =~= g);
        } else {
            lemma_joined(g, true);
            lemma_gap_none(joined(g));
            let k = choose|k: int| 0 <= k < joined(g).len() && #[trigger] joined(g)[k] == ':';
            lemma_colon_no_v4(joined(g), k);
        }
    }
}

/// Every address is read back from its text form.
pub proof fn law_ip_round_trip(ip: IpAddr)
    ensures
        ip_of(ip_text(ip)) == Some(ip),
{
    match ip {
        IpAddr::V4(b) => {
            lemma_v4(b as int);
        },
        IpAddr::V6(b) => {
            crate::ip::lemma_scale();
            lemma_v6(b as int);
        },
    }
}

/// An IPv4 address survives being written as the IPv6 address that maps it.
pub proof fn law_mapping(ip: IpAddr)
    ensures
        ip.mapped().unmapped() == ip.unmapped(),
        ip.mapped() is V6,
{
}

} // verus!
