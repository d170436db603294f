//! A message is read back from the XML that it is written as.

use crate::command::{command_bytes, is_command, is_info_text, is_quality_text, is_redirect_text, Command};
use crate::discovery_server::message::{
    address_lines, address_node, addresses_before, addresses_text, ip_in, kept, lemma_v4_count,
    message_bytes, message_of, message_text, normalized, port_of, removed_text, root_from, v4_count,
    with_address, MessageView,
};
use crate::document::{
    child_from, child_of, element, inner_text_of, is_content, is_letters, is_plain_document, named_child,
    nothing_read, piece_text, pieces_text, reading, texts_from, NodeKind, Piece, Reading, XmlNodeView,
};
use crate::ip::{groups, ip_text, joined, longest_run, v4_text, IpAddr};
use crate::ip_round_trip::{law_ip_round_trip, law_mapping};
use crate::text::{
    ascii, decimal, hexadecimal, index_of, law_decimal, lemma_index_none, lemma_trimmed_end,
    lemma_trimmed_start, same_letters, trimmed, without_zeros,
};
use crate::xml::escaped;
use vstd::prelude::*;

verus! {

/// Whether a message is one that its XML gives back: the name is as reading
/// rebuilds it and made of characters that XML can hold, without carriage
/// returns, and the addresses are as a message keeps them.
pub open spec fn readable(m: MessageView) -> bool {
    &&& normalized(m.full_name) == Some(m.full_name)
    &&& is_content(m.full_name)
    &&& kept(m.addresses)
    &&& m.addresses.len() < 1_000_000_000
}

// ---------------------------------------------------------------------------
// Characters
// ---------------------------------------------------------------------------

/// Characters of numbers and addresses.
pub open spec fn is_number_char(c: char) -> bool {
    '0' <= c <= '9' || 'a' <= c <= 'f' || c == ':' || c == '.'
}

/// A text made of such characters.
pub open spec fn is_number_text(s: Seq<char>) -> bool {
    forall|i: int| 0 <= i < s.len() ==> is_number_char(#[trigger] s[i])
}

/// Two such texts make one.
proof fn lemma_joined_text(a: Seq<char>, b: Seq<char>)
    requires
        is_number_text(a),
        is_number_text(b),
    ensures
        is_number_text(a + b),
{
    assert forall|i: int| 0 <= i < (a + b).len() implies is_number_char(#[trigger] (a + b)[i]) by {
        if i < a.len() {
            assert((a + b)[i] == a[i]);
        } else {
            assert((a + b)[i] == b[i - a.len()]);
        }
    }
}

/// Decimal numbers are made of such characters.
proof fn lemma_decimal_text(n: nat)
    ensures
        is_number_text(decimal(n)),
        decimal(n).len() > 0,
{
    law_decimal(n);
}

/// Hexadecimal numbers are made of such characters.
proof fn lemma_hexadecimal_text(n: nat)
    ensures
        is_number_text(hexadecimal(n)),
        hexadecimal(n).len() > 0,
    decreases n,
{
    if n >= 16 {
        lemma_hexadecimal_text(n / 16);
    }
}

/// Groups are made of such characters.
proof fn lemma_groups_text(g: Seq<int>)
    ensures
        is_number_text(joined(g)),
    decreases g.len(),
{
    if g.len() == 1 {
        lemma_hexadecimal_text(g[0] as nat);
    } else if g.len() > 1 {
        reveal_strlit(":");
        lemma_hexadecimal_text(g[0] as nat);
        lemma_groups_text(g.skip(1));
        lemma_joined_text(hexadecimal(g[0] as nat), ":"@);
        lemma_joined_text(hexadecimal(g[0] as nat) + ":"@, joined(g.skip(1)));
    }
}

/// IPv4 addresses are made of such characters.
proof fn lemma_v4_text(b: int)
    ensures
        is_number_text(v4_text(b)),
{
    reveal_strlit(".");
    let d0 = decimal((b / 0x100_0000) as nat);
    let d1 = decimal((b / 0x1_0000 % 256) as nat);
    let d2 = decimal((b / 0x100 % 256) as nat);
    let d3 = decimal((b % 256) as nat);
    lemma_decimal_text((b / 0x100_0000) as nat);
    lemma_decimal_text((b / 0x1_0000 % 256) as nat);
    lemma_decimal_text((b / 0x100 % 256) as nat);
    lemma_decimal_text((b % 256) as nat);
    lemma_joined_text(d0, "."@);
    lemma_joined_text(d0 + "."@, d1);
    lemma_joined_text(d0 + "."@ + d1, "."@);
    lemma_joined_text(d0 + "."@ + d1 + "."@, d2);
    lemma_joined_text(d0 + "."@ + d1 + "."@ + d2, "."@);
    lemma_joined_text(d0 + "."@ + d1 + "."@ + d2 + "."@, d3);
}

/// Addresses are made of such characters.
proof fn lemma_ip_text(ip: IpAddr)
    ensures
        is_number_text(ip_text(ip)),
        ip_text(ip).len() > 0,
{
    match ip {
        IpAddr::V4(b) => {
            lemma_v4_text(b as int);
            lemma_decimal_text((b as int / 0x100_0000) as nat);
        },
        IpAddr::V6(b) => {
            let b = b as int;
            if b / 0x1_0000_0000 == 0xFFFF {
                reveal_strlit("::ffff:");
                lemma_v4_text(b % 0x1_0000_0000);
                lemma_joined_text("::ffff:"@, v4_text(b % 0x1_0000_0000));
            } else {
                let g = groups(b, 8);
                let run = longest_run(g, 8);
                if run.1 > 1 {
                    reveal_strlit("::");
                    lemma_groups_text(g.take(run.0));
                    lemma_groups_text(g.skip(run.0 + run.1));
                    lemma_joined_text(joined(g.take(run.0)), "::"@);
                    lemma_joined_text(joined(g.take(run.0)) + "::"@, joined(g.skip(run.0 + run.1)));
                } else {
                    lemma_groups_text(g);
                    reveal_with_fuel(groups, 9);
                    lemma_hexadecimal_text(g[0] as nat);
                }
            }
        },
    }
}

/// Text without markup is written as it is.
proof fn lemma_escaped_as_is(s: Seq<char>)
    requires
        forall|i: int| 0 <= i < s.len() ==> #[trigger] s[i] != '&' && s[i] != '<' && s[i] != '>',
    ensures
        escaped(s, false) == s,
    decreases s.len(),
{
    if s.len() > 0 {
        let t = s.drop_last();
        assert forall|i: int| 0 <= i < t.len() implies #[trigger] t[i] != '&' && t[i] != '<' && t[i] != '>' by {
            assert(t[i] == s[i]);
        }
        lemma_escaped_as_is(t);
        assert(s[s.len() - 1] == s.last());
        assert(t + seq![s.last()] =~= s);
    } else {
        assert(s =~= Seq::empty());
    }
}

/// Text of numbers is content and written as it is.
proof fn lemma_number_content(s: Seq<char>)
    requires
        is_number_text(s),
        s.len() > 0,
    ensures
        is_content(s),
        escaped(s, false) == s,
        trimmed(s) == s,
        index_of(s, '%') is None,
        s[0] != '[',
        s[0] != '-',
        s[0] != '+',
{
    assert(is_number_char(s[0]));
    assert forall|i: int| 0 <= i < s.len() implies #[trigger] s[i] != '&' && s[i] != '<' && s[i] != '>' by {
        assert(is_number_char(s[i]));
    }
    assert forall|i: int| 0 <= i < s.len() implies (#[trigger] s[i] >= ' ' || s[i] == '\t' || s[i] == '\n')
        && s[i] as int != 0xFFFE && s[i] as int != 0xFFFF by {
        assert(is_number_char(s[i]));
    }
    lemma_escaped_as_is(s);
    lemma_trimmed_start(s, 0);
    assert(s.skip(0) =~= s);
    assert(is_number_char(s[s.len() - 1]));
    lemma_trimmed_end(s, s.len() as int);
    assert(s.take(s.len() as int) =~= s);
    assert forall|i: int| 0 <= i < s.len() implies #[trigger] s[i] != '%' by {
        assert(is_number_char(s[i]));
    }
    lemma_index_none(s, '%');
}

/// An address is read back from its text.
proof fn lemma_ip_in(ip: IpAddr)
    ensures
        ip_in(ip_text(ip)) == Some(ip),
{
    lemma_ip_text(ip);
    lemma_number_content(ip_text(ip));
    law_ip_round_trip(ip);
}

/// A port is read back from its text.
proof fn lemma_port(port: u16)
    ensures
        port_of(trimmed(decimal(port as nat))) == Some(port as int),
{
    lemma_decimal_text(port as nat);
    lemma_number_content(decimal(port as nat));
    law_decimal(port as nat);
}

// ---------------------------------------------------------------------------
// Addresses
// ---------------------------------------------------------------------------

/// Adding addresses that a message keeps, one by one, keeps them all.
proof fn lemma_addresses_again(s: Seq<IpAddr>, i: int)
    requires
        kept(s),
        0 <= i < s.len(),
    ensures
        with_address(s.take(i), s[i].mapped()) == s.take(i + 1),
{
    let t = s.take(i);
    law_mapping(s[i]);
    assert(s[i].unmapped() == s[i]);
    assert(s[i].mapped().unmapped() == s[i]);
    assert(!t.contains(s[i])) by {
        if t.contains(s[i]) {
            let k = choose|k: int| 0 <= k < t.len() && t[k] == s[i];
            assert(s[k] != s[i]);
        }
    }
    assert forall|a: int, b: int| 0 <= a < b < t.len() && (#[trigger] t[b]) is V4 implies (#[trigger] t[a]) is V4 by {
        assert(s[b] is V4 ==> s[a] is V4);
    }
    assert forall|a: int, b: int| 0 <= a < b < t.len() implies #[trigger] t[a] != #[trigger] t[b] by {
        assert(s[a] != s[b]);
    }
    assert forall|a: int| 0 <= a < t.len() implies !(#[trigger] t[a]).v6_link_local() && t[a].unmapped() == t[a] by {
        assert(t[a] == s[a]);
    }
    lemma_v4_count(t);
    if s[i] is V4 {
        if v4_count(t) < t.len() {
            assert(s[i] is V4 && t[v4_count(t)] == s[v4_count(t)]);
        }
        assert(v4_count(t) == t.len());
        assert(t.insert(i, s[i]) =~= s.take(i + 1));
    } else {
        assert(t.push(s[i]) =~= s.take(i + 1));
    }
}

// ---------------------------------------------------------------------------
// Pieces
// ---------------------------------------------------------------------------

/// What stands behind an address: the indentation of the next one or of the
/// end.
pub open spec fn gap(i: int, n: int) -> Seq<char> {
    if i + 1 == n {
        "\n  "@
    } else {
        "\n    "@
    }
}

/// The pieces of one address.
pub open spec fn address_pieces(ip: IpAddr, gap: Seq<char>) -> Seq<Piece> {
    seq![
        Piece::Open("IPAddress"@),
        Piece::Text(ip_text(ip.mapped())),
        Piece::Close("IPAddress"@),
        Piece::Text(gap),
    ]
}

/// The pieces of the first `n` addresses.
pub open spec fn list_pieces(s: Seq<IpAddr>, n: int) -> Seq<Piece>
    decreases n,
{
    if n <= 0 {
        Seq::empty()
    } else {
        list_pieces(s, n - 1) + address_pieces(s[n - 1], gap(n - 1, s.len() as int))
    }
}

/// The pieces before the addresses.
pub open spec fn head_pieces(m: MessageView) -> Seq<Piece> {
    seq![
        Piece::Open("OMTAddress"@),
        Piece::Text("\n  "@),
        Piece::Open("Name"@),
        Piece::Text(m.full_name),
        Piece::Close("Name"@),
        Piece::Text("\n  "@),
        Piece::Open("Port"@),
        Piece::Text(decimal(m.port as nat)),
        Piece::Close("Port"@),
        Piece::Text("\n  "@),
    ] + (if m.removed {
        seq![
            Piece::Open("Removed"@),
            Piece::Text("True"@),
            Piece::Close("Removed"@),
            Piece::Text("\n  "@),
        ]
    } else {
        Seq::empty()
    })
}

/// The pieces of the addresses.
pub open spec fn addresses_pieces(s: Seq<IpAddr>) -> Seq<Piece> {
    if s.len() == 0 {
        seq![Piece::Empty("Addresses"@)]
    } else {
        seq![Piece::Open("Addresses"@), Piece::Text("\n    "@)] + list_pieces(s, s.len() as int) + seq![
            Piece::Close("Addresses"@),
        ]
    }
}

/// The pieces of a message.
pub open spec fn message_pieces(m: MessageView) -> Seq<Piece> {
    head_pieces(m) + addresses_pieces(m.addresses) + seq![Piece::Text("\n"@), Piece::Close("OMTAddress"@)]
}

/// Pieces are written one behind the other.
proof fn lemma_pieces_join(a: Seq<Piece>, b: Seq<Piece>)
    ensures
        pieces_text(a + b) == pieces_text(a) + pieces_text(b),
    decreases b.len(),
{
    if b.len() == 0 {
        assert(a + b =~= a);
        assert(pieces_text(a) + pieces_text(b) =~= pieces_text(a));
    } else {
        lemma_pieces_join(a, b.drop_last());
        assert((a + b).drop_last() =~= a + b.drop_last());
        assert((a + b).last() == b.last());
        assert(pieces_text(a + b) =~= pieces_text(a) + pieces_text(b));
    }
}

/// How one piece is written.
proof fn lemma_one_piece(p: Piece)
    ensures
        pieces_text(seq![p]) == piece_text(p),
{
    assert(seq![p].drop_last() =~= Seq::empty());
    assert(pieces_text(Seq::<Piece>::empty()) =~= Seq::empty());
    assert(pieces_text(seq![p]) =~= piece_text(p));
}

/// One piece more.
proof fn lemma_more_text(s: Seq<Piece>, p: Piece)
    ensures
        pieces_text(s.push(p)) == pieces_text(s) + piece_text(p),
{
    assert(s.push(p).drop_last() =~= s);
}

/// White space is written as it is.
proof fn lemma_white()
    ensures
        escaped("\n"@, false) == "\n"@,
        escaped("\n  "@, false) == "\n  "@,
        escaped("\n    "@, false) == "\n    "@,
        escaped("True"@, false) == "True"@,
        is_content("\n"@),
        is_content("\n  "@),
        is_content("\n    "@),
        is_content("True"@),
{
    reveal_strlit("\n");
    reveal_strlit("\n  ");
    reveal_strlit("\n    ");
    reveal_strlit("True");
    lemma_escaped_as_is("\n"@);
    lemma_escaped_as_is("\n  "@);
    lemma_escaped_as_is("\n    "@);
    lemma_escaped_as_is("True"@);
}

/// The text of one address.
proof fn lemma_address_text(ip: IpAddr, g: Seq<char>)
    requires
        escaped(g, false) == g,
    ensures
        pieces_text(address_pieces(ip, g)) == "<IPAddress>"@ + ip_text(ip.mapped()) + "</IPAddress>"@ + g,
{
    let e = Seq::<Piece>::empty();
    let t = ip_text(ip.mapped());
    let p0 = Piece::Open("IPAddress"@);
    let p1 = Piece::Text(t);
    let p2 = Piece::Close("IPAddress"@);
    let p3 = Piece::Text(g);
    lemma_ip_text(ip.mapped());
    lemma_number_content(t);
    lemma_more_text(e, p0);
    lemma_more_text(e.push(p0), p1);
    lemma_more_text(e.push(p0).push(p1), p2);
    lemma_more_text(e.push(p0).push(p1).push(p2), p3);
    assert(address_pieces(ip, g) =~= e.push(p0).push(p1).push(p2).push(p3));
    reveal_strlit("<");
    reveal_strlit("</");
    reveal_strlit(">");
    reveal_strlit("IPAddress");
    reveal_strlit("<IPAddress>");
    reveal_strlit("</IPAddress>");
    assert("<"@ + "IPAddress"@ + ">"@ =~= "<IPAddress>"@);
    assert("</"@ + "IPAddress"@ + ">"@ =~= "</IPAddress>"@);
    assert(pieces_text(address_pieces(ip, g)) =~= "<IPAddress>"@ + t + "</IPAddress>"@ + g);
}

/// The lines of addresses, as the pieces write them: what stands before an
/// address is written with the piece before it.
proof fn lemma_list_text(s: Seq<IpAddr>, n: int)
    requires
        0 < n <= s.len(),
    ensures
        "\n    "@ + pieces_text(list_pieces(s, n)) == "\n"@ + address_lines(s.take(n)) + (if n == s.len() {
            "  "@
        } else {
            "    "@
        }),
    decreases n,
{
    let ip = s[n - 1];
    let g = gap(n - 1, s.len() as int);
    let t = ip_text(ip.mapped());
    lemma_white();
    lemma_address_text(ip, g);
    lemma_pieces_join(list_pieces(s, n - 1), address_pieces(ip, g));
    assert(s.take(n).drop_last() =~= s.take(n - 1));
    assert(s.take(n).last() == ip);
    reveal_strlit("\n");
    reveal_strlit("\n  ");
    reveal_strlit("\n    ");
    reveal_strlit("  ");
    reveal_strlit("    ");
    reveal_strlit("<IPAddress>");
    reveal_strlit("</IPAddress>");
    reveal_strlit("    <IPAddress>");
    reveal_strlit("</IPAddress>\n");
    assert("    "@ + "<IPAddress>"@ =~= "    <IPAddress>"@);
    assert("</IPAddress>"@ + "\n"@ =~= "</IPAddress>\n"@);
    let end = if n == s.len() {
        "  "@
    } else {
        "    "@
    };
    assert(g =~= "\n"@ + end);
    let one = "<IPAddress>"@ + t + "</IPAddress>"@ + g;
    if n == 1 {
        assert(list_pieces(s, 0) =~= Seq::empty());
        assert(pieces_text(list_pieces(s, 0)) =~= Seq::empty());
        assert(address_lines(s.take(0)) =~= Seq::empty());
        assert("\n    "@ =~= "\n"@ + "    "@);
        assert("\n    "@ + one =~= "\n"@ + ("    "@ + "<IPAddress>"@ + t + ("</IPAddress>"@ + "\n"@)) + end);
    } else {
        lemma_list_text(s, n - 1);
        let before = pieces_text(list_pieces(s, n - 1));
        assert("\n    "@ + (before + one) =~= ("\n    "@ + before) + one);
        assert("\n"@ + address_lines(s.take(n - 1)) + "    "@ + one =~= "\n"@ + (address_lines(s.take(n - 1)) + (
        "    "@ + "<IPAddress>"@) + t + ("</IPAddress>"@ + "\n"@)) + end);
    }
}

/// An element that holds a text, and the line break behind it.
spec fn line_pieces(n: Seq<char>, t: Seq<char>) -> Seq<Piece> {
    seq![Piece::Open(n), Piece::Text(t), Piece::Close(n), Piece::Text("\n  "@)]
}

/// How such an element is written.
spec fn line_text(n: Seq<char>, t: Seq<char>) -> Seq<char> {
    "<"@ + n + ">"@ + escaped(t, false) + ("</"@ + n + ">"@) + "\n  "@
}

proof fn lemma_line_text(n: Seq<char>, t: Seq<char>)
    ensures
        pieces_text(line_pieces(n, t)) == line_text(n, t),
{
    let e = Seq::<Piece>::empty();
    let p0 = Piece::Open(n);
    let p1 = Piece::Text(t);
    let p2 = Piece::Close(n);
    let p3 = Piece::Text("\n  "@);
    lemma_white();
    lemma_more_text(e, p0);
    lemma_more_text(e.push(p0), p1);
    lemma_more_text(e.push(p0).push(p1), p2);
    lemma_more_text(e.push(p0).push(p1).push(p2), p3);
    assert(line_pieces(n, t) =~= e.push(p0).push(p1).push(p2).push(p3));
    assert(pieces_text(e) + piece_text(p0) =~= piece_text(p0));
}

/// The opening tag of a message and the line break behind it.
spec fn first_pieces() -> Seq<Piece> {
    seq![Piece::Open("OMTAddress"@), Piece::Text("\n  "@)]
}

proof fn lemma_first_text()
    ensures
        pieces_text(first_pieces()) == "<"@ + "OMTAddress"@ + ">"@ + "\n  "@,
{
    let e = Seq::<Piece>::empty();
    let p0 = Piece::Open("OMTAddress"@);
    let p1 = Piece::Text("\n  "@);
    lemma_white();
    lemma_more_text(e, p0);
    lemma_more_text(e.push(p0), p1);
    assert(first_pieces() =~= e.push(p0).push(p1));
    assert(pieces_text(e) + piece_text(p0) =~= piece_text(p0));
}

/// The lines before the addresses, with the text of each.
proof fn lemma_head_lines(m: MessageView)
    ensures
        pieces_text(head_pieces(m)) == "<"@ + "OMTAddress"@ + ">"@ + "\n  "@ + line_text("Name"@, m.full_name)
            + line_text("Port"@, decimal(m.port as nat)) + (if m.removed {
            line_text("Removed"@, "True"@)
        } else {
            Seq::empty()
        }),
{
    let a = first_pieces();
    let b = line_pieces("Name"@, m.full_name);
    let c = line_pieces("Port"@, decimal(m.port as nat));
    let d = if m.removed {
        line_pieces("Removed"@, "True"@)
    } else {
        Seq::empty()
    };
    lemma_first_text();
    lemma_line_text("Name"@, m.full_name);
    lemma_line_text("Port"@, decimal(m.port as nat));
    lemma_line_text("Removed"@, "True"@);
    lemma_pieces_join(a, b);
    lemma_pieces_join(a + b, c);
    lemma_pieces_join(a + b + c, d);
    assert(head_pieces(m) =~= a + b + c + d);
    assert(pieces_text(Seq::<Piece>::empty()) =~= Seq::empty());
}

/// The parts of the text before the addresses that do not vary.
proof fn lemma_head_parts()
    ensures
        "<"@ + "OMTAddress"@ + ">"@ + "\n  "@ + ("<"@ + "Name"@ + ">"@) == "<OMTAddress>\n  <Name>"@,
        "</"@ + "Name"@ + ">"@ + "\n  "@ + ("<"@ + "Port"@ + ">"@) == "</Name>\n  <Port>"@,
        "</"@ + "Port"@ + ">"@ + "\n  "@ == "</Port>\n"@ + "  "@,
        "  "@ + ("<"@ + "Removed"@ + ">"@ + "True"@ + ("</"@ + "Removed"@ + ">"@) + "\n  "@)
            == "  <Removed>True</Removed>\n"@ + "  "@,
{
    reveal_strlit("<");
    reveal_strlit("</");
    reveal_strlit(">");
    reveal_strlit("  ");
    reveal_strlit("\n  ");
    reveal_strlit("OMTAddress");
    reveal_strlit("Name");
    reveal_strlit("Port");
    reveal_strlit("Removed");
    reveal_strlit("True");
    reveal_strlit("<OMTAddress>\n  <Name>");
    reveal_strlit("</Name>\n  <Port>");
    reveal_strlit("</Port>\n");
    reveal_strlit("  <Removed>True</Removed>\n");
}

/// The text before the addresses.
proof fn lemma_head_text(m: MessageView)
    ensures
        pieces_text(head_pieces(m)) == "<OMTAddress>\n  <Name>"@ + escaped(m.full_name, false)
            + "</Name>\n  <Port>"@ + decimal(m.port as nat) + "</Port>\n"@ + removed_text(m.removed) + "  "@,
{
    let name = escaped(m.full_name, false);
    let port = decimal(m.port as nat);
    lemma_white();
    lemma_decimal_text(m.port as nat);
    lemma_number_content(port);
    lemma_head_lines(m);
    lemma_head_parts();
    let first = "<"@ + "OMTAddress"@ + ">"@ + "\n  "@;
    let (n0, n1) = ("<"@ + "Name"@ + ">"@, "</"@ + "Name"@ + ">"@);
    let (p0, p1) = ("<"@ + "Port"@ + ">"@, "</"@ + "Port"@ + ">"@);
    let white = "\n  "@;
    let text = first + (n0 + name + n1 + white) + (p0 + port + p1 + white);
    let head = "<OMTAddress>\n  <Name>"@ + name + "</Name>\n  <Port>"@ + port + "</Port>\n"@;
    assert(text =~= (first + n0) + name + (n1 + white + p0) + port + (p1 + white));
    assert(text =~= head + "  "@);
    if m.removed {
        let line = line_text("Removed"@, "True"@);
        assert(head + "  "@ + line =~= head + ("  "@ + line));
        assert(head + ("  <Removed>True</Removed>\n"@ + "  "@) =~= head + "  <Removed>True</Removed>\n"@ + "  "@);
    } else {
        assert(text + Seq::<char>::empty() =~= text);
        assert(head + Seq::<char>::empty() =~= head);
    }
}

/// The text of the addresses.
proof fn lemma_addresses_text(s: Seq<IpAddr>)
    ensures
        "  "@ + pieces_text(addresses_pieces(s)) + "\n"@ == addresses_text(s),
{
    reveal_strlit("<");
    reveal_strlit("</");
    reveal_strlit(">");
    reveal_strlit(" />");
    reveal_strlit("  ");
    reveal_strlit("\n");
    reveal_strlit("\n    ");
    reveal_strlit("Addresses");
    reveal_strlit("  <Addresses />\n");
    reveal_strlit("  <Addresses>\n");
    reveal_strlit("  </Addresses>\n");
    lemma_white();
    if s.len() == 0 {
        lemma_one_piece(Piece::Empty("Addresses"@));
        assert("  "@ + ("<"@ + "Addresses"@ + " />"@) + "\n"@ =~= "  <Addresses />\n"@);
    } else {
        let n = s.len() as int;
        let e = Seq::<Piece>::empty();
        let open = Piece::Open("Addresses"@);
        let white = Piece::Text("\n    "@);
        let close = Piece::Close("Addresses"@);
        lemma_more_text(e, open);
        lemma_more_text(e.push(open), white);
        let start = seq![open, white];
        assert(start =~= e.push(open).push(white));
        lemma_pieces_join(start, list_pieces(s, n));
        lemma_more_text(start + list_pieces(s, n), close);
        assert(addresses_pieces(s) =~= (start + list_pieces(s, n)).push(close));
        lemma_list_text(s, n);
        assert(s.take(n) =~= s);
        let list = pieces_text(list_pieces(s, n));
        let o = "<"@ + "Addresses"@ + ">"@;
        let c = "</"@ + "Addresses"@ + ">"@;
        assert(pieces_text(start) =~= o + "\n    "@);
        assert("  "@ + ((o + "\n    "@) + list + c) + "\n"@ =~= "  "@ + o + ("\n    "@ + list) + c + "\n"@);
        assert("  "@ + o + "\n"@ =~= "  <Addresses>\n"@);
        assert("  "@ + c + "\n"@ =~= "  </Addresses>\n"@);
        assert("  "@ + o + ("\n"@ + address_lines(s) + "  "@) + c + "\n"@ =~= ("  "@ + o + "\n"@) + address_lines(
            s,
        ) + ("  "@ + c + "\n"@));
    }
}

/// The pieces write the text.
proof fn lemma_message_text(m: MessageView)
    ensures
        pieces_text(message_pieces(m)) == message_text(m),
{
    lemma_white();
    lemma_head_text(m);
    lemma_addresses_text(m.addresses);
    let head = head_pieces(m);
    let list = addresses_pieces(m.addresses);
    let p0 = Piece::Text("\n"@);
    let p1 = Piece::Close("OMTAddress"@);
    lemma_pieces_join(head, list);
    lemma_more_text(head + list, p0);
    lemma_more_text((head + list).push(p0), p1);
    assert(message_pieces(m) =~= (head + list).push(p0).push(p1));
    reveal_strlit("</");
    reveal_strlit(">");
    reveal_strlit("  ");
    reveal_strlit("OMTAddress");
    reveal_strlit("</OMTAddress>");
    assert("</"@ + "OMTAddress"@ + ">"@ =~= "</OMTAddress>"@);
    let start = "<OMTAddress>\n  <Name>"@ + escaped(m.full_name, false) + "</Name>\n  <Port>"@ + decimal(
        m.port as nat,
    ) + "</Port>\n"@ + removed_text(m.removed);
    assert((start + "  "@) + pieces_text(list) + "\n"@ + "</OMTAddress>"@ =~= start + ("  "@ + pieces_text(list)
        + "\n"@) + "</OMTAddress>"@);
}

// ---------------------------------------------------------------------------
// Nodes
// ---------------------------------------------------------------------------

/// The nodes before the addresses.
pub open spec fn head_nodes(m: MessageView) -> Seq<XmlNodeView> {
    let none = Seq::<char>::empty();
    seq![
        element(0, NodeKind::Root, none, None),
        element(0, NodeKind::Element, "OMTAddress"@, Some("\n  "@)),
        element(1, NodeKind::Text, none, Some("\n  "@)),
        element(1, NodeKind::Element, "Name"@, Some(m.full_name)),
        element(3, NodeKind::Text, none, Some(m.full_name)),
        element(1, NodeKind::Text, none, Some("\n  "@)),
        element(1, NodeKind::Element, "Port"@, Some(decimal(m.port as nat))),
        element(6, NodeKind::Text, none, Some(decimal(m.port as nat))),
        element(1, NodeKind::Text, none, Some("\n  "@)),
    ] + (if m.removed {
        seq![
            element(1, NodeKind::Element, "Removed"@, Some("True"@)),
            element(9, NodeKind::Text, none, Some("True"@)),
            element(1, NodeKind::Text, none, Some("\n  "@)),
        ]
    } else {
        Seq::empty()
    })
}

/// The place of the node that holds the addresses.
pub open spec fn list_place(m: MessageView) -> int {
    if m.removed {
        12
    } else {
        9
    }
}

/// The nodes of the first `n` addresses.
pub open spec fn list_nodes(s: Seq<IpAddr>, n: int, place: int) -> Seq<XmlNodeView>
    decreases n,
{
    if n <= 0 {
        Seq::empty()
    } else {
        let t = ip_text(s[n - 1].mapped());
        list_nodes(s, n - 1, place) + seq![
            element(place, NodeKind::Element, "IPAddress"@, Some(t)),
            element(place + 2 + 3 * (n - 1), NodeKind::Text, Seq::empty(), Some(t)),
            element(place, NodeKind::Text, Seq::empty(), Some(gap(n - 1, s.len() as int))),
        ]
    }
}

/// The nodes of the addresses.
pub open spec fn addresses_nodes(s: Seq<IpAddr>, place: int) -> Seq<XmlNodeView> {
    if s.len() == 0 {
        seq![element(1, NodeKind::Element, "Addresses"@, None)]
    } else {
        seq![
            element(1, NodeKind::Element, "Addresses"@, Some("\n    "@)),
            element(place, NodeKind::Text, Seq::empty(), Some("\n    "@)),
        ] + list_nodes(s, s.len() as int, place)
    }
}

/// The nodes of a message.
pub open spec fn message_nodes(m: MessageView) -> Seq<XmlNodeView> {
    (head_nodes(m) + addresses_nodes(m.addresses, list_place(m))).push(
        element(1, NodeKind::Text, Seq::empty(), Some("\n"@)),
    )
}

/// Pieces are read one after the other.
proof fn lemma_more_read(s: Seq<Piece>, p: Piece)
    ensures
        reading(s.push(p)) == reading(s).read(p),
{
    assert(s.push(p).drop_last() =~= s);
}

/// The names are made of letters.
proof fn lemma_names()
    ensures
        is_letters("OMTAddress"@),
        is_letters("Name"@),
        is_letters("Port"@),
        is_letters("Removed"@),
        is_letters("Addresses"@),
        is_letters("IPAddress"@),
        "OMTAddress"@ != "Name"@,
        "OMTAddress"@ != "Port"@,
        "OMTAddress"@ != "Removed"@,
        "OMTAddress"@ != "Addresses"@,
        "Name"@ != "Port"@,
        "Name"@ != "Removed"@,
        "Name"@ != "Addresses"@,
        "Port"@ != "Removed"@,
        "Port"@ != "Addresses"@,
        "Removed"@ != "Addresses"@,
        "Removed"@ != "IPAddress"@,
{
    reveal_strlit("OMTAddress");
    reveal_strlit("Name");
    reveal_strlit("Port");
    reveal_strlit("Removed");
    reveal_strlit("Addresses");
    reveal_strlit("IPAddress");
    assert("OMTAddress"@[0] == 'O' && "Name"@[0] == 'N' && "Port"@[0] == 'P' && "Removed"@[0] == 'R'
        && "Addresses"@[0] == 'A' && "IPAddress"@[0] == 'I');
}

/// What is read of the pieces before the addresses.
proof fn lemma_head_read(m: MessageView)
    requires
        readable(m),
    ensures
        reading(head_pieces(m)) == (Reading {
            nodes: head_nodes(m),
            open: seq![0int, 1int],
            after_text: true,
            ok: true,
        }),
        head_nodes(m).len() == list_place(m),
{
    let none = Seq::<char>::empty();
    let e = Seq::<Piece>::empty();
    let d = decimal(m.port as nat);
    let a0 = e.push(Piece::Open("OMTAddress"@));
    let a1 = a0.push(Piece::Text("\n  "@));
    let a2 = a1.push(Piece::Open("Name"@));
    let a3 = a2.push(Piece::Text(m.full_name));
    let a4 = a3.push(Piece::Close("Name"@));
    let a5 = a4.push(Piece::Text("\n  "@));
    let a6 = a5.push(Piece::Open("Port"@));
    let a7 = a6.push(Piece::Text(d));
    let a8 = a7.push(Piece::Close("Port"@));
    let a9 = a8.push(Piece::Text("\n  "@));
    lemma_white();
    lemma_names();
    lemma_decimal_text(m.port as nat);
    lemma_number_content(d);
    lemma_more_read(e, Piece::Open("OMTAddress"@));
    lemma_more_read(a0, Piece::Text("\n  "@));
    lemma_more_read(a1, Piece::Open("Name"@));
    lemma_more_read(a2, Piece::Text(m.full_name));
    lemma_more_read(a3, Piece::Close("Name"@));
    lemma_more_read(a4, Piece::Text("\n  "@));
    lemma_more_read(a5, Piece::Open("Port"@));
    lemma_more_read(a6, Piece::Text(d));
    lemma_more_read(a7, Piece::Close("Port"@));
    lemma_more_read(a8, Piece::Text("\n  "@));
    let root = element(0, NodeKind::Root, none, None);
    let top = element(0, NodeKind::Element, "OMTAddress"@, Some("\n  "@));
    let white = element(1, NodeKind::Text, none, Some("\n  "@));
    let name = element(1, NodeKind::Element, "Name"@, Some(m.full_name));
    let name_text = element(3, NodeKind::Text, none, Some(m.full_name));
    let port = element(1, NodeKind::Element, "Port"@, Some(d));
    let port_text = element(6, NodeKind::Text, none, Some(d));
    assert(reading(e) == nothing_read());
    assert(reading(a0).nodes =~= seq![root, element(0, NodeKind::Element, "OMTAddress"@, None)]);
    assert(reading(a0).open =~= seq![0int, 1int]);
    assert(reading(a1).nodes =~= seq![root, top, white]);
    assert(reading(a2).nodes =~= seq![root, top, white, element(1, NodeKind::Element, "Name"@, None)]);
    assert(reading(a2).open =~= seq![0int, 1int, 3int]);
    assert(reading(a3).nodes =~= seq![root, top, white, name, name_text]);
    assert(reading(a4).nodes =~= seq![root, top, white, name, name_text]);
    assert(reading(a4).open =~= seq![0int, 1int]);
    assert(reading(a5).nodes =~= seq![root, top, white, name, name_text, white]);
    assert(reading(a6).nodes =~= seq![
        root,
        top,
        white,
        name,
        name_text,
        white,
        element(1, NodeKind::Element, "Port"@, None),
    ]);
    assert(reading(a6).open =~= seq![0int, 1int, 6int]);
    assert(reading(a7).nodes =~= seq![root, top, white, name, name_text, white, port, port_text]);
    assert(reading(a8).open =~= seq![0int, 1int]);
    let nine = seq![root, top, white, name, name_text, white, port, port_text, white];
    assert(reading(a9).nodes =~= nine);
    assert(reading(a9).open =~= seq![0int, 1int]);
    if m.removed {
        let b0 = a9.push(Piece::Open("Removed"@));
        let b1 = b0.push(Piece::Text("True"@));
        let b2 = b1.push(Piece::Close("Removed"@));
        let b3 = b2.push(Piece::Text("\n  "@));
        lemma_more_read(a9, Piece::Open("Removed"@));
        lemma_more_read(b0, Piece::Text("True"@));
        lemma_more_read(b1, Piece::Close("Removed"@));
        lemma_more_read(b2, Piece::Text("\n  "@));
        assert(head_pieces(m) =~= b3);
        let removed = element(1, NodeKind::Element, "Removed"@, Some("True"@));
        let removed_text = element(9, NodeKind::Text, none, Some("True"@));
        assert(reading(b0).nodes =~= nine.push(element(1, NodeKind::Element, "Removed"@, None)));
        assert(reading(b0).open =~= seq![0int, 1int, 9int]);
        assert(reading(b1).nodes =~= nine.push(removed).push(removed_text));
        assert(reading(b2).open =~= seq![0int, 1int]);
        assert(reading(b3).nodes =~= head_nodes(m));
        assert(reading(b3).open =~= seq![0int, 1int]);
    } else {
        assert(head_pieces(m) =~= a9);
        assert(head_nodes(m) =~= nine);
    }
}

/// The number of nodes of addresses.
proof fn lemma_list_nodes_len(s: Seq<IpAddr>, n: int, place: int)
    requires
        0 <= n,
    ensures
        list_nodes(s, n, place).len() == 3 * n,
    decreases n,
{
    if n > 0 {
        lemma_list_nodes_len(s, n - 1, place);
    }
}

/// What is read of addresses.
proof fn lemma_list_read(before: Seq<Piece>, base: Seq<XmlNodeView>, s: Seq<IpAddr>, n: int, place: int)
    requires
        0 <= n <= s.len(),
        place == base.len() - 2,
        place > 1,
        reading(before) == (Reading { nodes: base, open: seq![0int, 1int, place], after_text: true, ok: true }),
    ensures
        reading(before + list_pieces(s, n)) == (Reading {
            nodes: base + list_nodes(s, n, place),
            open: seq![0int, 1int, place],
            after_text: true,
            ok: true,
        }),
    decreases n,
{
    if n == 0 {
        assert(before + list_pieces(s, n) =~= before);
        assert(base + list_nodes(s, n, place) =~= base);
    } else {
        lemma_list_read(before, base, s, n - 1, place);
        lemma_list_nodes_len(s, n - 1, place);
        lemma_white();
        lemma_names();
        let ip = s[n - 1];
        let t = ip_text(ip.mapped());
        let g = gap(n - 1, s.len() as int);
        lemma_ip_text(ip.mapped());
        lemma_number_content(t);
        let p0 = before + list_pieces(s, n - 1);
        let p1 = p0.push(Piece::Open("IPAddress"@));
        let p2 = p1.push(Piece::Text(t));
        let p3 = p2.push(Piece::Close("IPAddress"@));
        let p4 = p3.push(Piece::Text(g));
        lemma_more_read(p0, Piece::Open("IPAddress"@));
        lemma_more_read(p1, Piece::Text(t));
        lemma_more_read(p2, Piece::Close("IPAddress"@));
        lemma_more_read(p3, Piece::Text(g));
        assert(before + list_pieces(s, n) =~= p4);
        let old_nodes = base + list_nodes(s, n - 1, place);
        let at = old_nodes.len() as int;
        assert(at == place + 2 + 3 * (n - 1));
        assert(reading(p1).nodes =~= old_nodes.push(element(place, NodeKind::Element, "IPAddress"@, None)));
        assert(reading(p1).open =~= seq![0int, 1int, place, at]);
        let with_text = old_nodes.push(element(place, NodeKind::Element, "IPAddress"@, Some(t))).push(
            element(at, NodeKind::Text, Seq::empty(), Some(t)),
        );
        assert(reading(p2).nodes =~= with_text);
        assert(reading(p3).nodes =~= with_text);
        assert(reading(p3).open =~= seq![0int, 1int, place]);
        assert(reading(p4).nodes =~= with_text.push(element(place, NodeKind::Text, Seq::empty(), Some(g))));
        assert(reading(p4).nodes =~= base + list_nodes(s, n, place));
        assert(reading(p4).open =~= seq![0int, 1int, place]);
    }
}

/// The number of pieces of addresses.
proof fn lemma_list_pieces_len(s: Seq<IpAddr>, n: int)
    requires
        0 <= n,
    ensures
        list_pieces(s, n).len() == 4 * n,
    decreases n,
{
    if n > 0 {
        lemma_list_pieces_len(s, n - 1);
    }
}

/// The pieces of a message are a plain document with the nodes of the message.
proof fn lemma_message_read(m: MessageView)
    requires
        readable(m),
    ensures
        is_plain_document(message_pieces(m)),
        reading(message_pieces(m)).nodes == message_nodes(m),
{
    lemma_head_read(m);
    lemma_white();
    lemma_names();
    let place = list_place(m);
    let s = m.addresses;
    let n = s.len() as int;
    let head = head_pieces(m);
    lemma_list_pieces_len(s, n);
    let after = head + addresses_pieces(s);
    let nodes = head_nodes(m) + addresses_nodes(s, place);
    if n == 0 {
        let p = Piece::Empty("Addresses"@);
        lemma_more_read(head, p);
        assert(after =~= head.push(p));
        assert(reading(after).nodes =~= nodes);
    } else {
        let p0 = Piece::Open("Addresses"@);
        let p1 = Piece::Text("\n    "@);
        let p2 = Piece::Close("Addresses"@);
        let start = head.push(p0).push(p1);
        lemma_more_read(head, p0);
        lemma_more_read(head.push(p0), p1);
        let base = head_nodes(m) + seq![
            element(1, NodeKind::Element, "Addresses"@, Some("\n    "@)),
            element(place, NodeKind::Text, Seq::empty(), Some("\n    "@)),
        ];
        assert(reading(head.push(p0)).nodes =~= head_nodes(m).push(
            element(1, NodeKind::Element, "Addresses"@, None),
        ));
        assert(reading(head.push(p0)).open =~= seq![0int, 1int, place]);
        assert(reading(start).nodes =~= base);
        lemma_list_read(start, base, s, n, place);
        lemma_list_nodes_len(s, n, place);
        let all = start + list_pieces(s, n);
        lemma_more_read(all, p2);
        assert(after =~= all.push(p2));
        assert((base + list_nodes(s, n, place))[place] == base[place]);
        assert(reading(after).nodes =~= nodes);
        assert(reading(after).open =~= seq![0int, 1int]);
    }
    assert(reading(after).open =~= seq![0int, 1int]);
    assert(reading(after).ok && !reading(after).after_text);
    lemma_list_nodes_len(s, n, place);
    let q0 = Piece::Text("\n"@);
    let q1 = Piece::Close("OMTAddress"@);
    lemma_more_read(after, q0);
    lemma_more_read(after.push(q0), q1);
    assert(message_pieces(m) =~= after.push(q0).push(q1));
    assert(nodes[1] == head_nodes(m)[1]);
    assert(reading(after.push(q0)).nodes =~= message_nodes(m));
    assert(message_nodes(m)[1] == head_nodes(m)[1]);
}

// ---------------------------------------------------------------------------
// Reading
// ---------------------------------------------------------------------------

/// The node of an address, its text and what follows.
proof fn lemma_list_node(s: Seq<IpAddr>, n: int, place: int, i: int)
    requires
        0 <= i < n <= s.len(),
    ensures
        list_nodes(s, n, place).len() == 3 * n,
        list_nodes(s, n, place)[3 * i] == element(
            place,
            NodeKind::Element,
            "IPAddress"@,
            Some(ip_text(s[i].mapped())),
        ),
        list_nodes(s, n, place)[3 * i + 1] == element(
            place + 2 + 3 * i,
            NodeKind::Text,
            Seq::empty(),
            Some(ip_text(s[i].mapped())),
        ),
        list_nodes(s, n, place)[3 * i + 2] == element(
            place,
            NodeKind::Text,
            Seq::empty(),
            Some(gap(i, s.len() as int)),
        ),
    decreases n,
{
    lemma_list_nodes_len(s, n - 1, place);
    if i < n - 1 {
        lemma_list_node(s, n - 1, place, i);
    }
}

/// The parts of the nodes of a message.
proof fn lemma_nodes(m: MessageView)
    ensures
        ({
            let all = message_nodes(m);
            let place = list_place(m);
            let n = m.addresses.len() as int;
            &&& all.len() == place + (if n == 0 {
                2
            } else {
                3 + 3 * n
            })
            &&& forall|j: int| 0 <= j < place ==> #[trigger] all[j] == head_nodes(m)[j]
            &&& all[place].kind == NodeKind::Element
            &&& all[place].parent == 1
            &&& all[place].name == "Addresses"@
            &&& all.last() == element(1, NodeKind::Text, Seq::empty(), Some("\n"@))
            &&& n > 0 ==> all[place + 1] == element(place, NodeKind::Text, Seq::empty(), Some("\n    "@))
            &&& forall|k: int|
                0 <= k < 3 * n ==> #[trigger] all[place + 2 + k] == list_nodes(m.addresses, n, place)[k]
        }),
{
    let place = list_place(m);
    let n = m.addresses.len() as int;
    lemma_list_nodes_len(m.addresses, n, place);
    let all = message_nodes(m);
    assert(head_nodes(m).len() == place);
    assert forall|k: int| 0 <= k < 3 * n implies #[trigger] all[place + 2 + k] == list_nodes(
        m.addresses,
        n,
        place,
    )[k] by {
        assert(all[place + 2 + k] == addresses_nodes(m.addresses, place)[2 + k]);
    }
}

/// A child that is not there among nodes behind a place.
proof fn lemma_no_child(nodes: Seq<XmlNodeView>, parent: int, name: Seq<char>, j: int)
    requires
        forall|k: int| j <= k < nodes.len() ==> !#[trigger] named_child(nodes, parent, k, name),
    ensures
        child_from(nodes, parent, name, j) is None,
    decreases nodes.len() - j,
{
    if j < nodes.len() {
        assert(!named_child(nodes, parent, j, name));
        lemma_no_child(nodes, parent, name, j + 1);
    }
}

/// The first child of a name.
proof fn lemma_child(nodes: Seq<XmlNodeView>, parent: int, name: Seq<char>, j: int, at: int)
    requires
        j <= at < nodes.len(),
        named_child(nodes, parent, at, name),
        forall|k: int| j <= k < at ==> !#[trigger] named_child(nodes, parent, k, name),
    ensures
        child_from(nodes, parent, name, j) == Some(at),
    decreases at - j,
{
    if j < at {
        assert(!named_child(nodes, parent, j, name));
        lemma_child(nodes, parent, name, j + 1, at);
    }
}

/// The text of an element that holds one text.
proof fn lemma_inner(nodes: Seq<XmlNodeView>, node: int, t: Seq<char>)
    requires
        0 <= node,
        node + 2 < nodes.len(),
        nodes[node + 1] == element(node, NodeKind::Text, Seq::empty(), Some(t)),
        nodes[node + 2].parent < node,
    ensures
        inner_text_of(nodes, node) == t,
{
    reveal_with_fuel(texts_from, 3);
    assert(texts_from(nodes, node, node + 2) =~= Seq::empty());
    assert(t + Seq::<char>::empty() =~= t);
}

/// The addresses among the nodes of a message.
proof fn lemma_addresses_read(m: MessageView, i: int)
    requires
        readable(m),
        0 <= i <= m.addresses.len(),
    ensures
        addresses_before(message_nodes(m), 1, list_place(m) + 2 + 3 * i) == m.addresses.take(i),
    decreases i,
{
    let all = message_nodes(m);
    let place = list_place(m);
    let s = m.addresses;
    lemma_nodes(m);
    lemma_names();
    if i == 0 {
        assert forall|j: int| 0 <= j < place + 2 implies !#[trigger] address_node(all, 1, j) by {
            if j < place {
                assert(all[j] == head_nodes(m)[j]);
                assert(0 <= all[j].parent < place);
                let p = all[j].parent;
                assert(all[p] == head_nodes(m)[p]);
            } else if j == place {
                assert(all[1] == head_nodes(m)[1]);
            } else if s.len() > 0 {
                assert(all[place + 1].kind == NodeKind::Text);
            } else {
                assert(all[place + 1] == all.last());
            }
        }
        lemma_none_before(all, 1, place + 2);
        assert(s.take(0) =~= Seq::empty());
    } else {
        lemma_addresses_read(m, i - 1);
        let n = s.len() as int;
        lemma_list_node(s, n, place, i - 1);
        let k = 3 * (i - 1);
        let at = place + 2 + k;
        let t = ip_text(s[i - 1].mapped());
        assert(all[place + 2 + k] == list_nodes(s, n, place)[k]);
        assert(all[place + 2 + (k + 1)] == list_nodes(s, n, place)[k + 1]);
        assert(all[place + 2 + (k + 2)] == list_nodes(s, n, place)[k + 2]);
        assert(address_node(all, 1, at));
        lemma_inner(all, at, t);
        lemma_ip_in(s[i - 1].mapped());
        lemma_addresses_again(s, i - 1);
        assert(addresses_before(all, 1, at) == s.take(i - 1));
        assert(addresses_before(all, 1, at + 1) == s.take(i));
        assert(!address_node(all, 1, at + 1)) by {
            assert(all[at + 1].kind == NodeKind::Text);
        }
        assert(addresses_before(all, 1, at + 2) == s.take(i));
        assert(!address_node(all, 1, at + 2)) by {
            assert(all[at + 2].kind == NodeKind::Text);
        }
        assert(addresses_before(all, 1, at + 3) == s.take(i));
    }
}

/// No addresses where there are no nodes of addresses.
proof fn lemma_none_before(nodes: Seq<XmlNodeView>, root: int, j: int)
    requires
        forall|k: int| 0 <= k < j ==> !#[trigger] address_node(nodes, root, k),
    ensures
        addresses_before(nodes, root, j) == Seq::<IpAddr>::empty(),
    decreases j,
{
    if j > 0 {
        lemma_none_before(nodes, root, j - 1);
        assert(!address_node(nodes, root, j - 1));
    }
}

/// Whether the source went away, as it is read back.
proof fn lemma_removed_read(m: MessageView)
    requires
        readable(m),
    ensures
        m.removed == (match child_of(message_nodes(m), 1, "Removed"@) {
            Some(i) => same_letters(inner_text_of(message_nodes(m), i), "true"@),
            None => false,
        }),
{
    let all = message_nodes(m);
    let place = list_place(m);
    let n = m.addresses.len() as int;
    lemma_nodes(m);
    lemma_names();
    if m.removed {
        assert(all[9] == head_nodes(m)[9]);
        assert(all[10] == head_nodes(m)[10]);
        assert(all[11] == head_nodes(m)[11]);
        assert forall|k: int| 1 <= k < 9 implies !#[trigger] named_child(all, 1, k, "Removed"@) by {
            assert(all[k] == head_nodes(m)[k]);
        }
        lemma_child(all, 1, "Removed"@, 1, 9);
        lemma_inner(all, 9, "True"@);
        reveal_strlit("True");
        reveal_strlit("true");
    } else {
        assert forall|k: int| 1 <= k < all.len() implies !#[trigger] named_child(all, 1, k, "Removed"@) by {
            if k < place {
                assert(all[k] == head_nodes(m)[k]);
            } else if place + 2 <= k < place + 2 + 3 * n {
                let i = (k - place - 2) / 3;
                lemma_list_node(m.addresses, n, place, i);
                assert(all[place + 2 + (k - place - 2)] == list_nodes(m.addresses, n, place)[k - place - 2]);
                assert(k - place - 2 == 3 * i || k - place - 2 == 3 * i + 1 || k - place - 2 == 3 * i + 2);
            }
        }
        lemma_no_child(all, 1, "Removed"@, 1);
    }
}

/// The message is read back from its nodes.
proof fn lemma_nodes_read(m: MessageView)
    requires
        readable(m),
    ensures
        message_of(message_nodes(m)) == Some(m),
{
    let all = message_nodes(m);
    let place = list_place(m);
    let n = m.addresses.len() as int;
    lemma_nodes(m);
    lemma_names();
    assert(all[1] == head_nodes(m)[1]);
    assert(all[2] == head_nodes(m)[2]);
    assert(all[3] == head_nodes(m)[3]);
    assert(all[4] == head_nodes(m)[4]);
    assert(all[5] == head_nodes(m)[5]);
    assert(all[6] == head_nodes(m)[6]);
    assert(all[7] == head_nodes(m)[7]);
    assert(all[8] == head_nodes(m)[8]);
    assert(root_from(all, 1) == Some(1int));
    assert forall|k: int| 1 <= k < 3 implies !#[trigger] named_child(all, 1, k, "Name"@) by {
        assert(all[k] == head_nodes(m)[k]);
    }
    lemma_child(all, 1, "Name"@, 1, 3);
    lemma_inner(all, 3, m.full_name);
    assert forall|k: int| 1 <= k < 6 implies !#[trigger] named_child(all, 1, k, "Port"@) by {
        assert(all[k] == head_nodes(m)[k]);
    }
    lemma_child(all, 1, "Port"@, 1, 6);
    lemma_inner(all, 6, decimal(m.port as nat));
    lemma_port(m.port);
    lemma_removed_read(m);
    lemma_addresses_read(m, n);
    assert(m.addresses.take(n) =~= m.addresses);
    // What stands behind the addresses holds none.
    let end = place + 2 + 3 * n;
    if n > 0 {
        assert(all.len() == end + 1);
        assert(all[end] == all.last());
        assert(!address_node(all, 1, end)) by {
            assert(all[end].kind == NodeKind::Text);
        }
        assert(addresses_before(all, 1, end + 1) == m.addresses);
    } else {
        assert(all.len() == end);
    }
}

/// The last byte of a text that ends in an ASCII character.
proof fn lemma_last_byte(s: Seq<char>)
    requires
        s.len() > 0,
        s.last() == '>',
    ensures
        vstd::utf8::encode_utf8(s).len() > 0,
        vstd::utf8::encode_utf8(s).last() == 62,
    decreases s.len(),
{
    if s.len() == 1 {
        assert(s =~= seq!['>']);
        assert(forall|i: int| 0 <= i < s.len() ==> '\0' <= #[trigger] s[i] <= '~');
        crate::text::lemma_ascii(s);
    } else {
        let t = s.drop_first();
        assert(t.last() == s.last());
        lemma_last_byte(t);
        let first = vstd::utf8::encode_scalar(s[0] as u32);
        assert(vstd::utf8::encode_utf8(s) =~= first + vstd::utf8::encode_utf8(t));
    }
}

/// The bytes of a message hold its text, with no NULs at the end.
pub proof fn lemma_message_bytes(m: MessageView)
    ensures
        without_zeros(message_bytes(m)) == message_bytes(m),
        vstd::utf8::valid_utf8(message_bytes(m)),
        vstd::utf8::decode_utf8(message_bytes(m)) == message_text(m),
{
    let t = message_text(m);
    reveal_strlit("</OMTAddress>");
    assert(t.last() == '>');
    lemma_last_byte(t);
    vstd::utf8::encode_utf8_valid_utf8(t);
    vstd::utf8::encode_utf8_decode_utf8(t);
}

/// The bytes of two texts in a row.
proof fn lemma_joined_bytes(a: Seq<char>, b: Seq<char>)
    ensures
        vstd::utf8::encode_utf8(a + b) == vstd::utf8::encode_utf8(a) + vstd::utf8::encode_utf8(b),
    decreases a.len(),
{
    if a.len() == 0 {
        assert(a + b =~= b);
        assert(vstd::utf8::encode_utf8(a) + vstd::utf8::encode_utf8(b) =~= vstd::utf8::encode_utf8(b));
    } else {
        lemma_joined_bytes(a.drop_first(), b);
        assert((a + b).drop_first() =~= a.drop_first() + b);
        let first = vstd::utf8::encode_scalar(a[0] as u32);
        assert(vstd::utf8::encode_utf8(a + b) =~= first + (vstd::utf8::encode_utf8(a.drop_first())
            + vstd::utf8::encode_utf8(b)));
    }
}

/// The bytes of a message are no command, setting, information or redirect.
pub proof fn lemma_message_is_plain(m: MessageView)
    ensures
        !is_command(message_bytes(m)),
        !is_quality_text(message_bytes(m)),
        !is_info_text(message_bytes(m)),
        !is_redirect_text(message_bytes(m)),
{
    let t = message_text(m);
    let b = message_bytes(m);
    let head = "<OMTA"@;
    reveal_strlit("<OMTA");
    reveal_strlit("<OMTAddress>\n  <Name>");
    let tail = t.skip(5);
    assert(t =~= head + tail);
    lemma_joined_bytes(head, tail);
    crate::text::lemma_ascii(head);
    assert(b[4] == ascii(head)[4] == 65);
    reveal_strlit("<OMTSettings Quality=");
    reveal_strlit("<OMTInfo");
    reveal_strlit("<OMTRedirect");
    assert forall|c: Command| b != #[trigger] command_bytes(c) by {
        crate::command::lemma_fifth_letter(c);
    }
    assert(is_quality_text(b) ==> b.take(21)[4] == 83);
    assert(is_info_text(b) ==> b.take(8)[4] == 73);
    assert(is_redirect_text(b) ==> b.take(12)[4] == 82);
}

/// The XML of a message is a plain document, and the message is read back
/// from its nodes.
pub proof fn lemma_message_round_trip(m: MessageView)
    requires
        readable(m),
    ensures
        pieces_text(message_pieces(m)) == message_text(m),
        is_plain_document(message_pieces(m)),
        message_of(reading(message_pieces(m)).nodes) == Some(m),
{
    lemma_message_text(m);
    lemma_message_read(m);
    lemma_nodes_read(m);
}

} // verus!
