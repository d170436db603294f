//! Escaping text for XML.

use crate::text::{
    begins, between, decimal, find, from_index, hexadecimal, index_of, is_text, law_decimal,
    law_hexadecimal, lemma_index_at, lemma_index_none, lemma_index_of, parse_unsigned, push_chars,
    push_str, starts_with, unsigned_of, up_to,
};
use vstd::prelude::*;

verus! {

/// How one character is written: `&`, `<` and `>` as entities, and `"` too
/// inside an attribute.
pub open spec fn escaped_char(c: char, quotes: bool) -> Seq<char> {
    if c == '&' {
        "&amp;"@
    } else if c == '<' {
        "&lt;"@
    } else if c == '>' {
        "&gt;"@
    } else if c == '"' && quotes {
        "&quot;"@
    } else {
        seq![c]
    }
}

/// How text is written.
pub open spec fn escaped(s: Seq<char>, quotes: bool) -> Seq<char>
    decreases s.len(),
{
    if s.len() == 0 {
        Seq::empty()
    } else {
        escaped(s.drop_last(), quotes) + escaped_char(s.last(), quotes)
    }
}

/// Appends escaped text.
pub fn push_escaped(out: &mut Vec<char>, s: &[char], quotes: bool)
    ensures
        final(out)@ == old(out)@ + escaped(s@, quotes),
{
    let mut i: usize = 0;
    assert(s@.take(0) =~= Seq::empty());
    assert(out@ =~= old(out)@ + escaped(s@.take(0), quotes));
    while i < s.len()
        invariant
            i <= s@.len(),
            out@ == old(out)@ + escaped(s@.take(i as int), quotes),
        decreases s@.len() - i,
    {
        let c: char = s[i];
        if c == '&' {
            push_str(out, "&amp;");
        } else if c == '<' {
            push_str(out, "&lt;");
        } else if c == '>' {
            push_str(out, "&gt;");
        } else if c == '"' && quotes {
            push_str(out, "&quot;");
        } else {
            out.push(c);
        }
        proof {
            assert(s@.take(i + 1).drop_last() =~= s@.take(i as int));
            assert(out@ =~= old(out)@ + escaped(s@.take(i + 1), quotes));
        }
        i = i + 1;
    }
    assert(s@.take(i as int) =~= s@);
}

/// The character that an entity stands for: one of the five predefined names
/// or a numeric character reference.
pub open spec fn entity(e: Seq<char>) -> Option<char> {
    if e == "amp"@ {
        Some('&')
    } else if e == "lt"@ {
        Some('<')
    } else if e == "gt"@ {
        Some('>')
    } else if e == "quot"@ {
        Some('"')
    } else if e == "apos"@ {
        Some('\'')
    } else {
        let n = if begins(e, "#x"@) {
            unsigned_of(e.skip(2), 16, 0xFFFF_FFFF)
        } else if begins(e, "#"@) {
            unsigned_of(e.skip(1), 10, 0xFFFF_FFFF)
        } else {
            None
        };
        match n {
            Some(v) => if vstd::utf8::is_scalar(v as u32) {
                Some(v as u32 as char)
            } else {
                None
            },
            None => None,
        }
    }
}

/// Text with its entities replaced. `None` for an entity that is not known or
/// not closed, and for a `<` behind the last entity.
pub open spec fn unescaped(s: Seq<char>) -> Option<Seq<char>>
    decreases s.len(),
{
    proof {
        lemma_index_of(s, '&');
    }
    match index_of(s, '&') {
        None => if s.contains('<') {
            None
        } else {
            Some(s)
        },
        Some(i) => {
            proof {
                lemma_index_of(s.skip(i), ';');
            }
            match index_of(s.skip(i), ';') {
                None => None,
                Some(k) => match (entity(s.subrange(i + 1, i + k)), unescaped(s.skip(i + k + 1))) {
                    (Some(c), Some(rest)) => Some(s.take(i).push(c) + rest),
                    _ => None,
                },
            }
        },
    }
}

/// The character that an entity stands for.
fn read_entity(e: &[char]) -> (r: Option<char>)
    ensures
        r == entity(e@),
{
    if is_text(e, "amp") {
        return Some('&');
    }
    if is_text(e, "lt") {
        return Some('<');
    }
    if is_text(e, "gt") {
        return Some('>');
    }
    if is_text(e, "quot") {
        return Some('"');
    }
    if is_text(e, "apos") {
        return Some('\'');
    }
    proof {
        reveal_strlit("#x");
        reveal_strlit("#");
    }
    let n: Option<u64> = if starts_with(e, "#x") {
        parse_unsigned(from_index(e, 2), 16, 0xFFFF_FFFF)
    } else if starts_with(e, "#") {
        parse_unsigned(from_index(e, 1), 10, 0xFFFF_FFFF)
    } else {
        None
    };
    match n {
        Some(v) => char::from_u32(v as u32),
        None => None,
    }
}

/// Replaces the entities of a text.
pub fn unescape(s: &[char]) -> (r: Option<Vec<char>>)
    ensures
        match r {
            Some(v) => unescaped(s@) == Some(v@),
            None => unescaped(s@) is None,
        },
{
    let n: usize = s.len();
    let mut v: Vec<char> = Vec::new();
    let mut at: usize = 0;
    assert(s@.skip(0) =~= s@);
    proof {
        match unescaped(s@) {
            Some(t) => {
                assert(v@ + t =~= t);
            },
            None => {},
        }
    }
    loop
        invariant
            n == s@.len(),
            at <= n,
            match unescaped(s@.skip(at as int)) {
                Some(t) => unescaped(s@) == Some(v@ + t),
                None => unescaped(s@) is None,
            },
        decreases n - at,
    {
        let rest: &[char] = from_index(s, at);
        proof {
            lemma_index_of(rest@, '&');
        }
        match find(rest, '&') {
            None => {
                if crate::text::has_char(rest, '<') {
                    return None;
                }
                push_chars(&mut v, rest);
                return Some(v);
            },
            Some(i) => {
                let tail: &[char] = from_index(rest, i);
                proof {
                    lemma_index_of(tail@, ';');
                }
                match find(tail, ';') {
                    None => {
                        return None;
                    },
                    Some(k) => {
                        assert(at + i + k < n);
                        let ghost before = v@;
                        match read_entity(between(rest, i + 1, i + k)) {
                            None => {
                                return None;
                            },
                            Some(c) => {
                                push_chars(&mut v, up_to(rest, i));
                                v.push(c);
                                proof {
                                    assert(rest@.skip(i + k + 1) =~= s@.skip(at + i + k + 1));
                                    match unescaped(s@.skip(at + i + k + 1)) {
                                        Some(t) => {
                                            assert(before + (rest@.take(i as int).push(c) + t) =~= v@ + t);
                                        },
                                        None => {},
                                    }
                                }
                            },
                        }
                        at = at + i + k + 1;
                    },
                }
            },
        }
    }
}

// ---------------------------------------------------------------------------
// What is escaped is read back
// ---------------------------------------------------------------------------

/// Escaping character by character, front to back.
pub proof fn lemma_escaped_front(s: Seq<char>, quotes: bool)
    requires
        s.len() > 0,
    ensures
        escaped(s, quotes) == escaped_char(s[0], quotes) + escaped(s.skip(1), quotes),
    decreases s.len(),
{
    if s.len() == 1 {
        assert(s.drop_last() =~= Seq::empty());
        assert(s.skip(1) =~= Seq::empty());
        assert(escaped(s, quotes) =~= escaped_char(s[0], quotes) + escaped(s.skip(1), quotes));
    } else {
        lemma_escaped_front(s.drop_last(), quotes);
        assert(s.drop_last().skip(1) =~= s.skip(1).drop_last());
        assert(escaped(s, quotes) =~= escaped_char(s[0], quotes) + escaped(s.skip(1), quotes));
    }
}

/// An entity at the front is replaced.
proof fn lemma_unescape_entity(name: Seq<char>, c: char, rest: Seq<char>)
    requires
        entity(name) == Some(c),
        forall|i: int| 0 <= i < name.len() ==> #[trigger] name[i] != ';',
    ensures
        unescaped(seq!['&'] + name + seq![';'] + rest) == (match unescaped(rest) {
            Some(t) => Some(seq![c] + t),
            None => None,
        }),
{
    let s = seq!['&'] + name + seq![';'] + rest;
    lemma_index_at(s, '&', 0);
    assert(s.skip(0) =~= s);
    let k = name.len() as int + 1;
    assert forall|j: int| 0 <= j < k implies #[trigger] s[j] != ';' by {
        if j > 0 {
            assert(s[j] == name[j - 1]);
        }
    }
    lemma_index_at(s, ';', k);
    assert(s.subrange(1, k) =~= name);
    assert(s.skip(k + 1) =~= rest);
    match unescaped(rest) {
        Some(t) => {
            assert(s.take(0).push(c) + t =~= seq![c] + t);
        },
        None => {},
    }
}

/// A plain character at the front stays.
proof fn lemma_unescape_plain(c: char, rest: Seq<char>)
    requires
        c != '&',
        c != '<',
    ensures
        unescaped(seq![c] + rest) == (match unescaped(rest) {
            Some(t) => Some(seq![c] + t),
            None => None,
        }),
{
    let s = seq![c] + rest;
    assert(s.skip(1) =~= rest);
    lemma_index_of(rest, '&');
    match index_of(rest, '&') {
        None => {
            if rest.contains('<') {
                let j = choose|j: int| 0 <= j < rest.len() && rest[j] == '<';
                assert(s[j + 1] == '<');
            } else {
                assert forall|j: int| 0 <= j < s.len() implies s[j] != '<' by {
                    if j > 0 {
                        assert(s[j] == rest[j - 1]);
                    }
                }
            }
        },
        Some(i) => {
            assert(index_of(s, '&') == Some(i + 1));
            assert(s.skip(i + 1) =~= rest.skip(i));
            lemma_index_of(rest.skip(i), ';');
            match index_of(rest.skip(i), ';') {
                None => {},
                Some(k) => {
                    assert(s.subrange(i + 2, i + 1 + k) =~= rest.subrange(i + 1, i + k));
                    assert(s.skip(i + k + 2) =~= rest.skip(i + k + 1));
                    match (entity(rest.subrange(i + 1, i + k)), unescaped(rest.skip(i + k + 1))) {
                        (Some(e), Some(t)) => {
                            assert(s.take(i + 1).push(e) + t =~= seq![c] + (rest.take(i).push(e) + t));
                        },
                        _ => {},
                    }
                },
            }
        },
    }
}

/// The entities that are written stand for their characters.
proof fn lemma_entities()
    ensures
        entity("amp"@) == Some('&'),
        entity("lt"@) == Some('<'),
        entity("gt"@) == Some('>'),
        entity("quot"@) == Some('"'),
        "&amp;"@ == seq!['&'] + "amp"@ + seq![';'],
        "&lt;"@ == seq!['&'] + "lt"@ + seq![';'],
        "&gt;"@ == seq!['&'] + "gt"@ + seq![';'],
        "&quot;"@ == seq!['&'] + "quot"@ + seq![';'],
        "amp"@ == seq!['a', 'm', 'p'],
        "lt"@ == seq!['l', 't'],
        "gt"@ == seq!['g', 't'],
        "quot"@ == seq!['q', 'u', 'o', 't'],
{
    reveal_strlit("&amp;");
    reveal_strlit("&lt;");
    reveal_strlit("&gt;");
    reveal_strlit("&quot;");
    reveal_strlit("amp");
    reveal_strlit("lt");
    reveal_strlit("gt");
    reveal_strlit("quot");
    assert("amp"@.len() == 3 && "lt"@.len() == 2 && "gt"@.len() == 2 && "quot"@.len() == 4);
    assert("gt"@[0] == 'g' && "lt"@[0] == 'l');
    assert("&amp;"@ =~= seq!['&'] + "amp"@ + seq![';']);
    assert("&lt;"@ =~= seq!['&'] + "lt"@ + seq![';']);
    assert("&gt;"@ =~= seq!['&'] + "gt"@ + seq![';']);
    assert("&quot;"@ =~= seq!['&'] + "quot"@ + seq![';']);
    assert("amp"@ =~= seq!['a', 'm', 'p']);
    assert("lt"@ =~= seq!['l', 't']);
    assert("gt"@ =~= seq!['g', 't']);
    assert("quot"@ =~= seq!['q', 'u', 'o', 't']);
}

/// One escaped character is read back, whatever follows it.
proof fn lemma_unescape_one(c: char, quotes: bool, rest: Seq<char>)
    ensures
        unescaped(escaped_char(c, quotes) + rest) == (match unescaped(rest) {
            Some(t) => Some(seq![c] + t),
            None => None,
        }),
{
    lemma_entities();
    if c == '&' {
        lemma_unescape_entity("amp"@, c, rest);
    } else if c == '<' {
        lemma_unescape_entity("lt"@, c, rest);
    } else if c == '>' {
        lemma_unescape_entity("gt"@, c, rest);
    } else if c == '"' && quotes {
        lemma_unescape_entity("quot"@, c, rest);
    } else {
        lemma_unescape_plain(c, rest);
    }
}

/// Escaped text is free of markup.
pub open spec fn plain(s: Seq<char>, quotes: bool) -> bool {
    forall|i: int|
        0 <= i < s.len() ==> #[trigger] s[i] != '<' && s[i] != '>' && (quotes ==> s[i] != '"')
}

/// One escaped character is free of markup.
proof fn lemma_plain_one(c: char, quotes: bool)
    ensures
        plain(escaped_char(c, quotes), quotes),
{
    lemma_entities();
}

/// Unescaping undoes escaping, and escaped text holds no `<`, `>` or, inside
/// an attribute, `"`.
pub proof fn law_escape_round_trip(s: Seq<char>, quotes: bool)
    ensures
        unescaped(escaped(s, quotes)) == Some(s),
        plain(escaped(s, quotes), quotes),
    decreases s.len(),
{
    if s.len() == 0 {
        assert(escaped(s, quotes) =~= Seq::empty());
        lemma_index_none(Seq::empty(), '&');
        assert(s =~= Seq::empty());
    } else {
        let t = s.skip(1);
        let rest = escaped(t, quotes);
        law_escape_round_trip(t, quotes);
        lemma_escaped_front(s, quotes);
        lemma_unescape_one(s[0], quotes, rest);
        lemma_plain_one(s[0], quotes);
        assert(seq![s[0]] + t =~= s);
        let e = escaped_char(s[0], quotes);
        assert forall|i: int| 0 <= i < (e + rest).len() implies #[trigger] (e + rest)[i] != '<' && (e
            + rest)[i] != '>' && (quotes ==> (e + rest)[i] != '"') by {
            if i >= e.len() {
                assert((e + rest)[i] == rest[i - e.len()]);
            } else {
                assert((e + rest)[i] == e[i]);
            }
        }
    }
}

/// A reference in the middle of a text stands for its character.
proof fn lemma_reference(a: Seq<char>, e: Seq<char>, b: Seq<char>, c: char)
    requires
        !a.contains('&'),
        !e.contains(';'),
        !b.contains('&'),
        !b.contains('<'),
        entity(e) == Some(c),
    ensures
        unescaped(a + seq!['&'] + e + seq![';'] + b) == Some(a.push(c) + b),
{
    let s = a + seq!['&'] + e + seq![';'] + b;
    let (i, k) = (a.len() as int, e.len() as int + 1);
    assert forall|j: int| 0 <= j < i implies #[trigger] s[j] != '&' by {
        assert(s[j] == a[j]);
    }
    lemma_index_at(s, '&', i);
    let t = s.skip(i);
    assert forall|j: int| 0 <= j < k implies #[trigger] t[j] != ';' by {
        if j > 0 {
            assert(t[j] == e[j - 1]);
        }
    }
    lemma_index_at(t, ';', k);
    assert(s.subrange(i + 1, i + k) =~= e);
    assert(s.skip(i + k + 1) =~= b);
    assert(s.take(i) =~= a);
    assert forall|j: int| 0 <= j < b.len() implies #[trigger] b[j] != '&' by {
        assert(b.contains(b[j]));
    }
    lemma_index_none(b, '&');
    assert(unescaped(b) == Some(b));
    assert(unescaped(s) == Some(s.take(i).push(c) + b));
}

/// A character can be written as its number, decimal or hexadecimal, anywhere
/// in a text.
pub proof fn law_numbered_characters(a: Seq<char>, c: char, b: Seq<char>)
    requires
        !a.contains('&'),
        !b.contains('&'),
        !b.contains('<'),
    ensures
        unescaped(a + seq!['&'] + (seq!['#'] + decimal(c as nat)) + seq![';'] + b) == Some(a.push(c) + b),
        unescaped(a + seq!['&'] + (seq!['#', 'x'] + hexadecimal(c as nat)) + seq![';'] + b) == Some(a.push(c) + b),
{
    let (d, h) = (decimal(c as nat), hexadecimal(c as nat));
    let (e, f) = (seq!['#'] + d, seq!['#', 'x'] + h);
    law_decimal(c as nat);
    law_hexadecimal(c as nat);
    reveal_strlit("amp");
    reveal_strlit("lt");
    reveal_strlit("gt");
    reveal_strlit("quot");
    reveal_strlit("apos");
    reveal_strlit("#x");
    reveal_strlit("#");
    assert(e[0] == '#' && f[0] == '#' && "amp"@[0] == 'a' && "lt"@[0] == 'l' && "gt"@[0] == 'g');
    assert("quot"@[0] == 'q' && "apos"@[0] == 'a');
    assert(e.skip(1) =~= d && f.skip(2) =~= h);
    assert(e[1] == d[0] && '0' <= d[0] <= '9');
    assert(e.take(2)[1] != 'x');
    assert(e.take(1) =~= "#"@);
    assert(f.take(2) =~= "#x"@);
    assert(vstd::utf8::is_scalar(c as u32));
    assert forall|j: int| 0 <= j < e.len() implies #[trigger] e[j] != ';' by {
        if j > 0 {
            assert('0' <= d[j - 1] <= '9');
        }
    }
    assert forall|j: int| 0 <= j < f.len() implies #[trigger] f[j] != ';' by {
        if j > 1 {
            assert(f[j] == h[j - 2]);
        }
    }
    lemma_reference(a, e, b, c);
    lemma_reference(a, f, b, c);
}

} // verus!
