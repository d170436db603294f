//! Redirect: a sender telling its receivers to use another source instead.
//!
//! The message is a metadata frame `<OMTRedirect NewAddress="..." />`, no NUL,
//! recognised by its `<OMTRedirect` prefix and read for the `NewAddress`
//! attribute. An empty address cancels the redirect.

use crate::text::{
    begins, between, chars_of, decode, find, from_index, has_char, index_of, is_text, lemma_index_at,
    lemma_index_of, lemma_trimmed_len, lemma_trimmed_start, push_str, starts_with, string_of, trim_end,
    trim_start, trimmed_end, trimmed_start, up_to,
};
use crate::xml::{escaped, law_escape_round_trip, push_escaped, unescape, unescaped};
use vstd::prelude::*;

verus! {

/// The message for an address.
pub open spec fn redirect_text(address: Seq<char>) -> Seq<char> {
    "<OMTRedirect NewAddress=\""@ + escaped(address, true) + "\" />"@
}

/// The message for `address`. `&`, `<`, `>` and `"` are escaped.
pub fn to_xml(address: &str) -> (r: String)
    ensures
        r@ == redirect_text(address@),
{
    let a: Vec<char> = chars_of(address);
    let mut v: Vec<char> = Vec::new();
    push_str(&mut v, "<OMTRedirect NewAddress=\"");
    push_escaped(&mut v, a.as_slice(), true);
    push_str(&mut v, "\" />");
    assert(v@ =~= redirect_text(address@));
    string_of(&v)
}

/// `s` without the NULs at its end.
pub open spec fn without_nuls(s: Seq<char>) -> Seq<char>
    decreases s.len(),
{
    if s.len() > 0 && s.last() == '\0' {
        without_nuls(s.drop_last())
    } else {
        s
    }
}

/// The value of `NewAddress` among some attributes, in either quote style.
pub open spec fn new_address(attrs: Seq<char>) -> Option<Seq<char>>
    decreases attrs.len(),
{
    let t = trimmed_start(attrs);
    proof {
        lemma_trimmed_len(attrs);
        lemma_index_of(t, '=');
    }
    if t.len() == attrs.len() || t.len() == 0 || t[0] == '/' || t[0] == '>' {
        None
    } else {
        match index_of(t, '=') {
            None => None,
            Some(eq) => {
                let name = trimmed_end(t.take(eq));
                let after = trimmed_start(t.skip(eq + 1));
                proof {
                    lemma_trimmed_len(t.skip(eq + 1));
                    lemma_index_of(after.skip(1), after[0]);
                }
                if name.contains('/') || name.contains('>') || name.contains('<') {
                    None
                } else if after.len() == 0 || (after[0] != '"' && after[0] != '\'') {
                    None
                } else {
                    match index_of(after.skip(1), after[0]) {
                        None => None,
                        Some(c) => if name == "NewAddress"@ {
                            unescaped(after.subrange(1, c + 1))
                        } else {
                            new_address(after.skip(c + 2))
                        },
                    }
                }
            },
        }
    }
}

/// The `NewAddress` of a redirect message.
pub open spec fn redirect_of(s: Seq<char>) -> Option<Seq<char>> {
    let t = without_nuls(s);
    if begins(t, "<OMTRedirect"@) {
        new_address(t.skip(12))
    } else {
        None
    }
}

/// The `NewAddress` of a payload.
pub open spec fn redirect_in(payload: Seq<u8>) -> Option<Seq<char>> {
    if vstd::utf8::valid_utf8(payload) {
        redirect_of(vstd::utf8::decode_utf8(payload))
    } else {
        None
    }
}

/// Cuts the NULs at the end off.
fn cut_nuls<'a>(s: &'a [char]) -> (r: &'a [char])
    ensures
        r@ == without_nuls(s@),
{
    let mut n: usize = s.len();
    assert(s@.take(n as int) =~= s@);
    while n > 0 && s[n - 1] == '\0'
        invariant
            n <= s@.len(),
            without_nuls(s@) == without_nuls(s@.take(n as int)),
        decreases n,
    {
        assert(s@.take(n as int).drop_last() =~= s@.take(n - 1));
        n = n - 1;
    }
    up_to(s, n)
}

/// Reads the attributes.
fn read_new_address(attrs: &[char]) -> (r: Option<Vec<char>>)
    ensures
        match r {
            Some(v) => new_address(attrs@) == Some(v@),
            None => new_address(attrs@) is None,
        },
{
    let mut rest: &[char] = attrs;
    loop
        invariant
            new_address(rest@) == new_address(attrs@),
        decreases rest@.len(),
    {
        let t: &[char] = trim_start(rest);
        proof {
            lemma_trimmed_len(rest@);
            lemma_index_of(t@, '=');
        }
        if t.len() == rest.len() || t.len() == 0 || t[0] == '/' || t[0] == '>' {
            // No white space before the attribute, or the end of the tag.
            return None;
        }
        let eq: usize = match find(t, '=') {
            Some(i) => i,
            None => {
                return None;
            },
        };
        let name: &[char] = trim_end(up_to(t, eq));
        if has_char(name, '/') || has_char(name, '>') || has_char(name, '<') {
            return None;
        }
        let after: &[char] = trim_start(from_index(t, eq + 1));
        proof {
            lemma_trimmed_len(t@.skip(eq + 1));
            lemma_index_of(after@.skip(1), after@[0]);
        }
        if after.len() == 0 || (after[0] != '"' && after[0] != '\'') {
            return None;
        }
        let c: usize = match find(from_index(after, 1), after[0]) {
            Some(i) => i,
            None => {
                return None;
            },
        };
        if is_text(name, "NewAddress") {
            return unescape(between(after, 1, c + 1));
        }
        rest = from_index(after, c + 2);
    }
}

/// The `NewAddress` of a redirect message: `Some("")` for a cancel, `None`
/// when the payload is not a redirect or the attribute cannot be read. This
/// reads just that one attribute of the root element, in either quote style,
/// and decodes the five predefined entities and numeric character references.
/// A trailing NUL is tolerated.
pub fn parse(payload: &[u8]) -> (r: Option<String>)
    ensures
        match r {
            Some(s) => redirect_in(payload@) == Some(s@),
            None => redirect_in(payload@) is None,
        },
{
    let text: String = match decode(payload) {
        Some(s) => s,
        None => {
            return None;
        },
    };
    let v: Vec<char> = chars_of(text.as_str());
    let t: &[char] = cut_nuls(v.as_slice());
    proof {
        reveal_strlit("<OMTRedirect");
    }
    if !starts_with(t, "<OMTRedirect") {
        return None;
    }
    match read_new_address(from_index(t, 12)) {
        Some(a) => Some(string_of(&a)),
        None => None,
    }
}

/// Every address that is written into a redirect message is read back from
/// it.
pub proof fn law_redirect_round_trip(address: Seq<char>)
    ensures
        redirect_in(vstd::utf8::encode_utf8(redirect_text(address))) == Some(address),
{
    let s = redirect_text(address);
    vstd::utf8::encode_utf8_valid_utf8(s);
    vstd::utf8::encode_utf8_decode_utf8(s);
    reveal_strlit("<OMTRedirect NewAddress=\"");
    reveal_strlit("<OMTRedirect");
    reveal_strlit("NewAddress");
    reveal_strlit("\" />");
    law_escape_round_trip(address, true);
    let e = escaped(address, true);
    assert(s.last() == '>');
    assert(without_nuls(s) == s);
    assert(s.take(12) =~= "<OMTRedirect"@);
    let attrs = s.skip(12);
    assert(attrs[0] == ' ' && attrs[1] == 'N');
    lemma_trimmed_start(attrs, 1);
    let t = attrs.skip(1);
    assert(t.take(10) =~= "NewAddress"@);
    assert(t[10] == '=');
    assert forall|k: int| 0 <= k < 10 implies #[trigger] t[k] != '=' by {
        assert(t[k] == "NewAddress"@[k]);
    }
    lemma_index_at(t, '=', 10);
    let name = t.take(10);
    crate::text::lemma_trimmed_end(name, 10);
    assert(name.take(10) =~= name);
    assert forall|k: int| 0 <= k < 10 implies name[k] != '/' && name[k] != '>' && name[k] != '<' by {
        assert(name[k] == "NewAddress"@[k]);
    }
    let after = t.skip(11);
    assert(after[0] == '"');
    lemma_trimmed_start(after, 0);
    assert(after.skip(0) =~= after);
    let n = e.len() as int;
    let inner = after.skip(1);
    assert forall|k: int| 0 <= k < n implies #[trigger] inner[k] != '"' by {
        assert(inner[k] == e[k]);
    }
    assert(inner[n] == '"');
    lemma_index_at(inner, '"', n);
    assert(after.subrange(1, n + 1) =~= e);
}

} // verus!
