//! Strings as sequences of characters.

use vstd::prelude::*;

verus! {

/// `String::push` appends one character.
pub assume_specification[ String::push ](s: &mut String, c: char)
    ensures
        final(s)@ == old(s)@.push(c),
;

/// The characters of a string.
pub fn chars_of(s: &str) -> (r: Vec<char>)
    ensures
        r@ == s@,
{
    let mut v: Vec<char> = Vec::new();
    for c in it: s.chars()
        invariant
            v@ == it.seq().take(it.index()),
            it.seq() == s@,
    {
        v.push(c);
        assert(it.seq().take(it.index()).push(c) =~= it.seq().take(it.index() + 1));
    }
    assert(v@ =~= s@);
    v
}

/// The string of some characters.
pub fn string_of(v: &Vec<char>) -> (r: String)
    ensures
        r@ == v@,
{
    let mut s: String = String::new();
    let mut i: usize = 0;
    assert(s@ =~= v@.take(0));
    while i < v.len()
        invariant
            i <= v@.len(),
            s@ == v@.take(i as int),
        decreases v@.len() - i,
    {
        s.push(v[i]);
        assert(v@.take(i as int).push(v@[i as int]) =~= v@.take(i + 1));
        i = i + 1;
    }
    assert(v@.take(i as int) =~= v@);
    s
}

/// Whether two byte strings are the same.
pub fn same_bytes(a: &[u8], b: &[u8]) -> (r: bool)
    ensures
        r == (a@ == b@),
{
    if a.len() != b.len() {
        return false;
    }
    let mut i: usize = 0;
    while i < a.len()
        invariant
            i <= a@.len(),
            a@.len() == b@.len(),
            forall|k: int| 0 <= k < i ==> a@[k] == b@[k],
        decreases a@.len() - i,
    {
        if a[i] != b[i] {
            return false;
        }
        i = i + 1;
    }
    assert(a@ =~= b@);
    true
}

/// `p` is how `s` starts.
pub open spec fn begins<T>(s: Seq<T>, p: Seq<T>) -> bool {
    s.len() >= p.len() && s.take(p.len() as int) == p
}

/// Whether a byte string starts with another one.
pub fn bytes_begin(s: &[u8], p: &[u8]) -> (r: bool)
    ensures
        r == begins(s@, p@),
{
    if s.len() < p.len() {
        return false;
    }
    let mut i: usize = 0;
    while i < p.len()
        invariant
            i <= p@.len() <= s@.len(),
            forall|k: int| 0 <= k < i ==> s@[k] == p@[k],
        decreases p@.len() - i,
    {
        if s[i] != p[i] {
            assert(s@.take(p@.len() as int)[i as int] != p@[i as int]);
            return false;
        }
        i = i + 1;
    }
    assert(s@.take(p@.len() as int) =~= p@);
    true
}

/// The bytes of ASCII text.
pub open spec fn ascii(s: Seq<char>) -> Seq<u8> {
    Seq::new(s.len(), |i: int| s[i] as u8)
}

/// ASCII text has one byte per character.
pub proof fn lemma_ascii(s: Seq<char>)
    requires
        forall|i: int| 0 <= i < s.len() ==> '\0' <= #[trigger] s[i] <= '~',
    ensures
        vstd::utf8::encode_utf8(s) == ascii(s),
{
    vstd::utf8::is_ascii_chars_encode_utf8(s);
    assert(vstd::utf8::encode_utf8(s) =~= ascii(s));
}

// ---------------------------------------------------------------------------
// Cutting up
// ---------------------------------------------------------------------------

/// White space: the characters with that property in Unicode.
pub open spec fn is_space(c: char) -> bool {
    ||| '\t' <= c <= '\r'
    ||| c == ' '
    ||| c == '\u{85}'
    ||| c == '\u{A0}'
    ||| c == '\u{1680}'
    ||| '\u{2000}' <= c <= '\u{200A}'
    ||| c == '\u{2028}'
    ||| c == '\u{2029}'
    ||| c == '\u{202F}'
    ||| c == '\u{205F}'
    ||| c == '\u{3000}'
}

/// Whether a character is white space.
pub fn space(c: char) -> (r: bool)
    ensures
        r == is_space(c),
{
    ('\t' <= c && c <= '\r') || c == ' ' || c == '\u{85}' || c == '\u{A0}' || c == '\u{1680}' || (
    '\u{2000}' <= c && c <= '\u{200A}') || c == '\u{2028}' || c == '\u{2029}' || c == '\u{202F}' || c
        == '\u{205F}' || c == '\u{3000}'
}

/// `s` without its leading white space.
pub open spec fn trimmed_start(s: Seq<char>) -> Seq<char>
    decreases s.len(),
{
    if s.len() > 0 && is_space(s[0]) {
        trimmed_start(s.skip(1))
    } else {
        s
    }
}

/// `s` without its trailing white space.
pub open spec fn trimmed_end(s: Seq<char>) -> Seq<char>
    decreases s.len(),
{
    if s.len() > 0 && is_space(s.last()) {
        trimmed_end(s.drop_last())
    } else {
        s
    }
}

/// `s` without the white space around it.
pub open spec fn trimmed(s: Seq<char>) -> Seq<char> {
    trimmed_end(trimmed_start(s))
}

/// Trimming does not lengthen.
pub proof fn lemma_trimmed_len(s: Seq<char>)
    ensures
        trimmed_start(s).len() <= s.len(),
    decreases s.len(),
{
    if s.len() > 0 && is_space(s[0]) {
        lemma_trimmed_len(s.skip(1));
    }
}

/// Trimming the end does not lengthen.
pub proof fn lemma_trimmed_end_len(s: Seq<char>)
    ensures
        trimmed_end(s).len() <= s.len(),
    decreases s.len(),
{
    if s.len() > 0 && is_space(s.last()) {
        lemma_trimmed_end_len(s.drop_last());
    }
}

/// Trimming cuts a prefix off.
pub proof fn lemma_trimmed_start(s: Seq<char>, i: int)
    requires
        0 <= i <= s.len(),
        forall|k: int| 0 <= k < i ==> is_space(#[trigger] s[k]),
        i < s.len() ==> !is_space(s[i]),
    ensures
        trimmed_start(s) == s.skip(i),
    decreases i,
{
    if i == 0 {
        assert(s.skip(0) =~= s);
    } else {
        assert(is_space(s[0]));
        let t = s.skip(1);
        assert forall|k: int| 0 <= k < i - 1 implies is_space(#[trigger] t[k]) by {
            assert(is_space(s[k + 1]));
        }
        lemma_trimmed_start(t, i - 1);
        assert(t.skip(i - 1) =~= s.skip(i));
    }
}

/// Trimming cuts a suffix off.
pub proof fn lemma_trimmed_end(s: Seq<char>, n: int)
    requires
        0 <= n <= s.len(),
        forall|k: int| n <= k < s.len() ==> is_space(#[trigger] s[k]),
        n > 0 ==> !is_space(s[n - 1]),
    ensures
        trimmed_end(s) == s.take(n),
    decreases s.len() - n,
{
    if n == s.len() {
        assert(s.take(n) =~= s);
    } else {
        assert(is_space(s[s.len() - 1]));
        let t = s.drop_last();
        lemma_trimmed_end(t, n);
        assert(t.take(n) =~= s.take(n));
    }
}

/// Cuts leading white space off.
pub fn trim_start<'a>(s: &'a [char]) -> (r: &'a [char])
    ensures
        r@ == trimmed_start(s@),
{
    let mut i: usize = 0;
    while i < s.len() && space(s[i])
        invariant
            i <= s@.len(),
            forall|k: int| 0 <= k < i ==> is_space(#[trigger] s@[k]),
        decreases s@.len() - i,
    {
        i = i + 1;
    }
    proof {
        lemma_trimmed_start(s@, i as int);
        assert(s@.subrange(i as int, s@.len() as int) =~= s@.skip(i as int));
    }
    vstd::slice::slice_subrange(s, i, s.len())
}

/// Cuts trailing white space off.
pub fn trim_end<'a>(s: &'a [char]) -> (r: &'a [char])
    ensures
        r@ == trimmed_end(s@),
{
    let mut n: usize = s.len();
    while n > 0 && space(s[n - 1])
        invariant
            n <= s@.len(),
            forall|k: int| n <= k < s@.len() ==> is_space(#[trigger] s@[k]),
        decreases n,
    {
        n = n - 1;
    }
    proof {
        lemma_trimmed_end(s@, n as int);
        assert(s@.subrange(0, n as int) =~= s@.take(n as int));
    }
    vstd::slice::slice_subrange(s, 0, n)
}

/// Cuts the white space around off.
pub fn trim<'a>(s: &'a [char]) -> (r: &'a [char])
    ensures
        r@ == trimmed(s@),
{
    trim_end(trim_start(s))
}

/// Where `c` first stands.
pub open spec fn index_of(s: Seq<char>, c: char) -> Option<int>
    decreases s.len(),
{
    if s.len() == 0 {
        None
    } else if s[0] == c {
        Some(0)
    } else {
        match index_of(s.skip(1), c) {
            Some(i) => Some(i + 1),
            None => None,
        }
    }
}

/// The first place.
pub proof fn lemma_index_at(s: Seq<char>, c: char, i: int)
    requires
        0 <= i < s.len(),
        s[i] == c,
        forall|k: int| 0 <= k < i ==> #[trigger] s[k] != c,
    ensures
        index_of(s, c) == Some(i),
    decreases i,
{
    if i > 0 {
        assert(s[0] != c);
        let t = s.skip(1);
        assert forall|k: int| 0 <= k < i - 1 implies #[trigger] t[k] != c by {
            assert(s[k + 1] != c);
        }
        lemma_index_at(t, c, i - 1);
    }
}

/// No place.
pub proof fn lemma_index_none(s: Seq<char>, c: char)
    requires
        forall|k: int| 0 <= k < s.len() ==> #[trigger] s[k] != c,
    ensures
        index_of(s, c) is None,
    decreases s.len(),
{
    if s.len() > 0 {
        assert(s[0] != c);
        let t = s.skip(1);
        assert forall|k: int| 0 <= k < t.len() implies #[trigger] t[k] != c by {
            assert(s[k + 1] != c);
        }
        lemma_index_none(t, c);
    }
}

/// What [`index_of`] tells.
pub proof fn lemma_index_of(s: Seq<char>, c: char)
    ensures
        match index_of(s, c) {
            Some(i) => {
                &&& 0 <= i < s.len()
                &&& s[i] == c
                &&& forall|k: int| 0 <= k < i ==> #[trigger] s[k] != c
            },
            None => forall|k: int| 0 <= k < s.len() ==> #[trigger] s[k] != c,
        },
    decreases s.len(),
{
    if s.len() > 0 && s[0] != c {
        let t = s.skip(1);
        lemma_index_of(t, c);
        match index_of(t, c) {
            Some(i) => {
                assert forall|k: int| 0 <= k < i + 1 implies #[trigger] s[k] != c by {
                    if k > 0 {
                        assert(t[k - 1] != c);
                    }
                }
            },
            None => {
                assert forall|k: int| 0 <= k < s.len() implies #[trigger] s[k] != c by {
                    if k > 0 {
                        assert(t[k - 1] != c);
                    }
                }
            },
        }
    }
}

/// Finds the first `c`.
pub fn find(s: &[char], c: char) -> (r: Option<usize>)
    ensures
        match r {
            Some(i) => index_of(s@, c) == Some(i as int) && i < s@.len(),
            None => index_of(s@, c) is None,
        },
{
    let mut i: usize = 0;
    while i < s.len()
        invariant
            i <= s@.len(),
            forall|k: int| 0 <= k < i ==> #[trigger] s@[k] != c,
        decreases s@.len() - i,
    {
        if s[i] == c {
            proof {
                lemma_index_at(s@, c, i as int);
            }
            return Some(i);
        }
        i = i + 1;
    }
    proof {
        lemma_index_none(s@, c);
    }
    None
}

/// Where `c` last stands.
pub open spec fn last_index_of(s: Seq<char>, c: char) -> Option<int>
    decreases s.len(),
{
    if s.len() == 0 {
        None
    } else if s.last() == c {
        Some(s.len() - 1)
    } else {
        last_index_of(s.drop_last(), c)
    }
}

/// Nothing is found behind the last place.
proof fn lemma_last_index(s: Seq<char>, c: char, n: int)
    requires
        0 <= n <= s.len(),
        forall|k: int| n <= k < s.len() ==> #[trigger] s[k] != c,
    ensures
        last_index_of(s, c) == last_index_of(s.take(n), c),
    decreases s.len() - n,
{
    if n == s.len() {
        assert(s.take(n) =~= s);
    } else {
        assert(s[s.len() - 1] != c);
        let t = s.drop_last();
        lemma_last_index(t, c, n);
        assert(t.take(n) =~= s.take(n));
    }
}

/// The last place.
pub proof fn lemma_last_index_at(s: Seq<char>, c: char, i: int)
    requires
        0 <= i < s.len(),
        s[i] == c,
        forall|k: int| i < k < s.len() ==> #[trigger] s[k] != c,
    ensures
        last_index_of(s, c) == Some(i),
{
    lemma_last_index(s, c, i + 1);
    assert(s.take(i + 1).last() == c);
}

/// What [`last_index_of`] tells.
pub proof fn lemma_last_index_of(s: Seq<char>, c: char)
    ensures
        match last_index_of(s, c) {
            Some(i) => 0 <= i < s.len() && s[i] == c,
            None => true,
        },
    decreases s.len(),
{
    if s.len() > 0 && s.last() != c {
        lemma_last_index_of(s.drop_last(), c);
    }
}

/// Finds the last `c`.
pub fn find_last(s: &[char], c: char) -> (r: Option<usize>)
    ensures
        match r {
            Some(i) => last_index_of(s@, c) == Some(i as int) && i < s@.len(),
            None => last_index_of(s@, c) is None,
        },
{
    let mut n: usize = s.len();
    while n > 0
        invariant
            n <= s@.len(),
            forall|k: int| n <= k < s@.len() ==> #[trigger] s@[k] != c,
        decreases n,
    {
        if s[n - 1] == c {
            proof {
                lemma_last_index(s@, c, n as int);
            }
            return Some(n - 1);
        }
        n = n - 1;
    }
    proof {
        lemma_last_index(s@, c, 0);
    }
    None
}

/// Whether two texts are the same.
pub fn same_text(a: &[char], b: &[char]) -> (r: bool)
    ensures
        r == (a@ == b@),
{
    if a.len() != b.len() {
        return false;
    }
    let mut i: usize = 0;
    while i < a.len()
        invariant
            i <= a@.len(),
            a@.len() == b@.len(),
            forall|k: int| 0 <= k < i ==> a@[k] == b@[k],
        decreases a@.len() - i,
    {
        if a[i] != b[i] {
            return false;
        }
        i = i + 1;
    }
    assert(a@ =~= b@);
    true
}

/// Whether a text is a given string.
pub fn is_text(a: &[char], b: &str) -> (r: bool)
    ensures
        r == (a@ == b@),
{
    let v: Vec<char> = chars_of(b);
    same_text(a, v.as_slice())
}

/// Whether a text starts with a given string.
pub fn starts_with(s: &[char], p: &str) -> (r: bool)
    ensures
        r == begins(s@, p@),
{
    let v: Vec<char> = chars_of(p);
    if s.len() < v.len() {
        return false;
    }
    let head: &[char] = vstd::slice::slice_subrange(s, 0, v.len());
    assert(head@ =~= s@.take(p@.len() as int));
    same_text(head, v.as_slice())
}

/// Whether `c` occurs.
pub fn has_char(s: &[char], c: char) -> (r: bool)
    ensures
        r == s@.contains(c),
{
    match find(s, c) {
        Some(i) => {
            proof {
                lemma_index_of(s@, c);
                assert(s@[i as int] == c);
            }
            true
        },
        None => {
            proof {
                lemma_index_of(s@, c);
            }
            false
        },
    }
}

/// The part of a text from `i` on.
pub fn from_index<'a>(s: &'a [char], i: usize) -> (r: &'a [char])
    requires
        i <= s@.len(),
    ensures
        r@ == s@.skip(i as int),
{
    assert(s@.subrange(i as int, s@.len() as int) =~= s@.skip(i as int));
    vstd::slice::slice_subrange(s, i, s.len())
}

/// The part of a text before `i`.
pub fn up_to<'a>(s: &'a [char], i: usize) -> (r: &'a [char])
    requires
        i <= s@.len(),
    ensures
        r@ == s@.take(i as int),
{
    assert(s@.subrange(0, i as int) =~= s@.take(i as int));
    vstd::slice::slice_subrange(s, 0, i)
}

/// The text between two places.
pub fn between<'a>(s: &'a [char], i: usize, j: usize) -> (r: &'a [char])
    requires
        i <= j <= s@.len(),
    ensures
        r@ == s@.subrange(i as int, j as int),
{
    vstd::slice::slice_subrange(s, i, j)
}

/// Whether a sequence ends with another.
pub open spec fn ends(s: Seq<char>, p: Seq<char>) -> bool {
    p.len() <= s.len() && s.skip(s.len() - p.len()) == p
}

/// Whether a text ends with a given string.
pub fn ends_with(s: &[char], p: &str) -> (r: bool)
    ensures
        r == ends(s@, p@),
        r ==> p@.len() <= s@.len(),
{
    let v: Vec<char> = chars_of(p);
    if s.len() < v.len() {
        return false;
    }
    same_text(from_index(s, s.len() - v.len()), v.as_slice())
}

/// An ASCII capital as its small letter, any other character as it is.
pub open spec fn lower(c: char) -> char {
    if 'A' <= c <= 'Z' {
        (c as int + 32) as char
    } else {
        c
    }
}

/// Whether two texts are equal but for the case of ASCII letters.
pub open spec fn same_letters(a: Seq<char>, b: Seq<char>) -> bool {
    &&& a.len() == b.len()
    &&& forall|i: int| 0 <= i < a.len() ==> lower(#[trigger] a[i]) == lower(b[i])
}

/// An ASCII capital as its small letter.
fn to_lower(c: char) -> (r: char)
    ensures
        r == lower(c),
{
    if 'A' <= c && c <= 'Z' {
        (c as u8 + 32) as char
    } else {
        c
    }
}

/// Whether two texts are equal but for the case of ASCII letters.
pub fn eq_ignore_case(a: &[char], b: &str) -> (r: bool)
    ensures
        r == same_letters(a@, b@),
{
    let v: Vec<char> = chars_of(b);
    if a.len() != v.len() {
        return false;
    }
    let mut i: usize = 0;
    while i < a.len()
        invariant
            i <= a@.len(),
            a@.len() == v@.len(),
            v@ == b@,
            forall|k: int| 0 <= k < i ==> lower(#[trigger] a@[k]) == lower(b@[k]),
        decreases a@.len() - i,
    {
        if to_lower(a[i]) != to_lower(v[i]) {
            assert(lower(a@[i as int]) != lower(b@[i as int]));
            return false;
        }
        i = i + 1;
    }
    true
}

/// The place of the first of some characters, or the end.
pub open spec fn first_of(s: Seq<char>, stops: Seq<char>) -> int
    decreases s.len(),
{
    if s.len() == 0 || stops.contains(s[0]) {
        0
    } else {
        1 + first_of(s.skip(1), stops)
    }
}

/// The first of some characters.
pub proof fn lemma_first_of(s: Seq<char>, stops: Seq<char>, i: int)
    requires
        0 <= i <= s.len(),
        i < s.len() ==> stops.contains(s[i]),
        forall|k: int| 0 <= k < i ==> !stops.contains(#[trigger] s[k]),
    ensures
        first_of(s, stops) == i,
    decreases i,
{
    if i > 0 {
        assert(!stops.contains(s[0]));
        let t = s.skip(1);
        assert forall|k: int| 0 <= k < i - 1 implies !stops.contains(#[trigger] t[k]) by {
            assert(!stops.contains(s[k + 1]));
        }
        lemma_first_of(t, stops, i - 1);
    }
}

/// What [`first_of`] tells.
pub proof fn lemma_first_of_is(s: Seq<char>, stops: Seq<char>)
    ensures
        0 <= first_of(s, stops) <= s.len(),
        forall|k: int| 0 <= k < first_of(s, stops) ==> !stops.contains(#[trigger] s[k]),
    decreases s.len(),
{
    if s.len() > 0 && !stops.contains(s[0]) {
        let t = s.skip(1);
        lemma_first_of_is(t, stops);
        assert forall|k: int| 0 <= k < first_of(s, stops) implies !stops.contains(#[trigger] s[k]) by {
            if k > 0 {
                assert(t[k - 1] == s[k]);
            }
        }
    }
}

/// Finds the first of some characters.
pub fn find_first_of(s: &[char], stops: &[char]) -> (r: usize)
    ensures
        r == first_of(s@, stops@),
        r <= s@.len(),
{
    let mut i: usize = 0;
    while i < s.len() && !has_char(stops, s[i])
        invariant
            i <= s@.len(),
            forall|k: int| 0 <= k < i ==> !stops@.contains(#[trigger] s@[k]),
        decreases s@.len() - i,
    {
        i = i + 1;
    }
    proof {
        lemma_first_of(s@, stops@, i as int);
    }
    i
}

// ---------------------------------------------------------------------------
// Order
// ---------------------------------------------------------------------------

/// Whether a text comes before another, character by character.
pub open spec fn text_before(a: Seq<char>, b: Seq<char>) -> bool
    decreases a.len(),
{
    if b.len() == 0 {
        false
    } else if a.len() == 0 {
        true
    } else if a[0] != b[0] {
        a[0] < b[0]
    } else {
        text_before(a.skip(1), b.skip(1))
    }
}

/// No text comes before itself, and of two different texts exactly one comes
/// first.
pub proof fn law_text_order(a: Seq<char>, b: Seq<char>)
    ensures
        a == b ==> !text_before(a, b),
        a != b ==> text_before(a, b) != text_before(b, a),
    decreases a.len(),
{
    if a.len() > 0 && b.len() > 0 && a[0] == b[0] {
        law_text_order(a.skip(1), b.skip(1));
        if a.skip(1) == b.skip(1) {
            assert(a =~= b) by {
                assert forall|i: int| 0 <= i < a.len() implies a[i] == b[i] by {
                    if i > 0 {
                        assert(a.skip(1)[i - 1] == b.skip(1)[i - 1]);
                    }
                }
                assert(a.skip(1).len() == b.skip(1).len());
            }
        }
    } else if a.len() == 0 && b.len() == 0 {
        assert(a =~= b);
    }
}

/// The order of texts is transitive.
pub proof fn law_text_order_transitive(a: Seq<char>, b: Seq<char>, c: Seq<char>)
    requires
        text_before(a, b),
        text_before(b, c),
    ensures
        text_before(a, c),
    decreases a.len(),
{
    if a.len() > 0 && a[0] == b[0] && b[0] == c[0] {
        law_text_order_transitive(a.skip(1), b.skip(1), c.skip(1));
    }
}

/// Whether a text comes before another.
pub fn comes_before(a: &[char], b: &[char]) -> (r: bool)
    ensures
        r == text_before(a@, b@),
{
    let mut i: usize = 0;
    assert(a@.skip(0) =~= a@);
    assert(b@.skip(0) =~= b@);
    while i < a.len() && i < b.len() && a[i] == b[i]
        invariant
            i <= a@.len(),
            i <= b@.len(),
            text_before(a@, b@) == text_before(a@.skip(i as int), b@.skip(i as int)),
        decreases a@.len() - i,
    {
        assert(a@.skip(i as int).skip(1) =~= a@.skip(i + 1));
        assert(b@.skip(i as int).skip(1) =~= b@.skip(i + 1));
        i = i + 1;
    }
    if i >= b.len() {
        false
    } else if i >= a.len() {
        true
    } else {
        a[i] < b[i]
    }
}

// ---------------------------------------------------------------------------
// Numbers
// ---------------------------------------------------------------------------

/// The value of a digit.
pub open spec fn digit_of(c: char, radix: int) -> Option<int> {
    let v = if '0' <= c <= '9' {
        c as int - '0' as int
    } else if 'a' <= c <= 'z' {
        c as int - 'a' as int + 10
    } else if 'A' <= c <= 'Z' {
        c as int - 'A' as int + 10
    } else {
        99
    };
    if v < radix {
        Some(v)
    } else {
        None
    }
}

/// The number that some digits write.
pub open spec fn digits_value(s: Seq<char>, radix: int) -> Option<int>
    decreases s.len(),
{
    if s.len() == 0 {
        Some(0)
    } else {
        match (digits_value(s.drop_last(), radix), digit_of(s.last(), radix)) {
            (Some(v), Some(d)) => Some(v * radix + d),
            _ => None,
        }
    }
}

/// An unsigned number of at most `max`, with an optional plus sign.
pub open spec fn unsigned_of(s: Seq<char>, radix: int, max: int) -> Option<int> {
    let t = if s.len() > 0 && s[0] == '+' {
        s.skip(1)
    } else {
        s
    };
    if t.len() == 0 {
        None
    } else {
        match digits_value(t, radix) {
            Some(v) => if v <= max {
                Some(v)
            } else {
                None
            },
            None => None,
        }
    }
}

/// The value of a digit.
pub fn digit(c: char, radix: u64) -> (r: Option<u64>)
    requires
        radix == 10 || radix == 16,
    ensures
        match r {
            Some(v) => digit_of(c, radix as int) == Some(v as int) && v < radix,
            None => digit_of(c, radix as int) is None,
        },
{
    let v: u64 = if '0' <= c && c <= '9' {
        (c as u32 - '0' as u32) as u64
    } else if 'a' <= c && c <= 'z' {
        (c as u32 - 'a' as u32) as u64 + 10
    } else if 'A' <= c && c <= 'Z' {
        (c as u32 - 'A' as u32) as u64 + 10
    } else {
        99
    };
    if v < radix {
        Some(v)
    } else {
        None
    }
}

/// More digits make no smaller number.
pub proof fn lemma_digits_grow(s: Seq<char>, radix: int, n: int)
    requires
        0 <= n <= s.len(),
        radix >= 1,
    ensures
        match digits_value(s, radix) {
            Some(v) => match digits_value(s.take(n), radix) {
                Some(w) => 0 <= w <= v,
                None => false,
            },
            None => true,
        },
    decreases s.len(),
{
    if n == s.len() {
        assert(s.take(n) =~= s);
        if n > 0 {
            lemma_digits_grow(s.drop_last(), radix, n - 1);
            match digits_value(s, radix) {
                Some(v) => {
                    let w = digits_value(s.drop_last(), radix)->0;
                    assert(w * radix >= 0) by (nonlinear_arith)
                        requires
                            w >= 0,
                            radix >= 1,
                    ;
                },
                None => {},
            }
        }
    } else {
        lemma_digits_grow(s.drop_last(), radix, n);
        assert(s.drop_last().take(n) =~= s.take(n));
        match digits_value(s, radix) {
            Some(v) => {
                let w = digits_value(s.drop_last(), radix)->0;
                assert(w * radix >= w) by (nonlinear_arith)
                    requires
                        w >= 0,
                        radix >= 1,
                ;
            },
            None => {},
        }
    }
}

/// Reads digits, up to `max`.
pub fn read_digits(t: &[char], radix: u64, max: u64) -> (r: Option<u64>)
    requires
        radix == 10 || radix == 16,
    ensures
        match r {
            Some(v) => digits_value(t@, radix as int) == Some(v as int) && v <= max,
            None => match digits_value(t@, radix as int) {
                Some(v) => v > max,
                None => true,
            },
        },
{
    let mut v: u64 = 0;
    let mut i: usize = 0;
    assert(t@.take(0) =~= Seq::empty());
    while i < t.len()
        invariant
            i <= t@.len(),
            radix == 10 || radix == 16,
            v <= max,
            digits_value(t@.take(i as int), radix as int) == Some(v as int),
        decreases t@.len() - i,
    {
        proof {
            assert(t@.take(i + 1).drop_last() =~= t@.take(i as int));
            lemma_digits_grow(t@, radix as int, i + 1);
        }
        match digit(t[i], radix) {
            None => {
                return None;
            },
            Some(d) => {
                assert(v * radix + d <= 0xFFFF_FFFF_FFFF_FFFF * 16 + 16) by (nonlinear_arith)
                    requires
                        v <= 0xFFFF_FFFF_FFFF_FFFF,
                        radix <= 16,
                        d < radix,
                ;
                let w: u128 = v as u128 * radix as u128 + d as u128;
                if w > max as u128 {
                    return None;
                }
                v = w as u64;
            },
        }
        i = i + 1;
    }
    assert(t@.take(i as int) =~= t@);
    Some(v)
}

/// Parses an unsigned number of at most `max`.
pub fn parse_unsigned(s: &[char], radix: u64, max: u64) -> (r: Option<u64>)
    requires
        radix == 10 || radix == 16,
    ensures
        match r {
            Some(v) => unsigned_of(s@, radix as int, max as int) == Some(v as int) && v <= max,
            None => unsigned_of(s@, radix as int, max as int) is None,
        },
{
    let t: &[char] = if s.len() > 0 && s[0] == '+' {
        from_index(s, 1)
    } else {
        s
    };
    if t.len() == 0 {
        return None;
    }
    read_digits(t, radix, max)
}

/// A number from `-max - 1` to `max`, with an optional sign.
pub open spec fn signed_of(s: Seq<char>, max: int) -> Option<int> {
    if s.len() > 1 && s[0] == '-' {
        match digits_value(s.skip(1), 10) {
            Some(v) => if v <= max + 1 {
                Some(-v)
            } else {
                None
            },
            None => None,
        }
    } else {
        unsigned_of(s, 10, max)
    }
}

/// Parses a number that fits an `i32`.
pub fn parse_signed(s: &[char]) -> (r: Option<i32>)
    ensures
        match r {
            Some(v) => signed_of(s@, 0x7FFF_FFFF) == Some(v as int),
            None => signed_of(s@, 0x7FFF_FFFF) is None,
        },
{
    if s.len() > 1 && s[0] == '-' {
        match read_digits(from_index(s, 1), 10, 0x8000_0000) {
            Some(v) => Some((0 - v as i64) as i32),
            None => None,
        }
    } else {
        match parse_unsigned(s, 10, 0x7FFF_FFFF) {
            Some(v) => Some(v as i32),
            None => None,
        }
    }
}

/// The decimal digits of a number.
pub open spec fn decimal(n: nat) -> Seq<char>
    decreases n,
{
    if n < 10 {
        seq![('0' as int + n) as char]
    } else {
        decimal(n / 10).push(('0' as int + n % 10) as char)
    }
}

/// The character of a digit below 10.
fn digit_char(d: u64) -> (r: char)
    requires
        d < 10,
    ensures
        r == ('0' as int + d) as char,
{
    match d {
        0 => '0',
        1 => '1',
        2 => '2',
        3 => '3',
        4 => '4',
        5 => '5',
        6 => '6',
        7 => '7',
        8 => '8',
        _ => '9',
    }
}

/// Writes a number in decimal.
pub fn decimal_chars(n: u64) -> (r: Vec<char>)
    ensures
        r@ == decimal(n as nat),
    decreases n,
{
    if n < 10 {
        let mut v: Vec<char> = Vec::new();
        v.push(digit_char(n));
        assert(v@ =~= decimal(n as nat));
        v
    } else {
        let mut v: Vec<char> = decimal_chars(n / 10);
        v.push(digit_char(n % 10));
        v
    }
}

/// The decimal digits of a number are read back as that number.
pub proof fn law_decimal(n: nat)
    ensures
        digits_value(decimal(n), 10) == Some(n as int),
        decimal(n).len() >= 1,
        n < 100 ==> decimal(n).len() <= 2,
        n < 1000 ==> decimal(n).len() <= 3,
        n >= 1 ==> decimal(n)[0] != '0',
        n < 10 ==> decimal(n).len() == 1,
        forall|i: int| 0 <= i < decimal(n).len() ==> '0' <= #[trigger] decimal(n)[i] <= '9',
    decreases n,
{
    if n < 10 {
        assert(decimal(n).drop_last() =~= Seq::empty());
        assert(digits_value(Seq::<char>::empty(), 10) == Some(0int));
    } else {
        law_decimal(n / 10);
        assert(decimal(n).drop_last() =~= decimal(n / 10));
    }
}

/// A hexadecimal digit.
pub open spec fn hex_digit(d: int) -> char {
    if d < 10 {
        ('0' as int + d) as char
    } else {
        ('a' as int + d - 10) as char
    }
}

/// The hexadecimal digits of a number, in lower case.
pub open spec fn hexadecimal(n: nat) -> Seq<char>
    decreases n,
{
    if n < 16 {
        seq![hex_digit(n as int)]
    } else {
        hexadecimal(n / 16).push(hex_digit((n % 16) as int))
    }
}

/// The character of a digit below 16.
fn hex_digit_char(d: u64) -> (r: char)
    requires
        d < 16,
    ensures
        r == hex_digit(d as int),
{
    match d {
        10 => 'a',
        11 => 'b',
        12 => 'c',
        13 => 'd',
        14 => 'e',
        15 => 'f',
        _ => digit_char(d),
    }
}

/// Writes a number in hexadecimal.
pub fn hexadecimal_chars(n: u64) -> (r: Vec<char>)
    ensures
        r@ == hexadecimal(n as nat),
    decreases n,
{
    if n < 16 {
        let mut v: Vec<char> = Vec::new();
        v.push(hex_digit_char(n));
        assert(v@ =~= hexadecimal(n as nat));
        v
    } else {
        let mut v: Vec<char> = hexadecimal_chars(n / 16);
        v.push(hex_digit_char(n % 16));
        v
    }
}

/// The hexadecimal digits of a number are read back as that number.
pub proof fn law_hexadecimal(n: nat)
    ensures
        digits_value(hexadecimal(n), 16) == Some(n as int),
        hexadecimal(n).len() >= 1,
        n < 0x10 ==> hexadecimal(n).len() <= 1,
        n < 0x100 ==> hexadecimal(n).len() <= 2,
        n < 0x1000 ==> hexadecimal(n).len() <= 3,
        n < 0x10000 ==> hexadecimal(n).len() <= 4,
        forall|i: int|
            0 <= i < hexadecimal(n).len() ==> #[trigger] hexadecimal(n)[i] != ':' && hexadecimal(n)[i] != '.'
                && hexadecimal(n)[i] != ';' && hexadecimal(n)[i] != '+',
    decreases n,
{
    if n < 16 {
        assert(hexadecimal(n).drop_last() =~= Seq::empty());
        assert(digits_value(Seq::<char>::empty(), 16) == Some(0int));
    } else {
        law_hexadecimal(n / 16);
        assert(hexadecimal(n).drop_last() =~= hexadecimal(n / 16));
        assert forall|i: int| 0 <= i < hexadecimal(n).len() implies #[trigger] hexadecimal(n)[i] != ':'
            && hexadecimal(n)[i] != '.' by {
            if i < hexadecimal(n / 16).len() {
                assert(hexadecimal(n)[i] == hexadecimal(n / 16)[i]);
            }
        }
    }
}

/// Appends characters.
pub fn push_chars(out: &mut Vec<char>, s: &[char])
    ensures
        final(out)@ == old(out)@ + s@,
{
    let mut i: usize = 0;
    assert(old(out)@ + s@.take(0) =~= old(out)@);
    while i < s.len()
        invariant
            i <= s@.len(),
            out@ == old(out)@ + s@.take(i as int),
        decreases s@.len() - i,
    {
        out.push(s[i]);
        assert(old(out)@ + s@.take(i + 1) =~= (old(out)@ + s@.take(i as int)).push(s@[i as int]));
        i = i + 1;
    }
    assert(s@.take(i as int) =~= s@);
}

/// Appends a string.
pub fn push_str(out: &mut Vec<char>, s: &str)
    ensures
        final(out)@ == old(out)@ + s@,
{
    let v: Vec<char> = chars_of(s);
    push_chars(out, v.as_slice());
}

/// Appends a number in decimal.
pub fn push_decimal(out: &mut Vec<char>, n: u64)
    ensures
        final(out)@ == old(out)@ + decimal(n as nat),
{
    let d: Vec<char> = decimal_chars(n);
    push_chars(out, d.as_slice());
}

/// A number in decimal, with its sign if it is negative.
pub open spec fn signed_decimal(n: int) -> Seq<char> {
    if n < 0 {
        "-"@ + decimal((-n) as nat)
    } else {
        decimal(n as nat)
    }
}

/// Appends a number in decimal, with its sign if it is negative.
pub fn push_signed(out: &mut Vec<char>, n: i32)
    ensures
        final(out)@ == old(out)@ + signed_decimal(n as int),
{
    let v: i64 = n as i64;
    if v < 0 {
        push_str(out, "-");
        push_decimal(out, (-v) as u64);
        assert(old(out)@ + "-"@ + decimal((-n) as nat) =~= old(out)@ + signed_decimal(n as int));
    } else {
        push_decimal(out, v as u64);
    }
}

// ---------------------------------------------------------------------------
// Bytes
// ---------------------------------------------------------------------------

/// `char::from_u32` gives the character with this code, if there is one.
pub assume_specification[ char::from_u32 ](n: u32) -> (r: Option<char>)
    ensures
        match r {
            Some(c) => vstd::utf8::is_scalar(n) && c == n as char,
            None => !vstd::utf8::is_scalar(n),
        },
;

/// `std::str::from_utf8` accepts exactly the valid UTF-8 strings and gives
/// their characters.
#[verifier::external_body]
pub(crate) fn decode(bytes: &[u8]) -> (r: Option<String>)
    ensures
        match r {
            Some(s) => vstd::utf8::valid_utf8(bytes@) && s@ == vstd::utf8::decode_utf8(bytes@),
            None => !vstd::utf8::valid_utf8(bytes@),
        },
{
    std::str::from_utf8(bytes).ok().map(|s| s.to_owned())
}

/// A payload without the NULs at its end.
pub open spec fn without_zeros(s: Seq<u8>) -> Seq<u8>
    decreases s.len(),
{
    if s.len() > 0 && s.last() == 0 {
        without_zeros(s.drop_last())
    } else {
        s
    }
}

/// Cuts the NULs at the end off.
pub fn cut_zeros<'a>(s: &'a [u8]) -> (r: &'a [u8])
    ensures
        r@ == without_zeros(s@),
{
    let mut n: usize = s.len();
    assert(s@.take(n as int) =~= s@);
    while n > 0 && s[n - 1] == 0
        invariant
            n <= s@.len(),
            without_zeros(s@) == without_zeros(s@.take(n as int)),
        decreases n,
    {
        assert(s@.take(n as int).drop_last() =~= s@.take(n - 1));
        n = n - 1;
    }
    assert(s@.subrange(0, n as int) =~= s@.take(n as int));
    vstd::slice::slice_subrange(s, 0, n)
}

/// What `String::from_utf8_lossy` makes of bytes.
pub uninterp spec fn lossy(bytes: Seq<u8>) -> Seq<char>;

/// `String::from_utf8_lossy` gives the characters of valid UTF-8, and
/// replacement characters for what is not. Its result is named [`lossy`].
#[verifier::external_body]
pub(crate) fn decode_lossy(bytes: &[u8]) -> (r: String)
    ensures
        r@ == lossy(bytes@),
        vstd::utf8::valid_utf8(bytes@) ==> r@ == vstd::utf8::decode_utf8(bytes@),
{
    String::from_utf8_lossy(bytes).into_owned()
}

} // verus!
