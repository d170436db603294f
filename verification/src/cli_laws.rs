//! What the arguments of the command-line tool mean, and what a watch counts.

use crate::cli::{flag_at, fps_of, heard_all, option_of, size_of, Monitor};
use crate::frame::ExtendedHeader;
use crate::text::{decimal, digits_value, law_decimal, lemma_index_at, signed_of, unsigned_of};
use vstd::prelude::*;

verus! {

/// A number is read as it is written.
proof fn lemma_number(n: nat, max: int)
    requires
        n <= max,
    ensures
        unsigned_of(decimal(n), 10, max) == Some(n as int),
{
    law_decimal(n);
    assert('0' <= decimal(n)[0]);
}

/// Every size is read as it is written, width first, and so is every whole
/// frame rate.
pub proof fn law_numbers_are_read(w: usize, h: usize, rate: nat)
    requires
        rate <= i32::MAX,
    ensures
        size_of(decimal(w as nat) + seq!['x'] + decimal(h as nat)) == Some((w as int, h as int)),
        fps_of(decimal(rate)) == Some((rate as int, 1int)),
{
    let (a, b) = (decimal(w as nat), decimal(h as nat));
    let s = a + seq!['x'] + b;
    law_decimal(w as nat);
    lemma_number(w as nat, usize::MAX as int);
    lemma_number(h as nat, usize::MAX as int);
    lemma_index_at(s, 'x', a.len() as int);
    assert(s.take(a.len() as int) =~= a);
    assert(s.skip(a.len() as int + 1) =~= b);
    let r = decimal(rate);
    law_decimal(rate);
    lemma_number(rate, i32::MAX as int);
    reveal_strlit("23.976");
    reveal_strlit("23.98");
    reveal_strlit("29.97");
    reveal_strlit("59.94");
    assert('0' <= r[0]);
    if r.len() > 2 {
        assert('0' <= r[2] <= '9');
    }
}

/// The rates over 1.001 are what their names say, to within a thousandth of a
/// frame in a second or, where the name is that short, five.
pub proof fn law_named_rates(s: Seq<char>, n: int, d: int)
    requires
        fps_of(s) == Some((n, d)),
        s.contains('.'),
    ensures
        d == 1001,
        s == "23.976"@ ==> -d <= 1000 * n - 23_976 * d <= d,
        s == "23.98"@ ==> -5 * d <= 1000 * n - 23_980 * d <= 5 * d,
        s == "29.97"@ ==> -d <= 1000 * n - 29_970 * d <= d,
        s == "59.94"@ ==> -d <= 1000 * n - 59_940 * d <= d,
        s == "23.976"@ || s == "23.98"@ || s == "29.97"@ || s == "59.94"@,
{
    reveal_strlit("23.976");
    reveal_strlit("23.98");
    reveal_strlit("29.97");
    reveal_strlit("59.94");
    let k = choose|k: int| 0 <= k < s.len() && s[k] == '.';
    if s != "23.976"@ && s != "23.98"@ && s != "29.97"@ && s != "59.94"@ {
        lemma_no_dot(s, k);
    }
    assert("23.976"@[4] == '7' && "23.98"@[4] == '8' && "29.97"@[1] == '9' && "59.94"@[0] == '5');
}

/// A text with a dot in it is no number.
proof fn lemma_no_dot(s: Seq<char>, k: int)
    requires
        0 <= k < s.len(),
        s[k] == '.',
    ensures
        signed_of(s, i32::MAX as int) is None,
{
    if s[0] == '-' || s[0] == '+' {
        assert(s.skip(1)[k - 1] == '.');
        lemma_digits_only(s.skip(1), k - 1);
    }
    lemma_digits_only(s, k);
}

proof fn lemma_digits_only(s: Seq<char>, k: int)
    requires
        0 <= k < s.len(),
        s[k] == '.',
    ensures
        digits_value(s, 10) is None,
    decreases s.len(),
{
    if k < s.len() - 1 {
        assert(s.drop_last()[k] == '.');
        lemma_digits_only(s.drop_last(), k);
    }
}

/// The value of a flag is the argument behind its first occurrence, and a flag
/// that is not given has none.
pub proof fn law_options(args: Seq<Seq<char>>, flag: Seq<char>, i: int)
    ensures
        0 <= i && i + 1 < args.len() && args[i] == flag && (forall|j: int| 0 <= j < i ==> #[trigger] args[j] != flag)
            ==> option_of(args, flag) == Some(args[i + 1]),
        !args.contains(flag) ==> option_of(args, flag) is None && flag_at(args, flag) is None,
        args.contains(flag) ==> flag_at(args, flag) is Some,
{
    lemma_flag(args, flag);
    if 0 <= i && i + 1 < args.len() && args[i] == flag {
        assert(args.contains(args[i]));
    }
}

/// Where a flag is found, and that it is found.
proof fn lemma_flag(args: Seq<Seq<char>>, flag: Seq<char>)
    ensures
        match flag_at(args, flag) {
            Some(k) => 0 <= k < args.len() && args[k] == flag && forall|j: int|
                0 <= j < k ==> #[trigger] args[j] != flag,
            None => !args.contains(flag),
        },
    decreases args.len(),
{
    if args.len() > 0 && args[0] != flag {
        let rest = args.skip(1);
        lemma_flag(rest, flag);
        match flag_at(rest, flag) {
            Some(k) => {
                assert(args[k + 1] == rest[k]);
                assert forall|j: int| 0 <= j < k + 1 implies #[trigger] args[j] != flag by {
                    if j > 0 {
                        assert(rest[j - 1] == args[j]);
                    }
                }
            },
            None => {
                assert forall|j: int| 0 <= j < args.len() implies #[trigger] args[j] != flag by {
                    if j > 0 {
                        assert(rest[j - 1] == args[j]);
                    }
                }
            },
        }
    }
}

/// The video frames among frames.
pub open spec fn videos(frames: Seq<(ExtendedHeader, int)>) -> Seq<(ExtendedHeader, int)> {
    frames.filter(|f: (ExtendedHeader, int)| f.0 is Video)
}

/// The audio frames among them.
pub open spec fn audios(frames: Seq<(ExtendedHeader, int)>) -> Seq<(ExtendedHeader, int)> {
    frames.filter(|f: (ExtendedHeader, int)| f.0 is Audio)
}

/// The audio frames in which something is heard.
pub open spec fn audible(frames: Seq<(ExtendedHeader, int)>) -> Seq<(ExtendedHeader, int)> {
    frames.filter(|f: (ExtendedHeader, int)| f.0 matches ExtendedHeader::Audio(a) && a.active_channels != 0)
}

/// A watch counts each frame once, under its kind, as long as its counters
/// last.
pub proof fn law_watch_counts(m: Monitor, frames: Seq<(ExtendedHeader, int)>)
    requires
        m.window.video + frames.len() <= u64::MAX,
        m.window.audio + frames.len() <= u64::MAX,
        m.window.audio_with_sound + frames.len() <= u64::MAX,
    ensures
        ({
            let w = heard_all(m, frames).0.window;
            &&& w.video == m.window.video + videos(frames).len()
            &&& w.audio == m.window.audio + audios(frames).len()
            &&& w.audio_with_sound == m.window.audio_with_sound + audible(frames).len()
        }),
        videos(frames).len() <= frames.len(),
        audios(frames).len() <= frames.len(),
        audible(frames).len() <= frames.len(),
    decreases frames.len(),
{
    reveal(Seq::filter);
    if frames.len() > 0 {
        law_watch_counts(m, frames.drop_last());
    }
}

/// Every video and audio frame adds its length to the bytes of a watch, and
/// nothing else does.
pub proof fn law_watch_bytes(m: Monitor, ext: ExtendedHeader, len: int)
    requires
        0 <= len,
        m.window.bytes + len <= u64::MAX,
    ensures
        ({
            let after = m.heard(ext, len).0.window.bytes;
            after == (if ext is Absent {
                m.window.bytes as int
            } else {
                m.window.bytes + len
            })
        }),
{
}

} // verus!
