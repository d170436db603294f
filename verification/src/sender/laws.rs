//! What holds of every sender.

use crate::command::{Command, Quality};
use crate::sender::hub::{
    after_command, cast_count, cast_one, connected, greeting, preview_wanted, profile_of, rank, suggested, tally_of, usable_target,
    Cast, PeerState, PeerView, SenderView,
};
use crate::sender::video::{encoder_for, produces, Running, VideoParams, VideoParcelView};
use crate::vmx::encoder::{default_parameters, EncodingParameters, Profile};
use crate::vmx::error::Error;
use crate::vmx::frame::Frame;
use crate::vmx::layout::Layout;
use crate::vmx::windows::{law_profiles_ordered, wider};
use vstd::prelude::*;

verus! {

/// Nothing is queued for a connection that did not ask for it.
pub proof fn law_only_subscribers(p: PeerView, c: Cast)
    requires
        match c {
            Cast::Video(_) => !p.state.video,
            Cast::Audio(_) => !p.state.audio,
            Cast::Metadata(_) => !p.state.metadata,
        },
    ensures
        cast_one(p, c) == p,
{
}

/// A subscription takes nothing back: what a connection asked for before, it
/// still gets.
pub proof fn law_subscriptions_stay(s: PeerState, c: Command)
    ensures
        s.video ==> after_command(s, c).video,
        s.audio ==> after_command(s, c).audio,
        s.metadata ==> after_command(s, c).metadata,
{
}

/// The combined tally is on preview or on program exactly when some receiver
/// is.
pub proof fn law_tally_is_any(peers: Seq<PeerView>, n: int)
    requires
        0 <= n <= peers.len(),
    ensures
        tally_of(peers, n).preview <==> exists|i: int| 0 <= i < n && (#[trigger] peers[i]).state.tally.preview,
        tally_of(peers, n).program <==> exists|i: int| 0 <= i < n && (#[trigger] peers[i]).state.tally.program,
    decreases n,
{
    if n > 0 {
        law_tally_is_any(peers, n - 1);
        if peers[n - 1].state.tally.preview {
            assert(peers[n - 1].state.tally.preview);
        }
        if peers[n - 1].state.tally.program {
            assert(peers[n - 1].state.tally.program);
        }
    }
}

/// A new connection leaves the combined tally as it was, and the connections
/// that were there.
pub proof fn law_connecting_disturbs_nobody(s: SenderView, addr: crate::ip::SocketAddr)
    requires
        s.consistent(),
        s.last_id < u64::MAX,
    ensures
        connected(s, addr).tally == s.tally,
        connected(s, addr).peers.drop_last() == s.peers,
        connected(s, addr).redirect() == s.redirect(),
{
    assert(connected(s, addr).peers.drop_last() =~= s.peers);
}

/// Redirecting to a source and hearing of its own redirect sends receivers on;
/// when that source no longer redirects, they go back to it; and when the
/// sender no longer redirects, a new connection is told of no redirect.
pub proof fn law_redirect_chain(s: SenderView, b: Seq<char>, c: Seq<char>)
    requires
        b.len() > 0,
        c.len() > 0,
        !s.own.contains(b),
        !s.own.contains(c),
    ensures
        ({
            let at_b = SenderView { target: usable_target(s.own, Some(b)), forwarded: None, ..s };
            let at_c = SenderView { forwarded: usable_target(s.own, Some(c)), ..at_b };
            let back = SenderView { forwarded: usable_target(s.own, Some(Seq::empty())), ..at_c };
            let off = SenderView { target: usable_target(s.own, None), forwarded: None, ..back };
            &&& at_b.redirect() == Some(b)
            &&& at_c.redirect() == Some(c)
            &&& back.redirect() == Some(b)
            &&& off.redirect() is None
            &&& greeting(off).len() == s.on_connect.len() + 1
            &&& greeting(at_b).len() == s.on_connect.len() + 2
        }),
{
}

/// Redirecting to the sender itself is no redirect.
pub proof fn law_no_redirect_to_self(own: Seq<Seq<char>>, i: int)
    requires
        0 <= i < own.len(),
    ensures
        usable_target(own, Some(own[i])) is None,
{
    assert(own.contains(own[i]));
}

// ---------------------------------------------------------------------------
// Delivery
// ---------------------------------------------------------------------------

/// A connection that asked for what is sent and whose queue has room gets it at
/// the end of its queue: of video the preview if it asked for previews and one
/// was made, else the full frame. Every other connection is left as it was, and
/// what a connection asked for does not change.
pub proof fn law_subscribers_get_it(s: SenderView, c: Cast, i: int)
    requires
        0 <= i < s.peers.len(),
    ensures
        ({
            let (p, q) = (s.peers[i], s.cast(c).peers[i]);
            let wanted = match c {
                Cast::Video(_) => p.state.video,
                Cast::Audio(_) => p.state.audio,
                Cast::Metadata(_) => p.state.metadata,
            };
            let bytes = match c {
                Cast::Video(v) => if p.state.preview && v.preview is Some {
                    v.preview->0
                } else {
                    v.full
                },
                Cast::Audio(a) => a,
                Cast::Metadata(m) => m,
            };
            let room = !p.outbox.closed && if c is Metadata {
                p.outbox.metadata < 64
            } else {
                p.outbox.av < 4
            };
            &&& s.cast(c).peers.len() == s.peers.len()
            &&& q.id == p.id && q.addr == p.addr && q.state == p.state
            &&& if wanted && bytes is Some && room {
                q.outbox.items == p.outbox.items.push((bytes->0, c is Metadata))
            } else {
                q == p
            }
        }),
{
}

/// How many of the first `n` connections asked for what is sent.
pub open spec fn audience(peers: Seq<PeerView>, c: Cast, n: int) -> int
    decreases n,
{
    if n <= 0 {
        0
    } else {
        let p = peers[n - 1].state;
        audience(peers, c, n - 1) + match c {
            Cast::Video(_) => if p.video {
                1int
            } else {
                0
            },
            Cast::Audio(_) => if p.audio {
                1
            } else {
                0
            },
            Cast::Metadata(_) => if p.metadata {
                1
            } else {
                0
            },
        }
    }
}

/// For every connection that asked for it a frame is either queued or dropped,
/// and counted as that.
pub proof fn law_queued_or_dropped(peers: Seq<PeerView>, c: Cast, n: int)
    requires
        0 <= n <= peers.len(),
    ensures
        cast_count(peers, c, n, true) + cast_count(peers, c, n, false) == audience(peers, c, n),
        0 <= cast_count(peers, c, n, true),
        0 <= cast_count(peers, c, n, false),
    decreases n,
{
    if n > 0 {
        law_queued_or_dropped(peers, c, n - 1);
    }
}

// ---------------------------------------------------------------------------
// Quality
// ---------------------------------------------------------------------------

/// The bitrate window that a sender gives frames of a height.
pub open spec fn window(s: SenderView, height: int) -> EncodingParameters {
    default_parameters(profile_of(s), height)
}

/// One of the three profiles that senders use.
pub open spec fn for_senders(p: Profile) -> bool {
    p == Profile::OmtLq || p == Profile::OmtSq || p == Profile::OmtHq
}

/// Some connection with video suggests this quality.
pub open spec fn is_suggested(s: SenderView, q: Quality) -> bool {
    exists|i: int| 0 <= i < s.peers.len() && (#[trigger] s.peers[i]).state.video && s.peers[i].state.quality == q
}

/// The suggestion that counts is one that was made, and none that was made is
/// higher.
proof fn lemma_suggested(peers: Seq<PeerView>, n: int)
    requires
        0 <= n <= peers.len(),
    ensures
        forall|i: int|
            0 <= i < n && (#[trigger] peers[i]).state.video ==> rank(peers[i].state.quality) <= rank(suggested(peers, n)),
        suggested(peers, n) != Quality::Default ==> exists|i: int|
            0 <= i < n && (#[trigger] peers[i]).state.video && peers[i].state.quality == suggested(peers, n),
    decreases n,
{
    if n > 0 {
        lemma_suggested(peers, n - 1);
        if suggested(peers, n) != suggested(peers, n - 1) {
            assert(peers[n - 1].state.video && peers[n - 1].state.quality == suggested(peers, n));
        } else if suggested(peers, n) != Quality::Default {
            let i = choose|i: int|
                0 <= i < n - 1 && (#[trigger] peers[i]).state.video && peers[i].state.quality == suggested(peers, n);
            assert(peers[i].state.video);
        }
    }
}

/// A sender of high quality, or one without a quality of its own to which a
/// video connection suggests high quality, gives frames the largest window of
/// all profiles for senders. One of low quality, or without its own where low
/// is the most that is suggested, gives them the smallest. All others give the
/// one between.
pub proof fn law_quality_sets_the_window(s: SenderView, height: int)
    requires
        height >= 0,
    ensures
        for_senders(profile_of(s)),
        ({
            let own = s.quality != Quality::Default;
            let high = if own {
                s.quality == Quality::High
            } else {
                is_suggested(s, Quality::High)
            };
            let low = if own {
                s.quality == Quality::Low
            } else {
                is_suggested(s, Quality::Low) && !is_suggested(s, Quality::Medium) && !is_suggested(s, Quality::High)
            };
            &&& high ==> forall|p: Profile|
                for_senders(p) ==> p == profile_of(s) || wider(#[trigger] default_parameters(p, height), window(s, height))
            &&& low ==> forall|p: Profile|
                for_senders(p) ==> p == profile_of(s) || wider(window(s, height), #[trigger] default_parameters(p, height))
            &&& !high && !low ==> (exists|p: Profile|
                for_senders(p) && wider(#[trigger] default_parameters(p, height), window(s, height))) && (exists|
                p: Profile,
            | for_senders(p) && wider(window(s, height), #[trigger] default_parameters(p, height)))
        }),
{
    law_profiles_ordered(height);
    let n = s.peers.len() as int;
    lemma_suggested(s.peers, n);
    let q = suggested(s.peers, n);
    if s.quality == Quality::Default {
        if is_suggested(s, Quality::High) {
            let i = choose|i: int|
                0 <= i < n && (#[trigger] s.peers[i]).state.video && s.peers[i].state.quality == Quality::High;
            assert(rank(s.peers[i].state.quality) <= rank(q));
        }
        if is_suggested(s, Quality::Medium) {
            let i = choose|i: int|
                0 <= i < n && (#[trigger] s.peers[i]).state.video && s.peers[i].state.quality == Quality::Medium;
            assert(rank(s.peers[i].state.quality) <= rank(q));
        }
        if is_suggested(s, Quality::Low) {
            let i = choose|i: int|
                0 <= i < n && (#[trigger] s.peers[i]).state.video && s.peers[i].state.quality == Quality::Low;
            assert(rank(s.peers[i].state.quality) <= rank(q));
        }
    }
    let l = default_parameters(Profile::OmtLq, height);
    let m = default_parameters(Profile::OmtSq, height);
    let h = default_parameters(Profile::OmtHq, height);
    assert(wider(l, m) && wider(m, h) && wider(l, h));
}

/// A connection that comes to suggest a higher quality than it did never
/// lowers the window, nor does a sender that is set to a higher one.
pub proof fn law_higher_quality_never_lowers(s: SenderView, t: SenderView, at: int, height: int)
    requires
        height >= 0,
        0 <= at < s.peers.len(),
        ({
            let (q, r) = (s.peers[at].state.quality, t.peers[at].state.quality);
            &&& q == Quality::Low && r != Quality::Default || q == Quality::Medium && r == Quality::High || q == r
        }),
        s.quality == Quality::Low && t.quality != Quality::Default || s.quality == Quality::Medium && t.quality
            == Quality::High || s.quality == t.quality,
        t.peers.len() == s.peers.len(),
        forall|i: int|
            0 <= i < s.peers.len() ==> {
                &&& (#[trigger] t.peers[i]).state.video == s.peers[i].state.video
                &&& i != at ==> t.peers[i].state.quality == s.peers[i].state.quality
            },
    ensures
        window(s, height).frame_min <= window(t, height).frame_min,
        window(s, height).frame_max <= window(t, height).frame_max,
{
    law_profiles_ordered(height);
    let n = s.peers.len() as int;
    lemma_suggested(s.peers, n);
    lemma_suggested(t.peers, n);
    let (q, r) = (suggested(s.peers, n), suggested(t.peers, n));
    if q != Quality::Default {
        let i = choose|i: int| 0 <= i < n && (#[trigger] s.peers[i]).state.video && s.peers[i].state.quality == q;
        assert(t.peers[i].state.video);
        assert(rank(t.peers[i].state.quality) <= rank(r));
    } else if r != Quality::Default {
        let i = choose|i: int| 0 <= i < n && (#[trigger] t.peers[i]).state.video && t.peers[i].state.quality == r;
        assert(s.peers[i].state.video);
        assert(rank(s.peers[i].state.quality) <= rank(q));
    }
}

/// The encoder that runs holds the window of its profile.
pub open spec fn window_kept(r: Option<Running>) -> bool {
    r matches Some(e) ==> e.state.params == default_parameters(e.profile, e.height as int)
}

/// A frame is encoded with the window of the profile in force, whatever was
/// sent before, and the encoder keeps that window for the next one.
pub proof fn law_frames_get_the_window(
    before: Option<Running>,
    profile: Profile,
    f: Frame,
    p: VideoParams,
    timestamp: i64,
    metadata: Seq<u8>,
    wants_preview: bool,
    after: Option<Running>,
    r: Result<VideoParcelView, Error>,
)
    requires
        window_kept(before),
        produces(before, profile, f, p, timestamp, metadata, wants_preview, after, r),
    ensures
        window_kept(after),
        r is Ok ==> after is Some && after->0.state.params == default_parameters(profile, f.height as int),
        forall|l: Layout|
            (#[trigger] encoder_for(before, profile, f.width, f.height, l)).params == default_parameters(
                profile,
                f.height as int,
            ),
{
}

/// Previews are made exactly when a connection with video asked for them.
pub proof fn law_preview_on_request(peers: Seq<PeerView>, n: int)
    requires
        0 <= n <= peers.len(),
    ensures
        preview_wanted(peers, n) <==> exists|i: int|
            0 <= i < n && (#[trigger] peers[i]).state.video && peers[i].state.preview,
    decreases n,
{
    if n > 0 {
        law_preview_on_request(peers, n - 1);
        if peers[n - 1].state.video && peers[n - 1].state.preview {
            assert(peers[n - 1].state.video);
        }
    }
}

} // verus!
