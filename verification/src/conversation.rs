//! What a receiver asks for, as the sender hears it.

use crate::command::{Command, Quality, Tally};
use crate::deframer::FrameView;
use crate::receiver::control::{plus, ReceiverView};
use crate::receiver::plan::{first_commands, needs_second, Channel, ReceiverConfig};
use crate::sender::hub::{after_command, asked_nothing, PeerState};
use vstd::prelude::*;

verus! {

/// What a connection asks for after commands, in order.
pub open spec fn after_commands(s: PeerState, commands: Seq<Command>) -> PeerState
    decreases commands.len(),
{
    if commands.len() == 0 {
        s
    } else {
        after_command(after_commands(s, commands.drop_last()), commands.last())
    }
}

/// One command more.
proof fn lemma_after_push(s: PeerState, commands: Seq<Command>, c: Command)
    ensures
        after_commands(s, commands.push(c)) == after_command(after_commands(s, commands), c),
{
    assert(commands.push(c).drop_last() =~= commands);
}

/// The commands of the first connection, one by one.
proof fn lemma_first_state(c: ReceiverConfig)
    ensures
        after_commands(asked_nothing(), first_commands(c)) == (PeerState {
            video: c.video,
            audio: c.audio && !c.video,
            metadata: true,
            preview: c.video && c.preview,
            tally: if c.video {
                c.tally
            } else {
                Tally { preview: false, program: false }
            },
            quality: if c.video {
                c.quality
            } else {
                Quality::Default
            },
        }),
{
    let s = asked_nothing();
    let none = Seq::<Command>::empty();
    let a = none.push(Command::SubscribeMetadata);
    lemma_after_push(s, none, Command::SubscribeMetadata);
    if !c.video && c.audio {
        lemma_after_push(s, a, Command::SubscribeAudio);
        assert(first_commands(c) =~= a.push(Command::SubscribeAudio));
    } else if !c.video {
        assert(first_commands(c) =~= a);
    } else {
        let b = if c.preview {
            a.push(Command::Preview(true))
        } else {
            a
        };
        lemma_after_push(s, a, Command::Preview(true));
        let d = b.push(Command::SubscribeVideo);
        lemma_after_push(s, b, Command::SubscribeVideo);
        let e = d.push(Command::Quality(c.quality));
        lemma_after_push(s, d, Command::Quality(c.quality));
        lemma_after_push(s, e, Command::Tally(c.tally));
        assert(first_commands(c) =~= e.push(Command::Tally(c.tally)));
    }
}

/// The sender of a receiver's first connection knows what the receiver was set
/// up for: metadata always, video if it is wanted, with its preview, quality
/// and tally, and audio here only if there is no video. Audio beside video is
/// what the second connection is for, and nothing else is.
pub proof fn law_sender_hears_the_settings(c: ReceiverConfig)
    ensures
        ({
            let first = after_commands(asked_nothing(), first_commands(c));
            let second = after_commands(asked_nothing(), seq![Command::SubscribeAudio]);
            &&& first.metadata
            &&& first.video == c.video
            &&& c.video ==> first.preview == c.preview && first.quality == c.quality && first.tally == c.tally
            &&& c.audio == (first.audio || needs_second(c))
            &&& !(first.audio && needs_second(c))
            &&& second.audio && !second.video && !second.metadata
        }),
{
    lemma_first_state(c);
    let none = Seq::<Command>::empty();
    lemma_after_push(asked_nothing(), none, Command::SubscribeAudio);
    assert(seq![Command::SubscribeAudio] =~= none.push(Command::SubscribeAudio));
}

/// What a receiver asked for while it was connected, it asks for again when it
/// reconnects: the sender ends up knowing the same.
pub proof fn law_asked_again(c: ReceiverConfig, command: Command)
    requires
        c.video,
        command is Tally || command is Quality || command is Preview,
    ensures
        after_commands(asked_nothing(), first_commands(c.remembers(command))) == after_command(
            after_commands(asked_nothing(), first_commands(c)),
            command,
        ),
{
    lemma_first_state(c);
    lemma_first_state(c.remembers(command));
}

/// Every frame is counted once, on the connection it came on, whatever it
/// holds; the other counters of frames and bytes stay.
pub proof fn law_frames_counted(s: ReceiverView, channel: Channel, frames: Seq<FrameView>)
    ensures
        ({
            let t = s.after_frames(channel, frames).stats;
            let n = frames.len() as int;
            &&& channel == Channel::Video ==> t.video.frames == (s.stats.video.frames + n) % 0x1_0000_0000_0000_0000
                && t.audio.frames == s.stats.audio.frames
            &&& channel == Channel::Audio ==> t.audio.frames == (s.stats.audio.frames + n) % 0x1_0000_0000_0000_0000
                && t.video.frames == s.stats.video.frames
            &&& t.video.bytes == s.stats.video.bytes
            &&& t.audio.bytes == s.stats.audio.bytes
            &&& t.reconnects == s.stats.reconnects
        }),
    decreases frames.len(),
{
    if frames.len() > 0 {
        let rest = frames.drop_last();
        law_frames_counted(s, channel, rest);
        lemma_frame_counted(s.after_frames(channel, rest), channel, frames.last());
        lemma_one_more(s.stats.video.frames, rest.len() as int);
        lemma_one_more(s.stats.audio.frames, rest.len() as int);
    }
}

/// One frame is counted.
proof fn lemma_frame_counted(s: ReceiverView, channel: Channel, f: FrameView)
    ensures
        ({
            let t = s.after_frame(channel, f).stats;
            &&& channel == Channel::Video ==> t.video.frames == plus(s.stats.video.frames, 1) && t.audio.frames
                == s.stats.audio.frames
            &&& channel == Channel::Audio ==> t.audio.frames == plus(s.stats.audio.frames, 1) && t.video.frames
                == s.stats.video.frames
            &&& t.video.bytes == s.stats.video.bytes
            &&& t.audio.bytes == s.stats.audio.bytes
            &&& t.reconnects == s.stats.reconnects
        }),
{
    reveal(ReceiverView::after_frame);
}

/// A counter that is one further on.
proof fn lemma_one_more(c: u64, n: int)
    requires
        0 <= n,
    ensures
        plus(((c + n) % 0x1_0000_0000_0000_0000) as u64, 1) == (c + (n + 1)) % 0x1_0000_0000_0000_0000,
{
}

/// Closing is final, and what a receiver was set up with stays: frames change
/// neither its address nor its settings.
pub proof fn law_frames_keep_the_settings(s: ReceiverView, channel: Channel, frames: Seq<FrameView>)
    ensures
        ({
            let t = s.after_frames(channel, frames);
            &&& t.original == s.original
            &&& t.config == s.config
            &&& t.closing == s.closing
            &&& s.closing ==> t.redirect == s.redirect
        }),
    decreases frames.len(),
{
    reveal(ReceiverView::after_frame);
    if frames.len() > 0 {
        law_frames_keep_the_settings(s, channel, frames.drop_last());
    }
}

} // verus!
