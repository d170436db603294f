//! The connections of a receiver and what is sent on them.

use crate::command::{command_bytes, Command, Quality, Tally};
use crate::deframer::{Limits, OwnedFrame};
use crate::frame::{frame_bytes, write_metadata, ExtendedHeader};
use vstd::prelude::*;

verus! {

/// What to ask the sender for.
#[derive(Clone, Copy, Debug, PartialEq, Eq, Structural)]
pub struct ReceiverConfig {
    /// Subscribe to video.
    pub video: bool,
    /// Subscribe to audio (on a second connection).
    pub audio: bool,
    /// Ask for 1/8 preview video instead of full frames.
    pub preview: bool,
    /// Suggested encoder quality, sent with the video subscription.
    pub quality: Quality,
    /// Initial tally.
    pub tally: Tally,
    /// Reconnect automatically when a connection drops.
    pub reconnect: bool,
    /// Follow redirects.
    pub follow_redirects: bool,
}

impl Default for ReceiverConfig {
    fn default() -> (r: Self)
        ensures
            r == (ReceiverConfig {
                video: true,
                audio: true,
                preview: false,
                quality: Quality::Default,
                tally: Tally { preview: false, program: false },
                reconnect: true,
                follow_redirects: true,
            }),
    {
        ReceiverConfig {
            video: true,
            audio: true,
            preview: false,
            quality: Quality::Default,
            tally: Tally { preview: false, program: false },
            reconnect: true,
            follow_redirects: true,
        }
    }
}

/// Which of the receiver's connections an event came from.
#[derive(Clone, Copy, Debug, PartialEq, Eq, Hash, Structural)]
pub enum Channel {
    /// The video and metadata connection (or the only one, if metadata-only).
    Video,
    /// The audio connection.
    Audio,
}

/// Why a connection ended.
#[derive(Clone, Debug, PartialEq, Eq)]
pub enum ReceiveError {
    /// The socket failed, with what the system says of it.
    Io(String),
    /// The peer sent something that is not a valid stream.
    Protocol(crate::error::Error),
}

/// Something that happened on a connection.
#[derive(Clone, Debug)]
pub enum Event {
    /// A connection was (re)established and subscribed.
    Connected(Channel),
    /// A complete frame.
    Frame(Channel, OwnedFrame),
    /// The connection closed: `None` for a clean close by the peer, otherwise
    /// the error that ended it.
    Closed(Channel, Option<ReceiveError>),
    /// The receiver is switching source because of a redirect:
    /// `Some(address)` to follow it, `None` to go back to the original.
    Redirect(Option<String>),
}

/// One connection to open.
#[derive(Clone, Debug)]
pub struct ConnectionPlan {
    /// What it is for.
    pub channel: Channel,
    /// How large its frames may be.
    pub limits: Limits,
    /// What to send first, in order.
    pub commands: Vec<Command>,
}

/// Whether the first connection is the video one: a receiver that wants
/// neither video nor audio still wants metadata.
pub open spec fn needs_video(c: ReceiverConfig) -> bool {
    c.video || !c.audio
}

/// The commands of the first connection.
pub open spec fn first_commands(c: ReceiverConfig) -> Seq<Command> {
    if !needs_video(c) {
        seq![Command::SubscribeMetadata, Command::SubscribeAudio]
    } else if !c.video {
        seq![Command::SubscribeMetadata]
    } else if c.preview {
        seq![
            Command::SubscribeMetadata,
            Command::Preview(true),
            Command::SubscribeVideo,
            Command::Quality(c.quality),
            Command::Tally(c.tally),
        ]
    } else {
        seq![
            Command::SubscribeMetadata,
            Command::SubscribeVideo,
            Command::Quality(c.quality),
            Command::Tally(c.tally),
        ]
    }
}

/// Whether there is a second connection.
pub open spec fn needs_second(c: ReceiverConfig) -> bool {
    c.audio && c.video
}

impl ReceiverConfig {
    /// The first connection: video with metadata, metadata only, or audio with
    /// metadata. A metadata-only connection sends nothing but its subscription.
    pub fn first_connection(&self) -> (r: ConnectionPlan)
        ensures
            r.commands@ == first_commands(*self),
            r.channel == (if needs_video(*self) {
                Channel::Video
            } else {
                Channel::Audio
            }),
            r.limits.max_frame_len == (if needs_video(*self) {
                10_485_760usize
            } else {
                1_048_576usize
            }),
    {
        let mut commands: Vec<Command> = Vec::new();
        commands.push(Command::SubscribeMetadata);
        if self.video || !self.audio {
            if self.video {
                if self.preview {
                    commands.push(Command::Preview(true));
                }
                commands.push(Command::SubscribeVideo);
                commands.push(Command::Quality(self.quality));
                commands.push(Command::Tally(self.tally));
            }
            assert(commands@ =~= first_commands(*self));
            ConnectionPlan { channel: Channel::Video, limits: Limits::video(), commands }
        } else {
            commands.push(Command::SubscribeAudio);
            assert(commands@ =~= first_commands(*self));
            ConnectionPlan { channel: Channel::Audio, limits: Limits::audio_or_metadata(), commands }
        }
    }

    /// The second connection, for audio beside video. It goes to the address
    /// at which the first one answered.
    pub fn second_connection(&self) -> (r: Option<ConnectionPlan>)
        ensures
            match r {
                Some(p) => {
                    &&& needs_second(*self)
                    &&& p.channel == Channel::Audio
                    &&& p.limits.max_frame_len == 1_048_576usize
                    &&& p.commands@ == seq![Command::SubscribeAudio]
                },
                None => !needs_second(*self),
            },
    {
        if self.audio && self.video {
            let mut commands: Vec<Command> = Vec::new();
            commands.push(Command::SubscribeAudio);
            assert(commands@ =~= seq![Command::SubscribeAudio]);
            Some(ConnectionPlan { channel: Channel::Audio, limits: Limits::audio_or_metadata(), commands })
        } else {
            None
        }
    }

    /// Whether every connection that is needed is open.
    pub fn connected(&self, video_open: bool, audio_open: bool) -> (r: bool)
        ensures
            r == ((needs_video(*self) ==> video_open) && (self.audio ==> audio_open)),
    {
        let need_video: bool = self.video || !self.audio;
        (!need_video || video_open) && (!self.audio || audio_open)
    }

    /// The settings after a command: tally, quality and preview are remembered
    /// and sent again after a reconnect.
    pub open spec fn remembers(self, c: Command) -> ReceiverConfig {
        match c {
            Command::Tally(t) => ReceiverConfig { tally: t, ..self },
            Command::Quality(q) => ReceiverConfig { quality: q, ..self },
            Command::Preview(p) => ReceiverConfig { preview: p, ..self },
            _ => self,
        }
    }
}

/// The frames of commands, one behind the other.
pub open spec fn command_frames(s: Seq<Command>) -> Seq<u8>
    decreases s.len(),
{
    if s.len() == 0 {
        Seq::empty()
    } else {
        command_frames(s.drop_last()) + frame_bytes(
            0,
            ExtendedHeader::Absent,
            command_bytes(s.last()),
            Seq::empty(),
        )
    }
}

/// No command is long.
proof fn lemma_command_len(c: Command)
    ensures
        command_bytes(c).len() <= 64,
{
    reveal_strlit("<OMTSubscribe Video=\"true\" />");
    reveal_strlit("<OMTSubscribe Audio=\"true\" />");
    reveal_strlit("<OMTSubscribe Metadata=\"true\" />");
    reveal_strlit("<OMTSettings Preview=\"true\" />");
    reveal_strlit("<OMTSettings Preview=\"false\" />");
    reveal_strlit("<OMTTally Preview=\"true\" Program==\"true\" />");
    reveal_strlit("<OMTTally Preview=\"true\" Program==\"false\" />");
    reveal_strlit("<OMTTally Preview=\"false\" Program==\"true\" />");
    reveal_strlit("<OMTTally Preview=\"false\" Program==\"false\" />");
    reveal_strlit("<OMTSettings Quality=\"Default\" />");
    reveal_strlit("<OMTSettings Quality=\"Low\" />");
    reveal_strlit("<OMTSettings Quality=\"Medium\" />");
    reveal_strlit("<OMTSettings Quality=\"High\" />");
}

/// The bytes that commands are sent as.
pub fn command_stream(commands: &[Command]) -> (r: Vec<u8>)
    ensures
        r@ == command_frames(commands@),
{
    let mut out: Vec<u8> = Vec::new();
    let mut i: usize = 0;
    assert(commands@.take(0) =~= Seq::empty());
    while i < commands.len()
        invariant
            i <= commands@.len(),
            out@ == command_frames(commands@.take(i as int)),
        decreases commands@.len() - i,
    {
        proof {
            lemma_command_len(commands@[i as int]);
            assert(commands@.take(i + 1).drop_last() =~= commands@.take(i as int));
        }
        write_metadata(0, commands[i].as_bytes(), &mut out);
        i = i + 1;
    }
    assert(commands@.take(i as int) =~= commands@);
    out
}

/// Which connection metadata is sent on: the video one, or the audio one if
/// there is none.
pub fn metadata_channel(video_open: bool, audio_open: bool) -> (r: Option<Channel>)
    ensures
        r == (if video_open {
            Some(Channel::Video)
        } else if audio_open {
            Some(Channel::Audio)
        } else {
            None
        }),
{
    if video_open {
        Some(Channel::Video)
    } else if audio_open {
        Some(Channel::Audio)
    } else {
        None
    }
}

// ---------------------------------------------------------------------------
// Opening
// ---------------------------------------------------------------------------

/// How far opening the connections has come. The number is that of an address.
#[derive(Clone, Copy, Debug, PartialEq, Eq, Structural)]
pub enum OpenStep {
    /// Try the first connection at this address.
    First(usize),
    /// Try the second connection at this address.
    Second(usize),
    /// Every connection is open, at this address.
    Done(usize),
    /// It failed; close what is open.
    Failed,
}

impl OpenStep {
    /// Where to start, with some addresses to try.
    pub fn start(addresses: usize) -> (r: OpenStep)
        ensures
            r == opening(0, addresses as int),
    {
        if addresses == 0 {
            OpenStep::Failed
        } else {
            OpenStep::First(0)
        }
    }

    /// What comes next, given how the attempt went: each address is tried in
    /// turn, and the second connection goes to the one that answered.
    pub fn next(self, ok: bool, addresses: usize, second: bool) -> (r: OpenStep)
        ensures
            r == after_attempt(self, ok, addresses as int, second),
    {
        match self {
            OpenStep::First(i) => if ok {
                if second {
                    OpenStep::Second(i)
                } else {
                    OpenStep::Done(i)
                }
            } else if i < addresses && i + 1 < addresses {
                OpenStep::First(i + 1)
            } else {
                OpenStep::Failed
            },
            OpenStep::Second(i) => if ok {
                OpenStep::Done(i)
            } else {
                OpenStep::Failed
            },
            OpenStep::Done(i) => OpenStep::Done(i),
            OpenStep::Failed => OpenStep::Failed,
        }
    }
}

/// Trying an address, if there is one.
pub open spec fn opening(i: int, addresses: int) -> OpenStep {
    if i < addresses {
        OpenStep::First(i as usize)
    } else {
        OpenStep::Failed
    }
}

/// What comes after an attempt.
pub open spec fn after_attempt(s: OpenStep, ok: bool, addresses: int, second: bool) -> OpenStep {
    match s {
        OpenStep::First(i) => if ok {
            if second {
                OpenStep::Second(i)
            } else {
                OpenStep::Done(i)
            }
        } else {
            opening(i + 1, addresses)
        },
        OpenStep::Second(i) => if ok {
            OpenStep::Done(i)
        } else {
            OpenStep::Failed
        },
        _ => s,
    }
}

/// Where opening ends when the addresses answer as `answers` says, starting at
/// address `i`, and the second connection as `second` says.
pub open spec fn opened_at(answers: Seq<bool>, i: int, second: Option<bool>) -> OpenStep
    decreases answers.len() - i,
{
    if i >= answers.len() {
        OpenStep::Failed
    } else if !answers[i] {
        opened_at(answers, i + 1, second)
    } else {
        match second {
            Some(ok) => after_attempt(
                after_attempt(OpenStep::First(i as usize), true, answers.len() as int, true),
                ok,
                answers.len() as int,
                true,
            ),
            None => after_attempt(OpenStep::First(i as usize), true, answers.len() as int, false),
        }
    }
}

/// The receiver ends up at the first address that answers, with both
/// connections or with none.
pub proof fn law_first_address_that_answers(answers: Seq<bool>, i: int, k: int, second: Option<bool>)
    requires
        0 <= i <= k < answers.len() <= usize::MAX,
        answers[k],
        forall|j: int| i <= j < k ==> !#[trigger] answers[j],
    ensures
        opened_at(answers, i, second) == (if second == Some(false) {
            OpenStep::Failed
        } else {
            OpenStep::Done(k as usize)
        }),
    decreases k - i,
{
    if i < k {
        assert(!answers[i]);
        law_first_address_that_answers(answers, i + 1, k, second);
    }
}

} // verus!
