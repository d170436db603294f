//! Protocol commands: fixed metadata strings that control a connection.
//!
//! They are sent without a terminating NUL and recognised by exact byte
//! equality of the whole payload. The tally strings contain `Program==`, two
//! equals signs, which is not well-formed XML and must be reproduced exactly.

use crate::text::{ascii, begins, bytes_begin, lemma_ascii, same_bytes};
use vstd::prelude::*;

verus! {

/// Tally state: whether a source is on preview and/or program.
#[derive(Clone, Copy, Debug, PartialEq, Eq, Hash, Structural)]
pub struct Tally {
    /// On preview.
    pub preview: bool,
    /// On program (on air).
    pub program: bool,
}

impl Default for Tally {
    fn default() -> (r: Self)
        ensures
            r == (Tally { preview: false, program: false }),
    {
        Tally { preview: false, program: false }
    }
}

/// The combination of two tallies.
pub open spec fn tally_or(a: Tally, b: Tally) -> Tally {
    Tally { preview: a.preview || b.preview, program: a.program || b.program }
}

impl Tally {
    /// Combines tallies from several receivers, as a sender does (OR).
    pub fn union(self, other: Tally) -> (r: Tally)
        ensures
            r == tally_or(self, other),
    {
        Tally {
            preview: self.preview || other.preview,
            program: self.program || other.program,
        }
    }
}

/// Combining tallies does not depend on their order or grouping, and a tally
/// that is off adds nothing.
pub proof fn law_tally_union(a: Tally, b: Tally, c: Tally)
    ensures
        tally_or(a, b) == tally_or(b, a),
        tally_or(tally_or(a, b), c) == tally_or(a, tally_or(b, c)),
        tally_or(a, a) == a,
        tally_or(a, Tally { preview: false, program: false }) == a,
{
}

/// Encoder quality a receiver suggests. The sender uses the highest
/// suggestion among its video connections when its own quality is `Default`.
#[derive(Clone, Copy, Debug, PartialEq, Eq, PartialOrd, Ord, Hash, Structural)]
pub enum Quality {
    /// Defer to other receivers.
    Default,
    /// Low.
    Low,
    /// Medium.
    Medium,
    /// High.
    High,
}

impl Default for Quality {
    fn default() -> (r: Self)
        ensures
            r == Quality::Default,
    {
        Quality::Default
    }
}

/// A command with a fixed wire form.
#[derive(Clone, Copy, Debug, PartialEq, Eq, Hash, Structural)]
pub enum Command {
    /// Receiver asks for video on this connection.
    SubscribeVideo,
    /// Receiver asks for audio on this connection.
    SubscribeAudio,
    /// Receiver asks for metadata broadcasts on this connection.
    SubscribeMetadata,
    /// Receiver switches this connection to or from 1/8 preview video.
    Preview(bool),
    /// Receiver reports its tally; sender reports the combined tally.
    Tally(Tally),
    /// Receiver suggests an encoder quality.
    Quality(Quality),
}

/// The text of a command.
pub open spec fn command_text(c: Command) -> Seq<char> {
    match c {
        Command::SubscribeVideo => "<OMTSubscribe Video=\"true\" />"@,
        Command::SubscribeAudio => "<OMTSubscribe Audio=\"true\" />"@,
        Command::SubscribeMetadata => "<OMTSubscribe Metadata=\"true\" />"@,
        Command::Preview(on) => if on {
            "<OMTSettings Preview=\"true\" />"@
        } else {
            "<OMTSettings Preview=\"false\" />"@
        },
        Command::Tally(t) => if t.preview {
            if t.program {
                "<OMTTally Preview=\"true\" Program==\"true\" />"@
            } else {
                "<OMTTally Preview=\"true\" Program==\"false\" />"@
            }
        } else {
            if t.program {
                "<OMTTally Preview=\"false\" Program==\"true\" />"@
            } else {
                "<OMTTally Preview=\"false\" Program==\"false\" />"@
            }
        },
        Command::Quality(Quality::Default) => "<OMTSettings Quality=\"Default\" />"@,
        Command::Quality(Quality::Low) => "<OMTSettings Quality=\"Low\" />"@,
        Command::Quality(Quality::Medium) => "<OMTSettings Quality=\"Medium\" />"@,
        Command::Quality(Quality::High) => "<OMTSettings Quality=\"High\" />"@,
    }
}

/// The bytes of a command.
pub open spec fn command_bytes(c: Command) -> Seq<u8> {
    ascii(command_text(c))
}

/// Two commands with the same text are the same, and no command text has a
/// NUL or anything else outside printable ASCII.
proof fn lemma_texts(a: Command, b: Command)
    ensures
        command_text(a) == command_text(b) ==> a == b,
        forall|i: int|
            0 <= i < command_text(a).len() ==> ' ' <= #[trigger] command_text(a)[i] <= '~',
{
    reveal_strlit("<OMTSubscribe Video=\"true\" />");
    reveal_strlit("<OMTSubscribe Audio=\"true\" />");
    reveal_strlit("<OMTSubscribe Metadata=\"true\" />");
    reveal_strlit("<OMTSettings Preview=\"true\" />");
    reveal_strlit("<OMTSettings Preview=\"false\" />");
    reveal_strlit("<OMTTally Preview=\"true\" Program==\"true\" />");
    reveal_strlit("<OMTTally Preview=\"true\" Program==\"false\" />");
    reveal_strlit("<OMTTally Preview=\"false\" Program==\"true\" />");
    reveal_strlit("<OMTTally Preview=\"false\" Program==\"false\" />");
    reveal_strlit("<OMTSettings Quality=\"Default\" />");
    reveal_strlit("<OMTSettings Quality=\"Low\" />");
    reveal_strlit("<OMTSettings Quality=\"Medium\" />");
    reveal_strlit("<OMTSettings Quality=\"High\" />");
    let (x, y) = (command_text(a), command_text(b));
    if x == y && a != b {
        // The first letters that differ, by place.
        assert(x[4] == y[4] && x[5] == y[5] && x[13] == y[13] && x[14] == y[14] && x[19] == y[19]
            && x[20] == y[20] && x[21] == y[21] && x[22] == y[22]);
        assert(x.len() == y.len());
    }
}

/// The fifth letter of a command is an `S` or a `T`.
pub proof fn lemma_fifth_letter(c: Command)
    ensures
        command_bytes(c).len() > 4,
        command_bytes(c)[4] == 83 || command_bytes(c)[4] == 84,
{
    reveal_strlit("<OMTSubscribe Video=\"true\" />");
    reveal_strlit("<OMTSubscribe Audio=\"true\" />");
    reveal_strlit("<OMTSubscribe Metadata=\"true\" />");
    reveal_strlit("<OMTSettings Preview=\"true\" />");
    reveal_strlit("<OMTSettings Preview=\"false\" />");
    reveal_strlit("<OMTTally Preview=\"true\" Program==\"true\" />");
    reveal_strlit("<OMTTally Preview=\"true\" Program==\"false\" />");
    reveal_strlit("<OMTTally Preview=\"false\" Program==\"true\" />");
    reveal_strlit("<OMTTally Preview=\"false\" Program==\"false\" />");
    reveal_strlit("<OMTSettings Quality=\"Default\" />");
    reveal_strlit("<OMTSettings Quality=\"Low\" />");
    reveal_strlit("<OMTSettings Quality=\"Medium\" />");
    reveal_strlit("<OMTSettings Quality=\"High\" />");
}

/// No command carries a NUL.
pub proof fn law_no_nul(c: Command)
    ensures
        !command_bytes(c).contains(0),
{
    lemma_texts(c, c);
    assert forall|i: int| 0 <= i < command_bytes(c).len() implies command_bytes(c)[i] != 0 by {
        assert(' ' <= command_text(c)[i] <= '~');
    }
}

/// Every command is recognised by its own bytes and by no other's.
pub proof fn law_commands_differ(a: Command, b: Command)
    requires
        command_bytes(a) == command_bytes(b),
    ensures
        a == b,
{
    lemma_texts(a, b);
    lemma_texts(b, a);
    let (x, y) = (command_text(a), command_text(b));
    assert(command_bytes(a).len() == x.len() && command_bytes(b).len() == y.len());
    assert forall|i: int| 0 <= i < x.len() implies x[i] == y[i] by {
        assert(command_bytes(a)[i] == x[i] as u8);
        assert(command_bytes(b)[i] == y[i] as u8);
        assert(' ' <= x[i] <= '~');
        assert(' ' <= y[i] <= '~');
    }
    assert(x =~= y);
}

impl Command {
    /// The exact bytes to send, without a NUL.
    pub fn as_bytes(self) -> (r: &'static [u8])
        ensures
            r@ == command_bytes(self),
    {
        let s: &'static str = match self {
            Command::SubscribeVideo => "<OMTSubscribe Video=\"true\" />",
            Command::SubscribeAudio => "<OMTSubscribe Audio=\"true\" />",
            Command::SubscribeMetadata => "<OMTSubscribe Metadata=\"true\" />",
            Command::Preview(on) => if on {
                "<OMTSettings Preview=\"true\" />"
            } else {
                "<OMTSettings Preview=\"false\" />"
            },
            Command::Tally(t) => if t.preview {
                if t.program {
                    "<OMTTally Preview=\"true\" Program==\"true\" />"
                } else {
                    "<OMTTally Preview=\"true\" Program==\"false\" />"
                }
            } else {
                if t.program {
                    "<OMTTally Preview=\"false\" Program==\"true\" />"
                } else {
                    "<OMTTally Preview=\"false\" Program==\"false\" />"
                }
            },
            Command::Quality(Quality::Default) => "<OMTSettings Quality=\"Default\" />",
            Command::Quality(Quality::Low) => "<OMTSettings Quality=\"Low\" />",
            Command::Quality(Quality::Medium) => "<OMTSettings Quality=\"Medium\" />",
            Command::Quality(Quality::High) => "<OMTSettings Quality=\"High\" />",
        };
        proof {
            lemma_texts(self, self);
            lemma_ascii(s@);
        }
        s.as_bytes()
    }

    /// Recognises a metadata payload that is exactly one of the fixed
    /// strings. A trailing NUL or any other difference means it is not.
    pub fn recognize(payload: &[u8]) -> (r: Option<Command>)
        ensures
            match r {
                Some(c) => payload@ == command_bytes(c),
                None => forall|c: Command| payload@ != #[trigger] command_bytes(c),
            },
    {
        let all: [Command; 13] = [
            Command::SubscribeVideo,
            Command::SubscribeAudio,
            Command::SubscribeMetadata,
            Command::Preview(true),
            Command::Preview(false),
            Command::Tally(Tally { preview: false, program: false }),
            Command::Tally(Tally { preview: true, program: false }),
            Command::Tally(Tally { preview: false, program: true }),
            Command::Tally(Tally { preview: true, program: true }),
            Command::Quality(Quality::Default),
            Command::Quality(Quality::Low),
            Command::Quality(Quality::Medium),
            Command::Quality(Quality::High),
        ];
        let mut i: usize = 0;
        while i < 13
            invariant
                i <= 13,
                forall|k: int| 0 <= k < i ==> payload@ != command_bytes(#[trigger] all@[k]),
            decreases 13 - i,
        {
            if same_bytes(payload, all[i].as_bytes()) {
                return Some(all[i]);
            }
            i = i + 1;
        }
        proof {
            assert forall|c: Command| payload@ != #[trigger] command_bytes(c) by {
                let k: int = match c {
                    Command::SubscribeVideo => 0,
                    Command::SubscribeAudio => 1,
                    Command::SubscribeMetadata => 2,
                    Command::Preview(on) => if on {
                        3
                    } else {
                        4
                    },
                    Command::Tally(t) => if t.program {
                        if t.preview {
                            8
                        } else {
                            7
                        }
                    } else {
                        if t.preview {
                            6
                        } else {
                            5
                        }
                    },
                    Command::Quality(Quality::Default) => 9,
                    Command::Quality(Quality::Low) => 10,
                    Command::Quality(Quality::Medium) => 11,
                    Command::Quality(Quality::High) => 12,
                };
                assert(all@[k] == c);
            }
        }
        None
    }
}

/// What an incoming metadata payload is, in the order of the checks.
#[derive(Clone, Copy, Debug, PartialEq, Eq)]
pub enum Message<'a> {
    /// A fixed command. Consumed by the connection.
    Command(Command),
    /// Starts with `<OMTSettings Quality=` but is not one of the four exact
    /// forms. Consumed by the connection.
    QualityOther(&'a [u8]),
    /// `<OMTInfo .../>` sender information. Also passed on to the application.
    SenderInfo(&'a [u8]),
    /// `<OMTRedirect NewAddress="..."/>`. Consumed by the connection.
    Redirect(&'a [u8]),
    /// Anything else: application metadata.
    Application(&'a [u8]),
}

/// The kind of a payload that is no command.
pub open spec fn is_quality_text(payload: Seq<u8>) -> bool {
    begins(payload, ascii("<OMTSettings Quality="@))
}

pub open spec fn is_info_text(payload: Seq<u8>) -> bool {
    begins(payload, ascii("<OMTInfo"@))
}

pub open spec fn is_redirect_text(payload: Seq<u8>) -> bool {
    begins(payload, ascii("<OMTRedirect"@))
}

/// The payload is some command.
pub open spec fn is_command(payload: Seq<u8>) -> bool {
    exists|c: Command| payload == #[trigger] command_bytes(c)
}

/// Classifies a metadata frame's payload.
pub fn classify(payload: &[u8]) -> (r: Message<'_>)
    ensures
        match r {
            Message::Command(c) => payload@ == command_bytes(c),
            Message::QualityOther(p) => {
                &&& p@ == payload@
                &&& !is_command(payload@)
                &&& is_quality_text(payload@)
            },
            Message::SenderInfo(p) => {
                &&& p@ == payload@
                &&& !is_command(payload@)
                &&& !is_quality_text(payload@)
                &&& is_info_text(payload@)
            },
            Message::Redirect(p) => {
                &&& p@ == payload@
                &&& !is_command(payload@)
                &&& !is_quality_text(payload@)
                &&& !is_info_text(payload@)
                &&& is_redirect_text(payload@)
            },
            Message::Application(p) => {
                &&& p@ == payload@
                &&& !is_command(payload@)
                &&& !is_quality_text(payload@)
                &&& !is_info_text(payload@)
                &&& !is_redirect_text(payload@)
            },
        },
{
    proof {
        reveal_strlit("<OMTSettings Quality=");
        reveal_strlit("<OMTInfo");
        reveal_strlit("<OMTRedirect");
        lemma_ascii("<OMTSettings Quality="@);
        lemma_ascii("<OMTInfo"@);
        lemma_ascii("<OMTRedirect"@);
    }
    match Command::recognize(payload) {
        Some(c) => Message::Command(c),
        None => if bytes_begin(payload, "<OMTSettings Quality=".as_bytes()) {
            Message::QualityOther(payload)
        } else if bytes_begin(payload, "<OMTInfo".as_bytes()) {
            Message::SenderInfo(payload)
        } else if bytes_begin(payload, "<OMTRedirect".as_bytes()) {
            Message::Redirect(payload)
        } else {
            Message::Application(payload)
        },
    }
}

} // verus!
