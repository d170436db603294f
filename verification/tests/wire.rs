//! Frames, commands and the stamping clock.

use open_media_transport::clock::{video_interval, Clock};
use open_media_transport::command::{classify, Command, Message, Quality, Tally};
use open_media_transport::frame::{
    self, AudioHeader, ExtendedHeader, FrameHeader, FrameType, VideoFlags, VideoHeader, CODEC_FPA1,
    CODEC_VMX1, HEADER_LEN, VIDEO_HEADER_LEN,
};
use open_media_transport::{Deframer, Error, Limits, OwnedFrame};

// ---------------------------------------------------------------------------
// Clock
// ---------------------------------------------------------------------------

#[test]
fn intervals_match_libomtnet_arithmetic() {
    assert_eq!(video_interval(30, 1), 333_333);
    assert_eq!(video_interval(30000, 1001), 333_667);
    assert_eq!(video_interval(60000, 1001), 166_833);
    assert_eq!(video_interval(25, 1), 400_000);
    assert_eq!(video_interval(1, 0), 0);
}

#[test]
fn stamps_and_paces() {
    let mut c = Clock::new();
    let t0 = 1_000_000i64;
    let mut now = t0;
    let mut last = -1;
    for i in 0..6 {
        let ts = c.video(20, 1, now).unwrap(); // 50 ms interval
        now += (c.wait_nanos(now) / 1_000_000) as i64; // whole milliseconds at this rate
        if i == 0 {
            assert_eq!(ts, 0);
        }
        assert_eq!(ts % 500_000, 0, "{ts}");
        assert!(ts > last, "{ts} after {last}");
        let elapsed_ticks = (now - t0) * 10_000;
        assert!(elapsed_ticks >= ts, "stamp {ts} handed out at {elapsed_ticks}");
        last = ts;
    }
    assert!(last >= 2_500_000, "five intervals paced, got {last}");
}

#[test]
fn waits_exactly_as_long_as_it_is_ahead() {
    let mut c = Clock::new();
    assert_eq!(c.video(30000, 1001, 500), Some(0));
    assert_eq!((c.ahead(500), c.wait_nanos(500)), (0, 0));
    assert_eq!(c.video(30000, 1001, 500), Some(333_667));
    assert_eq!((c.ahead(500), c.wait_nanos(500)), (333_667, 33_366_700));
    assert_eq!((c.ahead(533), c.wait_nanos(533)), (3_667, 366_700));
    assert_eq!((c.ahead(534), c.wait_nanos(534)), (-6_333, 0));
}

#[test]
fn skips_ahead_when_late() {
    let mut c = Clock::new();
    assert_eq!(c.video(100, 1, 0), Some(0));
    let ts = c.video(100, 1, 55).unwrap();
    assert!(ts >= 400_000, "should have skipped missed frames, got {ts}");
    assert_eq!(ts % 100_000, 0);
}

#[test]
fn audio_interval() {
    let mut c = Clock::new();
    assert_eq!(c.audio(48000, 1600, 0), Some(0));
    assert_eq!(c.audio(48000, 1600, 0), Some(333_333));
}

#[test]
fn a_new_rate_goes_on_from_the_last_stamp() {
    let mut c = Clock::new();
    assert_eq!(c.video(25, 1, 0), Some(0));
    assert_eq!(c.video(25, 1, 40), Some(400_000));
    let next = c.video(50, 1, 80).unwrap();
    assert!(next > 400_000);
}

// ---------------------------------------------------------------------------
// Commands
// ---------------------------------------------------------------------------

fn all_commands() -> Vec<Command> {
    let mut all = vec![
        Command::SubscribeVideo,
        Command::SubscribeAudio,
        Command::SubscribeMetadata,
        Command::Preview(true),
        Command::Preview(false),
    ];
    for preview in [false, true] {
        for program in [false, true] {
            all.push(Command::Tally(Tally { preview, program }));
        }
    }
    for q in [Quality::Default, Quality::Low, Quality::Medium, Quality::High] {
        all.push(Command::Quality(q));
    }
    all
}

#[test]
fn strings_match_libomtnet_exactly() {
    assert_eq!(Command::SubscribeVideo.as_bytes(), br#"<OMTSubscribe Video="true" />"#);
    assert_eq!(Command::SubscribeAudio.as_bytes(), br#"<OMTSubscribe Audio="true" />"#);
    assert_eq!(Command::SubscribeMetadata.as_bytes(), br#"<OMTSubscribe Metadata="true" />"#);
    assert_eq!(Command::Preview(true).as_bytes(), br#"<OMTSettings Preview="true" />"#);
    assert_eq!(Command::Preview(false).as_bytes(), br#"<OMTSettings Preview="false" />"#);
    assert_eq!(
        Command::Tally(Tally { preview: true, program: false }).as_bytes(),
        br#"<OMTTally Preview="true" Program=="false" />"#
    );
    assert_eq!(
        Command::Tally(Tally { preview: false, program: true }).as_bytes(),
        br#"<OMTTally Preview="false" Program=="true" />"#
    );
    assert_eq!(
        Command::Tally(Tally { preview: true, program: true }).as_bytes(),
        br#"<OMTTally Preview="true" Program=="true" />"#
    );
    assert_eq!(
        Command::Tally(Tally::default()).as_bytes(),
        br#"<OMTTally Preview="false" Program=="false" />"#
    );
    assert_eq!(
        Command::Quality(Quality::Default).as_bytes(),
        br#"<OMTSettings Quality="Default" />"#
    );
    assert_eq!(
        Command::Quality(Quality::Medium).as_bytes(),
        br#"<OMTSettings Quality="Medium" />"#
    );
}

#[test]
fn no_command_carries_a_nul() {
    for c in all_commands() {
        assert!(!c.as_bytes().contains(&0), "{c:?}");
    }
}

#[test]
fn every_command_round_trips() {
    for c in all_commands() {
        assert_eq!(Command::recognize(c.as_bytes()), Some(c));
        assert_eq!(classify(c.as_bytes()), Message::Command(c));
    }
}

#[test]
fn near_misses_are_not_commands() {
    let mut with_nul = Command::SubscribeVideo.as_bytes().to_vec();
    with_nul.push(0);
    assert_eq!(Command::recognize(&with_nul), None);
    assert_eq!(Command::recognize(br#"<OMTSubscribe Video="true"/>"#), None);
    assert_eq!(Command::recognize(br#"<OMTTally Preview="true" Program="false" />"#), None);
    assert_eq!(classify(&with_nul), Message::Application(&with_nul));
}

#[test]
fn prefix_messages() {
    let q = br#"<OMTSettings Quality='High'/>"#;
    assert_eq!(classify(q), Message::QualityOther(q));
    let info = br#"<OMTInfo ProductName="X" Manufacturer="Y" Version="1" />"#;
    assert_eq!(classify(info), Message::SenderInfo(info));
    let r = br#"<OMTRedirect NewAddress="HOST (Cam)" />"#;
    assert_eq!(classify(r), Message::Redirect(r));
    assert_eq!(
        classify(b"<OMTWeb URL=\"http://x/\" />\0"),
        Message::Application(b"<OMTWeb URL=\"http://x/\" />\0")
    );
}

#[test]
fn tally_union() {
    let a = Tally { preview: true, program: false };
    let b = Tally { preview: false, program: true };
    assert_eq!(a.union(b), Tally { preview: true, program: true });
}

// ---------------------------------------------------------------------------
// Frames
// ---------------------------------------------------------------------------

#[test]
fn fourccs_match_libomtnet() {
    assert_eq!(CODEC_VMX1, 0x3158_4D56);
    assert_eq!(CODEC_FPA1, 0x3141_5046);
    assert_eq!(frame::fourcc(b"VMX1"), CODEC_VMX1);
}

#[test]
fn header_layout() {
    let h = FrameHeader {
        frame_type: FrameType::Video,
        timestamp: 0x0102_0304_0506_0708,
        metadata_length: 0x0A0B,
        data_length: 0x0C0D_0E0F,
    };
    let expected = [
        1, 2, //
        0x08, 0x07, 0x06, 0x05, 0x04, 0x03, 0x02, 0x01, //
        0x0B, 0x0A, //
        0x0F, 0x0E, 0x0D, 0x0C,
    ];
    assert_eq!(h.to_bytes(), expected);
    assert_eq!(FrameHeader::parse(&expected).unwrap(), h);
}

#[test]
fn header_rejects_bad_version_and_type() {
    let mut b = FrameHeader {
        frame_type: FrameType::Metadata,
        timestamp: 0,
        metadata_length: 0,
        data_length: 0,
    }
    .to_bytes();
    b[0] = 2;
    assert_eq!(FrameHeader::parse(&b), Err(Error::UnsupportedVersion(2)));
    b[0] = 1;
    b[1] = 3;
    assert_eq!(FrameHeader::parse(&b), Err(Error::UnknownFrameType(3)));
    assert_eq!(FrameHeader::parse(&b[..15]), Err(Error::Truncated));
}

#[test]
fn frame_len_checks() {
    let mut h = FrameHeader {
        frame_type: FrameType::Video,
        timestamp: 0,
        metadata_length: 10,
        data_length: 41,
    };
    assert_eq!(h.frame_len(), Err(Error::DataLengthTooSmall { data_length: 41, needed: 42 }));
    h.data_length = 42;
    assert_eq!(h.frame_len(), Ok(58));
    h.data_length = -1;
    assert_eq!(h.frame_len(), Err(Error::NegativeDataLength(-1)));
}

#[test]
fn errors_in_words() {
    assert_eq!(Error::UnsupportedVersion(9).to_string(), "unsupported OMT frame version 9");
    assert_eq!(Error::UnknownFrameType(3).to_string(), "unknown OMT frame type 3");
    assert_eq!(Error::NegativeDataLength(-12).to_string(), "negative frame data length -12");
    assert_eq!(
        Error::DataLengthTooSmall { data_length: 41, needed: 42 }.to_string(),
        "frame data length 41 is less than the 42 bytes its headers need"
    );
    assert_eq!(
        Error::FrameTooLarge { length: 2000, max: 1000 }.to_string(),
        "frame of 2000 bytes exceeds the 1000-byte limit"
    );
    assert_eq!(Error::Truncated.to_string(), "incomplete frame");
}

#[test]
fn video_header_layout() {
    let v = VideoHeader {
        codec: CODEC_VMX1,
        width: 1920,
        height: 1080,
        frame_rate_n: 60000,
        frame_rate_d: 1001,
        aspect_ratio: (16.0f32 / 9.0).to_bits(),
        flags: VideoFlags(VideoFlags::INTERLACED | VideoFlags::PREVIEW),
        color_space: 709,
    };
    let b = v.to_bytes();
    assert_eq!(&b[0..4], b"VMX1");
    assert_eq!(&b[4..8], &1920u32.to_le_bytes());
    assert_eq!(&b[16..20], &1001u32.to_le_bytes());
    assert_eq!(&b[20..24], &(16.0f32 / 9.0).to_bits().to_le_bytes());
    assert_eq!(&b[24..28], &9u32.to_le_bytes());
    assert_eq!(&b[28..32], &709u32.to_le_bytes());
    assert_eq!(VideoHeader::parse(&b).unwrap(), v);
}

#[test]
fn audio_header_layout() {
    let a = AudioHeader {
        codec: CODEC_FPA1,
        sample_rate: 48000,
        samples_per_channel: 800,
        channels: 32,
        active_channels: 1 << 31 | 1,
        reserved: 0,
    };
    let b = a.to_bytes();
    assert_eq!(&b[0..4], b"FPA1");
    assert_eq!(&b[16..20], &[1, 0, 0, 0x80]);
    assert_eq!(AudioHeader::parse(&b).unwrap(), a);
}

#[test]
fn write_puts_metadata_last_and_counts_it() {
    let v = VideoHeader {
        codec: CODEC_VMX1,
        width: 16,
        height: 16,
        frame_rate_n: 30,
        frame_rate_d: 1,
        aspect_ratio: 1.0f32.to_bits(),
        flags: VideoFlags::default(),
        color_space: 0,
    };
    let mut out = Vec::new();
    frame::write(5, &ExtendedHeader::Video(v), b"pixels", b"<x/>\0", &mut out);
    let h = FrameHeader::parse(&out).unwrap();
    assert_eq!(h.metadata_length, 5);
    assert_eq!(h.data_length as usize, VIDEO_HEADER_LEN + 6 + 5);
    assert_eq!(out.len(), h.frame_len().unwrap());
    assert!(out.ends_with(b"pixels<x/>\0"));
}

// ---------------------------------------------------------------------------
// Streams
// ---------------------------------------------------------------------------

fn video() -> ExtendedHeader {
    ExtendedHeader::Video(VideoHeader {
        codec: CODEC_VMX1,
        width: 1920,
        height: 1080,
        frame_rate_n: 50,
        frame_rate_d: 1,
        aspect_ratio: (16.0f32 / 9.0).to_bits(),
        flags: VideoFlags::default(),
        color_space: 709,
    })
}

#[test]
fn splits_frames_fed_one_byte_at_a_time() {
    let mut wire = Vec::new();
    frame::write_metadata(0, Command::SubscribeMetadata.as_bytes(), &mut wire);
    frame::write(123, &video(), &[7; 1000], b"<m/>\0", &mut wire);
    frame::write_metadata(0, Command::SubscribeVideo.as_bytes(), &mut wire);

    let mut d = Deframer::new(Limits::video());
    let mut frames = Vec::new();
    for b in &wire {
        d.push(std::slice::from_ref(b));
        while let Some(f) = d.next_frame().unwrap() {
            frames.push(f);
        }
    }
    assert_eq!(frames.len(), 3);
    assert_eq!(frames[0].data, Command::SubscribeMetadata.as_bytes());
    assert_eq!(frames[1].header.timestamp, 123);
    assert_eq!(frames[1].ext, video());
    assert_eq!(frames[1].data, vec![7; 1000]);
    assert_eq!(frames[1].metadata, b"<m/>\0");
    assert_eq!(frames[2].data, Command::SubscribeVideo.as_bytes());
    assert_eq!(d.buffered(), 0);
}

#[test]
fn many_frames_in_one_push() {
    let mut wire = Vec::new();
    for i in 0..50 {
        frame::write(i, &video(), &[i as u8; 64], &[], &mut wire);
    }
    let mut d = Deframer::new(Limits::video());
    d.push(&wire);
    for i in 0..50 {
        assert_eq!(d.next_frame().unwrap().unwrap().header.timestamp, i);
    }
    assert_eq!(d.next_frame().unwrap(), None);
}

#[test]
fn chunks_do_not_matter() {
    let mut wire = Vec::new();
    for i in 0..20 {
        frame::write(i, &video(), &vec![i as u8; 7 * i as usize], b"<m/>", &mut wire);
    }
    let mut whole = Deframer::new(Limits::video());
    let (all, error) = whole.received(&wire);
    assert_eq!((all.len(), error), (20, None));
    for chunk in [1, 3, 17, 64, 1000] {
        let mut d = Deframer::new(Limits::video());
        let mut frames = Vec::new();
        for piece in wire.chunks(chunk) {
            let (mut f, error) = d.received(piece);
            assert_eq!(error, None);
            frames.append(&mut f);
        }
        assert_eq!(frames, all, "chunks of {chunk}");
    }
}

#[test]
fn oversized_frame_is_an_error_not_a_stall() {
    let mut wire = Vec::new();
    frame::write(0, &video(), &vec![0; 2_000_000], &[], &mut wire);
    let mut d = Deframer::new(Limits::audio_or_metadata());
    d.push(&wire[..HEADER_LEN]);
    assert!(matches!(d.next_frame(), Err(Error::FrameTooLarge { max: 1_048_576, .. })));
}

/// Valid frames, corrupted at random, fed in random chunks. The stream must
/// end in frames, `Ok(None)` or an error, and every frame returned must be
/// self-consistent.
#[test]
fn corrupted_streams_never_panic() {
    let mut seed = 0x9E37_79B9_7F4A_7C15u64;
    let mut next = move || {
        seed ^= seed << 13;
        seed ^= seed >> 7;
        seed ^= seed << 17;
        seed
    };
    for _ in 0..2000 {
        let mut wire = Vec::new();
        for i in 0..(next() % 4) {
            match next() % 3 {
                0 => frame::write_metadata(0, Command::SubscribeVideo.as_bytes(), &mut wire),
                1 => frame::write(i as i64, &video(), &[1; 40], b"<m/>", &mut wire),
                _ => frame::write(i as i64, &ExtendedHeader::Absent, &[], &[], &mut wire),
            }
        }
        for _ in 0..(next() % 4) {
            if !wire.is_empty() {
                let at = (next() as usize) % wire.len();
                wire[at] = next() as u8;
            }
        }
        let mut d = Deframer::new(Limits { max_frame_len: 4096 });
        let chunk = (next() % 17 + 1) as usize;
        'stream: for piece in wire.chunks(chunk) {
            d.push(piece);
            loop {
                match d.next_frame() {
                    Ok(Some(f)) => {
                        let ext = f.header.frame_type.extended_header_len();
                        assert_eq!(
                            HEADER_LEN + ext + f.data.len() + f.metadata.len(),
                            f.header.frame_len().unwrap()
                        );
                    }
                    Ok(None) => break,
                    Err(_) => break 'stream,
                }
            }
        }
    }
}

#[test]
fn bad_version_is_an_error_not_a_stall() {
    let mut wire = Vec::new();
    frame::write_metadata(0, b"<x/>", &mut wire);
    wire[0] = 9;
    let mut d = Deframer::new(Limits::video());
    d.push(&wire);
    assert_eq!(d.next_frame(), Err(Error::UnsupportedVersion(9)));
}

// ---------------------------------------------------------------------------
// Bytes seen on the wire
// ---------------------------------------------------------------------------

/// A metadata frame with no timestamp, byte by byte.
fn metadata_frame(xml: &[u8]) -> Vec<u8> {
    let mut b = vec![1, 1, 0, 0, 0, 0, 0, 0, 0, 0, 0, 0];
    b.extend_from_slice(&(xml.len() as u32).to_le_bytes());
    b.extend_from_slice(xml);
    b
}

fn recv_video_conn() -> Vec<u8> {
    [
        metadata_frame(br#"<OMTSubscribe Metadata="true" />"#),
        metadata_frame(br#"<OMTSubscribe Video="true" />"#),
        metadata_frame(br#"<OMTSettings Quality="High" />"#),
        metadata_frame(br#"<OMTTally Preview="false" Program=="true" />"#),
    ]
    .concat()
}

fn recv_audio_conn() -> Vec<u8> {
    metadata_frame(br#"<OMTSubscribe Audio="true" />"#)
}

fn send_accept() -> Vec<u8> {
    [
        metadata_frame(
            br#"<OMTInfo ProductName="omt-harness" Manufacturer="open-media-transport" Version="0.1" />"#,
        ),
        metadata_frame(br#"<HarnessHello Value="1" />"#),
        metadata_frame(br#"<OMTTally Preview="false" Program=="false" />"#),
        metadata_frame(br#"<OMTTally Preview="false" Program=="true" />"#),
    ]
    .concat()
}

fn frames(bytes: &[u8]) -> Vec<OwnedFrame> {
    let mut d = Deframer::new(Limits::video());
    d.push(bytes);
    let mut out = Vec::new();
    while let Some(f) = d.next_frame().unwrap() {
        out.push(f);
    }
    assert_eq!(d.buffered(), 0, "trailing bytes");
    out
}

fn commands(cmds: &[Command]) -> Vec<u8> {
    let mut out = Vec::new();
    for c in cmds {
        frame::write_metadata(0, c.as_bytes(), &mut out);
    }
    out
}

#[test]
fn receiver_video_connection_is_byte_identical() {
    // Receiver wanting video, audio and metadata, tally program, quality High.
    let ours = commands(&[
        Command::SubscribeMetadata,
        Command::SubscribeVideo,
        Command::Quality(Quality::High),
        Command::Tally(Tally { preview: false, program: true }),
    ]);
    assert_eq!(ours, recv_video_conn());
}

#[test]
fn receiver_audio_connection_is_byte_identical() {
    assert_eq!(commands(&[Command::SubscribeAudio]), recv_audio_conn());
}

#[test]
fn sender_accept_sequence_parses() {
    let f = frames(&send_accept());
    assert_eq!(f.len(), 4);
    assert!(f.iter().all(|f| f.header.timestamp == 0 && f.metadata.is_empty()));
    assert_eq!(
        f[0].data,
        br#"<OMTInfo ProductName="omt-harness" Manufacturer="open-media-transport" Version="0.1" />"#
    );
    assert!(matches!(classify(&f[0].data), Message::SenderInfo(_)));
    assert_eq!(classify(&f[1].data), Message::Application(br#"<HarnessHello Value="1" />"#));
    assert_eq!(classify(&f[2].data), Message::Command(Command::Tally(Tally::default())));
    assert_eq!(
        classify(&f[3].data),
        Message::Command(Command::Tally(Tally { preview: false, program: true }))
    );
}

#[test]
fn no_captured_command_carries_a_nul() {
    for f in frames(&recv_video_conn())
        .into_iter()
        .chain(frames(&recv_audio_conn()))
        .chain(frames(&send_accept()))
    {
        assert!(!f.data.contains(&0));
    }
}
