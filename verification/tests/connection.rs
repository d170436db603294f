//! Senders and receivers, joined without sockets.

use std::sync::Arc;

use open_media_transport::address::{Address, Directory};
use open_media_transport::command::{classify, Command, Message, Quality, Tally};
use open_media_transport::discovery::{full_name, machine_name, Source, SourceEvent};
use open_media_transport::frame::{ExtendedHeader, VideoFlags, CODEC_VMX1};
use open_media_transport::ip::{IpAddr, SocketAddr};
use open_media_transport::media::{Media, MediaDecoder, PreferredVideoFormat, VideoFormat, VideoFrame};
use open_media_transport::receiver::plan::{command_stream, metadata_channel};
use open_media_transport::receiver::{Channel, Event, OpenStep, Receiver, ReceiverConfig};
use open_media_transport::redirect::{parse, to_xml};
use open_media_transport::sender::config::{first_port, next_port};
use open_media_transport::sender::outbox::MAX_QUEUED_AV;
use open_media_transport::sender::{Outbox, Sender, SenderConfig, SenderInfo, VideoParams};
use open_media_transport::vmx::decoder::Decoder;
use open_media_transport::vmx::encoder::{Encoder, EncoderConfig, Profile};
use open_media_transport::vmx::frame::{Frame, PixelFormat};
use open_media_transport::{Deframer, Limits, OwnedFrame};

const LOOPBACK: IpAddr = IpAddr::V4(0x7F00_0001);

fn socket(port: u16) -> SocketAddr {
    SocketAddr::new(LOOPBACK, port)
}

// ---------------------------------------------------------------------------
// Redirect messages
// ---------------------------------------------------------------------------

#[test]
fn xml_form() {
    assert_eq!(to_xml("HOST (Cam 2)"), r#"<OMTRedirect NewAddress="HOST (Cam 2)" />"#);
    assert_eq!(to_xml(""), r#"<OMTRedirect NewAddress="" />"#);
    assert_eq!(
        to_xml(r#"A&B "x" <y>"#),
        r#"<OMTRedirect NewAddress="A&amp;B &quot;x&quot; &lt;y&gt;" />"#
    );
}

#[test]
fn parses_what_it_writes() {
    for a in ["HOST (Cam 2)", "", "omt://h:6400", r#"A&B "x" <y>"#, "Cámara ñ"] {
        assert_eq!(parse(to_xml(a).as_bytes()).as_deref(), Some(a), "{a}");
    }
}

#[test]
fn parse_variants() {
    assert_eq!(parse(b"<OMTRedirect NewAddress='X (Y)'/>").as_deref(), Some("X (Y)"));
    assert_eq!(
        parse(b"<OMTRedirect Other=\"1\"\n  NewAddress = \"a&#x41;&#66;\" />\0").as_deref(),
        Some("aAB")
    );
    assert_eq!(parse(b"<OMTRedirect />"), None);
    assert_eq!(parse(b"<OMTRedirect NewAddress=\"a&bogus;\" />"), None);
    assert_eq!(parse(b"<OMTRedirectNewAddress=\"a\" />"), None);
    assert_eq!(parse(b"<OMTInfo NewAddress=\"a\" />"), None);
}

// ---------------------------------------------------------------------------
// The parts of a sender
// ---------------------------------------------------------------------------

#[test]
fn sender_info_xml_matches_capture() {
    let info = SenderInfo {
        product_name: "omt-harness".into(),
        manufacturer: "open-media-transport".into(),
        version: "0.1".into(),
    };
    assert_eq!(
        info.to_xml(),
        r#"<OMTInfo ProductName="omt-harness" Manufacturer="open-media-transport" Version="0.1" />"#
    );
}

#[test]
fn outbox_limits() {
    let mut o = Outbox::new();
    for _ in 0..MAX_QUEUED_AV {
        assert!(o.push(Arc::new(vec![]), false));
    }
    assert!(!o.push(Arc::new(vec![]), false));
    assert!(o.push(Arc::new(vec![]), true));
    let (_, m) = o.pop().unwrap();
    o.done(m);
    assert!(o.push(Arc::new(vec![]), false));
}

#[test]
fn ports_are_tried_in_turn() {
    assert_eq!(first_port(6400, 6600), Some(6400));
    assert_eq!(first_port(2, 1), None);
    assert_eq!(next_port(6400, 6600, true), Some(6401));
    assert_eq!(next_port(6600, 6600, true), None);
    assert_eq!(next_port(6400, 6600, false), None);
}

// ---------------------------------------------------------------------------
// A sender and a receiver
// ---------------------------------------------------------------------------

fn quiet(name: &str) -> SenderConfig {
    SenderConfig {
        announce: false,
        info: Some(SenderInfo {
            product_name: "test".into(),
            manufacturer: "open-media-transport".into(),
            version: "0".into(),
        }),
        ..SenderConfig::new(name)
    }
}

fn sender_at(name: &str, port: u16) -> Sender {
    let config = quiet(name);
    let own = vec![format!("omt://127.0.0.1:{port}"), full_name(&machine_name(), name)];
    Sender::new(config.quality, config.on_connect(), own)
}

fn receiver_of(port: u16, config: ReceiverConfig) -> Receiver {
    Receiver::new(Address::Socket(socket(port)), config)
}

fn frames_in(bytes: &[u8]) -> Vec<OwnedFrame> {
    let mut d = Deframer::new(Limits::video());
    let (frames, error) = d.received(bytes);
    assert_eq!(error, None);
    assert_eq!(d.buffered(), 0);
    frames
}

fn commands_in(bytes: &[u8]) -> Vec<Command> {
    frames_in(bytes)
        .iter()
        .map(|f| match classify(&f.data) {
            Message::Command(c) => c,
            other => panic!("not a command: {other:?}"),
        })
        .collect()
}

/// The open connections of a receiver at one sender.
struct Link {
    ends: Vec<(u64, Channel, Deframer)>,
}

impl Link {
    /// Opens what the receiver asks for.
    fn open(rx: &Receiver, tx: &mut Sender) -> Link {
        let mut ends = Vec::new();
        let first = rx.config().first_connection();
        for plan in std::iter::once(first).chain(rx.config().second_connection()) {
            let id = tx.connect(socket(50000 + ends.len() as u16));
            Link::say(tx, id, &command_stream(&plan.commands));
            ends.push((id, plan.channel, Deframer::new(plan.limits)));
        }
        Link { ends }
    }

    fn say(tx: &mut Sender, id: u64, bytes: &[u8]) {
        for f in frames_in(bytes) {
            assert!(f.is_metadata());
            tx.handle_metadata(id, &f.data);
        }
    }

    fn close(self, tx: &mut Sender) {
        for (id, _, _) in self.ends {
            tx.remove(id);
        }
    }

    /// Everything that the sender has queued arrives at the receiver.
    fn pump(&mut self, tx: &mut Sender, rx: &mut Receiver) -> Vec<Event> {
        let mut out = Vec::new();
        for (id, channel, deframer) in self.ends.iter_mut() {
            while let Some((bytes, metadata)) = tx.next_write(*id) {
                for piece in bytes.chunks(1000) {
                    let (mut events, error) = rx.received(*channel, deframer, piece);
                    assert_eq!(error, None);
                    out.append(&mut events);
                }
                tx.written(*id, metadata);
            }
        }
        out
    }
}

fn frame_events(events: Vec<Event>) -> Vec<OwnedFrame> {
    events
        .into_iter()
        .filter_map(|e| match e {
            Event::Frame(_, f) => Some(f),
            _ => None,
        })
        .collect()
}

fn params() -> VideoParams {
    VideoParams {
        frame_rate_n: 30,
        frame_rate_d: 1,
        aspect_ratio: 2.0f32.to_bits(),
        color_space: 709,
        premultiplied: false,
    }
}

#[test]
fn our_receiver_gets_video_audio_and_tally() {
    let mut tx = sender_at("loop", 6400);
    let mut rx = receiver_of(
        6400,
        ReceiverConfig {
            quality: Quality::High,
            tally: Tally { preview: true, program: false },
            ..ReceiverConfig::default()
        },
    );
    let mut link = Link::open(&rx, &mut tx);
    assert_eq!(tx.connections(), 2);
    assert!(tx.tally().preview);
    let frame = Frame::new(64, 32, PixelFormat::Uyvy);
    assert_eq!(tx.send_video(&frame, &params(), 0, b""), Ok(1));
    let mut audio = vec![0u32; 2 * 100];
    audio[..100].fill(0.5f32.to_bits());
    assert_eq!(tx.send_audio(&audio, 2, 48000, 7, b""), 1);

    let (mut info, mut video, mut audio_hdr) = (false, None, None);
    for f in frame_events(link.pump(&mut tx, &mut rx)) {
        match f.ext {
            ExtendedHeader::Absent => info |= matches!(classify(&f.data), Message::SenderInfo(_)),
            ExtendedHeader::Video(v) => video = Some((v, f.data)),
            ExtendedHeader::Audio(a) => audio_hdr = Some((a, f.data)),
        }
    }
    assert!(info, "sender info on connect");
    let (v, data) = video.expect("video frame");
    assert_eq!((v.codec, v.width, v.height, v.color_space), (CODEC_VMX1, 64, 32, 709));
    let px = Decoder::new(64, 32).unwrap().decode(&data, PixelFormat::Uyvy).unwrap();
    assert_eq!(px.planes[0].data.len(), 64 * 2 * 32);
    let (a, data) = audio_hdr.expect("audio frame");
    assert_eq!((a.channels, a.active_channels, a.samples_per_channel), (2, 1, 100));
    assert_eq!(data.len(), 400, "silent channel left out");
    assert!(rx.stats().video.frames >= 2 && rx.stats().audio.frames >= 1);
}

#[test]
fn preview_connections_get_the_prefix_and_the_metadata() {
    let mut tx = sender_at("preview", 6400);
    let mut rx = receiver_of(
        6400,
        ReceiverConfig { audio: false, preview: true, ..ReceiverConfig::default() },
    );
    let mut link = Link::open(&rx, &mut tx);
    let mut frame = Frame::new(256, 64, PixelFormat::Uyvy);
    for (i, b) in frame.planes[0].data.iter_mut().enumerate() {
        *b = (i * 7 % 251) as u8;
    }
    let p = VideoParams { frame_rate_n: 25, aspect_ratio: 4.0f32.to_bits(), color_space: 0, ..params() };
    assert_eq!(tx.send_video(&frame, &p, 0, b"<m/>\0"), Ok(1));
    let frames = frame_events(link.pump(&mut tx, &mut rx));
    let f = frames.iter().find(|f| !f.is_metadata()).expect("preview frame");
    let ExtendedHeader::Video(v) = f.ext else { panic!() };
    assert!(v.flags.contains(VideoFlags::PREVIEW));
    assert_eq!(f.metadata, b"<m/>\0");
    let dec = Decoder::new(256, 64).unwrap();
    assert_eq!(dec.preview_len(&f.data).unwrap(), f.data.len());
}

#[test]
fn repeated_frames_do_not_grow() {
    let mut tx = sender_at("repeat", 6400);
    let mut rx = receiver_of(6400, ReceiverConfig { audio: false, ..ReceiverConfig::default() });
    let mut link = Link::open(&rx, &mut tx);
    let mut frame = Frame::new(128, 64, PixelFormat::Uyvy);
    for (i, b) in frame.planes[0].data.iter_mut().enumerate() {
        *b = (i % 200) as u8 + 20;
    }
    assert_eq!(tx.video_receivers(), 1);
    let mut sizes = Vec::new();
    for ts in 0..5 {
        assert_eq!(tx.send_video(&frame, &params(), ts, b""), Ok(1));
        for f in frame_events(link.pump(&mut tx, &mut rx)) {
            if let ExtendedHeader::Video(_) = f.ext {
                if sizes.is_empty() {
                    // First frame: exactly what a fresh OMT_SQ encoder makes.
                    let mut cfg = EncoderConfig::new(128, 64);
                    cfg.profile = Profile::OmtSq;
                    let expected = Encoder::new(cfg).unwrap().encode(&frame).unwrap();
                    assert_eq!(f.data, expected);
                }
                sizes.push(f.data.len());
            }
        }
    }
    assert_eq!(sizes.len(), 5);
    assert!(sizes.iter().all(|&n| n < 128 * 64 * 2), "{sizes:?}");
    assert!(
        sizes.iter().max().unwrap() - sizes.iter().min().unwrap() < sizes[0] / 2,
        "{sizes:?}"
    );
}

#[test]
fn a_slow_receiver_loses_frames() {
    let mut tx = sender_at("slow", 6400);
    let rx = receiver_of(6400, ReceiverConfig { audio: false, ..ReceiverConfig::default() });
    let _link = Link::open(&rx, &mut tx);
    let frame = Frame::new(64, 32, PixelFormat::Uyvy);
    let mut sent = 0;
    for ts in 0..10 {
        sent += tx.send_video(&frame, &params(), ts, b"").unwrap();
    }
    assert_eq!(sent, MAX_QUEUED_AV);
    assert_eq!(tx.stats().frames_dropped, 10 - MAX_QUEUED_AV as u64);
}

// ---------------------------------------------------------------------------
// Decoded media
// ---------------------------------------------------------------------------

fn source(w: usize, h: usize, format: PixelFormat) -> Frame {
    let mut f = Frame::new(w, h, format);
    for (p, plane) in f.planes.iter_mut().enumerate() {
        for (i, b) in plane.data.iter_mut().enumerate() {
            *b = ((i * (5 + p) / 3) % 220) as u8 + 16;
        }
    }
    f
}

fn expected(f: &Frame, out: PixelFormat) -> Vec<u8> {
    let mut cfg = EncoderConfig::new(f.width, f.height);
    cfg.profile = Profile::OmtSq;
    let packet = Encoder::new(cfg).unwrap().encode(f).unwrap();
    let d = Decoder::new(f.width, f.height).unwrap().decode(&packet, out).unwrap();
    d.planes.iter().flat_map(|p| p.data.iter().copied()).collect()
}

/// Sends `frame` once and returns the first decoded video frame.
fn round_trip(name: &str, frame: &Frame, pref: PreferredVideoFormat) -> VideoFrame {
    let mut tx = sender_at(name, 6400);
    let mut rx = receiver_of(6400, ReceiverConfig { audio: false, ..ReceiverConfig::default() });
    let mut link = Link::open(&rx, &mut tx);
    assert_eq!(tx.video_receivers(), 1);
    let p = VideoParams { frame_rate_n: 50, ..params() };
    assert_eq!(tx.send_video(frame, &p, 777, b"<F />\0"), Ok(1));
    let mut dec = MediaDecoder::new(pref);
    for f in frame_events(link.pump(&mut tx, &mut rx)) {
        if let Some(Media::Video(v)) = dec.decode(&f).unwrap() {
            return v.clone();
        }
    }
    panic!("no video");
}

#[test]
fn uyvy_round_trip() {
    let src = source(256, 64, PixelFormat::Uyvy);
    let v = round_trip("media-uyvy", &src, PreferredVideoFormat::UyvyOrUyvaOrP216OrPa16);
    assert_eq!((v.format, v.width, v.height, v.stride), (VideoFormat::Uyvy, 256, 64, 512));
    assert_eq!(
        (v.timestamp, v.frame_rate_n as f64 / v.frame_rate_d as f64, f32::from_bits(v.aspect_ratio)),
        (777, 50.0, 2.0)
    );
    assert_eq!((v.color_space, v.metadata.as_slice()), (709, &b"<F />\0"[..]));
    assert!(!v.is_high_bit_depth() && !v.has_alpha());
    assert!(v.data == expected(&src, PixelFormat::Uyvy));
}

#[test]
fn p216_round_trip_keeps_ten_bits() {
    let mut src = Frame::new(128, 32, PixelFormat::P216);
    // A 10-bit luma ramp: levels an 8-bit path cannot hold.
    for (i, px) in src.planes[0].data.chunks_exact_mut(2).enumerate() {
        let v10 = 64 + (i % 128) as u16 * 7;
        px.copy_from_slice(&(v10 << 6).to_le_bytes());
    }
    for px in src.planes[1].data.chunks_exact_mut(2) {
        px.copy_from_slice(&(512u16 << 6).to_le_bytes());
    }
    let v = round_trip("media-p216", &src, PreferredVideoFormat::UyvyOrUyvaOrP216OrPa16);
    assert_eq!(v.format, VideoFormat::P216);
    assert!(v.is_high_bit_depth());
    assert!(v.data == expected(&src, PixelFormat::P216));
    let lsb2: usize = v.planes()[0]
        .chunks_exact(2)
        .map(|b| ((u16::from_le_bytes([b[0], b[1]]) >> 6) & 3 != 0) as usize)
        .sum();
    assert!(lsb2 > 1000, "10-bit detail kept ({lsb2} samples)");
}

#[test]
fn alpha_round_trips_as_uyva_bgra_and_pa16() {
    let src = source(64, 32, PixelFormat::Uyva);
    let v = round_trip("media-uyva", &src, PreferredVideoFormat::UyvyOrUyva);
    assert_eq!(v.format, VideoFormat::Uyva);
    assert!(v.has_alpha());
    assert!(v.data == expected(&src, PixelFormat::Uyva));
    let v = round_trip("media-bgra", &src, PreferredVideoFormat::UyvyOrBgra);
    assert_eq!((v.format, v.data.len()), (VideoFormat::Bgra, 64 * 4 * 32));
    // Alpha came through: the source's alpha plane, after coding.
    let alpha: Vec<u8> = v.data.chunks_exact(4).map(|p| p[3]).collect();
    assert!(alpha == expected(&src, PixelFormat::Uyva)[64 * 2 * 32..]);

    let src = source(64, 32, PixelFormat::Pa16);
    let v = round_trip("media-pa16", &src, PreferredVideoFormat::UyvyOrUyvaOrP216OrPa16);
    assert_eq!(v.format, VideoFormat::Pa16);
    assert!(v.has_alpha() && v.is_high_bit_depth());
    assert!(v.data == expected(&src, PixelFormat::Pa16));
}

#[test]
fn audio_and_metadata_round_trip() {
    let mut tx = sender_at("media-audio", 6400);
    let mut rx = receiver_of(6400, ReceiverConfig::default());
    let mut link = Link::open(&rx, &mut tx);
    assert_eq!(tx.connections(), 2);
    // Three channels, the middle one silent (left out on the wire).
    let mut samples = vec![0.0f32; 3 * 480];
    for i in 0..480 {
        samples[i] = (i as f32 / 480.0).sin();
        samples[2 * 480 + i] = -0.5;
    }
    let bits: Vec<u32> = samples.iter().map(|s| s.to_bits()).collect();
    assert_eq!(tx.send_audio(&bits, 3, 48000, 99, b"<A />"), 1);
    assert!(tx.send_metadata(b"<App X=\"1\" />\0", 5) >= 1);

    let mut dec = MediaDecoder::new(PreferredVideoFormat::Uyvy);
    let (mut got_audio, mut got_meta) = (false, false);
    for f in frame_events(link.pump(&mut tx, &mut rx)) {
        match dec.decode(&f).unwrap() {
            Some(Media::Audio(a)) => {
                assert_eq!((a.channels, a.samples_per_channel, a.sample_rate), (3, 480, 48000));
                assert_eq!((a.timestamp, a.active_channels), (99, 0b101));
                let back: Vec<f32> = a.samples.iter().map(|b| f32::from_bits(*b)).collect();
                assert_eq!(back, samples);
                assert_eq!(a.metadata, b"<A />");
                got_audio = true;
            }
            Some(Media::Metadata(m)) if !m.sender_info => {
                assert_eq!((m.timestamp, m.text().as_str()), (5, "<App X=\"1\" />"));
                got_meta = true;
            }
            _ => {}
        }
    }
    assert!(got_audio && got_meta, "audio {got_audio} metadata {got_meta}");
}

// ---------------------------------------------------------------------------
// What a receiver sends
// ---------------------------------------------------------------------------

#[test]
fn opens_two_connections_with_libomtnet_sequences() {
    let cfg = ReceiverConfig {
        quality: Quality::High,
        tally: Tally { preview: false, program: true },
        reconnect: false,
        ..ReceiverConfig::default()
    };
    let first = cfg.first_connection();
    assert_eq!(first.channel, Channel::Video);
    assert_eq!(
        commands_in(&command_stream(&first.commands)),
        [
            Command::SubscribeMetadata,
            Command::SubscribeVideo,
            Command::Quality(Quality::High),
            Command::Tally(Tally { preview: false, program: true }),
        ]
    );
    let second = cfg.second_connection().unwrap();
    assert_eq!(second.channel, Channel::Audio);
    assert_eq!(commands_in(&command_stream(&second.commands)), [Command::SubscribeAudio]);
}

#[test]
fn audio_only_subscribes_metadata_on_the_audio_connection() {
    let cfg = ReceiverConfig { video: false, reconnect: false, ..ReceiverConfig::default() };
    let first = cfg.first_connection();
    assert_eq!(
        commands_in(&command_stream(&first.commands)),
        [Command::SubscribeMetadata, Command::SubscribeAudio]
    );
    assert_eq!(first.channel, Channel::Audio);
    assert!(cfg.second_connection().is_none());
    assert!(cfg.connected(false, true) && !cfg.connected(true, false));
    assert_eq!(metadata_channel(false, true), Some(Channel::Audio));
}

#[test]
fn metadata_only_sends_only_the_metadata_subscription() {
    let cfg = ReceiverConfig { video: false, audio: false, reconnect: false, ..ReceiverConfig::default() };
    let first = cfg.first_connection();
    assert_eq!(commands_in(&command_stream(&first.commands)), [Command::SubscribeMetadata]);
    assert!(cfg.second_connection().is_none());
}

#[test]
fn reconnects_and_resends_current_state() {
    let mut r = receiver_of(6400, ReceiverConfig { audio: false, ..ReceiverConfig::default() });
    let tally = Tally { preview: true, program: true };
    assert_eq!(commands_in(&r.send(Command::Tally(tally))), [Command::Tally(tally)]);
    r.send(Command::Quality(Quality::Low));
    // The connection drops: nothing happens before a second has passed.
    assert_eq!(r.wait_ms(300), Some(700));
    let d = r.decide(300, false, false);
    assert!(!d.stop && !d.reconnect && !d.start_side);
    let d = r.decide(1000, false, false);
    assert!(d.reconnect && !d.retarget);
    assert_eq!(
        commands_in(&command_stream(&r.config().first_connection().commands)),
        [
            Command::SubscribeMetadata,
            Command::SubscribeVideo,
            Command::Quality(Quality::Low),
            Command::Tally(tally),
        ]
    );
    r.reopened(&d, true);
    let stats = r.stats();
    assert_eq!((stats.reconnects, stats.redirects), (1, 0));
    // Nothing to do while it is connected, and nothing at all once closed.
    assert!(!r.decide(5000, true, false).reconnect);
    r.close();
    assert!(r.decide(5000, false, true).stop);
}

#[test]
fn connects_by_url() {
    let a = Address::parse("omt://127.0.0.1:6400").unwrap();
    let r = Receiver::new(a, ReceiverConfig { audio: false, ..ReceiverConfig::default() });
    assert_eq!(r.target().resolve(None, vec![]).unwrap(), [socket(6400)]);
    assert_eq!(r.config().first_connection().commands[0], Command::SubscribeMetadata);
    assert!(Address::parse("omt://127.0.0.1").is_err());
}

#[test]
fn a_name_is_resolved_again_after_the_sender_moves() {
    let source = |port| {
        SourceEvent::Resolved(Source {
            full_name: "TEST (moves)".into(),
            host: "test-omt.local.".into(),
            port,
            addresses: vec![LOOPBACK],
        })
    };
    let mut dir = Directory::manual();
    dir.apply(source(6400));
    let r = Receiver::new(Address::parse("TEST (moves)").unwrap(), ReceiverConfig::default());
    assert_eq!(r.target().resolve(Some(&dir), vec![]).unwrap(), [socket(6400)]);
    dir.apply(SourceEvent::Removed("TEST (moves)".into()));
    assert!(r.target().resolve(Some(&dir), vec![]).is_err());
    dir.apply(source(6405));
    assert_eq!(r.target().resolve(Some(&dir), vec![]).unwrap(), [socket(6405)]);
}

#[test]
fn the_first_address_that_answers_is_taken() {
    let mut step = OpenStep::start(3);
    assert_eq!(step, OpenStep::First(0));
    step = step.next(false, 3, true);
    assert_eq!(step, OpenStep::First(1));
    step = step.next(true, 3, true);
    assert_eq!(step, OpenStep::Second(1));
    assert_eq!(step.next(true, 3, true), OpenStep::Done(1));
    assert_eq!(step.next(false, 3, true), OpenStep::Failed);
    assert_eq!(OpenStep::start(0), OpenStep::Failed);
    assert_eq!(OpenStep::First(2).next(false, 3, false), OpenStep::Failed);
    assert_eq!(OpenStep::First(2).next(true, 3, false), OpenStep::Done(2));
}

#[test]
fn a_bad_stream_ends_the_connection() {
    let mut r = receiver_of(6400, ReceiverConfig::default());
    let mut d = Deframer::new(Limits::video());
    let mut bytes = command_stream(&[Command::SubscribeVideo]);
    bytes.extend_from_slice(&[9; 16]);
    let (events, error) = r.received(Channel::Video, &mut d, &bytes);
    assert_eq!(events.len(), 1);
    assert_eq!(error, Some(open_media_transport::Error::UnsupportedVersion(9)));
    assert_eq!(r.stats().video.bytes, bytes.len() as u64);
    assert_eq!(r.stats().video.frames, 1);
}

// ---------------------------------------------------------------------------
// Redirects
// ---------------------------------------------------------------------------

fn url(port: u16) -> String {
    format!("omt://127.0.0.1:{port}")
}

fn redirects(events: &[Event]) -> Vec<Option<String>> {
    events
        .iter()
        .filter_map(|e| match e {
            Event::Redirect(r) => Some(r.clone()),
            _ => None,
        })
        .collect()
}

/// The port of the address that the receiver connects to.
fn target_port(rx: &Receiver) -> u16 {
    rx.target().resolve(None, vec![]).unwrap()[0].port
}

/// A metadata-only connection to a sender, and what it hears of redirects.
struct Side {
    id: u64,
}

impl Side {
    fn open(tx: &mut Sender) -> Side {
        let id = tx.connect(socket(60000));
        Link::say(tx, id, &command_stream(&[Command::SubscribeMetadata]));
        Side { id }
    }

    fn heard(&self, tx: &mut Sender) -> Vec<String> {
        let mut out = Vec::new();
        while let Some((bytes, metadata)) = tx.next_write(self.id) {
            for f in frames_in(&bytes) {
                if let Message::Redirect(x) = classify(&f.data) {
                    out.extend(parse(x));
                }
            }
            tx.written(self.id, metadata);
        }
        out
    }
}

#[test]
fn follows_moves_and_returns() {
    let mut a = sender_at("a", 6401);
    let mut rx = receiver_of(6401, ReceiverConfig { audio: false, ..ReceiverConfig::default() });
    let mut link = Link::open(&rx, &mut a);
    assert_eq!(redirects(&link.pump(&mut a, &mut rx)), vec![]);

    a.set_redirect(Some(&url(6402)));
    assert_eq!(a.redirect(), Some(url(6402)));
    assert_eq!(redirects(&link.pump(&mut a, &mut rx)), vec![Some(url(6402))]);
    assert_eq!(target_port(&rx), 6402);
    let d = rx.decide(0, true, false);
    assert!(d.reconnect && d.retarget && d.start_side);
    link.close(&mut a);
    // The sender keeps a metadata-only side connection from the receiver.
    let side = Side::open(&mut a);
    rx.side_started();
    assert_eq!((a.connections(), a.video_receivers()), (1, 0));
    for to in side.heard(&mut a) {
        assert_eq!(rx.redirect_heard(true, &to), None, "nothing new");
    }

    a.set_redirect(Some(&url(6403)));
    for to in side.heard(&mut a) {
        assert_eq!(rx.redirect_heard(true, &to), Some(Some(url(6403))));
    }
    assert_eq!(target_port(&rx), 6403);

    a.set_redirect(None);
    assert_eq!(a.redirect(), None);
    for to in side.heard(&mut a) {
        assert_eq!(rx.redirect_heard(true, &to), Some(None));
    }
    assert_eq!(target_port(&rx), 6401);
    assert_eq!(rx.redirect(), None);
    assert_eq!(rx.stats().redirects, 3);
}

#[test]
fn a_new_receiver_is_redirected_on_connect() {
    let mut a = sender_at("a", 6401);
    a.set_redirect(Some(&url(6402)));
    let mut rx = receiver_of(6401, ReceiverConfig { audio: false, ..ReceiverConfig::default() });
    let mut link = Link::open(&rx, &mut a);
    link.pump(&mut a, &mut rx);
    assert_eq!(rx.redirect(), Some(url(6402)));
    assert_eq!(target_port(&rx), 6402);
}

#[test]
fn redirect_to_self_is_none() {
    let mut a = sender_at("a", 6401);
    a.set_redirect(Some(&url(6401)));
    assert_eq!(a.redirect(), None);
    let own = full_name(&machine_name(), "a");
    a.set_redirect(Some(&own));
    assert_eq!(a.redirect(), None);
}

#[test]
fn chains_are_forwarded_by_the_first_sender() {
    // a -> b, then b -> c. a forwards c; when b clears, a goes back to b.
    let mut a = sender_at("a", 6401);
    let mut b = sender_at("b", 6402);
    a.set_redirect(Some(&url(6402)));
    let watch = Side::open(&mut b);
    b.set_redirect(Some(&url(6403)));
    for to in watch.heard(&mut b) {
        a.target_redirected(&to);
    }
    assert_eq!(a.redirect(), Some(url(6403)));
    b.set_redirect(None);
    for to in watch.heard(&mut b) {
        a.target_redirected(&to);
    }
    assert_eq!(a.redirect(), Some(url(6402)));
}

#[test]
fn no_redirect_message_on_connect_after_a_clear() {
    let mut a = sender_at("a", 6401);
    a.set_redirect(Some(&url(6402)));
    a.set_redirect(None);
    let mut rx = receiver_of(
        6401,
        ReceiverConfig {
            audio: false,
            reconnect: false,
            follow_redirects: false,
            ..ReceiverConfig::default()
        },
    );
    let mut link = Link::open(&rx, &mut a);
    let kinds: Vec<bool> = frame_events(link.pump(&mut a, &mut rx))
        .iter()
        .map(|f| matches!(classify(&f.data), Message::Redirect(_)))
        .collect();
    assert!(!kinds.is_empty() && !kinds.contains(&true), "{kinds:?}");
}

#[test]
fn redirects_that_are_ignored() {
    let mut rx = receiver_of(6401, ReceiverConfig::default());
    assert_eq!(rx.redirect_heard(false, ""), None, "an empty first redirect");
    assert_eq!(rx.redirect_heard(false, &url(6401)), None, "the original address");
    assert_eq!(rx.redirect_heard(false, &url(6402)), Some(Some(url(6402))));
    assert_eq!(rx.redirect_heard(false, &url(6403)), None, "from the redirect target itself");
    let mut deaf = receiver_of(6401, ReceiverConfig { follow_redirects: false, ..ReceiverConfig::default() });
    assert_eq!(deaf.redirect_heard(false, &url(6402)), None);
}
