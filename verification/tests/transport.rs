use std::collections::VecDeque;
use std::sync::{Arc, Mutex};
use std::time::Duration;
use xmip_core_transport_bluetooth::l2cap::{Frame, Signal};
use xmip_core_transport_bluetooth::packet;
use xmip_core_transport_bluetooth::rfcomm;
use xmip_core_transport_bluetooth::rfcomm::Control;
use xmip_core_transport_bluetooth::server::Serving;
use xmip_core_transport_bluetooth::transport::server_channel;
use xmip_core_transport_bluetooth::{
    Arrived, BluetoothTransport, Error, LoopbackRadio, Radio, Reception,
};

const TIMEOUT: Duration = Duration::from_millis(250);

/// A Stream sent to server channel 3 of a loopback, and taken at its far end.
fn round(
    loopback: &mut BluetoothTransport<LoopbackRadio>,
    bytes: &[u8],
) -> Result<Arrived, Error> {
    loopback.send_to(Some("3"), bytes)?;
    loopback.take_arrived()
}

fn mebibyte() -> Vec<u8> {
    (0..1u32 << 20)
        .map(|n| u8::try_from(n * 31 % 256).unwrap_or(0))
        .collect()
}

/// The shapes a protocol breaks on.
fn payloads() -> Vec<(&'static str, Vec<u8>)> {
    vec![
        ("nothing", Vec::new()),
        ("one byte", vec![0]),
        ("every byte", (0..=255).collect()),
        ("line ends", b"\r\n\n\r\0".to_vec()),
        ("a frame less one", vec![1; rfcomm::N1 - 1]),
        ("a frame", vec![2; rfcomm::N1]),
        ("a frame and one", vec![3; rfcomm::N1 + 1]),
        ("two frames", vec![4; 2 * rfcomm::N1]),
        ("a packet of its own", packet::of_signal(&disconnection())),
        ("a mebibyte", mebibyte()),
    ]
}

fn disconnection() -> Signal {
    Signal::DisconnectionRequest {
        identifier: 2,
        destination: 0x0040,
        source: 0x0040,
    }
}

#[test]
fn a_loopback_round_carries_a_stream_as_one_data_link() {
    let mut loopback = BluetoothTransport::loopback(TIMEOUT);
    let arrived = round(&mut loopback, b"scan 4006381333931").expect("round");
    assert_eq!(arrived.bytes, b"scan 4006381333931");
    assert_eq!(arrived.origin_uri, "bt://loopback/3");
}

#[test]
fn the_loopback_returns_the_edges_whole() {
    let mut loopback = BluetoothTransport::loopback(TIMEOUT);
    for (name, bytes) in payloads() {
        let arrived = round(&mut loopback, &bytes)
            .unwrap_or_else(|error| panic!("{name}: {}", error.message()));
        assert_eq!(arrived.bytes, bytes, "{name}");
    }
}

#[test]
fn a_target_names_the_server_channel_and_a_bad_one_is_refused() {
    let mut loopback = BluetoothTransport::loopback(TIMEOUT);
    loopback.send(Some("7"), b"seven").expect("sending");
    assert_eq!(loopback.radio.take(), Some((14, b"seven".to_vec())));
    assert!(loopback.send(Some("31"), b"x").is_err());
    assert!(loopback.send(Some("zero"), b"x").is_err());
    let error = round(&mut loopback, b"").err();
    assert!(
        error.is_none(),
        "an empty Stream is a link with no UIH frames"
    );
}

/// Two ends of one air: what one transmits, the other receives.
#[derive(Default)]
struct Air {
    up: VecDeque<Vec<u8>>,
    down: VecDeque<Vec<u8>>,
}

struct End(Arc<Mutex<Air>>, bool);

impl Radio for End {
    fn name(&self) -> &str {
        "air"
    }
    fn transmit(&mut self, packet: &[u8]) -> Result<(), Error> {
        let mut air = self.0.lock().expect("lock");
        let queue = if self.1 { &mut air.down } else { &mut air.up };
        queue.push_back(packet.to_vec());
        Ok(())
    }
    fn receive(&mut self, _timeout: Duration) -> Result<Option<Vec<u8>>, Error> {
        let mut air = self.0.lock().expect("lock");
        let queue = if self.1 { &mut air.up } else { &mut air.down };
        Ok(queue.pop_front())
    }
}

/// The client's end, whose waiting lets the server take its turns.
struct Waiting {
    end: End,
    server: BluetoothTransport<End>,
    serving: Option<Serving>,
    arrived: Vec<Arrived>,
}

impl Radio for Waiting {
    fn name(&self) -> &str {
        "air"
    }
    fn transmit(&mut self, packet: &[u8]) -> Result<(), Error> {
        self.end.transmit(packet)
    }
    fn receive(&mut self, timeout: Duration) -> Result<Option<Vec<u8>>, Error> {
        loop {
            if let Some(packet) = self.end.receive(timeout)? {
                return Ok(Some(packet));
            }
            let serving = self.serving.take().expect("serving");
            match self.server.receive_one(serving, 1)? {
                Reception::Over(arrived) => self.arrived.extend(arrived),
                Reception::More(serving) => self.serving = Some(serving),
            }
        }
    }
}

#[test]
fn the_transport_serves_a_connection_over_any_radio() {
    let air = Arc::new(Mutex::new(Air::default()));
    let server = BluetoothTransport::new(End(Arc::clone(&air), true), 5)
        .timing_out_after(Duration::from_secs(2));
    let radio = Waiting {
        end: End(air, false),
        server,
        serving: Some(Serving::new()),
        arrived: Vec::new(),
    };
    let mut client = BluetoothTransport::new(radio, 5).timing_out_after(Duration::from_secs(2));
    client.send(Some("5"), &[9; 300]).expect("sending");
    let arrived = &client.radio.arrived;
    assert_eq!(arrived.len(), 1);
    assert_eq!(arrived[0].bytes, [9; 300]);
    assert_eq!(arrived[0].origin_uri, "bt://air/5");
    let quiet = client.radio.server.receive_one(Serving::new(), 1);
    assert!(
        matches!(quiet.expect("quiet"), Reception::Over(None)),
        "nobody is not an error"
    );
}

/// A radio that says what it was told to and keeps what it was asked.
#[derive(Clone, Default)]
struct Scripted {
    replies: VecDeque<Result<Option<Vec<u8>>, Error>>,
    refusals: VecDeque<Result<(), Error>>,
    said: Vec<Vec<u8>>,
    waits: Vec<Duration>,
}

impl Radio for Scripted {
    fn name(&self) -> &str {
        "scripted"
    }
    fn transmit(&mut self, packet: &[u8]) -> Result<(), Error> {
        self.said.push(packet.to_vec());
        self.refusals.pop_front().unwrap_or(Ok(()))
    }
    fn receive(&mut self, timeout: Duration) -> Result<Option<Vec<u8>>, Error> {
        self.waits.push(timeout);
        self.replies.pop_front().unwrap_or(Ok(None))
    }
}

fn hearing(replies: Vec<Vec<u8>>) -> BluetoothTransport<Scripted> {
    let radio = Scripted {
        replies: replies.into_iter().map(|reply| Ok(Some(reply))).collect(),
        ..Scripted::default()
    };
    BluetoothTransport::new(radio, 5).timing_out_after(TIMEOUT)
}

fn link_down() -> Error {
    Error::Link {
        message: "link down".to_string(),
        retryable: true,
    }
}

fn connection(result: u16) -> Vec<u8> {
    packet::of_signal(&Signal::ConnectionResponse {
        identifier: 1,
        destination: 0x0055,
        source: 0x0040,
        result,
    })
}

fn request() -> Vec<u8> {
    packet::of_signal(&Signal::ConnectionRequest {
        identifier: 1,
        psm: 3,
        source: 0x0040,
    })
}

fn closed() -> Vec<u8> {
    packet::of_signal(&Signal::DisconnectionResponse {
        identifier: 2,
        destination: 0x0055,
        source: 0x0040,
    })
}

fn rfcomm_frame(cid: u16, dlci: u8, control: Control, information: &[u8]) -> Vec<u8> {
    packet::of_rfcomm(cid, dlci, control, information).expect("packet")
}

fn reply(dlci: u8, control: Control) -> Vec<u8> {
    rfcomm_frame(0x0040, dlci, control, &[])
}

#[test]
fn a_stream_is_said_packet_by_packet_on_the_channel_the_server_gave() {
    let mut transport = hearing(vec![
        connection(0),
        reply(0, Control::Ua),
        reply(10, Control::Ua),
        reply(10, Control::Ua),
        reply(0, Control::Ua),
        closed(),
    ]);
    transport.send_stream(5, &[7; 200]).expect("sending");
    assert_eq!(
        transport.radio.said,
        [
            request(),
            rfcomm_frame(0x0055, 0, Control::Sabm, &[]),
            rfcomm_frame(0x0055, 10, Control::Sabm, &[]),
            rfcomm_frame(0x0055, 10, Control::Uih, &[7; 127]),
            rfcomm_frame(0x0055, 10, Control::Uih, &[7; 73]),
            rfcomm_frame(0x0055, 10, Control::Disc, &[]),
            rfcomm_frame(0x0055, 0, Control::Disc, &[]),
            packet::of_signal(&Signal::DisconnectionRequest {
                identifier: 2,
                destination: 0x0055,
                source: 0x0040,
            }),
        ]
    );
    assert_eq!(transport.radio.waits, [TIMEOUT; 6]);
}

#[test]
fn a_peer_that_answers_otherwise_is_an_error() {
    let sent = |replies| hearing(replies).send_stream(5, b"x");
    assert_eq!(sent(vec![]), Err(Error::NoAnswer));
    assert_eq!(sent(vec![connection(2)]), Err(Error::ChannelRefused(2)));
    assert_eq!(sent(vec![closed()]), Err(Error::NotConnectionResponse));
    assert_eq!(sent(vec![vec![1]]), Err(Error::FrameCut));
    assert_eq!(sent(vec![connection(0)]), Err(Error::NoAnswer));
    assert_eq!(
        sent(vec![connection(0), reply(0, Control::Dm)]),
        Err(Error::LinkRefused(0))
    );
    assert_eq!(
        sent(vec![
            connection(0),
            reply(0, Control::Ua),
            reply(10, Control::Dm)
        ]),
        Err(Error::LinkRefused(10))
    );
    assert_eq!(
        sent(vec![
            connection(0),
            reply(0, Control::Ua),
            reply(10, Control::Disc)
        ]),
        Err(Error::NotUa(Control::Disc))
    );
    assert_eq!(
        sent(vec![
            connection(0),
            reply(0, Control::Ua),
            reply(10, Control::Ua),
            reply(10, Control::Ua),
            reply(0, Control::Ua),
            vec![0, 0, 1, 0],
        ]),
        Err(Error::SignalCut)
    );
    for other in [connection(0), packet::of_signal(&disconnection()), request()] {
        assert_eq!(
            sent(vec![
                connection(0),
                reply(0, Control::Ua),
                reply(10, Control::Ua),
                reply(10, Control::Ua),
                reply(0, Control::Ua),
                other,
            ]),
            Err(Error::NotDisconnectionResponse)
        );
    }
}

#[test]
fn a_link_that_fails_ends_the_sending_with_its_error() {
    let mut transport = hearing(vec![
        connection(0),
        reply(0, Control::Ua),
        reply(10, Control::Ua),
    ]);
    transport
        .radio
        .refusals
        .extend([Ok(()), Ok(()), Ok(()), Err(link_down())]);
    assert_eq!(transport.send_stream(5, &[7; 500]), Err(link_down()));
    assert_eq!(transport.radio.said.len(), 4, "nothing after the refusal");
    let mut transport = hearing(vec![]);
    transport.radio.replies.push_back(Err(link_down()));
    assert_eq!(transport.send_stream(5, b"x"), Err(link_down()));
}

#[test]
fn a_server_on_the_null_channel_cannot_be_spoken_to() {
    let mut transport = hearing(vec![packet::of_signal(&Signal::ConnectionResponse {
        identifier: 1,
        destination: 0,
        source: 0x0040,
        result: 0,
    })]);
    assert_eq!(transport.send_stream(5, b"x"), Err(Error::NullChannel));
    assert_eq!(transport.radio.said, [request()]);
}

#[test]
fn a_channel_over_thirty_has_no_link_of_its_own() {
    let mut transport = hearing(vec![connection(0), reply(0, Control::Ua)]);
    assert_eq!(transport.send_stream(31, b"x"), Err(Error::DlciOver));
    let mut loopback = BluetoothTransport::loopback(TIMEOUT);
    loopback.send_stream(131, b"x").expect("sending");
    assert_eq!(
        loopback.radio.take(),
        Some((6, b"x".to_vec())),
        "twice 131 is 6 in eight bits"
    );
}

#[test]
fn a_server_channel_is_a_number_from_one_to_thirty() {
    for (named, channel) in [
        (None, 9),
        (Some(""), 9),
        (Some("1"), 1),
        (Some("30"), 30),
        (Some("007"), 7),
        (Some("+7"), 7),
    ] {
        assert_eq!(server_channel(named, 9), Ok(channel));
    }
    for named in [
        "0", "31", "256", "300", "-1", "+", "++1", "1 ", " 1", "zero", "1a", "3/", "4294967297",
    ] {
        assert_eq!(
            server_channel(Some(named), 9),
            Err(Error::NotServerChannel(named.to_string()))
        );
    }
}

#[test]
fn a_text_that_is_no_channel_is_refused_before_anything_is_said() {
    let mut transport = hearing(vec![connection(0)]);
    assert_eq!(
        transport.send(Some("31"), b"x"),
        Err(Error::NotServerChannel("31".to_string()))
    );
    assert!(transport.radio.said.is_empty());
    assert!(transport.radio.waits.is_empty());
}

#[test]
fn every_server_channel_is_named_in_the_origin_of_what_came_on_it() {
    for channel in 1..=30u8 {
        let mut loopback = BluetoothTransport::loopback(TIMEOUT);
        let named = channel.to_string();
        loopback.send_to(Some(&named), &[channel]).expect("sending");
        let arrived = loopback.take_arrived().expect("arrived");
        assert_eq!(arrived.origin_uri, loopback.origin(channel));
        assert_eq!(arrived.origin_uri, format!("bt://loopback/{channel}"));
        assert_eq!(arrived.bytes, [channel]);
        assert_eq!(server_channel(Some(&named), 0), Ok(channel));
    }
}

#[test]
fn streams_are_taken_in_the_order_they_came() {
    let mut loopback = BluetoothTransport::loopback(TIMEOUT);
    loopback.send_to(None, b"first").expect("sending");
    loopback.send_to(Some("30"), b"second").expect("sending");
    assert_eq!(
        loopback.take_arrived(),
        Ok(Arrived {
            origin_uri: "bt://loopback/3".to_string(),
            bytes: b"first".to_vec()
        })
    );
    assert_eq!(
        loopback.take_arrived(),
        Ok(Arrived {
            origin_uri: "bt://loopback/30".to_string(),
            bytes: b"second".to_vec()
        })
    );
    assert_eq!(loopback.take_arrived(), Err(Error::NoDataLink));
}

#[test]
fn a_loopback_returns_a_stream_after_any_calls_that_went_well() {
    let mut loopback = BluetoothTransport::loopback(TIMEOUT);
    loopback.send_stream(0, b"").expect("nothing, on channel 0");
    loopback.send_stream(2, b"two").expect("sending");
    assert!(matches!(
        loopback.receive_one(Serving::new(), 3),
        Ok(Reception::Over(None))
    ));
    assert!(loopback.send(Some("31"), b"x").is_err());
    loopback.send_stream(30, b"thirty").expect("sending");
    assert_eq!(loopback.radio.take(), Some((4, b"two".to_vec())));
    loopback.send_stream(3, b"three").expect("sending");
    assert_eq!(loopback.radio.take(), Some((60, b"thirty".to_vec())));
    assert_eq!(loopback.radio.take(), Some((6, b"three".to_vec())));
    assert_eq!(loopback.radio.take(), None);
    assert_eq!(loopback.radio.receive(TIMEOUT), Ok(None), "nothing waits");
}

#[test]
fn the_multiplexers_own_link_carries_nothing() {
    let mut loopback = BluetoothTransport::loopback(TIMEOUT);
    assert_eq!(
        loopback.send_stream(0, b"x"),
        Err(Error::LinkRefused(0)),
        "its data is answered DM"
    );
}

#[test]
fn a_transport_waits_five_seconds_unless_told_otherwise() {
    let transport = BluetoothTransport::new(Scripted::default(), 5);
    assert_eq!(transport.timeout, Duration::from_secs(5));
    assert_eq!(transport.timeout.as_millis(), 5_000);
    assert_eq!(transport.channel, 5);
    assert_eq!(transport.origin(255), "bt://scripted/255");
    let other = transport.clone().timing_out_after(TIMEOUT);
    assert_eq!(other.timeout, TIMEOUT);
    assert_eq!(other.channel, transport.channel);
}

#[test]
fn the_loopback_radio_answers_as_its_server_does() {
    let mut radio = LoopbackRadio::default();
    assert_eq!(radio.name(), "loopback");
    assert_eq!(radio.receive(TIMEOUT), Ok(None));
    assert_eq!(radio.take(), None);
    assert_eq!(radio.transmit(&[1]), Err(Error::FrameCut));
    assert_eq!(radio.transmit(&request()), Ok(()));
    let answer = radio.receive(TIMEOUT).expect("link").expect("answer");
    assert_eq!(
        Signal::decode(&Frame::decode(&answer).expect("frame").payload),
        Ok(Signal::ConnectionResponse {
            identifier: 1,
            destination: 0x0040,
            source: 0x0040,
            result: 0,
        })
    );
    assert_eq!(radio.receive(TIMEOUT), Ok(None), "answered once");
}

#[test]
fn a_peer_that_goes_quiet_once_connected_is_an_error() {
    let mut transport = hearing(vec![request()]);
    let received = transport.receive_one(Serving::new(), 9);
    assert_eq!(received.err(), Some(Error::WentQuiet));
    assert_eq!(transport.radio.said, [connection_on_forty()]);
    assert_eq!(transport.radio.waits, [TIMEOUT, TIMEOUT]);
}

#[test]
fn a_stream_whose_link_closed_is_handed_over_though_the_peer_goes_quiet() {
    let packets = vec![
        request(),
        rfcomm_frame(0x0040, 0, Control::Sabm, &[]),
        rfcomm_frame(0x0040, 12, Control::Sabm, &[]),
        rfcomm_frame(0x0040, 12, Control::Uih, b"all of it"),
        rfcomm_frame(0x0040, 12, Control::Disc, &[]),
    ];
    let mut transport = hearing(packets.clone());
    match transport.receive_one(Serving::new(), 9) {
        Ok(Reception::Over(Some(arrived))) => {
            assert_eq!(arrived.bytes, b"all of it");
            assert_eq!(arrived.origin_uri, "bt://scripted/6");
        }
        other => panic!("{other:?}"),
    }
    assert_eq!(transport.radio.said.len(), 4, "its DISC was answered");
    let mut transport = hearing(packets[..4].to_vec());
    let received = transport.receive_one(Serving::new(), 9);
    assert_eq!(
        received.err(),
        Some(Error::WentQuiet),
        "a link that is open has no Stream to hand over"
    );
    let mut transport = hearing(packets);
    transport.radio.replies.push_back(Err(link_down()));
    let received = transport.receive_one(Serving::new(), 9);
    assert_eq!(received.err(), Some(link_down()), "a link that cannot be read is an error");
}

fn connection_on_forty() -> Vec<u8> {
    packet::of_signal(&Signal::ConnectionResponse {
        identifier: 1,
        destination: 0x0040,
        source: 0x0040,
        result: 0,
    })
}

#[test]
fn serving_goes_on_where_its_turns_ran_out() {
    let mut transport = hearing(vec![
        request(),
        rfcomm_frame(0x0040, 0, Control::Sabm, &[]),
        rfcomm_frame(0x0040, 12, Control::Sabm, &[]),
        rfcomm_frame(0x0040, 12, Control::Uih, b"half "),
        rfcomm_frame(0x0040, 12, Control::Uih, b"and half"),
        rfcomm_frame(0x0040, 12, Control::Disc, &[]),
        rfcomm_frame(0x0040, 0, Control::Disc, &[]),
        packet::of_signal(&disconnection()),
    ]);
    let mut serving = match transport.receive_one(Serving::new(), 4) {
        Ok(Reception::More(serving)) => serving,
        other => panic!("{other:?}"),
    };
    assert!(serving.has_begun());
    serving = match transport.receive_one(serving, 0) {
        Ok(Reception::More(serving)) => serving,
        other => panic!("{other:?}"),
    };
    match transport.receive_one(serving, 100) {
        Ok(Reception::Over(Some(arrived))) => {
            assert_eq!(arrived.bytes, b"half and half");
            assert_eq!(arrived.origin_uri, "bt://scripted/6");
        }
        other => panic!("{other:?}"),
    }
    assert_eq!(transport.radio.said.len(), 6, "data is not acknowledged");
}

#[test]
fn a_connection_without_a_stream_is_nothing_taken() {
    let mut transport = hearing(vec![request(), packet::of_signal(&disconnection())]);
    let received = transport.receive_one(Serving::new(), 9);
    assert!(matches!(received, Ok(Reception::Over(None))));
}

#[test]
fn the_last_stream_of_a_connection_is_the_one_handed_over() {
    let mut transport = hearing(vec![
        request(),
        rfcomm_frame(0x0040, 0, Control::Sabm, &[]),
        rfcomm_frame(0x0040, 4, Control::Sabm, &[]),
        rfcomm_frame(0x0040, 4, Control::Uih, b"first"),
        rfcomm_frame(0x0040, 4, Control::Disc, &[]),
        rfcomm_frame(0x0040, 8, Control::Sabm, &[]),
        rfcomm_frame(0x0040, 8, Control::Uih, b"second"),
        rfcomm_frame(0x0040, 8, Control::Disc, &[]),
        packet::of_signal(&disconnection()),
    ]);
    match transport.receive_one(Serving::default(), 9) {
        Ok(Reception::Over(Some(arrived))) => {
            assert_eq!(arrived.bytes, b"second");
            assert_eq!(arrived.origin_uri, "bt://scripted/4");
        }
        other => panic!("{other:?}"),
    }
}

/// A radio whose name is new after every packet it transmitted.
struct Renamed {
    scripted: Scripted,
    name: String,
}

impl Radio for Renamed {
    fn name(&self) -> &str {
        &self.name
    }
    fn transmit(&mut self, packet: &[u8]) -> Result<(), Error> {
        let outcome = self.scripted.transmit(packet);
        self.name = format!("after-{}", self.scripted.said.len());
        outcome
    }
    fn receive(&mut self, timeout: Duration) -> Result<Option<Vec<u8>>, Error> {
        self.scripted.receive(timeout)
    }
}

#[test]
fn the_origin_names_the_radio_as_it_was_called_when_the_link_closed() {
    let scripted = hearing(vec![
        request(),
        rfcomm_frame(0x0040, 0, Control::Sabm, &[]),
        rfcomm_frame(0x0040, 4, Control::Sabm, &[]),
        rfcomm_frame(0x0040, 4, Control::Disc, &[]),
        rfcomm_frame(0x0040, 0, Control::Disc, &[]),
        packet::of_signal(&disconnection()),
    ])
    .radio;
    let radio = Renamed {
        scripted,
        name: "first".to_string(),
    };
    let mut transport = BluetoothTransport::new(radio, 5);
    let serving = match transport.receive_one(Serving::new(), 5) {
        Ok(Reception::More(serving)) => serving,
        other => panic!("{other:?}"),
    };
    match transport.receive_one(serving, 5) {
        Ok(Reception::Over(Some(arrived))) => {
            assert_eq!(arrived.origin_uri, "bt://after-4/2");
        }
        other => panic!("{other:?}"),
    }
    assert_eq!(transport.radio.name(), "after-6");
}

#[test]
fn a_link_or_a_peer_that_breaks_ends_the_serving() {
    let mut transport = hearing(vec![]);
    transport.radio.replies.push_back(Err(link_down()));
    let received = transport.receive_one(Serving::new(), 9);
    assert_eq!(received.err(), Some(link_down()));
    let mut transport = hearing(vec![request()]);
    transport.radio.refusals.push_back(Err(link_down()));
    let received = transport.receive_one(Serving::new(), 9);
    assert_eq!(received.err(), Some(link_down()));
    let mut transport = hearing(vec![request(), vec![0, 0, 0x99, 0]]);
    let received = transport.receive_one(Serving::new(), 9);
    assert_eq!(received.err(), Some(Error::ChannelNotOpen(0x0099)));
}

#[test]
fn a_connection_hears_and_keeps_what_a_link_delivered() {
    let mut serving = Serving::new();
    assert!(!serving.has_begun() && !serving.has_taken());
    assert_eq!(serving.hear(&[1]), Err(Error::FrameCut));
    assert!(!serving.has_begun());
    assert_eq!(
        serving.hear(&request()),
        Ok((vec![connection_on_forty()], false, false))
    );
    assert!(serving.has_begun());
    for packet in [
        rfcomm_frame(0x0040, 0, Control::Sabm, &[]),
        rfcomm_frame(0x0040, 2, Control::Sabm, &[]),
        rfcomm_frame(0x0040, 2, Control::Uih, b"kept"),
        rfcomm_frame(0x0040, 2, Control::Disc, &[]),
    ] {
        let (_, delivered, over) = serving.hear(&packet).expect("heard");
        assert_eq!(delivered, serving.has_taken());
        assert!(!over);
    }
    serving.delivered_on("bench");
    assert!(serving.has_taken());
    let (_, delivered, over) = serving
        .hear(&packet::of_signal(&disconnection()))
        .expect("heard");
    assert!(over && !delivered);
    assert_eq!(
        serving.into_taken(),
        (Some((2, b"kept".to_vec())), "bench".to_string())
    );
}
