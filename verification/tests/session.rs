use xmip_core_transport_bluetooth::error::Error;
use xmip_core_transport_bluetooth::l2cap;
use xmip_core_transport_bluetooth::l2cap::Signal;
use xmip_core_transport_bluetooth::packet;
use xmip_core_transport_bluetooth::rfcomm;
use xmip_core_transport_bluetooth::rfcomm::Control;
use xmip_core_transport_bluetooth::session::{Response, Session};

fn signal(signal: &Signal) -> Vec<u8> {
    l2cap::Frame::new(l2cap::SIGNALLING, &signal.encode())
        .expect("frame")
        .encode()
}

fn frame(dlci: u8, control: Control, information: &[u8]) -> Vec<u8> {
    let frame = rfcomm::Frame::new(dlci, control, information).expect("frame");
    l2cap::Frame::new(l2cap::FIRST_DYNAMIC, &frame.encode())
        .expect("frame")
        .encode()
}

fn answered(response: &Response) -> rfcomm::Frame {
    let packet = l2cap::Frame::decode(&response.answers[0]).expect("l2cap");
    assert_eq!(packet.cid, 0x0040, "on the requester's channel");
    rfcomm::Frame::decode(&packet.payload).expect("rfcomm")
}

fn connected(source: u16) -> Session {
    let mut session = Session::new();
    let connect = Signal::ConnectionRequest {
        identifier: 1,
        psm: l2cap::RFCOMM_PSM,
        source,
    };
    session.handle(&signal(&connect)).expect("connect");
    session
}

fn opened(dlci: u8) -> Session {
    let mut session = connected(0x0040);
    session
        .handle(&frame(0, Control::Sabm, &[]))
        .expect("sabm 0");
    session
        .handle(&frame(dlci, Control::Sabm, &[]))
        .expect("sabm");
    session
}

#[test]
fn a_stream_is_the_information_between_sabm_and_disc() {
    let mut session = Session::new();
    let connect = Signal::ConnectionRequest {
        identifier: 1,
        psm: l2cap::RFCOMM_PSM,
        source: 0x0040,
    };
    let response = session.handle(&signal(&connect)).expect("connect");
    let packet = l2cap::Frame::decode(&response.answers[0]).expect("l2cap");
    assert!(matches!(
        Signal::decode(&packet.payload).expect("signal"),
        Signal::ConnectionResponse {
            result: 0,
            destination: 0x0040,
            ..
        }
    ));
    let response = session
        .handle(&frame(0, Control::Sabm, &[]))
        .expect("sabm 0");
    assert_eq!(answered(&response).control, Control::Ua);
    let response = session
        .handle(&frame(2, Control::Sabm, &[]))
        .expect("sabm 2");
    assert_eq!(answered(&response).control, Control::Ua);
    for chunk in [&b"hel"[..], b"lo"] {
        let response = session.handle(&frame(2, Control::Uih, chunk)).expect("uih");
        assert!(response.answers.is_empty(), "data is not acknowledged");
    }
    let response = session.handle(&frame(2, Control::Disc, &[])).expect("disc");
    assert_eq!(answered(&response).control, Control::Ua);
    assert_eq!(response.complete, Some((2, b"hello".to_vec())));
    let response = session
        .handle(&frame(0, Control::Disc, &[]))
        .expect("disc 0");
    assert_eq!(answered(&response).control, Control::Ua);
}

#[test]
fn what_was_not_opened_is_answered_dm_or_refused() {
    let mut session = Session::new();
    assert!(
        session.handle(&frame(2, Control::Uih, b"x")).is_err(),
        "no channel"
    );
    let elsewhere = Signal::ConnectionRequest {
        identifier: 1,
        psm: 0x0011,
        source: 0x0040,
    };
    let response = session.handle(&signal(&elsewhere)).expect("answered");
    let packet = l2cap::Frame::decode(&response.answers[0]).expect("l2cap");
    assert!(matches!(
        Signal::decode(&packet.payload).expect("signal"),
        Signal::ConnectionResponse { result: 2, .. }
    ));
    assert!(
        session.handle(&frame(2, Control::Uih, b"x")).is_err(),
        "still no channel"
    );
    let connect = Signal::ConnectionRequest {
        identifier: 2,
        psm: l2cap::RFCOMM_PSM,
        source: 0x0040,
    };
    session.handle(&signal(&connect)).expect("connect");
    let response = session
        .handle(&frame(2, Control::Sabm, &[]))
        .expect("before 0");
    assert_eq!(
        answered(&response).control,
        Control::Dm,
        "multiplexer not up"
    );
    let response = session.handle(&frame(2, Control::Uih, b"x")).expect("data");
    assert_eq!(answered(&response).control, Control::Dm, "link not open");
    assert!(session.handle(&[0, 0, 0x99, 0]).is_err(), "unknown channel");
    let reply = Signal::ConnectionResponse {
        identifier: 1,
        destination: 1,
        source: 1,
        result: 0,
    };
    assert!(
        session.handle(&signal(&reply)).is_err(),
        "a response to nothing"
    );
}

#[test]
fn a_packet_is_refused_for_what_is_wrong_with_it() {
    let mut session = Session::new();
    assert_eq!(session.handle(&[1, 2]), Err(Error::FrameCut));
    assert_eq!(
        session.handle(&frame(2, Control::Uih, b"x")),
        Err(Error::ChannelNotOpen(0x0040))
    );
    assert_eq!(
        session.handle(&[0, 0, 0x99, 0]),
        Err(Error::ChannelNotOpen(0x0099))
    );
    assert_eq!(session.handle(&[0, 0, 1, 0]), Err(Error::SignalCut));
    let reply = Signal::DisconnectionResponse {
        identifier: 1,
        destination: 1,
        source: 1,
    };
    assert_eq!(session.handle(&signal(&reply)), Err(Error::ResponseNotDue));
    let mut session = connected(0x0040);
    assert_eq!(
        session.handle(&[1, 0, 0x40, 0, 0x0b]),
        Err(Error::InformationCut)
    );
}

#[test]
fn a_refused_packet_leaves_the_stream_as_it_was() {
    let mut session = opened(8);
    session.handle(&frame(8, Control::Uih, b"ab")).expect("uih");
    assert!(session.handle(&[0, 0]).is_err());
    assert!(session.handle(&[0, 0, 0x99, 0]).is_err());
    assert!(session.handle(&[1, 0, 0x40, 0, 0x0b]).is_err());
    session.handle(&frame(8, Control::Uih, b"cd")).expect("uih");
    let response = session.handle(&frame(8, Control::Disc, &[])).expect("disc");
    assert_eq!(response.complete, Some((8, b"abcd".to_vec())));
}

#[test]
fn one_link_is_open_at_a_time() {
    let mut session = opened(4);
    let response = session
        .handle(&frame(6, Control::Sabm, &[]))
        .expect("second");
    assert_eq!(answered(&response).control, Control::Dm);
    assert_eq!(answered(&response).dlci, 6);
    let response = session
        .handle(&frame(4, Control::Sabm, &[]))
        .expect("again");
    assert_eq!(answered(&response).control, Control::Dm);
    let response = session.handle(&frame(6, Control::Disc, &[])).expect("disc");
    assert_eq!(answered(&response).control, Control::Dm);
    assert_eq!(response.complete, None);
    let response = session.handle(&frame(4, Control::Disc, &[])).expect("disc");
    assert_eq!(response.complete, Some((4, Vec::new())));
    let response = session.handle(&frame(4, Control::Disc, &[])).expect("over");
    assert_eq!(answered(&response).control, Control::Dm);
}

#[test]
fn a_stream_is_of_its_own_link_whatever_comes_between() {
    let mut session = opened(8);
    let between = [
        frame(8, Control::Uih, b"ab"),
        frame(4, Control::Uih, b"other"),
        frame(0, Control::Uih, b"control"),
        frame(4, Control::Sabm, &[]),
        frame(4, Control::Disc, &[]),
        frame(0, Control::Disc, &[]),
        frame(0, Control::Sabm, &[]),
        frame(8, Control::Sabm, &[]),
        frame(8, Control::Ua, b"ua"),
        frame(8, Control::Uih, b"cd"),
    ];
    for packet in between {
        let response = session.handle(&packet).expect("handled");
        assert_eq!(response.complete, None);
        assert!(!response.closed);
    }
    assert!(session.handle(&[9]).is_err());
    let elsewhere = Signal::ConnectionRequest {
        identifier: 3,
        psm: 0x0011,
        source: 0x0050,
    };
    session.handle(&signal(&elsewhere)).expect("refused");
    let response = session.handle(&frame(8, Control::Disc, &[])).expect("disc");
    assert_eq!(answered(&response).control, Control::Ua);
    assert_eq!(response.complete, Some((8, b"abcd".to_vec())));
}

#[test]
fn answers_are_not_answered() {
    let mut session = opened(4);
    for control in [Control::Ua, Control::Dm] {
        assert_eq!(
            session.handle(&frame(4, control, &[])),
            Ok(Response::default())
        );
    }
}

#[test]
fn an_open_link_outlives_its_multiplexer() {
    let mut session = opened(10);
    session.handle(&frame(10, Control::Uih, b"x")).expect("uih");
    session
        .handle(&frame(0, Control::Disc, &[]))
        .expect("disc 0");
    session.handle(&frame(10, Control::Uih, b"y")).expect("uih");
    let response = session
        .handle(&frame(10, Control::Disc, &[]))
        .expect("disc");
    assert_eq!(response.complete, Some((10, b"xy".to_vec())));
    let response = session
        .handle(&frame(10, Control::Sabm, &[]))
        .expect("sabm");
    assert_eq!(answered(&response).control, Control::Dm, "multiplexer down");
}

#[test]
fn a_disconnection_ends_the_connection_and_what_was_open() {
    let mut session = opened(4);
    session.handle(&frame(4, Control::Uih, b"x")).expect("uih");
    let request = Signal::DisconnectionRequest {
        identifier: 7,
        destination: 0x0040,
        source: 0x0041,
    };
    let response = session.handle(&signal(&request)).expect("disconnect");
    assert!(response.closed);
    assert_eq!(response.complete, None);
    assert_eq!(
        response.answers,
        [signal(&Signal::DisconnectionResponse {
            identifier: 7,
            destination: 0x0040,
            source: 0x0041,
        })]
    );
    assert_eq!(
        session.handle(&frame(4, Control::Uih, b"x")),
        Err(Error::ChannelNotOpen(0x0040))
    );
}

#[test]
fn the_answer_goes_to_the_channel_the_requester_named() {
    let mut session = connected(0x0777);
    let response = session
        .handle(&frame(0, Control::Sabm, &[]))
        .expect("sabm 0");
    let packet = l2cap::Frame::decode(&response.answers[0]).expect("l2cap");
    assert_eq!(packet.cid, 0x0777);
    assert_eq!(packet.payload, [0x03, 0x73, 0x01, 0xd7]);
    assert!(!response.closed);
}

#[test]
fn a_requester_on_the_null_channel_cannot_be_answered() {
    let mut session = connected(0);
    assert_eq!(
        session.handle(&frame(0, Control::Sabm, &[])),
        Err(Error::NullChannel)
    );
    let connect = Signal::ConnectionRequest {
        identifier: 2,
        psm: l2cap::RFCOMM_PSM,
        source: 0x0040,
    };
    session.handle(&signal(&connect)).expect("connect");
    let response = session.handle(&frame(2, Control::Sabm, &[])).expect("sabm");
    assert_eq!(
        answered(&response).control,
        Control::Ua,
        "the multiplexer came up all the same"
    );
}

#[test]
fn packets_are_frames_within_frames() {
    let request = Signal::ConnectionRequest {
        identifier: 1,
        psm: 3,
        source: 0x0040,
    };
    assert_eq!(
        packet::of_signal(&request),
        [8, 0, 1, 0, 2, 1, 4, 0, 3, 0, 0x40, 0]
    );
    assert_eq!(
        packet::of_rfcomm(0x0040, 0, Control::Sabm, &[]),
        Ok(vec![4, 0, 0x40, 0, 0x03, 0x3f, 0x01, 0x1c])
    );
    assert_eq!(
        packet::of_rfcomm(0x0041, 2, Control::Uih, b"A"),
        Ok(vec![5, 0, 0x41, 0, 0x0b, 0xef, 0x03, b'A', 0x9a])
    );
    assert_eq!(
        packet::of_rfcomm(0, 2, Control::Uih, b"A"),
        Err(Error::NullChannel)
    );
    assert_eq!(
        packet::of_rfcomm(0, 62, Control::Uih, b"A"),
        Err(Error::DlciOver)
    );
    assert_eq!(
        packet::of_rfcomm(1, 2, Control::Uih, &vec![0; rfcomm::MAX_FRAME + 1]),
        Err(Error::InformationTooLong)
    );
}
