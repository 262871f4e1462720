use xmip_core_transport_bluetooth::error::Error;
use xmip_core_transport_bluetooth::l2cap::{Frame, Signal, MAX_PAYLOAD, RFCOMM_PSM, SUCCESS};

#[test]
fn a_basic_frame_is_length_channel_and_payload_little_endian() {
    let frame = Frame::new(0x0040, b"hello").expect("frame");
    let bytes = frame.encode();
    assert_eq!(&bytes[..4], &[5, 0, 0x40, 0]);
    assert_eq!(Frame::decode(&bytes).expect("decode"), frame);
    assert!(Frame::decode(&bytes[..3]).is_err(), "cut off");
    assert!(Frame::decode(&bytes[..8]).is_err(), "length mismatch");
    assert!(Frame::new(0, b"").is_err(), "null identifier");
    assert!(Frame::new(1, &vec![0; MAX_PAYLOAD + 1]).is_err());
    assert!(Frame::new(1, &vec![0; MAX_PAYLOAD]).is_ok());
}

#[test]
fn every_signal_reads_back_as_it_was_written() {
    let signals = [
        Signal::ConnectionRequest {
            identifier: 1,
            psm: RFCOMM_PSM,
            source: 0x0040,
        },
        Signal::ConnectionResponse {
            identifier: 1,
            destination: 0x0041,
            source: 0x0040,
            result: SUCCESS,
        },
        Signal::DisconnectionRequest {
            identifier: 2,
            destination: 0x0041,
            source: 0x0040,
        },
        Signal::DisconnectionResponse {
            identifier: 2,
            destination: 0x0041,
            source: 0x0040,
        },
    ];
    for signal in signals {
        let bytes = signal.encode();
        assert_eq!(Signal::decode(&bytes).expect("decode"), signal);
        assert!(
            Signal::decode(&bytes[..5]).is_err(),
            "cut inside the first word"
        );
    }
    assert_eq!(
        Signal::ConnectionRequest {
            identifier: 1,
            psm: 3,
            source: 0x40
        }
        .encode(),
        [0x02, 0x01, 0x04, 0x00, 0x03, 0x00, 0x40, 0x00]
    );
    assert!(Signal::decode(&[0x01, 0, 0, 0]).is_err(), "command reject");
    assert!(Signal::decode(&[0x02]).is_err(), "cut off");
}

#[test]
fn a_basic_frame_is_refused_for_what_is_wrong_with_it() {
    assert_eq!(Frame::new(0, b"x"), Err(Error::NullChannel));
    assert_eq!(
        Frame::new(1, &vec![0; MAX_PAYLOAD + 1]),
        Err(Error::PayloadTooLong)
    );
    assert_eq!(
        Frame::new(0, &vec![0; MAX_PAYLOAD + 1]),
        Err(Error::NullChannel),
        "the channel is looked at first"
    );
    assert_eq!(Frame::decode(&[]), Err(Error::FrameCut));
    assert_eq!(Frame::decode(&[5, 0, 0x40]), Err(Error::FrameCut));
    assert_eq!(
        Frame::decode(&[5, 1, 0x40, 0, 7]),
        Err(Error::LengthMismatch {
            length: 261,
            carried: 1
        })
    );
    assert_eq!(Frame::decode(&[1, 0, 0, 0, 7]), Err(Error::NullChannel));
    assert_eq!(
        Frame::decode(&[0, 0, 0, 0, 7]),
        Err(Error::LengthMismatch {
            length: 0,
            carried: 1
        }),
        "the length is looked at before the channel"
    );
}

#[test]
fn a_basic_frame_writes_back_what_it_was_read_from() {
    let bytes = [3, 0, 0x34, 0x12, 9, 8, 7];
    let frame = Frame::decode(&bytes).expect("decode");
    assert_eq!(frame.cid, 0x1234);
    assert_eq!(frame.payload, [9, 8, 7]);
    assert_eq!(frame.encode(), bytes);
}

#[test]
fn a_basic_frame_is_whole_or_nothing() {
    let bytes = Frame::new(0x0102, b"whole").expect("frame").encode();
    for length in 0..bytes.len() {
        assert!(Frame::decode(&bytes[..length]).is_err());
    }
    let mut longer = bytes.clone();
    longer.push(0);
    assert!(Frame::decode(&longer).is_err());
    let most = Frame::new(0xffff, &vec![0xa5; MAX_PAYLOAD]).expect("frame");
    let bytes = most.encode();
    assert_eq!(&bytes[..4], &[0xff, 0xff, 0xff, 0xff]);
    assert_eq!(Frame::decode(&bytes), Ok(most));
}

#[test]
fn a_frame_put_together_by_hand_says_at_most_sixteen_bits_of_length() {
    let frame = Frame {
        cid: 1,
        payload: vec![0; MAX_PAYLOAD + 2],
    };
    let bytes = frame.encode();
    assert_eq!(&bytes[..4], &[0xff, 0xff, 1, 0]);
    assert_eq!(bytes.len(), MAX_PAYLOAD + 6);
}

#[test]
fn signals_have_their_codes_and_their_words() {
    assert_eq!(
        Signal::ConnectionResponse {
            identifier: 9,
            destination: 0x0041,
            source: 0x1234,
            result: 2
        }
        .encode(),
        [0x03, 9, 8, 0, 0x41, 0, 0x34, 0x12, 2, 0, 0, 0]
    );
    assert_eq!(
        Signal::DisconnectionRequest {
            identifier: 2,
            destination: 0x0041,
            source: 0x0040
        }
        .encode(),
        [0x06, 2, 4, 0, 0x41, 0, 0x40, 0]
    );
    assert_eq!(
        Signal::DisconnectionResponse {
            identifier: 2,
            destination: 0x0041,
            source: 0x0040
        }
        .encode(),
        [0x07, 2, 4, 0, 0x41, 0, 0x40, 0]
    );
}

#[test]
fn a_signal_is_read_from_the_start_of_a_payload() {
    let signal = Signal::DisconnectionRequest {
        identifier: 3,
        destination: 7,
        source: 8,
    };
    let mut bytes = signal.encode();
    bytes.extend_from_slice(&[1, 2, 3]);
    assert_eq!(Signal::decode(&bytes), Ok(signal));
}

#[test]
fn a_signal_is_refused_for_what_is_wrong_with_it() {
    assert_eq!(Signal::decode(&[0x02, 1, 4]), Err(Error::SignalCut));
    assert_eq!(
        Signal::decode(&[0x02, 1, 4, 0, 3, 0, 0x40]),
        Err(Error::SignalShort)
    );
    assert_eq!(
        Signal::decode(&[0x03, 1, 8, 0, 1, 0, 2, 0, 3]),
        Err(Error::SignalShort)
    );
    assert_eq!(
        Signal::decode(&[0x03, 1, 8, 0, 1, 0, 2, 0, 3, 0]),
        Ok(Signal::ConnectionResponse {
            identifier: 1,
            destination: 1,
            source: 2,
            result: 3
        }),
        "the status word is not needed"
    );
    assert_eq!(
        Signal::decode(&[0x01, 0, 0, 0]),
        Err(Error::SignalCode(0x01))
    );
}
