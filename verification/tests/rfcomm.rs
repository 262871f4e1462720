use xmip_core_transport_bluetooth::error::Error;
use xmip_core_transport_bluetooth::rfcomm::{fcs, Control, Frame, MAX_DLCI, MAX_FRAME, N1};

#[test]
fn a_sabm_on_the_control_channel_is_the_four_bytes_the_specification_shows() {
    let sabm = Frame::command(0, Control::Sabm).expect("frame");
    assert_eq!(sabm.encode(), [0x03, 0x3f, 0x01, 0x1c]);
    let ua = Frame::command(0, Control::Ua).expect("frame");
    assert_eq!(ua.encode(), [0x03, 0x73, 0x01, 0xd7]);
    assert_eq!(Frame::decode(&sabm.encode()).expect("decode"), sabm);
}

#[test]
fn a_uih_frame_checks_only_its_address_and_control() {
    let uih = Frame::new(2, Control::Uih, b"data").expect("frame");
    let bytes = uih.encode();
    assert_eq!(&bytes[..3], &[0x0b, 0xef, 0x09]);
    assert_eq!(bytes[bytes.len() - 1], fcs(&[0x0b, 0xef]));
    assert_eq!(Frame::decode(&bytes).expect("decode"), uih);
    let long = Frame::new(2, Control::Uih, &[7; 300]).expect("frame");
    let bytes = long.encode();
    assert_eq!(
        &bytes[2..4],
        &[0x58, 0x02],
        "two length bytes: 300 = 44 + 2 * 128"
    );
    assert_eq!(Frame::decode(&bytes).expect("decode"), long);
}

#[test]
fn what_is_not_a_frame_is_refused() {
    let bytes = Frame::new(4, Control::Uih, b"x").expect("frame").encode();
    assert!(Frame::decode(&bytes[..2]).is_err(), "cut off");
    let mut bad = bytes.clone();
    bad[1] = 0x00;
    assert!(Frame::decode(&bad).is_err(), "control byte");
    let mut bad = bytes.clone();
    let last = bad.len() - 1;
    bad[last] ^= 1;
    assert!(Frame::decode(&bad).is_err(), "check sequence");
    let mut trailing = bytes;
    trailing.push(0);
    assert!(Frame::decode(&trailing).is_err(), "bytes after");
    assert!(Frame::command(62, Control::Sabm).is_err(), "reserved DLCI");
    assert!(Frame::new(2, Control::Uih, &vec![0; MAX_FRAME + 1]).is_err());
}

#[test]
fn control_bytes_have_their_values_and_read_back() {
    let bytes = [
        (Control::Sabm, 0x3f),
        (Control::Ua, 0x73),
        (Control::Dm, 0x1f),
        (Control::Disc, 0x53),
        (Control::Uih, 0xef),
    ];
    for (control, byte) in bytes {
        assert_eq!(control.byte(), byte);
        assert_eq!(Control::from_byte(byte), Ok(control));
        assert_eq!(
            Control::from_byte(byte ^ 0x10),
            Ok(control),
            "the poll/final bit says nothing of the meaning"
        );
    }
    assert_eq!(Control::from_byte(0x10), Err(Error::ControlByte(0)));
    assert_eq!(Control::from_byte(0x31), Err(Error::ControlByte(0x21)));
}

#[test]
fn the_check_sequence_has_exact_values() {
    assert_eq!(fcs(&[]), 0x00);
    assert_eq!(fcs(&[0x0b, 0xef]), 0x9a);
    assert_eq!(fcs(&[0x0b, 0x1f, 0x01]), 0x73);
    assert_eq!(fcs(&[0x0b, 0x53, 0x01]), 0xb8);
    assert_eq!(fcs(&[0xfb, 0x3f, 0x01]), 0xbb);
}

#[test]
fn every_length_of_information_reads_back() {
    for length in [0, 1, N1, N1 + 1, 255, 256, 16_383, 16_384, MAX_FRAME] {
        for control in [
            Control::Sabm,
            Control::Ua,
            Control::Dm,
            Control::Disc,
            Control::Uih,
        ] {
            let frame = Frame::new(MAX_DLCI, control, &vec![0x5a; length]).expect("frame");
            let bytes = frame.encode();
            let header = if length <= 127 { 3 } else { 4 };
            assert_eq!(bytes.len(), header + length + 1);
            assert_eq!(Frame::decode(&bytes), Ok(frame));
        }
    }
}

#[test]
fn an_rfcomm_frame_is_refused_for_what_is_wrong_with_it() {
    assert_eq!(Frame::command(62, Control::Sabm), Err(Error::DlciOver));
    assert_eq!(
        Frame::new(61, Control::Uih, &vec![0; MAX_FRAME + 1]),
        Err(Error::InformationTooLong)
    );
    assert_eq!(
        Frame::new(62, Control::Uih, &vec![0; MAX_FRAME + 1]),
        Err(Error::DlciOver),
        "the DLCI is looked at first"
    );
    assert_eq!(Frame::decode(&[]), Err(Error::InformationCut));
    assert_eq!(Frame::decode(&[0x0b]), Err(Error::InformationCut));
    assert_eq!(Frame::decode(&[0x0b, 0x00]), Err(Error::ControlByte(0)));
    assert_eq!(Frame::decode(&[0x0b, 0xef]), Err(Error::InformationCut));
    assert_eq!(
        Frame::decode(&[0x0b, 0xef, 0x00]),
        Err(Error::InformationCut),
        "a second length byte is due"
    );
    assert_eq!(
        Frame::decode(&[0x0b, 0xef, 0x03, 7]),
        Err(Error::InformationCut),
        "a check sequence is due"
    );
    assert_eq!(
        Frame::decode(&[0x0b, 0xef, 0x03, 7, 0x9a, 0]),
        Err(Error::Trailing)
    );
    assert_eq!(
        Frame::decode(&[0x0b, 0xef, 0x03, 7, 0x9b]),
        Err(Error::CheckSequence)
    );
    assert_eq!(
        Frame::decode(&[0xff, 0x3f, 0x01, 0x79]),
        Err(Error::DlciOver),
        "a reserved DLCI whose check sequence checks"
    );
}

#[test]
fn data_may_change_under_the_check_sequence_and_the_header_may_not() {
    let bytes = Frame::new(2, Control::Uih, b"data").expect("frame").encode();
    let mut other = bytes.clone();
    other[3] = b'D';
    let read = Frame::decode(&other).expect("the check is of address and control");
    assert_eq!(read.information, b"Data");
    for at in 0..2 {
        for bit in 0..8 {
            let mut altered = bytes.clone();
            altered[at] ^= 1 << bit;
            assert!(Frame::decode(&altered).is_err());
        }
    }
    let last = bytes.len() - 1;
    for check in 0..=255u8 {
        let mut altered = bytes.clone();
        altered[last] = check;
        assert_eq!(Frame::decode(&altered).is_ok(), check == 0x9a);
    }
}

#[test]
fn a_cut_frame_is_no_frame() {
    let bytes = Frame::new(6, Control::Uih, &[1; 200]).expect("frame").encode();
    for length in 0..bytes.len() {
        assert!(Frame::decode(&bytes[..length]).is_err());
    }
    assert!(Frame::decode(&bytes).is_ok());
}
