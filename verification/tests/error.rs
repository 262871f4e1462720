use xmip_core_transport_bluetooth::rfcomm::Control;
use xmip_core_transport_bluetooth::Error;

#[test]
fn every_error_tells_what_went_wrong() {
    let told = [
        (Error::NullChannel, "the null channel identifier"),
        (
            Error::PayloadTooLong,
            "more than one L2CAP basic frame carries",
        ),
        (Error::FrameCut, "a frame cut off inside its header"),
        (
            Error::LengthMismatch {
                length: 261,
                carried: 70_000,
            },
            "a length of 261 over 70000 bytes",
        ),
        (Error::SignalCut, "a signal cut off inside its header"),
        (Error::SignalShort, "a signal shorter than its code needs"),
        (
            Error::SignalCode(0x01),
            "a signalling code this crate does not carry: 0x01",
        ),
        (
            Error::ControlByte(0xae),
            "a control byte RFCOMM does not use: 0xae",
        ),
        (Error::DlciOver, "a DLCI over 61"),
        (
            Error::InformationTooLong,
            "more than one RFCOMM frame can say",
        ),
        (
            Error::InformationCut,
            "a frame cut off before its check sequence",
        ),
        (Error::Trailing, "bytes after the check sequence"),
        (Error::CheckSequence, "a check sequence that does not check"),
        (
            Error::ChannelNotOpen(0x0f9b),
            "a frame on channel 0x0f9b, which nobody opened",
        ),
        (Error::ResponseNotDue, "a response where a request was due"),
        (
            Error::RfcommBeforeChannel,
            "an RFCOMM frame before the channel opened",
        ),
        (Error::NoAnswer, "the peer did not answer"),
        (
            Error::ChannelRefused(2),
            "the peer refused the RFCOMM channel with result 2",
        ),
        (Error::NotConnectionResponse, "not a connection response"),
        (
            Error::NotDisconnectionResponse,
            "not a disconnection response",
        ),
        (Error::LinkRefused(14), "DLCI 14 is not open to us"),
        (Error::NotUa(Control::Sabm), "Sabm where UA was due"),
        (Error::NotUa(Control::Disc), "Disc where UA was due"),
        (Error::NotUa(Control::Uih), "Uih where UA was due"),
        (Error::NotUa(Control::Ua), "Ua where UA was due"),
        (Error::NotUa(Control::Dm), "Dm where UA was due"),
        (Error::WentQuiet, "the peer went quiet"),
        (
            Error::NotServerChannel("zero".to_string()),
            "\"zero\" is not a server channel",
        ),
        (Error::NoDataLink, "no data link closed"),
        (Error::NotLoopback, "a controller, not a loopback radio"),
        (
            Error::Link {
                message: "unplugged".to_string(),
                retryable: false,
            },
            "unplugged",
        ),
    ];
    for (error, text) in told {
        assert_eq!(error.message(), text);
    }
}

#[test]
fn a_quoted_text_is_escaped() {
    assert_eq!(
        Error::NotServerChannel("a\"b\n".to_string()).message(),
        "\"a\\\"b\\n\" is not a server channel"
    );
}

#[test]
fn a_silent_peer_may_be_tried_again_and_a_broken_protocol_may_not() {
    assert!(Error::NoAnswer.retryable());
    assert!(Error::WentQuiet.retryable());
    let link = |retryable| Error::Link {
        message: "busy".to_string(),
        retryable,
    };
    assert!(link(true).retryable());
    assert!(!link(false).retryable());
    for error in [
        Error::NullChannel,
        Error::CheckSequence,
        Error::ChannelRefused(2),
        Error::LinkRefused(4),
        Error::NotServerChannel("x".to_string()),
        Error::NoDataLink,
    ] {
        assert!(!error.retryable());
    }
}
