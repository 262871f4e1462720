//! What can go wrong on a link, and how it is told.

use crate::rfcomm::Control;
use crate::text;
use vstd::prelude::*;

verus! {

/// Why a packet, an exchange or a request was refused.
#[derive(Clone, Debug, PartialEq, Eq)]
pub enum Error {
    /// A basic frame on channel identifier 0.
    NullChannel,
    /// A payload over what sixteen bits of length can say.
    PayloadTooLong,
    /// A basic frame of fewer than four bytes.
    FrameCut,
    /// A basic frame whose length field is not the length of its payload.
    LengthMismatch { length: u16, carried: usize },
    /// A signal of fewer than four bytes.
    SignalCut,
    /// A signal with less data than its code needs.
    SignalShort,
    /// A signalling code the library does not carry.
    SignalCode(u8),
    /// A control byte RFCOMM does not use, its poll/final bit cleared.
    ControlByte(u8),
    /// A DLCI over 61.
    DlciOver,
    /// Information over what fifteen bits of length can say.
    InformationTooLong,
    /// An RFCOMM frame that ends before its check sequence.
    InformationCut,
    /// Bytes after the check sequence.
    Trailing,
    /// A check sequence that does not check.
    CheckSequence,
    /// A frame on a channel nobody opened.
    ChannelNotOpen(u16),
    /// A signalling response where a request was due.
    ResponseNotDue,
    /// An RFCOMM frame before its channel was opened.
    RfcommBeforeChannel,
    /// The peer did not answer in time.
    NoAnswer,
    /// The peer refused the RFCOMM channel with this result.
    ChannelRefused(u16),
    /// Some other signal where a connection response was due.
    NotConnectionResponse,
    /// Some other signal where a disconnection response was due.
    NotDisconnectionResponse,
    /// The peer answered DM on this DLCI.
    LinkRefused(u8),
    /// Some other frame where UA was due.
    NotUa(Control),
    /// A connected peer sent nothing in time.
    WentQuiet,
    /// A text that names no server channel.
    NotServerChannel(String),
    /// The far end of a loopback has no Stream to hand over.
    NoDataLink,
    /// The far end was asked of a radio that is no loopback.
    NotLoopback,
    /// The radio itself failed, in its own words.
    Link { message: String, retryable: bool },
}

/// What `r` says once its value is taken by its view.
pub open spec fn viewed<T: View>(r: Result<T, Error>) -> Result<T::V, Error> {
    match r {
        Ok(value) => Ok(value@),
        Err(error) => Err(error),
    }
}

/// The name `Debug` writes for a control byte's meaning.
pub open spec fn control_name_of(control: Control) -> Seq<char> {
    match control {
        Control::Sabm => "Sabm"@,
        Control::Ua => "Ua"@,
        Control::Dm => "Dm"@,
        Control::Disc => "Disc"@,
        Control::Uih => "Uih"@,
    }
}

impl Error {
    /// The sentence that tells of the error.
    pub open spec fn text(self) -> Seq<char> {
        match self {
            Error::NullChannel => "the null channel identifier"@,
            Error::PayloadTooLong => "more than one L2CAP basic frame carries"@,
            Error::FrameCut => "a frame cut off inside its header"@,
            Error::LengthMismatch { length, carried } => "a length of "@ + text::decimal_of(
                length as nat,
            ) + " over "@ + text::decimal_of(carried as nat) + " bytes"@,
            Error::SignalCut => "a signal cut off inside its header"@,
            Error::SignalShort => "a signal shorter than its code needs"@,
            Error::SignalCode(code) => "a signalling code this crate does not carry: "@
                + text::hex_byte_of(code),
            Error::ControlByte(byte) => "a control byte RFCOMM does not use: "@
                + text::hex_byte_of(byte),
            Error::DlciOver => "a DLCI over 61"@,
            Error::InformationTooLong => "more than one RFCOMM frame can say"@,
            Error::InformationCut => "a frame cut off before its check sequence"@,
            Error::Trailing => "bytes after the check sequence"@,
            Error::CheckSequence => "a check sequence that does not check"@,
            Error::ChannelNotOpen(cid) => "a frame on channel "@ + text::hex_word_of(cid)
                + ", which nobody opened"@,
            Error::ResponseNotDue => "a response where a request was due"@,
            Error::RfcommBeforeChannel => "an RFCOMM frame before the channel opened"@,
            Error::NoAnswer => "the peer did not answer"@,
            Error::ChannelRefused(result) => "the peer refused the RFCOMM channel with result "@
                + text::decimal_of(result as nat),
            Error::NotConnectionResponse => "not a connection response"@,
            Error::NotDisconnectionResponse => "not a disconnection response"@,
            Error::LinkRefused(dlci) => "DLCI "@ + text::decimal_of(dlci as nat)
                + " is not open to us"@,
            Error::NotUa(control) => control_name_of(control) + " where UA was due"@,
            Error::WentQuiet => "the peer went quiet"@,
            Error::NotServerChannel(named) => text::quoted_of(named@) + " is not a server channel"@,
            Error::NoDataLink => "no data link closed"@,
            Error::NotLoopback => "a controller, not a loopback radio"@,
            Error::Link { message, .. } => message@,
        }
    }

    /// Whether the same request may succeed later: a peer that was not heard
    /// from may answer next time, a broken protocol stays broken.
    pub open spec fn may_pass(self) -> bool {
        match self {
            Error::NoAnswer | Error::WentQuiet => true,
            Error::Link { retryable, .. } => retryable,
            _ => false,
        }
    }

    /// The sentence that tells of the error.
    pub fn message(&self) -> (out: String)
        ensures
            out@ == self.text(),
    {
        match self {
            Error::NullChannel => "the null channel identifier".to_owned(),
            Error::PayloadTooLong => "more than one L2CAP basic frame carries".to_owned(),
            Error::FrameCut => "a frame cut off inside its header".to_owned(),
            Error::LengthMismatch { length, carried } => {
                let mut out: String = "a length of ".to_owned();
                out.append(text::decimal(*length as usize).as_str());
                out.append(" over ");
                out.append(text::decimal(*carried).as_str());
                out.append(" bytes");
                out
            },
            Error::SignalCut => "a signal cut off inside its header".to_owned(),
            Error::SignalShort => "a signal shorter than its code needs".to_owned(),
            Error::SignalCode(code) => {
                let mut out: String = "a signalling code this crate does not carry: ".to_owned();
                out.append(text::hex_byte(*code).as_str());
                out
            },
            Error::ControlByte(byte) => {
                let mut out: String = "a control byte RFCOMM does not use: ".to_owned();
                out.append(text::hex_byte(*byte).as_str());
                out
            },
            Error::DlciOver => "a DLCI over 61".to_owned(),
            Error::InformationTooLong => "more than one RFCOMM frame can say".to_owned(),
            Error::InformationCut => "a frame cut off before its check sequence".to_owned(),
            Error::Trailing => "bytes after the check sequence".to_owned(),
            Error::CheckSequence => "a check sequence that does not check".to_owned(),
            Error::ChannelNotOpen(cid) => {
                let mut out: String = "a frame on channel ".to_owned();
                out.append(text::hex_word(*cid).as_str());
                out.append(", which nobody opened");
                out
            },
            Error::ResponseNotDue => "a response where a request was due".to_owned(),
            Error::RfcommBeforeChannel => "an RFCOMM frame before the channel opened".to_owned(),
            Error::NoAnswer => "the peer did not answer".to_owned(),
            Error::ChannelRefused(result) => {
                let mut out: String =
                    "the peer refused the RFCOMM channel with result ".to_owned();
                out.append(text::decimal(*result as usize).as_str());
                out
            },
            Error::NotConnectionResponse => "not a connection response".to_owned(),
            Error::NotDisconnectionResponse => "not a disconnection response".to_owned(),
            Error::LinkRefused(dlci) => {
                let mut out: String = "DLCI ".to_owned();
                out.append(text::decimal(*dlci as usize).as_str());
                out.append(" is not open to us");
                out
            },
            Error::NotUa(control) => {
                let mut out: String = control_name(*control).to_owned();
                out.append(" where UA was due");
                out
            },
            Error::WentQuiet => "the peer went quiet".to_owned(),
            Error::NotServerChannel(named) => {
                let mut out: String = text::quoted(named.as_str());
                out.append(" is not a server channel");
                out
            },
            Error::NoDataLink => "no data link closed".to_owned(),
            Error::NotLoopback => "a controller, not a loopback radio".to_owned(),
            Error::Link { message, .. } => message.clone(),
        }
    }

    /// Whether the same request may succeed later.
    pub fn retryable(&self) -> (out: bool)
        ensures
            out == self.may_pass(),
    {
        match self {
            Error::NoAnswer => true,
            Error::WentQuiet => true,
            Error::Link { retryable, .. } => *retryable,
            _ => false,
        }
    }
}

fn control_name(control: Control) -> (out: &'static str)
    ensures
        out@ == control_name_of(control),
{
    match control {
        Control::Sabm => "Sabm",
        Control::Ua => "Ua",
        Control::Dm => "Dm",
        Control::Disc => "Disc",
        Control::Uih => "Uih",
    }
}

/// Only silence and a link that says so may pass: a peer that did not answer or
/// went quiet, and a radio's own failure where it is flagged.
pub proof fn law_only_silence_may_pass(error: Error)
    ensures
        error.may_pass() <==> (error is NoAnswer || error is WentQuiet || error is Link
            && error->retryable),
{
}

/// The sentence of an error that holds a number ends in the number or has it
/// where the words leave it, whole: in decimal, or in hexadecimal where the
/// number is a byte or a channel off the link.
pub proof fn law_text_tells_the_number(error: Error)
    ensures
        ({
            let text = error.text();
            match error {
                Error::LengthMismatch { length, carried } => {
                    let first = text::decimal_of(length as nat);
                    let second = text::decimal_of(carried as nat);
                    let end = 12 + first.len() as int;
                    &&& text.len() == 24 + first.len() + second.len()
                    &&& text.take(12) == "a length of "@
                    &&& text.subrange(12, end) == first
                    &&& text.subrange(end, end + 6) == " over "@
                    &&& text.subrange(end + 6, text.len() - 6) == second
                    &&& text.skip(text.len() - 6) == " bytes"@
                },
                Error::SignalCode(code) => {
                    &&& text.take(text.len() - 4)
                        == "a signalling code this crate does not carry: "@
                    &&& text.skip(text.len() - 4) == text::hex_byte_of(code)
                },
                Error::ControlByte(byte) => {
                    &&& text.take(text.len() - 4) == "a control byte RFCOMM does not use: "@
                    &&& text.skip(text.len() - 4) == text::hex_byte_of(byte)
                },
                Error::ChannelNotOpen(cid) => {
                    &&& text.len() == 46
                    &&& text.take(19) == "a frame on channel "@
                    &&& text.subrange(19, 25) == text::hex_word_of(cid)
                    &&& text.skip(25) == ", which nobody opened"@
                },
                Error::ChannelRefused(result) => {
                    &&& text.take(48) == "the peer refused the RFCOMM channel with result "@
                    &&& text.skip(48) == text::decimal_of(result as nat)
                },
                Error::LinkRefused(dlci) => {
                    &&& text.take(5) == "DLCI "@
                    &&& text.subrange(5, text.len() - 18) == text::decimal_of(dlci as nat)
                    &&& text.skip(text.len() - 18) == " is not open to us"@
                },
                Error::NotServerChannel(named) => {
                    &&& text.take(text.len() - 24) == text::quoted_of(named@)
                    &&& text.skip(text.len() - 24) == " is not a server channel"@
                },
                Error::Link { message, .. } => text == message@,
                _ => true,
            }
        }),
{
    reveal_strlit("a length of ");
    reveal_strlit(" over ");
    reveal_strlit(" bytes");
    reveal_strlit("a signalling code this crate does not carry: ");
    reveal_strlit("a control byte RFCOMM does not use: ");
    reveal_strlit("a frame on channel ");
    reveal_strlit(", which nobody opened");
    reveal_strlit("the peer refused the RFCOMM channel with result ");
    reveal_strlit("DLCI ");
    reveal_strlit(" is not open to us");
    reveal_strlit(" is not a server channel");
}

/// A result by its view has the view of the value, and the error as it is.
pub proof fn law_result_view_is_plain<T: View>(value: T, error: Error)
    ensures
        viewed(Ok::<T, Error>(value)) == Ok::<T::V, Error>(value@),
        viewed(Err::<T, Error>(error)) == Err::<T::V, Error>(error),
{
}

} // verus!
