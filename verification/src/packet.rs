//! Whole packets as an ACL link carries them: a signal, or an RFCOMM frame,
//! inside its L2CAP basic frame.

use crate::error::Error;
use crate::l2cap;
use crate::l2cap::Signal;
use crate::rfcomm;
use crate::rfcomm::Control;
use vstd::prelude::*;

verus! {

/// A signal inside a basic frame on the signalling channel.
pub open spec fn signal_packet(signal: Signal) -> Seq<u8> {
    l2cap::FrameView { cid: l2cap::SIGNALLING, payload: signal.bytes() }.bytes()
}

/// An RFCOMM frame inside a basic frame on channel `cid`, or why there is
/// none: the RFCOMM frame is built first.
pub open spec fn rfcomm_packet(
    cid: u16,
    dlci: u8,
    control: Control,
    information: Seq<u8>,
) -> Result<Seq<u8>, Error> {
    match rfcomm::frame_with(dlci, control, information) {
        Err(error) => Err(error),
        Ok(frame) => if cid == 0 {
            Err(Error::NullChannel)
        } else {
            Ok(l2cap::FrameView { cid, payload: frame.bytes() }.bytes())
        },
    }
}

/// A signal inside a basic frame on the signalling channel.
#[must_use]
pub fn of_signal(signal: &Signal) -> (packet: Vec<u8>)
    ensures
        packet@ == signal_packet(*signal),
{
    let frame: l2cap::Frame = l2cap::Frame { cid: l2cap::SIGNALLING, payload: signal.encode() };
    frame.encode()
}

/// An RFCOMM frame inside a basic frame on channel `cid`; a DLCI over 61, too
/// much information and the null channel are refused.
pub fn of_rfcomm(cid: u16, dlci: u8, control: Control, information: &[u8]) -> (packet: Result<
    Vec<u8>,
    Error,
>)
    ensures
        crate::error::viewed(packet) == rfcomm_packet(cid, dlci, control, information@),
{
    let frame: rfcomm::Frame = match rfcomm::Frame::new(dlci, control, information) {
        Ok(frame) => frame,
        Err(error) => return Err(error),
    };
    proof {
        rfcomm::lemma_frame_length(frame@);
    }
    match l2cap::Frame::new(cid, frame.encode().as_slice()) {
        Ok(outer) => Ok(outer.encode()),
        Err(error) => Err(error),
    }
}

/// A signal reads back from its packet.
pub proof fn law_signal_packet_reads_back(signal: Signal)
    ensures
        l2cap::frame_of(signal_packet(signal)) == Ok::<l2cap::FrameView, Error>(
            l2cap::FrameView { cid: l2cap::SIGNALLING, payload: signal.bytes() },
        ),
        l2cap::signal_of(signal.bytes()) == Ok::<Signal, Error>(signal),
{
    l2cap::lemma_signal_bytes(signal);
    l2cap::law_frame_reads_back(
        l2cap::FrameView { cid: l2cap::SIGNALLING, payload: signal.bytes() },
    );
}

/// An RFCOMM frame reads back from its packet, whenever there is one.
pub proof fn law_rfcomm_packet_reads_back(
    cid: u16,
    dlci: u8,
    control: Control,
    information: Seq<u8>,
)
    requires
        rfcomm_packet(cid, dlci, control, information) is Ok,
    ensures
        ({
            let frame = rfcomm::FrameView { dlci, control, information };
            let packet = rfcomm_packet(cid, dlci, control, information)->Ok_0;
            &&& l2cap::frame_of(packet) == Ok::<l2cap::FrameView, Error>(
                l2cap::FrameView { cid, payload: frame.bytes() },
            )
            &&& rfcomm::frame_of(frame.bytes()) == Ok::<rfcomm::FrameView, Error>(frame)
        }),
{
    let frame = rfcomm::FrameView { dlci, control, information };
    rfcomm::lemma_frame_length(frame);
    rfcomm::law_frame_reads_back(frame);
    l2cap::law_frame_reads_back(l2cap::FrameView { cid, payload: frame.bytes() });
}

/// A signal's packet, place by place: how long the signal is, channel 1, and
/// the signal.
pub proof fn law_signal_packet_place_by_place(signal: Signal)
    ensures
        ({
            let out = signal_packet(signal);
            let length: int = if signal is ConnectionResponse {
                12
            } else {
                8
            };
            &&& out.len() == 4 + length
            &&& out[0] == length && out[1] == 0 && out[2] == 1 && out[3] == 0
            &&& out.skip(4) == signal.bytes()
        }),
{
    l2cap::law_signal_place_by_place(signal);
    assert(signal_packet(signal).skip(4) =~= signal.bytes());
}

/// There is a packet of an RFCOMM frame for every DLCI up to 61, information of
/// at most 32767 bytes and every channel but 0, and it reads as just that; what
/// is wrong is looked for in that order.
pub proof fn law_rfcomm_packet_is_of_its_parts(
    cid: u16,
    dlci: u8,
    control: Control,
    information: Seq<u8>,
)
    ensures
        ({
            let packet = rfcomm_packet(cid, dlci, control, information);
            &&& dlci > 61 <==> packet == Err::<Seq<u8>, Error>(Error::DlciOver)
            &&& dlci <= 61 && information.len() > 32767 <==> packet == Err::<Seq<u8>, Error>(
                Error::InformationTooLong,
            )
            &&& dlci <= 61 && information.len() <= 32767 && cid == 0 <==> packet == Err::<
                Seq<u8>,
                Error,
            >(Error::NullChannel)
            &&& dlci <= 61 && information.len() <= 32767 && cid != 0 <==> packet is Ok
            &&& packet matches Ok(bytes) ==> {
                &&& l2cap::frame_of(bytes) matches Ok(outer)
                &&& outer.cid == cid
                &&& rfcomm::frame_of(outer.payload) matches Ok(frame)
                &&& frame.dlci == dlci
                &&& frame.control == control
                &&& frame.information == information
            }
        }),
{
    if rfcomm_packet(cid, dlci, control, information) is Ok {
        law_rfcomm_packet_reads_back(cid, dlci, control, information);
    }
}

} // verus!
