//! The L2CAP basic frame — a little-endian length, a channel identifier and
//! the payload — and the signalling on channel 1 that opens and closes a
//! connection-oriented channel to a protocol's PSM. RFCOMM listens on PSM 3.

use crate::bytes;
use crate::error::Error;
use vstd::prelude::*;
use vstd::slice::slice_subrange;
use vstd::slice::slice_to_vec;

verus! {

/// The signalling channel every ACL link has.
pub const SIGNALLING: u16 = 0x0001;

/// The PSM RFCOMM listens on.
pub const RFCOMM_PSM: u16 = 0x0003;

/// The first dynamically allocated channel identifier.
pub const FIRST_DYNAMIC: u16 = 0x0040;

/// The most a basic frame carries: the length is sixteen bits.
pub const MAX_PAYLOAD: usize = 65_535;

/// The connection was opened.
pub const SUCCESS: u16 = 0;

/// Nobody listens on that PSM.
pub const PSM_NOT_SUPPORTED: u16 = 2;

/// The code of a connection request.
pub const CONNECTION_REQUEST: u8 = 0x02;

/// The code of a connection response.
pub const CONNECTION_RESPONSE: u8 = 0x03;

/// The code of a disconnection request.
pub const DISCONNECTION_REQUEST: u8 = 0x06;

/// The code of a disconnection response.
pub const DISCONNECTION_RESPONSE: u8 = 0x07;

/// One basic frame on one channel.
#[derive(Clone, Debug, PartialEq, Eq)]
pub struct Frame {
    pub cid: u16,
    pub payload: Vec<u8>,
}

/// A basic frame, its payload a sequence.
#[verifier::ext_equal]
pub struct FrameView {
    pub cid: u16,
    pub payload: Seq<u8>,
}

impl View for Frame {
    type V = FrameView;

    open spec fn view(&self) -> FrameView {
        FrameView { cid: self.cid, payload: self.payload@ }
    }
}

impl FrameView {
    /// A frame that can be built: not on the null channel, and its length
    /// within sixteen bits.
    pub open spec fn valid(self) -> bool {
        self.cid != 0 && self.payload.len() <= MAX_PAYLOAD
    }

    /// The frame as the link carries it. The length field of a payload that
    /// is too long is the largest there is.
    pub open spec fn bytes(self) -> Seq<u8> {
        bytes::word_bytes(
            if self.payload.len() <= MAX_PAYLOAD {
                self.payload.len() as u16
            } else {
                u16::MAX
            },
        ) + bytes::word_bytes(self.cid) + self.payload
    }
}

/// The frame of a channel and a payload, or why there is none.
pub open spec fn frame_with(cid: u16, payload: Seq<u8>) -> Result<FrameView, Error> {
    if cid == 0 {
        Err(Error::NullChannel)
    } else if payload.len() > MAX_PAYLOAD {
        Err(Error::PayloadTooLong)
    } else {
        Ok(FrameView { cid, payload })
    }
}

/// The one frame that `bytes` are, or why they are none.
pub open spec fn frame_of(bytes: Seq<u8>) -> Result<FrameView, Error> {
    if bytes.len() < 4 {
        Err(Error::FrameCut)
    } else {
        let length = bytes::word_of(bytes[0], bytes[1]);
        if bytes.len() - 4 != length {
            Err(Error::LengthMismatch { length, carried: (bytes.len() - 4) as usize })
        } else {
            frame_with(bytes::word_of(bytes[2], bytes[3]), bytes.skip(4))
        }
    }
}

impl Frame {
    /// A frame, refusing the null identifier and more than the length says:
    /// channel 0, or a payload over [`MAX_PAYLOAD`].
    pub fn new(cid: u16, payload: &[u8]) -> (frame: Result<Frame, Error>)
        ensures
            crate::error::viewed(frame) == frame_with(cid, payload@),
    {
        if cid == 0 {
            return Err(Error::NullChannel);
        }
        if payload.len() > MAX_PAYLOAD {
            return Err(Error::PayloadTooLong);
        }
        Ok(Frame { cid, payload: slice_to_vec(payload) })
    }

    /// The frame as the link carries it.
    #[must_use]
    pub fn encode(&self) -> (out: Vec<u8>)
        ensures
            out@ == self@.bytes(),
    {
        let length: u16 = if self.payload.len() <= MAX_PAYLOAD {
            self.payload.len() as u16
        } else {
            u16::MAX
        };
        let mut out: Vec<u8> = Vec::new();
        bytes::push_word(&mut out, length);
        bytes::push_word(&mut out, self.cid);
        bytes::push_all(&mut out, self.payload.as_slice());
        proof {
            assert(out@ =~= self@.bytes());
        }
        out
    }

    /// Exactly one frame: a frame cut off inside its header, or a length the
    /// bytes do not match, is refused, and so is the null channel.
    pub fn decode(bytes: &[u8]) -> (frame: Result<Frame, Error>)
        ensures
            crate::error::viewed(frame) == frame_of(bytes@),
    {
        if bytes.len() < 4 {
            return Err(Error::FrameCut);
        }
        let length: u16 = bytes::read_word(bytes[0], bytes[1]);
        let payload: &[u8] = slice_subrange(bytes, 4, bytes.len());
        proof {
            assert(payload@ =~= bytes@.skip(4));
        }
        if payload.len() != length as usize {
            return Err(Error::LengthMismatch { length, carried: payload.len() });
        }
        Frame::new(bytes::read_word(bytes[2], bytes[3]), payload)
    }
}

/// A command on the signalling channel.
#[derive(Clone, Debug, PartialEq, Eq)]
pub enum Signal {
    /// Open a channel to `psm`; `source` is the requester's identifier for it.
    ConnectionRequest { identifier: u8, psm: u16, source: u16 },
    /// The channel is open at `destination` on the responder — or not, per
    /// `result`.
    ConnectionResponse { identifier: u8, destination: u16, source: u16, result: u16 },
    DisconnectionRequest { identifier: u8, destination: u16, source: u16 },
    DisconnectionResponse { identifier: u8, destination: u16, source: u16 },
}

/// The words of a command, each low byte first.
pub open spec fn words_bytes(words: Seq<u16>) -> Seq<u8>
    decreases words.len(),
{
    if words.len() == 0 {
        Seq::empty()
    } else {
        words_bytes(words.drop_last()) + bytes::word_bytes(words.last())
    }
}

/// A command of a code, an identifier and data words: the length field counts
/// the bytes of the words.
pub open spec fn command_bytes(code: u8, identifier: u8, words: Seq<u16>) -> Seq<u8> {
    seq![code, identifier] + bytes::word_bytes((2 * words.len()) as u16) + words_bytes(words)
}

/// How many bytes a command with `code` takes up before its data is read
/// whole, header included.
pub open spec fn bytes_needed(code: u8) -> nat {
    if code == CONNECTION_RESPONSE {
        10
    } else {
        8
    }
}

/// The codes there is a signal for.
pub open spec fn is_signal_code(code: u8) -> bool {
    code == CONNECTION_REQUEST || code == CONNECTION_RESPONSE || code == DISCONNECTION_REQUEST
        || code == DISCONNECTION_RESPONSE
}

/// The word at place `at` of a command's data.
pub open spec fn data_word(bytes: Seq<u8>, at: int) -> u16 {
    bytes::word_of(bytes[4 + 2 * at], bytes[5 + 2 * at])
}

/// The command at the start of a signalling payload, or why there is none.
pub open spec fn signal_of(bytes: Seq<u8>) -> Result<Signal, Error> {
    if bytes.len() < 4 {
        Err(Error::SignalCut)
    } else if !is_signal_code(bytes[0]) {
        Err(Error::SignalCode(bytes[0]))
    } else if bytes.len() < bytes_needed(bytes[0]) {
        Err(Error::SignalShort)
    } else if bytes[0] == CONNECTION_REQUEST {
        Ok(
            Signal::ConnectionRequest {
                identifier: bytes[1],
                psm: data_word(bytes, 0),
                source: data_word(bytes, 1),
            },
        )
    } else if bytes[0] == CONNECTION_RESPONSE {
        Ok(
            Signal::ConnectionResponse {
                identifier: bytes[1],
                destination: data_word(bytes, 0),
                source: data_word(bytes, 1),
                result: data_word(bytes, 2),
            },
        )
    } else if bytes[0] == DISCONNECTION_REQUEST {
        Ok(
            Signal::DisconnectionRequest {
                identifier: bytes[1],
                destination: data_word(bytes, 0),
                source: data_word(bytes, 1),
            },
        )
    } else {
        Ok(
            Signal::DisconnectionResponse {
                identifier: bytes[1],
                destination: data_word(bytes, 0),
                source: data_word(bytes, 1),
            },
        )
    }
}

impl Signal {
    /// The code of the command.
    pub open spec fn code(self) -> u8 {
        match self {
            Signal::ConnectionRequest { .. } => CONNECTION_REQUEST,
            Signal::ConnectionResponse { .. } => CONNECTION_RESPONSE,
            Signal::DisconnectionRequest { .. } => DISCONNECTION_REQUEST,
            Signal::DisconnectionResponse { .. } => DISCONNECTION_RESPONSE,
        }
    }

    /// The command as channel 1 carries it: code, identifier, length, data.
    /// A connection response ends in a status word that is always zero.
    pub open spec fn bytes(self) -> Seq<u8> {
        match self {
            Signal::ConnectionRequest { identifier, psm, source } => command_bytes(
                CONNECTION_REQUEST,
                identifier,
                seq![psm, source],
            ),
            Signal::ConnectionResponse { identifier, destination, source, result } => command_bytes(
                CONNECTION_RESPONSE,
                identifier,
                seq![destination, source, result, 0u16],
            ),
            Signal::DisconnectionRequest { identifier, destination, source } => command_bytes(
                DISCONNECTION_REQUEST,
                identifier,
                seq![destination, source],
            ),
            Signal::DisconnectionResponse { identifier, destination, source } => command_bytes(
                DISCONNECTION_RESPONSE,
                identifier,
                seq![destination, source],
            ),
        }
    }

    /// The command as channel 1 carries it: code, identifier, length, data.
    #[must_use]
    pub fn encode(&self) -> (out: Vec<u8>)
        ensures
            out@ == self.bytes(),
    {
        let (code, identifier, words): (u8, u8, Vec<u16>) = match *self {
            Signal::ConnectionRequest { identifier, psm, source } => (
                CONNECTION_REQUEST,
                identifier,
                vec![psm, source],
            ),
            Signal::ConnectionResponse { identifier, destination, source, result } => (
                CONNECTION_RESPONSE,
                identifier,
                vec![destination, source, result, 0],
            ),
            Signal::DisconnectionRequest { identifier, destination, source } => (
                DISCONNECTION_REQUEST,
                identifier,
                vec![destination, source],
            ),
            Signal::DisconnectionResponse { identifier, destination, source } => (
                DISCONNECTION_RESPONSE,
                identifier,
                vec![destination, source],
            ),
        };
        let length: u16 = (words.len() * 2) as u16;
        let mut out: Vec<u8> = vec![code, identifier];
        bytes::push_word(&mut out, length);
        let ghost head = out@;
        for at in 0..words.len()
            invariant
                out@ == head + words_bytes(words@.take(at as int)),
        {
            bytes::push_word(&mut out, words[at]);
            proof {
                assert(words@.take(at + 1).drop_last() =~= words@.take(at as int));
                assert(out@ =~= head + words_bytes(words@.take(at + 1)));
            }
        }
        proof {
            assert(words@.take(words@.len() as int) =~= words@);
            assert(out@ =~= command_bytes(code, identifier, words@));
        }
        out
    }

    /// The command at the start of a signalling payload: a code that is not
    /// signalled, or data shorter than the code needs, is refused.
    pub fn decode(bytes: &[u8]) -> (signal: Result<Signal, Error>)
        ensures
            signal == signal_of(bytes@),
    {
        if bytes.len() < 4 {
            return Err(Error::SignalCut);
        }
        let code: u8 = bytes[0];
        let identifier: u8 = bytes[1];
        if code != CONNECTION_REQUEST && code != CONNECTION_RESPONSE && code
            != DISCONNECTION_REQUEST && code != DISCONNECTION_RESPONSE {
            return Err(Error::SignalCode(code));
        }
        if bytes.len() < 8 {
            return Err(Error::SignalShort);
        }
        let first: u16 = bytes::read_word(bytes[4], bytes[5]);
        let second: u16 = bytes::read_word(bytes[6], bytes[7]);
        if code == CONNECTION_REQUEST {
            return Ok(Signal::ConnectionRequest { identifier, psm: first, source: second });
        }
        if code == DISCONNECTION_REQUEST {
            return Ok(
                Signal::DisconnectionRequest { identifier, destination: first, source: second },
            );
        }
        if code == DISCONNECTION_RESPONSE {
            return Ok(
                Signal::DisconnectionResponse { identifier, destination: first, source: second },
            );
        }
        if bytes.len() < 10 {
            return Err(Error::SignalShort);
        }
        let result: u16 = bytes::read_word(bytes[8], bytes[9]);
        Ok(Signal::ConnectionResponse { identifier, destination: first, source: second, result })
    }
}

/// What a frame's bytes are, place by place.
pub(crate) proof fn lemma_frame_bytes(frame: FrameView)
    ensures
        frame.bytes().len() == 4 + frame.payload.len(),
        frame.bytes().skip(4) == frame.payload,
        frame.bytes()[2] == (frame.cid % 256) as u8,
        frame.bytes()[3] == (frame.cid / 256) as u8,
        frame.payload.len() <= MAX_PAYLOAD ==> frame.bytes()[0] == frame.payload.len() % 256,
        frame.payload.len() <= MAX_PAYLOAD ==> frame.bytes()[1] == frame.payload.len() / 256,
{
    assert(frame.bytes().skip(4) =~= frame.payload);
}

/// Every frame that can be built reads back as it was written.
pub proof fn law_frame_reads_back(frame: FrameView)
    requires
        frame.valid(),
    ensures
        frame_of(frame.bytes()) == Ok::<FrameView, Error>(frame),
{
    lemma_frame_bytes(frame);
    bytes::lemma_word_reads_back(frame.cid);
}

/// Bytes that are a frame are a frame that can be built, and the bytes that
/// frame is written as: no frame has two encodings.
pub proof fn law_frame_writes_back(bytes: Seq<u8>)
    requires
        frame_of(bytes) is Ok,
    ensures
        frame_of(bytes)->Ok_0.valid(),
        frame_of(bytes)->Ok_0.bytes() == bytes,
{
    let frame = frame_of(bytes)->Ok_0;
    lemma_frame_bytes(frame);
    bytes::lemma_word_writes_back(bytes[0], bytes[1]);
    bytes::lemma_word_writes_back(bytes[2], bytes[3]);
    assert(frame.bytes() =~= bytes);
}

/// Bytes are exactly one frame or none: a frame cut anywhere, and a frame with
/// anything after it, is refused.
pub proof fn law_frame_is_whole(bytes: Seq<u8>, length: int, more: Seq<u8>)
    requires
        frame_of(bytes) is Ok,
        0 <= length < bytes.len(),
        more.len() > 0,
    ensures
        frame_of(bytes.take(length)) is Err,
        frame_of(bytes + more) is Err,
{
}

/// The bytes of two words.
proof fn lemma_words_two(a: u16, b: u16)
    ensures
        words_bytes(seq![a, b]) == bytes::word_bytes(a) + bytes::word_bytes(b),
{
    assert(seq![a, b].drop_last() =~= seq![a]);
    assert(seq![a].drop_last() =~= Seq::empty());
    reveal_with_fuel(words_bytes, 3);
    assert(words_bytes(seq![a, b]) =~= bytes::word_bytes(a) + bytes::word_bytes(b));
}

/// The bytes of four words.
proof fn lemma_words_four(a: u16, b: u16, c: u16, d: u16)
    ensures
        words_bytes(seq![a, b, c, d]) == bytes::word_bytes(a) + bytes::word_bytes(b)
            + bytes::word_bytes(c) + bytes::word_bytes(d),
{
    lemma_words_two(a, b);
    assert(seq![a, b, c, d].drop_last() =~= seq![a, b, c]);
    assert(seq![a, b, c].drop_last() =~= seq![a, b]);
    reveal_with_fuel(words_bytes, 3);
}

/// What a signal's bytes are, place by place.
pub(crate) proof fn lemma_signal_bytes(signal: Signal)
    ensures
        signal.bytes().len() == (if signal is ConnectionResponse {
            12nat
        } else {
            8nat
        }),
        signal.bytes()[0] == signal.code(),
        is_signal_code(signal.code()),
        signal_of(signal.bytes()) == Ok::<Signal, Error>(signal),
{
    match signal {
        Signal::ConnectionRequest { psm, source, .. } => {
            lemma_words_two(psm, source);
            bytes::lemma_word_reads_back(psm);
            bytes::lemma_word_reads_back(source);
        },
        Signal::ConnectionResponse { destination, source, result, .. } => {
            lemma_words_four(destination, source, result, 0);
            bytes::lemma_word_reads_back(destination);
            bytes::lemma_word_reads_back(source);
            bytes::lemma_word_reads_back(result);
        },
        Signal::DisconnectionRequest { destination, source, .. } => {
            lemma_words_two(destination, source);
            bytes::lemma_word_reads_back(destination);
            bytes::lemma_word_reads_back(source);
        },
        Signal::DisconnectionResponse { destination, source, .. } => {
            lemma_words_two(destination, source);
            bytes::lemma_word_reads_back(destination);
            bytes::lemma_word_reads_back(source);
        },
    }
}

/// Every signal reads back as it was written, whatever follows it.
pub proof fn law_signal_reads_back(signal: Signal, rest: Seq<u8>)
    ensures
        signal_of(signal.bytes() + rest) == Ok::<Signal, Error>(signal),
{
    lemma_signal_bytes(signal);
    let bytes = signal.bytes() + rest;
    assert(forall|i: int| 0 <= i < signal.bytes().len() ==> bytes[i] == signal.bytes()[i]);
}

/// A signal cut inside its header, or inside the words its code needs, is
/// refused.
pub proof fn law_cut_signal_is_refused(signal: Signal, length: int)
    requires
        0 <= length < bytes_needed(signal.code()),
    ensures
        signal_of(signal.bytes().take(length)) == Err::<Signal, Error>(
            if length < 4 {
                Error::SignalCut
            } else {
                Error::SignalShort
            },
        ),
{
    lemma_signal_bytes(signal);
}

/// A frame as the link carries it, place by place: its length in the first two
/// bytes and its channel in the next two, low byte first, and then the payload.
/// A payload over what two bytes can say has the largest length there is.
pub proof fn law_frame_place_by_place(frame: FrameView)
    ensures
        ({
            let out = frame.bytes();
            let length = frame.payload.len();
            &&& out.len() == 4 + length
            &&& length <= 65535 ==> out[0] + 256 * out[1] == length
            &&& length > 65535 ==> out[0] == 255 && out[1] == 255
            &&& out[2] + 256 * out[3] == frame.cid
            &&& forall|i: int| 0 <= i < length ==> #[trigger] out[4 + i] == frame.payload[i]
        }),
{
}

/// A frame is built from any channel but 0 and any payload of at most 65535
/// bytes, and holds just those; channel 0 is refused first.
pub proof fn law_frame_is_built_of_its_parts(cid: u16, payload: Seq<u8>)
    ensures
        cid == 0 <==> frame_with(cid, payload) == Err::<FrameView, Error>(Error::NullChannel),
        cid != 0 && payload.len() > 65535 <==> frame_with(cid, payload) == Err::<FrameView, Error>(
            Error::PayloadTooLong,
        ),
        cid != 0 && payload.len() <= 65535 <==> frame_with(cid, payload) is Ok,
        frame_with(cid, payload) matches Ok(frame) ==> frame.cid == cid && frame.payload == payload,
{
}

/// Which bytes are a frame, and which frame they are: four bytes or more, whose
/// first two say how many follow the fourth and whose next two name a channel
/// that is not 0. The frame is on that channel and carries what follows.
pub proof fn law_bytes_are_a_frame_exactly_when(bytes: Seq<u8>)
    ensures
        ({
            let said = bytes[0] + 256 * bytes[1];
            let channel = bytes[2] + 256 * bytes[3];
            let carried = bytes.len() - 4;
            let read = frame_of(bytes);
            &&& bytes.len() < 4 <==> read == Err::<FrameView, Error>(Error::FrameCut)
            &&& bytes.len() >= 4 && said != carried <==> read is Err
                && read->Err_0 is LengthMismatch
            &&& read matches Err(Error::LengthMismatch { length, carried: found }) ==> {
                &&& length == said
                &&& carried <= usize::MAX ==> found == carried
            }
            &&& bytes.len() >= 4 && said == carried && channel == 0 <==> read == Err::<
                FrameView,
                Error,
            >(Error::NullChannel)
            &&& bytes.len() >= 4 && said == carried && channel != 0 <==> read is Ok
            &&& read matches Ok(frame) ==> {
                &&& frame.cid == channel
                &&& frame.payload.len() == carried
                &&& forall|i: int|
                    0 <= i < carried ==> #[trigger] frame.payload[i] == bytes[4 + i]
            }
        }),
{
}

/// A signal as channel 1 carries it, place by place: its code, its identifier,
/// how many bytes of data follow, and then its words in order, each low byte
/// first: PSM and source of a connection request; destination, source, result
/// and a word of zeros of a connection response, whatever the result;
/// destination and source of a disconnection request or response.
pub proof fn law_signal_place_by_place(signal: Signal)
    ensures
        ({
            let out = signal.bytes();
            match signal {
                Signal::ConnectionRequest { identifier, psm, source } => {
                    &&& out.len() == 8
                    &&& out[0] == 0x02 && out[1] == identifier && out[2] == 4 && out[3] == 0
                    &&& out[4] + 256 * out[5] == psm
                    &&& out[6] + 256 * out[7] == source
                },
                Signal::ConnectionResponse { identifier, destination, source, result } => {
                    &&& out.len() == 12
                    &&& out[0] == 0x03 && out[1] == identifier && out[2] == 8 && out[3] == 0
                    &&& out[4] + 256 * out[5] == destination
                    &&& out[6] + 256 * out[7] == source
                    &&& out[8] + 256 * out[9] == result
                    &&& out[10] == 0 && out[11] == 0
                },
                Signal::DisconnectionRequest { identifier, destination, source } => {
                    &&& out.len() == 8
                    &&& out[0] == 0x06 && out[1] == identifier && out[2] == 4 && out[3] == 0
                    &&& out[4] + 256 * out[5] == destination
                    &&& out[6] + 256 * out[7] == source
                },
                Signal::DisconnectionResponse { identifier, destination, source } => {
                    &&& out.len() == 8
                    &&& out[0] == 0x07 && out[1] == identifier && out[2] == 4 && out[3] == 0
                    &&& out[4] + 256 * out[5] == destination
                    &&& out[6] + 256 * out[7] == source
                },
            }
        }),
{
    match signal {
        Signal::ConnectionRequest { psm, source, .. } => {
            lemma_words_two(psm, source);
        },
        Signal::ConnectionResponse { destination, source, result, .. } => {
            lemma_words_four(destination, source, result, 0);
        },
        Signal::DisconnectionRequest { destination, source, .. } => {
            lemma_words_two(destination, source);
        },
        Signal::DisconnectionResponse { destination, source, .. } => {
            lemma_words_two(destination, source);
        },
    }
}

/// Which bytes start with a signal, and which signal it is, read place by
/// place: the first byte says the kind, the second is the identifier, and the
/// words stand from the fifth byte on, each low byte first.
pub proof fn law_bytes_are_a_signal_exactly_when(bytes: Seq<u8>)
    ensures
        ({
            let code = bytes[0];
            let known = code == 0x02 || code == 0x03 || code == 0x06 || code == 0x07;
            let needed: int = if code == 0x03 {
                10
            } else {
                8
            };
            let first = bytes[4] + 256 * bytes[5];
            let second = bytes[6] + 256 * bytes[7];
            let third = bytes[8] + 256 * bytes[9];
            let read = signal_of(bytes);
            &&& bytes.len() < 4 <==> read == Err::<Signal, Error>(Error::SignalCut)
            &&& bytes.len() >= 4 && !known <==> read is Err && read->Err_0 is SignalCode
            &&& read matches Err(Error::SignalCode(refused)) ==> refused == code
            &&& bytes.len() >= 4 && known && bytes.len() < needed <==> read == Err::<Signal, Error>(
                Error::SignalShort,
            )
            &&& bytes.len() >= 4 && known && bytes.len() >= needed <==> read is Ok
            &&& read is Ok ==> match read->Ok_0 {
                Signal::ConnectionRequest { identifier, psm, source } => {
                    code == 0x02 && identifier == bytes[1] && psm == first && source == second
                },
                Signal::ConnectionResponse { identifier, destination, source, result } => {
                    &&& code == 0x03 && identifier == bytes[1]
                    &&& destination == first && source == second && result == third
                },
                Signal::DisconnectionRequest { identifier, destination, source } => {
                    &&& code == 0x06 && identifier == bytes[1]
                    &&& destination == first && source == second
                },
                Signal::DisconnectionResponse { identifier, destination, source } => {
                    &&& code == 0x07 && identifier == bytes[1]
                    &&& destination == first && source == second
                },
            }
        }),
{
}

/// What a frame's view holds is what the frame holds.
pub proof fn law_frame_view_is_plain(frame: Frame)
    ensures
        frame@.cid == frame.cid,
        frame@.payload == frame.payload@,
{
}

} // verus!
