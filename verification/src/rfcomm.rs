//! The RFCOMM frame, TS 07.10 as Bluetooth takes it: an address byte naming
//! the data link connection, a control byte, one or two length bytes, the
//! information and a frame check sequence. DLCI 0 is the multiplexer's
//! control channel; a server channel `n` is DLCI `2n` seen from the side
//! that started the multiplexer.

use crate::bytes;
use crate::error::Error;
use vstd::prelude::*;
use vstd::slice::slice_subrange;
use vstd::slice::slice_to_vec;

verus! {

/// The default maximum frame size, N1: what a UIH frame carries unless the
/// parameters were negotiated.
pub const N1: usize = 127;

/// The most a frame can say it carries: the length is fifteen bits.
pub const MAX_FRAME: usize = 32_767;

/// The highest DLCI: six bits, and 62 and 63 are reserved.
pub const MAX_DLCI: u8 = 61;

/// Address byte: extension bit set, command/response bit set.
const EA_CR: u8 = 0x03;

/// The control byte without its poll/final bit.
const NOT_POLL_FINAL: u8 = 0xef;

/// The control byte's meaning.
#[derive(Clone, Copy, Debug, PartialEq, Eq, Structural)]
pub enum Control {
    /// Set asynchronous balanced mode: open the DLC.
    Sabm,
    /// Unnumbered acknowledgement: the answer to SABM and DISC.
    Ua,
    /// Disconnected mode: the DLC is not, and will not be, open.
    Dm,
    /// Disconnect: close the DLC.
    Disc,
    /// Unnumbered information with header check: the data.
    Uih,
}

/// A control byte with its poll/final bit, the fifth, cleared.
pub open spec fn without_poll_final(byte: u8) -> u8 {
    if byte / 16 % 2 == 1 {
        (byte - 16) as u8
    } else {
        byte
    }
}

/// What a control byte means, whatever its poll/final bit.
pub open spec fn control_of(byte: u8) -> Result<Control, Error> {
    let plain = without_poll_final(byte);
    if plain == 0x2f {
        Ok(Control::Sabm)
    } else if plain == 0x63 {
        Ok(Control::Ua)
    } else if plain == 0x0f {
        Ok(Control::Dm)
    } else if plain == 0x43 {
        Ok(Control::Disc)
    } else if plain == 0xef {
        Ok(Control::Uih)
    } else {
        Err(Error::ControlByte(plain))
    }
}

impl Control {
    /// The control byte as it is written: the poll/final bit set on all but
    /// UIH.
    pub open spec fn code(self) -> u8 {
        match self {
            Control::Sabm => 0x3f,
            Control::Ua => 0x73,
            Control::Dm => 0x1f,
            Control::Disc => 0x53,
            Control::Uih => 0xef,
        }
    }

    /// The control byte as it is written.
    pub fn byte(self) -> (byte: u8)
        ensures
            byte == self.code(),
    {
        match self {
            Control::Sabm => 0x3f,
            Control::Ua => 0x73,
            Control::Dm => 0x1f,
            Control::Disc => 0x53,
            Control::Uih => 0xef,
        }
    }

    /// What a control byte means, whatever its poll/final bit; a byte RFCOMM
    /// does not use is refused.
    pub fn from_byte(byte: u8) -> (control: Result<Control, Error>)
        ensures
            control == control_of(byte),
    {
        let plain: u8 = byte & NOT_POLL_FINAL;
        proof {
            assert(byte & 0xefu8 == (if byte / 16 % 2 == 1 {
                (byte - 16) as u8
            } else {
                byte
            })) by (bit_vector);
        }
        match plain {
            0x2f => Ok(Control::Sabm),
            0x63 => Ok(Control::Ua),
            0x0f => Ok(Control::Dm),
            0x43 => Ok(Control::Disc),
            0xef => Ok(Control::Uih),
            other => Err(Error::ControlByte(other)),
        }
    }
}

/// One frame on one DLCI.
#[derive(Clone, Debug, PartialEq, Eq)]
pub struct Frame {
    pub dlci: u8,
    pub control: Control,
    pub information: Vec<u8>,
}

/// An RFCOMM frame, its information a sequence.
#[verifier::ext_equal]
pub struct FrameView {
    pub dlci: u8,
    pub control: Control,
    pub information: Seq<u8>,
}

impl View for Frame {
    type V = FrameView;

    open spec fn view(&self) -> FrameView {
        FrameView { dlci: self.dlci, control: self.control, information: self.information@ }
    }
}

/// The check register after it has shifted out one bit: the reflected
/// polynomial is taken off where the bit was set.
pub open spec fn crc_bit(crc: u8) -> u8 {
    if crc & 1 != 0 {
        (crc >> 1) ^ 0xe0
    } else {
        crc >> 1
    }
}

/// The check register after it has shifted out `bits` bits.
pub open spec fn crc_bits(crc: u8, bits: nat) -> u8
    decreases bits,
{
    if bits == 0 {
        crc
    } else {
        crc_bit(crc_bits(crc, (bits - 1) as nat))
    }
}

/// The check register, seeded with ones, after `bytes`.
pub open spec fn crc_of(bytes: Seq<u8>) -> u8
    decreases bytes.len(),
{
    if bytes.len() == 0 {
        0xff
    } else {
        crc_bits(crc_of(bytes.drop_last()) ^ bytes.last(), 8)
    }
}

/// The frame check sequence of `bytes`: the register's complement.
pub open spec fn fcs_of(bytes: Seq<u8>) -> u8 {
    (0xff - crc_of(bytes)) as u8
}

/// The length bytes of information of length `length`: one, its low bit set,
/// up to 127; two, seven bits and eight, above. A length over fifteen bits
/// has the largest second byte there is.
pub open spec fn length_bytes(length: nat) -> Seq<u8> {
    if length <= 127 {
        seq![(2 * length + 1) as u8]
    } else {
        seq![
            (2 * (length % 128)) as u8,
            if length / 128 <= 255 {
                (length / 128) as u8
            } else {
                255
            },
        ]
    }
}

/// How many of a frame's first bytes its check sequence covers: the address
/// and control bytes of a UIH frame, and the length bytes too of any other.
pub open spec fn checked(control: Control, header: int) -> int {
    if control == Control::Uih {
        2
    } else {
        header
    }
}

impl FrameView {
    /// A frame that can be built: a DLCI there is, and a length that fifteen
    /// bits can say.
    pub open spec fn valid(self) -> bool {
        self.dlci <= MAX_DLCI && self.information.len() <= MAX_FRAME
    }

    /// What stands before the information: address, control, length.
    pub open spec fn header(self) -> Seq<u8> {
        seq![(4 * (self.dlci % 64) + 3) as u8, self.control.code()] + length_bytes(
            self.information.len(),
        )
    }

    /// The check sequence the frame ends in.
    pub open spec fn check(self) -> u8 {
        fcs_of(self.header().take(checked(self.control, self.header().len() as int)))
    }

    /// The frame as the L2CAP channel carries it.
    pub open spec fn bytes(self) -> Seq<u8> {
        self.header() + self.information + seq![self.check()]
    }
}

/// The frame of a DLCI, a control and information, or why there is none.
pub open spec fn frame_with(dlci: u8, control: Control, information: Seq<u8>) -> Result<
    FrameView,
    Error,
> {
    if dlci > MAX_DLCI {
        Err(Error::DlciOver)
    } else if information.len() > MAX_FRAME {
        Err(Error::InformationTooLong)
    } else {
        Ok(FrameView { dlci, control, information })
    }
}

/// How many bytes stand before the information: the low bit of the first
/// length byte says whether it is the last.
pub open spec fn header_length(bytes: Seq<u8>) -> int {
    if bytes[2] % 2 == 1 {
        3
    } else {
        4
    }
}

/// How much information the length bytes announce.
pub open spec fn information_length(bytes: Seq<u8>) -> int {
    if bytes[2] % 2 == 1 {
        bytes[2] as int / 2
    } else {
        bytes[2] as int / 2 + 128 * bytes[3]
    }
}

/// The one frame that `bytes` are, or why they are none.
pub open spec fn frame_of(bytes: Seq<u8>) -> Result<FrameView, Error> {
    if bytes.len() < 2 {
        Err(Error::InformationCut)
    } else {
        match control_of(bytes[1]) {
            Err(error) => Err(error),
            Ok(control) => if bytes.len() < 3 || bytes.len() < header_length(bytes) {
                Err(Error::InformationCut)
            } else {
                let at = header_length(bytes);
                let end = at + information_length(bytes);
                if bytes.len() <= end {
                    Err(Error::InformationCut)
                } else if bytes.len() > end + 1 {
                    Err(Error::Trailing)
                } else if fcs_of(bytes.take(checked(control, at))) != bytes[end] {
                    Err(Error::CheckSequence)
                } else {
                    frame_with(bytes[0] / 4, control, bytes.subrange(at, end))
                }
            },
        }
    }
}

impl Frame {
    /// A frame, refusing a DLCI the six bits do not name and more
    /// information than the length can say: a DLCI over [`MAX_DLCI`], or
    /// information over [`MAX_FRAME`].
    pub fn new(dlci: u8, control: Control, information: &[u8]) -> (frame: Result<Frame, Error>)
        ensures
            crate::error::viewed(frame) == frame_with(dlci, control, information@),
    {
        if dlci > MAX_DLCI {
            return Err(Error::DlciOver);
        }
        if information.len() > MAX_FRAME {
            return Err(Error::InformationTooLong);
        }
        Ok(Frame { dlci, control, information: slice_to_vec(information) })
    }

    /// A frame with no information: SABM, UA, DM, DISC. A DLCI over
    /// [`MAX_DLCI`] is refused.
    pub fn command(dlci: u8, control: Control) -> (frame: Result<Frame, Error>)
        ensures
            crate::error::viewed(frame) == frame_with(dlci, control, Seq::empty()),
    {
        let none: Vec<u8> = Vec::new();
        Frame::new(dlci, control, none.as_slice())
    }

    /// The frame as the L2CAP channel carries it.
    #[must_use]
    pub fn encode(&self) -> (out: Vec<u8>)
        ensures
            out@ == self@.bytes(),
    {
        let dlci: u8 = self.dlci;
        proof {
            assert((dlci << 2) | 3u8 == (4 * (dlci % 64) + 3) as u8) by (bit_vector);
        }
        let mut out: Vec<u8> = vec![(dlci << 2) | EA_CR, self.control.byte()];
        let length: usize = self.information.len();
        if length <= 127 {
            out.push((2 * length + 1) as u8);
        } else {
            out.push((2 * (length % 128)) as u8);
            out.push(
                if length / 128 <= 255 {
                    (length / 128) as u8
                } else {
                    255
                },
            );
        }
        proof {
            assert(out@ =~= self@.header());
        }
        let covered: usize = if self.control == Control::Uih {
            2
        } else {
            out.len()
        };
        let check: u8 = fcs(slice_subrange(out.as_slice(), 0, covered));
        proof {
            assert(out@.subrange(0, covered as int) =~= self@.header().take(
                checked(self.control, self@.header().len() as int),
            ));
        }
        bytes::push_all(&mut out, self.information.as_slice());
        out.push(check);
        proof {
            assert(out@ =~= self@.bytes());
        }
        out
    }

    /// Exactly one frame, its check sequence checked: a frame cut off, a
    /// control byte RFCOMM does not use, a length the bytes do not match, a
    /// check sequence that does not check, or a reserved DLCI is refused.
    pub fn decode(bytes: &[u8]) -> (frame: Result<Frame, Error>)
        ensures
            crate::error::viewed(frame) == frame_of(bytes@),
    {
        if bytes.len() < 2 {
            return Err(Error::InformationCut);
        }
        let address: u8 = bytes[0];
        let control: Control = match Control::from_byte(bytes[1]) {
            Ok(control) => control,
            Err(error) => return Err(error),
        };
        if bytes.len() < 3 {
            return Err(Error::InformationCut);
        }
        let first: u8 = bytes[2];
        let at: usize;
        let length: usize;
        if first % 2 == 1 {
            at = 3;
            length = first as usize / 2;
        } else {
            if bytes.len() < 4 {
                return Err(Error::InformationCut);
            }
            at = 4;
            length = first as usize / 2 + 128 * (bytes[3] as usize);
        }
        let end: usize = at + length;
        if bytes.len() <= end {
            return Err(Error::InformationCut);
        }
        if bytes.len() > end + 1 {
            return Err(Error::Trailing);
        }
        let covered: usize = if control == Control::Uih {
            2
        } else {
            at
        };
        proof {
            assert(bytes@.subrange(0, covered as int) =~= bytes@.take(
                checked(control, at as int),
            ));
        }
        if fcs(slice_subrange(bytes, 0, covered)) != bytes[end] {
            return Err(Error::CheckSequence);
        }
        Frame::new(address / 4, control, slice_subrange(bytes, at, end))
    }
}

/// The frame check sequence: the CRC-8 of TS 07.10, reflected, seeded with
/// ones and complemented — over the address and control bytes of a UIH
/// frame, and the length bytes too of any other.
#[must_use]
pub fn fcs(bytes: &[u8]) -> (check: u8)
    ensures
        check == fcs_of(bytes@),
{
    let mut crc: u8 = 0xff;
    for at in 0..bytes.len()
        invariant
            crc == crc_of(bytes@.take(at as int)),
    {
        crc = crc ^ bytes[at];
        let ghost mixed = crc;
        for bit in 0..8u8
            invariant
                crc == crc_bits(mixed, bit as nat),
        {
            crc = if crc & 1 != 0 {
                (crc >> 1) ^ 0xe0
            } else {
                crc >> 1
            };
        }
        proof {
            assert(bytes@.take(at + 1).drop_last() =~= bytes@.take(at as int));
        }
    }
    proof {
        assert(bytes@.take(bytes@.len() as int) =~= bytes@);
    }
    0xff - crc
}

/// A control byte reads back as it was written.
pub proof fn law_control_reads_back(control: Control)
    ensures
        control_of(control.code()) == Ok::<Control, Error>(control),
{
}

/// A frame is its information and at most five bytes around it.
pub(crate) proof fn lemma_frame_length(frame: FrameView)
    ensures
        frame.information.len() + 4 <= frame.bytes().len() <= frame.information.len() + 5,
{
}

/// The length bytes say the length they were written for.
proof fn lemma_length_reads_back(frame: FrameView)
    requires
        frame.information.len() <= MAX_FRAME,
    ensures
        header_length(frame.bytes()) == frame.header().len(),
        information_length(frame.bytes()) == frame.information.len(),
        frame.bytes().len() == frame.header().len() + frame.information.len() + 1,
{
    let bytes = frame.bytes();
    assert(bytes[2] == frame.header()[2]);
    if frame.information.len() > 127 {
        assert(bytes[3] == frame.header()[3]);
    }
}

/// Every frame that can be built reads back as it was written.
pub proof fn law_frame_reads_back(frame: FrameView)
    requires
        frame.valid(),
    ensures
        frame_of(frame.bytes()) == Ok::<FrameView, Error>(frame),
{
    let bytes = frame.bytes();
    lemma_length_reads_back(frame);
    let at = header_length(bytes);
    let end = at + information_length(bytes);
    assert(bytes[0] == frame.header()[0]);
    assert(bytes[1] == frame.header()[1]);
    assert(bytes.take(checked(frame.control, at)) =~= frame.header().take(
        checked(frame.control, at),
    ));
    assert(bytes[end] == frame.check());
    assert(bytes.subrange(at, end) =~= frame.information);
}

/// Bytes that are a frame are a frame that can be built.
pub proof fn law_read_frame_is_valid(bytes: Seq<u8>)
    requires
        frame_of(bytes) is Ok,
    ensures
        frame_of(bytes)->Ok_0.valid(),
{
}

/// Bytes are exactly one frame or none: a frame cut anywhere, and a frame with
/// anything after it, is refused.
pub proof fn law_frame_is_whole(bytes: Seq<u8>, length: int, more: Seq<u8>)
    requires
        frame_of(bytes) is Ok,
        0 <= length < bytes.len(),
        more.len() > 0,
    ensures
        frame_of(bytes.take(length)) == Err::<FrameView, Error>(Error::InformationCut),
        frame_of(bytes + more) == Err::<FrameView, Error>(Error::Trailing),
{
}

/// A frame whose check sequence is any byte but its own is refused.
pub proof fn law_wrong_check_is_refused(bytes: Seq<u8>, check: u8)
    requires
        frame_of(bytes) is Ok,
        check != bytes.last(),
    ensures
        frame_of(bytes.update(bytes.len() - 1, check)) == Err::<FrameView, Error>(
            Error::CheckSequence,
        ),
{
    let wrong = bytes.update(bytes.len() - 1, check);
    let control = control_of(bytes[1])->Ok_0;
    let at = header_length(bytes);
    assert(wrong.take(checked(control, at)) =~= bytes.take(checked(control, at)));
}

/// A UIH frame's check sequence covers only its address and control: it is the
/// same whatever the frame carries.
pub proof fn law_uih_check_is_of_address_and_control(frame: FrameView)
    requires
        frame.control == Control::Uih,
    ensures
        frame.check() == fcs_of(seq![(4 * (frame.dlci % 64) + 3) as u8, 0xefu8]),
{
    assert(frame.header().take(2) =~= seq![(4 * (frame.dlci % 64) + 3) as u8, 0xefu8]);
}

/// No two registers shift out to the same one.
proof fn lemma_crc_bits_injective(a: u8, b: u8, bits: nat)
    requires
        a != b,
    ensures
        crc_bits(a, bits) != crc_bits(b, bits),
    decreases bits,
{
    if bits > 0 {
        lemma_crc_bits_injective(a, b, (bits - 1) as nat);
        let x = crc_bits(a, (bits - 1) as nat);
        let y = crc_bits(b, (bits - 1) as nat);
        assert(x != y ==> (if x & 1 != 0 {
            (x >> 1) ^ 0xe0u8
        } else {
            x >> 1
        }) != (if y & 1 != 0 {
            (y >> 1) ^ 0xe0u8
        } else {
            y >> 1
        })) by (bit_vector);
    }
}

/// The check sequence tells any one altered byte: two strings of bytes that
/// differ in exactly one place have different check sequences.
pub proof fn law_one_altered_byte_is_told(bytes: Seq<u8>, at: int, byte: u8)
    requires
        0 <= at < bytes.len(),
        byte != bytes[at],
    ensures
        fcs_of(bytes.update(at, byte)) != fcs_of(bytes),
    decreases bytes.len(),
{
    let altered = bytes.update(at, byte);
    let before = crc_of(bytes.drop_last());
    let after = crc_of(altered.drop_last());
    let x = bytes.last();
    let y = altered.last();
    if at == bytes.len() - 1 {
        assert(altered.drop_last() =~= bytes.drop_last());
        assert(x != y ==> before ^ x != before ^ y) by (bit_vector);
    } else {
        assert(altered.drop_last() =~= bytes.drop_last().update(at, byte));
        law_one_altered_byte_is_told(bytes.drop_last(), at, byte);
        assert(before != after ==> before ^ x != after ^ x) by (bit_vector);
    }
    lemma_crc_bits_injective(before ^ x, after ^ y, 8);
}

/// The byte of each control: the poll/final bit is set on all but UIH.
pub proof fn law_control_has_its_byte(control: Control)
    ensures
        control is Sabm <==> control.code() == 0x3f,
        control is Ua <==> control.code() == 0x73,
        control is Dm <==> control.code() == 0x1f,
        control is Disc <==> control.code() == 0x53,
        control is Uih <==> control.code() == 0xef,
{
}

/// What each byte means: the five controls with their poll/final bit, the one
/// that counts 16, set or clear, and nothing else. What a refused byte is told
/// as is the byte with that bit clear.
pub proof fn law_byte_is_a_control_exactly_when(byte: u8)
    ensures
        ({
            let read = control_of(byte);
            let told = |control: Control| read == Ok::<Control, Error>(control);
            &&& told(Control::Sabm) <==> byte == 0x2f || byte == 0x3f
            &&& told(Control::Ua) <==> byte == 0x63 || byte == 0x73
            &&& told(Control::Dm) <==> byte == 0x0f || byte == 0x1f
            &&& told(Control::Disc) <==> byte == 0x43 || byte == 0x53
            &&& told(Control::Uih) <==> byte == 0xef || byte == 0xff
            &&& read is Err ==> {
                &&& read->Err_0 is ControlByte
                &&& read->Err_0->ControlByte_0 / 16 % 2 == 0
                &&& read->Err_0->ControlByte_0 == byte || read->Err_0->ControlByte_0 + 16 == byte
            }
        }),
{
}

/// A frame as the L2CAP channel carries it, place by place: the DLCI above two
/// set bits, the control, one length byte or two, the information, and last the
/// check sequence of the bytes before the information, of a UIH frame the first
/// two only.
pub proof fn law_frame_place_by_place(frame: FrameView)
    ensures
        ({
            let out = frame.bytes();
            let length = frame.information.len();
            let header: int = if length <= 127 {
                3
            } else {
                4
            };
            &&& out.len() == header + length + 1
            &&& out[0] == 4 * (frame.dlci % 64) + 3
            &&& frame.control is Sabm ==> out[1] == 0x3f
            &&& frame.control is Ua ==> out[1] == 0x73
            &&& frame.control is Dm ==> out[1] == 0x1f
            &&& frame.control is Disc ==> out[1] == 0x53
            &&& frame.control is Uih ==> out[1] == 0xef
            &&& length <= 127 ==> out[2] == 2 * length + 1
            &&& 127 < length <= 32767 ==> out[2] % 2 == 0 && out[2] / 2 + 128 * out[3] == length
            &&& 32767 < length ==> out[2] == 2 * (length % 128) && out[3] == 255
            &&& forall|i: int|
                0 <= i < length ==> #[trigger] out[header + i] == frame.information[i]
            &&& frame.control is Uih ==> out.last() == fcs_of(seq![out[0], out[1]])
            &&& !(frame.control is Uih) ==> out.last() == fcs_of(out.take(header))
        }),
{
    let out = frame.bytes();
    let header = frame.header();
    assert(out[0] == header[0] && out[1] == header[1] && out[2] == header[2]);
    if frame.information.len() > 127 {
        assert(out[3] == header[3]);
    }
    assert(header.take(2) =~= seq![out[0], out[1]]);
    assert(header.take(header.len() as int) =~= out.take(header.len() as int));
}

/// A frame is built from any DLCI up to 61 and any information of at most 32767
/// bytes, and holds just those; the DLCI is looked at first.
pub proof fn law_frame_is_built_of_its_parts(dlci: u8, control: Control, information: Seq<u8>)
    ensures
        ({
            let built = frame_with(dlci, control, information);
            &&& dlci > 61 <==> built == Err::<FrameView, Error>(Error::DlciOver)
            &&& dlci <= 61 && information.len() > 32767 <==> built == Err::<FrameView, Error>(
                Error::InformationTooLong,
            )
            &&& dlci <= 61 && information.len() <= 32767 <==> built is Ok
            &&& built matches Ok(frame) ==> {
                &&& frame.dlci == dlci
                &&& frame.control == control
                &&& frame.information == information
            }
        }),
{
}

/// Which bytes are a frame, and which frame they are, read place by place.
/// Bytes that end before the check sequence, a control byte that is not used,
/// bytes after the check sequence, one that does not check and a reserved DLCI
/// are refused, in that order; the control byte is read before the length.
pub proof fn law_bytes_are_a_frame_exactly_when(bytes: Seq<u8>)
    ensures
        ({
            let control = control_of(bytes[1]);
            let short = bytes[2] % 2 == 1;
            let header: int = if short {
                3
            } else {
                4
            };
            let length: int = if short {
                bytes[2] as int / 2
            } else {
                bytes[2] as int / 2 + 128 * bytes[3]
            };
            let covered: int = if control == Ok::<Control, Error>(Control::Uih) {
                2
            } else {
                header
            };
            let cut = bytes.len() < 2 || control is Ok && (bytes.len() < 3 || bytes.len() < header
                || bytes.len() < header + length + 1);
            let unused = bytes.len() >= 2 && control is Err;
            let more = !cut && !unused && bytes.len() > header + length + 1;
            let wrong = !cut && !unused && !more && fcs_of(bytes.take(covered))
                != bytes[header + length];
            let reserved = !cut && !unused && !more && !wrong && bytes[0] >= 248;
            let read = frame_of(bytes);
            &&& cut <==> read == Err::<FrameView, Error>(Error::InformationCut)
            &&& unused <==> read is Err && read->Err_0 is ControlByte
            &&& unused ==> read->Err_0 == control->Err_0
            &&& more <==> read == Err::<FrameView, Error>(Error::Trailing)
            &&& wrong <==> read == Err::<FrameView, Error>(Error::CheckSequence)
            &&& reserved <==> read == Err::<FrameView, Error>(Error::DlciOver)
            &&& !cut && !unused && !more && !wrong && !reserved <==> read is Ok
            &&& read matches Ok(frame) ==> {
                &&& frame.dlci == bytes[0] / 4
                &&& control == Ok::<Control, Error>(frame.control)
                &&& frame.information.len() == length
                &&& forall|i: int|
                    0 <= i < length ==> #[trigger] frame.information[i] == bytes[header + i]
            }
        }),
{
}

/// The check sequence goes byte by byte: that of bytes and one more is that of
/// the single byte that the check sequence of the bytes and the one more make,
/// put together bit by bit.
pub proof fn law_check_goes_byte_by_byte(bytes: Seq<u8>, byte: u8)
    ensures
        fcs_of(Seq::empty()) == 0,
        fcs_of(bytes.push(byte)) == fcs_of(seq![fcs_of(bytes) ^ byte]),
{
    let before = crc_of(bytes);
    assert(bytes.push(byte).drop_last() =~= bytes);
    assert(0xffu8 ^ (((0xff - before) as u8) ^ byte) == before ^ byte) by (bit_vector);
    lemma_crc_of_one(fcs_of(bytes) ^ byte);
}

/// The check register after one byte.
proof fn lemma_crc_of_one(byte: u8)
    ensures
        crc_of(seq![byte]) == crc_bits(0xffu8 ^ byte, 8),
{
    assert(seq![byte].drop_last() =~= Seq::empty());
    reveal_with_fuel(crc_of, 2);
}

/// The check sequence of one byte: what each of its bits leaves of the division
/// by x^8 + x^2 + x + 1, lowest bit first, put together with what the seed and
/// the complement leave.
pub proof fn law_check_of_one_byte(byte: u8)
    ensures
        fcs_of(seq![byte]) == 0x30u8 ^ (if byte % 2 == 1 {
            0x91u8
        } else {
            0
        }) ^ (if byte / 2 % 2 == 1 {
            0xe3u8
        } else {
            0
        }) ^ (if byte / 4 % 2 == 1 {
            0x07u8
        } else {
            0
        }) ^ (if byte / 8 % 2 == 1 {
            0x0eu8
        } else {
            0
        }) ^ (if byte / 16 % 2 == 1 {
            0x1cu8
        } else {
            0
        }) ^ (if byte / 32 % 2 == 1 {
            0x38u8
        } else {
            0
        }) ^ (if byte / 64 % 2 == 1 {
            0x70u8
        } else {
            0
        }) ^ (if byte / 128 == 1 {
            0xe0u8
        } else {
            0
        }),
{
    let r0 = 0xffu8 ^ byte;
    let r1 = crc_bit(r0);
    let r2 = crc_bit(r1);
    let r3 = crc_bit(r2);
    let r4 = crc_bit(r3);
    let r5 = crc_bit(r4);
    let r6 = crc_bit(r5);
    let r7 = crc_bit(r6);
    let r8 = crc_bit(r7);
    lemma_crc_of_one(byte);
    reveal_with_fuel(crc_bits, 9);
    assert(crc_of(seq![byte]) == r8);
    assert((0xff - r8) as u8 == 0x30u8 ^ (if byte % 2 == 1 {
            0x91u8
        } else {
            0
        }) ^ (if byte / 2 % 2 == 1 {
            0xe3u8
        } else {
            0
        }) ^ (if byte / 4 % 2 == 1 {
            0x07u8
        } else {
            0
        }) ^ (if byte / 8 % 2 == 1 {
            0x0eu8
        } else {
            0
        }) ^ (if byte / 16 % 2 == 1 {
            0x1cu8
        } else {
            0
        }) ^ (if byte / 32 % 2 == 1 {
            0x38u8
        } else {
            0
        }) ^ (if byte / 64 % 2 == 1 {
            0x70u8
        } else {
            0
        }) ^ (if byte / 128 == 1 {
            0xe0u8
        } else {
            0
        })) by (bit_vector)
        requires
            r0 == 0xffu8 ^ byte,
            r1 == (if r0 & 1 != 0 {
                (r0 >> 1) ^ 0xe0u8
            } else {
                r0 >> 1
            }),
            r2 == (if r1 & 1 != 0 {
                (r1 >> 1) ^ 0xe0u8
            } else {
                r1 >> 1
            }),
            r3 == (if r2 & 1 != 0 {
                (r2 >> 1) ^ 0xe0u8
            } else {
                r2 >> 1
            }),
            r4 == (if r3 & 1 != 0 {
                (r3 >> 1) ^ 0xe0u8
            } else {
                r3 >> 1
            }),
            r5 == (if r4 & 1 != 0 {
                (r4 >> 1) ^ 0xe0u8
            } else {
                r4 >> 1
            }),
            r6 == (if r5 & 1 != 0 {
                (r5 >> 1) ^ 0xe0u8
            } else {
                r5 >> 1
            }),
            r7 == (if r6 & 1 != 0 {
                (r6 >> 1) ^ 0xe0u8
            } else {
                r6 >> 1
            }),
            r8 == (if r7 & 1 != 0 {
                (r7 >> 1) ^ 0xe0u8
            } else {
                r7 >> 1
            }),
    ;
}

/// Three strings of bytes of one length, put together bit by bit, have the
/// check sequence that theirs make, put together bit by bit.
pub proof fn law_check_is_linear(a: Seq<u8>, b: Seq<u8>, c: Seq<u8>)
    requires
        a.len() == b.len() == c.len(),
    ensures
        fcs_of(Seq::new(a.len(), |i: int| a[i] ^ b[i] ^ c[i])) == fcs_of(a) ^ fcs_of(b) ^ fcs_of(c),
    decreases a.len(),
{
    let all = Seq::new(a.len(), |i: int| a[i] ^ b[i] ^ c[i]);
    if a.len() == 0 {
        assert(crc_of(all) == 0xff && crc_of(a) == 0xff && crc_of(b) == 0xff && crc_of(c) == 0xff);
        assert(0u8 ^ 0u8 ^ 0u8 == 0u8) by (bit_vector);
    } else {
        let (s, t, u) = (a.drop_last(), b.drop_last(), c.drop_last());
        law_check_is_linear(s, t, u);
        assert(all.drop_last() =~= Seq::new(s.len(), |i: int| s[i] ^ t[i] ^ u[i]));
        lemma_check_of_last(a);
        lemma_check_of_last(b);
        lemma_check_of_last(c);
        lemma_check_of_last(all);
        let (x, y, z) = (fcs_of(s), fcs_of(t), fcs_of(u));
        let (l, m, n) = (a.last(), b.last(), c.last());
        assert((x ^ y ^ z) ^ (l ^ m ^ n) == (x ^ l) ^ (y ^ m) ^ (z ^ n)) by (bit_vector);
        lemma_check_is_linear_in_a_byte(x ^ l, y ^ m, z ^ n);
    }
}

/// The check sequence of bytes, by their last one.
proof fn lemma_check_of_last(bytes: Seq<u8>)
    requires
        bytes.len() > 0,
    ensures
        fcs_of(bytes) == fcs_of(seq![fcs_of(bytes.drop_last()) ^ bytes.last()]),
{
    law_check_goes_byte_by_byte(bytes.drop_last(), bytes.last());
    assert(bytes.drop_last().push(bytes.last()) =~= bytes);
}

/// One register of three.
proof fn lemma_crc_bit_is_linear(a: u8, b: u8, c: u8)
    ensures
        crc_bit(a ^ b ^ c) == crc_bit(a) ^ crc_bit(b) ^ crc_bit(c),
{
    assert((if (a ^ b ^ c) & 1 != 0 {
        ((a ^ b ^ c) >> 1) ^ 0xe0u8
    } else {
        (a ^ b ^ c) >> 1
    }) == (if a & 1 != 0 {
        (a >> 1) ^ 0xe0u8
    } else {
        a >> 1
    }) ^ (if b & 1 != 0 {
        (b >> 1) ^ 0xe0u8
    } else {
        b >> 1
    }) ^ (if c & 1 != 0 {
        (c >> 1) ^ 0xe0u8
    } else {
        c >> 1
    })) by (bit_vector);
}

/// Registers of three, shifted.
proof fn lemma_crc_bits_is_linear(a: u8, b: u8, c: u8, bits: nat)
    ensures
        crc_bits(a ^ b ^ c, bits) == crc_bits(a, bits) ^ crc_bits(b, bits) ^ crc_bits(c, bits),
    decreases bits,
{
    if bits > 0 {
        let fewer = (bits - 1) as nat;
        lemma_crc_bits_is_linear(a, b, c, fewer);
        lemma_crc_bit_is_linear(crc_bits(a, fewer), crc_bits(b, fewer), crc_bits(c, fewer));
    }
}

/// Three bytes put together have the check sequence that theirs make.
proof fn lemma_check_is_linear_in_a_byte(a: u8, b: u8, c: u8)
    ensures
        fcs_of(seq![a ^ b ^ c]) == fcs_of(seq![a]) ^ fcs_of(seq![b]) ^ fcs_of(seq![c]),
{
    lemma_crc_of_one(a ^ b ^ c);
    lemma_crc_of_one(a);
    lemma_crc_of_one(b);
    lemma_crc_of_one(c);
    assert(0xffu8 ^ (a ^ b ^ c) == (0xffu8 ^ a) ^ (0xffu8 ^ b) ^ (0xffu8 ^ c)) by (bit_vector);
    lemma_crc_bits_is_linear(0xffu8 ^ a, 0xffu8 ^ b, 0xffu8 ^ c, 8);
    let (x, y, z) = (
        crc_bits(0xffu8 ^ a, 8),
        crc_bits(0xffu8 ^ b, 8),
        crc_bits(0xffu8 ^ c, 8),
    );
    assert((0xff - (x ^ y ^ z)) as u8 == ((0xff - x) as u8) ^ ((0xff - y) as u8) ^ ((0xff
        - z) as u8)) by (bit_vector);
}

/// What a frame's view holds is what the frame holds.
pub proof fn law_frame_view_is_plain(frame: Frame)
    ensures
        frame@.dlci == frame.dlci,
        frame@.control == frame.control,
        frame@.information == frame.information@,
{
}

} // verus!
