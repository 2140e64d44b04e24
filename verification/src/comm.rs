//! Application message codec: a fixed little-endian header (command, id,
//! fragment count, fragment index, payload length) followed by exactly
//! `length` payload bytes.

use vstd::prelude::*;

use crate::hdlc;

verus! {

/// Fixed header length in bytes: command (2), id (1), fragments (2),
/// fragment (2), length (2).
pub const COMMS_HEADER_LEN: usize = 9;

/// Largest payload a message may carry.
pub const COMMS_MAX_PAYLOAD: usize = 256;

/// Command identifiers for messages. Numeric values outside the recognized
/// set are preserved as opaque data but match no named variant; consumers
/// must handle that case explicitly.
#[derive(Clone, Copy, Debug, PartialEq, Eq, Structural)]
pub enum Command {
    Ack,
    Nak,
    Ping,
    Raw,
    /// A wire value outside the recognized set, preserved as-is.
    Unrecognized(u16),
}

impl Command {
    /// The 16-bit wire value of this command.
    pub open spec fn spec_code(self) -> u16 {
        match self {
            Command::Ack => 0x01,
            Command::Nak => 0x02,
            Command::Ping => 0x03,
            Command::Raw => 0x04,
            Command::Unrecognized(v) => v,
        }
    }

    /// An `Unrecognized` value never shadows a named command.
    pub open spec fn wf(self) -> bool {
        self matches Command::Unrecognized(v) ==> !(0x01 <= v <= 0x04)
    }

    /// The command a 16-bit wire value denotes.
    pub open spec fn spec_from_code(v: u16) -> Command {
        if v == 0x01 {
            Command::Ack
        } else if v == 0x02 {
            Command::Nak
        } else if v == 0x03 {
            Command::Ping
        } else if v == 0x04 {
            Command::Raw
        } else {
            Command::Unrecognized(v)
        }
    }

    /// The 16-bit wire value of this command.
    pub fn code(self) -> (r: u16)
        ensures
            r == self.spec_code(),
    {
        match self {
            Command::Ack => 0x01,
            Command::Nak => 0x02,
            Command::Ping => 0x03,
            Command::Raw => 0x04,
            Command::Unrecognized(v) => v,
        }
    }

    /// Classify a 16-bit wire value, keeping unrecognized values intact.
    pub fn from_code(v: u16) -> (c: Command)
        ensures
            c == Command::spec_from_code(v),
            c.wf(),
    {
        if v == 0x01 {
            Command::Ack
        } else if v == 0x02 {
            Command::Nak
        } else if v == 0x03 {
            Command::Ping
        } else if v == 0x04 {
            Command::Raw
        } else {
            Command::Unrecognized(v)
        }
    }
}

/// Classifying a wire value never loses it: the code read back is the value.
pub proof fn lemma_command_code_round_trip(v: u16)
    ensures
        Command::spec_from_code(v).spec_code() == v,
        Command::spec_from_code(v).wf(),
{
}

/// A command that does not shadow a named variant survives the trip through
/// its wire value.
pub proof fn lemma_command_round_trip(c: Command)
    requires
        c.wf(),
    ensures
        Command::spec_from_code(c.spec_code()) == c,
{
}

/// Mathematical view of a message.
pub struct MsgView {
    pub command: u16,
    pub id: u8,
    pub fragments: u16,
    pub fragment: u16,
    pub length: u16,
    pub payload: Seq<u8>,
}

impl MsgView {
    /// The declared length matches the payload and stays within bounds.
    pub open spec fn wf(self) -> bool {
        self.payload.len() == self.length && self.length <= COMMS_MAX_PAYLOAD
    }
}

/// A decoded application message: header fields plus payload. The `length`
/// field always equals the payload size and never exceeds
/// `COMMS_MAX_PAYLOAD`.
#[derive(Clone, Debug, PartialEq, Eq)]
pub struct Message {
    pub command: u16,
    pub id: u8,
    /// Total fragment count of a fragmented sequence; 1 for a whole
    /// message.
    pub fragments: u16,
    /// Zero-based index of this piece within its sequence. Fragments are
    /// delivered as independent messages in arrival order; reassembly is
    /// the consumer's concern.
    pub fragment: u16,
    pub length: u16,
    pub payload: Vec<u8>,
}

impl View for Message {
    type V = MsgView;

    open spec fn view(&self) -> MsgView {
        MsgView {
            command: self.command,
            id: self.id,
            fragments: self.fragments,
            fragment: self.fragment,
            length: self.length,
            payload: self.payload@,
        }
    }
}

impl Message {
    /// The declared length matches the payload and stays within bounds.
    pub open spec fn wf(self) -> bool {
        self@.wf()
    }

    /// Convenience constructor for a whole, unfragmented message: id 0,
    /// one fragment, zero-based fragment index 0. A payload longer than
    /// `COMMS_MAX_PAYLOAD` is silently truncated: the bounded-memory
    /// guarantee takes priority, and callers must pre-validate where
    /// truncation is unacceptable.
    pub fn new(command: u16, payload: &[u8]) -> (m: Message)
        ensures
            m.wf(),
            m@.command == command,
            m@.id == 0,
            m@.fragments == 1,
            m@.fragment == 0,
            m@.payload == payload@.take(if payload@.len() <= COMMS_MAX_PAYLOAD {
                payload@.len() as int
            } else {
                COMMS_MAX_PAYLOAD as int
            }),
    {
        let take: usize = if payload.len() <= COMMS_MAX_PAYLOAD {
            payload.len()
        } else {
            COMMS_MAX_PAYLOAD
        };
        let mut buf: Vec<u8> = Vec::new();
        let mut i: usize = 0;
        while i < take
            invariant
                i <= take,
                take <= payload@.len(),
                take <= COMMS_MAX_PAYLOAD,
                buf@ == payload@.take(i as int),
            decreases take - i,
        {
            buf.push(payload[i]);
            proof {
                assert(payload@.take(i + 1) =~= payload@.take(i as int).push(payload@[i as int]));
            }
            i += 1;
        }
        Message {
            command,
            id: 0,
            fragments: 1,
            fragment: 0,
            length: take as u16,
            payload: buf,
        }
    }
}

impl Default for Message {
    /// The empty message: command 0, a single fragment with index 0, no
    /// payload.
    fn default() -> (m: Message)
        ensures
            m.wf(),
            m@.command == 0,
            m@.id == 0,
            m@.fragments == 1,
            m@.fragment == 0,
            m@.length == 0,
            m@.payload == Seq::<u8>::empty(),
    {
        Message {
            command: 0,
            id: 0,
            fragments: 1,
            fragment: 0,
            length: 0,
            payload: Vec::new(),
        }
    }
}

// ---------------------------------------------------------------------------
// Serialization.
// ---------------------------------------------------------------------------

/// A 16-bit value as its little-endian byte pair.
pub open spec fn le16_bytes(v: u16) -> Seq<u8> {
    seq![(v & 0x00FF) as u8, (v >> 8) as u8]
}

/// The serialized header of a message.
pub open spec fn header_bytes(m: MsgView) -> Seq<u8> {
    le16_bytes(m.command) + seq![m.id] + le16_bytes(m.fragments) + le16_bytes(m.fragment)
        + le16_bytes(m.length)
}

/// The full serialized form of a message: header then payload.
pub open spec fn message_bytes(m: MsgView) -> Seq<u8> {
    header_bytes(m) + m.payload
}

/// Append the little-endian bytes of `v` to `out`.
fn push_le16(out: &mut Vec<u8>, v: u16)
    ensures
        final(out)@ == old(out)@ + le16_bytes(v),
{
    out.push((v & 0x00FF) as u8);
    out.push((v >> 8) as u8);
    proof {
        assert(final(out)@ =~= old(out)@ + le16_bytes(v));
    }
}

/// Serialize a message: the fixed header followed by exactly `length`
/// payload bytes. The message invariant guarantees the declared length
/// matches the payload.
pub fn encode(msg: &Message) -> (out: Vec<u8>)
    requires
        msg.wf(),
    ensures
        out@ == message_bytes(msg@),
{
    let mut out: Vec<u8> = Vec::new();
    push_le16(&mut out, msg.command);
    out.push(msg.id);
    push_le16(&mut out, msg.fragments);
    push_le16(&mut out, msg.fragment);
    push_le16(&mut out, msg.length);
    proof {
        assert(out@ =~= header_bytes(msg@));
    }
    let ghost header = out@;
    let mut i: usize = 0;
    while i < msg.payload.len()
        invariant
            i <= msg.payload@.len(),
            header == header_bytes(msg@),
            out@ == header + msg.payload@.take(i as int),
        decreases msg.payload@.len() - i,
    {
        let b = msg.payload[i];
        out.push(b);
        proof {
            assert(msg.payload@.take(i + 1) =~= msg.payload@.take(i as int).push(
                msg.payload@[i as int],
            ));
        }
        i += 1;
    }
    proof {
        assert(msg.payload@.take(msg.payload@.len() as int) =~= msg.payload@);
    }
    out
}

// ---------------------------------------------------------------------------
// Deserialization.
// ---------------------------------------------------------------------------

/// The 16-bit little-endian value at offset `i` of a byte sequence.
pub open spec fn le16_at(b: Seq<u8>, i: int) -> u16 {
    hdlc::le16_of(b[i], b[i + 1])
}

/// What decoding a byte sequence yields: nothing when fewer bytes than the
/// header are present, when the declared length exceeds the maximum, or
/// when fewer bytes than header plus declared length are present; otherwise
/// the populated message.
pub open spec fn decode_model(b: Seq<u8>) -> Option<MsgView> {
    if b.len() < COMMS_HEADER_LEN {
        None
    } else {
        let len = le16_at(b, 7);
        if len > COMMS_MAX_PAYLOAD {
            None
        } else if b.len() < COMMS_HEADER_LEN + len {
            None
        } else {
            Some(
                MsgView {
                    command: le16_at(b, 0),
                    id: b[2],
                    fragments: le16_at(b, 3),
                    fragment: le16_at(b, 5),
                    length: len,
                    payload: b.subrange(
                        COMMS_HEADER_LEN as int,
                        COMMS_HEADER_LEN + len as int,
                    ),
                },
            )
        }
    }
}

/// Read the 16-bit little-endian value at offset `i`.
fn le16_read(b: &[u8], i: usize) -> (r: u16)
    requires
        i + 2 <= b@.len(),
    ensures
        r == le16_at(b@, i as int),
{
    (b[i] as u16) | ((b[i + 1] as u16) << 8)
}

/// Parse a message from a byte buffer. Fails exactly when the buffer is
/// shorter than the header, the declared length exceeds the maximum, or the
/// buffer is shorter than header plus declared length; never panics on
/// malformed input.
pub fn decode(bytes: &[u8]) -> (r: Option<Message>)
    ensures
        r is Some <==> decode_model(bytes@) is Some,
        r matches Some(m) ==> Some(m@) == decode_model(bytes@) && m.wf(),
{
    if bytes.len() < COMMS_HEADER_LEN {
        return None;
    }
    let cmd = le16_read(bytes, 0);
    let id = bytes[2];
    let frags = le16_read(bytes, 3);
    let frag = le16_read(bytes, 5);
    let len16 = le16_read(bytes, 7);
    let len = len16 as usize;
    if len > COMMS_MAX_PAYLOAD {
        return None;
    }
    if bytes.len() < COMMS_HEADER_LEN + len {
        return None;
    }
    let mut payload: Vec<u8> = Vec::new();
    let mut i: usize = 0;
    while i < len
        invariant
            i <= len,
            len <= COMMS_MAX_PAYLOAD,
            COMMS_HEADER_LEN + len <= bytes@.len(),
            payload@ == bytes@.subrange(COMMS_HEADER_LEN as int, COMMS_HEADER_LEN + i),
        decreases len - i,
    {
        let b = bytes[COMMS_HEADER_LEN + i];
        payload.push(b);
        proof {
            assert(bytes@.subrange(COMMS_HEADER_LEN as int, COMMS_HEADER_LEN + i + 1)
                =~= bytes@.subrange(COMMS_HEADER_LEN as int, COMMS_HEADER_LEN + i).push(
                bytes@[COMMS_HEADER_LEN + i],
            ));
        }
        i += 1;
    }
    Some(
        Message {
            command: cmd,
            id,
            fragments: frags,
            fragment: frag,
            length: len16,
            payload,
        },
    )
}

/// The transmit path's pure half: serialize a message and wrap it in an
/// HDLC frame. The caller performs the blocking write-all-then-flush on its
/// byte sink; no retries happen here.
pub fn frame_message(msg: &Message) -> (out: Vec<u8>)
    requires
        msg.wf(),
    ensures
        out@ == hdlc::frame_bytes(message_bytes(msg@)),
{
    let encoded = encode(msg);
    let mut out: Vec<u8> = Vec::new();
    hdlc::hdlc_frame(encoded.as_slice(), &mut out);
    out
}

// ---------------------------------------------------------------------------
// Laws of the codec.
// ---------------------------------------------------------------------------

/// Decoding a serialized well-formed message gives back exactly that
/// message, even when further bytes follow it.
pub proof fn lemma_codec_round_trip(m: MsgView, rest: Seq<u8>)
    requires
        m.wf(),
    ensures
        decode_model(message_bytes(m) + rest) == Some(m),
{
    let b = message_bytes(m) + rest;
    assert(b.len() == COMMS_HEADER_LEN + m.payload.len() + rest.len());
    hdlc::lemma_le16_round_trip(m.command);
    hdlc::lemma_le16_round_trip(m.fragments);
    hdlc::lemma_le16_round_trip(m.fragment);
    hdlc::lemma_le16_round_trip(m.length);
    assert(b[0] == (m.command & 0x00FF) as u8 && b[1] == (m.command >> 8) as u8);
    assert(b[2] == m.id);
    assert(b[3] == (m.fragments & 0x00FF) as u8 && b[4] == (m.fragments >> 8) as u8);
    assert(b[5] == (m.fragment & 0x00FF) as u8 && b[6] == (m.fragment >> 8) as u8);
    assert(b[7] == (m.length & 0x00FF) as u8 && b[8] == (m.length >> 8) as u8);
    assert(le16_at(b, 7) == m.length);
    assert(b.subrange(COMMS_HEADER_LEN as int, COMMS_HEADER_LEN + m.length as int) =~= m.payload);
    let d = decode_model(b);
    assert(d matches Some(v) && v.payload == m.payload && v.command == m.command && v.id == m.id
        && v.fragments == m.fragments && v.fragment == m.fragment && v.length == m.length);
}

} // verus!
