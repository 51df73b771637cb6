//! Packets: messages with the numbers of the protocol.
//!
//! A [`Packet`] is a message of the grammar of [`super::message`] whose
//! numbers are held as the protocol limits them, below 2^31. On the wire
//! the payload of a data packet is escaped; in a packet it stands as it is.
use super::message::{
    ack_tag, close_tag, connect_tag, data_tag,
    decode, encode, escape, lemma_decode_encode, parse_message, push_escaped, MessageView,
    ParseError, Payload as MessagePayload, PayloadView as MessagePayloadView, SLASH,
};
use crate::decimal::{decimal_digits, parse_decimal, parse_decimal_range, push_decimal};
use vstd::prelude::*;

verus! {

/// The byte that stands before the digits of a negative number.
pub const MINUS: u8 = 0x2d;

/// The bytes of the kind `connect`.
pub const CONNECT: [u8; 7] = [0x63, 0x6f, 0x6e, 0x6e, 0x65, 0x63, 0x74];

/// The bytes of the kind `data`.
pub const DATA: [u8; 4] = [0x64, 0x61, 0x74, 0x61];

/// The bytes of the kind `ack`.
pub const ACK: [u8; 3] = [0x61, 0x63, 0x6b];

/// The bytes of the kind `close`.
pub const CLOSE: [u8; 5] = [0x63, 0x6c, 0x6f, 0x73, 0x65];

/// The identifier that a peer gives to a session.
#[derive(Debug, PartialEq, Clone, Ord, PartialOrd, Eq)]
pub struct SessionId(pub i32);

/// The data portion of a packet: the payload itself, without escapes.
#[derive(Debug, PartialEq, Clone)]
pub struct Data(pub Vec<u8>);

/// What a packet says, apart from the session it belongs to.
#[derive(Debug, PartialEq, Clone)]
pub enum Payload {
    Connect,
    Data { data: Data, pos: i32 },
    Ack { pos: i32 },
    Close,
}

/// One frame.
#[derive(Debug, PartialEq, Clone)]
pub struct Packet {
    pub session_id: SessionId,
    pub payload: Payload,
}

/// The mathematical value of a [`Payload`].
pub enum PayloadView {
    Connect,
    Data { data: Seq<u8>, pos: i32 },
    Ack { pos: i32 },
    Close,
}

/// The mathematical value of a [`Packet`].
pub struct PacketView {
    pub session_id: i32,
    pub payload: PayloadView,
}

impl View for Data {
    type V = Seq<u8>;

    open spec fn view(&self) -> Seq<u8> {
        self.0@
    }
}

impl View for Payload {
    type V = PayloadView;

    open spec fn view(&self) -> PayloadView {
        match *self {
            Payload::Connect => PayloadView::Connect,
            Payload::Data { data, pos } => PayloadView::Data { data: data@, pos },
            Payload::Ack { pos } => PayloadView::Ack { pos },
            Payload::Close => PayloadView::Close,
        }
    }
}

impl View for Packet {
    type V = PacketView;

    open spec fn view(&self) -> PacketView {
        PacketView { session_id: self.session_id.0, payload: self.payload@ }
    }
}

/// The digits of a number, after a minus sign if it is negative.
pub open spec fn signed_digits(n: int) -> Seq<u8> {
    if n < 0 {
        seq![MINUS] + decimal_digits((-n) as nat)
    } else {
        decimal_digits(n as nat)
    }
}

/// The field that marks the kind of `payload`.
pub open spec fn kind_of(payload: PayloadView) -> Seq<u8> {
    match payload {
        PayloadView::Connect => connect_tag(),
        PayloadView::Data { .. } => data_tag(),
        PayloadView::Ack { .. } => ack_tag(),
        PayloadView::Close => close_tag(),
    }
}

/// The bytes of the packet `p`: its fields between slashes, the numbers in
/// decimal digits and the data portion escaped.
pub open spec fn packet_bytes(p: PacketView) -> Seq<u8> {
    let head = seq![SLASH] + kind_of(p.payload) + seq![SLASH] + signed_digits(p.session_id as int);
    match p.payload {
        PayloadView::Data { data, pos } => head + seq![SLASH] + signed_digits(pos as int)
            + seq![SLASH] + escape(data) + seq![SLASH],
        PayloadView::Ack { pos } => head + seq![SLASH] + signed_digits(pos as int) + seq![SLASH],
        _ => head + seq![SLASH],
    }
}

/// The packet that the datagram `bytes` is: the message that it carries,
/// with numbers that stay below 2^31; or the reason why it is none.
pub open spec fn decode_packet(bytes: Seq<u8>) -> Result<PacketView, ParseError> {
    match decode(bytes) {
        Err(e) => Err(e),
        Ok(m) => if m.session > i32::MAX {
            Err(ParseError::Number)
        } else {
            match m.payload {
                MessagePayloadView::Connect => Ok(
                    PacketView { session_id: m.session as i32, payload: PayloadView::Connect },
                ),
                MessagePayloadView::Close => Ok(
                    PacketView { session_id: m.session as i32, payload: PayloadView::Close },
                ),
                MessagePayloadView::Ack { position } => if position > i32::MAX {
                    Err(ParseError::Number)
                } else {
                    Ok(
                        PacketView {
                            session_id: m.session as i32,
                            payload: PayloadView::Ack { pos: position as i32 },
                        },
                    )
                },
                MessagePayloadView::Data { data, position } => if position > i32::MAX {
                    Err(ParseError::Number)
                } else {
                    Ok(
                        PacketView {
                            session_id: m.session as i32,
                            payload: PayloadView::Data { data, pos: position as i32 },
                        },
                    )
                },
            }
        },
    }
}

/// Whether a packet can travel: no number is negative, and the data
/// portion is not empty.
pub open spec fn packet_well_formed(p: PacketView) -> bool {
    &&& p.session_id >= 0
    &&& match p.payload {
        PayloadView::Data { data, pos } => pos >= 0 && data.len() > 0,
        PayloadView::Ack { pos } => pos >= 0,
        _ => true,
    }
}

/// Appends the digits of `n` to `out`, after a minus sign if `n` is
/// negative.
pub fn push_signed(out: &mut Vec<u8>, n: i32)
    ensures
        final(out)@ == old(out)@ + signed_digits(n as int),
{
    if n < 0 {
        out.push(MINUS);
        let magnitude: u64 = (-(n as i64)) as u64;
        push_decimal(out, magnitude);
        assert(final(out)@ =~= old(out)@ + signed_digits(n as int));
    } else {
        push_decimal(out, n as u64);
    }
}

impl SessionId {
    /// The identifier in decimal digits.
    pub fn to_string(&self) -> (text: String)
        ensures
            text@ == signed_digits(self.0 as int).map_values(|b: u8| b as char),
    {
        let mut digits: Vec<u8> = Vec::new();
        push_signed(&mut digits, self.0);
        let mut text = String::new();
        let mut i: usize = 0;
        while i < digits.len()
            invariant
                i <= digits@.len(),
                digits@ == signed_digits(self.0 as int),
                text@ == digits@.take(i as int).map_values(|b: u8| b as char),
            decreases digits@.len() - i,
        {
            text.push(digits[i] as char);
            i = i + 1;
            assert(text@ =~= digits@.take(i as int).map_values(|b: u8| b as char));
        }
        assert(digits@.take(i as int) =~= digits@);
        text
    }
}

impl TryFrom<&[u8]> for SessionId {
    type Error = ParseError;

    /// Reads a session field: decimal digits that denote a number below
    /// 2^31.
    fn try_from(bytes: &[u8]) -> (r: Result<SessionId, ParseError>)
        ensures
            r == match parse_decimal(bytes@, i32::MAX as nat) {
                Some(n) => Ok::<SessionId, ParseError>(SessionId(n as i32)),
                None => Err::<SessionId, ParseError>(ParseError::Number),
            },
    {
        assert(bytes@.subrange(0, bytes@.len() as int) =~= bytes@);
        match parse_decimal_range(bytes, 0, bytes.len(), 0x7fff_ffff) {
            Some(n) => Ok(SessionId(n as i32)),
            None => Err(ParseError::Number),
        }
    }
}

impl vstd::std_specs::convert::TryFromSpecImpl<&[u8]> for SessionId {
    open spec fn obeys_try_from_spec() -> bool {
        true
    }

    open spec fn try_from_spec(bytes: &[u8]) -> Result<SessionId, ParseError> {
        match parse_decimal(bytes@, i32::MAX as nat) {
            Some(n) => Ok(SessionId(n as i32)),
            None => Err(ParseError::Number),
        }
    }
}

impl TryFrom<&[u8]> for Data {
    type Error = ParseError;

    /// Takes the bytes as the payload of a data packet. This never fails.
    fn try_from(bytes: &[u8]) -> (r: Result<Data, ParseError>)
        ensures
            r is Ok,
            r.unwrap()@ == bytes@,
    {
        Ok(Data(vstd::slice::slice_to_vec(bytes)))
    }
}

impl vstd::std_specs::convert::TryFromSpecImpl<&[u8]> for Data {
    open spec fn obeys_try_from_spec() -> bool {
        false
    }

    open spec fn try_from_spec(bytes: &[u8]) -> Result<Data, ParseError> {
        arbitrary()
    }
}

impl Data {
    /// The bytes of the data portion.
    pub fn as_ref(&self) -> (bytes: &[u8])
        ensures
            bytes@ == self@,
    {
        self.0.as_slice()
    }

    /// The bytes of the data portion, to be changed in place.
    pub fn as_mut(&mut self) -> (bytes: &mut [u8])
        ensures
            bytes@ == old(self)@,
            final(self)@ == final(bytes)@,
    {
        self.0.as_mut_slice()
    }
}

impl Payload {
    /// The field that marks the kind of the payload.
    pub fn to_kind_bytes(&self) -> (kind: &[u8])
        ensures
            kind@ == kind_of(self@),
    {
        match self {
            Payload::Connect => {
                let kind: &'static [u8; 7] = &CONNECT;
                assert(kind@ =~= connect_tag());
                kind.as_slice()
            },
            Payload::Data { .. } => {
                let kind: &'static [u8; 4] = &DATA;
                assert(kind@ =~= data_tag());
                kind.as_slice()
            },
            Payload::Ack { .. } => {
                let kind: &'static [u8; 3] = &ACK;
                assert(kind@ =~= ack_tag());
                kind.as_slice()
            },
            Payload::Close => {
                let kind: &'static [u8; 5] = &CLOSE;
                assert(kind@ =~= close_tag());
                kind.as_slice()
            },
        }
    }
}

impl Packet {
    /// Writes the packet as a datagram.
    pub fn to_bytes(&self) -> (bytes: Vec<u8>)
        ensures
            bytes@ == packet_bytes(self@),
    {
        let mut bytes: Vec<u8> = Vec::new();
        bytes.push(SLASH);
        bytes.extend_from_slice(self.payload.to_kind_bytes());
        bytes.push(SLASH);
        push_signed(&mut bytes, self.session_id.0);
        match &self.payload {
            Payload::Data { data, pos } => {
                bytes.push(SLASH);
                push_signed(&mut bytes, *pos);
                bytes.push(SLASH);
                push_escaped(&mut bytes, data.as_ref());
            },
            Payload::Ack { pos } => {
                bytes.push(SLASH);
                push_signed(&mut bytes, *pos);
            },
            _ => {},
        }
        bytes.push(SLASH);
        assert(bytes@ =~= packet_bytes(self@));
        bytes
    }
}

impl TryFrom<&[u8]> for Packet {
    type Error = ParseError;

    /// Reads a datagram as a packet: see [`decode_packet`].
    fn try_from(bytes: &[u8]) -> (r: Result<Packet, ParseError>)
        ensures
            match r {
                Ok(p) => decode_packet(bytes@) == Ok::<PacketView, ParseError>(p@),
                Err(e) => decode_packet(bytes@) == Err::<PacketView, ParseError>(e),
            },
    {
        let message = match parse_message(bytes) {
            Ok(message) => message,
            Err(e) => {
                return Err(e);
            },
        };
        if message.session.0 > 0x7fff_ffff {
            return Err(ParseError::Number);
        }
        let session_id = SessionId(message.session.0 as i32);
        match message.payload {
            MessagePayload::Connect => Ok(Packet { session_id, payload: Payload::Connect }),
            MessagePayload::Close => Ok(Packet { session_id, payload: Payload::Close }),
            MessagePayload::Ack { position } => {
                if position > 0x7fff_ffff {
                    Err(ParseError::Number)
                } else {
                    Ok(Packet { session_id, payload: Payload::Ack { pos: position as i32 } })
                }
            },
            MessagePayload::Data { data, position } => {
                if position > 0x7fff_ffff {
                    Err(ParseError::Number)
                } else {
                    Ok(
                        Packet {
                            session_id,
                            payload: Payload::Data { data: Data(data), pos: position as i32 },
                        },
                    )
                }
            },
        }
    }
}

impl vstd::std_specs::convert::TryFromSpecImpl<&[u8]> for Packet {
    open spec fn obeys_try_from_spec() -> bool {
        false
    }

    open spec fn try_from_spec(bytes: &[u8]) -> Result<Packet, ParseError> {
        arbitrary()
    }
}

/// The message that a well-formed packet carries.
pub open spec fn message_of(p: PacketView) -> MessageView {
    MessageView {
        session: p.session_id as u32,
        payload: match p.payload {
            PayloadView::Connect => MessagePayloadView::Connect,
            PayloadView::Close => MessagePayloadView::Close,
            PayloadView::Ack { pos } => MessagePayloadView::Ack { position: pos as u32 },
            PayloadView::Data { data, pos } => MessagePayloadView::Data {
                data,
                position: pos as u32,
            },
        },
    }
}

/// A well-formed packet is written as the datagram of the message that it
/// carries.
pub proof fn lemma_packet_is_frame(p: PacketView)
    requires
        packet_well_formed(p),
    ensures
        packet_bytes(p) == encode(message_of(p)),
{
    assert(packet_bytes(p) =~= encode(message_of(p)));
}

/// Round trip: a packet with numbers that are not negative, and with data
/// if it is a data packet, is what its own bytes are read as.
pub proof fn lemma_packet_round_trip(p: PacketView)
    requires
        packet_well_formed(p),
    ensures
        decode_packet(packet_bytes(p)) == Ok::<PacketView, ParseError>(p),
{
    lemma_packet_is_frame(p);
    lemma_decode_encode(message_of(p));
}

} // verus!
