//! The wire codec: datagrams to typed messages and back.
//!
//! A datagram is a slash-delimited ASCII frame:
//!
//! ```text
//! /connect/SESSION/
//! /close/SESSION/
//! /ack/SESSION/POSITION/
//! /data/SESSION/POSITION/DATA/
//! ```
//!
//! `SESSION` and `POSITION` are decimal numerals that fit in 32 bits. `DATA`
//! is the payload with every backslash and slash preceded by a backslash; it
//! may not be empty.
use crate::decimal::{
    decimal_digits, is_digit, lemma_digits_denote, parse_decimal, parse_decimal_range,
    push_decimal,
};
use vstd::prelude::*;

verus! {

/// The byte that delimits the fields of a frame.
pub const SLASH: u8 = 0x2f;

/// The byte that introduces an escaped byte in a payload.
pub const BACKSLASH: u8 = 0x5c;

/// The wire form of one payload byte.
pub open spec fn escape_byte(b: u8) -> Seq<u8> {
    if b == SLASH || b == BACKSLASH {
        seq![BACKSLASH, b]
    } else {
        seq![b]
    }
}

/// The wire form of a payload: each slash and backslash gets a backslash in
/// front of it, every other byte stands for itself.
pub open spec fn escape(data: Seq<u8>) -> Seq<u8>
    decreases data.len(),
{
    if data.len() == 0 {
        Seq::empty()
    } else {
        escape_byte(data[0]) + escape(data.skip(1))
    }
}

/// Puts `head` in front of a payload that may be missing.
pub open spec fn join(head: Seq<u8>, tail: Option<Seq<u8>>) -> Option<Seq<u8>> {
    match tail {
        Some(t) => Some(head + t),
        None => None,
    }
}

/// The payload that the wire form `wire` stands for, if it is one: a
/// backslash must be followed by a slash or a backslash, and a slash cannot
/// stand alone.
pub open spec fn unescape(wire: Seq<u8>) -> Option<Seq<u8>>
    decreases wire.len(),
{
    if wire.len() == 0 {
        Some(Seq::empty())
    } else if wire[0] == BACKSLASH {
        if wire.len() >= 2 && (wire[1] == SLASH || wire[1] == BACKSLASH) {
            join(seq![wire[1]], unescape(wire.skip(2)))
        } else {
            None
        }
    } else if wire[0] == SLASH {
        None
    } else {
        join(seq![wire[0]], unescape(wire.skip(1)))
    }
}

/// Unescaping undoes escaping, for every payload.
pub proof fn lemma_unescape_escape(data: Seq<u8>)
    ensures
        unescape(escape(data)) == Some(data),
    decreases data.len(),
{
    if data.len() == 0 {
    } else {
        let rest = data.skip(1);
        lemma_unescape_escape(rest);
        let wire = escape(data);
        if data[0] == SLASH || data[0] == BACKSLASH {
            assert(wire.skip(2) =~= escape(rest));
        } else {
            assert(wire.skip(1) =~= escape(rest));
        }
        assert(seq![data[0]] + rest =~= data);
    }
}

/// Escaping undoes unescaping: a payload has one wire form only.
pub proof fn lemma_escape_unescape(wire: Seq<u8>)
    requires
        unescape(wire) is Some,
    ensures
        escape(unescape(wire).unwrap()) == wire,
    decreases wire.len(),
{
    if wire.len() == 0 {
    } else if wire[0] == BACKSLASH {
        let rest = wire.skip(2);
        lemma_escape_unescape(rest);
        let data = unescape(wire).unwrap();
        assert(data.skip(1) =~= unescape(rest).unwrap());
        assert(escape(data) =~= wire);
    } else {
        let rest = wire.skip(1);
        lemma_escape_unescape(rest);
        let data = unescape(wire).unwrap();
        assert(data.skip(1) =~= unescape(rest).unwrap());
        assert(escape(data) =~= wire);
    }
}

/// The wire form is at least as long as the payload, and at most twice as
/// long.
pub proof fn lemma_escape_len(data: Seq<u8>)
    ensures
        data.len() <= escape(data).len() <= 2 * data.len(),
    decreases data.len(),
{
    if data.len() > 0 {
        lemma_escape_len(data.skip(1));
    }
}

/// Appends the wire form of `data` to `out`.
pub fn push_escaped(out: &mut Vec<u8>, data: &[u8])
    ensures
        final(out)@ == old(out)@ + escape(data@),
{
    let mut i: usize = 0;
    proof {
        assert(data@.skip(0) =~= data@);
    }
    while i < data.len()
        invariant
            i <= data@.len(),
            out@ + escape(data@.skip(i as int)) == old(out)@ + escape(data@),
        decreases data@.len() - i,
    {
        let b = data[i];
        let ghost before = out@;
        if b == SLASH || b == BACKSLASH {
            out.push(BACKSLASH);
        }
        out.push(b);
        proof {
            let rest = data@.skip(i as int);
            assert(rest[0] == b);
            assert(rest.skip(1) =~= data@.skip(i + 1));
            assert(out@ =~= before + escape_byte(b));
            assert(out@ + escape(data@.skip(i + 1)) =~= before + escape(rest));
        }
        i = i + 1;
    }
    proof {
        assert(data@.skip(i as int) =~= Seq::<u8>::empty());
        assert(out@ + Seq::<u8>::empty() =~= out@);
    }
}

/// Reads the wire form `bytes[start..end]` back into the payload that it
/// stands for.
pub fn unescape_range(bytes: &[u8], start: usize, end: usize) -> (r: Option<Vec<u8>>)
    requires
        start <= end <= bytes@.len(),
    ensures
        match r {
            Some(data) => unescape(bytes@.subrange(start as int, end as int)) == Some(data@),
            None => unescape(bytes@.subrange(start as int, end as int)) is None,
        },
{
    let ghost wire = bytes@.subrange(start as int, end as int);
    let mut out: Vec<u8> = Vec::new();
    let mut i: usize = start;
    proof {
        assert(wire.skip(0) =~= wire);
        assert(Seq::<u8>::empty() + unescape(wire).unwrap() =~= unescape(wire).unwrap());
    }
    while i < end
        invariant
            start <= i <= end <= bytes@.len(),
            wire == bytes@.subrange(start as int, end as int),
            unescape(wire) == join(out@, unescape(wire.skip(i - start))),
        decreases end - i,
    {
        let b = bytes[i];
        let ghost rest = wire.skip(i - start);
        let ghost before = out@;
        assert(rest[0] == b);
        if b == BACKSLASH {
            if i + 1 < end && (bytes[i + 1] == SLASH || bytes[i + 1] == BACKSLASH) {
                let c = bytes[i + 1];
                assert(rest[1] == c);
                out.push(c);
                proof {
                    assert(rest.skip(2) =~= wire.skip(i + 2 - start));
                    let tail = unescape(rest.skip(2));
                    if tail is Some {
                        assert(before + (seq![c] + tail.unwrap()) =~= out@ + tail.unwrap());
                    }
                }
                i = i + 2;
            } else {
                proof {
                    if i + 1 < end {
                        assert(rest[1] == bytes[i + 1]);
                    }
                }
                return None;
            }
        } else if b == SLASH {
            return None;
        } else {
            out.push(b);
            proof {
                assert(rest.skip(1) =~= wire.skip(i + 1 - start));
                let tail = unescape(rest.skip(1));
                if tail is Some {
                    assert(before + (seq![b] + tail.unwrap()) =~= out@ + tail.unwrap());
                }
            }
            i = i + 1;
        }
    }
    proof {
        assert(wire.skip(i - start) =~= Seq::<u8>::empty());
        assert(out@ + Seq::<u8>::empty() =~= out@);
    }
    Some(out)
}

/// The identifier that a peer gives to a session.
#[derive(Debug, Clone, Copy, PartialEq, Eq, PartialOrd, Ord, Structural)]
pub struct SessionId(pub u32);

/// What a message says, apart from the session it belongs to.
#[derive(Debug, Clone, PartialEq)]
pub enum Payload {
    /// Opens the session.
    Connect,
    /// Ends the session.
    Close,
    /// The sender holds the first `position` bytes of the other side's
    /// stream.
    Ack { position: u32 },
    /// A piece of the sender's stream: `data[0]` is byte number `position`
    /// of that stream.
    Data { data: Vec<u8>, position: u32 },
}

/// One decoded datagram.
#[derive(Debug, Clone)]
pub struct Message {
    pub session: SessionId,
    pub payload: Payload,
}

/// Why a datagram is not a message.
#[derive(Debug, Clone, Copy, PartialEq, Eq, Structural)]
pub enum ParseError {
    /// The first or the last byte is not a slash, or the frame has too few
    /// or too many fields for its kind.
    Framing,
    /// The first field names no kind of message.
    Kind,
    /// A numeric field is empty, holds a byte that is no digit, or does not
    /// fit in 32 bits.
    Number,
    /// The payload of a data message is empty, or holds a slash or a
    /// backslash that is not escaped.
    Data,
}

/// The mathematical value of a [`Payload`].
pub enum PayloadView {
    Connect,
    Close,
    Ack { position: u32 },
    Data { data: Seq<u8>, position: u32 },
}

/// The mathematical value of a [`Message`].
pub struct MessageView {
    pub session: u32,
    pub payload: PayloadView,
}

impl View for Payload {
    type V = PayloadView;

    open spec fn view(&self) -> PayloadView {
        match *self {
            Payload::Connect => PayloadView::Connect,
            Payload::Close => PayloadView::Close,
            Payload::Ack { position } => PayloadView::Ack { position },
            Payload::Data { data, position } => PayloadView::Data { data: data@, position },
        }
    }
}

impl View for Message {
    type V = MessageView;

    open spec fn view(&self) -> MessageView {
        MessageView { session: self.session.0, payload: self.payload@ }
    }
}

/// The field that marks a connect message: `connect`.
pub open spec fn connect_tag() -> Seq<u8> {
    seq![0x63u8, 0x6f, 0x6e, 0x6e, 0x65, 0x63, 0x74]
}

/// The field that marks a close message: `close`.
pub open spec fn close_tag() -> Seq<u8> {
    seq![0x63u8, 0x6c, 0x6f, 0x73, 0x65]
}

/// The field that marks an acknowledgment: `ack`.
pub open spec fn ack_tag() -> Seq<u8> {
    seq![0x61u8, 0x63, 0x6b]
}

/// The field that marks a data message: `data`.
pub open spec fn data_tag() -> Seq<u8> {
    seq![0x64u8, 0x61, 0x74, 0x61]
}

/// The start of every frame: `/TAG/SESSION/`.
pub open spec fn frame_head(tag: Seq<u8>, session: u32) -> Seq<u8> {
    seq![SLASH] + tag + seq![SLASH] + decimal_digits(session as nat) + seq![SLASH]
}

/// The datagram that carries the message `m`.
pub open spec fn encode(m: MessageView) -> Seq<u8> {
    match m.payload {
        PayloadView::Connect => frame_head(connect_tag(), m.session),
        PayloadView::Close => frame_head(close_tag(), m.session),
        PayloadView::Ack { position } => frame_head(ack_tag(), m.session) + decimal_digits(
            position as nat,
        ) + seq![SLASH],
        PayloadView::Data { data, position } => frame_head(data_tag(), m.session) + decimal_digits(
            position as nat,
        ) + seq![SLASH] + escape(data) + seq![SLASH],
    }
}

/// The index of the first slash of `s` at or after `from`, or the length of
/// `s` if there is none.
pub open spec fn find_slash(s: Seq<u8>, from: int) -> int
    decreases s.len() - from,
{
    if from >= s.len() {
        s.len() as int
    } else if s[from] == SLASH {
        from
    } else {
        find_slash(s, from + 1)
    }
}

/// A 32-bit numeric field.
pub open spec fn decode_number(field: Seq<u8>) -> Option<u32> {
    match parse_decimal(field, u32::MAX as nat) {
        Some(n) => Some(n as u32),
        None => None,
    }
}

/// The payload of a data message, from its wire form.
pub open spec fn decode_data(wire: Seq<u8>) -> Option<Seq<u8>> {
    match unescape(wire) {
        Some(data) => if data.len() > 0 {
            Some(data)
        } else {
            None
        },
        None => None,
    }
}

/// The message that the datagram `bytes` carries, or the reason why it
/// carries none. This is the grammar of the protocol: nothing but a frame
/// of one of the four shapes decodes to a message.
pub open spec fn decode(bytes: Seq<u8>) -> Result<MessageView, ParseError> {
    let last = bytes.len() - 1;
    if bytes.len() < 2 || bytes[0] != SLASH || bytes[last] != SLASH {
        Err(ParseError::Framing)
    } else {
        let a = find_slash(bytes, 1);
        let b = find_slash(bytes, a + 1);
        let c = find_slash(bytes, b + 1);
        let tag = bytes.subrange(1, a);
        let session = decode_number(bytes.subrange(a + 1, b));
        let position = decode_number(bytes.subrange(b + 1, c));
        if a == last {
            Err(ParseError::Framing)
        } else if tag == connect_tag() || tag == close_tag() {
            if b != last {
                Err(ParseError::Framing)
            } else if session is None {
                Err(ParseError::Number)
            } else if tag == connect_tag() {
                Ok(MessageView { session: session.unwrap(), payload: PayloadView::Connect })
            } else {
                Ok(MessageView { session: session.unwrap(), payload: PayloadView::Close })
            }
        } else if tag == ack_tag() {
            if b == last || c != last {
                Err(ParseError::Framing)
            } else if session is None || position is None {
                Err(ParseError::Number)
            } else {
                Ok(
                    MessageView {
                        session: session.unwrap(),
                        payload: PayloadView::Ack { position: position.unwrap() },
                    },
                )
            }
        } else if tag == data_tag() {
            let data = decode_data(bytes.subrange(c + 1, last));
            if b == last || c == last {
                Err(ParseError::Framing)
            } else if session is None || position is None {
                Err(ParseError::Number)
            } else if data is None {
                Err(ParseError::Data)
            } else {
                Ok(
                    MessageView {
                        session: session.unwrap(),
                        payload: PayloadView::Data {
                            data: data.unwrap(),
                            position: position.unwrap(),
                        },
                    },
                )
            }
        } else {
            Err(ParseError::Kind)
        }
    }
}

/// Finds the first slash of `bytes` at or after `from`.
pub fn find_slash_from(bytes: &[u8], from: usize) -> (k: usize)
    requires
        from <= bytes@.len(),
    ensures
        k == find_slash(bytes@, from as int),
        from <= k <= bytes@.len(),
        k < bytes@.len() ==> bytes@[k as int] == SLASH,
        forall|j: int| from <= j < k ==> bytes@[j] != SLASH,
{
    let mut k: usize = from;
    while k < bytes.len() && bytes[k] != SLASH
        invariant
            from <= k <= bytes@.len(),
            find_slash(bytes@, from as int) == find_slash(bytes@, k as int),
            forall|j: int| from <= j < k ==> bytes@[j] != SLASH,
        decreases bytes@.len() - k,
    {
        k = k + 1;
    }
    k
}

/// Whether `bytes[start..end]` is the byte string `tag`.
pub fn range_is(bytes: &[u8], start: usize, end: usize, tag: &[u8]) -> (r: bool)
    requires
        start <= end <= bytes@.len(),
    ensures
        r == (bytes@.subrange(start as int, end as int) == tag@),
{
    if end - start != tag.len() {
        return false;
    }
    let mut i: usize = 0;
    while i < tag.len()
        invariant
            start <= end <= bytes@.len(),
            end - start == tag@.len(),
            i <= tag@.len(),
            forall|j: int| 0 <= j < i ==> bytes@[start + j] == tag@[j],
        decreases tag@.len() - i,
    {
        if bytes[start + i] != tag[i] {
            assert(bytes@.subrange(start as int, end as int)[i as int] != tag@[i as int]);
            return false;
        }
        i = i + 1;
    }
    assert(bytes@.subrange(start as int, end as int) =~= tag@);
    true
}

/// The bytes of [`connect_tag`].
pub fn connect_kind() -> (r: [u8; 7])
    ensures
        r@ == connect_tag(),
{
    let r: [u8; 7] = [0x63, 0x6f, 0x6e, 0x6e, 0x65, 0x63, 0x74];
    assert(r@ =~= connect_tag());
    r
}

/// The bytes of [`close_tag`].
pub fn close_kind() -> (r: [u8; 5])
    ensures
        r@ == close_tag(),
{
    let r: [u8; 5] = [0x63, 0x6c, 0x6f, 0x73, 0x65];
    assert(r@ =~= close_tag());
    r
}

/// The bytes of [`ack_tag`].
pub fn ack_kind() -> (r: [u8; 3])
    ensures
        r@ == ack_tag(),
{
    let r: [u8; 3] = [0x61, 0x63, 0x6b];
    assert(r@ =~= ack_tag());
    r
}

/// The bytes of [`data_tag`].
pub fn data_kind() -> (r: [u8; 4])
    ensures
        r@ == data_tag(),
{
    let r: [u8; 4] = [0x64, 0x61, 0x74, 0x61];
    assert(r@ =~= data_tag());
    r
}

/// Reads `bytes[start..end]` as a 32-bit numeric field.
pub fn number_field(bytes: &[u8], start: usize, end: usize) -> (r: Option<u32>)
    requires
        start <= end <= bytes@.len(),
    ensures
        r == decode_number(bytes@.subrange(start as int, end as int)),
{
    match parse_decimal_range(bytes, start, end, 0xffff_ffff) {
        Some(n) => Some(n as u32),
        None => None,
    }
}

/// Decodes one datagram.
pub fn parse_message(input: &[u8]) -> (r: Result<Message, ParseError>)
    ensures
        match r {
            Ok(m) => decode(input@) == Ok::<MessageView, ParseError>(m@),
            Err(e) => decode(input@) == Err::<MessageView, ParseError>(e),
        },
{
    let n = input.len();
    if n < 2 || input[0] != SLASH || input[n - 1] != SLASH {
        return Err(ParseError::Framing);
    }
    let last = n - 1;
    let a = find_slash_from(input, 1);
    if a == last {
        return Err(ParseError::Framing);
    }
    let b = find_slash_from(input, a + 1);
    let is_connect = range_is(input, 1, a, connect_kind().as_slice());
    let is_close = range_is(input, 1, a, close_kind().as_slice());
    if is_connect || is_close {
        if b != last {
            return Err(ParseError::Framing);
        }
        return match number_field(input, a + 1, b) {
            None => Err(ParseError::Number),
            Some(id) => if is_connect {
                Ok(Message { session: SessionId(id), payload: Payload::Connect })
            } else {
                Ok(Message { session: SessionId(id), payload: Payload::Close })
            },
        };
    }
    let is_ack = range_is(input, 1, a, ack_kind().as_slice());
    let is_data = range_is(input, 1, a, data_kind().as_slice());
    if !is_ack && !is_data {
        return Err(ParseError::Kind);
    }
    if b == last {
        return Err(ParseError::Framing);
    }
    let c = find_slash_from(input, b + 1);
    if is_ack && c != last {
        return Err(ParseError::Framing);
    }
    if !is_ack && c == last {
        return Err(ParseError::Framing);
    }
    let session = number_field(input, a + 1, b);
    let position = number_field(input, b + 1, c);
    if session.is_none() || position.is_none() {
        return Err(ParseError::Number);
    }
    let id = session.unwrap();
    let position = position.unwrap();
    if is_ack {
        return Ok(Message { session: SessionId(id), payload: Payload::Ack { position } });
    }
    match unescape_range(input, c + 1, last) {
        None => Err(ParseError::Data),
        Some(data) => if data.len() == 0 {
            Err(ParseError::Data)
        } else {
            Ok(Message { session: SessionId(id), payload: Payload::Data { data, position } })
        },
    }
}

impl Message {
    /// An acknowledgment of the first `position` bytes of the peer's stream.
    pub fn new_ack(session: SessionId, position: u32) -> (m: Message)
        ensures
            m@ == (MessageView { session: session.0, payload: PayloadView::Ack { position } }),
    {
        Message { session, payload: Payload::Ack { position } }
    }

    /// The message that ends a session.
    pub fn new_close(session: SessionId) -> (m: Message)
        ensures
            m@ == (MessageView { session: session.0, payload: PayloadView::Close }),
    {
        Message { session, payload: Payload::Close }
    }

    /// A piece of the outgoing stream, starting at byte number `position`.
    pub fn new_data(session: SessionId, data: Vec<u8>, position: u32) -> (m: Message)
        ensures
            m@ == (MessageView {
                session: session.0,
                payload: PayloadView::Data { data: data@, position },
            }),
    {
        Message { session, payload: Payload::Data { data, position } }
    }

    /// Decodes one datagram: the message that it carries, or the reason why
    /// it carries none.
    pub fn parse(bytes: &[u8]) -> (r: Result<Message, ParseError>)
        ensures
            match r {
                Ok(m) => decode(bytes@) == Ok::<MessageView, ParseError>(m@),
                Err(e) => decode(bytes@) == Err::<MessageView, ParseError>(e),
            },
    {
        parse_message(bytes)
    }

    /// The session that the message belongs to.
    pub fn session_id(&self) -> (id: &SessionId)
        ensures
            *id == self.session,
    {
        &self.session
    }

    /// Encodes the message as the datagram that carries it.
    pub fn to_packet(&self) -> (out: Vec<u8>)
        ensures
            out@ == encode(self@),
    {
        let mut out: Vec<u8> = Vec::new();
        out.push(SLASH);
        match &self.payload {
            Payload::Connect => out.extend_from_slice(connect_kind().as_slice()),
            Payload::Close => out.extend_from_slice(close_kind().as_slice()),
            Payload::Ack { .. } => out.extend_from_slice(ack_kind().as_slice()),
            Payload::Data { .. } => out.extend_from_slice(data_kind().as_slice()),
        }
        out.push(SLASH);
        push_decimal(&mut out, self.session.0 as u64);
        out.push(SLASH);
        match &self.payload {
            Payload::Ack { position } => {
                push_decimal(&mut out, *position as u64);
                out.push(SLASH);
            },
            Payload::Data { data, position } => {
                push_decimal(&mut out, *position as u64);
                out.push(SLASH);
                push_escaped(&mut out, data.as_slice());
                out.push(SLASH);
            },
            _ => {},
        }
        assert(out@ =~= encode(self@));
        out
    }
}

/// Whether a message can travel: a data message has a payload.
pub open spec fn well_formed(m: MessageView) -> bool {
    m.payload matches PayloadView::Data { data, .. } ==> data.len() > 0
}

/// What decodes is a message that can travel: the grammar admits no data
/// message without payload.
pub proof fn lemma_decoded_is_well_formed(bytes: Seq<u8>)
    requires
        decode(bytes) is Ok,
    ensures
        well_formed(decode(bytes).unwrap()),
{
}

/// The field that marks the kind of `payload`.
pub open spec fn tag_of(payload: PayloadView) -> Seq<u8> {
    match payload {
        PayloadView::Connect => connect_tag(),
        PayloadView::Close => close_tag(),
        PayloadView::Ack { .. } => ack_tag(),
        PayloadView::Data { .. } => data_tag(),
    }
}

/// The first slash at or after `from` is at `k` when `k` holds a slash and
/// nothing between the two does.
pub proof fn lemma_find_slash(s: Seq<u8>, from: int, k: int)
    requires
        0 <= from <= k < s.len(),
        s[k] == SLASH,
        forall|j: int| from <= j < k ==> s[j] != SLASH,
    ensures
        find_slash(s, from) == k,
    decreases k - from,
{
    if from < k {
        lemma_find_slash(s, from + 1, k);
    }
}

/// A field between a prefix and the slash that ends it is found where it
/// stands, if it holds no slash itself.
pub proof fn lemma_field(bytes: Seq<u8>, prefix: Seq<u8>, field: Seq<u8>, suffix: Seq<u8>)
    requires
        bytes == prefix + field + seq![SLASH] + suffix,
        forall|j: int| 0 <= j < field.len() ==> field[j] != SLASH,
    ensures
        find_slash(bytes, prefix.len() as int) == prefix.len() + field.len(),
        bytes.subrange(prefix.len() as int, (prefix.len() + field.len()) as int) == field,
        bytes.len() == prefix.len() + field.len() + 1 + suffix.len(),
        bytes.subrange((prefix.len() + field.len() + 1) as int, bytes.len() as int) == suffix,
        bytes.take((prefix.len() + field.len() + 1) as int) == prefix + field + seq![SLASH],
{
    let from = prefix.len() as int;
    let k = from + field.len();
    assert(bytes[k] == SLASH);
    assert forall|j: int| from <= j < k implies bytes[j] != SLASH by {
        assert(bytes[j] == field[j - from]);
    }
    lemma_find_slash(bytes, from, k);
    assert(bytes.subrange(from, k) =~= field);
    assert(bytes.subrange(k + 1, bytes.len() as int) =~= suffix);
    assert(bytes.take(k + 1) =~= prefix + field + seq![SLASH]);
}

/// The canonical digit string of a number holds no slash.
pub proof fn lemma_digits_hold_no_slash(n: nat)
    ensures
        forall|j: int| 0 <= j < decimal_digits(n).len() ==> decimal_digits(n)[j] != SLASH,
{
    lemma_digits_denote(n);
    assert forall|j: int| 0 <= j < decimal_digits(n).len() implies decimal_digits(n)[j]
        != SLASH by {
        assert(is_digit(decimal_digits(n)[j]));
    }
}

/// What [`decode`] finds at the head of a frame: the kind between the
/// first two slashes, the digits of the session after it.
pub proof fn lemma_head(bytes: Seq<u8>, tag: Seq<u8>, session: u32, rest: Seq<u8>)
    requires
        bytes == frame_head(tag, session) + rest,
        forall|j: int| 0 <= j < tag.len() ==> tag[j] != SLASH,
    ensures
        bytes.len() == frame_head(tag, session).len() + rest.len(),
        frame_head(tag, session).len() == tag.len() + decimal_digits(session as nat).len() + 3,
        bytes[0] == SLASH,
        find_slash(bytes, 1) == 1 + tag.len(),
        find_slash(bytes, 2 + tag.len() as int) == 2 + tag.len() + decimal_digits(session as nat).len(),
        bytes.subrange(1, 1 + tag.len() as int) == tag,
        decode_number(
            bytes.subrange(
                2 + tag.len() as int,
                2 + tag.len() as int + decimal_digits(session as nat).len() as int,
            ),
        ) == Some(session),
        bytes.subrange(frame_head(tag, session).len() as int, bytes.len() as int) == rest,
        bytes[frame_head(tag, session).len() - 1] == SLASH,
{
    let slash = seq![SLASH];
    let sd = decimal_digits(session as nat);
    lemma_digits_denote(session as nat);
    lemma_digits_hold_no_slash(session as nat);
    assert(bytes =~= slash + tag + slash + (sd + slash + rest));
    lemma_field(bytes, slash, tag, sd + slash + rest);
    assert(bytes =~= (slash + tag + slash) + sd + slash + rest);
    lemma_field(bytes, slash + tag + slash, sd, rest);
    assert(decode_number(sd) == Some(session));
}

/// Round trip for the two kinds of message that hold a session and nothing
/// else.
pub proof fn lemma_decode_bare(session: u32, connect: bool)
    ensures
        connect ==> decode(frame_head(connect_tag(), session)) == Ok::<MessageView, ParseError>(
            MessageView { session, payload: PayloadView::Connect },
        ),
        !connect ==> decode(frame_head(close_tag(), session)) == Ok::<MessageView, ParseError>(
            MessageView { session, payload: PayloadView::Close },
        ),
{
    let tag = if connect {
        connect_tag()
    } else {
        close_tag()
    };
    let bytes = frame_head(tag, session);
    assert(bytes =~= bytes + Seq::<u8>::empty());
    lemma_head(bytes, tag, session, Seq::<u8>::empty());
    assert(connect_tag().len() != close_tag().len());
}

/// Round trip for acknowledgments.
pub proof fn lemma_decode_ack(session: u32, position: u32)
    ensures
        decode(
            encode(MessageView { session, payload: PayloadView::Ack { position } }),
        ) == Ok::<MessageView, ParseError>(
            MessageView { session, payload: PayloadView::Ack { position } },
        ),
{
    let tag = ack_tag();
    let bytes = encode(MessageView { session, payload: PayloadView::Ack { position } });
    let head = frame_head(tag, session);
    let pd = decimal_digits(position as nat);
    let slash = seq![SLASH];
    lemma_digits_denote(position as nat);
    lemma_digits_hold_no_slash(position as nat);
    assert(bytes =~= head + (pd + slash));
    lemma_head(bytes, tag, session, pd + slash);
    assert(bytes =~= head + pd + slash + Seq::<u8>::empty());
    lemma_field(bytes, head, pd, Seq::<u8>::empty());
    assert(decode_number(pd) == Some(position));
    assert(ack_tag().len() != connect_tag().len());
    assert(ack_tag().len() != close_tag().len());
}

/// Round trip for data messages with a payload.
pub proof fn lemma_decode_data(session: u32, position: u32, data: Seq<u8>)
    requires
        data.len() > 0,
    ensures
        decode(
            encode(MessageView { session, payload: PayloadView::Data { data, position } }),
        ) == Ok::<MessageView, ParseError>(
            MessageView { session, payload: PayloadView::Data { data, position } },
        ),
{
    let tag = data_tag();
    let bytes = encode(MessageView { session, payload: PayloadView::Data { data, position } });
    let head = frame_head(tag, session);
    let pd = decimal_digits(position as nat);
    let slash = seq![SLASH];
    let wire = escape(data);
    lemma_digits_denote(position as nat);
    lemma_digits_hold_no_slash(position as nat);
    lemma_unescape_escape(data);
    assert(bytes =~= head + (pd + slash + wire + slash));
    lemma_head(bytes, tag, session, pd + slash + wire + slash);
    assert(bytes =~= head + pd + slash + (wire + slash));
    lemma_field(bytes, head, pd, wire + slash);
    assert(decode_number(pd) == Some(position));
    let c = head.len() as int + pd.len() as int;
    assert(bytes.subrange(c + 1, bytes.len() as int) == wire + slash);
    assert(bytes.subrange(c + 1, bytes.len() - 1) =~= wire);
    assert(decode_data(wire) == Some(data));
    assert(data_tag().len() != connect_tag().len());
    assert(data_tag().len() != close_tag().len());
    assert(data_tag().len() != ack_tag().len());
}

/// Round trip: every message that can travel is what its own datagram
/// decodes to. Only a data message without payload is left out: its
/// datagram has an empty data field, which the grammar rejects.
pub proof fn lemma_decode_encode(m: MessageView)
    requires
        well_formed(m),
    ensures
        decode(encode(m)) == Ok::<MessageView, ParseError>(m),
{
    match m.payload {
        PayloadView::Connect => {
            lemma_decode_bare(m.session, true);
        },
        PayloadView::Close => {
            lemma_decode_bare(m.session, false);
        },
        PayloadView::Ack { position } => {
            lemma_decode_ack(m.session, position);
        },
        PayloadView::Data { data, position } => {
            lemma_decode_data(m.session, position, data);
        },
    }
}

} // verus!
