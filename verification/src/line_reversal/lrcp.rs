//! One session of the reliable stream: what it holds, and what each
//! incoming message makes of it.
use super::message::{encode, Message, MessageView, Payload, PayloadView, SessionId};
use crate::text::{lossy_text, text_of};
use vstd::prelude::*;
use vstd::slice::{slice_subrange, slice_to_vec};
use vstd::utf8::{
    encode_utf8, encode_utf8_decode_utf8, encode_utf8_valid_utf8, is_ascii_chars,
    is_ascii_chars_encode_utf8,
};

verus! {

/// The most payload bytes that one outgoing data message carries.
pub const CHUNK_SIZE: usize = 900;

/// The byte that ends a line.
pub const NEWLINE: u8 = 0x0a;

/// A line without the newline that ends it.
pub open spec fn line_content(line: Seq<char>) -> Seq<char> {
    if line.len() > 0 && line.last() == '\n' {
        line.drop_last()
    } else {
        line
    }
}

/// The answer to a line: its content backwards, and a newline.
pub open spec fn reversed_line(line: Seq<char>) -> Seq<char> {
    line_content(line).reverse().push('\n')
}

/// Reversing a line twice gives the line back, for every line that ends
/// with a newline.
pub proof fn lemma_reverse_twice(line: Seq<char>)
    requires
        line.len() > 0,
        line.last() == '\n',
    ensures
        reversed_line(reversed_line(line)) == line,
{
    let content = line.drop_last();
    let once = reversed_line(line);
    assert(once.drop_last() =~= content.reverse());
    assert(content.reverse().reverse() =~= content);
    assert(content.push('\n') =~= line);
}

/// Reverses one line of text: the newline that ends it stays at the end,
/// everything before it comes out backwards.
pub fn reverse_line(line: &str) -> (reversed: String)
    ensures
        reversed@ == reversed_line(line@),
{
    let mut chars: Vec<char> = Vec::new();
    for c in it: line.chars()
        invariant
            it.seq() == line@,
            chars@ == it.seq().take(it.index() as int),
    {
        chars.push(c);
    }
    assert(chars@ =~= line@);
    let mut n = chars.len();
    if n > 0 && chars[n - 1] == '\n' {
        n = n - 1;
    }
    let ghost content = line_content(line@);
    assert(content =~= chars@.take(n as int));
    let mut reversed = String::new();
    let mut i: usize = n;
    while i > 0
        invariant
            i <= n <= chars@.len(),
            content == chars@.take(n as int),
            reversed@ == content.reverse().take(n - i),
        decreases i,
    {
        i = i - 1;
        reversed.push(chars[i]);
        assert(reversed@ =~= content.reverse().take(n - i));
    }
    assert(content.reverse().take(n as int) =~= content.reverse());
    reversed.push('\n');
    reversed
}

/// The number of data messages that `len` payload bytes take.
pub open spec fn chunk_count(len: nat) -> nat {
    (len + 899) / 900
}

/// Piece number `i` of `bytes`: 900 bytes from offset `900 * i`, or what is
/// left of `bytes` there.
pub open spec fn chunk(bytes: Seq<u8>, i: int) -> Seq<u8> {
    bytes.subrange(
        900 * i,
        if 900 * (i + 1) <= bytes.len() {
            900 * (i + 1)
        } else {
            bytes.len() as int
        },
    )
}

/// Splits a line into the payloads of the data messages that carry it, in
/// order: each holds [`CHUNK_SIZE`] bytes, but for the last, which holds the
/// rest.
pub fn chunk_lines(line: String) -> (chunks: Vec<Vec<u8>>)
    ensures
        chunks@.len() == chunk_count(encode_utf8(line@).len()),
        forall|i: int| 0 <= i < chunks@.len() ==> chunks@[i]@ == chunk(encode_utf8(line@), i),
{
    let bytes = line.as_str().as_bytes();
    let mut chunks: Vec<Vec<u8>> = Vec::new();
    let mut offset: usize = 0;
    while offset < bytes.len()
        invariant
            bytes@ == encode_utf8(line@),
            offset <= bytes@.len(),
            offset < bytes@.len() ==> offset == 900 * chunks@.len(),
            offset == bytes@.len() ==> chunks@.len() == chunk_count(bytes@.len()),
            forall|i: int| 0 <= i < chunks@.len() ==> chunks@[i]@ == chunk(bytes@, i),
        decreases bytes@.len() - offset,
    {
        let end = if bytes.len() - offset > CHUNK_SIZE {
            offset + CHUNK_SIZE
        } else {
            bytes.len()
        };
        let piece = slice_to_vec(slice_subrange(bytes, offset, end));
        assert(piece@ == chunk(bytes@, chunks@.len() as int));
        chunks.push(piece);
        offset = end;
    }
    chunks
}

/// Where a session stands.
#[derive(Debug, Clone, Copy, PartialEq, Eq, Structural)]
pub enum Phase {
    /// No connect message has come yet.
    Pending,
    /// The stream is open.
    Connected,
    /// The session has ended, and takes no more messages.
    Closed,
}

/// One session of the reliable stream.
pub struct LrcpSession {
    id: SessionId,
    phase: Phase,
    data: Vec<u8>,
    bytes_received: u32,
    bytes_sent: u32,
    bytes_acked: u32,
}

/// The mathematical value of an [`LrcpSession`].
pub struct SessionView {
    /// The identifier of the session.
    pub id: u32,
    pub phase: Phase,
    /// The bytes that were received and belong to no complete line yet.
    pub data: Seq<u8>,
    /// How many bytes of the peer's stream were accepted, which is also the
    /// position of the next byte to accept.
    pub bytes_received: u32,
    /// How many bytes were put into data messages, which is also the
    /// position of the next outgoing byte.
    pub bytes_sent: u32,
    /// The most that the peer has acknowledged.
    pub bytes_acked: u32,
}

/// What a session asks to be done after a message.
pub struct Outcome {
    /// Messages to send once, in this order.
    pub replies: Vec<Message>,
    /// For each line that was completed, the data messages that carry its
    /// answer: each batch is to be sent, and sent again until acknowledged.
    pub batches: Vec<Vec<Message>>,
}

/// The mathematical value of an [`Outcome`].
pub struct OutcomeView {
    pub replies: Seq<MessageView>,
    pub batches: Seq<Seq<MessageView>>,
}

/// The values of a sequence of messages.
pub open spec fn views(messages: Seq<Message>) -> Seq<MessageView> {
    messages.map_values(|m: Message| m@)
}

impl View for LrcpSession {
    type V = SessionView;

    closed spec fn view(&self) -> SessionView {
        SessionView {
            id: self.id.0,
            phase: self.phase,
            data: self.data@,
            bytes_received: self.bytes_received,
            bytes_sent: self.bytes_sent,
            bytes_acked: self.bytes_acked,
        }
    }
}

impl View for Outcome {
    type V = OutcomeView;

    open spec fn view(&self) -> OutcomeView {
        OutcomeView {
            replies: views(self.replies@),
            batches: self.batches@.map_values(|b: Vec<Message>| views(b@)),
        }
    }
}

/// A session as it is made: it waits for its connect message.
pub open spec fn initial(id: u32) -> SessionView {
    SessionView {
        id,
        phase: Phase::Pending,
        data: Seq::empty(),
        bytes_received: 0,
        bytes_sent: 0,
        bytes_acked: 0,
    }
}

/// Nothing to do.
pub open spec fn nothing() -> OutcomeView {
    OutcomeView { replies: Seq::empty(), batches: Seq::empty() }
}

/// One message to send once.
pub open spec fn reply(m: MessageView) -> OutcomeView {
    OutcomeView { replies: seq![m], batches: Seq::empty() }
}

/// The acknowledgment that a session sends for `position` bytes.
pub open spec fn ack_of(s: SessionView, position: u32) -> MessageView {
    MessageView { session: s.id, payload: PayloadView::Ack { position } }
}

/// The message with which a session ends.
pub open spec fn close_of(s: SessionView) -> MessageView {
    MessageView { session: s.id, payload: PayloadView::Close }
}

/// The session ends: it says so to the peer, after what it had to say
/// before.
pub open spec fn closing(s: SessionView, out: OutcomeView) -> (SessionView, OutcomeView) {
    (
        SessionView { phase: Phase::Closed, ..s },
        OutcomeView { replies: out.replies.push(close_of(s)), ..out },
    )
}

/// The data messages that carry `bytes` as the part of the outgoing stream
/// that starts at position `start`: piece number `i` goes out with position
/// `start + 900 * i`.
pub open spec fn outbound_batch(session: u32, start: u32, bytes: Seq<u8>) -> Seq<MessageView> {
    Seq::new(
        chunk_count(bytes.len()),
        |i: int|
            MessageView {
                session,
                payload: PayloadView::Data {
                    data: chunk(bytes, i),
                    position: (start + 900 * i) as u32,
                },
            },
    )
}

/// The index of the first newline of `s`, or the length of `s` if it holds
/// none.
pub open spec fn first_newline(s: Seq<u8>) -> nat
    decreases s.len(),
{
    if s.len() == 0 {
        0
    } else if s[0] == NEWLINE {
        0
    } else {
        1 + first_newline(s.skip(1))
    }
}

/// The bytes that answer the complete line `line`: its text, reversed,
/// in UTF-8.
pub open spec fn answer(line: Seq<u8>) -> Seq<u8> {
    encode_utf8(reversed_line(text_of(line)))
}

/// Whether every byte of `bytes` is an ASCII character.
pub open spec fn is_ascii_bytes(bytes: Seq<u8>) -> bool {
    forall|i: int| 0 <= i < bytes.len() ==> #[trigger] bytes[i] < 0x80
}

/// The characters that ASCII bytes stand for, one for each.
pub open spec fn ascii_chars(bytes: Seq<u8>) -> Seq<char> {
    Seq::new(bytes.len(), |i: int| bytes[i] as char)
}

/// ASCII bytes are the UTF-8 encoding of the characters that they stand
/// for, and so their text is made of those characters.
pub proof fn lemma_ascii_text(bytes: Seq<u8>)
    requires
        is_ascii_bytes(bytes),
    ensures
        is_ascii_chars(ascii_chars(bytes)),
        encode_utf8(ascii_chars(bytes)) == bytes,
        text_of(bytes) == ascii_chars(bytes),
{
    let chars = ascii_chars(bytes);
    assert(is_ascii_chars(chars)) by {
        assert forall|i: int| 0 <= i < chars.len() implies '\0' <= #[trigger] chars[i]
            <= '\u{7f}' by {
            assert(bytes[i] < 0x80);
        }
    }
    is_ascii_chars_encode_utf8(chars);
    assert(encode_utf8(chars) =~= bytes) by {
        assert forall|i: int| 0 <= i < bytes.len() implies encode_utf8(chars)[i] == bytes[i] by {
            assert(chars[i] as u8 == encode_utf8(chars)[i]);
            assert(bytes[i] < 0x80);
        }
    }
    encode_utf8_valid_utf8(chars);
    encode_utf8_decode_utf8(chars);
}

/// The answer to a line of ASCII text is that line backwards, byte by
/// byte, with its newline at the end.
pub proof fn lemma_answer_of_ascii(line: Seq<u8>)
    requires
        is_ascii_bytes(line),
        line.len() > 0,
        line.last() == NEWLINE,
    ensures
        answer(line) == line.drop_last().reverse().push(NEWLINE),
{
    lemma_ascii_text(line);
    let wanted = line.drop_last().reverse().push(NEWLINE);
    let reversed = reversed_line(text_of(line));
    assert(wanted.len() == line.len());
    assert forall|i: int| 0 <= i < wanted.len() implies #[trigger] wanted[i] < 0x80 by {
        if i < wanted.len() - 1 {
            assert(wanted[i] == line[line.len() - 2 - i]);
        }
    }
    assert(reversed =~= ascii_chars(wanted)) by {
        assert(ascii_chars(line).last() == '\n');
    }
    lemma_ascii_text(wanted);
}

/// Takes every complete line out of the buffer, first to last, and adds
/// the batch that answers it to `out`. What follows the last newline stays
/// in the buffer. A session whose outgoing stream would pass the last
/// position that 32 bits can hold ends instead of answering.
pub open spec fn flush(s: SessionView, out: OutcomeView) -> (SessionView, OutcomeView)
    decreases s.data.len(),
{
    let k = first_newline(s.data);
    if k >= s.data.len() {
        (s, out)
    } else {
        let reversed = answer(s.data.take((k + 1) as int));
        if s.bytes_sent + reversed.len() > u32::MAX {
            closing(s, out)
        } else {
            flush(
                SessionView {
                    data: s.data.skip((k + 1) as int),
                    bytes_sent: (s.bytes_sent + reversed.len()) as u32,
                    ..s
                },
                OutcomeView {
                    batches: out.batches.push(outbound_batch(s.id, s.bytes_sent, reversed)),
                    ..out
                },
            )
        }
    }
}

/// What a connected session makes of a piece of the peer's stream.
///
/// A piece that starts after the last byte accepted leaves a gap: nothing
/// is kept, and the session says again how much it holds. Of a piece that
/// starts at or before it, what lies beyond the bytes already accepted is
/// appended and acknowledged; if that completes a line, every complete line
/// is answered. A piece that ends before the last byte accepted is passed
/// over in silence.
pub open spec fn receive(s: SessionView, position: u32, data: Seq<u8>) -> (
    SessionView,
    OutcomeView,
) {
    let skip = s.bytes_received - position;
    let fresh = data.skip(skip);
    let accepted = SessionView {
        data: s.data + fresh,
        bytes_received: (s.bytes_received + fresh.len()) as u32,
        ..s
    };
    if position > s.bytes_received {
        (s, reply(ack_of(s, s.bytes_received)))
    } else if skip > data.len() {
        (s, nothing())
    } else if s.bytes_received + fresh.len() > u32::MAX {
        closing(s, nothing())
    } else if first_newline(fresh) < fresh.len() {
        flush(accepted, reply(ack_of(s, accepted.bytes_received)))
    } else {
        (accepted, reply(ack_of(s, accepted.bytes_received)))
    }
}

/// What a session makes of one message: the session afterwards, and what
/// it asks to be done.
pub open spec fn step(s: SessionView, m: MessageView) -> (SessionView, OutcomeView) {
    match s.phase {
        Phase::Closed => (s, nothing()),
        Phase::Pending => match m.payload {
            PayloadView::Connect => (
                SessionView { phase: Phase::Connected, ..s },
                reply(ack_of(s, 0)),
            ),
            _ => closing(s, nothing()),
        },
        Phase::Connected => match m.payload {
            PayloadView::Connect => (s, reply(ack_of(s, 0))),
            PayloadView::Close => closing(s, nothing()),
            PayloadView::Ack { position } => if position > s.bytes_sent {
                closing(s, nothing())
            } else if position > s.bytes_acked {
                (SessionView { bytes_acked: position, ..s }, nothing())
            } else {
                (s, nothing())
            },
            PayloadView::Data { data, position } => receive(s, position, data),
        },
    }
}

/// What a session makes of a silence that has lasted too long: unless it
/// has ended already, it ends, and says so to the peer.
pub open spec fn timed_out(s: SessionView) -> (SessionView, OutcomeView) {
    if s.phase == Phase::Closed {
        (s, nothing())
    } else {
        closing(s, nothing())
    }
}

/// What a session makes of what happens to it: a message, or a silence
/// that has lasted too long.
pub open spec fn on_event(s: SessionView, event: Option<MessageView>) -> (
    SessionView,
    OutcomeView,
) {
    match event {
        Some(m) => step(s, m),
        None => timed_out(s),
    }
}

/// The value of a message that may be missing.
pub open spec fn option_view(event: Option<Message>) -> Option<MessageView> {
    match event {
        Some(m) => Some(m@),
        None => None,
    }
}

/// Whether the peer has asked for the end of the session.
pub open spec fn asked_to_close(event: Option<MessageView>) -> bool {
    event matches Some(m) && m.payload is Close
}

/// Whether an answer goes out through the dispatcher: the message that
/// ends a session whose end the peer has not asked for. The dispatcher
/// still holds such a session, and lets go of it as the message passes.
/// Every other answer goes straight to the peer.
pub open spec fn through_dispatcher(event: Option<MessageView>, answer: MessageView) -> bool {
    answer.payload is Close && !asked_to_close(event)
}

/// Of the answers `replies`, in their order, those that go out through
/// the dispatcher, or those that go straight to the peer.
pub open spec fn selected(
    replies: Seq<MessageView>,
    event: Option<MessageView>,
    dispatcher: bool,
) -> Seq<MessageView>
    decreases replies.len(),
{
    if replies.len() == 0 {
        Seq::empty()
    } else if through_dispatcher(event, replies.last()) == dispatcher {
        selected(replies.drop_last(), event, dispatcher).push(replies.last())
    } else {
        selected(replies.drop_last(), event, dispatcher)
    }
}

/// What is to be done after something has happened to a session, and by
/// whom.
pub struct Actions {
    /// Messages to send to the peer once, in this order.
    pub to_peer: Vec<Message>,
    /// Messages to hand to the dispatcher, which sends them and takes the
    /// session out of its table.
    pub to_dispatcher: Vec<Message>,
    /// For each line that was completed, the data messages that carry its
    /// answer: each batch is to be sent, and sent again until acknowledged.
    pub batches: Vec<Vec<Message>>,
}

/// Finds the first newline of `bytes` at or after `from`.
pub fn find_newline(bytes: &[u8], from: usize) -> (k: usize)
    requires
        from <= bytes@.len(),
    ensures
        from <= k <= bytes@.len(),
        k - from == first_newline(bytes@.skip(from as int)),
{
    let mut k: usize = from;
    while k < bytes.len() && bytes[k] != NEWLINE
        invariant
            from <= k <= bytes@.len(),
            first_newline(bytes@.skip(from as int)) == (k - from) + first_newline(
                bytes@.skip(k as int),
            ),
        decreases bytes@.len() - k,
    {
        proof {
            assert(bytes@.skip(k as int).skip(1) =~= bytes@.skip(k + 1));
        }
        k = k + 1;
    }
    k
}

impl Outcome {
    /// Nothing to do.
    pub fn none() -> (out: Outcome)
        ensures
            out@ == nothing(),
    {
        let out = Outcome { replies: Vec::new(), batches: Vec::new() };
        assert(out@.replies =~= nothing().replies);
        assert(out@.batches =~= nothing().batches);
        out
    }

    /// One message to send once.
    pub fn single(m: Message) -> (out: Outcome)
        ensures
            out@ == reply(m@),
    {
        let mut replies: Vec<Message> = Vec::new();
        replies.push(m);
        let out = Outcome { replies, batches: Vec::new() };
        assert(out@.replies =~= reply(m@).replies);
        assert(out@.batches =~= reply(m@).batches);
        out
    }
}

impl LrcpSession {
    /// A session that waits for its connect message.
    pub fn new(id: SessionId) -> (session: LrcpSession)
        ensures
            session@ == initial(id.0),
    {
        LrcpSession {
            id,
            phase: Phase::Pending,
            data: Vec::new(),
            bytes_received: 0,
            bytes_sent: 0,
            bytes_acked: 0,
        }
    }

    /// The identifier of the session.
    pub fn id(&self) -> (id: SessionId)
        ensures
            id.0 == self@.id,
    {
        self.id
    }

    /// Where the session stands.
    pub fn phase(&self) -> (phase: Phase)
        ensures
            phase == self@.phase,
    {
        self.phase
    }

    /// How many bytes of the peer's stream were accepted.
    pub fn bytes_received(&self) -> (n: u32)
        ensures
            n == self@.bytes_received,
    {
        self.bytes_received
    }

    /// How many bytes were put into data messages.
    pub fn bytes_sent(&self) -> (n: u32)
        ensures
            n == self@.bytes_sent,
    {
        self.bytes_sent
    }

    /// The most that the peer has acknowledged.
    pub fn bytes_acked(&self) -> (n: u32)
        ensures
            n == self@.bytes_acked,
    {
        self.bytes_acked
    }

    /// The bytes that were received and belong to no complete line yet.
    pub fn buffered(&self) -> (data: &[u8])
        ensures
            data@ == self@.data,
    {
        self.data.as_slice()
    }

    /// The acknowledgment of `position` bytes of the peer's stream.
    fn ack(&self, position: u32) -> (m: Message)
        ensures
            m@ == ack_of(self@, position),
    {
        Message::new_ack(self.id, position)
    }

    /// Ends the session, and gives the message that says so to the peer.
    fn close(&mut self) -> (m: Message)
        ensures
            m@ == close_of(old(self)@),
            final(self)@ == (SessionView { phase: Phase::Closed, ..old(self)@ }),
    {
        self.phase = Phase::Closed;
        Message::new_close(self.id)
    }

    /// Puts one line into data messages at the end of the outgoing stream:
    /// each message takes the position that the stream has reached, and
    /// moves it on by the bytes that it carries.
    pub fn send_line(&mut self, line: String) -> (batch: Vec<Message>)
        requires
            old(self)@.bytes_sent + encode_utf8(line@).len() <= u32::MAX,
        ensures
            views(batch@) == outbound_batch(
                old(self)@.id,
                old(self)@.bytes_sent,
                encode_utf8(line@),
            ),
            final(self)@ == (SessionView {
                bytes_sent: (old(self)@.bytes_sent + encode_utf8(line@).len()) as u32,
                ..old(self)@
            }),
    {
        let ghost bytes = encode_utf8(line@);
        let ghost start = self.bytes_sent;
        let ghost wanted = outbound_batch(self.id.0, start, bytes);
        let chunks = chunk_lines(line);
        let ghost pieces = chunks@;
        let mut batch: Vec<Message> = Vec::new();
        for piece in it: chunks
            invariant
                it.seq() == pieces,
                pieces.len() == chunk_count(bytes.len()),
                forall|i: int| 0 <= i < pieces.len() ==> pieces[i]@ == chunk(bytes, i),
                start + bytes.len() <= u32::MAX,
                wanted == outbound_batch(self.id.0, start, bytes),
                batch@.len() == it.index(),
                forall|i: int| 0 <= i < batch@.len() ==> batch@[i]@ == wanted[i],
                self@ == (SessionView {
                    bytes_sent: (start + if 900 * it.index() <= bytes.len() {
                        900 * it.index()
                    } else {
                        bytes.len() as int
                    }) as u32,
                    ..old(self)@
                }),
        {
            let ghost i = it.index() as int;
            assert(piece@ == chunk(bytes, i));
            let position = self.bytes_sent;
            let len = piece.len();
            self.bytes_sent = self.bytes_sent + len as u32;
            batch.push(Message::new_data(self.id, piece, position));
        }
        assert(views(batch@) =~= wanted);
        batch
    }

    /// Answers every complete line of the buffer. See [`flush`].
    fn flush(&mut self, out: &mut Outcome)
        ensures
            (final(self)@, final(out)@) == flush(old(self)@, old(out)@),
    {
        let ghost s0 = self@;
        let ghost o0 = out@;
        let mut start: usize = 0;
        proof {
            assert(self.data@.skip(0) =~= self.data@);
        }
        loop
            invariant_except_break
                flush(SessionView { data: self.data@.skip(start as int), ..self@ }, out@) == flush(
                    s0,
                    o0,
                ),
            invariant
                start <= self.data@.len(),
                self.data@ == s0.data,
            ensures
                start <= self.data@.len(),
                self.data@ == s0.data,
                (SessionView { data: self.data@.skip(start as int), ..self@ }, out@) == flush(
                    s0,
                    o0,
                ),
            decreases self.data@.len() - start,
        {
            let ghost cur = SessionView { data: self.data@.skip(start as int), ..self@ };
            let ghost cur_out = out@;
            let k = find_newline(self.data.as_slice(), start);
            if k >= self.data.len() {
                break ;
            }
            let text = lossy_text(slice_subrange(self.data.as_slice(), start, k + 1));
            proof {
                assert(cur.data.take(k + 1 - start) =~= self.data@.subrange(
                    start as int,
                    k + 1,
                ));
                assert(cur.data.skip(k + 1 - start) =~= self.data@.skip(k + 1));
            }
            let reversed = reverse_line(text.as_str());
            let len = reversed.as_str().as_bytes().len();
            assert(len == answer(cur.data.take(k + 1 - start)).len());
            if len > (u32::MAX - self.bytes_sent) as usize {
                let m = self.close();
                out.replies.push(m);
                proof {
                    assert(out@.replies =~= cur_out.replies.push(close_of(cur)));
                    assert(out@.batches =~= cur_out.batches);
                }
                break ;
            }
            let batch = self.send_line(reversed);
            out.batches.push(batch);
            proof {
                assert(out@.replies =~= cur_out.replies);
                assert(out@.batches =~= cur_out.batches.push(
                    outbound_batch(cur.id, cur.bytes_sent, answer(cur.data.take(k + 1 - start))),
                ));
            }
            start = k + 1;
        }
        let rest = self.data.split_off(start);
        self.data = rest;
        proof {
            assert(self.data@ =~= s0.data.skip(start as int));
        }
    }

    /// Takes in a piece of the peer's stream. See [`receive`].
    fn receive(&mut self, position: u32, data: Vec<u8>) -> (out: Outcome)
        ensures
            (final(self)@, out@) == receive(old(self)@, position, data@),
    {
        if position > self.bytes_received {
            return Outcome::single(self.ack(self.bytes_received));
        }
        let skip = (self.bytes_received - position) as usize;
        if skip > data.len() {
            return Outcome::none();
        }
        let fresh = slice_subrange(data.as_slice(), skip, data.len());
        assert(fresh@ =~= data@.skip(skip as int));
        if fresh.len() > (u32::MAX - self.bytes_received) as usize {
            let m = self.close();
            let out = Outcome::single(m);
            assert(out@.replies =~= nothing().replies.push(close_of(old(self)@)));
            return out;
        }
        let has_line = find_newline(fresh, 0) < fresh.len();
        proof {
            assert(fresh@.skip(0) =~= fresh@);
        }
        self.data.extend_from_slice(fresh);
        assert(self.data@ =~= old(self).data@ + fresh@);
        self.bytes_received = self.bytes_received + fresh.len() as u32;
        let mut out = Outcome::single(self.ack(self.bytes_received));
        if has_line {
            self.flush(&mut out);
        }
        out
    }

    /// Takes in one message, and says what is to be done about it.
    ///
    /// A session starts when its connect message comes, and answers it with
    /// an acknowledgment of no bytes. Any other message before that ends
    /// the session, as does a close message at any time, and an
    /// acknowledgment of more bytes than were ever sent. An acknowledgment
    /// never lowers what counts as acknowledged. A session that has ended
    /// takes nothing in and says nothing.
    pub fn handle_message(&mut self, msg: Message) -> (out: Outcome)
        ensures
            (final(self)@, out@) == step(old(self)@, msg@),
    {
        match self.phase {
            Phase::Closed => Outcome::none(),
            Phase::Pending => match msg.payload {
                Payload::Connect => {
                    self.phase = Phase::Connected;
                    Outcome::single(self.ack(0))
                },
                _ => {
                    let m = self.close();
                    let out = Outcome::single(m);
                    assert(out@.replies =~= nothing().replies.push(close_of(old(self)@)));
                    out
                },
            },
            Phase::Connected => match msg.payload {
                Payload::Connect => Outcome::single(self.ack(0)),
                Payload::Close => {
                    let m = self.close();
                    let out = Outcome::single(m);
                    assert(out@.replies =~= nothing().replies.push(close_of(old(self)@)));
                    out
                },
                Payload::Ack { position } => {
                    if position > self.bytes_sent {
                        let m = self.close();
                        let out = Outcome::single(m);
                        assert(out@.replies =~= nothing().replies.push(close_of(old(self)@)));
                        out
                    } else {
                        if position > self.bytes_acked {
                            self.bytes_acked = position;
                        }
                        Outcome::none()
                    }
                },
                Payload::Data { data, position } => self.receive(position, data),
            },
        }
    }

    /// The session has heard nothing for too long: unless it has ended
    /// already, it ends now, and says so to the peer.
    pub fn timeout(&mut self) -> (out: Outcome)
        ensures
            (final(self)@, out@) == timed_out(old(self)@),
    {
        match self.phase {
            Phase::Closed => Outcome::none(),
            _ => {
                let m = self.close();
                let out = Outcome::single(m);
                assert(out@.replies =~= nothing().replies.push(close_of(old(self)@)));
                out
            },
        }
    }

    /// Takes in what has happened to the session, a message or, with
    /// `None`, a silence that has lasted too long, and says what is to be
    /// done about it and by whom. See [`on_event`] and [`Actions`].
    pub fn on_event(&mut self, event: Option<Message>) -> (actions: Actions)
        ensures
            final(self)@ == on_event(old(self)@, option_view(event)).0,
            views(actions.to_peer@) == selected(
                on_event(old(self)@, option_view(event)).1.replies,
                option_view(event),
                false,
            ),
            views(actions.to_dispatcher@) == selected(
                on_event(old(self)@, option_view(event)).1.replies,
                option_view(event),
                true,
            ),
            actions.batches@.map_values(|b: Vec<Message>| views(b@)) == on_event(
                old(self)@,
                option_view(event),
            ).1.batches,
    {
        let ghost cause = option_view(event);
        let asked = match &event {
            Some(message) => match &message.payload {
                Payload::Close => true,
                _ => false,
            },
            None => false,
        };
        let outcome = match event {
            Some(message) => self.handle_message(message),
            None => self.timeout(),
        };
        let ghost replies = outcome@.replies;
        let Outcome { replies: all, batches } = outcome;
        let ghost owned = all@;
        let mut to_peer: Vec<Message> = Vec::new();
        let mut to_dispatcher: Vec<Message> = Vec::new();
        proof {
            assert(replies.take(0) =~= Seq::<MessageView>::empty());
            assert(views(to_peer@) =~= selected(replies.take(0), cause, false));
            assert(views(to_dispatcher@) =~= selected(replies.take(0), cause, true));
        }
        for reply in it: all
            invariant
                it.seq() == owned,
                replies == views(owned),
                asked == asked_to_close(cause),
                views(to_peer@) == selected(replies.take(it.index() as int), cause, false),
                views(to_dispatcher@) == selected(replies.take(it.index() as int), cause, true),
        {
            let ghost i = it.index() as int;
            let ghost peer_before = views(to_peer@);
            let ghost dispatcher_before = views(to_dispatcher@);
            proof {
                assert(replies.take(i + 1).drop_last() =~= replies.take(i));
                assert(replies.take(i + 1).last() == reply@);
            }
            let ends = match &reply.payload {
                Payload::Close => true,
                _ => false,
            };
            if ends && !asked {
                to_dispatcher.push(reply);
                assert(views(to_dispatcher@) =~= dispatcher_before.push(reply@));
            } else {
                to_peer.push(reply);
                assert(views(to_peer@) =~= peer_before.push(reply@));
            }
        }
        proof {
            assert(replies.take(owned.len() as int) =~= replies);
        }
        Actions { to_peer, to_dispatcher, batches }
    }
}

/// The session after the messages `ms`, taken in order.
pub open spec fn after(s: SessionView, ms: Seq<MessageView>) -> SessionView
    decreases ms.len(),
{
    if ms.len() == 0 {
        s
    } else {
        step(after(s, ms.drop_last()), ms.last()).0
    }
}

/// What a session that has received `received` bytes accepts of a piece
/// of the stream: of a piece that starts at or before the last byte
/// accepted and does not end before it, what lies beyond that byte.
pub open spec fn accepted_from(received: u32, position: u32, data: Seq<u8>) -> Seq<u8> {
    if position <= received <= position + data.len() <= u32::MAX {
        data.skip(received - position)
    } else {
        Seq::empty()
    }
}

/// The bytes that the session `s` accepts from the message `m`: something
/// only if it is connected and the message carries data.
pub open spec fn taken_in(s: SessionView, m: MessageView) -> Seq<u8> {
    match m.payload {
        PayloadView::Data { data, position } => if s.phase == Phase::Connected {
            accepted_from(s.bytes_received, position, data)
        } else {
            Seq::empty()
        },
        _ => Seq::empty(),
    }
}

/// Everything that the session accepts from the messages `ms`, in the
/// order in which it accepts it.
pub open spec fn reassembled(s: SessionView, ms: Seq<MessageView>) -> Seq<u8>
    decreases ms.len(),
{
    if ms.len() == 0 {
        Seq::empty()
    } else {
        reassembled(s, ms.drop_last()) + taken_in(after(s, ms.drop_last()), ms.last())
    }
}

/// Whether a message, if it carries data, carries a piece of `stream` under
/// the position where that piece stands in it.
pub open spec fn piece_of(stream: Seq<u8>, m: MessageView) -> bool {
    m.payload matches PayloadView::Data { data, position } ==> position + data.len()
        <= stream.len() && data == stream.subrange(position as int, position + data.len())
}

/// Whether `tail` is what `whole` ends with.
pub open spec fn is_tail(tail: Seq<u8>, whole: Seq<u8>) -> bool {
    tail.len() <= whole.len() && tail == whole.skip(whole.len() - tail.len())
}

/// Whether the bytes `s` hold no newline, and so no complete line.
pub open spec fn holds_no_line(s: Seq<u8>) -> bool {
    first_newline(s) >= s.len()
}

/// Bytes hold no newline exactly if none of them is one.
pub proof fn lemma_holds_no_line(s: Seq<u8>)
    ensures
        first_newline(s) <= s.len(),
        holds_no_line(s) <==> forall|i: int| 0 <= i < s.len() ==> s[i] != NEWLINE,
        first_newline(s) < s.len() ==> s[first_newline(s) as int] == NEWLINE,
    decreases s.len(),
{
    if s.len() > 0 && s[0] != NEWLINE {
        let rest = s.skip(1);
        lemma_holds_no_line(rest);
        if holds_no_line(s) {
            assert forall|i: int| 0 <= i < s.len() implies s[i] != NEWLINE by {
                if i > 0 {
                    assert(rest[i - 1] == s[i]);
                }
            }
        } else {
            assert(rest[first_newline(rest) as int] == s[first_newline(rest) as int + 1]);
        }
    }
}

/// Answering lines changes neither what was received nor what was
/// acknowledged, and never moves the outgoing position back. What stays in
/// the buffer is what the buffer ended with, and it holds no line, unless
/// the session had to end over one.
pub proof fn lemma_flush(s: SessionView, out: OutcomeView)
    ensures
        flush(s, out).0.id == s.id,
        flush(s, out).0.bytes_received == s.bytes_received,
        flush(s, out).0.bytes_acked == s.bytes_acked,
        flush(s, out).0.bytes_sent >= s.bytes_sent,
        flush(s, out).0.phase == s.phase || flush(s, out).0.phase == Phase::Closed,
        flush(s, out).1.replies.len() >= out.replies.len(),
        is_tail(flush(s, out).0.data, s.data),
        s.phase != Phase::Closed && flush(s, out).0.phase != Phase::Closed ==> holds_no_line(
            flush(s, out).0.data,
        ),
    decreases s.data.len(),
{
    let k = first_newline(s.data);
    if k < s.data.len() {
        let reversed = answer(s.data.take((k + 1) as int));
        if s.bytes_sent + reversed.len() <= u32::MAX {
            let rest = s.data.skip((k + 1) as int);
            let next = SessionView {
                data: rest,
                bytes_sent: (s.bytes_sent + reversed.len()) as u32,
                ..s
            };
            lemma_flush(
                next,
                OutcomeView {
                    batches: out.batches.push(outbound_batch(s.id, s.bytes_sent, reversed)),
                    ..out
                },
            );
            let kept = flush(s, out).0.data;
            assert(kept =~= s.data.skip(s.data.len() - kept.len()));
        } else {
            assert(s.data =~= s.data.skip(0));
        }
    } else {
        assert(s.data =~= s.data.skip(0));
    }
}

/// What taking in a piece of the stream does to a session: the mark of
/// what was received moves on by what is accepted of the piece, which goes
/// to the end of the buffer; nothing is lost from the end of the buffer
/// but lines that are answered; and no counter goes back.
pub proof fn lemma_receive(s: SessionView, position: u32, data: Seq<u8>)
    ensures
        ({
            let after = receive(s, position, data).0;
            let fresh = accepted_from(s.bytes_received, position, data);
            &&& after.id == s.id
            &&& after.bytes_received == s.bytes_received + fresh.len()
            &&& after.bytes_acked == s.bytes_acked
            &&& after.bytes_sent >= s.bytes_sent
            &&& after.phase == s.phase || after.phase == Phase::Closed
            &&& is_tail(after.data, s.data + fresh)
            &&& s.phase != Phase::Closed && after.phase != Phase::Closed && holds_no_line(s.data)
                ==> holds_no_line(after.data)
        }),
{
    let fresh = accepted_from(s.bytes_received, position, data);
    let whole = s.data + fresh;
    assert(whole =~= whole.skip(0));
    if position <= s.bytes_received <= position + data.len() <= u32::MAX {
        let accepted = SessionView {
            data: whole,
            bytes_received: (s.bytes_received + fresh.len()) as u32,
            ..s
        };
        if first_newline(fresh) < fresh.len() {
            lemma_flush(accepted, reply(ack_of(s, accepted.bytes_received)));
        } else {
            lemma_holds_no_line(s.data);
            lemma_holds_no_line(fresh);
            lemma_holds_no_line(whole);
        }
    } else {
        assert(whole =~= s.data);
    }
}

/// The mark of what was received moves on by exactly what a message makes
/// the session accept: to the end of a piece that starts at or before the
/// mark and ends after it, and not at all otherwise.
pub proof fn lemma_received_mark(s: SessionView, m: MessageView)
    ensures
        step(s, m).0.bytes_received == s.bytes_received + taken_in(s, m).len(),
        step(s, m).0.id == s.id,
        match m.payload {
            PayloadView::Data { data, position } => step(s, m).0.bytes_received == if s.phase
                == Phase::Connected && position <= s.bytes_received && s.bytes_received < position
                + data.len() <= u32::MAX {
                position + data.len()
            } else {
                s.bytes_received as int
            },
            _ => step(s, m).0.bytes_received == s.bytes_received,
        },
{
    if let PayloadView::Data { data, position } = m.payload {
        lemma_receive(s, position, data);
    }
}

/// No counter of a session ever goes back.
pub proof fn lemma_counters_never_regress(s: SessionView, m: MessageView)
    ensures
        step(s, m).0.bytes_received >= s.bytes_received,
        step(s, m).0.bytes_sent >= s.bytes_sent,
        step(s, m).0.bytes_acked >= s.bytes_acked,
        s.bytes_acked <= s.bytes_sent ==> step(s, m).0.bytes_acked <= step(s, m).0.bytes_sent,
{
    if let PayloadView::Data { data, position } = m.payload {
        lemma_receive(s, position, data);
    }
}

/// The buffer of a session never keeps a complete line: if it holds none
/// before a message, it holds none after it.
pub proof fn lemma_no_line_is_kept(s: SessionView, m: MessageView)
    requires
        holds_no_line(s.data),
    ensures
        step(s, m).0.phase != Phase::Closed ==> holds_no_line(step(s, m).0.data),
{
    if let PayloadView::Data { data, position } = m.payload {
        lemma_receive(s, position, data);
    }
}

/// What a buffer ends with is still what it ends with when more is
/// appended to both.
pub proof fn lemma_tail_grows(tail: Seq<u8>, whole: Seq<u8>, more: Seq<u8>)
    requires
        is_tail(tail, whole),
    ensures
        is_tail(tail + more, whole + more),
{
    assert(tail + more =~= (whole + more).skip(whole.len() - tail.len()));
}

/// The end of an end is an end.
pub proof fn lemma_tail_of_tail(inner: Seq<u8>, middle: Seq<u8>, whole: Seq<u8>)
    requires
        is_tail(inner, middle),
        is_tail(middle, whole),
    ensures
        is_tail(inner, whole),
{
    assert(inner =~= whole.skip(whole.len() - inner.len()));
}

/// The buffer is the end of what was accepted: a session that starts with
/// an empty buffer holds, after any messages, the last bytes that it has
/// accepted, those that belong to no line answered yet.
pub proof fn lemma_buffer_is_tail(s: SessionView, ms: Seq<MessageView>)
    requires
        s.data.len() == 0,
    ensures
        is_tail(after(s, ms).data, reassembled(s, ms)),
    decreases ms.len(),
{
    if ms.len() == 0 {
        assert(s.data =~= reassembled(s, ms).skip(0));
    } else {
        let before = ms.drop_last();
        let m = ms.last();
        lemma_buffer_is_tail(s, before);
        let t = after(s, before);
        let fresh = taken_in(t, m);
        lemma_tail_grows(t.data, reassembled(s, before), fresh);
        if t.phase == Phase::Connected && m.payload is Data {
            if let PayloadView::Data { data, position } = m.payload {
                lemma_receive(t, position, data);
            }
            lemma_tail_of_tail(after(s, ms).data, t.data + fresh, reassembled(s, ms));
        } else {
            assert(t.data + fresh =~= t.data);
            assert(after(s, ms).data == t.data);
        }
    }
}

/// Reassembly: whatever pieces of a stream a session is fed, in whatever
/// order, with whatever repetitions and overlaps, what it has accepted is
/// always the start of that stream, as long as the number of bytes that it
/// counts as received.
pub proof fn lemma_reassembly(stream: Seq<u8>, s: SessionView, ms: Seq<MessageView>)
    requires
        s.bytes_received == 0,
        forall|i: int| 0 <= i < ms.len() ==> piece_of(stream, #[trigger] ms[i]),
    ensures
        after(s, ms).bytes_received <= stream.len(),
        reassembled(s, ms) == stream.take(after(s, ms).bytes_received as int),
    decreases ms.len(),
{
    if ms.len() == 0 {
        assert(stream.take(0) =~= Seq::<u8>::empty());
    } else {
        let before = ms.drop_last();
        let m = ms.last();
        assert forall|i: int| 0 <= i < before.len() implies piece_of(
            stream,
            #[trigger] before[i],
        ) by {
            assert(before[i] == ms[i]);
        }
        lemma_reassembly(stream, s, before);
        let t = after(s, before);
        lemma_received_mark(t, m);
        assert(piece_of(stream, m));
        assert(reassembled(s, before) + taken_in(t, m) =~= stream.take(
            after(s, ms).bytes_received as int,
        ));
    }
}

/// Gap: a piece that starts after the last byte accepted changes nothing
/// in the session, and is answered by the acknowledgment of what the
/// session held before.
pub proof fn lemma_gap_is_reacked(s: SessionView, m: MessageView)
    requires
        s.phase == Phase::Connected,
        m.payload matches PayloadView::Data { position, .. } && position > s.bytes_received,
    ensures
        step(s, m).0 == s,
        step(s, m).1 == reply(ack_of(s, s.bytes_received)),
{
}

/// Duplicates: a piece that lies wholly within what was accepted changes
/// nothing in the session, and brings no line to answer.
pub proof fn lemma_duplicate_is_dropped(s: SessionView, m: MessageView)
    requires
        s.phase == Phase::Connected,
        m.payload matches PayloadView::Data { data, position } && position + data.len()
            <= s.bytes_received,
    ensures
        step(s, m).0 == s,
        step(s, m).1.batches == Seq::<Seq<MessageView>>::empty(),
{
    match m.payload {
        PayloadView::Data { data, position } => {
            let skip = s.bytes_received - position;
            if skip == data.len() {
                assert(data.skip(skip) =~= Seq::<u8>::empty());
                assert(s.data + data.skip(skip) =~= s.data);
            }
        },
        _ => {},
    }
}

/// An acknowledgment of more bytes than were ever sent ends the session:
/// unless it had ended before, it says so to the peer and does nothing
/// else.
pub proof fn lemma_ack_beyond_sent_closes(s: SessionView, m: MessageView)
    requires
        m.payload matches PayloadView::Ack { position } && position > s.bytes_sent,
    ensures
        step(s, m).0.phase == Phase::Closed,
        s.phase != Phase::Closed ==> step(s, m) == closing(s, nothing()),
        s.phase != Phase::Closed ==> step(s, m).1 == reply(close_of(s)),
{
    assert(nothing().replies.push(close_of(s)) =~= reply(close_of(s)).replies);
}

/// The position at which a data message starts.
pub open spec fn position_of(m: MessageView) -> int {
    match m.payload {
        PayloadView::Data { position, .. } => position as int,
        _ => 0,
    }
}

/// The payload of a data message.
pub open spec fn payload_of(m: MessageView) -> Seq<u8> {
    match m.payload {
        PayloadView::Data { data, .. } => data,
        _ => Seq::empty(),
    }
}

/// The data messages of a batch lie end to end in the outgoing stream:
/// the first starts where the stream stood, each of the others where the
/// one before it ends, and the last ends where the stream stands after the
/// batch. Each carries a piece of the line, of at least one byte and of
/// [`CHUNK_SIZE`] bytes at most.
pub proof fn lemma_batch_is_contiguous(session: u32, start: u32, bytes: Seq<u8>)
    requires
        start + bytes.len() <= u32::MAX,
    ensures
        ({
            let batch = outbound_batch(session, start, bytes);
            &&& bytes.len() > 0 ==> batch.len() > 0 && position_of(batch[0]) == start
                && position_of(batch.last()) + payload_of(batch.last()).len() == start
                + bytes.len()
            &&& bytes.len() == 0 ==> batch.len() == 0
            &&& forall|i: int|
                0 <= i < batch.len() ==> (#[trigger] batch[i]).payload is Data && batch[i].session
                    == session && 0 < payload_of(batch[i]).len() <= 900 && payload_of(batch[i])
                    == bytes.subrange(
                    position_of(batch[i]) - start,
                    position_of(batch[i]) - start + payload_of(batch[i]).len(),
                )
            &&& forall|i: int|
                0 <= i < batch.len() - 1 ==> position_of(#[trigger] batch[i]) + payload_of(
                    batch[i],
                ).len() == position_of(batch[i + 1])
        }),
{
    let batch = outbound_batch(session, start, bytes);
    assert forall|i: int| 0 <= i < batch.len() implies (#[trigger] batch[i]).payload is Data
        && batch[i].session == session && 0 < payload_of(batch[i]).len() <= 900 && payload_of(
        batch[i],
    ) == bytes.subrange(
        position_of(batch[i]) - start,
        position_of(batch[i]) - start + payload_of(batch[i]).len(),
    ) by {
        assert(900 * i < bytes.len());
    }
    assert forall|i: int| 0 <= i < batch.len() - 1 implies position_of(#[trigger] batch[i])
        + payload_of(batch[i]).len() == position_of(batch[i + 1]) by {
        assert(900 * (i + 1) < bytes.len());
    }
}

/// Whether a data message still waits for its acknowledgment: the peer has
/// not acknowledged anything beyond the position where it starts.
pub open spec fn unacknowledged(m: MessageView, bytes_acked: u32) -> bool {
    m.payload matches PayloadView::Data { position, .. } && position >= bytes_acked
}

/// The datagrams of one round of retransmission: of the messages of a
/// batch, those that still wait for their acknowledgment, each encoded as
/// it was the first time, in the order of the batch.
pub open spec fn due(batch: Seq<MessageView>, bytes_acked: u32) -> Seq<Seq<u8>>
    decreases batch.len(),
{
    if batch.len() == 0 {
        Seq::empty()
    } else if unacknowledged(batch.last(), bytes_acked) {
        due(batch.drop_last(), bytes_acked).push(encode(batch.last()))
    } else {
        due(batch.drop_last(), bytes_acked)
    }
}

/// One round of retransmission: the datagrams to send again, given what the
/// peer has acknowledged. When none is left, the batch is done.
pub fn retransmit(batch: &Vec<Message>, bytes_acked: u32) -> (packets: Vec<Vec<u8>>)
    ensures
        packets@.len() == due(views(batch@), bytes_acked).len(),
        forall|i: int| 0 <= i < packets@.len() ==> packets@[i]@ == due(views(batch@), bytes_acked)[i],
{
    let ghost all = views(batch@);
    let mut packets: Vec<Vec<u8>> = Vec::new();
    let mut i: usize = 0;
    proof {
        assert(all.take(0) =~= Seq::<MessageView>::empty());
    }
    while i < batch.len()
        invariant
            i <= batch@.len(),
            all == views(batch@),
            packets@.len() == due(all.take(i as int), bytes_acked).len(),
            forall|j: int|
                0 <= j < packets@.len() ==> packets@[j]@ == due(all.take(i as int), bytes_acked)[j],
        decreases batch@.len() - i,
    {
        let m = &batch[i];
        proof {
            assert(all.take(i + 1).drop_last() =~= all.take(i as int));
            assert(all.take(i + 1).last() == m@);
        }
        let waits = match &m.payload {
            Payload::Data { position, .. } => *position >= bytes_acked,
            _ => false,
        };
        if waits {
            packets.push(m.to_packet());
        }
        i = i + 1;
    }
    proof {
        assert(all.take(i as int) =~= all);
    }
    packets
}

/// Once the peer has acknowledged beyond the start of a data message, that
/// message is never due again, whatever the peer acknowledges later.
pub proof fn lemma_acknowledged_stays(m: MessageView, bytes_acked: u32, later: u32)
    requires
        !unacknowledged(m, bytes_acked),
        bytes_acked <= later,
    ensures
        !unacknowledged(m, later),
{
}

} // verus!
