//! The cipher: a list of byte operations that a client names at the start
//! of its connection, applied to every byte in either direction.
use vstd::prelude::*;

verus! {

/// One step of a cipher.
#[derive(Debug, PartialEq, Eq, Clone, Copy, Structural)]
pub enum Operation {
    /// Reverses the order of the bits of the byte.
    ReverseBits,
    /// Xors the byte with `n`.
    Xor { n: u8 },
    /// Xors the byte with its position in the stream.
    XorPosition,
    /// Adds `n` to the byte, modulo 256.
    Add { n: u8 },
    /// Adds to the byte its position in the stream, modulo 256.
    AddPosition,
    /// Does nothing: the byte that ends a cipher specification.
    CipherEnd,
}

/// A cipher, and how far it has come in the stream of each direction.
#[derive(Debug)]
pub struct Cipher {
    pub cipher: Vec<Operation>,
    pub incoming_position: usize,
    pub outgoing_position: usize,
}

/// Why a cipher could not be made or used.
#[derive(Debug, PartialEq, Eq, Clone, Copy, Structural)]
pub enum CipherError {
    /// The specification does not start with an operation.
    Specification,
    /// The cipher left every byte as it was.
    NoEffect,
}

/// The byte `b` with its bits in reverse order.
pub open spec fn reverse_bits(b: u8) -> u8 {
    ((b & 0x01) << 7) | ((b & 0x02) << 5) | ((b & 0x04) << 3) | ((b & 0x08) << 1) | ((b & 0x10)
        >> 1) | ((b & 0x20) >> 3) | ((b & 0x40) >> 5) | ((b & 0x80) >> 7)
}

/// The sum of two bytes, modulo 256.
pub open spec fn wrapping_sum(a: u8, b: u8) -> u8 {
    if a + b > 255 {
        (a + b - 256) as u8
    } else {
        (a + b) as u8
    }
}

/// The difference of two bytes, modulo 256.
pub open spec fn wrapping_difference(a: u8, b: u8) -> u8 {
    if a - b < 0 {
        (a - b + 256) as u8
    } else {
        (a - b) as u8
    }
}

/// What `op` makes of the byte `b` at position `position` (taken modulo
/// 256) of the stream.
pub open spec fn apply(op: Operation, b: u8, position: u8) -> u8 {
    match op {
        Operation::ReverseBits => reverse_bits(b),
        Operation::Xor { n } => b ^ n,
        Operation::XorPosition => b ^ position,
        Operation::Add { n } => wrapping_sum(b, n),
        Operation::AddPosition => wrapping_sum(b, position),
        Operation::CipherEnd => b,
    }
}

/// The byte that `op` makes `b` of, at position `position`.
pub open spec fn unapply(op: Operation, b: u8, position: u8) -> u8 {
    match op {
        Operation::ReverseBits => reverse_bits(b),
        Operation::Xor { n } => b ^ n,
        Operation::XorPosition => b ^ position,
        Operation::Add { n } => wrapping_difference(b, n),
        Operation::AddPosition => wrapping_difference(b, position),
        Operation::CipherEnd => b,
    }
}

/// The byte `b` after the operations `ops`, first to last.
pub open spec fn encoded(ops: Seq<Operation>, b: u8, position: u8) -> u8
    decreases ops.len(),
{
    if ops.len() == 0 {
        b
    } else {
        apply(ops.last(), encoded(ops.drop_last(), b, position), position)
    }
}

/// The byte that the operations `ops` make `b` of: each undone, last to
/// first.
pub open spec fn decoded(ops: Seq<Operation>, b: u8, position: u8) -> u8
    decreases ops.len(),
{
    if ops.len() == 0 {
        b
    } else {
        decoded(ops.drop_last(), unapply(ops.last(), b, position), position)
    }
}

/// The low eight bits of a position.
pub open spec fn low(position: usize) -> u8 {
    (position % 256) as u8
}

/// The position after `position`. After the last position that the
/// machine can count comes the first again.
pub open spec fn next(position: usize) -> usize {
    if position == usize::MAX {
        0
    } else {
        (position + 1) as usize
    }
}

/// The position `n` steps after `position`.
pub open spec fn advanced(position: usize, n: nat) -> usize
    decreases n,
{
    if n == 0 {
        position
    } else {
        next(advanced(position, (n - 1) as nat))
    }
}

/// The bytes `bytes` encoded one by one, the first at position `position`.
pub open spec fn encoded_stream(ops: Seq<Operation>, bytes: Seq<u8>, position: usize) -> Seq<u8> {
    Seq::new(bytes.len(), |i: int| encoded(ops, bytes[i], low(advanced(position, i as nat))))
}

/// The bytes `bytes` decoded one by one, the first at position `position`.
pub open spec fn decoded_stream(ops: Seq<Operation>, bytes: Seq<u8>, position: usize) -> Seq<u8> {
    Seq::new(bytes.len(), |i: int| decoded(ops, bytes[i], low(advanced(position, i as nat))))
}

/// The operation that `bytes` starts with, and how many bytes it takes.
pub open spec fn first_operation(bytes: Seq<u8>) -> Option<(Operation, nat)> {
    if bytes.len() == 0 {
        None
    } else if bytes[0] == 0x00 {
        Some((Operation::CipherEnd, 1nat))
    } else if bytes[0] == 0x01 {
        Some((Operation::ReverseBits, 1nat))
    } else if bytes[0] == 0x02 && bytes.len() >= 2 {
        Some((Operation::Xor { n: bytes[1] }, 2nat))
    } else if bytes[0] == 0x03 {
        Some((Operation::XorPosition, 1nat))
    } else if bytes[0] == 0x04 && bytes.len() >= 2 {
        Some((Operation::Add { n: bytes[1] }, 2nat))
    } else if bytes[0] == 0x05 {
        Some((Operation::AddPosition, 1nat))
    } else {
        None
    }
}

/// The operations that `bytes` starts with, as many as there are. What
/// follows the last of them is not read.
pub open spec fn operations(bytes: Seq<u8>) -> Seq<Operation>
    decreases bytes.len(),
{
    match first_operation(bytes) {
        None => Seq::empty(),
        Some((op, n)) => seq![op] + operations(bytes.skip(n as int)),
    }
}

/// Reverses the order of the bits of a byte.
pub fn reverse_byte(b: u8) -> (r: u8)
    ensures
        r == reverse_bits(b),
{
    ((b & 0x01) << 7) | ((b & 0x02) << 5) | ((b & 0x04) << 3) | ((b & 0x08) << 1) | ((b & 0x10)
        >> 1) | ((b & 0x20) >> 3) | ((b & 0x40) >> 5) | ((b & 0x80) >> 7)
}

/// Reads a cipher specification: the operations that it starts with. It
/// must start with one.
pub fn parse_cipher_spec(bytes: &[u8]) -> (r: Result<Vec<Operation>, CipherError>)
    ensures
        match r {
            Ok(ops) => ops@ == operations(bytes@) && ops@.len() > 0,
            Err(e) => e == CipherError::Specification && operations(bytes@).len() == 0,
        },
{
    let mut ops: Vec<Operation> = Vec::new();
    let mut i: usize = 0;
    proof {
        assert(bytes@.skip(0) =~= bytes@);
        assert(ops@ + operations(bytes@) =~= operations(bytes@));
    }
    loop
        invariant
            i <= bytes@.len(),
            operations(bytes@) == ops@ + operations(bytes@.skip(i as int)),
        ensures
            operations(bytes@) == ops@,
        decreases bytes@.len() - i,
    {
        let ghost rest = bytes@.skip(i as int);
        let ghost before = ops@;
        if i >= bytes.len() {
            assert(before + operations(rest) =~= before);
            break ;
        }
        let code = bytes[i];
        assert(rest[0] == code);
        let mut width: usize = 1;
        if code == 0x00 {
            ops.push(Operation::CipherEnd);
        } else if code == 0x01 {
            ops.push(Operation::ReverseBits);
        } else if code == 0x02 && bytes.len() - i >= 2 {
            assert(rest[1] == bytes@[i + 1]);
            ops.push(Operation::Xor { n: bytes[i + 1] });
            width = 2;
        } else if code == 0x03 {
            ops.push(Operation::XorPosition);
        } else if code == 0x04 && bytes.len() - i >= 2 {
            assert(rest[1] == bytes@[i + 1]);
            ops.push(Operation::Add { n: bytes[i + 1] });
            width = 2;
        } else if code == 0x05 {
            ops.push(Operation::AddPosition);
        } else {
            assert(before + operations(rest) =~= before);
            break ;
        }
        proof {
            assert(rest.skip(width as int) =~= bytes@.skip(i + width));
            assert(before + (seq![ops@.last()] + operations(rest.skip(width as int))) =~= ops@
                + operations(rest.skip(width as int)));
        }
        i = i + width;
    }
    if ops.len() == 0 {
        Err(CipherError::Specification)
    } else {
        Ok(ops)
    }
}

/// Whether two byte strings are the same.
pub fn same_bytes(a: &[u8], b: &[u8]) -> (same: bool)
    ensures
        same == (a@ == b@),
{
    if a.len() != b.len() {
        return false;
    }
    let mut i: usize = 0;
    while i < a.len()
        invariant
            a@.len() == b@.len(),
            i <= a@.len(),
            forall|j: int| 0 <= j < i ==> a@[j] == b@[j],
        decreases a@.len() - i,
    {
        if a[i] != b[i] {
            return false;
        }
        i = i + 1;
    }
    assert(a@ =~= b@);
    true
}

impl Cipher {
    /// Makes a cipher from its specification, at the start of both
    /// streams.
    pub fn new(bytes: &[u8]) -> (r: Result<Cipher, CipherError>)
        ensures
            match r {
                Ok(c) => c.cipher@ == operations(bytes@) && c.cipher@.len() > 0
                    && c.incoming_position == 0 && c.outgoing_position == 0,
                Err(e) => e == CipherError::Specification && operations(bytes@).len() == 0,
            },
    {
        match parse_cipher_spec(bytes) {
            Ok(operations) => Ok(
                Cipher { cipher: operations, incoming_position: 0, outgoing_position: 0 },
            ),
            Err(e) => Err(e),
        }
    }

    /// Moves the cipher to the given positions of the two streams.
    pub fn with_position(&mut self, incoming_position: usize, outgoing_position: usize)
        ensures
            final(self).cipher == old(self).cipher,
            final(self).incoming_position == incoming_position,
            final(self).outgoing_position == outgoing_position,
    {
        self.incoming_position = incoming_position;
        self.outgoing_position = outgoing_position;
    }

    /// Decodes the next byte of the incoming stream.
    pub fn decode_byte(&mut self, input: u8) -> (byte: u8)
        ensures
            byte == decoded(old(self).cipher@, input, low(old(self).incoming_position)),
            final(self).cipher == old(self).cipher,
            final(self).incoming_position == next(old(self).incoming_position),
            final(self).outgoing_position == old(self).outgoing_position,
    {
        let position: u8 = (self.incoming_position % 256) as u8;
        let mut byte = input;
        let mut i: usize = self.cipher.len();
        let ghost ops = self.cipher@;
        proof {
            assert(ops.take(i as int) =~= ops);
        }
        while i > 0
            invariant
                i <= ops.len(),
                ops == self.cipher@,
                decoded(ops, input, position) == decoded(ops.take(i as int), byte, position),
            decreases i,
        {
            i = i - 1;
            proof {
                assert(ops.take(i + 1).drop_last() =~= ops.take(i as int));
                assert(ops.take(i + 1).last() == ops[i as int]);
            }
            byte = match self.cipher[i] {
                Operation::ReverseBits => reverse_byte(byte),
                Operation::Xor { n } => byte ^ n,
                Operation::XorPosition => byte ^ position,
                Operation::Add { n } => byte.wrapping_sub(n),
                Operation::AddPosition => byte.wrapping_sub(position),
                Operation::CipherEnd => byte,
            };
        }
        self.incoming_position = if self.incoming_position == usize::MAX {
            0
        } else {
            self.incoming_position + 1
        };
        byte
    }

    /// Encodes the next byte of the outgoing stream.
    pub fn encode_byte(&mut self, byte: u8) -> (out: u8)
        ensures
            out == encoded(old(self).cipher@, byte, low(old(self).outgoing_position)),
            final(self).cipher == old(self).cipher,
            final(self).incoming_position == old(self).incoming_position,
            final(self).outgoing_position == next(old(self).outgoing_position),
    {
        let position: u8 = (self.outgoing_position % 256) as u8;
        let mut out = byte;
        let mut i: usize = 0;
        let ghost ops = self.cipher@;
        while i < self.cipher.len()
            invariant
                i <= ops.len(),
                ops == self.cipher@,
                out == encoded(ops.take(i as int), byte, position),
            decreases ops.len() - i,
        {
            proof {
                assert(ops.take(i + 1).drop_last() =~= ops.take(i as int));
                assert(ops.take(i + 1).last() == ops[i as int]);
            }
            out = match self.cipher[i] {
                Operation::ReverseBits => reverse_byte(out),
                Operation::Xor { n } => out ^ n,
                Operation::XorPosition => out ^ position,
                Operation::Add { n } => out.wrapping_add(n),
                Operation::AddPosition => out.wrapping_add(position),
                Operation::CipherEnd => out,
            };
            i = i + 1;
        }
        proof {
            assert(ops.take(i as int) =~= ops);
        }
        self.outgoing_position = if self.outgoing_position == usize::MAX {
            0
        } else {
            self.outgoing_position + 1
        };
        out
    }

    /// Encodes the next bytes of the outgoing stream. A cipher that leaves
    /// them all as they were is refused; the stream has moved on all the
    /// same.
    pub fn encode(&mut self, bytes: &[u8]) -> (r: Result<Vec<u8>, CipherError>)
        ensures
            final(self).cipher == old(self).cipher,
            final(self).incoming_position == old(self).incoming_position,
            final(self).outgoing_position == advanced(
                old(self).outgoing_position,
                bytes@.len(),
            ),
            match r {
                Ok(out) => out@ == encoded_stream(
                    old(self).cipher@,
                    bytes@,
                    old(self).outgoing_position,
                ) && out@ != bytes@,
                Err(e) => e == CipherError::NoEffect && encoded_stream(
                    old(self).cipher@,
                    bytes@,
                    old(self).outgoing_position,
                ) == bytes@,
            },
    {
        let ghost ops = self.cipher@;
        let ghost start = self.outgoing_position;
        let mut out: Vec<u8> = Vec::new();
        let mut i: usize = 0;
        while i < bytes.len()
            invariant
                i <= bytes@.len(),
                self.cipher == old(self).cipher,
                ops == self.cipher@,
                self.incoming_position == old(self).incoming_position,
                self.outgoing_position == advanced(start, i as nat),
                out@.len() == i,
                forall|j: int|
                    0 <= j < i ==> out@[j] == encoded(ops, bytes@[j], low(advanced(start, j as nat))),
            decreases bytes@.len() - i,
        {
            let b = self.encode_byte(bytes[i]);
            out.push(b);
            i = i + 1;
        }
        assert(out@ =~= encoded_stream(ops, bytes@, start));
        if same_bytes(out.as_slice(), bytes) {
            Err(CipherError::NoEffect)
        } else {
            Ok(out)
        }
    }

    /// Decodes the next bytes of the incoming stream. A cipher that leaves
    /// them all as they were is refused; the stream has moved on all the
    /// same.
    pub fn decode(&mut self, bytes: &[u8]) -> (r: Result<Vec<u8>, CipherError>)
        ensures
            final(self).cipher == old(self).cipher,
            final(self).outgoing_position == old(self).outgoing_position,
            final(self).incoming_position == advanced(
                old(self).incoming_position,
                bytes@.len(),
            ),
            match r {
                Ok(out) => out@ == decoded_stream(
                    old(self).cipher@,
                    bytes@,
                    old(self).incoming_position,
                ) && out@ != bytes@,
                Err(e) => e == CipherError::NoEffect && decoded_stream(
                    old(self).cipher@,
                    bytes@,
                    old(self).incoming_position,
                ) == bytes@,
            },
    {
        let ghost ops = self.cipher@;
        let ghost start = self.incoming_position;
        let mut out: Vec<u8> = Vec::new();
        let mut i: usize = 0;
        while i < bytes.len()
            invariant
                i <= bytes@.len(),
                self.cipher == old(self).cipher,
                ops == self.cipher@,
                self.outgoing_position == old(self).outgoing_position,
                self.incoming_position == advanced(start, i as nat),
                out@.len() == i,
                forall|j: int|
                    0 <= j < i ==> out@[j] == decoded(ops, bytes@[j], low(advanced(start, j as nat))),
            decreases bytes@.len() - i,
        {
            let b = self.decode_byte(bytes[i]);
            out.push(b);
            i = i + 1;
        }
        assert(out@ =~= decoded_stream(ops, bytes@, start));
        if same_bytes(out.as_slice(), bytes) {
            Err(CipherError::NoEffect)
        } else {
            Ok(out)
        }
    }
}

/// Each operation is undone by its inverse.
pub proof fn lemma_unapply_apply(op: Operation, b: u8, position: u8)
    ensures
        unapply(op, apply(op, b, position), position) == b,
        apply(op, unapply(op, b, position), position) == b,
{
    match op {
        Operation::ReverseBits => {
            assert(reverse_bits(reverse_bits(b)) == b) by (bit_vector);
        },
        Operation::Xor { n } => {
            assert((b ^ n) ^ n == b) by (bit_vector);
        },
        Operation::XorPosition => {
            assert((b ^ position) ^ position == b) by (bit_vector);
        },
        _ => {},
    }
}

/// Decoding undoes encoding, at the same position.
pub proof fn lemma_decoded_encoded(ops: Seq<Operation>, b: u8, position: u8)
    ensures
        decoded(ops, encoded(ops, b, position), position) == b,
    decreases ops.len(),
{
    if ops.len() > 0 {
        let inner = encoded(ops.drop_last(), b, position);
        lemma_unapply_apply(ops.last(), inner, position);
        lemma_decoded_encoded(ops.drop_last(), b, position);
    }
}

/// Decoding a stream undoes encoding it, from the same position on.
pub proof fn lemma_decoded_encoded_stream(ops: Seq<Operation>, bytes: Seq<u8>, position: usize)
    ensures
        decoded_stream(ops, encoded_stream(ops, bytes, position), position) == bytes,
{
    let sent = encoded_stream(ops, bytes, position);
    assert forall|i: int| 0 <= i < bytes.len() implies decoded_stream(ops, sent, position)[i]
        == bytes[i] by {
        lemma_decoded_encoded(ops, bytes[i], low(advanced(position, i as nat)));
    }
    assert(decoded_stream(ops, sent, position) =~= bytes);
}


} // verus!
