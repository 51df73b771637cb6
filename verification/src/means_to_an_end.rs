//! The price service: a client inserts prices by timestamp, and asks for
//! the mean price of a period.
use std::collections::BTreeMap;
use vstd::prelude::*;
use vstd::std_specs::btree::increasing_seq;
use vstd::std_specs::cmp::OrdSpec;
use vstd::std_specs::iter::IteratorSpec;

verus! {

/// One request of a client: nine bytes, of which the first says what the
/// two numbers after it mean.
#[derive(Debug, PartialEq, Eq, Clone, Copy, Structural)]
pub enum Message {
    /// The price at a time.
    Insert { timestamp: i32, price: i32 },
    /// The question for the mean price of the times `from..=to`.
    Query { from: i32, to: i32 },
    /// Anything else.
    Unknown,
}

/// The number that four bytes denote, most significant first, in two's
/// complement.
pub open spec fn be_i32(b0: u8, b1: u8, b2: u8, b3: u8) -> int {
    let unsigned = b0 * 0x100_0000 + b1 * 0x1_0000 + b2 * 0x100 + b3;
    if unsigned >= 0x8000_0000 {
        unsigned - 0x1_0000_0000
    } else {
        unsigned
    }
}

/// The request that nine bytes are: `I` starts an insertion, `Q` a query.
pub open spec fn message_of(bytes: Seq<u8>) -> Message {
    let first = be_i32(bytes[1], bytes[2], bytes[3], bytes[4]) as i32;
    let second = be_i32(bytes[5], bytes[6], bytes[7], bytes[8]) as i32;
    if bytes[0] == 0x49 {
        Message::Insert { timestamp: first, price: second }
    } else if bytes[0] == 0x51 {
        Message::Query { from: first, to: second }
    } else {
        Message::Unknown
    }
}

/// Reads four bytes as a number, most significant byte first.
pub fn read_i32(b0: u8, b1: u8, b2: u8, b3: u8) -> (n: i32)
    ensures
        n == be_i32(b0, b1, b2, b3),
{
    let unsigned: u32 = (b0 as u32) * 0x100_0000 + (b1 as u32) * 0x1_0000 + (b2 as u32) * 0x100 + (
    b3 as u32);
    if unsigned >= 0x8000_0000 {
        ((unsigned - 0x8000_0000) as i32) + i32::MIN
    } else {
        unsigned as i32
    }
}

impl TryFrom<[u8; 9]> for Message {
    type Error = core::convert::Infallible;

    /// Reads a request. This never fails: what is neither an insertion nor
    /// a query is [`Message::Unknown`].
    fn try_from(bytes: [u8; 9]) -> (r: Result<Message, core::convert::Infallible>)
        ensures
            r is Ok,
            r.unwrap() == message_of(bytes@),
    {
        let first = read_i32(bytes[1], bytes[2], bytes[3], bytes[4]);
        let second = read_i32(bytes[5], bytes[6], bytes[7], bytes[8]);
        if bytes[0] == 0x49 {
            Ok(Message::Insert { timestamp: first, price: second })
        } else if bytes[0] == 0x51 {
            Ok(Message::Query { from: first, to: second })
        } else {
            Ok(Message::Unknown)
        }
    }
}

impl vstd::std_specs::convert::TryFromSpecImpl<[u8; 9]> for Message {
    open spec fn obeys_try_from_spec() -> bool {
        true
    }

    open spec fn try_from_spec(bytes: [u8; 9]) -> Result<Message, core::convert::Infallible> {
        Ok(message_of(bytes@))
    }
}

/// The price at the time `t`, or nothing if none is known.
pub open spec fn price_at(prices: Map<i32, i32>, t: int) -> int {
    if i32::MIN <= t <= i32::MAX && prices.contains_key(t as i32) {
        prices[t as i32] as int
    } else {
        0
    }
}

/// Whether a price is known at the time `t`, as a number.
pub open spec fn known_at(prices: Map<i32, i32>, t: int) -> int {
    if i32::MIN <= t <= i32::MAX && prices.contains_key(t as i32) {
        1
    } else {
        0
    }
}

/// The sum of the prices of the times `low..=high`.
pub open spec fn total(prices: Map<i32, i32>, low: int, high: int) -> int
    decreases high - low + 1,
{
    if high < low {
        0
    } else {
        total(prices, low, high - 1) + price_at(prices, high)
    }
}

/// The number of prices of the times `low..=high`.
pub open spec fn count(prices: Map<i32, i32>, low: int, high: int) -> int
    decreases high - low + 1,
{
    if high < low {
        0
    } else {
        count(prices, low, high - 1) + known_at(prices, high)
    }
}

/// The quotient of `a` by `b`, rounded towards zero.
pub open spec fn quotient(a: int, b: int) -> int {
    if a >= 0 {
        a / b
    } else {
        -((-a) / b)
    }
}

/// The mean of the prices of the times `low..=high`, rounded towards zero;
/// zero where no price is known.
pub open spec fn mean(prices: Map<i32, i32>, low: int, high: int) -> int {
    if count(prices, low, high) == 0 {
        0
    } else {
        quotient(total(prices, low, high), count(prices, low, high))
    }
}

/// A period holds at most one price for each of its times, and their sum
/// is bounded accordingly.
pub proof fn lemma_bounds(prices: Map<i32, i32>, low: int, high: int)
    ensures
        0 <= count(prices, low, high),
        high >= low - 1 ==> count(prices, low, high) <= high - low + 1,
        -0x8000_0000 * count(prices, low, high) <= total(prices, low, high) <= 0x7fff_ffff * count(
            prices,
            low,
            high,
        ),
    decreases high - low + 1,
{
    if high >= low {
        lemma_bounds(prices, low, high - 1);
    }
}

/// Times without a price add nothing to a period.
pub proof fn lemma_skip(prices: Map<i32, i32>, low: int, a: int, b: int)
    requires
        a <= b,
        forall|t: i32| a < t <= b ==> !prices.contains_key(t),
    ensures
        total(prices, low, b) == total(prices, low, if a < low - 1 {
            low - 1
        } else {
            a
        }),
        count(prices, low, b) == count(prices, low, if a < low - 1 {
            low - 1
        } else {
            a
        }),
    decreases b - a,
{
    if b < low {
    } else if a < b {
        lemma_skip(prices, low, a, b - 1);
        if i32::MIN <= b <= i32::MAX {
            assert(!prices.contains_key(b as i32));
        }
    }
}

/// A time. It marks, for the prover, the times that a proof speaks of.
pub open spec fn known(t: i32) -> i32 {
    t
}

/// Times in increasing order, as a price list hands them out, are in the
/// order of the integers.
pub proof fn lemma_increasing(times: Seq<i32>)
    requires
        increasing_seq(times),
    ensures
        forall|i: int, j: int| 0 <= i < j < times.len() ==> times[i] < times[j],
{
    assert forall|i: int, j: int| 0 <= i < j < times.len() implies times[i] < times[j] by {
        assert(times[i].cmp_spec(&times[j]) is Less);
    }
}

/// The mean of numbers of 32 bits is a number of 32 bits.
pub proof fn lemma_quotient_fits(sum: int, n: int)
    requires
        n > 0,
        -0x8000_0000 * n <= sum <= 0x7fff_ffff * n,
    ensures
        -0x8000_0000 <= quotient(sum, n) <= 0x7fff_ffff,
{
    if sum >= 0 {
        assert(sum / n <= 0x7fff_ffff) by (nonlinear_arith)
            requires
                n > 0,
                0 <= sum <= 0x7fff_ffff * n,
        ;
        assert(sum / n >= 0) by (nonlinear_arith)
            requires
                n > 0,
                0 <= sum,
        ;
    } else {
        assert((-sum) / n <= 0x8000_0000) by (nonlinear_arith)
            requires
                n > 0,
                0 <= -sum <= 0x8000_0000 * n,
        ;
        assert((-sum) / n >= 0) by (nonlinear_arith)
            requires
                n > 0,
                0 <= -sum,
        ;
    }
}

/// The mean of the prices of the times `low..=high`, rounded towards zero:
/// zero where no price is known, and where `high` comes before `low`.
pub fn range_average(map: &BTreeMap<i32, i32>, low: i32, high: i32) -> (average: i32)
    ensures
        average == mean(map@, low as int, high as int),
{
    if high < low {
        return 0;
    }
    let ghost prices = map@;
    let mut sum: i64 = 0;
    let mut n: i64 = 0;
    let ghost mut done: int = low - 1;
    let ghost mut finished: bool = false;
    let entries = map.iter();
    proof {
        let all = entries.remaining();
        let times = all.map_values(|kv: (&i32, &i32)| *kv.0);
        lemma_increasing(times);
        assert forall|i: int, j: int| 0 <= i < j < all.len() implies *(#[trigger] all[i]).0 < *(
        #[trigger] all[j]).0 by {
            assert(times[i] < times[j]);
        }
    }
    for entry in it: entries
        invariant
            low <= high,
            prices == map@,
            forall|i: int, j: int|
                0 <= i < j < it.seq().len() ==> *(#[trigger] it.seq()[i]).0 < *(
                #[trigger] it.seq()[j]).0,
            forall|i: int|
                0 <= i < it.seq().len() ==> prices.contains_key(*(#[trigger] it.seq()[i]).0)
                    && prices[*it.seq()[i].0] == *it.seq()[i].1,
            forall|t: i32|
                prices.contains_key(t) ==> exists|i: int|
                    0 <= i < it.seq().len() && *(#[trigger] it.seq()[i]).0 == t,
            low - 1 <= done <= high,
            sum == total(prices, low as int, done),
            n == count(prices, low as int, done),
            forall|t: i32, j: int|
                done < t <= high && 0 <= j < it.index() ==> *(#[trigger] it.seq()[j]).0
                    != #[trigger] known(t),
            !finished ==> done == low - 1 || exists|j: int|
                0 <= j < it.index() && *(#[trigger] it.seq()[j]).0 == done,
            finished ==> done == high && exists|j: int|
                0 <= j < it.index() && *(#[trigger] it.seq()[j]).0 > high,
            it.index() == it.seq().len() ==> forall|u: i32|
                done < u <= high ==> !prices.contains_key(u),
    {
        let ghost i = it.index() as int;
        let ghost keys = it.seq();
        let t: i32 = *entry.0;
        let p: i32 = *entry.1;
        assert(*keys[i].0 == t && *keys[i].1 == p);
        if t >= low && t <= high {
            proof {
                if finished {
                    let j = choose|j: int| 0 <= j < i && *(#[trigger] keys[j]).0 > high;
                    assert(*keys[j].0 < *keys[i].0);
                }
                if done != low - 1 {
                    let j = choose|j: int| 0 <= j < i && *(#[trigger] keys[j]).0 == done;
                    assert(*keys[j].0 < *keys[i].0);
                }
                assert forall|u: i32| done < u <= t - 1 implies !prices.contains_key(u) by {
                    if prices.contains_key(u) {
                        let j = choose|j: int| 0 <= j < keys.len() && *(#[trigger] keys[j]).0 == u;
                        assert(known(u) == u);
                        if j > i {
                            assert(*keys[i].0 < *keys[j].0);
                        }
                    }
                }
                if done < t - 1 {
                    lemma_skip(prices, low as int, done, t - 1);
                }
                lemma_bounds(prices, low as int, t as int);
            }
            sum = sum + p as i64;
            n = n + 1;
            proof {
                done = t as int;
            }
        } else if t > high {
            proof {
                assert forall|u: i32| done < u <= high implies !prices.contains_key(u) by {
                    if prices.contains_key(u) {
                        let j = choose|j: int| 0 <= j < keys.len() && *(#[trigger] keys[j]).0 == u;
                        assert(known(u) == u);
                        if j > i {
                            assert(*keys[i].0 < *keys[j].0);
                        }
                    }
                }
                if done < high {
                    lemma_skip(prices, low as int, done, high as int);
                }
                done = high as int;
                finished = true;
            }
        }
        proof {
            assert forall|u: i32, j: int| done < u <= high && 0 <= j < i + 1 implies *(
            #[trigger] keys[j]).0 != #[trigger] known(u) by {}
            assert forall|u: i32| i + 1 == keys.len() && done < u <= high implies !prices.contains_key(
                u,
            ) by {
                if prices.contains_key(u) {
                    let j = choose|j: int| 0 <= j < keys.len() && *(#[trigger] keys[j]).0 == u;
                    assert(known(u) == u);
                }
            }
        }
    }
    proof {
        if done < high {
            lemma_skip(prices, low as int, done, high as int);
        }
        lemma_bounds(prices, low as int, high as int);
        if n > 0 {
            lemma_quotient_fits(sum as int, n as int);
        }
    }
    if n == 0 {
        0
    } else {
        (sum / n) as i32
    }
}

/// The four bytes of a number, most significant first, in two's complement.
pub open spec fn be_bytes(n: i32) -> Seq<u8> {
    let unsigned = if n < 0 {
        n + 0x1_0000_0000
    } else {
        n as int
    };
    seq![
        (unsigned / 0x100_0000) as u8,
        (unsigned / 0x1_0000 % 0x100) as u8,
        (unsigned / 0x100 % 0x100) as u8,
        (unsigned % 0x100) as u8,
    ]
}

/// The answer to what is no request: `Unknown` and a newline.
pub open spec fn unknown_reply() -> Seq<u8> {
    seq![0x55u8, 0x6e, 0x6b, 0x6e, 0x6f, 0x77, 0x6e, 0x0a]
}

/// What the service writes back for a request, given the prices that it
/// holds: the mean for a query, nothing for an insertion.
pub open spec fn reply_to(prices: Map<i32, i32>, message: Message) -> Seq<u8> {
    match message {
        Message::Insert { .. } => Seq::empty(),
        Message::Query { from, to } => be_bytes(mean(prices, from as int, to as int) as i32),
        Message::Unknown => unknown_reply(),
    }
}

/// The prices that the service holds after a request: an insertion sets
/// the price of its time, and takes the place of an earlier one.
pub open spec fn prices_after(prices: Map<i32, i32>, message: Message) -> Map<i32, i32> {
    match message {
        Message::Insert { timestamp, price } => prices.insert(timestamp, price),
        _ => prices,
    }
}

/// Writes a number as four bytes, most significant first.
pub fn write_i32(out: &mut Vec<u8>, n: i32)
    ensures
        final(out)@ == old(out)@ + be_bytes(n),
{
    let unsigned: u32 = if n < 0 {
        (n as i64 + 0x1_0000_0000) as u32
    } else {
        n as u32
    };
    out.push((unsigned / 0x100_0000) as u8);
    out.push((unsigned / 0x1_0000 % 0x100) as u8);
    out.push((unsigned / 0x100 % 0x100) as u8);
    out.push((unsigned % 0x100) as u8);
    assert(final(out)@ =~= old(out)@ + be_bytes(n));
}

/// Reading the four bytes of a number gives the number back.
pub proof fn lemma_read_write(n: i32)
    ensures
        be_i32(be_bytes(n)[0], be_bytes(n)[1], be_bytes(n)[2], be_bytes(n)[3]) == n,
{
}

/// Takes one request of a client: an insertion goes into the prices, and
/// what is to be written back comes out.
pub fn handle_request(db: &mut BTreeMap<i32, i32>, bytes: [u8; 9]) -> (reply: Vec<u8>)
    ensures
        final(db)@ == prices_after(old(db)@, message_of(bytes@)),
        reply@ == reply_to(old(db)@, message_of(bytes@)),
{
    let message = match Message::try_from(bytes) {
        Ok(message) => message,
        Err(_) => Message::Unknown,
    };
    let mut reply: Vec<u8> = Vec::new();
    match message {
        Message::Insert { timestamp, price } => {
            db.insert(timestamp, price);
        },
        Message::Query { from, to } => {
            let average = range_average(db, from, to);
            write_i32(&mut reply, average);
            assert(reply@ =~= be_bytes(average));
        },
        Message::Unknown => {
            reply.push(0x55);
            reply.push(0x6e);
            reply.push(0x6b);
            reply.push(0x6e);
            reply.push(0x6f);
            reply.push(0x77);
            reply.push(0x6e);
            reply.push(0x0a);
            assert(reply@ =~= unknown_reply());
        },
    }
    reply
}

} // verus!
