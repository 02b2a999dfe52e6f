//! The results that the injected library writes when the measured command ends.
//!
//! They are one message: the number of counters as 32 bits, then the delta of each counter as
//! 64 bits, all in the machine's byte order.

use vstd::prelude::*;

use crate::kpc::CounterSnapshot;

verus! {

/// The order in which a machine writes the bytes of a number.
#[derive(Debug, Clone, Copy, PartialEq, Eq, Structural)]
pub enum ByteOrder {
    /// The least significant byte first.
    Little,
    /// The most significant byte first.
    Big,
}

/// The number that bytes stand for, the least significant first.
pub open spec fn from_little(bytes: Seq<u8>) -> nat
    decreases bytes.len(),
{
    if bytes.len() == 0 {
        0
    } else {
        bytes[0] as nat + 256 * from_little(bytes.drop_first())
    }
}

/// The number that bytes stand for, the most significant first.
pub open spec fn from_big(bytes: Seq<u8>) -> nat
    decreases bytes.len(),
{
    if bytes.len() == 0 {
        0
    } else {
        256 * from_big(bytes.drop_last()) + bytes.last() as nat
    }
}

/// The number that bytes stand for.
pub open spec fn number_in(bytes: Seq<u8>, order: ByteOrder) -> nat {
    match order {
        ByteOrder::Little => from_little(bytes),
        ByteOrder::Big => from_big(bytes),
    }
}

/// 256 to the power of `k`: how many numbers `k` bytes can stand for.
pub open spec fn range_of(k: nat) -> nat
    decreases k,
{
    if k == 0 {
        1
    } else {
        256 * range_of((k - 1) as nat)
    }
}

proof fn lemma_range_grows(j: nat, k: nat)
    requires
        j <= k,
    ensures
        range_of(j) <= range_of(k),
    decreases k,
{
    if j < k {
        lemma_range_grows(j, (k - 1) as nat);
    }
}

proof fn lemma_range_values()
    ensures
        range_of(4) == 0x1_0000_0000,
        range_of(7) == 0x100_0000_0000_0000,
        range_of(8) == 0x1_0000_0000_0000_0000,
{
    reveal_with_fuel(range_of, 9);
}

proof fn lemma_number_in_range(bytes: Seq<u8>, order: ByteOrder)
    ensures
        number_in(bytes, order) < range_of(bytes.len()),
    decreases bytes.len(),
{
    if bytes.len() > 0 {
        match order {
            ByteOrder::Little => lemma_number_in_range(bytes.drop_first(), order),
            ByteOrder::Big => lemma_number_in_range(bytes.drop_last(), order),
        }
    }
}

/// Reads the number in `width` bytes from position `from` on.
fn read_number(bytes: &[u8], from: usize, width: usize, order: ByteOrder) -> (r: u64)
    requires
        width <= 8,
        from + width <= bytes@.len(),
    ensures
        r == number_in(bytes@.subrange(from as int, from + width), order),
        r < range_of(width as nat),
{
    let ghost part = bytes@.subrange(from as int, from + width);
    let end: usize = bytes.len();
    let mut r: u64 = 0;
    proof {
        lemma_range_values();
        lemma_number_in_range(part, order);
    }
    match order {
        ByteOrder::Little => {
            let mut i: usize = width;
            assert(part.skip(width as int) =~= Seq::empty());
            while i > 0
                invariant
                    width <= 8,
                    end == bytes@.len(),
                    from + width <= end,
                    part == bytes@.subrange(from as int, from + width),
                    i <= width,
                    r == from_little(part.skip(i as int)),
                    range_of(7) == 0x100_0000_0000_0000,
                decreases i,
            {
                i -= 1;
                proof {
                    let rest = part.skip(i + 1);
                    lemma_number_in_range(rest, ByteOrder::Little);
                    lemma_range_grows(rest.len(), 7);
                    assert(part.skip(i as int).drop_first() =~= rest);
                }
                r = bytes[from + i] as u64 + 256 * r;
            }
            assert(part.skip(0) =~= part);
        },
        ByteOrder::Big => {
            let mut i: usize = 0;
            assert(part.take(0) =~= Seq::empty());
            while i < width
                invariant
                    width <= 8,
                    end == bytes@.len(),
                    from + width <= end,
                    part == bytes@.subrange(from as int, from + width),
                    i <= width,
                    r == from_big(part.take(i as int)),
                    range_of(7) == 0x100_0000_0000_0000,
                decreases width - i,
            {
                proof {
                    let done = part.take(i as int);
                    lemma_number_in_range(done, ByteOrder::Big);
                    lemma_range_grows(done.len(), 7);
                    assert(part.take(i + 1).drop_last() =~= done);
                }
                r = 256 * r + bytes[from + i] as u64;
                i += 1;
            }
            assert(part.take(width as int) =~= part);
        },
    }
    r
}

/// How many counters a message announces; `None` if it is too short to say, or says none or
/// more than 16.
pub open spec fn announced(message: Seq<u8>, order: ByteOrder) -> Option<nat> {
    if message.len() < 4 {
        None
    } else {
        let n = number_in(message.subrange(0, 4), order);
        if n == 0 || n > 16 {
            None
        } else {
            Some(n)
        }
    }
}

/// The delta of counter `i` in a message.
pub open spec fn delta_at(message: Seq<u8>, order: ByteOrder, i: int) -> u64 {
    number_in(message.subrange(4 + 8 * i, 12 + 8 * i), order) as u64
}

/// The deltas in a message; `None` if it announces no count or ends before the last delta.
pub open spec fn deltas_in(message: Seq<u8>, order: ByteOrder) -> Option<Seq<u64>> {
    match announced(message, order) {
        Some(n) => if message.len() < 4 + 8 * n {
            None
        } else {
            Some(Seq::new(n, |i: int| delta_at(message, order, i)))
        },
        None => None,
    }
}

/// How many bytes follow the count in a message, given the bytes of the count.
pub fn payload_len(header: &[u8], order: ByteOrder) -> (r: Option<usize>)
    ensures
        r == (match announced(header@, order) {
            Some(n) => Some((8 * n) as usize),
            None => None,
        }),
{
    if header.len() < 4 {
        return None;
    }
    let n: u64 = read_number(header, 0, 4, order);
    if n == 0 || n > 16 {
        return None;
    }
    Some(8 * n as usize)
}

/// Read the per-process counter results from the message that holds them.
pub fn read_inject_results(message: &[u8], n_fixed: usize, order: ByteOrder) -> (r: Option<
    CounterSnapshot,
>)
    ensures
        match deltas_in(message@, order) {
            Some(values) => r matches Some(snap) && snap.values@ == values && snap.n_fixed
                == n_fixed,
            None => r is None,
        },
{
    let len: usize = match payload_len(message, order) {
        Some(len) => len,
        None => return None,
    };
    if message.len() - 4 < len {
        return None;
    }
    let n: usize = len / 8;
    let ghost want = Seq::new(n as nat, |i: int| delta_at(message@, order, i));
    let mut values: Vec<u64> = Vec::new();
    for i in 0..n
        invariant
            n <= 16,
            4 + 8 * n <= message@.len(),
            want == Seq::new(n as nat, |i: int| delta_at(message@, order, i)),
            values@ == want.take(i as int),
    {
        let value: u64 = read_number(message, 4 + 8 * i, 8, order);
        values.push(value);
        assert(value == want[i as int]);
        assert(want.take(i + 1) =~= want.take(i as int).push(value));
    }
    assert(want.take(n as int) =~= want);
    Some(CounterSnapshot { values, n_fixed })
}

/// The bytes of a number, the least significant first.
pub open spec fn to_little(n: nat, width: nat) -> Seq<u8>
    decreases width,
{
    if width == 0 {
        Seq::empty()
    } else {
        seq![(n % 256) as u8] + to_little(n / 256, (width - 1) as nat)
    }
}

/// The bytes of a number, the most significant first.
pub open spec fn to_big(n: nat, width: nat) -> Seq<u8>
    decreases width,
{
    if width == 0 {
        Seq::empty()
    } else {
        to_big(n / 256, (width - 1) as nat).push((n % 256) as u8)
    }
}

/// The bytes of a number.
pub open spec fn bytes_of(n: nat, width: nat, order: ByteOrder) -> Seq<u8> {
    match order {
        ByteOrder::Little => to_little(n, width),
        ByteOrder::Big => to_big(n, width),
    }
}

/// The bytes of deltas, one after another.
pub open spec fn payload(values: Seq<u64>, order: ByteOrder) -> Seq<u8>
    decreases values.len(),
{
    if values.len() == 0 {
        Seq::empty()
    } else {
        payload(values.drop_last(), order) + bytes_of(values.last() as nat, 8, order)
    }
}

/// The message that holds the given deltas.
pub open spec fn message_of(values: Seq<u64>, order: ByteOrder) -> Seq<u8> {
    bytes_of(values.len(), 4, order) + payload(values, order)
}

proof fn lemma_number_bytes(n: nat, width: nat, order: ByteOrder)
    requires
        n < range_of(width),
    ensures
        bytes_of(n, width, order).len() == width,
        number_in(bytes_of(n, width, order), order) == n,
    decreases width,
{
    if width > 0 {
        let rest = (width - 1) as nat;
        assert(n / 256 < range_of(rest));
        lemma_number_bytes(n / 256, rest, order);
        let all = bytes_of(n, width, order);
        match order {
            ByteOrder::Little => {
                assert(all.drop_first() =~= to_little(n / 256, rest));
            },
            ByteOrder::Big => {
                assert(all.drop_last() =~= to_big(n / 256, rest));
            },
        }
    }
}

proof fn lemma_payload(values: Seq<u64>, order: ByteOrder)
    ensures
        payload(values, order).len() == 8 * values.len(),
        forall|i: int|
            0 <= i < values.len() ==> payload(values, order).subrange(8 * i, 8 * i + 8)
                == bytes_of(#[trigger] values[i] as nat, 8, order),
    decreases values.len(),
{
    if values.len() > 0 {
        let init = values.drop_last();
        let last = values.len() - 1;
        lemma_range_values();
        lemma_payload(init, order);
        lemma_number_bytes(values.last() as nat, 8, order);
        let all = payload(values, order);
        assert forall|i: int| 0 <= i < values.len() implies all.subrange(8 * i, 8 * i + 8)
            == bytes_of(#[trigger] values[i] as nat, 8, order) by {
            if i < last {
                assert(init[i] == values[i]);
                assert(all.subrange(8 * i, 8 * i + 8) =~= payload(init, order).subrange(
                    8 * i,
                    8 * i + 8,
                ));
            } else {
                assert(all.subrange(8 * i, 8 * i + 8) =~= bytes_of(
                    values.last() as nat,
                    8,
                    order,
                ));
            }
        }
    }
}

/// What a message of 1 to 16 deltas was made of is read back from it, whatever follows it.
pub proof fn lemma_message_read_back(values: Seq<u64>, order: ByteOrder, rest: Seq<u8>)
    requires
        1 <= values.len() <= 16,
    ensures
        deltas_in(message_of(values, order) + rest, order) == Some(values),
{
    let head = bytes_of(values.len(), 4, order);
    let message = message_of(values, order) + rest;
    lemma_range_values();
    lemma_number_bytes(values.len(), 4, order);
    lemma_payload(values, order);
    assert(message.subrange(0, 4) =~= head);
    assert forall|i: int| 0 <= i < values.len() implies delta_at(message, order, i)
        == #[trigger] values[i] by {
        assert(message.subrange(4 + 8 * i, 12 + 8 * i) =~= payload(values, order).subrange(
            8 * i,
            8 * i + 8,
        ));
        lemma_number_bytes(values[i] as nat, 8, order);
    }
    assert(deltas_in(message, order)->Some_0 =~= values);
}

/// A message that breaks off is refused.
pub proof fn lemma_broken_message_refused(values: Seq<u64>, order: ByteOrder, k: int)
    requires
        1 <= values.len() <= 16,
        0 <= k < message_of(values, order).len(),
    ensures
        deltas_in(message_of(values, order).take(k), order) is None,
{
    let message = message_of(values, order);
    lemma_range_values();
    lemma_number_bytes(values.len(), 4, order);
    lemma_payload(values, order);
    if k >= 4 {
        assert(message.take(k).subrange(0, 4) =~= bytes_of(values.len(), 4, order));
    }
}

/// A message of no deltas, or of more than 16, is refused.
pub proof fn lemma_odd_count_refused(values: Seq<u64>, order: ByteOrder, rest: Seq<u8>)
    requires
        values.len() == 0 || 16 < values.len() < 0x1_0000_0000,
    ensures
        deltas_in(message_of(values, order) + rest, order) is None,
{
    let message = message_of(values, order) + rest;
    lemma_range_values();
    lemma_number_bytes(values.len(), 4, order);
    assert(message.subrange(0, 4) =~= bytes_of(values.len(), 4, order));
}

/// How the bytes of a message are read, the least significant of each number first: four bytes say
/// how many deltas there are, 1 to 16, and each eight bytes further on are one delta. A message
/// that says otherwise, or is too short for what it says, holds none.
pub proof fn lemma_bytes_of_little_messages(message: Seq<u8>, i: int)
    ensures
        message.len() < 4 ==> deltas_in(message, ByteOrder::Little) is None && announced(
            message,
            ByteOrder::Little,
        ) is None,
        message.len() >= 4 ==> {
            let n = message[0] + 0x100 * message[1] + 0x10000 * message[2] + 0x1000000 * message[3];
            let deltas = deltas_in(message, ByteOrder::Little);
            &&& announced(message, ByteOrder::Little) == (if 1 <= n <= 16 {
                Some(n as nat)
            } else {
                None
            })
            &&& n == 0 || n > 16 || message.len() < 4 + 8 * n ==> deltas is None
            &&& 1 <= n <= 16 && message.len() >= 4 + 8 * n ==> (deltas matches Some(values)
                && values.len() == n && (0 <= i < n ==> values[i] == message[4 + 8 * i + 0]
                + 0x100 * message[4 + 8 * i + 1]
                + 0x10000 * message[4 + 8 * i + 2]
                + 0x1000000 * message[4 + 8 * i + 3]
                + 0x100000000 * message[4 + 8 * i + 4]
                + 0x10000000000 * message[4 + 8 * i + 5]
                + 0x1000000000000 * message[4 + 8 * i + 6]
                + 0x100000000000000 * message[4 + 8 * i + 7]))
        },
{
    let order = ByteOrder::Little;
    if message.len() >= 4 {
        let head = message.subrange(0, 4);
        lemma_little_of_four(head);
        let n = number_in(head, order);
        if 1 <= n <= 16 && message.len() >= 4 + 8 * n && 0 <= i < n {
            let part = message.subrange(4 + 8 * i, 12 + 8 * i);
            lemma_little_of_eight(part);
            lemma_range_values();
            lemma_number_in_range(part, order);
        }
    }
}

proof fn lemma_little_of_four(b: Seq<u8>)
    requires
        b.len() == 4,
    ensures
        from_little(b) == b[0] + 0x100 * b[1] + 0x10000 * b[2] + 0x1000000 * b[3],
{
    reveal_with_fuel(from_little, 5);
    let (c, d, e) = (b.skip(1), b.skip(2), b.skip(3));
    assert(b.drop_first() =~= c && c.drop_first() =~= d && d.drop_first() =~= e);
    assert(e.drop_first() =~= Seq::empty());
}

proof fn lemma_little_of_eight(b: Seq<u8>)
    requires
        b.len() == 8,
    ensures
        from_little(b) == b[0] + 0x100 * b[1] + 0x10000 * b[2] + 0x1000000 * b[3] + 0x100000000
            * b[4] + 0x10000000000 * b[5] + 0x1000000000000 * b[6] + 0x100000000000000 * b[7],
{
    let rest = b.skip(4);
    lemma_little_of_four(rest);
    reveal_with_fuel(from_little, 5);
    let (c, d, e) = (b.skip(1), b.skip(2), b.skip(3));
    assert(b.drop_first() =~= c && c.drop_first() =~= d && d.drop_first() =~= e);
    assert(e.drop_first() =~= rest);
    assert(from_little(e) == b[3] + 256 * from_little(rest));
    assert(from_little(d) == b[2] + 256 * from_little(e));
    assert(from_little(c) == b[1] + 256 * from_little(d));
}

/// How the bytes of a message are read, the most significant of each number first: four bytes say
/// how many deltas there are, 1 to 16, and each eight bytes further on are one delta. A message
/// that says otherwise, or is too short for what it says, holds none.
pub proof fn lemma_bytes_of_big_messages(message: Seq<u8>, i: int)
    ensures
        message.len() < 4 ==> deltas_in(message, ByteOrder::Big) is None && announced(
            message,
            ByteOrder::Big,
        ) is None,
        message.len() >= 4 ==> {
            let n = 0x1000000 * message[0] + 0x10000 * message[1] + 0x100 * message[2] + message[3];
            let deltas = deltas_in(message, ByteOrder::Big);
            &&& announced(message, ByteOrder::Big) == (if 1 <= n <= 16 {
                Some(n as nat)
            } else {
                None
            })
            &&& n == 0 || n > 16 || message.len() < 4 + 8 * n ==> deltas is None
            &&& 1 <= n <= 16 && message.len() >= 4 + 8 * n ==> (deltas matches Some(values)
                && values.len() == n && (0 <= i < n ==> values[i] == 0x100000000000000 * message[4 + 8 * i + 0]
                + 0x1000000000000 * message[4 + 8 * i + 1]
                + 0x10000000000 * message[4 + 8 * i + 2]
                + 0x100000000 * message[4 + 8 * i + 3]
                + 0x1000000 * message[4 + 8 * i + 4]
                + 0x10000 * message[4 + 8 * i + 5]
                + 0x100 * message[4 + 8 * i + 6]
                + message[4 + 8 * i + 7]))
        },
{
    let order = ByteOrder::Big;
    if message.len() >= 4 {
        let head = message.subrange(0, 4);
        lemma_big_of_four(head);
        let n = number_in(head, order);
        if 1 <= n <= 16 && message.len() >= 4 + 8 * n && 0 <= i < n {
            let part = message.subrange(4 + 8 * i, 12 + 8 * i);
            lemma_big_of_eight(part);
            lemma_range_values();
            lemma_number_in_range(part, order);
        }
    }
}

proof fn lemma_big_of_four(b: Seq<u8>)
    requires
        b.len() == 4,
    ensures
        from_big(b) == 0x1000000 * b[0] + 0x10000 * b[1] + 0x100 * b[2] + b[3],
{
    let (c, d, e) = (b.take(3), b.take(2), b.take(1));
    assert(b.drop_last() =~= c && c.drop_last() =~= d && d.drop_last() =~= e);
    assert(e.drop_last() =~= Seq::empty());
    assert(from_big(e.drop_last()) == 0);
    assert(from_big(e) == b[0]);
    assert(from_big(d) == 256 * from_big(e) + b[1]);
    assert(from_big(c) == 256 * from_big(d) + b[2]);
}

proof fn lemma_big_of_eight(b: Seq<u8>)
    requires
        b.len() == 8,
    ensures
        from_big(b) == 0x100000000000000 * b[0] + 0x1000000000000 * b[1] + 0x10000000000 * b[2]
            + 0x100000000 * b[3] + 0x1000000 * b[4] + 0x10000 * b[5] + 0x100 * b[6] + b[7],
{
    let rest = b.take(4);
    lemma_big_of_four(rest);
    let (c, d, e) = (b.take(7), b.take(6), b.take(5));
    assert(b.drop_last() =~= c && c.drop_last() =~= d && d.drop_last() =~= e);
    assert(e.drop_last() =~= rest);
    assert(from_big(e) == 256 * from_big(rest) + b[4]);
    assert(from_big(d) == 256 * from_big(e) + b[5]);
    assert(from_big(c) == 256 * from_big(d) + b[6]);
}

} // verus!
