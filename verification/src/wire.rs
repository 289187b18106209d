//! How integers are laid out in bytes.

use vstd::arithmetic::div_mod::lemma_div_denominator;
use vstd::arithmetic::power::{lemma_pow_positive, pow};
use vstd::prelude::*;

verus! {

/// The width of an unsigned integer.
#[derive(Debug, Clone, Copy, PartialEq, Eq, Structural)]
pub enum Width {
    U8,
    U16,
    U32,
    U64,
}

/// How integers wider than a byte are encoded.
#[derive(Debug, Clone, Copy, PartialEq, Eq, Structural)]
pub enum Encoding {
    /// In as many bytes as they are wide, the least significant first.
    Fixed,
    /// In fewer bytes where they are small: in one byte below 251, else in the least of 2, 4
    /// and 8 bytes behind one that says how many they are.
    Varint,
}

/// Why a value cannot be read.
#[derive(Debug, Clone, Copy, PartialEq, Eq, Structural)]
pub enum ReadError {
    /// There are too few bytes.
    UnexpectedEnd,
    /// This byte begins no integer of the width.
    InvalidInteger(u8),
    /// This byte is no `bool`.
    InvalidBool(u8),
    /// This byte says neither that there is a value nor that there is none.
    InvalidTag(u8),
    /// There is no context, or it has been used up.
    MissingContext,
    /// Values of the type can only be written.
    Unreadable,
}

/// The least first byte of an integer in more than one byte.
pub const MARKER_2: u8 = 251;

/// The first byte of an integer in four bytes more.
pub const MARKER_4: u8 = 252;

/// The first byte of an integer in eight bytes more.
pub const MARKER_8: u8 = 253;

/// The number of bytes of an integer of the width.
pub open spec fn bytes_of(width: Width) -> nat {
    match width {
        Width::U8 => 1,
        Width::U16 => 2,
        Width::U32 => 4,
        Width::U64 => 8,
    }
}

/// 256 to the power of `count`: how many numbers `count` bytes can hold.
pub open spec fn capacity(count: nat) -> nat
    decreases count,
{
    if count == 0 {
        1
    } else {
        256 * capacity((count - 1) as nat)
    }
}

/// The `count` least significant bytes of `n`, the least first.
pub open spec fn le_bytes(n: nat, count: nat) -> Seq<u8>
    decreases count,
{
    if count == 0 {
        seq![]
    } else {
        seq![(n % 256) as u8] + le_bytes(n / 256, (count - 1) as nat)
    }
}

/// The number that bytes hold, the least significant first.
pub open spec fn le_value(bytes: Seq<u8>) -> nat
    decreases bytes.len(),
{
    if bytes.len() == 0 {
        0
    } else {
        bytes[0] as nat + 256 * le_value(bytes.skip(1))
    }
}

/// Whether integers of the width are always encoded in as many bytes as they are wide.
pub open spec fn is_fixed(width: Width, encoding: Encoding) -> bool {
    width == Width::U8 || encoding == Encoding::Fixed
}

/// The bytes of an integer.
pub open spec fn int_bytes(n: nat, width: Width, encoding: Encoding) -> Seq<u8> {
    if is_fixed(width, encoding) {
        le_bytes(n, bytes_of(width))
    } else if n < MARKER_2 {
        seq![n as u8]
    } else if n < capacity(2) {
        seq![MARKER_2] + le_bytes(n, 2)
    } else if n < capacity(4) {
        seq![MARKER_4] + le_bytes(n, 4)
    } else {
        seq![MARKER_8] + le_bytes(n, 8)
    }
}

/// How many bytes follow the first one of an integer in several bytes; `None` where it is not
/// the first one of an integer of the width.
pub open spec fn payload(marker: u8, width: Width) -> Option<nat> {
    let count: nat = if marker == MARKER_2 {
        2
    } else if marker == MARKER_4 {
        4
    } else {
        8
    };
    if marker < MARKER_2 || marker > MARKER_8 || count > bytes_of(width) {
        None
    } else {
        Some(count)
    }
}

/// The integer in `count` bytes at a position.
pub open spec fn le_at(buffer: Seq<u8>, pos: int, count: nat) -> (int, Result<nat, ReadError>) {
    if pos + count <= buffer.len() {
        (pos + count, Ok(le_value(buffer.subrange(pos, pos + count))))
    } else {
        (pos, Err(ReadError::UnexpectedEnd))
    }
}

/// The integer at a position.
pub open spec fn int_at(buffer: Seq<u8>, pos: int, width: Width, encoding: Encoding) -> (
    int,
    Result<nat, ReadError>,
) {
    if is_fixed(width, encoding) {
        le_at(buffer, pos, bytes_of(width))
    } else if pos >= buffer.len() {
        (pos, Err(ReadError::UnexpectedEnd))
    } else if buffer[pos] < MARKER_2 {
        (pos + 1, Ok(buffer[pos] as nat))
    } else {
        match payload(buffer[pos], width) {
            Some(count) => le_at(buffer, pos + 1, count),
            None => (pos + 1, Err(ReadError::InvalidInteger(buffer[pos]))),
        }
    }
}

/// As many numbers fit the bytes of a width as it has.
pub(crate) proof fn lemma_capacities()
    ensures
        capacity(1) == 0x100,
        capacity(2) == 0x1_0000,
        capacity(4) == 0x1_0000_0000,
        capacity(8) == 0x1_0000_0000_0000_0000,
{
    reveal_with_fuel(capacity, 9);
}

/// The number of bytes is the one asked for.
pub(crate) proof fn lemma_le_bytes_len(n: nat, count: nat)
    ensures
        le_bytes(n, count).len() == count,
    decreases count,
{
    if count > 0 {
        lemma_le_bytes_len(n / 256, (count - 1) as nat);
    }
}

/// Bytes hold a number below their capacity.
pub(crate) proof fn lemma_le_value_bound(bytes: Seq<u8>)
    ensures
        le_value(bytes) < capacity(bytes.len()),
    decreases bytes.len(),
{
    if bytes.len() > 0 {
        lemma_le_value_bound(bytes.skip(1));
    }
}

/// Bytes hold the number that they were made of.
pub(crate) proof fn lemma_le_round_trip(n: nat, count: nat)
    requires
        n < capacity(count),
    ensures
        le_bytes(n, count).len() == count,
        le_value(le_bytes(n, count)) == n,
    decreases count,
{
    lemma_le_bytes_len(n, count);
    if count > 0 {
        let rest = (count - 1) as nat;
        assert(n / 256 < capacity(rest)) by (nonlinear_arith)
            requires
                n < 256 * capacity(rest),
        ;
        lemma_le_round_trip(n / 256, rest);
        assert(le_bytes(n, count).skip(1) =~= le_bytes(n / 256, rest));
    }
}

/// An integer is read back from its bytes, wherever they stand.
pub proof fn integers_are_read_back(
    n: nat,
    width: Width,
    encoding: Encoding,
    buffer: Seq<u8>,
    pos: int,
)
    requires
        n < capacity(bytes_of(width)),
        0 <= pos,
        pos + int_bytes(n, width, encoding).len() <= buffer.len(),
        buffer.subrange(pos, pos + int_bytes(n, width, encoding).len()) == int_bytes(
            n,
            width,
            encoding,
        ),
    ensures
        int_at(buffer, pos, width, encoding) == (
            pos + int_bytes(n, width, encoding).len(),
            Ok::<nat, ReadError>(n),
        ),
{
    lemma_capacities();
    let bytes = int_bytes(n, width, encoding);
    if is_fixed(width, encoding) {
        lemma_le_round_trip(n, bytes_of(width));
    } else {
        assert(bytes[0] == buffer[pos]);
        if n >= MARKER_2 {
            let count: nat = if n < capacity(2) {
                2
            } else if n < capacity(4) {
                4
            } else {
                8
            };
            lemma_le_round_trip(n, count);
            assert(bytes.skip(1) =~= le_bytes(n, count));
            assert(buffer.subrange(pos + 1, pos + 1 + count) =~= bytes.skip(1));
        }
    }
}

/// An integer takes at least one byte and at most nine, and exactly its width where it is
/// fixed.
pub(crate) proof fn lemma_int_bytes_len(n: nat, width: Width, encoding: Encoding)
    ensures
        1 <= int_bytes(n, width, encoding).len() <= 9,
        is_fixed(width, encoding) ==> int_bytes(n, width, encoding).len() == bytes_of(width),
{
    lemma_le_bytes_len(n, bytes_of(width));
    lemma_le_bytes_len(n, 2);
    lemma_le_bytes_len(n, 4);
    lemma_le_bytes_len(n, 8);
}

impl Width {
    /// The number of bytes of an integer of the width.
    pub fn bytes(&self) -> (count: usize)
        ensures
            count == bytes_of(*self),
    {
        match self {
            Width::U8 => 1,
            Width::U16 => 2,
            Width::U32 => 4,
            Width::U64 => 8,
        }
    }

    /// Whether integers of the width are always encoded in as many bytes as they are wide.
    pub fn is_fixed(&self, encoding: Encoding) -> (fixed: bool)
        ensures
            fixed == is_fixed(*self, encoding),
    {
        match (self, encoding) {
            (Width::U8, _) => true,
            (_, Encoding::Fixed) => true,
            _ => false,
        }
    }

    /// Whether the width can hold the number.
    pub fn holds(&self, n: u64) -> (holds: bool)
        ensures
            holds == (n < capacity(bytes_of(*self))),
    {
        proof {
            lemma_capacities();
        }
        match self {
            Width::U8 => n <= 0xff,
            Width::U16 => n <= 0xffff,
            Width::U32 => n <= 0xffff_ffff,
            Width::U64 => true,
        }
    }
}

/// Appends the `count` least significant bytes of `n`, the least first.
fn put_le(n: u64, count: usize, out: &mut Vec<u8>)
    ensures
        final(out)@ == old(out)@ + le_bytes(n as nat, count as nat),
{
    let mut rest: u64 = n;
    let mut left: usize = count;
    while left > 0
        invariant
            out@ + le_bytes(rest as nat, left as nat) =~= old(out)@ + le_bytes(
                n as nat,
                count as nat,
            ),
        decreases left,
    {
        out.push((rest % 256) as u8);
        rest = rest / 256;
        left -= 1;
    }
}

/// Appends the bytes of an integer.
pub fn put_int(n: u64, width: Width, encoding: Encoding, out: &mut Vec<u8>)
    ensures
        final(out)@ == old(out)@ + int_bytes(n as nat, width, encoding),
{
    proof {
        lemma_capacities();
    }
    if width.is_fixed(encoding) {
        put_le(n, width.bytes(), out);
    } else if n < MARKER_2 as u64 {
        out.push(n as u8);
    } else if n <= 0xffff {
        out.push(MARKER_2);
        put_le(n, 2, out);
        assert(out@ =~= old(out)@ + (seq![MARKER_2] + le_bytes(n as nat, 2)));
    } else if n <= 0xffff_ffff {
        out.push(MARKER_4);
        put_le(n, 4, out);
        assert(out@ =~= old(out)@ + (seq![MARKER_4] + le_bytes(n as nat, 4)));
    } else {
        out.push(MARKER_8);
        put_le(n, 8, out);
        assert(out@ =~= old(out)@ + (seq![MARKER_8] + le_bytes(n as nat, 8)));
    }
}

/// The integer in at most eight bytes at a position, and the position behind it.
fn take_le(buffer: &[u8], pos: usize, count: usize) -> (read: (usize, Result<u64, ReadError>))
    requires
        pos <= buffer@.len(),
        count <= 8,
    ensures
        read.0 == le_at(buffer@, pos as int, count as nat).0,
        is_int(read.1, le_at(buffer@, pos as int, count as nat).1),
{
    if count > buffer.len() - pos {
        return (pos, Err(ReadError::UnexpectedEnd));
    }
    let end: usize = pos + count;
    let mut n: u64 = 0;
    let mut i: usize = end;
    assert(buffer@.subrange(end as int, end as int) =~= seq![]);
    while i > pos
        invariant
            pos <= i <= end <= buffer@.len(),
            end - pos <= 8,
            n == le_value(buffer@.subrange(i as int, end as int)),
        decreases i,
    {
        let ghost part = buffer@.subrange(i - 1, end as int);
        proof {
            lemma_capacities();
            lemma_le_value_bound(part);
            lemma_capacity_grows(part.len(), 8);
            assert(part.skip(1) =~= buffer@.subrange(i as int, end as int));
        }
        i -= 1;
        n = n * 256 + buffer[i] as u64;
    }
    (end, Ok(n))
}

proof fn lemma_capacity_grows(count: nat, more: nat)
    requires
        count <= more,
    ensures
        1 <= capacity(count) <= capacity(more),
    decreases more,
{
    if count < more {
        lemma_capacity_grows(count, (more - 1) as nat);
    } else if count > 0 {
        lemma_capacity_grows((count - 1) as nat, (count - 1) as nat);
    }
}

/// Whether an integer was read as it should be.
pub open spec fn is_int(read: Result<u64, ReadError>, expected: Result<nat, ReadError>) -> bool {
    match (read, expected) {
        (Ok(n), Ok(m)) => n == m,
        (Err(error), Err(wanted)) => error == wanted,
        _ => false,
    }
}

/// The integer at a position, and the position behind it.
pub fn take_int(buffer: &[u8], pos: usize, width: Width, encoding: Encoding) -> (read: (
    usize,
    Result<u64, ReadError>,
))
    requires
        pos <= buffer@.len(),
    ensures
        read.0 == int_at(buffer@, pos as int, width, encoding).0,
        is_int(read.1, int_at(buffer@, pos as int, width, encoding).1),
{
    if width.is_fixed(encoding) {
        return take_le(buffer, pos, width.bytes());
    }
    if pos >= buffer.len() {
        return (pos, Err(ReadError::UnexpectedEnd));
    }
    let marker: u8 = buffer[pos];
    if marker < MARKER_2 {
        return (pos + 1, Ok(marker as u64));
    }
    let count: usize = if marker == MARKER_2 {
        2
    } else if marker == MARKER_4 {
        4
    } else {
        8
    };
    if marker > MARKER_8 || count > width.bytes() {
        return (pos + 1, Err(ReadError::InvalidInteger(marker)));
    }
    take_le(buffer, pos + 1, count)
}

/// An integer that is read stands between the positions, and fits its width.
pub(crate) proof fn lemma_int_at(buffer: Seq<u8>, pos: int, width: Width, encoding: Encoding)
    requires
        0 <= pos <= buffer.len(),
    ensures
        pos <= int_at(buffer, pos, width, encoding).0 <= buffer.len(),
        int_at(buffer, pos, width, encoding).1 is Ok ==> pos < int_at(
            buffer,
            pos,
            width,
            encoding,
        ).0,
        is_fixed(width, encoding) && int_at(buffer, pos, width, encoding).1 is Ok ==> int_at(
            buffer,
            pos,
            width,
            encoding,
        ).0 == pos + bytes_of(width),
        int_at(buffer, pos, width, encoding).1 matches Ok(n) ==> n < capacity(bytes_of(width)),
{
    lemma_capacities();
    if is_fixed(width, encoding) {
        if pos + bytes_of(width) <= buffer.len() {
            lemma_le_value_bound(buffer.subrange(pos, pos + bytes_of(width)));
        }
    } else if pos < buffer.len() && buffer[pos] >= MARKER_2 {
        if let Some(count) = payload(buffer[pos], width) {
            if pos + 1 + count <= buffer.len() {
                lemma_le_value_bound(buffer.subrange(pos + 1, pos + 1 + count));
                lemma_capacity_grows(count, bytes_of(width));
            }
        }
    } else {
        lemma_capacity_grows(1, bytes_of(width));
    }
}

/// The widths are those of one, two, four and eight bytes, and `count` bytes hold 256 to the
/// power of `count` numbers.
pub proof fn bytes_hold_powers_of_256(count: nat)
    ensures
        bytes_of(Width::U8) == 1,
        bytes_of(Width::U16) == 2,
        bytes_of(Width::U32) == 4,
        bytes_of(Width::U64) == 8,
        capacity(count) == pow(256, count),
    decreases count,
{
    reveal(pow);
    if count > 0 {
        bytes_hold_powers_of_256((count - 1) as nat);
    }
}

/// The byte at `k` is the digit of the number at `k`, counted from the least significant one in
/// the system of base 256.
pub proof fn bytes_are_digits(n: nat, count: nat, k: int)
    requires
        0 <= k < count,
    ensures
        le_bytes(n, count).len() == count,
        le_bytes(n, count)[k] == (n as int / pow(256, k as nat)) % 256,
    decreases count,
{
    lemma_le_bytes_len(n, count);
    lemma_le_bytes_len(n / 256, (count - 1) as nat);
    reveal(pow);
    if k == 0 {
        assert(le_bytes(n, count)[0] == (n % 256) as u8);
        assert(pow(256, 0) == 1);
        assert(n as int / 1 == n) by (nonlinear_arith);
    } else {
        bytes_are_digits(n / 256, (count - 1) as nat, k - 1);
        let power = pow(256, (k - 1) as nat);
        lemma_pow_positive(256, (k - 1) as nat);
        assert(pow(256, k as nat) == 256 * power);
        lemma_div_denominator(n as int, 256, power);
        assert(le_bytes(n, count)[k] == le_bytes(n / 256, (count - 1) as nat)[k - 1]);
    }
}

/// Bytes are those of the number that they hold: what is read of them is written as them.
pub proof fn bytes_are_those_of_their_number(bytes: Seq<u8>)
    ensures
        le_value(bytes) < capacity(bytes.len()),
        le_bytes(le_value(bytes), bytes.len()) == bytes,
    decreases bytes.len(),
{
    lemma_le_value_bound(bytes);
    if bytes.len() > 0 {
        let rest = bytes.skip(1);
        let n = le_value(bytes);
        bytes_are_those_of_their_number(rest);
        assert(n % 256 == bytes[0] as nat && n / 256 == le_value(rest));
        assert(le_bytes(n, bytes.len()) =~= seq![bytes[0]] + rest);
        assert(seq![bytes[0]] + rest =~= bytes);
    } else {
        assert(le_bytes(0, 0) =~= bytes);
    }
}

/// A byte, and any integer where the encoding is fixed, takes as many bytes as it is wide. Else
/// it takes one byte below 251, and from there on a byte that says how many follow: 251 for two,
/// 252 for four and 253 for eight, and as few as hold it.
pub proof fn integers_take_as_few_bytes_as_they_may(n: nat, width: Width)
    ensures
        int_bytes(n, width, Encoding::Fixed) == le_bytes(n, bytes_of(width)),
        int_bytes(n, Width::U8, Encoding::Varint) == le_bytes(n, 1),
        width != Width::U8 ==> int_bytes(n, width, Encoding::Varint) == if n < 251 {
            le_bytes(n, 1)
        } else if n < 0x1_0000 {
            seq![251u8] + le_bytes(n, 2)
        } else if n < 0x1_0000_0000 {
            seq![252u8] + le_bytes(n, 4)
        } else {
            seq![253u8] + le_bytes(n, 8)
        },
{
    lemma_capacities();
    reveal_with_fuel(le_bytes, 2);
    assert(seq![(n % 256) as u8] + Seq::<u8>::empty() =~= seq![(n % 256) as u8]);
}

/// An integer of fixed width is read if there are as many bytes as it is wide, and it is the one
/// whose bytes they are; else nothing is read.
pub proof fn fixed_integers_are_those_of_their_bytes(
    buffer: Seq<u8>,
    pos: int,
    width: Width,
    encoding: Encoding,
)
    requires
        0 <= pos <= buffer.len(),
        encoding == Encoding::Fixed || width == Width::U8,
    ensures
        ({
            let (next, read) = int_at(buffer, pos, width, encoding);
            let count = bytes_of(width);
            if pos + count <= buffer.len() {
                &&& next == pos + count
                &&& read matches Ok(n) && le_bytes(n, count) == buffer.subrange(pos, next)
                    && n < pow(256, count)
            } else {
                next == pos && read == Err::<nat, ReadError>(ReadError::UnexpectedEnd)
            }
        }),
{
    let count = bytes_of(width);
    if pos + count <= buffer.len() {
        bytes_are_those_of_their_number(buffer.subrange(pos, pos + count));
        bytes_hold_powers_of_256(count);
    }
}

/// An integer of variable width is its first byte if that is below 251. Else that byte says how
/// many follow; where they are more than the integer is wide it is no integer, and nothing is
/// read but that byte.
pub proof fn variable_integers_are_those_of_their_bytes(buffer: Seq<u8>, pos: int, width: Width)
    requires
        0 <= pos <= buffer.len(),
        width != Width::U8,
    ensures
        ({
            let (next, read) = int_at(buffer, pos, width, Encoding::Varint);
            if pos == buffer.len() {
                next == pos && read == Err::<nat, ReadError>(ReadError::UnexpectedEnd)
            } else {
                let first = buffer[pos];
                let count: nat = if first == 251 {
                    2
                } else if first == 252 {
                    4
                } else {
                    8
                };
                if first < 251 {
                    next == pos + 1 && read == Ok::<nat, ReadError>(first as nat)
                } else if first > 253 || count > bytes_of(width) {
                    next == pos + 1 && read == Err::<nat, ReadError>(
                        ReadError::InvalidInteger(first),
                    )
                } else if pos + 1 + count <= buffer.len() {
                    &&& next == pos + 1 + count
                    &&& read matches Ok(n) && le_bytes(n, count) == buffer.subrange(pos + 1, next)
                        && n < pow(256, count)
                } else {
                    next == pos + 1 && read == Err::<nat, ReadError>(ReadError::UnexpectedEnd)
                }
            }
        }),
{
    if pos < buffer.len() && buffer[pos] >= 251 {
        if let Some(count) = payload(buffer[pos], width) {
            if pos + 1 + count <= buffer.len() {
                bytes_are_those_of_their_number(buffer.subrange(pos + 1, pos + 1 + count));
                bytes_hold_powers_of_256(count);
            }
        }
    }
}

/// A result is that of reading an integer exactly if it is the number that is read, or the
/// reason for which none is.
pub proof fn results_say_which_integer_is_read(
    read: Result<u64, ReadError>,
    expected: Result<nat, ReadError>,
)
    ensures
        is_int(read, expected) <==> match expected {
            Ok(m) => read matches Ok(n) && n == m,
            Err(wanted) => read matches Err(error) && error == wanted,
        },
{
}

} // verus!
