//! The wire types of SSH: `byte`, `boolean`, `uint32`, `uint64`, `string` and `mpint`
//! (RFC 4251 section 5). A [`Writer`] lays a message out, a [`Reader`] takes one apart; what
//! each field looks like on the wire is said once, as a function on byte sequences.

use vstd::prelude::*;

use crate::error::Error;

verus! {

/// A `uint32`: four bytes, the most significant first.
pub open spec fn be32(n: u32) -> Seq<u8> {
    seq![
        (n / 0x100_0000) as u8,
        (n / 0x1_0000 % 0x100) as u8,
        (n / 0x100 % 0x100) as u8,
        (n % 0x100) as u8,
    ]
}

/// A `uint64`: eight bytes, the most significant first.
pub open spec fn be64(n: u64) -> Seq<u8> {
    be32((n / 0x1_0000_0000) as u32) + be32((n % 0x1_0000_0000) as u32)
}

/// The number that four bytes stand for, the most significant first.
pub open spec fn from_be32(s: Seq<u8>) -> u32 {
    (s[0] * 0x100_0000 + s[1] * 0x1_0000 + s[2] * 0x100 + s[3]) as u32
}

/// The number that eight bytes stand for, the most significant first.
pub open spec fn from_be64(s: Seq<u8>) -> u64 {
    (from_be32(s.take(4)) * 0x1_0000_0000 + from_be32(s.skip(4))) as u64
}

/// A length as a `uint32` holds it: itself, or the largest there is.
pub open spec fn length32(n: nat) -> u32 {
    if n <= u32::MAX {
        n as u32
    } else {
        u32::MAX
    }
}

/// A `boolean`: one byte, one or zero.
pub open spec fn boolean(b: bool) -> Seq<u8> {
    seq![
        if b {
            1u8
        } else {
            0u8
        },
    ]
}

/// A `string`: its length as a `uint32`, then its bytes.
pub open spec fn string(s: Seq<u8>) -> Seq<u8> {
    be32(length32(s.len())) + s
}

/// What a run of pieces comes to when they are joined.
pub open spec fn joined(pieces: Seq<Seq<u8>>) -> Seq<u8>
    decreases pieces.len(),
{
    if pieces.len() == 0 {
        Seq::empty()
    } else {
        pieces[0] + joined(pieces.skip(1))
    }
}

/// `s` without its leading zero bytes.
pub open spec fn significant(s: Seq<u8>) -> Seq<u8>
    decreases s.len(),
{
    if s.len() > 0 && s[0] == 0 {
        significant(s.drop_first())
    } else {
        s
    }
}

/// The bytes of an `mpint` that holds the unsigned big-endian number `s`: no leading zero
/// byte, but for the one that keeps the number from reading as a negative one.
pub open spec fn mpint_bytes(s: Seq<u8>) -> Seq<u8> {
    let m = significant(s);
    if m.len() > 0 && m[0] >= 0x80 {
        seq![0u8] + m
    } else {
        m
    }
}

/// An `mpint` that holds the unsigned big-endian number `s`.
pub open spec fn mpint(s: Seq<u8>) -> Seq<u8> {
    string(mpint_bytes(s))
}

/// The first byte of `s`, and what follows it.
pub open spec fn take_byte(s: Seq<u8>) -> Option<(u8, Seq<u8>)> {
    if s.len() >= 1 {
        Some((s[0], s.skip(1)))
    } else {
        None
    }
}

/// The `boolean` that `s` begins with, and what follows it. Every byte but zero is true.
pub open spec fn take_bool(s: Seq<u8>) -> Option<(bool, Seq<u8>)> {
    if s.len() >= 1 {
        Some((s[0] != 0, s.skip(1)))
    } else {
        None
    }
}

/// The `uint32` that `s` begins with, and what follows it.
pub open spec fn take_u32(s: Seq<u8>) -> Option<(u32, Seq<u8>)> {
    if s.len() >= 4 {
        Some((from_be32(s.take(4)), s.skip(4)))
    } else {
        None
    }
}

/// The `uint64` that `s` begins with, and what follows it.
pub open spec fn take_u64(s: Seq<u8>) -> Option<(u64, Seq<u8>)> {
    if s.len() >= 8 {
        Some((from_be64(s.take(8)), s.skip(8)))
    } else {
        None
    }
}

/// The `string` that `s` begins with, and what follows it.
pub open spec fn take_string(s: Seq<u8>) -> Option<(Seq<u8>, Seq<u8>)> {
    match take_u32(s) {
        Some((n, rest)) => if n <= rest.len() {
            Some((rest.take(n as int), rest.skip(n as int)))
        } else {
            None
        },
        None => None,
    }
}

/// A message being laid out.
pub struct Writer {
    bytes: Vec<u8>,
}

impl View for Writer {
    type V = Seq<u8>;

    closed spec fn view(&self) -> Seq<u8> {
        self.bytes@
    }
}

impl Writer {
    /// A message with nothing in it yet.
    pub fn new() -> (made: Self)
        ensures
            made@ == Seq::<u8>::empty(),
    {
        Writer { bytes: Vec::new() }
    }

    /// Append one byte.
    pub fn byte(&mut self, value: u8) -> (same: &mut Self)
        ensures
            same@ == old(self)@ + seq![value],
            *final(self) == *final(same),
    {
        self.bytes.push(value);
        assert(self.bytes@ =~= old(self).bytes@ + seq![value]);
        self
    }

    /// Append a `boolean`.
    pub fn bool(&mut self, value: bool) -> (same: &mut Self)
        ensures
            same@ == old(self)@ + boolean(value),
            *final(self) == *final(same),
    {
        self.bytes.push(
            if value {
                1
            } else {
                0
            },
        );
        assert(self.bytes@ =~= old(self).bytes@ + boolean(value));
        self
    }

    /// Append a `uint32`.
    pub fn u32(&mut self, value: u32) -> (same: &mut Self)
        ensures
            same@ == old(self)@ + be32(value),
            *final(self) == *final(same),
    {
        self.bytes.push((value / 0x100_0000) as u8);
        self.bytes.push((value / 0x1_0000 % 0x100) as u8);
        self.bytes.push((value / 0x100 % 0x100) as u8);
        self.bytes.push((value % 0x100) as u8);
        assert(self.bytes@ =~= old(self).bytes@ + be32(value));
        self
    }

    /// Append a `uint64`.
    pub fn u64(&mut self, value: u64) -> (same: &mut Self)
        ensures
            same@ == old(self)@ + be64(value),
            *final(self) == *final(same),
    {
        self.u32((value / 0x1_0000_0000) as u32);
        self.u32((value % 0x1_0000_0000) as u32);
        assert(self@ =~= old(self)@ + be64(value));
        self
    }

    /// Append a `string`.
    pub fn string(&mut self, value: &[u8]) -> (same: &mut Self)
        ensures
            same@ == old(self)@ + string(value@),
            *final(self) == *final(same),
    {
        self.u32(length(value.len()));
        self.bytes.extend_from_slice(value);
        assert(self@ =~= old(self)@ + string(value@));
        self
    }

    /// Append the unsigned big-endian number `value` as an `mpint`.
    pub fn mpint(&mut self, value: &[u8]) -> (same: &mut Self)
        ensures
            same@ == old(self)@ + mpint(value@),
            *final(self) == *final(same),
    {
        let mut from: usize = 0;
        assert(value@.skip(0) =~= value@);
        while from < value.len() && value[from] == 0
            invariant
                from <= value@.len(),
                significant(value@.skip(from as int)) == significant(value@),
            decreases value@.len() - from,
        {
            assert(value@.skip(from as int).drop_first() =~= value@.skip(from + 1));
            from += 1;
        }
        let number = &value[from..value.len()];
        assert(number@ =~= value@.skip(from as int));
        assert(number@ == significant(value@));
        if number.len() > 0 && number[0] >= 0x80 {
            let mut padded: Vec<u8> = Vec::new();
            padded.push(0);
            padded.extend_from_slice(number);
            assert(padded@ =~= mpint_bytes(value@));
            self.string(&padded);
        } else {
            self.string(number);
        }
        self
    }

    /// The message as it stands.
    pub fn finish(self) -> (bytes: Vec<u8>)
        ensures
            bytes@ == self@,
    {
        self.bytes
    }
}

/// A length as a `uint32` holds it.
pub fn length(n: usize) -> (value: u32)
    ensures
        value == length32(n as nat),
{
    if n <= 0xffff_ffff {
        n as u32
    } else {
        0xffff_ffff
    }
}

/// A message being taken apart, from the front.
pub struct Reader<'a> {
    rest: &'a [u8],
}

impl<'a> View for Reader<'a> {
    type V = Seq<u8>;

    /// What has not been read yet.
    closed spec fn view(&self) -> Seq<u8> {
        self.rest@
    }
}

impl<'a> Reader<'a> {
    /// Read `bytes` from the start.
    pub fn new(bytes: &'a [u8]) -> (made: Self)
        ensures
            made@ == bytes@,
    {
        Reader { rest: bytes }
    }

    /// The next byte.
    pub fn byte(&mut self) -> (value: Result<u8, Error>)
        ensures
            match take_byte(old(self)@) {
                Some((byte, rest)) => value == Ok::<u8, Error>(byte) && final(self)@ == rest,
                None => value == Err::<u8, Error>(Error::Truncated) && final(self)@ == old(self)@,
            },
    {
        if self.rest.len() < 1 {
            return Err(Error::Truncated);
        }
        let value = self.rest[0];
        self.rest = &self.rest[1..self.rest.len()];
        Ok(value)
    }

    /// The next `boolean`.
    pub fn bool(&mut self) -> (value: Result<bool, Error>)
        ensures
            match take_bool(old(self)@) {
                Some((flag, rest)) => value == Ok::<bool, Error>(flag) && final(self)@ == rest,
                None => value == Err::<bool, Error>(Error::Truncated) && final(self)@ == old(
                    self,
                )@,
            },
    {
        let value = self.byte()?;
        Ok(value != 0)
    }

    /// The next `uint32`.
    pub fn u32(&mut self) -> (value: Result<u32, Error>)
        ensures
            match take_u32(old(self)@) {
                Some((number, rest)) => value == Ok::<u32, Error>(number) && final(self)@ == rest,
                None => value == Err::<u32, Error>(Error::Truncated) && final(self)@ == old(self)@,
            },
    {
        if self.rest.len() < 4 {
            return Err(Error::Truncated);
        }
        let head = &self.rest[0..4];
        let value: u32 = read_be32(head);
        self.rest = &self.rest[4..self.rest.len()];
        Ok(value)
    }

    /// The next `uint64`.
    pub fn u64(&mut self) -> (value: Result<u64, Error>)
        ensures
            match take_u64(old(self)@) {
                Some((number, rest)) => value == Ok::<u64, Error>(number) && final(self)@ == rest,
                None => value == Err::<u64, Error>(Error::Truncated) && final(self)@ == old(self)@,
            },
    {
        if self.rest.len() < 8 {
            return Err(Error::Truncated);
        }
        let high: u64 = read_be32(&self.rest[0..4]) as u64;
        let low: u64 = read_be32(&self.rest[4..8]) as u64;
        assert(self.rest@.take(8).take(4) =~= self.rest@.subrange(0, 4));
        assert(self.rest@.take(8).skip(4) =~= self.rest@.subrange(4, 8));
        self.rest = &self.rest[8..self.rest.len()];
        Ok(high * 0x1_0000_0000 + low)
    }

    /// The next `string`.
    pub fn string(&mut self) -> (value: Result<&'a [u8], Error>)
        ensures
            match take_string(old(self)@) {
                Some((bytes, rest)) => value is Ok && value->Ok_0@ == bytes && final(self)@
                    == rest,
                None => value == Err::<&'a [u8], Error>(Error::Truncated) && final(self)@ == old(
                    self,
                )@,
            },
    {
        if self.rest.len() < 4 {
            return Err(Error::Truncated);
        }
        let count: usize = read_be32(&self.rest[0..4]) as usize;
        if self.rest.len() - 4 < count {
            return Err(Error::Truncated);
        }
        let value = &self.rest[4..4 + count];
        assert(value@ =~= self.rest@.skip(4).take(count as int));
        assert(self.rest@.subrange(4 + count, self.rest@.len() as int) =~= self.rest@.skip(4).skip(
            count as int,
        ));
        self.rest = &self.rest[4 + count..self.rest.len()];
        Ok(value)
    }
}

/// Whether two runs of bytes are the same.
pub fn same_bytes(a: &[u8], b: &[u8]) -> (same: bool)
    ensures
        same == (a@ == b@),
{
    if a.len() != b.len() {
        return false;
    }
    let mut i: usize = 0;
    while i < a.len()
        invariant
            i <= a@.len(),
            a@.len() == b@.len(),
            forall|j: int| 0 <= j < i ==> a@[j] == b@[j],
        decreases a@.len() - i,
    {
        if a[i] != b[i] {
            return false;
        }
        i += 1;
    }
    assert(a@ =~= b@);
    true
}

/// The number that four bytes stand for.
pub fn read_be32(bytes: &[u8]) -> (value: u32)
    requires
        bytes@.len() == 4,
    ensures
        value == from_be32(bytes@),
{
    (bytes[0] as u32) * 0x100_0000 + (bytes[1] as u32) * 0x1_0000 + (bytes[2] as u32) * 0x100
        + bytes[3] as u32
}

proof fn lemma_be32(n: u32)
    ensures
        be32(n).len() == 4,
        from_be32(be32(n)) == n,
{
}

/// A `uint32` reads back as the number that was written, whatever follows it.
pub proof fn law_u32_reads_back(n: u32, rest: Seq<u8>)
    ensures
        take_u32(be32(n) + rest) == Some((n, rest)),
{
    lemma_be32(n);
    let s = be32(n) + rest;
    assert(s.take(4) =~= be32(n));
    assert(s.skip(4) =~= rest);
}

proof fn lemma_halves(high: Seq<u8>, low: Seq<u8>, rest: Seq<u8>)
    requires
        high.len() == 4,
        low.len() == 4,
    ensures
        (high + low + rest).len() >= 8,
        (high + low + rest).take(8).take(4) == high,
        (high + low + rest).take(8).skip(4) == low,
        (high + low + rest).skip(8) == rest,
{
    let s = high + low + rest;
    assert(s.take(8).take(4) =~= high);
    assert(s.take(8).skip(4) =~= low);
    assert(s.skip(8) =~= rest);
}

/// A `uint64` reads back as the number that was written, whatever follows it.
pub proof fn law_u64_reads_back(n: u64, rest: Seq<u8>)
    ensures
        take_u64(be64(n) + rest) == Some((n, rest)),
{
    let high = (n / 0x1_0000_0000) as u32;
    let low = (n % 0x1_0000_0000) as u32;
    lemma_halves(be32(high), be32(low), rest);
    lemma_be32(high);
    lemma_be32(low);
}

/// A `boolean` reads back as the one that was written, whatever follows it.
pub proof fn law_bool_reads_back(b: bool, rest: Seq<u8>)
    ensures
        take_bool(boolean(b) + rest) == Some((b, rest)),
{
    assert((boolean(b) + rest).skip(1) =~= rest);
}

/// A `string` that a `uint32` can count reads back as the bytes that were written, whatever
/// follows it.
pub proof fn law_string_reads_back(s: Seq<u8>, rest: Seq<u8>)
    requires
        s.len() <= u32::MAX,
    ensures
        take_string(string(s) + rest) == Some((s, rest)),
{
    let all = string(s) + rest;
    assert(all =~= be32(s.len() as u32) + (s + rest));
    law_u32_reads_back(s.len() as u32, s + rest);
    assert((s + rest).take(s.len() as int) =~= s);
    assert((s + rest).skip(s.len() as int) =~= rest);
}

/// The unsigned number that big-endian bytes stand for.
pub open spec fn unsigned(s: Seq<u8>) -> nat
    decreases s.len(),
{
    if s.len() == 0 {
        0
    } else {
        unsigned(s.drop_last()) * 256 + s.last() as nat
    }
}

proof fn lemma_leading_zero(s: Seq<u8>)
    ensures
        unsigned(seq![0u8] + s) == unsigned(s),
    decreases s.len(),
{
    let t = seq![0u8] + s;
    if s.len() == 0 {
        assert(t.drop_last() =~= Seq::<u8>::empty());
        assert(unsigned(t.drop_last()) == 0);
    } else {
        assert(t.drop_last() =~= seq![0u8] + s.drop_last());
        lemma_leading_zero(s.drop_last());
    }
}

proof fn lemma_significant(s: Seq<u8>)
    ensures
        unsigned(significant(s)) == unsigned(s),
        significant(s).len() > 0 ==> significant(s)[0] != 0,
        significant(s).len() <= s.len(),
    decreases s.len(),
{
    if s.len() > 0 && s[0] == 0 {
        lemma_significant(s.drop_first());
        lemma_leading_zero(s.drop_first());
        assert(seq![0u8] + s.drop_first() =~= s);
    }
}

/// An `mpint` holds the number it was made from, its top bit is clear, and it has no byte to
/// spare: without its first byte it would be another number or a negative one.
pub proof fn law_mpint_is_the_number_in_its_shortest_form(s: Seq<u8>)
    ensures
        unsigned(mpint_bytes(s)) == unsigned(s),
        mpint_bytes(s).len() > 0 ==> mpint_bytes(s)[0] < 0x80,
        mpint_bytes(s).len() > 0 && mpint_bytes(s)[0] == 0 ==> mpint_bytes(s).len() > 1
            && mpint_bytes(s)[1] >= 0x80,
        mpint_bytes(s).len() <= s.len() + 1,
{
    lemma_significant(s);
    lemma_leading_zero(significant(s));
}

/// A length that a `uint32` cannot hold is told as the largest that it can.
pub proof fn law_a_length_is_told_as_far_as_it_goes(n: nat)
    ensures
        n < 0x1_0000_0000 ==> length32(n) == n,
        n >= 0x1_0000_0000 ==> length32(n) == 0xffff_ffff,
{
}

/// Joining is laying one behind the other.
pub proof fn law_what_is_joined_stands_in_order(pieces: Seq<Seq<u8>>, piece: Seq<u8>)
    ensures
        joined(Seq::<Seq<u8>>::empty()) == Seq::<u8>::empty(),
        joined(seq![piece] + pieces) == piece + joined(pieces),
{
    assert((seq![piece] + pieces).skip(1) =~= pieces);
}

/// A number is counted in bytes, the most significant first.
pub proof fn law_a_number_is_counted_in_bytes(s: Seq<u8>, byte: u8)
    ensures
        unsigned(Seq::empty()) == 0,
        unsigned(s.push(byte)) == unsigned(s) * 256 + byte,
{
    assert(s.push(byte).drop_last() =~= s);
}

} // verus!
