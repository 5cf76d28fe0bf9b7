//! Primitive encodings shared by every format of the crate: little-endian
//! integers of a fixed width, and base-128 variable-length integers.
//!
//! A parser is described by a spec function from the bytes that are left to
//! the value and the bytes that remain after it.

use vstd::prelude::*;
use crate::error::Error;

verus! {

/// What a parser makes of the front of a byte sequence: the value and the
/// bytes after it, or the failure.
pub type Parsed<T> = Result<(T, Seq<u8>), Error>;

/// The `n` bytes of `v` in little-endian order; higher digits are cut off.
#[verifier::opaque]
pub open spec fn le_bytes(v: int, n: nat) -> Seq<u8>
    decreases n,
{
    if n == 0 {
        Seq::empty()
    } else {
        seq![(v % 256) as u8] + le_bytes(v / 256, (n - 1) as nat)
    }
}

/// The number that a little-endian byte sequence stands for.
pub open spec fn le_value(s: Seq<u8>) -> int
    decreases s.len(),
{
    if s.len() == 0 {
        0
    } else {
        s[0] + 256 * le_value(s.skip(1))
    }
}

/// 256 to the power `n`.
pub open spec fn pow256(n: nat) -> int
    decreases n,
{
    if n == 0 {
        1
    } else {
        256 * pow256((n - 1) as nat)
    }
}

/// The front `n` bytes as a little-endian number.
pub open spec fn parse_le(s: Seq<u8>, n: nat) -> Parsed<int> {
    if s.len() < n {
        Err(Error::UnexpectedEof)
    } else {
        Ok((le_value(s.take(n as int)), s.skip(n as int)))
    }
}

/// The front `n` bytes as they stand.
pub open spec fn parse_bytes(s: Seq<u8>, n: nat) -> Parsed<Seq<u8>> {
    if s.len() < n {
        Err(Error::UnexpectedEof)
    } else {
        Ok((s.take(n as int), s.skip(n as int)))
    }
}

/// The base-128 digits of `v`, least significant first, every one but the
/// last with its high bit set.
pub open spec fn varint_bytes(v: int) -> Seq<u8>
    decreases v,
{
    if v < 128 {
        seq![v as u8]
    } else {
        seq![(v % 128 + 128) as u8] + varint_bytes(v / 128)
    }
}

/// Reads base-128 digits where `k` digits of the same number came before.
/// No number has more than ten digits.
pub open spec fn parse_digits(s: Seq<u8>, k: nat) -> Parsed<int>
    decreases 10 - k,
{
    if k >= 10 {
        Err(Error::VarintTooLong)
    } else if s.len() == 0 {
        Err(Error::UnexpectedEof)
    } else if s[0] < 128 {
        Ok((s[0] as int, s.skip(1)))
    } else {
        match parse_digits(s.skip(1), k + 1) {
            Ok((hi, t)) => Ok((s[0] - 128 + 128 * hi, t)),
            Err(e) => Err(e),
        }
    }
}

/// A variable-length integer at the front of `s`; bits beyond the 64th are
/// dropped.
pub open spec fn parse_varint(s: Seq<u8>) -> Parsed<int> {
    match parse_digits(s, 0) {
        Ok((v, t)) => Ok((v % 0x1_0000_0000_0000_0000, t)),
        Err(e) => Err(e),
    }
}

/// Digits that were read leave a strictly shorter rest behind.
pub proof fn lemma_parse_digits_rest(s: Seq<u8>, k: nat)
    ensures
        parse_digits(s, k) matches Ok((v, t)) ==> v >= 0 && t.len() < s.len() && t == s.skip(
            s.len() - t.len(),
        ),
    decreases 10 - k,
{
    if k < 10 && s.len() > 0 && s[0] >= 128 {
        lemma_parse_digits_rest(s.skip(1), k + 1);
        if let Ok((v, t)) = parse_digits(s, k) {
            assert(s.skip(1).skip(s.len() - 1 - t.len()) =~= s.skip(s.len() - t.len()));
        }
    }
}

/// A variable-length integer that was read fits 64 bits and leaves a strictly
/// shorter rest behind.
pub proof fn lemma_parse_varint_rest(s: Seq<u8>)
    ensures
        parse_varint(s) matches Ok((v, t)) ==> 0 <= v < 0x1_0000_0000_0000_0000 && t.len()
            < s.len() && t == s.skip(s.len() - t.len()),
{
    lemma_parse_digits_rest(s, 0);
}

/// 128 to the power `k`.
pub open spec fn pow128(k: nat) -> int
    decreases k,
{
    if k == 0 {
        1
    } else {
        128 * pow128((k - 1) as nat)
    }
}

proof fn lemma_parse_digits_of_varint(v: int, k: nat, tail: Seq<u8>)
    requires
        0 <= v,
        k <= 9,
        v < pow128((10 - k) as nat),
    ensures
        parse_digits(varint_bytes(v) + tail, k) == Ok::<(int, Seq<u8>), Error>((v, tail)),
    decreases 10 - k,
{
    let s = varint_bytes(v) + tail;
    if v < 128 {
        assert(s.skip(1) =~= tail);
    } else {
        assert(k < 9) by {
            reveal_with_fuel(pow128, 2);
        }
        assert(s.skip(1) =~= varint_bytes(v / 128) + tail);
        assert(v / 128 < pow128((9 - k) as nat)) by {
            assert(pow128((10 - k) as nat) == 128 * pow128((9 - k) as nat));
        }
        lemma_parse_digits_of_varint(v / 128, k + 1, tail);
        assert(s[0] == (v % 128 + 128) as u8);
    }
}

/// Reading back a variable-length integer gives the number that was written
/// and stops right after it.
pub proof fn lemma_varint_round_trip(v: int, tail: Seq<u8>)
    requires
        0 <= v < 0x1_0000_0000_0000_0000,
    ensures
        parse_varint(varint_bytes(v) + tail) == Ok::<(int, Seq<u8>), Error>((v, tail)),
{
    assert(pow128(10) >= 0x1_0000_0000_0000_0000) by {
        reveal_with_fuel(pow128, 11);
    }
    lemma_parse_digits_of_varint(v, 0, tail);
}

proof fn lemma_le_bytes(v: int, n: nat)
    requires
        0 <= v,
    ensures
        le_bytes(v, n).len() == n,
        v < pow256(n) ==> le_value(le_bytes(v, n)) == v,
    decreases n,
{
    reveal(le_bytes);
    if n > 0 {
        lemma_le_bytes(v / 256, (n - 1) as nat);
        assert(le_bytes(v, n).skip(1) =~= le_bytes(v / 256, (n - 1) as nat));
    }
}

/// The bytes of a number are its digits to the base 256, the least significant first.
pub proof fn lemma_le_digits(v: int, n: nat)
    requires
        0 <= v,
        n <= 8,
    ensures
        le_bytes(v, n).len() == n,
        n > 0 ==> le_bytes(v, n)[0] == (v / 0x1) % 256,
        n > 1 ==> le_bytes(v, n)[1] == (v / 0x100) % 256,
        n > 2 ==> le_bytes(v, n)[2] == (v / 0x10000) % 256,
        n > 3 ==> le_bytes(v, n)[3] == (v / 0x1000000) % 256,
        n > 4 ==> le_bytes(v, n)[4] == (v / 0x100000000) % 256,
        n > 5 ==> le_bytes(v, n)[5] == (v / 0x10000000000) % 256,
        n > 6 ==> le_bytes(v, n)[6] == (v / 0x1000000000000) % 256,
        n > 7 ==> le_bytes(v, n)[7] == (v / 0x100000000000000) % 256,
{
    reveal_with_fuel(le_bytes, 9);
    lemma_le_bytes(v, n);
}

/// A variable-length integer below 128 is one byte with that value. Any other is a byte
/// with its seven low bits and the high bit set, and behind it the rest of the number.
pub proof fn lemma_varint_layout(v: int)
    requires
        0 <= v,
    ensures
        v < 128 ==> varint_bytes(v).len() == 1 && varint_bytes(v)[0] == v,
        v >= 128 ==> varint_bytes(v)[0] == v % 128 + 128 && varint_bytes(v).skip(1) == varint_bytes(
            v / 128,
        ),
{
    if v >= 128 {
        assert(varint_bytes(v).skip(1) =~= varint_bytes(v / 128));
    }
}

/// Reading back a fixed-width integer gives the number that was written and
/// stops right after it.
pub proof fn lemma_le_round_trip(v: int, n: nat, tail: Seq<u8>)
    requires
        0 <= v < pow256(n),
    ensures
        le_bytes(v, n).len() == n,
        parse_le(le_bytes(v, n) + tail, n) == Ok::<(int, Seq<u8>), Error>((v, tail)),
{
    lemma_le_bytes(v, n);
    let s = le_bytes(v, n) + tail;
    assert(s.take(n as int) =~= le_bytes(v, n));
    assert(s.skip(n as int) =~= tail);
}

/// Putting sequences one behind the other does not depend on the grouping.
pub proof fn lemma_grouping(a: Seq<u8>, b: Seq<u8>, c: Seq<u8>)
    ensures
        (a + b) + c == a + (b + c),
{
    assert((a + b) + c =~= a + (b + c));
}

/// Reading back raw bytes gives what was written.
pub proof fn lemma_bytes_round_trip(b: Seq<u8>, tail: Seq<u8>)
    ensures
        parse_bytes(b + tail, b.len()) == Ok::<(Seq<u8>, Seq<u8>), Error>((b, tail)),
{
    assert((b + tail).take(b.len() as int) =~= b);
    assert((b + tail).skip(b.len() as int) =~= tail);
}

/// The bounds of the widths in use.
pub proof fn lemma_pow256_widths()
    ensures
        pow256(1) == 0x100,
        pow256(2) == 0x1_0000,
        pow256(4) == 0x1_0000_0000,
        pow256(8) == 0x1_0000_0000_0000_0000,
{
    reveal_with_fuel(pow256, 9);
}

/// A little-endian number is at least zero and below 256 to its width.
pub proof fn lemma_le_value_bound(s: Seq<u8>)
    ensures
        0 <= le_value(s) < pow256(s.len()),
    decreases s.len(),
{
    if s.len() > 0 {
        lemma_le_value_bound(s.skip(1));
    }
}

/// Appends the `n` low bytes of `v`, least significant first.
pub fn write_le(out: &mut Vec<u8>, v: u64, n: usize)
    ensures
        final(out)@ == old(out)@ + le_bytes(v as int, n as nat),
{
    let mut rest: u64 = v;
    let mut k: usize = 0;
    while k < n
        invariant
            k <= n,
            out@ + le_bytes(rest as int, (n - k) as nat) == old(out)@ + le_bytes(
                v as int,
                n as nat,
            ),
        decreases n - k,
    {
        let ghost before = out@;
        out.push((rest % 256) as u8);
        proof {
            reveal(le_bytes);
            assert(out@ + le_bytes(rest as int / 256, (n - k - 1) as nat) =~= before + le_bytes(
                rest as int,
                (n - k) as nat,
            ));
        }
        rest = rest / 256;
        k = k + 1;
    }
    assert(out@ + le_bytes(rest as int, 0) =~= out@) by {
        reveal(le_bytes);
    }
}

pub fn write_u16(out: &mut Vec<u8>, v: u16)
    ensures
        final(out)@ == old(out)@ + le_bytes(v as int, 2),
{
    write_le(out, v as u64, 2)
}

pub fn write_u32(out: &mut Vec<u8>, v: u32)
    ensures
        final(out)@ == old(out)@ + le_bytes(v as int, 4),
{
    write_le(out, v as u64, 4)
}

pub fn write_u64(out: &mut Vec<u8>, v: u64)
    ensures
        final(out)@ == old(out)@ + le_bytes(v as int, 8),
{
    write_le(out, v, 8)
}

/// Appends all of `data`.
pub fn write_bytes(out: &mut Vec<u8>, data: &[u8])
    ensures
        final(out)@ == old(out)@ + data@,
{
    out.extend_from_slice(data);
    assert(out@ =~= old(out)@ + data@);
}

/// Appends `v` as a variable-length integer.
pub fn write_varint(out: &mut Vec<u8>, v: u64)
    ensures
        final(out)@ == old(out)@ + varint_bytes(v as int),
{
    let mut rest: u64 = v;
    while rest >= 0x80
        invariant
            out@ + varint_bytes(rest as int) == old(out)@ + varint_bytes(v as int),
        decreases rest,
    {
        let ghost before = out@;
        out.push((rest % 128 + 128) as u8);
        proof {
            assert(out@ + varint_bytes(rest as int / 128) =~= before + varint_bytes(rest as int));
        }
        rest = rest / 128;
    }
    let ghost before = out@;
    out.push(rest as u8);
    assert(out@ =~= before + varint_bytes(rest as int));
}

/// A place in a byte slice from which values are read in order.
#[derive(Clone, Copy)]
pub struct ByteReader<'a> {
    data: &'a [u8],
    pos: usize,
}

impl<'a> ByteReader<'a> {
    #[verifier::type_invariant]
    spec fn inv(self) -> bool {
        self.pos <= self.data@.len()
    }

    /// The bytes that were not read yet.
    pub closed spec fn rest(&self) -> Seq<u8> {
        self.data@.skip(self.pos as int)
    }

    pub fn new(data: &'a [u8]) -> (r: Self)
        ensures
            r.rest() == data@,
    {
        assert(data@.skip(0) =~= data@);
        ByteReader { data, pos: 0 }
    }

    /// How many bytes are left.
    pub fn remaining(&self) -> (n: usize)
        ensures
            n == self.rest().len(),
    {
        proof {
            use_type_invariant(&*self);
        }
        self.data.len() - self.pos
    }

    /// The bytes that are left, without taking them.
    pub fn peek(&self) -> (s: &'a [u8])
        ensures
            s@ == self.rest(),
    {
        proof {
            use_type_invariant(&*self);
        }
        let s = vstd::slice::slice_subrange(self.data, self.pos, self.data.len());
        assert(s@ =~= self.rest());
        s
    }

    /// Takes the next `n` bytes; takes nothing where fewer are left.
    pub fn read_bytes(&mut self, n: usize) -> (res: Result<&'a [u8], Error>)
        ensures
            match parse_bytes(old(self).rest(), n as nat) {
                Ok((b, t)) => res matches Ok(s) && s@ == b && final(self).rest() == t,
                Err(e) => res == Err::<&'a [u8], Error>(e) && final(self).rest() == old(self).rest(),
            },
    {
        proof {
            use_type_invariant(&*self);
        }
        if self.data.len() - self.pos < n {
            return Err(Error::UnexpectedEof);
        }
        let end: usize = self.pos + n;
        let s = vstd::slice::slice_subrange(self.data, self.pos, end);
        proof {
            assert(s@ =~= self.rest().take(n as int));
            assert(self.data@.skip(end as int) =~= self.rest().skip(n as int));
        }
        self.pos = end;
        Ok(s)
    }

    pub fn read_u8(&mut self) -> (res: Result<u8, Error>)
        ensures
            old(self).rest().len() == 0 ==> res == Err::<u8, Error>(Error::UnexpectedEof) && final(self).rest() == old(self).rest(),
            old(self).rest().len() > 0 ==> res == Ok::<u8, Error>(old(self).rest()[0]) && final(self).rest() == old(self).rest().skip(1),
    {
        match self.read_bytes(1) {
            Ok(s) => Ok(s[0]),
            Err(e) => Err(e),
        }
    }

    /// Takes an integer of `n` bytes, at most eight.
    pub fn read_le(&mut self, n: usize) -> (res: Result<u64, Error>)
        requires
            n <= 8,
        ensures
            match parse_le(old(self).rest(), n as nat) {
                Ok((v, t)) => res matches Ok(x) && x == v && final(self).rest() == t,
                Err(e) => res == Err::<u64, Error>(e) && final(self).rest() == old(self).rest(),
            },
    {
        let s = match self.read_bytes(n) {
            Ok(s) => s,
            Err(e) => {
                return Err(e);
            },
        };
        let mut v: u64 = 0;
        let mut k: usize = n;
        assert(s@.skip(n as int) =~= Seq::<u8>::empty());
        while k > 0
            invariant
                k <= n <= 8,
                s@.len() == n,
                v == le_value(s@.skip(k as int)),
            decreases k,
        {
            k = k - 1;
            proof {
                let t = s@.skip(k as int);
                assert(t.skip(1) =~= s@.skip(k + 1));
                assert(le_value(t) == s@[k as int] + 256 * le_value(t.skip(1)));
                lemma_le_value_bound(t);
                lemma_pow256_monotone(t.len(), 8);
                lemma_pow256_widths();
            }
            v = s[k] as u64 + 256 * v;
        }
        assert(s@.skip(0) =~= s@);
        Ok(v)
    }

    pub fn read_u16(&mut self) -> (res: Result<u16, Error>)
        ensures
            match parse_le(old(self).rest(), 2) {
                Ok((v, t)) => res matches Ok(x) && x == v && final(self).rest() == t,
                Err(e) => res == Err::<u16, Error>(e) && final(self).rest() == old(self).rest(),
            },
    {
        proof {
            lemma_le_value_bound(self.rest().take(2));
            lemma_pow256_widths();
        }
        match self.read_le(2) {
            Ok(v) => Ok(v as u16),
            Err(e) => Err(e),
        }
    }

    pub fn read_u32(&mut self) -> (res: Result<u32, Error>)
        ensures
            match parse_le(old(self).rest(), 4) {
                Ok((v, t)) => res matches Ok(x) && x == v && final(self).rest() == t,
                Err(e) => res == Err::<u32, Error>(e) && final(self).rest() == old(self).rest(),
            },
    {
        proof {
            lemma_le_value_bound(self.rest().take(4));
            lemma_pow256_widths();
        }
        match self.read_le(4) {
            Ok(v) => Ok(v as u32),
            Err(e) => Err(e),
        }
    }

    pub fn read_u64(&mut self) -> (res: Result<u64, Error>)
        ensures
            match parse_le(old(self).rest(), 8) {
                Ok((v, t)) => res matches Ok(x) && x == v && final(self).rest() == t,
                Err(e) => res == Err::<u64, Error>(e) && final(self).rest() == old(self).rest(),
            },
    {
        self.read_le(8)
    }

    /// Takes a variable-length integer.
    pub fn read_varint(&mut self) -> (res: Result<u64, Error>)
        ensures
            match parse_varint(old(self).rest()) {
                Ok((v, t)) => res matches Ok(x) && x == v && final(self).rest() == t,
                Err(e) => res == Err::<u64, Error>(e),
            },
    {
        let ghost whole = parse_digits(self.rest(), 0);
        let mut v: u64 = 0;
        let mut scale: u64 = 1;
        let mut k: usize = 0;
        while k < 10
            invariant
                k <= 10,
                k < 10 ==> scale == pow128(k as nat),
                k <= 9 ==> v < pow128(k as nat),
                whole == parse_digits(old(self).rest(), 0),
                match parse_digits(self.rest(), k as nat) {
                    Ok((hi, t)) => whole == Ok::<(int, Seq<u8>), Error>(
                        (v + pow128(k as nat) * hi, t),
                    ),
                    Err(e) => whole == Err::<(int, Seq<u8>), Error>(e),
                },
            decreases 10 - k,
        {
            let ghost s = self.rest();
            let b = match self.read_u8() {
                Ok(b) => b,
                Err(e) => {
                    return Err(e);
                },
            };
            let low: u64 = (b % 128) as u64;
            let ghost v0 = v as int;
            let ghost p = pow128(k as nat);
            proof {
                reveal_with_fuel(pow128, 11);
            }
            v = v.wrapping_add(low.wrapping_mul(scale));
            proof {
                assert(p == scale);
                assert(v0 + low * p >= 0) by (nonlinear_arith)
                    requires
                        v0 >= 0,
                        p >= 1,
                        low >= 0,
                ;
                assert(v == (v0 + p * low) % 0x1_0000_0000_0000_0000) by {
                    vstd::arithmetic::mul::lemma_mul_is_commutative(low as int, p);
                }
            }
            if b < 128 {
                return Ok(v);
            }
            proof {
                assert(pow128((k + 1) as nat) == 128 * p);
                match parse_digits(self.rest(), (k + 1) as nat) {
                    Ok((hi, t)) => {
                        assert(v0 + p * (low + 128 * hi) == (v0 + p * low) + (128 * p) * hi)
                            by (nonlinear_arith);
                        assert(k < 9);
                    },
                    Err(e) => {},
                }
                if k < 9 {
                    assert(v0 + p * low < 128 * p) by (nonlinear_arith)
                        requires
                            v0 < p,
                            1 <= p,
                            0 <= low <= 127,
                    ;
                    assert(v == v0 + p * low);
                }
            }
            scale = scale.wrapping_mul(128);
            k = k + 1;
        }
        Err(Error::VarintTooLong)
    }
}

/// Wider integers reach at least as far.
pub proof fn lemma_pow256_monotone(a: nat, b: nat)
    requires
        a <= b,
    ensures
        0 < pow256(a) <= pow256(b),
    decreases b,
{
    if a < b {
        lemma_pow256_monotone(a, (b - 1) as nat);
    } else if a > 0 {
        lemma_pow256_monotone((a - 1) as nat, (a - 1) as nat);
    }
}

/// Input that ends too early is refused.
pub proof fn lemma_short_input_refused(s: Seq<u8>, n: nat)
    requires
        s.len() < n,
    ensures
        parse_le(s, n) == Err::<(int, Seq<u8>), Error>(Error::UnexpectedEof),
        parse_bytes(s, n) == Err::<(Seq<u8>, Seq<u8>), Error>(Error::UnexpectedEof),
        parse_varint(Seq::empty()) == Err::<(int, Seq<u8>), Error>(Error::UnexpectedEof),
{
}

} // verus!
