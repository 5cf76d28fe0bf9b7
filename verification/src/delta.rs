//! Delta filter: every byte becomes its difference, modulo 256, to the byte one
//! stride earlier. It helps on samples of one, two or four bytes.

use vstd::prelude::*;
use crate::wire::write_bytes;

verus! {

/// The widest stride.
pub const MAX_STRIDE: usize = 4;

/// The strides that an archive may use.
pub open spec fn valid_stride(stride: int) -> bool {
    stride == 1 || stride == 2 || stride == 4
}

/// Whether `stride` is 1, 2 or 4.
pub fn is_valid_stride(stride: u8) -> (r: bool)
    ensures
        r == valid_stride(stride as int),
{
    stride == 1 || stride == 2 || stride == 4
}

/// The byte one stride before `i`; zero before the start.
pub open spec fn earlier(s: Seq<u8>, i: int, stride: int) -> u8 {
    if i < stride {
        0
    } else {
        s[i - stride]
    }
}

/// The differences of `plain`.
pub open spec fn delta_encoded(plain: Seq<u8>, stride: int) -> Seq<u8> {
    Seq::new(plain.len(), |i: int| plain[i].wrapping_sub(earlier(plain, i, stride)))
}

/// The bytes whose differences are `coded`.
pub open spec fn delta_decoded(coded: Seq<u8>, stride: int) -> Seq<u8>
    decreases coded.len(),
{
    if coded.len() == 0 {
        Seq::empty()
    } else {
        let front = delta_decoded(coded.drop_last(), stride);
        front.push(coded.last().wrapping_add(earlier(front, coded.len() - 1, stride)))
    }
}

/// A filtered byte and the plain byte one stride earlier make up the plain byte, modulo
/// 256; the first bytes, up to the stride, stand as they are.
pub proof fn lemma_delta_differences(plain: Seq<u8>, stride: int, i: int)
    requires
        stride >= 1,
        0 <= i < plain.len(),
    ensures
        delta_encoded(plain, stride).len() == plain.len(),
        i < stride ==> delta_encoded(plain, stride)[i] == plain[i],
        i >= stride ==> (delta_encoded(plain, stride)[i] + plain[i - stride]) % 256 == plain[i],
{
}

/// Undoing the filter gives the bytes back, for every stride.
pub proof fn lemma_delta_round_trip(plain: Seq<u8>, stride: int)
    requires
        stride >= 1,
    ensures
        delta_decoded(delta_encoded(plain, stride), stride) == plain,
    decreases plain.len(),
{
    let coded = delta_encoded(plain, stride);
    if plain.len() == 0 {
        assert(coded =~= Seq::empty());
        assert(plain =~= Seq::empty());
    } else {
        let front = plain.drop_last();
        lemma_delta_round_trip(front, stride);
        assert(coded.drop_last() =~= delta_encoded(front, stride));
        assert(earlier(front, plain.len() - 1, stride) == earlier(
            plain,
            plain.len() - 1,
            stride,
        ));
        assert(delta_decoded(coded, stride) =~= plain);
    }
}

proof fn lemma_delta_decoded_len(coded: Seq<u8>, stride: int)
    ensures
        delta_decoded(coded, stride).len() == coded.len(),
    decreases coded.len(),
{
    if coded.len() > 0 {
        lemma_delta_decoded_len(coded.drop_last(), stride);
    }
}

/// The place in a ring of `stride` bytes that lies `d` before `pos`.
spec fn back_by(pos: int, d: int, stride: int) -> int {
    if pos < d {
        pos - d + stride
    } else {
        pos - d
    }
}

/// The ring holds the last `stride` bytes of `s`, the newest just before `pos`;
/// zeros stand for those before the start.
spec fn ring_of(ring: [u8; 4], pos: int, s: Seq<u8>, stride: int) -> bool {
    &&& 1 <= stride <= MAX_STRIDE
    &&& 0 <= pos < stride
    &&& forall|d: int|
        1 <= d <= stride ==> ring@[#[trigger] back_by(pos, d, stride)] == earlier(
            s,
            s.len() as int,
            d,
        )
}

proof fn lemma_ring_push(ring: [u8; 4], pos: int, s: Seq<u8>, stride: int, b: u8, ring2: [u8; 4])
    requires
        ring_of(ring, pos, s, stride),
        ring2@ == ring@.update(pos, b),
    ensures
        ring@[pos] == earlier(s, s.len() as int, stride),
        ring_of(
            ring2,
            if pos + 1 == stride {
                0
            } else {
                pos + 1
            },
            s.push(b),
            stride,
        ),
{
    assert(back_by(pos, stride, stride) == pos);
    let next = if pos + 1 == stride {
        0
    } else {
        pos + 1
    };
    let t = s.push(b);
    assert forall|d: int| 1 <= d <= stride implies ring2@[#[trigger] back_by(next, d, stride)]
        == earlier(t, t.len() as int, d) by {
        if d > 1 {
            assert(back_by(next, d, stride) == back_by(pos, d - 1, stride));
        }
    }
}

/// Filters what is written on its way to the sink; the state is kept from one
/// write to the next.
pub struct DeltaWriter {
    inner: Vec<u8>,
    stride: usize,
    ring: [u8; 4],
    pos: usize,
    plain: Ghost<Seq<u8>>,
}

impl DeltaWriter {
    #[verifier::type_invariant]
    spec fn inv(self) -> bool {
        ring_of(self.ring, self.pos as int, self.plain@, self.stride as int)
    }

    /// What is in the sink.
    pub closed spec fn sink(&self) -> Seq<u8> {
        self.inner@
    }

    /// What was written so far.
    pub closed spec fn written(&self) -> Seq<u8> {
        self.plain@
    }

    pub closed spec fn stride(&self) -> int {
        self.stride as int
    }

    /// A writer that appends to `inner`.
    pub fn new(inner: Vec<u8>, stride: u8) -> (w: Self)
        requires
            1 <= stride <= MAX_STRIDE,
        ensures
            w.sink() == inner@,
            w.written() == Seq::<u8>::empty(),
            w.stride() == stride,
    {
        DeltaWriter {
            inner,
            stride: stride as usize,
            ring: [0, 0, 0, 0],
            pos: 0,
            plain: Ghost(Seq::empty()),
        }
    }

    /// Appends the differences of all of `data` and returns its length: the
    /// sink grows by what filtering everything at once would have added.
    pub fn write(&mut self, data: &[u8]) -> (n: usize)
        ensures
            n == data@.len(),
            final(self).stride() == old(self).stride(),
            final(self).written() == old(self).written() + data@,
            final(self).sink() == old(self).sink() + delta_encoded(
                final(self).written(),
                old(self).stride(),
            ).skip(old(self).written().len() as int),
    {
        proof {
            use_type_invariant(&*self);
        }
        let stride: usize = self.stride;
        let mut ring: [u8; 4] = self.ring;
        let mut pos: usize = self.pos;
        let ghost before = self.plain@;
        let mut out: Vec<u8> = Vec::new();
        let mut i: usize = 0;
        while i < data.len()
            invariant
                i <= data@.len(),
                out@.len() == i,
                ring_of(ring, pos as int, before + data@.take(i as int), stride as int),
                forall|k: int|
                    0 <= k < i ==> #[trigger] out@[k] == data@[k].wrapping_sub(
                        earlier(before + data@, before.len() + k, stride as int),
                    ),
            decreases data@.len() - i,
        {
            let b: u8 = data[i];
            let ghost ring0 = ring;
            let ghost s = before + data@.take(i as int);
            let prev: u8 = ring[pos];
            ring[pos] = b;
            proof {
                lemma_ring_push(ring0, pos as int, s, stride as int, b, ring);
                assert(s.push(b) =~= before + data@.take(i + 1));
                assert(earlier(s, s.len() as int, stride as int) == earlier(
                    before + data@,
                    before.len() + i,
                    stride as int,
                ));
            }
            out.push(b.wrapping_sub(prev));
            pos = if pos + 1 == stride {
                0
            } else {
                pos + 1
            };
            i = i + 1;
        }
        let mut inner: Vec<u8> = Vec::new();
        std::mem::swap(&mut inner, &mut self.inner);
        write_bytes(&mut inner, &out);
        let ghost all = before + data@;
        proof {
            assert(data@.take(i as int) =~= data@);
            assert(out@ =~= delta_encoded(all, stride as int).skip(before.len() as int));
        }
        *self = DeltaWriter { inner, stride, ring, pos, plain: Ghost(all) };
        data.len()
    }

    /// Hands the sink back.
    pub fn finish(self) -> (out: Vec<u8>)
        ensures
            out@ == self.sink(),
    {
        self.inner
    }
}

/// Undoes the filter chunk by chunk.
pub struct DeltaReader<'a> {
    inner: &'a [u8],
    at: usize,
    stride: usize,
    ring: [u8; 4],
    pos: usize,
    plain: Ghost<Seq<u8>>,
}

impl<'a> DeltaReader<'a> {
    #[verifier::type_invariant]
    spec fn inv(self) -> bool {
        &&& self.at <= self.inner@.len()
        &&& ring_of(self.ring, self.pos as int, self.plain@, self.stride as int)
        &&& self.plain@ == delta_decoded(self.inner@.take(self.at as int), self.stride as int)
    }

    /// All of the filtered input.
    pub closed spec fn source(&self) -> Seq<u8> {
        self.inner@
    }

    /// How many bytes were given out.
    pub closed spec fn given(&self) -> nat {
        self.at as nat
    }

    pub closed spec fn stride(&self) -> int {
        self.stride as int
    }

    pub fn new(inner: &'a [u8], stride: u8) -> (r: Self)
        requires
            1 <= stride <= MAX_STRIDE,
        ensures
            r.source() == inner@,
            r.given() == 0,
            r.stride() == stride,
    {
        assert(inner@.take(0) =~= Seq::empty());
        DeltaReader {
            inner,
            at: 0,
            stride: stride as usize,
            ring: [0, 0, 0, 0],
            pos: 0,
            plain: Ghost(Seq::empty()),
        }
    }

    /// Fills the front of `dst` with the next bytes and returns how many.
    pub fn read(&mut self, dst: &mut [u8]) -> (n: usize)
        ensures
            n <= old(dst)@.len(),
            n == old(dst)@.len() || n == old(self).source().len() - old(self).given(),
            final(self).source() == old(self).source(),
            final(self).stride() == old(self).stride(),
            final(self).given() == old(self).given() + n,
            final(self).given() <= old(self).source().len(),
            final(dst)@ == delta_decoded(old(self).source(), old(self).stride()).subrange(
                old(self).given() as int,
                old(self).given() + n,
            ) + old(dst)@.skip(n as int),
    {
        proof {
            use_type_invariant(&*self);
        }
        let inner = self.inner;
        let stride: usize = self.stride;
        let start: usize = self.at;
        let n: usize = if dst.len() < inner.len() - start {
            dst.len()
        } else {
            inner.len() - start
        };
        let mut ring: [u8; 4] = self.ring;
        let mut pos: usize = self.pos;
        let ghost plain = self.plain@;
        let mut i: usize = 0;
        assert(delta_decoded(inner@, stride as int).len() == inner@.len()) by {
            lemma_delta_decoded_len(inner@, stride as int);
        }
        proof {
            lemma_delta_decoded_len(inner@.take(start as int), stride as int);
            assert(dst@ =~= plain.skip(start as int) + old(dst)@.skip(0));
        }
        while i < n
            invariant
                i <= n <= old(dst)@.len(),
                start + n <= inner.len(),
                plain.len() == start + i,
                plain == delta_decoded(inner@.take(start + i), stride as int),
                ring_of(ring, pos as int, plain, stride as int),
                dst@ == plain.skip(start as int) + old(dst)@.skip(i as int),
            decreases n - i,
        {
            let c: u8 = inner[start + i];
            let prev: u8 = ring[pos];
            let b: u8 = c.wrapping_add(prev);
            let ghost ring0 = ring;
            ring[pos] = b;
            proof {
                lemma_ring_push(ring0, pos as int, plain, stride as int, b, ring);
                let t = inner@.take(start + i + 1);
                assert(t.drop_last() =~= inner@.take(start + i));
            }
            dst[i] = b;
            pos = if pos + 1 == stride {
                0
            } else {
                pos + 1
            };
            i = i + 1;
            proof {
                plain = plain.push(b);
                assert(dst@ =~= plain.skip(start as int) + old(dst)@.skip(i as int));
            }
        }
        proof {
            lemma_delta_decoded_prefix(inner@, start + n, stride as int);
            assert(plain.skip(start as int) =~= delta_decoded(inner@, stride as int).subrange(
                start as int,
                start + n,
            ));
        }
        *self = DeltaReader { inner, at: start + n, stride, ring, pos, plain: Ghost(plain) };
        n
    }
}

/// Undoing the filter on the front of the input gives the front of the bytes.
pub proof fn lemma_delta_decoded_prefix(coded: Seq<u8>, n: int, stride: int)
    requires
        0 <= n <= coded.len(),
    ensures
        delta_decoded(coded, stride).len() == coded.len(),
        delta_decoded(coded.take(n), stride) == delta_decoded(coded, stride).take(n),
    decreases coded.len(),
{
    lemma_delta_decoded_len(coded, stride);
    if n == coded.len() {
        assert(coded.take(n) =~= coded);
        assert(delta_decoded(coded, stride).take(n) =~= delta_decoded(coded, stride));
    } else {
        lemma_delta_decoded_prefix(coded.drop_last(), n, stride);
        assert(coded.drop_last().take(n) =~= coded.take(n));
        assert(delta_decoded(coded, stride).take(n) =~= delta_decoded(
            coded.drop_last(),
            stride,
        ).take(n));
    }
}

} // verus!
