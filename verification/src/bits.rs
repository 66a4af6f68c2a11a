use vstd::prelude::*;
use vstd::arithmetic::power2::pow2;

verus! {

/// One byte expanded into its eight bits, most significant first.
pub open spec fn byte_to_bits(b: u8) -> Seq<bool> {
    seq![
        b & 0x80 != 0,
        b & 0x40 != 0,
        b & 0x20 != 0,
        b & 0x10 != 0,
        b & 0x08 != 0,
        b & 0x04 != 0,
        b & 0x02 != 0,
        b & 0x01 != 0,
    ]
}

/// A byte string expanded into a bit string, each byte most significant
/// bit first.
pub open spec fn bytes_to_bits(bs: Seq<u8>) -> Seq<bool>
    decreases bs.len(),
{
    if bs.len() == 0 {
        Seq::empty()
    } else {
        byte_to_bits(bs.first()) + bytes_to_bits(bs.drop_first())
    }
}

/// The value of a bit string read as a big-endian binary number.
pub open spec fn bits_value(s: Seq<bool>) -> nat
    decreases s.len(),
{
    if s.len() == 0 {
        0
    } else {
        2 * bits_value(s.drop_last()) + (if s.last() {
            1nat
        } else {
            0nat
        })
    }
}

pub proof fn lemma_bits_value_bound(s: Seq<bool>)
    ensures
        bits_value(s) < pow2(s.len()),
    decreases s.len(),
{
    if s.len() == 0 {
        assert(pow2(0) == 1) by {
            vstd::arithmetic::power2::lemma2_to64();
        }
    } else {
        lemma_bits_value_bound(s.drop_last());
        assert(pow2(s.len()) == 2 * pow2((s.len() - 1) as nat)) by {
            vstd::arithmetic::power2::lemma_pow2_adds(1, (s.len() - 1) as nat);
            vstd::arithmetic::power2::lemma2_to64();
        }
    }
}

pub proof fn lemma_bytes_to_bits_take(bs: Seq<u8>, i: int)
    requires
        0 <= i < bs.len(),
    ensures
        bytes_to_bits(bs.take(i + 1)) == bytes_to_bits(bs.take(i)) + byte_to_bits(bs[i]),
    decreases i,
{
    if i == 0 {
        assert(bs.take(1).drop_first() =~= Seq::<u8>::empty());
        assert(bs.take(0) =~= Seq::<u8>::empty());
        assert(bytes_to_bits(Seq::<u8>::empty()) == Seq::<bool>::empty());
        assert(bytes_to_bits(bs.take(1)) =~= byte_to_bits(bs[0]));
        assert(bytes_to_bits(bs.take(0) ) + byte_to_bits(bs[0]) =~= byte_to_bits(bs[0]));
    } else {
        lemma_bytes_to_bits_take(bs.drop_first(), i - 1);
        assert(bs.take(i + 1).drop_first() =~= bs.drop_first().take(i));
        assert(bs.take(i).drop_first() =~= bs.drop_first().take(i - 1));
        assert(bs.take(i + 1).first() == bs.first());
        assert(bs.take(i).first() == bs.first());
        assert(bytes_to_bits(bs.take(i + 1)) =~= bytes_to_bits(bs.take(i)) + byte_to_bits(bs[i]));
    }
}

pub proof fn lemma_bytes_to_bits_len(bs: Seq<u8>)
    ensures
        bytes_to_bits(bs).len() == 8 * bs.len(),
    decreases bs.len(),
{
    if bs.len() > 0 {
        lemma_bytes_to_bits_len(bs.drop_first());
    }
}

fn push_byte_bits(bits: &mut Vec<bool>, b: u8)
    ensures
        final(bits)@ == old(bits)@ + byte_to_bits(b),
{
    bits.push(b & 0x80 != 0);
    bits.push(b & 0x40 != 0);
    bits.push(b & 0x20 != 0);
    bits.push(b & 0x10 != 0);
    bits.push(b & 0x08 != 0);
    bits.push(b & 0x04 != 0);
    bits.push(b & 0x02 != 0);
    bits.push(b & 0x01 != 0);
    proof {
        assert(bits@ =~= old(bits)@ + byte_to_bits(b));
    }
}

/// A byte reconstructed from the value of eight bits expands back to
/// those bits.
pub proof fn lemma_byte_to_bits_value(s: Seq<bool>)
    requires
        s.len() == 8,
    ensures
        bits_value(s) < 256,
        byte_to_bits(bits_value(s) as u8) == s,
{
    let t7 = s.drop_last();
    let t6 = t7.drop_last();
    let t5 = t6.drop_last();
    let t4 = t5.drop_last();
    let t3 = t4.drop_last();
    let t2 = t3.drop_last();
    let t1 = t2.drop_last();
    let t0 = t1.drop_last();
    assert(t0.len() == 0);
    assert(t7.last() == s[6] && t6.last() == s[5] && t5.last() == s[4] && t4.last() == s[3]
        && t3.last() == s[2] && t2.last() == s[1] && t1.last() == s[0]) by {
        assert(t7 =~= s.take(7));
        assert(t6 =~= s.take(6));
        assert(t5 =~= s.take(5));
        assert(t4 =~= s.take(4));
        assert(t3 =~= s.take(3));
        assert(t2 =~= s.take(2));
        assert(t1 =~= s.take(1));
    }
    assert(s.last() == s[7]);
    let x0: u8 = if s[0] { 1 } else { 0 };
    let x1: u8 = if s[1] { 1 } else { 0 };
    let x2: u8 = if s[2] { 1 } else { 0 };
    let x3: u8 = if s[3] { 1 } else { 0 };
    let x4: u8 = if s[4] { 1 } else { 0 };
    let x5: u8 = if s[5] { 1 } else { 0 };
    let x6: u8 = if s[6] { 1 } else { 0 };
    let x7: u8 = if s[7] { 1 } else { 0 };
    assert(bits_value(t0) == 0);
    assert(bits_value(t1) == x0);
    assert(bits_value(t2) == 2 * x0 + x1);
    assert(bits_value(t3) == 4 * x0 + 2 * x1 + x2);
    assert(bits_value(t4) == 8 * x0 + 4 * x1 + 2 * x2 + x3);
    assert(bits_value(t5) == 16 * x0 + 8 * x1 + 4 * x2 + 2 * x3 + x4);
    assert(bits_value(t6) == 32 * x0 + 16 * x1 + 8 * x2 + 4 * x3 + 2 * x4 + x5);
    assert(bits_value(t7) == 64 * x0 + 32 * x1 + 16 * x2 + 8 * x3 + 4 * x4 + 2 * x5 + x6);
    assert(bits_value(s) == 128 * x0 + 64 * x1 + 32 * x2 + 16 * x3 + 8 * x4 + 4 * x5 + 2 * x6
        + x7);
    let b: u8 = bits_value(s) as u8;
    assert((x0 <= 1 && x1 <= 1 && x2 <= 1 && x3 <= 1 && x4 <= 1 && x5 <= 1 && x6 <= 1 && x7 <= 1
        && b == 128 * x0 + 64 * x1 + 32 * x2 + 16 * x3 + 8 * x4 + 4 * x5 + 2 * x6 + x7) ==> {
        &&& (b & 0x80 != 0) == (x0 == 1)
        &&& (b & 0x40 != 0) == (x1 == 1)
        &&& (b & 0x20 != 0) == (x2 == 1)
        &&& (b & 0x10 != 0) == (x3 == 1)
        &&& (b & 0x08 != 0) == (x4 == 1)
        &&& (b & 0x04 != 0) == (x5 == 1)
        &&& (b & 0x02 != 0) == (x6 == 1)
        &&& (b & 0x01 != 0) == (x7 == 1)
    }) by (bit_vector);
    assert(byte_to_bits(b) =~= s);
}

/// A cursor over a fully buffered bit string, handing out one bit at a
/// time and counting how many bits were consumed.
pub struct BitIter {
    bits: Vec<bool>,
    pos: usize,
}

impl BitIter {
    /// The whole underlying bit string, independent of the cursor.
    pub closed spec fn stream(&self) -> Seq<bool> {
        self.bits@
    }

    /// How many bits were consumed so far.
    pub closed spec fn pos(&self) -> int {
        self.pos as int
    }

    /// The cursor always sits between the start and the end of the
    /// stream.
    #[verifier::type_invariant]
    pub open spec fn wf(&self) -> bool {
        0 <= self.pos() <= self.stream().len() <= usize::MAX
    }

    /// The bits not yet consumed.
    pub open spec fn remaining(&self) -> Seq<bool> {
        self.stream().skip(self.pos())
    }

    /// Split a byte string into bits, most significant bit of each byte
    /// first, and place the cursor at the start.
    pub fn from_bytes(bytes: &[u8]) -> (r: BitIter)
        ensures
            r.stream() == bytes_to_bits(bytes@),
            r.pos() == 0,
    {
        let mut bits: Vec<bool> = Vec::new();
        let mut i: usize = 0;
        proof {
            assert(bytes@.take(0) =~= Seq::<u8>::empty());
        }
        while i < bytes.len()
            invariant
                0 <= i <= bytes@.len(),
                bits@ == bytes_to_bits(bytes@.take(i as int)),
            decreases bytes@.len() - i,
        {
            push_byte_bits(&mut bits, bytes[i]);
            proof {
                lemma_bytes_to_bits_take(bytes@, i as int);
            }
            i = i + 1;
        }
        proof {
            assert(bytes@.take(bytes@.len() as int) =~= bytes@);
        }
        let _n = bits.len();
        BitIter { bits, pos: 0 }
    }

    /// Place the cursor at the start of a given bit string.
    pub fn from_bits(bits: Vec<bool>) -> (r: BitIter)
        ensures
            r.stream() == bits@,
            r.pos() == 0,
    {
        let _n = bits.len();
        BitIter { bits, pos: 0 }
    }

    /// Pull the next bit, or `None` once the stream is exhausted.
    pub fn next(&mut self) -> (r: Option<bool>)
        ensures
            final(self).stream() == old(self).stream(),
            match r {
                Some(b) => {
                    &&& old(self).pos() < old(self).stream().len()
                    &&& b == old(self).stream()[old(self).pos()]
                    &&& final(self).pos() == old(self).pos() + 1
                },
                None => {
                    &&& old(self).pos() == old(self).stream().len()
                    &&& final(self).pos() == old(self).pos()
                },
            },
    {
        proof {
            use_type_invariant(&*self);
        }
        if self.pos < self.bits.len() {
            let b = self.bits[self.pos];
            self.pos = self.pos + 1;
            Some(b)
        } else {
            None
        }
    }

    /// Read `n` bits as one big-endian number, consuming them, or `None`
    /// (consuming nothing) if fewer than `n` bits remain.
    pub fn read_bits_be(&mut self, n: usize) -> (r: Option<u64>)
        requires
            n <= 64,
        ensures
            final(self).stream() == old(self).stream(),
            match r {
                Some(v) => {
                    &&& old(self).pos() + n <= old(self).stream().len()
                    &&& v as nat == bits_value(
                        old(self).stream().subrange(old(self).pos(), old(self).pos() + n),
                    )
                    &&& final(self).pos() == old(self).pos() + n
                },
                None => {
                    &&& old(self).pos() + n > old(self).stream().len()
                    &&& final(self).pos() == old(self).pos()
                },
            },
    {
        proof {
            use_type_invariant(&*self);
        }
        if self.bits.len() - self.pos < n {
            return None;
        }
        let ghost s = self.bits@;
        let ghost p0 = self.pos as int;
        let mut v: u64 = 0;
        let mut j: usize = 0;
        proof {
            assert(s.subrange(p0, p0) =~= Seq::<bool>::empty());
            assert(pow2(0) == 1) by {
                vstd::arithmetic::power2::lemma2_to64();
            }
        }
        while j < n
            invariant
                0 <= j <= n,
                n <= 64,
                0 <= p0,
                p0 + n <= s.len(),
                s.len() <= usize::MAX,
                self.bits@ == s,
                self.pos as int == p0 + j,
                v as nat == bits_value(s.subrange(p0, p0 + j)),
                (v as nat) < pow2(j as nat),
            decreases n - j,
        {
            let b = self.bits[self.pos];
            proof {
                assert(pow2(63) == 0x8000_0000_0000_0000) by {
                    vstd::arithmetic::power2::lemma2_to64();
                    vstd::arithmetic::power2::lemma2_to64_rest();
                }
                if (j as nat) < 63 {
                    vstd::arithmetic::power2::lemma_pow2_strictly_increases(j as nat, 63);
                }
                assert(pow2((j + 1) as nat) == 2 * pow2(j as nat)) by {
                    vstd::arithmetic::power2::lemma_pow2_adds(1, j as nat);
                    vstd::arithmetic::power2::lemma2_to64();
                }
                assert(s.subrange(p0, p0 + j + 1).drop_last() =~= s.subrange(p0, p0 + j));
                assert(s.subrange(p0, p0 + j + 1).last() == s[p0 + j]);
            }
            v = 2 * v + (if b { 1 } else { 0 });
            self.pos = self.pos + 1;
            j = j + 1;
        }
        proof {
            assert(s.subrange(p0, p0 + n as int) =~= s.subrange(p0, p0 + j as int));
        }
        Some(v)
    }

    /// How many bits have been consumed since construction.
    pub fn n_total_read(&self) -> (r: usize)
        ensures
            r as int == self.pos(),
    {
        self.pos
    }
}

/// A sink that collects bits one at a time and finally packs them into
/// bytes, padding the last byte with zero bits.
pub struct BitWriter {
    bits: Vec<bool>,
}

/// Number of zero bits needed to pad a bit string of length `n` to a
/// whole number of bytes.
pub open spec fn pad_len(n: nat) -> nat {
    (((8 - n % 8) as int) % 8) as nat
}

impl BitWriter {
    /// All bits written so far, in order.
    pub closed spec fn bits(&self) -> Seq<bool> {
        self.bits@
    }

    /// An empty sink.
    pub fn new() -> (r: BitWriter)
        ensures
            r.bits() == Seq::<bool>::empty(),
    {
        BitWriter { bits: Vec::new() }
    }

    /// Append one bit.
    pub fn write_bit(&mut self, b: bool)
        ensures
            final(self).bits() == old(self).bits().push(b),
    {
        self.bits.push(b);
    }

    /// How many bits were written so far.
    pub fn n_total_written(&self) -> (r: usize)
        ensures
            r == self.bits().len(),
    {
        self.bits.len()
    }

    /// Pack the written bits into bytes, most significant bit of each
    /// byte first, padding the final partial byte with zero bits.
    pub fn to_bytes(&self) -> (r: Vec<u8>)
        ensures
            bytes_to_bits(r@) == self.bits() + Seq::new(pad_len(self.bits().len() as nat), |i: int| false),
    {
        let ghost padded_spec = self.bits() + Seq::new(
            pad_len(self.bits().len() as nat),
            |i: int| false,
        );
        let mut padded: Vec<bool> = Vec::new();
        let mut i: usize = 0;
        while i < self.bits.len()
            invariant
                0 <= i <= self.bits@.len(),
                padded@ == self.bits@.take(i as int),
            decreases self.bits@.len() - i,
        {
            padded.push(self.bits[i]);
            proof {
                assert(padded@ =~= self.bits@.take(i + 1));
            }
            i = i + 1;
        }
        proof {
            assert(self.bits@.take(self.bits@.len() as int) =~= self.bits@);
        }
        let pad = (8 - self.bits.len() % 8) % 8;
        let mut k: usize = 0;
        while k < pad
            invariant
                0 <= k <= pad,
                pad == pad_len(self.bits@.len() as nat),
                padded@.len() == self.bits@.len() + k,
                padded@.take(self.bits@.len() as int) == self.bits@,
                forall|q: int| self.bits@.len() <= q < padded@.len() ==> !padded@[q],
            decreases pad - k,
        {
            padded.push(false);
            k = k + 1;
        }
        proof {
            assert(padded@.len() % 8 == 0);
            assert(padded@ =~= padded_spec);
        }
        let mut out: Vec<u8> = Vec::new();
        let mut i: usize = 0;
        proof {
            assert(padded@.take(0) =~= Seq::<bool>::empty());
        }
        while i < padded.len()
            invariant
                0 <= i <= padded@.len(),
                i % 8 == 0,
                padded@.len() % 8 == 0,
                bytes_to_bits(out@) == padded@.take(i as int),
                out@.len() == i / 8,
            decreases padded@.len() - i,
        {
            let b: u8 = pack_byte(
                padded[i],
                padded[i + 1],
                padded[i + 2],
                padded[i + 3],
                padded[i + 4],
                padded[i + 5],
                padded[i + 6],
                padded[i + 7],
            );
            proof {
                assert(byte_to_bits(b) =~= padded@.subrange(i as int, i + 8));
            }
            let ghost out_old = out@;
            out.push(b);
            proof {
                lemma_bytes_to_bits_take(out@, out@.len() - 1);
                assert(out@.take(out@.len() as int) =~= out@);
                assert(out@.take(out@.len() - 1) =~= out_old);
                assert(padded@.take(i + 8) =~= padded@.take(i as int) + padded@.subrange(
                    i as int,
                    i + 8,
                ));
                assert(bytes_to_bits(out@) == padded@.take(i + 8));
            }
            i = i + 8;
        }
        proof {
            assert(padded@.take(padded@.len() as int) =~= padded@);
        }
        out
    }
}

fn pack_byte(c0: bool, c1: bool, c2: bool, c3: bool, c4: bool, c5: bool, c6: bool, c7: bool) -> (b:
    u8)
    ensures
        byte_to_bits(b) == seq![c0, c1, c2, c3, c4, c5, c6, c7],
{
    let b: u8 = (if c0 { 0x80u8 } else { 0u8 }) | (if c1 { 0x40u8 } else { 0u8 })
        | (if c2 { 0x20u8 } else { 0u8 }) | (if c3 { 0x10u8 } else { 0u8 })
        | (if c4 { 0x08u8 } else { 0u8 }) | (if c5 { 0x04u8 } else { 0u8 })
        | (if c6 { 0x02u8 } else { 0u8 }) | (if c7 { 0x01u8 } else { 0u8 });
    proof {
        lemma_byte_from_bits(c0, c1, c2, c3, c4, c5, c6, c7, b);
    }
    b
}

proof fn lemma_byte_from_bits(
    c0: bool,
    c1: bool,
    c2: bool,
    c3: bool,
    c4: bool,
    c5: bool,
    c6: bool,
    c7: bool,
    b: u8,
)
    requires
        b == (if c0 { 0x80u8 } else { 0u8 }) | (if c1 { 0x40u8 } else { 0u8 })
            | (if c2 { 0x20u8 } else { 0u8 }) | (if c3 { 0x10u8 } else { 0u8 })
            | (if c4 { 0x08u8 } else { 0u8 }) | (if c5 { 0x04u8 } else { 0u8 })
            | (if c6 { 0x02u8 } else { 0u8 }) | (if c7 { 0x01u8 } else { 0u8 }),
    ensures
        byte_to_bits(b) == seq![c0, c1, c2, c3, c4, c5, c6, c7],
{
    let x0: u8 = if c0 { 0x80 } else { 0 };
    let x1: u8 = if c1 { 0x40 } else { 0 };
    let x2: u8 = if c2 { 0x20 } else { 0 };
    let x3: u8 = if c3 { 0x10 } else { 0 };
    let x4: u8 = if c4 { 0x08 } else { 0 };
    let x5: u8 = if c5 { 0x04 } else { 0 };
    let x6: u8 = if c6 { 0x02 } else { 0 };
    let x7: u8 = if c7 { 0x01 } else { 0 };
    assert((x0 == 0x80 || x0 == 0) && (x1 == 0x40 || x1 == 0) && (x2 == 0x20 || x2 == 0) && (x3
        == 0x10 || x3 == 0) && (x4 == 0x08 || x4 == 0) && (x5 == 0x04 || x5 == 0) && (x6 == 0x02
        || x6 == 0) && (x7 == 0x01 || x7 == 0) ==> {
        let y = x0 | x1 | x2 | x3 | x4 | x5 | x6 | x7;
        &&& (y & 0x80 != 0) == (x0 == 0x80)
        &&& (y & 0x40 != 0) == (x1 == 0x40)
        &&& (y & 0x20 != 0) == (x2 == 0x20)
        &&& (y & 0x10 != 0) == (x3 == 0x10)
        &&& (y & 0x08 != 0) == (x4 == 0x08)
        &&& (y & 0x04 != 0) == (x5 == 0x04)
        &&& (y & 0x02 != 0) == (x6 == 0x02)
        &&& (y & 0x01 != 0) == (x7 == 0x01)
    }) by (bit_vector);
    assert(byte_to_bits(b) =~= seq![c0, c1, c2, c3, c4, c5, c6, c7]);
}

} // verus!
