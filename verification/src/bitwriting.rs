//! Little-endian bit packing: bits are written least significant first and
//! gathered into bytes, the first bit of a byte being its lowest one.

use vstd::arithmetic::div_mod::*;
use vstd::arithmetic::power2::*;
use vstd::bits::*;
use vstd::prelude::*;

verus! {

/// Bit `i` (`0 <= i < 8`) of the byte `b`.
pub open spec fn byte_bit(b: u8, i: int) -> bool {
    (b as nat / pow2(i as nat)) % 2 == 1
}

/// The bits of a byte string, byte after byte, each byte lowest bit first.
pub open spec fn bits_of_bytes(bytes: Seq<u8>) -> Seq<bool> {
    Seq::new(8 * bytes.len(), |k: int| byte_bit(bytes[k / 8], k % 8))
}

/// Bit `i` of the natural number `v`.
pub open spec fn nat_bit(v: nat, i: nat) -> bool {
    (v / pow2(i)) % 2 == 1
}

/// The `width` lowest bits of `v`, lowest first.
pub open spec fn value_bits(v: nat, width: nat) -> Seq<bool> {
    Seq::new(width, |i: int| nat_bit(v, i as nat))
}

/// The number whose binary digits, lowest first, are `bits[start..start + width]`.
pub open spec fn read_value(bits: Seq<bool>, start: int, width: nat) -> nat
    decreases width,
{
    if width == 0 {
        0
    } else {
        read_value(bits, start, (width - 1) as nat) + (if bits[start + width - 1] {
            pow2((width - 1) as nat)
        } else {
            0
        })
    }
}

/// `bits` followed by the zero bits that complete the last byte.
pub open spec fn pad_to_bytes(bits: Seq<bool>) -> Seq<bool> {
    bits + Seq::new(((8 - bits.len() % 8) % 8) as nat, |i: int| false)
}

/// Accumulates bits and packs them into bytes.
pub struct BitWriter {
    buf: Vec<u8>,
    acc: u8,
    filled: u8,
}

impl View for BitWriter {
    type V = Seq<bool>;

    /// Every bit written so far, in order.
    closed spec fn view(&self) -> Seq<bool> {
        bits_of_bytes(self.buf@) + Seq::new(self.filled as nat, |i: int| byte_bit(self.acc, i))
    }
}

pub proof fn lemma_byte_bit_shift(b: u8, i: u8)
    requires
        i < 8,
    ensures
        byte_bit(b, i as int) == ((b >> i) & 1 == 1),
{
    lemma_u8_shr_is_div(b, i);
    let s = b >> i;
    assert(s & 1 == s % 2) by (bit_vector);
}

proof fn lemma_acc_update(acc: u8, f: u8, b: u8)
    by (bit_vector)
    requires
        f < 8,
        acc >> f == 0,
        b <= 1,
    ensures
        forall|i: u8| i < f ==> #[trigger] ((acc | (b << f)) >> i) & 1 == (acc >> i) & 1,
        ((acc | (b << f)) >> f) & 1 == b,
        f < 7 ==> (acc | (b << f)) >> ((f + 1) as u8) == 0,
{
}

proof fn lemma_high_bits_zero(acc: u8, f: u8)
    by (bit_vector)
    requires
        f < 8,
        acc >> f == 0,
    ensures
        forall|i: u8| f <= i < 8 ==> #[trigger] (acc >> i) & 1 == 0,
{
}

proof fn lemma_bits_of_bytes_push(bytes: Seq<u8>, b: u8)
    ensures
        bits_of_bytes(bytes.push(b)) == bits_of_bytes(bytes) + Seq::new(
            8,
            |i: int| byte_bit(b, i),
        ),
{
    let l = bits_of_bytes(bytes.push(b));
    let r = bits_of_bytes(bytes) + Seq::new(8, |i: int| byte_bit(b, i));
    assert forall|k: int| 0 <= k < l.len() implies l[k] == r[k] by {
        lemma_fundamental_div_mod(k, 8);
        if k < 8 * bytes.len() {
            assert(k / 8 < bytes.len());
        } else {
            assert(k / 8 == bytes.len());
        }
    }
    assert(l =~= r);
}

impl BitWriter {
    /// The writer's fields are consistent: fewer than eight pending bits and
    /// no stray bit above them.
    pub closed spec fn wf(&self) -> bool {
        self.filled < 8 && self.acc >> self.filled == 0
    }

    /// An empty writer; `capacity_bytes` only reserves room.
    pub fn new(capacity_bytes: usize) -> (writer: Self)
        ensures
            writer.wf(),
            writer@ == Seq::<bool>::empty(),
    {
        let w = Self { buf: Vec::with_capacity(capacity_bytes), acc: 0, filled: 0 };
        assert(0u8 >> 0u8 == 0) by (bit_vector);
        assert(w@ =~= Seq::<bool>::empty());
        w
    }

    /// Appends the lowest bit of `bit`.
    pub fn write_bit(&mut self, bit: u8)
        requires
            old(self).wf(),
        ensures
            final(self).wf(),
            final(self)@ == old(self)@.push(bit % 2 == 1),
    {
        let ghost old_view = self@;
        let b = bit & 1;
        assert(b == bit % 2 && b <= 1) by (bit_vector)
            requires
                b == bit & 1,
        ;
        let f = self.filled;
        let acc = self.acc | (b << f);
        proof {
            lemma_acc_update(self.acc, f, b);
            assert forall|i: int| 0 <= i < f implies byte_bit(acc, i) == byte_bit(self.acc, i) by {
                lemma_byte_bit_shift(acc, i as u8);
                lemma_byte_bit_shift(self.acc, i as u8);
            }
            lemma_byte_bit_shift(acc, f);
        }
        let ghost pending = Seq::new((f + 1) as nat, |i: int| byte_bit(acc, i));
        assert(pending =~= Seq::new(f as nat, |i: int| byte_bit(self.acc, i)).push(bit % 2 == 1));
        self.acc = acc;
        self.filled = f + 1;
        if self.filled == 8 {
            proof {
                lemma_bits_of_bytes_push(self.buf@, acc);
            }
            self.buf.push(self.acc);
            self.acc = 0;
            self.filled = 0;
            assert(0u8 >> 0u8 == 0) by (bit_vector);
            assert(self@ =~= old_view.push(bit % 2 == 1));
        } else {
            assert(self@ =~= old_view.push(bit % 2 == 1));
        }
    }

    /// Appends the `bits` lowest bits of `value`, lowest first (bits beyond
    /// the 64th are zero).
    pub fn write_bits(&mut self, value: u64, bits: usize)
        requires
            old(self).wf(),
        ensures
            final(self).wf(),
            final(self)@ == old(self)@ + value_bits(value as nat, bits as nat),
    {
        let ghost v0 = value as nat;
        let mut value = value;
        let mut k: usize = 0;
        proof {
            lemma2_to64();
            assert(v0 / pow2(0) == v0);
        }
        while k < bits
            invariant
                self.wf(),
                k <= bits,
                value as nat == v0 / pow2(k as nat),
                self@ == old(self)@ + value_bits(v0, k as nat),
            decreases bits - k,
        {
            let ghost before = self@;
            let b = (value & 1) as u8;
            assert(value & 1 == value % 2) by (bit_vector);
            self.write_bit(b);
            assert(value >> 1 == value / 2) by (bit_vector);
            proof {
                lemma_pow2_pos(k as nat);
                lemma_div_denominator(v0 as int, pow2(k as nat) as int, 2);
                lemma_pow2_unfold((k + 1) as nat);
                vstd::arithmetic::mul::lemma_mul_is_commutative(2, pow2(k as nat) as int);
            }
            value = value >> 1;
            assert(value_bits(v0, (k + 1) as nat) =~= value_bits(v0, k as nat).push(
                nat_bit(v0, k as nat),
            ));
            assert(self@ =~= old(self)@ + value_bits(v0, (k + 1) as nat));
            k = k + 1;
        }
    }

    /// The packed bytes: every written bit in order, the last byte completed
    /// with zero bits.
    pub fn finish(self) -> (bytes: Vec<u8>)
        requires
            self.wf(),
        ensures
            bits_of_bytes(bytes@) == pad_to_bytes(self@),
    {
        let mut buf = self.buf;
        if self.filled > 0 {
            proof {
                lemma_bits_of_bytes_push(buf@, self.acc);
                lemma_high_bits_zero(self.acc, self.filled);
                assert forall|i: int| self.filled <= i < 8 implies !byte_bit(self.acc, i) by {
                    lemma_byte_bit_shift(self.acc, i as u8);
                }
                assert(self@.len() % 8 == self.filled as int) by {
                    vstd::arithmetic::div_mod::lemma_mod_multiples_vanish(
                        buf@.len() as int,
                        self.filled as int,
                        8,
                    );
                }
            }
            buf.push(self.acc);
            assert(bits_of_bytes(buf@) =~= pad_to_bytes(self@));
        } else {
            proof {
                vstd::arithmetic::div_mod::lemma_mod_multiples_basic(buf@.len() as int, 8);
                vstd::arithmetic::mul::lemma_mul_is_commutative(buf@.len() as int, 8);
            }
            assert(bits_of_bytes(buf@) =~= pad_to_bytes(self@));
        }
        buf
    }
}

} // verus!
