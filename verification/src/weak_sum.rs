//! The rolling checksum: two 16-bit sums over a window of bytes, which can be
//! moved one byte to the right in constant time.

use vstd::prelude::*;

verus! {

/// The plain sum of the bytes of `s`.
pub open spec fn byte_sum(s: Seq<u8>) -> int
    decreases s.len(),
{
    if s.len() == 0 {
        0
    } else {
        s[0] + byte_sum(s.drop_first())
    }
}

/// The sum of the bytes of `s`, each weighted by its distance from the end:
/// the byte at position `i` counts `s.len() - i` times.
pub open spec fn weighted_sum(s: Seq<u8>) -> int
    decreases s.len(),
{
    if s.len() == 0 {
        0
    } else {
        s.len() * s[0] + weighted_sum(s.drop_first())
    }
}

/// The checksum of a window: both sums, reduced modulo 2^16.
pub open spec fn checksum(s: Seq<u8>) -> (u16, u16) {
    ((byte_sum(s) % 0x1_0000) as u16, (weighted_sum(s) % 0x1_0000) as u16)
}

/// The checksum that `update` computes from the checksum `c` of a window of
/// `slice_length` bytes, when `old_prefix` leaves on the left and `new_suffix`
/// enters on the right. The second sum uses the first one after its update.
pub open spec fn rolled(c: (u16, u16), slice_length: u16, old_prefix: u8, new_suffix: u8) -> (
    u16,
    u16,
) {
    let a = (c.0 - old_prefix + new_suffix) % 0x1_0000;
    let b = (c.1 - slice_length * old_prefix + a) % 0x1_0000;
    (a as u16, b as u16)
}

/// The 32-bit form of a checksum: the weighted sum in the upper half, the
/// plain sum in the lower half.
pub open spec fn packed(c: (u16, u16)) -> u32 {
    (c.1 * 0x1_0000 + c.0) as u32
}

/// A rolling checksum of a window of bytes.
#[derive(Copy, Clone, Debug, PartialEq, Eq, Structural, Hash)]
pub struct WeakSum {
    a: u16,
    b: u16,
}

impl View for WeakSum {
    type V = (u16, u16);

    closed spec fn view(&self) -> (u16, u16) {
        (self.a, self.b)
    }
}

impl WeakSum {
    /// Moves the window one byte to the right: `old_prefix` is the byte that
    /// leaves it on the left, `new_suffix` the byte that enters on the right,
    /// `slice_length` the length of the window, taken modulo 2^16.
    pub fn update(&mut self, slice_length: u16, old_prefix: u8, new_suffix: u8)
        ensures
            final(self)@ == rolled(old(self)@, slice_length, old_prefix, new_suffix),
    {
        let ghost a0 = self.a as int;
        let ghost b0 = self.b as int;
        let entered: u16 = self.a.wrapping_add(new_suffix as u16);
        let a: u16 = entered.wrapping_sub(old_prefix as u16);
        let raised: u16 = self.b.wrapping_add(a);
        let weight: u16 = slice_length.wrapping_mul(old_prefix as u16);
        let b: u16 = raised.wrapping_sub(weight);
        proof {
            let p = old_prefix as int;
            let n = new_suffix as int;
            let l = slice_length as int;
            assert(a == (a0 - p + n) % 0x1_0000) by {
                assert(entered == (a0 + n) % 0x1_0000);
                assert(((a0 + n) % 0x1_0000 - p) % 0x1_0000 == (a0 - p + n) % 0x1_0000)
                    by (nonlinear_arith);
            }
            assert(weight == (l * p) % 0x1_0000) by {
                assert(l * p >= 0) by (nonlinear_arith)
                    requires
                        l >= 0,
                        p >= 0,
                ;
            }
            assert(b == (b0 - l * p + a) % 0x1_0000) by {
                assert(raised == (b0 + a) % 0x1_0000);
                assert(((b0 + a) % 0x1_0000 - (l * p) % 0x1_0000) % 0x1_0000 == (b0 - l * p + a)
                    % 0x1_0000) by (nonlinear_arith);
            }
        }
        self.a = a;
        self.b = b;
    }

    /// The checksum as one 32-bit number.
    pub fn to_u32(&self) -> (n: u32)
        ensures
            n == packed(self@),
    {
        let a: u16 = self.a;
        let b: u16 = self.b;
        assert(((b as u32) << 16 | (a as u32)) == (b as u32) * 0x1_0000 + (a as u32))
            by (bit_vector);
        (b as u32) << 16 | (a as u32)
    }
}

impl From<&[u8]> for WeakSum {
    /// The checksum of the bytes of `buf`, taken as one window.
    fn from(buf: &[u8]) -> (sum: WeakSum)
        ensures
            sum@ == checksum(buf@),
    {
        let mut a: u16 = 0;
        let mut b: u16 = 0;
        let mut i: usize = 0;
        while i < buf.len()
            invariant
                i <= buf.len(),
                a == byte_sum(buf@.take(i as int)) % 0x1_0000,
                b == weighted_sum(buf@.take(i as int)) % 0x1_0000,
            decreases buf.len() - i,
        {
            proof {
                let before = buf@.take(i as int);
                assert(buf@.take(i + 1) == before.push(buf@[i as int]));
                lemma_sums_push(before, buf@[i as int]);
                lemma_wrapping_step(byte_sum(before), buf@[i as int] as int);
                lemma_wrapping_step(weighted_sum(before), byte_sum(buf@.take(i + 1)));
            }
            a = a.wrapping_add(buf[i] as u16);
            b = b.wrapping_add(a);
            i += 1;
        }
        proof {
            assert(buf@.take(buf.len() as int) == buf@);
        }
        WeakSum { a, b }
    }
}

impl vstd::std_specs::convert::FromSpecImpl<&[u8]> for WeakSum {
    open spec fn obeys_from_spec() -> bool {
        true
    }

    closed spec fn from_spec(buf: &[u8]) -> WeakSum {
        WeakSum { a: checksum(buf@).0, b: checksum(buf@).1 }
    }
}

impl From<&WeakSum> for u32 {
    /// The checksum as one 32-bit number.
    fn from(sum: &WeakSum) -> (n: u32) {
        sum.to_u32()
    }
}

impl vstd::std_specs::convert::FromSpecImpl<&WeakSum> for u32 {
    open spec fn obeys_from_spec() -> bool {
        true
    }

    open spec fn from_spec(sum: &WeakSum) -> u32 {
        packed(sum@)
    }
}

impl Default for WeakSum {
    /// The checksum of the empty window.
    fn default() -> (sum: WeakSum)
        ensures
            sum@ == checksum(Seq::<u8>::empty()),
    {
        WeakSum { a: 0, b: 0 }
    }
}

/// Two checksums with the same view are the same checksum.
pub proof fn lemma_view_decides(x: WeakSum, y: WeakSum)
    requires
        x@ == y@,
    ensures
        x == y,
{
}

/// Two checksums with the same 32-bit form are the same checksum.
pub proof fn lemma_packed_injective(c: (u16, u16), d: (u16, u16))
    requires
        packed(c) == packed(d),
    ensures
        c == d,
{
}

/// Moving the window with `update` gives the checksum of the moved window:
/// for a window `w`, dropping its first byte and appending `new_suffix` turns
/// the checksum of `w` into that of the new window, with no byte read again.
pub proof fn lemma_update_moves_window(w: Seq<u8>, new_suffix: u8)
    requires
        w.len() > 0,
    ensures
        rolled(checksum(w), (w.len() % 0x1_0000) as u16, w[0], new_suffix) == checksum(
            w.drop_first().push(new_suffix),
        ),
{
    let rest = w.drop_first();
    lemma_sums_push(rest, new_suffix);
    lemma_sums_push(w, new_suffix);
    let len = w.len() as int;
    let p = w[0] as int;
    let n = new_suffix as int;
    let sa = byte_sum(w);
    let sb = weighted_sum(w);
    let m = 0x1_0000int;
    let qa = sa / m;
    let ql = len / m;
    let qb = sb / m;
    vstd::arithmetic::div_mod::lemma_fundamental_div_mod(sa, m);
    vstd::arithmetic::div_mod::lemma_fundamental_div_mod(len, m);
    vstd::arithmetic::div_mod::lemma_fundamental_div_mod(sb, m);
    lemma_same_residue(sa % m - p + n, sa - p + n, -qa);
    let a = (sa - p + n) % m;
    let qn = (sa - p + n) / m;
    vstd::arithmetic::div_mod::lemma_fundamental_div_mod(sa - p + n, m);
    assert((len % m) * p == len * p - (ql * p) * m) by (nonlinear_arith)
        requires
            len == m * ql + len % m,
    ;
    lemma_same_residue(
        sb % m - (len % m) * p + a,
        sb - len * p + (sa - p + n),
        -qb + ql * p - qn,
    );
}

/// Two numbers that differ by a multiple of 2^16 have the same residue.
proof fn lemma_same_residue(x: int, y: int, k: int)
    requires
        x == y + k * 0x1_0000,
    ensures
        x % 0x1_0000 == y % 0x1_0000,
{
    vstd::arithmetic::div_mod::lemma_mod_multiples_vanish(k, y, 0x1_0000);
    assert(0x1_0000 * k + y == x) by (nonlinear_arith)
        requires
            x == y + k * 0x1_0000,
    ;
}

/// Appending a byte adds it to the plain sum, and adds the new plain sum to
/// the weighted sum.
pub proof fn lemma_sums_push(s: Seq<u8>, x: u8)
    ensures
        byte_sum(s.push(x)) == byte_sum(s) + x,
        weighted_sum(s.push(x)) == weighted_sum(s) + byte_sum(s) + x,
        byte_sum(s) >= 0,
        weighted_sum(s) >= 0,
    decreases s.len(),
{
    if s.len() == 0 {
        assert(s.push(x).drop_first() == s);
    } else {
        lemma_sums_push(s.drop_first(), x);
        assert(s.push(x).drop_first() == s.drop_first().push(x));
        assert((s.len() + 1) * s[0] == s.len() * s[0] + s[0]) by (nonlinear_arith);
    }
}

/// A wrapping 16-bit addition of the residues of `x` and `y` is the residue
/// of `x + y`.
proof fn lemma_wrapping_step(x: int, y: int)
    requires
        x >= 0,
        y >= 0,
    ensures
        vstd::wrapping::u16_specs::wrapping_add((x % 0x1_0000) as u16, (y % 0x1_0000) as u16) == (x
            + y) % 0x1_0000,
{
    assert(((x % 0x1_0000) + (y % 0x1_0000)) % 0x1_0000 == (x + y) % 0x1_0000) by (nonlinear_arith);
    let s = (x % 0x1_0000) + (y % 0x1_0000);
    assert(0 <= s < 0x2_0000);
    if s > 0xffff {
        assert((s - 0x1_0000) % 0x1_0000 == s - 0x1_0000);
        assert(s % 0x1_0000 == (s - 0x1_0000) % 0x1_0000) by (nonlinear_arith);
    }
}

} // verus!
