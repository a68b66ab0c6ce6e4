//! The packing of 4-bit quantized weights: two 4-bit codes per byte, the
//! first in the high nibble.

use vstd::prelude::*;

verus! {

/// The byte that holds `hi` in its high nibble and `lo` in its low nibble
/// (each taken modulo 16).
pub open spec fn packed_byte(hi: u8, lo: u8) -> u8 {
    ((hi % 16) * 16 + lo % 16) as u8
}

/// Packs two 4-bit codes into one byte, the first in the high nibble.
pub fn pack_nibbles(hi: u8, lo: u8) -> (b: u8)
    ensures
        b == packed_byte(hi, lo),
{
    let b = (hi << 4u8) | (lo & 0x0Fu8);
    assert(b == ((hi % 16) * 16 + lo % 16) as u8) by (bit_vector)
        requires
            b == (hi << 4u8) | (lo & 0x0Fu8);
    b
}

/// The two 4-bit codes of a byte, high nibble first.
pub fn unpack_nibbles(b: u8) -> (r: (u8, u8))
    ensures
        r.0 == b / 16,
        r.1 == b % 16,
{
    let hi = (b >> 4u8) & 0x0Fu8;
    let lo = b & 0x0Fu8;
    assert(hi == b / 16) by (bit_vector)
        requires
            hi == (b >> 4u8) & 0x0Fu8;
    assert(lo == b % 16) by (bit_vector)
        requires
            lo == b & 0x0Fu8;
    (hi, lo)
}

/// The packed bytes of a row of codes: codes `2i` and `2i + 1` share byte
/// `i`.
pub open spec fn packed_row(q: Seq<u8>) -> Seq<u8> {
    Seq::new(q.len() / 2, |i: int| packed_byte(q[2 * i], q[2 * i + 1]))
}

/// The codes of a row of packed bytes, two per byte, high nibble first.
pub open spec fn unpacked_row(b: Seq<u8>) -> Seq<u8> {
    Seq::new(2 * b.len(), |i: int| if i % 2 == 0 { b[i / 2] / 16 } else { b[i / 2] % 16 })
}

/// Packs a row of 4-bit codes, two per byte (the row has an even length).
pub fn pack_row(q: &[u8]) -> (r: Vec<u8>)
    requires
        q@.len() % 2 == 0,
    ensures
        r@ == packed_row(q@),
{
    let len = q.len();
    let n = len / 2;
    let mut r: Vec<u8> = Vec::new();
    let mut i: usize = 0;
    while i < n
        invariant
            len == q@.len(),
            n == len / 2,
            2 * n <= len,
            i <= n,
            r@ == packed_row(q@).take(i as int),
        decreases n - i,
    {
        let b = pack_nibbles(q[2 * i], q[2 * i + 1]);
        r.push(b);
        i = i + 1;
        assert(r@ =~= packed_row(q@).take(i as int));
    }
    assert(packed_row(q@).take(n as int) =~= packed_row(q@));
    r
}

/// The 4-bit codes of a row of packed bytes.
pub fn unpack_row(b: &[u8]) -> (r: Vec<u8>)
    requires
        2 * b@.len() <= usize::MAX,
    ensures
        r@ == unpacked_row(b@),
{
    let mut r: Vec<u8> = Vec::new();
    let mut i: usize = 0;
    while i < b.len()
        invariant
            i <= b@.len(),
            r@ == unpacked_row(b@).take(2 * i),
        decreases b@.len() - i,
    {
        let (hi, lo) = unpack_nibbles(b[i]);
        r.push(hi);
        r.push(lo);
        i = i + 1;
        assert(r@ =~= unpacked_row(b@).take(2 * i));
    }
    assert(unpacked_row(b@).take(2 * b@.len() as int) =~= unpacked_row(b@));
    r
}

/// Unpacking gives back the codes that were packed, when each is a 4-bit
/// code and the row has an even length.
pub proof fn lemma_unpack_pack(q: Seq<u8>)
    requires
        q.len() % 2 == 0,
        forall|i: int| 0 <= i < q.len() ==> #[trigger] q[i] < 16,
    ensures
        unpacked_row(packed_row(q)) == q,
{
    let u = unpacked_row(packed_row(q));
    assert forall|i: int| 0 <= i < q.len() implies #[trigger] u[i] == q[i] by {
        let k = i / 2;
        let hi = q[2 * k];
        let lo = q[2 * k + 1];
        assert(packed_row(q)[k] == packed_byte(hi, lo));
        assert(hi < 16 && lo < 16);
        assert(packed_byte(hi, lo) / 16 == hi && packed_byte(hi, lo) % 16 == lo) by (nonlinear_arith)
            requires
                hi < 16,
                lo < 16,
                packed_byte(hi, lo) == ((hi % 16) * 16 + lo % 16) as u8;
    };
    assert(u =~= q);
}

/// Packing gives back the bytes that were unpacked.
pub proof fn lemma_pack_unpack(b: Seq<u8>)
    ensures
        packed_row(unpacked_row(b)) == b,
{
    let p = packed_row(unpacked_row(b));
    assert forall|i: int| 0 <= i < b.len() implies #[trigger] p[i] == b[i] by {
        let u = unpacked_row(b);
        assert(u[2 * i] == b[i] / 16);
        assert(u[2 * i + 1] == b[i] % 16);
        let x = b[i];
        assert(((x / 16) % 16) * 16 + (x % 16) % 16 == x) by (nonlinear_arith)
            requires
                x < 256;
    };
    assert(p =~= b);
}

} // verus!
