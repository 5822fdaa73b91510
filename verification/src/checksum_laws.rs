//! Laws on the checksum.

use crate::checksum;
use vstd::prelude::*;

verus! {

/// A number in four bytes, the least significant first.
pub open spec fn low_first(n: u32) -> Seq<u8> {
    seq![
        (n & 0xff) as u8,
        ((n >> 8u32) & 0xff) as u8,
        ((n >> 16u32) & 0xff) as u8,
        ((n >> 24u32) & 0xff) as u8,
    ]
}

/// The register once eight bits have left it.
spec fn eight(r: u32) -> u32 {
    checksum::crc_shifted(
        checksum::crc_shifted(
            checksum::crc_shifted(
                checksum::crc_shifted(
                    checksum::crc_shifted(
                        checksum::crc_shifted(
                            checksum::crc_shifted(checksum::crc_shifted(r)),
                        ),
                    ),
                ),
            ),
        ),
    )
}

proof fn lemma_byte_taken(bytes: Seq<u8>, b: u8)
    ensures
        checksum::crc_register(bytes.push(b)) == eight(checksum::crc_register(bytes) ^ b as u32),
{
    assert(bytes.push(b).drop_last() =~= bytes);
    reveal_with_fuel(checksum::crc_shifted_by, 9);
}

/// Law: the checksum of bytes with their own checksum behind them, its least
/// significant byte first, is the same for all bytes; that of no bytes is zero.
pub proof fn law_checksum_of_checksum(bytes: Seq<u8>)
    ensures
        checksum::crc32(bytes + low_first(checksum::crc32(bytes))) == 0x2144_df1c,
        bytes.len() == 0 ==> checksum::crc32(bytes) == 0,
{
    reveal(checksum::crc32);
    assert(!0xffff_ffffu32 == 0) by (bit_vector);
    let r = checksum::crc_register(bytes);
    let c = checksum::crc32(bytes);
    let four = low_first(c);
    let all = bytes + four;
    let one = bytes.push(four[0]);
    let two = one.push(four[1]);
    let three = two.push(four[2]);
    assert(all =~= three.push(four[3]));
    lemma_byte_taken(bytes, four[0]);
    lemma_byte_taken(one, four[1]);
    lemma_byte_taken(two, four[2]);
    lemma_byte_taken(three, four[3]);
    assert(eight(r ^ ((((!r) & 0xff) as u8) as u32)) == (r >> 8u32) ^ 0x2d02_ef8d)
        by (bit_vector);
    assert(eight(((r >> 8u32) ^ 0x2d02_ef8d) ^ (((((!r) >> 8u32) & 0xff) as u8) as u32)) == (r
        >> 16u32) ^ 0xbe26_12ff) by (bit_vector);
    assert(eight(((r >> 16u32) ^ 0xbe26_12ff) ^ (((((!r) >> 16u32) & 0xff) as u8) as u32)) == (r
        >> 24u32) ^ 0x00be_2612) by (bit_vector);
    assert(eight(((r >> 24u32) ^ 0x00be_2612) ^ (((((!r) >> 24u32) & 0xff) as u8) as u32))
        == 0xdebb_20e3) by (bit_vector);
    assert(!0xdebb_20e3u32 == 0x2144_df1c) by (bit_vector);
}

/// Different registers stay different when the same byte is taken in.
proof fn lemma_stay_different(r: u32, q: u32, b: u8)
    requires
        r != q,
    ensures
        eight(r ^ b as u32) != eight(q ^ b as u32),
{
    assert(r != q ==> r ^ b as u32 != q ^ b as u32) by (bit_vector);
    lemma_shifted_apart(r ^ b as u32, q ^ b as u32);
}

proof fn lemma_shifted_apart(r: u32, q: u32)
    requires
        r != q,
    ensures
        eight(r) != eight(q),
{
    assert(forall|x: u32, y: u32|
        x != y ==> #[trigger] checksum::crc_shifted(x) != #[trigger] checksum::crc_shifted(y))
        by (bit_vector);
}

proof fn lemma_registers_apart(a: Seq<u8>, b: Seq<u8>, rest: Seq<u8>)
    requires
        checksum::crc_register(a) != checksum::crc_register(b),
    ensures
        checksum::crc_register(a + rest) != checksum::crc_register(b + rest),
    decreases rest.len(),
{
    if rest.len() == 0 {
        assert(a + rest =~= a && b + rest =~= b);
    } else {
        let front = rest.drop_last();
        let last = rest.last();
        lemma_registers_apart(a, b, front);
        assert(a + rest =~= (a + front).push(last));
        assert(b + rest =~= (b + front).push(last));
        lemma_byte_taken(a + front, last);
        lemma_byte_taken(b + front, last);
        lemma_stay_different(
            checksum::crc_register(a + front),
            checksum::crc_register(b + front),
            last,
        );
    }
}

/// Law: bytes that differ in one place have different checksums.
pub proof fn law_changed_byte_shows(front: Seq<u8>, x: u8, y: u8, rest: Seq<u8>)
    requires
        x != y,
    ensures
        checksum::crc32(front.push(x) + rest) != checksum::crc32(front.push(y) + rest),
{
    reveal(checksum::crc32);
    let r = checksum::crc_register(front);
    lemma_byte_taken(front, x);
    lemma_byte_taken(front, y);
    assert(x != y ==> r ^ x as u32 != r ^ y as u32) by (bit_vector);
    lemma_shifted_apart(r ^ x as u32, r ^ y as u32);
    lemma_registers_apart(front.push(x), front.push(y), rest);
    let p = checksum::crc_register(front.push(x) + rest);
    let q = checksum::crc_register(front.push(y) + rest);
    assert(p != q ==> !p != !q) by (bit_vector);
}

} // verus!
