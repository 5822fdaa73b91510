//! What the portable pixmap formats have in common: numbers in text headers,
//! and samples picked out of pixels.

use vstd::arithmetic::div_mod;
use vstd::arithmetic::mul;
use vstd::prelude::*;
use vstd::string::StringSliceAdditionalSpecFns;

verus! {

/// The decimal digits of a number, in ASCII.
pub open spec fn decimal(n: nat) -> Seq<u8>
    decreases n,
{
    if n < 10 {
        seq![(48 + n) as u8]
    } else {
        decimal(n / 10).push((48 + n % 10) as u8)
    }
}

/// Adds the decimal digits of `n`.
pub fn push_decimal(out: &mut Vec<u8>, n: u64)
    ensures
        final(out)@ == old(out)@ + decimal(n as nat),
    decreases n,
{
    if n >= 10 {
        push_decimal(out, n / 10);
    }
    out.push((48 + n % 10) as u8);
    assert(out@ =~= old(out)@ + decimal(n as nat));
}

/// The number that decimal digits in ASCII stand for.
pub open spec fn number_of(digits: Seq<u8>) -> nat
    decreases digits.len(),
{
    if digits.len() == 0 {
        0
    } else {
        10 * number_of(digits.drop_last()) + (digits.last() - 48) as nat
    }
}

/// Law: the digits of a number are decimal digits, stand for that number, and
/// do not begin with a zero unless the number is zero.
pub proof fn law_decimal_read_back(n: nat)
    ensures
        decimal(n).len() > 0,
        forall|i: int| 0 <= i < decimal(n).len() ==> 48 <= #[trigger] decimal(n)[i] <= 57,
        number_of(decimal(n)) == n,
        n > 0 ==> decimal(n)[0] != 48,
    decreases n,
{
    reveal_with_fuel(number_of, 2);
    if n >= 10 {
        law_decimal_read_back(n / 10);
        assert(decimal(n).drop_last() =~= decimal(n / 10));
    } else {
        assert(decimal(n).drop_last() =~= Seq::<u8>::empty());
    }
}

/// Adds `text`.
pub fn push_text(out: &mut Vec<u8>, text: &str)
    ensures
        final(out)@ == old(out)@ + text.spec_bytes(),
{
    out.extend_from_slice(text.as_bytes());
    assert(out@ =~= old(out)@ + text.spec_bytes());
}

/// Adds `bytes`.
pub fn push_bytes(out: &mut Vec<u8>, bytes: &[u8])
    ensures
        final(out)@ == old(out)@ + bytes@,
{
    out.extend_from_slice(bytes);
    assert(out@ =~= old(out)@ + bytes@);
}

/// The greatest sample value of a pixmap for the given bit depth.
pub open spec fn max_sample(bit_depth: u8) -> nat {
    if bit_depth == 16 {
        65535
    } else {
        255
    }
}

/// The bytes `picks` of every whole group of `group` bytes of `raw`, group
/// after group.
pub open spec fn picked(raw: Seq<u8>, group: nat, picks: Seq<usize>) -> Seq<u8> {
    Seq::new(
        raw.len() / group * picks.len(),
        |j: int| raw[(group * (j / picks.len() as int) + picks[j % picks.len() as int]) as int],
    )
}

/// Law: bytes that end with a whole group can be converted apart from those
/// behind them.
pub proof fn law_picked_joined(a: Seq<u8>, b: Seq<u8>, group: nat, picks: Seq<usize>)
    requires
        0 < group,
        a.len() % group == 0,
        forall|k: int| 0 <= k < picks.len() ==> #[trigger] picks[k] < group,
    ensures
        picked(a + b, group, picks) == picked(a, group, picks) + picked(b, group, picks),
{
    let g = group as int;
    let width = picks.len() as int;
    let n = a.len() as int / g;
    let m = b.len() as int / g;
    div_mod::lemma_fundamental_div_mod(a.len() as int, g);
    div_mod::lemma_fundamental_div_mod(b.len() as int, g);
    assert((a.len() + b.len()) as int / g == n + m) by {
        mul::lemma_mul_is_distributive_add(g, n, m);
        mul::lemma_mul_is_commutative(g, n + m);
        div_mod::lemma_fundamental_div_mod_converse(
            (a.len() + b.len()) as int,
            g,
            n + m,
            b.len() as int % g,
        );
    }
    mul::lemma_mul_is_distributive_add_other_way(width, n, m);
    let whole = picked(a + b, group, picks);
    let parts = picked(a, group, picks) + picked(b, group, picks);
    assert forall|j: int| 0 <= j < whole.len() implies whole[j] == parts[j] by {
        let q = j / width;
        let r = j % width;
        lemma_pick(n + m, group, picks, j);
        if j < n * width {
            lemma_pick(n, group, picks, j);
            assert(parts[j] == a[g * q + picks[r]]);
        } else {
            let i = j - n * width;
            div_mod::lemma_fundamental_div_mod(j, width);
            mul::lemma_mul_is_commutative(width, q);
            mul::lemma_mul_is_distributive_sub_other_way(width, q, n);
            div_mod::lemma_fundamental_div_mod_converse(i, width, q - n, r);
            mul::lemma_mul_is_distributive_sub(g, q, n);
            lemma_pick(m, group, picks, i);
            assert(parts[j] == b[g * (q - n) + picks[r]]);
        }
    }
    assert(whole =~= parts);
}

/// The byte `j` picked out of `count` groups stands in one of them, at one of
/// the places picked.
proof fn lemma_pick(count: int, group: nat, picks: Seq<usize>, j: int)
    requires
        0 < group,
        forall|k: int| 0 <= k < picks.len() ==> #[trigger] picks[k] < group,
        0 <= j < count * picks.len(),
    ensures
        0 < picks.len(),
        0 <= j / picks.len() as int,
        0 <= j % (picks.len() as int) < picks.len(),
        0 <= group * (j / picks.len() as int) + picks[j % picks.len() as int] < group * count,
        (group * (j / picks.len() as int) + picks[j % picks.len() as int]) % group as int
            == picks[j % picks.len() as int],
{
    let g = group as int;
    let width = picks.len() as int;
    if width == 0 {
        assert(count * width == 0);
    }
    let q = j / width;
    let r = j % width;
    div_mod::lemma_fundamental_div_mod(j, width);
    div_mod::lemma_div_pos_is_pos(j, width);
    mul::lemma_mul_is_commutative(width, q);
    if q >= count {
        mul::lemma_mul_inequality(count, q, width);
    }
    assert(picks[r] < group);
    mul::lemma_mul_is_commutative(g, q);
    mul::lemma_mul_is_commutative(g, count);
    mul::lemma_mul_inequality(q + 1, count, g);
    mul::lemma_mul_is_distributive_add_other_way(g, q, 1);
    mul::lemma_mul_nonnegative(q, g);
    div_mod::lemma_fundamental_div_mod_converse(g * q + picks[r], g, q, picks[r] as int);
}

/// Law: only the bytes at the places picked matter.
pub proof fn law_picked_alone(a: Seq<u8>, b: Seq<u8>, group: nat, picks: Seq<usize>)
    requires
        0 < group,
        forall|k: int| 0 <= k < picks.len() ==> #[trigger] picks[k] < group,
        a.len() == b.len(),
        forall|i: int, k: int|
            #![trigger a[i], picks[k]]
            0 <= i < a.len() && 0 <= k < picks.len() && i % group as int == picks[k] ==> a[i]
                == b[i],
    ensures
        picked(a, group, picks) == picked(b, group, picks),
{
    let n = a.len() as int / group as int;
    div_mod::lemma_fundamental_div_mod(a.len() as int, group as int);
    let x = picked(a, group, picks);
    let y = picked(b, group, picks);
    assert forall|j: int| 0 <= j < x.len() implies x[j] == y[j] by {
        lemma_pick(n, group, picks, j);
        let i = group * (j / picks.len() as int) + picks[j % picks.len() as int];
        let k = j % picks.len() as int;
        assert(picks[k] < group);
        assert(a[i] == b[i]);
    }
    assert(x =~= y);
}

/// Adds the bytes `picks` of every whole group of `group` bytes of `raw`.
pub fn push_picked(out: &mut Vec<u8>, raw: &[u8], group: usize, picks: &[usize])
    requires
        0 < group,
        0 < picks@.len(),
        forall|k: int| 0 <= k < picks@.len() ==> #[trigger] picks@[k] < group,
    ensures
        final(out)@ == old(out)@ + picked(raw@, group as nat, picks@),
{
    let ghost before = out@;
    let ghost all = picked(raw@, group as nat, picks@);
    let ghost width = picks@.len() as int;
    let count: usize = raw.len() / group;
    let mut start: usize = 0;
    let mut g: usize = 0;
    proof {
        div_mod::lemma_fundamental_div_mod(raw@.len() as int, group as int);
        assert(0 * width == 0 && 0 * group == 0);
        assert(before + all.take(0) =~= before);
        mul::lemma_mul_is_commutative(group as int, count as int);
    }
    while g < count
        invariant
            g <= count,
            0 < group,
            0 < width,
            width == picks@.len(),
            count == raw@.len() / group as nat,
            count * group <= raw@.len() <= usize::MAX,
            start == g * group,
            all == picked(raw@, group as nat, picks@),
            all.len() == count * width,
            forall|k: int| 0 <= k < picks@.len() ==> #[trigger] picks@[k] < group,
            out@ == before + all.take(g * width),
        decreases count - g,
    {
        proof {
            mul::lemma_mul_inequality(g + 1, count as int, group as int);
            mul::lemma_mul_inequality(g + 1, count as int, width);
            mul::lemma_mul_is_distributive_add_other_way(group as int, g as int, 1);
            mul::lemma_mul_is_distributive_add_other_way(width, g as int, 1);
            mul::lemma_mul_nonnegative(g as int, width);
        }
        let mut k: usize = 0;
        while k < picks.len()
            invariant
                k <= picks@.len(),
                g < count,
                0 < group,
                0 < width,
                width == picks@.len(),
                count == raw@.len() / group as nat,
                raw@.len() <= usize::MAX,
                start == g * group,
                start + group <= raw@.len(),
                g * width + width <= all.len(),
                0 <= g * width,
                    all == picked(raw@, group as nat, picks@),
                forall|k: int| 0 <= k < picks@.len() ==> #[trigger] picks@[k] < group,
                out@ == before + all.take(g * width + k),
            decreases picks@.len() - k,
        {
            let pick: usize = picks[k];
            proof {
                div_mod::lemma_fundamental_div_mod_converse(
                    g * width + k,
                    width,
                    g as int,
                    k as int,
                );
                mul::lemma_mul_is_commutative(group as int, g as int);
                assert(all[g * width + k] == raw@[start + pick]);
            }
            out.push(raw[start + pick]);
            k += 1;
            assert(out@ =~= before + all.take(g * width + k));
        }
        start += group;
        g += 1;
    }
    assert(all.take(count * width) =~= all);
}

} // verus!
