//! Big-endian conversion between byte sequences and 64-bit words, with the
//! arithmetic facts that relate the two directions.

use vstd::prelude::*;
use vstd::arithmetic::power2::{pow2, lemma_pow2_adds, lemma_pow2_subtracts, lemma2_to64, lemma2_to64_rest};
use vstd::arithmetic::div_mod::{lemma_fundamental_div_mod_converse, lemma_mod_multiples_vanish, lemma_small_mod};

verus! {

/// The unsigned value of a big-endian byte sequence.
pub open spec fn be_val(b: Seq<u8>) -> nat
    decreases b.len(),
{
    if b.len() == 0 {
        0
    } else {
        (be_val(b.drop_last()) * 256 + b.last()) as nat
    }
}

/// Byte `i` (counting from the most significant) of a 64-bit word.
pub open spec fn be_byte(w: u64, i: int) -> u8
    recommends
        0 <= i < 8,
{
    ((w as nat / pow2((8 * (7 - i)) as nat)) % 256) as u8
}

/// The eight big-endian bytes of a 64-bit word.
pub open spec fn be_bytes_of(w: u64) -> Seq<u8> {
    Seq::new(8, |i: int| be_byte(w, i))
}

/// A big-endian byte sequence of length `n` denotes a value below `2^(8n)`.
pub proof fn lemma_be_val_bound(b: Seq<u8>)
    ensures
        be_val(b) < pow2(8 * b.len()),
    decreases b.len(),
{
    if b.len() == 0 {
        lemma2_to64();
    } else {
        lemma_be_val_bound(b.drop_last());
        lemma_pow2_adds(8 * (b.len() - 1) as nat, 8);
        lemma2_to64();
        assert(be_val(b.drop_last()) * 256 <= (pow2(8 * (b.len() - 1) as nat) - 1) * 256)
            by (nonlinear_arith)
            requires
                be_val(b.drop_last()) <= pow2(8 * (b.len() - 1) as nat) - 1,
        ;
    }
}

/// Splitting a big-endian byte sequence at `i` splits its value into a
/// quotient of the leading bytes and a remainder of the trailing ones.
pub proof fn lemma_be_val_split(b: Seq<u8>, i: int)
    requires
        0 <= i <= b.len(),
    ensures
        be_val(b) == be_val(b.take(i)) * pow2((8 * (b.len() - i)) as nat) + be_val(b.skip(i)),
    decreases b.len(),
{
    if i == b.len() {
        assert(b.take(i) =~= b);
        assert(b.skip(i) =~= Seq::<u8>::empty());
        lemma2_to64();
        assert(be_val(b) * pow2(0) == be_val(b)) by (nonlinear_arith)
            requires
                pow2(0) == 1,
        ;
    } else {
        let d = b.drop_last();
        lemma_be_val_split(d, i);
        assert(d.take(i) =~= b.take(i));
        assert(b.skip(i).drop_last() =~= d.skip(i));
        assert(b.skip(i).last() == b.last());
        let p = pow2((8 * (d.len() - i)) as nat);
        lemma_pow2_adds((8 * (d.len() - i)) as nat, 8);
        lemma2_to64();
        // be_val(b) == (be_val(take) * p + be_val(d.skip(i))) * 256 + b.last()
        assert((be_val(b.take(i)) * p + be_val(d.skip(i))) * 256 + b.last() == be_val(
            b.take(i),
        ) * (p * 256) + (be_val(d.skip(i)) * 256 + b.last())) by (nonlinear_arith);
    }
}

/// Extracting byte `j` of a big-endian value by shifting and masking in
/// arithmetic form: dividing by `2^(8 * (len - 1 - j))` and reducing mod 256.
pub proof fn lemma_be_val_byte(b: Seq<u8>, j: int)
    requires
        0 <= j < b.len(),
    ensures
        (be_val(b) / pow2((8 * (b.len() - 1 - j)) as nat)) % 256 == b[j],
{
    let p = pow2((8 * (b.len() - 1 - j)) as nat);
    let x = be_val(b) as int;
    lemma_be_val_split(b, j + 1);
    let q = be_val(b.take(j + 1));
    let r = be_val(b.skip(j + 1));
    lemma_be_val_bound(b.skip(j + 1));
    assert(b.take(j + 1).drop_last() =~= b.take(j));
    assert(b.take(j + 1).last() == b[j]);
    assert(q == be_val(b.take(j)) * 256 + b[j]);
    vstd::arithmetic::power2::lemma_pow2_pos((8 * (b.len() - 1 - j)) as nat);
    lemma_fundamental_div_mod_converse(x, p as int, q as int, r as int);
    lemma_mod_multiples_vanish(be_val(b.take(j)) as int, b[j] as int, 256);
    lemma_small_mod(b[j] as nat, 256);
}

/// A word's big-endian bytes denote the word itself.
pub proof fn lemma_be_bytes_of_be_val(b: Seq<u8>)
    requires
        b.len() == 8,
    ensures
        be_val(b) < pow2(64),
        be_bytes_of(be_val(b) as u64) =~= b,
{
    lemma_be_val_bound(b);
    lemma2_to64();
    lemma2_to64_rest();
    let w = be_val(b) as u64;
    assert(w as nat == be_val(b));
    assert forall|j: int| 0 <= j < 8 implies be_bytes_of(w)[j] == b[j] by {
        lemma_be_val_byte(b, j);
    }
}

/// Reads the eight bytes `b[start .. start + 8]` as one big-endian word.
pub fn word_from_be_bytes(b: &Vec<u8>, start: usize) -> (w: u64)
    requires
        start + 8 <= b@.len(),
    ensures
        w as nat == be_val(b@.subrange(start as int, start as int + 8)),
{
    let blen = b.len();
    let mut w: u64 = 0;
    let mut j: usize = 0;
    while j < 8
        invariant
            j <= 8,
            blen == b@.len(),
            start + 8 <= b@.len(),
            w as nat == be_val(b@.subrange(start as int, start as int + j as int)),
        decreases 8 - j,
    {
        proof {
            let pre = b@.subrange(start as int, start as int + j as int);
            let post = b@.subrange(start as int, start as int + j as int + 1);
            assert(post.drop_last() =~= pre);
            lemma_be_val_bound(pre);
            lemma2_to64();
            lemma2_to64_rest();
            assert(pow2(8 * pre.len()) <= pow2(56)) by {
                if pre.len() < 7 {
                    vstd::arithmetic::power2::lemma_pow2_strictly_increases(
                        8 * pre.len(),
                        56,
                    );
                }
            }
            assert(w * 256 <= (pow2(56) - 1) * 256) by (nonlinear_arith)
                requires
                    w <= pow2(56) - 1,
            ;
        }
        w = w * 256 + (b[start + j] as u64);
        j = j + 1;
    }
    proof {
        assert(b@.subrange(start as int, start as int + 8) =~= b@.subrange(
            start as int,
            start as int + j as int,
        ));
    }
    w
}

/// Renders a word as its eight big-endian bytes.
pub fn word_to_be_bytes(w: u64) -> (r: Vec<u8>)
    ensures
        r@ =~= be_bytes_of(w),
{
    let mut r: Vec<u8> = Vec::new();
    let mut divisor: u64 = 0x0100_0000_0000_0000;
    let mut i: usize = 0;
    proof {
        lemma2_to64();
        lemma2_to64_rest();
    }
    while i < 8
        invariant
            i <= 8,
            r@.len() == i,
            forall|j: int| 0 <= j < i ==> r@[j] == be_byte(w, j),
            i < 8 ==> divisor as nat == pow2((8 * (7 - i as int)) as nat),
        decreases 8 - i,
    {
        proof {
            vstd::arithmetic::power2::lemma_pow2_pos((8 * (7 - i as int)) as nat);
            lemma_small_mod(((w as nat / divisor as nat) % 256), 256);
        }
        r.push(((w / divisor) % 256) as u8);
        proof {
            if i < 7 {
                lemma_pow2_subtracts(8, (8 * (7 - i as int)) as nat);
                lemma2_to64();
            }
        }
        divisor = divisor / 256;
        i = i + 1;
    }
    r
}

} // verus!
