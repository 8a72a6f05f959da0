//! Laws of the word-array operations, proved over the same specification
//! functions that the operations' contracts use.

use vstd::prelude::*;
use crate::big_uint::{
    borrow_into, carry_into, diff_at, diff_word, lead_zero_bytes, padded_hex, parse_bytes,
    parsed_words, rendered, rendered_word, sum_at, sum_word, wrapping_diff, wrapping_sum,
    zero_words,
};
use crate::hex_digits::{
    all_hex_digits, bytes_of_hex, hex_chars_of_bytes, is_hex_digit, lemma_hex_digit_round_trip,
    lower_hex, strip_leading_zeros,
};
use crate::words::{be_bytes_of, be_val, lemma_be_bytes_of_be_val};

verus! {

/// A byte sequence of zeros denotes the value zero.
proof fn lemma_be_val_zero(b: Seq<u8>)
    requires
        forall|x: int| 0 <= x < b.len() ==> b[x] == 0u8,
    ensures
        be_val(b) == 0,
    decreases b.len(),
{
    if b.len() > 0 {
        lemma_be_val_zero(b.drop_last());
    }
}

/// A word array of zeros renders as the empty string.
proof fn lemma_rendered_zeros(ws: Seq<u64>)
    requires
        forall|j: int| 0 <= j < ws.len() ==> ws[j] == 0u64,
    ensures
        rendered(ws) == Seq::<char>::empty(),
    decreases ws.len(),
{
    if ws.len() > 0 {
        lemma_rendered_zeros(ws.drop_last());
        assert(rendered(ws) =~= Seq::<char>::empty());
    }
}

/// A word array that is zero everywhere but at `m` renders as word `m`
/// alone.
proof fn lemma_rendered_single(ws: Seq<u64>, m: int)
    requires
        0 <= m < ws.len(),
        forall|j: int| 0 <= j < ws.len() && j != m ==> ws[j] == 0u64,
    ensures
        rendered(ws) == rendered_word(ws[m]),
    decreases ws.len(),
{
    if m == ws.len() - 1 {
        lemma_rendered_zeros(ws.drop_last());
        assert(rendered(ws) =~= rendered_word(ws[m]));
    } else {
        lemma_rendered_single(ws.drop_last(), m);
        assert(rendered(ws) =~= rendered_word(ws[m]));
    }
}

/// Stripping leading zeros ignores a prefix of `'0'` characters.
proof fn lemma_strip_skip_zeros(s: Seq<char>, m: int)
    requires
        0 <= m <= s.len(),
        forall|x: int| 0 <= x < m ==> s[x] == '0',
    ensures
        strip_leading_zeros(s) == strip_leading_zeros(s.skip(m)),
    decreases m,
{
    if m == 0 {
        assert(s.skip(0) =~= s);
    } else {
        let t = s.subrange(1, s.len() as int);
        lemma_strip_skip_zeros(t, m - 1);
        assert(t.skip(m - 1) =~= s.skip(m));
    }
}

/// Rendering the bytes a hexadecimal string denotes gives the string back,
/// lowercased.
proof fn lemma_hex_chars_lower(t: Seq<char>)
    requires
        all_hex_digits(t),
        t.len() % 2 == 0,
    ensures
        hex_chars_of_bytes(bytes_of_hex(t)) =~= lower_hex(t),
{
    let b = bytes_of_hex(t);
    assert forall|i: int| 0 <= i < 2 * b.len() implies hex_chars_of_bytes(b)[i] == lower_hex(
        t,
    )[i] by {
        lemma_hex_digit_round_trip(t[2 * (i / 2)]);
        lemma_hex_digit_round_trip(t[2 * (i / 2) + 1]);
        if i % 2 == 0 {
            assert(2 * (i / 2) == i);
        } else {
            assert(2 * (i / 2) + 1 == i);
        }
    }
}

/// No carry arises while adding the zero value to `a`, as long as none of
/// `a`'s words below the most significant one is `u64::MAX`.
proof fn lemma_zero_carry(a: Seq<u64>, z: Seq<u64>, i: int)
    requires
        z == zero_words(a.len()),
        forall|k: int| 1 <= k < a.len() ==> a[k] != u64::MAX,
        0 <= i < a.len(),
    ensures
        carry_into(a, z, i) == 0,
    decreases a.len() - i,
{
    if i < a.len() - 1 {
        lemma_zero_carry(a, z, i + 1);
    }
}

/// Additive identity: adding the zero value returns the value unchanged.
/// The carry rule records a carry out of any word that is exactly
/// `u64::MAX`, even when nothing overflows, so the law asks that no word
/// below the most significant one is `u64::MAX`; on such inputs the sum
/// differs from `a`.
pub proof fn lemma_add_zero_identity(a: Seq<u64>, z: Seq<u64>)
    requires
        z == zero_words(a.len()),
        forall|k: int| 1 <= k < a.len() ==> a[k] != u64::MAX,
    ensures
        wrapping_sum(a, z) == a,
{
    assert forall|i: int| 0 <= i < a.len() implies sum_at(a, z, i) == a[i] by {
        lemma_zero_carry(a, z, i);
    }
    assert(wrapping_sum(a, z) =~= a);
}

/// The carry chain does not depend on the order of the two operands.
proof fn lemma_carry_commutes(a: Seq<u64>, b: Seq<u64>, i: int)
    requires
        a.len() == b.len(),
        0 <= i < a.len(),
    ensures
        carry_into(a, b, i) == carry_into(b, a, i),
    decreases a.len() - i,
{
    if i < a.len() - 1 {
        lemma_carry_commutes(a, b, i + 1);
    }
}

/// Commutativity: addition gives the same result in either operand order.
pub proof fn lemma_add_commutes(a: Seq<u64>, b: Seq<u64>)
    requires
        a.len() == b.len(),
    ensures
        wrapping_sum(a, b) == wrapping_sum(b, a),
{
    assert forall|i: int| 0 <= i < a.len() implies sum_at(a, b, i) == sum_at(b, a, i) by {
        lemma_carry_commutes(a, b, i);
    }
    assert(wrapping_sum(a, b) =~= wrapping_sum(b, a));
}

/// No borrow arises while subtracting the zero value from `a`, as long as no
/// word of `a` below the most significant one has its top bit set.
proof fn lemma_zero_borrow(a: Seq<u64>, z: Seq<u64>, i: int)
    requires
        z == zero_words(a.len()),
        forall|k: int| 1 <= k < a.len() ==> a[k] < 0x8000_0000_0000_0000,
        0 <= i < a.len(),
    ensures
        borrow_into(a, z, i) == 0,
    decreases a.len() - i,
{
    if i < a.len() - 1 {
        lemma_zero_borrow(a, z, i + 1);
    }
}

/// Subtractive identity: subtracting the zero value returns the value
/// unchanged. The borrow rule records a borrow out of any word whose top bit
/// is set, even when nothing underflows, so the law asks that no word below
/// the most significant one reaches `2^63`; on such inputs the difference
/// differs from `a`.
pub proof fn lemma_sub_zero_identity(a: Seq<u64>, z: Seq<u64>)
    requires
        z == zero_words(a.len()),
        forall|k: int| 1 <= k < a.len() ==> a[k] < 0x8000_0000_0000_0000,
    ensures
        wrapping_diff(a, z) == a,
{
    assert forall|i: int| 0 <= i < a.len() implies diff_at(a, z, i) == a[i] by {
        lemma_zero_borrow(a, z, i);
    }
    assert(wrapping_diff(a, z) =~= a);
}

/// Subtracting a word with the same carry undoes adding it.
proof fn lemma_word_cancel(x: u64, y: u64, c: u64)
    requires
        c <= 1,
    ensures
        diff_word(sum_word(x, y, c), y, c) == x,
{
}

/// With `s = wrapping_sum(a, b)`, the borrows of `s - b` equal the carries
/// of `a + b`, and the difference restores `a` word by word — provided the
/// carry the sum records at each inner word agrees with the borrow the
/// difference will record there.
proof fn lemma_inverse_chain(a: Seq<u64>, b: Seq<u64>, i: int)
    requires
        a.len() == b.len(),
        0 <= i < a.len(),
        forall|k: int|
            1 <= k < a.len() ==> ((sum_at(a, b, k) == u64::MAX) <==> (a[k]
                >= 0x8000_0000_0000_0000)),
    ensures
        borrow_into(wrapping_sum(a, b), b, i) == carry_into(a, b, i),
        diff_at(wrapping_sum(a, b), b, i) == a[i],
    decreases a.len() - i,
{
    let s = wrapping_sum(a, b);
    assert(carry_into(a, b, i) <= 1);
    if i < a.len() - 1 {
        lemma_inverse_chain(a, b, i + 1);
    }
    lemma_word_cancel(a[i], b[i], carry_into(a, b, i));
}

/// Inverse: subtracting `b` from `a + b` gives back `a`, whenever the carry
/// recorded at each inner word of the sum agrees with the borrow the
/// subtraction records there. The rules disagree — a carry appears only on a
/// wrapped sum of exactly `u64::MAX`, a borrow whenever the top bit is set —
/// so the law holds under that agreement and not in general.
pub proof fn lemma_sub_of_sum_restores(a: Seq<u64>, b: Seq<u64>)
    requires
        a.len() == b.len(),
        forall|k: int|
            1 <= k < a.len() ==> ((sum_at(a, b, k) == u64::MAX) <==> (a[k]
                >= 0x8000_0000_0000_0000)),
    ensures
        wrapping_diff(wrapping_sum(a, b), b) == a,
{
    assert forall|i: int| 0 <= i < a.len() implies diff_at(wrapping_sum(a, b), b, i)
        == a[i] by {
        lemma_inverse_chain(a, b, i);
    }
    assert(wrapping_diff(wrapping_sum(a, b), b) =~= a);
}

/// Round trip: parsing a non-empty, non-overflowing hexadecimal string and
/// rendering the result gives the input back, lowercased and with its
/// leading zero digits stripped. Parsing reverses the order of eight-byte
/// chunks as it fills the word array, so the law asks that every digit
/// before the last sixteen is `'0'` — the value fits one chunk; on longer
/// significant inputs the rendering comes out chunk-reversed instead.
pub proof fn lemma_hex_round_trip(s: Seq<char>, n: nat)
    requires
        s.len() > 0,
        all_hex_digits(s),
        parse_bytes(s).len() <= 8 * n,
        forall|i: int| 0 <= i < s.len() - 16 ==> s[i] == '0',
    ensures
        strip_leading_zeros(rendered(parsed_words(s, n))) == strip_leading_zeros(lower_hex(s)),
{
    let t = padded_hex(s);
    let b = bytes_of_hex(t);
    let pb = parse_bytes(s);
    let lead = lead_zero_bytes(b.len()) as int;
    assert(all_hex_digits(t)) by {
        if s.len() % 2 == 1 {
            assert forall|i: int| 0 <= i < t.len() implies is_hex_digit(t[i]) by {
                if i >= 1 {
                    assert(t[i] == s[i - 1]);
                }
            }
        }
    }
    assert(t.len() % 2 == 0);
    assert(b.len() == t.len() / 2);
    assert(pb.len() == lead + b.len());
    assert(pb.len() % 8 == 0);
    assert(b.len() >= 1);
    let k = pb.len() as int / 8;
    assert(k >= 1);
    assert(8 * k == pb.len());
    assert(n >= k);

    // every character of t before the last sixteen is '0'
    assert forall|i: int| 0 <= i < t.len() - 16 implies t[i] == '0' by {
        if s.len() % 2 == 1 && i >= 1 {
            assert(t[i] == s[i - 1]);
        }
    }
    // every byte of pb before the last eight is zero
    assert forall|x: int| 0 <= x < pb.len() - 8 implies pb[x] == 0u8 by {
        if x >= lead {
            let j = x - lead;
            assert(pb[x] == b[j]);
            assert(2 * j < t.len() - 16);
            assert(t[2 * j] == '0');
            assert(t[2 * j + 1] == '0');
        }
    }

    let w = parsed_words(s, n);
    let last8 = pb.subrange(8 * (k - 1), 8 * k);
    assert(w[n - k] == be_val(last8) as u64);
    let v = w[n - k];
    lemma_be_bytes_of_be_val(last8);
    vstd::arithmetic::power2::lemma2_to64();
    assert(v as nat == be_val(last8));

    // every other word is zero
    assert forall|j: int| 0 <= j < n && j != n - k implies w[j] == 0u64 by {
        let c = n - 1 - j;
        if c < k {
            let chunk = pb.subrange(8 * c, 8 * c + 8);
            assert forall|x: int| 0 <= x < chunk.len() implies chunk[x] == 0u8 by {
                assert(chunk[x] == pb[8 * c + x]);
            }
            lemma_be_val_zero(chunk);
        }
    }

    // the hex rendering of pb, and its relation to lower_hex(s)
    let z = hex_chars_of_bytes(pb);
    lemma_hex_chars_lower(t);
    assert forall|x: int| 0 <= x < z.len() && pb[x / 2] == 0u8 implies #[trigger] z[x]
        == '0' by {}
    assert(z.skip(2 * lead) =~= lower_hex(t)) by {
        assert forall|x: int| 0 <= x < t.len() implies z.skip(2 * lead)[x] == lower_hex(
            t,
        )[x] by {
            let y = 2 * lead + x;
            assert(y / 2 == lead + x / 2);
            assert(y % 2 == x % 2);
            assert(pb[lead + x / 2] == b[x / 2]);
            assert(hex_chars_of_bytes(b)[x] == lower_hex(t)[x]);
        }
    }
    assert(forall|x: int| 0 <= x < 2 * lead ==> #[trigger] z[x] == '0') by {
        assert forall|x: int| 0 <= x < 2 * lead implies #[trigger] z[x] == '0' by {
            assert(pb[x / 2] == 0u8);
        }
    }
    lemma_strip_skip_zeros(z, 2 * lead);
    assert(strip_leading_zeros(z) == strip_leading_zeros(lower_hex(t)));
    assert(strip_leading_zeros(lower_hex(t)) == strip_leading_zeros(lower_hex(s))) by {
        if s.len() % 2 == 1 {
            assert(lower_hex(t)[0] == '0');
            lemma_strip_skip_zeros(lower_hex(t), 1);
            assert(lower_hex(t).skip(1) =~= lower_hex(s)) by {
                assert forall|x: int| 0 <= x < s.len() implies lower_hex(t).skip(1)[x]
                    == lower_hex(s)[x] by {
                    assert(t[x + 1] == s[x]);
                }
            }
        } else {
            assert(lower_hex(t) =~= lower_hex(s));
        }
    }

    // strip(z) also equals strip of the last chunk's rendering
    assert forall|x: int| 0 <= x < 2 * (pb.len() - 8) implies #[trigger] z[x] == '0' by {
        assert(x / 2 < pb.len() - 8);
        assert(pb[x / 2] == 0u8);
    }
    lemma_strip_skip_zeros(z, 2 * (pb.len() - 8) as int);
    let zl = hex_chars_of_bytes(last8);
    assert(z.skip(2 * (pb.len() - 8) as int) =~= zl) by {
        assert forall|x: int| 0 <= x < 16 implies z.skip(2 * (pb.len() - 8) as int)[x]
            == zl[x] by {
            let y = 2 * (pb.len() - 8) as int + x;
            assert(y / 2 == pb.len() - 8 + x / 2);
            assert(y % 2 == x % 2);
            assert(last8[x / 2] == pb[pb.len() - 8 + x / 2]);
        }
    }
    assert(strip_leading_zeros(zl) == strip_leading_zeros(lower_hex(s)));

    // the rendering of the parsed words is the last chunk's rendering
    if v == 0 {
        assert forall|j: int| 0 <= j < n implies w[j] == 0u64 by {}
        lemma_rendered_zeros(w);
        assert forall|x: int| 0 <= x < 16 implies #[trigger] zl[x] == '0' by {
            crate::words::lemma_be_val_byte(last8, x / 2);
            vstd::arithmetic::power2::lemma_pow2_pos((8 * (7 - x / 2)) as nat);
            assert(last8[x / 2] == 0u8);
        }
        lemma_strip_skip_zeros(zl, 16);
        assert(zl.skip(16) =~= Seq::<char>::empty());
        assert(strip_leading_zeros(rendered(w)) == Seq::<char>::empty());
    } else {
        lemma_rendered_single(w, n - k);
        assert(be_bytes_of(v) == last8);
        assert(rendered(w) == zl);
    }
}

} // verus!
