//! The fixed-width unsigned integer itself: exactly `N` 64-bit words in
//! big-endian word order, with hexadecimal parsing and rendering and
//! wrapping addition and subtraction over the whole array.

use vstd::prelude::*;
use vstd::string::*;
use crate::hex_digits::{
    all_hex_digits, bytes_of_hex, hex_chars_of_bytes, is_hex_digit,
    lemma_hex_char_of_nibble_ascii, strip_leading_zeros,
};
use crate::words::{be_bytes_of, be_val, word_from_be_bytes, word_to_be_bytes};
use crate::hex_io::{hex_decode, hex_encode};

verus! {

/// Why parsing a hexadecimal string failed.
#[derive(Clone, Copy, Debug, PartialEq, Eq, Structural)]
pub enum ParseError {
    /// A character outside `[0-9a-fA-F]` appeared in the input.
    Decode,
    /// The value needs more than `N` words of storage.
    Overflow,
}

/// An unsigned integer of exactly `N` 64-bit words; index 0 is the most
/// significant word. Values are immutable: the arithmetic operations return
/// fresh values and never touch their operands.
#[derive(Clone, Debug)]
pub struct BigUint<const N: usize> {
    data: [u64; N],
}

impl<const N: usize> View for BigUint<N> {
    type V = Seq<u64>;

    closed spec fn view(&self) -> Seq<u64> {
        self.data@
    }
}

/// The all-zero word sequence of length `n`.
pub open spec fn zero_words(n: nat) -> Seq<u64> {
    Seq::new(n, |i: int| 0u64)
}

/// The input with a single `'0'` prepended when its length is odd, so that
/// it decodes to whole bytes.
pub open spec fn padded_hex(s: Seq<char>) -> Seq<char> {
    if s.len() % 2 == 1 {
        seq!['0'] + s
    } else {
        s
    }
}

/// How many zero bytes are prepended so the byte count becomes a multiple
/// of eight.
pub open spec fn lead_zero_bytes(m: nat) -> nat {
    ((8 - m % 8) % 8) as nat
}

/// The byte sequence front-padded with zero bytes to a whole number of
/// eight-byte words.
pub open spec fn zero_extended(b: Seq<u8>) -> Seq<u8> {
    Seq::new(lead_zero_bytes(b.len()), |i: int| 0u8) + b
}

/// The word array that a padded byte sequence fills: chunk `i` of the bytes
/// (chunk 0 first) lands in word `n - 1 - i`, and words that no chunk
/// reaches stay zero.
pub open spec fn words_from_bytes(b: Seq<u8>, n: nat) -> Seq<u64>
    recommends
        b.len() % 8 == 0,
{
    Seq::new(n, |j: int|
        if n - 1 - j < b.len() / 8 {
            be_val(b.subrange(8 * (n - 1 - j), 8 * (n - 1 - j) + 8)) as u64
        } else {
            0u64
        })
}

/// The padded byte sequence a hexadecimal input denotes.
pub open spec fn parse_bytes(s: Seq<char>) -> Seq<u8> {
    zero_extended(bytes_of_hex(padded_hex(s)))
}

/// Parsing succeeds exactly when every character is a hexadecimal digit and
/// the padded bytes fit in `n` words.
pub open spec fn parse_ok(s: Seq<char>, n: nat) -> bool {
    all_hex_digits(s) && parse_bytes(s).len() <= 8 * n
}

/// The word array parsing yields on success.
pub open spec fn parsed_words(s: Seq<char>, n: nat) -> Seq<u64> {
    words_from_bytes(parse_bytes(s), n)
}

/// One three-way word sum with wraparound, as the addition loop computes it.
pub open spec fn sum_word(x: u64, y: u64, c: u64) -> u64 {
    vstd::wrapping::u64_specs::wrapping_add(vstd::wrapping::u64_specs::wrapping_add(x, y), c)
}

/// The carry flowing into word `i`: zero at the least significant word, and
/// one exactly when the wrapped sum one word below came out as `u64::MAX`.
/// A carry is recorded only in that case — a sum that wraps past zero does
/// not propagate one — and that rule is the defined behavior of `add`.
pub open spec fn carry_into(a: Seq<u64>, b: Seq<u64>, i: int) -> u64
    recommends
        a.len() == b.len(),
    decreases a.len() - i,
{
    if i >= a.len() - 1 {
        0u64
    } else {
        if sum_word(a[i + 1], b[i + 1], carry_into(a, b, i + 1)) == u64::MAX {
            1u64
        } else {
            0u64
        }
    }
}

/// Word `i` of the wrapping sum.
pub open spec fn sum_at(a: Seq<u64>, b: Seq<u64>, i: int) -> u64 {
    sum_word(a[i], b[i], carry_into(a, b, i))
}

/// The whole wrapping word-array sum.
pub open spec fn wrapping_sum(a: Seq<u64>, b: Seq<u64>) -> Seq<u64> {
    Seq::new(a.len(), |i: int| sum_at(a, b, i))
}

/// One three-way word difference with wraparound.
pub open spec fn diff_word(x: u64, y: u64, bw: u64) -> u64 {
    vstd::wrapping::u64_specs::wrapping_sub(vstd::wrapping::u64_specs::wrapping_sub(x, y), bw)
}

/// The borrow flowing into word `i`: zero at the least significant word, and
/// one exactly when the wrapped difference one word below has its top bit
/// set.
pub open spec fn borrow_into(a: Seq<u64>, b: Seq<u64>, i: int) -> u64
    recommends
        a.len() == b.len(),
    decreases a.len() - i,
{
    if i >= a.len() - 1 {
        0u64
    } else {
        if diff_word(a[i + 1], b[i + 1], borrow_into(a, b, i + 1)) >= 0x8000_0000_0000_0000 {
            1u64
        } else {
            0u64
        }
    }
}

/// Word `i` of the wrapping difference.
pub open spec fn diff_at(a: Seq<u64>, b: Seq<u64>, i: int) -> u64 {
    diff_word(a[i], b[i], borrow_into(a, b, i))
}

/// The whole wrapping word-array difference.
pub open spec fn wrapping_diff(a: Seq<u64>, b: Seq<u64>) -> Seq<u64> {
    Seq::new(a.len(), |i: int| diff_at(a, b, i))
}

/// The hexadecimal text one word contributes to the rendering: a zero word
/// vanishes whole, any other word contributes its full sixteen digits.
pub open spec fn rendered_word(w: u64) -> Seq<char> {
    if w == 0 {
        Seq::<char>::empty()
    } else {
        hex_chars_of_bytes(be_bytes_of(w))
    }
}

/// The concatenated rendering of a word array, most significant word first.
pub open spec fn rendered(ws: Seq<u64>) -> Seq<char>
    decreases ws.len(),
{
    if ws.len() == 0 {
        Seq::<char>::empty()
    } else {
        rendered(ws.drop_last()) + rendered_word(ws.last())
    }
}

/// When the first `j` characters of `s` are `'0'` and the one at `j` (if
/// any) is not, stripping leading zeros drops exactly those `j` characters.
proof fn lemma_strip_prefix(s: Seq<char>, j: int)
    requires
        0 <= j <= s.len(),
        forall|x: int| 0 <= x < j ==> s[x] == '0',
        j == s.len() || s[j] != '0',
    ensures
        strip_leading_zeros(s) == s.subrange(j, s.len() as int),
    decreases j,
{
    if j == 0 {
        assert(s.subrange(0, s.len() as int) =~= s);
    } else {
        let t = s.subrange(1, s.len() as int);
        lemma_strip_prefix(t, j - 1);
        assert(t.subrange(j - 1, t.len() as int) =~= s.subrange(j, s.len() as int));
    }
}

impl<const N: usize> BigUint<N> {
    /// The zero value: all `N` words zero.
    pub fn new() -> (r: Self)
        ensures
            r@ == zero_words(N as nat),
    {
        let r = BigUint { data: [0u64; N] };
        proof {
            assert(r@ =~= zero_words(N as nat));
        }
        r
    }

    /// Parses a case-insensitive hexadecimal string (no `0x` prefix) into a
    /// value of `N` words. An odd-length input is first padded with one
    /// leading `'0'`; the decoded bytes are front-padded with zero bytes to
    /// whole words and then fill the word array, chunk 0 into the last word.
    /// Fails with `Decode` on a non-digit character and with `Overflow` when
    /// the padded bytes need more than `N` words.
    pub fn from_hex_str(s: &str) -> (r: Result<Self, ParseError>)
        ensures
            r is Ok <==> parse_ok(s@, N as nat),
            (r matches Ok(v) ==> v@ == parsed_words(s@, N as nat)),
            (r matches Err(e) ==> e == (if all_hex_digits(s@) {
                ParseError::Overflow
            } else {
                ParseError::Decode
            })),
    {
        let n_chars = s.unicode_len();
        let t: String = if n_chars % 2 == 0 {
            s.to_owned()
        } else {
            let mut t0 = String::from_str("0");
            t0.append(s);
            t0
        };
        proof {
            reveal_strlit("0");
            assert(t@ =~= padded_hex(s@));
            assert(all_hex_digits(t@) <==> all_hex_digits(s@)) by {
                if s@.len() % 2 == 1 {
                    assert(forall|i: int| 0 <= i < s@.len() ==> t@[i + 1] == s@[i]);
                    if all_hex_digits(t@) {
                        assert forall|i: int| 0 <= i < s@.len() implies is_hex_digit(s@[i]) by {
                            assert(is_hex_digit(t@[i + 1]));
                        }
                    }
                }
            }
        }
        let mut bytes = match hex_decode(t.as_str()) {
            Ok(b) => b,
            Err(_) => {
                return Err(ParseError::Decode);
            },
        };
        let blen = bytes.len();
        let pad = 8 - blen % 8;
        if pad < 8 {
            let mut padded: Vec<u8> = Vec::new();
            let mut k: usize = 0;
            while k < pad
                invariant
                    k <= pad,
                    padded@.len() == k,
                    forall|x: int| 0 <= x < k ==> padded@[x] == 0u8,
                decreases pad - k,
            {
                padded.push(0u8);
                k = k + 1;
            }
            padded.append(&mut bytes);
            bytes = padded;
        }
        proof {
            assert(bytes@ =~= parse_bytes(s@));
            assert(bytes@.len() % 8 == 0);
        }
        let n_chunks = bytes.len() / 8;
        if n_chunks > N {
            return Err(ParseError::Overflow);
        }
        let mut data: [u64; N] = [0u64; N];
        let mut i: usize = 0;
        while i < n_chunks
            invariant
                i <= n_chunks,
                n_chunks <= N,
                bytes@.len() <= usize::MAX,
                bytes@.len() == 8 * n_chunks,
                bytes@ == parse_bytes(s@),
                forall|j: int|
                    0 <= j < N ==> data@[j] == (if N - 1 - j < i {
                        be_val(bytes@.subrange(8 * (N - 1 - j), 8 * (N - 1 - j) + 8)) as u64
                    } else {
                        0u64
                    }),
            decreases n_chunks - i,
        {
            let w = word_from_be_bytes(&bytes, 8 * i);
            data[N - 1 - i] = w;
            i = i + 1;
        }
        proof {
            assert(data@ =~= parsed_words(s@, N as nat));
        }
        Ok(BigUint { data })
    }

    /// Renders the value as lowercase hexadecimal with no leading zero
    /// digits; the zero value renders as the empty string. Whole zero words
    /// are skipped; every other word contributes its full sixteen digits,
    /// and only the leading zeros of the concatenation are stripped.
    pub fn to_hex_string(&self) -> (r: String)
        ensures
            r@ == strip_leading_zeros(rendered(self@)),
    {
        let mut out = String::new();
        let mut i: usize = 0;
        while i < N
            invariant
                i <= N,
                out@ == rendered(self@.take(i as int)),
                vstd::utf8::is_ascii_chars(out@),
            decreases N - i,
        {
            let w = self.data[i];
            if w != 0 {
                let bytes = word_to_be_bytes(w);
                let h = hex_encode(&bytes);
                proof {
                    assert forall|x: int| 0 <= x < h@.len() implies '\0' <= #[trigger] h@[x]
                        <= '\u{7f}' by {
                        let bx = bytes@[x / 2];
                        if x % 2 == 0 {
                            lemma_hex_char_of_nibble_ascii((bx / 16) as u8);
                        } else {
                            lemma_hex_char_of_nibble_ascii((bx % 16) as u8);
                        }
                    }
                }
                out.append(h.as_str());
            }
            proof {
                assert(self@.take(i as int + 1).drop_last() =~= self@.take(i as int));
                assert(rendered(self@.take(i as int + 1)) =~= out@);
            }
            i = i + 1;
        }
        proof {
            assert(self@.take(N as int) =~= self@);
        }
        let total = out.as_str().unicode_len();
        let mut j: usize = 0;
        loop
            invariant
                j <= total,
                total as nat == out@.len(),
                vstd::utf8::is_ascii_chars(out@),
                out@ == rendered(self@),
                forall|x: int| 0 <= x < j ==> out@[x] == '0',
            ensures
                j <= total,
                forall|x: int| 0 <= x < j ==> out@[x] == '0',
                j == total || out@[j as int] != '0',
            decreases total - j,
        {
            if j >= total {
                break;
            }
            if out.as_str().get_char(j) != '0' {
                break;
            }
            j = j + 1;
        }
        proof {
            lemma_strip_prefix(out@, j as int);
        }
        let stripped = out.as_str().substring_ascii(j, total);
        stripped.to_owned()
    }

    /// Wrapping addition: the word-wise sum with the carry rule of
    /// `carry_into`, least significant word first. Overflow past the most
    /// significant word is silently discarded; `add` never fails.
    pub fn add(&self, other: &Self) -> (r: Self)
        ensures
            r@ == wrapping_sum(self@, other@),
    {
        let mut data: [u64; N] = [0u64; N];
        let mut carry: u64 = 0;
        let mut i: usize = N;
        while i > 0
            invariant
                i <= N,
                carry == carry_into(self@, other@, i as int - 1),
                forall|j: int| i <= j < N ==> data@[j] == sum_at(self@, other@, j),
            decreases i,
        {
            i = i - 1;
            let sum = self.data[i].wrapping_add(other.data[i]).wrapping_add(carry);
            data[i] = sum;
            carry = if sum == u64::MAX {
                1
            } else {
                0
            };
        }
        proof {
            assert(data@ =~= wrapping_sum(self@, other@));
        }
        BigUint { data }
    }

    /// Wrapping subtraction: the word-wise difference with the borrow rule
    /// of `borrow_into`, least significant word first. Underflow wraps
    /// modulo the full width; `sub` never fails.
    pub fn sub(&self, other: &Self) -> (r: Self)
        ensures
            r@ == wrapping_diff(self@, other@),
    {
        let mut data: [u64; N] = [0u64; N];
        let mut borrow: u64 = 0;
        let mut i: usize = N;
        while i > 0
            invariant
                i <= N,
                borrow == borrow_into(self@, other@, i as int - 1),
                forall|j: int| i <= j < N ==> data@[j] == diff_at(self@, other@, j),
            decreases i,
        {
            i = i - 1;
            let diff = self.data[i].wrapping_sub(other.data[i]).wrapping_sub(borrow);
            data[i] = diff;
            borrow = if diff >= 0x8000_0000_0000_0000 {
                1
            } else {
                0
            };
        }
        proof {
            assert(data@ =~= wrapping_diff(self@, other@));
        }
        BigUint { data }
    }
}

impl<const N: usize> Default for BigUint<N> {
    /// The zero value.
    fn default() -> (r: Self)
        ensures
            r@ == zero_words(N as nat),
    {
        Self::new()
    }
}

impl<const N: usize> core::str::FromStr for BigUint<N> {
    type Err = ParseError;

    fn from_str(s: &str) -> Result<Self, ParseError> {
        Self::from_hex_str(s)
    }
}

} // verus!
