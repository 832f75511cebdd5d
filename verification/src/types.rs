//! Small value types used by the parsed output.
//!
//! These exist so the crate can hand back addresses, hashes and 256-bit
//! integers without dragging in a full EVM primitives stack. They are plain
//! byte arrays with the formatting you would expect.

use vstd::prelude::*;
use vstd::slice::slice_subrange;
use vstd::string::*;

use crate::hex;
use crate::num;
use crate::output;
use crate::text;

verus! {

/// A 20-byte account address.
#[derive(Clone, Copy, PartialEq, Eq, Hash, PartialOrd, Ord, Default)]
pub struct Address(pub [u8; 20]);

/// A 32-byte hash: a transaction hash, block hash or storage key.
#[derive(Clone, Copy, PartialEq, Eq, Hash, PartialOrd, Ord, Default)]
pub struct B256(pub [u8; 32]);

/// A 256-bit unsigned integer, stored big-endian.
///
/// Its text is decimal, like every other Ethereum tool's. Amounts that fit in
/// 128 bits, which is every real value on any chain, can be taken out with
/// [`U256::to_u128`].
#[derive(Clone, Copy, PartialEq, Eq, Hash, PartialOrd, Ord, Default)]
pub struct U256([u8; 32]);

/// An owned byte string that prints as hex instead of a list of numbers.
#[derive(Clone, PartialEq, Eq, Hash, Default)]
pub struct Bytes(pub Vec<u8>);

impl View for Address {
    type V = Seq<u8>;

    open spec fn view(&self) -> Seq<u8> {
        self.0@
    }
}

impl View for B256 {
    type V = Seq<u8>;

    open spec fn view(&self) -> Seq<u8> {
        self.0@
    }
}

impl View for Bytes {
    type V = Seq<u8>;

    open spec fn view(&self) -> Seq<u8> {
        self.0@
    }
}

impl View for U256 {
    type V = nat;

    open spec fn view(&self) -> nat {
        num::be_value(self.bytes())
    }
}

/// Copy exactly `N` bytes into an array.
pub(crate) fn array_of<const N: usize>(bytes: &[u8]) -> (out: [u8; N])
    requires
        bytes@.len() == N,
    ensures
        out@ == bytes@,
{
    let mut out = [0u8; N];
    let mut i: usize = 0;
    while i < N
        invariant
            i <= N,
            bytes@.len() == N,
            forall|j: int| 0 <= j < i ==> out@[j] == bytes@[j],
        decreases N - i,
    {
        out[i] = bytes[i];
        i += 1;
    }
    assert(out@ =~= bytes@);
    out
}

/// Read a big-endian integer of at most 16 bytes.
pub(crate) fn read_be(bytes: &[u8]) -> (out: u128)
    requires
        bytes@.len() <= 16,
    ensures
        out == num::be_value(bytes@),
{
    let mut out: u128 = 0;
    let mut i: usize = 0;
    while i < bytes.len()
        invariant
            i <= bytes@.len() <= 16,
            out == num::be_value(bytes@.take(i as int)),
        decreases bytes@.len() - i,
    {
        proof {
            let next = bytes@.take(i + 1);
            assert(next.drop_last() =~= bytes@.take(i as int));
            num::lemma_be_value_bound(next);
            num::lemma_pow256_monotonic((i + 1) as nat, 16);
            num::lemma_pow256_values();
        }
        out = out * 256 + bytes[i] as u128;
        i += 1;
    }
    assert(bytes@.take(i as int) =~= bytes@);
    out
}

/// `0x` and then every byte in lower-case hexadecimal.
fn prefixed_hex(bytes: &[u8]) -> (out: String)
    requires
        bytes@.len() * 2 <= isize::MAX,
    ensures
        out@ == "0x"@ + hex::hex_text(bytes@),
{
    let mut out = "0x".to_owned();
    out.append(hex::encode(bytes).as_str());
    out
}

/// Lower-case hexadecimal, with the prefix only in the alternate form.
fn lower_hex(bytes: &[u8], alternate: bool) -> (out: String)
    requires
        bytes@.len() * 2 <= isize::MAX,
    ensures
        out@ == if alternate {
            "0x"@ + hex::hex_text(bytes@)
        } else {
            hex::hex_text(bytes@)
        },
{
    if alternate {
        prefixed_hex(bytes)
    } else {
        hex::encode(bytes)
    }
}

impl Address {
    /// The all-zero address.
    pub fn zero() -> (out: Self)
        ensures
            out@ == Seq::new(20, |i: int| 0u8),
    {
        let out = Self([0u8; 20]);
        assert(out@ =~= Seq::new(20, |i: int| 0u8));
        out
    }

    /// Read an address from exactly 20 bytes.
    #[must_use]
    pub fn from_slice(bytes: &[u8]) -> (out: Option<Self>)
        ensures
            out is Some <==> bytes@.len() == 20,
            out matches Some(address) ==> address@ == bytes@,
    {
        if bytes.len() != 20 {
            return None;
        }
        Some(Self(array_of::<20>(bytes)))
    }

    /// The address as text: `0x` and forty lower-case digits.
    pub fn to_string(&self) -> (out: String)
        ensures
            out@ == "0x"@ + hex::hex_text(self@),
    {
        prefixed_hex(self.0.as_slice())
    }

    /// The digits alone, or with `0x` in front in the alternate form.
    pub fn to_lower_hex(&self, alternate: bool) -> (out: String)
        ensures
            out@ == if alternate {
                "0x"@ + hex::hex_text(self@)
            } else {
                hex::hex_text(self@)
            },
    {
        lower_hex(self.0.as_slice(), alternate)
    }
}

impl B256 {
    /// The all-zero hash.
    pub fn zero() -> (out: Self)
        ensures
            out@ == Seq::new(32, |i: int| 0u8),
    {
        let out = Self([0u8; 32]);
        assert(out@ =~= Seq::new(32, |i: int| 0u8));
        out
    }

    /// Read a hash from exactly 32 bytes.
    #[must_use]
    pub fn from_slice(bytes: &[u8]) -> (out: Option<Self>)
        ensures
            out is Some <==> bytes@.len() == 32,
            out matches Some(hash) ==> hash@ == bytes@,
    {
        if bytes.len() != 32 {
            return None;
        }
        Some(Self(array_of::<32>(bytes)))
    }

    /// The hash as text: `0x` and sixty-four lower-case digits.
    pub fn to_string(&self) -> (out: String)
        ensures
            out@ == "0x"@ + hex::hex_text(self@),
    {
        prefixed_hex(self.0.as_slice())
    }

    /// The digits alone, or with `0x` in front in the alternate form.
    pub fn to_lower_hex(&self, alternate: bool) -> (out: String)
        ensures
            out@ == if alternate {
                "0x"@ + hex::hex_text(self@)
            } else {
                hex::hex_text(self@)
            },
    {
        lower_hex(self.0.as_slice(), alternate)
    }
}

/// The number four 64-bit limbs stand for, most significant first.
spec fn limbs_value(limbs: Seq<u64>) -> nat
    decreases limbs.len(),
{
    if limbs.len() == 0 {
        0
    } else {
        limbs_value(limbs.drop_last()) * 0x1_0000_0000_0000_0000 + limbs.last() as nat
    }
}

/// Nineteen digits for every chunk, the last chunk first.
spec fn chunks_text(chunks: Seq<u64>) -> Seq<char>
    decreases chunks.len(),
{
    if chunks.len() == 0 {
        Seq::empty()
    } else {
        text::padded_digits(chunks.last() as nat, 10, 19) + chunks_text(chunks.drop_last())
    }
}

/// Ten to the nineteenth, the largest power of ten below `2^64`.
const CHUNK: u128 = 10_000_000_000_000_000_000;

/// Divide four limbs by `10^19` in place and return the remainder.
fn peel_chunk(limbs: &mut [u64; 4]) -> (rem: u64)
    ensures
        limbs_value(old(limbs)@) == limbs_value(final(limbs)@) * CHUNK + rem,
        rem < CHUNK,
{
    let ghost before = limbs@;
    let mut rem: u128 = 0;
    let mut i: usize = 0;
    assert(before.take(0) =~= Seq::<u64>::empty());
    assert(limbs@.take(0) =~= Seq::<u64>::empty());
    while i < 4
        invariant
            i <= 4,
            before.len() == 4,
            rem < CHUNK,
            forall|j: int| i <= j < 4 ==> limbs@[j] == before[j],
            limbs_value(before.take(i as int)) == limbs_value(limbs@.take(i as int)) * CHUNK + rem,
        decreases 4 - i,
    {
        let limb = limbs[i];
        let cur: u128 = rem * 0x1_0000_0000_0000_0000 + limb as u128;
        let ghost done = limbs@.take(i as int);
        let q: u128 = cur / CHUNK;
        limbs[i] = q as u64;
        proof {
            assert(before.take(i + 1).drop_last() =~= before.take(i as int));
            assert(limbs@.take(i + 1).drop_last() =~= done);
            let b = limbs_value(before.take(i as int));
            let d = limbs_value(done);
            let r = (cur % CHUNK) as nat;
            assert(b * 0x1_0000_0000_0000_0000 + limb == (d * 0x1_0000_0000_0000_0000 + q) * CHUNK
                + r) by (nonlinear_arith)
                requires
                    b == d * CHUNK + rem,
                    cur == rem * 0x1_0000_0000_0000_0000 + limb,
                    cur == q * CHUNK + r,
            ;
        }
        rem = cur % CHUNK;
        i += 1;
    }
    assert(before.take(4) =~= before);
    assert(limbs@.take(4) =~= limbs@);
    rem as u64
}

/// Hexadecimal text without its first character when that is a spare zero.
spec fn without_spare_zero(digits: Seq<char>) -> Seq<char> {
    if digits.len() > 1 && digits[0] == '0' {
        digits.skip(1)
    } else {
        digits
    }
}

/// Two digits a byte, less a spare leading zero, is the number in base 16.
proof fn lemma_hex_text_digits(s: Seq<u8>)
    requires
        s.len() > 0,
        s[0] != 0 || s.len() == 1,
    ensures
        without_spare_zero(hex::hex_text(s)) == text::digits(num::be_value(s), 16),
    decreases s.len(),
{
    let front = s.drop_last();
    let b = s.last();
    let t = hex::hex_text(s);
    let hi = text::digit_char((b / 16) as nat);
    let lo = text::digit_char((b % 16) as nat);
    if front.len() == 0 {
        assert(num::be_value(front) == 0);
        assert(num::be_value(s) == b as nat);
        assert(t =~= seq![hi, lo]);
        if b < 16 {
            assert(without_spare_zero(t) =~= seq![lo]);
        } else {
            assert(text::digits((b / 16) as nat, 16) =~= seq![hi]);
            assert(text::digits(b as nat, 16) =~= seq![hi, lo]);
        }
    } else {
        assert(front[0] == s[0]);
        lemma_hex_text_digits(front);
        num::lemma_be_value_bytes(front);
        assert(t =~= hex::hex_text(front) + seq![hi, lo]);
        assert(without_spare_zero(t) =~= without_spare_zero(hex::hex_text(front)) + seq![hi, lo]);
        reveal_with_fuel(text::power, 3);
        assert(text::power(16, 2) == 256);
        text::lemma_digits_split(num::be_value(front), b as nat, 16, 2);
        reveal_with_fuel(text::padded_digits, 3);
        assert(((b as nat) / 16) % 16 == (b as nat) / 16);
        assert(text::padded_digits(b as nat, 16, 2) =~= seq![hi, lo]);
    }
}

impl U256 {
    /// The 32 big-endian bytes.
    pub closed spec fn bytes(&self) -> Seq<u8> {
        self.0@
    }

    /// Zero.
    pub fn zero() -> (out: Self)
        ensures
            out@ == 0,
    {
        let out = Self([0u8; 32]);
        proof {
            num::lemma_be_value_zero(out.0@);
        }
        out
    }

    /// Read a big-endian integer from at most 32 bytes, right-aligning it.
    ///
    /// Returns `None` if `bytes` is longer than 32, which in RLP means the
    /// item was not a valid 256-bit integer.
    #[must_use]
    pub fn from_be_slice(bytes: &[u8]) -> (out: Option<Self>)
        ensures
            out is Some <==> bytes@.len() <= 32,
            out matches Some(n) ==> n@ == num::be_value(bytes@),
    {
        if bytes.len() > 32 {
            return None;
        }
        let mut out = [0u8; 32];
        let start: usize = 32 - bytes.len();
        let mut i: usize = 0;
        while i < bytes.len()
            invariant
                i <= bytes@.len() <= 32,
                start == 32 - bytes@.len(),
                forall|j: int| 0 <= j < start ==> out@[j] == 0,
                forall|j: int| 0 <= j < i ==> out@[start + j] == bytes@[j],
            decreases bytes@.len() - i,
        {
            out[start + i] = bytes[i];
            i += 1;
        }
        proof {
            let zeros = out@.take(start as int);
            assert(out@ =~= zeros + bytes@);
            num::lemma_be_value_leading_zeros(zeros, bytes@);
        }
        Some(Self(out))
    }

    /// The big-endian bytes, zero-padded to 32.
    #[must_use]
    pub fn to_be_bytes(self) -> (out: [u8; 32])
        ensures
            out@ == self.bytes(),
            out@ == num::be_fixed(self@, 32),
            num::be_value(out@) == self@,
    {
        proof {
            num::lemma_be_fixed_value(self.0@);
        }
        self.0
    }

    /// Whether this is zero.
    #[must_use]
    pub fn is_zero(&self) -> (out: bool)
        ensures
            out == (self@ == 0),
    {
        let mut i: usize = 0;
        while i < 32
            invariant
                i <= 32,
                forall|j: int| 0 <= j < i ==> self.0@[j] == 0,
            decreases 32 - i,
        {
            if self.0[i] != 0 {
                proof {
                    num::lemma_be_value_zero(self.0@);
                    assert(self.0@[i as int] != 0);
                }
                return false;
            }
            i += 1;
        }
        proof {
            num::lemma_be_value_zero(self.0@);
        }
        true
    }

    /// The value as a `u128`, or `None` if it does not fit.
    #[must_use]
    pub fn to_u128(self) -> (out: Option<u128>)
        ensures
            out is Some <==> self@ <= u128::MAX,
            out matches Some(n) ==> n == self@,
    {
        let high = slice_subrange(self.0.as_slice(), 0, 16);
        let low = slice_subrange(self.0.as_slice(), 16, 32);
        proof {
            assert(self.0@ =~= high@ + low@);
            num::lemma_be_value_concat(high@, low@);
            num::lemma_be_value_zero(high@);
            num::lemma_be_value_bound(low@);
            num::lemma_pow256_values();
            let h = num::be_value(high@);
            let p = num::pow256(16);
            if h > 0 {
                assert(h * p >= p) by (nonlinear_arith)
                    requires
                        h > 0,
                ;
            }
        }
        let mut i: usize = 0;
        while i < 16
            invariant
                i <= 16,
                high@.len() == 16,
                forall|j: int| 0 <= j < i ==> high@[j] == 0,
                num::be_value(high@) == 0 <==> (forall|i: int|
                    0 <= i < high@.len() ==> high@[i] == 0),
                num::be_value(high@) > 0 ==> self@ > u128::MAX,
            decreases 16 - i,
        {
            if high[i] != 0 {
                return None;
            }
            i += 1;
        }
        Some(read_be(low))
    }

    /// The four 64-bit limbs, most significant first.
    fn limbs(self) -> (out: [u64; 4])
        ensures
            limbs_value(out@) == self@,
    {
        let mut out = [0u64; 4];
        let mut i: usize = 0;
        assert(self.0@.take(0) =~= Seq::<u8>::empty());
        assert(out@.take(0) =~= Seq::<u64>::empty());
        while i < 4
            invariant
                i <= 4,
                limbs_value(out@.take(i as int)) == num::be_value(self.0@.take(8 * i as int)),
            decreases 4 - i,
        {
            let chunk = slice_subrange(self.0.as_slice(), 8 * i, 8 * i + 8);
            proof {
                num::lemma_be_value_bound(chunk@);
                num::lemma_pow256_values();
                assert(self.0@.take(8 * (i + 1)) =~= self.0@.take(8 * i as int) + chunk@);
                num::lemma_be_value_concat(self.0@.take(8 * i as int), chunk@);
            }
            let ghost before = out@.take(i as int);
            out[i] = read_be(chunk) as u64;
            assert(out@.take(i + 1).drop_last() =~= before);
            i += 1;
        }
        assert(self.0@.take(32) =~= self.0@);
        assert(out@.take(4) =~= out@);
        out
    }

    /// The number in decimal, by repeated division of the 64-bit limbs by
    /// `10^19`.
    pub fn to_string(&self) -> (out: String)
        ensures
            out@ == text::digits(self@, 10),
    {
        let mut limbs = self.limbs();
        // Each pass peels off the low 19 decimal digits.
        let mut chunks: Vec<u64> = Vec::new();
        let mut chunk: u64 = peel_chunk(&mut limbs);
        let mut rest = limbs[0] != 0 || limbs[1] != 0 || limbs[2] != 0 || limbs[3] != 0;
        proof {
            lemma_limbs_zero(limbs@);
            assert(text::digits(self@, 10) + chunks_text(chunks@) =~= text::digits(self@, 10));
        }
        while rest
            invariant
                rest == (limbs_value(limbs@) > 0),
                chunk < CHUNK,
                text::digits(self@, 10) == text::digits(
                    limbs_value(limbs@) * CHUNK as nat + chunk as nat,
                    10,
                ) + chunks_text(chunks@),
            decreases limbs_value(limbs@),
        {
            let ghost high = limbs_value(limbs@);
            let ghost before = chunks@;
            chunks.push(chunk);
            proof {
                lemma_power_ten();
                text::lemma_digits_split(high, chunk as nat, 10, 19);
                assert(chunks@.drop_last() =~= before);
                assert(text::digits(self@, 10) =~= text::digits(high, 10) + chunks_text(chunks@));
            }
            chunk = peel_chunk(&mut limbs);
            rest = limbs[0] != 0 || limbs[1] != 0 || limbs[2] != 0 || limbs[3] != 0;
            proof {
                lemma_limbs_zero(limbs@);
                let q = limbs_value(limbs@);
                assert(q < high) by (nonlinear_arith)
                    requires
                        high == q * CHUNK + chunk,
                        high > 0,
                        CHUNK == 10_000_000_000_000_000_000,
                ;
            }
        }

        let mut out = String::new();
        text::push_decimal(&mut out, chunk);
        while chunks.len() > 0
            invariant
                text::digits(self@, 10) == out@ + chunks_text(chunks@),
            decreases chunks@.len(),
        {
            let ghost before = chunks@;
            let ghost so_far = out@;
            match chunks.pop() {
                Some(next) => {
                    text::push_padded(&mut out, next, 19);
                    assert(before.drop_last() =~= chunks@);
                    assert(so_far + chunks_text(before) =~= out@ + chunks_text(chunks@));
                },
                None => {},
            }
        }
        assert(out@ + chunks_text(chunks@) =~= out@);
        out
    }

    /// Minimal hexadecimal, with no leading zeros; the alternate form puts
    /// `0x` in front.
    pub fn to_lower_hex(&self, alternate: bool) -> (out: String)
        ensures
            out@ == if alternate {
                "0x"@ + text::digits(self@, 16)
            } else {
                text::digits(self@, 16)
            },
    {
        let mut first: usize = 0;
        while first < 31 && self.0[first] == 0
            invariant
                first <= 31,
                forall|j: int| 0 <= j < first ==> self.0@[j] == 0,
            decreases 31 - first,
        {
            first += 1;
        }
        let tail = slice_subrange(self.0.as_slice(), first, 32);
        let encoded = hex::encode(tail);
        proof {
            assert(self.0@ =~= self.0@.take(first as int) + tail@);
            num::lemma_be_value_leading_zeros(self.0@.take(first as int), tail@);
            lemma_hex_text_digits(tail@);
        }
        let len = encoded.as_str().unicode_len();
        let digits = if len > 1 && encoded.as_str().get_char(0) == '0' {
            encoded.as_str().substring_char(1, len)
        } else {
            encoded.as_str()
        };
        assert(digits@ =~= without_spare_zero(encoded@));
        let mut out = String::new();
        if alternate {
            out.append("0x");
        }
        out.append(digits);
        assert(Seq::<char>::empty() + digits@ =~= digits@);
        assert(Seq::<char>::empty() + "0x"@ =~= "0x"@);
        out
    }
}

proof fn lemma_power_ten()
    ensures
        text::power(10, 19) == CHUNK,
{
    reveal_with_fuel(text::power, 20);
}

/// Limbs are zero together exactly when each is.
proof fn lemma_limbs_zero(limbs: Seq<u64>)
    requires
        limbs.len() == 4,
    ensures
        limbs_value(limbs) == 0 <==> limbs[0] == 0 && limbs[1] == 0 && limbs[2] == 0 && limbs[3]
            == 0,
{
    reveal_with_fuel(limbs_value, 5);
    let a = limbs.drop_last();
    let b = a.drop_last();
    let c = b.drop_last();
    assert(a.last() == limbs[2] && b.last() == limbs[1] && c.last() == limbs[0]);
    assert(c.drop_last().len() == 0);
}

impl From<u128> for U256 {
    fn from(value: u128) -> (out: Self)
        ensures
            out@ == value,
    {
        let mut out = [0u8; 32];
        let mut rest: u128 = value;
        let mut i: usize = 32;
        proof {
            num::lemma_pow256_values();
            assert(out@.skip(32) =~= Seq::<u8>::empty());
            assert(rest * num::pow256(0) == rest);
        }
        while i > 16
            invariant
                16 <= i <= 32,
                forall|j: int| 0 <= j < i ==> out@[j] == 0,
                value == rest * num::pow256((32 - i) as nat) + num::be_value(out@.skip(i as int)),
                rest < num::pow256((i - 16) as nat),
            decreases i,
        {
            let ghost tail = out@.skip(i as int);
            let ghost before = rest as nat;
            i -= 1;
            out[i] = (rest % 256) as u8;
            rest = rest / 256;
            proof {
                let b = (before % 256) as u8;
                let p = num::pow256(tail.len());
                assert(out@.skip(i as int) =~= seq![b] + tail);
                num::lemma_be_value_concat(seq![b], tail);
                num::lemma_be_value_single(b);
                assert(num::pow256((32 - i) as nat) == 256 * p);
                assert(before * p == rest * (256 * p) + b * p) by (nonlinear_arith)
                    requires
                        before == rest * 256 + b,
                ;
                let high = num::pow256((i - 16) as nat);
                assert(rest < high) by (nonlinear_arith)
                    requires
                        before < 256 * high,
                        before == rest * 256 + b,
                ;
            }
        }
        proof {
            num::lemma_pow256_values();
            assert(out@ =~= out@.take(16) + out@.skip(16));
            num::lemma_be_value_leading_zeros(out@.take(16), out@.skip(16));
        }
        Self(out)
    }
}

impl vstd::std_specs::convert::FromSpecImpl<u128> for U256 {
    /// What the conversion gives is said by its own contract.
    open spec fn obeys_from_spec() -> bool {
        false
    }

    open spec fn from_spec(v: u128) -> Self {
        arbitrary()
    }
}

impl Bytes {
    /// The bytes as a slice.
    #[must_use]
    pub fn as_slice(&self) -> (out: &[u8])
        ensures
            out@ == self@,
    {
        self.0.as_slice()
    }

    /// The bytes as text: `0x` and two lower-case digits for each.
    pub fn to_string(&self) -> (out: String)
        requires
            self@.len() * 2 <= isize::MAX,
        ensures
            out@ == "0x"@ + hex::hex_text(self@),
    {
        prefixed_hex(self.0.as_slice())
    }
}

impl std::fmt::Debug for Address {
    fn fmt(&self, f: &mut std::fmt::Formatter<'_>) -> (out: Result<(), std::fmt::Error>)
        ensures
            out is Ok ==> output::written(*final(f)) == output::written(*old(f)) + ("0x"@
                + hex::hex_text(self@)),
    {
        output::write_hex(f, self.0.as_slice())
    }
}

impl std::fmt::Debug for B256 {
    fn fmt(&self, f: &mut std::fmt::Formatter<'_>) -> (out: Result<(), std::fmt::Error>)
        ensures
            out is Ok ==> output::written(*final(f)) == output::written(*old(f)) + ("0x"@
                + hex::hex_text(self@)),
    {
        output::write_hex(f, self.0.as_slice())
    }
}

impl std::fmt::Debug for U256 {
    fn fmt(&self, f: &mut std::fmt::Formatter<'_>) -> (out: Result<(), std::fmt::Error>)
        ensures
            out is Ok ==> output::written(*final(f)) == output::written(*old(f)) + text::digits(
                self@,
                10,
            ),
    {
        output::write_text(f, self.to_string().as_str())
    }
}

impl std::fmt::Debug for Bytes {
    fn fmt(&self, f: &mut std::fmt::Formatter<'_>) -> (out: Result<(), std::fmt::Error>)
        ensures
            out is Ok ==> output::written(*final(f)) == output::written(*old(f)) + ("0x"@
                + hex::hex_text(self@)),
    {
        output::write_hex(f, self.0.as_slice())
    }
}

impl std::ops::Deref for Bytes {
    type Target = [u8];

    fn deref(&self) -> (out: &[u8])
        ensures
            out@ == self@,
    {
        self.0.as_slice()
    }
}

impl From<Vec<u8>> for Bytes {
    fn from(value: Vec<u8>) -> (out: Self)
        ensures
            out@ == value@,
    {
        Self(value)
    }
}

impl vstd::std_specs::convert::FromSpecImpl<Vec<u8>> for Bytes {
    open spec fn obeys_from_spec() -> bool {
        true
    }

    open spec fn from_spec(v: Vec<u8>) -> Self {
        Bytes(v)
    }
}

impl<'a> From<&'a [u8]> for Bytes {
    fn from(value: &'a [u8]) -> (out: Self)
        ensures
            out@ == value@,
    {
        Self(vstd::slice::slice_to_vec(value))
    }
}

impl<'a> vstd::std_specs::convert::FromSpecImpl<&'a [u8]> for Bytes {
    /// What the conversion gives is said by its own contract.
    open spec fn obeys_from_spec() -> bool {
        false
    }

    open spec fn from_spec(v: &'a [u8]) -> Self {
        arbitrary()
    }
}

/// Two 256-bit integers are equal exactly when their values are.
pub proof fn u256_is_its_value(a: U256, b: U256)
    ensures
        a@ == b@ <==> a == b,
{
    if a@ == b@ {
        num::lemma_be_value_injective(a.0@, b.0@);
        assert(a.0 =~= b.0);
    }
}

/// The value always fits in 256 bits.
pub proof fn u256_bound(n: U256)
    ensures
        n.bytes().len() == 32,
        n@ < num::pow256(32),
{
    num::lemma_be_value_bound(n.0@);
}

/// Reading back the bytes of a 256-bit integer gives the integer: the bytes
/// determine it, with or without the leading zeros.
pub proof fn u256_bytes_round_trip(n: U256)
    ensures
        num::be_value(n.bytes()) == n@,
        num::be_value(num::be_bytes(n@)) == n@,
        num::be_bytes(n@).len() <= 32,
{
    u256_bound(n);
    num::lemma_be_bytes_value(n@);
    num::lemma_be_bytes_len(n@, 32);
}

/// A number is written as what it reads back from, without needless zeros:
/// in decimal, or in lower-case hexadecimal behind `0x` if asked for.
pub proof fn numbers_read_back(n: &U256, decimal: String, hex: String, alternate: bool)
    requires
        call_ensures(U256::to_string, (n,), decimal),
        call_ensures(U256::to_lower_hex, (n, alternate), hex),
    ensures
        text::unsigned_value(decimal@, 10, n@) == Some(n@),
        decimal@.len() > 1 ==> decimal@[0] != '0',
        alternate ==> hex@.len() > 2 && hex@[0] == '0' && hex@[1] == 'x',
        ({
            let digits = if alternate {
                hex@.skip(2)
            } else {
                hex@
            };
            &&& text::unsigned_value(digits, 16, n@) == Some(n@)
            &&& digits.len() > 1 ==> digits[0] != '0'
            &&& forall|i: int|
                0 <= i < digits.len() ==> '0' <= #[trigger] digits[i] <= '9' || 'a' <= digits[i]
                    <= 'f'
        }),
{
    reveal_strlit("0x");
    text::digits_read_back(n@, 10);
    text::digits_read_back(n@, 16);
    text::numbers_are_written_plainly(n@, 10);
    text::numbers_are_written_plainly(n@, 16);
    assert(("0x"@ + text::digits(n@, 16)).skip(2) =~= text::digits(n@, 16));
}

/// Bytes are written as `0x` and two lower-case digits for each, in order, the
/// high half first.
pub proof fn bytes_are_written_in_hex(
    address: &Address,
    hash: &B256,
    bytes: &Bytes,
    out: String,
)
    ensures
        call_ensures(Address::to_string, (address,), out) ==> is_prefixed_hex(out@, address@),
        call_ensures(B256::to_string, (hash,), out) ==> is_prefixed_hex(out@, hash@),
        call_ensures(Bytes::to_string, (bytes,), out) ==> is_prefixed_hex(out@, bytes@),
        call_ensures(Address::to_lower_hex, (address, true), out) ==> is_prefixed_hex(
            out@,
            address@,
        ),
        call_ensures(B256::to_lower_hex, (hash, true), out) ==> is_prefixed_hex(out@, hash@),
        call_ensures(Address::to_lower_hex, (address, false), out) ==> is_prefixed_hex(
            seq!['0', 'x'] + out@,
            address@,
        ),
        call_ensures(B256::to_lower_hex, (hash, false), out) ==> is_prefixed_hex(
            seq!['0', 'x'] + out@,
            hash@,
        ),
{
    reveal_strlit("0x");
    assert("0x"@ =~= seq!['0', 'x']);
    lemma_prefixed_hex(address@);
    lemma_prefixed_hex(hash@);
    lemma_prefixed_hex(bytes@);
}

/// Whether a text is `0x` and two lower-case digits for every byte.
pub open spec fn is_prefixed_hex(text: Seq<char>, bytes: Seq<u8>) -> bool {
    &&& text.len() == 2 + 2 * bytes.len()
    &&& text[0] == '0'
    &&& text[1] == 'x'
    &&& forall|i: int|
        0 <= i < bytes.len() ==> {
            let high = text[2 + 2 * i];
            let low = text[3 + 2 * i];
            &&& '0' <= high <= '9' || 'a' <= high <= 'f'
            &&& '0' <= low <= '9' || 'a' <= low <= 'f'
            &&& #[trigger] bytes[i] == 16 * digit_worth(high) + digit_worth(low)
        }
}

/// What a lower-case hexadecimal digit is worth.
pub open spec fn digit_worth(c: char) -> int {
    if c <= '9' {
        c as int - 48
    } else {
        c as int - 87
    }
}

proof fn lemma_prefixed_hex(bytes: Seq<u8>)
    ensures
        is_prefixed_hex(seq!['0', 'x'] + hex::hex_text(bytes), bytes),
{
    let text = seq!['0', 'x'] + hex::hex_text(bytes);
    assert forall|i: int| 0 <= i < bytes.len() implies {
        let high = text[2 + 2 * i];
        let low = text[3 + 2 * i];
        &&& '0' <= high <= '9' || 'a' <= high <= 'f'
        &&& '0' <= low <= '9' || 'a' <= low <= 'f'
        &&& #[trigger] bytes[i] == 16 * digit_worth(high) + digit_worth(low)
    } by {
        let byte = bytes[i];
        assert((2 * i) / 2 == i && (2 * i) % 2 == 0);
        assert((2 * i + 1) / 2 == i && (2 * i + 1) % 2 == 1);
        assert(text[2 + 2 * i] == text::digit_char((byte / 16) as nat));
        assert(text[3 + 2 * i] == text::digit_char((byte % 16) as nat));
        assert(byte / 16 < 16 && byte % 16 < 16);
    }
}

/// An address or a hash is read from exactly as many bytes as it has, and is
/// those bytes. A number is read from up to 32, the last being worth least.
pub proof fn values_are_read_from_bytes(
    bytes: &[u8],
    address: Option<Address>,
    hash: Option<B256>,
    number: Option<U256>,
)
    requires
        call_ensures(Address::from_slice, (bytes,), address),
        call_ensures(B256::from_slice, (bytes,), hash),
        call_ensures(U256::from_be_slice, (bytes,), number),
    ensures
        address is Some <==> bytes@.len() == 20,
        hash is Some <==> bytes@.len() == 32,
        number is Some <==> bytes@.len() <= 32,
        address matches Some(address) ==> address@ == bytes@,
        hash matches Some(hash) ==> hash@ == bytes@,
        number matches Some(number) ==> number@ == num::be_value(bytes@),
        bytes@.len() == 0 ==> num::be_value(bytes@) == 0,
        bytes@.len() > 0 ==> num::be_value(bytes@) == 256 * num::be_value(bytes@.drop_last())
            + bytes@.last(),
{
}

/// Turning a number into bytes and back, or into a machine integer and back,
/// keeps it; the latter is there if and only if it is less than two to the
/// 128th. Zero is zero in every form.
pub proof fn numbers_survive_conversion(
    n: U256,
    bytes: [u8; 32],
    small: Option<u128>,
    zero: bool,
    value: u128,
    made: U256,
)
    requires
        call_ensures(U256::to_be_bytes, (n,), bytes),
        call_ensures(U256::to_u128, (n,), small),
        call_ensures(U256::is_zero, (&n,), zero),
        call_ensures(<U256 as From<u128>>::from, (value,), made),
    ensures
        num::be_value(bytes@) == n@,
        small is Some <==> n@ < 0x1_0000_0000_0000_0000_0000_0000_0000_0000,
        small matches Some(small) ==> small == n@,
        zero <==> small == Some(0u128),
        made@ == value,
{
}

/// Bytes are the bytes they are made from, however they are looked at.
pub proof fn bytes_stay_the_same(
    owned: Vec<u8>,
    borrowed: &[u8],
    made: Bytes,
    copied: Bytes,
    slice: &[u8],
    behind: &[u8],
)
    requires
        call_ensures(<Bytes as From<Vec<u8>>>::from, (owned,), made),
        call_ensures(<Bytes as From<&[u8]>>::from, (borrowed,), copied),
        call_ensures(Bytes::as_slice, (&made,), slice),
        call_ensures(<Bytes as std::ops::Deref>::deref, (&made,), behind),
    ensures
        made@ == owned@,
        copied@ == borrowed@,
        slice@ == owned@,
        behind@ == owned@,
{
}

/// An address, a hash and a byte string are the bytes they hold.
pub proof fn values_are_their_bytes(address: Address, hash: B256, bytes: Bytes)
    ensures
        address@ == address.0@,
        hash@ == hash.0@,
        bytes@ == bytes.0@,
{
}

/// What starts out as nothing is nothing: every byte is zero, and so is the
/// number.
pub proof fn zeros_are_zero(address: Address, hash: B256, number: U256)
    requires
        call_ensures(Address::zero, (), address),
        call_ensures(B256::zero, (), hash),
        call_ensures(U256::zero, (), number),
    ensures
        address@.len() == 20 && hash@.len() == 32,
        forall|i: int| 0 <= i < 20 ==> #[trigger] address@[i] == 0,
        forall|i: int| 0 <= i < 32 ==> #[trigger] hash@[i] == 0,
        number@ == 0,
{
}

} // verus!
