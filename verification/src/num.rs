//! Numbers as digits: big-endian bytes and the arithmetic around them.

use vstd::prelude::*;

verus! {

/// The number a big-endian byte string stands for. The empty string is zero.
pub open spec fn be_value(s: Seq<u8>) -> nat
    decreases s.len(),
{
    if s.len() == 0 {
        0
    } else {
        be_value(s.drop_last()) * 256 + s.last() as nat
    }
}

/// The shortest big-endian byte string for a number: no leading zero, and
/// empty for zero itself.
pub open spec fn be_bytes(n: nat) -> Seq<u8>
    decreases n,
{
    if n == 0 {
        Seq::empty()
    } else {
        be_bytes(n / 256).push((n % 256) as u8)
    }
}

/// How many numbers `len` bytes can tell apart.
pub open spec fn pow256(len: nat) -> nat
    decreases len,
{
    if len == 0 {
        1
    } else {
        256 * pow256((len - 1) as nat)
    }
}

/// A big-endian byte string stands for a number below `256^len`.
pub proof fn lemma_be_value_bound(s: Seq<u8>)
    ensures
        be_value(s) < pow256(s.len()),
    decreases s.len(),
{
    if s.len() > 0 {
        lemma_be_value_bound(s.drop_last());
    }
}

pub proof fn lemma_pow256_monotonic(a: nat, b: nat)
    requires
        a <= b,
    ensures
        0 < pow256(a) <= pow256(b),
    decreases b,
{
    if a < b {
        lemma_pow256_monotonic(a, (b - 1) as nat);
    } else if b > 0 {
        lemma_pow256_monotonic((a - 1) as nat, (b - 1) as nat);
    }
}

/// The powers the machine integers end at.
pub proof fn lemma_pow256_values()
    ensures
        pow256(0) == 1,
        pow256(1) == 0x100,
        pow256(8) == 0x1_0000_0000_0000_0000,
        pow256(16) == 0x1_0000_0000_0000_0000_0000_0000_0000_0000,
{
    reveal_with_fuel(pow256, 18);
}

pub proof fn lemma_be_value_single(b: u8)
    ensures
        be_value(seq![b]) == b as nat,
{
    reveal_with_fuel(be_value, 2);
}

/// Appending bytes shifts what was there and adds what comes.
pub proof fn lemma_be_value_concat(a: Seq<u8>, b: Seq<u8>)
    ensures
        be_value(a + b) == be_value(a) * pow256(b.len()) + be_value(b),
    decreases b.len(),
{
    if b.len() == 0 {
        assert(a + b =~= a);
        assert(be_value(a) * 1 == be_value(a));
    } else {
        let front = b.drop_last();
        assert((a + b).last() == b.last());
        assert(pow256(b.len()) == 256 * pow256(front.len()));
        lemma_be_value_concat(a, front);
        assert((a + b).drop_last() =~= a + front);
        let va = be_value(a);
        let p = pow256(front.len());
        let vf = be_value(front);
        assert((va * p + vf) * 256 == va * (256 * p) + vf * 256) by (nonlinear_arith);
    }
}

/// A byte string is zero exactly when every byte of it is.
pub proof fn lemma_be_value_zero(s: Seq<u8>)
    ensures
        be_value(s) == 0 <==> (forall|i: int| 0 <= i < s.len() ==> s[i] == 0),
    decreases s.len(),
{
    if s.len() > 0 {
        let front = s.drop_last();
        lemma_be_value_zero(front);
        if be_value(s) == 0 {
            assert forall|i: int| 0 <= i < s.len() implies s[i] == 0 by {
                if i < front.len() {
                    assert(front[i] == s[i]);
                }
            }
        }
        if forall|i: int| 0 <= i < s.len() ==> s[i] == 0 {
            assert forall|i: int| 0 <= i < front.len() implies front[i] == 0 by {
                assert(front[i] == s[i]);
            }
            assert(s.last() == 0);
        }
    }
}

/// Two byte strings of one length that stand for one number are the same.
pub proof fn lemma_be_value_injective(a: Seq<u8>, b: Seq<u8>)
    requires
        a.len() == b.len(),
        be_value(a) == be_value(b),
    ensures
        a == b,
    decreases a.len(),
{
    if a.len() > 0 {
        lemma_be_value_injective(a.drop_last(), b.drop_last());
        assert(a =~= a.drop_last().push(a.last()));
        assert(b =~= b.drop_last().push(b.last()));
    } else {
        assert(a =~= b);
    }
}

/// Leading zeros add nothing.
pub proof fn lemma_be_value_leading_zeros(zeros: Seq<u8>, s: Seq<u8>)
    requires
        forall|i: int| 0 <= i < zeros.len() ==> zeros[i] == 0,
    ensures
        be_value(zeros + s) == be_value(s),
    decreases zeros.len() + s.len(),
{
    if s.len() > 0 {
        assert((zeros + s).drop_last() =~= zeros + s.drop_last());
        lemma_be_value_leading_zeros(zeros, s.drop_last());
    } else if zeros.len() > 0 {
        assert((zeros + s).drop_last() =~= zeros.drop_last() + s);
        lemma_be_value_leading_zeros(zeros.drop_last(), s);
    }
}

/// Reading the shortest form of a number gives the number back, and the
/// shortest form really has no leading zero.
pub proof fn lemma_be_bytes_value(n: nat)
    ensures
        be_value(be_bytes(n)) == n,
        n > 0 ==> be_bytes(n).len() > 0 && be_bytes(n)[0] != 0,
    decreases n,
{
    if n > 0 {
        lemma_be_bytes_value(n / 256);
        let s = be_bytes(n);
        assert(s.drop_last() =~= be_bytes(n / 256));
        assert(n == (n / 256) * 256 + n % 256) by (nonlinear_arith);
        if n / 256 == 0 {
            assert(s =~= seq![(n % 256) as u8]);
        }
    }
}

/// A byte string without a leading zero is the shortest form of its number.
pub proof fn lemma_be_value_bytes(s: Seq<u8>)
    requires
        s.len() > 0 ==> s[0] != 0,
    ensures
        be_bytes(be_value(s)) == s,
        s.len() > 0 ==> be_value(s) > 0,
    decreases s.len(),
{
    if s.len() > 0 {
        let front = s.drop_last();
        if front.len() > 0 {
            assert(front[0] == s[0]);
        }
        lemma_be_value_bytes(front);
        let n = be_value(s);
        let f = be_value(front);
        let l = s.last() as nat;
        assert(n == f * 256 + l);
        assert(n / 256 == f && n % 256 == l) by (nonlinear_arith)
            requires
                n == f * 256 + l,
                l < 256,
        ;
        assert(s =~= front.push(s.last()));
    }
}

/// A number below `256^len` needs at most `len` bytes.
pub proof fn lemma_be_bytes_len(n: nat, len: nat)
    requires
        n < pow256(len),
    ensures
        be_bytes(n).len() <= len,
    decreases len,
{
    if n > 0 {
        let p = pow256((len - 1) as nat);
        assert(n / 256 < p) by (nonlinear_arith)
            requires
                n < 256 * p,
        ;
        lemma_be_bytes_len(n / 256, (len - 1) as nat);
    }
}

/// A smaller number needs no more bytes.
pub proof fn lemma_be_bytes_len_monotonic(a: nat, b: nat)
    requires
        a <= b,
    ensures
        be_bytes(a).len() <= be_bytes(b).len(),
    decreases b,
{
    if a > 0 {
        lemma_be_bytes_len_monotonic(a / 256, b / 256);
    }
}

/// A number in `width` big-endian bytes, zeros in front.
pub open spec fn be_fixed(n: nat, width: nat) -> Seq<u8> {
    Seq::new((width - be_bytes(n).len()) as nat, |i: int| 0u8) + be_bytes(n)
}

/// A number that fits is what its bytes at that width stand for.
pub proof fn lemma_be_fixed(n: nat, width: nat)
    requires
        n < pow256(width),
    ensures
        be_fixed(n, width).len() == width,
        be_value(be_fixed(n, width)) == n,
{
    lemma_be_bytes_len(n, width);
    lemma_be_bytes_value(n);
    let zeros = Seq::new((width - be_bytes(n).len()) as nat, |i: int| 0u8);
    lemma_be_value_leading_zeros(zeros, be_bytes(n));
}

/// Bytes are what their value is at their own width.
pub proof fn lemma_be_fixed_value(s: Seq<u8>)
    ensures
        be_fixed(be_value(s), s.len()) == s,
{
    lemma_be_value_bound(s);
    lemma_be_fixed(be_value(s), s.len());
    lemma_be_value_injective(be_fixed(be_value(s), s.len()), s);
}

} // verus!
