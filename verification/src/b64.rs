//! Standard base64, in which the relay carries payloads.

use base64::Engine;
use vstd::prelude::*;

verus! {

/// The character that stands for six bits.
pub open spec fn sextet_char(bits: nat) -> char {
    if bits < 26 {
        ('A' as u32 + bits) as char
    } else if bits < 52 {
        ('a' as u32 + bits - 26) as char
    } else if bits < 62 {
        ('0' as u32 + bits - 52) as char
    } else if bits == 62 {
        '+'
    } else {
        '/'
    }
}

/// The four characters of three bytes.
pub open spec fn group_text(a: u8, b: u8, c: u8) -> Seq<char> {
    seq![
        sextet_char(a as nat / 4),
        sextet_char(a as nat % 4 * 16 + b as nat / 16),
        sextet_char(b as nat % 16 * 4 + c as nat / 64),
        sextet_char(c as nat % 64),
    ]
}

/// The text of some bytes: four characters for every three of them, and equals
/// signs to fill the last four up.
pub open spec fn base64_text(data: Seq<u8>) -> Seq<char>
    decreases data.len(),
{
    if data.len() == 0 {
        Seq::empty()
    } else if data.len() == 1 {
        group_text(data[0], 0, 0).take(2) + seq!['=', '=']
    } else if data.len() == 2 {
        group_text(data[0], data[1], 0).take(3) + seq!['=']
    } else {
        group_text(data[0], data[1], data[2]) + base64_text(data.skip(3))
    }
}

/// The bytes that a text stands for, if it is the text of any.
pub open spec fn base64_bytes(text: Seq<char>) -> Option<Seq<u8>> {
    if exists|data: Seq<u8>| base64_text(data) == text {
        Some(choose|data: Seq<u8>| base64_text(data) == text)
    } else {
        None
    }
}

/// `base64::engine::general_purpose::STANDARD.decode`: the bytes whose text
/// this is. Only the one text that those bytes encode to is accepted: the
/// padding has to be there, bits that no byte uses have to be zero, and no
/// other character may occur.
#[verifier::external_body]
fn decode_standard(text: &str) -> (out: Option<Vec<u8>>)
    ensures
        match out {
            Some(data) => base64_text(data@) == text@,
            None => forall|data: Seq<u8>| #[trigger] base64_text(data) != text@,
        },
{
    base64::engine::general_purpose::STANDARD.decode(text).ok()
}

proof fn lemma_sextet_injective(a: nat, b: nat)
    requires
        a < 64,
        b < 64,
        sextet_char(a) == sextet_char(b),
    ensures
        a == b,
{
}

proof fn lemma_sextet_not_padding(a: nat)
    requires
        a < 64,
    ensures
        sextet_char(a) != '=',
{
}

proof fn lemma_group_injective(a: Seq<u8>, b: Seq<u8>)
    requires
        a.len() == 3,
        b.len() == 3,
        group_text(a[0], a[1], a[2]) == group_text(b[0], b[1], b[2]),
    ensures
        a == b,
{
    let ta = group_text(a[0], a[1], a[2]);
    let tb = group_text(b[0], b[1], b[2]);
    assert(ta[0] == tb[0] && ta[1] == tb[1] && ta[2] == tb[2] && ta[3] == tb[3]);
    lemma_sextet_injective(a[0] as nat / 4, b[0] as nat / 4);
    lemma_sextet_injective(
        a[0] as nat % 4 * 16 + a[1] as nat / 16,
        b[0] as nat % 4 * 16 + b[1] as nat / 16,
    );
    lemma_sextet_injective(
        a[1] as nat % 16 * 4 + a[2] as nat / 64,
        b[1] as nat % 16 * 4 + b[2] as nat / 64,
    );
    lemma_sextet_injective(a[2] as nat % 64, b[2] as nat % 64);
    assert(a =~= b);
}

/// How much text there is, and where the padding starts.
proof fn lemma_text_shape(data: Seq<u8>)
    ensures
        base64_text(data).len() == (data.len() + 2) / 3 * 4,
        forall|i: int|
            0 <= i < base64_text(data).len() ==> (#[trigger] base64_text(data)[i] == '=' <==> i * 3
                >= data.len() * 4),
    decreases data.len(),
{
    let text = base64_text(data);
    if data.len() >= 3 {
        let rest = data.skip(3);
        lemma_text_shape(rest);
        assert forall|i: int| 0 <= i < text.len() implies (#[trigger] text[i] == '=' <==> i * 3
            >= data.len() * 4) by {
            if i < 4 {
                lemma_group_not_padding(data[0], data[1], data[2], i);
            } else {
                assert(text[i] == base64_text(rest)[i - 4]);
            }
        }
    } else if data.len() == 2 {
        lemma_group_not_padding(data[0], data[1], 0, 0);
        lemma_group_not_padding(data[0], data[1], 0, 1);
        lemma_group_not_padding(data[0], data[1], 0, 2);
    } else if data.len() == 1 {
        lemma_group_not_padding(data[0], 0, 0, 0);
        lemma_group_not_padding(data[0], 0, 0, 1);
    }
}

proof fn lemma_group_not_padding(a: u8, b: u8, c: u8, i: int)
    requires
        0 <= i < 4,
    ensures
        group_text(a, b, c)[i] != '=',
{
    lemma_sextet_not_padding(a as nat / 4);
    lemma_sextet_not_padding(a as nat % 4 * 16 + b as nat / 16);
    lemma_sextet_not_padding(b as nat % 16 * 4 + c as nat / 64);
    lemma_sextet_not_padding(c as nat % 64);
}

/// No two byte strings have the same text.
pub proof fn base64_is_injective(a: Seq<u8>, b: Seq<u8>)
    requires
        base64_text(a) == base64_text(b),
    ensures
        a == b,
    decreases a.len(),
{
    lemma_same_len(a, b);
    let ta = base64_text(a);
    let tb = base64_text(b);
    if a.len() >= 3 {
        let ga = group_text(a[0], a[1], a[2]);
        let gb = group_text(b[0], b[1], b[2]);
        assert(ga =~= ta.take(4));
        assert(gb =~= tb.take(4));
        lemma_group_injective(a.take(3), b.take(3));
        assert(base64_text(a.skip(3)) =~= ta.skip(4));
        assert(base64_text(b.skip(3)) =~= tb.skip(4));
        base64_is_injective(a.skip(3), b.skip(3));
        assert(a =~= a.take(3) + a.skip(3));
        assert(b =~= b.take(3) + b.skip(3));
    } else if a.len() > 0 {
        let pa = if a.len() == 1 {
            seq![a[0], 0u8, 0u8]
        } else {
            seq![a[0], a[1], 0u8]
        };
        let pb = if a.len() == 1 {
            seq![b[0], 0u8, 0u8]
        } else {
            seq![b[0], b[1], 0u8]
        };
        let ga = group_text(pa[0], pa[1], pa[2]);
        let gb = group_text(pb[0], pb[1], pb[2]);
        assert(ga[0] == ta[0] && ga[1] == ta[1] && gb[0] == tb[0] && gb[1] == tb[1]);
        if a.len() == 2 {
            assert(ga[2] == ta[2] && gb[2] == tb[2]);
        }
        assert(ga =~= gb);
        lemma_group_injective(pa, pb);
        assert(a =~= pa.take(a.len() as int));
        assert(b =~= pb.take(b.len() as int));
    } else {
        assert(a =~= b);
    }
}

proof fn lemma_same_len(a: Seq<u8>, b: Seq<u8>)
    requires
        base64_text(a) == base64_text(b),
    ensures
        a.len() == b.len(),
{
    lemma_text_shape(a);
    lemma_text_shape(b);
    let text = base64_text(a);
    let n = text.len();
    if n > 0 {
        assert((text[n - 1] == '=') <==> (n - 1) * 3 >= a.len() * 4);
        assert((text[n - 1] == '=') <==> (n - 1) * 3 >= b.len() * 4);
        assert((text[n - 2] == '=') <==> (n - 2) * 3 >= a.len() * 4);
        assert((text[n - 2] == '=') <==> (n - 2) * 3 >= b.len() * 4);
    }
}

/// Decode standard base64.
pub fn decode(text: &str) -> (out: Option<Vec<u8>>)
    ensures
        match out {
            Some(data) => base64_bytes(text@) == Some(data@),
            None => base64_bytes(text@) is None,
        },
{
    let out = decode_standard(text);
    proof {
        if out is Some {
            let chosen = choose|data: Seq<u8>| base64_text(data) == text@;
            base64_is_injective(out->Some_0@, chosen);
        }
    }
    out
}

/// What was encoded decodes to what it was.
pub proof fn base64_reads_back(data: Seq<u8>)
    ensures
        base64_bytes(base64_text(data)) == Some(data),
{
    let chosen = choose|other: Seq<u8>| base64_text(other) == base64_text(data);
    base64_is_injective(data, chosen);
}

/// Decoding undoes encoding, and accepts nothing that no bytes encode to.
pub proof fn decoding_undoes_encoding(text: &str, out: Option<Vec<u8>>, data: Seq<u8>)
    requires
        call_ensures(decode, (text,), out),
    ensures
        out matches Some(decoded) ==> base64_text(decoded@) == text@,
        base64_text(data) == text@ ==> (out matches Some(decoded) && decoded@ == data),
{
    if base64_text(data) == text@ {
        base64_reads_back(data);
    }
}

} // verus!
