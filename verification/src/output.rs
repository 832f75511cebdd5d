//! Writing text to where `{:?}` asks for it.

use vstd::prelude::*;
use vstd::slice::slice_subrange;

use crate::hex;

verus! {

/// `std::fmt::Formatter`: what a value writes its text to.
#[verifier::external_type_specification]
#[verifier::external_body]
pub struct ExFormatter<'a>(std::fmt::Formatter<'a>);

/// `std::fmt::Error`: the text could not be written.
#[verifier::external_type_specification]
#[verifier::external_body]
pub struct ExFmtError(std::fmt::Error);

/// The text that was written to a formatter so far. The buffer underneath may
/// lay it out further, as `{:#?}` does with indentation.
pub uninterp spec fn written(f: std::fmt::Formatter<'_>) -> Seq<char>;

/// `std::fmt::Formatter::write_str`: only succeeds if all of the text was
/// written, behind what was before. Whether it does is up to the buffer
/// underneath, and of one that refuses nothing is said.
#[verifier::external_body]
pub(crate) fn write_text(f: &mut std::fmt::Formatter<'_>, text: &str) -> (out: Result<
    (),
    std::fmt::Error,
>)
    ensures
        out is Ok ==> written(*final(f)) == written(*old(f)) + text@,
{
    f.write_str(text)
}

/// How many bytes are turned into digits at a time.
const CHUNK: usize = 1024;

/// Write bytes in hexadecimal, with `0x` in front.
pub(crate) fn write_hex(f: &mut std::fmt::Formatter<'_>, bytes: &[u8]) -> (out: Result<
    (),
    std::fmt::Error,
>)
    ensures
        out is Ok ==> written(*final(f)) == written(*old(f)) + ("0x"@ + hex::hex_text(bytes@)),
{
    if let Err(e) = write_text(f, "0x") {
        return Err(e);
    }
    let ghost start = written(*old(f)) + "0x"@;
    let mut at: usize = 0;
    assert(written(*f) =~= start + hex::hex_text(bytes@.take(0)));
    while at < bytes.len()
        invariant
            at <= bytes@.len(),
            written(*f) == start + hex::hex_text(bytes@.take(at as int)),
        decreases bytes@.len() - at,
    {
        let end = if bytes.len() - at > CHUNK {
            at + CHUNK
        } else {
            bytes.len()
        };
        let chunk = slice_subrange(bytes, at, end);
        if let Err(e) = write_text(f, hex::encode(chunk).as_str()) {
            return Err(e);
        }
        proof {
            hex::hex_text_joins(bytes@.take(at as int), chunk@);
            assert(bytes@.take(at as int) + chunk@ =~= bytes@.take(end as int));
            assert(written(*f) =~= start + hex::hex_text(bytes@.take(end as int)));
        }
        at = end;
    }
    assert(bytes@.take(at as int) =~= bytes@);
    assert(written(*f) =~= written(*old(f)) + ("0x"@ + hex::hex_text(bytes@)));
    Ok(())
}

} // verus!
