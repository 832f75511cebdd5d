//! Sender recovery.

use vstd::prelude::*;
use vstd::slice::slice_subrange;

use crate::keccak;
use crate::keccak::keccak;
use crate::num;
use crate::tx::{SignatureView, Transaction};
use crate::types::{array_of, Address};

verus! {

/// The uncompressed public key, if there is one, that a compact secp256k1
/// signature recovers to over a digest. `odd` is the recovery id.
pub uninterp spec fn recovered_key(compact: Seq<u8>, odd: bool, digest: Seq<u8>) -> Option<
    Seq<u8>,
>;

/// `secp256k1::Secp256k1::recover_ecdsa` over the signature that
/// `RecoverableSignature::from_compact` reads, giving the key as
/// `PublicKey::serialize_uncompressed` writes it. The result is named
/// [`recovered_key`] and depends on the signature, the recovery id and the
/// digest alone. `None` stands for a signature that either of them refuses,
/// which is always the case where one of its two numbers is zero.
#[verifier::external_body]
fn recover_key(compact: &[u8; 64], odd: bool, digest: &[u8; 32]) -> (out: Option<[u8; 65]>)
    ensures
        match out {
            Some(key) => recovered_key(compact@, odd, digest@) == Some(key@),
            None => recovered_key(compact@, odd, digest@) is None,
        },
        num::be_value(compact@.take(32)) == 0 || num::be_value(compact@.skip(32)) == 0
            ==> out is None,
{
    let id = secp256k1::ecdsa::RecoveryId::try_from(i32::from(odd)).ok()?;
    let signature = secp256k1::ecdsa::RecoverableSignature::from_compact(compact, id).ok()?;
    let message = secp256k1::Message::from_digest(*digest);
    let key = secp256k1::SECP256K1.recover_ecdsa(message, &signature).ok()?;
    Some(key.serialize_uncompressed())
}

/// The address of a public key: the last 20 bytes of the hash over the key,
/// without the tag it starts with.
pub open spec fn key_address(key: Seq<u8>) -> Seq<u8> {
    keccak::keccak256(key.skip(1)).skip(12)
}

/// A signature in compact form: both numbers at full width.
pub open spec fn compact_signature(signature: SignatureView) -> Seq<u8> {
    num::be_fixed(signature.r, 32) + num::be_fixed(signature.s, 32)
}

/// The address of an uncompressed public key.
pub fn address_of_key(key: &[u8; 65]) -> (out: Address)
    ensures
        out@ == key_address(key@),
{
    let body = slice_subrange(key, 1, 65);
    assert(body@ =~= key@.skip(1));
    let digest = keccak(body);
    let tail = slice_subrange(&digest.0, 12, 32);
    assert(tail@ =~= keccak::keccak256(key@.skip(1)).skip(12));
    Address(array_of::<20>(tail))
}

impl Transaction {
    /// Recover the address that signed this transaction.
    ///
    /// This is a method and not a field because it is not free: one secp256k1
    /// recovery, tens of microseconds, on every transaction the sequencer
    /// orders. A feed consumer normally narrows on the recipient or the
    /// selector first and only needs the sender for the few that survive.
    ///
    /// Returns `None` if the signature does not recover, which means the
    /// transaction could never have been included.
    #[must_use]
    pub fn recover_sender(&self) -> (out: Option<Address>)
        ensures
            match recovered_key(
                compact_signature(self@.signature),
                self@.signature.y_parity,
                self@.signing_hash,
            ) {
                Some(key) => out matches Some(address) && address@ == key_address(key),
                None => out is None,
            },
            self@.signature.r == 0 || self@.signature.s == 0 ==> out is None,
    {
        let r = self.signature.r.to_be_bytes();
        let s = self.signature.s.to_be_bytes();
        let mut compact: Vec<u8> = Vec::with_capacity(64);
        compact.extend_from_slice(&r);
        compact.extend_from_slice(&s);
        assert(compact@ =~= compact_signature(self@.signature));
        let compact = array_of::<64>(compact.as_slice());
        assert(compact@.take(32) =~= r@);
        assert(compact@.skip(32) =~= s@);
        match recover_key(&compact, self.signature.y_parity, &self.signing_hash.0) {
            Some(key) => Some(address_of_key(&key)),
            None => None,
        }
    }
}

/// The sender depends on what was signed and on the signature alone.
pub proof fn same_signature_same_sender(
    a: &Transaction,
    b: &Transaction,
    sender: Option<Address>,
    other: Option<Address>,
)
    requires
        call_ensures(Transaction::recover_sender, (a,), sender),
        call_ensures(Transaction::recover_sender, (b,), other),
        a@.signature == b@.signature,
        a@.signing_hash == b@.signing_hash,
    ensures
        sender is Some <==> other is Some,
        sender matches Some(x) ==> (other matches Some(y) && x@ == y@),
        a@.signature.r == 0 || a@.signature.s == 0 ==> sender is None,
{
}

/// A sender is the address of the key that the signature recovers to, over what
/// was signed: the last 20 bytes of the hash of its two coordinates.
pub proof fn sender_is_the_address_of_the_key(
    tx: &Transaction,
    sender: Option<Address>,
    key: &[u8; 65],
    address: Address,
)
    requires
        call_ensures(Transaction::recover_sender, (tx,), sender),
        call_ensures(address_of_key, (key,), address),
    ensures
        ({
            let compact = num::be_fixed(tx@.signature.r, 32) + num::be_fixed(tx@.signature.s, 32);
            let recovered = recovered_key(compact, tx.signature.y_parity, tx.signing_hash@);
            &&& sender is Some <==> recovered is Some
            &&& recovered == Some(key@) ==> (sender matches Some(found) && found@ == address@)
        }),
        keccak::keccak256(key@.subrange(1, 65)).len() == 32 ==> forall|i: int|
            0 <= i < 20 ==> #[trigger] address@[i] == keccak::keccak256(key@.subrange(1, 65))[12
                + i],
{
    assert(key@.skip(1) =~= key@.subrange(1, 65));
}

} // verus!
