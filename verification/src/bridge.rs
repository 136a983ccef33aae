//! What the relay computes for a `sendTransaction` or `confirmTransaction`
//! request: the transaction's bytes and first signature, and the signature a
//! confirmation is asked for.

use crate::signature::{base58_decoded, parsed_signature, signature_text, TxSignature};
use solana_sdk::bs58;
use solana_sdk::transaction::VersionedTransaction;
use vstd::prelude::*;

verus! {

#[verifier::external_type_specification]
#[verifier::external_body]
pub struct ExBase58DecodeError(bs58::decode::Error);

#[verifier::external_type_specification]
#[verifier::external_body]
pub struct ExBincodeErrorKind(bincode::ErrorKind);

/// The signatures of the transaction that `bincode::deserialize` reads from
/// the bytes as a `VersionedTransaction`, or `None` where it reads none.
pub uninterp spec fn wire_signatures(wire: Seq<u8>) -> Option<Seq<Seq<u8>>>;

/// Calls `bs58::decode(text).into_vec()`. Claimed: the outcome is a function
/// of the text alone (`base58_decoded`).
#[verifier::external_body]
fn base58_bytes(text: &str) -> (res: Result<Vec<u8>, bs58::decode::Error>)
    ensures
        res is Ok <==> base58_decoded(text@) is Some,
        res matches Ok(bytes) ==> bytes@ == base58_decoded(text@).unwrap(),
{
    bs58::decode(text).into_vec()
}

/// Calls `bincode::deserialize::<VersionedTransaction>` and hands out the
/// transaction's signatures, each as its 64 bytes. Claimed: the outcome is a
/// function of the bytes alone (`wire_signatures`).
#[verifier::external_body]
fn signatures_of_wire(wire: &Vec<u8>) -> (res: Result<Vec<TxSignature>, Box<bincode::ErrorKind>>)
    ensures
        res is Ok <==> wire_signatures(wire@) is Some,
        res matches Ok(sigs) ==> sigs@.map_values(|s: TxSignature| s@) == wire_signatures(
            wire@,
        ).unwrap(),
{
    match bincode::deserialize::<VersionedTransaction>(wire) {
        Ok(tx) => Ok(tx.signatures.into_iter().map(|s| TxSignature { bytes: s.into() }).collect()),
        Err(e) => Err(e),
    }
}

/// Why a request could not be served.
#[derive(Debug, Clone, Copy, PartialEq, Eq)]
pub enum BridgeError {
    /// The encoded transaction is not base58.
    Decode,
    /// The bytes are not a transaction.
    Deserialize,
    /// The text is not a signature.
    InvalidSignature,
}

/// What to do with a transaction handed in for sending: send `wire` to the
/// leaders, queue it under `signature` with `max_retries` retries, and answer
/// with `signature_text`.
pub struct SendPlan {
    pub signature: TxSignature,
    pub signature_text: String,
    pub wire: Vec<u8>,
    pub max_retries: u16,
}

impl SendPlan {
    /// This is the plan for the transaction `wire` whose first signature is
    /// `sig`, with the retries asked for.
    pub open spec fn plans(&self, sig: Seq<u8>, wire: Seq<u8>, max_retries: Option<u16>) -> bool {
        &&& self.signature@ == sig
        &&& self.signature_text@ == signature_text(sig)
        &&& parsed_signature(self.signature_text@) == Some(sig)
        &&& self.wire@ == wire
        &&& self.max_retries == retries_or_default(max_retries)
    }
}

/// The retries a transaction gets where the request names none.
pub const DEFAULT_SEND_RETRIES: u16 = 1;

/// The retries asked for, or `DEFAULT_SEND_RETRIES`.
pub open spec fn retries_or_default(max_retries: Option<u16>) -> u16 {
    match max_retries {
        Some(r) => r,
        None => DEFAULT_SEND_RETRIES,
    }
}

/// A request that names its retries gets exactly those; one that names none
/// gets one.
pub proof fn lemma_retries_as_asked(r: u16)
    ensures
        retries_or_default(Some(r)) == r,
        retries_or_default(None) == 1,
{
}

/// A plan for a transaction carries the whole transaction as given, whatever
/// its length, under the signature given, with the retries asked for (one
/// where none are named), and answers with a text that reads back to that
/// signature.
pub proof fn lemma_plan_carries_request(
    p: SendPlan,
    sig: Seq<u8>,
    wire: Seq<u8>,
    max_retries: Option<u16>,
)
    requires
        p.plans(sig, wire, max_retries),
    ensures
        p.wire@ == wire,
        p.wire@.len() == wire.len(),
        p.signature@ == sig,
        parsed_signature(p.signature_text@) == Some(sig),
        max_retries matches Some(r) ==> p.max_retries == r,
        max_retries is None ==> p.max_retries == 1,
{
}

/// The bytes of a base58-encoded transaction.
pub fn decode_transaction(text: &str) -> (res: Result<Vec<u8>, BridgeError>)
    ensures
        base58_decoded(text@) is None ==> res == Err::<Vec<u8>, BridgeError>(BridgeError::Decode),
        base58_decoded(text@) matches Some(bytes) ==> (res matches Ok(b) && b@ == bytes),
{
    match base58_bytes(text) {
        Ok(bytes) => Ok(bytes),
        Err(_) => Err(BridgeError::Decode),
    }
}

/// The plan for a transaction whose signatures are given: it goes under its
/// first signature.
pub fn plan_send(signatures: &Vec<TxSignature>, wire: Vec<u8>, max_retries: Option<u16>) -> (plan:
    SendPlan)
    requires
        signatures.len() > 0,
    ensures
        plan.plans(signatures[0]@, wire@, max_retries),
        plan.signature@ == signatures[0]@,
        plan.wire@ == wire@,
        max_retries matches Some(r) ==> plan.max_retries == r,
        max_retries is None ==> plan.max_retries == 1,
{
    let signature = signatures[0];
    let signature_text = signature.to_text();
    let max_retries = match max_retries {
        Some(r) => r,
        None => DEFAULT_SEND_RETRIES,
    };
    SendPlan { signature, signature_text, wire, max_retries }
}

/// Reads the transaction in `wire` and plans its sending: `Err(Deserialize)`
/// where the bytes are not a transaction, `Ok(None)` where the transaction has
/// no signature, and otherwise the plan for its first signature.
pub fn prepare_send(wire: Vec<u8>, max_retries: Option<u16>) -> (res: Result<
    Option<SendPlan>,
    BridgeError,
>)
    ensures
        wire_signatures(wire@) is None ==> (res matches Err(e) && e == BridgeError::Deserialize),
        wire_signatures(wire@) is Some && wire_signatures(wire@).unwrap().len() == 0 ==> (res matches Ok(plan)
            && plan is None),
        wire_signatures(wire@) is Some && wire_signatures(wire@).unwrap().len() > 0 ==> (res matches Ok(Some(p))
            && p.plans(wire_signatures(wire@).unwrap()[0], wire@, max_retries)),
{
    match signatures_of_wire(&wire) {
        Err(_) => Err(BridgeError::Deserialize),
        Ok(signatures) => {
            if signatures.len() == 0 {
                Ok(None)
            } else {
                proof {
                    assert(signatures@.map_values(|s: TxSignature| s@)[0] == signatures[0]@);
                }
                Ok(Some(plan_send(&signatures, wire, max_retries)))
            }
        },
    }
}

/// What a `sendTransaction` request with a base58-encoded transaction comes
/// to: `Err(Decode)` where the text is not base58, `Err(Deserialize)` where
/// its bytes are not a transaction, `Ok(None)` where the transaction has no
/// signature, and otherwise the plan for its first signature, whose text is
/// the answer.
pub fn prepare_send_text(text: &str, max_retries: Option<u16>) -> (res: Result<
    Option<SendPlan>,
    BridgeError,
>)
    ensures
        base58_decoded(text@) is None ==> (res matches Err(e) && e == BridgeError::Decode),
        base58_decoded(text@) is Some && wire_signatures(base58_decoded(text@).unwrap()) is None
            ==> (res matches Err(e) && e == BridgeError::Deserialize),
        base58_decoded(text@) is Some && wire_signatures(base58_decoded(text@).unwrap()) is Some
            && wire_signatures(base58_decoded(text@).unwrap()).unwrap().len() == 0 ==> (res matches Ok(
            plan,
        ) && plan is None),
        base58_decoded(text@) is Some && wire_signatures(base58_decoded(text@).unwrap()) is Some
            && wire_signatures(base58_decoded(text@).unwrap()).unwrap().len() > 0 ==> (res matches Ok(
            Some(p),
        ) && p.plans(
            wire_signatures(base58_decoded(text@).unwrap()).unwrap()[0],
            base58_decoded(text@).unwrap(),
            max_retries,
        )),
{
    match decode_transaction(text) {
        Ok(wire) => prepare_send(wire, max_retries),
        Err(e) => Err(e),
    }
}

/// The signature a `confirmTransaction` request asks about.
pub fn confirm_target(text: &str) -> (res: Result<TxSignature, BridgeError>)
    ensures
        parsed_signature(text@) is None ==> res == Err::<TxSignature, BridgeError>(
            BridgeError::InvalidSignature,
        ),
        parsed_signature(text@) matches Some(bytes) ==> (res matches Ok(sig) && sig@ == bytes),
{
    match TxSignature::parse(text) {
        Some(sig) => Ok(sig),
        None => Err(BridgeError::InvalidSignature),
    }
}

} // verus!
