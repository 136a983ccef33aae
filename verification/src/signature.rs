//! Transaction signatures: 64 bytes, written as base58 text.

use solana_sdk::signature::{ParseSignatureError, Signature};
use vstd::prelude::*;
use vstd::utf8::encode_utf8;

verus! {

#[verifier::external_type_specification]
#[verifier::external_body]
pub struct ExParseSignatureError(ParseSignatureError);

/// What `bs58::decode(..).into_vec()` makes of a text: its bytes, or `None`
/// where the text is not base58.
pub uninterp spec fn base58_decoded(text: Seq<char>) -> Option<Seq<u8>>;

/// The longest text `Signature::from_str` looks at, in bytes.
pub const MAX_BASE58_SIGNATURE_LEN: usize = 88;

/// What `Signature::from_str` makes of a text: a text of at most 88 bytes
/// whose base58 decoding is 64 bytes long gives those bytes; any other text
/// is refused.
pub open spec fn parsed_signature(text: Seq<char>) -> Option<Seq<u8>> {
    if encode_utf8(text).len() > MAX_BASE58_SIGNATURE_LEN {
        None
    } else {
        match base58_decoded(text) {
            Some(bytes) => if bytes.len() == 64 {
                Some(bytes)
            } else {
                None
            },
            None => None,
        }
    }
}

/// The base58 text that `Signature`'s `Display` writes for the given bytes.
pub uninterp spec fn signature_text(bytes: Seq<u8>) -> Seq<char>;

/// A transaction signature, held as its 64 bytes.
#[derive(Clone, Copy)]
pub struct TxSignature {
    pub bytes: [u8; 64],
}

impl View for TxSignature {
    type V = Seq<u8>;

    open spec fn view(&self) -> Seq<u8> {
        self.bytes@
    }
}

/// Calls `Signature::from_str`. Claimed: it succeeds exactly as
/// `parsed_signature` says, with those bytes, as its source checks the byte
/// length against 88, decodes with `bs58`, and checks for 64 bytes.
#[verifier::external_body]
fn signature_from_text(text: &str) -> (res: Result<TxSignature, ParseSignatureError>)
    ensures
        res is Ok <==> parsed_signature(text@) is Some,
        res matches Ok(sig) ==> sig@ == parsed_signature(text@).unwrap(),
{
    match text.parse::<Signature>() {
        Ok(sig) => Ok(TxSignature { bytes: sig.into() }),
        Err(e) => Err(e),
    }
}

/// Calls `Signature`'s `Display` (through `to_string`) on the signature made
/// from the given bytes. Claimed: the text is a function of the bytes
/// (`signature_text`), and `Signature::from_str` reads it back to the same
/// bytes: 64 bytes encode to at most 88 base58 characters, all ASCII, and
/// `bs58` decoding inverts its encoding.
#[verifier::external_body]
fn text_of_signature(sig: &TxSignature) -> (res: String)
    ensures
        res@ == signature_text(sig@),
        parsed_signature(res@) == Some(sig@),
{
    Signature::new(&sig.bytes).to_string()
}

impl TxSignature {
    /// Reads a signature from its base58 text; `None` where the text is not one.
    pub fn parse(text: &str) -> (res: Option<TxSignature>)
        ensures
            res is Some <==> parsed_signature(text@) is Some,
            res matches Some(sig) ==> sig@ == parsed_signature(text@).unwrap(),
    {
        match signature_from_text(text) {
            Ok(sig) => Some(sig),
            Err(_) => None,
        }
    }

    /// The signature's base58 text.
    pub fn to_text(&self) -> (res: String)
        ensures
            res@ == signature_text(self@),
            parsed_signature(res@) == Some(self@),
    {
        text_of_signature(self)
    }

    /// Whether two signatures hold the same bytes.
    pub fn same_as(&self, other: &TxSignature) -> (res: bool)
        ensures
            res <==> self@ == other@,
    {
        let mut i: usize = 0;
        while i < 64
            invariant
                0 <= i <= 64,
                self@.len() == 64,
                other@.len() == 64,
                forall|j: int| 0 <= j < i ==> self@[j] == other@[j],
            decreases 64 - i,
        {
            if self.bytes[i] != other.bytes[i] {
                return false;
            }
            i = i + 1;
        }
        assert(self@ =~= other@);
        true
    }
}

} // verus!
