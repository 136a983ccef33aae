use light_rpc::bridge::{
    confirm_target, decode_transaction, prepare_send, prepare_send_text, BridgeError,
    DEFAULT_SEND_RETRIES,
};
use light_rpc::signature::TxSignature;
use light_rpc::version;
use light_rpc::version::{version_info, NodeVersion, FEATURE_SET_1_14_29};
use light_rpc::{DEFAULT_TX_MAX_RETRIES, DEFAULT_TX_RETRY_BATCH_SIZE};
use solana_sdk::message::VersionedMessage;
use solana_sdk::signature::{Keypair, Signature, Signer};
use solana_sdk::transaction::VersionedTransaction;

fn signed(n: usize) -> VersionedTransaction {
    let mut signatures = Vec::new();
    for i in 0..n {
        signatures.push(Keypair::new().sign_message(&[i as u8]));
    }
    VersionedTransaction { signatures, message: VersionedMessage::default() }
}

#[test]
fn signature_text_round_trips() {
    let s = Keypair::new().sign_message(&[0u8]);
    let bytes: [u8; 64] = s.into();
    let ours = TxSignature { bytes };
    let text = ours.to_text();
    assert_eq!(text, s.to_string());
    let back = TxSignature::parse(&text).unwrap();
    assert!(back.same_as(&ours));
}

#[test]
fn signature_parse_refuses_bad_text() {
    assert!(TxSignature::parse("not base58 0OIl").is_none());
    assert!(TxSignature::parse("abc").is_none());
    let long = "1".repeat(89);
    assert!(TxSignature::parse(&long).is_none());
}

#[test]
fn confirm_target_reads_signature() {
    let s = Signature::new_unique();
    let target = confirm_target(&s.to_string()).unwrap();
    let bytes: [u8; 64] = s.into();
    assert_eq!(target.bytes, bytes);
    assert!(matches!(confirm_target("xyz0"), Err(BridgeError::InvalidSignature)));
}

#[test]
fn decode_transaction_reads_base58() {
    let bytes = vec![0u8, 1, 2, 250];
    let text = solana_sdk::bs58::encode(&bytes).into_string();
    assert_eq!(decode_transaction(&text), Ok(bytes));
    assert_eq!(decode_transaction("0OIl"), Err(BridgeError::Decode));
}

#[test]
fn prepare_send_plans_first_signature() {
    let tx = signed(2);
    let wire = bincode::serialize(&tx).unwrap();
    let plan = prepare_send(wire.clone(), Some(5)).unwrap().unwrap();
    let first: [u8; 64] = tx.signatures[0].into();
    assert_eq!(plan.signature.bytes, first);
    assert_eq!(plan.signature_text, tx.signatures[0].to_string());
    assert_eq!(plan.wire, wire);
    assert_eq!(plan.max_retries, 5);
}

#[test]
fn prepare_send_defaults_to_one_retry() {
    let tx = signed(1);
    let wire = bincode::serialize(&tx).unwrap();
    let plan = prepare_send(wire, None).unwrap().unwrap();
    assert_eq!(plan.max_retries, 1);
    assert_eq!(DEFAULT_SEND_RETRIES, 1);
}

#[test]
fn prepare_send_from_base58_text() {
    let tx = signed(1);
    let text = solana_sdk::bs58::encode(bincode::serialize(&tx).unwrap()).into_string();
    let wire = decode_transaction(&text).unwrap();
    let plan = prepare_send(wire, None).unwrap().unwrap();
    assert_eq!(plan.signature_text, solana_sdk::bs58::encode(tx.signatures[0]).into_string());
}

#[test]
fn prepare_send_refuses_non_transaction() {
    assert!(matches!(prepare_send(vec![5, 1], None), Err(BridgeError::Deserialize)));
}

#[test]
fn prepare_send_unsigned_transaction_has_no_plan() {
    let tx = signed(0);
    let wire = bincode::serialize(&tx).unwrap();
    assert!(matches!(prepare_send(wire, None), Ok(None)));
}

#[test]
fn version_info_writes_dotted_version() {
    let v = NodeVersion { major: 1, minor: 14, patch: 29, commit: None, feature_set: 42 };
    let info = version_info(&v);
    assert_eq!(info.solana_core, "1.14.29");
    assert_eq!(info.feature_set, Some(42));
}

#[test]
fn get_version() {
    let info = version::get_version();
    let version_crate = solana_version::Version::default();
    assert_eq!(info.solana_core, version_crate.to_string());
    assert_eq!(info.feature_set.unwrap(), version_crate.feature_set);
}

#[test]
fn library_defaults() {
    assert_eq!(DEFAULT_TX_MAX_RETRIES, 2);
    assert_eq!(DEFAULT_TX_RETRY_BATCH_SIZE, 20);
    assert_eq!(light_rpc::DEFAULT_RPC_ADDR, "http://127.0.0.1:8899");
    assert_eq!(light_rpc::DEFAULT_WS_ADDR, "ws://127.0.0.1:8900");
}

#[test]
fn version_reports_pinned_release() {
    let info = version::get_version();
    assert_eq!(info.solana_core, "1.14.29");
    assert_eq!(info.feature_set, Some(FEATURE_SET_1_14_29));
    assert_eq!(solana_version::Version::default().feature_set, FEATURE_SET_1_14_29);
}

#[test]
fn send_text_answers_first_signature() {
    let tx = signed(3);
    let wire = bincode::serialize(&tx).unwrap();
    let text = solana_sdk::bs58::encode(&wire).into_string();
    let plan = prepare_send_text(&text, Some(4)).unwrap().unwrap();
    assert_eq!(plan.signature_text, solana_sdk::bs58::encode(tx.signatures[0]).into_string());
    assert_eq!(plan.wire, wire);
    assert_eq!(plan.max_retries, 4);
}

#[test]
fn send_text_errors() {
    assert!(matches!(prepare_send_text("0OIl", None), Err(BridgeError::Decode)));
    let junk = solana_sdk::bs58::encode(vec![5u8, 1]).into_string();
    assert!(matches!(prepare_send_text(&junk, None), Err(BridgeError::Deserialize)));
    let unsigned = solana_sdk::bs58::encode(bincode::serialize(&signed(0)).unwrap()).into_string();
    assert!(matches!(prepare_send_text(&unsigned, None), Ok(None)));
}
