use asym_sign::error::{classify_response, engine_error, OpError};
use asym_sign::key_store::{KeyInfoStore, KeyTriple};
use asym_sign::provider::{signature_buffer, truncate_signature, verify_outcome, Phase, Provider};

const MBED: u8 = 1;

fn store_with(entries: &[(&str, &str, u32)]) -> KeyInfoStore {
    let mut store = KeyInfoStore::new();
    for (app, key, id) in entries {
        store.insert(KeyTriple::new(app.to_string(), MBED, key.to_string()), *id);
    }
    store
}

/// Runs a request up to its engine call and returns its index and key id.
fn run_to_engine(p: &mut Provider, app: &str, key: &str) -> (usize, u32) {
    let r = p.begin();
    assert_eq!(p.resolve(r, app.to_string(), key.to_string()), Ok(()));
    assert!(p.try_acquire_slot(r));
    assert!(p.try_lock(r));
    let id = p.execute(r);
    (r, id)
}

#[test]
fn store_resolves_known_reference() {
    let store = store_with(&[("alice", "k1", 42), ("bob", "k1", 7)]);
    let alice = KeyTriple::new("alice".to_string(), MBED, "k1".to_string());
    let bob = KeyTriple::new("bob".to_string(), MBED, "k1".to_string());
    assert_eq!(store.get_key_id(&alice), Ok(42));
    assert_eq!(store.get_key_id(&bob), Ok(7));
}

#[test]
fn store_unknown_reference_is_key_does_not_exist() {
    let store = store_with(&[("alice", "k1", 42)]);
    let other_provider = KeyTriple::new("alice".to_string(), 2, "k1".to_string());
    let other_name = KeyTriple::new("alice".to_string(), MBED, "k2".to_string());
    let other_tenant = KeyTriple::new("carol".to_string(), MBED, "k1".to_string());
    assert_eq!(store.get_key_id(&other_provider), Err(OpError::KeyDoesNotExist));
    assert_eq!(store.get_key_id(&other_name), Err(OpError::KeyDoesNotExist));
    assert_eq!(store.get_key_id(&other_tenant), Err(OpError::KeyDoesNotExist));
    assert_eq!(KeyInfoStore::new().get_key_id(&other_name), Err(OpError::KeyDoesNotExist));
}

#[test]
fn store_insert_replaces_earlier_identifier() {
    let mut store = store_with(&[("alice", "k1", 42)]);
    store.insert(KeyTriple::new("alice".to_string(), MBED, "k1".to_string()), 43);
    let alice = KeyTriple::new("alice".to_string(), MBED, "k1".to_string());
    assert_eq!(store.get_key_id(&alice), Ok(43));
}

#[test]
fn same_key_compares_all_three_parts() {
    let a = KeyTriple::new("alice".to_string(), MBED, "k1".to_string());
    assert!(a.same_key(&KeyTriple::new("alice".to_string(), MBED, "k1".to_string())));
    assert!(!a.same_key(&KeyTriple::new("alice".to_string(), 2, "k1".to_string())));
    assert!(!a.same_key(&KeyTriple::new("alic".to_string(), MBED, "k1".to_string())));
}

#[test]
fn sign_and_verify_alice_key() {
    let mut p = Provider::new(store_with(&[("alice", "k1", 42)]), MBED, 4);
    let (r, id) = run_to_engine(&mut p, "alice", "k1");
    assert_eq!(id, 42);
    assert_eq!(p.phase(r), Phase::Executing(42));
    let mut buffer = signature_buffer(64);
    assert_eq!(buffer.len(), 64);
    assert!(buffer.iter().all(|b| *b == 0));
    for (i, b) in buffer.iter_mut().enumerate() {
        *b = i as u8 + 1;
    }
    let signature = p.finish_sign(r, buffer.clone(), Ok(64)).unwrap();
    assert_eq!(signature.len(), 64);
    assert_eq!(signature, buffer);
    assert_eq!(p.phase(r), Phase::Succeeded);
    assert_eq!(p.slots_in_use(), 0);

    let (r, id) = run_to_engine(&mut p, "alice", "k1");
    assert_eq!(id, 42);
    assert_eq!(p.finish_verify(r, Ok(())), Ok(()));

    let (r, _) = run_to_engine(&mut p, "alice", "k1");
    assert_eq!(p.finish_verify(r, Err(-149)), Err(OpError::SignatureInvalid));
    assert_eq!(p.phase(r), Phase::Failed);
    assert_eq!(p.slots_in_use(), 0);
}

#[test]
fn unknown_reference_never_reaches_engine() {
    let mut p = Provider::new(store_with(&[("alice", "k1", 42)]), MBED, 1);
    let r = p.begin();
    assert_eq!(p.resolve(r, "bob".to_string(), "k1".to_string()), Err(OpError::KeyDoesNotExist));
    assert_eq!(p.phase(r), Phase::Failed);
    assert_eq!(p.slots_in_use(), 0);
    // The slot and lock are still free for others.
    let (_, id) = run_to_engine(&mut p, "alice", "k1");
    assert_eq!(id, 42);
}

#[test]
fn capacity_one_serializes_two_keys() {
    let mut p = Provider::new(store_with(&[("alice", "k1", 1), ("alice", "k2", 2)]), MBED, 1);
    let a = p.begin();
    let b = p.begin();
    assert_ne!(a, b);
    assert_eq!(p.resolve(a, "alice".to_string(), "k1".to_string()), Ok(()));
    assert_eq!(p.resolve(b, "alice".to_string(), "k2".to_string()), Ok(()));
    assert!(p.try_acquire_slot(a));
    assert!(!p.try_acquire_slot(b));
    assert_eq!(p.phase(b), Phase::Resolved(2));
    assert!(p.try_lock(a));
    assert_eq!(p.execute(a), 1);
    assert_eq!(p.slots_in_use(), 1);
    assert_eq!(p.finish_sign(a, vec![9, 9], Ok(2)), Ok(vec![9, 9]));
    assert!(p.try_acquire_slot(b));
    assert!(p.try_lock(b));
    assert_eq!(p.execute(b), 2);
    assert_eq!(p.finish_verify(b, Ok(())), Ok(()));
}

#[test]
fn lock_excludes_second_admitted_request() {
    let mut p = Provider::new(store_with(&[("alice", "k1", 1), ("bob", "k2", 2)]), MBED, 2);
    let a = p.begin();
    let b = p.begin();
    assert_eq!(p.resolve(a, "alice".to_string(), "k1".to_string()), Ok(()));
    assert_eq!(p.resolve(b, "bob".to_string(), "k2".to_string()), Ok(()));
    assert!(p.try_acquire_slot(a));
    assert!(p.try_acquire_slot(b));
    assert_eq!(p.slots_in_use(), 2);
    assert!(p.try_lock(a));
    assert!(!p.try_lock(b));
    assert_eq!(p.phase(b), Phase::Admitted(2));
    p.execute(a);
    assert_eq!(p.finish_verify(a, Err(-147)), Err(OpError::EngineFailure(1147)));
    assert!(p.try_lock(b));
    assert_eq!(p.phase(b), Phase::Locked(2));
}

#[test]
fn admission_never_exceeds_capacity() {
    let mut p = Provider::new(store_with(&[("alice", "k1", 5)]), MBED, 2);
    let mut admitted = 0;
    let mut rs = Vec::new();
    for _ in 0..5 {
        let r = p.begin();
        assert_eq!(p.resolve(r, "alice".to_string(), "k1".to_string()), Ok(()));
        if p.try_acquire_slot(r) {
            admitted += 1;
        }
        rs.push(r);
        assert!(p.slots_in_use() <= 2);
    }
    assert_eq!(admitted, 2);
    assert_eq!(p.slots_in_use(), 2);
}

#[test]
fn zero_capacity_admits_nothing() {
    let mut p = Provider::new(store_with(&[("alice", "k1", 5)]), MBED, 0);
    let r = p.begin();
    assert_eq!(p.resolve(r, "alice".to_string(), "k1".to_string()), Ok(()));
    assert!(!p.try_acquire_slot(r));
    assert_eq!(p.slots_in_use(), 0);
}

#[test]
fn begin_reuses_ended_request() {
    let mut p = Provider::new(store_with(&[("alice", "k1", 5)]), MBED, 1);
    let (r, _) = run_to_engine(&mut p, "alice", "k1");
    let other = p.begin();
    assert_ne!(other, r);
    p.finish_verify(r, Ok(())).unwrap();
    assert_eq!(p.begin(), r);
    assert_eq!(p.phase(r), Phase::Idle);
}

#[test]
fn verify_is_repeatable() {
    let mut p = Provider::new(store_with(&[("alice", "k1", 42)]), MBED, 1);
    let sig_outcomes = [Ok(()), Err(-149), Err(-147)];
    for outcome in sig_outcomes {
        let (r1, id1) = run_to_engine(&mut p, "alice", "k1");
        let first = p.finish_verify(r1, outcome);
        let (r2, id2) = run_to_engine(&mut p, "alice", "k1");
        let second = p.finish_verify(r2, outcome);
        assert_eq!(id1, id2);
        assert_eq!(first, second);
        assert_eq!(p.slots_in_use(), 0);
    }
}

#[test]
fn sign_then_verify_round_trip() {
    let mut p = Provider::new(store_with(&[("alice", "k1", 42)]), MBED, 1);
    let (r, id) = run_to_engine(&mut p, "alice", "k1");
    let mut buffer = signature_buffer(72);
    buffer[0] = 0x30;
    let signature = p.finish_sign(r, buffer, Ok(70)).unwrap();
    assert_eq!(signature.len(), 70);
    let (r, id2) = run_to_engine(&mut p, "alice", "k1");
    assert_eq!(id, id2);
    assert_eq!(p.finish_verify(r, Ok(())), Ok(()));
}

#[test]
fn truncate_to_written_length() {
    let buffer: Vec<u8> = (0..72u8).collect();
    let sig = truncate_signature(buffer.clone(), Ok(70)).unwrap();
    assert_eq!(sig, buffer[..70].to_vec());
    assert_eq!(truncate_signature(buffer.clone(), Ok(72)).unwrap(), buffer);
    assert_eq!(truncate_signature(buffer.clone(), Ok(0)).unwrap(), Vec::<u8>::new());
}

#[test]
fn written_length_past_buffer_is_engine_failure() {
    let buffer = signature_buffer(64);
    assert_eq!(truncate_signature(buffer, Ok(65)), Err(OpError::EngineFailure(1138)));
}

#[test]
fn sign_engine_error_is_translated() {
    let mut p = Provider::new(store_with(&[("alice", "k1", 42)]), MBED, 1);
    let (r, _) = run_to_engine(&mut p, "alice", "k1");
    assert_eq!(p.finish_sign(r, Vec::new(), Err(-135)), Err(OpError::EngineFailure(1135)));
    assert_eq!(p.phase(r), Phase::Failed);
    assert_eq!(p.slots_in_use(), 0);
}

#[test]
fn engine_status_translation() {
    assert_eq!(engine_error(-149), OpError::SignatureInvalid);
    assert_eq!(engine_error(-147), OpError::EngineFailure(1147));
    assert_eq!(engine_error(-133), OpError::EngineFailure(1133));
    assert_eq!(engine_error(-140), OpError::EngineFailure(1140));
    // A status the engine does not define is a generic error.
    assert_eq!(engine_error(-9999), OpError::EngineFailure(1132));
}

#[test]
fn response_classification() {
    assert_eq!(classify_response(1149), OpError::SignatureInvalid);
    assert_eq!(classify_response(1132), OpError::EngineFailure(1132));
    assert_eq!(classify_response(1150), OpError::EngineFailure(1150));
}

#[test]
fn verify_outcome_mapping() {
    assert_eq!(verify_outcome(Ok(())), Ok(()));
    assert_eq!(verify_outcome(Err(-149)), Err(OpError::SignatureInvalid));
    assert_eq!(verify_outcome(Err(-151)), Err(OpError::EngineFailure(1151)));
}
