//! Tests for the registration-record model: the secret check, the
//! client-facing record shape, and selector derivation.

use workhub::queue::Queue;
use workhub::repo::{authorize, ClientSecret, Engine, EngineId, ExternalEngine, LichessVariant,
    ProviderSecret, UserId};

fn record(secret: &str) -> ExternalEngine {
    ExternalEngine {
        id: EngineId("engine-1".to_string()),
        name: "stockfish".to_string(),
        client_secret: ClientSecret(secret.to_string()),
        user_id: UserId("alice".to_string()),
        max_threads: 8,
        max_hash: 512,
        variants: vec![LichessVariant("standard".to_string())],
        provider_secret: ProviderSecret("prov-secret".to_string()),
        provider_data: Some("data".to_string()),
    }
}

#[test]
fn authorize_accepts_matching_secret() {
    let found = Some(record("s3cr3t"));
    let out = authorize(found, &ClientSecret("s3cr3t".to_string()));
    assert!(out.is_some());
    assert_eq!(out.unwrap().name, "stockfish");
}

#[test]
fn authorize_rejects_wrong_secret() {
    let found = Some(record("s3cr3t"));
    let out = authorize(found, &ClientSecret("wrong".to_string()));
    assert!(out.is_none());
}

#[test]
fn authorize_rejects_absent_record() {
    let out = authorize(None, &ClientSecret("s3cr3t".to_string()));
    assert!(out.is_none());
}

#[test]
fn engine_from_external_engine_keeps_fields() {
    let engine = Engine::from(record("s3cr3t"));
    assert_eq!(engine.id.0, "engine-1");
    assert_eq!(engine.name, "stockfish");
    assert_eq!(engine.client_secret.0, "s3cr3t");
    assert_eq!(engine.user_id.0, "alice");
    assert_eq!(engine.max_threads, 8);
    assert_eq!(engine.max_hash, 512);
    assert_eq!(engine.variants.len(), 1);
    assert_eq!(engine.variants[0].0, "standard");
    assert_eq!(engine.provider_data.as_deref(), Some("data"));
}

#[test]
fn selector_derives_from_provider_secret() {
    let rec = record("s3cr3t");
    assert_eq!(rec.selector().0, "prov-secret");
    assert_eq!(ProviderSecret("p".to_string()).selector().0, "p");
}

#[test]
fn fresh_queue_is_empty() {
    let q: Queue<u64> = Queue::new();
    assert_eq!(q.len(), 0);
    let d: Queue<u64> = Default::default();
    assert_eq!(d.len(), 0);
}
