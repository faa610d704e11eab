//! The registration-record model: the stored engine record, its client-facing
//! shape, and the secret check performed on every lookup.
//!
//! Fetching a record from the store is the embedding program's business; this
//! module owns what is decided once a record (or none) is in hand. The one
//! rule worth stating: a missing record and a wrong client secret are
//! indistinguishable to the caller — both come out as "not found".

use vstd::prelude::*;

verus! {

/// The identifier under which an engine record is stored.
#[derive(Clone, Debug)]
pub struct EngineId(pub String);

/// The shared secret a caller must present to read an engine record.
#[derive(Clone, Debug)]
pub struct ClientSecret(pub String);

/// The owner of an engine record.
#[derive(Clone, Debug)]
pub struct UserId(pub String);

/// The secret a provider holds; the broker selector is derived from it.
#[derive(Clone, Debug)]
pub struct ProviderSecret(pub String);

/// The routing key under which a provider's work items are queued.
#[derive(Clone, Debug)]
pub struct ProviderSelector(pub String);

/// A chess variant an engine supports.
#[derive(Clone, Debug)]
pub struct LichessVariant(pub String);

impl ProviderSecret {
    /// The selector a provider listens on, derived from its secret.
    pub fn selector(&self) -> (s: ProviderSelector)
        ensures
            s.0@ == self.0@,
    {
        ProviderSelector(self.0.clone())
    }
}

/// An engine registration record as the store holds it.
pub struct ExternalEngine {
    pub id: EngineId,
    pub name: String,
    pub client_secret: ClientSecret,
    pub user_id: UserId,
    pub max_threads: u32,
    pub max_hash: u32,
    pub variants: Vec<LichessVariant>,
    pub provider_secret: ProviderSecret,
    pub provider_data: Option<String>,
}

impl ExternalEngine {
    /// The selector on which this record's provider receives work.
    pub fn selector(&self) -> (s: ProviderSelector)
        ensures
            s.0@ == self.provider_secret.0@,
    {
        self.provider_secret.selector()
    }
}

/// The client-facing shape of a record: everything but the provider secret.
pub struct Engine {
    pub id: EngineId,
    pub name: String,
    pub client_secret: ClientSecret,
    pub user_id: UserId,
    pub max_threads: u32,
    pub max_hash: u32,
    pub variants: Vec<LichessVariant>,
    pub provider_data: Option<String>,
}

impl From<ExternalEngine> for Engine {
    fn from(engine: ExternalEngine) -> (e: Engine) {
        Engine {
            id: engine.id,
            name: engine.name,
            client_secret: engine.client_secret,
            user_id: engine.user_id,
            max_threads: engine.max_threads,
            max_hash: engine.max_hash,
            variants: engine.variants,
            provider_data: engine.provider_data,
        }
    }
}

impl vstd::std_specs::convert::FromSpecImpl<ExternalEngine> for Engine {
    open spec fn obeys_from_spec() -> bool {
        true
    }

    open spec fn from_spec(engine: ExternalEngine) -> Engine {
        Engine {
            id: engine.id,
            name: engine.name,
            client_secret: engine.client_secret,
            user_id: engine.user_id,
            max_threads: engine.max_threads,
            max_hash: engine.max_hash,
            variants: engine.variants,
            provider_data: engine.provider_data,
        }
    }
}

/// The outcome of a lookup, decided from whatever the store returned: the
/// record passes only if it exists and its stored secret matches the one the
/// caller presented. An absent record and a mismatched secret yield the same
/// `None`, so a caller cannot tell nonexistence from a wrong credential.
pub fn authorize(found: Option<ExternalEngine>, client_secret: &ClientSecret) -> (r: Option<
    ExternalEngine,
>)
    ensures
        r == (match found {
            Some(engine) => if engine.client_secret.0@ == client_secret.0@ {
                Some(engine)
            } else {
                None::<ExternalEngine>
            },
            None => None::<ExternalEngine>,
        }),
{
    match found {
        Some(engine) => {
            if engine.client_secret.0 == client_secret.0 {
                Some(engine)
            } else {
                None
            }
        },
        None => None,
    }
}

} // verus!
