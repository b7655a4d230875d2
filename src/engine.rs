//! The pluggable engine interface and the choice of engine.
use crate::error::KvsError;
use crate::text::same_text;
use vstd::prelude::*;

verus! {

/// A key-value engine: three operations over string keys and values. Every
/// handle made by `clone` names the same store.
pub trait KvsEngine: Sized + Send + 'static {
    /// Opens the engine's store in the current directory.
    fn new() -> Result<Self, KvsError>;

    /// Another handle to the same store.
    fn clone(&self) -> Self;

    /// Binds `key` to `value`.
    fn set(&self, key: String, value: String) -> Result<(), KvsError>;

    /// The value bound to `key`, or `None`.
    fn get(&self, key: String) -> Result<Option<String>, KvsError>;

    /// Unbinds `key`; fails with `KeyNotFound` when it is not bound.
    fn remove(&self, key: String) -> Result<(), KvsError>;
}

/// The engines a server can run: the log-structured store, or the embedded
/// sled database.
#[derive(Clone, Copy, Debug, PartialEq, Eq, Structural)]
pub enum EngineKind {
    Kvs,
    Sled,
}

/// The engine that a name selects.
pub open spec fn engine_of_name(name: Seq<char>) -> Option<EngineKind> {
    if name == "kvs"@ {
        Some(EngineKind::Kvs)
    } else if name == "sled"@ {
        Some(EngineKind::Sled)
    } else {
        None
    }
}

/// The engine named `engine_name`, which must be `kvs` or `sled`.
pub fn get_engine_by_name(engine_name: &str) -> (r: EngineKind)
    requires
        engine_of_name(engine_name@) is Some,
    ensures
        Some(r) == engine_of_name(engine_name@),
{
    if same_text(engine_name, "kvs") {
        EngineKind::Kvs
    } else {
        EngineKind::Sled
    }
}

/// The engine a server is to run, from the one recorded in the data
/// directory and the one asked for: they must agree when both are given;
/// with neither, `kvs`.
pub open spec fn engine_choice(last_engine: Option<Seq<char>>, config_engine: Option<Seq<char>>) -> Option<Seq<char>> {
    match (last_engine, config_engine) {
        (Some(l), Some(c)) => if l == c {
            Some(c)
        } else {
            None
        },
        (Some(l), None) => Some(l),
        (None, Some(c)) => Some(c),
        (None, None) => Some("kvs"@),
    }
}

/// Decides the engine a server runs (see [`engine_choice`]); a request that
/// disagrees with the recorded engine fails with `Other`. The caller records
/// the result in the data directory.
pub fn get_engine(last_engine: Option<String>, config_engine: Option<String>) -> (r: Result<String, KvsError>)
    ensures
        match engine_choice(
            match last_engine {
                Some(l) => Some(l@),
                None => None,
            },
            match config_engine {
                Some(c) => Some(c@),
                None => None,
            },
        ) {
            Some(e) => r matches Ok(s) && s@ == e,
            None => r matches Err(KvsError::Other { .. }),
        },
{
    match (last_engine, config_engine) {
        (Some(l), Some(c)) => {
            if same_text(l.as_str(), c.as_str()) {
                Ok(c)
            } else {
                Err(KvsError::Other { message: "engine not match last used".to_owned() })
            }
        },
        (Some(l), None) => Ok(l),
        (None, Some(c)) => Ok(c),
        (None, None) => Ok("kvs".to_owned()),
    }
}

} // verus!
