//! The server root: one storage engine handle behind the whole server.

use vstd::prelude::*;

use crate::store::KvsEngine;

verus! {

/// The server of a key value store: it owns the engine that every
/// accepted connection is served against.
pub struct KvsServer<E: KvsEngine> {
    engine: E,
}

impl<E: KvsEngine> KvsServer<E> {
    /// The engine this server was built over.
    pub closed spec fn engine_of(&self) -> E {
        self.engine
    }

    /// Create a `KvsServer` with a given storage engine.
    pub fn new(engine: E) -> (s: Self)
        ensures
            s.engine_of() == engine,
    {
        KvsServer { engine }
    }

    /// Gives the engine up to the accept loop, which shares it among
    /// the connection jobs it submits.
    pub fn into_engine(self) -> (e: E)
        ensures
            e == self.engine_of(),
    {
        self.engine
    }
}

} // verus!
