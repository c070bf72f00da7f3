//! Store coordinator: the two named stores of the system and whole-state
//! snapshot persistence.
//!
//! Concurrency stays at the serving layer: it wraps each store in its own
//! exclusive lock so that operations on distinct stores never block each
//! other, and acquires the locks in one fixed order — clothes before face —
//! around `save` and `load` to take a consistent snapshot without deadlock.
//! The coordinator itself is purely sequential state; `save` produces the
//! snapshot bytes and `load` replaces the whole state from them, while
//! reading and writing the durable file belongs to the serving layer.

use vstd::prelude::*;

use crate::embedding::{DataEntryErrors, InMemoryVectorStore, StoreView};
use crate::snapshot::{
    dec_shared, decode_stores, enc_shared, encode_stores, lemma_snapshot_round_trip, store_ok,
};

verus! {

/// Mathematical model of a [`SharedStores`] coordinator.
pub ghost struct SharedStoresView {
    pub clothes: StoreView,
    pub face: StoreView,
}

/// The multi-store coordinator, owning one store per name.
pub struct SharedStores {
    pub clothes: InMemoryVectorStore,
    pub face: InMemoryVectorStore,
}

impl View for SharedStores {
    type V = SharedStoresView;

    open spec fn view(&self) -> SharedStoresView {
        SharedStoresView { clothes: self.clothes@, face: self.face@ }
    }
}

impl SharedStores {
    /// Both stores are well-formed.
    pub open spec fn wf(&self) -> bool {
        self.clothes.wf() && self.face.wf()
    }

    /// Create a coordinator from its two stores.
    pub fn new(clothes: InMemoryVectorStore, face: InMemoryVectorStore) -> (r: Self)
        ensures
            r@.clothes == clothes@,
            r@.face == face@,
    {
        SharedStores { clothes, face }
    }

    /// Serialize the full configuration and all records of both stores into
    /// one snapshot document. The serving layer writes the bytes to durable
    /// storage atomically (write-temp-then-rename).
    pub fn save(&self) -> (r: Vec<u8>)
        ensures
            r@ == enc_shared(self@.clothes, self@.face),
    {
        encode_stores(&self.clothes, &self.face)
    }

    /// Replace the entire coordinator state with the state held in a
    /// snapshot document. Fails with `MalformedSnapshot`, leaving the current
    /// state unchanged, on any document that is not exactly the encoding of
    /// two well-formed stores.
    pub fn load(&mut self, data: &Vec<u8>) -> (r: Result<(), DataEntryErrors>)
        ensures
            dec_shared(data@) matches Some(vp) ==> (r == Ok::<(), DataEntryErrors>(())
                && final(self)@.clothes == vp.0 && final(self)@.face == vp.1
                && final(self).wf()),
            dec_shared(data@) is None ==> (r == Err::<(), DataEntryErrors>(
                DataEntryErrors::MalformedSnapshot,
            ) && final(self)@ == old(self)@),
    {
        match decode_stores(data) {
            Option::None => Err(DataEntryErrors::MalformedSnapshot),
            Option::Some((clothes, face)) => {
                self.clothes = clothes;
                self.face = face;
                Ok(())
            },
        }
    }
}

/// `save` then `load` reproduces the saved state exactly: decoding the saved
/// snapshot of two well-formed, representable stores yields those stores —
/// every record (identifier, name, vector, descriptions) and every
/// configuration value of each named store.
pub proof fn lemma_save_load_round_trip(s: SharedStoresView)
    requires
        store_ok(s.clothes),
        store_ok(s.face),
    ensures
        dec_shared(enc_shared(s.clothes, s.face)) == Some((s.clothes, s.face)),
{
    lemma_snapshot_round_trip(s.clothes, s.face);
}

} // verus!
