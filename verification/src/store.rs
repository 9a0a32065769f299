//! The durable state of an engine: the bytes of the active WAL and of
//! every SST, in sequence order.
//!
//! A `Store` is plain data.  An embedding binary keeps these bytes on disk
//! — `wal.log` and `sst/<n>.log` under the data directory — and hands them
//! to [`crate::lsm::LsmEngine::open`] on startup; SST number `n` is held at
//! position `n - 1`.  Tests simulate a crash by snapshotting a store and
//! reopening from the snapshot.

use vstd::prelude::*;

use vstd::slice::slice_to_vec;

use crate::model::{combined, recovered_index, recovered_mem, EngineModel, KvMap};

verus! {

/// The durable bytes: one WAL and the SSTs in ascending sequence order.
pub struct Store {
    pub wal: Vec<u8>,
    pub ssts: Vec<Vec<u8>>,
}

/// Mathematical image of a [`Store`].
#[verifier::ext_equal]
pub ghost struct StoreView {
    pub wal: Seq<u8>,
    pub ssts: Seq<Seq<u8>>,
}

impl View for Store {
    type V = StoreView;

    open spec fn view(&self) -> StoreView {
        StoreView { wal: self.wal@, ssts: self.ssts@.map_values(|v: Vec<u8>| v@) }
    }
}

/// The engine state that recovery rebuilds from durable bytes: the
/// memtable replayed from the WAL and the index merged from the SSTs.
pub open spec fn recovered_model(s: StoreView) -> EngineModel {
    EngineModel { mem: recovered_mem(s.wal), idx: recovered_index(s.ssts) }
}

/// The user-visible map after recovering from `s`.
pub open spec fn store_visible(s: StoreView) -> KvMap {
    combined(recovered_mem(s.wal), recovered_index(s.ssts))
}

impl Store {
    /// A store with nothing written yet.
    pub fn new() -> (r: Store)
        ensures
            r@.wal == Seq::<u8>::empty(),
            r@.ssts == Seq::<Seq<u8>>::empty(),
    {
        let r = Store { wal: Vec::new(), ssts: Vec::new() };
        proof {
            assert(r@.ssts =~= Seq::<Seq<u8>>::empty());
        }
        r
    }

    /// A deep copy of the durable bytes.
    pub fn snapshot(&self) -> (r: Store)
        ensures
            r@ == self@,
    {
        let wal = slice_to_vec(self.wal.as_slice());
        let mut ssts: Vec<Vec<u8>> = Vec::new();
        let mut i: usize = 0;
        while i < self.ssts.len()
            invariant
                i == ssts@.len(),
                i <= self.ssts@.len(),
                forall|j: int| 0 <= j < i ==> #[trigger] ssts@[j]@ == self.ssts@[j]@,
            decreases self.ssts@.len() - i,
        {
            ssts.push(slice_to_vec(self.ssts[i].as_slice()));
            i = i + 1;
        }
        let r = Store { wal, ssts };
        proof {
            assert(r@.ssts =~= self@.ssts);
            assert(r@ =~= self@);
        }
        r
    }
}

} // verus!
