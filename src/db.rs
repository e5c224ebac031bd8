//! The database facade: the meta-table and engine-wide settings.
use vstd::prelude::*;
use crate::registry::{ForkRegistry, TableMetaInfo};

verus! {

/// How long, in milliseconds, a prepare may take before it is given up.
pub const TIMEOUT: usize = 100;

/// The database: the meta-table of every table it holds.
pub struct LogFileDB {
    meta: ForkRegistry,
}

impl LogFileDB {
    pub closed spec fn meta_view(&self) -> Map<Seq<u8>, crate::registry::MetaView> {
        self.meta@
    }

    pub closed spec fn wf(&self) -> bool {
        self.meta.wf()
    }

    /// A database over the meta-table `meta`.
    pub fn new(meta: ForkRegistry) -> (r: Self)
        requires
            meta.wf(),
        ensures
            r.wf(),
            r.meta_view() == meta@,
    {
        LogFileDB { meta }
    }

    /// The prepare timeout in milliseconds.
    pub fn timeout(&self) -> (r: usize)
        ensures
            r == TIMEOUT,
    {
        TIMEOUT
    }

    /// What the meta-table records of `tab_name`.
    pub fn tab_info(&self, tab_name: &Vec<u8>) -> (r: Option<&TableMetaInfo>)
        requires
            self.wf(),
        ensures
            r is Some == self.meta_view().contains_key(tab_name@),
            r is Some ==> r.unwrap()@ == self.meta_view()[tab_name@],
    {
        self.meta.tab_info(tab_name)
    }

    /// The names of all tables, ascending.
    pub fn list(&self) -> (r: Vec<Vec<u8>>)
        requires
            self.wf(),
        ensures
            r@.len() == self.meta_view().len(),
            forall|i: int| 0 <= i < r@.len() ==> self.meta_view().contains_key(#[trigger] r@[i]@),
            forall|k: Seq<u8>| #[trigger] self.meta_view().contains_key(k) ==> exists|i: int| 0 <= i < r@.len() && r@[i]@ == k,
    {
        self.meta.list()
    }

    /// The meta-table.
    pub fn meta(&self) -> (r: &ForkRegistry)
        ensures
            r@ == self.meta_view(),
            self.wf() ==> r.wf(),
    {
        &self.meta
    }
}

} // verus!
