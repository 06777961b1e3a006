//! Storage of nodes by address

use vstd::prelude::*;
use crate::address::{Address, AddressView};
use crate::error::CoreError;
use crate::node::{Node, NodeView};

verus! {

/// Storage interface for retrieving and persisting nodes by address
pub trait AddressStore {
    /// The nodes the store holds, by address
    spec fn contents(&self) -> Map<AddressView, NodeView>;

    /// The store answers every lookup (it never fails with an error)
    spec fn reliable(&self) -> bool;

    /// The node stored under `addr`, if any
    fn get(&self, addr: &Address) -> (r: Result<Option<Node>, CoreError>)
        ensures
            r matches Ok(Some(n)) ==> self.contents().contains_key(addr@) && n@ == self.contents()[addr@],
            r matches Ok(None) ==> !self.contents().contains_key(addr@),
            self.reliable() ==> r is Ok,
    ;

    /// Store `node` under `addr`, replacing what was stored there
    fn put(&mut self, addr: &Address, node: Node) -> (r: Result<(), CoreError>)
        ensures
            r is Ok ==> final(self).contents() == old(self).contents().insert(addr@, node@),
            r is Err ==> final(self).contents() == old(self).contents(),
            final(self).reliable() == old(self).reliable(),
            old(self).reliable() ==> r is Ok,
    ;
}

/// The map that a list of entries stands for: later entries override earlier ones
pub open spec fn entries_map(e: Seq<(AddressView, NodeView)>) -> Map<AddressView, NodeView>
    decreases e.len(),
{
    if e.len() == 0 {
        Map::empty()
    } else {
        entries_map(e.drop_last()).insert(e.last().0, e.last().1)
    }
}

/// No address occurs twice among the entries
pub open spec fn keys_distinct(e: Seq<(AddressView, NodeView)>) -> bool {
    forall|i: int, j: int| 0 <= i < j < e.len() ==> (#[trigger] e[i]).0 != (#[trigger] e[j]).0
}

proof fn lemma_entries_map_has(e: Seq<(AddressView, NodeView)>, i: int)
    requires
        keys_distinct(e),
        0 <= i < e.len(),
    ensures
        entries_map(e).contains_key(e[i].0),
        entries_map(e)[e[i].0] == e[i].1,
    decreases e.len(),
{
    if i < e.len() - 1 {
        let e0 = e.drop_last();
        assert(e0[i] == e[i]);
        lemma_entries_map_has(e0, i);
        assert(e[i].0 != e.last().0);
    }
}

proof fn lemma_entries_map_missing(e: Seq<(AddressView, NodeView)>, k: AddressView)
    requires
        forall|i: int| 0 <= i < e.len() ==> (#[trigger] e[i]).0 != k,
    ensures
        !entries_map(e).contains_key(k),
    decreases e.len(),
{
    if e.len() > 0 {
        let e0 = e.drop_last();
        assert forall|i: int| 0 <= i < e0.len() implies (#[trigger] e0[i]).0 != k by {
            assert(e0[i] == e[i]);
        }
        lemma_entries_map_missing(e0, k);
    }
}

proof fn lemma_entries_map_update(e: Seq<(AddressView, NodeView)>, i: int, v: NodeView)
    requires
        keys_distinct(e),
        0 <= i < e.len(),
    ensures
        entries_map(e.update(i, (e[i].0, v))) == entries_map(e).insert(e[i].0, v),
    decreases e.len(),
{
    let k = e[i].0;
    let e2 = e.update(i, (k, v));
    if i == e.len() - 1 {
        assert(e2.drop_last() =~= e.drop_last());
        assert(entries_map(e2) =~= entries_map(e).insert(k, v));
    } else {
        let e0 = e.drop_last();
        assert(e2.drop_last() =~= e0.update(i, (k, v)));
        assert(e0[i] == e[i]);
        lemma_entries_map_update(e0, i, v);
        assert(e.last().0 != k);
        assert(entries_map(e2) =~= entries_map(e).insert(k, v));
    }
}

proof fn lemma_entries_map_len(e: Seq<(AddressView, NodeView)>)
    requires
        keys_distinct(e),
    ensures
        entries_map(e).dom().finite(),
        entries_map(e).dom().len() == e.len(),
    decreases e.len(),
{
    if e.len() > 0 {
        let e0 = e.drop_last();
        lemma_entries_map_len(e0);
        assert forall|i: int| 0 <= i < e0.len() implies (#[trigger] e0[i]).0 != e.last().0 by {
            assert(e0[i] == e[i]);
        }
        lemma_entries_map_missing(e0, e.last().0);
    }
}

/// In-memory implementation of `AddressStore`
#[derive(Debug)]
pub struct MemoryStore {
    entries: Vec<(Address, Node)>,
}

impl MemoryStore {
    /// The entries' models
    pub closed spec fn entry_views(&self) -> Seq<(AddressView, NodeView)> {
        self.entries@.map_values(|e: (Address, Node)| (e.0@, e.1@))
    }

    /// No address is stored twice
    #[verifier::type_invariant]
    pub closed spec fn inv(&self) -> bool {
        keys_distinct(self.entry_views())
    }

    /// An empty store
    pub fn new() -> (r: MemoryStore)
        ensures
            r.contents() == Map::<AddressView, NodeView>::empty(),
            r.reliable(),
    {
        let r = MemoryStore { entries: Vec::new() };
        assert(r.entry_views() =~= Seq::<(AddressView, NodeView)>::empty());
        r
    }

    /// The number of addresses stored
    pub fn len(&self) -> (r: usize)
        ensures
            r == self.contents().dom().len(),
            self.contents().dom().finite(),
    {
        proof {
            use_type_invariant(self);
            lemma_entries_map_len(self.entry_views());
        }
        self.entries.len()
    }

    /// Whether no address is stored
    pub fn is_empty(&self) -> (r: bool)
        ensures
            r == (self.contents().dom().len() == 0),
    {
        self.len() == 0
    }

    /// The position of `addr` among the entries, if it is stored
    fn position(&self, addr: &Address) -> (r: Option<usize>)
        ensures
            r matches Some(i) ==> i < self.entries@.len() && self.entry_views()[i as int].0 == addr@,
            r is None ==> forall|i: int| 0 <= i < self.entries@.len() ==> (#[trigger] self.entry_views()[i]).0 != addr@,
    {
        let mut i: usize = 0;
        while i < self.entries.len()
            invariant
                i <= self.entries@.len(),
                forall|k: int| 0 <= k < i ==> (#[trigger] self.entry_views()[k]).0 != addr@,
            decreases self.entries@.len() - i,
        {
            if self.entries[i].0.same_as(addr) {
                return Some(i);
            }
            i = i + 1;
        }
        None
    }
}

impl AddressStore for MemoryStore {
    closed spec fn contents(&self) -> Map<AddressView, NodeView> {
        entries_map(self.entry_views())
    }

    closed spec fn reliable(&self) -> bool {
        true
    }

    fn get(&self, addr: &Address) -> (r: Result<Option<Node>, CoreError>) {
        proof {
            use_type_invariant(self);
        }
        match self.position(addr) {
            Some(i) => {
                proof {
                    lemma_entries_map_has(self.entry_views(), i as int);
                }
                Ok(Some(self.entries[i].1.clone()))
            },
            None => {
                proof {
                    lemma_entries_map_missing(self.entry_views(), addr@);
                }
                Ok(None)
            },
        }
    }

    fn put(&mut self, addr: &Address, node: Node) -> (r: Result<(), CoreError>) {
        proof {
            use_type_invariant(&*self);
        }
        let ghost old_views = self.entry_views();
        let ghost nv = node@;
        let pos = self.position(addr);
        let mut entries: Vec<(Address, Node)> = Vec::new();
        std::mem::swap(&mut entries, &mut self.entries);
        let key = addr.clone();
        match pos {
            Some(i) => {
                entries.set(i, (key, node));
                let ghost views = entries@.map_values(|e: (Address, Node)| (e.0@, e.1@));
                proof {
                    assert(views =~= old_views.update(i as int, (old_views[i as int].0, nv)));
                    lemma_entries_map_update(old_views, i as int, nv);
                    assert forall|a: int, b: int| 0 <= a < b < views.len() implies (#[trigger] views[a]).0
                        != (#[trigger] views[b]).0 by {
                        assert(old_views[a].0 == views[a].0 && old_views[b].0 == views[b].0);
                    }
                }
            },
            None => {
                entries.push((key, node));
                let ghost views = entries@.map_values(|e: (Address, Node)| (e.0@, e.1@));
                proof {
                    assert(views =~= old_views.push((addr@, nv)));
                    assert(views.drop_last() =~= old_views);
                    assert forall|a: int, b: int| 0 <= a < b < views.len() implies (#[trigger] views[a]).0
                        != (#[trigger] views[b]).0 by {
                        if b < old_views.len() {
                            assert(old_views[a] == views[a] && old_views[b] == views[b]);
                        } else {
                            assert(old_views[a] == views[a]);
                        }
                    }
                }
            },
        }
        self.entries = entries;
        Ok(())
    }
}

} // verus!
