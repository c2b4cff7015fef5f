//! Types shared by the two-phase commit paths.
use crate::ordered;
use crate::partition;
use crate::partition::PartitionId;
use std::collections::BTreeMap;
use vstd::prelude::*;
use vstd::string::*;

verus! {

broadcast use {vstd::std_specs::btree::group_btree_axioms, vstd::laws_cmp::group_laws_cmp};

/// Peer addresses of each partition.
#[derive(Debug)]
pub struct NodeAddresses {
    members: BTreeMap<u32, Vec<String>>,
}

impl View for NodeAddresses {
    type V = Map<u32, Seq<Seq<char>>>;

    closed spec fn view(&self) -> Map<u32, Seq<Seq<char>>> {
        partition::members_of(self.members@)
    }
}

impl NodeAddresses {
    pub fn from_map(members: BTreeMap<u32, Vec<String>>) -> (r: Self)
        ensures
            r@ == partition::members_of(members@),
    {
        NodeAddresses { members }
    }

    /// Another copy of the addresses.
    pub fn copy(&self) -> (r: Self)
        ensures
            r@ == self@,
    {
        NodeAddresses { members: partition::copy_members(&self.members) }
    }

    /// The partitions that have addresses, ascending.
    pub fn partitions(&self) -> (r: Vec<PartitionId>)
        ensures
            r@ == Seq::new(
                ordered::ascending_u32(self@.dom()).len(),
                |i: int| PartitionId(ordered::ascending_u32(self@.dom())[i]),
            ),
    {
        let keys = ordered::keys_u32(&self.members);
        assert(self@.dom() =~= self.members@.dom());
        let ghost all = Seq::new(keys@.len(), |i: int| PartitionId(keys@[i]));
        let mut r: Vec<PartitionId> = Vec::new();
        let mut i: usize = 0;
        while i < keys.len()
            invariant
                i <= keys@.len(),
                all == Seq::new(keys@.len(), |i: int| PartitionId(keys@[i])),
                r@ == all.take(i as int),
            decreases keys@.len() - i,
        {
            r.push(PartitionId(keys[i]));
            assert(r@ =~= all.take(i + 1));
            i += 1;
        }
        assert(all.take(i as int) =~= all);
        r
    }

    /// All addresses of a partition.
    pub fn addresses_for(&self, partition: PartitionId) -> (r: Option<&Vec<String>>)
        ensures
            match r {
                Some(v) => self@.contains_key(partition.0) && partition::texts(v@)
                    == self@[partition.0],
                None => !self@.contains_key(partition.0),
            },
    {
        self.members.get(&partition.0)
    }

    /// The first address of a partition.
    pub fn address_for(&self, partition: PartitionId) -> (r: Option<&str>)
        ensures
            match r {
                Some(a) => self@.contains_key(partition.0) && self@[partition.0].len() > 0 && a@
                    == self@[partition.0][0],
                None => !self@.contains_key(partition.0) || self@[partition.0].len() == 0,
            },
    {
        match self.members.get(&partition.0) {
            Some(v) => {
                assert(partition::texts(v@).len() == v@.len());
                if v.len() > 0 {
                    Some(v[0].as_str())
                } else {
                    None
                }
            },
            None => None,
        }
    }
}

} // verus!
