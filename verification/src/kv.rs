use vstd::prelude::*;

use crate::error::CrdtError;

verus! {

#[verifier::external_type_specification]
#[verifier::external_body]
pub struct ExTree(sled::Tree);

#[verifier::external_type_specification]
#[verifier::external_body]
pub struct ExSledError(sled::Error);

/// The entries a sled tree holds: a map from key bytes to value bytes.
pub uninterp spec fn kv_contents(t: sled::Tree) -> Map<Seq<u8>, Seq<u8>>;

/// One sorted byte-keyed tree of the embedded store. Holding the tree
/// behind one owner lets every write go through `&mut self`, so its
/// contracts can relate the contents before and after.
pub struct KvTree {
    tree: sled::Tree,
}

impl KvTree {
    /// The entries this tree holds.
    pub closed spec fn contents(&self) -> Map<Seq<u8>, Seq<u8>> {
        kv_contents(self.tree)
    }

    /// Take ownership of a sled tree. Converts only; what the tree
    /// holds is whatever was persisted under its name.
    #[verifier::external_body]
    pub fn new(tree: sled::Tree) -> (r: KvTree)
        ensures
            r.contents() == kv_contents(tree),
    {
        KvTree { tree }
    }

    /// Relies on sled::Tree::insert: sets the key to the value.
    #[verifier::external_body]
    pub fn insert(&mut self, key: &Vec<u8>, value: &Vec<u8>) -> (r: Result<(), CrdtError>)
        ensures
            r is Ok ==> final(self).contents() == old(self).contents().insert(key@, value@),
    {
        match self.tree.insert(&key[..], &value[..]) {
            Ok(_) => Ok(()),
            Err(_) => Err(CrdtError::StorageFailure),
        }
    }

    /// Relies on sled::Tree::remove: deletes the key.
    #[verifier::external_body]
    pub fn remove(&mut self, key: &Vec<u8>) -> (r: Result<(), CrdtError>)
        ensures
            r is Ok ==> final(self).contents() == old(self).contents().remove(key@),
    {
        match self.tree.remove(&key[..]) {
            Ok(_) => Ok(()),
            Err(_) => Err(CrdtError::StorageFailure),
        }
    }

    /// Relies on sled::Tree::scan_prefix: exactly the entries whose key
    /// starts with the prefix, each key once.
    #[verifier::external_body]
    pub fn scan_prefix(&self, prefix: &Vec<u8>) -> (r: Result<
        Vec<(Vec<u8>, Vec<u8>)>,
        CrdtError,
    >)
        ensures
            r matches Ok(v) ==> {
                &&& forall|i: int| 0 <= i < v@.len() ==> {
                    &&& prefix@.is_prefix_of(#[trigger] v@[i].0@)
                    &&& self.contents().contains_key(v@[i].0@)
                    &&& self.contents()[v@[i].0@] == v@[i].1@
                }
                &&& forall|kb: Seq<u8>|
                    self.contents().contains_key(kb) && prefix@.is_prefix_of(kb)
                        ==> exists|i: int| 0 <= i < v@.len() && #[trigger] v@[i].0@ == kb
                &&& forall|i: int, j: int| 0 <= i < j < v@.len() ==> v@[i].0@ != v@[j].0@
            },
    {
        let mut out: Vec<(Vec<u8>, Vec<u8>)> = Vec::new();
        for e in self.tree.scan_prefix(&prefix[..]) {
            match e {
                Ok((k, v)) => out.push((k.to_vec(), v.to_vec())),
                Err(_) => return Err(CrdtError::StorageFailure),
            }
        }
        Ok(out)
    }
}

} // verus!
