//! A model of the application's data directory.
//!
//! The stores read and write a [`Disk`]: file contents keyed by relative
//! path. Every mutation is a whole-file overwrite or a delete, as in the
//! backing filesystem. The unverified shell mirrors each operation onto
//! real files under the host-supplied root directory.

use vstd::hash_map::StringHashMap;
use vstd::prelude::*;

verus! {

/// File contents keyed by relative path.
pub struct Disk {
    files: StringHashMap<Vec<u8>>,
}

fn copy_bytes(v: &Vec<u8>) -> (r: Vec<u8>)
    ensures
        r@ == v@,
{
    let mut r: Vec<u8> = Vec::new();
    let mut i: usize = 0;
    while i < v.len()
        invariant
            0 <= i <= v@.len(),
            r@ =~= v@.subrange(0, i as int),
        decreases v@.len() - i,
    {
        r.push(v[i]);
        proof {
            assert(r@ =~= v@.subrange(0, i + 1));
        }
        i = i + 1;
    }
    proof {
        assert(v@.subrange(0, v@.len() as int) =~= v@);
    }
    r
}

impl Disk {
    /// The disk's contents: file bytes keyed by relative path.
    pub closed spec fn contents(&self) -> Map<Seq<char>, Seq<u8>> {
        self.files@.map_values(|v: Vec<u8>| v@)
    }

    /// An empty disk.
    pub fn new() -> (d: Disk)
        ensures
            d.contents() == Map::<Seq<char>, Seq<u8>>::empty(),
    {
        let d = Disk { files: StringHashMap::new() };
        proof {
            assert(d.contents() =~= Map::<Seq<char>, Seq<u8>>::empty());
        }
        d
    }

    /// The number of files on the disk.
    pub fn file_count(&self) -> (n: usize)
        ensures
            n == self.contents().len(),
    {
        proof {
            assert(self.contents().dom() =~= self.files@.dom());
        }
        self.files.len()
    }

    /// Whether a file exists at `path`.
    pub fn has_file(&self, path: &str) -> (r: bool)
        ensures
            r == self.contents().contains_key(path@),
    {
        self.files.contains_key(path)
    }

    /// The bytes of the file at `path`, if one exists.
    pub fn read(&self, path: &str) -> (r: Option<Vec<u8>>)
        ensures
            match r {
                Some(v) => self.contents().contains_key(path@) && v@ == self.contents()[path@],
                None => !self.contents().contains_key(path@),
            },
    {
        match self.files.get(path) {
            Some(v) => Some(copy_bytes(v)),
            None => None,
        }
    }

    /// Writes `data` to `path`, replacing any file already there.
    pub fn write(&mut self, path: String, data: Vec<u8>)
        ensures
            final(self).contents() == old(self).contents().insert(path@, data@),
    {
        let ghost p = path@;
        let ghost d = data@;
        self.files.insert(path, data);
        proof {
            assert(self.contents() =~= old(self).contents().insert(p, d));
        }
    }

    /// Removes the file at `path`; a no-op when none exists.
    pub fn delete(&mut self, path: &str)
        ensures
            final(self).contents() == old(self).contents().remove(path@),
    {
        self.files.remove(path);
        proof {
            assert(self.contents() =~= old(self).contents().remove(path@));
        }
    }
}

} // verus!
