//! In-memory assets: byte blobs kept under path names.  Reading a file
//! off the disk is the host's business; the store itself only keeps,
//! hands out and drops what the host loaded.

use vstd::prelude::*;

verus! {

/// One asset: at its core, a byte array.
pub struct Asset {
    data: Vec<u8>,
}

impl Asset {
    /// Wraps loaded bytes as an asset.
    pub fn new(data: Vec<u8>) -> (a: Asset)
        ensures
            a@ == data@,
    {
        Asset { data }
    }

    /// The asset's bytes.
    pub fn data(&self) -> (d: &Vec<u8>)
        ensures
            d@ == self@,
    {
        &self.data
    }
}

impl View for Asset {
    type V = Seq<u8>;

    closed spec fn view(&self) -> Seq<u8> {
        self.data@
    }
}

/// The map described by a path-to-asset entry sequence; later entries win.
pub open spec fn asset_map(entries: Seq<(String, Asset)>) -> Map<Seq<char>, Seq<u8>>
    decreases entries.len(),
{
    if entries.len() == 0 {
        Map::empty()
    } else {
        asset_map(entries.drop_last()).insert(entries.last().0@, entries.last().1@)
    }
}

/// Pairwise distinct paths.
pub open spec fn paths_unique(entries: Seq<(String, Asset)>) -> bool {
    forall|i: int, j: int| 0 <= i < j < entries.len() ==> entries[i].0@ != entries[j].0@
}

/// A path is in the asset map exactly when some entry carries it.
proof fn lemma_asset_map_dom(entries: Seq<(String, Asset)>, p: Seq<char>)
    ensures
        asset_map(entries).dom().contains(p) <==> exists|i: int|
            0 <= i < entries.len() && entries[i].0@ == p,
    decreases entries.len(),
{
    if entries.len() > 0 {
        lemma_asset_map_dom(entries.drop_last(), p);
        if entries.last().0@ == p {
            assert(entries[entries.len() - 1].0@ == p);
        } else {
            if exists|i: int| 0 <= i < entries.len() && entries[i].0@ == p {
                let i = choose|i: int| 0 <= i < entries.len() && entries[i].0@ == p;
                assert(entries.drop_last()[i] == entries[i]);
            }
            if exists|i: int| 0 <= i < entries.drop_last().len() && entries.drop_last()[i].0@
                == p {
                let i = choose|i: int|
                    0 <= i < entries.drop_last().len() && entries.drop_last()[i].0@ == p;
                assert(entries[i].0@ == p);
            }
        }
    }
}

/// With distinct paths, the map sends each entry's path to its bytes.
proof fn lemma_asset_map_at(entries: Seq<(String, Asset)>, i: int)
    requires
        paths_unique(entries),
        0 <= i < entries.len(),
    ensures
        asset_map(entries).dom().contains(entries[i].0@),
        asset_map(entries)[entries[i].0@] == entries[i].1@,
    decreases entries.len(),
{
    if i == entries.len() - 1 {
    } else {
        assert(entries.drop_last()[i] == entries[i]);
        lemma_asset_map_at(entries.drop_last(), i);
        assert(entries.last().0@ != entries[i].0@);
    }
}

/// Taking one entry out removes its path from the map of the sequence.
proof fn lemma_asset_map_remove(entries: Seq<(String, Asset)>, i: int)
    requires
        paths_unique(entries),
        0 <= i < entries.len(),
    ensures
        asset_map(entries.remove(i)) == asset_map(entries).remove(entries[i].0@),
    decreases entries.len(),
{
    if i == entries.len() - 1 {
        assert(entries.remove(i) =~= entries.drop_last());
        lemma_asset_map_dom(entries.drop_last(), entries[i].0@);
        assert(asset_map(entries.remove(i)) =~= asset_map(entries).remove(entries[i].0@));
    } else {
        assert(entries.remove(i).drop_last() =~= entries.drop_last().remove(i));
        assert(entries.remove(i).last() == entries.last());
        assert(entries.drop_last()[i] == entries[i]);
        lemma_asset_map_remove(entries.drop_last(), i);
        assert(entries.last().0@ != entries[i].0@);
        assert(asset_map(entries.remove(i)) =~= asset_map(entries).remove(entries[i].0@));
    }
}

/// The loaded assets, kept under their path names, one asset per path.
pub struct Assets {
    entries: Vec<(String, Asset)>,
}

impl Assets {
    /// The raw entry sequence behind the store.
    pub closed spec fn entries(&self) -> Seq<(String, Asset)> {
        self.entries@
    }

    /// Well-formed: at most one asset per path.
    pub open spec fn wf(&self) -> bool {
        paths_unique(self.entries())
    }

    /// Creates an empty asset store.
    pub fn new() -> (a: Assets)
        ensures
            a.wf(),
            a@ == Map::<Seq<char>, Seq<u8>>::empty(),
    {
        Assets { entries: Vec::new() }
    }

    /// Keeps loaded bytes under `path`.  An asset that is already in
    /// memory is not replaced: loading is idempotent per path.
    pub fn load(&mut self, path: &str, data: Vec<u8>)
        requires
            old(self).wf(),
        ensures
            final(self).wf(),
            final(self)@ == (if old(self)@.dom().contains(path@) {
                old(self)@
            } else {
                old(self)@.insert(path@, data@)
            }),
    {
        let ghost entries0 = self.entries@;
        proof {
            lemma_asset_map_dom(entries0, path@);
        }
        let key = path.to_owned();
        let n = self.entries.len();
        let mut i: usize = 0;
        while i < n
            invariant
                n == self.entries@.len(),
                i <= n,
                self.entries@ == entries0,
                entries0 == old(self).entries(),
                paths_unique(entries0),
                old(self).wf(),
                key@ == path@,
                forall|j: int| 0 <= j < i ==> entries0[j].0@ != path@,
            decreases n - i,
        {
            if self.entries[i].0 == key {
                proof {
                    lemma_asset_map_dom(entries0, path@);
                }
                return;
            }
            i += 1;
        }
        self.entries.push((path.to_owned(), Asset { data }));
        proof {
            assert(self.entries@.drop_last() =~= entries0);
            assert forall|a: int, b: int|
                0 <= a < b < self.entries@.len() implies self.entries@[a].0@
                != self.entries@[b].0@ by {
                if b < entries0.len() {
                    assert(entries0[a].0@ != entries0[b].0@);
                }
            }
        }
    }

    /// The asset kept under `path`, or nothing when none was loaded.
    pub fn get(&self, path: &str) -> (r: Option<&Asset>)
        requires
            self.wf(),
        ensures
            match r {
                Some(a) => self@.dom().contains(path@) && a@ == self@[path@],
                None => !self@.dom().contains(path@),
            },
    {
        proof {
            lemma_asset_map_dom(self.entries(), path@);
        }
        let key = path.to_owned();
        let n = self.entries.len();
        let mut i: usize = 0;
        while i < n
            invariant
                n == self.entries@.len(),
                i <= n,
                self.wf(),
                key@ == path@,
                forall|j: int| 0 <= j < i ==> self.entries@[j].0@ != path@,
            decreases n - i,
        {
            if self.entries[i].0 == key {
                proof {
                    lemma_asset_map_at(self.entries(), i as int);
                }
                return Some(&self.entries[i].1);
            }
            i += 1;
        }
        None
    }

    /// Drops the asset kept under `path`, if any.
    pub fn unload(&mut self, path: &str)
        requires
            old(self).wf(),
        ensures
            final(self).wf(),
            final(self)@ == old(self)@.remove(path@),
    {
        let ghost entries0 = self.entries@;
        proof {
            lemma_asset_map_dom(entries0, path@);
        }
        let key = path.to_owned();
        let n = self.entries.len();
        let mut i: usize = 0;
        while i < n
            invariant
                n == self.entries@.len(),
                i <= n,
                self.entries@ == entries0,
                entries0 == old(self).entries(),
                paths_unique(entries0),
                *self == *old(self),
                key@ == path@,
                forall|j: int| 0 <= j < i ==> entries0[j].0@ != path@,
            decreases n - i,
        {
            if self.entries[i].0 == key {
                proof {
                    lemma_asset_map_remove(entries0, i as int);
                }
                let _ = self.entries.remove(i);
                proof {
                    assert(self.entries@ =~= entries0.remove(i as int));
                    assert forall|a: int, b: int|
                        0 <= a < b < self.entries@.len() implies self.entries@[a].0@
                        != self.entries@[b].0@ by {
                        let a0: int = if a < i { a } else { a + 1 };
                        let b0: int = if b < i { b } else { b + 1 };
                        assert(self.entries@[a] == entries0[a0]);
                        assert(self.entries@[b] == entries0[b0]);
                    }
                }
                return;
            }
            i += 1;
        }
        proof {
            assert(self@ =~= old(self)@.remove(path@));
        }
    }

    /// Drops every loaded asset.
    pub fn clear(&mut self)
        ensures
            final(self).wf(),
            final(self)@ == Map::<Seq<char>, Seq<u8>>::empty(),
    {
        self.entries.clear();
    }
}

impl Default for Assets {
    /// The empty asset store.
    fn default() -> (a: Self)
        ensures
            a.wf(),
            a@ == Map::<Seq<char>, Seq<u8>>::empty(),
    {
        Assets { entries: Vec::new() }
    }
}

impl View for Assets {
    type V = Map<Seq<char>, Seq<u8>>;

    open spec fn view(&self) -> Map<Seq<char>, Seq<u8>> {
        asset_map(self.entries())
    }
}

} // verus!
