//! The resource store: a container of singleton values, one per
//! [`TypeKey`], viewed in specifications as a `Map<TypeKey, R>`.
//!
//! The store is kept as a sequence of cells with pairwise distinct keys.
//! Adding an existing key replaces the value in place; adding a new key
//! appends a cell.  Merging moves every entry of another store into this
//! one, the other store's entries winning on collision.

use crate::capability::{AccessError, Res, ResMut, TypeKey};
use vstd::prelude::*;

verus! {

/// One entry of a store: a key and the single value it owns.
pub struct ResourceCell<R> {
    pub key: TypeKey,
    pub value: R,
}

/// The map described by a cell sequence; on repeated keys, later cells win.
pub open spec fn map_of<R>(cells: Seq<ResourceCell<R>>) -> Map<TypeKey, R>
    decreases cells.len(),
{
    if cells.len() == 0 {
        Map::empty()
    } else {
        map_of(cells.drop_last()).insert(cells.last().key, cells.last().value)
    }
}

/// Pairwise distinct keys.
pub open spec fn keys_unique<R>(cells: Seq<ResourceCell<R>>) -> bool {
    forall|i: int, j: int|
        0 <= i < j < cells.len() ==> cells[i].key != cells[j].key
}

/// The map after a sequence of insertions, applied first to last; later
/// insertions of one key win.
pub open spec fn apply_adds<R>(m: Map<TypeKey, R>, adds: Seq<(TypeKey, R)>) -> Map<TypeKey, R>
    decreases adds.len(),
{
    if adds.len() == 0 {
        m
    } else {
        apply_adds(m.insert(adds.first().0, adds.first().1), adds.drop_first())
    }
}

/// A store that served any sequence of insertions holds a key exactly when
/// it held it before or some insertion named it; it then holds exactly one
/// value for that key, the one of the last insertion that named it: later
/// insertions replace earlier ones.
pub proof fn lemma_store_after_adds<R>(m: Map<TypeKey, R>, adds: Seq<(TypeKey, R)>, k: TypeKey)
    ensures
        apply_adds(m, adds).dom().contains(k) <==> m.dom().contains(k) || exists|i: int|
            0 <= i < adds.len() && adds[i].0 == k,
        (exists|i: int| 0 <= i < adds.len() && adds[i].0 == k) ==> exists|i: int|
            {
                &&& 0 <= i < adds.len()
                &&& adds[i].0 == k
                &&& apply_adds(m, adds)[k] == adds[i].1
                &&& forall|j: int| i < j < adds.len() ==> adds[j].0 != k
            },
        !(exists|i: int| 0 <= i < adds.len() && adds[i].0 == k) && m.dom().contains(k)
            ==> apply_adds(m, adds)[k] == m[k],
    decreases adds.len(),
{
    if adds.len() > 0 {
        let first = adds.first();
        let rest = adds.drop_first();
        let m1 = m.insert(first.0, first.1);
        lemma_store_after_adds(m1, rest, k);
        assert forall|i: int| 0 <= i < rest.len() implies rest[i] == adds[i + 1] by {}
        if exists|i: int| 0 <= i < adds.len() && adds[i].0 == k {
            if exists|i: int| 0 <= i < rest.len() && rest[i].0 == k {
                let i = choose|i: int|
                    {
                        &&& 0 <= i < rest.len()
                        &&& rest[i].0 == k
                        &&& apply_adds(m1, rest)[k] == rest[i].1
                        &&& forall|j: int| i < j < rest.len() ==> rest[j].0 != k
                    };
                assert(adds[i + 1].0 == k);
                assert forall|j: int| i + 1 < j < adds.len() implies adds[j].0 != k by {
                    assert(rest[j - 1] == adds[j]);
                }
                assert(apply_adds(m, adds)[k] == adds[i + 1].1);
            } else {
                let i0 = choose|i: int| 0 <= i < adds.len() && adds[i].0 == k;
                if i0 >= 1 {
                    assert(rest[i0 - 1].0 == k);
                }
                assert(adds[0].0 == k);
                assert(m1.dom().contains(k) && m1[k] == first.1);
                assert(apply_adds(m, adds)[k] == first.1);
                assert forall|j: int| 0 < j < adds.len() implies adds[j].0 != k by {
                    assert(rest[j - 1] == adds[j]);
                }
            }
        } else {
            assert forall|i: int| 0 <= i < rest.len() implies rest[i].0 != k by {
                assert(rest[i] == adds[i + 1]);
            }
            assert(adds[0].0 != k);
            if m.dom().contains(k) {
                assert(m1[k] == m[k]);
            }
        }
    }
}

/// A key is in the map of a cell sequence exactly when some cell carries it.
pub proof fn lemma_map_of_dom<R>(cells: Seq<ResourceCell<R>>, k: TypeKey)
    ensures
        map_of(cells).dom().contains(k) <==> exists|i: int|
            0 <= i < cells.len() && cells[i].key == k,
    decreases cells.len(),
{
    if cells.len() > 0 {
        lemma_map_of_dom(cells.drop_last(), k);
        if cells.last().key == k {
            assert(cells[cells.len() - 1].key == k);
        } else {
            if exists|i: int| 0 <= i < cells.len() && cells[i].key == k {
                let i = choose|i: int| 0 <= i < cells.len() && cells[i].key == k;
                assert(cells.drop_last()[i] == cells[i]);
            }
            if exists|i: int| 0 <= i < cells.drop_last().len() && cells.drop_last()[i].key == k {
                let i = choose|i: int|
                    0 <= i < cells.drop_last().len() && cells.drop_last()[i].key == k;
                assert(cells[i].key == k);
            }
        }
    }
}

/// With distinct keys, the map sends each cell's key to that cell's value.
pub proof fn lemma_map_of_at<R>(cells: Seq<ResourceCell<R>>, i: int)
    requires
        keys_unique(cells),
        0 <= i < cells.len(),
    ensures
        map_of(cells).dom().contains(cells[i].key),
        map_of(cells)[cells[i].key] == cells[i].value,
    decreases cells.len(),
{
    if i == cells.len() - 1 {
    } else {
        assert(cells.drop_last()[i] == cells[i]);
        lemma_map_of_at(cells.drop_last(), i);
        assert(cells.last().key != cells[i].key);
    }
}

/// Replacing the value of one cell inserts into the map of the sequence.
pub proof fn lemma_map_of_update<R>(cells: Seq<ResourceCell<R>>, i: int, value: R)
    requires
        keys_unique(cells),
        0 <= i < cells.len(),
    ensures
        map_of(cells.update(i, ResourceCell { key: cells[i].key, value }))
            == map_of(cells).insert(cells[i].key, value),
    decreases cells.len(),
{
    let updated = cells.update(i, ResourceCell { key: cells[i].key, value });
    if i == cells.len() - 1 {
        assert(updated.drop_last() =~= cells.drop_last());
        assert(map_of(updated) =~= map_of(cells).insert(cells[i].key, value));
    } else {
        assert(updated.drop_last() =~= cells.drop_last().update(i, ResourceCell { key: cells[i].key, value }));
        assert(cells.drop_last()[i] == cells[i]);
        lemma_map_of_update(cells.drop_last(), i, value);
        assert(cells.last().key != cells[i].key);
        assert(map_of(updated) =~= map_of(cells).insert(cells[i].key, value));
    }
}

/// Replacing one cell by another with the same key keeps the keys
/// pairwise distinct and inserts into the map of the sequence.
pub proof fn lemma_map_of_update_cell<R>(cells: Seq<ResourceCell<R>>, i: int, c: ResourceCell<R>)
    requires
        keys_unique(cells),
        0 <= i < cells.len(),
        c.key == cells[i].key,
    ensures
        keys_unique(cells.update(i, c)),
        map_of(cells.update(i, c)) == map_of(cells).insert(c.key, c.value),
{
    lemma_map_of_update(cells, i, c.value);
    assert(ResourceCell { key: cells[i].key, value: c.value } == c);
    assert forall|a: int, b: int|
        0 <= a < b < cells.len() implies cells.update(i, c)[a].key != cells.update(
        i,
        c,
    )[b].key by {
        assert(cells[a].key != cells[b].key);
    }
}

/// Taking one cell out removes its key from the map of the sequence.
pub proof fn lemma_map_of_remove<R>(cells: Seq<ResourceCell<R>>, i: int)
    requires
        keys_unique(cells),
        0 <= i < cells.len(),
    ensures
        map_of(cells.remove(i)) == map_of(cells).remove(cells[i].key),
    decreases cells.len(),
{
    if i == cells.len() - 1 {
        assert(cells.remove(i) =~= cells.drop_last());
        lemma_map_of_dom(cells.drop_last(), cells[i].key);
        assert(map_of(cells.remove(i)) =~= map_of(cells).remove(cells[i].key));
    } else {
        assert(cells.remove(i).drop_last() =~= cells.drop_last().remove(i));
        assert(cells.remove(i).last() == cells.last());
        assert(cells.drop_last()[i] == cells[i]);
        lemma_map_of_remove(cells.drop_last(), i);
        assert(cells.last().key != cells[i].key);
        assert(map_of(cells.remove(i)) =~= map_of(cells).remove(cells[i].key));
    }
}

/// A container of singleton resources, one per key.
pub struct State<R> {
    cells: Vec<ResourceCell<R>>,
}

impl<R> State<R> {
    /// The raw entry sequence behind the store.
    pub closed spec fn entries(&self) -> Seq<ResourceCell<R>> {
        self.cells@
    }

    /// Well-formed: at most one entry per key.
    pub open spec fn wf(&self) -> bool {
        keys_unique(self.entries())
    }

    /// Creates an empty store.
    pub fn new() -> (s: State<R>)
        ensures
            s@ == Map::<TypeKey, R>::empty(),
            s.wf(),
            s.entries().len() == 0,
    {
        State { cells: Vec::new() }
    }

    /// Adds the single value kept under `key`, replacing and dropping any
    /// prior value of that key.
    pub fn add(&mut self, key: TypeKey, value: R)
        requires
            old(self).wf(),
        ensures
            final(self).wf(),
            final(self)@ == old(self)@.insert(key, value),
    {
        let ghost cells0 = self.cells@;
        let n = self.cells.len();
        let mut i: usize = 0;
        while i < n
            invariant
                n == self.cells@.len(),
                i <= n,
                self.cells@ == cells0,
                cells0 == old(self).entries(),
                keys_unique(cells0),
                forall|j: int| 0 <= j < i ==> cells0[j].key != key,
            decreases n - i,
        {
            if self.cells[i].key == key {
                proof {
                    lemma_map_of_update(cells0, i as int, value);
                }
                self.cells[i] = ResourceCell { key, value };
                proof {
                    assert(self.cells@ =~= cells0.update(i as int, ResourceCell { key, value }));
                    assert forall|a: int, b: int|
                        0 <= a < b < self.cells@.len() implies self.cells@[a].key
                        != self.cells@[b].key by {
                        assert(cells0[a].key != cells0[b].key);
                    }
                }
                return;
            }
            i += 1;
        }
        self.cells.push(ResourceCell { key, value });
        proof {
            assert(self.cells@.drop_last() =~= cells0);
            lemma_map_of_dom(cells0, key);
            assert forall|a: int, b: int|
                0 <= a < b < self.cells@.len() implies self.cells@[a].key
                != self.cells@[b].key by {
                if b < cells0.len() {
                    assert(cells0[a].key != cells0[b].key);
                }
            }
        }
    }

    /// Whether a value is kept under `key`.  No borrowing is involved.
    pub fn has(&self, key: TypeKey) -> (r: bool)
        ensures
            r == self@.dom().contains(key),
    {
        proof {
            lemma_map_of_dom(self.entries(), key);
        }
        let n = self.cells.len();
        let mut i: usize = 0;
        while i < n
            invariant
                n == self.cells@.len(),
                i <= n,
                forall|j: int| 0 <= j < i ==> self.cells@[j].key != key,
            decreases n - i,
        {
            if self.cells[i].key == key {
                proof {
                    lemma_map_of_dom(self.entries(), key);
                }
                return true;
            }
            i += 1;
        }
        false
    }

    /// Resolves a shared read request: a reference to the value kept under
    /// the requested key, or `MissingResource` when the key was never
    /// added.  Through a live `&self` no conflicting borrow can exist, so
    /// this never reports a conflict.
    pub fn get(&self, res: Res) -> (r: Result<&R, AccessError>)
        requires
            self.wf(),
        ensures
            match r {
                Ok(v) => self@.dom().contains(res.key) && *v == self@[res.key],
                Err(e) => !self@.dom().contains(res.key)
                    && e == AccessError::MissingResource(res.key),
            },
    {
        proof {
            lemma_map_of_dom(self.entries(), res.key);
        }
        let n = self.cells.len();
        let mut i: usize = 0;
        while i < n
            invariant
                n == self.cells@.len(),
                i <= n,
                self.wf(),
                forall|j: int| 0 <= j < i ==> self.cells@[j].key != res.key,
            decreases n - i,
        {
            if self.cells[i].key == res.key {
                proof {
                    lemma_map_of_at(self.entries(), i as int);
                }
                return Ok(&self.cells[i].value);
            }
            i += 1;
        }
        Err(AccessError::MissingResource(res.key))
    }

    /// Resolves an exclusive read-write request: a mutable reference to
    /// the value kept under the requested key.  Through a live `&mut
    /// self` no other borrow can exist, so no conflict can arise; and
    /// requesting a key that was never added is a wiring bug, excluded
    /// here and aborting loudly at run time, so a direct caller that
    /// cannot rule it out probes with `has` first.  The handler path
    /// reports the same situation as a `MissingResource` value instead.
    pub fn get_mut(&mut self, res: ResMut) -> (v: &mut R)
        requires
            old(self).wf(),
            old(self)@.dom().contains(res.key),
        ensures
            *v == old(self)@[res.key],
            final(self).wf(),
            final(self)@ == old(self)@.insert(res.key, *final(v)),
    {
        let ghost cells0 = self.cells@;
        let n = self.cells.len();
        let mut i: usize = 0;
        while i < n
            invariant
                n == self.cells@.len(),
                i <= n,
                self.cells@ == cells0,
                cells0 == old(self).entries(),
                keys_unique(cells0),
                map_of(cells0).dom().contains(res.key),
                forall|j: int| 0 <= j < i ==> cells0[j].key != res.key,
            decreases n - i,
        {
            if self.cells[i].key == res.key {
                proof {
                    lemma_map_of_at(cells0, i as int);
                    assert forall|c: ResourceCell<R>|
                        c.key == cells0[i as int].key implies keys_unique(
                        #[trigger] cells0.update(i as int, c),
                    ) && map_of(cells0.update(i as int, c)) == map_of(cells0).insert(
                        c.key,
                        c.value,
                    ) by {
                        lemma_map_of_update_cell(cells0, i as int, c);
                    }
                }
                return &mut self.cells[i].value;
            }
            i += 1;
        }
        proof {
            lemma_map_of_dom(cells0, res.key);
        }
        vstd::pervasive::unreached()
    }

    /// Takes the value kept under `key` out of the store, if any.
    pub(crate) fn remove(&mut self, key: TypeKey) -> (r: Option<R>)
        requires
            old(self).wf(),
        ensures
            final(self).wf(),
            match r {
                Some(_) => old(self)@.dom().contains(key),
                None => !old(self)@.dom().contains(key) && *final(self) == *old(self),
            },
            r matches Some(v) ==> v == old(self)@[key],
            final(self)@ == old(self)@.remove(key),
    {
        let ghost cells0 = self.cells@;
        let n = self.cells.len();
        let mut i: usize = 0;
        while i < n
            invariant
                n == self.cells@.len(),
                i <= n,
                self.cells@ == cells0,
                cells0 == old(self).entries(),
                keys_unique(cells0),
                *self == *old(self),
                forall|j: int| 0 <= j < i ==> cells0[j].key != key,
            decreases n - i,
        {
            if self.cells[i].key == key {
                proof {
                    lemma_map_of_at(cells0, i as int);
                    lemma_map_of_remove(cells0, i as int);
                }
                let cell = self.cells.remove(i);
                proof {
                    assert(self.cells@ =~= cells0.remove(i as int));
                    assert forall|a: int, b: int|
                        0 <= a < b < self.cells@.len() implies self.cells@[a].key
                        != self.cells@[b].key by {
                        let a0: int = if a < i { a } else { a + 1 };
                        let b0: int = if b < i { b } else { b + 1 };
                        assert(self.cells@[a] == cells0[a0]);
                        assert(self.cells@[b] == cells0[b0]);
                    }
                }
                return Some(cell.value);
            }
            i += 1;
        }
        proof {
            lemma_map_of_dom(cells0, key);
            assert(self@ =~= old(self)@.remove(key));
        }
        None
    }

    /// Moves every entry of `other` into this store, in `other`'s own
    /// order, overwriting on key collision; `other` is empty afterwards.
    pub fn merge(&mut self, other: &mut State<R>)
        requires
            old(self).wf(),
            old(other).wf(),
        ensures
            final(self).wf(),
            final(self)@ == old(self)@.union_prefer_right(old(other)@),
            final(other).wf(),
            final(other)@ == Map::<TypeKey, R>::empty(),
            final(other).entries().len() == 0,
    {
        let ghost others0 = other.cells@;
        let ghost n0 = others0.len() as int;
        proof {
            assert(other.cells@ =~= others0.skip(0));
            assert(others0.take(0) =~= Seq::<ResourceCell<R>>::empty());
            assert(self@ =~= old(self)@.union_prefer_right(map_of(others0.take(0))));
        }
        while other.cells.len() > 0
            invariant
                self.wf(),
                keys_unique(others0),
                n0 == others0.len(),
                other.cells@.len() <= n0,
                other.cells@ == others0.skip(n0 - other.cells@.len()),
                self@ == old(self)@.union_prefer_right(
                    map_of(others0.take(n0 - other.cells@.len())),
                ),
            decreases other.cells@.len(),
        {
            let ghost done = n0 - other.cells@.len();
            let cell = other.cells.remove(0);
            proof {
                assert(others0.skip(done)[0] == others0[done]);
                assert(cell == others0[done]);
                assert(other.cells@ =~= others0.skip(done + 1));
            }
            self.add(cell.key, cell.value);
            proof {
                assert(others0.take(done + 1).drop_last() =~= others0.take(done));
                assert(others0.take(done + 1).last() == others0[done]);
                assert(map_of(others0.take(done + 1))
                    == map_of(others0.take(done)).insert(cell.key, cell.value));
                assert(self@ =~= old(self)@.union_prefer_right(map_of(others0.take(done + 1))));
            }
        }
        proof {
            assert(others0.take(n0) =~= others0);
        }
    }

    /// Empties the store, yielding every entry as a key-value pair, in the
    /// store's own order.
    pub fn drain(&mut self) -> (r: Vec<(TypeKey, R)>)
        ensures
            final(self)@ == Map::<TypeKey, R>::empty(),
            final(self).wf(),
            final(self).entries().len() == 0,
            r@.len() == old(self).entries().len(),
            forall|i: int| 0 <= i < r@.len()
                ==> r@[i] == (old(self).entries()[i].key, old(self).entries()[i].value),
    {
        let ghost cells0 = self.cells@;
        let mut r: Vec<(TypeKey, R)> = Vec::new();
        while self.cells.len() > 0
            invariant
                r@.len() + self.cells@.len() == cells0.len(),
                self.cells@ =~= cells0.skip(r@.len() as int),
                forall|i: int| 0 <= i < r@.len()
                    ==> r@[i] == (cells0[i].key, cells0[i].value),
            decreases self.cells@.len(),
        {
            let ghost done = r@.len() as int;
            let cell = self.cells.remove(0);
            assert(cell == cells0[done]);
            r.push((cell.key, cell.value));
            proof {
                assert(self.cells@ =~= cells0.skip(done + 1));
            }
        }
        r
    }

    /// A read-only reference to all entries of the store.
    pub fn all(&self) -> (r: &Vec<ResourceCell<R>>)
        ensures
            r@ == self.entries(),
    {
        &self.cells
    }

    /// A mutable reference to all entries of the store.  A caller that
    /// duplicates a key through it leaves the store outside `wf`, as the
    /// relation between the reference and the store records.
    pub fn all_mut(&mut self) -> (r: &mut Vec<ResourceCell<R>>)
        ensures
            r@ == old(self).entries(),
            final(self).entries() == final(r)@,
    {
        &mut self.cells
    }
}

impl<R> Default for State<R> {
    /// The empty store.
    fn default() -> (s: Self)
        ensures
            s@ == Map::<TypeKey, R>::empty(),
            s.wf(),
            s.entries().len() == 0,
    {
        State { cells: Vec::new() }
    }
}

impl<R> View for State<R> {
    type V = Map<TypeKey, R>;

    open spec fn view(&self) -> Map<TypeKey, R> {
        map_of(self.entries())
    }
}

} // verus!
