//! The connection registry: the one piece of shared mutable state of the
//! relay. It maps each connected client's identifier to the exclusively
//! owned outbound write handle of that connection. The surrounding program
//! wraps a `Registry` in its exclusive-access mechanism and holds that
//! access across each whole operation; the registry itself is responsible
//! for keeping the mapping consistent: at most one entry per identifier,
//! insertion replaces, removal of an absent identifier is a no-op.

use vstd::prelude::*;

verus! {

/// One registry entry: a connection identifier paired with the outbound
/// write handle of that connection.
struct Entry<W> {
    id: String,
    handle: W,
}

/// A mapping from connection identifier to outbound write handle, with at
/// most one entry per identifier.
///
/// Abstractly (through `view`) a registry is the finite map from identifier
/// — as a sequence of characters — to handle. Concretely the entries sit in
/// a vector whose order is exposed through `ids`, `id_at` and `handle_at`,
/// so that a broadcast can walk one consistent snapshot of the recipients.
pub struct Registry<W> {
    entries: Vec<Entry<W>>,
}

impl<W> Registry<W> {
    /// The identifiers in entry order.
    pub closed spec fn ids(&self) -> Seq<Seq<char>> {
        self.entries@.map_values(|e: Entry<W>| e.id@)
    }

    /// The handles in entry order.
    pub closed spec fn handles(&self) -> Seq<W> {
        self.entries@.map_values(|e: Entry<W>| e.handle)
    }

    /// Well-formedness: no identifier occurs twice.
    pub open spec fn wf(&self) -> bool {
        self.ids().no_duplicates()
    }

    spec fn index_of(&self, id: Seq<char>) -> int {
        choose|k: int| 0 <= k < self.ids().len() && self.ids()[k] == id
    }

    /// An empty registry, as created once at process start.
    pub fn new() -> (r: Registry<W>)
        ensures
            r.wf(),
            r@ == Map::<Seq<char>, W>::empty(),
            r.ids() == Seq::<Seq<char>>::empty(),
    {
        let r = Registry { entries: Vec::new() };
        proof {
            assert(r.ids() =~= Seq::<Seq<char>>::empty());
            assert(r@ =~= Map::<Seq<char>, W>::empty());
        }
        r
    }

    /// How many clients are currently registered.
    pub fn len(&self) -> (n: usize)
        ensures
            n == self.ids().len(),
    {
        self.entries.len()
    }

    /// The position of `id` among the entries, if it is registered.
    fn find(&self, id: &String) -> (r: Option<usize>)
        ensures
            match r {
                Some(i) => i < self.ids().len() && self.ids()[i as int] == id@,
                None => !self.ids().contains(id@),
            },
    {
        let n = self.entries.len();
        for i in 0..n
            invariant
                n == self.ids().len(),
                forall|k: int| 0 <= k < i ==> self.ids()[k] != id@,
        {
            if self.entries[i].id == *id {
                return Some(i);
            }
        }
        None
    }

    /// Whether `id` is currently registered.
    pub fn contains(&self, id: &String) -> (r: bool)
        requires
            self.wf(),
        ensures
            r == self@.dom().contains(id@),
    {
        proof {
            self.lemma_view_characterization();
        }
        self.find(id).is_some()
    }
}

impl<W> View for Registry<W> {
    type V = Map<Seq<char>, W>;

    /// The registry as a finite map from identifier to handle.
    closed spec fn view(&self) -> Map<Seq<char>, W> {
        Map::new(
            |id: Seq<char>| self.ids().contains(id),
            |id: Seq<char>| self.handles()[self.index_of(id)],
        )
    }
}

impl<W> Registry<W> {
    /// A snapshot has at most `usize::MAX` entries, as it sits in memory.
    pub proof fn lemma_len_bounded(&self)
        ensures
            self.ids().len() <= usize::MAX,
    {
        let n: usize = self.entries.len();
        assert(n == self.entries@.len());
    }

    /// With distinct identifiers, the index chosen for an identifier is the
    /// one position where it occurs.
    proof fn lemma_index_unique(&self, k: int, id: Seq<char>)
        requires
            self.wf(),
            0 <= k < self.ids().len(),
            self.ids()[k] == id,
        ensures
            self.index_of(id) == k,
    {
        assert(exists|j: int| 0 <= j < self.ids().len() && self.ids()[j] == id);
        let j = self.index_of(id);
        if j != k {
            assert(false);
        }
    }

    /// Registers `id` with its outbound handle: adds the entry, or replaces
    /// the one already present for `id`. New identifiers take the last
    /// position of the snapshot order; a replacement keeps its position.
    pub fn insert(&mut self, id: String, handle: W)
        requires
            old(self).wf(),
        ensures
            final(self).wf(),
            final(self)@ == old(self)@.insert(id@, handle),
            old(self)@.contains_key(id@) ==> final(self).ids() == old(self).ids(),
            !old(self)@.contains_key(id@) ==> final(self).ids() == old(self).ids().push(id@),
    {
        proof {
            self.lemma_view_characterization();
        }
        match self.find(&id) {
            Some(i) => {
                let ghost pre = *self;
                let slot = &mut self.entries[i];
                slot.id = id;
                slot.handle = handle;
                proof {
                    assert(self.ids() =~= pre.ids());
                    assert(self.handles() =~= pre.handles().update(i as int, handle));
                    assert(pre.ids().contains(id@));
                    pre.lemma_index_unique(i as int, id@);
                    self.lemma_index_unique(i as int, id@);
                    assert forall|x: Seq<char>| #![all_triggers]
                        self@.dom().contains(x) == pre@.insert(id@, handle).dom().contains(x)
                        && (self@.dom().contains(x) ==> self@[x] == pre@.insert(id@, handle)[x]) by {
                        if self.ids().contains(x) {
                            assert(pre.ids().contains(x));
                            let j = self.index_of(x);
                            assert(0 <= j < self.ids().len() && self.ids()[j] == x);
                            pre.lemma_index_unique(j, x);
                            if x == id@ {
                                assert(j == i as int);
                                assert(self.handles()[i as int] == handle);
                            } else {
                                assert(j != i as int);
                                assert(pre@[x] == pre.handles()[j]);
                            }
                        } else {
                            assert(!pre.ids().contains(x));
                            assert(x != id@);
                        }
                    }
                    assert(self@ =~= pre@.insert(id@, handle));
                }
            },
            None => {
                let ghost pre = *self;
                self.entries.push(Entry { id, handle });
                proof {
                    assert(self.ids() =~= pre.ids().push(id@));
                    assert(self.handles() =~= pre.handles().push(handle));
                    let n = pre.ids().len() as int;
                    assert(self.ids()[n] == id@);
                    assert(self.ids().contains(id@));
                    assert forall|k: int| 0 <= k < n implies self.ids()[k] != id@ by {
                        if self.ids()[k] == id@ {
                            assert(pre.ids()[k] == id@);
                            assert(pre.ids().contains(id@));
                        }
                    }
                    assert(self.wf());
                    assert forall|x: Seq<char>| #![all_triggers]
                        self@.dom().contains(x) == pre@.insert(id@, handle).dom().contains(x)
                        && (self@.dom().contains(x) ==> self@[x] == pre@.insert(id@, handle)[x]) by {
                        if self.ids().contains(x) {
                            let j = self.index_of(x);
                            assert(0 <= j < self.ids().len() && self.ids()[j] == x);
                            if x == id@ {
                                self.lemma_index_unique(n, id@);
                                assert(self@[x] == self.handles()[n]);
                                assert(self.handles()[n] == handle);
                            } else {
                                assert(j < n && pre.ids()[j] == x);
                                assert(pre.ids().contains(x));
                                pre.lemma_index_unique(j, x);
                                assert(self.handles()[j] == pre.handles()[j]);
                                assert(pre@[x] == pre.handles()[j]);
                            }
                            assert(self@.dom().contains(x));
                            assert(pre@.insert(id@, handle).dom().contains(x));
                        } else {
                            assert(x != id@);
                            assert(!pre.ids().contains(x)) by {
                                if pre.ids().contains(x) {
                                    let j = choose|j: int|
                                        0 <= j < pre.ids().len() && pre.ids()[j] == x;
                                    assert(self.ids()[j] == x);
                                }
                            }
                            assert(!self@.dom().contains(x));
                            assert(!pre@.insert(id@, handle).dom().contains(x));
                        }
                    }
                    assert(self@ =~= pre@.insert(id@, handle));
                }
            },
        }
    }

    /// Deregisters `id`: deletes its entry if present; doing nothing — not
    /// an error — if it is absent.
    pub fn remove(&mut self, id: &String)
        requires
            old(self).wf(),
        ensures
            final(self).wf(),
            final(self)@ == old(self)@.remove(id@),
            !final(self)@.contains_key(id@),
    {
        proof {
            self.lemma_view_characterization();
        }
        match self.find(id) {
            None => {
                proof {
                    assert(self@ =~= old(self)@.remove(id@));
                }
            },
            Some(i) => {
                let ghost pre = *self;
                self.entries.remove(i);
                proof {
                    pre.entries@.remove_ensures(i as int);
                    assert(self.ids() =~= pre.ids().remove(i as int));
                    assert(self.handles() =~= pre.handles().remove(i as int));
                    pre.ids().remove_ensures(i as int);
                    pre.handles().remove_ensures(i as int);
                    assert forall|k1: int, k2: int|
                        0 <= k1 < k2 < self.ids().len() implies self.ids()[k1]
                        != self.ids()[k2] by {
                        let o1: int = if k1 < i { k1 } else { k1 + 1 };
                        let o2: int = if k2 < i { k2 } else { k2 + 1 };
                        assert(self.ids()[k1] == pre.ids()[o1]);
                        assert(self.ids()[k2] == pre.ids()[o2]);
                    }
                    assert forall|x: Seq<char>| #![all_triggers]
                        self@.dom().contains(x) == pre@.remove(id@).dom().contains(x)
                        && (self@.dom().contains(x) ==> self@[x] == pre@.remove(id@)[x]) by {
                        if self.ids().contains(x) {
                            let j = self.index_of(x);
                            assert(0 <= j < self.ids().len() && self.ids()[j] == x);
                            let oj: int = if j < i { j } else { j + 1 };
                            assert(pre.ids()[oj] == x);
                            pre.lemma_index_unique(oj, x);
                            assert(x != id@) by {
                                pre.lemma_index_unique(i as int, id@);
                            }
                        } else {
                            if pre.ids().contains(x) && x != id@ {
                                let oj = pre.index_of(x);
                                assert(0 <= oj < pre.ids().len() && pre.ids()[oj] == x);
                                pre.lemma_index_unique(i as int, id@);
                                let j: int = if oj < i { oj } else { oj - 1 };
                                assert(self.ids()[j] == x);
                            }
                        }
                    }
                    assert(self@ =~= pre@.remove(id@));
                }
            },
        }
    }

    /// The identifier at position `i` of the snapshot order.
    pub fn id_at(&self, i: usize) -> (r: &String)
        requires
            i < self.ids().len(),
        ensures
            r@ == self.ids()[i as int],
    {
        &self.entries[i].id
    }

    /// Exclusive access to the handle at position `i` of the snapshot
    /// order, for one outbound write; the identifiers are untouched.
    pub fn handle_at(&mut self, i: usize) -> (r: &mut W)
        requires
            i < old(self).ids().len(),
        ensures
            *r == old(self).handles()[i as int],
            final(self).ids() =~= old(self).ids(),
            final(self).handles() =~= old(self).handles().update(i as int, *final(r)),
    {
        &mut self.entries[i].handle
    }

    /// Relates the abstract map to the entry order: the map's domain is
    /// exactly the set of identifiers, and each position's handle is the
    /// one the map associates with that position's identifier.
    pub proof fn lemma_view_characterization(&self)
        requires
            self.wf(),
        ensures
            self@.dom() =~= self.ids().to_set(),
            forall|k: int|
                0 <= k < self.ids().len() ==> self@.contains_key(#[trigger] self.ids()[k])
                    && self@[self.ids()[k]] == self.handles()[k],
    {
        assert forall|k: int| 0 <= k < self.ids().len() implies self@.contains_key(
            #[trigger] self.ids()[k],
        ) && self@[self.ids()[k]] == self.handles()[k] by {
            let id = self.ids()[k];
            assert(self.ids().contains(id));
            let j = self.index_of(id);
            assert(0 <= j < self.ids().len() && self.ids()[j] == id);
            if j != k {
                assert(false);
            }
        }
        assert forall|id: Seq<char>| self.ids().to_set().contains(id) implies self@.dom().contains(
            id,
        ) by {
            assert(self.ids().contains(id));
        }
    }

    /// At most one entry per identifier: the number of entries is the
    /// number of registered identifiers.
    pub proof fn lemma_one_entry_per_client(&self)
        requires
            self.wf(),
        ensures
            self.ids().len() == self@.dom().len(),
    {
        self.lemma_view_characterization();
        self.ids().unique_seq_to_set();
    }
}

/// The abstract registry contents after a sequence of client
/// registrations, each inserting its identifier with its handle, applied
/// in the order in which the concurrent connects were serialized.
pub open spec fn after_connects<W>(
    m: Map<Seq<char>, W>,
    ids: Seq<Seq<char>>,
    handles: Seq<W>,
) -> Map<Seq<char>, W>
    decreases ids.len(),
{
    if ids.len() == 0 {
        m
    } else {
        after_connects(m.insert(ids[0], handles[0]), ids.skip(1), handles.skip(1))
    }
}

/// However a batch of concurrent connects is serialized, once all their
/// registrations have completed the registry holds exactly the
/// identifiers it held before together with the set of the newly
/// connected ones — none duplicated (a map's domain is a set), none
/// missing.
pub proof fn lemma_connects_fill_registry<W>(
    m: Map<Seq<char>, W>,
    ids: Seq<Seq<char>>,
    handles: Seq<W>,
)
    requires
        ids.len() == handles.len(),
    ensures
        after_connects(m, ids, handles).dom() == m.dom() + ids.to_set(),
    decreases ids.len(),
{
    if ids.len() == 0 {
        assert(ids.to_set() =~= Set::<Seq<char>>::empty());
        assert(m.dom() + ids.to_set() =~= m.dom());
    } else {
        lemma_connects_fill_registry(m.insert(ids[0], handles[0]), ids.skip(1), handles.skip(1));
        assert forall|x: Seq<char>|
            ids.to_set().contains(x) == (x == ids[0] || ids.skip(1).to_set().contains(x)) by {
            if ids.contains(x) {
                let j = choose|j: int| 0 <= j < ids.len() && ids[j] == x;
                if j != 0 {
                    assert(ids.skip(1)[j - 1] == x);
                }
            }
            if ids.skip(1).contains(x) {
                let j = choose|j: int| 0 <= j < ids.skip(1).len() && ids.skip(1)[j] == x;
                assert(ids[j + 1] == x);
            }
        }
        assert(after_connects(m, ids, handles).dom() =~= m.dom() + ids.to_set());
    }
}

/// Once an identifier is out of the registry, other clients'
/// registrations and removals leave it out: only a new registration of
/// that identifier itself can put it back.
pub proof fn lemma_absence_is_stable<W>(
    m: Map<Seq<char>, W>,
    other: Seq<char>,
    handle: W,
    gone: Seq<char>,
)
    requires
        !m.dom().contains(gone),
        other != gone,
    ensures
        !m.insert(other, handle).dom().contains(gone),
        !m.remove(other).dom().contains(gone),
{
}

} // verus!
