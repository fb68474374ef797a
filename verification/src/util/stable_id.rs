use vstd::prelude::*;

verus! {

/// A handle into an `IdMapper`: the slot it names and the generation of that
/// slot it was issued for.
#[derive(Clone, Copy, PartialEq, Eq, Debug)]
pub struct Id {
    index: usize,
    generation: usize,
}

/// Where the item of a slot sits in the item list, and the slot's generation.
#[derive(Clone, Copy, Debug)]
pub struct PermutationElement {
    position: usize,
    generation: usize,
}

/// Hands out slot indices, reusing freed ones (most recently freed first).
#[derive(Debug)]
struct FreeIdManager {
    known_free_ids: Vec<Id>,
    trailing_free_ids: usize,
}

/// A table of items addressed by generational ids.
#[derive(Debug)]
pub struct IdMapper<T> {
    permutation_mapper: Vec<Option<PermutationElement>>,
    items: Vec<(usize, T)>,
    free_ids: FreeIdManager,
}

impl Id {
    /// The slot this id names.
    pub closed spec fn slot(self) -> usize {
        self.index
    }

    /// The generation of the slot this id was issued for.
    pub closed spec fn generation(self) -> usize {
        self.generation
    }
}

impl PermutationElement {
    /// Where the slot's item sits in the item list.
    pub closed spec fn position(self) -> usize {
        self.position
    }

    /// The slot's current generation.
    pub closed spec fn generation(self) -> usize {
        self.generation
    }
}

impl FreeIdManager {
    spec fn next_id(&self) -> Id {
        if self.known_free_ids@.len() > 0 {
            self.known_free_ids@.last()
        } else {
            Id { index: self.trailing_free_ids, generation: 0 }
        }
    }

    fn get_new_id(&mut self) -> (id: Id)
        requires
            old(self).known_free_ids@.len() == 0 ==> old(self).trailing_free_ids < usize::MAX,
        ensures
            id == old(self).next_id(),
            old(self).known_free_ids@.len() > 0 ==> {
                &&& final(self).known_free_ids@ == old(self).known_free_ids@.drop_last()
                &&& final(self).trailing_free_ids == old(self).trailing_free_ids
            },
            old(self).known_free_ids@.len() == 0 ==> {
                &&& final(self).known_free_ids@ == old(self).known_free_ids@
                &&& final(self).trailing_free_ids == old(self).trailing_free_ids + 1
            },
    {
        match self.known_free_ids.pop() {
            Some(id) => id,
            None => {
                let id = self.trailing_free_ids;
                self.trailing_free_ids = id + 1;
                Id { index: id, generation: 0 }
            },
        }
    }

    fn free_id(&mut self, id: Id)
        requires
            id.generation < usize::MAX,
        ensures
            final(self).known_free_ids@ == old(self).known_free_ids@.push(
                Id { index: id.index, generation: (id.generation + 1) as usize },
            ),
            final(self).trailing_free_ids == old(self).trailing_free_ids,
            final(self).next_id() == (Id { index: id.index, generation: (id.generation + 1) as usize }),
    {
        self.known_free_ids.push(Id { index: id.index, generation: id.generation + 1 });
    }
}

/// Slot `s` exists and points at position `i` of the item list.
spec fn slot_points_at(mapper: Seq<Option<PermutationElement>>, s: int, i: int) -> bool {
    &&& 0 <= s < mapper.len()
    &&& mapper[s] is Some
    &&& mapper[s]->0.position == i
}

/// Slot `s` exists and holds an item.
spec fn occupied(mapper: Seq<Option<PermutationElement>>, s: int) -> bool {
    0 <= s < mapper.len() && mapper[s] is Some
}

impl<T> IdMapper<T> {
    /// The slot table has one slot per id index ever handed out; every item
    /// and the slot that names it point at each other; filled slots lie below
    /// the fresh-id counter; freed ids name distinct, empty slots below it.
    pub closed spec fn wf(&self) -> bool {
        let mapper = self.permutation_mapper@;
        let items = self.items@;
        let free = self.free_ids.known_free_ids@;
        let trailing = self.free_ids.trailing_free_ids;
        &&& mapper.len() == trailing
        &&& forall|i: int|
            0 <= i < items.len() ==> #[trigger] slot_points_at(mapper, items[i].0 as int, i)
        &&& forall|s: int|
            #[trigger] occupied(mapper, s) ==> {
                &&& mapper[s]->0.position < items.len()
                &&& items[mapper[s]->0.position as int].0 == s
                &&& s < trailing
            }
        &&& forall|k: int|
            0 <= k < free.len() ==> (#[trigger] free[k]).index < trailing && !occupied(
                mapper,
                free[k].index as int,
            )
        &&& forall|k: int, l: int|
            0 <= k < l < free.len() ==> (#[trigger] free[k]).index != (#[trigger] free[l]).index
    }

    /// The slot table: for each slot index, where its item sits and its generation.
    pub closed spec fn slots(&self) -> Seq<Option<PermutationElement>> {
        self.permutation_mapper@
    }

    /// The items, each with the slot index it belongs to.
    pub closed spec fn entries(&self) -> Seq<(usize, T)> {
        self.items@
    }

    /// The freed ids waiting to be reused; the last one is reused first.
    pub closed spec fn free_ids(&self) -> Seq<Id> {
        self.free_ids.known_free_ids@
    }

    /// The lowest slot index never handed out.
    pub closed spec fn trailing_ids(&self) -> usize {
        self.free_ids.trailing_free_ids
    }

    /// The id that the next `push` hands out.
    pub closed spec fn next_id(&self) -> Id {
        self.free_ids.next_id()
    }

    /// The slot record that `id` names, if the slot exists, is filled, and has
    /// the id's generation.
    pub closed spec fn current_slot(&self, id: Id) -> Option<PermutationElement> {
        if 0 <= id.index < self.permutation_mapper@.len() {
            match self.permutation_mapper@[id.index as int] {
                Some(p) => if p.generation == id.generation {
                    Some(p)
                } else {
                    None
                },
                None => None,
            }
        } else {
            None
        }
    }

    /// The id under which the item at position `i` of the item list lives.
    pub closed spec fn entry_id(&self, i: int) -> Id {
        let s = self.items@[i].0;
        Id { index: s, generation: self.permutation_mapper@[s as int]->0.generation }
    }

    /// A slot that was handed out once and can never be handed out again: it
    /// lies below the fresh-id counter, holds nothing, and is not among the
    /// freed ids.
    pub closed spec fn retired(&self, s: usize) -> bool {
        &&& s < self.free_ids.trailing_free_ids
        &&& !occupied(self.permutation_mapper@, s as int)
        &&& forall|k: int|
            0 <= k < self.free_ids.known_free_ids@.len() ==> (#[trigger] self.free_ids.known_free_ids@[k]).index != s
    }

    proof fn lemma_entry_ids(&self)
        requires
            self.wf(),
        ensures
            forall|i: int|
                0 <= i < self.items@.len() ==> #[trigger] self.current_slot(self.entry_id(i))
                    == Some(self.permutation_mapper@[self.items@[i].0 as int]->0),
            forall|i: int, j: int|
                0 <= i < j < self.items@.len() ==> self.entry_id(i) != self.entry_id(j),
            forall|id: Id|
                #[trigger] self.current_slot(id) is Some ==> self.entry_id(
                    self.current_slot(id)->0.position as int,
                ) == id,
    {
        assert forall|i: int|
            0 <= i < self.items@.len() implies #[trigger] self.current_slot(self.entry_id(i))
            == Some(self.permutation_mapper@[self.items@[i].0 as int]->0) by {
            assert(slot_points_at(self.permutation_mapper@, self.items@[i].0 as int, i));
        }
        assert forall|i: int, j: int|
            0 <= i < j < self.items@.len() implies self.entry_id(i) != self.entry_id(j) by {
            assert(slot_points_at(self.permutation_mapper@, self.items@[i].0 as int, i));
            assert(slot_points_at(self.permutation_mapper@, self.items@[j].0 as int, j));
        }
        assert forall|id: Id| #[trigger] self.current_slot(id) is Some implies self.entry_id(
            self.current_slot(id)->0.position as int,
        ) == id by {
            assert(occupied(self.permutation_mapper@, id.index as int));
        }
    }

    /// Overwriting the item that a live id names keeps the table consistent
    /// and changes only that id's item.
    proof fn lemma_item_replaced(&self, id: Id)
        requires
            self.wf(),
            self.current_slot(id) is Some,
        ensures
            forall|after: IdMapper<T>|
                #![trigger after.wf()]
                #![trigger after.view()]
                after.permutation_mapper@ == self.permutation_mapper@ && after.free_ids
                    == self.free_ids && after.items@.len() == self.items@.len() && (forall|i: int|
                    0 <= i < self.items@.len() && i != self.current_slot(id)->0.position
                        ==> after.items@[i] == self.items@[i]) && after.items@[self.current_slot(
                    id,
                )->0.position as int].0 == self.items@[self.current_slot(id)->0.position as int].0
                    ==> after.wf() && after@ == self@.insert(
                    id,
                    after.items@[self.current_slot(id)->0.position as int].1,
                ),
    {
        let pos = self.current_slot(id)->0.position as int;
        assert(occupied(self.permutation_mapper@, id.index as int));
        assert forall|after: IdMapper<T>|
            after.permutation_mapper@ == self.permutation_mapper@ && after.free_ids == self.free_ids
                && after.items@.len() == self.items@.len() && (forall|i: int|
                0 <= i < self.items@.len() && i != pos ==> after.items@[i] == self.items@[i])
                && after.items@[pos].0 == self.items@[pos].0 implies after.wf() && after@
            == self@.insert(id, after.items@[pos].1) by {
            assert forall|i: int| 0 <= i < after.items@.len() implies #[trigger] slot_points_at(
                after.permutation_mapper@,
                after.items@[i].0 as int,
                i,
            ) by {
                assert(slot_points_at(self.permutation_mapper@, self.items@[i].0 as int, i));
            }
            assert forall|s: int| #[trigger] occupied(after.permutation_mapper@, s) implies {
                &&& after.permutation_mapper@[s]->0.position < after.items@.len()
                &&& after.items@[after.permutation_mapper@[s]->0.position as int].0 == s
                &&& s < after.free_ids.trailing_free_ids
            } by {
                assert(occupied(self.permutation_mapper@, s));
            }
            assert forall|other: Id| #[trigger] after@.contains_key(other) implies after@[other]
                == self@.insert(id, after.items@[pos].1)[other] by {
                assert(occupied(self.permutation_mapper@, other.index as int));
            }
            assert(after@ =~= self@.insert(id, after.items@[pos].1));
        }
    }

    pub fn new() -> (m: Self)
        ensures
            m.wf(),
            m@ == Map::<Id, T>::empty(),
            m.entries().len() == 0,
            m.free_ids().len() == 0,
            m.trailing_ids() == 0,
    {
        Self::with_capacity(0)
    }

    pub fn with_capacity(capacity: usize) -> (m: Self)
        ensures
            m.wf(),
            m@ == Map::<Id, T>::empty(),
            m.entries().len() == 0,
            m.free_ids().len() == 0,
            m.trailing_ids() == 0,
    {
        let m = IdMapper {
            permutation_mapper: Vec::with_capacity(capacity),
            items: Vec::with_capacity(capacity),
            free_ids: FreeIdManager {
                known_free_ids: Vec::with_capacity(capacity),
                trailing_free_ids: 0,
            },
        };
        assert(m@ =~= Map::<Id, T>::empty());
        m
    }

    /// Stores `item` under a fresh id: a freed slot if there is one (the one
    /// freed last), else a new slot at the end of the slot table.
    pub fn push(&mut self, item: T) -> (id: Id)
        requires
            old(self).wf(),
            old(self).free_ids().len() == 0 ==> old(self).trailing_ids() < usize::MAX,
        ensures
            final(self).wf(),
            id == old(self).next_id(),
            !old(self)@.contains_key(id),
            !old(self).retired(id.slot()),
            final(self)@ == old(self)@.insert(id, item),
            forall|s: usize| old(self).retired(s) ==> #[trigger] final(self).retired(s),
            final(self).entries() == old(self).entries().push((id.slot(), item)),
            final(self).free_ids() == (if old(self).free_ids().len() > 0 {
                old(self).free_ids().drop_last()
            } else {
                old(self).free_ids()
            }),
            final(self).trailing_ids() == (if old(self).free_ids().len() > 0 {
                old(self).trailing_ids() as int
            } else {
                old(self).trailing_ids() + 1
            }),
    {
        let ghost before = *self;
        let mut this = IdMapper::new();
        core::mem::swap(self, &mut this);
        let IdMapper { mut permutation_mapper, mut items, mut free_ids } = this;
        let id = free_ids.get_new_id();
        let position = items.len();
        let ghost old_mapper = permutation_mapper@;
        if id.index < permutation_mapper.len() {
            permutation_mapper.set(
                id.index,
                Some(PermutationElement { position, generation: id.generation }),
            );
        } else {
            permutation_mapper.push(Some(PermutationElement { position, generation: id.generation }));
        }
        items.push((id.index, item));
        proof {
            let free0 = before.free_ids.known_free_ids@;
            if free0.len() > 0 {
                assert(free0.last() == free0[free0.len() - 1]);
            }
            assert(!occupied(old_mapper, id.index as int));
            assert forall|i: int| 0 <= i < items@.len() implies #[trigger] slot_points_at(
                permutation_mapper@,
                items@[i].0 as int,
                i,
            ) by {
                if i < position {
                    assert(slot_points_at(old_mapper, before.items@[i].0 as int, i));
                }
            }
            assert forall|s: int| #[trigger] occupied(permutation_mapper@, s) implies {
                &&& permutation_mapper@[s]->0.position < items@.len()
                &&& items@[permutation_mapper@[s]->0.position as int].0 == s
                &&& s < free_ids.trailing_free_ids
            } by {
                if s != id.index {
                    assert(occupied(old_mapper, s));
                }
            }
            assert forall|k: int| 0 <= k < free_ids.known_free_ids@.len() implies (
            #[trigger] free_ids.known_free_ids@[k]).index < free_ids.trailing_free_ids && !occupied(
                permutation_mapper@,
                free_ids.known_free_ids@[k].index as int,
            ) by {
                assert(free_ids.known_free_ids@[k] == free0[k]);
                if free0.len() > 0 {
                    assert(free0[k].index != free0[free0.len() - 1].index);
                }
            }
            assert forall|k: int, l: int| 0 <= k < l < free_ids.known_free_ids@.len() implies (
            #[trigger] free_ids.known_free_ids@[k]).index != (
            #[trigger] free_ids.known_free_ids@[l]).index by {
                assert(free_ids.known_free_ids@[k] == free0[k]);
                assert(free_ids.known_free_ids@[l] == free0[l]);
            }
        }
        *self = IdMapper { permutation_mapper, items, free_ids };
        proof {
            assert forall|other: Id| #![trigger self@.contains_key(other)]
                before@.insert(id, item).contains_key(other) <==> self@.contains_key(other) by {
                if other.index != id.index && 0 <= other.index < old_mapper.len() && old_mapper[other.index as int] is Some {
                    assert(occupied(old_mapper, other.index as int));
                }
            }
            assert forall|other: Id| #[trigger] self@.contains_key(other) implies self@[other]
                == before@.insert(id, item)[other] by {
                if other != id {
                    assert(occupied(old_mapper, other.index as int));
                }
            }
            assert(self@ =~= before@.insert(id, item));
            assert forall|s: usize| before.retired(s) implies #[trigger] self.retired(s) by {
                if before.free_ids.known_free_ids@.len() > 0 {
                    let free0 = before.free_ids.known_free_ids@;
                    assert(free0[free0.len() - 1].index != s);
                }
            }
        }
        id
    }

    /// Removes and returns the item that `id` names. The item's slot is
    /// emptied for good, and the last item moves into the freed position.
    pub fn take(&mut self, id: Id) -> (res: Option<T>)
        requires
            old(self).wf(),
            old(self)@.contains_key(id) ==> old(self).current_slot(id)->0.position() + 1
                < old(self).entries().len(),
        ensures
            final(self).wf(),
            res == (if old(self)@.contains_key(id) {
                Some(old(self)@[id])
            } else {
                None
            }),
            final(self)@ == old(self)@.remove(id),
            old(self)@.contains_key(id) ==> final(self).retired(id.slot()),
            forall|s: usize| old(self).retired(s) ==> #[trigger] final(self).retired(s),
            final(self).next_id() == old(self).next_id(),
            final(self).free_ids() == old(self).free_ids(),
            final(self).trailing_ids() == old(self).trailing_ids(),
    {
        if id.index >= self.permutation_mapper.len() {
            return None;
        }
        let index = match self.permutation_mapper[id.index] {
            Some(p) => p,
            None => {
                return None;
            },
        };
        if index.generation != id.generation {
            return None;
        }
        let ghost before = *self;
        let mut this = IdMapper::new();
        core::mem::swap(self, &mut this);
        let IdMapper { mut permutation_mapper, mut items, free_ids } = this;
        let ghost m0 = permutation_mapper@;
        let ghost items0 = items@;
        proof {
            assert(occupied(m0, id.index as int));
            assert(slot_points_at(m0, items0.last().0 as int, items0.len() - 1));
        }
        let (permutation_index, out) = items.swap_remove(index.position);
        permutation_mapper.set(permutation_index, None);
        let modify_permutation_index = items[index.position].0;
        let perm_element = match permutation_mapper[modify_permutation_index] {
            Some(e) => e,
            None => {
                proof {
                    assert(false);
                }
                return None;
            },
        };
        permutation_mapper.set(
            modify_permutation_index,
            Some(
                PermutationElement {
                    position: index.position,
                    generation: perm_element.generation,
                },
            ),
        );
        let ghost moved = modify_permutation_index as int;
        let ghost pos = index.position as int;
        proof {
            assert forall|i: int| 0 <= i < items@.len() implies #[trigger] slot_points_at(
                permutation_mapper@,
                items@[i].0 as int,
                i,
            ) by {
                if i != pos {
                    assert(slot_points_at(m0, items0[i].0 as int, i));
                }
            }
            assert forall|s: int| #[trigger] occupied(permutation_mapper@, s) implies {
                &&& permutation_mapper@[s]->0.position < items@.len()
                &&& items@[permutation_mapper@[s]->0.position as int].0 == s
                &&& s < free_ids.trailing_free_ids
            } by {
                assert(occupied(m0, s));
                if s != moved {
                    let q = m0[s]->0.position as int;
                    assert(q != pos);
                    assert(q != items0.len() - 1);
                }
            }
            assert forall|k: int| 0 <= k < free_ids.known_free_ids@.len() implies (
            #[trigger] free_ids.known_free_ids@[k]).index < free_ids.trailing_free_ids && !occupied(
                permutation_mapper@,
                free_ids.known_free_ids@[k].index as int,
            ) by {
                assert(!occupied(m0, free_ids.known_free_ids@[k].index as int));
            }
        }
        *self = IdMapper { permutation_mapper, items, free_ids };
        proof {
            assert forall|other: Id| #![trigger self@.contains_key(other)]
                before@.remove(id).contains_key(other) <==> self@.contains_key(other) by {
                if 0 <= other.index < m0.len() && other.index != id.index && m0[other.index as int] is Some {
                    assert(occupied(m0, other.index as int));
                }
            }
            assert forall|other: Id| #[trigger] self@.contains_key(other) implies self@[other]
                == before@.remove(id)[other] by {
                assert(occupied(m0, other.index as int));
            }
            assert(self@ =~= before@.remove(id));
            assert forall|s: usize| before.retired(s) implies #[trigger] self.retired(s) by {
                if s as int == moved {
                    assert(occupied(m0, moved));
                }
            }
        }
        Some(out)
    }

    /// The item that `id` names, if the id is still current.
    pub fn get(&self, id: Id) -> (res: Option<&T>)
        requires
            self.wf(),
            id.slot() < self.slots().len(),
        ensures
            match res {
                Some(x) => self@.contains_key(id) && *x == self@[id],
                None => !self@.contains_key(id),
            },
    {
        let permutation = match self.permutation_mapper[id.index] {
            Some(p) => p,
            None => {
                return None;
            },
        };
        if id.generation == permutation.generation {
            proof {
                assert(occupied(self.permutation_mapper@, id.index as int));
            }
            if permutation.position < self.items.len() {
                Some(&self.items[permutation.position].1)
            } else {
                None
            }
        } else {
            None
        }
    }

    /// Mutable access to the item that `id` names, if the id is still current.
    pub fn get_mut(&mut self, id: Id) -> (res: Option<&mut T>)
        requires
            old(self).wf(),
            id.slot() < old(self).slots().len(),
        ensures
            match res {
                Some(x) => {
                    &&& old(self)@.contains_key(id)
                    &&& *x == old(self)@[id]
                    &&& final(self).wf()
                    &&& final(self)@ == old(self)@.insert(id, *final(x))
                    &&& final(self).next_id() == old(self).next_id()
                },
                None => !old(self)@.contains_key(id) && *final(self) == *old(self),
            },
    {
        let permutation = match self.permutation_mapper[id.index] {
            Some(p) => p,
            None => {
                return None;
            },
        };
        if id.generation == permutation.generation {
            proof {
                assert(occupied(self.permutation_mapper@, id.index as int));
            }
            if permutation.position < self.items.len() {
                proof {
                    self.lemma_item_replaced(id);
                }
                Some(&mut self.items[permutation.position].1)
            } else {
                None
            }
        } else {
            None
        }
    }

    /// The stored items, in storage order: each live item exactly once.
    pub fn iter(&self) -> (res: Vec<&T>)
        requires
            self.wf(),
        ensures
            res@.len() == self.entries().len(),
            forall|i: int|
                0 <= i < res@.len() ==> self@.contains_key(self.entry_id(i)) && *res@[i]
                    == self@[self.entry_id(i)],
            forall|i: int, j: int| 0 <= i < j < res@.len() ==> self.entry_id(i) != self.entry_id(j),
            forall|id: Id|
                #[trigger] self@.contains_key(id) ==> exists|i: int|
                    0 <= i < res@.len() && self.entry_id(i) == id,
    {
        proof {
            self.lemma_entry_ids();
        }
        let mut res: Vec<&T> = Vec::new();
        let mut i: usize = 0;
        while i < self.items.len()
            invariant
                i <= self.items@.len(),
                res@.len() == i,
                forall|k: int| 0 <= k < i ==> *res@[k] == self.items@[k].1,
            decreases self.items@.len() - i,
        {
            res.push(&self.items[i].1);
            i = i + 1;
        }
        proof {
            assert forall|i: int| 0 <= i < res@.len() implies self@.contains_key(self.entry_id(i))
                && *res@[i] == self@[self.entry_id(i)] by {
                assert(slot_points_at(self.permutation_mapper@, self.items@[i].0 as int, i));
            }
            assert forall|id: Id| #[trigger] self@.contains_key(id) implies exists|k: int|
                0 <= k < res@.len() && self.entry_id(k) == id by {
                let k = self.current_slot(id)->0.position as int;
                assert(occupied(self.permutation_mapper@, id.index as int));
                assert(self.entry_id(k) == id);
            }
        }
        res
    }
}

impl<T> View for IdMapper<T> {
    type V = Map<Id, T>;

    /// The live ids and the item each names.
    closed spec fn view(&self) -> Map<Id, T> {
        Map::new(
            |id: Id| self.current_slot(id) is Some,
            |id: Id| self.items@[self.current_slot(id)->0.position as int].1,
        )
    }
}

/// After `push` stores an item under a fresh id, looking that id up finds the
/// item that was pushed, and every id that was live before still finds its
/// own item.
pub proof fn lemma_push_then_lookup<T>(before: IdMapper<T>, after: IdMapper<T>, id: Id, item: T)
    requires
        !before@.contains_key(id),
        after@ == before@.insert(id, item),
    ensures
        after@.contains_key(id) && after@[id] == item,
        forall|other: Id| #[trigger] before@.contains_key(other) ==> after@.contains_key(other)
            && after@[other] == before@[other],
{
}

/// Taking an id removes exactly that id: afterwards it is not live, every
/// other live id keeps its item, and its slot can never be handed out again.
pub proof fn lemma_take_is_final<T>(before: IdMapper<T>, after: IdMapper<T>, id: Id)
    requires
        before@.contains_key(id),
        after@ == before@.remove(id),
        after.retired(id.slot()),
    ensures
        !after@.contains_key(id),
        forall|other: Id|
            #[trigger] before@.contains_key(other) && other != id ==> after@.contains_key(other)
                && after@[other] == before@[other],
        after.next_id().slot() != id.slot(),
{
    assert(after.retired(id.slot()));
}

} // verus!
