//! The open lanes of a queue, each under its id.

use slab::Slab;
use vstd::prelude::*;

use crate::lane::{Lane, LaneState};

verus! {

/// The slab of the `slab` crate: a collection that chooses the keys of its values.
#[verifier::external_type_specification]
#[verifier::external_body]
#[verifier::reject_recursive_types(T)]
pub struct ExSlab<T>(slab::Slab<T>);

/// The values of a slab, each under its key.
pub uninterp spec fn slab_contents(places: Slab<usize>) -> Map<usize, usize>;

/// The keys that a slab gave out and got back since, as a stack: the last one is
/// given out first.
pub uninterp spec fn slab_vacant(places: Slab<usize>) -> Seq<usize>;

/// `Slab::new` makes a slab that holds nothing and never gave out a key.
#[verifier::external_body]
fn slab_new() -> (places: Slab<usize>)
    ensures
        slab_contents(places).dom() == Set::<usize>::empty(),
        slab_vacant(places) == Seq::<usize>::empty(),
{
    Slab::new()
}

/// `Slab::insert` stores `value` under the key on top of the stack of vacant
/// keys, which it takes off. Where there is no vacant key, the keys in use are
/// those below the number of values, and that number is the new key.
///
/// That memory may run out is left unsaid, as in the contract of `Vec::push`.
#[verifier::external_body]
fn slab_insert(places: &mut Slab<usize>, value: usize) -> (key: usize)
    requires
        slab_contents(*old(places)).dom().len() < usize::MAX,
    ensures
        key == next_key(slab_contents(*old(places)).dom(), slab_vacant(*old(places))),
        slab_contents(*final(places)) == slab_contents(*old(places)).insert(key, value),
        slab_vacant(*final(places)) == vacant_after_insert(slab_vacant(*old(places))),
{
    places.insert(value)
}

/// `Slab::remove` takes out the value under `key` and pushes the key onto the
/// stack of vacant keys. It panics where there is no such value.
#[verifier::external_body]
fn slab_remove(places: &mut Slab<usize>, key: usize) -> (value: usize)
    requires
        slab_contents(*old(places)).contains_key(key),
    ensures
        value == slab_contents(*old(places))[key],
        slab_contents(*final(places)) == slab_contents(*old(places)).remove(key),
        slab_vacant(*final(places)) == slab_vacant(*old(places)).push(key),
{
    places.remove(key)
}

/// `Slab::get` looks up the value under `key`.
#[verifier::external_body]
fn slab_get(places: &Slab<usize>, key: usize) -> (value: Option<&usize>)
    ensures
        match value {
            Some(value) => slab_contents(*places).contains_key(key) && *value == slab_contents(
                *places,
            )[key],
            None => !slab_contents(*places).contains_key(key),
        },
{
    places.get(key)
}

/// `Slab::get_mut` looks up the value under `key` in order to change it. What is
/// written through the reference replaces the value; nothing else changes.
#[verifier::external_body]
fn slab_get_mut(places: &mut Slab<usize>, key: usize) -> (value: Option<&mut usize>)
    ensures
        match value {
            Some(value) => {
                &&& slab_contents(*old(places)).contains_key(key)
                &&& *value == slab_contents(*old(places))[key]
                &&& slab_contents(*final(places)) == slab_contents(*old(places)).insert(
                    key,
                    *final(value),
                )
            },
            None => {
                &&& !slab_contents(*old(places)).contains_key(key)
                &&& slab_contents(*final(places)) == slab_contents(*old(places))
            },
        },
        slab_vacant(*final(places)) == slab_vacant(*old(places)),
{
    places.get_mut(key)
}

/// The key that is given out next, where `keys` are in use and `vacant` were
/// given back.
pub open spec fn next_key(keys: Set<usize>, vacant: Seq<usize>) -> usize {
    if vacant.len() == 0 {
        keys.len() as usize
    } else {
        vacant.last()
    }
}

/// The stack of vacant keys after one more key was given out.
pub open spec fn vacant_after_insert(vacant: Seq<usize>) -> Seq<usize> {
    if vacant.len() == 0 {
        vacant
    } else {
        vacant.drop_last()
    }
}

/// The keys in use and the vacant ones share no key, and together they are the
/// numbers below their count.
pub open spec fn keys_wf(keys: Set<usize>, vacant: Seq<usize>) -> bool {
    &&& keys.finite()
    &&& vacant.no_duplicates()
    &&& keys.len() + vacant.len() <= usize::MAX
    &&& forall|id: usize| #[trigger] keys.contains(id) ==> !vacant.contains(id)
    &&& forall|id: usize|
        #![trigger keys.contains(id)]
        #![trigger vacant.contains(id)]
        keys.contains(id) || vacant.contains(id) <==> id < keys.len() + vacant.len()
}

/// The key that was given back last is given out first, and is vacant no more.
/// Where none is vacant, the number of keys in use is the next key.
pub proof fn law_vacant_keys_are_used_first(keys: Set<usize>, vacant: Seq<usize>)
    requires
        keys.len() <= usize::MAX,
    ensures
        vacant.len() > 0 ==> vacant == vacant_after_insert(vacant).push(next_key(keys, vacant)),
        vacant.len() == 0 ==> next_key(keys, vacant) == keys.len() && vacant_after_insert(
            vacant,
        ).len() == 0,
{
    if vacant.len() > 0 {
        assert(vacant_after_insert(vacant).push(next_key(keys, vacant)) =~= vacant);
    }
}

/// A key that is given out was not in use.
pub proof fn lemma_insert_keys(keys: Set<usize>, vacant: Seq<usize>)
    requires
        keys_wf(keys, vacant),
        keys.len() < usize::MAX,
    ensures
        !keys.contains(next_key(keys, vacant)),
        next_key(keys, vacant) < usize::MAX,
        keys_wf(keys.insert(next_key(keys, vacant)), vacant_after_insert(vacant)),
{
    let key = next_key(keys, vacant);
    let rest = vacant_after_insert(vacant);
    if vacant.len() == 0 {
        assert(!keys.contains(key));
    } else {
        assert(vacant.contains(key));
        assert forall|id: usize| id != key implies (rest.contains(id) <==> vacant.contains(id)) by {
            if vacant.contains(id) {
                let i = vacant.index_of(id);
                assert(rest[i] == id);
            }
        }
        assert(!rest.contains(key));
    }
}

/// A key that is given back can be given out again.
pub proof fn lemma_remove_keys(keys: Set<usize>, vacant: Seq<usize>, key: usize)
    requires
        keys_wf(keys, vacant),
        keys.contains(key),
    ensures
        keys_wf(keys.remove(key), vacant.push(key)),
{
    let more = vacant.push(key);
    assert(more.last() == key);
    assert forall|id: usize| id != key implies (more.contains(id) <==> vacant.contains(id)) by {
        if vacant.contains(id) {
            let i = vacant.index_of(id);
            assert(more[i] == id);
        }
    }
}

/// The open lanes, each under its id.
///
/// The lanes stand side by side in a vector; a slab chooses their ids and leads
/// from an id to the place of its lane.
pub struct LaneTable<T, W> {
    places: Slab<usize>,
    owners: Vec<usize>,
    lanes: Vec<Lane<T, W>>,
}

/// The state of a [`LaneTable`]: the lanes by id, and the stack of ids of closed
/// lanes.
pub struct LaneTableState<T, W> {
    pub lanes: Map<usize, LaneState<T, W>>,
    pub vacant: Seq<usize>,
}

impl<T, W> View for LaneTable<T, W> {
    type V = LaneTableState<T, W>;

    closed spec fn view(&self) -> LaneTableState<T, W> {
        LaneTableState {
            lanes: slab_contents(self.places).map_values(|place: usize| self.lanes@[place as int]@),
            vacant: slab_vacant(self.places),
        }
    }
}

impl<T, W> LaneTable<T, W> {
    /// The slab and the vectors agree on where each lane is.
    pub closed spec fn wf(&self) -> bool {
        let places = slab_contents(self.places);
        &&& keys_wf(places.dom(), slab_vacant(self.places))
        &&& self.owners@.len() == self.lanes@.len()
        &&& places.dom().len() == self.lanes@.len()
        &&& forall|id: usize| #[trigger]
            places.contains_key(id) ==> places[id] < self.owners@.len()
                && self.owners@[places[id] as int] == id
        &&& forall|place: int|
            0 <= place < self.owners@.len() ==> places.contains_key(#[trigger] self.owners@[place])
                && places[self.owners@[place]] == place
    }

    /// The ids in use and those of closed lanes are the first numbers.
    pub proof fn lemma_keys(&self)
        requires
            self.wf(),
        ensures
            keys_wf(self@.lanes.dom(), self@.vacant),
    {
        assert(self@.lanes.dom() =~= slab_contents(self.places).dom());
    }

    /// A table without lanes.
    pub fn new() -> (table: Self)
        ensures
            table.wf(),
            table@.lanes == Map::<usize, LaneState<T, W>>::empty(),
            table@.vacant == Seq::<usize>::empty(),
    {
        let table = LaneTable { places: slab_new(), owners: Vec::new(), lanes: Vec::new() };
        assert(table@.lanes =~= Map::<usize, LaneState<T, W>>::empty());
        table
    }

    /// Adds a lane and returns its id.
    pub fn insert(&mut self, lane: Lane<T, W>) -> (id: usize)
        requires
            old(self).wf(),
        ensures
            final(self).wf(),
            id == next_key(old(self)@.lanes.dom(), old(self)@.vacant),
            !old(self)@.lanes.contains_key(id),
            id < usize::MAX,
            final(self)@.lanes == old(self)@.lanes.insert(id, lane@),
            final(self)@.vacant == vacant_after_insert(old(self)@.vacant),
    {
        let place = self.lanes.len();
        self.lanes.push(lane);
        proof {
            assert(old(self)@.lanes.dom() =~= slab_contents(old(self).places).dom());
            assert(self.lanes.len() == place + 1);
            lemma_insert_keys(slab_contents(self.places).dom(), slab_vacant(self.places));
        }
        let id = slab_insert(&mut self.places, place);
        self.owners.push(id);
        id
    }

    /// The lane under `id`, if there is one.
    pub fn get(&self, id: usize) -> (lane: Option<&Lane<T, W>>)
        requires
            self.wf(),
        ensures
            match lane {
                Some(lane) => self@.lanes.contains_key(id) && lane@ == self@.lanes[id],
                None => !self@.lanes.contains_key(id),
            },
    {
        match slab_get(&self.places, id) {
            Some(place) => Some(&self.lanes[*place]),
            None => None,
        }
    }

    /// The lane under `id`, to be changed.
    pub fn get_mut(&mut self, id: usize) -> (lane: &mut Lane<T, W>)
        requires
            old(self).wf(),
            old(self)@.lanes.contains_key(id),
        ensures
            lane@ == old(self)@.lanes[id],
            final(self).wf(),
            final(self)@.lanes == old(self)@.lanes.insert(id, final(lane)@),
            final(self)@.vacant == old(self)@.vacant,
    {
        let place: usize = *slab_get(&self.places, id).unwrap();
        &mut self.lanes[place]
    }

    /// Takes out the lane under `id`.
    pub fn remove(&mut self, id: usize) -> (lane: Lane<T, W>)
        requires
            old(self).wf(),
            old(self)@.lanes.contains_key(id),
        ensures
            final(self).wf(),
            lane@ == old(self)@.lanes[id],
            final(self)@.lanes == old(self)@.lanes.remove(id),
            final(self)@.vacant == old(self)@.vacant.push(id),
    {
        proof {
            lemma_remove_keys(slab_contents(self.places).dom(), slab_vacant(self.places), id);
        }
        let place = slab_remove(&mut self.places, id);
        self.owners.swap_remove(place);
        let lane = self.lanes.swap_remove(place);
        if place < self.owners.len() {
            // The last lane moved into the gap.
            let moved = self.owners[place];
            *slab_get_mut(&mut self.places, moved).unwrap() = place;
        }
        lane
    }
}

} // verus!
