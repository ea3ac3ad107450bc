//! The registry of the game's objects: each object lives at the index
//! that is its id, and a slot may be empty.
use vstd::prelude::*;
use crate::logic::count_tick;

verus! {

/// The objects of a game by id, and the tick counter that paces the
/// game-wide `tick` event.
pub struct ObjectRegistry<O> {
    pub objects: Vec<Option<O>>,
    pub tick_count: i32,
}

/// `r` is the first slot that holds an object for which `f` answers
/// `true`: `f` answered `false` for every object before it, and `r` is
/// `None` when it answered `false` for all.
pub open spec fn first_where<O, F: Fn(&O) -> bool>(objects: Seq<Option<O>>, f: F, r: Option<usize>) -> bool {
    &&& forall|k: int|
        0 <= k < objects.len() && (r matches Some(i) ==> k < i) && #[trigger] objects[k] is Some ==> call_ensures(
            f,
            (&objects[k]->0,),
            false,
        )
    &&& r matches Some(i) ==> i < objects.len() && objects[i as int] is Some && call_ensures(
        f,
        (&objects[i as int]->0,),
        true,
    )
}

impl<O> ObjectRegistry<O> {
    /// No objects, and the tick counter at 0.
    pub fn new() -> (r: Self)
        ensures
            r.objects@.len() == 0,
            r.tick_count == 0,
    {
        ObjectRegistry { objects: Vec::new(), tick_count: 0 }
    }

    /// The id the next added object gets: the number of slots.
    pub fn next_id(&self) -> (id: usize)
        ensures
            id == self.objects@.len(),
    {
        self.objects.len()
    }

    /// Adds `o` under the next id and returns that id.
    pub fn add(&mut self, o: O) -> (id: usize)
        ensures
            id == old(self).objects@.len(),
            final(self).objects@ == old(self).objects@.push(Some(o)),
            final(self).tick_count == old(self).tick_count,
    {
        let id = self.objects.len();
        self.objects.push(Some(o));
        id
    }

    /// The object with id `id`, if its slot exists and holds one.
    pub fn get(&self, id: usize) -> (r: Option<&O>)
        ensures
            match r {
                Some(o) => id < self.objects@.len() && self.objects@[id as int] == Some(*o),
                None => id >= self.objects@.len() || self.objects@[id as int] is None,
            },
    {
        if id < self.objects.len() {
            match &self.objects[id] {
                Some(o) => Some(o),
                None => None,
            }
        } else {
            None
        }
    }

    /// Puts `o` into slot `idx`, which exists.
    pub fn set_object_at(&mut self, idx: usize, o: O)
        requires
            idx < old(self).objects@.len(),
        ensures
            final(self).objects@ == old(self).objects@.update(idx as int, Some(o)),
            final(self).tick_count == old(self).tick_count,
    {
        self.objects.set(idx, Some(o));
    }

    /// Makes the registry `n` empty slots, ready for objects to be put at
    /// their ids.
    pub fn reset(&mut self, n: usize)
        ensures
            final(self).objects@.len() == n,
            forall|i: int| 0 <= i < n ==> #[trigger] final(self).objects@[i] is None,
            final(self).tick_count == old(self).tick_count,
    {
        let mut objects: Vec<Option<O>> = Vec::new();
        let mut i: usize = 0;
        while i < n
            invariant
                i <= n,
                objects@.len() == i,
                forall|j: int| 0 <= j < i ==> #[trigger] objects@[j] is None,
            decreases n - i,
        {
            objects.push(None);
            i = i + 1;
        }
        self.objects = objects;
    }

    /// Counts one tick; returns whether the game-wide `tick` event is due,
    /// which it is on every sixth tick.
    pub fn tick_counter(&mut self) -> (due: bool)
        requires
            old(self).tick_count < i32::MAX,
        ensures
            due == (old(self).tick_count + 1 > 5),
            final(self).tick_count == (if due {
                0
            } else {
                old(self).tick_count + 1
            }),
            final(self).objects == old(self).objects,
    {
        let (c, due) = count_tick(self.tick_count, 5);
        self.tick_count = c;
        due
    }

    /// The id of the first object for which `f` answers `true`.
    pub fn find_first<F: Fn(&O) -> bool>(&self, f: F) -> (r: Option<usize>)
        requires
            forall|o: &O| #[trigger] call_requires(f, (o,)),
        ensures
            first_where(self.objects@, f, r),
    {
        let mut i: usize = 0;
        while i < self.objects.len()
            invariant
                i <= self.objects@.len(),
                forall|o: &O| #[trigger] call_requires(f, (o,)),
                forall|k: int|
                    0 <= k < i && #[trigger] self.objects@[k] is Some ==> call_ensures(
                        f,
                        (&self.objects@[k]->0,),
                        false,
                    ),
            decreases self.objects@.len() - i,
        {
            match &self.objects[i] {
                Some(o) => {
                    if f(o) {
                        return Some(i);
                    }
                },
                None => {},
            }
            i = i + 1;
        }
        None
    }
}

/// The object that `add` registers is what `get` gives back under the id
/// `add` returned, and every other id keeps its object.
pub proof fn law_add_then_get<O>(before: Seq<Option<O>>, after: Seq<Option<O>>, o: O, id: int)
    requires
        after == before.push(Some(o)),
        id == before.len(),
    ensures
        after[id] == Some(o),
        forall|j: int| 0 <= j < before.len() ==> #[trigger] after[j] == before[j],
{
}

/// Putting an object at an id makes it the one `get` gives back there,
/// and every other id keeps its object.
pub proof fn law_set_then_get<O>(before: Seq<Option<O>>, after: Seq<Option<O>>, o: O, id: int)
    requires
        0 <= id < before.len(),
        after == before.update(id, Some(o)),
    ensures
        after[id] == Some(o),
        after.len() == before.len(),
        forall|j: int| 0 <= j < before.len() && j != id ==> #[trigger] after[j] == before[j],
{
}

} // verus!
