//! The world: an append-only sequence of entities, each behind its own
//! reader-writer lock, and queries over it by component type.
//!
//! A query names a list of type tags and is answered with views of the
//! entities that have a component of *any* of them: asking for two types
//! finds the entities that have the one or the other, not only those that
//! have both. [`World::query`] and [`World::query_mut`] answer with every
//! match at once; [`World::query_from`] and [`World::query_mut_from`] answer
//! with the next match from a position on, and lock nothing beyond it.
//! Entities are visited in insertion order.
//!
//! # Locks
//!
//! Every entity has a lock of its own; no lock covers the world. A view holds
//! its entity's lock until it is released. Dropping a view does not release
//! it: the entity stays locked, and a later request for a conflicting lock on
//! it never returns. So an entity that a writer did not hand back is never
//! seen by anyone. The locks are not reentrant: whoever holds a view of an
//! entity and asks for an exclusive view of the same entity waits for itself.
//!
//! # Exclusive views are tested twice
//!
//! For an exclusive view the entity is first tested under a shared lock. That
//! lock is given back before the exclusive one is taken, and in between
//! another holder may change the entity. The test is therefore repeated under
//! the exclusive lock, and an entity that no longer matches is let go rather
//! than returned.
//!
//! # What a query promises
//!
//! What sits behind a lock can change whenever the lock is free, so the model
//! of a world is the sequence of its locks, not of its entities. A query is
//! exact for a snapshot: the value that each entity was seen to have when the
//! query visited it. Every entity of the snapshot is what its lock showed to
//! the query ([`was_read`], [`was_taken`]). Every view returned holds its
//! entity as the snapshot has it, and keeps it so for as long as the view is
//! held. What a lock shows is whatever was last handed to it; of that the
//! lock promises only its invariant, so no contract here relates two visits
//! of one lock.

use crate::ecs::entity::has_any_type;
use crate::ecs::entity::lemma_any_is_union;
use crate::ecs::entity::Entity;
use std::any::TypeId;
use vstd::prelude::*;
use vstd::rwlock::ReadHandle;
use vstd::rwlock::RwLock;
use vstd::rwlock::RwLockPredicate;
use vstd::rwlock::WriteHandle;

verus! {

/// The invariant of an entity's lock: every entity may be stored.
pub struct AnyEntity;

impl RwLockPredicate<Entity> for AnyEntity {
    open spec fn inv(self, v: Entity) -> bool {
        true
    }
}

/// The lock that guards one entity of a world.
pub type EntityLock = RwLock<Entity, AnyEntity>;

/// `entity` is what `lock` showed to a reader: a shared acquisition of `lock`
/// returned a handle on it.
pub open spec fn was_read(lock: EntityLock, entity: Entity) -> bool {
    exists|handle: ReadHandle<Entity, AnyEntity>|
        #[trigger] call_ensures(RwLock::<Entity, AnyEntity>::acquire_read, (&lock,), handle)
            && handle.view() == entity
}

/// `entity` is what `lock` gave to a writer: an exclusive acquisition of
/// `lock` returned it.
pub open spec fn was_taken(lock: EntityLock, entity: Entity) -> bool {
    exists|handle: WriteHandle<Entity, AnyEntity>|
        #[trigger] call_ensures(
            RwLock::<Entity, AnyEntity>::acquire_write,
            (&lock,),
            (entity, handle),
        )
}

/// From position `from` up to, not including, `to`, every entity of `seen`
/// is what its lock showed to a reader.
pub open spec fn all_read(locks: Seq<EntityLock>, seen: Seq<Entity>, from: int, to: int) -> bool {
    forall|i: int|
        0 <= i < seen.len() && from <= i < to ==> was_read(locks[i], #[trigger] seen[i])
}

/// From position `from` up to, not including, `to`, every entity of `seen`
/// is what its lock showed to a reader or gave to a writer.
pub open spec fn all_seen(locks: Seq<EntityLock>, seen: Seq<Entity>, from: int, to: int) -> bool {
    forall|i: int|
        0 <= i < seen.len() && from <= i < to ==> {
            ||| was_read(locks[i], #[trigger] seen[i])
            ||| was_taken(locks[i], seen[i])
        }
}

/// Where a search that stopped at `found` ends: behind the position found,
/// or at `len` if nothing was found.
pub open spec fn search_end(found: Option<int>, len: int) -> int {
    match found {
        Some(position) => position + 1,
        None => len,
    }
}

/// The positions of the entities of `seen` that have a component of any of
/// `types`, in ascending order.
pub open spec fn matching(seen: Seq<Entity>, types: Seq<TypeId>) -> Seq<int>
    decreases seen.len(),
{
    if seen.len() == 0 {
        Seq::empty()
    } else if has_any_type(seen.last()@, types) {
        matching(seen.drop_last(), types).push(seen.len() - 1)
    } else {
        matching(seen.drop_last(), types)
    }
}

/// What `matching` lists: exactly the positions of the entities that have a
/// component of any of `types`, each once, in ascending order.
pub proof fn lemma_matching(seen: Seq<Entity>, types: Seq<TypeId>)
    ensures
        forall|k: int|
            0 <= k < matching(seen, types).len() ==> {
                &&& 0 <= (#[trigger] matching(seen, types)[k]) < seen.len()
                &&& has_any_type(seen[matching(seen, types)[k]]@, types)
            },
        forall|j: int, k: int|
            0 <= j < k < matching(seen, types).len() ==> matching(seen, types)[j] < matching(
                seen,
                types,
            )[k],
        forall|i: int|
            0 <= i < seen.len() && has_any_type((#[trigger] seen[i])@, types) ==> matching(
                seen,
                types,
            ).contains(i),
    decreases seen.len(),
{
    if seen.len() > 0 {
        let shorter = seen.drop_last();
        let before = matching(shorter, types);
        let all = matching(seen, types);
        lemma_matching(shorter, types);
        assert forall|k: int| 0 <= k < all.len() implies {
            &&& 0 <= (#[trigger] all[k]) < seen.len()
            &&& has_any_type(seen[all[k]]@, types)
        } by {
            if k < before.len() {
                assert(all[k] == before[k]);
                assert(seen[before[k]] == shorter[before[k]]);
            }
        }
        assert forall|j: int, k: int| 0 <= j < k < all.len() implies all[j] < all[k] by {
            assert(all[j] == before[j]);
            if k < before.len() {
                assert(all[k] == before[k]);
            }
        }
        assert forall|i: int| 0 <= i < seen.len() && has_any_type(
            (#[trigger] seen[i])@,
            types,
        ) implies all.contains(i) by {
            if i < shorter.len() {
                assert(shorter[i] == seen[i]);
                assert(before.contains(i));
                let k: int = choose|k: int| 0 <= k < before.len() && before[k] == i;
                assert(all[k] == i);
            } else {
                assert(all[all.len() - 1] == i);
            }
        }
    }
}

/// An entity added to a world changes no earlier answer: a query over the
/// longer world lists what it listed before, and then the new entity's
/// position if, and only if, the new entity matches.
pub proof fn lemma_matching_after_addition(seen: Seq<Entity>, types: Seq<TypeId>, added: Entity)
    ensures
        matching(seen.push(added), types) == if has_any_type(added@, types) {
            matching(seen, types).push(seen.len() as int)
        } else {
            matching(seen, types)
        },
{
    assert(seen.push(added).drop_last() =~= seen);
}

/// A query for several types lists the entities that a query for some of
/// them lists or a query for the rest of them lists: asking for two types
/// finds what asking for the one finds and what asking for the other finds.
pub proof fn lemma_matching_is_union(seen: Seq<Entity>, left: Seq<TypeId>, right: Seq<TypeId>)
    ensures
        forall|i: int|
            #[trigger] matching(seen, left + right).contains(i) <==> matching(seen, left).contains(
                i,
            ) || matching(seen, right).contains(i),
{
    lemma_matching(seen, left);
    lemma_matching(seen, right);
    lemma_matching(seen, left + right);
    assert forall|i: int| #[trigger]
        matching(seen, left + right).contains(i) <==> matching(seen, left).contains(i)
            || matching(seen, right).contains(i) by {
        if matching(seen, left + right).contains(i) {
            let k: int = choose|k: int|
                0 <= k < matching(seen, left + right).len() && matching(seen, left + right)[k] == i;
            lemma_any_is_union(seen[i]@, left, right);
        }
        if matching(seen, left).contains(i) {
            let k: int = choose|k: int|
                0 <= k < matching(seen, left).len() && matching(seen, left)[k] == i;
            lemma_any_is_union(seen[i]@, left, right);
        }
        if matching(seen, right).contains(i) {
            let k: int = choose|k: int|
                0 <= k < matching(seen, right).len() && matching(seen, right)[k] == i;
            lemma_any_is_union(seen[i]@, left, right);
        }
    }
}

/// A query for no types at all matches nothing.
pub proof fn lemma_matching_nothing(seen: Seq<Entity>)
    ensures
        matching(seen, Seq::<TypeId>::empty()) == Seq::<int>::empty(),
    decreases seen.len(),
{
    if seen.len() > 0 {
        lemma_matching_nothing(seen.drop_last());
    }
}

/// `found` is where a search of `seen` that starts at `start` stops: at the
/// first position from `start` on whose entity has a component of any of
/// `types`, or nowhere if there is no such position.
pub open spec fn is_next_match(
    seen: Seq<Entity>,
    types: Seq<TypeId>,
    start: int,
    found: Option<int>,
) -> bool {
    match found {
        Some(position) => {
            &&& 0 <= position < seen.len()
            &&& start <= position
            &&& has_any_type(seen[position]@, types)
            &&& forall|i: int|
                0 <= i < position && start <= i ==> !has_any_type((#[trigger] seen[i])@, types)
        },
        None => forall|i: int|
            0 <= i < seen.len() && start <= i ==> !has_any_type((#[trigger] seen[i])@, types),
    }
}

/// A search stops at a position that a full query lists, and at the least
/// such position from `start` on; it stops nowhere exactly when a full query
/// lists no position from `start` on.
pub proof fn lemma_next_match_is_least_listed(
    seen: Seq<Entity>,
    types: Seq<TypeId>,
    start: int,
    found: Option<int>,
)
    requires
        is_next_match(seen, types, start, found),
    ensures
        found matches Some(position) ==> matching(seen, types).contains(position),
        forall|k: int|
            0 <= k < matching(seen, types).len() && start <= #[trigger] matching(seen, types)[k]
                ==> found is Some && found->0 <= matching(seen, types)[k],
{
    let all = matching(seen, types);
    lemma_matching(seen, types);
    assert forall|k: int| 0 <= k < all.len() && start <= #[trigger] all[k] implies found is Some
        && found->0 <= all[k] by {
        assert(has_any_type(seen[all[k]]@, types));
        if found is None || found->0 > all[k] {
            assert(!has_any_type(seen[all[k]]@, types));
        }
    }
}

/// A search from the start stops at the first position that a full query
/// lists, and stops nowhere exactly when a full query lists nothing.
pub proof fn lemma_first_match_leads(seen: Seq<Entity>, types: Seq<TypeId>, found: Option<int>)
    requires
        is_next_match(seen, types, 0, found),
    ensures
        found is None <==> matching(seen, types).len() == 0,
        found matches Some(position) ==> matching(seen, types)[0] == position,
{
    let all = matching(seen, types);
    lemma_matching(seen, types);
    match found {
        Some(position) => {
            assert(all.contains(position));
            let k: int = choose|k: int| 0 <= k < all.len() && all[k] == position;
            if k > 0 {
                assert(all[0] < all[k]);
                assert(has_any_type(seen[all[0]]@, types));
            }
        },
        None => {
            if all.len() > 0 {
                assert(has_any_type(seen[all[0]]@, types));
            }
        },
    }
}

/// A held shared lock on one entity of a world.
pub struct SharedView<'a> {
    position: usize,
    handle: ReadHandle<'a, Entity, AnyEntity>,
}

impl<'a> SharedView<'a> {
    /// The entity's position in its world.
    pub closed spec fn spec_position(&self) -> usize {
        self.position
    }

    /// The entity, which cannot change while the view is held.
    pub closed spec fn view(self) -> Entity {
        self.handle.view()
    }

    /// The lock that the view holds.
    pub closed spec fn lock(self) -> EntityLock {
        self.handle.rwlock()
    }

    /// The entity's position in its world.
    #[verifier::when_used_as_spec(spec_position)]
    pub fn position(&self) -> (position: usize)
        ensures
            position == self.spec_position(),
    {
        self.position
    }

    /// The entity.
    pub fn entity(&self) -> (entity: &Entity)
        ensures
            *entity == self@,
    {
        self.handle.borrow()
    }

    /// The shared lock was given back: the view's handle was released.
    pub closed spec fn was_released(self) -> bool {
        call_ensures(ReadHandle::<Entity, AnyEntity>::release_read, (self.handle,), ())
    }

    /// Gives the lock back.
    pub fn release(self)
        ensures
            self.was_released(),
    {
        self.handle.release_read();
    }
}

/// A held exclusive lock on one entity of a world, with the entity itself.
pub struct ExclusiveView<'a> {
    position: usize,
    entity: Entity,
    handle: WriteHandle<'a, Entity, AnyEntity>,
}

impl<'a> ExclusiveView<'a> {
    /// The entity's position in its world.
    pub closed spec fn spec_position(&self) -> usize {
        self.position
    }

    /// The entity as the view has it now.
    pub closed spec fn view(self) -> Entity {
        self.entity
    }

    /// The lock that the view holds.
    pub closed spec fn lock(self) -> EntityLock {
        self.handle.rwlock()
    }

    /// The entity's position in its world.
    #[verifier::when_used_as_spec(spec_position)]
    pub fn position(&self) -> (position: usize)
        ensures
            position == self.spec_position(),
    {
        self.position
    }

    /// The entity, for reading.
    pub fn entity(&self) -> (entity: &Entity)
        ensures
            *entity == self@,
    {
        &self.entity
    }

    /// The entity, for writing. The view stays a view of the same position
    /// and lock.
    pub fn entity_mut(&mut self) -> (entity: &mut Entity)
        ensures
            *entity == old(self)@,
            final(self)@ == *final(entity),
            final(self).position() == old(self).position(),
            final(self).lock() == old(self).lock(),
    {
        &mut self.entity
    }

    /// The entity, as the view had it, was handed back to its lock, and the
    /// exclusive lock given back: the view's handle was released with the
    /// view's entity.
    pub closed spec fn was_released(self) -> bool {
        call_ensures(
            WriteHandle::<Entity, AnyEntity>::release_write,
            (self.handle, self.entity),
            (),
        )
    }

    /// Hands the entity back to the world as it is now, and gives the lock
    /// back.
    pub fn release(self)
        ensures
            self.was_released(),
    {
        self.handle.release_write(self.entity);
    }
}

/// The positions of `views`, in order.
pub open spec fn shared_positions(views: Seq<SharedView<'_>>) -> Seq<int> {
    Seq::new(views.len(), |k: int| views[k].position() as int)
}

/// The positions of `views`, in order.
pub open spec fn exclusive_positions(views: Seq<ExclusiveView<'_>>) -> Seq<int> {
    Seq::new(views.len(), |k: int| views[k].position() as int)
}

/// The position of `found`, if it is a view.
pub open spec fn shared_position(found: Option<SharedView<'_>>) -> Option<int> {
    match found {
        Some(view) => Some(view.position() as int),
        None => None,
    }
}

/// The position of `found`, if it is a view.
pub open spec fn exclusive_position(found: Option<ExclusiveView<'_>>) -> Option<int> {
    match found {
        Some(view) => Some(view.position() as int),
        None => None,
    }
}

/// An append-only sequence of entities, each behind its own lock.
pub struct World {
    entities: Vec<EntityLock>,
}

impl View for World {
    type V = Seq<EntityLock>;

    closed spec fn view(&self) -> Seq<EntityLock> {
        self.entities@
    }
}

impl Default for World {
    /// A world without entities.
    fn default() -> (world: World)
        ensures
            world@ == Seq::<EntityLock>::empty(),
    {
        World { entities: Vec::new() }
    }
}

impl World {
    /// The number of entities.
    pub fn len(&self) -> (n: usize)
        ensures
            n == self@.len(),
    {
        self.entities.len()
    }

    /// Appends `entity` behind a lock of its own: the new lock is what making
    /// a lock around `entity` returned. The entities that were there keep
    /// their positions and their locks.
    pub fn add_entity(&mut self, entity: Entity)
        ensures
            final(self)@.len() == old(self)@.len() + 1,
            final(self)@.drop_last() == old(self)@,
            call_ensures(
                RwLock::<Entity, AnyEntity>::new,
                (entity, Ghost(AnyEntity)),
                final(self)@.last(),
            ),
    {
        self.entities.push(RwLock::new(entity, Ghost(AnyEntity)));
        assert(self.entities@.drop_last() =~= old(self).entities@);
    }

    /// Visits entity `position` under a shared lock. The lock is kept, and
    /// the view returned, when the entity has a component of any of `types`;
    /// otherwise the lock is given back. `seen` is the entity as it was
    /// found.
    fn visit(&self, position: usize, types: &[TypeId]) -> (found: (
        Option<SharedView<'_>>,
        Ghost<Entity>,
    ))
        requires
            position < self@.len(),
        ensures
            was_read(self@[position as int], found.1@),
            found.0 is Some == has_any_type(found.1@@, types@),
            found.0 matches Some(view) ==> {
                &&& view.position() == position
                &&& view.lock() == self@[position as int]
                &&& view@ == found.1@
            },
    {
        let handle = self.entities[position].acquire_read();
        let ghost seen = handle.view();
        if handle.borrow().has_any(types) {
            (Some(SharedView { position, handle }), Ghost(seen))
        } else {
            handle.release_read();
            (None, Ghost(seen))
        }
    }

    /// Visits entity `position` for writing. The entity is first looked at
    /// under a shared lock, which is given back; if it had a component of
    /// any of `types`, the exclusive lock is taken and the entity looked at
    /// once more, since it may have changed in between. The exclusive lock is
    /// kept, and the view returned, only when the entity still matches.
    /// `seen` is the entity as it was found at the look that decided.
    fn visit_mut(&self, position: usize, types: &[TypeId]) -> (found: (
        Option<ExclusiveView<'_>>,
        Ghost<Entity>,
    ))
        requires
            position < self@.len(),
        ensures
            was_read(self@[position as int], found.1@) || was_taken(
                self@[position as int],
                found.1@,
            ),
            found.0 is Some == has_any_type(found.1@@, types@),
            found.0 matches Some(view) ==> {
                &&& view.position() == position
                &&& view.lock() == self@[position as int]
                &&& view@ == found.1@
            },
    {
        let handle = self.entities[position].acquire_read();
        let ghost first_look = handle.view();
        let candidate = handle.borrow().has_any(types);
        handle.release_read();
        if !candidate {
            return (None, Ghost(first_look));
        }
        let (entity, handle) = self.entities[position].acquire_write();
        let ghost second_look = entity;
        if entity.has_any(types) {
            (Some(ExclusiveView { position, entity, handle }), Ghost(second_look))
        } else {
            handle.release_write(entity);
            (None, Ghost(second_look))
        }
    }

    /// A shared view of the first entity, from position `start` on, that has
    /// a component of any of `types`. Entities before it are looked at and
    /// let go; entities after it are not touched.
    ///
    /// The answer is exact for a snapshot `seen` of the world: the view is
    /// that of the first match of `seen` from `start` on.
    pub fn query_from(&self, types: &[TypeId], start: usize) -> (found: Option<SharedView<'_>>)
        ensures
            found matches Some(view) ==> {
                &&& start <= view.position() < self@.len()
                &&& view.lock() == self@[view.position() as int]
                &&& has_any_type(view@@, types@)
            },
            exists|seen: Seq<Entity>|
                {
                    &&& seen.len() == self@.len()
                    &&& #[trigger] is_next_match(
                        seen,
                        types@,
                        start as int,
                        shared_position(found),
                    )
                    &&& found matches Some(view) ==> view@ == seen[view.position() as int]
                    &&& all_read(
                        self@,
                        seen,
                        start as int,
                        search_end(shared_position(found), self@.len() as int),
                    )
                },
    {
        let ghost mut seen: Seq<Entity> = Seq::new(self@.len(), |i: int| arbitrary());
        let mut i: usize = start;
        while i < self.entities.len()
            invariant
                start <= i,
                seen.len() == self@.len(),
                all_read(self@, seen, start as int, i as int),
                forall|j: int| start <= j < i ==> !has_any_type((#[trigger] seen[j])@, types@),
            decreases self.entities.len() - i,
        {
            let ghost earlier = seen;
            let (found, Ghost(entity)) = self.visit(i, types);
            proof {
                seen = earlier.update(i as int, entity);
                assert forall|j: int| start <= j < i implies !has_any_type(
                    (#[trigger] seen[j])@,
                    types@,
                ) by {
                    assert(seen[j] == earlier[j]);
                }
            }
            match found {
                Some(view) => {
                    assert(is_next_match(seen, types@, start as int, Some(view.position() as int)));
                    return Some(view);
                },
                None => {},
            }
            i += 1;
        }
        assert(is_next_match(seen, types@, start as int, None));
        None
    }

    /// An exclusive view of the first entity, from position `start` on, that
    /// has a component of any of `types`. Entities before it are looked at
    /// and let go; entities after it are not touched.
    ///
    /// Each entity is tested as [`World::query_mut`] tests it. The answer is
    /// exact for a snapshot `seen` of the world: the view is that of the
    /// first match of `seen` from `start` on.
    pub fn query_mut_from(&self, types: &[TypeId], start: usize) -> (found: Option<
        ExclusiveView<'_>,
    >)
        ensures
            found matches Some(view) ==> {
                &&& start <= view.position() < self@.len()
                &&& view.lock() == self@[view.position() as int]
                &&& has_any_type(view@@, types@)
            },
            exists|seen: Seq<Entity>|
                {
                    &&& seen.len() == self@.len()
                    &&& #[trigger] is_next_match(
                        seen,
                        types@,
                        start as int,
                        exclusive_position(found),
                    )
                    &&& found matches Some(view) ==> view@ == seen[view.position() as int]
                    &&& all_seen(
                        self@,
                        seen,
                        start as int,
                        search_end(exclusive_position(found), self@.len() as int),
                    )
                },
    {
        let ghost mut seen: Seq<Entity> = Seq::new(self@.len(), |i: int| arbitrary());
        let mut i: usize = start;
        while i < self.entities.len()
            invariant
                start <= i,
                seen.len() == self@.len(),
                all_seen(self@, seen, start as int, i as int),
                forall|j: int| start <= j < i ==> !has_any_type((#[trigger] seen[j])@, types@),
            decreases self.entities.len() - i,
        {
            let ghost earlier = seen;
            let (found, Ghost(entity)) = self.visit_mut(i, types);
            proof {
                seen = earlier.update(i as int, entity);
                assert forall|j: int| start <= j < i implies !has_any_type(
                    (#[trigger] seen[j])@,
                    types@,
                ) by {
                    assert(seen[j] == earlier[j]);
                }
            }
            match found {
                Some(view) => {
                    assert(is_next_match(seen, types@, start as int, Some(view.position() as int)));
                    return Some(view);
                },
                None => {},
            }
            i += 1;
        }
        assert(is_next_match(seen, types@, start as int, None));
        None
    }

    /// Shared views of the entities that have a component of any of `types`,
    /// in insertion order.
    ///
    /// The answer is exact for a snapshot `seen` of the world, taken entity by
    /// entity as the query went along: the views are those of the positions
    /// `matching(seen, types)`, and each holds the entity that the snapshot
    /// has at its position.
    pub fn query(&self, types: &[TypeId]) -> (views: Vec<SharedView<'_>>)
        ensures
            views@.len() <= self@.len(),
            forall|k: int|
                0 <= k < views@.len() ==> {
                    &&& (#[trigger] views@[k]).position() < self@.len()
                    &&& views@[k].lock() == self@[views@[k].position() as int]
                    &&& has_any_type(views@[k]@@, types@)
                },
            forall|j: int, k: int|
                0 <= j < k < views@.len() ==> views@[j].position() < views@[k].position(),
            exists|seen: Seq<Entity>|
                {
                    &&& seen.len() == self@.len()
                    &&& shared_positions(views@) == #[trigger] matching(seen, types@)
                    &&& forall|k: int|
                        0 <= k < views@.len() ==> (#[trigger] views@[k])@ == seen[views@[k].position() as int]
                    &&& all_read(self@, seen, 0, self@.len() as int)
                },
    {
        let mut views: Vec<SharedView<'_>> = Vec::new();
        let ghost mut seen: Seq<Entity> = Seq::empty();
        let mut i: usize = 0;
        while i < self.entities.len()
            invariant
                i <= self.entities.len(),
                views@.len() <= i,
                seen.len() == i,
                all_read(self@, seen, 0, i as int),
                shared_positions(views@) == matching(seen, types@),
                forall|k: int|
                    0 <= k < views@.len() ==> {
                        &&& (#[trigger] views@[k]).position() < i
                        &&& views@[k].lock() == self@[views@[k].position() as int]
                        &&& has_any_type(views@[k]@@, types@)
                        &&& views@[k]@ == seen[views@[k].position() as int]
                    },
                forall|j: int, k: int|
                    0 <= j < k < views@.len() ==> views@[j].position() < views@[k].position(),
            decreases self.entities.len() - i,
        {
            let ghost earlier = seen;
            let ghost held = views@;
            let (found, Ghost(entity)) = self.visit(i, types);
            proof {
                seen = earlier.push(entity);
                assert(seen.drop_last() =~= earlier);
            }
            match found {
                Some(view) => {
                    views.push(view);
                    assert(shared_positions(views@) =~= shared_positions(held).push(i as int));
                },
                None => {},
            }
            i += 1;
        }
        views
    }

    /// Exclusive views of the entities that have a component of any of
    /// `types`, in insertion order.
    ///
    /// Each entity is tested under a shared lock first and again once the
    /// exclusive lock is held, so every view returned holds an entity that
    /// matches. The answer is exact for a snapshot `seen` of the world, as
    /// for [`World::query`].
    pub fn query_mut(&self, types: &[TypeId]) -> (views: Vec<ExclusiveView<'_>>)
        ensures
            views@.len() <= self@.len(),
            forall|k: int|
                0 <= k < views@.len() ==> {
                    &&& (#[trigger] views@[k]).position() < self@.len()
                    &&& views@[k].lock() == self@[views@[k].position() as int]
                    &&& has_any_type(views@[k]@@, types@)
                },
            forall|j: int, k: int|
                0 <= j < k < views@.len() ==> views@[j].position() < views@[k].position(),
            exists|seen: Seq<Entity>|
                {
                    &&& seen.len() == self@.len()
                    &&& exclusive_positions(views@) == #[trigger] matching(seen, types@)
                    &&& forall|k: int|
                        0 <= k < views@.len() ==> (#[trigger] views@[k])@ == seen[views@[k].position() as int]
                    &&& all_seen(self@, seen, 0, self@.len() as int)
                },
    {
        let mut views: Vec<ExclusiveView<'_>> = Vec::new();
        let ghost mut seen: Seq<Entity> = Seq::empty();
        let mut i: usize = 0;
        while i < self.entities.len()
            invariant
                i <= self.entities.len(),
                views@.len() <= i,
                seen.len() == i,
                all_seen(self@, seen, 0, i as int),
                exclusive_positions(views@) == matching(seen, types@),
                forall|k: int|
                    0 <= k < views@.len() ==> {
                        &&& (#[trigger] views@[k]).position() < i
                        &&& views@[k].lock() == self@[views@[k].position() as int]
                        &&& has_any_type(views@[k]@@, types@)
                        &&& views@[k]@ == seen[views@[k].position() as int]
                    },
                forall|j: int, k: int|
                    0 <= j < k < views@.len() ==> views@[j].position() < views@[k].position(),
            decreases self.entities.len() - i,
        {
            let ghost earlier = seen;
            let ghost held = views@;
            let (found, Ghost(entity)) = self.visit_mut(i, types);
            proof {
                seen = earlier.push(entity);
                assert(seen.drop_last() =~= earlier);
            }
            match found {
                Some(view) => {
                    views.push(view);
                    assert(exclusive_positions(views@) =~= exclusive_positions(held).push(
                        i as int,
                    ));
                },
                None => {},
            }
            i += 1;
        }
        views
    }
}

} // verus!
