//! Entities: append-only, ordered collections of components.
//!
//! An entity is modelled by the sequence of its [`Slot`]s in insertion order.
//! Components are found by type tag: the same tag may occur any number of
//! times, and nothing is ever removed or replaced.

use crate::ecs::components::is_tag_of;
use crate::ecs::components::tag_of;
use crate::ecs::components::Component;
use crate::ecs::components::Slot;
use std::any::TypeId;
use vstd::prelude::*;

verus! {

/// Some slot of `slots` is tagged `tag`.
pub open spec fn has_type(slots: Seq<Slot>, tag: TypeId) -> bool {
    exists|i: int| 0 <= i < slots.len() && (#[trigger] slots[i]).tag() == tag
}

/// Slot `i` of `slots` is tagged `tag`, and no earlier slot is.
pub open spec fn is_first(slots: Seq<Slot>, tag: TypeId, i: int) -> bool {
    &&& 0 <= i < slots.len()
    &&& slots[i].tag() == tag
    &&& forall|j: int| 0 <= j < i ==> (#[trigger] slots[j]).tag() != tag
}

/// The positions of the slots tagged `tag`, in insertion order.
pub open spec fn positions_of(slots: Seq<Slot>, tag: TypeId) -> Seq<int>
    decreases slots.len(),
{
    if slots.len() == 0 {
        Seq::empty()
    } else if slots.last().tag() == tag {
        positions_of(slots.drop_last(), tag).push(slots.len() - 1)
    } else {
        positions_of(slots.drop_last(), tag)
    }
}

/// `found` lists the positions of the slots tagged `tag`, in insertion order.
pub open spec fn lists_positions(found: Seq<usize>, slots: Seq<Slot>, tag: TypeId) -> bool {
    &&& found.len() == positions_of(slots, tag).len()
    &&& forall|k: int| 0 <= k < found.len() ==> #[trigger] found[k] == positions_of(slots, tag)[k]
}

/// Some slot of `slots` is tagged with one of `types`.
pub open spec fn has_any_type(slots: Seq<Slot>, types: Seq<TypeId>) -> bool {
    exists|k: int| 0 <= k < types.len() && has_type(slots, #[trigger] types[k])
}

/// `after` has the slots of `before`, each with the tag it had.
pub open spec fn same_shape(before: Seq<Slot>, after: Seq<Slot>) -> bool {
    &&& after.len() == before.len()
    &&& forall|j: int| 0 <= j < before.len() ==> (#[trigger] after[j]).tag() == before[j].tag()
}

/// `after` is `before` but for slot `i`, which kept its tag.
pub open spec fn same_but_at(before: Seq<Slot>, after: Seq<Slot>, i: int) -> bool {
    &&& same_shape(before, after)
    &&& forall|j: int| 0 <= j < before.len() && j != i ==> #[trigger] after[j] == before[j]
}

/// `component` is what the earliest slot tagged `tag` returned when asked for
/// a `T`, or nothing if no slot is tagged `tag`.
pub open spec fn first_lends<T: 'static>(
    slots: Seq<Slot>,
    tag: TypeId,
    component: Option<&T>,
) -> bool {
    if has_type(slots, tag) {
        exists|i: int| #[trigger] is_first(slots, tag, i) && slots[i].lends(component)
    } else {
        component is None
    }
}

/// `component` is what the earliest slot of `before` tagged `tag` returned
/// when asked for a `T`, for writing, and `after` is `before` but for that
/// slot; or `component` is nothing and `after` is `before`, if no slot is
/// tagged `tag`.
pub open spec fn first_lends_mut<T: 'static>(
    before: Seq<Slot>,
    after: Seq<Slot>,
    tag: TypeId,
    component: Option<&mut T>,
) -> bool {
    if has_type(before, tag) {
        exists|i: int|
            {
                &&& #[trigger] is_first(before, tag, i)
                &&& before[i].lends_mut(component)
                &&& same_but_at(before, after, i)
            }
    } else {
        component is None && after == before
    }
}

/// `found` is, in insertion order, what the slots tagged `tag` returned when
/// asked for a `T`, leaving out those that returned nothing.
pub open spec fn lends_all<T: 'static>(slots: Seq<Slot>, tag: TypeId, found: Seq<&T>) -> bool
    decreases slots.len(),
{
    if slots.len() == 0 {
        found.len() == 0
    } else if slots.last().tag() != tag {
        lends_all(slots.drop_last(), tag, found)
    } else {
        ||| slots.last().lends(None::<&T>) && lends_all(slots.drop_last(), tag, found)
        ||| found.len() > 0 && slots.last().lends(Some(found.last())) && lends_all(
            slots.drop_last(),
            tag,
            found.drop_last(),
        )
    }
}

/// `found` is, in insertion order, what the slots tagged `tag` returned when
/// asked for a `T`, for writing, leaving out those that returned nothing.
pub open spec fn lends_all_mut<T: 'static>(
    slots: Seq<Slot>,
    tag: TypeId,
    found: Seq<&mut T>,
) -> bool
    decreases slots.len(),
{
    if slots.len() == 0 {
        found.len() == 0
    } else if slots.last().tag() != tag {
        lends_all_mut(slots.drop_last(), tag, found)
    } else {
        ||| slots.last().lends_mut(None::<&mut T>) && lends_all_mut(slots.drop_last(), tag, found)
        ||| found.len() > 0 && slots.last().lends_mut(Some(found.last())) && lends_all_mut(
            slots.drop_last(),
            tag,
            found.drop_last(),
        )
    }
}

/// `after` has every slot of `before` that is not tagged `tag` as it was.
pub open spec fn others_kept(before: Seq<Slot>, after: Seq<Slot>, tag: TypeId) -> bool {
    forall|j: int|
        0 <= j < before.len() && j < after.len() && (#[trigger] before[j]).tag() != tag
            ==> after[j] == before[j]
}

/// An ordered, append-only collection of type-erased components.
pub struct Entity {
    components: Vec<Slot>,
}

impl View for Entity {
    type V = Seq<Slot>;

    closed spec fn view(&self) -> Seq<Slot> {
        self.components@
    }
}

impl Default for Entity {
    /// An entity without components.
    fn default() -> (entity: Entity)
        ensures
            entity@ == Seq::<Slot>::empty(),
    {
        Entity { components: Vec::new() }
    }
}

impl Entity {
    /// The number of components.
    pub fn len(&self) -> (n: usize)
        ensures
            n == self@.len(),
    {
        self.components.len()
    }

    /// Appends `component`, boxed and erased, under the tag of `T`. What was
    /// stored before stays where it was.
    pub fn add_component<T: Component>(&mut self, component: T)
        ensures
            final(self)@.len() == old(self)@.len() + 1,
            final(self)@.drop_last() == old(self)@,
            is_tag_of::<T>(final(self)@.last().tag()),
            final(self)@.last().holds(component),
            final(self)@.last().value_is(component),
    {
        self.components.push(Slot::new(component));
        assert(self.components@.drop_last() =~= old(self).components@);
    }

    /// The type tag of component `i`, if there is one.
    pub fn type_at(&self, i: usize) -> (tag: Option<TypeId>)
        ensures
            i < self@.len() ==> tag == Some(self@[i as int].tag()),
            i >= self@.len() ==> tag is None,
    {
        if i < self.components.len() {
            Some(self.components[i].tag())
        } else {
            None
        }
    }

    /// The position of the earliest component tagged `tag`.
    pub fn position(&self, tag: TypeId) -> (found: Option<usize>)
        ensures
            match found {
                Some(i) => is_first(self@, tag, i as int),
                None => !has_type(self@, tag),
            },
    {
        let mut i: usize = 0;
        while i < self.components.len()
            invariant
                i <= self.components.len(),
                forall|j: int| 0 <= j < i ==> (#[trigger] self@[j]).tag() != tag,
            decreases self.components.len() - i,
        {
            if self.components[i].has_tag(&tag) {
                return Some(i);
            }
            i += 1;
        }
        None
    }

    /// The positions of all components tagged `typeid`, in insertion order.
    pub fn filter_typeid(&self, typeid: TypeId) -> (found: Vec<usize>)
        ensures
            lists_positions(found@, self@, typeid),
    {
        let mut found: Vec<usize> = Vec::new();
        let mut i: usize = 0;
        while i < self.components.len()
            invariant
                i <= self.components.len(),
                lists_positions(found@, self@.take(i as int), typeid),
            decreases self.components.len() - i,
        {
            assert(self@.take(i + 1).drop_last() =~= self@.take(i as int));
            if self.components[i].has_tag(&typeid) {
                found.push(i);
            }
            i += 1;
        }
        assert(self@.take(i as int) =~= self@);
        found
    }

    /// Whether some component is tagged with one of `types`.
    pub fn has_any(&self, types: &[TypeId]) -> (any: bool)
        ensures
            any == has_any_type(self@, types@),
    {
        let mut k: usize = 0;
        while k < types.len()
            invariant
                k <= types.len(),
                forall|m: int| 0 <= m < k ==> !has_type(self@, #[trigger] types@[m]),
            decreases types.len() - k,
        {
            if self.position(types[k]).is_some() {
                assert(has_type(self@, types@[k as int]));
                return true;
            }
            k += 1;
        }
        false
    }

    /// Component `i`, if there is one and it is a `T`: what slot `i` returns
    /// when asked for a `T`.
    pub fn component_at<T: 'static>(&self, i: usize) -> (component: Option<&T>)
        ensures
            i < self@.len() ==> self@[i as int].lends(component),
            i < self@.len() && is_tag_of::<T>(self@[i as int].tag()) ==> component is Some,
            forall|value: T|
                i < self@.len() && #[trigger] self@[i as int].value_is(value) ==> component
                    == Some(&value),
            i >= self@.len() ==> component is None,
    {
        if i < self.components.len() {
            self.components[i].downcast_ref::<T>()
        } else {
            None
        }
    }

    /// Component `i` for writing, if there is one and it is a `T`: what slot
    /// `i` returns when asked for a `T`, for writing. No other component can
    /// change through the reference, and no tag can.
    pub fn component_at_mut<T: 'static>(&mut self, i: usize) -> (component: Option<&mut T>)
        ensures
            i < old(self)@.len() ==> old(self)@[i as int].lends_mut(component),
            i < old(self)@.len() && is_tag_of::<T>(old(self)@[i as int].tag())
                ==> component is Some,
            forall|value: T|
                i < old(self)@.len() && #[trigger] old(self)@[i as int].value_is(value)
                    && component is Some ==> *component->0 == value,
            component is Some ==> final(self)@[i as int].value_is(*final(component->0)),
            same_but_at(old(self)@, final(self)@, i as int),
            component is None ==> final(self)@ == old(self)@,
            i >= old(self)@.len() ==> component is None,
    {
        if i < self.components.len() {
            self.components[i].downcast_mut::<T>()
        } else {
            None
        }
    }

    /// The earliest component of type `T`: what the earliest slot under the
    /// tag of `T` returns when asked for a `T`, or nothing if there is no
    /// slot under that tag.
    pub fn get_component<T: 'static>(&self) -> (component: Option<&T>)
        ensures
            exists|tag: TypeId|
                {
                    &&& #[trigger] is_tag_of::<T>(tag)
                    &&& first_lends(self@, tag, component)
                    &&& component is Some <==> has_type(self@, tag)
                    &&& forall|i: int, value: T|
                        is_first(self@, tag, i) && #[trigger] self@[i].value_is(value)
                            ==> component == Some(&value)
                },
            self@.len() == 0 ==> component is None,
    {
        let tag = tag_of::<T>();
        assert(is_tag_of::<T>(tag));
        match self.position(tag) {
            Some(i) => {
                assert(has_type(self@, tag));
                self.components[i].downcast_ref::<T>()
            },
            None => None,
        }
    }

    /// The earliest component of type `T`, for writing: what the earliest
    /// slot under the tag of `T` returns when asked for a `T`, for writing, or
    /// nothing if there is no slot under that tag. At most that one component
    /// can change through the reference; the entity keeps its length and every
    /// tag.
    pub fn get_component_mut<T: 'static>(&mut self) -> (component: Option<&mut T>)
        ensures
            exists|tag: TypeId|
                {
                    &&& #[trigger] is_tag_of::<T>(tag)
                    &&& first_lends_mut(old(self)@, final(self)@, tag, component)
                    &&& component is Some <==> has_type(old(self)@, tag)
                    &&& forall|i: int, value: T|
                        is_first(old(self)@, tag, i) && #[trigger] old(self)@[i].value_is(value)
                            && component is Some ==> *component->0 == value
                    &&& forall|i: int|
                        #[trigger] is_first(old(self)@, tag, i) && component is Some
                            ==> final(self)@[i].value_is(*final(component->0))
                },
            component is None ==> final(self)@ == old(self)@,
    {
        let tag = tag_of::<T>();
        assert(is_tag_of::<T>(tag));
        match self.position(tag) {
            Some(i) => {
                assert(has_type(self@, tag));
                self.component_at_mut::<T>(i)
            },
            None => None,
        }
    }

    /// Every component of type `T`, in insertion order: what the slots under
    /// the tag of `T` return when asked for a `T`, leaving out those that
    /// return nothing.
    pub fn get_components<T: 'static>(&self) -> (found: Vec<&T>)
        ensures
            exists|tag: TypeId|
                {
                    &&& #[trigger] is_tag_of::<T>(tag)
                    &&& lends_all(self@, tag, found@)
                    &&& found@.len() == positions_of(self@, tag).len()
                    &&& forall|k: int, value: T|
                        0 <= k < found@.len() && #[trigger] self@[positions_of(self@, tag)[k]].value_is(
                            value,
                        ) ==> *found@[k] == value
                },
    {
        let tag = tag_of::<T>();
        assert(is_tag_of::<T>(tag));
        let mut found: Vec<&T> = Vec::new();
        let mut i: usize = 0;
        while i < self.components.len()
            invariant
                i <= self.components.len(),
                is_tag_of::<T>(tag),
                found@.len() == positions_of(self@.take(i as int), tag).len(),
                lends_all(self@.take(i as int), tag, found@),
                forall|k: int|
                    0 <= k < found@.len() ==> 0 <= #[trigger] positions_of(
                        self@.take(i as int),
                        tag,
                    )[k] < i,
                forall|k: int, value: T|
                    0 <= k < found@.len() && #[trigger] self@[positions_of(
                        self@.take(i as int),
                        tag,
                    )[k]].value_is(value) ==> *found@[k] == value,
            decreases self.components.len() - i,
        {
            assert(self@.take(i + 1).drop_last() =~= self@.take(i as int));
            assert(self@.take(i + 1).last() == self@[i as int]);
            let ghost earlier = found@;
            let ghost listed = positions_of(self@.take(i as int), tag);
            if self.components[i].has_tag(&tag) {
                match self.components[i].downcast_ref::<T>() {
                    Some(component) => {
                        found.push(component);
                        assert(found@.drop_last() =~= earlier);
                        assert(found@.last() == component);
                        assert(positions_of(self@.take(i + 1), tag) == listed.push(i as int));
                        assert(forall|k: int| 0 <= k < earlier.len() ==> found@[k] == earlier[k]);
                    },
                    None => {},
                }
            }
            i += 1;
        }
        assert(self@.take(i as int) =~= self@);
        found
    }

    /// Every component of type `T` for writing, in insertion order: what the
    /// slots under the tag of `T` return when asked for a `T`, for writing,
    /// leaving out those that return nothing. Whatever is written through the
    /// references, the entity keeps its length and every tag, and every slot
    /// under another tag stays as it was.
    pub fn get_components_mut<T: 'static>(&mut self) -> (found: Vec<&mut T>)
        ensures
            same_shape(old(self)@, final(self)@),
            exists|tag: TypeId|
                {
                    &&& #[trigger] is_tag_of::<T>(tag)
                    &&& lends_all_mut(old(self)@, tag, found@)
                    &&& found@.len() == positions_of(old(self)@, tag).len()
                    &&& forall|k: int, value: T|
                        0 <= k < found@.len() && #[trigger] old(self)@[positions_of(
                            old(self)@,
                            tag,
                        )[k]].value_is(value) ==> *found@[k] == value
                    &&& forall|k: int|
                        0 <= k < found@.len() ==> final(self)@[positions_of(old(self)@, tag)[k]].value_is(
                            *final(#[trigger] found@[k]),
                        )
                    &&& others_kept(old(self)@, final(self)@, tag)
                },
    {
        let tag = tag_of::<T>();
        assert(is_tag_of::<T>(tag));
        let mut found: Vec<&mut T> = Vec::new();
        // `rest` borrows the slots not yet visited; `done` counts those before it.
        let ghost mut done: int = 0;
        let mut rest: &mut [Slot] = self.components.as_mut_slice();
        while rest.len() > 0
            invariant
                0 <= done,
                done + rest@.len() == old(self)@.len(),
                is_tag_of::<T>(tag),
                found@.len() == positions_of(old(self)@.take(done), tag).len(),
                lends_all_mut(old(self)@.take(done), tag, found@),
                forall|k: int|
                    0 <= k < found@.len() ==> 0 <= #[trigger] positions_of(
                        old(self)@.take(done),
                        tag,
                    )[k] < done,
                forall|k: int, value: T|
                    0 <= k < found@.len() && #[trigger] old(self)@[positions_of(
                        old(self)@.take(done),
                        tag,
                    )[k]].value_is(value) ==> *found@[k] == value,
                forall|k: int|
                    0 <= k < found@.len() ==> after_borrow(self.components)@[positions_of(
                        old(self)@.take(done),
                        tag,
                    )[k]].value_is(*final(#[trigger] found@[k])),
                forall|j: int| 0 <= j < rest@.len() ==> #[trigger] rest@[j] == old(self)@[done + j],
                after_borrow(self.components)@.len() == done + final(rest)@.len(),
                forall|j: int|
                    0 <= j < done && old(self)@[j].tag() != tag ==> #[trigger] after_borrow(
                        self.components,
                    )@[j] == old(self)@[j],
                forall|j: int|
                    0 <= j < done ==> (#[trigger] after_borrow(self.components)@[j]).tag() == old(
                        self,
                    )@[j].tag(),
                forall|j: int|
                    0 <= j < final(rest)@.len() ==> after_borrow(self.components)@[done + j]
                        == #[trigger] final(rest)@[j],
            decreases rest@.len(),
        {
            let ghost before = rest@;
            // Once `rest` is split, what it will be in the end can no longer be
            // named. So what the split means for the whole is stated here, for
            // every head and tail that `rest` may end up as.
            assert forall|head: Seq<Slot>, tail: Seq<Slot>|
                final(rest)@ == #[trigger] (head + tail) && head.len() == 1 implies {
                &&& after_borrow(self.components)@[done] == head[0]
                &&& after_borrow(self.components)@.len() == done + 1 + tail.len()
                &&& forall|j: int|
                    0 <= j < tail.len() ==> after_borrow(self.components)@[done + 1 + j]
                        == #[trigger] tail[j]
            } by {
                assert(after_borrow(self.components)@[done + 0] == final(rest)@[0]);
                assert forall|j: int| 0 <= j < tail.len() implies after_borrow(
                    self.components,
                )@[done + 1 + j] == #[trigger] tail[j] by {
                    assert(after_borrow(self.components)@[done + (j + 1)] == final(rest)@[j + 1]);
                }
            }
            assert(old(self)@.take(done + 1).drop_last() =~= old(self)@.take(done));
            assert(old(self)@.take(done + 1).last() == old(self)@[done]);
            let ghost earlier = found@;
            let ghost listed = positions_of(old(self)@.take(done), tag);
            let ghost this = before[0];
            assert(this == old(self)@[done]);
            let (head, tail) = rest.split_at_mut(1);
            assert(head@[0] == this);
            assert(forall|j: int| 0 <= j < tail@.len() ==> tail@[j] == before[j + 1]);
            match head.first_mut() {
                Some(slot) => {
                    if slot.has_tag(&tag) {
                        match slot.downcast_mut::<T>() {
                            Some(component) => {
                                // The vector gets a reborrow of `component`: a
                                // reference to the same value.
                                let ghost lent = component;
                                found.push(component);
                                assert(found@.drop_last() =~= earlier);
                                proof {
                                    this.lemma_lends_mut_by_value(
                                        Some(lent),
                                        Some(found@.last()),
                                    );
                                    assert(positions_of(old(self)@.take(done + 1), tag)
                                        == listed.push(done));
                                    assert(forall|k: int|
                                        0 <= k < earlier.len() ==> found@[k] == earlier[k]);
                                }
                            },
                            None => {},
                        }
                    }
                },
                None => {},
            }
            proof {
                done = done + 1;
            }
            rest = tail;
        }
        assert(old(self)@.take(done) =~= old(self)@);
        found
    }
}

/// At most one position is the first of its type.
pub proof fn lemma_first_is_unique(slots: Seq<Slot>, tag: TypeId, i: int, j: int)
    requires
        is_first(slots, tag, i),
        is_first(slots, tag, j),
    ensures
        i == j,
{
    if i < j {
        assert(slots[i].tag() != tag);
    } else if j < i {
        assert(slots[j].tag() != tag);
    }
}

/// A type that occurs has a first occurrence.
pub proof fn lemma_present_type_has_first(slots: Seq<Slot>, tag: TypeId)
    requires
        has_type(slots, tag),
    ensures
        exists|i: int| is_first(slots, tag, i),
    decreases slots.len(),
{
    let last: int = slots.len() - 1;
    if has_type(slots.drop_last(), tag) {
        lemma_present_type_has_first(slots.drop_last(), tag);
        let i: int = choose|i: int| is_first(slots.drop_last(), tag, i);
        assert forall|j: int| 0 <= j < i implies (#[trigger] slots[j]).tag() != tag by {
            assert(slots.drop_last()[j].tag() != tag);
        }
        assert(slots[i] == slots.drop_last()[i]);
        assert(is_first(slots, tag, i));
    } else {
        let w: int = choose|i: int| 0 <= i < slots.len() && (#[trigger] slots[i]).tag() == tag;
        assert forall|j: int| 0 <= j < last implies (#[trigger] slots[j]).tag() != tag by {
            assert(slots.drop_last()[j] == slots[j]);
        }
        assert(w == last);
        assert(is_first(slots, tag, last));
    }
}

/// Insertion never displaces a first match: the component that is the first
/// of its type stays the first of its type whatever is added after it.
pub proof fn lemma_first_survives_insertion(slots: Seq<Slot>, tag: TypeId, i: int, added: Slot)
    requires
        is_first(slots, tag, i),
    ensures
        is_first(slots.push(added), tag, i),
        slots.push(added)[i] == slots[i],
{
    assert forall|j: int| 0 <= j < i implies (#[trigger] slots.push(added)[j]).tag() != tag by {
        assert(slots.push(added)[j] == slots[j]);
    }
}

/// Of two components of one type inserted one after the other into an entity
/// that has none of that type, the first inserted is the first match.
pub proof fn lemma_first_inserted_is_first_match(slots: Seq<Slot>, c1: Slot, c2: Slot)
    requires
        c1.tag() == c2.tag(),
        !has_type(slots, c1.tag()),
    ensures
        is_first(slots.push(c1).push(c2), c1.tag(), slots.len() as int),
        slots.push(c1).push(c2)[slots.len() as int] == c1,
{
    let after = slots.push(c1).push(c2);
    assert forall|j: int| 0 <= j < slots.len() implies (#[trigger] after[j]).tag()
        != c1.tag() by {
        assert(after[j] == slots[j]);
    }
}

/// Of two components of one type inserted one after the other into an entity
/// that has none of that type, the first inserted is the one returned: what
/// the first match lends is the value that was inserted first.
pub proof fn lemma_first_inserted_is_returned<T: 'static>(
    slots: Seq<Slot>,
    c1: Slot,
    c2: Slot,
    value: T,
    component: Option<&T>,
)
    requires
        c1.tag() == c2.tag(),
        !has_type(slots, c1.tag()),
        c1.value_is(value),
        first_lends(slots.push(c1).push(c2), c1.tag(), component),
    ensures
        component == Some(&value),
{
    let after = slots.push(c1).push(c2);
    let tag = c1.tag();
    lemma_first_inserted_is_first_match(slots, c1, c2);
    assert(has_type(after, tag));
    let i: int = choose|i: int| #[trigger] is_first(after, tag, i) && after[i].lends(component);
    lemma_first_is_unique(after, tag, i, slots.len() as int);
    c1.lemma_lent_is_value(value, component);
}

/// What is listed of a type is never more than there are slots of it.
pub proof fn lemma_lends_all_bound<T: 'static>(slots: Seq<Slot>, tag: TypeId, found: Seq<&T>)
    requires
        lends_all(slots, tag, found),
    ensures
        found.len() <= positions_of(slots, tag).len(),
    decreases slots.len(),
{
    if slots.len() > 0 {
        if slots.last().tag() != tag {
            lemma_lends_all_bound(slots.drop_last(), tag, found);
        } else if found.len() > 0 && slots.last().lends(Some(found.last())) && lends_all(
            slots.drop_last(),
            tag,
            found.drop_last(),
        ) {
            lemma_lends_all_bound(slots.drop_last(), tag, found.drop_last());
        } else {
            lemma_lends_all_bound(slots.drop_last(), tag, found);
        }
    }
}

/// Where as many components are listed as there are slots of the type, the
/// k-th listed is what the k-th slot of the type lent: the listing keeps the
/// insertion order, skips nothing and repeats nothing.
pub proof fn lemma_lends_all_in_order<T: 'static>(slots: Seq<Slot>, tag: TypeId, found: Seq<&T>)
    requires
        lends_all(slots, tag, found),
        found.len() == positions_of(slots, tag).len(),
    ensures
        forall|k: int|
            0 <= k < found.len() ==> slots[positions_of(slots, tag)[k]].lends(
                Some(#[trigger] found[k]),
            ),
    decreases slots.len(),
{
    if slots.len() > 0 {
        let shorter = slots.drop_last();
        lemma_positions(slots, tag);
        lemma_positions(shorter, tag);
        if slots.last().tag() != tag {
            lemma_lends_all_in_order(shorter, tag, found);
            assert forall|k: int| 0 <= k < found.len() implies slots[positions_of(slots, tag)[k]].lends(
                Some(#[trigger] found[k]),
            ) by {
                assert(slots[positions_of(shorter, tag)[k]] == shorter[positions_of(shorter, tag)[k]]);
            }
        } else if found.len() > 0 && slots.last().lends(Some(found.last())) && lends_all(
            shorter,
            tag,
            found.drop_last(),
        ) {
            lemma_lends_all_in_order(shorter, tag, found.drop_last());
            assert forall|k: int| 0 <= k < found.len() implies slots[positions_of(slots, tag)[k]].lends(
                Some(#[trigger] found[k]),
            ) by {
                if k < found.len() - 1 {
                    assert(found[k] == found.drop_last()[k]);
                    assert(positions_of(slots, tag)[k] == positions_of(shorter, tag)[k]);
                    assert(slots[positions_of(shorter, tag)[k]] == shorter[positions_of(
                        shorter,
                        tag,
                    )[k]]);
                } else {
                    assert(found[k] == found.last());
                    assert(positions_of(slots, tag)[k] == slots.len() - 1);
                }
            }
        } else {
            lemma_lends_all_bound(shorter, tag, found);
        }
    }
}

/// What `positions_of` lists: exactly the positions tagged `tag`, each once,
/// in ascending order.
pub proof fn lemma_positions(slots: Seq<Slot>, tag: TypeId)
    ensures
        forall|k: int|
            0 <= k < positions_of(slots, tag).len() ==> {
                &&& 0 <= (#[trigger] positions_of(slots, tag)[k]) < slots.len()
                &&& slots[positions_of(slots, tag)[k]].tag() == tag
            },
        forall|j: int, k: int|
            0 <= j < k < positions_of(slots, tag).len() ==> positions_of(slots, tag)[j]
                < positions_of(slots, tag)[k],
        forall|i: int|
            0 <= i < slots.len() && (#[trigger] slots[i]).tag() == tag ==> positions_of(
                slots,
                tag,
            ).contains(i),
    decreases slots.len(),
{
    if slots.len() > 0 {
        let shorter = slots.drop_last();
        let before = positions_of(shorter, tag);
        let all = positions_of(slots, tag);
        lemma_positions(shorter, tag);
        assert forall|k: int| 0 <= k < all.len() implies {
            &&& 0 <= (#[trigger] all[k]) < slots.len()
            &&& slots[all[k]].tag() == tag
        } by {
            if k < before.len() {
                assert(all[k] == before[k]);
                assert(slots[before[k]] == shorter[before[k]]);
            }
        }
        assert forall|j: int, k: int| 0 <= j < k < all.len() implies all[j] < all[k] by {
            assert(all[j] == before[j]);
            if k < before.len() {
                assert(all[k] == before[k]);
            }
        }
        assert forall|i: int| 0 <= i < slots.len() && (#[trigger] slots[i]).tag()
            == tag implies all.contains(i) by {
            if i < shorter.len() {
                assert(shorter[i] == slots[i]);
                assert(before.contains(i));
                let k: int = choose|k: int| 0 <= k < before.len() && before[k] == i;
                assert(all[k] == i);
            } else {
                assert(all[all.len() - 1] == i);
            }
        }
    }
}

/// Listing the components of a type can be repeated: whenever it is done on
/// the same entity, it comes out the same.
pub proof fn lemma_listing_is_repeatable(
    slots: Seq<Slot>,
    tag: TypeId,
    once: Seq<usize>,
    again: Seq<usize>,
)
    requires
        lists_positions(once, slots, tag),
        lists_positions(again, slots, tag),
    ensures
        once == again,
{
    assert(once =~= again);
}

/// There are as many positions of a type as there are components of it.
pub proof fn lemma_positions_count(slots: Seq<Slot>, tag: TypeId)
    ensures
        positions_of(slots, tag).len() == slots.filter(|s: Slot| s.tag() == tag).len(),
    decreases slots.len(),
{
    reveal(Seq::filter);
    if slots.len() > 0 {
        lemma_positions_count(slots.drop_last(), tag);
    }
}

/// Insertion appends to the positions of the inserted type and leaves those
/// of every other type alone.
pub proof fn lemma_positions_after_insertion(slots: Seq<Slot>, tag: TypeId, added: Slot)
    ensures
        positions_of(slots.push(added), tag) == if added.tag() == tag {
            positions_of(slots, tag).push(slots.len() as int)
        } else {
            positions_of(slots, tag)
        },
{
    assert(slots.push(added).drop_last() =~= slots);
}

/// The earliest position of a type is the first one listed for it.
pub proof fn lemma_first_position_leads(slots: Seq<Slot>, tag: TypeId)
    requires
        has_type(slots, tag),
    ensures
        positions_of(slots, tag).len() > 0,
        is_first(slots, tag, positions_of(slots, tag)[0]),
{
    let all = positions_of(slots, tag);
    lemma_positions(slots, tag);
    let w: int = choose|i: int| 0 <= i < slots.len() && (#[trigger] slots[i]).tag() == tag;
    assert(all.contains(w));
    assert forall|j: int| 0 <= j < all[0] implies (#[trigger] slots[j]).tag() != tag by {
        if slots[j].tag() == tag {
            assert(all.contains(j));
            let k: int = choose|k: int| 0 <= k < all.len() && all[k] == j;
            if k > 0 {
                assert(all[0] < all[k]);
            }
        }
    }
}

/// A query for several types asks for any of them: an entity matches a list
/// of types joined from two lists exactly when it matches one of the two.
pub proof fn lemma_any_is_union(slots: Seq<Slot>, left: Seq<TypeId>, right: Seq<TypeId>)
    ensures
        has_any_type(slots, left + right) == (has_any_type(slots, left) || has_any_type(
            slots,
            right,
        )),
{
    let both = left + right;
    if has_any_type(slots, left) {
        let k: int = choose|k: int| 0 <= k < left.len() && has_type(slots, #[trigger] left[k]);
        assert(both[k] == left[k]);
    }
    if has_any_type(slots, right) {
        let k: int = choose|k: int| 0 <= k < right.len() && has_type(slots, #[trigger] right[k]);
        assert(both[left.len() + k] == right[k]);
    }
    if has_any_type(slots, both) {
        let k: int = choose|k: int| 0 <= k < both.len() && has_type(slots, #[trigger] both[k]);
        if k < left.len() {
            assert(left[k] == both[k]);
        } else {
            assert(right[k - left.len()] == both[k]);
        }
    }
}

/// Asking for two types finds the entities that have the one or the other,
/// not only those that have both.
pub proof fn lemma_pair_is_either(slots: Seq<Slot>, a: TypeId, b: TypeId)
    ensures
        has_any_type(slots, seq![a, b]) == (has_type(slots, a) || has_type(slots, b)),
        has_any_type(slots, seq![a]) == has_type(slots, a),
{
    let pair = seq![a, b];
    let single = seq![a];
    if has_type(slots, a) {
        assert(pair[0] == a);
        assert(single[0] == a);
    }
    if has_type(slots, b) {
        assert(pair[1] == b);
    }
}

} // verus!
