//! Components and their type-erased storage.
//!
//! A component is any debuggable, thread-safe value with a stable type. An
//! entity stores each one in a [`Slot`]: the value itself, boxed and erased,
//! next to the [`TypeId`] of its concrete type. Everything an entity or a
//! world decides, it decides on those tags; the erased value is only ever
//! handed back to a caller who names its type.
//!
//! The tag of a type and the inside of an erased value are not known to the
//! verifier. What is stated of them is where they came from: that a tag is
//! the one that `TypeId::of::<T>()` returns ([`is_tag_of`]), that a slot
//! holds what erasing a component returned ([`Slot::holds`]), and that a
//! reference is what asking a slot for a `T` returned ([`Slot::lends`],
//! [`Slot::lends_mut`]). Three facts about boxes are taken on trust and tie
//! these together: a type has one tag; a box whose value is of type `T` hands
//! out a reference when asked for a `T`; and that reference points to the
//! value in the box ([`Slot::value_is`]), before a write and after it.
//!
//! A slot's tag is the one its box gives for the value inside, so a slot is
//! always under the tag of what it holds.

use downcast_rs::Downcast;
use downcast_rs::DowncastSync;
use std::any::TypeId;
use std::fmt::Debug;
use vstd::prelude::*;

verus! {

/// The capabilities every component has. Implemented for every type that
/// qualifies; it imposes no behaviour.
pub trait Component: Debug + Send + Sync + 'static {

}

impl<T> Component for T where T: Debug + Send + Sync + 'static {

}

/// `std::any::TypeId`, the runtime tag of a concrete type. Opaque to the
/// verifier: two tags can be compared for equality and nothing else.
#[verifier::external_type_specification]
#[verifier::external_body]
pub struct ExTypeId(TypeId);

/// `TypeId::of`: the tag of `T`. Nothing is claimed here of the value
/// returned; `tag_of` makes the call.
pub assume_specification<T: ?Sized + 'static>[ TypeId::of::<T> ]() -> (tag: TypeId);

/// `tag` is the tag of `T`: `TypeId::of::<T>()` returned it, and returns no
/// other.
pub open spec fn is_tag_of<T: ?Sized + 'static>(tag: TypeId) -> bool {
    &&& call_ensures(TypeId::of::<T>, (), tag)
    &&& forall|other: TypeId| #[trigger] call_ensures(TypeId::of::<T>, (), other) ==> other == tag
}

/// A type has one tag.
pub proof fn lemma_one_tag_per_type<T: ?Sized + 'static>(one: TypeId, other: TypeId)
    requires
        is_tag_of::<T>(one),
        is_tag_of::<T>(other),
    ensures
        one == other,
{
}

/// `TypeId::of`: the tag of `T`. Every call for one type returns the same
/// tag, since a tag identifies its type.
#[verifier::external_body]
pub(crate) fn tag_of<T: ?Sized + 'static>() -> (tag: TypeId)
    ensures
        is_tag_of::<T>(tag),
{
    TypeId::of::<T>()
}

/// `TypeId`'s `==`: true exactly when the two are the same tag.
#[verifier::external_body]
fn same_type(a: &TypeId, b: &TypeId) -> (same: bool)
    ensures
        same == (*a == *b),
{
    a == b
}

/// A `Box<dyn DowncastSync>`: a boxed component whose concrete type has been
/// erased. The verifier is told nothing of what is inside.
#[verifier::external_body]
pub struct Erased {
    value: Box<dyn DowncastSync>,
}

/// `Downcast::as_any`, then `<dyn Any>::type_id`: the tag of the boxed
/// value's concrete type. Nothing is claimed of the result.
#[verifier::external_body]
fn stored_type(erased: &Erased) -> (tag: TypeId) {
    (*erased.value).as_any().type_id()
}

/// `tag` is a tag that `erased` gave for the concrete type of its value.
pub closed spec fn is_stored_type(erased: Erased, tag: TypeId) -> bool {
    call_ensures(stored_type, (&erased,), tag)
}

/// Asking `erased` for a `T` gives a reference to `value`, whenever it gives
/// an answer: `erased` holds `value`.
pub closed spec fn holds_value<T: 'static>(erased: Erased, value: T) -> bool {
    forall|component: Option<&T>| #[trigger]
        call_ensures(recover::<T>, (&erased,), component) ==> component == Some(&value)
}

/// `Box::new`, and the unsizing of the box to `Box<dyn DowncastSync>`: moves
/// a component to the heap and forgets its type. The claims: the tag that
/// the box gives for its value is the tag of `T`, and the box holds
/// `component`.
#[verifier::external_body]
fn erase<T: Component>(component: T) -> (erased: Erased)
    ensures
        forall|tag: TypeId| #[trigger] is_stored_type(erased, tag) ==> is_tag_of::<T>(tag),
        holds_value(erased, component),
{
    Erased { value: Box::new(component) }
}

/// `Downcast::as_any`, then `<dyn Any>::downcast_ref`: a shared reference to
/// the boxed value if its concrete type is `T`. The one claim: a box that
/// gives the tag of `T` for its value hands out a reference.
#[verifier::external_body]
fn recover<T: 'static>(erased: &Erased) -> (component: Option<&T>)
    ensures
        (exists|tag: TypeId| is_tag_of::<T>(tag) && #[trigger] is_stored_type(*erased, tag))
            ==> component is Some,
{
    (*erased.value).as_any().downcast_ref::<T>()
}

/// `Downcast::as_any_mut`, then `<dyn Any>::downcast_mut`: an exclusive
/// reference to the boxed value if its concrete type is `T`. It does not
/// unwind. The claims: a box that gives the tag of `T` for its value hands
/// out a reference; the reference points to the value that the box holds;
/// in the end the box holds what the reference then points to; where no
/// reference is handed out, the box is as it was; and whatever is written,
/// the box goes on giving the tags it gave.
#[verifier::external_body]
fn recover_mut<T: 'static>(erased: &mut Erased) -> (component: Option<&mut T>)
    ensures
        (exists|tag: TypeId| is_tag_of::<T>(tag) && #[trigger] is_stored_type(*old(erased), tag))
            ==> component is Some,
        forall|value: T| #[trigger]
            holds_value(*old(erased), value) && component is Some ==> *component->0 == value,
        component is Some ==> holds_value(*final(erased), *final(component->0)),
        component is None ==> *final(erased) == *old(erased),
        forall|tag: TypeId|
            is_stored_type(*old(erased), tag) ==> #[trigger] is_stored_type(*final(erased), tag),
    no_unwind
{
    (*erased.value).as_any_mut().downcast_mut::<T>()
}

/// One stored component: its type tag and the erased value.
pub struct Slot {
    tag: TypeId,
    value: Erased,
}

impl Slot {
    /// The tag recorded is one that the stored value gave for its type.
    #[verifier::type_invariant]
    spec fn tagged_by_value(self) -> bool {
        is_stored_type(self.value, self.tag)
    }

    /// The type tag recorded when the component was stored.
    pub closed spec fn spec_tag(&self) -> TypeId {
        self.tag
    }

    /// The stored value is `component`, boxed and erased: it is what erasing
    /// `component` returned.
    pub closed spec fn holds<T: Component>(self, component: T) -> bool {
        call_ensures(erase::<T>, (component,), self.value)
    }

    /// The slot holds `value`: asking it for a `T` gives a reference to
    /// `value`, whenever it gives an answer.
    pub closed spec fn value_is<T: 'static>(self, value: T) -> bool {
        holds_value(self.value, value)
    }

    /// What a slot lends is the value it holds.
    pub proof fn lemma_lent_is_value<T: 'static>(self, value: T, component: Option<&T>)
        requires
            self.value_is(value),
            self.lends(component),
        ensures
            component == Some(&value),
    {
    }

    /// `component` is what asking the stored value for a `T` returned.
    pub closed spec fn lends<T: 'static>(self, component: Option<&T>) -> bool {
        call_ensures(recover::<T>, (&self.value,), component)
    }

    /// `component` is what asking the stored value for a `T`, for writing,
    /// returned: nothing where that returned nothing, and else a reference
    /// to the value that the returned reference pointed to.
    pub closed spec fn lends_mut<T: 'static>(self, component: Option<&mut T>) -> bool {
        exists|erased: &mut Erased, lent: Option<&mut T>|
            {
                &&& mut_ref_current(erased) == self.value
                &&& #[trigger] call_ensures(recover_mut::<T>, (erased,), lent)
                &&& lent is None <==> component is None
                &&& lent is Some && component is Some ==> mut_ref_current(lent->0)
                    == mut_ref_current(component->0)
            }
    }

    /// What a slot lends for writing is known by the value pointed to: a
    /// reference to the same value is lent as well.
    pub proof fn lemma_lends_mut_by_value<T: 'static>(
        self,
        lent: Option<&mut T>,
        other: Option<&mut T>,
    )
        requires
            self.lends_mut(lent),
            lent is Some,
            other is Some,
            mut_ref_current(lent->0) == mut_ref_current(other->0),
        ensures
            self.lends_mut(other),
    {
    }

    /// Stores `component`, boxed and erased, under the tag that the box gives
    /// for it, which is the tag of `T`.
    pub(crate) fn new<T: Component>(component: T) -> (slot: Slot)
        ensures
            is_tag_of::<T>(slot.tag()),
            slot.holds(component),
            slot.value_is(component),
    {
        let value = erase(component);
        let tag = stored_type(&value);
        Slot { tag, value }
    }

    /// The type tag recorded when the component was stored.
    #[verifier::when_used_as_spec(spec_tag)]
    pub fn tag(&self) -> (tag: TypeId)
        ensures
            tag == self.spec_tag(),
    {
        self.tag
    }

    /// Whether the slot's type tag is `tag`.
    pub fn has_tag(&self, tag: &TypeId) -> (same: bool)
        ensures
            same == (self.tag() == *tag),
    {
        same_type(&self.tag, tag)
    }

    /// The stored component, if it is a `T`: what asking the stored value
    /// for a `T` returns.
    pub(crate) fn downcast_ref<T: 'static>(&self) -> (component: Option<&T>)
        ensures
            self.lends(component),
            is_tag_of::<T>(self.tag()) ==> component is Some,
            forall|value: T| #[trigger] self.value_is(value) ==> component == Some(&value),
    {
        proof {
            use_type_invariant(self);
        }
        recover::<T>(&self.value)
    }

    /// The stored component for writing, if it is a `T`: what asking the
    /// stored value for a `T`, for writing, returns. The slot keeps its tag
    /// whatever is written, and is untouched when nothing is handed out.
    pub(crate) fn downcast_mut<T: 'static>(&mut self) -> (component: Option<&mut T>)
        ensures
            old(self).lends_mut(component),
            is_tag_of::<T>(old(self).tag()) ==> component is Some,
            forall|value: T| #[trigger]
                old(self).value_is(value) && component is Some ==> *component->0 == value,
            component is Some ==> final(self).value_is(*final(component->0)),
            final(self).tag() == old(self).tag(),
            component is None ==> *final(self) == *old(self),
    {
        proof {
            use_type_invariant(&*self);
        }
        recover_mut::<T>(&mut self.value)
    }
}

} // verus!
