//! The scheduler: a world, the systems that act on it, and frame timing.
//!
//! A system is any callable that takes a shared reference to the world. One
//! [`Game::update`] is one frame: every system runs once, in the order of
//! registration, and then the time since the previous frame ended is
//! recorded.

use crate::ecs::world::World;
use std::time::Duration;
use std::time::Instant;
use vstd::prelude::*;

verus! {

/// `std::time::Instant`, a reading of the monotonic clock. Opaque to the
/// verifier.
#[verifier::external_type_specification]
#[verifier::external_body]
pub struct ExInstant(Instant);

/// `Instant::now`: the clock's current reading. Nothing is claimed of it.
pub assume_specification[ Instant::now ]() -> (now: Instant);

/// `Instant::elapsed`: the time that has passed since `start` was read, or
/// zero where the clock is behind `start`. Nothing is claimed of it.
pub assume_specification[ Instant::elapsed ](start: &Instant) -> (elapsed: Duration);

/// The duration of `secs` seconds and `nanos` nanoseconds.
pub uninterp spec fn duration_of(secs: u64, nanos: u32) -> Duration;

/// `Duration::new`: the duration of `secs` seconds and `nanos` nanoseconds.
/// It panics when the nanoseconds carry into seconds that no longer fit.
pub assume_specification[ Duration::new ](secs: u64, nanos: u32) -> (duration: Duration)
    requires
        secs + nanos / 1_000_000_000 <= u64::MAX,
    ensures
        duration == duration_of(secs, nanos),
;

/// A `Box<dyn FnMut(&World)>`: a registered system. The verifier is told
/// nothing of what is inside.
#[verifier::external_body]
pub struct System {
    run: Box<dyn FnMut(&World)>,
}

/// `Box::new`, and the unsizing of the box to `Box<dyn FnMut(&World)>`: moves
/// a callable to the heap and forgets its type. Nothing is claimed of the
/// result. The callable has to accept every world, since it will be called
/// on whichever world the game has when a frame runs.
#[verifier::external_body]
fn boxed<F: 'static + FnMut(&World)>(system: F) -> (stored: System)
    requires
        forall|world: World| system.requires((&world,)),
{
    System { run: Box::new(system) }
}

/// The call operator of `Box<dyn FnMut(&World)>`: runs the system on `world`.
/// Nothing is claimed of what the system does.
#[verifier::external_body]
fn run(system: &mut System, world: &World) {
    (system.run)(world)
}

/// `stored` is `system`, boxed: it is what boxing `system` returned.
pub closed spec fn stores<F: 'static + FnMut(&World)>(stored: System, system: F) -> bool {
    call_ensures(boxed::<F>, (system,), stored)
}

/// `system` was called on `world`: the call operator of the boxed callable
/// was applied to it and returned.
pub closed spec fn was_run(system: System, world: World) -> bool {
    exists|called: &mut System|
        mut_ref_current(called) == system && #[trigger] call_ensures(run, (called, &world), ())
}

/// The call behind `called` was made: the call operator of the boxed callable
/// was applied to it, on `world`, and returned.
pub closed spec fn ran(called: &mut System, world: World) -> bool {
    call_ensures(run, (called, &world), ())
}

/// One world, the systems that run on it each frame, and frame timing.
pub struct Game {
    /// The world that the systems act on.
    pub world: World,
    /// The time between the ends of the two most recent frames.
    pub delta_time: Duration,
    systems: Vec<System>,
    last_end: Instant,
}

impl Game {
    /// The world that the systems act on.
    pub closed spec fn spec_world(&self) -> &World {
        &self.world
    }

    /// The time between the ends of the two most recent frames.
    pub closed spec fn spec_delta_time(&self) -> Duration {
        self.delta_time
    }

    /// The registered systems, in the order in which they run.
    pub closed spec fn systems(&self) -> Seq<System> {
        self.systems@
    }

    /// The clock reading taken when the most recent frame ended.
    pub closed spec fn last_end(&self) -> Instant {
        self.last_end
    }

    /// A game over `world` with no systems and no time passed. The first
    /// frame is measured from now: from what `Instant::now` returned.
    pub fn new(world: World) -> (game: Game)
        ensures
            *game.world() == world,
            game.delta_time() == duration_of(0, 0),
            game.systems() == Seq::<System>::empty(),
            call_ensures(Instant::now, (), game.last_end()),
    {
        Game {
            world,
            delta_time: Duration::new(0, 0),
            systems: Vec::new(),
            last_end: Instant::now(),
        }
    }

    /// The world that the systems act on.
    #[verifier::when_used_as_spec(spec_world)]
    pub fn world(&self) -> (world: &World)
        ensures
            world == self.spec_world(),
    {
        &self.world
    }

    /// The time between the ends of the two most recent frames.
    #[verifier::when_used_as_spec(spec_delta_time)]
    pub fn delta_time(&self) -> (delta: Duration)
        ensures
            delta == self.spec_delta_time(),
    {
        self.delta_time
    }

    /// The number of registered systems.
    pub fn system_count(&self) -> (n: usize)
        ensures
            n == self.systems().len(),
    {
        self.systems.len()
    }

    /// Registers `system`, boxed, to run after every system registered so far. A
    /// system has to accept every world: it is called on whichever world the
    /// game has when a frame runs.
    pub fn add_system<F: 'static + FnMut(&World)>(&mut self, system: F)
        requires
            forall|world: World| system.requires((&world,)),
        ensures
            final(self).systems().len() == old(self).systems().len() + 1,
            final(self).systems().drop_last() == old(self).systems(),
            stores(final(self).systems().last(), system),
            final(self).world() == old(self).world(),
            final(self).delta_time() == old(self).delta_time(),
            final(self).last_end() == old(self).last_end(),
    {
        self.systems.push(boxed(system));
        assert(self.systems@.drop_last() =~= old(self).systems@);
    }

    /// Runs every system once on the world, in the order of registration:
    /// each system, as it stood when the run began, is called on the game's
    /// world. The world keeps its entities and their locks, and timing is not
    /// touched. With no system registered nothing changes.
    pub fn run_systems(&mut self)
        ensures
            forall|i: int|
                #![trigger old(self).systems()[i]]
                0 <= i < old(self).systems().len() ==> {
                    &&& was_run(old(self).systems()[i], *old(self).world())
                    &&& exists|called: &mut System|
                        {
                            &&& #[trigger] ran(called, *old(self).world())
                            &&& mut_ref_current(called) == old(self).systems()[i]
                            &&& mut_ref_future(called) == final(self).systems()[i]
                        }
                },
            final(self).systems().len() == old(self).systems().len(),
            old(self).systems().len() == 0 ==> final(self).systems() == old(self).systems(),
            final(self).world() == old(self).world(),
            final(self).delta_time() == old(self).delta_time(),
            final(self).last_end() == old(self).last_end(),
    {
        let mut i: usize = 0;
        while i < self.systems.len()
            invariant
                i <= self.systems.len(),
                self.systems@.len() == old(self).systems@.len(),
                forall|j: int| i <= j < self.systems@.len() ==> self.systems@[j] == old(self).systems@[j],
                forall|j: int|
                    0 <= j < i ==> was_run(#[trigger] old(self).systems@[j], old(self).world),
                forall|j: int|
                    #![trigger old(self).systems@[j]]
                    0 <= j < i ==> exists|called: &mut System|
                        {
                            &&& #[trigger] ran(called, old(self).world)
                            &&& mut_ref_current(called) == old(self).systems@[j]
                            &&& mut_ref_future(called) == self.systems@[j]
                        },
                self.world == old(self).world,
                self.delta_time == old(self).delta_time,
                self.last_end == old(self).last_end,
            decreases self.systems.len() - i,
        {
            let ghost earlier = self.systems@;
            assert(forall|called: &mut System| #[trigger]
                call_ensures(run, (called, &self.world), ()) ==> ran(called, self.world));
            run(&mut self.systems[i], &self.world);
            assert(forall|j: int| 0 <= j < i ==> self.systems@[j] == earlier[j]);
            i += 1;
        }
        assert(old(self).systems().len() == 0 ==> self.systems() =~= old(self).systems());
    }

    /// Ends a frame: `elapsed` becomes the frame's delta and `now` the
    /// reading from which the next frame is measured.
    pub fn end_frame(&mut self, elapsed: Duration, now: Instant)
        ensures
            final(self).delta_time() == elapsed,
            final(self).last_end() == now,
            final(self).systems() == old(self).systems(),
            final(self).world() == old(self).world(),
    {
        self.delta_time = elapsed;
        self.last_end = now;
    }

    /// One frame: runs every system once, in the order of registration, then
    /// records the time since the previous frame ended and starts measuring
    /// the next. The delta is what `Instant::elapsed` returns for the end of
    /// the previous frame, and the new end is what `Instant::now` returns.
    /// With no system registered a frame does nothing but that.
    pub fn update(&mut self)
        ensures
            forall|i: int|
                #![trigger old(self).systems()[i]]
                0 <= i < old(self).systems().len() ==> {
                    &&& was_run(old(self).systems()[i], *old(self).world())
                    &&& exists|called: &mut System|
                        {
                            &&& #[trigger] ran(called, *old(self).world())
                            &&& mut_ref_current(called) == old(self).systems()[i]
                            &&& mut_ref_future(called) == final(self).systems()[i]
                        }
                },
            call_ensures(Instant::elapsed, (&old(self).last_end(),), final(self).delta_time()),
            call_ensures(Instant::now, (), final(self).last_end()),
            final(self).systems().len() == old(self).systems().len(),
            final(self).world() == old(self).world(),
            old(self).systems().len() == 0 ==> final(self).systems() == old(self).systems(),
    {
        self.run_systems();
        let elapsed = self.last_end.elapsed();
        let now = Instant::now();
        self.end_frame(elapsed, now);
        assert(old(self).systems().len() == 0 ==> self.systems() =~= old(self).systems());
    }
}

} // verus!
