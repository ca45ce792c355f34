//! Replicating iterators: `N - 1` replicas of a value followed by the value
//! itself, moved out, so that one replica fewer has to be made.

use vstd::prelude::*;

verus! {

/// The source and what is needed to replicate it, or nothing once the source
/// has been moved out.
enum State<T, R> {
    Active { source: T, remaining: usize, rep_fn: R },
    Done,
}

impl<T, R> State<T, R> {
    /// Moves the source out, leaving `Done`.
    fn take_source(&mut self) -> (r: T)
        requires
            *old(self) is Active,
        ensures
            r == (*old(self))->source,
            *final(self) is Done,
    {
        let mut taken = State::Done;
        std::mem::swap(&mut taken, self);
        match taken {
            State::Active { source, .. } => source,
            State::Done => vstd::pervasive::unreached(),
        }
    }
}

impl<T, R: Replicator<T>> State<T, R> {
    /// A replica while replicas remain, counting them down, then the source
    /// itself, then nothing.
    fn next_counted(&mut self) -> (r: Option<T>)
        ensures
            *old(self) is Done ==> r is None && *final(self) is Done,
            *old(self) is Active && old(self)->remaining == 0 ==> r == Some(old(self)->source)
                && *final(self) is Done,
            *old(self) is Active && old(self)->remaining > 0 ==> {
                &&& r matches Some(replica)
                &&& old(self)->rep_fn.replicates(old(self)->source, old(self)->remaining, replica)
                &&& *final(self) is Active
                &&& final(self)->source == old(self)->source
                &&& final(self)->remaining == old(self)->remaining - 1
            },
    {
        match self {
            State::Done => {
                return None;
            },
            State::Active { source, remaining, rep_fn } => {
                if *remaining > 0 {
                    let item = rep_fn.replicate(source, *remaining);
                    *remaining = *remaining - 1;
                    return Some(item);
                }
            },
        }
        Some(self.take_source())
    }
}

/// Makes one replica of a source; `remaining` is the number of items still to
/// come after this one: the replicas left, then the source itself.
pub trait Replicator<T> {
    /// Whether `replica` is a replica this replicator may make of `source`
    /// when `remaining` items (replicas, then the source) are still to come
    /// after it.
    spec fn replicates(&self, source: T, remaining: usize, replica: T) -> bool;

    fn replicate(&mut self, source: &T, remaining: usize) -> (r: T)
        ensures
            old(self).replicates(*source, remaining, r),
    ;
}

/// Yields exactly `count` items: `count - 1` replicas, then the source itself.
pub struct RepMove<T, R: Replicator<T>> {
    state: State<T, R>,
}

impl<T, R: Replicator<T>> RepMove<T, R> {
    /// Number of items still to be yielded.
    pub closed spec fn items_left(&self) -> nat {
        match self.state {
            State::Active { remaining, .. } => remaining as nat + 1,
            State::Done => 0,
        }
    }

    /// The source value, while it has not been moved out.
    pub closed spec fn source(&self) -> Option<T> {
        match self.state {
            State::Active { source, .. } => Some(source),
            State::Done => None,
        }
    }

    /// The replicator, while the source has not been moved out.
    pub closed spec fn replicator(&self) -> Option<R> {
        match self.state {
            State::Active { rep_fn, .. } => Some(rep_fn),
            State::Done => None,
        }
    }

    /// The replicas still to come are fewer than `usize::MAX`, as `new` makes
    /// them.
    #[verifier::type_invariant]
    closed spec fn count_fits(&self) -> bool {
        match self.state {
            State::Active { remaining, .. } => remaining < usize::MAX,
            State::Done => true,
        }
    }

    /// An iterator that yields `count` items in all; with `count == 0` the
    /// source is dropped at once.
    pub fn new(source: T, rep_fn: R, count: usize) -> (r: Self)
        ensures
            r.items_left() == count,
            count > 0 ==> r.source() == Some(source),
            count == 0 ==> r.source() is None,
    {
        match count.checked_sub(1) {
            Some(remaining) => RepMove { state: State::Active { source, remaining, rep_fn } },
            None => Self::empty(),
        }
    }

    /// An iterator that yields nothing.
    pub fn empty() -> (r: Self)
        ensures
            r.items_left() == 0,
            r.source() is None,
    {
        RepMove { state: State::Done }
    }

    /// The source value without iterating, or `None` once it has been moved
    /// out or dropped.
    pub fn into_inner(self) -> (r: Option<T>)
        ensures
            r == self.source(),
    {
        match self.state {
            State::Active { source, .. } => Some(source),
            State::Done => None,
        }
    }

    /// The next item: a replica while more than one item is left, then the
    /// source itself, then nothing.
    pub fn next(&mut self) -> (r: Option<T>)
        ensures
            old(self).items_left() == 0 ==> r is None && final(self).items_left() == 0,
            old(self).items_left() > 0 ==> r is Some
                && final(self).items_left() == old(self).items_left() - 1,
            old(self).items_left() == 1 ==> r == old(self).source() && final(self).source() is None,
            old(self).items_left() > 1 ==> final(self).source() == old(self).source(),
            old(self).items_left() > 1 ==> (r matches Some(replica) && old(self).replicator()->0.replicates(
                old(self).source()->0,
                (old(self).items_left() - 1) as usize,
                replica,
            )),
    {
        proof {
            use_type_invariant(&*self);
        }
        let mut state = State::Done;
        std::mem::swap(&mut state, &mut self.state);
        let r = state.next_counted();
        self.state = state;
        r
    }

    /// Number of items still to be yielded.
    pub fn len(&self) -> (n: usize)
        ensures
            n == self.items_left(),
    {
        proof {
            use_type_invariant(self);
        }
        match &self.state {
            State::Active { remaining, .. } => *remaining + 1,
            State::Done => 0,
        }
    }
}

/// Makes one replica of a source and lowers `remaining`, the number of
/// replicas still to come, as it sees fit; it never raises it.
pub trait CountingReplicator<T> {
    /// Whether this replicator may make `replica` of `source` when
    /// `remaining` replicas were allowed, and leave `left` of them allowed.
    spec fn replicates(&self, source: T, remaining: usize, replica: T, left: usize) -> bool;

    fn replicate(&mut self, source: &T, remaining: &mut usize) -> (r: T)
        ensures
            *final(remaining) <= *old(remaining),
            old(self).replicates(*source, *old(remaining), r, *final(remaining)),
    ;
}

/// Yields replicas for as long as the replicator keeps `remaining` above
/// zero, then the source itself.
pub struct UncheckedRepMove<T, R: CountingReplicator<T>> {
    state: State<T, R>,
}

impl<T, R: CountingReplicator<T>> UncheckedRepMove<T, R> {
    /// Replicas still allowed before the source is moved out, or `None` once
    /// it has been.
    pub closed spec fn remaining(&self) -> Option<nat> {
        match self.state {
            State::Active { remaining, .. } => Some(remaining as nat),
            State::Done => None,
        }
    }

    /// The source value, while it has not been moved out.
    pub closed spec fn source(&self) -> Option<T> {
        match self.state {
            State::Active { source, .. } => Some(source),
            State::Done => None,
        }
    }

    /// The replicator, while the source has not been moved out.
    pub closed spec fn replicator(&self) -> Option<R> {
        match self.state {
            State::Active { rep_fn, .. } => Some(rep_fn),
            State::Done => None,
        }
    }

    /// An iterator allowing up to `count - 1` replicas before the source.
    pub fn new(source: T, rep_fn: R, count: usize) -> (r: Self)
        ensures
            count > 0 ==> r.remaining() == Some((count - 1) as nat) && r.source() == Some(source),
            count == 0 ==> r.remaining() is None && r.source() is None,
    {
        match count.checked_sub(1) {
            Some(remaining) => UncheckedRepMove { state: State::Active { source, remaining, rep_fn } },
            None => Self::empty(),
        }
    }

    /// An iterator that yields nothing.
    pub fn empty() -> (r: Self)
        ensures
            r.remaining() is None,
            r.source() is None,
    {
        UncheckedRepMove { state: State::Done }
    }

    /// The source value without iterating, or `None` once it is gone.
    pub fn into_inner(self) -> (r: Option<T>)
        ensures
            r == self.source(),
    {
        match self.state {
            State::Active { source, .. } => Some(source),
            State::Done => None,
        }
    }

    /// The next item: a replica while replicas remain, then the source, then
    /// nothing. The count of replicas left never grows; it is up to the
    /// replicator to bring it down to zero.
    pub fn next(&mut self) -> (r: Option<T>)
        ensures
            old(self).remaining() is None ==> r is None && final(self).remaining() is None,
            old(self).remaining() == Some(0nat) ==> r == old(self).source()
                && final(self).remaining() is None && final(self).source() is None,
            old(self).remaining() is Some && old(self).remaining()->0 > 0 ==> r is Some
                && final(self).remaining() is Some
                && final(self).remaining()->0 <= old(self).remaining()->0
                && final(self).source() == old(self).source(),
            old(self).remaining() is Some && old(self).remaining()->0 > 0 ==> (r matches Some(replica)
                && old(self).replicator()->0.replicates(
                old(self).source()->0,
                old(self).remaining()->0 as usize,
                replica,
                final(self).remaining()->0 as usize,
            )),
    {
        match &mut self.state {
            State::Done => {
                return None;
            },
            State::Active { source, remaining, rep_fn } => {
                if *remaining > 0 {
                    return Some(rep_fn.replicate(source, remaining));
                }
            },
        }
        Some(self.state.take_source())
    }
}

} // verus!
