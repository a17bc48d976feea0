//! A pool of engine instances that serves requests in turn, so that the
//! number of a request decides its instance.

use vstd::prelude::*;

verus! {

/// A pool of instances. Each request is assigned to one of them, the
/// instances taking their turns in the order in which they were given.
pub struct InstancePool<E> {
    instances: Vec<E>,
    next: usize,
    rounds: Ghost<nat>,
}

impl<E> InstancePool<E> {
    /// The instances of the pool, in the order of their turns.
    pub closed spec fn instances(&self) -> Seq<E> {
        self.instances@
    }

    /// The number of requests that were assigned so far: the full rounds
    /// through the instances, and the turns taken in the round that is open.
    pub closed spec fn assigned(&self) -> nat {
        (self.rounds@ * self.instances.len() + self.next) as nat
    }

    /// A pool has at least one instance, and the next one in turn is one of
    /// them.
    #[verifier::type_invariant]
    closed spec fn wf(&self) -> bool {
        self.instances.len() > 0 && self.next < self.instances.len()
    }

    /// A pool of the given instances, or `None` where there is none.
    pub fn new(instances: Vec<E>) -> (r: Option<Self>)
        ensures
            r is Some <==> instances.len() > 0,
            r is Some ==> r->0.instances() == instances@ && r->0.assigned() == 0,
    {
        if instances.len() == 0 {
            None
        } else {
            Some(InstancePool { instances, next: 0, rounds: Ghost(0) })
        }
    }

    /// The number of instances.
    pub fn size(&self) -> (n: usize)
        ensures
            n == self.instances().len(),
            n > 0,
    {
        proof {
            use_type_invariant(self);
        }
        self.instances.len()
    }

    /// The instance at place `i`.
    pub fn instance(&self, i: usize) -> (e: &E)
        requires
            i < self.instances().len(),
        ensures
            *e == self.instances()[i as int],
    {
        &self.instances[i]
    }

    /// Assigns the next request: request number `k`, counted from zero, goes
    /// to the instance at place `k` modulo the number of instances. The
    /// instances stay as they are.
    pub fn assign(&mut self) -> (place: usize)
        ensures
            place == old(self).assigned() % old(self).instances().len(),
            place < final(self).instances().len(),
            final(self).instances() == old(self).instances(),
            final(self).assigned() == old(self).assigned() + 1,
    {
        proof {
            use_type_invariant(&*self);
        }
        let place = self.next;
        let ghost rounds = self.rounds@;
        let ghost n = self.instances.len() as nat;
        proof {
            let turn = place as int;
            assert((rounds * n + turn) % (n as int) == turn) by (nonlinear_arith)
                requires
                    n > 0,
                    0 <= turn < n,
            ;
            assert((rounds + 1) * n == rounds * n + n) by (nonlinear_arith);
        }
        if place + 1 == self.instances.len() {
            self.next = 0;
            self.rounds = Ghost(rounds + 1);
        } else {
            self.next = place + 1;
        }
        place
    }
}

} // verus!
