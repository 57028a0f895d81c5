//! A subscription to the future invocations of one operation.
//!
//! Whoever owns the subscription asks for the next invocation, and waits for the
//! ring where there is none yet.
use std::collections::VecDeque;

use vstd::prelude::*;
use vstd::string::*;

use crate::fleet::cursor::{lane_heads, lanes_frames, LaneCursorView};
use crate::fleet::rings::FleetRings;
use crate::invoke::laws::law_operation_poll_gives_exactly_its_operation;
use crate::invoke::protocol::{operation_fault, validate_operation};
use crate::invoke::{
    invocation_views, invocations_of, lag, of_operation, Error, Invocation, InvocationBus,
    InvocationCursor, InvocationRecord, InvocationView,
};

verus! {

/// What a subscription holds.
#[verifier::ext_equal]
pub struct SubscriptionView {
    pub operation: Seq<char>,
    pub cursor: LaneCursorView,
    /// Invocations that were read and not yet handed out.
    pub pending: Seq<InvocationView>,
}

impl SubscriptionView {
    /// Everything that waits to be handed out is of the subscription's operation.
    pub open spec fn sorted_out(self) -> bool {
        forall|i: int|
            0 <= i < self.pending.len() ==> (#[trigger] self.pending[i]).operation
                == self.operation
    }
}

/// A subscription to the invocations of one operation, with a cursor of its own.
#[derive(Debug)]
pub struct InvocationSubscription {
    operation: String,
    cursor: InvocationCursor,
    pending: VecDeque<Invocation>,
}

impl View for InvocationSubscription {
    type V = SubscriptionView;

    closed spec fn view(&self) -> SubscriptionView {
        SubscriptionView {
            operation: self.operation@,
            cursor: self.cursor@,
            pending: invocation_views(self.pending@),
        }
    }
}

/// What an answer to a subscriber says.
pub open spec fn answer_view(answer: Option<Invocation>) -> Option<InvocationView> {
    match answer {
        Some(invocation) => Some(invocation@),
        None => None,
    }
}

impl InvocationSubscription {
    /// Subscribes to the future invocations of an operation.
    pub fn subscribe<F: FleetRings>(
        bus: &InvocationBus,
        fleet: &F,
        operation: &str,
    ) -> (subscription: Result<InvocationSubscription, Error>)
        requires
            fleet.sound(),
            fleet.held().usable::<InvocationRecord>(),
        ensures
            match operation_fault(operation) {
                Some(error) => subscription is Err && subscription->Err_0 == error,
                None => {
                    &&& subscription is Ok
                    &&& subscription->Ok_0@ == (SubscriptionView {
                        operation: operation@,
                        cursor: (LaneCursorView {
                            positions: lane_heads(fleet.held().ring::<InvocationRecord>()),
                            initial: 0,
                        }),
                        pending: Seq::empty(),
                    })
                    &&& subscription->Ok_0@.cursor.fits(fleet.held().capacity)
                    &&& subscription->Ok_0@.sorted_out()
                },
            },
    {
        match validate_operation(operation) {
            Ok(_) => {},
            Err(error) => {
                return Err(error);
            },
        }
        let subscription = InvocationSubscription {
            operation: operation.to_owned(),
            cursor: bus.cursor_at_head(fleet),
            pending: VecDeque::new(),
        };
        assert(subscription@.pending =~= Seq::<InvocationView>::empty());
        Ok(subscription)
    }

    /// The next invocation, if there is one: an older one that was already read,
    /// or the first of those that the ring has since. Frames that were missed
    /// are reported first; what was read with them comes next.
    pub fn next<F: FleetRings>(&mut self, bus: &InvocationBus, fleet: &F) -> (answer: Result<
        Option<Invocation>,
        Error,
    >)
        requires
            fleet.sound(),
            fleet.held().usable::<InvocationRecord>(),
            old(self)@.cursor.fits(fleet.held().capacity),
        ensures
            final(self)@.operation == old(self)@.operation,
            final(self)@.cursor.fits(fleet.held().capacity),
            old(self)@.sorted_out() ==> {
                &&& final(self)@.sorted_out()
                &&& answer matches Ok(Some(invocation)) ==> invocation@.operation
                    == old(self)@.operation
            },
            if old(self)@.pending.len() > 0 {
                &&& answer is Ok
                &&& answer_view(answer->Ok_0) == Some(old(self)@.pending[0])
                &&& final(self)@.pending == old(self)@.pending.drop_first()
                &&& final(self)@.cursor == old(self)@.cursor
            } else {
                let ring = fleet.held().ring::<InvocationRecord>();
                let positions = old(self)@.cursor.begin(fleet.held().capacity);
                let frames = lanes_frames(ring, positions, positions.len());
                let invocations = invocations_of(frames);
                let lagged = lag(ring, positions, (frames.len() - invocations.len()) as nat);
                let found = of_operation(invocations, old(self)@.operation);
                &&& final(self)@.cursor == (LaneCursorView {
                    positions: lane_heads(ring),
                    initial: old(self)@.cursor.initial,
                })
                &&& if lagged > 0 {
                    &&& answer == Err::<Option<Invocation>, Error>(Error::Lagged(lagged as u64))
                    &&& final(self)@.pending == found
                } else if found.len() > 0 {
                    &&& answer is Ok
                    &&& answer_view(answer->Ok_0) == Some(found[0])
                    &&& final(self)@.pending == found.drop_first()
                } else {
                    &&& answer == Ok::<Option<Invocation>, Error>(None)
                    &&& final(self)@.pending == found
                }
            },
    {
        let ghost waiting = self.pending@;
        match self.pending.pop_front() {
            Some(invocation) => {
                proof {
                    assert(invocation_views(self.pending@) =~= invocation_views(
                        waiting,
                    ).drop_first());
                    assert(invocation@ == old(self)@.pending[0]);
                }
                return Ok(Some(invocation));
            },
            None => {},
        }
        proof {
            fleet.lemma_sound();
            crate::fleet::lemma_ring_fits::<InvocationRecord>(fleet.held());
            crate::invoke::lemma_invocation_record();
        }
        let poll = bus.poll_operation(fleet, &mut self.cursor, self.operation.as_str());
        let lagged: u64 = poll.lagged;
        let ghost found = invocation_views(poll.invocations@);
        proof {
            let ring = fleet.held().ring::<InvocationRecord>();
            let positions = old(self)@.cursor.begin(fleet.held().capacity);
            let frames = lanes_frames(ring, positions, positions.len());
            let _ = law_operation_poll_gives_exactly_its_operation(
                invocations_of(frames),
                old(self)@.operation,
            );
            assert forall|i: int| 0 <= i < found.len() implies (#[trigger] found[i]).operation
                == old(self)@.operation by {
                assert(found[i].operation =~= old(self)@.operation);
            }
        }
        let mut rest: Vec<Invocation> = poll.invocations;
        let ghost mut done: int = 0;
        assert(found.subrange(0, 0) =~= Seq::<InvocationView>::empty());
        assert(invocation_views(self.pending@) =~= Seq::<InvocationView>::empty());
        while rest.len() > 0
            invariant
                self.operation@ == old(self)@.operation,
                self.cursor@.fits(fleet.held().capacity),
                0 <= done,
                rest@.len() + done == found.len(),
                invocation_views(rest@) == found.subrange(done, found.len() as int),
                invocation_views(self.pending@) == found.subrange(0, done),
                self.cursor@ == (LaneCursorView {
                    positions: lane_heads(fleet.held().ring::<InvocationRecord>()),
                    initial: old(self)@.cursor.initial,
                }),
            decreases rest@.len(),
        {
            let ghost before = self.pending@;
            let ghost left = rest@;
            let invocation: Invocation = rest.remove(0);
            assert(invocation@ == invocation_views(left)[0]);
            self.pending.push_back(invocation);
            proof {
                assert(invocation_views(self.pending@) =~= invocation_views(before).push(
                    invocation@,
                ));
                done = done + 1;
                assert(found.subrange(0, done) =~= found.subrange(0, done - 1).push(
                    found[done - 1],
                ));
                assert forall|i: int| 0 <= i < rest@.len() implies invocation_views(rest@)[i]
                    == found.subrange(done, found.len() as int)[i] by {
                    assert(rest@[i] == left[i + 1]);
                    assert(invocation_views(left)[i + 1] == found.subrange(
                        done - 1,
                        found.len() as int,
                    )[i + 1]);
                }
                assert(invocation_views(rest@) =~= found.subrange(done, found.len() as int));
            }
        }
        assert(found.subrange(0, found.len() as int) =~= found);
        if lagged > 0 {
            return Err(Error::Lagged(lagged));
        }
        let ghost queued = self.pending@;
        match self.pending.pop_front() {
            Some(invocation) => {
                proof {
                    assert(invocation_views(self.pending@) =~= invocation_views(
                        queued,
                    ).drop_first());
                    assert(invocation@ == invocation_views(queued)[0]);
                }
                Ok(Some(invocation))
            },
            None => {
                assert(invocation_views(self.pending@) =~= found);
                Ok(None)
            },
        }
    }
}

} // verus!
