//! Message bus: an in-process publish/subscribe relay. The transport channel
//! is its sole publisher; any number of session-state instances subscribe.
//! Each published frame is delivered to every live subscriber, in publish
//! order, by appending it to that subscriber's queue; a subscriber consumes
//! its queue independently, so a failing consumer never affects the others.

use vstd::prelude::*;

verus! {

/// One subscriber slot: whether the subscription is live, and the frames
/// delivered to it that its owner has not yet consumed, oldest first.
pub struct Subscriber {
    pub active: bool,
    pub queue: Vec<String>,
}

/// Model of one subscriber slot.
#[verifier::ext_equal]
pub struct SubView {
    pub active: bool,
    pub queue: Seq<Seq<char>>,
}

impl View for Subscriber {
    type V = SubView;

    open spec fn view(&self) -> SubView {
        SubView { active: self.active, queue: self.queue.deep_view() }
    }
}

/// The process-wide relay. Subscription handles are indices into the slot
/// vector; a slot is never removed, only deactivated, so handles stay valid
/// for the lifetime of the bus.
pub struct MessageBus {
    pub subs: Vec<Subscriber>,
}

impl View for MessageBus {
    type V = Seq<SubView>;

    open spec fn view(&self) -> Seq<SubView> {
        Seq::new(self.subs@.len(), |i: int| self.subs@[i]@)
    }
}

/// What publishing one frame does: every live subscriber's queue gains the
/// frame at its end; inactive slots are untouched.
pub open spec fn published(bus: Seq<SubView>, frame: Seq<char>) -> Seq<SubView> {
    Seq::new(
        bus.len(),
        |i: int|
            SubView {
                active: bus[i].active,
                queue: if bus[i].active {
                    bus[i].queue.push(frame)
                } else {
                    bus[i].queue
                },
            },
    )
}

/// What unsubscribing does: the slot goes inactive; every other slot, and an
/// out-of-range handle, is untouched.
pub open spec fn unsubscribed(bus: Seq<SubView>, h: int) -> Seq<SubView> {
    if 0 <= h < bus.len() {
        bus.update(h, SubView { active: false, queue: bus[h].queue })
    } else {
        bus
    }
}

impl MessageBus {
    /// A bus with no subscribers.
    pub fn new() -> (b: MessageBus)
        ensures
            b@ == Seq::<SubView>::empty(),
    {
        let b = MessageBus { subs: Vec::new() };
        proof {
            assert(b@ =~= Seq::<SubView>::empty());
        }
        b
    }

    /// Register a new subscriber; the returned handle names its slot.
    pub fn subscribe(&mut self) -> (h: usize)
        ensures
            h == old(self)@.len(),
            final(self)@ == old(self)@.push(
                SubView { active: true, queue: Seq::<Seq<char>>::empty() },
            ),
    {
        let h = self.subs.len();
        self.subs.push(Subscriber { active: true, queue: Vec::new() });
        proof {
            assert(self.subs@[h as int]@ =~= (SubView {
                active: true,
                queue: Seq::<Seq<char>>::empty(),
            }));
            assert(self@ =~= old(self)@.push(
                SubView { active: true, queue: Seq::<Seq<char>>::empty() },
            ));
        }
        h
    }

    /// Deliver one frame to every live subscriber. This is the fan-out step:
    /// the slot set is walked once, so a subscription taken out mid-delivery
    /// cannot disturb it, and no subscriber can block another.
    pub fn publish(&mut self, frame: &str)
        ensures
            final(self)@ == published(old(self)@, frame@),
    {
        let ghost orig = self@;
        let mut updated: Vec<Subscriber> = Vec::new();
        proof {
            assert(orig =~= Seq::new(self.subs@.len(), |i: int| self.subs@[i]@));
        }
        while self.subs.len() > 0
            invariant
                updated@.len() + self.subs@.len() == orig.len(),
                forall|k: int|
                    0 <= k < updated@.len() ==> updated@[k]@ == published(orig, frame@)[k],
                forall|k: int|
                    0 <= k < self.subs@.len() ==> self.subs@[k]@ == orig[updated@.len() + k],
            decreases self.subs.len(),
        {
            let ghost done = updated@.len() as int;
            let mut sub = self.subs.remove(0);
            if sub.active {
                sub.queue.push(String::from_str(frame));
                proof {
                    assert(sub.queue.deep_view() =~~= orig[done].queue.push(frame@));
                }
            }
            proof {
                assert(sub@ =~= published(orig, frame@)[done]);
            }
            updated.push(sub);
        }
        self.subs = updated;
        proof {
            assert(self@ =~= published(orig, frame@));
        }
    }

    /// End a subscription. Idempotent, and safe for any handle value.
    pub fn unsubscribe(&mut self, h: usize)
        ensures
            final(self)@ == unsubscribed(old(self)@, h as int),
    {
        if h < self.subs.len() {
            let mut sub = self.subs.remove(h);
            sub.active = false;
            self.subs.insert(h, sub);
            proof {
                assert(self@ =~= unsubscribed(old(self)@, h as int));
            }
        } else {
            proof {
                assert(self@ =~= unsubscribed(old(self)@, h as int));
            }
        }
    }

    /// Take the frames queued for one subscriber, oldest first, leaving its
    /// queue empty and every other slot untouched.
    pub fn drain(&mut self, h: usize) -> (frames: Vec<String>)
        requires
            h < old(self)@.len(),
        ensures
            frames.deep_view() == old(self)@[h as int].queue,
            final(self)@ == old(self)@.update(
                h as int,
                SubView { active: old(self)@[h as int].active, queue: Seq::<Seq<char>>::empty() },
            ),
    {
        let sub = self.subs.remove(h);
        let Subscriber { active, queue } = sub;
        let fresh = Subscriber { active, queue: Vec::new() };
        proof {
            assert(fresh@.queue =~~= Seq::<Seq<char>>::empty());
        }
        self.subs.insert(h, fresh);
        proof {
            assert(self@ =~= old(self)@.update(
                h as int,
                SubView { active: old(self)@[h as int].active, queue: Seq::<Seq<char>>::empty() },
            ));
        }
        queue
    }
}

/// Law: fan-out correctness. Publishing one frame delivers it exactly once
/// to each of the live subscribers, at the end of that subscriber's queue,
/// and touches nothing else: no slot appears or disappears, no activity flag
/// changes, and inactive slots keep their queues.
pub proof fn lemma_fan_out(bus: Seq<SubView>, frame: Seq<char>)
    ensures
        published(bus, frame).len() == bus.len(),
        forall|i: int|
            0 <= i < bus.len() ==> #[trigger] published(bus, frame)[i].active == bus[i].active,
        forall|i: int|
            0 <= i < bus.len() && bus[i].active ==> #[trigger] published(bus, frame)[i].queue
                == bus[i].queue.push(frame),
        forall|i: int|
            0 <= i < bus.len() && !bus[i].active ==> #[trigger] published(bus, frame)[i].queue
                == bus[i].queue,
{
}

/// Law: unsubscribing is idempotent. A second unsubscribe of the same
/// handle, or of one already out of range, changes nothing.
pub proof fn lemma_unsubscribe_idempotent(bus: Seq<SubView>, h: int)
    ensures
        unsubscribed(unsubscribed(bus, h), h) == unsubscribed(bus, h),
{
    if 0 <= h < bus.len() {
        assert(unsubscribed(unsubscribed(bus, h), h) =~= unsubscribed(bus, h));
    }
}

} // verus!
