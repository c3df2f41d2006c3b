//! Transport channel: the model of the single persistent connection that
//! every session shares. Outbound frames are accepted only while the
//! connection is up — `send` reports `Closed` instead of blocking or queuing
//! when it is not — and inbound frames are pushed to the message bus in
//! exactly their arrival order. The byte-level connection itself lives
//! outside this core; the channel records what crosses it, in order.

use vstd::prelude::*;

use crate::bus::MessageBus;
use crate::bus::published;

verus! {

/// Failure to send: there is no live connection at the moment.
#[derive(Clone, Copy, Debug, PartialEq, Eq, Structural)]
pub enum SendError {
    Closed,
}

/// The single logical connection, created once per application session.
/// `outbound` records every frame accepted for sending and `inbound` every
/// frame received, each in order.
pub struct Channel {
    pub connected: bool,
    pub outbound: Vec<String>,
    pub inbound: Vec<String>,
}

/// Model of the channel.
#[verifier::ext_equal]
pub struct ChannelView {
    pub connected: bool,
    pub outbound: Seq<Seq<char>>,
    pub inbound: Seq<Seq<char>>,
}

impl View for Channel {
    type V = ChannelView;

    open spec fn view(&self) -> ChannelView {
        ChannelView {
            connected: self.connected,
            outbound: self.outbound.deep_view(),
            inbound: self.inbound.deep_view(),
        }
    }
}

impl Channel {
    /// A freshly established connection with nothing sent or received.
    pub fn new() -> (c: Channel)
        ensures
            c@ == (ChannelView {
                connected: true,
                outbound: Seq::<Seq<char>>::empty(),
                inbound: Seq::<Seq<char>>::empty(),
            }),
    {
        let c = Channel { connected: true, outbound: Vec::new(), inbound: Vec::new() };
        proof {
            assert(c@ =~~= (ChannelView {
                connected: true,
                outbound: Seq::<Seq<char>>::empty(),
                inbound: Seq::<Seq<char>>::empty(),
            }));
        }
        c
    }

    /// Record that the underlying connection came up or went down.
    pub fn set_connected(&mut self, up: bool)
        ensures
            final(self)@ == (ChannelView { connected: up, ..old(self)@ }),
    {
        self.connected = up;
        proof {
            assert(self@ =~= (ChannelView { connected: up, ..old(self)@ }));
        }
    }

    /// Accept one outbound frame, non-blocking. While the connection is up
    /// the frame is appended to the outbound record and the call succeeds;
    /// otherwise nothing changes and the caller gets `Closed`, exactly then.
    pub fn send(&mut self, frame: String) -> (r: Result<(), SendError>)
        ensures
            old(self)@.connected ==> r == Ok::<(), SendError>(()) && final(self)@ == (ChannelView {
                outbound: old(self)@.outbound.push(frame@),
                ..old(self)@
            }),
            !old(self)@.connected ==> r == Err::<(), SendError>(SendError::Closed) && final(self)@
                == old(self)@,
    {
        if self.connected {
            let ghost fv = frame@;
            self.outbound.push(frame);
            proof {
                assert(self@ =~~= (ChannelView {
                    outbound: old(self)@.outbound.push(fv),
                    ..old(self)@
                }));
            }
            Ok(())
        } else {
            Err(SendError::Closed)
        }
    }

    /// Take delivery of one inbound frame: record it, then publish it on the
    /// bus. Calls arrive in network order, so the inbound record and every
    /// subscriber queue see frames in exactly that order.
    pub fn receive(&mut self, frame: &str, bus: &mut MessageBus)
        ensures
            final(self)@ == (ChannelView {
                inbound: old(self)@.inbound.push(frame@),
                ..old(self)@
            }),
            final(bus)@ == published(old(bus)@, frame@),
    {
        self.inbound.push(String::from_str(frame));
        proof {
            assert(self@ =~~= (ChannelView {
                inbound: old(self)@.inbound.push(frame@),
                ..old(self)@
            }));
        }
        bus.publish(frame);
    }
}

} // verus!
