//! Session state: the per-UI-surface reconciled view of the chat. Each
//! instance subscribes to the message bus, applies decoded operations to its
//! roster and message log, and submits outbound messages through the shared
//! transport channel.
//!
//! The reconciliation rules: a `Users` operation replaces the roster
//! wholesale; a `Message` operation appends one entry to the log, rendered
//! with the sender's profile if the sender is in the roster and with a
//! deterministic placeholder profile otherwise; a malformed frame is dropped
//! and changes nothing; the log is append-only, never truncated or
//! reordered.

use vstd::prelude::*;

use crate::bus::MessageBus;
use crate::bus::SubView;
use crate::bus::unsubscribed;
use crate::codec;
use crate::codec::ChatMessage;
use crate::codec::DecodeError;
use crate::codec::OpView;
use crate::codec::Operation;
use crate::transport::Channel;
use crate::transport::ChannelView;
use crate::transport::SendError;

verus! {

/// One member of the roster: a display name and the avatar image address
/// derived from it.
pub struct UserProfile {
    pub name: String,
    pub avatar: String,
}

/// Model of a roster member.
#[verifier::ext_equal]
pub struct ProfileView {
    pub name: Seq<char>,
    pub avatar: Seq<char>,
}

impl View for UserProfile {
    type V = ProfileView;

    open spec fn view(&self) -> ProfileView {
        ProfileView { name: self.name@, avatar: self.avatar@ }
    }
}

/// One rendered entry of the message log: the sender, the message body, and
/// the avatar the entry is displayed with.
pub struct LogEntry {
    pub from: String,
    pub body: String,
    pub avatar: String,
}

/// Model of a log entry.
#[verifier::ext_equal]
pub struct EntryView {
    pub from: Seq<char>,
    pub body: Seq<char>,
    pub avatar: Seq<char>,
}

impl View for LogEntry {
    type V = EntryView;

    open spec fn view(&self) -> EntryView {
        EntryView { from: self.from@, body: self.body@, avatar: self.avatar@ }
    }
}

/// The avatar address for a roster member: a fixed template over the name
/// alone, so equal names always render with equal avatars.
pub open spec fn avatar_url_of(name: Seq<char>) -> Seq<char> {
    "https://avatars.dicebear.com/api/adventurer-neutral/"@ + name + ".svg"@
}

/// The placeholder avatar for a sender absent from the roster: a different
/// fixed template, still a pure function of the name.
pub open spec fn placeholder_url_of(name: Seq<char>) -> Seq<char> {
    "https://avatars.dicebear.com/api/identicon/"@ + name + ".svg"@
}

/// The roster member derived from one name.
pub open spec fn profile_of(name: Seq<char>) -> ProfileView {
    ProfileView { name: name, avatar: avatar_url_of(name) }
}

/// The roster derived from a full membership list, in the list's order.
pub open spec fn roster_of(names: Seq<Seq<char>>) -> Seq<ProfileView> {
    Seq::new(names.len(), |i: int| profile_of(names[i]))
}

/// The first roster member with the given name, if any.
pub open spec fn find_profile(roster: Seq<ProfileView>, name: Seq<char>) -> Option<ProfileView>
    decreases roster.len(),
{
    if roster.len() == 0 {
        None
    } else if roster[0].name == name {
        Some(roster[0])
    } else {
        find_profile(roster.drop_first(), name)
    }
}

/// The log entry a message produces: rendered with the sender's roster
/// profile when the sender is known, with the placeholder otherwise.
pub open spec fn entry_of(roster: Seq<ProfileView>, from: Seq<char>, body: Seq<char>) -> EntryView {
    match find_profile(roster, from) {
        Some(p) => EntryView { from: from, body: body, avatar: p.avatar },
        None => EntryView { from: from, body: body, avatar: placeholder_url_of(from) },
    }
}

/// The lifecycle of one session-state instance.
#[derive(Clone, Copy, Debug, PartialEq, Eq, Structural)]
pub enum Phase {
    /// Created, registration frame not yet sent.
    Connecting,
    /// Registration sent; no roster received yet.
    Registered,
    /// At least one roster received.
    Active,
    /// Unmounted; the bus subscription has been released.
    Closed,
}

/// What submitting a message came to.
#[derive(Clone, Copy, Debug, PartialEq, Eq, Structural)]
pub enum SubmitOutcome {
    /// The frame was handed to the transport channel.
    Sent,
    /// The body was empty: nothing was sent, nothing changed.
    EmptyInput,
    /// The channel is closed: nothing was sent, and the caller still holds
    /// the typed body to retry with.
    NotConnected,
}

/// One UI surface's session: its identity, lifecycle phase, roster, message
/// log, and its subscription handle on the message bus.
pub struct SessionState {
    pub identity: String,
    pub phase: Phase,
    pub roster: Vec<UserProfile>,
    pub log: Vec<LogEntry>,
    pub handle: usize,
}

/// Model of a session.
#[verifier::ext_equal]
pub struct SessionView {
    pub identity: Seq<char>,
    pub phase: Phase,
    pub roster: Seq<ProfileView>,
    pub log: Seq<EntryView>,
    pub handle: usize,
}

impl View for SessionState {
    type V = SessionView;

    open spec fn view(&self) -> SessionView {
        SessionView {
            identity: self.identity@,
            phase: self.phase,
            roster: Seq::new(self.roster@.len(), |i: int| self.roster@[i]@),
            log: Seq::new(self.log@.len(), |i: int| self.log@[i]@),
            handle: self.handle,
        }
    }
}

/// What one decoded operation does to a session. A `Users` operation
/// replaces the roster wholesale and makes the session active; a `Message`
/// operation appends one rendered entry; an inbound `Register` carries no
/// client-side action.
pub open spec fn apply_op(s: SessionView, op: OpView) -> SessionView {
    match op {
        OpView::Users { names } => SessionView {
            phase: Phase::Active,
            roster: roster_of(names),
            ..s
        },
        OpView::Message { from, body } => SessionView {
            log: s.log.push(entry_of(s.roster, from, body)),
            ..s
        },
        OpView::Register { name } => s,
    }
}

/// What one raw frame does to a session: a frame that decodes is applied, a
/// malformed one is dropped and changes nothing.
pub open spec fn apply_frame(s: SessionView, frame: Seq<char>) -> SessionView {
    match codec::decoded(frame) {
        Ok(op) => apply_op(s, op),
        Err(e) => s,
    }
}

/// What a whole stream of frames does to a session, oldest first.
pub open spec fn apply_frames(s: SessionView, frames: Seq<Seq<char>>) -> SessionView
    decreases frames.len(),
{
    if frames.len() == 0 {
        s
    } else {
        apply_frames(apply_frame(s, frames[0]), frames.drop_first())
    }
}

/// Whether two strings hold the same characters.
fn str_eq(a: &str, b: &str) -> (r: bool)
    ensures
        r == (a@ == b@),
{
    let n = a.unicode_len();
    if b.unicode_len() != n {
        return false;
    }
    let mut i: usize = 0;
    while i < n
        invariant
            i <= n,
            n == a@.len(),
            b@.len() == n,
            forall|k: int| 0 <= k < i ==> a@[k] == b@[k],
        decreases n - i,
    {
        if a.get_char(i) != b.get_char(i) {
            return false;
        }
        i += 1;
    }
    proof {
        assert(a@ =~= b@);
    }
    true
}

/// The roster member derived from one name.
pub fn make_profile(name: &str) -> (p: UserProfile)
    ensures
        p@ == profile_of(name@),
{
    let mut url = String::from_str("https://avatars.dicebear.com/api/adventurer-neutral/");
    url.append(name);
    url.append(".svg");
    let p = UserProfile { name: String::from_str(name), avatar: url };
    proof {
        assert(p@ =~= profile_of(name@));
    }
    p
}

/// The placeholder avatar address for an unknown sender.
fn make_placeholder_avatar(name: &str) -> (a: String)
    ensures
        a@ == placeholder_url_of(name@),
{
    let mut url = String::from_str("https://avatars.dicebear.com/api/identicon/");
    url.append(name);
    url.append(".svg");
    url
}

/// The avatar of the first roster member with the given name, if any.
fn find_avatar(roster: &Vec<UserProfile>, name: &str) -> (r: Option<String>)
    ensures
        match r {
            Some(a) => find_profile(
                Seq::new(roster@.len(), |i: int| roster@[i]@),
                name@,
            ) matches Some(p) && p.avatar == a@,
            None => find_profile(Seq::new(roster@.len(), |i: int| roster@[i]@), name@) is None,
        },
{
    let ghost rv = Seq::new(roster@.len(), |i: int| roster@[i]@);
    let n = roster.len();
    let mut i: usize = 0;
    proof {
        assert(rv.skip(0) =~= rv);
    }
    while i < n
        invariant
            i <= n,
            n == roster@.len(),
            rv == Seq::new(roster@.len(), |k: int| roster@[k]@),
            find_profile(rv, name@) == find_profile(rv.skip(i as int), name@),
        decreases n - i,
    {
        proof {
            assert(rv.skip(i as int)[0] == rv[i as int]);
            assert(rv.skip(i as int).drop_first() =~= rv.skip(i as int + 1));
        }
        if str_eq(roster[i].name.as_str(), name) {
            return Some(roster[i].avatar.clone());
        }
        i += 1;
    }
    proof {
        assert(rv.skip(n as int) =~= Seq::<ProfileView>::empty());
    }
    None
}

impl SessionState {
    /// Create the session for one UI surface: announce the declared identity
    /// to the server and subscribe to the message bus. A failed send is not
    /// fatal — the session still becomes `Registered`, and the UI stays
    /// usable until a reconnect (outside this core) lets it re-register.
    pub fn new(identity: &str, chan: &mut Channel, bus: &mut MessageBus) -> (s: SessionState)
        ensures
            s@ == (SessionView {
                identity: identity@,
                phase: Phase::Registered,
                roster: Seq::<ProfileView>::empty(),
                log: Seq::<EntryView>::empty(),
                handle: old(bus)@.len() as usize,
            }),
            final(bus)@ == old(bus)@.push(
                SubView { active: true, queue: Seq::<Seq<char>>::empty() },
            ),
            old(chan)@.connected ==> final(chan)@ == (ChannelView {
                outbound: old(chan)@.outbound.push(
                    codec::encoded(OpView::Register { name: identity@ }),
                ),
                ..old(chan)@
            }),
            !old(chan)@.connected ==> final(chan)@ == old(chan)@,
    {
        let op = Operation::Register(String::from_str(identity));
        proof {
            assert(op@ =~= (OpView::Register { name: identity@ }));
        }
        let frame = codec::encode(&op);
        // A `Closed` outcome is deliberately tolerated here.
        let _ = chan.send(frame);
        let handle = bus.subscribe();
        let s = SessionState {
            identity: String::from_str(identity),
            phase: Phase::Registered,
            roster: Vec::new(),
            log: Vec::new(),
            handle,
        };
        proof {
            assert(s@ =~= (SessionView {
                identity: identity@,
                phase: Phase::Registered,
                roster: Seq::<ProfileView>::empty(),
                log: Seq::<EntryView>::empty(),
                handle: old(bus)@.len() as usize,
            }));
        }
        s
    }

    /// Apply one decoded operation to the session.
    pub fn apply(&mut self, op: &Operation)
        ensures
            final(self)@ == apply_op(old(self)@, op@),
    {
        match op {
            Operation::Users(names) => {
                let mut roster: Vec<UserProfile> = Vec::new();
                let n = names.len();
                let mut i: usize = 0;
                while i < n
                    invariant
                        i <= n,
                        n == names@.len(),
                        roster@.len() == i,
                        forall|k: int|
                            0 <= k < i ==> roster@[k]@ == profile_of(names.deep_view()[k]),
                    decreases n - i,
                {
                    roster.push(make_profile(names[i].as_str()));
                    i += 1;
                }
                self.roster = roster;
                self.phase = Phase::Active;
                proof {
                    assert(Seq::new(self.roster@.len(), |k: int| self.roster@[k]@)
                        =~= roster_of(names.deep_view()));
                    assert(self@ =~= apply_op(old(self)@, op@));
                }
            },
            Operation::Message(m) => {
                let avatar = match find_avatar(&self.roster, m.from.as_str()) {
                    Some(a) => a,
                    None => make_placeholder_avatar(m.from.as_str()),
                };
                let entry = LogEntry { from: m.from.clone(), body: m.body.clone(), avatar };
                proof {
                    assert(entry@ =~= entry_of(old(self)@.roster, m.from@, m.body@));
                }
                self.log.push(entry);
                proof {
                    assert(self@ =~= apply_op(old(self)@, op@));
                }
            },
            Operation::Register(name) => {
                proof {
                    assert(self@ =~= apply_op(old(self)@, op@));
                }
            },
        }
    }

    /// Take one raw frame from the stream: decode and apply it, or report
    /// how it is malformed and change nothing. Never fatal: the caller's
    /// delivery loop goes on with the next frame either way.
    pub fn on_frame(&mut self, frame: &str) -> (r: Result<(), DecodeError>)
        ensures
            final(self)@ == apply_frame(old(self)@, frame@),
            match r {
                Ok(u) => codec::decoded(frame@) is Ok,
                Err(e) => codec::decoded(frame@) == Err::<OpView, DecodeError>(e),
            },
    {
        match codec::decode(frame) {
            Ok(op) => {
                self.apply(&op);
                Ok(())
            },
            Err(e) => Err(e),
        }
    }

    /// Apply every frame queued for this session on the bus, oldest first,
    /// emptying the queue. Malformed frames are dropped along the way. With
    /// a handle the bus does not know (possible only for a session built
    /// against another bus), nothing happens.
    pub fn pump(&mut self, bus: &mut MessageBus)
        ensures
            old(self)@.handle < old(bus)@.len() ==> final(self)@ == apply_frames(
                old(self)@,
                old(bus)@[old(self)@.handle as int].queue,
            ) && final(bus)@ == old(bus)@.update(
                old(self)@.handle as int,
                SubView {
                    active: old(bus)@[old(self)@.handle as int].active,
                    queue: Seq::<Seq<char>>::empty(),
                },
            ),
            old(self)@.handle >= old(bus)@.len() ==> final(self)@ == old(self)@ && final(bus)@
                == old(bus)@,
    {
        if bus.subs.len() <= self.handle {
            return;
        }
        let frames = bus.drain(self.handle);
        let ghost fv = frames.deep_view();
        let ghost orig = self@;
        let n = frames.len();
        let mut i: usize = 0;
        proof {
            assert(fv.skip(0) =~= fv);
        }
        while i < n
            invariant
                i <= n,
                n == frames@.len(),
                fv == frames.deep_view(),
                apply_frames(orig, fv) == apply_frames(self@, fv.skip(i as int)),
            decreases n - i,
        {
            proof {
                assert(fv.skip(i as int)[0] == fv[i as int]);
                assert(fv.skip(i as int).drop_first() =~= fv.skip(i as int + 1));
            }
            let _ = self.on_frame(frames[i].as_str());
            i += 1;
        }
        proof {
            assert(fv.skip(n as int) =~= Seq::<Seq<char>>::empty());
        }
    }

    /// Submit one typed message. An empty body is a no-op; otherwise the
    /// message is encoded with this session's identity as sender and handed
    /// to the channel. On a closed channel nothing is sent or recorded and
    /// the caller keeps the body, so the input is never silently discarded.
    pub fn submit_message(&self, body: &str, chan: &mut Channel) -> (r: SubmitOutcome)
        ensures
            body@.len() == 0 ==> r == SubmitOutcome::EmptyInput && final(chan)@ == old(chan)@,
            body@.len() > 0 && old(chan)@.connected ==> r == SubmitOutcome::Sent && final(chan)@
                == (ChannelView {
                outbound: old(chan)@.outbound.push(
                    codec::encoded(OpView::Message { from: self@.identity, body: body@ }),
                ),
                ..old(chan)@
            }),
            body@.len() > 0 && !old(chan)@.connected ==> r == SubmitOutcome::NotConnected
                && final(chan)@ == old(chan)@,
    {
        if body.unicode_len() == 0 {
            return SubmitOutcome::EmptyInput;
        }
        let op = Operation::Message(
            ChatMessage { from: self.identity.clone(), body: String::from_str(body) },
        );
        proof {
            assert(op@ =~= (OpView::Message { from: self@.identity, body: body@ }));
        }
        let frame = codec::encode(&op);
        match chan.send(frame) {
            Ok(u) => SubmitOutcome::Sent,
            Err(e) => SubmitOutcome::NotConnected,
        }
    }

    /// Unmount the session: release the bus subscription. Forgetting this
    /// call would leak the subscription; making it twice is harmless.
    pub fn close(&mut self, bus: &mut MessageBus)
        ensures
            final(self)@ == (SessionView { phase: Phase::Closed, ..old(self)@ }),
            final(bus)@ == unsubscribed(old(bus)@, old(self)@.handle as int),
    {
        self.phase = Phase::Closed;
        bus.unsubscribe(self.handle);
        proof {
            assert(self@ =~= (SessionView { phase: Phase::Closed, ..old(self)@ }));
        }
    }
}

/// Law: idempotence. Applying the same `Users` operation twice leaves the
/// session — roster included — exactly as applying it once does.
pub proof fn lemma_users_idempotent(s: SessionView, names: Seq<Seq<char>>)
    ensures
        apply_op(apply_op(s, OpView::Users { names }), OpView::Users { names }) == apply_op(
            s,
            OpView::Users { names },
        ),
{
    assert(apply_op(apply_op(s, OpView::Users { names }), OpView::Users { names }) =~= apply_op(
        s,
        OpView::Users { names },
    ));
}

/// Law: the log is append-only under every single operation — what was
/// logged stays, unchanged and in place.
pub proof fn lemma_log_monotone(s: SessionView, op: OpView)
    ensures
        apply_op(s, op).log.len() >= s.log.len(),
        s.log.is_prefix_of(apply_op(s, op).log),
{
    match op {
        OpView::Message { from, body } => {
            assert(s.log.is_prefix_of(s.log.push(entry_of(s.roster, from, body))));
        },
        _ => {
            assert(s.log.is_prefix_of(s.log));
        },
    }
}

/// Law: monotonicity. Across any stream of frames — operations and
/// malformed frames alike — the log's length never decreases and the
/// entries already logged are never reordered or rewritten: the old log is
/// a prefix of the new one.
pub proof fn lemma_log_monotone_frames(s: SessionView, frames: Seq<Seq<char>>)
    ensures
        apply_frames(s, frames).log.len() >= s.log.len(),
        s.log.is_prefix_of(apply_frames(s, frames).log),
    decreases frames.len(),
{
    if frames.len() == 0 {
        assert(s.log.is_prefix_of(s.log));
    } else {
        let s1 = apply_frame(s, frames[0]);
        match codec::decoded(frames[0]) {
            Ok(op) => {
                lemma_log_monotone(s, op);
            },
            Err(e) => {
                assert(s.log.is_prefix_of(s1.log));
            },
        }
        lemma_log_monotone_frames(s1, frames.drop_first());
        assert(s.log.is_prefix_of(apply_frames(s, frames).log)) by {
            assert(forall|k: int|
                0 <= k < s.log.len() ==> s.log[k] == #[trigger] apply_frames(s, frames).log[k]);
        }
    }
}

/// Law: unknown-sender safety. A message whose sender is absent from the
/// roster is still appended — exactly one entry, rendered with the
/// deterministic placeholder profile — and nothing else changes.
pub proof fn lemma_unknown_sender(s: SessionView, from: Seq<char>, body: Seq<char>)
    requires
        find_profile(s.roster, from) is None,
    ensures
        apply_op(s, OpView::Message { from, body }) == (SessionView {
            log: s.log.push(EntryView { from, body, avatar: placeholder_url_of(from) }),
            ..s
        }),
{
}

} // verus!
