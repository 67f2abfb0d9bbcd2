//! The decisions of one synchronisation session. The session reads frames,
//! moves between its states, and names the work that each frame calls for;
//! the document work itself (computing a state vector or an update, applying
//! an update) is done by the owner of the document, which hands the session
//! the bytes it needs.

use vstd::prelude::*;
use crate::codec::{
    decode_stream, encode_message, frame_bytes, frames_from, well_framed, Message, MessageModel,
    SyncMessage, MAX_PAYLOAD_LEN,
};

verus! {

/// Where a session stands.
#[derive(Clone, Copy, Debug, PartialEq, Eq, Structural)]
pub enum SessionState {
    /// Nothing sent yet.
    Initial,
    /// Step 1 sent; waiting for the peer's step 2.
    AwaitingStep2,
    /// Both sides hold each other's state; updates flow.
    Synced,
    /// The peer denied access; nothing more is handled.
    Denied,
    /// Too many undecodable frames; nothing more is handled.
    Violated,
}

/// The work that a frame calls for.
#[derive(Debug)]
pub enum Effect {
    /// Reply with step 2: the local update since this state vector.
    SendStep2(Vec<u8>),
    /// Apply this update under a write transaction.
    Apply(Vec<u8>),
    /// Apply this update under a write transaction, then send the update the
    /// transaction produced to the other peers.
    ApplyAndBroadcast(Vec<u8>),
    /// Merge this awareness update.
    ApplyAwareness(Vec<u8>),
    /// Reply with the local awareness state.
    SendAwareness,
    /// Hand this application frame to the custom-frame hook.
    Custom(u8, Vec<u8>),
    /// Close the session: the peer denied access for this reason.
    Close(Vec<u8>),
}

/// The mathematical value of an effect.
pub ghost enum EffectModel {
    SendStep2(Seq<u8>),
    Apply(Seq<u8>),
    ApplyAndBroadcast(Seq<u8>),
    ApplyAwareness(Seq<u8>),
    SendAwareness,
    Custom(u8, Seq<u8>),
    Close(Seq<u8>),
}

impl Effect {
    pub open spec fn view(&self) -> EffectModel {
        match self {
            Effect::SendStep2(v) => EffectModel::SendStep2(v@),
            Effect::Apply(v) => EffectModel::Apply(v@),
            Effect::ApplyAndBroadcast(v) => EffectModel::ApplyAndBroadcast(v@),
            Effect::ApplyAwareness(v) => EffectModel::ApplyAwareness(v@),
            Effect::SendAwareness => EffectModel::SendAwareness,
            Effect::Custom(t, v) => EffectModel::Custom(*t, v@),
            Effect::Close(v) => EffectModel::Close(v@),
        }
    }
}

/// A session that handles no more frames.
pub open spec fn is_closed(s: SessionState) -> bool {
    s == SessionState::Denied || s == SessionState::Violated
}

/// The state after a frame.
pub open spec fn next_state(s: SessionState, m: MessageModel) -> SessionState {
    if is_closed(s) {
        s
    } else {
        match m {
            MessageModel::Step2(_) => SessionState::Synced,
            MessageModel::Auth(Some(_)) => SessionState::Denied,
            _ => s,
        }
    }
}

/// The work a frame calls for; a closed session calls for none, and a
/// granted authentication calls for none.
pub open spec fn effect_of(s: SessionState, m: MessageModel) -> Option<EffectModel> {
    if is_closed(s) {
        None
    } else {
        match m {
            MessageModel::Step1(sv) => Some(EffectModel::SendStep2(sv)),
            MessageModel::Step2(u) => Some(EffectModel::Apply(u)),
            MessageModel::Update(u) => Some(EffectModel::ApplyAndBroadcast(u)),
            MessageModel::Awareness(u) => Some(EffectModel::ApplyAwareness(u)),
            MessageModel::AwarenessQuery => Some(EffectModel::SendAwareness),
            MessageModel::Auth(None) => None,
            MessageModel::Auth(Some(r)) => Some(EffectModel::Close(r)),
            MessageModel::Custom(t, d) => Some(EffectModel::Custom(t, d)),
        }
    }
}

/// The state after a sequence of frames.
pub open spec fn run_state(s: SessionState, ms: Seq<MessageModel>) -> SessionState
    decreases ms.len(),
{
    if ms.len() == 0 {
        s
    } else {
        next_state(run_state(s, ms.drop_last()), ms.last())
    }
}

/// The effects of a sequence of frames, in the order the frames came.
pub open spec fn run_effects(s: SessionState, ms: Seq<MessageModel>) -> Seq<EffectModel>
    decreases ms.len(),
{
    if ms.len() == 0 {
        Seq::empty()
    } else {
        let before = run_effects(s, ms.drop_last());
        match effect_of(run_state(s, ms.drop_last()), ms.last()) {
            Some(e) => before.push(e),
            None => before,
        }
    }
}

/// The opening bytes of a session: step 1 with the local state vector, then an
/// awareness query.
pub open spec fn init_bytes(state_vector: Seq<u8>) -> Seq<u8> {
    frame_bytes(MessageModel::Step1(state_vector)) + frame_bytes(MessageModel::AwarenessQuery)
}

/// One synchronisation session with a peer.
pub struct SyncSession {
    state: SessionState,
    failures: u32,
    failure_limit: u32,
}

impl SyncSession {
    pub closed spec fn spec_state(&self) -> SessionState {
        self.state
    }

    pub closed spec fn spec_failures(&self) -> u32 {
        self.failures
    }

    pub closed spec fn spec_failure_limit(&self) -> u32 {
        self.failure_limit
    }

    /// A fresh session that closes after `failure_limit` undecodable
    /// deliveries.
    pub fn new(failure_limit: u32) -> (r: SyncSession)
        ensures
            r.spec_state() == SessionState::Initial,
            r.spec_failures() == 0,
            r.spec_failure_limit() == failure_limit,
    {
        SyncSession { state: SessionState::Initial, failures: 0, failure_limit }
    }

    pub fn state(&self) -> (r: SessionState)
        ensures
            r == self.spec_state(),
    {
        self.state
    }

    pub fn failures(&self) -> (r: u32)
        ensures
            r == self.spec_failures(),
    {
        self.failures
    }

    /// Opens the session: the bytes to send first, and the session now waits
    /// for step 2 (a closed or already synced session keeps its state).
    pub fn open(&mut self, state_vector: &Vec<u8>) -> (r: Vec<u8>)
        requires
            state_vector@.len() < MAX_PAYLOAD_LEN,
        ensures
            r@ == init_bytes(state_vector@),
            final(self).spec_state() == (if old(self).spec_state() == SessionState::Initial {
                SessionState::AwaitingStep2
            } else {
                old(self).spec_state()
            }),
            final(self).spec_failures() == old(self).spec_failures(),
            final(self).spec_failure_limit() == old(self).spec_failure_limit(),
    {
        if self.state == SessionState::Initial {
            self.state = SessionState::AwaitingStep2;
        }
        sync_init_message(state_vector)
    }

    /// Handles one frame: the state moves on and the frame's work, if any,
    /// is returned.
    pub fn handle(&mut self, msg: Message) -> (r: Option<Effect>)
        ensures
            final(self).spec_state() == next_state(old(self).spec_state(), msg@),
            r matches Some(e) ==> effect_of(old(self).spec_state(), msg@) == Some(e@),
            r is None ==> effect_of(old(self).spec_state(), msg@) is None,
            final(self).spec_failures() == old(self).spec_failures(),
            final(self).spec_failure_limit() == old(self).spec_failure_limit(),
    {
        if self.state == SessionState::Denied || self.state == SessionState::Violated {
            return None;
        }
        match msg {
            Message::Sync(SyncMessage::Step1(sv)) => Some(Effect::SendStep2(sv)),
            Message::Sync(SyncMessage::Step2(u)) => {
                self.state = SessionState::Synced;
                Some(Effect::Apply(u))
            },
            Message::Sync(SyncMessage::Update(u)) => Some(Effect::ApplyAndBroadcast(u)),
            Message::Awareness(u) => Some(Effect::ApplyAwareness(u)),
            Message::AwarenessQuery => Some(Effect::SendAwareness),
            Message::Auth(None) => None,
            Message::Auth(Some(reason)) => {
                self.state = SessionState::Denied;
                Some(Effect::Close(reason))
            },
            Message::Custom(t, d) => Some(Effect::Custom(t, d)),
        }
    }

    /// Handles every frame of one delivery, in order, and returns their work
    /// in that order. A delivery whose bytes do not end on a frame boundary
    /// counts as one failure (its readable frames are still handled); when the
    /// failures reach the limit, the session is closed as violated.
    pub fn receive(&mut self, bytes: &[u8]) -> (r: Vec<Effect>)
        ensures
            r@.map_values(|e: Effect| e@) == run_effects(old(self).spec_state(), frames_from(bytes@, 0)),
            final(self).spec_failure_limit() == old(self).spec_failure_limit(),
            final(self).spec_failures() == (if well_framed(bytes@, 0) {
                old(self).spec_failures()
            } else if old(self).spec_failures() < u32::MAX {
                (old(self).spec_failures() + 1) as u32
            } else {
                old(self).spec_failures()
            }),
            final(self).spec_state() == (if !well_framed(bytes@, 0)
                && final(self).spec_failures() >= old(self).spec_failure_limit() {
                SessionState::Violated
            } else {
                run_state(old(self).spec_state(), frames_from(bytes@, 0))
            }),
    {
        let (msgs, complete) = decode_stream(bytes);
        let ghost ms = frames_from(bytes@, 0);
        let ghost s0 = self.state;
        let mut out: Vec<Effect> = Vec::new();
        let mut msgs = msgs;
        let ghost n = ms.len();
        while msgs.len() > 0
            invariant
                msgs@.len() <= n,
                n == ms.len(),
                forall|j: int| 0 <= j < msgs@.len() ==> (#[trigger] msgs@[j])@ == ms[n - msgs@.len() + j],
                self.state == run_state(s0, ms.subrange(0, n - msgs@.len())),
                out@.map_values(|e: Effect| e@) == run_effects(s0, ms.subrange(0, n - msgs@.len())),
                self.failures == old(self).failures,
                self.failure_limit == old(self).failure_limit,
            decreases msgs@.len(),
        {
            let ghost k = n - msgs@.len();
            let ghost before = out@.map_values(|e: Effect| e@);
            let ghost st = self.state;
            assert(msgs@[0]@ == ms[k]);
            let ghost prev = msgs@;
            let m = msgs.remove(0);
            assert forall|j: int| 0 <= j < msgs@.len() implies (#[trigger] msgs@[j])@ == ms[n - msgs@.len() + j] by {
                assert(msgs@[j] == prev[j + 1]);
            }
            assert(ms.subrange(0, k + 1).drop_last() =~= ms.subrange(0, k));
            assert(ms.subrange(0, k + 1).last() == ms[k]);
            match self.handle(m) {
                Some(e) => {
                    out.push(e);
                    assert(out@.map_values(|e: Effect| e@) =~= before.push(out@.last()@));
                },
                None => {
                    assert(out@.map_values(|e: Effect| e@) =~= before);
                },
            }
        }
        assert(ms.subrange(0, n as int) =~= ms);
        if !complete {
            if self.failures < u32::MAX {
                self.failures = self.failures + 1;
            }
            if self.failures >= self.failure_limit {
                self.state = SessionState::Violated;
            }
        }
        out
    }
}

/// The opening bytes of a session: step 1 with the local state vector, then
/// an awareness query.
pub fn sync_init_message(state_vector: &Vec<u8>) -> (r: Vec<u8>)
    requires
        state_vector@.len() < MAX_PAYLOAD_LEN,
    ensures
        r@ == init_bytes(state_vector@),
{
    let mut sv: Vec<u8> = Vec::new();
    let mut i: usize = 0;
    while i < state_vector.len()
        invariant
            i <= state_vector@.len(),
            sv@ == state_vector@.subrange(0, i as int),
        decreases state_vector@.len() - i,
    {
        sv.push(state_vector[i]);
        assert(sv@ =~= state_vector@.subrange(0, i + 1));
        i = i + 1;
    }
    assert(sv@ =~= state_vector@);
    let mut out = encode_message(&Message::Sync(SyncMessage::Step1(sv)));
    let mut q = encode_message(&Message::AwarenessQuery);
    out.append(&mut q);
    out
}

} // verus!
