//! What happens between the network and the user interface.
//!
//! [`Engine`] turns received envelopes and the passing of time into changes of
//! the peer table and into effects: sounds to play, messages to show, frames to
//! mix. [`MicOut`] turns captured frames into envelopes.

use crate::audio::Cue;
use crate::lists::lemma_filter_from;
use crate::presence::{
    departed_peers_are_unlisted, distinct_peers, elapsed, gone, heard_peers_are_listed,
    lemma_filter_distinct, listed, peers_expire_after_the_limit, seen, speaking, unexpired,
    upsert_peer, PeerView, Peers, EXPIRY_NS, SPEAKING_NS,
};
use crate::protocol::{
    decode_inverts_encode, parse_envelope, Envelope, EnvelopeView, Payload, PayloadView, MAGIC,
};
use vstd::prelude::*;
use vstd::utf8::encode_utf8;

verus! {

/// How far apart rounds of housekeeping are at least: 80 ms.
pub const TICK_NS: u64 = 80_000_000;

/// How often a peer announces itself: every 5 s.
pub const KEEPALIVE_NS: u64 = 5_000_000_000;

/// Something worth a line in the chat log.
#[derive(Debug)]
pub enum UiMsg {
    Joined(String),
    Left(String),
    Text { who: String, body: String },
    Emote { name: String, action: String },
}

#[verifier::ext_equal]
pub enum UiMsgView {
    Joined(Seq<char>),
    Left(Seq<char>),
    Text { who: Seq<char>, body: Seq<char> },
    Emote { name: Seq<char>, action: Seq<char> },
}

impl View for UiMsg {
    type V = UiMsgView;

    open spec fn view(&self) -> UiMsgView {
        match *self {
            UiMsg::Joined(name) => UiMsgView::Joined(name@),
            UiMsg::Left(name) => UiMsgView::Left(name@),
            UiMsg::Text { who, body } => UiMsgView::Text { who: who@, body: body@ },
            UiMsg::Emote { name, action } => UiMsgView::Emote { name: name@, action: action@ },
        }
    }
}

/// What is to be done about a received envelope.
#[derive(Debug)]
pub enum Effect {
    /// Play a notification sound.
    Play(Cue),
    /// Add a line to the log.
    Tell(UiMsg),
    /// Show the level of a voice frame on its sender's meter and mix it.
    Hear { id: u64, pcm: Vec<u32> },
}

#[verifier::ext_equal]
pub enum EffectView {
    Play(Cue),
    Tell(UiMsgView),
    Hear { id: u64, pcm: Seq<u32> },
}

impl View for Effect {
    type V = EffectView;

    open spec fn view(&self) -> EffectView {
        match *self {
            Effect::Play(cue) => EffectView::Play(cue),
            Effect::Tell(msg) => EffectView::Tell(msg@),
            Effect::Hear { id, pcm } => EffectView::Hear { id, pcm: pcm@ },
        }
    }
}

pub open spec fn effect_views(effects: Seq<Effect>) -> Seq<EffectView> {
    effects.map_values(|e: Effect| e@)
}

/// The peer table after an envelope of somebody else was received.
pub open spec fn peers_after(peers: Seq<PeerView>, env: EnvelopeView, now: u64) -> Seq<PeerView> {
    let id = env.peer_id;
    match env.payload {
        PayloadView::Hello { name } => seen(peers, id, name, now),
        PayloadView::Bye { name: _ } => gone(peers, id),
        PayloadView::Text { name, body: _ } => seen(peers, id, name, now),
        PayloadView::Emote { name, action: _ } => seen(peers, id, name, now),
        PayloadView::Voice { name, seq: _, pcm: _ } => speaking(
            seen(peers, id, name, now),
            id,
            (now + SPEAKING_NS) as u64,
        ),
    }
}

/// What is to be done about an envelope of somebody else. A greeting is news
/// only if its sender was not listed, a goodbye only if it was.
pub open spec fn effects_of(peers: Seq<PeerView>, env: EnvelopeView) -> Seq<EffectView> {
    let id = env.peer_id;
    match env.payload {
        PayloadView::Hello { name } => if listed(peers, id) {
            Seq::empty()
        } else {
            seq![EffectView::Play(Cue::Join), EffectView::Tell(UiMsgView::Joined(name))]
        },
        PayloadView::Bye { name } => if listed(peers, id) {
            seq![EffectView::Play(Cue::Leave), EffectView::Tell(UiMsgView::Left(name))]
        } else {
            Seq::empty()
        },
        PayloadView::Text { name, body } => seq![
            EffectView::Play(Cue::Message),
            EffectView::Tell(UiMsgView::Text { who: name, body }),
        ],
        PayloadView::Emote { name, action } => seq![
            EffectView::Tell(UiMsgView::Emote { name, action }),
        ],
        PayloadView::Voice { name: _, seq: _, pcm } => seq![EffectView::Hear { id, pcm }],
    }
}

/// What the engine waited for.
#[derive(Debug)]
pub enum Event {
    /// An envelope came in.
    Received(Envelope),
    /// Nothing came in for a while.
    Quiet,
    /// Nothing will come in any more.
    Closed,
}

#[verifier::ext_equal]
pub enum EventView {
    Received(EnvelopeView),
    Quiet,
    Closed,
}

impl View for Event {
    type V = EventView;

    open spec fn view(&self) -> EventView {
        match *self {
            Event::Received(env) => EventView::Received(env@),
            Event::Quiet => EventView::Quiet,
            Event::Closed => EventView::Closed,
        }
    }
}

/// What the engine decided.
#[derive(Debug)]
pub struct Step {
    /// To be carried out in this order.
    pub effects: Vec<Effect>,
    /// The level meters are due to decay.
    pub decay: bool,
    /// The engine is done.
    pub stop: bool,
}

/// Housekeeping is due at the time `now`.
pub open spec fn due(now: u64, last_tick: u64) -> bool {
    elapsed(now, last_tick) > TICK_NS
}

/// Nothing follows an event: there is nothing more to come, or it was our own
/// traffic.
pub open spec fn ends_the_turn(event: EventView, own_id: u64) -> bool {
    match event {
        EventView::Received(env) => env.peer_id == own_id,
        EventView::Quiet => false,
        EventView::Closed => true,
    }
}

/// What is to be done in one turn.
pub open spec fn turn_effects(peers: Seq<PeerView>, event: EventView, own_id: u64) -> Seq<EffectView> {
    match event {
        EventView::Received(env) if env.peer_id != own_id => effects_of(peers, env),
        _ => Seq::empty(),
    }
}

/// Housekeeping is done in one turn.
pub open spec fn turn_ticks(event: EventView, own_id: u64, later: u64, last_tick: u64) -> bool {
    !ends_the_turn(event, own_id) && due(later, last_tick)
}

/// When housekeeping was last done, after one turn.
pub open spec fn turn_last_tick(event: EventView, own_id: u64, later: u64, last_tick: u64) -> u64 {
    if turn_ticks(event, own_id, later, last_tick) {
        later
    } else {
        last_tick
    }
}

/// The peer table after one turn.
pub open spec fn turn_peers(
    peers: Seq<PeerView>,
    event: EventView,
    own_id: u64,
    now: u64,
    later: u64,
    last_tick: u64,
) -> Seq<PeerView> {
    let mid = match event {
        EventView::Received(env) if env.peer_id != own_id => peers_after(peers, env, now),
        _ => peers,
    };
    if turn_ticks(event, own_id, later, last_tick) {
        unexpired(mid, later)
    } else {
        mid
    }
}

/// The receiving side of a peer.
pub struct Engine {
    peer_id: u64,
    last_tick: u64,
}

impl Engine {
    pub closed spec fn own_id(&self) -> u64 {
        self.peer_id
    }

    /// When housekeeping was last done.
    pub closed spec fn last_tick(&self) -> u64 {
        self.last_tick
    }

    pub fn new(peer_id: u64, now: u64) -> (r: Self)
        ensures
            r.own_id() == peer_id,
            r.last_tick() == now,
    {
        Engine { peer_id, last_tick: now }
    }

    /// Takes in an envelope that was received at the time `now`. Our own traffic,
    /// looped back to us, is ignored.
    pub fn receive(&self, peers: &mut Peers, env: Envelope, now: u64) -> (r: Vec<Effect>)
        requires
            old(peers).wf(),
            now <= u64::MAX - SPEAKING_NS,
        ensures
            final(peers).wf(),
            env.peer_id == self.own_id() ==> {
                &&& final(peers)@ == old(peers)@
                &&& r@.len() == 0
            },
            env.peer_id != self.own_id() ==> {
                &&& final(peers)@ == peers_after(old(peers)@, env@, now)
                &&& effect_views(r@) == effects_of(old(peers)@, env@)
            },
    {
        let mut r: Vec<Effect> = Vec::new();
        if env.peer_id == self.peer_id {
            return r;
        }
        let id = env.peer_id;
        let ghost want = effects_of(peers@, env@);
        match env.payload {
            Payload::Hello { name } => {
                if upsert_peer(peers, id, name.as_str(), now) {
                    r.push(Effect::Play(Cue::Join));
                    r.push(Effect::Tell(UiMsg::Joined(name)));
                }
            },
            Payload::Bye { name } => {
                if peers.remove(id) {
                    r.push(Effect::Play(Cue::Leave));
                    r.push(Effect::Tell(UiMsg::Left(name)));
                }
            },
            Payload::Text { name, body } => {
                let _ = upsert_peer(peers, id, name.as_str(), now);
                r.push(Effect::Play(Cue::Message));
                r.push(Effect::Tell(UiMsg::Text { who: name, body }));
            },
            Payload::Emote { name, action } => {
                let _ = upsert_peer(peers, id, name.as_str(), now);
                r.push(Effect::Tell(UiMsg::Emote { name, action }));
            },
            Payload::Voice { name, seq: _, pcm } => {
                let _ = upsert_peer(peers, id, name.as_str(), now);
                peers.mark_speaking(id, now);
                r.push(Effect::Hear { id, pcm });
            },
        }
        assert(effect_views(r@) =~= want);
        r
    }

    /// Housekeeping, if it is due: peers that have been silent for too long are
    /// dropped. Says whether it was due.
    pub fn tick(&mut self, peers: &mut Peers, now: u64) -> (r: bool)
        requires
            old(peers).wf(),
        ensures
            final(peers).wf(),
            final(self).own_id() == old(self).own_id(),
            r == due(now, old(self).last_tick()),
            r ==> {
                &&& final(peers)@ == unexpired(old(peers)@, now)
                &&& final(self).last_tick() == now
            },
            !r ==> {
                &&& final(peers)@ == old(peers)@
                &&& final(self).last_tick() == old(self).last_tick()
            },
    {
        if now >= self.last_tick && now - self.last_tick > TICK_NS {
            self.last_tick = now;
            peers.expire(now);
            true
        } else {
            false
        }
    }

    /// One turn of the engine: an event, taken in at the time `now`, and then
    /// housekeeping at the time `later`. Nothing follows our own traffic, not
    /// even housekeeping.
    pub fn step(&mut self, peers: &mut Peers, event: Event, now: u64, later: u64) -> (r: Step)
        requires
            old(peers).wf(),
            now <= u64::MAX - SPEAKING_NS,
        ensures
            final(peers).wf(),
            final(self).own_id() == old(self).own_id(),
            r.stop == (event@ is Closed),
            effect_views(r.effects@) == turn_effects(old(peers)@, event@, old(self).own_id()),
            r.decay == turn_ticks(event@, old(self).own_id(), later, old(self).last_tick()),
            final(peers)@ == turn_peers(
                old(peers)@,
                event@,
                old(self).own_id(),
                now,
                later,
                old(self).last_tick(),
            ),
            final(self).last_tick() == turn_last_tick(
                event@,
                old(self).own_id(),
                later,
                old(self).last_tick(),
            ),
    {
        let mut effects: Vec<Effect> = Vec::new();
        assert(effect_views(effects@) =~= Seq::<EffectView>::empty());
        match event {
            Event::Received(env) => {
                if env.peer_id == self.peer_id {
                    return Step { effects, decay: false, stop: false };
                }
                effects = self.receive(peers, env, now);
            },
            Event::Quiet => {},
            Event::Closed => {
                return Step { effects, decay: false, stop: true };
            },
        }
        let decay = self.tick(peers, later);
        Step { effects, decay, stop: false }
    }
}

pub open spec fn greeting(peer_id: u64, name: Seq<char>) -> EnvelopeView {
    EnvelopeView { magic: MAGIC, peer_id, payload: PayloadView::Hello { name } }
}

pub open spec fn parting(peer_id: u64, name: Seq<char>) -> EnvelopeView {
    EnvelopeView { magic: MAGIC, peer_id, payload: PayloadView::Bye { name } }
}

/// The announcement that a peer sends every few seconds.
pub fn hello(peer_id: u64, name: &str) -> (r: Envelope)
    ensures
        r@ == greeting(peer_id, name@),
{
    Envelope::new(peer_id, Payload::Hello { name: name.to_owned() })
}

/// The announcement that a peer leaves.
pub fn bye(peer_id: u64, name: &str) -> (r: Envelope)
    ensures
        r@ == parting(peer_id, name@),
{
    Envelope::new(peer_id, Payload::Bye { name: name.to_owned() })
}

/// The number that follows `seq`. Numbers start over after the largest.
pub open spec fn next_number(seq: u32) -> u32 {
    if seq == u32::MAX {
        0
    } else {
        (seq + 1) as u32
    }
}

/// The envelope that carries a captured frame.
pub open spec fn voice_frame(peer_id: u64, name: Seq<char>, seq: u32, pcm: Seq<u32>) -> EnvelopeView {
    EnvelopeView { magic: MAGIC, peer_id, payload: PayloadView::Voice { name, seq, pcm } }
}

/// The sending side of the microphone: numbers the frames.
pub struct MicOut {
    peer_id: u64,
    seq: u32,
}

impl MicOut {
    pub closed spec fn own_id(&self) -> u64 {
        self.peer_id
    }

    /// The number of the next frame.
    pub closed spec fn next_seq(&self) -> u32 {
        self.seq
    }

    pub fn new(peer_id: u64) -> (r: Self)
        ensures
            r.own_id() == peer_id,
            r.next_seq() == 0,
    {
        MicOut { peer_id, seq: 0 }
    }

    /// The envelope for a captured frame. Numbers start over after the largest.
    pub fn frame(&mut self, name: &str, pcm: Vec<u32>) -> (r: Envelope)
        ensures
            r@ == voice_frame(old(self).own_id(), name@, old(self).next_seq(), pcm@),
            final(self).own_id() == old(self).own_id(),
            final(self).next_seq() == next_number(old(self).next_seq()),
    {
        let env = Envelope::new(
            self.peer_id,
            Payload::Voice { name: name.to_owned(), seq: self.seq, pcm },
        );
        self.seq = self.seq.wrapping_add(1);
        env
    }
}

// ---- laws -------------------------------------------------------------------

/// A peer is announced as joined when its greeting finds it unlisted, and not
/// again by a later greeting, as long as it keeps in touch in between.
pub proof fn joining_is_announced_once(
    peers: Seq<PeerView>,
    env: EnvelopeView,
    now: u64,
    turns: Seq<Turn>,
    gap: nat,
    again: EnvelopeView,
)
    requires
        distinct_peers(peers),
        env.payload is Hello,
        again.payload is Hello,
        again.peer_id == env.peer_id,
        !listed(peers, env.peer_id),
        gap < EXPIRY_NS,
        keeps_in_touch(turns, env.peer_id, now, gap),
    ensures
        effects_of(peers, env).contains(
            EffectView::Tell(UiMsgView::Joined(env.payload->Hello_name)),
        ),
        effects_of(after_turns(peers_after(peers, env, now), turns), again) == Seq::<
            EffectView,
        >::empty(),
{
    assert(effects_of(peers, env)[1] == EffectView::Tell(
        UiMsgView::Joined(env.payload->Hello_name),
    ));
    lemma_after_distinct(peers, env, now);
    lemma_sender_heard(peers, env, now);
    regular_traffic_keeps_a_peer_listed(
        peers_after(peers, env, now),
        turns,
        env.peer_id,
        now,
        gap,
    );
}

/// A goodbye takes its sender off the table and is announced if it was listed; a
/// later goodbye is not, as long as nothing else came from it in between.
pub proof fn leaving_is_announced_once(
    peers: Seq<PeerView>,
    env: EnvelopeView,
    now: u64,
    turns: Seq<Turn>,
    again: EnvelopeView,
)
    requires
        env.payload is Bye,
        again.payload is Bye,
        again.peer_id == env.peer_id,
        listed(peers, env.peer_id),
        says_nothing(turns, env.peer_id),
    ensures
        effects_of(peers, env).contains(EffectView::Tell(UiMsgView::Left(env.payload->Bye_name))),
        !listed(after_turns(peers_after(peers, env, now), turns), env.peer_id),
        effects_of(after_turns(peers_after(peers, env, now), turns), again) == Seq::<
            EffectView,
        >::empty(),
{
    assert(effects_of(peers, env)[1] == EffectView::Tell(UiMsgView::Left(env.payload->Bye_name)));
    departed_peers_are_unlisted(peers, env.peer_id);
    lemma_stays_unlisted(peers_after(peers, env, now), turns, env.peer_id);
}

/// Nothing is received from `id` in any of the turns.
pub open spec fn says_nothing(turns: Seq<Turn>, id: u64) -> bool {
    forall|k: int|
        0 <= k < turns.len() ==> !((#[trigger] turns[k]) is Received && turns[k]->env.peer_id == id)
}

proof fn lemma_stays_unlisted(peers: Seq<PeerView>, turns: Seq<Turn>, id: u64)
    requires
        !listed(peers, id),
        says_nothing(turns, id),
    ensures
        !listed(after_turns(peers, turns), id),
    decreases turns.len(),
{
    if turns.len() > 0 {
        let front = turns.drop_last();
        assert(says_nothing(front, id)) by {
            assert forall|k: int| 0 <= k < front.len() implies !((#[trigger] front[k]) is Received
                && front[k]->env.peer_id == id) by {
                assert(front[k] == turns[k]);
            }
        }
        lemma_stays_unlisted(peers, front, id);
        let before = after_turns(peers, front);
        let after = after_turns(peers, turns);
        assert(turns[turns.len() - 1] == turns.last());
        if listed(after, id) {
            let i = choose|i: int| 0 <= i < after.len() && (#[trigger] after[i]).id == id;
            match turns.last() {
                Turn::Received { env, now: _ } => {
                    if env.payload is Bye {
                        let other = env.peer_id;
                        let j = lemma_filter_from(before, |p: PeerView| p.id != other, i);
                        assert(before[j].id == id);
                    } else {
                        assert(before[i].id == id);
                    }
                },
                Turn::Housekeeping { now } => {
                    let j = lemma_filter_from(
                        before,
                        |p: PeerView| elapsed(now, p.last_seen) < EXPIRY_NS,
                        i,
                    );
                    assert(before[j].id == id);
                },
            }
        }
    }
}

/// Whatever somebody else sends, short of a goodbye, leaves its sender listed
/// and heard from at that time.
pub proof fn traffic_keeps_a_peer_alive(
    peers: Seq<PeerView>,
    env: EnvelopeView,
    now: u64,
    later: u64,
)
    requires
        distinct_peers(peers),
        !(env.payload is Bye),
        now <= later,
        later - now < EXPIRY_NS,
    ensures
        listed(unexpired(peers_after(peers, env, now), later), env.peer_id),
{
    let id = env.peer_id;
    lemma_sender_heard(peers, env, now);
    let after = peers_after(peers, env, now);
    let i = choose|i: int|
        0 <= i < after.len() && (#[trigger] after[i]).id == id && after[i].last_seen == now;
    assert(after.contains(after[i]));
    peers_expire_after_the_limit(after, later, after[i]);
    let left = unexpired(after, later);
    let j = choose|j: int| 0 <= j < left.len() && left[j] == after[i];
    assert(left[j].id == id);
}

/// Something that happens to the peer table: an envelope of somebody else is
/// received, or housekeeping is done.
pub ghost enum Turn {
    Received { env: EnvelopeView, now: u64 },
    Housekeeping { now: u64 },
}

/// The peer table after a number of turns.
pub open spec fn after_turns(peers: Seq<PeerView>, turns: Seq<Turn>) -> Seq<PeerView>
    decreases turns.len(),
{
    if turns.len() == 0 {
        peers
    } else {
        let before = after_turns(peers, turns.drop_last());
        match turns.last() {
            Turn::Received { env, now } => peers_after(before, env, now),
            Turn::Housekeeping { now } => unexpired(before, now),
        }
    }
}

/// When `id` was last heard from, if that was at the time `heard` before the
/// turns.
pub open spec fn last_heard(turns: Seq<Turn>, id: u64, heard: u64) -> u64
    decreases turns.len(),
{
    if turns.len() == 0 {
        heard
    } else {
        match turns.last() {
            Turn::Received { env, now } if env.peer_id == id => now,
            _ => last_heard(turns.drop_last(), id, heard),
        }
    }
}

/// `id` does not say goodbye, and whenever housekeeping is done it was heard from
/// at most `gap` nanoseconds ago.
pub open spec fn keeps_in_touch(turns: Seq<Turn>, id: u64, heard: u64, gap: nat) -> bool {
    forall|k: int|
        0 <= k < turns.len() ==> match #[trigger] turns[k] {
            Turn::Received { env, now: _ } => env.peer_id == id ==> !(env.payload is Bye),
            Turn::Housekeeping { now } => elapsed(now, last_heard(turns.take(k), id, heard)) <= gap,
        }
}

pub open spec fn heard_at(peers: Seq<PeerView>, id: u64, at: u64) -> bool {
    exists|i: int| 0 <= i < peers.len() && (#[trigger] peers[i]).id == id && peers[i].last_seen == at
}

/// A peer that lets less than the expiry time go by between its messages stays
/// listed, whatever else happens on the group.
pub proof fn regular_traffic_keeps_a_peer_listed(
    peers: Seq<PeerView>,
    turns: Seq<Turn>,
    id: u64,
    heard: u64,
    gap: nat,
)
    requires
        distinct_peers(peers),
        heard_at(peers, id, heard),
        gap < EXPIRY_NS,
        keeps_in_touch(turns, id, heard, gap),
    ensures
        listed(after_turns(peers, turns), id),
{
    lemma_in_touch(peers, turns, id, heard, gap);
    let after = after_turns(peers, turns);
    let i = choose|i: int|
        0 <= i < after.len() && (#[trigger] after[i]).id == id && after[i].last_seen == last_heard(
            turns,
            id,
            heard,
        );
    assert(after[i].id == id);
}

/// A peer that announces itself every `KEEPALIVE_NS` stays listed, even if every
/// other announcement is lost.
pub proof fn keepalives_keep_a_peer_listed(
    peers: Seq<PeerView>,
    turns: Seq<Turn>,
    id: u64,
    heard: u64,
)
    requires
        distinct_peers(peers),
        heard_at(peers, id, heard),
        keeps_in_touch(turns, id, heard, 2 * KEEPALIVE_NS as nat),
    ensures
        listed(after_turns(peers, turns), id),
        3 * KEEPALIVE_NS == 15_000_000_000,
{
    regular_traffic_keeps_a_peer_listed(peers, turns, id, heard, 2 * KEEPALIVE_NS as nat);
}

proof fn lemma_in_touch(
    peers: Seq<PeerView>,
    turns: Seq<Turn>,
    id: u64,
    heard: u64,
    gap: nat,
)
    requires
        distinct_peers(peers),
        heard_at(peers, id, heard),
        gap < EXPIRY_NS,
        keeps_in_touch(turns, id, heard, gap),
    ensures
        distinct_peers(after_turns(peers, turns)),
        heard_at(after_turns(peers, turns), id, last_heard(turns, id, heard)),
    decreases turns.len(),
{
    if turns.len() > 0 {
        let n = turns.len() - 1;
        let front = turns.drop_last();
        assert(front =~= turns.take(n));
        assert(keeps_in_touch(front, id, heard, gap)) by {
            assert forall|k: int| 0 <= k < front.len() implies match #[trigger] front[k] {
                Turn::Received { env, now: _ } => env.peer_id == id ==> !(env.payload is Bye),
                Turn::Housekeeping { now } => elapsed(now, last_heard(front.take(k), id, heard))
                    <= gap,
            } by {
                assert(front[k] == turns[k]);
                assert(front.take(k) =~= turns.take(k));
            }
        }
        lemma_in_touch(peers, front, id, heard, gap);
        let before = after_turns(peers, front);
        let at = last_heard(front, id, heard);
        let i = choose|i: int|
            0 <= i < before.len() && (#[trigger] before[i]).id == id && before[i].last_seen == at;
        let p = before[i];
        assert(before.contains(p));
        assert(turns[n] == turns.last());
        match turns.last() {
            Turn::Received { env, now } => {
                lemma_after_distinct(before, env, now);
                let after = peers_after(before, env, now);
                if env.peer_id == id {
                    lemma_sender_heard(before, env, now);
                } else {
                    peers_do_not_interfere(before, env, now, p);
                    let j = choose|j: int| 0 <= j < after.len() && after[j] == p;
                    assert(after[j].id == id && after[j].last_seen == at);
                }
            },
            Turn::Housekeeping { now } => {
                lemma_filter_distinct(
                    before,
                    |p: PeerView| elapsed(now, p.last_seen) < EXPIRY_NS,
                );
                peers_expire_after_the_limit(before, now, p);
                let after = unexpired(before, now);
                let j = choose|j: int| 0 <= j < after.len() && after[j] == p;
                assert(after[j].id == id && after[j].last_seen == at);
            },
        }
    }
}

proof fn lemma_after_distinct(peers: Seq<PeerView>, env: EnvelopeView, now: u64)
    requires
        distinct_peers(peers),
    ensures
        distinct_peers(peers_after(peers, env, now)),
{
    let id = env.peer_id;
    match env.payload {
        PayloadView::Bye { name: _ } => {
            lemma_filter_distinct(peers, |p: PeerView| p.id != id);
        },
        PayloadView::Hello { name } => {
            heard_peers_are_listed(peers, id, name, now);
        },
        PayloadView::Text { name, body: _ } => {
            heard_peers_are_listed(peers, id, name, now);
        },
        PayloadView::Emote { name, action: _ } => {
            heard_peers_are_listed(peers, id, name, now);
        },
        PayloadView::Voice { name, seq: _, pcm: _ } => {
            heard_peers_are_listed(peers, id, name, now);
            let mid = seen(peers, id, name, now);
            let after = peers_after(peers, env, now);
            assert forall|a: int, b: int| 0 <= a < b < after.len() implies (#[trigger] after[a]).id
                != (#[trigger] after[b]).id by {
                assert(mid[a].id != mid[b].id);
            }
        },
    }
}

/// Whatever an envelope holds, short of a goodbye, its sender was heard from.
proof fn lemma_sender_heard(peers: Seq<PeerView>, env: EnvelopeView, now: u64)
    requires
        distinct_peers(peers),
        !(env.payload is Bye),
    ensures
        heard_at(peers_after(peers, env, now), env.peer_id, now),
{
    let id = env.peer_id;
    let name = match env.payload {
        PayloadView::Hello { name } => name,
        PayloadView::Bye { name } => name,
        PayloadView::Text { name, body: _ } => name,
        PayloadView::Emote { name, action: _ } => name,
        PayloadView::Voice { name, seq: _, pcm: _ } => name,
    };
    heard_peers_are_listed(peers, id, name, now);
    let mid = seen(peers, id, name, now);
    let after = peers_after(peers, env, now);
    let i = choose|i: int| 0 <= i < mid.len() && (#[trigger] mid[i]).id == id;
    assert(mid.contains(mid[i]));
    assert(after[i].id == id && after[i].last_seen == now);
}

/// A greeting lists its sender, under the name it gives, at every other peer that
/// gets the datagram.
pub proof fn a_greeting_lists_its_sender(
    peers: Seq<PeerView>,
    peer_id: u64,
    name: Seq<char>,
    now: u64,
)
    requires
        distinct_peers(peers),
        encode_utf8(name).len() <= usize::MAX,
    ensures
        ({
            let env = EnvelopeView { magic: MAGIC, peer_id, payload: PayloadView::Hello { name } };
            let after = peers_after(peers, env, now);
            &&& parse_envelope(env.bytes()) == Some(env)
            &&& listed(after, peer_id)
            &&& forall|p: PeerView| #[trigger]
                after.contains(p) && p.id == peer_id ==> p.name == name && p.last_seen == now
        }),
{
    let env = EnvelopeView { magic: MAGIC, peer_id, payload: PayloadView::Hello { name } };
    decode_inverts_encode(env, Seq::empty());
    heard_peers_are_listed(peers, peer_id, name, now);
}

/// What a microphone captured is what every other peer that gets the datagram has
/// to mix, bit for bit.
pub proof fn voice_arrives_bit_for_bit(
    peers: Seq<PeerView>,
    peer_id: u64,
    name: Seq<char>,
    seq: u32,
    pcm: Seq<u32>,
)
    requires
        encode_utf8(name).len() <= usize::MAX,
        pcm.len() <= usize::MAX,
    ensures
        ({
            let payload = PayloadView::Voice { name, seq, pcm };
            let env = EnvelopeView { magic: MAGIC, peer_id, payload };
            &&& parse_envelope(env.bytes()) == Some(env)
            &&& effects_of(peers, env) == seq![EffectView::Hear { id: peer_id, pcm }]
        }),
{
    let payload = PayloadView::Voice { name, seq, pcm };
    let env = EnvelopeView { magic: MAGIC, peer_id, payload };
    decode_inverts_encode(env, Seq::empty());
}

/// What one peer sends never changes what is known of another.
pub proof fn peers_do_not_interfere(
    peers: Seq<PeerView>,
    env: EnvelopeView,
    now: u64,
    other: PeerView,
)
    requires
        distinct_peers(peers),
        other.id != env.peer_id,
    ensures
        peers.contains(other) <==> peers_after(peers, env, now).contains(other),
{
    let id = env.peer_id;
    match env.payload {
        PayloadView::Bye { name: _ } => {
            departed_peers_are_unlisted(peers, id);
        },
        PayloadView::Hello { name } => {
            heard_peers_are_listed(peers, id, name, now);
        },
        PayloadView::Text { name, body: _ } => {
            heard_peers_are_listed(peers, id, name, now);
        },
        PayloadView::Emote { name, action: _ } => {
            heard_peers_are_listed(peers, id, name, now);
        },
        PayloadView::Voice { name, seq: _, pcm: _ } => {
            heard_peers_are_listed(peers, id, name, now);
            let mid = seen(peers, id, name, now);
            let after = peers_after(peers, env, now);
            if mid.contains(other) {
                let i = choose|i: int| 0 <= i < mid.len() && mid[i] == other;
                assert(after[i] == other);
            }
            if after.contains(other) {
                let i = choose|i: int| 0 <= i < after.len() && after[i] == other;
                assert(mid[i] == other);
            }
        },
    }
}

/// A text line of somebody else is told exactly once, under its sender's name and
/// with its very words, and sounds once, whoever is listed.
pub proof fn a_text_is_told_once(peers: Seq<PeerView>, env: EnvelopeView)
    requires
        env.payload is Text,
    ensures
        ({
            let effects = effects_of(peers, env);
            &&& effects.len() == 2
            &&& effects.contains(EffectView::Play(Cue::Message))
            &&& effects.contains(
                EffectView::Tell(
                    UiMsgView::Text { who: env.payload->Text_name, body: env.payload->Text_body },
                ),
            )
        }),
{
    let effects = effects_of(peers, env);
    assert(effects.contains(effects[0]) && effects.contains(effects[1]));
}

/// An emote of somebody else is told exactly once and makes no sound, whoever is
/// listed.
pub proof fn an_emote_is_told_once(peers: Seq<PeerView>, env: EnvelopeView)
    requires
        env.payload is Emote,
    ensures
        effects_of(peers, env).len() == 1,
        effects_of(peers, env)[0] == EffectView::Tell(
            UiMsgView::Emote { name: env.payload->Emote_name, action: env.payload->Emote_action },
        ),
{
}

/// A voice frame of somebody else is heard exactly once, sample by sample, as its
/// sender's, and is not told; whoever is listed.
pub proof fn a_voice_is_heard_once(peers: Seq<PeerView>, env: EnvelopeView)
    requires
        env.payload is Voice,
    ensures
        effects_of(peers, env).len() == 1,
        effects_of(peers, env)[0] is Hear,
        effects_of(peers, env)[0]->id == env.peer_id,
        effects_of(peers, env)[0]->pcm == env.payload->Voice_pcm,
{
}

/// A greeting is news exactly when no peer of its sender's id is listed: it then
/// sounds once and is told once, and else has no effect.
pub proof fn a_greeting_is_news_of_strangers(peers: Seq<PeerView>, env: EnvelopeView)
    requires
        env.payload is Hello,
    ensures
        (exists|i: int| 0 <= i < peers.len() && (#[trigger] peers[i]).id == env.peer_id)
            ==> effects_of(peers, env).len() == 0,
        (forall|i: int| 0 <= i < peers.len() ==> (#[trigger] peers[i]).id != env.peer_id) ==> {
            let effects = effects_of(peers, env);
            &&& effects.len() == 2
            &&& effects.contains(EffectView::Play(Cue::Join))
            &&& effects.contains(EffectView::Tell(UiMsgView::Joined(env.payload->Hello_name)))
        },
{
    let effects = effects_of(peers, env);
    if !listed(peers, env.peer_id) {
        assert(effects.contains(effects[0]) && effects.contains(effects[1]));
    }
}

/// A goodbye is news exactly when a peer of its sender's id is listed: it then
/// sounds once and is told once, and else has no effect.
pub proof fn a_goodbye_is_news_of_the_listed(peers: Seq<PeerView>, env: EnvelopeView)
    requires
        env.payload is Bye,
    ensures
        (forall|i: int| 0 <= i < peers.len() ==> (#[trigger] peers[i]).id != env.peer_id)
            ==> effects_of(peers, env).len() == 0,
        (exists|i: int| 0 <= i < peers.len() && (#[trigger] peers[i]).id == env.peer_id) ==> {
            let effects = effects_of(peers, env);
            &&& effects.len() == 2
            &&& effects.contains(EffectView::Play(Cue::Leave))
            &&& effects.contains(EffectView::Tell(UiMsgView::Left(env.payload->Bye_name)))
        },
{
    let effects = effects_of(peers, env);
    if listed(peers, env.peer_id) {
        assert(effects.contains(effects[0]) && effects.contains(effects[1]));
    }
}

/// The name that a payload carries.
pub open spec fn name_in(payload: PayloadView) -> Seq<char> {
    match payload {
        PayloadView::Hello { name } => name,
        PayloadView::Bye { name } => name,
        PayloadView::Text { name, body: _ } => name,
        PayloadView::Emote { name, action: _ } => name,
        PayloadView::Voice { name, seq: _, pcm: _ } => name,
    }
}

/// Whatever somebody else sends, short of a goodbye, its sender is listed under
/// the name it gave, heard from just now; and it counts as speaking for 300 ms if
/// that was voice, and else as long as it did, or not at all if it is new.
pub proof fn a_sender_is_listed_as_it_says(
    peers: Seq<PeerView>,
    env: EnvelopeView,
    now: u64,
    p: PeerView,
)
    requires
        distinct_peers(peers),
        !(env.payload is Bye),
        now <= u64::MAX - SPEAKING_NS,
        peers_after(peers, env, now).contains(p),
        p.id == env.peer_id,
    ensures
        p.name == name_in(env.payload),
        p.last_seen == now,
        env.payload is Voice ==> p.speaking_until == now + 300_000_000,
        !(env.payload is Voice) && !listed(peers, env.peer_id) ==> p.speaking_until == now,
        !(env.payload is Voice) ==> forall|q: PeerView| #[trigger]
            peers.contains(q) && q.id == env.peer_id ==> p.speaking_until == q.speaking_until,
{
    let id = env.peer_id;
    let name = name_in(env.payload);
    let mid = seen(peers, id, name, now);
    let after = peers_after(peers, env, now);
    heard_peers_are_listed(peers, id, name, now);
    let i = choose|i: int| 0 <= i < after.len() && after[i] == p;
    assert(mid.contains(mid[i]));
    assert(mid[i].id == id);
    assert forall|q: PeerView| #[trigger] peers.contains(q) && q.id == id && !(env.payload is Voice)
        implies p.speaking_until == q.speaking_until by {
        let k = choose|k: int| 0 <= k < peers.len() && peers[k] == q;
        assert(listed(peers, id));
        assert(k == i);
    }
}

/// Our own traffic, looped back to us, changes nothing and has no effect; nor
/// does the end, which alone stops the engine.
pub proof fn own_traffic_is_ignored(
    peers: Seq<PeerView>,
    env: EnvelopeView,
    now: u64,
    later: u64,
    last_tick: u64,
)
    ensures
        ({
            let event = EventView::Received(env);
            let id = env.peer_id;
            &&& turn_peers(peers, event, id, now, later, last_tick) == peers
            &&& turn_effects(peers, event, id).len() == 0
            &&& !turn_ticks(event, id, later, last_tick)
            &&& turn_last_tick(event, id, later, last_tick) == last_tick
        }),
        ({
            let id = env.peer_id;
            &&& turn_peers(peers, EventView::Closed, id, now, later, last_tick) == peers
            &&& turn_effects(peers, EventView::Closed, id).len() == 0
            &&& !turn_ticks(EventView::Closed, id, later, last_tick)
            &&& turn_last_tick(EventView::Closed, id, later, last_tick) == last_tick
        }),
{
}

/// A turn takes in what somebody else sent; then, if more than 80 ms have gone by
/// since it was last done, housekeeping drops the peers that have been silent for
/// 15 seconds, and no others.
pub proof fn a_turn_receives_and_tidies(
    peers: Seq<PeerView>,
    env: EnvelopeView,
    own_id: u64,
    now: u64,
    later: u64,
    last_tick: u64,
    p: PeerView,
)
    requires
        env.peer_id != own_id,
    ensures
        ({
            let event = EventView::Received(env);
            let ticks = later - last_tick > 80_000_000;
            let after = turn_peers(peers, event, own_id, now, later, last_tick);
            &&& turn_effects(peers, event, own_id) == effects_of(peers, env)
            &&& turn_ticks(event, own_id, later, last_tick) <==> ticks
            &&& ticks ==> turn_last_tick(event, own_id, later, last_tick) == later
            &&& !ticks ==> turn_last_tick(event, own_id, later, last_tick) == last_tick
            &&& after.contains(p) <==> peers_after(peers, env, now).contains(p) && (ticks ==> later
                - p.last_seen < 15_000_000_000)
        }),
        ({
            let ticks = later - last_tick > 80_000_000;
            let after = turn_peers(peers, EventView::Quiet, own_id, now, later, last_tick);
            &&& turn_effects(peers, EventView::Quiet, own_id).len() == 0
            &&& turn_ticks(EventView::Quiet, own_id, later, last_tick) <==> ticks
            &&& ticks ==> turn_last_tick(EventView::Quiet, own_id, later, last_tick) == later
            &&& !ticks ==> turn_last_tick(EventView::Quiet, own_id, later, last_tick) == last_tick
            &&& after.contains(p) <==> peers.contains(p) && (ticks ==> later - p.last_seen
                < 15_000_000_000)
        }),
{
    peers_expire_after_the_limit(peers, later, p);
    peers_expire_after_the_limit(peers_after(peers, env, now), later, p);
}

/// The number of the frame that follows `k` others.
pub open spec fn number_after(seq: u32, k: nat) -> u32
    decreases k,
{
    if k == 0 {
        seq
    } else {
        next_number(number_after(seq, (k - 1) as nat))
    }
}

/// Frames are numbered one by one, modulo 2^32.
pub proof fn frames_count_up(seq: u32, k: nat)
    ensures
        number_after(seq, k) as int == (seq + k) % 0x1_0000_0000,
    decreases k,
{
    if k > 0 {
        frames_count_up(seq, (k - 1) as nat);
    }
}

/// Every announcement and every frame carries our magic number, the sender and
/// its name, unchanged.
pub proof fn what_is_sent_says_who_sent_it(peer_id: u64, name: Seq<char>, seq: u32, pcm: Seq<u32>)
    ensures
        greeting(peer_id, name).magic == 0x4C41_4E43,
        parting(peer_id, name).magic == 0x4C41_4E43,
        voice_frame(peer_id, name, seq, pcm).magic == 0x4C41_4E43,
        greeting(peer_id, name).peer_id == peer_id,
        parting(peer_id, name).peer_id == peer_id,
        voice_frame(peer_id, name, seq, pcm).peer_id == peer_id,
        greeting(peer_id, name).payload == (PayloadView::Hello { name }),
        parting(peer_id, name).payload == (PayloadView::Bye { name }),
        voice_frame(peer_id, name, seq, pcm).payload == (PayloadView::Voice { name, seq, pcm }),
{
}

} // verus!
