use lan_chat::audio::Cue;
use lan_chat::engine::{Effect, Engine, Event, UiMsg, KEEPALIVE_NS, TICK_NS};
use lan_chat::levels::{Levels, FULL_LEVEL, LEVEL_FLOOR};
use lan_chat::presence::{upsert_peer, Peers, EXPIRY_NS, SPEAKING_NS};
use lan_chat::protocol::{Envelope, Payload};

fn hello(id: u64, name: &str) -> Envelope {
    Envelope::new(id, Payload::Hello { name: name.into() })
}

fn names(peers: &Peers) -> Vec<String> {
    peers.names()
}

#[test]
fn a_peer_is_new_once() {
    let mut peers = Peers::new();
    assert!(upsert_peer(&mut peers, 1, "alice", 0));
    assert!(!upsert_peer(&mut peers, 1, "alicia", 5));
    assert_eq!(names(&peers), vec!["alicia"]);
    assert!(peers.remove(1));
    assert!(!peers.remove(1));
    assert!(names(&peers).is_empty());
}

#[test]
fn the_list_is_sorted_by_name() {
    let mut peers = Peers::new();
    for (id, name) in [(1, "carol"), (2, "Zoe"), (3, "alice"), (4, "\u{e9}mile"), (5, "al")] {
        upsert_peer(&mut peers, id, name, 0);
    }
    let mut want: Vec<String> =
        ["carol", "Zoe", "alice", "\u{e9}mile", "al"].iter().map(|s| s.to_string()).collect();
    want.sort();
    assert_eq!(names(&peers), want);
    let rows = peers.rows(0);
    assert_eq!(rows.iter().map(|r| r.name.clone()).collect::<Vec<_>>(), want);
    assert_eq!(rows[0].id, 2);
    assert!(rows.iter().all(|r| !r.speaking));
}

#[test]
fn arrival_order_does_not_show() {
    let mut a = Peers::new();
    let mut b = Peers::new();
    for (id, name) in [(1, "x"), (2, "y"), (3, "z")] {
        upsert_peer(&mut a, id, name, 0);
    }
    for (id, name) in [(3, "z"), (1, "x"), (2, "y")] {
        upsert_peer(&mut b, id, name, 0);
    }
    assert_eq!(names(&a), names(&b));
}

#[test]
fn silent_peers_expire() {
    let mut peers = Peers::new();
    upsert_peer(&mut peers, 1, "alice", 10);
    upsert_peer(&mut peers, 2, "bob", 11);
    peers.expire(10 + EXPIRY_NS - 1);
    assert_eq!(names(&peers).len(), 2);
    peers.expire(10 + EXPIRY_NS);
    assert_eq!(names(&peers), vec!["bob"]);
    // A clock that reads earlier expires nobody.
    peers.expire(0);
    assert_eq!(names(&peers), vec!["bob"]);
}

#[test]
fn speaking_wears_off() {
    let mut peers = Peers::new();
    upsert_peer(&mut peers, 1, "alice", 0);
    peers.mark_speaking(1, 100);
    assert!(peers.rows(100 + SPEAKING_NS - 1)[0].speaking);
    assert!(!peers.rows(100 + SPEAKING_NS)[0].speaking);
    peers.mark_speaking(2, 100);
    assert_eq!(names(&peers).len(), 1);
}

#[test]
fn joining_and_leaving_are_announced_once() {
    let engine = Engine::new(99, 0);
    let mut peers = Peers::new();
    let effects = engine.receive(&mut peers, hello(1, "alice"), 0);
    assert_eq!(effects.len(), 2);
    assert!(matches!(effects[0], Effect::Play(Cue::Join)));
    assert!(matches!(&effects[1], Effect::Tell(UiMsg::Joined(n)) if n == "alice"));
    assert!(engine.receive(&mut peers, hello(1, "alice"), 1).is_empty());

    let bye = Envelope::new(1, Payload::Bye { name: "alice".into() });
    let effects = engine.receive(&mut peers, bye.clone(), 2);
    assert!(matches!(effects[0], Effect::Play(Cue::Leave)));
    assert!(matches!(&effects[1], Effect::Tell(UiMsg::Left(n)) if n == "alice"));
    assert!(engine.receive(&mut peers, bye, 3).is_empty());
}

#[test]
fn own_traffic_is_ignored() {
    let mut engine = Engine::new(99, 0);
    let mut peers = Peers::new();
    assert!(engine.receive(&mut peers, hello(99, "me"), 0).is_empty());
    // Not even housekeeping follows.
    upsert_peer(&mut peers, 1, "old", 0);
    let later = EXPIRY_NS + TICK_NS;
    let step = engine.step(&mut peers, Event::Received(hello(99, "me")), later, later);
    assert!(step.effects.is_empty() && !step.decay && !step.stop);
    assert_eq!(names(&peers), vec!["old"]);
}

#[test]
fn text_and_emotes_are_told() {
    let engine = Engine::new(99, 0);
    let mut peers = Peers::new();
    let text = Envelope::new(1, Payload::Text { name: "a".into(), body: "hi".into() });
    let effects = engine.receive(&mut peers, text, 0);
    assert!(matches!(effects[0], Effect::Play(Cue::Message)));
    assert!(matches!(&effects[1], Effect::Tell(UiMsg::Text { who, body }) if who == "a" && body == "hi"));
    assert_eq!(effects.len(), 2);

    let emote = Envelope::new(2, Payload::Emote { name: "b".into(), action: "waves".into() });
    let effects = engine.receive(&mut peers, emote, 0);
    assert!(matches!(&effects[0], Effect::Tell(UiMsg::Emote { name, action }) if name == "b" && action == "waves"));
    assert_eq!(effects.len(), 1);
    // Both count as being there, without having said hello.
    assert_eq!(names(&peers), vec!["a", "b"]);
    assert!(engine.receive(&mut peers, hello(1, "a"), 0).is_empty());
}

#[test]
fn voice_marks_its_sender() {
    let engine = Engine::new(99, 0);
    let mut peers = Peers::new();
    let voice = Envelope::new(1, Payload::Voice { name: "a".into(), seq: 3, pcm: vec![1, 2] });
    let effects = engine.receive(&mut peers, voice, 50);
    assert!(matches!(&effects[0], Effect::Hear { id: 1, pcm } if *pcm == vec![1, 2]));
    assert_eq!(effects.len(), 1);
    assert!(peers.rows(50)[0].speaking);
}

#[test]
fn traffic_keeps_its_sender_and_nobody_else() {
    let mut engine = Engine::new(99, 0);
    let mut peers = Peers::new();
    engine.receive(&mut peers, hello(1, "a"), 0);
    engine.receive(&mut peers, hello(2, "b"), 0);
    let text = Envelope::new(1, Payload::Text { name: "a2".into(), body: "hi".into() });
    engine.receive(&mut peers, text, EXPIRY_NS - 1);
    assert_eq!(names(&peers), vec!["a2", "b"]);
    engine.step(&mut peers, Event::Quiet, EXPIRY_NS, EXPIRY_NS);
    assert_eq!(names(&peers), vec!["a2"]);
    let bye = Envelope::new(2, Payload::Bye { name: "b".into() });
    assert!(engine.receive(&mut peers, bye, EXPIRY_NS).is_empty());
    assert_eq!(names(&peers), vec!["a2"]);
}

#[test]
fn a_lost_keepalive_is_forgiven() {
    let mut engine = Engine::new(99, 0);
    let mut peers = Peers::new();
    for round in 0..10 {
        // Every other greeting is lost.
        let now = 2 * round * KEEPALIVE_NS;
        let step = engine.step(&mut peers, Event::Received(hello(1, "a")), now, now);
        assert_eq!(step.effects.is_empty(), round > 0);
        for quiet in 1..=20 {
            let later = now + quiet * KEEPALIVE_NS / 10;
            engine.step(&mut peers, Event::Quiet, later, later);
            assert_eq!(names(&peers), vec!["a"]);
        }
    }
}

#[test]
fn housekeeping_comes_with_time() {
    let mut engine = Engine::new(99, 0);
    let mut peers = Peers::new();
    upsert_peer(&mut peers, 1, "a", 0);
    let step = engine.step(&mut peers, Event::Quiet, TICK_NS, TICK_NS);
    assert!(!step.decay && !step.stop && step.effects.is_empty());
    let step = engine.step(&mut peers, Event::Quiet, TICK_NS + 1, TICK_NS + 1);
    assert!(step.decay);
    assert_eq!(names(&peers), vec!["a"]);
    let step = engine.step(&mut peers, Event::Quiet, EXPIRY_NS, EXPIRY_NS);
    assert!(step.decay);
    assert!(names(&peers).is_empty());
    // The clock was read anew.
    assert!(!engine.tick(&mut peers, EXPIRY_NS + TICK_NS));
    let step = engine.step(&mut peers, Event::Closed, 0, 0);
    assert!(step.stop && !step.decay);
}

#[test]
fn meters_jump_up_and_wear_off() {
    assert_eq!(FULL_LEVEL, 1.0f32.to_bits());
    assert_eq!(LEVEL_FLOOR, 0.01f32.to_bits());
    let mut levels = Levels::new();
    assert_eq!(levels.level(1), 0);
    levels.raise(1, 0.5f32.to_bits());
    levels.raise(1, 0.25f32.to_bits());
    levels.raise(2, 0.012f32.to_bits());
    assert_eq!(f32::from_bits(levels.level(1)), 0.5);
    let scaled: Vec<u32> =
        levels.values().iter().map(|v| (f32::from_bits(*v) * 0.82).to_bits()).collect();
    levels.decay(&scaled);
    assert_eq!(f32::from_bits(levels.level(1)), 0.5 * 0.82);
    assert_eq!(levels.level(2), 0);
    assert_eq!(levels.values().len(), 1);
}
