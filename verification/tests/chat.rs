use lan_chat::audio::Cue;
use lan_chat::chat::{Action, ChatApp};
use lan_chat::engine::{Effect, Engine, UiMsg};
use lan_chat::presence::{upsert_peer, Peers};
use lan_chat::protocol::{Envelope, Payload};

fn chat() -> ChatApp {
    ChatApp::new(7, "alice".into(), Ok(48_000), vec!["mic".into()], vec!["hdmi".into()])
}

fn mute_chat() -> ChatApp {
    ChatApp::new(7, "alice".into(), Err("no device".into()), vec![], vec![])
}

fn send(chat: &mut ChatApp, line: &str) -> Vec<Action> {
    chat.set_draft(line.to_string());
    chat.send_text(&Peers::new())
}

fn last(chat: &ChatApp) -> (&str, &str, bool) {
    let line = chat.log().last().unwrap();
    (line.who.as_str(), line.body.as_str(), line.mine)
}

fn text_of(actions: &[Action]) -> Option<(String, String)> {
    match actions {
        [Action::Send(Envelope { peer_id: 7, payload: Payload::Text { name, body }, .. }), Action::Play(Cue::Message)] => {
            Some((name.clone(), body.clone()))
        }
        _ => None,
    }
}

#[test]
fn text_is_trimmed_sent_and_logged() {
    let mut c = chat();
    let actions = send(&mut c, " \t hello there\u{3000}\n");
    assert_eq!(text_of(&actions), Some(("alice".into(), "hello there".into())));
    assert_eq!(last(&c), ("alice", "hello there", true));
    assert_eq!(c.draft(), "");
    assert!(c.take_scroll());
    assert!(!c.take_scroll());
}

#[test]
fn blank_drafts_are_kept() {
    let mut c = chat();
    assert!(send(&mut c, "  ").is_empty());
    assert_eq!(c.draft(), "  ");
    assert!(c.log().is_empty());
}

#[test]
fn white_space_is_what_unicode_says() {
    let mut c = chat();
    let peers = Peers::new();
    for code in 0..=0x10_ffffu32 {
        if let Some(ch) = char::from_u32(code) {
            if ch == '/' {
                continue;
            }
            c.set_draft(ch.to_string());
            let blank = c.send_text(&peers).is_empty();
            let listed = matches!(
                code,
                9..=13 | 32 | 0x85 | 0xa0 | 0x1680 | 0x2000..=0x200a | 0x2028 | 0x2029 | 0x202f
                    | 0x205f | 0x3000
            );
            assert_eq!(blank, listed);
            assert_eq!(blank, ch.is_whitespace());
        }
        if code % 4096 == 0 {
            c.say("/clear", &peers);
        }
    }
}

#[test]
fn two_slashes_send_one() {
    let mut c = chat();
    assert_eq!(text_of(&send(&mut c, "//quit")), Some(("alice".into(), "/quit".into())));
    assert_eq!(text_of(&send(&mut c, "///x")), Some(("alice".into(), "//x".into())));
    assert!(c.closing().is_none());
}

#[test]
fn a_lone_slash_is_an_unknown_command() {
    let mut c = chat();
    assert!(send(&mut c, "/").is_empty());
    assert_eq!(last(&c), ("*", "unknown command: /  (try /help)", false));
    assert!(send(&mut c, "/Dance now").is_empty());
    assert_eq!(last(&c), ("*", "unknown command: /dance  (try /help)", false));
}

#[test]
fn renaming_announces_the_new_name() {
    let mut c = chat();
    let actions = send(&mut c, "/NaMe   bob  smith ");
    assert!(matches!(&actions[..], [Action::Send(env)]
        if *env == Envelope::new(7, Payload::Hello { name: "bob  smith".into() })));
    assert_eq!(last(&c), ("*", "alice is now known as bob  smith", false));
    assert_eq!(c.name(), "bob  smith");
    assert_eq!(text_of(&send(&mut c, "x")), Some(("bob  smith".into(), "x".into())));
    assert!(send(&mut c, "/nick").is_empty());
    assert_eq!(last(&c), ("*", "usage: /name <new name>", false));
    assert_eq!(send(&mut c, "/nick\u{2003}eve").len(), 1);
    assert_eq!(c.name(), "eve");
}

#[test]
fn emotes_are_sent_and_shown() {
    let mut c = chat();
    let actions = send(&mut c, "/me waves");
    assert!(matches!(&actions[..], [Action::Send(env)]
        if *env == Envelope::new(7, Payload::Emote { name: "alice".into(), action: "waves".into() })));
    assert_eq!(last(&c), ("*", "alice waves", false));
    assert!(send(&mut c, "/me").is_empty());
    assert_eq!(last(&c), ("*", "usage: /me <action>", false));
}

#[test]
fn the_microphone_is_switched_by_command() {
    let mut c = chat();
    for (line, on) in [
        ("/mic on", true),
        ("/mic ON", true),
        ("/mic 1", true),
        ("/mic True", true),
        ("/mic off", false),
        ("/mic 0", false),
        ("/mic false", false),
        ("/mic", true),
    ] {
        let before = c.log().len();
        let actions = send(&mut c, line);
        assert!(matches!(actions[..], [Action::SwitchMic(w)] if w == on), "{line}");
        assert_eq!(c.log().len(), before);
    }
    c.mic_switched(true, Err("busy".into()));
    assert_eq!(last(&c), ("*", "mic error: busy", false));
    c.mic_switched(true, Ok(()));
    assert_eq!(last(&c), ("*", "microphone on", false));
    assert!(c.voice().unwrap().mic_on());
    assert!(matches!(send(&mut c, "/mic")[..], [Action::SwitchMic(false)]));
    c.mic_switched(false, Ok(()));
    assert_eq!(last(&c), ("*", "microphone off", false));
    assert!(send(&mut c, "/mic loud").is_empty());
    assert_eq!(last(&c), ("*", "usage: /mic [on|off]", false));
}

#[test]
fn toggling_twice_is_not_toggling() {
    let mut c = chat();
    for want in [true, false, true] {
        match send(&mut c, "/mic")[..] {
            [Action::SwitchMic(on)] => {
                assert_eq!(on, want);
                c.mic_switched(on, Ok(()));
            }
            _ => panic!("no switch"),
        }
        assert_eq!(c.voice().unwrap().mic_on(), want);
    }
}

#[test]
fn a_wish_to_leave_stays() {
    let mut c = chat();
    send(&mut c, "/quit");
    send(&mut c, "/clear");
    send(&mut c, "still here");
    c.on_message(UiMsg::Joined("bob".into()));
    assert!(c.closing().is_some());
    assert_eq!(c.peer_id(), 7);
}

#[test]
fn without_audio_there_is_no_microphone() {
    let mut c = mute_chat();
    assert_eq!(*c.voice_err(), Some("no device".to_string()));
    assert!(c.voice().is_none());
    assert!(send(&mut c, "/mic on").is_empty());
    assert_eq!(last(&c), ("*", "voice unavailable", false));
    assert!(send(&mut c, "/mic").is_empty());
    assert_eq!(last(&c), ("*", "usage: /mic [on|off]", false));
    let before = c.log().len();
    c.mic_switched(true, Ok(()));
    c.set_mic(true, Ok(()));
    c.set_input(None, Ok(()));
    c.set_output(None, Ok(1));
    assert_eq!(c.log().len(), before);
    assert!(c.voice().is_none());
}

#[test]
fn peers_are_listed_by_command() {
    let mut c = chat();
    send(&mut c, "/peers");
    assert_eq!(last(&c), ("*", "no other peers on the group", false));
    let mut peers = Peers::new();
    upsert_peer(&mut peers, 1, "zoe", 0);
    upsert_peer(&mut peers, 2, "bob", 0);
    c.say("/peers", &peers);
    assert_eq!(last(&c), ("*", "2 peer(s): bob, zoe", false));
    for id in 3..13 {
        upsert_peer(&mut peers, id, "x", 0);
    }
    c.handle_command("PEERS", &peers);
    assert_eq!(last(&c), ("*", "12 peer(s): bob, x, x, x, x, x, x, x, x, x, x, zoe", false));
}

#[test]
fn clear_quit_and_help() {
    let mut c = chat();
    let help = "commands: /name <n>, /me <action>, /mic [on|off], /peers, /clear, /quit, /help";
    send(&mut c, "/help");
    assert_eq!(last(&c), ("*", help, false));
    send(&mut c, "/?");
    assert_eq!(last(&c), ("*", help, false));
    send(&mut c, "/clear");
    assert!(c.log().is_empty());
    assert!(c.closing().is_none());
    send(&mut c, "/exit");
    assert_eq!(c.closing(), Some(Envelope::new(7, Payload::Bye { name: "alice".into() })));
    assert_eq!(c.farewell(), Envelope::new(7, Payload::Bye { name: "alice".into() }));
    let mut d = chat();
    send(&mut d, "/quit now");
    assert!(d.closing().is_some());
}

#[test]
fn commands_take_names_in_lower_case() {
    let mut c = chat();
    let peers = Peers::new();
    // Already split and lowered: an upper-case word is unknown here.
    c.run_command("HELP", "", "", &peers);
    assert_eq!(last(&c), ("*", "unknown command: /HELP  (try /help)", false));
    c.run_command("mic", "ON", "on", &peers);
    // The Kelvin sign has a lower case of its own.
    c.handle_command("nic\u{212a} bob", &peers);
    assert_eq!(c.name(), "bob");
}

#[test]
fn names_need_not_be_ascii() {
    let mut c = chat();
    let actions = send(&mut c, "/NAME Jos\u{e9}");
    assert!(matches!(&actions[..], [Action::Send(env)]
        if *env == Envelope::new(7, Payload::Hello { name: "Jos\u{e9}".into() })));
    assert_eq!(c.name(), "Jos\u{e9}");
}

#[test]
fn case_aliases_and_white_space_do_not_matter() {
    let outcome = |line: &str| {
        let mut c = chat();
        let actions = format!("{:?}", send(&mut c, line));
        (actions, format!("{:?}", c.log()), c.name().to_string(), c.closing().is_some())
    };
    assert_eq!(outcome("/name bob"), outcome("/NaMe bob"));
    assert_eq!(outcome("/name bob"), outcome("/nick bob"));
    assert_eq!(outcome("/name bob"), outcome("  /name\t \u{2003}bob \n"));
    assert_eq!(outcome("/quit"), outcome("/exit"));
    assert_eq!(outcome("/help"), outcome("/?"));
    assert_ne!(outcome("/name bob"), outcome("/name Bob"));
}

#[test]
fn messages_become_lines() {
    let mut c = chat();
    c.on_message(UiMsg::Joined("bob".into()));
    assert_eq!(last(&c), ("*", "bob joined", false));
    c.on_message(UiMsg::Left("bob".into()));
    assert_eq!(last(&c), ("*", "bob left", false));
    c.on_message(UiMsg::Text { who: "bob".into(), body: "hi".into() });
    assert_eq!(last(&c), ("bob", "hi", false));
    c.on_message(UiMsg::Emote { name: "bob".into(), action: "waves".into() });
    assert_eq!(last(&c), ("*", "bob waves", false));
    assert!(c.take_scroll());
}

#[test]
fn the_compose_bar_sends_on_click_and_enter() {
    let mut c = chat();
    assert_eq!(c.compose(true, true, false, false), (true, false));
    assert!(c.compose_focus());
    assert_eq!(c.compose(false, false, true, true), (true, true));
    assert!(!c.compose_focus());
    assert_eq!(c.compose(false, false, true, false), (false, false));
    assert_eq!(c.compose(true, false, false, true), (false, false));
}

#[test]
fn device_changes_keep_their_errors() {
    let mut c = chat();
    assert_eq!(c.peer_id(), 7);
    assert_eq!(*c.input_devices(), vec!["mic".to_string()]);
    assert_eq!(*c.output_devices(), vec!["hdmi".to_string()]);
    c.set_mic(true, Err("busy".into()));
    assert_eq!(*c.voice_err(), Some("busy".to_string()));
    c.set_mic(true, Ok(()));
    assert!(c.voice().unwrap().mic_on());
    assert_eq!(*c.voice_err(), Some("busy".to_string()));
    c.set_input(Some("usb".into()), Err("gone".into()));
    assert_eq!(*c.voice_err(), Some("gone".to_string()));
    assert_eq!(*c.voice().unwrap().input_name(), Some("usb".to_string()));
    c.set_output(Some("hdmi".into()), Err("no".into()));
    assert_eq!(*c.voice_err(), Some("no".to_string()));
    c.set_output(Some("hdmi".into()), Ok(44_100));
    assert_eq!(c.voice().unwrap().out_rate(), 44_100);
    c.set_devices(vec![], vec!["a".into()]);
    assert!(c.input_devices().is_empty());
    assert_eq!(*c.output_devices(), vec!["a".to_string()]);
}

#[test]
fn a_text_travels_from_peer_to_peer() {
    let mut a = chat();
    let mut b = ChatApp::new(8, "bob".into(), Ok(48_000), vec![], vec![]);
    let engine = Engine::new(8, 0);
    let own = Engine::new(7, 0);
    let mut peers = Peers::new();
    for line in ["hello ipv6", "/me waves"] {
        for action in send(&mut a, line) {
            if let Action::Send(env) = action {
                let bytes = env.encode();
                let got = Envelope::decode(&bytes).unwrap();
                assert!(own.receive(&mut Peers::new(), got.clone(), 0).is_empty());
                for effect in engine.receive(&mut peers, got, 0) {
                    if let Effect::Tell(msg) = effect {
                        b.on_message(msg);
                    }
                }
            }
        }
    }
    assert_eq!(b.log().len(), 2);
    assert_eq!((b.log()[0].who.as_str(), b.log()[0].body.as_str(), b.log()[0].mine), ("alice", "hello ipv6", false));
    assert_eq!((b.log()[1].who.as_str(), b.log()[1].body.as_str()), ("*", "alice waves"));
    assert_eq!(a.log()[1].body, b.log()[1].body);
    assert_eq!(peers.names(), vec!["alice"]);
}
