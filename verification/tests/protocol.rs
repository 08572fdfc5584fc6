use lan_chat::engine::{bye, hello, MicOut};
use lan_chat::protocol::{Envelope, Payload, MAGIC};

fn all_kinds() -> Vec<Envelope> {
    vec![
        Envelope::new(1, Payload::Hello { name: "alice".into() }),
        Envelope::new(u64::MAX, Payload::Bye { name: String::new() }),
        Envelope::new(7, Payload::Text { name: "bob".into(), body: "hello ipv6 \u{1f600}".into() }),
        Envelope::new(300, Payload::Emote { name: "carol".into(), action: "waves".into() }),
        Envelope::new(
            0,
            Payload::Voice {
                name: "dave".into(),
                seq: u32::MAX,
                pcm: vec![0.5f32.to_bits(), (-1.0f32).to_bits(), f32::NAN.to_bits(), 0, 0xdead_beef],
            },
        ),
    ]
}

#[test]
fn magic_spells_the_name() {
    assert_eq!(MAGIC.to_be_bytes(), *b"LANC");
    assert_eq!(Envelope::new(3, Payload::Bye { name: "x".into() }).magic, MAGIC);
}

#[test]
fn every_kind_round_trips() {
    for env in all_kinds() {
        let bytes = env.encode();
        assert_eq!(Envelope::decode(&bytes), Some(env));
    }
}

#[test]
fn bytes_behind_the_payload_are_ignored() {
    for env in all_kinds() {
        let mut bytes = env.encode();
        bytes.extend_from_slice(&[1, 2, 3]);
        assert_eq!(Envelope::decode(&bytes), Some(env));
    }
}

#[test]
fn bytes_are_those_of_postcard() {
    let text = Envelope::new(7, Payload::Text { name: "alice".into(), body: "hi".into() });
    let same = postcard::to_allocvec(&(MAGIC, 7u64, 2u32, "alice", "hi")).unwrap();
    assert_eq!(text.encode(), same);

    let pcm = vec![0.25f32, -0.5, f32::MIN_POSITIVE];
    let voice = Envelope::new(
        u64::MAX,
        Payload::Voice {
            name: "v".into(),
            seq: 300,
            pcm: pcm.iter().map(|s| s.to_bits()).collect(),
        },
    );
    let same = postcard::to_allocvec(&(MAGIC, u64::MAX, 4u32, "v", 300u32, pcm)).unwrap();
    assert_eq!(voice.encode(), same);

    let named = Envelope::new(5, Payload::Bye { name: "b".into() });
    let same = postcard::to_allocvec(&(MAGIC, 5u64, 1u32, "b")).unwrap();
    assert_eq!(named.encode(), same);
}

#[test]
fn layout_is_varints_and_length_prefixed_text() {
    let env = Envelope::new(300, Payload::Hello { name: "ab".into() });
    // 0x4c414e43 in groups of seven bits, then 300, then the kind, then "ab".
    assert_eq!(
        env.encode(),
        vec![0xc3, 0x9c, 0x85, 0xe2, 0x04, 0xac, 0x02, 0x00, 0x02, b'a', b'b']
    );
}

#[test]
fn cut_datagrams_are_rejected() {
    for env in all_kinds() {
        let bytes = env.encode();
        for n in 0..bytes.len() {
            assert_eq!(Envelope::decode(&bytes[..n]), None);
        }
    }
}

#[test]
fn other_magic_is_rejected() {
    for mut env in all_kinds() {
        env.magic = MAGIC + 1;
        assert_eq!(Envelope::decode(&env.encode()), None);
    }
}

#[test]
fn unknown_kinds_are_rejected() {
    let bytes = postcard::to_allocvec(&(MAGIC, 1u64, 5u32, "x", "y")).unwrap();
    assert_eq!(Envelope::decode(&bytes), None);
}

#[test]
fn bad_text_and_bad_numbers_are_rejected() {
    // Not UTF-8.
    let mut bytes = postcard::to_allocvec(&(MAGIC, 1u64, 0u32)).unwrap();
    bytes.extend_from_slice(&[1, 0xff]);
    assert_eq!(Envelope::decode(&bytes), None);
    // A magic number of more than 32 bits.
    assert_eq!(Envelope::decode(&[0xff, 0xff, 0xff, 0xff, 0x1f, 0, 0, 0]), None);
    // A length beyond the end.
    let mut bytes = postcard::to_allocvec(&(MAGIC, 1u64, 4u32, "n", 0u32)).unwrap();
    bytes.extend_from_slice(&[0xff, 0xff, 0xff, 0xff, 0xff, 0xff, 0xff, 0xff, 0xff, 0x01]);
    assert_eq!(Envelope::decode(&bytes), None);
    assert_eq!(Envelope::decode(&[]), None);
}

#[test]
fn long_varints_are_accepted_as_postcard_does() {
    // The tag of a greeting, written on two bytes.
    let mut bytes = postcard::to_allocvec(&(MAGIC, 1u64)).unwrap();
    bytes.extend_from_slice(&[0x80, 0x00, 1, b'x']);
    assert_eq!(
        Envelope::decode(&bytes),
        Some(Envelope::new(1, Payload::Hello { name: "x".into() }))
    );
}

#[test]
fn different_envelopes_have_different_bytes() {
    let all = all_kinds();
    for (i, a) in all.iter().enumerate() {
        for (j, b) in all.iter().enumerate() {
            assert_eq!(a.encode() == b.encode(), i == j);
        }
    }
}

#[test]
fn announcements() {
    assert_eq!(hello(4, "a"), Envelope::new(4, Payload::Hello { name: "a".into() }));
    assert_eq!(bye(4, "a"), Envelope::new(4, Payload::Bye { name: "a".into() }));
}

#[test]
fn frames_are_numbered() {
    let mut mic = MicOut::new(9);
    for n in 0..3u32 {
        let env = mic.frame("m", vec![n]);
        assert_eq!(
            env,
            Envelope::new(9, Payload::Voice { name: "m".into(), seq: n, pcm: vec![n] })
        );
    }
}
