use lan_chat::audio::{
    channel_groups, cue_tones, fan_out, tone_len, Cue, Framer, Mixer, Tone, FRAME_SAMPLES,
    IDLE_LIMIT, UNIT_GAIN,
};
use lan_chat::protocol::SAMPLE_RATE;

#[test]
fn frame_is_twenty_milliseconds() {
    assert_eq!(FRAME_SAMPLES, SAMPLE_RATE as usize / 50);
    assert_eq!(UNIT_GAIN, 1.0f32.to_bits());
}

#[test]
fn channels_are_grouped_and_the_last_group_may_be_short() {
    assert_eq!(channel_groups(&[1, 2, 3, 4, 5], 2), vec![vec![1, 2], vec![3, 4], vec![5]]);
    assert_eq!(channel_groups(&[1, 2], 0), vec![vec![1], vec![2]]);
    assert_eq!(channel_groups(&[1, 2], 1), vec![vec![1], vec![2]]);
    assert_eq!(channel_groups(&[], 2), Vec::<Vec<u32>>::new());
}

#[test]
fn every_channel_gets_the_value_of_its_frame() {
    assert_eq!(fan_out(&vec![7, 8], 4, 2), vec![7, 7, 8, 8]);
    assert_eq!(fan_out(&vec![7, 8], 3, 2), vec![7, 7, 8]);
    assert_eq!(fan_out(&vec![7, 8], 2, 0), vec![7, 8]);
    assert_eq!(fan_out(&vec![], 0, 2), Vec::<u32>::new());
}

#[test]
fn framer_keeps_what_does_not_fill_a_frame() {
    let stream: Vec<u32> = (0..2500).collect();
    let mut framer = Framer::new(44_100, 2);
    assert_eq!(framer.dev_rate(), 44_100);
    assert_eq!(framer.push(&stream[..959]).len(), 0);
    let one = framer.push(&stream[959..960]);
    assert_eq!(one, vec![stream[..960].to_vec()]);
    let rest = framer.push(&stream[960..]);
    assert_eq!(rest, vec![stream[960..1920].to_vec()]);
    // 580 samples wait; 380 more complete the third frame.
    let last = framer.push(&vec![0; 380]);
    assert_eq!(last.len(), 1);
    assert_eq!(last[0][..580], stream[1920..]);
}

#[test]
fn callback_size_does_not_matter() {
    let stream: Vec<u32> = (0..5000).collect();
    let mut whole = Framer::new(48_000, 1);
    let at_once = whole.push(&stream);
    let mut cut = Framer::new(48_000, 1);
    let mut pieces = Vec::new();
    for piece in stream.chunks(37) {
        pieces.extend(cut.push(piece));
    }
    assert_eq!(at_once, pieces);
    assert_eq!(at_once.len(), 5);
}

#[test]
fn mono_groups_follow_the_device() {
    let framer = Framer::new(48_000, 3);
    assert_eq!(framer.mono_groups(&[1, 2, 3, 4, 5, 6]), vec![vec![1, 2, 3], vec![4, 5, 6]]);
}

#[test]
fn each_speaker_adds_one_sample_per_frame() {
    let mut mixer = Mixer::new(48_000);
    mixer.push_frame(1, &vec![10, 11], 5);
    mixer.push_frame(2, &vec![20], 6);
    mixer.push_sfx(&vec![90, 91, 92, 93]);
    assert_eq!(mixer.active_sources(), 2);
    assert_eq!(mixer.gain(1), 5);
    assert_eq!(mixer.gain(2), 6);
    assert_eq!(mixer.gain(3), UNIT_GAIN);

    let mix = mixer.render(6, 2);
    assert_eq!(mix.len(), 3);
    assert_eq!(mix[0].voices, vec![10, 20]);
    assert_eq!(mix[1].voices, vec![11]);
    assert_eq!(mix[2].voices, Vec::<u32>::new());
    assert_eq!(mix[0].cue, Some(90));
    assert_eq!(mix[2].cue, Some(92));
    assert_eq!(mixer.active_sources(), 0);

    let rest = mixer.render(2, 1);
    assert_eq!(rest[0].cue, Some(93));
    assert_eq!(rest[1].cue, None);
}

#[test]
fn partial_frames_are_rendered_too() {
    let mut mixer = Mixer::new(48_000);
    mixer.push_frame(1, &vec![1, 2, 3], UNIT_GAIN);
    assert_eq!(mixer.render(3, 2).len(), 2);
    assert_eq!(mixer.render(0, 2).len(), 0);
    assert_eq!(mixer.render(2, 0).len(), 2);
}

#[test]
fn a_second_behind_resyncs() {
    let mut mixer = Mixer::new(3);
    mixer.push_frame(1, &vec![1, 2, 3], UNIT_GAIN);
    mixer.push_frame(1, &vec![4], UNIT_GAIN);
    // Four samples are more than a second at this rate.
    mixer.push_frame(1, &vec![5], UNIT_GAIN);
    let mix = mixer.render(2, 1);
    assert_eq!(mix[0].voices, vec![5]);
    assert_eq!(mix[1].voices, Vec::<u32>::new());
}

#[test]
fn gain_survives_gaps_until_the_limit() {
    let mut mixer = Mixer::new(48_000);
    mixer.push_frame(1, &vec![1], 77);
    mixer.render(1, 1);
    for _ in 0..IDLE_LIMIT - 1 {
        mixer.render(1, 1);
    }
    assert_eq!(mixer.gain(1), 77);
    mixer.render(1, 1);
    assert_eq!(mixer.gain(1), UNIT_GAIN);
}

#[test]
fn silence_is_counted_while_others_speak() {
    let mut mixer = Mixer::new(48_000);
    mixer.push_frame(1, &vec![1], 77);
    mixer.render(1, 1);
    for k in 0..IDLE_LIMIT - 1 {
        mixer.push_frame(2, &vec![k, k], 5);
        mixer.render(k as usize % 5, 2);
    }
    assert_eq!(mixer.gain(1), 77);
    mixer.push_frame(3, &vec![9], 6);
    assert_eq!(mixer.gain(1), 77);
    mixer.render(7, 1);
    assert_eq!(mixer.gain(1), UNIT_GAIN);
    assert_eq!(mixer.gain(2), 5);
}

#[test]
fn speaking_starts_the_count_over() {
    let mut mixer = Mixer::new(48_000);
    mixer.push_frame(1, &vec![1], 77);
    for _ in 0..IDLE_LIMIT {
        mixer.render(1, 1);
    }
    mixer.push_frame(1, &vec![2], 78);
    for _ in 0..IDLE_LIMIT {
        mixer.render(1, 1);
    }
    assert_eq!(mixer.gain(1), 78);
}

#[test]
fn an_empty_frame_leaves_the_gain() {
    let mut mixer = Mixer::new(48_000);
    mixer.push_frame(1, &vec![1], 77);
    mixer.push_frame(1, &vec![], 5);
    assert_eq!(mixer.gain(1), 77);
    assert_eq!(mixer.active_sources(), 1);
}

#[test]
fn cues_rise_on_join_and_fall_on_leave() {
    assert_eq!(cue_tones(Cue::Join), vec![Tone { hz: 660, ms: 90 }, Tone { hz: 880, ms: 120 }]);
    assert_eq!(cue_tones(Cue::Leave), vec![Tone { hz: 660, ms: 90 }, Tone { hz: 440, ms: 120 }]);
    assert_eq!(cue_tones(Cue::Message), vec![Tone { hz: 740, ms: 80 }]);
    assert_eq!(tone_len(Tone { hz: 660, ms: 90 }, 48_000), 4320);
    assert_eq!(tone_len(Tone { hz: 1, ms: u32::MAX }, u32::MAX), 18446744065119617);
}
