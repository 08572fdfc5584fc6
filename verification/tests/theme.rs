use lan_chat::cards::{
    address_label, line_style, own_row, peer_lines, port_label, voice_button, LineStyle,
};
use lan_chat::chat::ChatLine;
use lan_chat::levels::Levels;
use lan_chat::presence::{upsert_peer, Peers};
use lan_chat::theme::{
    eyebrow_text, letter_space, meter_color, Container, ACCENT, ALARM, BORDER, BTN, CARD_PADDING,
    HOT, MUTED, ON_ACCENT, PEER_NAME, TEXT,
};

#[test]
fn meters_change_colour_with_the_level() {
    let at = |level: f32| meter_color(level.to_bits());
    assert_eq!(at(0.0), None);
    assert_eq!(at(0.001), None);
    assert_eq!(at(0.0011), Some(ACCENT));
    assert_eq!(at(0.7), Some(ACCENT));
    assert_eq!(at(0.71), Some(HOT));
    assert_eq!(at(0.9), Some(HOT));
    assert_eq!(at(0.91), Some(ALARM));
    assert_eq!(at(1.0), Some(ALARM));
}

#[test]
fn labels_are_spaced_capitals() {
    assert_eq!(letter_space("ab"), "a\u{2009}b\u{2009}");
    assert_eq!(letter_space(""), "");
    assert_eq!(eyebrow_text("Peers"), "P\u{2009}E\u{2009}E\u{2009}R\u{2009}S\u{2009}");
    assert_eq!(eyebrow_text("stra\u{df}e"), letter_space("STRASSE"));
}

#[test]
fn cards_are_built() {
    let plain = Container::new();
    assert_eq!(plain.border(), BORDER);
    assert_eq!(plain.inner_padding(), CARD_PADDING);
    assert_eq!(plain.inner_padding(), 14);
    assert_eq!(plain.eyebrow(), None);

    let card = Container::titled("Voice").accent(true).padding(4);
    assert_eq!(card.border(), ACCENT);
    assert_eq!(card.inner_padding(), 4);
    assert_eq!(card.eyebrow(), Some(eyebrow_text("Voice")));
    assert_eq!(card.accent(false).border(), BORDER);
    assert_eq!(Container::default().eyebrow(), None);
}

#[test]
fn the_focused_input_is_accented() {
    for focus in [true, false] {
        let card = Container::new().accent(focus).padding(4);
        assert_eq!(card.border() == ACCENT, focus);
    }
}

#[test]
fn the_own_row_shows_the_microphone() {
    let on = own_row(true, 5);
    assert_eq!((on.tag, on.tag_color, on.level), ("tx", ACCENT, 5));
    let off = own_row(false, 5);
    assert_eq!((off.tag, off.tag_color, off.level), ("you", MUTED, 0));
}

#[test]
fn peers_light_up_while_they_speak() {
    let mut peers = Peers::new();
    upsert_peer(&mut peers, 1, "bob", 0);
    upsert_peer(&mut peers, 2, "alice", 0);
    peers.mark_speaking(2, 0);
    let mut levels = Levels::new();
    levels.raise(2, 77);
    let lines = peer_lines(&peers.rows(1), &levels);
    assert_eq!(lines.len(), 2);
    assert_eq!(lines[0].name, "alice");
    assert_eq!((lines[0].dot, lines[0].live, lines[0].level), (ACCENT, true, 77));
    assert_eq!(lines[1].name, "bob");
    assert_eq!((lines[1].dot, lines[1].live, lines[1].level), (BORDER, false, 0));
}

#[test]
fn the_channel_is_labelled() {
    assert_eq!(address_label("ff12::4c41:4e43"), "[ff12::4c41:4e43]");
    assert_eq!(port_label(45654), "udp/45654");
    assert_eq!(port_label(0), "udp/0");
}

#[test]
fn the_voice_button_asks_for_the_opposite() {
    let on = voice_button(true);
    assert_eq!((on.label, on.text, on.fill, on.wish), ("Transmitting\u{2026}", ON_ACCENT, ACCENT, false));
    let off = voice_button(false);
    assert_eq!((off.label, off.text, off.fill, off.wish), ("Transmit voice", TEXT, BTN, true));
}

#[test]
fn lines_are_drawn_by_author() {
    let line = |who: &str, mine: bool| ChatLine { who: who.into(), body: "x".into(), mine };
    assert_eq!(line_style(&line("*", false)), LineStyle::System);
    assert_eq!(line_style(&line("a", true)), LineStyle::Spoken { color: ACCENT });
    assert_eq!(line_style(&line("a", false)), LineStyle::Spoken { color: PEER_NAME });
}
