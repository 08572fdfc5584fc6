//! What the cards of the window show.

use crate::chat::{ChatLine, LineView};
use crate::levels::{level_of, Levels};
use crate::presence::{PeerRow, PeerRowView};
use crate::text::{concat2, concat3, decimal, digits, number, numbers_are_read_back, same};
use crate::theme::{border_of, ACCENT, BORDER, BTN, MUTED, ON_ACCENT, PEER_NAME, TEXT};
use vstd::prelude::*;

verus! {

// ---- peers ------------------------------------------------------------------

/// The row of this peer, at the head of the list: a tag next to its name, and
/// the level on its meter.
pub struct OwnRow {
    pub tag: &'static str,
    pub tag_color: u32,
    pub level: u32,
}

pub open spec fn own_tag(mic_on: bool) -> Seq<char> {
    if mic_on {
        "tx"@
    } else {
        "you"@
    }
}

pub open spec fn own_tag_color(mic_on: bool) -> u32 {
    if mic_on {
        ACCENT
    } else {
        MUTED
    }
}

/// The level on our own meter.
pub open spec fn own_level(mic_on: bool, mic_level: u32) -> u32 {
    if mic_on {
        mic_level
    } else {
        0
    }
}

/// The meter only moves while the microphone is on.
pub fn own_row(mic_on: bool, mic_level: u32) -> (r: OwnRow)
    ensures
        r.tag@ == own_tag(mic_on),
        r.tag_color == own_tag_color(mic_on),
        r.level == own_level(mic_on, mic_level),
{
    if mic_on {
        OwnRow { tag: "tx", tag_color: ACCENT, level: mic_level }
    } else {
        OwnRow { tag: "you", tag_color: MUTED, level: 0 }
    }
}

/// The row of another peer: the colour of the dot in front of the name, whether
/// the peer is tagged as live, and the level on its meter.
pub struct PeerLine {
    pub name: String,
    pub dot: u32,
    pub live: bool,
    pub level: u32,
}

#[verifier::ext_equal]
pub struct PeerLineView {
    pub name: Seq<char>,
    pub dot: u32,
    pub live: bool,
    pub level: u32,
}

impl View for PeerLine {
    type V = PeerLineView;

    open spec fn view(&self) -> PeerLineView {
        PeerLineView { name: self.name@, dot: self.dot, live: self.live, level: self.level }
    }
}

pub open spec fn peer_line(row: PeerRowView, levels: Seq<(u64, u32)>) -> PeerLineView {
    PeerLineView {
        name: row.name,
        dot: if row.speaking {
            ACCENT
        } else {
            BORDER
        },
        live: row.speaking,
        level: level_of(levels, row.id),
    }
}

/// The rows of the other peers, in the order of the list.
pub fn peer_lines(rows: &Vec<PeerRow>, levels: &Levels) -> (r: Vec<PeerLine>)
    requires
        levels.wf(),
    ensures
        r@.map_values(|l: PeerLine| l@) == rows@.map_values(
            |row: PeerRow| peer_line(row@, levels.entries()),
        ),
{
    let mut r: Vec<PeerLine> = Vec::new();
    let mut i: usize = 0;
    while i < rows.len()
        invariant
            i <= rows@.len(),
            levels.wf(),
            r@.len() == i,
            forall|j: int|
                0 <= j < i ==> (#[trigger] r@[j])@ == peer_line(rows@[j]@, levels.entries()),
        decreases rows@.len() - i,
    {
        let row = &rows[i];
        let dot: u32 = if row.speaking {
            ACCENT
        } else {
            BORDER
        };
        r.push(
            PeerLine {
                name: row.name.clone(),
                dot,
                live: row.speaking,
                level: levels.level(row.id),
            },
        );
        i += 1;
    }
    assert(r@.map_values(|l: PeerLine| l@) =~= rows@.map_values(
        |row: PeerRow| peer_line(row@, levels.entries()),
    ));
    r
}

// ---- channel ----------------------------------------------------------------

pub open spec fn bracketed(ip: Seq<char>) -> Seq<char> {
    "["@ + ip + "]"@
}

pub open spec fn port_text(port: u16) -> Seq<char> {
    "udp/"@ + digits(port as nat)
}

/// An address as it is shown.
pub fn address_label(ip: &str) -> (r: String)
    ensures
        r@ == bracketed(ip@),
{
    concat3("[", ip, "]")
}

/// A port as it is shown.
pub fn port_label(port: u16) -> (r: String)
    ensures
        r@ == port_text(port),
{
    concat2("udp/", decimal(port as u64).as_str())
}

// ---- voice ------------------------------------------------------------------

/// The button that switches the microphone.
pub struct VoiceButton {
    pub label: &'static str,
    pub text: u32,
    pub fill: u32,
    /// What a click on it asks for.
    pub wish: bool,
}

pub open spec fn voice_label(on: bool) -> Seq<char> {
    if on {
        "Transmitting\u{2026}"@
    } else {
        "Transmit voice"@
    }
}

pub open spec fn voice_fill(on: bool) -> u32 {
    if on {
        ACCENT
    } else {
        BTN
    }
}

pub open spec fn voice_text(on: bool) -> u32 {
    if on {
        ON_ACCENT
    } else {
        TEXT
    }
}

/// What a click on the button asks for.
pub open spec fn voice_wish(on: bool) -> bool {
    !on
}

pub fn voice_button(on: bool) -> (r: VoiceButton)
    ensures
        r.label@ == voice_label(on),
        r.text == voice_text(on),
        r.fill == voice_fill(on),
        r.wish == voice_wish(on),
{
    if on {
        VoiceButton { label: "Transmitting\u{2026}", text: ON_ACCENT, fill: ACCENT, wish: false }
    } else {
        VoiceButton { label: "Transmit voice", text: TEXT, fill: BTN, wish: true }
    }
}

// ---- log --------------------------------------------------------------------

/// How a line of the log is drawn.
#[derive(Debug, Clone, Copy, PartialEq, Eq, Structural)]
pub enum LineStyle {
    /// Its body alone, in italics.
    System,
    /// The name of its author in this colour, and then its body.
    Spoken { color: u32 },
}

pub open spec fn style_of(line: LineView) -> LineStyle {
    if line.who == "*"@ {
        LineStyle::System
    } else if line.mine {
        LineStyle::Spoken { color: ACCENT }
    } else {
        LineStyle::Spoken { color: PEER_NAME }
    }
}

pub fn line_style(line: &ChatLine) -> (r: LineStyle)
    ensures
        r == style_of(line@),
{
    if same(line.who.as_str(), "*") {
        LineStyle::System
    } else if line.mine {
        LineStyle::Spoken { color: ACCENT }
    } else {
        LineStyle::Spoken { color: PEER_NAME }
    }
}

// ---- laws -------------------------------------------------------------------

/// The accent is spent on live state only: an open microphone, a focused input, a
/// speaking peer, and what this peer says itself.
pub proof fn the_accent_means_live(
    mic_on: bool,
    focus: bool,
    row: PeerRowView,
    levels: Seq<(u64, u32)>,
    line: LineView,
)
    ensures
        own_tag_color(mic_on) == ACCENT <==> mic_on,
        voice_fill(mic_on) == ACCENT <==> mic_on,
        border_of(focus) == ACCENT <==> focus,
        peer_line(row, levels).dot == ACCENT <==> row.speaking,
        style_of(line) == (LineStyle::Spoken { color: ACCENT }) <==> line.mine && line.who != "*"@,
{
}

/// A peer's row shows its name, its own level, and whether it speaks.
pub proof fn rows_show_their_peer(row: PeerRowView, levels: Seq<(u64, u32)>)
    ensures
        peer_line(row, levels).name == row.name,
        peer_line(row, levels).level == level_of(levels, row.id),
        peer_line(row, levels).live == row.speaking,
        row.speaking ==> peer_line(row, levels).dot == 0x2dd4bf,
        !row.speaking ==> peer_line(row, levels).dot == 0x2a313b,
{
}

/// Our own row and the button say whether we are heard: the meter is still and
/// the button asks to be heard while we are not, and the other way round.
pub proof fn own_row_and_button_show_the_microphone(level: u32)
    ensures
        own_level(true, level) == level,
        own_level(false, level) == 0,
        own_tag(true) == "tx"@,
        own_tag(false) == "you"@,
        voice_label(true) == "Transmitting\u{2026}"@,
        voice_label(false) == "Transmit voice"@,
        !voice_wish(true),
        voice_wish(false),
        voice_text(true) == 0x061412,
        voice_text(false) == 0xd6dbe1,
{
}

/// An address is shown in brackets and otherwise unchanged, and a port in
/// decimal, from which it can be read back.
pub proof fn labels_show_address_and_port(ip: Seq<char>, port: u16)
    ensures
        bracketed(ip).len() == ip.len() + 2,
        bracketed(ip)[0] == '[',
        bracketed(ip).last() == ']',
        bracketed(ip).subrange(1, ip.len() as int + 1) == ip,
        port_text(port).take(4) == "udp/"@,
        number(port_text(port).skip(4), 0xffff) == Some(port as nat),
{
    reveal_strlit("[");
    reveal_strlit("]");
    reveal_strlit("udp/");
    assert(bracketed(ip).subrange(1, ip.len() as int + 1) =~= ip);
    assert(port_text(port).take(4) =~= "udp/"@);
    assert(port_text(port).skip(4) =~= digits(port as nat));
    numbers_are_read_back(port as nat, 0xffff);
}

/// A line by "*" is drawn as a note; any other shows its author, in the accent if
/// it is ours and in the colour of the others if not.
pub proof fn lines_show_their_author(line: LineView)
    ensures
        line.who == "*"@ <==> style_of(line) == LineStyle::System,
        line.who != "*"@ && line.mine ==> style_of(line) == (LineStyle::Spoken {
            color: 0x2dd4bf,
        }),
        line.who != "*"@ && !line.mine ==> style_of(line) == (LineStyle::Spoken {
            color: 0x8fa3b8,
        }),
{
}

} // verus!
