//! Visual identity: a quiet "network console".
//!
//! Near-black cool surfaces, hairline borders, monospace section labels, and a
//! single signal-teal accent that is only ever spent on *live* state (your own
//! identity, a speaking peer, an active mic, a focused input). Everything else
//! stays greyscale, so the accent always means "something is happening".
//!
//! Colours are written `0xRRGGBB`.

use crate::levels::FULL_LEVEL;
use crate::text::{ascii_uppered, to_upper, upper};
use vstd::prelude::*;
use vstd::string::*;
use vstd::utf8::is_ascii_chars;

verus! {

// ---- tokens -----------------------------------------------------------------

/// App background (the space behind cards).
pub const BG: u32 = 0x0e1116;
/// Card / raised surface.
pub const SURFACE: u32 = 0x161b22;
/// Hovered / faint surface.
pub const SURFACE_HOVER: u32 = 0x1f2630;
/// Input wells (darker than the app background).
pub const WELL: u32 = 0x0a0d11;
/// Hairline borders.
pub const BORDER: u32 = 0x2a313b;
/// Primary text.
pub const TEXT: u32 = 0xd6dbe1;
/// Secondary / label text.
pub const MUTED: u32 = 0x7a8794;
/// The one accent: signal teal, reserved for live state.
pub const ACCENT: u32 = 0x2dd4bf;
/// Ink used on top of the accent fill.
pub const ON_ACCENT: u32 = 0x061412;
/// Other people's names (a calm, distinct steel tone).
pub const PEER_NAME: u32 = 0x8fa3b8;
/// Button face.
pub const BTN: u32 = 0x212833;
/// Hovered button face.
pub const BTN_HOVER: u32 = 0x2c3644;
/// Pressed button face.
pub const BTN_ACTIVE: u32 = 0x344050;
/// Border of a hovered button.
pub const STROKE_HOVER: u32 = 0x445364;
/// Text of a hovered button.
pub const TEXT_BRIGHT: u32 = 0xeef2f6;
/// A hot level.
pub const HOT: u32 = 0xf5c211;
/// A level near clipping, or an error.
pub const ALARM: u32 = 0xff6b6b;

/// Corner radius of a card.
pub const RADIUS: u8 = 10;
/// Inner padding of a card, unless another is asked for.
pub const CARD_PADDING: i8 = 14;

// ---- level meter ------------------------------------------------------------

/// The bit pattern of 0.001: at or below that level a meter is empty.
pub const METER_MIN: u32 = 0x3a83_126f;
/// The bit pattern of 0.7: above that level a meter is hot.
pub const METER_HOT: u32 = 0x3f33_3333;
/// The bit pattern of 0.9: above that level a meter is near clipping.
pub const METER_CLIP: u32 = 0x3f66_6666;

/// The fill of a level meter at a level.
pub open spec fn meter_fill(level: u32) -> Option<u32> {
    if level <= METER_MIN {
        None
    } else if level <= METER_HOT {
        Some(ACCENT)
    } else if level <= METER_CLIP {
        Some(HOT)
    } else {
        Some(ALARM)
    }
}

/// The fill of a level meter: teal while nominal, amber when hot, red near clip,
/// none when there is nothing to show. The level is the bit pattern of a float
/// between 0 and 1; such floats compare as their bit patterns do.
pub fn meter_color(level: u32) -> (r: Option<u32>)
    requires
        level <= FULL_LEVEL,
    ensures
        r == meter_fill(level),
{
    if level <= METER_MIN {
        None
    } else if level > METER_CLIP {
        Some(ALARM)
    } else if level > METER_HOT {
        Some(HOT)
    } else {
        Some(ACCENT)
    }
}

// ---- section label ----------------------------------------------------------

/// A text with a thin space behind every character.
pub open spec fn tracked_out(s: Seq<char>) -> Seq<char> {
    Seq::new(
        2 * s.len(),
        |i: int|
            if i % 2 == 0 {
                s[i / 2]
            } else {
                '\u{2009}'
            },
    )
}

/// Fakes letter spacing by thin spaces between the characters.
pub fn letter_space(s: &str) -> (r: String)
    ensures
        r@ == tracked_out(s@),
{
    let n = s.unicode_len();
    let mut r = String::new();
    let mut i: usize = 0;
    assert(tracked_out(s@.take(0)) =~= Seq::<char>::empty());
    while i < n
        invariant
            i <= n,
            n == s@.len(),
            r@ == tracked_out(s@.take(i as int)),
        decreases n - i,
    {
        proof {
            reveal_strlit("\u{2009}");
        }
        r.append(s.substring_char(i, i + 1));
        r.append("\u{2009}");
        assert(r@ =~= tracked_out(s@.take(i + 1)));
        i += 1;
    }
    assert(s@.take(i as int) =~= s@);
    r
}

/// The text of a section label: upper case, letter-spaced.
pub fn eyebrow_text(text: &str) -> (r: String)
    ensures
        r@ == tracked_out(upper(text@)),
        is_ascii_chars(text@) ==> r@ == tracked_out(ascii_uppered(text@)),
{
    letter_space(to_upper(text).as_str())
}

// ---- Container --------------------------------------------------------------

/// A card: raised surface, hairline border, rounded corners, comfortable
/// padding, and an optional console-style section label.
pub struct Container<'a> {
    title: Option<&'a str>,
    accent: bool,
    padding: Option<i8>,
}

/// The colour of a card's border.
pub open spec fn border_of(accented: bool) -> u32 {
    if accented {
        ACCENT
    } else {
        BORDER
    }
}

/// The inner padding of a card, if one is asked for and if not.
pub open spec fn padding_of(asked: Option<i8>) -> i8 {
    match asked {
        Some(p) => p,
        None => CARD_PADDING,
    }
}

impl<'a> Container<'a> {
    pub closed spec fn label(&self) -> Option<&'a str> {
        self.title
    }

    pub closed spec fn is_accented(&self) -> bool {
        self.accent
    }

    pub closed spec fn own_padding(&self) -> Option<i8> {
        self.padding
    }

    pub fn new() -> (r: Self)
        ensures
            r.label() is None,
            !r.is_accented(),
            r.own_padding() is None,
    {
        Container { title: None, accent: false, padding: None }
    }

    /// A card with a section label at the top.
    pub fn titled(title: &'a str) -> (r: Self)
        ensures
            r.label() == Some(title),
            !r.is_accented(),
            r.own_padding() is None,
    {
        Container { title: Some(title), accent: false, padding: None }
    }

    /// Draw the border in the accent colour to signal "live" / focused.
    pub fn accent(self, on: bool) -> (r: Self)
        ensures
            r.label() == self.label(),
            r.is_accented() == on,
            r.own_padding() == self.own_padding(),
    {
        Container { title: self.title, accent: on, padding: self.padding }
    }

    /// Override the inner padding.
    pub fn padding(self, p: i8) -> (r: Self)
        ensures
            r.label() == self.label(),
            r.is_accented() == self.is_accented(),
            r.own_padding() == Some(p),
    {
        Container { title: self.title, accent: self.accent, padding: Some(p) }
    }

    /// The colour of the border: the accent on a live card only.
    pub fn border(&self) -> (r: u32)
        ensures
            r == border_of(self.is_accented()),
    {
        if self.accent {
            ACCENT
        } else {
            BORDER
        }
    }

    /// The inner padding.
    pub fn inner_padding(&self) -> (r: i8)
        ensures
            r == padding_of(self.own_padding()),
    {
        match self.padding {
            Some(p) => p,
            None => CARD_PADDING,
        }
    }

    /// The text of the section label, if the card has one.
    pub fn eyebrow(&self) -> (r: Option<String>)
        ensures
            match self.label() {
                Some(title) => {
                    &&& r is Some
                    &&& r->0@ == tracked_out(upper(title@))
                    &&& is_ascii_chars(title@) ==> r->0@ == tracked_out(ascii_uppered(title@))
                },
                None => r is None,
            },
    {
        match self.title {
            Some(title) => Some(eyebrow_text(title)),
            None => None,
        }
    }
}

impl<'a> Default for Container<'a> {
    fn default() -> (r: Self)
        ensures
            r.label() is None,
            !r.is_accented(),
            r.own_padding() is None,
    {
        Container::new()
    }
}

// ---- laws -------------------------------------------------------------------

/// A meter is empty up to 0.001, teal up to 0.7, amber up to 0.9 and red above
/// (the bounds are the bit patterns of these floats), so that a louder level
/// never looks like a quieter one.
pub proof fn meters_warn_of_loud_levels(level: u32)
    ensures
        level <= 0x3a83_126f ==> meter_fill(level) is None,
        0x3a83_126f < level <= 0x3f33_3333 ==> meter_fill(level) == Some(0x2dd4bfu32),
        0x3f33_3333 < level <= 0x3f66_6666 ==> meter_fill(level) == Some(0xf5c211u32),
        0x3f66_6666 < level ==> meter_fill(level) == Some(0xff6b6bu32),
{
}

/// Letter spacing keeps every character in its order and puts a thin space, and
/// nothing else, behind each.
pub proof fn letter_spacing_keeps_the_text(s: Seq<char>, c: char, i: int)
    ensures
        tracked_out(Seq::empty()).len() == 0,
        tracked_out(s.push(c)) == tracked_out(s).push(c).push('\u{2009}'),
        tracked_out(s).len() == 2 * s.len(),
        0 <= i < s.len() ==> tracked_out(s)[2 * i] == s[i] && tracked_out(s)[2 * i + 1]
            == '\u{2009}',
{
    assert(tracked_out(s.push(c)) =~= tracked_out(s).push(c).push('\u{2009}'));
}

/// A card has the accent's border exactly if it is accented, and the padding that
/// was asked for, or 14.
pub proof fn cards_look_as_asked(accented: bool, p: i8)
    ensures
        accented ==> border_of(accented) == 0x2dd4bf,
        !accented ==> border_of(accented) == 0x2a313b,
        padding_of(Some(p)) == p,
        padding_of(None) == 14,
{
}

} // verus!
