//! A message line of the user interface that fades after a while.
use vstd::prelude::*;

verus! {

/// A colour as the interface keeps it: red, green, blue and alpha channels,
/// the colour channels premultiplied by alpha.
#[derive(Clone, Copy, Debug, PartialEq, Eq, Structural)]
pub struct Rgba {
    pub r: u8,
    pub g: u8,
    pub b: u8,
    pub a: u8,
}

/// A channel of at most 10 premultiplied by alpha 80: `v * 80 / 255`
/// rounded to the nearest integer.
pub open spec fn faded_low(v: u8) -> u8 {
    ((v as int * 160 + 255) / 510) as u8
}

/// The colour `egui::Color32::from_rgba_unmultiplied(r, g, b, a)`.
/// Its source keeps the alpha given, turns alpha 0 into the transparent
/// colour and keeps the channels of an opaque colour. For other alphas it
/// premultiplies each channel through a lookup table: a channel of 0 stays
/// 0, and a channel of at most 10 goes through a linear branch of plain
/// `f32` division and multiplication, which at alpha 80 gives `faded_low`.
/// Larger channels go through `f32::powf`, whose precision the standard
/// library leaves to the platform; the contract says nothing of them.
#[verifier::external_body]
fn color_from_unmultiplied(r: u8, g: u8, b: u8, a: u8) -> (c: Rgba)
    ensures
        c.a == a,
        a == 255 ==> c.r == r && c.g == g && c.b == b,
        a == 0 ==> c.r == 0 && c.g == 0 && c.b == 0,
        r == 0 ==> c.r == 0,
        g == 0 ==> c.g == 0,
        b == 0 ==> c.b == 0,
        a == 80 && r <= 10 ==> c.r == faded_low(r),
        a == 80 && g <= 10 ==> c.g == faded_low(g),
        a == 80 && b <= 10 ==> c.b == faded_low(b),
{
    let c = egui::Color32::from_rgba_unmultiplied(r, g, b, a);
    Rgba { r: c.r(), g: c.g(), b: c.b(), a: c.a() }
}

/// White, the colour of a message unless it asks for another.
pub open spec fn white() -> Rgba {
    Rgba { r: 255, g: 255, b: 255, a: 255 }
}

/// A message, its colour, and how long it still shows in microseconds
/// (`None`: for good).
pub struct Notification {
    pub text: String,
    pub color: Rgba,
    timer: Option<u64>,
}

impl Notification {
    /// Microseconds the message still shows, if it has a limit.
    pub closed spec fn spec_timer(&self) -> Option<u64> {
        self.timer
    }

    /// The text of the message.
    pub closed spec fn spec_text(&self) -> Seq<char> {
        self.text@
    }

    /// The colour of the message.
    pub closed spec fn spec_color(&self) -> Rgba {
        self.color
    }

    /// No message, in white, with no time limit.
    pub fn empty() -> (r: Self)
        ensures
            r.spec_text() == Seq::<char>::empty(),
            r.spec_color() == white(),
            r.spec_timer() is None,
    {
        Self { text: String::new(), color: Self::default_color(), timer: None }
    }

    fn default_color() -> (r: Rgba)
        ensures
            r == white(),
    {
        Rgba { r: 255, g: 255, b: 255, a: 255 }
    }

    /// The colour of the message once it has faded: its own colour, made
    /// mostly transparent (alpha 80). Each colour channel of at most 10 is
    /// premultiplied as `faded_low` says (0 stays 0); larger channels are
    /// premultiplied through `f32::powf`, and nothing is said of them.
    pub fn inactive_color(&self) -> (r: Rgba)
        ensures
            r.a == 80,
            self.spec_color().r <= 10 ==> r.r == faded_low(self.spec_color().r),
            self.spec_color().g <= 10 ==> r.g == faded_low(self.spec_color().g),
            self.spec_color().b <= 10 ==> r.b == faded_low(self.spec_color().b),
    {
        let color = self.color;
        color_from_unmultiplied(color.r, color.g, color.b, 80)
    }

    /// Shows `text` for `timer` microseconds (for good if `None`), in
    /// `color`, white if `None`.
    pub fn set(&mut self, text: String, timer: Option<u64>, color: Option<Rgba>) -> (r: &Self)
        ensures
            *r == *final(self),
            final(self).spec_text() == text@,
            final(self).spec_timer() == timer,
            final(self).spec_color() == match color {
                Some(c) => c,
                None => white(),
            },
    {
        self.text = text;
        self.timer = timer;
        self.color = match color {
            Some(c) => c,
            None => Self::default_color(),
        };
        self
    }

    /// Lets `dt` microseconds pass; the time left stops at zero.
    pub fn update_timer(&mut self, dt: u64)
        ensures
            final(self).spec_text() == old(self).spec_text(),
            final(self).spec_color() == old(self).spec_color(),
            final(self).spec_timer() == match old(self).spec_timer() {
                Some(t) => Some(if t > dt { (t - dt) as u64 } else { 0u64 }),
                None => None,
            },
    {
        self.timer = match self.timer {
            Some(t) => Some(t.saturating_sub(dt)),
            None => None,
        };
    }

    /// The message shows: there is one, and its time has not run out.
    pub fn visible(&self) -> (r: bool)
        ensures
            r == (self.spec_text().len() > 0 && match self.spec_timer() {
                Some(t) => t > 0,
                None => true,
            }),
    {
        !self.text.as_str().is_empty() && match self.timer {
            Some(t) => t > 0,
            None => true,
        }
    }
}

} // verus!
