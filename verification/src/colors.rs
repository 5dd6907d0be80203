use vstd::prelude::*;

verus! {

/// A colour of the terminal.
#[derive(Clone, Copy, PartialEq, Eq, Debug, Structural)]
pub enum Color {
    /// The terminal's own colour.
    Reset,
    /// Plain white.
    White,
    /// Entry `n` of the 256-colour palette.
    Indexed(u8),
    /// A colour given by hue, in tenths of a degree, saturation and
    /// lightness, in percent.
    Hsl { hue: u16, saturation: u8, lightness: u8 },
}

/// Hands out colours for new filters: steps through the 256-colour palette,
/// or around the hue circle where the terminal shows true colour.
#[derive(Clone, Copy, PartialEq, Eq, Debug, Structural)]
pub enum ColorSelector {
    /// The palette entry handed out next, less 9.
    Color256 { index: u8 },
    /// The hue handed out next, in tenths of a degree.
    TrueColor { hue: u16 },
}

/// The palette step between colours.
pub const PALETTE_STEP: u8 = 27;

/// The number of palette entries the selector steps through.
pub const PALETTE_SPAN: u8 = 230;

/// The hue step between colours, in tenths of a degree.
pub const HUE_STEP: u16 = 2083;

/// A full turn of the hue circle, in tenths of a degree.
pub const HUE_TURN: u16 = 3600;

impl ColorSelector {
    /// The selector's position lies on its cycle.
    pub open spec fn wf(&self) -> bool {
        match self {
            ColorSelector::Color256 { index } => *index < PALETTE_SPAN,
            ColorSelector::TrueColor { hue } => *hue < HUE_TURN,
        }
    }

    /// The colour handed out next.
    pub open spec fn color_of(&self) -> Color {
        match self {
            ColorSelector::Color256 { index } => Color::Indexed((index + 9) as u8),
            ColorSelector::TrueColor { hue } => Color::Hsl { hue: *hue, saturation: 80, lightness: 50 },
        }
    }

    /// The selector after handing out a colour: the palette index moves on
    /// by the step, wrapping as a byte does, within the span; the hue moves
    /// on by its step around the circle.
    pub open spec fn stepped(&self) -> ColorSelector {
        match self {
            ColorSelector::Color256 { index } => ColorSelector::Color256 {
                index: (((index + PALETTE_STEP) % 256) % (PALETTE_SPAN as int)) as u8,
            },
            ColorSelector::TrueColor { hue } => ColorSelector::TrueColor {
                hue: ((hue + HUE_STEP) % (HUE_TURN as int)) as u16,
            },
        }
    }

    /// A selector for a terminal with true colour, else one with 256
    /// colours.
    pub fn new(has_16m: bool, has_256: bool) -> (r: Self)
        requires
            has_16m || has_256,
        ensures
            r.wf(),
            has_16m ==> r == (ColorSelector::TrueColor { hue: 0 }),
            !has_16m ==> r == (ColorSelector::Color256 { index: 0 }),
    {
        if has_16m {
            ColorSelector::TrueColor { hue: 0 }
        } else {
            ColorSelector::Color256 { index: 0 }
        }
    }

    /// Back to the first colour of the cycle.
    pub fn reset(&mut self)
        ensures
            final(self).wf(),
            *old(self) is Color256 ==> *final(self) == (ColorSelector::Color256 { index: 0 }),
            *old(self) is TrueColor ==> *final(self) == (ColorSelector::TrueColor { hue: 0 }),
    {
        match self {
            ColorSelector::Color256 { index } => *index = 0,
            ColorSelector::TrueColor { hue } => *hue = 0,
        }
    }

    /// The colour handed out next.
    pub fn peek_color(&self) -> (r: Color)
        requires
            self.wf(),
        ensures
            r == self.color_of(),
    {
        match self {
            ColorSelector::Color256 { index } => Color::Indexed(*index + 9),
            ColorSelector::TrueColor { hue } => Color::Hsl { hue: *hue, saturation: 80, lightness: 50 },
        }
    }

    /// Hands out the next colour and moves on.
    pub fn next_color(&mut self) -> (r: Color)
        requires
            old(self).wf(),
        ensures
            r == old(self).color_of(),
            *final(self) == old(self).stepped(),
            final(self).wf(),
    {
        let color = self.peek_color();
        match self {
            ColorSelector::Color256 { index } => {
                *index = index.wrapping_add(PALETTE_STEP) % PALETTE_SPAN;
            },
            ColorSelector::TrueColor { hue } => {
                *hue = (*hue + HUE_STEP) % HUE_TURN;
            },
        }
        color
    }
}

/// A reset selector hands out the colour a new selector of its kind hands
/// out first, and stepping keeps a selector on its cycle.
pub proof fn law_reset_restarts(s: ColorSelector)
    requires
        s.wf(),
    ensures
        s is Color256 ==> (ColorSelector::Color256 { index: 0 }).color_of() == Color::Indexed(9),
        s is TrueColor ==> (ColorSelector::TrueColor { hue: 0 }).color_of() == (Color::Hsl {
            hue: 0,
            saturation: 80,
            lightness: 50,
        }),
        s.stepped().wf(),
        s.stepped() is Color256 == s is Color256,
{
}

} // verus!
