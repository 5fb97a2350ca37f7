//! Theme choice and the highlight colors taken from the catppuccin palette.
use vstd::prelude::*;

verus! {

/// The catppuccin flavors the editor can use.
#[derive(Debug, Clone, Copy, PartialEq, Eq, Structural)]
pub enum ThemeChoice {
    Latte,
    Frappe,
    Macchiato,
    Mocha,
}

impl Default for ThemeChoice {
    fn default() -> (r: Self)
        ensures
            r == ThemeChoice::Mocha,
    {
        ThemeChoice::Mocha
    }
}

/// What `toggle` returns.
pub open spec fn toggle_spec(t: ThemeChoice) -> ThemeChoice {
    match t {
        ThemeChoice::Latte => ThemeChoice::Mocha,
        ThemeChoice::Mocha => ThemeChoice::Latte,
        ThemeChoice::Frappe => ThemeChoice::Macchiato,
        ThemeChoice::Macchiato => ThemeChoice::Frappe,
    }
}

/// What `is_dark` returns: only Latte is a light theme.
pub open spec fn is_dark_spec(t: ThemeChoice) -> bool {
    t != ThemeChoice::Latte
}

impl ThemeChoice {
    /// Only Latte is a light theme.
    pub fn is_dark(&self) -> (r: bool)
        ensures
            r == is_dark_spec(*self),
    {
        !matches!(self, ThemeChoice::Latte)
    }

    pub fn label(&self) -> (r: &'static str)
        ensures
            r@ == match *self {
                ThemeChoice::Latte => "Latte (Light)"@,
                ThemeChoice::Frappe => "Frappe"@,
                ThemeChoice::Macchiato => "Macchiato"@,
                ThemeChoice::Mocha => "Mocha (Dark)"@,
            },
    {
        match self {
            ThemeChoice::Latte => "Latte (Light)",
            ThemeChoice::Frappe => "Frappe",
            ThemeChoice::Macchiato => "Macchiato",
            ThemeChoice::Mocha => "Mocha (Dark)",
        }
    }

    /// The light/dark counterpart: Latte and Mocha swap, Frappe and Macchiato swap.
    pub fn toggle(&self) -> (r: Self)
        ensures
            r == toggle_spec(*self),
    {
        match self {
            ThemeChoice::Latte => ThemeChoice::Mocha,
            ThemeChoice::Mocha => ThemeChoice::Latte,
            ThemeChoice::Frappe => ThemeChoice::Macchiato,
            ThemeChoice::Macchiato => ThemeChoice::Frappe,
        }
    }

    /// All themes, light to dark.
    pub fn all() -> (r: [ThemeChoice; 4])
        ensures
            r@ == seq![
                ThemeChoice::Latte,
                ThemeChoice::Frappe,
                ThemeChoice::Macchiato,
                ThemeChoice::Mocha,
            ],
    {
        let r = [ThemeChoice::Latte, ThemeChoice::Frappe, ThemeChoice::Macchiato, ThemeChoice::Mocha];
        proof {
            assert(r@ =~= seq![
                ThemeChoice::Latte,
                ThemeChoice::Frappe,
                ThemeChoice::Macchiato,
                ThemeChoice::Mocha,
            ]);
        }
        r
    }
}

/// Toggling twice gives the theme back, and a toggle changes between light
/// and dark exactly for Latte and Mocha.
pub proof fn lemma_toggle_involutive(t: ThemeChoice)
    ensures
        toggle_spec(toggle_spec(t)) == t,
        (is_dark_spec(toggle_spec(t)) != is_dark_spec(t)) <==> (t == ThemeChoice::Latte || t
            == ThemeChoice::Mocha),
{
}

/// An RGBA color.
#[derive(Debug, Clone, Copy, PartialEq, Eq, Structural)]
pub struct Rgba {
    pub r: u8,
    pub g: u8,
    pub b: u8,
    pub a: u8,
}

/// An RGB color.
#[derive(Debug, Clone, Copy, PartialEq, Eq, Structural)]
pub struct Rgb {
    pub r: u8,
    pub g: u8,
    pub b: u8,
}

/// The palette colors highlighting uses.
#[derive(Debug, Clone, Copy, PartialEq, Eq, Structural)]
pub struct HighlightPalette {
    pub text: Rgb,
    pub yellow: Rgb,
    pub peach: Rgb,
    pub sapphire: Rgb,
}

/// Colors for highlighting text in the editor.
#[derive(Debug, Clone, Copy, PartialEq, Eq, Structural)]
pub struct HighlightRgba {
    pub default_text: Rgba,
    pub search_bg: Rgba,
    pub active_search_bg: Rgba,
    pub link_color: Rgba,
}

/// The text, yellow, peach and sapphire colors of each catppuccin flavor.
pub open spec fn palette_spec(theme: ThemeChoice) -> HighlightPalette {
    match theme {
        ThemeChoice::Latte => HighlightPalette {
            text: Rgb { r: 76, g: 79, b: 105 },
            yellow: Rgb { r: 223, g: 142, b: 29 },
            peach: Rgb { r: 254, g: 100, b: 11 },
            sapphire: Rgb { r: 32, g: 159, b: 181 },
        },
        ThemeChoice::Frappe => HighlightPalette {
            text: Rgb { r: 198, g: 208, b: 245 },
            yellow: Rgb { r: 229, g: 200, b: 144 },
            peach: Rgb { r: 239, g: 159, b: 118 },
            sapphire: Rgb { r: 133, g: 193, b: 220 },
        },
        ThemeChoice::Macchiato => HighlightPalette {
            text: Rgb { r: 202, g: 211, b: 245 },
            yellow: Rgb { r: 238, g: 212, b: 159 },
            peach: Rgb { r: 245, g: 169, b: 127 },
            sapphire: Rgb { r: 125, g: 196, b: 228 },
        },
        ThemeChoice::Mocha => HighlightPalette {
            text: Rgb { r: 205, g: 214, b: 244 },
            yellow: Rgb { r: 249, g: 226, b: 175 },
            peach: Rgb { r: 250, g: 179, b: 135 },
            sapphire: Rgb { r: 116, g: 199, b: 236 },
        },
    }
}

/// The text, yellow, peach and sapphire colors of `catppuccin::PALETTE.latte`,
/// whose values the crate builds from its `palette.json`.
#[verifier::external_body]
fn latte_palette() -> (r: HighlightPalette)
    ensures
        r == palette_spec(ThemeChoice::Latte),
{
    let c = &catppuccin::PALETTE.latte.colors;
    HighlightPalette {
        text: Rgb { r: c.text.rgb.r, g: c.text.rgb.g, b: c.text.rgb.b },
        yellow: Rgb { r: c.yellow.rgb.r, g: c.yellow.rgb.g, b: c.yellow.rgb.b },
        peach: Rgb { r: c.peach.rgb.r, g: c.peach.rgb.g, b: c.peach.rgb.b },
        sapphire: Rgb { r: c.sapphire.rgb.r, g: c.sapphire.rgb.g, b: c.sapphire.rgb.b },
    }
}

/// The text, yellow, peach and sapphire colors of `catppuccin::PALETTE.frappe`,
/// whose values the crate builds from its `palette.json`.
#[verifier::external_body]
fn frappe_palette() -> (r: HighlightPalette)
    ensures
        r == palette_spec(ThemeChoice::Frappe),
{
    let c = &catppuccin::PALETTE.frappe.colors;
    HighlightPalette {
        text: Rgb { r: c.text.rgb.r, g: c.text.rgb.g, b: c.text.rgb.b },
        yellow: Rgb { r: c.yellow.rgb.r, g: c.yellow.rgb.g, b: c.yellow.rgb.b },
        peach: Rgb { r: c.peach.rgb.r, g: c.peach.rgb.g, b: c.peach.rgb.b },
        sapphire: Rgb { r: c.sapphire.rgb.r, g: c.sapphire.rgb.g, b: c.sapphire.rgb.b },
    }
}

/// The text, yellow, peach and sapphire colors of `catppuccin::PALETTE.macchiato`,
/// whose values the crate builds from its `palette.json`.
#[verifier::external_body]
fn macchiato_palette() -> (r: HighlightPalette)
    ensures
        r == palette_spec(ThemeChoice::Macchiato),
{
    let c = &catppuccin::PALETTE.macchiato.colors;
    HighlightPalette {
        text: Rgb { r: c.text.rgb.r, g: c.text.rgb.g, b: c.text.rgb.b },
        yellow: Rgb { r: c.yellow.rgb.r, g: c.yellow.rgb.g, b: c.yellow.rgb.b },
        peach: Rgb { r: c.peach.rgb.r, g: c.peach.rgb.g, b: c.peach.rgb.b },
        sapphire: Rgb { r: c.sapphire.rgb.r, g: c.sapphire.rgb.g, b: c.sapphire.rgb.b },
    }
}

/// The text, yellow, peach and sapphire colors of `catppuccin::PALETTE.mocha`,
/// whose values the crate builds from its `palette.json`.
#[verifier::external_body]
fn mocha_palette() -> (r: HighlightPalette)
    ensures
        r == palette_spec(ThemeChoice::Mocha),
{
    let c = &catppuccin::PALETTE.mocha.colors;
    HighlightPalette {
        text: Rgb { r: c.text.rgb.r, g: c.text.rgb.g, b: c.text.rgb.b },
        yellow: Rgb { r: c.yellow.rgb.r, g: c.yellow.rgb.g, b: c.yellow.rgb.b },
        peach: Rgb { r: c.peach.rgb.r, g: c.peach.rgb.g, b: c.peach.rgb.b },
        sapphire: Rgb { r: c.sapphire.rgb.r, g: c.sapphire.rgb.g, b: c.sapphire.rgb.b },
    }
}

/// The theme's highlight palette colors.
pub fn theme_palette(theme: ThemeChoice) -> (r: HighlightPalette)
    ensures
        r == palette_spec(theme),
{
    match theme {
        ThemeChoice::Latte => latte_palette(),
        ThemeChoice::Frappe => frappe_palette(),
        ThemeChoice::Macchiato => macchiato_palette(),
        ThemeChoice::Mocha => mocha_palette(),
    }
}

/// An opaque color from an RGB triple.
pub open spec fn opaque(c: Rgb) -> Rgba {
    Rgba { r: c.r, g: c.g, b: c.b, a: 255 }
}

/// Highlight colors from a palette: text and links opaque, yellow at 40%
/// alpha for search matches, peach at 60% for the active match.
pub open spec fn highlight_spec(p: HighlightPalette) -> HighlightRgba {
    HighlightRgba {
        default_text: opaque(p.text),
        search_bg: Rgba { r: p.yellow.r, g: p.yellow.g, b: p.yellow.b, a: 102 },
        active_search_bg: Rgba { r: p.peach.r, g: p.peach.g, b: p.peach.b, a: 153 },
        link_color: opaque(p.sapphire),
    }
}

/// Highlight colors from a palette.
pub fn highlight_from_palette(p: HighlightPalette) -> (r: HighlightRgba)
    ensures
        r == highlight_spec(p),
{
    HighlightRgba {
        default_text: Rgba { r: p.text.r, g: p.text.g, b: p.text.b, a: 255 },
        search_bg: Rgba { r: p.yellow.r, g: p.yellow.g, b: p.yellow.b, a: 102 },
        active_search_bg: Rgba { r: p.peach.r, g: p.peach.g, b: p.peach.b, a: 153 },
        link_color: Rgba { r: p.sapphire.r, g: p.sapphire.g, b: p.sapphire.b, a: 255 },
    }
}

/// Return highlight colors appropriate for the given theme: yellow at 40%
/// alpha for search background, peach at 60% alpha for active search
/// background, sapphire for wiki links.
pub fn highlight_colors(theme: ThemeChoice) -> (r: HighlightRgba)
    ensures
        r == highlight_spec(palette_spec(theme)),
{
    let p = theme_palette(theme);
    highlight_from_palette(p)
}

} // verus!
