//! Terminal colours.
use vstd::prelude::*;
use vstd::string::*;

verus! {

/// The escape sequences of a report; all empty where it is not coloured.
#[derive(Debug)]
pub struct Palette {
    pub warn: &'static str,
    pub error: &'static str,
    pub dim: &'static str,
    pub bold: &'static str,
    pub reset: &'static str,
}

pub struct PaletteView {
    pub warn: Seq<char>,
    pub error: Seq<char>,
    pub dim: Seq<char>,
    pub bold: Seq<char>,
    pub reset: Seq<char>,
}

impl View for Palette {
    type V = PaletteView;

    open spec fn view(&self) -> PaletteView {
        PaletteView {
            warn: self.warn@,
            error: self.error@,
            dim: self.dim@,
            bold: self.bold@,
            reset: self.reset@,
        }
    }
}

/// The escape sequences of a coloured report.
pub open spec fn coloured() -> PaletteView {
    PaletteView {
        warn: "\x1b[33m"@,
        error: "\x1b[31m"@,
        dim: "\x1b[2m"@,
        bold: "\x1b[1m"@,
        reset: "\x1b[0m"@,
    }
}

pub open spec fn plain() -> PaletteView {
    PaletteView { warn: ""@, error: ""@, dim: ""@, bold: ""@, reset: ""@ }
}

/// Whether colours are shown: on a terminal and where they are forced, but never
/// where they are declined.
pub open spec fn shows_colours(
    no_color: bool,
    force_color: bool,
    clicolor_force: bool,
    terminal: bool,
) -> bool {
    !no_color && (force_color || clicolor_force || terminal)
}

impl Palette {
    /// The palette for what the environment says: colours are forbidden by
    /// `NO_COLOR`, else forced by `FORCE_COLOR` or `CLICOLOR_FORCE`, else used
    /// on a terminal.
    pub fn detect(
        no_color: bool,
        force_color: bool,
        clicolor_force: bool,
        terminal: bool,
    ) -> (palette: Palette)
        ensures
            palette@ == if shows_colours(no_color, force_color, clicolor_force, terminal) {
                coloured()
            } else {
                plain()
            },
    {
        if !no_color && (force_color || clicolor_force || terminal) {
            Palette {
                warn: "\x1b[33m",
                error: "\x1b[31m",
                dim: "\x1b[2m",
                bold: "\x1b[1m",
                reset: "\x1b[0m",
            }
        } else {
            Palette { warn: "", error: "", dim: "", bold: "", reset: "" }
        }
    }
}

} // verus!
