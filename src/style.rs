//! Terminal styling of labels: a color for each kind of role, and the calls that
//! put text in color.

use vstd::prelude::*;
use crate::registered_address::{kind_name, AddressRole, RoleView};
use crate::rewrite::contains_text;

verus! {

/// The terminal sequence that clears every style.
pub open spec fn reset_code() -> Seq<char> {
    seq!['\u{1b}', '[', '0', 'm']
}

/// The text holds the reset sequence, which the styling repeats the style after.
pub open spec fn holds_reset(text: Seq<char>) -> bool {
    contains_text(text, reset_code())
}

/// The text between the style sequence made of `codes` and the reset sequence.
pub open spec fn in_style(codes: Seq<char>, text: Seq<char>) -> Seq<char> {
    seq!['\u{1b}', '['] + codes + seq!['m'] + text + reset_code()
}

/// `r` shows `text` in the style made of `codes`: the text alone when the terminal
/// takes no style, else the text in that style.
pub open spec fn styled(r: Seq<char>, codes: Seq<char>, text: Seq<char>) -> bool {
    r == text || r == in_style(codes, text)
}

/// The color names the library uses.
pub open spec fn is_known_color(color: Seq<char>) -> bool {
    ||| color == "bright cyan"@
    ||| color == "bright green"@
    ||| color == "bright yellow"@
    ||| color == "bright magenta"@
    ||| color == "bright blue"@
    ||| color == "bright white"@
    ||| color == "bright red"@
}

/// The terminal code of a foreground color.
pub open spec fn color_code(color: Seq<char>) -> Seq<char> {
    if color == "bright cyan"@ {
        seq!['9', '6']
    } else if color == "bright green"@ {
        seq!['9', '2']
    } else if color == "bright yellow"@ {
        seq!['9', '3']
    } else if color == "bright magenta"@ {
        seq!['9', '5']
    } else if color == "bright blue"@ {
        seq!['9', '4']
    } else if color == "bright white"@ {
        seq!['9', '7']
    } else {
        seq!['9', '1']
    }
}

/// The codes of bold text in a color.
pub open spec fn bold_color_codes(color: Seq<char>) -> Seq<char> {
    seq!['1', ';'] + color_code(color)
}

/// The code of dimmed text.
pub open spec fn dimmed_codes() -> Seq<char> {
    seq!['2']
}

/// The color in which labels of a role are shown.
pub open spec fn role_color(role: RoleView) -> Seq<char> {
    match role {
        RoleView::Wallet => "bright cyan"@,
        RoleView::Mint => "bright green"@,
        RoleView::Ata { .. } => "bright yellow"@,
        RoleView::Pda { .. } => "bright magenta"@,
        RoleView::Program => "bright blue"@,
        RoleView::Custom(_) => "bright white"@,
    }
}

/// The bracketed note shown after a label: the role's kind, the first seed of a
/// derived address, or the name of a custom role.
pub open spec fn role_tag(role: RoleView) -> Seq<char> {
    match role {
        RoleView::Pda { seeds, .. } => "[pda:"@ + (if seeds.len() > 0 {
            seeds[0]
        } else {
            Seq::empty()
        }) + "]"@,
        RoleView::Custom(name) => "["@ + name + "]"@,
        _ => "["@ + kind_name(role) + "]"@,
    }
}

/// Relies on colored (`Colorize::color`, `Colorize::bold` and the `Display` of
/// `ColoredString`): without colors (as the environment decides), the text as it
/// is; with colors, `compute_style`'s sequence "ESC[1;<color code>m", the text, and
/// the reset sequence. The text is kept as it is when it holds no reset sequence.
/// A color name outside the library's own could reach colored's hex parser, which
/// can panic on text that is not ASCII.
#[verifier::external_body]
pub(crate) fn bold_in_color(text: &str, color: &str) -> (r: String)
    requires
        is_known_color(color@),
    ensures
        !holds_reset(text@) ==> styled(r@, bold_color_codes(color@), text@),
{
    colored::Colorize::bold(colored::Colorize::color(text, color)).to_string()
}

/// Relies on colored (`Colorize::color` and the `Display` of `ColoredString`):
/// without colors (as the environment decides), the text as it is; with colors,
/// `compute_style`'s sequence "ESC[<color code>m", the text, and the reset
/// sequence. The text is kept as it is when it holds no reset sequence. A color
/// name outside the library's own could reach colored's hex parser, which can
/// panic on text that is not ASCII.
#[verifier::external_body]
pub(crate) fn in_color(text: &str, color: &str) -> (r: String)
    requires
        is_known_color(color@),
    ensures
        !holds_reset(text@) ==> styled(r@, color_code(color@), text@),
{
    colored::Colorize::color(text, color).to_string()
}

/// Relies on colored (`Colorize::dimmed` and the `Display` of `ColoredString`):
/// without colors (as the environment decides), the text as it is; with colors,
/// `compute_style`'s sequence "ESC[2m", the text, and the reset sequence. The text
/// is kept as it is when it holds no reset sequence.
#[verifier::external_body]
pub(crate) fn dimmed(text: &str) -> (r: String)
    ensures
        !holds_reset(text@) ==> styled(r@, dimmed_codes(), text@),
{
    colored::Colorize::dimmed(text).to_string()
}

impl AddressRole {
    /// The color in which labels of this role are shown.
    pub fn color_name(&self) -> (r: &'static str)
        ensures
            r@ == role_color(self@),
            is_known_color(r@),
    {
        match self {
            AddressRole::Wallet => "bright cyan",
            AddressRole::Mint => "bright green",
            AddressRole::Ata { .. } => "bright yellow",
            AddressRole::Pda { .. } => "bright magenta",
            AddressRole::Program => "bright blue",
            AddressRole::Custom(_) => "bright white",
        }
    }

    /// The bracketed note shown after a label of this role.
    pub fn tag(&self) -> (r: String)
        ensures
            r@ == role_tag(self@),
    {
        match self {
            AddressRole::Pda { seeds, .. } => {
                let s = String::from_str("[pda:");
                let s = if seeds.len() > 0 {
                    s.concat(seeds[0].as_str())
                } else {
                    s
                };
                proof {
                    if seeds@.len() > 0 {
                        assert(seeds.deep_view()[0] == seeds@[0]@);
                    }
                }
                s.concat("]")
            },
            AddressRole::Custom(name) => String::from_str("[").concat(name.as_str()).concat("]"),
            _ => String::from_str("[").concat(self.kind_name()).concat("]"),
        }
    }
}

} // verus!
