//! Color capability of the output terminal, and the escape codes of the colors used.
use vstd::prelude::*;
use vstd::string::StringSliceAdditionalSpecFns;
use crate::literal_laws::is_substring;
use crate::fragments::lower_bytes;
use crate::fragments::ascii_lower;

verus! {

/// Color capability of the output stream.
#[derive(Clone, Copy, PartialEq, Eq, Debug, Structural)]
pub enum ColorSupport {
    /// No colors.
    NoColor,
    /// 16-color ANSI.
    Basic,
    /// 256-color palette.
    Ansi256,
    /// 24-bit RGB.
    TrueColor,
}

/// The colors the output uses.
#[derive(Clone, Copy, PartialEq, Eq, Debug, Structural)]
pub enum Color {
    /// Bold red: matches.
    Red,
    /// Sage: file paths.
    Green,
    /// Slate teal: line numbers.
    Cyan,
    /// Slate blue: the device and filesystem line.
    Blue,
}

pub const COLOR_RESET: &'static str = "\x1b[0m";
pub const BOLD: &'static str = "\x1b[1m";

/// The capability given whether ANSI coloring is enabled at all and the `COLORTERM` and
/// `TERM` variables (`None` when unset): none when coloring is off; true color when
/// `COLORTERM` is `truecolor` or `24bit` in any ASCII case; 256 colors when `TERM`
/// contains `256color`; none for the `dumb` terminal; basic otherwise.
pub open spec fn color_support_spec(ansi: bool, colorterm: Option<Seq<u8>>, term: Option<Seq<u8>>) -> ColorSupport {
    if !ansi {
        ColorSupport::NoColor
    } else if colorterm matches Some(c) && (lower_bytes(c) == "truecolor".spec_bytes() || lower_bytes(c)
        == "24bit".spec_bytes()) {
        ColorSupport::TrueColor
    } else if term matches Some(t) && is_substring("256color".spec_bytes(), t) {
        ColorSupport::Ansi256
    } else if term matches Some(t) && t == "dumb".spec_bytes() {
        ColorSupport::NoColor
    } else {
        ColorSupport::Basic
    }
}

/// Do the ASCII-lowercased bytes of `a` equal `b`?
fn lower_equals(a: &[u8], b: &[u8]) -> (r: bool)
    ensures
        r == (lower_bytes(a@) == b@),
{
    if a.len() != b.len() {
        return false;
    }
    let mut i: usize = 0;
    while i < a.len()
        invariant
            a@.len() == b@.len(),
            i <= a@.len(),
            forall|k: int| 0 <= k < i ==> lower_bytes(a@)[k] == b@[k],
        decreases a@.len() - i,
    {
        if ascii_lower(a[i]) != b[i] {
            assert(lower_bytes(a@)[i as int] != b@[i as int]);
            return false;
        }
        i = i + 1;
    }
    assert(lower_bytes(a@) =~= b@);
    true
}

/// Do the bytes of `a` equal `b`?
fn bytes_eq(a: &[u8], b: &[u8]) -> (r: bool)
    ensures
        r == (a@ == b@),
{
    if a.len() != b.len() {
        return false;
    }
    let mut i: usize = 0;
    while i < a.len()
        invariant
            a@.len() == b@.len(),
            i <= a@.len(),
            forall|k: int| 0 <= k < i ==> a@[k] == b@[k],
        decreases a@.len() - i,
    {
        if a[i] != b[i] {
            return false;
        }
        i = i + 1;
    }
    assert(a@ =~= b@);
    true
}

/// Does `needle` occur in `hay`?
fn contains_bytes(hay: &[u8], needle: &[u8]) -> (r: bool)
    ensures
        r == is_substring(needle@, hay@),
{
    let hn = hay.len();
    let nn = needle.len();
    if nn > hn {
        return false;
    }
    let last = hn - nn;
    let mut i: usize = 0;
    while i <= last
        invariant
            hn == hay@.len(),
            nn == needle@.len(),
            last == hn - nn,
            i <= last + 1,
            forall|k: int| 0 <= k < i ==> #[trigger] hay@.subrange(k, k + nn) != needle@,
        decreases last + 1 - i,
    {
        let mut j: usize = 0;
        let mut same = true;
        while j < nn
            invariant
                hn == hay@.len(),
                nn == needle@.len(),
                i + nn <= hn,
                j <= nn,
                same <==> forall|k: int| 0 <= k < j ==> hay@[i + k] == needle@[k],
            decreases nn - j,
        {
            if hay[i + j] != needle[j] {
                same = false;
            }
            j = j + 1;
        }
        if same {
            assert(hay@.subrange(i as int, i + nn) =~= needle@);
            return true;
        }
        proof {
            let k = choose|k: int| 0 <= k < nn && hay@[i + k] != needle@[k];
            assert(hay@.subrange(i as int, i + nn)[k] != needle@[k]);
        }
        i = i + 1;
    }
    false
}

/// The color capability (see `color_support_spec`), from whether ANSI coloring is
/// enabled and the values of `COLORTERM` and `TERM`.
pub fn detect_color_support(ansi: bool, colorterm: Option<&str>, term: Option<&str>) -> (r: ColorSupport)
    ensures
        r == color_support_spec(
            ansi,
            match colorterm {
                Some(c) => Some(c.spec_bytes()),
                None => None,
            },
            match term {
                Some(t) => Some(t.spec_bytes()),
                None => None,
            },
        ),
{
    if !ansi {
        return ColorSupport::NoColor;
    }
    match colorterm {
        Some(c) => {
            let c = c.as_bytes();
            if lower_equals(c, "truecolor".as_bytes()) || lower_equals(c, "24bit".as_bytes()) {
                return ColorSupport::TrueColor;
            }
        },
        None => {},
    }
    match term {
        Some(t) => {
            let t = t.as_bytes();
            if contains_bytes(t, "256color".as_bytes()) {
                return ColorSupport::Ansi256;
            }
            if bytes_eq(t, "dumb".as_bytes()) {
                return ColorSupport::NoColor;
            }
        },
        None => {},
    }
    ColorSupport::Basic
}

/// The escape code that starts `color` at a given capability: none without colors, the
/// 24-bit, 256-palette or basic ANSI form otherwise.
pub open spec fn code_spec(color: Color, support: ColorSupport) -> &'static str {
    match support {
        ColorSupport::NoColor => "",
        ColorSupport::TrueColor => match color {
            Color::Red => "\x1b[38;2;255;0;0m",
            Color::Green => "\x1b[38;2;100;180;140m",
            Color::Cyan => "\x1b[38;2;122;168;184m",
            Color::Blue => "\x1b[38;2;110;135;185m",
        },
        ColorSupport::Ansi256 => match color {
            Color::Red => "\x1b[38;5;196m",
            Color::Green => "\x1b[38;5;108m",
            Color::Cyan => "\x1b[38;5;109m",
            Color::Blue => "\x1b[38;5;67m",
        },
        ColorSupport::Basic => match color {
            Color::Red => "\x1b[1;31m",
            Color::Green => "\x1b[1;32m",
            Color::Cyan => "\x1b[1;36m",
            Color::Blue => "\x1b[1;34m",
        },
    }
}

/// The escape code that starts `color` at the given capability.
pub fn code(color: Color, support: ColorSupport) -> (r: &'static str)
    ensures
        r == code_spec(color, support),
{
    match support {
        ColorSupport::NoColor => "",
        ColorSupport::TrueColor => match color {
            Color::Red => "\x1b[38;2;255;0;0m",
            Color::Green => "\x1b[38;2;100;180;140m",
            Color::Cyan => "\x1b[38;2;122;168;184m",
            Color::Blue => "\x1b[38;2;110;135;185m",
        },
        ColorSupport::Ansi256 => match color {
            Color::Red => "\x1b[38;5;196m",
            Color::Green => "\x1b[38;5;108m",
            Color::Cyan => "\x1b[38;5;109m",
            Color::Blue => "\x1b[38;5;67m",
        },
        ColorSupport::Basic => match color {
            Color::Red => "\x1b[1;31m",
            Color::Green => "\x1b[1;32m",
            Color::Cyan => "\x1b[1;36m",
            Color::Blue => "\x1b[1;34m",
        },
    }
}

/// With coloring on and `COLORTERM` not announcing true color, any `TERM` that contains
/// `256color` gets the 256-color palette, whatever comes before or after it
/// (`xterm-256color`, `screen-256color`, `tmux-256color`, ...).
pub proof fn lemma_256color_terms(colorterm: Option<Seq<u8>>, before: Seq<u8>, after: Seq<u8>)
    requires
        colorterm matches Some(c) ==> lower_bytes(c) != "truecolor".spec_bytes() && lower_bytes(c)
            != "24bit".spec_bytes(),
    ensures
        color_support_spec(
            true,
            colorterm,
            Some(before + seq![0x32u8, 0x35u8, 0x36u8, 0x63u8, 0x6fu8, 0x6cu8, 0x6fu8, 0x72u8] + after),
        ) == ColorSupport::Ansi256,
{
    broadcast use vstd::string::is_ascii_spec_bytes;

    reveal_strlit("256color");
    assert(vstd::string::is_ascii("256color"));
    let needle = seq![0x32u8, 0x35u8, 0x36u8, 0x63u8, 0x6fu8, 0x6cu8, 0x6fu8, 0x72u8];
    assert("256color".spec_bytes() =~= needle);
    let t = before + needle + after;
    assert(t.subrange(before.len() as int, before.len() + needle.len() as int) =~= needle);
    assert(is_substring("256color".spec_bytes(), t));
}

} // verus!
