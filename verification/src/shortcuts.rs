//! Keyboard shortcut hints and the shortcuts hit in a frame.
use vstd::prelude::*;

verus! {

/// Which shortcuts fired this frame.
pub struct Hits {
    pub new_file: bool,
    pub open: bool,
    pub save: bool,
    pub save_as: bool,
    pub find: bool,
    pub find_next: bool,
    pub find_prev: bool,
    pub escape: bool,
    pub bold: bool,
    pub italic: bool,
    pub link: bool,
    pub toggle_outline: bool,
}

/// The hint text of a shortcut: `⇧⌘K` style on macOS, `Ctrl+Shift+K`
/// style elsewhere.
pub open spec fn spec_hint(mac: bool, shift: bool, key: Seq<char>) -> Seq<char> {
    if mac {
        (if shift { "\u{21e7}"@ } else { ""@ }) + "\u{2318}"@ + key
    } else {
        "Ctrl+"@ + (if shift { "Shift+"@ } else { ""@ }) + key
    }
}

/// Shortcut hint text for a menu item; `mac` selects the macOS form.
pub fn hint(mac: bool, shift: bool, key: &str) -> (r: String)
    ensures
        r@ == spec_hint(mac, shift, key@),
{
    if mac {
        let mut out = if shift { "\u{21e7}".to_owned() } else { "".to_owned() };
        out.append("\u{2318}");
        out.append(key);
        out
    } else {
        let mut out = "Ctrl+".to_owned();
        out.append(if shift { "Shift+" } else { "" });
        out.append(key);
        out
    }
}

} // verus!
