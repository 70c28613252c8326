//! The tray menu: its labels by interface language, and the language it
//! was built for.
use vstd::prelude::*;
use crate::text::{chars_of, str_eq};

verus! {

/// The language the tray menu currently speaks.
#[derive(Debug, Default)]
pub struct TrayState {
    pub language: String,
}

/// The menu item ids.
pub const ID_PANEL: &'static str = "panel";
pub const ID_SETTINGS: &'static str = "settings";
pub const ID_QUIT: &'static str = "quit";

/// English for languages starting with `en`, Chinese otherwise.
pub open spec fn english(lang: Seq<char>) -> bool {
    lang.len() >= 2 && lang[0] == 'e' && lang[1] == 'n'
}

/// The labels of the panel, settings and quit items.
pub fn menu_labels(lang: &str) -> (r: (&'static str, &'static str, &'static str))
    ensures
        english(lang@) ==> r.0@ == "Show Panel"@ && r.1@ == "Settings"@ && r.2@ == "Quit"@,
        !english(lang@) ==> r.0@ == "主面板"@ && r.1@ == "设置"@ && r.2@ == "退出"@,
{
    let v = chars_of(lang);
    if v.len() >= 2 && v[0] == 'e' && v[1] == 'n' {
        ("Show Panel", "Settings", "Quit")
    } else {
        ("主面板", "设置", "退出")
    }
}

impl TrayState {
    /// Records a new language; whether it differs, so the menu must be
    /// rebuilt.
    pub fn set_language(&mut self, language: String) -> (changed: bool)
        ensures
            final(self).language@ == language@,
            changed == (old(self).language@ != language@),
    {
        if str_eq(self.language.as_str(), language.as_str()) {
            return false;
        }
        self.language = language;
        true
    }
}

} // verus!
