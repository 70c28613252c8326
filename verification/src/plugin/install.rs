//! Install-side naming: the label of a plugin's independent window, and the
//! window mode kept when a plugin is updated in place.
use vstd::prelude::*;
use crate::text::{chars_of, str_eq, string_from_chars};
use crate::plugin::resolve::Shapes;

verus! {

/// `s` with every `.` replaced by `_`.
pub open spec fn dots_to_underscores(s: Seq<char>) -> Seq<char> {
    s.map_values(|c: char| if c == '.' { '_' } else { c })
}

/// The label of a plugin's independent window: `plugin-` and the id with
/// dots turned into underscores (window labels may not hold dots).
pub fn plugin_window_label(plugin_id: &str) -> (r: String)
    ensures
        r@ == "plugin-"@ + dots_to_underscores(plugin_id@),
{
    let v = chars_of(plugin_id);
    let n = v.len();
    let mut out: Vec<char> = Vec::new();
    for i in 0..n
        invariant
            n == v@.len(),
            v@ == plugin_id@,
            out@ == dots_to_underscores(v@.take(i as int)),
    {
        let c = if v[i] == '.' { '_' } else { v[i] };
        out.push(c);
        assert(dots_to_underscores(v@.take(i + 1)) =~= dots_to_underscores(v@.take(i as int)).push(c));
    }
    assert(v@.take(n as int) =~= v@);
    let tail = string_from_chars(out.as_slice());
    crate::text::concat2("plugin-", tail.as_str())
}

/// On an in-place update the stored window mode stays when the new manifest
/// still supports it; otherwise the newly planned mode applies.
pub fn kept_window_mode(current_mode: String, supported: &Shapes, planned_mode: String) -> (r: String)
    ensures
        r@ == if (current_mode@ == "embedded"@ && supported.embedded is Some)
            || (current_mode@ == "independent"@ && supported.independent is Some)
            || (current_mode@ == "headless"@ && supported.headless) {
            current_mode@
        } else {
            planned_mode@
        },
{
    proof {
        reveal_strlit("embedded");
        reveal_strlit("independent");
        reveal_strlit("headless");
        assert("embedded"@[0] == 'e' && "independent"@[0] == 'i' && "headless"@[0] == 'h');
    }
    let keep = if str_eq(current_mode.as_str(), "embedded") {
        supported.embedded.is_some()
    } else if str_eq(current_mode.as_str(), "independent") {
        supported.independent.is_some()
    } else if str_eq(current_mode.as_str(), "headless") {
        supported.headless
    } else {
        false
    };
    if keep { current_mode } else { planned_mode }
}

/// What installing a plugin does with an existing row: a fresh install
/// inserts, an update replaces it, and installing an already installed plugin
/// without the update flag is refused.
#[derive(Debug, Clone, Copy, PartialEq, Eq, Structural)]
pub enum InstallAction {
    Insert,
    Replace,
}

/// Decides on the plugin row from how many rows carry its id.
pub fn install_action(plugin_id: &str, existing_rows: i64, allow_update: bool) -> (r: Result<InstallAction, String>)
    ensures
        existing_rows <= 0 ==> r == Ok::<InstallAction, String>(InstallAction::Insert),
        existing_rows > 0 && allow_update ==> r == Ok::<InstallAction, String>(InstallAction::Replace),
        existing_rows > 0 && !allow_update ==> (r matches Err(e)
            && e@ == "插件已安装，请先卸载 / plugin already installed: "@ + plugin_id@),
{
    if existing_rows > 0 && !allow_update {
        Err(crate::text::concat2("插件已安装，请先卸载 / plugin already installed: ", plugin_id))
    } else if existing_rows > 0 {
        Ok(InstallAction::Replace)
    } else {
        Ok(InstallAction::Insert)
    }
}

} // verus!
