//! Launch decisions: what a launch request does for a plugin's stored mode,
//! which action a headless plugin runs, and which mode switches are allowed.
use vstd::prelude::*;
use crate::json::{json_or_null, json_parse, Json, JsonView, member};
use crate::plugin::install::{dots_to_underscores, plugin_window_label};
use crate::plugin::resolve::{ShapeSource, Shapes, shape_view};
use crate::text::{concat2, concat3, str_eq};

verus! {

// ------------------------------------------------------------------
// The headless default action
// ------------------------------------------------------------------

/// The `name` of an action entry, when it is a string.
pub open spec fn action_name(a: JsonView) -> Option<Seq<char>> {
    match member(a, "name"@) {
        Some(JsonView::Str(s)) => Some(s),
        _ => None,
    }
}

/// The first action name at index `i` or later.
pub open spec fn first_named_from(acts: Seq<JsonView>, i: int) -> Option<Seq<char>>
    decreases acts.len() - i,
{
    if i < 0 || i >= acts.len() {
        None
    } else {
        match action_name(acts[i]) {
            Some(n) => Some(n),
            None => first_named_from(acts, i + 1),
        }
    }
}

/// The `workflow.actions` array of a manifest, when there is one.
pub open spec fn declared_actions(manifest: JsonView) -> Option<Seq<JsonView>> {
    match member(manifest, "workflow"@) {
        Some(w) => match member(w, "actions"@) {
            Some(JsonView::Array(a)) => Some(a),
            _ => None,
        },
        None => None,
    }
}

/// The action a headless launch runs: `run` when an action of that name is
/// declared, else the first named action, else `run`.
pub open spec fn headless_action(manifest: JsonView) -> Seq<char> {
    match declared_actions(manifest) {
        None => "run"@,
        Some(a) => if exists|i: int| 0 <= i < a.len() && #[trigger] action_name(a[i]) == Some("run"@) {
            "run"@
        } else {
            match first_named_from(a, 0) {
                Some(n) => n,
                None => "run"@,
            }
        },
    }
}

/// A stored manifest text as a document: null when it does not parse.
pub open spec fn manifest_or_null(text: Seq<char>) -> JsonView {
    match json_parse(text) {
        Ok(v) => v,
        Err(_) => JsonView::Null,
    }
}

/// Picks the action a headless launch runs from the stored manifest text
/// (text that does not parse declares no action, so `run`).
pub fn pick_headless_action(manifest_json: &str) -> (r: String)
    ensures
        r@ == headless_action(manifest_or_null(manifest_json@)),
{
    let manifest = json_or_null(manifest_json);
    headless_action_of(&manifest)
}

/// Picks the action a headless launch runs from a parsed manifest.
pub fn headless_action_of(manifest: &Json) -> (r: String)
    ensures
        r@ == headless_action(manifest@),
{
    proof {
        reveal_strlit("workflow");
        reveal_strlit("actions");
        reveal_strlit("name");
    }
    let w = match crate::json::get_member(manifest, "workflow") {
        Some(w) => w,
        None => return "run".to_owned(),
    };
    let items = match crate::json::get_member(&w, "actions") {
        Some(Json::Array(items)) => items,
        _ => return "run".to_owned(),
    };
    let ghost a = Json::Array(items)@->Array_0;
    assert(declared_actions(manifest@) == Some(a));
    let n = items.len();
    let mut found = false;
    let mut first: Option<String> = None;
    for i in 0..n
        invariant
            n == items@.len(),
            a.len() == n,
            forall|k: int| 0 <= k < n ==> #[trigger] a[k] == items@[k]@,
            found <==> exists|k: int| 0 <= k < i && #[trigger] action_name(a[k]) == Some("run"@),
            first is None ==> first_named_from(a, 0) == first_named_from(a, i as int),
            first is Some ==> Some(first->0@) == first_named_from(a, 0),
    {
        assert(a[i as int] == items@[i as int]@);
        let named = crate::json::get_member(&items[i], "name");
        match named {
            Some(Json::Str(s)) => {
                assert(action_name(a[i as int]) == Some(s@));
                if str_eq(s.as_str(), "run") {
                    found = true;
                }
                if first.is_none() {
                    first = Some(s);
                }
            },
            _ => {
                assert(action_name(a[i as int]) is None);
            },
        }
    }
    if found {
        return "run".to_owned();
    }
    match first {
        Some(s) => s,
        None => "run".to_owned(),
    }
}

// ------------------------------------------------------------------
// Launching
// ------------------------------------------------------------------

/// What a launch request does.
#[derive(Debug)]
pub enum LaunchPlan {
    /// Show the main window and navigate it to the plugin with this entry.
    Embedded { entry: String },
    /// Focus the window with this label, or create it at this URL with the
    /// parameters of the given declaration.
    Window { label: String, url: String, source: ShapeSource },
    /// Run this action of the plugin's wasm once.
    Headless { action: String },
}

/// A launch plan as plain values.
pub enum LaunchView {
    Embedded(Seq<char>),
    Window(Seq<char>, Seq<char>, ShapeSource),
    Headless(Seq<char>),
}

pub open spec fn launch_view(r: Result<LaunchPlan, String>) -> Result<LaunchView, Seq<char>> {
    match r {
        Ok(LaunchPlan::Embedded { entry }) => Ok(LaunchView::Embedded(entry@)),
        Ok(LaunchPlan::Window { label, url, source }) => Ok(LaunchView::Window(label@, url@, source)),
        Ok(LaunchPlan::Headless { action }) => Ok(LaunchView::Headless(action@)),
        Err(e) => Err(e@),
    }
}

/// The shapes as plain values, or the error that resolving them gave.
pub open spec fn supported_view(s: Result<Shapes, String>) -> Result<(Option<(Seq<char>, ShapeSource)>, Option<(Seq<char>, ShapeSource)>, bool), Seq<char>> {
    match s {
        Ok(sh) => Ok((shape_view(sh.embedded), shape_view(sh.independent), sh.headless)),
        Err(e) => Err(e@),
    }
}

/// The URL of a plugin's independent window: the shell route with the entry
/// as a query parameter.
pub open spec fn window_url(plugin_id: Seq<char>, entry: Seq<char>) -> Seq<char> {
    "/plugin-window/"@ + plugin_id + "?entry="@ + entry
}

/// The launch decision. A disabled plugin is refused first; then a failed
/// shape resolution; the stored mode `embedded` or `independent` needs that
/// shape; any other stored mode launches headless and needs a wasm entry.
pub open spec fn launch_spec(
    plugin_id: Seq<char>,
    enabled: bool,
    mode: Seq<char>,
    supported: Result<(Option<(Seq<char>, ShapeSource)>, Option<(Seq<char>, ShapeSource)>, bool), Seq<char>>,
    has_wasm: bool,
    manifest: JsonView,
) -> Result<LaunchView, Seq<char>> {
    if !enabled {
        Err("插件已禁用 / plugin is disabled"@)
    } else {
        match supported {
            Err(e) => Err(e),
            Ok((emb, ind, _)) => if mode == "embedded"@ {
                match emb {
                    Some((entry, _)) => Ok(LaunchView::Embedded(entry)),
                    None => Err("UnsupportedMode: embedded not declared by "@ + plugin_id),
                }
            } else if mode == "independent"@ {
                match ind {
                    Some((entry, source)) => Ok(LaunchView::Window(
                        "plugin-"@ + dots_to_underscores(plugin_id),
                        window_url(plugin_id, entry),
                        source,
                    )),
                    None => Err("UnsupportedMode: independent not declared by "@ + plugin_id),
                }
            } else if !has_wasm {
                Err("headless 模式需要 main.wasm / headless mode requires main.wasm"@)
            } else {
                Ok(LaunchView::Headless(headless_action(manifest)))
            },
        }
    }
}

/// Decides what launching a plugin does, from its row (enabled flag, stored
/// mode, whether it has a wasm entry, the manifest text), and its resolved
/// shapes.
pub fn plan_launch(
    plugin_id: &str,
    enabled: bool,
    mode: &str,
    supported: Result<Shapes, String>,
    has_wasm: bool,
    manifest_json: &str,
) -> (r: Result<LaunchPlan, String>)
    ensures
        launch_view(r) == launch_spec(plugin_id@, enabled, mode@, supported_view(supported), has_wasm, manifest_or_null(manifest_json@)),
{
    if !enabled {
        return Err("插件已禁用 / plugin is disabled".to_owned());
    }
    let shapes = match supported {
        Ok(s) => s,
        Err(e) => return Err(e),
    };
    if str_eq(mode, "embedded") {
        match shapes.embedded {
            Some(resolved) => Ok(LaunchPlan::Embedded { entry: resolved.entry }),
            None => Err(concat2("UnsupportedMode: embedded not declared by ", plugin_id)),
        }
    } else if str_eq(mode, "independent") {
        match shapes.independent {
            Some(resolved) => {
                let label = plugin_window_label(plugin_id);
                let head = concat3("/plugin-window/", plugin_id, "?entry=");
                let url = concat2(head.as_str(), resolved.entry.as_str());
                Ok(LaunchPlan::Window { label, url, source: resolved.source })
            },
            None => Err(concat2("UnsupportedMode: independent not declared by ", plugin_id)),
        }
    } else if !has_wasm {
        Err("headless 模式需要 main.wasm / headless mode requires main.wasm".to_owned())
    } else {
        let action = pick_headless_action(manifest_json);
        Ok(LaunchPlan::Headless { action })
    }
}

/// The modes a plugin's shapes support, in the order embedded,
/// independent, headless.
pub open spec fn modes_of(emb: bool, ind: bool, headless: bool) -> Seq<Seq<char>> {
    let a = if emb { seq!["embedded"@] } else { Seq::<Seq<char>>::empty() };
    let b = if ind { a.push("independent"@) } else { a };
    if headless { b.push("headless"@) } else { b }
}

/// Lists the modes the resolved shapes support.
pub fn supported_modes(shapes: &Shapes) -> (r: Vec<&'static str>)
    ensures
        r@.map_values(|s: &'static str| s@) == modes_of(shapes.embedded is Some, shapes.independent is Some, shapes.headless),
{
    let mut v: Vec<&'static str> = Vec::new();
    if shapes.embedded.is_some() {
        v.push("embedded");
    }
    if shapes.independent.is_some() {
        v.push("independent");
    }
    if shapes.headless {
        v.push("headless");
    }
    proof {
        let a = if shapes.embedded is Some { seq!["embedded"@] } else { Seq::<Seq<char>>::empty() };
        let b = if shapes.independent is Some { a.push("independent"@) } else { a };
        assert(v@.map_values(|s: &'static str| s@) =~= modes_of(shapes.embedded is Some, shapes.independent is Some, shapes.headless));
    }
    v
}

/// A window a launch opens is the plugin's own window: pages in it see the
/// independent display mode, and window control from it is allowed.
pub proof fn lemma_launched_window_is_own(
    plugin_id: Seq<char>,
    enabled: bool,
    mode: Seq<char>,
    supported: Result<(Option<(Seq<char>, ShapeSource)>, Option<(Seq<char>, ShapeSource)>, bool), Seq<char>>,
    has_wasm: bool,
    manifest: JsonView,
)
    ensures
        launch_spec(plugin_id, enabled, mode, supported, has_wasm, manifest) matches Ok(LaunchView::Window(label, _, _))
            ==> crate::bridge::dispatch::own_window(label, plugin_id),
{
}

/// A launch succeeds exactly for an enabled plugin whose shapes resolved and
/// support its stored mode (any mode other than `embedded` and `independent`
/// being headless, which needs a wasm entry).
pub proof fn lemma_launch_succeeds_iff_supported(
    plugin_id: Seq<char>,
    enabled: bool,
    mode: Seq<char>,
    supported: Result<(Option<(Seq<char>, ShapeSource)>, Option<(Seq<char>, ShapeSource)>, bool), Seq<char>>,
    has_wasm: bool,
    manifest: JsonView,
)
    ensures
        launch_spec(plugin_id, enabled, mode, supported, has_wasm, manifest) is Ok <==> {
            &&& enabled
            &&& supported matches Ok((emb, ind, _)) && if mode == "embedded"@ {
                emb is Some
            } else if mode == "independent"@ {
                ind is Some
            } else {
                has_wasm
            }
        },
{
}

// ------------------------------------------------------------------
// Switching the stored mode
// ------------------------------------------------------------------

/// The three window modes.
pub open spec fn known_mode(mode: Seq<char>) -> bool {
    mode == "embedded"@ || mode == "independent"@ || mode == "headless"@
}

/// Refuses a mode that is none of the three.
pub fn check_window_mode(mode: &str) -> (r: Result<(), String>)
    ensures
        r is Ok <==> known_mode(mode@),
        r matches Err(e) ==> e@ == "未知窗口模式 / unknown window mode: "@ + mode@,
{
    if str_eq(mode, "embedded") || str_eq(mode, "independent") || str_eq(mode, "headless") {
        Ok(())
    } else {
        Err(concat2("未知窗口模式 / unknown window mode: ", mode))
    }
}

/// Whether the resolved shapes support a mode.
pub open spec fn mode_supported(mode: Seq<char>, emb: bool, ind: bool, headless: bool) -> bool {
    if mode == "embedded"@ {
        emb
    } else if mode == "independent"@ {
        ind
    } else if mode == "headless"@ {
        headless
    } else {
        false
    }
}

/// Accepts a mode switch only to a shape the plugin supports; a failed shape
/// resolution refuses the switch with its own error.
pub fn check_mode_supported(mode: &str, supported: Result<Shapes, String>) -> (r: Result<(), String>)
    ensures
        match supported_view(supported) {
            Err(e) => r matches Err(x) && x@ == e,
            Ok((emb, ind, headless)) => if mode_supported(mode@, emb is Some, ind is Some, headless) {
                r is Ok
            } else {
                r matches Err(x) && x@ == "插件不支持该窗口模式 / plugin does not support window mode: "@ + mode@
            },
        },
{
    let sup = match supported {
        Ok(s) => s,
        Err(e) => return Err(e),
    };
    let ok = if str_eq(mode, "embedded") {
        sup.embedded.is_some()
    } else if str_eq(mode, "independent") {
        sup.independent.is_some()
    } else if str_eq(mode, "headless") {
        sup.headless
    } else {
        false
    };
    if ok {
        Ok(())
    } else {
        Err(concat2("插件不支持该窗口模式 / plugin does not support window mode: ", mode))
    }
}

} // verus!
