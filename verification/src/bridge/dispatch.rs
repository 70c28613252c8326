//! Permissions and channel routing for the plugin bridge, and the HTTP
//! request checks.
use vstd::prelude::*;
use crate::json::{json_parse, Json, JsonView, member};
use crate::order::views;
use crate::plugin::install::plugin_window_label;
use crate::text::{chars_of, concat2, str_eq, string_from_chars};
use crate::bridge::validate::validate_event_type;

verus! {

// ------------------------------------------------------------------
// Permissions
// ------------------------------------------------------------------

/// The permissions a plugin declared.
#[derive(Debug, Clone)]
pub struct PermissionGuard {
    pub permissions: Vec<String>,
}

impl View for PermissionGuard {
    type V = Set<Seq<char>>;

    open spec fn view(&self) -> Set<Seq<char>> {
        views(self.permissions@).to_set()
    }
}

impl Default for PermissionGuard {
    /// No permission at all (see `PermissionGuard::empty`).
    fn default() -> (g: PermissionGuard)
        ensures
            g@ == Set::<Seq<char>>::empty(),
    {
        PermissionGuard::empty()
    }
}

/// The string members of a manifest's `permissions` array.
pub open spec fn declared_permissions(manifest: JsonView) -> Set<Seq<char>> {
    match member(manifest, "permissions"@) {
        Some(JsonView::Array(items)) => Set::new(|p: Seq<char>| exists|i: int| 0 <= i < items.len() && #[trigger] items[i] == JsonView::Str(p)),
        _ => Set::empty(),
    }
}

impl PermissionGuard {
    /// No permission at all.
    pub fn empty() -> (g: PermissionGuard)
        ensures
            g@ == Set::<Seq<char>>::empty(),
    {
        let g = PermissionGuard { permissions: Vec::new() };
        assert(g@ =~= Set::<Seq<char>>::empty());
        g
    }

    /// The permissions listed (as strings) in a manifest's `permissions`
    /// array; none when the array is absent.
    pub fn from_manifest(manifest: &Json) -> (g: PermissionGuard)
        ensures
            g@ == declared_permissions(manifest@),
    {
        proof {
            reveal_strlit("permissions");
        }
        let mut permissions: Vec<String> = Vec::new();
        match crate::json::get_member(manifest, "permissions") {
            Some(Json::Array(items)) => {
                let ghost iv = match member(manifest@, "permissions"@) { Some(JsonView::Array(x)) => x, _ => Seq::empty() };
                assert(iv =~= Json::Array(items)@->Array_0);
                let n = items.len();
                for i in 0..n
                    invariant
                        n == items@.len(),
                        iv.len() == n,
                        forall|k: int| 0 <= k < n ==> #[trigger] iv[k] == items@[k]@,
                        forall|p: Seq<char>| views(permissions@).contains(p) <==> exists|k: int| 0 <= k < i && #[trigger] iv[k] == JsonView::Str(p),
                {
                    match &items[i] {
                        Json::Str(s) => {
                            let ghost before = views(permissions@);
                            permissions.push(s.clone());
                            proof {
                                assert(views(permissions@) =~= before.push(s@));
                                assert(iv[i as int] == JsonView::Str(s@));
                                assert forall|p: Seq<char>| views(permissions@).contains(p) <==> exists|k: int| 0 <= k < i + 1 && #[trigger] iv[k] == JsonView::Str(p) by {
                                    if views(permissions@).contains(p) && p != s@ {
                                        let q = choose|q: int| 0 <= q < views(permissions@).len() && views(permissions@)[q] == p;
                                        assert(before[q] == p);
                                        assert(before.contains(p));
                                    }
                                    if p == s@ {
                                        assert(views(permissions@)[before.len() as int] == p);
                                    }
                                    if exists|k: int| 0 <= k < i + 1 && #[trigger] iv[k] == JsonView::Str(p) {
                                        let k = choose|k: int| 0 <= k < i + 1 && #[trigger] iv[k] == JsonView::Str(p);
                                        if k < i {
                                            assert(before.contains(p));
                                            let q = choose|q: int| 0 <= q < before.len() && before[q] == p;
                                            assert(views(permissions@)[q] == p);
                                        }
                                    }
                                }
                            }
                        },
                        _ => {
                            proof {
                                assert forall|p: Seq<char>| views(permissions@).contains(p) <==> exists|k: int| 0 <= k < i + 1 && #[trigger] iv[k] == JsonView::Str(p) by {
                                    if exists|k: int| 0 <= k < i + 1 && #[trigger] iv[k] == JsonView::Str(p) {
                                        let k = choose|k: int| 0 <= k < i + 1 && #[trigger] iv[k] == JsonView::Str(p);
                                        assert(k != i);
                                    }
                                }
                            }
                        },
                    }
                }
                let g = PermissionGuard { permissions };
                proof {
                    assert(g@ =~= declared_permissions(manifest@)) by {
                        assert forall|p: Seq<char>| g@.contains(p) <==> declared_permissions(manifest@).contains(p) by {
                            if g@.contains(p) {
                                assert(views(g.permissions@).contains(p));
                            }
                        }
                    }
                }
                g
            },
            _ => {
                let g = PermissionGuard { permissions };
                assert(g@ =~= declared_permissions(manifest@));
                g
            },
        }
    }

    /// Reads the permissions of a stored manifest's text; text that does not
    /// parse is refused as `PluginNotFound: invalid manifest (<error>)`.
    pub fn from_manifest_json(manifest_json: &str) -> (r: Result<PermissionGuard, String>)
        ensures
            match json_parse(manifest_json@) {
                Ok(v) => r matches Ok(g) && g@ == declared_permissions(v),
                Err(e) => r matches Err(m) && m@ == "PluginNotFound: invalid manifest ("@ + e + ")"@,
            },
    {
        match crate::json::parse_json(manifest_json) {
            Ok(v) => Ok(PermissionGuard::from_manifest(&v)),
            Err(e) => Err(crate::text::concat3("PluginNotFound: invalid manifest (", e.as_str(), ")")),
        }
    }

    /// Whether the permission was declared.
    pub fn has(&self, perm: &str) -> (b: bool)
        ensures
            b == self@.contains(perm@),
    {
        let n = self.permissions.len();
        for i in 0..n
            invariant
                n == self.permissions@.len(),
                forall|k: int| 0 <= k < i ==> self.permissions@[k]@ != perm@,
        {
            if str_eq(self.permissions[i].as_str(), perm) {
                assert(views(self.permissions@)[i as int] == perm@);
                return true;
            }
        }
        proof {
            if self@.contains(perm@) {
                let k = choose|k: int| 0 <= k < views(self.permissions@).len() && views(self.permissions@)[k] == perm@;
                assert(self.permissions@[k]@ == perm@);
            }
        }
        false
    }

    /// A single permission check; undeclared permissions are denied with
    /// `PermissionDenied: <perm>`.
    pub fn require(&self, perm: &str) -> (r: Result<(), String>)
        ensures
            r is Ok <==> self@.contains(perm@),
            r matches Err(e) ==> e@ == "PermissionDenied: "@ + perm@,
    {
        if self.has(perm) {
            Ok(())
        } else {
            Err(concat2("PermissionDenied: ", perm))
        }
    }

    /// Whether HTTP requests to `host` are allowed: the exact host, or every
    /// host, was declared (subdomains are never implied).
    pub fn allows_host(&self, host: &str) -> (b: bool)
        ensures
            b == (self@.contains("network:host:"@ + host@) || self@.contains("network:host:*"@)),
    {
        let exact = concat2("network:host:", host);
        self.has(exact.as_str()) || self.has("network:host:*")
    }

    /// The host check of an HTTP request: refused with
    /// `PermissionDenied: network:host:<host>` unless allowed.
    pub fn require_host(&self, host: &str) -> (r: Result<(), String>)
        ensures
            r is Ok <==> (self@.contains("network:host:"@ + host@) || self@.contains("network:host:*"@)),
            r matches Err(e) ==> e@ == "PermissionDenied: network:host:"@ + host@,
    {
        if self.allows_host(host) {
            Ok(())
        } else {
            Err(concat2("PermissionDenied: network:host:", host))
        }
    }
}

/// Whether a plugin may use the bridge, from its row (installed, enabled):
/// a missing row, an uninstalled or a disabled plugin is refused.
pub fn check_bridge_row(plugin_id: &str, row: Option<(bool, bool)>) -> (r: Result<(), String>)
    ensures
        match row {
            None => r matches Err(e) && e@ == "PluginNotFound: "@ + plugin_id@,
            Some((installed, enabled)) => if !installed {
                r matches Err(e) && e@ == "PluginNotFound: "@ + plugin_id@ + " (uninstalled)"@
            } else if !enabled {
                r matches Err(e) && e@ == "PluginDisabled: "@ + plugin_id@
            } else {
                r is Ok
            },
        },
{
    match row {
        None => Err(concat2("PluginNotFound: ", plugin_id)),
        Some((installed, enabled)) => if !installed {
            Err(crate::text::concat3("PluginNotFound: ", plugin_id, " (uninstalled)"))
        } else if !enabled {
            Err(concat2("PluginDisabled: ", plugin_id))
        } else {
            Ok(())
        },
    }
}

// ------------------------------------------------------------------
// Channels
// ------------------------------------------------------------------

/// The permission a channel needs, if any.
pub open spec fn channel_permission_spec(channel: Seq<char>) -> Option<Seq<char>> {
    if channel == "kapi:storage.get"@ {
        Some("storage:read"@)
    } else if channel == "kapi:storage.set"@ || channel == "kapi:storage.remove"@ {
        Some("storage:write"@)
    } else if channel == "kapi:clipboard.read"@ {
        Some("clipboard:read"@)
    } else if channel == "kapi:clipboard.write"@ {
        Some("clipboard:write"@)
    } else if channel == "kapi:events.emit"@ {
        Some("events:emit"@)
    } else {
        None
    }
}

/// The permission a channel needs; window, log, HTTP (checked per host) and
/// unknown channels need none.
pub fn channel_permission(channel: &str) -> (r: Option<&'static str>)
    ensures
        match r {
            Some(p) => channel_permission_spec(channel@) == Some(p@),
            None => channel_permission_spec(channel@) is None,
        },
{
    if str_eq(channel, "kapi:storage.get") {
        Some("storage:read")
    } else if str_eq(channel, "kapi:storage.set") || str_eq(channel, "kapi:storage.remove") {
        Some("storage:write")
    } else if str_eq(channel, "kapi:clipboard.read") {
        Some("clipboard:read")
    } else if str_eq(channel, "kapi:clipboard.write") {
        Some("clipboard:write")
    } else if str_eq(channel, "kapi:events.emit") {
        Some("events:emit")
    } else {
        None
    }
}

/// Log levels of the `kapi:log.*` channels.
#[derive(Debug, Clone, Copy, PartialEq, Eq, Structural)]
pub enum LogLevel {
    Debug,
    Info,
    Warn,
    Error,
}

impl LogLevel {
    pub fn as_str(self) -> (r: &'static str)
        ensures
            r@ == log_level_name(self),
    {
        match self {
            LogLevel::Debug => "debug",
            LogLevel::Info => "info",
            LogLevel::Warn => "warn",
            LogLevel::Error => "error",
        }
    }
}

pub open spec fn log_level_name(l: LogLevel) -> Seq<char> {
    match l {
        LogLevel::Debug => "debug"@,
        LogLevel::Info => "info"@,
        LogLevel::Warn => "warn"@,
        LogLevel::Error => "error"@,
    }
}

/// The handler a channel reaches from the shared dispatch.
#[derive(Debug, Clone, Copy, PartialEq, Eq, Structural)]
pub enum Route {
    StorageGet,
    StorageSet,
    StorageRemove,
    ClipboardRead,
    ClipboardWrite,
    HttpFetch,
    EventsEmit,
    Log(LogLevel),
}

/// Where the shared dispatch sends a channel, or why it refuses it: the
/// channel's permission is checked first.
pub open spec fn route_spec(perms: Set<Seq<char>>, channel: Seq<char>) -> Result<Route, Seq<char>> {
    if channel_permission_spec(channel) matches Some(p) && !perms.contains(p) {
        Err("PermissionDenied: "@ + channel_permission_spec(channel).unwrap())
    } else if channel == "kapi:storage.get"@ {
        Ok(Route::StorageGet)
    } else if channel == "kapi:storage.set"@ {
        Ok(Route::StorageSet)
    } else if channel == "kapi:storage.remove"@ {
        Ok(Route::StorageRemove)
    } else if channel == "kapi:clipboard.read"@ {
        Ok(Route::ClipboardRead)
    } else if channel == "kapi:clipboard.write"@ {
        Ok(Route::ClipboardWrite)
    } else if channel == "kapi:http.fetch"@ {
        Ok(Route::HttpFetch)
    } else if channel == "kapi:events.emit"@ {
        Ok(Route::EventsEmit)
    } else if channel == "kapi:log.debug"@ {
        Ok(Route::Log(LogLevel::Debug))
    } else if channel == "kapi:log.info"@ {
        Ok(Route::Log(LogLevel::Info))
    } else if channel == "kapi:log.warn"@ {
        Ok(Route::Log(LogLevel::Warn))
    } else if channel == "kapi:log.error"@ {
        Ok(Route::Log(LogLevel::Error))
    } else if channel == "kapi:window.setTitle"@ || channel == "kapi:window.close"@
        || channel == "kapi:window.minimize"@ || channel == "kapi:window.startDragging"@ {
        Err("WindowNotAllowed: window control is UI-only"@)
    } else if channel == "kapi:plugin.invoke"@ {
        Err("WasmError: kapi:plugin.invoke is not callable from WASM"@)
    } else if channel == "kapi:events.on"@ || channel == "kapi:events.off"@ {
        Err("EventError: event subscription is UI-only (no push target from WASM)"@)
    } else {
        Err("UnknownChannel: "@ + channel)
    }
}

/// Default deny: a channel that needs a permission the plugin did not
/// declare is refused with `PermissionDenied: <permission>`, whatever else the
/// channel is.
pub proof fn lemma_default_deny(perms: Set<Seq<char>>, channel: Seq<char>)
    ensures
        channel_permission_spec(channel) matches Some(p) ==> (!perms.contains(p)
            ==> route_spec(perms, channel) == Err::<Route, Seq<char>>("PermissionDenied: "@ + p)),
{
}

/// The channel that names each handler of the shared dispatch.
pub open spec fn route_channel(r: Route) -> Seq<char> {
    match r {
        Route::StorageGet => "kapi:storage.get"@,
        Route::StorageSet => "kapi:storage.set"@,
        Route::StorageRemove => "kapi:storage.remove"@,
        Route::ClipboardRead => "kapi:clipboard.read"@,
        Route::ClipboardWrite => "kapi:clipboard.write"@,
        Route::HttpFetch => "kapi:http.fetch"@,
        Route::EventsEmit => "kapi:events.emit"@,
        Route::Log(LogLevel::Debug) => "kapi:log.debug"@,
        Route::Log(LogLevel::Info) => "kapi:log.info"@,
        Route::Log(LogLevel::Warn) => "kapi:log.warn"@,
        Route::Log(LogLevel::Error) => "kapi:log.error"@,
    }
}

/// The permission each handler of the shared dispatch needs (HTTP is
/// checked per host, logging needs none).
pub open spec fn route_permission(r: Route) -> Option<Seq<char>> {
    match r {
        Route::StorageGet => Some("storage:read"@),
        Route::StorageSet => Some("storage:write"@),
        Route::StorageRemove => Some("storage:write"@),
        Route::ClipboardRead => Some("clipboard:read"@),
        Route::ClipboardWrite => Some("clipboard:write"@),
        Route::EventsEmit => Some("events:emit"@),
        _ => None,
    }
}

/// A channel reaches the handler of its own name, and only with that
/// handler's permission granted; so two channels never reach the same
/// handler. Conversely every handler is reached by its own channel once its
/// permission is granted.
pub proof fn lemma_route_names_its_handler(perms: Set<Seq<char>>, channel: Seq<char>, r: Route)
    ensures
        route_spec(perms, channel) == Ok::<Route, Seq<char>>(r) ==> {
            &&& route_channel(r) == channel
            &&& route_permission(r) matches Some(p) ==> perms.contains(p)
        },
        (route_permission(r) matches Some(p) ==> perms.contains(p))
            ==> route_spec(perms, route_channel(r)) == Ok::<Route, Seq<char>>(r),
{
    reveal_strlit("kapi:storage.get");
    reveal_strlit("kapi:storage.set");
    reveal_strlit("kapi:storage.remove");
    reveal_strlit("kapi:clipboard.read");
    reveal_strlit("kapi:clipboard.write");
    reveal_strlit("kapi:http.fetch");
    reveal_strlit("kapi:events.emit");
    reveal_strlit("kapi:log.debug");
    reveal_strlit("kapi:log.info");
    reveal_strlit("kapi:log.warn");
    reveal_strlit("kapi:log.error");
    assert("kapi:storage.get"@.len() == 16 && "kapi:storage.get"@[5] == 's' && "kapi:storage.get"@[9] == 'a' && "kapi:storage.get"@[13] == 'g');
    assert("kapi:storage.set"@.len() == 16 && "kapi:storage.set"@[5] == 's' && "kapi:storage.set"@[9] == 'a' && "kapi:storage.set"@[13] == 's');
    assert("kapi:storage.remove"@.len() == 19 && "kapi:storage.remove"@[5] == 's' && "kapi:storage.remove"@[9] == 'a' && "kapi:storage.remove"@[13] == 'r');
    assert("kapi:clipboard.read"@.len() == 19 && "kapi:clipboard.read"@[5] == 'c' && "kapi:clipboard.read"@[9] == 'b' && "kapi:clipboard.read"@[13] == 'd');
    assert("kapi:clipboard.write"@.len() == 20 && "kapi:clipboard.write"@[5] == 'c' && "kapi:clipboard.write"@[9] == 'b' && "kapi:clipboard.write"@[13] == 'd');
    assert("kapi:http.fetch"@.len() == 15 && "kapi:http.fetch"@[5] == 'h' && "kapi:http.fetch"@[9] == '.' && "kapi:http.fetch"@[13] == 'c');
    assert("kapi:events.emit"@.len() == 16 && "kapi:events.emit"@[5] == 'e' && "kapi:events.emit"@[9] == 't' && "kapi:events.emit"@[13] == 'm');
    assert("kapi:log.debug"@.len() == 14 && "kapi:log.debug"@[5] == 'l' && "kapi:log.debug"@[9] == 'd' && "kapi:log.debug"@[13] == 'g');
    assert("kapi:log.info"@.len() == 13 && "kapi:log.info"@[5] == 'l' && "kapi:log.info"@[9] == 'i');
    assert("kapi:log.warn"@.len() == 13 && "kapi:log.warn"@[5] == 'l' && "kapi:log.warn"@[9] == 'w');
    assert("kapi:log.error"@.len() == 14 && "kapi:log.error"@[5] == 'l' && "kapi:log.error"@[9] == 'e' && "kapi:log.error"@[13] == 'r');
}

/// Routes a channel of the shared dispatch (used by plugin code and the UI).
pub fn dispatch_route(guard: &PermissionGuard, channel: &str) -> (r: Result<Route, String>)
    ensures
        match r {
            Ok(route) => route_spec(guard@, channel@) == Ok::<Route, Seq<char>>(route),
            Err(e) => route_spec(guard@, channel@) == Err::<Route, Seq<char>>(e@),
        },
{
    match channel_permission(channel) {
        Some(perm) => {
            match guard.require(perm) {
                Ok(()) => {},
                Err(e) => return Err(e),
            }
        },
        None => {},
    }
    if str_eq(channel, "kapi:storage.get") {
        Ok(Route::StorageGet)
    } else if str_eq(channel, "kapi:storage.set") {
        Ok(Route::StorageSet)
    } else if str_eq(channel, "kapi:storage.remove") {
        Ok(Route::StorageRemove)
    } else if str_eq(channel, "kapi:clipboard.read") {
        Ok(Route::ClipboardRead)
    } else if str_eq(channel, "kapi:clipboard.write") {
        Ok(Route::ClipboardWrite)
    } else if str_eq(channel, "kapi:http.fetch") {
        Ok(Route::HttpFetch)
    } else if str_eq(channel, "kapi:events.emit") {
        Ok(Route::EventsEmit)
    } else if str_eq(channel, "kapi:log.debug") {
        Ok(Route::Log(LogLevel::Debug))
    } else if str_eq(channel, "kapi:log.info") {
        Ok(Route::Log(LogLevel::Info))
    } else if str_eq(channel, "kapi:log.warn") {
        Ok(Route::Log(LogLevel::Warn))
    } else if str_eq(channel, "kapi:log.error") {
        Ok(Route::Log(LogLevel::Error))
    } else if str_eq(channel, "kapi:window.setTitle") || str_eq(channel, "kapi:window.close")
        || str_eq(channel, "kapi:window.minimize") || str_eq(channel, "kapi:window.startDragging") {
        Err("WindowNotAllowed: window control is UI-only".to_owned())
    } else if str_eq(channel, "kapi:plugin.invoke") {
        Err("WasmError: kapi:plugin.invoke is not callable from WASM".to_owned())
    } else if str_eq(channel, "kapi:events.on") || str_eq(channel, "kapi:events.off") {
        Err("EventError: event subscription is UI-only (no push target from WASM)".to_owned())
    } else {
        Err(concat2("UnknownChannel: ", channel))
    }
}

/// The channels the UI bridge handles itself before the shared dispatch.
#[derive(Debug, Clone, Copy, PartialEq, Eq, Structural)]
pub enum BridgeRoute {
    WindowGetInfo,
    WindowSetTitle,
    WindowClose,
    WindowMinimize,
    WindowStartDragging,
    EventsOn,
    EventsOff,
    PluginInvoke,
    /// Everything else goes through the shared dispatch.
    Shared,
}

pub open spec fn bridge_route_spec(channel: Seq<char>) -> BridgeRoute {
    if channel == "kapi:window.getInfo"@ {
        BridgeRoute::WindowGetInfo
    } else if channel == "kapi:window.setTitle"@ {
        BridgeRoute::WindowSetTitle
    } else if channel == "kapi:window.close"@ {
        BridgeRoute::WindowClose
    } else if channel == "kapi:window.minimize"@ {
        BridgeRoute::WindowMinimize
    } else if channel == "kapi:window.startDragging"@ {
        BridgeRoute::WindowStartDragging
    } else if channel == "kapi:events.on"@ {
        BridgeRoute::EventsOn
    } else if channel == "kapi:events.off"@ {
        BridgeRoute::EventsOff
    } else if channel == "kapi:plugin.invoke"@ {
        BridgeRoute::PluginInvoke
    } else {
        BridgeRoute::Shared
    }
}

/// The channel that names each handler of the UI bridge (the shared
/// dispatch has none of its own).
pub open spec fn bridge_channel(b: BridgeRoute) -> Option<Seq<char>> {
    match b {
        BridgeRoute::WindowGetInfo => Some("kapi:window.getInfo"@),
        BridgeRoute::WindowSetTitle => Some("kapi:window.setTitle"@),
        BridgeRoute::WindowClose => Some("kapi:window.close"@),
        BridgeRoute::WindowMinimize => Some("kapi:window.minimize"@),
        BridgeRoute::WindowStartDragging => Some("kapi:window.startDragging"@),
        BridgeRoute::EventsOn => Some("kapi:events.on"@),
        BridgeRoute::EventsOff => Some("kapi:events.off"@),
        BridgeRoute::PluginInvoke => Some("kapi:plugin.invoke"@),
        BridgeRoute::Shared => None,
    }
}

/// A channel the UI bridge handles itself reaches the handler of its own
/// name, so distinct channels reach distinct handlers; every such handler is
/// reached by its own channel; and any other channel goes to the shared
/// dispatch.
pub proof fn lemma_bridge_route_names_its_handler(channel: Seq<char>, b: BridgeRoute)
    ensures
        bridge_route_spec(channel) matches BridgeRoute::Shared
            || bridge_channel(bridge_route_spec(channel)) == Some(channel),
        bridge_channel(b) matches Some(c) ==> bridge_route_spec(c) == b,
        (forall|b2: BridgeRoute| bridge_channel(b2) != Some(channel))
            ==> bridge_route_spec(channel) == BridgeRoute::Shared,
{
    reveal_strlit("kapi:window.getInfo");
    reveal_strlit("kapi:window.setTitle");
    reveal_strlit("kapi:window.close");
    reveal_strlit("kapi:window.minimize");
    reveal_strlit("kapi:window.startDragging");
    reveal_strlit("kapi:events.on");
    reveal_strlit("kapi:events.off");
    reveal_strlit("kapi:plugin.invoke");
    assert("kapi:window.getInfo"@.len() == 19 && "kapi:window.getInfo"@[5] == 'w' && "kapi:window.getInfo"@[12] == 'g');
    assert("kapi:window.setTitle"@.len() == 20 && "kapi:window.setTitle"@[5] == 'w' && "kapi:window.setTitle"@[12] == 's');
    assert("kapi:window.close"@.len() == 17 && "kapi:window.close"@[5] == 'w' && "kapi:window.close"@[12] == 'c');
    assert("kapi:window.minimize"@.len() == 20 && "kapi:window.minimize"@[5] == 'w' && "kapi:window.minimize"@[12] == 'm');
    assert("kapi:window.startDragging"@.len() == 25 && "kapi:window.startDragging"@[5] == 'w' && "kapi:window.startDragging"@[12] == 's');
    assert("kapi:events.on"@.len() == 14 && "kapi:events.on"@[5] == 'e' && "kapi:events.on"@[12] == 'o');
    assert("kapi:events.off"@.len() == 15 && "kapi:events.off"@[5] == 'e' && "kapi:events.off"@[12] == 'o');
    assert("kapi:plugin.invoke"@.len() == 18 && "kapi:plugin.invoke"@[5] == 'p' && "kapi:plugin.invoke"@[12] == 'i');
    if !(bridge_route_spec(channel) matches BridgeRoute::Shared) {
        let b2 = bridge_route_spec(channel);
        assert(bridge_channel(b2) == Some(channel));
    }
}

/// Which handler of the UI bridge a channel reaches.
pub fn bridge_route(channel: &str) -> (r: BridgeRoute)
    ensures
        r == bridge_route_spec(channel@),
{
    if str_eq(channel, "kapi:window.getInfo") {
        BridgeRoute::WindowGetInfo
    } else if str_eq(channel, "kapi:window.setTitle") {
        BridgeRoute::WindowSetTitle
    } else if str_eq(channel, "kapi:window.close") {
        BridgeRoute::WindowClose
    } else if str_eq(channel, "kapi:window.minimize") {
        BridgeRoute::WindowMinimize
    } else if str_eq(channel, "kapi:window.startDragging") {
        BridgeRoute::WindowStartDragging
    } else if str_eq(channel, "kapi:events.on") {
        BridgeRoute::EventsOn
    } else if str_eq(channel, "kapi:events.off") {
        BridgeRoute::EventsOff
    } else if str_eq(channel, "kapi:plugin.invoke") {
        BridgeRoute::PluginInvoke
    } else {
        BridgeRoute::Shared
    }
}

// ------------------------------------------------------------------
// Windows
// ------------------------------------------------------------------

/// Whether the calling window is the plugin's own independent window.
pub open spec fn own_window(caller_label: Seq<char>, plugin_id: Seq<char>) -> bool {
    caller_label == "plugin-"@ + crate::plugin::install::dots_to_underscores(plugin_id)
}

/// The display context a plugin page runs in: `independent` in the plugin's
/// own window, `embedded` anywhere else.
pub fn display_mode(caller_label: &str, plugin_id: &str) -> (r: &'static str)
    ensures
        r@ == if own_window(caller_label@, plugin_id@) { "independent"@ } else { "embedded"@ },
{
    let label = plugin_window_label(plugin_id);
    if str_eq(caller_label, label.as_str()) {
        "independent"
    } else {
        "embedded"
    }
}

/// Window control is allowed only from the plugin's own independent window.
pub fn ensure_own_window(caller_label: &str, plugin_id: &str) -> (r: Result<(), String>)
    ensures
        r is Ok <==> own_window(caller_label@, plugin_id@),
        r matches Err(e) ==> e@ == "WindowNotAllowed: window control requires the plugin's independent window"@,
{
    let label = plugin_window_label(plugin_id);
    if str_eq(caller_label, label.as_str()) {
        Ok(())
    } else {
        Err("WindowNotAllowed: window control requires the plugin's independent window".to_owned())
    }
}

/// The event type of an `events.on` request: required, and checked.
pub fn subscription_type(event_type: Option<String>) -> (r: Result<String, String>)
    ensures
        match event_type {
            None => r matches Err(e) && e@ == "InvalidPayload: event subscription requires a type"@,
            Some(t) => match r {
                Ok(s) => s@ == t@ && crate::bridge::validate::bounded_slug(t@, 128),
                Err(e) => !crate::bridge::validate::bounded_slug(t@, 128)
                    && e@ == "InvalidPayload: event type must be 1..=128 chars of [A-Za-z0-9._-]"@,
            },
        },
{
    match event_type {
        None => Err("InvalidPayload: event subscription requires a type".to_owned()),
        Some(t) => match validate_event_type(t.as_str()) {
            Ok(()) => Ok(t),
            Err(e) => Err(e),
        },
    }
}

// ------------------------------------------------------------------
// HTTP
// ------------------------------------------------------------------

/// Largest request or response body, in bytes.
pub const MAX_RESPONSE_BYTES: usize = 1048576;

/// ASCII letters raised, other characters kept (`to_ascii_uppercase`).
pub open spec fn ascii_upper(s: Seq<char>) -> Seq<char> {
    s.map_values(|c: char| if 'a' <= c && c <= 'z' { ((c as u8) - 32) as char } else { c })
}

pub open spec fn allowed_method(m: Seq<char>) -> bool {
    m == "GET"@ || m == "POST"@ || m == "PUT"@ || m == "DELETE"@ || m == "PATCH"@ || m == "HEAD"@
}

/// `s` with its ASCII letters raised (`str::to_ascii_uppercase`).
pub fn to_ascii_upper(s: &str) -> (r: String)
    ensures
        r@ == ascii_upper(s@),
{
    let v = chars_of(s);
    let n = v.len();
    let mut out: Vec<char> = Vec::new();
    for i in 0..n
        invariant
            n == v@.len(),
            v@ == s@,
            out@ == ascii_upper(v@.take(i as int)),
    {
        let c = v[i];
        let d = if 'a' <= c && c <= 'z' { ((c as u8) - 32) as char } else { c };
        out.push(d);
        assert(ascii_upper(v@.take(i + 1)) =~= ascii_upper(v@.take(i as int)).push(d));
    }
    assert(v@.take(n as int) =~= v@);
    string_from_chars(out.as_slice())
}

/// The HTTP method of a request: `GET` by default, upper-cased, and one of
/// GET, POST, PUT, DELETE, PATCH, HEAD.
pub fn normalize_method(method: Option<&str>) -> (r: Result<String, String>)
    ensures
        ({
            let m = match method { Some(s) => ascii_upper(s@), None => "GET"@ };
            &&& r is Ok <==> allowed_method(m)
            &&& r matches Ok(s) ==> s@ == m
            &&& r matches Err(e) ==> e@ == "InvalidPayload: unsupported method "@ + m
        }),
{
    proof {
        reveal_strlit("GET");
    }
    let raw = match method {
        Some(s) => s,
        None => "GET",
    };
    assert(ascii_upper("GET"@) =~= "GET"@);
    let m = to_ascii_upper(raw);
    let s = m.as_str();
    if str_eq(s, "GET") || str_eq(s, "POST") || str_eq(s, "PUT") || str_eq(s, "DELETE") || str_eq(s, "PATCH") || str_eq(s, "HEAD") {
        Ok(m)
    } else {
        Err(concat2("InvalidPayload: unsupported method ", s))
    }
}

/// Request headers that are never forwarded (compared without case).
pub open spec fn stripped_header(name: Seq<char>) -> bool {
    crate::protocol::ascii_lower(name) == "host"@ || crate::protocol::ascii_lower(name) == "content-length"@
}

/// Whether a request header is forwarded: `Host` and `Content-Length` are
/// dropped whatever their case.
pub fn forwards_header(name: &str) -> (b: bool)
    ensures
        b == !stripped_header(name@),
{
    let lower = crate::protocol::to_ascii_lower(name);
    !(str_eq(lower.as_str(), "host") || str_eq(lower.as_str(), "content-length"))
}

/// A request body may hold at most 1 MiB.
pub fn check_body_len(len: usize) -> (r: Result<(), String>)
    ensures
        r is Ok <==> len <= MAX_RESPONSE_BYTES,
        r matches Err(e) ==> e@ == "InvalidPayload: body exceeds 1048576 bytes"@,
{
    if len > MAX_RESPONSE_BYTES {
        Err("InvalidPayload: body exceeds 1048576 bytes".to_owned())
    } else {
        Ok(())
    }
}

/// A response body may grow to at most 1 MiB.
pub fn check_response_growth(have: usize, chunk: usize) -> (r: Result<(), String>)
    ensures
        r is Ok <==> have + chunk <= MAX_RESPONSE_BYTES,
        r matches Err(e) ==> e@ == "HttpError: response exceeds 1048576 bytes"@,
{
    if chunk > MAX_RESPONSE_BYTES || have > MAX_RESPONSE_BYTES - chunk {
        Err("HttpError: response exceeds 1048576 bytes".to_owned())
    } else {
        Ok(())
    }
}

/// A stored value may serialize to at most 1 MiB.
pub fn check_value_len(len: usize) -> (r: Result<(), String>)
    ensures
        r is Ok <==> len <= 1048576,
        r matches Err(e) ==> e@ == "InvalidPayload: value exceeds 1048576 bytes"@,
{
    if len > 1048576 {
        Err("InvalidPayload: value exceeds 1048576 bytes".to_owned())
    } else {
        Ok(())
    }
}

/// Response headers as name/value pairs.
pub open spec fn header_pairs(v: Seq<(String, String)>) -> Seq<(Seq<char>, Seq<char>)> {
    v.map_values(|p: (String, String)| (p.0@, p.1@))
}

/// Where header `name` stands, or the length.
pub open spec fn header_index(h: Seq<(Seq<char>, Seq<char>)>, name: Seq<char>) -> int
    decreases h.len(),
{
    if h.len() == 0 {
        0
    } else if h[0].0 == name {
        0
    } else {
        1 + header_index(h.drop_first(), name)
    }
}

/// Adds a response header: a repeated name joins its values with `, `.
pub open spec fn merged_headers(h: Seq<(Seq<char>, Seq<char>)>, name: Seq<char>, value: Seq<char>) -> Seq<(Seq<char>, Seq<char>)> {
    let k = header_index(h, name);
    if k < h.len() {
        h.update(k, (name, h[k].1 + ", "@ + value))
    } else {
        h.push((name, value))
    }
}

proof fn lemma_header_index(h: Seq<(Seq<char>, Seq<char>)>, name: Seq<char>)
    ensures
        0 <= header_index(h, name) <= h.len(),
        header_index(h, name) < h.len() ==> h[header_index(h, name)].0 == name,
        forall|i: int| 0 <= i < header_index(h, name) ==> (#[trigger] h[i]).0 != name,
    decreases h.len(),
{
    if h.len() > 0 && h[0].0 != name {
        lemma_header_index(h.drop_first(), name);
        assert forall|i: int| 0 <= i < header_index(h, name) implies (#[trigger] h[i]).0 != name by {
            if i > 0 {
                assert(h[i] == h.drop_first()[i - 1]);
            }
        }
    }
}

/// Records one response header.
pub fn merge_header(headers: &mut Vec<(String, String)>, name: String, value: String)
    ensures
        header_pairs(final(headers)@) == merged_headers(header_pairs(old(headers)@), name@, value@),
{
    let ghost h = header_pairs(headers@);
    proof {
        lemma_header_index(h, name@);
    }
    let n = headers.len();
    let mut k: usize = 0;
    while k < n
        invariant
            n == headers@.len(),
            h == header_pairs(headers@),
            k <= header_index(h, name@),
            0 <= header_index(h, name@) <= h.len(),
            header_index(h, name@) < h.len() ==> h[header_index(h, name@)].0 == name@,
            forall|j: int| 0 <= j < header_index(h, name@) ==> (#[trigger] h[j]).0 != name@,
        ensures
            k <= n,
            k <= header_index(h, name@),
            k < n ==> h[k as int].0 == name@,
        decreases n - k,
    {
        if str_eq(headers[k].0.as_str(), name.as_str()) {
            assert(h[k as int].0 == name@);
            break;
        }
        k = k + 1;
    }
    assert(k == header_index(h, name@)) by {
        if k < n && k < header_index(h, name@) {
            assert(h[k as int].0 != name@);
        }
    }
    let ghost nv = name@;
    let ghost vv = value@;
    if k < n {
        let joined = crate::text::concat3(headers[k].1.as_str(), ", ", value.as_str());
        headers.set(k, (name, joined));
        assert(header_pairs(headers@) =~= merged_headers(h, nv, vv));
    } else {
        headers.push((name, value));
        assert(header_pairs(headers@) =~= merged_headers(h, nv, vv));
    }
}

// ------------------------------------------------------------------
// URLs
// ------------------------------------------------------------------

/// The scheme and host that the `url` crate reads from a text (its
/// `Url::parse`, then `scheme` and `host_str`); nothing when it does not parse
/// as an absolute URL.
pub uninterp spec fn url_scheme_host(raw: Seq<char>) -> Option<(Seq<char>, Option<Seq<char>>)>;

/// `url::Url::parse`, read back as its scheme and host.
#[verifier::external_body]
fn parse_url(raw: &str) -> (r: Option<(String, Option<String>)>)
    ensures
        match r {
            Some((s, h)) => url_scheme_host(raw@) == Some((s@, match h { Some(x) => Some(x@), None => None::<Seq<char>> })),
            None => url_scheme_host(raw@) is None,
        },
{
    match url::Url::parse(raw) {
        Ok(u) => Some((u.scheme().to_string(), u.host_str().map(|h| h.to_string()))),
        Err(_) => None,
    }
}

/// The host an HTTP request goes to, from the parsed scheme and host.
pub open spec fn host_of(parsed: Option<(Seq<char>, Option<Seq<char>>)>) -> Result<Seq<char>, Seq<char>> {
    match parsed {
        None => Err("HttpError: invalid url"@),
        Some((scheme, host)) => if scheme != "http"@ && scheme != "https"@ {
            Err("HttpError: only http/https urls are allowed"@)
        } else {
            match host {
                None => Err("HttpError: url has no host"@),
                Some(h) => Ok(crate::protocol::ascii_lower(h)),
            }
        },
    }
}

/// The lower-cased host of an http(s) URL.
pub fn extract_host(raw: &str) -> (r: Result<String, String>)
    ensures
        match r {
            Ok(h) => host_of(url_scheme_host(raw@)) == Ok::<Seq<char>, Seq<char>>(h@),
            Err(e) => host_of(url_scheme_host(raw@)) == Err::<Seq<char>, Seq<char>>(e@),
        },
{
    host_from_parts(parse_url(raw))
}

/// The lower-cased host, given what the URL parser read.
pub fn host_from_parts(parsed: Option<(String, Option<String>)>) -> (r: Result<String, String>)
    ensures
        ({
            let pv = match parsed {
                Some((s, h)) => Some((s@, match h { Some(x) => Some(x@), None => None::<Seq<char>> })),
                None => None,
            };
            match r {
                Ok(h) => host_of(pv) == Ok::<Seq<char>, Seq<char>>(h@),
                Err(e) => host_of(pv) == Err::<Seq<char>, Seq<char>>(e@),
            }
        }),
{
    match parsed {
        None => Err("HttpError: invalid url".to_owned()),
        Some((scheme, host)) => {
            if !(str_eq(scheme.as_str(), "http") || str_eq(scheme.as_str(), "https")) {
                return Err("HttpError: only http/https urls are allowed".to_owned());
            }
            match host {
                None => Err("HttpError: url has no host".to_owned()),
                Some(h) => Ok(crate::protocol::to_ascii_lower(h.as_str())),
            }
        },
    }
}

} // verus!
