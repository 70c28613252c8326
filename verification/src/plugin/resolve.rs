//! Which window shapes a plugin supports, entry-path safety, and the install
//! plan derived from a manifest.
use vstd::prelude::*;
use crate::protocol::{is_valid_plugin_id, valid_plugin_id};
use crate::text::{
    all_slug, char_is_slug, chars_of, concat2, find_char, find_in, split_on, str_eq, trim,
    trim_range, lemma_find_char,
};

verus! {

/// A web-relative entry segment: non-empty slug text, not `.` or `..`.
pub open spec fn safe_segment(seg: Seq<char>) -> bool {
    seg.len() > 0 && seg != ".."@ && seg != "."@ && all_slug(seg)
}

/// Every part is a safe segment.
pub open spec fn all_safe(parts: Seq<Seq<char>>) -> bool {
    forall|i: int| 0 <= i < parts.len() ==> safe_segment(#[trigger] parts[i])
}

/// A safe entry path under `web/`: non-empty, no leading `/`, and every
/// `/`-separated segment safe.
pub open spec fn safe_entry(e: Seq<char>) -> bool {
    &&& e.len() > 0
    &&& e[0] != '/'
    &&& all_safe(split_on(e, '/'))
}

fn segment_is_safe(v: &Vec<char>, lo: usize, hi: usize) -> (b: bool)
    requires
        lo <= hi <= v@.len(),
    ensures
        b == safe_segment(v@.subrange(lo as int, hi as int)),
{
    proof {
        reveal_strlit(".");
        reveal_strlit("..");
    }
    let ghost s = v@.subrange(lo as int, hi as int);
    if hi == lo {
        return false;
    }
    if hi - lo == 1 && v[lo] == '.' {
        assert(s =~= "."@);
        return false;
    }
    if hi - lo == 2 && v[lo] == '.' && v[lo + 1] == '.' {
        assert(s =~= ".."@);
        return false;
    }
    assert("."@.len() == 1 && "."@[0] == '.');
    assert(".."@.len() == 2 && ".."@[0] == '.' && ".."@[1] == '.');
    assert(s.len() == hi - lo);
    assert(s[0] == v@[lo as int]);
    if hi - lo == 2 {
        assert(s[1] == v@[lo + 1]);
    }
    assert(s != "."@ && s != ".."@);
    let mut i = lo;
    while i < hi
        invariant
            lo <= i <= hi <= v@.len(),
            s == v@.subrange(lo as int, hi as int),
            forall|k: int| lo <= k < i ==> crate::text::is_slug_char(#[trigger] v@[k]),
        decreases hi - i,
    {
        if !char_is_slug(v[i]) {
            assert(s[i - lo] == v@[i as int]);
            return false;
        }
        i = i + 1;
    }
    assert forall|k: int| 0 <= k < s.len() implies crate::text::is_slug_char(#[trigger] s[k]) by {
        assert(s[k] == v@[lo + k]);
    }
    true
}

/// Whether an entry path under `web/` is safe to serve: non-empty, no leading
/// `/`, and each segment non-empty `[A-Za-z0-9._-]` text other than `.` and
/// `..`.
pub fn is_safe_entry(entry: &str) -> (b: bool)
    ensures
        b == safe_entry(entry@),
{
    let v = chars_of(entry);
    let n = v.len();
    if n == 0 || v[0] == '/' {
        return false;
    }
    let mut p: usize = 0;
    assert(v@.subrange(0, n as int) =~= v@);
    loop
        invariant
            n == v@.len(),
            v@ == entry@,
            n > 0,
            v@[0] != '/',
            p <= n,
            all_safe(split_on(v@, '/')) == all_safe(split_on(v@.subrange(p as int, n as int), '/')),
        decreases n - p,
    {
        let k = find_in(&v, p, n, '/');
        let ghost sub = v@.subrange(p as int, n as int);
        proof {
            lemma_find_char(sub, '/');
            assert(sub.take(k - p) =~= v@.subrange(p as int, k as int));
        }
        let ok = segment_is_safe(&v, p, k);
        if k >= n {
            proof {
                assert(split_on(sub, '/') == seq![sub]);
                assert(sub =~= v@.subrange(p as int, k as int));
                if ok {
                    assert(all_safe(split_on(sub, '/')));
                } else {
                    assert(!safe_segment(split_on(sub, '/')[0]));
                }
            }
            return ok;
        }
        proof {
            let rest = v@.subrange(k + 1, n as int);
            assert(sub.skip(k - p + 1) =~= rest);
            assert(split_on(sub, '/') == seq![sub.take(k - p)].add(split_on(rest, '/')));
            let whole = split_on(sub, '/');
            assert forall|j: int| 0 <= j < split_on(rest, '/').len() implies whole[j + 1] == split_on(rest, '/')[j] by {}
            if ok {
                if all_safe(split_on(rest, '/')) {
                    assert forall|j: int| 0 <= j < whole.len() implies safe_segment(#[trigger] whole[j]) by {
                        if j > 0 {
                            assert(whole[j] == split_on(rest, '/')[j - 1]);
                        }
                    }
                }
                if all_safe(whole) {
                    assert forall|j: int| 0 <= j < split_on(rest, '/').len() implies safe_segment(#[trigger] split_on(rest, '/')[j]) by {
                        assert(whole[j + 1] == split_on(rest, '/')[j]);
                    }
                }
            }
        }
        if !ok {
            proof {
                let whole = split_on(sub, '/');
                assert(!safe_segment(whole[0]));
            }
            return false;
        }
        p = k + 1;
    }
}

// ------------------------------------------------------------------
// Window shapes
// ------------------------------------------------------------------

/// One `windows[]` declaration, as far as shape resolution reads it (its
/// window parameters stay with the caller).
#[derive(Debug)]
pub struct WindowDecl {
    pub mode: Option<String>,
    pub entry: Option<String>,
}

/// Where a resolved shape's parameters come from.
#[derive(Debug, Clone, Copy, PartialEq, Eq, Structural)]
pub enum ShapeSource {
    /// The `windows[]` declaration at this index.
    Entry(usize),
    /// The legacy `window` field.
    Legacy,
}

/// One resolved shape: its entry file under `web/` and where its parameters
/// come from.
#[derive(Debug)]
pub struct ResolvedShape {
    pub entry: String,
    pub source: ShapeSource,
}

/// The shapes a plugin supports.
#[derive(Debug)]
pub struct Shapes {
    pub embedded: Option<ResolvedShape>,
    pub independent: Option<ResolvedShape>,
    pub headless: bool,
}

pub open spec fn opt_view(o: Option<String>) -> Option<Seq<char>> {
    match o {
        Some(s) => Some(s@),
        None => None,
    }
}

pub open spec fn decls_view(ws: Seq<WindowDecl>) -> Seq<(Option<Seq<char>>, Option<Seq<char>>)> {
    ws.map_values(|w: WindowDecl| (opt_view(w.mode), opt_view(w.entry)))
}

pub open spec fn or_default(o: Option<Seq<char>>, d: Seq<char>) -> Seq<char> {
    match o {
        Some(s) => s,
        None => d,
    }
}

/// A resolved shape as plain values.
pub open spec fn shape_view(s: Option<ResolvedShape>) -> Option<(Seq<char>, ShapeSource)> {
    match s {
        Some(r) => Some((r.entry@, r.source)),
        None => None,
    }
}

/// `windows[]` declarations slot in from index `i` on, at most one per mode;
/// `headless`, a repeated mode or an unknown mode is an error.
pub open spec fn slot_windows(
    ws: Seq<(Option<Seq<char>>, Option<Seq<char>>)>,
    i: int,
    emb: Option<(Seq<char>, ShapeSource)>,
    ind: Option<(Seq<char>, ShapeSource)>,
) -> Result<(Option<(Seq<char>, ShapeSource)>, Option<(Seq<char>, ShapeSource)>), Seq<char>>
    decreases ws.len() - i,
{
    if i >= ws.len() || i < 0 {
        Ok((emb, ind))
    } else {
        let mode = or_default(ws[i].0, "embedded"@);
        let entry = or_default(ws[i].1, "index.html"@);
        if mode == "embedded"@ && emb is None {
            slot_windows(ws, i + 1, Some((entry, ShapeSource::Entry(i as usize))), ind)
        } else if mode == "independent"@ && ind is None {
            slot_windows(ws, i + 1, emb, Some((entry, ShapeSource::Entry(i as usize))))
        } else if mode == "headless"@ {
            Err("windows[] 不支持 headless（由 main.wasm 决定）/ headless is not a windows[] mode (decided by main.wasm)"@)
        } else {
            Err("windows[] mode 非法或重复 / invalid or duplicate windows[] mode: "@ + mode)
        }
    }
}

/// The supported shapes: the `windows[]` array wins; without it the legacy
/// mode (embedded by default) gives one shape with entry `index.html`; no web
/// entry means no window shape; headless means having a wasm entry.
pub open spec fn shapes_spec(
    windows: Option<Seq<(Option<Seq<char>>, Option<Seq<char>>)>>,
    legacy_mode: Option<Seq<char>>,
    has_web: bool,
    has_wasm: bool,
) -> Result<(Option<(Seq<char>, ShapeSource)>, Option<(Seq<char>, ShapeSource)>, bool), Seq<char>> {
    let slotted = match windows {
        Some(ws) => slot_windows(ws, 0, None, None),
        None => {
            let mode = or_default(legacy_mode, "embedded"@);
            if mode == "embedded"@ {
                Ok((Some(("index.html"@, ShapeSource::Legacy)), None))
            } else if mode == "independent"@ {
                Ok((None, Some(("index.html"@, ShapeSource::Legacy))))
            } else {
                Ok((None, None))
            }
        },
    };
    match slotted {
        Err(e) => Err(e),
        Ok((e, i)) => if has_web { Ok((e, i, has_wasm)) } else { Ok((None, None, has_wasm)) },
    }
}

pub open spec fn shapes_result_view(r: Result<Shapes, String>) -> Result<(Option<(Seq<char>, ShapeSource)>, Option<(Seq<char>, ShapeSource)>, bool), Seq<char>> {
    match r {
        Ok(s) => Ok((shape_view(s.embedded), shape_view(s.independent), s.headless)),
        Err(e) => Err(e@),
    }
}

fn text_or(o: &Option<String>, d: &str) -> (r: String)
    ensures
        r@ == or_default(opt_view(*o), d@),
{
    match o {
        Some(s) => s.clone(),
        None => d.to_owned(),
    }
}

/// Resolves the window shapes a plugin supports.
pub fn resolve_supported_windows(windows: &Option<Vec<WindowDecl>>, legacy_mode: &Option<String>, has_web: bool, has_wasm: bool) -> (r: Result<Shapes, String>)
    ensures
        shapes_result_view(r) == shapes_spec(
            match windows { Some(ws) => Some(decls_view(ws@)), None => None },
            opt_view(*legacy_mode),
            has_web,
            has_wasm,
        ),
{
    proof {
        reveal_strlit("embedded");
        reveal_strlit("independent");
        reveal_strlit("headless");
        reveal_strlit("index.html");
    }
    let mut embedded: Option<ResolvedShape> = None;
    let mut independent: Option<ResolvedShape> = None;
    match windows {
        Some(ws) => {
            let ghost wv = decls_view(ws@);
            let n = ws.len();
            for i in 0..n
                invariant
                    n == ws@.len(),
                    wv == decls_view(ws@),
                    *windows == Some(*ws),
                    slot_windows(wv, 0, None, None) == slot_windows(wv, i as int, shape_view(embedded), shape_view(independent)),
            {
                let mode = text_or(&ws[i].mode, "embedded");
                let entry = text_or(&ws[i].entry, "index.html");
                assert(wv[i as int] == (opt_view(ws@[i as int].mode), opt_view(ws@[i as int].entry)));
                if str_eq(mode.as_str(), "embedded") && embedded.is_none() {
                    embedded = Some(ResolvedShape { entry, source: ShapeSource::Entry(i) });
                } else if str_eq(mode.as_str(), "independent") && independent.is_none() {
                    independent = Some(ResolvedShape { entry, source: ShapeSource::Entry(i) });
                } else if str_eq(mode.as_str(), "headless") {
                    return Err("windows[] 不支持 headless（由 main.wasm 决定）/ headless is not a windows[] mode (decided by main.wasm)".to_owned());
                } else {
                    return Err(concat2("windows[] mode 非法或重复 / invalid or duplicate windows[] mode: ", mode.as_str()));
                }
            }
        },
        None => {
            let mode = text_or(legacy_mode, "embedded");
            if str_eq(mode.as_str(), "embedded") {
                embedded = Some(ResolvedShape { entry: "index.html".to_owned(), source: ShapeSource::Legacy });
            } else if str_eq(mode.as_str(), "independent") {
                independent = Some(ResolvedShape { entry: "index.html".to_owned(), source: ShapeSource::Legacy });
            }
        },
    }
    if !has_web {
        embedded = None;
        independent = None;
    }
    Ok(Shapes { embedded, independent, headless: has_wasm })
}

// ------------------------------------------------------------------
// Install plan
// ------------------------------------------------------------------

/// The manifest fields the install plan decides on.
#[derive(Debug)]
pub struct ManifestSummary {
    pub id: String,
    pub name: String,
    pub version: String,
    /// `window.mode` of the legacy `window` field.
    pub legacy_mode: Option<String>,
    /// The `windows[]` declarations, when present.
    pub windows: Option<Vec<WindowDecl>>,
}

/// What installing a plugin records.
#[derive(Debug)]
pub struct InstallDecision {
    pub window_mode: String,
    pub web_path: Option<String>,
    pub wasm_path: Option<String>,
    pub shapes: Shapes,
}

pub open spec fn is_mode(m: Seq<char>) -> bool {
    m == "embedded"@ || m == "independent"@ || m == "headless"@
}

/// The install plan's outcome: the checks in order, then the window mode (an
/// explicit legacy mode wins; otherwise embedded, independent, headless in
/// that order of preference among the supported shapes) and the entry paths.
pub open spec fn plan_spec(m: ManifestSummary, has_web: bool, has_wasm: bool) -> Result<(Seq<char>, Option<Seq<char>>, Option<Seq<char>>), Seq<char>> {
    let id = m.id@;
    if !valid_plugin_id(id) {
        Err("插件 id 非法（仅限 [A-Za-z0-9._-]）/ invalid plugin id: "@ + id)
    } else if id.len() >= 2 && id[0] == '_' && id[1] == '_' {
        Err("插件 id 保留（__ 前缀属宿主）/ reserved plugin id: "@ + id)
    } else if trim(m.name@).len() == 0 {
        Err("manifest 缺少 name / manifest is missing name"@)
    } else if trim(m.version@).len() == 0 {
        Err("manifest 缺少 version / manifest is missing version"@)
    } else if m.legacy_mode is Some && !is_mode(m.legacy_mode.unwrap()@) {
        Err("非法 window.mode / invalid window.mode: "@ + m.legacy_mode.unwrap()@)
    } else if !has_web && !has_wasm {
        Err("插件缺少入口（web/index.html 或 main.wasm 至少其一）/ plugin has no entry (web/index.html or main.wasm)"@)
    } else {
        match shapes_spec(match m.windows { Some(ws) => Some(decls_view(ws@)), None => None }, opt_view(m.legacy_mode), has_web, has_wasm) {
            Err(e) => Err(e),
            Ok((emb, ind, headless)) => {
                if emb matches Some(x) && !safe_entry(x.0) {
                    Err("windows[].entry 非法（每段仅限 [A-Za-z0-9._-]）/ invalid windows entry: "@ + emb.unwrap().0)
                } else if ind matches Some(x) && !safe_entry(x.0) {
                    Err("windows[].entry 非法（每段仅限 [A-Za-z0-9._-]）/ invalid windows entry: "@ + ind.unwrap().0)
                } else {
                    let mode = match m.legacy_mode {
                        Some(md) => md@,
                        None => if emb is Some { "embedded"@ } else if ind is Some { "independent"@ } else { "headless"@ },
                    };
                    Ok((
                        mode,
                        if has_web { Some("web/index.html"@) } else { None },
                        if has_wasm { Some("main.wasm"@) } else { None },
                    ))
                }
            },
        }
    }
}

pub open spec fn decision_view(r: Result<InstallDecision, String>) -> Result<(Seq<char>, Option<Seq<char>>, Option<Seq<char>>), Seq<char>> {
    match r {
        Ok(d) => Ok((d.window_mode@, opt_view(d.web_path), opt_view(d.wasm_path))),
        Err(e) => Err(e@),
    }
}

fn is_blank(s: &str) -> (b: bool)
    ensures
        b == (trim(s@).len() == 0),
{
    let v = chars_of(s);
    let (a, b) = trim_range(&v, 0, v.len());
    assert(v@.subrange(0, v@.len() as int) =~= v@);
    a == b
}

/// Validates a manifest and derives the install plan.
pub fn plan_install(manifest: &ManifestSummary, has_web: bool, has_wasm: bool) -> (r: Result<InstallDecision, String>)
    ensures
        decision_view(r) == plan_spec(*manifest, has_web, has_wasm),
        r matches Ok(d) ==> shapes_result_view(Ok(d.shapes)) == shapes_spec(
            match manifest.windows { Some(ws) => Some(decls_view(ws@)), None => None },
            opt_view(manifest.legacy_mode),
            has_web,
            has_wasm,
        ),
{
    proof {
        reveal_strlit("embedded");
        reveal_strlit("independent");
        reveal_strlit("headless");
        reveal_strlit("web/index.html");
        reveal_strlit("main.wasm");
    }
    let id = manifest.id.as_str();
    if !is_valid_plugin_id(id) {
        return Err(concat2("插件 id 非法（仅限 [A-Za-z0-9._-]）/ invalid plugin id: ", id));
    }
    let idv = chars_of(id);
    if idv.len() >= 2 && idv[0] == '_' && idv[1] == '_' {
        return Err(concat2("插件 id 保留（__ 前缀属宿主）/ reserved plugin id: ", id));
    }
    if is_blank(manifest.name.as_str()) {
        return Err("manifest 缺少 name / manifest is missing name".to_owned());
    }
    if is_blank(manifest.version.as_str()) {
        return Err("manifest 缺少 version / manifest is missing version".to_owned());
    }
    match &manifest.legacy_mode {
        Some(md) => {
            if !(str_eq(md.as_str(), "embedded") || str_eq(md.as_str(), "independent") || str_eq(md.as_str(), "headless")) {
                return Err(concat2("非法 window.mode / invalid window.mode: ", md.as_str()));
            }
        },
        None => {},
    }
    if !has_web && !has_wasm {
        return Err("插件缺少入口（web/index.html 或 main.wasm 至少其一）/ plugin has no entry (web/index.html or main.wasm)".to_owned());
    }
    let shapes = match resolve_supported_windows(&manifest.windows, &manifest.legacy_mode, has_web, has_wasm) {
        Ok(s) => s,
        Err(e) => return Err(e),
    };
    match &shapes.embedded {
        Some(x) => {
            if !is_safe_entry(x.entry.as_str()) {
                return Err(concat2("windows[].entry 非法（每段仅限 [A-Za-z0-9._-]）/ invalid windows entry: ", x.entry.as_str()));
            }
        },
        None => {},
    }
    match &shapes.independent {
        Some(x) => {
            if !is_safe_entry(x.entry.as_str()) {
                return Err(concat2("windows[].entry 非法（每段仅限 [A-Za-z0-9._-]）/ invalid windows entry: ", x.entry.as_str()));
            }
        },
        None => {},
    }
    let window_mode = match &manifest.legacy_mode {
        Some(md) => md.clone(),
        None => if shapes.embedded.is_some() {
            "embedded".to_owned()
        } else if shapes.independent.is_some() {
            "independent".to_owned()
        } else {
            "headless".to_owned()
        },
    };
    let web_path = if has_web { Some("web/index.html".to_owned()) } else { None };
    let wasm_path = if has_wasm { Some("main.wasm".to_owned()) } else { None };
    Ok(InstallDecision { window_mode, web_path, wasm_path, shapes })
}

/// The mode an install plan records is always one of the three modes.
pub proof fn lemma_planned_mode_known(m: ManifestSummary, has_web: bool, has_wasm: bool)
    ensures
        plan_spec(m, has_web, has_wasm) matches Ok((mode, _, _)) ==> is_mode(mode),
{
}

} // verus!
