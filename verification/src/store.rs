//! The plugin store: source identifiers, the directory listing, and the
//! checks that guard extracting one plugin's subtree from a repository
//! zipball.
use vstd::prelude::*;
use crate::json::{get_member, member, Json, JsonView};
use crate::order::{lemma_lex_asymmetric, lemma_lex_transitive, lex_lt, string_lt};
use crate::workflow::trigger::{config_str, config_text, text_view};
use crate::text::{
    all_slug, char_is_slug, chars_of, concat2, concat3, find_char, find_in, split_on, str_eq,
    string_from_range, lemma_find_char, lemma_split_on_pieces,
};

verus! {

/// Directories listed from a source at most.
pub const MAX_LISTED_PLUGINS: usize = 60;
/// Zip entries accepted at most.
pub const MAX_ZIP_ENTRIES: usize = 2000;
/// Uncompressed bytes accepted at most (200 MiB).
pub const MAX_ZIP_TOTAL_BYTES: u64 = 209715200;
/// Downloaded bytes accepted at most (100 MiB).
pub const MAX_DOWNLOAD_BYTES: usize = 104857600;

/// A name in the repository alphabet: non-empty `[A-Za-z0-9._-]`, not `.`
/// or `..`.
pub open spec fn valid_name(s: Seq<char>) -> bool {
    s.len() > 0 && s != "."@ && s != ".."@ && all_slug(s)
}

fn name_ok(v: &Vec<char>, lo: usize, hi: usize) -> (b: bool)
    requires
        lo <= hi <= v@.len(),
    ensures
        b == valid_name(v@.subrange(lo as int, hi as int)),
{
    proof {
        reveal_strlit(".");
        reveal_strlit("..");
    }
    let ghost s = v@.subrange(lo as int, hi as int);
    if hi == lo {
        return false;
    }
    assert(s[0] == v@[lo as int]);
    if hi - lo == 1 && v[lo] == '.' {
        assert(s =~= "."@);
        return false;
    }
    if hi - lo == 2 && v[lo] == '.' && v[lo + 1] == '.' {
        assert(s =~= ".."@);
        return false;
    }
    assert("."@.len() == 1 && "."@[0] == '.');
    assert(".."@.len() == 2 && ".."@[0] == '.' && ".."@[1] == '.');
    if hi - lo == 2 {
        assert(s[1] == v@[lo + 1]);
    }
    assert(s != "."@ && s != ".."@);
    let mut i = lo;
    while i < hi
        invariant
            lo <= i <= hi <= v@.len(),
            s == v@.subrange(lo as int, hi as int),
            forall|k: int| lo <= k < i ==> crate::text::is_slug_char(#[trigger] v@[k]),
        decreases hi - i,
    {
        if !char_is_slug(v[i]) {
            assert(s[i - lo] == v@[i as int]);
            return false;
        }
        i = i + 1;
    }
    assert forall|k: int| 0 <= k < s.len() implies crate::text::is_slug_char(#[trigger] s[k]) by {
        assert(s[k] == v@[lo + k]);
    }
    true
}

/// A plugin directory name of a source.
pub fn is_valid_dir_name(name: &str) -> (b: bool)
    ensures
        b == valid_name(name@),
{
    let v = chars_of(name);
    assert(v@.subrange(0, v@.len() as int) =~= v@);
    name_ok(&v, 0, v.len())
}

/// A source repository `owner/name`: exactly one `/`, both parts valid
/// names.
pub open spec fn valid_repo(s: Seq<char>) -> bool {
    split_on(s, '/').len() == 2 && valid_name(split_on(s, '/')[0]) && valid_name(split_on(s, '/')[1])
}

pub fn is_valid_repo(repo: &str) -> (b: bool)
    ensures
        b == valid_repo(repo@),
{
    let v = chars_of(repo);
    let n = v.len();
    let k = find_in(&v, 0, n, '/');
    proof {
        assert(v@.subrange(0, n as int) =~= repo@);
        lemma_find_char(repo@, '/');
    }
    if k >= n {
        assert(split_on(repo@, '/') == seq![repo@]);
        return false;
    }
    let k2 = find_in(&v, k + 1, n, '/');
    proof {
        let rest = repo@.skip(k + 1);
        assert(rest =~= v@.subrange(k + 1, n as int));
        lemma_find_char(rest, '/');
        assert(split_on(repo@, '/') == seq![repo@.take(k as int)].add(split_on(rest, '/')));
        assert(repo@.take(k as int) =~= v@.subrange(0, k as int));
        if k2 < n {
            assert(split_on(rest, '/') == seq![rest.take(k2 - k - 1)].add(split_on(rest.skip(k2 - k), '/')));
            crate::text::lemma_split_on_nonempty(rest.skip(k2 - k), '/');
        } else {
            assert(split_on(rest, '/') == seq![rest]);
        }
    }
    if k2 < n {
        return false;
    }
    name_ok(&v, 0, k) && name_ok(&v, k + 1, n)
}

// ------------------------------------------------------------------
// Zip entry names
// ------------------------------------------------------------------

/// A proper path segment: non-empty, not `.` or `..`.
pub open spec fn proper_segment(s: Seq<char>) -> bool {
    s.len() > 0 && s != "."@ && s != ".."@
}

/// Every segment is proper.
pub open spec fn all_proper(segs: Seq<Seq<char>>) -> bool {
    forall|i: int| 0 <= i < segs.len() ==> proper_segment(#[trigger] segs[i])
}

/// The segments of a zip entry name, when it is safe: no backslash, not
/// absolute, an optional leading `./` dropped, and every `/`-separated
/// segment proper, except that a directory entry may end in `/`.
pub open spec fn zip_segments(name: Seq<char>) -> Option<Seq<Seq<char>>> {
    if name.contains('\\') || (name.len() > 0 && name[0] == '/') {
        None
    } else {
        let t = if name.len() >= 2 && name[0] == '.' && name[1] == '/' { name.skip(2) } else { name };
        let segs = split_on(t, '/');
        if all_proper(segs) {
            Some(segs)
        } else if segs.len() >= 2 && segs.last().len() == 0 && all_proper(segs.drop_last()) {
            Some(segs.drop_last())
        } else {
            None
        }
    }
}

/// A safe entry name extracts below the destination only: every segment is
/// non-empty, neither `.` nor `..`, and free of `/` and `\\`.
pub proof fn lemma_zip_segments_safe(name: Seq<char>)
    ensures
        zip_segments(name) matches Some(segs) ==> forall|i: int| 0 <= i < segs.len() ==> {
            &&& proper_segment(#[trigger] segs[i])
            &&& !segs[i].contains('/')
            &&& !segs[i].contains('\\')
        },
{
    if !name.contains('\\') && !(name.len() > 0 && name[0] == '/') {
        let t = if name.len() >= 2 && name[0] == '.' && name[1] == '/' { name.skip(2) } else { name };
        let pieces = split_on(t, '/');
        lemma_split_on_pieces(t, '/');
        assert(!t.contains('\\')) by {
            if t.contains('\\') {
                let j = choose|j: int| 0 <= j < t.len() && t[j] == '\\';
                if name.len() >= 2 && name[0] == '.' && name[1] == '/' {
                    assert(name[j + 2] == '\\');
                } else {
                    assert(name[j] == '\\');
                }
            }
        }
        match zip_segments(name) {
            None => {},
            Some(segs) => {
                assert forall|i: int| 0 <= i < segs.len() implies {
                    &&& proper_segment(#[trigger] segs[i])
                    &&& !segs[i].contains('/')
                    &&& !segs[i].contains('\\')
                } by {
                    assert(segs[i] == pieces[i]);
                    if pieces[i].contains('\\') {
                        assert(t.contains('\\'));
                    }
                }
            },
        }
    }
}

fn proper_ok(v: &Vec<char>, lo: usize, hi: usize) -> (b: bool)
    requires
        lo <= hi <= v@.len(),
    ensures
        b == proper_segment(v@.subrange(lo as int, hi as int)),
{
    proof {
        reveal_strlit(".");
        reveal_strlit("..");
    }
    let ghost s = v@.subrange(lo as int, hi as int);
    if hi == lo {
        return false;
    }
    assert(s[0] == v@[lo as int]);
    if hi - lo == 1 && v[lo] == '.' {
        assert(s =~= "."@);
        return false;
    }
    if hi - lo == 2 && v[lo] == '.' && v[lo + 1] == '.' {
        assert(s =~= ".."@);
        return false;
    }
    assert("."@.len() == 1 && "."@[0] == '.');
    assert(".."@.len() == 2 && ".."@[0] == '.' && ".."@[1] == '.');
    if hi - lo == 2 {
        assert(s[1] == v@[lo + 1]);
    }
    true
}

/// The segments of `v[lo..n]` split at `/`, with whether each is proper.
fn split_checked(v: &Vec<char>, lo: usize) -> (r: (Vec<String>, Vec<bool>))
    requires
        lo <= v@.len(),
    ensures
        crate::order::views(r.0@) == split_on(v@.subrange(lo as int, v@.len() as int), '/'),
        r.1@.len() == r.0@.len(),
        forall|i: int| 0 <= i < r.1@.len() ==> r.1@[i] == proper_segment(#[trigger] r.0@[i]@),
{
    let n = v.len();
    let mut segs: Vec<String> = Vec::new();
    let mut oks: Vec<bool> = Vec::new();
    let mut p = lo;
    loop
        invariant
            n == v@.len(),
            lo <= p <= n,
            split_on(v@.subrange(lo as int, n as int), '/') == crate::order::views(segs@) + split_on(v@.subrange(p as int, n as int), '/'),
            oks@.len() == segs@.len(),
            forall|i: int| 0 <= i < oks@.len() ==> oks@[i] == proper_segment(#[trigger] segs@[i]@),
        decreases n - p,
    {
        let k = find_in(v, p, n, '/');
        let ghost sub = v@.subrange(p as int, n as int);
        proof {
            lemma_find_char(sub, '/');
            assert(sub.take(k - p) =~= v@.subrange(p as int, k as int));
        }
        let ghost before = crate::order::views(segs@);
        let ok = proper_ok(v, p, k);
        segs.push(string_from_range(v, p, k));
        oks.push(ok);
        assert(crate::order::views(segs@) =~= before.push(v@.subrange(p as int, k as int)));
        if k >= n {
            proof {
                assert(split_on(sub, '/') == seq![sub]);
                assert(sub =~= v@.subrange(p as int, k as int));
                assert(before + seq![sub] =~= before.push(sub));
            }
            return (segs, oks);
        }
        proof {
            let rest = v@.subrange(k + 1, n as int);
            assert(sub.skip(k - p + 1) =~= rest);
            assert(split_on(sub, '/') == seq![sub.take(k - p)].add(split_on(rest, '/')));
            assert(before + (seq![v@.subrange(p as int, k as int)] + split_on(rest, '/')) =~= crate::order::views(segs@) + split_on(rest, '/'));
        }
        p = k + 1;
    }
}

/// The safe segments of a zip entry name (see `zip_segments`).
pub fn safe_zip_segments(name: &str) -> (r: Option<Vec<String>>)
    ensures
        match r {
            Some(s) => zip_segments(name@) == Some(crate::order::views(s@)),
            None => zip_segments(name@) is None,
        },
{
    let v = chars_of(name);
    let n = v.len();
    let back = find_in(&v, 0, n, '\\');
    proof {
        assert(v@.subrange(0, n as int) =~= name@);
        crate::text::lemma_find_char_contains(name@, '\\');
    }
    if back < n || (n > 0 && v[0] == '/') {
        return None;
    }
    let lo: usize = if n >= 2 && v[0] == '.' && v[1] == '/' { 2 } else { 0 };
    assert(v@.subrange(lo as int, n as int) =~= if name@.len() >= 2 && name@[0] == '.' && name@[1] == '/' { name@.skip(2) } else { name@ });
    let (mut segs, oks) = split_checked(&v, lo);
    let ghost sv = crate::order::views(segs@);
    let m = segs.len();
    let mut all = true;
    let mut all_but_last = true;
    for i in 0..m
        invariant
            m == segs@.len(),
            m == oks@.len(),
            sv == crate::order::views(segs@),
            forall|j: int| 0 <= j < oks@.len() ==> oks@[j] == proper_segment(#[trigger] segs@[j]@),
            all == forall|j: int| 0 <= j < i ==> proper_segment(#[trigger] sv[j]),
            all_but_last == forall|j: int| 0 <= j < i && j < m - 1 ==> proper_segment(#[trigger] sv[j]),
    {
        assert(sv[i as int] == segs@[i as int]@);
        if !oks[i] {
            all = false;
            if i + 1 < m {
                all_but_last = false;
            }
        }
    }
    if all {
        return Some(segs);
    }
    proof {
        reveal_strlit("");
    }
    if m >= 2 && str_eq(segs[m - 1].as_str(), "") && all_but_last {
        let ghost before = sv;
        proof {
            assert(sv.last() == segs@[m - 1]@);
            assert(sv.last().len() == 0);
            assert(!(forall|j: int| 0 <= j < sv.len() ==> proper_segment(#[trigger] sv[j])));
            let t = if name@.len() >= 2 && name@[0] == '.' && name@[1] == '/' { name@.skip(2) } else { name@ };
            assert(split_on(t, '/') == sv);
            assert(!name@.contains('\\'));
            assert(!(name@.len() > 0 && name@[0] == '/'));
            assert(sv.len() >= 2);
            assert(all_proper(sv.drop_last())) by {
                assert forall|j: int| 0 <= j < sv.drop_last().len() implies proper_segment(#[trigger] sv.drop_last()[j]) by {
                    assert(sv.drop_last()[j] == sv[j]);
                }
            }
            assert(zip_segments(name@) == Some(sv.drop_last()));
        }
        segs.pop();
        assert(crate::order::views(segs@) =~= before.drop_last());
        return Some(segs);
    }
    proof {
        let t = if name@.len() >= 2 && name@[0] == '.' && name@[1] == '/' { name@.skip(2) } else { name@ };
        assert(split_on(t, '/') == sv);
        assert(!all_proper(sv));
        if m >= 2 {
            assert(sv.last() == segs@[m - 1]@);
            if sv.last().len() == 0 {
                assert(segs@[m - 1]@ =~= ""@);
                assert(!all_but_last);
                let j = choose|j: int| 0 <= j < m - 1 && !proper_segment(#[trigger] sv[j]);
                assert(sv.drop_last()[j] == sv[j]);
                assert(!all_proper(sv.drop_last()));
            }
        }
    }
    None
}

// ------------------------------------------------------------------
// Extraction
// ------------------------------------------------------------------

/// Refuses a source that is not `owner/repo`.
pub fn check_repo(repo: &str) -> (r: Result<(), String>)
    ensures
        r is Ok <==> valid_repo(repo@),
        r matches Err(e) ==> e@ == "InvalidRepo: "@ + repo@,
{
    if is_valid_repo(repo) {
        Ok(())
    } else {
        Err(concat2("InvalidRepo: ", repo))
    }
}

/// Refuses a plugin directory name that is not a plain name.
pub fn check_dir(dir: &str) -> (r: Result<(), String>)
    ensures
        r is Ok <==> valid_name(dir@),
        r matches Err(e) ==> e@ == "InvalidDir: "@ + dir@,
{
    if is_valid_dir_name(dir) {
        Ok(())
    } else {
        Err(concat2("InvalidDir: ", dir))
    }
}

/// The root prefix every entry of a repository zipball sits under: the first
/// entry's first segment and a `/`.
pub open spec fn root_prefix_of(first: Seq<char>) -> Option<Seq<char>> {
    let k = find_char(first, '/');
    if k > 0 { Some(first.take(k) + "/"@) } else { None }
}

pub fn zip_root_prefix(first_name: &str) -> (r: Result<String, String>)
    ensures
        match root_prefix_of(first_name@) {
            Some(p) => r matches Ok(s) && s@ == p,
            None => r matches Err(e) && e@ == "HttpError: zipball has no root prefix"@,
        },
{
    let v = chars_of(first_name);
    let n = v.len();
    let k = find_in(&v, 0, n, '/');
    assert(v@.subrange(0, n as int) =~= first_name@);
    if k == 0 {
        return Err("HttpError: zipball has no root prefix".to_owned());
    }
    let head = string_from_range(&v, 0, k);
    assert(first_name@.take(k as int) =~= head@);
    Ok(concat2(head.as_str(), "/"))
}

/// What to do with one zip entry.
#[derive(Debug)]
pub enum EntryAction {
    /// Stop: the archive is refused with this error.
    Reject(String),
    /// Not part of the plugin's subtree.
    Skip,
    /// The subtree's own directory entry.
    SubtreeRoot,
    /// Extract to these segments below the destination.
    Extract(Vec<String>),
}

/// Whether `s` starts with `p`.
pub open spec fn starts_with(s: Seq<char>, p: Seq<char>) -> bool {
    p.len() <= s.len() && s.take(p.len() as int) == p
}

/// Regular files and directories only: the Unix file type bits of a mode.
pub open spec fn is_symlink_mode(mode: u32) -> bool {
    (mode & 0o170000) == 0o120000
}

/// The decision for one entry (before its size is counted): an unsafe name
/// or a symlink refuses the archive; entries outside `subtree` are skipped;
/// the subtree's root entry is noted; anything else must also be safe below
/// the subtree.
pub open spec fn entry_action_spec(name: Seq<char>, unix_mode: Option<u32>, subtree: Seq<char>) -> (int, Option<Seq<Seq<char>>>) {
    if zip_segments(name) is None {
        (0, None)
    } else if unix_mode matches Some(m) && is_symlink_mode(m) {
        (1, None)
    } else if !starts_with(name, subtree) {
        (2, None)
    } else if name.len() == subtree.len() {
        (3, None)
    } else {
        match zip_segments(name.skip(subtree.len() as int)) {
            None => (0, None),
            Some(segs) => (4, Some(segs)),
        }
    }
}

/// Decides what to do with one zip entry of the archive for `subtree`
/// (`<root prefix><dir>/`).
pub fn plan_entry(name: &str, unix_mode: Option<u32>, subtree: &str) -> (r: EntryAction)
    ensures
        ({
            let (code, segs) = entry_action_spec(name@, unix_mode, subtree@);
            match r {
                EntryAction::Reject(e) => (code == 0 && e@ == "HttpError: unsafe zip entry name: "@ + name@)
                    || (code == 1 && e@ == "HttpError: symlink zip entry: "@ + name@),
                EntryAction::Skip => code == 2,
                EntryAction::SubtreeRoot => code == 3,
                EntryAction::Extract(s) => code == 4 && segs == Some(crate::order::views(s@)),
            }
        }),
{
    if safe_zip_segments(name).is_none() {
        return EntryAction::Reject(concat2("HttpError: unsafe zip entry name: ", name));
    }
    match unix_mode {
        Some(mode) => {
            if mode & 0o170000 == 0o120000 {
                return EntryAction::Reject(concat2("HttpError: symlink zip entry: ", name));
            }
        },
        None => {},
    }
    let v = chars_of(name);
    let p = chars_of(subtree);
    let n = v.len();
    let m = p.len();
    if m > n {
        return EntryAction::Skip;
    }
    let mut i: usize = 0;
    while i < m
        invariant
            m <= n,
            n == v@.len(),
            m == p@.len(),
            v@ == name@,
            p@ == subtree@,
            zip_segments(name@) is Some,
            !(unix_mode matches Some(md) && is_symlink_mode(md)),
            i <= m,
            forall|j: int| 0 <= j < i ==> v@[j] == p@[j],
        decreases m - i,
    {
        if v[i] != p[i] {
            assert(name@.take(m as int)[i as int] != subtree@[i as int]);
            return EntryAction::Skip;
        }
        i = i + 1;
    }
    assert(name@.take(m as int) =~= subtree@);
    if n == m {
        return EntryAction::SubtreeRoot;
    }
    let rel = string_from_range(&v, m, n);
    assert(rel@ =~= name@.skip(m as int));
    match safe_zip_segments(rel.as_str()) {
        None => EntryAction::Reject(concat2("HttpError: unsafe zip entry name: ", name)),
        Some(segs) => EntryAction::Extract(segs),
    }
}

/// Counts an extracted entry's size: refused once the total passes the cap.
pub fn add_entry_size(total: u64, size: u64) -> (r: Result<u64, String>)
    ensures
        total + size <= MAX_ZIP_TOTAL_BYTES ==> r == Ok::<u64, String>((total + size) as u64),
        total + size > MAX_ZIP_TOTAL_BYTES ==> (r matches Err(e) && e@ == "HttpError: zipball exceeds the size cap (200 MiB)"@),
{
    if size > MAX_ZIP_TOTAL_BYTES || total > MAX_ZIP_TOTAL_BYTES - size {
        Err("HttpError: zipball exceeds the size cap (200 MiB)".to_owned())
    } else {
        Ok(total + size)
    }
}

/// The archive may hold at most 2000 entries.
pub fn check_entry_count(count: usize) -> (r: Result<(), String>)
    ensures
        r is Ok <==> count <= MAX_ZIP_ENTRIES,
        r matches Err(e) ==> e@ == "HttpError: zipball exceeds the entry cap (2000)"@,
{
    if count > MAX_ZIP_ENTRIES {
        Err("HttpError: zipball exceeds the entry cap (2000)".to_owned())
    } else {
        Ok(())
    }
}

/// The plugin must have been found in the archive.
pub fn check_matched(matched: bool, dir: &str) -> (r: Result<(), String>)
    ensures
        r is Ok <==> matched,
        r matches Err(e) ==> e@ == "UnknownPlugin: no '"@ + dir@ + "' directory in the zipball"@,
{
    if matched {
        Ok(())
    } else {
        Err(concat3("UnknownPlugin: no '", dir, "' directory in the zipball"))
    }
}

// ------------------------------------------------------------------
// Listing
// ------------------------------------------------------------------

/// Whether a listing item is a directory with a valid name, and that name.
pub open spec fn listed_dir(item: JsonView) -> Option<Seq<char>> {
    match (member(item, "type"@), member(item, "name"@)) {
        (Some(JsonView::Str(t)), Some(JsonView::Str(n))) => if t == "dir"@ && valid_name(n) { Some(n) } else { None },
        _ => None,
    }
}

/// The directories of a contents listing, in listing order.
pub open spec fn listed_dirs(items: Seq<JsonView>) -> Seq<Seq<char>>
    decreases items.len(),
{
    if items.len() == 0 {
        Seq::empty()
    } else {
        match listed_dir(items[0]) {
            Some(n) => seq![n] + listed_dirs(items.drop_first()),
            None => listed_dirs(items.drop_first()),
        }
    }
}

/// The plugin directories of a source listing: directory items with valid
/// names, in order, at most 60; nothing when the listing is not an array.
pub fn store_dirs(listing: &Json) -> (r: Vec<String>)
    ensures
        crate::order::views(r@) == match listing@ {
            JsonView::Array(items) => {
                let d = listed_dirs(items);
                if d.len() <= 60 { d } else { d.take(60) }
            },
            _ => Seq::empty(),
        },
{
    proof {
        reveal_strlit("type");
        reveal_strlit("name");
        reveal_strlit("dir");
    }
    let mut out: Vec<String> = Vec::new();
    match listing {
        Json::Array(items) => {
            let ghost iv = listing@->Array_0;
            let n = items.len();
            assert(iv.skip(0) =~= iv);
            for i in 0..n
                invariant
                    n == items@.len(),
                    iv.len() == n,
                    *listing == Json::Array(*items),
                    iv == listing@->Array_0,
                    forall|k: int| 0 <= k < n ==> #[trigger] iv[k] == items@[k]@,
                    listed_dirs(iv) == crate::order::views(out@) + listed_dirs(iv.skip(i as int)),
            {
                assert(iv.skip(i as int)[0] == iv[i as int]);
                assert(iv.skip(i as int).drop_first() =~= iv.skip(i + 1));
                let ghost before = crate::order::views(out@);
                let t = get_member(&items[i], "type");
                let nm = get_member(&items[i], "name");
                match (t, nm) {
                    (Some(Json::Str(t)), Some(Json::Str(nm))) => {
                        if str_eq(t.as_str(), "dir") && is_valid_dir_name(nm.as_str()) {
                            out.push(nm);
                            assert(crate::order::views(out@) =~= before.push(listed_dir(iv[i as int]).unwrap()));
                            assert(before + (seq![listed_dir(iv[i as int]).unwrap()] + listed_dirs(iv.skip(i + 1))) =~= crate::order::views(out@) + listed_dirs(iv.skip(i + 1)));
                        }
                    },
                    _ => {},
                }
            }
            assert(iv.skip(n as int) =~= Seq::<JsonView>::empty());
            assert(crate::order::views(out@) + Seq::<Seq<char>>::empty() =~= crate::order::views(out@));
            if out.len() > MAX_LISTED_PLUGINS {
                out.truncate(MAX_LISTED_PLUGINS);
                assert(crate::order::views(out@) =~= listed_dirs(iv).take(60));
            }
            out
        },
        _ => out,
    }
}

/// One plugin of a store listing, read from its directory's manifest.
pub struct StoreEntry {
    pub dir: String,
    pub id: String,
    pub name: String,
    pub version: String,
    pub author: Option<String>,
    pub description: Option<String>,
    pub category: Option<String>,
}

/// The listing entry of directory `dir` whose manifest is `manifest`: none
/// without a string `id`; the name defaults to the id, the version to `?`.
pub open spec fn entry_of(dir: Seq<char>, manifest: JsonView, e: StoreEntry) -> bool {
    match config_text(manifest, "id"@) {
        None => false,
        Some(id) => {
            &&& e.dir@ == dir
            &&& e.id@ == id
            &&& e.name@ == (match config_text(manifest, "name"@) { Some(n) => n, None => id })
            &&& e.version@ == (match config_text(manifest, "version"@) { Some(v) => v, None => "?"@ })
            &&& text_view(e.author) == config_text(manifest, "author"@)
            &&& text_view(e.description) == config_text(manifest, "description"@)
            &&& text_view(e.category) == config_text(manifest, "category"@)
        },
    }
}

/// Reads the listing entry of one plugin directory from its manifest; a
/// manifest without a string `id` (or one that could not be fetched, `null`)
/// gives none.
pub fn store_entry(dir: String, manifest: &Json) -> (r: Option<StoreEntry>)
    ensures
        r is None <==> config_text(manifest@, "id"@) is None,
        r matches Some(e) ==> entry_of(dir@, manifest@, e),
{
    let id = match config_str(manifest, "id") {
        Some(id) => id,
        None => return None,
    };
    let name = match config_str(manifest, "name") {
        Some(n) => n,
        None => id.clone(),
    };
    let version = match config_str(manifest, "version") {
        Some(v) => v,
        None => "?".to_owned(),
    };
    let author = config_str(manifest, "author");
    let description = config_str(manifest, "description");
    let category = config_str(manifest, "category");
    Some(StoreEntry { dir, id, name, version, author, description, category })
}

/// Ordered by name: no entry's name sorts before an earlier one's.
pub open spec fn sorted_by_name(s: Seq<StoreEntry>) -> bool {
    forall|i: int, j: int| 0 <= i < j < s.len() ==> !lex_lt(#[trigger] s[j].name@, #[trigger] s[i].name@)
}

/// Orders listing entries by name (entries with equal names in any order).
pub fn sort_store_entries(v: Vec<StoreEntry>) -> (out: Vec<StoreEntry>)
    ensures
        sorted_by_name(out@),
        out@.to_multiset() == v@.to_multiset(),
{
    let mut rest = v;
    let ghost mut taken: Seq<StoreEntry> = Seq::empty();
    let mut out: Vec<StoreEntry> = Vec::new();
    let ghost whole = rest@;
    while rest.len() > 0
        invariant
            sorted_by_name(out@),
            out@.to_multiset() == taken.to_multiset(),
            whole == taken + rest@,
        decreases rest.len(),
    {
        let ghost before = rest@;
        let x = rest.remove(0);
        let ghost old_out = out@;
        let ghost old_taken = taken;
        let mut p: usize = 0;
        while p < out.len() && !string_lt(&x.name, &out[p].name)
            invariant
                p <= out@.len(),
                out@ == old_out,
                forall|q: int| 0 <= q < p ==> !lex_lt(x.name@, #[trigger] old_out[q].name@),
            decreases out.len() - p,
        {
            p = p + 1;
        }
        let ghost xv = x;
        out.insert(p, x);
        proof {
            let nw = out@;
            assert(nw =~= old_out.insert(p as int, xv));
            assert forall|a: int, b: int| 0 <= a < b < nw.len() implies !lex_lt(#[trigger] nw[b].name@, #[trigger] nw[a].name@) by {
                if b < p {
                    assert(nw[a] == old_out[a] && nw[b] == old_out[b]);
                } else if b == p {
                    assert(nw[a] == old_out[a]);
                } else if a == p {
                    assert(lex_lt(xv.name@, old_out[p as int].name@));
                    assert(nw[b] == old_out[b - 1]);
                    if lex_lt(old_out[b - 1].name@, xv.name@) {
                        if b - 1 == p {
                            lemma_lex_asymmetric(xv.name@, old_out[p as int].name@);
                        } else {
                            lemma_lex_transitive(old_out[b - 1].name@, xv.name@, old_out[p as int].name@);
                        }
                    }
                } else if a < p {
                    assert(nw[a] == old_out[a] && nw[b] == old_out[b - 1]);
                } else {
                    assert(nw[a] == old_out[a - 1] && nw[b] == old_out[b - 1]);
                }
            }
        }
        proof {
            assert(before =~= seq![xv] + rest@);
            taken = taken.push(xv);
            assert(whole =~= taken + rest@);
            vstd::seq_lib::to_multiset_build(old_taken, xv);
            vstd::seq_lib::to_multiset_insert(old_out, p as int, xv);
            assert(out@ == old_out.insert(p as int, xv));
        }
    }
    proof {
        assert(whole =~= taken);
    }
    out
}

} // verus!
