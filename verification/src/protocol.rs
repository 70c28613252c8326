//! The `kapi-plugin://` asset protocol: request-path decoding with lexical
//! safety checks, the request routing, and content types.
use vstd::prelude::*;
use vstd::utf8::{decode_utf8, encode_utf8, valid_utf8};
use crate::text::{
    all_slug, char_is_slug, chars_of, find_char, find_in, split_on, str_eq, string_from_range,
    lemma_find_char, lemma_split_on_pieces,
};

verus! {

/// The protocol's scheme name.
pub const SCHEME: &'static str = "kapi-plugin";

/// Why a request path is refused.
#[derive(Debug, Clone, Copy, PartialEq, Eq, Structural)]
pub enum ProtocolError {
    /// The request itself is invalid (traversal, bad charset, bad escape): 403.
    Forbidden,
    /// Nothing is asked for: 404.
    NotFound,
}

/// A plugin id: `[A-Za-z0-9._-]+`, but not `.` or `..`.
pub open spec fn valid_plugin_id(s: Seq<char>) -> bool {
    s.len() > 0 && s != "."@ && s != ".."@ && all_slug(s)
}

/// Whether `id` is a valid plugin id (shared by the protocol and install).
pub fn is_valid_plugin_id(id: &str) -> (b: bool)
    ensures
        b == valid_plugin_id(id@),
{
    proof {
        reveal_strlit(".");
        reveal_strlit("..");
    }
    let v = chars_of(id);
    let n = v.len();
    if n == 0 || str_eq(id, ".") || str_eq(id, "..") {
        return false;
    }
    for i in 0..n
        invariant
            n == v@.len(),
            v@ == id@,
            forall|k: int| 0 <= k < i ==> crate::text::is_slug_char(#[trigger] v@[k]),
    {
        if !char_is_slug(v[i]) {
            return false;
        }
    }
    true
}

/// The value of a hexadecimal digit byte.
pub open spec fn hex_value(b: u8) -> Option<u8> {
    if 48 <= b <= 57 {
        Some((b - 48) as u8)
    } else if 97 <= b <= 102 {
        Some((b - 97 + 10) as u8)
    } else if 65 <= b <= 70 {
        Some((b - 65 + 10) as u8)
    } else {
        None
    }
}

pub fn hex_val(b: u8) -> (r: Option<u8>)
    ensures
        r == hex_value(b),
{
    if b >= 48 && b <= 57 {
        Some(b - 48)
    } else if b >= 97 && b <= 102 {
        Some(b - 97 + 10)
    } else if b >= 65 && b <= 70 {
        Some(b - 65 + 10)
    } else {
        None
    }
}

/// Percent-decoding: `%XX` becomes the byte `XX`; a `%` not followed by two
/// hexadecimal digits makes the whole input invalid.
pub open spec fn percent_decoded(bs: Seq<u8>) -> Option<Seq<u8>>
    decreases bs.len(),
{
    if bs.len() == 0 {
        Some(Seq::empty())
    } else if bs[0] == 37 {
        if bs.len() < 3 {
            None
        } else {
            match (hex_value(bs[1]), hex_value(bs[2])) {
                (Some(hi), Some(lo)) => match percent_decoded(bs.skip(3)) {
                    Some(rest) => Some(seq![(hi * 16 + lo) as u8] + rest),
                    None => None,
                },
                _ => None,
            }
        }
    } else {
        match percent_decoded(bs.drop_first()) {
            Some(rest) => Some(seq![bs[0]] + rest),
            None => None,
        }
    }
}

pub open spec fn prepend_bytes(done: Seq<u8>, rest: Option<Seq<u8>>) -> Option<Seq<u8>> {
    match rest {
        Some(r) => Some(done + r),
        None => None,
    }
}

/// Percent-decodes the UTF-8 bytes of `input`.
pub fn percent_decode(input: &str) -> (r: Result<Vec<u8>, ProtocolError>)
    ensures
        match r {
            Ok(v) => percent_decoded(encode_utf8(input@)) == Some(v@),
            Err(e) => e == ProtocolError::Forbidden && percent_decoded(encode_utf8(input@)) is None,
        },
{
    let bytes = input.as_bytes();
    let ghost bs = bytes@;
    assert(bs == encode_utf8(input@));
    let n = bytes.len();
    let mut out: Vec<u8> = Vec::new();
    let mut i: usize = 0;
    assert(bs.skip(0) =~= bs);
    while i < n
        invariant
            n == bs.len(),
            bytes@ == bs,
            bs == encode_utf8(input@),
            i <= n,
            percent_decoded(bs) == prepend_bytes(out@, percent_decoded(bs.skip(i as int))),
        decreases n - i,
    {
        let ghost rest = bs.skip(i as int);
        assert(rest[0] == bs[i as int]);
        if bytes[i] == 37 {
            if n - i < 3 {
                return Err(ProtocolError::Forbidden);
            }
            assert(rest[1] == bs[i + 1] && rest[2] == bs[i + 2]);
            let hi = match hex_val(bytes[i + 1]) {
                Some(h) => h,
                None => return Err(ProtocolError::Forbidden),
            };
            let lo = match hex_val(bytes[i + 2]) {
                Some(l) => l,
                None => return Err(ProtocolError::Forbidden),
            };
            let ghost before = out@;
            out.push(hi * 16 + lo);
            assert(rest.skip(3) =~= bs.skip(i + 3));
            proof {
                match percent_decoded(bs.skip(i + 3)) {
                    Some(r) => {
                        assert(before + (seq![(hi * 16 + lo) as u8] + r) =~= out@ + r);
                    },
                    None => {},
                }
            }
            i = i + 3;
        } else {
            let ghost before = out@;
            out.push(bytes[i]);
            assert(rest.drop_first() =~= bs.skip(i + 1));
            proof {
                match percent_decoded(bs.skip(i + 1)) {
                    Some(r) => {
                        assert(before + (seq![bs[i as int]] + r) =~= out@ + r);
                    },
                    None => {},
                }
            }
            i = i + 1;
        }
    }
    assert(bs.skip(n as int) =~= Seq::<u8>::empty());
    assert(out@ + Seq::<u8>::empty() =~= out@);
    Ok(out)
}

/// Decodes UTF-8 bytes into a string (`String::from_utf8`): the bytes when
/// they are valid UTF-8, nothing otherwise.
#[verifier::external_body]
fn utf8_string(bytes: Vec<u8>) -> (r: Option<String>)
    ensures
        r is Some <==> valid_utf8(bytes@),
        r matches Some(s) ==> s@ == decode_utf8(bytes@),
{
    String::from_utf8(bytes).ok()
}

/// The non-empty parts, in order.
pub open spec fn keep_nonempty(p: Seq<Seq<char>>) -> Seq<Seq<char>>
    decreases p.len(),
{
    if p.len() == 0 {
        Seq::empty()
    } else if p[0].len() > 0 {
        seq![p[0]] + keep_nonempty(p.drop_first())
    } else {
        keep_nonempty(p.drop_first())
    }
}

/// The path below the plugin id: `..` anywhere refuses the request, `.` is
/// dropped.
pub open spec fn rel_segments(segs: Seq<Seq<char>>) -> Option<Seq<Seq<char>>>
    decreases segs.len(),
{
    if segs.len() == 0 {
        Some(Seq::empty())
    } else if segs[0] == ".."@ {
        None
    } else {
        match rel_segments(segs.drop_first()) {
            None => None,
            Some(rest) => if segs[0] == "."@ { Some(rest) } else { Some(seq![segs[0]] + rest) },
        }
    }
}

/// The plugin id and the path segments under its `web/` directory that a
/// request path names.
pub open spec fn request_path_spec(uri: Seq<char>) -> Result<(Seq<char>, Seq<Seq<char>>), ProtocolError> {
    match percent_decoded(encode_utf8(uri)) {
        None => Err(ProtocolError::Forbidden),
        Some(bs) => if !valid_utf8(bs) {
            Err(ProtocolError::Forbidden)
        } else {
            let s = decode_utf8(bs);
            if s.contains('\\') {
                Err(ProtocolError::Forbidden)
            } else {
                let segs = keep_nonempty(split_on(s, '/'));
                if segs.len() == 0 {
                    Err(ProtocolError::NotFound)
                } else if !valid_plugin_id(segs[0]) {
                    Err(ProtocolError::Forbidden)
                } else {
                    match rel_segments(segs.drop_first()) {
                        None => Err(ProtocolError::Forbidden),
                        Some(rel) => Ok((segs[0], if rel.len() == 0 { seq!["index.html"@] } else { rel })),
                    }
                }
            }
        },
    }
}

pub open spec fn request_result_view(r: Result<(String, Vec<String>), ProtocolError>) -> Result<(Seq<char>, Seq<Seq<char>>), ProtocolError> {
    match r {
        Ok((id, rel)) => Ok((id@, crate::order::views(rel@))),
        Err(e) => Err(e),
    }
}

proof fn lemma_split_step(t: Seq<char>)
    ensures
        find_char(t, '/') >= t.len() ==> split_on(t, '/') == seq![t],
        find_char(t, '/') < t.len() ==> split_on(t, '/') == seq![t.take(find_char(t, '/'))].add(split_on(t.skip(find_char(t, '/') + 1), '/')),
{
}

proof fn lemma_keep_nonempty_cons(x: Seq<char>, rest: Seq<Seq<char>>)
    ensures
        keep_nonempty(seq![x].add(rest)) == if x.len() > 0 { seq![x] + keep_nonempty(rest) } else { keep_nonempty(rest) },
{
    let p = seq![x].add(rest);
    assert(p[0] == x);
    assert(p.drop_first() =~= rest);
}

/// Every part kept is non-empty and one of the parts.
proof fn lemma_keep_nonempty_parts(p: Seq<Seq<char>>)
    ensures
        forall|j: int| 0 <= j < keep_nonempty(p).len() ==> (#[trigger] keep_nonempty(p)[j]).len() > 0 && p.contains(keep_nonempty(p)[j]),
    decreases p.len(),
{
    if p.len() > 0 {
        let t = p.drop_first();
        lemma_keep_nonempty_parts(t);
        let r = keep_nonempty(t);
        let k = keep_nonempty(p);
        assert forall|j: int| 0 <= j < k.len() implies (#[trigger] k[j]).len() > 0 && p.contains(k[j]) by {
            if p[0].len() > 0 {
                assert(k == seq![p[0]] + r);
                if j == 0 {
                    assert(p[0] == k[0]);
                } else {
                    assert(k[j] == r[j - 1]);
                    let m = choose|m: int| 0 <= m < t.len() && t[m] == r[j - 1];
                    assert(p[m + 1] == k[j]);
                }
            } else {
                assert(k == r);
                let m = choose|m: int| 0 <= m < t.len() && t[m] == r[j];
                assert(p[m + 1] == k[j]);
            }
        }
    }
}

/// The segments kept below the plugin id are among the given ones, and none
/// is `.` or `..`.
proof fn lemma_rel_segments_parts(segs: Seq<Seq<char>>)
    ensures
        rel_segments(segs) matches Some(rel) ==> forall|j: int| 0 <= j < rel.len() ==> segs.contains(#[trigger] rel[j]) && rel[j] != "."@ && rel[j] != ".."@,
    decreases segs.len(),
{
    if segs.len() > 0 && segs[0] != ".."@ {
        let t = segs.drop_first();
        lemma_rel_segments_parts(t);
        match rel_segments(t) {
            None => {},
            Some(rest) => {
                let rel = rel_segments(segs).unwrap();
                assert forall|j: int| 0 <= j < rel.len() implies segs.contains(#[trigger] rel[j]) && rel[j] != "."@ && rel[j] != ".."@ by {
                    if segs[0] == "."@ {
                        assert(rel == rest);
                        let m = choose|m: int| 0 <= m < t.len() && t[m] == rest[j];
                        assert(segs[m + 1] == rel[j]);
                    } else {
                        assert(rel == seq![segs[0]] + rest);
                        if j == 0 {
                            assert(segs[0] == rel[0]);
                        } else {
                            assert(rel[j] == rest[j - 1]);
                            let m = choose|m: int| 0 <= m < t.len() && t[m] == rest[j - 1];
                            assert(segs[m + 1] == rel[j]);
                        }
                    }
                }
            },
        }
    }
}

proof fn lemma_keep_nonempty_keeps(p: Seq<Seq<char>>, i: int)
    requires
        0 <= i < p.len(),
        p[i].len() > 0,
    ensures
        keep_nonempty(p).contains(p[i]),
    decreases p.len(),
{
    if i == 0 {
        assert(keep_nonempty(p)[0] == p[0]);
    } else {
        lemma_keep_nonempty_keeps(p.drop_first(), i - 1);
        let k = choose|k: int| 0 <= k < keep_nonempty(p.drop_first()).len() && keep_nonempty(p.drop_first())[k] == p[i];
        if p[0].len() > 0 {
            assert(keep_nonempty(p)[k + 1] == p[i]);
        }
    }
}

proof fn lemma_rel_segments_refuses_parent(segs: Seq<Seq<char>>)
    requires
        segs.contains(".."@),
    ensures
        rel_segments(segs) is None,
    decreases segs.len(),
{
    if segs[0] != ".."@ {
        let k = choose|k: int| 0 <= k < segs.len() && segs[k] == ".."@;
        assert(segs.drop_first()[k - 1] == ".."@);
        lemma_rel_segments_refuses_parent(segs.drop_first());
    }
}

/// A request path is refused as forbidden when it has a malformed `%XX`
/// escape, when its decoded bytes are not UTF-8, when the decoded path holds
/// a backslash, or when any of its `/`-separated segments is `..`.
pub proof fn lemma_request_refusals(uri: Seq<char>)
    ensures
        percent_decoded(encode_utf8(uri)) is None ==> request_path_spec(uri) == Err::<(Seq<char>, Seq<Seq<char>>), ProtocolError>(ProtocolError::Forbidden),
        percent_decoded(encode_utf8(uri)) matches Some(bs) ==> {
            &&& !valid_utf8(bs) ==> request_path_spec(uri) == Err::<(Seq<char>, Seq<Seq<char>>), ProtocolError>(ProtocolError::Forbidden)
            &&& valid_utf8(bs) && decode_utf8(bs).contains('\\') ==> request_path_spec(uri) == Err::<(Seq<char>, Seq<Seq<char>>), ProtocolError>(ProtocolError::Forbidden)
            &&& valid_utf8(bs) && split_on(decode_utf8(bs), '/').contains(".."@) ==> request_path_spec(uri) == Err::<(Seq<char>, Seq<Seq<char>>), ProtocolError>(ProtocolError::Forbidden)
        },
{
    reveal_strlit("..");
    reveal_strlit(".");
    match percent_decoded(encode_utf8(uri)) {
        None => {},
        Some(bs) => {
            let s = decode_utf8(bs);
            let pieces = split_on(s, '/');
            if valid_utf8(bs) && !s.contains('\\') && pieces.contains(".."@) {
                let i = choose|i: int| 0 <= i < pieces.len() && pieces[i] == ".."@;
                lemma_keep_nonempty_keeps(pieces, i);
                let segs = keep_nonempty(pieces);
                let k = choose|k: int| 0 <= k < segs.len() && segs[k] == ".."@;
                if k > 0 && valid_plugin_id(segs[0]) {
                    assert(segs.drop_first()[k - 1] == ".."@);
                    lemma_rel_segments_refuses_parent(segs.drop_first());
                }
            }
        },
    }
}

/// A segment a request may name below a plugin's `web/` directory.
pub open spec fn safe_request_segment(seg: Seq<char>) -> bool {
    &&& seg.len() > 0
    &&& seg != "."@
    &&& seg != ".."@
    &&& !seg.contains('/')
    &&& !seg.contains('\\')
}

/// An accepted request names a valid plugin id and at least one path
/// segment, each non-empty, neither `.` nor `..`, and free of `/` and `\`:
/// no request path climbs out of the plugin's `web/` directory.
pub proof fn lemma_request_path_safe(uri: Seq<char>)
    ensures
        request_path_spec(uri) matches Ok((id, rel)) ==> {
            &&& valid_plugin_id(id)
            &&& rel.len() >= 1
            &&& forall|j: int| 0 <= j < rel.len() ==> safe_request_segment(#[trigger] rel[j])
        },
{
    reveal_strlit("index.html");
    reveal_strlit(".");
    reveal_strlit("..");
    match percent_decoded(encode_utf8(uri)) {
        None => {},
        Some(bs) => {
            let s = decode_utf8(bs);
            if valid_utf8(bs) && !s.contains('\\') {
                let pieces = split_on(s, '/');
                lemma_split_on_pieces(s, '/');
                let segs = keep_nonempty(pieces);
                lemma_keep_nonempty_parts(pieces);
                if segs.len() > 0 && valid_plugin_id(segs[0]) {
                    let tail = segs.drop_first();
                    lemma_rel_segments_parts(tail);
                    match rel_segments(tail) {
                        None => {},
                        Some(rel) => {
                            if rel.len() == 0 {
                                let ix = "index.html"@;
                                assert(ix.len() == 10);
                                assert forall|k: int| 0 <= k < ix.len() implies ix[k] != '/' && ix[k] != '\\' by {
                                    assert(ix[0] == 'i' && ix[1] == 'n' && ix[2] == 'd' && ix[3] == 'e' && ix[4] == 'x');
                                    assert(ix[5] == '.' && ix[6] == 'h' && ix[7] == 't' && ix[8] == 'm' && ix[9] == 'l');
                                }
                                assert(ix != "."@ && ix != ".."@);
                                assert(safe_request_segment(ix));
                                assert(seq![ix][0] == ix);
                            } else {
                                assert forall|j: int| 0 <= j < rel.len() implies safe_request_segment(#[trigger] rel[j]) by {
                                    let x = rel[j];
                                    let m = choose|m: int| 0 <= m < tail.len() && tail[m] == x;
                                    assert(segs[m + 1] == x);
                                    assert(segs.contains(x));
                                    let q = choose|q: int| 0 <= q < segs.len() && segs[q] == x;
                                    assert(keep_nonempty(pieces)[q] == x);
                                    let r = choose|r: int| 0 <= r < pieces.len() && pieces[r] == x;
                                    assert(!pieces[r].contains('/'));
                                    if x.contains('\\') {
                                        assert(pieces[r].contains('\\'));
                                    }
                                }
                            }
                        },
                    }
                }
            }
        },
    }
}

/// The non-empty `/`-separated segments of `v`.
fn path_segments(v: &Vec<char>) -> (segs: Vec<String>)
    ensures
        crate::order::views(segs@) == keep_nonempty(split_on(v@, '/')),
{
    let n = v.len();
    let mut segs: Vec<String> = Vec::new();
    let mut p: usize = 0;
    assert(v@.subrange(0, n as int) =~= v@);
    loop
        invariant
            n == v@.len(),
            p <= n,
            keep_nonempty(split_on(v@, '/')) == crate::order::views(segs@) + keep_nonempty(split_on(v@.subrange(p as int, n as int), '/')),
        decreases n - p,
    {
        let k = find_in(v, p, n, '/');
        let ghost sub = v@.subrange(p as int, n as int);
        let ghost piece = v@.subrange(p as int, k as int);
        proof {
            lemma_find_char(sub, '/');
            lemma_split_step(sub);
            assert(sub.take(k - p) =~= piece);
            if k < n {
                assert(sub.skip(k - p + 1) =~= v@.subrange(k + 1, n as int));
                lemma_keep_nonempty_cons(piece, split_on(v@.subrange(k + 1, n as int), '/'));
            } else {
                assert(sub =~= piece);
                lemma_keep_nonempty_cons(piece, Seq::empty());
                assert(keep_nonempty(Seq::<Seq<char>>::empty()) == Seq::<Seq<char>>::empty());
            }
        }
        let ghost before = crate::order::views(segs@);
        if k > p {
            segs.push(string_from_range(v, p, k));
            assert(crate::order::views(segs@) =~= before + seq![piece]);
        }
        if k >= n {
            proof {
                if k > p {
                    assert(keep_nonempty(split_on(sub, '/')) =~= seq![piece] + Seq::<Seq<char>>::empty());
                }
            }
            assert(crate::order::views(segs@) + Seq::<Seq<char>>::empty() =~= crate::order::views(segs@));
            return segs;
        }
        p = k + 1;
    }
}

/// The plugin id and the segments of its `web/` path that a request names:
/// percent-decoding, then backslashes, traversal, a bad id or a bad escape
/// refuse the request; an empty path is not found; `.` segments drop out and
/// the plugin root falls back to `index.html`.
pub fn parse_request_path(uri_path: &str) -> (r: Result<(String, Vec<String>), ProtocolError>)
    ensures
        request_result_view(r) == request_path_spec(uri_path@),
{
    proof {
        reveal_strlit(".");
        reveal_strlit("..");
        reveal_strlit("index.html");
    }
    let decoded = match percent_decode(uri_path) {
        Ok(d) => d,
        Err(e) => return Err(e),
    };
    let s = match utf8_string(decoded) {
        Some(s) => s,
        None => return Err(ProtocolError::Forbidden),
    };
    let v = chars_of(s.as_str());
    let n = v.len();
    let back = find_in(&v, 0, n, '\\');
    proof {
        assert(v@.subrange(0, n as int) =~= v@);
        crate::text::lemma_find_char_contains(v@, '\\');
    }
    if back < n {
        return Err(ProtocolError::Forbidden);
    }
    let segs = path_segments(&v);
    let ghost sv = crate::order::views(segs@);
    if segs.len() == 0 {
        return Err(ProtocolError::NotFound);
    }
    if !is_valid_plugin_id(segs[0].as_str()) {
        return Err(ProtocolError::Forbidden);
    }
    let m = segs.len();
    let mut rel: Vec<String> = Vec::new();
    assert(sv.skip(1) =~= sv.drop_first());
    assert(request_path_spec(uri_path@) == match rel_segments(sv.drop_first()) {
        None => Err(ProtocolError::Forbidden),
        Some(r) => Ok((sv[0], if r.len() == 0 { seq!["index.html"@] } else { r })),
    });
    for i in 1..m
        invariant
            m == segs@.len(),
            m >= 1,
            sv == crate::order::views(segs@),
            request_path_spec(uri_path@) == match rel_segments(sv.drop_first()) {
                None => Err(ProtocolError::Forbidden),
                Some(r) => Ok((sv[0], if r.len() == 0 { seq!["index.html"@] } else { r })),
            },
            rel_segments(sv.drop_first()) == match rel_segments(sv.skip(i as int)) {
                None => None::<Seq<Seq<char>>>,
                Some(rest) => Some(crate::order::views(rel@) + rest),
            },
    {
        assert(sv.skip(i as int)[0] == segs@[i as int]@);
        assert(sv.skip(i as int).drop_first() =~= sv.skip(i + 1));
        if str_eq(segs[i].as_str(), "..") {
            return Err(ProtocolError::Forbidden);
        }
        if !str_eq(segs[i].as_str(), ".") {
            let ghost before = crate::order::views(rel@);
            rel.push(segs[i].clone());
            proof {
                assert(crate::order::views(rel@) =~= before + seq![segs@[i as int]@]);
                match rel_segments(sv.skip(i + 1)) {
                    Some(rest) => {
                        assert(before + (seq![segs@[i as int]@] + rest) =~= crate::order::views(rel@) + rest);
                    },
                    None => {},
                }
            }
        }
    }
    assert(sv.skip(m as int) =~= Seq::<Seq<char>>::empty());
    assert(crate::order::views(rel@) + Seq::<Seq<char>>::empty() =~= crate::order::views(rel@));
    if rel.len() == 0 {
        rel.push("index.html".to_owned());
        assert(crate::order::views(rel@) =~= seq!["index.html"@]);
    }
    let id = segs[0].clone();
    Ok((id, rel))
}

/// How a request is answered before the file system is consulted.
#[derive(Debug)]
pub enum ServePlan {
    /// A fixed error response.
    Error { status: u16, text: &'static str },
    /// The embedded SDK script.
    Sdk,
    /// A file under the plugin's `web/` directory.
    File { plugin_id: String, rel: Vec<String> },
}

/// The reserved namespace of host-shared assets.
pub const SDK_NAMESPACE: &'static str = "__kapi__";

/// How a request is answered: only `GET` is served; refused paths are 403,
/// empty ones 404; the reserved namespace serves `sdk.js` alone; any other
/// path names a file under a plugin's `web/` directory.
pub fn plan_request(method: &str, uri_path: &str) -> (r: ServePlan)
    ensures
        method@ != "GET"@ ==> r == (ServePlan::Error { status: 405, text: "Method Not Allowed" }),
        method@ == "GET"@ ==> match request_path_spec(uri_path@) {
            Err(ProtocolError::Forbidden) => r == (ServePlan::Error { status: 403, text: "Forbidden" }),
            Err(ProtocolError::NotFound) => r == (ServePlan::Error { status: 404, text: "Not Found" }),
            Ok((id, rel)) => if id == "__kapi__"@ {
                if rel == seq!["sdk.js"@] { r is Sdk } else { r == (ServePlan::Error { status: 404, text: "Not Found" }) }
            } else {
                r matches ServePlan::File { plugin_id, rel: rv } && plugin_id@ == id && crate::order::views(rv@) == rel
            },
        },
{
    proof {
        reveal_strlit("sdk.js");
    }
    if !str_eq(method, "GET") {
        return ServePlan::Error { status: 405, text: "Method Not Allowed" };
    }
    match parse_request_path(uri_path) {
        Err(ProtocolError::Forbidden) => ServePlan::Error { status: 403, text: "Forbidden" },
        Err(ProtocolError::NotFound) => ServePlan::Error { status: 404, text: "Not Found" },
        Ok((plugin_id, rel)) => {
            if str_eq(plugin_id.as_str(), SDK_NAMESPACE) {
                if rel.len() == 1 && str_eq(rel[0].as_str(), "sdk.js") {
                    assert(crate::order::views(rel@) =~= seq!["sdk.js"@]);
                    ServePlan::Sdk
                } else {
                    assert(crate::order::views(rel@) != seq!["sdk.js"@]) by {
                        if rel@.len() == 1 {
                            assert(crate::order::views(rel@)[0] == rel@[0]@);
                        }
                    }
                    ServePlan::Error { status: 404, text: "Not Found" }
                }
            } else {
                ServePlan::File { plugin_id, rel }
            }
        },
    }
}

/// Where the last `c` in `s` stands, or -1.
pub open spec fn rfind_char(s: Seq<char>, c: char) -> int
    decreases s.len(),
{
    if s.len() == 0 {
        -1
    } else if s.last() == c {
        s.len() - 1
    } else {
        rfind_char(s.drop_last(), c)
    }
}

/// The extension of a file name (`Path::extension`): the text after the last
/// `.`, unless there is none or the only one starts the name.
pub open spec fn extension_of(name: Seq<char>) -> Option<Seq<char>> {
    let k = rfind_char(name, '.');
    if k <= 0 {
        None
    } else {
        Some(name.skip(k + 1))
    }
}

/// ASCII letters lowered, other characters kept (`to_ascii_lowercase`).
pub open spec fn ascii_lower(s: Seq<char>) -> Seq<char> {
    s.map_values(|c: char| if 'A' <= c && c <= 'Z' { ((c as u8) + 32) as char } else { c })
}

/// The content type of an extension (already lowered).
pub open spec fn content_type_of(ext: Seq<char>) -> Seq<char> {
    if ext == "html"@ || ext == "htm"@ {
        "text/html; charset=utf-8"@
    } else if ext == "js"@ || ext == "mjs"@ {
        "text/javascript; charset=utf-8"@
    } else if ext == "css"@ {
        "text/css; charset=utf-8"@
    } else if ext == "json"@ || ext == "map"@ {
        "application/json; charset=utf-8"@
    } else if ext == "svg"@ {
        "image/svg+xml"@
    } else if ext == "png"@ {
        "image/png"@
    } else if ext == "jpg"@ || ext == "jpeg"@ {
        "image/jpeg"@
    } else if ext == "gif"@ {
        "image/gif"@
    } else if ext == "webp"@ {
        "image/webp"@
    } else if ext == "ico"@ {
        "image/x-icon"@
    } else if ext == "wasm"@ {
        "application/wasm"@
    } else if ext == "woff"@ {
        "font/woff"@
    } else if ext == "woff2"@ {
        "font/woff2"@
    } else if ext == "ttf"@ {
        "font/ttf"@
    } else if ext == "otf"@ {
        "font/otf"@
    } else if ext == "txt"@ || ext == "md"@ {
        "text/plain; charset=utf-8"@
    } else {
        "application/octet-stream"@
    }
}

/// Lowers the ASCII letters of a string.
pub fn to_ascii_lower(s: &str) -> (r: String)
    ensures
        r@ == ascii_lower(s@),
{
    let v = chars_of(s);
    let n = v.len();
    let mut out: Vec<char> = Vec::new();
    for i in 0..n
        invariant
            n == v@.len(),
            v@ == s@,
            out@ == ascii_lower(v@.take(i as int)),
    {
        let c = v[i];
        let d = if 'A' <= c && c <= 'Z' { ((c as u8) + 32) as char } else { c };
        out.push(d);
        assert(ascii_lower(v@.take(i + 1)) =~= ascii_lower(v@.take(i as int)).push(d));
    }
    assert(v@.take(n as int) =~= v@);
    crate::text::string_from_chars(out.as_slice())
}

/// The content type served for a file name, by its lowered extension
/// (`application/octet-stream` when unknown or absent).
pub fn content_type(file_name: &str) -> (r: &'static str)
    ensures
        r@ == content_type_of(ascii_lower(match extension_of(file_name@) { Some(e) => e, None => Seq::empty() })),
{
    let v = chars_of(file_name);
    let n = v.len();
    let mut k: usize = n;
    assert(v@.take(n as int) =~= v@);
    while k > 0 && v[k - 1] != '.'
        invariant
            k <= n,
            n == v@.len(),
            v@ == file_name@,
            rfind_char(v@, '.') == rfind_char(v@.take(k as int), '.'),
        decreases k,
    {
        assert(v@.take(k as int).drop_last() =~= v@.take(k - 1));
        k = k - 1;
    }
    let ext = if k <= 1 {
        proof {
            if k == 1 {
                assert(v@.take(1).last() == '.');
            }
            assert(v@.take(n as int) =~= v@);
        }
        String::new()
    } else {
        assert(v@.take(k as int).last() == '.');
        assert(file_name@.skip(k as int) =~= v@.subrange(k as int, n as int));
        string_from_range(&v, k, n)
    };
    proof {
        assert(v@.take(n as int) =~= v@);
        reveal_strlit("html"); reveal_strlit("htm"); reveal_strlit("js"); reveal_strlit("mjs");
        reveal_strlit("css"); reveal_strlit("json"); reveal_strlit("map"); reveal_strlit("svg");
        reveal_strlit("png"); reveal_strlit("jpg"); reveal_strlit("jpeg"); reveal_strlit("gif");
        reveal_strlit("webp"); reveal_strlit("ico"); reveal_strlit("wasm"); reveal_strlit("woff");
        reveal_strlit("woff2"); reveal_strlit("ttf"); reveal_strlit("otf"); reveal_strlit("txt");
        reveal_strlit("md");
    }
    let lower = to_ascii_lower(ext.as_str());
    let e = lower.as_str();
    if str_eq(e, "html") || str_eq(e, "htm") {
        "text/html; charset=utf-8"
    } else if str_eq(e, "js") || str_eq(e, "mjs") {
        "text/javascript; charset=utf-8"
    } else if str_eq(e, "css") {
        "text/css; charset=utf-8"
    } else if str_eq(e, "json") || str_eq(e, "map") {
        "application/json; charset=utf-8"
    } else if str_eq(e, "svg") {
        "image/svg+xml"
    } else if str_eq(e, "png") {
        "image/png"
    } else if str_eq(e, "jpg") || str_eq(e, "jpeg") {
        "image/jpeg"
    } else if str_eq(e, "gif") {
        "image/gif"
    } else if str_eq(e, "webp") {
        "image/webp"
    } else if str_eq(e, "ico") {
        "image/x-icon"
    } else if str_eq(e, "wasm") {
        "application/wasm"
    } else if str_eq(e, "woff") {
        "font/woff"
    } else if str_eq(e, "woff2") {
        "font/woff2"
    } else if str_eq(e, "ttf") {
        "font/ttf"
    } else if str_eq(e, "otf") {
        "font/otf"
    } else if str_eq(e, "txt") || str_eq(e, "md") {
        "text/plain; charset=utf-8"
    } else {
        "application/octet-stream"
    }
}

} // verus!
