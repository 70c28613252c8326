//! Structured application errors: a machine-readable code, a human-readable
//! message and a category.
use vstd::prelude::*;
use vstd::std_specs::convert::FromSpecImpl;
use crate::text::{chars_of, concat2, find_char, find_in, trim, trim_range, string_from_range, lemma_find_char};

verus! {

/// The category of an error, which drives how the interface reacts.
#[derive(Debug, Clone, Copy, PartialEq, Eq, Structural)]
pub enum AppErrorKind {
    /// The user can fix it: bad input, not found, failed validation.
    UserError,
    /// A system or resource failure: database, I/O, timeout.
    SystemError,
    /// A business rule: disabled, cycle, invalid config.
    BusinessError,
}

pub open spec fn kind_text(k: AppErrorKind) -> Seq<char> {
    match k {
        AppErrorKind::UserError => "user"@,
        AppErrorKind::SystemError => "system"@,
        AppErrorKind::BusinessError => "business"@,
    }
}

impl AppErrorKind {
    /// The wire name of the kind.
    pub fn as_str(self) -> (r: &'static str)
        ensures
            r@ == kind_text(self),
    {
        match self {
            AppErrorKind::UserError => "user",
            AppErrorKind::SystemError => "system",
            AppErrorKind::BusinessError => "business",
        }
    }
}

/// An application error.
#[derive(Debug, Clone)]
pub struct AppError {
    /// Machine-readable code.
    pub code: String,
    pub message: String,
    pub kind: AppErrorKind,
}

/// An error as plain values: code, message, kind.
pub open spec fn app_error_view(e: AppError) -> (Seq<char>, Seq<char>, AppErrorKind) {
    (e.code@, e.message@, e.kind)
}

impl AppError {
    pub fn new(code: &str, message: &str, kind: AppErrorKind) -> (e: AppError)
        ensures
            e.code@ == code@ && e.message@ == message@ && e.kind == kind,
    {
        AppError { code: code.to_owned(), message: message.to_owned(), kind }
    }

    /// A user error.
    pub fn user(code: &str, message: &str) -> (e: AppError)
        ensures
            e.code@ == code@ && e.message@ == message@ && e.kind == AppErrorKind::UserError,
    {
        AppError::new(code, message, AppErrorKind::UserError)
    }

    /// A system error.
    pub fn system(code: &str, message: &str) -> (e: AppError)
        ensures
            e.code@ == code@ && e.message@ == message@ && e.kind == AppErrorKind::SystemError,
    {
        AppError::new(code, message, AppErrorKind::SystemError)
    }

    /// A business-rule error.
    pub fn business(code: &str, message: &str) -> (e: AppError)
        ensures
            e.code@ == code@ && e.message@ == message@ && e.kind == AppErrorKind::BusinessError,
    {
        AppError::new(code, message, AppErrorKind::BusinessError)
    }

    /// The same error under another code.
    pub fn with_code(self, code: &str) -> (e: AppError)
        ensures
            e.code@ == code@ && e.message@ == self.message@ && e.kind == self.kind,
    {
        AppError { code: code.to_owned(), message: self.message, kind: self.kind }
    }

    /// The display form `[kind] code: message`.
    pub fn to_display_string(&self) -> (s: String)
        ensures
            s@ == "["@ + kind_text(self.kind) + "] "@ + self.code@ + ": "@ + self.message@,
    {
        let mut s = "[".to_owned();
        s.append(self.kind.as_str());
        s.append("] ");
        s.append(self.code.as_str());
        s.append(": ");
        s.append(self.message.as_str());
        s
    }
}

/// How a legacy `"Code: message"` string reads as an error: a first word
/// before `:` without spaces becomes the code and the trimmed rest the
/// message; anything else is an `Unknown` error carrying the whole text. The
/// kind is always system.
pub open spec fn error_from_text(s: Seq<char>) -> (Seq<char>, Seq<char>, AppErrorKind) {
    let k = find_char(s, ':');
    let p = trim(s.take(k));
    if k < s.len() && p.len() > 0 && !p.contains(' ') {
        (p, trim(s.skip(k + 1)), AppErrorKind::SystemError)
    } else {
        ("Unknown"@, s, AppErrorKind::SystemError)
    }
}

/// Reads a legacy error string.
pub fn error_from_string(s: &str) -> (e: AppError)
    ensures
        app_error_view(e) == error_from_text(s@),
{
    let v = chars_of(s);
    let n = v.len();
    let k = find_in(&v, 0, n, ':');
    proof {
        assert(v@.subrange(0, n as int) =~= s@);
        lemma_find_char(s@, ':');
        assert(s@.take(k as int) =~= v@.subrange(0, k as int));
    }
    if k < n {
        let (a, b) = trim_range(&v, 0, k);
        let ghost p = v@.subrange(a as int, b as int);
        let mut has_space = false;
        let mut i = a;
        while i < b
            invariant
                a <= i <= b <= v@.len(),
                p == v@.subrange(a as int, b as int),
                has_space == exists|j: int| a <= j < i && v@[j] == ' ',
            decreases b - i,
        {
            if v[i] == ' ' {
                has_space = true;
            }
            i = i + 1;
        }
        proof {
            if has_space {
                let j = choose|j: int| a <= j < b && v@[j] == ' ';
                assert(p[j - a] == ' ');
            }
            if p.contains(' ') {
                let j = choose|j: int| 0 <= j < p.len() && p[j] == ' ';
                assert(v@[a + j] == ' ');
            }
        }
        if b > a && !has_space {
            let (c, d) = trim_range(&v, k + 1, n);
            assert(s@.skip(k + 1) =~= v@.subrange(k + 1, n as int));
            let code = string_from_range(&v, a, b);
            let message = string_from_range(&v, c, d);
            return AppError { code, message, kind: AppErrorKind::SystemError };
        }
    }
    AppError { code: "Unknown".to_owned(), message: s.to_owned(), kind: AppErrorKind::SystemError }
}

impl From<String> for AppError {
    /// Reads a legacy error string (see `error_from_string`).
    fn from(s: String) -> (e: AppError)
        ensures
            app_error_view(e) == error_from_text(s@),
    {
        error_from_string(s.as_str())
    }
}

impl FromSpecImpl<String> for AppError {
    /// The conversion is stated over views by `error_from_string`; no
    /// equality of strings is claimed here.
    open spec fn obeys_from_spec() -> bool {
        false
    }

    open spec fn from_spec(s: String) -> AppError {
        choose|e: AppError| app_error_view(e) == error_from_text(s@)
    }
}

impl From<&str> for AppError {
    /// Reads a legacy error string (see `error_from_string`).
    fn from(s: &str) -> (e: AppError)
        ensures
            app_error_view(e) == error_from_text(s@),
    {
        error_from_string(s)
    }
}

impl FromSpecImpl<&str> for AppError {
    /// The conversion is stated over views by `error_from_string`.
    open spec fn obeys_from_spec() -> bool {
        false
    }

    open spec fn from_spec(s: &str) -> AppError {
        choose|e: AppError| app_error_view(e) == error_from_text(s@)
    }
}

/// The error format at the command boundary: `{ code, message, kind }` with
/// the kind's wire name.
#[derive(Debug, Clone)]
pub struct AppErrorWire {
    pub code: String,
    pub message: String,
    pub kind: String,
}

/// The wire form of an error.
pub fn wire_of(e: AppError) -> (w: AppErrorWire)
    ensures
        w.code@ == e.code@ && w.message@ == e.message@ && w.kind@ == kind_text(e.kind),
{
    AppErrorWire { code: e.code, message: e.message, kind: e.kind.as_str().to_owned() }
}

/// The error a wire value turns back into: wire values are never read back,
/// so it is always the same system error.
pub fn error_of_wire(_w: AppErrorWire) -> (e: AppError)
    ensures
        e.code@ == "Unknown"@ && e.message@ == "deserialization not supported"@ && e.kind == AppErrorKind::SystemError,
{
    AppError::system("Unknown", "deserialization not supported")
}

impl From<AppError> for AppErrorWire {
    /// See `wire_of`.
    fn from(e: AppError) -> (w: AppErrorWire)
        ensures
            w.code@ == e.code@ && w.message@ == e.message@ && w.kind@ == kind_text(e.kind),
    {
        wire_of(e)
    }
}

impl FromSpecImpl<AppError> for AppErrorWire {
    /// The conversion is stated over views by `wire_of`.
    open spec fn obeys_from_spec() -> bool {
        false
    }

    open spec fn from_spec(e: AppError) -> AppErrorWire {
        choose|w: AppErrorWire| w.code@ == e.code@ && w.message@ == e.message@ && w.kind@ == kind_text(e.kind)
    }
}

impl From<AppErrorWire> for AppError {
    /// See `error_of_wire`.
    fn from(w: AppErrorWire) -> (e: AppError)
        ensures
            e.code@ == "Unknown"@ && e.message@ == "deserialization not supported"@ && e.kind == AppErrorKind::SystemError,
    {
        error_of_wire(w)
    }
}

impl FromSpecImpl<AppErrorWire> for AppError {
    /// The conversion is stated over views by `error_of_wire`.
    open spec fn obeys_from_spec() -> bool {
        false
    }

    open spec fn from_spec(w: AppErrorWire) -> AppError {
        choose|e: AppError| e.code@ == "Unknown"@ && e.message@ == "deserialization not supported"@ && e.kind == AppErrorKind::SystemError
    }
}

impl From<AppError> for String {
    /// The display form (see `AppError::to_display_string`).
    fn from(e: AppError) -> (s: String)
        ensures
            s@ == "["@ + kind_text(e.kind) + "] "@ + e.code@ + ": "@ + e.message@,
    {
        e.to_display_string()
    }
}

impl FromSpecImpl<AppError> for String {
    /// The conversion is stated over views by `AppError::to_display_string`.
    open spec fn obeys_from_spec() -> bool {
        false
    }

    open spec fn from_spec(e: AppError) -> String {
        choose|s: String| #[trigger] s@ == "["@ + kind_text(e.kind) + "] "@ + e.code@ + ": "@ + e.message@
    }
}

/// Splitting at the first `:` and trimming loses nothing needed: reading the
/// display-free form `Code: message` of a space-free code gives that code
/// back.
pub proof fn lemma_code_roundtrip(code: Seq<char>, message: Seq<char>)
    requires
        code.len() > 0,
        !code.contains(' '),
        !code.contains(':'),
        trim(code) == code,
        trim(message) == message,
    ensures
        error_from_text(code + ": "@ + message) == (code, message, AppErrorKind::SystemError),
{
    let s = code + ": "@ + message;
    reveal_strlit(": ");
    lemma_find_char(s, ':');
    let k = find_char(s, ':');
    assert(s[code.len() as int] == ':');
    if k < code.len() {
        assert(s[k] == code[k]);
        assert(code.contains(':'));
    }
    assert(k == code.len());
    assert(s.take(k) =~= code);
    assert(s.skip(k + 1) =~= seq![' '] + message);
    crate::text::lemma_trim_leading_space(message);
}

} // verus!
