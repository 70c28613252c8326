//! Character-level helpers shared by the validators, the path parsers and the
//! message builders.
use vstd::prelude::*;

verus! {

/// ASCII letters and digits.
pub open spec fn is_ascii_alnum(c: char) -> bool {
    ||| ('a' <= c && c <= 'z')
    ||| ('A' <= c && c <= 'Z')
    ||| ('0' <= c && c <= '9')
}

/// The identifier alphabet used for plugin ids, event types, action names,
/// repository names and entry path segments: `[A-Za-z0-9._-]`.
pub open spec fn is_slug_char(c: char) -> bool {
    is_ascii_alnum(c) || c == '.' || c == '_' || c == '-'
}

/// Every character of `s` lies in the slug alphabet.
pub open spec fn all_slug(s: Seq<char>) -> bool {
    forall|i: int| 0 <= i < s.len() ==> is_slug_char(#[trigger] s[i])
}

pub fn char_is_ascii_alnum(c: char) -> (b: bool)
    ensures
        b == is_ascii_alnum(c),
{
    ('a' <= c && c <= 'z') || ('A' <= c && c <= 'Z') || ('0' <= c && c <= '9')
}

pub fn char_is_slug(c: char) -> (b: bool)
    ensures
        b == is_slug_char(c),
{
    char_is_ascii_alnum(c) || c == '.' || c == '_' || c == '-'
}

/// The characters of a string slice, in order.
pub fn chars_of(s: &str) -> (v: Vec<char>)
    ensures
        v@ == s@,
{
    broadcast use vstd::string::group_string_axioms;

    let mut v: Vec<char> = Vec::new();
    for c in it: s.chars()
        invariant
            v@ == it.seq().take(it.index() as int),
    {
        v.push(c);
    }
    v
}

/// Appends one character to a string (`String::push`).
#[verifier::external_body]
pub(crate) fn push_char(s: &mut String, c: char)
    ensures
        final(s)@ == old(s)@.push(c),
{
    s.push(c);
}

/// Builds a string holding exactly the given characters.
pub fn string_from_chars(v: &[char]) -> (s: String)
    ensures
        s@ == v@,
{
    let mut s = String::new();
    let n = v.len();
    for i in 0..n
        invariant
            n == v@.len(),
            s@ == v@.take(i as int),
    {
        push_char(&mut s, v[i]);
        assert(v@.take(i + 1) == v@.take(i as int).push(v@[i as int]));
    }
    assert(v@.take(n as int) == v@);
    s
}

/// Builds a string holding the characters of `v` in the index range `[lo, hi)`.
pub fn string_from_range(v: &[char], lo: usize, hi: usize) -> (s: String)
    requires
        lo <= hi <= v@.len(),
    ensures
        s@ == v@.subrange(lo as int, hi as int),
{
    let mut s = String::new();
    let mut i = lo;
    while i < hi
        invariant
            lo <= i <= hi <= v@.len(),
            s@ == v@.subrange(lo as int, i as int),
        decreases hi - i,
    {
        push_char(&mut s, v[i]);
        assert(v@.subrange(lo as int, i + 1) == v@.subrange(lo as int, i as int).push(v@[i as int]));
        i = i + 1;
    }
    s
}

/// Content equality of two string slices.
pub fn str_eq(a: &str, b: &str) -> (r: bool)
    ensures
        r == (a@ == b@),
{
    let x = a.to_owned();
    let y = b.to_owned();
    x == y
}

/// Concatenation of two slices into a new string.
pub fn concat2(a: &str, b: &str) -> (s: String)
    ensures
        s@ == a@ + b@,
{
    let mut s = a.to_owned();
    s.append(b);
    s
}

/// Concatenation of three slices into a new string.
pub fn concat3(a: &str, b: &str, c: &str) -> (s: String)
    ensures
        s@ == a@ + b@ + c@,
{
    let mut s = a.to_owned();
    s.append(b);
    s.append(c);
    s
}

/// The decimal digits of a natural number, most significant first.
pub open spec fn decimal(n: nat) -> Seq<char>
    decreases n,
{
    if n < 10 {
        seq![digit_char(n)]
    } else {
        decimal(n / 10).push(digit_char(n % 10))
    }
}

pub open spec fn digit_char(d: nat) -> char {
    if d == 0 { '0' }
    else if d == 1 { '1' }
    else if d == 2 { '2' }
    else if d == 3 { '3' }
    else if d == 4 { '4' }
    else if d == 5 { '5' }
    else if d == 6 { '6' }
    else if d == 7 { '7' }
    else if d == 8 { '8' }
    else { '9' }
}

fn digit(d: u64) -> (c: char)
    requires
        d < 10,
    ensures
        c == digit_char(d as nat),
{
    if d == 0 { '0' }
    else if d == 1 { '1' }
    else if d == 2 { '2' }
    else if d == 3 { '3' }
    else if d == 4 { '4' }
    else if d == 5 { '5' }
    else if d == 6 { '6' }
    else if d == 7 { '7' }
    else if d == 8 { '8' }
    else { '9' }
}

/// Decimal rendering of an unsigned number (`n.to_string()`).
pub fn u64_to_decimal(n: u64) -> (s: String)
    ensures
        s@ == decimal(n as nat),
    decreases n,
{
    if n < 10 {
        let mut s = String::new();
        push_char(&mut s, digit(n));
        assert(s@ == seq![digit_char(n as nat)]);
        s
    } else {
        let mut s = u64_to_decimal(n / 10);
        push_char(&mut s, digit(n % 10));
        s
    }
}

} // verus!

verus! {

/// The parts joined by the separator (`slice.join(sep)`).
pub open spec fn join(parts: Seq<Seq<char>>, sep: Seq<char>) -> Seq<char>
    decreases parts.len(),
{
    if parts.len() == 0 {
        Seq::empty()
    } else if parts.len() == 1 {
        parts[0]
    } else {
        join(parts.drop_last(), sep) + sep + parts.last()
    }
}

/// Joins strings with a separator.
pub fn join_strings(parts: &Vec<String>, sep: &str) -> (s: String)
    ensures
        s@ == join(crate::order::views(parts@), sep@),
{
    let ghost pv = crate::order::views(parts@);
    let mut s = String::new();
    let n = parts.len();
    for i in 0..n
        invariant
            n == parts@.len(),
            pv == crate::order::views(parts@),
            s@ == join(pv.take(i as int), sep@),
    {
        assert(pv.take(i + 1).drop_last() == pv.take(i as int));
        if i != 0 {
            s.append(sep);
            s.append(parts[i].as_str());
        } else {
            s.append(parts[i].as_str());
            assert(pv.take(1) == seq![pv[0]]);
        }
    }
    assert(pv.take(n as int) == pv);
    s
}

} // verus!

verus! {

// ------------------------------------------------------------------
// Whitespace, trimming, splitting and unsigned numbers
// ------------------------------------------------------------------

/// Unicode `White_Space` (what `char::is_whitespace` tests).
pub open spec fn is_ws(c: char) -> bool {
    ||| ('\u{9}' <= c && c <= '\u{d}')
    ||| c == ' '
    ||| c == '\u{85}'
    ||| c == '\u{a0}'
    ||| c == '\u{1680}'
    ||| ('\u{2000}' <= c && c <= '\u{200a}')
    ||| c == '\u{2028}'
    ||| c == '\u{2029}'
    ||| c == '\u{202f}'
    ||| c == '\u{205f}'
    ||| c == '\u{3000}'
}

pub fn char_is_ws(c: char) -> (b: bool)
    ensures
        b == is_ws(c),
{
    ('\u{9}' <= c && c <= '\u{d}') || c == ' ' || c == '\u{85}' || c == '\u{a0}' || c == '\u{1680}'
        || ('\u{2000}' <= c && c <= '\u{200a}') || c == '\u{2028}' || c == '\u{2029}'
        || c == '\u{202f}' || c == '\u{205f}' || c == '\u{3000}'
}

/// `s` without leading whitespace.
pub open spec fn trim_start(s: Seq<char>) -> Seq<char>
    decreases s.len(),
{
    if s.len() > 0 && is_ws(s[0]) {
        trim_start(s.drop_first())
    } else {
        s
    }
}

/// `s` without trailing whitespace.
pub open spec fn trim_end(s: Seq<char>) -> Seq<char>
    decreases s.len(),
{
    if s.len() > 0 && is_ws(s.last()) {
        trim_end(s.drop_last())
    } else {
        s
    }
}

/// `s` without leading or trailing whitespace (`str::trim`).
pub open spec fn trim(s: Seq<char>) -> Seq<char> {
    trim_end(trim_start(s))
}

/// The index of the first `c` in `s`, or the length of `s` when absent.
pub open spec fn find_char(s: Seq<char>, c: char) -> int
    decreases s.len(),
{
    if s.len() == 0 {
        0
    } else if s[0] == c {
        0
    } else {
        1 + find_char(s.drop_first(), c)
    }
}

/// The pieces of `s` between occurrences of `c` (`str::split`).
pub open spec fn split_on(s: Seq<char>, c: char) -> Seq<Seq<char>>
    decreases s.len(),
{
    let k = find_char(s, c);
    proof {
        lemma_find_char(s, c);
    }
    if k >= s.len() {
        seq![s]
    } else {
        seq![s.take(k)].add(split_on(s.skip(k + 1), c))
    }
}

/// The index of the first whitespace character of `s`, or its length.
pub open spec fn find_ws(s: Seq<char>) -> int
    decreases s.len(),
{
    if s.len() == 0 {
        0
    } else if is_ws(s[0]) {
        0
    } else {
        1 + find_ws(s.drop_first())
    }
}

/// The maximal runs of non-whitespace characters (`str::split_whitespace`).
pub open spec fn split_ws(s: Seq<char>) -> Seq<Seq<char>>
    decreases s.len(),
{
    let t = trim_start(s);
    proof {
        lemma_trim_start_len(s);
    }
    if t.len() == 0 {
        Seq::empty()
    } else {
        let k = find_ws(t);
        proof {
            lemma_find_ws(t);
        }
        if k <= 0 {
            Seq::empty()
        } else {
            seq![t.take(k)].add(split_ws(t.skip(k)))
        }
    }
}

pub proof fn lemma_trim_start_len(s: Seq<char>)
    ensures
        trim_start(s).len() <= s.len(),
    decreases s.len(),
{
    if s.len() > 0 && is_ws(s[0]) {
        lemma_trim_start_len(s.drop_first());
    }
}

pub proof fn lemma_find_ws(s: Seq<char>)
    ensures
        0 <= find_ws(s) <= s.len(),
        find_ws(s) < s.len() ==> is_ws(s[find_ws(s)]),
        forall|i: int| 0 <= i < find_ws(s) ==> !is_ws(#[trigger] s[i]),
    decreases s.len(),
{
    if s.len() > 0 && !is_ws(s[0]) {
        lemma_find_ws(s.drop_first());
        assert forall|i: int| 0 <= i < find_ws(s) implies !is_ws(#[trigger] s[i]) by {
            if i > 0 {
                assert(s[i] == s.drop_first()[i - 1]);
            }
        }
    }
}

/// Splitting always gives at least one piece.
pub proof fn lemma_split_on_nonempty(s: Seq<char>, c: char)
    ensures
        split_on(s, c).len() >= 1,
    decreases s.len(),
{
    lemma_find_char(s, c);
    let k = find_char(s, c);
    if k < s.len() {
        lemma_split_on_nonempty(s.skip(k + 1), c);
    }
}

/// A leading space makes no difference to trimming.
pub proof fn lemma_trim_leading_space(m: Seq<char>)
    ensures
        trim(seq![' '] + m) == trim(m),
{
    let s = seq![' '] + m;
    assert(s[0] == ' ');
    assert(s.drop_first() =~= m);
}

pub open spec fn is_digit(c: char) -> bool {
    '0' <= c && c <= '9'
}

pub open spec fn all_digits(s: Seq<char>) -> bool {
    forall|i: int| 0 <= i < s.len() ==> is_digit(#[trigger] s[i])
}

/// The number written by a run of decimal digits.
pub open spec fn digits_value(s: Seq<char>) -> int
    decreases s.len(),
{
    if s.len() == 0 {
        0
    } else {
        digits_value(s.drop_last()) * 10 + (s.last() as int - '0' as int)
    }
}

/// `u32::from_str`: an optional `+`, then at least one decimal digit, for a
/// value that fits in `u32`.
pub open spec fn parse_u32(s: Seq<char>) -> Option<u32> {
    let ds = if s.len() > 0 && s[0] == '+' { s.drop_first() } else { s };
    if ds.len() > 0 && all_digits(ds) && digits_value(ds) <= u32::MAX {
        Some(digits_value(ds) as u32)
    } else {
        None
    }
}

proof fn lemma_trim_start_step(v: Seq<char>, a: int, hi: int)
    requires
        0 <= a < hi <= v.len(),
        is_ws(v[a]),
    ensures
        trim_start(v.subrange(a, hi)) == trim_start(v.subrange(a + 1, hi)),
{
    assert(v.subrange(a, hi).drop_first() =~= v.subrange(a + 1, hi));
}

proof fn lemma_trim_end_step(v: Seq<char>, a: int, b: int)
    requires
        0 <= a < b <= v.len(),
        is_ws(v[b - 1]),
    ensures
        trim_end(v.subrange(a, b)) == trim_end(v.subrange(a, b - 1)),
{
    assert(v.subrange(a, b).drop_last() =~= v.subrange(a, b - 1));
}

/// The bounds of `v[lo..hi]` with surrounding whitespace removed.
pub fn trim_range(v: &Vec<char>, lo: usize, hi: usize) -> (r: (usize, usize))
    requires
        lo <= hi <= v@.len(),
    ensures
        lo <= r.0 <= r.1 <= hi,
        v@.subrange(r.0 as int, r.1 as int) == trim(v@.subrange(lo as int, hi as int)),
{
    let mut a = lo;
    while a < hi && char_is_ws(v[a])
        invariant
            lo <= a <= hi <= v@.len(),
            trim_start(v@.subrange(a as int, hi as int)) == trim_start(v@.subrange(lo as int, hi as int)),
        decreases hi - a,
    {
        proof {
            lemma_trim_start_step(v@, a as int, hi as int);
        }
        a = a + 1;
    }
    assert(trim_start(v@.subrange(a as int, hi as int)) == v@.subrange(a as int, hi as int));
    let mut b = hi;
    while b > a && char_is_ws(v[b - 1])
        invariant
            lo <= a <= b <= hi <= v@.len(),
            trim_end(v@.subrange(a as int, b as int)) == trim(v@.subrange(lo as int, hi as int)),
        decreases b - a,
    {
        proof {
            lemma_trim_end_step(v@, a as int, b as int);
        }
        b = b - 1;
    }
    proof {
        if b > a {
            assert(v@.subrange(a as int, b as int).last() == v@[b - 1]);
        }
    }
    (a, b)
}

/// Where the first `c` in `v[lo..hi]` stands, or `hi` when absent.
pub fn find_in(v: &Vec<char>, lo: usize, hi: usize, c: char) -> (k: usize)
    requires
        lo <= hi <= v@.len(),
    ensures
        lo <= k <= hi,
        k - lo == find_char(v@.subrange(lo as int, hi as int), c),
{
    let mut k = lo;
    while k < hi && v[k] != c
        invariant
            lo <= k <= hi <= v@.len(),
            find_char(v@.subrange(lo as int, hi as int), c) == (k - lo) + find_char(v@.subrange(k as int, hi as int), c),
        decreases hi - k,
    {
        assert(v@.subrange(k as int, hi as int).drop_first() =~= v@.subrange(k + 1, hi as int));
        k = k + 1;
    }
    k
}

pub proof fn lemma_find_char(s: Seq<char>, c: char)
    ensures
        0 <= find_char(s, c) <= s.len(),
        find_char(s, c) < s.len() ==> s[find_char(s, c)] == c,
        forall|i: int| 0 <= i < find_char(s, c) ==> s[i] != c,
    decreases s.len(),
{
    if s.len() > 0 && s[0] != c {
        lemma_find_char(s.drop_first(), c);
        assert forall|i: int| 0 <= i < find_char(s, c) implies s[i] != c by {
            if i > 0 {
                assert(s[i] == s.drop_first()[i - 1]);
            }
        }
    }
}

/// Every piece of `split_on(s, c)` is free of `c` and holds only characters
/// of `s`.
pub proof fn lemma_split_on_pieces(s: Seq<char>, c: char)
    ensures
        forall|i: int| 0 <= i < split_on(s, c).len() ==> !(#[trigger] split_on(s, c)[i]).contains(c),
        forall|i: int, d: char| #![trigger split_on(s, c)[i].contains(d)] 0 <= i < split_on(s, c).len() && split_on(s, c)[i].contains(d) ==> s.contains(d),
    decreases s.len(),
{
    lemma_find_char(s, c);
    let k = find_char(s, c);
    if k >= s.len() {
        assert(split_on(s, c) == seq![s]);
        assert forall|i: int| 0 <= i < split_on(s, c).len() implies !(#[trigger] split_on(s, c)[i]).contains(c) by {
            assert(split_on(s, c)[i] == s);
            if s.contains(c) {
                let j = choose|j: int| 0 <= j < s.len() && s[j] == c;
                assert(s[j] != c);
            }
        }
    } else {
        let rest = split_on(s.skip(k + 1), c);
        lemma_split_on_pieces(s.skip(k + 1), c);
        assert(split_on(s, c) == seq![s.take(k)].add(rest));
        let whole = split_on(s, c);
        assert forall|i: int| 0 <= i < whole.len() implies !(#[trigger] whole[i]).contains(c) by {
            if i == 0 {
                assert(whole[0] == s.take(k));
                if s.take(k).contains(c) {
                    let j = choose|j: int| 0 <= j < s.take(k).len() && s.take(k)[j] == c;
                    assert(s[j] == c);
                }
            } else {
                assert(whole[i] == rest[i - 1]);
            }
        }
        assert forall|i: int, d: char| #![trigger whole[i].contains(d)] 0 <= i < whole.len() && whole[i].contains(d) implies s.contains(d) by {
            if i == 0 {
                assert(whole[0] == s.take(k));
                let j = choose|j: int| 0 <= j < s.take(k).len() && s.take(k)[j] == d;
                assert(s[j] == d);
            } else {
                assert(whole[i] == rest[i - 1]);
                assert(rest[i - 1].contains(d));
                let t = s.skip(k + 1);
                assert(t.contains(d));
                let j = choose|j: int| 0 <= j < t.len() && t[j] == d;
                assert(s[k + 1 + j] == d);
            }
        }
    }
}

/// `c` occurs in `s` exactly when the search stops before the end.
pub proof fn lemma_find_char_contains(s: Seq<char>, c: char)
    ensures
        s.contains(c) <==> find_char(s, c) < s.len(),
{
    lemma_find_char(s, c);
    if s.contains(c) {
        let i = choose|i: int| 0 <= i < s.len() && s[i] == c;
        assert(find_char(s, c) <= i);
    }
}

proof fn lemma_digits_value_prefix(s: Seq<char>, i: int)
    requires
        all_digits(s),
        0 <= i <= s.len(),
    ensures
        0 <= digits_value(s.take(i)) <= digits_value(s),
    decreases s.len() - i,
{
    if i < s.len() {
        lemma_digits_value_prefix(s, i + 1);
        assert(s.take(i + 1).drop_last() =~= s.take(i));
        lemma_digits_value_nonneg(s.take(i));
    } else {
        assert(s.take(i) =~= s);
        lemma_digits_value_nonneg(s);
    }
}

proof fn lemma_digits_value_nonneg(s: Seq<char>)
    requires
        all_digits(s),
    ensures
        digits_value(s) >= 0,
    decreases s.len(),
{
    if s.len() > 0 {
        lemma_digits_value_nonneg(s.drop_last());
    }
}

/// `u32::from_str` on `v[lo..hi]`.
pub fn parse_u32_range(v: &Vec<char>, lo: usize, hi: usize) -> (r: Option<u32>)
    requires
        lo <= hi <= v@.len(),
    ensures
        r == parse_u32(v@.subrange(lo as int, hi as int)),
{
    let ghost s = v@.subrange(lo as int, hi as int);
    let mut a = lo;
    if lo < hi && v[lo] == '+' {
        a = lo + 1;
    }
    let ghost ds = v@.subrange(a as int, hi as int);
    assert(ds == if s.len() > 0 && s[0] == '+' { s.drop_first() } else { s });
    if a >= hi {
        assert(ds.len() == 0);
        return None;
    }
    let mut i = a;
    while i < hi
        invariant
            lo <= a <= i <= hi <= v@.len(),
            ds == v@.subrange(a as int, hi as int),
            s == v@.subrange(lo as int, hi as int),
            ds == if s.len() > 0 && s[0] == '+' { s.drop_first() } else { s },
            forall|j: int| a <= j < i ==> is_digit(#[trigger] v@[j]),
        decreases hi - i,
    {
        if !('0' <= v[i] && v[i] <= '9') {
            assert(ds[i - a] == v@[i as int]);
            assert(!is_digit(ds[i - a]));
            assert(!all_digits(ds));
            return None;
        }
        i = i + 1;
    }
    assert(all_digits(ds)) by {
        assert forall|j: int| 0 <= j < ds.len() implies is_digit(#[trigger] ds[j]) by {
            assert(ds[j] == v@[a + j]);
        }
    }
    let mut acc: u64 = 0;
    let mut i = a;
    while i < hi
        invariant
            lo <= a <= i <= hi <= v@.len(),
            ds == v@.subrange(a as int, hi as int),
            s == v@.subrange(lo as int, hi as int),
            ds == if s.len() > 0 && s[0] == '+' { s.drop_first() } else { s },
            all_digits(ds),
            acc == digits_value(ds.take(i - a)),
            acc <= u32::MAX,
        decreases hi - i,
    {
        assert(ds[i - a] == v@[i as int]);
        assert(is_digit(ds[i - a]));
        let d = (v[i] as u32 - '0' as u32) as u64;
        assert(ds.take(i - a + 1).drop_last() =~= ds.take(i - a));
        assert(ds.take(i - a + 1).last() == v@[i as int]);
        let next = acc * 10 + d;
        if next > 4294967295 {
            proof {
                lemma_digits_value_prefix(ds, i - a + 1);
            }
            return None;
        }
        acc = next;
        i = i + 1;
    }
    assert(ds.take(hi - a) =~= ds);
    Some(acc as u32)
}

/// Splits `s` at every `c`, keeping empty pieces (`str::split(c)`).
pub fn split_string(s: &str, c: char) -> (r: Vec<String>)
    ensures
        crate::order::views(r@) == split_on(s@, c),
{
    let v = chars_of(s);
    let n = v.len();
    let mut out: Vec<String> = Vec::new();
    let mut p: usize = 0;
    assert(v@.subrange(0, n as int) =~= v@);
    assert(crate::order::views(out@) =~= Seq::<Seq<char>>::empty());
    loop
        invariant
            n == v@.len(),
            v@ == s@,
            p <= n,
            split_on(v@, c) == crate::order::views(out@) + split_on(v@.subrange(p as int, n as int), c),
        decreases n - p,
    {
        let k = find_in(&v, p, n, c);
        let ghost sub = v@.subrange(p as int, n as int);
        proof {
            lemma_find_char(sub, c);
            assert(sub.take(k - p) =~= v@.subrange(p as int, k as int));
        }
        let piece = string_from_range(v.as_slice(), p, k);
        let ghost before = crate::order::views(out@);
        out.push(piece);
        assert(crate::order::views(out@) =~= before.push(piece@));
        if k >= n {
            proof {
                assert(split_on(sub, c) == seq![sub]);
                assert(sub =~= v@.subrange(p as int, k as int));
                assert(before + seq![sub] =~= before.push(sub));
            }
            return out;
        }
        proof {
            let rest = v@.subrange(k + 1, n as int);
            assert(sub.skip(k - p + 1) =~= rest);
            assert(split_on(sub, c) == seq![sub.take(k - p)].add(split_on(rest, c)));
            assert(before + split_on(sub, c) =~= crate::order::views(out@) + split_on(rest, c));
        }
        p = k + 1;
    }
}

} // verus!
