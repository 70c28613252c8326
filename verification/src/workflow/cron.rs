//! A five-field cron schedule (minute, hour, day of month, month, day of
//! week). Each field is `*`, `*/n`, `a,b,c`, `a-b` or `a-b/n`.
use vstd::prelude::*;
use crate::text::{
    chars_of, concat2, concat3, decimal, find_char, find_in, is_ws, parse_u32, parse_u32_range, split_on,
    split_ws, string_from_range, trim, trim_range, trim_start, find_ws, u64_to_decimal,
    char_is_ws, lemma_find_char, lemma_find_ws,
};
use crate::workflow::calendar::{
    advance_minute, civil_of, days_in_month, epoch_of, epoch_to_utc, utc_to_epoch, valid_civil,
    lemma_civil_of_valid, lemma_civil_roundtrip, lemma_civil_year_bound, lemma_next_minute,
    next_minute, weekday, weekday_of, MAX_EPOCH_SECS,
};

verus! {

/// One cron field.
#[derive(Debug, Clone, PartialEq)]
pub enum Field {
    /// `*`
    All,
    /// `*/n`: every value divisible by `n`.
    Step(u32),
    /// `a,b,c`, or a single value.
    List(Vec<u32>),
    /// `a-b` or `a-b/n`: values from `start` to `end` in steps of `step`.
    Range { start: u32, end: u32, step: u32 },
}

/// A cron field as plain values.
pub enum FieldView {
    All,
    Step(u32),
    List(Seq<u32>),
    Range { start: u32, end: u32, step: u32 },
}

impl View for Field {
    type V = FieldView;

    open spec fn view(&self) -> FieldView {
        match self {
            Field::All => FieldView::All,
            Field::Step(n) => FieldView::Step(*n),
            Field::List(v) => FieldView::List(v@),
            Field::Range { start, end, step } => FieldView::Range { start: *start, end: *end, step: *step },
        }
    }
}

/// Steps are positive (what parsing guarantees).
pub open spec fn field_wf(f: FieldView) -> bool {
    match f {
        FieldView::Step(n) => n > 0,
        FieldView::Range { step, .. } => step > 0,
        _ => true,
    }
}

/// Whether a field admits `v`.
pub open spec fn field_admits(f: FieldView, v: int) -> bool {
    match f {
        FieldView::All => true,
        FieldView::Step(n) => v % (n as int) == 0,
        FieldView::List(vals) => vals.contains(v as u32) && 0 <= v <= u32::MAX,
        FieldView::Range { start, end, step } => start <= v <= end && (v - start) % (step as int) == 0,
    }
}

/// A range field `a-b/n` admits both of its ends that lie on its steps: it
/// starts at `a`, it reaches `b` whenever `b - a` is a whole number of steps
/// (so `a-b` admits `b`), it admits nothing below `a` or above `b`, and from
/// an admitted value one step further stays admitted while it is within `b`.
/// With step 1 it admits every value from `a` to `b`, both included.
pub proof fn lemma_range_field_bounds(start: u32, end: u32, step: u32, v: int)
    requires
        step > 0,
        start <= end,
    ensures
        field_admits(FieldView::Range { start, end, step }, start as int),
        (end - start) % (step as int) == 0 ==> field_admits(FieldView::Range { start, end, step }, end as int),
        v < start || v > end ==> !field_admits(FieldView::Range { start, end, step }, v),
        (v - start) % (step as int) != 0 ==> !field_admits(FieldView::Range { start, end, step }, v),
        field_admits(FieldView::Range { start, end, step }, v) && v + step <= end
            ==> field_admits(FieldView::Range { start, end, step }, v + step),
        step == 1 && start <= v <= end ==> field_admits(FieldView::Range { start, end, step }, v),
{
    vstd::arithmetic::div_mod::lemma_fundamental_div_mod_converse(0, step as int, 0, 0);
    if field_admits(FieldView::Range { start, end, step }, v) && v + step <= end {
        let d = step as int;
        let x = v - start;
        let q = x / d;
        vstd::arithmetic::div_mod::lemma_fundamental_div_mod(x, d);
        assert(x + d == (q + 1) * d) by (nonlinear_arith)
            requires x == d * q + 0;
        vstd::arithmetic::div_mod::lemma_fundamental_div_mod_converse(x + d, d, q + 1, 0);
    }
    if step == 1 && start <= v <= end {
        vstd::arithmetic::div_mod::lemma_fundamental_div_mod_converse(v - start, 1, v - start, 0);
    }
}

/// A step field `*/n` admits 0 and, with any admitted value, the next
/// multiple of `n`; the values strictly between two multiples are not
/// admitted. A list admits exactly its values, and `*` admits everything.
pub proof fn lemma_step_list_all_fields(n: u32, vals: Seq<u32>, v: int)
    requires
        n > 0,
        0 <= v <= u32::MAX,
    ensures
        field_admits(FieldView::Step(n), 0),
        field_admits(FieldView::Step(n), v) ==> field_admits(FieldView::Step(n), v + n),
        0 < v % (n as int) ==> !field_admits(FieldView::Step(n), v),
        field_admits(FieldView::List(vals), v) <==> vals.contains(v as u32),
        field_admits(FieldView::All, v),
{
    vstd::arithmetic::div_mod::lemma_fundamental_div_mod_converse(0, n as int, 0, 0);
    if field_admits(FieldView::Step(n), v) {
        let d = n as int;
        let q = v / d;
        vstd::arithmetic::div_mod::lemma_fundamental_div_mod(v, d);
        assert(v + d == (q + 1) * d) by (nonlinear_arith)
            requires v == d * q + 0;
        vstd::arithmetic::div_mod::lemma_fundamental_div_mod_converse(v + d, d, q + 1, 0);
    }
}

/// A five-field schedule.
#[derive(Debug, Clone)]
pub struct CronSchedule {
    pub minute: Field,
    pub hour: Field,
    /// Day of month (1-31).
    pub dom: Field,
    /// Month (1-12).
    pub month: Field,
    /// Day of week (0 = Sunday .. 6 = Saturday).
    pub dow: Field,
}

/// Every step of the schedule is positive.
pub open spec fn schedule_wf(s: CronSchedule) -> bool {
    field_wf(s.minute@) && field_wf(s.hour@) && field_wf(s.dom@) && field_wf(s.month@) && field_wf(s.dow@)
}

/// Whether the schedule fires at the given date, hour and minute: each field
/// admits its part, the day-of-week field the weekday of the date.
pub open spec fn schedule_admits(s: CronSchedule, year: int, month: int, day: int, hour: int, minute: int) -> bool {
    &&& field_admits(s.minute@, minute)
    &&& field_admits(s.hour@, hour)
    &&& field_admits(s.dom@, day)
    &&& field_admits(s.month@, month)
    &&& field_admits(s.dow@, weekday(year, month, day))
}

/// Whether the schedule fires in the UTC minute holding second `t`.
pub open spec fn fires(s: CronSchedule, t: int) -> bool {
    let c = civil_of(t);
    schedule_admits(s, c.0, c.1, c.2, c.3, c.4)
}

/// Each field of a schedule constrains its own part of the time and no
/// other: when every other field is `*`, the schedule fires exactly when that
/// field admits its part (the minute, the hour, the day of the month, the
/// month, or the weekday of the date).
pub proof fn lemma_fields_constrain_their_own_part(s: CronSchedule, y: int, mo: int, d: int, h: int, mi: int)
    ensures
        s.hour@ is All && s.dom@ is All && s.month@ is All && s.dow@ is All
            ==> (schedule_admits(s, y, mo, d, h, mi) <==> field_admits(s.minute@, mi)),
        s.minute@ is All && s.dom@ is All && s.month@ is All && s.dow@ is All
            ==> (schedule_admits(s, y, mo, d, h, mi) <==> field_admits(s.hour@, h)),
        s.minute@ is All && s.hour@ is All && s.month@ is All && s.dow@ is All
            ==> (schedule_admits(s, y, mo, d, h, mi) <==> field_admits(s.dom@, d)),
        s.minute@ is All && s.hour@ is All && s.dom@ is All && s.dow@ is All
            ==> (schedule_admits(s, y, mo, d, h, mi) <==> field_admits(s.month@, mo)),
        s.minute@ is All && s.hour@ is All && s.dom@ is All && s.month@ is All
            ==> (schedule_admits(s, y, mo, d, h, mi) <==> field_admits(s.dow@, weekday(y, mo, d))),
{
}

/// Minutes scanned ahead by `next_utc_seconds`: a leap year.
pub const SCAN_MINUTES: u32 = 527040;

/// The `k`-th minute start after the minute holding `now`.
pub open spec fn scan_time(now: int, k: int) -> int {
    now - now % 60 + 60 * k
}

// ------------------------------------------------------------------
// Parsing
// ------------------------------------------------------------------

pub open spec fn quoted(prefix: Seq<char>, s: Seq<char>) -> Seq<char> {
    prefix + s + "'"@
}

/// The values of a comma list, or the error for its first bad piece.
pub open spec fn list_spec(pieces: Seq<Seq<char>>) -> Result<Seq<u32>, Seq<char>>
    decreases pieces.len(),
{
    if pieces.len() == 0 {
        Ok(Seq::empty())
    } else {
        match parse_u32(trim(pieces[0])) {
            None => Err(quoted("invalid value '"@, pieces[0])),
            Some(v) => match list_spec(pieces.drop_first()) {
                Ok(rest) => Ok(seq![v] + rest),
                Err(e) => Err(e),
            },
        }
    }
}

/// The range form `a-b` or `a-b/n`, given the trimmed text.
pub open spec fn range_spec(t: Seq<char>) -> Result<FieldView, Seq<char>> {
    let sl = find_char(t, '/');
    let range_part = if sl < t.len() { t.take(sl) } else { t };
    let dash = find_char(range_part, '-');
    if dash >= range_part.len() {
        Err(quoted("invalid range '"@, range_part))
    } else {
        let start_str = range_part.take(dash);
        let end_str = range_part.skip(dash + 1);
        match parse_u32(start_str) {
            None => Err(quoted("invalid start '"@, start_str)),
            Some(start) => match parse_u32(end_str) {
                None => Err(quoted("invalid end '"@, end_str)),
                Some(end) => if sl < t.len() {
                    let step_str = t.skip(sl + 1);
                    match parse_u32(step_str) {
                        None => Err(quoted("invalid step '"@, step_str)),
                        Some(step) => if step == 0 {
                            Err("step cannot be 0"@)
                        } else {
                            Ok(FieldView::Range { start, end, step })
                        },
                    }
                } else {
                    Ok(FieldView::Range { start, end, step: 1 })
                },
            },
        }
    }
}

/// What parsing one field gives.
pub open spec fn field_spec(s: Seq<char>) -> Result<FieldView, Seq<char>> {
    let t = trim(s);
    if t == "*"@ {
        Ok(FieldView::All)
    } else if t.len() >= 2 && t[0] == '*' && t[1] == '/' {
        let n_str = t.skip(2);
        match parse_u32(n_str) {
            None => Err(quoted("invalid step '"@, n_str)),
            Some(n) => if n == 0 { Err("step cannot be 0"@) } else { Ok(FieldView::Step(n)) },
        }
    } else if t.contains('-') {
        range_spec(t)
    } else if t.contains(',') {
        match list_spec(split_on(t, ',')) {
            Ok(vals) => Ok(FieldView::List(vals)),
            Err(e) => Err(e),
        }
    } else {
        match parse_u32(t) {
            None => Err(quoted("invalid value '"@, t)),
            Some(v) => Ok(FieldView::List(seq![v])),
        }
    }
}

/// The result of a field parse as plain values.
pub open spec fn field_result_view(r: Result<Field, String>) -> Result<FieldView, Seq<char>> {
    match r {
        Ok(f) => Ok(f@),
        Err(e) => Err(e@),
    }
}

/// Prepends parsed values to the outcome of the rest of a list.
pub open spec fn prepend_values(done: Seq<u32>, rest: Result<Seq<u32>, Seq<char>>) -> Result<Seq<u32>, Seq<char>> {
    match rest {
        Ok(r) => Ok(done + r),
        Err(e) => Err(e),
    }
}

proof fn lemma_list_step(t: Seq<char>)
    ensures
        find_char(t, ',') >= t.len() ==> split_on(t, ',') == seq![t],
        find_char(t, ',') < t.len() ==> split_on(t, ',') == seq![t.take(find_char(t, ','))].add(split_on(t.skip(find_char(t, ',') + 1), ',')),
{
}

proof fn lemma_list_spec_cons(x: Seq<char>, rest: Seq<Seq<char>>)
    ensures
        list_spec(seq![x].add(rest)) == (match parse_u32(trim(x)) {
            None => Err(quoted("invalid value '"@, x)),
            Some(v) => prepend_values(seq![v], list_spec(rest)),
        }),
{
    let p = seq![x].add(rest);
    assert(p[0] == x);
    assert(p.drop_first() =~= rest);
}

/// The values of the comma list `v[lo..hi]`.
fn parse_list(v: &Vec<char>, lo: usize, hi: usize) -> (r: Result<Vec<u32>, String>)
    requires
        lo <= hi <= v@.len(),
    ensures
        match r {
            Ok(vals) => list_spec(split_on(v@.subrange(lo as int, hi as int), ',')) == Ok::<Seq<u32>, Seq<char>>(vals@),
            Err(e) => list_spec(split_on(v@.subrange(lo as int, hi as int), ',')) == Err::<Seq<u32>, Seq<char>>(e@),
        },
{
    let ghost whole = list_spec(split_on(v@.subrange(lo as int, hi as int), ','));
    let mut vals: Vec<u32> = Vec::new();
    let mut p = lo;
    loop
        invariant
            lo <= p <= hi <= v@.len(),
            whole == list_spec(split_on(v@.subrange(lo as int, hi as int), ',')),
            whole == prepend_values(vals@, list_spec(split_on(v@.subrange(p as int, hi as int), ','))),
        decreases hi - p,
    {
        let k = find_in(v, p, hi, ',');
        let ghost sub = v@.subrange(p as int, hi as int);
        proof {
            lemma_find_char(sub, ',');
            lemma_list_step(sub);
            assert(sub.take(k - p) =~= v@.subrange(p as int, k as int));
            if k < hi {
                assert(sub.skip(k - p + 1) =~= v@.subrange(k + 1, hi as int));
            } else {
                assert(sub =~= v@.subrange(p as int, k as int));
            }
            lemma_list_spec_cons(v@.subrange(p as int, k as int), if k < hi { split_on(v@.subrange(k + 1, hi as int), ',') } else { Seq::empty() });
        }
        let (a, b) = trim_range(v, p, k);
        match parse_u32_range(v, a, b) {
            None => {
                let piece = string_from_range(v, p, k);
                let e = concat3("invalid value '", piece.as_str(), "'");
                proof {
                    if k >= hi {
                        assert(split_on(sub, ',') =~= seq![v@.subrange(p as int, k as int)].add(Seq::empty()));
                    }
                }
                return Err(e);
            },
            Some(x) => {
                let ghost before = vals@;
                vals.push(x);
                if k >= hi {
                    proof {
                        assert(split_on(sub, ',') =~= seq![v@.subrange(p as int, k as int)].add(Seq::empty()));
                        assert(list_spec(Seq::<Seq<char>>::empty()) == Ok::<Seq<u32>, Seq<char>>(Seq::empty()));
                        assert(vals@ =~= before + seq![x] + Seq::<u32>::empty());
                    }
                    return Ok(vals);
                }
                proof {
                    let rest = list_spec(split_on(v@.subrange(k + 1, hi as int), ','));
                    match rest {
                        Ok(r) => {
                            assert(before + (seq![x] + r) =~= vals@ + r);
                        },
                        Err(e) => {},
                    }
                }
                p = k + 1;
            },
        }
    }
}

/// Parses a field from `v[a..b]`, which is already trimmed.
fn parse_range(v: &Vec<char>, a: usize, b: usize) -> (r: Result<Field, String>)
    requires
        a <= b <= v@.len(),
    ensures
        field_result_view(r) == range_spec(v@.subrange(a as int, b as int)),
{
    let ghost t = v@.subrange(a as int, b as int);
    let sl = find_in(v, a, b, '/');
    proof {
        lemma_find_char(t, '/');
    }
    let ghost range_part = if sl - a < t.len() { t.take(sl - a) } else { t };
    assert(range_part =~= v@.subrange(a as int, sl as int));
    let dash = find_in(v, a, sl, '-');
    proof {
        lemma_find_char(range_part, '-');
    }
    if dash >= sl {
        let part = string_from_range(v, a, sl);
        return Err(concat3("invalid range '", part.as_str(), "'"));
    }
    assert(range_part.take(dash - a) =~= v@.subrange(a as int, dash as int));
    assert(range_part.skip(dash - a + 1) =~= v@.subrange(dash + 1, sl as int));
    let start = match parse_u32_range(v, a, dash) {
        None => {
            let part = string_from_range(v, a, dash);
            return Err(concat3("invalid start '", part.as_str(), "'"));
        },
        Some(x) => x,
    };
    let end = match parse_u32_range(v, dash + 1, sl) {
        None => {
            let part = string_from_range(v, dash + 1, sl);
            return Err(concat3("invalid end '", part.as_str(), "'"));
        },
        Some(x) => x,
    };
    if sl < b {
        assert(t.skip(sl - a + 1) =~= v@.subrange(sl + 1, b as int));
        let step = match parse_u32_range(v, sl + 1, b) {
            None => {
                let part = string_from_range(v, sl + 1, b);
                return Err(concat3("invalid step '", part.as_str(), "'"));
            },
            Some(x) => x,
        };
        if step == 0 {
            return Err("step cannot be 0".to_owned());
        }
        Ok(Field::Range { start, end, step })
    } else {
        Ok(Field::Range { start, end, step: 1 })
    }
}

/// Parses one cron field (surrounding whitespace is ignored).
pub fn parse_field(s: &str) -> (r: Result<Field, String>)
    ensures
        field_result_view(r) == field_spec(s@),
        r matches Ok(f) ==> field_wf(f@),
{
    let v = chars_of(s);
    let (a, b) = trim_range(&v, 0, v.len());
    let ghost t = v@.subrange(a as int, b as int);
    proof {
        assert(v@.subrange(0, v@.len() as int) =~= v@);
        reveal_strlit("*");
    }
    if b - a == 1 && v[a] == '*' {
        assert(t =~= "*"@);
        return Ok(Field::All);
    }
    assert(t != "*"@);
    if b - a >= 2 && v[a] == '*' && v[a + 1] == '/' {
        assert(t.skip(2) =~= v@.subrange(a + 2, b as int));
        return match parse_u32_range(&v, a + 2, b) {
            None => {
                let part = string_from_range(&v, a + 2, b);
                Err(concat3("invalid step '", part.as_str(), "'"))
            },
            Some(n) => if n == 0 {
                Err("step cannot be 0".to_owned())
            } else {
                Ok(Field::Step(n))
            },
        };
    }
    let dash = find_in(&v, a, b, '-');
    proof {
        crate::text::lemma_find_char_contains(t, '-');
        crate::text::lemma_find_char_contains(t, ',');
    }
    if dash < b {
        return parse_range(&v, a, b);
    }
    let comma = find_in(&v, a, b, ',');
    if comma < b {
        return match parse_list(&v, a, b) {
            Ok(vals) => Ok(Field::List(vals)),
            Err(e) => Err(e),
        };
    }
    match parse_u32_range(&v, a, b) {
        None => {
            let part = string_from_range(&v, a, b);
            Err(concat3("invalid value '", part.as_str(), "'"))
        },
        Some(x) => {
            let mut vals: Vec<u32> = Vec::new();
            vals.push(x);
            assert(vals@ =~= seq![x]);
            Ok(Field::List(vals))
        },
    }
}

/// What parsing a whole schedule gives: exactly five whitespace-separated
/// fields, parsed in order, the first error winning.
pub open spec fn schedule_spec(s: Seq<char>) -> Result<Seq<FieldView>, Seq<char>> {
    let parts = split_ws(s);
    if parts.len() != 5 {
        Err("cron expression must have exactly 5 fields (min hour dom month dow), got "@ + decimal(parts.len()))
    } else {
        fields_spec(parts)
    }
}

/// The fields of a list of parts, or the first error.
pub open spec fn fields_spec(parts: Seq<Seq<char>>) -> Result<Seq<FieldView>, Seq<char>>
    decreases parts.len(),
{
    if parts.len() == 0 {
        Ok(Seq::empty())
    } else {
        match field_spec(parts[0]) {
            Err(e) => Err(e),
            Ok(f) => match fields_spec(parts.drop_first()) {
                Ok(rest) => Ok(seq![f] + rest),
                Err(e) => Err(e),
            },
        }
    }
}

/// The fields of a schedule, in order.
pub open spec fn schedule_fields(c: CronSchedule) -> Seq<FieldView> {
    seq![c.minute@, c.hour@, c.dom@, c.month@, c.dow@]
}

/// The texts of the given ranges of `v`.
pub open spec fn range_texts(v: Seq<char>, rs: Seq<(usize, usize)>) -> Seq<Seq<char>> {
    rs.map_values(|r: (usize, usize)| v.subrange(r.0 as int, r.1 as int))
}

/// The whitespace-separated parts of `v`, as index ranges.
fn split_parts(v: &Vec<char>) -> (rs: Vec<(usize, usize)>)
    ensures
        range_texts(v@, rs@) == split_ws(v@),
        forall|i: int| 0 <= i < rs@.len() ==> (#[trigger] rs@[i]).0 <= rs@[i].1 <= v@.len(),
{
    let n = v.len();
    let mut rs: Vec<(usize, usize)> = Vec::new();
    let mut lo: usize = 0;
    assert(v@.subrange(0, n as int) =~= v@);
    loop
        invariant
            n == v@.len(),
            lo <= n,
            split_ws(v@) == range_texts(v@, rs@) + split_ws(v@.subrange(lo as int, n as int)),
            forall|i: int| 0 <= i < rs@.len() ==> (#[trigger] rs@[i]).0 <= rs@[i].1 <= v@.len(),
        decreases n - lo,
    {
        let ghost sub = v@.subrange(lo as int, n as int);
        let mut a = lo;
        while a < n && char_is_ws(v[a])
            invariant
                lo <= a <= n,
                n == v@.len(),
                sub == v@.subrange(lo as int, n as int),
                trim_start(v@.subrange(a as int, n as int)) == trim_start(sub),
            decreases n - a,
        {
            assert(v@.subrange(a as int, n as int).drop_first() =~= v@.subrange(a + 1, n as int));
            a = a + 1;
        }
        let ghost t = v@.subrange(a as int, n as int);
        assert(trim_start(t) == t);
        if a == n {
            proof {
                assert(split_ws(sub) =~= Seq::<Seq<char>>::empty());
                assert(range_texts(v@, rs@) + Seq::<Seq<char>>::empty() =~= range_texts(v@, rs@));
            }
            return rs;
        }
        let mut k = a;
        while k < n && !char_is_ws(v[k])
            invariant
                a <= k <= n,
                n == v@.len(),
                t == v@.subrange(a as int, n as int),
                find_ws(t) == (k - a) + find_ws(v@.subrange(k as int, n as int)),
            decreases n - k,
        {
            assert(v@.subrange(k as int, n as int).drop_first() =~= v@.subrange(k + 1, n as int));
            k = k + 1;
        }
        proof {
            lemma_find_ws(t);
            assert(find_ws(t) == k - a);
            assert(t.take(k - a) =~= v@.subrange(a as int, k as int));
            assert(t.skip(k - a) =~= v@.subrange(k as int, n as int));
        }
        let ghost r0 = rs@;
        rs.push((a, k));
        proof {
            assert(range_texts(v@, rs@) =~= range_texts(v@, r0).push(v@.subrange(a as int, k as int)));
            assert(split_ws(sub) == seq![t.take(k - a)].add(split_ws(t.skip(k - a))));
            assert(split_ws(v@) =~= range_texts(v@, rs@) + split_ws(v@.subrange(k as int, n as int)));
        }
        lo = k;
    }
}

proof fn lemma_fields_spec_cons(x: Seq<char>, rest: Seq<Seq<char>>)
    ensures
        fields_spec(seq![x].add(rest)) == (match field_spec(x) {
            Err(e) => Err(e),
            Ok(f) => match fields_spec(rest) {
                Ok(r) => Ok(seq![f] + r),
                Err(e) => Err(e),
            },
        }),
{
    let p = seq![x].add(rest);
    assert(p[0] == x);
    assert(p.drop_first() =~= rest);
}

/// A minute start after `now` is the `k`-th one scanned, for `k` from 1.
proof fn lemma_scan_index(now: int, t2: int) -> (k: int)
    requires
        now >= 0,
        now < t2,
        t2 % 60 == 0,
    ensures
        k >= 1,
        t2 == scan_time(now, k),
{
    let q = now / 60;
    let q2 = t2 / 60;
    assert(now == 60 * q + now % 60);
    assert(t2 == 60 * q2);
    q2 - q
}

impl CronSchedule {
    /// Parses a five-field cron expression.
    pub fn parse(s: &str) -> (r: Result<CronSchedule, String>)
        ensures
            match r {
                Ok(c) => schedule_spec(s@) == Ok::<Seq<FieldView>, Seq<char>>(schedule_fields(c)) && schedule_wf(c),
                Err(e) => schedule_spec(s@) == Err::<Seq<FieldView>, Seq<char>>(e@),
            },
    {
        let v = chars_of(s);
        let rs = split_parts(&v);
        let ghost parts = split_ws(s@);
        if rs.len() != 5 {
            let count = u64_to_decimal(rs.len() as u64);
            let e = concat2("cron expression must have exactly 5 fields (min hour dom month dow), got ", count.as_str());
            return Err(e);
        }
        let ghost p = parts;
        assert(p[0] == v@.subrange(rs@[0].0 as int, rs@[0].1 as int));
        assert(p[1] == v@.subrange(rs@[1].0 as int, rs@[1].1 as int));
        assert(p[2] == v@.subrange(rs@[2].0 as int, rs@[2].1 as int));
        assert(p[3] == v@.subrange(rs@[3].0 as int, rs@[3].1 as int));
        assert(p[4] == v@.subrange(rs@[4].0 as int, rs@[4].1 as int));
        proof {
            lemma_fields_spec_cons(p[0], p.skip(1));
            lemma_fields_spec_cons(p[1], p.skip(2));
            lemma_fields_spec_cons(p[2], p.skip(3));
            lemma_fields_spec_cons(p[3], p.skip(4));
            lemma_fields_spec_cons(p[4], p.skip(5));
            assert(p =~= seq![p[0]].add(p.skip(1)));
            assert(p.skip(1) =~= seq![p[1]].add(p.skip(2)));
            assert(p.skip(2) =~= seq![p[2]].add(p.skip(3)));
            assert(p.skip(3) =~= seq![p[3]].add(p.skip(4)));
            assert(p.skip(4) =~= seq![p[4]].add(p.skip(5)));
            assert(p.skip(5) =~= Seq::<Seq<char>>::empty());
        }
        let t0 = string_from_range(&v, rs[0].0, rs[0].1);
        let minute = match parse_field(t0.as_str()) {
            Ok(f) => f,
            Err(e) => return Err(e),
        };
        let t1 = string_from_range(&v, rs[1].0, rs[1].1);
        let hour = match parse_field(t1.as_str()) {
            Ok(f) => f,
            Err(e) => return Err(e),
        };
        let t2 = string_from_range(&v, rs[2].0, rs[2].1);
        let dom = match parse_field(t2.as_str()) {
            Ok(f) => f,
            Err(e) => return Err(e),
        };
        let t3 = string_from_range(&v, rs[3].0, rs[3].1);
        let month = match parse_field(t3.as_str()) {
            Ok(f) => f,
            Err(e) => return Err(e),
        };
        let t4 = string_from_range(&v, rs[4].0, rs[4].1);
        let dow = match parse_field(t4.as_str()) {
            Ok(f) => f,
            Err(e) => return Err(e),
        };
        let c = CronSchedule { minute, hour, dom, month, dow };
        proof {
            assert(schedule_fields(c) =~= seq![c.minute@] + (seq![c.hour@] + (seq![c.dom@] + (seq![c.month@] + (seq![c.dow@] + Seq::<FieldView>::empty())))));
        }
        Ok(c)
    }
}

impl Field {
    /// Whether the field admits `value`.
    pub fn matches(&self, value: u32) -> (b: bool)
        requires
            field_wf(self@),
        ensures
            b == field_admits(self@, value as int),
    {
        match self {
            Field::All => true,
            Field::Step(n) => value % *n == 0,
            Field::List(vals) => {
                let k = vals.len();
                for i in 0..k
                    invariant
                        k == vals@.len(),
                        self@ == FieldView::List(vals@),
                        forall|j: int| 0 <= j < i ==> vals@[j] != value,
                {
                    if vals[i] == value {
                        assert(vals@[i as int] == value);
                        assert(vals@.contains(value));
                        return true;
                    }
                }
                assert(!vals@.contains(value));
                false
            },
            Field::Range { start, end, step } => value >= *start && value <= *end && (value - *start) % *step == 0,
        }
    }
}

impl CronSchedule {
    /// Whether the schedule fires at the given UTC date and time (to the
    /// minute); the day-of-week field is matched against the weekday of the
    /// date (0 = Sunday).
    pub fn matches(&self, year: u32, month: u32, day: u32, hour: u32, minute: u32) -> (b: bool)
        requires
            schedule_wf(*self),
        ensures
            b == schedule_admits(*self, year as int, month as int, day as int, hour as int, minute as int),
    {
        self.minute.matches(minute) && self.hour.matches(hour) && self.dom.matches(day)
            && self.month.matches(month) && self.dow.matches(weekday_of(year, month, day))
    }

    /// The first minute start strictly after `now_secs` at which the schedule
    /// fires, looking at most a leap year of minutes ahead; `None` for a
    /// negative `now_secs` or when nothing fires in that span.
    pub fn next_utc_seconds(&self, now_secs: i64) -> (r: Option<i64>)
        requires
            schedule_wf(*self),
            now_secs < MAX_EPOCH_SECS,
        ensures
            now_secs < 0 ==> r is None,
            r matches Some(t) ==> t > now_secs && t % 60 == 0,
            now_secs >= 0 ==> match r {
                Some(t) => exists|k: int| 1 <= k <= SCAN_MINUTES && t == scan_time(now_secs as int, k)
                    && fires(*self, t as int)
                    && forall|j: int| 1 <= j < k ==> !fires(*self, #[trigger] scan_time(now_secs as int, j)),
                None => forall|k: int| 1 <= k <= SCAN_MINUTES ==> !fires(*self, #[trigger] scan_time(now_secs as int, k)),
            },
            // the same, over minute starts: the first one after `now_secs` that fires
            r matches Some(t) ==> fires(*self, t as int)
                && forall|t2: int| now_secs < t2 < t && t2 % 60 == 0 ==> !#[trigger] fires(*self, t2),
            now_secs >= 0 && r is None ==>
                forall|t2: int| now_secs < t2 <= scan_time(now_secs as int, SCAN_MINUTES as int) && t2 % 60 == 0
                    ==> !#[trigger] fires(*self, t2),
    {
        if now_secs < 0 {
            return None;
        }
        let ghost now = now_secs as int;
        let c0 = epoch_to_utc(now_secs);
        proof {
            lemma_civil_of_valid(now);
            lemma_civil_year_bound(now);
            lemma_next_minute(c0.0 as int, c0.1 as int, c0.2 as int, c0.3 as int, c0.4 as int);
        }
        let (mut year, mut month, mut day, mut hour, mut minute) = advance_minute(c0);
        let max: u32 = 60 * 24 * 366;
        let mut i: u32 = 0;
        while i < max
            invariant
                max == SCAN_MINUTES,
                0 <= now < MAX_EPOCH_SECS,
                now == now_secs as int,
                schedule_wf(*self),
                i <= max,
                valid_civil(year as int, month as int, day as int, hour as int, minute as int),
                year >= 1970,
                epoch_of(year as int, month as int, day as int, hour as int, minute as int) == scan_time(now, i + 1),
                forall|j: int| 1 <= j <= i ==> !fires(*self, #[trigger] scan_time(now, j)),
            decreases max - i,
        {
            // a day past the end of its month rolls into the next month
            while day > days_in_month(year, month)
                invariant
                    valid_civil(year as int, month as int, day as int, hour as int, minute as int),
                    year >= 1970,
                    epoch_of(year as int, month as int, day as int, hour as int, minute as int) == scan_time(now, i + 1),
                decreases day,
            {
                day = day - days_in_month(year, month);
                month = month + 1;
                if month > 12 {
                    month = 1;
                    year = year + 1;
                }
            }
            let ghost t = scan_time(now, i + 1);
            proof {
                lemma_civil_roundtrip(year as int, month as int, day as int, hour as int, minute as int);
                assert(civil_of(t) == (year as int, month as int, day as int, hour as int, minute as int));
                lemma_civil_year_bound(t);
            }
            if self.matches(year, month, day, hour, minute) {
                if let Some(target) = utc_to_epoch(year, month, day, hour, minute) {
                    if target > now_secs {
                        assert(fires(*self, t));
                        proof {
                            assert forall|t2: int| now_secs < t2 < target && t2 % 60 == 0 implies !#[trigger] fires(*self, t2) by {
                                let k = lemma_scan_index(now, t2);
                                assert(k < i + 1);
                                assert(!fires(*self, scan_time(now, k)));
                            }
                        }
                        return Some(target);
                    }
                }
            }
            proof {
                assert(!fires(*self, t));
                lemma_next_minute(year as int, month as int, day as int, hour as int, minute as int);
            }
            let n = advance_minute((year, month, day, hour, minute));
            year = n.0;
            month = n.1;
            day = n.2;
            hour = n.3;
            minute = n.4;
            i = i + 1;
        }
        proof {
            assert forall|t2: int| now_secs < t2 <= scan_time(now, SCAN_MINUTES as int) && t2 % 60 == 0 implies !#[trigger] fires(*self, t2) by {
                let k = lemma_scan_index(now, t2);
                assert(k <= SCAN_MINUTES);
                assert(!fires(*self, scan_time(now, k)));
            }
        }
        None
    }
}

impl std::str::FromStr for Field {
    type Err = String;

    /// Parses one cron field (see `parse_field`).
    fn from_str(s: &str) -> (r: Result<Field, String>)
        ensures
            field_result_view(r) == field_spec(s@),
            r matches Ok(f) ==> field_wf(f@),
    {
        parse_field(s)
    }
}

impl std::str::FromStr for CronSchedule {
    type Err = String;

    /// Parses a five-field cron expression (see `CronSchedule::parse`).
    fn from_str(s: &str) -> (r: Result<CronSchedule, String>)
        ensures
            match r {
                Ok(c) => schedule_spec(s@) == Ok::<Seq<FieldView>, Seq<char>>(schedule_fields(c)) && schedule_wf(c),
                Err(e) => schedule_spec(s@) == Err::<Seq<FieldView>, Seq<char>>(e@),
            },
    {
        CronSchedule::parse(s)
    }
}

} // verus!
