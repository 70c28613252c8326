//! The event subscription table: which (window, plugin) pairs listen to which
//! event types, and who receives an emitted event.
use vstd::prelude::*;
use crate::text::str_eq;

verus! {

/// Every subscription: a host window label, a plugin id in it, and an event
/// type it listens to. A (window, plugin) pair appears exactly while it
/// listens to at least one type.
#[derive(Debug)]
pub struct SubscriptionTable {
    pub entries: Vec<(String, String, String)>,
}

pub open spec fn triple_view(e: (String, String, String)) -> (Seq<char>, Seq<char>, Seq<char>) {
    (e.0@, e.1@, e.2@)
}

pub open spec fn triples(es: Seq<(String, String, String)>) -> Seq<(Seq<char>, Seq<char>, Seq<char>)> {
    es.map_values(|e: (String, String, String)| triple_view(e))
}

impl View for SubscriptionTable {
    type V = Set<(Seq<char>, Seq<char>, Seq<char>)>;

    open spec fn view(&self) -> Set<(Seq<char>, Seq<char>, Seq<char>)> {
        triples(self.entries@).to_set()
    }
}

/// No subscription is listed twice.
pub open spec fn no_repeats(s: Seq<(Seq<char>, Seq<char>, Seq<char>)>) -> bool {
    forall|i: int, j: int| 0 <= i < j < s.len() ==> #[trigger] s[i] != #[trigger] s[j]
}

impl SubscriptionTable {
    pub open spec fn wf(&self) -> bool {
        no_repeats(triples(self.entries@))
    }

    /// No subscriptions.
    pub fn new() -> (t: SubscriptionTable)
        ensures
            t.wf(),
            t@ == Set::<(Seq<char>, Seq<char>, Seq<char>)>::empty(),
    {
        let t = SubscriptionTable { entries: Vec::new() };
        assert(t@ =~= Set::<(Seq<char>, Seq<char>, Seq<char>)>::empty());
        t
    }
}

/// Pairs of strings as plain values.
pub open spec fn pairs_of(r: Seq<(String, String)>) -> Seq<(Seq<char>, Seq<char>)> {
    r.map_values(|p: (String, String)| (p.0@, p.1@))
}

/// The (window, plugin) pairs an event of type `t` goes to.
pub open spec fn targets_of(s: Set<(Seq<char>, Seq<char>, Seq<char>)>, t: Seq<char>) -> Set<(Seq<char>, Seq<char>)> {
    Set::new(|k: (Seq<char>, Seq<char>)| s.contains((k.0, k.1, t)))
}

/// The event types window `label`'s plugin listens to.
pub open spec fn types_of(s: Set<(Seq<char>, Seq<char>, Seq<char>)>, label: Seq<char>, plugin_id: Seq<char>) -> Set<Seq<char>> {
    Set::new(|t: Seq<char>| s.contains((label, plugin_id, t)))
}

proof fn lemma_push_contains<A>(s: Seq<A>, x: A, y: A)
    ensures
        s.push(x).contains(y) <==> (s.contains(y) || y == x),
{
    if s.contains(y) {
        let j = choose|j: int| 0 <= j < s.len() && s[j] == y;
        assert(s.push(x)[j] == y);
    }
    if y == x {
        assert(s.push(x)[s.len() as int] == y);
    }
    if s.push(x).contains(y) {
        let j = choose|j: int| 0 <= j < s.push(x).len() && s.push(x)[j] == y;
        if j < s.len() {
            assert(s[j] == y);
        }
    }
}

proof fn lemma_take_step<A>(s: Seq<A>, i: int, y: A)
    requires
        0 <= i < s.len(),
    ensures
        s.take(i + 1).contains(y) <==> (s.take(i).contains(y) || s[i] == y),
{
    assert(s.take(i + 1) =~= s.take(i).push(s[i]));
    lemma_push_contains(s.take(i), s[i], y);
}

/// Whether a subscription is one of those being dropped: it is in window
/// `label` and, when given, of plugin `plugin_id` and of type `event_type`.
pub open spec fn dropped(x: (Seq<char>, Seq<char>, Seq<char>), label: Seq<char>, plugin_id: Option<Seq<char>>, event_type: Option<Seq<char>>) -> bool {
    x.0 == label && (plugin_id matches Some(p) ==> x.1 == p) && (event_type matches Some(t) ==> x.2 == t)
}

pub open spec fn opt_str(o: Option<&str>) -> Option<Seq<char>> {
    match o {
        Some(s) => Some(s@),
        None => None,
    }
}

/// Drops the matching subscriptions, keeping the rest in order.
fn retain_subscriptions(table: &mut SubscriptionTable, label: &str, plugin_id: Option<&str>, event_type: Option<&str>)
    requires
        old(table).wf(),
    ensures
        final(table).wf(),
        final(table)@ == old(table)@.filter(|x: (Seq<char>, Seq<char>, Seq<char>)| !dropped(x, label@, opt_str(plugin_id), opt_str(event_type))),
{
    let ghost old_s = triples(table.entries@);
    let ghost pv = opt_str(plugin_id);
    let ghost tv = opt_str(event_type);
    let mut kept: Vec<(String, String, String)> = Vec::new();
    let n = table.entries.len();
    for i in 0..n
        invariant
            n == table.entries@.len(),
            old_s == triples(table.entries@),
            no_repeats(old_s),
            no_repeats(triples(kept@)),
            pv == opt_str(plugin_id),
            tv == opt_str(event_type),
            forall|x: (Seq<char>, Seq<char>, Seq<char>)| triples(kept@).contains(x) <==> (old_s.take(i as int).contains(x) && !dropped(x, label@, pv, tv)),
    {
        let e = &table.entries[i];
        let m_label = str_eq(e.0.as_str(), label);
        let m_plugin = match plugin_id {
            Some(p) => str_eq(e.1.as_str(), p),
            None => true,
        };
        let m_type = match event_type {
            Some(t) => str_eq(e.2.as_str(), t),
            None => true,
        };
        let ghost x = old_s[i as int];
        assert(x == triple_view(table.entries@[i as int]));
        assert(old_s.take(i + 1) =~= old_s.take(i as int).push(x));
        if !(m_label && m_plugin && m_type) {
            assert(!dropped(x, label@, pv, tv));
            let ghost before = triples(kept@);
            kept.push((e.0.clone(), e.1.clone(), e.2.clone()));
            proof {
                assert(triples(kept@) =~= before.push(x));
                assert(!old_s.take(i as int).contains(x)) by {
                    if old_s.take(i as int).contains(x) {
                        let j = choose|j: int| 0 <= j < i && #[trigger] old_s.take(i as int)[j] == x;
                        assert(old_s[j] == old_s[i as int]);
                    }
                }
                assert(!before.contains(x));
                assert forall|a: int, b: int| 0 <= a < b < triples(kept@).len() implies #[trigger] triples(kept@)[a] != #[trigger] triples(kept@)[b] by {
                    if b == before.len() {
                        assert(triples(kept@)[a] == before[a]);
                        assert(before.contains(before[a]));
                    } else {
                        assert(triples(kept@)[a] == before[a] && triples(kept@)[b] == before[b]);
                    }
                }
                assert forall|y: (Seq<char>, Seq<char>, Seq<char>)| triples(kept@).contains(y) <==> (old_s.take(i + 1).contains(y) && !dropped(y, label@, pv, tv)) by {
                    lemma_push_contains(before, x, y);
                    lemma_take_step(old_s, i as int, y);
                }
            }
        } else {
            proof {
                assert(dropped(x, label@, pv, tv));
                assert forall|y: (Seq<char>, Seq<char>, Seq<char>)| triples(kept@).contains(y) <==> (old_s.take(i + 1).contains(y) && !dropped(y, label@, pv, tv)) by {
                    lemma_take_step(old_s, i as int, y);
                }
            }
        }
    }
    proof {
        assert(old_s.take(n as int) =~= old_s);
        assert(triples(kept@).to_set() =~= old_s.to_set().filter(|x: (Seq<char>, Seq<char>, Seq<char>)| !dropped(x, label@, pv, tv)));
    }
    table.entries = kept;
}

/// Subscribes window `label`'s plugin to event type `event_type`.
pub fn event_subscribe(table: &mut SubscriptionTable, label: &str, plugin_id: &str, event_type: &str)
    requires
        old(table).wf(),
    ensures
        final(table).wf(),
        final(table)@ == old(table)@.insert((label@, plugin_id@, event_type@)),
{
    let ghost s = triples(table.entries@);
    let ghost x = (label@, plugin_id@, event_type@);
    let n = table.entries.len();
    for i in 0..n
        invariant
            n == table.entries@.len(),
            s == triples(table.entries@),
            x == (label@, plugin_id@, event_type@),
            no_repeats(s),
            forall|j: int| 0 <= j < i ==> s[j] != x,
    {
        let e = &table.entries[i];
        if str_eq(e.0.as_str(), label) && str_eq(e.1.as_str(), plugin_id) && str_eq(e.2.as_str(), event_type) {
            proof {
                assert(s[i as int] == triple_view(table.entries@[i as int]));
                assert(s[i as int] == x);
                assert(s.contains(x));
                assert(table@ =~= table@.insert(x));
            }
            return;
        }
    }
    table.entries.push((label.to_owned(), plugin_id.to_owned(), event_type.to_owned()));
    proof {
        let s2 = triples(table.entries@);
        assert(s2 =~= s.push(x));
        assert forall|y: (Seq<char>, Seq<char>, Seq<char>)| s2.contains(y) <==> (s.contains(y) || y == x) by {
            lemma_push_contains(s, x, y);
        }
        assert forall|a: int, b: int| 0 <= a < b < s2.len() implies #[trigger] s2[a] != #[trigger] s2[b] by {
            if b == s.len() {
                assert(s2[a] == s[a]);
            } else {
                assert(s2[a] == s[a] && s2[b] == s[b]);
            }
        }
        assert(table@ =~= old(table)@.insert(x));
    }
}

/// Unsubscribes window `label`'s plugin from `event_type`, or from every
/// type when none is given.
pub fn event_unsubscribe(table: &mut SubscriptionTable, label: &str, plugin_id: &str, event_type: Option<&str>)
    requires
        old(table).wf(),
    ensures
        final(table).wf(),
        final(table)@ == old(table)@.filter(|x: (Seq<char>, Seq<char>, Seq<char>)| !dropped(x, label@, Some(plugin_id@), opt_str(event_type))),
{
    retain_subscriptions(table, label, Some(plugin_id), event_type);
}

/// Drops every subscription of window `label` (when the window closes).
pub fn event_purge_window(table: &mut SubscriptionTable, label: &str)
    requires
        old(table).wf(),
    ensures
        final(table).wf(),
        final(table)@ == old(table)@.filter(|x: (Seq<char>, Seq<char>, Seq<char>)| x.0 != label@),
{
    retain_subscriptions(table, label, None, None);
    proof {
        assert(final(table)@ =~= old(table)@.filter(|x: (Seq<char>, Seq<char>, Seq<char>)| x.0 != label@));
    }
}

/// The (window, plugin) pairs that receive an event of type `event_type`,
/// each once.
pub fn event_targets(table: &SubscriptionTable, event_type: &str) -> (r: Vec<(String, String)>)
    requires
        table.wf(),
    ensures
        pairs_of(r@).to_set() == targets_of(table@, event_type@),
        forall|i: int, j: int| 0 <= i < j < r@.len() ==> (#[trigger] r@[i]).0@ != (#[trigger] r@[j]).0@ || r@[i].1@ != r@[j].1@,
{
    let ghost s = triples(table.entries@);
    let mut r: Vec<(String, String)> = Vec::new();
    let n = table.entries.len();
    for i in 0..n
        invariant
            n == table.entries@.len(),
            s == triples(table.entries@),
            no_repeats(s),
            forall|k: (Seq<char>, Seq<char>)| pairs_of(r@).contains(k) <==> s.take(i as int).contains((k.0, k.1, event_type@)),
            forall|a: int, b: int| 0 <= a < b < r@.len() ==> (#[trigger] r@[a]).0@ != (#[trigger] r@[b]).0@ || r@[a].1@ != r@[b].1@,
    {
        let e = &table.entries[i];
        let ghost x = s[i as int];
        assert(x == triple_view(table.entries@[i as int]));
        assert(s.take(i + 1) =~= s.take(i as int).push(x));
        let ghost rv = pairs_of(r@);
        if str_eq(e.2.as_str(), event_type) {
            r.push((e.0.clone(), e.1.clone()));
            proof {
                let rv2 = pairs_of(r@);
                assert(rv2 =~= rv.push((x.0, x.1)));
                assert(x.2 == event_type@);
                assert(!s.take(i as int).contains(x)) by {
                    if s.take(i as int).contains(x) {
                        let j = choose|j: int| 0 <= j < i && #[trigger] s.take(i as int)[j] == x;
                        assert(s[j] == s[i as int]);
                    }
                }
                assert((x.0, x.1, event_type@) == x);
                assert(rv.contains((x.0, x.1)) <==> s.take(i as int).contains((x.0, x.1, event_type@)));
                assert(!rv.contains((x.0, x.1)));
                assert forall|a: int, b: int| 0 <= a < b < r@.len() implies (#[trigger] r@[a]).0@ != (#[trigger] r@[b]).0@ || r@[a].1@ != r@[b].1@ by {
                    if b == rv.len() {
                        assert(rv[a] == (r@[a].0@, r@[a].1@));
                        if r@[a].0@ == r@[b].0@ && r@[a].1@ == r@[b].1@ {
                            assert(rv.contains(rv[a]));
                        }
                    }
                }
                assert forall|k: (Seq<char>, Seq<char>)| rv2.contains(k) <==> s.take(i + 1).contains((k.0, k.1, event_type@)) by {
                    lemma_push_contains(rv, (x.0, x.1), k);
                    lemma_take_step(s, i as int, (k.0, k.1, event_type@));
                }
            }
        } else {
            proof {
                assert forall|k: (Seq<char>, Seq<char>)| rv.contains(k) <==> s.take(i + 1).contains((k.0, k.1, event_type@)) by {
                    lemma_take_step(s, i as int, (k.0, k.1, event_type@));
                }
            }
        }
    }
    proof {
        assert(s.take(n as int) =~= s);
        let rv = pairs_of(r@);
        assert forall|k: (Seq<char>, Seq<char>)| rv.to_set().contains(k) <==> targets_of(table@, event_type@).contains(k) by {
            assert(rv.to_set().contains(k) == rv.contains(k));
            assert(rv.contains(k) <==> s.take(n as int).contains((k.0, k.1, event_type@)));
            assert(table@.contains((k.0, k.1, event_type@)) == s.contains((k.0, k.1, event_type@)));
            if s.contains((k.0, k.1, event_type@)) {
                assert(table@.contains((k.0, k.1, event_type@)));
            }
            if table@.contains((k.0, k.1, event_type@)) {
                assert(s.contains((k.0, k.1, event_type@)));
            }
        }
        assert(rv.to_set() =~= targets_of(table@, event_type@));
    }
    r
}

/// The event types that plugin `plugin_id` in window `label` listens to.
pub fn subscribed_types(table: &SubscriptionTable, label: &str, plugin_id: &str) -> (r: Vec<String>)
    ensures
        crate::order::views(r@).to_set() == types_of(table@, label@, plugin_id@),
{
    let ghost s = triples(table.entries@);
    let mut r: Vec<String> = Vec::new();
    let n = table.entries.len();
    for i in 0..n
        invariant
            n == table.entries@.len(),
            s == triples(table.entries@),
            forall|t: Seq<char>| crate::order::views(r@).contains(t) <==> s.take(i as int).contains((label@, plugin_id@, t)),
    {
        let e = &table.entries[i];
        let ghost x = s[i as int];
        assert(x == triple_view(table.entries@[i as int]));
        let ghost rv = crate::order::views(r@);
        if str_eq(e.0.as_str(), label) && str_eq(e.1.as_str(), plugin_id) {
            r.push(e.2.clone());
            proof {
                assert(crate::order::views(r@) =~= rv.push(x.2));
                assert forall|t: Seq<char>| crate::order::views(r@).contains(t) <==> s.take(i + 1).contains((label@, plugin_id@, t)) by {
                    lemma_push_contains(rv, x.2, t);
                    lemma_take_step(s, i as int, (label@, plugin_id@, t));
                }
            }
        } else {
            proof {
                assert forall|t: Seq<char>| rv.contains(t) <==> s.take(i + 1).contains((label@, plugin_id@, t)) by {
                    lemma_take_step(s, i as int, (label@, plugin_id@, t));
                }
            }
        }
    }
    proof {
        assert(s.take(n as int) =~= s);
        let rv = crate::order::views(r@);
        assert forall|t: Seq<char>| rv.to_set().contains(t) <==> types_of(table@, label@, plugin_id@).contains(t) by {
            if s.contains((label@, plugin_id@, t)) {
                assert(table@.contains((label@, plugin_id@, t)));
            }
            if table@.contains((label@, plugin_id@, t)) {
                assert(s.contains((label@, plugin_id@, t)));
            }
        }
        assert(rv.to_set() =~= types_of(table@, label@, plugin_id@));
    }
    r
}

/// After a subscription, events of that type reach the subscriber.
pub proof fn lemma_subscribed_receives(s: Set<(Seq<char>, Seq<char>, Seq<char>)>, label: Seq<char>, plugin_id: Seq<char>, t: Seq<char>)
    ensures
        targets_of(s.insert((label, plugin_id, t)), t).contains((label, plugin_id)),
{
}

/// After unsubscribing from everything, a subscriber receives no event.
pub proof fn lemma_unsubscribed_receives_nothing(s: Set<(Seq<char>, Seq<char>, Seq<char>)>, label: Seq<char>, plugin_id: Seq<char>, t: Seq<char>)
    ensures
        !targets_of(s.filter(|x: (Seq<char>, Seq<char>, Seq<char>)| !dropped(x, label, Some(plugin_id), None)), t).contains((label, plugin_id)),
{
}

/// After its window closes, no plugin of that window receives an event.
pub proof fn lemma_purged_window_receives_nothing(s: Set<(Seq<char>, Seq<char>, Seq<char>)>, label: Seq<char>, plugin_id: Seq<char>, t: Seq<char>)
    ensures
        !targets_of(s.filter(|x: (Seq<char>, Seq<char>, Seq<char>)| x.0 != label), t).contains((label, plugin_id)),
{
}

/// Subscribing to a new type and then unsubscribing from it leaves the table
/// as it was.
pub proof fn lemma_subscribe_unsubscribe(s: Set<(Seq<char>, Seq<char>, Seq<char>)>, label: Seq<char>, plugin_id: Seq<char>, t: Seq<char>)
    requires
        !s.contains((label, plugin_id, t)),
    ensures
        s.insert((label, plugin_id, t)).filter(|x: (Seq<char>, Seq<char>, Seq<char>)| !dropped(x, label, Some(plugin_id), Some(t))) == s,
{
    assert(s.insert((label, plugin_id, t)).filter(|x: (Seq<char>, Seq<char>, Seq<char>)| !dropped(x, label, Some(plugin_id), Some(t))) =~= s);
}

/// Unsubscribing from one type leaves the subscriber's other types.
pub proof fn lemma_unsubscribe_keeps_other_types(s: Set<(Seq<char>, Seq<char>, Seq<char>)>, label: Seq<char>, plugin_id: Seq<char>, t: Seq<char>, other: Seq<char>)
    requires
        other != t,
    ensures
        types_of(s.filter(|x: (Seq<char>, Seq<char>, Seq<char>)| !dropped(x, label, Some(plugin_id), Some(t))), label, plugin_id).contains(other)
            == types_of(s, label, plugin_id).contains(other),
{
}

} // verus!
