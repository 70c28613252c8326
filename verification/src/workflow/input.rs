//! Node input assembly: the values a node receives from upstream outputs,
//! from the trigger data and from its own config.
use vstd::prelude::*;
use crate::json::{clone_json, get_member, member, member_of, Json, JsonView};
use crate::workflow::model::DataBinding;
use crate::text::{find_char, find_in, chars_of, str_eq, string_from_range, lemma_find_char};

verus! {

/// Name/value pairs as plain values.
pub open spec fn pairs_view(v: Seq<(String, String)>) -> Seq<(Seq<char>, Seq<char>)> {
    v.map_values(|p: (String, String)| (p.0@, p.1@))
}

/// Edge maps as plain values.
pub open spec fn maps_view(v: Seq<Vec<(String, String)>>) -> Seq<Seq<(Seq<char>, Seq<char>)>> {
    v.map_values(|m: Vec<(String, String)>| pairs_view(m@))
}

/// Named outputs as plain values.
pub open spec fn outputs_view(v: Seq<(String, Json)>) -> Seq<(Seq<char>, JsonView)> {
    v.map_values(|p: (String, Json)| (p.0@, p.1@))
}

pub open spec fn or_null(v: Option<JsonView>) -> JsonView {
    match v {
        Some(x) => x,
        None => JsonView::Null,
    }
}

/// The first upstream output, in order, that has member `field`.
pub open spec fn first_field(outputs: Seq<(Seq<char>, JsonView)>, field: Seq<char>) -> JsonView
    decreases outputs.len(),
{
    if outputs.len() == 0 {
        JsonView::Null
    } else {
        match member(outputs[0].1, field) {
            Some(v) => v,
            None => first_field(outputs.drop_first(), field),
        }
    }
}

/// The value an edge-map entry `upstream -> downstream` feeds in: `__trigger__`
/// reads the trigger data, `node:field` reads one upstream node, and a bare
/// field name reads the first upstream output having it.
pub open spec fn source_value(upstream: Seq<char>, downstream: Seq<char>, outputs: Seq<(Seq<char>, JsonView)>, trigger: JsonView) -> JsonView {
    let k = find_char(upstream, ':');
    if upstream == "__trigger__"@ {
        or_null(member(trigger, downstream))
    } else if k < upstream.len() {
        match member_of(outputs, upstream.take(k)) {
            Some(o) => or_null(member(o, upstream.skip(k + 1))),
            None => JsonView::Null,
        }
    } else {
        first_field(outputs, upstream)
    }
}

/// Where member `key` stands, or the length when absent.
pub open spec fn key_index(ms: Seq<(Seq<char>, JsonView)>, key: Seq<char>) -> int
    decreases ms.len(),
{
    if ms.len() == 0 {
        0
    } else if ms[0].0 == key {
        0
    } else {
        1 + key_index(ms.drop_first(), key)
    }
}

/// Sets member `key` (replacing it, or adding it at the end).
pub open spec fn set_member(ms: Seq<(Seq<char>, JsonView)>, key: Seq<char>, v: JsonView) -> Seq<(Seq<char>, JsonView)> {
    let k = key_index(ms, key);
    if k < ms.len() {
        ms.update(k, (key, v))
    } else {
        ms.push((key, v))
    }
}

/// Adds member `key` unless present.
pub open spec fn default_member(ms: Seq<(Seq<char>, JsonView)>, key: Seq<char>, v: JsonView) -> Seq<(Seq<char>, JsonView)> {
    if key_index(ms, key) < ms.len() {
        ms
    } else {
        ms.push((key, v))
    }
}

pub open spec fn fold_pairs(obj: Seq<(Seq<char>, JsonView)>, pairs: Seq<(Seq<char>, Seq<char>)>, outputs: Seq<(Seq<char>, JsonView)>, trigger: JsonView) -> Seq<(Seq<char>, JsonView)>
    decreases pairs.len(),
{
    if pairs.len() == 0 {
        obj
    } else {
        fold_pairs(set_member(obj, pairs[0].1, source_value(pairs[0].0, pairs[0].1, outputs, trigger)), pairs.drop_first(), outputs, trigger)
    }
}

pub open spec fn fold_maps(obj: Seq<(Seq<char>, JsonView)>, maps: Seq<Seq<(Seq<char>, Seq<char>)>>, outputs: Seq<(Seq<char>, JsonView)>, trigger: JsonView) -> Seq<(Seq<char>, JsonView)>
    decreases maps.len(),
{
    if maps.len() == 0 {
        obj
    } else {
        fold_maps(fold_pairs(obj, maps[0], outputs, trigger), maps.drop_first(), outputs, trigger)
    }
}

pub open spec fn fold_defaults(obj: Seq<(Seq<char>, JsonView)>, cfg: Seq<(Seq<char>, JsonView)>) -> Seq<(Seq<char>, JsonView)>
    decreases cfg.len(),
{
    if cfg.len() == 0 {
        obj
    } else {
        fold_defaults(default_member(obj, cfg[0].0, cfg[0].1), cfg.drop_first())
    }
}

/// The assembled input object: every edge-map entry sets its downstream
/// member (later entries win), then config members fill in what is missing.
pub open spec fn assembled(maps: Seq<Seq<(Seq<char>, Seq<char>)>>, outputs: Seq<(Seq<char>, JsonView)>, trigger: JsonView, config: Option<JsonView>) -> JsonView {
    with_defaults(fold_maps(Seq::empty(), maps, outputs, trigger), config)
}

/// The input object with the members of an object config filled in where
/// missing.
pub open spec fn with_defaults(obj: Seq<(Seq<char>, JsonView)>, config: Option<JsonView>) -> JsonView {
    match config {
        Some(JsonView::Object(cfg)) => JsonView::Object(fold_defaults(obj, cfg)),
        _ => JsonView::Object(obj),
    }
}

/// A data binding as plain values: source node, its output field, and the
/// input member it feeds.
pub open spec fn binding_view(b: DataBinding) -> (Seq<char>, Seq<char>, Seq<char>) {
    (b.from@, b.output@, b.input@)
}

/// The value a binding feeds in: member `output` of the trigger data for the
/// `__trigger__` source, else member `output` of the source node's output;
/// null when missing.
pub open spec fn binding_value(from: Seq<char>, output: Seq<char>, outputs: Seq<(Seq<char>, JsonView)>, trigger: JsonView) -> JsonView {
    if from == "__trigger__"@ {
        or_null(member(trigger, output))
    } else {
        match member_of(outputs, from) {
            Some(o) => or_null(member(o, output)),
            None => JsonView::Null,
        }
    }
}

pub open spec fn fold_bindings(obj: Seq<(Seq<char>, JsonView)>, bs: Seq<(Seq<char>, Seq<char>, Seq<char>)>, outputs: Seq<(Seq<char>, JsonView)>, trigger: JsonView) -> Seq<(Seq<char>, JsonView)>
    decreases bs.len(),
{
    if bs.len() == 0 {
        obj
    } else {
        fold_bindings(set_member(obj, bs[0].2, binding_value(bs[0].0, bs[0].1, outputs, trigger)), bs.drop_first(), outputs, trigger)
    }
}

/// The first upstream output having member `field`, copied.
fn find_field_in_outputs(prior_outputs: &Vec<(String, Json)>, field: &str) -> (r: Json)
    ensures
        r@ == first_field(outputs_view(prior_outputs@), field@),
{
    let ghost ov = outputs_view(prior_outputs@);
    let n = prior_outputs.len();
    assert(ov.skip(0) =~= ov);
    for i in 0..n
        invariant
            n == prior_outputs@.len(),
            ov == outputs_view(prior_outputs@),
            first_field(ov, field@) == first_field(ov.skip(i as int), field@),
    {
        assert(ov.skip(i as int)[0] == ov[i as int]);
        assert(ov.skip(i as int).drop_first() =~= ov.skip(i + 1));
        match get_member(&prior_outputs[i].1, field) {
            Some(v) => {
                return v;
            },
            None => {},
        }
    }
    Json::Null
}

/// The output recorded for node `id`, copied.
fn output_of(prior_outputs: &Vec<(String, Json)>, id: &str) -> (r: Option<Json>)
    ensures
        match r {
            Some(v) => member_of(outputs_view(prior_outputs@), id@) == Some(v@),
            None => member_of(outputs_view(prior_outputs@), id@) is None,
        },
{
    let ghost ov = outputs_view(prior_outputs@);
    let n = prior_outputs.len();
    assert(ov.skip(0) =~= ov);
    for i in 0..n
        invariant
            n == prior_outputs@.len(),
            ov == outputs_view(prior_outputs@),
            member_of(ov, id@) == member_of(ov.skip(i as int), id@),
    {
        assert(ov.skip(i as int)[0] == ov[i as int]);
        assert(ov.skip(i as int).drop_first() =~= ov.skip(i + 1));
        if str_eq(prior_outputs[i].0.as_str(), id) {
            return Some(clone_json(&prior_outputs[i].1));
        }
    }
    None
}

fn member_or_null(j: &Json, key: &str) -> (r: Json)
    ensures
        r@ == or_null(member(j@, key@)),
{
    match get_member(j, key) {
        Some(v) => v,
        None => Json::Null,
    }
}

/// The value fed in by the entry `upstream -> downstream`.
fn source_value_of(upstream: &String, downstream: &String, prior_outputs: &Vec<(String, Json)>, trigger_data: &Json) -> (r: Json)
    ensures
        r@ == source_value(upstream@, downstream@, outputs_view(prior_outputs@), trigger_data@),
{
    proof {
        reveal_strlit("__trigger__");
    }
    if str_eq(upstream.as_str(), "__trigger__") {
        return member_or_null(trigger_data, downstream.as_str());
    }
    let v = chars_of(upstream.as_str());
    let n = v.len();
    let k = find_in(&v, 0, n, ':');
    assert(v@.subrange(0, n as int) =~= upstream@);
    if k < n {
        let source_id = string_from_range(&v, 0, k);
        let field = string_from_range(&v, k + 1, n);
        assert(upstream@.take(k as int) =~= source_id@);
        assert(upstream@.skip(k + 1) =~= field@);
        match output_of(prior_outputs, source_id.as_str()) {
            Some(o) => member_or_null(&o, field.as_str()),
            None => Json::Null,
        }
    } else {
        find_field_in_outputs(prior_outputs, upstream.as_str())
    }
}

pub proof fn lemma_key_index(ms: Seq<(Seq<char>, JsonView)>, key: Seq<char>)
    ensures
        0 <= key_index(ms, key) <= ms.len(),
        key_index(ms, key) < ms.len() ==> ms[key_index(ms, key)].0 == key,
        forall|i: int| 0 <= i < key_index(ms, key) ==> (#[trigger] ms[i]).0 != key,
    decreases ms.len(),
{
    if ms.len() > 0 && ms[0].0 != key {
        lemma_key_index(ms.drop_first(), key);
        assert forall|i: int| 0 <= i < key_index(ms, key) implies (#[trigger] ms[i]).0 != key by {
            if i > 0 {
                assert(ms[i] == ms.drop_first()[i - 1]);
            }
        }
    }
}

/// Where member `key` of `obj` stands, or the length when absent.
fn find_key(obj: &Vec<(String, Json)>, key: &String) -> (k: usize)
    ensures
        k == key_index(outputs_view(obj@), key@),
{
    let ghost ov = outputs_view(obj@);
    let n = obj.len();
    proof {
        lemma_key_index(ov, key@);
    }
    for i in 0..n
        invariant
            n == obj@.len(),
            ov == outputs_view(obj@),
            0 <= key_index(ov, key@) <= ov.len(),
            key_index(ov, key@) < ov.len() ==> ov[key_index(ov, key@)].0 == key@,
            forall|j: int| 0 <= j < key_index(ov, key@) ==> (#[trigger] ov[j]).0 != key@,
            i <= key_index(ov, key@),
    {
        if str_eq(obj[i].0.as_str(), key.as_str()) {
            assert(ov[i as int].0 == key@);
            return i;
        }
    }
    n
}

/// Sets member `key` to `v`.
fn set_member_exec(obj: &mut Vec<(String, Json)>, key: String, v: Json)
    ensures
        outputs_view(final(obj)@) == set_member(outputs_view(old(obj)@), key@, v@),
{
    let k = find_key(obj, &key);
    let ghost kv = key@;
    let ghost vv = v@;
    if k < obj.len() {
        obj.set(k, (key, v));
        proof {
            assert(outputs_view(obj@) =~= set_member(outputs_view(old(obj)@), kv, vv));
        }
    } else {
        obj.push((key, v));
        proof {
            assert(outputs_view(obj@) =~= set_member(outputs_view(old(obj)@), kv, vv));
        }
    }
}

/// Fills in the members of an object config that `obj` lacks, and wraps the
/// result as an object.
fn finish_with_defaults(obj: Vec<(String, Json)>, node_config: &Option<Json>) -> (r: Json)
    ensures
        r@ == with_defaults(outputs_view(obj@), match node_config { Some(c) => Some(c@), None => None }),
{
    let mut obj = obj;
    let ghost start = outputs_view(obj@);
    match node_config {
        Some(Json::Object(cfg)) => {
            let ghost cv = outputs_view(cfg@);
            assert(node_config.unwrap()@ == JsonView::Object(cv)) by {
                assert(node_config.unwrap()@->Object_0 =~= cv);
            }
            let nc = cfg.len();
            assert(cv.skip(0) =~= cv);
            for c in 0..nc
                invariant
                    nc == cfg@.len(),
                    cv == outputs_view(cfg@),
                    fold_defaults(start, cv) == fold_defaults(outputs_view(obj@), cv.skip(c as int)),
            {
                assert(cv.skip(c as int)[0] == (cfg@[c as int].0@, cfg@[c as int].1@));
                assert(cv.skip(c as int).drop_first() =~= cv.skip(c + 1));
                let k = find_key(&obj, &cfg[c].0);
                if k >= obj.len() {
                    let ghost before = outputs_view(obj@);
                    let key = cfg[c].0.clone();
                    let val = clone_json(&cfg[c].1);
                    obj.push((key, val));
                    assert(outputs_view(obj@) =~= before.push((cfg@[c as int].0@, cfg@[c as int].1@)));
                }
            }
            assert(cv.skip(nc as int) =~= Seq::<(Seq<char>, JsonView)>::empty());
            let r = Json::Object(obj);
            proof {
                assert(r@->Object_0 =~= outputs_view(obj@));
            }
            r
        },
        _ => {
            let r = Json::Object(obj);
            proof {
                assert(r@->Object_0 =~= outputs_view(obj@));
            }
            r
        },
    }
}

/// Builds a node's input: each edge-map entry `upstream -> downstream` sets
/// input member `downstream` to the value it reads (`__trigger__` reads the
/// trigger data; `node:field` reads one upstream node's output; a bare name
/// reads the first upstream output having that member; missing values are
/// null), later entries winning; then members of an object config fill in
/// whatever is still missing.
pub fn assemble_input(edge_map: &Vec<Vec<(String, String)>>, prior_outputs: &Vec<(String, Json)>, trigger_data: &Json, node_config: &Option<Json>) -> (r: Json)
    ensures
        r@ == assembled(maps_view(edge_map@), outputs_view(prior_outputs@), trigger_data@, match node_config { Some(c) => Some(c@), None => None }),
{
    let ghost mv = maps_view(edge_map@);
    let ghost ov = outputs_view(prior_outputs@);
    let ghost tv = trigger_data@;
    let mut obj: Vec<(String, Json)> = Vec::new();
    let nm = edge_map.len();
    assert(mv.skip(0) =~= mv);
    assert(outputs_view(obj@) =~= Seq::<(Seq<char>, JsonView)>::empty());
    for a in 0..nm
        invariant
            nm == edge_map@.len(),
            mv == maps_view(edge_map@),
            ov == outputs_view(prior_outputs@),
            tv == trigger_data@,
            fold_maps(Seq::empty(), mv, ov, tv) == fold_maps(outputs_view(obj@), mv.skip(a as int), ov, tv),
    {
        let pairs = &edge_map[a];
        let ghost pv = pairs_view(pairs@);
        assert(mv.skip(a as int)[0] == pv);
        assert(mv.skip(a as int).drop_first() =~= mv.skip(a + 1));
        let np = pairs.len();
        assert(pv.skip(0) =~= pv);
        for b in 0..np
            invariant
                np == pairs@.len(),
                pv == pairs_view(pairs@),
                ov == outputs_view(prior_outputs@),
                tv == trigger_data@,
                fold_pairs(Seq::empty(), pv, ov, tv) == fold_pairs(Seq::empty(), pv, ov, tv),
                fold_maps(Seq::empty(), mv, ov, tv) == fold_maps(fold_pairs(outputs_view(obj@), pv.skip(b as int), ov, tv), mv.skip(a + 1), ov, tv),
        {
            let up = &pairs[b].0;
            let down = &pairs[b].1;
            assert(pv.skip(b as int)[0] == (up@, down@));
            assert(pv.skip(b as int).drop_first() =~= pv.skip(b + 1));
            let value = source_value_of(up, down, prior_outputs, trigger_data);
            set_member_exec(&mut obj, down.clone(), value);
        }
        assert(pv.skip(np as int) =~= Seq::<(Seq<char>, Seq<char>)>::empty());
    }
    assert(mv.skip(nm as int) =~= Seq::<Seq<(Seq<char>, Seq<char>)>>::empty());
    finish_with_defaults(obj, node_config)
}

/// The value a binding feeds in.
fn binding_value_of(b: &DataBinding, prior_outputs: &Vec<(String, Json)>, trigger_data: &Json) -> (r: Json)
    ensures
        r@ == binding_value(b.from@, b.output@, outputs_view(prior_outputs@), trigger_data@),
{
    proof {
        reveal_strlit("__trigger__");
    }
    if str_eq(b.from.as_str(), "__trigger__") {
        return member_or_null(trigger_data, b.output.as_str());
    }
    match output_of(prior_outputs, b.from.as_str()) {
        Some(o) => member_or_null(&o, b.output.as_str()),
        None => Json::Null,
    }
}

/// Builds a node's input from data bindings: each binding sets input member
/// `input` to member `output` of its source (the trigger data for
/// `__trigger__`, else the source node's output; null when missing), later
/// bindings winning; then members of an object config fill in whatever is
/// still missing.
pub fn assemble_bindings(bindings: &Vec<DataBinding>, prior_outputs: &Vec<(String, Json)>, trigger_data: &Json, node_config: &Option<Json>) -> (r: Json)
    ensures
        r@ == with_defaults(
            fold_bindings(Seq::empty(), bindings@.map_values(|b: DataBinding| binding_view(b)), outputs_view(prior_outputs@), trigger_data@),
            match node_config { Some(c) => Some(c@), None => None },
        ),
{
    let ghost bv = bindings@.map_values(|b: DataBinding| binding_view(b));
    let ghost ov = outputs_view(prior_outputs@);
    let ghost tv = trigger_data@;
    let mut obj: Vec<(String, Json)> = Vec::new();
    let n = bindings.len();
    assert(bv.skip(0) =~= bv);
    assert(outputs_view(obj@) =~= Seq::<(Seq<char>, JsonView)>::empty());
    for i in 0..n
        invariant
            n == bindings@.len(),
            bv == bindings@.map_values(|b: DataBinding| binding_view(b)),
            ov == outputs_view(prior_outputs@),
            tv == trigger_data@,
            fold_bindings(Seq::empty(), bv, ov, tv) == fold_bindings(outputs_view(obj@), bv.skip(i as int), ov, tv),
    {
        let b = &bindings[i];
        assert(bv.skip(i as int)[0] == (b.from@, b.output@, b.input@));
        assert(bv.skip(i as int).drop_first() =~= bv.skip(i + 1));
        let value = binding_value_of(b, prior_outputs, trigger_data);
        set_member_exec(&mut obj, b.input.clone(), value);
    }
    assert(bv.skip(n as int) =~= Seq::<(Seq<char>, Seq<char>, Seq<char>)>::empty());
    finish_with_defaults(obj, node_config)
}

/// The first member named `key` is the one at `key_index`.
proof fn lemma_member_of_index(ms: Seq<(Seq<char>, JsonView)>, key: Seq<char>)
    ensures
        member_of(ms, key) == if key_index(ms, key) < ms.len() { Some(ms[key_index(ms, key)].1) } else { None::<JsonView> },
    decreases ms.len(),
{
    if ms.len() > 0 && ms[0].0 != key {
        lemma_member_of_index(ms.drop_first(), key);
        lemma_key_index(ms.drop_first(), key);
        if key_index(ms, key) < ms.len() {
            assert(ms[key_index(ms, key)] == ms.drop_first()[key_index(ms.drop_first(), key)]);
        }
    }
}

/// A key present in a prefix stands at the same place in the whole.
proof fn lemma_key_index_prefix(ms: Seq<(Seq<char>, JsonView)>, extra: Seq<(Seq<char>, JsonView)>, key: Seq<char>)
    requires
        key_index(ms, key) < ms.len(),
    ensures
        key_index(ms + extra, key) == key_index(ms, key),
    decreases ms.len(),
{
    assert((ms + extra)[0] == ms[0]);
    if ms[0].0 != key {
        assert((ms + extra).drop_first() =~= ms.drop_first() + extra);
        lemma_key_index_prefix(ms.drop_first(), extra, key);
    }
}

/// A key absent from both parts is absent from the whole.
proof fn lemma_key_index_absent(ms: Seq<(Seq<char>, JsonView)>, extra: Seq<(Seq<char>, JsonView)>, key: Seq<char>)
    requires
        key_index(ms, key) == ms.len(),
        key_index(extra, key) == extra.len(),
    ensures
        key_index(ms + extra, key) == ms.len() + extra.len(),
    decreases ms.len(),
{
    if ms.len() == 0 {
        assert(ms + extra =~= extra);
    } else {
        assert((ms + extra)[0] == ms[0]);
        assert((ms + extra).drop_first() =~= ms.drop_first() + extra);
        lemma_key_index_absent(ms.drop_first(), extra, key);
    }
}

/// Filling in defaults only appends: the object is a prefix of the result.
proof fn lemma_fold_defaults_prefix(obj: Seq<(Seq<char>, JsonView)>, cfg: Seq<(Seq<char>, JsonView)>)
    ensures
        fold_defaults(obj, cfg).len() >= obj.len(),
        fold_defaults(obj, cfg) =~= obj + fold_defaults(obj, cfg).skip(obj.len() as int),
    decreases cfg.len(),
{
    if cfg.len() > 0 {
        let next = default_member(obj, cfg[0].0, cfg[0].1);
        lemma_fold_defaults_prefix(next, cfg.drop_first());
        let r = fold_defaults(next, cfg.drop_first());
        assert(next.len() >= obj.len());
        assert(next =~= obj + next.skip(obj.len() as int));
        assert(r =~= next + r.skip(next.len() as int));
        assert(r =~= obj + r.skip(obj.len() as int));
    }
}

/// A member already present keeps its value through the defaults.
proof fn lemma_defaults_keep_present(obj: Seq<(Seq<char>, JsonView)>, cfg: Seq<(Seq<char>, JsonView)>, key: Seq<char>)
    requires
        key_index(obj, key) < obj.len(),
    ensures
        member_of(fold_defaults(obj, cfg), key) == member_of(obj, key),
{
    let r = fold_defaults(obj, cfg);
    lemma_key_index(obj, key);
    lemma_fold_defaults_prefix(obj, cfg);
    lemma_key_index_prefix(obj, r.skip(obj.len() as int), key);
    lemma_member_of_index(obj, key);
    lemma_member_of_index(r, key);
    let ki = key_index(obj, key);
    assert(r[ki] == (obj + r.skip(obj.len() as int))[ki]);
}

/// A member absent from the object takes the first config value for it.
proof fn lemma_defaults_fill_absent(obj: Seq<(Seq<char>, JsonView)>, cfg: Seq<(Seq<char>, JsonView)>, key: Seq<char>)
    requires
        key_index(obj, key) == obj.len(),
    ensures
        member_of(fold_defaults(obj, cfg), key) == member_of(cfg, key),
    decreases cfg.len(),
{
    if cfg.len() == 0 {
        lemma_member_of_index(obj, key);
    } else {
        let next = default_member(obj, cfg[0].0, cfg[0].1);
        if cfg[0].0 == key {
            lemma_key_index_absent(obj, Seq::<(Seq<char>, JsonView)>::empty(), key);
            assert(obj + Seq::<(Seq<char>, JsonView)>::empty() =~= obj);
            assert(next == obj.push((key, cfg[0].1)));
            let one = seq![(key, cfg[0].1)];
            assert(next =~= obj + one);
            assert(key_index(one, key) == 0);
            assert(key_index(next, key) == obj.len()) by {
                lemma_key_index_prefix_absent_then(obj, one, key);
            }
            lemma_defaults_keep_present(next, cfg.drop_first(), key);
            lemma_member_of_index(next, key);
        } else {
            if key_index(obj, cfg[0].0) >= obj.len() {
                let one = seq![(cfg[0].0, cfg[0].1)];
                assert(next =~= obj + one);
                assert(key_index(one.drop_first(), key) == 0);
                assert(key_index(one, key) == 1);
                lemma_key_index_absent(obj, one, key);
            }
            lemma_defaults_fill_absent(next, cfg.drop_first(), key);
        }
    }
}

/// A key absent from the front stands where the back has it.
proof fn lemma_key_index_prefix_absent_then(ms: Seq<(Seq<char>, JsonView)>, extra: Seq<(Seq<char>, JsonView)>, key: Seq<char>)
    requires
        key_index(ms, key) == ms.len(),
    ensures
        key_index(ms + extra, key) == ms.len() + key_index(extra, key),
    decreases ms.len(),
{
    if ms.len() == 0 {
        assert(ms + extra =~= extra);
    } else {
        assert((ms + extra)[0] == ms[0]);
        assert((ms + extra).drop_first() =~= ms.drop_first() + extra);
        lemma_key_index_prefix_absent_then(ms.drop_first(), extra, key);
    }
}

/// Config members are defaults only: an input member that an edge sets keeps
/// the edge's value, and any other input member takes the config's value.
pub proof fn lemma_config_fills_only_missing(
    maps: Seq<Seq<(Seq<char>, Seq<char>)>>,
    outputs: Seq<(Seq<char>, JsonView)>,
    trigger: JsonView,
    cfg: Seq<(Seq<char>, JsonView)>,
    key: Seq<char>,
)
    ensures
        member(assembled(maps, outputs, trigger, Some(JsonView::Object(cfg))), key) == match member(assembled(maps, outputs, trigger, None), key) {
            Some(v) => Some(v),
            None => member_of(cfg, key),
        },
{
    let obj = fold_maps(Seq::empty(), maps, outputs, trigger);
    lemma_key_index(obj, key);
    lemma_member_of_index(obj, key);
    if key_index(obj, key) < obj.len() {
        lemma_defaults_keep_present(obj, cfg, key);
    } else {
        lemma_defaults_fill_absent(obj, cfg, key);
    }
}

} // verus!
