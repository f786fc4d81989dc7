use vstd::prelude::*;
use crate::event::{Config, JsonTokenOwned};
use crate::grammar::{
    elems_events, field_hits, fields_events, is_end_array, value_events,
};
use crate::value::{
    elems_view, fields_view, has_key, insert_key, keys_unique, lemma_array_view,
    lemma_object_view, Json, JsonValue,
};

verus! {

broadcast use vstd::std_specs::vec::axiom_vec_index_decreases;

/// Every object in `v`, at any depth, holds each key at most once.
pub open spec fn wf_value(v: JsonValue) -> bool
    decreases v, 0nat,
{
    match v {
        JsonValue::Object(fs) => keys_unique(fields_view(fs)) && wf_fields(fs, fs.len() as nat),
        JsonValue::Array(vs) => wf_elems(vs, vs.len() as nat),
        _ => true,
    }
}

/// The first `n` field values of `fs` are well formed.
pub open spec fn wf_fields(fs: Vec<(String, JsonValue)>, n: nat) -> bool
    decreases fs, n,
{
    if n == 0 || n > fs.len() {
        true
    } else {
        wf_fields(fs, (n - 1) as nat) && wf_value(fs[n - 1].1)
    }
}

/// The first `n` elements of `vs` are well formed.
pub open spec fn wf_elems(vs: Vec<JsonValue>, n: nat) -> bool
    decreases vs, n,
{
    if n == 0 || n > vs.len() {
        true
    } else {
        wf_elems(vs, (n - 1) as nat) && wf_value(vs[n - 1])
    }
}

/// The events that describe `v`: the inverse of parsing with retention.
pub open spec fn events_of(v: JsonValue) -> Seq<JsonTokenOwned>
    decreases v, 0nat,
{
    match v {
        JsonValue::Object(fs) => seq![JsonTokenOwned::StartObject] + field_events_of(
            fs,
            fs.len() as nat,
        ) + seq![JsonTokenOwned::EndObject],
        JsonValue::Array(vs) => seq![JsonTokenOwned::StartArray] + elem_events_of(
            vs,
            vs.len() as nat,
        ) + seq![JsonTokenOwned::EndArray],
        JsonValue::String(s) => seq![JsonTokenOwned::JsString(s)],
        JsonValue::Number(s) => seq![JsonTokenOwned::JsNumber(s)],
        JsonValue::Boolean(b) => seq![JsonTokenOwned::JsBoolean(b)],
        JsonValue::Null => seq![JsonTokenOwned::JsNull],
    }
}

/// The events of the first `n` fields of `fs`, each a key and then its value.
pub open spec fn field_events_of(fs: Vec<(String, JsonValue)>, n: nat) -> Seq<JsonTokenOwned>
    decreases fs, n,
{
    if n == 0 || n > fs.len() {
        Seq::empty()
    } else {
        field_events_of(fs, (n - 1) as nat) + seq![JsonTokenOwned::JsKey(fs[n - 1].0)]
            + events_of(fs[n - 1].1)
    }
}

/// The events of the first `n` elements of `vs`.
pub open spec fn elem_events_of(vs: Vec<JsonValue>, n: nat) -> Seq<JsonTokenOwned>
    decreases vs, n,
{
    if n == 0 || n > vs.len() {
        Seq::empty()
    } else {
        elem_events_of(vs, (n - 1) as nat) + events_of(vs[n - 1])
    }
}

/// The events that describe `v`, in order.
pub fn to_events(v: &JsonValue) -> (r: Vec<JsonTokenOwned>)
    ensures
        r@ == events_of(*v),
{
    let mut out: Vec<JsonTokenOwned> = Vec::new();
    write_events(v, &mut out);
    assert(out@ =~= events_of(*v));
    out
}

/// Appends the events of `v` to `out`.
fn write_events(v: &JsonValue, out: &mut Vec<JsonTokenOwned>)
    ensures
        final(out)@ == old(out)@ + events_of(*v),
    decreases v,
{
    match v {
        JsonValue::Object(fs) => {
            out.push(JsonTokenOwned::StartObject);
            let mut i: usize = 0;
            while i < fs.len()
                invariant
                    *v == JsonValue::Object(*fs),
                    i <= fs.len(),
                    out@ == old(out)@ + seq![JsonTokenOwned::StartObject] + field_events_of(
                        *fs,
                        i as nat,
                    ),
                decreases fs.len() - i,
            {
                out.push(JsonTokenOwned::JsKey(fs[i].0.clone()));
                proof {
                    assert(decreases_to!(*v => (*v)->Object_0));
                    assert(decreases_to!(*fs => fs[i as int]));
                    assert(decreases_to!(fs[i as int] => fs[i as int].1));
                }
                write_events(&fs[i].1, out);
                assert(out@ =~= old(out)@ + seq![JsonTokenOwned::StartObject] + field_events_of(
                    *fs,
                    (i + 1) as nat,
                ));
                i += 1;
            }
            out.push(JsonTokenOwned::EndObject);
            assert(out@ =~= old(out)@ + events_of(*v));
        },
        JsonValue::Array(vs) => {
            out.push(JsonTokenOwned::StartArray);
            let mut i: usize = 0;
            while i < vs.len()
                invariant
                    *v == JsonValue::Array(*vs),
                    i <= vs.len(),
                    out@ == old(out)@ + seq![JsonTokenOwned::StartArray] + elem_events_of(
                        *vs,
                        i as nat,
                    ),
                decreases vs.len() - i,
            {
                proof {
                    assert(decreases_to!(*v => (*v)->Array_0));
                    assert(decreases_to!(*vs => vs[i as int]));
                }
                write_events(&vs[i], out);
                assert(out@ =~= old(out)@ + seq![JsonTokenOwned::StartArray] + elem_events_of(
                    *vs,
                    (i + 1) as nat,
                ));
                i += 1;
            }
            out.push(JsonTokenOwned::EndArray);
            assert(out@ =~= old(out)@ + events_of(*v));
        },
        JsonValue::String(t) => {
            out.push(JsonTokenOwned::JsString(t.clone()));
            assert(out@ =~= old(out)@ + events_of(*v));
        },
        JsonValue::Number(t) => {
            out.push(JsonTokenOwned::JsNumber(t.clone()));
            assert(out@ =~= old(out)@ + events_of(*v));
        },
        JsonValue::Boolean(b) => {
            out.push(JsonTokenOwned::JsBoolean(*b));
            assert(out@ =~= old(out)@ + events_of(*v));
        },
        JsonValue::Null => {
            out.push(JsonTokenOwned::JsNull);
            assert(out@ =~= old(out)@ + events_of(*v));
        },
    }
}

/// The value and the span of a parse result moved past `p` earlier events, with the
/// match count left aside.
pub open spec fn value_and_span(o: Option<(Json, nat, nat)>, p: nat) -> Option<(Json, nat)> {
    match o {
        Some((v, n, _)) => Some((v, n + p)),
        None => None,
    }
}

/// Whether one of the first `n` fields satisfies the predicate.
pub open spec fn hits_upto(c: Config, fs: Seq<(Seq<char>, Json)>, n: nat) -> bool
    decreases n,
{
    if n == 0 {
        false
    } else {
        hits_upto(c, fs, (n - 1) as nat) || field_hits(c, true, fs[n - 1].0, fs[n - 1].1)
    }
}

/// The events of a value are never empty and never begin with a closing event.
proof fn lemma_events_of_start(v: JsonValue)
    ensures
        events_of(v).len() >= 1,
        !is_end_array(events_of(v)[0]),
        !(events_of(v)[0] is EndObject),
{
}

/// Serializing a well-formed value into events and parsing them back with retention
/// gives the same value, spanning exactly those events: the parse stops right where
/// the value's events end, whatever follows them.
pub proof fn lemma_round_trip(c: Config, v: JsonValue, rest: Seq<JsonTokenOwned>)
    requires
        wf_value(v),
    ensures
        value_and_span(value_events(c, events_of(v) + rest, true), 0) == Some(
            (v@, events_of(v).len()),
        ),
    decreases v, 0nat,
{
    let t = events_of(v) + rest;
    match v {
        JsonValue::Object(fs) => {
            let f = field_events_of(fs, fs.len() as nat);
            let tail = seq![JsonTokenOwned::EndObject] + rest;
            assert(t.skip(1) =~= f + tail);
            lemma_round_trip_fields(c, fs, fs.len() as nat, tail);
            assert(fields_view(fs).take(fs.len() as int) =~= fields_view(fs));
            lemma_object_view(fs);
        },
        JsonValue::Array(vs) => {
            let f = elem_events_of(vs, vs.len() as nat);
            let tail = seq![JsonTokenOwned::EndArray] + rest;
            assert(t.skip(1) =~= f + tail);
            lemma_round_trip_elems(c, vs, vs.len() as nat, tail);
            assert(elems_view(vs).take(vs.len() as int) =~= elems_view(vs));
            lemma_array_view(vs);
        },
        _ => {},
    }
}

/// Parsing the events of the first `n` fields adds exactly those fields, in order.
proof fn lemma_round_trip_fields(
    c: Config,
    fs: Vec<(String, JsonValue)>,
    n: nat,
    tail: Seq<JsonTokenOwned>,
)
    requires
        n <= fs.len(),
        keys_unique(fields_view(fs)),
        wf_fields(fs, n),
    ensures
        value_and_span(
            fields_events(c, field_events_of(fs, n) + tail, true, Seq::empty(), false),
            0,
        ) == value_and_span(
            fields_events(c, tail, true, fields_view(fs).take(n as int), hits_upto(c, fields_view(fs), n)),
            field_events_of(fs, n).len(),
        ),
    decreases fs, n,
{
    let fsm = fields_view(fs);
    if n == 0 {
        assert(field_events_of(fs, 0) + tail =~= tail);
        assert(fsm.take(0) =~= Seq::<(Seq<char>, Json)>::empty());
    } else {
        let k = fs[n - 1].0;
        let w = fs[n - 1].1;
        let e = events_of(w);
        let x = seq![JsonTokenOwned::JsKey(k)] + e + tail;
        assert(field_events_of(fs, n) + tail =~= field_events_of(fs, (n - 1) as nat) + x);
        lemma_round_trip_fields(c, fs, (n - 1) as nat, x);
        lemma_round_trip(c, w, tail);
        lemma_events_of_start(w);
        assert(x.skip(1) =~= e + tail);
        assert(x.skip(1 + e.len() as int) =~= tail);
        assert(fsm[n - 1] == (k@, w@));
        let prev = fsm.take(n - 1);
        assert(!has_key(prev, k@)) by {
            if has_key(prev, k@) {
                let i = choose|i: int| 0 <= i < prev.len() && #[trigger] prev[i].0 == k@;
                assert(fsm[i].0 == fsm[n - 1].0);
            }
        }
        assert(insert_key(prev, k@, w@) =~= fsm.take(n as int));
    }
}

/// Parsing the events of the first `n` elements adds exactly those elements, in order.
proof fn lemma_round_trip_elems(c: Config, vs: Vec<JsonValue>, n: nat, tail: Seq<JsonTokenOwned>)
    requires
        n <= vs.len(),
        wf_elems(vs, n),
    ensures
        value_and_span(elems_events(c, elem_events_of(vs, n) + tail, true, Seq::empty()), 0)
            == value_and_span(
            elems_events(c, tail, true, elems_view(vs).take(n as int)),
            elem_events_of(vs, n).len(),
        ),
    decreases vs, n,
{
    let vsm = elems_view(vs);
    if n == 0 {
        assert(elem_events_of(vs, 0) + tail =~= tail);
        assert(vsm.take(0) =~= Seq::<Json>::empty());
    } else {
        let w = vs[n - 1];
        let e = events_of(w);
        let x = e + tail;
        assert(elem_events_of(vs, n) + tail =~= elem_events_of(vs, (n - 1) as nat) + x);
        lemma_round_trip_elems(c, vs, (n - 1) as nat, x);
        lemma_round_trip(c, w, tail);
        lemma_events_of_start(w);
        assert(x[0] == e[0]);
        assert(x.skip(e.len() as int) =~= tail);
        assert(vsm[n - 1] == w@);
        assert(vsm.take(n - 1).push(w@) =~= vsm.take(n as int));
    }
}

} // verus!
