use vstd::prelude::*;
use crate::event::{Config, JsonTokenOwned};
use crate::grammar::{
    child_keep, elems_events, field_hits, fields_events, is_end_array, lemma_value_bound,
    lemma_value_frame, value_events,
};
use crate::value::{has_key, insert_key, keys_unique, Json};

verus! {

/// A value that holds nothing materialized below it: a scalar, or an empty container.
pub open spec fn hollow(v: Json) -> bool {
    match v {
        Json::Object(fs) => fs.len() == 0,
        Json::Array(vs) => vs.len() == 0,
        _ => true,
    }
}

/// Two configurations that test completed objects alike (they may differ in the
/// retention trigger and the progress interval).
pub open spec fn same_predicate(c: Config, d: Config) -> bool {
    &&& c.predicate_field_key@ == d.predicate_field_key@
    &&& c.predicate_target@ == d.predicate_target@
    &&& c.predicate_requires_retention == d.predicate_requires_retention
}

/// A subtree parsed without retention materializes nothing into its containers: an
/// unretained object or array comes back empty, whatever keys stand inside it.
pub proof fn lemma_unretained_is_hollow(c: Config, s: Seq<JsonTokenOwned>)
    ensures
        value_events(c, s, false) matches Some((v, _, _)) ==> hollow(v),
{
    if s.len() > 0 {
        match s[0] {
            JsonTokenOwned::StartObject => {
                lemma_unretained_fields(c, s.skip(1), Seq::empty(), false);
            },
            JsonTokenOwned::StartArray => {
                lemma_unretained_elems(c, s.skip(1), Seq::empty());
            },
            _ => {},
        }
    }
}

/// An unretained object body adds nothing to its fields.
proof fn lemma_unretained_fields(
    c: Config,
    s: Seq<JsonTokenOwned>,
    acc: Seq<(Seq<char>, Json)>,
    hit: bool,
)
    ensures
        fields_events(c, s, false, acc, hit) matches Some((v, _, _)) ==> v == Json::Object(acc),
    decreases s.len(),
{
    if s.len() > 0 {
        if let JsonTokenOwned::JsKey(k) = s[0] {
            let ck = child_keep(c, false, k@);
            lemma_value_bound(c, s.skip(1), ck);
            if let Some((v, n, m1)) = value_events(c, s.skip(1), ck) {
                lemma_unretained_fields(
                    c,
                    s.skip(1 + n as int),
                    acc,
                    hit || field_hits(c, false, k@, v),
                );
            }
        }
    }
}

/// An unretained array body adds nothing to its elements.
proof fn lemma_unretained_elems(c: Config, s: Seq<JsonTokenOwned>, acc: Seq<Json>)
    ensures
        elems_events(c, s, false, acc) matches Some((v, _, _)) ==> v == Json::Array(acc),
    decreases s.len(),
{
    if s.len() > 0 && !is_end_array(s[0]) {
        lemma_value_bound(c, s, false);
        if let Some((v, n, m1)) = value_events(c, s, false) {
            lemma_unretained_elems(c, s.skip(n as int), acc);
        }
    }
}

/// Once a subtree is retained it stays retained all the way down: its parse does not
/// depend on the retention trigger at all, so no descendant key can switch it off.
pub proof fn lemma_retention_monotone(c: Config, d: Config, s: Seq<JsonTokenOwned>)
    requires
        same_predicate(c, d),
    ensures
        value_events(c, s, true) == value_events(d, s, true),
    decreases s.len(), 1int,
{
    if s.len() > 0 {
        match s[0] {
            JsonTokenOwned::StartObject => {
                lemma_retained_fields(c, d, s.skip(1), Seq::empty(), false);
            },
            JsonTokenOwned::StartArray => {
                lemma_retained_elems(c, d, s.skip(1), Seq::empty());
            },
            _ => {},
        }
    }
}

/// A retained object body parses alike under both configurations.
proof fn lemma_retained_fields(
    c: Config,
    d: Config,
    s: Seq<JsonTokenOwned>,
    acc: Seq<(Seq<char>, Json)>,
    hit: bool,
)
    requires
        same_predicate(c, d),
    ensures
        fields_events(c, s, true, acc, hit) == fields_events(d, s, true, acc, hit),
    decreases s.len(), 0int,
{
    if s.len() > 0 {
        if let JsonTokenOwned::JsKey(k) = s[0] {
            lemma_retention_monotone(c, d, s.skip(1));
            lemma_value_bound(c, s.skip(1), true);
            if let Some((v, n, m1)) = value_events(c, s.skip(1), true) {
                if 1 + n <= s.len() {
                    lemma_retained_fields(
                        c,
                        d,
                        s.skip(1 + n as int),
                        insert_key(acc, k@, v),
                        hit || field_hits(c, true, k@, v),
                    );
                }
            }
        }
    }
}

/// A retained array body parses alike under both configurations.
proof fn lemma_retained_elems(c: Config, d: Config, s: Seq<JsonTokenOwned>, acc: Seq<Json>)
    requires
        same_predicate(c, d),
    ensures
        elems_events(c, s, true, acc) == elems_events(d, s, true, acc),
    decreases s.len(), 2int,
{
    if s.len() > 0 && !is_end_array(s[0]) {
        lemma_retention_monotone(c, d, s);
        lemma_value_bound(c, s, true);
        if let Some((v, n, m1)) = value_events(c, s, true) {
            if 1 <= n <= s.len() {
                lemma_retained_elems(c, d, s.skip(n as int), acc.push(v));
            }
        }
    }
}

/// The events of the object `{k: <child>}`, followed by `rest`.
pub open spec fn one_field_object(
    k: String,
    child: Seq<JsonTokenOwned>,
    rest: Seq<JsonTokenOwned>,
) -> Seq<JsonTokenOwned> {
    seq![JsonTokenOwned::StartObject, JsonTokenOwned::JsKey(k)] + child + seq![
        JsonTokenOwned::EndObject,
    ] + rest
}

/// An object's own match depends on its direct field alone: the object `{k: <child>}`
/// counts the matches inside the child, plus one only when `k` and the child's value
/// themselves satisfy the predicate. A predicate field nested deeper never makes the
/// outer object match.
pub proof fn lemma_predicate_isolation(
    c: Config,
    keep: bool,
    k: String,
    child: Seq<JsonTokenOwned>,
    rest: Seq<JsonTokenOwned>,
)
    requires
        value_events(c, child, child_keep(c, keep, k@)) matches Some((_, n, _)) && n
            == child.len(),
    ensures
        ({
            let (v, n, m) = value_events(c, child, child_keep(c, keep, k@)).unwrap();
            value_events(c, one_field_object(k, child, rest), keep) == Some(
                (
                    Json::Object(
                        if keep {
                            seq![(k@, v)]
                        } else {
                            Seq::empty()
                        },
                    ),
                    child.len() + 3,
                    m + if field_hits(c, keep, k@, v) {
                        1nat
                    } else {
                        0nat
                    },
                ),
            )
        }),
{
    let ck = child_keep(c, keep, k@);
    let (v, n, m) = value_events(c, child, ck).unwrap();
    let t = one_field_object(k, child, rest);
    let t1 = t.skip(1);
    let t2 = t1.skip(1);
    assert forall|i: int| 0 <= i < n implies #[trigger] t2[i] == child[i] by {
        assert(t2[i] == t[2 + i]);
    }
    lemma_value_frame(c, child, t2, ck);
    assert(t1.skip(1 + n as int)[0] == JsonTokenOwned::EndObject) by {
        assert(t1.skip(1 + n as int)[0] == t[2 + n as int]);
    }
    assert(insert_key(Seq::empty(), k@, v) =~= seq![(k@, v)]);
    let acc2 = if keep {
        insert_key(Seq::empty(), k@, v)
    } else {
        Seq::empty()
    };
    let hit2 = false || field_hits(c, keep, k@, v);
    assert(t[0] == JsonTokenOwned::StartObject);
    assert(t1[0] == JsonTokenOwned::JsKey(k));
    let own: nat = if hit2 {
        1
    } else {
        0
    };
    assert(fields_events(c, t1.skip(1 + n as int), keep, acc2, hit2) == Some(
        (Json::Object(acc2), 1nat, own),
    ));
    assert(fields_events(c, t1, keep, Seq::empty(), false) == Some(
        (Json::Object(acc2), 1 + n + 1, m + own),
    ));
}

/// The events of the object `{k: <a>, k: <b>}`, followed by `rest`.
pub open spec fn duplicate_key_object(
    k: String,
    a: Seq<JsonTokenOwned>,
    b: Seq<JsonTokenOwned>,
    rest: Seq<JsonTokenOwned>,
) -> Seq<JsonTokenOwned> {
    seq![JsonTokenOwned::StartObject, JsonTokenOwned::JsKey(k)] + a + seq![
        JsonTokenOwned::JsKey(k),
    ] + b + seq![JsonTokenOwned::EndObject] + rest
}

/// A key repeated within one object keeps only its last value, and the object adds at
/// most one match however many of its occurrences satisfy the predicate.
pub proof fn lemma_duplicate_key(
    c: Config,
    keep: bool,
    k: String,
    a: Seq<JsonTokenOwned>,
    b: Seq<JsonTokenOwned>,
    rest: Seq<JsonTokenOwned>,
)
    requires
        value_events(c, a, child_keep(c, keep, k@)) matches Some((_, n, _)) && n == a.len(),
        value_events(c, b, child_keep(c, keep, k@)) matches Some((_, n, _)) && n == b.len(),
    ensures
        ({
            let (va, na, ma) = value_events(c, a, child_keep(c, keep, k@)).unwrap();
            let (vb, nb, mb) = value_events(c, b, child_keep(c, keep, k@)).unwrap();
            value_events(c, duplicate_key_object(k, a, b, rest), keep) == Some(
                (
                    Json::Object(
                        if keep {
                            seq![(k@, vb)]
                        } else {
                            Seq::empty()
                        },
                    ),
                    a.len() + b.len() + 4,
                    ma + mb + if field_hits(c, keep, k@, va) || field_hits(c, keep, k@, vb) {
                        1nat
                    } else {
                        0nat
                    },
                ),
            )
        }),
{
    let ck = child_keep(c, keep, k@);
    let (va, na, ma) = value_events(c, a, ck).unwrap();
    let (vb, nb, mb) = value_events(c, b, ck).unwrap();
    let t = duplicate_key_object(k, a, b, rest);
    let t1 = t.skip(1);
    let t2 = t1.skip(1);
    assert forall|i: int| 0 <= i < na implies #[trigger] t2[i] == a[i] by {
        assert(t2[i] == t[2 + i]);
    }
    lemma_value_frame(c, a, t2, ck);
    let u = t1.skip(1 + na as int);
    assert(u[0] == JsonTokenOwned::JsKey(k)) by {
        assert(u[0] == t[2 + na as int]);
    }
    let u1 = u.skip(1);
    assert forall|i: int| 0 <= i < nb implies #[trigger] u1[i] == b[i] by {
        assert(u1[i] == t[3 + na + i]);
    }
    lemma_value_frame(c, b, u1, ck);
    assert(u.skip(1 + nb as int)[0] == JsonTokenOwned::EndObject) by {
        assert(u.skip(1 + nb as int)[0] == t[3 + na as int + nb as int]);
    }
    let one = insert_key(Seq::empty(), k@, va);
    assert(one =~= seq![(k@, va)]);
    assert(insert_key(one, k@, vb) =~= seq![(k@, vb)]) by {
        assert(one[0].0 == k@);
    }
    let acc1 = if keep {
        one
    } else {
        Seq::empty()
    };
    let acc2 = if keep {
        insert_key(acc1, k@, vb)
    } else {
        Seq::empty()
    };
    let hit1 = false || field_hits(c, keep, k@, va);
    let hit2 = hit1 || field_hits(c, keep, k@, vb);
    let own: nat = if hit2 {
        1
    } else {
        0
    };
    assert(t[0] == JsonTokenOwned::StartObject);
    assert(t1[0] == JsonTokenOwned::JsKey(k));
    assert(t1.skip(1 + na as int) == u);
    assert(u.skip(1 + nb as int) =~= t1.skip(1 + na as int).skip(1 + nb as int));
    assert(fields_events(c, u.skip(1 + nb as int), keep, acc2, hit2) == Some(
        (Json::Object(acc2), 1nat, own),
    ));
    assert(fields_events(c, u, keep, acc1, hit1) == Some(
        (Json::Object(acc2), 1 + nb + 1, mb + own),
    ));
    assert(fields_events(c, t1, keep, Seq::empty(), false) == Some(
        (Json::Object(acc2), 1 + na + (1 + nb + 1), ma + (mb + own)),
    ));
}

/// Last-write-wins insertion keeps keys unique.
pub proof fn lemma_insert_key_unique(fs: Seq<(Seq<char>, Json)>, k: Seq<char>, v: Json)
    requires
        keys_unique(fs),
    ensures
        keys_unique(insert_key(fs, k, v)),
        has_key(insert_key(fs, k, v), k),
{
    let r = insert_key(fs, k, v);
    if has_key(fs, k) {
        let i = choose|i: int| 0 <= i < fs.len() && #[trigger] fs[i].0 == k;
        assert(r[i].0 == k);
        assert forall|a: int, b: int|
            0 <= a < r.len() && 0 <= b < r.len() && #[trigger] r[a].0 == #[trigger] r[b].0 implies a
            == b by {
            assert(r[a].0 == fs[a].0);
            assert(r[b].0 == fs[b].0);
        }
    } else {
        assert(r[fs.len() as int].0 == k);
        assert forall|a: int, b: int|
            0 <= a < r.len() && 0 <= b < r.len() && #[trigger] r[a].0 == #[trigger] r[b].0 implies a
            == b by {
            if a < fs.len() && b < fs.len() {
                assert(r[a] == fs[a] && r[b] == fs[b]);
            } else if a < fs.len() {
                assert(fs[a].0 == k);
            } else if b < fs.len() {
                assert(fs[b].0 == k);
            }
        }
    }
}

/// An object the parser materializes holds each key once, however often a key is
/// repeated among its fields in the events: later fields replace earlier ones.
pub proof fn lemma_object_keys_unique(c: Config, s: Seq<JsonTokenOwned>, keep: bool)
    requires
        s.len() > 0,
        s[0] is StartObject,
    ensures
        value_events(c, s, keep) matches Some((Json::Object(fs), _, _)) ==> keys_unique(fs),
{
    assert(keys_unique(Seq::<(Seq<char>, Json)>::empty()));
    lemma_fields_keys_unique(c, s.skip(1), keep, Seq::empty(), false);
}

/// An object body keeps the keys of its fields unique.
proof fn lemma_fields_keys_unique(
    c: Config,
    s: Seq<JsonTokenOwned>,
    keep: bool,
    acc: Seq<(Seq<char>, Json)>,
    hit: bool,
)
    requires
        keys_unique(acc),
    ensures
        fields_events(c, s, keep, acc, hit) matches Some((Json::Object(fs), _, _)) ==> keys_unique(
            fs,
        ),
    decreases s.len(),
{
    if s.len() > 0 {
        if let JsonTokenOwned::JsKey(k) = s[0] {
            let ck = child_keep(c, keep, k@);
            lemma_value_bound(c, s.skip(1), ck);
            if let Some((v, n, m1)) = value_events(c, s.skip(1), ck) {
                let acc2 = if keep {
                    insert_key(acc, k@, v)
                } else {
                    acc
                };
                if keep {
                    lemma_insert_key_unique(acc, k@, v);
                }
                lemma_fields_keys_unique(
                    c,
                    s.skip(1 + n as int),
                    keep,
                    acc2,
                    hit || field_hits(c, keep, k@, v),
                );
            }
        }
    }
}

} // verus!
