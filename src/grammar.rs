use vstd::prelude::*;
use crate::event::{Config, JsonTokenOwned};
use crate::value::{Json, insert_key};

verus! {

/// Whether an event is the end of the input.
pub open spec fn is_eof(t: JsonTokenOwned) -> bool {
    t is JsEof
}

/// Whether an event closes an array.
pub open spec fn is_end_array(t: JsonTokenOwned) -> bool {
    t is EndArray
}

/// Whether `k` and `v` make a field that satisfies the match predicate, in an object
/// whose own retention flag is `keep`.
pub open spec fn field_hits(c: Config, keep: bool, k: Seq<char>, v: Json) -> bool {
    &&& keep || !c.predicate_requires_retention
    &&& k == c.predicate_field_key@
    &&& v == Json::Str(c.predicate_target@)
}

/// The child retention flag for a field with key `k` of an object whose own flag is `keep`.
pub open spec fn child_keep(c: Config, keep: bool, k: Seq<char>) -> bool {
    keep || k == c.retention_trigger_key@
}

/// Parses one value from the front of `s`: the value (materialized as far as `keep`
/// asks), the number of events it spans, and the number of matching objects in it.
/// `None` when `s` does not begin with a complete value.
pub open spec fn value_events(c: Config, s: Seq<JsonTokenOwned>, keep: bool) -> Option<
    (Json, nat, nat),
>
    decreases s.len(), 1int,
{
    if s.len() == 0 {
        None
    } else {
        match s[0] {
            JsonTokenOwned::StartObject => match fields_events(
                c,
                s.skip(1),
                keep,
                Seq::empty(),
                false,
            ) {
                Some((v, n, m)) => Some((v, n + 1, m)),
                None => None,
            },
            JsonTokenOwned::StartArray => match elems_events(c, s.skip(1), keep, Seq::empty()) {
                Some((v, n, m)) => Some((v, n + 1, m)),
                None => None,
            },
            JsonTokenOwned::JsString(t) => Some((Json::Str(t@), 1, 0)),
            JsonTokenOwned::JsNumber(t) => Some((Json::Num(t@), 1, 0)),
            JsonTokenOwned::JsBoolean(b) => Some((Json::Bool(b), 1, 0)),
            JsonTokenOwned::JsNull => Some((Json::Null, 1, 0)),
            _ => None,
        }
    }
}

/// Parses the rest of an object body (after its '{' and the fields already in `acc`)
/// up to and including its '}'. `hit` tells whether a field seen so far satisfied the
/// predicate; the object itself adds one match when it closes with `hit`.
pub open spec fn fields_events(
    c: Config,
    s: Seq<JsonTokenOwned>,
    keep: bool,
    acc: Seq<(Seq<char>, Json)>,
    hit: bool,
) -> Option<(Json, nat, nat)>
    decreases s.len(), 0int,
{
    if s.len() == 0 {
        None
    } else {
        match s[0] {
            JsonTokenOwned::EndObject => Some(
                (
                    Json::Object(acc),
                    1,
                    if hit {
                        1
                    } else {
                        0
                    },
                ),
            ),
            JsonTokenOwned::JsKey(k) => match value_events(
                c,
                s.skip(1),
                child_keep(c, keep, k@),
            ) {
                Some((v, n, m1)) => if 1 + n <= s.len() {
                    let hit2 = hit || field_hits(c, keep, k@, v);
                    let acc2 = if keep {
                        insert_key(acc, k@, v)
                    } else {
                        acc
                    };
                    match fields_events(c, s.skip(1 + n as int), keep, acc2, hit2) {
                        Some((o, n2, m2)) => Some((o, 1 + n + n2, m1 + m2)),
                        None => None,
                    }
                } else {
                    None
                },
                None => None,
            },
            _ => None,
        }
    }
}

/// Parses the rest of an array body (after its '[' and the elements already in `acc`)
/// up to and including its ']'.
pub open spec fn elems_events(
    c: Config,
    s: Seq<JsonTokenOwned>,
    keep: bool,
    acc: Seq<Json>,
) -> Option<(Json, nat, nat)>
    decreases s.len(), 2int,
{
    if s.len() == 0 {
        None
    } else if is_end_array(s[0]) {
        Some((Json::Array(acc), 1, 0))
    } else {
        match value_events(c, s, keep) {
            Some((v, n, m1)) => if 1 <= n <= s.len() {
                let acc2 = if keep {
                    acc.push(v)
                } else {
                    acc
                };
                match elems_events(c, s.skip(n as int), keep, acc2) {
                    Some((o, n2, m2)) => Some((o, n + n2, m1 + m2)),
                    None => None,
                }
            } else {
                None
            },
            None => None,
        }
    }
}

/// A parsed value spans at least one event and no more than there are.
pub proof fn lemma_value_bound(c: Config, s: Seq<JsonTokenOwned>, keep: bool)
    ensures
        value_events(c, s, keep) matches Some((_, n, _)) ==> 1 <= n <= s.len(),
    decreases s.len(), 1int,
{
    if s.len() > 0 {
        match s[0] {
            JsonTokenOwned::StartObject => {
                lemma_fields_bound(c, s.skip(1), keep, Seq::empty(), false);
            },
            JsonTokenOwned::StartArray => {
                lemma_elems_bound(c, s.skip(1), keep, Seq::empty());
            },
            _ => {},
        }
    }
}

/// An object body spans at least its '}' and no more events than there are.
pub proof fn lemma_fields_bound(
    c: Config,
    s: Seq<JsonTokenOwned>,
    keep: bool,
    acc: Seq<(Seq<char>, Json)>,
    hit: bool,
)
    ensures
        fields_events(c, s, keep, acc, hit) matches Some((_, n, _)) ==> 1 <= n <= s.len(),
    decreases s.len(), 0int,
{
    if s.len() > 0 {
        if let JsonTokenOwned::JsKey(k) = s[0] {
            let ck = child_keep(c, keep, k@);
            lemma_value_bound(c, s.skip(1), ck);
            if let Some((v, n, m1)) = value_events(c, s.skip(1), ck) {
                if 1 + n <= s.len() {
                    let hit2 = hit || field_hits(c, keep, k@, v);
                    let acc2 = if keep {
                        insert_key(acc, k@, v)
                    } else {
                        acc
                    };
                    lemma_fields_bound(c, s.skip(1 + n as int), keep, acc2, hit2);
                }
            }
        }
    }
}

/// An array body spans at least its ']' and no more events than there are.
pub proof fn lemma_elems_bound(c: Config, s: Seq<JsonTokenOwned>, keep: bool, acc: Seq<Json>)
    ensures
        elems_events(c, s, keep, acc) matches Some((_, n, _)) ==> 1 <= n <= s.len(),
    decreases s.len(), 2int,
{
    if s.len() > 0 && !is_end_array(s[0]) {
        lemma_value_bound(c, s, keep);
        if let Some((v, n, m1)) = value_events(c, s, keep) {
            if 1 <= n <= s.len() {
                let acc2 = if keep {
                    acc.push(v)
                } else {
                    acc
                };
                lemma_elems_bound(c, s.skip(n as int), keep, acc2);
            }
        }
    }
}

/// Two event sequences that agree on the events a value spans parse to the same result.
pub proof fn lemma_value_frame(
    c: Config,
    s: Seq<JsonTokenOwned>,
    t: Seq<JsonTokenOwned>,
    keep: bool,
)
    requires
        value_events(c, s, keep) matches Some((_, n, _)) && n <= t.len() && forall|i: int|
            0 <= i < n ==> t[i] == s[i],
    ensures
        value_events(c, t, keep) == value_events(c, s, keep),
    decreases s.len(), 1int,
{
    lemma_value_bound(c, s, keep);
    match s[0] {
        JsonTokenOwned::StartObject => {
            lemma_fields_frame(c, s.skip(1), t.skip(1), keep, Seq::empty(), false);
        },
        JsonTokenOwned::StartArray => {
            lemma_elems_frame(c, s.skip(1), t.skip(1), keep, Seq::empty());
        },
        _ => {},
    }
}

/// Framing for an object body.
pub proof fn lemma_fields_frame(
    c: Config,
    s: Seq<JsonTokenOwned>,
    t: Seq<JsonTokenOwned>,
    keep: bool,
    acc: Seq<(Seq<char>, Json)>,
    hit: bool,
)
    requires
        fields_events(c, s, keep, acc, hit) matches Some((_, n, _)) && n <= t.len() && forall|
            i: int,
        |
            0 <= i < n ==> t[i] == s[i],
    ensures
        fields_events(c, t, keep, acc, hit) == fields_events(c, s, keep, acc, hit),
    decreases s.len(), 0int,
{
    lemma_fields_bound(c, s, keep, acc, hit);
    let n_all = fields_events(c, s, keep, acc, hit).unwrap().1;
    if let JsonTokenOwned::JsKey(k) = s[0] {
        let ck = child_keep(c, keep, k@);
        let (v, n, m1) = value_events(c, s.skip(1), ck).unwrap();
        lemma_value_bound(c, s.skip(1), ck);
        let hit2 = hit || field_hits(c, keep, k@, v);
        let acc2 = if keep {
            insert_key(acc, k@, v)
        } else {
            acc
        };
        let rest = fields_events(c, s.skip(1 + n as int), keep, acc2, hit2).unwrap();
        assert(n_all == 1 + n + rest.1);
        let t1 = t.skip(1);
        let s1 = s.skip(1);
        assert forall|i: int| 0 <= i < n implies #[trigger] t1[i] == s1[i] by {
            assert(t[1 + i] == s[1 + i]);
        }
        lemma_value_frame(c, s.skip(1), t.skip(1), ck);
        let ts = t.skip(1 + n as int);
        let ss = s.skip(1 + n as int);
        assert forall|i: int| 0 <= i < rest.1 implies #[trigger] ts[i] == ss[i] by {
            assert(t[1 + n + i] == s[1 + n + i]);
        }
        lemma_fields_frame(c, s.skip(1 + n as int), t.skip(1 + n as int), keep, acc2, hit2);
    }
}

/// Framing for an array body.
pub proof fn lemma_elems_frame(
    c: Config,
    s: Seq<JsonTokenOwned>,
    t: Seq<JsonTokenOwned>,
    keep: bool,
    acc: Seq<Json>,
)
    requires
        elems_events(c, s, keep, acc) matches Some((_, n, _)) && n <= t.len() && forall|i: int|
            0 <= i < n ==> t[i] == s[i],
    ensures
        elems_events(c, t, keep, acc) == elems_events(c, s, keep, acc),
    decreases s.len(), 2int,
{
    lemma_elems_bound(c, s, keep, acc);
    if !is_end_array(s[0]) {
        let (v, n, m1) = value_events(c, s, keep).unwrap();
        lemma_value_bound(c, s, keep);
        let acc2 = if keep {
            acc.push(v)
        } else {
            acc
        };
        let rest = elems_events(c, s.skip(n as int), keep, acc2).unwrap();
        lemma_value_frame(c, s, t, keep);
        let ts = t.skip(n as int);
        let ss = s.skip(n as int);
        assert forall|i: int| 0 <= i < rest.1 implies #[trigger] ts[i] == ss[i] by {
            assert(t[n + i] == s[n + i]);
        }
        lemma_elems_frame(c, s.skip(n as int), t.skip(n as int), keep, acc2);
    }
}

/// A whole document: one value, then the end of input and nothing after it. The
/// result is the root value and the number of matching objects.
pub open spec fn document_events(c: Config, s: Seq<JsonTokenOwned>) -> Option<(Json, nat)> {
    match value_events(c, s, false) {
        Some((v, n, m)) => if n + 1 == s.len() && is_eof(s[n as int]) {
            Some((v, m))
        } else {
            None
        },
        None => None,
    }
}

/// A result moved past `p` earlier events that held `m` matches.
pub open spec fn shift(o: Option<(Json, nat, nat)>, p: nat, m: nat) -> Option<(Json, nat, nat)> {
    match o {
        Some((v, n, k)) => Some((v, n + p, k + m)),
        None => None,
    }
}

/// Whether `t` begins with `pre`.
pub open spec fn starts_with(t: Seq<JsonTokenOwned>, pre: Seq<JsonTokenOwned>) -> bool {
    pre.len() <= t.len() && t.subrange(0, pre.len() as int) == pre
}

/// Whether a parse result is a value followed by at least one further event.
pub open spec fn complete(o: Option<(Json, nat, nat)>, len: nat) -> bool {
    o matches Some((_, n, _)) && n < len
}

/// `pre` is an open object whose fields so far are `acc`, `hit` and `m`: any sequence
/// that begins with `pre` parses as the rest of that object's body does.
pub open spec fn object_frame(
    c: Config,
    pre: Seq<JsonTokenOwned>,
    keep: bool,
    acc: Seq<(Seq<char>, Json)>,
    hit: bool,
    m: nat,
) -> bool {
    forall|t: Seq<JsonTokenOwned>|
        starts_with(t, pre) ==> #[trigger] value_events(c, t, keep) == shift(
            fields_events(c, t.skip(pre.len() as int), keep, acc, hit),
            pre.len(),
            m,
        )
}

/// `pre` is an open array whose elements so far are `acc`, holding `m` matches.
pub open spec fn array_frame(
    c: Config,
    pre: Seq<JsonTokenOwned>,
    keep: bool,
    acc: Seq<Json>,
    m: nat,
) -> bool {
    forall|t: Seq<JsonTokenOwned>|
        starts_with(t, pre) ==> #[trigger] value_events(c, t, keep) == shift(
            elems_events(c, t.skip(pre.len() as int), keep, acc),
            pre.len(),
            m,
        )
}

/// The lone '{' opens an object with no fields yet.
pub proof fn lemma_object_start(c: Config, pre: Seq<JsonTokenOwned>, keep: bool)
    requires
        pre == seq![JsonTokenOwned::StartObject],
    ensures
        object_frame(c, pre, keep, Seq::empty(), false, 0),
{
    assert forall|t: Seq<JsonTokenOwned>| starts_with(t, pre) implies #[trigger] value_events(
        c,
        t,
        keep,
    ) == shift(fields_events(c, t.skip(1), keep, Seq::empty(), false), 1, 0) by {
        assert(t[0] == t.subrange(0, 1)[0]);
    }
}

/// The lone '[' opens an array with no elements yet.
pub proof fn lemma_array_start(c: Config, pre: Seq<JsonTokenOwned>, keep: bool)
    requires
        pre == seq![JsonTokenOwned::StartArray],
    ensures
        array_frame(c, pre, keep, Seq::empty(), 0),
{
    assert forall|t: Seq<JsonTokenOwned>| starts_with(t, pre) implies #[trigger] value_events(
        c,
        t,
        keep,
    ) == shift(elems_events(c, t.skip(1), keep, Seq::empty()), 1, 0) by {
        assert(t[0] == t.subrange(0, 1)[0]);
    }
}

/// A field `k` whose value parsed from `child` extends an open object.
#[verifier::rlimit(40)]
pub proof fn lemma_object_step(
    c: Config,
    pre: Seq<JsonTokenOwned>,
    keep: bool,
    acc: Seq<(Seq<char>, Json)>,
    hit: bool,
    m: nat,
    k: String,
    child: Seq<JsonTokenOwned>,
)
    requires
        object_frame(c, pre, keep, acc, hit, m),
        value_events(c, child, child_keep(c, keep, k@)) matches Some((_, n, _)) && n
            <= child.len(),
    ensures
        ({
            let (v, n, m1) = value_events(c, child, child_keep(c, keep, k@)).unwrap();
            object_frame(
                c,
                pre.push(JsonTokenOwned::JsKey(k)) + child.subrange(0, n as int),
                keep,
                if keep {
                    insert_key(acc, k@, v)
                } else {
                    acc
                },
                hit || field_hits(c, keep, k@, v),
                m + m1,
            )
        }),
{
    let ck = child_keep(c, keep, k@);
    let (v, n, m1) = value_events(c, child, ck).unwrap();
    let acc2 = if keep {
        insert_key(acc, k@, v)
    } else {
        acc
    };
    let hit2 = hit || field_hits(c, keep, k@, v);
    let pre2 = pre.push(JsonTokenOwned::JsKey(k)) + child.subrange(0, n as int);
    let p = pre.len() as int;
    lemma_value_bound(c, child, ck);
    assert forall|t: Seq<JsonTokenOwned>| starts_with(t, pre2) implies #[trigger] value_events(
        c,
        t,
        keep,
    ) == shift(fields_events(c, t.skip(pre2.len() as int), keep, acc2, hit2), pre2.len(), m + m1) by {
        assert(t.subrange(0, p) =~= pre) by {
            assert forall|i: int| 0 <= i < p implies t.subrange(0, p)[i] == pre[i] by {
                assert(t.subrange(0, pre2.len() as int)[i] == pre2[i]);
            }
        }
        let u = t.skip(p);
        assert(u[0] == t.subrange(0, pre2.len() as int)[p]);
        let w = u.skip(1);
        assert forall|i: int| 0 <= i < n implies #[trigger] w[i] == child[i] by {
            assert(t.subrange(0, pre2.len() as int)[p + 1 + i] == pre2[p + 1 + i]);
        }
        lemma_value_frame(c, child, w, ck);
        assert(u.skip(1 + n as int) =~= t.skip(pre2.len() as int));
    }
}

/// A field whose value does not parse to completion leaves the object incomplete.
pub proof fn lemma_object_child_fails(
    c: Config,
    pre: Seq<JsonTokenOwned>,
    keep: bool,
    acc: Seq<(Seq<char>, Json)>,
    hit: bool,
    m: nat,
    k: String,
    child: Seq<JsonTokenOwned>,
)
    requires
        object_frame(c, pre, keep, acc, hit, m),
        !complete(value_events(c, child, child_keep(c, keep, k@)), child.len()),
    ensures
        !complete(
            value_events(c, pre.push(JsonTokenOwned::JsKey(k)) + child, keep),
            pre.len() + 1 + child.len(),
        ),
        value_events(c, child, child_keep(c, keep, k@)) is None ==> value_events(
            c,
            pre.push(JsonTokenOwned::JsKey(k)) + child,
            keep,
        ) is None,
{
    let t = pre.push(JsonTokenOwned::JsKey(k)) + child;
    assert(t.subrange(0, pre.len() as int) =~= pre);
    let u = t.skip(pre.len() as int);
    assert(u.skip(1) =~= child);
    lemma_value_bound(c, child, child_keep(c, keep, k@));
}

/// An event other than a key or '}' where a key is expected leaves the object incomplete.
pub proof fn lemma_object_bad(
    c: Config,
    pre: Seq<JsonTokenOwned>,
    keep: bool,
    acc: Seq<(Seq<char>, Json)>,
    hit: bool,
    m: nat,
    tok: JsonTokenOwned,
)
    requires
        object_frame(c, pre, keep, acc, hit, m),
        !(tok is JsKey),
        !(tok is EndObject),
    ensures
        value_events(c, pre.push(tok), keep) is None,
{
    let t = pre.push(tok);
    assert(t.subrange(0, pre.len() as int) =~= pre);
    assert(t.skip(pre.len() as int)[0] == tok);
}

/// '}' closes the object; it is complete once one more event follows.
pub proof fn lemma_object_end(
    c: Config,
    pre: Seq<JsonTokenOwned>,
    keep: bool,
    acc: Seq<(Seq<char>, Json)>,
    hit: bool,
    m: nat,
    rest: Seq<JsonTokenOwned>,
)
    requires
        object_frame(c, pre, keep, acc, hit, m),
        rest.len() <= 1,
    ensures
        value_events(c, pre.push(JsonTokenOwned::EndObject) + rest, keep) == Some(
            (
                Json::Object(acc),
                pre.len() + 1,
                m + if hit {
                    1nat
                } else {
                    0nat
                },
            ),
        ),
{
    let t = pre.push(JsonTokenOwned::EndObject) + rest;
    assert(t.subrange(0, pre.len() as int) =~= pre);
    assert(t.skip(pre.len() as int)[0] == JsonTokenOwned::EndObject);
}

/// An element parsed from `child` extends an open array.
pub proof fn lemma_array_step(
    c: Config,
    pre: Seq<JsonTokenOwned>,
    keep: bool,
    acc: Seq<Json>,
    m: nat,
    child: Seq<JsonTokenOwned>,
)
    requires
        array_frame(c, pre, keep, acc, m),
        child.len() > 0,
        !is_end_array(child[0]),
        value_events(c, child, keep) matches Some((_, n, _)) && n <= child.len(),
    ensures
        ({
            let (v, n, m1) = value_events(c, child, keep).unwrap();
            array_frame(
                c,
                pre + child.subrange(0, n as int),
                keep,
                if keep {
                    acc.push(v)
                } else {
                    acc
                },
                m + m1,
            )
        }),
{
    let (v, n, m1) = value_events(c, child, keep).unwrap();
    let acc2 = if keep {
        acc.push(v)
    } else {
        acc
    };
    let pre2 = pre + child.subrange(0, n as int);
    let p = pre.len() as int;
    lemma_value_bound(c, child, keep);
    assert forall|t: Seq<JsonTokenOwned>| starts_with(t, pre2) implies #[trigger] value_events(
        c,
        t,
        keep,
    ) == shift(elems_events(c, t.skip(pre2.len() as int), keep, acc2), pre2.len(), m + m1) by {
        assert(t.subrange(0, p) =~= pre) by {
            assert forall|i: int| 0 <= i < p implies t.subrange(0, p)[i] == pre[i] by {
                assert(t.subrange(0, pre2.len() as int)[i] == pre2[i]);
            }
        }
        let u = t.skip(p);
        assert forall|i: int| 0 <= i < n implies #[trigger] u[i] == child[i] by {
            assert(t.subrange(0, pre2.len() as int)[p + i] == pre2[p + i]);
        }
        lemma_value_frame(c, child, u, keep);
        assert(u.skip(n as int) =~= t.skip(pre2.len() as int));
    }
}

/// An element that does not parse to completion leaves the array incomplete.
pub proof fn lemma_array_child_fails(
    c: Config,
    pre: Seq<JsonTokenOwned>,
    keep: bool,
    acc: Seq<Json>,
    m: nat,
    child: Seq<JsonTokenOwned>,
)
    requires
        array_frame(c, pre, keep, acc, m),
        child.len() > 0,
        !is_end_array(child[0]),
        !complete(value_events(c, child, keep), child.len()),
    ensures
        !complete(value_events(c, pre + child, keep), pre.len() + child.len()),
        value_events(c, child, keep) is None ==> value_events(c, pre + child, keep) is None,
{
    let t = pre + child;
    assert(t.subrange(0, pre.len() as int) =~= pre);
    let u = t.skip(pre.len() as int);
    assert(u =~= child);
    lemma_value_bound(c, child, keep);
}

/// ']' closes the array; it is complete once one more event follows.
pub proof fn lemma_array_end(
    c: Config,
    pre: Seq<JsonTokenOwned>,
    keep: bool,
    acc: Seq<Json>,
    m: nat,
    rest: Seq<JsonTokenOwned>,
)
    requires
        array_frame(c, pre, keep, acc, m),
        rest.len() <= 1,
    ensures
        value_events(c, pre.push(JsonTokenOwned::EndArray) + rest, keep) == Some(
            (Json::Array(acc), pre.len() + 1, m),
        ),
{
    let t = pre.push(JsonTokenOwned::EndArray) + rest;
    assert(t.subrange(0, pre.len() as int) =~= pre);
    assert(t.skip(pre.len() as int)[0] == JsonTokenOwned::EndArray);
}

/// Whether an event opens a container.
pub open spec fn opens_container(t: JsonTokenOwned) -> bool {
    t is StartObject || t is StartArray
}

/// Whether an event can begin a value.
pub open spec fn begins_value(t: JsonTokenOwned) -> bool {
    t is StartObject || t is StartArray || t is JsString || t is JsNumber || t is JsBoolean
        || t is JsNull
}

/// No sequence that begins with `s` parses as a value: the events of `s` are
/// malformed whatever follows them.
pub open spec fn dead(c: Config, s: Seq<JsonTokenOwned>, keep: bool) -> bool {
    forall|t: Seq<JsonTokenOwned>| starts_with(t, s) ==> #[trigger] value_events(c, t, keep) is None
}

/// A sequence that begins with `a + b` begins with `a`, and goes on with `b`.
pub proof fn lemma_starts_with_split(
    t: Seq<JsonTokenOwned>,
    a: Seq<JsonTokenOwned>,
    b: Seq<JsonTokenOwned>,
)
    requires
        starts_with(t, a + b),
    ensures
        starts_with(t, a),
        starts_with(t.skip(a.len() as int), b),
{
    let ab = a + b;
    assert(t.subrange(0, a.len() as int) =~= a) by {
        assert forall|i: int| 0 <= i < a.len() implies t.subrange(0, a.len() as int)[i] == a[i] by {
            assert(t.subrange(0, ab.len() as int)[i] == ab[i]);
        }
    }
    assert(t.skip(a.len() as int).subrange(0, b.len() as int) =~= b) by {
        assert forall|i: int| 0 <= i < b.len() implies t.skip(a.len() as int).subrange(
            0,
            b.len() as int,
        )[i] == b[i] by {
            assert(t.subrange(0, ab.len() as int)[a.len() + i] == ab[a.len() + i]);
        }
    }
}

/// An event that cannot begin a value is malformed whatever follows.
pub proof fn lemma_bad_start_dead(c: Config, tok: JsonTokenOwned, keep: bool)
    requires
        !begins_value(tok),
    ensures
        dead(c, seq![tok], keep),
{
    assert forall|t: Seq<JsonTokenOwned>| starts_with(t, seq![tok]) implies #[trigger] value_events(
        c,
        t,
        keep,
    ) is None by {
        assert(t[0] == t.subrange(0, 1)[0]);
    }
}

/// An event other than a key or '}' where a key is expected leaves the object
/// malformed whatever follows.
pub proof fn lemma_object_bad_dead(
    c: Config,
    pre: Seq<JsonTokenOwned>,
    keep: bool,
    acc: Seq<(Seq<char>, Json)>,
    hit: bool,
    m: nat,
    tok: JsonTokenOwned,
)
    requires
        object_frame(c, pre, keep, acc, hit, m),
        !(tok is JsKey),
        !(tok is EndObject),
    ensures
        dead(c, pre.push(tok), keep),
{
    assert(pre.push(tok) =~= pre + seq![tok]);
    assert forall|t: Seq<JsonTokenOwned>| starts_with(t, pre.push(tok)) implies #[trigger] value_events(
        c,
        t,
        keep,
    ) is None by {
        lemma_starts_with_split(t, pre, seq![tok]);
        let u = t.skip(pre.len() as int);
        assert(u[0] == u.subrange(0, 1)[0]);
    }
}

/// A field value that is malformed whatever follows leaves its object malformed too.
pub proof fn lemma_object_child_dead(
    c: Config,
    pre: Seq<JsonTokenOwned>,
    keep: bool,
    acc: Seq<(Seq<char>, Json)>,
    hit: bool,
    m: nat,
    k: String,
    child: Seq<JsonTokenOwned>,
)
    requires
        object_frame(c, pre, keep, acc, hit, m),
        dead(c, child, child_keep(c, keep, k@)),
    ensures
        dead(c, pre.push(JsonTokenOwned::JsKey(k)) + child, keep),
{
    let kc = seq![JsonTokenOwned::JsKey(k)] + child;
    assert(pre.push(JsonTokenOwned::JsKey(k)) + child =~= pre + kc);
    assert forall|t: Seq<JsonTokenOwned>|
        starts_with(t, pre.push(JsonTokenOwned::JsKey(k)) + child) implies #[trigger] value_events(
        c,
        t,
        keep,
    ) is None by {
        lemma_starts_with_split(t, pre, kc);
        let u = t.skip(pre.len() as int);
        lemma_starts_with_split(u, seq![JsonTokenOwned::JsKey(k)], child);
        assert(u[0] == u.subrange(0, 1)[0]);
        assert(value_events(c, u.skip(1), child_keep(c, keep, k@)) is None);
    }
}

/// An element that is malformed whatever follows leaves its array malformed too.
pub proof fn lemma_array_child_dead(
    c: Config,
    pre: Seq<JsonTokenOwned>,
    keep: bool,
    acc: Seq<Json>,
    m: nat,
    child: Seq<JsonTokenOwned>,
)
    requires
        array_frame(c, pre, keep, acc, m),
        child.len() > 0,
        !is_end_array(child[0]),
        dead(c, child, keep),
    ensures
        dead(c, pre + child, keep),
{
    assert forall|t: Seq<JsonTokenOwned>| starts_with(t, pre + child) implies #[trigger] value_events(
        c,
        t,
        keep,
    ) is None by {
        lemma_starts_with_split(t, pre, child);
        let u = t.skip(pre.len() as int);
        assert(u[0] == u.subrange(0, child.len() as int)[0]);
        assert(value_events(c, u, keep) is None);
    }
}

/// How an event changes the number of open containers.
pub open spec fn open_delta(t: JsonTokenOwned) -> int {
    if t is StartObject || t is StartArray {
        1
    } else if t is EndObject || t is EndArray {
        -1
    } else {
        0
    }
}

/// The containers opened in `s` and not closed in it.
pub open spec fn open_containers(s: Seq<JsonTokenOwned>) -> int
    decreases s.len(),
{
    if s.len() == 0 {
        0
    } else {
        open_containers(s.drop_last()) + open_delta(s.last())
    }
}

/// Open containers add up over concatenation.
pub proof fn lemma_open_concat(a: Seq<JsonTokenOwned>, b: Seq<JsonTokenOwned>)
    ensures
        open_containers(a + b) == open_containers(a) + open_containers(b),
    decreases b.len(),
{
    if b.len() == 0 {
        assert(a + b =~= a);
    } else {
        assert((a + b).drop_last() =~= a + b.drop_last());
        lemma_open_concat(a, b.drop_last());
    }
}

/// A single event opens or closes as its kind says.
pub proof fn lemma_open_single(t: JsonTokenOwned)
    ensures
        open_containers(seq![t]) == open_delta(t),
{
    assert(seq![t].drop_last() =~= Seq::<JsonTokenOwned>::empty());
    assert(open_containers(Seq::<JsonTokenOwned>::empty()) == 0);
    assert(seq![t].last() == t);
}

/// The events a value spans close every container they open.
pub proof fn lemma_value_balanced(c: Config, s: Seq<JsonTokenOwned>, keep: bool)
    ensures
        value_events(c, s, keep) matches Some((_, n, _)) ==> open_containers(s.take(n as int)) == 0,
    decreases s.len(), 1int,
{
    lemma_value_bound(c, s, keep);
    if let Some((_, n, _)) = value_events(c, s, keep) {
        lemma_open_single(s[0]);
        match s[0] {
            JsonTokenOwned::StartObject => {
                lemma_fields_balanced(c, s.skip(1), keep, Seq::empty(), false);
                lemma_fields_bound(c, s.skip(1), keep, Seq::empty(), false);
                assert(s.take(n as int) =~= seq![s[0]] + s.skip(1).take(n - 1));
                lemma_open_concat(seq![s[0]], s.skip(1).take(n - 1));
            },
            JsonTokenOwned::StartArray => {
                lemma_elems_balanced(c, s.skip(1), keep, Seq::empty());
                lemma_elems_bound(c, s.skip(1), keep, Seq::empty());
                assert(s.take(n as int) =~= seq![s[0]] + s.skip(1).take(n - 1));
                lemma_open_concat(seq![s[0]], s.skip(1).take(n - 1));
            },
            _ => {
                assert(s.take(n as int) =~= seq![s[0]]);
            },
        }
    }
}

/// The rest of an object body closes one more container than it opens.
pub proof fn lemma_fields_balanced(
    c: Config,
    s: Seq<JsonTokenOwned>,
    keep: bool,
    acc: Seq<(Seq<char>, Json)>,
    hit: bool,
)
    ensures
        fields_events(c, s, keep, acc, hit) matches Some((_, n, _)) ==> open_containers(
            s.take(n as int),
        ) == -1,
    decreases s.len(), 0int,
{
    if let Some((_, n_all, _)) = fields_events(c, s, keep, acc, hit) {
        lemma_open_single(s[0]);
        if let JsonTokenOwned::JsKey(k) = s[0] {
            let ck = child_keep(c, keep, k@);
            let (v, n, m1) = value_events(c, s.skip(1), ck).unwrap();
            lemma_value_bound(c, s.skip(1), ck);
            lemma_value_balanced(c, s.skip(1), ck);
            let hit2 = hit || field_hits(c, keep, k@, v);
            let acc2 = if keep {
                insert_key(acc, k@, v)
            } else {
                acc
            };
            let rest = s.skip(1 + n as int);
            let n2 = fields_events(c, rest, keep, acc2, hit2).unwrap().1;
            lemma_fields_balanced(c, rest, keep, acc2, hit2);
            lemma_fields_bound(c, rest, keep, acc2, hit2);
            assert(s.take(n_all as int) =~= seq![s[0]] + s.skip(1).take(n as int) + rest.take(
                n2 as int,
            ));
            lemma_open_concat(seq![s[0]] + s.skip(1).take(n as int), rest.take(n2 as int));
            lemma_open_concat(seq![s[0]], s.skip(1).take(n as int));
        } else {
            assert(s.take(n_all as int) =~= seq![s[0]]);
        }
    }
}

/// The rest of an array body closes one more container than it opens.
pub proof fn lemma_elems_balanced(c: Config, s: Seq<JsonTokenOwned>, keep: bool, acc: Seq<Json>)
    ensures
        elems_events(c, s, keep, acc) matches Some((_, n, _)) ==> open_containers(
            s.take(n as int),
        ) == -1,
    decreases s.len(), 2int,
{
    if let Some((_, n_all, _)) = elems_events(c, s, keep, acc) {
        if is_end_array(s[0]) {
            lemma_open_single(s[0]);
            assert(s.take(n_all as int) =~= seq![s[0]]);
        } else {
            let (v, n, m1) = value_events(c, s, keep).unwrap();
            lemma_value_bound(c, s, keep);
            lemma_value_balanced(c, s, keep);
            let acc2 = if keep {
                acc.push(v)
            } else {
                acc
            };
            let rest = s.skip(n as int);
            let n2 = elems_events(c, rest, keep, acc2).unwrap().1;
            lemma_elems_balanced(c, rest, keep, acc2);
            lemma_elems_bound(c, rest, keep, acc2);
            assert(s.take(n_all as int) =~= s.take(n as int) + rest.take(n2 as int));
            lemma_open_concat(s.take(n as int), rest.take(n2 as int));
        }
    }
}

} // verus!
