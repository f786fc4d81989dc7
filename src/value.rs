use vstd::prelude::*;

verus! {

broadcast use vstd::std_specs::vec::axiom_vec_index_decreases;

/// A materialized JSON value. Numbers are kept verbatim as text.
///
/// The fields of an object hold each key at most once; a later insertion of a key
/// replaces the earlier value.
#[derive(Debug, PartialEq, Eq)]
pub enum JsonValue {
    Object(Vec<(String, JsonValue)>),
    Array(Vec<JsonValue>),
    String(String),
    Number(String),
    Boolean(bool),
    Null,
}

/// The mathematical model of a [`JsonValue`].
pub enum Json {
    Object(Seq<(Seq<char>, Json)>),
    Array(Seq<Json>),
    Str(Seq<char>),
    Num(Seq<char>),
    Bool(bool),
    Null,
}

impl JsonValue {
    pub open spec fn view(&self) -> Json
        decreases self,
    {
        match self {
            JsonValue::Object(fs) => Json::Object(
                Seq::new(
                    fs.len() as nat,
                    |i: int|
                        if 0 <= i < fs.len() {
                            (fs[i].0@, fs[i].1.view())
                        } else {
                            (Seq::empty(), Json::Null)
                        },
                ),
            ),
            JsonValue::Array(vs) => Json::Array(
                Seq::new(
                    vs.len() as nat,
                    |i: int|
                        if 0 <= i < vs.len() {
                            vs[i].view()
                        } else {
                            Json::Null
                        },
                ),
            ),
            JsonValue::String(s) => Json::Str(s@),
            JsonValue::Number(s) => Json::Num(s@),
            JsonValue::Boolean(b) => Json::Bool(*b),
            JsonValue::Null => Json::Null,
        }
    }
}

/// The model of the fields of an object, in the order in which they stand.
pub open spec fn fields_view(fs: Vec<(String, JsonValue)>) -> Seq<(Seq<char>, Json)> {
    Seq::new(
        fs.len() as nat,
        |i: int|
            if 0 <= i < fs.len() {
                (fs[i].0@, fs[i].1.view())
            } else {
                (Seq::empty(), Json::Null)
            },
    )
}

/// The model of an object's fields is exactly the model of its field vector.
pub proof fn lemma_object_view(fs: Vec<(String, JsonValue)>)
    ensures
        JsonValue::Object(fs)@ == Json::Object(fields_view(fs)),
{
    let m = JsonValue::Object(fs).view();
    if let Json::Object(inner) = m {
        assert(inner =~= fields_view(fs));
    }
}

/// The model of the elements of an array.
pub open spec fn elems_view(vs: Vec<JsonValue>) -> Seq<Json> {
    Seq::new(
        vs.len() as nat,
        |i: int|
            if 0 <= i < vs.len() {
                vs[i].view()
            } else {
                Json::Null
            },
    )
}

/// The model of an array is exactly the model of its element vector.
pub proof fn lemma_array_view(vs: Vec<JsonValue>)
    ensures
        JsonValue::Array(vs)@ == Json::Array(elems_view(vs)),
{
    let m = JsonValue::Array(vs).view();
    if let Json::Array(inner) = m {
        assert(inner =~= elems_view(vs));
    }
}

/// Whether some field of `fs` has the key `k`.
pub open spec fn has_key(fs: Seq<(Seq<char>, Json)>, k: Seq<char>) -> bool {
    exists|i: int| 0 <= i < fs.len() && #[trigger] fs[i].0 == k
}

/// No key occurs twice among the fields.
pub open spec fn keys_unique(fs: Seq<(Seq<char>, Json)>) -> bool {
    forall|i: int, j: int|
        0 <= i < fs.len() && 0 <= j < fs.len() && #[trigger] fs[i].0 == #[trigger] fs[j].0 ==> i
            == j
}

/// The value of the field with key `k` (meaningful when `has_key(fs, k)`).
pub open spec fn field_value(fs: Seq<(Seq<char>, Json)>, k: Seq<char>) -> Json {
    let i = choose|i: int| 0 <= i < fs.len() && #[trigger] fs[i].0 == k;
    fs[i].1
}

/// Last-write-wins insertion: an existing key gets the new value in place, a new key
/// is appended.
pub open spec fn insert_key(fs: Seq<(Seq<char>, Json)>, k: Seq<char>, v: Json) -> Seq<
    (Seq<char>, Json),
> {
    if has_key(fs, k) {
        Seq::new(fs.len(), |i: int| if fs[i].0 == k { (k, v) } else { fs[i] })
    } else {
        fs.push((k, v))
    }
}

/// Inserts `key` with `value` into the fields of an object, replacing the value of an
/// equal key if there is one.
pub fn insert_field(fields: &mut Vec<(String, JsonValue)>, key: String, value: JsonValue)
    requires
        keys_unique(fields_view(*old(fields))),
    ensures
        fields_view(*final(fields)) == insert_key(fields_view(*old(fields)), key@, value@),
        keys_unique(fields_view(*final(fields))),
{
    let ghost old_fs = fields_view(*fields);
    let ghost k = key@;
    let ghost v = value@;
    let mut i: usize = 0;
    while i < fields.len()
        invariant
            *fields == *old(fields),
            old_fs == fields_view(*fields),
            keys_unique(old_fs),
            k == key@,
            v == value@,
            0 <= i <= fields.len(),
            forall|j: int| 0 <= j < i ==> #[trigger] old_fs[j].0 != k,
        decreases fields.len() - i,
    {
        if fields[i].0 == key {
            assert(old_fs[i as int].0 == k);
            fields[i] = (key, value);
            assert(has_key(old_fs, k));
            assert(fields_view(*fields) =~= insert_key(old_fs, k, v));
            return;
        }
        i += 1;
    }
    assert(!has_key(old_fs, k));
    fields.push((key, value));
    assert(fields_view(*fields) =~= insert_key(old_fs, k, v));
}

} // verus!
