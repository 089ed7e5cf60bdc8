use vstd::prelude::*;
use crate::text::str_eq;

verus! {

/// A JSON value as the library holds it in memory.
///
/// Numbers are kept as their canonical JSON text, objects as their entries
/// in insertion order (the order a `serde_json` map with `preserve_order`
/// keeps).
#[derive(Debug)]
pub enum JsonValue {
    Null,
    Bool(bool),
    Number(String),
    Str(String),
    Array(Vec<JsonValue>),
    Object(Vec<(String, JsonValue)>),
}

/// The mathematical model of a JSON value.
pub enum Json {
    Null,
    Bool(bool),
    Number(Seq<char>),
    Str(Seq<char>),
    Array(Seq<Json>),
    Object(Seq<(Seq<char>, Json)>),
}

/// The entries of an object, each key taken by its text.
pub type Entries = Seq<(Seq<char>, Json)>;

impl JsonValue {
    /// The value as mathematics sees it: strings by their characters.
    pub open spec fn model(&self) -> Json
        decreases self,
    {
        match self {
            JsonValue::Null => Json::Null,
            JsonValue::Bool(b) => Json::Bool(*b),
            JsonValue::Number(n) => Json::Number(n@),
            JsonValue::Str(s) => Json::Str(s@),
            JsonValue::Array(a) => Json::Array(items_model(a@)),
            JsonValue::Object(m) => Json::Object(entries_model(m@)),
        }
    }
}

/// The items of an array, each by its model.
pub open spec fn items_model(a: Seq<JsonValue>) -> Seq<Json>
    decreases a,
{
    Seq::new(a.len(), |i: int| if 0 <= i < a.len() { a[i].model() } else { Json::Null })
}

/// The entries of an object, each key by its characters and each value by
/// its model.
pub open spec fn entries_model(m: Seq<(String, JsonValue)>) -> Entries
    decreases m,
{
    Seq::new(
        m.len(),
        |i: int| if 0 <= i < m.len() { (m[i].0@, m[i].1.model()) } else { (Seq::empty(), Json::Null) },
    )
}

impl View for JsonValue {
    type V = Json;

    open spec fn view(&self) -> Json {
        self.model()
    }
}

/// Position of the first entry whose key is `k`, or -1 when there is none.
pub open spec fn key_index<V>(m: Seq<(Seq<char>, V)>, k: Seq<char>) -> int
    decreases m.len(),
{
    if m.len() == 0 {
        -1
    } else if m[0].0 == k {
        0
    } else {
        let r = key_index(m.drop_first(), k);
        if r < 0 {
            -1
        } else {
            r + 1
        }
    }
}

pub open spec fn has_key<V>(m: Seq<(Seq<char>, V)>, k: Seq<char>) -> bool {
    exists|i: int| 0 <= i < m.len() && #[trigger] m[i].0 == k
}

/// No key occurs twice.
pub open spec fn unique_keys<V>(m: Seq<(Seq<char>, V)>) -> bool {
    forall|i: int, j: int| 0 <= i < j < m.len() ==> #[trigger] m[i].0 != #[trigger] m[j].0
}

/// The keys of the entries, in order.
pub open spec fn keys_of<V>(m: Seq<(Seq<char>, V)>) -> Seq<Seq<char>> {
    m.map_values(|e: (Seq<char>, V)| e.0)
}

/// The value stored under `k`, if any.
pub open spec fn entry_value<V>(m: Seq<(Seq<char>, V)>, k: Seq<char>) -> Option<V> {
    let i = key_index(m, k);
    if i < 0 {
        None
    } else {
        Some(m[i].1)
    }
}

/// Inserting into an insertion-ordered map: an existing key keeps its place
/// and takes the new value, a new key goes to the end.
pub open spec fn map_insert<V>(m: Seq<(Seq<char>, V)>, k: Seq<char>, v: V) -> Seq<(Seq<char>, V)> {
    let i = key_index(m, k);
    if i < 0 {
        m.push((k, v))
    } else {
        m.update(i, (k, v))
    }
}

/// Removing from an insertion-ordered map by swapping the last entry into
/// the freed place.
pub open spec fn map_swap_remove<V>(m: Seq<(Seq<char>, V)>, k: Seq<char>) -> Seq<(Seq<char>, V)> {
    let i = key_index(m, k);
    if i < 0 {
        m
    } else {
        m.update(i, m.last()).drop_last()
    }
}

pub proof fn lemma_key_index<V>(m: Seq<(Seq<char>, V)>, k: Seq<char>)
    ensures
        -1 <= key_index(m, k) < m.len(),
        key_index(m, k) >= 0 ==> m[key_index(m, k)].0 == k,
        key_index(m, k) >= 0 ==> forall|j: int| 0 <= j < key_index(m, k) ==> m[j].0 != k,
        key_index(m, k) < 0 <==> !has_key(m, k),
    decreases m.len(),
{
    if m.len() > 0 {
        lemma_key_index(m.drop_first(), k);
        if m[0].0 != k {
            if has_key(m, k) {
                let i = choose|i: int| 0 <= i < m.len() && #[trigger] m[i].0 == k;
                assert(m.drop_first()[i - 1].0 == k);
            }
            if key_index(m, k) >= 0 {
                assert forall|j: int| 0 <= j < key_index(m, k) implies m[j].0 != k by {
                    if j > 0 {
                        assert(m[j] == m.drop_first()[j - 1]);
                    }
                }
                assert(m[key_index(m, k)] == m.drop_first()[key_index(m, k) - 1]);
            } else {
                assert forall|i: int| 0 <= i < m.len() implies m[i].0 != k by {
                    if i > 0 {
                        assert(m[i] == m.drop_first()[i - 1]);
                    }
                }
            }
        } else {
            assert(m[0].0 == k);
        }
    }
}

/// With unique keys, the index of a key is the one place where it stands.
pub proof fn lemma_key_index_unique<V>(m: Seq<(Seq<char>, V)>, i: int)
    requires
        unique_keys(m),
        0 <= i < m.len(),
    ensures
        key_index(m, m[i].0) == i,
{
    lemma_key_index(m, m[i].0);
    assert(has_key(m, m[i].0));
}

/// Swap-removing keeps keys unique, and every entry left was there before.
pub proof fn lemma_swap_remove_entries<V>(m: Seq<(Seq<char>, V)>, k: Seq<char>)
    ensures
        unique_keys(m) ==> unique_keys(map_swap_remove(m, k)),
        forall|j: int| 0 <= j < map_swap_remove(m, k).len() ==> exists|j2: int|
            0 <= j2 < m.len() && #[trigger] map_swap_remove(m, k)[j] == m[j2],
{
    let r = map_swap_remove(m, k);
    lemma_key_index(m, k);
    let i = key_index(m, k);
    if i >= 0 {
        let last = m.len() - 1;
        assert forall|j: int| 0 <= j < r.len() implies exists|j2: int|
            0 <= j2 < m.len() && #[trigger] r[j] == m[j2] by {
            if j == i {
                assert(r[j] == m[last]);
            } else {
                assert(r[j] == m[j]);
            }
        }
        assert forall|a: int, b: int| unique_keys(m) && 0 <= a < b < r.len() implies #[trigger] r[a].0
            != #[trigger] r[b].0 by {
            let a2 = if a == i { last } else { a };
            let b2 = if b == i { last } else { b };
            assert(r[a] == m[a2]);
            assert(r[b] == m[b2]);
        }
    }
}

/// Inserting keeps keys unique, and every entry is one from before or the
/// new one.
pub proof fn lemma_insert_entries<V>(m: Seq<(Seq<char>, V)>, k: Seq<char>, v: V)
    ensures
        unique_keys(m) ==> unique_keys(map_insert(m, k, v)),
        forall|j: int| 0 <= j < map_insert(m, k, v).len() ==> #[trigger] map_insert(m, k, v)[j] == (
        k,
        v,
        ) || exists|j2: int| 0 <= j2 < m.len() && map_insert(m, k, v)[j] == m[j2],
{
    let r = map_insert(m, k, v);
    lemma_key_index(m, k);
    let i = key_index(m, k);
    assert forall|j: int| 0 <= j < r.len() implies #[trigger] r[j] == (k, v) || exists|j2: int|
        0 <= j2 < m.len() && r[j] == m[j2] by {
        if j < m.len() && j != i {
            assert(r[j] == m[j]);
        }
    }
    assert forall|a: int, b: int| unique_keys(m) && 0 <= a < b < r.len() implies #[trigger] r[a].0
        != #[trigger] r[b].0 by {
        if i < 0 && b == m.len() {
            assert(!has_key(m, k));
            assert(m[a].0 != k);
        }
    }
}

/// What swap-removing `k` does to the keys and values: `k` goes, every
/// other key keeps its value.
pub proof fn lemma_swap_remove_value<V>(m: Seq<(Seq<char>, V)>, k: Seq<char>, k2: Seq<char>)
    requires
        unique_keys(m),
    ensures
        has_key(map_swap_remove(m, k), k2) <==> (has_key(m, k2) && k2 != k),
        k2 != k ==> entry_value(map_swap_remove(m, k), k2) == entry_value(m, k2),
{
    let r = map_swap_remove(m, k);
    lemma_swap_remove_entries(m, k);
    lemma_key_index(m, k);
    lemma_key_index(m, k2);
    lemma_key_index(r, k2);
    let i = key_index(m, k);
    if i >= 0 {
        let last = m.len() - 1;
        if has_key(r, k2) {
            let j = choose|j: int| 0 <= j < r.len() && #[trigger] r[j].0 == k2;
            let j2 = if j == i { last } else { j };
            assert(r[j] == m[j2]);
            assert(m[j2].0 == k2);
            if k2 == k {
                assert(j2 == i);
            }
        }
        if has_key(m, k2) && k2 != k {
            let j = key_index(m, k2);
            let rj = if j == last { i } else { j };
            assert(r[rj] == m[j]);
            assert(has_key(r, k2));
            lemma_key_index_unique(r, rj);
            lemma_key_index_unique(m, j);
        }
    }
}

/// What inserting does to the keys and values: `k` holds `v`, every other
/// key keeps its value.
pub proof fn lemma_insert_value<V>(m: Seq<(Seq<char>, V)>, k: Seq<char>, v: V, k2: Seq<char>)
    requires
        unique_keys(m),
    ensures
        has_key(map_insert(m, k, v), k2) <==> (has_key(m, k2) || k2 == k),
        entry_value(map_insert(m, k, v), k) == Some(v),
        k2 != k ==> entry_value(map_insert(m, k, v), k2) == entry_value(m, k2),
        !has_key(m, k) ==> map_insert(m, k, v) == m.push((k, v)),
{
    let r = map_insert(m, k, v);
    lemma_insert_entries(m, k, v);
    lemma_key_index(m, k);
    lemma_key_index(m, k2);
    lemma_key_index(r, k2);
    let i = key_index(m, k);
    let pos = if i >= 0 { i } else { m.len() as int };
    assert(r[pos] == (k, v));
    lemma_key_index_unique(r, pos);
    if has_key(r, k2) {
        let j = choose|j: int| 0 <= j < r.len() && #[trigger] r[j].0 == k2;
        if j != pos {
            assert(r[j] == m[j]);
        }
    }
    if has_key(m, k2) && k2 != k {
        let j = key_index(m, k2);
        assert(r[j] == m[j]);
        lemma_key_index_unique(r, j);
        lemma_key_index_unique(m, j);
    }
    if k2 == k {
        assert(r[pos].0 == k2);
    }
}

/// Whether every object inside `j` has unique keys.
pub open spec fn well_formed(j: Json) -> bool
    decreases j,
{
    match j {
        Json::Array(a) => forall|i: int| 0 <= i < a.len() ==> well_formed(#[trigger] a[i]),
        Json::Object(m) => unique_keys(m) && forall|i: int|
            0 <= i < m.len() ==> well_formed(#[trigger] m[i].1),
        _ => true,
    }
}

/// Finds the position of `key` among the entries of an object.
pub fn find_key(entries: &Vec<(String, JsonValue)>, key: &str) -> (r: Option<usize>)
    ensures
        match r {
            Some(i) => key_index(entries_model(entries@), key@) == i as int,
            None => key_index(entries_model(entries@), key@) < 0,
        },
{
    let ghost m = entries_model(entries@);
    proof {
        lemma_key_index(m, key@);
    }
    let mut i: usize = 0;
    while i < entries.len()
        invariant
            0 <= i <= entries.len(),
            m == entries_model(entries@),
            forall|j: int| 0 <= j < i ==> m[j].0 != key@,
            -1 <= key_index(m, key@) < m.len(),
            key_index(m, key@) >= 0 ==> m[key_index(m, key@)].0 == key@,
            key_index(m, key@) >= 0 ==> forall|j: int| 0 <= j < key_index(m, key@) ==> m[j].0 != key@,
            key_index(m, key@) < 0 <==> !has_key(m, key@),
        decreases entries.len() - i,
    {
        if str_eq(entries[i].0.as_str(), key) {
            assert(m[i as int].0 == key@);
            assert(has_key(m, key@));
            return Some(i);
        }
        i = i + 1;
    }
    proof {
        if has_key(m, key@) {
            let j = choose|j: int| 0 <= j < m.len() && #[trigger] m[j].0 == key@;
        }
    }
    None
}

/// The texts that a floating-point zero has (`0.0` and `-0.0`).
pub open spec fn is_float_zero(t: Seq<char>) -> bool {
    t == seq!['0', '.', '0'] || t == seq!['-', '0', '.', '0']
}

/// Two numbers, by their canonical text, are equal when the texts are, or
/// when both are a floating-point zero (which compare equal whatever their
/// sign).
pub open spec fn number_same(x: Seq<char>, y: Seq<char>) -> bool {
    x == y || (is_float_zero(x) && is_float_zero(y))
}

/// Equality of JSON values as `serde_json` compares them: objects as maps
/// (same size, and every key of one holds an equal value in the other,
/// whatever the order), arrays item by item, numbers as above.
pub open spec fn json_same(a: Json, b: Json) -> bool
    decreases a,
{
    match a {
        Json::Null => b is Null,
        Json::Bool(x) => b matches Json::Bool(y) && x == y,
        Json::Number(x) => b matches Json::Number(y) && number_same(x, y),
        Json::Str(x) => b matches Json::Str(y) && x == y,
        Json::Array(x) => b matches Json::Array(y) && x.len() == y.len() && forall|i: int|
            0 <= i < x.len() ==> json_same(#[trigger] x[i], y[i]),
        Json::Object(x) => b matches Json::Object(y) && x.len() == y.len() && forall|i: int|
            0 <= i < x.len() ==> has_key(y, #[trigger] x[i].0) && json_same(
                x[i].1,
                y[key_index(y, x[i].0)].1,
            ),
    }
}

fn numbers_equal(x: &str, y: &str) -> (r: bool)
    ensures
        r == number_same(x@, y@),
{
    if str_eq(x, y) {
        return true;
    }
    let zero: &[char] = &['0', '.', '0'];
    let neg_zero: &[char] = &['-', '0', '.', '0'];
    let xs = crate::text::chars_of(x);
    let ys = crate::text::chars_of(y);
    let x_zero = crate::text::chars_eq(xs.as_slice(), zero) || crate::text::chars_eq(
        xs.as_slice(),
        neg_zero,
    );
    let y_zero = crate::text::chars_eq(ys.as_slice(), zero) || crate::text::chars_eq(
        ys.as_slice(),
        neg_zero,
    );
    x_zero && y_zero
}

/// Compares two values as `serde_json` does (see `json_same`).
pub fn json_eq(a: &JsonValue, b: &JsonValue) -> (r: bool)
    ensures
        r == json_same(a@, b@),
    decreases a,
{
    match a {
        JsonValue::Null => match b {
            JsonValue::Null => true,
            _ => false,
        },
        JsonValue::Bool(x) => match b {
            JsonValue::Bool(y) => *x == *y,
            _ => false,
        },
        JsonValue::Number(x) => match b {
            JsonValue::Number(y) => numbers_equal(x.as_str(), y.as_str()),
            _ => false,
        },
        JsonValue::Str(x) => match b {
            JsonValue::Str(y) => str_eq(x.as_str(), y.as_str()),
            _ => false,
        },
        JsonValue::Array(x) => match b {
            JsonValue::Array(y) => {
                if x.len() != y.len() {
                    return false;
                }
                let ghost xm = items_model(x@);
                let ghost ym = items_model(y@);
                let mut i: usize = 0;
                while i < x.len()
                    invariant
                        0 <= i <= x.len(),
                        x.len() == y.len(),
                        xm == items_model(x@),
                        ym == items_model(y@),
                        *a == JsonValue::Array(*x),
                        *b == JsonValue::Array(*y),
                        forall|j: int| 0 <= j < i ==> json_same(#[trigger] xm[j], ym[j]),
                    decreases x.len() - i,
                {
                    proof {
                        assert(decreases_to!(*a => (*a)->Array_0));
                        assert(decreases_to!(*x => x@));
                        assert(decreases_to!(x@ => x@[i as int]));
                    }
                    if !json_eq(&x[i], &y[i]) {
                        assert(!json_same(xm[i as int], ym[i as int]));
                        return false;
                    }
                    i = i + 1;
                }
                true
            },
            _ => false,
        },
        JsonValue::Object(x) => match b {
            JsonValue::Object(y) => {
                if x.len() != y.len() {
                    return false;
                }
                let ghost xm = entries_model(x@);
                let ghost ym = entries_model(y@);
                let mut i: usize = 0;
                while i < x.len()
                    invariant
                        0 <= i <= x.len(),
                        x.len() == y.len(),
                        xm == entries_model(x@),
                        ym == entries_model(y@),
                        *a == JsonValue::Object(*x),
                        *b == JsonValue::Object(*y),
                        forall|j: int|
                            0 <= j < i ==> has_key(ym, #[trigger] xm[j].0) && json_same(
                                xm[j].1,
                                ym[key_index(ym, xm[j].0)].1,
                            ),
                    decreases x.len() - i,
                {
                    proof {
                        lemma_key_index(ym, xm[i as int].0);
                    }
                    match find_key(y, x[i].0.as_str()) {
                        Some(k) => {
                            proof {
                                assert(decreases_to!(*a => (*a)->Object_0));
                                assert(decreases_to!(*x => x@));
                                assert(decreases_to!(x@ => x@[i as int]));
                                assert(decreases_to!(x@[i as int] => x@[i as int].1));
                            }
                            if !json_eq(&x[i].1, &y[k].1) {
                                assert(!json_same(xm[i as int].1, ym[k as int].1));
                                return false;
                            }
                        },
                        None => {
                            assert(!has_key(ym, xm[i as int].0));
                            return false;
                        },
                    }
                    i = i + 1;
                }
                true
            },
            _ => false,
        },
    }
}

/// A value whose objects have unique keys equals itself.
pub proof fn law_json_same_reflexive(j: Json)
    requires
        well_formed(j),
    ensures
        json_same(j, j),
    decreases j,
{
    match j {
        Json::Array(a) => {
            assert forall|i: int| 0 <= i < a.len() implies json_same(#[trigger] a[i], a[i]) by {
                law_json_same_reflexive(a[i]);
            }
        },
        Json::Object(m) => {
            assert forall|i: int| 0 <= i < m.len() implies has_key(m, #[trigger] m[i].0) && json_same(
                m[i].1,
                m[key_index(m, m[i].0)].1,
            ) by {
                lemma_key_index_unique(m, i);
                lemma_key_index(m, m[i].0);
                assert(decreases_to!(j => m));
                assert(decreases_to!(m => m[i]));
                assert(decreases_to!(m[i] => m[i].1));
                law_json_same_reflexive(m[i].1);
            }
        },
        _ => {},
    }
}

impl PartialEq for JsonValue {
    fn eq(&self, other: &JsonValue) -> (r: bool) {
        json_eq(self, other)
    }
}

impl vstd::std_specs::cmp::PartialEqSpecImpl for JsonValue {
    open spec fn obeys_eq_spec() -> bool {
        true
    }

    open spec fn eq_spec(&self, other: &JsonValue) -> bool {
        json_same(self@, other@)
    }
}

} // verus!
