use vstd::prelude::*;
use vstd::pervasive::VecAdditionalExecFns;
use crate::json::{
    entries_model, entry_value, find_key, has_key, items_model, key_index, lemma_key_index,
    lemma_key_index_unique, unique_keys, well_formed, Entries, Json, JsonValue,
};

verus! {

/// The value that merging `b` into `a` leaves: two objects merge key by
/// key (keys of `b` that `a` lacks are appended in `b`'s order), two arrays
/// are concatenated, and in every other case `b` replaces `a`.
pub open spec fn merged(a: Json, b: Json) -> Json
    decreases b, 0nat,
{
    match b {
        Json::Object(mb) => match a {
            Json::Object(ma) => Json::Object(merge_entries(ma, mb)),
            _ => b,
        },
        Json::Array(xb) => match a {
            Json::Array(xa) => Json::Array(xa + xb),
            _ => b,
        },
        _ => b,
    }
}

/// Merges the entries `mb`, first to last, into `acc`.
pub open spec fn merge_entries(acc: Entries, mb: Entries) -> Entries
    decreases mb, 0nat,
{
    if mb.len() == 0 {
        acc
    } else {
        merge_entries(merge_entry(acc, mb[0].0, mb[0].1), mb.drop_first())
    }
}

/// Merges one entry into `acc`.
pub open spec fn merge_entry(acc: Entries, k: Seq<char>, v: Json) -> Entries
    decreases v, 1nat,
{
    let i = key_index(acc, k);
    if 0 <= i < acc.len() {
        acc.update(i, (acc[i].0, merged(acc[i].1, v)))
    } else {
        acc.push((k, v))
    }
}

/// Folds a sequence of samples into one, first to last.
pub open spec fn merge_fold(first: Json, rest: Seq<Json>) -> Json
    decreases rest.len(),
{
    if rest.len() == 0 {
        first
    } else {
        merged(merge_fold(first, rest.drop_last()), rest.last())
    }
}

/// The single value that a list of samples merges into; `null` for none.
pub open spec fn merge_all(samples: Seq<Json>) -> Json {
    if samples.len() == 0 {
        Json::Null
    } else {
        merge_fold(samples[0], samples.drop_first())
    }
}

/// Merges `incoming` into `values` (later samples win where the shapes
/// differ; objects merge key by key; arrays concatenate).
pub fn merge(values: &mut JsonValue, incoming: JsonValue)
    ensures
        final(values)@ == merged(old(values)@, incoming@),
    decreases incoming,
{
    let ghost inc = incoming;
    let mut existing = JsonValue::Null;
    std::mem::swap(values, &mut existing);
    match incoming {
        JsonValue::Object(mb) => {
            match existing {
                JsonValue::Object(ma) => {
                    let mut ma = ma;
                    let ghost ma0 = entries_model(ma@);
                    let ghost mbv = mb@;
                    let ghost mb_vec = mb;
                    let ghost mbm = entries_model(mb@);
                    assert(mbm.skip(0) =~= mbm);
                    for e in it: mb.into_iter()
                        invariant
                            it.seq() == mbv,
                            mbm == entries_model(mbv),
                            inc == JsonValue::Object(mb_vec),
                            inc == incoming,
                            mb_vec@ == mbv,
                            merge_entries(ma0, mbm) == merge_entries(
                                entries_model(ma@),
                                mbm.skip(it.index() as int),
                            ),
                    {
                        let ghost idx = it.index() as int;
                        let ghost cur = entries_model(ma@);
                        assert(e == mbv[idx]);
                        let (k, v) = e;
                        proof {
                            assert(decreases_to!(inc => inc->Object_0));
                            assert(decreases_to!(mb_vec => mb_vec@));
                            assert(decreases_to!(mb_vec@ => mb_vec@[idx]));
                            assert(decreases_to!(mb_vec@[idx] => mb_vec@[idx].1));
                            assert(decreases_to!(inc => v));
                        }
                        assert(mbm.skip(idx).drop_first() =~= mbm.skip(idx + 1));
                        assert(mbm.skip(idx)[0] == (k@, v@));
                        proof {
                            lemma_key_index(cur, k@);
                        }
                        match find_key(&ma, k.as_str()) {
                            Some(i) => {
                                let mut entry: (String, JsonValue) = (String::new(), JsonValue::Null);
                                ma.set_and_swap(i, &mut entry);
                                let (ek, mut ev) = entry;
                                merge(&mut ev, v);
                                ma.set(i, (ek, ev));
                                assert(entries_model(ma@) =~= merge_entry(cur, k@, v@));
                            },
                            None => {
                                ma.push((k, v));
                                assert(entries_model(ma@) =~= merge_entry(cur, k@, v@));
                            },
                        }
                    }
                    assert(mbm.skip(mbm.len() as int) =~= Seq::<(Seq<char>, Json)>::empty());
                    *values = JsonValue::Object(ma);
                },
                _ => {
                    *values = JsonValue::Object(mb);
                },
            }
        },
        JsonValue::Array(xb) => {
            match existing {
                JsonValue::Array(xa) => {
                    let mut xa = xa;
                    let mut xb = xb;
                    let ghost xa0 = xa@;
                    let ghost xb0 = xb@;
                    xa.append(&mut xb);
                    assert(items_model(xa@) =~= items_model(xa0) + items_model(xb0));
                    *values = JsonValue::Array(xa);
                },
                _ => {
                    *values = JsonValue::Array(xb);
                },
            }
        },
        other => {
            *values = other;
        },
    }
}

/// Merges all samples, first to last, into one value; no samples give
/// `null`.
pub fn merge_samples(samples: Vec<JsonValue>) -> (r: JsonValue)
    ensures
        r@ == merge_all(items_model(samples@)),
{
    let ghost all = items_model(samples@);
    let mut samples = samples;
    if samples.len() == 0 {
        return JsonValue::Null;
    }
    let mut result = samples.remove(0);
    let ghost rest = items_model(samples@);
    assert(rest =~= all.drop_first());
    assert(rest.take(0) =~= Seq::<Json>::empty());
    for sample in it: samples.into_iter()
        invariant
            it.seq().len() == rest.len(),
            forall|j: int| 0 <= j < rest.len() ==> #[trigger] rest[j] == it.seq()[j]@,
            result@ == merge_fold(all[0], rest.take(it.index() as int)),
    {
        let ghost i = it.index() as int;
        assert(rest.take(i + 1).drop_last() =~= rest.take(i));
        assert(rest[i] == sample@);
        merge(&mut result, sample);
    }
    assert(rest.take(rest.len() as int) =~= rest);
    result
}

/// With unique keys, the value under a key is the one at the key's place.
proof fn lemma_entry_value_at(m: Entries, j: int)
    requires
        unique_keys(m),
        0 <= j < m.len(),
    ensures
        entry_value(m, m[j].0) == Some(m[j].1),
{
    lemma_key_index_unique(m, j);
}

/// Merging one entry: the keys are those before plus `k`; `k`'s value is
/// merged (or added); every other key keeps its value; the entries before
/// keep their places and keys stay unique.
proof fn lemma_merge_entry(acc: Entries, k: Seq<char>, v: Json)
    requires
        unique_keys(acc),
    ensures
        unique_keys(merge_entry(acc, k, v)),
        merge_entry(acc, k, v).len() >= acc.len(),
        forall|j: int| 0 <= j < acc.len() ==> #[trigger] merge_entry(acc, k, v)[j].0 == acc[j].0,
        forall|k2: Seq<char>| #[trigger]
            has_key(merge_entry(acc, k, v), k2) <==> (has_key(acc, k2) || k2 == k),
        forall|k2: Seq<char>|
            k2 != k ==> #[trigger] entry_value(merge_entry(acc, k, v), k2) == entry_value(acc, k2),
        entry_value(merge_entry(acc, k, v), k) == Some(
            match entry_value(acc, k) {
                Some(old) => merged(old, v),
                None => v,
            },
        ),
{
    let r = merge_entry(acc, k, v);
    let i = key_index(acc, k);
    lemma_key_index(acc, k);
    assert(unique_keys(r)) by {
        assert forall|a: int, b: int| 0 <= a < b < r.len() implies #[trigger] r[a].0
            != #[trigger] r[b].0 by {
            if b == acc.len() {
                assert(!has_key(acc, k));
                assert(acc[a].0 != k);
            }
        }
    }
    assert forall|k2: Seq<char>| #[trigger] has_key(r, k2) <==> (has_key(acc, k2) || k2 == k) by {
        if has_key(r, k2) {
            let j = choose|j: int| 0 <= j < r.len() && #[trigger] r[j].0 == k2;
            if j < acc.len() {
                assert(acc[j].0 == k2);
            }
        }
        if has_key(acc, k2) {
            let j = choose|j: int| 0 <= j < acc.len() && #[trigger] acc[j].0 == k2;
            assert(r[j].0 == k2);
        }
        if k2 == k {
            if i >= 0 {
                assert(r[i].0 == k);
            } else {
                assert(r[acc.len() as int].0 == k);
            }
        }
    }
    assert forall|k2: Seq<char>| k2 != k implies #[trigger] entry_value(r, k2) == entry_value(
        acc,
        k2,
    ) by {
        lemma_key_index(acc, k2);
        lemma_key_index(r, k2);
        if has_key(acc, k2) {
            let j = key_index(acc, k2);
            lemma_entry_value_at(acc, j);
            assert(r[j].0 == k2);
            lemma_entry_value_at(r, j);
        } else {
            assert(!has_key(r, k2));
        }
    }
    if i >= 0 {
        lemma_entry_value_at(acc, i);
        lemma_entry_value_at(r, i);
    } else {
        lemma_entry_value_at(r, acc.len() as int);
    }
}

/// Merging the entries of one object into another: the keys are the union,
/// a key in both gets the two values merged, a key in one keeps its value;
/// the entries before keep their places and keys stay unique.
pub proof fn lemma_merge_entries(acc: Entries, mb: Entries)
    requires
        unique_keys(acc),
        unique_keys(mb),
    ensures
        unique_keys(merge_entries(acc, mb)),
        merge_entries(acc, mb).len() >= acc.len(),
        forall|j: int| 0 <= j < acc.len() ==> #[trigger] merge_entries(acc, mb)[j].0 == acc[j].0,
        forall|k: Seq<char>| #[trigger]
            has_key(merge_entries(acc, mb), k) <==> (has_key(acc, k) || has_key(mb, k)),
        forall|k: Seq<char>| #[trigger]
            entry_value(merge_entries(acc, mb), k) == match (entry_value(acc, k), entry_value(
                mb,
                k,
            )) {
                (Some(va), Some(vb)) => Some(merged(va, vb)),
                (Some(va), None) => Some(va),
                (None, Some(vb)) => Some(vb),
                (None, None) => None::<Json>,
            },
    decreases mb.len(),
{
    if mb.len() == 0 {
        assert forall|k: Seq<char>| #[trigger] entry_value(mb, k) == None::<Json> by {
            lemma_key_index(mb, k);
        }
    } else {
        let k0 = mb[0].0;
        let v0 = mb[0].1;
        let rest = mb.drop_first();
        let r0 = merge_entry(acc, k0, v0);
        lemma_merge_entry(acc, k0, v0);
        assert(unique_keys(rest)) by {
            assert forall|a: int, b: int| 0 <= a < b < rest.len() implies #[trigger] rest[a].0
                != #[trigger] rest[b].0 by {
                assert(mb[a + 1].0 != mb[b + 1].0);
            }
        }
        lemma_merge_entries(r0, rest);
        let res = merge_entries(acc, mb);
        assert(res == merge_entries(r0, rest));
        assert(!has_key(rest, k0)) by {
            if has_key(rest, k0) {
                let j = choose|j: int| 0 <= j < rest.len() && #[trigger] rest[j].0 == k0;
                assert(mb[j + 1].0 == k0);
            }
        }
        assert forall|k: Seq<char>| #[trigger] has_key(res, k) <==> (has_key(acc, k) || has_key(
            mb,
            k,
        )) by {
            if has_key(mb, k) && k != k0 {
                let j = choose|j: int| 0 <= j < mb.len() && #[trigger] mb[j].0 == k;
                assert(rest[j - 1].0 == k);
            }
            if has_key(rest, k) {
                let j = choose|j: int| 0 <= j < rest.len() && #[trigger] rest[j].0 == k;
                assert(mb[j + 1].0 == k);
            }
            if k == k0 {
                assert(mb[0].0 == k);
            }
        }
        assert forall|k: Seq<char>| #[trigger] entry_value(res, k) == match (
            entry_value(acc, k),
            entry_value(mb, k),
        ) {
            (Some(va), Some(vb)) => Some(merged(va, vb)),
            (Some(va), None) => Some(va),
            (None, Some(vb)) => Some(vb),
            (None, None) => None::<Json>,
        } by {
            lemma_key_index(rest, k);
            lemma_key_index(mb, k);
            lemma_key_index(acc, k);
            if k == k0 {
                lemma_entry_value_at(mb, 0);
            } else {
                if has_key(rest, k) {
                    let j = key_index(rest, k);
                    lemma_entry_value_at(rest, j);
                    assert(mb[j + 1].0 == k);
                    lemma_entry_value_at(mb, j + 1);
                } else {
                    assert(!has_key(mb, k)) by {
                        if has_key(mb, k) {
                            let j = choose|j: int| 0 <= j < mb.len() && #[trigger] mb[j].0 == k;
                            assert(rest[j - 1].0 == k);
                        }
                    }
                }
            }
        }
    }
}

/// Merging two objects with unique keys gives an object with unique keys
/// whose keys are those of both: a key in both holds the two values merged,
/// a key in one holds its value, and the first object's entries keep their
/// places.
pub proof fn law_merge_objects(ma: Entries, mb: Entries)
    requires
        unique_keys(ma),
        unique_keys(mb),
    ensures
        merged(Json::Object(ma), Json::Object(mb)) matches Json::Object(r) && {
            &&& unique_keys(r)
            &&& r.len() >= ma.len()
            &&& forall|j: int| 0 <= j < ma.len() ==> #[trigger] r[j].0 == ma[j].0
            &&& forall|k: Seq<char>| #[trigger] has_key(r, k) <==> (has_key(ma, k) || has_key(mb, k))
            &&& forall|k: Seq<char>| #[trigger]
                entry_value(r, k) == match (entry_value(ma, k), entry_value(mb, k)) {
                    (Some(va), Some(vb)) => Some(merged(va, vb)),
                    (Some(va), None) => Some(va),
                    (None, Some(vb)) => Some(vb),
                    (None, None) => None::<Json>,
                }
        },
{
    lemma_merge_entries(ma, mb);
}

/// Where the two values are not both objects nor both arrays, the later one
/// replaces the earlier.
pub proof fn law_merge_overwrites(a: Json, b: Json)
    requires
        !(a is Object && b is Object),
        !(a is Array && b is Array),
    ensures
        merged(a, b) == b,
{
}

/// Two arrays merge into their concatenation.
pub proof fn law_merge_arrays(xa: Seq<Json>, xb: Seq<Json>)
    ensures
        merged(Json::Array(xa), Json::Array(xb)) == Json::Array(xa + xb),
{
}

/// Merging the rest of an object with distinct keys into its first entries
/// gives the object back.
proof fn lemma_merge_rest(m: Entries, k: int)
    requires
        unique_keys(m),
        0 <= k <= m.len(),
    ensures
        merge_entries(m.take(k), m.skip(k)) == m,
    decreases m.len() - k,
{
    if k == m.len() {
        assert(m.take(k) =~= m);
        assert(m.skip(k).len() == 0);
    } else {
        let acc = m.take(k);
        let rest = m.skip(k);
        assert(rest[0] == m[k]);
        lemma_key_index(acc, m[k].0);
        assert(!has_key(acc, m[k].0)) by {
            if has_key(acc, m[k].0) {
                let j = choose|j: int| 0 <= j < acc.len() && #[trigger] acc[j].0 == m[k].0;
                assert(m[j].0 == m[k].0);
            }
        }
        assert(merge_entry(acc, m[k].0, m[k].1) =~= m.take(k + 1));
        assert(rest.drop_first() =~= m.skip(k + 1));
        lemma_merge_rest(m, k + 1);
    }
}

/// Merging with an empty object or an empty array changes nothing: an
/// empty object merged into an object leaves it as it was, an object whose
/// keys are distinct merged into an empty object comes out as it is, and
/// an array merged with an empty array, either way round, stays as it is.
pub proof fn law_merge_empty(m: Entries, xs: Seq<Json>)
    ensures
        merged(Json::Object(m), Json::Object(Seq::empty())) == Json::Object(m),
        unique_keys(m) ==> merged(Json::Object(Seq::empty()), Json::Object(m)) == Json::Object(m),
        merged(Json::Array(xs), Json::Array(Seq::empty())) == Json::Array(xs),
        merged(Json::Array(Seq::empty()), Json::Array(xs)) == Json::Array(xs),
{
    assert(xs + Seq::<Json>::empty() =~= xs);
    assert(Seq::<Json>::empty() + xs =~= xs);
    if unique_keys(m) {
        lemma_merge_rest(m, 0);
        assert(m.take(0) =~= Seq::<(Seq<char>, Json)>::empty());
        assert(m.skip(0) =~= m);
    }
}

/// Merging keeps every object's keys unique.
pub proof fn law_merge_well_formed(a: Json, b: Json)
    requires
        well_formed(a),
        well_formed(b),
    ensures
        well_formed(merged(a, b)),
    decreases b,
{
    match (a, b) {
        (Json::Object(ma), Json::Object(mb)) => {
            lemma_merge_entries(ma, mb);
            let r = merge_entries(ma, mb);
            assert forall|j: int| 0 <= j < r.len() implies well_formed(#[trigger] r[j].1) by {
                let k = r[j].0;
                lemma_entry_value_at(r, j);
                lemma_key_index(ma, k);
                lemma_key_index(mb, k);
                if has_key(ma, k) && has_key(mb, k) {
                    let ia = key_index(ma, k);
                    let ib = key_index(mb, k);
                    assert(decreases_to!(b => mb));
                    assert(decreases_to!(mb => mb[ib]));
                    assert(decreases_to!(mb[ib] => mb[ib].1));
                    law_merge_well_formed(ma[ia].1, mb[ib].1);
                } else if has_key(ma, k) {
                    assert(well_formed(ma[key_index(ma, k)].1));
                } else {
                    assert(has_key(r, k));
                    assert(well_formed(mb[key_index(mb, k)].1));
                }
            }
        },
        (Json::Array(xa), Json::Array(xb)) => {
            let r = xa + xb;
            assert forall|j: int| 0 <= j < r.len() implies well_formed(#[trigger] r[j]) by {
                if j < xa.len() {
                    assert(r[j] == xa[j]);
                } else {
                    assert(r[j] == xb[j - xa.len()]);
                }
            }
        },
        _ => {},
    }
}

/// No samples merge into `null`.
pub proof fn law_merge_all_empty()
    ensures
        merge_all(Seq::empty()) == Json::Null,
{
}

/// A single sample merges into itself.
pub proof fn law_merge_all_single(x: Json)
    ensures
        merge_all(seq![x]) == x,
{
    assert(seq![x].drop_first() =~= Seq::<Json>::empty());
}

/// One more sample is merged into what the samples before merged into.
pub proof fn law_merge_all_step(samples: Seq<Json>, x: Json)
    requires
        samples.len() > 0,
    ensures
        merge_all(samples.push(x)) == merged(merge_all(samples), x),
{
    assert(samples.push(x).drop_first().drop_last() =~= samples.drop_first());
    assert(samples.push(x)[0] == samples[0]);
}

/// Merging samples whose objects have unique keys keeps them unique.
pub proof fn law_merge_all_well_formed(samples: Seq<Json>)
    requires
        forall|i: int| 0 <= i < samples.len() ==> well_formed(#[trigger] samples[i]),
    ensures
        well_formed(merge_all(samples)),
    decreases samples.len(),
{
    if samples.len() > 1 {
        let init = samples.drop_last();
        law_merge_all_well_formed(init);
        law_merge_all_step(init, samples.last());
        assert(init.push(samples.last()) =~= samples);
        law_merge_well_formed(merge_all(init), samples.last());
    } else if samples.len() == 1 {
        assert(samples =~= seq![samples[0]]);
        law_merge_all_single(samples[0]);
    }
}

/// Object samples (with unique keys) merge into an object that holds every
/// key any of them holds, and no other.
pub proof fn law_merge_all_keys(samples: Seq<Json>)
    requires
        samples.len() > 0,
        forall|i: int| 0 <= i < samples.len() ==> #[trigger] samples[i] is Object,
        forall|i: int| 0 <= i < samples.len() ==> well_formed(#[trigger] samples[i]),
    ensures
        merge_all(samples) matches Json::Object(r) && forall|k: Seq<char>| #[trigger]
            has_key(r, k) <==> exists|i: int|
                0 <= i < samples.len() && has_key(#[trigger] samples[i]->Object_0, k),
    decreases samples.len(),
{
    if samples.len() == 1 {
        assert(samples =~= seq![samples[0]]);
        law_merge_all_single(samples[0]);
        assert forall|k: Seq<char>| #[trigger] has_key(samples[0]->Object_0, k) <==> exists|i: int|
            0 <= i < samples.len() && has_key(#[trigger] samples[i]->Object_0, k) by {
            if exists|i: int| 0 <= i < samples.len() && has_key(#[trigger] samples[i]->Object_0, k) {
                let i = choose|i: int| 0 <= i < samples.len() && has_key(#[trigger] samples[i]->Object_0, k);
                assert(i == 0);
            }
        }
    } else {
        let init = samples.drop_last();
        let x = samples.last();
        law_merge_all_keys(init);
        law_merge_all_well_formed(init);
        law_merge_all_step(init, x);
        assert(init.push(x) =~= samples);
        assert(x is Object);
        assert(well_formed(x));
        let ma = merge_all(init)->Object_0;
        let mb = x->Object_0;
        lemma_merge_entries(ma, mb);
        let r = merge_all(samples)->Object_0;
        assert forall|k: Seq<char>| #[trigger] has_key(r, k) <==> exists|i: int|
            0 <= i < samples.len() && has_key(#[trigger] samples[i]->Object_0, k) by {
            if has_key(r, k) {
                if has_key(ma, k) {
                    let i = choose|i: int| 0 <= i < init.len() && has_key(#[trigger] init[i]->Object_0, k);
                    assert(samples[i] == init[i]);
                } else {
                    assert(has_key(samples[samples.len() - 1]->Object_0, k));
                }
            }
            if exists|i: int| 0 <= i < samples.len() && has_key(#[trigger] samples[i]->Object_0, k) {
                let i = choose|i: int| 0 <= i < samples.len() && has_key(#[trigger] samples[i]->Object_0, k);
                if i < samples.len() - 1 {
                    assert(init[i] == samples[i]);
                    assert(has_key(ma, k));
                }
            }
        }
    }
}

/// Whether `big` holds everything `small` holds: the same scalar, an array
/// ending in items that cover its items, or an object holding each of its
/// keys with a value covering that key's value.
pub open spec fn covers(big: Json, small: Json) -> bool
    decreases small,
{
    match small {
        Json::Object(ms) => big matches Json::Object(mb) && forall|i: int|
            0 <= i < ms.len() ==> has_key(mb, #[trigger] ms[i].0) && covers(
                mb[key_index(mb, ms[i].0)].1,
                ms[i].1,
            ),
        Json::Array(xs) => big matches Json::Array(xb) && xb.len() >= xs.len() && forall|i: int|
            0 <= i < xs.len() ==> covers(xb[xb.len() - xs.len() + i], #[trigger] xs[i]),
        _ => big == small,
    }
}

/// A value with unique keys covers itself.
pub proof fn lemma_covers_self(j: Json)
    requires
        well_formed(j),
    ensures
        covers(j, j),
    decreases j,
{
    match j {
        Json::Object(m) => {
            assert forall|i: int| 0 <= i < m.len() implies has_key(m, #[trigger] m[i].0) && covers(
                m[key_index(m, m[i].0)].1,
                m[i].1,
            ) by {
                lemma_key_index_unique(m, i);
                lemma_key_index(m, m[i].0);
                assert(has_key(m, m[i].0));
                assert(decreases_to!(j => m));
                assert(decreases_to!(m => m[i]));
                assert(decreases_to!(m[i] => m[i].1));
                lemma_covers_self(m[i].1);
            }
            assert(covers(j, j));
        },
        Json::Array(a) => {
            assert forall|i: int| 0 <= i < a.len() implies covers(a[a.len() - a.len() + i], #[trigger] a[i]) by {
                assert(decreases_to!(j => a));
                assert(decreases_to!(a => a[i]));
                lemma_covers_self(a[i]);
                assert(covers(a[i], a[i]));
            }
            assert(covers(j, j));
        },
        _ => {},
    }
}

/// Merging a sample into a value keeps all of the sample: the result covers
/// it (whatever the earlier value was).
pub proof fn law_merge_covers_later(a: Json, b: Json)
    requires
        well_formed(a),
        well_formed(b),
    ensures
        covers(merged(a, b), b),
    decreases b,
{
    match (a, b) {
        (Json::Object(ma), Json::Object(mb)) => {
            lemma_merge_entries(ma, mb);
            let r = merge_entries(ma, mb);
            assert forall|i: int| 0 <= i < mb.len() implies has_key(r, #[trigger] mb[i].0) && covers(
                r[key_index(r, mb[i].0)].1,
                mb[i].1,
            ) by {
                let k = mb[i].0;
                assert(has_key(mb, k));
                assert(has_key(r, k));
                lemma_key_index(r, k);
                let ev = entry_value(r, k);
                assert(ev == Some(r[key_index(r, k)].1));
                lemma_key_index_unique(mb, i);
                lemma_entry_value_at(mb, i);
                lemma_key_index(ma, k);
                if has_key(ma, k) {
                    let ia = key_index(ma, k);
                    lemma_entry_value_at(ma, ia);
                    assert(decreases_to!(b => mb));
                    assert(decreases_to!(mb => mb[i]));
                    assert(decreases_to!(mb[i] => mb[i].1));
                    law_merge_covers_later(ma[ia].1, mb[i].1);
                    assert(ev == Some(merged(ma[ia].1, mb[i].1)));
                } else {
                    lemma_covers_self(mb[i].1);
                    assert(ev == Some(mb[i].1));
                }
            }
            assert(covers(merged(a, b), b));
        },
        (Json::Array(xa), Json::Array(xb)) => {
            let r = xa + xb;
            assert forall|i: int| 0 <= i < xb.len() implies covers(r[r.len() - xb.len() + i], #[trigger] xb[i]) by {
                lemma_covers_self(xb[i]);
                assert(r[xa.len() + i] == xb[i]);
                assert(covers(r[xa.len() + i], xb[i]));
            }
            assert(covers(merged(a, b), b));
        },
        _ => {
            lemma_covers_self(b);
        },
    }
}

/// The value that samples merge into holds all of the last sample.
pub proof fn law_merge_all_covers_last(samples: Seq<Json>)
    requires
        samples.len() > 0,
        forall|i: int| 0 <= i < samples.len() ==> well_formed(#[trigger] samples[i]),
    ensures
        covers(merge_all(samples), samples.last()),
{
    if samples.len() == 1 {
        assert(samples =~= seq![samples[0]]);
        law_merge_all_single(samples[0]);
        lemma_covers_self(samples[0]);
    } else {
        let init = samples.drop_last();
        law_merge_all_well_formed(init);
        law_merge_all_step(init, samples.last());
        assert(init.push(samples.last()) =~= samples);
        law_merge_covers_later(merge_all(init), samples.last());
    }
}

} // verus!
