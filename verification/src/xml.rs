use vstd::prelude::*;
use vstd::pervasive::VecAdditionalExecFns;
use crate::json::{
    entries_model, entry_value, find_key, has_key, items_model, key_index, keys_of,
    lemma_insert_entries, lemma_insert_value, lemma_key_index, lemma_key_index_unique,
    lemma_swap_remove_entries, lemma_swap_remove_value, map_insert, map_swap_remove, unique_keys,
    well_formed, Entries, Json, JsonValue,
};
use crate::text::{chars_eq, chars_of, string_from_chars};

verus! {

pub open spec fn text_key() -> Seq<char> {
    seq!['t', 'e', 'x', 't']
}

pub open spec fn dollar_text_key() -> Seq<char> {
    seq!['$', 't', 'e', 'x', 't']
}

/// The key an XML-derived key becomes: one leading `@` (an attribute) is
/// dropped, and `$text` (element text) becomes `text`.
pub open spec fn renamed_key(k: Seq<char>) -> Seq<char> {
    let k1 = if k.len() > 0 && k[0] == '@' {
        k.drop_first()
    } else {
        k
    };
    if k1 == dollar_text_key() {
        text_key()
    } else {
        k1
    }
}

/// Whether `h` levels of nesting are enough to reach every value in `j`.
pub open spec fn fits(j: Json, h: nat) -> bool
    decreases j,
{
    match j {
        Json::Array(a) => h >= 1 && forall|i: int| 0 <= i < a.len() ==> fits(#[trigger] a[i], (h - 1) as nat),
        Json::Object(m) => h >= 1 && forall|i: int|
            0 <= i < m.len() ==> fits(#[trigger] m[i].1, (h - 1) as nat),
        _ => true,
    }
}

pub open spec fn max_of(s: Seq<nat>) -> nat
    decreases s.len(),
{
    if s.len() == 0 {
        0
    } else {
        let m = max_of(s.drop_last());
        if s.last() > m {
            s.last()
        } else {
            m
        }
    }
}

/// The nesting depth of a value.
pub open spec fn height(j: Json) -> nat
    decreases j,
{
    match j {
        Json::Array(a) => 1 + max_of(item_heights(a)),
        Json::Object(m) => 1 + max_of(entry_heights(m)),
        _ => 0,
    }
}

pub open spec fn item_heights(a: Seq<Json>) -> Seq<nat>
    decreases a,
{
    Seq::new(a.len(), |i: int| if 0 <= i < a.len() { height(a[i]) } else { 0 })
}

pub open spec fn entry_heights(m: Entries) -> Seq<nat>
    decreases m,
{
    Seq::new(m.len(), |i: int| if 0 <= i < m.len() { height(m[i].1) } else { 0 })
}

/// Cleaning with `h` levels of nesting to spend.
pub open spec fn clean_h(j: Json, h: nat) -> Json
    decreases h, 0nat,
{
    match j {
        Json::Array(a) => if h == 0 {
            j
        } else {
            Json::Array(
                Seq::new(
                    a.len(),
                    |i: int| if 0 <= i < a.len() { clean_h(a[i], (h - 1) as nat) } else { Json::Null },
                ),
            )
        },
        Json::Object(m) => if h == 0 {
            j
        } else {
            Json::Object(clean_steps(m, keys_of(m), (h - 1) as nat))
        },
        _ => j,
    }
}

/// Processes the keys `ks`, first to last, as the cleaning loop does: the
/// entry under the key (if it is still there) is swap-removed, its value
/// cleaned, and the result inserted under the renamed key.
pub open spec fn clean_steps(m: Entries, ks: Seq<Seq<char>>, g: nat) -> Entries
    decreases g, ks.len() + 1,
{
    if ks.len() == 0 {
        m
    } else {
        clean_steps(clean_step(m, ks[0], g), ks.drop_first(), g)
    }
}

pub open spec fn clean_step(m: Entries, k: Seq<char>, g: nat) -> Entries
    decreases g, 1nat,
{
    let i = key_index(m, k);
    if 0 <= i < m.len() {
        map_insert(map_swap_remove(m, k), renamed_key(k), clean_h(m[i].1, g))
    } else {
        m
    }
}

/// A value converted from XML, cleaned: attribute keys lose their `@` and
/// element text is keyed `text`, at every level.
pub open spec fn xml_cleaned(j: Json) -> Json {
    clean_h(j, height(j))
}

proof fn lemma_max_of(s: Seq<nat>, i: int)
    requires
        0 <= i < s.len(),
    ensures
        s[i] <= max_of(s),
    decreases s.len(),
{
    if i < s.len() - 1 {
        lemma_max_of(s.drop_last(), i);
        assert(s.drop_last()[i] == s[i]);
    }
}

proof fn lemma_fits_mono(j: Json, h: nat, h2: nat)
    requires
        fits(j, h),
        h <= h2,
    ensures
        fits(j, h2),
    decreases j,
{
    match j {
        Json::Array(a) => {
            assert forall|i: int| 0 <= i < a.len() implies fits(#[trigger] a[i], (h2 - 1) as nat) by {
                lemma_fits_mono(a[i], (h - 1) as nat, (h2 - 1) as nat);
            }
        },
        Json::Object(m) => {
            assert forall|i: int| 0 <= i < m.len() implies fits(#[trigger] m[i].1, (h2 - 1) as nat) by {
                lemma_fits_mono(m[i].1, (h - 1) as nat, (h2 - 1) as nat);
            }
        },
        _ => {},
    }
}

proof fn lemma_fits_height(j: Json)
    ensures
        fits(j, height(j)),
    decreases j,
{
    match j {
        Json::Array(a) => {
            let hs = item_heights(a);
            assert forall|i: int| 0 <= i < a.len() implies fits(#[trigger] a[i], (height(j) - 1) as nat) by {
                lemma_fits_height(a[i]);
                lemma_max_of(hs, i);
                assert(hs[i] == height(a[i]));
                lemma_fits_mono(a[i], height(a[i]), (height(j) - 1) as nat);
            }
        },
        Json::Object(m) => {
            let hs = entry_heights(m);
            assert forall|i: int| 0 <= i < m.len() implies fits(#[trigger] m[i].1, (height(j) - 1) as nat) by {
                lemma_fits_height(m[i].1);
                lemma_max_of(hs, i);
                assert(hs[i] == height(m[i].1));
                lemma_fits_mono(m[i].1, height(m[i].1), (height(j) - 1) as nat);
            }
        },
        _ => {},
    }
}

/// The key `k` renamed.
fn rename_key(k: &str) -> (r: String)
    ensures
        r@ == renamed_key(k@),
{
    let cs = chars_of(k);
    let start: usize = if cs.len() > 0 && cs[0] == '@' { 1 } else { 0 };
    let mut rest: Vec<char> = Vec::new();
    let mut i: usize = start;
    while i < cs.len()
        invariant
            start <= i <= cs.len(),
            rest@ == cs@.subrange(start as int, i as int),
        decreases cs.len() - i,
    {
        rest.push(cs[i]);
        i = i + 1;
        assert(rest@ =~= cs@.subrange(start as int, i as int));
    }
    let ghost k1 = if k@.len() > 0 && k@[0] == '@' { k@.drop_first() } else { k@ };
    assert(rest@ =~= k1);
    let dollar: &[char] = &['$', 't', 'e', 'x', 't'];
    if chars_eq(rest.as_slice(), dollar) {
        let t: &[char] = &['t', 'e', 'x', 't'];
        string_from_chars(t)
    } else {
        string_from_chars(rest.as_slice())
    }
}

/// Cleans `v` with `h` levels to spend.
fn clean_rec(v: JsonValue, Ghost(h): Ghost<nat>) -> (r: JsonValue)
    requires
        fits(v@, h),
    ensures
        r@ == clean_h(v@, h),
        fits(r@, h),
    decreases h,
{
    let ghost v0 = v@;
    match v {
        JsonValue::Object(m) => {
            let mut m = m;
            let ghost g: nat = (h - 1) as nat;
            let ghost m0 = entries_model(m@);
            // Snapshot the keys first, as the entries move while we work.
            let mut keys: Vec<String> = Vec::new();
            let mut i: usize = 0;
            while i < m.len()
                invariant
                    0 <= i <= m.len(),
                    m0 == entries_model(m@),
                    keys@.len() == i,
                    forall|j: int| 0 <= j < i ==> #[trigger] keys@[j]@ == m0[j].0,
                decreases m.len() - i,
            {
                keys.push(m[i].0.clone());
                i = i + 1;
            }
            let ghost ks = keys_of(m0);
            assert(ks.skip(0) =~= ks);
            assert(v0 == Json::Object(m0));
            assert forall|j: int| 0 <= j < m@.len() implies fits(#[trigger] m@[j].1@, g) by {
                assert(m0[j].1 == m@[j].1@);
            }
            let mut idx: usize = 0;
            while idx < keys.len()
                invariant
                    0 <= idx <= keys.len(),
                    keys@.len() == ks.len(),
                    forall|j: int| 0 <= j < keys@.len() ==> #[trigger] keys@[j]@ == ks[j],
                    h >= 1,
                    g == h - 1,
                    clean_steps(m0, ks, g) == clean_steps(entries_model(m@), ks.skip(idx as int), g),
                    forall|j: int| 0 <= j < m@.len() ==> fits(#[trigger] m@[j].1@, g),
                decreases keys.len() - idx,
            {
                let ghost cur = entries_model(m@);
                let ghost k = ks[idx as int];
                assert(ks.skip(idx as int).drop_first() =~= ks.skip(idx + 1));
                assert(ks.skip(idx as int)[0] == k);
                assert(keys@[idx as int]@ == k);
                proof {
                    crate::json::lemma_key_index(cur, k);
                }
                match find_key(&m, keys[idx].as_str()) {
                    Some(i) => {
                        let (_, val) = m.swap_remove(i);
                        assert(entries_model(m@) =~= map_swap_remove(cur, k));
                        let cleaned = clean_rec(val, Ghost(g));
                        let nk = rename_key(keys[idx].as_str());
                        proof {
                            crate::json::lemma_key_index(entries_model(m@), nk@);
                        }
                        match find_key(&m, nk.as_str()) {
                            Some(j) => {
                                m.set(j, (nk, cleaned));
                            },
                            None => {
                                m.push((nk, cleaned));
                            },
                        }
                        assert(entries_model(m@) =~= clean_step(cur, k, g));
                    },
                    None => {
                        assert(clean_step(cur, k, g) == cur);
                    },
                }
                idx = idx + 1;
            }
            assert(ks.skip(ks.len() as int) =~= Seq::<Seq<char>>::empty());
            let r = JsonValue::Object(m);
            assert(r@ == clean_h(v0, h));
            assert forall|j: int| 0 <= j < m@.len() implies fits(#[trigger] entries_model(m@)[j].1, g) by {
                assert(entries_model(m@)[j].1 == m@[j].1@);
            }
            r
        },
        JsonValue::Array(a) => {
            let ghost items = items_model(a@);
            let ghost av = a@;
            let mut out: Vec<JsonValue> = Vec::new();
            for x in it: a.into_iter()
                invariant
                    it.seq() == av,
                    items == items_model(av),
                    h >= 1,
                    forall|j: int| 0 <= j < items.len() ==> fits(#[trigger] items[j], (h - 1) as nat),
                    out@.len() == it.index(),
                    forall|j: int| 0 <= j < it.index() ==> #[trigger] out@[j]@ == clean_h(items[j], (h - 1) as nat),
                    forall|j: int| 0 <= j < it.index() ==> fits(#[trigger] out@[j]@, (h - 1) as nat),
            {
                let ghost j = it.index() as int;
                assert(items[j] == x@);
                let c = clean_rec(x, Ghost((h - 1) as nat));
                out.push(c);
            }
            let r = JsonValue::Array(out);
            assert(v0 == Json::Array(items));
            assert forall|i: int| 0 <= i < items.len() implies #[trigger] items_model(out@)[i]
                == clean_h(items[i], (h - 1) as nat) by {
                assert(out@[i]@ == clean_h(items[i], (h - 1) as nat));
            }
            assert forall|i: int| 0 <= i < out@.len() implies fits(#[trigger] items_model(out@)[i], (h - 1) as nat) by {
                assert(items_model(out@)[i] == out@[i]@);
            }
            assert(clean_h(v0, h) matches Json::Array(c) && c =~= items_model(out@));
            assert(r@ == clean_h(v0, h));
            assert(items_model(out@) =~= Seq::new(
                items.len(),
                |i: int| if 0 <= i < items.len() { clean_h(items[i], (h - 1) as nat) } else { Json::Null },
            ));
            r
        },
        other => other,
    }
}

/// Renames the keys of an XML-derived value at every level (see
/// `renamed_key`), in the order the keys stood.
pub fn clean_xml_value(v: JsonValue) -> (r: JsonValue)
    ensures
        r@ == xml_cleaned(v@),
{
    proof {
        lemma_fits_height(v@);
    }
    clean_rec(v, Ghost(height(v@)))
}

proof fn lemma_clean_h_well_formed(j: Json, h: nat)
    requires
        well_formed(j),
    ensures
        well_formed(clean_h(j, h)),
    decreases h, 0nat,
{
    if h > 0 {
        match j {
            Json::Array(a) => {
                let c = clean_h(j, h)->Array_0;
                assert forall|i: int| 0 <= i < c.len() implies well_formed(#[trigger] c[i]) by {
                    lemma_clean_h_well_formed(a[i], (h - 1) as nat);
                }
            },
            Json::Object(m) => {
                lemma_clean_steps_well_formed(m, keys_of(m), (h - 1) as nat);
            },
            _ => {},
        }
    }
}

proof fn lemma_clean_steps_well_formed(m: Entries, ks: Seq<Seq<char>>, g: nat)
    requires
        unique_keys(m),
        forall|i: int| 0 <= i < m.len() ==> well_formed(#[trigger] m[i].1),
    ensures
        unique_keys(clean_steps(m, ks, g)),
        forall|i: int|
            0 <= i < clean_steps(m, ks, g).len() ==> well_formed(#[trigger] clean_steps(m, ks, g)[i].1),
    decreases g, ks.len() + 1,
{
    if ks.len() > 0 {
        let k = ks[0];
        let next = clean_step(m, k, g);
        lemma_key_index(m, k);
        let i = key_index(m, k);
        if 0 <= i < m.len() {
            lemma_clean_h_well_formed(m[i].1, g);
            let removed = map_swap_remove(m, k);
            lemma_swap_remove_entries(m, k);
            lemma_insert_entries(removed, renamed_key(k), clean_h(m[i].1, g));
            assert forall|j: int| 0 <= j < next.len() implies well_formed(#[trigger] next[j].1) by {
                if next[j] != (renamed_key(k), clean_h(m[i].1, g)) {
                    let j2 = choose|j2: int| 0 <= j2 < removed.len() && next[j] == removed[j2];
                    let j3 = choose|j3: int| 0 <= j3 < m.len() && #[trigger] removed[j2] == m[j3];
                }
            }
        }
        lemma_clean_steps_well_formed(next, ks.drop_first(), g);
    }
}

/// Cleaning XML keys keeps every object's keys unique.
pub proof fn law_clean_well_formed(j: Json)
    requires
        well_formed(j),
    ensures
        well_formed(xml_cleaned(j)),
{
    lemma_clean_h_well_formed(j, height(j));
}

proof fn lemma_clean_fits(j: Json, g: nat)
    requires
        fits(j, g),
    ensures
        fits(clean_h(j, g), g),
    decreases g, 0nat,
{
    if g > 0 {
        match j {
            Json::Array(a) => {
                let c = clean_h(j, g)->Array_0;
                assert forall|i: int| 0 <= i < c.len() implies fits(#[trigger] c[i], (g - 1) as nat) by {
                    lemma_clean_fits(a[i], (g - 1) as nat);
                }
            },
            Json::Object(m) => {
                lemma_clean_steps_fits(m, keys_of(m), (g - 1) as nat);
                let r = clean_steps(m, keys_of(m), (g - 1) as nat);
                assert(clean_h(j, g) == Json::Object(r));
                assert forall|i: int| 0 <= i < r.len() implies fits(#[trigger] r[i].1, (g - 1) as nat) by {}
            },
            _ => {},
        }
    }
}

proof fn lemma_clean_steps_fits(m: Entries, ks: Seq<Seq<char>>, g: nat)
    requires
        forall|i: int| 0 <= i < m.len() ==> fits(#[trigger] m[i].1, g),
    ensures
        forall|i: int|
            0 <= i < clean_steps(m, ks, g).len() ==> fits(#[trigger] clean_steps(m, ks, g)[i].1, g),
    decreases g, ks.len() + 1,
{
    if ks.len() > 0 {
        let k = ks[0];
        let next = clean_step(m, k, g);
        lemma_key_index(m, k);
        let i = key_index(m, k);
        if 0 <= i < m.len() {
            lemma_clean_fits(m[i].1, g);
            let removed = map_swap_remove(m, k);
            lemma_swap_remove_entries(m, k);
            lemma_insert_entries(removed, renamed_key(k), clean_h(m[i].1, g));
            assert forall|j: int| 0 <= j < next.len() implies fits(#[trigger] next[j].1, g) by {
                if next[j] != (renamed_key(k), clean_h(m[i].1, g)) {
                    let j2 = choose|j2: int| 0 <= j2 < removed.len() && next[j] == removed[j2];
                    let j3 = choose|j3: int| 0 <= j3 < m.len() && #[trigger] removed[j2] == m[j3];
                }
            }
        }
        lemma_clean_steps_fits(next, ks.drop_first(), g);
        assert(clean_steps(m, ks, g) == clean_steps(next, ks.drop_first(), g));
    } else {
        assert(clean_steps(m, ks, g) == m);
    }
}

/// Cleaning does not depend on how many levels of nesting it may spend,
/// once they are enough to reach every value: any two such budgets give the
/// same result.
pub proof fn law_clean_fuel(j: Json, g1: nat, g2: nat)
    requires
        fits(j, g1),
        g1 <= g2,
    ensures
        clean_h(j, g1) == clean_h(j, g2),
    decreases g1, 0nat,
{
    if g1 > 0 {
        match j {
            Json::Array(a) => {
                let c1 = clean_h(j, g1)->Array_0;
                let c2 = clean_h(j, g2)->Array_0;
                assert forall|i: int| 0 <= i < c1.len() implies c1[i] == c2[i] by {
                    law_clean_fuel(a[i], (g1 - 1) as nat, (g2 - 1) as nat);
                }
                assert(c1 =~= c2);
            },
            Json::Object(m) => {
                lemma_clean_steps_fuel(m, keys_of(m), (g1 - 1) as nat, (g2 - 1) as nat);
            },
            _ => {},
        }
    }
}

proof fn lemma_clean_steps_fuel(m: Entries, ks: Seq<Seq<char>>, g1: nat, g2: nat)
    requires
        forall|i: int| 0 <= i < m.len() ==> fits(#[trigger] m[i].1, g1),
        g1 <= g2,
    ensures
        clean_steps(m, ks, g1) == clean_steps(m, ks, g2),
    decreases g1, ks.len() + 1,
{
    if ks.len() > 0 {
        let k = ks[0];
        lemma_key_index(m, k);
        let i = key_index(m, k);
        if 0 <= i < m.len() {
            law_clean_fuel(m[i].1, g1, g2);
        }
        let next = clean_step(m, k, g1);
        assert(next == clean_step(m, k, g2));
        if 0 <= i < m.len() {
            lemma_clean_fits(m[i].1, g1);
            let removed = map_swap_remove(m, k);
            lemma_swap_remove_entries(m, k);
            lemma_insert_entries(removed, renamed_key(k), clean_h(m[i].1, g1));
            assert forall|j: int| 0 <= j < next.len() implies fits(#[trigger] next[j].1, g1) by {
                if next[j] != (renamed_key(k), clean_h(m[i].1, g1)) {
                    let j2 = choose|j2: int| 0 <= j2 < removed.len() && next[j] == removed[j2];
                    let j3 = choose|j3: int| 0 <= j3 < m.len() && #[trigger] removed[j2] == m[j3];
                }
            }
        }
        lemma_clean_steps_fuel(next, ks.drop_first(), g1, g2);
        assert(clean_steps(m, ks, g1) == clean_steps(next, ks.drop_first(), g1));
        assert(clean_steps(m, ks, g2) == clean_steps(clean_step(m, k, g2), ks.drop_first(), g2));
    }
}

/// Renaming touches nothing but a leading `@` and the element-text key: a
/// key that starts with no `@` and is not `$text` stays as it is; one `@`
/// is dropped from a key that starts with it, the rest kept as it is,
/// unless the rest is `$text`; `$text` and `@$text` both become `text`.
pub proof fn law_renamed_key(k: Seq<char>, rest: Seq<char>)
    ensures
        (k.len() == 0 || k[0] != '@') && k != seq!['$', 't', 'e', 'x', 't'] ==> renamed_key(k) == k,
        rest != seq!['$', 't', 'e', 'x', 't'] ==> renamed_key(seq!['@'] + rest) == rest,
        renamed_key(seq!['$', 't', 'e', 'x', 't']) == seq!['t', 'e', 'x', 't'],
        renamed_key(seq!['@', '$', 't', 'e', 'x', 't']) == seq!['t', 'e', 'x', 't'],
{
    assert((seq!['@'] + rest).drop_first() =~= rest);
    assert(seq!['@', '$', 't', 'e', 'x', 't'].drop_first() =~= seq!['$', 't', 'e', 'x', 't']);
}

/// A value that is neither an object nor an array is left as it is.
pub proof fn law_clean_scalar(j: Json)
    requires
        !(j is Object),
        !(j is Array),
    ensures
        xml_cleaned(j) == j,
{
}

/// An array is cleaned item by item, each item as a value of its own.
pub proof fn law_clean_array(a: Seq<Json>)
    ensures
        xml_cleaned(Json::Array(a)) == Json::Array(Seq::new(a.len(), |i: int| xml_cleaned(a[i]))),
{
    let j = Json::Array(a);
    let g = (height(j) - 1) as nat;
    let c = clean_h(j, height(j))->Array_0;
    assert forall|i: int| 0 <= i < a.len() implies c[i] == xml_cleaned(a[i]) by {
        lemma_fits_height(a[i]);
        lemma_max_of(item_heights(a), i);
        assert(item_heights(a)[i] == height(a[i]));
        law_clean_fuel(a[i], height(a[i]), g);
    }
    assert(c =~= Seq::new(a.len(), |i: int| xml_cleaned(a[i])));
}

/// Whether no object at any depth of `j` still holds the key `$text`.
pub open spec fn no_text_marker(j: Json) -> bool
    decreases j,
{
    match j {
        Json::Array(a) => forall|i: int| 0 <= i < a.len() ==> no_text_marker(#[trigger] a[i]),
        Json::Object(m) => !has_key(m, dollar_text_key()) && forall|i: int|
            0 <= i < m.len() ==> no_text_marker(#[trigger] m[i].1),
        _ => true,
    }
}

proof fn lemma_renamed_not_marker(k: Seq<char>)
    ensures
        renamed_key(k) != dollar_text_key(),
{
    assert(text_key().len() != dollar_text_key().len());
}

proof fn lemma_clean_no_marker(j: Json, g: nat)
    requires
        fits(j, g),
        well_formed(j),
    ensures
        no_text_marker(clean_h(j, g)),
    decreases g, 0nat,
{
    if g > 0 {
        match j {
            Json::Array(a) => {
                let c = clean_h(j, g)->Array_0;
                assert forall|i: int| 0 <= i < c.len() implies no_text_marker(#[trigger] c[i]) by {
                    lemma_clean_no_marker(a[i], (g - 1) as nat);
                }
            },
            Json::Object(m) => {
                assert forall|i: int| 0 <= i < m.len() implies keys_of(m).contains(
                    #[trigger] m[i].0,
                ) by {
                    assert(keys_of(m)[i] == m[i].0);
                }
                lemma_clean_steps_no_marker(m, keys_of(m), (g - 1) as nat);
                let r = clean_steps(m, keys_of(m), (g - 1) as nat);
                assert(clean_h(j, g) == Json::Object(r));
                assert(!has_key(r, dollar_text_key())) by {
                    if has_key(r, dollar_text_key()) {
                        let i = choose|i: int| 0 <= i < r.len() && #[trigger] r[i].0 == dollar_text_key();
                    }
                }
                assert forall|i: int| 0 <= i < r.len() implies no_text_marker(#[trigger] r[i].1) by {
                    assert(r[i].0 != dollar_text_key());
                }
            },
            _ => {},
        }
    }
}

proof fn lemma_clean_steps_no_marker(m: Entries, ks: Seq<Seq<char>>, g: nat)
    requires
        unique_keys(m),
        forall|i: int| 0 <= i < m.len() ==> fits(#[trigger] m[i].1, g),
        forall|i: int| 0 <= i < m.len() ==> well_formed(#[trigger] m[i].1),
        forall|i: int|
            0 <= i < m.len() ==> (!ks.contains(#[trigger] m[i].0) ==> m[i].0 != dollar_text_key()
                && no_text_marker(m[i].1)),
    ensures
        forall|i: int|
            0 <= i < clean_steps(m, ks, g).len() ==> #[trigger] clean_steps(m, ks, g)[i].0
                != dollar_text_key() && no_text_marker(clean_steps(m, ks, g)[i].1),
    decreases g, ks.len() + 1,
{
    if ks.len() == 0 {
        assert forall|i: int| 0 <= i < m.len() implies !ks.contains(#[trigger] m[i].0) by {}
        return;
    }
    let k = ks[0];
    let rest = ks.drop_first();
    let next = clean_step(m, k, g);
    assert forall|x: Seq<char>| x != k && !rest.contains(x) implies !ks.contains(x) by {
        if ks.contains(x) {
            let i = choose|i: int| 0 <= i < ks.len() && ks[i] == x;
            assert(rest[i - 1] == x);
        }
    }
    lemma_key_index(m, k);
    let i = key_index(m, k);
    if 0 <= i < m.len() {
        let cv = clean_h(m[i].1, g);
        let rk = renamed_key(k);
        lemma_clean_fits(m[i].1, g);
        lemma_clean_no_marker(m[i].1, g);
        lemma_clean_h_well_formed(m[i].1, g);
        lemma_renamed_not_marker(k);
        let removed = map_swap_remove(m, k);
        lemma_swap_remove_entries(m, k);
        lemma_swap_remove_value(m, k, k);
        lemma_insert_entries(removed, rk, cv);
        assert forall|j: int| 0 <= j < next.len() implies fits(#[trigger] next[j].1, g) && well_formed(
            next[j].1,
        ) && (!rest.contains(next[j].0) ==> next[j].0 != dollar_text_key() && no_text_marker(
            next[j].1,
        )) by {
            if next[j] != (rk, cv) {
                let j2 = choose|j2: int| 0 <= j2 < removed.len() && next[j] == removed[j2];
                let j3 = choose|j3: int| 0 <= j3 < m.len() && #[trigger] removed[j2] == m[j3];
                assert(removed[j2].0 != k) by {
                    if removed[j2].0 == k {
                        assert(has_key(removed, k));
                    }
                }
            }
        }
        lemma_clean_steps_no_marker(next, rest, g);
    } else {
        assert forall|j: int| 0 <= j < m.len() implies m[j].0 != k by {
            if m[j].0 == k {
                assert(has_key(m, k));
            }
        }
        lemma_clean_steps_no_marker(next, rest, g);
    }
    assert(clean_steps(m, ks, g) == clean_steps(next, rest, g));
}

/// Cleaning a value whose objects have distinct keys leaves no `$text` key
/// at any depth: element text always ends up under `text`.
pub proof fn law_clean_no_text_marker(j: Json)
    requires
        well_formed(j),
    ensures
        no_text_marker(xml_cleaned(j)),
{
    lemma_fits_height(j);
    lemma_clean_no_marker(j, height(j));
}

/// Renaming sends no key onto another key of the object, and no two keys
/// onto the same key.
pub open spec fn renaming_is_clean(m: Entries) -> bool {
    &&& forall|i: int, j: int|
        0 <= i < m.len() && 0 <= j < m.len() && #[trigger] renamed_key(m[i].0) == #[trigger] m[j].0
            ==> i == j
    &&& forall|i: int, j: int|
        0 <= i < m.len() && 0 <= j < m.len() && #[trigger] renamed_key(m[i].0) == #[trigger] renamed_key(
            m[j].0,
        ) ==> i == j
}

/// The state after the first `n` keys of `m0` are processed: those stand
/// under their new keys with cleaned values, the rest as they were.
spec fn renamed_upto(m0: Entries, cur: Entries, n: int, g: nat) -> bool {
    &&& unique_keys(cur)
    &&& forall|k: Seq<char>| #[trigger]
        has_key(cur, k) <==> ((exists|i: int| 0 <= i < n && #[trigger] renamed_key(m0[i].0) == k)
            || (exists|i: int| n <= i < m0.len() && #[trigger] m0[i].0 == k))
    &&& forall|i: int|
        0 <= i < n ==> #[trigger] entry_value(cur, renamed_key(m0[i].0)) == Some(clean_h(m0[i].1, g))
    &&& forall|i: int| n <= i < m0.len() ==> #[trigger] entry_value(cur, m0[i].0) == Some(m0[i].1)
}

/// Keys and values of the next state, key by key.
proof fn lemma_renamed_step_key(m0: Entries, cur: Entries, n: int, g: nat, k2: Seq<char>)
    requires
        unique_keys(m0),
        renaming_is_clean(m0),
        0 <= n < m0.len(),
        renamed_upto(m0, cur, n, g),
    ensures
        has_key(clean_step(cur, m0[n].0, g), k2) <==> ((exists|j: int|
            0 <= j < n + 1 && #[trigger] renamed_key(m0[j].0) == k2) || (exists|j: int|
            n + 1 <= j < m0.len() && #[trigger] m0[j].0 == k2)),
        (exists|j: int| 0 <= j < n + 1 && #[trigger] renamed_key(m0[j].0) == k2) ==> entry_value(
            clean_step(cur, m0[n].0, g),
            k2,
        ) == Some(clean_h(m0[choose|j: int| 0 <= j < n + 1 && #[trigger] renamed_key(m0[j].0) == k2].1, g)),
        (exists|j: int| n + 1 <= j < m0.len() && #[trigger] m0[j].0 == k2) ==> entry_value(
            clean_step(cur, m0[n].0, g),
            k2,
        ) == Some(m0[choose|j: int| n + 1 <= j < m0.len() && #[trigger] m0[j].0 == k2].1),
{
    let k = m0[n].0;
    let rk = renamed_key(k);
    let v = clean_h(m0[n].1, g);
    assert(has_key(cur, k));
    lemma_key_index(cur, k);
    let i = key_index(cur, k);
    assert(entry_value(cur, k) == Some(m0[n].1));
    let removed = map_swap_remove(cur, k);
    let next = clean_step(cur, k, g);
    assert(next == map_insert(removed, rk, v));
    lemma_swap_remove_value(cur, k, k2);
    lemma_insert_value(removed, rk, v, k2);
    if exists|j: int| 0 <= j < n + 1 && #[trigger] renamed_key(m0[j].0) == k2 {
        let j = choose|j: int| 0 <= j < n + 1 && #[trigger] renamed_key(m0[j].0) == k2;
        if j < n {
            assert(renamed_key(m0[j].0) != k);
            assert(renamed_key(m0[j].0) != rk);
            assert(entry_value(cur, renamed_key(m0[j].0)) == Some(clean_h(m0[j].1, g)));
        }
    }
    if exists|j: int| n + 1 <= j < m0.len() && #[trigger] m0[j].0 == k2 {
        let j = choose|j: int| n + 1 <= j < m0.len() && #[trigger] m0[j].0 == k2;
        assert(m0[j].0 != k);
        assert(m0[j].0 != rk);
        assert(entry_value(cur, m0[j].0) == Some(m0[j].1));
    }
    if has_key(next, k2) && k2 != rk {
        assert(has_key(cur, k2) && k2 != k);
        if exists|j: int| n <= j < m0.len() && #[trigger] m0[j].0 == k2 {
            let j = choose|j: int| n <= j < m0.len() && #[trigger] m0[j].0 == k2;
            assert(j != n);
            assert(m0[j].0 == k2);
        }
    }
    if k2 == rk {
        assert(renamed_key(m0[n].0) == k2);
    }
}

proof fn lemma_renamed_step(m0: Entries, cur: Entries, n: int, g: nat)
    requires
        unique_keys(m0),
        renaming_is_clean(m0),
        0 <= n < m0.len(),
        renamed_upto(m0, cur, n, g),
    ensures
        renamed_upto(m0, clean_step(cur, m0[n].0, g), n + 1, g),
{
    let k = m0[n].0;
    let next = clean_step(cur, k, g);
    lemma_key_index(cur, k);
    assert(has_key(cur, k));
    assert(entry_value(cur, m0[n].0) == Some(m0[n].1));
    assert(cur[key_index(cur, k)].1 == m0[n].1);
    assert(next == map_insert(map_swap_remove(cur, k), renamed_key(k), clean_h(m0[n].1, g)));
    lemma_swap_remove_entries(cur, k);
    lemma_insert_entries(map_swap_remove(cur, k), renamed_key(k), clean_h(m0[n].1, g));
    assert(unique_keys(next));
    assert forall|k2: Seq<char>| #[trigger] has_key(next, k2) <==> ((exists|j: int|
        0 <= j < n + 1 && #[trigger] renamed_key(m0[j].0) == k2) || (exists|j: int|
        n + 1 <= j < m0.len() && #[trigger] m0[j].0 == k2)) by {
        lemma_renamed_step_key(m0, cur, n, g, k2);
    }
    assert forall|j: int| 0 <= j < n + 1 implies #[trigger] entry_value(next, renamed_key(m0[j].0))
        == Some(clean_h(m0[j].1, g)) by {
        let k2 = renamed_key(m0[j].0);
        lemma_renamed_step_key(m0, cur, n, g, k2);
        let j2 = choose|j2: int| 0 <= j2 < n + 1 && #[trigger] renamed_key(m0[j2].0) == k2;
        assert(j2 == j);
    }
    assert forall|j: int| n + 1 <= j < m0.len() implies #[trigger] entry_value(next, m0[j].0)
        == Some(m0[j].1) by {
        let k2 = m0[j].0;
        lemma_renamed_step_key(m0, cur, n, g, k2);
        let j2 = choose|j2: int| n + 1 <= j2 < m0.len() && #[trigger] m0[j2].0 == k2;
        assert(j2 == j);
    }
}

proof fn lemma_renamed_steps(m0: Entries, cur: Entries, n: int, g: nat)
    requires
        unique_keys(m0),
        renaming_is_clean(m0),
        0 <= n <= m0.len(),
        renamed_upto(m0, cur, n, g),
    ensures
        renamed_upto(m0, clean_steps(cur, keys_of(m0).skip(n), g), m0.len() as int, g),
    decreases m0.len() - n,
{
    let ks = keys_of(m0);
    if n < m0.len() {
        lemma_renamed_step(m0, cur, n, g);
        assert(ks.skip(n)[0] == m0[n].0);
        assert(ks.skip(n).drop_first() =~= ks.skip(n + 1));
        lemma_renamed_steps(m0, clean_step(cur, m0[n].0, g), n + 1, g);
    } else {
        assert(ks.skip(n).len() == 0);
    }
}

/// When renaming sends no key onto another key and no two keys onto one
/// (the usual case: `@attr` beside no plain `attr`), cleaning an object
/// renames each key once: the keys are exactly the renamed keys, each
/// holding its value cleaned.
pub proof fn law_clean_renames_keys(m: Entries)
    requires
        unique_keys(m),
        renaming_is_clean(m),
    ensures
        xml_cleaned(Json::Object(m)) matches Json::Object(r) && {
            &&& unique_keys(r)
            &&& forall|k: Seq<char>| #[trigger]
                has_key(r, k) <==> exists|i: int| 0 <= i < m.len() && #[trigger] renamed_key(m[i].0) == k
            &&& forall|i: int|
                0 <= i < m.len() ==> #[trigger] entry_value(r, renamed_key(m[i].0)) == Some(
                    xml_cleaned(m[i].1),
                )
        },
{
    let j = Json::Object(m);
    let h = height(j);
    let g = (h - 1) as nat;
    assert forall|k: Seq<char>| #[trigger] has_key(m, k) <==> ((exists|i: int|
        0 <= i < 0 && #[trigger] renamed_key(m[i].0) == k) || (exists|i: int|
        0 <= i < m.len() && #[trigger] m[i].0 == k)) by {}
    assert forall|i: int| 0 <= i < m.len() implies #[trigger] entry_value(m, m[i].0) == Some(
        m[i].1,
    ) by {
        lemma_key_index_unique(m, i);
    }
    assert(renamed_upto(m, m, 0, g));
    lemma_renamed_steps(m, m, 0, g);
    assert(keys_of(m).skip(0) =~= keys_of(m));
    let r = clean_steps(m, keys_of(m), g);
    assert(xml_cleaned(j) == Json::Object(r));
    assert forall|i: int| 0 <= i < m.len() implies clean_h(m[i].1, g) == xml_cleaned(m[i].1) by {
        lemma_fits_height(m[i].1);
        lemma_max_of(entry_heights(m), i);
        assert(entry_heights(m)[i] == height(m[i].1));
        law_clean_fuel(m[i].1, height(m[i].1), g);
    }
    assert forall|i: int| 0 <= i < m.len() implies #[trigger] entry_value(r, renamed_key(m[i].0))
        == Some(xml_cleaned(m[i].1)) by {
        assert(clean_h(m[i].1, g) == xml_cleaned(m[i].1));
    }
}

} // verus!
