use vstd::prelude::*;
use crate::cli::Format;
use crate::error::{CliError, Failure};
use crate::json::{entry_value, has_key, items_model, unique_keys, Json, JsonValue};
use crate::parsers::{
    json_parse, json_stream_parse, more_than_one_document_message, pairs_map, pairs_model, parse_json_stream, parse_json_text,
    parse_toml_text, parse_xml_text, parse_yaml_documents, parse_yaml_text, properties_parse,
    read_properties, toml_parse, xml_parse, yaml_documents_parse, yaml_parse,
};
use crate::scalar::{scalar_of, scalar_value};
use crate::text::chars_of;
use crate::xml::{clean_xml_value, xml_cleaned};

verus! {

/// Position of the last `c` in `s`, or -1.
pub open spec fn last_index_of(s: Seq<char>, c: char) -> int
    decreases s.len(),
{
    if s.len() == 0 {
        -1
    } else if s.last() == c {
        s.len() - 1
    } else {
        last_index_of(s.drop_last(), c)
    }
}

pub proof fn lemma_last_index_of(s: Seq<char>, c: char)
    ensures
        -1 <= last_index_of(s, c) < s.len(),
        last_index_of(s, c) >= 0 ==> s[last_index_of(s, c)] == c,
        forall|j: int| last_index_of(s, c) < j < s.len() ==> s[j] != c,
    decreases s.len(),
{
    if s.len() > 0 && s.last() != c {
        lemma_last_index_of(s.drop_last(), c);
        assert forall|j: int| last_index_of(s, c) < j < s.len() implies s[j] != c by {
            if j < s.len() - 1 {
                assert(s[j] == s.drop_last()[j]);
            }
        }
        if last_index_of(s, c) >= 0 {
            assert(s[last_index_of(s, c)] == s.drop_last()[last_index_of(s, c)]);
        }
    }
}

pub open spec fn dot() -> Seq<char> {
    seq!['.']
}

pub open spec fn dot_dot() -> Seq<char> {
    seq!['.', '.']
}

/// The final component of a path, as `std::path::Path::file_name` reads it
/// on Unix: empty and `.` components are skipped from the end; the root, a
/// leading `.` and `..` have no file name.
pub open spec fn file_name(p: Seq<char>) -> Option<Seq<char>>
    decreases p.len(),
{
    let i = last_index_of(p, '/');
    let seg = p.subrange(i + 1, p.len() as int);
    if seg.len() == 0 || seg == dot() {
        if i < 0 || !(0 <= i < p.len()) {
            None
        } else {
            file_name(p.take(i))
        }
    } else if seg == dot_dot() {
        None
    } else {
        Some(seg)
    }
}

/// The extension of a file name, as `Path::extension` reads it: the text
/// after the last `.`, unless there is no `.` or the only one starts the
/// name.
pub open spec fn name_extension(name: Seq<char>) -> Option<Seq<char>> {
    let j = last_index_of(name, '.');
    if j <= 0 {
        None
    } else {
        Some(name.subrange(j + 1, name.len() as int))
    }
}

/// The extension of a path.
pub open spec fn path_extension(p: Seq<char>) -> Option<Seq<char>> {
    match file_name(p) {
        Some(name) => name_extension(name),
        None => None,
    }
}

/// The input format that a file extension stands for.
pub open spec fn format_for_extension(ext: Option<Seq<char>>) -> Format {
    match ext {
        Some(e) => if e == seq!['j', 's', 'o', 'n'] {
            Format::Json
        } else if e == seq!['y', 'a', 'm', 'l'] || e == seq!['y', 'm', 'l'] {
            Format::Yaml
        } else if e == seq!['t', 'o', 'm', 'l'] {
            Format::Toml
        } else if e == seq!['x', 'm', 'l'] {
            Format::Xml
        } else if e == seq!['p', 'r', 'o', 'p', 'e', 'r', 't', 'i', 'e', 's'] {
            Format::Properties
        } else {
            Format::Json
        },
        None => Format::Json,
    }
}

/// Only the five named extensions pick a format other than JSON: `yaml` and
/// `yml` pick YAML, `toml` TOML, `xml` XML and `properties` `.properties`;
/// every other extension, and a missing one, picks JSON.
pub proof fn law_extension_formats(e: Seq<char>)
    ensures
        format_for_extension(None) == Format::Json,
        format_for_extension(Some(e)) == Format::Yaml <==> (e == seq!['y', 'a', 'm', 'l'] || e
            == seq!['y', 'm', 'l']),
        format_for_extension(Some(e)) == Format::Toml <==> e == seq!['t', 'o', 'm', 'l'],
        format_for_extension(Some(e)) == Format::Xml <==> e == seq!['x', 'm', 'l'],
        format_for_extension(Some(e)) == Format::Properties <==> e == seq![
            'p',
            'r',
            'o',
            'p',
            'e',
            'r',
            't',
            'i',
            'e',
            's',
        ],
        format_for_extension(Some(e)) == Format::Json <==> !(e == seq!['y', 'a', 'm', 'l'] || e
            == seq!['y', 'm', 'l'] || e == seq!['t', 'o', 'm', 'l'] || e == seq!['x', 'm', 'l'] || e
            == seq!['p', 'r', 'o', 'p', 'e', 'r', 't', 'i', 'e', 's']),
{
}

/// Position of the last `c` in `s[..end]`.
fn find_last(s: &Vec<char>, end: usize, c: char) -> (r: Option<usize>)
    requires
        end <= s.len(),
    ensures
        match r {
            Some(i) => last_index_of(s@.take(end as int), c) == i && i < end,
            None => last_index_of(s@.take(end as int), c) == -1,
        },
{
    let mut k: usize = end;
    while k > 0
        invariant
            k <= end <= s.len(),
            last_index_of(s@.take(end as int), c) == last_index_of(s@.take(k as int), c),
        decreases k,
    {
        assert(s@.take(k as int).drop_last() =~= s@.take(k - 1));
        if s[k - 1] == c {
            return Some(k - 1);
        }
        k = k - 1;
    }
    None
}

/// Whether `s[from..to]` holds exactly the characters of `lit`.
fn range_is(s: &Vec<char>, from: usize, to: usize, lit: &[char]) -> (r: bool)
    requires
        from <= to <= s.len(),
    ensures
        r == (s@.subrange(from as int, to as int) == lit@),
{
    if to - from != lit.len() {
        return false;
    }
    let mut i: usize = 0;
    while i < lit.len()
        invariant
            to - from == lit.len(),
            from <= to <= s.len(),
            0 <= i <= lit.len(),
            forall|j: int| 0 <= j < i ==> s@[from + j] == lit@[j],
        decreases lit.len() - i,
    {
        if s[from + i] != lit[i] {
            assert(s@.subrange(from as int, to as int)[i as int] != lit@[i as int]);
            return false;
        }
        i = i + 1;
    }
    assert(s@.subrange(from as int, to as int) =~= lit@);
    true
}

/// Picks the input format from a file path's extension; a path without a
/// known extension is read as JSON.
pub fn detect_format(path: &str) -> (r: Format)
    ensures
        r == format_for_extension(path_extension(path@)),
{
    let dot_lit: &[char] = &['.'];
    let dot_dot_lit: &[char] = &['.', '.'];
    let p = chars_of(path);
    let mut end: usize = p.len();
    assert(p@.take(end as int) =~= path@);
    // Find the file name: walk back over empty and `.` components.
    loop
        invariant
            end <= p.len(),
            file_name(p@.take(end as int)) == file_name(path@),
            p@ == path@,
            dot_lit@ == dot(),
            dot_dot_lit@ == dot_dot(),
        decreases end,
    {
        let slash = find_last(&p, end, '/');
        let start: usize = match slash {
            Some(i) => i + 1,
            None => 0,
        };
        proof {
            lemma_last_index_of(p@.take(end as int), '/');
            assert(p@.take(end as int).subrange(start as int, end as int) =~= p@.subrange(start as int, end as int));
        }
        if start == end || range_is(&p, start, end, dot_lit) {
            match slash {
                Some(i) => {
                    assert(p@.take(end as int).take(i as int) =~= p@.take(i as int));
                    end = i;
                },
                None => {
                    return Format::Json;
                },
            }
        } else if range_is(&p, start, end, dot_dot_lit) {
            return Format::Json;
        } else {
            // The file name is p[start..end]; find its extension.
            let ghost name = p@.subrange(start as int, end as int);
            assert(name != dot());
            assert(name != dot_dot());
            assert(file_name(p@.take(end as int)) == Some(name));
            let dot = find_last(&p, end, '.');
            let ext_start: usize = match dot {
                Some(j) => {
                    if j <= start {
                        proof {
                            lemma_last_index_of(p@.take(end as int), '.');
                            lemma_last_index_of(name, '.');
                            if last_index_of(name, '.') > 0 {
                                assert(p@.take(end as int)[start + last_index_of(name, '.')] == '.');
                            }
                        }
                        return Format::Json;
                    }
                    j + 1
                },
                None => {
                    proof {
                        lemma_last_index_of(p@.take(end as int), '.');
                        lemma_last_index_of(name, '.');
                        if last_index_of(name, '.') >= 0 {
                            assert(p@.take(end as int)[start + last_index_of(name, '.')] == '.');
                        }
                    }
                    return Format::Json;
                },
            };
            proof {
                lemma_last_index_of(p@.take(end as int), '.');
                lemma_last_index_of(name, '.');
                let j = ext_start - 1;
                assert(name[j - start] == '.');
                if last_index_of(name, '.') != j - start {
                    if last_index_of(name, '.') > j - start {
                        assert(p@.take(end as int)[start + last_index_of(name, '.')] == '.');
                    }
                }
                assert(name_extension(name) == Some(p@.subrange(ext_start as int, end as int)));
            }
            if range_is(&p, ext_start, end, &['j', 's', 'o', 'n']) {
                return Format::Json;
            } else if range_is(&p, ext_start, end, &['y', 'a', 'm', 'l'])
                || range_is(&p, ext_start, end, &['y', 'm', 'l']) {
                return Format::Yaml;
            } else if range_is(&p, ext_start, end, &['t', 'o', 'm', 'l']) {
                return Format::Toml;
            } else if range_is(&p, ext_start, end, &['x', 'm', 'l']) {
                return Format::Xml;
            } else if range_is(
                &p,
                ext_start,
                end,
                &['p', 'r', 'o', 'p', 'e', 'r', 't', 'i', 'e', 's'],
            ) {
                return Format::Properties;
            } else {
                return Format::Json;
            }
        }
    }
}

pub open spec fn yaml_name() -> Seq<char> {
    seq!['y', 'a', 'm', 'l']
}

pub open spec fn toml_name() -> Seq<char> {
    seq!['t', 'o', 'm', 'l']
}

pub open spec fn xml_name() -> Seq<char> {
    seq!['x', 'm', 'l']
}

pub open spec fn properties_name() -> Seq<char> {
    seq!['p', 'r', 'o', 'p', 'e', 'r', 't', 'i', 'e', 's']
}

/// A reader's outcome, its error message tagged with the format's name.
pub open spec fn tagged<T>(o: Result<T, Seq<char>>, name: Seq<char>) -> Result<T, Failure> {
    match o {
        Ok(t) => Ok(t),
        Err(m) => Err(Failure::Parse(name, m)),
    }
}

/// A value read from `.properties` text: an object whose entries are the
/// pairs (in some order), each value typed by `scalar_of`.
pub open spec fn properties_json(j: Json, m: Map<Seq<char>, Seq<char>>) -> bool {
    &&& j matches Json::Object(es)
    &&& unique_keys(es)
    &&& forall|k: Seq<char>| #[trigger] has_key(es, k) <==> m.contains_key(k)
    &&& forall|k: Seq<char>| #[trigger] m.contains_key(k) ==> entry_value(es, k) == Some(
        scalar_of(m[k]),
    )
}

/// Whether `o` is an outcome that reading `input` as `format` gives: the
/// value the format's reader gives (XML then cleaned, `.properties` values
/// typed), or its error: a JSON error with its message, the others' messages
/// tagged with the format's name.
pub open spec fn parse_outcome(input: Seq<char>, format: Format, o: Result<Json, Failure>) -> bool {
    match format {
        Format::Json => o == match json_parse(input) {
            Ok(j) => Ok(j),
            Err(m) => Err(Failure::Json(m)),
        },
        Format::Yaml => o == tagged(yaml_parse(input), yaml_name()),
        Format::Toml => o == tagged(toml_parse(input), toml_name()),
        Format::Xml => o == match xml_parse(input) {
            Ok(j) => Ok(xml_cleaned(j)),
            Err(m) => Err(Failure::Parse(xml_name(), m)),
        },
        Format::Properties => match properties_parse(input) {
            Ok(m) => o matches Ok(j) && properties_json(j, m),
            Err(m) => o == Err::<Json, Failure>(Failure::Parse(properties_name(), m)),
        },
    }
}

/// A result taken by its model.
pub open spec fn outcome(r: Result<JsonValue, CliError>) -> Result<Json, Failure> {
    match r {
        Ok(v) => Ok(v@),
        Err(e) => Err(e@),
    }
}

/// A list of results taken by its model.
pub open spec fn outcomes(r: Result<Vec<JsonValue>, CliError>) -> Result<Seq<Json>, Failure> {
    match r {
        Ok(vs) => Ok(items_model(vs@)),
        Err(e) => Err(e@),
    }
}

/// Whether `o` is an outcome of reading every sample in `input`: JSON is
/// read as a stream of values, YAML as a stream of documents (a text that
/// the one-document reader takes gives just that document; one that it
/// refuses, but not for holding more documents, gives the same error), the
/// other formats as one value.
pub open spec fn parse_all_outcome(input: Seq<char>, format: Format, o: Result<Seq<Json>, Failure>) -> bool {
    match format {
        Format::Json => o == match json_stream_parse(input) {
            Ok(js) => Ok(js),
            Err(m) => Err(Failure::Json(m)),
        },
        Format::Yaml => {
            &&& o == tagged(yaml_documents_parse(input), yaml_name())
            &&& yaml_parse(input) matches Ok(j) ==> o == Ok::<Seq<Json>, Failure>(seq![j])
            &&& yaml_parse(input) matches Err(m) ==> (m != more_than_one_document_message() ==> o
                == Err::<Seq<Json>, Failure>(Failure::Parse(yaml_name(), m)))
            &&& o matches Err(f) ==> (tagged(yaml_parse(input), yaml_name()) == Err::<Json, Failure>(f)
                || yaml_parse(input) == Err::<Json, Seq<char>>(more_than_one_document_message()))
        },
        _ => match o {
            Ok(js) => js.len() == 1 && parse_outcome(input, format, Ok(js[0])),
            Err(f) => parse_outcome(input, format, Err(f)),
        },
    }
}

/// Whether two values are objects that hold the same keys, each with the
/// same value (in whatever order their entries stand).
pub open spec fn same_entries(a: Json, b: Json) -> bool {
    &&& a matches Json::Object(ea)
    &&& b matches Json::Object(eb)
    &&& forall|k: Seq<char>| #[trigger] has_key(ea, k) <==> has_key(eb, k)
    &&& forall|k: Seq<char>| #[trigger] entry_value(ea, k) == entry_value(eb, k)
}

/// For every format but JSON (a stream of values), reading all samples of a
/// text gives one sample, the value that reading one sample gives, or the
/// very same error; for YAML this holds of every text that the one-document
/// reader does not refuse for holding more than one document. The pairs of
/// a `.properties` text come out of a hash map, so two reads may order an
/// object's entries differently: there the two objects hold the same keys
/// with the same values.
pub proof fn law_parse_all_single(
    input: Seq<char>,
    format: Format,
    all: Result<Seq<Json>, Failure>,
    one: Result<Json, Failure>,
)
    requires
        !(format is Json),
        parse_all_outcome(input, format, all),
        parse_outcome(input, format, one),
    ensures
        !(format is Yaml && yaml_parse(input) == Err::<Json, Seq<char>>(
            more_than_one_document_message(),
        )) ==> {
            &&& all is Ok <==> one is Ok
            &&& all matches Ok(js) ==> js.len() == 1
            &&& all matches Err(f) ==> one == Err::<Json, Failure>(f)
            &&& !(format is Properties) ==> (all matches Ok(js) ==> one == Ok::<Json, Failure>(js[0]))
            &&& format is Properties ==> (all matches Ok(js) ==> one matches Ok(j) && same_entries(js[0], j))
        },
{
    if format is Properties {
        if all is Ok && one is Ok {
            let j1 = all->Ok_0[0];
            let j2 = one->Ok_0;
            let m = properties_parse(input)->Ok_0;
            assert(properties_json(j1, m));
            assert(properties_json(j2, m));
            let e1 = j1->Object_0;
            let e2 = j2->Object_0;
            assert forall|k: Seq<char>| #[trigger] entry_value(e1, k) == entry_value(e2, k) by {
                if !m.contains_key(k) {
                    crate::json::lemma_key_index(e1, k);
                    crate::json::lemma_key_index(e2, k);
                }
            }
        }
    }
}

/// Builds the object for `.properties` pairs, typing each value.
fn properties_object(pairs: Vec<(String, String)>) -> (r: JsonValue)
    requires
        unique_keys(pairs_model(pairs@)),
    ensures
        properties_json(r@, pairs_map(pairs_model(pairs@))),
{
    let ghost p = pairs_model(pairs@);
    let mut entries: Vec<(String, JsonValue)> = Vec::new();
    let mut i: usize = 0;
    while i < pairs.len()
        invariant
            0 <= i <= pairs.len(),
            p == pairs_model(pairs@),
            entries@.len() == i,
            forall|j: int| 0 <= j < i ==> #[trigger] entries@[j].0@ == p[j].0,
            forall|j: int| 0 <= j < i ==> #[trigger] entries@[j].1@ == scalar_of(p[j].1),
        decreases pairs.len() - i,
    {
        let k = pairs[i].0.clone();
        let v = scalar_value(pairs[i].1.as_str());
        entries.push((k, v));
        i = i + 1;
    }
    let ghost es = crate::json::entries_model(entries@);
    assert forall|j: int| 0 <= j < es.len() implies #[trigger] es[j].0 == p[j].0 && es[j].1
        == scalar_of(p[j].1) by {
        assert(es[j] == (entries@[j].0@, entries@[j].1@));
    }
    assert(unique_keys(es)) by {
        assert forall|a: int, b: int| 0 <= a < b < es.len() implies #[trigger] es[a].0
            != #[trigger] es[b].0 by {
            assert(p[a].0 != p[b].0);
        }
    }
    assert forall|k: Seq<char>| #[trigger] has_key(es, k) <==> pairs_map(p).contains_key(k) by {
        if has_key(es, k) {
            let j = choose|j: int| 0 <= j < es.len() && #[trigger] es[j].0 == k;
            assert(p[j].0 == k);
        }
        if has_key(p, k) {
            let j = choose|j: int| 0 <= j < p.len() && #[trigger] p[j].0 == k;
            assert(es[j].0 == k);
        }
    }
    assert forall|k: Seq<char>| #[trigger] pairs_map(p).contains_key(k) implies entry_value(es, k)
        == Some(scalar_of(pairs_map(p)[k])) by {
        let j = choose|j: int| 0 <= j < p.len() && #[trigger] p[j].0 == k;
        crate::json::lemma_key_index_unique(p, j);
        assert(es[j].0 == k);
        crate::json::lemma_key_index_unique(es, j);
    }
    JsonValue::Object(entries)
}

/// Reads one value from `input` in the given format.
pub fn parse_to_json(input: &str, format: Format) -> (r: Result<JsonValue, CliError>)
    ensures
        parse_outcome(input@, format, outcome(r)),
{
    match format {
        Format::Json => match parse_json_text(input) {
            Ok(v) => Ok(v),
            Err((e, msg)) => Err(CliError::Json(e, msg)),
        },
        Format::Yaml => match parse_yaml_text(input) {
            Ok(v) => Ok(v),
            Err(msg) => {
                proof {
                    reveal_strlit("yaml");
                    assert("yaml"@ == yaml_name());
                }
                Err(CliError::Parse { format: "yaml", msg })
            },
        },
        Format::Toml => match parse_toml_text(input) {
            Ok(v) => Ok(v),
            Err(msg) => {
                proof {
                    reveal_strlit("toml");
                    assert("toml"@ == toml_name());
                }
                Err(CliError::Parse { format: "toml", msg })
            },
        },
        Format::Xml => match parse_xml_text(input) {
            Ok(v) => Ok(clean_xml_value(v)),
            Err(msg) => {
                proof {
                    reveal_strlit("xml");
                    assert("xml"@ == xml_name());
                }
                Err(CliError::Parse { format: "xml", msg })
            },
        },
        Format::Properties => match read_properties(input) {
            Ok(pairs) => Ok(properties_object(pairs)),
            Err(msg) => {
                proof {
                    reveal_strlit("properties");
                    assert("properties"@ == properties_name());
                }
                Err(CliError::Parse { format: "properties", msg })
            },
        },
    }
}

/// Reads every sample in `input`: a stream of JSON values, every document
/// of a YAML text, or the one value of the other formats.
pub fn parse_all(input: &str, format: Format) -> (r: Result<Vec<JsonValue>, CliError>)
    ensures
        parse_all_outcome(input@, format, outcomes(r)),
{
    match format {
        Format::Json => match parse_json_stream(input) {
            Ok(vs) => Ok(vs),
            Err((e, msg)) => Err(CliError::Json(e, msg)),
        },
        Format::Yaml => match parse_yaml_documents(input) {
            Ok(vs) => Ok(vs),
            Err(msg) => {
                proof {
                    reveal_strlit("yaml");
                    assert("yaml"@ == yaml_name());
                }
                Err(CliError::Parse { format: "yaml", msg })
            },
        },
        _ => {
            let v = parse_to_json(input, format)?;
            let mut vs: Vec<JsonValue> = Vec::new();
            vs.push(v);
            Ok(vs)
        },
    }
}

} // verus!
