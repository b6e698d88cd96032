//! The encoding of project paths into directory names, its naive inverse,
//! and the lookup of real paths from the configured projects.
use vstd::prelude::*;
use vstd::hash_map::StringHashMap;
use crate::text::push_str;

verus! {

broadcast use vstd::std_specs::hash::group_hash_axioms;

/// The character that stands for `c` in an encoded directory name.
pub open spec fn encode_char(c: char) -> char {
    if c == '/' || c == '.' {
        '-'
    } else {
        c
    }
}

/// The directory name of a project path: every `/` and `.` becomes `-`.
pub open spec fn encoded(path: Seq<char>) -> Seq<char> {
    path.map_values(|c: char| encode_char(c))
}

/// The character that stands for `c` in a naively decoded path.
pub open spec fn decode_char(c: char) -> char {
    if c == '-' {
        '/'
    } else {
        c
    }
}

/// The naive reading of a directory name: every `-` becomes `/`.
pub open spec fn naively_decoded(name: Seq<char>) -> Seq<char> {
    name.map_values(|c: char| decode_char(c))
}

/// Encodes a project path the way its memory directory is named.
pub fn re_encode(path: &str) -> (res: String)
    ensures
        res@ == encoded(path@),
{
    let mut res = String::new();
    for c in it: path.chars()
        invariant
            it.seq() == path@,
            res@ == encoded(it.seq().take(it.index() as int)),
    {
        let e = if c == '/' || c == '.' {
            '-'
        } else {
            c
        };
        res.push(e);
        assert(encoded(it.seq().take(it.index() + 1)) =~= encoded(it.seq().take(it.index() as int)).push(e));
    }
    res
}

/// Reads a directory name back as a path by turning every `-` into `/`.
pub fn naive_decode(encoded_name: &str) -> (res: String)
    ensures
        res@ == naively_decoded(encoded_name@),
{
    let mut res = String::new();
    for c in it: encoded_name.chars()
        invariant
            it.seq() == encoded_name@,
            res@ == naively_decoded(it.seq().take(it.index() as int)),
    {
        let d = if c == '-' {
            '/'
        } else {
            c
        };
        res.push(d);
        assert(naively_decoded(it.seq().take(it.index() + 1)) =~= naively_decoded(it.seq().take(it.index() as int)).push(d));
    }
    res
}

/// Encoded directory name to real project path.
pub type Lookup = StringHashMap<String>;

/// What the library reads of the JSON configuration file in the home
/// directory: the keys of its top-level `projects` object, in the order in
/// which serde_json lists them, or `None` where the text is no JSON, or has
/// no such member, or the member is no object.
pub struct ClaudeJson {
    pub projects: Option<Vec<String>>,
}

/// The characters of each string of `v`.
pub open spec fn strings_view(v: Seq<String>) -> Seq<Seq<char>> {
    v.map_values(|s: String| s@)
}

/// The characters of each key, where there are keys.
pub open spec fn keys_view(keys: Option<Vec<String>>) -> Option<Seq<Seq<char>>> {
    match keys {
        Some(v) => Some(strings_view(v@)),
        None => None,
    }
}

/// The keys of the object under the top-level member `member` of the JSON
/// text `text`, in serde_json's order; `None` where `text` is no JSON or
/// the member is missing or no object.
pub uninterp spec fn json_object_member_keys(text: Seq<char>, member: Seq<char>) -> Option<Seq<Seq<char>>>;

/// Parses `text` with `serde_json::from_str` into a `serde_json::Value`,
/// then takes the keys of the object `member` of the result (`Value::get`,
/// `Value::as_object`, `Map::keys`). The contract names the outcome and says
/// nothing more of it.
#[verifier::external_body]
fn json_member_keys(text: &str, member: &str) -> (res: Option<Vec<String>>)
    ensures
        keys_view(res) == json_object_member_keys(text@, member@),
{
    let value: serde_json::Value = serde_json::from_str(text).ok()?;
    let object = value.get(member)?.as_object()?;
    Some(object.keys().cloned().collect())
}

/// Reads the project keys out of the text of the JSON configuration file.
pub fn parse_claude_json(text: &str) -> (res: ClaudeJson)
    ensures
        keys_view(res.projects) == json_object_member_keys(text@, "projects"@),
{
    ClaudeJson { projects: json_member_keys(text, "projects") }
}

/// The lookup that `keys` give: each key under its encoded form, a later key
/// replacing an earlier one with the same encoding.
pub open spec fn lookup_of(keys: Seq<String>) -> Map<Seq<char>, String>
    decreases keys.len(),
{
    if keys.len() == 0 {
        Map::empty()
    } else {
        lookup_of(keys.drop_last()).insert(encoded(keys.last()@), keys.last())
    }
}

/// The configured project paths; none where the configuration had none.
pub open spec fn project_keys(claude_json: ClaudeJson) -> Seq<String> {
    match claude_json.projects {
        Some(v) => v@,
        None => seq![],
    }
}

/// Indexes the configured project paths by their encoded form.
pub fn build_lookup(claude_json: &ClaudeJson) -> (res: Lookup)
    ensures
        res@ == lookup_of(project_keys(*claude_json)),
{
    let mut map = Lookup::new();
    match &claude_json.projects {
        Some(keys) => {
            let n = keys.len();
            let mut i: usize = 0;
            while i < n
                invariant
                    n == keys@.len(),
                    0 <= i <= n,
                    map@ == lookup_of(keys@.take(i as int)),
                decreases n - i,
            {
                let key = &keys[i];
                map.insert(re_encode(key.as_str()), key.clone());
                assert(keys@.take(i + 1).drop_last() =~= keys@.take(i as int));
                i = i + 1;
            }
            assert(keys@.take(n as int) =~= keys@);
        },
        None => {},
    }
    map
}

/// The path that a directory name stands for: the configured one where
/// there is one, else the naive decoding.
pub open spec fn resolved(name: Seq<char>, lookup: Map<Seq<char>, String>) -> Seq<char> {
    if lookup.contains_key(name) {
        lookup[name]@
    } else {
        naively_decoded(name)
    }
}

/// The real path of the project stored under the directory name `encoded_name`.
pub fn resolve(encoded_name: &str, lookup: &Lookup) -> (res: String)
    ensures
        res@ == resolved(encoded_name@, lookup@),
{
    match lookup.get(encoded_name) {
        Some(path) => path.clone(),
        None => naive_decode(encoded_name),
    }
}

/// Law: an encoded name has the length of its path and holds neither `/` nor `.`.
pub proof fn lemma_encoded_has_no_separators(path: Seq<char>)
    ensures
        encoded(path).len() == path.len(),
        forall|i: int| 0 <= i < path.len() ==> encoded(path)[i] != '/' && encoded(path)[i] != '.',
{
}

/// Law: the naive decoding of an encoded name encodes back to that name.
pub proof fn lemma_naive_decode_is_a_preimage(name: Seq<char>)
    requires
        forall|i: int| 0 <= i < name.len() ==> name[i] != '/' && name[i] != '.',
    ensures
        encoded(naively_decoded(name)) == name,
{
    assert(encoded(naively_decoded(name)) =~= name);
}

/// Law: every configured path is found under its encoding, every entry
/// encodes to its own name, and an entry is the last configured path with
/// that encoding.
pub proof fn lemma_lookup_of(keys: Seq<String>)
    ensures
        forall|i: int| 0 <= i < keys.len() ==> #[trigger] lookup_of(keys).contains_key(encoded(keys[i]@)),
        forall|e: Seq<char>| #[trigger] lookup_of(keys).contains_key(e) ==> {
            &&& encoded(lookup_of(keys)[e]@) == e
            &&& exists|i: int| 0 <= i < keys.len() && keys[i] == lookup_of(keys)[e] && forall|j: int|
                i < j < keys.len() ==> encoded(keys[j]@) != e
        },
    decreases keys.len(),
{
    if keys.len() > 0 {
        let prev = keys.drop_last();
        lemma_lookup_of(prev);
        let last = keys.last();
        assert forall|i: int| 0 <= i < keys.len() implies #[trigger] lookup_of(keys).contains_key(
            encoded(keys[i]@),
        ) by {
            if i < keys.len() - 1 {
                assert(keys[i] == prev[i]);
                assert(lookup_of(prev).contains_key(encoded(prev[i]@)));
            }
        }
        assert forall|e: Seq<char>| #[trigger] lookup_of(keys).contains_key(e) implies {
            &&& encoded(lookup_of(keys)[e]@) == e
            &&& exists|i: int| 0 <= i < keys.len() && keys[i] == lookup_of(keys)[e] && forall|j: int|
                i < j < keys.len() ==> encoded(keys[j]@) != e
        } by {
            if e == encoded(last@) {
                assert(keys[keys.len() - 1] == lookup_of(keys)[e]);
            } else {
                assert(lookup_of(prev).contains_key(e));
                let i = choose|i: int| 0 <= i < prev.len() && prev[i] == lookup_of(prev)[e] && forall|j: int|
                    i < j < prev.len() ==> encoded(prev[j]@) != e;
                assert(keys[i] == lookup_of(keys)[e]);
                assert forall|j: int| i < j < keys.len() implies encoded(keys[j]@) != e by {
                    if j < keys.len() - 1 {
                        assert(keys[j] == prev[j]);
                    }
                }
            }
        }
    }
}

/// Law: the path that `resolve` gives for an encoded name encodes back to
/// that name, whether it came from the configuration or from the naive
/// decoding.
pub proof fn lemma_resolved_encodes_back(name: Seq<char>, keys: Seq<String>)
    requires
        forall|i: int| 0 <= i < name.len() ==> name[i] != '/' && name[i] != '.',
    ensures
        encoded(resolved(name, lookup_of(keys))) == name,
{
    lemma_lookup_of(keys);
    if !lookup_of(keys).contains_key(name) {
        lemma_naive_decode_is_a_preimage(name);
    }
}

/// Law: a directory name that a configured path encodes to resolves to that
/// path, the last such path where several encode alike.
pub proof fn lemma_resolve_prefers_configuration(name: Seq<char>, keys: Seq<String>, i: int)
    requires
        0 <= i < keys.len(),
        encoded(keys[i]@) == name,
        forall|j: int| i < j < keys.len() ==> encoded(#[trigger] keys[j]@) != name,
    ensures
        resolved(name, lookup_of(keys)) == keys[i]@,
{
    lemma_lookup_of(keys);
    let m = lookup_of(keys);
    assert(m.contains_key(encoded(keys[i]@)));
    let i2 = choose|i2: int| 0 <= i2 < keys.len() && keys[i2] == m[name] && forall|j: int|
        i2 < j < keys.len() ==> encoded(keys[j]@) != name;
    if i2 < i {
        assert(encoded(keys[i]@) != name);
    }
    if i2 > i {
        assert(encoded(keys[i2]@) == encoded(m[name]@));
    }
}

/// Law: a directory name that no configured path encodes to resolves to its
/// naive reading: each `-` becomes `/`, every other character stays.
pub proof fn lemma_resolve_falls_back(name: Seq<char>, keys: Seq<String>)
    requires
        forall|i: int| 0 <= i < keys.len() ==> encoded(#[trigger] keys[i]@) != name,
    ensures
        resolved(name, lookup_of(keys)).len() == name.len(),
        forall|k: int| 0 <= k < name.len() ==> #[trigger] resolved(name, lookup_of(keys))[k] == (if name[k] == '-' {
            '/'
        } else {
            name[k]
        }),
{
    lemma_lookup_of(keys);
    let m = lookup_of(keys);
    if m.contains_key(name) {
        let i2 = choose|i2: int| 0 <= i2 < keys.len() && keys[i2] == m[name] && forall|j: int|
            i2 < j < keys.len() ==> encoded(keys[j]@) != name;
        assert(encoded(keys[i2]@) == name);
    }
}

/// Law: encoding turns each `/` and `.` of a path into `-` and keeps every
/// other character in its place.
pub proof fn lemma_encoded_chars(path: Seq<char>)
    ensures
        encoded(path).len() == path.len(),
        forall|k: int| 0 <= k < path.len() ==> #[trigger] encoded(path)[k] == (if path[k] == '/' || path[k] == '.' {
            '-'
        } else {
            path[k]
        }),
{
}

} // verus!
