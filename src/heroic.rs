//! The Heroic per-game JSON env merger.
//!
//! A config is held as a `JsonValue`; objects keep their entries in order.
//! Two representations of the game's environment are kept in sync: the
//! top-level `envVariables` (an object of strings or an array of
//! `{name, value}`) and `<app name>.enviromentOptions` (an array of
//! `{key, value}`).
use vstd::prelude::*;
use crate::error::PatchError;
use crate::text::{chars_of, eq_ignore_case, find_from, find_in, seq_eq, slice_of, string_of, trim, trim_all, views};

verus! {

/// A JSON document.
#[derive(Debug)]
pub enum JsonValue {
    Null,
    Bool(bool),
    /// A number, in its JSON notation.
    Number(String),
    Str(String),
    Array(Vec<JsonValue>),
    Object(Vec<(String, JsonValue)>),
}

/// The text of a string value.
pub open spec fn str_of(j: JsonValue) -> Option<Seq<char>> {
    match j {
        JsonValue::Str(s) => Some(s@),
        _ => None,
    }
}

/// Index of the first entry of `o[i..]` whose key is `k`.
pub open spec fn entry_index(o: Seq<(String, JsonValue)>, k: Seq<char>, i: int) -> Option<int>
    decreases o.len() - i,
{
    if i < 0 || i >= o.len() {
        None
    } else if o[i].0@ == k {
        Some(i)
    } else {
        entry_index(o, k, i + 1)
    }
}

/// The value of key `k` in an object's entries.
pub open spec fn obj_get(o: Seq<(String, JsonValue)>, k: Seq<char>) -> Option<JsonValue> {
    match entry_index(o, k, 0) {
        Some(i) => Some(o[i].1),
        None => None,
    }
}

/// The string at key `k` in an object's entries.
pub open spec fn obj_str(o: Seq<(String, JsonValue)>, k: Seq<char>) -> Option<Seq<char>> {
    match obj_get(o, k) {
        Some(x) => str_of(x),
        None => None,
    }
}

/// The value of key `k` when `j` is an object.
pub open spec fn get(j: JsonValue, k: Seq<char>) -> Option<JsonValue> {
    match j {
        JsonValue::Object(o) => obj_get(o@, k),
        _ => None,
    }
}

/// The string at key `k` of `j`.
pub open spec fn get_str(j: JsonValue, k: Seq<char>) -> Option<Seq<char>> {
    match get(j, k) {
        Some(v) => str_of(v),
        None => None,
    }
}

fn entry_index_exec(o: &Vec<(String, JsonValue)>, k: &[char]) -> (r: Option<usize>)
    ensures
        r is None <==> entry_index(o@, k@, 0) is None,
        r matches Some(i) ==> entry_index(o@, k@, 0) == Some(i as int) && i < o@.len(),
{
    let mut i: usize = 0;
    while i < o.len()
        invariant
            i <= o@.len(),
            entry_index(o@, k@, 0) == entry_index(o@, k@, i as int),
        decreases o@.len() - i,
    {
        if seq_eq(chars_of(o[i].0.as_str()).as_slice(), k) {
            return Some(i);
        }
        i += 1;
    }
    None
}

/// The value at key `k` of `j`, when `j` is an object that has it.
pub fn json_get<'a>(j: &'a JsonValue, k: &str) -> (r: Option<&'a JsonValue>)
    ensures
        match r {
            Some(v) => get(*j, k@) == Some(*v),
            None => get(*j, k@) is None,
        },
{
    match j {
        JsonValue::Object(o) => match entry_index_exec(o, chars_of(k).as_slice()) {
            Some(i) => Some(&o[i].1),
            None => None,
        },
        _ => None,
    }
}

/// The string at key `k` of `j`.
pub fn json_get_str<'a>(j: &'a JsonValue, k: &str) -> (r: Option<&'a String>)
    ensures
        match r {
            Some(s) => get_str(*j, k@) == Some(s@),
            None => get_str(*j, k@) is None,
        },
{
    match json_get(j, k) {
        Some(JsonValue::Str(s)) => Some(s),
        _ => None,
    }
}

/// The key the library adds to mark an environment it manages.
pub const MARKER_KEY: &'static str = "KAEDE_GPU_MANAGED";

/// The variables this library manages and removes when they are not desired.
pub open spec fn managed_keys() -> Seq<Seq<char>> {
    seq![
        "DRI_PRIME"@,
        "PRESSURE_VESSEL_IMPORT_VARS"@,
        "__NV_PRIME_RENDER_OFFLOAD"@,
        "__GLX_VENDOR_LIBRARY_NAME"@,
        "__VK_LAYER_NV_optimus"@,
        "MESA_VK_DEVICE_SELECT"@,
        "MESA_VK_DEVICE_SELECT_FORCE_DEFAULT_DEVICE"@,
        "DXVK_FILTER_DEVICE_NAME"@,
        MARKER_KEY@,
    ]
}

/// `k` is a managed variable name.
pub open spec fn is_managed(k: Seq<char>) -> bool {
    managed_keys().contains(k)
}

/// Whether `k` is a managed variable name.
pub fn is_managed_key(k: &[char]) -> (r: bool)
    ensures
        r == is_managed(k@),
{
    let keys: [&str; 9] = [
        "DRI_PRIME",
        "PRESSURE_VESSEL_IMPORT_VARS",
        "__NV_PRIME_RENDER_OFFLOAD",
        "__GLX_VENDOR_LIBRARY_NAME",
        "__VK_LAYER_NV_optimus",
        "MESA_VK_DEVICE_SELECT",
        "MESA_VK_DEVICE_SELECT_FORCE_DEFAULT_DEVICE",
        "DXVK_FILTER_DEVICE_NAME",
        MARKER_KEY,
    ];
    let mut i: usize = 0;
    while i < 9
        invariant
            i <= 9,
            forall|j: int| 0 <= j < 9 ==> (#[trigger] keys@[j])@ == managed_keys()[j],
            forall|j: int| 0 <= j < i ==> managed_keys()[j] != k@,
        decreases 9 - i,
    {
        if seq_eq(chars_of(keys[i]).as_slice(), k) {
            assert(managed_keys()[i as int] == k@);
            return true;
        }
        i += 1;
    }
    false
}

/// The desired variables as `(name, value)` views.
pub open spec fn pair_views(d: Seq<(String, String)>) -> Seq<(Seq<char>, Seq<char>)> {
    d.map_values(|p: (String, String)| (p.0@, p.1@))
}

/// Index of the first pair of `d` named `k`.
pub open spec fn pair_index(d: Seq<(Seq<char>, Seq<char>)>, k: Seq<char>, i: int) -> Option<int>
    decreases d.len() - i,
{
    if i < 0 || i >= d.len() {
        None
    } else if d[i].0 == k {
        Some(i)
    } else {
        pair_index(d, k, i + 1)
    }
}

/// The value desired for `k`.
pub open spec fn desired_get(d: Seq<(Seq<char>, Seq<char>)>, k: Seq<char>) -> Option<Seq<char>> {
    match pair_index(d, k, 0) {
        Some(i) => Some(d[i].1),
        None => None,
    }
}

/// No name occurs twice.
pub open spec fn names_unique(d: Seq<(Seq<char>, Seq<char>)>) -> bool {
    forall|i: int, j: int| 0 <= i < j < d.len() ==> d[i].0 != d[j].0
}

/// `d` with `k` set to `v`: replaced in place, or appended.
pub open spec fn pairs_set(d: Seq<(Seq<char>, Seq<char>)>, k: Seq<char>, v: Seq<char>) -> Seq<
    (Seq<char>, Seq<char>),
> {
    match pair_index(d, k, 0) {
        Some(i) => d.update(i, (k, v)),
        None => d.push((k, v)),
    }
}

/// The variables of the first `n` `NAME=value` assignments, later ones
/// replacing earlier ones; assignments without `=` are skipped.
pub open spec fn env_fold(env: Seq<Seq<char>>, n: int) -> Seq<(Seq<char>, Seq<char>)>
    decreases n,
{
    if n <= 0 || n > env.len() {
        Seq::empty()
    } else {
        let d = env_fold(env, n - 1);
        let a = env[n - 1];
        match find_from(a, seq!['='], 0, a.len() as int) {
            Some(e) => pairs_set(d, a.subrange(0, e), a.subrange(e + 1, a.len() as int)),
            None => d,
        }
    }
}

/// The desired variables for the assignments `env`: each assignment, and
/// the marker when there is at least one.
pub open spec fn desired_of(env: Seq<Seq<char>>) -> Seq<(Seq<char>, Seq<char>)> {
    let d = env_fold(env, env.len() as int);
    if env.len() > 0 {
        pairs_set(d, MARKER_KEY@, "1"@)
    } else {
        d
    }
}

fn pair_index_exec(d: &Vec<(String, String)>, k: &[char]) -> (r: Option<usize>)
    ensures
        r is None <==> pair_index(pair_views(d@), k@, 0) is None,
        r matches Some(i) ==> pair_index(pair_views(d@), k@, 0) == Some(i as int) && i < d@.len(),
{
    let mut i: usize = 0;
    while i < d.len()
        invariant
            i <= d@.len(),
            pair_index(pair_views(d@), k@, 0) == pair_index(pair_views(d@), k@, i as int),
        decreases d@.len() - i,
    {
        if seq_eq(chars_of(d[i].0.as_str()).as_slice(), k) {
            return Some(i);
        }
        i += 1;
    }
    None
}

fn set_pair(d: &mut Vec<(String, String)>, k: &[char], v: &[char])
    ensures
        pair_views(final(d)@) == pairs_set(pair_views(old(d)@), k@, v@),
{
    let ghost before = pair_views(d@);
    match pair_index_exec(d, k) {
        Some(i) => {
            d.remove(i);
            d.insert(i, (string_of(k), string_of(v)));
            assert(pair_views(d@) =~= before.update(i as int, (k@, v@)));
        },
        None => {
            d.push((string_of(k), string_of(v)));
            assert(pair_views(d@) =~= before.push((k@, v@)));
        },
    }
}

/// The desired variables for `env_vars` (see `desired_of`).
pub fn desired_env(env_vars: &[String]) -> (r: Vec<(String, String)>)
    ensures
        pair_views(r@) == desired_of(views(env_vars@)),
{
    let mut d: Vec<(String, String)> = Vec::new();
    let eq: Vec<char> = vec!['='];
    assert(eq@ == seq!['=']);
    assert(pair_views(d@) =~= env_fold(views(env_vars@), 0));
    let mut n: usize = 0;
    while n < env_vars.len()
        invariant
            n <= env_vars@.len(),
            eq@ == seq!['='],
            pair_views(d@) == env_fold(views(env_vars@), n as int),
        decreases env_vars@.len() - n,
    {
        let a = chars_of(env_vars[n].as_str());
        assert(views(env_vars@)[n as int] == a@);
        match find_in(a.as_slice(), eq.as_slice(), 0, a.len()) {
            Some(e) => {
                set_pair(
                    &mut d,
                    slice_of(a.as_slice(), 0, e).as_slice(),
                    slice_of(a.as_slice(), e + 1, a.len()).as_slice(),
                );
            },
            None => {},
        }
        n += 1;
    }
    if env_vars.len() > 0 {
        set_pair(&mut d, chars_of(MARKER_KEY).as_slice(), chars_of("1").as_slice());
    }
    d
}

/// The `(key, value)` of an `enviromentOptions` item: a `KEY=value` string,
/// or an object with `key` (or `name`) and `value` strings.
pub open spec fn entry_pair(item: JsonValue) -> Option<(Seq<char>, Seq<char>)> {
    match item {
        JsonValue::Str(s) => match find_from(s@, seq!['='], 0, s@.len() as int) {
            Some(e) => Some((s@.subrange(0, e), s@.subrange(e + 1, s@.len() as int))),
            None => None,
        },
        _ => {
            let k = match get_str(item, "key"@) {
                Some(k) => Some(k),
                None => get_str(item, "name"@),
            };
            match (k, get_str(item, "value"@)) {
                (Some(k), Some(v)) => Some((k, v)),
                _ => None,
            }
        },
    }
}

/// Reads one `enviromentOptions` item (see `entry_pair`).
pub fn parse_env_option_entry(item: &JsonValue) -> (r: Option<(String, String)>)
    ensures
        match r {
            Some((k, v)) => entry_pair(*item) == Some((k@, v@)),
            None => entry_pair(*item) is None,
        },
{
    if let JsonValue::Str(s) = item {
        let c = chars_of(s.as_str());
        let eq: Vec<char> = vec!['='];
        assert(eq@ == seq!['=']);
        return match find_in(c.as_slice(), eq.as_slice(), 0, c.len()) {
            Some(e) => Some(
                (
                    string_of(slice_of(c.as_slice(), 0, e).as_slice()),
                    string_of(slice_of(c.as_slice(), e + 1, c.len()).as_slice()),
                ),
            ),
            None => None,
        };
    }
    let k = match json_get_str(item, "key") {
        Some(k) => Some(k),
        None => json_get_str(item, "name"),
    };
    match (k, json_get_str(item, "value")) {
        (Some(k), Some(v)) => Some((String::from_str(k.as_str()), String::from_str(v.as_str()))),
        _ => None,
    }
}

/// An `envVariables` array holds an item named `k` with value `v`.
pub open spec fn array_has(arr: Seq<JsonValue>, k: Seq<char>, v: Seq<char>) -> bool {
    exists|i: int|
        0 <= i < arr.len() && get_str(#[trigger] arr[i], "name"@) == Some(k) && get_str(
            arr[i],
            "value"@,
        ) == Some(v)
}

/// An `enviromentOptions` array holds the pair `(k, v)`.
pub open spec fn options_have(arr: Seq<JsonValue>, k: Seq<char>, v: Seq<char>) -> bool {
    exists|i: int| 0 <= i < arr.len() && entry_pair(#[trigger] arr[i]) == Some((k, v))
}

/// The top-level `envVariables` shows every desired variable.
pub open spec fn top_env_ok(root: JsonValue, d: Seq<(Seq<char>, Seq<char>)>) -> bool {
    match get(root, "envVariables"@) {
        Some(JsonValue::Object(m)) => forall|i: int|
            0 <= i < d.len() ==> obj_str(m@, #[trigger] d[i].0) == Some(d[i].1),
        Some(JsonValue::Array(arr)) => forall|i: int|
            0 <= i < d.len() ==> array_has(arr@, #[trigger] d[i].0, d[i].1),
        Some(_) => false,
        None => d.len() == 0,
    }
}

/// The game's `enviromentOptions` show every desired variable.
pub open spec fn game_env_ok(root: JsonValue, app_name: Seq<char>, d: Seq<(Seq<char>, Seq<char>)>) -> bool {
    match get(root, app_name) {
        Some(g) => g is Object && match get(g, "enviromentOptions"@) {
            Some(JsonValue::Array(arr)) => forall|i: int|
                0 <= i < d.len() ==> options_have(arr@, #[trigger] d[i].0, d[i].1),
            _ => d.len() == 0,
        },
        None => false,
    }
}

fn array_has_exec(arr: &Vec<JsonValue>, k: &String, v: &String) -> (r: bool)
    ensures
        r == array_has(arr@, k@, v@),
{
    let mut i: usize = 0;
    while i < arr.len()
        invariant
            i <= arr@.len(),
            forall|j: int|
                0 <= j < i ==> !(get_str(#[trigger] arr@[j], "name"@) == Some(k@) && get_str(
                    arr@[j],
                    "value"@,
                ) == Some(v@)),
        decreases arr@.len() - i,
    {
        let n = json_get_str(&arr[i], "name");
        let val = json_get_str(&arr[i], "value");
        let hit = match (n, val) {
            (Some(n), Some(val)) => seq_eq(chars_of(n.as_str()).as_slice(), chars_of(k.as_str()).as_slice())
                && seq_eq(chars_of(val.as_str()).as_slice(), chars_of(v.as_str()).as_slice()),
            _ => false,
        };
        if hit {
            return true;
        }
        i += 1;
    }
    false
}

fn options_have_exec(arr: &Vec<JsonValue>, k: &String, v: &String) -> (r: bool)
    ensures
        r == options_have(arr@, k@, v@),
{
    let mut i: usize = 0;
    while i < arr.len()
        invariant
            i <= arr@.len(),
            forall|j: int| 0 <= j < i ==> entry_pair(#[trigger] arr@[j]) != Some((k@, v@)),
        decreases arr@.len() - i,
    {
        let hit = match parse_env_option_entry(&arr[i]) {
            Some((ek, ev)) => seq_eq(chars_of(ek.as_str()).as_slice(), chars_of(k.as_str()).as_slice())
                && seq_eq(chars_of(ev.as_str()).as_slice(), chars_of(v.as_str()).as_slice()),
            None => false,
        };
        if hit {
            return true;
        }
        i += 1;
    }
    false
}

/// Whether a re-read config shows the desired variables in both places.
pub fn validate_env_in_heroic_json(json: &JsonValue, app_name: &str, env_vars: &[String]) -> (r: bool)
    ensures
        r == (top_env_ok(*json, desired_of(views(env_vars@))) && game_env_ok(
            *json,
            app_name@,
            desired_of(views(env_vars@)),
        )),
{
    let d = desired_env(env_vars);
    let ghost dv = pair_views(d@);
    let top_ok = match json_get(json, "envVariables") {
        Some(JsonValue::Object(m)) => {
            let mut ok = true;
            let mut i: usize = 0;
            while i < d.len()
                invariant
                    i <= d@.len(),
                    dv == pair_views(d@),
                    ok == forall|j: int|
                        0 <= j < i ==> obj_str(m@, #[trigger] dv[j].0) == Some(dv[j].1),
                decreases d@.len() - i,
            {
                assert(dv[i as int] == (d@[i as int].0@, d@[i as int].1@));
                let x = match entry_index_exec(m, chars_of(d[i].0.as_str()).as_slice()) {
                    Some(e) => match &m[e].1 {
                        JsonValue::Str(s) => seq_eq(
                            chars_of(s.as_str()).as_slice(),
                            chars_of(d[i].1.as_str()).as_slice(),
                        ),
                        _ => false,
                    },
                    None => false,
                };
                assert(x == (obj_str(m@, dv[i as int].0) == Some(dv[i as int].1)));
                ok = ok && x;
                i += 1;
            }
            ok
        },
        Some(JsonValue::Array(arr)) => {
            let mut ok = true;
            let mut i: usize = 0;
            while i < d.len()
                invariant
                    i <= d@.len(),
                    dv == pair_views(d@),
                    ok == forall|j: int| 0 <= j < i ==> array_has(arr@, #[trigger] dv[j].0, dv[j].1),
                decreases d@.len() - i,
            {
                assert(dv[i as int] == (d@[i as int].0@, d@[i as int].1@));
                let x = array_has_exec(arr, &d[i].0, &d[i].1);
                assert(x == array_has(arr@, dv[i as int].0, dv[i as int].1));
                ok = ok && x;
                i += 1;
            }
            ok
        },
        Some(_) => false,
        None => d.len() == 0,
    };
    let game_ok = match json_get(json, app_name) {
        Some(g) => match g {
            JsonValue::Object(_) => match json_get(g, "enviromentOptions") {
                Some(JsonValue::Array(arr)) => {
                    let mut ok = true;
                    let mut i: usize = 0;
                    while i < d.len()
                        invariant
                            i <= d@.len(),
                            dv == pair_views(d@),
                            ok == forall|j: int|
                                0 <= j < i ==> options_have(arr@, #[trigger] dv[j].0, dv[j].1),
                        decreases d@.len() - i,
                    {
                        assert(dv[i as int] == (d@[i as int].0@, d@[i as int].1@));
                        let x = options_have_exec(arr, &d[i].0, &d[i].1);
                        assert(x == options_have(arr@, dv[i as int].0, dv[i as int].1));
                        ok = ok && x;
                        i += 1;
                    }
                    ok
                },
                _ => d.len() == 0,
            },
            _ => false,
        },
        None => false,
    };
    top_ok && game_ok
}

/// A config file belongs to the game: its file stem, or its `appName`,
/// `gameId` or `title` string, equals the app name up to ASCII case, or
/// its raw text contains the app name.
pub open spec fn config_matches(json: JsonValue, raw: Seq<char>, stem: Seq<char>, app_name: Seq<char>) -> bool {
    eq_ignore_case(trim(stem), app_name) || (get_str(json, "appName"@) matches Some(v)
        && eq_ignore_case(v, app_name)) || (get_str(json, "gameId"@) matches Some(v)
        && eq_ignore_case(v, app_name)) || (get_str(json, "title"@) matches Some(v)
        && eq_ignore_case(v, app_name)) || crate::text::contains(raw, app_name)
}

fn field_matches(json: &JsonValue, key: &str, app: &[char]) -> (r: bool)
    ensures
        r == (get_str(*json, key@) matches Some(v) && eq_ignore_case(v, app@)),
{
    match json_get_str(json, key) {
        Some(v) => crate::text::range_eq_ignore_case_all(chars_of(v.as_str()).as_slice(), app),
        None => false,
    }
}

/// Whether a config file belongs to the game (see `config_matches`).
pub fn heroic_config_matches_game(json: &JsonValue, raw: &str, stem: &str, app_name: &str) -> (r: bool)
    ensures
        r == config_matches(*json, raw@, stem@, app_name@),
{
    let app = chars_of(app_name);
    let st = trim_all(chars_of(stem).as_slice());
    crate::text::range_eq_ignore_case_all(st.as_slice(), app.as_slice()) || field_matches(
        json,
        "appName",
        app.as_slice(),
    ) || field_matches(json, "gameId", app.as_slice()) || field_matches(
        json,
        "title",
        app.as_slice(),
    ) || crate::text::contains_seq(chars_of(raw).as_slice(), app.as_slice())
}

/// What `entry_index` finds: the first entry with key `k` at or after `i`.
proof fn lemma_entry_index(o: Seq<(String, JsonValue)>, k: Seq<char>, i: int)
    requires
        0 <= i,
    ensures
        match entry_index(o, k, i) {
            Some(j) => i <= j < o.len() && o[j].0@ == k && forall|m: int|
                i <= m < j ==> (#[trigger] o[m]).0@ != k,
            None => forall|m: int| i <= m < o.len() ==> (#[trigger] o[m]).0@ != k,
        },
    decreases o.len() - i,
{
    if i < o.len() && o[i].0@ != k {
        lemma_entry_index(o, k, i + 1);
    }
}

/// `entry_index` is determined by the keys alone.
proof fn lemma_entry_index_same_keys(o: Seq<(String, JsonValue)>, p: Seq<(String, JsonValue)>, k: Seq<char>)
    requires
        o.len() == p.len(),
        forall|m: int| 0 <= m < o.len() ==> (#[trigger] o[m]).0@ == p[m].0@,
    ensures
        entry_index(o, k, 0) == entry_index(p, k, 0),
{
    lemma_entry_index(o, k, 0);
    lemma_entry_index(p, k, 0);
    match entry_index(o, k, 0) {
        Some(j) => {
            assert(p[j].0@ == k);
            match entry_index(p, k, 0) {
                Some(j2) => {
                    if j2 < j {
                        assert(o[j2].0@ == k);
                    }
                },
                None => {},
            }
        },
        None => {
            match entry_index(p, k, 0) {
                Some(j2) => {
                    assert(o[j2].0@ == k);
                },
                None => {},
            }
        },
    }
}

/// Whether `o` has an entry with key `k` holding the string `v`.
fn obj_has_str(o: &Vec<(String, JsonValue)>, k: &String, v: &String) -> (r: bool)
    ensures
        r == (obj_str(o@, k@) == Some(v@)),
{
    match entry_index_exec(o, chars_of(k.as_str()).as_slice()) {
        Some(e) => match &o[e].1 {
            JsonValue::Str(s) => seq_eq(chars_of(s.as_str()).as_slice(), chars_of(v.as_str()).as_slice()),
            _ => false,
        },
        None => false,
    }
}

/// Sets key `k` of an object to `value`: replaces the first entry with
/// that key, or appends one.
pub fn obj_set(o: &mut Vec<(String, JsonValue)>, k: &String, value: JsonValue)
    ensures
        obj_get(final(o)@, k@) == Some(value),
        forall|k2: Seq<char>| k2 != k@ ==> obj_get(final(o)@, k2) == obj_get(old(o)@, k2),
{
    let ghost before = o@;
    match entry_index_exec(o, chars_of(k.as_str()).as_slice()) {
        Some(e) => {
            let (key, _) = o.remove(e);
            let ghost kept = key;
            o.insert(e, (key, value));
            proof {
                assert(o@ == before.remove(e as int).insert(e as int, (kept, value)));
                lemma_entry_index(before, k@, 0);
                assert(kept == before[e as int].0);
                assert forall|m: int| 0 <= m < before.len() && m != e implies #[trigger] o@[m]
                    == before[m] by {}
                assert(o@[e as int] == (kept, value));
                assert forall|m: int| 0 <= m < before.len() implies (#[trigger] before[m]).0@
                    == o@[m].0@ by {
                    if m != e {
                        assert(o@[m] == before[m]);
                    }
                }
                lemma_entry_index_same_keys(before, o@, k@);
                assert(entry_index(o@, k@, 0) == Some(e as int));
                assert(obj_get(o@, k@) == Some(value));
                assert forall|k2: Seq<char>| k2 != k@ implies obj_get(o@, k2) == obj_get(
                    before,
                    k2,
                ) by {
                    lemma_entry_index_same_keys(before, o@, k2);
                    lemma_entry_index(before, k2, 0);
                }
            }
        },
        None => {
            o.push((String::from_str(k.as_str()), value));
            proof {
                lemma_entry_index(before, k@, 0);
                lemma_entry_index(o@, k@, 0);
                assert forall|k2: Seq<char>| k2 != k@ implies obj_get(o@, k2) == obj_get(
                    before,
                    k2,
                ) by {
                    lemma_entry_index(before, k2, 0);
                    lemma_entry_index(o@, k2, 0);
                    match entry_index(o@, k2, 0) {
                        Some(j) => {
                            if j < before.len() {
                                match entry_index(before, k2, 0) {
                                    Some(j2) => {
                                        assert(o@[j2] == before[j2]);
                                    },
                                    None => {
                                        assert(before[j] == o@[j]);
                                    },
                                }
                            }
                        },
                        None => {
                            match entry_index(before, k2, 0) {
                                Some(j2) => {
                                    assert(o@[j2] == before[j2]);
                                },
                                None => {},
                            }
                        },
                    }
                }
                match entry_index(o@, k@, 0) {
                    Some(j) => {
                        if j < before.len() {
                            assert(before[j] == o@[j]);
                        }
                        assert(j == before.len());
                        assert(o@[j].1 == value);
                    },
                    None => {
                        assert(o@[before.len() as int].0@ == k@);
                    },
                }
                assert(obj_get(o@, k@) == Some(value));
            }
        },
    }
}

/// `k` is a managed name that is not desired: its variable is removed.
pub open spec fn removable(d: Seq<(Seq<char>, Seq<char>)>, k: Seq<char>) -> bool {
    is_managed(k) && desired_get(d, k) is None
}

proof fn lemma_pair_index(d: Seq<(Seq<char>, Seq<char>)>, k: Seq<char>, i: int)
    requires
        0 <= i,
    ensures
        match pair_index(d, k, i) {
            Some(j) => i <= j < d.len() && d[j].0 == k,
            None => forall|m: int| i <= m < d.len() ==> (#[trigger] d[m]).0 != k,
        },
    decreases d.len() - i,
{
    if i < d.len() && d[i].0 != k {
        lemma_pair_index(d, k, i + 1);
    }
}

/// Sets every desired variable of an `envVariables` object to its string;
/// returns whether any was missing or different.
pub fn upsert_env_object(env_obj: &mut Vec<(String, JsonValue)>, desired: &Vec<(String, String)>) -> (r:
    bool)
    requires
        names_unique(pair_views(desired@)),
    ensures
        forall|i: int|
            0 <= i < desired@.len() ==> obj_str(final(env_obj)@, #[trigger] pair_views(desired@)[i].0)
                == Some(pair_views(desired@)[i].1),
        forall|k: Seq<char>|
            desired_get(pair_views(desired@), k) is None ==> obj_get(final(env_obj)@, k) == obj_get(
                old(env_obj)@,
                k,
            ),
        !r ==> final(env_obj)@ == old(env_obj)@,
        (forall|i: int|
            0 <= i < desired@.len() ==> obj_str(old(env_obj)@, #[trigger] pair_views(desired@)[i].0)
                == Some(pair_views(desired@)[i].1)) ==> !r,
{
    let ghost dv = pair_views(desired@);
    let ghost start = env_obj@;
    let mut changed = false;
    let mut i: usize = 0;
    while i < desired.len()
        invariant
            i <= desired@.len(),
            dv == pair_views(desired@),
            names_unique(dv),
            forall|j: int| 0 <= j < i ==> obj_str(env_obj@, #[trigger] dv[j].0) == Some(dv[j].1),
            forall|k: Seq<char>|
                (forall|j: int| 0 <= j < i ==> dv[j].0 != k) ==> obj_get(env_obj@, k) == obj_get(
                    start,
                    k,
                ),
            !changed ==> env_obj@ == start,
            (forall|j: int| 0 <= j < desired@.len() ==> obj_str(start, #[trigger] dv[j].0) == Some(dv[j].1)) ==> !changed,
        decreases desired@.len() - i,
    {
        assert(dv[i as int] == (desired@[i as int].0@, desired@[i as int].1@));
        if !obj_has_str(env_obj, &desired[i].0, &desired[i].1) {
            proof {
                if !changed {
                    assert(obj_str(start, dv[i as int].0) != Some(dv[i as int].1));
                }
            }
            let v = JsonValue::Str(String::from_str(desired[i].1.as_str()));
            obj_set(env_obj, &desired[i].0, v);
            changed = true;
        }
        proof {
            assert forall|j: int| 0 <= j < i implies dv[j].0 != dv[i as int].0 by {}
        }
        i += 1;
    }
    proof {
        assert forall|k: Seq<char>| desired_get(dv, k) is None implies obj_get(env_obj@, k)
            == obj_get(start, k) by {
            lemma_pair_index(dv, k, 0);
        }
    }
    changed
}

/// The first `n` entries of `o` without those whose key is removable.
pub open spec fn kept_entries(o: Seq<(String, JsonValue)>, d: Seq<(Seq<char>, Seq<char>)>, n: int) -> Seq<
    (String, JsonValue),
>
    decreases n,
{
    if n <= 0 || n > o.len() {
        Seq::empty()
    } else if removable(d, o[n - 1].0@) {
        kept_entries(o, d, n - 1)
    } else {
        kept_entries(o, d, n - 1).push(o[n - 1])
    }
}

proof fn lemma_obj_get_push(p: Seq<(String, JsonValue)>, x: (String, JsonValue), k: Seq<char>)
    ensures
        obj_get(p.push(x), k) == match obj_get(p, k) {
            Some(v) => Some(v),
            None => if x.0@ == k {
                Some(x.1)
            } else {
                None
            },
        },
{
    lemma_entry_index(p, k, 0);
    lemma_entry_index(p.push(x), k, 0);
    match entry_index(p, k, 0) {
        Some(j) => {
            match entry_index(p.push(x), k, 0) {
                Some(j2) => {
                    if j2 < j {
                        assert(p.push(x)[j2] == p[j2]);
                    }
                    if j < j2 {
                        assert(p.push(x)[j] == p[j]);
                    }
                },
                None => {
                    assert(p.push(x)[j] == p[j]);
                },
            }
        },
        None => {
            match entry_index(p.push(x), k, 0) {
                Some(j2) => {
                    if j2 < p.len() {
                        assert(p.push(x)[j2] == p[j2]);
                    }
                },
                None => {
                    if x.0@ == k {
                        assert(p.push(x)[p.len() as int] == x);
                    }
                },
            }
        },
    }
}

proof fn lemma_kept_entries(o: Seq<(String, JsonValue)>, d: Seq<(Seq<char>, Seq<char>)>, n: int)
    requires
        0 <= n <= o.len(),
    ensures
        forall|m: int|
            0 <= m < kept_entries(o, d, n).len() ==> !removable(d, (#[trigger] kept_entries(o, d, n)[m]).0@),
        forall|k: Seq<char>| removable(d, k) ==> obj_get(kept_entries(o, d, n), k) is None,
        forall|k: Seq<char>|
            !removable(d, k) ==> obj_get(kept_entries(o, d, n), k) == obj_get(o.subrange(0, n), k),
        kept_entries(o, d, n).len() == n <==> forall|m: int| 0 <= m < n ==> !removable(d, (#[trigger] o[m]).0@),
        kept_entries(o, d, n).len() <= n,
        kept_entries(o, d, n).len() == n ==> kept_entries(o, d, n) == o.subrange(0, n),
    decreases n,
{
    if n > 0 {
        lemma_kept_entries(o, d, n - 1);
        let p = kept_entries(o, d, n - 1);
        let x = o[n - 1];
        assert(o.subrange(0, n) == o.subrange(0, n - 1).push(x));
        assert forall|k: Seq<char>| removable(d, k) implies obj_get(kept_entries(o, d, n), k) is None by {
            if !removable(d, x.0@) {
                lemma_obj_get_push(p, x, k);
            }
        }
        assert forall|k: Seq<char>| !removable(d, k) implies obj_get(kept_entries(o, d, n), k)
            == obj_get(o.subrange(0, n), k) by {
            lemma_obj_get_push(o.subrange(0, n - 1), x, k);
            if !removable(d, x.0@) {
                lemma_obj_get_push(p, x, k);
            }
        }
        if kept_entries(o, d, n).len() == n {
            assert(!removable(d, x.0@));
            assert(p.len() == n - 1);
        }
        if forall|m: int| 0 <= m < n ==> !removable(d, (#[trigger] o[m]).0@) {
            assert(!removable(d, o[n - 1].0@));
        }
    } else {
        assert(o.subrange(0, 0) =~= Seq::<(String, JsonValue)>::empty());
    }
}

fn removable_exec(desired: &Vec<(String, String)>, k: &String) -> (r: bool)
    ensures
        r == removable(pair_views(desired@), k@),
{
    let kc = chars_of(k.as_str());
    is_managed_key(kc.as_slice()) && pair_index_exec(desired, kc.as_slice()).is_none()
}

/// Removes from an `envVariables` object every managed variable that is
/// not desired; returns whether any was present.
pub fn remove_absent_managed(env_obj: &mut Vec<(String, JsonValue)>, desired: &Vec<(String, String)>) -> (r:
    bool)
    ensures
        final(env_obj)@ == kept_entries(old(env_obj)@, pair_views(desired@), old(env_obj)@.len() as int),
        forall|k: Seq<char>| removable(pair_views(desired@), k) ==> obj_get(final(env_obj)@, k) is None,
        forall|k: Seq<char>|
            !removable(pair_views(desired@), k) ==> obj_get(final(env_obj)@, k) == obj_get(
                old(env_obj)@,
                k,
            ),
        r == exists|m: int|
            0 <= m < old(env_obj)@.len() && removable(pair_views(desired@), (#[trigger] old(env_obj)@[m]).0@),
        !r ==> final(env_obj)@ == old(env_obj)@,
{
    let ghost start = env_obj@;
    let ghost dv = pair_views(desired@);
    let mut out: Vec<(String, JsonValue)> = Vec::new();
    let total = env_obj.len();
    let mut n: usize = 0;
    while env_obj.len() > 0
        invariant
            n + env_obj@.len() == start.len(),
            start.len() == total,
            env_obj@ == start.subrange(n as int, start.len() as int),
            out@ == kept_entries(start, dv, n as int),
            dv == pair_views(desired@),
        decreases env_obj@.len(),
    {
        let e = env_obj.remove(0);
        assert(e == start[n as int]);
        if !removable_exec(desired, &e.0) {
            out.push(e);
        }
        n += 1;
        assert(env_obj@ =~= start.subrange(n as int, start.len() as int));
    }
    let removed = out.len() != n;
    proof {
        lemma_kept_entries(start, dv, start.len() as int);
        assert(start.subrange(0, start.len() as int) == start);
    }
    *env_obj = out;
    removed
}

/// The `name` of an `envVariables` array item.
pub open spec fn item_name(j: JsonValue) -> Option<Seq<char>> {
    get_str(j, "name"@)
}

/// Every item named `k` holds `v`, and there is at least one.
pub open spec fn array_synced_for(arr: Seq<JsonValue>, k: Seq<char>, v: Seq<char>) -> bool {
    array_has(arr, k, v) && forall|j: int|
        0 <= j < arr.len() && item_name(#[trigger] arr[j]) == Some(k) ==> get_str(arr[j], "value"@)
            == Some(v)
}

/// `k` is the name of some desired variable.
pub open spec fn is_desired(d: Seq<(Seq<char>, Seq<char>)>, k: Seq<char>) -> bool {
    desired_get(d, k) is Some
}

fn set_item_value(item: JsonValue, v: &String) -> (r: JsonValue)
    requires
        item is Object,
    ensures
        r is Object,
        item_name(r) == item_name(item),
        get_str(r, "value"@) == Some(v@),
{
    match item {
        JsonValue::Object(mut o) => {
            let key = String::from_str("value");
            proof {
                reveal_strlit("value");
                reveal_strlit("name");
                assert("value"@.len() != "name"@.len());
            }
            obj_set(&mut o, &key, JsonValue::Str(String::from_str(v.as_str())));
            JsonValue::Object(o)
        },
        _ => item,
    }
}

fn new_env_item(k: &String, v: &String) -> (r: JsonValue)
    ensures
        item_name(r) == Some(k@),
        get_str(r, "value"@) == Some(v@),
{
    let mut o: Vec<(String, JsonValue)> = Vec::new();
    obj_set(&mut o, &String::from_str("name"), JsonValue::Str(String::from_str(k.as_str())));
    proof {
        reveal_strlit("value");
        reveal_strlit("name");
        assert("value"@.len() != "name"@.len());
    }
    obj_set(&mut o, &String::from_str("value"), JsonValue::Str(String::from_str(v.as_str())));
    JsonValue::Object(o)
}

fn strs_equal(a: Option<&String>, b: &String) -> (r: bool)
    ensures
        r == (match a {
            Some(x) => Some(x@),
            None => None,
        } == Some(b@)),
{
    match a {
        Some(x) => seq_eq(chars_of(x.as_str()).as_slice(), chars_of(b.as_str()).as_slice()),
        None => false,
    }
}

/// Sets one desired variable in an `envVariables` array: every item named
/// `k` gets value `v`; an item is appended when none is named `k`.
fn upsert_array_one(arr: &mut Vec<JsonValue>, k: &String, v: &String) -> (r: bool)
    ensures
        array_synced_for(final(arr)@, k@, v@),
        final(arr)@.len() >= old(arr)@.len(),
        forall|j: int|
            0 <= j < old(arr)@.len() && item_name(#[trigger] old(arr)@[j]) != Some(k@) ==> final(arr)@[j]
                == old(arr)@[j],
        forall|j: int| 0 <= j < old(arr)@.len() ==> item_name(#[trigger] final(arr)@[j]) == item_name(old(arr)@[j]),
        forall|j: int|
            old(arr)@.len() <= j < final(arr)@.len() ==> item_name(#[trigger] final(arr)@[j]) == Some(k@),
        !r ==> final(arr)@ == old(arr)@,
        array_synced_for(old(arr)@, k@, v@) ==> !r,
{
    let ghost start = arr@;
    let mut found = false;
    let mut changed = false;
    let mut j: usize = 0;
    while j < arr.len()
        invariant
            j <= arr@.len(),
            arr@.len() == start.len(),
            forall|m: int| 0 <= m < j && item_name(#[trigger] arr@[m]) == Some(k@) ==> get_str(arr@[m], "value"@) == Some(v@),
            forall|m: int| 0 <= m < start.len() && item_name(#[trigger] start[m]) != Some(k@) ==> arr@[m] == start[m],
            forall|m: int| 0 <= m < start.len() ==> item_name(#[trigger] arr@[m]) == item_name(start[m]),
            forall|m: int| j <= m < start.len() ==> arr@[m] == start[m],
            found == exists|m: int| 0 <= m < j && item_name(#[trigger] start[m]) == Some(k@),
            !changed ==> arr@ == start,
            array_synced_for(start, k@, v@) ==> !changed,
        decreases arr@.len() - j,
    {
        let named = strs_equal(json_get_str(&arr[j], "name"), k);
        assert(named == (item_name(start[j as int]) == Some(k@)));
        if named {
            found = true;
            let same = strs_equal(json_get_str(&arr[j], "value"), v);
            if !same {
                let ghost before = arr@;
                let item = arr.remove(j);
                let updated = set_item_value(item, v);
                arr.insert(j, updated);
                proof {
                    assert(arr@ == before.remove(j as int).insert(j as int, updated));
                    assert forall|m: int| 0 <= m < before.len() && m != j implies #[trigger] arr@[m]
                        == before[m] by {}
                    if array_synced_for(start, k@, v@) {
                        assert(item_name(start[j as int]) == Some(k@));
                    }
                }
                changed = true;
            }
        }
        j += 1;
    }
    if !found {
        let ghost before = arr@;
        arr.push(new_env_item(k, v));
        proof {
            if array_synced_for(start, k@, v@) {
                let m = choose|m: int|
                    0 <= m < start.len() && get_str(#[trigger] start[m], "name"@) == Some(k@)
                        && get_str(start[m], "value"@) == Some(v@);
                assert(item_name(arr@[m]) == Some(k@));
            }
            assert(array_has(arr@, k@, v@)) by {
                assert(item_name(arr@[before.len() as int]) == Some(k@));
            }
        }
        changed = true;
    } else {
        proof {
            let m = choose|m: int| 0 <= m < start.len() && item_name(#[trigger] start[m]) == Some(k@);
            assert(item_name(arr@[m]) == Some(k@));
            assert(get_str(arr@[m], "value"@) == Some(v@));
        }
    }
    changed
}

/// Sets every desired variable in an `envVariables` array (see
/// `upsert_array_one`); returns whether anything changed.
pub fn upsert_env_array(arr: &mut Vec<JsonValue>, desired: &Vec<(String, String)>) -> (r: bool)
    requires
        names_unique(pair_views(desired@)),
    ensures
        forall|i: int|
            0 <= i < desired@.len() ==> array_synced_for(
                final(arr)@,
                #[trigger] pair_views(desired@)[i].0,
                pair_views(desired@)[i].1,
            ),
        final(arr)@.len() >= old(arr)@.len(),
        forall|j: int|
            0 <= j < old(arr)@.len() && !(item_name(#[trigger] old(arr)@[j]) matches Some(n) && is_desired(pair_views(desired@), n))
                ==> final(arr)@[j] == old(arr)@[j],
        forall|j: int|
            old(arr)@.len() <= j < final(arr)@.len() ==> (item_name(#[trigger] final(arr)@[j]) matches Some(n)
                && is_desired(pair_views(desired@), n)),
        !r ==> final(arr)@ == old(arr)@,
        (forall|i: int|
            0 <= i < desired@.len() ==> array_synced_for(
                old(arr)@,
                #[trigger] pair_views(desired@)[i].0,
                pair_views(desired@)[i].1,
            )) ==> !r,
{
    let ghost dv = pair_views(desired@);
    let ghost start = arr@;
    let mut changed = false;
    let mut i: usize = 0;
    while i < desired.len()
        invariant
            i <= desired@.len(),
            dv == pair_views(desired@),
            names_unique(dv),
            arr@.len() >= start.len(),
            forall|m: int| 0 <= m < i ==> array_synced_for(arr@, #[trigger] dv[m].0, dv[m].1),
            forall|j: int|
                0 <= j < start.len() && !(item_name(#[trigger] start[j]) matches Some(n) && (exists|m: int| 0 <= m < i && dv[m].0 == n))
                    ==> arr@[j] == start[j],
            forall|j: int| 0 <= j < start.len() ==> item_name(#[trigger] arr@[j]) == item_name(start[j]),
            forall|j: int|
                start.len() <= j < arr@.len() ==> (item_name(#[trigger] arr@[j]) matches Some(n)
                    && exists|m: int| 0 <= m < i && dv[m].0 == n),
            !changed ==> arr@ == start,
            (forall|m: int| 0 <= m < desired@.len() ==> array_synced_for(start, #[trigger] dv[m].0, dv[m].1)) ==> !changed,
        decreases desired@.len() - i,
    {
        assert(dv[i as int] == (desired@[i as int].0@, desired@[i as int].1@));
        let ghost before = arr@;
        let c = upsert_array_one(arr, &desired[i].0, &desired[i].1);
        proof {
            assert forall|m: int| 0 <= m < i implies array_synced_for(arr@, #[trigger] dv[m].0, dv[m].1) by {
                assert(dv[m].0 != dv[i as int].0);
                let w = choose|w: int| 0 <= w < before.len() && get_str(#[trigger] before[w], "name"@) == Some(dv[m].0)
                    && get_str(before[w], "value"@) == Some(dv[m].1);
                assert(arr@[w] == before[w]);
                assert forall|j: int| 0 <= j < arr@.len() && item_name(#[trigger] arr@[j]) == Some(dv[m].0)
                    implies get_str(arr@[j], "value"@) == Some(dv[m].1) by {
                    if j < before.len() {
                        assert(item_name(before[j]) == Some(dv[m].0));
                        assert(arr@[j] == before[j]);
                    }
                }
            }
            assert forall|j: int| start.len() <= j < arr@.len() implies (item_name(#[trigger] arr@[j]) matches Some(n)
                && exists|m: int| 0 <= m < i + 1 && dv[m].0 == n) by {
                if j < before.len() {
                    assert(item_name(arr@[j]) == item_name(before[j]));
                } else {
                    assert(dv[i as int].0 == desired@[i as int].0@);
                }
            }
            assert forall|j: int|
                0 <= j < start.len() && !(item_name(#[trigger] start[j]) matches Some(n) && (exists|m: int| 0 <= m < i + 1 && dv[m].0 == n))
                    implies arr@[j] == start[j] by {
                assert(item_name(before[j]) == item_name(start[j]));
            }
            if forall|m: int| 0 <= m < desired@.len() ==> array_synced_for(start, #[trigger] dv[m].0, dv[m].1) {
                assert(array_synced_for(start, dv[i as int].0, dv[i as int].1));
            }
        }
        changed = changed || c;
        i += 1;
    }
    proof {
        assert forall|j: int|
            0 <= j < start.len() && !(item_name(#[trigger] start[j]) matches Some(n) && is_desired(dv, n))
                implies arr@[j] == start[j] by {
            match item_name(start[j]) {
                Some(n) => {
                    if exists|m: int| 0 <= m < desired@.len() && dv[m].0 == n {
                        let m = choose|m: int| 0 <= m < desired@.len() && dv[m].0 == n;
                        lemma_pair_index(dv, n, 0);
                    }
                },
                None => {},
            }
        }
        assert forall|j: int| start.len() <= j < arr@.len() implies (item_name(#[trigger] arr@[j]) matches Some(n)
            && is_desired(dv, n)) by {
            let n = item_name(arr@[j])->0;
            lemma_pair_index(dv, n, 0);
        }
    }
    changed
}

/// An array item is dropped: it is named by a removable variable.
pub open spec fn item_dropped(d: Seq<(Seq<char>, Seq<char>)>, j: JsonValue) -> bool {
    item_name(j) matches Some(n) && removable(d, n)
}

/// The first `n` items of `a` without the dropped ones.
pub open spec fn kept_items(a: Seq<JsonValue>, d: Seq<(Seq<char>, Seq<char>)>, n: int) -> Seq<JsonValue>
    decreases n,
{
    if n <= 0 || n > a.len() {
        Seq::empty()
    } else if item_dropped(d, a[n - 1]) {
        kept_items(a, d, n - 1)
    } else {
        kept_items(a, d, n - 1).push(a[n - 1])
    }
}

proof fn lemma_kept_items(a: Seq<JsonValue>, d: Seq<(Seq<char>, Seq<char>)>, n: int)
    requires
        0 <= n <= a.len(),
    ensures
        forall|m: int| 0 <= m < kept_items(a, d, n).len() ==> !item_dropped(d, #[trigger] kept_items(a, d, n)[m]),
        kept_items(a, d, n).len() == n ==> kept_items(a, d, n) == a.subrange(0, n),
        kept_items(a, d, n).len() == n <==> forall|m: int| 0 <= m < n ==> !item_dropped(d, #[trigger] a[m]),
        kept_items(a, d, n).len() <= n,
    decreases n,
{
    if n > 0 {
        lemma_kept_items(a, d, n - 1);
        let p = kept_items(a, d, n - 1);
        assert(a.subrange(0, n) =~= a.subrange(0, n - 1).push(a[n - 1]));
        if kept_items(a, d, n).len() == n {
            assert(!item_dropped(d, a[n - 1]));
        }
        if forall|m: int| 0 <= m < n ==> !item_dropped(d, #[trigger] a[m]) {
            assert(!item_dropped(d, a[n - 1]));
        }
    } else {
        assert(a.subrange(0, 0) =~= Seq::<JsonValue>::empty());
    }
}

proof fn lemma_kept_items_contains(a: Seq<JsonValue>, d: Seq<(Seq<char>, Seq<char>)>, n: int)
    requires
        0 <= n <= a.len(),
    ensures
        forall|m: int|
            0 <= m < n && !item_dropped(d, #[trigger] a[m]) ==> exists|w: int|
                0 <= w < kept_items(a, d, n).len() && #[trigger] kept_items(a, d, n)[w] == a[m],
    decreases n,
{
    if n > 0 {
        lemma_kept_items_contains(a, d, n - 1);
        let p = kept_items(a, d, n - 1);
        assert forall|m: int| 0 <= m < n && !item_dropped(d, #[trigger] a[m]) implies exists|w: int|
            0 <= w < kept_items(a, d, n).len() && #[trigger] kept_items(a, d, n)[w] == a[m] by {
            if m < n - 1 {
                let w = choose|w: int| 0 <= w < p.len() && #[trigger] p[w] == a[m];
                assert(kept_items(a, d, n)[w] == p[w]);
            } else {
                assert(kept_items(a, d, n)[p.len() as int] == a[m]);
            }
        }
    }
}

/// Removes from an `envVariables` array every item named by a managed
/// variable that is not desired; returns whether any was present.
pub fn remove_absent_managed_array(arr: &mut Vec<JsonValue>, desired: &Vec<(String, String)>) -> (r: bool)
    ensures
        final(arr)@ == kept_items(old(arr)@, pair_views(desired@), old(arr)@.len() as int),
        forall|m: int| 0 <= m < final(arr)@.len() ==> !item_dropped(pair_views(desired@), #[trigger] final(arr)@[m]),
        forall|m: int|
            0 <= m < old(arr)@.len() && !item_dropped(pair_views(desired@), #[trigger] old(arr)@[m]) ==> exists|w: int|
                0 <= w < final(arr)@.len() && #[trigger] final(arr)@[w] == old(arr)@[m],
        r == exists|m: int| 0 <= m < old(arr)@.len() && item_dropped(pair_views(desired@), #[trigger] old(arr)@[m]),
        !r ==> final(arr)@ == old(arr)@,
{
    let ghost start = arr@;
    let ghost dv = pair_views(desired@);
    let total = arr.len();
    let mut out: Vec<JsonValue> = Vec::new();
    let mut n: usize = 0;
    while arr.len() > 0
        invariant
            n + arr@.len() == start.len(),
            start.len() == total,
            arr@ == start.subrange(n as int, start.len() as int),
            out@ == kept_items(start, dv, n as int),
            dv == pair_views(desired@),
        decreases arr@.len(),
    {
        let item = arr.remove(0);
        assert(item == start[n as int]);
        let dropped = match json_get_str(&item, "name") {
            Some(name) => removable_exec(desired, name),
            None => false,
        };
        if !dropped {
            out.push(item);
        }
        n += 1;
        assert(arr@ =~= start.subrange(n as int, start.len() as int));
    }
    let removed = out.len() != n;
    proof {
        lemma_kept_items(start, dv, start.len() as int);
        lemma_kept_items_contains(start, dv, start.len() as int);
        assert(start.subrange(0, start.len() as int) == start);
    }
    *arr = out;
    removed
}

/// The `(key, value)` pairs read from the first `n` items of an array;
/// items that are not pairs are skipped.
pub open spec fn pairs_of(a: Seq<JsonValue>, n: int) -> Seq<(Seq<char>, Seq<char>)>
    decreases n,
{
    if n <= 0 || n > a.len() {
        Seq::empty()
    } else {
        match entry_pair(a[n - 1]) {
            Some(p) => pairs_of(a, n - 1).push(p),
            None => pairs_of(a, n - 1),
        }
    }
}

/// The pairs among the first `n` of `ps` whose names are not managed.
pub open spec fn unmanaged(ps: Seq<(Seq<char>, Seq<char>)>, n: int) -> Seq<(Seq<char>, Seq<char>)>
    decreases n,
{
    if n <= 0 || n > ps.len() {
        Seq::empty()
    } else if is_managed(ps[n - 1].0) {
        unmanaged(ps, n - 1)
    } else {
        unmanaged(ps, n - 1).push(ps[n - 1])
    }
}

/// The pairs a game's `enviromentOptions` should hold: its present pairs
/// with unmanaged names, then the desired variables.
pub open spec fn wanted_options(g: JsonValue, d: Seq<(Seq<char>, Seq<char>)>) -> Seq<(Seq<char>, Seq<char>)> {
    let present = match get(g, "enviromentOptions"@) {
        Some(JsonValue::Array(a)) => pairs_of(a@, a@.len() as int),
        _ => Seq::empty(),
    };
    unmanaged(present, present.len() as int) + d
}

/// `j` is exactly the item `{"key": p.0, "value": p.1}`.
pub open spec fn is_pair_item(j: JsonValue, p: (Seq<char>, Seq<char>)) -> bool {
    match j {
        JsonValue::Object(o) => o@.len() == 2 && o@[0].0@ == "key"@ && str_of(o@[0].1) == Some(p.0)
            && o@[1].0@ == "value"@ && str_of(o@[1].1) == Some(p.1),
        _ => false,
    }
}

/// `j` is exactly the array of these pair items.
pub open spec fn is_pair_array(j: Option<JsonValue>, ps: Seq<(Seq<char>, Seq<char>)>) -> bool {
    match j {
        Some(JsonValue::Array(a)) => a@.len() == ps.len() && forall|i: int|
            0 <= i < ps.len() ==> is_pair_item(#[trigger] a@[i], ps[i]),
        _ => false,
    }
}

fn pair_item(k: &[char], v: &[char]) -> (r: JsonValue)
    ensures
        is_pair_item(r, (k@, v@)),
{
    let mut o: Vec<(String, JsonValue)> = Vec::new();
    o.push((String::from_str("key"), JsonValue::Str(string_of(k))));
    o.push((String::from_str("value"), JsonValue::Str(string_of(v))));
    JsonValue::Object(o)
}

fn is_pair_item_exec(j: &JsonValue, k: &[char], v: &[char]) -> (r: bool)
    ensures
        r == is_pair_item(*j, (k@, v@)),
{
    match j {
        JsonValue::Object(o) => {
            if o.len() != 2 {
                return false;
            }
            let k0 = seq_eq(chars_of(o[0].0.as_str()).as_slice(), chars_of("key").as_slice());
            let k1 = seq_eq(chars_of(o[1].0.as_str()).as_slice(), chars_of("value").as_slice());
            let v0 = match &o[0].1 {
                JsonValue::Str(s) => seq_eq(chars_of(s.as_str()).as_slice(), k),
                _ => false,
            };
            let v1 = match &o[1].1 {
                JsonValue::Str(s) => seq_eq(chars_of(s.as_str()).as_slice(), v),
                _ => false,
            };
            k0 && v0 && k1 && v1
        },
        _ => false,
    }
}

/// The pairs a game's options should hold (see `wanted_options`).
fn wanted_options_exec(g: &JsonValue, desired: &Vec<(String, String)>) -> (r: Vec<(Vec<char>, Vec<char>)>)
    ensures
        r@.map_values(|p: (Vec<char>, Vec<char>)| (p.0@, p.1@)) == wanted_options(*g, pair_views(desired@)),
{
    let mut present: Vec<(Vec<char>, Vec<char>)> = Vec::new();
    let ghost pa: Seq<(Seq<char>, Seq<char>)> = Seq::empty();
    match json_get(g, "enviromentOptions") {
        Some(JsonValue::Array(a)) => {
            let mut n: usize = 0;
            while n < a.len()
                invariant
                    n <= a@.len(),
                    present@.map_values(|p: (Vec<char>, Vec<char>)| (p.0@, p.1@)) == pairs_of(a@, n as int),
                decreases a@.len() - n,
            {
                let ghost before = present@;
                match parse_env_option_entry(&a[n]) {
                    Some((k, v)) => {
                        present.push((chars_of(k.as_str()), chars_of(v.as_str())));
                        assert(present@.map_values(|p: (Vec<char>, Vec<char>)| (p.0@, p.1@)) =~= before.map_values(
                            |p: (Vec<char>, Vec<char>)| (p.0@, p.1@),
                        ).push((k@, v@)));
                    },
                    None => {},
                }
                n += 1;
            }
        },
        _ => {
            assert(present@.map_values(|p: (Vec<char>, Vec<char>)| (p.0@, p.1@)) =~= Seq::<(Seq<char>, Seq<char>)>::empty());
        },
    }
    let ghost pv = present@.map_values(|p: (Vec<char>, Vec<char>)| (p.0@, p.1@));
    let mut out: Vec<(Vec<char>, Vec<char>)> = Vec::new();
    let mut m: usize = 0;
    while m < present.len()
        invariant
            m <= present@.len(),
            pv == present@.map_values(|p: (Vec<char>, Vec<char>)| (p.0@, p.1@)),
            out@.map_values(|p: (Vec<char>, Vec<char>)| (p.0@, p.1@)) == unmanaged(pv, m as int),
        decreases present@.len() - m,
    {
        let ghost before = out@;
        if !is_managed_key(present[m].0.as_slice()) {
            out.push((slice_of(present[m].0.as_slice(), 0, present[m].0.len()), slice_of(present[m].1.as_slice(), 0, present[m].1.len())));
            assert(present@[m as int].0@.subrange(0, present@[m as int].0@.len() as int) == present@[m as int].0@);
            assert(present@[m as int].1@.subrange(0, present@[m as int].1@.len() as int) == present@[m as int].1@);
            assert(out@.map_values(|p: (Vec<char>, Vec<char>)| (p.0@, p.1@)) =~= before.map_values(
                |p: (Vec<char>, Vec<char>)| (p.0@, p.1@),
            ).push(pv[m as int]));
        }
        m += 1;
    }
    let ghost head = out@.map_values(|p: (Vec<char>, Vec<char>)| (p.0@, p.1@));
    let mut i: usize = 0;
    while i < desired.len()
        invariant
            i <= desired@.len(),
            out@.map_values(|p: (Vec<char>, Vec<char>)| (p.0@, p.1@)) == head + pair_views(desired@).subrange(0, i as int),
        decreases desired@.len() - i,
    {
        let ghost before = out@;
        out.push((chars_of(desired[i].0.as_str()), chars_of(desired[i].1.as_str())));
        assert(pair_views(desired@)[i as int] == (desired@[i as int].0@, desired@[i as int].1@));
        assert(out@.map_values(|p: (Vec<char>, Vec<char>)| (p.0@, p.1@)) =~= before.map_values(
            |p: (Vec<char>, Vec<char>)| (p.0@, p.1@),
        ).push(pair_views(desired@)[i as int]));
        assert(out@.map_values(|p: (Vec<char>, Vec<char>)| (p.0@, p.1@)) =~= head + pair_views(desired@).subrange(0, i + 1));
        i += 1;
    }
    assert(pair_views(desired@).subrange(0, desired@.len() as int) == pair_views(desired@));
    out
}

/// Replacing the value of the entry at `e` (keeping its key) changes the
/// object only at that key.
proof fn lemma_replace_entry(
    before: Seq<(String, JsonValue)>,
    after: Seq<(String, JsonValue)>,
    e: int,
    k: Seq<char>,
)
    requires
        entry_index(before, k, 0) == Some(e),
        after.len() == before.len(),
        after[e].0@ == k,
        forall|m: int| 0 <= m < before.len() && m != e ==> #[trigger] after[m] == before[m],
    ensures
        obj_get(after, k) == Some(after[e].1),
        forall|k2: Seq<char>| k2 != k ==> obj_get(after, k2) == obj_get(before, k2),
{
    lemma_entry_index(before, k, 0);
    assert forall|m: int| 0 <= m < before.len() implies (#[trigger] before[m]).0@ == after[m].0@ by {
        if m != e {
            assert(after[m] == before[m]);
        }
    }
    lemma_entry_index_same_keys(before, after, k);
    assert forall|k2: Seq<char>| k2 != k implies obj_get(after, k2) == obj_get(before, k2) by {
        lemma_entry_index_same_keys(before, after, k2);
        lemma_entry_index(before, k2, 0);
    }
}

/// Rewrites the game's `enviromentOptions` under the key `app_name` to the
/// wanted pairs (see `wanted_options`), when the game has an object there;
/// returns whether it was not already exactly that array.
pub fn upsert_game_enviroment_options(
    root: &mut Vec<(String, JsonValue)>,
    app_name: &str,
    desired: &Vec<(String, String)>,
) -> (r: bool)
    ensures
        match obj_get(old(root)@, app_name@) {
            Some(JsonValue::Object(go)) => obj_get(final(root)@, app_name@) matches Some(g2) && g2 is Object
                && is_pair_array(
                get(g2, "enviromentOptions"@),
                wanted_options(JsonValue::Object(go), pair_views(desired@)),
            ) && (forall|k: Seq<char>|
                k != "enviromentOptions"@ ==> get(g2, k) == get(JsonValue::Object(go), k)) && r == !is_pair_array(
                get(JsonValue::Object(go), "enviromentOptions"@),
                wanted_options(JsonValue::Object(go), pair_views(desired@)),
            ),
            _ => !r,
        },
        forall|k: Seq<char>| k != app_name@ ==> obj_get(final(root)@, k) == obj_get(old(root)@, k),
        !r ==> final(root)@ == old(root)@,
{
    let ghost before = root@;
    let e = match entry_index_exec(root, chars_of(app_name).as_slice()) {
        Some(e) => e,
        None => return false,
    };
    match &root[e].1 {
        JsonValue::Object(_) => {},
        _ => return false,
    }
    let ghost g = root@[e as int].1;
    let wanted = wanted_options_exec(&root[e].1, desired);
    let ghost wv = wanted@.map_values(|p: (Vec<char>, Vec<char>)| (p.0@, p.1@));
    let same = options_match(&root[e].1, &wanted);
    if same {
        return false;
    }
    let mut items: Vec<JsonValue> = Vec::new();
    let mut i: usize = 0;
    while i < wanted.len()
        invariant
            i <= wanted@.len(),
            items@.len() == i,
            wv == wanted@.map_values(|p: (Vec<char>, Vec<char>)| (p.0@, p.1@)),
            forall|m: int| 0 <= m < i ==> is_pair_item(#[trigger] items@[m], wv[m]),
        decreases wanted@.len() - i,
    {
        items.push(pair_item(wanted[i].0.as_slice(), wanted[i].1.as_slice()));
        assert(wv[i as int] == (wanted@[i as int].0@, wanted@[i as int].1@));
        i += 1;
    }
    let ghost items_v = JsonValue::Array(items);
    let (k0, gv) = root.remove(e);
    match gv {
        JsonValue::Object(mut go) => {
            let ghost go0 = go@;
            let opts = String::from_str("enviromentOptions");
            obj_set(&mut go, &opts, JsonValue::Array(items));
            let ghost g2 = JsonValue::Object(go);
            root.insert(e, (k0, JsonValue::Object(go)));
            proof {
                assert(root@ == before.update(e as int, (k0, g2)));
                lemma_entry_index(before, app_name@, 0);
                assert(k0 == before[e as int].0);
                lemma_replace_entry(before, root@, e as int, app_name@);
            }
        },
        _ => {
            root.insert(e, (k0, gv));
        },
    }
    true
}

proof fn lemma_pairs_set_unique(d: Seq<(Seq<char>, Seq<char>)>, k: Seq<char>, v: Seq<char>)
    requires
        names_unique(d),
    ensures
        names_unique(pairs_set(d, k, v)),
{
    lemma_pair_index(d, k, 0);
}

proof fn lemma_env_fold_unique(env: Seq<Seq<char>>, n: int)
    ensures
        names_unique(env_fold(env, n)),
    decreases n,
{
    if 0 < n <= env.len() {
        lemma_env_fold_unique(env, n - 1);
        let a = env[n - 1];
        match find_from(a, seq!['='], 0, a.len() as int) {
            Some(e) => lemma_pairs_set_unique(
                env_fold(env, n - 1),
                a.subrange(0, e),
                a.subrange(e + 1, a.len() as int),
            ),
            None => {},
        }
    }
}

/// The desired variables name each variable once.
pub proof fn lemma_desired_unique(env: Seq<Seq<char>>)
    ensures
        names_unique(desired_of(env)),
{
    lemma_env_fold_unique(env, env.len() as int);
    if env.len() > 0 {
        lemma_pairs_set_unique(env_fold(env, env.len() as int), MARKER_KEY@, "1"@);
    }
}

proof fn lemma_desired_get_at(d: Seq<(Seq<char>, Seq<char>)>, i: int)
    requires
        0 <= i < d.len(),
        names_unique(d),
    ensures
        desired_get(d, d[i].0) == Some(d[i].1),
{
    lemma_pair_index(d, d[i].0, 0);
}

/// The `envVariables` object holds no removable variable.
pub open spec fn env_clean(root: JsonValue, d: Seq<(Seq<char>, Seq<char>)>) -> bool {
    match get(root, "envVariables"@) {
        Some(JsonValue::Object(m)) => forall|k: Seq<char>| removable(d, k) ==> obj_get(m@, k) is None,
        Some(JsonValue::Array(a)) => forall|i: int| 0 <= i < a@.len() ==> !item_dropped(d, #[trigger] a@[i]),
        _ => true,
    }
}

/// A fresh `envVariables` object of the desired variables.
fn new_env_object(desired: &Vec<(String, String)>) -> (r: Vec<(String, JsonValue)>)
    requires
        names_unique(pair_views(desired@)),
    ensures
        forall|i: int|
            0 <= i < desired@.len() ==> obj_str(r@, #[trigger] pair_views(desired@)[i].0) == Some(
                pair_views(desired@)[i].1,
            ),
        forall|k: Seq<char>| desired_get(pair_views(desired@), k) is None ==> obj_get(r@, k) is None,
{
    let ghost dv = pair_views(desired@);
    let mut o: Vec<(String, JsonValue)> = Vec::new();
    let mut i: usize = 0;
    proof {
        assert forall|k: Seq<char>| obj_get(o@, k) is None by {
            lemma_entry_index(o@, k, 0);
        }
    }
    while i < desired.len()
        invariant
            i <= desired@.len(),
            dv == pair_views(desired@),
            names_unique(dv),
            forall|j: int| 0 <= j < i ==> obj_str(o@, #[trigger] dv[j].0) == Some(dv[j].1),
            forall|k: Seq<char>|
                (forall|j: int| 0 <= j < i ==> dv[j].0 != k) ==> obj_get(o@, k) is None,
        decreases desired@.len() - i,
    {
        assert(dv[i as int] == (desired@[i as int].0@, desired@[i as int].1@));
        obj_set(&mut o, &desired[i].0, JsonValue::Str(String::from_str(desired[i].1.as_str())));
        proof {
            assert forall|j: int| 0 <= j < i implies dv[j].0 != dv[i as int].0 by {}
        }
        i += 1;
    }
    proof {
        assert forall|k: Seq<char>| desired_get(dv, k) is None implies obj_get(o@, k) is None by {
            lemma_pair_index(dv, k, 0);
        }
    }
    o
}

proof fn lemma_pair_item_entry(j: JsonValue, p: (Seq<char>, Seq<char>))
    requires
        is_pair_item(j, p),
    ensures
        entry_pair(j) == Some(p),
{
    reveal_strlit("key");
    reveal_strlit("value");
    reveal_strlit("name");
    if let JsonValue::Object(o) = j {
        assert(o@[0].0@ != "value"@) by {
            assert("key"@.len() != "value"@.len());
        }
        assert(entry_index(o@, "key"@, 0) == Some(0int));
        assert(entry_index(o@, "value"@, 1) == Some(1int));
        assert(entry_index(o@, "value"@, 0) == Some(1int));
    }
}

proof fn lemma_pair_array_has(j: Option<JsonValue>, u: Seq<(Seq<char>, Seq<char>)>, d: Seq<(Seq<char>, Seq<char>)>)
    requires
        is_pair_array(j, u + d),
    ensures
        j matches Some(JsonValue::Array(a)) && forall|i: int| 0 <= i < d.len() ==> options_have(a@, #[trigger] d[i].0, d[i].1),
{
    if let Some(JsonValue::Array(a)) = j {
        assert forall|i: int| 0 <= i < d.len() implies options_have(a@, #[trigger] d[i].0, d[i].1) by {
            let w = u.len() + i;
            assert((u + d)[w] == d[i]);
            assert(is_pair_item(a@[w], (u + d)[w]));
            lemma_pair_item_entry(a@[w], d[i]);
        }
    }
}

proof fn lemma_no_removable_entry(m: Seq<(String, JsonValue)>, d: Seq<(Seq<char>, Seq<char>)>)
    requires
        forall|k: Seq<char>| removable(d, k) ==> obj_get(m, k) is None,
    ensures
        !(exists|j: int| 0 <= j < m.len() && removable(d, (#[trigger] m[j]).0@)),
{
    assert forall|j: int| 0 <= j < m.len() implies !removable(d, (#[trigger] m[j]).0@) by {
        let k = m[j].0@;
        lemma_entry_index(m, k, 0);
    }
}

/// The value of `envVariables` holds exactly the desired state.
pub open spec fn env_value_synced(v: JsonValue, d: Seq<(Seq<char>, Seq<char>)>) -> bool {
    match v {
        JsonValue::Object(m) => (forall|i: int|
            0 <= i < d.len() ==> obj_str(m@, #[trigger] d[i].0) == Some(d[i].1)) && !(exists|j: int|
            0 <= j < m@.len() && removable(d, (#[trigger] m@[j]).0@)),
        JsonValue::Array(a) => (forall|i: int|
            0 <= i < d.len() ==> array_synced_for(a@, #[trigger] d[i].0, d[i].1)) && !(exists|j: int|
            0 <= j < a@.len() && item_dropped(d, #[trigger] a@[j])),
        _ => false,
    }
}

/// An `envVariables` value keeps every entry that is neither removable nor
/// desired: object entries by key, array items as items.
pub open spec fn env_value_kept(v0: JsonValue, v1: JsonValue, d: Seq<(Seq<char>, Seq<char>)>) -> bool {
    match v0 {
        JsonValue::Object(m0) => match v1 {
            JsonValue::Object(m1) => forall|k: Seq<char>|
                !removable(d, k) && !is_desired(d, k) ==> obj_get(m1@, k) == obj_get(m0@, k),
            _ => false,
        },
        JsonValue::Array(a0) => match v1 {
            JsonValue::Array(a1) => forall|j: int|
                0 <= j < a0@.len() && !(item_name(#[trigger] a0@[j]) matches Some(n) && (is_desired(d, n)
                    || removable(d, n))) ==> among(a1@, a1@.len() as int, a0@[j]),
            _ => false,
        },
        _ => true,
    }
}

/// The user's `envVariables` entries survive from `before` to `after`.
pub open spec fn env_others_kept(before: JsonValue, after: JsonValue, d: Seq<(Seq<char>, Seq<char>)>) -> bool {
    match get(before, "envVariables"@) {
        Some(v0) => match get(after, "envVariables"@) {
            Some(v1) => env_value_kept(v0, v1, d),
            None => false,
        },
        None => true,
    }
}

/// Every root key other than `envVariables` and the game's keeps its value.
pub open spec fn other_root_kept(before: JsonValue, after: JsonValue, app_name: Seq<char>) -> bool {
    forall|k: Seq<char>|
        k != "envVariables"@ && k != app_name ==> get(after, k) == get(before, k)
}

/// Every key of the game object other than `enviromentOptions` keeps its value.
pub open spec fn game_others_kept(before: JsonValue, after: JsonValue, app_name: Seq<char>) -> bool {
    match get(before, app_name) {
        Some(JsonValue::Object(go)) => match get(after, app_name) {
            Some(g2) => forall|k: Seq<char>|
                k != "enviromentOptions"@ ==> get(g2, k) == get(JsonValue::Object(go), k),
            None => false,
        },
        _ => true,
    }
}

/// The config is an object already in the desired state.
pub open spec fn synced_json(j: JsonValue, app_name: Seq<char>, d: Seq<(Seq<char>, Seq<char>)>) -> bool {
    match j {
        JsonValue::Object(o) => env_synced(o@, d) && game_synced(o@, app_name, d),
        _ => false,
    }
}

/// Where the old config has a game object, the new one holds it with its
/// options rewritten to the wanted pairs.
pub open spec fn game_rewritten(
    before: JsonValue,
    after: JsonValue,
    app_name: Seq<char>,
    d: Seq<(Seq<char>, Seq<char>)>,
) -> bool {
    match get(before, app_name) {
        Some(JsonValue::Object(go)) => match get(after, app_name) {
            Some(g2) => is_pair_array(
                get(g2, "enviromentOptions"@),
                wanted_options(JsonValue::Object(go), d),
            ),
            None => false,
        },
        _ => true,
    }
}

/// A config already in the desired state shows it.
proof fn lemma_synced_ok(j: JsonValue, app_name: Seq<char>, d: Seq<(Seq<char>, Seq<char>)>)
    requires
        j matches JsonValue::Object(o) && env_synced(o@, d) && game_synced(o@, app_name, d),
    ensures
        top_env_ok(j, d),
        env_clean(j, d),
        (get(j, app_name) matches Some(JsonValue::Object(_))) ==> game_env_ok(j, app_name, d),
{
    if let JsonValue::Object(o) = j {
        match obj_get(o@, "envVariables"@) {
            Some(JsonValue::Object(m)) => {
                assert forall|k: Seq<char>| removable(d, k) implies obj_get(m@, k) is None by {
                    lemma_entry_index(m@, k, 0);
                    if let Some(x) = entry_index(m@, k, 0) {
                        assert(removable(d, m@[x].0@));
                    }
                }
            },
            _ => {},
        }
        match obj_get(o@, app_name) {
            Some(JsonValue::Object(go)) => {
                let g = JsonValue::Object(go);
                let present = match get(g, "enviromentOptions"@) {
                    Some(JsonValue::Array(a)) => pairs_of(a@, a@.len() as int),
                    _ => Seq::empty(),
                };
                lemma_pair_array_has(get(g, "enviromentOptions"@), unmanaged(present, present.len() as int), d);
            },
            _ => {},
        }
    }
}

/// `x` is one of the first `n` items of `a`.
pub open spec fn among(a: Seq<JsonValue>, n: int, x: JsonValue) -> bool {
    exists|m: int| 0 <= m < n && a[m] == x
}

proof fn lemma_kept_items_from(a: Seq<JsonValue>, d: Seq<(Seq<char>, Seq<char>)>, n: int)
    requires
        0 <= n <= a.len(),
    ensures
        forall|w: int| 0 <= w < kept_items(a, d, n).len() ==> among(a, n, #[trigger] kept_items(a, d, n)[w]),
    decreases n,
{
    if n > 0 {
        lemma_kept_items_from(a, d, n - 1);
        let p = kept_items(a, d, n - 1);
        assert forall|w: int| 0 <= w < kept_items(a, d, n).len() implies among(a, n, #[trigger] kept_items(a, d, n)[w]) by {
            if w < p.len() {
                assert(kept_items(a, d, n)[w] == p[w]);
                assert(among(a, n - 1, p[w]));
                let m = choose|m: int| 0 <= m < n - 1 && a[m] == p[w];
                assert(a[m] == kept_items(a, d, n)[w]);
            } else {
                assert(a[n - 1] == kept_items(a, d, n)[w]);
            }
        }
    }
}

proof fn lemma_pairs_of_pair_items(a: Seq<JsonValue>, ps: Seq<(Seq<char>, Seq<char>)>, n: int)
    requires
        a.len() == ps.len(),
        forall|i: int| 0 <= i < ps.len() ==> is_pair_item(#[trigger] a[i], ps[i]),
        0 <= n <= a.len(),
    ensures
        pairs_of(a, n) == ps.subrange(0, n),
    decreases n,
{
    if n > 0 {
        lemma_pairs_of_pair_items(a, ps, n - 1);
        lemma_pair_item_entry(a[n - 1], ps[n - 1]);
        assert(ps.subrange(0, n) =~= ps.subrange(0, n - 1).push(ps[n - 1]));
    } else {
        assert(ps.subrange(0, 0) =~= Seq::<(Seq<char>, Seq<char>)>::empty());
    }
}

proof fn lemma_unmanaged_add(x: Seq<(Seq<char>, Seq<char>)>, y: Seq<(Seq<char>, Seq<char>)>, n: int)
    requires
        0 <= n <= y.len(),
    ensures
        unmanaged(x + y.subrange(0, n), x.len() + n) == unmanaged(x, x.len() as int) + unmanaged(y, n),
    decreases n,
{
    if n > 0 {
        lemma_unmanaged_add(x, y, n - 1);
        let z = x + y.subrange(0, n);
        assert(z[x.len() + n - 1] == y[n - 1]);
        assert forall|i: int| 0 <= i < x.len() + n - 1 implies z[i] == (x + y.subrange(0, n - 1))[i] by {}
        lemma_unmanaged_prefix(z, x + y.subrange(0, n - 1), x.len() + n - 1);
    } else {
        assert(x + y.subrange(0, 0) =~= x);
    }
}

proof fn lemma_unmanaged_prefix(z: Seq<(Seq<char>, Seq<char>)>, w: Seq<(Seq<char>, Seq<char>)>, n: int)
    requires
        0 <= n <= z.len(),
        n <= w.len(),
        forall|i: int| 0 <= i < n ==> z[i] == w[i],
    ensures
        unmanaged(z, n) == unmanaged(w, n),
    decreases n,
{
    if n > 0 {
        lemma_unmanaged_prefix(z, w, n - 1);
    }
}

proof fn lemma_unmanaged_idem(x: Seq<(Seq<char>, Seq<char>)>, n: int)
    requires
        0 <= n <= x.len(),
    ensures
        unmanaged(unmanaged(x, n), unmanaged(x, n).len() as int) == unmanaged(x, n),
        forall|i: int| 0 <= i < unmanaged(x, n).len() ==> !is_managed((#[trigger] unmanaged(x, n)[i]).0),
    decreases n,
{
    if n > 0 {
        lemma_unmanaged_idem(x, n - 1);
        let p = unmanaged(x, n - 1);
        if !is_managed(x[n - 1].0) {
            let q = p.push(x[n - 1]);
            assert forall|i: int| 0 <= i < p.len() implies q[i] == p[i] by {}
            lemma_unmanaged_prefix(q, p, p.len() as int);
        }
    }
}

proof fn lemma_unmanaged_none(y: Seq<(Seq<char>, Seq<char>)>, n: int)
    requires
        0 <= n <= y.len(),
        forall|i: int| 0 <= i < y.len() ==> is_managed((#[trigger] y[i]).0),
    ensures
        unmanaged(y, n) == Seq::<(Seq<char>, Seq<char>)>::empty(),
    decreases n,
{
    if n > 0 {
        lemma_unmanaged_none(y, n - 1);
    }
}

/// Options rewritten to the wanted pairs are again what is wanted, when
/// every desired name is managed.
proof fn lemma_wanted_stable(g: JsonValue, g2: JsonValue, d: Seq<(Seq<char>, Seq<char>)>)
    requires
        is_pair_array(get(g2, "enviromentOptions"@), wanted_options(g, d)),
        forall|i: int| 0 <= i < d.len() ==> is_managed((#[trigger] d[i]).0),
    ensures
        wanted_options(g2, d) == wanted_options(g, d),
{
    let w = wanted_options(g, d);
    let present = match get(g, "enviromentOptions"@) {
        Some(JsonValue::Array(a)) => pairs_of(a@, a@.len() as int),
        _ => Seq::empty(),
    };
    let u = unmanaged(present, present.len() as int);
    if let Some(JsonValue::Array(a2)) = get(g2, "enviromentOptions"@) {
        lemma_pairs_of_pair_items(a2@, w, a2@.len() as int);
        assert(w.subrange(0, w.len() as int) == w);
    }
    lemma_unmanaged_add(u, d, d.len() as int);
    assert(d.subrange(0, d.len() as int) == d);
    lemma_unmanaged_idem(present, present.len() as int);
    lemma_unmanaged_none(d, d.len() as int);
    assert(u + Seq::<(Seq<char>, Seq<char>)>::empty() =~= u);
}

/// Merges the variables `env_vars` into a Heroic game config: both
/// `envVariables` (kept as object or array, created as an object
/// otherwise) and `<app_name>.enviromentOptions` end up holding every
/// desired variable and no managed variable that is not desired; other
/// entries are kept. Returns whether anything changed; a root that is not an
/// object is a parse failure and is left alone.
pub fn apply_env_to_heroic_json(json: &mut JsonValue, app_name: &str, env_vars: &[String]) -> (r: Result<
    bool,
    PatchError,
>)
    ensures
        !(*old(json) is Object) ==> r == Err::<bool, PatchError>(PatchError::ParseFailure) && *final(json) == *old(json),
        *old(json) is Object ==> r is Ok && *final(json) is Object,
        r matches Ok(changed) ==> {
            let d = desired_of(views(env_vars@));
            &&& app_name@ != "envVariables"@ ==> top_env_ok(*final(json), d) && env_clean(*final(json), d)
            &&& (get(*old(json), app_name@) matches Some(JsonValue::Object(_))) ==> game_env_ok(
                *final(json),
                app_name@,
                d,
            )
        },
        *old(json) matches JsonValue::Object(o) ==> r == Ok::<bool, PatchError>(
            !(env_synced(o@, desired_of(views(env_vars@))) && game_synced(
                o@,
                app_name@,
                desired_of(views(env_vars@)),
            )),
        ),
        r == Ok::<bool, PatchError>(false) ==> *final(json) == *old(json),
        (r is Ok && app_name@ != "envVariables"@ && forall|i: int|
            0 <= i < desired_of(views(env_vars@)).len() ==> is_managed(
                (#[trigger] desired_of(views(env_vars@))[i]).0,
            )) ==> synced_json(*final(json), app_name@, desired_of(views(env_vars@))),
        app_name@ != "envVariables"@ ==> game_rewritten(
            *old(json),
            *final(json),
            app_name@,
            desired_of(views(env_vars@)),
        ),
        other_root_kept(*old(json), *final(json), app_name@),
        app_name@ != "envVariables"@ ==> game_others_kept(*old(json), *final(json), app_name@),
        app_name@ != "envVariables"@ ==> env_others_kept(
            *old(json),
            *final(json),
            desired_of(views(env_vars@)),
        ),
{
    let ghost start = *json;
    let mut taken = JsonValue::Null;
    core::mem::swap(json, &mut taken);
    let mut root = match taken {
        JsonValue::Object(o) => o,
        other => {
            *json = other;
            return Err(PatchError::ParseFailure);
        },
    };
    let ghost root0 = root@;
    let desired = desired_env(env_vars);
    let ghost d = pair_views(desired@);
    proof {
        lemma_desired_unique(views(env_vars@));
    }
    if env_synced_exec(&root, &desired) && game_synced_exec(&root, app_name, &desired) {
        proof {
            lemma_synced_ok(start, app_name@, d);
        }
        *json = JsonValue::Object(root);
        assert(synced_json(*json, app_name@, d));
        proof {
            if let Some(JsonValue::Array(a0)) = get(start, "envVariables"@) {
                assert forall|j: int| 0 <= j < a0@.len() implies among(a0@, a0@.len() as int, #[trigger] a0@[j]) by {}
            }
        }
        return Ok(false);
    }
    let mut changed = false;
    let env_key = String::from_str("envVariables");
    match entry_index_exec(&root, chars_of("envVariables").as_slice()) {
        Some(e) => {
            let (k0, v) = root.remove(e);
            proof {
                lemma_entry_index(root0, "envVariables"@, 0);
            }
            let ghost v_old = v;
            let new_v = match v {
                JsonValue::Object(mut m) => {
                    let ghost m0 = m@;
                    let c1 = upsert_env_object(&mut m, &desired);
                    let c2 = remove_absent_managed(&mut m, &desired);
                    proof {
                        assert forall|k: Seq<char>| !removable(d, k) && !is_desired(d, k) implies obj_get(m@, k) == obj_get(m0, k) by {}
                        assert forall|i: int| 0 <= i < d.len() implies obj_str(m@, #[trigger] d[i].0) == Some(d[i].1) by {
                            lemma_desired_get_at(d, i);
                        }
                        lemma_no_removable_entry(m@, d);
                    }
                    changed = c1 || c2;
                    JsonValue::Object(m)
                },
                JsonValue::Array(mut a) => {
                    let ghost a0 = a@;
                    let c1 = upsert_env_array(&mut a, &desired);
                    let ghost a1 = a@;
                    let c2 = remove_absent_managed_array(&mut a, &desired);
                    proof {
                        assert forall|i: int| 0 <= i < d.len() implies array_has(a@, #[trigger] d[i].0, d[i].1) by {
                            lemma_desired_get_at(d, i);
                            let w = choose|w: int| 0 <= w < a1.len() && get_str(#[trigger] a1[w], "name"@) == Some(d[i].0)
                                && get_str(a1[w], "value"@) == Some(d[i].1);
                            assert(!item_dropped(d, a1[w]));
                            let w2 = choose|w2: int| 0 <= w2 < a@.len() && #[trigger] a@[w2] == a1[w];
                            assert(get_str(a@[w2], "name"@) == Some(d[i].0));
                        }
                        lemma_kept_items_from(a1, d, a1.len() as int);
                        assert(a@ == kept_items(a1, d, a1.len() as int));
                        assert forall|j: int|
                            0 <= j < a0.len() && !(item_name(#[trigger] a0[j]) matches Some(n) && (is_desired(d, n)
                                || removable(d, n))) implies among(a@, a@.len() as int, a0[j]) by {
                            assert(a1[j] == a0[j]);
                            assert(!item_dropped(d, a1[j]));
                            let w = choose|w: int| 0 <= w < a@.len() && #[trigger] a@[w] == a1[j];
                        }
                        assert forall|i: int| 0 <= i < d.len() implies array_synced_for(a@, #[trigger] d[i].0, d[i].1) by {
                            assert(array_synced_for(a1, pair_views(desired@)[i].0, pair_views(desired@)[i].1));
                            assert forall|j: int| 0 <= j < a@.len() && item_name(#[trigger] a@[j]) == Some(d[i].0)
                                implies get_str(a@[j], "value"@) == Some(d[i].1) by {
                                assert(among(a1, a1.len() as int, a@[j]));
                                let m = choose|m: int| 0 <= m < a1.len() && a1[m] == a@[j];
                                assert(item_name(a1[m]) == Some(d[i].0));
                            }
                        }
                    }
                    changed = c1 || c2;
                    JsonValue::Array(a)
                },
                _ => {
                    changed = true;
                    let fresh = new_env_object(&desired);
                    proof {
                        assert forall|k: Seq<char>| removable(d, k) implies obj_get(fresh@, k) is None by {}
                        lemma_no_removable_entry(fresh@, d);
                    }
                    JsonValue::Object(fresh)
                },
            };
            assert(env_value_synced(new_v, d));
            assert(env_value_kept(v_old, new_v, d));
            let ghost nv = new_v;
            let ghost kk = k0;
            root.insert(e, (k0, new_v));
            proof {
                assert(root@ == root0.update(e as int, (kk, nv)));
                lemma_replace_entry(root0, root@, e as int, "envVariables"@);
            }
        },
        None => {
            let obj = new_env_object(&desired);
            proof {
                assert forall|k: Seq<char>| removable(d, k) implies obj_get(obj@, k) is None by {}
                lemma_no_removable_entry(obj@, d);
            }
            let ghost ov = JsonValue::Object(obj);
            obj_set(&mut root, &env_key, JsonValue::Object(obj));
            assert(env_value_synced(ov, d));
            assert(obj_get(root@, "envVariables"@) == Some(ov));
            changed = true;
        },
    }
    assert(env_synced(root@, d));
    let ghost mid = root@;
    assert(forall|k: Seq<char>| k != "envVariables"@ ==> obj_get(mid, k) == obj_get(root0, k));
    let c3 = upsert_game_enviroment_options(&mut root, app_name, &desired);
    proof {
        match obj_get(mid, app_name@) {
            Some(JsonValue::Object(go)) => {
                let g2 = obj_get(root@, app_name@)->0;
                lemma_pair_array_has(get(g2, "enviromentOptions"@), unmanaged(
                    match get(JsonValue::Object(go), "enviromentOptions"@) {
                        Some(JsonValue::Array(a)) => pairs_of(a@, a@.len() as int),
                        _ => Seq::empty(),
                    },
                    match get(JsonValue::Object(go), "enviromentOptions"@) {
                        Some(JsonValue::Array(a)) => pairs_of(a@, a@.len() as int).len() as int,
                        _ => 0,
                    },
                ), d);
            },
            _ => {},
        }
        if app_name@ != "envVariables"@ {
            assert(obj_get(root@, "envVariables"@) == obj_get(mid, "envVariables"@));
            assert(env_synced(root@, d));
            assert(obj_get(mid, app_name@) == obj_get(root0, app_name@));
            if forall|i: int| 0 <= i < d.len() ==> is_managed((#[trigger] d[i]).0) {
                match obj_get(mid, app_name@) {
                    Some(JsonValue::Object(go)) => {
                        let g2 = obj_get(root@, app_name@)->0;
                        lemma_wanted_stable(JsonValue::Object(go), g2, d);
                    },
                    _ => {},
                }
            }
        }
    }
    *json = JsonValue::Object(root);
    Ok(true)
}

fn options_match(g: &JsonValue, wanted: &Vec<(Vec<char>, Vec<char>)>) -> (r: bool)
    ensures
        r == is_pair_array(
            get(*g, "enviromentOptions"@),
            wanted@.map_values(|p: (Vec<char>, Vec<char>)| (p.0@, p.1@)),
        ),
{
    let ghost wv = wanted@.map_values(|p: (Vec<char>, Vec<char>)| (p.0@, p.1@));
    match json_get(g, "enviromentOptions") {
        Some(JsonValue::Array(a)) => {
            if a.len() != wanted.len() {
                false
            } else {
                let mut ok = true;
                let mut i: usize = 0;
                while i < a.len()
                    invariant
                        i <= a@.len(),
                        a@.len() == wanted@.len(),
                        wv == wanted@.map_values(|p: (Vec<char>, Vec<char>)| (p.0@, p.1@)),
                        ok == forall|m: int| 0 <= m < i ==> is_pair_item(#[trigger] a@[m], wv[m]),
                    decreases a@.len() - i,
                {
                    let x = is_pair_item_exec(&a[i], wanted[i].0.as_slice(), wanted[i].1.as_slice());
                    assert(wv[i as int] == (wanted@[i as int].0@, wanted@[i as int].1@));
                    ok = ok && x;
                    i += 1;
                }
                ok
            }
        },
        _ => false,
    }
}

/// The `envVariables` of a root object already hold exactly the desired
/// state: every desired variable with its value, and no removable one.
pub open spec fn env_synced(root: Seq<(String, JsonValue)>, d: Seq<(Seq<char>, Seq<char>)>) -> bool {
    match obj_get(root, "envVariables"@) {
        Some(JsonValue::Object(m)) => (forall|i: int|
            0 <= i < d.len() ==> obj_str(m@, #[trigger] d[i].0) == Some(d[i].1)) && !(exists|j: int|
            0 <= j < m@.len() && removable(d, (#[trigger] m@[j]).0@)),
        Some(JsonValue::Array(a)) => (forall|i: int|
            0 <= i < d.len() ==> array_synced_for(a@, #[trigger] d[i].0, d[i].1)) && !(exists|j: int|
            0 <= j < a@.len() && item_dropped(d, #[trigger] a@[j])),
        _ => false,
    }
}

/// The game's options already are the wanted pairs (or there is no game
/// object to update).
pub open spec fn game_synced(root: Seq<(String, JsonValue)>, app_name: Seq<char>, d: Seq<(Seq<char>, Seq<char>)>) -> bool {
    match obj_get(root, app_name) {
        Some(JsonValue::Object(go)) => is_pair_array(
            get(JsonValue::Object(go), "enviromentOptions"@),
            wanted_options(JsonValue::Object(go), d),
        ),
        _ => true,
    }
}

fn array_synced_for_exec(a: &Vec<JsonValue>, k: &String, v: &String) -> (r: bool)
    ensures
        r == array_synced_for(a@, k@, v@),
{
    if !array_has_exec(a, k, v) {
        return false;
    }
    let mut j: usize = 0;
    while j < a.len()
        invariant
            j <= a@.len(),
            forall|m: int|
                0 <= m < j && item_name(#[trigger] a@[m]) == Some(k@) ==> get_str(a@[m], "value"@) == Some(v@),
        decreases a@.len() - j,
    {
        if strs_equal(json_get_str(&a[j], "name"), k) && !strs_equal(json_get_str(&a[j], "value"), v) {
            return false;
        }
        j += 1;
    }
    true
}

fn env_synced_exec(root: &Vec<(String, JsonValue)>, desired: &Vec<(String, String)>) -> (r: bool)
    ensures
        r == env_synced(root@, pair_views(desired@)),
{
    let ghost d = pair_views(desired@);
    let env = match entry_index_exec(root, chars_of("envVariables").as_slice()) {
        Some(e) => &root[e].1,
        None => return false,
    };
    assert(obj_get(root@, "envVariables"@) == Some(*env));
    match env {
        JsonValue::Object(m) => {
            let mut i: usize = 0;
            while i < desired.len()
                invariant
                    i <= desired@.len(),
                    d == pair_views(desired@),
                    obj_get(root@, "envVariables"@) == Some(JsonValue::Object(*m)),
                    forall|j: int| 0 <= j < i ==> obj_str(m@, #[trigger] d[j].0) == Some(d[j].1),
                decreases desired@.len() - i,
            {
                assert(d[i as int] == (desired@[i as int].0@, desired@[i as int].1@));
                if !obj_has_str(m, &desired[i].0, &desired[i].1) {
                    assert(obj_str(m@, d[i as int].0) != Some(d[i as int].1));
                    assert(!(forall|j: int| 0 <= j < d.len() ==> obj_str(m@, #[trigger] d[j].0) == Some(d[j].1)));
                    return false;
                }
                i += 1;
            }
            let mut j: usize = 0;
            while j < m.len()
                invariant
                    j <= m@.len(),
                    d == pair_views(desired@),
                    obj_get(root@, "envVariables"@) == Some(JsonValue::Object(*m)),
                    forall|i: int| 0 <= i < d.len() ==> obj_str(m@, #[trigger] d[i].0) == Some(d[i].1),
                    forall|x: int| 0 <= x < j ==> !removable(d, (#[trigger] m@[x]).0@),
                decreases m@.len() - j,
            {
                if removable_exec(desired, &m[j].0) {
                    return false;
                }
                j += 1;
            }
            true
        },
        JsonValue::Array(a) => {
            let mut i: usize = 0;
            while i < desired.len()
                invariant
                    i <= desired@.len(),
                    d == pair_views(desired@),
                    obj_get(root@, "envVariables"@) == Some(JsonValue::Array(*a)),
                    forall|j: int| 0 <= j < i ==> array_synced_for(a@, #[trigger] d[j].0, d[j].1),
                decreases desired@.len() - i,
            {
                assert(d[i as int] == (desired@[i as int].0@, desired@[i as int].1@));
                if !array_synced_for_exec(a, &desired[i].0, &desired[i].1) {
                    assert(!array_synced_for(a@, d[i as int].0, d[i as int].1));
                    assert(!(forall|j: int| 0 <= j < d.len() ==> array_synced_for(a@, #[trigger] d[j].0, d[j].1)));
                    return false;
                }
                i += 1;
            }
            let mut j: usize = 0;
            while j < a.len()
                invariant
                    j <= a@.len(),
                    d == pair_views(desired@),
                    obj_get(root@, "envVariables"@) == Some(JsonValue::Array(*a)),
                    forall|i: int| 0 <= i < d.len() ==> array_synced_for(a@, #[trigger] d[i].0, d[i].1),
                    forall|x: int| 0 <= x < j ==> !item_dropped(d, #[trigger] a@[x]),
                decreases a@.len() - j,
            {
                let dropped = match json_get_str(&a[j], "name") {
                    Some(name) => removable_exec(desired, name),
                    None => false,
                };
                if dropped {
                    return false;
                }
                j += 1;
            }
            true
        },
        _ => false,
    }
}

fn game_synced_exec(root: &Vec<(String, JsonValue)>, app_name: &str, desired: &Vec<(String, String)>) -> (r: bool)
    ensures
        r == game_synced(root@, app_name@, pair_views(desired@)),
{
    let e = match entry_index_exec(root, chars_of(app_name).as_slice()) {
        Some(e) => e,
        None => return true,
    };
    match &root[e].1 {
        JsonValue::Object(_) => {
            let wanted = wanted_options_exec(&root[e].1, desired);
            options_match(&root[e].1, &wanted)
        },
        _ => true,
    }
}

/// The indices below `n` whose stem matches the app name (`want`) or does
/// not (`!want`), in order.
pub open spec fn indices_where(stems: Seq<Seq<char>>, app_name: Seq<char>, want: bool, n: int) -> Seq<usize>
    decreases n,
{
    if n <= 0 || n > stems.len() {
        Seq::empty()
    } else if eq_ignore_case(stems[n - 1], app_name) == want {
        indices_where(stems, app_name, want, n - 1).push((n - 1) as usize)
    } else {
        indices_where(stems, app_name, want, n - 1)
    }
}

/// The order in which candidate config files are tried: those whose file
/// stem equals the app name up to ASCII case first, each group in the
/// given order.
pub fn order_heroic_candidates(stems: &[String], app_name: &str) -> (r: Vec<usize>)
    ensures
        r@ == indices_where(views(stems@), app_name@, true, stems@.len() as int) + indices_where(
            views(stems@),
            app_name@,
            false,
            stems@.len() as int,
        ),
{
    let app = chars_of(app_name);
    let mut first: Vec<usize> = Vec::new();
    let mut rest: Vec<usize> = Vec::new();
    let mut i: usize = 0;
    while i < stems.len()
        invariant
            i <= stems@.len(),
            app@ == app_name@,
            first@ == indices_where(views(stems@), app_name@, true, i as int),
            rest@ == indices_where(views(stems@), app_name@, false, i as int),
        decreases stems@.len() - i,
    {
        assert(views(stems@)[i as int] == stems@[i as int]@);
        if crate::text::range_eq_ignore_case_all(chars_of(stems[i].as_str()).as_slice(), app.as_slice()) {
            first.push(i);
        } else {
            rest.push(i);
        }
        i += 1;
    }
    let mut k: usize = 0;
    let ghost head = first@;
    while k < rest.len()
        invariant
            k <= rest@.len(),
            first@ == head + rest@.subrange(0, k as int),
        decreases rest@.len() - k,
    {
        first.push(rest[k]);
        assert(first@ =~= head + rest@.subrange(0, k + 1));
        k += 1;
    }
    assert(rest@.subrange(0, rest@.len() as int) == rest@);
    first
}

/// The report for one candidate file: whether it belongs to the game, and
/// whether its re-read JSON shows the desired variables.
pub fn assess_heroic_config(matched: bool, reread: &JsonValue, app_name: &str, env_vars: &[String]) -> (r: crate::error::FileReport)
    ensures
        r.matched == matched,
        r.validated == (matched && top_env_ok(*reread, desired_of(views(env_vars@))) && game_env_ok(
            *reread,
            app_name@,
            desired_of(views(env_vars@)),
        )),
{
    let validated = matched && validate_env_in_heroic_json(reread, app_name, env_vars);
    crate::error::FileReport { matched, validated }
}

/// After a merge for the default GPU (no variables), neither representation
/// of the game's environment holds a managed variable: the region this
/// library owns is gone, and the user's own variables stay.
pub proof fn lemma_default_clears_managed(j: JsonValue, app_name: Seq<char>)
    requires
        synced_json(j, app_name, desired_of(Seq::empty())),
    ensures
        match get(j, "envVariables"@) {
            Some(JsonValue::Object(m)) => forall|k: Seq<char>| is_managed(k) ==> obj_get(m@, k) is None,
            Some(JsonValue::Array(a)) => forall|i: int|
                0 <= i < a@.len() ==> !(item_name(#[trigger] a@[i]) matches Some(n) && is_managed(n)),
            _ => true,
        },
        match get(j, app_name) {
            Some(JsonValue::Object(go)) => match get(JsonValue::Object(go), "enviromentOptions"@) {
                Some(JsonValue::Array(a)) => forall|i: int|
                    0 <= i < a@.len() ==> !(entry_pair(#[trigger] a@[i]) matches Some(p) && is_managed(p.0)),
                _ => true,
            },
            _ => true,
        },
{
    let d = desired_of(Seq::<Seq<char>>::empty());
    assert(d == Seq::<(Seq<char>, Seq<char>)>::empty());
    if let JsonValue::Object(o) = j {
        match obj_get(o@, "envVariables"@) {
            Some(JsonValue::Object(m)) => {
                assert forall|k: Seq<char>| is_managed(k) implies obj_get(m@, k) is None by {
                    lemma_entry_index(m@, k, 0);
                    if let Some(x) = entry_index(m@, k, 0) {
                        assert(removable(d, m@[x].0@));
                    }
                }
            },
            _ => {},
        }
        match obj_get(o@, app_name) {
            Some(JsonValue::Object(go)) => {
                let g = JsonValue::Object(go);
                let present = match get(g, "enviromentOptions"@) {
                    Some(JsonValue::Array(a)) => pairs_of(a@, a@.len() as int),
                    _ => Seq::empty(),
                };
                let u = unmanaged(present, present.len() as int);
                assert(u + d =~= u);
                lemma_unmanaged_idem(present, present.len() as int);
                if let Some(JsonValue::Array(a)) = get(g, "enviromentOptions"@) {
                    assert forall|i: int| 0 <= i < a@.len() implies !(entry_pair(#[trigger] a@[i]) matches Some(p)
                        && is_managed(p.0)) by {
                        assert(is_pair_item(a@[i], (u + d)[i]));
                        lemma_pair_item_entry(a@[i], u[i]);
                    }
                }
            },
            _ => {},
        }
    }
}

} // verus!
