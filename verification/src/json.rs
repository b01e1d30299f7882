//! What the library reads in JSON documents: instance files of the
//! launchers and mod metadata inside jars.
use crate::curseforge::without_repeats;
use crate::domain::ModLoader;
use crate::file_integrity::{ascii_case_equal, eq_ignore_ascii_case};
use crate::rescan::{
    cfg_target, merge_target, opt_text, target_from_instance_cfg, text_lines, PartialTarget,
    first_minecraft_version, first_version_in, loader_from_text, loader_named, looks_like_minecraft_version,
    looks_like_version, sequence_order, split_by, version_is_later, version_numbers, Cut,
};
use crate::text::{chars_of, contains, contains_text, str_equal, texts, to_lowercase, unicode_lowercase};
use vstd::prelude::*;

verus! {

/// A JSON value. Numbers, booleans and null are never read and stand as
/// `Other`. An object lists its members in key order, each key once.
#[derive(Debug)]
pub enum JsonValue {
    Text(String),
    Array(Vec<JsonValue>),
    Object(Vec<(String, JsonValue)>),
    Other,
}

/// The member of an object with this key.
pub open spec fn member(entries: Seq<(String, JsonValue)>, key: Seq<char>) -> Option<JsonValue>
    decreases entries.len(),
{
    if entries.len() == 0 {
        None
    } else if entries[0].0@ == key {
        Some(entries[0].1)
    } else {
        member(entries.drop_first(), key)
    }
}

/// The value's member with this key, when the value is an object.
pub open spec fn get(value: JsonValue, key: Seq<char>) -> Option<JsonValue> {
    match value {
        JsonValue::Object(entries) => member(entries@, key),
        _ => None,
    }
}

pub open spec fn as_text(value: Option<JsonValue>) -> Option<Seq<char>> {
    match value {
        Some(JsonValue::Text(s)) => Some(s@),
        _ => None,
    }
}

/// The text of the first of the keys whose member is a text.
pub open spec fn keyed_text(entries: Seq<(String, JsonValue)>, keys: Seq<Seq<char>>) -> Option<Seq<char>>
    decreases keys.len(),
{
    if keys.len() == 0 {
        None
    } else {
        match as_text(member(entries, keys[0])) {
            Some(s) => Some(s),
            None => keyed_text(entries, keys.drop_first()),
        }
    }
}

/// The first text found under one of the keys, searching depth first: an
/// object's own keys, in the order given, before its members, in key order.
pub open spec fn found_text(value: JsonValue, keys: Seq<Seq<char>>) -> Option<Seq<char>>
    decreases value,
{
    match value {
        JsonValue::Object(entries) => match keyed_text(entries@, keys) {
            Some(s) => Some(s),
            None => found_in_members(entries@, keys),
        },
        JsonValue::Array(items) => found_in_items(items@, keys),
        _ => None,
    }
}

pub open spec fn found_in_items(items: Seq<JsonValue>, keys: Seq<Seq<char>>) -> Option<Seq<char>>
    decreases items,
{
    if items.len() == 0 {
        None
    } else {
        match found_text(items[0], keys) {
            Some(s) => Some(s),
            None => found_in_items(items.drop_first(), keys),
        }
    }
}

pub open spec fn found_in_members(entries: Seq<(String, JsonValue)>, keys: Seq<Seq<char>>) -> Option<Seq<char>>
    decreases entries,
{
    if entries.len() == 0 {
        None
    } else {
        match found_text(entries[0].1, keys) {
            Some(s) => Some(s),
            None => found_in_members(entries.drop_first(), keys),
        }
    }
}

pub open spec fn key_views(keys: Seq<&str>) -> Seq<Seq<char>> {
    keys.map_values(|k: &str| k@)
}

pub open spec fn opt_view(s: Option<String>) -> Option<Seq<char>> {
    match s {
        Some(v) => Some(v@),
        None => None,
    }
}

fn member_of<'a>(entries: &'a Vec<(String, JsonValue)>, key: &str) -> (r: Option<&'a JsonValue>)
    ensures
        match member(entries@, key@) {
            Some(v) => r matches Some(x) && *x == v,
            None => r is None,
        },
{
    let mut i: usize = 0;
    assert(entries@.skip(0) =~= entries@);
    while i < entries.len()
        invariant
            i <= entries.len(),
            member(entries@, key@) == member(entries@.skip(i as int), key@),
        decreases entries.len() - i,
    {
        assert(entries@.skip(i as int)[0] == entries@[i as int]);
        if str_equal(entries[i].0.as_str(), key) {
            return Some(&entries[i].1);
        }
        assert(entries@.skip(i as int).drop_first() =~= entries@.skip(i + 1));
        i = i + 1;
    }
    None
}

fn text_of(value: Option<&JsonValue>) -> (r: Option<String>)
    ensures
        opt_view(r) == as_text(
            match value {
                Some(v) => Some(*v),
                None => None,
            },
        ),
{
    match value {
        Some(JsonValue::Text(s)) => Some(s.clone()),
        _ => None,
    }
}

fn keyed_text_of(entries: &Vec<(String, JsonValue)>, keys: &Vec<&str>) -> (r: Option<String>)
    ensures
        opt_view(r) == keyed_text(entries@, key_views(keys@)),
{
    let ghost ks = key_views(keys@);
    let mut i: usize = 0;
    assert(ks.skip(0) =~= ks);
    while i < keys.len()
        invariant
            i <= keys.len(),
            ks == key_views(keys@),
            keyed_text(entries@, ks) == keyed_text(entries@, ks.skip(i as int)),
        decreases keys.len() - i,
    {
        assert(ks.skip(i as int)[0] == keys@[i as int]@);
        let found = text_of(member_of(entries, keys[i]));
        if found.is_some() {
            return found;
        }
        assert(ks.skip(i as int).drop_first() =~= ks.skip(i + 1));
        i = i + 1;
    }
    None
}

/// The first text under one of the keys, anywhere in the document.
pub fn find_string(value: &JsonValue, keys: &Vec<&str>) -> (r: Option<String>)
    ensures
        opt_view(r) == found_text(*value, key_views(keys@)),
    decreases value,
{
    let ghost ks = key_views(keys@);
    match value {
        JsonValue::Object(entries) => {
            let own = keyed_text_of(entries, keys);
            if own.is_some() {
                return own;
            }
            let mut i: usize = 0;
            assert(entries@.skip(0) =~= entries@);
            while i < entries.len()
                invariant
                    i <= entries.len(),
                    ks == key_views(keys@),
                    *value == JsonValue::Object(*entries),
                    found_text(*value, ks) == found_in_members(entries@, ks),
                    found_in_members(entries@, ks) == found_in_members(entries@.skip(i as int), ks),
                decreases entries.len() - i,
            {
                assert(entries@.skip(i as int)[0] == entries@[i as int]);
                proof {
                    assert(decreases_to!(*value => *entries));
                    assert(decreases_to!(*entries => entries@));
                    assert(decreases_to!(entries@ => entries@[i as int]));
                    assert(decreases_to!(entries@[i as int] => entries@[i as int].1));
                }
                let found = find_string(&entries[i].1, keys);
                if found.is_some() {
                    return found;
                }
                assert(entries@.skip(i as int).drop_first() =~= entries@.skip(i + 1));
                i = i + 1;
            }
            None
        },
        JsonValue::Array(items) => {
            let mut i: usize = 0;
            assert(items@.skip(0) =~= items@);
            while i < items.len()
                invariant
                    i <= items.len(),
                    ks == key_views(keys@),
                    *value == JsonValue::Array(*items),
                    found_text(*value, ks) == found_in_items(items@, ks),
                    found_in_items(items@, ks) == found_in_items(items@.skip(i as int), ks),
                decreases items.len() - i,
            {
                assert(items@.skip(i as int)[0] == items@[i as int]);
                proof {
                    assert(decreases_to!(*value => *items));
                    assert(decreases_to!(*items => items@));
                    assert(decreases_to!(items@ => items@[i as int]));
                }
                let found = find_string(&items[i], keys);
                if found.is_some() {
                    return found;
                }
                assert(items@.skip(i as int).drop_first() =~= items@.skip(i + 1));
                i = i + 1;
            }
            None
        },
        _ => None,
    }
}

pub open spec fn version_keys() -> Seq<Seq<char>> {
    seq!["gameVersion"@, "game_version"@, "minecraftVersion"@, "minecraft_version"@]
}

pub open spec fn loader_keys() -> Seq<Seq<char>> {
    seq!["loader"@, "modLoader"@, "mod_loader"@, "baseModLoader"@, "loaderName"@]
}

/// The loader named under `baseModLoader.name`, as CurseForge writes it.
pub open spec fn base_loader(value: JsonValue) -> Option<ModLoader> {
    match as_text(
        match get(value, "baseModLoader"@) {
            Some(b) => get(b, "name"@),
            None => None,
        },
    ) {
        Some(t) => loader_named(t),
        None => None,
    }
}

/// What a launcher's JSON instance file says of the target: the first
/// version-like text under a version key, and the loader named under a
/// loader key, else under `baseModLoader.name`.
pub open spec fn json_target(value: JsonValue) -> (Option<Seq<char>>, Option<ModLoader>) {
    let version = match found_text(value, version_keys()) {
        Some(v) => if looks_like_version(v) {
            Some(v)
        } else {
            None
        },
        None => None,
    };
    let loader = match found_text(value, loader_keys()) {
        Some(n) => match loader_named(n) {
            Some(l) => Some(l),
            None => base_loader(value),
        },
        None => base_loader(value),
    };
    (version, loader)
}

fn get_member<'a>(value: &'a JsonValue, key: &str) -> (r: Option<&'a JsonValue>)
    ensures
        match get(*value, key@) {
            Some(v) => r matches Some(x) && *x == v,
            None => r is None,
        },
{
    match value {
        JsonValue::Object(entries) => member_of(entries, key),
        _ => None,
    }
}

/// The Minecraft version and loader a launcher's JSON profile names, if it names them.
pub fn target_from_json(value: &JsonValue) -> (r: (Option<String>, Option<ModLoader>))
    ensures
        opt_view(r.0) == json_target(*value).0,
        r.1 == json_target(*value).1,
{
    let by_version: Vec<&str> = vec!["gameVersion", "game_version", "minecraftVersion", "minecraft_version"];
    assert(key_views(by_version@) =~= version_keys());
    let by_loader: Vec<&str> = vec!["loader", "modLoader", "mod_loader", "baseModLoader", "loaderName"];
    assert(key_views(by_loader@) =~= loader_keys());
    let version = match find_string(value, &by_version) {
        Some(v) => if looks_like_minecraft_version(v.as_str()) {
            Some(v)
        } else {
            None
        },
        None => None,
    };
    let named = match find_string(value, &by_loader) {
        Some(n) => loader_from_text(n.as_str()),
        None => None,
    };
    let loader = match named {
        Some(l) => Some(l),
        None => {
            let base = match get_member(value, "baseModLoader") {
                Some(b) => text_of(get_member(b, "name")),
                None => None,
            };
            match base {
                Some(t) => loader_from_text(t.as_str()),
                None => None,
            }
        },
    };
    (version, loader)
}

/// A Prism/MultiMC component's lowercased uid (empty when it has none).
pub open spec fn component_uid(component: JsonValue) -> Seq<char> {
    unicode_lowercase(
        match as_text(get(component, "uid"@)) {
            Some(u) => u,
            None => Seq::empty(),
        },
    )
}

/// One component read into the target: `net.minecraft` sets the version
/// (to none when it gives none); loader components set the loader.
pub open spec fn component_step(
    state: (Option<Seq<char>>, Option<ModLoader>),
    component: JsonValue,
) -> (Option<Seq<char>>, Option<ModLoader>) {
    let uid = component_uid(component);
    if uid == "net.minecraft"@ {
        (as_text(get(component, "version"@)), state.1)
    } else if contains_text(uid, "neoforge"@) {
        (state.0, Some(ModLoader::Neoforge))
    } else if contains_text(uid, "fabric-loader"@) {
        (state.0, Some(ModLoader::Fabric))
    } else if contains_text(uid, "quilt-loader"@) {
        (state.0, Some(ModLoader::Quilt))
    } else if contains_text(uid, "forge"@) {
        (state.0, Some(ModLoader::Forge))
    } else {
        state
    }
}

pub open spec fn components_read(components: Seq<JsonValue>) -> (Option<Seq<char>>, Option<ModLoader>)
    decreases components.len(),
{
    if components.len() == 0 {
        (None, None)
    } else {
        component_step(components_read(components.drop_last()), components.last())
    }
}

/// The components listed by an `mmc-pack.json`.
pub open spec fn pack_components(value: JsonValue) -> Seq<JsonValue> {
    match get(value, "components"@) {
        Some(JsonValue::Array(items)) => items@,
        _ => Seq::empty(),
    }
}

/// The target an `mmc-pack.json` of Prism or MultiMC describes.
pub fn target_from_mmc_pack(value: &JsonValue) -> (r: (Option<String>, Option<ModLoader>))
    ensures
        opt_view(r.0) == components_read(pack_components(*value)).0,
        r.1 == components_read(pack_components(*value)).1,
{
    let empty: Vec<JsonValue> = Vec::new();
    let components: &Vec<JsonValue> = match get_member(value, "components") {
        Some(JsonValue::Array(items)) => items,
        _ => &empty,
    };
    assert(components@ == pack_components(*value));
    let neoforge = chars_of("neoforge");
    let fabric = chars_of("fabric-loader");
    let quilt = chars_of("quilt-loader");
    let forge = chars_of("forge");
    let mut version: Option<String> = None;
    let mut loader: Option<ModLoader> = None;
    let mut i: usize = 0;
    while i < components.len()
        invariant
            i <= components.len(),
            neoforge@ == "neoforge"@,
            fabric@ == "fabric-loader"@,
            quilt@ == "quilt-loader"@,
            forge@ == "forge"@,
            opt_view(version) == components_read(components@.take(i as int)).0,
            loader == components_read(components@.take(i as int)).1,
        decreases components.len() - i,
    {
        proof {
            assert(components@.take(i + 1).drop_last() =~= components@.take(i as int));
        }
        let component = &components[i];
        let raw = match text_of(get_member(component, "uid")) {
            Some(u) => u,
            None => String::new(),
        };
        let uid_text = to_lowercase(raw.as_str());
        let uid = chars_of(uid_text.as_str());
        if str_equal(uid_text.as_str(), "net.minecraft") {
            version = text_of(get_member(component, "version"));
        } else if contains(&uid, &neoforge) {
            loader = Some(ModLoader::Neoforge);
        } else if contains(&uid, &fabric) {
            loader = Some(ModLoader::Fabric);
        } else if contains(&uid, &quilt) {
            loader = Some(ModLoader::Quilt);
        } else if contains(&uid, &forge) {
            loader = Some(ModLoader::Forge);
        }
        i = i + 1;
    }
    assert(components@.take(components.len() as int) =~= components@);
    (version, loader)
}

/// Every text of a value that is a text or a (nested) list of texts.
pub open spec fn strings_in(value: JsonValue) -> Seq<Seq<char>>
    decreases value,
{
    match value {
        JsonValue::Text(s) => seq![s@],
        JsonValue::Array(items) => strings_in_items(items@),
        _ => Seq::empty(),
    }
}

pub open spec fn strings_in_items(items: Seq<JsonValue>) -> Seq<Seq<char>>
    decreases items,
{
    if items.len() == 0 {
        Seq::empty()
    } else {
        strings_in(items[0]) + strings_in_items(items.drop_first())
    }
}

pub open spec fn string_views(s: Seq<String>) -> Seq<Seq<char>> {
    s.map_values(|v: String| v@)
}

/// Appends the texts of a value, in order.
pub fn collect_strings(value: &JsonValue, values: &mut Vec<String>)
    ensures
        string_views(final(values)@) == string_views(old(values)@) + strings_in(*value),
    decreases value,
{
    match value {
        JsonValue::Text(s) => {
            let ghost before = string_views(values@);
            values.push(s.clone());
            assert(string_views(values@) =~= before + strings_in(*value));
        },
        JsonValue::Array(items) => {
            let ghost start = string_views(values@);
            let mut i: usize = 0;
            assert(items@.skip(0) =~= items@);
            while i < items.len()
                invariant
                    i <= items.len(),
                    *value == JsonValue::Array(*items),
                    string_views(values@) + strings_in_items(items@.skip(i as int)) == start
                        + strings_in_items(items@),
                decreases items.len() - i,
            {
                proof {
                    assert(items@.skip(i as int)[0] == items@[i as int]);
                    assert(items@.skip(i as int).drop_first() =~= items@.skip(i + 1));
                    let v = *value;
                    assert(v == JsonValue::Array(*items));
                    assert(decreases_to!(v => v->Array_0));
                    assert(decreases_to!(v->Array_0 => v->Array_0@));
                    assert(decreases_to!(v->Array_0@ => v->Array_0@[i as int]));
                }
                let ghost before = string_views(values@);
                collect_strings(&items[i], values);
                proof {
                    assert(before + strings_in_items(items@.skip(i as int)) =~= before + (strings_in(
                        items@[i as int],
                    ) + strings_in_items(items@.skip(i + 1))));
                    assert(string_views(values@) + strings_in_items(items@.skip(i + 1)) =~= before + (
                    strings_in(items@[i as int]) + strings_in_items(items@.skip(i + 1))));
                }
                i = i + 1;
            }
            assert(items@.skip(items.len() as int) =~= Seq::<JsonValue>::empty());
            assert(items@.skip(0) =~= items@);
            assert(string_views(values@) =~= start + strings_in(*value));
        },
        _ => {
            assert(string_views(values@) =~= string_views(values@) + strings_in(*value));
        },
    }
}

pub open spec fn member_strings(entries: Seq<(String, JsonValue)>, key: Seq<char>) -> Seq<Seq<char>> {
    match member(entries, key) {
        Some(found) => strings_in(found),
        None => Seq::empty(),
    }
}

/// What one object says of the Minecraft versions it supports: the texts
/// under `minecraft`, and, when its `id` is `minecraft` (in any letter
/// case), those under `versions`, `version` and `versionRange`.
pub open spec fn own_constraints(entries: Seq<(String, JsonValue)>) -> Seq<Seq<char>> {
    let from_minecraft = member_strings(entries, "minecraft"@);
    let is_minecraft = match as_text(member(entries, "id"@)) {
        Some(id) => ascii_case_equal(id, "minecraft"@),
        None => false,
    };
    if is_minecraft {
        from_minecraft + member_strings(entries, "versions"@) + member_strings(entries, "version"@)
            + member_strings(entries, "versionRange"@)
    } else {
        from_minecraft
    }
}

/// Every Minecraft version constraint in a document, depth first.
pub open spec fn constraints_in(value: JsonValue) -> Seq<Seq<char>>
    decreases value,
{
    match value {
        JsonValue::Object(entries) => own_constraints(entries@) + constraints_in_members(entries@),
        JsonValue::Array(items) => constraints_in_items(items@),
        _ => Seq::empty(),
    }
}

pub open spec fn constraints_in_members(entries: Seq<(String, JsonValue)>) -> Seq<Seq<char>>
    decreases entries,
{
    if entries.len() == 0 {
        Seq::empty()
    } else {
        constraints_in(entries[0].1) + constraints_in_members(entries.drop_first())
    }
}

pub open spec fn constraints_in_items(items: Seq<JsonValue>) -> Seq<Seq<char>>
    decreases items,
{
    if items.len() == 0 {
        Seq::empty()
    } else {
        constraints_in(items[0]) + constraints_in_items(items.drop_first())
    }
}

fn collect_member(entries: &Vec<(String, JsonValue)>, key: &str, values: &mut Vec<String>)
    ensures
        string_views(final(values)@) == string_views(old(values)@) + member_strings(entries@, key@),
{
    match member_of(entries, key) {
        Some(found) => collect_strings(found, values),
        None => {
            assert(string_views(values@) =~= string_views(values@) + member_strings(entries@, key@));
        },
    }
}

/// Appends the Minecraft version constraints of a document, depth first.
pub fn collect_minecraft_constraints(value: &JsonValue, constraints: &mut Vec<String>)
    ensures
        string_views(final(constraints)@) == string_views(old(constraints)@) + constraints_in(*value),
    decreases value,
{
    let ghost start = string_views(constraints@);
    match value {
        JsonValue::Object(entries) => {
            collect_member(entries, "minecraft", constraints);
            let is_minecraft = match text_of(member_of(entries, "id")) {
                Some(id) => eq_ignore_ascii_case(id.as_str(), "minecraft"),
                None => false,
            };
            if is_minecraft {
                collect_member(entries, "versions", constraints);
                collect_member(entries, "version", constraints);
                collect_member(entries, "versionRange", constraints);
            }
            assert(string_views(constraints@) =~= start + own_constraints(entries@));
            let ghost middle = string_views(constraints@);
            let mut i: usize = 0;
            assert(entries@.skip(0) =~= entries@);
            while i < entries.len()
                invariant
                    i <= entries.len(),
                    *value == JsonValue::Object(*entries),
                    string_views(constraints@) + constraints_in_members(entries@.skip(i as int)) == middle
                        + constraints_in_members(entries@),
                decreases entries.len() - i,
            {
                proof {
                    assert(entries@.skip(i as int)[0] == entries@[i as int]);
                    assert(entries@.skip(i as int).drop_first() =~= entries@.skip(i + 1));
                    let v = *value;
                    assert(decreases_to!(v => v->Object_0));
                    assert(decreases_to!(v->Object_0 => v->Object_0@));
                    assert(decreases_to!(v->Object_0@ => v->Object_0@[i as int]));
                    assert(decreases_to!(v->Object_0@[i as int] => v->Object_0@[i as int].1));
                }
                let ghost before = string_views(constraints@);
                collect_minecraft_constraints(&entries[i].1, constraints);
                proof {
                    assert(before + constraints_in_members(entries@.skip(i as int)) =~= before + (constraints_in(
                        entries@[i as int].1,
                    ) + constraints_in_members(entries@.skip(i + 1))));
                    assert(string_views(constraints@) + constraints_in_members(entries@.skip(i + 1)) =~= before
                        + (constraints_in(entries@[i as int].1) + constraints_in_members(entries@.skip(i + 1))));
                }
                i = i + 1;
            }
            assert(entries@.skip(entries.len() as int) =~= Seq::<(String, JsonValue)>::empty());
            assert(string_views(constraints@) =~= start + constraints_in(*value));
        },
        JsonValue::Array(items) => {
            let mut i: usize = 0;
            assert(items@.skip(0) =~= items@);
            while i < items.len()
                invariant
                    i <= items.len(),
                    *value == JsonValue::Array(*items),
                    string_views(constraints@) + constraints_in_items(items@.skip(i as int)) == start
                        + constraints_in_items(items@),
                decreases items.len() - i,
            {
                proof {
                    assert(items@.skip(i as int)[0] == items@[i as int]);
                    assert(items@.skip(i as int).drop_first() =~= items@.skip(i + 1));
                    let v = *value;
                    assert(decreases_to!(v => v->Array_0));
                    assert(decreases_to!(v->Array_0 => v->Array_0@));
                    assert(decreases_to!(v->Array_0@ => v->Array_0@[i as int]));
                }
                let ghost before = string_views(constraints@);
                collect_minecraft_constraints(&items[i], constraints);
                proof {
                    assert(before + constraints_in_items(items@.skip(i as int)) =~= before + (constraints_in(
                        items@[i as int],
                    ) + constraints_in_items(items@.skip(i + 1))));
                    assert(string_views(constraints@) + constraints_in_items(items@.skip(i + 1)) =~= before + (
                    constraints_in(items@[i as int]) + constraints_in_items(items@.skip(i + 1))));
                }
                i = i + 1;
            }
            assert(items@.skip(items.len() as int) =~= Seq::<JsonValue>::empty());
            assert(string_views(constraints@) =~= start + constraints_in(*value));
        },
        _ => {
            assert(string_views(constraints@) =~= start + constraints_in(*value));
        },
    }
}

/// The versions the constraints name: the first version-like piece of each.
pub open spec fn versions_named(constraints: Seq<Seq<char>>) -> Seq<Seq<char>>
    decreases constraints.len(),
{
    if constraints.len() == 0 {
        Seq::empty()
    } else {
        let prev = versions_named(constraints.drop_last());
        match first_version_in(split_by(constraints.last(), Cut::NonVersion)) {
            Some(v) => prev.push(v),
            None => prev,
        }
    }
}

pub open spec fn later(a: Seq<char>, b: Seq<char>) -> bool {
    sequence_order(version_numbers(a), version_numbers(b)) > 0
}

/// Places `x` before the first version it is later than.
pub open spec fn insert_by_version(s: Seq<Seq<char>>, x: Seq<char>) -> Seq<Seq<char>>
    decreases s.len(),
{
    if s.len() == 0 {
        seq![x]
    } else if later(x, s[0]) {
        seq![x] + s
    } else {
        seq![s[0]] + insert_by_version(s.drop_first(), x)
    }
}

/// The stable sort of versions, latest first.
pub open spec fn latest_first(s: Seq<Seq<char>>) -> Seq<Seq<char>>
    decreases s.len(),
{
    if s.len() == 0 {
        Seq::empty()
    } else {
        insert_by_version(latest_first(s.drop_last()), s.last())
    }
}

proof fn lemma_insert_by_version_at(s: Seq<Seq<char>>, x: Seq<char>, p: int)
    requires
        0 <= p <= s.len(),
        forall|j: int| 0 <= j < p ==> !later(x, #[trigger] s[j]),
        p < s.len() ==> later(x, s[p]),
    ensures
        insert_by_version(s, x) == s.take(p) + seq![x] + s.skip(p),
    decreases s.len(),
{
    if s.len() == 0 {
        assert(s.take(p) + seq![x] + s.skip(p) =~= seq![x]);
    } else if p == 0 {
        assert(s.take(0) + seq![x] + s.skip(0) =~= seq![x] + s);
    } else {
        let t = s.drop_first();
        assert forall|j: int| 0 <= j < p - 1 implies !later(x, #[trigger] t[j]) by {
            assert(t[j] == s[j + 1]);
        }
        lemma_insert_by_version_at(t, x, p - 1);
        assert(seq![s[0]] + (t.take(p - 1) + seq![x] + t.skip(p - 1)) =~= s.take(p) + seq![x]
            + s.skip(p));
    }
}

/// The Minecraft versions a JSON metadata file supports, latest first,
/// each run of equal texts kept once.
pub fn minecraft_versions_from_value(value: &JsonValue) -> (r: Vec<String>)
    ensures
        string_views(r@) == without_repeats(latest_first(versions_named(constraints_in(*value)))),
{
    let mut constraints: Vec<String> = Vec::new();
    collect_minecraft_constraints(value, &mut constraints);
    assert(string_views(constraints@) =~= constraints_in(*value));
    let ghost cs = string_views(constraints@);
    let mut sorted: Vec<String> = Vec::new();
    let mut i: usize = 0;
    while i < constraints.len()
        invariant
            i <= constraints.len(),
            cs == string_views(constraints@),
            string_views(sorted@) == latest_first(versions_named(cs.take(i as int))),
        decreases constraints.len() - i,
    {
        proof {
            assert(cs.take(i + 1).drop_last() =~= cs.take(i as int));
            assert(cs.take(i + 1).last() == constraints@[i as int]@);
        }
        match first_minecraft_version(constraints[i].as_str()) {
            Some(v) => {
                let ghost s = string_views(sorted@);
                let mut p: usize = 0;
                while p < sorted.len() && !version_is_later(v.as_str(), sorted[p].as_str())
                    invariant
                        p <= sorted.len(),
                        s == string_views(sorted@),
                        forall|j: int| 0 <= j < p ==> !later(v@, #[trigger] s[j]),
                    decreases sorted.len() - p,
                {
                    p = p + 1;
                }
                proof {
                    lemma_insert_by_version_at(s, v@, p as int);
                }
                let ghost x = v@;
                let ghost prev = versions_named(cs.take(i as int));
                assert(versions_named(cs.take(i + 1)) == prev.push(x));
                assert(prev.push(x).drop_last() =~= prev);
                assert(latest_first(prev.push(x)) == insert_by_version(latest_first(prev), x));
                sorted.insert(p, v);
                assert(string_views(sorted@) =~= s.take(p as int) + seq![x] + s.skip(p as int));
            },
            None => {
                assert(versions_named(cs.take(i + 1)) == versions_named(cs.take(i as int)));
            },
        }
        i = i + 1;
    }
    assert(cs.take(constraints.len() as int) =~= cs);
    let ghost keys = string_views(sorted@);
    let mut r: Vec<String> = Vec::new();
    let mut k: usize = 0;
    while k < sorted.len()
        invariant
            k <= sorted.len(),
            keys == string_views(sorted@),
            string_views(r@) == without_repeats(keys.take(k as int)),
        decreases sorted.len() - k,
    {
        proof {
            assert(keys.take(k + 1).drop_last() =~= keys.take(k as int));
        }
        let repeat = k > 0 && str_equal(sorted[k - 1].as_str(), sorted[k].as_str());
        if !repeat {
            let ghost before = string_views(r@);
            r.push(sorted[k].clone());
            assert(string_views(r@) =~= before.push(keys[k as int]));
        } else {
            assert(keys.take(k + 1)[k - 1] == keys[k - 1]);
        }
        k = k + 1;
    }
    assert(keys.take(sorted.len() as int) =~= keys);
    r
}

/// What is known of an instance's target: version, loader, and the files
/// that said so.
pub type TargetState = (Option<Seq<char>>, Option<ModLoader>, Seq<Seq<char>>);

pub open spec fn target_state(t: PartialTarget) -> TargetState {
    (opt_text(t.minecraft_version), t.loader, texts(t.sources@))
}

/// `merge_target` on the state: the candidate fills what is missing, and
/// its source is recorded once when it contributed.
pub open spec fn merged(state: TargetState, candidate: (Option<Seq<char>>, Option<ModLoader>), source: Seq<char>) -> TargetState {
    let takes_version = state.0 is None && candidate.0 is Some;
    let takes_loader = state.1 is None && candidate.1 is Some;
    (
        if takes_version { candidate.0 } else { state.0 },
        if takes_loader { candidate.1 } else { state.1 },
        if (takes_version || takes_loader) && !state.2.contains(source) { state.2.push(source) } else { state.2 },
    )
}

/// The launcher files looked at, in order, with how they are reported.
pub open spec fn instance_label(k: int) -> Seq<char> {
    if k == 0 {
        "perfil do CurseForge"@
    } else if k == 1 {
        "perfil do Prism/MultiMC"@
    } else if k == 2 {
        "perfil do Modrinth"@
    } else {
        "configuração da instância"@
    }
}

/// What the k-th file says: `mmc-pack.json` (the second) lists components;
/// the others are searched for version and loader keys.
pub open spec fn document_target(k: int, document: JsonValue) -> (Option<Seq<char>>, Option<ModLoader>) {
    if k == 1 {
        components_read(pack_components(document))
    } else {
        json_target(document)
    }
}

/// Reads the files from the k-th on; stops (true) once version and loader
/// are both known.
pub open spec fn read_documents(documents: Seq<Option<JsonValue>>, k: int, state: TargetState) -> (TargetState, bool)
    decreases documents.len() - k,
{
    if k >= documents.len() || k < 0 {
        (state, false)
    } else {
        let next = match documents[k] {
            Some(d) => merged(state, document_target(k, d), instance_label(k)),
            None => state,
        };
        if next.0 is Some && next.1 is Some {
            (next, true)
        } else {
            read_documents(documents, k + 1, next)
        }
    }
}

/// The target an instance folder describes: its launcher files in order,
/// then its `instance.cfg` unless the files already said everything.
pub open spec fn instance_target_spec(documents: Seq<Option<JsonValue>>, cfg: Option<Seq<char>>) -> TargetState {
    let (state, done) = read_documents(documents, 0, (None, None, Seq::empty()));
    if done {
        state
    } else {
        match cfg {
            Some(c) => merged(state, cfg_target(text_lines(c)), "configuração do Prism/MultiMC"@),
            None => state,
        }
    }
}

/// Given the parsed launcher files of an instance (`minecraftinstance.json`,
/// `mmc-pack.json`, `profile.json`, `instance.json`; none where a file is
/// missing or not JSON) and the text of its `instance.cfg`, what the
/// instance says of its target.
pub fn instance_target(documents: &Vec<Option<JsonValue>>, cfg: &Option<String>) -> (r: PartialTarget)
    requires
        documents.len() == 4,
    ensures
        target_state(r) == instance_target_spec(documents@, opt_text(*cfg)),
{
    let mut detected = PartialTarget { minecraft_version: None, loader: None, sources: Vec::new() };
    assert(target_state(detected) =~= (None, None, Seq::<Seq<char>>::empty()));
    let mut k: usize = 0;
    while k < documents.len()
        invariant
            k <= documents.len(),
            documents.len() == 4,
            read_documents(documents@, 0, (None, None, Seq::empty())) == read_documents(
                documents@,
                k as int,
                target_state(detected),
            ),
        decreases documents.len() - k,
    {
        let label = if k == 0 {
            "perfil do CurseForge"
        } else if k == 1 {
            "perfil do Prism/MultiMC"
        } else if k == 2 {
            "perfil do Modrinth"
        } else {
            "configuração da instância"
        };
        let ghost before = target_state(detected);
        match &documents[k] {
            Some(document) => {
                let candidate = if k == 1 {
                    target_from_mmc_pack(document)
                } else {
                    target_from_json(document)
                };
                merge_target(&mut detected, candidate, label);
                assert(target_state(detected) == merged(before, document_target(k as int, *document), instance_label(k as int)));
            },
            None => {},
        }
        if detected.minecraft_version.is_some() && detected.loader.is_some() {
            return detected;
        }
        k = k + 1;
    }
    match cfg {
        Some(contents) => {
            let candidate = target_from_instance_cfg(contents.as_str());
            merge_target(&mut detected, candidate, "configuração do Prism/MultiMC");
        },
        None => {},
    }
    detected
}

} // verus!