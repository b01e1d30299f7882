//! What a saved mod selection (a preset) may contain.
use crate::domain::{ModPreset, PresetEntry, ProviderId, SavePresetInput};
use crate::error::{fails_with, AppError};
use crate::resolver::{hyphenated_uuid, new_uuid_text};
use crate::sort::{sort_by_text_desc, sorted_by_text_desc, text_keyed};
use crate::text::str_equal;
use crate::profiles::{utf8_len, utf8_longer_than};
use crate::text::{all_whitespace, chars_of, is_blank, string_of, trim, trimmed};
use vstd::prelude::*;

verus! {

/// A preset entry names a project: its id is not blank and has at most 128
/// bytes.
pub open spec fn valid_reference(e: PresetEntry) -> bool {
    !all_whitespace(e.project.project_id@) && utf8_len(e.project.project_id@) <= 128
}

/// The name kept for an entry: its trimmed name cut to 120 characters, or
/// the project's key when that leaves nothing.
pub open spec fn entry_name(e: PresetEntry) -> Seq<char> {
    let t = trim(e.name@);
    let cut = if t.len() <= 120 { t } else { t.take(120) };
    if cut.len() == 0 {
        e.project.key_view()
    } else {
        cut
    }
}

pub open spec fn entry_view(e: PresetEntry) -> (ProviderId, Seq<char>, Seq<char>) {
    (e.project.provider, e.project.project_id@, e.name@)
}

pub open spec fn entry_views(s: Seq<PresetEntry>) -> Seq<(ProviderId, Seq<char>, Seq<char>)> {
    s.map_values(|e: PresetEntry| entry_view(e))
}

/// The entries kept: each project once, the first time it occurs, under its
/// kept name.
pub open spec fn kept_entries(s: Seq<PresetEntry>) -> Seq<(ProviderId, Seq<char>, Seq<char>)>
    decreases s.len(),
{
    if s.len() == 0 {
        Seq::empty()
    } else {
        let prev = kept_entries(s.drop_last());
        let e = s.last();
        if exists|k: int|
            0 <= k < prev.len() && #[trigger] prev[k].0 == e.project.provider && prev[k].1
                == e.project.project_id@ {
            prev
        } else {
            prev.push((e.project.provider, e.project.project_id@, entry_name(e)))
        }
    }
}

pub open spec fn trimmed_description(input: SavePresetInput) -> Seq<char> {
    match input.description {
        Some(d) => trim(d@),
        None => Seq::empty(),
    }
}

pub open spec fn all_references_valid(s: Seq<PresetEntry>) -> bool {
    forall|k: int| 0 <= k < s.len() ==> valid_reference(#[trigger] s[k])
}

fn entry_name_of(e: &PresetEntry) -> (r: String)
    ensures
        r@ == entry_name(*e),
{
    let t = chars_of(trimmed(e.name.as_str()).as_str());
    let mut cut: Vec<char> = Vec::new();
    let mut i: usize = 0;
    while i < t.len() && i < 120
        invariant
            i <= t.len(),
            i <= 120,
            cut@ == t@.take(i as int),
        decreases t.len() - i,
    {
        cut.push(t[i]);
        i = i + 1;
        assert(cut@ =~= t@.take(i as int));
    }
    assert(t@.len() <= 120 ==> t@.take(t@.len() as int) =~= t@);
    if cut.len() == 0 {
        e.project.key()
    } else {
        string_of(cut.as_slice())
    }
}

/// Checks a preset before it is saved and returns its trimmed name, trimmed
/// description and entries: the name must have 1 to 80 characters, the
/// description at most 300, there must be 1 to 200 entries, and each must
/// name a project. Entries keep their order; a repeated project keeps its
/// first entry.
pub fn validate_input(input: SavePresetInput) -> (r: Result<(String, String, Vec<PresetEntry>), AppError>)
    ensures
        ({
            let name = trim(input.name@);
            let description = trimmed_description(input);
            let name_ok = name.len() > 0 && name.len() <= 80;
            let description_ok = description.len() <= 300;
            let count_ok = input.entries.len() > 0 && input.entries.len() <= 200;
            let refs_ok = all_references_valid(input.entries@);
            &&& !name_ok ==> fails_with(r, "O nome da predefinição deve ter entre 1 e 80 caracteres."@)
            &&& name_ok && !description_ok ==> fails_with(r, "A descrição deve ter no máximo 300 caracteres."@)
            &&& name_ok && description_ok && !count_ok ==> fails_with(
                r,
                "Selecione entre 1 e 200 mods para a predefinição."@,
            )
            &&& name_ok && description_ok && count_ok && !refs_ok ==> fails_with(
                r,
                "Uma referência de mod da predefinição é inválida."@,
            )
            &&& (name_ok && description_ok && count_ok && refs_ok) ==> (r matches Ok((n, d, entries))
                && n@ == name && d@ == description && entry_views(entries@) == kept_entries(input.entries@))
        }),
{
    let name = trimmed(input.name.as_str());
    let description = match &input.description {
        Some(d) => trimmed(d.as_str()),
        None => String::new(),
    };
    let name_len = chars_of(name.as_str()).len();
    if name_len == 0 || name_len > 80 {
        return Err(AppError::message("O nome da predefinição deve ter entre 1 e 80 caracteres."));
    }
    if chars_of(description.as_str()).len() > 300 {
        return Err(AppError::message("A descrição deve ter no máximo 300 caracteres."));
    }
    if input.entries.len() == 0 || input.entries.len() > 200 {
        return Err(AppError::message("Selecione entre 1 e 200 mods para a predefinição."));
    }
    let ghost all = input.entries@;
    let mut entries: Vec<PresetEntry> = Vec::new();
    let mut rest = input.entries;
    let mut i: usize = 0;
    let n = rest.len();
    while rest.len() > 0
        invariant
            n == all.len(),
            all == input.entries@,
            0 < n <= 200,
            0 < trim(input.name@).len() <= 80,
            trimmed_description(input).len() <= 300,
            i + rest.len() == n,
            rest@ == all.skip(i as int),
            all_references_valid(all.take(i as int)),
            entry_views(entries@) == kept_entries(all.take(i as int)),
        decreases rest.len(),
    {
        let mut entry = rest.remove(0);
        proof {
            assert(all.take(i + 1).drop_last() =~= all.take(i as int));
            assert(all.take(i + 1).last() == entry);
        }
        if is_blank(entry.project.project_id.as_str()) || utf8_longer_than(
            entry.project.project_id.as_str(),
            128,
        ) {
            assert(!valid_reference(all[i as int]));
            assert(!all_references_valid(all));
            return Err(AppError::message("Uma referência de mod da predefinição é inválida."));
        }
        let mut seen = false;
        let mut k: usize = 0;
        while k < entries.len()
            invariant
                k <= entries.len(),
                !seen ==> forall|j: int|
                    0 <= j < k ==> !(#[trigger] entry_views(entries@)[j].0 == entry.project.provider
                        && entry_views(entries@)[j].1 == entry.project.project_id@),
                seen ==> exists|j: int|
                    0 <= j < entries.len() && #[trigger] entry_views(entries@)[j].0 == entry.project.provider
                        && entry_views(entries@)[j].1 == entry.project.project_id@,
            decreases entries.len() - k,
        {
            if entries[k].project.provider == entry.project.provider && crate::text::str_equal(
                entries[k].project.project_id.as_str(),
                entry.project.project_id.as_str(),
            ) {
                assert(entry_views(entries@)[k as int].0 == entry.project.provider);
                seen = true;
            }
            k = k + 1;
        }
        if !seen {
            let kept_name = entry_name_of(&entry);
            entry.name = kept_name;
            let ghost before = entry_views(entries@);
            let ghost added = entry_view(entry);
            entries.push(entry);
            assert(entry_views(entries@) =~= before.push(added));
        }
        i = i + 1;
        assert(rest@ =~= all.skip(i as int));
        assert(all_references_valid(all.take(i as int))) by {
            assert forall|k: int| 0 <= k < i implies valid_reference(#[trigger] all.take(i as int)[k]) by {
                if k < i - 1 {
                    assert(all.take(i as int)[k] == all.take(i - 1)[k]);
                }
            }
        }
    }
    assert(all.take(n as int) =~= all);
    Ok((name, description, entries))
}

/// Why a preset cannot be saved as given, if it cannot.
pub open spec fn preset_problem(input: SavePresetInput) -> Option<Seq<char>> {
    let name = trim(input.name@);
    let description = trimmed_description(input);
    if !(name.len() > 0 && name.len() <= 80) {
        Some("O nome da predefinição deve ter entre 1 e 80 caracteres."@)
    } else if description.len() > 300 {
        Some("A descrição deve ter no máximo 300 caracteres."@)
    } else if !(input.entries.len() > 0 && input.entries.len() <= 200) {
        Some("Selecione entre 1 e 200 mods para a predefinição."@)
    } else if !all_references_valid(input.entries@) {
        Some("Uma referência de mod da predefinição é inválida."@)
    } else {
        None
    }
}

/// The preset holds what `input` asked for, once checked.
pub open spec fn holds_input(p: ModPreset, input: SavePresetInput) -> bool {
    &&& p.name@ == trim(input.name@)
    &&& p.description@ == trimmed_description(input)
    &&& entry_views(p.entries@) == kept_entries(input.entries@)
}

/// `i` is the first position of a preset with this id.
pub open spec fn first_preset_with_id(presets: Seq<ModPreset>, id: Seq<char>, i: int) -> bool {
    &&& 0 <= i < presets.len()
    &&& presets[i].id@ == id
    &&& forall|j: int| 0 <= j < i ==> (#[trigger] presets[j]).id@ != id
}

/// Some preset has this id.
pub open spec fn has_preset(presets: Seq<ModPreset>, id: Seq<char>) -> bool {
    exists|i: int| 0 <= i < presets.len() && (#[trigger] presets[i]).id@ == id
}

/// The position of the first preset with this id.
pub fn preset_position(presets: &Vec<ModPreset>, id: &str) -> (r: Option<usize>)
    ensures
        match r {
            Some(i) => first_preset_with_id(presets@, id@, i as int),
            None => !has_preset(presets@, id@),
        },
{
    let mut i: usize = 0;
    while i < presets.len()
        invariant
            i <= presets.len(),
            forall|j: int| 0 <= j < i ==> (#[trigger] presets@[j]).id@ != id@,
        decreases presets.len() - i,
    {
        if str_equal(presets[i].id.as_str(), id) {
            return Some(i);
        }
        i = i + 1;
    }
    None
}

/// The stored preset with this id, or the error shown when it is gone.
pub fn find_preset(presets: &Vec<ModPreset>, id: &str) -> (r: Result<ModPreset, AppError>)
    ensures
        !has_preset(presets@, id@) ==> fails_with(r, "Esta predefinição não existe mais."@),
        has_preset(presets@, id@) ==> r is Ok,
        r matches Ok(p) ==> exists|i: int| first_preset_with_id(presets@, id@, i) && p.same(#[trigger] presets@[i]),
{
    match preset_position(presets, id) {
        Some(i) => Ok(presets[i].clone()),
        None => Err(AppError::message("Esta predefinição não existe mais.")),
    }
}

/// A new preset from the checked input, with a fresh id, created and
/// updated at `now`.
pub fn new_preset(input: SavePresetInput, now: String) -> (r: Result<ModPreset, AppError>)
    ensures
        match preset_problem(input) {
            Some(m) => fails_with(r, m),
            None => r matches Ok(p) && holds_input(p, input) && hyphenated_uuid(p.id@) && p.created_at@ == now@
                && p.updated_at == now,
        },
{
    let (name, description, entries) = match validate_input(input) {
        Ok(checked) => checked,
        Err(error) => return Err(error),
    };
    Ok(ModPreset { id: new_uuid_text(), name, description, entries, created_at: now.clone(), updated_at: now })
}

/// Rewrites a preset's name, description and entries, checked first.
pub fn update_preset(presets: &mut Vec<ModPreset>, id: &str, input: SavePresetInput, now: String) -> (r: Result<ModPreset, AppError>)
    ensures
        match preset_problem(input) {
            Some(m) => fails_with(r, m) && final(presets)@ == old(presets)@,
            None => if has_preset(old(presets)@, id@) {
                exists|i: int| #![trigger final(presets)@[i]]
                    first_preset_with_id(old(presets)@, id@, i)
                    && final(presets)@ == old(presets)@.update(i, final(presets)@[i])
                    && holds_input(final(presets)@[i], input)
                    && final(presets)@[i].id == old(presets)@[i].id
                    && final(presets)@[i].created_at == old(presets)@[i].created_at
                    && final(presets)@[i].updated_at == now
                    && (r matches Ok(p) && p.same(final(presets)@[i]))
            } else {
                fails_with(r, "Predefinição não encontrada."@) && final(presets)@ == old(presets)@
            },
        },
{
    let (name, description, entries) = match validate_input(input) {
        Ok(checked) => checked,
        Err(error) => return Err(error),
    };
    match preset_position(presets, id) {
        None => Err(AppError::message("Predefinição não encontrada.")),
        Some(i) => {
            let ghost before = presets@;
            let mut preset = presets.remove(i);
            preset.name = name;
            preset.description = description;
            preset.entries = entries;
            preset.updated_at = now;
            let copy = preset.clone();
            presets.insert(i, preset);
            assert(presets@ =~= before.update(i as int, presets@[i as int]));
            Ok(copy)
        },
    }
}

/// The presets whose id is not `id`, in order.
pub open spec fn presets_without(presets: Seq<ModPreset>, id: Seq<char>) -> Seq<ModPreset> {
    presets.filter(|p: ModPreset| p.id@ != id)
}

/// Deletes the presets with this id; there must be one.
pub fn remove_preset(presets: &mut Vec<ModPreset>, id: &str) -> (r: Result<(), AppError>)
    ensures
        !has_preset(old(presets)@, id@) ==> fails_with(r, "Predefinição não encontrada."@) && final(presets)@
            == old(presets)@,
        has_preset(old(presets)@, id@) ==> r is Ok && final(presets)@ == presets_without(old(presets)@, id@),
{
    if preset_position(presets, id).is_none() {
        return Err(AppError::message("Predefinição não encontrada."));
    }
    let ghost original = presets@;
    let ghost keep = |p: ModPreset| p.id@ != id@;
    let mut kept: Vec<ModPreset> = Vec::new();
    let mut i: usize = 0;
    let n = presets.len();
    while presets.len() > 0
        invariant
            n == original.len(),
            i + presets.len() == n,
            presets@ == original.skip(i as int),
            kept@ == original.take(i as int).filter(keep),
            keep == (|p: ModPreset| p.id@ != id@),
        decreases presets.len(),
    {
        let preset = presets.remove(0);
        proof {
            assert(original.take(i + 1) =~= original.take(i as int).push(preset));
            original.take(i as int).lemma_filter_push(preset, keep);
        }
        if !str_equal(preset.id.as_str(), id) {
            kept.push(preset);
        }
        i = i + 1;
        assert(presets@ =~= original.skip(i as int));
    }
    assert(original.take(n as int) =~= original);
    *presets = kept;
    Ok(())
}

/// Each preset keyed by when it was last updated.
pub open spec fn presets_keyed_by_update(presets: Seq<ModPreset>) -> Seq<(Seq<char>, ModPreset)> {
    presets.map_values(|p: ModPreset| (p.updated_at@, p))
}

/// The presets, most recently updated first; ties keep their order.
pub fn presets_most_recent_first(presets: Vec<ModPreset>) -> (r: Vec<ModPreset>)
    ensures
        r@ == sorted_by_text_desc(presets_keyed_by_update(presets@)).map_values(|e: (Seq<char>, ModPreset)| e.1),
{
    let ghost original = presets@;
    let mut rest = presets;
    let mut keyed: Vec<(Vec<char>, ModPreset)> = Vec::new();
    let mut i: usize = 0;
    let n = rest.len();
    while rest.len() > 0
        invariant
            n == original.len(),
            i + rest.len() == n,
            rest@ == original.skip(i as int),
            keyed.len() == i,
            text_keyed(keyed@) == presets_keyed_by_update(original.take(i as int)),
        decreases rest.len(),
    {
        assert(rest@[0] == original[i as int]);
        let preset = rest.remove(0);
        let key = chars_of(preset.updated_at.as_str());
        let ghost before = keyed@;
        keyed.push((key, preset));
        proof {
            let grown = original.take(i + 1);
            assert forall|k: int| 0 <= k < i + 1 implies #[trigger] text_keyed(keyed@)[k]
                == presets_keyed_by_update(grown)[k] by {
                if k < i {
                    assert(text_keyed(before)[k] == presets_keyed_by_update(original.take(i as int))[k]);
                    assert(grown[k] == original.take(i as int)[k]);
                } else {
                    assert(keyed@[k] == (key, preset));
                    assert(grown[k] == preset);
                }
            }
        }
        i = i + 1;
        assert(text_keyed(keyed@) =~= presets_keyed_by_update(original.take(i as int)));
        assert(rest@ =~= original.skip(i as int));
    }
    assert(original.take(n as int) =~= original);
    let sorted = sort_by_text_desc(keyed);
    let ghost target = sorted_by_text_desc(presets_keyed_by_update(original));
    let mut rest = sorted;
    let mut out: Vec<ModPreset> = Vec::new();
    let mut j: usize = 0;
    let m = rest.len();
    let ghost all = rest@;
    while rest.len() > 0
        invariant
            m == all.len(),
            j + rest.len() == m,
            rest@ == all.skip(j as int),
            text_keyed(all) == target,
            out@ == target.take(j as int).map_values(|e: (Seq<char>, ModPreset)| e.1),
        decreases rest.len(),
    {
        let (_, preset) = rest.remove(0);
        assert(target[j as int].1 == preset);
        out.push(preset);
        j = j + 1;
        assert(out@ =~= target.take(j as int).map_values(|e: (Seq<char>, ModPreset)| e.1));
        assert(rest@ =~= all.skip(j as int));
    }
    assert(target.take(m as int) =~= target);
    out
}

} // verus!
