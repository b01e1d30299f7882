//! Recording the mods found in an instance: one entry per project, with
//! dependencies pointing at the copy that is actually installed.
use crate::domain::{InstallReason, InstalledMod, ProjectRef, ProviderId};
use crate::rescan::IdentifiedJar;
use crate::text::{chars_of, join2, str_equal, text_less, text_lt, texts, to_lowercase, unicode_lowercase};
use vstd::prelude::*;

verus! {

/// The projects a file stands for: what the catalogs matched, or the file's
/// own entry when none did.
pub open spec fn effective_aliases(jar: IdentifiedJar) -> Seq<ProjectRef> {
    if jar.aliases.len() == 0 {
        seq![ProjectRef { provider: jar.item.provider, project_id: jar.item.project_id }]
    } else {
        jar.aliases@
    }
}

pub open spec fn ref_keys(refs: Seq<ProjectRef>) -> Seq<Seq<char>> {
    refs.map_values(|r: ProjectRef| r.key_view())
}

/// Which files are kept (by position) and which project keys they claimed:
/// a file is dropped when one of its projects was already claimed.
pub open spec fn retention(items: Seq<IdentifiedJar>) -> (Seq<int>, Set<Seq<char>>)
    decreases items.len(),
{
    if items.len() == 0 {
        (Seq::empty(), Set::empty())
    } else {
        let (kept, seen) = retention(items.drop_last());
        if kept_last(items) {
            (kept.push(items.len() - 1), seen + ref_keys(effective_aliases(items.last())).to_set())
        } else {
            (kept, seen)
        }
    }
}

/// The last file claims no project claimed before it.
pub open spec fn kept_last(items: Seq<IdentifiedJar>) -> bool
    decreases items.len(), 0int,
{
    items.len() > 0 && forall|k: int|
        0 <= k < effective_aliases(items.last()).len() ==> !retention(items.drop_last()).1.contains(
            #[trigger] ref_keys(effective_aliases(items.last()))[k],
        )
}

pub open spec fn skip_message(jar: IdentifiedJar) -> Seq<char> {
    jar.item.filename@ + " foi ignorado porque outro arquivo do mesmo projeto já foi registrado."@
}

/// One warning per dropped file, in order.
pub open spec fn skipped_messages(items: Seq<IdentifiedJar>) -> Seq<Seq<char>>
    decreases items.len(),
{
    if items.len() == 0 {
        Seq::empty()
    } else if kept_last(items) {
        skipped_messages(items.drop_last())
    } else {
        skipped_messages(items.drop_last()).push(skip_message(items.last()))
    }
}


/// The keys of the given references.
fn keys_of(refs: &Vec<ProjectRef>) -> (r: Vec<String>)
    ensures
        texts(r@) == ref_keys(refs@),
{
    let mut out: Vec<String> = Vec::new();
    let mut i: usize = 0;
    while i < refs.len()
        invariant
            i <= refs.len(),
            texts(out@) == ref_keys(refs@.take(i as int)),
        decreases refs.len() - i,
    {
        let ghost before = texts(out@);
        out.push(refs[i].key());
        assert(texts(out@) =~= before.push(refs@[i as int].key_view()));
        assert(ref_keys(refs@.take(i + 1)) =~= ref_keys(refs@.take(i as int)).push(refs@[i as int].key_view()));
        i = i + 1;
    }
    assert(refs@.take(refs.len() as int) =~= refs@);
    out
}

fn text_listed(list: &Vec<String>, k: &String) -> (r: bool)
    ensures
        r == texts(list@).contains(k@),
{
    let mut i: usize = 0;
    while i < list.len()
        invariant
            i <= list.len(),
            forall|j: int| 0 <= j < i ==> texts(list@)[j] != k@,
        decreases list.len() - i,
    {
        if list[i] == *k {
            assert(texts(list@)[i as int] == k@);
            return true;
        }
        i = i + 1;
    }
    false
}

/// Keeps the first file of each project, warning about the others.
fn retain_unique(items: Vec<IdentifiedJar>, warnings: &mut Vec<String>) -> (r: (Vec<InstalledMod>, Vec<Vec<ProjectRef>>))
    ensures
        r.0.len() == retention(items@).0.len(),
        r.1.len() == retention(items@).0.len(),
        forall|i: int| 0 <= i < r.0.len() ==> #[trigger] r.0@[i] == items@[retention(items@).0[i]].item,
        forall|i: int| 0 <= i < r.1.len() ==> #[trigger] r.1@[i]@ == effective_aliases(items@[retention(items@).0[i]]),
        forall|i: int| 0 <= i < r.0.len() ==> 0 <= #[trigger] retention(items@).0[i] < items.len(),
        texts(final(warnings)@) == texts(old(warnings)@) + skipped_messages(items@),
{
    let ghost original = items@;
    let ghost start = texts(warnings@);
    assert(original.len() == items.len());
    let mut rest = items;
    let mut mods: Vec<InstalledMod> = Vec::new();
    let mut alias_lists: Vec<Vec<ProjectRef>> = Vec::new();
    let mut seen: Vec<String> = Vec::new();
    let mut k: usize = 0;
    proof {
        assert(original.take(0) =~= Seq::<IdentifiedJar>::empty());
        assert(rest@ =~= original.skip(0));
        assert(texts(seen@).to_set() =~= Set::<Seq<char>>::empty());
        assert(texts(warnings@) =~= start + skipped_messages(original.take(0)));
    }
    while rest.len() > 0
        invariant
            k <= original.len(),
            original.len() <= usize::MAX,
            rest@ == original.skip(k as int),
            mods.len() == retention(original.take(k as int)).0.len(),
            alias_lists.len() == mods.len(),
            forall|i: int| 0 <= i < mods.len() ==> #[trigger] mods@[i] == original[retention(original.take(k as int)).0[i]].item,
            forall|i: int| 0 <= i < mods.len() ==> #[trigger] alias_lists@[i]@ == effective_aliases(original[retention(original.take(k as int)).0[i]]),
            forall|i: int| 0 <= i < mods.len() ==> 0 <= #[trigger] retention(original.take(k as int)).0[i] < k,
            texts(seen@).to_set() == retention(original.take(k as int)).1,
            texts(warnings@) == start + skipped_messages(original.take(k as int)),
        decreases rest.len(),
    {
        assert(k < original.len());
        let jar = rest.remove(0);
        proof {
            assert(jar == original[k as int]);
            assert(rest@ =~= original.skip(k + 1));
            assert(original.take(k + 1).drop_last() =~= original.take(k as int));
            assert(original.take(k + 1).last() == jar);
        }
        let ghost prefix = original.take(k + 1);
        let ghost prev = retention(original.take(k as int));
        let IdentifiedJar { item, versions: _, aliases, warnings: _, target_hint: _ } = jar;
        let refs = if aliases.len() == 0 {
            let mut own: Vec<ProjectRef> = Vec::new();
            own.push(ProjectRef { provider: item.provider, project_id: item.project_id.clone() });
            own
        } else {
            aliases
        };
        assert(refs@ =~= effective_aliases(prefix.last()));
        let keys = keys_of(&refs);
        let mut clash = false;
        let mut t: usize = 0;
        while t < keys.len()
            invariant
                t <= keys.len(),
                clash == exists|x: int| 0 <= x < t && texts(seen@).contains(#[trigger] texts(keys@)[x]),
            decreases keys.len() - t,
        {
            if text_listed(&seen, &keys[t]) {
                clash = true;
            }
            assert(texts(keys@)[t as int] == keys@[t as int]@);
            t = t + 1;
        }
        proof {
            let aliases_keys = ref_keys(effective_aliases(prefix.last()));
            assert(texts(keys@) == aliases_keys);
            assert(prefix.drop_last() =~= original.take(k as int));
            assert(retention(prefix.drop_last()).1 == texts(seen@).to_set());
            if clash {
                let x = choose|x: int| 0 <= x < keys.len() && texts(seen@).contains(#[trigger] texts(keys@)[x]);
                assert(texts(seen@).to_set().contains(aliases_keys[x]));
                assert(texts(keys@).len() == keys@.len());
                assert(aliases_keys.len() == effective_aliases(prefix.last()).len());
                assert(x < effective_aliases(prefix.last()).len());
                assert(retention(prefix.drop_last()).1.contains(ref_keys(effective_aliases(prefix.last()))[x]));
                assert(!kept_last(prefix));
            } else {
                assert forall|x: int| 0 <= x < effective_aliases(prefix.last()).len() implies !retention(prefix.drop_last()).1.contains(
                    #[trigger] ref_keys(effective_aliases(prefix.last()))[x],
                ) by {
                    assert(!texts(seen@).contains(texts(keys@)[x]));
                }
                assert(kept_last(prefix));
            }
        }
        if clash {
            let message = join2(item.filename.as_str(), " foi ignorado porque outro arquivo do mesmo projeto já foi registrado.");
            let ghost before = texts(warnings@);
            warnings.push(message);
            assert(texts(warnings@) =~= before.push(message@));
        } else {
            let ghost before_seen = texts(seen@);
            let mut t2: usize = 0;
            while t2 < keys.len()
                invariant
                    t2 <= keys.len(),
                    texts(seen@) == before_seen + texts(keys@).take(t2 as int),
                decreases keys.len() - t2,
            {
                let ghost b = texts(seen@);
                seen.push(keys[t2].clone());
                assert(texts(seen@) =~= b.push(keys@[t2 as int]@));
                assert(texts(keys@)[t2 as int] == keys@[t2 as int]@);
                assert(texts(keys@).take(t2 + 1) =~= texts(keys@).take(t2 as int).push(keys@[t2 as int]@));
                assert(texts(seen@) =~= before_seen + texts(keys@).take(t2 + 1));
                t2 = t2 + 1;
            }
            assert(texts(keys@).take(keys.len() as int) =~= texts(keys@));
            assert(texts(seen@).to_set() =~= prev.1 + ref_keys(effective_aliases(prefix.last())).to_set()) by {
                assert forall|x: Seq<char>| texts(seen@).to_set().contains(x) <==> (prev.1.contains(x) || ref_keys(
                    effective_aliases(prefix.last()),
                ).to_set().contains(x)) by {
                    if texts(seen@).contains(x) {
                        let j = choose|j: int| 0 <= j < texts(seen@).len() && texts(seen@)[j] == x;
                        if j < before_seen.len() {
                            assert(before_seen[j] == x);
                            assert(before_seen.to_set().contains(x));
                        } else {
                            assert(texts(keys@)[j - before_seen.len()] == x);
                        }
                    }
                    if prev.1.contains(x) {
                        assert(before_seen.to_set().contains(x));
                        let j = choose|j: int| 0 <= j < before_seen.len() && before_seen[j] == x;
                        assert(texts(seen@)[j] == x);
                    }
                    if ref_keys(effective_aliases(prefix.last())).to_set().contains(x) {
                        let j = choose|j: int| 0 <= j < texts(keys@).len() && texts(keys@)[j] == x;
                        assert(texts(seen@)[before_seen.len() + j] == x);
                    }
                }
            }
            let ghost before_mods = mods@;
            mods.push(item);
            alias_lists.push(refs);
            proof {
                assert(retention(prefix).0 == prev.0.push(k as int));
            }
        }
        k = k + 1;
    }
    assert(original.take(k as int) =~= original);
    (mods, alias_lists)
}


/// The catalog entry a recorded mod stands for.
pub open spec fn own_ref(m: InstalledMod) -> ProjectRef {
    ProjectRef { provider: m.provider, project_id: m.project_id }
}

/// Which project each key is recorded as: each kept file maps its own key
/// and every alias to its own entry; a later mapping of a key wins.
pub open spec fn canon_entries(mods: Seq<InstalledMod>, aliases: Seq<Seq<ProjectRef>>) -> Seq<(Seq<char>, ProjectRef)>
    decreases mods.len(),
{
    if mods.len() == 0 {
        Seq::empty()
    } else {
        let n = mods.len() - 1;
        canon_entries(mods.drop_last(), aliases.drop_last()) + seq![(own_ref(mods[n]).key_view(), own_ref(mods[n]))]
            + aliases[n].map_values(|a: ProjectRef| (a.key_view(), own_ref(mods[n])))
    }
}

pub open spec fn canon_lookup(entries: Seq<(Seq<char>, ProjectRef)>, key: Seq<char>) -> Option<ProjectRef>
    decreases entries.len(),
{
    if entries.len() == 0 {
        None
    } else if entries.last().0 == key {
        Some(entries.last().1)
    } else {
        canon_lookup(entries.drop_last(), key)
    }
}

/// The installed entry a dependency points at, or the dependency itself.
pub open spec fn canonical(entries: Seq<(Seq<char>, ProjectRef)>, r: ProjectRef) -> ProjectRef {
    match canon_lookup(entries, r.key_view()) {
        Some(c) => c,
        None => r,
    }
}

/// Inserts a reference in key order unless its key is already there.
pub open spec fn insert_ref(sorted: Seq<ProjectRef>, x: ProjectRef) -> Seq<ProjectRef>
    decreases sorted.len(),
{
    if sorted.len() == 0 {
        seq![x]
    } else if sorted[0].key_view() == x.key_view() {
        sorted
    } else if text_lt(x.key_view(), sorted[0].key_view()) {
        seq![x] + sorted
    } else {
        seq![sorted[0]] + insert_ref(sorted.drop_first(), x)
    }
}

/// The references sorted by key, the first of each key kept (as
/// `sort_by_key` then `dedup_by` on the key leave them).
pub open spec fn sorted_unique(s: Seq<ProjectRef>) -> Seq<ProjectRef>
    decreases s.len(),
{
    if s.len() == 0 {
        Seq::empty()
    } else {
        insert_ref(sorted_unique(s.drop_last()), s.last())
    }
}

pub open spec fn canonical_deps(entries: Seq<(Seq<char>, ProjectRef)>, deps: Seq<ProjectRef>) -> Seq<ProjectRef> {
    sorted_unique(deps.map_values(|d: ProjectRef| canonical(entries, d)))
}

pub open spec fn entry_views(v: Seq<(String, ProjectRef)>) -> Seq<(Seq<char>, ProjectRef)> {
    v.map_values(|e: (String, ProjectRef)| (e.0@, e.1))
}

fn own_ref_exec(m: &InstalledMod) -> (r: ProjectRef)
    ensures
        r == own_ref(*m),
{
    ProjectRef { provider: m.provider, project_id: m.project_id.clone() }
}

fn build_entries(mods: &Vec<InstalledMod>, aliases: &Vec<Vec<ProjectRef>>) -> (r: Vec<(String, ProjectRef)>)
    requires
        mods.len() == aliases.len(),
    ensures
        entry_views(r@) == canon_entries(mods@, aliases@.map_values(|a: Vec<ProjectRef>| a@)),
{
    let ghost alias_views = aliases@.map_values(|a: Vec<ProjectRef>| a@);
    let mut out: Vec<(String, ProjectRef)> = Vec::new();
    let mut i: usize = 0;
    while i < mods.len()
        invariant
            i <= mods.len(),
            mods.len() == aliases.len(),
            alias_views == aliases@.map_values(|a: Vec<ProjectRef>| a@),
            entry_views(out@) == canon_entries(mods@.take(i as int), alias_views.take(i as int)),
        decreases mods.len() - i,
    {
        let own = own_ref_exec(&mods[i]);
        let ghost before = entry_views(out@);
        out.push((own.key(), own.clone()));
        let list = &aliases[i];
        let mut j: usize = 0;
        while j < list.len()
            invariant
                j <= list.len(),
                i < mods.len(),
                own == own_ref(mods@[i as int]),
                entry_views(out@) == before + seq![(own.key_view(), own)] + list@.take(j as int).map_values(
                    |a: ProjectRef| (a.key_view(), own),
                ),
            decreases list.len() - j,
        {
            let ghost b = entry_views(out@);
            out.push((list[j].key(), own.clone()));
            assert(entry_views(out@) =~= b.push((list@[j as int].key_view(), own)));
            assert(list@.take(j + 1).map_values(|a: ProjectRef| (a.key_view(), own)) =~= list@.take(j as int).map_values(
                |a: ProjectRef| (a.key_view(), own),
            ).push((list@[j as int].key_view(), own)));
            j = j + 1;
        }
        proof {
            assert(list@.take(list.len() as int) =~= list@);
            assert(mods@.take(i + 1).drop_last() =~= mods@.take(i as int));
            assert(alias_views.take(i + 1).drop_last() =~= alias_views.take(i as int));
            assert(alias_views[i as int] == list@);
            assert(entry_views(out@) =~= canon_entries(mods@.take(i + 1), alias_views.take(i + 1)));
        }
        i = i + 1;
    }
    assert(mods@.take(mods.len() as int) =~= mods@);
    assert(alias_views.take(mods.len() as int) =~= alias_views);
    out
}

fn canonical_exec(entries: &Vec<(String, ProjectRef)>, r: &ProjectRef) -> (c: ProjectRef)
    ensures
        c == canonical(entry_views(entries@), *r),
{
    let key = r.key();
    let mut i: usize = entries.len();
    proof {
        assert(entry_views(entries@).take(i as int) =~= entry_views(entries@));
    }
    while i > 0
        invariant
            i <= entries.len(),
            key@ == r.key_view(),
            canon_lookup(entry_views(entries@), key@) == canon_lookup(entry_views(entries@).take(i as int), key@),
        decreases i,
    {
        let ghost prefix = entry_views(entries@).take(i as int);
        assert(prefix.last() == (entries@[i - 1].0@, entries@[i - 1].1));
        assert(prefix.drop_last() =~= entry_views(entries@).take(i - 1));
        if entries[i - 1].0 == key {
            assert(canon_lookup(prefix, key@) == Some(prefix.last().1));
            let found = entries[i - 1].1.clone();
            assert(found == entries@[i - 1].1);
            assert(canonical(entry_views(entries@), *r) == found);
            return found;
        }
        i = i - 1;
    }
    r.clone()
}

pub proof fn lemma_insert_ref_position(sorted: Seq<ProjectRef>, x: ProjectRef, p: int)
    requires
        0 <= p <= sorted.len(),
        forall|j: int| 0 <= j < p ==> #[trigger] sorted[j].key_view() != x.key_view() && !text_lt(x.key_view(), sorted[j].key_view()),
        p < sorted.len() ==> sorted[p].key_view() == x.key_view() || text_lt(x.key_view(), sorted[p].key_view()),
    ensures
        p < sorted.len() && sorted[p].key_view() == x.key_view() ==> insert_ref(sorted, x) == sorted,
        !(p < sorted.len() && sorted[p].key_view() == x.key_view()) ==> insert_ref(sorted, x) == sorted.take(p) + seq![x]
            + sorted.skip(p),
    decreases sorted.len(),
{
    if sorted.len() == 0 {
        assert(sorted.take(p) + seq![x] + sorted.skip(p) =~= seq![x]);
    } else if p == 0 {
        assert(sorted.take(p) + seq![x] + sorted.skip(p) =~= seq![x] + sorted);
    } else {
        let t = sorted.drop_first();
        assert(sorted[0].key_view() != x.key_view());
        assert forall|j: int| 0 <= j < p - 1 implies #[trigger] t[j].key_view() != x.key_view() && !text_lt(x.key_view(), t[j].key_view()) by {
            assert(t[j] == sorted[j + 1]);
        }
        lemma_insert_ref_position(t, x, p - 1);
        if p < sorted.len() && sorted[p].key_view() == x.key_view() {
            assert(seq![sorted[0]] + t =~= sorted);
        } else {
            assert(seq![sorted[0]] + (t.take(p - 1) + seq![x] + t.skip(p - 1)) =~= sorted.take(p) + seq![x] + sorted.skip(p));
        }
    }
}

/// Dependencies pointed at the installed entries, sorted by key, each once.
fn canonicalize_deps(entries: &Vec<(String, ProjectRef)>, deps: &Vec<ProjectRef>) -> (r: Vec<ProjectRef>)
    ensures
        r@ == canonical_deps(entry_views(entries@), deps@),
{
    let ghost mapped = deps@.map_values(|d: ProjectRef| canonical(entry_views(entries@), d));
    let mut out: Vec<ProjectRef> = Vec::new();
    let mut out_keys: Vec<String> = Vec::new();
    let mut i: usize = 0;
    while i < deps.len()
        invariant
            i <= deps.len(),
            mapped == deps@.map_values(|d: ProjectRef| canonical(entry_views(entries@), d)),
            out@ == sorted_unique(mapped.take(i as int)),
            out_keys.len() == out.len(),
            forall|j: int| 0 <= j < out.len() ==> #[trigger] out_keys@[j]@ == out@[j].key_view(),
        decreases deps.len() - i,
    {
        let c = canonical_exec(entries, &deps[i]);
        let key = c.key();
        let kv = chars_of(key.as_str());
        let mut p: usize = 0;
        let mut stop = false;
        while !stop && p < out.len()
            invariant
                p <= out.len(),
                out_keys.len() == out.len(),
                forall|j: int| 0 <= j < out.len() ==> #[trigger] out_keys@[j]@ == out@[j].key_view(),
                kv@ == c.key_view(),
                key@ == c.key_view(),
                forall|j: int| 0 <= j < p ==> #[trigger] out@[j].key_view() != c.key_view() && !text_lt(c.key_view(), out@[j].key_view()),
                stop ==> p < out.len() && (out@[p as int].key_view() == c.key_view() || text_lt(c.key_view(), out@[p as int].key_view())),
            decreases out.len() - p, if stop { 0int } else { 1int },
        {
            let other = chars_of(out_keys[p].as_str());
            if out_keys[p] == key || text_less(&kv, &other) {
                stop = true;
            } else {
                p = p + 1;
            }
        }
        let same = stop && out_keys[p] == key;
        proof {
            assert(mapped.take(i + 1).drop_last() =~= mapped.take(i as int));
            assert(mapped.take(i + 1).last() == c);
            lemma_insert_ref_position(out@, c, p as int);
        }
        if !same {
            let ghost before = out@;
            out.insert(p, c);
            out_keys.insert(p, key);
            assert(out@ =~= before.take(p as int) + seq![c] + before.skip(p as int));
            assert forall|j: int| 0 <= j < out.len() implies #[trigger] out_keys@[j]@ == out@[j].key_view() by {
                if j < p {
                } else if j > p {
                    assert(out@[j] == before[j - 1]);
                }
            }
        }
        i = i + 1;
    }
    assert(mapped.take(deps.len() as int) =~= mapped);
    out
}


pub open spec fn kept_mods(items: Seq<IdentifiedJar>) -> Seq<InstalledMod> {
    retention(items).0.map_values(|i: int| items[i].item)
}

pub open spec fn kept_aliases(items: Seq<IdentifiedJar>) -> Seq<Seq<ProjectRef>> {
    retention(items).0.map_values(|i: int| effective_aliases(items[i]))
}

pub open spec fn import_entries(items: Seq<IdentifiedJar>) -> Seq<(Seq<char>, ProjectRef)> {
    canon_entries(kept_mods(items), kept_aliases(items))
}

/// A kept mod's dependencies once pointed at the installed entries.
pub open spec fn new_deps(entries: Seq<(Seq<char>, ProjectRef)>, m: InstalledMod) -> Option<Seq<ProjectRef>> {
    match m.required_dependencies {
        Some(d) => Some(canonical_deps(entries, d@)),
        None => None,
    }
}

/// The keys of every kept mod's dependencies, in order.
pub open spec fn dep_keys(entries: Seq<(Seq<char>, ProjectRef)>, mods: Seq<InstalledMod>) -> Seq<Seq<char>>
    decreases mods.len(),
{
    if mods.len() == 0 {
        Seq::empty()
    } else {
        dep_keys(entries, mods.drop_last()) + match new_deps(entries, mods.last()) {
            Some(d) => ref_keys(d),
            None => Seq::empty(),
        }
    }
}

/// `m` is the record of `orig` after import: its dependencies point at the
/// installed entries, and it counts as a dependency when another kept mod
/// (or itself) requires it.
pub open spec fn imported(m: InstalledMod, orig: InstalledMod, entries: Seq<(Seq<char>, ProjectRef)>, all: Seq<InstalledMod>) -> bool {
    &&& m.provider == orig.provider
    &&& m.project_id == orig.project_id
    &&& m.name == orig.name
    &&& m.version_id == orig.version_id
    &&& m.version_number == orig.version_number
    &&& m.filename == orig.filename
    &&& m.installed_at == orig.installed_at
    &&& m.hashes == orig.hashes
    &&& m.enabled == orig.enabled
    &&& match new_deps(entries, orig) {
        Some(d) => m.required_dependencies matches Some(x) && x@ == d,
        None => m.required_dependencies is None,
    }
    &&& m.reason == if dep_keys(entries, all).contains(own_ref(orig).key_view()) {
        InstallReason::Required
    } else {
        orig.reason
    }
}

/// The key mods are listed by: lowercased name, then lowercased file name.
pub open spec fn name_key(m: InstalledMod) -> (Seq<char>, Seq<char>) {
    (unicode_lowercase(m.name@), unicode_lowercase(m.filename@))
}

pub open spec fn pair_lt(a: (Seq<char>, Seq<char>), b: (Seq<char>, Seq<char>)) -> bool {
    text_lt(a.0, b.0) || (a.0 == b.0 && text_lt(a.1, b.1))
}

/// Inserts index `j` after every index whose key is not greater.
pub open spec fn insert_index(order: Seq<int>, keys: Seq<(Seq<char>, Seq<char>)>, j: int) -> Seq<int>
    decreases order.len(),
{
    if order.len() == 0 {
        seq![j]
    } else if pair_lt(keys[j], keys[order[0]]) {
        seq![j] + order
    } else {
        seq![order[0]] + insert_index(order.drop_first(), keys, j)
    }
}

/// The order a stable sort by key puts the first `n` entries in.
pub open spec fn sorted_prefix(keys: Seq<(Seq<char>, Seq<char>)>, n: nat) -> Seq<int>
    decreases n,
{
    if n == 0 {
        Seq::empty()
    } else {
        insert_index(sorted_prefix(keys, (n - 1) as nat), keys, n - 1)
    }
}

pub open spec fn remote_count(mods: Seq<InstalledMod>) -> int
    decreases mods.len(),
{
    if mods.len() == 0 {
        0
    } else {
        remote_count(mods.drop_last()) + if mods.last().provider != ProviderId::Local {
            1int
        } else {
            0int
        }
    }
}

pub open spec fn own_keys(mods: Seq<InstalledMod>) -> Seq<Seq<char>> {
    mods.map_values(|m: InstalledMod| own_ref(m).key_view())
}

pub proof fn lemma_insert_index_at(order: Seq<int>, keys: Seq<(Seq<char>, Seq<char>)>, j: int, p: int)
    requires
        0 <= p <= order.len(),
        forall|x: int| 0 <= x < p ==> !pair_lt(keys[j], #[trigger] keys[order[x]]),
        p < order.len() ==> pair_lt(keys[j], keys[order[p]]),
    ensures
        insert_index(order, keys, j) == order.take(p) + seq![j] + order.skip(p),
    decreases order.len(),
{
    if order.len() == 0 {
        assert(order.take(p) + seq![j] + order.skip(p) =~= seq![j]);
    } else if p == 0 {
        assert(order.take(p) + seq![j] + order.skip(p) =~= seq![j] + order);
    } else {
        let t = order.drop_first();
        assert(!pair_lt(keys[j], keys[order[0]]));
        assert forall|x: int| 0 <= x < p - 1 implies !pair_lt(keys[j], #[trigger] keys[t[x]]) by {
            assert(t[x] == order[x + 1]);
        }
        lemma_insert_index_at(t, keys, j, p - 1);
        assert(seq![order[0]] + (t.take(p - 1) + seq![j] + t.skip(p - 1)) =~= order.take(p) + seq![j] + order.skip(p));
    }
}

fn name_key_exec(m: &InstalledMod) -> (r: (Vec<char>, Vec<char>))
    ensures
        (r.0@, r.1@) == name_key(*m),
{
    let name = to_lowercase(m.name.as_str());
    let file = to_lowercase(m.filename.as_str());
    (chars_of(name.as_str()), chars_of(file.as_str()))
}

fn key_pair_less(a: &(Vec<char>, Vec<char>), b: &(Vec<char>, Vec<char>)) -> (r: bool)
    ensures
        r == pair_lt((a.0@, a.1@), (b.0@, b.1@)),
{
    text_less(&a.0, &b.0) || (crate::text::text_equal(&a.0, &b.0) && text_less(&a.1, &b.1))
}


pub open spec fn name_keys(mods: Seq<InstalledMod>) -> Seq<(Seq<char>, Seq<char>)> {
    mods.map_values(|m: InstalledMod| name_key(m))
}

/// The order the kept mods are listed in.
pub open spec fn import_order(items: Seq<IdentifiedJar>) -> Seq<int> {
    sorted_prefix(name_keys(kept_mods(items)), kept_mods(items).len())
}

/// Every field but the dependencies and the reason is unchanged.
pub open spec fn same_record(m: InstalledMod, orig: InstalledMod) -> bool {
    &&& m.provider == orig.provider
    &&& m.project_id == orig.project_id
    &&& m.name == orig.name
    &&& m.version_id == orig.version_id
    &&& m.version_number == orig.version_number
    &&& m.filename == orig.filename
    &&& m.installed_at == orig.installed_at
    &&& m.hashes == orig.hashes
    &&& m.enabled == orig.enabled
}

pub open spec fn deps_rewritten(m: InstalledMod, orig: InstalledMod, entries: Seq<(Seq<char>, ProjectRef)>) -> bool {
    match new_deps(entries, orig) {
        Some(d) => m.required_dependencies matches Some(x) && x@ == d,
        None => m.required_dependencies is None,
    }
}

/// Records the mods found in an instance.
///
/// A file whose projects were all seen before is dropped with a warning;
/// dependencies are pointed at the copy that is installed (by any of the
/// catalogs it was found in), sorted and without repeats; a mod that another
/// one requires is marked as a dependency; the list is sorted by name and
/// file name. Also returns how many mods came from a catalog and how many
/// further distinct projects are local files.
pub fn build_mod_index(identified: &mut Vec<IdentifiedJar>, warnings: &mut Vec<String>) -> (r: (Vec<InstalledMod>, usize, usize))
    ensures
        final(identified)@.len() == 0,
        texts(final(warnings)@) == texts(old(warnings)@) + skipped_messages(old(identified)@),
        r.0.len() == kept_mods(old(identified)@).len(),
        forall|i: int| 0 <= i < r.0.len() ==> {
            let kept = kept_mods(old(identified)@);
            let j = #[trigger] import_order(old(identified)@)[i];
            0 <= j < kept.len() && imported(r.0@[i], kept[j], import_entries(old(identified)@), kept)
        },
        r.1 == remote_count(r.0@),
        r.2 == if own_keys(r.0@).to_set().len() >= r.1 {
            own_keys(r.0@).to_set().len() - r.1
        } else {
            0
        },
{
    let ghost items = identified@;
    let mut taken: Vec<IdentifiedJar> = Vec::new();
    std::mem::swap(identified, &mut taken);
    assert(taken@ == items);
    let (mut mods, aliases) = retain_unique(taken, warnings);
    let ghost kept = mods@;
    proof {
        assert(kept =~= kept_mods(items));
        assert(aliases@.map_values(|a: Vec<ProjectRef>| a@) =~= kept_aliases(items));
    }
    let entries = build_entries(&mods, &aliases);
    let ghost ev = entry_views(entries@);
    assert(ev == import_entries(items));
    let mut i: usize = 0;
    while i < mods.len()
        invariant
            i <= mods.len(),
            mods.len() == kept.len(),
            ev == entry_views(entries@),
            forall|j: int| 0 <= j < i ==> same_record(#[trigger] mods@[j], kept[j]) && mods@[j].reason == kept[j].reason
                && deps_rewritten(mods@[j], kept[j], ev),
            forall|j: int| i <= j < mods.len() ==> #[trigger] mods@[j] == kept[j],
        decreases mods.len() - i,
    {
        let rewritten = match &mods[i].required_dependencies {
            Some(deps) => Some(canonicalize_deps(&entries, deps)),
            None => None,
        };
        mods[i].required_dependencies = rewritten;
        i = i + 1;
    }
    let mut dependency_keys: Vec<String> = Vec::new();
    let mut k: usize = 0;
    while k < mods.len()
        invariant
            k <= mods.len(),
            mods.len() == kept.len(),
            forall|j: int| 0 <= j < mods.len() ==> same_record(#[trigger] mods@[j], kept[j]) && mods@[j].reason == kept[j].reason
                && deps_rewritten(mods@[j], kept[j], ev),
            texts(dependency_keys@) == dep_keys(ev, kept.take(k as int)),
        decreases mods.len() - k,
    {
        proof {
            assert(kept.take(k + 1).drop_last() =~= kept.take(k as int));
            assert(kept.take(k + 1).last() == kept[k as int]);
        }
        match &mods[k].required_dependencies {
            Some(deps) => {
                let keys = keys_of(deps);
                let ghost before = texts(dependency_keys@);
                let mut t: usize = 0;
                while t < keys.len()
                    invariant
                        t <= keys.len(),
                        texts(dependency_keys@) == before + texts(keys@).take(t as int),
                    decreases keys.len() - t,
                {
                    let ghost b = texts(dependency_keys@);
                    dependency_keys.push(keys[t].clone());
                    assert(texts(dependency_keys@) =~= b.push(keys@[t as int]@));
                    assert(texts(keys@).take(t + 1) =~= texts(keys@).take(t as int).push(keys@[t as int]@));
                    t = t + 1;
                }
                assert(texts(keys@).take(keys.len() as int) =~= texts(keys@));
            },
            None => {
                assert(dep_keys(ev, kept.take(k + 1)) =~= dep_keys(ev, kept.take(k as int)));
            },
        }
        k = k + 1;
    }
    assert(kept.take(mods.len() as int) =~= kept);
    let mut t: usize = 0;
    while t < mods.len()
        invariant
            t <= mods.len(),
            mods.len() == kept.len(),
            texts(dependency_keys@) == dep_keys(ev, kept),
            forall|j: int| 0 <= j < t ==> #[trigger] imported(mods@[j], kept[j], ev, kept),
            forall|j: int| t <= j < mods.len() ==> same_record(#[trigger] mods@[j], kept[j]) && mods@[j].reason == kept[j].reason
                && deps_rewritten(mods@[j], kept[j], ev),
        decreases mods.len() - t,
    {
        let own = own_ref_exec(&mods[t]);
        let own_key = own.key();
        if text_listed(&dependency_keys, &own_key) {
            mods[t].reason = InstallReason::Required;
        }
        t = t + 1;
    }
    let ghost procs = mods@;
    let ghost table = name_keys(kept);
    let mut rest = mods;
    let mut out: Vec<InstalledMod> = Vec::new();
    let mut out_keys: Vec<(Vec<char>, Vec<char>)> = Vec::new();
    let mut n: usize = 0;
    assert(rest@ =~= procs.skip(0));
    while rest.len() > 0
        invariant
            n <= procs.len(),
            procs.len() == kept.len(),
            procs.len() <= usize::MAX,
            table == name_keys(kept),
            rest@ == procs.skip(n as int),
            out.len() == n,
            out_keys.len() == n,
            sorted_prefix(table, n as nat).len() == n,
            forall|x: int| 0 <= x < procs.len() ==> #[trigger] imported(procs[x], kept[x], ev, kept),
            forall|x: int| 0 <= x < n ==> {
                let j = #[trigger] sorted_prefix(table, n as nat)[x];
                &&& 0 <= j < n
                &&& out@[x] == procs[j]
                &&& (out_keys@[x].0@, out_keys@[x].1@) == table[j]
            },
        decreases rest.len(),
    {
        assert(n < procs.len());
        let m = rest.remove(0);
        assert(m == procs[n as int]);
        assert(rest@ =~= procs.skip(n + 1));
        let key = name_key_exec(&m);
        assert(imported(procs[n as int], kept[n as int], ev, kept));
        assert((key.0@, key.1@) == table[n as int]);
        let ghost order = sorted_prefix(table, n as nat);
        let mut p: usize = 0;
        let mut stop = false;
        while !stop && p < out.len()
            invariant
                p <= out.len(),
                out.len() == n,
                out_keys.len() == n,
                order == sorted_prefix(table, n as nat),
                order.len() == n,
                (key.0@, key.1@) == table[n as int],
                forall|x: int| 0 <= x < n ==> (out_keys@[x].0@, out_keys@[x].1@) == table[#[trigger] order[x]],
                forall|x: int| 0 <= x < p ==> !pair_lt(table[n as int], #[trigger] table[order[x]]),
                stop ==> p < out.len() && pair_lt(table[n as int], table[order[p as int]]),
            decreases out.len() - p, if stop { 0int } else { 1int },
        {
            if key_pair_less(&key, &out_keys[p]) {
                stop = true;
            } else {
                p = p + 1;
            }
        }
        proof {
            lemma_insert_index_at(order, table, n as int, p as int);
            assert(sorted_prefix(table, (n + 1) as nat) == order.take(p as int) + seq![n as int] + order.skip(p as int));
        }
        let ghost before_out = out@;
        let ghost before_keys = out_keys@;
        out.insert(p, m);
        out_keys.insert(p, key);
        proof {
            let neworder = sorted_prefix(table, (n + 1) as nat);
            assert forall|x: int| 0 <= x < n + 1 implies {
                let j = #[trigger] sorted_prefix(table, (n + 1) as nat)[x];
                &&& 0 <= j < n + 1
                &&& out@[x] == procs[j]
                &&& (out_keys@[x].0@, out_keys@[x].1@) == table[j]
            } by {
                if x < p {
                    assert(neworder[x] == order[x]);
                    assert(out@[x] == before_out[x]);
                    assert(out_keys@[x] == before_keys[x]);
                } else if x > p {
                    assert(neworder[x] == order[x - 1]);
                    assert(out@[x] == before_out[x - 1]);
                    assert(out_keys@[x] == before_keys[x - 1]);
                } else {
                    assert(neworder[x] == n);
                }
            }
        }
        n = n + 1;
    }
    let mut recognized: usize = 0;
    let mut uniq: Vec<String> = Vec::new();
    let mut q: usize = 0;
    while q < out.len()
        invariant
            q <= out.len(),
            recognized <= q,
            recognized == remote_count(out@.take(q as int)),
            texts(uniq@).no_duplicates(),
            texts(uniq@).to_set() == own_keys(out@.take(q as int)).to_set(),
        decreases out.len() - q,
    {
        proof {
            assert(out@.take(q + 1).drop_last() =~= out@.take(q as int));
        }
        if out[q].provider != ProviderId::Local {
            recognized = recognized + 1;
        }
        let key = own_ref_exec(&out[q]).key();
        let ghost before = texts(uniq@);
        let ghost kv = own_keys(out@.take(q + 1));
        assert(kv =~= own_keys(out@.take(q as int)).push(key@));
        proof {
            own_keys(out@.take(q as int)).lemma_push_to_set_commute(key@);
        }
        if !text_listed(&uniq, &key) {
            uniq.push(key);
            assert(texts(uniq@) =~= before.push(key@));
            proof {
                before.lemma_push_to_set_commute(key@);
            }
            assert(texts(uniq@).to_set() =~= kv.to_set());
        } else {
            assert(before.to_set().contains(key@));
            assert(texts(uniq@).to_set() =~= kv.to_set());
        }
        q = q + 1;
    }
    assert(out@.take(out.len() as int) =~= out@);
    proof {
        texts(uniq@).unique_seq_to_set();
    }
    let distinct = uniq.len();
    let local_only = if distinct >= recognized {
        distinct - recognized
    } else {
        0
    };
    (out, recognized, local_only)
}

} // verus!
