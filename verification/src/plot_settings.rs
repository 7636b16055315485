//! The settings a plot of the dashboard can filter on: every path from the
//! root of a result file to a leaf, each switched on or off. They are kept in
//! an `IndexMap` of `indexmap`, in the order they were entered.

use indexmap::IndexMap;
use vstd::prelude::*;

use crate::json::{collect_paths_from_json, is_null_free, json_paths, members_paths, null_free, parse_json, parsed_json, texts, Json};

verus! {

/// The map type of `indexmap`; opaque to the verified code, which sees its
/// entries through `settings_entries`.
#[verifier::external_type_specification]
#[verifier::external_body]
#[verifier::reject_recursive_types(K)]
#[verifier::reject_recursive_types(V)]
#[verifier::reject_recursive_types(S)]
pub struct ExIndexMap<K, V, S>(IndexMap<K, V, S>);

/// The entries of a map from paths to flags, in the map's order: each path
/// as the texts of its parts, with its flag.
pub uninterp spec fn settings_entries(m: IndexMap<Vec<String>, bool>) -> Seq<(Seq<Seq<char>>, bool)>;

/// Some entry has the key.
pub open spec fn has_key(entries: Seq<(Seq<Seq<char>>, bool)>, key: Seq<Seq<char>>) -> bool {
    exists|i: int| 0 <= i < entries.len() && (#[trigger] entries[i]).0 == key
}

/// The position of the first entry with the key.
pub open spec fn key_pos(entries: Seq<(Seq<Seq<char>>, bool)>, key: Seq<Seq<char>>) -> int
    decreases entries.len(),
{
    if entries.len() == 0 {
        0
    } else if has_key(entries.drop_last(), key) {
        key_pos(entries.drop_last(), key)
    } else {
        entries.len() - 1
    }
}

/// Where some entry has the key, the first one is at `key_pos`.
pub proof fn lemma_key_pos(entries: Seq<(Seq<Seq<char>>, bool)>, key: Seq<Seq<char>>)
    requires
        has_key(entries, key),
    ensures
        0 <= key_pos(entries, key) < entries.len(),
        entries[key_pos(entries, key)].0 == key,
        forall|j: int| 0 <= j < key_pos(entries, key) ==> (#[trigger] entries[j]).0 != key,
    decreases entries.len(),
{
    let d = entries.drop_last();
    if has_key(d, key) {
        lemma_key_pos(d, key);
        assert forall|j: int| 0 <= j < key_pos(entries, key) implies (#[trigger] entries[j]).0 != key by {
            assert(entries[j] == d[j]);
        }
    } else {
        let i = choose|i: int| 0 <= i < entries.len() && (#[trigger] entries[i]).0 == key;
        if i < entries.len() - 1 {
            assert(d[i] == entries[i]);
        }
        assert forall|j: int| 0 <= j < entries.len() - 1 implies (#[trigger] entries[j]).0 != key by {
            assert(d[j] == entries[j]);
        }
    }
}

/// `IndexMap::new`: a map without entries.
#[verifier::external_body]
fn new_settings_map() -> (m: IndexMap<Vec<String>, bool>)
    ensures
        settings_entries(m) == Seq::<(Seq<Seq<char>>, bool)>::empty(),
{
    IndexMap::new()
}

/// `IndexMap::insert`: where an entry has the key, its flag is replaced in
/// place and the old flag returned; else the entry is appended last and
/// `None` returned.
#[verifier::external_body]
fn insert_setting(m: &mut IndexMap<Vec<String>, bool>, key: Vec<String>, value: bool) -> (previous: Option<bool>)
    ensures
        has_key(settings_entries(*old(m)), texts(key@)) ==> settings_entries(*final(m)) == settings_entries(*old(m)).update(
            key_pos(settings_entries(*old(m)), texts(key@)),
            (texts(key@), value),
        ) && previous == Some(settings_entries(*old(m))[key_pos(settings_entries(*old(m)), texts(key@))].1),
        !has_key(settings_entries(*old(m)), texts(key@)) ==> settings_entries(*final(m)) == settings_entries(*old(m)).push(
            (texts(key@), value),
        ) && previous is None,
{
    m.insert(key, value)
}

/// `IndexMap::get`: the flag of the entry with the key, `None` where no
/// entry has it.
#[verifier::external_body]
fn get_setting(m: &IndexMap<Vec<String>, bool>, key: &Vec<String>) -> (r: Option<bool>)
    ensures
        has_key(settings_entries(*m), texts(key@)) ==> r == Some(settings_entries(*m)[key_pos(settings_entries(*m), texts(key@))].1),
        !has_key(settings_entries(*m), texts(key@)) ==> r is None,
{
    m.get(key).copied()
}

/// `IndexMap::keys`: the keys of the entries, in the map's order.
#[verifier::external_body]
fn setting_keys(m: &IndexMap<Vec<String>, bool>) -> (keys: Vec<Vec<String>>)
    ensures
        keys@.map_values(|p: Vec<String>| texts(p@)) == settings_entries(*m).map_values(
            |e: (Seq<Seq<char>>, bool)| e.0,
        ),
{
    m.keys().cloned().collect()
}

/// The members of an object other than those with the key.
pub open spec fn without_key(members: Seq<(String, Json)>, key: Seq<char>) -> Seq<(String, Json)>
    decreases members.len(),
{
    if members.len() == 0 {
        members
    } else if members.last().0@ == key {
        without_key(members.drop_last(), key)
    } else {
        without_key(members.drop_last(), key).push(members.last())
    }
}

/// The keys of the entries, in order.
pub open spec fn keys_of(entries: Seq<(Seq<Seq<char>>, bool)>) -> Seq<Seq<Seq<char>>> {
    entries.map_values(|e: (Seq<Seq<char>>, bool)| e.0)
}

/// The paths of the files, without their fitness traces, file after file.
pub open spec fn all_paths(files: Seq<Json>) -> Seq<Seq<Seq<char>>>
    decreases files.len(),
{
    if files.len() == 0 {
        Seq::empty()
    } else {
        all_paths(files.drop_last()) + traceless_paths(files.last())
    }
}

/// Each path of `s` once, where it first occurs, in order.
pub open spec fn first_occurrences(s: Seq<Seq<Seq<char>>>) -> Seq<Seq<Seq<char>>>
    decreases s.len(),
{
    if s.len() == 0 {
        Seq::empty()
    } else if first_occurrences(s.drop_last()).contains(s.last()) {
        first_occurrences(s.drop_last())
    } else {
        first_occurrences(s.drop_last()).push(s.last())
    }
}

/// Leaving out the members named `key` keeps every other member, in their
/// order, and no member named `key`.
pub proof fn lemma_without_key_keeps_others(members: Seq<(String, Json)>, key: Seq<char>)
    ensures
        forall|i: int| 0 <= i < members.len() && (#[trigger] members[i]).0@ != key ==> without_key(members, key).contains(members[i]),
        forall|i: int| 0 <= i < without_key(members, key).len() ==> (#[trigger] without_key(members, key)[i]).0@ != key
            && members.contains(without_key(members, key)[i]),
    decreases members.len(),
{
    if members.len() > 0 {
        let front = members.drop_last();
        let x = members.last();
        lemma_without_key_keeps_others(front, key);
        let w = without_key(members, key);
        let w0 = without_key(front, key);
        assert forall|i: int| 0 <= i < members.len() && (#[trigger] members[i]).0@ != key implies w.contains(members[i]) by {
            if i < members.len() - 1 {
                assert(front[i] == members[i]);
                assert(w0.contains(front[i]));
                let k = choose|k: int| 0 <= k < w0.len() && w0[k] == front[i];
                if x.0@ == key {
                    assert(w == w0);
                } else {
                    assert(w[k] == w0[k]);
                }
            } else {
                assert(w[w.len() - 1] == x);
            }
        }
        assert forall|i: int| 0 <= i < w.len() implies (#[trigger] w[i]).0@ != key && members.contains(w[i]) by {
            if x.0@ != key && i == w.len() - 1 {
                assert(w[i] == x);
                assert(members[members.len() - 1] == x);
            } else {
                assert(w[i] == w0[i]);
                let k = choose|k: int| 0 <= k < front.len() && front[k] == w0[i];
                assert(members[k] == front[k]);
            }
        }
    }
}

/// The paths of each member of a list, after `path` and the member's name,
/// are among the paths of the list.
proof fn lemma_members_paths_include(members: Seq<(String, Json)>, path: Seq<Seq<char>>, m: (String, Json))
    requires
        members.contains(m),
    ensures
        forall|j: int| 0 <= j < json_paths(m.1, path.push(m.0@)).len() ==> members_paths(members, path).contains(
            #[trigger] json_paths(m.1, path.push(m.0@))[j],
        ),
    decreases members.len(),
{
    let front = members.drop_last();
    let x = members.last();
    let own = json_paths(m.1, path.push(m.0@));
    let all = members_paths(members, path);
    let before = members_paths(front, path);
    assert(all == before + json_paths(x.1, path.push(x.0@)));
    if front.contains(m) {
        lemma_members_paths_include(front, path, m);
        assert forall|j: int| 0 <= j < own.len() implies all.contains(#[trigger] own[j]) by {
            let k = choose|k: int| 0 <= k < before.len() && before[k] == own[j];
            assert(all[k] == before[k]);
        }
    } else {
        let k = choose|k: int| 0 <= k < members.len() && members[k] == m;
        if k < members.len() - 1 {
            assert(front[k] == m);
        }
        assert(x == m);
        assert forall|j: int| 0 <= j < own.len() implies all.contains(#[trigger] own[j]) by {
            assert(all[before.len() + j] == own[j]);
        }
    }
}

/// Only the fitness traces are left out of a result file's settings: every
/// path of every member not named `evaluated_traces`, after the member's
/// name, is a path of the file's settings.
pub proof fn lemma_traceless_paths_keep_other_members(members: Vec<(String, Json)>, i: int)
    requires
        0 <= i < members@.len(),
        members@[i].0@ != "evaluated_traces"@,
    ensures
        forall|j: int|
            0 <= j < json_paths(members@[i].1, seq![members@[i].0@]).len() ==> traceless_paths(Json::Object(members)).contains(
                #[trigger] json_paths(members@[i].1, seq![members@[i].0@])[j],
            ),
{
    let ms = members@;
    let kept = without_key(ms, "evaluated_traces"@);
    lemma_without_key_keeps_others(ms, "evaluated_traces"@);
    assert(kept.contains(ms[i]));
    lemma_members_paths_include(kept, Seq::empty(), ms[i]);
    assert(Seq::<Seq<char>>::empty().push(ms[i].0@) =~= seq![ms[i].0@]);
}

/// A result file the settings can be read from: an object without `null`.
pub open spec fn readable_file(file: Json) -> bool {
    file is Object && null_free(file)
}

/// A text that `serde_json` parses into a result file the settings can be
/// read from.
pub open spec fn readable_text(text: Seq<char>) -> bool {
    parsed_json(text) matches Some(file) && readable_file(file)
}

/// The result files that the texts parse into.
pub open spec fn parsed_files(texts: Seq<String>) -> Seq<Json> {
    texts.map_values(|t: String| parsed_json(t@)->0)
}

/// `entries` are the settings of the result files `files`: the paths of each
/// file without its fitness traces, each path once, switched off, in the
/// order in which they first occur, file after file.
pub open spec fn settings_of(entries: Seq<(Seq<Seq<char>>, bool)>, files: Seq<Json>) -> bool {
    &&& forall|i: int, j: int| 0 <= i < j < entries.len() ==> (#[trigger] entries[i]).0 != (#[trigger] entries[j]).0
    &&& forall|i: int| 0 <= i < entries.len() ==> !(#[trigger] entries[i]).1
    &&& forall|p: Seq<Seq<char>>| #[trigger] has_key(entries, p) <==> exists|f: int| 0 <= f < files.len()
        && #[trigger] traceless_paths(files[f]).contains(p)
    &&& keys_of(entries) == first_occurrences(all_paths(files))
}

/// Every path of the result file, without its fitness traces, is switched on
/// in `entries`.
pub open spec fn file_complies(file: Json, entries: Seq<(Seq<Seq<char>>, bool)>) -> bool {
    forall|i: int| 0 <= i < traceless_paths(file).len() ==> switched_on(entries, #[trigger] traceless_paths(file)[i])
}

/// The texts that parse into a readable result file complying with
/// `entries`, in order.
pub open spec fn complying(texts: Seq<Seq<char>>, entries: Seq<(Seq<Seq<char>>, bool)>) -> Seq<Seq<char>>
    decreases texts.len(),
{
    if texts.len() == 0 {
        texts
    } else if readable_text(texts.last()) && file_complies(parsed_json(texts.last())->0, entries) {
        complying(texts.drop_last(), entries).push(texts.last())
    } else {
        complying(texts.drop_last(), entries)
    }
}

/// Whether the text parses into a result file the settings can be read from.
pub fn readable_result_text(text: &String) -> (b: bool)
    ensures
        b == readable_text(text@),
{
    match parse_json(text) {
        Some(file) => match &file {
            Json::Object(_) => is_null_free(&file),
            _ => false,
        },
        None => false,
    }
}

/// The settings of the dashboard's plots: every path, switched on or off.
pub struct PlotSettings {
    pub settings_map: IndexMap<Vec<String>, bool>,
}

impl PlotSettings {
    /// The entries, in order.
    pub open spec fn entries(&self) -> Seq<(Seq<Seq<char>>, bool)> {
        settings_entries(self.settings_map)
    }

    /// The settings of the parsed result files: the paths of each file, without its
    /// fitness traces, each path once and switched off, in the order in which
    /// they first occur, file after file.
    pub fn from_result_files_json(files_content: Vec<Json>) -> (s: Self)
        requires
            forall|i: int| 0 <= i < files_content@.len() ==> readable_file(#[trigger] files_content@[i]),
        ensures
            forall|i: int, j: int| 0 <= i < j < s.entries().len() ==> (#[trigger] s.entries()[i]).0 != (#[trigger] s.entries()[j]).0,
            forall|i: int| 0 <= i < s.entries().len() ==> !(#[trigger] s.entries()[i]).1,
            forall|p: Seq<Seq<char>>| #[trigger] has_key(s.entries(), p) <==> exists|f: int| 0 <= f < files_content@.len()
                && #[trigger] traceless_paths(files_content@[f]).contains(p),
            keys_of(s.entries()) == first_occurrences(all_paths(files_content@)),
    {
        let mut settings_map = new_settings_map();
        let ghost files = files_content@;
        proof {
            assert(files.take(0) =~= Seq::<Json>::empty());
            assert(keys_of(settings_entries(settings_map)) =~= Seq::<Seq<Seq<char>>>::empty());
        }
        let mut rest = files_content;
        let mut f: usize = 0;
        assert(rest@.len() == rest.len());
        while rest.len() > 0
            invariant
                f <= files.len(),
                files.len() <= usize::MAX,
                rest@ == files.skip(f as int),
                forall|i: int| 0 <= i < files.len() ==> readable_file(#[trigger] files[i]),
                forall|i: int, j: int| 0 <= i < j < settings_entries(settings_map).len() ==> (#[trigger] settings_entries(settings_map)[i]).0 != (#[trigger] settings_entries(settings_map)[j]).0,
                forall|i: int| 0 <= i < settings_entries(settings_map).len() ==> !(#[trigger] settings_entries(settings_map)[i]).1,
                forall|p: Seq<Seq<char>>| #[trigger] has_key(settings_entries(settings_map), p) <==> exists|g: int| 0 <= g < f
                    && #[trigger] traceless_paths(files[g]).contains(p),
                keys_of(settings_entries(settings_map)) == first_occurrences(all_paths(files.take(f as int))),
            decreases rest.len(),
        {
            let whole = rest.remove(0);
            proof {
                assert(whole == files[f as int]);
                assert(rest@ =~= files.skip(f + 1));
            }
            let file = without_traces(whole);
            let paths = collect_paths_from_json(&file);
            let ghost found = paths@.map_values(|p: Vec<String>| texts(p@));
            proof {
                assert(found == traceless_paths(files[f as int]));
            }
            let ghost entries_before = settings_entries(settings_map);
            let mut k: usize = 0;
            while k < paths.len()
                invariant
                    k <= paths@.len(),
                    found == paths@.map_values(|p: Vec<String>| texts(p@)),
                    forall|i: int, j: int| 0 <= i < j < settings_entries(settings_map).len() ==> (#[trigger] settings_entries(settings_map)[i]).0 != (#[trigger] settings_entries(settings_map)[j]).0,
                    forall|i: int| 0 <= i < settings_entries(settings_map).len() ==> !(#[trigger] settings_entries(settings_map)[i]).1,
                    forall|p: Seq<Seq<char>>| #[trigger] has_key(settings_entries(settings_map), p) <==> (has_key(entries_before, p) || found.take(k as int).contains(p)),
                    keys_of(settings_entries(settings_map)) == first_occurrences(all_paths(files.take(f as int)) + found.take(k as int)),
                decreases paths.len() - k,
            {
                let path = copy_path(&paths[k]);
                let ghost key = found[k as int];
                let ghost before = settings_entries(settings_map);
                let ghost prefix = all_paths(files.take(f as int)) + found.take(k as int);
                proof {
                    assert(texts(path@) == key);
                    assert(found.take(k + 1) =~= found.take(k as int).push(key));
                    assert(all_paths(files.take(f as int)) + found.take(k + 1) =~= prefix.push(key));
                    assert(prefix.push(key).drop_last() =~= prefix);
                    assert(first_occurrences(prefix).contains(key) <==> has_key(before, key)) by {
                        if first_occurrences(prefix).contains(key) {
                            let i = choose|i: int| 0 <= i < keys_of(before).len() && keys_of(before)[i] == key;
                            assert(before[i].0 == key);
                        }
                        if has_key(before, key) {
                            let i = choose|i: int| 0 <= i < before.len() && (#[trigger] before[i]).0 == key;
                            assert(keys_of(before)[i] == key);
                        }
                    }
                }
                if get_setting(&settings_map, &path).is_none() {
                    insert_setting(&mut settings_map, path, false);
                    proof {
                        let after = settings_entries(settings_map);
                        assert(after == before.push((key, false)));
                        assert(keys_of(after) =~= keys_of(before).push(key));
                        assert forall|p: Seq<Seq<char>>| #[trigger] has_key(after, p) <==> (has_key(before, p) || p == key) by {
                            if has_key(after, p) {
                                let i = choose|i: int| 0 <= i < after.len() && (#[trigger] after[i]).0 == p;
                                if i < before.len() {
                                    assert(before[i] == after[i]);
                                }
                            }
                            if has_key(before, p) {
                                let i = choose|i: int| 0 <= i < before.len() && (#[trigger] before[i]).0 == p;
                                assert(after[i] == before[i]);
                            }
                            if p == key {
                                assert(after[before.len() as int].0 == p);
                            }
                        }
                        assert forall|i: int, j: int| 0 <= i < j < after.len() implies (#[trigger] after[i]).0 != (#[trigger] after[j]).0 by {
                            if j == before.len() {
                                assert(after[i] == before[i]);
                                if before[i].0 == key {
                                    assert(has_key(before, key));
                                }
                            } else {
                                assert(after[i] == before[i]);
                                assert(after[j] == before[j]);
                            }
                        }
                        assert forall|i: int| 0 <= i < after.len() implies !(#[trigger] after[i]).1 by {
                            if i < before.len() {
                                assert(after[i] == before[i]);
                            }
                        }
                    }
                } else {
                    proof {
                        assert(has_key(before, key));
                    }
                }
                proof {
                    assert forall|p: Seq<Seq<char>>| #[trigger] has_key(settings_entries(settings_map), p) <==> (has_key(entries_before, p) || found.take(k + 1).contains(p)) by {
                        let t1 = found.take(k + 1);
                        let t0 = found.take(k as int);
                        if t1.contains(p) && p != key {
                            let w = choose|w: int| 0 <= w < t1.len() && #[trigger] t1[w] == p;
                            assert(t0[w] == p);
                        }
                        if t0.contains(p) {
                            let w = choose|w: int| 0 <= w < t0.len() && #[trigger] t0[w] == p;
                            assert(t1[w] == p);
                        }
                        if p == key {
                            assert(t1[k as int] == p);
                        }
                    }
                }
                k = k + 1;
            }
            proof {
                assert(found.take(found.len() as int) =~= found);
                assert(files.take(f + 1).drop_last() =~= files.take(f as int));
                assert(files.take(f + 1).last() == files[f as int]);
                assert(all_paths(files.take(f + 1)) == all_paths(files.take(f as int)) + found);
                assert forall|p: Seq<Seq<char>>| #[trigger] has_key(settings_entries(settings_map), p) <==> exists|g: int| 0 <= g < f + 1
                    && #[trigger] traceless_paths(files[g]).contains(p) by {
                    if traceless_paths(files[f as int]).contains(p) {
                        assert(found.contains(p));
                    }
                }
            }
            f = f + 1;
        }
        assert(f == files.len());
        assert(files.take(f as int) =~= files);
        PlotSettings { settings_map }
    }

    /// The paths, in order.
    pub fn paths(&self) -> (paths: Vec<Vec<String>>)
        ensures
            paths@.map_values(|p: Vec<String>| texts(p@)) == self.entries().map_values(|e: (Seq<Seq<char>>, bool)| e.0),
    {
        setting_keys(&self.settings_map)
    }

    /// The settings of one parsed result file (see `from_result_files_json`).
    pub fn from_result_file_json(file_content: Json) -> (s: Self)
        requires
            readable_file(file_content),
        ensures
            forall|i: int, j: int| 0 <= i < j < s.entries().len() ==> (#[trigger] s.entries()[i]).0 != (#[trigger] s.entries()[j]).0,
            forall|i: int| 0 <= i < s.entries().len() ==> !(#[trigger] s.entries()[i]).1,
            forall|p: Seq<Seq<char>>| #[trigger] has_key(s.entries(), p) <==> traceless_paths(file_content).contains(p),
            keys_of(s.entries()) == first_occurrences(traceless_paths(file_content)),
    {
        let ghost file = file_content;
        let mut files: Vec<Json> = Vec::new();
        files.push(file_content);
        assert(files@[0] == file);
        proof {
            assert(files@.drop_last() =~= Seq::<Json>::empty());
            assert(files@.last() == file);
            assert(all_paths(Seq::<Json>::empty()) == Seq::<Seq<Seq<char>>>::empty());
            assert(Seq::<Seq<Seq<char>>>::empty() + traceless_paths(file) =~= traceless_paths(file));
            assert(all_paths(files@) == all_paths(files@.drop_last()) + traceless_paths(files@.last()));
        }
        let s = Self::from_result_files_json(files);
        proof {
            assert forall|p: Seq<Seq<char>>| #[trigger] has_key(s.entries(), p) <==> traceless_paths(file).contains(p) by {
                if has_key(s.entries(), p) {
                    let f = choose|f: int| 0 <= f < 1 && #[trigger] traceless_paths(files@[f]).contains(p);
                    assert(f == 0);
                }
                if traceless_paths(file).contains(p) {
                    assert(traceless_paths(files@[0]).contains(p));
                }
            }
        }
        s
    }

    /// The settings of the result files, given as their texts: each text
    /// parses (`parse_json`) into a result file the settings can be read
    /// from (see `from_result_files_json`).
    pub fn from_result_files_content(files_content: Vec<String>) -> (s: Self)
        requires
            forall|i: int| 0 <= i < files_content@.len() ==> readable_text(#[trigger] files_content@[i]@),
        ensures
            settings_of(s.entries(), parsed_files(files_content@)),
    {
        let mut files: Vec<Json> = Vec::new();
        let mut k: usize = 0;
        while k < files_content.len()
            invariant
                k <= files_content@.len(),
                forall|i: int| 0 <= i < files_content@.len() ==> readable_text(#[trigger] files_content@[i]@),
                files@ == parsed_files(files_content@).take(k as int),
            decreases files_content.len() - k,
        {
            proof {
                assert(readable_text(files_content@[k as int]@));
            }
            let file = match parse_json(&files_content[k]) {
                Some(f) => f,
                None => {
                    assert(false);
                    Json::Null
                },
            };
            files.push(file);
            k = k + 1;
            proof {
                assert(files@ =~= parsed_files(files_content@).take(k as int));
            }
        }
        proof {
            assert(files@ =~= parsed_files(files_content@));
            assert forall|i: int| 0 <= i < files@.len() implies readable_file(#[trigger] files@[i]) by {
                assert(readable_text(files_content@[i]@));
            }
        }
        Self::from_result_files_json(files)
    }

    /// The settings of the result files given as their texts, where every
    /// text parses into a result file the settings can be read from; `None`
    /// where one does not.
    pub fn try_from_result_files_content(files_content: Vec<String>) -> (s: Option<Self>)
        ensures
            s is Some <==> forall|i: int| 0 <= i < files_content@.len() ==> readable_text(#[trigger] files_content@[i]@),
            s matches Some(p) ==> settings_of(p.entries(), parsed_files(files_content@)),
    {
        let mut k: usize = 0;
        while k < files_content.len()
            invariant
                k <= files_content@.len(),
                forall|i: int| 0 <= i < k ==> readable_text(#[trigger] files_content@[i]@),
            decreases files_content.len() - k,
        {
            if !readable_result_text(&files_content[k]) {
                return None;
            }
            k = k + 1;
        }
        Some(Self::from_result_files_content(files_content))
    }

    /// The settings of one result file, given as its text (see
    /// `from_result_files_content`).
    pub fn from_result_file_content(file_content: String) -> (s: Self)
        requires
            readable_text(file_content@),
        ensures
            settings_of(s.entries(), seq![parsed_json(file_content@)->0]),
    {
        let ghost text = file_content@;
        let mut texts: Vec<String> = Vec::new();
        texts.push(file_content);
        proof {
            assert(texts@[0]@ == text);
            assert(parsed_files(texts@) =~= seq![parsed_json(text)->0]);
        }
        Self::from_result_files_content(texts)
    }

    /// The settings of one result file given as its text, where it parses
    /// into a result file the settings can be read from; `None` where it
    /// does not.
    pub fn try_from_result_file_content(file_content: String) -> (s: Option<Self>)
        ensures
            s is Some <==> readable_text(file_content@),
            s matches Some(p) ==> settings_of(p.entries(), seq![parsed_json(file_content@)->0]),
    {
        if readable_result_text(&file_content) {
            Some(Self::from_result_file_content(file_content))
        } else {
            None
        }
    }

    /// Whether every path of these settings is switched on in
    /// `plot_settings`.
    pub fn complies_with(&self, plot_settings: &PlotSettings) -> (b: bool)
        ensures
            b == forall|i: int| 0 <= i < self.entries().len() ==> switched_on(plot_settings.entries(), (#[trigger] self.entries()[i]).0),
    {
        let keys = setting_keys(&self.settings_map);
        let ghost ks = keys@.map_values(|p: Vec<String>| texts(p@));
        let mut k: usize = 0;
        while k < keys.len()
            invariant
                k <= keys@.len(),
                ks == keys@.map_values(|p: Vec<String>| texts(p@)),
                ks == self.entries().map_values(|e: (Seq<Seq<char>>, bool)| e.0),
                forall|i: int| 0 <= i < k ==> switched_on(plot_settings.entries(), (#[trigger] self.entries()[i]).0),
            decreases keys.len() - k,
        {
            assert(ks.len() == self.entries().len());
            assert(ks[k as int] == texts(keys@[k as int]@));
            assert(ks[k as int] == self.entries()[k as int].0);
            match get_setting(&plot_settings.settings_map, &keys[k]) {
                Some(true) => {},
                _ => {
                    assert(!switched_on(plot_settings.entries(), self.entries()[k as int].0));
                    return false;
                },
            }
            k = k + 1;
        }
        true
    }

    /// Switches the path on where it is off and off where it is on; the
    /// settings have the path.
    pub fn toggle(&mut self, path: Vec<String>)
        requires
            has_key(old(self).entries(), texts(path@)),
        ensures
            final(self).entries() == toggled(old(self).entries(), texts(path@)),
    {
        let current = match get_setting(&self.settings_map, &path) {
            Some(v) => v,
            None => {
                assert(false);
                false
            },
        };
        insert_setting(&mut self.settings_map, path, !current);
    }
}

/// Whether a result file's text complies with the plot settings: it parses
/// into a result file the settings can be read from, and every path of that
/// file, without its fitness traces, is switched on in `plot_settings`. A
/// text that does not parse into such a file complies with nothing.
pub fn text_complies_with(text: &String, plot_settings: &PlotSettings) -> (b: bool)
    ensures
        b == (readable_text(text@) && file_complies(parsed_json(text@)->0, plot_settings.entries())),
{
    if !readable_result_text(text) {
        return false;
    }
    let file = match parse_json(text) {
        Some(f) => f,
        None => {
            assert(false);
            return false;
        },
    };
    let own = PlotSettings::from_result_file_json(file);
    let b = own.complies_with(plot_settings);
    proof {
        let e = own.entries();
        let tp = traceless_paths(file);
        let others = plot_settings.entries();
        if b {
            assert forall|i: int| 0 <= i < tp.len() implies switched_on(others, #[trigger] tp[i]) by {
                assert(tp.contains(tp[i]));
                assert(has_key(e, tp[i]));
                let k = choose|k: int| 0 <= k < e.len() && (#[trigger] e[k]).0 == tp[i];
                assert(switched_on(others, e[k].0));
            }
        }
        if file_complies(file, others) {
            assert forall|k: int| 0 <= k < e.len() implies switched_on(others, (#[trigger] e[k]).0) by {
                assert(has_key(e, e[k].0));
                assert(tp.contains(e[k].0));
                let i = choose|i: int| 0 <= i < tp.len() && tp[i] == e[k].0;
                assert(switched_on(others, tp[i]));
            }
        }
    }
    b
}

/// The texts of result files that comply with the plot settings (see
/// `text_complies_with`), in their order.
pub fn texts_complying_with(texts: &Vec<String>, plot_settings: &PlotSettings) -> (r: Vec<String>)
    ensures
        r@.map_values(|t: String| t@) == complying(texts@.map_values(|t: String| t@), plot_settings.entries()),
{
    let ghost all = texts@.map_values(|t: String| t@);
    let mut r: Vec<String> = Vec::new();
    let mut k: usize = 0;
    while k < texts.len()
        invariant
            k <= texts@.len(),
            all == texts@.map_values(|t: String| t@),
            r@.map_values(|t: String| t@) == complying(all.take(k as int), plot_settings.entries()),
        decreases texts.len() - k,
    {
        let complies = text_complies_with(&texts[k], plot_settings);
        proof {
            assert(all.take(k + 1).drop_last() =~= all.take(k as int));
            assert(all.take(k + 1).last() == texts@[k as int]@);
        }
        if complies {
            let ghost before = r@;
            r.push(texts[k].clone());
            proof {
                assert(r@.map_values(|t: String| t@) =~= before.map_values(|t: String| t@).push(texts@[k as int]@));
            }
        }
        k = k + 1;
    }
    proof {
        assert(all.take(all.len() as int) =~= all);
    }
    r
}

/// The entries with the flag of the key's entry flipped.
pub open spec fn toggled(entries: Seq<(Seq<Seq<char>>, bool)>, key: Seq<Seq<char>>) -> Seq<(Seq<Seq<char>>, bool)> {
    let p = key_pos(entries, key);
    entries.update(p, (key, !entries[p].1))
}

/// Toggling a path twice gives the settings back.
pub proof fn lemma_toggle_twice(entries: Seq<(Seq<Seq<char>>, bool)>, key: Seq<Seq<char>>)
    requires
        has_key(entries, key),
    ensures
        has_key(toggled(entries, key), key),
        toggled(toggled(entries, key), key) == entries,
{
    lemma_key_pos(entries, key);
    let p = key_pos(entries, key);
    let once = toggled(entries, key);
    assert(once[p].0 == key);
    assert(has_key(once, key));
    lemma_key_pos(once, key);
    let q = key_pos(once, key);
    if q < p {
        assert(once[q] == entries[q]);
    } else if p < q {
        assert(once[p].0 == key);
    }
    assert(q == p);
    assert(toggled(once, key) =~= entries);
}

/// The path is switched on in the entries.
pub open spec fn switched_on(entries: Seq<(Seq<Seq<char>>, bool)>, key: Seq<Seq<char>>) -> bool {
    has_key(entries, key) && entries[key_pos(entries, key)].1
}

/// The paths of a result file, which is an object, without its fitness
/// traces.
pub open spec fn traceless_paths(file: Json) -> Seq<Seq<Seq<char>>> {
    match file {
        Json::Object(members) => crate::json::members_paths(without_key(members@, "evaluated_traces"@), Seq::empty()),
        _ => Seq::empty(),
    }
}

/// A copy of a path.
fn copy_path(path: &Vec<String>) -> (c: Vec<String>)
    ensures
        c@ == path@,
{
    let mut c: Vec<String> = Vec::new();
    let mut k: usize = 0;
    while k < path.len()
        invariant
            k <= path@.len(),
            c@ == path@.take(k as int),
        decreases path.len() - k,
    {
        c.push(path[k].clone());
        k = k + 1;
        assert(c@ =~= path@.take(k as int));
    }
    assert(path@.take(path@.len() as int) =~= path@);
    c
}

/// The name is that of the fitness traces, `evaluated_traces`.
fn is_evaluated_traces(name: &String) -> (b: bool)
    ensures
        b == (name@ == "evaluated_traces"@),
{
    let traces = String::from_str("evaluated_traces");
    *name == traces
}

/// The result file without its fitness traces: an object without the
/// members named `evaluated_traces`.
fn without_traces(file: Json) -> (f: Json)
    requires
        readable_file(file),
    ensures
        f is Object,
        null_free(f),
        json_paths(f, Seq::empty()) == traceless_paths(file),
{
    let ghost whole = file;
    let mut members = match file {
        Json::Object(m) => m,
        _ => {
            assert(false);
            return Json::Null;
        },
    };
    let ghost all = members@;
    let mut kept: Vec<(String, Json)> = Vec::new();
    let mut k: usize = 0;
    assert(members@.len() == members.len());
    while members.len() > 0
        invariant
            k <= all.len(),
            all.len() <= usize::MAX,
            members@ == all.skip(k as int),
            crate::json::members_null_free(all),
            kept@ == without_key(all.take(k as int), "evaluated_traces"@),
            crate::json::members_null_free(kept@),
        decreases members.len(),
    {
        let member = members.remove(0);
        proof {
            assert(member == all[k as int]);
            assert(members@ =~= all.skip(k + 1));
            assert(all.take(k + 1).drop_last() =~= all.take(k as int));
            assert(all.take(k + 1).last() == all[k as int]);
            lemma_members_null_free_at(all, k as int);
        }
        if !is_evaluated_traces(&member.0) {
            let ghost before = kept@;
            kept.push(member);
            proof {
                assert(kept@.drop_last() =~= before);
            }
        }
        k = k + 1;
    }
    assert(all.take(all.len() as int) =~= all);
    Json::Object(kept)
}

/// Every member of a `null`-free list of members is `null`-free.
proof fn lemma_members_null_free_at(members: Seq<(String, Json)>, k: int)
    requires
        crate::json::members_null_free(members),
        0 <= k < members.len(),
    ensures
        null_free(members[k].1),
    decreases members.len(),
{
    if k < members.len() - 1 {
        lemma_members_null_free_at(members.drop_last(), k);
    }
}

} // verus!
