//! Package manifests: overriding the versions of dependencies, and finding the
//! one who installs them.
use std::path::{Path, PathBuf};

use vstd::prelude::*;

use crate::json::{
    Json, compact, compact_text, empty_object, insert_member, json_in, json_of, member, member_mut,
    members_of, object_mut, parse, parse_string_map, pretty, pretty_text, string_map_in, text_value,
};
use crate::paths::{
    as_path, buf_parts, bytes_of, components, join, joined, parent, path_buf_bytes, path_bytes,
    root, to_path_buf,
};
use crate::text::{lemma_text_less_irreflexive, split_once, text_less, texts};
use crate::text_map::TextMap;

verus! {

/// The texts of a list of pairs.
pub open spec fn all_pair_texts(pairs: Seq<(String, String)>) -> Seq<(Seq<char>, Seq<char>)> {
    pairs.map_values(|pair: (String, String)| (pair.0@, pair.1@))
}

/// The pairs of a map, as they are walked, with their texts as sequences.
pub open spec fn pair_texts(map: TextMap<String>) -> Seq<(Seq<char>, Seq<char>)> {
    all_pair_texts(map.pairs())
}

/// What a map of texts holds.
pub open spec fn map_texts(map: TextMap<String>) -> Map<Seq<char>, Seq<char>> {
    map@.map_values(|value: String| value@)
}

/// The map that a sequence of pairs makes, a later pair taking the place of an
/// earlier one with the same key.
pub open spec fn collected(pairs: Seq<(Seq<char>, Seq<char>)>) -> Map<Seq<char>, Seq<char>>
    decreases pairs.len(),
{
    if pairs.len() == 0 {
        Map::empty()
    } else {
        collected(pairs.drop_last()).insert(pairs.last().0, pairs.last().1)
    }
}

/// Pairs with different keys make a map that holds each of them, and nothing else.
proof fn lemma_collected(pairs: Seq<(Seq<char>, Seq<char>)>)
    requires
        forall|i: int, j: int|
            0 <= i < j < pairs.len() ==> (#[trigger] pairs[i]).0 != (#[trigger] pairs[j]).0,
    ensures
        forall|i: int|
            0 <= i < pairs.len() ==> collected(pairs).dom().contains((#[trigger] pairs[i]).0)
                && collected(pairs)[pairs[i].0] == pairs[i].1,
        forall|k: Seq<char>| #[trigger]
            collected(pairs).dom().contains(k) ==> exists|i: int|
                0 <= i < pairs.len() && (#[trigger] pairs[i]).0 == k,
    decreases pairs.len(),
{
    if pairs.len() > 0 {
        let front = pairs.drop_last();
        assert forall|i: int, j: int| 0 <= i < j < front.len() implies (#[trigger] front[i]).0 != (
        #[trigger] front[j]).0 by {
            assert(pairs[i].0 != pairs[j].0);
        }
        lemma_collected(front);
        assert forall|i: int| 0 <= i < pairs.len() implies collected(pairs).dom().contains(
            (#[trigger] pairs[i]).0,
        ) && collected(pairs)[pairs[i].0] == pairs[i].1 by {
            if i < front.len() {
                assert(front[i] == pairs[i]);
                assert(pairs[i].0 != pairs[pairs.len() - 1].0);
            }
        }
        assert forall|k: Seq<char>| #[trigger] collected(pairs).dom().contains(k) implies exists|
            i: int,
        |
            0 <= i < pairs.len() && (#[trigger] pairs[i]).0 == k by {
            if k == pairs.last().0 {
                assert(pairs[pairs.len() - 1].0 == k);
            } else {
                assert(collected(front).dom().contains(k));
                let i = choose|i: int| 0 <= i < front.len() && (#[trigger] front[i]).0 == k;
                assert(pairs[i].0 == k);
            }
        }
    }
}

/// The pairs of a map make that map.
proof fn lemma_map_is_collected(map: TextMap<String>)
    requires
        map.wf(),
    ensures
        collected(pair_texts(map)) == map_texts(map),
{
    let pairs = pair_texts(map);
    assert forall|i: int, j: int| 0 <= i < j < pairs.len() implies (#[trigger] pairs[i]).0 != (
    #[trigger] pairs[j]).0 by {
        assert(text_less(map.pairs()[i].0@, map.pairs()[j].0@));
        lemma_text_less_irreflexive(pairs[i].0);
    }
    lemma_collected(pairs);
    assert forall|k: Seq<char>| #[trigger] collected(pairs).dom().contains(k) implies map_texts(
        map,
    ).dom().contains(k) && map_texts(map)[k] == collected(pairs)[k] by {
        let i = choose|i: int| 0 <= i < pairs.len() && (#[trigger] pairs[i]).0 == k;
        map.lemma_at(i);
    }
    assert forall|k: Seq<char>| #[trigger] map_texts(map).dom().contains(k) implies collected(
        pairs,
    ).dom().contains(k) by {
        map.lemma_place(k);
        let i = map.keys().index_of(k);
        assert(pairs[i].0 == k);
    }
    assert(collected(pairs) =~= map_texts(map));
}

/// The package and the version that an override names, if it has the form
/// `package=version`.
pub open spec fn override_in(entry: Seq<char>) -> Option<(Seq<char>, Seq<char>)> {
    match entry.index_of_first('=') {
        Some(i) => Some((entry.take(i), entry.skip(i + 1))),
        None => None,
    }
}

/// What is said of an override that does not have the form `package=version`.
pub open spec fn format_complaint(entry: Seq<char>) -> Seq<char> {
    "invalid --pkg-override format: '"@ + entry + "' (expected PKG=VERSION)"@
}

/// Whatever was given is quoted as it was, between the same words.
pub proof fn law_complaints_quote_the_override(entry: Seq<char>)
    ensures
        ({
            let before = "invalid --pkg-override format: '"@;
            let behind = "' (expected PKG=VERSION)"@;
            let said = format_complaint(entry);
            &&& said.len() == before.len() + entry.len() + behind.len()
            &&& said.take(before.len() as int) == before
            &&& said.subrange(before.len() as int, (before.len() + entry.len()) as int) == entry
            &&& said.skip((before.len() + entry.len()) as int) == behind
        }),
{
}

/// An override that does not have the form `package=version`.
#[derive(Debug)]
pub struct OverrideFormatError {
    /// What was given.
    pub entry: String,
}

impl OverrideFormatError {
    /// Says what is wrong.
    pub fn message(&self) -> (r: String)
        ensures
            r@ == format_complaint(self.entry@),
            r@ == "invalid --pkg-override format: '"@ + self.entry@ + "' (expected PKG=VERSION)"@,
    {
        let mut r = "invalid --pkg-override format: '".to_string();
        r.append(self.entry.as_str());
        r.append("' (expected PKG=VERSION)");
        r
    }
}

/// The pairs that a list of well-formed overrides names.
pub open spec fn overrides_in(entries: Seq<Seq<char>>) -> Seq<(Seq<char>, Seq<char>)> {
    entries.map_values(|entry: Seq<char>| override_in(entry)->0)
}

/// Reads overrides of the form `package=version`; the last one for a package
/// counts.
pub fn parse_pkg_overrides(raw: &[String]) -> (r: Result<TextMap<String>, OverrideFormatError>)
    ensures
        match r {
            Ok(map) => {
                &&& map.wf()
                &&& forall|i: int|
                    0 <= i < raw@.len() ==> override_in((#[trigger] raw@[i])@) is Some
                &&& map_texts(map) == collected(overrides_in(texts(raw@)))
            },
            Err(error) => exists|i: int|
                {
                    &&& 0 <= i < raw@.len()
                    &&& error.entry@ == (#[trigger] raw@[i])@
                    &&& override_in(error.entry@) is None
                    &&& forall|j: int| 0 <= j < i ==> override_in((#[trigger] raw@[j])@) is Some
                },
        },
{
    let mut map: TextMap<String> = TextMap::new();
    let ghost pairs = overrides_in(texts(raw@));
    assert(pairs.take(0) =~= Seq::<(Seq<char>, Seq<char>)>::empty());
    assert(map_texts(map) =~= Map::<Seq<char>, Seq<char>>::empty());
    let mut at: usize = 0;
    while at < raw.len()
        invariant
            at <= raw@.len(),
            map.wf(),
            pairs == overrides_in(texts(raw@)),
            forall|i: int| 0 <= i < at ==> override_in((#[trigger] raw@[i])@) is Some,
            map_texts(map) == collected(pairs.take(at as int)),
        decreases raw@.len() - at,
    {
        let entry = &raw[at];
        let ghost text = entry@;
        match split_once(entry.as_str(), '=') {
            Some((key, value)) => {
                let ghost before = map;
                map.insert(key.to_string(), value.to_string());
                proof {
                    lemma_split(text, key@, value@);
                    assert(map_texts(map) =~= map_texts(before).insert(key@, value@));
                    assert(pairs[at as int] == (key@, value@));
                    assert(pairs.take(at + 1).drop_last() =~= pairs.take(at as int));
                }
            },
            None => {
                proof {
                    text.index_of_first_ensures('=');
                    assert(raw@[at as int]@ == entry@);
                }
                return Err(OverrideFormatError { entry: entry.clone() });
            },
        }
        at = at + 1;
    }
    assert(pairs.take(at as int) =~= pairs);
    Ok(map)
}

/// A text is split at the first `=`.
proof fn lemma_split(text: Seq<char>, before: Seq<char>, after: Seq<char>)
    requires
        !before.contains('='),
        text == before.push('=') + after,
    ensures
        override_in(text) == Some((before, after)),
{
    text.index_of_first_ensures('=');
    let n = before.len() as int;
    assert(text[n] == '=');
    assert(text.contains('='));
    let i = text.index_of_first('=')->0;
    if i < n {
        assert(before[i] == text[i]);
    }
    assert(text.take(n) =~= before);
    assert(text.skip(n + 1) =~= after);
}

/// Takes in more overrides, which take the place of those given so far; the last
/// one for a package counts.
pub fn extend_with(overrides: &mut TextMap<String>, more: &Vec<(String, String)>)
    requires
        old(overrides).wf(),
    ensures
        final(overrides).wf(),
        map_texts(*final(overrides)) == map_texts(*old(overrides)).union_prefer_right(
            collected(all_pair_texts(more@)),
        ),
{
    let ghost pairs = all_pair_texts(more@);
    let ghost start = map_texts(*overrides);
    let mut at: usize = 0;
    assert(pairs.take(0) =~= Seq::<(Seq<char>, Seq<char>)>::empty());
    assert(start =~= start.union_prefer_right(collected(pairs.take(0))));
    while at < more.len()
        invariant
            at <= more@.len(),
            pairs == all_pair_texts(more@),
            overrides.wf(),
            map_texts(*overrides) == start.union_prefer_right(collected(pairs.take(at as int))),
        decreases more@.len() - at,
    {
        let ghost before = *overrides;
        let (key, value) = (more[at].0.clone(), more[at].1.clone());
        let ghost pair = (key@, value@);
        overrides.insert(key, value);
        proof {
            assert(map_texts(*overrides) =~= map_texts(before).insert(pair.0, pair.1));
            assert(pairs.take(at + 1).drop_last() =~= pairs.take(at as int));
            assert(pairs.take(at + 1).last() == pair);
            assert(map_texts(*overrides) =~= start.union_prefer_right(
                collected(pairs.take(at + 1)),
            ));
        }
        at = at + 1;
    }
    assert(pairs.take(at as int) =~= pairs);
}

/// Takes in the overrides of a file, which is a JSON object of packages and
/// versions; they take the place of those given so far.
pub fn extend_overrides(overrides: &mut TextMap<String>, content: &str) -> (r: Result<
    (),
    serde_json::Error,
>)
    requires
        old(overrides).wf(),
    ensures
        final(overrides).wf(),
        match r {
            Ok(()) => {
                &&& string_map_in(content@) matches Some(map)
                &&& map_texts(*final(overrides)) == map_texts(*old(overrides)).union_prefer_right(
                    map,
                )
            },
            Err(_) => string_map_in(content@) is None && *final(overrides) == *old(overrides),
        },
{
    let more = match parse_string_map(content) {
        Ok(more) => more,
        Err(error) => {
            return Err(error);
        },
    };
    proof {
        let map = string_map_in(content@)->0;
        let pairs = all_pair_texts(more@);
        assert forall|i: int, j: int| 0 <= i < j < pairs.len() implies (#[trigger] pairs[i]).0 != (
        #[trigger] pairs[j]).0 by {
            assert(more@[i].0@ != more@[j].0@);
        }
        lemma_collected(pairs);
        assert forall|k: Seq<char>| #[trigger] collected(pairs).dom().contains(k) implies
            map.dom().contains(k) && map[k] == collected(pairs)[k] by {
            let i = choose|i: int| 0 <= i < pairs.len() && (#[trigger] pairs[i]).0 == k;
            assert(map.dom().contains(more@[i].0@));
        }
        assert forall|k: Seq<char>| #[trigger] map.dom().contains(k) implies collected(
            pairs,
        ).dom().contains(k) by {
            let i = choose|i: int| 0 <= i < more@.len() && (#[trigger] more@[i]).0@ == k;
            assert(pairs[i].0 == k);
        }
        assert(collected(pairs) =~= map);
    }
    extend_with(overrides, &more);
    Ok(())
}

/// Why a manifest cannot be changed.
#[derive(Debug)]
pub enum ManifestError {
    /// It is not JSON.
    Malformed(serde_json::Error),
    /// It is JSON, but not an object.
    NotAnObject,
}

/// A changed manifest.
#[derive(Debug)]
pub struct ManifestUpdate {
    /// The new text of it.
    pub text: String,
    /// What was changed, one line each.
    pub notes: Vec<String>,
}

/// The overrides as JSON strings.
pub open spec fn as_json(overrides: Map<Seq<char>, Seq<char>>) -> Map<Seq<char>, Json> {
    overrides.map_values(|version: Seq<char>| Json::Text(version))
}

/// A section of dependencies, every one of which that has an override has its
/// version from there.
pub open spec fn overridden(
    deps: Map<Seq<char>, Json>,
    overrides: Map<Seq<char>, Seq<char>>,
) -> Map<Seq<char>, Json> {
    Map::new(
        |name: Seq<char>| deps.dom().contains(name),
        |name: Seq<char>|
            if overrides.dom().contains(name) {
                Json::Text(overrides[name])
            } else {
                deps[name]
            },
    )
}

/// Whether a manifest has a section that is an object.
pub open spec fn has_section(manifest: Map<Seq<char>, Json>, section: Seq<char>) -> bool {
    manifest.dom().contains(section) && manifest[section] is Object
}

/// A manifest with the dependencies of one section overridden.
pub open spec fn section_overridden(
    manifest: Map<Seq<char>, Json>,
    section: Seq<char>,
    overrides: Map<Seq<char>, Seq<char>>,
) -> Map<Seq<char>, Json> {
    if has_section(manifest, section) {
        manifest.insert(section, Json::Object(overridden(manifest[section]->Object_0, overrides)))
    } else {
        manifest
    }
}

/// A manifest whose section of overrides, which is made where there is none, holds
/// the overrides; one that has something else in its place stays as it is.
pub open spec fn overrides_injected(
    manifest: Map<Seq<char>, Json>,
    overrides: Map<Seq<char>, Seq<char>>,
) -> Map<Seq<char>, Json> {
    if !manifest.dom().contains("overrides"@) {
        manifest.insert("overrides"@, Json::Object(as_json(overrides)))
    } else if manifest["overrides"@] is Object {
        manifest.insert(
            "overrides"@,
            Json::Object(manifest["overrides"@]->Object_0.union_prefer_right(as_json(overrides))),
        )
    } else {
        manifest
    }
}

/// A manifest with the overrides applied.
pub open spec fn manifest_overridden(
    manifest: Map<Seq<char>, Json>,
    overrides: Map<Seq<char>, Seq<char>>,
) -> Map<Seq<char>, Json> {
    overrides_injected(
        section_overridden(
            section_overridden(manifest, "dependencies"@, overrides),
            "devDependencies"@,
            overrides,
        ),
        overrides,
    )
}

/// Whether a section has a dependency that has an override.
pub open spec fn is_touched(
    manifest: Map<Seq<char>, Json>,
    section: Seq<char>,
    overrides: Map<Seq<char>, Seq<char>>,
) -> bool {
    has_section(manifest, section) && exists|name: Seq<char>| #[trigger]
        overrides.dom().contains(name) && manifest[section]->Object_0.dom().contains(name)
}

/// Whether applying the overrides, of which there are some, changes a manifest.
pub open spec fn is_changed(
    manifest: Map<Seq<char>, Json>,
    overrides: Map<Seq<char>, Seq<char>>,
) -> bool {
    ||| is_touched(manifest, "dependencies"@, overrides)
    ||| is_touched(manifest, "devDependencies"@, overrides)
    ||| !manifest.dom().contains("overrides"@)
    ||| manifest["overrides"@] is Object
}

/// What is said of the dependencies that are overridden in a section.
pub open spec fn section_notes(
    section: Seq<char>,
    deps: Map<Seq<char>, Json>,
    pairs: Seq<(Seq<char>, Seq<char>)>,
) -> Seq<Seq<char>>
    decreases pairs.len(),
{
    if pairs.len() == 0 {
        Seq::empty()
    } else {
        let before = section_notes(section, deps, pairs.drop_last());
        let (name, version) = pairs.last();
        if deps.dom().contains(name) {
            before.push(
                "  overriding "@ + section + "."@ + name + ": "@ + compact_text(
                    deps[name],
                ) + " -> "@ + version,
            )
        } else {
            before
        }
    }
}

/// What is said of the overrides that are injected.
pub open spec fn injection_notes(pairs: Seq<(Seq<char>, Seq<char>)>) -> Seq<Seq<char>> {
    pairs.map_values(|pair: (Seq<char>, Seq<char>)| "  overrides."@ + pair.0 + ": "@ + pair.1)
}

/// What is said of a section of a manifest.
pub open spec fn notes_on(
    manifest: Map<Seq<char>, Json>,
    section: Seq<char>,
    pairs: Seq<(Seq<char>, Seq<char>)>,
) -> Seq<Seq<char>> {
    if has_section(manifest, section) {
        section_notes(section, manifest[section]->Object_0, pairs)
    } else {
        Seq::empty()
    }
}

/// What is said of all that changes in a manifest.
pub open spec fn all_notes(
    manifest: Map<Seq<char>, Json>,
    pairs: Seq<(Seq<char>, Seq<char>)>,
) -> Seq<Seq<char>> {
    notes_on(manifest, "dependencies"@, pairs) + notes_on(manifest, "devDependencies"@, pairs) + (
    if !manifest.dom().contains("overrides"@) || manifest["overrides"@] is Object {
        injection_notes(pairs)
    } else {
        Seq::empty()
    })
}

/// Overrides the versions in a section of dependencies; says whether there was
/// one to override.
fn override_members(
    deps: &mut serde_json::Map<String, serde_json::Value>,
    section: &str,
    overrides: &TextMap<String>,
    notes: &mut Vec<String>,
) -> (r: bool)
    requires
        overrides.wf(),
    ensures
        members_of(final(deps)) == overridden(members_of(old(deps)), map_texts(*overrides)),
        texts(final(notes)@) == texts(old(notes)@) + section_notes(
            section@,
            members_of(old(deps)),
            pair_texts(*overrides),
        ),
        r == exists|name: Seq<char>| #[trigger]
            map_texts(*overrides).dom().contains(name) && members_of(
                old(deps),
            ).dom().contains(name),
{
    let ghost start = members_of(deps);
    let ghost said = texts(notes@);
    let ghost pairs = pair_texts(*overrides);
    let mut changed = false;
    let mut at: usize = 0;
    assert(pairs.take(0) =~= Seq::<(Seq<char>, Seq<char>)>::empty());
    assert(start =~= overridden(start, collected(pairs.take(0))));
    assert(texts(notes@) =~= said + section_notes(section@, start, pairs.take(0)));
    while at < overrides.len()
        invariant
            overrides.wf(),
            pairs == pair_texts(*overrides),
            at <= pairs.len(),
            members_of(deps) == overridden(start, collected(pairs.take(at as int))),
            texts(notes@) == said + section_notes(section@, start, pairs.take(at as int)),
            changed == exists|i: int|
                0 <= i < at && start.dom().contains((#[trigger] pairs[i]).0),
        decreases pairs.len() - at,
    {
        let key = overrides.key(at);
        let value = overrides.value(at);
        let ghost before = pairs.take(at as int);
        let ghost more = pairs.take(at + 1);
        proof {
            assert(more.drop_last() =~= before);
            assert(more.last() == (key@, value@));
            assert(pairs[at as int] == (key@, value@));
            overrides.lemma_at(at as int);
            if collected(before).dom().contains(key@) {
                lemma_earlier_keys(*overrides, at as int);
            }
        }
        let current = match member(deps, key.as_str()) {
            Some(current) => Some(compact(current)),
            None => None,
        };
        if let Some(current) = current {
            let mut note = "  overriding ".to_string();
            note.append(section);
            note.append(".");
            note.append(key.as_str());
            note.append(": ");
            note.append(current.as_str());
            note.append(" -> ");
            note.append(value.as_str());
            let ghost noted = notes@;
            notes.push(note);
            insert_member(deps, key.clone(), text_value(value.clone()));
            changed = true;
            proof {
                assert(texts(notes@) =~= texts(noted).push(notes@.last()@));
                assert(texts(notes@) =~= said + section_notes(section@, start, more));
            }
        }
        proof {
            assert(members_of(deps) =~= overridden(start, collected(more)));
            if changed {
                if start.dom().contains(key@) {
                    assert(start.dom().contains(pairs[at as int].0));
                }
            }
        }
        at = at + 1;
    }
    proof {
        assert(pairs.take(at as int) =~= pairs);
        lemma_map_is_collected(*overrides);
        if changed {
            let i = choose|i: int| 0 <= i < at && start.dom().contains((#[trigger] pairs[i]).0);
            overrides.lemma_at(i);
            assert(map_texts(*overrides).dom().contains(pairs[i].0));
        }
        if exists|name: Seq<char>| #[trigger]
            map_texts(*overrides).dom().contains(name) && start.dom().contains(name) {
            let name = choose|name: Seq<char>| #[trigger]
                map_texts(*overrides).dom().contains(name) && start.dom().contains(name);
            overrides.lemma_place(name);
            assert(pairs[overrides.keys().index_of(name)].0 == name);
        }
    }
    changed
}

/// No key of a map is among the keys before it.
proof fn lemma_earlier_keys(map: TextMap<String>, at: int)
    requires
        map.wf(),
        0 <= at < map.pairs().len(),
    ensures
        !collected(pair_texts(map).take(at)).dom().contains(map.pairs()[at].0@),
{
    let pairs = pair_texts(map);
    let front = pairs.take(at);
    assert forall|i: int, j: int| 0 <= i < j < front.len() implies (#[trigger] front[i]).0 != (
    #[trigger] front[j]).0 by {
        assert(text_less(map.pairs()[i].0@, map.pairs()[j].0@));
        lemma_text_less_irreflexive(front[i].0);
    }
    lemma_collected(front);
    let key = map.pairs()[at].0@;
    if collected(front).dom().contains(key) {
        let i = choose|i: int| 0 <= i < front.len() && (#[trigger] front[i]).0 == key;
        assert(text_less(map.pairs()[i].0@, map.pairs()[at].0@));
        lemma_text_less_irreflexive(key);
    }
}

/// Overrides the versions in one section of a manifest, if it is there; says
/// whether there was one to override.
fn override_section(
    manifest: &mut serde_json::Map<String, serde_json::Value>,
    section: &str,
    overrides: &TextMap<String>,
    notes: &mut Vec<String>,
) -> (r: bool)
    requires
        overrides.wf(),
    ensures
        members_of(final(manifest)) == section_overridden(
            members_of(old(manifest)),
            section@,
            map_texts(*overrides),
        ),
        texts(final(notes)@) == texts(old(notes)@) + notes_on(
            members_of(old(manifest)),
            section@,
            pair_texts(*overrides),
        ),
        r == is_touched(members_of(old(manifest)), section@, map_texts(*overrides)),
{
    let ghost said = texts(notes@);
    match member_mut(manifest, section) {
        Some(value) => match object_mut(value) {
            Some(deps) => override_members(deps, section, overrides, notes),
            None => {
                assert(said + Seq::<Seq<char>>::empty() =~= said);
                proof {
                    let m = members_of(old(manifest));
                    assert(m.insert(section@, m[section@]) =~= m);
                }
                false
            },
        },
        None => {
            assert(said + Seq::<Seq<char>>::empty() =~= said);
            false
        },
    }
}

/// Puts every override into the section of overrides.
fn inject_members(
    section: &mut serde_json::Map<String, serde_json::Value>,
    overrides: &TextMap<String>,
    notes: &mut Vec<String>,
)
    requires
        overrides.wf(),
    ensures
        members_of(final(section)) == members_of(
            old(section),
        ).union_prefer_right(as_json(map_texts(*overrides))),
        texts(final(notes)@) == texts(old(notes)@) + injection_notes(pair_texts(*overrides)),
{
    let ghost start = members_of(section);
    let ghost said = texts(notes@);
    let ghost pairs = pair_texts(*overrides);
    let mut at: usize = 0;
    assert(pairs.take(0) =~= Seq::<(Seq<char>, Seq<char>)>::empty());
    assert(start =~= start.union_prefer_right(as_json(collected(pairs.take(0)))));
    assert(texts(notes@) =~= said + injection_notes(pairs.take(0)));
    while at < overrides.len()
        invariant
            overrides.wf(),
            pairs == pair_texts(*overrides),
            at <= pairs.len(),
            members_of(section) == start.union_prefer_right(
                as_json(collected(pairs.take(at as int))),
            ),
            texts(notes@) == said + injection_notes(pairs.take(at as int)),
        decreases pairs.len() - at,
    {
        let key = overrides.key(at);
        let value = overrides.value(at);
        let ghost before = pairs.take(at as int);
        let ghost more = pairs.take(at + 1);
        let ghost noted = notes@;
        let mut note = "  overrides.".to_string();
        note.append(key.as_str());
        note.append(": ");
        note.append(value.as_str());
        notes.push(note);
        insert_member(section, key.clone(), text_value(value.clone()));
        proof {
            assert(more.drop_last() =~= before);
            assert(more.last() == (key@, value@));
            assert(more =~= before.push((key@, value@)));
            assert(as_json(collected(more)) =~= as_json(collected(before)).insert(
                key@,
                Json::Text(value@),
            ));
            assert(members_of(section) =~= start.union_prefer_right(as_json(collected(more))));
            assert(injection_notes(more) =~= injection_notes(before).push(notes@.last()@));
            assert(texts(notes@) =~= texts(noted).push(notes@.last()@));
            assert(texts(notes@) =~= said + injection_notes(more));
        }
        at = at + 1;
    }
    proof {
        assert(pairs.take(at as int) =~= pairs);
        lemma_map_is_collected(*overrides);
    }
}

/// Puts every override into the section of overrides of a manifest, which is made
/// where there is none; says whether that could be done.
fn inject_overrides(
    manifest: &mut serde_json::Map<String, serde_json::Value>,
    overrides: &TextMap<String>,
    notes: &mut Vec<String>,
) -> (r: bool)
    requires
        overrides.wf(),
    ensures
        members_of(final(manifest)) == overrides_injected(
            members_of(old(manifest)),
            map_texts(*overrides),
        ),
        r == (!members_of(old(manifest)).dom().contains("overrides"@)
            || members_of(old(manifest))["overrides"@] is Object),
        texts(final(notes)@) == texts(old(notes)@) + (if r {
            injection_notes(pair_texts(*overrides))
        } else {
            Seq::empty()
        }),
{
    let ghost start = members_of(manifest);
    let ghost said = texts(notes@);
    let ghost json = as_json(map_texts(*overrides));
    if member(manifest, "overrides").is_none() {
        insert_member(manifest, "overrides".to_string(), empty_object());
    }
    let ghost ready = members_of(manifest);
    match object_mut(member_mut(manifest, "overrides").unwrap()) {
        Some(section) => {
            inject_members(section, overrides, notes);
            proof {
                assert(Map::<Seq<char>, Json>::empty().union_prefer_right(json) =~= json);
                let all = ready["overrides"@]->Object_0.union_prefer_right(json);
                assert(ready.insert("overrides"@, Json::Object(all)) =~= overrides_injected(
                    start,
                    map_texts(*overrides),
                ));
            }
            true
        },
        None => {
            proof {
                assert(said + Seq::<Seq<char>>::empty() =~= said);
                assert(ready.insert("overrides"@, ready["overrides"@]) =~= ready);
            }
            false
        },
    }
}

/// What applying the overrides to a manifest did.
#[derive(Debug)]
pub struct ManifestChange {
    /// Whether the manifest changed.
    pub changed: bool,
    /// What was changed, one line each.
    pub notes: Vec<String>,
}

/// Applies the overrides to a manifest, which has to be an object.
pub fn override_document(
    document: &mut serde_json::Value,
    overrides: &TextMap<String>,
) -> (r: Option<ManifestChange>)
    requires
        overrides.wf(),
    ensures
        match json_of(old(document)) {
            Json::Object(manifest) => {
                &&& r matches Some(change)
                &&& change.changed == is_changed(manifest, map_texts(*overrides))
                &&& texts(change.notes@) == all_notes(manifest, pair_texts(*overrides))
                &&& json_of(final(document)) == Json::Object(
                    manifest_overridden(manifest, map_texts(*overrides)),
                )
            },
            _ => r is None && *final(document) == *old(document),
        },
{
    let mut notes: Vec<String> = Vec::new();
    assert(texts(notes@) =~= Seq::<Seq<char>>::empty());
    match object_mut(document) {
        Some(manifest) => {
            let ghost m0 = members_of(manifest);
            let in_deps = override_section(manifest, "dependencies", overrides, &mut notes);
            let ghost m1 = members_of(manifest);
            let in_dev_deps = override_section(manifest, "devDependencies", overrides, &mut notes);
            let ghost m2 = members_of(manifest);
            let injected = inject_overrides(manifest, overrides, &mut notes);
            proof {
                lemma_sections_are_apart(m0, m1, m2, map_texts(*overrides));
                let pairs = pair_texts(*overrides);
                assert(notes_on(m1, "devDependencies"@, pairs) == notes_on(
                    m0,
                    "devDependencies"@,
                    pairs,
                ));
                assert(texts(notes@) =~= all_notes(m0, pairs));
            }
            Some(ManifestChange { changed: in_deps || in_dev_deps || injected, notes })
        },
        None => None,
    }
}

/// Applies the overrides to the text of a manifest.  Nothing is returned where
/// there is nothing to change.
pub fn apply_pkg_overrides(content: &str, overrides: &TextMap<String>) -> (r: Result<
    Option<ManifestUpdate>,
    ManifestError,
>)
    requires
        overrides.wf(),
    ensures
        if map_texts(*overrides) == Map::<Seq<char>, Seq<char>>::empty() {
            r matches Ok(None)
        } else {
            match json_in(content@) {
                None => r matches Err(ManifestError::Malformed(_)),
                Some(Json::Object(manifest)) => if !is_changed(manifest, map_texts(*overrides)) {
                    r matches Ok(None)
                } else {
                    let after = manifest_overridden(manifest, map_texts(*overrides));
                    &&& r matches Ok(Some(update))
                    &&& update.text@ == pretty_text(Json::Object(after)) + "\n"@
                    &&& texts(update.notes@) == all_notes(manifest, pair_texts(*overrides))
                },
                Some(_) => r matches Err(ManifestError::NotAnObject),
            }
        },
{
    proof {
        if overrides@ == Map::<Seq<char>, String>::empty() {
            assert(map_texts(*overrides) =~= Map::<Seq<char>, Seq<char>>::empty());
        }
        if map_texts(*overrides) == Map::<Seq<char>, Seq<char>>::empty() {
            assert forall|k: Seq<char>| !overrides@.dom().contains(k) by {
                assert(map_texts(*overrides).dom().contains(k) == overrides@.dom().contains(k));
            }
            assert(overrides@ =~= Map::<Seq<char>, String>::empty());
        }
    }
    if overrides.is_empty() {
        return Ok(None);
    }
    let mut document = match parse(content) {
        Ok(document) => document,
        Err(error) => {
            return Err(ManifestError::Malformed(error));
        },
    };
    let change = match override_document(&mut document, overrides) {
        Some(change) => change,
        None => {
            return Err(ManifestError::NotAnObject);
        },
    };
    if !change.changed {
        return Ok(None);
    }
    let mut text = pretty(&document).unwrap();
    text.append("\n");
    Ok(Some(ManifestUpdate { text, notes: change.notes }))
}

/// Overriding in one section leaves the other sections as they are.
proof fn lemma_sections_are_apart(
    m0: Map<Seq<char>, Json>,
    m1: Map<Seq<char>, Json>,
    m2: Map<Seq<char>, Json>,
    overrides: Map<Seq<char>, Seq<char>>,
)
    requires
        m1 == section_overridden(m0, "dependencies"@, overrides),
        m2 == section_overridden(m1, "devDependencies"@, overrides),
    ensures
        m1.dom().contains("devDependencies"@) == m0.dom().contains("devDependencies"@),
        m1["devDependencies"@] == m0["devDependencies"@],
        m2.dom().contains("overrides"@) == m0.dom().contains("overrides"@),
        m2["overrides"@] == m0["overrides"@],
{
    lemma_section_names();
}

/// The names of the sections differ.
proof fn lemma_section_names()
    ensures
        "dependencies"@ != "devDependencies"@,
        "dependencies"@ != "overrides"@,
        "devDependencies"@ != "overrides"@,
{
    reveal_strlit("dependencies");
    reveal_strlit("devDependencies");
    reveal_strlit("overrides");
    assert("dependencies"@.len() != "devDependencies"@.len());
    assert("dependencies"@.len() != "overrides"@.len());
    assert("devDependencies"@.len() != "overrides"@.len());
}

/// Applying the same overrides once more changes nothing.
pub proof fn law_overrides_are_idempotent(
    manifest: Map<Seq<char>, Json>,
    overrides: Map<Seq<char>, Seq<char>>,
)
    ensures
        manifest_overridden(manifest_overridden(manifest, overrides), overrides)
            == manifest_overridden(manifest, overrides),
{
    lemma_section_names();
    let once = manifest_overridden(manifest, overrides);
    lemma_section_idempotent(manifest, "dependencies"@, overrides);
    let m1 = section_overridden(manifest, "dependencies"@, overrides);
    lemma_section_idempotent(m1, "devDependencies"@, overrides);
    let m2 = section_overridden(m1, "devDependencies"@, overrides);
    assert(once == overrides_injected(m2, overrides));
    if has_section(once, "dependencies"@) {
        let deps = manifest["dependencies"@]->Object_0;
        assert(once["dependencies"@] == Json::Object(overridden(deps, overrides)));
        assert(overridden(overridden(deps, overrides), overrides) =~= overridden(deps, overrides));
        assert(once.insert("dependencies"@, once["dependencies"@]) =~= once);
    }
    assert(section_overridden(once, "dependencies"@, overrides) == once);
    if has_section(once, "devDependencies"@) {
        let deps = manifest["devDependencies"@]->Object_0;
        assert(once["devDependencies"@] == Json::Object(overridden(deps, overrides)));
        assert(overridden(overridden(deps, overrides), overrides) =~= overridden(deps, overrides));
        assert(once.insert("devDependencies"@, once["devDependencies"@]) =~= once);
    }
    assert(section_overridden(once, "devDependencies"@, overrides) == once);
    if once["overrides"@] is Object {
        let section = once["overrides"@]->Object_0;
        assert(section.union_prefer_right(as_json(overrides)) =~= section);
        assert(once.insert("overrides"@, once["overrides"@]) =~= once);
    }
}

/// Overriding a section once more changes nothing.
proof fn lemma_section_idempotent(
    manifest: Map<Seq<char>, Json>,
    section: Seq<char>,
    overrides: Map<Seq<char>, Seq<char>>,
)
    ensures
        section_overridden(section_overridden(manifest, section, overrides), section, overrides)
            == section_overridden(manifest, section, overrides),
{
    let once = section_overridden(manifest, section, overrides);
    if has_section(manifest, section) {
        let deps = manifest[section]->Object_0;
        assert(overridden(overridden(deps, overrides), overrides) =~= overridden(deps, overrides));
        assert(once.insert(section, once[section]) =~= once);
    }
}

/// Only the two sections of dependencies and that of overrides change.
pub proof fn law_the_rest_of_a_manifest_stays(
    manifest: Map<Seq<char>, Json>,
    overrides: Map<Seq<char>, Seq<char>>,
    name: Seq<char>,
)
    requires
        name != "dependencies"@,
        name != "devDependencies"@,
        name != "overrides"@,
    ensures
        manifest_overridden(manifest, overrides).dom().contains(name) == manifest.dom().contains(
            name,
        ),
        manifest_overridden(manifest, overrides)[name] == manifest[name],
{
}

/// No dependency is added to, or taken from, a section of dependencies, and every
/// one that is in it and has an override has its version from there.
pub proof fn law_only_versions_change(
    deps: Map<Seq<char>, Json>,
    overrides: Map<Seq<char>, Seq<char>>,
)
    ensures
        overridden(deps, overrides).dom() == deps.dom(),
        forall|name: Seq<char>| #[trigger]
            deps.dom().contains(name) && overrides.dom().contains(name) ==> overridden(
                deps,
                overrides,
            )[name] == Json::Text(overrides[name]),
        forall|name: Seq<char>| #[trigger]
            deps.dom().contains(name) && !overrides.dom().contains(name) ==> overridden(
                deps,
                overrides,
            )[name] == deps[name],
{
    assert(overridden(deps, overrides).dom() =~= deps.dom());
}

/// Every override is in the section of overrides, unless something else than an
/// object stood there.
pub proof fn law_all_overrides_are_injected(
    manifest: Map<Seq<char>, Json>,
    overrides: Map<Seq<char>, Seq<char>>,
    name: Seq<char>,
)
    requires
        overrides.dom().contains(name),
        manifest.dom().contains("overrides"@) ==> manifest["overrides"@] is Object,
    ensures
        has_section(manifest_overridden(manifest, overrides), "overrides"@),
        manifest_overridden(manifest, overrides)["overrides"@]->Object_0.dom().contains(name),
        manifest_overridden(manifest, overrides)["overrides"@]->Object_0[name]
            == Json::Text(overrides[name]),
{
    lemma_section_names();
}

/// In each of the two sections of dependencies that is an object, whatever else the
/// manifest has, every dependency that has an override has its version from there, and
/// every other one keeps what it had; none is added or taken away.
pub proof fn law_dependencies_follow_the_overrides(
    manifest: Map<Seq<char>, Json>,
    overrides: Map<Seq<char>, Seq<char>>,
    section: Seq<char>,
    name: Seq<char>,
)
    requires
        section == "dependencies"@ || section == "devDependencies"@,
        manifest.dom().contains(section),
        manifest[section] is Object,
    ensures
        ({
            let before = manifest[section]->Object_0;
            let after = manifest_overridden(manifest, overrides)[section];
            &&& manifest_overridden(manifest, overrides).dom().contains(section)
            &&& after is Object
            &&& after->Object_0.dom().contains(name) <==> before.dom().contains(name)
            &&& before.dom().contains(name) && overrides.dom().contains(name)
                ==> after->Object_0[name] == Json::Text(overrides[name])
            &&& before.dom().contains(name) && !overrides.dom().contains(name)
                ==> after->Object_0[name] == before[name]
        }),
{
    lemma_section_names();
}

/// A section of dependencies that is not there, or is not an object, stays as it is.
pub proof fn law_other_sections_stay(
    manifest: Map<Seq<char>, Json>,
    overrides: Map<Seq<char>, Seq<char>>,
    section: Seq<char>,
)
    requires
        section == "dependencies"@ || section == "devDependencies"@,
        manifest.dom().contains(section) ==> !(manifest[section] is Object),
    ensures
        manifest_overridden(manifest, overrides).dom().contains(section) <==> manifest.dom().contains(
            section,
        ),
        manifest.dom().contains(section) ==> manifest_overridden(manifest, overrides)[section]
            == manifest[section],
{
    lemma_section_names();
}

/// The section of overrides holds what it held, and every override in place of what
/// stood under its name; it is made where there is none, and anything else than an
/// object that stands there stays.
pub proof fn law_overrides_section(
    manifest: Map<Seq<char>, Json>,
    overrides: Map<Seq<char>, Seq<char>>,
    name: Seq<char>,
)
    ensures
        ({
            let after = manifest_overridden(manifest, overrides);
            &&& after.dom().contains("overrides"@)
            &&& manifest.dom().contains("overrides"@) && !(manifest["overrides"@] is Object)
                ==> after["overrides"@] == manifest["overrides"@]
            &&& !manifest.dom().contains("overrides"@) ==> {
                &&& after["overrides"@] is Object
                &&& after["overrides"@]->Object_0.dom().contains(name)
                    <==> overrides.dom().contains(name)
            }
            &&& manifest.dom().contains("overrides"@) && manifest["overrides"@] is Object ==> {
                let before = manifest["overrides"@]->Object_0;
                &&& after["overrides"@] is Object
                &&& after["overrides"@]->Object_0.dom().contains(name) <==> before.dom().contains(
                    name,
                ) || overrides.dom().contains(name)
                &&& before.dom().contains(name) && !overrides.dom().contains(name)
                    ==> after["overrides"@]->Object_0[name] == before[name]
            }
            &&& after["overrides"@] is Object && overrides.dom().contains(name) && (
            !manifest.dom().contains("overrides"@) || manifest["overrides"@] is Object)
                ==> after["overrides"@]->Object_0[name] == Json::Text(overrides[name])
        }),
{
    lemma_section_names();
}

/// A manifest is written again exactly where one of its dependencies has an override, or
/// where the overrides can be injected; otherwise it is as it was.
pub proof fn law_manifests_are_written_when_touched(
    manifest: Map<Seq<char>, Json>,
    overrides: Map<Seq<char>, Seq<char>>,
)
    ensures
        is_changed(manifest, overrides) <==> {
            ||| exists|name: Seq<char>| #[trigger]
                overrides.dom().contains(name) && manifest.dom().contains("dependencies"@)
                    && manifest["dependencies"@] is Object
                    && manifest["dependencies"@]->Object_0.dom().contains(name)
            ||| exists|name: Seq<char>| #[trigger]
                overrides.dom().contains(name) && manifest.dom().contains("devDependencies"@)
                    && manifest["devDependencies"@] is Object
                    && manifest["devDependencies"@]->Object_0.dom().contains(name)
            ||| manifest.dom().contains("overrides"@) ==> manifest["overrides"@] is Object
        },
        !is_changed(manifest, overrides) ==> manifest_overridden(manifest, overrides) == manifest,
{
    if !is_changed(manifest, overrides) {
        lemma_untouched(manifest, "dependencies"@, overrides);
        lemma_untouched(manifest, "devDependencies"@, overrides);
    }
}

/// A section without a dependency that has an override stays as it is.
proof fn lemma_untouched(
    manifest: Map<Seq<char>, Json>,
    section: Seq<char>,
    overrides: Map<Seq<char>, Seq<char>>,
)
    requires
        !is_touched(manifest, section, overrides),
    ensures
        section_overridden(manifest, section, overrides) == manifest,
{
    if has_section(manifest, section) {
        let deps = manifest[section]->Object_0;
        assert forall|name: Seq<char>| deps.dom().contains(name) implies !(
        #[trigger] overrides.dom().contains(name)) by {}
        assert(overridden(deps, overrides) =~= deps);
        assert(manifest.insert(section, manifest[section]) =~= manifest);
    }
}

/// What is said of a section names every dependency of it that is overridden, with what
/// it had and what it gets, and nothing else.
pub proof fn law_notes_name_every_override(
    section: Seq<char>,
    deps: Map<Seq<char>, Json>,
    pairs: Seq<(Seq<char>, Seq<char>)>,
    name: Seq<char>,
    version: Seq<char>,
)
    ensures
        pairs.contains((name, version)) && deps.dom().contains(name) ==> section_notes(
            section,
            deps,
            pairs,
        ).contains(
            "  overriding "@ + section + "."@ + name + ": "@ + compact_text(deps[name]) + " -> "@
                + version,
        ),
        (forall|i: int| 0 <= i < pairs.len() ==> !deps.dom().contains((#[trigger] pairs[i]).0))
            ==> section_notes(section, deps, pairs).len() == 0,
        (forall|i: int| 0 <= i < pairs.len() ==> deps.dom().contains((#[trigger] pairs[i]).0))
            ==> section_notes(section, deps, pairs).len() == pairs.len(),
        section_notes(section, deps, pairs).len() <= pairs.len(),
    decreases pairs.len(),
{
    if pairs.len() > 0 {
        let front = pairs.drop_last();
        let before = section_notes(section, deps, front);
        let all = section_notes(section, deps, pairs);
        law_notes_name_every_override(section, deps, front, name, version);
        if forall|i: int| 0 <= i < pairs.len() ==> !deps.dom().contains((#[trigger] pairs[i]).0) {
            assert(!deps.dom().contains(pairs[pairs.len() - 1].0));
            assert forall|i: int| 0 <= i < front.len() implies !deps.dom().contains(
                (#[trigger] front[i]).0,
            ) by {
                assert(front[i] == pairs[i]);
            }
        }
        if forall|i: int| 0 <= i < pairs.len() ==> deps.dom().contains((#[trigger] pairs[i]).0) {
            assert(deps.dom().contains(pairs[pairs.len() - 1].0));
            assert forall|i: int| 0 <= i < front.len() implies deps.dom().contains(
                (#[trigger] front[i]).0,
            ) by {
                assert(front[i] == pairs[i]);
            }
        }
        if pairs.contains((name, version)) && deps.dom().contains(name) {
            let note = "  overriding "@ + section + "."@ + name + ": "@ + compact_text(deps[name])
                + " -> "@ + version;
            let i = choose|i: int| 0 <= i < pairs.len() && pairs[i] == (name, version);
            if i < front.len() {
                assert(front[i] == (name, version));
                let j = choose|j: int| 0 <= j < before.len() && before[j] == note;
                assert(all[j] == note);
            } else {
                assert(all[all.len() - 1] == note);
            }
        }
    }
}

/// What is said of a manifest is said of its dependencies first, then of its development
/// dependencies, then of each override in turn, where they can be injected.
pub proof fn law_notes_in_order(
    manifest: Map<Seq<char>, Json>,
    pairs: Seq<(Seq<char>, Seq<char>)>,
)
    ensures
        ({
            let in_deps = if manifest.dom().contains("dependencies"@)
                && manifest["dependencies"@] is Object {
                section_notes("dependencies"@, manifest["dependencies"@]->Object_0, pairs)
            } else {
                Seq::empty()
            };
            let in_dev_deps = if manifest.dom().contains("devDependencies"@)
                && manifest["devDependencies"@] is Object {
                section_notes("devDependencies"@, manifest["devDependencies"@]->Object_0, pairs)
            } else {
                Seq::empty()
            };
            let injected = manifest.dom().contains("overrides"@) ==> manifest["overrides"@] is Object;
            let all = all_notes(manifest, pairs);
            let n = in_deps.len() + in_dev_deps.len();
            &&& all.len() == n + (if injected {
                pairs.len()
            } else {
                0
            })
            &&& all.take(n as int) == in_deps + in_dev_deps
            &&& injected ==> all.skip(n as int) == pairs.map_values(
                |pair: (Seq<char>, Seq<char>)| "  overrides."@ + pair.0 + ": "@ + pair.1,
            )
        }),
{
    let all = all_notes(manifest, pairs);
    let in_deps = notes_on(manifest, "dependencies"@, pairs);
    let in_dev_deps = notes_on(manifest, "devDependencies"@, pairs);
    let n = (in_deps.len() + in_dev_deps.len()) as int;
    assert(all.take(n) =~= in_deps + in_dev_deps);
    assert(all.skip(n) =~= if !manifest.dom().contains("overrides"@)
        || manifest["overrides"@] is Object {
        injection_notes(pairs)
    } else {
        Seq::empty()
    });
}

/// An override is a package and a version around the first equals sign: what comes
/// before it has none, and there is an override exactly where there is one.
pub proof fn law_overrides_are_split(entry: Seq<char>)
    ensures
        override_in(entry) is Some <==> entry.contains('='),
        override_in(entry) matches Some((package, version)) ==> !package.contains('=') && entry
            == package.push('=') + version,
{
    entry.index_of_first_ensures('=');
    if let Some(i) = entry.index_of_first('=') {
        assert(entry =~= entry.take(i).push('=') + entry.skip(i + 1));
        assert forall|j: int| 0 <= j < entry.take(i).len() implies entry.take(i)[j] != '=' by {
            assert(entry.take(i)[j] == entry[j]);
        }
    }
}

/// Of several overrides for a package the last one counts, and there is one for no
/// package that none is given for.
pub proof fn law_the_last_override_counts(
    pairs: Seq<(Seq<char>, Seq<char>)>,
    at: int,
    package: Seq<char>,
)
    ensures
        0 <= at < pairs.len() && pairs[at].0 == package && (forall|j: int|
            at < j < pairs.len() ==> (#[trigger] pairs[j]).0 != package) ==> collected(
            pairs,
        ).dom().contains(package) && collected(pairs)[package] == pairs[at].1,
        (forall|j: int| 0 <= j < pairs.len() ==> (#[trigger] pairs[j]).0 != package) ==> !collected(
            pairs,
        ).dom().contains(package),
    decreases pairs.len(),
{
    if pairs.len() > 0 {
        let front = pairs.drop_last();
        law_the_last_override_counts(front, at, package);
        if forall|j: int| 0 <= j < pairs.len() ==> (#[trigger] pairs[j]).0 != package {
            assert(pairs[pairs.len() - 1].0 != package);
            assert forall|j: int| 0 <= j < front.len() implies (#[trigger] front[j]).0
                != package by {
                assert(front[j] == pairs[j]);
            }
        }
        if 0 <= at < pairs.len() - 1 && pairs[at].0 == package && (forall|j: int|
            at < j < pairs.len() ==> (#[trigger] pairs[j]).0 != package) {
            assert(pairs[pairs.len() - 1].0 != package);
            assert(front[at] == pairs[at]);
            assert forall|j: int| at < j < front.len() implies (#[trigger] front[j]).0
                != package by {
                assert(front[j] == pairs[j]);
            }
        }
    }
}

/// The overrides that are given are those that the entries spell out, one each, in their
/// order.
pub proof fn law_every_entry_is_an_override(entries: Seq<Seq<char>>, at: int)
    requires
        0 <= at < entries.len(),
        entries[at].contains('='),
    ensures
        overrides_in(entries).len() == entries.len(),
        entries[at] == overrides_in(entries)[at].0.push('=') + overrides_in(entries)[at].1,
        !overrides_in(entries)[at].0.contains('='),
{
    law_overrides_are_split(entries[at]);
}

/// Which lock files a package directory has.
#[derive(Debug, Clone, Copy)]
pub struct LockFiles {
    /// `pnpm-lock.yaml`
    pub pnpm_lock_yaml: bool,
    /// `bun.lockb`
    pub bun_lockb: bool,
    /// `bun.lock`
    pub bun_lock: bool,
}

/// The package manager of a directory with these lock files.
pub open spec fn manager_for(locks: LockFiles) -> Seq<char> {
    if locks.pnpm_lock_yaml {
        "pnpm"@
    } else if locks.bun_lockb || locks.bun_lock {
        "bun"@
    } else {
        "npm"@
    }
}

/// A lock file of pnpm settles it; without one, either lock file of bun does; without
/// any it is npm.
pub proof fn law_lock_files_settle_the_manager(locks: LockFiles)
    ensures
        manager_for(locks) == "pnpm"@ <==> locks.pnpm_lock_yaml,
        manager_for(locks) == "bun"@ <==> !locks.pnpm_lock_yaml && (locks.bun_lockb
            || locks.bun_lock),
        manager_for(locks) == "npm"@ <==> !locks.pnpm_lock_yaml && !locks.bun_lockb
            && !locks.bun_lock,
{
    reveal_strlit("pnpm");
    reveal_strlit("bun");
    reveal_strlit("npm");
    assert("bun"@[0] == 'b' && "npm"@[0] == 'n' && "pnpm"@.len() == 4);
}

/// Finds the package manager of a directory by its lock files.
pub fn detect_package_manager(locks: LockFiles) -> (r: &'static str)
    ensures
        r@ == manager_for(locks),
        r@ == (if locks.pnpm_lock_yaml {
            "pnpm"@
        } else if locks.bun_lockb || locks.bun_lock {
            "bun"@
        } else {
            "npm"@
        }),
{
    if locks.pnpm_lock_yaml {
        "pnpm"
    } else if locks.bun_lockb || locks.bun_lock {
        "bun"
    } else {
        "npm"
    }
}

/// The components of the directory that the dependencies of a manifest are installed in.
pub open spec fn install_place(output_dir: Seq<u8>, package_json_rel: Seq<u8>) -> Seq<Seq<u8>> {
    let manifest = components(joined(output_dir, package_json_rel));
    if manifest.len() == 0 || manifest.last() == root() {
        components(output_dir)
    } else {
        manifest.drop_last()
    }
}

/// The dependencies of a manifest are installed where the manifest is: adjoining its name
/// leads back to it.
pub proof fn law_installed_beside_the_manifest(output_dir: Seq<u8>, package_json_rel: Seq<u8>)
    ensures
        ({
            let manifest = components(joined(output_dir, package_json_rel));
            &&& manifest.len() > 0 && manifest.last() != root() ==> install_place(
                output_dir,
                package_json_rel,
            ).push(manifest.last()) == manifest
            &&& manifest.len() == 0 ==> install_place(output_dir, package_json_rel) == components(
                output_dir,
            )
        }),
{
    let manifest = components(joined(output_dir, package_json_rel));
    if manifest.len() > 0 {
        assert(manifest.drop_last().push(manifest.last()) =~= manifest);
    }
}

/// The directory that the dependencies of a manifest are installed in, which is the
/// one that holds the manifest.
pub fn install_dir(output_dir: &Path, package_json_rel: &str) -> (r: PathBuf)
    ensures
        buf_parts(&r) == install_place(path_bytes(output_dir), bytes_of(package_json_rel@)),
        ({
            let manifest = components(joined(path_bytes(output_dir), bytes_of(package_json_rel@)));
            if manifest.len() == 0 || manifest.last() == root() {
                path_buf_bytes(&r) == path_bytes(output_dir)
            } else {
                buf_parts(&r) == manifest.drop_last()
            }
        }),
{
    let manifest = join(output_dir, package_json_rel);
    match parent(as_path(&manifest)) {
        Some(dir) => to_path_buf(dir),
        None => to_path_buf(output_dir),
    }
}

/// What a map of overrides holds is what its pairs are, text for text.
pub proof fn law_maps_hold_their_pairs(map: TextMap<String>, at: int)
    requires
        map.wf(),
        0 <= at < map.pairs().len(),
    ensures
        pair_texts(map).len() == map.pairs().len(),
        pair_texts(map)[at] == (map.pairs()[at].0@, map.pairs()[at].1@),
        map_texts(map).dom().contains(map.pairs()[at].0@),
        map_texts(map)[map.pairs()[at].0@] == map.pairs()[at].1@,
        map_texts(map).dom() == map@.dom(),
{
    map.lemma_at(at);
    assert(map_texts(map).dom() =~= map@.dom());
}

} // verus!
