//! From file system events to log entries.
use std::path::{Path, PathBuf};

use globset::{Glob, GlobSet, GlobSetBuilder};
use vstd::prelude::*;
use vstd::utf8::{decode_utf8, valid_utf8};

use crate::log::{EntryView, LogRow, LogWriter, Operation, RowView, appended};
use crate::paths::{
    as_path, bytes_of, components, is_inside, joined, lemma_leading_slash, lemma_no_components,
    lemma_root_comes_first, lemma_utf8_components, lossy, parts, path_buf_bytes, path_bytes,
    starts_with, strip_prefix, stripped, to_string_lossy,
};
use crate::text::{opt_text, texts};

verus! {

/// One glob pattern, ready for matching.
#[verifier::external_type_specification]
#[verifier::external_body]
pub struct ExGlob(globset::Glob);

/// A collection of globs that is still growing.
#[verifier::external_type_specification]
#[verifier::external_body]
pub struct ExGlobSetBuilder(globset::GlobSetBuilder);

/// A collection of globs that are matched together.
#[verifier::external_type_specification]
#[verifier::external_body]
pub struct ExGlobSet(globset::GlobSet);

/// Why a glob, or a collection of globs, cannot be had.
#[verifier::external_type_specification]
#[verifier::external_body]
pub struct ExGlobError(globset::Error);

/// The pattern that a glob was made from.
pub uninterp spec fn glob_pattern(glob: &globset::Glob) -> Seq<char>;

/// The patterns of the globs that a growing collection holds.
pub uninterp spec fn builder_patterns(builder: &globset::GlobSetBuilder) -> Seq<Seq<char>>;

/// The patterns of the globs that a collection holds.
pub uninterp spec fn set_patterns(set: &globset::GlobSet) -> Seq<Seq<char>>;

/// Whether `Glob::new` takes a pattern.
pub uninterp spec fn is_glob(pattern: Seq<char>) -> bool;

/// Whether `GlobSetBuilder::build` can compile globs with these patterns together.
pub uninterp spec fn can_build(patterns: Seq<Seq<char>>) -> bool;

/// Whether the glob with this pattern matches a path.
pub uninterp spec fn glob_matches(pattern: Seq<char>, path: Seq<char>) -> bool;

/// Whether one of the globs matches a path.
pub open spec fn any_matches(patterns: Seq<Seq<char>>, path: Seq<char>) -> bool {
    exists|i: int| 0 <= i < patterns.len() && glob_matches(#[trigger] patterns[i], path)
}

/// `Glob::new`: a glob with the given pattern, where that is a glob pattern.
#[verifier::external_body]
fn new_glob(pattern: &str) -> (r: Result<Glob, globset::Error>)
    ensures
        r is Ok <==> is_glob(pattern@),
        r matches Ok(glob) ==> glob_pattern(&glob) == pattern@,
{
    Glob::new(pattern)
}

/// `GlobSetBuilder::new`: a collection without globs.
#[verifier::external_body]
fn new_builder() -> (r: GlobSetBuilder)
    ensures
        builder_patterns(&r) == Seq::<Seq<char>>::empty(),
{
    GlobSetBuilder::new()
}

/// `GlobSetBuilder::add`: the glob joins the collection behind the others.
#[verifier::external_body]
fn add_glob(builder: &mut GlobSetBuilder, glob: Glob)
    ensures
        builder_patterns(final(builder)) == builder_patterns(old(builder)).push(
            glob_pattern(&glob),
        ),
{
    builder.add(glob);
}

/// `GlobSetBuilder::build`: a collection of the globs added so far, where they
/// can be compiled together.
#[verifier::external_body]
fn build_set(builder: &GlobSetBuilder) -> (r: Result<GlobSet, globset::Error>)
    ensures
        r is Ok <==> can_build(builder_patterns(builder)),
        r matches Ok(set) ==> set_patterns(&set) == builder_patterns(builder),
{
    builder.build()
}

/// `GlobSet::is_match`: whether any glob in the collection matches the path.
#[verifier::external_body]
fn is_match(set: &GlobSet, path: &str) -> (r: bool)
    ensures
        r == (exists|i: int|
            0 <= i < set_patterns(set).len() && glob_matches(
                #[trigger] set_patterns(set)[i],
                path@,
            )),
{
    set.is_match(path)
}

/// Why the ignore patterns cannot be used.
#[derive(Debug)]
pub enum IgnoreError {
    /// This pattern is not a glob pattern.
    InvalidPattern {
        /// The pattern.
        pattern: String,
        /// What the matcher says of it.
        error: globset::Error,
    },
    /// The patterns cannot be compiled together.
    Unbuildable(globset::Error),
}

/// The pattern for `pattern` at any depth.
pub open spec fn nested(pattern: Seq<char>) -> Seq<char> {
    "**/"@ + pattern
}

/// The pattern for what lies in `pattern`.
pub open spec fn contents(pattern: Seq<char>) -> Seq<char> {
    pattern + "/**"@
}

/// Whether an ignore pattern is taken.
pub open spec fn is_ignore_pattern(pattern: Seq<char>) -> bool {
    is_glob(pattern) && is_glob(nested(pattern))
}

/// The globs of one ignore pattern: itself, itself at any depth, and, as far as
/// these are glob patterns, what lies in either.
pub open spec fn pattern_globs(pattern: Seq<char>) -> Seq<Seq<char>> {
    seq![pattern, nested(pattern)] + (if is_glob(contents(pattern)) {
        seq![contents(pattern)]
    } else {
        Seq::empty()
    }) + (if is_glob(contents(nested(pattern))) {
        seq![contents(nested(pattern))]
    } else {
        Seq::empty()
    })
}

/// The globs of a list of ignore patterns.
pub open spec fn ignore_globs(patterns: Seq<Seq<char>>) -> Seq<Seq<char>>
    decreases patterns.len(),
{
    if patterns.len() == 0 {
        Seq::empty()
    } else {
        ignore_globs(patterns.drop_last()) + pattern_globs(patterns.last())
    }
}

/// The globs that an ignore pattern stands for besides itself.
pub struct PatternForms {
    /// The pattern at any depth.
    pub anywhere: String,
    /// What lies in the pattern.
    pub inside: String,
    /// What lies in the pattern at any depth.
    pub inside_anywhere: String,
}

/// Finds the globs that an ignore pattern stands for besides itself.
pub fn pattern_forms(pattern: &str) -> (r: PatternForms)
    ensures
        r.anywhere@ == nested(pattern@),
        r.inside@ == contents(pattern@),
        r.inside_anywhere@ == contents(nested(pattern@)),
{
    let mut anywhere = "**/".to_string();
    anywhere.append(pattern);
    let mut inside = pattern.to_string();
    inside.append("/**");
    let mut inside_anywhere = anywhere.clone();
    inside_anywhere.append("/**");
    PatternForms { anywhere, inside, inside_anywhere }
}

/// Makes the collection of globs that a list of ignore patterns stands for.
pub fn build_ignore_set(patterns: &[String], _watch_dir: &Path) -> (r: Result<GlobSet, IgnoreError>)
    ensures
        match r {
            Ok(set) => {
                &&& forall|i: int|
                    0 <= i < patterns@.len() ==> is_ignore_pattern((#[trigger] patterns@[i])@)
                &&& can_build(ignore_globs(texts(patterns@)))
                &&& set_patterns(&set) == ignore_globs(texts(patterns@))
            },
            Err(IgnoreError::InvalidPattern { pattern, .. }) => exists|i: int|
                {
                    &&& 0 <= i < patterns@.len()
                    &&& pattern@ == (#[trigger] patterns@[i])@
                    &&& !is_ignore_pattern(pattern@)
                    &&& forall|j: int| 0 <= j < i ==> is_ignore_pattern((#[trigger] patterns@[j])@)
                },
            Err(IgnoreError::Unbuildable(_)) => {
                &&& forall|i: int|
                    0 <= i < patterns@.len() ==> is_ignore_pattern((#[trigger] patterns@[i])@)
                &&& !can_build(ignore_globs(texts(patterns@)))
            },
        },
{
    let mut builder = new_builder();
    let mut at: usize = 0;
    assert(texts(patterns@).take(0) =~= Seq::<Seq<char>>::empty());
    while at < patterns.len()
        invariant
            at <= patterns@.len(),
            builder_patterns(&builder) == ignore_globs(texts(patterns@).take(at as int)),
            forall|i: int| 0 <= i < at ==> is_ignore_pattern((#[trigger] patterns@[i])@),
        decreases patterns@.len() - at,
    {
        let pattern = &patterns[at];
        let ghost before = builder_patterns(&builder);
        match new_glob(pattern.as_str()) {
            Ok(glob) => {
                add_glob(&mut builder, glob);
            },
            Err(error) => {
                assert(patterns@[at as int]@ == pattern@);
                return Err(IgnoreError::InvalidPattern { pattern: pattern.clone(), error });
            },
        }
        let forms = pattern_forms(pattern.as_str());
        match new_glob(forms.anywhere.as_str()) {
            Ok(glob) => {
                add_glob(&mut builder, glob);
            },
            Err(error) => {
                assert(patterns@[at as int]@ == pattern@);
                return Err(IgnoreError::InvalidPattern { pattern: pattern.clone(), error });
            },
        }
        if let Ok(glob) = new_glob(forms.inside.as_str()) {
            add_glob(&mut builder, glob);
        }
        if let Ok(glob) = new_glob(forms.inside_anywhere.as_str()) {
            add_glob(&mut builder, glob);
        }
        proof {
            assert(builder_patterns(&builder) =~= before + pattern_globs(pattern@));
            assert(texts(patterns@).take(at + 1).drop_last() =~= texts(patterns@).take(at as int));
            assert(texts(patterns@).take(at + 1).last() == pattern@);
        }
        at = at + 1;
    }
    assert(texts(patterns@).take(at as int) =~= texts(patterns@));
    match build_set(&builder) {
        Ok(set) => Ok(set),
        Err(error) => Err(IgnoreError::Unbuildable(error)),
    }
}

/// The text of a path relative to the watched directory.
pub open spec fn relative_text(path: Seq<u8>, watch_dir: Seq<u8>) -> Seq<char> {
    lossy(stripped(path, watch_dir))
}

/// Whether nothing is recorded of a path: it lies in the data directory, or
/// outside the watched directory, or an ignore pattern matches it.
pub open spec fn is_ignored(
    path: Seq<u8>,
    watch_dir: Seq<u8>,
    data_dir: Seq<u8>,
    globs: Seq<Seq<char>>,
) -> bool {
    ||| is_inside(path, data_dir)
    ||| !is_inside(path, watch_dir)
    ||| any_matches(globs, relative_text(path, watch_dir))
}

/// Whether nothing is recorded of a path.
pub fn should_ignore(
    path: &Path,
    watch_dir: &Path,
    data_dir: &Path,
    ignore_set: &GlobSet,
) -> (r: bool)
    ensures
        r == is_ignored(
            path_bytes(path),
            path_bytes(watch_dir),
            path_bytes(data_dir),
            set_patterns(ignore_set),
        ),
{
    if starts_with(path, data_dir) {
        return true;
    }
    match strip_prefix(path, watch_dir) {
        Some(rest) => {
            let text = to_string_lossy(rest);
            is_match(ignore_set, text.as_str())
        },
        None => true,
    }
}

/// Whether a relative text leads back to the path it is of: it names what comes
/// behind the watched directory, and joined onto that it yields the path.  It is
/// empty for the watched directory itself, and never absolute.
pub open spec fn leads_back(text: Seq<char>, path: Seq<u8>, watch_dir: Seq<u8>) -> bool {
    &&& components(bytes_of(text)) == components(path).skip(components(watch_dir).len() as int)
    &&& components(joined(watch_dir, bytes_of(text))) == components(path)
    &&& components(path) == components(watch_dir) ==> text.len() == 0
    &&& components(watch_dir).len() > 0 ==> !(text.len() > 0 && text[0] == '/')
}

/// The text of a path relative to the watched directory, where it lies in there.
pub fn relative_path(path: &Path, watch_dir: &Path) -> (r: Option<String>)
    ensures
        match r {
            Some(text) => {
                let rest = stripped(path_bytes(path), path_bytes(watch_dir));
                &&& is_inside(path_bytes(path), path_bytes(watch_dir))
                &&& text@ == relative_text(path_bytes(path), path_bytes(watch_dir))
                &&& components(rest) == parts(path).skip(parts(watch_dir).len() as int)
                &&& valid_utf8(rest) ==> text@ == decode_utf8(rest)
                &&& valid_utf8(path_bytes(path)) ==> valid_utf8(rest) && leads_back(
                    text@,
                    path_bytes(path),
                    path_bytes(watch_dir),
                )
            },
            None => !is_inside(path_bytes(path), path_bytes(watch_dir)),
        },
{
    match strip_prefix(path, watch_dir) {
        Some(rest) => {
            let text = to_string_lossy(rest);
            proof {
                if valid_utf8(path_bytes(path)) {
                    lemma_leads_back(
                        text@,
                        path_bytes(rest),
                        path_bytes(path),
                        path_bytes(watch_dir),
                    );
                }
            }
            Some(text)
        },
        None => None,
    }
}

/// What is left of a path in UTF-8 is UTF-8, and its text leads back.
proof fn lemma_leads_back(text: Seq<char>, rest: Seq<u8>, path: Seq<u8>, watch_dir: Seq<u8>)
    requires
        valid_utf8(path),
        is_inside(path, watch_dir),
        components(rest) == components(path).skip(components(watch_dir).len() as int),
        components(joined(watch_dir, rest)) == components(path),
        valid_utf8(rest) ==> text == decode_utf8(rest),
    ensures
        valid_utf8(rest),
        leads_back(text, path, watch_dir),
{
    let skipped = components(watch_dir).len() as int;
    assert forall|i: int| 0 <= i < components(rest).len() implies components(path).contains(
        #[trigger] components(rest)[i],
    ) by {
        assert(components(rest)[i] == components(path)[i + skipped]);
    }
    lemma_utf8_components(rest, path);
    vstd::utf8::decode_utf8_encode_utf8(rest);
    lemma_no_components(rest);
    lemma_leading_slash(text);
    lemma_root_comes_first(rest);
    lemma_root_comes_first(path);
    if skipped > 0 && components(rest).len() > 0 {
        assert(components(rest)[0] == components(path)[skipped]);
    }
    if components(path) == components(watch_dir) {
        assert(components(rest).len() == 0);
        assert(decode_utf8(rest).len() == 0);
    }
}

/// The bytes of a relative path in its plainest form.
pub open spec fn written(names: Seq<Seq<u8>>) -> Seq<u8>
    decreases names.len(),
{
    if names.len() == 0 {
        Seq::empty()
    } else if names.len() == 1 {
        names[0]
    } else {
        written(names.drop_last()).push(0x2F) + names.last()
    }
}

/// Whether a relative path is written in its plainest form, without any slash or
/// current directory that names nothing.
pub open spec fn is_plain(text: Seq<char>) -> bool {
    bytes_of(text) == written(components(bytes_of(text)))
}

/// What was joined onto the watched directory comes back: the text of the joined path
/// names the same components, and is the same text where both are written plainly.
pub proof fn law_relative_paths_come_back(
    rel: Seq<char>,
    text: Seq<char>,
    path: Seq<u8>,
    watch_dir: Seq<u8>,
)
    requires
        components(path) == components(watch_dir) + components(bytes_of(rel)),
        leads_back(text, path, watch_dir),
    ensures
        is_inside(path, watch_dir),
        components(bytes_of(text)) == components(bytes_of(rel)),
        is_plain(rel) && is_plain(text) ==> text == rel,
{
    assert(components(path).skip(components(watch_dir).len() as int) =~= components(bytes_of(rel)));
    vstd::utf8::encode_utf8_decode_utf8(rel);
    vstd::utf8::encode_utf8_decode_utf8(text);
}

/// What a file system event is about.
#[derive(Debug, Clone, Copy)]
pub enum EventKind {
    /// Nothing is known.
    Any,
    /// A file was opened, read or closed.
    Access,
    /// A path came to be.
    Create,
    /// A path changed.
    Modify(ModifyKind),
    /// A path ceased to be.
    Remove,
    /// Something else.
    Other,
}

/// What changed about a path.
#[derive(Debug, Clone, Copy)]
pub enum ModifyKind {
    /// Nothing is known.
    Any,
    /// The content.
    Data,
    /// The metadata.
    Metadata,
    /// The name.
    Name(RenameMode),
    /// Something else.
    Other,
}

/// Which ends of a rename an event speaks of.
#[derive(Debug, Clone, Copy)]
pub enum RenameMode {
    /// Nothing is known.
    Any,
    /// The new name.
    To,
    /// The old name.
    From,
    /// The old name and the new one.
    Both,
    /// Something else.
    Other,
}

/// A file system event.
pub struct FsEvent {
    /// What it is about.
    pub kind: EventKind,
    /// The paths it is about.
    pub paths: Vec<PathBuf>,
}

/// A change that is to be recorded.
pub struct Change {
    /// What was done.
    pub op: Operation,
    /// The path, relative to the watched directory.
    pub path: String,
    /// Where a rename leads, relative to the watched directory.
    pub dest_path: Option<String>,
    /// The place of the path in the event.
    pub source: usize,
}

/// A change, with its texts as sequences.
#[verifier::ext_equal]
pub struct ChangeView {
    pub op: Operation,
    pub path: Seq<char>,
    pub dest_path: Option<Seq<char>>,
    pub source: nat,
}

impl View for Change {
    type V = ChangeView;

    open spec fn view(&self) -> ChangeView {
        ChangeView {
            op: self.op,
            path: self.path@,
            dest_path: opt_text(self.dest_path),
            source: self.source as nat,
        }
    }
}

/// The operation that an event records, if it records one.
pub open spec fn operation_of(kind: EventKind) -> Option<Operation> {
    match kind {
        EventKind::Create => Some(Operation::Create),
        EventKind::Modify(ModifyKind::Data) => Some(Operation::Modify),
        EventKind::Modify(ModifyKind::Name(RenameMode::Both)) => Some(Operation::Rename),
        EventKind::Remove => Some(Operation::Delete),
        _ => None,
    }
}

/// The operation that an event records, if it records one.
fn classify(kind: EventKind) -> (r: Option<Operation>)
    ensures
        r == operation_of(kind),
{
    match kind {
        EventKind::Create => Some(Operation::Create),
        EventKind::Modify(ModifyKind::Data) => Some(Operation::Modify),
        EventKind::Modify(ModifyKind::Name(RenameMode::Both)) => Some(Operation::Rename),
        EventKind::Remove => Some(Operation::Delete),
        _ => None,
    }
}

/// The bytes of a list of paths.
pub open spec fn all_bytes(paths: Seq<PathBuf>) -> Seq<Seq<u8>> {
    paths.map_values(|p: PathBuf| path_buf_bytes(&p))
}

/// What is found out about a path of an event.
pub struct Sighting {
    /// Whether nothing is recorded of it.
    pub ignored: bool,
    /// Its text relative to the watched directory, where it lies in there.
    pub rel: Option<String>,
}

/// A sighting, with its text as a sequence.
#[verifier::ext_equal]
pub struct SightingView {
    pub ignored: bool,
    pub rel: Option<Seq<char>>,
}

impl View for Sighting {
    type V = SightingView;

    open spec fn view(&self) -> SightingView {
        SightingView { ignored: self.ignored, rel: opt_text(self.rel) }
    }
}

/// The sightings, with their texts as sequences.
pub open spec fn sighting_views(sightings: Seq<Sighting>) -> Seq<SightingView> {
    sightings.map_values(|sighting: Sighting| sighting@)
}

/// What is found out about a path.
pub open spec fn sighting_of(
    path: Seq<u8>,
    watch_dir: Seq<u8>,
    data_dir: Seq<u8>,
    globs: Seq<Seq<char>>,
) -> SightingView {
    SightingView {
        ignored: is_ignored(path, watch_dir, data_dir, globs),
        rel: if is_inside(path, watch_dir) {
            Some(relative_text(path, watch_dir))
        } else {
            None
        },
    }
}

/// What is found out about the paths of an event.
pub open spec fn sightings_of(
    paths: Seq<Seq<u8>>,
    watch_dir: Seq<u8>,
    data_dir: Seq<u8>,
    globs: Seq<Seq<char>>,
) -> Seq<SightingView> {
    paths.map_values(|path: Seq<u8>| sighting_of(path, watch_dir, data_dir, globs))
}

/// One change for every path that is not ignored and lies in the watched directory.
pub open spec fn single_changes(op: Operation, sightings: Seq<SightingView>) -> Seq<ChangeView>
    decreases sightings.len(),
{
    if sightings.len() == 0 {
        Seq::empty()
    } else {
        let before = single_changes(op, sightings.drop_last());
        match sightings.last().rel {
            Some(path) => if sightings.last().ignored {
                before
            } else {
                before.push(
                    ChangeView {
                        op,
                        path,
                        dest_path: None,
                        source: (sightings.len() - 1) as nat,
                    },
                )
            },
            None => before,
        }
    }
}

/// The change that a rename between two paths records, unless both are ignored or
/// one lies outside the watched directory.
pub open spec fn rename_change(from: SightingView, to: SightingView) -> Option<ChangeView> {
    if from.ignored && to.ignored {
        None
    } else {
        match (from.rel, to.rel) {
            (Some(path), Some(dest)) => Some(
                ChangeView { op: Operation::Rename, path, dest_path: Some(dest), source: 0 },
            ),
            _ => None,
        }
    }
}

/// The changes that an event records, from what is found out about its paths: a
/// rename between two paths is one change at most, every other event is one for
/// each path that counts.
pub open spec fn changes_seen(kind: EventKind, sightings: Seq<SightingView>) -> Seq<ChangeView> {
    match operation_of(kind) {
        None => Seq::empty(),
        Some(op) => if op == Operation::Rename && sightings.len() == 2 {
            match rename_change(sightings[0], sightings[1]) {
                Some(change) => seq![change],
                None => Seq::empty(),
            }
        } else {
            single_changes(op, sightings)
        },
    }
}

/// The changes that an event records.
pub open spec fn changes_of(
    kind: EventKind,
    paths: Seq<Seq<u8>>,
    watch_dir: Seq<u8>,
    data_dir: Seq<u8>,
    globs: Seq<Seq<char>>,
) -> Seq<ChangeView> {
    changes_seen(kind, sightings_of(paths, watch_dir, data_dir, globs))
}

/// The changes, with their texts as sequences.
pub open spec fn change_views(changes: Seq<Change>) -> Seq<ChangeView> {
    changes.map_values(|change: Change| change@)
}

/// Finds the changes that an event records, from what was found out about its
/// paths, in the order of these.
pub fn changes_from(kind: EventKind, sightings: &Vec<Sighting>) -> (r: Vec<Change>)
    ensures
        change_views(r@) == changes_seen(kind, sighting_views(sightings@)),
{
    let ghost seen = sighting_views(sightings@);
    let mut changes: Vec<Change> = Vec::new();
    assert(change_views(changes@) =~= Seq::<ChangeView>::empty());
    let op = match classify(kind) {
        Some(op) => op,
        None => {
            return changes;
        },
    };
    if op == Operation::Rename && sightings.len() == 2 {
        let from = &sightings[0];
        let to = &sightings[1];
        assert(seen[0] == from@ && seen[1] == to@);
        if from.ignored && to.ignored {
            return changes;
        }
        if let Some(path) = &from.rel {
            if let Some(dest) = &to.rel {
                changes.push(
                    Change {
                        op: Operation::Rename,
                        path: path.clone(),
                        dest_path: Some(dest.clone()),
                        source: 0,
                    },
                );
            }
        }
        assert(change_views(changes@) =~= changes_seen(kind, seen));
        return changes;
    }
    let mut at: usize = 0;
    assert(seen.take(0) =~= Seq::<SightingView>::empty());
    while at < sightings.len()
        invariant
            at <= sightings@.len(),
            seen == sighting_views(sightings@),
            change_views(changes@) == single_changes(op, seen.take(at as int)),
        decreases sightings@.len() - at,
    {
        let sighting = &sightings[at];
        let ghost before = changes@;
        assert(seen.take(at + 1).drop_last() =~= seen.take(at as int));
        assert(seen.take(at + 1).last() == sighting@);
        if !sighting.ignored {
            if let Some(rel) = &sighting.rel {
                changes.push(Change { op, path: rel.clone(), dest_path: None, source: at });
                assert(change_views(changes@) =~= change_views(before).push(changes@.last()@));
            }
        }
        at = at + 1;
    }
    assert(seen.take(at as int) =~= seen);
    changes
}

/// Whether the texts that the first `n` paths are recorded under lead back to them.
pub open spec fn all_lead_back(paths: Seq<Seq<u8>>, watch_dir: Seq<u8>, n: int) -> bool {
    forall|i: int|
        0 <= i < n && is_inside(#[trigger] paths[i], watch_dir) && valid_utf8(paths[i])
            ==> leads_back(relative_text(paths[i], watch_dir), paths[i], watch_dir)
}

/// Finds the changes that an event records, in the order of its paths.
pub fn handle_event(
    event: &FsEvent,
    watch_dir: &Path,
    data_dir: &Path,
    ignore_set: &GlobSet,
) -> (r: Vec<Change>)
    ensures
        change_views(r@) == changes_of(
            event.kind,
            all_bytes(event.paths@),
            path_bytes(watch_dir),
            path_bytes(data_dir),
            set_patterns(ignore_set),
        ),
        all_lead_back(
            all_bytes(event.paths@),
            path_bytes(watch_dir),
            event.paths@.len() as int,
        ),
{
    let ghost all = sightings_of(
        all_bytes(event.paths@),
        path_bytes(watch_dir),
        path_bytes(data_dir),
        set_patterns(ignore_set),
    );
    let mut sightings: Vec<Sighting> = Vec::new();
    let mut at: usize = 0;
    assert(sighting_views(sightings@) =~= all.take(0));
    while at < event.paths.len()
        invariant
            at <= event.paths@.len(),
            all == sightings_of(
                all_bytes(event.paths@),
                path_bytes(watch_dir),
                path_bytes(data_dir),
                set_patterns(ignore_set),
            ),
            sighting_views(sightings@) == all.take(at as int),
            all_lead_back(all_bytes(event.paths@), path_bytes(watch_dir), at as int),
        decreases event.paths@.len() - at,
    {
        let path = as_path(&event.paths[at]);
        let ghost before = sightings@;
        let ignored = should_ignore(path, watch_dir, data_dir, ignore_set);
        sightings.push(Sighting { ignored, rel: relative_path(path, watch_dir) });
        proof {
            assert(all_bytes(event.paths@)[at as int] == path_bytes(path));
            assert(sighting_views(sightings@) =~= sighting_views(before).push(
                sightings@.last()@,
            ));
            assert(all.take(at + 1) =~= all.take(at as int).push(all[at as int]));
        }
        at = at + 1;
    }
    assert(all.take(at as int) =~= all);
    changes_from(event.kind, &sightings)
}

impl Change {
    /// Whether the content of the path is to be snapshotted.
    pub open spec fn snapshots(&self) -> bool {
        self.op == Operation::Create || self.op == Operation::Modify
    }

    /// Whether the content of the path is to be snapshotted.
    pub fn wants_snapshot(&self) -> (r: bool)
        ensures
            r == self.snapshots(),
    {
        self.op == Operation::Create || self.op == Operation::Modify
    }
}

/// Makes the log row of a change.  `snapshot` is the name and the size of the
/// content, where a snapshot could be taken.
pub fn record_change(
    writer: &mut LogWriter,
    change: Change,
    elapsed_ms: u64,
    snapshot: Option<(String, u64)>,
) -> (r: LogRow)
    requires
        old(writer).last_seq() < u64::MAX,
    ensures
        final(writer).last_seq() == old(writer).last_seq() + 1,
        r@ == recorded(
            old(writer).last_seq(),
            change@,
            elapsed_ms,
            match snapshot {
                Some((hash, size)) => Some((hash@, size)),
                None => None,
            },
        ),
        r@ == RowView::Event(
            (EntryView {
                seq: final(writer).last_seq(),
                elapsed_ms,
                op: change.op,
                path: change@.path,
                dest_path: change@.dest_path,
                content_hash: match snapshot {
                    Some((hash, _)) => if change.snapshots() {
                        Some(hash@)
                    } else {
                        None
                    },
                    None => None,
                },
                size: match snapshot {
                    Some((_, size)) => if change.snapshots() {
                        Some(size)
                    } else {
                        None
                    },
                    None => None,
                },
            }),
        ),
{
    let wanted = change.wants_snapshot();
    let (content_hash, size) = match snapshot {
        Some((hash, size)) => if wanted {
            (Some(hash), Some(size))
        } else {
            (None, None)
        },
        None => (None, None),
    };
    writer.append(elapsed_ms, change.op, change.path, change.dest_path, content_hash, size)
}

/// What waiting for the next event gives.
#[derive(Debug, Clone, Copy, PartialEq, Eq, Structural)]
pub enum Received {
    /// An event.
    Event,
    /// An error of the watcher.
    WatcherError,
    /// Nothing in time.
    Timeout,
    /// The watcher is gone.
    Disconnected,
}

/// What the watch loop does next.
#[derive(Debug, Clone, Copy, PartialEq, Eq, Structural)]
pub enum RunStep {
    /// Handle the event, then wait again.
    Handle,
    /// Report the error, then wait again.
    Report,
    /// Wait again.
    Wait,
    /// Leave the loop.
    Leave,
}

/// One turn of the watch loop.  `shutdown` is whether a shutdown was asked for
/// before the turn, which ends the loop; otherwise `received` is what waiting gave.
pub fn run(shutdown: bool, received: Received) -> (r: RunStep)
    ensures
        r == next_step(shutdown, received),
        shutdown ==> r == RunStep::Leave,
        !shutdown ==> r == (match received {
            Received::Event => RunStep::Handle,
            Received::WatcherError => RunStep::Report,
            Received::Timeout => RunStep::Wait,
            Received::Disconnected => RunStep::Leave,
        }),
{
    if shutdown {
        return RunStep::Leave;
    }
    match received {
        Received::Event => RunStep::Handle,
        Received::WatcherError => RunStep::Report,
        Received::Timeout => RunStep::Wait,
        Received::Disconnected => RunStep::Leave,
    }
}

/// Whether an ignore pattern covers a path: by itself, at any depth, or by what
/// lies in either.
pub open spec fn covers(pattern: Seq<char>, path: Seq<char>) -> bool {
    ||| glob_matches(pattern, path)
    ||| glob_matches(nested(pattern), path)
    ||| is_glob(contents(pattern)) && glob_matches(contents(pattern), path)
    ||| is_glob(contents(nested(pattern))) && glob_matches(contents(nested(pattern)), path)
}

/// A path is matched exactly where one of the ignore patterns covers it.
pub proof fn law_patterns_cover(patterns: Seq<Seq<char>>, path: Seq<char>)
    ensures
        any_matches(ignore_globs(patterns), path) <==> exists|i: int|
            0 <= i < patterns.len() && covers(#[trigger] patterns[i], path),
    decreases patterns.len(),
{
    if patterns.len() > 0 {
        let front = patterns.drop_last();
        let last = patterns.last();
        law_patterns_cover(front, path);
        let before = ignore_globs(front);
        let own = pattern_globs(last);
        let all = ignore_globs(patterns);
        lemma_own_globs(last, path);
        if any_matches(all, path) {
            let i = choose|i: int| 0 <= i < all.len() && glob_matches(#[trigger] all[i], path);
            if i < before.len() {
                assert(glob_matches(before[i], path));
                let j = choose|j: int| 0 <= j < front.len() && covers(#[trigger] front[j], path);
                assert(covers(patterns[j], path));
            } else {
                assert(glob_matches(own[i - before.len()], path));
                assert(covers(patterns[patterns.len() - 1], path));
            }
        }
        if exists|i: int| 0 <= i < patterns.len() && covers(#[trigger] patterns[i], path) {
            let i = choose|i: int| 0 <= i < patterns.len() && covers(#[trigger] patterns[i], path);
            if i < front.len() {
                assert(covers(front[i], path));
                let j = choose|j: int|
                    0 <= j < before.len() && glob_matches(#[trigger] before[j], path);
                assert(glob_matches(all[j], path));
            } else {
                let j = choose|j: int| 0 <= j < own.len() && glob_matches(#[trigger] own[j], path);
                assert(glob_matches(all[before.len() + j], path));
            }
        }
    }
}

/// The globs of one pattern match what the pattern covers.
proof fn lemma_own_globs(pattern: Seq<char>, path: Seq<char>)
    ensures
        any_matches(pattern_globs(pattern), path) <==> covers(pattern, path),
{
    let own = pattern_globs(pattern);
    assert(own[0] == pattern);
    assert(own[1] == nested(pattern));
    if is_glob(contents(pattern)) {
        assert(own[2] == contents(pattern));
        if is_glob(contents(nested(pattern))) {
            assert(own[3] == contents(nested(pattern)));
        }
    } else if is_glob(contents(nested(pattern))) {
        assert(own[2] == contents(nested(pattern)));
    }
    if covers(pattern, path) {
        if glob_matches(pattern, path) {
            assert(glob_matches(own[0], path));
        } else if glob_matches(nested(pattern), path) {
            assert(glob_matches(own[1], path));
        }
    }
}

/// A path that is ignored stays ignored when patterns are added.
pub proof fn law_more_patterns_ignore_more(
    path: Seq<u8>,
    watch_dir: Seq<u8>,
    data_dir: Seq<u8>,
    patterns: Seq<Seq<char>>,
    more: Seq<Seq<char>>,
)
    requires
        is_ignored(path, watch_dir, data_dir, ignore_globs(patterns)),
    ensures
        is_ignored(path, watch_dir, data_dir, ignore_globs(patterns + more)),
{
    let text = relative_text(path, watch_dir);
    if any_matches(ignore_globs(patterns), text) {
        law_patterns_cover(patterns, text);
        law_patterns_cover(patterns + more, text);
        let i = choose|i: int| 0 <= i < patterns.len() && covers(#[trigger] patterns[i], text);
        assert(covers((patterns + more)[i], text));
    }
}

/// What the daemon keeps in its data directory does not feed back into the log: an
/// event about such paths alone records nothing.
pub proof fn law_no_feedback(
    kind: EventKind,
    paths: Seq<Seq<u8>>,
    watch_dir: Seq<u8>,
    data_dir: Seq<u8>,
    globs: Seq<Seq<char>>,
)
    requires
        forall|i: int| 0 <= i < paths.len() ==> is_inside(#[trigger] paths[i], data_dir),
    ensures
        changes_of(kind, paths, watch_dir, data_dir, globs) == Seq::<ChangeView>::empty(),
{
    let sightings = sightings_of(paths, watch_dir, data_dir, globs);
    assert forall|i: int| 0 <= i < sightings.len() implies (#[trigger] sightings[i]).ignored by {
        assert(is_inside(paths[i], data_dir));
    }
    if let Some(op) = operation_of(kind) {
        lemma_all_ignored(op, sightings);
    }
}

/// Paths that are all ignored record nothing.
proof fn lemma_all_ignored(op: Operation, sightings: Seq<SightingView>)
    requires
        forall|i: int| 0 <= i < sightings.len() ==> (#[trigger] sightings[i]).ignored,
    ensures
        single_changes(op, sightings) == Seq::<ChangeView>::empty(),
    decreases sightings.len(),
{
    if sightings.len() > 0 {
        let front = sightings.drop_last();
        assert forall|i: int| 0 <= i < front.len() implies (#[trigger] front[i]).ignored by {
            assert(front[i] == sightings[i]);
        }
        lemma_all_ignored(op, front);
        assert(sightings[sightings.len() - 1].ignored);
    }
}

/// Every file that is made in the data directory is ignored.
pub proof fn law_own_files_are_ignored(
    path: Seq<u8>,
    watch_dir: Seq<u8>,
    data_dir: Seq<u8>,
    globs: Seq<Seq<char>>,
    rest: Seq<Seq<u8>>,
)
    requires
        components(path) == components(data_dir) + rest,
    ensures
        is_ignored(path, watch_dir, data_dir, globs),
{
}

/// Recording never makes an installation, and makes a rename with a destination
/// only of an event about two paths.
pub proof fn law_recorded_operations(
    kind: EventKind,
    paths: Seq<Seq<u8>>,
    watch_dir: Seq<u8>,
    data_dir: Seq<u8>,
    globs: Seq<Seq<char>>,
    i: int,
)
    requires
        0 <= i < changes_of(kind, paths, watch_dir, data_dir, globs).len(),
    ensures
        Some(changes_of(kind, paths, watch_dir, data_dir, globs)[i].op) == operation_of(kind),
        changes_of(kind, paths, watch_dir, data_dir, globs)[i].op != Operation::Install,
        changes_of(kind, paths, watch_dir, data_dir, globs)[i].dest_path is Some ==> paths.len()
            == 2 && operation_of(kind) == Some(Operation::Rename),
{
    if let Some(op) = operation_of(kind) {
        if !(op == Operation::Rename && paths.len() == 2) {
            lemma_single_change(op, sightings_of(paths, watch_dir, data_dir, globs), i);
        }
    }
}

/// A change of a single path is one of a path that counts.
proof fn lemma_single_change(op: Operation, sightings: Seq<SightingView>, i: int)
    requires
        0 <= i < single_changes(op, sightings).len(),
    ensures
        ({
            let change = single_changes(op, sightings)[i];
            &&& change.source < sightings.len()
            &&& !sightings[change.source as int].ignored
            &&& sightings[change.source as int].rel matches Some(path)
            &&& change == ChangeView { op, path, dest_path: None, source: change.source }
        }),
    decreases sightings.len(),
{
    if sightings.len() > 0 {
        let before = single_changes(op, sightings.drop_last());
        if i < before.len() {
            lemma_single_change(op, sightings.drop_last(), i);
        }
    }
}

/// An event that is not a rename between two paths records exactly the paths that
/// are not ignored.
pub proof fn law_unignored_paths_are_recorded(
    kind: EventKind,
    paths: Seq<Seq<u8>>,
    watch_dir: Seq<u8>,
    data_dir: Seq<u8>,
    globs: Seq<Seq<char>>,
    at: int,
)
    requires
        operation_of(kind) is Some,
        !(operation_of(kind) == Some(Operation::Rename) && paths.len() == 2),
        0 <= at < paths.len(),
    ensures
        !is_ignored(paths[at], watch_dir, data_dir, globs) <==> changes_of(
            kind,
            paths,
            watch_dir,
            data_dir,
            globs,
        ).contains(
            ChangeView {
                op: operation_of(kind)->0,
                path: relative_text(paths[at], watch_dir),
                dest_path: None,
                source: at as nat,
            },
        ),
{
    let op = operation_of(kind)->0;
    let sightings = sightings_of(paths, watch_dir, data_dir, globs);
    let all = single_changes(op, sightings);
    let change = ChangeView {
        op,
        path: relative_text(paths[at], watch_dir),
        dest_path: None,
        source: at as nat,
    };
    if all.contains(change) {
        let i = choose|i: int| 0 <= i < all.len() && all[i] == change;
        lemma_single_change(op, sightings, i);
    }
    if !is_ignored(paths[at], watch_dir, data_dir, globs) {
        assert(sightings[at].rel == Some(relative_text(paths[at], watch_dir)));
        lemma_recorded(op, sightings, at);
    }
}

/// A path that counts is recorded.
proof fn lemma_recorded(op: Operation, sightings: Seq<SightingView>, at: int)
    requires
        0 <= at < sightings.len(),
        !sightings[at].ignored,
        sightings[at].rel is Some,
    ensures
        single_changes(op, sightings).contains(
            ChangeView {
                op,
                path: sightings[at].rel->0,
                dest_path: None,
                source: at as nat,
            },
        ),
    decreases sightings.len(),
{
    let all = single_changes(op, sightings);
    let before = single_changes(op, sightings.drop_last());
    let change = ChangeView {
        op,
        path: sightings[at].rel->0,
        dest_path: None,
        source: at as nat,
    };
    if at == sightings.len() - 1 {
        assert(all[all.len() - 1] == change);
    } else {
        lemma_recorded(op, sightings.drop_last(), at);
        let i = choose|i: int| 0 <= i < before.len() && before[i] == change;
        assert(all[i] == change);
    }
}

/// A rename between two paths in the watched directory is recorded as one change, from
/// the first to the second, unless both are ignored.
pub proof fn law_renames_are_recorded(
    kind: EventKind,
    from: Seq<u8>,
    to: Seq<u8>,
    watch_dir: Seq<u8>,
    data_dir: Seq<u8>,
    globs: Seq<Seq<char>>,
)
    requires
        kind matches EventKind::Modify(ModifyKind::Name(RenameMode::Both)),
        is_inside(from, watch_dir),
        is_inside(to, watch_dir),
    ensures
        ({
            let changes = changes_of(kind, seq![from, to], watch_dir, data_dir, globs);
            if is_ignored(from, watch_dir, data_dir, globs) && is_ignored(
                to,
                watch_dir,
                data_dir,
                globs,
            ) {
                changes.len() == 0
            } else {
                &&& changes.len() == 1
                &&& changes[0].op == Operation::Rename
                &&& changes[0].path == lossy(stripped(from, watch_dir))
                &&& changes[0].dest_path == Some(lossy(stripped(to, watch_dir)))
                &&& changes[0].source == 0
            }
        }),
{
    let sightings = sightings_of(seq![from, to], watch_dir, data_dir, globs);
    assert(sightings.len() == 2);
    assert(sightings[0] == sighting_of(from, watch_dir, data_dir, globs));
    assert(sightings[1] == sighting_of(to, watch_dir, data_dir, globs));
}

/// A rename to or from outside the watched directory is not recorded.
pub proof fn law_renames_stay_inside(
    kind: EventKind,
    from: Seq<u8>,
    to: Seq<u8>,
    watch_dir: Seq<u8>,
    data_dir: Seq<u8>,
    globs: Seq<Seq<char>>,
)
    requires
        kind matches EventKind::Modify(ModifyKind::Name(RenameMode::Both)),
        !is_inside(from, watch_dir) || !is_inside(to, watch_dir),
    ensures
        changes_of(kind, seq![from, to], watch_dir, data_dir, globs).len() == 0,
{
    let sightings = sightings_of(seq![from, to], watch_dir, data_dir, globs);
    assert(sightings.len() == 2);
    assert(sightings[0] == sighting_of(from, watch_dir, data_dir, globs));
    assert(sightings[1] == sighting_of(to, watch_dir, data_dir, globs));
}

/// Creates, changes of content, removals and renames with both ends known are recorded,
/// each as what it is, and nothing else is.
pub proof fn law_kinds_of_events(
    kind: EventKind,
    paths: Seq<Seq<u8>>,
    watch_dir: Seq<u8>,
    data_dir: Seq<u8>,
    globs: Seq<Seq<char>>,
)
    ensures
        operation_of(kind) == Some(Operation::Create) <==> kind is Create,
        operation_of(kind) == Some(Operation::Delete) <==> kind is Remove,
        operation_of(kind) == Some(Operation::Modify) <==> (kind matches EventKind::Modify(change)
            && change is Data),
        operation_of(kind) == Some(Operation::Rename) <==> (kind matches EventKind::Modify(
            ModifyKind::Name(mode),
        ) && mode is Both),
        operation_of(kind) is None ==> changes_of(kind, paths, watch_dir, data_dir, globs).len()
            == 0,
{
}

/// The changes of an event come in the order of its paths, each path at most once, and
/// each is of the operation, the path and the place that it is recorded under.
pub proof fn law_changes_in_the_order_of_paths(
    kind: EventKind,
    paths: Seq<Seq<u8>>,
    watch_dir: Seq<u8>,
    data_dir: Seq<u8>,
    globs: Seq<Seq<char>>,
    i: int,
    j: int,
)
    requires
        0 <= i < j < changes_of(kind, paths, watch_dir, data_dir, globs).len(),
    ensures
        changes_of(kind, paths, watch_dir, data_dir, globs)[i].source < changes_of(
            kind,
            paths,
            watch_dir,
            data_dir,
            globs,
        )[j].source < paths.len(),
{
    if let Some(op) = operation_of(kind) {
        lemma_sources_grow(op, sightings_of(paths, watch_dir, data_dir, globs), i, j);
    }
}

/// Changes of single paths are in the order of these.
proof fn lemma_sources_grow(op: Operation, sightings: Seq<SightingView>, i: int, j: int)
    requires
        0 <= i < j < single_changes(op, sightings).len(),
    ensures
        single_changes(op, sightings)[i].source < single_changes(op, sightings)[j].source
            < sightings.len(),
    decreases sightings.len(),
{
    let before = single_changes(op, sightings.drop_last());
    if j < before.len() {
        lemma_sources_grow(op, sightings.drop_last(), i, j);
    } else {
        lemma_single_change(op, sightings.drop_last(), i);
    }
}

/// Nothing is recorded of a path in the data directory, or outside the watched
/// directory; of any other path it is the globs that decide, by its text relative to the
/// watched directory.
pub proof fn law_what_is_ignored(
    path: Seq<u8>,
    watch_dir: Seq<u8>,
    data_dir: Seq<u8>,
    globs: Seq<Seq<char>>,
)
    ensures
        components(data_dir).is_prefix_of(components(path)) ==> is_ignored(
            path,
            watch_dir,
            data_dir,
            globs,
        ),
        !components(watch_dir).is_prefix_of(components(path)) ==> is_ignored(
            path,
            watch_dir,
            data_dir,
            globs,
        ),
        !components(data_dir).is_prefix_of(components(path)) && components(watch_dir).is_prefix_of(
            components(path),
        ) ==> (is_ignored(path, watch_dir, data_dir, globs) <==> exists|i: int|
            0 <= i < globs.len() && glob_matches(
                #[trigger] globs[i],
                lossy(stripped(path, watch_dir)),
            )),
{
}

/// An ignore pattern matches what it matches as a glob, at any depth, and, as far as
/// these are globs, what lies in that; a list of patterns what one of them does.
pub proof fn law_patterns_match_at_any_depth(patterns: Seq<Seq<char>>, path: Seq<char>)
    ensures
        any_matches(ignore_globs(patterns), path) <==> exists|i: int|
            0 <= i < patterns.len() && {
                ||| glob_matches(#[trigger] patterns[i], path)
                ||| glob_matches("**/"@ + patterns[i], path)
                ||| is_glob(patterns[i] + "/**"@) && glob_matches(patterns[i] + "/**"@, path)
                ||| is_glob("**/"@ + patterns[i] + "/**"@) && glob_matches(
                    "**/"@ + patterns[i] + "/**"@,
                    path,
                )
            },
        forall|i: int|
            0 <= i < patterns.len() ==> (is_ignore_pattern(#[trigger] patterns[i]) <==> is_glob(
                patterns[i],
            ) && is_glob("**/"@ + patterns[i])),
{
    law_patterns_cover(patterns, path);
    if any_matches(ignore_globs(patterns), path) {
        let i = choose|i: int| 0 <= i < patterns.len() && covers(#[trigger] patterns[i], path);
        assert(covers(patterns[i], path));
    }
    if exists|i: int|
        0 <= i < patterns.len() && {
            ||| glob_matches(#[trigger] patterns[i], path)
            ||| glob_matches("**/"@ + patterns[i], path)
            ||| is_glob(patterns[i] + "/**"@) && glob_matches(patterns[i] + "/**"@, path)
            ||| is_glob("**/"@ + patterns[i] + "/**"@) && glob_matches(
                "**/"@ + patterns[i] + "/**"@,
                path,
            )
        } {
        let i = choose|i: int|
            0 <= i < patterns.len() && {
                ||| glob_matches(#[trigger] patterns[i], path)
                ||| glob_matches("**/"@ + patterns[i], path)
                ||| is_glob(patterns[i] + "/**"@) && glob_matches(patterns[i] + "/**"@, path)
                ||| is_glob("**/"@ + patterns[i] + "/**"@) && glob_matches(
                    "**/"@ + patterns[i] + "/**"@,
                    path,
                )
            };
        assert(covers(patterns[i], path));
    }
}

/// The contents that are snapshotted are those of paths that came to be or changed.
pub proof fn law_contents_are_snapshotted(change: Change)
    ensures
        change.snapshots() <==> !(change.op == Operation::Delete || change.op == Operation::Rename
            || change.op == Operation::Install),
{
}

/// What the watch loop does next.
pub open spec fn next_step(shutdown: bool, received: Received) -> RunStep {
    if shutdown {
        RunStep::Leave
    } else {
        match received {
            Received::Event => RunStep::Handle,
            Received::WatcherError => RunStep::Report,
            Received::Timeout => RunStep::Wait,
            Received::Disconnected => RunStep::Leave,
        }
    }
}

/// The watch loop ends exactly where a shutdown was asked for or the watcher is gone;
/// until then every event is handled and every error reported.
pub proof fn law_watching_goes_on(shutdown: bool, received: Received)
    ensures
        next_step(shutdown, received) is Leave <==> shutdown || received is Disconnected,
        next_step(shutdown, received) is Handle <==> !shutdown && received is Event,
        next_step(shutdown, received) is Report <==> !shutdown && received is WatcherError,
        next_step(shutdown, received) is Wait <==> !shutdown && received is Timeout,
{
}

/// A recorded path is the text of what comes behind the watched directory.
pub proof fn law_recorded_paths_are_relative(path: Seq<u8>, watch_dir: Seq<u8>)
    ensures
        relative_text(path, watch_dir) == lossy(stripped(path, watch_dir)),
        valid_utf8(stripped(path, watch_dir)) && lossy(stripped(path, watch_dir)) == decode_utf8(
            stripped(path, watch_dir),
        ) ==> bytes_of(relative_text(path, watch_dir)) == stripped(path, watch_dir),
{
    if valid_utf8(stripped(path, watch_dir)) {
        vstd::utf8::decode_utf8_encode_utf8(stripped(path, watch_dir));
    }
}

/// The log row of a change, after the entry with the number `last_seq`.
pub open spec fn recorded(
    last_seq: u64,
    change: ChangeView,
    elapsed_ms: u64,
    snapshot: Option<(Seq<char>, u64)>,
) -> RowView {
    let taken = if change.op == Operation::Create || change.op == Operation::Modify {
        snapshot
    } else {
        None
    };
    appended(
        last_seq,
        elapsed_ms,
        change.op,
        change.path,
        change.dest_path,
        match taken {
            Some((hash, _)) => Some(hash),
            None => None,
        },
        match taken {
            Some((_, size)) => Some(size),
            None => None,
        },
    )
}

/// A change is recorded under the next number, with its operation and its paths; a
/// create and a modify with the name and the size of the content, where a snapshot was
/// taken, and nothing else with either.
pub proof fn law_changes_are_recorded(
    last_seq: u64,
    change: ChangeView,
    elapsed_ms: u64,
    snapshot: Option<(Seq<char>, u64)>,
)
    requires
        last_seq < u64::MAX,
    ensures
        recorded(last_seq, change, elapsed_ms, snapshot) matches RowView::Event(entry) && {
            &&& entry.seq == last_seq + 1
            &&& entry.elapsed_ms == elapsed_ms
            &&& entry.op == change.op
            &&& entry.path == change.path
            &&& entry.dest_path == change.dest_path
            &&& entry.content_hash is Some <==> entry.size is Some
            &&& entry.content_hash is Some <==> snapshot is Some && (entry.op == Operation::Create
                || entry.op == Operation::Modify)
            &&& entry.content_hash is Some ==> snapshot == Some(
                (entry.content_hash->0, entry.size->0),
            )
        },
{
}

/// A pattern is taken exactly where it is a glob pattern, as it is and at any depth; that
/// something can lie in it is not asked for.
pub proof fn law_patterns_that_are_taken(pattern: Seq<char>)
    ensures
        is_ignore_pattern(pattern) <==> is_glob(pattern) && is_glob("**/"@ + pattern),
{
}

} // verus!
