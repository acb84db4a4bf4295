//! The staging engine: an edit never goes straight to a real file. It is
//! saved as a draft in the application's own data directory, compared with
//! the real file, and then applied (after a backup of the real file) or
//! discarded; an applied change can be reverted from its backup.
//!
//! The engine decides; whoever holds the disk carries out its plans. Each
//! operation takes what was read from disk and returns the plan of writes,
//! and [`World`] says what carrying out a plan does to the files, the drafts
//! and the history.

use vstd::prelude::*;

use crate::json::{
    get_spec, has_key, keys_ascending, law_merge_keeps_unmentioned_keys, lemma_ascending_distinct, lemma_merge_well_formed,
    lookup, merge,
    merge_view, normalize, parse_json, to_string_pretty, JsonValue, JsonView,
};
use crate::order::{law_sort_by_key, lex_lt, sort_by_key, sort_by_key_spec, sorted_by_key, Keyed};
use crate::outside::{
    char_alphanumeric, is_alphanumeric, json_parse, json_pretty, now_rfc3339, now_stamp, rfc3339_utc_shape, stamp_shape,
    unified_diff, unified_line_diff,
};
use crate::path::{file_name_spec, join_spec, parent_spec, resolve_tail, resolve_tail_spec, starts_with_spec, FsPath, PartView};
use crate::scan::has_extension;
use crate::text::{from_chars, lines, lines_vec, push_char, to_chars, trim, trim_vec, views};

verus! {

/// A pending edit of `target_path`.
#[derive(Debug, Clone, PartialEq, Eq)]
pub struct StagedChange {
    pub id: String,
    pub target_path: FsPath,
    pub draft_content: String,
    pub created_at: String,
}

pub struct StagedView {
    pub id: Seq<char>,
    pub target_path: Seq<PartView>,
    pub draft_content: Seq<char>,
    pub created_at: Seq<char>,
}

impl View for StagedChange {
    type V = StagedView;

    open spec fn view(&self) -> StagedView {
        StagedView {
            id: self.id@,
            target_path: self.target_path@,
            draft_content: self.draft_content@,
            created_at: self.created_at@,
        }
    }
}

/// An entry of the history: a change written to `target_path`, whose
/// previous content is kept at `backup_path`.
#[derive(Debug, Clone, PartialEq, Eq)]
pub struct AppliedChange {
    pub id: String,
    pub target_path: FsPath,
    pub backup_path: FsPath,
    pub applied_at: String,
}

pub struct AppliedView {
    pub id: Seq<char>,
    pub target_path: Seq<PartView>,
    pub backup_path: Seq<PartView>,
    pub applied_at: Seq<char>,
}

impl View for AppliedChange {
    type V = AppliedView;

    open spec fn view(&self) -> AppliedView {
        AppliedView {
            id: self.id@,
            target_path: self.target_path@,
            backup_path: self.backup_path@,
            applied_at: self.applied_at@,
        }
    }
}

/// Drafts are listed by creation time.
impl Keyed for StagedChange {
    open spec fn key_view(&self) -> Seq<char> {
        self.created_at@
    }

    fn key_chars(&self) -> (r: Vec<char>) {
        to_chars(self.created_at.as_str())
    }
}

/// Errors of the staging engine.
#[derive(Debug)]
pub enum StagingError {
    /// A file or directory could not be read or written.
    Io { path: FsPath, message: String },
    /// A draft, a history line or a JSON document could not be
    /// (de)serialized.
    Serde(String),
    /// No draft or applied change has this id.
    NotFound(String),
    /// A write would land outside the boundary the store was given.
    OutsideBoundary { target: FsPath, boundary: FsPath },
}

/// Where the engine keeps drafts, backups and the history, and the boundary
/// every write is checked against.
#[derive(Debug)]
pub struct StagingStore {
    pub staging_dir: FsPath,
    pub backups_dir: FsPath,
    pub history_path: FsPath,
    pub boundary: Option<FsPath>,
}

/// What was read of a target before an operation on it.
pub struct TargetProbe {
    /// The target's deepest existing ancestor, resolved (`canonicalize`).
    pub resolved: FsPath,
    /// The components of the target after that ancestor, which do not exist
    /// yet, as written.
    pub unresolved: FsPath,
    /// The boundary root resolved the same way, when the store has one.
    pub resolved_root: Option<FsPath>,
    /// Whether the target is a regular file.
    pub is_file: bool,
    /// The target's text, when it could be read.
    pub current: Option<String>,
}

/// The writes of `stage`: the draft file holding `change`.
pub struct StagePlan {
    pub change: StagedChange,
    pub draft_file: FsPath,
}

/// The writes of `apply`, in order: the backup (a copy of the target, or an
/// empty file when there was none), the target's parent directory, the
/// target, the history line of `applied`, and the removal of the draft file.
pub struct ApplyPlan {
    pub backup_path: FsPath,
    pub backup_copies_target: bool,
    pub parent_dir: Option<FsPath>,
    pub content: String,
    pub applied: AppliedChange,
    pub draft_file: FsPath,
}

/// The writes of `revert`, in order: a backup of the target as it is now,
/// the restored content, and the history line of `applied`.
pub struct RevertPlan {
    pub backup_path: FsPath,
    pub backup_copies_target: bool,
    pub content: String,
    pub applied: AppliedChange,
}

// ---------------------------------------------------------------------------
// Names of files.

pub open spec fn json_ext() -> Seq<char> {
    seq!['.', 'j', 's', 'o', 'n']
}

pub open spec fn change_path_spec(staging_dir: Seq<PartView>, id: Seq<char>) -> Seq<PartView> {
    join_spec(staging_dir, id + json_ext())
}

pub open spec fn file_name_or(p: Seq<PartView>, d: Seq<char>) -> Seq<char> {
    match file_name_spec(p) {
        Some(n) => n,
        None => d,
    }
}

/// A character kept in an id: alphanumeric, `.` or `-`; others become `_`.
pub open spec fn safe_char(c: char) -> char {
    if char_alphanumeric(c) || c == '.' || c == '-' {
        c
    } else {
        '_'
    }
}

pub open spec fn safe_name(s: Seq<char>) -> Seq<char> {
    s.map_values(|c: char| safe_char(c))
}

/// The id of a change of `target` made at `stamp`.
pub open spec fn id_spec(stamp: Seq<char>, target: Seq<PartView>) -> Seq<char> {
    stamp + seq!['-'] + safe_name(file_name_or(target, "archivo"@))
}

/// The backup of `target` made at `stamp`.
pub open spec fn backup_path_spec(backups_dir: Seq<PartView>, stamp: Seq<char>, target: Seq<PartView>) -> Seq<PartView> {
    join_spec(backups_dir, stamp + seq!['-'] + file_name_or(target, "archivo"@))
}

fn file_name_or_exec(p: &FsPath, d: &str) -> (r: String)
    ensures
        r@ == file_name_or(p@, d@),
{
    match p.file_name() {
        Some(n) => n,
        None => d.to_owned(),
    }
}

/// `<stamp>-<file name of target>`, with every character but alphanumerics,
/// `.` and `-` of the file name replaced by `_` (`archivo` when the target has
/// no file name).
pub fn make_id(stamp: &str, target: &FsPath) -> (r: String)
    ensures
        r@ == id_spec(stamp@, target@),
{
    let name = to_chars(file_name_or_exec(target, "archivo").as_str());
    let mut r = stamp.to_owned();
    push_char(&mut r, '-');
    let ghost prefix = r@;
    let mut i: usize = 0;
    while i < name.len()
        invariant
            i <= name@.len(),
            r@ == prefix + safe_name(name@.take(i as int)),
        decreases name@.len() - i,
    {
        let c = name[i];
        let keep = is_alphanumeric(c) || c == '.' || c == '-';
        push_char(&mut r, if keep { c } else { '_' });
        i = i + 1;
        assert(r@ =~= prefix + safe_name(name@.take(i as int)));
    }
    assert(name@.take(name@.len() as int) =~= name@);
    assert(r@ =~= id_spec(stamp@, target@));
    r
}

// ---------------------------------------------------------------------------
// Resolution of the content a draft writes.

pub open spec fn is_json_target(p: Seq<PartView>) -> bool {
    has_extension(p, "json"@)
}

/// The base a JSON draft merges into: nothing (`null`) when the target has no
/// text or only whitespace, else the parsed target.
pub open spec fn json_base(current: Option<Seq<char>>) -> Result<JsonView, Seq<char>> {
    match current {
        None => Ok(JsonView::Null),
        Some(c) => if trim(c).len() == 0 {
            Ok(JsonView::Null)
        } else {
            json_parse(c)
        },
    }
}

/// What a draft writes to its target. A JSON target is patched key by key:
/// the parsed draft is merged into the target's current content and the
/// result written by `serde_json::to_string_pretty`; a draft or a target
/// that is not valid JSON fails with the parser's message. Any other target
/// gets the draft as it is.
pub open spec fn resolve_spec(target: Seq<PartView>, draft: Seq<char>, current: Option<Seq<char>>) -> Result<
    Seq<char>,
    Seq<char>,
> {
    if !is_json_target(target) {
        Ok(draft)
    } else {
        match json_parse(draft) {
            Err(m) => Err(m),
            Ok(p) => match json_base(current) {
                Err(m) => Err(m),
                Ok(b) => json_pretty(normalize(merge_view(b, p))),
            },
        }
    }
}

pub open spec fn opt_text(o: Option<String>) -> Option<Seq<char>> {
    match o {
        Some(s) => Some(s@),
        None => None,
    }
}

fn is_json_path(p: &FsPath) -> (r: bool)
    ensures
        r == is_json_target(p@),
{
    match p.extension() {
        Some(e) => crate::text::chars_eq(&to_chars(e.as_str()), &to_chars("json")),
        None => false,
    }
}

fn resolve(target: &FsPath, draft: &String, current: &Option<String>) -> (r: Result<String, String>)
    ensures
        match r {
            Ok(s) => resolve_spec(target@, draft@, opt_text(*current)) == Ok::<Seq<char>, Seq<char>>(s@),
            Err(m) => resolve_spec(target@, draft@, opt_text(*current)) == Err::<Seq<char>, Seq<char>>(m@),
        },
{
    if !is_json_path(target) {
        return Ok(draft.clone());
    }
    let patch = match parse_json(draft.as_str()) {
        Ok(p) => p,
        Err(m) => {
            return Err(m);
        },
    };
    let base: JsonValue = match current {
        None => JsonValue::Null,
        Some(c) => {
            let t = trim_vec(&to_chars(c.as_str()));
            if t.len() == 0 {
                JsonValue::Null
            } else {
                match parse_json(c.as_str()) {
                    Ok(b) => b,
                    Err(m) => {
                        return Err(m);
                    },
                }
            }
        },
    };
    assert(json_base(opt_text(*current)) == Ok::<JsonView, Seq<char>>(base@));
    proof {
        lemma_merge_well_formed(base@, patch@);
    }
    to_string_pretty(merge(base, patch))
}

// ---------------------------------------------------------------------------
// The effect of plans.

/// The files, drafts and history of a store, as the plans change them.
pub struct World {
    /// The text of every real file and backup, by path.
    pub files: Map<Seq<PartView>, Seq<char>>,
    /// The pending drafts, by id.
    pub drafts: Map<Seq<char>, StagedView>,
    /// The history, oldest first (the order of the history file).
    pub history: Seq<AppliedView>,
}

/// What a backup of `target` holds: a copy of it, or nothing.
pub open spec fn backup_text(w: World, target: Seq<PartView>, copies: bool) -> Seq<char> {
    if copies && w.files.contains_key(target) {
        w.files[target]
    } else {
        seq![]
    }
}

pub open spec fn after_stage(w: World, p: StagePlan) -> World {
    World { files: w.files, drafts: w.drafts.insert(p.change.id@, p.change@), history: w.history }
}

pub open spec fn after_discard(w: World, id: Seq<char>) -> World {
    World { files: w.files, drafts: w.drafts.remove(id), history: w.history }
}

pub open spec fn after_apply(w: World, p: ApplyPlan) -> World {
    let t = p.applied.target_path@;
    let backed = w.files.insert(p.backup_path@, backup_text(w, t, p.backup_copies_target));
    World {
        files: backed.insert(t, p.content@),
        drafts: w.drafts.remove(p.applied.id@),
        history: w.history.push(p.applied@),
    }
}

pub open spec fn after_revert(w: World, p: RevertPlan) -> World {
    let t = p.applied.target_path@;
    let backed = w.files.insert(p.backup_path@, backup_text(w, t, p.backup_copies_target));
    World { files: backed.insert(t, p.content@), drafts: w.drafts, history: w.history.push(p.applied@) }
}

/// A probe that reports the target as the world holds it.
pub open spec fn probe_matches(w: World, target: Seq<PartView>, probe: TargetProbe) -> bool {
    &&& probe.is_file == w.files.contains_key(target)
    &&& probe.is_file ==> opt_text(probe.current) == Some(w.files[target])
}

// ---------------------------------------------------------------------------
// Contracts of the operations.

/// The target, resolved (its unresolved components read by
/// `resolve_tail_spec`), is inside the boundary, or the store has none.
pub open spec fn within_boundary(store: StagingStore, probe: TargetProbe) -> bool {
    match store.boundary {
        None => true,
        Some(_) => match probe.resolved_root {
            Some(root) => starts_with_spec(resolve_tail_spec(probe.resolved@, probe.unresolved@), root@),
            None => false,
        },
    }
}

pub open spec fn apply_ensures(
    store: StagingStore,
    change: StagedChange,
    probe: TargetProbe,
    r: Result<ApplyPlan, StagingError>,
) -> bool {
    let res = resolve_spec(change.target_path@, change.draft_content@, opt_text(probe.current));
    &&& !within_boundary(store, probe) ==> (r matches Err(StagingError::OutsideBoundary { target, boundary }) && target@ == change.target_path@ && boundary@ == store.boundary->0@)
    &&& within_boundary(store, probe) ==> match res {
        Err(m) => r matches Err(StagingError::Serde(e)) && e@ == m,
        Ok(text) => match r {
            Ok(p) => {
                &&& p.content@ == text
                &&& p.backup_copies_target == probe.is_file
                &&& exists|stamp: Seq<char>| stamp_shape(stamp) && p.backup_path@ == backup_path_spec(store.backups_dir@, stamp, change.target_path@)
                &&& rfc3339_utc_shape(p.applied.applied_at@)
                &&& match parent_spec(change.target_path@) {
                    Some(q) => p.parent_dir matches Some(d) && d@ == q,
                    None => p.parent_dir is None,
                }
                &&& p.applied.id@ == change.id@
                &&& p.applied.target_path@ == change.target_path@
                &&& p.applied.backup_path@ == p.backup_path@
                &&& p.draft_file@ == change_path_spec(store.staging_dir@, change.id@)
            },
            Err(_) => false,
        },
    }
}

pub open spec fn diff_ensures(
    change: StagedChange,
    current: Option<String>,
    r: Result<String, StagingError>,
) -> bool {
    let before = match current {
        Some(c) => c@,
        None => seq![],
    };
    match resolve_spec(change.target_path@, change.draft_content@, opt_text(current)) {
        Err(m) => r matches Err(StagingError::Serde(e)) && e@ == m,
        Ok(text) => r matches Ok(d) && d@ == unified_line_diff(before, text),
    }
}

pub open spec fn revert_ensures(
    store: StagingStore,
    entry: AppliedChange,
    probe: TargetProbe,
    restored: String,
    r: Result<RevertPlan, StagingError>,
) -> bool {
    &&& !within_boundary(store, probe) ==> (r matches Err(StagingError::OutsideBoundary { target, boundary }) && target@ == entry.target_path@ && boundary@ == store.boundary->0@)
    &&& within_boundary(store, probe) ==> match r {
        Ok(p) => {
            &&& p.content@ == restored@
            &&& p.backup_copies_target == probe.is_file
            &&& exists|stamp: Seq<char>| stamp_shape(stamp) && p.backup_path@ == backup_path_spec(store.backups_dir@, stamp, entry.target_path@)
            &&& exists|stamp: Seq<char>| stamp_shape(stamp) && p.applied.id@ == id_spec(stamp, entry.target_path@)
            &&& rfc3339_utc_shape(p.applied.applied_at@)
            &&& p.applied.target_path@ == entry.target_path@
            &&& p.applied.backup_path@ == p.backup_path@
        },
        Err(_) => false,
    }
}

/// The entries of a history whose id is `id`, most recent first.
pub open spec fn first_with_id(h: Seq<AppliedView>, id: Seq<char>, i: int) -> Option<int>
    decreases h.len() - i,
{
    if i < 0 || i >= h.len() {
        None
    } else if h[i].id == id {
        Some(i)
    } else {
        first_with_id(h, id, i + 1)
    }
}

pub open spec fn applied_views(h: Seq<AppliedChange>) -> Seq<AppliedView> {
    h.map_values(|a: AppliedChange| a@)
}

pub open spec fn blank_line(l: Seq<char>) -> bool {
    trim(l).len() == 0
}

// ---------------------------------------------------------------------------
// Operations.

impl StagingStore {
    /// The store of the application data directory `app_data_dir` (never the
    /// configuration directory itself), with no boundary.
    pub fn new(app_data_dir: &FsPath) -> (s: StagingStore)
        ensures
            s.staging_dir@ == join_spec(app_data_dir@, "staging"@),
            s.backups_dir@ == join_spec(app_data_dir@, "backups"@),
            s.history_path@ == join_spec(app_data_dir@, "history.jsonl"@),
            s.boundary is None,
    {
        StagingStore {
            staging_dir: app_data_dir.join("staging"),
            backups_dir: app_data_dir.join("backups"),
            history_path: app_data_dir.join("history.jsonl"),
            boundary: None,
        }
    }

    /// The same store, with every apply and revert checked against `root`.
    pub fn with_boundary(self, root: &FsPath) -> (s: StagingStore)
        ensures
            s.staging_dir == self.staging_dir,
            s.backups_dir == self.backups_dir,
            s.history_path == self.history_path,
            s.boundary matches Some(b) && b@ == root@,
    {
        StagingStore { boundary: Some(root.duplicate()), ..self }
    }

    /// The file holding the draft `id`.
    pub fn change_path(&self, id: &str) -> (p: FsPath)
        ensures
            p@ == change_path_spec(self.staging_dir@, id@),
    {
        let mut name = id.to_owned();
        name.append(".json");
        proof {
            reveal_strlit(".json");
            assert(".json"@ =~= json_ext());
        }
        self.staging_dir.join(name.as_str())
    }

    /// Saves a draft for `target_path`; the target itself is not written.
    pub fn stage(&self, target_path: &FsPath, draft_content: String) -> (p: StagePlan)
        ensures
            p.change.target_path@ == target_path@,
            p.change.draft_content@ == draft_content@,
            exists|stamp: Seq<char>| stamp_shape(stamp) && p.change.id@ == id_spec(stamp, target_path@),
            rfc3339_utc_shape(p.change.created_at@),
            p.draft_file@ == change_path_spec(self.staging_dir@, p.change.id@),
    {
        let stamp = now_stamp();
        let id = make_id(stamp.as_str(), target_path);
        let change = StagedChange {
            id,
            target_path: target_path.duplicate(),
            draft_content,
            created_at: now_rfc3339(),
        };
        let draft_file = self.change_path(change.id.as_str());
        StagePlan { change, draft_file }
    }

    /// The drafts, oldest first.
    pub fn list(drafts: Vec<StagedChange>) -> (r: Vec<StagedChange>)
        ensures
            r@ == sort_by_key_spec(drafts@),
            sorted_by_key(r@),
            r@.to_multiset() == drafts@.to_multiset(),
            forall|i: int, j: int|
                0 <= i < j < r@.len() ==> !lex_lt(#[trigger] r@[j].created_at@, #[trigger] r@[i].created_at@),
    {
        proof {
            law_sort_by_key(drafts@);
            law_drafts_listed_oldest_first(sort_by_key_spec(drafts@));
        }
        sort_by_key(drafts)
    }

    /// The unified diff between the target as it is now (empty when it
    /// cannot be read) and what applying the draft would write.
    pub fn diff(
        &self,
        change: &StagedChange,
        current: Option<String>,
    ) -> (r: Result<String, StagingError>)
        ensures
            diff_ensures(*change, current, r),
    {
        match resolve(&change.target_path, &change.draft_content, &current) {
            Err(m) => Err(StagingError::Serde(m)),
            Ok(text) => {
                let before = match &current {
                    Some(c) => c.clone(),
                    None => String::new(),
                };
                Ok(unified_diff(before.as_str(), text.as_str()))
            },
        }
    }

    /// The draft file that discarding the draft `id` removes; nothing else is
    /// touched.
    pub fn discard(&self, id: &str) -> (p: FsPath)
        ensures
            p@ == change_path_spec(self.staging_dir@, id@),
    {
        self.change_path(id)
    }

    fn backup_path(&self, stamp: &str, target: &FsPath) -> (p: FsPath)
        ensures
            p@ == backup_path_spec(self.backups_dir@, stamp@, target@),
    {
        let mut name = stamp.to_owned();
        push_char(&mut name, '-');
        let file = file_name_or_exec(target, "archivo");
        name.append(file.as_str());
        assert(name@ =~= stamp@ + seq!['-'] + file_name_or(target@, "archivo"@));
        self.backups_dir.join(name.as_str())
    }

    /// Applies a draft: refuses a target outside the boundary, resolves the
    /// content (failing, before any write, on invalid JSON), then plans the
    /// backup of the target, its write, the history entry and the removal of
    /// the draft.
    pub fn apply(
        &self,
        change: &StagedChange,
        probe: TargetProbe,
        ) -> (r: Result<ApplyPlan, StagingError>)
        ensures
            apply_ensures(*self, *change, probe, r),
    {
        if !self.is_within(&probe) {
            return Err(self.outside(&change.target_path));
        }
        let ghost p0 = probe;
        let TargetProbe { resolved, unresolved, resolved_root, is_file, current } = probe;
        let content = match resolve(&change.target_path, &change.draft_content, &current) {
            Ok(c) => c,
            Err(m) => {
                return Err(StagingError::Serde(m));
            },
        };
        let stamp = now_stamp();
        let backup_path = self.backup_path(stamp.as_str(), &change.target_path);
        let applied = AppliedChange {
            id: change.id.clone(),
            target_path: change.target_path.duplicate(),
            backup_path: backup_path.duplicate(),
            applied_at: now_rfc3339(),
        };
        let plan = ApplyPlan {
            backup_path,
            backup_copies_target: is_file,
            parent_dir: change.target_path.parent(),
            content,
            applied,
            draft_file: self.change_path(change.id.as_str()),
        };
        assert(plan.backup_path@ == backup_path_spec(self.backups_dir@, stamp@, change.target_path@));
        Ok(plan)
    }

    fn is_within(&self, probe: &TargetProbe) -> (r: bool)
        ensures
            r == within_boundary(*self, *probe),
    {
        match &self.boundary {
            None => true,
            Some(_) => match &probe.resolved_root {
                Some(root) => resolve_tail(&probe.resolved, &probe.unresolved).starts_with(root),
                None => false,
            },
        }
    }

    fn outside(&self, target: &FsPath) -> (e: StagingError)
        requires
            self.boundary is Some,
        ensures
            e matches StagingError::OutsideBoundary { target: t, boundary: b } && t@ == target@
                && b@ == self.boundary->0@,
    {
        match &self.boundary {
            Some(b) => StagingError::OutsideBoundary { target: target.duplicate(), boundary: b.duplicate() },
            None => StagingError::NotFound(String::new()),
        }
    }

    /// The history, most recent first, from its entries in file order.
    pub fn history(entries: Vec<AppliedChange>) -> (r: Vec<AppliedChange>)
        ensures
            r@ == entries@.reverse(),
    {
        let mut rest = entries;
        let ghost orig = rest@;
        let mut r: Vec<AppliedChange> = Vec::new();
        while rest.len() > 0
            invariant
                orig == rest@ + r@.reverse(),
            decreases rest@.len(),
        {
            let x = rest.pop().unwrap();
            let ghost r0 = r@;
            r.push(x);
            assert(r@.reverse() =~= seq![x] + r0.reverse());
        }
        assert(orig =~= r@.reverse());
        assert(r@ =~= r@.reverse().reverse());
        r
    }

    /// The index of the most recent entry with id `applied_id` in a history
    /// listed most recent first.
    pub fn find_applied(history: &Vec<AppliedChange>, applied_id: &str) -> (r: Result<usize, StagingError>)
        ensures
            match r {
                Ok(i) => first_with_id(applied_views(history@), applied_id@, 0) == Some(i as int),
                Err(e) => first_with_id(applied_views(history@), applied_id@, 0) is None && (
                e matches StagingError::NotFound(m) && m@ == applied_id@),
            },
    {
        let ghost h = applied_views(history@);
        let key = to_chars(applied_id);
        let mut i: usize = 0;
        while i < history.len()
            invariant
                h == applied_views(history@),
                key@ == applied_id@,
                i <= history@.len(),
                first_with_id(h, applied_id@, i as int) == first_with_id(h, applied_id@, 0),
            decreases history@.len() - i,
        {
            assert(h[i as int] == history@[i as int]@);
            if crate::text::chars_eq(&to_chars(history[i].id.as_str()), &key) {
                return Ok(i);
            }
            i = i + 1;
        }
        Err(StagingError::NotFound(applied_id.to_owned()))
    }

    /// Reverts an applied change: refuses a target outside the boundary, then
    /// plans a backup of the target as it is now (so a revert can itself be
    /// undone), the write of the restored backup text, and a new history
    /// entry.
    pub fn revert(&self, entry: &AppliedChange, probe: TargetProbe, restored: String) -> (r: Result<
        RevertPlan,
        StagingError,
    >)
        ensures
            revert_ensures(*self, *entry, probe, restored, r),
    {
        if !self.is_within(&probe) {
            return Err(self.outside(&entry.target_path));
        }
        let stamp = now_stamp();
        let backup_path = self.backup_path(stamp.as_str(), &entry.target_path);
        let id_stamp = now_stamp();
        let applied = AppliedChange {
            id: make_id(id_stamp.as_str(), &entry.target_path),
            target_path: entry.target_path.duplicate(),
            backup_path: backup_path.duplicate(),
            applied_at: now_rfc3339(),
        };
        let plan = RevertPlan { backup_path, backup_copies_target: probe.is_file, content: restored, applied };
        assert(plan.backup_path@ == backup_path_spec(self.backups_dir@, stamp@, entry.target_path@));
        assert(plan.applied.id@ == id_spec(id_stamp@, entry.target_path@));
        Ok(plan)
    }
}

/// The non-blank lines of the history file, in order.
pub fn history_lines(raw: &str) -> (r: Vec<String>)
    ensures
        r@.map_values(|s: String| s@) == lines(raw@).filter(|l: Seq<char>| !blank_line(l)),
{
    let ls = lines_vec(&to_chars(raw));
    let ghost all = views(ls@);
    let mut r: Vec<String> = Vec::new();
    let mut i: usize = 0;
    assert(all.take(0) =~= Seq::<Seq<char>>::empty());
    reveal_with_fuel(Seq::<_>::filter, 1);
    while i < ls.len()
        invariant
            all == views(ls@),
            all == lines(raw@),
            i <= ls@.len(),
            r@.map_values(|s: String| s@) == all.take(i as int).filter(|l: Seq<char>| !blank_line(l)),
        decreases ls@.len() - i,
    {
        reveal_with_fuel(Seq::<_>::filter, 1);
        assert(all.take(i + 1).drop_last() =~= all.take(i as int));
        assert(all.take(i + 1).last() == ls@[i as int]@);
        let t = trim_vec(&ls[i]);
        if t.len() > 0 {
            let ghost before = r@.map_values(|s: String| s@);
            r.push(from_chars(&ls[i]));
            assert(r@.map_values(|s: String| s@) =~= before.push(ls@[i as int]@));
        }
        i = i + 1;
    }
    assert(all.take(i as int) =~= all);
    r
}

} // verus!

verus! {

// ---------------------------------------------------------------------------
// Laws.

/// Staging a draft writes no real file: only the draft is added.
pub proof fn law_stage_writes_only_the_draft(w: World, p: StagePlan)
    ensures
        after_stage(w, p).files == w.files,
        after_stage(w, p).history == w.history,
        after_stage(w, p).drafts[p.change.id@] == p.change@,
        forall|id: Seq<char>|
            id != p.change.id@ && #[trigger] w.drafts.contains_key(id) ==> after_stage(w, p).drafts[id]
                == w.drafts[id],
{
}

/// Discarding a draft removes it and touches no file nor the history.
pub proof fn law_discard_touches_nothing_else(w: World, id: Seq<char>)
    ensures
        after_discard(w, id).files == w.files,
        after_discard(w, id).history == w.history,
        !after_discard(w, id).drafts.contains_key(id),
        forall|other: Seq<char>|
            other != id && #[trigger] w.drafts.contains_key(other) ==> after_discard(w, id).drafts[other]
                == w.drafts[other],
{
}

/// Applying backs up the target before writing it: afterwards the backup
/// holds the target's previous text (empty when there was no file), the
/// target holds the resolved draft, the history gains the entry and the
/// draft is gone. No other file changes.
pub proof fn law_apply_backs_up_then_writes(
    store: StagingStore,
    w: World,
    change: StagedChange,
    probe: TargetProbe,
    plan: ApplyPlan,
)
    requires
        apply_ensures(store, change, probe, Ok(plan)),
        probe_matches(w, change.target_path@, probe),
        plan.backup_path@ != change.target_path@,
    ensures
        after_apply(w, plan).files[plan.backup_path@] == if w.files.contains_key(change.target_path@) {
            w.files[change.target_path@]
        } else {
            seq![]
        },
        Ok::<Seq<char>, Seq<char>>(after_apply(w, plan).files[change.target_path@]) == resolve_spec(change.target_path@, change.draft_content@, opt_text(probe.current)),
        after_apply(w, plan).history == w.history.push(plan.applied@),
        plan.applied.backup_path@ == plan.backup_path@,
        !after_apply(w, plan).drafts.contains_key(change.id@),
        forall|q: Seq<PartView>|
            q != plan.backup_path@ && q != change.target_path@ && #[trigger] w.files.contains_key(q)
                ==> after_apply(w, plan).files[q] == w.files[q],
{
}

/// Reverting an applied change brings its target back to the text it had
/// before the apply (empty when there was no file), whatever happened to the
/// target in between, and records the revert as the newest history entry.
pub proof fn law_revert_restores_applied(
    store: StagingStore,
    w0: World,
    change: StagedChange,
    probe_a: TargetProbe,
    pa: ApplyPlan,
    probe_r: TargetProbe,
    restored: String,
    pr: RevertPlan,
)
    requires
        apply_ensures(store, change, probe_a, Ok(pa)),
        probe_matches(w0, change.target_path@, probe_a),
        pa.backup_path@ != change.target_path@,
        revert_ensures(store, pa.applied, probe_r, restored, Ok(pr)),
        restored@ == after_apply(w0, pa).files[pa.backup_path@],
    ensures
        after_revert(after_apply(w0, pa), pr).files[change.target_path@] == if w0.files.contains_key(
            change.target_path@,
        ) {
            w0.files[change.target_path@]
        } else {
            seq![]
        },
        after_revert(after_apply(w0, pa), pr).history == w0.history.push(pa.applied@).push(
            pr.applied@,
        ),
        after_revert(after_apply(w0, pa), pr).history.reverse()[0] == pr.applied@,
{
    let h = after_revert(after_apply(w0, pa), pr).history;
    assert(h.reverse()[0] == h[h.len() - 1]);
}

/// A revert is never a dead end: the target's text just before the revert
/// (empty when there was no file) is kept in the revert's own backup, the
/// target gets the restored text, and the revert is recorded in the history.
pub proof fn law_revert_backs_up_current(
    store: StagingStore,
    w: World,
    entry: AppliedChange,
    probe: TargetProbe,
    restored: String,
    pr: RevertPlan,
)
    requires
        revert_ensures(store, entry, probe, restored, Ok(pr)),
        probe_matches(w, entry.target_path@, probe),
        pr.backup_path@ != entry.target_path@,
    ensures
        after_revert(w, pr).files[pr.backup_path@] == if w.files.contains_key(entry.target_path@) {
            w.files[entry.target_path@]
        } else {
            seq![]
        },
        after_revert(w, pr).files[entry.target_path@] == restored@,
        after_revert(w, pr).history == w.history.push(pr.applied@),
        pr.applied.backup_path@ == pr.backup_path@,
        forall|q: Seq<PartView>|
            q != pr.backup_path@ && q != entry.target_path@ && #[trigger] w.files.contains_key(q)
                ==> after_revert(w, pr).files[q] == w.files[q],
{
}

/// The diff shown for a draft compares the target's current text with
/// exactly what applying the draft writes.
pub proof fn law_diff_shows_what_apply_writes(
    store: StagingStore,
    change: StagedChange,
    probe: TargetProbe,
    d: String,
    plan: ApplyPlan,
)
    requires
        diff_ensures(change, probe.current, Ok(d)),
        apply_ensures(store, change, probe, Ok(plan)),
    ensures
        d@ == unified_line_diff(
            match probe.current {
                Some(c) => c@,
                None => seq![],
            },
            plan.content@,
        ),
{
}

/// A draft for a JSON target that is not valid JSON is refused before any
/// write, and so is any draft whose target lies outside the boundary.
pub proof fn law_apply_fails_closed(
    store: StagingStore,
    change: StagedChange,
    probe: TargetProbe,
    r: Result<ApplyPlan, StagingError>,
)
    requires
        apply_ensures(store, change, probe, r),
    ensures
        !within_boundary(store, probe) ==> r matches Err(StagingError::OutsideBoundary { .. }),
        (within_boundary(store, probe) && is_json_target(change.target_path@)
            && json_parse(change.draft_content@) is Err) ==> (r matches Err(StagingError::Serde(_))),
{
}

/// A JSON draft patches its target key by key. What applying it writes is
/// the text `serde_json` gives the draft merged into the target's current
/// value; in that value each key the draft does not name keeps the target's
/// value, and each key it names holds the target's value (`null` when
/// absent) merged with the draft's. Both objects are as read from a text:
/// their keys increase.
pub proof fn law_apply_patches_json_by_key(
    store: StagingStore,
    change: StagedChange,
    probe: TargetProbe,
    plan: ApplyPlan,
    be: Seq<(Seq<char>, JsonView)>,
    pe: Seq<(Seq<char>, JsonView)>,
    k: Seq<char>,
)
    requires
        apply_ensures(store, change, probe, Ok(plan)),
        is_json_target(change.target_path@),
        json_parse(change.draft_content@) == Ok::<JsonView, Seq<char>>(JsonView::Object(pe)),
        json_base(opt_text(probe.current)) == Ok::<JsonView, Seq<char>>(JsonView::Object(be)),
        keys_ascending(be),
        keys_ascending(pe),
    ensures
        json_pretty(normalize(merge_view(JsonView::Object(be), JsonView::Object(pe)))) == Ok::<
            Seq<char>,
            Seq<char>,
        >(plan.content@),
        !has_key(pe, k) ==> get_spec(normalize(merge_view(JsonView::Object(be), JsonView::Object(pe))), k)
            == match lookup(be, k) {
            Some(x) => Some(normalize(x)),
            None => None::<JsonView>,
        },
        has_key(pe, k) ==> get_spec(normalize(merge_view(JsonView::Object(be), JsonView::Object(pe))), k)
            == Some(
            normalize(
                merge_view(
                    match lookup(be, k) {
                        Some(x) => x,
                        None => JsonView::Null,
                    },
                    lookup(pe, k)->0,
                ),
            ),
        ),
{
    lemma_ascending_distinct(pe);
    law_merge_keeps_unmentioned_keys(be, pe, k);
}

/// The drafts in the listing order come oldest first: no draft's creation
/// time is below that of a draft listed before it, in the order of
/// `String`.
pub proof fn law_drafts_listed_oldest_first(r: Seq<StagedChange>)
    requires
        sorted_by_key(r),
    ensures
        forall|i: int, j: int| 0 <= i < j < r.len() ==> !lex_lt(#[trigger] r[j].created_at@, #[trigger] r[i].created_at@),
{
    assert forall|i: int, j: int| 0 <= i < j < r.len() implies !lex_lt(#[trigger] r[j].created_at@, #[trigger] r[i].created_at@) by {
        assert(r[j].key_view() == r[j].created_at@ && r[i].key_view() == r[i].created_at@);
    }
}

/// Only a `.json` target is read as JSON: for a target whose extension is
/// anything else (or that has none), applying a draft inside the boundary
/// plans to write the draft text exactly as staged, and its diff compares
/// the current text with that same draft text.
pub proof fn law_non_json_drafts_are_written_verbatim(
    store: StagingStore,
    change: StagedChange,
    probe: TargetProbe,
    r: Result<ApplyPlan, StagingError>,
    d: Result<String, StagingError>,
)
    requires
        crate::path::extension_spec(change.target_path@) != Some("json"@),
        apply_ensures(store, change, probe, r),
        diff_ensures(change, probe.current, d),
    ensures
        within_boundary(store, probe) ==> (r matches Ok(p) && p.content@ == change.draft_content@),
        d matches Ok(t) && t@ == unified_line_diff(
            match probe.current {
                Some(c) => c@,
                None => seq![],
            },
            change.draft_content@,
        ),
{
}

} // verus!
