//! What the scan of the configuration directory makes of the files it
//! reads: memories, skills, scheduled tasks, agents, commands, workflows and a
//! summary of `settings.json`. Listings are sorted by name.

use vstd::prelude::*;

use crate::frontmatter::{field_path_spec, field_spec, opt_view, parse, parse_spec};
use crate::json::{get_spec, lookup, parse_json, JsonValue, JsonView};
use crate::outside::json_parse;
use crate::model::{AgentDef, MemoryEntry, SettingsSummary, Skill, SlashCommand, Workflow};
use crate::order::{lex_lt, sort_by_key, sort_by_key_spec, sorted_by_key, law_sort_by_key};
use crate::path::{extension_spec, file_name_spec, file_stem_spec, FsPath, join_spec};
use crate::text::{chars_eq, from_chars, push_char, slice_to_vec, to_chars, trim_start, trim_start_vec};

verus! {

/// Errors of the scan.
#[derive(Debug)]
pub enum ScanError {
    /// A file or directory could not be read.
    Io { path: FsPath, message: String },
    /// `settings.json` is not valid JSON.
    Json { path: FsPath, message: String },
}

/// A file found by the scan, with its text.
pub struct ScannedFile {
    pub path: FsPath,
    pub content: String,
}

/// A sub-folder holding a `SKILL.md`, with that file's text.
pub struct SkillFolder {
    pub folder: FsPath,
    pub content: String,
}

// ---------------------------------------------------------------------------
// Paths.

/// The character a path separator or drive colon becomes in a slug.
pub open spec fn slug_char(c: char) -> char {
    if c == '\\' || c == '/' || c == ':' {
        '-'
    } else {
        c
    }
}

pub open spec fn slug_spec(s: Seq<char>) -> Seq<char> {
    s.map_values(|c: char| slug_char(c))
}

/// The slug the assistant names `projects/<slug>/` after: every path separator
/// and `:` of the path replaced by `-` (`C:\Users\tester` gives
/// `C--Users-tester`).
pub fn path_slug(path: &str) -> (r: String)
    ensures
        r@ == slug_spec(path@),
{
    let c = to_chars(path);
    let mut r = String::new();
    let mut i: usize = 0;
    while i < c.len()
        invariant
            i <= c@.len(),
            c@ == path@,
            r@ == slug_spec(c@.take(i as int)),
        decreases c@.len() - i,
    {
        let ch = c[i];
        let out = if ch == '\\' || ch == '/' || ch == ':' {
            '-'
        } else {
            ch
        };
        push_char(&mut r, out);
        i = i + 1;
        assert(r@ =~= slug_spec(c@.take(i as int)));
    }
    assert(c@.take(c@.len() as int) =~= c@);
    r
}

pub open spec fn stem_or_spec(p: Seq<crate::path::PartView>, fallback: Seq<char>) -> Seq<char> {
    match file_stem_spec(p) {
        Some(s) => s,
        None => fallback,
    }
}

/// The file stem of `path`, or `fallback` when it has none.
pub fn stem_or(path: &FsPath, fallback: &str) -> (r: String)
    ensures
        r@ == stem_or_spec(path@, fallback@),
{
    match path.file_stem() {
        Some(s) => s,
        None => fallback.to_owned(),
    }
}

pub open spec fn has_extension(p: Seq<crate::path::PartView>, ext: Seq<char>) -> bool {
    extension_spec(p) == Some(ext)
}

fn extension_is(path: &FsPath, ext: &str) -> (r: bool)
    ensures
        r == has_extension(path@, ext@),
{
    match path.extension() {
        Some(e) => chars_eq(&to_chars(e.as_str()), &to_chars(ext)),
        None => false,
    }
}

/// A memory file: markdown, and not the `MEMORY.md` index.
pub open spec fn is_memory_file_spec(p: Seq<crate::path::PartView>) -> bool {
    has_extension(p, "md"@) && file_name_spec(p) != Some("MEMORY.md"@)
}

pub fn is_memory_file(path: &FsPath) -> (r: bool)
    ensures
        r == is_memory_file_spec(path@),
{
    if !extension_is(path, "md") {
        return false;
    }
    match path.file_name() {
        Some(n) => !chars_eq(&to_chars(n.as_str()), &to_chars("MEMORY.md")),
        None => true,
    }
}

/// A markdown file.
pub fn is_markdown(path: &FsPath) -> (r: bool)
    ensures
        r == has_extension(path@, "md"@),
{
    extension_is(path, "md")
}

/// A JavaScript file.
pub fn is_javascript(path: &FsPath) -> (r: bool)
    ensures
        r == has_extension(path@, "js"@),
{
    extension_is(path, "js")
}

/// The folder of the home session's memories:
/// `<claude_dir>/projects/<slug of the home directory>/memory`.
pub fn memory_dir(claude_dir: &FsPath, home_dir: &str) -> (r: FsPath)
    ensures
        r@ == join_spec(join_spec(join_spec(claude_dir@, "projects"@), slug_spec(home_dir@)), "memory"@),
{
    let slug = path_slug(home_dir);
    claude_dir.join("projects").join(slug.as_str()).join("memory")
}

/// The `SKILL.md` file of a skill or scheduled-task folder.
pub fn skill_file(folder: &FsPath) -> (r: FsPath)
    ensures
        r@ == join_spec(folder@, "SKILL.md"@),
{
    folder.join("SKILL.md")
}

// ---------------------------------------------------------------------------
// Records.

pub open spec fn or_default(o: Option<Seq<char>>) -> Seq<char> {
    match o {
        Some(s) => s,
        None => seq![],
    }
}

pub open spec fn or_else(o: Option<Seq<char>>, d: Seq<char>) -> Seq<char> {
    match o {
        Some(s) => s,
        None => d,
    }
}

pub open spec fn metadata_type_path() -> Seq<Seq<char>> {
    seq!["metadata"@, "type"@]
}

/// The memory read from a file.
pub open spec fn memory_entry_spec(f: ScannedFile, e: MemoryEntry) -> bool {
    let d = parse_spec(f.content@);
    &&& e.name@ == or_else(field_spec(d, "name"@), stem_or_spec(f.path@, "memoria"@))
    &&& e.description@ == or_default(field_spec(d, "description"@))
    &&& opt_view(e.mem_type) == field_path_spec(d, metadata_type_path())
    &&& e.path@ == f.path@
}

fn or_else_string(o: Option<String>, d: String) -> (r: String)
    ensures
        r@ == or_else(opt_view(o), d@),
{
    match o {
        Some(s) => s,
        None => d,
    }
}

fn or_default_string(o: Option<String>) -> (r: String)
    ensures
        r@ == or_default(opt_view(o)),
{
    match o {
        Some(s) => s,
        None => String::new(),
    }
}

pub fn memory_entry(f: ScannedFile) -> (e: MemoryEntry)
    ensures
        memory_entry_spec(f, e),
{
    let doc = parse(f.content.as_str());
    let name = or_else_string(doc.field("name"), stem_or(&f.path, "memoria"));
    let description = or_default_string(doc.field("description"));
    let p: [&str; 2] = ["metadata", "type"];
    let mem_type = doc.field_path(&p);
    assert(p@.map_values(|s: &str| s@) =~= metadata_type_path());
    MemoryEntry { name, description, mem_type, path: f.path }
}

/// The skill (or scheduled task) read from the `SKILL.md` of a folder.
pub open spec fn skill_spec(f: SkillFolder, fallback: Seq<char>, s: Skill) -> bool {
    let d = parse_spec(f.content@);
    &&& s.name@ == or_else(field_spec(d, "name"@), stem_or_spec(f.folder@, fallback))
    &&& s.description@ == or_default(field_spec(d, "description"@))
    &&& s.path@ == join_spec(f.folder@, "SKILL.md"@)
}

pub fn skill_entry(f: SkillFolder, fallback: &str) -> (s: Skill)
    ensures
        skill_spec(f, fallback@, s),
{
    let doc = parse(f.content.as_str());
    let name = or_else_string(doc.field("name"), stem_or(&f.folder, fallback));
    let description = or_default_string(doc.field("description"));
    Skill { name, description, path: skill_file(&f.folder) }
}

/// The agent read from a file.
pub open spec fn agent_spec(f: ScannedFile, a: AgentDef) -> bool {
    let d = parse_spec(f.content@);
    &&& a.name@ == or_else(field_spec(d, "name"@), stem_or_spec(f.path@, "agente"@))
    &&& a.description@ == or_default(field_spec(d, "description"@))
    &&& opt_view(a.tools) == field_spec(d, "tools"@)
    &&& a.path@ == f.path@
}

pub fn agent_entry(f: ScannedFile) -> (a: AgentDef)
    ensures
        agent_spec(f, a),
{
    let doc = parse(f.content.as_str());
    let name = or_else_string(doc.field("name"), stem_or(&f.path, "agente"));
    let description = or_default_string(doc.field("description"));
    let tools = doc.field("tools");
    AgentDef { name, description, tools, path: f.path }
}

/// The slash command read from a file: named after the file.
pub open spec fn command_spec(f: ScannedFile, c: SlashCommand) -> bool {
    let d = parse_spec(f.content@);
    &&& c.name@ == stem_or_spec(f.path@, "comando"@)
    &&& opt_view(c.description) == field_spec(d, "description"@)
    &&& opt_view(c.argument_hint) == field_spec(d, "argument-hint"@)
    &&& c.path@ == f.path@
}

pub fn command_entry(f: ScannedFile) -> (c: SlashCommand)
    ensures
        command_spec(f, c),
{
    let doc = parse(f.content.as_str());
    let name = stem_or(&f.path, "comando");
    let description = doc.field("description");
    let argument_hint = doc.field("argument-hint");
    SlashCommand { name, description, argument_hint, path: f.path }
}

/// The workflow read from a script's `meta` block.
pub open spec fn workflow_spec(f: ScannedFile, w: Workflow) -> bool {
    &&& w.name@ == or_else(js_field_spec(f.content@, "name"@), stem_or_spec(f.path@, "workflow"@))
    &&& opt_view(w.description) == js_field_spec(f.content@, "description"@)
    &&& opt_view(w.when_to_use) == js_field_spec(f.content@, "whenToUse"@)
    &&& w.path@ == f.path@
}

pub fn workflow_entry(f: ScannedFile) -> (w: Workflow)
    ensures
        workflow_spec(f, w),
{
    let name = or_else_string(
        extract_js_string_field(f.content.as_str(), "name"),
        stem_or(&f.path, "workflow"),
    );
    let description = extract_js_string_field(f.content.as_str(), "description");
    let when_to_use = extract_js_string_field(f.content.as_str(), "whenToUse");
    Workflow { name, description, when_to_use, path: f.path }
}

// ---------------------------------------------------------------------------
// JavaScript `meta` fields.

/// Index of the first occurrence of `p` in `s[i..]`.
pub open spec fn find_from(s: Seq<char>, p: Seq<char>, i: int) -> Option<int>
    decreases s.len() + 1 - i,
{
    if i < 0 || i + p.len() > s.len() {
        None
    } else if s.subrange(i, i + p.len()) == p {
        Some(i)
    } else {
        find_from(s, p, i + 1)
    }
}

/// The string of `key: '...'` or `key: "..."` at the first `key:` of `src`.
pub open spec fn js_field_spec(src: Seq<char>, key: Seq<char>) -> Option<Seq<char>> {
    match find_from(src, key.push(':'), 0) {
        None => None,
        Some(i) => {
            let after = trim_start(src.skip(i + key.len() + 1));
            if after.len() == 0 || (after[0] != '\'' && after[0] != '"') {
                None
            } else {
                let rest = after.drop_first();
                match find_from(rest, seq![after[0]], 0) {
                    None => None,
                    Some(e) => Some(rest.take(e)),
                }
            }
        },
    }
}

fn find_vec(s: &[char], p: &[char]) -> (r: Option<usize>)
    ensures
        match r {
            Some(i) => find_from(s@, p@, 0) == Some(i as int) && i + p@.len() <= s@.len(),
            None => find_from(s@, p@, 0) is None,
        },
{
    let mut i: usize = 0;
    while i < s.len() && p.len() <= s.len() - i
        invariant
            i <= s@.len(),
            find_from(s@, p@, i as int) == find_from(s@, p@, 0),
        decreases s@.len() - i,
    {
        if crate::text::prefix_at(s, i, p) {
            assert(s@.skip(i as int).take(p@.len() as int) =~= s@.subrange(i as int, i + p@.len()));
            return Some(i);
        }
        assert(s@.skip(i as int).take(p@.len() as int) =~= s@.subrange(i as int, i + p@.len()));
        i = i + 1;
    }
    if i == s.len() && p.len() == 0 {
        assert(s@.subrange(i as int, i as int) =~= p@);
        return Some(i);
    }
    None
}

/// Finds `key: '...'` or `key: "..."` in a JavaScript source and returns the
/// string's content (no escapes or comments are understood).
pub fn extract_js_string_field(src: &str, key: &str) -> (r: Option<String>)
    ensures
        opt_view(r) == js_field_spec(src@, key@),
{
    let s = to_chars(src);
    let mut pattern = to_chars(key);
    pattern.push(':');
    assert(pattern@ == key@.push(':'));
    match find_vec(&s, &pattern) {
        None => None,
        Some(i) => {
            assert(i + pattern.len() <= s.len());
            let tail = slice_to_vec(&s, i + pattern.len(), s.len());
            assert(tail@ =~= s@.skip(i + key@.len() + 1));
            let after = trim_start_vec(&tail);
            if after.len() == 0 || (after[0] != '\'' && after[0] != '"') {
                return None;
            }
            let q: [char; 1] = [after[0]];
            let rest = slice_to_vec(&after, 1, after.len());
            assert(rest@ =~= after@.drop_first());
            assert(q@ =~= seq![after@[0]]);
            match find_vec(&rest, &q) {
                None => None,
                Some(e) => {
                    let v = slice_to_vec(&rest, 0, e);
                    assert(v@ =~= rest@.take(e as int));
                    Some(from_chars(&v))
                },
            }
        },
    }
}

} // verus!

verus! {

// ---------------------------------------------------------------------------
// Listings.

pub open spec fn memory_files(files: Seq<ScannedFile>) -> Seq<ScannedFile> {
    files.filter(|f: ScannedFile| is_memory_file_spec(f.path@))
}

pub open spec fn markdown_files(files: Seq<ScannedFile>) -> Seq<ScannedFile> {
    files.filter(|f: ScannedFile| has_extension(f.path@, "md"@))
}

pub open spec fn script_files(files: Seq<ScannedFile>) -> Seq<ScannedFile> {
    files.filter(|f: ScannedFile| has_extension(f.path@, "js"@))
}

/// The memories of the home session's `memory` folder: every markdown file
/// but the `MEMORY.md` index, sorted by name.
pub fn list_memories(files: Vec<ScannedFile>) -> (r: Vec<MemoryEntry>)
    ensures
        exists|built: Seq<MemoryEntry>|
            {
                &&& built.len() == memory_files(files@).len()
                &&& forall|i: int|
                    0 <= i < built.len() ==> memory_entry_spec(
                        #[trigger] memory_files(files@)[i],
                        built[i],
                    )
                &&& r@ == sort_by_key_spec(built)
            },
        sorted_by_key(r@),
        forall|i: int, j: int| 0 <= i < j < r@.len() ==> !lex_lt(#[trigger] r@[j].name@, #[trigger] r@[i].name@),
{
    let ghost orig = files@;
    let n = files.len();
    let mut rest = files;
    let mut built: Vec<MemoryEntry> = Vec::new();
    let mut k: usize = 0;
    assert(orig.skip(0) =~= orig);
    assert(orig.take(0) =~= Seq::<ScannedFile>::empty());
    reveal_with_fuel(Seq::<_>::filter, 1);
    while rest.len() > 0
        invariant
            k <= orig.len(),
            orig.len() == n,
            rest@ == orig.skip(k as int),
            built@.len() == memory_files(orig.take(k as int)).len(),
            forall|i: int|
                0 <= i < built@.len() ==> memory_entry_spec(
                    #[trigger] memory_files(orig.take(k as int))[i],
                    built@[i],
                ),
        decreases rest@.len(),
    {
        reveal_with_fuel(Seq::<_>::filter, 1);
        let f = rest.remove(0);
        assert(orig.take(k + 1).drop_last() =~= orig.take(k as int));
        assert(orig.take(k + 1).last() == f);
        if is_memory_file(&f.path) {
            let e = memory_entry(f);
            built.push(e);
        }
        k = k + 1;
        assert(rest@ =~= orig.skip(k as int));
    }
    assert(orig.take(k as int) =~= orig);
    let r = sort_by_key(built);
    proof {
        law_sort_by_key(built@);
        crate::model::law_memories_listed_by_name(r@);
    }
    r
}

/// The records of skill-like folders (`<dir>/<name>/SKILL.md`), named by the
/// front matter or else after the folder (`fallback` when it has no name),
/// sorted by name.
pub fn scan_named_subfolders(folders: Vec<SkillFolder>, fallback: &str) -> (r: Vec<Skill>)
    ensures
        exists|built: Seq<Skill>|
            {
                &&& built.len() == folders@.len()
                &&& forall|i: int|
                    0 <= i < built.len() ==> skill_spec(#[trigger] folders@[i], fallback@, built[i])
                &&& r@ == sort_by_key_spec(built)
            },
        sorted_by_key(r@),
        forall|i: int, j: int| 0 <= i < j < r@.len() ==> !lex_lt(#[trigger] r@[j].name@, #[trigger] r@[i].name@),
{
    let ghost orig = folders@;
    let n = folders.len();
    let mut rest = folders;
    let mut built: Vec<Skill> = Vec::new();
    let mut k: usize = 0;
    assert(orig.skip(0) =~= orig);
    while rest.len() > 0
        invariant
            k <= orig.len(),
            orig.len() == n,
            rest@ == orig.skip(k as int),
            built@.len() == k,
            forall|i: int| 0 <= i < k ==> skill_spec(#[trigger] orig[i], fallback@, built@[i]),
        decreases rest@.len(),
    {
        let f = rest.remove(0);
        assert(orig[k as int] == f);
        let e = skill_entry(f, fallback);
        built.push(e);
        k = k + 1;
        assert(rest@ =~= orig.skip(k as int));
    }
    let r = sort_by_key(built);
    proof {
        law_sort_by_key(built@);
        crate::model::law_skills_listed_by_name(r@);
    }
    r
}

/// Skills: every `skills/<name>/SKILL.md`.
pub fn list_skills(folders: Vec<SkillFolder>) -> (r: Vec<Skill>)
    ensures
        exists|built: Seq<Skill>|
            {
                &&& built.len() == folders@.len()
                &&& forall|i: int|
                    0 <= i < built.len() ==> skill_spec(#[trigger] folders@[i], "skill"@, built[i])
                &&& r@ == sort_by_key_spec(built)
            },
        sorted_by_key(r@),
        forall|i: int, j: int| 0 <= i < j < r@.len() ==> !lex_lt(#[trigger] r@[j].name@, #[trigger] r@[i].name@),
{
    scan_named_subfolders(folders, "skill")
}

/// Scheduled tasks (`scheduled-tasks/<name>/SKILL.md`): shaped like skills.
pub fn list_scheduled_tasks(folders: Vec<SkillFolder>) -> (r: Vec<Skill>)
    ensures
        exists|built: Seq<Skill>|
            {
                &&& built.len() == folders@.len()
                &&& forall|i: int|
                    0 <= i < built.len() ==> skill_spec(#[trigger] folders@[i], "tarea"@, built[i])
                &&& r@ == sort_by_key_spec(built)
            },
        sorted_by_key(r@),
        forall|i: int, j: int| 0 <= i < j < r@.len() ==> !lex_lt(#[trigger] r@[j].name@, #[trigger] r@[i].name@),
{
    scan_named_subfolders(folders, "tarea")
}

/// Agents: the markdown files of `agents/`, sorted by name.
pub fn list_agents(files: Vec<ScannedFile>) -> (r: Vec<AgentDef>)
    ensures
        exists|built: Seq<AgentDef>|
            {
                &&& built.len() == markdown_files(files@).len()
                &&& forall|i: int|
                    0 <= i < built.len() ==> agent_spec(#[trigger] markdown_files(files@)[i], built[i])
                &&& r@ == sort_by_key_spec(built)
            },
        sorted_by_key(r@),
        forall|i: int, j: int| 0 <= i < j < r@.len() ==> !lex_lt(#[trigger] r@[j].name@, #[trigger] r@[i].name@),
{
    let ghost orig = files@;
    let n = files.len();
    let mut rest = files;
    let mut built: Vec<AgentDef> = Vec::new();
    let mut k: usize = 0;
    assert(orig.skip(0) =~= orig);
    assert(orig.take(0) =~= Seq::<ScannedFile>::empty());
    reveal_with_fuel(Seq::<_>::filter, 1);
    while rest.len() > 0
        invariant
            k <= orig.len(),
            orig.len() == n,
            rest@ == orig.skip(k as int),
            built@.len() == markdown_files(orig.take(k as int)).len(),
            forall|i: int|
                0 <= i < built@.len() ==> agent_spec(
                    #[trigger] markdown_files(orig.take(k as int))[i],
                    built@[i],
                ),
        decreases rest@.len(),
    {
        reveal_with_fuel(Seq::<_>::filter, 1);
        let f = rest.remove(0);
        assert(orig.take(k + 1).drop_last() =~= orig.take(k as int));
        assert(orig.take(k + 1).last() == f);
        if is_markdown(&f.path) {
            let e = agent_entry(f);
            built.push(e);
        }
        k = k + 1;
        assert(rest@ =~= orig.skip(k as int));
    }
    assert(orig.take(k as int) =~= orig);
    let r = sort_by_key(built);
    proof {
        law_sort_by_key(built@);
        crate::model::law_agents_listed_by_name(r@);
    }
    r
}

/// Slash commands: the markdown files of `commands/`, sorted by name.
pub fn list_commands(files: Vec<ScannedFile>) -> (r: Vec<SlashCommand>)
    ensures
        exists|built: Seq<SlashCommand>|
            {
                &&& built.len() == markdown_files(files@).len()
                &&& forall|i: int|
                    0 <= i < built.len() ==> command_spec(
                        #[trigger] markdown_files(files@)[i],
                        built[i],
                    )
                &&& r@ == sort_by_key_spec(built)
            },
        sorted_by_key(r@),
        forall|i: int, j: int| 0 <= i < j < r@.len() ==> !lex_lt(#[trigger] r@[j].name@, #[trigger] r@[i].name@),
{
    let ghost orig = files@;
    let n = files.len();
    let mut rest = files;
    let mut built: Vec<SlashCommand> = Vec::new();
    let mut k: usize = 0;
    assert(orig.skip(0) =~= orig);
    assert(orig.take(0) =~= Seq::<ScannedFile>::empty());
    reveal_with_fuel(Seq::<_>::filter, 1);
    while rest.len() > 0
        invariant
            k <= orig.len(),
            orig.len() == n,
            rest@ == orig.skip(k as int),
            built@.len() == markdown_files(orig.take(k as int)).len(),
            forall|i: int|
                0 <= i < built@.len() ==> command_spec(
                    #[trigger] markdown_files(orig.take(k as int))[i],
                    built@[i],
                ),
        decreases rest@.len(),
    {
        reveal_with_fuel(Seq::<_>::filter, 1);
        let f = rest.remove(0);
        assert(orig.take(k + 1).drop_last() =~= orig.take(k as int));
        assert(orig.take(k + 1).last() == f);
        if is_markdown(&f.path) {
            let e = command_entry(f);
            built.push(e);
        }
        k = k + 1;
        assert(rest@ =~= orig.skip(k as int));
    }
    assert(orig.take(k as int) =~= orig);
    let r = sort_by_key(built);
    proof {
        law_sort_by_key(built@);
        crate::model::law_commands_listed_by_name(r@);
    }
    r
}

/// Workflows: the `.js` scripts of `workflows/`, read from their `meta`
/// block, sorted by name.
pub fn list_workflows(files: Vec<ScannedFile>) -> (r: Vec<Workflow>)
    ensures
        exists|built: Seq<Workflow>|
            {
                &&& built.len() == script_files(files@).len()
                &&& forall|i: int|
                    0 <= i < built.len() ==> workflow_spec(
                        #[trigger] script_files(files@)[i],
                        built[i],
                    )
                &&& r@ == sort_by_key_spec(built)
            },
        sorted_by_key(r@),
        forall|i: int, j: int| 0 <= i < j < r@.len() ==> !lex_lt(#[trigger] r@[j].name@, #[trigger] r@[i].name@),
{
    let ghost orig = files@;
    let n = files.len();
    let mut rest = files;
    let mut built: Vec<Workflow> = Vec::new();
    let mut k: usize = 0;
    assert(orig.skip(0) =~= orig);
    assert(orig.take(0) =~= Seq::<ScannedFile>::empty());
    reveal_with_fuel(Seq::<_>::filter, 1);
    while rest.len() > 0
        invariant
            k <= orig.len(),
            orig.len() == n,
            rest@ == orig.skip(k as int),
            built@.len() == script_files(orig.take(k as int)).len(),
            forall|i: int|
                0 <= i < built@.len() ==> workflow_spec(
                    #[trigger] script_files(orig.take(k as int))[i],
                    built@[i],
                ),
        decreases rest@.len(),
    {
        reveal_with_fuel(Seq::<_>::filter, 1);
        let f = rest.remove(0);
        assert(orig.take(k + 1).drop_last() =~= orig.take(k as int));
        assert(orig.take(k + 1).last() == f);
        if is_javascript(&f.path) {
            let e = workflow_entry(f);
            built.push(e);
        }
        k = k + 1;
        assert(rest@ =~= orig.skip(k as int));
    }
    assert(orig.take(k as int) =~= orig);
    let r = sort_by_key(built);
    proof {
        law_sort_by_key(built@);
        crate::model::law_workflows_listed_by_name(r@);
    }
    r
}

} // verus!

verus! {

// ---------------------------------------------------------------------------
// settings.json.

/// The string a JSON value holds, if it is a string.
pub open spec fn str_of(o: Option<JsonView>) -> Option<Seq<char>> {
    match o {
        Some(JsonView::Str(s)) => Some(s),
        _ => None,
    }
}

/// The strings among `items`, in order.
pub open spec fn strings_of(items: Seq<JsonView>) -> Seq<Seq<char>>
    decreases items.len(),
{
    if items.len() == 0 {
        seq![]
    } else {
        strings_of(items.drop_last()) + match items.last() {
            JsonView::Str(s) => seq![s],
            _ => seq![],
        }
    }
}

/// The keys of an object value, in order; none for other values.
pub open spec fn object_keys(o: Option<JsonView>) -> Seq<Seq<char>> {
    match o {
        Some(JsonView::Object(es)) => es.map_values(|e: (Seq<char>, JsonView)| e.0),
        _ => seq![],
    }
}

/// The strings of the array at `/permissions/allow`.
pub open spec fn allow_list(v: JsonView) -> Seq<Seq<char>> {
    match get_spec(v, "permissions"@) {
        Some(p) => match get_spec(p, "allow"@) {
            Some(JsonView::Array(items)) => strings_of(items),
            _ => seq![],
        },
        None => seq![],
    }
}

pub open spec fn string_views(v: Seq<String>) -> Seq<Seq<char>> {
    v.map_values(|s: String| s@)
}

/// The value under `key` of an object.
pub fn get<'a>(v: &'a JsonValue, key: &str) -> (r: Option<&'a JsonValue>)
    ensures
        match r {
            Some(x) => get_spec(v@, key@) == Some(x@),
            None => get_spec(v@, key@) is None,
        },
{
    match v {
        JsonValue::Object(es) => {
            proof {
                crate::json::lemma_entries_view_pub(es@, es@.len() as int);
            }
            let ghost all = crate::json::ev(es@);
            let kc = to_chars(key);
            let mut i: usize = 0;
            assert(all.skip(0) =~= all);
            while i < es.len()
                invariant
                    *v == JsonValue::Object(*es),
                    all == crate::json::ev(es@),
                    all.len() == es@.len(),
                    forall|j: int|
                        0 <= j < es@.len() ==> #[trigger] all[j] == (
                            es@[j].0@,
                            crate::json::json_view(es@[j].1),
                        ),
                    kc@ == key@,
                    i <= es@.len(),
                    lookup(all.skip(i as int), key@) == lookup(all, key@),
                decreases es@.len() - i,
            {
                assert(all.skip(i as int)[0] == all[i as int]);
                if chars_eq(&to_chars(es[i].0.as_str()), &kc) {
                    return Some(&es[i].1);
                }
                assert(all.skip(i as int).drop_first() =~= all.skip(i + 1));
                i = i + 1;
            }
            None
        },
        _ => None,
    }
}

fn string_of(o: Option<&JsonValue>) -> (r: Option<String>)
    ensures
        opt_view(r) == str_of(
            match o {
                Some(x) => Some(x@),
                None => None,
            },
        ),
{
    match o {
        Some(JsonValue::Str(s)) => Some(s.clone()),
        _ => None,
    }
}

fn keys_of(o: Option<&JsonValue>) -> (r: Vec<String>)
    ensures
        string_views(r@) == object_keys(
            match o {
                Some(x) => Some(x@),
                None => None,
            },
        ),
{
    let mut r: Vec<String> = Vec::new();
    match o {
        Some(JsonValue::Object(es)) => {
            proof {
                crate::json::lemma_entries_view_pub(es@, es@.len() as int);
            }
            let ghost all = crate::json::ev(es@);
            let mut i: usize = 0;
            while i < es.len()
                invariant
                    all == crate::json::ev(es@),
                    all.len() == es@.len(),
                    forall|j: int|
                        0 <= j < es@.len() ==> #[trigger] all[j] == (
                            es@[j].0@,
                            crate::json::json_view(es@[j].1),
                        ),
                    i <= es@.len(),
                    string_views(r@) == all.take(i as int).map_values(
                        |e: (Seq<char>, JsonView)| e.0,
                    ),
                decreases es@.len() - i,
            {
                let ghost before = string_views(r@);
                r.push(es[i].0.clone());
                assert(string_views(r@) =~= before.push(es@[i as int].0@));
                assert(all[i as int].0 == es@[i as int].0@);
                assert(all.take(i + 1) =~= all.take(i as int).push(all[i as int]));
                i = i + 1;
                assert(string_views(r@) =~= all.take(i as int).map_values(
                    |e: (Seq<char>, JsonView)| e.0,
                ));
            }
            assert(all.take(i as int) =~= all);
            r
        },
        _ => {
            assert(string_views(r@) =~= Seq::<Seq<char>>::empty());
            r
        },
    }
}

fn strings_in(items: &Vec<JsonValue>) -> (r: Vec<String>)
    ensures
        string_views(r@) == strings_of(crate::json::iv(items@)),
{
    proof {
        crate::json::lemma_items_view_pub(items@, items@.len() as int);
    }
    let ghost all = crate::json::iv(items@);
    let mut r: Vec<String> = Vec::new();
    let mut i: usize = 0;
    assert(all.take(0) =~= Seq::<JsonView>::empty());
    while i < items.len()
        invariant
            all == crate::json::iv(items@),
            all.len() == items@.len(),
            forall|j: int| 0 <= j < items@.len() ==> #[trigger] all[j] == crate::json::json_view(items@[j]),
            i <= items@.len(),
            string_views(r@) == strings_of(all.take(i as int)),
        decreases items@.len() - i,
    {
        assert(all.take(i + 1).drop_last() =~= all.take(i as int));
        assert(all.take(i + 1).last() == all[i as int]);
        let ghost before = string_views(r@);
        match &items[i] {
            JsonValue::Str(s) => {
                r.push(s.clone());
                assert(string_views(r@) =~= before + seq![s@]);
            },
            _ => {
                assert(strings_of(all.take(i + 1)) =~= strings_of(all.take(i as int)));
            },
        }
        i = i + 1;
    }
    assert(all.take(i as int) =~= all);
    r
}

/// `s` summarizes the settings value `v`.
pub open spec fn summary_of(v: JsonView, s: SettingsSummary) -> bool {
    &&& opt_view(s.model) == str_of(get_spec(v, "model"@))
    &&& opt_view(s.theme) == str_of(get_spec(v, "theme"@))
    &&& string_views(s.permissions_allow@) == allow_list(v)
    &&& string_views(s.hooks_events@) == object_keys(get_spec(v, "hooks"@))
    &&& string_views(s.enabled_plugins@) == object_keys(get_spec(v, "enabledPlugins"@))
}

/// The summary of a settings file that is not there: nothing set.
pub open spec fn empty_summary(s: SettingsSummary) -> bool {
    &&& s.model is None
    &&& s.theme is None
    &&& s.permissions_allow@.len() == 0
    &&& s.hooks_events@.len() == 0
    &&& s.enabled_plugins@.len() == 0
}

/// The summary of `settings.json`: model, theme, allowed permissions, hook
/// events and enabled plugins.
pub fn settings_summary(value: &JsonValue) -> (s: SettingsSummary)
    ensures
        summary_of(value@, s),
{
    let permissions_allow = match get(value, "permissions") {
        Some(p) => match get(p, "allow") {
            Some(JsonValue::Array(items)) => strings_in(items),
            _ => {
                let v: Vec<String> = Vec::new();
                assert(string_views(v@) =~= Seq::<Seq<char>>::empty());
                v
            },
        },
        None => {
            let v: Vec<String> = Vec::new();
            assert(string_views(v@) =~= Seq::<Seq<char>>::empty());
            v
        },
    };
    SettingsSummary {
        model: string_of(get(value, "model")),
        theme: string_of(get(value, "theme")),
        permissions_allow,
        hooks_events: keys_of(get(value, "hooks")),
        enabled_plugins: keys_of(get(value, "enabledPlugins")),
    }
}

/// The summary of the settings file at `path`, from its text (`None` when
/// there is no such file): nothing set when there is no file, and an error
/// naming the file when its text is not JSON.
pub fn read_settings_summary(path: &FsPath, raw: Option<String>) -> (r: Result<SettingsSummary, ScanError>)
    ensures
        match raw {
            None => r matches Ok(s) && empty_summary(s),
            Some(t) => match json_parse(t@) {
                Err(m) => r matches Err(ScanError::Json { path: p, message }) && p@ == path@ && message@ == m,
                Ok(v) => r matches Ok(s) && summary_of(v, s),
            },
        },
{
    match raw {
        None => Ok(SettingsSummary::default()),
        Some(t) => match parse_json(t.as_str()) {
            Ok(v) => Ok(settings_summary(&v)),
            Err(m) => Err(ScanError::Json { path: path.duplicate(), message: m }),
        },
    }
}

} // verus!

verus! {

// ---------------------------------------------------------------------------
// Laws of the `meta` fields.

proof fn lemma_find_first(s: Seq<char>, p: Seq<char>, i: int, m: int)
    requires
        0 <= i <= m,
        m + p.len() <= s.len(),
        s.subrange(m, m + p.len()) == p,
        forall|j: int| i <= j < m ==> #[trigger] s.subrange(j, j + p.len()) != p,
    ensures
        find_from(s, p, i) == Some(m),
    decreases m - i,
{
    if i < m {
        lemma_find_first(s, p, i + 1, m);
    }
}

proof fn lemma_trim_start_ws(ws: Seq<char>, t: Seq<char>)
    requires
        forall|j: int| 0 <= j < ws.len() ==> crate::text::is_ws(#[trigger] ws[j]),
        t.len() > 0,
        !crate::text::is_ws(t[0]),
    ensures
        trim_start(ws + t) == t,
    decreases ws.len(),
{
    if ws.len() == 0 {
        assert(ws + t =~= t);
    } else {
        assert((ws + t)[0] == ws[0]);
        assert((ws + t).drop_first() =~= ws.drop_first() + t);
        lemma_trim_start_ws(ws.drop_first(), t);
    }
}

/// A quoted `meta` field reads up to the quote that closes it. When the
/// first `key:` of `src` is followed by whitespace and a quote `q`, then by
/// text `s` holding no `q`, then by `q`, the field is exactly `s`, even when
/// `s` holds the other kind of quote.
pub proof fn law_js_field_reads_to_matching_quote(
    pre: Seq<char>,
    key: Seq<char>,
    ws: Seq<char>,
    q: char,
    s: Seq<char>,
    post: Seq<char>,
)
    requires
        q == '\'' || q == '"',
        forall|j: int| 0 <= j < ws.len() ==> crate::text::is_ws(#[trigger] ws[j]),
        forall|j: int| 0 <= j < s.len() ==> #[trigger] s[j] != q,
        forall|j: int|
            0 <= j < pre.len() ==> #[trigger] (pre + key + seq![':'] + ws + seq![q] + s + seq![q] + post).subrange(
                j,
                j + key.len() + 1,
            ) != key.push(':'),
    ensures
        js_field_spec(pre + key + seq![':'] + ws + seq![q] + s + seq![q] + post, key) == Some(s),
{
    let src = pre + key + seq![':'] + ws + seq![q] + s + seq![q] + post;
    let pat = key.push(':');
    let m = pre.len() as int;
    assert(src.subrange(m, m + pat.len()) =~= pat);
    assert forall|j: int| 0 <= j < m implies #[trigger] src.subrange(j, j + pat.len()) != pat by {
        assert(src.subrange(j, j + key.len() + 1) != key.push(':'));
    }
    lemma_find_first(src, pat, 0, m);
    let t = seq![q] + s + seq![q] + post;
    assert(src.skip(m + key.len() + 1) =~= ws + t);
    assert(t[0] == q);
    lemma_trim_start_ws(ws, t);
    let rest = t.drop_first();
    assert(rest =~= s + seq![q] + post);
    let n = s.len() as int;
    assert(rest.subrange(n, n + 1) =~= seq![q]);
    assert forall|j: int| 0 <= j < n implies #[trigger] rest.subrange(j, j + 1) != seq![q] by {
        assert(rest.subrange(j, j + 1)[0] == s[j]);
    }
    lemma_find_first(rest, seq![q], 0, n);
    assert(rest.take(n) =~= s);
}

} // verus!
