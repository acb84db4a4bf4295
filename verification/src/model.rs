//! Read-only records listed from the configuration directory. The full
//! content of a file (for editing) is its raw text; these records are what
//! cards and lists show.

use vstd::prelude::*;

use crate::order::{lex_lt, sorted_by_key, Keyed};
use crate::path::FsPath;
use crate::text::to_chars;

verus! {

#[derive(Debug, Clone, PartialEq, Eq)]
pub struct MemoryEntry {
    pub name: String,
    pub description: String,
    pub mem_type: Option<String>,
    pub path: FsPath,
}

#[derive(Debug, Clone, PartialEq, Eq)]
pub struct Skill {
    pub name: String,
    pub description: String,
    /// The `SKILL.md` file, not the folder holding it.
    pub path: FsPath,
}

#[derive(Debug, Clone, PartialEq, Eq)]
pub struct SlashCommand {
    pub name: String,
    pub description: Option<String>,
    pub argument_hint: Option<String>,
    pub path: FsPath,
}

#[derive(Debug, Clone, PartialEq, Eq)]
pub struct AgentDef {
    pub name: String,
    pub description: String,
    /// The tool list as written in the front matter (free text such as
    /// `"Bash, Read, Grep, Glob"`).
    pub tools: Option<String>,
    pub path: FsPath,
}

#[derive(Debug, Clone, PartialEq, Eq)]
pub struct Workflow {
    pub name: String,
    pub description: Option<String>,
    pub when_to_use: Option<String>,
    pub path: FsPath,
}

#[derive(Debug, Clone, PartialEq, Eq)]
pub struct SettingsSummary {
    pub model: Option<String>,
    pub theme: Option<String>,
    pub permissions_allow: Vec<String>,
    pub hooks_events: Vec<String>,
    pub enabled_plugins: Vec<String>,
}

impl Default for SettingsSummary {
    fn default() -> (r: SettingsSummary)
        ensures
            r.model is None,
            r.theme is None,
            r.permissions_allow@.len() == 0,
            r.hooks_events@.len() == 0,
            r.enabled_plugins@.len() == 0,
    {
        SettingsSummary {
            model: None,
            theme: None,
            permissions_allow: Vec::new(),
            hooks_events: Vec::new(),
            enabled_plugins: Vec::new(),
        }
    }
}

impl Keyed for MemoryEntry {
    open spec fn key_view(&self) -> Seq<char> {
        self.name@
    }

    fn key_chars(&self) -> (r: Vec<char>) {
        to_chars(self.name.as_str())
    }
}

impl Keyed for Skill {
    open spec fn key_view(&self) -> Seq<char> {
        self.name@
    }

    fn key_chars(&self) -> (r: Vec<char>) {
        to_chars(self.name.as_str())
    }
}

impl Keyed for SlashCommand {
    open spec fn key_view(&self) -> Seq<char> {
        self.name@
    }

    fn key_chars(&self) -> (r: Vec<char>) {
        to_chars(self.name.as_str())
    }
}

impl Keyed for AgentDef {
    open spec fn key_view(&self) -> Seq<char> {
        self.name@
    }

    fn key_chars(&self) -> (r: Vec<char>) {
        to_chars(self.name.as_str())
    }
}

impl Keyed for Workflow {
    open spec fn key_view(&self) -> Seq<char> {
        self.name@
    }

    fn key_chars(&self) -> (r: Vec<char>) {
        to_chars(self.name.as_str())
    }
}


/// A listing of memories in the listing order comes by name: no name is below
/// the name of a record listed before it, in the order of `String`.
pub proof fn law_memories_listed_by_name(r: Seq<MemoryEntry>)
    requires
        sorted_by_key(r),
    ensures
        forall|i: int, j: int| 0 <= i < j < r.len() ==> !lex_lt(#[trigger] r[j].name@, #[trigger] r[i].name@),
{
    assert forall|i: int, j: int| 0 <= i < j < r.len() implies !lex_lt(#[trigger] r[j].name@, #[trigger] r[i].name@) by {
        assert(r[j].key_view() == r[j].name@ && r[i].key_view() == r[i].name@);
    }
}

/// A listing of skills and scheduled tasks in the listing order comes by name: no name is below
/// the name of a record listed before it, in the order of `String`.
pub proof fn law_skills_listed_by_name(r: Seq<Skill>)
    requires
        sorted_by_key(r),
    ensures
        forall|i: int, j: int| 0 <= i < j < r.len() ==> !lex_lt(#[trigger] r[j].name@, #[trigger] r[i].name@),
{
    assert forall|i: int, j: int| 0 <= i < j < r.len() implies !lex_lt(#[trigger] r[j].name@, #[trigger] r[i].name@) by {
        assert(r[j].key_view() == r[j].name@ && r[i].key_view() == r[i].name@);
    }
}

/// A listing of agents in the listing order comes by name: no name is below
/// the name of a record listed before it, in the order of `String`.
pub proof fn law_agents_listed_by_name(r: Seq<AgentDef>)
    requires
        sorted_by_key(r),
    ensures
        forall|i: int, j: int| 0 <= i < j < r.len() ==> !lex_lt(#[trigger] r[j].name@, #[trigger] r[i].name@),
{
    assert forall|i: int, j: int| 0 <= i < j < r.len() implies !lex_lt(#[trigger] r[j].name@, #[trigger] r[i].name@) by {
        assert(r[j].key_view() == r[j].name@ && r[i].key_view() == r[i].name@);
    }
}

/// A listing of slash commands in the listing order comes by name: no name is below
/// the name of a record listed before it, in the order of `String`.
pub proof fn law_commands_listed_by_name(r: Seq<SlashCommand>)
    requires
        sorted_by_key(r),
    ensures
        forall|i: int, j: int| 0 <= i < j < r.len() ==> !lex_lt(#[trigger] r[j].name@, #[trigger] r[i].name@),
{
    assert forall|i: int, j: int| 0 <= i < j < r.len() implies !lex_lt(#[trigger] r[j].name@, #[trigger] r[i].name@) by {
        assert(r[j].key_view() == r[j].name@ && r[i].key_view() == r[i].name@);
    }
}

/// A listing of workflows in the listing order comes by name: no name is below
/// the name of a record listed before it, in the order of `String`.
pub proof fn law_workflows_listed_by_name(r: Seq<Workflow>)
    requires
        sorted_by_key(r),
    ensures
        forall|i: int, j: int| 0 <= i < j < r.len() ==> !lex_lt(#[trigger] r[j].name@, #[trigger] r[i].name@),
{
    assert forall|i: int, j: int| 0 <= i < j < r.len() implies !lex_lt(#[trigger] r[j].name@, #[trigger] r[i].name@) by {
        assert(r[j].key_view() == r[j].name@ && r[i].key_view() == r[i].name@);
    }
}

} // verus!
