use cf_core::json::{parse_json, JsonValue};
use cf_core::path::{FsPath, PathPart};
use cf_core::scan::{
    extract_js_string_field, list_agents, list_commands, list_memories, list_scheduled_tasks, list_skills,
    list_workflows, memory_dir, path_slug, read_settings_summary, settings_summary, stem_or, ScanError, ScannedFile,
    SkillFolder,
};

/// A path from its `/`-separated spelling (absolute when it starts with `/`).
fn fp(s: &str) -> FsPath {
    let mut parts = Vec::new();
    if s.starts_with('/') {
        parts.push(PathPart::Root);
    }
    for name in s.split('/').filter(|n| !n.is_empty()) {
        if name == ".." {
            parts.push(PathPart::Parent);
        } else {
            parts.push(PathPart::Normal(name.to_string()));
        }
    }
    FsPath { parts }
}

fn file(path: &str, content: &str) -> ScannedFile {
    ScannedFile { path: fp(path), content: content.to_string() }
}

fn folder(path: &str, content: &str) -> SkillFolder {
    SkillFolder { folder: fp(path), content: content.to_string() }
}

// The fixture of a configuration directory, as the scan reads it.

const MEMORY_DIR: &str = "/home/u/.cfg/projects/C--Users-tester/memory";

fn memory_files() -> Vec<ScannedFile> {
    vec![
        file(&format!("{MEMORY_DIR}/MEMORY.md"), "# Memory index\n"),
        file(
            &format!("{MEMORY_DIR}/ejemplo.md"),
            "---\nname: ejemplo\ndescription: \"Una memoria de prueba\"\nmetadata:\n  type: project\n---\nCuerpo.\n",
        ),
    ]
}

const SETTINGS: &str = r#"{
          "model": "sonnet",
          "theme": "dark",
          "permissions": { "allow": ["Bash(git status)", "Bash(npm test *)"] },
          "hooks": { "SessionEnd": [] },
          "enabledPlugins": { "rust-analyzer-lsp@plugins-official": true }
        }"#;

#[test]
fn extracts_single_and_double_quoted_fields() {
    let src = r#"export const meta = { name: 'world-class-audit', description: "Auditoría multi-agente" }"#;
    assert_eq!(extract_js_string_field(src, "name").as_deref(), Some("world-class-audit"));
    assert_eq!(extract_js_string_field(src, "description").as_deref(), Some("Auditoría multi-agente"));
}

#[test]
fn missing_field_returns_none() {
    let src = "export const meta = { name: 'x' }";
    assert_eq!(extract_js_string_field(src, "whenToUse"), None);
}

#[test]
fn path_slug_replaces_separators_and_colon() {
    assert_eq!(path_slug("C:\\Users\\tester"), "C--Users-tester");
    assert_eq!(
        path_slug("C:\\Users\\tester\\Documents\\flow-studio"),
        "C--Users-tester-Documents-flow-studio"
    );
}

#[test]
fn path_slug_replaces_unix_separators_too() {
    assert_eq!(path_slug("/home/damian"), "-home-damian");
}

#[test]
fn js_field_edges() {
    assert_eq!(extract_js_string_field("name:   \"spaced\"", "name").as_deref(), Some("spaced"));
    assert_eq!(extract_js_string_field("name: unquoted", "name"), None);
    assert_eq!(extract_js_string_field("name: 'unterminated", "name"), None);
    assert_eq!(extract_js_string_field("name:", "name"), None);
    assert_eq!(extract_js_string_field("name: ''", "name").as_deref(), Some(""));
    // The first occurrence of the key decides, even inside another word.
    assert_eq!(extract_js_string_field("rename: 'a', name: 'b'", "name").as_deref(), Some("a"));
}

#[test]
fn memory_dir_is_named_after_the_home_slug() {
    let d = memory_dir(&fp("/home/u/.cfg"), "/home/u");
    assert_eq!(d, fp("/home/u/.cfg/projects/-home-u/memory"));
}

#[test]
fn stem_or_falls_back_without_a_file_name() {
    assert_eq!(stem_or(&fp("/a/b/nota.md"), "memoria"), "nota");
    assert_eq!(stem_or(&fp("/"), "memoria"), "memoria");
    assert_eq!(stem_or(&fp("/a/.oculto"), "x"), ".oculto");
}

#[test]
fn lists_memories_skipping_the_index() {
    let memories = list_memories(memory_files());
    assert_eq!(memories.len(), 1);
    assert_eq!(memories[0].name, "ejemplo");
    assert_eq!(memories[0].description, "Una memoria de prueba");
    assert_eq!(memories[0].mem_type.as_deref(), Some("project"));
    assert_eq!(memories[0].path, fp(&format!("{MEMORY_DIR}/ejemplo.md")));
}

#[test]
fn memories_fall_back_to_the_file_stem_and_sort_by_name() {
    let memories = list_memories(vec![
        file("/m/zeta.md", "sin front matter"),
        file("/m/notas.txt", "---\nname: no-md\n---\n"),
        file("/m/alfa.md", "---\ndescription: d\n---\n"),
        file("/m/medio.md", "---\nname: beta\n---\n"),
    ]);
    let names: Vec<&str> = memories.iter().map(|m| m.name.as_str()).collect();
    assert_eq!(names, vec!["alfa", "beta", "zeta"]);
    assert_eq!(memories[0].description, "d");
    assert_eq!(memories[1].description, "");
    assert_eq!(memories[2].mem_type, None);
}

#[test]
fn lists_skills_from_subfolders() {
    let skills = list_skills(vec![folder(
        "/c/skills/mi-skill",
        "---\nname: mi-skill\ndescription: Hace cosas\n---\n# Mi skill\n",
    )]);
    assert_eq!(skills.len(), 1);
    assert_eq!(skills[0].name, "mi-skill");
    assert_eq!(skills[0].description, "Hace cosas");
    assert_eq!(skills[0].path, fp("/c/skills/mi-skill/SKILL.md"));
}

#[test]
fn skills_without_a_name_take_the_folder_name() {
    let skills = list_skills(vec![folder("/c/skills/zz", "cuerpo"), folder("/c/skills/aa", "cuerpo")]);
    let names: Vec<&str> = skills.iter().map(|s| s.name.as_str()).collect();
    assert_eq!(names, vec!["aa", "zz"]);
}

#[test]
fn lists_agents_with_folded_description_and_tools() {
    let agents = list_agents(vec![file(
        "/c/agents/design-checker.md",
        "---\nname: design-checker\ndescription: >-\n  Revisa el diseño de una pantalla.\n  Es read-only.\ntools: Bash, Read, Grep, Glob\n---\nBody\n",
    )]);
    assert_eq!(agents.len(), 1);
    assert_eq!(agents[0].name, "design-checker");
    assert_eq!(agents[0].description, "Revisa el diseño de una pantalla. Es read-only.");
    assert_eq!(agents[0].tools.as_deref(), Some("Bash, Read, Grep, Glob"));
}

#[test]
fn lists_scheduled_tasks_from_subfolders() {
    let tasks = list_scheduled_tasks(vec![folder(
        "/c/scheduled-tasks/mi-tarea",
        "---\nname: mi-tarea\ndescription: Recordatorio de prueba\n---\nBody\n",
    )]);
    assert_eq!(tasks.len(), 1);
    assert_eq!(tasks[0].name, "mi-tarea");
    assert_eq!(tasks[0].description, "Recordatorio de prueba");
}

#[test]
fn lists_commands_with_argument_hint() {
    let commands = list_commands(vec![
        file("/c/commands/audit.md", "---\ndescription: Corre el audit\nargument-hint: [repo]\n---\nContenido.\n"),
        file("/c/commands/leeme.txt", "no es un comando"),
    ]);
    assert_eq!(commands.len(), 1);
    assert_eq!(commands[0].name, "audit");
    assert_eq!(commands[0].description.as_deref(), Some("Corre el audit"));
    assert_eq!(commands[0].argument_hint.as_deref(), Some("[repo]"));
}

#[test]
fn lists_workflows_parsing_the_meta_block() {
    let workflows = list_workflows(vec![
        file(
            "/c/workflows/mi-workflow.js",
            "export const meta = {\n  name: 'mi-workflow',\n  description: 'Hace un review',\n}\n",
        ),
        file("/c/workflows/notas.md", "name: 'no'"),
    ]);
    assert_eq!(workflows.len(), 1);
    assert_eq!(workflows[0].name, "mi-workflow");
    assert_eq!(workflows[0].description.as_deref(), Some("Hace un review"));
    assert_eq!(workflows[0].when_to_use, None);
}

#[test]
fn workflows_without_a_name_take_the_file_stem() {
    let workflows = list_workflows(vec![file("/c/workflows/sin-meta.js", "console.log(1)")]);
    assert_eq!(workflows[0].name, "sin-meta");
}

#[test]
fn reads_settings_summary() {
    let summary = settings_summary(&parse_json(SETTINGS).unwrap());
    assert_eq!(summary.model.as_deref(), Some("sonnet"));
    assert_eq!(summary.theme.as_deref(), Some("dark"));
    assert_eq!(summary.permissions_allow.len(), 2);
    assert_eq!(summary.permissions_allow, vec!["Bash(git status)".to_string(), "Bash(npm test *)".to_string()]);
    assert_eq!(summary.hooks_events, vec!["SessionEnd".to_string()]);
    assert_eq!(summary.enabled_plugins, vec!["rust-analyzer-lsp@plugins-official".to_string()]);
}

#[test]
fn settings_summary_ignores_values_of_the_wrong_kind() {
    let value = parse_json(r#"{"model": 3, "permissions": {"allow": ["a", 1, "b"]}, "hooks": []}"#).unwrap();
    let summary = settings_summary(&value);
    assert_eq!(summary.model, None);
    assert_eq!(summary.theme, None);
    assert_eq!(summary.permissions_allow, vec!["a".to_string(), "b".to_string()]);
    assert!(summary.hooks_events.is_empty());
    assert!(summary.enabled_plugins.is_empty());
    let empty = settings_summary(&JsonValue::Array(vec![]));
    assert_eq!(empty, cf_core::model::SettingsSummary::default());
}

#[test]
fn missing_directories_return_empty_lists_not_errors() {
    assert!(list_memories(Vec::new()).is_empty());
    assert!(list_skills(Vec::new()).is_empty());
    assert!(list_commands(Vec::new()).is_empty());
    assert!(list_workflows(Vec::new()).is_empty());
}

#[test]
fn read_settings_summary_of_a_missing_or_broken_file() {
    let path = fp("/home/u/.cfg/settings.json");
    assert_eq!(read_settings_summary(&path, None).unwrap(), cf_core::model::SettingsSummary::default());
    match read_settings_summary(&path, Some("{ roto".to_string())) {
        Err(ScanError::Json { path: p, message }) => {
            assert_eq!(p, path);
            assert!(!message.is_empty());
        }
        other => panic!("{other:?}"),
    }
    let s = read_settings_summary(&path, Some(SETTINGS.to_string())).unwrap();
    assert_eq!(s.model.as_deref(), Some("sonnet"));
}
