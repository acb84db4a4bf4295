use std::collections::{BTreeMap, BTreeSet};
use std::path::{Component, Path, PathBuf};

use cf_core::boundary::{ensure_within_claude_dir, store_at, AppError};
use cf_core::json::JsonValue;
use cf_core::path::{FsPath, PathPart};
use cf_core::staging::{history_lines, make_id, AppliedChange, StagedChange, StagingError, StagingStore, TargetProbe};

// ---------------------------------------------------------------------------
// A disk in memory that carries out the engine's plans.

fn to_fs(p: &Path) -> FsPath {
    let parts = p
        .components()
        .map(|c| match c {
            Component::Prefix(x) => PathPart::Prefix(x.as_os_str().to_string_lossy().into_owned()),
            Component::RootDir => PathPart::Root,
            Component::CurDir => PathPart::Current,
            Component::ParentDir => PathPart::Parent,
            Component::Normal(n) => PathPart::Normal(n.to_string_lossy().into_owned()),
        })
        .collect();
    FsPath { parts }
}

fn to_std(p: &FsPath) -> PathBuf {
    let mut out = PathBuf::new();
    for part in &p.parts {
        match part {
            PathPart::Prefix(s) | PathPart::Normal(s) => out.push(s),
            PathPart::Root => out.push("/"),
            PathPart::Current => out.push("."),
            PathPart::Parent => out.push(".."),
        }
    }
    out
}

const CONFIG_DIR: &str = "/home/u/.cfg";
const APP_DIR: &str = "/data/app";
const ROOT_DISPLAY: &str = "~/.cfg";

struct Disk {
    config_dir: PathBuf,
    app_dir: PathBuf,
    files: BTreeMap<PathBuf, String>,
    dirs: BTreeSet<PathBuf>,
    drafts: Vec<StagedChange>,
    history_file: Vec<AppliedChange>,
}

impl Disk {
    fn new() -> Disk {
        let mut d = Disk {
            config_dir: PathBuf::from(CONFIG_DIR),
            app_dir: PathBuf::from(APP_DIR),
            files: BTreeMap::new(),
            dirs: BTreeSet::new(),
            drafts: Vec::new(),
            history_file: Vec::new(),
        };
        d.mkdir_all(&PathBuf::from(CONFIG_DIR));
        d.mkdir_all(&PathBuf::from(APP_DIR));
        d
    }

    fn mkdir_all(&mut self, p: &Path) {
        for a in p.ancestors() {
            self.dirs.insert(a.to_path_buf());
        }
    }

    fn write(&mut self, p: &Path, text: &str) {
        assert!(self.dirs.contains(p.parent().unwrap()), "no directory for {}", p.display());
        self.files.insert(p.to_path_buf(), text.to_string());
    }

    fn read(&self, p: &Path) -> Option<String> {
        self.files.get(p).cloned()
    }

    fn text(&self, p: &Path) -> String {
        self.read(p).unwrap()
    }

    fn holds(&self, p: &Path) -> bool {
        self.files.contains_key(p) || self.dirs.contains(p)
    }

    /// What `canonicalize` gives for `p`: every name on the way must exist.
    fn canon(&self, p: &Path) -> Option<PathBuf> {
        let mut out = PathBuf::new();
        for c in p.components() {
            match c {
                Component::ParentDir => {
                    out.pop();
                }
                Component::CurDir => {}
                other => {
                    out.push(other.as_os_str());
                    if !self.holds(&out) {
                        return None;
                    }
                }
            }
        }
        Some(out)
    }

    /// The deepest ancestor of `p` that resolves, resolved, and the
    /// components after it, as written.
    fn split(&self, p: &Path) -> (PathBuf, FsPath) {
        let parts: Vec<Component> = p.components().collect();
        for k in (1..=parts.len()).rev() {
            let prefix: PathBuf = parts[..k].iter().collect();
            if let Some(c) = self.canon(&prefix) {
                let rest: PathBuf = parts[k..].iter().collect();
                return (c, to_fs(&rest));
            }
        }
        panic!("nothing of {} exists", p.display());
    }

    /// The boundary check of a target against the configuration directory.
    fn check(&self, target: &Path) -> Result<(), AppError> {
        let root = to_fs(&self.canon(&self.config_dir).unwrap());
        let (existing, rest) = self.split(target);
        ensure_within_claude_dir(&root, &to_fs(&existing), &rest, ROOT_DISPLAY, &target.display().to_string())
    }

    fn bounded(&self) -> StagingStore {
        store_at(&to_fs(&self.app_dir), &to_fs(&self.config_dir))
    }

    fn unbounded(&self) -> StagingStore {
        StagingStore::new(&to_fs(&self.app_dir))
    }

    fn probe(&self, store: &StagingStore, target: &FsPath) -> TargetProbe {
        let t = to_std(target);
        TargetProbe {
            resolved: to_fs(&self.split(&t).0),
            unresolved: self.split(&t).1,
            resolved_root: store.boundary.as_ref().map(|b| to_fs(&self.canon(&to_std(b)).unwrap())),
            is_file: self.files.contains_key(&t),
            current: self.read(&t),
        }
    }

    fn stage(&mut self, store: &StagingStore, target: &Path, content: &str) -> StagedChange {
        let plan = store.stage(&to_fs(target), content.to_string());
        assert_eq!(to_std(&plan.draft_file), self.app_dir.join("staging").join(format!("{}.json", plan.change.id)));
        self.drafts.push(plan.change.clone());
        plan.change
    }

    fn draft(&self, id: &str) -> Result<StagedChange, StagingError> {
        self.drafts.iter().find(|d| d.id == id).cloned().ok_or_else(|| StagingError::NotFound(id.to_string()))
    }

    fn diff(&self, store: &StagingStore, id: &str) -> Result<String, StagingError> {
        let change = self.draft(id)?;
        let probe = self.probe(store, &change.target_path);
        store.diff(&change, probe.current)
    }

    fn discard(&mut self, store: &StagingStore, id: &str) {
        let draft_file = store.discard(id);
        assert_eq!(to_std(&draft_file), self.app_dir.join("staging").join(format!("{id}.json")));
        self.drafts.retain(|d| d.id != id);
    }

    fn backup(&mut self, path: &FsPath, copies: bool, target: &Path) {
        let b = to_std(path);
        self.mkdir_all(b.parent().unwrap());
        let text = if copies { self.text(target) } else { String::new() };
        self.write(&b, &text);
    }

    fn apply(&mut self, store: &StagingStore, id: &str) -> Result<AppliedChange, StagingError> {
        let change = self.draft(id)?;
        let probe = self.probe(store, &change.target_path);
        let plan = store.apply(&change, probe)?;
        let target = to_std(&change.target_path);
        self.backup(&plan.backup_path, plan.backup_copies_target, &target);
        if let Some(parent) = &plan.parent_dir {
            self.mkdir_all(&to_std(parent));
        }
        self.write(&target, &plan.content);
        self.history_file.push(plan.applied.clone());
        self.drafts.retain(|d| d.id != id);
        Ok(plan.applied)
    }

    fn history(&self) -> Vec<AppliedChange> {
        StagingStore::history(self.history_file.clone())
    }

    fn revert(&mut self, store: &StagingStore, id: &str) -> Result<AppliedChange, StagingError> {
        let history = self.history();
        let i = StagingStore::find_applied(&history, id)?;
        let entry = &history[i];
        let restored = self.text(&to_std(&entry.backup_path));
        let probe = self.probe(store, &entry.target_path);
        let plan = store.revert(entry, probe, restored)?;
        let target = to_std(&entry.target_path);
        self.backup(&plan.backup_path, plan.backup_copies_target, &target);
        self.write(&target, &plan.content);
        self.history_file.push(plan.applied.clone());
        Ok(plan.applied)
    }

    fn list(&self) -> Vec<StagedChange> {
        StagingStore::list(self.drafts.clone())
    }

    /// The command that stages an edit: refuses a target outside the
    /// configuration directory before anything is written.
    fn stage_change(&mut self, target: &Path, content: &str) -> Result<StagedChange, AppError> {
        self.check(target)?;
        let store = self.bounded();
        Ok(self.stage(&store, target, content))
    }
}

// ---------------------------------------------------------------------------
// The engine.

#[test]
fn stage_does_not_touch_the_real_file() {
    let mut d = Disk::new();
    let store = d.unbounded();
    let target = d.config_dir.join("memory.md");
    d.write(&target, "original\n");
    d.stage(&store, &target, "borrador nuevo\n");
    assert_eq!(d.text(&target), "original\n");
}

#[test]
fn discard_removes_the_draft_and_leaves_real_file_untouched() {
    let mut d = Disk::new();
    let store = d.unbounded();
    let target = d.config_dir.join("memory.md");
    d.write(&target, "original\n");
    let change = d.stage(&store, &target, "borrador\n");
    d.discard(&store, &change.id);
    assert!(d.draft(&change.id).is_err());
    assert_eq!(d.text(&target), "original\n");
}

#[test]
fn apply_writes_real_file_backs_up_original_and_clears_draft() {
    let mut d = Disk::new();
    let store = d.unbounded();
    let target = d.config_dir.join("memory.md");
    d.write(&target, "original\n");
    let change = d.stage(&store, &target, "nuevo contenido\n");
    let applied = d.apply(&store, &change.id).unwrap();
    assert_eq!(d.text(&target), "nuevo contenido\n");
    assert_eq!(d.text(&to_std(&applied.backup_path)), "original\n");
    assert!(d.draft(&change.id).is_err(), "el borrador debería haberse limpiado");
}

#[test]
fn apply_on_a_new_file_backs_up_as_empty() {
    let mut d = Disk::new();
    let store = d.unbounded();
    let target = d.config_dir.join("nueva-memoria.md");
    let change = d.stage(&store, &target, "contenido nuevo\n");
    let applied = d.apply(&store, &change.id).unwrap();
    assert_eq!(d.text(&target), "contenido nuevo\n");
    assert_eq!(d.text(&to_std(&applied.backup_path)), "");
}

#[test]
fn revert_restores_the_backup_and_logs_a_new_history_entry() {
    let mut d = Disk::new();
    let store = d.unbounded();
    let target = d.config_dir.join("memory.md");
    d.write(&target, "v1\n");
    let change = d.stage(&store, &target, "v2\n");
    let applied = d.apply(&store, &change.id).unwrap();
    assert_eq!(d.text(&target), "v2\n");
    let reverted = d.revert(&store, &applied.id).unwrap();
    assert_eq!(d.text(&target), "v1\n");
    let history = d.history();
    assert_eq!(history.len(), 2, "aplicar + revertir son dos entradas de historial");
    assert_eq!(history[0].id, reverted.id, "más reciente primero");
}

#[test]
fn diff_reflects_current_disk_state_not_just_the_draft() {
    let mut d = Disk::new();
    let store = d.unbounded();
    let target = d.config_dir.join("memory.md");
    d.write(&target, "linea original\n");
    let change = d.stage(&store, &target, "linea nueva\n");
    d.write(&target, "linea cambiada por fuera\n");
    let diff = d.diff(&store, &change.id).unwrap();
    assert!(diff.contains("linea cambiada por fuera"));
    assert!(diff.contains("linea nueva"));
}

#[test]
fn list_returns_staged_changes_oldest_first() {
    let mut d = Disk::new();
    let store = d.unbounded();
    let a = d.config_dir.join("a.md");
    let b = d.config_dir.join("b.md");
    d.write(&a, "a\n");
    d.write(&b, "b\n");
    d.stage(&store, &a, "a2\n");
    d.stage(&store, &b, "b2\n");
    assert_eq!(d.list().len(), 2);
}

#[test]
fn list_orders_by_creation_time_whatever_order_the_drafts_come_in() {
    let draft = |id: &str, at: &str| StagedChange {
        id: id.to_string(),
        target_path: FsPath { parts: vec![PathPart::Normal(id.to_string())] },
        draft_content: String::new(),
        created_at: at.to_string(),
    };
    let listed = StagingStore::list(vec![
        draft("c", "2024-01-03T00:00:00+00:00"),
        draft("a", "2024-01-01T00:00:00+00:00"),
        draft("b1", "2024-01-02T00:00:00+00:00"),
        draft("b2", "2024-01-02T00:00:00+00:00"),
    ]);
    let ids: Vec<&str> = listed.iter().map(|c| c.id.as_str()).collect();
    assert_eq!(ids, vec!["a", "b1", "b2", "c"]);
}

#[test]
fn diff_of_an_unchanged_draft_is_empty_and_of_a_new_file_adds_every_line() {
    let mut d = Disk::new();
    let store = d.unbounded();
    let same = d.config_dir.join("igual.md");
    d.write(&same, "x\n");
    let c1 = d.stage(&store, &same, "x\n");
    assert_eq!(d.diff(&store, &c1.id).unwrap(), "");
    let fresh = d.config_dir.join("nuevo.md");
    let c2 = d.stage(&store, &fresh, "uno\ndos\n");
    let diff = d.diff(&store, &c2.id).unwrap();
    assert!(diff.contains("+uno\n"));
    assert!(diff.contains("+dos\n"));
    assert!(diff.starts_with("@@ -0,0 +1,2 @@"));
}

#[test]
fn applying_an_unknown_draft_is_not_found() {
    let mut d = Disk::new();
    let store = d.bounded();
    let err = d.apply(&store, "no-existe").unwrap_err();
    assert!(matches!(err, StagingError::NotFound(ref id) if id == "no-existe"));
}

#[test]
fn reverting_an_unknown_entry_is_not_found() {
    let mut d = Disk::new();
    let store = d.bounded();
    let err = d.revert(&store, "no-existe").unwrap_err();
    assert!(matches!(err, StagingError::NotFound(ref id) if id == "no-existe"));
}

#[test]
fn make_id_keeps_alphanumerics_dots_and_dashes() {
    let target = to_fs(Path::new("/home/u/.cfg/mi archivo+raro ñ.md"));
    assert_eq!(make_id("20240101T000000.000000000", &target), "20240101T000000.000000000-mi_archivo_raro_ñ.md");
    let root = to_fs(Path::new("/"));
    assert_eq!(make_id("S", &root), "S-archivo");
}

#[test]
fn staged_ids_are_named_after_the_target_file() {
    let mut d = Disk::new();
    let store = d.unbounded();
    let change = d.stage(&store, &d.config_dir.join("a b.md"), "x");
    assert!(change.id.ends_with("-a_b.md"));
    assert!(!change.created_at.is_empty());
}

#[test]
fn history_lines_skip_blank_lines() {
    assert_eq!(history_lines("a\n\n  \nb\r\n\tc\n"), vec!["a".to_string(), "b".to_string(), "\tc".to_string()]);
    assert!(history_lines("").is_empty());
}

#[test]
fn history_is_most_recent_first() {
    let entry = |id: &str| AppliedChange {
        id: id.to_string(),
        target_path: FsPath { parts: vec![] },
        backup_path: FsPath { parts: vec![] },
        applied_at: String::new(),
    };
    let h = StagingStore::history(vec![entry("1"), entry("2"), entry("3")]);
    let ids: Vec<&str> = h.iter().map(|a| a.id.as_str()).collect();
    assert_eq!(ids, vec!["3", "2", "1"]);
    assert_eq!(StagingStore::find_applied(&h, "2").unwrap(), 1);
}

#[test]
fn store_paths_live_in_the_application_data_directory() {
    let app = to_fs(Path::new("/data/app"));
    let s = StagingStore::new(&app);
    assert_eq!(to_std(&s.staging_dir), PathBuf::from("/data/app/staging"));
    assert_eq!(to_std(&s.backups_dir), PathBuf::from("/data/app/backups"));
    assert_eq!(to_std(&s.history_path), PathBuf::from("/data/app/history.jsonl"));
    assert!(s.boundary.is_none());
    assert_eq!(to_std(&s.change_path("x")), PathBuf::from("/data/app/staging/x.json"));
}

// ---------------------------------------------------------------------------
// The boundary.

#[test]
fn accepts_a_path_inside_claude_dir_even_if_it_does_not_exist_yet() {
    let d = Disk::new();
    let target = d.config_dir.join("skills").join("nueva").join("SKILL.md");
    let r = d.check(&target);
    assert!(r.is_ok());
}

#[test]
fn rejects_a_path_outside_claude_dir() {
    let mut d = Disk::new();
    let outside = d.config_dir.parent().unwrap().join("otro-lado");
    d.mkdir_all(&outside);
    let target = outside.join("archivo.md");
    let r = d.check(&target);
    match r {
        Err(AppError::Path(m)) => {
            assert_eq!(m, format!("fuera de ~/.cfg, rechazado: {}", target.display()))
        }
        other => panic!("{other:?}"),
    }
}

#[test]
fn rejects_a_dotdot_escape_even_though_the_string_starts_with_claude_dir() {
    let mut d = Disk::new();
    let outside = d.config_dir.parent().unwrap().join("otro-lado");
    d.mkdir_all(&outside);
    let target = d.config_dir.join("skills").join("..").join("..").join("otro-lado").join("archivo.md");
    assert!(target.starts_with(&d.config_dir));
    let r = d.check(&target);
    assert!(r.is_err());
}

#[test]
fn a_sibling_whose_name_extends_the_root_is_outside() {
    let root = to_fs(Path::new("/home/u/.cfg"));
    let none = FsPath { parts: vec![] };
    let sibling = to_fs(Path::new("/home/u/.cfg-otro/x.md"));
    assert!(ensure_within_claude_dir(&root, &sibling, &none, "r", "x").is_err());
    assert!(ensure_within_claude_dir(&root, &root, &none, "r", "x").is_ok());
}

// ---------------------------------------------------------------------------
// The commands, with the store bounded by the configuration directory.

#[test]
fn stage_change_does_not_touch_the_real_file_until_apply() {
    let mut d = Disk::new();
    let target = d.config_dir.join("memory.md");
    d.write(&target, "original\n");
    d.stage_change(&target, "borrador nuevo\n").unwrap();
    assert_eq!(
        d.text(&target),
        "original\n",
        "stage_change (comando real) no debe escribir el archivo real"
    );
}

#[test]
fn apply_staged_backs_up_before_writing_and_the_backup_predates_the_new_content() {
    let mut d = Disk::new();
    let target = d.config_dir.join("memory.md");
    d.write(&target, "original\n");
    let staged = d.stage_change(&target, "contenido nuevo\n").unwrap();
    let store = d.bounded();
    let applied = d.apply(&store, &staged.id).unwrap();
    assert_eq!(
        d.text(&to_std(&applied.backup_path)),
        "original\n",
        "el backup debe capturar el estado previo, no el nuevo"
    );
    assert_eq!(d.text(&target), "contenido nuevo\n");
    let history = d.history();
    assert_eq!(history.len(), 1);
    assert_eq!(history[0].backup_path, applied.backup_path);
}

#[test]
fn apply_staged_on_unknown_id_fails_without_touching_anything() {
    let mut d = Disk::new();
    let store = d.bounded();
    let err = d.apply(&store, "no-existe").map_err(AppError::from).unwrap_err();
    assert!(matches!(err, AppError::Staging(StagingError::NotFound(_))));
}

#[test]
fn stage_change_rejects_a_target_outside_claude_dir() {
    let mut d = Disk::new();
    let outside = d.config_dir.parent().unwrap().join("fuera-del-directorio.md");
    d.write(&outside, "no debería poder pisarse\n");
    let err = d.stage_change(&outside, "payload malicioso\n").unwrap_err();
    assert!(matches!(err, AppError::Path(_)));
    assert!(d.list().is_empty());
    assert_eq!(d.text(&outside), "no debería poder pisarse\n");
}

#[test]
fn apply_staged_rejects_a_tampered_draft_pointing_outside_the_boundary() {
    let mut d = Disk::new();
    let outside = d.config_dir.parent().unwrap().join("robado.md");
    let unbounded = d.unbounded();
    let change = d.stage(&unbounded, &outside, "payload\n");
    let store = d.bounded();
    let err = d.apply(&store, &change.id).map_err(AppError::from).unwrap_err();
    assert!(matches!(err, AppError::Staging(StagingError::OutsideBoundary { .. })));
    assert!(!d.holds(&outside), "apply_staged no debió escribir fuera del boundary");
}

#[test]
fn a_corrupted_target_after_apply_is_recoverable_via_revert_from_backup() {
    let mut d = Disk::new();
    let target = d.config_dir.join("settings.json");
    d.write(&target, r#"{"model":"opus"}"#);
    let staged = d.stage_change(&target, r#"{"model":"sonnet"}"#).unwrap();
    let store = d.bounded();
    let applied = d.apply(&store, &staged.id).unwrap();
    d.write(&target, "{ esto quedo a medio escribir");
    assert_ne!(d.text(&target), r#"{"model":"opus"}"#);
    let reverted = d.revert(&store, &applied.id).unwrap();
    assert_eq!(
        d.text(&target),
        r#"{"model":"opus"}"#,
        "revert debe restaurar el estado pre-apply pase lo que pase con el archivo mientras tanto"
    );
    let history = d.history();
    assert_eq!(history.len(), 2, "apply + revert son dos entradas; el revert queda registrado, no es un callejón sin salida");
    assert_eq!(history[0].id, reverted.id, "el revert es la entrada más reciente");
}

#[test]
fn applying_a_plain_file_overwrites_a_concurrent_external_edit_but_it_stays_recoverable_in_the_backup() {
    let mut d = Disk::new();
    let target = d.config_dir.join("memory.md");
    d.write(&target, "original\n");
    let staged = d.stage_change(&target, "editado en la app\n").unwrap();
    d.write(&target, "editado por fuera mientras tanto\n");
    let store = d.bounded();
    let applied = d.apply(&store, &staged.id).unwrap();
    assert_eq!(
        d.text(&target),
        "editado en la app\n",
        "el draft gana: la edición externa NO sobrevive en el archivo aplicado"
    );
    assert_eq!(
        d.text(&to_std(&applied.backup_path)),
        "editado por fuera mientras tanto\n",
        "pero la edición externa perdida queda recuperable en el backup, no se destruye"
    );
}

#[test]
fn applying_settings_json_preserves_a_concurrent_external_edit_the_draft_did_not_touch() {
    let mut d = Disk::new();
    let target = d.config_dir.join("settings.json");
    d.write(&target, r#"{"model":"opus"}"#);
    let staged = d.stage_change(&target, r#"{"model":"sonnet"}"#).unwrap();
    d.write(&target, r#"{"model":"opus","theme":"agregado-por-fuera"}"#);
    let store = d.bounded();
    d.apply(&store, &staged.id).unwrap();
    let written: serde_json::Value = serde_json::from_str(&d.text(&target)).unwrap();
    assert_eq!(written["model"], "sonnet", "la clave que edita el draft gana");
    assert_eq!(
        written["theme"], "agregado-por-fuera",
        "una clave agregada externamente, que el draft no menciona, sobrevive al merge"
    );
}

#[test]
fn discard_staged_leaves_the_real_file_untouched() {
    let mut d = Disk::new();
    let target = d.config_dir.join("memory.md");
    d.write(&target, "original\n");
    let staged = d.stage_change(&target, "borrador\n").unwrap();
    let store = d.bounded();
    d.discard(&store, &staged.id);
    assert_eq!(d.text(&target), "original\n");
    assert!(d.list().is_empty());
}

// ---------------------------------------------------------------------------
// JSON targets.

#[test]
fn applying_malformed_settings_json_fails_closed_and_leaves_the_file_intact() {
    let mut d = Disk::new();
    let target = d.config_dir.join("settings.json");
    d.write(&target, r#"{"model":"opus"}"#);
    let staged = d.stage_change(&target, "{ no es json").unwrap();
    let store = d.bounded();
    let err = d.apply(&store, &staged.id).unwrap_err();
    assert!(matches!(err, StagingError::Serde(_)));
    assert_eq!(d.text(&target), r#"{"model":"opus"}"#);
    assert!(d.history().is_empty());
    assert!(d.draft(&staged.id).is_ok(), "the draft stays for the user to fix");
    assert!(matches!(d.diff(&store, &staged.id), Err(StagingError::Serde(_))));
}

#[test]
fn a_json_target_that_is_not_json_refuses_the_merge() {
    let mut d = Disk::new();
    let target = d.config_dir.join("settings.json");
    d.write(&target, "{ roto");
    let staged = d.stage_change(&target, r#"{"model":"sonnet"}"#).unwrap();
    let store = d.bounded();
    assert!(matches!(d.apply(&store, &staged.id), Err(StagingError::Serde(_))));
    assert_eq!(d.text(&target), "{ roto");
}

#[test]
fn a_new_or_blank_json_target_gets_the_draft_pretty_printed() {
    let mut d = Disk::new();
    let fresh = d.config_dir.join("nuevo.json");
    let staged = d.stage_change(&fresh, r#"{"b":1,"a":[true,null,"x"]}"#).unwrap();
    let store = d.bounded();
    d.apply(&store, &staged.id).unwrap();
    assert_eq!(
        d.text(&fresh),
        "{\n  \"a\": [\n    true,\n    null,\n    \"x\"\n  ],\n  \"b\": 1\n}"
    );
    let blank = d.config_dir.join("blanco.json");
    d.write(&blank, "  \n");
    let staged = d.stage_change(&blank, r#"{"k":{}}"#).unwrap();
    d.apply(&store, &staged.id).unwrap();
    assert_eq!(d.text(&blank), "{\n  \"k\": {}\n}");
}

#[test]
fn nested_objects_merge_key_by_key_and_other_values_replace() {
    let mut d = Disk::new();
    let target = d.config_dir.join("settings.json");
    d.write(&target, r#"{"permissions":{"allow":["a"],"deny":["x"]},"hooks":{"A":1},"model":"opus"}"#);
    let staged = d
        .stage_change(&target, r#"{"permissions":{"allow":["b"]},"hooks":"ninguno","extra":null}"#)
        .unwrap();
    let store = d.bounded();
    d.apply(&store, &staged.id).unwrap();
    let written: serde_json::Value = serde_json::from_str(&d.text(&target)).unwrap();
    let expected: serde_json::Value = serde_json::from_str(
        r#"{"extra":null,"hooks":"ninguno","model":"opus","permissions":{"allow":["b"],"deny":["x"]}}"#,
    )
    .unwrap();
    assert_eq!(written, expected);
    assert_eq!(
        d.text(&target),
        serde_json::to_string_pretty(&expected).unwrap()
    );
}

#[test]
fn strings_are_written_as_serde_json_writes_them() {
    let v = JsonValue::Object(vec![(
        "k\"\\".to_string(),
        JsonValue::Str("línea\n\ttab \u{1} \u{7f} fin".to_string()),
    )]);
    let mine = cf_core::json::to_string_pretty(v).unwrap();
    let mut map = serde_json::Map::new();
    map.insert("k\"\\".to_string(), serde_json::Value::String("línea\n\ttab \u{1} \u{7f} fin".to_string()));
    assert_eq!(mine, serde_json::to_string_pretty(&serde_json::Value::Object(map)).unwrap());
}

#[test]
fn writing_collects_object_entries_into_key_order() {
    let v = JsonValue::Object(vec![
        ("b".to_string(), JsonValue::Number(serde_json::Number::from(2))),
        ("a".to_string(), JsonValue::Bool(true)),
        ("c".to_string(), JsonValue::Array(vec![JsonValue::Null])),
    ]);
    assert_eq!(
        cf_core::json::to_string_pretty(v).unwrap(),
        "{\n  \"a\": true,\n  \"b\": 2,\n  \"c\": [\n    null\n  ]\n}"
    );
}

#[test]
fn parse_json_reads_objects_in_key_order_and_reports_errors() {
    let v = cf_core::json::parse_json(r#"{"z": [1, -2.5, "s"], "a": {"n": null}}"#).unwrap();
    match &v {
        JsonValue::Object(es) => {
            let keys: Vec<&str> = es.iter().map(|(k, _)| k.as_str()).collect();
            assert_eq!(keys, vec!["a", "z"]);
        }
        other => panic!("{other:?}"),
    }
    let err = cf_core::json::parse_json("{ roto").unwrap_err();
    assert_eq!(err, serde_json::from_str::<serde_json::Value>("{ roto").unwrap_err().to_string());
}

#[test]
fn merge_of_a_non_object_patch_replaces_the_base() {
    let base = JsonValue::Object(vec![("a".to_string(), JsonValue::Number(serde_json::Number::from(1)))]);
    let patch = JsonValue::Array(vec![JsonValue::Bool(false)]);
    assert_eq!(cf_core::json::merge(base, patch.duplicate()), patch);
    let base = JsonValue::Str("s".to_string());
    let patch = JsonValue::Object(vec![("z".to_string(), JsonValue::Null)]);
    assert_eq!(cf_core::json::merge(base, patch.duplicate()), patch);
}

#[test]
fn applying_settings_json_preserves_keys_the_draft_did_not_mention() {
    let mut d = Disk::new();
    let store = d.unbounded();
    let target = d.config_dir.join("settings.json");
    d.write(&target, r#"{"model":"opus","theme":"dark","hooks":{"SessionEnd":[]}}"#);
    let change = d.stage(&store, &target, r#"{"model":"sonnet"}"#);
    d.apply(&store, &change.id).unwrap();
    let written: serde_json::Value = serde_json::from_str(&d.text(&target)).unwrap();
    assert_eq!(written["model"], "sonnet");
    assert_eq!(written["theme"], "dark");
    assert_eq!(written["hooks"]["SessionEnd"], serde_json::Value::Array(vec![]));
}

#[test]
fn diff_of_settings_json_matches_the_merged_content_that_apply_writes() {
    let mut d = Disk::new();
    let store = d.unbounded();
    let target = d.config_dir.join("settings.json");
    d.write(&target, "{\n  \"model\": \"opus\",\n  \"theme\": \"dark\"\n}");
    let change = d.stage(&store, &target, r#"{"model":"sonnet"}"#);
    let diff = d.diff(&store, &change.id).unwrap();
    assert!(diff.contains("-  \"model\": \"opus\",\n"));
    assert!(diff.contains("+  \"model\": \"sonnet\",\n"));
    assert!(diff.contains(" \"theme\": \"dark\""), "the merged key stays as context");
    d.apply(&store, &change.id).unwrap();
    assert_eq!(d.text(&target), "{\n  \"model\": \"sonnet\",\n  \"theme\": \"dark\"\n}");
}

#[test]
fn apply_rejects_a_target_outside_the_boundary() {
    let mut d = Disk::new();
    let outside = d.config_dir.parent().unwrap().join("fuera.md");
    let unbounded = d.unbounded();
    let change = d.stage(&unbounded, &outside, "x\n");
    let store = d.bounded();
    match d.apply(&store, &change.id) {
        Err(StagingError::OutsideBoundary { target, boundary }) => {
            assert_eq!(to_std(&target), outside);
            assert_eq!(to_std(&boundary), d.config_dir);
        }
        other => panic!("{other:?}"),
    }
    assert!(!d.holds(&outside));
    assert!(d.history().is_empty());
}

#[test]
fn revert_rejects_a_target_outside_the_boundary() {
    let mut d = Disk::new();
    let outside = d.config_dir.parent().unwrap().join("fuera.md");
    d.write(&outside, "antes\n");
    let unbounded = d.unbounded();
    let change = d.stage(&unbounded, &outside, "despues\n");
    let applied = d.apply(&unbounded, &change.id).unwrap();
    let store = d.bounded();
    assert!(matches!(d.revert(&store, &applied.id), Err(StagingError::OutsideBoundary { .. })));
    assert_eq!(d.text(&outside), "despues\n");
    assert_eq!(d.history().len(), 1);
}

#[test]
fn ensure_within_rejects_escapes_and_accepts_inside() {
    let d = Disk::new();
    let inside = d.config_dir.join("skills").join("a").join("SKILL.md");
    assert!(d.check(&inside).is_ok());
    let escape = d.config_dir.join("..").join("x.md");
    assert!(d.check(&escape).is_err());
    let back_inside = d.config_dir.join("nueva").join("..").join("skills").join("x.md");
    assert!(d.check(&back_inside).is_ok());
}

#[test]
fn a_revert_backs_up_the_text_it_replaces() {
    let mut d = Disk::new();
    let store = d.unbounded();
    let target = d.config_dir.join("memory.md");
    d.write(&target, "v1\n");
    let change = d.stage(&store, &target, "v2\n");
    let applied = d.apply(&store, &change.id).unwrap();
    d.write(&target, "v3 editado a mano\n");
    let reverted = d.revert(&store, &applied.id).unwrap();
    assert_eq!(d.text(&target), "v1\n");
    assert_eq!(d.text(&to_std(&reverted.backup_path)), "v3 editado a mano\n");
    assert_eq!(reverted.target_path, applied.target_path);
    let again = d.revert(&store, &reverted.id).unwrap();
    assert_eq!(d.text(&target), "v3 editado a mano\n");
    assert_eq!(d.history()[0].id, again.id);
}

#[test]
fn a_duplicated_value_is_equal() {
    let v = cf_core::json::parse_json(r#"{"a": [1, 2.5, -3], "b": {"c": "d"}, "e": false, "f": null}"#).unwrap();
    assert_eq!(v.duplicate(), v);
}

#[test]
fn nested_numbers_survive_a_merge() {
    let base = cf_core::json::parse_json(r#"{"limits": {"max": 10, "min": 1}}"#).unwrap();
    let patch = cf_core::json::parse_json(r#"{"limits": {"max": 20}}"#).unwrap();
    let merged = cf_core::json::merge(base, patch);
    assert_eq!(cf_core::json::to_string_pretty(merged).unwrap(), "{\n  \"limits\": {\n    \"max\": 20,\n    \"min\": 1\n  }\n}");
}

#[test]
fn a_dotdot_after_a_missing_folder_cannot_escape() {
    let mut d = Disk::new();
    let outside = d.config_dir.parent().unwrap().join("otro-lado");
    d.mkdir_all(&outside);
    let target = d.config_dir.join("missing").join("..").join("..").join("otro-lado").join("x.md");
    assert_eq!(d.split(&target).0, d.config_dir);
    assert!(matches!(d.check(&target), Err(AppError::Path(_))));
    assert!(matches!(d.stage_change(&target, "payload\n"), Err(AppError::Path(_))));
    let unbounded = d.unbounded();
    let change = d.stage(&unbounded, &target, "payload\n");
    let store = d.bounded();
    assert!(matches!(d.apply(&store, &change.id), Err(StagingError::OutsideBoundary { .. })));
    assert!(!d.holds(&outside.join("x.md")));
}

#[test]
fn resolving_the_missing_part_climbs_back_through_names_only() {
    let base = to_fs(Path::new("/home/u/.cfg"));
    let tail = to_fs(Path::new("a/./../../../../x"));
    assert_eq!(cf_core::path::resolve_tail(&base, &tail), to_fs(Path::new("/x")));
    let tail = to_fs(Path::new("a/b/../c"));
    assert_eq!(cf_core::path::resolve_tail(&base, &tail), to_fs(Path::new("/home/u/.cfg/a/c")));
}

fn is_stamp(s: &str) -> bool {
    let c: Vec<char> = s.chars().collect();
    let n = c.len();
    let digits = |r: std::ops::Range<usize>| c[r].iter().all(|x| x.is_ascii_digit());
    n >= 25 && digits(0..n - 21) && digits(n - 21..n - 17) && c[n - 17] == 'T' && digits(n - 16..n - 10) && c[n - 10] == '.' && digits(n - 9..n)
}

#[test]
fn stamps_and_times_have_their_fixed_shape() {
    let mut d = Disk::new();
    let store = d.unbounded();
    let target = d.config_dir.join("nota.md");
    let change = d.stage(&store, &target, "x\n");
    let stamp = change.id.strip_suffix("-nota.md").unwrap();
    assert!(is_stamp(stamp), "{stamp}");
    assert!(change.created_at.ends_with("+00:00"), "{}", change.created_at);
    assert_eq!(&change.created_at[4..5], "-");
    assert_eq!(&change.created_at[10..11], "T");
    let applied = d.apply(&store, &change.id).unwrap();
    assert!(applied.applied_at.ends_with("+00:00"));
    let backup = to_std(&applied.backup_path);
    let name = backup.file_name().unwrap().to_str().unwrap();
    assert!(is_stamp(name.strip_suffix("-nota.md").unwrap()), "{name}");
}
