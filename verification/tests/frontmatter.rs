use cf_core::frontmatter::{parse, FrontmatterDoc};
use cf_core::version;

#[test]
fn version_is_not_empty() {
    assert!(!version().is_empty());
    assert_eq!(version(), "0.1.0");
}

fn check_name_and_description(source: &str, expected_name: Option<&str>, expected_description: Option<&str>) {
    let doc = parse(source);
    assert_eq!(doc.field("name").as_deref(), expected_name);
    assert_eq!(doc.field("description").as_deref(), expected_description);
}

#[test]
fn parses_name_and_description_memoria_con_metadata_anidada() {
    check_name_and_description(
        "---\nname: rust-ui-research\ndescription: \"Investigación\"\nmetadata:\n  type: project\n---\nCuerpo acá.\n",
        Some("rust-ui-research"),
        Some("Investigación"),
    );
}

#[test]
fn parses_name_and_description_skill_simple() {
    check_name_and_description(
        "---\nname: ai-failure-logger\ndescription: Automatiza el registro\n---\n# Título\n",
        Some("ai-failure-logger"),
        Some("Automatiza el registro"),
    );
}

#[test]
fn parses_name_and_description_comando_con_argument_hint() {
    check_name_and_description(
        "---\ndescription: Corre el pipeline\nargument-hint: [repo] | fix <repo> | heavy\n---\nContenido.\n",
        None,
        Some("Corre el pipeline"),
    );
}

#[test]
fn folded_block_scalar_description_joins_lines_with_spaces() {
    let doc = parse(
        "---\nname: design-checker\ndescription: >-\n  Revisa el DISEÑO visual/UX de una pantalla.\n  Es read-only: juzga y prioriza, no edita.\ntools: Bash, Read, Grep, Glob\n---\nBody\n",
    );
    assert_eq!(
        doc.field("description").as_deref(),
        Some("Revisa el DISEÑO visual/UX de una pantalla. Es read-only: juzga y prioriza, no edita.")
    );
    assert_eq!(doc.field("tools").as_deref(), Some("Bash, Read, Grep, Glob"));
}

#[test]
fn literal_block_scalar_preserves_newlines() {
    let doc = parse("---\ndescription: |-\n  linea uno\n  linea dos\n---\nBody\n");
    assert_eq!(doc.field("description").as_deref(), Some("linea uno\nlinea dos"));
}

#[test]
fn leading_utf8_bom_does_not_hide_the_frontmatter() {
    let doc = parse("\u{feff}---\nname: ai-failure-logger\ndescription: Automatiza el registro\n---\nBody\n");
    assert_eq!(doc.field("name").as_deref(), Some("ai-failure-logger"));
    assert_eq!(doc.field("description").as_deref(), Some("Automatiza el registro"));
}

#[test]
fn argument_hint_with_pipes_and_angle_brackets_does_not_break_description() {
    let doc = parse(
        "---\ndescription: Corre el pipeline\nargument-hint: [repo] | fix <repo> | heavy\n---\nContenido.\n",
    );
    assert_eq!(doc.field("description").as_deref(), Some("Corre el pipeline"));
    assert_eq!(doc.field("argument-hint").as_deref(), Some("[repo] | fix <repo> | heavy"));
}

#[test]
fn quoted_argument_hint_strips_the_quotes() {
    let doc = parse("---\ndescription: x\nargument-hint: \"[repo opcional]\"\n---\nBody\n");
    assert_eq!(doc.field("argument-hint").as_deref(), Some("[repo opcional]"));
}

#[test]
fn nested_metadata_type_field() {
    let doc = parse("---\nname: x\nmetadata:\n  type: project\n  originSessionId: abc\n---\nBody\n");
    assert_eq!(doc.field_path(&["metadata", "type"]).as_deref(), Some("project"));
}

#[test]
fn missing_frontmatter_keeps_whole_file_as_body() {
    let doc = parse("Solo texto plano, sin frontmatter.\n");
    assert_eq!(doc.frontmatter_raw, None);
    assert_eq!(doc.body, "Solo texto plano, sin frontmatter.\n");
    assert_eq!(doc.field("name"), None);
}

#[test]
fn unterminated_frontmatter_falls_back_to_plain_body() {
    let source = "---\nname: x\nsin cierre...\n";
    let doc = parse(source);
    assert_eq!(doc.frontmatter_raw, None);
    assert_eq!(doc.body, source);
}

#[test]
fn to_source_roundtrips_a_real_skill_file() {
    let source = "---\nname: ai-failure-logger\ndescription: Automatiza el registro\n---\n# Título\n\nCuerpo.\n";
    let doc = parse(source);
    assert_eq!(doc.to_source(), source);
}

#[test]
fn crlf_is_normalized_before_parsing() {
    let source = "---\r\nname: x\r\n---\r\nCuerpo\r\ncon lineas\r\n";
    let doc = parse(source);
    assert_eq!(doc.field("name").as_deref(), Some("x"));
    assert_eq!(doc.body, "Cuerpo\ncon lineas\n");
}

fn check_idempotent(name: &str, description: &str, body: &str) {
    let source = format!("---\nname: {name}\ndescription: \"{description}\"\n---\n{body}");
    let once = parse(&source);
    let twice = parse(&once.to_source());
    assert_eq!(once, twice);
}

#[test]
fn parse_serialize_parse_is_idempotent() {
    check_idempotent("a", "", "");
    check_idempotent("skill-1", "Una descripción: con dos puntos; y (paréntesis)!", "# Título\n\nCuerpo.\n");
    check_idempotent("x0-y", "   ", "---\nno es cierre\n");
    check_idempotent("z", "a,b.c", "linea sin salto final");
    check_idempotent("abc", "d", "\n\n\n");
    check_idempotent("k", "v", "~ {} | [] \" ' \\ \n");
}

#[test]
fn parse_serialize_parse_is_idempotent_with_crlf_input() {
    let source = "---\r\nname: x\r\ndescription: y\r\n---\r\nCuerpo\r\n";
    let once = parse(source);
    let twice = parse(&once.to_source());
    assert_eq!(once, twice);
}

#[test]
fn to_source_of_a_frontmatter_with_trailing_newlines_drops_them() {
    let doc = cf_core::frontmatter::FrontmatterDoc {
        frontmatter_raw: Some("name: x\n\n".to_string()),
        body: "B".to_string(),
    };
    assert_eq!(doc.to_source(), "---\nname: x\n---\nB");
    let plain = cf_core::frontmatter::FrontmatterDoc { frontmatter_raw: None, body: "solo".to_string() };
    assert_eq!(plain.to_source(), "solo");
}

#[test]
fn field_ignores_indented_lines_and_prefix_matches() {
    let doc = parse("---\nnamex: no\n  name: indentado\nname: 'simple'\n---\n");
    assert_eq!(doc.field("name").as_deref(), Some("simple"));
    assert_eq!(doc.field("namex").as_deref(), Some("no"));
    assert_eq!(doc.field("otro"), None);
}

#[test]
fn field_path_edges() {
    let doc = parse("---\nname: x\nmetadata:\n  type: project\nafter: 1\n---\n");
    assert_eq!(doc.field_path(&[]), None);
    assert_eq!(doc.field_path(&["name"]).as_deref(), Some("x"));
    assert_eq!(doc.field_path(&["metadata", "after"]), None);
    assert_eq!(doc.field_path(&["missing", "type"]), None);
    let plain = parse("sin front matter");
    assert_eq!(plain.field_path(&["metadata", "type"]), None);
}

#[test]
fn block_scalars_keep_inner_blank_lines_and_drop_trailing_ones() {
    let doc = parse("---\ndescription: >\n  uno\n\n  dos\nnext: v\n---\n");
    assert_eq!(doc.field("description").as_deref(), Some("uno  dos"));
    assert_eq!(doc.field("next").as_deref(), Some("v"));
    let lit = parse("---\ndescription: |\n  uno\n\n  dos\n\n---\n");
    assert_eq!(lit.field("description").as_deref(), Some("uno\n\ndos"));
}

#[test]
fn to_source_is_read_back_as_written() {
    let doc = FrontmatterDoc { frontmatter_raw: Some("name: x\n--- no\n\n".to_string()), body: "---\ncuerpo".to_string() };
    let back = parse(&doc.to_source());
    assert_eq!(back.frontmatter_raw.as_deref(), Some("name: x\n--- no"));
    assert_eq!(back.body, "---\ncuerpo");
    let plain = FrontmatterDoc { frontmatter_raw: None, body: "texto".to_string() };
    assert_eq!(plain.to_source(), "texto");
}

/// A small deterministic generator standing in for random inputs.
struct Gen(u64);

impl Gen {
    fn next(&mut self) -> u64 {
        self.0 = self.0.wrapping_mul(6364136223846793005).wrapping_add(1442695040888963407);
        self.0 >> 33
    }

    fn text(&mut self, alphabet: &[char], max: usize) -> String {
        let n = (self.next() as usize) % (max + 1);
        (0..n).map(|_| alphabet[(self.next() as usize) % alphabet.len()]).collect()
    }
}

#[test]
fn parse_serialize_parse_is_idempotent_on_generated_documents() {
    let lower: Vec<char> = ('a'..='z').collect();
    let name_rest: Vec<char> = ('a'..='z').chain('0'..='9').chain(std::iter::once('-')).collect();
    let desc: Vec<char> = ('a'..='z').chain('A'..='Z').chain('0'..='9').chain(" ,.:;!?()_-".chars()).collect();
    let body: Vec<char> = (' '..='~').chain(std::iter::once('\n')).collect();
    let mut g = Gen(0x5eed);
    for _ in 0..500 {
        let name = format!("{}{}", lower[(g.next() as usize) % lower.len()], g.text(&name_rest, 20));
        let description = g.text(&desc, 60);
        let b = g.text(&body, 200);
        let source = format!("---\nname: {name}\ndescription: \"{description}\"\n---\n{b}");
        let once = parse(&source);
        let twice = parse(&once.to_source());
        assert_eq!(once, twice, "{source:?}");
    }
}
