//! Markdown documents with an optional front-matter block (memories, skills,
//! commands and agents). The front matter is kept as raw text, so that a
//! parse/serialize cycle never loses fields this crate does not know about;
//! single fields are read by a line scanner, not by a strict YAML parser.

use vstd::prelude::*;

use crate::text::{
    chars_eq, from_chars, has_prefix, join, join_vec, lines, lines_vec, prefix_at, slice_to_vec,
    to_chars, trim, trim_end, trim_end_newlines, trim_end_newlines_vec, trim_end_vec, trim_start,
    trim_start_vec, trim_vec, views,
};

verus! {

/// A document split into its raw front matter (when there is one) and body.
#[derive(Debug, Clone, PartialEq, Eq)]
pub struct FrontmatterDoc {
    pub frontmatter_raw: Option<String>,
    pub body: String,
}

/// The mathematical content of a [`FrontmatterDoc`].
pub struct DocView {
    pub frontmatter_raw: Option<Seq<char>>,
    pub body: Seq<char>,
}

impl View for FrontmatterDoc {
    type V = DocView;

    open spec fn view(&self) -> DocView {
        DocView {
            frontmatter_raw: match self.frontmatter_raw {
                Some(s) => Some(s@),
                None => None,
            },
            body: self.body@,
        }
    }
}

// ---------------------------------------------------------------------------
// Specification of parsing.

pub open spec fn open_delim() -> Seq<char> {
    seq!['-', '-', '-', '\n']
}

pub open spec fn dashes() -> Seq<char> {
    seq!['-', '-', '-']
}

/// The text without one leading UTF-8 byte-order mark.
pub open spec fn strip_bom(s: Seq<char>) -> Seq<char> {
    if s.len() > 0 && s[0] == '\u{feff}' {
        s.drop_first()
    } else {
        s
    }
}

/// `replace("\r\n", "\n")` on `s[i..]`: matches are taken left to right and
/// never overlap.
pub open spec fn crlf_from(s: Seq<char>, i: int) -> Seq<char>
    decreases s.len() - i,
{
    if i >= s.len() {
        seq![]
    } else if s[i] == '\r' && i + 1 < s.len() && s[i + 1] == '\n' {
        seq!['\n'] + crlf_from(s, i + 2)
    } else {
        seq![s[i]] + crlf_from(s, i + 1)
    }
}

pub open spec fn normalize(s: Seq<char>) -> Seq<char> {
    crlf_from(s, 0)
}

/// Offset of the first line of `s[i..]` (the current line starting at
/// `start`) that is exactly `---`.
pub open spec fn closing_acc(s: Seq<char>, i: int, start: int) -> Option<int>
    decreases s.len() - i,
{
    if i >= s.len() {
        if start < s.len() && s.subrange(start, s.len() as int) == dashes() {
            Some(start)
        } else {
            None
        }
    } else if s[i] == '\n' {
        if s.subrange(start, i) == dashes() {
            Some(start)
        } else {
            closing_acc(s, i + 1, i + 1)
        }
    } else {
        closing_acc(s, i + 1, start)
    }
}

/// Offset of the closing `---` line in the text after the opening line.
pub open spec fn closing(rest: Seq<char>) -> Option<int> {
    closing_acc(rest, 0, 0)
}

/// The body that follows a closing delimiter line.
pub open spec fn after_delim(after: Seq<char>) -> Seq<char> {
    if has_prefix(after, open_delim()) {
        after.skip(4)
    } else {
        after.skip(3)
    }
}

/// What [`parse`] returns for `source`.
pub open spec fn parse_spec(source: Seq<char>) -> DocView {
    let n = normalize(strip_bom(source));
    if has_prefix(n, open_delim()) {
        let rest = n.skip(4);
        match closing(rest) {
            Some(e) => DocView {
                frontmatter_raw: Some(trim_end_newlines(rest.take(e))),
                body: after_delim(rest.skip(e)),
            },
            None => DocView { frontmatter_raw: None, body: n },
        }
    } else {
        DocView { frontmatter_raw: None, body: n }
    }
}

/// What [`FrontmatterDoc::to_source`] returns.
pub open spec fn to_source_spec(d: DocView) -> Seq<char> {
    match d.frontmatter_raw {
        Some(fm) => open_delim() + trim_end_newlines(fm) + seq!['\n', '-', '-', '-', '\n']
            + d.body,
        None => d.body,
    }
}

// ---------------------------------------------------------------------------
// Specification of field lookup.

/// A line that starts with a space or a tab.
pub open spec fn indented(l: Seq<char>) -> bool {
    l.len() > 0 && (l[0] == ' ' || l[0] == '\t')
}

/// A line of the form `key:...`.
pub open spec fn is_key_line(l: Seq<char>, key: Seq<char>) -> bool {
    key.len() < l.len() && l.take(key.len() as int) == key && l[key.len() as int] == ':'
}

/// The trimmed lines of a block scalar starting at line `k`: blank lines and
/// indented lines, up to the first other line.
pub open spec fn block_items(ls: Seq<Seq<char>>, k: int) -> Seq<Seq<char>>
    decreases ls.len() - k,
{
    if k < 0 || k >= ls.len() {
        seq![]
    } else if trim(ls[k]).len() == 0 || indented(ls[k]) {
        seq![trim(ls[k])] + block_items(ls, k + 1)
    } else {
        seq![]
    }
}

pub open spec fn drop_trailing_empty(items: Seq<Seq<char>>) -> Seq<Seq<char>>
    decreases items.len(),
{
    if items.len() > 0 && items.last().len() == 0 {
        drop_trailing_empty(items.drop_last())
    } else {
        items
    }
}

/// A folded (`sep` = space) or literal (`sep` = newline) block scalar.
pub open spec fn block_value(ls: Seq<Seq<char>>, k: int, sep: Seq<char>) -> Seq<char> {
    join(drop_trailing_empty(block_items(ls, k)), sep)
}

/// A value without one pair of surrounding double or single quotes.
pub open spec fn strip_quotes(v: Seq<char>) -> Seq<char> {
    if v.len() >= 2 && ((v[0] == '"' && v.last() == '"') || (v[0] == '\'' && v.last() == '\'')) {
        v.subrange(1, v.len() - 1)
    } else {
        v
    }
}

/// The value of the key line `ls[k]`.
pub open spec fn key_value(ls: Seq<Seq<char>>, k: int, key: Seq<char>) -> Seq<char> {
    let v = trim(ls[k].skip(key.len() + 1int));
    if v.len() > 0 && v[0] == '>' {
        block_value(ls, k + 1, seq![' '])
    } else if v.len() > 0 && v[0] == '|' {
        block_value(ls, k + 1, seq!['\n'])
    } else {
        strip_quotes(v)
    }
}

pub open spec fn tlv_from(ls: Seq<Seq<char>>, key: Seq<char>, k: int) -> Option<Seq<char>>
    decreases ls.len() - k,
{
    if k < 0 || k >= ls.len() {
        None
    } else if !indented(ls[k]) && is_key_line(ls[k], key) {
        Some(key_value(ls, k, key))
    } else {
        tlv_from(ls, key, k + 1)
    }
}

/// The value of the first unindented `key:` line of `text`.
pub open spec fn top_level_value(text: Seq<char>, key: Seq<char>) -> Option<Seq<char>> {
    tlv_from(lines(text), key, 0)
}

pub open spec fn is_parent_line(l: Seq<char>, parent: Seq<char>) -> bool {
    !indented(l) && trim_end(l) == parent.push(':')
}

pub open spec fn parent_from(ls: Seq<Seq<char>>, parent: Seq<char>, k: int) -> Option<int>
    decreases ls.len() - k,
{
    if k < 0 || k >= ls.len() {
        None
    } else if is_parent_line(ls[k], parent) {
        Some(k)
    } else {
        parent_from(ls, parent, k + 1)
    }
}

/// The indented lines from `k` on, without their indentation.
pub open spec fn indented_run(ls: Seq<Seq<char>>, k: int) -> Seq<Seq<char>>
    decreases ls.len() - k,
{
    if k < 0 || k >= ls.len() {
        seq![]
    } else if indented(ls[k]) {
        seq![trim_start(ls[k])] + indented_run(ls, k + 1)
    } else {
        seq![]
    }
}

/// The block indented under the first unindented `parent:` line.
pub open spec fn nested_block(text: Seq<char>, parent: Seq<char>) -> Option<Seq<char>> {
    let ls = lines(text);
    match parent_from(ls, parent, 0) {
        None => None,
        Some(k) => {
            let r = indented_run(ls, k + 1);
            if r.len() == 0 {
                None
            } else {
                Some(join(r, seq!['\n']))
            }
        },
    }
}

/// What [`FrontmatterDoc::field`] returns.
pub open spec fn field_spec(d: DocView, key: Seq<char>) -> Option<Seq<char>> {
    match d.frontmatter_raw {
        None => None,
        Some(fm) => top_level_value(fm, key),
    }
}

/// What [`FrontmatterDoc::field_path`] returns.
pub open spec fn field_path_spec(d: DocView, path: Seq<Seq<char>>) -> Option<Seq<char>> {
    match d.frontmatter_raw {
        None => None,
        Some(fm) => if path.len() == 0 {
            None
        } else if path.len() == 1 {
            top_level_value(fm, path[0])
        } else {
            match nested_block(fm, path[0]) {
                None => None,
                Some(block) => top_level_value(block, path[1]),
            }
        },
    }
}

pub open spec fn opt_view(o: Option<String>) -> Option<Seq<char>> {
    match o {
        Some(s) => Some(s@),
        None => None,
    }
}

// ---------------------------------------------------------------------------
// Implementation.

impl FrontmatterDoc {
    /// The file as it should be written back to disk.
    pub fn to_source(&self) -> (s: String)
        ensures
            s@ == to_source_spec(self@),
    {
        match &self.frontmatter_raw {
            Some(fm) => {
                let fmc = to_chars(fm.as_str());
                let trimmed = trim_end_newlines_vec(&fmc);
                let mut out = String::new();
                out.append("---\n");
                let t = from_chars(&trimmed);
                out.append(t.as_str());
                out.append("\n---\n");
                out.append(self.body.as_str());
                proof {
                    reveal_strlit("---\n");
                    reveal_strlit("\n---\n");
                    assert(out@ =~= to_source_spec(self@));
                }
                out
            },
            None => self.body.clone(),
        }
    }

    /// The top-level field `key` of the front matter (`name: foo` gives `foo`).
    pub fn field(&self, key: &str) -> (r: Option<String>)
        ensures
            opt_view(r) == field_spec(self@, key@),
    {
        match &self.frontmatter_raw {
            None => None,
            Some(fm) => {
                let fmc = to_chars(fm.as_str());
                let keyc = to_chars(key);
                match top_level_value_vec(&fmc, &keyc) {
                    Some(v) => Some(from_chars(&v)),
                    None => None,
                }
            },
        }
    }

    /// Like [`field`](Self::field), one level deep: `["metadata", "type"]`
    /// reads `type` inside the block under `metadata:`.
    pub fn field_path(&self, path: &[&str]) -> (r: Option<String>)
        ensures
            opt_view(r) == field_path_spec(self@, path@.map_values(|p: &str| p@)),
    {
        let ghost pv = path@.map_values(|p: &str| p@);
        match &self.frontmatter_raw {
            None => None,
            Some(fm) => {
                let fmc = to_chars(fm.as_str());
                if path.len() == 0 {
                    None
                } else if path.len() == 1 {
                    let keyc = to_chars(path[0]);
                    assert(keyc@ == pv[0]);
                    match top_level_value_vec(&fmc, &keyc) {
                        Some(v) => Some(from_chars(&v)),
                        None => None,
                    }
                } else {
                    let parentc = to_chars(path[0]);
                    let keyc = to_chars(path[1]);
                    assert(parentc@ == pv[0]);
                    assert(keyc@ == pv[1]);
                    match nested_block_vec(&fmc, &parentc) {
                        None => None,
                        Some(block) => match top_level_value_vec(&block, &keyc) {
                            Some(v) => Some(from_chars(&v)),
                            None => None,
                        },
                    }
                }
            },
        }
    }
}

/// `replace("\r\n", "\n")`.
fn normalize_vec(s: &[char]) -> (r: Vec<char>)
    ensures
        r@ == normalize(s@),
{
    let mut r: Vec<char> = Vec::new();
    let mut i: usize = 0;
    while i < s.len()
        invariant
            i <= s@.len(),
            r@ + crlf_from(s@, i as int) == normalize(s@),
        decreases s@.len() - i,
    {
        let ghost r0 = r@;
        if s[i] == '\r' && i + 1 < s.len() && s[i + 1] == '\n' {
            r.push('\n');
            assert(r@ + crlf_from(s@, i + 2) =~= r0 + (seq!['\n'] + crlf_from(s@, i + 2)));
            i = i + 2;
        } else {
            r.push(s[i]);
            assert(r@ + crlf_from(s@, i + 1) =~= r0 + (seq![s@[i as int]] + crlf_from(
                s@,
                i + 1,
            )));
            i = i + 1;
        }
    }
    assert(r@ + crlf_from(s@, i as int) =~= r@);
    r
}

fn is_dashes(s: &[char], lo: usize, hi: usize) -> (b: bool)
    requires
        lo <= hi <= s@.len(),
    ensures
        b == (s@.subrange(lo as int, hi as int) == dashes()),
{
    let ghost sub = s@.subrange(lo as int, hi as int);
    assert(dashes().len() == 3 && dashes()[0] == '-' && dashes()[1] == '-' && dashes()[2] == '-');
    if hi - lo == 3 && s[lo] == '-' && s[lo + 1] == '-' && s[lo + 2] == '-' {
        assert(sub =~= dashes());
        true
    } else {
        if hi - lo == 3 {
            assert(sub[0] == s@[lo as int] && sub[1] == s@[lo + 1] && sub[2] == s@[lo + 2]);
        }
        assert(sub != dashes());
        false
    }
}

proof fn lemma_closing_bounds(s: Seq<char>, i: int, start: int)
    requires
        0 <= start <= i <= s.len(),
    ensures
        closing_acc(s, i, start) matches Some(e) ==> start <= e && e + 3 <= s.len()
            && s.subrange(e, e + 3) == dashes(),
    decreases s.len() - i,
{
    assert(dashes().len() == 3);
    if i >= s.len() {
        if start < s.len() && s.subrange(start, s.len() as int) == dashes() {
            assert(s.subrange(start, s.len() as int).len() == 3);
        }
    } else if s[i] == '\n' {
        if s.subrange(start, i) == dashes() {
            assert(s.subrange(start, i).len() == 3);
        } else {
            lemma_closing_bounds(s, i + 1, i + 1);
        }
    } else {
        lemma_closing_bounds(s, i + 1, start);
    }
}

fn closing_vec(s: &[char]) -> (r: Option<usize>)
    ensures
        r matches Some(e) ==> closing(s@) == Some(e as int) && e + 3 <= s@.len()
            && s@.subrange(e as int, e + 3) == dashes(),
        r is None ==> closing(s@) is None,
{
    proof {
        lemma_closing_bounds(s@, 0, 0);
    }
    let mut start: usize = 0;
    let mut i: usize = 0;
    while i < s.len()
        invariant
            start <= i <= s@.len(),
            closing_acc(s@, i as int, start as int) == closing(s@),
        decreases s@.len() - i,
    {
        if s[i] == '\n' {
            if is_dashes(s, start, i) {
                assert(closing_acc(s@, i as int, start as int) == Some(start as int));
                proof {
                    lemma_closing_bounds(s@, 0, 0);
                }
                return Some(start);
            }
            start = i + 1;
        }
        i = i + 1;
    }
    if start < s.len() && is_dashes(s, start, s.len()) {
        Some(start)
    } else {
        None
    }
}

/// Parses a document. CRLF is normalized to LF and one leading UTF-8 BOM is
/// dropped; a front matter is a first line `---` closed by a later line
/// `---`, and without the closing line the whole text is the body.
pub fn parse(source: &str) -> (d: FrontmatterDoc)
    ensures
        d@ == parse_spec(source@),
{
    let chars = to_chars(source);
    let from: usize = if chars.len() > 0 && chars[0] == '\u{feff}' {
        1
    } else {
        0
    };
    let no_bom = slice_to_vec(&chars, from, chars.len());
    assert(no_bom@ == strip_bom(source@)) by {
        if from == 1 {
            assert(no_bom@ =~= source@.drop_first());
        } else {
            assert(no_bom@ =~= source@);
        }
    }
    let n = normalize_vec(&no_bom);
    let open: [char; 4] = ['-', '-', '-', '\n'];
    let opens = prefix_at(&n, 0, &open);
    assert(open@ =~= open_delim());
    assert(n@.skip(0) =~= n@);
    if !opens {
        return FrontmatterDoc { frontmatter_raw: None, body: from_chars(&n) };
    }
    let rest = slice_to_vec(&n, 4, n.len());
    assert(rest@ =~= n@.skip(4));
    match closing_vec(&rest) {
        None => FrontmatterDoc { frontmatter_raw: None, body: from_chars(&n) },
        Some(e) => {
            let head = slice_to_vec(&rest, 0, e);
            assert(head@ =~= rest@.take(e as int));
            let fm = trim_end_newlines_vec(&head);
            let after = slice_to_vec(&rest, e, rest.len());
            assert(after@ =~= rest@.skip(e as int));
            assert(after@.skip(0) =~= after@);
            let body = if prefix_at(&after, 0, &open) {
                let b = slice_to_vec(&after, 4, after.len());
                assert(b@ =~= after@.skip(4));
                b
            } else {
                let b = slice_to_vec(&after, 3, after.len());
                assert(b@ =~= after@.skip(3));
                b
            };
            FrontmatterDoc { frontmatter_raw: Some(from_chars(&fm)), body: from_chars(&body) }
        },
    }
}

/// The block scalar whose lines start at `k`, joined with `sep`.
fn block_value_vec(ls: &Vec<Vec<char>>, k: usize, sep: &[char]) -> (r: Vec<char>)
    requires
        k <= ls@.len(),
    ensures
        r@ == block_value(views(ls@), k as int, sep@),
{
    let ghost lv = views(ls@);
    let mut items: Vec<Vec<char>> = Vec::new();
    let mut j = k;
    while j < ls.len()
        invariant
            lv == views(ls@),
            k <= j <= ls@.len(),
            views(items@) + block_items(lv, j as int) == block_items(lv, k as int),
        ensures
            views(items@) == block_items(lv, k as int),
        decreases ls@.len() - j,
    {
        let line = &ls[j];
        assert(line@ == lv[j as int]);
        let t = trim_vec(line);
        let ind = line.len() > 0 && (line[0] == ' ' || line[0] == '\t');
        if t.len() == 0 || ind {
            let ghost before = views(items@);
            items.push(t);
            assert(views(items@) =~= before.push(t@));
            assert(views(items@) + block_items(lv, j + 1) =~= before + (seq![t@] + block_items(
                lv,
                j + 1,
            )));
            j = j + 1;
        } else {
            assert(block_items(lv, j as int) =~= Seq::<Seq<char>>::empty());
            assert(views(items@) =~= views(items@) + block_items(lv, j as int));
            break ;
        }
    }
    let ghost all = block_items(lv, k as int);
    assert(views(items@) == all);
    while items.len() > 0 && items[items.len() - 1].len() == 0
        invariant
            drop_trailing_empty(views(items@)) == drop_trailing_empty(all),
        decreases items@.len(),
    {
        let ghost before = views(items@);
        items.pop();
        assert(views(items@) =~= before.drop_last());
    }
    assert(drop_trailing_empty(views(items@)) == views(items@));
    join_vec(&items, sep)
}

fn strip_quotes_vec(v: Vec<char>) -> (r: Vec<char>)
    ensures
        r@ == strip_quotes(v@),
{
    let n = v.len();
    if n >= 2 && ((v[0] == '"' && v[n - 1] == '"') || (v[0] == '\'' && v[n - 1] == '\'')) {
        slice_to_vec(&v, 1, n - 1)
    } else {
        v
    }
}

/// The value of the first unindented `key:` line of `text`.
fn top_level_value_vec(text: &[char], key: &[char]) -> (r: Option<Vec<char>>)
    ensures
        match r {
            Some(v) => top_level_value(text@, key@) == Some(v@),
            None => top_level_value(text@, key@) is None,
        },
{
    let ls = lines_vec(text);
    let ghost lv = views(ls@);
    let mut k: usize = 0;
    while k < ls.len()
        invariant
            lv == views(ls@),
            lv == lines(text@),
            k <= ls@.len(),
            tlv_from(lv, key@, k as int) == top_level_value(text@, key@),
        decreases ls@.len() - k,
    {
        let line = &ls[k];
        assert(line@ == lv[k as int]);
        let ind = line.len() > 0 && (line[0] == ' ' || line[0] == '\t');
        let kl = key.len() < line.len() && prefix_at(line, 0, key) && line[key.len()] == ':';
        proof {
            assert(line@.skip(0) =~= line@);
        }
        if !ind && kl {
            let after = slice_to_vec(line, key.len() + 1, line.len());
            assert(after@ =~= line@.skip(key@.len() + 1int));
            let v = trim_vec(&after);
            if v.len() > 0 && v[0] == '>' {
                let sep: [char; 1] = [' '];
                assert(sep@ =~= seq![' ']);
                return Some(block_value_vec(&ls, k + 1, &sep));
            } else if v.len() > 0 && v[0] == '|' {
                let sep: [char; 1] = ['\n'];
                assert(sep@ =~= seq!['\n']);
                return Some(block_value_vec(&ls, k + 1, &sep));
            } else {
                return Some(strip_quotes_vec(v));
            }
        }
        k = k + 1;
    }
    None
}

/// The block indented under the first unindented `parent:` line.
fn nested_block_vec(text: &[char], parent: &[char]) -> (r: Option<Vec<char>>)
    ensures
        match r {
            Some(v) => nested_block(text@, parent@) == Some(v@),
            None => nested_block(text@, parent@) is None,
        },
{
    let ls = lines_vec(text);
    let ghost lv = views(ls@);
    let mut target: Vec<char> = slice_to_vec(parent, 0, parent.len());
    target.push(':');
    assert(target@ =~= parent@.push(':'));
    let mut k: usize = 0;
    let mut found = false;
    while k < ls.len()
        invariant_except_break
            !found,
            parent_from(lv, parent@, k as int) == parent_from(lv, parent@, 0),
        invariant
            lv == views(ls@),
            lv == lines(text@),
            target@ == parent@.push(':'),
            k <= ls@.len(),
        ensures
            found ==> k < ls@.len() && parent_from(lv, parent@, 0) == Some(k as int),
            !found ==> parent_from(lv, parent@, 0) is None,
        decreases ls@.len() - k,
    {
        let line = &ls[k];
        assert(line@ == lv[k as int]);
        let ind = line.len() > 0 && (line[0] == ' ' || line[0] == '\t');
        let te = trim_end_vec(line);
        if !ind && chars_eq(&te, &target) {
            assert(is_parent_line(lv[k as int], parent@));
            assert(parent_from(lv, parent@, k as int) == Some(k as int));
            found = true;
            break ;
        }
        k = k + 1;
    }
    if !found {
        return None;
    }
    let mut run: Vec<Vec<char>> = Vec::new();
    assert(k < ls.len());
    let mut j = k + 1;
    while j < ls.len()
        invariant
            lv == views(ls@),
            k + 1 <= j <= ls@.len(),
            views(run@) + indented_run(lv, j as int) == indented_run(lv, k + 1),
        ensures
            views(run@) == indented_run(lv, k + 1),
        decreases ls@.len() - j,
    {
        let line = &ls[j];
        assert(line@ == lv[j as int]);
        if line.len() > 0 && (line[0] == ' ' || line[0] == '\t') {
            let t = trim_start_vec(line);
            let ghost before = views(run@);
            run.push(t);
            assert(views(run@) =~= before.push(t@));
            assert(views(run@) + indented_run(lv, j + 1) =~= before + (seq![t@] + indented_run(
                lv,
                j + 1,
            )));
            j = j + 1;
        } else {
            assert(indented_run(lv, j as int) =~= Seq::<Seq<char>>::empty());
            assert(views(run@) =~= views(run@) + indented_run(lv, j as int));
            break ;
        }
    }
    if run.len() == 0 {
        None
    } else {
        let nl: [char; 1] = ['\n'];
        assert(nl@ =~= seq!['\n']);
        Some(join_vec(&run, &nl))
    }
}

} // verus!

verus! {

// ---------------------------------------------------------------------------
// Laws.

/// `s` holds a `\r` directly followed by `\n`.
pub open spec fn has_crlf(s: Seq<char>) -> bool {
    exists|i: int| 0 <= i && i + 1 < s.len() && s[i] == '\r' && #[trigger] s[i + 1] == '\n'
}

/// The parts of a parsed document hold no CR-LF pair that a second
/// normalization would collapse, and a body without front matter does not
/// begin with a byte-order mark that a second parse would drop.
pub open spec fn reparse_stable(d: DocView) -> bool {
    match d.frontmatter_raw {
        None => !has_crlf(d.body) && !(d.body.len() > 0 && d.body[0] == '\u{feff}'),
        Some(fm) => !has_crlf(fm.push('\n')) && !has_crlf(d.body),
    }
}

proof fn lemma_crlf_identity(s: Seq<char>, i: int)
    requires
        0 <= i <= s.len(),
        !has_crlf(s),
    ensures
        crlf_from(s, i) == s.skip(i),
    decreases s.len() - i,
{
    if i < s.len() {
        lemma_crlf_identity(s, i + 1);
        if s[i] == '\r' && i + 1 < s.len() && s[i + 1] == '\n' {
            assert(false);
        }
        assert(seq![s[i]] + s.skip(i + 1) =~= s.skip(i));
    } else {
        assert(s.skip(i) =~= Seq::<char>::empty());
    }
}

/// Text without CR-LF pairs is left unchanged by normalization.
proof fn lemma_normalize_identity(s: Seq<char>)
    requires
        !has_crlf(s),
    ensures
        normalize(s) == s,
{
    lemma_crlf_identity(s, 0);
    assert(s.skip(0) =~= s);
}

/// `trim_end_newlines(s)` is a prefix of `s` followed only by newlines.
proof fn lemma_trim_nl(s: Seq<char>)
    ensures
        trim_end_newlines(s).len() <= s.len(),
        trim_end_newlines(s) == s.take(trim_end_newlines(s).len() as int),
        forall|j: int| trim_end_newlines(s).len() <= j < s.len() ==> s[j] == '\n',
        trim_end_newlines(s).len() == 0 || trim_end_newlines(s).last() != '\n',
    decreases s.len(),
{
    if s.len() > 0 && s.last() == '\n' {
        lemma_trim_nl(s.drop_last());
        let t = trim_end_newlines(s.drop_last());
        assert(s.drop_last().take(t.len() as int) =~= s.take(t.len() as int));
        assert forall|j: int| t.len() <= j < s.len() implies s[j] == '\n' by {
            if j < s.len() - 1 {
                assert(s[j] == s.drop_last()[j]);
            }
        }
    } else {
        assert(s.take(s.len() as int) =~= s);
    }
}

/// Once trailing newlines are gone, one more newline is dropped again.
proof fn lemma_trim_nl_push(t: Seq<char>)
    requires
        t.len() == 0 || t.last() != '\n',
    ensures
        trim_end_newlines(t.push('\n')) == t,
        trim_end_newlines(t) == t,
{
    assert(trim_end_newlines(t) == t);
    assert(t.push('\n').drop_last() =~= t);
    assert(trim_end_newlines(t.push('\n')) == trim_end_newlines(t));
}

/// `closing_acc` returns the start of a line: offset 0 or just after a
/// newline.
proof fn lemma_closing_line_start(s: Seq<char>, i: int, start: int)
    requires
        0 <= start <= i <= s.len(),
        start == 0 || s[start - 1] == '\n',
    ensures
        closing_acc(s, i, start) matches Some(e) ==> e == 0 || s[e - 1] == '\n',
    decreases s.len() - i,
{
    if i < s.len() {
        if s[i] == '\n' {
            if s.subrange(start, i) != dashes() {
                lemma_closing_line_start(s, i + 1, i + 1);
            }
        } else {
            lemma_closing_line_start(s, i + 1, start);
        }
    }
}

/// Scanning a prefix `s[..m]` that ends at a line end finds no closing line
/// when the scan of `s` finds none before `m`.
proof fn lemma_closing_prefix(s: Seq<char>, m: int, i: int, start: int)
    requires
        0 <= start <= i <= m <= s.len(),
        m == 0 || s[m - 1] == '\n',
        i == m ==> start == m,
        match closing_acc(s, i, start) {
            None => true,
            Some(e) => e >= m,
        },
    ensures
        closing_acc(s.take(m), i, start) is None,
    decreases m - i,
{
    let p = s.take(m);
    if i < m {
        assert(p[i] == s[i]);
        if s[i] == '\n' {
            assert(p.subrange(start, i) =~= s.subrange(start, i));
            if s.subrange(start, i) == dashes() {
                assert(false);
            }
            lemma_closing_prefix(s, m, i + 1, i + 1);
        } else {
            lemma_closing_prefix(s, m, i + 1, start);
        }
    }
}

/// The scan over `p + q`, where `p` ends at a line end and holds no closing
/// line, resumes at the start of `q`.
proof fn lemma_closing_concat(p: Seq<char>, q: Seq<char>, i: int, start: int)
    requires
        0 <= start <= i <= p.len(),
        p.len() == 0 || p.last() == '\n',
        i == p.len() ==> start == p.len(),
        closing_acc(p, i, start) is None,
    ensures
        closing_acc(p + q, i, start) == closing_acc(p + q, p.len() as int, p.len() as int),
    decreases p.len() - i,
{
    let s = p + q;
    if i < p.len() {
        assert(s[i] == p[i]);
        if p[i] == '\n' {
            assert(s.subrange(start, i) =~= p.subrange(start, i));
            lemma_closing_concat(p, q, i + 1, i + 1);
        } else {
            lemma_closing_concat(p, q, i + 1, start);
        }
    }
}

/// A rebuilt document `---\n` + `x` + `---\n` + `body`, where `x` ends at a
/// line end and holds no closing line, parses back into `x` (minus its final
/// newline) and `body`.
proof fn lemma_reparse_some(x: Seq<char>, body: Seq<char>)
    requires
        x.len() > 0 && x.last() == '\n',
        x.drop_last().len() == 0 || x.drop_last().last() != '\n',
        closing_acc(x, 0, 0) is None,
        !has_crlf(x),
        !has_crlf(body),
    ensures
        parse_spec(open_delim() + x + seq!['-', '-', '-', '\n'] + body) == (DocView {
            frontmatter_raw: Some(x.drop_last()),
            body,
        }),
{
    let y = seq!['-', '-', '-', '\n'] + body;
    let t = open_delim() + x + seq!['-', '-', '-', '\n'] + body;
    assert(t =~= open_delim() + (x + y));
    lemma_no_crlf_rebuilt(x, body);
    lemma_normalize_identity(t);
    assert(strip_bom(t) == t);
    assert(has_prefix(t, open_delim())) by {
        assert(t.take(4) =~= open_delim());
    }
    let rest2 = t.skip(4);
    assert(rest2 =~= x + y);
    lemma_closing_concat(x, y, 0, 0);
    let xl = x.len() as int;
    assert(rest2[xl] == '-' && rest2[xl + 1] == '-' && rest2[xl + 2] == '-' && rest2[xl + 3]
        == '\n');
    assert(rest2.subrange(xl, xl + 3) =~= dashes());
    assert(closing_acc(rest2, xl + 3, xl) == Some(xl));
    assert(closing_acc(rest2, xl + 2, xl) == Some(xl));
    assert(closing_acc(rest2, xl + 1, xl) == Some(xl));
    assert(closing_acc(rest2, xl, xl) == Some(xl));
    assert(closing(rest2) == Some(xl));
    assert(rest2.take(xl) =~= x);
    assert(x =~= x.drop_last().push('\n'));
    lemma_trim_nl_push(x.drop_last());
    assert(rest2.skip(xl) =~= y);
    assert(y.take(4) =~= open_delim());
    assert(y.skip(4) =~= body);
}

proof fn lemma_no_crlf_rebuilt(x: Seq<char>, body: Seq<char>)
    requires
        x.len() > 0 && x.last() == '\n',
        !has_crlf(x),
        !has_crlf(body),
    ensures
        !has_crlf(open_delim() + x + seq!['-', '-', '-', '\n'] + body),
{
    let y = seq!['-', '-', '-', '\n'];
    let t = open_delim() + x + y + body;
    if has_crlf(t) {
        let i = choose|i: int|
            0 <= i && i + 1 < t.len() && t[i] == '\r' && #[trigger] t[i + 1] == '\n';
        if i < 4 {
            assert(t[i] == open_delim()[i]);
        } else if i + 1 < 4 + x.len() {
            assert(t[i] == x[i - 4]);
            assert(t[i + 1] == x[(i - 4) + 1]);
        } else if i < 4 + x.len() {
            assert(t[i] == x[i - 4]);
        } else if i < 4 + x.len() + 4 {
            assert(t[i] == y[i - 4 - x.len()]);
        } else {
            let j = i - 8 - x.len();
            assert(t[i] == body[j]);
            assert(t[i + 1] == body[j + 1]);
        }
    }
}

/// `parse(to_source(parse(s))) == parse(s)`: re-reading a document that was
/// parsed and written back gives the same document, whenever its parts hold no
/// CR-LF pair (nor, without front matter, a leading byte-order mark) that a
/// second normalization would remove.
pub proof fn law_parse_to_source_parse(s: Seq<char>)
    requires
        reparse_stable(parse_spec(s)),
    ensures
        parse_spec(to_source_spec(parse_spec(s))) == parse_spec(s),
{
    let d = parse_spec(s);
    let n = normalize(strip_bom(s));
    match d.frontmatter_raw {
        None => {
            assert(d.body == n);
            lemma_normalize_identity(d.body);
            assert(strip_bom(n) == n);
            assert(normalize(strip_bom(n)) == n);
            assert(to_source_spec(d) == n);
            assert(parse_spec(n) == d);
        },
        Some(fm) => {
            let rest = n.skip(4);
            let e = closing(rest)->0;
            lemma_closing_bounds(rest, 0, 0);
            lemma_closing_line_start(rest, 0, 0);
            lemma_trim_nl(rest.take(e));
            assert(fm == trim_end_newlines(rest.take(e)));
            lemma_trim_nl_push(fm);
            let x = fm.push('\n');
            // `fm` followed by one newline is a prefix of `rest` ending at a line end.
            let m = fm.len() + 1int;
            if e == 0 {
                assert(fm.len() == 0);
                assert(x.subrange(0, 0).len() == 0);
                assert(dashes().len() == 3);
                assert(x[0] == '\n');
                assert(closing_acc(x, 0, 0) == closing_acc(x, 1, 1));
                assert(closing_acc(x, 0, 0) is None);
            } else {
                assert(rest.take(e)[e - 1] == '\n');
                assert(fm.len() < e);
                assert(rest.take(e)[fm.len() as int] == '\n');
                assert(rest[fm.len() as int] == '\n');
                assert(rest.take(m) =~= x);
                lemma_closing_prefix(rest, m, 0, 0);
            }
            assert(closing_acc(x, 0, 0) is None);
            assert(x.drop_last() =~= fm);
            lemma_reparse_some(x, d.body);
            assert(to_source_spec(d) =~= open_delim() + x + seq!['-', '-', '-', '\n'] + d.body);
            assert(d == DocView { frontmatter_raw: Some(fm), body: d.body });
        },
    }
}

/// Some line of `t` is exactly `---`: the line that would close a front
/// matter holding `t`.
pub open spec fn holds_delimiter_line(t: Seq<char>) -> bool {
    closing(t.push('\n')) is Some
}

proof fn lemma_no_crlf_prefix(s: Seq<char>, m: int)
    requires
        0 <= m <= s.len(),
        !has_crlf(s),
    ensures
        !has_crlf(s.take(m)),
{
    let p = s.take(m);
    if has_crlf(p) {
        let i = choose|i: int| 0 <= i && i + 1 < p.len() && p[i] == '\r' && #[trigger] p[i + 1] == '\n';
        assert(s[i] == p[i] && s[i + 1] == p[i + 1]);
    }
}

/// Reading back what `to_source` writes: a document with a front matter
/// parses into that front matter without its trailing newlines and the same
/// body, whenever no line of the front matter is exactly `---` and neither
/// part holds a CR-LF pair; a document without one is written as its body.
pub proof fn law_to_source_parse(d: DocView)
    requires
        d.frontmatter_raw matches Some(fm) ==> !holds_delimiter_line(fm) && !has_crlf(fm.push('\n'))
            && !has_crlf(d.body),
    ensures
        d.frontmatter_raw matches Some(fm) ==> parse_spec(to_source_spec(d)) == (DocView {
            frontmatter_raw: Some(trim_end_newlines(fm)),
            body: d.body,
        }),
        d.frontmatter_raw is None ==> to_source_spec(d) == d.body,
{
    if let Some(fm) = d.frontmatter_raw {
        let t = trim_end_newlines(fm);
        lemma_trim_nl(fm);
        let s = fm.push('\n');
        let x = t.push('\n');
        let m = t.len() + 1int;
        assert(s.take(m) =~= x) by {
            assert forall|j: int| 0 <= j < m implies s.take(m)[j] == x[j] by {
                if j < t.len() {
                    assert(t[j] == fm.take(t.len() as int)[j]);
                } else if t.len() < fm.len() {
                    assert(fm[t.len() as int] == '\n');
                }
            }
        }
        assert(s[m - 1] == '\n') by {
            if t.len() < fm.len() {
                assert(fm[t.len() as int] == '\n');
            }
        }
        lemma_closing_prefix(s, m, 0, 0);
        lemma_no_crlf_prefix(s, m);
        assert(x.drop_last() =~= t);
        lemma_reparse_some(x, d.body);
        lemma_trim_nl_push(t);
        assert(to_source_spec(d) =~= open_delim() + x + seq!['-', '-', '-', '\n'] + d.body);
    }
}

} // verus!

verus! {

proof fn lemma_lines_first_scan(s: Seq<char>, i: int, m: int)
    requires
        0 <= i <= m < s.len(),
        s[m] == '\n',
        forall|j: int| i <= j < m ==> s[j] != '\n',
    ensures
        crate::text::lines_acc(s, i, 0) == seq![crate::text::strip_cr(s.subrange(0, m))] + crate::text::lines_acc(s, m + 1, m + 1),
    decreases m - i,
{
    if i < m {
        lemma_lines_first_scan(s, i + 1, m);
    }
}

/// The first line of `line + "\n" + rest` is `line`, when `line` holds no
/// line break.
proof fn lemma_first_line(line: Seq<char>, rest: Seq<char>)
    requires
        forall|j: int| 0 <= j < line.len() ==> line[j] != '\n' && line[j] != '\r',
    ensures
        lines(line + seq!['\n'] + rest).len() > 0,
        lines(line + seq!['\n'] + rest)[0] == line,
{
    let s = line + seq!['\n'] + rest;
    let m = line.len() as int;
    assert forall|j: int| 0 <= j < m implies s[j] != '\n' by {
        assert(s[j] == line[j]);
    }
    lemma_lines_first_scan(s, 0, m);
    assert(s.subrange(0, m) =~= line);
    if line.len() > 0 {
        assert(line.last() != '\r');
    }
}

/// A plain field reads its whole value. When the first line of a front
/// matter is `key:` followed by a value that, once trimmed, is `v` and does
/// not open a block scalar (`>` or `|`), the field `key` is exactly `v`,
/// whatever it holds (`:` included), or `v` without its first and last
/// character when those are a matching pair of double or single quotes.
pub proof fn law_plain_field_value(d: DocView, key: Seq<char>, raw: Seq<char>, rest: Seq<char>)
    requires
        d.frontmatter_raw == Some(key + seq![':'] + raw + seq!['\n'] + rest),
        key.len() > 0,
        key[0] != ' ' && key[0] != '\t',
        forall|j: int| 0 <= j < key.len() ==> key[j] != '\n' && key[j] != '\r',
        forall|j: int| 0 <= j < raw.len() ==> raw[j] != '\n' && raw[j] != '\r',
        !(trim(raw).len() > 0 && (trim(raw)[0] == '>' || trim(raw)[0] == '|')),
    ensures
        ({
            let v = trim(raw);
            let quoted = v.len() >= 2 && ((v[0] == '"' && v[v.len() - 1] == '"') || (v[0] == '\'' && v[v.len()
                - 1] == '\''));
            &&& quoted ==> field_spec(d, key) == Some(v.subrange(1, v.len() - 1))
            &&& !quoted ==> field_spec(d, key) == Some(v)
        }),
{
    let line = key + seq![':'] + raw;
    let fm = key + seq![':'] + raw + seq!['\n'] + rest;
    assert(fm =~= line + seq!['\n'] + rest);
    assert forall|j: int| 0 <= j < line.len() implies line[j] != '\n' && line[j] != '\r' by {
        if j < key.len() {
            assert(line[j] == key[j]);
        } else if j > key.len() {
            assert(line[j] == raw[j - key.len() - 1]);
        }
    }
    lemma_first_line(line, rest);
    let ls = lines(fm);
    assert(ls[0] == line);
    assert(!indented(ls[0])) by {
        assert(line[0] == key[0]);
    }
    assert(line.take(key.len() as int) =~= key);
    assert(line[key.len() as int] == ':');
    assert(is_key_line(ls[0], key));
    assert(line.skip(key.len() + 1int) =~= raw);
    assert(tlv_from(ls, key, 0) == Some(key_value(ls, 0, key)));
}

} // verus!
