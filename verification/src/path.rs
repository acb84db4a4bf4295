//! Filesystem paths as sequences of components, the way `std::path` splits
//! them: a path is equal to, inside of, or the parent of another one by its
//! components, never by its spelling.

use vstd::prelude::*;

use crate::text::{chars_eq, slice_to_vec, to_chars, from_chars};

verus! {

/// One component of a path.
#[derive(Debug, Clone, PartialEq, Eq)]
pub enum PathPart {
    /// A Windows drive or UNC prefix such as `C:`.
    Prefix(String),
    /// The root directory.
    Root,
    /// `.` at the start of a relative path.
    Current,
    /// `..`.
    Parent,
    /// An ordinary file or directory name.
    Normal(String),
}

/// The mathematical content of a [`PathPart`].
pub enum PartView {
    Prefix(Seq<char>),
    Root,
    Current,
    Parent,
    Normal(Seq<char>),
}

impl View for PathPart {
    type V = PartView;

    open spec fn view(&self) -> PartView {
        match self {
            PathPart::Prefix(s) => PartView::Prefix(s@),
            PathPart::Root => PartView::Root,
            PathPart::Current => PartView::Current,
            PathPart::Parent => PartView::Parent,
            PathPart::Normal(s) => PartView::Normal(s@),
        }
    }
}

/// A path, as the list of its components.
#[derive(Debug, Clone, PartialEq, Eq)]
pub struct FsPath {
    pub parts: Vec<PathPart>,
}

impl View for FsPath {
    type V = Seq<PartView>;

    open spec fn view(&self) -> Seq<PartView> {
        self.parts@.map_values(|p: PathPart| p@)
    }
}

/// The path extended by one component named `name`.
pub open spec fn join_spec(p: Seq<PartView>, name: Seq<char>) -> Seq<PartView> {
    p.push(PartView::Normal(name))
}

/// `Path::file_name`: the last component, when it is a name.
pub open spec fn file_name_spec(p: Seq<PartView>) -> Option<Seq<char>> {
    if p.len() > 0 && p.last() is Normal {
        Some(p.last()->Normal_0)
    } else {
        None
    }
}

/// `Path::parent`: the path without its last component, unless that
/// component is a root or a prefix.
pub open spec fn parent_spec(p: Seq<PartView>) -> Option<Seq<PartView>> {
    if p.len() > 0 && !(p.last() is Root) && !(p.last() is Prefix) {
        Some(p.drop_last())
    } else {
        None
    }
}

/// Index of the last `.` in `s[..i]`.
pub open spec fn last_dot_before(s: Seq<char>, i: int) -> Option<int>
    decreases i,
{
    if i <= 0 {
        None
    } else if s[i - 1] == '.' {
        Some(i - 1)
    } else {
        last_dot_before(s, i - 1)
    }
}

/// Where a file name splits into stem and extension: at its last dot, unless
/// that dot is the first character (or the name is `..`).
pub open spec fn ext_dot(name: Seq<char>) -> Option<int> {
    if name == seq!['.', '.'] {
        None
    } else {
        match last_dot_before(name, name.len() as int) {
            Some(i) => if i == 0 {
                None
            } else {
                Some(i)
            },
            None => None,
        }
    }
}

/// `Path::extension`.
pub open spec fn extension_spec(p: Seq<PartView>) -> Option<Seq<char>> {
    match file_name_spec(p) {
        None => None,
        Some(name) => match ext_dot(name) {
            Some(i) => Some(name.skip(i + 1)),
            None => None,
        },
    }
}

/// `Path::file_stem`.
pub open spec fn file_stem_spec(p: Seq<PartView>) -> Option<Seq<char>> {
    match file_name_spec(p) {
        None => None,
        Some(name) => match ext_dot(name) {
            Some(i) => Some(name.take(i)),
            None => Some(name),
        },
    }
}

/// `Path::starts_with`: `base` is a leading run of the components of `p`.
pub open spec fn starts_with_spec(p: Seq<PartView>, base: Seq<PartView>) -> bool {
    base.len() <= p.len() && p.take(base.len() as int) == base
}

impl PathPart {
    /// An equal component.
    pub fn duplicate(&self) -> (r: PathPart)
        ensures
            r == *self,
    {
        match self {
            PathPart::Prefix(s) => PathPart::Prefix(s.clone()),
            PathPart::Root => PathPart::Root,
            PathPart::Current => PathPart::Current,
            PathPart::Parent => PathPart::Parent,
            PathPart::Normal(s) => PathPart::Normal(s.clone()),
        }
    }
}

fn copy_parts(v: &Vec<PathPart>) -> (r: Vec<PathPart>)
    ensures
        r@ == v@,
{
    let mut r: Vec<PathPart> = Vec::new();
    let mut i: usize = 0;
    while i < v.len()
        invariant
            i <= v@.len(),
            r@ == v@.take(i as int),
        decreases v@.len() - i,
    {
        r.push(v[i].duplicate());
        i = i + 1;
        assert(r@ =~= v@.take(i as int));
    }
    assert(v@.take(v@.len() as int) =~= v@);
    r
}

fn part_eq(a: &PathPart, b: &PathPart) -> (r: bool)
    ensures
        r == (a@ == b@),
{
    match (a, b) {
        (PathPart::Prefix(x), PathPart::Prefix(y)) => chars_eq(&to_chars(x.as_str()), &to_chars(y.as_str())),
        (PathPart::Root, PathPart::Root) => true,
        (PathPart::Current, PathPart::Current) => true,
        (PathPart::Parent, PathPart::Parent) => true,
        (PathPart::Normal(x), PathPart::Normal(y)) => chars_eq(&to_chars(x.as_str()), &to_chars(y.as_str())),
        _ => false,
    }
}

impl FsPath {
    /// An equal path.
    pub fn duplicate(&self) -> (r: FsPath)
        ensures
            r@ == self@,
    {
        FsPath { parts: copy_parts(&self.parts) }
    }

    /// The path `self` followed by the file name `name`.
    pub fn join(&self, name: &str) -> (r: FsPath)
        ensures
            r@ == join_spec(self@, name@),
    {
        let mut parts = copy_parts(&self.parts);
        parts.push(PathPart::Normal(name.to_owned()));
        let r = FsPath { parts };
        assert(r@ =~= join_spec(self@, name@));
        r
    }

    /// The last component, when it is a name.
    pub fn file_name(&self) -> (r: Option<String>)
        ensures
            match r {
                Some(s) => file_name_spec(self@) == Some(s@),
                None => file_name_spec(self@) is None,
            },
    {
        let n = self.parts.len();
        if n == 0 {
            return None;
        }
        match &self.parts[n - 1] {
            PathPart::Normal(s) => Some(s.clone()),
            _ => None,
        }
    }

    /// The path without its last component (`Path::parent`).
    pub fn parent(&self) -> (r: Option<FsPath>)
        ensures
            match r {
                Some(q) => parent_spec(self@) == Some(q@),
                None => parent_spec(self@) is None,
            },
    {
        let n = self.parts.len();
        if n == 0 {
            return None;
        }
        match &self.parts[n - 1] {
            PathPart::Root => None,
            PathPart::Prefix(_) => None,
            _ => {
                let mut parts = copy_parts(&self.parts);
                parts.pop();
                let q = FsPath { parts };
                assert(q@ =~= self@.drop_last());
                Some(q)
            },
        }
    }

    /// Whether `base` is a leading run of the components of `self`.
    pub fn starts_with(&self, base: &FsPath) -> (r: bool)
        ensures
            r == starts_with_spec(self@, base@),
    {
        if base.parts.len() > self.parts.len() {
            return false;
        }
        let mut i: usize = 0;
        while i < base.parts.len()
            invariant
                base.parts@.len() <= self.parts@.len(),
                i <= base.parts@.len(),
                forall|k: int| 0 <= k < i ==> self@[k] == base@[k],
            decreases base.parts@.len() - i,
        {
            if !part_eq(&self.parts[i], &base.parts[i]) {
                assert(self@.take(base@.len() as int)[i as int] != base@[i as int]);
                return false;
            }
            i = i + 1;
        }
        assert(self@.take(base@.len() as int) =~= base@);
        true
    }

    /// `Path::extension`.
    pub fn extension(&self) -> (r: Option<String>)
        ensures
            match r {
                Some(s) => extension_spec(self@) == Some(s@),
                None => extension_spec(self@) is None,
            },
    {
        match self.file_name() {
            None => None,
            Some(name) => {
                let c = to_chars(name.as_str());
                match ext_dot_vec(&c) {
                    Some(i) => {
                        assert(i < c.len());
                        Some(from_chars(&slice_to_vec(&c, i + 1, c.len())))
                    },
                    None => None,
                }
            },
        }
    }

    /// `Path::file_stem`.
    pub fn file_stem(&self) -> (r: Option<String>)
        ensures
            match r {
                Some(s) => file_stem_spec(self@) == Some(s@),
                None => file_stem_spec(self@) is None,
            },
    {
        match self.file_name() {
            None => None,
            Some(name) => {
                let c = to_chars(name.as_str());
                match ext_dot_vec(&c) {
                    Some(i) => Some(from_chars(&slice_to_vec(&c, 0, i))),
                    None => Some(name),
                }
            },
        }
    }
}

fn ext_dot_vec(name: &Vec<char>) -> (r: Option<usize>)
    ensures
        match r {
            Some(i) => ext_dot(name@) == Some(i as int) && i < name@.len(),
            None => ext_dot(name@) is None,
        },
{
    if name.len() == 2 && name[0] == '.' && name[1] == '.' {
        assert(name@ =~= seq!['.', '.']);
        return None;
    }
    assert(name@ != seq!['.', '.']) by {
        if name@ =~= seq!['.', '.'] {
            assert(name@[0] == '.' && name@[1] == '.');
        }
    }
    let mut i: usize = name.len();
    while i > 0 && name[i - 1] != '.'
        invariant
            i <= name@.len(),
            last_dot_before(name@, i as int) == last_dot_before(name@, name@.len() as int),
        decreases i,
    {
        i = i - 1;
    }
    if i == 0 {
        None
    } else if i - 1 == 0 {
        None
    } else {
        Some(i - 1)
    }
}

} // verus!

verus! {

// ---------------------------------------------------------------------------
// Resolving the part of a path that does not exist yet.

/// `p` extended by the component `c` the way the file system reads it: `.`
/// adds nothing, `..` takes away the last name (and stays at a root or a
/// prefix), any other component is appended.
pub open spec fn push_resolved(p: Seq<PartView>, c: PartView) -> Seq<PartView> {
    match c {
        PartView::Current => p,
        PartView::Parent => if p.len() > 0 && p.last() is Normal {
            p.drop_last()
        } else if p.len() > 0 && (p.last() is Root || p.last() is Prefix) {
            p
        } else {
            p.push(PartView::Parent)
        },
        _ => p.push(c),
    }
}

/// `base` followed by the components of `tail`, each read by
/// [`push_resolved`] in turn.
pub open spec fn resolve_tail_spec(base: Seq<PartView>, tail: Seq<PartView>) -> Seq<PartView>
    decreases tail.len(),
{
    if tail.len() == 0 {
        base
    } else {
        push_resolved(resolve_tail_spec(base, tail.drop_last()), tail.last())
    }
}

/// A path from a root or a prefix, with no `.` or `..` component, as
/// `canonicalize` returns it.
pub open spec fn is_resolved(p: Seq<PartView>) -> bool {
    &&& p.len() > 0
    &&& (p[0] is Root || p[0] is Prefix)
    &&& forall|i: int| 0 <= i < p.len() ==> !(#[trigger] p[i] is Current) && !(p[i] is Parent)
    &&& forall|i: int| 1 <= i < p.len() ==> !(#[trigger] p[i] is Prefix) && (p[i] is Root ==> i == 1 && p[0] is Prefix)
}

/// Only names, `.` and `..`: no root nor prefix.
pub open spec fn is_relative(p: Seq<PartView>) -> bool {
    forall|i: int| 0 <= i < p.len() ==> !(#[trigger] p[i] is Root) && !(p[i] is Prefix)
}

/// The resolved ancestor `base` of a target followed by the rest of the
/// target, the components that do not exist yet. When `base` is resolved
/// and the rest relative, the result is resolved: a `..` in the rest can
/// only climb back through names, never above `base`'s root.
pub fn resolve_tail(base: &FsPath, tail: &FsPath) -> (r: FsPath)
    ensures
        r@ == resolve_tail_spec(base@, tail@),
        is_resolved(base@) && is_relative(tail@) ==> is_resolved(r@),
{
    let mut parts = copy_parts(&base.parts);
    let mut i: usize = 0;
    assert(tail@.take(0) =~= Seq::<PartView>::empty());
    assert(parts@.map_values(|q: PathPart| q@) =~= base@);
    while i < tail.parts.len()
        invariant
            i <= tail@.len(),
            tail@.len() == tail.parts@.len(),
            forall|j: int| 0 <= j < tail.parts@.len() ==> #[trigger] tail@[j] == tail.parts@[j]@,
            parts@.map_values(|q: PathPart| q@) == resolve_tail_spec(base@, tail@.take(i as int)),
            is_resolved(base@) && is_relative(tail@) ==> is_resolved(parts@.map_values(|q: PathPart| q@)),
        decreases tail.parts@.len() - i,
    {
        let ghost before = parts@.map_values(|q: PathPart| q@);
        let c = &tail.parts[i];
        assert(tail@.take(i + 1).drop_last() =~= tail@.take(i as int));
        assert(tail@.take(i + 1).last() == c@);
        match c {
            PathPart::Current => {},
            PathPart::Parent => {
                let n = parts.len();
                if n > 0 && matches!(parts[n - 1], PathPart::Normal(_)) {
                    parts.pop();
                    assert(parts@.map_values(|q: PathPart| q@) =~= before.drop_last());
                    proof {
                        if is_resolved(base@) && is_relative(tail@) {
                            assert(before[n - 1] is Normal);
                            assert(n - 1 > 0);
                            let a = before.drop_last();
                            assert forall|k: int| 0 <= k < a.len() implies !(#[trigger] a[k] is Current) && !(a[k] is Parent) by {
                                assert(a[k] == before[k]);
                            }
                            assert forall|k: int| 1 <= k < a.len() implies !(#[trigger] a[k] is Prefix) && (a[k] is Root ==> k == 1 && a[0] is Prefix) by {
                                assert(a[k] == before[k]);
                            }
                        }
                    }
                } else if n > 0 && matches!(parts[n - 1], PathPart::Root | PathPart::Prefix(_)) {
                } else {
                    proof {
                        if is_resolved(base@) && is_relative(tail@) {
                            let l = before[n - 1];
                            assert(!(l is Current) && !(l is Parent));
                        }
                    }
                    parts.push(PathPart::Parent);
                    assert(parts@.map_values(|q: PathPart| q@) =~= before.push(PartView::Parent));
                }
            },
            _ => {
                parts.push(c.duplicate());
                assert(parts@.map_values(|q: PathPart| q@) =~= before.push(c@));
                proof {
                    if is_resolved(base@) && is_relative(tail@) {
                        assert(c@ is Normal) by {
                            assert(tail@[i as int] == c@);
                        }
                        let a = before.push(c@);
                        assert forall|k: int| 0 <= k < a.len() implies !(#[trigger] a[k] is Current) && !(a[k] is Parent) by {
                            if k < before.len() {
                                assert(a[k] == before[k]);
                            }
                        }
                        assert forall|k: int| 1 <= k < a.len() implies !(#[trigger] a[k] is Prefix) && (a[k] is Root ==> k == 1 && a[0] is Prefix) by {
                            if k < before.len() {
                                assert(a[k] == before[k]);
                            }
                        }
                    }
                }
            },
        }
        i = i + 1;
    }
    assert(tail@.take(i as int) =~= tail@);
    FsPath { parts }
}

} // verus!
