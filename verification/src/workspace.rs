//! The workspace: files, their paths, and the names that are not tracked.
use vstd::prelude::*;
use crate::error::{workspace_error, Error};
use crate::objects::{Entry, DIRECTORY_MODE, EXECUTABLE_FILE_MODE, READONLY_FILE_MODE};
use crate::oid::Oid;
use crate::table::Key;
use crate::revision::Rev;

verus! {

/// A path as the sequence of its components.
pub struct RelPath(pub Vec<String>);

impl View for RelPath {
    type V = Seq<Seq<char>>;

    open spec fn view(&self) -> Seq<Seq<char>> {
        self.0@.map_values(|s: String| s@)
    }
}

impl Key for RelPath {
    fn same_key(&self, other: &Self) -> (res: bool) {
        let n = self.0.len();
        if n != other.0.len() {
            assert(self@.len() != other@.len());
            return false;
        }
        let mut i: usize = 0;
        while i < n
            invariant
                i <= n,
                n == self.0@.len(),
                n == other.0@.len(),
                forall|j: int| 0 <= j < i ==> self@[j] == other@[j],
            decreases n - i,
        {
            if self.0[i] != other.0[i] {
                assert(self@[i as int] != other@[i as int]);
                return false;
            }
            i = i + 1;
        }
        assert(self@ =~= other@);
        true
    }

    fn copy_key(&self) -> (res: Self) {
        RelPath(copy_names(&self.0))
    }
}

/// A copy of a list of names.
pub fn copy_names(v: &Vec<String>) -> (res: Vec<String>)
    ensures
        res@.map_values(|s: String| s@) == v@.map_values(|s: String| s@),
{
    let mut r: Vec<String> = Vec::new();
    let n = v.len();
    let mut i: usize = 0;
    while i < n
        invariant
            i <= n,
            n == v@.len(),
            r@.len() == i,
            forall|j: int| 0 <= j < i ==> #[trigger] r@[j]@ == v@[j]@,
        decreases n - i,
    {
        r.push(v[i].clone());
        i = i + 1;
    }
    assert(r@.map_values(|s: String| s@) =~= v@.map_values(|s: String| s@));
    r
}

/// A component that names a file or directory: not empty, not `.` or `..`.
pub open spec fn is_normal_name(c: Seq<char>) -> bool {
    c.len() > 0 && c != seq!['.'] && c != seq!['.', '.']
}

fn normal_name(c: &String) -> (res: bool)
    ensures
        res == is_normal_name(c@),
{
    let dot = String::from_str(".");
    let dotdot = String::from_str("..");
    proof {
        reveal_strlit(".");
        reveal_strlit("..");
        assert(".."@ =~= seq!['.', '.']);
        assert("."@ =~= seq!['.']);
    }
    let len = c.as_str().unicode_len();
    len > 0 && *c != dot && *c != dotdot
}

/// The name of the file a path leads to: its last component, when that is a
/// name; an error otherwise.
pub fn get_file_name(path: &RelPath) -> (res: Result<String, Error>)
    ensures
        res matches Ok(name) ==> path@.len() > 0 && name@ == path@.last() && is_normal_name(name@),
        res is Err <==> path@.len() == 0 || !is_normal_name(path@.last()),
        res matches Err(e) ==> workspace_error(e, "cannot get file name. Maybe file name termiantes with .."@),
{
    let n = path.0.len();
    if n == 0 {
        return Err(Error::Workspace(String::from_str("cannot get file name. Maybe file name termiantes with ..")));
    }
    let last = &path.0[n - 1];
    if normal_name(last) {
        Ok(last.clone())
    } else {
        Err(Error::Workspace(String::from_str("cannot get file name. Maybe file name termiantes with ..")))
    }
}

/// The path with the extension of its last component replaced by `lock`, where
/// a file is written before it is renamed over the path.
pub fn lock_path(path: &RelPath) -> (res: RelPath)
    requires
        path@.len() > 0,
    ensures
        res@.len() == path@.len(),
        res@.drop_last() == path@.drop_last(),
        res@.last() == with_lock_extension(path@.last()),
{
    let n = path.0.len();
    let mut comps = copy_names(&path.0);
    let last = lock_name(&path.0[n - 1]);
    let ghost before = comps@;
    comps.set(n - 1, last);
    let r = RelPath(comps);
    proof {
        assert(r@.drop_last() =~= path@.drop_last()) by {
            assert forall|j: int| 0 <= j < n - 1 implies r@.drop_last()[j] == path@.drop_last()[j] by {
                assert(r.0@[j] == before[j]);
                assert(before.map_values(|s: String| s@)[j] == path.0@.map_values(|s: String| s@)[j]);
            }
        }
    }
    r
}

/// The position of the last `.` of a name that starts an extension: not at the
/// start of the name.
pub open spec fn extension_dot(name: Seq<char>) -> int
    decreases name.len(),
{
    if name.len() <= 1 {
        -1
    } else if name.last() == '.' {
        name.len() - 1
    } else {
        extension_dot(name.drop_last())
    }
}

/// A name with its extension replaced by `lock`, or `.lock` added when it has
/// none, as `PathBuf::set_extension` does.
pub open spec fn with_lock_extension(name: Seq<char>) -> Seq<char> {
    let stem = if extension_dot(name) > 0 {
        name.take(extension_dot(name))
    } else {
        name
    };
    stem + seq!['.', 'l', 'o', 'c', 'k']
}

fn lock_name(name: &String) -> (res: String)
    ensures
        res@ == with_lock_extension(name@),
{
    let s = name.as_str();
    let n = s.unicode_len();
    let mut dot: usize = 0;
    let mut i: usize = n;
    proof {
        assert(name@.take(n as int) =~= name@);
    }
    while i > 1 && dot == 0
        invariant
            0 <= i <= n,
            n == name@.len(),
            s@ == name@,
            dot == 0 ==> extension_dot(name@.take(i as int)) == extension_dot(name@),
            dot > 0 ==> extension_dot(name@) == dot && dot < n,
        decreases i,
    {
        let c = s.get_char(i - 1);
        let ghost p = name@.take(i as int);
        proof {
            assert(p.last() == c);
            assert(p.drop_last() =~= name@.take(i - 1));
        }
        if c == '.' {
            dot = i - 1;
            i = 1;
        } else {
            i = i - 1;
        }
    }
    proof {
        reveal_strlit(".lock");
    }
    if dot > 0 {
        let mut stem = String::from_str(s.substring_char(0, dot));
        stem.append(".lock");
        proof {
            assert(extension_dot(name@) == dot);
            assert(".lock"@ =~= seq!['.', 'l', 'o', 'c', 'k']);
        }
        stem
    } else {
        let mut stem = String::from_str(s);
        stem.append(".lock");
        proof {
            if i <= 1 {
                assert(extension_dot(name@.take(i as int)) == -1);
            }
            assert(".lock"@ =~= seq!['.', 'l', 'o', 'c', 'k']);
        }
        stem
    }
}

/// The names of the ancestors of a path, innermost first: the names of the
/// path's components in reverse order. An error when a component is not a name.
pub open spec fn ancestors_spec(index: Seq<Seq<char>>) -> Seq<Seq<char>> {
    index.reverse()
}


/// The names of the ancestors of a path, innermost first; an error when a
/// component is not a name.
pub fn get_ancestors(index: &RelPath) -> (res: Result<Vec<String>, Error>)
    ensures
        res matches Ok(names) ==> names@.map_values(|s: String| s@) == ancestors_spec(index@),
        res is Err <==> exists|i: int| 0 <= i < index@.len() && !is_normal_name(#[trigger] index@[i]),
        res matches Err(e) ==> workspace_error(e, "cannot get file name. Maybe file name termiantes with .."@),
{
    let n = index.0.len();
    let mut names: Vec<String> = Vec::new();
    let mut k: usize = n;
    while k > 0
        invariant
            k <= n,
            n == index@.len(),
            names@.len() == n - k,
            forall|j: int| 0 <= j < n - k ==> #[trigger] names@[j]@ == index@[n - 1 - j],
            forall|j: int| k <= j < n ==> is_normal_name(#[trigger] index@[j]),
        decreases k,
    {
        let c = &index.0[k - 1];
        if !normal_name(c) {
            assert(!is_normal_name(index@[k - 1]));
            return Err(Error::Workspace(String::from_str("cannot get file name. Maybe file name termiantes with ..")));
        }
        names.push(c.clone());
        k = k - 1;
    }
    assert(names@.map_values(|s: String| s@) =~= ancestors_spec(index@));
    Ok(names)
}

/// The path relative to `base`: what follows `base` in `path`; an error when
/// `path` does not start with `base`.
pub fn strip_prefix(path: &RelPath, base: &RelPath) -> (res: Result<RelPath, Error>)
    ensures
        res matches Ok(rel) ==> base@ + rel@ == path@,
        res is Err <==> !(base@.len() <= path@.len() && path@.take(base@.len() as int) == base@),
        res matches Err(e) ==> workspace_error(e, "prefix not found"@),
{
    let n = base.0.len();
    let m = path.0.len();
    if n > m {
        return Err(Error::Workspace(String::from_str("prefix not found")));
    }
    let mut i: usize = 0;
    while i < n
        invariant
            i <= n <= m,
            n == base@.len(),
            m == path@.len(),
            forall|j: int| 0 <= j < i ==> path@[j] == base@[j],
        decreases n - i,
    {
        if path.0[i] != base.0[i] {
            assert(path@.take(n as int)[i as int] != base@[i as int]);
            return Err(Error::Workspace(String::from_str("prefix not found")));
        }
        i = i + 1;
    }
    let mut rest: Vec<String> = Vec::new();
    let mut j: usize = n;
    while j < m
        invariant
            n <= j <= m,
            m == path@.len(),
            rest@.len() == j - n,
            forall|k: int| 0 <= k < j - n ==> #[trigger] rest@[k]@ == path@[n + k],
        decreases m - j,
    {
        rest.push(path.0[j].clone());
        j = j + 1;
    }
    let r = RelPath(rest);
    assert(path@.take(n as int) =~= base@);
    assert(base@ + r@ =~= path@);
    Ok(r)
}

/// What a file of the workspace holds as plain values: name, object id once
/// stored, modification time, mode.
pub type FileView = (Seq<char>, Option<Seq<u8>>, i64, u32);

/// A file of the workspace.
pub struct File {
    name: String,
    oid: Option<Oid>,
    mtime: i64,
    mode: u32,
}

impl View for File {
    type V = FileView;

    closed spec fn view(&self) -> FileView {
        (self.name@, match self.oid {
            None => None,
            Some(o) => Some(o@),
        }, self.mtime, self.mode)
    }
}

/// Mode, modification time, id and name of whatever a revision lists.
pub trait Stat {
    spec fn stat_view(&self) -> FileView;

    fn mtime(&self) -> (res: i64)
        ensures
            res == self.stat_view().2,
    ;

    fn mode(&self) -> (res: u32)
        ensures
            res == self.stat_view().3,
    ;

    fn oid(&self) -> (res: Result<&Oid, Error>)
        ensures
            res matches Ok(o) ==> self.stat_view().1 == Some(o@),
            res is Err <==> self.stat_view().1 is None,
    ;

    fn name(&self) -> (res: &String)
        ensures
            res@ == self.stat_view().0,
    ;

    fn is_dir(&self) -> (res: bool)
        ensures
            res == (self.stat_view().3 == DIRECTORY_MODE),
    {
        self.mode() == DIRECTORY_MODE
    }
}

impl File {
    /// A file as the workspace lists it: its mode follows from whether it is
    /// read-only, and it has no id until its content is stored.
    pub fn build(name: String, mtime: i64, readonly: bool) -> (res: File)
        ensures
            res@ == (name@, None::<Seq<u8>>, mtime, if readonly { READONLY_FILE_MODE } else { EXECUTABLE_FILE_MODE }),
    {
        let mode = if readonly { READONLY_FILE_MODE } else { EXECUTABLE_FILE_MODE };
        File { name, oid: None, mtime, mode }
    }

    /// The file a stored tree entry stands for.
    pub fn from_entry(e: &Entry) -> (res: File)
        ensures
            res@ == (e.3@, Some(e.2@), e.1, e.0),
    {
        File { name: e.3.clone(), oid: Some(e.2), mtime: e.1, mode: e.0 }
    }

    /// Records the id of the stored content.
    pub fn set_oid(&mut self, oid: Oid)
        ensures
            final(self)@ == (old(self)@.0, Some(oid@), old(self)@.2, old(self)@.3),
    {
        self.oid = Some(oid);
    }

    /// A copy of the file.
    pub fn duplicate(&self) -> (res: File)
        ensures
            res@ == self@,
    {
        File { name: self.name.clone(), oid: self.oid, mtime: self.mtime, mode: self.mode }
    }
}

impl Stat for File {
    open spec fn stat_view(&self) -> FileView {
        self@
    }

    fn mtime(&self) -> (res: i64) {
        self.mtime
    }

    fn mode(&self) -> (res: u32) {
        self.mode
    }

    fn oid(&self) -> (res: Result<&Oid, Error>)
        ensures
            res matches Err(e) ==> workspace_error(e, "use of oid() of File before set"@),
    {
        match &self.oid {
            Some(oid) => Ok(oid),
            None => Err(Error::Workspace(String::from_str("use of oid() of File before set"))),
        }
    }

    fn name(&self) -> (res: &String) {
        &self.name
    }
}

impl Entry {
    /// The tree entry for what a revision lists: its mode, time, id and name;
    /// an error when it has no id yet.
    pub fn build<S: Stat>(stat: &S) -> (res: Result<Entry, Error>)
        ensures
            res is Err <==> stat.stat_view().1 is None,
            res matches Ok(e) ==> stat.stat_view() == (e.3@, Some(e.2@), e.1, e.0),
    {
        let oid = *stat.oid()?;
        let name = stat.name().clone();
        Ok(Entry(stat.mode(), stat.mtime(), oid, name))
    }
}

impl Stat for Entry {
    open spec fn stat_view(&self) -> FileView {
        (self.3@, Some(self.2@), self.1, self.0)
    }

    fn mtime(&self) -> (res: i64) {
        self.1
    }

    fn mode(&self) -> (res: u32) {
        self.0
    }

    fn oid(&self) -> (res: Result<&Oid, Error>) {
        Ok(&self.2)
    }

    fn name(&self) -> (res: &String) {
        &self.3
    }
}


/// The names that are not tracked.
pub struct Ignore(Vec<String>);

impl View for Ignore {
    type V = Set<Seq<char>>;

    closed spec fn view(&self) -> Set<Seq<char>> {
        self.0@.map_values(|s: String| s@).to_set()
    }
}

pub open spec fn repository_dir_name() -> Seq<char> {
    seq!['.', 'r', 'i', 't']
}

fn contains_name(v: &Vec<String>, name: &String) -> (res: bool)
    ensures
        res == v@.map_values(|s: String| s@).contains(name@),
{
    let n = v.len();
    let mut i: usize = 0;
    while i < n
        invariant
            i <= n,
            n == v@.len(),
            forall|j: int| 0 <= j < i ==> v@[j]@ != name@,
        decreases n - i,
    {
        if v[i] == *name {
            assert(v@.map_values(|s: String| s@)[i as int] == name@);
            return true;
        }
        i = i + 1;
    }
    proof {
        let m = v@.map_values(|s: String| s@);
        if m.contains(name@) {
            let j = choose|j: int| 0 <= j < m.len() && #[trigger] m[j] == name@;
            assert(v@[j]@ == name@);
        }
    }
    false
}

impl Ignore {
    /// The name of the file in the workspace that lists the ignored names.
    pub fn name() -> (res: &'static str)
        ensures
            res@ == seq!['.', 'i', 'g', 'n', 'o', 'r', 'e'],
    {
        proof {
            reveal_strlit(".ignore");
        }
        let r = ".ignore";
        assert(r@ =~= seq!['.', 'i', 'g', 'n', 'o', 'r', 'e']);
        r
    }

    /// What is ignored when the workspace has no list: the repository's own
    /// directory.
    pub fn default() -> (res: Ignore)
        ensures
            res@ == Set::<Seq<char>>::empty().insert(repository_dir_name()),
    {
        proof {
            reveal_strlit(".rit");
        }
        let mut v: Vec<String> = Vec::new();
        v.push(String::from_str(".rit"));
        let r = Ignore(v);
        proof {
            assert(".rit"@ =~= repository_dir_name());
            let m = r.0@.map_values(|s: String| s@);
            assert(m =~= seq![repository_dir_name()]);
            assert(m.to_set() =~= Set::<Seq<char>>::empty().insert(repository_dir_name())) by {
                assert forall|x: Seq<char>| m.to_set().contains(x) <==> x == repository_dir_name() by {
                    if x == repository_dir_name() {
                        assert(m[0] == x);
                    }
                }
            }
        }
        r
    }

    /// The ignored names of the workspace: those of its list when it has one,
    /// the default otherwise.
    pub fn build(listed: Option<Vec<String>>) -> (res: Ignore)
        ensures
            listed matches Some(v) ==> res@ == v@.map_values(|s: String| s@).to_set(),
            listed is None ==> res@ == Set::<Seq<char>>::empty().insert(repository_dir_name()),
    {
        match listed {
            None => Ignore::default(),
            Some(v) => {
                let mut r = Ignore(Vec::new());
                assert(r@ =~= Set::<Seq<char>>::empty());
                r.add(v);
                assert(r@ =~= v@.map_values(|s: String| s@).to_set());
                r
            },
        }
    }

    /// Adds names to the ignored ones.
    pub fn add(&mut self, names: Vec<String>)
        ensures
            final(self)@ == old(self)@.union(names@.map_values(|s: String| s@).to_set()),
    {
        let n = names.len();
        let mut i: usize = 0;
        while i < n
            invariant
                i <= n,
                n == names@.len(),
                self@ == old(self)@.union(names@.take(i as int).map_values(|s: String| s@).to_set()),
            decreases n - i,
        {
            let name = &names[i];
            let ghost before = self.0@;
            if !contains_name(&self.0, name) {
                self.0.push(name.clone());
                proof {
                    let mb = before.map_values(|s: String| s@);
                    assert(self.0@.map_values(|s: String| s@) =~= mb.push(name@));
                    mb.lemma_push_to_set_commute(name@);
                }
            } else {
                proof {
                    assert(before.map_values(|s: String| s@).to_set().contains(name@));
                }
            }
            proof {
                let mt = names@.take(i as int).map_values(|s: String| s@);
                assert(names@.take(i + 1).map_values(|s: String| s@) =~= mt.push(name@));
                mt.lemma_push_to_set_commute(name@);
                assert(self@ =~= old(self)@.union(names@.take(i + 1).map_values(|s: String| s@).to_set()));
            }
            i = i + 1;
        }
        assert(names@.take(n as int) =~= names@);
    }

    /// Whether a name is ignored.
    pub fn is_ignored(&self, name: &str) -> (res: bool)
        ensures
            res == self@.contains(name@),
    {
        let k = String::from_str(name);
        contains_name(&self.0, &k)
    }

    /// The ignored names, each once.
    pub fn names(&self) -> (res: Vec<String>)
        ensures
            res@.map_values(|s: String| s@).to_set() == self@,
    {
        copy_names(&self.0)
    }
}

/// A workspace: the path of its directory and the names it ignores.
pub struct Workspace {
    path: RelPath,
    ignore: Ignore,
}

impl Workspace {
    pub closed spec fn path_view(&self) -> Seq<Seq<char>> {
        self.path@
    }

    pub closed spec fn ignore_view(&self) -> Set<Seq<char>> {
        self.ignore@
    }

    pub fn build(path: RelPath, ignore: Ignore) -> (res: Workspace)
        ensures
            res.path_view() == path@,
            res.ignore_view() == ignore@,
    {
        Workspace { path, ignore }
    }

    pub fn path(&self) -> (res: &RelPath)
        ensures
            res@ == self.path_view(),
    {
        &self.path
    }

    /// The names of the ancestors of a path in the workspace, innermost first.
    pub fn get_ancestors(&self, index: &RelPath) -> (res: Result<Vec<String>, Error>)
        ensures
            res matches Ok(names) ==> names@.map_values(|s: String| s@) == ancestors_spec(index@),
            res is Err <==> exists|i: int| 0 <= i < index@.len() && !is_normal_name(#[trigger] index@[i]),
            res matches Err(e) ==> workspace_error(e, "cannot get file name. Maybe file name termiantes with .."@),
    {
        get_ancestors(index)
    }

    /// The path relative to the workspace; an error when the path is outside it.
    pub fn get_relative_path(&self, path: &RelPath) -> (res: Result<RelPath, Error>)
        ensures
            res matches Ok(rel) ==> self.path_view() + rel@ == path@,
            res is Err <==> !(self.path_view().len() <= path@.len() && path@.take(self.path_view().len() as int)
                == self.path_view()),
            res matches Err(e) ==> workspace_error(e, "prefix not found"@),
    {
        strip_prefix(path, &self.path)
    }

    /// Whether an entry of a directory of the workspace is listed: its name is
    /// not ignored.
    pub fn is_listed(&self, name: &str) -> (res: bool)
        ensures
            res == !self.ignore_view().contains(name@),
    {
        !self.ignore.is_ignored(name)
    }

    /// Whether a path relative to the workspace lies under an ignored name.
    pub fn is_untracked(&self, rel: &RelPath) -> (res: bool)
        ensures
            res == untracked(self.ignore_view(), rel@),
            forall|j: int| 0 <= j < rel@.len() && #[trigger] self.ignore_view().contains(rel@[j]) ==> res,
            res ==> exists|j: int| 0 <= j < rel@.len() && #[trigger] self.ignore_view().contains(rel@[j]),
    {
        let n = rel.0.len();
        let mut i: usize = 0;
        while i < n
            invariant
                i <= n,
                n == rel@.len(),
                forall|j: int| 0 <= j < i ==> !self.ignore_view().contains(#[trigger] rel@[j]),
            decreases n - i,
        {
            if self.ignore.is_ignored(rel.0[i].as_str()) {
                assert(self.ignore_view().contains(rel@[i as int]));
                return true;
            }
            i = i + 1;
        }
        false
    }

    /// The files of the workspace, by path relative to it, from the files
    /// found in its directory: those under an ignored name are left out. An
    /// error when a found path is not inside the workspace, or a tracked one
    /// does not end in a name.
    pub fn list_files(&self, found: &Vec<FoundFile>) -> (res: Result<Rev, Error>)
        ensures
            res is Err <==> exists|i: int|
                0 <= i < found@.len() && found_fails(
                    self.path_view(),
                    self.ignore_view(),
                    #[trigger] found_views(found@)[i],
                ),
            res matches Err(e) ==> e is Workspace,
            res matches Ok(rev) ==> rev.wf() && rev.view() == found_files(
                self.path_view(),
                self.ignore_view(),
                found_views(found@),
            ),
            res matches Ok(rev) ==> forall|k: Seq<Seq<char>>, j: int|
                #[trigger] rev.view().contains_key(k) && 0 <= j < k.len() ==> !self.ignore_view().contains(
                    #[trigger] k[j],
                ),
    {
        proof {
            lemma_found_files_unignored(self.path_view(), self.ignore_view(), found_views(found@));
        }
        let ghost fv = found_views(found@);
        let ghost ws = self.path_view();
        let ghost ign = self.ignore_view();
        let mut rev = Rev::new();
        let n = found.len();
        let mut i: usize = 0;
        while i < n
            invariant
                i <= n,
                n == found@.len(),
                fv == found_views(found@),
                ws == self.path_view(),
                ign == self.ignore_view(),
                rev.wf(),
                rev.view() == found_files(ws, ign, fv.take(i as int)),
                forall|j: int| 0 <= j < i ==> !found_fails(ws, ign, #[trigger] fv[j]),
            decreases n - i,
        {
            let f = &found[i];
            assert(fv[i as int] == (f.path@, f.mtime, f.readonly));
            assert(fv.take(i + 1).drop_last() =~= fv.take(i as int));
            let rel = match self.get_relative_path(&f.path) {
                Ok(r) => r,
                Err(e) => {
                    assert(found_fails(ws, ign, fv[i as int]));
                    return Err(e);
                },
            };
            assert(rel@ =~= f.path@.skip(ws.len() as int));
            if rel.0.len() == 0 {
                assert(f.path@.len() == ws.len());
                assert(found_fails(ws, ign, fv[i as int]));
                return Err(Error::Workspace(String::from_str("not a file of the workspace")));
            }
            if !self.is_untracked(&rel) {
                let name = match get_file_name(&f.path) {
                    Ok(nm) => nm,
                    Err(e) => {
                        assert(found_fails(ws, ign, fv[i as int]));
                        return Err(e);
                    },
                };
                let file = File::build(name, f.mtime, f.readonly);
                rev.0.insert(rel, file);
            }
            i = i + 1;
        }
        assert(fv.take(n as int) =~= fv);
        Ok(rev)
    }
}

/// A file found in the directory of a workspace: its path, the time it was
/// last modified, and whether it is read-only.
pub struct FoundFile {
    pub path: RelPath,
    pub mtime: i64,
    pub readonly: bool,
}

pub type FoundView = (Seq<Seq<char>>, i64, bool);

pub open spec fn found_views(v: Seq<FoundFile>) -> Seq<FoundView> {
    v.map_values(|f: FoundFile| (f.path@, f.mtime, f.readonly))
}

/// The mode of a file of the workspace.
pub open spec fn file_mode(readonly: bool) -> u32 {
    if readonly {
        READONLY_FILE_MODE
    } else {
        EXECUTABLE_FILE_MODE
    }
}

/// Whether one of the components of a relative path is ignored.
pub open spec fn untracked(ignore: Set<Seq<char>>, rel: Seq<Seq<char>>) -> bool {
    exists|j: int| 0 <= j < rel.len() && ignore.contains(#[trigger] rel[j])
}

/// Whether `p` lies inside the workspace at `ws`, below its directory.
pub open spec fn inside(ws: Seq<Seq<char>>, p: Seq<Seq<char>>) -> bool {
    p.len() > ws.len() && p.take(ws.len() as int) == ws
}

/// A found file that the workspace cannot list.
pub open spec fn found_fails(ws: Seq<Seq<char>>, ignore: Set<Seq<char>>, f: FoundView) -> bool {
    !inside(ws, f.0) || (!untracked(ignore, f.0.skip(ws.len() as int)) && !is_normal_name(f.0.last()))
}

/// The files a workspace lists from the files found in it, a later one
/// winning over an earlier one with the same path.
pub open spec fn found_files(ws: Seq<Seq<char>>, ignore: Set<Seq<char>>, fs: Seq<FoundView>) -> Map<Seq<Seq<char>>, FileView>
    decreases fs.len(),
{
    if fs.len() == 0 {
        Map::empty()
    } else {
        let m = found_files(ws, ignore, fs.drop_last());
        let f = fs.last();
        let rel = f.0.skip(ws.len() as int);
        if untracked(ignore, rel) {
            m
        } else {
            m.insert(rel, (f.0.last(), None, f.1, file_mode(f.2)))
        }
    }
}

/// No path the workspace lists has an ignored component, its own name
/// included; and every path found inside the workspace with no ignored
/// component is listed, with the name, time and mode of the last file found
/// at that path.
pub proof fn lemma_found_files_unignored(ws: Seq<Seq<char>>, ignore: Set<Seq<char>>, fs: Seq<FoundView>)
    ensures
        forall|k: Seq<Seq<char>>, j: int|
            #[trigger] found_files(ws, ignore, fs).contains_key(k) && 0 <= j < k.len() ==> !ignore.contains(
                #[trigger] k[j],
            ),
        forall|i: int|
            0 <= i < fs.len() && (forall|j: int|
                0 <= j < (#[trigger] fs[i]).0.skip(ws.len() as int).len() ==> !ignore.contains(
                    fs[i].0.skip(ws.len() as int)[j],
                )) ==> found_files(ws, ignore, fs).contains_key(fs[i].0.skip(ws.len() as int)),
        forall|k: Seq<Seq<char>>|
            #[trigger] found_files(ws, ignore, fs).contains_key(k) ==> exists|i: int|
                0 <= i < fs.len() && (#[trigger] fs[i]).0.skip(ws.len() as int) == k && found_files(ws, ignore, fs)[k] == (
                    fs[i].0.last(),
                    None::<Seq<u8>>,
                    fs[i].1,
                    if fs[i].2 {
                        READONLY_FILE_MODE
                    } else {
                        EXECUTABLE_FILE_MODE
                    },
                ) && forall|j: int| i < j < fs.len() ==> (#[trigger] fs[j]).0.skip(ws.len() as int) != k,
    decreases fs.len(),
{
    if fs.len() > 0 {
        let pre = fs.drop_last();
        lemma_found_files_unignored(ws, ignore, pre);
        let rel = fs.last().0.skip(ws.len() as int);
        assert forall|k: Seq<Seq<char>>, j: int|
            #[trigger] found_files(ws, ignore, fs).contains_key(k) && 0 <= j < k.len() implies !ignore.contains(
                #[trigger] k[j],
            ) by {
            if k == rel && !untracked(ignore, rel) {
                if ignore.contains(k[j]) {
                    assert(untracked(ignore, rel));
                }
            } else {
                assert(found_files(ws, ignore, pre).contains_key(k));
            }
        }
        assert forall|i: int|
            0 <= i < fs.len() && (forall|j: int|
                0 <= j < (#[trigger] fs[i]).0.skip(ws.len() as int).len() ==> !ignore.contains(
                    fs[i].0.skip(ws.len() as int)[j],
                )) implies found_files(ws, ignore, fs).contains_key(fs[i].0.skip(ws.len() as int)) by {
            let r = fs[i].0.skip(ws.len() as int);
            if i < fs.len() - 1 {
                assert(pre[i] == fs[i]);
            } else {
                assert(!untracked(ignore, r));
            }
        }
        let last = fs.len() - 1;
        assert forall|k: Seq<Seq<char>>|
            #[trigger] found_files(ws, ignore, fs).contains_key(k) implies exists|i: int|
                0 <= i < fs.len() && (#[trigger] fs[i]).0.skip(ws.len() as int) == k && found_files(ws, ignore, fs)[k] == (
                    fs[i].0.last(),
                    None::<Seq<u8>>,
                    fs[i].1,
                    if fs[i].2 {
                        READONLY_FILE_MODE
                    } else {
                        EXECUTABLE_FILE_MODE
                    },
                ) && forall|j: int| i < j < fs.len() ==> (#[trigger] fs[j]).0.skip(ws.len() as int) != k by {
            if k == rel && !untracked(ignore, rel) {
                assert(fs[last].0.skip(ws.len() as int) == k);
            } else {
                let m = found_files(ws, ignore, pre);
                assert(m.contains_key(k));
                let i = choose|i: int|
                    0 <= i < pre.len() && (#[trigger] pre[i]).0.skip(ws.len() as int) == k && m[k] == (
                        pre[i].0.last(),
                        None::<Seq<u8>>,
                        pre[i].1,
                        if pre[i].2 {
                            READONLY_FILE_MODE
                        } else {
                            EXECUTABLE_FILE_MODE
                        },
                    ) && forall|j: int| i < j < pre.len() ==> (#[trigger] pre[j]).0.skip(ws.len() as int) != k;
                assert(pre[i] == fs[i]);
                if rel == k {
                    let jj = choose|jj: int| 0 <= jj < rel.len() && ignore.contains(#[trigger] rel[jj]);
                    assert(!ignore.contains(k[jj]));
                }
                assert forall|j: int| i < j < fs.len() implies (#[trigger] fs[j]).0.skip(ws.len() as int) != k by {
                    if j < last {
                        assert(pre[j] == fs[j]);
                    }
                }
            }
        }
    }
}

} // verus!
