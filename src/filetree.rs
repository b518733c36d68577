use vstd::prelude::*;

use crate::error::FileSystemError;

verus! {

/// What a directory node is, as a mathematical value.
pub struct DirNode {
    pub id: Seq<char>,
    pub name: Seq<char>,
    pub files: Seq<Seq<char>>,
    pub dirs: Seq<DirNode>,
    pub expanded: bool,
}

/// One directory of a project tree.
#[derive(Debug, PartialEq)]
pub struct FsDir {
    pub id: String,
    pub path: String,
    pub files: Vec<String>,
    pub dirs: Vec<FsDir>,
    pub expanded: bool,
}

/// The mathematical value of a tree node.
pub open spec fn node_of(d: FsDir) -> DirNode
    decreases d,
{
    DirNode {
        id: d.id@,
        name: d.path@,
        files: d.files@.map_values(|f: String| f@),
        dirs: Seq::new(d.dirs.len() as nat, |i: int| {
            if 0 <= i < d.dirs.len() {
                node_of(d.dirs[i])
            } else {
                arbitrary()
            }
        }),
        expanded: d.expanded,
    }
}

impl View for FsDir {
    type V = DirNode;

    open spec fn view(&self) -> DirNode {
        node_of(*self)
    }
}

/// A snapshot of one directory as the file system listed it: its own name and
/// path, the paths of the files in it and the subdirectories in it, each in
/// listing order. `listed` is false where the listing could not be read.
pub struct DirListing {
    pub name: String,
    pub path: String,
    pub listed: bool,
    pub files: Vec<String>,
    pub dirs: Vec<DirListing>,
}

/// The character of a decimal digit.
pub open spec fn digit_char(d: nat) -> char {
    if d == 0 { '0' } else if d == 1 { '1' } else if d == 2 { '2' } else if d == 3 { '3' }
    else if d == 4 { '4' } else if d == 5 { '5' } else if d == 6 { '6' } else if d == 7 { '7' }
    else if d == 8 { '8' } else { '9' }
}

/// The decimal numeral of `n`, without leading zeros.
pub open spec fn digits(n: nat) -> Seq<char>
    decreases n,
{
    if n < 10 {
        seq![digit_char(n)]
    } else {
        digits(n / 10) + seq![digit_char(n % 10)]
    }
}

/// The id of the subdirectory numbered `k` among the subdirectories of the
/// node whose id is `parent`.
pub open spec fn child_id(parent: Seq<char>, k: nat) -> Seq<char> {
    parent + seq!['_'] + digits(k)
}

/// The path of the first directory of the snapshot, in depth-first listing
/// order, whose listing could not be read; `None` where every one was read.
pub open spec fn first_unlisted(d: DirListing) -> Option<Seq<char>>
    decreases d, 1int,
{
    if !d.listed {
        Some(d.path@)
    } else {
        first_unlisted_from(d, 0)
    }
}

/// `first_unlisted` over the subdirectories of `d` from the one numbered `i` on.
pub open spec fn first_unlisted_from(d: DirListing, i: int) -> Option<Seq<char>>
    decreases d, 0int, d.dirs.len() - i,
{
    if i < 0 || i >= d.dirs.len() {
        None
    } else {
        match first_unlisted(d.dirs[i]) {
            Some(p) => Some(p),
            None => first_unlisted_from(d, i + 1),
        }
    }
}

/// The tree that a fully listed snapshot makes, its root numbered `id`:
/// names and files as listed, every node collapsed.
pub open spec fn tree_of(d: DirListing, id: Seq<char>) -> DirNode
    decreases d,
{
    DirNode {
        id,
        name: d.name@,
        files: d.files@.map_values(|f: String| f@),
        dirs: Seq::new(d.dirs.len() as nat, |i: int| {
            if 0 <= i < d.dirs.len() {
                tree_of(d.dirs[i], child_id(id, i as nat))
            } else {
                arbitrary()
            }
        }),
        expanded: false,
    }
}

fn digit_str(d: usize) -> (r: &'static str)
    requires
        d < 10,
    ensures
        r@ == seq![digit_char(d as nat)],
{
    proof {
        reveal_strlit("0");
        reveal_strlit("1");
        reveal_strlit("2");
        reveal_strlit("3");
        reveal_strlit("4");
        reveal_strlit("5");
        reveal_strlit("6");
        reveal_strlit("7");
        reveal_strlit("8");
        reveal_strlit("9");
    }
    if d == 0 { "0" } else if d == 1 { "1" } else if d == 2 { "2" } else if d == 3 { "3" }
    else if d == 4 { "4" } else if d == 5 { "5" } else if d == 6 { "6" } else if d == 7 { "7" }
    else if d == 8 { "8" } else { "9" }
}

fn push_digits(s: &mut String, n: usize)
    ensures
        final(s)@ == old(s)@ + digits(n as nat),
    decreases n,
{
    if n >= 10 {
        push_digits(s, n / 10);
    }
    s.append(digit_str(n % 10));
    assert(final(s)@ =~= old(s)@ + digits(n as nat));
}

/// The id of subdirectory number `count` of the node with id `parent_id`.
pub fn make_id(parent_id: &str, count: usize) -> (r: String)
    ensures
        r@ == child_id(parent_id@, count as nat),
{
    let mut id = parent_id.to_owned();
    proof {
        reveal_strlit("_");
    }
    id.append("_");
    push_digits(&mut id, count);
    assert(id@ =~= child_id(parent_id@, count as nat));
    id
}


proof fn lemma_first_unlisted_skip(d: DirListing, i: int)
    requires
        0 <= i <= d.dirs.len(),
        forall|j: int| 0 <= j < i ==> first_unlisted(#[trigger] d.dirs[j]) is None,
    ensures
        first_unlisted_from(d, 0) == first_unlisted_from(d, i),
    decreases i,
{
    if i > 0 {
        lemma_first_unlisted_skip(d, i - 1);
    }
}

/// Reads the snapshot `dir` into a tree node numbered `id_count` under the
/// node with id `parent_id`. The read is all or nothing: where any directory
/// of the snapshot could not be listed, the first such one is reported.
pub fn read_directory(dir: &DirListing, parent_id: &str, id_count: usize) -> (r: Result<
    FsDir,
    FileSystemError,
>)
    ensures
        match r {
            Ok(t) => first_unlisted(*dir) is None && t@ == tree_of(
                *dir,
                child_id(parent_id@, id_count as nat),
            ),
            Err(FileSystemError::ReadDirError { path }) => first_unlisted(*dir) == Some(path@),
            Err(_) => false,
        },
    decreases dir,
{
    if !dir.listed {
        return Err(FileSystemError::ReadDirError { path: dir.path.clone() });
    }
    let id = make_id(parent_id, id_count);
    let ghost tree = tree_of(*dir, id@);

    let mut files: Vec<String> = Vec::new();
    let mut i: usize = 0;
    while i < dir.files.len()
        invariant
            i <= dir.files.len(),
            files.len() == i,
            forall|j: int| 0 <= j < i ==> (#[trigger] files@[j])@ == dir.files@[j]@,
        decreases dir.files.len() - i,
    {
        files.push(dir.files[i].clone());
        i = i + 1;
    }

    let mut dirs: Vec<FsDir> = Vec::new();
    let mut k: usize = 0;
    while k < dir.dirs.len()
        invariant
            k <= dir.dirs.len(),
            dir.listed,
            dirs.len() == k,
            forall|j: int| 0 <= j < k ==> first_unlisted(#[trigger] dir.dirs[j]) is None,
            forall|j: int|
                0 <= j < k ==> (#[trigger] dirs@[j])@ == tree_of(dir.dirs[j], child_id(id@, j as nat)),
        decreases dir.dirs.len() - k,
    {
        match read_directory(&dir.dirs[k], &id, k) {
            Ok(child) => {
                dirs.push(child);
            },
            Err(e) => {
                proof {
                    lemma_first_unlisted_skip(*dir, k as int);
                }
                return Err(e);
            },
        }
        k = k + 1;
    }
    proof {
        lemma_first_unlisted_skip(*dir, k as int);
    }
    let t = FsDir { id, path: dir.name.clone(), files, dirs, expanded: false };
    assert(t@.files =~= tree.files);
    assert(t@.dirs =~= tree.dirs);
    Ok(t)
}


/// The name of the subdirectory that holds a project's sources.
pub open spec fn source_dir_name() -> Seq<char> {
    seq!['t', 'y', 'p', 's', 't']
}

/// The name of the subdirectory reserved for a project's output.
pub open spec fn output_dir_name() -> Seq<char> {
    seq!['p', 'd', 'f']
}

/// The id of a tree's root node.
pub open spec fn root_id() -> Seq<char> {
    child_id(Seq::empty(), 0)
}

/// Some subdirectory of `d` is named `name`.
pub open spec fn has_dir_named(d: DirListing, name: Seq<char>) -> bool {
    exists|i: int| 0 <= i < d.dirs.len() && (#[trigger] d.dirs[i]).name@ == name
}

/// Subdirectory `i` of `d` is the first one named `name`.
pub open spec fn is_first_named(d: DirListing, i: int, name: Seq<char>) -> bool {
    &&& 0 <= i < d.dirs.len()
    &&& d.dirs[i].name@ == name
    &&& forall|j: int| 0 <= j < i ==> (#[trigger] d.dirs[j]).name@ != name
}

/// Checks that `root` is a project directory, one with both a `typst` and a
/// `pdf` subdirectory, and gives the position of the `typst` one.
pub fn validate_memristor_dir_structure(root: &DirListing) -> (r: Result<usize, FileSystemError>)
    ensures
        match r {
            Ok(i) => root.listed && is_first_named(*root, i as int, source_dir_name())
                && has_dir_named(*root, output_dir_name()),
            Err(FileSystemError::ReadDirError { path }) => !root.listed && path@ == root.path@,
            Err(FileSystemError::NotMemristerDirectory) => root.listed && !(has_dir_named(
                *root,
                source_dir_name(),
            ) && has_dir_named(*root, output_dir_name())),
            Err(_) => false,
        },
{
    if !root.listed {
        return Err(FileSystemError::ReadDirError { path: root.path.clone() });
    }
    let typst = "typst".to_owned();
    let pdf = "pdf".to_owned();
    proof {
        reveal_strlit("typst");
        reveal_strlit("pdf");
        assert(typst@ =~= source_dir_name());
        assert(pdf@ =~= output_dir_name());
    }
    let mut source: Option<usize> = None;
    let mut has_pdf = false;
    let mut k: usize = 0;
    while k < root.dirs.len()
        invariant
            k <= root.dirs.len(),
            typst@ == source_dir_name(),
            pdf@ == output_dir_name(),
            match source {
                Some(t) => t < k && is_first_named(*root, t as int, source_dir_name()),
                None => forall|j: int| 0 <= j < k ==> (#[trigger] root.dirs[j]).name@ != source_dir_name(),
            },
            has_pdf <==> exists|j: int| 0 <= j < k && (#[trigger] root.dirs[j]).name@ == output_dir_name(),
        decreases root.dirs.len() - k,
    {
        if root.dirs[k].name == pdf {
            has_pdf = true;
        } else if root.dirs[k].name == typst && source.is_none() {
            source = Some(k);
        }
        k = k + 1;
    }
    match source {
        Some(t) if has_pdf => Ok(t),
        _ => Err(FileSystemError::NotMemristerDirectory),
    }
}

/// `root` holds both a `typst` and a `pdf` subdirectory.
pub open spec fn has_project_layout(root: DirListing) -> bool {
    has_dir_named(root, source_dir_name()) && has_dir_named(root, output_dir_name())
}

/// The position of the first `typst` subdirectory of `root`.
pub open spec fn source_index(root: DirListing) -> int {
    choose|i: int| is_first_named(root, i, source_dir_name())
}

/// Reading `root` as a project succeeds: it is listed, has the project
/// layout, and all of its `typst` subtree is listed.
pub open spec fn opens(root: DirListing) -> bool {
    &&& root.listed
    &&& has_project_layout(root)
    &&& first_unlisted(root.dirs[source_index(root)]) is None
}

/// The tree that reading the project directory `root` gives.
pub open spec fn project_tree(root: DirListing) -> DirNode {
    tree_of(root.dirs[source_index(root)], root_id())
}

/// `e` is the error that reading `root` as a project reports.
pub open spec fn is_read_error(root: DirListing, e: FileSystemError) -> bool {
    match e {
        FileSystemError::ReadDirError { path } => (!root.listed && path@ == root.path@) || (
        root.listed && has_project_layout(root) && first_unlisted(root.dirs[source_index(root)])
            == Some(path@)),
        FileSystemError::NotMemristerDirectory => root.listed && !has_project_layout(root),
        _ => false,
    }
}

proof fn lemma_source_index(root: DirListing, i: int)
    requires
        is_first_named(root, i, source_dir_name()),
    ensures
        source_index(root) == i,
{
    let j = source_index(root);
    assert(is_first_named(root, j, source_dir_name()));
    if j < i {
        assert(root.dirs[j].name@ != source_dir_name());
    } else if i < j {
        assert(root.dirs[i].name@ != source_dir_name());
    }
}

proof fn lemma_first_named_exists(d: DirListing, name: Seq<char>, k: int)
    requires
        0 <= k < d.dirs.len(),
        d.dirs[k].name@ == name,
    ensures
        exists|i: int| is_first_named(d, i, name),
    decreases k,
{
    if exists|j: int| 0 <= j < k && (#[trigger] d.dirs[j]).name@ == name {
        let j = choose|j: int| 0 <= j < k && (#[trigger] d.dirs[j]).name@ == name;
        lemma_first_named_exists(d, name, j);
    } else {
        assert(is_first_named(d, k, name));
    }
}

/// A listed directory without a `pdf` subdirectory is no project: reading it
/// fails, and `NotMemristerDirectory` is the one error it can report. A
/// project is read into a tree whose root is its `typst` subdirectory, with
/// the id `_0`.
pub proof fn lemma_layout_validation(root: DirListing)
    ensures
        root.listed && !has_dir_named(root, output_dir_name()) ==> !opens(root) && forall|
            e: FileSystemError,
        | #[trigger] is_read_error(root, e) ==> e is NotMemristerDirectory,
        opens(root) ==> project_tree(root).name == source_dir_name() && project_tree(root).id
            == root_id(),
{
    if opens(root) {
        let k = choose|k: int| 0 <= k < root.dirs.len() && (#[trigger] root.dirs[k]).name@
            == source_dir_name();
        lemma_first_named_exists(root, source_dir_name(), k);
        assert(is_first_named(root, source_index(root), source_dir_name()));
    }
}

/// Reads a project directory: checks its layout, then reads its `typst`
/// subdirectory into a tree whose root has the id `_0`.
pub fn read_filesystem(root: &DirListing) -> (r: Result<FsDir, FileSystemError>)
    ensures
        match r {
            Ok(t) => opens(*root) && t@ == project_tree(*root),
            Err(e) => !opens(*root) && is_read_error(*root, e),
        },
{
    match validate_memristor_dir_structure(root) {
        Err(e) => Err(e),
        Ok(i) => {
            proof {
                reveal_strlit("");
                lemma_source_index(*root, i as int);
            }
            let r = read_directory(&root.dirs[i], "", 0);
            assert(child_id(""@, 0) =~= root_id());
            r
        },
    }
}

/// Messages that change a file tree.
pub enum Message {
    /// Flip the expansion of the node with this id.
    ToggleExpandDir(String),
    /// A file was picked; the tree itself does not change.
    OpenFile(String),
    /// Replace the tree by the project read from this snapshot.
    OpenDir(DirListing),
}

/// The project tree shown beside the editor: empty until a directory is opened.
pub struct FileTree {
    pub root: Option<FsDir>,
    pub focus_path: Option<String>,
}

impl FileTree {
    /// The tree of the opened project, if one is open.
    pub open spec fn root_view(&self) -> Option<DirNode> {
        match self.root {
            Some(t) => Some(t@),
            None => None,
        }
    }

    /// A tree with no project open.
    pub fn new() -> (r: FileTree)
        ensures
            r.root is None,
            r.focus_path is None,
    {
        FileTree { root: None, focus_path: None }
    }

    /// Applies one message. A project that cannot be read leaves the tree as
    /// it was and reports why; the other messages never fail.
    pub fn update(&mut self, message: Message) -> (r: Result<(), FileSystemError>)
        ensures
            final(self).focus_path == old(self).focus_path,
            match message {
                Message::ToggleExpandDir(id) => r is Ok && final(self).root_view() == match old(self).root_view() {
                    Some(t) => Some(t.toggled(id@)),
                    None => None,
                },
                Message::OpenFile(_) => r is Ok && final(self).root_view() == old(self).root_view(),
                Message::OpenDir(listing) => match r {
                    Ok(_) => opens(listing) && final(self).root_view() == Some(
                        project_tree(listing),
                    ),
                    Err(e) => !opens(listing) && is_read_error(listing, e)
                        && final(self).root_view() == old(self).root_view(),
                },
            },
    {
        match message {
            Message::ToggleExpandDir(id) => {
                match self.root.take() {
                    Some(mut t) => {
                        t.toggle_expanded(&id);
                        self.root = Some(t);
                    },
                    None => {},
                }
                Ok(())
            },
            Message::OpenFile(_) => Ok(()),
            Message::OpenDir(listing) => {
                match read_filesystem(&listing) {
                    Ok(t) => {
                        self.root = Some(t);
                        Ok(())
                    },
                    Err(e) => Err(e),
                }
            },
        }
    }
}

impl DirNode {
    /// Some node of this tree has the id `id`.
    pub open spec fn has_id(self, id: Seq<char>) -> bool
        decreases self,
    {
        self.id == id || exists|i: int|
            0 <= i < self.dirs.len() && (#[trigger] self.dirs[i]).has_id(id)
    }

    /// This tree with the expansion flag of one node flipped: the first node
    /// with id `id` that a depth-first search meets, where the search looks at
    /// a node before its children and at later children before earlier ones.
    /// The tree is unchanged where no node has that id.
    pub open spec fn toggled(self, id: Seq<char>) -> DirNode
        decreases self,
    {
        if self.id == id {
            DirNode { expanded: !self.expanded, ..self }
        } else {
            let i = last_with_id(self.dirs, id, self.dirs.len() as int);
            if 0 <= i < self.dirs.len() {
                DirNode { dirs: self.dirs.update(i, self.dirs[i].toggled(id)), ..self }
            } else {
                self
            }
        }
    }
}

/// The last of the first `n` trees of `dirs` that has a node with id `id`;
/// -1 where none has.
pub open spec fn last_with_id(dirs: Seq<DirNode>, id: Seq<char>, n: int) -> int
    decreases n,
{
    if n <= 0 {
        -1
    } else if dirs[n - 1].has_id(id) {
        n - 1
    } else {
        last_with_id(dirs, id, n - 1)
    }
}

/// The tree with the expansion flag of the node at `path` flipped, and no
/// other change; a path lists child positions from the root down.
pub open spec fn flip_at(t: DirNode, path: Seq<int>) -> DirNode
    decreases path.len(),
{
    if path.len() == 0 {
        DirNode { expanded: !t.expanded, ..t }
    } else if 0 <= path[0] < t.dirs.len() {
        DirNode { dirs: t.dirs.update(path[0], flip_at(t.dirs[path[0]], path.drop_first())), ..t }
    } else {
        t
    }
}

/// The node at `path` in `t`.
pub open spec fn node_at(t: DirNode, path: Seq<int>) -> DirNode
    decreases path.len(),
{
    if path.len() == 0 {
        t
    } else if 0 <= path[0] < t.dirs.len() {
        node_at(t.dirs[path[0]], path.drop_first())
    } else {
        t
    }
}

/// The path to the node that `toggled` flips.
pub open spec fn toggle_path(t: DirNode, id: Seq<char>) -> Seq<int>
    decreases t,
{
    if t.id == id {
        Seq::empty()
    } else {
        let i = last_with_id(t.dirs, id, t.dirs.len() as int);
        if 0 <= i < t.dirs.len() {
            seq![i] + toggle_path(t.dirs[i], id)
        } else {
            Seq::empty()
        }
    }
}

proof fn lemma_last_with_id(dirs: Seq<DirNode>, id: Seq<char>, n: int)
    requires
        0 <= n <= dirs.len(),
    ensures
        -1 <= last_with_id(dirs, id, n) < n,
        last_with_id(dirs, id, n) >= 0 ==> dirs[last_with_id(dirs, id, n)].has_id(id),
        forall|j: int| last_with_id(dirs, id, n) < j < n ==> !(#[trigger] dirs[j]).has_id(id),
        (exists|j: int| 0 <= j < n && (#[trigger] dirs[j]).has_id(id)) ==> last_with_id(dirs, id, n)
            >= 0,
    decreases n,
{
    if n > 0 {
        lemma_last_with_id(dirs, id, n - 1);
    }
}

proof fn lemma_last_with_id_same(d1: Seq<DirNode>, d2: Seq<DirNode>, id: Seq<char>, n: int)
    requires
        n <= d1.len(),
        n <= d2.len(),
        forall|j: int| 0 <= j < n ==> (#[trigger] d1[j]).has_id(id) == d2[j].has_id(id),
    ensures
        last_with_id(d1, id, n) == last_with_id(d2, id, n),
    decreases n,
{
    if n > 0 {
        lemma_last_with_id_same(d1, d2, id, n - 1);
    }
}

/// Toggling keeps every id where it was: the same ids occur after it.
pub proof fn lemma_toggled_same_ids(t: DirNode, id: Seq<char>, x: Seq<char>)
    ensures
        t.toggled(id).has_id(x) == t.has_id(x),
    decreases t,
{
    let t1 = t.toggled(id);
    if t.id == id {
        assert(t1.dirs == t.dirs && t1.id == t.id);
        if t.has_id(x) && t.id != x {
            let j = choose|j: int| 0 <= j < t.dirs.len() && (#[trigger] t.dirs[j]).has_id(x);
            assert(t1.dirs[j].has_id(x));
        }
    } else {
        let i = last_with_id(t.dirs, id, t.dirs.len() as int);
        lemma_last_with_id(t.dirs, id, t.dirs.len() as int);
        if 0 <= i < t.dirs.len() {
            lemma_toggled_same_ids(t.dirs[i], id, x);
            if t.has_id(x) && t.id != x {
                let j = choose|j: int| 0 <= j < t.dirs.len() && (#[trigger] t.dirs[j]).has_id(x);
                assert(t1.dirs[j].has_id(x));
            }
            if t1.has_id(x) && t1.id != x {
                let j = choose|j: int| 0 <= j < t1.dirs.len() && (#[trigger] t1.dirs[j]).has_id(x);
                assert(t.dirs[j].has_id(x));
            }
        }
    }
}

/// Where some node has the id, toggling flips exactly the node at
/// `toggle_path`, which has that id, and changes nothing else.
pub proof fn lemma_toggle_flips_one(t: DirNode, id: Seq<char>)
    requires
        t.has_id(id),
    ensures
        t.toggled(id) == flip_at(t, toggle_path(t, id)),
        node_at(t, toggle_path(t, id)).id == id,
    decreases t,
{
    if t.id != id {
        let n = t.dirs.len() as int;
        let i = last_with_id(t.dirs, id, n);
        lemma_last_with_id(t.dirs, id, n);
        let rest = toggle_path(t.dirs[i], id);
        lemma_toggle_flips_one(t.dirs[i], id);
        let path = seq![i] + rest;
        assert(path.drop_first() =~= rest);
        assert(toggle_path(t, id) == path);
    }
}

impl FsDir {
    /// A node of this tree has the id `id`.
    pub fn contains_id(&self, id: &String) -> (r: bool)
        ensures
            r == self@.has_id(id@),
        decreases self,
    {
        if self.id == *id {
            return true;
        }
        proof {
            lemma_view_dirs(self);
        }
        let mut k: usize = 0;
        while k < self.dirs.len()
            invariant
                k <= self.dirs.len(),
                forall|j: int| 0 <= j < k ==> !(#[trigger] self@.dirs[j]).has_id(id@),
            decreases self.dirs.len() - k,
        {
            proof {
                broadcast use vstd::std_specs::vec::axiom_vec_index_decreases;

                assert(decreases_to!(self.dirs => self.dirs[k as int]));
            }
            if self.dirs[k].contains_id(id) {
                assert(self@.dirs[k as int].has_id(id@));
                return true;
            }
            k = k + 1;
        }
        false
    }

    /// Flips the expansion flag of the first node with id `id` that a
    /// depth-first search meets (a node before its children, later children
    /// before earlier ones), and of no other node; the tree is left as it was
    /// where no node has that id. Tells whether one had it.
    pub fn toggle_expanded(&mut self, id: &String) -> (found: bool)
        ensures
            final(self)@ == old(self)@.toggled(id@),
            found == old(self)@.has_id(id@),
            found ==> final(self)@ == flip_at(old(self)@, toggle_path(old(self)@, id@)) && node_at(
                old(self)@,
                toggle_path(old(self)@, id@),
            ).id == id@,
            !found ==> final(self)@ == old(self)@,
        decreases *old(self),
    {
        if self.id == *id {
            self.expanded = !self.expanded;
            return true;
        }
        let ghost before = self@;
        let ghost me = *self;
        proof {
            lemma_view_dirs(self);
        }
        let n = self.dirs.len();
        let mut k: usize = n;
        let mut searching = true;
        while searching && k > 0
            invariant
                k <= n,
                n == self.dirs.len(),
                *self == me,
                me == *old(self),
                before == me@,
                before.dirs.len() == n,
                forall|j: int| 0 <= j < n ==> #[trigger] before.dirs[j] == me.dirs[j]@,
                forall|j: int|
                    k + (if searching { 0int } else { 1int }) <= j < n ==> !(
                    #[trigger] before.dirs[j]).has_id(id@),
                !searching ==> k < n && before.dirs[k as int].has_id(id@),
            decreases k + if searching { 1int } else { 0int },
        {
            if self.dirs[k - 1].contains_id(id) {
                searching = false;
            }
            k = k - 1;
        }
        proof {
            lemma_last_with_id(before.dirs, id@, n as int);
        }
        if searching {
            proof {
                lemma_toggle_unknown(before, id@);
            }
            return false;
        }
        assert(last_with_id(before.dirs, id@, n as int) == k);
        let mut child = self.dirs.remove(k);
        proof {
            broadcast use vstd::std_specs::vec::axiom_vec_index_decreases;

            assert(decreases_to!(me.dirs => me.dirs[k as int]));
            assert(decreases_to!(me => child));
        }
        child.toggle_expanded(id);
        self.dirs.insert(k, child);
        proof {
            lemma_view_dirs(self);
            assert(self@.dirs =~= before.dirs.update(k as int, before.dirs[k as int].toggled(id@)));
            assert(self@.files =~= before.files);
            lemma_toggle_flips_one(before, id@);
        }
        true
    }
}

proof fn lemma_view_dirs(d: &FsDir)
    ensures
        d@.dirs.len() == d.dirs.len(),
        forall|i: int| 0 <= i < d.dirs.len() ==> #[trigger] d@.dirs[i] == d.dirs[i]@,
{
}

/// Toggling the same id twice gives back the tree as it was.
pub proof fn lemma_toggle_twice(t: DirNode, id: Seq<char>)
    ensures
        t.toggled(id).toggled(id) == t,
    decreases t,
{
    if t.id != id {
        let n = t.dirs.len() as int;
        let i = last_with_id(t.dirs, id, n);
        lemma_last_with_id(t.dirs, id, n);
        if 0 <= i < n {
            let t1 = t.toggled(id);
            assert forall|j: int| 0 <= j < n implies (#[trigger] t1.dirs[j]).has_id(id)
                == t.dirs[j].has_id(id) by {
                if j == i {
                    lemma_toggled_same_ids(t.dirs[i], id, id);
                }
            }
            lemma_last_with_id_same(t1.dirs, t.dirs, id, n);
            lemma_toggle_twice(t.dirs[i], id);
            assert(t1.toggled(id).dirs =~= t.dirs);
        }
    }
}

/// Toggling an id that no node has changes nothing.
pub proof fn lemma_toggle_unknown(t: DirNode, id: Seq<char>)
    requires
        !t.has_id(id),
    ensures
        t.toggled(id) == t,
{
    lemma_last_with_id(t.dirs, id, t.dirs.len() as int);
}

proof fn lemma_digits_len(n: nat)
    ensures
        digits(n).len() >= 1,
        n >= 10 ==> digits(n).len() >= 2,
    decreases n,
{
    if n >= 10 {
        lemma_digits_len(n / 10);
    }
}

/// Distinct numbers have distinct numerals.
pub proof fn lemma_digits_injective(a: nat, b: nat)
    requires
        digits(a) == digits(b),
    ensures
        a == b,
    decreases a,
{
    lemma_digits_len(a);
    lemma_digits_len(b);
    if a >= 10 && b >= 10 {
        let da = digits(a);
        assert(da.drop_last() =~= digits(a / 10));
        assert(digits(b).drop_last() =~= digits(b / 10));
        assert(da.last() == digit_char(a % 10));
        assert(digits(b).last() == digit_char(b % 10));
        lemma_digits_injective(a / 10, b / 10);
        assert(a % 10 == b % 10);
        assert(a == 10 * (a / 10) + a % 10);
        assert(b == 10 * (b / 10) + b % 10);
        assert(a == b);
    } else if a < 10 && b < 10 {
        assert(digits(a)[0] == digit_char(a));
        assert(digits(b)[0] == digit_char(b));
        assert(digit_char(a) == digit_char(b));
    } else if a < 10 {
        assert(digits(a).len() == 1);
    } else {
        assert(digits(b).len() == 1);
    }
}

/// Subdirectories numbered differently under one parent get different ids.
pub proof fn lemma_child_id_injective(parent: Seq<char>, i: nat, j: nat)
    requires
        child_id(parent, i) == child_id(parent, j),
    ensures
        i == j,
{
    let n = parent.len() + 1int;
    assert(child_id(parent, i).subrange(n, child_id(parent, i).len() as int) =~= digits(i));
    assert(child_id(parent, j).subrange(n, child_id(parent, j).len() as int) =~= digits(j));
    lemma_digits_injective(i, j);
}

/// In a tree read from a snapshot, the ids of a node's children are pairwise
/// distinct, and each one extends the node's own id.
pub proof fn lemma_child_ids(d: DirListing, id: Seq<char>)
    ensures
        forall|i: int, j: int|
            0 <= i < j < d.dirs.len() ==> (#[trigger] tree_of(d, id).dirs[i]).id
                != (#[trigger] tree_of(d, id).dirs[j]).id,
        forall|i: int|
            0 <= i < d.dirs.len() ==> (#[trigger] tree_of(d, id).dirs[i]).id.len() > id.len()
                && tree_of(d, id).dirs[i].id.subrange(0, id.len() as int) == id,
{
    let t = tree_of(d, id);
    assert forall|i: int, j: int| 0 <= i < j < d.dirs.len() implies (#[trigger] t.dirs[i]).id
        != (#[trigger] t.dirs[j]).id by {
        assert(t.dirs[i] == tree_of(d.dirs[i], child_id(id, i as nat)));
        assert(t.dirs[j] == tree_of(d.dirs[j], child_id(id, j as nat)));
        if t.dirs[i].id == t.dirs[j].id {
            lemma_child_id_injective(id, i as nat, j as nat);
        }
    }
    assert forall|i: int| 0 <= i < d.dirs.len() implies (#[trigger] t.dirs[i]).id.len() > id.len()
        && t.dirs[i].id.subrange(0, id.len() as int) == id by {
        assert(t.dirs[i] == tree_of(d.dirs[i], child_id(id, i as nat)));
        assert(t.dirs[i].id.subrange(0, id.len() as int) =~= id);
    }
}

} // verus!
