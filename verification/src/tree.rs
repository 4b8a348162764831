//! The tree of directories and files that a bigfile's entries make.
use vstd::prelude::*;
use vstd::multiset::Multiset;
use crate::path::{copy_string, PathParts};
use crate::text::{name_less, name_lt, lemma_name_lt_irreflexive, lemma_name_lt_total,
    lemma_name_lt_transitive};

verus! {

broadcast use {
    vstd::seq_lib::group_to_multiset_ensures,
    vstd::multiset::group_multiset_axioms,
    vstd::multiset::lemma_multiset_empty_len,
};

/// A file of the bigfile: its name, a number that tells it from every other
/// file of the same tree, and its full path inside the bigfile.
pub struct File {
    pub name: String,
    pub id: u64,
    pub path: PathParts,
}

/// What a `File` holds, as plain values.
pub struct FileInfo {
    pub name: Seq<char>,
    pub id: u64,
    pub path: Seq<Seq<char>>,
}

impl View for File {
    type V = FileInfo;

    open spec fn view(&self) -> FileInfo {
        FileInfo { name: self.name@, id: self.id, path: self.path@ }
    }
}

impl File {
    pub fn new(name: String, id: u64, path: PathParts) -> (f: File)
        ensures
            f.name@ == name@,
            f.id == id,
            f.path@ == path@,
    {
        File { name, id, path }
    }

    /// An equal copy.
    pub fn duplicate(&self) -> (f: File)
        ensures
            f@ == self@,
    {
        File { name: copy_string(&self.name), id: self.id, path: self.path.duplicate() }
    }
}

/// Two files are the same file when their numbers are equal.
impl PartialEq for File {
    fn eq(&self, other: &Self) -> (r: bool) {
        self.id == other.id
    }
}

impl vstd::std_specs::cmp::PartialEqSpecImpl for File {
    open spec fn obeys_eq_spec() -> bool {
        true
    }

    open spec fn eq_spec(&self, other: &Self) -> bool {
        self.id == other.id
    }
}

/// A named subdirectory.
pub struct Subdir {
    pub name: String,
    pub dir: Dir,
}

/// A directory: the files right in it, and its subdirectories, held in the
/// order of their names, each name once.
pub struct Dir {
    pub files: Vec<File>,
    pub dirs: Vec<Subdir>,
}

/// The plain values of a sequence of files.
pub open spec fn file_infos(s: Seq<File>) -> Seq<FileInfo> {
    s.map_values(|f: File| f@)
}

/// Names strictly increasing along the sequence.
pub open spec fn names_sorted(s: Seq<Subdir>) -> bool {
    forall|i: int, j: int| 0 <= i < j < s.len() ==> name_lt(#[trigger] s[i].name@, #[trigger] s[j].name@)
}

impl Dir {
    /// The empty directory.
    pub fn new() -> (d: Dir)
        ensures
            d.wf(),
            d.compact(),
            d.files@.len() == 0,
            d.dirs@.len() == 0,
            d.entries() =~= Multiset::empty(),
    {
        let d = Dir { files: Vec::new(), dirs: Vec::new() };
        assert(file_infos(d.files@).len() == 0);
        assert(d.entries() =~= Multiset::empty());
        d
    }

    /// Every directory of the tree holds its subdirectories sorted by name,
    /// each name once, as the map from names to directories does.
    pub open spec fn wf(&self) -> bool
        decreases self,
    {
        &&& names_sorted(self.dirs@)
        &&& forall|i: int| 0 <= i < self.dirs@.len() ==> (#[trigger] self.dirs@[i]).dir.wf()
    }

    /// Every file of the tree under `loc` has as its path the path of its
    /// directory followed by its name.
    pub open spec fn paths_match(&self, loc: Seq<Seq<char>>) -> bool
        decreases self,
    {
        &&& forall|i: int| 0 <= i < self.files@.len() ==> (#[trigger] self.files@[i]).path@ == loc.push(self.files@[i].name@)
        &&& forall|i: int| 0 <= i < self.dirs@.len() ==> (#[trigger] self.dirs@[i]).dir.paths_match(loc.push(self.dirs@[i].name@))
    }

    /// No subdirectory of the tree is without files.
    pub open spec fn compact(&self) -> bool
        decreases self,
    {
        forall|i: int| 0 <= i < self.dirs@.len() ==> {
            &&& (#[trigger] self.dirs@[i]).dir.entries().len() > 0
            &&& self.dirs@[i].dir.compact()
        }
    }

    /// The subdirectory named `name`, if there is one.
    pub open spec fn child(&self, name: Seq<char>) -> Option<Dir> {
        child_in(self.dirs@, name)
    }

    /// The directory reached from this one by the names of `rel`, if every
    /// one of them names a subdirectory on the way.
    pub open spec fn dir_at(&self, rel: Seq<Seq<char>>) -> Option<Dir>
        decreases rel.len(),
    {
        if rel.len() == 0 {
            Some(*self)
        } else {
            match self.child(rel[0]) {
                Some(d) => d.dir_at(rel.drop_first()),
                None => None,
            }
        }
    }

    /// All files of the tree, as plain values.
    pub open spec fn entries(&self) -> Multiset<FileInfo>
        decreases self, 1int,
    {
        file_infos(self.files@).to_multiset().add(subdir_entries(self.dirs@))
    }
}

/// All files under the given subdirectories.
pub open spec fn subdir_entries(s: Seq<Subdir>) -> Multiset<FileInfo>
    decreases s, 0int,
{
    if s.len() == 0 {
        Multiset::empty()
    } else {
        subdir_entries(s.drop_last()).add(s.last().dir.entries())
    }
}

/// Where a file named `name` goes into a run of files sorted by name: after
/// every file whose name is not greater, before the first whose name is.
pub open spec fn insert_pos(s: Seq<FileInfo>, name: Seq<char>) -> int
    decreases s.len(),
{
    if s.len() == 0 {
        0
    } else if name_lt(name, s[0].name) {
        0
    } else {
        1 + insert_pos(s.drop_first(), name)
    }
}

/// The files sorted by name, those of equal names kept in the order they
/// came in: the stable sort that `sort_by` with `name.cmp` performs.
pub open spec fn sort_by_name(s: Seq<FileInfo>) -> Seq<FileInfo>
    decreases s.len(),
{
    if s.len() == 0 {
        s
    } else {
        let r = sort_by_name(s.drop_last());
        r.insert(insert_pos(r, s.last().name), s.last())
    }
}

proof fn lemma_insert_pos_bounds(s: Seq<FileInfo>, name: Seq<char>)
    ensures
        0 <= insert_pos(s, name) <= s.len(),
    decreases s.len(),
{
    if s.len() > 0 {
        lemma_insert_pos_bounds(s.drop_first(), name);
    }
}

/// The position found by a scan from the front is `insert_pos`.
proof fn lemma_insert_pos_scan(s: Seq<FileInfo>, name: Seq<char>, p: int)
    requires
        0 <= p <= s.len(),
        forall|j: int| 0 <= j < p ==> !name_lt(name, #[trigger] s[j].name),
        p < s.len() ==> name_lt(name, s[p].name),
    ensures
        insert_pos(s, name) == p,
    decreases p,
{
    if p > 0 {
        assert(!name_lt(name, s[0].name));
        let t = s.drop_first();
        assert forall|j: int| 0 <= j < p - 1 implies !name_lt(name, #[trigger] t[j].name) by {
            assert(t[j] == s[j + 1]);
        }
        lemma_insert_pos_scan(t, name, p - 1);
    }
}

/// `insert_pos` stops at the first greater name.
proof fn lemma_insert_pos_props(s: Seq<FileInfo>, name: Seq<char>)
    ensures
        0 <= insert_pos(s, name) <= s.len(),
        forall|j: int| 0 <= j < insert_pos(s, name) ==> !name_lt(name, #[trigger] s[j].name),
        insert_pos(s, name) < s.len() ==> name_lt(name, s[insert_pos(s, name)].name),
    decreases s.len(),
{
    lemma_insert_pos_bounds(s, name);
    if s.len() > 0 && !name_lt(name, s[0].name) {
        let t = s.drop_first();
        lemma_insert_pos_props(t, name);
        assert forall|j: int| 0 <= j < insert_pos(s, name) implies !name_lt(name, #[trigger] s[j].name) by {
            if j > 0 {
                assert(s[j] == t[j - 1]);
            }
        }
    }
}

/// No file of the sequence has a name less than one before it.
pub open spec fn sorted_by_name(s: Seq<FileInfo>) -> bool {
    forall|i: int, j: int| 0 <= i < j < s.len() ==> !name_lt(#[trigger] s[j].name, #[trigger] s[i].name)
}

/// Sorting files by name gives them in order of name, and gives the same
/// files, each as often as before.
pub proof fn lemma_sort_by_name_sorted_permutation(s: Seq<FileInfo>)
    ensures
        sorted_by_name(sort_by_name(s)),
        sort_by_name(s).to_multiset() =~= s.to_multiset(),
    decreases s.len(),
{
    if s.len() > 0 {
        let r = sort_by_name(s.drop_last());
        lemma_sort_by_name_sorted_permutation(s.drop_last());
        let x = s.last();
        let p = insert_pos(r, x.name);
        lemma_insert_pos_props(r, x.name);
        let t = r.insert(p, x);
        assert(sort_by_name(s) == t);
        assert forall|i: int, j: int| 0 <= i < j < t.len() implies !name_lt(#[trigger] t[j].name, #[trigger] t[i].name) by {
            if j < p {
                assert(t[i] == r[i] && t[j] == r[j]);
            } else if j == p {
                assert(t[i] == r[i]);
            } else if i == p {
                assert(t[j] == r[j - 1]);
                if name_lt(r[j - 1].name, x.name) {
                    lemma_name_lt_transitive(r[j - 1].name, x.name, r[p].name);
                    if j - 1 == p {
                        lemma_name_lt_irreflexive(r[p].name);
                    }
                }
            } else if i < p {
                assert(t[i] == r[i] && t[j] == r[j - 1]);
            } else {
                assert(t[i] == r[i - 1] && t[j] == r[j - 1]);
            }
        }
        assert(s =~= s.drop_last().push(x));
    }
}

/// Sorting files that are in order of name already leaves them as they are,
/// so sorting again changes nothing.
pub proof fn lemma_sort_by_name_keeps_sorted(s: Seq<FileInfo>)
    requires
        sorted_by_name(s),
    ensures
        sort_by_name(s) == s,
    decreases s.len(),
{
    if s.len() > 0 {
        let t = s.drop_last();
        assert(sorted_by_name(t)) by {
            assert forall|i: int, j: int| 0 <= i < j < t.len() implies !name_lt(#[trigger] t[j].name, #[trigger] t[i].name) by {
                assert(t[i] == s[i] && t[j] == s[j]);
            }
        }
        lemma_sort_by_name_keeps_sorted(t);
        assert forall|j: int| 0 <= j < t.len() implies !name_lt(s.last().name, #[trigger] t[j].name) by {
            assert(t[j] == s[j]);
        }
        lemma_insert_pos_scan(t, s.last().name, t.len() as int);
        assert(t.insert(t.len() as int, s.last()) =~= s);
    }
}

/// The last of the subdirectories named `name`, if there is one.
pub open spec fn child_in(s: Seq<Subdir>, name: Seq<char>) -> Option<Dir>
    decreases s.len(),
{
    if s.len() == 0 {
        None
    } else if s.last().name@ == name {
        Some(s.last().dir)
    } else {
        child_in(s.drop_last(), name)
    }
}

/// The file that putting `path[start..]` under a directory at `prefix`
/// numbered `id` adds.
pub open spec fn inserted_file(path: Seq<Seq<char>>, start: int, id: u64, prefix: Seq<Seq<char>>) -> FileInfo {
    FileInfo { name: path.last(), id, path: prefix + path.skip(start) }
}

/// What putting the file at `path[start..]` under the directory `before`,
/// whose own path is `prefix`, makes of it: the file joins the tree, last
/// among the files of the directory at `path[start..len - 1]`, which is
/// made where missing; the files of every other directory stay as they
/// were; and the tree stays well formed, consistent and compact as it was.
pub open spec fn insert_post(
    before: Dir,
    after: Dir,
    path: Seq<Seq<char>>,
    start: int,
    id: u64,
    prefix: Seq<Seq<char>>,
) -> bool {
    let x = inserted_file(path, start, id, prefix);
    let target = path.subrange(start, path.len() - 1);
    &&& after.wf()
    &&& after.entries() =~= before.entries().insert(x)
    &&& after.dir_at(target) is Some
    &&& files_at(after, target) == files_at(before, target).push(x)
    &&& forall|rel: Seq<Seq<char>>| rel != target ==> #[trigger] files_at(after, rel) == files_at(before, rel)
    &&& before.paths_match(prefix) ==> after.paths_match(prefix)
    &&& before.compact() ==> after.compact()
}

/// The files right in the directory at `rel`, none where there is none.
pub open spec fn files_at(d: Dir, rel: Seq<Seq<char>>) -> Seq<FileInfo> {
    match d.dir_at(rel) {
        Some(e) => file_infos(e.files@),
        None => Seq::empty(),
    }
}

/// With names sorted, the subdirectory named as the one at `i` is that one.
proof fn lemma_child_in_at(s: Seq<Subdir>, i: int)
    requires
        names_sorted(s),
        0 <= i < s.len(),
    ensures
        child_in(s, s[i].name@) == Some(s[i].dir),
    decreases s.len(),
{
    if i < s.len() - 1 {
        assert(name_lt(s[i].name@, s[s.len() - 1].name@));
        lemma_name_lt_irreflexive(s[i].name@);
        let t = s.drop_last();
        assert(names_sorted(t)) by {
            assert forall|a: int, b: int| 0 <= a < b < t.len() implies name_lt(#[trigger] t[a].name@, #[trigger] t[b].name@) by {
                assert(t[a] == s[a] && t[b] == s[b]);
            }
        }
        lemma_child_in_at(t, i);
        assert(t[i] == s[i]);
    }
}

proof fn lemma_child_at(d: Dir, i: int)
    requires
        names_sorted(d.dirs@),
        0 <= i < d.dirs@.len(),
    ensures
        d.child(d.dirs@[i].name@) == Some(d.dirs@[i].dir),
{
    lemma_child_in_at(d.dirs@, i);
}

/// The child named `n` among two runs of subdirectories: the one in the
/// second run where it has one.
proof fn lemma_child_in_append(a: Seq<Subdir>, b: Seq<Subdir>, n: Seq<char>)
    ensures
        child_in(a + b, n) == if child_in(b, n) is Some {
            child_in(b, n)
        } else {
            child_in(a, n)
        },
    decreases b.len(),
{
    if b.len() == 0 {
        assert(a + b =~= a);
    } else {
        assert((a + b).drop_last() =~= a + b.drop_last());
        assert((a + b).last() == b.last());
        lemma_child_in_append(a, b.drop_last(), n);
    }
}

proof fn lemma_child_in_single(c: Subdir, n: Seq<char>)
    ensures
        child_in(seq![c], n) == if c.name@ == n {
            Some(c.dir)
        } else {
            None
        },
{
    assert(seq![c].drop_last() =~= Seq::<Subdir>::empty());
    assert(seq![c].last() == c);
    assert(child_in(Seq::<Subdir>::empty(), n) is None);
}

/// Replacing a subdirectory by one of the same name leaves the children of
/// other names as they were.
proof fn lemma_child_in_update(s: Seq<Subdir>, i: int, c: Subdir, n: Seq<char>)
    requires
        0 <= i < s.len(),
        c.name@ == s[i].name@,
        n != c.name@,
    ensures
        child_in(s.update(i, c), n) == child_in(s, n),
{
    let a = s.take(i);
    let b = s.skip(i + 1);
    assert(s =~= a + seq![s[i]] + b);
    assert(s.update(i, c) =~= a + seq![c] + b);
    lemma_child_in_append(a + seq![s[i]], b, n);
    lemma_child_in_append(a, seq![s[i]], n);
    lemma_child_in_append(a + seq![c], b, n);
    lemma_child_in_append(a, seq![c], n);
    lemma_child_in_single(s[i], n);
    lemma_child_in_single(c, n);
}

/// Adding a subdirectory of another name leaves the children of a name as
/// they were.
proof fn lemma_child_in_insert(s: Seq<Subdir>, i: int, c: Subdir, n: Seq<char>)
    requires
        0 <= i <= s.len(),
        n != c.name@,
    ensures
        child_in(s.insert(i, c), n) == child_in(s, n),
{
    let a = s.take(i);
    let b = s.skip(i);
    assert(s =~= a + b);
    assert(s.insert(i, c) =~= a + seq![c] + b);
    lemma_child_in_append(a + seq![c], b, n);
    lemma_child_in_append(a, seq![c], n);
    lemma_child_in_append(a, b, n);
    lemma_child_in_single(c, n);
}

/// No subdirectory of the name, no child of the name.
proof fn lemma_child_in_missing(s: Seq<Subdir>, name: Seq<char>)
    requires
        forall|j: int| 0 <= j < s.len() ==> (#[trigger] s[j]).name@ != name,
    ensures
        child_in(s, name) is None,
    decreases s.len(),
{
    if s.len() > 0 {
        let t = s.drop_last();
        assert(s[s.len() - 1].name@ != name);
        assert forall|j: int| 0 <= j < t.len() implies (#[trigger] t[j]).name@ != name by {
            assert(t[j] == s[j]);
        }
        lemma_child_in_missing(t, name);
    }
}

/// Going down a non-empty path goes through the subdirectory its first
/// name names.
proof fn lemma_dir_at_step(d: Dir, i: int, rel: Seq<Seq<char>>)
    requires
        names_sorted(d.dirs@),
        0 <= i < d.dirs@.len(),
        rel.len() > 0,
        rel[0] == d.dirs@[i].name@,
    ensures
        d.dir_at(rel) == d.dirs@[i].dir.dir_at(rel.drop_first()),
        files_at(d, rel) == files_at(d.dirs@[i].dir, rel.drop_first()),
{
    lemma_child_at(d, i);
}

/// Where no subdirectory has the path's first name, nothing is there.
proof fn lemma_dir_at_missing(d: Dir, rel: Seq<Seq<char>>)
    requires
        rel.len() > 0,
        forall|j: int| 0 <= j < d.dirs@.len() ==> (#[trigger] d.dirs@[j]).name@ != rel[0],
    ensures
        d.dir_at(rel) is None,
        files_at(d, rel) == Seq::<FileInfo>::empty(),
{
    lemma_child_in_missing(d.dirs@, rel[0]);
}

/// The empty directory has itself at the empty path and nothing elsewhere.
proof fn lemma_files_at_empty_dir(d: Dir, rel: Seq<Seq<char>>)
    requires
        d.files@.len() == 0,
        d.dirs@.len() == 0,
    ensures
        files_at(d, rel) =~= Seq::<FileInfo>::empty(),
{
}

/// The plain values of a sequence of paths.
pub open spec fn path_views(ps: Seq<PathParts>) -> Seq<Seq<Seq<char>>> {
    ps.map_values(|p: PathParts| p@)
}

/// How many of the paths have at least one component.
pub open spec fn count_nonempty(ps: Seq<Seq<Seq<char>>>) -> nat
    decreases ps.len(),
{
    if ps.len() == 0 {
        0
    } else {
        count_nonempty(ps.drop_last()) + if ps.last().len() > 0 { 1nat } else { 0nat }
    }
}

/// The files that the paths make, each non-empty path numbered by how many
/// non-empty paths come before it.
pub open spec fn numbered_files(ps: Seq<Seq<Seq<char>>>) -> Multiset<FileInfo>
    decreases ps.len(),
{
    if ps.len() == 0 {
        Multiset::empty()
    } else if ps.last().len() == 0 {
        numbered_files(ps.drop_last())
    } else {
        numbered_files(ps.drop_last()).insert(
            FileInfo {
                name: ps.last().last(),
                id: count_nonempty(ps.drop_last()) as u64,
                path: ps.last(),
            },
        )
    }
}

/// The files that the paths make right in the directory at `rel`, in the
/// order of the paths, numbered as in `numbered_files`.
pub open spec fn numbered_files_at(ps: Seq<Seq<Seq<char>>>, rel: Seq<Seq<char>>) -> Seq<FileInfo>
    decreases ps.len(),
{
    if ps.len() == 0 {
        Seq::empty()
    } else {
        let prev = numbered_files_at(ps.drop_last(), rel);
        let p = ps.last();
        if p.len() > 0 && p.drop_last() == rel {
            prev.push(
                FileInfo { name: p.last(), id: count_nonempty(ps.drop_last()) as u64, path: p },
            )
        } else {
            prev
        }
    }
}

/// At most every path is non-empty.
pub proof fn lemma_count_nonempty_bound(ps: Seq<Seq<Seq<char>>>)
    ensures
        count_nonempty(ps) <= ps.len(),
    decreases ps.len(),
{
    if ps.len() > 0 {
        lemma_count_nonempty_bound(ps.drop_last());
    }
}

/// The tree built from a list of paths holds one file for each non-empty
/// path, and no two of its files share a number: the numbers are those below
/// the count of non-empty paths.
pub proof fn lemma_numbered_files_distinct_ids(ps: Seq<Seq<Seq<char>>>)
    requires
        ps.len() <= u64::MAX,
    ensures
        numbered_files(ps).len() == count_nonempty(ps),
        forall|x: FileInfo| #[trigger] numbered_files(ps).count(x) > 0 ==> x.id < count_nonempty(ps)
            && numbered_files(ps).count(x) == 1,
        forall|x: FileInfo, y: FileInfo|
            #[trigger] numbered_files(ps).count(x) > 0 && #[trigger] numbered_files(ps).count(y) > 0
                && x.id == y.id ==> x == y,
    decreases ps.len(),
{
    if ps.len() > 0 {
        let rest = ps.drop_last();
        lemma_numbered_files_distinct_ids(rest);
        lemma_count_nonempty_bound(rest);
        if ps.last().len() > 0 {
            let x0 = FileInfo {
                name: ps.last().last(),
                id: count_nonempty(rest) as u64,
                path: ps.last(),
            };
            let m = numbered_files(rest);
            assert(numbered_files(ps) == m.insert(x0));
            assert(m.count(x0) == 0);
            assert forall|x: FileInfo| #[trigger] m.insert(x0).count(x) > 0 implies x.id < count_nonempty(ps)
                && m.insert(x0).count(x) == 1 by {
                if x != x0 {
                    assert(m.insert(x0).count(x) == m.count(x));
                }
            }
            assert forall|x: FileInfo, y: FileInfo|
                #[trigger] m.insert(x0).count(x) > 0 && #[trigger] m.insert(x0).count(y) > 0
                    && x.id == y.id implies x == y by {
                if x != x0 {
                    assert(m.insert(x0).count(x) == m.count(x));
                }
                if y != x0 {
                    assert(m.insert(x0).count(y) == m.count(y));
                }
            }
        }
    }
}

/// All files under a run of subdirectories are those under its two parts.
pub proof fn lemma_subdir_entries_append(a: Seq<Subdir>, b: Seq<Subdir>)
    ensures
        subdir_entries(a + b) =~= subdir_entries(a).add(subdir_entries(b)),
    decreases b.len(),
{
    if b.len() == 0 {
        assert(a + b =~= a);
    } else {
        lemma_subdir_entries_append(a, b.drop_last());
        assert((a + b).drop_last() =~= a + b.drop_last());
        assert((a + b).last() == b.last());
    }
}

proof fn lemma_subdir_entries_single(c: Subdir)
    ensures
        subdir_entries(seq![c]) =~= c.dir.entries(),
{
    assert(seq![c].drop_last() =~= Seq::<Subdir>::empty());
    assert(subdir_entries(Seq::<Subdir>::empty()) =~= Multiset::empty());
    assert(seq![c].last() == c);
    assert(subdir_entries(seq![c]) == subdir_entries(seq![c].drop_last()).add(c.dir.entries()));
}

/// Replacing one subdirectory by one with one more file adds that file.
proof fn lemma_subdir_entries_update(s: Seq<Subdir>, i: int, c: Subdir, x: FileInfo)
    requires
        0 <= i < s.len(),
        c.dir.entries() =~= s[i].dir.entries().insert(x),
    ensures
        subdir_entries(s.update(i, c)) =~= subdir_entries(s).insert(x),
{
    let a = s.take(i);
    let b = s.skip(i + 1);
    assert(s =~= a + seq![s[i]] + b);
    assert(s.update(i, c) =~= a + seq![c] + b);
    lemma_subdir_entries_append(a + seq![s[i]], b);
    lemma_subdir_entries_append(a, seq![s[i]]);
    lemma_subdir_entries_append(a + seq![c], b);
    lemma_subdir_entries_append(a, seq![c]);
    lemma_subdir_entries_single(s[i]);
    lemma_subdir_entries_single(c);
}

/// Inserting a subdirectory adds its files.
proof fn lemma_subdir_entries_insert(s: Seq<Subdir>, i: int, c: Subdir)
    requires
        0 <= i <= s.len(),
    ensures
        subdir_entries(s.insert(i, c)) =~= subdir_entries(s).add(c.dir.entries()),
{
    let a = s.take(i);
    let b = s.skip(i);
    assert(s =~= a + b);
    assert(s.insert(i, c) =~= a + seq![c] + b);
    lemma_subdir_entries_append(a + seq![c], b);
    lemma_subdir_entries_append(a, seq![c]);
    lemma_subdir_entries_append(a, b);
    lemma_subdir_entries_single(c);
}

/// A name that falls between its neighbours keeps the names sorted.
proof fn lemma_names_sorted_insert(s: Seq<Subdir>, i: int, c: Subdir)
    requires
        names_sorted(s),
        0 <= i <= s.len(),
        forall|j: int| 0 <= j < i ==> name_lt(#[trigger] s[j].name@, c.name@),
        i < s.len() ==> name_lt(c.name@, s[i].name@),
    ensures
        names_sorted(s.insert(i, c)),
{
    let t = s.insert(i, c);
    assert forall|j: int, k: int| 0 <= j < k < t.len() implies name_lt(
        #[trigger] t[j].name@,
        #[trigger] t[k].name@,
    ) by {
        if j < i && k == i {
        } else if j < i && k > i {
            assert(t[k] == s[k - 1]);
            if k - 1 > i {
                lemma_name_lt_transitive(c.name@, s[i].name@, s[k - 1].name@);
            }
            lemma_name_lt_transitive(s[j].name@, c.name@, s[k - 1].name@);
        } else if j == i {
            assert(t[k] == s[k - 1]);
            if k - 1 > i {
                lemma_name_lt_transitive(c.name@, s[i].name@, s[k - 1].name@);
            }
        } else if j < i {
        } else {
            assert(t[j] == s[j - 1]);
            assert(t[k] == s[k - 1]);
        }
    }
}

impl Dir {
    /// Where `name` stands among the subdirectories: the number of those
    /// named before it, and whether the next one is named `name`.
    fn find_subdir(&self, name: &String) -> (r: (usize, bool))
        requires
            self.wf(),
        ensures
            r.0 <= self.dirs@.len(),
            forall|j: int| 0 <= j < r.0 ==> name_lt(#[trigger] self.dirs@[j].name@, name@),
            r.1 <==> (r.0 < self.dirs@.len() && self.dirs@[r.0 as int].name@ == name@),
            !r.1 && r.0 < self.dirs@.len() ==> name_lt(name@, self.dirs@[r.0 as int].name@),
    {
        let n = self.dirs.len();
        let mut i: usize = 0;
        while i < n && name_less(&self.dirs[i].name, name)
            invariant
                n == self.dirs@.len(),
                i <= n,
                forall|j: int| 0 <= j < i ==> name_lt(#[trigger] self.dirs@[j].name@, name@),
            decreases n - i,
        {
            i = i + 1;
        }
        if i < n {
            let found = self.dirs[i].name == *name;
            proof {
                if !found {
                    lemma_name_lt_total(name@, self.dirs@[i as int].name@);
                }
            }
            (i, found)
        } else {
            (i, false)
        }
    }

    /// Puts the file at `path` under this directory, whose own path is
    /// `prefix`: the last component names the file, the ones before it name
    /// the subdirectories on the way, made where missing, and the file comes
    /// last among the files of its directory. The file is numbered `*id`,
    /// and `*id` counts up. An empty path adds nothing.
    pub fn insert(&mut self, path: &PathParts, id: &mut u64, prefix: &PathParts)
        requires
            old(self).wf(),
            path@.len() > 0 ==> *old(id) < u64::MAX,
        ensures
            final(self).wf(),
            path@.len() == 0 ==> *final(self) == *old(self) && *final(id) == *old(id),
            path@.len() > 0 ==> *final(id) == *old(id) + 1 && final(self).entries()
                =~= old(self).entries().insert(
                FileInfo { name: path@.last(), id: *old(id), path: prefix@ + path@ },
            ),
            path@.len() > 0 ==> final(self).dir_at(path@.drop_last()) is Some && files_at(
                *final(self),
                path@.drop_last(),
            ) == files_at(*old(self), path@.drop_last()).push(
                FileInfo { name: path@.last(), id: *old(id), path: prefix@ + path@ },
            ),
            path@.len() > 0 ==> forall|rel: Seq<Seq<char>>|
                rel != path@.drop_last() ==> #[trigger] files_at(*final(self), rel) == files_at(*old(self), rel),
            old(self).paths_match(prefix@) ==> final(self).paths_match(prefix@),
            old(self).compact() ==> final(self).compact(),
    {
        assert(path@.skip(0) =~= path@);
        assert(path@.len() > 0 ==> path@.subrange(0, path@.len() - 1) =~= path@.drop_last());
        self.insert_from(path, 0, id, prefix);
    }

    /// The tree of the given paths, as inserted one after the other from the
    /// empty directory with numbers counting up from 0.
    pub fn from_paths(paths: &Vec<PathParts>) -> (root: Dir)
        ensures
            root.wf(),
            root.paths_match(Seq::empty()),
            root.compact(),
            root.entries() =~= numbered_files(path_views(paths@)),
            forall|rel: Seq<Seq<char>>| #[trigger] files_at(root, rel) == numbered_files_at(path_views(paths@), rel),
    {
        let mut root = Dir::new();
        let mut id: u64 = 0;
        let empty = PathParts::new();
        let n = paths.len();
        let mut i: usize = 0;
        while i < n
            invariant
                n == paths@.len(),
                i <= n,
                empty@ == Seq::<Seq<char>>::empty(),
                root.wf(),
                root.paths_match(Seq::empty()),
                root.compact(),
                id == count_nonempty(path_views(paths@).take(i as int)),
                id <= i,
                root.entries() =~= numbered_files(path_views(paths@).take(i as int)),
                forall|rel: Seq<Seq<char>>| #[trigger] files_at(root, rel) == numbered_files_at(path_views(paths@).take(i as int), rel),
            decreases n - i,
        {
            let ghost ps = path_views(paths@);
            let ghost before = root;
            assert(ps.take(i + 1).drop_last() =~= ps.take(i as int));
            assert(ps.take(i + 1).last() == paths@[i as int]@);
            assert(empty@ + paths@[i as int]@ =~= paths@[i as int]@);
            root.insert(&paths[i], &mut id, &empty);
            proof {
                let p = paths@[i as int]@;
                assert forall|rel: Seq<Seq<char>>| #[trigger] files_at(root, rel) == numbered_files_at(ps.take(i + 1), rel) by {
                    assert(files_at(before, rel) == numbered_files_at(ps.take(i as int), rel));
                    if p.len() > 0 && rel == p.drop_last() {
                    } else {
                        assert(files_at(root, rel) == files_at(before, rel));
                    }
                }
            }
            i = i + 1;
        }
        assert(path_views(paths@).take(n as int) =~= path_views(paths@));
        root
    }

    /// Sorts the files right in this directory by name, keeping those of
    /// equal names in the order they had.
    pub fn sort_files(&mut self)
        ensures
            file_infos(final(self).files@) == sort_by_name(file_infos(old(self).files@)),
            final(self).dirs@ == old(self).dirs@,
    {
        let mut rest: Vec<File> = Vec::new();
        std::mem::swap(&mut rest, &mut self.files);
        let ghost orig = file_infos(rest@);
        let n = rest.len();
        let mut out: Vec<File> = Vec::new();
        let mut k: usize = 0;
        assert(orig.skip(0) =~= orig);
        assert(orig.take(0) =~= Seq::<FileInfo>::empty());
        while k < n
            invariant
                n == orig.len(),
                k <= n,
                orig == file_infos(old(self).files@),
                file_infos(rest@) == orig.skip(k as int),
                file_infos(out@) == sort_by_name(orig.take(k as int)),
                self.dirs@ == old(self).dirs@,
            decreases n - k,
        {
            let ghost before = rest@;
            assert(file_infos(before).len() == before.len());
            assert(rest@.len() == n - k);
            let f = rest.remove(0);
            assert forall|j: int| 0 <= j < rest@.len() implies file_infos(rest@)[j] == orig.skip(k + 1)[j] by {
                assert(rest@[j] == before[j + 1]);
                assert(file_infos(before)[j + 1] == orig.skip(k as int)[j + 1]);
            }
            assert(file_infos(rest@) =~= orig.skip(k + 1));
            assert(f == before[0]);
            assert(file_infos(before)[0] == orig.skip(k as int)[0]);
            assert(f@ == orig[k as int]);
            let ghost sorted = file_infos(out@);
            let m = out.len();
            let mut p: usize = 0;
            while p < m && !name_less(&f.name, &out[p].name)
                invariant
                    m == out@.len(),
                    sorted == file_infos(out@),
                    p <= m,
                    forall|j: int| 0 <= j < p ==> !name_lt(f.name@, #[trigger] sorted[j].name),
                decreases m - p,
            {
                p = p + 1;
            }
            proof {
                lemma_insert_pos_scan(sorted, f.name@, p as int);
                assert(orig.take(k + 1).drop_last() =~= orig.take(k as int));
                assert(orig.take(k + 1).last() == f@);
            }
            out.insert(p, f);
            assert(file_infos(out@) =~= sorted.insert(p as int, f@));
            k = k + 1;
        }
        assert(orig.take(n as int) =~= orig);
        self.files = out;
    }

    /// Puts the file at `path[start..]` under this directory, whose own path
    /// is `prefix`, numbering it `*id` and counting `*id` up.
    fn insert_from(&mut self, path: &PathParts, start: usize, id: &mut u64, prefix: &PathParts)
        requires
            old(self).wf(),
            start <= path@.len(),
            start < path@.len() ==> *old(id) < u64::MAX,
        ensures
            start == path@.len() ==> *final(self) == *old(self) && *final(id) == *old(id),
            start < path@.len() ==> *final(id) == *old(id) + 1 && insert_post(
                *old(self),
                *final(self),
                path@,
                start as int,
                *old(id),
                prefix@,
            ),
        decreases path@.len() - start, 1int,
    {
        if start >= path.parts.len() {
            return;
        }
        let first = &path.parts[start];
        let sub_prefix = prefix.join(first);
        let ghost x = inserted_file(path@, start as int, *old(id), prefix@);
        assert(sub_prefix@ + path@.skip(start + 1) =~= prefix@ + path@.skip(start as int));
        if start + 1 == path.parts.len() {
            let f = File::new(copy_string(first), *id, sub_prefix);
            assert(f@ == x);
            self.files.push(f);
            *id = *id + 1;
            proof {
                let target = path@.subrange(start as int, path@.len() - 1);
                assert(target =~= Seq::<Seq<char>>::empty());
                assert(file_infos(self.files@) =~= file_infos(old(self).files@).push(x));
                assert(self.dirs@ == old(self).dirs@);
                assert(self.entries() =~= old(self).entries().insert(x));
                assert forall|rel: Seq<Seq<char>>| rel != target implies #[trigger] files_at(*self, rel)
                    == files_at(*old(self), rel) by {
                    if rel.len() == 0 {
                        assert(rel =~= target);
                    }
                }
            }
        } else {
            let (i, found) = self.find_subdir(first);
            if found {
                self.insert_into_subdir(i, path, start, id, prefix, &sub_prefix);
            } else {
                self.insert_into_new_subdir(i, path, start, id, prefix, &sub_prefix);
            }
        }
    }

    /// Goes on with `path[start + 1..]` in the subdirectory at `i`, which is
    /// named `path[start]`.
    fn insert_into_subdir(
        &mut self,
        i: usize,
        path: &PathParts,
        start: usize,
        id: &mut u64,
        prefix: &PathParts,
        sub_prefix: &PathParts,
    )
        requires
            old(self).wf(),
            start + 1 < path@.len(),
            *old(id) < u64::MAX,
            i < old(self).dirs@.len(),
            old(self).dirs@[i as int].name@ == path@[start as int],
            sub_prefix@ == prefix@.push(path@[start as int]),
        ensures
            *final(id) == *old(id) + 1,
            insert_post(*old(self), *final(self), path@, start as int, *old(id), prefix@),
        decreases path@.len() - start, 0int,
    {
        let ghost x = inserted_file(path@, start as int, *old(id), prefix@);
        assert(sub_prefix@ + path@.skip(start + 1) =~= prefix@ + path@.skip(start as int));
        let n = path.parts.len();
        assert(n == path@.len());
        let mut sub = self.dirs.remove(i);
        assert(sub.dir.wf());
        proof {
            if old(self).paths_match(prefix@) {
                assert(old(self).dirs@[i as int].dir.paths_match(prefix@.push(old(self).dirs@[i as int].name@)));
            }
            if old(self).compact() {
                assert(old(self).dirs@[i as int].dir.compact());
            }
        }
        let ghost before = sub.dir;
        sub.dir.insert_from(path, start + 1, id, sub_prefix);
        self.dirs.insert(i, sub);
        proof {
            let s = old(self).dirs@;
            let target = path@.subrange(start as int, path@.len() - 1);
            assert(target.drop_first() =~= path@.subrange(start + 1, path@.len() - 1));
            assert(inserted_file(path@, start + 1, *old(id), sub_prefix@) == x);
            assert(self.dirs@ =~= s.update(i as int, sub));
            lemma_subdir_entries_update(s, i as int, sub, x);
            assert(forall|j: int| 0 <= j < s.len() ==> #[trigger] self.dirs@[j].name@ == s[j].name@);
            assert(names_sorted(self.dirs@));
            lemma_dir_at_step(*old(self), i as int, target);
            lemma_dir_at_step(*self, i as int, target);
            assert(forall|j: int| 0 <= j < s.len() && j != i ==> #[trigger] self.dirs@[j] == s[j]);
            assert(self.files@ == old(self).files@);
            assert forall|rel: Seq<Seq<char>>| rel != target implies #[trigger] files_at(*self, rel)
                == files_at(*old(self), rel) by {
                if rel.len() > 0 {
                    if rel[0] == target[0] {
                        lemma_dir_at_step(*old(self), i as int, rel);
                        lemma_dir_at_step(*self, i as int, rel);
                        if rel.drop_first() == target.drop_first() {
                            assert(rel =~= seq![rel[0]] + rel.drop_first());
                            assert(target =~= seq![target[0]] + target.drop_first());
                        }
                        assert(files_at(sub.dir, rel.drop_first()) == files_at(before, rel.drop_first()));
                    } else {
                        lemma_child_in_update(s, i as int, sub, rel[0]);
                    }
                }
            }
        }
    }

    /// Makes a subdirectory named `path[start]` at `i` and goes on with
    /// `path[start + 1..]` in it.
    fn insert_into_new_subdir(
        &mut self,
        i: usize,
        path: &PathParts,
        start: usize,
        id: &mut u64,
        prefix: &PathParts,
        sub_prefix: &PathParts,
    )
        requires
            old(self).wf(),
            start + 1 < path@.len(),
            *old(id) < u64::MAX,
            i <= old(self).dirs@.len(),
            forall|j: int| 0 <= j < i ==> name_lt(#[trigger] old(self).dirs@[j].name@, path@[start as int]),
            i < old(self).dirs@.len() ==> name_lt(path@[start as int], old(self).dirs@[i as int].name@),
            sub_prefix@ == prefix@.push(path@[start as int]),
        ensures
            *final(id) == *old(id) + 1,
            insert_post(*old(self), *final(self), path@, start as int, *old(id), prefix@),
        decreases path@.len() - start, 0int,
    {
        let ghost x = inserted_file(path@, start as int, *old(id), prefix@);
        assert(sub_prefix@ + path@.skip(start + 1) =~= prefix@ + path@.skip(start as int));
        let n = path.parts.len();
        assert(n == path@.len());
        let mut d = Dir::new();
        let ghost d0 = d;
        d.insert_from(path, start + 1, id, sub_prefix);
        let sub = Subdir { name: copy_string(&path.parts[start]), dir: d };
        self.dirs.insert(i, sub);
        proof {
            let s = old(self).dirs@;
            let target = path@.subrange(start as int, path@.len() - 1);
            assert(target.drop_first() =~= path@.subrange(start + 1, path@.len() - 1));
            assert(inserted_file(path@, start + 1, *old(id), sub_prefix@) == x);
            assert(self.dirs@ =~= s.insert(i as int, sub));
            lemma_subdir_entries_insert(s, i as int, sub);
            lemma_names_sorted_insert(s, i as int, sub);
            assert forall|j: int| 0 <= j < s.len() implies (#[trigger] s[j]).name@ != target[0] by {
                if j < i {
                    lemma_name_lt_irreflexive(target[0]);
                } else if j == i {
                    lemma_name_lt_irreflexive(target[0]);
                } else {
                    lemma_name_lt_transitive(target[0], s[i as int].name@, s[j].name@);
                    lemma_name_lt_irreflexive(target[0]);
                }
            }
            lemma_dir_at_missing(*old(self), target);
            lemma_dir_at_step(*self, i as int, target);
            lemma_files_at_empty_dir(d0, target.drop_first());
            assert(forall|j: int| 0 <= j < i ==> #[trigger] self.dirs@[j] == s[j]);
            assert(forall|j: int| i < j < self.dirs@.len() ==> #[trigger] self.dirs@[j] == s[j - 1]);
            assert(self.files@ == old(self).files@);
            assert forall|rel: Seq<Seq<char>>| rel != target implies #[trigger] files_at(*self, rel)
                == files_at(*old(self), rel) by {
                if rel.len() > 0 {
                    if rel[0] == target[0] {
                        lemma_dir_at_missing(*old(self), rel);
                        lemma_dir_at_step(*self, i as int, rel);
                        if rel.drop_first() == target.drop_first() {
                            assert(rel =~= seq![rel[0]] + rel.drop_first());
                            assert(target =~= seq![target[0]] + target.drop_first());
                        }
                        lemma_files_at_empty_dir(d0, rel.drop_first());
                    } else {
                        lemma_child_in_insert(s, i as int, sub, rel[0]);
                    }
                }
            }
        }
    }
}

} // verus!
