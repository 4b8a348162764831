//! Paths inside a bigfile, held as the list of their components.
//!
//! The empty list is the empty relative path (`Path::new("")`); joining a
//! name appends one component, and the parent drops the last one.
use vstd::prelude::*;

verus! {

/// A relative path, component by component.
pub struct PathParts {
    pub parts: Vec<String>,
}

impl View for PathParts {
    type V = Seq<Seq<char>>;

    open spec fn view(&self) -> Seq<Seq<char>> {
        self.parts@.map_values(|s: String| s@)
    }
}

/// The parent of a path, with the empty path standing in where there is none.
pub open spec fn parent_of(p: Seq<Seq<char>>) -> Seq<Seq<char>> {
    if p.len() == 0 {
        p
    } else {
        p.drop_last()
    }
}

/// Whether `base` is a leading run of components of `p`.
pub open spec fn is_prefix(base: Seq<Seq<char>>, p: Seq<Seq<char>>) -> bool {
    base.len() <= p.len() && p.take(base.len() as int) == base
}

/// `r` is the longest path that leads every path of `ps`: it leads each of
/// them, and one step further it would not, because one of them ends there
/// or differs there from the first.
pub open spec fn is_longest_common_prefix(r: Seq<Seq<char>>, ps: Seq<Seq<Seq<char>>>) -> bool {
    &&& forall|i: int| 0 <= i < ps.len() ==> is_prefix(r, #[trigger] ps[i])
    &&& exists|i: int|
        0 <= i < ps.len() && (#[trigger] ps[i].len() == r.len() || ps[i][r.len() as int] != ps[0][r.len() as int])
}

/// The longest common prefix is one path: two paths that both are it are
/// equal.
pub proof fn lemma_longest_common_prefix_unique(
    r1: Seq<Seq<char>>,
    r2: Seq<Seq<char>>,
    ps: Seq<Seq<Seq<char>>>,
)
    requires
        ps.len() > 0,
        is_longest_common_prefix(r1, ps),
        is_longest_common_prefix(r2, ps),
    ensures
        r1 == r2,
{
    assert forall|a: Seq<Seq<char>>, b: Seq<Seq<char>>|
        a.len() < b.len() && is_longest_common_prefix(a, ps) && is_longest_common_prefix(b, ps)
        implies false by {
        let i = choose|i: int|
            0 <= i < ps.len() && (#[trigger] ps[i].len() == a.len() || ps[i][a.len() as int]
                != ps[0][a.len() as int]);
        assert(is_prefix(b, ps[i]));
        assert(is_prefix(b, ps[0]));
        assert(ps[i].take(b.len() as int)[a.len() as int] == ps[i][a.len() as int]);
        assert(ps[0].take(b.len() as int)[a.len() as int] == ps[0][a.len() as int]);
    }
    assert(is_prefix(r1, ps[0]) && is_prefix(r2, ps[0]));
    if r1.len() == r2.len() {
        assert(r1 =~= r2);
    }
}

/// The plain values of a sequence of paths.
pub open spec fn views_of(ps: Seq<PathParts>) -> Seq<Seq<Seq<char>>> {
    ps.map_values(|p: PathParts| p@)
}

/// The longest path that leads all of `paths`, found component by
/// component as long as every path goes on with the same one.
pub fn longest_common_prefix(paths: &Vec<PathParts>) -> (r: PathParts)
    requires
        paths@.len() > 0,
    ensures
        is_longest_common_prefix(r@, views_of(paths@)),
{
    let ghost ps = views_of(paths@);
    let n = paths.len();
    let first = &paths[0];
    let m = first.parts.len();
    let mut prefix = PathParts::new();
    let mut k: usize = 0;
    assert forall|i: int| 0 <= i < n implies is_prefix(prefix@, #[trigger] ps[i]) by {
        assert(ps[i].take(0) =~= prefix@);
    }
    assert(ps[0].take(0) =~= prefix@);
    while k < m
        invariant
            n == paths@.len(),
            n > 0,
            ps == views_of(paths@),
            first@ == ps[0],
            m == ps[0].len(),
            k <= m,
            prefix@ == ps[0].take(k as int),
            forall|i: int| 0 <= i < n ==> is_prefix(prefix@, #[trigger] ps[i]),
        decreases m - k,
    {
        let c = &first.parts[k];
        let mut i: usize = 0;
        while i < n
            invariant
                n == paths@.len(),
                ps == views_of(paths@),
                first@ == ps[0],
                k < m,
                m == ps[0].len(),
                c@ == ps[0][k as int],
                prefix@ == ps[0].take(k as int),
                i <= n,
                forall|j: int| 0 <= j < i ==> (#[trigger] ps[j]).len() > k && ps[j][k as int] == c@,
                forall|j: int| 0 <= j < n ==> is_prefix(prefix@, #[trigger] ps[j]),
            decreases n - i,
        {
            let other = &paths[i];
            assert(other@ == ps[i as int]);
            if other.parts.len() <= k || other.parts[k] != *c {
                assert(ps[i as int].len() == prefix@.len() || ps[i as int][prefix@.len() as int]
                    != ps[0][prefix@.len() as int]);
                return prefix;
            }
            i = i + 1;
        }
        let ghost old_prefix = prefix@;
        prefix.parts.push(copy_string(c));
        assert(prefix@ =~= old_prefix.push(c@));
        assert(prefix@ =~= ps[0].take(k + 1));
        assert forall|j: int| 0 <= j < n implies is_prefix(prefix@, #[trigger] ps[j]) by {
            assert(ps[j].take(k + 1) =~= ps[j].take(k as int).push(ps[j][k as int]));
        }
        k = k + 1;
    }
    assert(ps[0].len() == prefix@.len());
    prefix
}

/// Copies a string component by component of its chars.
pub(crate) fn copy_string(s: &String) -> (r: String)
    ensures
        r@ == s@,
{
    s.clone()
}

impl PathParts {
    /// The empty path.
    pub fn new() -> (r: PathParts)
        ensures
            r@ == Seq::<Seq<char>>::empty(),
    {
        let r = PathParts { parts: Vec::new() };
        assert(r@ =~= Seq::<Seq<char>>::empty());
        r
    }

    /// The path made of the given components.
    pub fn from_parts(parts: Vec<String>) -> (r: PathParts)
        ensures
            r.parts@ == parts@,
            r@ == parts@.map_values(|s: String| s@),
    {
        PathParts { parts }
    }

    /// Number of components.
    pub fn len(&self) -> (n: usize)
        ensures
            n == self@.len(),
    {
        self.parts.len()
    }

    /// An equal copy.
    pub fn duplicate(&self) -> (r: PathParts)
        ensures
            r@ == self@,
    {
        let mut out: Vec<String> = Vec::new();
        let n = self.parts.len();
        let mut i: usize = 0;
        while i < n
            invariant
                n == self.parts@.len(),
                i <= n,
                out@.len() == i,
                forall|j: int| 0 <= j < i ==> #[trigger] out@[j]@ == self.parts@[j]@,
            decreases n - i,
        {
            out.push(copy_string(&self.parts[i]));
            i = i + 1;
        }
        let r = PathParts { parts: out };
        assert(r@ =~= self@);
        r
    }

    /// This path with `name` appended, as `Path::join` with one component.
    pub fn join(&self, name: &String) -> (r: PathParts)
        ensures
            r@ == self@.push(name@),
    {
        let mut r = self.duplicate();
        r.parts.push(copy_string(name));
        assert(r@ =~= self@.push(name@));
        r
    }

    /// The parent directory, or the empty path where the path has none
    /// (`path.parent().unwrap_or(Path::new(""))`).
    pub fn parent(&self) -> (r: PathParts)
        ensures
            r@ == parent_of(self@),
    {
        let mut r = self.duplicate();
        if r.parts.len() > 0 {
            r.parts.pop();
            assert(r@ =~= self@.drop_last());
        }
        r
    }

    /// Whether the two paths have the same components.
    pub fn same_as(&self, other: &PathParts) -> (b: bool)
        ensures
            b == (self@ == other@),
    {
        let n = self.parts.len();
        if n != other.parts.len() {
            return false;
        }
        let mut i: usize = 0;
        while i < n
            invariant
                n == self@.len(),
                n == other@.len(),
                i <= n,
                forall|j: int| 0 <= j < i ==> self@[j] == other@[j],
            decreases n - i,
        {
            if self.parts[i] != other.parts[i] {
                assert(self@[i as int] != other@[i as int]);
                return false;
            }
            i = i + 1;
        }
        assert(self@ =~= other@);
        true
    }

    /// Whether `base` is a leading run of the components of this path.
    pub fn starts_with(&self, base: &PathParts) -> (b: bool)
        ensures
            b == is_prefix(base@, self@),
    {
        let n = base.parts.len();
        if n > self.parts.len() {
            return false;
        }
        let mut i: usize = 0;
        while i < n
            invariant
                n == base@.len(),
                n <= self@.len(),
                i <= n,
                forall|j: int| 0 <= j < i ==> self@[j] == base@[j],
            decreases n - i,
        {
            if self.parts[i] != base.parts[i] {
                assert(self@.take(n as int)[i as int] != base@[i as int]);
                return false;
            }
            i = i + 1;
        }
        assert(self@.take(n as int) =~= base@);
        true
    }

    /// This path with the leading components `base` taken off, as
    /// `Path::strip_prefix`; `None` where `base` does not lead it.
    pub fn strip_prefix(&self, base: &PathParts) -> (r: Option<PathParts>)
        ensures
            r is Some <==> is_prefix(base@, self@),
            r matches Some(rest) ==> rest@ == self@.skip(base@.len() as int),
    {
        if !self.starts_with(base) {
            return None;
        }
        let n = self.parts.len();
        let mut out: Vec<String> = Vec::new();
        let mut i: usize = base.parts.len();
        let start = i;
        while i < n
            invariant
                n == self.parts@.len(),
                start == base@.len(),
                start <= i <= n,
                out@.len() == i - start,
                forall|j: int| 0 <= j < out@.len() ==> #[trigger] out@[j]@ == self.parts@[j + start]@,
            decreases n - i,
        {
            out.push(copy_string(&self.parts[i]));
            i = i + 1;
        }
        let r = PathParts { parts: out };
        assert(r@ =~= self@.skip(base@.len() as int));
        Some(r)
    }
}

} // verus!
