//! File paths as sequences of components, compared component by component.

use vstd::prelude::*;

use crate::table::Key;

verus! {

/// One component of a path. Names are kept as the raw bytes the platform uses.
#[derive(PartialEq, Eq, Hash, Debug)]
pub enum PathPart {
    /// A platform prefix in front of the root, such as a drive.
    Prefix(Vec<u8>),
    /// The root directory.
    RootDir,
    /// The directory itself, `.`.
    CurDir,
    /// The directory above, `..`.
    ParentDir,
    /// A name.
    Normal(Vec<u8>),
}

/// What a [`PathPart`] stands for.
pub enum PartModel {
    Prefix(Seq<u8>),
    RootDir,
    CurDir,
    ParentDir,
    Normal(Seq<u8>),
}

impl View for PathPart {
    type V = PartModel;

    open spec fn view(&self) -> PartModel {
        match *self {
            PathPart::Prefix(name) => PartModel::Prefix(name@),
            PathPart::RootDir => PartModel::RootDir,
            PathPart::CurDir => PartModel::CurDir,
            PathPart::ParentDir => PartModel::ParentDir,
            PathPart::Normal(name) => PartModel::Normal(name@),
        }
    }
}

/// Whether two names hold the same bytes.
fn same_bytes(a: &Vec<u8>, b: &Vec<u8>) -> (same: bool)
    ensures
        same == (a@ == b@),
{
    if a.len() != b.len() {
        return false;
    }
    for i in 0..a.len()
        invariant
            a@.len() == b@.len(),
            forall|j: int| 0 <= j < i ==> a@[j] == b@[j],
    {
        if a[i] != b[i] {
            return false;
        }
    }
    assert(a@ =~= b@);
    true
}

impl PathPart {
    /// Whether two components are equal.
    fn same_part(&self, other: &PathPart) -> (same: bool)
        ensures
            same == (self@ == other@),
    {
        match (self, other) {
            (PathPart::Prefix(a), PathPart::Prefix(b)) => same_bytes(a, b),
            (PathPart::Normal(a), PathPart::Normal(b)) => same_bytes(a, b),
            (PathPart::RootDir, PathPart::RootDir) => true,
            (PathPart::CurDir, PathPart::CurDir) => true,
            (PathPart::ParentDir, PathPart::ParentDir) => true,
            _ => false,
        }
    }
}

impl Clone for PathPart {
    fn clone(&self) -> (copy: Self)
        ensures
            copy@ == self@,
    {
        match self {
            PathPart::Prefix(name) => PathPart::Prefix(name.clone()),
            PathPart::RootDir => PathPart::RootDir,
            PathPart::CurDir => PathPart::CurDir,
            PathPart::ParentDir => PathPart::ParentDir,
            PathPart::Normal(name) => PathPart::Normal(name.clone()),
        }
    }
}

/// A path: its components, outermost first. Two paths are the same path when
/// their components are.
#[derive(PartialEq, Eq, Hash, Debug)]
pub struct FilePath {
    pub parts: Vec<PathPart>,
}

impl View for FilePath {
    type V = Seq<PartModel>;

    open spec fn view(&self) -> Seq<PartModel> {
        Seq::new(self.parts@.len(), |i: int| self.parts@[i]@)
    }
}

/// The directory that `path` lies in: `path` without its last component. A path
/// that ends in a root or a prefix, and the empty path, lie in none.
pub open spec fn parent_of(path: Seq<PartModel>) -> Option<Seq<PartModel>> {
    if path.len() > 0 && !(path.last() is RootDir) && !(path.last() is Prefix) {
        Some(path.drop_last())
    } else {
        None
    }
}

/// A file lies in the directory it was put into: whatever the directory, adding a
/// component that is no root and no prefix gives a path whose parent is that
/// directory. Adding a root or a prefix gives a path with no parent, and the empty
/// path has none.
pub proof fn law_parent_of_what_is_put_into_a_directory(dir: Seq<PartModel>, name: Seq<u8>)
    ensures
        parent_of(dir.push(PartModel::Normal(name))) == Some(dir),
        parent_of(dir.push(PartModel::CurDir)) == Some(dir),
        parent_of(dir.push(PartModel::ParentDir)) == Some(dir),
        parent_of(dir.push(PartModel::RootDir)) is None,
        parent_of(dir.push(PartModel::Prefix(name))) is None,
        parent_of(Seq::<PartModel>::empty()) is None,
{
    assert(dir.push(PartModel::Normal(name)).drop_last() =~= dir);
    assert(dir.push(PartModel::CurDir).drop_last() =~= dir);
    assert(dir.push(PartModel::ParentDir).drop_last() =~= dir);
}

/// A directory and the last component give the file back, so that two files with
/// the same parent differ in their last component or not at all.
pub proof fn law_parent_and_name_make_the_path(a: Seq<PartModel>, b: Seq<PartModel>)
    requires
        parent_of(a) is Some,
        parent_of(a) == parent_of(b),
    ensures
        a == parent_of(a)->0.push(a.last()),
        a.len() == parent_of(a)->0.len() + 1,
        a.last() == b.last() ==> a == b,
{
    assert(a =~= a.drop_last().push(a.last()));
    assert(b =~= b.drop_last().push(b.last()));
}

/// Two paths are the same path exactly when they have as many components, and each
/// component of the one is of the same sort as its counterpart and, where it has a
/// name, has the same bytes in it.
pub proof fn law_paths_are_equal_by_components(a: FilePath, b: FilePath)
    ensures
        a@ == b@ <==> a.parts@.len() == b.parts@.len() && forall|i: int|
            #![trigger a.parts@[i]]
            0 <= i < a.parts@.len() ==> match (a.parts@[i], b.parts@[i]) {
                (PathPart::Prefix(x), PathPart::Prefix(y)) => x@ == y@,
                (PathPart::Normal(x), PathPart::Normal(y)) => x@ == y@,
                (PathPart::RootDir, PathPart::RootDir) => true,
                (PathPart::CurDir, PathPart::CurDir) => true,
                (PathPart::ParentDir, PathPart::ParentDir) => true,
                _ => false,
            },
        a@.len() == a.parts@.len(),
{
    if a@ == b@ {
        assert(a@.len() == b@.len());
        assert forall|i: int| #![trigger a.parts@[i]] 0 <= i < a.parts@.len() implies match (
            a.parts@[i],
            b.parts@[i],
        ) {
            (PathPart::Prefix(x), PathPart::Prefix(y)) => x@ == y@,
            (PathPart::Normal(x), PathPart::Normal(y)) => x@ == y@,
            (PathPart::RootDir, PathPart::RootDir) => true,
            (PathPart::CurDir, PathPart::CurDir) => true,
            (PathPart::ParentDir, PathPart::ParentDir) => true,
            _ => false,
        } by {
            assert(a@[i] == a.parts@[i]@);
            assert(b@[i] == b.parts@[i]@);
        }
    } else if a.parts@.len() == b.parts@.len() {
        let i = choose|i: int| 0 <= i < a@.len() && a@[i] != b@[i];
        assert(exists|i: int| 0 <= i < a@.len() && a@[i] != b@[i]) by {
            if forall|i: int| 0 <= i < a@.len() ==> a@[i] == b@[i] {
                assert(a@ =~= b@);
            }
        }
        assert(a.parts@[i]@ != b.parts@[i]@);
    }
}

impl FilePath {
    /// The first `n` components of the path.
    fn prefix(&self, n: usize) -> (front: FilePath)
        requires
            n <= self.parts@.len(),
        ensures
            front@ == self@.take(n as int),
    {
        let mut parts: Vec<PathPart> = Vec::new();
        for i in 0..n
            invariant
                n <= self.parts@.len(),
                parts@.len() == i,
                forall|j: int| #![trigger parts@[j]] 0 <= j < i ==> parts@[j]@ == self.parts@[j]@,
        {
            parts.push(self.parts[i].clone());
        }
        let front = FilePath { parts };
        assert(front@ =~= self@.take(n as int));
        front
    }

    /// The directory that the path lies in, if there is one.
    pub fn parent(&self) -> (dir: Option<FilePath>)
        ensures
            match dir {
                Some(dir) => parent_of(self@) == Some(dir@),
                None => parent_of(self@) is None,
            },
            match dir {
                Some(dir) => self@.len() == dir@.len() + 1 && self@ == dir@.push(self@.last()) && !(
                self@.last() is RootDir) && !(self@.last() is Prefix),
                None => self@.len() == 0 || self@.last() is RootDir || self@.last() is Prefix,
            },
    {
        let n = self.parts.len();
        if n == 0 {
            return None;
        }
        assert(self@.last() == self.parts@[n - 1]@);
        match self.parts[n - 1] {
            PathPart::Prefix(_) | PathPart::RootDir => None,
            _ => {
                assert(self@.take(n - 1) =~= self@.drop_last());
                assert(self@ =~= self@.drop_last().push(self@.last()));
                Some(self.prefix(n - 1))
            },
        }
    }
}

impl Clone for FilePath {
    fn clone(&self) -> (copy: Self)
        ensures
            copy@ == self@,
    {
        assert(self@.take(self@.len() as int) =~= self@);
        self.prefix(self.parts.len())
    }
}

impl Key for FilePath {
    fn same_key(&self, other: &Self) -> (same: bool) {
        if self.parts.len() != other.parts.len() {
            assert(self@.len() != other@.len());
            return false;
        }
        for i in 0..self.parts.len()
            invariant
                self.parts@.len() == other.parts@.len(),
                forall|j: int| #![trigger self@[j]] 0 <= j < i ==> self@[j] == other@[j],
        {
            if !self.parts[i].same_part(&other.parts[i]) {
                assert(self@[i as int] != other@[i as int]);
                return false;
            }
        }
        assert(self@ =~= other@);
        true
    }

    fn copy_key(&self) -> (copy: Self) {
        self.clone()
    }
}

} // verus!
