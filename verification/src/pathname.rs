//! Absolute filesystem paths, modelled as lists of name components.

use vstd::prelude::*;

verus! {

/// An absolute path: the list of its name components, root first.
/// The empty list is the filesystem root itself.
#[derive(Debug)]
pub struct FsPath {
    parts: Vec<String>,
}

impl View for FsPath {
    type V = Seq<Seq<char>>;

    closed spec fn view(&self) -> Seq<Seq<char>> {
        self.parts.deep_view()
    }
}

impl Clone for FsPath {
    fn clone(&self) -> (r: Self)
        ensures
            r@ == self@,
    {
        let mut parts: Vec<String> = Vec::new();
        for i in 0..self.parts.len()
            invariant
                parts@.len() == i,
                forall|j: int| 0 <= j < i ==> parts@[j]@ == self.parts@[j]@,
        {
            parts.push(self.parts[i].clone());
        }
        let r = FsPath { parts };
        proof {
            assert(r@ =~= self@);
        }
        r
    }
}

impl FsPath {
    /// The filesystem root.
    pub fn root() -> (r: Self)
        ensures
            r@ == Seq::<Seq<char>>::empty(),
    {
        let r = FsPath { parts: Vec::new() };
        proof {
            assert(r@ =~= Seq::<Seq<char>>::empty());
        }
        r
    }

    /// A path from its components.
    pub fn from_parts(parts: Vec<String>) -> (r: Self)
        ensures
            r@ == parts.deep_view(),
    {
        FsPath { parts }
    }

    /// The components of the path.
    pub fn parts(&self) -> (r: &Vec<String>)
        ensures
            r.deep_view() == self@,
    {
        &self.parts
    }

    /// How many components the path has; 0 for the root.
    pub fn depth(&self) -> (n: usize)
        ensures
            n == self@.len(),
    {
        self.parts.len()
    }

    /// The path extended by one more component.
    pub fn join(&self, name: &str) -> (r: Self)
        ensures
            r@ == self@.push(name@),
    {
        let mut r = self.clone();
        r.parts.push(name.to_owned());
        proof {
            assert(r@ =~= self@.push(name@));
        }
        r
    }

    /// The path extended by one more component, taking ownership of it.
    pub fn join_owned(&self, name: String) -> (r: Self)
        ensures
            r@ == self@.push(name@),
    {
        let mut r = self.clone();
        r.parts.push(name);
        proof {
            assert(r@ =~= self@.push(name@));
        }
        r
    }

    /// The parent of the path; `None` for the root.
    pub fn parent(&self) -> (r: Option<Self>)
        ensures
            self@.len() == 0 ==> r is None,
            self@.len() > 0 ==> (r matches Some(p) && p@ == self@.drop_last()),
    {
        if self.parts.len() == 0 {
            return None;
        }
        let mut parts: Vec<String> = Vec::new();
        let n: usize = self.parts.len() - 1;
        for i in 0..n
            invariant
                n == self.parts@.len() - 1,
                parts@.len() == i,
                forall|j: int| 0 <= j < i ==> parts@[j]@ == self.parts@[j]@,
        {
            parts.push(self.parts[i].clone());
        }
        let p = FsPath { parts };
        proof {
            assert(p@ =~= self@.drop_last());
        }
        Some(p)
    }

    /// The last component of the path; `None` for the root.
    pub fn file_name(&self) -> (r: Option<&String>)
        ensures
            self@.len() == 0 ==> r is None,
            self@.len() > 0 ==> (r matches Some(s) && s@ == self@.last()),
    {
        if self.parts.len() == 0 {
            None
        } else {
            Some(&self.parts[self.parts.len() - 1])
        }
    }

    /// Component-wise equality.
    pub fn path_eq(&self, other: &FsPath) -> (r: bool)
        ensures
            r == (self@ == other@),
    {
        if self.parts.len() != other.parts.len() {
            proof {
                assert(self@.len() != other@.len());
            }
            return false;
        }
        for i in 0..self.parts.len()
            invariant
                self.parts@.len() == other.parts@.len(),
                forall|j: int| 0 <= j < i ==> self@[j] == other@[j],
        {
            if !(self.parts[i] == other.parts[i]) {
                proof {
                    assert(self@[i as int] == self.parts@[i as int]@);
                    assert(other@[i as int] == other.parts@[i as int]@);
                    assert(self@[i as int] != other@[i as int]);
                }
                return false;
            }
        }
        proof {
            assert(self@ =~= other@);
        }
        true
    }

    /// Is `self` a (not necessarily proper) prefix of `other`?
    pub fn is_ancestor_of(&self, other: &FsPath) -> (r: bool)
        ensures
            r == self@.is_prefix_of(other@),
    {
        if self.parts.len() > other.parts.len() {
            return false;
        }
        for i in 0..self.parts.len()
            invariant
                self.parts@.len() <= other.parts@.len(),
                forall|j: int| 0 <= j < i ==> self@[j] == other@[j],
        {
            if !(self.parts[i] == other.parts[i]) {
                proof {
                    assert(self@[i as int] != other@[i as int]);
                    assert(other@.subrange(0, self@.len() as int)[i as int] == other@[i as int]);
                }
                return false;
            }
        }
        proof {
            assert(self@ =~= other@.subrange(0, self@.len() as int));
        }
        true
    }

    /// The first `n` components of the path.
    pub fn prefix(&self, n: usize) -> (r: Self)
        requires
            n <= self@.len(),
        ensures
            r@ == self@.take(n as int),
    {
        let mut parts: Vec<String> = Vec::new();
        for i in 0..n
            invariant
                n <= self.parts@.len(),
                parts@.len() == i,
                forall|j: int| 0 <= j < i ==> parts@[j]@ == self.parts@[j]@,
        {
            parts.push(self.parts[i].clone());
        }
        let r = FsPath { parts };
        proof {
            assert(r@ =~= self@.take(n as int));
        }
        r
    }

    /// `self` with the first `n` components of `from` replaced by `to`:
    /// the image of `self` when the subtree at `from` moves to `to`.
    pub fn rebase(&self, from: &FsPath, to: &FsPath) -> (r: Self)
        requires
            from@.is_prefix_of(self@),
        ensures
            r@ == to@ + self@.skip(from@.len() as int),
    {
        let flen: usize = from.parts.len();
        let slen: usize = self.parts.len();
        let mut r = to.clone();
        proof {
            assert(flen == from@.len() && slen == self@.len());
            assert(r@ =~= to@ + self@.subrange(flen as int, flen as int));
        }
        for k in 0..slen - flen
            invariant
                flen == from@.len() && slen == self@.len() && flen <= slen,
                r@ == to@ + self@.subrange(flen as int, flen + k),
        {
            let ghost prev = r@;
            r.parts.push(self.parts[flen + k].clone());
            proof {
                assert(r@ =~= prev.push(self.parts@[(flen + k) as int]@));
                assert(self@[(flen + k) as int] == self.parts@[(flen + k) as int]@);
                assert(r@ =~= to@ + self@.subrange(flen as int, flen + k + 1));
            }
        }
        proof {
            assert(to@ + self@.subrange(flen as int, slen as int) =~= to@ + self@.skip(
                from@.len() as int,
            ));
        }
        r
    }
}

} // verus!
