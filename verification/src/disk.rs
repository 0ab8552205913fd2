//! A model of the mirror's file tree: the set of paths that exist. The
//! engines decide everything from presence alone — idempotency rests on
//! existence checks, never on file contents — so contents stay outside the
//! model and the surrounding process moves the actual bytes.

use vstd::prelude::*;
use crate::util::{str_eq, str_starts_with};

verus! {

/// A path is present in the tree.
pub open spec fn has_path_seq(s: Seq<Seq<char>>, p: Seq<char>) -> bool {
    exists|i: int| 0 <= i < s.len() && s[i] == p
}

/// The tree after a file is written: the path becomes present.
pub open spec fn add_path_seq(s: Seq<Seq<char>>, p: Seq<char>) -> Seq<Seq<char>> {
    if has_path_seq(s, p) {
        s
    } else {
        s.push(p)
    }
}

/// The tree after a file is removed: the path is no longer present.
pub open spec fn remove_path_seq(s: Seq<Seq<char>>, p: Seq<char>) -> Seq<Seq<char>> {
    s.filter(|q: Seq<char>| q != p)
}

/// The tree after a whole subtree is removed: no path under `prefix` is
/// present any more.
pub open spec fn remove_subtree_seq(s: Seq<Seq<char>>, prefix: Seq<char>) -> Seq<Seq<char>> {
    s.filter(|q: Seq<char>| !(prefix.len() <= q.len() && q.take(prefix.len() as int) == prefix))
}

/// The paths present in the local file tree.
pub struct Disk {
    pub files: Vec<String>,
}

impl Disk {
    /// The paths the tree holds.
    pub open spec fn paths(self) -> Seq<Seq<char>> {
        self.files.deep_view()
    }

    /// A path is present.
    pub open spec fn has_path(self, p: Seq<char>) -> bool {
        has_path_seq(self.paths(), p)
    }

    /// An empty tree.
    pub fn new() -> (r: Disk)
        ensures
            r.paths() == Seq::<Seq<char>>::empty(),
    {
        let r = Disk { files: Vec::new() };
        proof {
            assert(r.paths() =~= Seq::<Seq<char>>::empty());
        }
        r
    }

    /// Whether `path` is present.
    pub fn file_exists(&self, path: &str) -> (r: bool)
        ensures
            r == self.has_path(path@),
    {
        let n = self.files.len();
        let mut i: usize = 0;
        while i < n
            invariant
                0 <= i <= n,
                n == self.files@.len(),
                forall|j: int| 0 <= j < i ==> #[trigger] self.paths()[j] != path@,
            decreases n - i,
        {
            if str_eq(self.files[i].as_str(), path) {
                proof {
                    assert(self.paths()[i as int] == path@);
                }
                return true;
            }
            i = i + 1;
        }
        false
    }

    /// Makes `path` present, as writing the file does.
    pub fn write(&mut self, path: &str)
        ensures
            final(self).paths() == add_path_seq(old(self).paths(), path@),
    {
        let ghost m = self.paths();
        if !self.file_exists(path) {
            self.files.push(String::from_str(path));
            proof {
                assert(self.paths() =~= m.push(path@));
            }
        }
    }

    /// Removes every path under `prefix`, as deleting a whole directory
    /// tree does.
    pub fn remove_subtree(&mut self, prefix: &str)
        ensures
            final(self).paths() == remove_subtree_seq(old(self).paths(), prefix@),
    {
        let ghost m = self.paths();
        let n = self.files.len();
        let mut out: Vec<String> = Vec::new();
        let mut i: usize = 0;
        while i < n
            invariant
                0 <= i <= n,
                n == self.files@.len(),
                m == self.paths(),
                out.deep_view() =~= remove_subtree_seq(m.take(i as int), prefix@),
            decreases n - i,
        {
            let ghost prev = out@;
            let ghost prevdv = out.deep_view();
            proof {
                assert(prevdv =~= remove_subtree_seq(m.take(i as int), prefix@));
                assert(prevdv.len() == prev.len());
                reveal(Seq::filter);
                assert(m.take(i + 1).drop_last() =~= m.take(i as int));
                assert(m.take(i + 1).last() == m[i as int]);
            }
            if !str_starts_with(self.files[i].as_str(), prefix) {
                out.push(self.files[i].clone());
                proof {
                    assert(out@.last()@ == m[i as int]);
                    assert forall|j: int| 0 <= j < out@.len() implies out.deep_view()[j]
                        == remove_subtree_seq(m.take(i + 1), prefix@)[j] by {
                        if j < prevdv.len() {
                            assert(out@[j] == prev[j]);
                            assert(prevdv[j] == prev[j].deep_view());
                        }
                    }
                    assert(out.deep_view() =~= remove_subtree_seq(m.take(i + 1), prefix@));
                }
            } else {
                proof {
                    assert(out.deep_view() =~= remove_subtree_seq(m.take(i + 1), prefix@));
                }
            }
            i = i + 1;
        }
        self.files = out;
        proof {
            assert(m.take(n as int) =~= m);
        }
    }

    /// Makes `path` absent, as a best-effort removal does; a path that was
    /// never present is left alone.
    pub fn remove(&mut self, path: &str)
        ensures
            final(self).paths() == remove_path_seq(old(self).paths(), path@),
    {
        let ghost m = self.paths();
        let n = self.files.len();
        let mut out: Vec<String> = Vec::new();
        let mut i: usize = 0;
        while i < n
            invariant
                0 <= i <= n,
                n == self.files@.len(),
                m == self.paths(),
                out.deep_view() =~= remove_path_seq(m.take(i as int), path@),
            decreases n - i,
        {
            let ghost prev = out@;
            let ghost prevdv = out.deep_view();
            proof {
                assert(prevdv =~= remove_path_seq(m.take(i as int), path@));
                assert(prevdv.len() == prev.len());
                reveal(Seq::filter);
                assert(m.take(i + 1).drop_last() =~= m.take(i as int));
                assert(m.take(i + 1).last() == m[i as int]);
            }
            if !str_eq(self.files[i].as_str(), path) {
                out.push(self.files[i].clone());
                proof {
                    assert(out@.last()@ == m[i as int]);
                    assert forall|j: int| 0 <= j < out@.len() implies out.deep_view()[j]
                        == remove_path_seq(m.take(i + 1), path@)[j] by {
                        if j < prevdv.len() {
                            assert(out@[j] == prev[j]);
                            assert(prevdv[j] == prev[j].deep_view());
                        }
                    }
                    assert(out.deep_view() =~= remove_path_seq(m.take(i + 1), path@));
                }
            } else {
                proof {
                    assert(out.deep_view() =~= remove_path_seq(m.take(i + 1), path@));
                }
            }
            i = i + 1;
        }
        self.files = out;
        proof {
            assert(m.take(n as int) =~= m);
        }
    }
}

} // verus!
