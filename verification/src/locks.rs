//! Which lock keeps the writers of a file apart.

use vstd::prelude::*;
use crate::paths::RelPath;

verus! {

/// The files that have a lock, each in the place that its lock is numbered by. A file keeps its
/// lock's number.
#[derive(Debug)]
pub struct WriteLocks {
    paths: Vec<RelPath>,
}

impl View for WriteLocks {
    type V = Seq<Seq<Seq<char>>>;

    closed spec fn view(&self) -> Seq<Seq<Seq<char>>> {
        self.paths@.map_values(|path: RelPath| path@)
    }
}

/// The files that have a lock once `path` has one.
pub open spec fn with_lock(paths: Seq<Seq<Seq<char>>>, path: Seq<Seq<char>>) -> Seq<Seq<Seq<char>>> {
    if paths.contains(path) {
        paths
    } else {
        paths.push(path)
    }
}

impl WriteLocks {
    /// Whether no file has two locks.
    pub open spec fn wf(&self) -> bool {
        self@.no_duplicates()
    }

    /// No file has a lock yet.
    pub fn new() -> (locks: WriteLocks)
        ensures
            locks.wf(),
            locks@ == Seq::<Seq<Seq<char>>>::empty(),
    {
        let locks = WriteLocks { paths: Vec::new() };
        assert(locks@ =~= Seq::<Seq<Seq<char>>>::empty());
        locks
    }

    /// The number of the lock that `path` has, or gets.
    pub fn write_lock(&mut self, path: &RelPath) -> (number: usize)
        requires
            old(self).wf(),
        ensures
            final(self).wf(),
            final(self)@ == with_lock(old(self)@, path@),
            final(self)@ == old(self)@ || final(self)@ == old(self)@.push(path@),
            old(self)@.contains(path@) ==> final(self)@ == old(self)@,
            number < final(self)@.len(),
            final(self)@[number as int] == path@,
    {
        let n: usize = self.paths.len();
        for i in 0..n
            invariant
                n == self@.len(),
                self@ == old(self)@,
                old(self).wf(),
                forall|j: int| 0 <= j < i ==> self@[j] != path@,
        {
            if self.paths[i].same(path) {
                assert(self@[i as int] == path@);
                return i;
            }
        }
        assert(!self@.contains(path@));
        self.paths.push(path.copy());
        assert(self@ =~= old(self)@.push(path@));
        n
    }
}

/// Two writers hold the same lock exactly if they write to the same file, whenever each of them
/// asked for it: `earlier` are the files that had a lock when the first one got number `a`, and
/// `later` those of some time after, when the second one got number `b`.
pub proof fn law_one_lock_per_file(
    earlier: Seq<Seq<Seq<char>>>,
    later: Seq<Seq<Seq<char>>>,
    a: int,
    b: int,
)
    requires
        earlier.is_prefix_of(later),
        later.no_duplicates(),
        0 <= a < earlier.len(),
        0 <= b < later.len(),
    ensures
        a == b <==> earlier[a] == later[b],
{
    assert(earlier[a] == later[a]);
}

/// A file that got a lock keeps it, whichever files get one later.
pub proof fn law_locks_stay(paths: Seq<Seq<Seq<char>>>, path: Seq<Seq<char>>)
    ensures
        paths.is_prefix_of(with_lock(paths, path)),
        paths.no_duplicates() ==> with_lock(paths, path).no_duplicates(),
{
    let all = with_lock(paths, path);
    assert(paths =~= all.subrange(0, paths.len() as int));
}

} // verus!
