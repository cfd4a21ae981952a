//! The children that have been collected for each directory path.

use indextree::NodeId;
use vstd::hash_map::StringHashMap;
use vstd::prelude::*;

verus! {

/// For each directory path, the handles of the children found so far, in the
/// order in which they were found.
pub struct Branches {
    index: StringHashMap<usize>,
    lists: Vec<Vec<NodeId>>,
}

impl View for Branches {
    type V = Map<Seq<char>, Seq<NodeId>>;

    closed spec fn view(&self) -> Map<Seq<char>, Seq<NodeId>> {
        Map::new(
            |path: Seq<char>| self.index@.dom().contains(path),
            |path: Seq<char>| self.lists@[self.index@[path] as int]@,
        )
    }
}

impl Branches {
    /// The invariant: the paths are finitely many, and each has a list of its own.
    pub closed spec fn wf(self) -> bool {
        &&& self.index@.dom().finite()
        &&& forall|path: Seq<char>| #[trigger]
            self.index@.dom().contains(path) ==> self.index@[path] < self.lists@.len()
        &&& forall|a: Seq<char>, b: Seq<char>|
            #![trigger self.index@[a], self.index@[b]]
            self.index@.dom().contains(a) && self.index@.dom().contains(b) && a != b
                ==> self.index@[a] != self.index@[b]
    }

    /// The paths of a well-formed index are finitely many.
    pub proof fn lemma_finite(self)
        requires
            self.wf(),
        ensures
            self@.dom().finite(),
    {
        assert(self@.dom() =~= self.index@.dom());
    }

    /// An index without paths.
    pub fn new() -> (branches: Self)
        ensures
            branches.wf(),
            branches@ =~= Map::empty(),
    {
        Branches { index: StringHashMap::new(), lists: Vec::new() }
    }

    /// Whether a list is kept for `path`.
    pub fn contains_key(&self, path: &str) -> (found: bool)
        requires
            self.wf(),
        ensures
            found == self@.dom().contains(path@),
    {
        self.index.contains_key(path)
    }

    /// Starts an empty list for `path`, unless there is a list for it already.
    pub fn register(&mut self, path: &String)
        requires
            old(self).wf(),
        ensures
            final(self).wf(),
            final(self)@ == if old(self)@.dom().contains(path@) {
                old(self)@
            } else {
                old(self)@.insert(path@, Seq::empty())
            },
    {
        if !self.index.contains_key(path.as_str()) {
            let slot = self.lists.len();
            self.lists.push(Vec::new());
            self.index.insert(path.clone(), slot);
            assert(final(self)@ =~= old(self)@.insert(path@, Seq::empty()));
        } else {
            assert(final(self)@ =~= old(self)@);
        }
    }

    /// Appends `id` to the list of `path`, and starts that list if there is none.
    pub fn push(&mut self, path: &String, id: NodeId)
        requires
            old(self).wf(),
        ensures
            final(self).wf(),
            final(self)@ == old(self)@.insert(
                path@,
                if old(self)@.dom().contains(path@) {
                    old(self)@[path@].push(id)
                } else {
                    seq![id]
                },
            ),
    {
        match self.index.get(path.as_str()) {
            Some(slot) => {
                let slot = *slot;
                self.lists[slot].push(id);
                assert(final(self)@ =~= old(self)@.insert(path@, old(self)@[path@].push(id)));
            },
            None => {
                let slot = self.lists.len();
                let mut list = Vec::new();
                list.push(id);
                self.lists.push(list);
                self.index.insert(path.clone(), slot);
                assert(final(self)@ =~= old(self)@.insert(path@, seq![id]));
            },
        }
    }

    /// Takes the list of `path` out of the index, if there is one.
    pub fn take(&mut self, path: &str) -> (list: Option<Vec<NodeId>>)
        requires
            old(self).wf(),
        ensures
            final(self).wf(),
            final(self)@ == old(self)@.remove(path@),
            match list {
                Some(children) => old(self)@.dom().contains(path@) && children@ == old(self)@[path@],
                None => !old(self)@.dom().contains(path@),
            },
    {
        match self.index.get(path) {
            Some(slot) => {
                let slot = *slot;
                let mut list = Vec::new();
                std::mem::swap(&mut list, &mut self.lists[slot]);
                self.index.remove(path);
                assert(final(self)@ =~= old(self)@.remove(path@));
                Some(list)
            },
            None => {
                assert(final(self)@ =~= old(self)@.remove(path@));
                None
            },
        }
    }
}

} // verus!
