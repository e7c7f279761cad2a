//! The hashbrown collections that the table keeps its data in. Each is held in
//! a field that Verus does not look into; what it holds is named by a spec
//! function, and every operation the table uses states its effect on that name.
use vstd::prelude::*;

use crate::table::{fixed, lies_on, Node};

verus! {

/// The nodes of a table by coordinate `(row, col)`.
#[verifier::external_body]
#[derive(Debug)]
pub struct NodeMap {
    map: hashbrown::HashMap<(usize, usize), Node>,
}

/// The entries of a node map.
pub uninterp spec fn node_entries(m: NodeMap) -> Map<(usize, usize), Node>;

impl NodeMap {
    /// Relies on hashbrown::HashMap::new: the new map is empty.
    #[verifier::external_body]
    pub(crate) fn new() -> (r: NodeMap)
        ensures
            node_entries(r).dom() == Set::<(usize, usize)>::empty(),
    {
        NodeMap { map: hashbrown::HashMap::new() }
    }

    /// Relies on hashbrown::HashMap::len: the number of entries.
    #[verifier::external_body]
    pub(crate) fn len(&self) -> (r: usize)
        ensures
            r == node_entries(*self).len(),
    {
        self.map.len()
    }

    /// Relies on hashbrown::HashMap::contains_key: whether the key has an entry.
    #[verifier::external_body]
    pub(crate) fn contains_key(&self, k: (usize, usize)) -> (r: bool)
        ensures
            r == node_entries(*self).contains_key(k),
    {
        self.map.contains_key(&k)
    }

    /// Relies on hashbrown::HashMap::get: the value stored under the key, if any.
    #[verifier::external_body]
    pub(crate) fn get(&self, k: (usize, usize)) -> (r: Option<Node>)
        ensures
            r == if node_entries(*self).contains_key(k) {
                Some(node_entries(*self)[k])
            } else {
                None
            },
    {
        self.map.get(&k).copied()
    }

    /// Relies on hashbrown::HashMap::insert: afterwards the key maps to the value,
    /// and no other entry changed.
    #[verifier::external_body]
    pub(crate) fn insert(&mut self, k: (usize, usize), v: Node)
        ensures
            node_entries(*final(self)) == node_entries(*old(self)).insert(k, v),
    {
        self.map.insert(k, v);
    }

    /// Relies on hashbrown::HashMap::remove: afterwards the key has no entry,
    /// and no other entry changed.
    #[verifier::external_body]
    pub(crate) fn remove(&mut self, k: (usize, usize))
        ensures
            node_entries(*final(self)) == node_entries(*old(self)).remove(k),
    {
        self.map.remove(&k);
    }
}

/// A set of coordinates `(row, col)`.
#[verifier::external_body]
#[derive(Debug)]
pub struct CoordSet {
    set: hashbrown::HashSet<(usize, usize)>,
}

/// The members of a coordinate set.
pub uninterp spec fn coord_members(s: CoordSet) -> Set<(usize, usize)>;

impl CoordSet {
    /// Relies on hashbrown::HashSet::new: the new set is empty.
    #[verifier::external_body]
    pub(crate) fn new() -> (r: CoordSet)
        ensures
            coord_members(r) == Set::<(usize, usize)>::empty(),
    {
        CoordSet { set: hashbrown::HashSet::new() }
    }

    /// Relies on hashbrown::HashSet::len: the number of members.
    #[verifier::external_body]
    pub(crate) fn len(&self) -> (r: usize)
        ensures
            r == coord_members(*self).len(),
    {
        self.set.len()
    }

    /// Relies on hashbrown::HashSet::contains: whether the value is a member.
    #[verifier::external_body]
    pub(crate) fn contains(&self, c: (usize, usize)) -> (r: bool)
        ensures
            r == coord_members(*self).contains(c),
    {
        self.set.contains(&c)
    }

    /// Relies on hashbrown::HashSet::insert: afterwards the value is a member,
    /// and no other membership changed.
    #[verifier::external_body]
    pub(crate) fn insert(&mut self, c: (usize, usize))
        ensures
            coord_members(*final(self)) == coord_members(*old(self)).insert(c),
    {
        self.set.insert(c);
    }

    /// Relies on hashbrown::HashSet::remove: afterwards the value is no member,
    /// and no other membership changed.
    #[verifier::external_body]
    pub(crate) fn remove(&mut self, c: (usize, usize))
        ensures
            coord_members(*final(self)) == coord_members(*old(self)).remove(c),
    {
        self.set.remove(&c);
    }

    /// Relies on hashbrown::HashSet::iter, searched with `Iterator::find`: a
    /// member on line `index` of axis `dim` if there is one; which one, when
    /// several are, depends on the order of iteration.
    #[verifier::external_body]
    pub(crate) fn find_on_line(&self, dim: usize, index: usize) -> (r: Option<(usize, usize)>)
        requires
            dim < 2,
        ensures
            match r {
                Some(c) => coord_members(*self).contains(c) && fixed(dim as int, c) == index,
                None => forall|c: (usize, usize)| #[trigger]
                    coord_members(*self).contains(c) ==> fixed(dim as int, c) != index,
            },
    {
        self.set.iter().find(|c| lies_on(c, dim, index)).copied()
    }
}

/// A set of line indices.
#[verifier::external_body]
#[derive(Debug)]
pub struct IdSet {
    set: hashbrown::HashSet<usize>,
}

/// The members of an index set.
pub uninterp spec fn id_members(s: IdSet) -> Set<usize>;

impl IdSet {
    /// Relies on hashbrown::HashSet::new: the new set is empty.
    #[verifier::external_body]
    pub(crate) fn new() -> (r: IdSet)
        ensures
            id_members(r) == Set::<usize>::empty(),
    {
        IdSet { set: hashbrown::HashSet::new() }
    }

    /// Relies on hashbrown::HashSet::insert: afterwards the value is a member,
    /// and no other membership changed.
    #[verifier::external_body]
    pub(crate) fn insert(&mut self, id: usize)
        ensures
            id_members(*final(self)) == id_members(*old(self)).insert(id),
    {
        self.set.insert(id);
    }

    /// Relies on hashbrown::HashSet::iter: each member once, in the order of
    /// iteration.
    #[verifier::external_body]
    pub(crate) fn to_vec(&self) -> (r: Vec<usize>)
        ensures
            r@.to_set() == id_members(*self),
            r@.no_duplicates(),
    {
        self.set.iter().copied().collect()
    }
}

} // verus!
