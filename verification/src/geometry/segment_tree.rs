use vstd::prelude::*;

verus! {

/// Why an operation on a [`SegmentBinTree`] failed.
#[derive(Debug, Clone, Copy, PartialEq, Eq, Structural)]
pub enum TreeError {
    /// A node on the search path carries the id of the segment in question.
    DuplicateId,
    /// The search went to the left and found no child there.
    NotFoundLeft,
    /// The search went to the right and found no child there.
    NotFoundRight,
    /// No segment of the tree lies to the left of the query point.
    NoSegmentOnLeft,
    /// The tree holds no segment.
    Empty,
}

/// An unbalanced binary tree of polygon edges ordered from left to right.
/// `x_cord` is an edge's order key: of two edges that cross the sweep line,
/// the one with the smaller key lies further to the left.
#[derive(Debug)]
pub struct SegmentBinTree {
    pub id: usize,
    pub x_cord: i64,
    pub left: Option<Box<SegmentBinTree>>,
    pub right: Option<Box<SegmentBinTree>>,
}

impl Clone for SegmentBinTree {
    /// A copy of the whole tree.
    fn clone(&self) -> (res: Self)
        ensures
            res == *self,
        decreases self,
    {
        let left = match &self.left {
            Some(l) => Some(Box::new((**l).clone())),
            None => None,
        };
        let right = match &self.right {
            Some(r) => Some(Box::new((**r).clone())),
            None => None,
        };
        SegmentBinTree { id: self.id, x_cord: self.x_cord, left, right }
    }
}

/// The (id, key) pairs stored in an optional subtree.
pub open spec fn opt_entries(t: Option<Box<SegmentBinTree>>) -> Set<(usize, i64)>
    decreases t,
{
    match t {
        None => Set::empty(),
        Some(b) => b.entries(),
    }
}

/// The ids stored in an optional subtree.
pub open spec fn opt_ids(t: Option<Box<SegmentBinTree>>) -> Set<usize>
    decreases t,
{
    match t {
        None => Set::empty(),
        Some(b) => b.ids(),
    }
}

/// An optional subtree is ordered (see [`SegmentBinTree::bst`]).
pub open spec fn opt_bst(t: Option<Box<SegmentBinTree>>) -> bool
    decreases t,
{
    match t {
        None => true,
        Some(b) => b.bst(),
    }
}

/// No id occurs twice in an optional subtree.
pub open spec fn opt_distinct(t: Option<Box<SegmentBinTree>>) -> bool
    decreases t,
{
    match t {
        None => true,
        Some(b) => b.distinct(),
    }
}

impl SegmentBinTree {
    /// A tree of one node.
    pub open spec fn leaf(id: usize, x_cord: i64) -> SegmentBinTree {
        SegmentBinTree { id, x_cord, left: None, right: None }
    }

    pub open spec fn entries(self) -> Set<(usize, i64)>
        decreases self,
    {
        opt_entries(self.left).union(opt_entries(self.right)).insert((self.id, self.x_cord))
    }

    pub open spec fn ids(self) -> Set<usize>
        decreases self,
    {
        opt_ids(self.left).union(opt_ids(self.right)).insert(self.id)
    }

    /// Every key in the left subtree is smaller than the node's key, every key
    /// in the right subtree is at least the node's key, at every node.
    pub open spec fn bst(self) -> bool
        decreases self,
    {
        &&& forall|e: (usize, i64)| #[trigger] opt_entries(self.left).contains(e) ==> e.1 < self.x_cord
        &&& forall|e: (usize, i64)| #[trigger] opt_entries(self.right).contains(e) ==> e.1 >= self.x_cord
        &&& opt_bst(self.left)
        &&& opt_bst(self.right)
    }

    /// No id occurs twice in the tree.
    pub open spec fn distinct(self) -> bool
        decreases self,
    {
        &&& !opt_ids(self.left).contains(self.id)
        &&& !opt_ids(self.right).contains(self.id)
        &&& opt_ids(self.left).disjoint(opt_ids(self.right))
        &&& opt_distinct(self.left)
        &&& opt_distinct(self.right)
    }

    /// The tree the way the edge sweep keeps it: ordered, and each id once.
    pub open spec fn wf(self) -> bool {
        self.bst() && self.distinct()
    }

    /// Whether a node on the search path for the key `x` carries the id `id`.
    pub open spec fn on_path(self, id: usize, x: i64) -> bool
        decreases self,
    {
        self.id == id || if self.x_cord > x {
            match self.left {
                None => false,
                Some(l) => l.on_path(id, x),
            }
        } else {
            match self.right {
                None => false,
                Some(r) => r.on_path(id, x),
            }
        }
    }

    /// `other` hung, with its subtrees, at the free place that the search
    /// for its key ends in.
    pub open spec fn inserted(self, other: SegmentBinTree) -> SegmentBinTree
        decreases self,
    {
        if self.x_cord > other.x_cord {
            match self.left {
                None => SegmentBinTree {
                    id: self.id,
                    x_cord: self.x_cord,
                    left: Some(Box::new(other)),
                    right: self.right,
                },
                Some(l) => SegmentBinTree {
                    id: self.id,
                    x_cord: self.x_cord,
                    left: Some(Box::new(l.inserted(other))),
                    right: self.right,
                },
            }
        } else {
            match self.right {
                None => SegmentBinTree {
                    id: self.id,
                    x_cord: self.x_cord,
                    left: self.left,
                    right: Some(Box::new(other)),
                },
                Some(r) => SegmentBinTree {
                    id: self.id,
                    x_cord: self.x_cord,
                    left: self.left,
                    right: Some(Box::new(r.inserted(other))),
                },
            }
        }
    }


    /// What trying to hang `other` below `self` gives: the new tree and
    /// whether it succeeded (see [`SegmentBinTree::insert`]).
    pub open spec fn try_inserted(self, other: SegmentBinTree) -> (SegmentBinTree, Result<(), TreeError>) {
        if self.on_path(other.id, other.x_cord) {
            (self, Err(TreeError::DuplicateId))
        } else {
            (self.inserted(other), Ok(()))
        }
    }

    /// `self` with the optional subtree `o` hung below it, when there is one.
    pub open spec fn try_inserted_opt(self, o: Option<Box<SegmentBinTree>>) -> SegmentBinTree {
        match o {
            None => self,
            Some(b) => self.try_inserted(*b).0,
        }
    }

    /// What [`SegmentBinTree::remove`] leaves when it unhooks the child `c`
    /// from the left (`to_left`) or right side of `self`: that side is
    /// cleared and the child's own subtrees are hung below `self` again.
    pub open spec fn unhooked(self, c: SegmentBinTree, to_left: bool) -> (SegmentBinTree, Result<(), TreeError>) {
        let t0 = if to_left {
            SegmentBinTree { id: self.id, x_cord: self.x_cord, left: None, right: self.right }
        } else {
            SegmentBinTree { id: self.id, x_cord: self.x_cord, left: self.left, right: None }
        };
        let (t1, r1) = match c.left {
            None => (t0, Ok(())),
            Some(cl) => t0.try_inserted(*cl),
        };
        if r1 is Err {
            (t1, r1)
        } else {
            let (t2, r2) = match c.right {
                None => (t1, Ok(())),
                Some(cr) => t1.try_inserted(*cr),
            };
            (t2, r2)
        }
    }

    /// What [`SegmentBinTree::remove`] leaves and returns, on any tree.
    pub open spec fn removed(self, id: usize, x: i64) -> (SegmentBinTree, Result<(), TreeError>)
        decreases self,
    {
        if self.id == id {
            (self, Err(TreeError::DuplicateId))
        } else if self.x_cord > x {
            match self.left {
                None => (self, Err(TreeError::NotFoundLeft)),
                Some(c) => if c.id == id {
                    self.unhooked(*c, true)
                } else {
                    let (c2, r) = c.removed(id, x);
                    (SegmentBinTree { id: self.id, x_cord: self.x_cord, left: Some(Box::new(c2)), right: self.right }, r)
                },
            }
        } else {
            match self.right {
                None => (self, Err(TreeError::NotFoundRight)),
                Some(c) => if c.id == id {
                    self.unhooked(*c, false)
                } else {
                    let (c2, r) = c.removed(id, x);
                    (SegmentBinTree { id: self.id, x_cord: self.x_cord, left: self.left, right: Some(Box::new(c2)) }, r)
                },
            }
        }
    }

    /// Whether a child on the search path for the key `x` carries the id `id`.
    pub open spec fn finds(self, id: usize, x: i64) -> bool
        decreases self,
    {
        if self.x_cord > x {
            match self.left {
                None => false,
                Some(c) => c.id == id || c.finds(id, x),
            }
        } else {
            match self.right {
                None => false,
                Some(c) => c.id == id || c.finds(id, x),
            }
        }
    }

    /// The walk of [`SegmentBinTree::nearest_left`]: at a node that lies to
    /// the left of the query point, the answer from the right subtree if it
    /// has one and the node itself otherwise; at any other node, the answer
    /// from the left subtree.  `left_of[id]` tells whether segment `id` lies
    /// to the left of the query point.
    pub open spec fn nearest_left_of(self, left_of: Seq<bool>) -> Option<usize>
        decreases self,
    {
        if left_of[self.id as int] {
            match self.right {
                None => Some(self.id),
                Some(r) => match r.nearest_left_of(left_of) {
                    Some(k) => Some(k),
                    None => Some(self.id),
                },
            }
        } else {
            match self.left {
                None => None,
                Some(l) => l.nearest_left_of(left_of),
            }
        }
    }

    pub fn new(id: usize, x_cord: i64) -> (res: SegmentBinTree)
        ensures
            res == SegmentBinTree::leaf(id, x_cord),
    {
        SegmentBinTree { id, x_cord, left: None, right: None }
    }

    /// Hangs `other` (with its subtrees) below the node where the search for
    /// its key ends.  Fails, changing nothing, when a node on that search path
    /// carries `other`'s id.
    pub fn insert(&mut self, other: SegmentBinTree) -> (res: Result<(), TreeError>)
        ensures
            res is Err <==> old(self).on_path(other.id, other.x_cord),
            res is Err ==> res == Err::<(), TreeError>(TreeError::DuplicateId) && *final(self) == *old(self),
            res is Ok ==> *final(self) == old(self).inserted(other),
        decreases *old(self),
    {
        if self.id == other.id {
            return Err(TreeError::DuplicateId);
        }
        if self.x_cord > other.x_cord {
            match &mut self.left {
                None => {
                    self.left = Some(Box::new(other));
                    Ok(())
                },
                Some(x) => x.insert(other),
            }
        } else {
            match &mut self.right {
                None => {
                    self.right = Some(Box::new(other));
                    Ok(())
                },
                Some(x) => x.insert(other),
            }
        }
    }

    /// Removes the child that carries `other_id`, searching by the key
    /// `other_cord`: the child leaves, and its subtrees are hung below
    /// `self` again, so on an ordered tree with distinct ids exactly that
    /// segment leaves and the tree stays ordered.  The root itself is
    /// removed by [`SegmentBinTree::remove_from`].
    pub fn remove(&mut self, other_id: usize, other_cord: i64) -> (res: Result<(), TreeError>)
        ensures
            (*final(self), res) == old(self).removed(other_id, other_cord),
            old(self).wf() ==> {
                &&& final(self).wf()
                &&& (old(self).id != other_id && old(self).finds(other_id, other_cord)) ==> {
                    &&& res is Ok
                    &&& final(self).ids() == old(self).ids().remove(other_id)
                    &&& exists|k: i64| #[trigger] old(self).entries().contains((other_id, k))
                        && final(self).entries() == old(self).entries().remove((other_id, k))
                }
            },
        decreases *old(self),
    {
        let ghost t0 = *self;
        proof {
            if t0.wf() {
                lemma_remove_deletes(t0, other_id, other_cord);
                lemma_remove_keeps_order(t0, other_id, other_cord);
            }
        }
        if self.id == other_id {
            return Err(TreeError::DuplicateId);
        }
        if self.x_cord > other_cord {
            let hit = match &self.left {
                None => { return Err(TreeError::NotFoundLeft); },
                Some(x) => x.id == other_id,
            };
            if hit {
                let x = *self.left.take().unwrap();
                if let Some(xl) = x.left {
                    match self.insert(*xl) {
                        Err(e) => { return Err(e); },
                        Ok(()) => {},
                    }
                }
                if let Some(xr) = x.right {
                    match self.insert(*xr) {
                        Err(e) => { return Err(e); },
                        Ok(()) => {},
                    }
                }
                Ok(())
            } else {
                match &mut self.left {
                    None => Err(TreeError::NotFoundLeft),
                    Some(x) => x.remove(other_id, other_cord),
                }
            }
        } else {
            let hit = match &self.right {
                None => { return Err(TreeError::NotFoundRight); },
                Some(x) => x.id == other_id,
            };
            if hit {
                let x = *self.right.take().unwrap();
                if let Some(xl) = x.left {
                    match self.insert(*xl) {
                        Err(e) => { return Err(e); },
                        Ok(()) => {},
                    }
                }
                if let Some(xr) = x.right {
                    match self.insert(*xr) {
                        Err(e) => { return Err(e); },
                        Ok(()) => {},
                    }
                }
                Ok(())
            } else {
                match &mut self.right {
                    None => Err(TreeError::NotFoundRight),
                    Some(x) => x.remove(other_id, other_cord),
                }
            }
        }
    }

    /// Removes the segment `id` from the tree `tree`, searching by the key
    /// `x`; the root too.  Taking out the root leaves its left subtree with
    /// its right subtree hung below it.  On an ordered tree with distinct
    /// ids, exactly that segment leaves when a node on the search path
    /// carries it, and the tree stays ordered; otherwise nothing changes
    /// and an error comes back.
    pub fn remove_from(tree: &mut Option<SegmentBinTree>, id: usize, x: i64) -> (res: Result<(), TreeError>)
        ensures
            (*final(tree), res) == removed_from(*old(tree), id, x),
            *old(tree) is Some && old(tree)->0.wf() ==> {
                &&& (*final(tree) matches Some(r2) ==> r2.wf())
                &&& (old(tree)->0.id == id || old(tree)->0.finds(id, x)) ==> {
                    &&& res is Ok
                    &&& tree_ids(*final(tree)) == tree_ids(*old(tree)).remove(id)
                    &&& exists|k: i64| #[trigger] tree_entries(*old(tree)).contains((id, k))
                        && tree_entries(*final(tree)) == tree_entries(*old(tree)).remove((id, k))
                }
                &&& !(old(tree)->0.id == id || old(tree)->0.finds(id, x)) ==> res is Err && *final(tree) == *old(tree)
            },
    {
        let ghost t0 = *tree;
        proof {
            if t0 matches Some(r) && r.wf() {
                lemma_remove_from_deletes(t0, id, x);
                lemma_remove_from_keeps_order(t0, id, x);
            }
        }
        match tree.take() {
            None => Err(TreeError::Empty),
            Some(mut r) => {
                if r.id == id {
                    let SegmentBinTree { id: _, x_cord: _, left, right } = r;
                    match left {
                        None => {
                            *tree = match right {
                                None => None,
                                Some(b) => Some(*b),
                            };
                            Ok(())
                        },
                        Some(lb) => {
                            let mut l = *lb;
                            match right {
                                None => {
                                    *tree = Some(l);
                                    Ok(())
                                },
                                Some(rb) => {
                                    let res = l.insert(*rb);
                                    *tree = Some(l);
                                    match res {
                                        Ok(()) => Ok(()),
                                        Err(e) => Err(e),
                                    }
                                },
                            }
                        },
                    }
                } else {
                    let res = r.remove(id, x);
                    *tree = Some(r);
                    res
                }
            },
        }
    }

    /// The segment nearest to the left of a query point.  `left_of[id]`
    /// tells whether segment `id` lies to the left of that point; the
    /// geometry that decides it is the caller's.
    pub fn nearest_left(&self, left_of: &Vec<bool>) -> (res: Result<usize, TreeError>)
        requires
            forall|i: usize| #[trigger] self.ids().contains(i) ==> i < left_of.len(),
        ensures
            match self.nearest_left_of(left_of@) {
                Some(k) => res == Ok::<usize, TreeError>(k),
                None => res == Err::<usize, TreeError>(TreeError::NoSegmentOnLeft),
            },
        decreases *self,
    {
        assert(self.ids().contains(self.id));
        if left_of[self.id] {
            match &self.right {
                None => Ok(self.id),
                Some(seg) => {
                    assert forall|i: usize| #[trigger] seg.ids().contains(i) implies i < left_of.len() by {
                        assert(opt_ids(self.right) == seg.ids());
                        assert(self.ids().contains(i));
                    }
                    let res = seg.nearest_left(left_of);
                    if res.is_ok() {
                        res
                    } else {
                        Ok(self.id)
                    }
                },
            }
        } else {
            match &self.left {
                None => Err(TreeError::NoSegmentOnLeft),
                Some(seg) => {
                    assert forall|i: usize| #[trigger] seg.ids().contains(i) implies i < left_of.len() by {
                        assert(opt_ids(self.left) == seg.ids());
                        assert(self.ids().contains(i));
                    }
                    seg.nearest_left(left_of)
                },
            }
        }
    }
}

/// The tree left when the root `t` itself is taken out: its left subtree
/// with its right subtree hung below it, or the one subtree it has, or no
/// tree.
pub open spec fn without_root(t: SegmentBinTree) -> (Option<SegmentBinTree>, Result<(), TreeError>) {
    match t.left {
        None => (
            match t.right {
                None => None,
                Some(r) => Some(*r),
            },
            Ok(()),
        ),
        Some(l) => match t.right {
            None => (Some(*l), Ok(())),
            Some(r) => (Some(l.try_inserted(*r).0), l.try_inserted(*r).1),
        },
    }
}

/// What [`SegmentBinTree::remove_from`] leaves and returns, on any tree.
pub open spec fn removed_from(t: Option<SegmentBinTree>, id: usize, x: i64) -> (Option<SegmentBinTree>, Result<(), TreeError>) {
    match t {
        None => (None, Err(TreeError::Empty)),
        Some(r) => if r.id == id {
            without_root(r)
        } else {
            (Some(r.removed(id, x).0), r.removed(id, x).1)
        },
    }
}

/// The pairs of an optional tree.
pub open spec fn tree_entries(t: Option<SegmentBinTree>) -> Set<(usize, i64)> {
    match t {
        None => Set::empty(),
        Some(r) => r.entries(),
    }
}

/// The ids of an optional tree.
pub open spec fn tree_ids(t: Option<SegmentBinTree>) -> Set<usize> {
    match t {
        None => Set::empty(),
        Some(r) => r.ids(),
    }
}

/// On an ordered tree in which each id occurs once, taking out the root
/// succeeds and leaves exactly the other pairs.
pub proof fn lemma_without_root(t: SegmentBinTree)
    requires
        t.wf(),
    ensures
        without_root(t).1 == Ok::<(), TreeError>(()),
        tree_entries(without_root(t).0) == t.entries().remove((t.id, t.x_cord)),
        tree_ids(without_root(t).0) == t.ids().remove(t.id),
{
    let p = (t.id, t.x_cord);
    let le = opt_entries(t.left);
    let re = opt_entries(t.right);
    assert(!le.contains(p)) by {
        if le.contains(p) {
            lemma_entry_id_in_ids(*t.left.unwrap(), p);
            assert(opt_ids(t.left) == t.left.unwrap().ids());
        }
    }
    assert(!re.contains(p)) by {
        if re.contains(p) {
            lemma_entry_id_in_ids(*t.right.unwrap(), p);
            assert(opt_ids(t.right) == t.right.unwrap().ids());
        }
    }
    match t.left {
        None => {
            match t.right {
                None => {},
                Some(r) => {
                    assert(re == r.entries());
                    assert(opt_ids(t.right) == r.ids());
                },
            }
        },
        Some(l) => {
            assert(le == l.entries());
            assert(opt_ids(t.left) == l.ids());
            match t.right {
                None => {},
                Some(r) => {
                    assert(re == r.entries());
                    assert(opt_ids(t.right) == r.ids());
                    assert(r.ids().contains(r.id));
                    if l.on_path(r.id, r.x_cord) {
                        lemma_on_path_in_ids(*l, r.id, r.x_cord);
                    }
                    lemma_inserted_contents(*l, *r);
                },
            }
        },
    }
    assert(tree_entries(without_root(t).0) =~= t.entries().remove(p));
    assert(tree_ids(without_root(t).0) =~= t.ids().remove(t.id));
}

/// On an ordered tree in which each id occurs once, `remove_from` takes out
/// exactly the pair with the id when a node on the search path carries it;
/// otherwise it refuses and changes nothing.
pub proof fn lemma_remove_from_deletes(t: Option<SegmentBinTree>, id: usize, x: i64)
    requires
        t matches Some(r) ==> r.wf(),
    ensures
        (t matches Some(r) && (r.id == id || r.finds(id, x))) ==> {
            &&& removed_from(t, id, x).1 == Ok::<(), TreeError>(())
            &&& exists|k: i64| #[trigger] tree_entries(t).contains((id, k))
                && tree_entries(removed_from(t, id, x).0) == tree_entries(t).remove((id, k))
            &&& tree_ids(removed_from(t, id, x).0) == tree_ids(t).remove(id)
        },
        !(t matches Some(r) && (r.id == id || r.finds(id, x))) ==> {
            &&& removed_from(t, id, x).0 == t
            &&& removed_from(t, id, x).1 is Err
        },
{
    match t {
        None => {},
        Some(r) => {
            if r.id == id {
                lemma_without_root(r);
                assert(tree_entries(t) == r.entries());
                assert(r.entries().contains((r.id, r.x_cord)));
                assert(tree_entries(t).contains((id, r.x_cord)));
            } else {
                let k = lemma_remove_deletes(r, id, x);
                if r.finds(id, x) {
                    assert(tree_entries(t).contains((id, k)));
                }
            }
        },
    }
}

/// A node on a search path is a node of the tree.
pub proof fn lemma_on_path_in_ids(t: SegmentBinTree, id: usize, x: i64)
    requires
        t.on_path(id, x),
    ensures
        t.ids().contains(id),
    decreases t,
{
    if t.id != id {
        if t.x_cord > x {
            let l = t.left.unwrap();
            lemma_on_path_in_ids(*l, id, x);
        } else {
            let r = t.right.unwrap();
            lemma_on_path_in_ids(*r, id, x);
        }
    }
}

/// The id of every stored pair is one of the tree's ids.
pub proof fn lemma_entry_id_in_ids(t: SegmentBinTree, e: (usize, i64))
    requires
        t.entries().contains(e),
    ensures
        t.ids().contains(e.0),
    decreases t,
{
    if e != (t.id, t.x_cord) {
        if opt_entries(t.left).contains(e) {
            lemma_entry_id_in_ids(*t.left.unwrap(), e);
        } else {
            lemma_entry_id_in_ids(*t.right.unwrap(), e);
        }
    }
}

/// Hanging a subtree adds exactly its pairs and its ids.
pub proof fn lemma_inserted_contents(t: SegmentBinTree, o: SegmentBinTree)
    ensures
        t.inserted(o).entries() == t.entries().union(o.entries()),
        t.inserted(o).ids() == t.ids().union(o.ids()),
    decreases t,
{
    if t.x_cord > o.x_cord {
        match t.left {
            None => {},
            Some(l) => lemma_inserted_contents(*l, o),
        }
    } else {
        match t.right {
            None => {},
            Some(r) => lemma_inserted_contents(*r, o),
        }
    }
    assert(t.inserted(o).entries() =~= t.entries().union(o.entries()));
    assert(t.inserted(o).ids() =~= t.ids().union(o.ids()));
}

/// On an ordered tree in which each id occurs once, `remove` either refuses
/// (the root's id, or no child with the id on the search path), changing
/// nothing, or succeeds and takes out exactly the pair with that id,
/// whose key it returns.
pub proof fn lemma_remove_deletes(t: SegmentBinTree, id: usize, x: i64) -> (k: i64)
    requires
        t.wf(),
    ensures
        t.id == id ==> t.removed(id, x) == (t, Err::<(), TreeError>(TreeError::DuplicateId)),
        t.id != id && !t.finds(id, x) ==> t.removed(id, x).0 == t && (
            t.removed(id, x).1 == Err::<(), TreeError>(TreeError::NotFoundLeft)
            || t.removed(id, x).1 == Err::<(), TreeError>(TreeError::NotFoundRight)),
        t.id != id && t.finds(id, x) ==> {
            &&& t.removed(id, x).1 == Ok::<(), TreeError>(())
            &&& t.entries().contains((id, k))
            &&& t.removed(id, x).0.entries() == t.entries().remove((id, k))
            &&& t.removed(id, x).0.ids() == t.ids().remove(id)
        },
    decreases t,
{
    if t.id == id {
        return 0;
    }
    let to_left = t.x_cord > x;
    let side = if to_left { t.left } else { t.right };
    match side {
        None => 0,
        Some(c) => {
            if c.id == id {
                lemma_unhook_rehangs(t, *c, to_left);
                assert(c.entries().contains((c.id, c.x_cord)));
                if to_left {
                    assert(opt_entries(t.left) == c.entries());
                } else {
                    assert(opt_entries(t.right) == c.entries());
                }
                c.x_cord
            } else {
                let k = lemma_remove_deletes(*c, id, x);
                if t.finds(id, x) {
                    let c2 = c.removed(id, x).0;
                    let oe = if to_left { opt_entries(t.right) } else { opt_entries(t.left) };
                    let oi = if to_left { opt_ids(t.right) } else { opt_ids(t.left) };
                    assert(opt_entries(Some(Box::new(c2))) == c2.entries());
                    assert(opt_ids(Some(Box::new(c2))) == c2.ids());
                    assert(c.ids().contains(id)) by {
                        lemma_entry_id_in_ids(*c, (id, k));
                    }
                    if to_left {
                        assert(opt_entries(t.left) == c.entries());
                        assert(opt_ids(t.left) == c.ids());
                    } else {
                        assert(opt_entries(t.right) == c.entries());
                        assert(opt_ids(t.right) == c.ids());
                    }
                    assert(!oe.contains((id, k))) by {
                        if oe.contains((id, k)) {
                            if to_left {
                                lemma_entry_id_in_ids(*t.right.unwrap(), (id, k));
                            } else {
                                lemma_entry_id_in_ids(*t.left.unwrap(), (id, k));
                            }
                        }
                    }
                    assert(!oi.contains(id));
                    let r = t.removed(id, x).0;
                    assert(r.entries() =~= t.entries().remove((id, k)));
                    assert(r.ids() =~= t.ids().remove(id));
                }
                k
            }
        },
    }
}

/// Unhooking a child of an ordered tree with distinct ids succeeds, and the
/// tree then holds all it held but the child's own pair.
proof fn lemma_unhook_rehangs(t: SegmentBinTree, c: SegmentBinTree, to_left: bool)
    requires
        t.wf(),
        to_left ==> t.left == Some(Box::new(c)),
        !to_left ==> t.right == Some(Box::new(c)),
    ensures
        t.unhooked(c, to_left).1 == Ok::<(), TreeError>(()),
        t.unhooked(c, to_left).0.entries() == t.entries().remove((c.id, c.x_cord)),
        t.unhooked(c, to_left).0.ids() == t.ids().remove(c.id),
{
    let t0 = if to_left {
        SegmentBinTree { id: t.id, x_cord: t.x_cord, left: None, right: t.right }
    } else {
        SegmentBinTree { id: t.id, x_cord: t.x_cord, left: t.left, right: None }
    };
    assert(c.entries() == if to_left { opt_entries(t.left) } else { opt_entries(t.right) });
    assert(c.ids() == if to_left { opt_ids(t.left) } else { opt_ids(t.right) });
    // the first re-hung subtree goes to the cleared side
    let t1 = match c.left {
        None => t0,
        Some(cl) => {
            assert(cl.entries().contains((cl.id, cl.x_cord)));
            assert(cl.ids().contains(cl.id));
            assert(opt_entries(c.left) == cl.entries());
            assert(opt_ids(c.left) == cl.ids());
            assert(c.entries().contains((cl.id, cl.x_cord)));
            assert(c.ids().contains(cl.id));
            assert(t0.x_cord > cl.x_cord <==> to_left);
            assert(!t0.on_path(cl.id, cl.x_cord));
            t0.inserted(*cl)
        },
    };
    assert(to_left ==> t1.right == t.right && t1.id == t.id && t1.x_cord == t.x_cord);
    assert(!to_left ==> t1.left == t.left && t1.id == t.id && t1.x_cord == t.x_cord);
    match c.right {
        None => {},
        Some(cr) => {
            assert(cr.entries().contains((cr.id, cr.x_cord)));
            assert(cr.ids().contains(cr.id));
            assert(opt_entries(c.right) == cr.entries());
            assert(opt_ids(c.right) == cr.ids());
            assert(c.entries().contains((cr.id, cr.x_cord)));
            assert(c.ids().contains(cr.id));
            assert(t0.x_cord > cr.x_cord <==> to_left);
            match c.left {
                None => {
                    assert(!t1.on_path(cr.id, cr.x_cord));
                },
                Some(cl) => {
                    if cl.on_path(cr.id, cr.x_cord) {
                        lemma_on_path_in_ids(*cl, cr.id, cr.x_cord);
                        assert(c.distinct());
                        assert(opt_ids(c.left).contains(cr.id));
                        assert(false);
                    }
                    assert(!t1.on_path(cr.id, cr.x_cord));
                },
            }
        },
    }
    let cle = opt_entries(c.left);
    let cre = opt_entries(c.right);
    let oe = if to_left { opt_entries(t.right) } else { opt_entries(t.left) };
    let oi = if to_left { opt_ids(t.right) } else { opt_ids(t.left) };
    let p = (c.id, c.x_cord);
    match c.left {
        None => {},
        Some(cl) => {
            lemma_inserted_contents(t0, *cl);
            assert(opt_entries(c.left) == cl.entries());
            assert(opt_ids(c.left) == cl.ids());
        },
    }
    let t1 = t0.try_inserted_opt(c.left);
    match c.right {
        None => {},
        Some(cr) => {
            lemma_inserted_contents(t1, *cr);
            assert(opt_entries(c.right) == cr.entries());
            assert(opt_ids(c.right) == cr.ids());
        },
    }
    assert(t0.entries() =~= oe.insert((t.id, t.x_cord)));
    assert(t0.ids() =~= oi.insert(t.id));
    assert(c.entries() == cle.union(cre).insert(p));
    assert(c.ids() == opt_ids(c.left).union(opt_ids(c.right)).insert(c.id));
    assert(!oe.contains(p)) by {
        if oe.contains(p) {
            if to_left {
                lemma_entry_id_in_ids(*t.right.unwrap(), p);
                assert(opt_ids(t.right).contains(c.id));
            } else {
                lemma_entry_id_in_ids(*t.left.unwrap(), p);
                assert(opt_ids(t.left).contains(c.id));
            }
            assert(c.ids().contains(c.id));
        }
    }
    assert(c.distinct()) by {
        if to_left {
            assert(opt_distinct(t.left) == c.distinct());
        } else {
            assert(opt_distinct(t.right) == c.distinct());
        }
    }
    assert(!cle.contains(p)) by {
        if cle.contains(p) {
            lemma_entry_id_in_ids(*c.left.unwrap(), p);
            assert(opt_ids(c.left) == c.left.unwrap().ids());
        }
    }
    assert(!cre.contains(p)) by {
        if cre.contains(p) {
            lemma_entry_id_in_ids(*c.right.unwrap(), p);
            assert(opt_ids(c.right) == c.right.unwrap().ids());
        }
    }
    assert(t.id != c.id) by {
        assert(c.ids().contains(c.id));
    }
    let r = t.unhooked(c, to_left).0;
    assert(r.entries() =~= oe.insert((t.id, t.x_cord)).union(cle).union(cre));
    assert(r.ids() =~= oi.insert(t.id).union(opt_ids(c.left)).union(opt_ids(c.right)));
    assert(t.entries() =~= oe.union(c.entries()).insert((t.id, t.x_cord))) by {
        if to_left {
            assert(opt_entries(t.left) == c.entries());
        } else {
            assert(opt_entries(t.right) == c.entries());
        }
    }
    assert(t.ids() =~= oi.union(c.ids()).insert(t.id)) by {
        if to_left {
            assert(opt_ids(t.left) == c.ids());
        } else {
            assert(opt_ids(t.right) == c.ids());
        }
    }
    assert(r.entries() =~= t.entries().remove(p));
    assert(!oi.contains(c.id)) by {
        assert(c.ids().contains(c.id));
    }
    assert(r.ids() =~= t.ids().remove(c.id));
}


/// Inserting a leaf with an id the tree does not hold always succeeds, adds
/// exactly that pair, and keeps the tree ordered with distinct ids.
pub proof fn lemma_insert_fresh_leaf(t: SegmentBinTree, id: usize, x: i64)
    requires
        t.wf(),
        !t.ids().contains(id),
    ensures
        !t.on_path(id, x),
        t.inserted(SegmentBinTree::leaf(id, x)).wf(),
        t.inserted(SegmentBinTree::leaf(id, x)).entries() == t.entries().insert((id, x)),
        t.inserted(SegmentBinTree::leaf(id, x)).ids() == t.ids().insert(id),
    decreases t,
{
    let lf = SegmentBinTree::leaf(id, x);
    if t.on_path(id, x) {
        lemma_on_path_in_ids(t, id, x);
    }
    assert(lf.entries() =~= Set::empty().insert((id, x)));
    assert(lf.ids() =~= Set::empty().insert(id));
    lemma_inserted_contents(t, lf);
    assert(t.entries().union(lf.entries()) =~= t.entries().insert((id, x)));
    assert(t.ids().union(lf.ids()) =~= t.ids().insert(id));
    assert(t.ids().contains(t.id));
    assert(lf.bst());
    assert(lf.distinct());
    assert(opt_ids(t.left).disjoint(Set::empty().insert(id)));
    assert(opt_ids(t.right).disjoint(Set::empty().insert(id)));
    if t.x_cord > x {
        match t.left {
            None => {
                assert(opt_entries(Some(Box::new(lf))) == lf.entries());
                assert(opt_ids(Some(Box::new(lf))) == lf.ids());
            },
            Some(l) => {
                lemma_insert_fresh_leaf(*l, id, x);
                assert(opt_entries(Some(Box::new(l.inserted(lf)))) == l.inserted(lf).entries());
                assert(opt_ids(Some(Box::new(l.inserted(lf)))) == l.inserted(lf).ids());
                assert(opt_entries(t.left) == l.entries());
                assert(opt_ids(t.left) == l.ids());
            },
        }
    } else {
        match t.right {
            None => {
                assert(opt_entries(Some(Box::new(lf))) == lf.entries());
                assert(opt_ids(Some(Box::new(lf))) == lf.ids());
            },
            Some(r) => {
                lemma_insert_fresh_leaf(*r, id, x);
                assert(opt_entries(t.right) == r.entries());
                assert(opt_ids(t.right) == r.ids());
                assert(opt_entries(Some(Box::new(r.inserted(lf)))) == r.inserted(lf).entries());
                assert(opt_ids(Some(Box::new(r.inserted(lf)))) == r.inserted(lf).ids());
            },
        }
    }
}

/// Removing, by the same id and key, a leaf that was just inserted with an
/// id the tree did not hold gives back the tree as it was.
pub proof fn lemma_remove_undoes_insert(t: SegmentBinTree, id: usize, x: i64)
    requires
        !t.ids().contains(id),
    ensures
        t.inserted(SegmentBinTree::leaf(id, x)).removed(id, x) == (t, Ok::<(), TreeError>(())),
    decreases t,
{
    let lf = SegmentBinTree::leaf(id, x);
    if t.x_cord > x {
        match t.left {
            None => {},
            Some(l) => {
                assert(l.ids().contains(l.id));
                lemma_inserted_contents(*l, lf);
                lemma_remove_undoes_insert(*l, id, x);
            },
        }
    } else {
        match t.right {
            None => {},
            Some(r) => {
                assert(r.ids().contains(r.id));
                lemma_inserted_contents(*r, lf);
                lemma_remove_undoes_insert(*r, id, x);
            },
        }
    }
}

/// Removing never brings in an id the tree did not hold.
pub proof fn lemma_removed_ids(t: SegmentBinTree, id: usize, x: i64)
    ensures
        t.removed(id, x).0.ids().subset_of(t.ids()),
    decreases t,
{
    if t.id == id {
        return;
    }
    let to_left = t.x_cord > x;
    let side = if to_left { t.left } else { t.right };
    match side {
        None => {},
        Some(c) => {
            assert(c.ids() == if to_left { opt_ids(t.left) } else { opt_ids(t.right) });
            if c.id == id {
                let t0 = if to_left {
                    SegmentBinTree { id: t.id, x_cord: t.x_cord, left: None, right: t.right }
                } else {
                    SegmentBinTree { id: t.id, x_cord: t.x_cord, left: t.left, right: None }
                };
                assert(t0.ids().subset_of(t.ids()));
                let t1 = match c.left {
                    None => t0,
                    Some(cl) => {
                        assert(opt_ids(c.left) == cl.ids());
                        lemma_inserted_contents(t0, *cl);
                        t0.try_inserted(*cl).0
                    },
                };
                assert(t1.ids().subset_of(t.ids()));
                let t2 = match c.right {
                    None => t1,
                    Some(cr) => {
                        assert(opt_ids(c.right) == cr.ids());
                        lemma_inserted_contents(t1, *cr);
                        t1.try_inserted(*cr).0
                    },
                };
                assert(t2.ids().subset_of(t.ids()));
                let t3 = if to_left {
                    SegmentBinTree { id: t2.id, x_cord: t2.x_cord, left: None, right: t2.right }
                } else {
                    SegmentBinTree { id: t2.id, x_cord: t2.x_cord, left: t2.left, right: None }
                };
                assert(t3.ids().subset_of(t2.ids()));
            } else {
                lemma_removed_ids(*c, id, x);
                let c2 = c.removed(id, x).0;
                assert(opt_ids(Some(Box::new(c2))) == c2.ids());
            }
        },
    }
}

/// Every key of `o` lies on the side of each node on the search path of
/// `o`'s root key that the search takes: hung there, `o` keeps the tree
/// ordered.
pub open spec fn fits_below(t: SegmentBinTree, o: SegmentBinTree) -> bool
    decreases t,
{
    if t.x_cord > o.x_cord {
        &&& forall|e: (usize, i64)| #[trigger] o.entries().contains(e) ==> e.1 < t.x_cord
        &&& match t.left {
            None => true,
            Some(l) => fits_below(*l, o),
        }
    } else {
        &&& forall|e: (usize, i64)| #[trigger] o.entries().contains(e) ==> e.1 >= t.x_cord
        &&& match t.right {
            None => true,
            Some(r) => fits_below(*r, o),
        }
    }
}

/// Hanging an ordered subtree where all its keys fit keeps the tree ordered.
proof fn lemma_inserted_bst(t: SegmentBinTree, o: SegmentBinTree)
    requires
        t.bst(),
        o.bst(),
        fits_below(t, o),
    ensures
        t.inserted(o).bst(),
    decreases t,
{
    assert(opt_entries(Some(Box::new(o))) == o.entries());
    if t.x_cord > o.x_cord {
        match t.left {
            None => {},
            Some(l) => {
                lemma_inserted_bst(*l, o);
                lemma_inserted_contents(*l, o);
                assert(opt_entries(t.left) == l.entries());
                assert(opt_entries(Some(Box::new(l.inserted(o)))) == l.inserted(o).entries());
            },
        }
    } else {
        match t.right {
            None => {},
            Some(r) => {
                lemma_inserted_bst(*r, o);
                lemma_inserted_contents(*r, o);
                assert(opt_entries(t.right) == r.entries());
                assert(opt_entries(Some(Box::new(r.inserted(o)))) == r.inserted(o).entries());
            },
        }
    }
}

/// Hanging a subtree with distinct ids none of which the tree holds keeps
/// the ids distinct.
proof fn lemma_inserted_distinct(t: SegmentBinTree, o: SegmentBinTree)
    requires
        t.distinct(),
        o.distinct(),
        t.ids().disjoint(o.ids()),
    ensures
        t.inserted(o).distinct(),
    decreases t,
{
    assert(opt_ids(Some(Box::new(o))) == o.ids());
    assert(t.ids().contains(t.id));
    if t.x_cord > o.x_cord {
        match t.left {
            None => {},
            Some(l) => {
                assert(opt_ids(t.left) == l.ids());
                assert(l.ids().disjoint(o.ids()));
                lemma_inserted_distinct(*l, o);
                lemma_inserted_contents(*l, o);
                assert(opt_ids(Some(Box::new(l.inserted(o)))) == l.inserted(o).ids());
            },
        }
    } else {
        match t.right {
            None => {},
            Some(r) => {
                assert(opt_ids(t.right) == r.ids());
                assert(r.ids().disjoint(o.ids()));
                lemma_inserted_distinct(*r, o);
                lemma_inserted_contents(*r, o);
                assert(opt_ids(Some(Box::new(r.inserted(o)))) == r.inserted(o).ids());
            },
        }
    }
}

/// A subtree whose keys all lie at or above every key of the tree fits
/// below it.
proof fn lemma_fits_above_all(t: SegmentBinTree, o: SegmentBinTree, k: i64)
    requires
        forall|e: (usize, i64)| #[trigger] t.entries().contains(e) ==> e.1 < k,
        forall|e: (usize, i64)| #[trigger] o.entries().contains(e) ==> e.1 >= k,
    ensures
        fits_below(t, o),
    decreases t,
{
    assert(t.entries().contains((t.id, t.x_cord)));
    assert(o.entries().contains((o.id, o.x_cord)));
    match t.right {
        None => {},
        Some(r) => {
            assert(opt_entries(t.right) == r.entries());
            assert forall|e: (usize, i64)| #[trigger] r.entries().contains(e) implies e.1 < k by {
                assert(t.entries().contains(e));
            }
            lemma_fits_above_all(*r, o, k);
        },
    }
}

/// The tree below an ordered node with distinct ids is ordered with
/// distinct ids too.
proof fn lemma_subtrees_wf(t: SegmentBinTree)
    requires
        t.wf(),
    ensures
        t.left matches Some(l) ==> l.wf() && opt_entries(t.left) == l.entries() && opt_ids(t.left) == l.ids(),
        t.right matches Some(r) ==> r.wf() && opt_entries(t.right) == r.entries() && opt_ids(t.right) == r.ids(),
{
}

/// Taking a segment out of an ordered tree with distinct ids keeps it
/// ordered with distinct ids.
pub proof fn lemma_remove_keeps_order(t: SegmentBinTree, id: usize, x: i64)
    requires
        t.wf(),
    ensures
        t.removed(id, x).0.wf(),
    decreases t,
{
    if t.id == id {
        return;
    }
    let to_left = t.x_cord > x;
    let side = if to_left { t.left } else { t.right };
    lemma_subtrees_wf(t);
    match side {
        None => {},
        Some(c) => {
            lemma_subtrees_wf(*c);
            if c.id == id {
                lemma_unhook_rehangs(t, *c, to_left);
                let t0 = if to_left {
                    SegmentBinTree { id: t.id, x_cord: t.x_cord, left: None, right: t.right }
                } else {
                    SegmentBinTree { id: t.id, x_cord: t.x_cord, left: t.left, right: None }
                };
                assert(c.ids().contains(c.id));
                assert(t0.wf());
                assert(t0.ids().disjoint(c.ids()));
                let t1 = match c.left {
                    None => t0,
                    Some(cl) => {
                        assert(t0.x_cord > cl.x_cord <==> to_left) by {
                            assert(cl.entries().contains((cl.id, cl.x_cord)));
                            assert(c.entries().contains((cl.id, cl.x_cord)));
                        }
                        assert forall|e: (usize, i64)| #[trigger] cl.entries().contains(e) implies
                            (if to_left { e.1 < t.x_cord } else { e.1 >= t.x_cord }) by {
                            assert(c.entries().contains(e));
                        }
                        assert(fits_below(t0, *cl));
                        lemma_inserted_bst(t0, *cl);
                        lemma_inserted_distinct(t0, *cl);
                        lemma_inserted_contents(t0, *cl);
                        assert(!t0.on_path(cl.id, cl.x_cord)) by {
                            if t0.on_path(cl.id, cl.x_cord) {
                                lemma_on_path_in_ids(t0, cl.id, cl.x_cord);
                                assert(cl.ids().contains(cl.id));
                            }
                        }
                        t0.inserted(*cl)
                    },
                };
                assert(t1.wf());
                assert(t1.x_cord == t.x_cord && t1.id == t.id);
                assert(t1.ids().disjoint(opt_ids(c.right)));
                match c.right {
                    None => {},
                    Some(cr) => {
                        assert(cr.entries().contains((cr.id, cr.x_cord)));
                        assert(c.entries().contains((cr.id, cr.x_cord)));
                        assert forall|e: (usize, i64)| #[trigger] cr.entries().contains(e) implies
                            (if to_left { e.1 < t.x_cord } else { e.1 >= t.x_cord }) by {
                            assert(c.entries().contains(e));
                        }
                        assert(t1.x_cord > cr.x_cord <==> to_left);
                        match c.left {
                            None => {
                                assert(t1 == t0);
                            },
                            Some(cl) => {
                                assert forall|e: (usize, i64)| #[trigger] cl.entries().contains(e) implies e.1 < c.x_cord by {
                                    assert(opt_entries(c.left).contains(e));
                                }
                                assert forall|e: (usize, i64)| #[trigger] cr.entries().contains(e) implies e.1 >= c.x_cord by {
                                    assert(opt_entries(c.right).contains(e));
                                }
                                lemma_fits_above_all(*cl, *cr, c.x_cord);
                                if to_left {
                                    assert(t1.left == Some(cl));
                                } else {
                                    assert(t1.right == Some(cl));
                                }
                            },
                        }
                        assert(fits_below(t1, *cr));
                        lemma_inserted_bst(t1, *cr);
                        lemma_inserted_distinct(t1, *cr);
                        assert(!t1.on_path(cr.id, cr.x_cord)) by {
                            if t1.on_path(cr.id, cr.x_cord) {
                                lemma_on_path_in_ids(t1, cr.id, cr.x_cord);
                                assert(cr.ids().contains(cr.id));
                            }
                        }
                    },
                }
            } else {
                lemma_remove_keeps_order(*c, id, x);
                let k = lemma_remove_deletes(*c, id, x);
                let c2 = c.removed(id, x).0;
                assert(c2.entries().subset_of(c.entries()));
                assert(c2.ids().subset_of(c.ids()));
                assert(opt_entries(Some(Box::new(c2))) == c2.entries());
                assert(opt_ids(Some(Box::new(c2))) == c2.ids());
            }
        },
    }
}

/// Taking a segment out of an ordered tree with distinct ids, the root too,
/// leaves an ordered tree with distinct ids, or none.
pub proof fn lemma_remove_from_keeps_order(t: Option<SegmentBinTree>, id: usize, x: i64)
    requires
        t matches Some(r) ==> r.wf(),
    ensures
        removed_from(t, id, x).0 matches Some(r2) ==> r2.wf(),
{
    match t {
        None => {},
        Some(r) => {
            lemma_subtrees_wf(r);
            if r.id == id {
                match r.left {
                    None => {},
                    Some(l) => {
                        match r.right {
                            None => {},
                            Some(rr) => {
                                lemma_fits_above_all(*l, *rr, r.x_cord);
                                lemma_inserted_bst(*l, *rr);
                                lemma_inserted_distinct(*l, *rr);
                                assert(!l.on_path(rr.id, rr.x_cord)) by {
                                    if l.on_path(rr.id, rr.x_cord) {
                                        lemma_on_path_in_ids(*l, rr.id, rr.x_cord);
                                        assert(rr.ids().contains(rr.id));
                                    }
                                }
                            },
                        }
                    },
                }
            } else {
                lemma_remove_keeps_order(r, id, x);
            }
        },
    }
}

/// Taking an edge out never brings in an id the tree did not hold.
pub proof fn lemma_removed_from_ids(t: Option<SegmentBinTree>, id: usize, x: i64)
    ensures
        tree_ids(removed_from(t, id, x).0).subset_of(tree_ids(t)),
{
    match t {
        None => {},
        Some(r) => {
            if r.id == id {
                match r.left {
                    None => {
                        match r.right {
                            None => {},
                            Some(rr) => {
                                assert(opt_ids(r.right) == rr.ids());
                            },
                        }
                    },
                    Some(l) => {
                        assert(opt_ids(r.left) == l.ids());
                        match r.right {
                            None => {},
                            Some(rr) => {
                                assert(opt_ids(r.right) == rr.ids());
                                lemma_inserted_contents(*l, *rr);
                            },
                        }
                    },
                }
            } else {
                lemma_removed_ids(r, id, x);
            }
        },
    }
}

/// What `nearest_left` finds is one of the tree's ids.
pub proof fn lemma_nearest_left_in_ids(t: SegmentBinTree, left_of: Seq<bool>)
    ensures
        t.nearest_left_of(left_of) matches Some(k) ==> t.ids().contains(k),
    decreases t,
{
    match t.right {
        None => {},
        Some(r) => {
            lemma_nearest_left_in_ids(*r, left_of);
            assert(opt_ids(t.right) == r.ids());
        },
    }
    match t.left {
        None => {},
        Some(l) => {
            lemma_nearest_left_in_ids(*l, left_of);
            assert(opt_ids(t.left) == l.ids());
        },
    }
}

/// Whether a left-of predicate agrees with the key order on the tree's
/// segments: a segment left of the point has only segments left of the point
/// at smaller or equal keys.
pub open spec fn monotone_on(entries: Set<(usize, i64)>, left_of: Seq<bool>) -> bool {
    forall|a: (usize, i64), b: (usize, i64)|
        #![trigger entries.contains(a), entries.contains(b)]
        entries.contains(a) && entries.contains(b) && a.1 <= b.1 && left_of[b.0 as int]
            ==> left_of[a.0 as int]
}

/// A predicate that agrees with the key order on a set of pairs agrees with
/// it on every subset.
proof fn lemma_monotone_subset(s1: Set<(usize, i64)>, s2: Set<(usize, i64)>, left_of: Seq<bool>)
    requires
        s1.subset_of(s2),
        monotone_on(s2, left_of),
    ensures
        monotone_on(s1, left_of),
{
    assert forall|a: (usize, i64), b: (usize, i64)|
        s1.contains(a) && s1.contains(b) && a.1 <= b.1 && left_of[b.0 as int] implies left_of[a.0 as int] by {
        assert(s2.contains(a) && s2.contains(b));
    }
}

/// `(k, kx)` is a stored pair whose segment lies left of the point, and no
/// segment left of the point has a greater key.
pub open spec fn rightmost_left_of(entries: Set<(usize, i64)>, left_of: Seq<bool>, k: usize, kx: i64) -> bool {
    &&& entries.contains((k, kx))
    &&& left_of[k as int]
    &&& forall|e: (usize, i64)| #[trigger] entries.contains(e) && left_of[e.0 as int] ==> e.1 <= kx
}

/// On an ordered tree and a left-of predicate that agrees with the key
/// order, `nearest_left` finds the rightmost segment left of the point: its
/// answer lies left of the point and no segment left of the point has a
/// greater key; and it fails only when no segment lies left of the point.
/// The returned value is the key stored with the answer.
pub proof fn lemma_nearest_left_is_rightmost(t: SegmentBinTree, left_of: Seq<bool>) -> (kx: i64)
    requires
        t.bst(),
        monotone_on(t.entries(), left_of),
    ensures
        t.nearest_left_of(left_of) matches Some(k) ==> rightmost_left_of(t.entries(), left_of, k, kx),
        t.nearest_left_of(left_of) is None ==> forall|e: (usize, i64)| #[trigger] t.entries().contains(e) ==> !left_of[e.0 as int],
    decreases t,
{
    let le = opt_entries(t.left);
    let re = opt_entries(t.right);
    assert(t.entries() == le.union(re).insert((t.id, t.x_cord)));
    assert(t.entries().contains((t.id, t.x_cord)));
    assert(forall|e: (usize, i64)| #[trigger] le.contains(e) ==> e.1 < t.x_cord);
    assert(forall|e: (usize, i64)| #[trigger] re.contains(e) ==> e.1 >= t.x_cord);
    if left_of[t.id as int] {
        let mut res = t.x_cord;
        match t.right {
            None => {
                assert forall|e: (usize, i64)| #[trigger] t.entries().contains(e) && left_of[e.0 as int] implies e.1 <= t.x_cord by {
                    if e != (t.id, t.x_cord) {
                        assert(le.contains(e) || re.contains(e));
                        assert(!re.contains(e));
                    }
                }
            },
            Some(r) => {
                assert(re == r.entries());
                lemma_monotone_subset(re, t.entries(), left_of);
                let kr = lemma_nearest_left_is_rightmost(*r, left_of);
                match r.nearest_left_of(left_of) {
                    Some(k) => {
                        assert(re.contains((k, kr)));
                        assert forall|e: (usize, i64)| #[trigger] t.entries().contains(e) && left_of[e.0 as int] implies e.1 <= kr by {
                            if e != (t.id, t.x_cord) {
                                assert(le.contains(e) || re.contains(e));
                            }
                        }
                        res = kr;
                    },
                    None => {
                        assert forall|e: (usize, i64)| #[trigger] t.entries().contains(e) && left_of[e.0 as int] implies e.1 <= t.x_cord by {
                            if e != (t.id, t.x_cord) {
                                assert(le.contains(e) || re.contains(e));
                                assert(!re.contains(e));
                            }
                        }
                    },
                }
            },
        }
        res
    } else {
        assert forall|e: (usize, i64)| #[trigger] re.contains(e) implies !left_of[e.0 as int] by {
            assert(t.entries().contains(e));
        }
        match t.left {
            None => {
                assert forall|e: (usize, i64)| #[trigger] t.entries().contains(e) implies !left_of[e.0 as int] by {
                    if e != (t.id, t.x_cord) {
                        assert(le.contains(e) || re.contains(e));
                    }
                }
                t.x_cord
            },
            Some(l) => {
                assert(le == l.entries());
                lemma_monotone_subset(le, t.entries(), left_of);
                let kl = lemma_nearest_left_is_rightmost(*l, left_of);
                assert forall|e: (usize, i64)| #[trigger] t.entries().contains(e) && left_of[e.0 as int] implies le.contains(e) by {
                    if e != (t.id, t.x_cord) {
                        assert(le.contains(e) || re.contains(e));
                    }
                }
                match l.nearest_left_of(left_of) {
                    Some(k) => {
                        assert(le.contains((k, kl)));
                    },
                    None => {},
                }
                kl
            },
        }
    }
}

} // verus!
