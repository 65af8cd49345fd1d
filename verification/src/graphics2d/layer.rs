use std::collections::BTreeMap;
use vstd::prelude::*;
use vstd::std_specs::btree::spec_btree_map_iter;
use vstd::std_specs::btree::into_iter as btree_into_iter;
use vstd::std_specs::btree::increasing_seq;
use vstd::std_specs::cmp::OrdSpec;
use vstd::std_specs::iter::IteratorSpec;
use crate::geometry::render_object::{RenderObject, RenderError};
use crate::geometry::mesh::{join_rendered, merged, merge_fits, shift_fits};

verus! {

broadcast use {vstd::std_specs::btree::group_btree_axioms, vstd::laws_cmp::group_laws_cmp};

/// `BTreeMap::pop_first`: removes the entry with the smallest key, as the
/// standard library documents it, and returns it; `None` on an empty map.
#[verifier::external_body]
fn btree_pop_first<T>(m: &mut BTreeMap<i64, T>) -> (res: Option<(i64, T)>)
    ensures
        match res {
            None => old(m)@.dom().is_empty() && final(m)@ == old(m)@,
            Some((k, v)) => {
                &&& old(m)@.contains_key(k)
                &&& old(m)@[k] == v
                &&& forall|j: i64| #[trigger] old(m)@.contains_key(j) ==> k <= j
                &&& final(m)@ == old(m)@.remove(k)
            },
        },
{
    m.pop_first()
}

/// `BTreeMap::get_mut`: a mutable reference to the value stored under `k`,
/// as the standard library documents it; the map then holds whatever the
/// reference was left holding.  `None`, changing nothing, when `k` is
/// missing.
#[verifier::external_body]
fn btree_get_mut<T>(m: &mut BTreeMap<i64, T>, k: i64) -> (res: Option<&mut T>)
    ensures
        match res {
            None => !old(m)@.contains_key(k) && final(m)@ == old(m)@,
            Some(r) => {
                &&& old(m)@.contains_key(k)
                &&& *r == old(m)@[k]
                &&& final(m)@ == old(m)@.insert(k, *final(r))
            },
        },
{
    m.get_mut(&k)
}

/// The queue `q` after `push(key, c)`: `c` enters under `key` only when
/// nothing is queued there.
pub open spec fn pushed<T>(q: Map<i64, T>, key: i64, c: T) -> Map<i64, T> {
    if q.contains_key(key) { q } else { q.insert(key, c) }
}

/// Pushing under a free key and then popping that key gives back what was
/// pushed and leaves the queue as it was.
pub proof fn lemma_pop_undoes_push<T>(q: Map<i64, T>, key: i64, c: T)
    requires
        !q.contains_key(key),
    ensures
        pushed(q, key, c).contains_key(key),
        pushed(q, key, c)[key] == c,
        pushed(q, key, c).remove(key) == q,
{
    assert(pushed(q, key, c).remove(key) =~= q);
}

/// Pushing under a key that is taken changes nothing, whatever is pushed.
pub proof fn lemma_push_keeps_queued<T>(q: Map<i64, T>, key: i64, c: T)
    requires
        q.contains_key(key),
    ensures
        pushed(q, key, c) == q,
{
}

/// The queue `q` after `push` of each pair of `calls` in turn.
pub open spec fn pushed_all<T>(q: Map<i64, T>, calls: Seq<(i64, T)>) -> Map<i64, T>
    decreases calls.len(),
{
    if calls.len() == 0 {
        q
    } else {
        let last = calls.last();
        pushed(pushed_all(q, calls.drop_last()), last.0, last.1)
    }
}

/// Pushing a sequence of pairs onto an empty queue queues exactly their
/// keys, each with the object of its first push.
pub proof fn lemma_first_push_wins<T>(calls: Seq<(i64, T)>)
    ensures
        forall|k: i64| #[trigger] pushed_all(Map::empty(), calls).contains_key(k)
            <==> exists|j: int| 0 <= j < calls.len() && calls[j].0 == k,
        forall|j: int| 0 <= j < calls.len() && (forall|i: int| 0 <= i < j ==> calls[i].0 != calls[j].0)
            ==> #[trigger] pushed_all(Map::empty(), calls)[calls[j].0] == calls[j].1,
    decreases calls.len(),
{
    if calls.len() > 0 {
        let init = calls.drop_last();
        lemma_first_push_wins(init);
        let before = pushed_all(Map::<i64, T>::empty(), init);
        let after = pushed_all(Map::<i64, T>::empty(), calls);
        let last = calls.last();
        assert forall|k: i64| #[trigger] after.contains_key(k) <==> exists|j: int| 0 <= j < calls.len() && calls[j].0 == k by {
            if after.contains_key(k) && k != last.0 {
                let j = choose|j: int| 0 <= j < init.len() && init[j].0 == k;
                assert(calls[j] == init[j]);
            }
            if exists|j: int| 0 <= j < calls.len() && calls[j].0 == k {
                let j = choose|j: int| 0 <= j < calls.len() && calls[j].0 == k;
                if j < init.len() {
                    assert(init[j] == calls[j]);
                }
            }
        }
        assert forall|j: int| 0 <= j < calls.len() && (forall|i: int| 0 <= i < j ==> calls[i].0 != calls[j].0)
            implies #[trigger] after[calls[j].0] == calls[j].1 by {
            if j < init.len() {
                assert(init[j] == calls[j]);
                assert forall|i: int| 0 <= i < j implies init[i].0 != init[j].0 by {
                    assert(init[i] == calls[i]);
                }
                assert(before.contains_key(init[j].0));
            } else {
                if before.contains_key(last.0) {
                    let i = choose|i: int| 0 <= i < init.len() && init[i].0 == last.0;
                    assert(calls[i] == init[i]);
                }
            }
        }
    }
}

/// A layer `b` is what one queue call (`push`, `pop`, `pop_first` or
/// `get_mut`) may leave of the layer `a`, as far as the title goes: each
/// keeps it.
pub open spec fn keeps_title<T>(a: Layer<T>, b: Layer<T>) -> bool {
    b.title_spec() == a.title_spec()
}

/// Over any sequence of queue calls, each of which keeps the title (as the
/// contracts of `push`, `pop`, `pop_first` and `get_mut` state), the title
/// stays the one the layer started with.
pub proof fn lemma_title_kept<T>(layers: Seq<Layer<T>>)
    requires
        forall|i: int| 0 <= i < layers.len() - 1 ==> keeps_title(#[trigger] layers[i], layers[i + 1]),
    ensures
        forall|i: int| 0 <= i < layers.len() ==> #[trigger] layers[i].title_spec() == layers[0].title_spec(),
    decreases layers.len(),
{
    if layers.len() > 1 {
        let init = layers.drop_last();
        assert forall|i: int| 0 <= i < init.len() - 1 implies keeps_title(#[trigger] init[i], init[i + 1]) by {
            assert(init[i] == layers[i] && init[i + 1] == layers[i + 1]);
        }
        lemma_title_kept(init);
        assert forall|i: int| 0 <= i < layers.len() implies #[trigger] layers[i].title_spec() == layers[0].title_spec() by {
            if i < init.len() {
                assert(init[i] == layers[i]);
            } else {
                assert(init[i - 1] == layers[i - 1]);
                assert(keeps_title(layers[i - 1], layers[i]));
            }
        }
    }
}

/// A drawing surface: render objects queued under integer keys, drawn in
/// the order of their keys.
#[derive(Debug)]
pub struct Layer<T> {
    title: Option<String>,
    modified: bool,
    queue: BTreeMap<i64, T>,
}

impl<T> Layer<T> {
    /// The objects of the layer, by key.
    pub closed spec fn queue_map(&self) -> Map<i64, T> {
        self.queue@
    }

    pub closed spec fn title_spec(&self) -> Option<String> {
        self.title
    }

    /// Whether the layer changed since it was drawn (every operation that
    /// may change the queue sets it).
    pub closed spec fn is_modified(&self) -> bool {
        self.modified
    }

    /// A layer with this title, marked modified, with nothing queued.
    pub open spec fn fresh(&self, title: Option<String>) -> bool {
        &&& self.title_spec() == title
        &&& self.is_modified()
        &&& self.queue_map() == Map::<i64, T>::empty()
    }

    pub fn new(title: Option<String>) -> (res: Layer<T>)
        ensures
            res.fresh(title),
    {
        Layer { title, modified: true, queue: BTreeMap::new() }
    }

    pub fn title(&self) -> (res: &Option<String>)
        ensures
            *res == self.title_spec(),
    {
        &self.title
    }

    pub fn get_queue(&self) -> (res: &BTreeMap<i64, T>)
        ensures
            res@ == self.queue_map(),
    {
        &self.queue
    }

    /// Queues `contour` under `key` unless something is queued there
    /// already, in which case the queue keeps what it had.
    pub fn push(&mut self, key: i64, contour: T)
        ensures
            final(self).queue_map() == pushed(old(self).queue_map(), key, contour),
            final(self).title_spec() == old(self).title_spec(),
            final(self).is_modified(),
    {
        self.modified = true;
        if !self.queue.contains_key(&key) {
            self.queue.insert(key, contour);
        }
    }

    /// Takes out the object with the smallest key.
    pub fn pop_first(&mut self) -> (res: Option<(i64, T)>)
        ensures
            match res {
                None => old(self).queue_map().dom().is_empty() && final(self).queue_map() == old(self).queue_map(),
                Some((k, v)) => {
                    &&& old(self).queue_map().contains_key(k)
                    &&& old(self).queue_map()[k] == v
                    &&& forall|j: i64| #[trigger] old(self).queue_map().contains_key(j) ==> k <= j
                    &&& final(self).queue_map() == old(self).queue_map().remove(k)
                },
            },
            final(self).title_spec() == old(self).title_spec(),
            final(self).is_modified(),
    {
        self.modified = true;
        btree_pop_first(&mut self.queue)
    }

    /// Takes out the object queued under `key`.
    pub fn pop(&mut self, key: i64) -> (res: Option<T>)
        ensures
            match res {
                None => !old(self).queue_map().contains_key(key),
                Some(v) => old(self).queue_map().contains_key(key) && old(self).queue_map()[key] == v,
            },
            final(self).queue_map() == old(self).queue_map().remove(key),
            final(self).title_spec() == old(self).title_spec(),
            final(self).is_modified(),
    {
        self.modified = true;
        self.queue.remove(&key)
    }

    /// The object queued under `key`, to change it in place.
    pub fn get_mut(&mut self, key: i64) -> (res: Option<&mut T>)
        ensures
            match res {
                None => !old(self).queue_map().contains_key(key) && final(self).queue_map() == old(self).queue_map(),
                Some(r) => {
                    &&& old(self).queue_map().contains_key(key)
                    &&& *r == old(self).queue_map()[key]
                    &&& final(self).queue_map() == old(self).queue_map().insert(key, *final(r))
                },
            },
            final(self).title_spec() == old(self).title_spec(),
            final(self).is_modified(),
    {
        self.modified = true;
        btree_get_mut(&mut self.queue, key)
    }
}

impl<T> Default for Layer<T> {
    /// An untitled layer, not marked modified, with nothing queued.
    fn default() -> (res: Layer<T>)
        ensures
            res.title_spec() == None::<String>,
            !res.is_modified(),
            res.queue_map() == Map::<i64, T>::empty(),
    {
        Layer { title: None, modified: false, queue: BTreeMap::new() }
    }
}

impl<T: Clone> Clone for Layer<T> {
    /// A copy with the same title, mark and queue (the queued objects are
    /// cloned).
    fn clone(&self) -> (res: Self)
        ensures
            res.title_spec() == self.title_spec(),
            res.is_modified() == self.is_modified(),
            res.queue_map() == self.queue_map(),
    {
        let title = match &self.title {
            Some(t) => Some(t.clone()),
            None => None,
        };
        Layer { title, modified: self.modified, queue: self.queue.clone() }
    }
}

/// `o.render()` may give `r`.
pub open spec fn renders_to<T: RenderObject>(o: T, r: Result<(Vec<T::Vertex>, Vec<u32>), RenderError>) -> bool {
    call_ensures(T::render, (&o,), r)
}

/// `parts` are what the objects of `ents` rendered to, one part each, in
/// order.
pub open spec fn rendered_parts<T: RenderObject>(ents: Seq<(i64, T)>, parts: Seq<(Vec<T::Vertex>, Vec<u32>)>) -> bool {
    &&& parts.len() == ents.len()
    &&& forall|j: int| 0 <= j < ents.len() ==> #[trigger] renders_to(ents[j].1, Ok(parts[j]))
}

/// The mesh `(v, i)` is the join of what each object of `ents` rendered to.
pub open spec fn joins_renders<T: RenderObject>(ents: Seq<(i64, T)>, v: Seq<T::Vertex>, i: Seq<u32>) -> bool {
    exists|parts: Seq<(Vec<T::Vertex>, Vec<u32>)>| #[trigger] rendered_parts(ents, parts) && merge_fits(parts)
        && merged(parts) == (v, i)
}

/// The objects before position `j` of `ents` rendered to `parts`, which
/// join, and then object `j` failed with `e`, or its part could not be
/// joined and `e` is `IndexOverflow`.
pub open spec fn fails_at<T: RenderObject>(
    ents: Seq<(i64, T)>,
    j: int,
    parts: Seq<(Vec<T::Vertex>, Vec<u32>)>,
    e: RenderError,
) -> bool {
    &&& 0 <= j < ents.len()
    &&& rendered_parts(ents.take(j), parts)
    &&& merge_fits(parts)
    &&& (renders_to(ents[j].1, Err(e)) || (e == RenderError::IndexOverflow && exists|p: (Vec<T::Vertex>, Vec<u32>)|
        #[trigger] renders_to(ents[j].1, Ok(p)) && !shift_fits(p.1@, merged(parts).0.len() as u32)))
}

/// Rendering `ents` in order stopped with `e` at the first object that
/// failed or whose part could not be joined.
pub open spec fn render_fails<T: RenderObject>(ents: Seq<(i64, T)>, e: RenderError) -> bool {
    exists|j: int, parts: Seq<(Vec<T::Vertex>, Vec<u32>)>| #[trigger] fails_at(ents, j, parts, e)
}

/// Every result that rendering an object of `ents` may give is a mesh.
pub open spec fn renders_ok<T: RenderObject>(ents: Seq<(i64, T)>) -> bool {
    forall|j: int, r: Result<(Vec<T::Vertex>, Vec<u32>), RenderError>|
        0 <= j < ents.len() && #[trigger] renders_to(ents[j].1, r) ==> r is Ok
}

/// Whatever the objects of `ents` render to, the meshes of every first few
/// of them join within the `u32` index range.
pub open spec fn renders_fit<T: RenderObject>(ents: Seq<(i64, T)>) -> bool {
    forall|j: int, parts: Seq<(Vec<T::Vertex>, Vec<u32>)>|
        0 <= j <= ents.len() && #[trigger] rendered_parts(ents.take(j), parts) ==> merge_fits(parts)
}

/// The keys of a walk over a `BTreeMap` of `i64` keys ascend strictly.
proof fn lemma_keys_ascend<T>(s: Seq<(&i64, &T)>)
    requires
        increasing_seq(s.map_values(|kv: (&i64, &T)| *kv.0)),
    ensures
        forall|i: int, j: int| 0 <= i < j < s.len() ==> #[trigger] *s[i].0 < #[trigger] *s[j].0,
{
    let ks = s.map_values(|kv: (&i64, &T)| *kv.0);
    assert(vstd::laws_cmp::obeys_cmp::<i64>());
    assert forall|i: int, j: int| 0 <= i < j < s.len() implies #[trigger] *s[i].0 < #[trigger] *s[j].0 by {
        assert(ks[i] == *s[i].0 && ks[j] == *s[j].0);
        assert(ks[i].cmp_spec(&ks[j]) is Less);
    }
}

impl<T: RenderObject> Layer<T> {
    /// The queued objects with their keys, in the order `render` visits
    /// them (see [`Layer::render`], which states that the keys ascend).
    pub closed spec fn entries(&self) -> Seq<(i64, T)> {
        btree_into_iter(spec_btree_map_iter(&self.queue))
    }

    /// Renders the queued objects in the order of their keys and joins their
    /// meshes one after the other (see [`join_rendered`]): the result is the
    /// join of what each object rendered to, or the error of the first object
    /// that failed (`IndexOverflow` when its part could not be joined).  An
    /// empty layer renders to an empty mesh, and when every object renders
    /// to a mesh and the meshes join within the index range, the result is
    /// that join.
    pub fn render(&self) -> (res: Result<(Vec<T::Vertex>, Vec<u32>), RenderError>)
        ensures
            self.entries().len() == self.queue_map().len(),
            forall|j: int| 0 <= j < self.entries().len() ==> {
                &&& self.queue_map().contains_key(#[trigger] self.entries()[j].0)
                &&& self.queue_map()[self.entries()[j].0] == self.entries()[j].1
            },
            forall|i: int, j: int| 0 <= i < j < self.entries().len() ==> #[trigger] self.entries()[i].0 < #[trigger] self.entries()[j].0,
            self.queue_map().len() == 0 ==> (res matches Ok(mesh) && mesh.0@ == Seq::<T::Vertex>::empty()
                && mesh.1@ == Seq::<u32>::empty()),
            res matches Ok(mesh) ==> joins_renders(self.entries(), mesh.0@, mesh.1@),
            res matches Err(e) ==> render_fails(self.entries(), e),
            renders_ok(self.entries()) && renders_fit(self.entries()) ==> res is Ok,
    {
        let ghost ents = self.entries();
        let mut vxs: Vec<T::Vertex> = Vec::new();
        let mut idxs: Vec<u32> = Vec::new();
        let ghost mut parts: Seq<(Vec<T::Vertex>, Vec<u32>)> = Seq::empty();
        assert(merged(parts) == (vxs@, idxs@)) by {
            assert(vxs@ =~= Seq::<T::Vertex>::empty());
            assert(idxs@ =~= Seq::<u32>::empty());
        }
        assert(ents.take(0) =~= Seq::<(i64, T)>::empty());
        let it0 = self.queue.iter();
        proof {
            let s = it0.remaining();
            assert(ents == s.unref());
            lemma_keys_ascend(s);
            assert forall|i: int, j: int| 0 <= i < j < ents.len() implies #[trigger] ents[i].0 < #[trigger] ents[j].0 by {
                assert(*s[i].0 < *s[j].0);
            }
        }
        for kv in it: it0
            invariant
                ents == self.entries(),
                it.seq() == spec_btree_map_iter(&self.queue).remaining(),
                ents == it.seq().unref(),
                forall|i: int, j: int| 0 <= i < j < ents.len() ==> #[trigger] ents[i].0 < #[trigger] ents[j].0,
                parts.len() == it.index(),
                rendered_parts(ents.take(it.index()), parts),
                merge_fits(parts),
                merged(parts) == (vxs@, idxs@),
        {
            let ghost idx = it.index();
            let (_, obj) = kv;
            assert(ents[idx].1 == *obj);
            let rendered = obj.render();
            let ghost part = rendered->Ok_0;
            match join_rendered(&mut vxs, &mut idxs, rendered) {
                Ok(()) => {},
                Err(e) => {
                    proof {
                        assert(renders_to(ents[idx].1, rendered));
                        if rendered is Ok {
                            assert(renders_to(ents[idx].1, Ok(part)));
                        }
                        assert(fails_at(ents, idx, parts, e));
                        if renders_ok(ents) && renders_fit(ents) {
                            assert(rendered is Ok);
                            let parts2 = parts.push(part);
                            assert(parts2.drop_last() =~= parts);
                            assert(rendered_parts(ents.take(idx + 1), parts2)) by {
                                assert forall|j: int| 0 <= j < idx + 1 implies #[trigger] renders_to(ents.take(idx + 1)[j].1, Ok(parts2[j])) by {
                                    if j < idx {
                                        assert(ents.take(idx + 1)[j] == ents.take(idx)[j]);
                                    }
                                }
                            }
                            assert(merge_fits(parts2));
                        }
                    }
                    return Err(e);
                },
            }
            proof {
                let parts2 = parts.push(part);
                assert(parts2.drop_last() =~= parts);
                assert(renders_to(ents[idx].1, Ok(part)));
                assert(rendered_parts(ents.take(idx + 1), parts2)) by {
                    assert forall|j: int| 0 <= j < idx + 1 implies #[trigger] renders_to(ents.take(idx + 1)[j].1, Ok(parts2[j])) by {
                        if j < idx {
                            assert(ents.take(idx + 1)[j] == ents.take(idx)[j]);
                        }
                    }
                }
                parts = parts2;
            }
        }
        proof {
            assert(parts.len() == self.queue_map().len());
            assert(ents.take(ents.len() as int) =~= ents);
            if parts.len() == 0 {
                assert(parts =~= Seq::<(Vec<T::Vertex>, Vec<u32>)>::empty());
            }
            assert(rendered_parts(ents, parts));
        }
        Ok((vxs, idxs))
    }
}

} // verus!
