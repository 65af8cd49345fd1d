use crate::graphics2d::layer::Layer;
use vstd::prelude::*;

verus! {

spec fn seq_has<T>(s: Seq<(String, Layer<T>)>, label: Seq<char>) -> bool {
    exists|i: int| 0 <= i < s.len() && #[trigger] s[i].0@ == label
}

spec fn seq_pos<T>(s: Seq<(String, Layer<T>)>, label: Seq<char>) -> int {
    choose|i: int| 0 <= i < s.len() && #[trigger] s[i].0@ == label
}

spec fn entries_map<T>(s: Seq<(String, Layer<T>)>) -> Map<Seq<char>, Layer<T>> {
    Map::new(|k: Seq<char>| seq_has(s, k), |k: Seq<char>| s[seq_pos(s, k)].1)
}

spec fn labels_distinct<T>(s: Seq<(String, Layer<T>)>) -> bool {
    forall|i: int, j: int| 0 <= i < j < s.len() ==> #[trigger] s[i].0@ != #[trigger] s[j].0@
}

proof fn lemma_entries_at<T>(s: Seq<(String, Layer<T>)>, i: int)
    requires
        labels_distinct(s),
        0 <= i < s.len(),
    ensures
        entries_map(s).contains_key(s[i].0@),
        entries_map(s)[s[i].0@] == s[i].1,
{
    let k = s[i].0@;
    assert(seq_has(s, k));
    let p = seq_pos(s, k);
    assert(s[p].0@ == k);
    if p != i {
        if p < i {
            assert(s[p].0@ != s[i].0@);
        } else {
            assert(s[i].0@ != s[p].0@);
        }
    }
}

/// Replacing the layer of an entry (keeping its label) replaces the layer
/// that label names, whatever the new layer is.
proof fn lemma_entries_update<T>(s: Seq<(String, Layer<T>)>, i: int)
    requires
        labels_distinct(s),
        0 <= i < s.len(),
    ensures
        forall|x: Layer<T>| #[trigger] entries_map(s.update(i, (s[i].0, x))) == entries_map(s).insert(s[i].0@, x),
        forall|x: Layer<T>| labels_distinct(#[trigger] s.update(i, (s[i].0, x))),
{
    assert forall|x: Layer<T>| #[trigger] entries_map(s.update(i, (s[i].0, x))) == entries_map(s).insert(s[i].0@, x) by {
        let t = s.update(i, (s[i].0, x));
        let key = s[i].0@;
        assert(labels_distinct(t)) by {
            assert forall|a: int, b: int| 0 <= a < b < t.len() implies #[trigger] t[a].0@ != #[trigger] t[b].0@ by {
                assert(s[a].0@ != s[b].0@);
            }
        }
        assert forall|k: Seq<char>| #[trigger] entries_map(t).contains_key(k) == entries_map(s).insert(key, x).contains_key(k) by {
            if seq_has(t, k) {
                let j = choose|j: int| 0 <= j < t.len() && #[trigger] t[j].0@ == k;
                assert(s[j].0@ == k);
            }
            if seq_has(s, k) {
                let j = choose|j: int| 0 <= j < s.len() && #[trigger] s[j].0@ == k;
                assert(t[j].0@ == k);
            }
        }
        assert forall|k: Seq<char>| #[trigger] entries_map(t).contains_key(k) implies
            entries_map(t)[k] == entries_map(s).insert(key, x)[k] by {
            let j = choose|j: int| 0 <= j < t.len() && #[trigger] t[j].0@ == k;
            lemma_entries_at(t, j);
            if j != i {
                lemma_entries_at(s, j);
            }
        }
        assert(entries_map(t) =~= entries_map(s).insert(key, x));
    }
    assert forall|x: Layer<T>| labels_distinct(#[trigger] s.update(i, (s[i].0, x))) by {
        let t = s.update(i, (s[i].0, x));
        assert forall|a: int, b: int| 0 <= a < b < t.len() implies #[trigger] t[a].0@ != #[trigger] t[b].0@ by {
            assert(s[a].0@ != s[b].0@);
        }
    }
}

/// Layers by label; each label names at most one layer.
#[derive(Debug)]
pub struct Layers<T> {
    entries: Vec<(String, Layer<T>)>,
}

impl<T> Layers<T> {
    /// No label occurs twice.
    pub closed spec fn wf(&self) -> bool {
        labels_distinct(self.entries@)
    }

    closed spec fn has(&self, label: Seq<char>) -> bool {
        seq_has(self.entries@, label)
    }

    closed spec fn pos(&self, label: Seq<char>) -> int {
        seq_pos(self.entries@, label)
    }

    /// The layer each label names.
    pub closed spec fn view_map(&self) -> Map<Seq<char>, Layer<T>> {
        entries_map(self.entries@)
    }

    proof fn lemma_at(&self, i: int)
        requires
            self.wf(),
            0 <= i < self.entries@.len(),
        ensures
            self.view_map().contains_key(self.entries@[i].0@),
            self.view_map()[self.entries@[i].0@] == self.entries@[i].1,
    {
        let k = self.entries@[i].0@;
        assert(self.has(k));
        let p = self.pos(k);
        assert(self.entries@[p].0@ == k);
        if p != i {
            if p < i {
                assert(self.entries@[p].0@ != self.entries@[i].0@);
            } else {
                assert(self.entries@[i].0@ != self.entries@[p].0@);
            }
        }
    }

    pub fn new() -> (res: Layers<T>)
        ensures
            res.wf(),
            res.view_map() == Map::<Seq<char>, Layer<T>>::empty(),
    {
        let res = Layers { entries: Vec::new() };
        assert(res.view_map() =~= Map::<Seq<char>, Layer<T>>::empty());
        res
    }

    fn find(&self, label: &str) -> (res: Option<usize>)
        requires
            self.wf(),
        ensures
            match res {
                Some(i) => i < self.entries@.len() && self.entries@[i as int].0@ == label@,
                None => !self.view_map().contains_key(label@),
            },
    {
        let owned = label.to_owned();
        let mut i: usize = 0;
        while i < self.entries.len()
            invariant
                i <= self.entries@.len(),
                owned@ == label@,
                forall|j: int| 0 <= j < i ==> self.entries@[j].0@ != label@,
            decreases self.entries.len() - i,
        {
            if self.entries[i].0 == owned {
                return Some(i);
            }
            i += 1;
        }
        None
    }

    /// Files `layer` under `label`, replacing the layer the label named.
    pub fn insert(&mut self, label: String, layer: Layer<T>)
        requires
            old(self).wf(),
        ensures
            final(self).wf(),
            final(self).view_map() == old(self).view_map().insert(label@, layer),
    {
        let ghost key = label@;
        let ghost lay = layer;
        match self.find(label.as_str()) {
            Some(i) => {
                let ghost before = *self;
                self.entries.set(i, (label, layer));
                proof {
                    assert(self.wf()) by {
                        assert forall|a: int, b: int| 0 <= a < b < self.entries@.len() implies
                            #[trigger] self.entries@[a].0@ != #[trigger] self.entries@[b].0@ by {
                            assert(before.entries@[a].0@ != before.entries@[b].0@);
                        }
                    }
                    self.lemma_same_labels_view(&before, i as int, key, lay);
                }
            },
            None => {
                let ghost before = *self;
                self.entries.push((label, layer));
                proof {
                    assert(self.wf()) by {
                        assert forall|a: int, b: int| 0 <= a < b < self.entries@.len() implies
                            #[trigger] self.entries@[a].0@ != #[trigger] self.entries@[b].0@ by {
                            if b < before.entries@.len() {
                                assert(before.entries@[a].0@ != before.entries@[b].0@);
                            } else {
                                before.lemma_at(a);
                            }
                        }
                    }
                    self.lemma_pushed_view(&before, key, lay);
                }
            },
        }
    }

    /// Takes out the layer that `label` names.
    pub fn remove(&mut self, label: &str) -> (res: Option<Layer<T>>)
        requires
            old(self).wf(),
        ensures
            final(self).wf(),
            final(self).view_map() == old(self).view_map().remove(label@),
            match res {
                Some(l) => old(self).view_map().contains_key(label@) && l == old(self).view_map()[label@],
                None => !old(self).view_map().contains_key(label@),
            },
    {
        match self.find(label) {
            Some(i) => {
                let ghost before = *self;
                proof {
                    before.lemma_at(i as int);
                }
                let (_, layer) = self.entries.remove(i);
                proof {
                    let n = before.entries@.len() as int;
                    assert forall|a: int| 0 <= a < self.entries@.len() implies #[trigger] self.entries@[a]
                        == before.entries@[if a < i { a } else { a + 1 }] by {}
                    assert(self.wf()) by {
                        assert forall|a: int, b: int| 0 <= a < b < self.entries@.len() implies
                            #[trigger] self.entries@[a].0@ != #[trigger] self.entries@[b].0@ by {
                            let a2 = if a < i { a } else { a + 1 };
                            let b2 = if b < i { b } else { b + 1 };
                            assert(self.entries@[a] == before.entries@[a2]);
                            assert(self.entries@[b] == before.entries@[b2]);
                            assert(before.entries@[a2].0@ != before.entries@[b2].0@);
                        }
                    }
                    let key = label@;
                    assert forall|k: Seq<char>| #[trigger] self.view_map().contains_key(k)
                        == before.view_map().remove(key).contains_key(k) by {
                        if self.has(k) {
                            let j = choose|j: int| 0 <= j < self.entries@.len() && #[trigger] self.entries@[j].0@ == k;
                            let j2 = if j < i { j } else { j + 1 };
                            assert(self.entries@[j] == before.entries@[j2]);
                            assert(before.entries@[j2].0@ == k);
                            if k == key {
                                assert(before.entries@[i as int].0@ == key);
                                if j2 < i {
                                    assert(before.entries@[j2].0@ != before.entries@[i as int].0@);
                                } else {
                                    assert(before.entries@[i as int].0@ != before.entries@[j2].0@);
                                }
                            }
                        }
                        if before.has(k) && k != key {
                            let j = choose|j: int| 0 <= j < before.entries@.len() && #[trigger] before.entries@[j].0@ == k;
                            assert(j != i);
                            let j1 = if j < i { j } else { j - 1 };
                            assert(self.entries@[j1] == before.entries@[j]);
                            assert(self.entries@[j1].0@ == k);
                        }
                    }
                    assert forall|k: Seq<char>| #[trigger] self.view_map().contains_key(k) implies
                        self.view_map()[k] == before.view_map().remove(key)[k] by {
                        let j = choose|j: int| 0 <= j < self.entries@.len() && #[trigger] self.entries@[j].0@ == k;
                        self.lemma_at(j);
                        let j2 = if j < i { j } else { j + 1 };
                        assert(self.entries@[j] == before.entries@[j2]);
                        before.lemma_at(j2);
                    }
                    assert(self.view_map() =~= before.view_map().remove(key));
                }
                Some(layer)
            },
            None => {
                assert(self.view_map().remove(label@) =~= self.view_map());
                None
            },
        }
    }

    /// The layer that `label` names.
    pub fn get(&self, label: &str) -> (res: Option<&Layer<T>>)
        requires
            self.wf(),
        ensures
            match res {
                Some(l) => self.view_map().contains_key(label@) && *l == self.view_map()[label@],
                None => !self.view_map().contains_key(label@),
            },
    {
        match self.find(label) {
            Some(i) => {
                proof {
                    self.lemma_at(i as int);
                }
                Some(&self.entries[i].1)
            },
            None => None,
        }
    }

    /// The layer that `label` names, to change it in place.
    pub fn get_mut(&mut self, label: &str) -> (res: Option<&mut Layer<T>>)
        requires
            old(self).wf(),
        ensures
            final(self).wf(),
            match res {
                Some(l) => {
                    &&& old(self).view_map().contains_key(label@)
                    &&& *l == old(self).view_map()[label@]
                    &&& final(self).view_map() == old(self).view_map().insert(label@, *final(l))
                },
                None => !old(self).view_map().contains_key(label@) && final(self).view_map() == old(self).view_map(),
            },
    {
        match self.find(label) {
            Some(i) => {
                proof {
                    self.lemma_at(i as int);
                    lemma_entries_update(self.entries@, i as int);
                }
                let r = &mut self.entries[i].1;
                Some(r)
            },
            None => None,
        }
    }

    proof fn lemma_same_labels_view(&self, before: &Self, i: int, key: Seq<char>, lay: Layer<T>)
        requires
            before.wf(),
            self.wf(),
            0 <= i < before.entries@.len(),
            before.entries@[i].0@ == key,
            self.entries@ == before.entries@.update(i, self.entries@[i]),
            self.entries@[i].0@ == key,
            self.entries@[i].1 == lay,
        ensures
            self.view_map() == before.view_map().insert(key, lay),
    {
        assert forall|k: Seq<char>| #[trigger] self.view_map().contains_key(k) == before.view_map().insert(key, lay).contains_key(k) by {
            if self.has(k) {
                let j = choose|j: int| 0 <= j < self.entries@.len() && #[trigger] self.entries@[j].0@ == k;
                if j != i {
                    assert(before.entries@[j].0@ == k);
                }
            }
            if before.has(k) {
                let j = choose|j: int| 0 <= j < before.entries@.len() && #[trigger] before.entries@[j].0@ == k;
                if j != i {
                    assert(self.entries@[j].0@ == k);
                } else {
                    assert(self.entries@[i].0@ == k);
                }
            }
            if k == key {
                assert(self.entries@[i].0@ == k);
            }
        }
        assert forall|k: Seq<char>| #[trigger] self.view_map().contains_key(k) implies
            self.view_map()[k] == before.view_map().insert(key, lay)[k] by {
            let j = choose|j: int| 0 <= j < self.entries@.len() && #[trigger] self.entries@[j].0@ == k;
            self.lemma_at(j);
            if j != i {
                assert(before.entries@[j] == self.entries@[j]);
                before.lemma_at(j);
            }
        }
        assert(self.view_map() =~= before.view_map().insert(key, lay));
    }

    proof fn lemma_pushed_view(&self, before: &Self, key: Seq<char>, lay: Layer<T>)
        requires
            before.wf(),
            self.wf(),
            !before.view_map().contains_key(key),
            self.entries@ == before.entries@.push((self.entries@.last().0, lay)),
            self.entries@.last().0@ == key,
        ensures
            self.view_map() == before.view_map().insert(key, lay),
    {
        let n = before.entries@.len() as int;
        assert forall|k: Seq<char>| #[trigger] self.view_map().contains_key(k) == before.view_map().insert(key, lay).contains_key(k) by {
            if self.has(k) {
                let j = choose|j: int| 0 <= j < self.entries@.len() && #[trigger] self.entries@[j].0@ == k;
                if j < n {
                    assert(before.entries@[j].0@ == k);
                }
            }
            if before.has(k) {
                let j = choose|j: int| 0 <= j < before.entries@.len() && #[trigger] before.entries@[j].0@ == k;
                assert(self.entries@[j].0@ == k);
            }
            if k == key {
                assert(self.entries@[n].0@ == k);
            }
        }
        assert forall|k: Seq<char>| #[trigger] self.view_map().contains_key(k) implies
            self.view_map()[k] == before.view_map().insert(key, lay)[k] by {
            let j = choose|j: int| 0 <= j < self.entries@.len() && #[trigger] self.entries@[j].0@ == k;
            self.lemma_at(j);
            if j < n {
                assert(before.entries@[j] == self.entries@[j]);
                before.lemma_at(j);
            }
        }
        assert(self.view_map() =~= before.view_map().insert(key, lay));
    }
}

/// Adding a layer under a label the engine did not have and then removing
/// that label gives back the layers as they were.
pub proof fn lemma_remove_undoes_add<T>(layers: Map<Seq<char>, Layer<T>>, label: Seq<char>, layer: Layer<T>)
    requires
        !layers.contains_key(label),
    ensures
        layers.insert(label, layer).remove(label) == layers,
{
    assert(layers.insert(label, layer).remove(label) =~= layers);
}

/// The layers of a scene, by label.
#[derive(Debug)]
pub struct Engine<T> {
    layers: Layers<T>,
}

impl<T> Engine<T> {
    pub closed spec fn wf(&self) -> bool {
        self.layers.wf()
    }

    /// The layer each label names.
    pub closed spec fn layers_map(&self) -> Map<Seq<char>, Layer<T>> {
        self.layers.view_map()
    }

    pub fn new() -> (res: Engine<T>)
        ensures
            res.wf(),
            res.layers_map() == Map::<Seq<char>, Layer<T>>::empty(),
    {
        Engine { layers: Layers::new() }
    }

    pub fn set_layers(&mut self, layers: Layers<T>)
        requires
            layers.wf(),
        ensures
            final(self).wf(),
            final(self).layers_map() == layers.view_map(),
    {
        self.layers = layers
    }

    /// Files a new, empty layer titled `label` under `label`, replacing the
    /// layer the label named.
    pub fn add_layer(&mut self, label: String)
        requires
            old(self).wf(),
        ensures
            final(self).wf(),
            final(self).layers_map() == old(self).layers_map().insert(label@, final(self).layers_map()[label@]),
            final(self).layers_map()[label@].fresh(Some(label)),
    {
        let key = label.clone();
        let layer = Layer::new(Some(label));
        self.layers.insert(key, layer);
    }

    /// Drops the layer that `label` names.
    pub fn remove_layer(&mut self, label: String)
        requires
            old(self).wf(),
        ensures
            final(self).wf(),
            final(self).layers_map() == old(self).layers_map().remove(label@),
    {
        self.layers.remove(label.as_str());
    }

    /// The layer that `label` names.
    pub fn get_layer(&self, label: &str) -> (res: Option<&Layer<T>>)
        requires
            self.wf(),
        ensures
            match res {
                Some(l) => self.layers_map().contains_key(label@) && *l == self.layers_map()[label@],
                None => !self.layers_map().contains_key(label@),
            },
    {
        self.layers.get(label)
    }

    /// The layer that `label` names, to change it in place.
    pub fn get_layer_mut(&mut self, label: &str) -> (res: Option<&mut Layer<T>>)
        requires
            old(self).wf(),
        ensures
            final(self).wf(),
            match res {
                Some(l) => {
                    &&& old(self).layers_map().contains_key(label@)
                    &&& *l == old(self).layers_map()[label@]
                    &&& final(self).layers_map() == old(self).layers_map().insert(label@, *final(l))
                },
                None => !old(self).layers_map().contains_key(label@) && final(self).layers_map()
                    == old(self).layers_map(),
            },
    {
        self.layers.get_mut(label)
    }
}

} // verus!
