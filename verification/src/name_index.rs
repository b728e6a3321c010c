//! An index from names (texts) to keys: each name stands once.
use vstd::prelude::*;

verus! {

/// Whether two texts are the same.
pub fn same_text(a: &String, b: &str) -> (r: bool)
    ensures
        r == (a@ == b@),
{
    let b2: String = b.to_owned();
    *a == b2
}

proof fn lemma_map_ext<T>(a: Map<Seq<char>, T>, b: Map<Seq<char>, T>)
    requires
        forall|k: Seq<char>|
            #![trigger a.contains_key(k)]
            #![trigger b.contains_key(k)]
            a.contains_key(k) == b.contains_key(k) && (a.contains_key(k) ==> a[k] == b[k]),
    ensures
        a == b,
{
    assert forall|k: Seq<char>| #[trigger] a.contains_key(k) == b.contains_key(k) by {}
    assert forall|k: Seq<char>| a.contains_key(k) implies #[trigger] a[k] == b[k] by {}
    assert(a =~= b);
}

/// An index from names to keys, in the order the names were first inserted.
#[derive(Debug, Clone)]
pub struct NameIndex<T> {
    entries: Vec<(String, T)>,
}

impl<T: Copy> NameIndex<T> {
    /// The names and keys, in order.
    pub closed spec fn entry_seq(&self) -> Seq<(Seq<char>, T)> {
        self.entries@.map_values(|e: (String, T)| (e.0@, e.1))
    }

    /// Each name stands once.
    pub open spec fn wf(&self) -> bool {
        forall|i: int, j: int|
            0 <= i < j < self.entry_seq().len() ==> self.entry_seq()[i].0 != self.entry_seq()[j].0
    }

    /// The index as a map from names to keys.
    pub open spec fn view(&self) -> Map<Seq<char>, T> {
        Map::new(
            |name: Seq<char>| exists|i: int| 0 <= i < self.entry_seq().len() && self.entry_seq()[i].0 == name,
            |name: Seq<char>| self.entry_seq()[choose|i: int| 0 <= i < self.entry_seq().len() && self.entry_seq()[i].0 == name].1,
        )
    }

    pub proof fn lemma_view_at(&self, i: int)
        requires
            self.wf(),
            0 <= i < self.entry_seq().len(),
        ensures
            self@.contains_key(self.entry_seq()[i].0),
            self@[self.entry_seq()[i].0] == self.entry_seq()[i].1,
    {
        let name = self.entry_seq()[i].0;
        let j = choose|j: int| 0 <= j < self.entry_seq().len() && self.entry_seq()[j].0 == name;
        assert(j == i);
    }

    pub fn new() -> (r: Self)
        ensures
            r.wf(),
            r@ == Map::<Seq<char>, T>::empty(),
    {
        let r = NameIndex { entries: Vec::new() };
        assert(r@ =~= Map::<Seq<char>, T>::empty());
        r
    }

    fn position(&self, name: &str) -> (r: Option<usize>)
        ensures
            match r {
                Some(i) => i < self.entry_seq().len() && self.entry_seq()[i as int].0 == name@,
                None => forall|i: int| 0 <= i < self.entry_seq().len() ==> self.entry_seq()[i].0 != name@,
            },
    {
        let mut i: usize = 0;
        while i < self.entries.len()
            invariant
                0 <= i <= self.entries@.len(),
                forall|j: int| 0 <= j < i ==> self.entry_seq()[j].0 != name@,
            decreases self.entries@.len() - i,
        {
            if same_text(&self.entries[i].0, name) {
                return Some(i);
            }
            i = i + 1;
        }
        None
    }

    /// The key of the name.
    pub fn get(&self, name: &str) -> (r: Option<T>)
        requires
            self.wf(),
        ensures
            r == (if self@.contains_key(name@) { Some(self@[name@]) } else { None }),
    {
        match self.position(name) {
            Some(i) => {
                proof {
                    self.lemma_view_at(i as int);
                }
                Some(self.entries[i].1)
            },
            None => None,
        }
    }

    /// Puts the key under the name.
    pub fn insert(&mut self, name: String, key: T)
        requires
            old(self).wf(),
        ensures
            final(self).wf(),
            final(self)@ == old(self)@.insert(name@, key),
    {
        let ghost old_view = self@;
        let ghost old_seq = self.entry_seq();
        match self.position(name.as_str()) {
            Some(i) => {
                let ghost n = name@;
                self.entries.set(i, (name, key));
                assert(self.entry_seq() =~= old_seq.update(i as int, (n, key)));
                assert forall|nm: Seq<char>|
                    #![trigger self@.contains_key(nm)]
                    #![trigger old_view.insert(n, key).contains_key(nm)]
                    self@.contains_key(nm) == old_view.insert(n, key).contains_key(nm)
                    && (self@.contains_key(nm) ==> self@[nm] == old_view.insert(n, key)[nm]) by {
                    if self@.contains_key(nm) {
                        let j = choose|j: int| 0 <= j < self.entry_seq().len() && self.entry_seq()[j].0 == nm;
                        self.lemma_view_at(j);
                        if j != i {
                            self.lemma_view_at(j);
                        }
                    }
                    if old_view.contains_key(nm) {
                        let j = choose|j: int| 0 <= j < old_seq.len() && old_seq[j].0 == nm;
                        assert(self.entry_seq()[j].0 == nm);
                    }
                    if nm != n && old_view.contains_key(nm) {
                        let j = choose|j: int| 0 <= j < old_seq.len() && old_seq[j].0 == nm;
                        self.lemma_view_at(j);
                        assert(old_view[nm] == old_seq[j].1) by {
                            let k = choose|k: int| 0 <= k < old_seq.len() && old_seq[k].0 == nm;
                            assert(k == j);
                        }
                    }
                }
                proof { lemma_map_ext(self@, old_view.insert(n, key)); }
            },
            None => {
                let ghost n = name@;
                self.entries.push((name, key));
                assert(self.entry_seq() =~= old_seq.push((n, key)));
                let ghost last = old_seq.len() as int;
                assert forall|nm: Seq<char>|
                    #![trigger self@.contains_key(nm)]
                    #![trigger old_view.insert(n, key).contains_key(nm)]
                    self@.contains_key(nm) == old_view.insert(n, key).contains_key(nm)
                    && (self@.contains_key(nm) ==> self@[nm] == old_view.insert(n, key)[nm]) by {
                    if self@.contains_key(nm) {
                        let j = choose|j: int| 0 <= j < self.entry_seq().len() && self.entry_seq()[j].0 == nm;
                        self.lemma_view_at(j);
                    }
                    if old_view.contains_key(nm) {
                        let j = choose|j: int| 0 <= j < old_seq.len() && old_seq[j].0 == nm;
                        assert(self.entry_seq()[j].0 == nm);
                    }
                    if nm == n {
                        self.lemma_view_at(last);
                    } else if old_view.contains_key(nm) {
                        let j = choose|j: int| 0 <= j < old_seq.len() && old_seq[j].0 == nm;
                        self.lemma_view_at(j);
                        assert(old_view[nm] == old_seq[j].1) by {
                            let k = choose|k: int| 0 <= k < old_seq.len() && old_seq[k].0 == nm;
                            assert(k == j);
                        }
                    }
                }
                proof { lemma_map_ext(self@, old_view.insert(n, key)); }
            },
        }
    }
}

} // verus!
