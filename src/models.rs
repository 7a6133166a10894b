//! The cache of loaded models, by name.
use vstd::prelude::*;
use crate::names::same_name;
use crate::store::upserted_at;

verus! {

/// Loaded models by name, each name once. `M` is the shared handle of a
/// loaded model.
pub struct ModelCache<M> {
    entries: Vec<(String, M)>,
}

/// Some entry has this name.
pub open spec fn has_model<M>(s: Seq<(String, M)>, name: Seq<char>) -> bool {
    exists|i: int| 0 <= i < s.len() && #[trigger] s[i].0@ == name
}

/// No two entries share a name.
pub open spec fn names_unique<M>(s: Seq<(String, M)>) -> bool {
    forall|i: int, j: int| #![trigger s[i], s[j]] 0 <= i < j < s.len() ==> s[i].0@ != s[j].0@
}

impl<M> ModelCache<M> {
    /// The entries, in the order they were first cached.
    pub closed spec fn spec_entries(&self) -> Seq<(String, M)> {
        self.entries@
    }

    /// Each name has one entry.
    pub open spec fn wf(&self) -> bool {
        names_unique(self.spec_entries())
    }

    /// An empty cache.
    pub fn new() -> (r: Self)
        ensures
            r.wf(),
            r.spec_entries().len() == 0,
    {
        ModelCache { entries: Vec::new() }
    }

    fn position(&self, name: &str) -> (r: Option<usize>)
        ensures
            match r {
                Some(i) => i < self.entries@.len() && self.entries@[i as int].0@ == name@,
                None => !has_model(self.entries@, name@),
            },
    {
        let mut i: usize = 0;
        while i < self.entries.len()
            invariant
                i <= self.entries@.len(),
                forall|k: int| 0 <= k < i ==> #[trigger] self.entries@[k].0@ != name@,
            decreases self.entries@.len() - i,
        {
            if same_name(self.entries[i].0.as_str(), name) {
                return Some(i);
            }
            i = i + 1;
        }
        None
    }

    /// The cached model of this name, if any.
    pub fn get(&self, name: &str) -> (r: Option<&M>)
        ensures
            match r {
                Some(m) => exists|i: int|
                    0 <= i < self.spec_entries().len() && #[trigger] self.spec_entries()[i].0@ == name@
                        && *m == self.spec_entries()[i].1,
                None => !has_model(self.spec_entries(), name@),
            },
    {
        match self.position(name) {
            Some(i) => {
                assert(self.spec_entries()[i as int].0@ == name@);
                Some(&self.entries[i].1)
            },
            None => None,
        }
    }

    /// Caches `model` under `name`, replacing a model of that name; a new
    /// name goes last.
    pub fn insert(&mut self, name: &str, model: M)
        requires
            old(self).wf(),
        ensures
            final(self).wf(),
            exists|p: int|
                {
                    &&& #[trigger] upserted_at(
                        old(self).spec_entries(),
                        final(self).spec_entries(),
                        p,
                        has_model(old(self).spec_entries(), name@),
                    )
                    &&& !has_model(old(self).spec_entries(), name@) ==> p == old(
                        self,
                    ).spec_entries().len()
                    &&& final(self).spec_entries()[p].0@ == name@
                    &&& final(self).spec_entries()[p].1 == model
                },
    {
        let ghost o = self.entries@;
        assert(names_unique(o));
        match self.position(name) {
            Some(i) => {
                self.entries.set(i, (name.to_owned(), model));
                proof {
                    let n = self.entries@;
                    assert forall|a: int, b: int| 0 <= a < b < n.len() implies #[trigger] n[a].0@
                        != #[trigger] n[b].0@ by {
                        assert(o[a].0@ == n[a].0@ && o[b].0@ == n[b].0@);
                    }
                }
                assert(upserted_at(o, self.spec_entries(), i as int, has_model(o, name@)));
            },
            None => {
                self.entries.push((name.to_owned(), model));
                proof {
                    let n = self.entries@;
                    assert(n =~= o.insert(o.len() as int, n[o.len() as int]));
                    assert forall|a: int, b: int| 0 <= a < b < n.len() implies #[trigger] n[a].0@
                        != #[trigger] n[b].0@ by {
                        if b == o.len() {
                            assert(n[a] == o[a]);
                        } else {
                            assert(n[a] == o[a] && n[b] == o[b]);
                        }
                    }
                }
                assert(upserted_at(o, self.spec_entries(), o.len() as int, has_model(o, name@)));
            },
        }
    }
}

} // verus!
