//! The store of named objects, lights and arrays that a frame is compiled from.
use vstd::prelude::*;
use crate::names::{name_less, name_lt, lemma_name_lt_strict, lemma_name_lt_total, lemma_name_lt_transitive};

verus! {

/// A placed object. `T` is the placement (a transform), opaque to the store.
pub struct GameObject<T> {
    pub name: String,
    pub transform: T,
    /// The name of the model drawn at this placement, if any.
    pub model: Option<String>,
}

/// A placed light. `C` is its colour and intensity, opaque to the store.
pub struct GameLight<T, C> {
    pub name: String,
    pub transform: T,
    pub model: Option<String>,
    pub color: C,
}

/// A procedural multiplication of one target into `num_instances` instances.
/// `G` is the generator from an index to an offset, opaque to the store.
pub struct Array<G> {
    pub target: String,
    pub name: String,
    pub offset: G,
    pub num_instances: u32,
}

/// The view of an optional name.
pub open spec fn opt_name(m: Option<String>) -> Option<Seq<char>> {
    match m {
        Some(s) => Some(s@),
        None => None,
    }
}

/// Objects strictly ordered by name (so names are unique).
pub open spec fn objects_sorted<T>(s: Seq<GameObject<T>>) -> bool {
    forall|i: int, j: int|
        #![trigger s[i], s[j]]
        0 <= i < j < s.len() ==> name_lt(s[i].name@, s[j].name@)
}

/// Lights strictly ordered by name.
pub open spec fn lights_sorted<T, C>(s: Seq<GameLight<T, C>>) -> bool {
    forall|i: int, j: int|
        #![trigger s[i], s[j]]
        0 <= i < j < s.len() ==> name_lt(s[i].name@, s[j].name@)
}

/// The order of array keys: by target, then by name.
pub open spec fn array_key_lt(t1: Seq<char>, n1: Seq<char>, t2: Seq<char>, n2: Seq<char>) -> bool {
    name_lt(t1, t2) || (t1 == t2 && name_lt(n1, n2))
}

/// Arrays strictly ordered by (target, name).
pub open spec fn arrays_sorted<G>(s: Seq<Array<G>>) -> bool {
    forall|i: int, j: int|
        #![trigger s[i], s[j]]
        0 <= i < j < s.len() ==> array_key_lt(s[i].target@, s[i].name@, s[j].target@, s[j].name@)
}

pub open spec fn has_object<T>(s: Seq<GameObject<T>>, name: Seq<char>) -> bool {
    exists|i: int| 0 <= i < s.len() && #[trigger] s[i].name@ == name
}

pub open spec fn has_light<T, C>(s: Seq<GameLight<T, C>>, name: Seq<char>) -> bool {
    exists|i: int| 0 <= i < s.len() && #[trigger] s[i].name@ == name
}

pub open spec fn has_array<G>(s: Seq<Array<G>>, target: Seq<char>, name: Seq<char>) -> bool {
    exists|i: int| 0 <= i < s.len() && #[trigger] s[i].target@ == target && s[i].name@ == name
}

/// `n` is `o` with the element at `p` replaced (when `replaced`) or with an
/// element inserted at `p` (otherwise).
pub open spec fn upserted_at<A>(o: Seq<A>, n: Seq<A>, p: int, replaced: bool) -> bool {
    if replaced {
        0 <= p < o.len() && n == o.update(p, n[p])
    } else {
        0 <= p <= o.len() && n == o.insert(p, n[p])
    }
}

proof fn lemma_array_key_strict(t1: Seq<char>, n1: Seq<char>, t2: Seq<char>, n2: Seq<char>)
    ensures
        !array_key_lt(t1, n1, t1, n1),
        array_key_lt(t1, n1, t2, n2) ==> !array_key_lt(t2, n2, t1, n1),
{
    lemma_name_lt_strict(t1, t2);
    lemma_name_lt_strict(n1, n2);
    lemma_name_lt_strict(t1, t1);
    lemma_name_lt_strict(n1, n1);
}

proof fn lemma_array_key_transitive(
    t1: Seq<char>,
    n1: Seq<char>,
    t2: Seq<char>,
    n2: Seq<char>,
    t3: Seq<char>,
    n3: Seq<char>,
)
    requires
        array_key_lt(t1, n1, t2, n2),
        array_key_lt(t2, n2, t3, n3),
    ensures
        array_key_lt(t1, n1, t3, n3),
{
    if name_lt(t1, t2) && name_lt(t2, t3) {
        lemma_name_lt_transitive(t1, t2, t3);
    }
    if t1 == t2 && t2 == t3 {
        lemma_name_lt_strict(t1, t1);
        lemma_name_lt_transitive(n1, n2, n3);
    }
}

proof fn lemma_array_key_total(t1: Seq<char>, n1: Seq<char>, t2: Seq<char>, n2: Seq<char>)
    ensures
        (t1 == t2 && n1 == n2) || array_key_lt(t1, n1, t2, n2) || array_key_lt(t2, n2, t1, n1),
{
    lemma_name_lt_total(t1, t2);
    lemma_name_lt_total(n1, n2);
}

/// Whether the key `(t1, n1)` comes strictly before `(t2, n2)`.
fn array_key_less(t1: &str, n1: &str, t2: &str, n2: &str) -> (r: bool)
    ensures
        r == array_key_lt(t1@, n1@, t2@, n2@),
{
    if name_less(t1, t2) {
        true
    } else if name_less(t2, t1) {
        false
    } else {
        proof {
            lemma_name_lt_total(t1@, t2@);
        }
        name_less(n1, n2)
    }
}

pub struct GameObjectStore<T, C, G> {
    objects: Vec<GameObject<T>>,
    lights: Vec<GameLight<T, C>>,
    arrays: Vec<Array<G>>,
}

impl<T, C, G> GameObjectStore<T, C, G> {
    /// The objects, in name order.
    pub closed spec fn spec_objects(&self) -> Seq<GameObject<T>> {
        self.objects@
    }

    /// The lights, in name order.
    pub closed spec fn spec_lights(&self) -> Seq<GameLight<T, C>> {
        self.lights@
    }

    /// The arrays, in (target, name) order.
    pub closed spec fn spec_arrays(&self) -> Seq<Array<G>> {
        self.arrays@
    }

    /// Names are unique and kept in order.
    pub open spec fn wf(&self) -> bool {
        &&& objects_sorted(self.spec_objects())
        &&& lights_sorted(self.spec_lights())
        &&& arrays_sorted(self.spec_arrays())
    }

    /// An empty store.
    pub fn new() -> (r: Self)
        ensures
            r.wf(),
            r.spec_objects().len() == 0,
            r.spec_lights().len() == 0,
            r.spec_arrays().len() == 0,
    {
        GameObjectStore { objects: Vec::new(), lights: Vec::new(), arrays: Vec::new() }
    }

    /// Where `name` stands among the objects, or would stand.
    fn object_slot(&self, name: &str) -> (r: (usize, bool))
        requires
            self.wf(),
        ensures
            r.0 <= self.objects@.len(),
            forall|k: int| 0 <= k < r.0 ==> name_lt(#[trigger] self.objects@[k].name@, name@),
            r.1 == has_object(self.objects@, name@),
            r.1 ==> r.0 < self.objects@.len() && self.objects@[r.0 as int].name@ == name@,
            !r.1 ==> r.0 == self.objects@.len() || name_lt(name@, self.objects@[r.0 as int].name@),
    {
        let ghost o = self.objects@;
        let mut p: usize = 0;
        while p < self.objects.len() && name_less(self.objects[p].name.as_str(), name)
            invariant
                self.objects@ == o,
                objects_sorted(o),
                p <= o.len(),
                forall|k: int| 0 <= k < p ==> name_lt(#[trigger] o[k].name@, name@),
            decreases o.len() - p,
        {
            p = p + 1;
        }
        let found = p < self.objects.len() && !name_less(name, self.objects[p].name.as_str());
        proof {
            lemma_name_lt_strict(name@, name@);
            if p < o.len() {
                lemma_name_lt_total(o[p as int].name@, name@);
            }
            if !found {
                assert forall|i: int| 0 <= i < o.len() implies #[trigger] o[i].name@ != name@ by {
                    if i > p {
                        assert(name_lt(o[p as int].name@, o[i].name@));
                        lemma_name_lt_transitive(name@, o[p as int].name@, o[i].name@);
                    }
                }
            }
        }
        (p, found)
    }

    /// Places an object under `name`, replacing any object of that name.
    pub fn new_game_object(&mut self, name: &str, transform: T, model: Option<String>)
        requires
            old(self).wf(),
        ensures
            final(self).wf(),
            final(self).spec_lights() == old(self).spec_lights(),
            final(self).spec_arrays() == old(self).spec_arrays(),
            exists|p: int|
                {
                    &&& #[trigger] upserted_at(
                        old(self).spec_objects(),
                        final(self).spec_objects(),
                        p,
                        has_object(old(self).spec_objects(), name@),
                    )
                    &&& final(self).spec_objects()[p].name@ == name@
                    &&& final(self).spec_objects()[p].transform == transform
                    &&& final(self).spec_objects()[p].model == model
                },
    {
        let ghost o = self.objects@;
        let (p, found) = self.object_slot(name);
        let obj = GameObject { name: name.to_owned(), transform, model };
        if found {
            self.objects.set(p, obj);
            proof {
                let n = self.objects@;
                assert forall|i: int, j: int| 0 <= i < j < n.len() implies name_lt(
                    #[trigger] n[i].name@,
                    #[trigger] n[j].name@,
                ) by {
                    assert(o[i].name@ == n[i].name@ && o[j].name@ == n[j].name@);
                }
            }
        } else {
            self.objects.insert(p, obj);
            proof {
                let n = self.objects@;
                assert forall|j: int| p < j < n.len() implies name_lt(name@, #[trigger] n[j].name@) by {
                    if j > p + 1 {
                        assert(name_lt(o[p as int].name@, o[j - 1].name@));
                        lemma_name_lt_transitive(name@, o[p as int].name@, o[j - 1].name@);
                    }
                }
                assert forall|i: int, j: int| 0 <= i < j < n.len() implies name_lt(
                    #[trigger] n[i].name@,
                    #[trigger] n[j].name@,
                ) by {
                    if i < p && j > p {
                        assert(n[i] == o[i]);
                        lemma_name_lt_transitive(n[i].name@, name@, n[j].name@);
                    }
                    if i > p {
                        assert(n[i] == o[i - 1] && n[j] == o[j - 1]);
                    }
                    if j < p {
                        assert(n[i] == o[i] && n[j] == o[j]);
                    }
                }
            }
        }
        assert(upserted_at(o, self.spec_objects(), p as int, has_object(o, name@)));
    }

    /// Removes the object named `name`, handing it back; arrays that target
    /// the name are kept.
    pub fn delete_object(&mut self, name: &str) -> (r: Option<GameObject<T>>)
        requires
            old(self).wf(),
        ensures
            final(self).wf(),
            final(self).spec_lights() == old(self).spec_lights(),
            final(self).spec_arrays() == old(self).spec_arrays(),
            match r {
                Some(obj) => exists|p: int|
                    0 <= p < old(self).spec_objects().len()
                    && #[trigger] old(self).spec_objects()[p] == obj
                    && obj.name@ == name@
                    && final(self).spec_objects() == old(self).spec_objects().remove(p),
                None => !has_object(old(self).spec_objects(), name@)
                    && final(self).spec_objects() == old(self).spec_objects(),
            },
    {
        let ghost o = self.objects@;
        let (p, found) = self.object_slot(name);
        if found {
            let obj = self.objects.remove(p);
            proof {
                let n = self.objects@;
                assert forall|i: int, j: int| 0 <= i < j < n.len() implies name_lt(
                    #[trigger] n[i].name@,
                    #[trigger] n[j].name@,
                ) by {
                    let i2 = if i < p { i } else { i + 1 };
                    let j2 = if j < p { j } else { j + 1 };
                    assert(n[i] == o[i2] && n[j] == o[j2]);
                }
                assert(o[p as int] == obj);
            }
            Some(obj)
        } else {
            None
        }
    }

    /// The transform of the object named `name`, for changing it in place.
    pub fn object(&mut self, name: &str) -> (r: Option<&mut T>)
        requires
            old(self).wf(),
        ensures
            final(self).wf(),
            final(self).spec_lights() == old(self).spec_lights(),
            final(self).spec_arrays() == old(self).spec_arrays(),
            match r {
                Some(t) => exists|p: int|
                    0 <= p < old(self).spec_objects().len()
                    && #[trigger] old(self).spec_objects()[p].name@ == name@
                    && *t == old(self).spec_objects()[p].transform
                    && final(self).spec_objects() == old(self).spec_objects().update(
                        p,
                        GameObject { transform: *final(t), ..old(self).spec_objects()[p] },
                    ),
                None => !has_object(old(self).spec_objects(), name@)
                    && final(self).spec_objects() == old(self).spec_objects(),
            },
    {
        let (p, found) = self.object_slot(name);
        if found {
            Some(&mut self.objects[p].transform)
        } else {
            None
        }
    }

    /// Where `name` stands among the lights, or would stand.
    fn light_slot(&self, name: &str) -> (r: (usize, bool))
        requires
            self.wf(),
        ensures
            r.0 <= self.lights@.len(),
            forall|k: int| 0 <= k < r.0 ==> name_lt(#[trigger] self.lights@[k].name@, name@),
            r.1 == has_light(self.lights@, name@),
            r.1 ==> r.0 < self.lights@.len() && self.lights@[r.0 as int].name@ == name@,
            !r.1 ==> r.0 == self.lights@.len() || name_lt(name@, self.lights@[r.0 as int].name@),
    {
        let ghost o = self.lights@;
        let mut p: usize = 0;
        while p < self.lights.len() && name_less(self.lights[p].name.as_str(), name)
            invariant
                self.lights@ == o,
                lights_sorted(o),
                p <= o.len(),
                forall|k: int| 0 <= k < p ==> name_lt(#[trigger] o[k].name@, name@),
            decreases o.len() - p,
        {
            p = p + 1;
        }
        let found = p < self.lights.len() && !name_less(name, self.lights[p].name.as_str());
        proof {
            lemma_name_lt_strict(name@, name@);
            if p < o.len() {
                lemma_name_lt_total(o[p as int].name@, name@);
            }
            if !found {
                assert forall|i: int| 0 <= i < o.len() implies #[trigger] o[i].name@ != name@ by {
                    if i > p {
                        assert(name_lt(o[p as int].name@, o[i].name@));
                        lemma_name_lt_transitive(name@, o[p as int].name@, o[i].name@);
                    }
                }
            }
        }
        (p, found)
    }

    /// Places a light under `name`, replacing any light of that name.
    pub fn new_light(&mut self, name: &str, transform: T, model: Option<String>, color: C)
        requires
            old(self).wf(),
        ensures
            final(self).wf(),
            final(self).spec_objects() == old(self).spec_objects(),
            final(self).spec_arrays() == old(self).spec_arrays(),
            exists|p: int|
                {
                    &&& #[trigger] upserted_at(
                        old(self).spec_lights(),
                        final(self).spec_lights(),
                        p,
                        has_light(old(self).spec_lights(), name@),
                    )
                    &&& final(self).spec_lights()[p].name@ == name@
                    &&& final(self).spec_lights()[p].transform == transform
                    &&& final(self).spec_lights()[p].model == model
                    &&& final(self).spec_lights()[p].color == color
                },
    {
        let ghost o = self.lights@;
        let (p, found) = self.light_slot(name);
        let obj = GameLight { name: name.to_owned(), transform, model, color };
        if found {
            self.lights.set(p, obj);
            proof {
                let n = self.lights@;
                assert forall|i: int, j: int| 0 <= i < j < n.len() implies name_lt(
                    #[trigger] n[i].name@,
                    #[trigger] n[j].name@,
                ) by {
                    assert(o[i].name@ == n[i].name@ && o[j].name@ == n[j].name@);
                }
            }
        } else {
            self.lights.insert(p, obj);
            proof {
                let n = self.lights@;
                assert forall|j: int| p < j < n.len() implies name_lt(name@, #[trigger] n[j].name@) by {
                    if j > p + 1 {
                        assert(name_lt(o[p as int].name@, o[j - 1].name@));
                        lemma_name_lt_transitive(name@, o[p as int].name@, o[j - 1].name@);
                    }
                }
                assert forall|i: int, j: int| 0 <= i < j < n.len() implies name_lt(
                    #[trigger] n[i].name@,
                    #[trigger] n[j].name@,
                ) by {
                    if i < p && j > p {
                        assert(n[i] == o[i]);
                        lemma_name_lt_transitive(n[i].name@, name@, n[j].name@);
                    }
                    if i > p {
                        assert(n[i] == o[i - 1] && n[j] == o[j - 1]);
                    }
                    if j < p {
                        assert(n[i] == o[i] && n[j] == o[j]);
                    }
                }
            }
        }
        assert(upserted_at(o, self.spec_lights(), p as int, has_light(o, name@)));
    }

    /// Removes the light named `name`, handing it back; arrays that target
    /// the name are kept.
    pub fn delete_light(&mut self, name: &str) -> (r: Option<GameLight<T, C>>)
        requires
            old(self).wf(),
        ensures
            final(self).wf(),
            final(self).spec_objects() == old(self).spec_objects(),
            final(self).spec_arrays() == old(self).spec_arrays(),
            match r {
                Some(obj) => exists|p: int|
                    0 <= p < old(self).spec_lights().len()
                    && #[trigger] old(self).spec_lights()[p] == obj
                    && obj.name@ == name@
                    && final(self).spec_lights() == old(self).spec_lights().remove(p),
                None => !has_light(old(self).spec_lights(), name@)
                    && final(self).spec_lights() == old(self).spec_lights(),
            },
    {
        let ghost o = self.lights@;
        let (p, found) = self.light_slot(name);
        if found {
            let obj = self.lights.remove(p);
            proof {
                let n = self.lights@;
                assert forall|i: int, j: int| 0 <= i < j < n.len() implies name_lt(
                    #[trigger] n[i].name@,
                    #[trigger] n[j].name@,
                ) by {
                    let i2 = if i < p { i } else { i + 1 };
                    let j2 = if j < p { j } else { j + 1 };
                    assert(n[i] == o[i2] && n[j] == o[j2]);
                }
                assert(o[p as int] == obj);
            }
            Some(obj)
        } else {
            None
        }
    }

    /// The transform of the light named `name`, for changing it in place.
    pub fn light(&mut self, name: &str) -> (r: Option<&mut T>)
        requires
            old(self).wf(),
        ensures
            final(self).wf(),
            final(self).spec_objects() == old(self).spec_objects(),
            final(self).spec_arrays() == old(self).spec_arrays(),
            match r {
                Some(t) => exists|p: int|
                    0 <= p < old(self).spec_lights().len()
                    && #[trigger] old(self).spec_lights()[p].name@ == name@
                    && *t == old(self).spec_lights()[p].transform
                    && final(self).spec_lights() == old(self).spec_lights().update(
                        p,
                        GameLight { transform: *final(t), ..old(self).spec_lights()[p] },
                    ),
                None => !has_light(old(self).spec_lights(), name@)
                    && final(self).spec_lights() == old(self).spec_lights(),
            },
    {
        let (p, found) = self.light_slot(name);
        if found {
            Some(&mut self.lights[p].transform)
        } else {
            None
        }
    }

    /// The colour of the light named `name`, for changing it in place.
    pub fn light_color(&mut self, name: &str) -> (r: Option<&mut C>)
        requires
            old(self).wf(),
        ensures
            final(self).wf(),
            final(self).spec_objects() == old(self).spec_objects(),
            final(self).spec_arrays() == old(self).spec_arrays(),
            match r {
                Some(t) => exists|p: int|
                    0 <= p < old(self).spec_lights().len()
                    && #[trigger] old(self).spec_lights()[p].name@ == name@
                    && *t == old(self).spec_lights()[p].color
                    && final(self).spec_lights() == old(self).spec_lights().update(
                        p,
                        GameLight { color: *final(t), ..old(self).spec_lights()[p] },
                    ),
                None => !has_light(old(self).spec_lights(), name@)
                    && final(self).spec_lights() == old(self).spec_lights(),
            },
    {
        let (p, found) = self.light_slot(name);
        if found {
            Some(&mut self.lights[p].color)
        } else {
            None
        }
    }

    /// Where the key `(target, name)` stands among the arrays, or would stand.
    fn array_slot(&self, target: &str, name: &str) -> (r: (usize, bool))
        requires
            self.wf(),
        ensures
            r.0 <= self.arrays@.len(),
            forall|k: int|
                0 <= k < r.0 ==> array_key_lt(
                    #[trigger] self.arrays@[k].target@,
                    self.arrays@[k].name@,
                    target@,
                    name@,
                ),
            r.1 == has_array(self.arrays@, target@, name@),
            r.1 ==> r.0 < self.arrays@.len() && self.arrays@[r.0 as int].target@ == target@
                && self.arrays@[r.0 as int].name@ == name@,
            !r.1 ==> r.0 == self.arrays@.len() || array_key_lt(
                target@,
                name@,
                self.arrays@[r.0 as int].target@,
                self.arrays@[r.0 as int].name@,
            ),
    {
        let ghost a = self.arrays@;
        let mut p: usize = 0;
        while p < self.arrays.len() && array_key_less(
            self.arrays[p].target.as_str(),
            self.arrays[p].name.as_str(),
            target,
            name,
        )
            invariant
                self.arrays@ == a,
                arrays_sorted(a),
                p <= a.len(),
                forall|k: int|
                    0 <= k < p ==> array_key_lt(#[trigger] a[k].target@, a[k].name@, target@, name@),
            decreases a.len() - p,
        {
            p = p + 1;
        }
        let found = p < self.arrays.len() && !array_key_less(
            target,
            name,
            self.arrays[p].target.as_str(),
            self.arrays[p].name.as_str(),
        );
        proof {
            lemma_array_key_strict(target@, name@, target@, name@);
            if p < a.len() {
                lemma_array_key_total(a[p as int].target@, a[p as int].name@, target@, name@);
            }
            if !found {
                assert forall|i: int| 0 <= i < a.len() implies !(#[trigger] a[i].target@ == target@
                    && a[i].name@ == name@) by {
                    if i > p {
                        assert(array_key_lt(a[p as int].target@, a[p as int].name@, a[i].target@, a[i].name@));
                        lemma_array_key_transitive(
                            target@,
                            name@,
                            a[p as int].target@,
                            a[p as int].name@,
                            a[i].target@,
                            a[i].name@,
                        );
                        lemma_array_key_strict(target@, name@, target@, name@);
                    }
                }
            }
        }
        (p, found)
    }

    /// Registers an array under `(target, name)`, replacing any array of that
    /// key. The target need not exist.
    pub fn new_array(&mut self, target: &str, name: &str, num_instances: u32, offset: G)
        requires
            old(self).wf(),
        ensures
            final(self).wf(),
            final(self).spec_objects() == old(self).spec_objects(),
            final(self).spec_lights() == old(self).spec_lights(),
            exists|p: int|
                {
                    &&& #[trigger] upserted_at(
                        old(self).spec_arrays(),
                        final(self).spec_arrays(),
                        p,
                        has_array(old(self).spec_arrays(), target@, name@),
                    )
                    &&& final(self).spec_arrays()[p].target@ == target@
                    &&& final(self).spec_arrays()[p].name@ == name@
                    &&& final(self).spec_arrays()[p].num_instances == num_instances
                    &&& final(self).spec_arrays()[p].offset == offset
                },
    {
        let ghost a = self.arrays@;
        let (p, found) = self.array_slot(target, name);
        let array = Array { target: target.to_owned(), name: name.to_owned(), offset, num_instances };
        if found {
            self.arrays.set(p, array);
            proof {
                let n = self.arrays@;
                assert forall|i: int, j: int| 0 <= i < j < n.len() implies array_key_lt(
                    #[trigger] n[i].target@,
                    n[i].name@,
                    #[trigger] n[j].target@,
                    n[j].name@,
                ) by {
                    assert(a[i].target@ == n[i].target@ && a[j].target@ == n[j].target@);
                    assert(a[i].name@ == n[i].name@ && a[j].name@ == n[j].name@);
                }
            }
        } else {
            self.arrays.insert(p, array);
            proof {
                let n = self.arrays@;
                assert forall|j: int| p < j < n.len() implies array_key_lt(
                    target@,
                    name@,
                    #[trigger] n[j].target@,
                    n[j].name@,
                ) by {
                    if j > p + 1 {
                        assert(array_key_lt(
                            a[p as int].target@,
                            a[p as int].name@,
                            a[j - 1].target@,
                            a[j - 1].name@,
                        ));
                        lemma_array_key_transitive(
                            target@,
                            name@,
                            a[p as int].target@,
                            a[p as int].name@,
                            a[j - 1].target@,
                            a[j - 1].name@,
                        );
                    }
                }
                assert forall|i: int, j: int| 0 <= i < j < n.len() implies array_key_lt(
                    #[trigger] n[i].target@,
                    n[i].name@,
                    #[trigger] n[j].target@,
                    n[j].name@,
                ) by {
                    if i < p && j > p {
                        assert(n[i] == a[i]);
                        lemma_array_key_transitive(
                            n[i].target@,
                            n[i].name@,
                            target@,
                            name@,
                            n[j].target@,
                            n[j].name@,
                        );
                    }
                    if i > p {
                        assert(n[i] == a[i - 1] && n[j] == a[j - 1]);
                    }
                    if j < p {
                        assert(n[i] == a[i] && n[j] == a[j]);
                    }
                }
            }
        }
        assert(upserted_at(a, self.spec_arrays(), p as int, has_array(a, target@, name@)));
    }

    /// Removes the array registered under `(target, name)`, handing it back.
    pub fn delete_array(&mut self, target: &str, name: &str) -> (r: Option<Array<G>>)
        requires
            old(self).wf(),
        ensures
            final(self).wf(),
            final(self).spec_objects() == old(self).spec_objects(),
            final(self).spec_lights() == old(self).spec_lights(),
            match r {
                Some(array) => exists|p: int|
                    0 <= p < old(self).spec_arrays().len()
                    && #[trigger] old(self).spec_arrays()[p] == array
                    && array.target@ == target@
                    && array.name@ == name@
                    && final(self).spec_arrays() == old(self).spec_arrays().remove(p),
                None => !has_array(old(self).spec_arrays(), target@, name@)
                    && final(self).spec_arrays() == old(self).spec_arrays(),
            },
    {
        let ghost a = self.arrays@;
        let (p, found) = self.array_slot(target, name);
        if found {
            let array = self.arrays.remove(p);
            proof {
                let n = self.arrays@;
                assert forall|i: int, j: int| 0 <= i < j < n.len() implies array_key_lt(
                    #[trigger] n[i].target@,
                    n[i].name@,
                    #[trigger] n[j].target@,
                    n[j].name@,
                ) by {
                    let i2 = if i < p { i } else { i + 1 };
                    let j2 = if j < p { j } else { j + 1 };
                    assert(n[i] == a[i2] && n[j] == a[j2]);
                }
                assert(a[p as int] == array);
            }
            Some(array)
        } else {
            None
        }
    }

    /// The objects, in name order.
    pub fn objects(&self) -> (r: &[GameObject<T>])
        ensures
            r@ == self.spec_objects(),
    {
        self.objects.as_slice()
    }

    /// The lights, in name order.
    pub fn lights(&self) -> (r: &[GameLight<T, C>])
        ensures
            r@ == self.spec_lights(),
    {
        self.lights.as_slice()
    }

    /// The arrays, in (target, name) order.
    pub fn arrays(&self) -> (r: &[Array<G>])
        ensures
            r@ == self.spec_arrays(),
    {
        self.arrays.as_slice()
    }
}

impl<T, C, G> Default for GameObjectStore<T, C, G> {
    fn default() -> (r: Self)
        ensures
            r.wf(),
            r.spec_objects().len() == 0,
            r.spec_lights().len() == 0,
            r.spec_arrays().len() == 0,
    {
        Self::new()
    }
}

} // verus!
