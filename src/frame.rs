//! Compiling a store into one frame's draw list: which instance goes where
//! in the instance buffer, which ranges of it each model draws, and which
//! instances fill the light block.
use vstd::prelude::*;
use crate::names::{lemma_name_lt_strict, lemma_name_lt_total, lemma_name_lt_transitive, name_less, name_lt, same_name};
use crate::store::{opt_name, Array, GameLight, GameObject, GameObjectStore};
use crate::{MAX_INSTANCES, MAX_LIGHTS};

verus! {

/// The placement an instance comes from, by its index in the store.
#[derive(PartialEq, Eq, Structural, Clone, Copy, Debug)]
pub enum Placement {
    Object(usize),
    Light(usize),
}

/// The offset of instance `index` of the store's array number `array`.
#[derive(PartialEq, Eq, Structural, Clone, Copy, Debug)]
pub struct ArrayOffset {
    pub array: usize,
    pub index: u32,
}

/// One instance: a placement's transform, composed with an array offset if
/// there is one.
#[derive(PartialEq, Eq, Structural, Clone, Copy, Debug)]
pub struct InstanceSource {
    pub placement: Placement,
    pub offset: Option<ArrayOffset>,
}

/// The offsets that the first `n` arrays contribute to `target`, in order.
pub open spec fn array_offsets<G>(arrays: Seq<Array<G>>, target: Seq<char>, n: int) -> Seq<
    Option<ArrayOffset>,
>
    decreases n,
{
    if n <= 0 {
        seq![]
    } else {
        array_offsets(arrays, target, n - 1) + if arrays[n - 1].target@ == target {
            Seq::new(
                arrays[n - 1].num_instances as nat,
                |i: int| Some(ArrayOffset { array: (n - 1) as usize, index: i as u32 }),
            )
        } else {
            seq![]
        }
    }
}

/// Some array targets `target`.
pub open spec fn targeted<G>(arrays: Seq<Array<G>>, target: Seq<char>) -> bool {
    exists|j: int| 0 <= j < arrays.len() && #[trigger] arrays[j].target@ == target
}

/// The instances a placement named `target` expands to: its own transform
/// once when no array targets it, else every offset of every array that does.
pub open spec fn expansion<G>(arrays: Seq<Array<G>>, target: Seq<char>) -> Seq<Option<ArrayOffset>> {
    if targeted(arrays, target) {
        array_offsets(arrays, target, arrays.len() as int)
    } else {
        seq![None]
    }
}

proof fn lemma_offsets_untargeted<G>(arrays: Seq<Array<G>>, target: Seq<char>, n: int)
    requires
        n <= arrays.len(),
        forall|k: int| 0 <= k < n ==> #[trigger] arrays[k].target@ != target,
    ensures
        array_offsets(arrays, target, n).len() == 0,
    decreases n,
{
    if n > 0 {
        lemma_offsets_untargeted(arrays, target, n - 1);
    }
}

/// Expands the placement named `target` through the arrays that target it.
fn eval_array<G>(arrays: &[Array<G>], target: &str) -> (r: Vec<Option<ArrayOffset>>)
    ensures
        r@ == expansion(arrays@, target@),
{
    let mut out: Vec<Option<ArrayOffset>> = Vec::new();
    let mut found = false;
    let mut j: usize = 0;
    while j < arrays.len()
        invariant
            j <= arrays@.len(),
            out@ == array_offsets(arrays@, target@, j as int),
            found == exists|k: int| 0 <= k < j && #[trigger] arrays@[k].target@ == target@,
        decreases arrays@.len() - j,
    {
        if same_name(arrays[j].target.as_str(), target) {
            found = true;
            let count = arrays[j].num_instances;
            let mut i: u32 = 0;
            while i < count
                invariant
                    j < arrays@.len(),
                    count == arrays@[j as int].num_instances,
                    i <= count,
                    out@ == array_offsets(arrays@, target@, j as int) + Seq::new(
                        i as nat,
                        |x: int| Some(ArrayOffset { array: j, index: x as u32 }),
                    ),
                decreases count - i,
            {
                out.push(Some(ArrayOffset { array: j, index: i }));
                i = i + 1;
                assert(out@ =~= array_offsets(arrays@, target@, j as int) + Seq::new(
                    i as nat,
                    |x: int| Some(ArrayOffset { array: j, index: x as u32 }),
                ));
            }
        }
        assert(out@ =~= array_offsets(arrays@, target@, j + 1));
        j = j + 1;
    }
    if !found {
        proof {
            lemma_offsets_untargeted(arrays@, target@, arrays@.len() as int);
        }
        out.push(None);
        assert(out@ =~= seq![None]);
    }
    out
}

/// The (name, model) of each object.
pub open spec fn object_keys<T>(s: Seq<GameObject<T>>) -> Seq<(Seq<char>, Option<Seq<char>>)> {
    s.map_values(|o: GameObject<T>| (o.name@, opt_name(o.model)))
}

/// The (name, model) of each light.
pub open spec fn light_keys<T, C>(s: Seq<GameLight<T, C>>) -> Seq<(Seq<char>, Option<Seq<char>>)> {
    s.map_values(|l: GameLight<T, C>| (l.name@, opt_name(l.model)))
}

/// The instance of placement `i` with offset `x`.
pub open spec fn source_of(light: bool, i: int, x: Option<ArrayOffset>) -> InstanceSource {
    InstanceSource {
        placement: if light {
            Placement::Light(i as usize)
        } else {
            Placement::Object(i as usize)
        },
        offset: x,
    }
}

/// The instances of placement `i`.
pub open spec fn expanded<G>(
    ks: Seq<(Seq<char>, Option<Seq<char>>)>,
    arrays: Seq<Array<G>>,
    light: bool,
    i: int,
) -> Seq<InstanceSource> {
    expansion(arrays, ks[i].0).map_values(|x: Option<ArrayOffset>| source_of(light, i, x))
}

/// The instances of placements `0..n`, in order.
pub open spec fn all_instances<G>(
    ks: Seq<(Seq<char>, Option<Seq<char>>)>,
    arrays: Seq<Array<G>>,
    light: bool,
    n: int,
) -> Seq<InstanceSource>
    decreases n,
{
    if n <= 0 {
        seq![]
    } else {
        all_instances(ks, arrays, light, n - 1) + expanded(ks, arrays, light, n - 1)
    }
}

/// The first `MAX_LIGHTS` of `s`, or all of it if it is shorter.
pub open spec fn capped(s: Seq<InstanceSource>) -> Seq<InstanceSource> {
    if s.len() <= MAX_LIGHTS {
        s
    } else {
        s.take(MAX_LIGHTS as int)
    }
}

/// The instances that fill the light block: every light, expanded, in name
/// order, up to the block's capacity.
pub open spec fn light_block<T, C, G>(store: GameObjectStore<T, C, G>) -> Seq<InstanceSource> {
    capped(
        all_instances(
            light_keys(store.spec_lights()),
            store.spec_arrays(),
            true,
            store.spec_lights().len() as int,
        ),
    )
}

/// A draw call: the instances `start..end` of the buffer, drawn with the
/// named model; `None` stands for the empty default model that closes an
/// empty list.
#[derive(Clone, Debug, PartialEq, Eq)]
pub struct DrawRange {
    pub model: Option<String>,
    pub start: u32,
    pub end: u32,
}

/// The view of a list of draw calls.
pub open spec fn range_views(rs: Seq<DrawRange>) -> Seq<(Option<Seq<char>>, int, int)> {
    rs.map_values(|d: DrawRange| (opt_name(d.model), d.start as int, d.end as int))
}

/// The view of a list of names.
pub open spec fn names_view(s: Seq<String>) -> Seq<Seq<char>> {
    s.map_values(|x: String| x@)
}

/// The instances of placements `0..n` that are drawn with model `m`.
pub open spec fn group_instances<G>(
    ks: Seq<(Seq<char>, Option<Seq<char>>)>,
    arrays: Seq<Array<G>>,
    light: bool,
    m: Seq<char>,
    n: int,
) -> Seq<InstanceSource>
    decreases n,
{
    if n <= 0 {
        seq![]
    } else {
        group_instances(ks, arrays, light, m, n - 1) + if ks[n - 1].1 == Some(m) {
            expanded(ks, arrays, light, n - 1)
        } else {
            seq![]
        }
    }
}

/// Strictly ascending in name order.
pub open spec fn names_sorted(ms: Seq<Seq<char>>) -> bool {
    forall|i: int, j: int| #![trigger ms[i], ms[j]] 0 <= i < j < ms.len() ==> name_lt(ms[i], ms[j])
}

/// `ms` lists, in name order and once each, the models that the placements use.
pub open spec fn models_listed(ks: Seq<(Seq<char>, Option<Seq<char>>)>, ms: Seq<Seq<char>>) -> bool {
    &&& names_sorted(ms)
    &&& forall|m: Seq<char>|
        ms.contains(m) <==> exists|i: int| 0 <= i < ks.len() && #[trigger] ks[i].1 == Some(m)
}

/// The instances of the first `j` model groups, one group after the other.
pub open spec fn grouped_instances<G>(
    ks: Seq<(Seq<char>, Option<Seq<char>>)>,
    arrays: Seq<Array<G>>,
    light: bool,
    ms: Seq<Seq<char>>,
    j: int,
) -> Seq<InstanceSource>
    decreases j,
{
    if j <= 0 {
        seq![]
    } else {
        grouped_instances(ks, arrays, light, ms, j - 1) + group_instances(
            ks,
            arrays,
            light,
            ms[j - 1],
            ks.len() as int,
        )
    }
}

/// The draw calls of the first `j` model groups, laid out from `start`: one
/// for each group that has an instance.
pub open spec fn group_ranges<G>(
    ks: Seq<(Seq<char>, Option<Seq<char>>)>,
    arrays: Seq<Array<G>>,
    light: bool,
    ms: Seq<Seq<char>>,
    start: int,
    j: int,
) -> Seq<(Option<Seq<char>>, int, int)>
    decreases j,
{
    if j <= 0 {
        seq![]
    } else {
        let prev = group_ranges(ks, arrays, light, ms, start, j - 1);
        let s = start + grouped_instances(ks, arrays, light, ms, j - 1).len();
        let len = group_instances(ks, arrays, light, ms[j - 1], ks.len() as int).len();
        if len > 0 {
            prev.push((Some(ms[j - 1]), s, s + len))
        } else {
            prev
        }
    }
}

/// The draw calls of all model groups, from `start`; when no group has an
/// instance, a single empty call at `start` closes the list.
pub open spec fn draw_ranges<G>(
    ks: Seq<(Seq<char>, Option<Seq<char>>)>,
    arrays: Seq<Array<G>>,
    light: bool,
    ms: Seq<Seq<char>>,
    start: int,
) -> Seq<(Option<Seq<char>>, int, int)> {
    let g = group_ranges(ks, arrays, light, ms, start, ms.len() as int);
    if g.len() == 0 {
        seq![(None, start, start)]
    } else {
        g
    }
}

/// The number of instances of placements `0..n` that have a model.
pub open spec fn placed_total<G>(
    ks: Seq<(Seq<char>, Option<Seq<char>>)>,
    arrays: Seq<Array<G>>,
    n: int,
) -> int
    decreases n,
{
    if n <= 0 {
        0
    } else {
        placed_total(ks, arrays, n - 1) + if ks[n - 1].1 is Some {
            expansion(arrays, ks[n - 1].0).len() as int
        } else {
            0
        }
    }
}

/// The number of instances of placements `0..n` whose model is in `s`.
pub open spec fn selected_total<G>(
    ks: Seq<(Seq<char>, Option<Seq<char>>)>,
    arrays: Seq<Array<G>>,
    s: Set<Seq<char>>,
    n: int,
) -> int
    decreases n,
{
    if n <= 0 {
        0
    } else {
        selected_total(ks, arrays, s, n - 1) + match ks[n - 1].1 {
            Some(m) => if s.contains(m) {
                expansion(arrays, ks[n - 1].0).len() as int
            } else {
                0
            },
            None => 0,
        }
    }
}

/// The models among the first `j` of `ms`.
pub open spec fn prefix_set(ms: Seq<Seq<char>>, j: int) -> Set<Seq<char>> {
    Set::new(|m: Seq<char>| exists|k: int| 0 <= k < j && #[trigger] ms[k] == m)
}

proof fn lemma_selected_insert<G>(
    ks: Seq<(Seq<char>, Option<Seq<char>>)>,
    arrays: Seq<Array<G>>,
    light: bool,
    s: Set<Seq<char>>,
    m: Seq<char>,
    n: int,
)
    requires
        !s.contains(m),
        n <= ks.len(),
    ensures
        selected_total(ks, arrays, s.insert(m), n) == selected_total(ks, arrays, s, n)
            + group_instances(ks, arrays, light, m, n).len(),
    decreases n,
{
    if n > 0 {
        lemma_selected_insert(ks, arrays, light, s, m, n - 1);
    }
}

proof fn lemma_selected_le_placed<G>(
    ks: Seq<(Seq<char>, Option<Seq<char>>)>,
    arrays: Seq<Array<G>>,
    s: Set<Seq<char>>,
    n: int,
)
    ensures
        0 <= selected_total(ks, arrays, s, n) <= placed_total(ks, arrays, n),
    decreases n,
{
    if n > 0 {
        lemma_selected_le_placed(ks, arrays, s, n - 1);
    }
}

proof fn lemma_group_monotone<G>(
    ks: Seq<(Seq<char>, Option<Seq<char>>)>,
    arrays: Seq<Array<G>>,
    light: bool,
    m: Seq<char>,
    i: int,
    n: int,
)
    requires
        i <= n,
    ensures
        group_instances(ks, arrays, light, m, i).len() <= group_instances(ks, arrays, light, m, n).len(),
    decreases n - i,
{
    if i < n {
        lemma_group_monotone(ks, arrays, light, m, i, n - 1);
    }
}

proof fn lemma_placed_monotone<G>(
    ks: Seq<(Seq<char>, Option<Seq<char>>)>,
    arrays: Seq<Array<G>>,
    i: int,
    n: int,
)
    requires
        i <= n,
    ensures
        placed_total(ks, arrays, i) <= placed_total(ks, arrays, n),
    decreases n - i,
{
    if i < n {
        lemma_placed_monotone(ks, arrays, i, n - 1);
    }
}

proof fn lemma_grouped_len<G>(
    ks: Seq<(Seq<char>, Option<Seq<char>>)>,
    arrays: Seq<Array<G>>,
    light: bool,
    ms: Seq<Seq<char>>,
    j: int,
)
    requires
        models_listed(ks, ms),
        0 <= j <= ms.len(),
    ensures
        grouped_instances(ks, arrays, light, ms, j).len() == selected_total(
            ks,
            arrays,
            prefix_set(ms, j),
            ks.len() as int,
        ),
    decreases j,
{
    if j == 0 {
        assert(prefix_set(ms, 0) =~= Set::<Seq<char>>::empty());
        lemma_selected_empty(ks, arrays, prefix_set(ms, 0), ks.len() as int);
    } else {
        lemma_grouped_len(ks, arrays, light, ms, j - 1);
        assert(!prefix_set(ms, j - 1).contains(ms[j - 1])) by {
            if prefix_set(ms, j - 1).contains(ms[j - 1]) {
                let k = choose|k: int| 0 <= k < j - 1 && #[trigger] ms[k] == ms[j - 1];
                assert(name_lt(ms[k], ms[j - 1]));
                lemma_name_lt_strict(ms[k], ms[k]);
            }
        }
        assert(prefix_set(ms, j) =~= prefix_set(ms, j - 1).insert(ms[j - 1]));
        lemma_selected_insert(ks, arrays, light, prefix_set(ms, j - 1), ms[j - 1], ks.len() as int);
    }
}

proof fn lemma_selected_empty<G>(
    ks: Seq<(Seq<char>, Option<Seq<char>>)>,
    arrays: Seq<Array<G>>,
    s: Set<Seq<char>>,
    n: int,
)
    requires
        s == Set::<Seq<char>>::empty(),
    ensures
        selected_total(ks, arrays, s, n) == 0,
    decreases n,
{
    if n > 0 {
        lemma_selected_empty(ks, arrays, s, n - 1);
    }
}

/// The draw calls of the first `j` groups lie one after the other from
/// `start` and cover exactly the instances of those groups.
proof fn lemma_group_ranges_tile<G>(
    ks: Seq<(Seq<char>, Option<Seq<char>>)>,
    arrays: Seq<Array<G>>,
    light: bool,
    ms: Seq<Seq<char>>,
    start: int,
    j: int,
)
    requires
        0 <= j <= ms.len(),
    ensures
        ({
            let g = group_ranges(ks, arrays, light, ms, start, j);
            let total = grouped_instances(ks, arrays, light, ms, j).len();
            &&& g.len() == 0 ==> total == 0
            &&& g.len() > 0 ==> tiles(g, start, start + total)
        }),
    decreases j,
{
    if j > 0 {
        lemma_group_ranges_tile(ks, arrays, light, ms, start, j - 1);
    }
}

/// `rs` lies one range after the other, without gap or overlap, from `lo`
/// to `hi`.
pub open spec fn tiles(rs: Seq<(Option<Seq<char>>, int, int)>, lo: int, hi: int) -> bool {
    &&& rs.len() > 0
    &&& rs[0].1 == lo
    &&& rs[rs.len() - 1].2 == hi
    &&& forall|k: int| 0 <= k < rs.len() ==> #[trigger] rs[k].1 <= rs[k].2
    &&& forall|k: int| 0 <= k < rs.len() - 1 ==> #[trigger] rs[k].2 == rs[k + 1].1
}

/// The name and model of one placement, as the grouping pass reads them.
struct Placed {
    name: String,
    model: Option<String>,
}

spec fn placed_view(s: Seq<Placed>) -> Seq<(Seq<char>, Option<Seq<char>>)> {
    s.map_values(|p: Placed| (p.name@, opt_name(p.model)))
}

fn clone_name(m: &Option<String>) -> (r: Option<String>)
    ensures
        opt_name(r) == opt_name(*m),
{
    match m {
        Some(s) => Some(s.clone()),
        None => None,
    }
}

fn object_placed<T>(objs: &[GameObject<T>]) -> (r: Vec<Placed>)
    ensures
        placed_view(r@) == object_keys(objs@),
{
    let mut r: Vec<Placed> = Vec::new();
    let mut i: usize = 0;
    while i < objs.len()
        invariant
            i <= objs@.len(),
            r@.len() == i,
            forall|k: int|
                0 <= k < i ==> #[trigger] r@[k].name@ == objs@[k].name@ && opt_name(r@[k].model)
                    == opt_name(objs@[k].model),
        decreases objs@.len() - i,
    {
        r.push(Placed { name: objs[i].name.clone(), model: clone_name(&objs[i].model) });
        i = i + 1;
    }
    assert(placed_view(r@) =~= object_keys(objs@));
    r
}

fn light_placed<T, C>(lights: &[GameLight<T, C>]) -> (r: Vec<Placed>)
    ensures
        placed_view(r@) == light_keys(lights@),
{
    let mut r: Vec<Placed> = Vec::new();
    let mut i: usize = 0;
    while i < lights.len()
        invariant
            i <= lights@.len(),
            r@.len() == i,
            forall|k: int|
                0 <= k < i ==> #[trigger] r@[k].name@ == lights@[k].name@ && opt_name(r@[k].model)
                    == opt_name(lights@[k].model),
        decreases lights@.len() - i,
    {
        r.push(Placed { name: lights[i].name.clone(), model: clone_name(&lights[i].model) });
        i = i + 1;
    }
    assert(placed_view(r@) =~= light_keys(lights@));
    r
}

/// The models that the placements use, in name order, once each.
fn model_list(keys: &Vec<Placed>) -> (ms: Vec<String>)
    ensures
        models_listed(placed_view(keys@), names_view(ms@)),
{
    let ghost ks = placed_view(keys@);
    let mut ms: Vec<String> = Vec::new();
    let mut i: usize = 0;
    while i < keys.len()
        invariant
            i <= keys@.len(),
            ks == placed_view(keys@),
            names_sorted(names_view(ms@)),
            forall|m: Seq<char>|
                names_view(ms@).contains(m) <==> exists|k: int| 0 <= k < i && #[trigger] ks[k].1 == Some(m),
        decreases keys@.len() - i,
    {
        let ghost old_ms = names_view(ms@);
        match &keys[i].model {
            Some(m) => {
                let mut p: usize = 0;
                while p < ms.len() && name_less(ms[p].as_str(), m.as_str())
                    invariant
                        p <= ms@.len(),
                        names_view(ms@) == old_ms,
                        forall|k: int| 0 <= k < p ==> name_lt(#[trigger] old_ms[k], m@),
                    decreases ms@.len() - p,
                {
                    p = p + 1;
                }
                assert(ks[i as int].1 == Some(m@));
                if p < ms.len() && !name_less(m.as_str(), ms[p].as_str()) {
                    proof {
                        lemma_name_lt_total(old_ms[p as int], m@);
                        assert(old_ms.contains(m@));
                        assert forall|x: Seq<char>| old_ms.contains(x) <==> exists|k: int|
                            0 <= k < i + 1 && #[trigger] ks[k].1 == Some(x) by {
                            if x == m@ {
                                assert(ks[i as int].1 == Some(x));
                            }
                        }
                    }
                } else {
                    ms.insert(p, m.clone());
                    proof {
                        let n = names_view(ms@);
                        assert(n =~= old_ms.insert(p as int, m@));
                        if p < old_ms.len() {
                            lemma_name_lt_total(old_ms[p as int], m@);
                        }
                        assert forall|b: int| p < b < n.len() implies name_lt(m@, #[trigger] n[b]) by {
                            if b > p + 1 {
                                assert(name_lt(old_ms[p as int], old_ms[b - 1]));
                                lemma_name_lt_transitive(m@, old_ms[p as int], old_ms[b - 1]);
                            }
                        }
                        assert forall|a: int, b: int| 0 <= a < b < n.len() implies name_lt(
                            #[trigger] n[a],
                            #[trigger] n[b],
                        ) by {
                            if a < p && b > p {
                                lemma_name_lt_transitive(n[a], m@, n[b]);
                            }
                            if a > p {
                                assert(n[a] == old_ms[a - 1] && n[b] == old_ms[b - 1]);
                            }
                            if b < p {
                                assert(n[a] == old_ms[a] && n[b] == old_ms[b]);
                            }
                        }
                        assert forall|x: Seq<char>| n.contains(x) <==> exists|k: int|
                            0 <= k < i + 1 && #[trigger] ks[k].1 == Some(x) by {
                            if n.contains(x) {
                                let a = choose|a: int| 0 <= a < n.len() && n[a] == x;
                                if a < p {
                                    assert(old_ms[a] == x);
                                    assert(old_ms.contains(x));
                                } else if a > p {
                                    assert(old_ms[a - 1] == x);
                                    assert(old_ms.contains(x));
                                } else {
                                    assert(ks[i as int].1 == Some(x));
                                }
                            }
                            if exists|k: int| 0 <= k < i + 1 && #[trigger] ks[k].1 == Some(x) {
                                if x == m@ {
                                    assert(n[p as int] == x);
                                } else {
                                    let k = choose|k: int| 0 <= k < i + 1 && #[trigger] ks[k].1 == Some(x);
                                    assert(k < i);
                                    assert(old_ms.contains(x));
                                    let a = choose|a: int| 0 <= a < old_ms.len() && old_ms[a] == x;
                                    if a < p {
                                        assert(n[a] == x);
                                    } else {
                                        assert(n[a + 1] == x);
                                    }
                                }
                            }
                        }
                    }
                }
            },
            None => {
                proof {
                    assert forall|x: Seq<char>| old_ms.contains(x) <==> exists|k: int|
                        0 <= k < i + 1 && #[trigger] ks[k].1 == Some(x) by {
                        if exists|k: int| 0 <= k < i + 1 && #[trigger] ks[k].1 == Some(x) {
                            let k = choose|k: int| 0 <= k < i + 1 && #[trigger] ks[k].1 == Some(x);
                            assert(k < i);
                        }
                    }
                }
            },
        }
        i = i + 1;
    }
    ms
}

/// Appends the instances of every model group to `instances`, one group
/// after the other, and returns the draw calls over them.
fn group_pass<G>(
    keys: &Vec<Placed>,
    arrays: &[Array<G>],
    light: bool,
    ms: &Vec<String>,
    instances: &mut Vec<InstanceSource>,
) -> (ranges: Vec<DrawRange>)
    requires
        models_listed(placed_view(keys@), names_view(ms@)),
        old(instances)@.len() + placed_total(placed_view(keys@), arrays@, keys@.len() as int)
            <= MAX_INSTANCES,
    ensures
        final(instances)@ == old(instances)@ + grouped_instances(
            placed_view(keys@),
            arrays@,
            light,
            names_view(ms@),
            ms@.len() as int,
        ),
        range_views(ranges@) == draw_ranges(
            placed_view(keys@),
            arrays@,
            light,
            names_view(ms@),
            old(instances)@.len() as int,
        ),
{
    let ghost ks = placed_view(keys@);
    let ghost msv = names_view(ms@);
    let ghost base = instances@;
    let ghost n = keys@.len() as int;
    let start0 = instances.len();
    proof {
        lemma_placed_monotone(ks, arrays@, 0, n);
    }
    let mut ranges: Vec<DrawRange> = Vec::new();
    let mut j: usize = 0;
    while j < ms.len()
        invariant
            j <= msv.len(),
            msv.len() == ms@.len(),
            ks == placed_view(keys@),
            msv == names_view(ms@),
            n == ks.len(),
            models_listed(ks, msv),
            start0 == base.len(),
            base.len() + placed_total(ks, arrays@, n) <= MAX_INSTANCES,
            instances@ == base + grouped_instances(ks, arrays@, light, msv, j as int),
            range_views(ranges@) == group_ranges(ks, arrays@, light, msv, start0 as int, j as int),
        decreases msv.len() - j,
    {
        let ghost done = grouped_instances(ks, arrays@, light, msv, j as int);
        proof {
            lemma_grouped_len(ks, arrays@, light, msv, j + 1);
            lemma_selected_le_placed(ks, arrays@, prefix_set(msv, j + 1), n);
        }
        let start = instances.len();
        let mut i: usize = 0;
        while i < keys.len()
            invariant
                i <= n,
                j < msv.len(),
                n == ks.len(),
                ks == placed_view(keys@),
                msv == names_view(ms@),
                start == base.len() + done.len(),
                instances@ == base + done + group_instances(ks, arrays@, light, msv[j as int], i as int),
                base.len() + done.len() + group_instances(ks, arrays@, light, msv[j as int], n).len()
                    <= MAX_INSTANCES,
            decreases n - i,
        {
            let here = match &keys[i].model {
                Some(m) => same_name(m.as_str(), ms[j].as_str()),
                None => false,
            };
            assert(here == (ks[i as int].1 == Some(msv[j as int])));
            if here {
                let exp = eval_array(arrays, keys[i].name.as_str());
                let ghost before = instances@;
                let ghost mine = expanded(ks, arrays@, light, i as int);
                proof {
                    lemma_group_monotone(ks, arrays@, light, msv[j as int], i + 1, n);
                }
                let mut k: usize = 0;
                while k < exp.len()
                    invariant
                        k <= exp@.len(),
                        exp@.len() == mine.len(),
                        mine == exp@.map_values(|x: Option<ArrayOffset>| source_of(light, i as int, x)),
                        instances@ == before + mine.take(k as int),
                        before.len() + mine.len() <= MAX_INSTANCES,
                    decreases exp@.len() - k,
                {
                    let placement = if light {
                        Placement::Light(i)
                    } else {
                        Placement::Object(i)
                    };
                    instances.push(InstanceSource { placement, offset: exp[k] });
                    assert(mine.take(k + 1) =~= mine.take(k as int).push(mine[k as int]));
                    k = k + 1;
                }
                assert(mine.take(k as int) =~= mine);
            }
            assert(instances@ =~= base + done + group_instances(ks, arrays@, light, msv[j as int], i + 1));
            i = i + 1;
        }
        let end = instances.len();
        if end > start {
            ranges.push(DrawRange { model: Some(ms[j].clone()), start: start as u32, end: end as u32 });
        }
        assert(range_views(ranges@) =~= group_ranges(ks, arrays@, light, msv, start0 as int, j + 1));
        assert(instances@ =~= base + grouped_instances(ks, arrays@, light, msv, j + 1));
        j = j + 1;
    }
    if ranges.len() == 0 {
        proof {
            lemma_group_ranges_tile(ks, arrays@, light, msv, start0 as int, msv.len() as int);
        }
        ranges.push(DrawRange { model: None, start: start0 as u32, end: start0 as u32 });
        assert(range_views(ranges@) =~= seq![(None::<Seq<char>>, start0 as int, start0 as int)]);
    }
    ranges
}

/// One frame's draw list, with the instances named by their sources: the
/// caller composes each source's transform and writes it to the GPU.
pub struct PreFrameData {
    /// The instances that fill the light block, in order.
    pub light_slots: Vec<InstanceSource>,
    /// How many entries of the light block are in use.
    pub num_lights: u32,
    /// The draw calls for objects.
    pub objects: Vec<DrawRange>,
    /// The draw calls for lights, over the instances after the objects'.
    pub lights: Vec<DrawRange>,
    /// The instance buffer: the objects' instances, then the lights'.
    pub instances: Vec<InstanceSource>,
}

/// The number of instances that a frame of `store` puts in the instance
/// buffer.
pub open spec fn instance_total<T, C, G>(store: GameObjectStore<T, C, G>) -> int {
    placed_total(object_keys(store.spec_objects()), store.spec_arrays(), store.spec_objects().len() as int)
        + placed_total(light_keys(store.spec_lights()), store.spec_arrays(), store.spec_lights().len() as int)
}

/// The object instances of a frame, given the object models `ms`.
pub open spec fn object_instances<T, C, G>(store: GameObjectStore<T, C, G>, ms: Seq<Seq<char>>) -> Seq<InstanceSource> {
    grouped_instances(object_keys(store.spec_objects()), store.spec_arrays(), false, ms, ms.len() as int)
}

/// The light instances of a frame, given the light models `ls`.
pub open spec fn light_instances<T, C, G>(store: GameObjectStore<T, C, G>, ls: Seq<Seq<char>>) -> Seq<InstanceSource> {
    grouped_instances(light_keys(store.spec_lights()), store.spec_arrays(), true, ls, ls.len() as int)
}

/// `r` is the frame of `store`, where `ms` and `ls` list the models of its
/// objects and of its lights.
pub open spec fn frame_with<T, C, G>(
    store: GameObjectStore<T, C, G>,
    ms: Seq<Seq<char>>,
    ls: Seq<Seq<char>>,
    r: PreFrameData,
) -> bool {
    let oks = object_keys(store.spec_objects());
    let lks = light_keys(store.spec_lights());
    let arrays = store.spec_arrays();
    let obj = object_instances(store, ms);
    &&& models_listed(oks, ms)
    &&& models_listed(lks, ls)
    &&& r.instances@ == obj + light_instances(store, ls)
    &&& range_views(r.objects@) == draw_ranges(oks, arrays, false, ms, 0)
    &&& range_views(r.lights@) == draw_ranges(lks, arrays, true, ls, obj.len() as int)
    &&& r.light_slots@ == light_block(store)
    &&& r.num_lights == light_block(store).len()
}

/// `r` is the frame of `store`.
pub open spec fn is_frame_of<T, C, G>(store: GameObjectStore<T, C, G>, r: PreFrameData) -> bool {
    exists|ms: Seq<Seq<char>>, ls: Seq<Seq<char>>| #[trigger] frame_with(store, ms, ls, r)
}

/// Counts the instances of the placements that have a model, giving up
/// once the count passes `limit`.
fn placed_count<G>(keys: &Vec<Placed>, arrays: &[Array<G>], limit: usize) -> (r: Option<usize>)
    ensures
        match r {
            Some(c) => c == placed_total(placed_view(keys@), arrays@, keys@.len() as int) && c <= limit,
            None => placed_total(placed_view(keys@), arrays@, keys@.len() as int) > limit,
        },
{
    let ghost ks = placed_view(keys@);
    let mut total: usize = 0;
    let mut i: usize = 0;
    while i < keys.len()
        invariant
            i <= keys@.len(),
            ks == placed_view(keys@),
            ks.len() == keys@.len(),
            total == placed_total(ks, arrays@, i as int),
            total <= limit,
        decreases keys@.len() - i,
    {
        if keys[i].model.is_some() {
            let n = eval_array(arrays, keys[i].name.as_str()).len();
            if n > limit - total {
                proof {
                    lemma_placed_monotone(ks, arrays@, i + 1, ks.len() as int);
                }
                return None;
            }
            total = total + n;
        }
        i = i + 1;
    }
    Some(total)
}


/// The number of instances that the first `n` arrays give to `target`.
pub open spec fn targeted_count<G>(arrays: Seq<Array<G>>, target: Seq<char>, n: int) -> int
    decreases n,
{
    if n <= 0 {
        0
    } else {
        targeted_count(arrays, target, n - 1) + if arrays[n - 1].target@ == target {
            arrays[n - 1].num_instances as int
        } else {
            0
        }
    }
}

proof fn lemma_offsets_len<G>(arrays: Seq<Array<G>>, target: Seq<char>, n: int)
    ensures
        array_offsets(arrays, target, n).len() == targeted_count(arrays, target, n),
    decreases n,
{
    if n > 0 {
        lemma_offsets_len(arrays, target, n - 1);
    }
}

/// A placement that no array targets gives exactly one instance; one that
/// arrays target gives the sum of their counts: arrays add up, they do not
/// multiply.
pub proof fn lemma_expansion_count<G>(arrays: Seq<Array<G>>, target: Seq<char>)
    ensures
        !targeted(arrays, target) ==> expansion(arrays, target).len() == 1,
        targeted(arrays, target) ==> expansion(arrays, target).len() == targeted_count(
            arrays,
            target,
            arrays.len() as int,
        ),
{
    lemma_offsets_len(arrays, target, arrays.len() as int);
}

/// Every instance of a group comes from the kind of placement it was built for.
proof fn lemma_group_kind<G>(
    ks: Seq<(Seq<char>, Option<Seq<char>>)>,
    arrays: Seq<Array<G>>,
    light: bool,
    m: Seq<char>,
    n: int,
)
    ensures
        forall|k: int|
            0 <= k < group_instances(ks, arrays, light, m, n).len() ==> (#[trigger] group_instances(
                ks,
                arrays,
                light,
                m,
                n,
            )[k].placement is Light) == light,
    decreases n,
{
    if n > 0 {
        lemma_group_kind(ks, arrays, light, m, n - 1);
        let prev = group_instances(ks, arrays, light, m, n - 1);
        let g = group_instances(ks, arrays, light, m, n);
        assert forall|k: int| 0 <= k < g.len() implies (#[trigger] g[k].placement is Light) == light by {
            if k >= prev.len() {
                assert(g[k] == expanded(ks, arrays, light, n - 1)[k - prev.len()]);
            } else {
                assert(g[k] == prev[k]);
            }
        }
    }
}

proof fn lemma_grouped_kind<G>(
    ks: Seq<(Seq<char>, Option<Seq<char>>)>,
    arrays: Seq<Array<G>>,
    light: bool,
    ms: Seq<Seq<char>>,
    j: int,
)
    ensures
        forall|k: int|
            0 <= k < grouped_instances(ks, arrays, light, ms, j).len() ==> (
            #[trigger] grouped_instances(ks, arrays, light, ms, j)[k].placement is Light) == light,
    decreases j,
{
    if j > 0 {
        lemma_grouped_kind(ks, arrays, light, ms, j - 1);
        lemma_group_kind(ks, arrays, light, ms[j - 1], ks.len() as int);
        let prev = grouped_instances(ks, arrays, light, ms, j - 1);
        let g = grouped_instances(ks, arrays, light, ms, j);
        let last = group_instances(ks, arrays, light, ms[j - 1], ks.len() as int);
        assert forall|k: int| 0 <= k < g.len() implies (#[trigger] g[k].placement is Light) == light by {
            if k >= prev.len() {
                assert(g[k] == last[k - prev.len()]);
            } else {
                assert(g[k] == prev[k]);
            }
        }
    }
}

proof fn lemma_draw_ranges_tile<G>(
    ks: Seq<(Seq<char>, Option<Seq<char>>)>,
    arrays: Seq<Array<G>>,
    light: bool,
    ms: Seq<Seq<char>>,
    start: int,
)
    ensures
        tiles(
            draw_ranges(ks, arrays, light, ms, start),
            start,
            start + grouped_instances(ks, arrays, light, ms, ms.len() as int).len(),
        ),
{
    lemma_group_ranges_tile(ks, arrays, light, ms, start, ms.len() as int);
}

/// The object draw calls lie one after the other, without gap or overlap,
/// over the object instances at the front of the buffer; the light draw calls
/// continue in the same way over the light instances after them, to the end.
pub proof fn lemma_ranges_cover<T, C, G>(store: GameObjectStore<T, C, G>, r: PreFrameData)
    requires
        is_frame_of(store, r),
    ensures
        exists|n_obj: int|
            {
                &&& 0 <= n_obj <= r.instances@.len()
                &&& forall|k: int|
                    0 <= k < r.instances@.len() ==> ((#[trigger] r.instances@[k].placement is Object)
                        <==> k < n_obj)
                &&& tiles(range_views(r.objects@), 0, n_obj)
                &&& tiles(range_views(r.lights@), n_obj, r.instances@.len() as int)
            },
{
    let (ms, ls) = choose|ms: Seq<Seq<char>>, ls: Seq<Seq<char>>| #[trigger] frame_with(store, ms, ls, r);
    let oks = object_keys(store.spec_objects());
    let lks = light_keys(store.spec_lights());
    let arrays = store.spec_arrays();
    let obj = object_instances(store, ms);
    let lit = light_instances(store, ls);
    lemma_draw_ranges_tile(oks, arrays, false, ms, 0);
    lemma_draw_ranges_tile(lks, arrays, true, ls, obj.len() as int);
    lemma_grouped_kind(oks, arrays, false, ms, ms.len() as int);
    lemma_grouped_kind(lks, arrays, true, ls, ls.len() as int);
    let n_obj = obj.len() as int;
    assert forall|k: int| 0 <= k < r.instances@.len() implies ((
    #[trigger] r.instances@[k].placement is Object) <==> k < n_obj) by {
        if k < n_obj {
            assert(r.instances@[k] == obj[k]);
        } else {
            assert(r.instances@[k] == lit[k - n_obj]);
        }
    }
}

/// The light block holds one entry for each light instance, up to its
/// capacity: with more light instances than that, it is full.
pub proof fn lemma_light_cap<T, C, G>(store: GameObjectStore<T, C, G>, r: PreFrameData)
    requires
        is_frame_of(store, r),
    ensures
        ({
            let n = all_instances(
                light_keys(store.spec_lights()),
                store.spec_arrays(),
                true,
                store.spec_lights().len() as int,
            ).len();
            &&& n > MAX_LIGHTS ==> r.num_lights == MAX_LIGHTS && r.light_slots@.len() == MAX_LIGHTS
            &&& n <= MAX_LIGHTS ==> r.num_lights == n && r.light_slots@.len() == n
        }),
{
    let (ms, ls) = choose|ms: Seq<Seq<char>>, ls: Seq<Seq<char>>| #[trigger] frame_with(store, ms, ls, r);
}

/// Two sorted lists of the same names are the same list.
proof fn lemma_sorted_unique(a: Seq<Seq<char>>, b: Seq<Seq<char>>)
    requires
        names_sorted(a),
        names_sorted(b),
        forall|m: Seq<char>| a.contains(m) <==> b.contains(m),
    ensures
        a == b,
    decreases a.len(),
{
    if a.len() == 0 {
        if b.len() > 0 {
            assert(b.contains(b[0]));
        }
        assert(a =~= b);
    } else {
        assert(a.contains(a[0]));
        assert(b.contains(a[0]));
        assert(b.contains(b[0]));
        assert(a.contains(b[0]));
        if a[0] != b[0] {
            let i = choose|i: int| 0 <= i < a.len() && a[i] == b[0];
            let k = choose|k: int| 0 <= k < b.len() && b[k] == a[0];
            assert(i > 0 && k > 0);
            assert(name_lt(a[0], a[i]));
            assert(name_lt(b[0], b[k]));
            lemma_name_lt_strict(a[0], b[0]);
        }
        let a2 = a.drop_first();
        let b2 = b.drop_first();
        assert forall|m: Seq<char>| a2.contains(m) <==> b2.contains(m) by {
            if a2.contains(m) {
                let i = choose|i: int| 0 <= i < a2.len() && a2[i] == m;
                assert(a[i + 1] == m);
                assert(name_lt(a[0], a[i + 1]));
                lemma_name_lt_strict(m, m);
                assert(b.contains(m));
                let k = choose|k: int| 0 <= k < b.len() && b[k] == m;
                assert(k != 0);
                assert(b2[k - 1] == m);
            }
            if b2.contains(m) {
                let k = choose|k: int| 0 <= k < b2.len() && b2[k] == m;
                assert(b[k + 1] == m);
                assert(name_lt(b[0], b[k + 1]));
                lemma_name_lt_strict(m, m);
                assert(a.contains(m));
                let i = choose|i: int| 0 <= i < a.len() && a[i] == m;
                assert(i != 0);
                assert(a2[i - 1] == m);
            }
        }
        lemma_sorted_unique(a2, b2);
        assert(a =~= seq![a[0]] + a2);
        assert(b =~= seq![b[0]] + b2);
    }
}

/// Compiling an unchanged store twice gives the same frame: the same
/// instance buffer, draw calls and light block.
pub proof fn lemma_pre_frame_deterministic<T, C, G>(
    store: GameObjectStore<T, C, G>,
    r1: PreFrameData,
    r2: PreFrameData,
)
    requires
        is_frame_of(store, r1),
        is_frame_of(store, r2),
    ensures
        r1.instances@ == r2.instances@,
        range_views(r1.objects@) == range_views(r2.objects@),
        range_views(r1.lights@) == range_views(r2.lights@),
        r1.light_slots@ == r2.light_slots@,
        r1.num_lights == r2.num_lights,
{
    let (ms1, ls1) = choose|ms: Seq<Seq<char>>, ls: Seq<Seq<char>>| #[trigger] frame_with(store, ms, ls, r1);
    let (ms2, ls2) = choose|ms: Seq<Seq<char>>, ls: Seq<Seq<char>>| #[trigger] frame_with(store, ms, ls, r2);
    lemma_sorted_unique(ms1, ms2);
    lemma_sorted_unique(ls1, ls2);
}

/// A store with no objects and no lights compiles to an empty instance
/// buffer, an empty light block, and draw lists that hold only the empty
/// closing call.
pub proof fn lemma_empty_frame<T, C, G>(store: GameObjectStore<T, C, G>, r: PreFrameData)
    requires
        is_frame_of(store, r),
        store.spec_objects().len() == 0,
        store.spec_lights().len() == 0,
    ensures
        r.instances@.len() == 0,
        r.num_lights == 0,
        r.light_slots@.len() == 0,
        range_views(r.objects@) == seq![(None::<Seq<char>>, 0int, 0int)],
        range_views(r.lights@) == seq![(None::<Seq<char>>, 0int, 0int)],
{
    let (ms, ls) = choose|ms: Seq<Seq<char>>, ls: Seq<Seq<char>>| #[trigger] frame_with(store, ms, ls, r);
    if ms.len() > 0 {
        assert(ms.contains(ms[0]));
    }
    if ls.len() > 0 {
        assert(ls.contains(ls[0]));
    }
    assert(all_instances(light_keys(store.spec_lights()), store.spec_arrays(), true, 0).len() == 0);
}

impl<T, C, G> GameObjectStore<T, C, G> {
    /// The instances that fill the light block.
    fn light_slots(&self) -> (r: Vec<InstanceSource>)
        ensures
            r@ == light_block(*self),
    {
        let lights = self.lights();
        let arrays = self.arrays();
        let ghost ks = light_keys(lights@);
        let mut slots: Vec<InstanceSource> = Vec::new();
        let mut i: usize = 0;
        while i < lights.len()
            invariant
                i <= lights@.len(),
                ks == light_keys(lights@),
                lights@ == self.spec_lights(),
                arrays@ == self.spec_arrays(),
                slots@ == capped(all_instances(ks, arrays@, true, i as int)),
            decreases lights@.len() - i,
        {
            let exp = eval_array(arrays, lights[i].name.as_str());
            let ghost before = all_instances(ks, arrays@, true, i as int);
            let ghost whole = all_instances(ks, arrays@, true, i + 1);
            let ghost mine = expanded(ks, arrays@, true, i as int);
            assert(whole == before + mine);
            assert(exp@ == expansion(arrays@, ks[i as int].0));
            let mut k: usize = 0;
            while k < exp.len() && slots.len() < MAX_LIGHTS
                invariant
                    k <= exp@.len(),
                    i < lights@.len(),
                    exp@.len() == mine.len(),
                    mine == exp@.map_values(|x: Option<ArrayOffset>| source_of(true, i as int, x)),
                    slots@ == capped(before + mine.take(k as int)),
                decreases exp@.len() - k,
            {
                assert((before + mine.take(k as int)).len() < MAX_LIGHTS);
                slots.push(InstanceSource { placement: Placement::Light(i), offset: exp[k] });
                assert(before + mine.take(k + 1) =~= (before + mine.take(k as int)).push(mine[k as int]));
                k = k + 1;
            }
            proof {
                if k == exp@.len() {
                    assert(mine.take(k as int) =~= mine);
                } else {
                    assert(slots@.len() == MAX_LIGHTS);
                    assert(capped(whole) =~= capped(before + mine.take(k as int)));
                }
            }
            i = i + 1;
        }
        slots
    }

    /// Compiles the store into one frame's draw list. The store is left as
    /// it is. Objects are drawn grouped by model, the models in name order
    /// and within a model the objects in name order, each expanded through
    /// the arrays that target it; one draw call covers each model that has
    /// an instance. Lights follow in the same way, after the objects in the
    /// same buffer. The light block takes every light's instances, in name
    /// order, up to its capacity.
    pub fn pre_frame(&self) -> (r: PreFrameData)
        requires
            self.wf(),
            instance_total(*self) <= MAX_INSTANCES,
        ensures
            is_frame_of(*self, r),
    {
        let light_slots = self.light_slots();
        let num_lights = light_slots.len() as u32;
        let arrays = self.arrays();
        let okeys = object_placed(self.objects());
        let lkeys = light_placed(self.lights());
        let ms = model_list(&okeys);
        let ls = model_list(&lkeys);
        let mut instances: Vec<InstanceSource> = Vec::new();
        proof {
            lemma_placed_monotone(placed_view(lkeys@), arrays@, 0, lkeys@.len() as int);
            lemma_placed_monotone(placed_view(okeys@), arrays@, 0, okeys@.len() as int);
            assert(placed_view(okeys@) == object_keys(self.spec_objects()));
            assert(placed_view(okeys@).len() == okeys@.len());
            assert(object_keys(self.spec_objects()).len() == self.spec_objects().len());
            assert(placed_view(lkeys@).len() == lkeys@.len());
            assert(light_keys(self.spec_lights()).len() == self.spec_lights().len());
            assert(placed_view(lkeys@) == light_keys(self.spec_lights()));
            assert(arrays@ == self.spec_arrays());
        }
        let objects = group_pass(&okeys, arrays, false, &ms, &mut instances);
        proof {
            let ks = placed_view(okeys@);
            let msv = names_view(ms@);
            lemma_grouped_len(ks, arrays@, false, msv, msv.len() as int);
            lemma_selected_le_placed(ks, arrays@, prefix_set(msv, msv.len() as int), ks.len() as int);
        }
        let lights = group_pass(&lkeys, arrays, true, &ls, &mut instances);
        let r = PreFrameData { light_slots, num_lights, objects, lights, instances };
        assert(frame_with(*self, names_view(ms@), names_view(ls@), r));
        r
    }

    /// Whether a frame of this store fits the instance buffer, as
    /// `pre_frame` requires.
    pub fn fits_instance_buffer(&self) -> (r: bool)
        ensures
            r == (instance_total(*self) <= MAX_INSTANCES),
    {
        let arrays = self.arrays();
        let okeys = object_placed(self.objects());
        let lkeys = light_placed(self.lights());
        proof {
            assert(placed_view(okeys@).len() == okeys@.len());
            assert(object_keys(self.spec_objects()).len() == self.spec_objects().len());
            assert(placed_view(lkeys@).len() == lkeys@.len());
            assert(light_keys(self.spec_lights()).len() == self.spec_lights().len());
            lemma_placed_monotone(placed_view(lkeys@), arrays@, 0, lkeys@.len() as int);
        }
        match placed_count(&okeys, arrays, MAX_INSTANCES) {
            None => false,
            Some(a) => match placed_count(&lkeys, arrays, MAX_INSTANCES - a) {
                None => false,
                Some(_) => true,
            },
        }
    }
}

} // verus!
