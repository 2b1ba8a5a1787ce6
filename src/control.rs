//! Scheduling of one control tick.
//!
//! Every non-root block contributes an inward unit.  The units are stratified by
//! depth; in the inward pass a unit hands its output to its parent, which sits
//! one layer up (or, for the first layer, to the brain of its creature), and in
//! the outward pass a unit reads what its parent broadcast.  The plan computed
//! here fixes which unit feeds which, and in what order the units run.
use vstd::prelude::*;

verus! {

/// The part of a block's inward signal that decides where it goes.
#[derive(Clone, Copy, Debug)]
pub struct InwardUnit {
    pub nn_id: usize,
    pub parent_nn_id: usize,
    pub depth: usize,
    /// Side of the parent this block hangs from (0 = up, 1 = down, 2 = left, 3 = right).
    pub anchor_pos: usize,
}

/// Where a unit's inward output is delivered.
#[derive(PartialEq, Eq, Structural, Clone, Copy, Debug)]
pub enum Target {
    /// Another inward unit, by position.
    Block(usize),
    /// A brain, by position.
    Brain(usize),
}

/// The schedule of one tick.
pub struct TickPlan {
    /// Unit positions grouped by depth, shallowest layer first, each layer in
    /// the order the units were given.
    pub layers: Vec<Vec<usize>>,
    /// The layer of each unit.
    pub layer_of: Vec<usize>,
    /// Where each unit's inward output goes; `None` when its parent cannot be
    /// found, which the caller must treat as a broken creature.
    pub targets: Vec<Option<Target>>,
    /// Unit positions in inward-pass order: deepest layer first.
    pub inward_order: Vec<usize>,
    /// Unit positions in outward-pass order: shallowest layer first.
    pub outward_order: Vec<usize>,
}

/// The layers partition the units by depth, shallowest first.
pub open spec fn stratified(units: Seq<InwardUnit>, layers: Seq<Vec<usize>>, layer_of: Seq<usize>) -> bool {
    &&& layer_of.len() == units.len()
    &&& forall|u: int| 0 <= u < units.len() ==> #[trigger] layer_of[u] < layers.len()
    &&& forall|u: int, v: int|
        0 <= u < units.len() && 0 <= v < units.len() ==> (units[u].depth < units[v].depth
            <==> #[trigger] layer_of[u] < #[trigger] layer_of[v])
    &&& forall|l: int| 0 <= l < layers.len() ==> (#[trigger] layers[l])@.len() > 0
    &&& forall|l: int, k: int|
        0 <= l < layers.len() && 0 <= k < layers[l]@.len() ==> (#[trigger] layers[l]@[k]) < units.len()
            && layer_of[layers[l]@[k] as int] == l
    &&& forall|l: int, k: int, m: int|
        0 <= l < layers.len() && 0 <= k < m < layers[l]@.len() ==> (#[trigger] layers[l]@[k])
            < #[trigger] layers[l]@[m]
    &&& forall|u: int| 0 <= u < units.len() ==> (#[trigger] layers[layer_of[u] as int])@.contains(u as usize)
}

/// `t` is where unit `u` delivers: the first unit of the layer just above whose
/// id is the parent id of `u`, or for the first layer the first brain with that
/// id; `None` exactly when there is none.
pub open spec fn route_ok(
    units: Seq<InwardUnit>,
    brains: Seq<usize>,
    layers: Seq<Vec<usize>>,
    layer_of: Seq<usize>,
    u: int,
    t: Option<Target>,
) -> bool {
    match t {
        None => orphaned(units, brains, layers, layer_of, u),
        Some(Target::Block(v)) => {
            &&& layer_of[u] > 0
            &&& exists|k: int|
                0 <= k < layers[layer_of[u] - 1]@.len() && #[trigger] layers[layer_of[u] - 1]@[k] == v
                    && units[v as int].nn_id == units[u].parent_nn_id && forall|j: int|
                    0 <= j < k ==> units[#[trigger] layers[layer_of[u] - 1]@[j] as int].nn_id
                        != units[u].parent_nn_id
        },
        Some(Target::Brain(b)) => {
            &&& layer_of[u] == 0
            &&& b < brains.len()
            &&& brains[b as int] == units[u].parent_nn_id
            &&& forall|c: int| 0 <= c < b ==> #[trigger] brains[c] != units[u].parent_nn_id
        },
    }
}

/// No unit of the layer above `u` (no brain, for the first layer) carries the
/// parent id of `u`.
pub open spec fn orphaned(
    units: Seq<InwardUnit>,
    brains: Seq<usize>,
    layers: Seq<Vec<usize>>,
    layer_of: Seq<usize>,
    u: int,
) -> bool {
    if layer_of[u] == 0 {
        forall|c: int| 0 <= c < brains.len() ==> #[trigger] brains[c] != units[u].parent_nn_id
    } else {
        forall|k: int|
            0 <= k < layers[layer_of[u] - 1]@.len() ==> units[#[trigger] layers[layer_of[u] - 1]@[k] as int].nn_id
                != units[u].parent_nn_id
    }
}

/// Groups the units by depth, shallowest first, keeping the given order inside
/// each group.
pub fn stratify(units: &Vec<InwardUnit>) -> (r: (Vec<Vec<usize>>, Vec<usize>))
    ensures
        stratified(units@, r.0@, r.1@),
{
    let n = units.len();
    let mut layer_of: Vec<usize> = Vec::new();
    let mut done: Vec<bool> = Vec::new();
    let mut k: usize = 0;
    while k < n
        invariant
            k <= n,
            n == units@.len(),
            layer_of@.len() == k,
            done@.len() == k,
            forall|q: int| 0 <= q < k ==> !done@[q],
        decreases n - k,
    {
        layer_of.push(0);
        done.push(false);
        k = k + 1;
    }
    let mut layers: Vec<Vec<usize>> = Vec::new();
    let mut bound: usize = 0;
    let mut started = false;
    loop
        invariant
            n == units@.len(),
            layer_of@.len() == n,
            done@.len() == n,
            started ==> layers@.len() > 0,
            forall|q: int| 0 <= q < n ==> (done@[q] <==> started && units[q].depth <= bound),
            forall|q: int| 0 <= q < n && #[trigger] done@[q] ==> layer_of@[q] < layers@.len(),
            forall|q: int, w: int|
                0 <= q < n && 0 <= w < n && done@[q] && done@[w] ==> (units[q].depth < units[w].depth
                    <==> #[trigger] layer_of@[q] < #[trigger] layer_of@[w]),
            forall|l: int| 0 <= l < layers@.len() ==> (#[trigger] layers@[l])@.len() > 0,
            forall|l: int, j: int|
                0 <= l < layers@.len() && 0 <= j < layers@[l]@.len() ==> (#[trigger] layers@[l]@[j]) < n
                    && done@[layers@[l]@[j] as int] && layer_of@[layers@[l]@[j] as int] == l,
            forall|l: int, j: int, m: int|
                0 <= l < layers@.len() && 0 <= j < m < layers@[l]@.len() ==> (#[trigger] layers@[l]@[j])
                    < #[trigger] layers@[l]@[m],
            forall|q: int|
                0 <= q < n && #[trigger] done@[q] ==> layers@[layer_of@[q] as int]@.contains(q as usize),
        ensures
            forall|q: int| 0 <= q < n ==> done@[q],
        decreases if started {
            usize::MAX - bound
        } else {
            usize::MAX + 1
        },
    {
        // the smallest depth not yet placed
        let mut best: Option<usize> = None;
        let mut q: usize = 0;
        while q < n
            invariant
                n == units@.len(),
                done@.len() == n,
                q <= n,
                best is None ==> forall|w: int| 0 <= w < q ==> done@[w],
                best is Some ==> (exists|w: int| 0 <= w < q && !done@[w] && units[w].depth == best->Some_0)
                    && forall|w: int| 0 <= w < q && !done@[w] ==> best->Some_0 <= units[w].depth,
            decreases n - q,
        {
            if !done[q] {
                match best {
                    None => {
                        best = Some(units[q].depth);
                    },
                    Some(b) => {
                        if units[q].depth < b {
                            best = Some(units[q].depth);
                        }
                    },
                }
            }
            q = q + 1;
        }
        match best {
            None => {
                break ;
            },
            Some(depth) => {
                let ghost w0 = choose|w: int| 0 <= w < n && !done@[w] && units[w].depth == depth;
                let l = layers.len();
                let mut layer: Vec<usize> = Vec::new();
                let ghost done0 = done@;
                let ghost layer_of0 = layer_of@;
                let ghost layers0 = layers@;
                let ghost started0 = started;
                let ghost bound0 = bound;
                assert(started0 ==> bound0 < depth);
                let mut q: usize = 0;
                while q < n
                    invariant
                        n == units@.len(),
                        done@.len() == n,
                        layer_of@.len() == n,
                        q <= n,
                        0 <= w0 < n,
                        !done0[w0],
                        units[w0].depth == depth,
                        forall|w: int| 0 <= w < n && !done0[w] ==> depth <= units[w].depth,
                        forall|w: int|
                            0 <= w < n ==> done@[w] == (done0[w] || (w < q && units[w].depth == depth)),
                        forall|w: int|
                            0 <= w < n ==> #[trigger] layer_of@[w] == if !done0[w] && w < q && units[w].depth
                                == depth {
                                l
                            } else {
                                layer_of0[w]
                            },
                        forall|j: int| 0 <= j < layer@.len() ==> (#[trigger] layer@[j]) < q && units[layer@[j] as int].depth == depth
                            && !done0[layer@[j] as int],
                        forall|j: int, m: int| 0 <= j < m < layer@.len() ==> (#[trigger] layer@[j]) < #[trigger] layer@[m],
                        forall|w: int|
                            0 <= w < q && !done0[w] && units[w].depth == depth ==> layer@.contains(w as usize),
                    decreases n - q,
                {
                    let ghost lay0 = layer@;
                    if !done[q] && units[q].depth == depth {
                        layer.push(q);
                        layer_of.set(q, l);
                        done.set(q, true);
                    }
                    proof {
                        assert forall|w: int|
                            0 <= w <= q && !done0[w] && units[w].depth == depth implies layer@.contains(w as usize) by {
                            if w == q {
                                assert(layer@[layer@.len() - 1] == w);
                            } else {
                                let j = choose|j: int| 0 <= j < lay0.len() && lay0[j] == w as usize;
                                assert(layer@[j] == w);
                            }
                        }
                    }
                    q = q + 1;
                }
                layers.push(layer);
                bound = depth;
                started = true;
                proof {
                    assert(layers@[l as int] == layer);
                    assert(layer@.contains(w0 as usize));
                    assert forall|q: int| 0 <= q < n implies (done@[q] <==> started && units[q].depth <= bound) by {
                        if !done0[q] {
                            assert(depth <= units[q].depth);
                        }
                    }
                    assert forall|q: int, w: int|
                        0 <= q < n && 0 <= w < n && done@[q] && done@[w] implies (units[q].depth < units[w].depth
                            <==> #[trigger] layer_of@[q] < #[trigger] layer_of@[w]) by {
                        if done0[q] {
                            assert(layer_of@[q] == layer_of0[q]);
                        }
                        if done0[w] {
                            assert(layer_of@[w] == layer_of0[w]);
                        }
                    }
                    assert forall|ll: int, j: int|
                        0 <= ll < layers@.len() && 0 <= j < layers@[ll]@.len() implies (#[trigger] layers@[ll]@[j]) < n
                            && done@[layers@[ll]@[j] as int] && layer_of@[layers@[ll]@[j] as int] == ll by {
                        if ll < l {
                            assert(layers@[ll] == layers0[ll]);
                            assert(done0[layers@[ll]@[j] as int]);
                        }
                    }
                    assert forall|q: int|
                        0 <= q < n && #[trigger] done@[q] implies layers@[layer_of@[q] as int]@.contains(q as usize) by {
                        if done0[q] {
                            assert(layer_of@[q] == layer_of0[q]);
                            assert(layers@[layer_of0[q] as int] == layers0[layer_of0[q] as int]);
                        }
                    }
                }
            },
        }
    }
    proof {
        assert forall|u: int| 0 <= u < n implies #[trigger] layer_of@[u] < layers@.len() by {
            assert(done@[u]);
        }
        assert forall|u: int, v: int|
            0 <= u < n && 0 <= v < n implies (units@[u].depth < units@[v].depth
                <==> #[trigger] layer_of@[u] < #[trigger] layer_of@[v]) by {
            assert(done@[u] && done@[v]);
        }
        assert forall|u: int| 0 <= u < n implies (#[trigger] layers@[layer_of@[u] as int])@.contains(u as usize) by {
            assert(done@[u]);
        }
    }
    (layers, layer_of)
}

/// The first position of `ids` holding `id`, if any.
fn find_brain(ids: &Vec<usize>, id: usize) -> (r: Option<usize>)
    ensures
        r is None ==> forall|c: int| 0 <= c < ids@.len() ==> #[trigger] ids@[c] != id,
        r is Some ==> r->Some_0 < ids@.len() && ids@[r->Some_0 as int] == id && forall|c: int|
            0 <= c < r->Some_0 ==> #[trigger] ids@[c] != id,
{
    let mut c: usize = 0;
    while c < ids.len()
        invariant
            c <= ids@.len(),
            forall|j: int| 0 <= j < c ==> #[trigger] ids@[j] != id,
        decreases ids@.len() - c,
    {
        if ids[c] == id {
            return Some(c);
        }
        c = c + 1;
    }
    None
}

/// Plans one tick: stratifies the units by depth, finds where each one
/// delivers its inward output, and fixes the order of both passes.
pub fn plan_tick(units: &Vec<InwardUnit>, brains: &Vec<usize>) -> (p: TickPlan)
    ensures
        stratified(units@, p.layers@, p.layer_of@),
        p.targets@.len() == units@.len(),
        forall|u: int|
            0 <= u < units@.len() ==> route_ok(units@, brains@, p.layers@, p.layer_of@, u, #[trigger] p.targets@[u]),
        forall|u: usize| u < units@.len() ==> #[trigger] p.inward_order@.contains(u),
        forall|u: usize| u < units@.len() ==> #[trigger] p.outward_order@.contains(u),
        forall|a: int|
            0 <= a < p.inward_order@.len() ==> #[trigger] p.inward_order@[a] < units@.len(),
        forall|a: int|
            0 <= a < p.outward_order@.len() ==> #[trigger] p.outward_order@[a] < units@.len(),
        forall|a: int, b: int|
            0 <= a < b < p.inward_order@.len() ==> p.layer_of@[#[trigger] p.inward_order@[a] as int]
                >= p.layer_of@[#[trigger] p.inward_order@[b] as int],
        forall|a: int, b: int|
            0 <= a < b < p.outward_order@.len() ==> p.layer_of@[#[trigger] p.outward_order@[a] as int]
                <= p.layer_of@[#[trigger] p.outward_order@[b] as int],
        forall|a: int, b: int|
            0 <= a < p.inward_order@.len() && 0 <= b < p.inward_order@.len() && p.targets@[
                #[trigger] p.inward_order@[a] as int] == Some(Target::Block(#[trigger] p.inward_order@[b]))
                ==> a < b,
        forall|a: int, b: int|
            0 <= a < p.outward_order@.len() && 0 <= b < p.outward_order@.len() && p.targets@[
                #[trigger] p.outward_order@[a] as int] == Some(Target::Block(#[trigger] p.outward_order@[b]))
                ==> b < a,
{
    let (layers, layer_of) = stratify(units);
    let n = units.len();
    let mut targets: Vec<Option<Target>> = Vec::new();
    let mut u: usize = 0;
    while u < n
        invariant
            n == units@.len(),
            stratified(units@, layers@, layer_of@),
            u <= n,
            targets@.len() == u,
            forall|w: int| 0 <= w < u ==> route_ok(units@, brains@, layers@, layer_of@, w, #[trigger] targets@[w]),
        decreases n - u,
    {
        let l = layer_of[u];
        let parent = units[u].parent_nn_id;
        if l == 0 {
            match find_brain(brains, parent) {
                Some(b) => targets.push(Some(Target::Brain(b))),
                None => targets.push(None),
            }
        } else {
            let above = &layers[l - 1];
            let mut k: usize = 0;
            let mut found: Option<usize> = None;
            while k < above.len()
                invariant_except_break
                    found is None,
                invariant
                    n == units@.len(),
                    stratified(units@, layers@, layer_of@),
                    0 < l < layers@.len(),
                    *above == layers@[l - 1],
                    k <= above@.len(),
                    forall|j: int| 0 <= j < k ==> units@[#[trigger] above@[j] as int].nn_id != parent,
                ensures
                    found is None ==> forall|j: int| 0 <= j < above@.len() ==> units@[#[trigger] above@[j] as int].nn_id != parent,
                    found is Some ==> found->Some_0 < above@.len() && units@[above@[found->Some_0 as int] as int].nn_id == parent
                        && forall|j: int| 0 <= j < found->Some_0 ==> units@[#[trigger] above@[j] as int].nn_id != parent,
                decreases above@.len() - k,
            {
                let v = above[k];
                if units[v].nn_id == parent {
                    found = Some(k);
                    break ;
                }
                k = k + 1;
            }
            match found {
                Some(k) => {
                    let v = above[k];
                    assert(layers@[layer_of@[u as int] - 1]@[k as int] == v);
                    targets.push(Some(Target::Block(v)));
                },
                None => targets.push(None),
            }
        }
        assert(route_ok(units@, brains@, layers@, layer_of@, u as int, targets@[u as int]));
        u = u + 1;
    }
    let mut inward_order: Vec<usize> = Vec::new();
    let mut l = layers.len();
    while l > 0
        invariant
            n == units@.len(),
            stratified(units@, layers@, layer_of@),
            l <= layers@.len(),
            forall|a: int| 0 <= a < inward_order@.len() ==> #[trigger] inward_order@[a] < n
                && layer_of@[inward_order@[a] as int] >= l,
            forall|a: int, b: int|
                0 <= a < b < inward_order@.len() ==> layer_of@[#[trigger] inward_order@[a] as int]
                    >= layer_of@[#[trigger] inward_order@[b] as int],
            forall|w: usize| w < n && layer_of@[w as int] >= l ==> #[trigger] inward_order@.contains(w),
        decreases l,
    {
        l = l - 1;
        let layer = &layers[l];
        let mut k: usize = 0;
        while k < layer.len()
            invariant
                n == units@.len(),
                stratified(units@, layers@, layer_of@),
                l < layers@.len(),
                *layer == layers@[l as int],
                k <= layer@.len(),
                forall|a: int| 0 <= a < inward_order@.len() ==> #[trigger] inward_order@[a] < n
                    && layer_of@[inward_order@[a] as int] >= l,
                forall|a: int, b: int|
                    0 <= a < b < inward_order@.len() ==> layer_of@[#[trigger] inward_order@[a] as int]
                        >= layer_of@[#[trigger] inward_order@[b] as int],
                forall|w: usize| w < n && layer_of@[w as int] > l ==> #[trigger] inward_order@.contains(w),
                forall|j: int| 0 <= j < k ==> inward_order@.contains(#[trigger] layer@[j]),
                forall|a: int|
                    0 <= a < inward_order@.len() && layer_of@[#[trigger] inward_order@[a] as int] == l
                        ==> layer_of@[inward_order@[a] as int] == l,
            decreases layer@.len() - k,
        {
            let ghost before = inward_order@;
            inward_order.push(layer[k]);
            proof {
                assert(layer_of@[layer@[k as int] as int] == l);
                assert forall|w: usize| w < n && layer_of@[w as int] > l implies #[trigger] inward_order@.contains(w) by {
                    assert(before.contains(w));
                    let a = choose|a: int| 0 <= a < before.len() && before[a] == w;
                    assert(inward_order@[a] == w);
                }
                assert forall|j: int| 0 <= j <= k implies inward_order@.contains(#[trigger] layer@[j]) by {
                    if j < k {
                        let a = choose|a: int| 0 <= a < before.len() && before[a] == layer@[j];
                        assert(inward_order@[a] == layer@[j]);
                    } else {
                        assert(inward_order@[before.len() as int] == layer@[j]);
                    }
                }
            }
            k = k + 1;
        }
        proof {
            assert forall|w: usize| w < n && layer_of@[w as int] >= l implies #[trigger] inward_order@.contains(w) by {
                if layer_of@[w as int] == l {
                    assert(layers@[layer_of@[w as int] as int]@.contains(w));
                    let j = choose|j: int| 0 <= j < layer@.len() && layer@[j] == w;
                    assert(inward_order@.contains(layer@[j]));
                }
            }
        }
    }
    let mut outward_order: Vec<usize> = Vec::new();
    let mut l: usize = 0;
    while l < layers.len()
        invariant
            n == units@.len(),
            stratified(units@, layers@, layer_of@),
            l <= layers@.len(),
            forall|a: int| 0 <= a < outward_order@.len() ==> #[trigger] outward_order@[a] < n
                && layer_of@[outward_order@[a] as int] < l,
            forall|a: int, b: int|
                0 <= a < b < outward_order@.len() ==> layer_of@[#[trigger] outward_order@[a] as int]
                    <= layer_of@[#[trigger] outward_order@[b] as int],
            forall|w: usize| w < n && layer_of@[w as int] < l ==> #[trigger] outward_order@.contains(w),
        decreases layers@.len() - l,
    {
        let layer = &layers[l];
        let mut k: usize = 0;
        while k < layer.len()
            invariant
                n == units@.len(),
                stratified(units@, layers@, layer_of@),
                l < layers@.len(),
                *layer == layers@[l as int],
                k <= layer@.len(),
                forall|a: int| 0 <= a < outward_order@.len() ==> #[trigger] outward_order@[a] < n
                    && layer_of@[outward_order@[a] as int] <= l,
                forall|a: int, b: int|
                    0 <= a < b < outward_order@.len() ==> layer_of@[#[trigger] outward_order@[a] as int]
                        <= layer_of@[#[trigger] outward_order@[b] as int],
                forall|w: usize| w < n && layer_of@[w as int] < l ==> #[trigger] outward_order@.contains(w),
                forall|j: int| 0 <= j < k ==> outward_order@.contains(#[trigger] layer@[j]),
            decreases layer@.len() - k,
        {
            let ghost before = outward_order@;
            outward_order.push(layer[k]);
            proof {
                assert(layer_of@[layer@[k as int] as int] == l);
                assert forall|w: usize| w < n && layer_of@[w as int] < l implies #[trigger] outward_order@.contains(w) by {
                    assert(before.contains(w));
                    let a = choose|a: int| 0 <= a < before.len() && before[a] == w;
                    assert(outward_order@[a] == w);
                }
                assert forall|j: int| 0 <= j <= k implies outward_order@.contains(#[trigger] layer@[j]) by {
                    if j < k {
                        let a = choose|a: int| 0 <= a < before.len() && before[a] == layer@[j];
                        assert(outward_order@[a] == layer@[j]);
                    } else {
                        assert(outward_order@[before.len() as int] == layer@[j]);
                    }
                }
            }
            k = k + 1;
        }
        proof {
            assert forall|w: usize| w < n && layer_of@[w as int] < l + 1 implies #[trigger] outward_order@.contains(w) by {
                if layer_of@[w as int] == l {
                    assert(layers@[layer_of@[w as int] as int]@.contains(w));
                    let j = choose|j: int| 0 <= j < layer@.len() && layer@[j] == w;
                    assert(outward_order@.contains(layer@[j]));
                }
            }
        }
        l = l + 1;
    }
    proof {
        assert forall|u: int, v: usize|
            #![trigger layer_of@[u], layer_of@[v as int]]
            0 <= u < n && targets@[u] == Some(Target::Block(v)) implies layer_of@[v as int] + 1 == layer_of@[u]
                && v < n by {
            assert(route_ok(units@, brains@, layers@, layer_of@, u, targets@[u]));
            let k = choose|k: int|
                0 <= k < layers@[layer_of@[u] - 1]@.len() && #[trigger] layers@[layer_of@[u] - 1]@[k] == v
                    && units@[v as int].nn_id == units@[u].parent_nn_id && forall|j: int|
                    0 <= j < k ==> units@[#[trigger] layers@[layer_of@[u] - 1]@[j] as int].nn_id
                        != units@[u].parent_nn_id;
            assert(layer_of@[layers@[layer_of@[u] - 1]@[k] as int] == layer_of@[u] - 1);
        }
        assert forall|a: int, b: int|
            0 <= a < inward_order@.len() && 0 <= b < inward_order@.len() && targets@[
                #[trigger] inward_order@[a] as int] == Some(Target::Block(#[trigger] inward_order@[b]))
                implies a < b by {
            assert(layer_of@[inward_order@[b] as int] + 1 == layer_of@[inward_order@[a] as int]);
        }
        assert forall|a: int, b: int|
            0 <= a < outward_order@.len() && 0 <= b < outward_order@.len() && targets@[
                #[trigger] outward_order@[a] as int] == Some(Target::Block(#[trigger] outward_order@[b]))
                implies b < a by {
            assert(layer_of@[outward_order@[b] as int] + 1 == layer_of@[outward_order@[a] as int]);
        }
    }
    TickPlan { layers, layer_of, targets, inward_order, outward_order }
}

/// One step of a control tick.
#[derive(PartialEq, Eq, Structural, Clone, Copy, Debug)]
pub enum Step {
    /// Run the inward network of a unit and deliver its output.
    Inward(usize),
    /// Run a brain on what its first layer delivered.
    Brain(usize),
    /// Run the outward network of a unit on its parent's broadcast.
    Outward(usize),
}

/// The whole tick in order: every inward unit as `plan` orders them (deepest
/// layer first), then every brain, then every outward unit (shallowest layer
/// first).  So no brain runs before an inward step, and no outward step runs
/// before a brain.
pub fn tick_schedule(plan: &TickPlan, brain_count: usize) -> (r: Vec<Step>)
    requires
        plan.inward_order@.len() + brain_count + plan.outward_order@.len() <= usize::MAX,
    ensures
        r@.len() == plan.inward_order@.len() + brain_count + plan.outward_order@.len(),
        forall|a: int| 0 <= a < plan.inward_order@.len() ==> #[trigger] r@[a] == Step::Inward(plan.inward_order@[a]),
        forall|b: int| 0 <= b < brain_count ==> #[trigger] r@[plan.inward_order@.len() + b] == Step::Brain(b as usize),
        forall|c: int|
            0 <= c < plan.outward_order@.len() ==> #[trigger] r@[plan.inward_order@.len() + brain_count + c]
                == Step::Outward(plan.outward_order@[c]),
        forall|i: int, j: int| 0 <= i < j < r@.len() && (#[trigger] r@[j]) is Inward ==> (#[trigger] r@[i]) is Inward,
        forall|i: int, j: int| 0 <= i < j < r@.len() && (#[trigger] r@[i]) is Outward ==> (#[trigger] r@[j]) is Outward,
{
    let ni = plan.inward_order.len();
    let no = plan.outward_order.len();
    let mut r: Vec<Step> = Vec::new();
    let mut a: usize = 0;
    while a < ni
        invariant
            ni == plan.inward_order@.len(),
            a <= ni,
            r@.len() == a,
            forall|x: int| 0 <= x < a ==> #[trigger] r@[x] == Step::Inward(plan.inward_order@[x]),
        decreases ni - a,
    {
        r.push(Step::Inward(plan.inward_order[a]));
        a = a + 1;
    }
    let mut b: usize = 0;
    while b < brain_count
        invariant
            ni == plan.inward_order@.len(),
            ni + brain_count + no <= usize::MAX,
            b <= brain_count,
            r@.len() == ni + b,
            forall|x: int| 0 <= x < ni ==> #[trigger] r@[x] == Step::Inward(plan.inward_order@[x]),
            forall|x: int| 0 <= x < b ==> #[trigger] r@[ni + x] == Step::Brain(x as usize),
        decreases brain_count - b,
    {
        r.push(Step::Brain(b));
        b = b + 1;
    }
    let mut c: usize = 0;
    while c < no
        invariant
            ni == plan.inward_order@.len(),
            no == plan.outward_order@.len(),
            ni + brain_count + no <= usize::MAX,
            c <= no,
            r@.len() == ni + brain_count + c,
            forall|x: int| 0 <= x < ni ==> #[trigger] r@[x] == Step::Inward(plan.inward_order@[x]),
            forall|x: int| 0 <= x < brain_count ==> #[trigger] r@[ni + x] == Step::Brain(x as usize),
            forall|x: int| 0 <= x < c ==> #[trigger] r@[ni + brain_count + x] == Step::Outward(plan.outward_order@[x]),
        decreases no - c,
    {
        r.push(Step::Outward(plan.outward_order[c]));
        c = c + 1;
    }
    proof {
        assert forall|i: int| 0 <= i < r@.len() implies ((#[trigger] r@[i]) is Inward <==> i < ni) && (r@[i] is Outward
            <==> i >= ni + brain_count) by {
            if i < ni {
                assert(r@[i] == Step::Inward(plan.inward_order@[i]));
            } else if i < ni + brain_count {
                assert(r@[ni + (i - ni)] == Step::Brain((i - ni) as usize));
            } else {
                assert(r@[ni + brain_count + (i - ni - brain_count)] == Step::Outward(plan.outward_order@[i - ni - brain_count]));
            }
        }
    }
    r
}

} // verus!
