//! Checks on the shape of a factor graph: every edge joins exactly one
//! variable node to exactly one function node, and every function node has
//! the arity and payload that its kind asks for.

use vstd::prelude::*;
use crate::kernels::{Func, FuncType, unary_index_map, unary_target, cst_values, is_bijection};

verus! {

/// Why a factor graph, or its inputs, cannot be run.
pub enum BpError {
    /// An edge id is out of range, referenced twice, or never referenced, or
    /// a function node has the wrong number of neighbours for its kind.
    TopologyError,
    /// A lookup table is not a permutation, a constant payload does not have
    /// one value per copy, or a constant sends some element out of the field.
    PreconditionViolation,
    /// An input's dimensions disagree with the configured sizes.
    ShapeMismatch,
    /// A class label is neither 0 nor 1.
    InvalidLabel,
}

/// The neighbour lists of `nb`, as sequences.
pub open spec fn lists_view(nb: Seq<Vec<usize>>) -> Seq<Seq<usize>> {
    Seq::new(nb.len(), |i: int| nb[i]@)
}

/// Slot `(i, j)` exists in the neighbour lists.
pub open spec fn is_slot(nb: Seq<Seq<usize>>, i: int, j: int) -> bool {
    0 <= i < nb.len() && 0 <= j < nb[i].len()
}

/// Some slot of the neighbour lists holds edge `e`.
pub open spec fn is_referenced(nb: Seq<Seq<usize>>, e: int) -> bool {
    exists|i: int, j: int| is_slot(nb, i, j) && nb[i][j] == e
}

/// The neighbour lists reference each edge id of `0..n_edges` exactly once,
/// and nothing else.
pub open spec fn is_incidence(nb: Seq<Seq<usize>>, n_edges: int) -> bool {
    &&& forall|i: int, j: int| #[trigger] is_slot(nb, i, j) ==> nb[i][j] < n_edges
    &&& forall|i: int, j: int, k: int, l: int|
        #[trigger] is_slot(nb, i, j) && #[trigger] is_slot(nb, k, l) && nb[i][j] == nb[k][l] ==> i == k && j == l
    &&& forall|e: int| 0 <= e < n_edges ==> #[trigger] is_referenced(nb, e)
}

/// `owners[e]` is the slot (node, position in its list) that holds edge `e`.
pub open spec fn is_owner_map(nb: Seq<Seq<usize>>, owners: Seq<(usize, usize)>, n_edges: int) -> bool {
    &&& owners.len() == n_edges
    &&& forall|e: int| 0 <= e < n_edges ==> is_slot(nb, #[trigger] owners[e].0 as int, owners[e].1 as int)
        && nb[owners[e].0 as int][owners[e].1 as int] == e
}

/// `slots[x]` records the slot `(a, b)`.
spec fn records(slots: Seq<Option<(usize, usize)>>, x: int, a: int, b: int) -> bool {
    slots[x] is Some && slots[x]->Some_0.0 as int == a && slots[x]->Some_0.1 as int == b
}

/// Maps each edge id of `0..n_edges` to the node and the position in its
/// neighbour list that reference it; fails when the lists do not reference
/// each id exactly once.
pub fn edge_owners(neighbors: &Vec<Vec<usize>>, n_edges: usize) -> (r: Result<Vec<(usize, usize)>, BpError>)
    ensures
        r is Ok <==> is_incidence(lists_view(neighbors@), n_edges as int),
        r is Ok ==> is_owner_map(lists_view(neighbors@), r->Ok_0@, n_edges as int),
        r is Err ==> r->Err_0 is TopologyError,
{
    let ghost nb = lists_view(neighbors@);
    let mut slots: Vec<Option<(usize, usize)>> = Vec::new();
    let mut e: usize = 0;
    while e < n_edges
        invariant
            e <= n_edges,
            slots@.len() == e,
            forall|k: int| 0 <= k < e ==> #[trigger] slots@[k] is None,
        decreases n_edges - e,
    {
        slots.push(None);
        e += 1;
    }
    let mut i: usize = 0;
    while i < neighbors.len()
        invariant
            nb == lists_view(neighbors@),
            i <= nb.len(),
            slots@.len() == n_edges,
            forall|a: int, b: int| #[trigger] is_slot(nb, a, b) && a < i ==> nb[a][b] < n_edges
                && records(slots@, nb[a][b] as int, a, b),
            forall|x: int| 0 <= x < n_edges && #[trigger] slots@[x] is Some ==>
                is_slot(nb, slots@[x]->Some_0.0 as int, slots@[x]->Some_0.1 as int)
                && slots@[x]->Some_0.0 < i
                && nb[slots@[x]->Some_0.0 as int][slots@[x]->Some_0.1 as int] == x,
        decreases nb.len() - i,
    {
        let list = &neighbors[i];
        assert(list@ == nb[i as int]);
        let mut j: usize = 0;
        while j < list.len()
            invariant
                nb == lists_view(neighbors@),
                i < nb.len(),
                list@ == nb[i as int],
                j <= list@.len(),
                slots@.len() == n_edges,
                forall|a: int, b: int| #[trigger] is_slot(nb, a, b) && (a < i || (a == i && b < j)) ==> nb[a][b] < n_edges
                    && records(slots@, nb[a][b] as int, a, b),
                forall|x: int| 0 <= x < n_edges && #[trigger] slots@[x] is Some ==>
                    is_slot(nb, slots@[x]->Some_0.0 as int, slots@[x]->Some_0.1 as int)
                    && (slots@[x]->Some_0.0 < i || (slots@[x]->Some_0.0 == i && slots@[x]->Some_0.1 < j))
                    && nb[slots@[x]->Some_0.0 as int][slots@[x]->Some_0.1 as int] == x,
            decreases list@.len() - j,
        {
            let x = list[j];
            if x >= n_edges {
                assert(is_slot(nb, i as int, j as int));
                return Err(BpError::TopologyError);
            }
            match slots[x] {
                Some(owner) => {
                    assert(is_slot(nb, i as int, j as int));
                    assert(is_slot(nb, owner.0 as int, owner.1 as int));
                    return Err(BpError::TopologyError);
                },
                None => {},
            }
            slots.set(x, Some((i, j)));
            proof {
                assert forall|a: int, b: int| #[trigger] is_slot(nb, a, b) && (a < i || (a == i && b < j + 1)) implies nb[a][b] < n_edges
                    && records(slots@, nb[a][b] as int, a, b) by {
                    if a < i || b < j {
                        assert(nb[a][b] != x);
                    }
                }
            }
            j += 1;
        }
        i += 1;
    }
    let mut owners: Vec<(usize, usize)> = Vec::new();
    let mut e: usize = 0;
    while e < n_edges
        invariant
            nb == lists_view(neighbors@),
            e <= n_edges,
            slots@.len() == n_edges,
            owners@.len() == e,
            forall|a: int, b: int| #[trigger] is_slot(nb, a, b) ==> nb[a][b] < n_edges
                && records(slots@, nb[a][b] as int, a, b),
            forall|x: int| 0 <= x < n_edges && #[trigger] slots@[x] is Some ==>
                is_slot(nb, slots@[x]->Some_0.0 as int, slots@[x]->Some_0.1 as int)
                && nb[slots@[x]->Some_0.0 as int][slots@[x]->Some_0.1 as int] == x,
            forall|k: int| 0 <= k < e ==> is_slot(nb, #[trigger] owners@[k].0 as int, owners@[k].1 as int)
                && nb[owners@[k].0 as int][owners@[k].1 as int] == k,
        decreases n_edges - e,
    {
        match slots[e] {
            Some(owner) => {
                owners.push(owner);
            },
            None => {
                proof {
                    assert forall|a: int, b: int| is_slot(nb, a, b) implies nb[a][b] != e by {
                        assert(is_slot(nb, a, b));
                    }
                    assert(!is_referenced(nb, e as int));
                }
                return Err(BpError::TopologyError);
            },
        }
        e += 1;
    }
    proof {
        assert forall|x: int| 0 <= x < n_edges implies #[trigger] is_referenced(nb, x) by {
            assert(is_slot(nb, owners@[x].0 as int, owners@[x].1 as int));
        }
        assert forall|a: int, b: int, c: int, d: int|
            #[trigger] is_slot(nb, a, b) && #[trigger] is_slot(nb, c, d) && nb[a][b] == nb[c][d] implies a == c && b == d by {
            assert(records(slots@, nb[a][b] as int, a, b));
            assert(records(slots@, nb[c][d] as int, c, d));
        }
    }
    Ok(owners)
}

/// The function node has as many neighbours as its kind takes: three for
/// the binary AND and MUL, at least two for the k-ary XOR and ADD, two for
/// the constant operators and lookup tables.
pub open spec fn arity_ok(f: FuncType, n: int) -> bool {
    match f {
        FuncType::AND | FuncType::MUL => n == 3,
        FuncType::XOR | FuncType::ADD => n >= 2,
        _ => n == 2,
    }
}

/// The payload fits the graph: a lookup table permutes `0..nc`; a constant
/// operator has one value per copy, and sends every element of the field to
/// an element of the field.
pub open spec fn payload_ok(f: FuncType, nc: int, n_runs: int) -> bool {
    match f {
        FuncType::LOOKUP(t) => t@.len() == nc && (forall|i: int| 0 <= i < nc ==> #[trigger] t@[i] < nc)
            && (forall|i: int, j: int| 0 <= i < j < nc ==> t@[i] != t@[j]),
        FuncType::XORCST(_) | FuncType::ANDCST(_) | FuncType::ADDCST(_) | FuncType::MULCST(_) =>
            cst_values(f).len() == n_runs && forall|run: int, i1: int| 0 <= run < n_runs && 0 <= i1 < nc
                ==> #[trigger] unary_target(f, run, i1, nc) < nc,
        _ => true,
    }
}

/// Whether `map` is a bijection of `0..n`.
pub fn check_bijection(map: &Vec<usize>, n: usize) -> (r: bool)
    ensures
        r == is_bijection(map@, n as int),
{
    if map.len() != n {
        return false;
    }
    // seen[x] holds 1 + the position where `x` was met, or 0.
    let mut seen: Vec<usize> = Vec::new();
    let mut e: usize = 0;
    while e < n
        invariant
            e <= n,
            seen@.len() == e,
            forall|k: int| 0 <= k < e ==> #[trigger] seen@[k] == 0,
        decreases n - e,
    {
        seen.push(0);
        e += 1;
    }
    let mut i: usize = 0;
    while i < n
        invariant
            map@.len() == n,
            i <= n,
            seen@.len() == n,
            forall|k: int| 0 <= k < i ==> #[trigger] map@[k] < n,
            forall|k: int, j: int| 0 <= k < j < i ==> map@[k] != map@[j],
            forall|k: int| 0 <= k < i ==> seen@[#[trigger] map@[k] as int] == k + 1,
            forall|x: int| 0 <= x < n && #[trigger] seen@[x] != 0 ==> 1 <= seen@[x] <= i && map@[seen@[x] - 1] == x,
        decreases n - i,
    {
        let x = map[i];
        if x >= n {
            return false;
        }
        if seen[x] != 0 {
            proof {
                let k = seen@[x as int] - 1;
                assert(map@[k] == map@[i as int]);
            }
            return false;
        }
        seen.set(x, i + 1);
        i += 1;
    }
    true
}

/// Checks the arity and the payload of a function node, over a field of `nc`
/// elements and `n_runs` copies of the graph.
pub fn check_function(f: &Func, nc: usize, n_runs: usize) -> (r: Result<(), BpError>)
    requires
        0 < nc <= u32::MAX,
    ensures
        r is Ok <==> arity_ok(f.functype, f.neighboors@.len() as int) && payload_ok(f.functype, nc as int, n_runs as int),
        r is Err && !arity_ok(f.functype, f.neighboors@.len() as int) ==> r->Err_0 is TopologyError,
        r is Err && arity_ok(f.functype, f.neighboors@.len() as int) ==> r->Err_0 is PreconditionViolation,
{
    let n = f.neighboors.len();
    let arity = match &f.functype {
        FuncType::AND | FuncType::MUL => n == 3,
        FuncType::XOR | FuncType::ADD => n >= 2,
        _ => n == 2,
    };
    if !arity {
        return Err(BpError::TopologyError);
    }
    match &f.functype {
        FuncType::LOOKUP(table) => {
            if table.len() != nc {
                return Err(BpError::PreconditionViolation);
            }
            let map = unary_index_map(&f.functype, 0, nc);
            if !check_bijection(&map, nc) {
                proof {
                    if payload_ok(f.functype, nc as int, n_runs as int) {
                        assert(map@ =~= map@);
                        assert forall|i: int| 0 <= i < nc implies #[trigger] map@[i] < nc by {
                            assert(table@[i] < nc);
                        }
                        assert forall|i: int, j: int| 0 <= i < j < nc implies map@[i] != map@[j] by {
                            assert(map@[i] as int == table@[i] as int);
                            assert(map@[j] as int == table@[j] as int);
                        }
                    }
                }
                return Err(BpError::PreconditionViolation);
            }
            proof {
                assert forall|i: int| 0 <= i < nc implies #[trigger] table@[i] < nc by {
                    assert(map@[i] as int == table@[i] as int);
                }
                assert forall|i: int, j: int| 0 <= i < j < nc implies table@[i] != table@[j] by {
                    assert(map@[i] as int == table@[i] as int);
                    assert(map@[j] as int == table@[j] as int);
                }
            }
            Ok(())
        },
        FuncType::XORCST(values) | FuncType::ANDCST(values) | FuncType::ADDCST(values) | FuncType::MULCST(values) => {
            if values.len() != n_runs {
                return Err(BpError::PreconditionViolation);
            }
            let mut run: usize = 0;
            while run < n_runs
                invariant
                    0 < nc <= u32::MAX,
                    run <= n_runs,
                    arity_ok(f.functype, f.neighboors@.len() as int),
                    cst_values(f.functype) == values@,
                    values@.len() == n_runs,
                    f.functype is XORCST || f.functype is ANDCST || f.functype is ADDCST || f.functype is MULCST,
                    forall|r: int, i1: int| 0 <= r < run && 0 <= i1 < nc ==> #[trigger] unary_target(f.functype, r, i1, nc as int) < nc,
                decreases n_runs - run,
            {
                let map = unary_index_map(&f.functype, run, nc);
                let mut i1: usize = 0;
                while i1 < nc
                    invariant
                        i1 <= nc,
                        run < n_runs,
                        arity_ok(f.functype, f.neighboors@.len() as int),
                        map@.len() == nc,
                        forall|k: int| 0 <= k < nc ==> #[trigger] map@[k] as int == unary_target(f.functype, run as int, k, nc as int),
                        forall|k: int| 0 <= k < i1 ==> #[trigger] unary_target(f.functype, run as int, k, nc as int) < nc,
                    decreases nc - i1,
                {
                    if map[i1] >= nc {
                        assert(unary_target(f.functype, run as int, i1 as int, nc as int) >= nc);
                        return Err(BpError::PreconditionViolation);
                    }
                    i1 += 1;
                }
                run += 1;
            }
            Ok(())
        },
        _ => Ok(()),
    }
}

/// Which slot holds each edge, on the function side and on the variable side.
pub struct EdgeOwners {
    /// `by_function[e]` is (function id, position in its neighbour list).
    pub by_function: Vec<(usize, usize)>,
    /// `by_variable[e]` is (variable id, position in its neighbour list).
    pub by_variable: Vec<(usize, usize)>,
}

/// The neighbour lists of the function nodes.
pub open spec fn function_lists(fs: Seq<Func>) -> Seq<Seq<usize>> {
    Seq::new(fs.len(), |i: int| fs[i].neighboors@)
}

/// A factor graph that belief propagation can run on: a field size that the
/// payloads can express, well-formed function nodes, and edges that join
/// exactly one function node to exactly one variable node.
pub open spec fn graph_ok(fs: Seq<Func>, vars: Seq<Vec<usize>>, n_edges: int, nc: int, n_runs: int) -> bool {
    &&& 0 < nc <= u32::MAX
    &&& forall|i: int| 0 <= i < fs.len() ==> arity_ok(#[trigger] fs[i].functype, fs[i].neighboors@.len() as int)
        && payload_ok(fs[i].functype, nc, n_runs)
    &&& is_incidence(function_lists(fs), n_edges)
    &&& is_incidence(lists_view(vars), n_edges)
}

fn copy_list(v: &Vec<usize>) -> (r: Vec<usize>)
    ensures
        r@ == v@,
{
    let mut r: Vec<usize> = Vec::new();
    let mut i: usize = 0;
    while i < v.len()
        invariant
            i <= v@.len(),
            r@ == v@.subrange(0, i as int),
        decreases v@.len() - i,
    {
        r.push(v[i]);
        i += 1;
    }
    proof {
        assert(v@.subrange(0, v@.len() as int) =~= v@);
    }
    r
}

/// Checks a factor graph given by its function nodes and the neighbour lists
/// of its variable nodes, and maps each edge to the slots that hold it.
pub fn check_graph(
    functions: &[Func],
    var_neighbors: &Vec<Vec<usize>>,
    n_edges: usize,
    nc: usize,
    n_runs: usize,
) -> (r: Result<EdgeOwners, BpError>)
    ensures
        r is Ok <==> graph_ok(functions@, var_neighbors@, n_edges as int, nc as int, n_runs as int),
        r is Ok ==> is_owner_map(function_lists(functions@), r->Ok_0.by_function@, n_edges as int)
            && is_owner_map(lists_view(var_neighbors@), r->Ok_0.by_variable@, n_edges as int),
        r is Err && !(0 < nc <= u32::MAX) ==> r->Err_0 is ShapeMismatch,
        r is Err && 0 < nc <= u32::MAX && (forall|i: int| 0 <= i < functions@.len() ==>
            arity_ok(#[trigger] functions@[i].functype, functions@[i].neighboors@.len() as int)
            && payload_ok(functions@[i].functype, nc as int, n_runs as int)) ==> r->Err_0 is TopologyError,
{
    if nc == 0 || nc > u32::MAX as usize {
        return Err(BpError::ShapeMismatch);
    }
    let mut lists: Vec<Vec<usize>> = Vec::new();
    let mut i: usize = 0;
    while i < functions.len()
        invariant
            0 < nc <= u32::MAX,
            i <= functions@.len(),
            lists@.len() == i,
            forall|k: int| 0 <= k < i ==> #[trigger] lists@[k]@ == functions@[k].neighboors@,
            forall|k: int| 0 <= k < i ==> arity_ok(#[trigger] functions@[k].functype, functions@[k].neighboors@.len() as int)
                && payload_ok(functions@[k].functype, nc as int, n_runs as int),
        decreases functions@.len() - i,
    {
        match check_function(&functions[i], nc, n_runs) {
            Ok(()) => {},
            Err(e) => {
                return Err(e);
            },
        }
        lists.push(copy_list(&functions[i].neighboors));
        i += 1;
    }
    proof {
        assert(lists_view(lists@) =~= function_lists(functions@));
    }
    let by_function = match edge_owners(&lists, n_edges) {
        Ok(m) => m,
        Err(e) => {
            return Err(e);
        },
    };
    let by_variable = match edge_owners(var_neighbors, n_edges) {
        Ok(m) => m,
        Err(e) => {
            return Err(e);
        },
    };
    Ok(EdgeOwners { by_function, by_variable })
}

} // verus!
