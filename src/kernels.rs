//! Function nodes and the index maps that their message kernels follow.
//!
//! A message row holds one weight per field element `0..nc`. The kernels of
//! the constant operators and of lookup tables move weight along a map from
//! input elements to output elements; the binary operators follow a map from
//! pairs of input elements to output elements.

use vstd::prelude::*;
use crate::group::{find_gen, generators_below, is_prime, is_prime_u32, mod_exp_ok};

verus! {

/// Kind of a function node, with its public payload where it has one.
pub enum FuncType {
    /// Bitwise AND of variables
    AND,
    /// Bitwise XOR of variables
    XOR,
    /// Modular ADD of variables
    ADD,
    /// Modular MUL of variables
    MUL,
    /// Bitwise XOR with a public value, one per copy of the graph.
    XORCST(Vec<u32>),
    /// Bitwise AND with a public value, one per copy of the graph.
    ANDCST(Vec<u32>),
    /// Modular ADD with a public value, one per copy of the graph.
    ADDCST(Vec<u32>),
    /// Modular MUL with a public value, one per copy of the graph.
    MULCST(Vec<u32>),
    /// Lookup table, indexed by the input element.
    LOOKUP(Vec<u32>),
}

/// A function node in the graph.
pub struct Func {
    /// Ids of edges adjacent to the function node, in slot order.
    pub neighboors: Vec<usize>,
    pub functype: FuncType,
}

/// The function has an output and a single input, related through a public
/// constant or a table.
pub open spec fn is_unary(f: FuncType) -> bool {
    match f {
        FuncType::XORCST(_) | FuncType::ANDCST(_) | FuncType::ADDCST(_) | FuncType::MULCST(_)
        | FuncType::LOOKUP(_) => true,
        _ => false,
    }
}

/// The public constants of a constant operator (empty for the other kinds).
pub open spec fn cst_values(f: FuncType) -> Seq<u32> {
    match f {
        FuncType::XORCST(v) | FuncType::ANDCST(v) | FuncType::ADDCST(v) | FuncType::MULCST(v) => v@,
        _ => Seq::empty(),
    }
}

/// Output element reached from input element `i1` by a unary function in copy
/// `run` of the graph, over a field of `nc` elements.
pub open spec fn unary_target(f: FuncType, run: int, i1: int, nc: int) -> int {
    match f {
        FuncType::XORCST(v) => ((i1 as u32) ^ v@[run]) as int,
        FuncType::ANDCST(v) => ((i1 as u32) & v@[run]) as int,
        FuncType::ADDCST(v) => (i1 + v@[run]) % nc,
        FuncType::MULCST(v) => (i1 * v@[run]) % nc,
        FuncType::LOOKUP(t) => t@[i1] as int,
        _ => 0,
    }
}

/// The payload of a unary function can be read for copy `run` over `nc` elements.
pub open spec fn unary_readable(f: FuncType, run: int, nc: int) -> bool {
    &&& is_unary(f)
    &&& match f {
        FuncType::LOOKUP(t) => t@.len() == nc,
        _ => 0 <= run < cst_values(f).len(),
    }
}

/// For each input element `i1` of `0..nc`, the output element that a unary
/// function reaches from it in copy `run` of the graph.
pub fn unary_index_map(functype: &FuncType, run: usize, nc: usize) -> (r: Vec<usize>)
    requires
        0 < nc <= u32::MAX,
        unary_readable(*functype, run as int, nc as int),
    ensures
        r@.len() == nc,
        forall|i1: int| 0 <= i1 < nc ==> #[trigger] r@[i1] as int == unary_target(*functype, run as int, i1, nc as int),
{
    let mut map: Vec<usize> = Vec::new();
    let mut i1: usize = 0;
    while i1 < nc
        invariant
            i1 <= nc,
            0 < nc <= u32::MAX,
            unary_readable(*functype, run as int, nc as int),
            map@.len() == i1,
            forall|k: int| 0 <= k < i1 ==> #[trigger] map@[k] as int == unary_target(*functype, run as int, k, nc as int),
        decreases nc - i1,
    {
        let o: usize = match functype {
            FuncType::XORCST(values) => ((i1 as u32) ^ values[run]) as usize,
            FuncType::ANDCST(values) => ((i1 as u32) & values[run]) as usize,
            FuncType::ADDCST(values) => (((i1 as u64) + (values[run] as u64)) % (nc as u64)) as usize,
            FuncType::MULCST(values) => {
                let v = values[run];
                assert((i1 as int) * (v as int) <= (u32::MAX as int) * (u32::MAX as int)) by (nonlinear_arith)
                    requires
                        i1 <= u32::MAX,
                        v <= u32::MAX,
                ;
                (((i1 as u64) * (v as u64)) % (nc as u64)) as usize
            },
            FuncType::LOOKUP(table) => table[i1] as usize,
            _ => 0,
        };
        map.push(o);
        i1 += 1;
    }
    map
}

/// The message kernel that updates a function node.
pub enum Kernel {
    /// Quadratic sum over all pairs of input elements.
    Naive,
    /// Product in the Walsh-Hadamard domain.
    Walsh,
    /// Product in the real Fourier domain.
    Fourier,
    /// Zero element apart, product in the Fourier domain of discrete logarithms.
    LogFourier,
    /// Weight moved along an index map that may join inputs.
    Constant,
    /// Weight exchanged along a bijective table.
    Lookup,
}

/// Multiplication over `Z_nc` can go through discrete logarithms: `nc` is a
/// prime within reach of the modular exponentiation, and some candidate
/// generator passes the test.
pub open spec fn log_mul_ok(nc: int) -> bool {
    is_prime(nc) && mod_exp_ok(nc) && generators_below(nc, nc - 1).len() > 0
}

/// The kernel for each kind over a field of `nc` elements.
pub open spec fn kernel_of(f: FuncType, nc: int) -> Kernel {
    match f {
        FuncType::AND => Kernel::Naive,
        FuncType::XOR => Kernel::Walsh,
        FuncType::ADD => Kernel::Fourier,
        FuncType::MUL => if log_mul_ok(nc) { Kernel::LogFourier } else { Kernel::Naive },
        FuncType::LOOKUP(_) => Kernel::Lookup,
        _ => Kernel::Constant,
    }
}

/// Picks the message kernel of a function node over a field of `nc` elements.
pub fn select_kernel(functype: &FuncType, nc: usize) -> (k: Kernel)
    ensures
        k == kernel_of(*functype, nc as int),
{
    match functype {
        FuncType::AND => Kernel::Naive,
        FuncType::XOR => Kernel::Walsh,
        FuncType::ADD => Kernel::Fourier,
        FuncType::MUL => {
            if nc > 65536 || !is_prime_u32(nc as u32) {
                proof {
                    if nc > 65536 {
                        assert(!mod_exp_ok(nc as int)) by (nonlinear_arith)
                            requires
                                nc > 65536,
                        ;
                    }
                }
                return Kernel::Naive;
            }
            proof {
                assert(mod_exp_ok(nc as int)) by (nonlinear_arith)
                    requires
                        2 <= nc <= 65536,
                ;
            }
            if find_gen(nc as u32).len() > 0 {
                Kernel::LogFourier
            } else {
                Kernel::Naive
            }
        },
        FuncType::LOOKUP(_) => Kernel::Lookup,
        _ => Kernel::Constant,
    }
}

/// Output element of a binary AND or MUL function for the inputs `i1`, `i2`.
pub open spec fn binary_target(f: FuncType, i1: int, i2: int, nc: int) -> int {
    match f {
        FuncType::AND => ((i1 as u32) & (i2 as u32)) as int,
        FuncType::MUL => (i1 * i2) % nc,
        _ => 0,
    }
}

/// The output element that a binary AND or MUL function reaches from the
/// input elements `i1` and `i2`, over a field of `nc` elements.
pub fn binary_output(functype: &FuncType, i1: usize, i2: usize, nc: usize) -> (o: usize)
    requires
        0 < nc <= u32::MAX,
        i1 < nc,
        i2 < nc,
        *functype is AND || *functype is MUL,
    ensures
        o as int == binary_target(*functype, i1 as int, i2 as int, nc as int),
        o < nc,
{
    match functype {
        FuncType::AND => {
            let a = i1 as u32;
            let b = i2 as u32;
            assert((a & b) <= a) by (bit_vector);
            (a & b) as usize
        },
        _ => {
            proof {
                assert((i1 as int * i2 as int) <= (u32::MAX as int) * (u32::MAX as int)) by (nonlinear_arith)
                    requires
                        i1 < nc,
                        i2 < nc,
                        nc <= u32::MAX,
                ;
            }
            (((i1 as u64) * (i2 as u64)) % (nc as u64)) as usize
        },
    }
}

/// `map` sends `0..n` to `0..n` without two inputs sharing an output.
pub open spec fn is_bijection(map: Seq<usize>, n: int) -> bool {
    &&& map.len() == n
    &&& forall|i: int| 0 <= i < n ==> #[trigger] map[i] < n
    &&& forall|i: int, j: int| 0 <= i < j < n ==> map[i] != map[j]
}

/// The messages `new_in`, `new_out` are those that a unary function with the
/// index map `map` sends back when it receives `old_in` and `old_out`.
pub open spec fn exchanged_along<T>(old_in: Seq<T>, old_out: Seq<T>, map: Seq<usize>, new_in: Seq<T>, new_out: Seq<T>) -> bool {
    &&& new_in.len() == map.len()
    &&& new_out.len() == map.len()
    &&& forall|i1: int| 0 <= i1 < map.len() ==> #[trigger] new_in[i1] == old_out[map[i1] as int]
    &&& forall|i1: int| 0 <= i1 < map.len() ==> new_out[#[trigger] map[i1] as int] == old_in[i1]
}

/// Message update of a unary function whose index map is a bijection: the
/// new input message at `i1` is the old output message at `map[i1]`, and the
/// new output message at `map[i1]` is the old input message at `i1`.
pub fn exchange_along<T: Copy>(input: &mut Vec<T>, output: &mut Vec<T>, map: &Vec<usize>)
    requires
        is_bijection(map@, map@.len() as int),
        old(input)@.len() == map@.len(),
        old(output)@.len() == map@.len(),
    ensures
        exchanged_along(old(input)@, old(output)@, map@, final(input)@, final(output)@),
{
    let n = map.len();
    let mut new_input: Vec<T> = Vec::new();
    let mut new_output: Vec<T> = Vec::new();
    let mut i: usize = 0;
    while i < n
        invariant
            n == map@.len(),
            i <= n,
            is_bijection(map@, n as int),
            input@.len() == n,
            output@.len() == n,
            new_input@.len() == i,
            new_output@.len() == i,
            forall|k: int| 0 <= k < i ==> #[trigger] new_input@[k] == output@[map@[k] as int],
            forall|k: int| 0 <= k < i ==> #[trigger] new_output@[k] == output@[k],
        decreases n - i,
    {
        new_input.push(output[map[i]]);
        new_output.push(output[i]);
        i += 1;
    }
    let mut i: usize = 0;
    while i < n
        invariant
            n == map@.len(),
            i <= n,
            is_bijection(map@, n as int),
            input@.len() == n,
            new_output@.len() == n,
            forall|k: int| 0 <= k < i ==> new_output@[#[trigger] map@[k] as int] == input@[k],
        decreases n - i,
    {
        new_output.set(map[i], input[i]);
        i += 1;
    }
    *input = new_input;
    *output = new_output;
}

/// `table` lists the nonzero elements `1..n` once each: the powers of a
/// generator of the multiplicative group, position `j` holding the element
/// of discrete logarithm `j`.
pub open spec fn is_log_table(table: Seq<u32>, n: int) -> bool {
    &&& table.len() == n - 1
    &&& forall|i: int| 0 <= i < n - 1 ==> 1 <= #[trigger] table[i] < n
    &&& forall|i: int, j: int| 0 <= i < j < n - 1 ==> table[i] != table[j]
    &&& forall|e: int| 1 <= e < n ==> #[trigger] is_listed(table, e)
}

/// Some entry of `table` is `e`.
pub open spec fn is_listed(table: Seq<u32>, e: int) -> bool {
    exists|i: int| 0 <= i < table.len() && #[trigger] table[i] == e
}

/// Checks that `table` lists each of the nonzero elements `1..n` exactly once.
pub fn check_log_table(table: &Vec<u32>, n: usize) -> (r: bool)
    ensures
        r == is_log_table(table@, n as int),
{
    if n == 0 || table.len() != n - 1 {
        return false;
    }
    // seen[e] holds 1 + the position where `e` was met, or 0.
    let mut seen: Vec<usize> = Vec::new();
    let mut e: usize = 0;
    while e < n
        invariant
            e <= n,
            seen@.len() == e,
            forall|k: int| 0 <= k < e ==> #[trigger] seen@[k] == 0,
        decreases n - e,
    {
        seen.push(0);
        e += 1;
    }
    let mut i: usize = 0;
    while i < n - 1
        invariant
            n >= 1,
            table@.len() == n - 1,
            i <= n - 1,
            seen@.len() == n,
            forall|k: int| 0 <= k < i ==> 1 <= #[trigger] table@[k] < n,
            forall|k: int, j: int| 0 <= k < j < i ==> table@[k] != table@[j],
            forall|k: int| 0 <= k < i ==> seen@[#[trigger] table@[k] as int] == k + 1,
            forall|x: int| 0 <= x < n && #[trigger] seen@[x] != 0 ==> 1 <= seen@[x] <= i && table@[seen@[x] - 1] == x,
        decreases n - 1 - i,
    {
        let x = table[i];
        if x == 0 || x as usize >= n {
            return false;
        }
        if seen[x as usize] != 0 {
            proof {
                let k = seen@[x as int] - 1;
                assert(table@[k] == table@[i as int]);
            }
            return false;
        }
        seen.set(x as usize, i + 1);
        i += 1;
    }
    let mut e: usize = 1;
    while e < n
        invariant
            1 <= e <= n,
            table@.len() == n - 1,
            seen@.len() == n,
            forall|x: int| 0 <= x < n && #[trigger] seen@[x] != 0 ==> 1 <= seen@[x] <= n - 1 && table@[seen@[x] - 1] == x,
            forall|x: int| 1 <= x < e ==> #[trigger] is_listed(table@, x),
            forall|k: int| 0 <= k < n - 1 ==> 1 <= #[trigger] table@[k] < n,
            forall|k: int, j: int| 0 <= k < j < n - 1 ==> table@[k] != table@[j],
            forall|k: int| 0 <= k < n - 1 ==> seen@[#[trigger] table@[k] as int] == k + 1,
        decreases n - e,
    {
        if seen[e] == 0 {
            proof {
                assert forall|k: int| 0 <= k < n - 1 implies #[trigger] table@[k] != e by {
                    if table@[k] == e {
                        assert(seen@[table@[k] as int] == k + 1);
                    }
                }
                assert(!is_listed(table@, e as int));
            }
            return false;
        }
        proof {
            let k = seen@[e as int] - 1;
            assert(table@[k] == e);
        }
        e += 1;
    }
    true
}

/// The row after the alignment to logarithms: position `i >= 1` holds the
/// entry at `table[i - 1]`, the element of discrete logarithm `i - 1`.
pub open spec fn aligned_to_log<T>(row: Seq<T>, table: Seq<u32>) -> Seq<T> {
    Seq::new(row.len(), |i: int| if i == 0 { row[0] } else { row[table[i - 1] as int] })
}

/// Reorders a message row so that multiplication of nonzero elements becomes
/// addition of their discrete logarithms: position `i >= 1` receives the
/// entry at `table[i - 1]`; position 0 keeps its entry.
pub fn align_to_log<T: Copy>(row: &mut Vec<T>, table: &Vec<u32>)
    requires
        is_log_table(table@, old(row)@.len() as int),
    ensures
        final(row)@ == aligned_to_log(old(row)@, table@),
{
    let n = row.len();
    let mut out: Vec<T> = Vec::new();
    let mut i: usize = 0;
    while i < n
        invariant
            n == row@.len(),
            i <= n,
            is_log_table(table@, n as int),
            out@.len() == i,
            forall|k: int| 0 <= k < i ==> #[trigger] out@[k] == aligned_to_log(row@, table@)[k],
        decreases n - i,
    {
        if i == 0 {
            out.push(row[0]);
        } else {
            out.push(row[table[i - 1] as usize]);
        }
        i += 1;
    }
    proof {
        assert(out@ =~= aligned_to_log(row@, table@));
    }
    *row = out;
}

/// Undoes `align_to_log`: the entry at position `i >= 1` goes back to
/// position `table[i - 1]`; position 0 keeps its entry.
pub fn align_from_log<T: Copy>(row: &mut Vec<T>, table: &Vec<u32>)
    requires
        is_log_table(table@, old(row)@.len() as int),
    ensures
        final(row)@.len() == old(row)@.len(),
        aligned_to_log(final(row)@, table@) == old(row)@,
{
    let n = row.len();
    let mut out: Vec<T> = Vec::new();
    let mut i: usize = 0;
    while i < n
        invariant
            n == row@.len(),
            i <= n,
            out@.len() == i,
            forall|k: int| 0 <= k < i ==> #[trigger] out@[k] == row@[k],
        decreases n - i,
    {
        out.push(row[i]);
        i += 1;
    }
    let mut i: usize = 1;
    while i < n
        invariant
            n == row@.len(),
            1 <= i <= n,
            is_log_table(table@, n as int),
            out@.len() == n,
            out@[0] == row@[0],
            forall|k: int| 1 <= k < i ==> out@[#[trigger] table@[k - 1] as int] == row@[k],
        decreases n - i,
    {
        out.set(table[i - 1] as usize, row[i]);
        i += 1;
    }
    proof {
        assert(aligned_to_log(out@, table@) =~= row@);
    }
    *row = out;
}

/// A lookup through the identity table passes each message through
/// unchanged: the input edge receives the old output message and the output
/// edge the old input message.
pub proof fn lemma_identity_lookup_passes_through<T>(
    old_in: Seq<T>,
    old_out: Seq<T>,
    map: Seq<usize>,
    new_in: Seq<T>,
    new_out: Seq<T>,
)
    requires
        old_in.len() == map.len(),
        old_out.len() == map.len(),
        forall|i: int| 0 <= i < map.len() ==> #[trigger] map[i] == i,
        exchanged_along(old_in, old_out, map, new_in, new_out),
    ensures
        new_in == old_out,
        new_out == old_in,
{
    assert forall|i: int| 0 <= i < map.len() implies #[trigger] new_out[i] == old_in[i] by {
        assert(new_out[map[i] as int] == old_in[i]);
    }
    assert(new_in =~= old_out);
    assert(new_out =~= old_in);
}

/// Aligning a row to logarithms loses nothing: two rows with the same
/// alignment are equal, so `align_from_log` after `align_to_log` gives back
/// the row.
pub proof fn lemma_log_alignment_round_trip<T>(row: Seq<T>, back: Seq<T>, table: Seq<u32>)
    requires
        row.len() >= 1,
        is_log_table(table, row.len() as int),
        back.len() == row.len(),
        aligned_to_log(back, table) == aligned_to_log(row, table),
    ensures
        back == row,
{
    assert forall|e: int| 0 <= e < row.len() implies #[trigger] back[e] == row[e] by {
        if e == 0 {
            assert(aligned_to_log(back, table)[0] == back[0]);
            assert(aligned_to_log(row, table)[0] == row[0]);
        } else {
            assert(is_listed(table, e));
            let i = choose|i: int| 0 <= i < table.len() && #[trigger] table[i] == e;
            assert(table[(i + 1) - 1] == e);
            assert(aligned_to_log(back, table)[i + 1] == back[e]);
            assert(aligned_to_log(row, table)[i + 1] == row[e]);
        }
    }
    assert(back =~= row);
}

} // verus!
