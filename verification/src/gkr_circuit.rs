//! The layered arithmetic circuit: fan-in-two add and multiply gates wired
//! by index, executed bottom-up, then exposed output-first.  From an
//! executed circuit the GKR layers derive their wiring indicator tables
//! (`add`, `mul`) and the blown-up output tables the sum-check combines.

use vstd::prelude::*;
use vstd::pervasive::VecAdditionalExecFns;
use crate::field::{Fq, fadd, fmul};
use crate::error::Error;
use crate::mle::{table_view, fold0_chain, lemma_table_view_take, is_pow2_len, num_vars};
use crate::combined_polys::{ProductPoly, SumPoly, copy_table};
use crate::transcript::{Transcript, conv_poly_to_byte, poly_bytes, squeeze_val, squeeze_state};
use crate::gkr_sum_check::sum_vals;
use vstd::arithmetic::power2::pow2;

verus! {

/// A gate's operation.
#[derive(Debug, PartialEq, Eq, Structural, Clone, Copy)]
pub enum Operation {
    Add,
    Multiply,
}

/// One fan-in-two gate: two input positions in the previous layer's output,
/// an operation, and an output position in this layer's table.
#[derive(Debug, Clone, Copy, PartialEq, Eq, Structural)]
pub struct Gate {
    pub left_input: usize,
    pub right_input: usize,
    pub operation: Operation,
    pub output: usize,
}

impl Gate {
    pub fn new(left_input: usize, right_input: usize, operation: Operation, output: usize) -> (r:
        Gate)
        ensures
            r == (Gate { left_input, right_input, operation, output }),
    {
        Gate { left_input, right_input, operation, output }
    }

    /// The result of this gate on its two input values.
    pub fn execute_gate(&self, left_input: Fq, right_input: Fq) -> (r: Fq)
        ensures
            r.as_int() == gate_apply(self.operation, left_input.as_int(), right_input.as_int()),
    {
        match self.operation {
            Operation::Add => left_input.add(right_input),
            Operation::Multiply => left_input.mul(right_input),
        }
    }
}

/// The field value a gate operation produces.
pub open spec fn gate_apply(op: Operation, l: int, r: int) -> int {
    match op {
        Operation::Add => fadd(l, r),
        Operation::Multiply => fmul(l, r),
    }
}

/// One executed layer: its parsed gates and its output table.
#[derive(Debug, Clone)]
pub struct Layer {
    pub layer_gates: Vec<Gate>,
    pub layer_output: Vec<Fq>,
}

/// The circuit: the immutable layer definition, and the realized layers
/// after one `execute` pass, output layer first.
#[derive(Debug, Clone)]
pub struct Circuit {
    pub layers: Vec<Layer>,
    pub layer_def: Vec<Vec<Vec<usize>>>,
}

/// The view of a layer definition as plain sequences.
pub open spec fn def_view(d: Seq<Vec<Vec<usize>>>) -> Seq<Seq<Seq<usize>>> {
    d.map_values(|l: Vec<Vec<usize>>| l@.map_values(|g: Vec<usize>| g@))
}

/// Whether one gate definition is complete and in range for its layer.
pub open spec fn gate_def_ok(g: Seq<usize>, in_len: nat, out_len: nat) -> bool {
    g.len() >= 5 && (g[2] as nat) < in_len && (g[3] as nat) < in_len && (g[4] as nat) < out_len
}

/// The operation a gate definition encodes.
pub open spec fn gate_def_op(g: Seq<usize>) -> Operation {
    if g[1] == 0 {
        Operation::Add
    } else {
        Operation::Multiply
    }
}

/// The parsed gate of a gate definition.
pub open spec fn gate_from_def(g: Seq<usize>) -> Gate {
    Gate {
        left_input: g[2],
        right_input: g[3],
        operation: gate_def_op(g),
        output: g[4],
    }
}

/// The value a gate definition writes, given the previous layer's values.
pub open spec fn gate_def_val(g: Seq<usize>, inputs: Seq<int>) -> int {
    gate_apply(gate_def_op(g), inputs[g[2] as int], inputs[g[3] as int])
}

/// A layer's output: every gate applied in order, each writing its output
/// position of the zero-initialised table.
pub open spec fn apply_gate_defs(gates: Seq<Seq<usize>>, inputs: Seq<int>, acc: Seq<int>) -> Seq<
    int,
>
    decreases gates.len(),
{
    if gates.len() == 0 {
        acc
    } else {
        apply_gate_defs(gates.drop_last(), inputs, acc).update(
            gates.last()[4] as int,
            gate_def_val(gates.last(), inputs),
        )
    }
}

/// The realized length of layer `i`: the next power of two at or above its
/// gate count, never below two entries (one variable).
pub open spec fn layer_len_def(def: Seq<Seq<Seq<usize>>>, i: int) -> nat {
    if pow2(clog2(def[i].len())) < 2 {
        2
    } else {
        pow2(clog2(def[i].len()))
    }
}

/// Whether every layer's gate count stays within the width budget the
/// realized tables are allocated under.
pub open spec fn def_fits(def: Seq<Seq<Seq<usize>>>) -> bool {
    forall|i: int| 0 <= i < def.len() ==> clog2((#[trigger] def[i]).len()) <= 30
}

/// The output table of layer `i` in execution order, layer 0 reading the
/// circuit inputs.
pub open spec fn layer_result(def: Seq<Seq<Seq<usize>>>, inputs: Seq<int>, i: int) -> Seq<int>
    decreases i + 1,
{
    let prev = if i <= 0 {
        inputs
    } else {
        layer_result(def, inputs, i - 1)
    };
    apply_gate_defs(def[i], prev, Seq::new(layer_len_def(def, i), |m: int| 0int))
}

/// Whether every gate of every layer is complete and in range.
pub open spec fn circuit_def_ok(def: Seq<Seq<Seq<usize>>>, input_len: nat) -> bool {
    forall|i: int, k: int|
        0 <= i < def.len() && 0 <= k < def[i].len() ==> gate_def_ok(
            #[trigger] def[i][k],
            if i == 0 {
                input_len
            } else {
                layer_len_def(def, i - 1)
            },
            layer_len_def(def, i),
        )
}

/// Applying in-range gates keeps the table length.
pub proof fn lemma_apply_len(gates: Seq<Seq<usize>>, inputs: Seq<int>, acc: Seq<int>)
    requires
        forall|t: int|
            0 <= t < gates.len() ==> (#[trigger] gates[t]).len() >= 5 && (gates[t][4] as int)
                < acc.len(),
    ensures
        apply_gate_defs(gates, inputs, acc).len() == acc.len(),
    decreases gates.len(),
{
    if gates.len() > 0 {
        lemma_apply_len(gates.drop_last(), inputs, acc);
    }
}

impl Circuit {
    pub fn new(layer_def: Vec<Vec<Vec<usize>>>) -> (r: Circuit)
        ensures
            r.layers@.len() == 0,
            r.layer_def@ == layer_def@,
    {
        Circuit { layers: Vec::new(), layer_def }
    }

    /// Evaluate the circuit bottom-up on `inputs`, realizing one layer per
    /// entry of the definition, then store the layers output-first.
    pub fn execute(&mut self, inputs: Vec<Fq>) -> (r: Result<(), Error>)
        ensures
            r is Ok <==> circuit_def_ok(def_view(old(self).layer_def@), inputs@.len()) && def_fits(
                def_view(old(self).layer_def@),
            ),
            final(self).layer_def == old(self).layer_def,
            r is Ok ==> {
                let def = def_view(old(self).layer_def@);
                let n = def.len() as int;
                &&& final(self).layers@.len() == n
                &&& forall|i: int|
                    0 <= i < n ==> table_view(
                        (#[trigger] final(self).layers@[i]).layer_output@,
                    ) == layer_result(def, table_view(inputs@), n - 1 - i)
                &&& forall|i: int|
                    0 <= i < n ==> (#[trigger] final(self).layers@[i]).layer_gates@ == def[n - 1
                        - i].map_values(|g: Seq<usize>| gate_from_def(g))
            },
    {
        let ghost def = def_view(self.layer_def@);
        let ghost inputs_view = table_view(inputs@);
        let ghost inputs_len = inputs@.len();
        let no_of_layers = self.layer_def.len();
        let mut built: Vec<Layer> = Vec::new();
        let mut mut_inputs = inputs;
        let mut i: usize = 0;
        while i < no_of_layers
            invariant
                i <= no_of_layers,
                no_of_layers == self.layer_def@.len(),
                def == def_view(self.layer_def@),
                self.layer_def == old(self).layer_def,
                inputs_len == inputs@.len(),
                built@.len() == i,
                table_view(mut_inputs@) == (if i == 0 {
                    inputs_view
                } else {
                    layer_result(def, inputs_view, i - 1)
                }),
                mut_inputs@.len() == (if i == 0 {
                    inputs_len
                } else {
                    layer_len_def(def, i - 1)
                }),
                forall|j: int, k: int|
                    0 <= j < i && 0 <= k < def[j].len() ==> gate_def_ok(
                        #[trigger] def[j][k],
                        if j == 0 {
                            inputs_len
                        } else {
                            layer_len_def(def, j - 1)
                        },
                        layer_len_def(def, j),
                    ),
                forall|j: int| 0 <= j < i ==> clog2((#[trigger] def[j]).len()) <= 30,
                forall|j: int|
                    0 <= j < i ==> table_view((#[trigger] built@[j]).layer_output@)
                        == layer_result(def, inputs_view, j),
                forall|j: int|
                    0 <= j < i ==> (#[trigger] built@[j]).layer_gates@ == def[j].map_values(
                        |g: Seq<usize>| gate_from_def(g),
                    ),
            decreases no_of_layers - i,
        {
            let gate_total = self.layer_def[i].len();
            let c = clog2_exec(gate_total);
            if c > 30 {
                proof {
                    if circuit_def_ok(def, inputs_len) && def_fits(def) {
                        assert(clog2(def[i as int].len()) <= 30);
                        assert(false);
                    }
                }
                return Err(Error::LengthMismatch);
            }
            proof {
                vstd::arithmetic::power2::lemma2_to64();
                if (c as nat) < 30 {
                    vstd::arithmetic::power2::lemma_pow2_strictly_increases(c as nat, 30);
                }
            }
            let raw_len = crate::mle::pow2_exec(c);
            let layer_length: usize = if raw_len < 2 {
                2
            } else {
                raw_len
            };
            proof {
                assert(layer_length as nat == layer_len_def(def, i as int));
            }
            let mut layer: Vec<Fq> = Vec::new();
            let mut z: usize = 0;
            while z < layer_length
                invariant
                    z <= layer_length,
                    layer@.len() == z,
                    forall|m: int| 0 <= m < z ==> (#[trigger] layer@[m]).as_int() == 0,
                decreases layer_length - z,
            {
                layer.push(Fq::zero());
                z += 1;
            }
            let mut layer_gate: Vec<Gate> = Vec::new();
            let gate_count = self.layer_def[i].len();
            let mut k: usize = 0;
            proof {
                assert(table_view(layer@) =~= Seq::new(
                    layer_len_def(def, i as int),
                    |m: int| 0int,
                ));
            }
            while k < gate_count
                invariant
                    k <= gate_count,
                    i < no_of_layers,
                    no_of_layers == self.layer_def@.len(),
                    def == def_view(self.layer_def@),
                    self.layer_def == old(self).layer_def,
                    inputs_len == inputs@.len(),
                    gate_count == def[i as int].len(),
                    mut_inputs@.len() == (if i == 0 {
                        inputs_len
                    } else {
                        layer_len_def(def, i as int - 1)
                    }),
                    layer@.len() == layer_len_def(def, i as int),
                    layer_length == layer_len_def(def, i as int),
                    table_view(layer@) == apply_gate_defs(
                        def[i as int].take(k as int),
                        table_view(mut_inputs@),
                        Seq::new(layer_len_def(def, i as int), |m: int| 0int),
                    ),
                    layer_gate@.len() == k,
                    forall|t: int| 0 <= t < k ==> gate_def_ok(
                        #[trigger] def[i as int][t],
                        mut_inputs@.len(),
                        layer_len_def(def, i as int),
                    ),
                    forall|t: int|
                        0 <= t < k ==> (#[trigger] layer_gate@[t]) == gate_from_def(
                            def[i as int][t],
                        ),
                decreases gate_count - k,
            {
                let gd = &self.layer_def[i][k];
                proof {
                    assert(def[i as int] == self.layer_def@[i as int]@.map_values(
                        |g: Vec<usize>| g@,
                    ));
                    assert(def[i as int][k as int] == gd@);
                }
                if gd.len() < 5 {
                    proof {
                        if circuit_def_ok(def, inputs_len) {
                            assert(gate_def_ok(
                                def[i as int][k as int],
                                if i == 0 {
                                    inputs_len
                                } else {
                                    layer_len_def(def, i as int - 1)
                                },
                                layer_len_def(def, i as int),
                            ));
                            assert(false);
                        }
                    }
                    return Err(Error::LengthMismatch);
                }
                let op = if gd[1] == 0 {
                    Operation::Add
                } else {
                    Operation::Multiply
                };
                let left_input = gd[2];
                let right_input = gd[3];
                let output_index = gd[4];
                if left_input >= mut_inputs.len() || right_input >= mut_inputs.len()
                    || output_index >= layer.len() {
                    proof {
                        if circuit_def_ok(def, inputs_len) {
                            assert(gate_def_ok(
                                def[i as int][k as int],
                                if i == 0 {
                                    inputs_len
                                } else {
                                    layer_len_def(def, i as int - 1)
                                },
                                layer_len_def(def, i as int),
                            ));
                            assert(false);
                        }
                    }
                    return Err(Error::LengthMismatch);
                }
                let new_gate = Gate::new(left_input, right_input, op, output_index);
                let gate_result = new_gate.execute_gate(
                    mut_inputs[left_input],
                    mut_inputs[right_input],
                );
                layer.set(output_index, gate_result);
                layer_gate.push(new_gate);
                proof {
                    let dl = def[i as int];
                    assert(dl.take(k as int + 1).drop_last() =~= dl.take(k as int));
                    assert(dl.take(k as int + 1).last() == dl[k as int]);
                    assert(table_view(layer@) =~= apply_gate_defs(
                        dl.take(k as int + 1),
                        table_view(mut_inputs@),
                        Seq::new(layer_len_def(def, i as int), |m: int| 0int),
                    ));
                }
                k += 1;
            }
            proof {
                assert(def[i as int].take(def[i as int].len() as int) =~= def[i as int]);
                assert(layer_gate@ =~= def[i as int].map_values(|g: Seq<usize>| gate_from_def(g)));
                lemma_apply_len(
                    def[i as int],
                    table_view(mut_inputs@),
                    Seq::new(layer_len_def(def, i as int), |m: int| 0int),
                );
            }
            let stored_output = copy_table(&layer);
            let new_layer = Layer { layer_gates: layer_gate, layer_output: stored_output };
            built.push(new_layer);
            mut_inputs = layer;
            i += 1;
        }
        // reverse: the output layer comes first
        let mut reversed: Vec<Layer> = Vec::new();
        let mut j: usize = built.len();
        let ghost bl = built@;
        while j > 0
            invariant
                j <= bl.len(),
                bl == built@,
                reversed@.len() == bl.len() - j,
                forall|t: int|
                    0 <= t < reversed@.len() ==> (#[trigger] reversed@[t]).layer_output@ == bl[
                        bl.len() - 1 - t].layer_output@ && reversed@[t].layer_gates@ == bl[bl.len()
                        - 1 - t].layer_gates@,
            decreases j,
        {
            j = j - 1;
            let l = built_get(&built, j);
            reversed.push(l);
        }
        self.layers = reversed;
        Ok(())
    }
}

/// A copy of one built layer, so the construction pass can keep its own
/// list intact while the circuit stores the reversed order.
fn built_get(built: &Vec<Layer>, j: usize) -> (r: Layer)
    requires
        j < built@.len(),
    ensures
        r.layer_gates@ == built@[j as int].layer_gates@,
        r.layer_output@ == built@[j as int].layer_output@,
{
    let src = &built[j];
    let gates = copy_gates(&src.layer_gates);
    let out = copy_table(&src.layer_output);
    Layer { layer_gates: gates, layer_output: out }
}

/// A copy of a gate list.
fn copy_gates(v: &Vec<Gate>) -> (r: Vec<Gate>)
    ensures
        r@ == v@,
{
    let mut out: Vec<Gate> = Vec::new();
    let mut i: usize = 0;
    while i < v.len()
        invariant
            i <= v@.len(),
            out@ == v@.take(i as int),
        decreases v@.len() - i,
    {
        out.push(v[i]);
        proof {
            assert(v@.take(i as int + 1) =~= v@.take(i as int).push(v@[i as int]));
        }
        i += 1;
    }
    proof {
        assert(v@.take(v@.len() as int) =~= v@);
    }
    out
}

/// The ceiling of the base-two logarithm.
pub open spec fn clog2(g: nat) -> nat
    decreases g,
{
    if g <= 1 {
        0
    } else {
        1 + clog2(((g + 1) / 2) as nat)
    }
}

pub(crate) proof fn lemma_clog2_le(g: nat, k: nat)
    requires
        g <= pow2(k),
    ensures
        clog2(g) <= k,
    decreases k,
{
    if g <= 1 {
    } else {
        if k == 0 {
            assert(pow2(0) == 1) by { vstd::arithmetic::power2::lemma2_to64(); };
        } else {
            assert((g + 1) / 2 <= pow2((k - 1) as nat)) by {
                vstd::arithmetic::power2::lemma_pow2_adds((k - 1) as nat, 1);
                assert(pow2(1) == 2) by { vstd::arithmetic::power2::lemma2_to64(); };
            };
            lemma_clog2_le(((g + 1) / 2) as nat, (k - 1) as nat);
        }
    }
}

/// Ceiling base-two logarithm of a gate count.
fn clog2_exec(g: usize) -> (r: usize)
    ensures
        r as nat == clog2(g as nat),
        r <= 64,
    decreases g,
{
    proof {
        vstd::arithmetic::power2::lemma2_to64();
        vstd::arithmetic::power2::lemma2_to64_rest();
        lemma_clog2_le(g as nat, 64);
    }
    if g <= 1 {
        0
    } else {
        let half = g / 2 + g % 2;
        proof {
            vstd::arithmetic::div_mod::lemma_fundamental_div_mod(g as int, 2);
            vstd::arithmetic::div_mod::lemma_fundamental_div_mod(g as int + 1, 2);
            assert(half as int == (g as int + 1) / 2);
        }
        1 + clog2_exec(half)
    }
}

/// The clamped layer position: out-of-range requests read the last layer.
pub open spec fn clamp_idx(len: nat, i: nat) -> int {
    if i < len {
        i as int
    } else {
        len - 1
    }
}

/// A table zero-padded on the right to the given length.
pub open spec fn pad_table(t: Seq<int>, len: nat) -> Seq<int> {
    t + Seq::new((len - t.len()) as nat, |m: int| 0int)
}

/// The hypercube position of a gate in the `(output, left, right)`
/// bit-concatenation space, each operand `w` bits wide.
pub open spec fn gate_index(g: Gate, w: nat) -> int {
    (g.output as int) * pow2(2 * w) as int + (g.left_input as int) * pow2(w) as int
        + g.right_input as int
}

/// Whether a gate's positions fit the `output_bit`-bit output space and
/// `w`-bit operand spaces.
pub open spec fn gate_fits(g: Gate, ob: nat, w: nat) -> bool {
    (g.output as nat) < pow2(ob) && (g.left_input as nat) < pow2(w) && (g.right_input as nat)
        < pow2(w)
}

/// The `add` indicator table: 1 at each addition gate's concatenated
/// position, 0 elsewhere, gates applied in order.
pub open spec fn addi_table(gates: Seq<Gate>, len: nat, w: nat) -> Seq<int>
    decreases gates.len(),
{
    if gates.len() == 0 {
        Seq::new(len, |m: int| 0int)
    } else {
        let rest = addi_table(gates.drop_last(), len, w);
        if gates.last().operation == Operation::Add && 0 <= gate_index(gates.last(), w)
            < len {
            rest.update(gate_index(gates.last(), w), 1)
        } else {
            rest
        }
    }
}

/// The `mul` indicator table, the multiplication gates' counterpart.
pub open spec fn muli_table(gates: Seq<Gate>, len: nat, w: nat) -> Seq<int>
    decreases gates.len(),
{
    if gates.len() == 0 {
        Seq::new(len, |m: int| 0int)
    } else {
        let rest = muli_table(gates.drop_last(), len, w);
        if gates.last().operation == Operation::Multiply && 0 <= gate_index(gates.last(), w)
            < len {
            rest.update(gate_index(gates.last(), w), 1)
        } else {
            rest
        }
    }
}

/// Both indicator tables keep the stated length.
pub proof fn lemma_indicator_len(gates: Seq<Gate>, len: nat, w: nat)
    ensures
        addi_table(gates, len, w).len() == len,
        muli_table(gates, len, w).len() == len,
    decreases gates.len(),
{
    if gates.len() > 0 {
        lemma_indicator_len(gates.drop_last(), len, w);
    }
}

/// A gate that fits its spaces indexes inside the indicator table.
proof fn lemma_gate_index_bound(g: Gate, ob: nat, w: nat)
    requires
        gate_fits(g, ob, w),
    ensures
        0 <= gate_index(g, w) < pow2(ob + 2 * w),
{
    let a = g.output as int;
    let b = g.left_input as int;
    let c = g.right_input as int;
    let pw = pow2(w) as int;
    let pw2 = pow2(2 * w) as int;
    let pob = pow2(ob) as int;
    vstd::arithmetic::power2::lemma_pow2_adds(w, w);
    assert(pw2 == pw * pw);
    vstd::arithmetic::power2::lemma_pow2_adds(ob, 2 * w);
    assert(pow2(ob + 2 * w) == pob * pw2);
    vstd::arithmetic::power2::lemma_pow2_pos(w);
    vstd::arithmetic::power2::lemma_pow2_pos(ob);
    assert(a * pw2 + b * pw + c < pob * pw2) by (nonlinear_arith)
        requires
            0 <= a < pob,
            0 <= b < pw,
            0 <= c < pw,
            pw >= 1,
            pw2 == pw * pw,
    ;
    assert(a * pw2 >= 0) by (nonlinear_arith)
        requires
            a >= 0,
            pw2 >= 0,
    ;
    assert(b * pw >= 0) by (nonlinear_arith)
        requires
            b >= 0,
            pw >= 0,
    ;
}

/// The full `(b, c)` pair space over a `v`-variable table: the left factor
/// reads the `b` half of the index, the right factor the `c` half.
pub open spec fn wi_pair_add(t: Seq<int>, v: nat) -> Seq<int> {
    Seq::new(
        pow2(2 * v),
        |j: int|
            fadd(
                pad_table(t, pow2(v))[j / pow2(v) as int],
                pad_table(t, pow2(v))[j % pow2(v) as int],
            ),
    )
}

/// The pointwise-product counterpart of `wi_pair_add`.
pub open spec fn wi_pair_mul(t: Seq<int>, v: nat) -> Seq<int> {
    Seq::new(
        pow2(2 * v),
        |j: int|
            fmul(
                pad_table(t, pow2(v))[j / pow2(v) as int],
                pad_table(t, pow2(v))[j % pow2(v) as int],
            ),
    )
}

impl Circuit {
    /// The bit lengths of one layer's wiring space: the output index width
    /// (at least one bit) and the total width of the two operand halves the
    /// layer's sum-check runs over.  The operand half-width is the raw
    /// `ceil(log2(gates)) + 1`, without the one-bit minimum the output
    /// width carries: the halves must match the next layer's variable
    /// count, and bumping them for a single-gate layer would leave every
    /// product term of the layer's claim polynomial on mismatched variable
    /// counts and break the end-to-end argument.
    pub fn get_bit_len(&self, layer_index: usize) -> (r: (u32, u32))
        requires
            self.layers@.len() >= 1,
        ensures
            ({
                let gc = self.layers@[clamp_idx(self.layers@.len(), layer_index as nat)].layer_gates@.len();
                &&& r.0 == (if clog2(gc) == 0 {
                    1nat
                } else {
                    clog2(gc)
                })
                &&& r.1 == (clog2(gc) + 1) * 2
                &&& clog2(gc) <= 64
            }),
    {
        let target_layer = if layer_index < self.layers.len() {
            &self.layers[layer_index]
        } else {
            &self.layers[self.layers.len() - 1]
        };
        let num_gates = target_layer.layer_gates.len();
        proof {
            if num_gates < usize::MAX {
            }
        }
        let log_base_2 = clog2_exec(num_gates) as u32;
        let output_bit = if log_base_2 == 0 {
            log_base_2 + 1
        } else {
            log_base_2
        };
        let total_bc_bit = (log_base_2 + 1) * 2;
        (output_bit, total_bc_bit)
    }

    /// The variable count of a layer's output table once one extra variable
    /// is injected for the blow-up.
    pub fn calculate_num_vars_after_blowup(&self, layer_index: usize) -> (r: u32)
        requires
            self.layers@.len() >= 1,
        ensures
            ({
                let gc = self.layers@[clamp_idx(self.layers@.len(), layer_index as nat)].layer_gates@.len();
                &&& r == (if clog2(gc) == 0 {
                    1nat
                } else {
                    clog2(gc)
                }) + 1
                &&& r <= 65
            }),
    {
        let target_layer = if layer_index < self.layers.len() {
            &self.layers[layer_index]
        } else {
            &self.layers[self.layers.len() - 1]
        };
        let num_gates = target_layer.layer_gates.len();
        let base_vars = if num_gates <= 1 {
            1
        } else {
            clog2_exec(num_gates) as u32
        };
        base_vars + 1
    }

    /// The two wiring indicator tables of a layer: entry 1 at each gate's
    /// `(output, left, right)` concatenated position in the `add` table for
    /// addition gates and in the `mul` table for multiplication gates, 0
    /// everywhere else.
    pub fn addi_muli_function(&mut self, layer_index: usize) -> (r: Result<(Vec<Fq>, Vec<Fq>), Error>)
        requires
            old(self).layers@.len() >= 1,
        ensures
            *final(self) == *old(self),
            r is Ok <==> ({
                let gates = old(self).layers@[clamp_idx(
                    old(self).layers@.len(),
                    layer_index as nat,
                )].layer_gates@;
                let ob = if clog2(gates.len()) == 0 {
                    1nat
                } else {
                    clog2(gates.len())
                };
                let tbc = (clog2(gates.len()) + 1) * 2;
                let w = (ob + 1) as nat;
                let len = pow2((ob + tbc) as nat);
                &&& ob + tbc <= 30
                &&& forall|k: int|
                    0 <= k < gates.len() ==> 0 <= gate_index(#[trigger] gates[k], w) < len
            }),
            r matches Err(e) ==> e == Error::LengthMismatch,
            r matches Ok(t) ==> ({
                let gates = old(self).layers@[clamp_idx(
                    old(self).layers@.len(),
                    layer_index as nat,
                )].layer_gates@;
                let ob = if clog2(gates.len()) == 0 {
                    1nat
                } else {
                    clog2(gates.len())
                };
                let tbc = (clog2(gates.len()) + 1) * 2;
                let w = (ob + 1) as nat;
                let len = pow2((ob + tbc) as nat);
                &&& t.0@.len() == len
                &&& t.1@.len() == len
                &&& table_view(t.0@) == addi_table(gates, len, w)
                &&& table_view(t.1@) == muli_table(gates, len, w)
                &&& forall|k: int|
                    0 <= k < gates.len() ==> 0 <= gate_index(#[trigger] gates[k], w) < len
            }),
    {
        let idx = if layer_index < self.layers.len() {
            layer_index
        } else {
            self.layers.len() - 1
        };
        let (output_bit, total_bc) = self.get_bit_len(layer_index);
        let exp = (output_bit + total_bc) as usize;
        if exp > 30 {
            return Err(Error::LengthMismatch);
        }
        proof {
            vstd::arithmetic::power2::lemma2_to64();
            if (exp as nat) < 30 {
                vstd::arithmetic::power2::lemma_pow2_strictly_increases(exp as nat, 30);
            }
        }
        let table_len = crate::mle::pow2_exec(exp);
        let w_exp = (output_bit + 1) as usize;
        proof {
            // the operand width is within the table's exponent budget
            assert(2 * w_exp <= 30);
            if (w_exp as nat) < 30 {
                vstd::arithmetic::power2::lemma_pow2_strictly_increases(w_exp as nat, 30);
            }
            if ((2 * w_exp) as nat) < 30 {
                vstd::arithmetic::power2::lemma_pow2_strictly_increases((2 * w_exp) as nat, 30);
            }
        }
        let pw = crate::mle::pow2_exec(w_exp);
        let ghost gates_view = self.layers@[idx as int].layer_gates@;
        let ghost ww = w_exp as nat;
        let ghost tl = table_len as nat;
        let gate_count = self.layers[idx].layer_gates.len();
        let mut addi_result: Vec<Fq> = Vec::new();
        let mut muli_result: Vec<Fq> = Vec::new();
        let mut z: usize = 0;
        while z < table_len
            invariant
                z <= table_len,
                addi_result@.len() == z,
                muli_result@.len() == z,
                forall|m: int| 0 <= m < z ==> (#[trigger] addi_result@[m]).as_int() == 0,
                forall|m: int| 0 <= m < z ==> (#[trigger] muli_result@[m]).as_int() == 0,
            decreases table_len - z,
        {
            addi_result.push(Fq::zero());
            muli_result.push(Fq::zero());
            z += 1;
        }
        proof {
            assert(table_view(addi_result@) =~= addi_table(gates_view.take(0), tl, ww));
            assert(table_view(muli_result@) =~= muli_table(gates_view.take(0), tl, ww));
        }
        let mut k: usize = 0;
        while k < gate_count
            invariant
                k <= gate_count,
                idx < self.layers@.len(),
                idx as int == clamp_idx(old(self).layers@.len(), layer_index as nat),
                gates_view == self.layers@[idx as int].layer_gates@,
                gate_count == gates_view.len(),
                *self == *old(self),
                tl == table_len as nat,
                tl == pow2(exp as nat),
                exp <= 30,
                ww == w_exp as nat,
                ww == (if clog2(gates_view.len()) == 0 {
                    1nat
                } else {
                    clog2(gates_view.len())
                }) + 1,
                exp as nat == (if clog2(gates_view.len()) == 0 {
                    1nat
                } else {
                    clog2(gates_view.len())
                }) + (clog2(gates_view.len()) + 1) * 2,
                2 * w_exp <= 30,
                pw as nat == pow2(ww),
                addi_result@.len() == tl,
                muli_result@.len() == tl,
                table_view(addi_result@) == addi_table(gates_view.take(k as int), tl, ww),
                table_view(muli_result@) == muli_table(gates_view.take(k as int), tl, ww),
                forall|t: int|
                    0 <= t < k ==> 0 <= gate_index(#[trigger] gates_view[t], ww) < tl,
            decreases gate_count - k,
        {
            let gate = self.layers[idx].layer_gates[k];
            proof {
                vstd::arithmetic::power2::lemma2_to64();
                vstd::arithmetic::power2::lemma_pow2_adds(ww, ww);
                if ((2 * w_exp) as nat) < 30 {
                    vstd::arithmetic::power2::lemma_pow2_strictly_increases(
                        (2 * w_exp) as nat,
                        30,
                    );
                }
                vstd::arithmetic::power2::lemma_pow2_pos(ww);
            }
            let pw2 = pw * pw;
            proof {
                assert((gate.output as int) * (pw2 as int) < 0x100000000000000000000000000)
                    by (nonlinear_arith)
                    requires
                        0 <= gate.output <= 0xFFFFFFFFFFFFFFFFu128,
                        0 <= pw2 <= 0x40000000,
                ;
                assert((gate.left_input as int) * (pw as int) < 0x100000000000000000000000000)
                    by (nonlinear_arith)
                    requires
                        0 <= gate.left_input <= 0xFFFFFFFFFFFFFFFFu128,
                        0 <= pw <= 0x40000000,
                ;
            }
            let high_w: u128 = (gate.output as u128) * (pw2 as u128);
            let mid_w: u128 = (gate.left_input as u128) * (pw as u128);
            let value_wide: u128 = high_w + mid_w + (gate.right_input as u128);
            proof {
                assert((gate.output as int) * (pw2 as int) >= 0) by (nonlinear_arith)
                    requires
                        gate.output >= 0,
                        pw2 >= 0,
                ;
                assert((gate.left_input as int) * (pw as int) >= 0) by (nonlinear_arith)
                    requires
                        gate.left_input >= 0,
                        pw >= 0,
                ;
                assert(value_wide as int == gate_index(gate, ww));
            }
            if value_wide >= table_len as u128 {
                return Err(Error::LengthMismatch);
            }
            let value = value_wide as usize;
            proof {
                assert(value as int == gate_index(gate, ww));
            }
            if gate.operation == Operation::Add {
                addi_result.set(value, Fq::one());
            } else {
                muli_result.set(value, Fq::one());
            }
            proof {
                assert(gates_view.take(k as int + 1).drop_last() =~= gates_view.take(k as int));
                assert(gates_view.take(k as int + 1).last() == gates_view[k as int]);
                assert(table_view(addi_result@) =~= addi_table(
                    gates_view.take(k as int + 1),
                    tl,
                    ww,
                ));
                assert(table_view(muli_result@) =~= muli_table(
                    gates_view.take(k as int + 1),
                    tl,
                    ww,
                ));
            }
            k += 1;
        }
        proof {
            assert(gates_view.take(gates_view.len() as int) =~= gates_view);
        }
        Ok((addi_result, muli_result))
    }
}

impl Circuit {
    /// Pad a layer's output table with zeros to the blown-up half length
    /// `2^(nva-1)`.
    pub(crate) fn padded_output(&self, idx: usize, half: usize) -> (r: Result<Vec<Fq>, Error>)
        requires
            idx < self.layers@.len(),
        ensures
            r matches Ok(out) ==> {
                &&& self.layers@[idx as int].layer_output@.len() <= half
                &&& out@.len() == half
                &&& table_view(out@) == pad_table(
                    table_view(self.layers@[idx as int].layer_output@),
                    half as nat,
                )
            },
            r is Err <==> self.layers@[idx as int].layer_output@.len() > half,
    {
        let src = &self.layers[idx].layer_output;
        if src.len() > half {
            return Err(Error::LengthMismatch);
        }
        let mut padded = copy_table(src);
        while padded.len() < half
            invariant
                padded@.len() <= half,
                src@.len() <= padded@.len(),
                table_view(padded@) == table_view(src@) + Seq::new(
                    (padded@.len() - src@.len()) as nat,
                    |m: int| 0int,
                ),
            decreases half - padded@.len(),
        {
            let ghost pre = padded@;
            padded.push(Fq::zero());
            proof {
                assert(padded@ == pre.push(padded@[pre.len() as int]));
                assert(table_view(padded@) =~= table_view(pre).push(
                    padded@[pre.len() as int].as_int(),
                ));
                assert(table_view(padded@) =~= table_view(src@) + Seq::new(
                    (padded@.len() - src@.len()) as nat,
                    |m: int| 0int,
                ));
            }
        }
        proof {
            assert(table_view(padded@) =~= pad_table(table_view(src@), half as nat));
        }
        Ok(padded)
    }

    /// The layer's output table, zero-padded, blown up by one new variable
    /// at `index_of_new_var` into the `nva`-variable space.
    pub fn get_wi_x_func(&self, layer_index: usize, index_of_new_var: u32) -> (r: Result<
        Vec<Fq>,
        Error,
    >)
        requires
            self.layers@.len() >= 1,
        ensures
            r is Ok <==> ({
                let ci = clamp_idx(self.layers@.len(), layer_index as nat);
                let gc = self.layers@[ci].layer_gates@.len();
                let lv = table_view(self.layers@[ci].layer_output@);
                let nva = ((if clog2(gc) == 0 {
                    1nat
                } else {
                    clog2(gc)
                }) + 1) as nat;
                &&& nva - 1 <= 30
                &&& (index_of_new_var as nat) < nva
                &&& lv.len() <= pow2((nva - 1) as nat)
            }),
            r matches Ok(out) ==> ({
                let ci = clamp_idx(self.layers@.len(), layer_index as nat);
                let gc = self.layers@[ci].layer_gates@.len();
                let lv = table_view(self.layers@[ci].layer_output@);
                let nva = ((if clog2(gc) == 0 {
                    1nat
                } else {
                    clog2(gc)
                }) + 1) as nat;
                &&& (index_of_new_var as nat) < nva
                &&& lv.len() <= pow2((nva - 1) as nat)
                &&& out@.len() == pow2(nva)
                &&& table_view(out@) == crate::mle::blow_spec(
                    pad_table(lv, pow2((nva - 1) as nat)),
                    pow2((nva - 1 - index_of_new_var) as nat) as int,
                )
            }),
    {
        let idx = if layer_index < self.layers.len() {
            layer_index
        } else {
            self.layers.len() - 1
        };
        let nva = self.calculate_num_vars_after_blowup(layer_index) as usize;
        if nva - 1 > 30 {
            return Err(Error::LengthMismatch);
        }
        if (index_of_new_var as usize) >= nva {
            return Err(Error::InvalidVariableIndex);
        }
        proof {
            vstd::arithmetic::power2::lemma2_to64();
            if ((nva - 1) as nat) < 30 {
                vstd::arithmetic::power2::lemma_pow2_strictly_increases((nva - 1) as nat, 30);
            }
        }
        let half = crate::mle::pow2_exec(nva - 1);
        let padded = match self.padded_output(idx, half) {
            Ok(p) => p,
            Err(e) => {
                return Err(e);
            },
        };
        proof {
            vstd::arithmetic::power2::lemma_pow2_adds((nva - 1) as nat, 1);
            assert(pow2(1) == 2) by { vstd::arithmetic::power2::lemma2_to64(); };
        }
        match crate::mle::blow_up(padded, index_of_new_var, nva as u32) {
            Ok(out) => Ok(out),
            Err(e) => {
                proof {
                    assert(false);
                }
                Err(e)
            },
        }
    }

    /// The last variant reads the named layer directly, without clamping,
    /// and uses exactly the first `2^(nva-1)` entries of its output.
    pub fn get_last_layer_wi_x_func(&self, layer_index: usize, index_of_new_var: u32) -> (r: Result<
        Vec<Fq>,
        Error,
    >)
        ensures
            r is Ok <==> layer_index < self.layers@.len() && ({
                let gc = self.layers@[layer_index as int].layer_gates@.len();
                let lv = table_view(self.layers@[layer_index as int].layer_output@);
                let nva = ((if clog2(gc) == 0 {
                    1nat
                } else {
                    clog2(gc)
                }) + 1) as nat;
                &&& nva - 1 <= 30
                &&& (index_of_new_var as nat) < nva
                &&& lv.len() >= pow2((nva - 1) as nat)
            }),
            r matches Ok(out) ==> ({
                let gc = self.layers@[layer_index as int].layer_gates@.len();
                let lv = table_view(self.layers@[layer_index as int].layer_output@);
                let nva = ((if clog2(gc) == 0 {
                    1nat
                } else {
                    clog2(gc)
                }) + 1) as nat;
                &&& layer_index < self.layers@.len()
                &&& (index_of_new_var as nat) < nva
                &&& lv.len() >= pow2((nva - 1) as nat)
                &&& out@.len() == pow2(nva)
                &&& table_view(out@) == crate::mle::blow_spec(
                    lv.take(pow2((nva - 1) as nat) as int),
                    pow2((nva - 1 - index_of_new_var) as nat) as int,
                )
            }),
    {
        if layer_index >= self.layers.len() {
            return Err(Error::LengthMismatch);
        }
        let nva = self.calculate_num_vars_after_blowup(layer_index) as usize;
        if nva - 1 > 30 {
            return Err(Error::LengthMismatch);
        }
        if (index_of_new_var as usize) >= nva {
            return Err(Error::InvalidVariableIndex);
        }
        proof {
            vstd::arithmetic::power2::lemma2_to64();
            if ((nva - 1) as nat) < 30 {
                vstd::arithmetic::power2::lemma_pow2_strictly_increases((nva - 1) as nat, 30);
            }
        }
        let half = crate::mle::pow2_exec(nva - 1);
        let src = &self.layers[layer_index].layer_output;
        if src.len() < half {
            return Err(Error::LengthMismatch);
        }
        let mut truncated: Vec<Fq> = Vec::new();
        let mut m: usize = 0;
        while m < half
            invariant
                m <= half,
                half <= src@.len(),
                truncated@ == src@.take(m as int),
            decreases half - m,
        {
            truncated.push(src[m]);
            proof {
                assert(src@.take(m as int + 1) =~= src@.take(m as int).push(src@[m as int]));
            }
            m += 1;
        }
        proof {
            vstd::arithmetic::power2::lemma_pow2_adds((nva - 1) as nat, 1);
            assert(pow2(1) == 2) by { vstd::arithmetic::power2::lemma2_to64(); };
            assert(table_view(truncated@) =~= table_view(src@).take(half as int));
        }
        match crate::mle::blow_up(truncated, index_of_new_var, nva as u32) {
            Ok(out) => Ok(out),
            Err(e) => {
                proof {
                    assert(false);
                }
                Err(e)
            },
        }
    }

    /// The zero-padded output table of the clamped layer together with its
    /// variable count, the shared base of the pair-space tables.
    fn pair_base(&self, layer_index: usize) -> (r: Result<(Vec<Fq>, usize, usize), Error>)
        requires
            self.layers@.len() >= 1,
        ensures
            r is Ok <==> ({
                let ci = clamp_idx(self.layers@.len(), layer_index as nat);
                let gc = self.layers@[ci].layer_gates@.len();
                let lv = table_view(self.layers@[ci].layer_output@);
                let v = (if clog2(gc) == 0 {
                    1nat
                } else {
                    clog2(gc)
                }) as nat;
                2 * v <= 30 && lv.len() <= pow2(v)
            }),
            r matches Ok(t) ==> ({
                let ci = clamp_idx(self.layers@.len(), layer_index as nat);
                let gc = self.layers@[ci].layer_gates@.len();
                let lv = table_view(self.layers@[ci].layer_output@);
                let v = (if clog2(gc) == 0 {
                    1nat
                } else {
                    clog2(gc)
                }) as nat;
                &&& t.1 as nat == pow2(v)
                &&& t.2 == v
                &&& 2 * t.2 <= 30
                &&& lv.len() <= pow2(v)
                &&& table_view(t.0@) == pad_table(lv, pow2(v))
                &&& t.0@.len() == pow2(v)
            }),
    {
        let idx = if layer_index < self.layers.len() {
            layer_index
        } else {
            self.layers.len() - 1
        };
        let nva = self.calculate_num_vars_after_blowup(layer_index) as usize;
        let v = nva - 1;
        if 2 * v > 30 {
            return Err(Error::LengthMismatch);
        }
        proof {
            vstd::arithmetic::power2::lemma2_to64();
            if (v as nat) < 30 {
                vstd::arithmetic::power2::lemma_pow2_strictly_increases(v as nat, 30);
            }
        }
        let s = crate::mle::pow2_exec(v);
        let padded = match self.padded_output(idx, s) {
            Ok(p) => p,
            Err(e) => {
                return Err(e);
            },
        };
        Ok((padded, s, v))
    }

    /// The sum, over the full `(b, c)` pair space, of the layer's output
    /// read at the `b` half and at the `c` half of each position.
    pub fn add_wi_x_poly(&self, layer_index: usize) -> (r: Result<Vec<Fq>, Error>)
        requires
            self.layers@.len() >= 1,
        ensures
            r is Ok <==> ({
                let ci = clamp_idx(self.layers@.len(), layer_index as nat);
                let gc = self.layers@[ci].layer_gates@.len();
                let lv = table_view(self.layers@[ci].layer_output@);
                let v = (if clog2(gc) == 0 {
                    1nat
                } else {
                    clog2(gc)
                }) as nat;
                2 * v <= 30 && lv.len() <= pow2(v)
            }),
            r matches Ok(out) ==> ({
                let ci = clamp_idx(self.layers@.len(), layer_index as nat);
                let gc = self.layers@[ci].layer_gates@.len();
                let lv = table_view(self.layers@[ci].layer_output@);
                let v = (if clog2(gc) == 0 {
                    1nat
                } else {
                    clog2(gc)
                }) as nat;
                &&& lv.len() <= pow2(v)
                &&& out@.len() == pow2(2 * v)
                &&& table_view(out@) == wi_pair_add(lv, v)
            }),
    {
        let (padded, s, v) = match self.pair_base(layer_index) {
            Ok(t) => t,
            Err(e) => {
                return Err(e);
            },
        };
        proof {
            vstd::arithmetic::power2::lemma_pow2_adds(v as nat, v as nat);
            vstd::arithmetic::power2::lemma_pow2_pos(v as nat);
            if ((2 * v) as nat) < 30 {
                vstd::arithmetic::power2::lemma_pow2_strictly_increases((2 * v) as nat, 30);
            }
            assert(pow2(30) == 0x40000000) by { vstd::arithmetic::power2::lemma2_to64(); };
        }
        let total = crate::mle::pow2_exec(2 * v);
        let mut out: Vec<Fq> = Vec::new();
        let mut j: usize = 0;
        while j < total
            invariant
                j <= total,
                s >= 1,
                total as nat == pow2((2 * v) as nat),
                total as int == (s as int) * (s as int),
                padded@.len() == s,
                out@.len() == j,
                forall|t: int|
                    0 <= t < j ==> (#[trigger] out@[t]).as_int() == fadd(
                        table_view(padded@)[t / (s as int)],
                        table_view(padded@)[t % (s as int)],
                    ),
            decreases total - j,
        {
            proof {
                vstd::arithmetic::div_mod::lemma_mod_bound(j as int, s as int);
                vstd::arithmetic::div_mod::lemma_div_pos_is_pos(j as int, s as int);
                vstd::arithmetic::div_mod::lemma_multiply_divide_lt(j as int, s as int, s as int);
            }
            let b_half = padded[j / s];
            let c_half = padded[j % s];
            out.push(b_half.add(c_half));
            j += 1;
        }
        proof {
            let ci = clamp_idx(self.layers@.len(), layer_index as nat);
            let lv = table_view(self.layers@[ci].layer_output@);
            assert(table_view(out@) =~= wi_pair_add(lv, v as nat));
        }
        Ok(out)
    }

    /// The product counterpart of `add_wi_x_poly` over the same pair space.
    pub fn mul_wi_x_poly(&self, layer_index: usize) -> (r: Result<Vec<Fq>, Error>)
        requires
            self.layers@.len() >= 1,
        ensures
            r is Ok <==> ({
                let ci = clamp_idx(self.layers@.len(), layer_index as nat);
                let gc = self.layers@[ci].layer_gates@.len();
                let lv = table_view(self.layers@[ci].layer_output@);
                let v = (if clog2(gc) == 0 {
                    1nat
                } else {
                    clog2(gc)
                }) as nat;
                2 * v <= 30 && lv.len() <= pow2(v)
            }),
            r matches Ok(out) ==> ({
                let ci = clamp_idx(self.layers@.len(), layer_index as nat);
                let gc = self.layers@[ci].layer_gates@.len();
                let lv = table_view(self.layers@[ci].layer_output@);
                let v = (if clog2(gc) == 0 {
                    1nat
                } else {
                    clog2(gc)
                }) as nat;
                &&& lv.len() <= pow2(v)
                &&& out@.len() == pow2(2 * v)
                &&& table_view(out@) == wi_pair_mul(lv, v)
            }),
    {
        let (padded, s, v) = match self.pair_base(layer_index) {
            Ok(t) => t,
            Err(e) => {
                return Err(e);
            },
        };
        proof {
            vstd::arithmetic::power2::lemma_pow2_adds(v as nat, v as nat);
            vstd::arithmetic::power2::lemma_pow2_pos(v as nat);
            if ((2 * v) as nat) < 30 {
                vstd::arithmetic::power2::lemma_pow2_strictly_increases((2 * v) as nat, 30);
            }
            assert(pow2(30) == 0x40000000) by { vstd::arithmetic::power2::lemma2_to64(); };
        }
        let total = crate::mle::pow2_exec(2 * v);
        let mut out: Vec<Fq> = Vec::new();
        let mut j: usize = 0;
        while j < total
            invariant
                j <= total,
                s >= 1,
                total as nat == pow2((2 * v) as nat),
                total as int == (s as int) * (s as int),
                padded@.len() == s,
                out@.len() == j,
                forall|t: int|
                    0 <= t < j ==> (#[trigger] out@[t]).as_int() == fmul(
                        table_view(padded@)[t / (s as int)],
                        table_view(padded@)[t % (s as int)],
                    ),
            decreases total - j,
        {
            proof {
                vstd::arithmetic::div_mod::lemma_mod_bound(j as int, s as int);
                vstd::arithmetic::div_mod::lemma_div_pos_is_pos(j as int, s as int);
                vstd::arithmetic::div_mod::lemma_multiply_divide_lt(j as int, s as int, s as int);
            }
            let b_half = padded[j / s];
            let c_half = padded[j % s];
            out.push(b_half.mul(c_half));
            j += 1;
        }
        proof {
            let ci = clamp_idx(self.layers@.len(), layer_index as nat);
            let lv = table_view(self.layers@[ci].layer_output@);
            assert(table_view(out@) =~= wi_pair_mul(lv, v as nat));
        }
        Ok(out)
    }
}

/// The first cross-layer challenge: squeezed after absorbing the claimed
/// half-evaluation `W(r_b)`.
pub open spec fn alpha_of(t0: Seq<u8>, wrb: Seq<int>) -> int {
    squeeze_val(t0 + poly_bytes(wrb))
}

/// The second cross-layer challenge: squeezed after absorbing `W(r_c)` as
/// well.
pub open spec fn beta_of(t0: Seq<u8>, wrb: Seq<int>, wrc: Seq<int>) -> int {
    squeeze_val(squeeze_state(t0 + poly_bytes(wrb)) + poly_bytes(wrc))
}

/// The random linear combination `a * ta + b * tb`, pointwise.
pub open spec fn combined_table(ta: Seq<int>, tb: Seq<int>, a: int, b: int) -> Seq<int> {
    Seq::new(ta.len(), |i: int| fadd(fmul(ta[i], a), fmul(tb[i], b)))
}

impl Circuit {
    /// The claim polynomial of one layer: its wiring indicator tables with
    /// the output variables fixed at the caller's challenge point, each
    /// paired with the next layer's output blown into the `(b, c)` space.
    pub fn get_fbc_poly(&mut self, layer_index: usize, a_value: Vec<Fq>) -> (r: Result<
        SumPoly,
        Error,
    >)
        requires
            old(self).layers@.len() >= 1,
        ensures
            *final(self) == *old(self),
            r is Ok <==> ({
                let ci = clamp_idx(old(self).layers@.len(), layer_index as nat);
                let gates = old(self).layers@[ci].layer_gates@;
                let ob = if clog2(gates.len()) == 0 {
                    1nat
                } else {
                    clog2(gates.len())
                };
                let tbc = (clog2(gates.len()) + 1) * 2;
                let w = (ob + 1) as nat;
                let len = pow2((ob + tbc) as nat);
                let cn = clamp_idx(old(self).layers@.len(), layer_index as nat + 1);
                let gcn = old(self).layers@[cn].layer_gates@.len();
                let lvn = table_view(old(self).layers@[cn].layer_output@);
                let vn = (if clog2(gcn) == 0 {
                    1nat
                } else {
                    clog2(gcn)
                }) as nat;
                &&& ob + tbc <= 30
                &&& (forall|k: int|
                    0 <= k < gates.len() ==> 0 <= gate_index(#[trigger] gates[k], w) < len)
                &&& ob <= a_value@.len()
                &&& 2 * vn <= 30
                &&& lvn.len() <= pow2(vn)
            }),
            r matches Ok(sp) ==> ({
                let ci = clamp_idx(old(self).layers@.len(), layer_index as nat);
                let gates = old(self).layers@[ci].layer_gates@;
                let ob = if clog2(gates.len()) == 0 {
                    1nat
                } else {
                    clog2(gates.len())
                };
                let tbc = (clog2(gates.len()) + 1) * 2;
                let w = (ob + 1) as nat;
                let len = pow2((ob + tbc) as nat);
                let cn = clamp_idx(old(self).layers@.len(), layer_index as nat + 1);
                let gcn = old(self).layers@[cn].layer_gates@.len();
                let lvn = table_view(old(self).layers@[cn].layer_output@);
                let vn = (if clog2(gcn) == 0 {
                    1nat
                } else {
                    clog2(gcn)
                }) as nat;
                let avals = table_view(a_value@).take(ob as int);
                sp.view_terms() == seq![
                    seq![fold0_chain(addi_table(gates, len, w), avals), wi_pair_add(lvn, vn)],
                    seq![fold0_chain(muli_table(gates, len, w), avals), wi_pair_mul(lvn, vn)],
                ]
            }),
    {
        let (a_bits, _) = self.get_bit_len(layer_index);
        let pair = match self.addi_muli_function(layer_index) {
            Ok(t) => t,
            Err(e) => {
                return Err(e);
            },
        };
        let (addi_poly, muli_poly) = pair;
        if (a_bits as usize) > a_value.len() {
            return Err(Error::LengthMismatch);
        }
        proof {
            // both indicator tables are powers of two wide enough for the
            // output-variable fold, so these folds cannot fail
            let ci = clamp_idx(self.layers@.len(), layer_index as nat);
            let gates = self.layers@[ci].layer_gates@;
            let ob = if clog2(gates.len()) == 0 {
                1nat
            } else {
                clog2(gates.len())
            };
            let tbc = (clog2(gates.len()) + 1) * 2;
            crate::gkr_sum_check::lemma_num_vars_pow2((ob + tbc) as nat);
        }
        let add_rbc = match crate::mle::fold_prefix(addi_poly, &a_value, a_bits as usize) {
            Ok(t) => t,
            Err(e) => {
                proof {
                    assert(false);
                }
                return Err(e);
            },
        };
        let mul_rbc = match crate::mle::fold_prefix(muli_poly, &a_value, a_bits as usize) {
            Ok(t) => t,
            Err(e) => {
                proof {
                    assert(false);
                }
                return Err(e);
            },
        };
        let next_index = if layer_index >= self.layers.len() - 1 {
            self.layers.len() - 1
        } else {
            layer_index + 1
        };
        proof {
            assert(clamp_idx(self.layers@.len(), layer_index as nat + 1) == next_index as int);
        }
        let wbc_from_add = match self.add_wi_x_poly(next_index) {
            Ok(t) => t,
            Err(e) => {
                return Err(e);
            },
        };
        let wbc_from_mul = match self.mul_wi_x_poly(next_index) {
            Ok(t) => t,
            Err(e) => {
                return Err(e);
            },
        };
        proof {
            lemma_table_view_take(a_value@, a_bits as int);
        }
        let term_add = ProductPoly::new(vec![add_rbc, wbc_from_add]);
        let term_mul = ProductPoly::new(vec![mul_rbc, wbc_from_mul]);
        let sp = SumPoly::new(vec![term_add, term_mul]);
        proof {
            assert(clamp_idx(self.layers@.len(), layer_index as nat + 1) == next_index as int);
            assert(sp.view_terms() =~~= seq![
                seq![
                    table_view(sp.product_polys@[0].polys@[0]@),
                    table_view(sp.product_polys@[0].polys@[1]@),
                ],
                seq![
                    table_view(sp.product_polys@[1].polys@[0]@),
                    table_view(sp.product_polys@[1].polys@[1]@),
                ],
            ]);
        }
        Ok(sp)
    }

    /// Fold both indicator tables at the two challenge halves, bind the
    /// claimed `W(r_b)` and `W(r_c)` into the transcript, squeeze the
    /// combination challenges, and combine: the next layer's claim tables
    /// and claimed sum.
    pub fn new_addi_muli(&mut self, addi_poly: Vec<Fq>, muli_poly: Vec<Fq>, wb: Vec<Fq>, wc: Vec<Fq>, r_values: Vec<Fq>, transcript: &mut Transcript) -> (r:
        Result<(Vec<Fq>, Vec<Fq>, Fq, Vec<Fq>, Vec<Fq>), Error>)
        ensures
            *final(self) == *old(self),
            r is Ok <==> ({
                let half = (r_values@.len() as int / 2) as nat;
                &&& is_pow2_len(addi_poly@.len()) && half <= num_vars(addi_poly@.len())
                &&& is_pow2_len(muli_poly@.len()) && half <= num_vars(muli_poly@.len())
                &&& is_pow2_len(wb@.len()) && half <= num_vars(wb@.len())
                &&& is_pow2_len(wc@.len()) && half <= num_vars(wc@.len())
            }),
            r matches Ok(t) ==> ({
                let half = r_values@.len() as int / 2;
                let rbv = table_view(r_values@).take(half);
                let rcv = table_view(r_values@).subrange(half, 2 * half);
                let wrbv = fold0_chain(table_view(wb@), rbv);
                let wrcv = fold0_chain(table_view(wc@), rcv);
                let a = alpha_of(old(transcript).bytes(), wrbv);
                let b = beta_of(old(transcript).bytes(), wrbv, wrcv);
                &&& table_view(t.3@) == wrbv
                &&& table_view(t.4@) == wrcv
                &&& table_view(t.0@) == combined_table(
                    fold0_chain(table_view(addi_poly@), rbv),
                    fold0_chain(table_view(addi_poly@), rcv),
                    a,
                    b,
                )
                &&& table_view(t.1@) == combined_table(
                    fold0_chain(table_view(muli_poly@), rbv),
                    fold0_chain(table_view(muli_poly@), rcv),
                    a,
                    b,
                )
                &&& t.2.as_int() == fadd(fmul(a, sum_vals(wrbv)), fmul(b, sum_vals(wrcv)))
                &&& final(transcript).bytes() == squeeze_state(
                    squeeze_state(old(transcript).bytes() + poly_bytes(wrbv)) + poly_bytes(wrcv),
                )
            }),
    {
        let r_len = r_values.len();
        let half = r_len / 2;
        let mut rb: Vec<Fq> = Vec::new();
        let mut rc: Vec<Fq> = Vec::new();
        let mut t: usize = 0;
        while t < half
            invariant
                t <= half,
                2 * half <= r_values@.len(),
                r_values@.len() <= usize::MAX,
                rb@ == r_values@.take(t as int),
                rc@ == r_values@.subrange(half as int, half as int + t as int),
            decreases half - t,
        {
            rb.push(r_values[t]);
            rc.push(r_values[half + t]);
            proof {
                assert(r_values@.take(t as int + 1) =~= r_values@.take(t as int).push(
                    r_values@[t as int],
                ));
                assert(r_values@.subrange(half as int, half as int + t as int + 1)
                    =~= r_values@.subrange(half as int, half as int + t as int).push(
                    r_values@[half as int + t as int],
                ));
            }
            t += 1;
        }
        let addi_copy = copy_table(&addi_poly);
        let muli_copy = copy_table(&muli_poly);
        let addi_rb = match crate::mle::fold_prefix(addi_poly, &rb, half) {
            Ok(x) => x,
            Err(e) => {
                return Err(e);
            },
        };
        let addi_rc = match crate::mle::fold_prefix(addi_copy, &rc, half) {
            Ok(x) => x,
            Err(e) => {
                return Err(e);
            },
        };
        let muli_rb = match crate::mle::fold_prefix(muli_poly, &rb, half) {
            Ok(x) => x,
            Err(e) => {
                return Err(e);
            },
        };
        let muli_rc = match crate::mle::fold_prefix(muli_copy, &rc, half) {
            Ok(x) => x,
            Err(e) => {
                return Err(e);
            },
        };
        let w_rb = match crate::mle::fold_prefix(wb, &rb, half) {
            Ok(x) => x,
            Err(e) => {
                return Err(e);
            },
        };
        let w_rc = match crate::mle::fold_prefix(wc, &rc, half) {
            Ok(x) => x,
            Err(e) => {
                return Err(e);
            },
        };
        proof {
            assert(rb@ =~= r_values@.take(half as int));
            assert(rc@ =~= r_values@.subrange(half as int, 2 * (half as int)));
            assert(table_view(rb@.take(half as int)) =~= table_view(r_values@).take(half as int));
            assert(table_view(rc@.take(half as int)) =~= table_view(r_values@).subrange(
                half as int,
                2 * (half as int),
            ));
        }
        let binding = conv_poly_to_byte(&w_rb);
        transcript.absorb(binding.as_slice());
        let alpha = transcript.squeeze();
        let binding2 = conv_poly_to_byte(&w_rc);
        transcript.absorb(binding2.as_slice());
        let beta = transcript.squeeze();
        if addi_rb.len() != addi_rc.len() || muli_rb.len() != muli_rc.len() {
            proof {
                assert(false);
            }
            return Err(Error::LengthMismatch);
        }
        let mut new_addi: Vec<Fq> = Vec::new();
        let mut i: usize = 0;
        while i < addi_rb.len()
            invariant
                i <= addi_rb@.len(),
                addi_rb@.len() == addi_rc@.len(),
                new_addi@.len() == i,
                forall|k: int|
                    0 <= k < i ==> (#[trigger] new_addi@[k]).as_int() == fadd(
                        fmul(table_view(addi_rb@)[k], alpha.as_int()),
                        fmul(table_view(addi_rc@)[k], beta.as_int()),
                    ),
            decreases addi_rb@.len() - i,
        {
            new_addi.push(addi_rb[i].mul(alpha).add(addi_rc[i].mul(beta)));
            i += 1;
        }
        let mut new_muli: Vec<Fq> = Vec::new();
        let mut i2: usize = 0;
        while i2 < muli_rb.len()
            invariant
                i2 <= muli_rb@.len(),
                muli_rb@.len() == muli_rc@.len(),
                new_muli@.len() == i2,
                forall|k: int|
                    0 <= k < i2 ==> (#[trigger] new_muli@[k]).as_int() == fadd(
                        fmul(table_view(muli_rb@)[k], alpha.as_int()),
                        fmul(table_view(muli_rc@)[k], beta.as_int()),
                    ),
            decreases muli_rb@.len() - i2,
        {
            new_muli.push(muli_rb[i2].mul(alpha).add(muli_rc[i2].mul(beta)));
            i2 += 1;
        }
        let s_rb = crate::gkr_sum_check::sum_table(&w_rb);
        let s_rc = crate::gkr_sum_check::sum_table(&w_rc);
        let new_claimed_sum = alpha.mul(s_rb).add(beta.mul(s_rc));
        proof {
            let halfi = r_values@.len() as int / 2;
            let rbv = table_view(r_values@).take(halfi);
            let rcv = table_view(r_values@).subrange(halfi, 2 * halfi);
            assert(table_view(new_addi@) =~= combined_table(
                table_view(addi_rb@),
                table_view(addi_rc@),
                alpha.as_int(),
                beta.as_int(),
            ));
            assert(table_view(new_muli@) =~= combined_table(
                table_view(muli_rb@),
                table_view(muli_rc@),
                alpha.as_int(),
                beta.as_int(),
            ));
        }
        Ok((new_addi, new_muli, new_claimed_sum, w_rb, w_rc))
    }

    /// Build the next layer's claim polynomial from the combined indicator
    /// tables and the next `(b, c)` pair tables, handing back the combined
    /// claimed sum and the two half-evaluations it was derived from.
    pub fn get_alpha_beta_poly_and_sum(&mut self, layer_index: usize, addi_poly: Vec<Fq>, muli_poly: Vec<Fq>, wb: Vec<Fq>, wc: Vec<Fq>, r_values: Vec<Fq>, transcript: &mut Transcript) -> (r:
        Result<(SumPoly, Fq, Vec<Fq>, Vec<Fq>), Error>)
        requires
            old(self).layers@.len() >= 1,
        ensures
            *final(self) == *old(self),
            r is Ok <==> ({
                let half = (r_values@.len() as int / 2) as nat;
                let cn = clamp_idx(old(self).layers@.len(), layer_index as nat + 1);
                let gcn = old(self).layers@[cn].layer_gates@.len();
                let lvn = table_view(old(self).layers@[cn].layer_output@);
                let vn = (if clog2(gcn) == 0 {
                    1nat
                } else {
                    clog2(gcn)
                }) as nat;
                &&& is_pow2_len(addi_poly@.len()) && half <= num_vars(addi_poly@.len())
                &&& is_pow2_len(muli_poly@.len()) && half <= num_vars(muli_poly@.len())
                &&& is_pow2_len(wb@.len()) && half <= num_vars(wb@.len())
                &&& is_pow2_len(wc@.len()) && half <= num_vars(wc@.len())
                &&& 2 * vn <= 30
                &&& lvn.len() <= pow2(vn)
            }),
            r matches Ok(t) ==> ({
                let half = r_values@.len() as int / 2;
                let rbv = table_view(r_values@).take(half);
                let rcv = table_view(r_values@).subrange(half, 2 * half);
                let wrbv = fold0_chain(table_view(wb@), rbv);
                let wrcv = fold0_chain(table_view(wc@), rcv);
                let a = alpha_of(old(transcript).bytes(), wrbv);
                let b = beta_of(old(transcript).bytes(), wrbv, wrcv);
                let cn = clamp_idx(old(self).layers@.len(), layer_index as nat + 1);
                let gcn = old(self).layers@[cn].layer_gates@.len();
                let lvn = table_view(old(self).layers@[cn].layer_output@);
                let vn = (if clog2(gcn) == 0 {
                    1nat
                } else {
                    clog2(gcn)
                }) as nat;
                &&& table_view(t.2@) == wrbv
                &&& table_view(t.3@) == wrcv
                &&& t.1.as_int() == fadd(fmul(a, sum_vals(wrbv)), fmul(b, sum_vals(wrcv)))
                &&& t.0.view_terms() == seq![
                    seq![
                        combined_table(
                            fold0_chain(table_view(addi_poly@), rbv),
                            fold0_chain(table_view(addi_poly@), rcv),
                            a,
                            b,
                        ),
                        wi_pair_add(lvn, vn),
                    ],
                    seq![
                        combined_table(
                            fold0_chain(table_view(muli_poly@), rbv),
                            fold0_chain(table_view(muli_poly@), rcv),
                            a,
                            b,
                        ),
                        wi_pair_mul(lvn, vn),
                    ],
                ]
                &&& final(transcript).bytes() == squeeze_state(
                    squeeze_state(old(transcript).bytes() + poly_bytes(wrbv)) + poly_bytes(wrcv),
                )
            }),
    {
        let combined = match self.new_addi_muli(addi_poly, muli_poly, wb, wc, r_values, transcript) {
            Ok(t) => t,
            Err(e) => {
                return Err(e);
            },
        };
        let (new_addi, new_muli, new_claimed_sum, w_rb, w_rc) = combined;
        let next_index = if layer_index >= self.layers.len() - 1 {
            self.layers.len() - 1
        } else {
            layer_index + 1
        };
        let wbc_from_add = match self.add_wi_x_poly(next_index) {
            Ok(t) => t,
            Err(e) => {
                return Err(e);
            },
        };
        let wbc_from_mul = match self.mul_wi_x_poly(next_index) {
            Ok(t) => t,
            Err(e) => {
                return Err(e);
            },
        };
        let term_add = ProductPoly::new(vec![new_addi, wbc_from_add]);
        let term_mul = ProductPoly::new(vec![new_muli, wbc_from_mul]);
        let sp = SumPoly::new(vec![term_add, term_mul]);
        proof {
            assert(clamp_idx(self.layers@.len(), layer_index as nat + 1) == next_index as int);
            assert(sp.view_terms() =~~= seq![
                seq![
                    table_view(sp.product_polys@[0].polys@[0]@),
                    table_view(sp.product_polys@[0].polys@[1]@),
                ],
                seq![
                    table_view(sp.product_polys@[1].polys@[0]@),
                    table_view(sp.product_polys@[1].polys@[1]@),
                ],
            ]);
        }
        Ok((sp, new_claimed_sum, w_rb, w_rc))
    }
}

/// The pair-space sum of an explicit power-of-two table: the input layer's
/// counterpart of `add_wi_x_poly`, for the table that is not a realized
/// circuit layer.
pub fn wi_pair_add_table(table: &Vec<Fq>) -> (r: Result<Vec<Fq>, Error>)
    ensures
        r is Ok <==> crate::mle::is_pow2_len(table@.len()) && 2 * crate::mle::num_vars(
            table@.len(),
        ) <= 30,
        r matches Ok(out) ==> ({
            let v = crate::mle::num_vars(table@.len());
            &&& table@.len() == pow2(v)
            &&& out@.len() == pow2(2 * v)
            &&& table_view(out@) == wi_pair_add(table_view(table@), v)
        }),
{
    let v = match crate::mle::log2_exact(table.len()) {
        Some(n) => n,
        None => {
            return Err(Error::LengthMismatch);
        },
    };
    if 2 * v > 30 {
        return Err(Error::LengthMismatch);
    }
    proof {
        vstd::arithmetic::power2::lemma_pow2_adds(v as nat, v as nat);
        vstd::arithmetic::power2::lemma_pow2_pos(v as nat);
        vstd::arithmetic::power2::lemma2_to64();
        if ((2 * v) as nat) < 30 {
            vstd::arithmetic::power2::lemma_pow2_strictly_increases((2 * v) as nat, 30);
        }
    }
    let s = table.len();
    let total = crate::mle::pow2_exec(2 * v);
    let mut out: Vec<Fq> = Vec::new();
    let mut j: usize = 0;
    while j < total
        invariant
            j <= total,
            s >= 1,
            s == table@.len(),
            total as int == (s as int) * (s as int),
            out@.len() == j,
            forall|t: int|
                0 <= t < j ==> (#[trigger] out@[t]).as_int() == fadd(
                    table_view(table@)[t / (s as int)],
                    table_view(table@)[t % (s as int)],
                ),
        decreases total - j,
    {
        proof {
            vstd::arithmetic::div_mod::lemma_mod_bound(j as int, s as int);
            vstd::arithmetic::div_mod::lemma_div_pos_is_pos(j as int, s as int);
            vstd::arithmetic::div_mod::lemma_multiply_divide_lt(j as int, s as int, s as int);
        }
        out.push(table[j / s].add(table[j % s]));
        j += 1;
    }
    proof {
        let tv = table_view(table@);
        assert(pad_table(tv, pow2(crate::mle::num_vars(table@.len()))) =~= tv);
        assert(table_view(out@) =~= wi_pair_add(tv, crate::mle::num_vars(table@.len())));
    }
    Ok(out)
}

/// The pair-space product of an explicit power-of-two table.
pub fn wi_pair_mul_table(table: &Vec<Fq>) -> (r: Result<Vec<Fq>, Error>)
    ensures
        r is Ok <==> crate::mle::is_pow2_len(table@.len()) && 2 * crate::mle::num_vars(
            table@.len(),
        ) <= 30,
        r matches Ok(out) ==> ({
            let v = crate::mle::num_vars(table@.len());
            &&& table@.len() == pow2(v)
            &&& out@.len() == pow2(2 * v)
            &&& table_view(out@) == wi_pair_mul(table_view(table@), v)
        }),
{
    let v = match crate::mle::log2_exact(table.len()) {
        Some(n) => n,
        None => {
            return Err(Error::LengthMismatch);
        },
    };
    if 2 * v > 30 {
        return Err(Error::LengthMismatch);
    }
    proof {
        vstd::arithmetic::power2::lemma_pow2_adds(v as nat, v as nat);
        vstd::arithmetic::power2::lemma_pow2_pos(v as nat);
        vstd::arithmetic::power2::lemma2_to64();
        if ((2 * v) as nat) < 30 {
            vstd::arithmetic::power2::lemma_pow2_strictly_increases((2 * v) as nat, 30);
        }
    }
    let s = table.len();
    let total = crate::mle::pow2_exec(2 * v);
    let mut out: Vec<Fq> = Vec::new();
    let mut j: usize = 0;
    while j < total
        invariant
            j <= total,
            s >= 1,
            s == table@.len(),
            total as int == (s as int) * (s as int),
            out@.len() == j,
            forall|t: int|
                0 <= t < j ==> (#[trigger] out@[t]).as_int() == fmul(
                    table_view(table@)[t / (s as int)],
                    table_view(table@)[t % (s as int)],
                ),
        decreases total - j,
    {
        proof {
            vstd::arithmetic::div_mod::lemma_mod_bound(j as int, s as int);
            vstd::arithmetic::div_mod::lemma_div_pos_is_pos(j as int, s as int);
            vstd::arithmetic::div_mod::lemma_multiply_divide_lt(j as int, s as int, s as int);
        }
        out.push(table[j / s].mul(table[j % s]));
        j += 1;
    }
    proof {
        let tv = table_view(table@);
        assert(pad_table(tv, pow2(crate::mle::num_vars(table@.len()))) =~= tv);
        assert(table_view(out@) =~= wi_pair_mul(tv, crate::mle::num_vars(table@.len())));
    }
    Ok(out)
}

} // verus!
