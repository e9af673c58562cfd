//! Gates and circuits, with their meaning on a vector of bits.
use super::cf::{control_value, Base2GateControlFunc};
use crate::flags::{count_set, lemma_count_free_step};
use crate::random::RandomSource;
use rayon::iter::{IntoParallelRefIterator, ParallelIterator};
use vstd::prelude::*;

verus! {

/// A gate flips the wire `wires[0]` when its control function holds of the
/// wires `wires[1]` and `wires[2]`.
#[derive(Clone, Copy, Debug, PartialEq, Eq, Hash)]
pub struct Gate {
    pub wires: [usize; 3],
    pub control_func: u8,
    pub generation: usize,
}

/// Two gates collide when the target of one is a control of the other.
pub open spec fn collides(a: Gate, b: Gate) -> bool {
    a.wires[0] == b.wires[1] || a.wires[0] == b.wires[2] || b.wires[0] == a.wires[1]
        || b.wires[0] == a.wires[2]
}

/// The state after `g` has acted on the state `s`.
pub open spec fn apply_gate(g: Gate, s: Seq<bool>) -> Seq<bool> {
    s.update(
        g.wires[0] as int,
        s[g.wires[0] as int] != control_value(
            g.control_func,
            s[g.wires[1] as int],
            s[g.wires[2] as int],
        ),
    )
}

/// The state after the gates of `gates` have acted on `s`, first gate first.
pub open spec fn run_gates(gates: Seq<Gate>, s: Seq<bool>) -> Seq<bool>
    decreases gates.len(),
{
    if gates.len() == 0 {
        s
    } else {
        apply_gate(gates.last(), run_gates(gates.drop_last(), s))
    }
}

impl Gate {
    /// The wires are below `num_wires` and the control function has a code.
    pub open spec fn fits(self, num_wires: int) -> bool {
        &&& self.wires[0] < num_wires
        &&& self.wires[1] < num_wires
        &&& self.wires[2] < num_wires
        &&& self.control_func < Base2GateControlFunc::COUNT
    }

    /// The three wires are pairwise distinct.
    pub open spec fn distinct_wires(self) -> bool {
        &&& self.wires[0] != self.wires[1]
        &&& self.wires[0] != self.wires[2]
        &&& self.wires[1] != self.wires[2]
    }

    pub fn new(target: usize, control1: usize, control2: usize, control_func: u8) -> (g: Self)
        ensures
            g.wires[0] == target,
            g.wires[1] == control1,
            g.wires[2] == control2,
            g.control_func == control_func,
            g.generation == 0,
    {
        Self { wires: [target, control1, control2], control_func, generation: 0 }
    }

    pub fn collides_with(&self, other: &Self) -> (r: bool)
        ensures
            r == collides(*self, *other),
    {
        self.wires[0] == other.wires[1] || self.wires[0] == other.wires[2] || other.wires[0]
            == self.wires[1] || other.wires[0] == self.wires[2]
    }

    pub fn evaluate_cf(&self, a: bool, b: bool) -> (r: bool)
        requires
            self.control_func < Base2GateControlFunc::COUNT,
        ensures
            r == control_value(self.control_func, a, b),
    {
        Base2GateControlFunc::from_u8(self.control_func).evaluate(a, b)
    }

    pub fn evaluate(&self, x: &mut Vec<bool>)
        requires
            self.fits(old(x).len() as int),
        ensures
            final(x)@ == apply_gate(*self, old(x)@),
    {
        let flip = self.evaluate_cf(x[self.wires[1]], x[self.wires[2]]);
        let t = self.wires[0];
        let bit = x[t] != flip;
        x[t] = bit;
    }
}

impl Default for Gate {
    fn default() -> (g: Self)
        ensures
            g.wires[0] == 0,
            g.wires[1] == 0,
            g.wires[2] == 0,
            g.control_func == 0,
            g.generation == 0,
    {
        Self { wires: [0, 0, 0], control_func: 0, generation: 0 }
    }
}

/// Every gate of `gates` fits `num_wires` wires.
pub open spec fn gates_fit(gates: Seq<Gate>, num_wires: int) -> bool {
    forall|i: int| 0 <= i < gates.len() ==> (#[trigger] gates[i]).fits(num_wires)
}

/// A circuit: `gates` act in order on `num_wires` wires.
#[derive(Debug)]
pub struct Circuit {
    pub num_wires: usize,
    pub gates: Vec<Gate>,
}

impl Circuit {
    /// Every gate fits the circuit's wires.
    pub open spec fn wf(&self) -> bool {
        gates_fit(self.gates@, self.num_wires as int)
    }

    /// Whether every gate fits the circuit's wires.
    pub fn is_well_formed(&self) -> (r: bool)
        ensures
            r == self.wf(),
    {
        let mut i: usize = 0;
        while i < self.gates.len()
            invariant
                i <= self.gates.len(),
                forall|k: int| 0 <= k < i ==> (#[trigger] self.gates[k]).fits(self.num_wires as int),
            decreases self.gates.len() - i,
        {
            let g = &self.gates[i];
            if g.wires[0] >= self.num_wires || g.wires[1] >= self.num_wires || g.wires[2]
                >= self.num_wires || g.control_func >= Base2GateControlFunc::COUNT {
                proof {
                    assert(!self.gates[i as int].fits(self.num_wires as int));
                }
                return false;
            }
            i += 1;
        }
        true
    }

    pub fn evaluate(&self, input: &Vec<bool>) -> (output: Vec<bool>)
        requires
            gates_fit(self.gates@, input.len() as int),
        ensures
            output@ == run_gates(self.gates@, input@),
    {
        let mut data = input.clone();
        let mut i: usize = 0;
        while i < self.gates.len()
            invariant
                i <= self.gates.len(),
                data.len() == input.len(),
                gates_fit(self.gates@, input.len() as int),
                data@ == run_gates(self.gates@.take(i as int), input@),
            decreases self.gates.len() - i,
        {
            proof {
                assert(self.gates@.take(i + 1).drop_last() == self.gates@.take(i as int));
            }
            self.gates[i].evaluate(&mut data);
            i += 1;
        }
        proof {
            assert(self.gates@.take(i as int) == self.gates@);
        }
        data
    }
}

impl Default for Circuit {
    fn default() -> (c: Self)
        ensures
            c.num_wires == 0,
            c.gates@.len() == 0,
    {
        Self { num_wires: 0, gates: Vec::new() }
    }
}

impl Clone for Circuit {
    fn clone(&self) -> (c: Self)
        ensures
            c.num_wires == self.num_wires,
            c.gates@ == self.gates@,
    {
        Self { num_wires: self.num_wires, gates: self.gates.clone() }
    }
}

/// Three distinct wires below `num_wires`, each picked at random among
/// those that are left: a draw among the wires that are left is counted
/// past the wires that are taken.
pub fn random_wires<R: RandomSource>(num_wires: usize, rng: &mut R) -> (wires: [usize; 3])
    requires
        num_wires >= 3,
    ensures
        wires[0] < num_wires && wires[1] < num_wires && wires[2] < num_wires,
        wires[0] != wires[1] && wires[0] != wires[2] && wires[1] != wires[2],
{
    let target = rng.below(num_wires);
    let second = rng.below(num_wires - 1);
    let control_one = if second >= target {
        second + 1
    } else {
        second
    };
    let (low, high) = if target < control_one {
        (target, control_one)
    } else {
        (control_one, target)
    };
    let third = rng.below(num_wires - 2);
    let past_low = if third >= low {
        third + 1
    } else {
        third
    };
    let control_two = if past_low >= high {
        past_low + 1
    } else {
        past_low
    };
    [target, control_one, control_two]
}

impl Circuit {
    /// A circuit of `num_gates` random gates over `num_wires` wires: each
    /// gate has three distinct wires and a control function other than the
    /// constant false.
    pub fn random<R: RandomSource>(num_wires: usize, num_gates: usize, rng: &mut R) -> (c: Self)
        requires
            num_wires >= 3,
        ensures
            c.num_wires == num_wires,
            c.gates.len() == num_gates,
            c.wf(),
            forall|i: int|
                0 <= i < num_gates ==> {
                    &&& (#[trigger] c.gates[i]).distinct_wires()
                    &&& 1 <= c.gates[i].control_func
                    &&& c.gates[i].generation == 0
                },
    {
        let mut gates: Vec<Gate> = Vec::new();
        let mut k: usize = 0;
        while k < num_gates
            invariant
                k <= num_gates,
                num_wires >= 3,
                gates.len() == k,
                forall|i: int|
                    0 <= i < k ==> {
                        &&& (#[trigger] gates[i]).distinct_wires()
                        &&& gates[i].fits(num_wires as int)
                        &&& 1 <= gates[i].control_func
                        &&& gates[i].generation == 0
                    },
            decreases num_gates - k,
        {
            let wires = random_wires(num_wires, rng);
            let below_count: usize = 15;
            let control_func = 1 + rng.below(below_count) as u8;
            gates.push(Gate { wires, control_func, generation: 0 });
            k += 1;
        }
        Self { num_wires, gates }
    }

    /// A circuit of `num_gates` random gates over `num_wires` wires: each
    /// gate has three distinct wires and a control function picked from
    /// `cf_choice`.
    pub fn random_with_cf<R: RandomSource>(
        num_wires: usize,
        num_gates: usize,
        cf_choice: &Vec<u8>,
        rng: &mut R,
    ) -> (c: Self)
        requires
            num_wires >= 3,
            cf_choice.len() > 0,
        ensures
            c.num_wires == num_wires,
            c.gates.len() == num_gates,
            forall|i: int|
                0 <= i < num_gates ==> {
                    &&& (#[trigger] c.gates[i]).distinct_wires()
                    &&& c.gates[i].wires[0] < num_wires
                    &&& c.gates[i].wires[1] < num_wires
                    &&& c.gates[i].wires[2] < num_wires
                    &&& cf_choice@.contains(c.gates[i].control_func)
                    &&& c.gates[i].generation == 0
                },
    {
        let mut gates: Vec<Gate> = Vec::new();
        let mut k: usize = 0;
        while k < num_gates
            invariant
                k <= num_gates,
                num_wires >= 3,
                cf_choice.len() > 0,
                gates.len() == k,
                forall|i: int|
                    0 <= i < k ==> {
                        &&& (#[trigger] gates[i]).distinct_wires()
                        &&& gates[i].wires[0] < num_wires
                        &&& gates[i].wires[1] < num_wires
                        &&& gates[i].wires[2] < num_wires
                        &&& cf_choice@.contains(gates[i].control_func)
                        &&& gates[i].generation == 0
                    },
            decreases num_gates - k,
        {
            let wires = random_wires(num_wires, rng);
            let control_func = cf_choice[rng.below(cf_choice.len())];
            gates.push(Gate { wires, control_func, generation: 0 });
            k += 1;
        }
        Self { num_wires, gates }
    }

    /// The `SIZE` gates from `index` on; no gates where none are asked for,
    /// wherever `index` stands.
    pub fn subcircuit<const SIZE: usize>(&self, index: usize) -> (block: [Gate; SIZE])
        requires
            SIZE == 0 || index + SIZE <= self.gates.len(),
        ensures
            block@.len() == SIZE,
            forall|k: int| 0 <= k < SIZE ==> block@[k] == self.gates@[index + k],
            SIZE > 0 ==> block@ == self.gates@.subrange(index as int, index + SIZE),
    {
        let mut block: [Gate; SIZE] = [Gate { wires: [0, 0, 0], control_func: 0, generation: 0 }; SIZE];
        let mut i: usize = 0;
        while i < SIZE
            invariant
                i <= SIZE,
                SIZE == 0 || index + SIZE <= self.gates.len(),
                forall|k: int| 0 <= k < i ==> block@[k] == self.gates@[index + k],
            decreases SIZE - i,
        {
            block[i] = self.gates[index + i];
            i += 1;
        }
        proof {
            if SIZE > 0 {
                assert(block@ =~= self.gates@.subrange(index as int, index + SIZE));
            }
        }
        block
    }

    /// The states through which `input` passes: the input itself, and the
    /// state after each gate.
    pub fn evaluate_evolution(&self, input: &Vec<bool>) -> (evolution: Vec<Vec<bool>>)
        requires
            gates_fit(self.gates@, input.len() as int),
        ensures
            evolution.len() == self.gates.len() + 1,
            forall|k: int|
                0 <= k <= self.gates.len() ==> (#[trigger] evolution[k])@ == run_gates(
                    self.gates@.take(k),
                    input@,
                ),
    {
        let mut data = input.clone();
        let mut evolution: Vec<Vec<bool>> = Vec::new();
        evolution.push(data.clone());
        proof {
            assert(self.gates@.take(0).len() == 0);
        }
        let mut i: usize = 0;
        while i < self.gates.len()
            invariant
                i <= self.gates.len(),
                data.len() == input.len(),
                gates_fit(self.gates@, input.len() as int),
                data@ == run_gates(self.gates@.take(i as int), input@),
                evolution.len() == i + 1,
                forall|k: int|
                    0 <= k <= i ==> (#[trigger] evolution[k])@ == run_gates(
                        self.gates@.take(k),
                        input@,
                    ),
            decreases self.gates.len() - i,
        {
            proof {
                assert(self.gates@.take(i + 1).drop_last() == self.gates@.take(i as int));
            }
            self.gates[i].evaluate(&mut data);
            evolution.push(data.clone());
            i += 1;
        }
        evolution
    }
}

/// Some wire of some gate of `gates` is not below `num_wires`.
pub open spec fn exceeds(gates: Seq<Gate>, num_wires: int) -> bool {
    exists|i: int, k: int|
        0 <= i < gates.len() && 0 <= k < 3 && #[trigger] gates[i].wires[k] >= num_wires
}

/// Whether some wire of some gate of `gates` is not below `num_wires`.
pub fn wires_exceed(gates: &Vec<Gate>, num_wires: usize) -> (r: bool)
    ensures
        r == exceeds(gates@, num_wires as int),
{
    let mut i: usize = 0;
    while i < gates.len()
        invariant
            i <= gates.len(),
            forall|j: int, k: int|
                0 <= j < i && 0 <= k < 3 ==> #[trigger] gates[j].wires[k] < num_wires,
        decreases gates.len() - i,
    {
        let g = &gates[i];
        if g.wires[0] >= num_wires || g.wires[1] >= num_wires || g.wires[2] >= num_wires {
            proof {
                assert(gates[i as int].wires[0] >= num_wires || gates[i as int].wires[1]
                    >= num_wires || gates[i as int].wires[2] >= num_wires);
            }
            return true;
        }
        i += 1;
    }
    false
}

/// Whether two circuits give the same output on `input`.
pub fn agree_on(one: &Circuit, two: &Circuit, input: &Vec<bool>) -> (r: bool)
    requires
        gates_fit(one.gates@, input.len() as int),
        gates_fit(two.gates@, input.len() as int),
    ensures
        r == (run_gates(one.gates@, input@) == run_gates(two.gates@, input@)),
{
    let a = one.evaluate(input);
    let b = two.evaluate(input);
    proof {
        super::semantics::lemma_run_gates_len(one.gates@, input@);
        super::semantics::lemma_run_gates_len(two.gates@, input@);
    }
    let mut i: usize = 0;
    while i < a.len()
        invariant
            i <= a.len(),
            a.len() == b.len(),
            a@ == run_gates(one.gates@, input@),
            b@ == run_gates(two.gates@, input@),
            forall|k: int| 0 <= k < i ==> a[k] == b[k],
        decreases a.len() - i,
    {
        if a[i] != b[i] {
            return false;
        }
        i += 1;
    }
    proof {
        assert(a@ =~= b@);
    }
    true
}

/// The two circuits give the same output on each of `inputs`.
pub open spec fn agree_on_all(one: Seq<Gate>, two: Seq<Gate>, inputs: Seq<Vec<bool>>) -> bool {
    forall|i: int|
        0 <= i < inputs.len() ==> run_gates(one, (#[trigger] inputs[i])@) == run_gates(
            two,
            inputs[i]@,
        )
}

/// `ParallelIterator::all` over the inputs, each handed to one call of
/// `agree_on`: it holds exactly if every call holds.
#[verifier::external_body]
fn agree_on_each(one: &Circuit, two: &Circuit, inputs: &Vec<Vec<bool>>) -> (r: bool)
    requires
        forall|i: int|
            0 <= i < inputs.len() ==> gates_fit(one.gates@, (#[trigger] inputs[i]).len() as int)
                && gates_fit(two.gates@, inputs[i].len() as int),
    ensures
        r == agree_on_all(one.gates@, two.gates@, inputs@),
{
    inputs.par_iter().all(|input| agree_on(one, two, input))
}

/// `count` random states of `num_wires` wires.
pub fn random_inputs<R: RandomSource>(num_wires: usize, count: usize, rng: &mut R) -> (inputs: Vec<
    Vec<bool>,
>)
    ensures
        inputs.len() == count,
        forall|i: int| 0 <= i < count ==> (#[trigger] inputs[i]).len() == num_wires,
        final(rng).replayable() == old(rng).replayable(),
{
    let mut inputs: Vec<Vec<bool>> = Vec::new();
    let mut i: usize = 0;
    while i < count
        invariant
            i <= count,
            inputs.len() == i,
            forall|j: int| 0 <= j < i ==> (#[trigger] inputs[j]).len() == num_wires,
            rng.replayable() == old(rng).replayable(),
        decreases count - i,
    {
        let mut input: Vec<bool> = Vec::new();
        let mut w: usize = 0;
        while w < num_wires
            invariant
                w <= num_wires,
                input.len() == w,
                rng.replayable() == old(rng).replayable(),
            decreases num_wires - w,
        {
            input.push(rng.below(2) == 1);
            w += 1;
        }
        inputs.push(input);
        i += 1;
    }
    inputs
}

/// The message for a first circuit with a wire that is not below the
/// number of wires.
pub open spec fn first_exceeds_message() -> Seq<char> {
    "Wire labels in ckt_one exceed the number of wires"@
}

/// The message for a second circuit with a wire that is not below the
/// number of wires.
pub open spec fn second_exceeds_message() -> Seq<char> {
    "Wire labels in ckt_two exceed the number of wires"@
}

/// The message for two circuits that differ on an input.
pub open spec fn different_message() -> Seq<char> {
    "Circuits produce different outputs"@
}

/// Compares two circuits on each of `inputs`: they pass exactly if they
/// give the same output on each of them.
pub fn agree_on_inputs(one: &Circuit, two: &Circuit, inputs: &Vec<Vec<bool>>) -> (res: Result<
    (),
    String,
>)
    requires
        forall|i: int|
            0 <= i < inputs.len() ==> gates_fit(one.gates@, (#[trigger] inputs[i]).len() as int)
                && gates_fit(two.gates@, inputs[i].len() as int),
    ensures
        res is Ok <==> agree_on_all(one.gates@, two.gates@, inputs@),
        res matches Err(e) ==> e@ == different_message(),
{
    if agree_on_each(one, two, inputs) {
        Ok(())
    } else {
        Err("Circuits produce different outputs".to_string())
    }
}

/// Compares two circuits on `num_inputs` random states of `num_wires`
/// wires.  Circuits with a wire that is not below `num_wires` are refused.
/// The circuits pass exactly if they agree on each of the states that
/// were drawn.
/// Circuits that compute the same function are never found to differ;
/// others may pass by chance.
pub fn check_equiv_probabilistic<R: RandomSource>(
    num_wires: usize,
    ckt_one: &Vec<Gate>,
    ckt_two: &Vec<Gate>,
    num_inputs: usize,
    rng: &mut R,
) -> (res: Result<(), String>)
    requires
        forall|i: int|
            0 <= i < ckt_one.len() ==> (#[trigger] ckt_one[i]).control_func
                < Base2GateControlFunc::COUNT,
        forall|i: int|
            0 <= i < ckt_two.len() ==> (#[trigger] ckt_two[i]).control_func
                < Base2GateControlFunc::COUNT,
    ensures
        exceeds(ckt_one@, num_wires as int) ==> (res matches Err(e) && e@
            == first_exceeds_message()),
        !exceeds(ckt_one@, num_wires as int) && exceeds(ckt_two@, num_wires as int) ==> (
        res matches Err(e) && e@ == second_exceeds_message()),
        !exceeds(ckt_one@, num_wires as int) && !exceeds(ckt_two@, num_wires as int) ==> match res {
            Ok(_) => true,
            Err(e) => e@ == different_message() && !super::semantics::equivalent(
                ckt_one@,
                ckt_two@,
                num_wires as int,
            ),
        },
        num_inputs == 0 && !exceeds(ckt_one@, num_wires as int) && !exceeds(
            ckt_two@,
            num_wires as int,
        ) ==> res is Ok,
        !exceeds(ckt_one@, num_wires as int) && !exceeds(ckt_two@, num_wires as int)
            ==> exists|inputs: Seq<Vec<bool>>|
            {
                &&& inputs.len() == num_inputs
                &&& forall|i: int| 0 <= i < inputs.len() ==> (#[trigger] inputs[i]).len() == num_wires
                &&& res is Ok <==> #[trigger] agree_on_all(ckt_one@, ckt_two@, inputs)
            },
        final(rng).replayable() == old(rng).replayable(),
{
    if wires_exceed(ckt_one, num_wires) {
        return Err("Wire labels in ckt_one exceed the number of wires".to_string());
    }
    if wires_exceed(ckt_two, num_wires) {
        return Err("Wire labels in ckt_two exceed the number of wires".to_string());
    }
    let inputs = random_inputs(num_wires, num_inputs, rng);
    let c1 = Circuit { num_wires, gates: ckt_one.clone() };
    let c2 = Circuit { num_wires, gates: ckt_two.clone() };
    proof {
        assert forall|i: int| 0 <= i < ckt_one.len() implies (#[trigger] ckt_one[i]).fits(
            num_wires as int,
        ) by {
            assert(ckt_one[i].wires[0] < num_wires);
            assert(ckt_one[i].wires[1] < num_wires);
            assert(ckt_one[i].wires[2] < num_wires);
        }
        assert forall|i: int| 0 <= i < ckt_two.len() implies (#[trigger] ckt_two[i]).fits(
            num_wires as int,
        ) by {
            assert(ckt_two[i].wires[0] < num_wires);
            assert(ckt_two[i].wires[1] < num_wires);
            assert(ckt_two[i].wires[2] < num_wires);
        }
    }
    let res = agree_on_inputs(&c1, &c2, &inputs);
    proof {
        if res is Err {
            let i = choose|i: int|
                0 <= i < inputs.len() && run_gates(c1.gates@, (#[trigger] inputs[i])@) != run_gates(
                    c2.gates@,
                    inputs[i]@,
                );
            assert(inputs[i]@.len() == num_wires);
        }
        assert(res is Ok <==> agree_on_all(ckt_one@, ckt_two@, inputs@));
    }
    res
}

/// A gate as it is written to a file: the two controls, the target, and the
/// control function.
#[derive(Clone, Copy, Debug, PartialEq, Eq)]
pub struct GateData(pub usize, pub usize, pub usize, pub u8);

impl GateData {
    /// The record of `value`.
    pub open spec fn of_gate(value: Gate) -> GateData {
        GateData(value.wires[1], value.wires[2], value.wires[0], value.control_func)
    }

    /// The record stands for `g`.
    pub open spec fn describes(self, g: Gate) -> bool {
        &&& g.wires[0] == self.2
        &&& g.wires[1] == self.0
        &&& g.wires[2] == self.1
        &&& g.control_func == self.3
    }

    /// What the record stands for, in generation 0.
    pub fn to_gate(self) -> (g: Gate)
        ensures
            self.describes(g),
            g.generation == 0,
            GateData::of_gate(g) == self,
    {
        Gate { wires: [self.2, self.0, self.1], control_func: self.3, generation: 0 }
    }
}

impl From<Gate> for GateData {
    fn from(value: Gate) -> (data: Self) {
        Self(value.wires[1], value.wires[2], value.wires[0], value.control_func)
    }
}

impl vstd::std_specs::convert::FromSpecImpl<Gate> for GateData {
    open spec fn obeys_from_spec() -> bool {
        true
    }

    open spec fn from_spec(value: Gate) -> Self {
        GateData::of_gate(value)
    }
}

impl From<GateData> for Gate {
    fn from(value: GateData) -> (g: Self) {
        value.to_gate()
    }
}

impl vstd::std_specs::convert::FromSpecImpl<GateData> for Gate {
    open spec fn obeys_from_spec() -> bool {
        false
    }

    open spec fn from_spec(value: GateData) -> Self {
        arbitrary()
    }
}

/// A circuit as it is written to a file.
#[derive(Debug)]
pub struct CircuitData {
    pub wire_count: usize,
    pub gate_count: usize,
    pub gates: Vec<GateData>,
}

impl CircuitData {
    /// The record of `circuit`.
    pub fn of_circuit(circuit: &Circuit) -> (data: Self)
        ensures
            data.wire_count == circuit.num_wires,
            data.gate_count == circuit.gates.len(),
            data.gates.len() == circuit.gates.len(),
            forall|i: int|
                0 <= i < circuit.gates.len() ==> #[trigger] data.gates[i] == GateData::of_gate(
                    circuit.gates[i],
                ),
    {
        let mut gates: Vec<GateData> = Vec::new();
        let mut i: usize = 0;
        while i < circuit.gates.len()
            invariant
                i <= circuit.gates.len(),
                gates.len() == i,
                forall|k: int|
                    0 <= k < i ==> #[trigger] gates[k] == GateData::of_gate(circuit.gates[k]),
            decreases circuit.gates.len() - i,
        {
            gates.push(GateData::from(circuit.gates[i]));
            i += 1;
        }
        Self { wire_count: circuit.num_wires, gate_count: circuit.gates.len(), gates }
    }

    /// The circuit of the record, its gates in generation 0.  The number of
    /// gates that the record states is not used.
    pub fn to_circuit(&self) -> (circuit: Circuit)
        ensures
            circuit.num_wires == self.wire_count,
            circuit.gates.len() == self.gates.len(),
            forall|i: int|
                0 <= i < self.gates.len() ==> (#[trigger] self.gates[i]).describes(
                    circuit.gates[i],
                ) && circuit.gates[i].generation == 0,
    {
        let mut gates: Vec<Gate> = Vec::new();
        let mut i: usize = 0;
        while i < self.gates.len()
            invariant
                i <= self.gates.len(),
                gates.len() == i,
                forall|k: int|
                    0 <= k < i ==> (#[trigger] self.gates[k]).describes(gates[k])
                        && gates[k].generation == 0,
            decreases self.gates.len() - i,
        {
            gates.push(self.gates[i].to_gate());
            i += 1;
        }
        Circuit { num_wires: self.wire_count, gates }
    }
}

impl From<Circuit> for CircuitData {
    fn from(value: Circuit) -> (data: Self) {
        CircuitData::of_circuit(&value)
    }
}

impl vstd::std_specs::convert::FromSpecImpl<Circuit> for CircuitData {
    open spec fn obeys_from_spec() -> bool {
        false
    }

    open spec fn from_spec(value: Circuit) -> Self {
        arbitrary()
    }
}

impl From<CircuitData> for Circuit {
    fn from(value: CircuitData) -> (circuit: Self) {
        value.to_circuit()
    }
}

impl vstd::std_specs::convert::FromSpecImpl<CircuitData> for Circuit {
    open spec fn obeys_from_spec() -> bool {
        false
    }

    open spec fn from_spec(value: CircuitData) -> Self {
        arbitrary()
    }
}

/// The number of gates of `gates` with the control function `cf`.
pub open spec fn count_with_cf(gates: Seq<Gate>, cf: u8) -> int
    decreases gates.len(),
{
    if gates.len() == 0 {
        0
    } else {
        count_with_cf(gates.drop_last(), cf) + if gates.last().control_func == cf {
            1int
        } else {
            0int
        }
    }
}

/// For each control function, the number of gates of `circuit` that have
/// it.
pub fn control_function_counts(circuit: &Circuit) -> (counts: Vec<usize>)
    requires
        forall|i: int|
            0 <= i < circuit.gates.len() ==> (#[trigger] circuit.gates[i]).control_func
                < Base2GateControlFunc::COUNT,
    ensures
        counts.len() == Base2GateControlFunc::COUNT,
        forall|cf: u8|
            cf < Base2GateControlFunc::COUNT ==> #[trigger] counts[cf as int] == count_with_cf(
                circuit.gates@,
                cf,
            ),
{
    let mut counts: Vec<usize> = vec![0usize; 16];
    let mut i: usize = 0;
    while i < circuit.gates.len()
        invariant
            i <= circuit.gates.len(),
            counts.len() == 16,
            forall|k: int|
                0 <= k < circuit.gates.len() ==> (#[trigger] circuit.gates[k]).control_func < 16,
            forall|cf: u8|
                cf < 16 ==> #[trigger] counts[cf as int] == count_with_cf(
                    circuit.gates@.take(i as int),
                    cf,
                ),
            forall|cf: u8| cf < 16 ==> #[trigger] counts[cf as int] <= i,
        decreases circuit.gates.len() - i,
    {
        let cf = circuit.gates[i].control_func;
        proof {
            assert(circuit.gates@.take(i + 1).drop_last() == circuit.gates@.take(i as int));
            assert(counts[cf as int] <= i);
        }
        let n = counts[cf as usize];
        counts[cf as usize] = n + 1;
        i += 1;
    }
    proof {
        assert(circuit.gates@.take(i as int) == circuit.gates@);
    }
    counts
}

/// The number of wires of `state` that are set.
pub fn hamming_weight(state: &Vec<bool>) -> (weight: usize)
    ensures
        weight == count_set(state@),
{
    let mut weight: usize = 0;
    let mut i: usize = 0;
    while i < state.len()
        invariant
            i <= state.len(),
            weight <= i,
            weight == count_set(state@.take(i as int)),
        decreases state.len() - i,
    {
        proof {
            lemma_count_free_step(state@, i as int);
        }
        if state[i] {
            weight += 1;
        }
        i += 1;
    }
    proof {
        assert(state@.take(i as int) == state@);
    }
    weight
}

} // verus!
