//! A sampler of candidate blocks that keeps the active wires in rows, one
//! place for each slot of a gate, and permutes the rows between samples.
use super::lfsr::{get_128_from_u8_array, lfsr128_step, LFSR128};
use super::permutations::{
    lfsr16_after, lfsr16_bits, lfsr16_step, network_4, network_8, riffle_source,
    walksman_permutation_8, LFSR16,
};
use super::sample::{sampled_block, sampled_gate};
use super::strategy::ControlFnChoice;
use crate::circuit::circuit::Gate;
use crate::flags::count_set;
use crate::local_mixing::consts::{N_IN, N_PROJ_WIRES};
use crate::random::RandomSource;
use vstd::prelude::*;

verus! {

/// How often the rows are permuted anew, where a wire has come to stand
/// twice in one gate, before a sample is given up.
pub const SHUFFLE_ROUNDS: usize = 64;

/// A wire that may be placed in a gate, or none.
#[derive(Debug, Clone, Copy)]
pub struct WireEntries {
    pub position: u8,
    pub present: bool,
}

impl Default for WireEntries {
    fn default() -> (e: Self)
        ensures
            e.position == 0,
            !e.present,
    {
        Self { position: 0, present: false }
    }
}

impl WireEntries {
    /// The wire of the entry, if it holds one, is a local wire.
    pub open spec fn valid(self) -> bool {
        self.present ==> self.position < N_PROJ_WIRES
    }

    /// The two entries hold the same wire.
    pub open spec fn clashes_with(self, other: Self) -> bool {
        self.present && other.present && self.position == other.position
    }

    /// The entry for the wire at place `i` of `wires`, and the empty entry
    /// where the list has no such place.
    fn of_listed(wires: &Vec<usize>, i: usize) -> (e: Self)
        requires
            forall|k: int| 0 <= k < wires.len() ==> wires[k] < N_PROJ_WIRES,
        ensures
            e.valid(),
            e.present == (i < wires.len()),
            e.present ==> e.position == wires[i as int],
    {
        if i < wires.len() {
            Self { position: wires[i] as u8, present: true }
        } else {
            Self { position: 0, present: false }
        }
    }
}

/// Every entry of the row is valid.
pub open spec fn row_valid(row: Seq<WireEntries>) -> bool {
    forall|i: int| 0 <= i < row.len() ==> (#[trigger] row[i]).valid()
}

/// A row with the entries of a valid row is valid.
pub proof fn lemma_permuted_row_valid(before: Seq<WireEntries>, after: Seq<WireEntries>)
    requires
        row_valid(before),
        after.to_multiset() == before.to_multiset(),
    ensures
        row_valid(after),
{
    before.to_multiset_ensures();
    after.to_multiset_ensures();
    assert forall|i: int| 0 <= i < after.len() implies (#[trigger] after[i]).valid() by {
        assert(after.contains(after[i]));
        assert(before.to_multiset().count(after[i]) > 0);
        assert(before.contains(after[i]));
        let k = choose|k: int| 0 <= k < before.len() && before[k] == after[i];
        assert(before[k].valid());
    }
}

/// A sampler of candidate blocks.
pub trait GateProvider {
    /// The sampler is in order.
    spec fn ready(&self) -> bool;

    /// Writes a candidate to `gates`, with control functions of
    /// `cf_choice`, and returns whether it could make one.  A candidate has
    /// three distinct local wires in each gate.
    fn get_gates(&mut self, gates: &mut [Gate; N_IN], cf_choice: ControlFnChoice) -> (made: bool)
        requires
            old(self).ready(),
        ensures
            final(self).ready(),
            made ==> sampled_block(final(gates)@, N_PROJ_WIRES as int, cf_choice),
            !made ==> final(gates)@ == old(gates)@,
    ;
}

/// The places at which `flags` holds, in increasing order.
fn flagged_wires(flags: &[bool; N_PROJ_WIRES]) -> (list: Vec<usize>)
    ensures
        list.len() == count_set(flags@),
        forall|k: int| 0 <= k < list.len() ==> list[k] < N_PROJ_WIRES,
        forall|a: int, b: int| 0 <= a < b < list.len() ==> list[a] < list[b],
        forall|v: usize| list@.contains(v) <==> (v < N_PROJ_WIRES && flags@[v as int]),
{
    let mut list: Vec<usize> = Vec::new();
    let mut w: usize = 0;
    while w < N_PROJ_WIRES
        invariant
            w <= N_PROJ_WIRES,
            list.len() == count_set(flags@.take(w as int)),
            forall|k: int| 0 <= k < list.len() ==> list[k] < w,
            forall|a: int, b: int| 0 <= a < b < list.len() ==> list[a] < list[b],
            forall|v: usize| list@.contains(v) <==> (v < w && flags@[v as int]),
        decreases N_PROJ_WIRES - w,
    {
        proof {
            crate::flags::lemma_count_free_step(flags@, w as int);
        }
        if flags[w] {
            let ghost before = list@;
            list.push(w);
            proof {
                assert(list@[list.len() - 1] == w);
                assert forall|v: usize| list@.contains(v) <==> (v < w + 1 && flags@[v as int]) by {
                    if list@.contains(v) {
                        let k = choose|k: int| 0 <= k < list.len() && list@[k] == v;
                        if k < before.len() {
                            assert(before[k] == v);
                            assert(before.contains(v));
                        }
                    }
                    if v < w && flags@[v as int] {
                        assert(before.contains(v));
                        let k = choose|k: int| 0 <= k < before.len() && before[k] == v;
                        assert(list@[k] == v);
                    }
                }
            }
        }
        w += 1;
    }
    proof {
        assert(flags@.take(N_PROJ_WIRES as int) == flags@);
    }
    list
}

/// Row `row` holds the wire `w`.
pub open spec fn row_holds(row: Seq<WireEntries>, w: usize) -> bool {
    exists|i: int| 0 <= i < row.len() && (#[trigger] row[i]).present && row[i].position == w
}

/// No wire stands twice in the row.
pub open spec fn row_distinct(row: Seq<WireEntries>) -> bool {
    forall|i: int, j: int|
        0 <= i < j < row.len() && (#[trigger] row[i]).present && (#[trigger] row[j]).present
            ==> row[i].position != row[j].position
}

/// The row has, at each place below the length of `list`, the wire of the
/// list at that place, and no wire at the other places.
pub open spec fn row_of(row: Seq<WireEntries>, list: Seq<usize>) -> bool {
    forall|k: int|
        0 <= k < row.len() ==> (#[trigger] row[k]).present == (k < list.len()) && (k < list.len()
            ==> row[k].position == list[k])
}

/// A row that is filled from a list that is no longer, and in which no
/// wire stands twice, holds the wires of the list and none twice.
proof fn lemma_row_of(row: Seq<WireEntries>, list: Seq<usize>)
    requires
        row_of(row, list),
        list.len() <= row.len(),
        list.no_duplicates(),
    ensures
        forall|w: usize| list.contains(w) <==> row_holds(row, w),
        row_distinct(row),
{
    assert forall|w: usize| list.contains(w) <==> row_holds(row, w) by {
        if list.contains(w) {
            let k = choose|k: int| 0 <= k < list.len() && list[k] == w;
            assert(row[k].present && row[k].position == w);
        }
        if row_holds(row, w) {
            let i = choose|i: int| 0 <= i < row.len() && (#[trigger] row[i]).present
                && row[i].position == w;
            assert(list[i] == w);
        }
    }
    assert forall|i: int, j: int|
        0 <= i < j < row.len() && (#[trigger] row[i]).present && (#[trigger] row[j]).present implies row[i].position
        != row[j].position by {
        assert(list[i] != list[j]);
    }
}

/// A shuffled list holds what the list held, and no item twice if the
/// list held none twice.
proof fn lemma_shuffled_same(before: Seq<usize>, after: Seq<usize>)
    requires
        after.to_multiset() == before.to_multiset(),
        before.no_duplicates(),
    ensures
        after.no_duplicates(),
        after.len() == before.len(),
        forall|w: usize| after.contains(w) <==> before.contains(w),
{
    broadcast use vstd::seq_lib::to_multiset_len, vstd::seq_lib::to_multiset_contains;

    before.lemma_multiset_has_no_duplicates();
    after.lemma_multiset_has_no_duplicates_conv();
    assert(after.len() == after.to_multiset().len());
    assert(before.len() == before.to_multiset().len());
    assert forall|w: usize| after.contains(w) <==> before.contains(w) by {
        vstd::seq_lib::to_multiset_contains(after, w);
        vstd::seq_lib::to_multiset_contains(before, w);
    }
}

/// The row after a riffle that a register in `state` sets: it begins with
/// the first half if the lowest bit of the state is set, and is turned by
/// one place if the bit 4 is set.
pub open spec fn riffled_row(row: Seq<WireEntries>, state: u16) -> Seq<WireEntries> {
    Seq::new(
        row.len(),
        |i: int|
            row[riffle_source(
                row.len() as int,
                (state & 1) == 1,
                if ((state >> 4) & 1) == 1 {
                    (i + 1) % (row.len() as int)
                } else {
                    i
                },
            )],
    )
}

/// The lowest `n` bits of `state`, the lowest first.
pub open spec fn switch_bits(state: usize, n: nat) -> Seq<bool> {
    Seq::new(n, |i: int| ((state >> (i as usize)) & 1) == 1)
}

/// The row of the eight controls after a riffle set by `permutor_state`
/// and the network of seventeen switches set by the bits of `state`.
pub open spec fn permuted_controls(row: Seq<WireEntries>, permutor_state: u16, state: usize) -> Seq<
    WireEntries,
> {
    network_8(riffled_row(row, permutor_state), switch_bits(state, 17))
}

/// The active wires in three rows, a place in each row for each gate, and
/// the registers that permute the rows and fill the gates.
pub struct LFSRShuffle {
    /// The active control wires that stand in the first control slot.
    pub first_controls: [WireEntries; N_IN],
    /// The active control wires that stand in the second control slot.
    pub second_controls: [WireEntries; N_IN],
    /// The active target wires.
    pub targets: [WireEntries; N_IN],
    /// The register that sets the permutations.
    pub permutor: LFSR16,
    /// The register that fills the slots that no active wire takes.
    pub lfsr: LFSR128,
}

impl LFSRShuffle {
    /// Every entry of every row is valid.
    pub open spec fn wf(&self) -> bool {
        &&& row_valid(self.first_controls@)
        &&& row_valid(self.second_controls@)
        &&& row_valid(self.targets@)
    }

    /// In gate `i`, a wire stands in two slots.
    pub open spec fn clash_at(&self, i: int) -> bool {
        ||| self.targets@[i].clashes_with(self.first_controls@[i])
        ||| self.targets@[i].clashes_with(self.second_controls@[i])
        ||| self.first_controls@[i].clashes_with(self.second_controls@[i])
    }

    /// The sampler for the wires flagged in `active_wires`, the targets in
    /// its first row and the controls in its second.  The wires are spread
    /// over the gates in a random order, and the registers are seeded from
    /// `rng`.  There may be no more active targets than gates, and no more
    /// active controls than two for each gate.  The row of the targets
    /// holds the flagged targets, the two rows of the controls together the
    /// flagged controls, each wire once.
    pub fn new<R: RandomSource>(active_wires: [[bool; N_PROJ_WIRES]; 2], rng: &mut R) -> (shuffle:
        Self)
        requires
            count_set(active_wires@[1]@) <= 2 * N_IN,
            count_set(active_wires@[0]@) <= N_IN,
        ensures
            shuffle.wf(),
            forall|w: usize|
                w < N_PROJ_WIRES ==> (active_wires@[0]@[w as int] <==> row_holds(
                    shuffle.targets@,
                    w,
                )),
            forall|w: usize|
                w < N_PROJ_WIRES ==> (active_wires@[1]@[w as int] <==> row_holds(
                    shuffle.first_controls@ + shuffle.second_controls@,
                    w,
                )),
            forall|w: usize| row_holds(shuffle.targets@, w) ==> w < N_PROJ_WIRES,
            forall|w: usize|
                row_holds(shuffle.first_controls@ + shuffle.second_controls@, w) ==> w
                    < N_PROJ_WIRES,
            row_distinct(shuffle.targets@),
            row_distinct(shuffle.first_controls@ + shuffle.second_controls@),
            final(rng).replayable() == old(rng).replayable(),
    {
        let mut true_active_target_wires = flagged_wires(&active_wires[0]);
        let mut true_active_control_wires = flagged_wires(&active_wires[1]);
        let ghost targets_before = true_active_target_wires@;
        let ghost controls_before = true_active_control_wires@;
        rng.shuffle(&mut true_active_control_wires);
        rng.shuffle(&mut true_active_target_wires);
        proof {
            lemma_shuffled_below(targets_before, true_active_target_wires@);
            lemma_shuffled_below(controls_before, true_active_control_wires@);
            lemma_shuffled_same(targets_before, true_active_target_wires@);
            lemma_shuffled_same(controls_before, true_active_control_wires@);
        }
        let mut first_controls = [WireEntries { position: 0, present: false }; N_IN];
        let mut second_controls = [WireEntries { position: 0, present: false }; N_IN];
        let mut targets = [WireEntries { position: 0, present: false }; N_IN];
        let ghost tlist = true_active_target_wires@;
        let ghost clist = true_active_control_wires@;
        let mut i: usize = 0;
        while i < N_IN
            invariant
                i <= N_IN,
                tlist == true_active_target_wires@,
                clist == true_active_control_wires@,
                forall|k: int|
                    0 <= k < true_active_control_wires.len() ==> true_active_control_wires[k]
                        < N_PROJ_WIRES,
                forall|k: int|
                    0 <= k < true_active_target_wires.len() ==> true_active_target_wires[k]
                        < N_PROJ_WIRES,
                row_valid(first_controls@),
                row_valid(second_controls@),
                row_valid(targets@),
                forall|k: int|
                    0 <= k < i ==> (#[trigger] targets@[k]).present == (k < tlist.len()) && (k
                        < tlist.len() ==> targets@[k].position == tlist[k]),
                forall|k: int|
                    0 <= k < i ==> (#[trigger] first_controls@[k]).present == (k < clist.len())
                        && (k < clist.len() ==> first_controls@[k].position == clist[k]),
                forall|k: int|
                    0 <= k < i ==> (#[trigger] second_controls@[k]).present == (N_IN + k
                        < clist.len()) && (N_IN + k < clist.len() ==> second_controls@[k].position
                        == clist[N_IN + k]),
            decreases N_IN - i,
        {
            first_controls[i] = WireEntries::of_listed(&true_active_control_wires, i);
            second_controls[i] = WireEntries::of_listed(&true_active_control_wires, N_IN + i);
            targets[i] = WireEntries::of_listed(&true_active_target_wires, i);
            i += 1;
        }
        proof {
            let controls = first_controls@ + second_controls@;
            assert(row_of(targets@, tlist));
            assert(row_of(controls, clist)) by {
                assert forall|k: int| 0 <= k < controls.len() implies (#[trigger] controls[k]).present
                    == (k < clist.len()) && (k < clist.len() ==> controls[k].position
                    == clist[k]) by {
                    if k < N_IN {
                        assert(controls[k] == first_controls@[k]);
                    } else {
                        assert(controls[k] == second_controls@[k - N_IN]);
                    }
                }
            }
            lemma_row_of(targets@, tlist);
            lemma_row_of(controls, clist);
        }
        let mut bytes: Vec<u8> = vec![0u8; 16];
        rng.fill_bytes(&mut bytes);
        let mut seed = [0u8; 16];
        let mut k: usize = 0;
        while k < 16
            invariant
                k <= 16,
                bytes.len() == 16,
            decreases 16 - k,
        {
            seed[k] = bytes[k];
            k += 1;
        }
        let permutor_seed = rng.below(65536) as u16;
        Self {
            first_controls,
            second_controls,
            targets,
            permutor: LFSR16::new(permutor_seed),
            lfsr: LFSR128::new(get_128_from_u8_array(seed)),
        }
    }

    /// Whether, in some gate, a wire stands in two slots.
    pub fn collision_check(&self) -> (r: bool)
        ensures
            r == exists|i: int| 0 <= i < N_IN && self.clash_at(i),
    {
        let mut i: usize = 0;
        while i < N_IN
            invariant
                i <= N_IN,
                forall|k: int| 0 <= k < i ==> !self.clash_at(k),
            decreases N_IN - i,
        {
            let t = self.targets[i];
            let a = self.first_controls[i];
            let b = self.second_controls[i];
            if (a.present && t.present && t.position == a.position) || (b.present && t.present
                && t.position == b.position) || (a.present && b.present && a.position
                == b.position) {
                proof {
                    assert(self.clash_at(i as int));
                }
                return true;
            }
            i += 1;
        }
        false
    }

    /// Permutes the rows: the targets by the network of five switches, the
    /// controls, as one row of eight, by a riffle and the network of
    /// seventeen switches, which the bits of the register set.  The large
    /// register makes one step, the small one six.
    pub fn shuffle_permute(&mut self)
        requires
            old(self).wf(),
        ensures
            final(self).wf(),
            final(self).targets@.to_multiset() == old(self).targets@.to_multiset(),
            final(self).targets@ == network_4(
                old(self).targets@,
                lfsr16_bits(old(self).permutor.state, 5),
            ),
            final(self).first_controls@ + final(self).second_controls@ == permuted_controls(
                old(self).first_controls@ + old(self).second_controls@,
                lfsr16_after(old(self).permutor.state, 5),
                old(self).lfsr.state as usize,
            ),
            final(self).lfsr.state == lfsr128_step(old(self).lfsr.state),
            final(self).permutor.state == lfsr16_step(lfsr16_after(old(self).permutor.state, 5)),
    {
        let state = self.lfsr.next_usize();
        let targets = self.permutor.permute_4(&self.targets);
        proof {
            lemma_permuted_row_valid(self.targets@, targets@);
        }
        self.targets = targets;

        let mut columns = [WireEntries { position: 0, present: false }; 8];
        let mut i: usize = 0;
        while i < 8
            invariant
                i <= 8,
                self.wf(),
                row_valid(columns@),
                self.first_controls == old(self).first_controls,
                self.second_controls == old(self).second_controls,
                forall|k: int|
                    0 <= k < i ==> columns@[k] == (old(self).first_controls@ + old(
                        self,
                    ).second_controls@)[k],
            decreases 8 - i,
        {
            proof {
                if i < N_IN {
                    assert(self.first_controls@[i as int].valid());
                } else {
                    assert(self.second_controls@[i - N_IN].valid());
                }
            }
            if i < N_IN {
                columns[i] = self.first_controls[i];
            } else {
                columns[i] = self.second_controls[i - N_IN];
            }
            i += 1;
        }
        proof {
            assert(columns@ =~= old(self).first_controls@ + old(self).second_controls@);
        }
        let mut control: Vec<bool> = Vec::new();
        let mut index: usize = 0;
        while index < 17
            invariant
                index <= 17,
                control.len() == index,
                forall|k: int|
                    0 <= k < index ==> control@[k] == (((state >> (k as usize)) & 1) == 1),
            decreases 17 - index,
        {
            control.push(((state >> index) & 1) == 1);
            index += 1;
        }
        proof {
            assert(control@ =~= switch_bits(state, 17));
        }
        let ghost turn = ((self.permutor.state >> 4) & 1) == 1;
        let ghost even = (self.permutor.state & 1) == 1;
        let ghost permutor_state = self.permutor.state;
        let riffled = self.permutor.riffle_array(&columns);
        proof {
            lemma_riffled_row_valid(columns@, riffled@, even, turn);
            assert(riffled@ =~= riffled_row(columns@, permutor_state));
        }
        let permuted = walksman_permutation_8(&riffled, control);
        proof {
            lemma_permuted_row_valid(riffled@, permuted@);
        }
        let mut i: usize = 0;
        while i < 8
            invariant
                i <= 8,
                row_valid(permuted@),
                self.wf(),
                self.targets@ == targets@,
                self.lfsr.state == lfsr128_step(old(self).lfsr.state),
                self.permutor.state == lfsr16_step(permutor_state),
                forall|k: int| 0 <= k < i && k < N_IN ==> self.first_controls@[k] == permuted@[k],
                forall|k: int|
                    N_IN <= k < i ==> self.second_controls@[k - N_IN] == permuted@[k],
            decreases 8 - i,
        {
            proof {
                assert(permuted@[i as int].valid());
            }
            if i < N_IN {
                self.first_controls[i] = permuted[i];
            } else {
                self.second_controls[i - N_IN] = permuted[i];
            }
            i += 1;
        }
        proof {
            assert forall|k: int| 0 <= k < 8 implies (self.first_controls@
                + self.second_controls@)[k] == permuted@[k] by {
                if k >= N_IN {
                    assert(self.second_controls@[k - N_IN] == permuted@[k]);
                }
            }
            assert(self.first_controls@ + self.second_controls@ =~= permuted@);
        }
    }

    /// A gate for place `index`: the active wires of the rows in their
    /// slots, and in each other slot a wire that the register picks among
    /// those that are not yet in it.
    pub fn place_gate_wires(&mut self, index: usize) -> (gate: Gate)
        requires
            old(self).wf(),
            index < N_IN,
            !old(self).clash_at(index as int),
        ensures
            final(self).wf(),
            final(self).targets == old(self).targets,
            final(self).first_controls == old(self).first_controls,
            final(self).second_controls == old(self).second_controls,
            final(self).permutor == old(self).permutor,
            gate.distinct_wires(),
            gate.wires[0] < N_PROJ_WIRES && gate.wires[1] < N_PROJ_WIRES && gate.wires[2]
                < N_PROJ_WIRES,
            gate.control_func == 0,
            gate.generation == 0,
            old(self).targets@[index as int].present ==> gate.wires[0] == old(
                self,
            ).targets@[index as int].position,
            old(self).first_controls@[index as int].present ==> gate.wires[1] == old(
                self,
            ).first_controls@[index as int].position,
            old(self).second_controls@[index as int].present ==> gate.wires[2] == old(
                self,
            ).second_controls@[index as int].position,
    {
        let t = self.targets[index];
        let a = self.first_controls[index];
        let b = self.second_controls[index];
        proof {
            assert(self.targets@[index as int].valid());
            assert(self.first_controls@[index as int].valid());
            assert(self.second_controls@[index as int].valid());
        }
        let mut exclusion_store: Vec<usize> = Vec::new();
        if t.present {
            exclude(&mut exclusion_store, t.position as usize);
        }
        if a.present {
            exclude(&mut exclusion_store, a.position as usize);
        }
        if b.present {
            exclude(&mut exclusion_store, b.position as usize);
        }
        let target = if t.present {
            t.position as usize
        } else {
            proof {
                lemma_some_wire_left(exclusion_store@);
            }
            let val = self.lfsr.sample_excluding::<N_PROJ_WIRES>(&exclusion_store);
            exclude(&mut exclusion_store, val);
            val
        };
        let control0 = if a.present {
            a.position as usize
        } else {
            proof {
                lemma_some_wire_left(exclusion_store@);
            }
            let val = self.lfsr.sample_excluding::<N_PROJ_WIRES>(&exclusion_store);
            exclude(&mut exclusion_store, val);
            val
        };
        let control1 = if b.present {
            b.position as usize
        } else {
            proof {
                lemma_some_wire_left(exclusion_store@);
            }
            self.lfsr.sample_excluding::<N_PROJ_WIRES>(&exclusion_store)
        };
        Gate { wires: [target, control0, control1], control_func: 0, generation: 0 }
    }
}

impl GateProvider for LFSRShuffle {
    open spec fn ready(&self) -> bool {
        self.wf()
    }

    /// Permutes the rows until no wire stands twice in a gate, at most
    /// `SHUFFLE_ROUNDS` times, and fills the gates from the rows: a
    /// candidate is made exactly if the rows, as they are left, have no
    /// wire twice in a gate, and each of its gates then has the active
    /// wires of its place in the rows in their slots.
    fn get_gates(&mut self, gates: &mut [Gate; N_IN], cf_choice: ControlFnChoice) -> (made: bool)
        ensures
            made == !exists|i: int| 0 <= i < N_IN && final(self).clash_at(i),
            made ==> forall|k: int|
                0 <= k < N_IN ==> {
                    &&& (#[trigger] final(self).targets@[k]).present ==> final(gates)@[k].wires[0]
                        == final(self).targets@[k].position
                    &&& final(self).first_controls@[k].present ==> final(gates)@[k].wires[1]
                        == final(self).first_controls@[k].position
                    &&& final(self).second_controls@[k].present ==> final(gates)@[k].wires[2]
                        == final(self).second_controls@[k].position
                },
    {
        let mut round: usize = 0;
        let mut clear = false;
        while round < SHUFFLE_ROUNDS && !clear
            invariant
                round <= SHUFFLE_ROUNDS,
                self.wf(),
                gates@ == old(gates)@,
                clear ==> forall|i: int| 0 <= i < N_IN ==> !self.clash_at(i),
                !clear && round > 0 ==> exists|i: int| 0 <= i < N_IN && self.clash_at(i),
            decreases SHUFFLE_ROUNDS - round,
        {
            self.shuffle_permute();
            clear = !self.collision_check();
            round += 1;
        }
        if !clear {
            return false;
        }
        let mut i: usize = 0;
        while i < N_IN
            invariant
                i <= N_IN,
                self.wf(),
                forall|k: int| 0 <= k < N_IN ==> !self.clash_at(k),
                forall|k: int|
                    0 <= k < i ==> sampled_gate(#[trigger] gates@[k], N_PROJ_WIRES as int, cf_choice),
                forall|k: int|
                    0 <= k < i ==> {
                        &&& (#[trigger] self.targets@[k]).present ==> gates@[k].wires[0]
                            == self.targets@[k].position
                        &&& self.first_controls@[k].present ==> gates@[k].wires[1]
                            == self.first_controls@[k].position
                        &&& self.second_controls@[k].present ==> gates@[k].wires[2]
                            == self.second_controls@[k].position
                    },
            decreases N_IN - i,
        {
            let ghost before = *self;
            let ghost done = gates@;
            let placed = self.place_gate_wires(i);
            let control_func = cf_choice.random_cf(&mut self.lfsr);
            gates[i] = Gate { wires: placed.wires, control_func, generation: placed.generation };
            proof {
                assert(self.targets == before.targets);
                assert(self.first_controls == before.first_controls);
                assert(self.second_controls == before.second_controls);
                assert forall|k: int| 0 <= k < N_IN implies !self.clash_at(k) by {
                    assert(!before.clash_at(k));
                }
                assert forall|k: int| 0 <= k < i + 1 implies {
                    &&& (#[trigger] self.targets@[k]).present ==> gates@[k].wires[0]
                        == self.targets@[k].position
                    &&& self.first_controls@[k].present ==> gates@[k].wires[1]
                        == self.first_controls@[k].position
                    &&& self.second_controls@[k].present ==> gates@[k].wires[2]
                        == self.second_controls@[k].position
                } by {
                    if k < i {
                        assert(gates@[k] == done[k]);
                        assert(before.targets@[k].present ==> done[k].wires[0]
                            == before.targets@[k].position);
                    } else {
                        assert(gates@[k].wires == placed.wires);
                    }
                }
            }
            i += 1;
        }
        true
    }
}

/// Adds `w` to the wires that are taken.
fn exclude(store: &mut Vec<usize>, w: usize)
    ensures
        final(store)@ == old(store)@.push(w),
        final(store)@.contains(w),
        forall|v: usize| old(store)@.contains(v) ==> final(store)@.contains(v),
{
    let ghost before = store@;
    store.push(w);
    proof {
        assert(store@[store.len() - 1] == w);
        assert forall|v: usize| before.contains(v) implies store@.contains(v) by {
            let k = choose|k: int| 0 <= k < before.len() && before[k] == v;
            assert(store@[k] == v);
        }
    }
}

/// Of two wires at most, one of the first three local wires is none.
proof fn lemma_some_wire_left(list: Seq<usize>)
    requires
        list.len() <= 2,
    ensures
        exists|w: usize| w < N_PROJ_WIRES && !list.contains(w),
{
    if !list.contains(0usize) {
        assert(0usize < N_PROJ_WIRES && !list.contains(0usize));
    } else if !list.contains(1usize) {
        assert(1usize < N_PROJ_WIRES && !list.contains(1usize));
    } else {
        let a = choose|a: int| 0 <= a < list.len() && list[a] == 0usize;
        let b = choose|b: int| 0 <= b < list.len() && list[b] == 1usize;
        assert(!list.contains(2usize)) by {
            if list.contains(2usize) {
                let c = choose|c: int| 0 <= c < list.len() && list[c] == 2usize;
                assert(c == a || c == b);
            }
        }
        assert(2usize < N_PROJ_WIRES && !list.contains(2usize));
    }
}

/// A riffled and turned row of valid entries is a row of valid entries.
proof fn lemma_riffled_row_valid(
    before: Seq<WireEntries>,
    after: Seq<WireEntries>,
    even: bool,
    turn: bool,
)
    requires
        row_valid(before),
        before.len() == 8,
        after.len() == 8,
        forall|i: int|
            0 <= i < 8 ==> after[i] == before[super::permutations::riffle_source(
                8,
                even,
                if turn {
                    (i + 1) % 8
                } else {
                    i
                },
            )],
    ensures
        row_valid(after),
{
    assert forall|i: int| 0 <= i < 8 implies (#[trigger] after[i]).valid() by {
        let from = if turn {
            (i + 1) % 8
        } else {
            i
        };
        super::permutations::lemma_riffle_is_permutation(8, even, from, from);
        assert(after[i] == before[super::permutations::riffle_source(8, even, from)]);
    }
}

/// The items of a shuffled list of local wires are local wires.
proof fn lemma_shuffled_below(before: Seq<usize>, after: Seq<usize>)
    requires
        forall|k: int| 0 <= k < before.len() ==> before[k] < N_PROJ_WIRES,
        after.to_multiset() == before.to_multiset(),
    ensures
        forall|k: int| 0 <= k < after.len() ==> after[k] < N_PROJ_WIRES,
{
    before.to_multiset_ensures();
    after.to_multiset_ensures();
    assert forall|k: int| 0 <= k < after.len() implies after[k] < N_PROJ_WIRES by {
        assert(after.contains(after[k]));
        assert(before.to_multiset().count(after[k]) > 0);
        assert(before.contains(after[k]));
        let j = choose|j: int| 0 <= j < before.len() && before[j] == after[k];
    }
}

} // verus!
