//! The wires of a growing set of gates, kept as flags, so that a gate can be
//! tested for a collision with the set in one step.
use crate::circuit::circuit::{collides, Gate};
use crate::flags::{cleared, count_free, lemma_count_free_bounds, lemma_count_free_zero, mark};
use vstd::prelude::*;

verus! {

/// The targets and the controls of the gates of a set.
pub struct WireMarks {
    /// The wires that are the target of a gate of the set.
    pub targets: Vec<bool>,
    /// The wires that are a control of a gate of the set.
    pub controls: Vec<bool>,
    /// The number of wires flagged as target.
    pub target_count: usize,
    /// The number of wires flagged as control.
    pub control_count: usize,
}

impl WireMarks {
    /// The flags are those of the gates before `upto` of which `member`
    /// holds, and the counts are those of the flags.
    pub open spec fn covers(
        &self,
        gates: Seq<Gate>,
        member: spec_fn(int) -> bool,
        upto: int,
    ) -> bool {
        &&& self.targets.len() == self.controls.len()
        &&& self.target_count == self.targets.len() - count_free(self.targets@)
        &&& self.control_count == self.controls.len() - count_free(self.controls@)
        &&& forall|w: int|
            0 <= w < self.targets.len() ==> (#[trigger] self.targets[w] <==> exists|d: int|
                0 <= d < upto && member(d) && (#[trigger] gates[d]).wires[0] == w)
        &&& forall|w: int|
            0 <= w < self.controls.len() ==> (#[trigger] self.controls[w] <==> exists|d: int|
                0 <= d < upto && member(d) && ((#[trigger] gates[d]).wires[1] == w
                    || gates[d].wires[2] == w))
    }

    /// `g` collides with the flagged wires.
    pub open spec fn hit(&self, g: Gate) -> bool {
        self.controls[g.wires[0] as int] || self.targets[g.wires[1] as int]
            || self.targets[g.wires[2] as int]
    }

    /// A gate collides with the flagged wires exactly if it collides with a
    /// gate of the set.
    pub proof fn lemma_hit(
        &self,
        gates: Seq<Gate>,
        member: spec_fn(int) -> bool,
        upto: int,
        g: Gate,
    )
        requires
            self.covers(gates, member, upto),
            g.fits(self.targets.len() as int),
        ensures
            self.hit(g) <==> exists|d: int|
                0 <= d < upto && member(d) && #[trigger] collides(gates[d], g),
    {
        if self.controls[g.wires[0] as int] {
            let d = choose|d: int|
                0 <= d < upto && member(d) && ((#[trigger] gates[d]).wires[1] == g.wires[0]
                    || gates[d].wires[2] == g.wires[0]);
            assert(collides(gates[d], g));
        }
        if self.targets[g.wires[1] as int] {
            let d = choose|d: int|
                0 <= d < upto && member(d) && (#[trigger] gates[d]).wires[0] == g.wires[1];
            assert(collides(gates[d], g));
        }
        if self.targets[g.wires[2] as int] {
            let d = choose|d: int|
                0 <= d < upto && member(d) && (#[trigger] gates[d]).wires[0] == g.wires[2];
            assert(collides(gates[d], g));
        }
        if exists|d: int| 0 <= d < upto && member(d) && #[trigger] collides(gates[d], g) {
            let d = choose|d: int| 0 <= d < upto && member(d) && #[trigger] collides(gates[d], g);
            assert(gates[d].wires[0] == g.wires[1] || gates[d].wires[0] == g.wires[2]
                || gates[d].wires[1] == g.wires[0] || gates[d].wires[2] == g.wires[0]);
        }
    }

    /// A gate that is not of the set leaves the flags as they are.
    pub proof fn lemma_skip(&self, gates: Seq<Gate>, member: spec_fn(int) -> bool, upto: int)
        requires
            self.covers(gates, member, upto),
            !member(upto),
        ensures
            self.covers(gates, member, upto + 1),
    {
        assert forall|w: int| 0 <= w < self.targets.len() implies (#[trigger] self.targets[w]
            <==> exists|d: int|
            0 <= d < upto + 1 && member(d) && (#[trigger] gates[d]).wires[0] == w) by {
            if self.targets[w] {
                let d = choose|d: int|
                    0 <= d < upto && member(d) && (#[trigger] gates[d]).wires[0] == w;
                assert(0 <= d < upto + 1 && member(d) && gates[d].wires[0] == w);
            }
        }
        assert forall|w: int| 0 <= w < self.controls.len() implies (#[trigger] self.controls[w]
            <==> exists|d: int|
            0 <= d < upto + 1 && member(d) && ((#[trigger] gates[d]).wires[1] == w
                || gates[d].wires[2] == w)) by {
            if self.controls[w] {
                let d = choose|d: int|
                    0 <= d < upto && member(d) && ((#[trigger] gates[d]).wires[1] == w
                        || gates[d].wires[2] == w);
                assert(0 <= d < upto + 1 && member(d) && (gates[d].wires[1] == w
                    || gates[d].wires[2] == w));
            }
        }
    }

    /// Where every wire is flagged as target, or every wire as control, a
    /// gate over these wires collides with the flagged wires.
    pub proof fn lemma_full(&self, gates: Seq<Gate>, member: spec_fn(int) -> bool, upto: int, g: Gate)
        requires
            self.covers(gates, member, upto),
            g.fits(self.targets.len() as int),
            self.target_count == self.targets.len() || self.control_count == self.targets.len(),
        ensures
            self.hit(g),
    {
        if self.target_count == self.targets.len() {
            lemma_count_free_zero(self.targets@);
        } else {
            lemma_count_free_zero(self.controls@);
        }
    }

    /// Gates that are not of the set leave the flags as they are.
    pub proof fn lemma_skip_many(&self, gates: Seq<Gate>, member: spec_fn(int) -> bool, upto: int)
        requires
            self.covers(gates, member, 0),
            forall|d: int| 0 <= d < upto ==> !#[trigger] member(d),
        ensures
            self.covers(gates, member, upto),
    {
        assert forall|w: int| 0 <= w < self.targets.len() implies (#[trigger] self.targets[w]
            <==> exists|d: int|
            0 <= d < upto && member(d) && (#[trigger] gates[d]).wires[0] == w) by {
        }
        assert forall|w: int| 0 <= w < self.controls.len() implies (#[trigger] self.controls[w]
            <==> exists|d: int|
            0 <= d < upto && member(d) && ((#[trigger] gates[d]).wires[1] == w
                || gates[d].wires[2] == w)) by {
        }
    }

    /// No wire flagged.
    pub fn new(num_wires: usize) -> (marks: Self)
        ensures
            marks.targets.len() == num_wires,
            forall|gates: Seq<Gate>, member: spec_fn(int) -> bool| marks.covers(gates, member, 0),
    {
        Self {
            targets: cleared(num_wires),
            controls: cleared(num_wires),
            target_count: 0,
            control_count: 0,
        }
    }

    /// Whether `g` collides with the flagged wires.
    pub fn touches(&self, g: &Gate) -> (r: bool)
        requires
            self.targets.len() == self.controls.len(),
            g.fits(self.targets.len() as int),
        ensures
            r == self.hit(*g),
    {
        self.controls[g.wires[0]] || self.targets[g.wires[1]] || self.targets[g.wires[2]]
    }

    /// Flags the wires of gate `upto`, which is of the set.
    pub(crate) fn add(
        &mut self,
        g: &Gate,
        Ghost(gates): Ghost<Seq<Gate>>,
        Ghost(member): Ghost<spec_fn(int) -> bool>,
        Ghost(upto): Ghost<int>,
    )
        requires
            old(self).covers(gates, member, upto),
            0 <= upto < gates.len(),
            gates[upto] == *g,
            member(upto),
            g.fits(old(self).targets.len() as int),
        ensures
            final(self).covers(gates, member, upto + 1),
            final(self).targets.len() == old(self).targets.len(),
    {
        let ghost before = *self;
        if !self.targets[g.wires[0]] {
            mark(&mut self.targets, g.wires[0]);
            proof {
                lemma_count_free_bounds(self.targets@);
            }
            self.target_count += 1;
        }
        if !self.controls[g.wires[1]] {
            mark(&mut self.controls, g.wires[1]);
            proof {
                lemma_count_free_bounds(self.controls@);
            }
            self.control_count += 1;
        }
        if !self.controls[g.wires[2]] {
            mark(&mut self.controls, g.wires[2]);
            proof {
                lemma_count_free_bounds(self.controls@);
            }
            self.control_count += 1;
        }
        proof {
            assert forall|w: int| 0 <= w < self.targets.len() implies (#[trigger] self.targets[w]
                <==> exists|d: int|
                0 <= d < upto + 1 && member(d) && (#[trigger] gates[d]).wires[0] == w) by {
                if before.targets[w] {
                    let d = choose|d: int|
                        0 <= d < upto && member(d) && (#[trigger] gates[d]).wires[0] == w;
                    assert(0 <= d < upto + 1 && member(d) && gates[d].wires[0] == w);
                }
                if w == g.wires[0] {
                    assert(member(upto) && gates[upto].wires[0] == w);
                }
            }
            assert forall|w: int| 0 <= w < self.controls.len() implies (
            #[trigger] self.controls[w] <==> exists|d: int|
                0 <= d < upto + 1 && member(d) && ((#[trigger] gates[d]).wires[1] == w
                    || gates[d].wires[2] == w)) by {
                if before.controls[w] {
                    let d = choose|d: int|
                        0 <= d < upto && member(d) && ((#[trigger] gates[d]).wires[1] == w
                            || gates[d].wires[2] == w);
                    assert(0 <= d < upto + 1 && member(d) && (gates[d].wires[1] == w
                        || gates[d].wires[2] == w));
                }
                if w == g.wires[1] || w == g.wires[2] {
                    assert(member(upto) && (gates[upto].wires[1] == w || gates[upto].wires[2]
                        == w));
                }
            }
        }
    }
}

} // verus!
