//! When two gate sequences compute the same function, and the moves that
//! keep it so.
use super::circuit::{apply_gate, collides, gates_fit, run_gates, Gate};
use vstd::prelude::*;

verus! {

/// `a` and `b` map every state of `num_wires` wires to the same state.
pub open spec fn equivalent(a: Seq<Gate>, b: Seq<Gate>, num_wires: int) -> bool {
    forall|s: Seq<bool>| s.len() == num_wires ==> #[trigger] run_gates(a, s) == run_gates(b, s)
}

/// Gates leave the number of wires as it is.
pub proof fn lemma_run_gates_len(gates: Seq<Gate>, s: Seq<bool>)
    requires
        gates_fit(gates, s.len() as int),
    ensures
        run_gates(gates, s).len() == s.len(),
    decreases gates.len(),
{
    if gates.len() > 0 {
        assert(gates_fit(gates.drop_last(), s.len() as int)) by {
            assert forall|i: int| 0 <= i < gates.drop_last().len() implies (
            #[trigger] gates.drop_last()[i]).fits(s.len() as int) by {
                assert(gates.drop_last()[i] == gates[i]);
            }
        }
        lemma_run_gates_len(gates.drop_last(), s);
        assert(gates.last() == gates[gates.len() - 1]);
    }
}

/// Running one sequence and then another is running the two joined.
pub proof fn lemma_run_gates_concat(a: Seq<Gate>, b: Seq<Gate>, s: Seq<bool>)
    ensures
        run_gates(a + b, s) == run_gates(b, run_gates(a, s)),
    decreases b.len(),
{
    if b.len() == 0 {
        assert(a + b == a);
    } else {
        lemma_run_gates_concat(a, b.drop_last(), s);
        assert((a + b).drop_last() == a + b.drop_last());
        assert((a + b).last() == b.last());
    }
}

/// A sequence of one gate applies that gate.
pub proof fn lemma_run_single(g: Gate, s: Seq<bool>)
    ensures
        run_gates(seq![g], s) == apply_gate(g, s),
{
    assert(seq![g].drop_last() == Seq::<Gate>::empty());
    assert(seq![g].last() == g);
    assert(run_gates(Seq::<Gate>::empty(), s) == s);
}

/// Every part of a sequence that fits, fits.
pub proof fn lemma_fit_parts(a: Seq<Gate>, b: Seq<Gate>, num_wires: int)
    ensures
        gates_fit(a + b, num_wires) <==> gates_fit(a, num_wires) && gates_fit(b, num_wires),
{
    if gates_fit(a + b, num_wires) {
        assert forall|i: int| 0 <= i < a.len() implies (#[trigger] a[i]).fits(num_wires) by {
            assert((a + b)[i] == a[i]);
        }
        assert forall|i: int| 0 <= i < b.len() implies (#[trigger] b[i]).fits(num_wires) by {
            assert((a + b)[a.len() + i] == b[i]);
        }
    }
    if gates_fit(a, num_wires) && gates_fit(b, num_wires) {
        assert forall|i: int| 0 <= i < (a + b).len() implies (#[trigger] (a + b)[i]).fits(
            num_wires,
        ) by {
            if i < a.len() {
                assert((a + b)[i] == a[i]);
            } else {
                assert((a + b)[i] == b[i - a.len()]);
            }
        }
    }
}

/// Equivalence is reflexive, symmetric and transitive.
pub proof fn lemma_equivalent_is_equivalence(
    a: Seq<Gate>,
    b: Seq<Gate>,
    c: Seq<Gate>,
    num_wires: int,
)
    ensures
        equivalent(a, a, num_wires),
        equivalent(a, b, num_wires) ==> equivalent(b, a, num_wires),
        equivalent(a, b, num_wires) && equivalent(b, c, num_wires) ==> equivalent(a, c, num_wires),
{
    if equivalent(a, b, num_wires) {
        assert forall|s: Seq<bool>| s.len() == num_wires implies #[trigger] run_gates(b, s)
            == run_gates(a, s) by {
            assert(run_gates(a, s) == run_gates(b, s));
        }
        if equivalent(b, c, num_wires) {
            assert forall|s: Seq<bool>| s.len() == num_wires implies #[trigger] run_gates(a, s)
                == run_gates(c, s) by {
                assert(run_gates(b, s) == run_gates(c, s));
            }
        }
    }
}

/// A part of a circuit may be replaced by an equivalent one: the whole
/// stays equivalent.
pub proof fn lemma_equivalent_splice(
    before: Seq<Gate>,
    old_part: Seq<Gate>,
    new_part: Seq<Gate>,
    after: Seq<Gate>,
    num_wires: int,
)
    requires
        gates_fit(before, num_wires),
        equivalent(old_part, new_part, num_wires),
    ensures
        equivalent(before + old_part + after, before + new_part + after, num_wires),
{
    assert forall|s: Seq<bool>| s.len() == num_wires implies #[trigger] run_gates(
        before + old_part + after,
        s,
    ) == run_gates(before + new_part + after, s) by {
        lemma_run_gates_len(before, s);
        let mid = run_gates(before, s);
        lemma_run_gates_concat(before, old_part, s);
        lemma_run_gates_concat(before + old_part, after, s);
        lemma_run_gates_concat(before, new_part, s);
        lemma_run_gates_concat(before + new_part, after, s);
        assert(run_gates(old_part, mid) == run_gates(new_part, mid));
    }
}

/// Two gates that do not collide may act in either order.
pub proof fn lemma_commute(g: Gate, h: Gate, s: Seq<bool>)
    requires
        !collides(g, h),
        g.fits(s.len() as int),
        h.fits(s.len() as int),
    ensures
        apply_gate(h, apply_gate(g, s)) == apply_gate(g, apply_gate(h, s)),
{
    assert(apply_gate(h, apply_gate(g, s)) =~= apply_gate(g, apply_gate(h, s)));
}

/// `g` collides with no gate of `gates`.
pub open spec fn clear_of(g: Gate, gates: Seq<Gate>) -> bool {
    forall|i: int| 0 <= i < gates.len() ==> !collides(g, #[trigger] gates[i])
}

/// A gate may move to the front of a sequence with none of whose gates it
/// collides.
pub proof fn lemma_move_gate_forward(gates: Seq<Gate>, g: Gate, s: Seq<bool>)
    requires
        clear_of(g, gates),
        gates_fit(gates, s.len() as int),
        g.fits(s.len() as int),
    ensures
        run_gates(gates.push(g), s) == run_gates(seq![g] + gates, s),
    decreases gates.len(),
{
    if gates.len() == 0 {
        assert(gates.push(g) == seq![g] + gates);
    } else {
        let front = gates.drop_last();
        let h = gates.last();
        assert(gates_fit(front, s.len() as int)) by {
            assert forall|i: int| 0 <= i < front.len() implies (#[trigger] front[i]).fits(
                s.len() as int,
            ) by {
                assert(front[i] == gates[i]);
            }
        }
        assert(clear_of(g, front)) by {
            assert forall|i: int| 0 <= i < front.len() implies !collides(g, #[trigger] front[i]) by {
                assert(front[i] == gates[i]);
            }
        }
        assert(h == gates[gates.len() - 1]);
        assert(!collides(g, h));
        assert(!collides(h, g));
        let mid = run_gates(front, s);
        lemma_run_gates_len(front, s);
        lemma_commute(h, g, mid);
        assert(gates.push(g).drop_last() == gates);
        assert(gates.push(g).last() == g);
        assert(run_gates(gates, s) == apply_gate(h, mid));
        assert(run_gates(gates.push(g), s) == apply_gate(g, apply_gate(h, mid)));
        lemma_move_gate_forward(front, g, s);
        assert(front.push(g).drop_last() == front);
        assert(front.push(g).last() == g);
        assert(run_gates(front.push(g), s) == apply_gate(g, mid));
        assert((seq![g] + gates).drop_last() == seq![g] + front);
        assert((seq![g] + gates).last() == h);
        assert(run_gates(seq![g] + gates, s) == apply_gate(h, run_gates(seq![g] + front, s)));
    }
}

/// Within a circuit, a gate may move ahead of a run of gates with none of
/// which it collides.
pub proof fn lemma_move_gate_ahead(
    before: Seq<Gate>,
    run: Seq<Gate>,
    g: Gate,
    s: Seq<bool>,
)
    requires
        clear_of(g, run),
        gates_fit(before, s.len() as int),
        gates_fit(run, s.len() as int),
        g.fits(s.len() as int),
    ensures
        run_gates(before + run.push(g), s) == run_gates(before + (seq![g] + run), s),
{
    lemma_run_gates_len(before, s);
    lemma_run_gates_concat(before, run.push(g), s);
    lemma_run_gates_concat(before, seq![g] + run, s);
    lemma_move_gate_forward(run, g, run_gates(before, s));
}

} // verus!
