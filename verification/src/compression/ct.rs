//! A table of small circuits by their truth tables, and the compression of
//! a block to the circuit that the table holds for its function.
use crate::circuit::analysis::{
    active_count, active_flags, distinct_wires, is_projection, lemma_first_occurrences_distinct,
    lemma_pick_wires_len, lemma_table_by, lemma_table_of, optimal_map, optimal_projection_circuit,
    projection_circuit, table_by, table_of, truth_table, wire_seq, MAX_TABLE_WIRES,
};
use crate::replacement::find::lemma_wires_of;
use crate::circuit::cf::Base2GateControlFunc;
use crate::circuit::circuit::{gates_fit, Gate};
use crate::circuit::semantics::equivalent;
use crate::replacement::equivalence::lemma_replacement_equivalent;
use crate::replacement::remap::{extends, injective, is_image, maps_into};
use crate::replacement::search::matches_table;
use vstd::prelude::*;

verus! {

/// A truth table and a circuit that has it.
pub struct TableEntry {
    pub table: Vec<u32>,
    pub circuit: Vec<Gate>,
}

impl TableEntry {
    /// The circuit has the table, over `max_wires` wires, and no more than
    /// `max_gates` gates.
    pub open spec fn sound(&self, max_gates: int, max_wires: nat) -> bool {
        &&& self.table@ == table_of(self.circuit@, max_wires)
        &&& self.circuit.len() <= max_gates
        &&& gates_fit(self.circuit@, max_wires as int)
    }
}

/// Every entry is sound, and no table stands twice.
pub open spec fn table_sound(entries: Seq<TableEntry>, max_gates: int, max_wires: nat) -> bool {
    &&& forall|i: int| 0 <= i < entries.len() ==> (#[trigger] entries[i]).sound(max_gates, max_wires)
    &&& forall|i: int, j: int|
        0 <= i < j < entries.len() ==> (#[trigger] entries[i]).table@ != (#[trigger] entries[j]).table@
}

/// Whether the two tables are the same.
pub fn same_table(a: &Vec<u32>, b: &Vec<u32>) -> (r: bool)
    ensures
        r == (a@ == b@),
{
    if a.len() != b.len() {
        return false;
    }
    let mut i: usize = 0;
    while i < a.len()
        invariant
            i <= a.len(),
            a.len() == b.len(),
            forall|k: int| 0 <= k < i ==> a[k] == b[k],
        decreases a.len() - i,
    {
        if a[i] != b[i] {
            return false;
        }
        i += 1;
    }
    proof {
        assert(a@ =~= b@);
    }
    true
}

/// Whether the two blocks are the same, gate for gate.
pub fn same_gates(a: &Vec<Gate>, b: &Vec<Gate>) -> (r: bool)
    ensures
        r == (a@ == b@),
{
    if a.len() != b.len() {
        return false;
    }
    let mut i: usize = 0;
    while i < a.len()
        invariant
            i <= a.len(),
            a.len() == b.len(),
            forall|k: int| 0 <= k < i ==> a[k] == b[k],
        decreases a.len() - i,
    {
        let g = &a[i];
        let h = &b[i];
        if g.wires[0] != h.wires[0] || g.wires[1] != h.wires[1] || g.wires[2] != h.wires[2]
            || g.control_func != h.control_func || g.generation != h.generation {
            return false;
        }
        proof {
            assert(a[i as int].wires =~= b[i as int].wires);
        }
        i += 1;
    }
    proof {
        assert(a@ =~= b@);
    }
    true
}

/// The first place from `from` on at which `entries` holds `table`.
pub open spec fn place_of_table(entries: Seq<TableEntry>, table: Seq<u32>, from: int) -> Option<
    usize,
>
    decreases entries.len() - from,
{
    if from < 0 || from >= entries.len() {
        None
    } else if entries[from].table@ == table {
        Some(from as usize)
    } else {
        place_of_table(entries, table, from + 1)
    }
}

/// The first place from `from` on at which `cache` holds `circuit`.
pub open spec fn place_in_cache(cache: Seq<CacheEntry>, circuit: Seq<Gate>, from: int) -> Option<
    usize,
>
    decreases cache.len() - from,
{
    if from < 0 || from >= cache.len() {
        None
    } else if cache[from].circuit@ == circuit {
        Some(from as usize)
    } else {
        place_in_cache(cache, circuit, from + 1)
    }
}

/// The place of the first entry for `table`, if there is one.
pub fn find_entry(entries: &Vec<TableEntry>, table: &Vec<u32>) -> (place: Option<usize>)
    ensures
        place == place_of_table(entries@, table@, 0),
        match place {
            Some(i) => i < entries.len() && entries[i as int].table@ == table@,
            None => forall|i: int| 0 <= i < entries.len() ==> (#[trigger] entries[i]).table@ != table@,
        },
{
    let mut i: usize = 0;
    while i < entries.len()
        invariant
            i <= entries.len(),
            forall|k: int| 0 <= k < i ==> (#[trigger] entries[k]).table@ != table@,
            place_of_table(entries@, table@, 0) == place_of_table(entries@, table@, i as int),
        decreases entries.len() - i,
    {
        if same_table(&entries[i].table, table) {
            return Some(i);
        }
        i += 1;
    }
    None
}

/// Notes that `circuit` has `table`: the table keeps, for each truth
/// table, the first of the shortest circuits that were noted for it.
fn record(
    entries: &mut Vec<TableEntry>,
    table: Vec<u32>,
    circuit: Vec<Gate>,
    Ghost(max_gates): Ghost<int>,
    Ghost(max_wires): Ghost<nat>,
)
    requires
        table_sound(old(entries)@, max_gates, max_wires),
        table@ == table_of(circuit@, max_wires),
        circuit.len() <= max_gates,
        gates_fit(circuit@, max_wires as int),
    ensures
        table_sound(final(entries)@, max_gates, max_wires),
        exists|i: int|
            0 <= i < final(entries).len() && (#[trigger] final(entries)[i]).table@ == table@
                && final(entries)[i].circuit.len() <= circuit.len(),
        refines(final(entries)@, old(entries)@),
        old(entries).len() == 0 ==> final(entries).len() == 1 && final(entries)[0].table@ == table@
            && final(entries)[0].circuit@ == circuit@,
{
    let ghost before = entries@;
    match find_entry(entries, &table) {
        Some(i) => {
            if circuit.len() < entries[i].circuit.len() {
                entries[i] = TableEntry { table, circuit };
                proof {
                    assert forall|a: int, b: int| 0 <= a < b < entries.len() implies (
                    #[trigger] entries[a]).table@ != (#[trigger] entries[b]).table@ by {
                        assert(entries[a].table@ == before[a].table@);
                        assert(entries[b].table@ == before[b].table@);
                    }
                    assert(entries[i as int].table@ == table@);
                }
            } else {
                proof {
                    assert(entries[i as int].table@ == table@);
                }
            }
        },
        None => {
            entries.push(TableEntry { table, circuit });
            proof {
                let last = entries.len() - 1;
                assert(entries[last].table@ == table@);
                assert forall|a: int, b: int| 0 <= a < b < entries.len() implies (
                #[trigger] entries[a]).table@ != (#[trigger] entries[b]).table@ by {
                    if b < last {
                        assert(entries[a] == before[a]);
                        assert(entries[b] == before[b]);
                    } else {
                        assert(entries[a] == before[a]);
                    }
                }
                assert forall|k: int| 0 <= k < entries.len() implies (#[trigger] entries[k]).sound(
                    max_gates,
                    max_wires,
                ) by {
                    if k < last {
                        assert(entries[k] == before[k]);
                    }
                }
            }
        },
    }
}

/// The two places of a gate's wires that are not `wire_pos`.
pub fn other_two_wire_pos(wire_pos: usize) -> (others: [usize; 2])
    requires
        wire_pos < 3,
    ensures
        others[0] < others[1] < 3,
        others[0] != wire_pos,
        others[1] != wire_pos,
{
    if wire_pos == 0 {
        [1, 2]
    } else if wire_pos == 1 {
        [0, 2]
    } else {
        [0, 1]
    }
}

/// The later table has, at each place of the earlier, the same truth table
/// with a circuit that is no longer.
pub open spec fn refines(later: Seq<TableEntry>, earlier: Seq<TableEntry>) -> bool {
    &&& earlier.len() <= later.len()
    &&& forall|i: int|
        0 <= i < earlier.len() ==> {
            &&& (#[trigger] later[i]).table@ == earlier[i].table@
            &&& later[i].circuit.len() <= earlier[i].circuit.len()
        }
}

/// The first `n` gates of `circuit`.
fn prefix_of(circuit: &Vec<Gate>, n: usize) -> (prefix: Vec<Gate>)
    requires
        n <= circuit.len(),
    ensures
        prefix@ == circuit@.take(n as int),
{
    let mut prefix: Vec<Gate> = Vec::new();
    let mut i: usize = 0;
    while i < n
        invariant
            i <= n <= circuit.len(),
            prefix@ == circuit@.take(i as int),
        decreases n - i,
    {
        prefix.push(circuit[i]);
        proof {
            assert(circuit@.take(i + 1) == circuit@.take(i as int).push(circuit@[i as int]));
        }
        i += 1;
    }
    prefix
}

/// Gates that fit some wires fit more wires.
proof fn lemma_fit_more(gates: Seq<Gate>, fewer: int, more: int)
    requires
        gates_fit(gates, fewer),
        fewer <= more,
    ensures
        gates_fit(gates, more),
{
    assert forall|i: int| 0 <= i < gates.len() implies (#[trigger] gates[i]).fits(more) by {
        assert(gates[i].fits(fewer));
    }
}

/// The table holds `table` with a circuit of `n` gates at most.
pub open spec fn knows(entries: Seq<TableEntry>, table: Seq<u32>, n: int) -> bool {
    exists|i: int|
        0 <= i < entries.len() && (#[trigger] entries[i]).table@ == table && entries[i].circuit.len()
            <= n
}

/// What a table knows, a table that refines it knows too.
proof fn lemma_knows_refined(later: Seq<TableEntry>, earlier: Seq<TableEntry>, table: Seq<u32>, n: int)
    requires
        refines(later, earlier),
        knows(earlier, table, n),
    ensures
        knows(later, table, n),
{
    let i = choose|i: int|
        0 <= i < earlier.len() && (#[trigger] earlier[i]).table@ == table && earlier[i].circuit.len()
            <= n;
    assert(later[i].table@ == earlier[i].table@ && later[i].circuit.len()
        <= earlier[i].circuit.len());
}

/// The wires of a gate that has `x` at place `w` and `y` and `z` at the
/// two other places, in their order.
pub open spec fn placed(w: int, x: int, y: int, z: int) -> (int, int, int) {
    if w == 0 {
        (x, y, z)
    } else if w == 1 {
        (y, x, z)
    } else {
        (y, z, x)
    }
}

/// `g` has the control function `cf` and the wires `wires`.
pub open spec fn gate_with(g: Gate, cf: int, wires: (int, int, int)) -> bool {
    &&& g.control_func == cf
    &&& g.generation == 0
    &&& g.wires[0] == wires.0
    &&& g.wires[1] == wires.1
    &&& g.wires[2] == wires.2
}

/// `g` is a gate that is put behind a circuit with `used` wires, which
/// has `then` wires with it.  Its control function `cf` is not the
/// constant false.  Its wires are, by `kind`: three new wires; the old
/// wire `a` at place `w` and two new wires; a new wire at place `w` and
/// the old wires `a` and `b`; or the old wire `c` at place `w` and the old
/// wires `a` and `b`.  New wires are taken in their order, old wires are
/// distinct.
pub open spec fn is_step(
    g: Gate,
    used: int,
    then: int,
    cf: int,
    kind: int,
    w: int,
    a: int,
    b: int,
    c: int,
) -> bool {
    &&& 1 <= cf < 16
    &&& if kind == 0 {
        w == 0 && a == 0 && b == 0 && c == 0 && gate_with(g, cf, (used, used + 1, used + 2))
            && then == used + 3
    } else if kind == 1 {
        0 <= w < 3 && 0 <= a < used && b == 0 && c == 0 && gate_with(
            g,
            cf,
            placed(w, a, used, used + 1),
        ) && then == used + 2
    } else if kind == 2 {
        0 <= w < 3 && 0 <= a < used && 0 <= b < used && a != b && c == 0 && gate_with(
            g,
            cf,
            placed(w, used, a, b),
        ) && then == used + 1
    } else if kind == 3 {
        0 <= w < 3 && 0 <= a < used && 0 <= b < used && a != b && 0 <= c < used && c != a && c
            != b && gate_with(g, cf, placed(w, c, a, b)) && then == used
    } else {
        false
    }
}

/// `g` is a gate that is put behind a circuit with `used` wires.
pub open spec fn is_next_gate(g: Gate, used: int, then: int) -> bool {
    exists|cf: int, kind: int, w: int, a: int, b: int, c: int| #[trigger]
        is_step(g, used, then, cf, kind, w, a, b, c)
}

/// `circuit` is one of the circuits that are noted with `prefix`, a
/// circuit with `used` wires: `prefix` itself, or a circuit that is noted
/// with `prefix` and one gate more, as far as the numbers of gates and
/// wires allow.
pub open spec fn reaches(
    prefix: Seq<Gate>,
    used: int,
    circuit: Seq<Gate>,
    max_gates: int,
    max_wires: int,
) -> bool
    decreases max_gates - prefix.len(),
{
    used <= max_wires && (circuit == prefix || (prefix.len() < max_gates && used < max_wires
        && exists|g: Gate, then: int| #[trigger]
        is_next_gate(g, used, then) && reaches(prefix.push(g), then, circuit, max_gates, max_wires)))
}

/// The table holds, for each circuit that is noted with `prefix`, its
/// truth table with a circuit that is no longer.
pub open spec fn covers(
    entries: Seq<TableEntry>,
    prefix: Seq<Gate>,
    used: int,
    max_gates: int,
    max_wires: nat,
) -> bool {
    forall|circuit: Seq<Gate>| #[trigger]
        reaches(prefix, used, circuit, max_gates, max_wires as int) ==> knows(
            entries,
            table_of(circuit, max_wires),
            circuit.len() as int,
        )
}

/// The place of a gate in the order in which the gates are put behind a
/// circuit.
pub ghost struct Turn {
    pub cf: int,
    pub slot: int,
    pub phase: int,
    pub a: int,
    pub b: int,
    pub sub: int,
    pub c: int,
}

/// The turn of a gate of this kind.
pub open spec fn turn_of(cf: int, kind: int, w: int, a: int, b: int, c: int) -> Turn {
    if kind == 0 {
        Turn { cf, slot: 0, phase: 0, a: 0, b: 0, sub: 0, c: 0 }
    } else if kind == 1 {
        Turn { cf, slot: w + 1, phase: 1, a, b: 0, sub: 0, c: 0 }
    } else if kind == 2 {
        Turn { cf, slot: w + 1, phase: 2, a, b, sub: 0, c: 0 }
    } else {
        Turn { cf, slot: w + 1, phase: 2, a, b, sub: 1, c }
    }
}

/// Turn `t` comes before turn `at`.
pub open spec fn earlier(t: Turn, at: Turn) -> bool {
    t.cf < at.cf || (t.cf == at.cf && (t.slot < at.slot || (t.slot == at.slot && (t.phase
        < at.phase || (t.phase == at.phase && (t.a < at.a || (t.a == at.a && (t.b < at.b || (t.b
        == at.b && (t.sub < at.sub || (t.sub == at.sub && t.c < at.c)))))))))))
}

/// The table covers `prefix` with each gate whose turn comes before `at`.
pub open spec fn done_before(
    entries: Seq<TableEntry>,
    prefix: Seq<Gate>,
    used: int,
    at: Turn,
    max_gates: int,
    max_wires: nat,
) -> bool {
    forall|g: Gate, then: int, cf: int, kind: int, w: int, a: int, b: int, c: int| #[trigger]
        is_step(g, used, then, cf, kind, w, a, b, c) && earlier(turn_of(cf, kind, w, a, b, c), at)
            ==> covers(entries, prefix.push(g), then, max_gates, max_wires)
}

/// What a table covers, a table that refines it covers too.
proof fn lemma_covers_refined(
    later: Seq<TableEntry>,
    before: Seq<TableEntry>,
    prefix: Seq<Gate>,
    used: int,
    max_gates: int,
    max_wires: nat,
)
    requires
        refines(later, before),
        covers(before, prefix, used, max_gates, max_wires),
    ensures
        covers(later, prefix, used, max_gates, max_wires),
{
    assert forall|circuit: Seq<Gate>| #[trigger]
        reaches(prefix, used, circuit, max_gates, max_wires as int) implies knows(
        later,
        table_of(circuit, max_wires),
        circuit.len() as int,
    ) by {
        lemma_knows_refined(later, before, table_of(circuit, max_wires), circuit.len() as int);
    }
}

/// What is done in a table is done in a table that refines it.
proof fn lemma_done_refined(
    later: Seq<TableEntry>,
    before: Seq<TableEntry>,
    prefix: Seq<Gate>,
    used: int,
    at: Turn,
    max_gates: int,
    max_wires: nat,
)
    requires
        refines(later, before),
        done_before(before, prefix, used, at, max_gates, max_wires),
    ensures
        done_before(later, prefix, used, at, max_gates, max_wires),
{
    assert forall|g: Gate, then: int, cf: int, kind: int, w: int, a: int, b: int, c: int| #[trigger]
        is_step(g, used, then, cf, kind, w, a, b, c) && earlier(
            turn_of(cf, kind, w, a, b, c),
            at,
        ) implies covers(later, prefix.push(g), then, max_gates, max_wires) by {
        lemma_covers_refined(later, before, prefix.push(g), then, max_gates, max_wires);
    }
}

/// What is done before a turn is done before a later turn, where the one
/// gate whose turn lies between the two, if there is one, is covered.
proof fn lemma_done_on(
    entries: Seq<TableEntry>,
    prefix: Seq<Gate>,
    used: int,
    at: Turn,
    next: Turn,
    h: Gate,
    then_h: int,
    max_gates: int,
    max_wires: nat,
)
    requires
        done_before(entries, prefix, used, at, max_gates, max_wires),
        forall|g: Gate, then: int, cf: int, kind: int, w: int, a: int, b: int, c: int| #[trigger]
            is_step(g, used, then, cf, kind, w, a, b, c) && earlier(
                turn_of(cf, kind, w, a, b, c),
                next,
            ) ==> earlier(turn_of(cf, kind, w, a, b, c), at) || (g == h && then == then_h
                && covers(entries, prefix.push(h), then_h, max_gates, max_wires)),
    ensures
        done_before(entries, prefix, used, next, max_gates, max_wires),
{
}

/// Gates with the same wires, control function and generation are the
/// same.
proof fn lemma_same_gate(g: Gate, h: Gate)
    requires
        g.wires[0] == h.wires[0],
        g.wires[1] == h.wires[1],
        g.wires[2] == h.wires[2],
        g.control_func == h.control_func,
        g.generation == h.generation,
    ensures
        g == h,
{
    assert(g.wires@ =~= h.wires@);
    assert(g.wires == h.wires);
}

/// Puts a gate with the wires `wires` and the control function `cf` behind
/// the first `current_size` gates and notes the circuits that begin with
/// these gates.
fn extend_with(
    max_gates_supported: usize,
    max_wires_supported: usize,
    cf_choice: &Vec<u8>,
    current_size: usize,
    current_circuit: &mut Vec<Gate>,
    wires: [usize; 3],
    cf: u8,
    wires_used: usize,
    ct: &mut Vec<TableEntry>,
)
    requires
        1 <= current_size < max_gates_supported,
        old(current_circuit).len() == max_gates_supported,
        max_wires_supported <= MAX_TABLE_WIRES,
        wires_used <= max_wires_supported + 3,
        cf < Base2GateControlFunc::COUNT,
        wires[0] < wires_used && wires[1] < wires_used && wires[2] < wires_used,
        gates_fit(old(current_circuit)@.take(current_size as int), wires_used as int),
        table_sound(old(ct)@, max_gates_supported as int, max_wires_supported as nat),
    ensures
        final(current_circuit).len() == max_gates_supported,
        final(current_circuit)@.take(current_size as int) == old(current_circuit)@.take(
            current_size as int,
        ),
        table_sound(final(ct)@, max_gates_supported as int, max_wires_supported as nat),
        refines(final(ct)@, old(ct)@),
        final(current_circuit)[current_size as int].wires@ == wires@,
        final(current_circuit)[current_size as int].control_func == cf,
        final(current_circuit)[current_size as int].generation == 0,
        wires_used <= max_wires_supported ==> knows(
            final(ct)@,
            table_of(
                final(current_circuit)@.take(current_size + 1),
                max_wires_supported as nat,
            ),
            current_size + 1,
        ),
        wires_used > max_wires_supported ==> final(ct)@ == old(ct)@,
        covers(
            final(ct)@,
            final(current_circuit)@.take(current_size + 1),
            wires_used as int,
            max_gates_supported as int,
            max_wires_supported as nat,
        ),
    decreases max_gates_supported - current_size, 0int,
{
    let ghost before = current_circuit@;
    current_circuit[current_size] = Gate { wires, control_func: cf, generation: 0 };
    let ghost extended = current_circuit@.take(current_size + 1);
    proof {
        assert(current_circuit@.take(current_size as int) =~= before.take(current_size as int));
        let longer = current_circuit@.take(current_size + 1);
        assert forall|i: int| 0 <= i < longer.len() implies (#[trigger] longer[i]).fits(
            wires_used as int,
        ) by {
            if i < current_size {
                assert(longer[i] == before.take(current_size as int)[i]);
            }
        }
    }
    build_compression_table_recursive(
        max_gates_supported,
        max_wires_supported,
        cf_choice,
        current_size + 1,
        current_circuit,
        wires_used,
        ct,
    );
    proof {
        assert(current_circuit@.take(current_size as int) =~= current_circuit@.take(
            current_size + 1,
        ).take(current_size as int));
        assert(current_circuit@.take(current_size + 1) == extended);
        assert(current_circuit@[current_size as int] == extended[current_size as int]);
    }
}

/// Notes the circuit of the first `current_size` gates and, as far as the
/// numbers of gates and wires allow, every circuit that begins with these
/// gates.  A further gate takes any control function but the constant false
/// and any wires that are distinct, the wires that no gate has yet being
/// taken in their order.
fn build_compression_table_recursive(
    max_gates_supported: usize,
    max_wires_supported: usize,
    cf_choice: &Vec<u8>,
    current_size: usize,
    current_circuit: &mut Vec<Gate>,
    wires_used: usize,
    ct: &mut Vec<TableEntry>,
)
    requires
        1 <= current_size <= max_gates_supported,
        old(current_circuit).len() == max_gates_supported,
        max_wires_supported <= MAX_TABLE_WIRES,
        wires_used <= max_wires_supported + 3,
        gates_fit(old(current_circuit)@.take(current_size as int), wires_used as int),
        table_sound(old(ct)@, max_gates_supported as int, max_wires_supported as nat),
    ensures
        final(current_circuit).len() == max_gates_supported,
        final(current_circuit)@.take(current_size as int) == old(current_circuit)@.take(
            current_size as int,
        ),
        table_sound(final(ct)@, max_gates_supported as int, max_wires_supported as nat),
        refines(final(ct)@, old(ct)@),
        wires_used <= max_wires_supported ==> knows(
            final(ct)@,
            table_of(old(current_circuit)@.take(current_size as int), max_wires_supported as nat),
            current_size as int,
        ),
        wires_used > max_wires_supported ==> final(ct)@ == old(ct)@ && final(current_circuit)@
            == old(current_circuit)@,
        covers(
            final(ct)@,
            old(current_circuit)@.take(current_size as int),
            wires_used as int,
            max_gates_supported as int,
            max_wires_supported as nat,
        ),
    decreases max_gates_supported - current_size, 1int,
{
    if wires_used > max_wires_supported {
        return ;
    }
    let ghost entries_start = ct@;
    let ghost prefix_before = current_circuit@.take(current_size as int);
    let prefix = prefix_of(current_circuit, current_size);
    proof {
        lemma_fit_more(prefix@, wires_used as int, max_wires_supported as int);
        lemma_fit_more(prefix@, wires_used as int, 32);
    }
    let tt = truth_table(max_wires_supported, &prefix);
    proof {
        lemma_table_of(tt@, prefix@, max_wires_supported as nat);
    }
    record(ct, tt, prefix, Ghost(max_gates_supported as int), Ghost(max_wires_supported as nat));
    let ghost entries_before = ct@;
    proof {
        assert(knows(entries_before, tt@, current_size as int));
    }

    if current_size == max_gates_supported || wires_used == max_wires_supported {
        return ;
    }
    proof {
        lemma_fit_more(prefix_before, wires_used as int, wires_used + 3);
        lemma_fit_more(prefix_before, wires_used as int, wires_used + 2);
        lemma_fit_more(prefix_before, wires_used as int, wires_used + 1);
    }
    let mut cf: u8 = 1;
    while cf < Base2GateControlFunc::COUNT
        invariant
            1 <= cf <= Base2GateControlFunc::COUNT,
            1 <= current_size < max_gates_supported,
            current_circuit.len() == max_gates_supported,
            max_wires_supported <= MAX_TABLE_WIRES,
            wires_used < max_wires_supported,
            current_circuit@.take(current_size as int) == prefix_before,
            prefix_before.len() == current_size,
            gates_fit(prefix_before, wires_used as int),
            gates_fit(prefix_before, wires_used + 1),
            gates_fit(prefix_before, wires_used + 2),
            gates_fit(prefix_before, wires_used + 3),
            table_sound(ct@, max_gates_supported as int, max_wires_supported as nat),
            refines(ct@, entries_before),
            done_before(
                ct@,
                prefix_before,
                wires_used as int,
                Turn { cf: cf as int, slot: 0, phase: 0, a: 0, b: 0, sub: 0, c: 0 },
                max_gates_supported as int,
                max_wires_supported as nat,
            ),
        decreases Base2GateControlFunc::COUNT - cf,
    {
        // Three new wires
        let ghost entries_now = ct@;
        extend_with(
            max_gates_supported,
            max_wires_supported,
            cf_choice,
            current_size,
            current_circuit,
            [wires_used, wires_used + 1, wires_used + 2],
            cf,
            wires_used + 3,
            ct,
        );
        proof {
            lemma_refines_chain(ct@, entries_now, entries_before);
            lemma_done_refined(
                ct@,
                entries_now,
                prefix_before,
                wires_used as int,
                Turn { cf: cf as int, slot: 0, phase: 0, a: 0, b: 0, sub: 0, c: 0 },
                max_gates_supported as int,
                max_wires_supported as nat,
            );
            let h = current_circuit@[current_size as int];
            assert(current_circuit@.take(current_size + 1) =~= prefix_before.push(h));
            assert forall|g: Gate, then: int, cf2: int, kind: int, w2: int, a: int, b: int, c: int| #[trigger]
                is_step(g, wires_used as int, then, cf2, kind, w2, a, b, c) && earlier(
                    turn_of(cf2, kind, w2, a, b, c),
                    Turn { cf: cf as int, slot: 1, phase: 0, a: 0, b: 0, sub: 0, c: 0 },
                ) implies earlier(turn_of(cf2, kind, w2, a, b, c), Turn { cf: cf as int, slot: 0, phase: 0, a: 0, b: 0, sub: 0, c: 0 }) || (g == h && then
                == wires_used + 3 && covers(
                ct@,
                prefix_before.push(h),
                wires_used + 3,
                max_gates_supported as int,
                max_wires_supported as nat,
            )) by {
                if !earlier(turn_of(cf2, kind, w2, a, b, c), Turn { cf: cf as int, slot: 0, phase: 0, a: 0, b: 0, sub: 0, c: 0 }) {
                    lemma_same_gate(g, h);
                }
            }
            lemma_done_on(
                ct@,
                prefix_before,
                wires_used as int,
                Turn { cf: cf as int, slot: 0, phase: 0, a: 0, b: 0, sub: 0, c: 0 },
                Turn { cf: cf as int, slot: 1, phase: 0, a: 0, b: 0, sub: 0, c: 0 },
                h,
                wires_used + 3,
                max_gates_supported as int,
                max_wires_supported as nat,
            );
        }
        let mut w: usize = 0;
        while w < 3
            invariant
                w <= 3,
                1 <= cf < Base2GateControlFunc::COUNT,
                1 <= current_size < max_gates_supported,
            current_circuit.len() == max_gates_supported,
            max_wires_supported <= MAX_TABLE_WIRES,
            wires_used < max_wires_supported,
            current_circuit@.take(current_size as int) == prefix_before,
            prefix_before.len() == current_size,
            gates_fit(prefix_before, wires_used as int),
            gates_fit(prefix_before, wires_used + 1),
            gates_fit(prefix_before, wires_used + 2),
            gates_fit(prefix_before, wires_used + 3),
            table_sound(ct@, max_gates_supported as int, max_wires_supported as nat),
            refines(ct@, entries_before),
                done_before(
                ct@,
                prefix_before,
                wires_used as int,
                Turn { cf: cf as int, slot: w + 1, phase: 0, a: 0, b: 0, sub: 0, c: 0 },
                max_gates_supported as int,
                max_wires_supported as nat,
            ),
            decreases 3 - w,
        {
            let other_wires = other_two_wire_pos(w);
            proof {
            let h = prefix_before[0];
            assert forall|g: Gate, then: int, cf2: int, kind: int, w2: int, a: int, b: int, c: int| #[trigger]
                is_step(g, wires_used as int, then, cf2, kind, w2, a, b, c) && earlier(
                    turn_of(cf2, kind, w2, a, b, c),
                    Turn { cf: cf as int, slot: w + 1, phase: 1, a: 0, b: 0, sub: 0, c: 0 },
                ) implies earlier(turn_of(cf2, kind, w2, a, b, c), Turn { cf: cf as int, slot: w + 1, phase: 0, a: 0, b: 0, sub: 0, c: 0 }) || (g == h && then == 0
                && covers(
                ct@,
                prefix_before.push(h),
                0,
                max_gates_supported as int,
                max_wires_supported as nat,
            )) by {
            }
            lemma_done_on(
                ct@,
                prefix_before,
                wires_used as int,
                Turn { cf: cf as int, slot: w + 1, phase: 0, a: 0, b: 0, sub: 0, c: 0 },
                Turn { cf: cf as int, slot: w + 1, phase: 1, a: 0, b: 0, sub: 0, c: 0 },
                h,
                0,
                max_gates_supported as int,
                max_wires_supported as nat,
            );
        }
            // Two new wires: w is an old wire
            let mut label: usize = 0;
            while label < wires_used
                invariant
                    label <= wires_used,
                    w < 3,
                    other_wires[0] < other_wires[1] < 3,
            other_wires[0] != w,
            other_wires[1] != w,
                    1 <= cf < Base2GateControlFunc::COUNT,
                    1 <= current_size < max_gates_supported,
            current_circuit.len() == max_gates_supported,
            max_wires_supported <= MAX_TABLE_WIRES,
            wires_used < max_wires_supported,
            current_circuit@.take(current_size as int) == prefix_before,
            prefix_before.len() == current_size,
            gates_fit(prefix_before, wires_used as int),
            gates_fit(prefix_before, wires_used + 1),
            gates_fit(prefix_before, wires_used + 2),
            gates_fit(prefix_before, wires_used + 3),
            table_sound(ct@, max_gates_supported as int, max_wires_supported as nat),
            refines(ct@, entries_before),
                    done_before(
                ct@,
                prefix_before,
                wires_used as int,
                Turn { cf: cf as int, slot: w + 1, phase: 1, a: label as int, b: 0, sub: 0, c: 0 },
                max_gates_supported as int,
                max_wires_supported as nat,
            ),
                decreases wires_used - label,
            {
                let mut wires = [0usize; 3];
                wires[other_wires[0]] = wires_used;
                wires[other_wires[1]] = wires_used + 1;
                wires[w] = label;
                let ghost entries_now = ct@;
                extend_with(
                    max_gates_supported,
                    max_wires_supported,
                    cf_choice,
                    current_size,
                    current_circuit,
                    wires,
                    cf,
                    wires_used + 2,
                    ct,
                );
                proof {
            lemma_refines_chain(ct@, entries_now, entries_before);
            lemma_done_refined(
                ct@,
                entries_now,
                prefix_before,
                wires_used as int,
                Turn { cf: cf as int, slot: w + 1, phase: 1, a: label as int, b: 0, sub: 0, c: 0 },
                max_gates_supported as int,
                max_wires_supported as nat,
            );
            let h = current_circuit@[current_size as int];
            assert(current_circuit@.take(current_size + 1) =~= prefix_before.push(h));
            assert forall|g: Gate, then: int, cf2: int, kind: int, w2: int, a: int, b: int, c: int| #[trigger]
                is_step(g, wires_used as int, then, cf2, kind, w2, a, b, c) && earlier(
                    turn_of(cf2, kind, w2, a, b, c),
                    Turn { cf: cf as int, slot: w + 1, phase: 1, a: label + 1, b: 0, sub: 0, c: 0 },
                ) implies earlier(turn_of(cf2, kind, w2, a, b, c), Turn { cf: cf as int, slot: w + 1, phase: 1, a: label as int, b: 0, sub: 0, c: 0 }) || (g == h && then
                == wires_used + 2 && covers(
                ct@,
                prefix_before.push(h),
                wires_used + 2,
                max_gates_supported as int,
                max_wires_supported as nat,
            )) by {
                if !earlier(turn_of(cf2, kind, w2, a, b, c), Turn { cf: cf as int, slot: w + 1, phase: 1, a: label as int, b: 0, sub: 0, c: 0 }) {
                    lemma_same_gate(g, h);
                }
            }
            lemma_done_on(
                ct@,
                prefix_before,
                wires_used as int,
                Turn { cf: cf as int, slot: w + 1, phase: 1, a: label as int, b: 0, sub: 0, c: 0 },
                Turn { cf: cf as int, slot: w + 1, phase: 1, a: label + 1, b: 0, sub: 0, c: 0 },
                h,
                wires_used + 2,
                max_gates_supported as int,
                max_wires_supported as nat,
            );
        }
                label += 1;
            }
            proof {
            let h = prefix_before[0];
            assert forall|g: Gate, then: int, cf2: int, kind: int, w2: int, a: int, b: int, c: int| #[trigger]
                is_step(g, wires_used as int, then, cf2, kind, w2, a, b, c) && earlier(
                    turn_of(cf2, kind, w2, a, b, c),
                    Turn { cf: cf as int, slot: w + 1, phase: 2, a: 0, b: 0, sub: 0, c: 0 },
                ) implies earlier(turn_of(cf2, kind, w2, a, b, c), Turn { cf: cf as int, slot: w + 1, phase: 1, a: label as int, b: 0, sub: 0, c: 0 }) || (g == h && then == 0
                && covers(
                ct@,
                prefix_before.push(h),
                0,
                max_gates_supported as int,
                max_wires_supported as nat,
            )) by {
            }
            lemma_done_on(
                ct@,
                prefix_before,
                wires_used as int,
                Turn { cf: cf as int, slot: w + 1, phase: 1, a: label as int, b: 0, sub: 0, c: 0 },
                Turn { cf: cf as int, slot: w + 1, phase: 2, a: 0, b: 0, sub: 0, c: 0 },
                h,
                0,
                max_gates_supported as int,
                max_wires_supported as nat,
            );
        }
            let mut label1: usize = 0;
            while label1 < wires_used
                invariant
                    label1 <= wires_used,
                    w < 3,
                    other_wires[0] < other_wires[1] < 3,
            other_wires[0] != w,
            other_wires[1] != w,
                    1 <= cf < Base2GateControlFunc::COUNT,
                    1 <= current_size < max_gates_supported,
            current_circuit.len() == max_gates_supported,
            max_wires_supported <= MAX_TABLE_WIRES,
            wires_used < max_wires_supported,
            current_circuit@.take(current_size as int) == prefix_before,
            prefix_before.len() == current_size,
            gates_fit(prefix_before, wires_used as int),
            gates_fit(prefix_before, wires_used + 1),
            gates_fit(prefix_before, wires_used + 2),
            gates_fit(prefix_before, wires_used + 3),
            table_sound(ct@, max_gates_supported as int, max_wires_supported as nat),
            refines(ct@, entries_before),
                    done_before(
                ct@,
                prefix_before,
                wires_used as int,
                Turn { cf: cf as int, slot: w + 1, phase: 2, a: label1 as int, b: 0, sub: 0, c: 0 },
                max_gates_supported as int,
                max_wires_supported as nat,
            ),
                decreases wires_used - label1,
            {
                let mut label2: usize = 0;
                while label2 < wires_used
                    invariant
                        label2 <= wires_used,
                        label1 < wires_used,
                        w < 3,
                        other_wires[0] < other_wires[1] < 3,
            other_wires[0] != w,
            other_wires[1] != w,
                        1 <= cf < Base2GateControlFunc::COUNT,
                        1 <= current_size < max_gates_supported,
            current_circuit.len() == max_gates_supported,
            max_wires_supported <= MAX_TABLE_WIRES,
            wires_used < max_wires_supported,
            current_circuit@.take(current_size as int) == prefix_before,
            prefix_before.len() == current_size,
            gates_fit(prefix_before, wires_used as int),
            gates_fit(prefix_before, wires_used + 1),
            gates_fit(prefix_before, wires_used + 2),
            gates_fit(prefix_before, wires_used + 3),
            table_sound(ct@, max_gates_supported as int, max_wires_supported as nat),
            refines(ct@, entries_before),
                        done_before(
                ct@,
                prefix_before,
                wires_used as int,
                Turn { cf: cf as int, slot: w + 1, phase: 2, a: label1 as int, b: label2 as int, sub: 0, c: 0 },
                max_gates_supported as int,
                max_wires_supported as nat,
            ),
                    decreases wires_used - label2,
                {
                    if label1 != label2 {
                        // Two old wires: w is new
                        let mut wires = [0usize; 3];
                        wires[w] = wires_used;
                        wires[other_wires[0]] = label1;
                        wires[other_wires[1]] = label2;
                        let ghost entries_now = ct@;
                        extend_with(
                            max_gates_supported,
                            max_wires_supported,
                            cf_choice,
                            current_size,
                            current_circuit,
                            wires,
                            cf,
                            wires_used + 1,
                            ct,
                        );
                        proof {
            lemma_refines_chain(ct@, entries_now, entries_before);
            lemma_done_refined(
                ct@,
                entries_now,
                prefix_before,
                wires_used as int,
                Turn { cf: cf as int, slot: w + 1, phase: 2, a: label1 as int, b: label2 as int, sub: 0, c: 0 },
                max_gates_supported as int,
                max_wires_supported as nat,
            );
            let h = current_circuit@[current_size as int];
            assert(current_circuit@.take(current_size + 1) =~= prefix_before.push(h));
            assert forall|g: Gate, then: int, cf2: int, kind: int, w2: int, a: int, b: int, c: int| #[trigger]
                is_step(g, wires_used as int, then, cf2, kind, w2, a, b, c) && earlier(
                    turn_of(cf2, kind, w2, a, b, c),
                    Turn { cf: cf as int, slot: w + 1, phase: 2, a: label1 as int, b: label2 as int, sub: 1, c: 0 },
                ) implies earlier(turn_of(cf2, kind, w2, a, b, c), Turn { cf: cf as int, slot: w + 1, phase: 2, a: label1 as int, b: label2 as int, sub: 0, c: 0 }) || (g == h && then
                == wires_used + 1 && covers(
                ct@,
                prefix_before.push(h),
                wires_used + 1,
                max_gates_supported as int,
                max_wires_supported as nat,
            )) by {
                if !earlier(turn_of(cf2, kind, w2, a, b, c), Turn { cf: cf as int, slot: w + 1, phase: 2, a: label1 as int, b: label2 as int, sub: 0, c: 0 }) {
                    lemma_same_gate(g, h);
                }
            }
            lemma_done_on(
                ct@,
                prefix_before,
                wires_used as int,
                Turn { cf: cf as int, slot: w + 1, phase: 2, a: label1 as int, b: label2 as int, sub: 0, c: 0 },
                Turn { cf: cf as int, slot: w + 1, phase: 2, a: label1 as int, b: label2 as int, sub: 1, c: 0 },
                h,
                wires_used + 1,
                max_gates_supported as int,
                max_wires_supported as nat,
            );
        }
                        // Three old wires
                        let mut label3: usize = 0;
                        while label3 < wires_used
                            invariant
                                label3 <= wires_used,
                                label1 < wires_used,
                                label2 < wires_used,
                                label1 != label2,
                                w < 3,
                                other_wires[0] < other_wires[1] < 3,
            other_wires[0] != w,
            other_wires[1] != w,
                                1 <= cf < Base2GateControlFunc::COUNT,
                                1 <= current_size < max_gates_supported,
            current_circuit.len() == max_gates_supported,
            max_wires_supported <= MAX_TABLE_WIRES,
            wires_used < max_wires_supported,
            current_circuit@.take(current_size as int) == prefix_before,
            prefix_before.len() == current_size,
            gates_fit(prefix_before, wires_used as int),
            gates_fit(prefix_before, wires_used + 1),
            gates_fit(prefix_before, wires_used + 2),
            gates_fit(prefix_before, wires_used + 3),
            table_sound(ct@, max_gates_supported as int, max_wires_supported as nat),
            refines(ct@, entries_before),
                                done_before(
                ct@,
                prefix_before,
                wires_used as int,
                Turn { cf: cf as int, slot: w + 1, phase: 2, a: label1 as int, b: label2 as int, sub: 1, c: label3 as int },
                max_gates_supported as int,
                max_wires_supported as nat,
            ),
                            decreases wires_used - label3,
                        {
                            if label3 != label1 && label3 != label2 {
                                let mut wires = [0usize; 3];
                                wires[w] = label3;
                                wires[other_wires[0]] = label1;
                                wires[other_wires[1]] = label2;
                                let ghost entries_now = ct@;
                                extend_with(
                                    max_gates_supported,
                                    max_wires_supported,
                                    cf_choice,
                                    current_size,
                                    current_circuit,
                                    wires,
                                    cf,
                                    wires_used,
                                    ct,
                                );
                                proof {
            lemma_refines_chain(ct@, entries_now, entries_before);
            lemma_done_refined(
                ct@,
                entries_now,
                prefix_before,
                wires_used as int,
                Turn { cf: cf as int, slot: w + 1, phase: 2, a: label1 as int, b: label2 as int, sub: 1, c: label3 as int },
                max_gates_supported as int,
                max_wires_supported as nat,
            );
            let h = current_circuit@[current_size as int];
            assert(current_circuit@.take(current_size + 1) =~= prefix_before.push(h));
            assert forall|g: Gate, then: int, cf2: int, kind: int, w2: int, a: int, b: int, c: int| #[trigger]
                is_step(g, wires_used as int, then, cf2, kind, w2, a, b, c) && earlier(
                    turn_of(cf2, kind, w2, a, b, c),
                    Turn { cf: cf as int, slot: w + 1, phase: 2, a: label1 as int, b: label2 as int, sub: 1, c: label3 + 1 },
                ) implies earlier(turn_of(cf2, kind, w2, a, b, c), Turn { cf: cf as int, slot: w + 1, phase: 2, a: label1 as int, b: label2 as int, sub: 1, c: label3 as int }) || (g == h && then
                == wires_used as int && covers(
                ct@,
                prefix_before.push(h),
                wires_used as int,
                max_gates_supported as int,
                max_wires_supported as nat,
            )) by {
                if !earlier(turn_of(cf2, kind, w2, a, b, c), Turn { cf: cf as int, slot: w + 1, phase: 2, a: label1 as int, b: label2 as int, sub: 1, c: label3 as int }) {
                    lemma_same_gate(g, h);
                }
            }
            lemma_done_on(
                ct@,
                prefix_before,
                wires_used as int,
                Turn { cf: cf as int, slot: w + 1, phase: 2, a: label1 as int, b: label2 as int, sub: 1, c: label3 as int },
                Turn { cf: cf as int, slot: w + 1, phase: 2, a: label1 as int, b: label2 as int, sub: 1, c: label3 + 1 },
                h,
                wires_used as int,
                max_gates_supported as int,
                max_wires_supported as nat,
            );
        }
                            } else {
                                proof {
            let h = prefix_before[0];
            assert forall|g: Gate, then: int, cf2: int, kind: int, w2: int, a: int, b: int, c: int| #[trigger]
                is_step(g, wires_used as int, then, cf2, kind, w2, a, b, c) && earlier(
                    turn_of(cf2, kind, w2, a, b, c),
                    Turn { cf: cf as int, slot: w + 1, phase: 2, a: label1 as int, b: label2 as int, sub: 1, c: label3 + 1 },
                ) implies earlier(turn_of(cf2, kind, w2, a, b, c), Turn { cf: cf as int, slot: w + 1, phase: 2, a: label1 as int, b: label2 as int, sub: 1, c: label3 as int }) || (g == h && then == 0
                && covers(
                ct@,
                prefix_before.push(h),
                0,
                max_gates_supported as int,
                max_wires_supported as nat,
            )) by {
            }
            lemma_done_on(
                ct@,
                prefix_before,
                wires_used as int,
                Turn { cf: cf as int, slot: w + 1, phase: 2, a: label1 as int, b: label2 as int, sub: 1, c: label3 as int },
                Turn { cf: cf as int, slot: w + 1, phase: 2, a: label1 as int, b: label2 as int, sub: 1, c: label3 + 1 },
                h,
                0,
                max_gates_supported as int,
                max_wires_supported as nat,
            );
        }
                            }
                            label3 += 1;
                        }
                        proof {
            let h = prefix_before[0];
            assert forall|g: Gate, then: int, cf2: int, kind: int, w2: int, a: int, b: int, c: int| #[trigger]
                is_step(g, wires_used as int, then, cf2, kind, w2, a, b, c) && earlier(
                    turn_of(cf2, kind, w2, a, b, c),
                    Turn { cf: cf as int, slot: w + 1, phase: 2, a: label1 as int, b: label2 + 1, sub: 0, c: 0 },
                ) implies earlier(turn_of(cf2, kind, w2, a, b, c), Turn { cf: cf as int, slot: w + 1, phase: 2, a: label1 as int, b: label2 as int, sub: 1, c: label3 as int }) || (g == h && then == 0
                && covers(
                ct@,
                prefix_before.push(h),
                0,
                max_gates_supported as int,
                max_wires_supported as nat,
            )) by {
            }
            lemma_done_on(
                ct@,
                prefix_before,
                wires_used as int,
                Turn { cf: cf as int, slot: w + 1, phase: 2, a: label1 as int, b: label2 as int, sub: 1, c: label3 as int },
                Turn { cf: cf as int, slot: w + 1, phase: 2, a: label1 as int, b: label2 + 1, sub: 0, c: 0 },
                h,
                0,
                max_gates_supported as int,
                max_wires_supported as nat,
            );
        }
                    } else {
                        proof {
            let h = prefix_before[0];
            assert forall|g: Gate, then: int, cf2: int, kind: int, w2: int, a: int, b: int, c: int| #[trigger]
                is_step(g, wires_used as int, then, cf2, kind, w2, a, b, c) && earlier(
                    turn_of(cf2, kind, w2, a, b, c),
                    Turn { cf: cf as int, slot: w + 1, phase: 2, a: label1 as int, b: label2 + 1, sub: 0, c: 0 },
                ) implies earlier(turn_of(cf2, kind, w2, a, b, c), Turn { cf: cf as int, slot: w + 1, phase: 2, a: label1 as int, b: label2 as int, sub: 0, c: 0 }) || (g == h && then == 0
                && covers(
                ct@,
                prefix_before.push(h),
                0,
                max_gates_supported as int,
                max_wires_supported as nat,
            )) by {
            }
            lemma_done_on(
                ct@,
                prefix_before,
                wires_used as int,
                Turn { cf: cf as int, slot: w + 1, phase: 2, a: label1 as int, b: label2 as int, sub: 0, c: 0 },
                Turn { cf: cf as int, slot: w + 1, phase: 2, a: label1 as int, b: label2 + 1, sub: 0, c: 0 },
                h,
                0,
                max_gates_supported as int,
                max_wires_supported as nat,
            );
        }
                    }
                    label2 += 1;
                }
                proof {
            let h = prefix_before[0];
            assert forall|g: Gate, then: int, cf2: int, kind: int, w2: int, a: int, b: int, c: int| #[trigger]
                is_step(g, wires_used as int, then, cf2, kind, w2, a, b, c) && earlier(
                    turn_of(cf2, kind, w2, a, b, c),
                    Turn { cf: cf as int, slot: w + 1, phase: 2, a: label1 + 1, b: 0, sub: 0, c: 0 },
                ) implies earlier(turn_of(cf2, kind, w2, a, b, c), Turn { cf: cf as int, slot: w + 1, phase: 2, a: label1 as int, b: label2 as int, sub: 0, c: 0 }) || (g == h && then == 0
                && covers(
                ct@,
                prefix_before.push(h),
                0,
                max_gates_supported as int,
                max_wires_supported as nat,
            )) by {
            }
            lemma_done_on(
                ct@,
                prefix_before,
                wires_used as int,
                Turn { cf: cf as int, slot: w + 1, phase: 2, a: label1 as int, b: label2 as int, sub: 0, c: 0 },
                Turn { cf: cf as int, slot: w + 1, phase: 2, a: label1 + 1, b: 0, sub: 0, c: 0 },
                h,
                0,
                max_gates_supported as int,
                max_wires_supported as nat,
            );
        }
                label1 += 1;
            }
            proof {
            let h = prefix_before[0];
            assert forall|g: Gate, then: int, cf2: int, kind: int, w2: int, a: int, b: int, c: int| #[trigger]
                is_step(g, wires_used as int, then, cf2, kind, w2, a, b, c) && earlier(
                    turn_of(cf2, kind, w2, a, b, c),
                    Turn { cf: cf as int, slot: w + 2, phase: 0, a: 0, b: 0, sub: 0, c: 0 },
                ) implies earlier(turn_of(cf2, kind, w2, a, b, c), Turn { cf: cf as int, slot: w + 1, phase: 2, a: label1 as int, b: 0, sub: 0, c: 0 }) || (g == h && then == 0
                && covers(
                ct@,
                prefix_before.push(h),
                0,
                max_gates_supported as int,
                max_wires_supported as nat,
            )) by {
            }
            lemma_done_on(
                ct@,
                prefix_before,
                wires_used as int,
                Turn { cf: cf as int, slot: w + 1, phase: 2, a: label1 as int, b: 0, sub: 0, c: 0 },
                Turn { cf: cf as int, slot: w + 2, phase: 0, a: 0, b: 0, sub: 0, c: 0 },
                h,
                0,
                max_gates_supported as int,
                max_wires_supported as nat,
            );
        }
            w += 1;
        }
        proof {
            let h = prefix_before[0];
            assert forall|g: Gate, then: int, cf2: int, kind: int, w2: int, a: int, b: int, c: int| #[trigger]
                is_step(g, wires_used as int, then, cf2, kind, w2, a, b, c) && earlier(
                    turn_of(cf2, kind, w2, a, b, c),
                    Turn { cf: cf + 1, slot: 0, phase: 0, a: 0, b: 0, sub: 0, c: 0 },
                ) implies earlier(turn_of(cf2, kind, w2, a, b, c), Turn { cf: cf as int, slot: w + 1, phase: 0, a: 0, b: 0, sub: 0, c: 0 }) || (g == h && then == 0
                && covers(
                ct@,
                prefix_before.push(h),
                0,
                max_gates_supported as int,
                max_wires_supported as nat,
            )) by {
            }
            lemma_done_on(
                ct@,
                prefix_before,
                wires_used as int,
                Turn { cf: cf as int, slot: w + 1, phase: 0, a: 0, b: 0, sub: 0, c: 0 },
                Turn { cf: cf + 1, slot: 0, phase: 0, a: 0, b: 0, sub: 0, c: 0 },
                h,
                0,
                max_gates_supported as int,
                max_wires_supported as nat,
            );
        }
        cf += 1;
    }
    proof {
        lemma_refines_chain(ct@, entries_before, entries_start);
        lemma_knows_refined(
            ct@,
            entries_before,
            table_of(prefix_before, max_wires_supported as nat),
            current_size as int,
        );
        assert forall|circuit: Seq<Gate>| #[trigger]
            reaches(
                prefix_before,
                wires_used as int,
                circuit,
                max_gates_supported as int,
                max_wires_supported as int,
            ) implies knows(
            ct@,
            table_of(circuit, max_wires_supported as nat),
            circuit.len() as int,
        ) by {
            if circuit != prefix_before {
                let (g, then) = choose|g: Gate, then: int| #[trigger]
                    is_next_gate(g, wires_used as int, then) && reaches(
                        prefix_before.push(g),
                        then,
                        circuit,
                        max_gates_supported as int,
                        max_wires_supported as int,
                    );
                let (cf2, kind, w2, a, b, c) = choose|
                    cf2: int,
                    kind: int,
                    w2: int,
                    a: int,
                    b: int,
                    c: int,
                | #[trigger] is_step(g, wires_used as int, then, cf2, kind, w2, a, b, c);
                assert(earlier(
                    turn_of(cf2, kind, w2, a, b, c),
                    Turn { cf: 16, slot: 0, phase: 0, a: 0, b: 0, sub: 0, c: 0 },
                ));
                assert(covers(
                    ct@,
                    prefix_before.push(g),
                    then,
                    max_gates_supported as int,
                    max_wires_supported as nat,
                ));
            }
        }
    }
}

/// A table that refines one that refines a third refines the third.
proof fn lemma_refines_chain(
    last: Seq<TableEntry>,
    middle: Seq<TableEntry>,
    first: Seq<TableEntry>,
)
    requires
        refines(last, middle),
        refines(middle, first),
    ensures
        refines(last, first),
{
    assert forall|i: int| 0 <= i < first.len() implies {
        &&& (#[trigger] last[i]).table@ == first[i].table@
        &&& last[i].circuit.len() <= first[i].circuit.len()
    } by {
        let m = middle[i];
        assert(m.table@ == first[i].table@ && m.circuit.len() <= first[i].circuit.len());
    }
}

/// The table covers the circuits that begin with a gate on the wires 0,
/// 1 and 2 that has one of the control functions `cfs`.
pub open spec fn covers_all(
    entries: Seq<TableEntry>,
    cfs: Seq<u8>,
    max_gates: int,
    max_wires: nat,
) -> bool {
    forall|k: int, g: Gate|
        0 <= k < cfs.len() && #[trigger] gate_with(g, cfs[k] as int, (0, 1, 2)) ==> covers(
            entries,
            seq![g],
            3,
            max_gates,
            max_wires,
        )
}

/// The table of the circuits of up to `max_gates_supported` gates over up
/// to `max_wires_supported` wires: for each truth table that such a circuit
/// has, one of the shortest circuits that the enumeration reaches.  The
/// first gate of a circuit has the wires 0, 1 and 2 and a control function
/// of `cf_choice`.  The first entry is that of the circuit without gates.
pub fn build_compression_table(
    max_gates_supported: usize,
    max_wires_supported: usize,
    cf_choice: &Vec<u8>,
) -> (ct: Vec<TableEntry>)
    requires
        max_gates_supported >= 1,
        3 <= max_wires_supported <= MAX_TABLE_WIRES,
        forall|k: int| 0 <= k < cf_choice.len() ==> cf_choice[k] < Base2GateControlFunc::COUNT,
    ensures
        table_sound(ct@, max_gates_supported as int, max_wires_supported as nat),
        ct.len() >= 1,
        ct[0].circuit.len() == 0,
        ct[0].table@ == table_of(Seq::<Gate>::empty(), max_wires_supported as nat),
        covers_all(ct@, cf_choice@, max_gates_supported as int, max_wires_supported as nat),
{
    let mut ct: Vec<TableEntry> = Vec::new();
    // Identity gate
    let nothing: Vec<Gate> = Vec::new();
    let identity = truth_table(max_wires_supported, &nothing);
    proof {
        lemma_table_of(identity@, nothing@, max_wires_supported as nat);
        assert(nothing@ =~= Seq::<Gate>::empty());
    }
    record(
        &mut ct,
        identity,
        nothing,
        Ghost(max_gates_supported as int),
        Ghost(max_wires_supported as nat),
    );
    let ghost first = ct@;
    let mut current_circuit: Vec<Gate> = Vec::new();
    let mut g: usize = 0;
    while g < max_gates_supported
        invariant
            g <= max_gates_supported,
            current_circuit.len() == g,
        decreases max_gates_supported - g,
    {
        current_circuit.push(Gate { wires: [0, 0, 0], control_func: 0, generation: 0 });
        g += 1;
    }
    let mut k: usize = 0;
    while k < cf_choice.len()
        invariant
            k <= cf_choice.len(),
            max_gates_supported >= 1,
            3 <= max_wires_supported <= MAX_TABLE_WIRES,
            forall|j: int| 0 <= j < cf_choice.len() ==> cf_choice[j] < Base2GateControlFunc::COUNT,
            current_circuit.len() == max_gates_supported,
            table_sound(ct@, max_gates_supported as int, max_wires_supported as nat),
            refines(ct@, first),
            first.len() == 1,
            first[0].circuit.len() == 0,
            first[0].table@ == table_of(Seq::<Gate>::empty(), max_wires_supported as nat),
            covers_all(
                ct@,
                cf_choice@.take(k as int),
                max_gates_supported as int,
                max_wires_supported as nat,
            ),
        decreases cf_choice.len() - k,
    {
        current_circuit[0] = Gate { wires: [0, 1, 2], control_func: cf_choice[k], generation: 0 };
        proof {
            let one = current_circuit@.take(1);
            assert forall|i: int| 0 <= i < one.len() implies (#[trigger] one[i]).fits(3) by {
                assert(one[i] == current_circuit@[0]);
            }
        }
        let ghost now = ct@;
        build_compression_table_recursive(
            max_gates_supported,
            max_wires_supported,
            cf_choice,
            1,
            &mut current_circuit,
            3,
            &mut ct,
        );
        proof {
            lemma_refines_chain(ct@, now, first);
            let h = current_circuit@[0];
            assert(current_circuit@.take(1) =~= seq![h]);
            assert forall|j: int, g: Gate|
                0 <= j < k + 1 && #[trigger] gate_with(
                    g,
                    cf_choice@.take(k + 1)[j] as int,
                    (0, 1, 2),
                ) implies covers(
                ct@,
                seq![g],
                3,
                max_gates_supported as int,
                max_wires_supported as nat,
            ) by {
                if j < k {
                    assert(gate_with(g, cf_choice@.take(k as int)[j] as int, (0, 1, 2)));
                    lemma_covers_refined(
                        ct@,
                        now,
                        seq![g],
                        3,
                        max_gates_supported as int,
                        max_wires_supported as nat,
                    );
                } else {
                    lemma_same_gate(g, h);
                }
            }
        }
        k += 1;
    }
    proof {
        assert(cf_choice@.take(cf_choice.len() as int) == cf_choice@);
    }
    ct
}

/// A block and what it was compressed to.
pub struct CacheEntry {
    pub circuit: Vec<Gate>,
    pub compressed: Vec<Gate>,
}

/// Over any number of wires that `circuit` fits, `compressed` fits them
/// too and computes what `circuit` computes.
pub open spec fn stands_for(compressed: Seq<Gate>, circuit: Seq<Gate>) -> bool {
    forall|num_wires: int|
        #[trigger] gates_fit(circuit, num_wires) ==> gates_fit(compressed, num_wires) && equivalent(
            circuit,
            compressed,
            num_wires,
        )
}

/// `map` lists the wires of `circuit`, each once, and `projected` is
/// `circuit` with each wire replaced by its place in `map`.
pub open spec fn renumbers(projected: Seq<Gate>, circuit: Seq<Gate>, map: Seq<usize>) -> bool {
    &&& is_projection(projected, circuit, map)
    &&& map.no_duplicates()
    &&& forall|a: int| 0 <= a < map.len() ==> distinct_wires(circuit).contains(#[trigger] map[a])
}

/// Every wire of `gates` is below `bound`.
pub open spec fn uses_wires_below(gates: Seq<Gate>, bound: int) -> bool {
    forall|j: int, w: int| 0 <= j < gates.len() && 0 <= w < 3 ==> (#[trigger] gates[j].wires[w]) < bound
}

/// A table of small circuits by their truth tables, with the blocks that
/// it has compressed.
pub struct CompressionTable {
    pub max_gates_supported: usize,
    pub max_wires_supported: usize,
    pub cf_choice: Vec<u8>,
    pub ct: Vec<TableEntry>,
    pub cache: Vec<CacheEntry>,
}

impl CompressionTable {
    /// The entries are sound, and so is what was compressed.
    pub open spec fn wf(&self) -> bool {
        &&& self.max_wires_supported <= MAX_TABLE_WIRES
        &&& table_sound(self.ct@, self.max_gates_supported as int, self.max_wires_supported as nat)
        &&& forall|i: int|
            0 <= i < self.cache.len() ==> stands_for(
                (#[trigger] self.cache[i]).compressed@,
                self.cache[i].circuit@,
            ) && self.cache[i].compressed.len() <= self.max_gates_supported
    }

    pub fn new(max_gates_supported: usize, max_wires_supported: usize, cf_choice: Vec<u8>) -> (table:
        Self)
        requires
            max_gates_supported >= 1,
            3 <= max_wires_supported <= MAX_TABLE_WIRES,
            forall|k: int| 0 <= k < cf_choice.len() ==> cf_choice[k] < Base2GateControlFunc::COUNT,
        ensures
            table.wf(),
            table.max_gates_supported == max_gates_supported,
            table.max_wires_supported == max_wires_supported,
            table.cf_choice == cf_choice,
            table.cache.len() == 0,
            table.ct.len() >= 1,
            table.ct[0].circuit.len() == 0,
            covers_all(
                table.ct@,
                cf_choice@,
                max_gates_supported as int,
                max_wires_supported as nat,
            ),
    {
        let ct = build_compression_table(max_gates_supported, max_wires_supported, &cf_choice);
        Self { max_gates_supported, max_wires_supported, ct, cf_choice, cache: Vec::new() }
    }

    /// The cache holds, for `circuit`, a circuit of `n` gates.
    pub open spec fn in_cache(&self, circuit: Seq<Gate>, n: usize) -> bool {
        exists|i: int|
            0 <= i < self.cache.len() && (#[trigger] self.cache[i]).circuit@ == circuit
                && self.cache[i].compressed.len() == n
    }

    /// The table holds a circuit of `n` gates with the truth table of
    /// `circuit`, the wires of `circuit` renumbered: `map` lists the
    /// wires of `circuit`, each once, and `projected` is `circuit` with
    /// each wire replaced by its place in `map`.
    pub open spec fn holds_for(&self, circuit: Seq<Gate>, n: usize) -> bool {
        exists|i: int, projected: Seq<Gate>, map: Seq<usize>|
            0 <= i < self.ct.len() && (#[trigger] self.ct[i]).circuit.len() == n
                && #[trigger] renumbers(projected, circuit, map) && map.len()
                <= self.max_wires_supported && self.ct[i].table@ == table_of(
                projected,
                self.max_wires_supported as nat,
            )
    }

    /// The first place at which the table holds the truth table of
    /// `circuit`, its wires numbered with those first on which its
    /// function depends; none where `circuit` has more wires than the
    /// table supports.
    pub open spec fn table_place(&self, circuit: Seq<Gate>) -> Option<usize> {
        if distinct_wires(circuit).len() > self.max_wires_supported {
            None
        } else {
            place_of_table(
                self.ct@,
                table_by(circuit, optimal_map(circuit), self.max_wires_supported as nat),
                0,
            )
        }
    }

    /// The number of gates that `lookup_cxity` gives for `circuit`: that
    /// of what the cache holds for it, else that of the circuit of the
    /// table with its truth table.
    pub open spec fn complexity(&self, circuit: Seq<Gate>) -> Option<usize> {
        match place_in_cache(self.cache@, circuit, 0) {
            Some(i) => Some(self.cache[i as int].compressed.len()),
            None => match self.table_place(circuit) {
                Some(i) => Some(self.ct[i as int].circuit.len()),
                None => None,
            },
        }
    }

    /// `circuit` can be compressed: the cache holds it, or the table
    /// holds a circuit with its truth table that needs no wire that
    /// `circuit` has not.
    pub open spec fn compressible(&self, circuit: Seq<Gate>) -> bool {
        place_in_cache(self.cache@, circuit, 0) is Some || (self.table_place(circuit) matches Some(
            i,
        ) && uses_wires_below(self.ct[i as int].circuit@, distinct_wires(circuit).len() as int))
    }

    /// Whether the table, with nothing compressed yet, is in order: holds
    /// for a table that was read from outside what `wf` states.
    pub fn is_sound(&self) -> (r: bool)
        ensures
            r ==> self.wf(),
            r == (self.cache.len() == 0 && self.max_wires_supported <= MAX_TABLE_WIRES
                && table_sound(
                self.ct@,
                self.max_gates_supported as int,
                self.max_wires_supported as nat,
            )),
    {
        if self.max_wires_supported > MAX_TABLE_WIRES || self.cache.len() != 0 {
            return false;
        }
        let mut i: usize = 0;
        while i < self.ct.len()
            invariant
                i <= self.ct.len(),
                self.max_wires_supported <= MAX_TABLE_WIRES,
                forall|k: int|
                    0 <= k < i ==> (#[trigger] self.ct[k]).sound(
                        self.max_gates_supported as int,
                        self.max_wires_supported as nat,
                    ),
                forall|a: int, b: int|
                    0 <= a < b < i ==> (#[trigger] self.ct[a]).table@ != (
                    #[trigger] self.ct[b]).table@,
            decreases self.ct.len() - i,
        {
            let entry = &self.ct[i];
            let as_circuit = crate::circuit::circuit::Circuit {
                num_wires: self.max_wires_supported,
                gates: entry.circuit.clone(),
            };
            if entry.circuit.len() > self.max_gates_supported || !as_circuit.is_well_formed() {
                proof {
                    assert(!self.ct[i as int].sound(
                        self.max_gates_supported as int,
                        self.max_wires_supported as nat,
                    ));
                }
                return false;
            }
            proof {
                assert forall|k: int| 0 <= k < entry.circuit.len() implies (
                #[trigger] entry.circuit[k]).fits(32) by {
                    assert(entry.circuit[k].fits(self.max_wires_supported as int));
                }
            }
            let table = truth_table(self.max_wires_supported, &entry.circuit);
            proof {
                lemma_table_of(table@, entry.circuit@, self.max_wires_supported as nat);
            }
            if !same_table(&table, &entry.table) {
                proof {
                    assert(!self.ct[i as int].sound(
                        self.max_gates_supported as int,
                        self.max_wires_supported as nat,
                    ));
                }
                return false;
            }
            let mut j: usize = 0;
            while j < i
                invariant
                    j <= i < self.ct.len(),
                    forall|a: int| 0 <= a < j ==> (#[trigger] self.ct[a]).table@ != self.ct[i as int].table@,
                decreases i - j,
            {
                if same_table(&self.ct[j].table, &self.ct[i].table) {
                    proof {
                        assert(self.ct[j as int].table@ == self.ct[i as int].table@);
                    }
                    return false;
                }
                j += 1;
            }
            i += 1;
        }
        true
    }

    /// The first place in the cache of what `circuit` was compressed to;
    /// none where the cache does not hold it.
    fn cached(&self, circuit: &Vec<Gate>) -> (place: Option<usize>)
        ensures
            place == place_in_cache(self.cache@, circuit@, 0),
            place matches Some(i) ==> i < self.cache.len() && self.cache[i as int].circuit@
                == circuit@,
            place is None ==> forall|i: int|
                0 <= i < self.cache.len() ==> (#[trigger] self.cache[i]).circuit@ != circuit@,
    {
        let mut i: usize = 0;
        while i < self.cache.len()
            invariant
                i <= self.cache.len(),
                forall|k: int| 0 <= k < i ==> (#[trigger] self.cache[k]).circuit@ != circuit@,
                place_in_cache(self.cache@, circuit@, 0) == place_in_cache(
                    self.cache@,
                    circuit@,
                    i as int,
                ),
            decreases self.cache.len() - i,
        {
            if same_gates(&self.cache[i].circuit, circuit) {
                return Some(i);
            }
            i += 1;
        }
        None
    }

    /// The number of gates of the circuit that the table holds for the
    /// function of `circuit`; none where `circuit` has more wires than the
    /// table supports, or where the table has no circuit with its
    /// function.
    pub fn lookup_cxity(&self, circuit: &Vec<Gate>) -> (res: Option<usize>)
        requires
            self.wf(),
            forall|i: int|
                0 <= i < circuit.len() ==> (#[trigger] circuit[i]).control_func
                    < Base2GateControlFunc::COUNT,
        ensures
            res == self.complexity(circuit@),
            res matches Some(n) ==> n <= self.max_gates_supported && (self.in_cache(circuit@, n)
                || self.holds_for(circuit@, n)),
            distinct_wires(circuit@).len() > self.max_wires_supported && (forall|i: int|
                0 <= i < self.cache.len() ==> (#[trigger] self.cache[i]).circuit@ != circuit@)
                ==> res is None,
    {
        match self.cached(circuit) {
            Some(i) => {
                proof {
                    assert(self.cache[i as int].circuit@ == circuit@);
                }
                return Some(self.cache[i].compressed.len());
            },
            None => {},
        }
        let (_, plain_map) = projection_circuit(circuit);
        if plain_map.len() > self.max_wires_supported {
            return None;
        }
        let (proj_circuit, proj_map, _, num_active_wires) = optimal_projection_circuit(circuit);
        proof {
            let wires = distinct_wires(circuit@);
            lemma_pick_wires_len(
                wires,
                active_flags(table_by(circuit@, wires, wires.len()), wires.len()),
            );
        }
        if num_active_wires > self.max_wires_supported {
            return None;
        }
        proof {
            assert forall|i: int| 0 <= i < proj_circuit.len() implies (
            #[trigger] proj_circuit[i]).fits(32) by {
                assert(proj_circuit[i].wires[0] < plain_map.len());
                assert(proj_circuit[i].wires[1] < plain_map.len());
                assert(proj_circuit[i].wires[2] < plain_map.len());
                assert(proj_circuit[i].control_func == circuit[i].control_func);
            }
        }
        let truth_table = truth_table(self.max_wires_supported, &proj_circuit);
        proof {
            lemma_table_of(truth_table@, proj_circuit@, self.max_wires_supported as nat);
            lemma_table_by(
                proj_circuit@,
                circuit@,
                proj_map@,
                self.max_wires_supported as nat,
            );
        }
        match find_entry(&self.ct, &truth_table) {
            Some(i) => {
                proof {
                    assert(self.ct[i as int].sound(
                        self.max_gates_supported as int,
                        self.max_wires_supported as nat,
                    ));
                    lemma_table_of(truth_table@, proj_circuit@, self.max_wires_supported as nat);
                    assert(renumbers(proj_circuit@, circuit@, proj_map@));
                }
                Some(self.ct[i].circuit.len())
            },
            None => None,
        }
    }

    /// The circuit that the table holds for the function of `circuit`, on
    /// the wires of `circuit`: it computes what `circuit` computes.  There
    /// is none where `circuit` has more wires than the table supports,
    /// where the table has no circuit with its function, or where that
    /// circuit has a wire that `circuit` has not.
    pub fn compress_circuit(&mut self, circuit: &Vec<Gate>) -> (res: Option<Vec<Gate>>)
        requires
            old(self).wf(),
            forall|i: int|
                0 <= i < circuit.len() ==> (#[trigger] circuit[i]).control_func
                    < Base2GateControlFunc::COUNT,
        ensures
            final(self).wf(),
            final(self).max_gates_supported == old(self).max_gates_supported,
            final(self).max_wires_supported == old(self).max_wires_supported,
            final(self).ct == old(self).ct,
            res is Some <==> old(self).compressible(circuit@),
            res matches Some(out) ==> match place_in_cache(old(self).cache@, circuit@, 0) {
                Some(i) => out@ == old(self).cache[i as int].compressed@ && final(self).cache
                    == old(self).cache,
                None => {
                    &&& old(self).table_place(circuit@) matches Some(place) && is_projection(
                        old(self).ct[place as int].circuit@,
                        out@,
                        optimal_map(circuit@),
                    )
                    &&& forall|j: int| 0 <= j < out.len() ==> (#[trigger] out[j]).generation == 0
                    &&& final(self).cache.len() == old(self).cache.len() + 1
                    &&& final(self).cache@.last().circuit@ == circuit@
                    &&& final(self).cache@.last().compressed@ == out@
                    &&& final(self).cache@.drop_last() == old(self).cache@
                },
            },
            res is None ==> final(self).cache == old(self).cache,
            res matches Some(out) ==> stands_for(out@, circuit@) && out.len() <= old(
                self,
            ).max_gates_supported,
            distinct_wires(circuit@).len() > old(self).max_wires_supported && (forall|i: int|
                0 <= i < old(self).cache.len() ==> (#[trigger] old(self).cache[i]).circuit@
                    != circuit@) ==> res is None,
    {
        match self.cached(circuit) {
            Some(i) => {
                return Some(self.cache[i].compressed.clone());
            },
            None => {},
        }
        let (_, plain_map) = projection_circuit(circuit);
        if plain_map.len() > self.max_wires_supported {
            return None;
        }
        let (proj_circuit, proj_map, _, num_active_wires) = optimal_projection_circuit(circuit);
        proof {
            let wires = distinct_wires(circuit@);
            lemma_pick_wires_len(
                wires,
                active_flags(table_by(circuit@, wires, wires.len()), wires.len()),
            );
        }
        if num_active_wires > self.max_wires_supported {
            return None;
        }
        proof {
            assert forall|i: int| 0 <= i < proj_circuit.len() implies (
            #[trigger] proj_circuit[i]).fits(32) by {
                assert(proj_circuit[i].wires[0] < proj_map.len());
                assert(proj_circuit[i].wires[1] < proj_map.len());
                assert(proj_circuit[i].wires[2] < proj_map.len());
                assert(proj_circuit[i].control_func == circuit[i].control_func);
            }
        }
        let truth_table = truth_table(self.max_wires_supported, &proj_circuit);
        proof {
            lemma_table_of(truth_table@, proj_circuit@, self.max_wires_supported as nat);
            lemma_table_by(
                proj_circuit@,
                circuit@,
                proj_map@,
                self.max_wires_supported as nat,
            );
        }
        let place = match find_entry(&self.ct, &truth_table) {
            Some(i) => i,
            None => {
                return None;
            },
        };
        proof {
            assert(self.ct[place as int].sound(
                self.max_gates_supported as int,
                self.max_wires_supported as nat,
            ));
        }
        let mut output_circuit: Vec<Gate> = Vec::new();
        let mut k: usize = 0;
        while k < self.ct[place as usize].circuit.len()
            invariant
                *self == *old(self),
                self.wf(),
                place < self.ct.len(),
                k <= self.ct[place as int].circuit.len(),
                output_circuit.len() == k,
                forall|j: int, w: int|
                    0 <= j < k && 0 <= w < 3 ==> {
                        &&& (#[trigger] self.ct[place as int].circuit[j].wires[w]) < proj_map.len()
                        &&& output_circuit[j].wires[w] == proj_map[self.ct[place as int].circuit[j].wires[w] as int]
                    },
                forall|j: int|
                    0 <= j < k ==> (#[trigger] output_circuit[j]).control_func
                        == self.ct[place as int].circuit[j].control_func,
                forall|j: int| 0 <= j < k ==> (#[trigger] output_circuit[j]).generation == 0,
                proj_map.len() == distinct_wires(circuit@).len(),
                self.table_place(circuit@) == Some(place),
                place_in_cache(self.cache@, circuit@, 0) is None,
            decreases self.ct[place as int].circuit.len() - k,
        {
            let g = self.ct[place].circuit[k];
            if g.wires[0] >= proj_map.len() || g.wires[1] >= proj_map.len() || g.wires[2]
                >= proj_map.len() {
                proof {
                    let held = self.ct[place as int].circuit@;
                    assert(held[k as int].wires[0] >= proj_map.len() || held[k as int].wires[1]
                        >= proj_map.len() || held[k as int].wires[2] >= proj_map.len());
                    assert(!uses_wires_below(held, proj_map.len() as int));
                }
                return None;
            }
            output_circuit.push(
                Gate {
                    wires: [proj_map[g.wires[0]], proj_map[g.wires[1]], proj_map[g.wires[2]]],
                    control_func: g.control_func,
                    generation: 0,
                },
            );
            k += 1;
        }
        proof {
            lemma_table_of(truth_table@, proj_circuit@, self.max_wires_supported as nat);
            assert(self.ct[place as int].sound(
                self.max_gates_supported as int,
                self.max_wires_supported as nat,
            ));
            assert forall|i: int| 0 <= i < self.ct[place as int].circuit.len() implies (
            #[trigger] self.ct[place as int].circuit[i]).control_func
                < Base2GateControlFunc::COUNT by {
                assert(self.ct[place as int].circuit[i].fits(self.max_wires_supported as int));
            }
            lemma_compressed_stands_for(
                circuit@,
                proj_circuit@,
                proj_map@,
                truth_table@,
                self.ct[place as int].circuit@,
                output_circuit@,
                self.max_wires_supported as nat,
            );
        }
        let compressed = output_circuit.clone();
        self.cache.push(CacheEntry { circuit: circuit.clone(), compressed });
        proof {
            assert(self.cache@.drop_last() =~= old(self).cache@);
        }
        proof {
            assert forall|i: int| 0 <= i < self.cache.len() implies stands_for(
                (#[trigger] self.cache[i]).compressed@,
                self.cache[i].circuit@,
            ) && self.cache[i].compressed.len() <= self.max_gates_supported by {
                if i < self.cache.len() - 1 {
                    assert(self.cache[i] == old(self).cache[i]);
                }
            }
        }
        Some(output_circuit)
    }
}

/// A circuit of the table, put on the wires of a block whose projection
/// has its truth table, computes what the block computes.
pub proof fn lemma_compressed_stands_for(
    circuit: Seq<Gate>,
    projected: Seq<Gate>,
    proj_map: Seq<usize>,
    table: Seq<u32>,
    held: Seq<Gate>,
    output: Seq<Gate>,
    max_wires: nat,
)
    requires
        max_wires <= MAX_TABLE_WIRES,
        proj_map.len() <= max_wires,
        proj_map.no_duplicates(),
        forall|a: int| 0 <= a < proj_map.len() ==> distinct_wires(circuit).contains(
            #[trigger] proj_map[a],
        ),
        is_projection(projected, circuit, proj_map),
        table == table_of(projected, max_wires),
        table == table_of(held, max_wires),
        forall|i: int|
            0 <= i < held.len() ==> (#[trigger] held[i]).control_func < Base2GateControlFunc::COUNT,
        output.len() == held.len(),
        forall|j: int, w: int|
            0 <= j < held.len() && 0 <= w < 3 ==> {
                &&& (#[trigger] held[j].wires[w]) < proj_map.len()
                &&& output[j].wires[w] == proj_map[held[j].wires[w] as int]
            },
        forall|j: int| 0 <= j < held.len() ==> (#[trigger] output[j]).control_func
            == held[j].control_func,
    ensures
        stands_for(output, circuit),
{
    let map = Seq::new(
        max_wires,
        |w: int|
            if w < proj_map.len() {
                Some(proj_map[w])
            } else {
                None::<usize>
            },
    );
    lemma_table_of(table, projected, max_wires);
    lemma_first_occurrences_distinct(wire_seq(circuit));
    lemma_wires_of(circuit);
    assert(injective(map)) by {
        assert forall|a: int, b: int|
            0 <= a < map.len() && 0 <= b < map.len() && a != b && (#[trigger] map[a]) is Some implies map[a]
            != #[trigger] map[b] by {
            if map[b] is Some {
                assert(proj_map[a] != proj_map[b]);
            }
        }
    }
    assert(extends(map, proj_map));
    assert(is_image(output, held, map)) by {
        assert forall|i: int, k: int| 0 <= i < held.len() && 0 <= k < 3 implies {
            &&& (#[trigger] held[i].wires[k]) < map.len()
            &&& map[held[i].wires[k] as int] == Some(output[i].wires[k])
        } by {
            assert(held[i].wires[k] < proj_map.len());
        }
    }
    assert(matches_table(held, table));
    assert forall|num_wires: int| #[trigger] gates_fit(circuit, num_wires) implies gates_fit(
        output,
        num_wires,
    ) && equivalent(circuit, output, num_wires) by {
        assert(maps_into(map, num_wires)) by {
            assert forall|w: int| 0 <= w < map.len() implies (#[trigger] map[w] matches Some(
                x,
            ) ==> x < num_wires) by {
                if w < proj_map.len() {
                    let x = proj_map[w];
                    assert(distinct_wires(circuit).contains(x));
                    assert(wire_seq(circuit).contains(x));
                    let (i, k) = choose|i: int, k: int|
                        0 <= i < circuit.len() && 0 <= k < 3 && #[trigger] circuit[i].wires[k]
                            == x;
                    assert(circuit[i].fits(num_wires));
                }
            }
        }
        lemma_replacement_equivalent(
            circuit,
            projected,
            proj_map,
            table,
            held,
            output,
            map,
            num_wires,
        );
        assert forall|j: int| 0 <= j < output.len() implies (#[trigger] output[j]).fits(
            num_wires,
        ) by {
            assert(map[held[j].wires[0] as int] == Some(output[j].wires[0]));
            assert(map[held[j].wires[1] as int] == Some(output[j].wires[1]));
            assert(map[held[j].wires[2] as int] == Some(output[j].wires[2]));
            assert(output[j].control_func == held[j].control_func);
        }
    }
}

} // verus!
