//! Permutations of small arrays that a handful of bits controls: networks
//! of switches, a riffle, and a register that supplies the bits.
use vstd::prelude::*;
use vstd::slice::slice_subrange;

verus! {

/// `s` with the items at `i` and `j` exchanged if `on` holds.
pub open spec fn switched<T>(s: Seq<T>, on: bool, i: int, j: int) -> Seq<T> {
    if on {
        s.update(i, s[j]).update(j, s[i])
    } else {
        s
    }
}

/// A switch keeps the items of a sequence.
pub proof fn lemma_switched_keeps_items<T>(s: Seq<T>, on: bool, i: int, j: int)
    requires
        0 <= i < s.len(),
        0 <= j < s.len(),
    ensures
        switched(s, on, i, j).to_multiset() == s.to_multiset(),
        switched(s, on, i, j).len() == s.len(),
{
    if on {
        let a = s.update(i, s[j]);
        let b = a.update(j, s[i]);
        vstd::seq_lib::to_multiset_update(s, i, s[j]);
        vstd::seq_lib::to_multiset_update(a, j, s[i]);
        s.to_multiset_ensures();
        assert(s.contains(s[i]) && s.contains(s[j]));
        if i == j {
            assert(b =~= s);
        } else {
            assert(a[j] == s[j]);
            assert(b.to_multiset() =~= s.to_multiset());
        }
    }
}

/// Exchanges the items at `i` and `j` if `on` holds.
fn switch<T: Copy, const N: usize>(a: &mut [T; N], on: bool, i: usize, j: usize)
    requires
        i < N,
        j < N,
    ensures
        final(a)@ == switched(old(a)@, on, i as int, j as int),
{
    if on {
        let x = a[i];
        let y = a[j];
        a[i] = y;
        a[j] = x;
        proof {
            assert(a@ =~= switched(old(a)@, on, i as int, j as int));
        }
    }
}

/// What the network of five switches makes of four items.
pub open spec fn network_4<T>(a: Seq<T>, control: Seq<bool>) -> Seq<T> {
    let s0 = switched(a, control[0], 0, 1);
    let s1 = switched(s0, control[1], 2, 3);
    let s2 = switched(s1, control[2], 0, 2);
    let s3 = switched(s2, control[3], 1, 3);
    switched(s3, control[4], 0, 1)
}

/// Permutes four items by a network of five switches: the first two
/// exchange neighbours, the next two exchange across the pairs, the last
/// exchanges the first pair again.
pub fn walksman_permutation_4<T: Default + Copy + Sized>(a: &[T; 4], control: &[bool]) -> (out: [T;
    4])
    requires
        control.len() >= 5,
    ensures
        out@ == network_4(a@, control@),
        out@.to_multiset() == a@.to_multiset(),
{
    let mut out = *a;
    switch(&mut out, control[0], 0, 1);
    switch(&mut out, control[1], 2, 3);
    switch(&mut out, control[2], 0, 2);
    switch(&mut out, control[3], 1, 3);
    switch(&mut out, control[4], 0, 1);
    proof {
        let s0 = switched(a@, control@[0], 0, 1);
        let s1 = switched(s0, control@[1], 2, 3);
        let s2 = switched(s1, control@[2], 0, 2);
        let s3 = switched(s2, control@[3], 1, 3);
        lemma_switched_keeps_items(a@, control@[0], 0, 1);
        lemma_switched_keeps_items(s0, control@[1], 2, 3);
        lemma_switched_keeps_items(s1, control@[2], 0, 2);
        lemma_switched_keeps_items(s2, control@[3], 1, 3);
        lemma_switched_keeps_items(s3, control@[4], 0, 1);
    }
    out
}

/// The items at the even places of `s` if `odd` is 0, and those at the odd
/// places if it is 1.
pub open spec fn every_other<T>(s: Seq<T>, odd: int) -> Seq<T> {
    Seq::new((s.len() / 2) as nat, |k: int| s[2 * k + odd])
}

/// The items of `evens` at the even places and those of `odds` at the odd
/// places.
pub open spec fn interleaved<T>(evens: Seq<T>, odds: Seq<T>) -> Seq<T> {
    Seq::new(
        evens.len() + odds.len(),
        |i: int|
            if i % 2 == 0 {
                evens[i / 2]
            } else {
                odds[i / 2]
            },
    )
}

/// The items at the even places and the items at the odd places of a
/// sequence of even length are, together, the items of the sequence; so
/// are they when each half has been permuted and the halves interleaved.
pub proof fn lemma_interleaved_keeps_items<T>(s: Seq<T>, evens: Seq<T>, odds: Seq<T>)
    requires
        s.len() % 2 == 0,
        evens.to_multiset() == every_other(s, 0).to_multiset(),
        odds.to_multiset() == every_other(s, 1).to_multiset(),
    ensures
        interleaved(evens, odds).to_multiset() == s.to_multiset(),
{
    lemma_halves_keep_items(s);
    evens.to_multiset_ensures();
    odds.to_multiset_ensures();
    every_other(s, 0).to_multiset_ensures();
    every_other(s, 1).to_multiset_ensures();
    assert(evens.len() == odds.len());
    let whole = interleaved(evens, odds);
    assert(every_other(whole, 0) =~= evens);
    assert(every_other(whole, 1) =~= odds);
    lemma_halves_keep_items(whole);
}

/// The items of a sequence of even length are those at its even places
/// and those at its odd places.
pub proof fn lemma_halves_keep_items<T>(s: Seq<T>)
    requires
        s.len() % 2 == 0,
    ensures
        s.to_multiset() == every_other(s, 0).to_multiset().add(every_other(s, 1).to_multiset()),
    decreases s.len(),
{
    if s.len() == 0 {
        assert(every_other(s, 0) =~= Seq::<T>::empty());
        assert(every_other(s, 1) =~= Seq::<T>::empty());
        assert(s =~= Seq::<T>::empty());
        s.to_multiset_ensures();
        vstd::multiset::lemma_multiset_empty_len(s.to_multiset());
        assert(s.to_multiset() =~= every_other(s, 0).to_multiset().add(
            every_other(s, 1).to_multiset(),
        ));
    } else {
        let front = s.take(s.len() - 2);
        let a = s[s.len() - 2];
        let b = s[s.len() - 1];
        lemma_halves_keep_items(front);
        assert(s =~= front.push(a).push(b));
        assert(every_other(s, 0) =~= every_other(front, 0).push(a));
        assert(every_other(s, 1) =~= every_other(front, 1).push(b));
        vstd::seq_lib::to_multiset_build(front, a);
        vstd::seq_lib::to_multiset_build(front.push(a), b);
        vstd::seq_lib::to_multiset_build(every_other(front, 0), a);
        vstd::seq_lib::to_multiset_build(every_other(front, 1), b);
        assert(s.to_multiset() =~= every_other(s, 0).to_multiset().add(
            every_other(s, 1).to_multiset(),
        ));
    }
}

/// What the network of seventeen switches makes of eight items.
pub open spec fn network_8<T>(a: Seq<T>, control: Seq<bool>) -> Seq<T> {
    let s0 = switched(a, control[0], 0, 1);
    let s1 = switched(s0, control[1], 2, 3);
    let s2 = switched(s1, control[2], 4, 5);
    let s3 = switched(s2, control[3], 6, 7);
    let mid = interleaved(
        network_4(every_other(s3, 0), control.skip(4)),
        network_4(every_other(s3, 1), control.skip(9)),
    );
    let t0 = switched(mid, control[14], 0, 1);
    let t1 = switched(t0, control[15], 2, 3);
    switched(t1, control[16], 4, 5)
}

/// Permutes eight items by a network of seventeen switches: four exchange
/// neighbours, the items at the even places and those at the odd places
/// each pass a network for four, and three exchange neighbours again.
pub fn walksman_permutation_8<T: Default + Copy + Sized>(a: &[T; 8], control: Vec<bool>) -> (out: [T;
    8])
    requires
        control.len() >= 17,
    ensures
        out@ == network_8(a@, control@),
        out@.to_multiset() == a@.to_multiset(),
{
    let mut out = *a;
    switch(&mut out, control[0], 0, 1);
    switch(&mut out, control[1], 2, 3);
    switch(&mut out, control[2], 4, 5);
    switch(&mut out, control[3], 6, 7);
    let ghost s3 = out@;
    let first_half: [T; 4] = [out[0], out[2], out[4], out[6]];
    let interim_1 = walksman_permutation_4(
        &first_half,
        slice_subrange(control.as_slice(), 4, control.len()),
    );
    let second_half: [T; 4] = [out[1], out[3], out[5], out[7]];
    let interim_2 = walksman_permutation_4(
        &second_half,
        slice_subrange(control.as_slice(), 9, control.len()),
    );
    proof {
        assert(first_half@ =~= every_other(s3, 0));
        assert(second_half@ =~= every_other(s3, 1));
        assert(control@.subrange(4, control.len() as int) == control@.skip(4));
        assert(control@.subrange(9, control.len() as int) == control@.skip(9));
    }
    let mut i: usize = 0;
    while i < 8
        invariant
            i <= 8,
            forall|k: int|
                0 <= k < i ==> out@[k] == interleaved(interim_1@, interim_2@)[k],
        decreases 8 - i,
    {
        if i % 2 == 0 {
            out[i] = interim_1[i / 2];
        } else {
            out[i] = interim_2[i / 2];
        }
        i += 1;
    }
    proof {
        assert(out@ =~= interleaved(interim_1@, interim_2@));
        let s0 = switched(a@, control@[0], 0, 1);
        let s1 = switched(s0, control@[1], 2, 3);
        let s2 = switched(s1, control@[2], 4, 5);
        lemma_switched_keeps_items(a@, control@[0], 0, 1);
        lemma_switched_keeps_items(s0, control@[1], 2, 3);
        lemma_switched_keeps_items(s1, control@[2], 4, 5);
        lemma_switched_keeps_items(s2, control@[3], 6, 7);
        lemma_interleaved_keeps_items(s3, interim_1@, interim_2@);
        let mid = out@;
        let t0 = switched(mid, control@[14], 0, 1);
        let t1 = switched(t0, control@[15], 2, 3);
        lemma_switched_keeps_items(mid, control@[14], 0, 1);
        lemma_switched_keeps_items(t0, control@[15], 2, 3);
        lemma_switched_keeps_items(t1, control@[16], 4, 5);
    }
    switch(&mut out, control[14], 0, 1);
    switch(&mut out, control[15], 2, 3);
    switch(&mut out, control[16], 4, 5);
    out
}

/// What the network of eight switches makes of five items.
pub open spec fn network_5<T>(a: Seq<T>, control: Seq<bool>) -> Seq<T> {
    let s0 = switched(a, control[0], 0, 1);
    let s1 = switched(s0, control[1], 2, 3);
    let s2 = switched(s1, control[2], 0, 2);
    let s3 = switched(s2, control[3], 1, 3);
    let s4 = switched(s3, control[4], 3, 4);
    let s5 = switched(s4, control[5], 1, 3);
    let s6 = switched(s5, control[6], 0, 1);
    switched(s6, control[7], 2, 3)
}

/// Permutes five items by a network of eight switches.
pub fn walksman_permutation_5<T: Default + Copy + Sized>(a: &[T; 5], control: &[bool]) -> (out: [T;
    5])
    requires
        control.len() >= 8,
    ensures
        out@ == network_5(a@, control@),
        out@.to_multiset() == a@.to_multiset(),
{
    let mut out = *a;
    switch(&mut out, control[0], 0, 1);
    switch(&mut out, control[1], 2, 3);
    switch(&mut out, control[2], 0, 2);
    switch(&mut out, control[3], 1, 3);
    switch(&mut out, control[4], 3, 4);
    switch(&mut out, control[5], 1, 3);
    switch(&mut out, control[6], 0, 1);
    switch(&mut out, control[7], 2, 3);
    proof {
        let s0 = switched(a@, control@[0], 0, 1);
        let s1 = switched(s0, control@[1], 2, 3);
        let s2 = switched(s1, control@[2], 0, 2);
        let s3 = switched(s2, control@[3], 1, 3);
        let s4 = switched(s3, control@[4], 3, 4);
        let s5 = switched(s4, control@[5], 1, 3);
        let s6 = switched(s5, control@[6], 0, 1);
        lemma_switched_keeps_items(a@, control@[0], 0, 1);
        lemma_switched_keeps_items(s0, control@[1], 2, 3);
        lemma_switched_keeps_items(s1, control@[2], 0, 2);
        lemma_switched_keeps_items(s2, control@[3], 1, 3);
        lemma_switched_keeps_items(s3, control@[4], 3, 4);
        lemma_switched_keeps_items(s4, control@[5], 1, 3);
        lemma_switched_keeps_items(s5, control@[6], 0, 1);
        lemma_switched_keeps_items(s6, control@[7], 2, 3);
    }
    out
}

/// What the network of twenty-five switches makes of ten items.
pub open spec fn network_10<T>(a: Seq<T>, control: Seq<bool>) -> Seq<T> {
    let s0 = switched(a, control[0], 0, 1);
    let s1 = switched(s0, control[1], 2, 3);
    let s2 = switched(s1, control[2], 4, 5);
    let s3 = switched(s2, control[3], 6, 7);
    let s4 = switched(s3, control[4], 8, 9);
    let mid = interleaved(
        network_5(every_other(s4, 0), control.skip(5)),
        network_5(every_other(s4, 1), control.skip(13)),
    );
    let t0 = switched(mid, control[21], 0, 1);
    let t1 = switched(t0, control[22], 2, 3);
    let t2 = switched(t1, control[23], 4, 5);
    switched(t2, control[24], 6, 7)
}

/// Permutes ten items by a network of twenty-five switches: five exchange
/// neighbours, the items at the even places and those at the odd places
/// each pass a network for five, and four exchange neighbours again.
pub fn walksman_permutation_10<T: Default + Copy + Sized>(a: &[T; 10], control: &[bool]) -> (out:
    [T; 10])
    requires
        control.len() >= 25,
    ensures
        out@ == network_10(a@, control@),
        out@.to_multiset() == a@.to_multiset(),
{
    let mut out = *a;
    switch(&mut out, control[0], 0, 1);
    switch(&mut out, control[1], 2, 3);
    switch(&mut out, control[2], 4, 5);
    switch(&mut out, control[3], 6, 7);
    switch(&mut out, control[4], 8, 9);
    let ghost s4 = out@;
    let first_half: [T; 5] = [out[0], out[2], out[4], out[6], out[8]];
    let second_half: [T; 5] = [out[1], out[3], out[5], out[7], out[9]];
    let interim_1 = walksman_permutation_5(&first_half, slice_subrange(control, 5, control.len()));
    let interim_2 = walksman_permutation_5(
        &second_half,
        slice_subrange(control, 13, control.len()),
    );
    proof {
        assert(first_half@ =~= every_other(s4, 0));
        assert(second_half@ =~= every_other(s4, 1));
        assert(control@.subrange(5, control.len() as int) == control@.skip(5));
        assert(control@.subrange(13, control.len() as int) == control@.skip(13));
    }
    let mut i: usize = 0;
    while i < 10
        invariant
            i <= 10,
            forall|k: int|
                0 <= k < i ==> out@[k] == interleaved(interim_1@, interim_2@)[k],
        decreases 10 - i,
    {
        if i % 2 == 0 {
            out[i] = interim_1[i / 2];
        } else {
            out[i] = interim_2[i / 2];
        }
        i += 1;
    }
    proof {
        assert(out@ =~= interleaved(interim_1@, interim_2@));
        let s0 = switched(a@, control@[0], 0, 1);
        let s1 = switched(s0, control@[1], 2, 3);
        let s2 = switched(s1, control@[2], 4, 5);
        let s3 = switched(s2, control@[3], 6, 7);
        lemma_switched_keeps_items(a@, control@[0], 0, 1);
        lemma_switched_keeps_items(s0, control@[1], 2, 3);
        lemma_switched_keeps_items(s1, control@[2], 4, 5);
        lemma_switched_keeps_items(s2, control@[3], 6, 7);
        lemma_switched_keeps_items(s3, control@[4], 8, 9);
        lemma_interleaved_keeps_items(s4, interim_1@, interim_2@);
        let mid = out@;
        let t0 = switched(mid, control@[21], 0, 1);
        let t1 = switched(t0, control@[22], 2, 3);
        let t2 = switched(t1, control@[23], 4, 5);
        lemma_switched_keeps_items(mid, control@[21], 0, 1);
        lemma_switched_keeps_items(t0, control@[22], 2, 3);
        lemma_switched_keeps_items(t1, control@[23], 4, 5);
        lemma_switched_keeps_items(t2, control@[24], 6, 7);
    }
    switch(&mut out, control[21], 0, 1);
    switch(&mut out, control[22], 2, 3);
    switch(&mut out, control[23], 4, 5);
    switch(&mut out, control[24], 6, 7);
    out
}

/// The place in the array from which a riffle takes the item for place
/// `i`: the array is cut in two halves, and the places are filled in turn
/// from the two, beginning with the first half if `even` holds and with
/// the second if not.  Of an odd number of items the half that begins has
/// one item more.
pub open spec fn riffle_source(n: int, even: bool, i: int) -> int {
    let half = n / 2;
    if n % 2 == 1 {
        if even {
            if i % 2 == 0 {
                i / 2
            } else {
                half + 1 + i / 2
            }
        } else {
            if i % 2 == 0 {
                half + i / 2
            } else {
                i / 2
            }
        }
    } else {
        if even == (i % 2 == 0) {
            i / 2
        } else {
            half + i / 2
        }
    }
}

/// The riffle takes each item once.
pub proof fn lemma_riffle_is_permutation(n: int, even: bool, i: int, j: int)
    requires
        0 <= i < n,
        0 <= j < n,
    ensures
        0 <= riffle_source(n, even, i) < n,
        i != j ==> riffle_source(n, even, i) != riffle_source(n, even, j),
{
}

/// Performs a riffle shuffle on a fixed-size array: the array is cut in
/// two halves that are then interleaved.
pub fn riffle_shuffle<const N_IN: usize, T: Default + Copy>(a: &[T; N_IN], even: bool) -> (out: [T;
    N_IN])
    ensures
        forall|i: int| 0 <= i < N_IN ==> out@[i] == a@[riffle_source(N_IN as int, even, i)],
{
    let mut out = *a;
    let half_point: usize = N_IN / 2;
    let odd = N_IN % 2 == 1;
    let mut i: usize = 0;
    while i < N_IN
        invariant
            i <= N_IN,
            half_point == N_IN / 2,
            odd == (N_IN % 2 == 1),
            forall|k: int| 0 <= k < i ==> out@[k] == a@[riffle_source(N_IN as int, even, k)],
        decreases N_IN - i,
    {
        let from_first = if odd {
            even == (i % 2 == 0)
        } else {
            even == (i % 2 == 0)
        };
        let source = if from_first {
            i / 2
        } else if odd && even {
            half_point + 1 + i / 2
        } else {
            half_point + i / 2
        };
        proof {
            lemma_riffle_is_permutation(N_IN as int, even, i as int, i as int);
            assert(source == riffle_source(N_IN as int, even, i as int));
        }
        out[i] = a[source];
        i += 1;
    }
    out
}

/// The sequence turned by `k` places to the left.
pub open spec fn rotated<T>(s: Seq<T>, k: int) -> Seq<T> {
    s.skip(k) + s.take(k)
}

/// Turns the array by one place to the left.
fn rotate_left_one<T: Copy, const N: usize>(a: &mut [T; N])
    requires
        N >= 1,
    ensures
        final(a)@ == rotated(old(a)@, 1),
{
    let first = a[0];
    let mut i: usize = 0;
    while i + 1 < N
        invariant
            i < N,
            first == old(a)@[0],
            forall|k: int| 0 <= k < i ==> a@[k] == old(a)@[k + 1],
            forall|k: int| i <= k < N ==> a@[k] == old(a)@[k],
        decreases N - i,
    {
        a[i] = a[i + 1];
        i += 1;
    }
    a[N - 1] = first;
    proof {
        assert(a@ =~= rotated(old(a)@, 1));
    }
}

/// The state of the register after one step: the bits move up by one
/// place, and the lowest bit is the sum of the bits 15, 13, 12 and 10.
pub open spec fn lfsr16_step(state: u16) -> u16 {
    (state << 1) | (((state >> 15) & 1) ^ ((state >> 13) & 1) ^ ((state >> 12) & 1) ^ ((state
        >> 10) & 1))
}

/// A shift register of sixteen bits with linear feedback.
#[derive(Clone, Copy, Debug)]
pub struct LFSR16 {
    pub state: u16,
}

impl LFSR16 {
    pub fn new(seed: u16) -> (r: Self)
        ensures
            r.state == seed,
    {
        Self { state: seed }
    }

    /// The state of the register, which then makes one step.
    pub fn sample(&mut self) -> (out: u16)
        ensures
            out == old(self).state,
            final(self).state == lfsr16_step(old(self).state),
    {
        let old = self.state;
        let new_bit = ((self.state >> 15) & 1) ^ ((self.state >> 13) & 1) ^ ((self.state >> 12)
            & 1) ^ ((self.state >> 10) & 1);
        self.state = (self.state << 1) | new_bit;
        old
    }

    /// Riffles the array, beginning with the first half if the lowest bit
    /// of the register is set, and turns it by one place if the bit 4 is
    /// set; the register makes one step.
    pub fn riffle_array<const N_IN: usize, T: Default + Copy>(&mut self, a: &[T; N_IN]) -> (out: [T;
        N_IN])
        requires
            N_IN >= 1,
        ensures
            final(self).state == lfsr16_step(old(self).state),
            forall|i: int|
                0 <= i < N_IN ==> out@[i] == a@[riffle_source(
                    N_IN as int,
                    (old(self).state & 1) == 1,
                    if ((old(self).state >> 4) & 1) == 1 {
                        (i + 1) % (N_IN as int)
                    } else {
                        i
                    },
                )],
    {
        let state = self.sample();
        let mut out = riffle_shuffle(a, (state & 1) == 1);
        if ((state >> 4) & 1) == 1 {
            let ghost riffled = out@;
            rotate_left_one(&mut out);
            proof {
                assert forall|i: int| 0 <= i < N_IN implies out@[i] == riffled[(i + 1) % (
                N_IN as int)] by {
                    if i + 1 < N_IN {
                        vstd::arithmetic::div_mod::lemma_small_mod((i + 1) as nat, N_IN as nat);
                        assert(out@[i] == riffled.skip(1)[i]);
                    } else {
                        vstd::arithmetic::div_mod::lemma_mod_self_0(N_IN as int);
                        assert(out@[i] == riffled.take(1)[0]);
                    }
                }
            }
        }
        out
    }

    /// Permutes four items by the network of five switches, set by the
    /// lowest bits of five states of the register.
    pub fn permute_4<T: Default + Copy>(&mut self, a: &[T; 4]) -> (out: [T; 4])
        ensures
            out@.to_multiset() == a@.to_multiset(),
            out@ == network_4(a@, lfsr16_bits(old(self).state, 5)),
            final(self).state == lfsr16_after(old(self).state, 5),
    {
        let mut control: Vec<bool> = Vec::new();
        let mut i: usize = 0;
        while i < 5
            invariant
                i <= 5,
                control.len() == i,
                control@ == lfsr16_bits(old(self).state, i as nat),
                self.state == lfsr16_after(old(self).state, i as nat),
            decreases 5 - i,
        {
            let state = self.sample();
            control.push((state & 1) == 1);
            i += 1;
            proof {
                reveal_with_fuel(lfsr16_bits, 2);
                reveal_with_fuel(lfsr16_after, 2);
            }
        }
        walksman_permutation_4(a, control.as_slice())
    }
}

/// The state of the register after `n` steps.
pub open spec fn lfsr16_after(state: u16, n: nat) -> u16
    decreases n,
{
    if n == 0 {
        state
    } else {
        lfsr16_step(lfsr16_after(state, (n - 1) as nat))
    }
}

/// The lowest bits of the first `n` states of the register.
pub open spec fn lfsr16_bits(state: u16, n: nat) -> Seq<bool>
    decreases n,
{
    if n == 0 {
        Seq::empty()
    } else {
        lfsr16_bits(state, (n - 1) as nat).push((lfsr16_after(state, (n - 1) as nat) & 1) == 1)
    }
}

} // verus!
