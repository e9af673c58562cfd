//! How candidate blocks are sampled, and from which control functions.
use crate::circuit::cf::Base2GateControlFunc;
use crate::random::RandomSource;
use vstd::prelude::*;

verus! {

/// The way in which candidate blocks are sampled.
#[derive(Clone, Copy, Debug, PartialEq, Eq, Structural)]
pub enum ReplacementStrategy {
    /// Every wire of a candidate is random.
    SampleUnguided,
    /// The wires on which the block depends are placed first.
    SampleActive0,
    /// No search: the block is replaced by gates that do nothing.
    Dummy,
}

impl ReplacementStrategy {
    pub fn from_u8(value: u8) -> (s: Option<Self>)
        ensures
            s == match value {
                0 => Some(Self::SampleUnguided),
                1 => Some(Self::SampleActive0),
                2 => Some(Self::Dummy),
                _ => None,
            },
    {
        match value {
            0 => Some(Self::SampleUnguided),
            1 => Some(Self::SampleActive0),
            2 => Some(Self::Dummy),
            _ => None,
        }
    }
}

impl Default for ReplacementStrategy {
    fn default() -> (s: Self)
        ensures
            s == Self::SampleActive0,
    {
        Self::SampleActive0
    }
}

/// The set of control functions from which the gates of a candidate are
/// drawn.
#[derive(Clone, Copy, Debug, PartialEq, Eq, Structural)]
pub enum ControlFnChoice {
    /// All sixteen functions.
    All,
    /// All but the constant false, with which a gate does nothing.
    NoIdentity,
    /// One function of each class under exchange of the two controls.
    OnlyUnique,
    /// `OnlyUnique` without the constant true.
    UniqueNo0Bit,
    /// The functions that depend on both controls.
    TwoBit,
}

impl ControlFnChoice {
    /// The codes of the functions of this choice.
    pub open spec fn codes(self) -> Seq<u8> {
        match self {
            Self::All => Seq::new(16, |i: int| i as u8),
            Self::NoIdentity => Seq::new(15, |i: int| (i + 1) as u8),
            Self::OnlyUnique => seq![15u8, 3, 12, 1, 4, 7, 13, 6, 9, 14, 8],
            Self::UniqueNo0Bit => seq![3u8, 12, 1, 4, 7, 13, 6, 9, 14, 8],
            Self::TwoBit => seq![1u8, 2, 4, 6, 7, 8, 9, 11, 13, 14],
        }
    }

    /// Every choice holds a function, and every code of a choice is the code
    /// of a function.
    pub proof fn lemma_codes(self)
        ensures
            self.codes().len() > 0,
            forall|i: int|
                0 <= i < self.codes().len() ==> (#[trigger] self.codes()[i])
                    < Base2GateControlFunc::COUNT,
    {
    }

    pub fn cfs(&self) -> (list: Vec<u8>)
        ensures
            list@ == self.codes(),
    {
        match self {
            Self::All => code_range(0),
            Self::NoIdentity => code_range(1),
            Self::OnlyUnique => {
                let list = vec![15u8, 3, 12, 1, 4, 7, 13, 6, 9, 14, 8];
                assert(list@ =~= self.codes());
                list
            },
            Self::UniqueNo0Bit => {
                let list = vec![3u8, 12, 1, 4, 7, 13, 6, 9, 14, 8];
                assert(list@ =~= self.codes());
                list
            },
            Self::TwoBit => {
                let list = vec![1u8, 2, 4, 6, 7, 8, 9, 11, 13, 14];
                assert(list@ =~= self.codes());
                list
            },
        }
    }

    /// What `random_cf` gives with a replayable source, and the source
    /// after it: the code at the place that the source draws.
    pub open spec fn drawn_cf<R: RandomSource>(self, rng: R) -> (u8, R) {
        let count = self.codes().len() as usize;
        (self.codes()[rng.next_draw(count) as int], rng.after_draw(count))
    }

    /// A code of this choice, picked by one draw from `rng`.
    pub fn random_cf<R: RandomSource>(&self, rng: &mut R) -> (cf: u8)
        ensures
            self.codes().contains(cf),
            cf < Base2GateControlFunc::COUNT,
            final(rng).replayable() == old(rng).replayable(),
            old(rng).replayable() ==> (cf, *final(rng)) == self.drawn_cf(*old(rng)),
    {
        let list = self.cfs();
        proof {
            self.lemma_codes();
        }
        let k = rng.below(list.len());
        list[k]
    }

    pub fn from_u8(value: u8) -> (c: Option<Self>)
        ensures
            c == match value {
                0 => Some(Self::All),
                1 => Some(Self::NoIdentity),
                2 => Some(Self::OnlyUnique),
                _ => None,
            },
    {
        match value {
            0 => Some(Self::All),
            1 => Some(Self::NoIdentity),
            2 => Some(Self::OnlyUnique),
            _ => None,
        }
    }
}

impl Default for ControlFnChoice {
    fn default() -> (c: Self)
        ensures
            c == Self::OnlyUnique,
    {
        Self::OnlyUnique
    }
}

/// The codes from `first` up to the last one.
fn code_range(first: u8) -> (list: Vec<u8>)
    requires
        first <= Base2GateControlFunc::COUNT,
    ensures
        list@ == Seq::new((Base2GateControlFunc::COUNT - first) as nat, |i: int| (i + first) as u8),
{
    let mut list: Vec<u8> = Vec::new();
    let mut cf = first;
    while cf < Base2GateControlFunc::COUNT
        invariant
            first <= cf <= Base2GateControlFunc::COUNT,
            list@ == Seq::new((cf - first) as nat, |i: int| (i + first) as u8),
        decreases Base2GateControlFunc::COUNT - cf,
    {
        list.push(cf);
        cf += 1;
        assert(list@ =~= Seq::new((cf - first) as nat, |i: int| (i + first) as u8));
    }
    list
}

} // verus!
