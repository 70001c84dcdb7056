//! Small state holders used by the terminal front end: a tab selector, a
//! bounded scroll position and an integer modulo `p`.

pub mod event;

pub use event::Event;
pub use event::Key;
use vstd::prelude::*;

verus! {

/// Titles of a tab bar and the index of the selected one.
pub struct TabsState<'a> {
    pub titles: Vec<&'a str>,
    pub index: usize,
}

impl<'a> TabsState<'a> {
    /// A tab bar with the first title selected.
    pub fn new(titles: Vec<&'a str>) -> (tabs: TabsState<'a>)
        ensures
            tabs.titles == titles,
            tabs.index == 0,
    {
        TabsState { titles, index: 0 }
    }

    /// Selects the tab to the right, going from the last one to the first.
    pub fn next(&mut self)
        requires
            old(self).titles.len() > 0,
            old(self).index < usize::MAX,
        ensures
            final(self).titles == old(self).titles,
            final(self).index == (old(self).index + 1) % (old(self).titles.len() as int),
            final(self).index < final(self).titles.len(),
    {
        self.index = (self.index + 1) % self.titles.len();
    }

    /// Selects the tab to the left, going from the first one to the last.
    pub fn previous(&mut self)
        requires
            old(self).index == 0 ==> old(self).titles.len() > 0,
        ensures
            final(self).titles == old(self).titles,
            old(self).index > 0 ==> final(self).index == old(self).index - 1,
            old(self).index == 0 ==> final(self).index == old(self).titles.len() - 1,
    {
        if self.index > 0 {
            self.index -= 1;
        } else {
            self.index = self.titles.len() - 1;
        }
    }
}

/// A scroll position that stays between `0` and a maximum.
pub struct Scroll {
    v: u64,
    max: u64,
}

impl Scroll {
    /// The current position, as a mathematical integer.
    pub closed spec fn position(&self) -> nat {
        self.v as nat
    }

    /// The largest position that can be reached.
    pub closed spec fn limit(&self) -> nat {
        self.max as nat
    }

    #[verifier::type_invariant]
    spec fn in_range(&self) -> bool {
        self.v <= self.max
    }

    /// A scroll position at `0` with the given maximum.
    pub fn new(max: u64) -> (scroll: Self)
        ensures
            scroll.position() == 0,
            scroll.limit() == max,
    {
        Self { v: 0, max }
    }

    pub fn val(&self) -> (v: u64)
        ensures
            v == self.position(),
            v <= self.limit(),
    {
        proof {
            use_type_invariant(self);
        }
        self.v
    }

    /// Moves one step forward; from the maximum the position returns to `0`.
    pub fn inc(&mut self)
        ensures
            final(self).limit() == old(self).limit(),
            final(self).position() == if old(self).position() == old(self).limit() {
                0
            } else {
                old(self).position() + 1
            },
    {
        proof {
            use_type_invariant(&*self);
        }
        if self.v >= self.max {
            self.v = 0;
        } else {
            self.v = self.v + 1;
        }
    }

    /// Moves one step back; from `0` the position goes to the maximum.
    pub fn dec(&mut self)
        ensures
            final(self).limit() == old(self).limit(),
            final(self).position() == if old(self).position() == 0 {
                old(self).limit()
            } else {
                (old(self).position() - 1) as nat
            },
    {
        proof {
            use_type_invariant(&*self);
        }
        if self.v == 0 {
            self.v = self.max;
        } else {
            self.v = self.v - 1;
        }
    }
}

/// A residue modulo `p`, held as a `u64`.
#[derive(Debug, Clone, Copy)]
pub struct ModInt {
    p: u64,
    value: u64,
}

impl ModInt {
    /// The modulus.
    pub closed spec fn modulus(self) -> nat {
        self.p as nat
    }

    /// The value held.
    pub closed spec fn residue(self) -> nat {
        self.value as nat
    }

    /// The `ModInt` with the given modulus and value, for contracts.
    pub closed spec fn of(p: nat, value: nat) -> ModInt {
        ModInt { p: p as u64, value: value as u64 }
    }

    /// `of` builds the `ModInt` with the given modulus and value, and a
    /// `ModInt` is determined by the two.
    pub proof fn lemma_of(p: nat, value: nat)
        requires
            p <= u64::MAX,
            value <= u64::MAX,
        ensures
            Self::of(p, value).modulus() == p,
            Self::of(p, value).residue() == value,
            forall|m: ModInt| m.modulus() == p && m.residue() == value ==> m == Self::of(p, value),
    {
    }

    pub fn new(p: u64, value: u64) -> (m: Self)
        ensures
            m.modulus() == p,
            m.residue() == value,
            m == Self::of(p as nat, value as nat),
    {
        Self { p, value }
    }

    pub fn val(&self) -> (v: u64)
        ensures
            v == self.residue(),
    {
        self.value
    }

    /// Adds one modulo `p`.
    pub fn inc(&mut self)
        requires
            old(self).modulus() > 0,
            old(self).residue() < u64::MAX,
        ensures
            final(self).modulus() == old(self).modulus(),
            final(self).residue() == (old(self).residue() + 1) % old(self).modulus(),
    {
        *self = *self + ModInt::new(self.p, 1);
    }

    /// Subtracts one modulo `p`: adds `p - 1` and reduces.
    pub fn dec(&mut self)
        requires
            old(self).modulus() > 0,
            old(self).residue() + old(self).modulus() - 1 <= u64::MAX,
        ensures
            final(self).modulus() == old(self).modulus(),
            final(self).residue() == (old(self).residue() + old(self).modulus() - 1)
                % (old(self).modulus() as int),
    {
        *self = *self - ModInt::new(self.p, 1);
    }
}

impl vstd::std_specs::ops::AddSpecImpl for ModInt {
    open spec fn obeys_add_spec() -> bool {
        true
    }

    /// The modulus of the left operand is not zero and the sum of the two
    /// values fits in a `u64`.
    open spec fn add_req(self, rhs: ModInt) -> bool {
        self.modulus() > 0 && self.residue() + rhs.residue() <= u64::MAX
    }

    /// The sum of the two values, reduced by the modulus of the left operand,
    /// which the result keeps.
    open spec fn add_spec(self, rhs: ModInt) -> ModInt {
        ModInt::of(self.modulus(), (self.residue() + rhs.residue()) % self.modulus())
    }
}

impl core::ops::Add for ModInt {
    type Output = Self;

    fn add(self, rhs: Self) -> (sum: Self) {
        let mut sum = self;
        sum.value += rhs.value;
        sum.value %= sum.p;
        sum
    }
}

impl vstd::std_specs::ops::SubSpecImpl for ModInt {
    open spec fn obeys_sub_spec() -> bool {
        true
    }

    /// The modulus of the left operand is not zero, the right value is at
    /// most that modulus, and the left value plus the complement of the right
    /// one fits in a `u64`.
    open spec fn sub_req(self, rhs: ModInt) -> bool {
        &&& self.modulus() > 0
        &&& rhs.residue() <= self.modulus()
        &&& self.residue() + self.modulus() - rhs.residue() <= u64::MAX
    }

    /// The left value plus the complement of the right one to the modulus of
    /// the left operand, reduced by that modulus, which the result keeps.
    open spec fn sub_spec(self, rhs: ModInt) -> ModInt {
        ModInt::of(
            self.modulus(),
            ((self.residue() + self.modulus() - rhs.residue()) % (self.modulus() as int)) as nat,
        )
    }
}

impl core::ops::Sub for ModInt {
    type Output = Self;

    fn sub(self, rhs: Self) -> (difference: Self) {
        let mut complement = rhs;
        let n: u64 = self.p - rhs.value;
        complement.value = n;
        self + complement
    }
}

} // verus!
