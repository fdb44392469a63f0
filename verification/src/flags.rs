//! The state flags of a package and the sets that hold them.
//!
//! A set of flags is one `u16`, with one bit for each flag. Contracts speak of
//! a set through its view, a mathematical set of flags.

use vstd::prelude::*;

verus! {

/// A fine-grained condition of one package with regard to a release.
#[derive(Clone, Copy, Debug, PartialEq, Eq, Hash, Structural)]
pub enum CrateStateFlags {
    /// The name matches the selection filter.
    Matched,
    /// Some matched package depends on it, directly or through others.
    IsWorkspaceDependency,
    /// A tag of an earlier release exists.
    HasPreviousRelease,
    /// Files of the package differ between that tag and the current head.
    ChangedSincePreviousRelease,
    /// The package has no changelog.
    MissingChangelog,
    /// The package has no readme.
    MissingReadme,
    /// The changelog's front matter marks the package as unreleasable.
    UnreleasableViaChangelogFrontmatter,
    /// The version fails a requirement that is enforced.
    EnforcedVersionReqViolated,
    /// The version meets a requirement that is disallowed.
    DisallowedVersionReqViolated,
}

/// A decision that is derived from the state flags of a package.
#[derive(Clone, Copy, Debug, PartialEq, Eq, Hash, Structural)]
pub enum MetaCrateStateFlags {
    /// No blocking flag is left once the forgiven ones are taken away.
    Allowed,
    /// Some blocking flag is set.
    Blocked,
    /// There is something to release.
    Changed,
    /// The package is matched or a dependency of a matched one.
    Selected,
}

/// The bits that stand for a flag, all of them.
pub const ALL_FLAG_BITS: u16 = 0x1ff;

/// The bits of the flags that block a release.
pub const BLOCKING_BITS: u16 = 0x1f0;

/// Exactly one bit of `x` is set.
pub open spec fn single_bit(x: u16) -> bool {
    x == 0x1 || x == 0x2 || x == 0x4 || x == 0x8 || x == 0x10 || x == 0x20 || x == 0x40 || x
        == 0x80 || x == 0x100 || x == 0x200 || x == 0x400 || x == 0x800 || x == 0x1000 || x
        == 0x2000 || x == 0x4000 || x == 0x8000
}

proof fn lemma_single_bit_ops(b: u16, c: u16, x: u16, y: u16)
    requires
        single_bit(x),
        single_bit(y),
    ensures
        ((b | x) & y != 0) <==> (b & y != 0 || x == y),
        ((b | c) & y != 0) <==> (b & y != 0 || c & y != 0),
        ((b & c) & y != 0) <==> (b & y != 0 && c & y != 0),
        ((b & !c) & y != 0) <==> (b & y != 0 && c & y == 0),
        ((b & !x) & y != 0) <==> (b & y != 0 && x != y),
        (x & y != 0) <==> x == y,
        0u16 & y == 0,
{
    assert(single_bit(x) && single_bit(y) ==> ((((b | x) & y != 0) <==> (b & y != 0 || x == y))
        && (((b | c) & y != 0) <==> (b & y != 0 || c & y != 0)) && (((b & c) & y != 0) <==> (b & y
        != 0 && c & y != 0)) && (((b & !c) & y != 0) <==> (b & y != 0 && c & y == 0)) && (((b
        & !x) & y != 0) <==> (b & y != 0 && x != y)) && ((x & y != 0) <==> x == y) && 0u16 & y
        == 0)) by (bit_vector);
}

impl CrateStateFlags {
    /// The bit that stands for the flag: the flags take the bits from the
    /// lowest on, in the order of their declaration.
    pub open spec fn spec_bit(self) -> u16 {
        match self {
            CrateStateFlags::Matched => 0x1,
            CrateStateFlags::IsWorkspaceDependency => 0x2,
            CrateStateFlags::HasPreviousRelease => 0x4,
            CrateStateFlags::ChangedSincePreviousRelease => 0x8,
            CrateStateFlags::MissingChangelog => 0x10,
            CrateStateFlags::MissingReadme => 0x20,
            CrateStateFlags::UnreleasableViaChangelogFrontmatter => 0x40,
            CrateStateFlags::EnforcedVersionReqViolated => 0x80,
            CrateStateFlags::DisallowedVersionReqViolated => 0x100,
        }
    }

    /// The flag blocks a release unless it is forgiven.
    pub open spec fn is_blocking(self) -> bool {
        self == CrateStateFlags::MissingChangelog || self == CrateStateFlags::MissingReadme || self
            == CrateStateFlags::UnreleasableViaChangelogFrontmatter || self
            == CrateStateFlags::EnforcedVersionReqViolated || self
            == CrateStateFlags::DisallowedVersionReqViolated
    }

    /// The bit that stands for the flag.
    #[verifier::when_used_as_spec(spec_bit)]
    pub fn bit(self) -> (b: u16)
        ensures
            b == self.spec_bit(),
    {
        match self {
            CrateStateFlags::Matched => 0x1,
            CrateStateFlags::IsWorkspaceDependency => 0x2,
            CrateStateFlags::HasPreviousRelease => 0x4,
            CrateStateFlags::ChangedSincePreviousRelease => 0x8,
            CrateStateFlags::MissingChangelog => 0x10,
            CrateStateFlags::MissingReadme => 0x20,
            CrateStateFlags::UnreleasableViaChangelogFrontmatter => 0x40,
            CrateStateFlags::EnforcedVersionReqViolated => 0x80,
            CrateStateFlags::DisallowedVersionReqViolated => 0x100,
        }
    }

    /// The set that holds no flag.
    pub fn empty_set() -> (set: FlagSet)
        ensures
            set@ == Set::<CrateStateFlags>::empty(),
    {
        FlagSet::empty()
    }
}

/// A set of state flags.
#[derive(Clone, Copy, Debug, PartialEq, Eq, Hash, Structural)]
pub struct FlagSet {
    bits: u16,
}

impl View for FlagSet {
    type V = Set<CrateStateFlags>;

    closed spec fn view(&self) -> Set<CrateStateFlags> {
        Set::new(|f: CrateStateFlags| self.bits & f.spec_bit() != 0)
    }
}

/// The flags that block a release.
pub open spec fn blocking_states() -> Set<CrateStateFlags> {
    Set::new(|f: CrateStateFlags| f.is_blocking())
}

impl FlagSet {
    /// The set that holds no flag.
    pub fn empty() -> (set: FlagSet)
        ensures
            set@ == Set::<CrateStateFlags>::empty(),
    {
        let set = FlagSet { bits: 0 };
        proof {
            assert forall|f: CrateStateFlags| !set@.contains(f) by {
                lemma_single_bit_ops(0, 0, f.spec_bit(), f.spec_bit());
            }
            assert(set@ =~= Set::<CrateStateFlags>::empty());
        }
        set
    }

    /// The set of the flags that block a release.
    pub fn blocking() -> (set: FlagSet)
        ensures
            set@ == blocking_states(),
    {
        let set = FlagSet { bits: BLOCKING_BITS };
        proof {
            assert forall|f: CrateStateFlags| set@.contains(f) == f.is_blocking() by {
                let y = f.spec_bit();
                assert(single_bit(y) ==> ((0x1f0u16 & y != 0) <==> (y == 0x10 || y == 0x20 || y
                    == 0x40 || y == 0x80 || y == 0x100))) by (bit_vector);
            }
            assert(set@ =~= blocking_states());
        }
        set
    }

    /// The set that holds the given flags and no other.
    pub fn from_flags(flags: &[CrateStateFlags]) -> (set: FlagSet)
        ensures
            set@ == flags@.to_set(),
    {
        let mut set = FlagSet::empty();
        let mut i: usize = 0;
        while i < flags.len()
            invariant
                i <= flags.len(),
                forall|f: CrateStateFlags|
                    set@.contains(f) <==> exists|j: int| 0 <= j < i && flags@[j] == f,
            decreases flags.len() - i,
        {
            set.insert(flags[i]);
            i += 1;
        }
        proof {
            assert forall|f: CrateStateFlags| set@.contains(f) == flags@.to_set().contains(f) by {
                if flags@.contains(f) {
                    let j = choose|j: int| 0 <= j < flags@.len() && flags@[j] == f;
                    assert(0 <= j < i && flags@[j] == f);
                }
            }
            assert(set@ =~= flags@.to_set());
        }
        set
    }

    /// Adds one flag.
    pub fn insert(&mut self, flag: CrateStateFlags)
        ensures
            final(self)@ == old(self)@.insert(flag),
    {
        let ghost before = *self;
        self.bits = self.bits | flag.bit();
        proof {
            assert forall|f: CrateStateFlags|
                self@.contains(f) == before@.insert(flag).contains(f) by {
                lemma_single_bit_ops(before.bits, 0, flag.spec_bit(), f.spec_bit());
            }
            assert(self@ =~= before@.insert(flag));
        }
    }

    /// Adds every flag of `other`.
    pub fn extend(&mut self, other: FlagSet)
        ensures
            final(self)@ == old(self)@.union(other@),
    {
        let ghost before = *self;
        self.bits = self.bits | other.bits;
        proof {
            assert forall|f: CrateStateFlags|
                self@.contains(f) == before@.union(other@).contains(f) by {
                lemma_single_bit_ops(before.bits, other.bits, f.spec_bit(), f.spec_bit());
            }
            assert(self@ =~= before@.union(other@));
        }
    }

    /// Takes away every flag of `other`.
    pub fn remove(&mut self, other: FlagSet)
        ensures
            final(self)@ == old(self)@.difference(other@),
    {
        let ghost before = *self;
        self.bits = self.bits & !other.bits;
        proof {
            assert forall|f: CrateStateFlags|
                self@.contains(f) == before@.difference(other@).contains(f) by {
                lemma_single_bit_ops(before.bits, other.bits, f.spec_bit(), f.spec_bit());
            }
            assert(self@ =~= before@.difference(other@));
        }
    }

    /// The flags that are in both sets.
    pub fn intersection(self, other: FlagSet) -> (set: FlagSet)
        ensures
            set@ == self@.intersect(other@),
    {
        let set = FlagSet { bits: self.bits & other.bits };
        proof {
            assert forall|f: CrateStateFlags|
                set@.contains(f) == self@.intersect(other@).contains(f) by {
                lemma_single_bit_ops(self.bits, other.bits, f.spec_bit(), f.spec_bit());
            }
            assert(set@ =~= self@.intersect(other@));
        }
        set
    }

    /// Whether the flag is in the set.
    pub fn contains(&self, flag: CrateStateFlags) -> (b: bool)
        ensures
            b == self@.contains(flag),
    {
        self.bits & flag.bit() != 0
    }

    /// Whether the set holds no flag.
    pub fn is_empty(&self) -> (b: bool)
        ensures
            b == (self@ == Set::<CrateStateFlags>::empty()),
    {
        let b = self.bits & ALL_FLAG_BITS == 0;
        proof {
            let bits = self.bits;
            if b {
                assert forall|f: CrateStateFlags| !self@.contains(f) by {
                    let y = f.spec_bit();
                    assert(bits & 0x1ff == 0 && (y == 0x1 || y == 0x2 || y == 0x4 || y == 0x8 || y
                        == 0x10 || y == 0x20 || y == 0x40 || y == 0x80 || y == 0x100) ==> bits & y
                        == 0) by (bit_vector);
                }
                assert(self@ =~= Set::<CrateStateFlags>::empty());
            } else {
                assert(bits & 0x1ff != 0 ==> (bits & 0x1 != 0 || bits & 0x2 != 0 || bits & 0x4 != 0
                    || bits & 0x8 != 0 || bits & 0x10 != 0 || bits & 0x20 != 0 || bits & 0x40 != 0
                    || bits & 0x80 != 0 || bits & 0x100 != 0)) by (bit_vector);
                let f = if bits & 0x1 != 0 {
                    CrateStateFlags::Matched
                } else if bits & 0x2 != 0 {
                    CrateStateFlags::IsWorkspaceDependency
                } else if bits & 0x4 != 0 {
                    CrateStateFlags::HasPreviousRelease
                } else if bits & 0x8 != 0 {
                    CrateStateFlags::ChangedSincePreviousRelease
                } else if bits & 0x10 != 0 {
                    CrateStateFlags::MissingChangelog
                } else if bits & 0x20 != 0 {
                    CrateStateFlags::MissingReadme
                } else if bits & 0x40 != 0 {
                    CrateStateFlags::UnreleasableViaChangelogFrontmatter
                } else if bits & 0x80 != 0 {
                    CrateStateFlags::EnforcedVersionReqViolated
                } else {
                    CrateStateFlags::DisallowedVersionReqViolated
                };
                assert(self@.contains(f));
            }
        }
        b
    }
}

/// Every state flag, lowest bit first.
pub open spec fn all_flags() -> Seq<CrateStateFlags> {
    seq![
        CrateStateFlags::Matched,
        CrateStateFlags::IsWorkspaceDependency,
        CrateStateFlags::HasPreviousRelease,
        CrateStateFlags::ChangedSincePreviousRelease,
        CrateStateFlags::MissingChangelog,
        CrateStateFlags::MissingReadme,
        CrateStateFlags::UnreleasableViaChangelogFrontmatter,
        CrateStateFlags::EnforcedVersionReqViolated,
        CrateStateFlags::DisallowedVersionReqViolated,
    ]
}

/// The first `n` state flags that are in `set`, lowest bit first.
pub open spec fn listed_flags(set: Set<CrateStateFlags>, n: int) -> Seq<CrateStateFlags>
    decreases n,
{
    if n <= 0 || n > all_flags().len() {
        Seq::empty()
    } else if set.contains(all_flags()[n - 1]) {
        listed_flags(set, n - 1).push(all_flags()[n - 1])
    } else {
        listed_flags(set, n - 1)
    }
}

/// Every meta flag, lowest bit first.
pub open spec fn all_meta_flags() -> Seq<MetaCrateStateFlags> {
    seq![
        MetaCrateStateFlags::Allowed,
        MetaCrateStateFlags::Blocked,
        MetaCrateStateFlags::Changed,
        MetaCrateStateFlags::Selected,
    ]
}

/// The first `n` meta flags that are in `set`, lowest bit first.
pub open spec fn listed_meta_flags(set: Set<MetaCrateStateFlags>, n: int) -> Seq<
    MetaCrateStateFlags,
>
    decreases n,
{
    if n <= 0 || n > all_meta_flags().len() {
        Seq::empty()
    } else if set.contains(all_meta_flags()[n - 1]) {
        listed_meta_flags(set, n - 1).push(all_meta_flags()[n - 1])
    } else {
        listed_meta_flags(set, n - 1)
    }
}

impl FlagSet {
    /// The flags of the set, lowest bit first.
    pub fn to_vec(&self) -> (flags: Vec<CrateStateFlags>)
        ensures
            flags@ == listed_flags(self@, 9),
    {
        let every = [
            CrateStateFlags::Matched,
            CrateStateFlags::IsWorkspaceDependency,
            CrateStateFlags::HasPreviousRelease,
            CrateStateFlags::ChangedSincePreviousRelease,
            CrateStateFlags::MissingChangelog,
            CrateStateFlags::MissingReadme,
            CrateStateFlags::UnreleasableViaChangelogFrontmatter,
            CrateStateFlags::EnforcedVersionReqViolated,
            CrateStateFlags::DisallowedVersionReqViolated,
        ];
        assert(every@ =~= all_flags());
        let mut flags: Vec<CrateStateFlags> = Vec::new();
        let mut i: usize = 0;
        while i < 9
            invariant
                i <= 9,
                every@ == all_flags(),
                flags@ == listed_flags(self@, i as int),
            decreases 9 - i,
        {
            if self.contains(every[i]) {
                flags.push(every[i]);
            }
            i += 1;
        }
        flags
    }
}

impl MetaCrateStateFlags {
    /// The bit that stands for the meta flag: the meta flags take the bits
    /// from the lowest on, in the order of their declaration.
    pub open spec fn spec_bit(self) -> u16 {
        match self {
            MetaCrateStateFlags::Allowed => 0x1,
            MetaCrateStateFlags::Blocked => 0x2,
            MetaCrateStateFlags::Changed => 0x4,
            MetaCrateStateFlags::Selected => 0x8,
        }
    }

    /// The bit that stands for the meta flag.
    #[verifier::when_used_as_spec(spec_bit)]
    pub fn bit(self) -> (b: u16)
        ensures
            b == self.spec_bit(),
    {
        match self {
            MetaCrateStateFlags::Allowed => 0x1,
            MetaCrateStateFlags::Blocked => 0x2,
            MetaCrateStateFlags::Changed => 0x4,
            MetaCrateStateFlags::Selected => 0x8,
        }
    }
}

/// A set of meta flags.
#[derive(Clone, Copy, Debug, PartialEq, Eq, Hash, Structural)]
pub struct MetaFlagSet {
    bits: u16,
}

impl View for MetaFlagSet {
    type V = Set<MetaCrateStateFlags>;

    closed spec fn view(&self) -> Set<MetaCrateStateFlags> {
        Set::new(|f: MetaCrateStateFlags| self.bits & f.spec_bit() != 0)
    }
}

impl MetaFlagSet {
    /// The set that holds no meta flag.
    pub fn empty() -> (set: MetaFlagSet)
        ensures
            set@ == Set::<MetaCrateStateFlags>::empty(),
    {
        let set = MetaFlagSet { bits: 0 };
        proof {
            assert forall|f: MetaCrateStateFlags| !set@.contains(f) by {
                lemma_single_bit_ops(0, 0, f.spec_bit(), f.spec_bit());
            }
            assert(set@ =~= Set::<MetaCrateStateFlags>::empty());
        }
        set
    }

    /// Adds one meta flag.
    pub fn insert(&mut self, flag: MetaCrateStateFlags)
        ensures
            final(self)@ == old(self)@.insert(flag),
    {
        let ghost before = *self;
        self.bits = self.bits | flag.bit();
        proof {
            assert forall|f: MetaCrateStateFlags|
                self@.contains(f) == before@.insert(flag).contains(f) by {
                lemma_single_bit_ops(before.bits, 0, flag.spec_bit(), f.spec_bit());
            }
            assert(self@ =~= before@.insert(flag));
        }
    }

    /// Takes one meta flag away.
    pub fn remove(&mut self, flag: MetaCrateStateFlags)
        ensures
            final(self)@ == old(self)@.remove(flag),
    {
        let ghost before = *self;
        self.bits = self.bits & !flag.bit();
        proof {
            assert forall|f: MetaCrateStateFlags|
                self@.contains(f) == before@.remove(flag).contains(f) by {
                lemma_single_bit_ops(before.bits, 0, flag.spec_bit(), f.spec_bit());
            }
            assert(self@ =~= before@.remove(flag));
        }
    }

    /// Whether the meta flag is in the set.
    pub fn contains(&self, flag: MetaCrateStateFlags) -> (b: bool)
        ensures
            b == self@.contains(flag),
    {
        self.bits & flag.bit() != 0
    }

    /// The meta flags of the set, lowest bit first.
    pub fn to_vec(&self) -> (flags: Vec<MetaCrateStateFlags>)
        ensures
            flags@ == listed_meta_flags(self@, 4),
    {
        let every = [
            MetaCrateStateFlags::Allowed,
            MetaCrateStateFlags::Blocked,
            MetaCrateStateFlags::Changed,
            MetaCrateStateFlags::Selected,
        ];
        assert(every@ =~= all_meta_flags());
        let mut flags: Vec<MetaCrateStateFlags> = Vec::new();
        let mut i: usize = 0;
        while i < 4
            invariant
                i <= 4,
                every@ == all_meta_flags(),
                flags@ == listed_meta_flags(self@, i as int),
            decreases 4 - i,
        {
            if self.contains(every[i]) {
                flags.push(every[i]);
            }
            i += 1;
        }
        flags
    }
}

} // verus!
