//! The migration that makes every root claim type `Keep`.
use crate::accounts::AccountId;
use crate::storage::StorageMap;
use frame_support::weights::RuntimeDbWeight;
use vstd::prelude::*;

verus! {

/// What happens to the root claims of a coldkey.
#[derive(Debug, PartialEq, Eq)]
pub enum RootClaimTypeEnum {
    /// They are swapped for TAO. No longer in use.
    Swap,
    /// They are kept, and claimed by hand.
    Keep,
    /// They are kept on some subnets and swapped on the others. No longer in use.
    KeepSubnets { subnets: Vec<u16> },
    /// They are kept, and claimed by themselves.
    AutoKeep,
}

/// What some work costs.
#[derive(Clone, Copy, Debug, PartialEq, Eq, Structural)]
pub struct Weight {
    /// The computation time.
    pub ref_time: u64,
    /// The size of the proof.
    pub proof_size: u64,
}

/// What an access to the database costs, in computation time.
#[derive(Clone, Copy, Debug, PartialEq, Eq, Structural)]
pub struct DbWeight {
    pub read: u64,
    pub write: u64,
}

/// `x`, at most `u64::MAX`.
pub open spec fn capped(x: int) -> u64 {
    if x > u64::MAX {
        u64::MAX
    } else {
        x as u64
    }
}

impl Weight {
    /// The sum, part by part, saturating.
    pub open spec fn plus(self, rhs: Weight) -> Weight {
        Weight {
            ref_time: capped(self.ref_time + rhs.ref_time),
            proof_size: capped(self.proof_size + rhs.proof_size),
        }
    }

    /// `frame_support::weights::Weight::saturating_add`: adds the two parts, each at most
    /// `u64::MAX`.
    #[verifier::external_body]
    fn saturating_add(self, rhs: Weight) -> (r: Weight)
        ensures
            r == self.plus(rhs),
    {
        let sum = frame_support::weights::Weight::from_parts(self.ref_time, self.proof_size)
            .saturating_add(
            frame_support::weights::Weight::from_parts(rhs.ref_time, rhs.proof_size),
        );
        Weight { ref_time: sum.ref_time(), proof_size: sum.proof_size() }
    }
}

impl DbWeight {
    /// The cost of some reads and some writes: their times, saturating, and no proof.
    pub open spec fn cost(self, r: int, w: int) -> Weight {
        Weight {
            ref_time: capped(capped(self.read * r) + capped(self.write * w)),
            proof_size: 0,
        }
    }

    /// `frame_support::weights::RuntimeDbWeight::reads`: the cost of `r` reads in computation
    /// time, at most `u64::MAX`.
    #[verifier::external_body]
    fn reads(self, r: u64) -> (cost: Weight)
        ensures
            cost == self.cost(r as int, 0),
    {
        let cost = RuntimeDbWeight { read: self.read, write: self.write }.reads(r);
        Weight { ref_time: cost.ref_time(), proof_size: cost.proof_size() }
    }

    /// `frame_support::weights::RuntimeDbWeight::writes`: the cost of `w` writes in computation
    /// time, at most `u64::MAX`.
    #[verifier::external_body]
    fn writes(self, w: u64) -> (cost: Weight)
        ensures
            cost == self.cost(0, w as int),
    {
        let cost = RuntimeDbWeight { read: self.read, write: self.write }.writes(w);
        Weight { ref_time: cost.ref_time(), proof_size: cost.proof_size() }
    }

    /// `frame_support::weights::RuntimeDbWeight::reads_writes`: the sum of the costs of `r` reads
    /// and of `w` writes in computation time, each of the three at most `u64::MAX`.
    #[verifier::external_body]
    fn reads_writes(self, r: u64, w: u64) -> (cost: Weight)
        ensures
            cost == self.cost(r as int, w as int),
    {
        let cost = RuntimeDbWeight { read: self.read, write: self.write }.reads_writes(r, w);
        Weight { ref_time: cost.ref_time(), proof_size: cost.proof_size() }
    }
}

/// The names of the migrations that have run.
pub struct MigrationLog {
    names: Vec<String>,
}

impl View for MigrationLog {
    type V = Set<Seq<char>>;

    closed spec fn view(&self) -> Set<Seq<char>> {
        Set::new(
            |name: Seq<char>|
                exists|i: int| 0 <= i < self.names@.len() && (#[trigger] self.names@[i])@ == name,
        )
    }
}

impl MigrationLog {
    /// No migration has run.
    pub fn new() -> (r: Self)
        ensures
            r@ == Set::<Seq<char>>::empty(),
    {
        let r = MigrationLog { names: Vec::new() };
        assert(r@ =~= Set::<Seq<char>>::empty());
        r
    }

    /// Whether the migration has run.
    pub fn has_run(&self, name: &str) -> (r: bool)
        ensures
            r == self@.contains(name@),
    {
        let wanted = name.to_owned();
        let mut i: usize = 0;
        while i < self.names.len()
            invariant
                i <= self.names@.len(),
                wanted@ == name@,
                forall|j: int| 0 <= j < i ==> (#[trigger] self.names@[j])@ != name@,
            decreases self.names@.len() - i,
        {
            if self.names[i] == wanted {
                assert(self.names@[i as int]@ == name@);
                return true;
            }
            i = i + 1;
        }
        false
    }

    /// Note that the migration has run.
    pub fn record(&mut self, name: &str)
        ensures
            final(self)@ == old(self)@.insert(name@),
    {
        let ghost before = self.names@;
        self.names.push(name.to_owned());
        proof {
            let after = self.names@;
            assert forall|n: Seq<char>| #[trigger]
                self@.contains(n) == old(self)@.insert(name@).contains(n) by {
                if self@.contains(n) {
                    let i = choose|i: int| 0 <= i < after.len() && (#[trigger] after[i])@ == n;
                    if i < before.len() {
                        assert(before[i]@ == n);
                    }
                }
                if old(self)@.contains(n) {
                    let i = choose|i: int| 0 <= i < before.len() && (#[trigger] before[i])@ == n;
                    assert(after[i]@ == n);
                }
                if n == name@ {
                    assert(after[before.len() as int]@ == n);
                }
            }
            assert(self@ =~= old(self)@.insert(name@));
        }
    }
}

/// What the contracts see of [`RootClaims`].
#[verifier::ext_equal]
pub struct RootClaimState {
    pub claim_types: Map<AccountId, RootClaimTypeEnum>,
    pub run: Set<Seq<char>>,
}

/// The root claim types by coldkey, and the migrations that they have seen.
pub struct RootClaims {
    pub claim_types: StorageMap<AccountId, RootClaimTypeEnum>,
    pub has_migration_run: MigrationLog,
}

impl View for RootClaims {
    type V = RootClaimState;

    open spec fn view(&self) -> RootClaimState {
        RootClaimState { claim_types: self.claim_types@, run: self.has_migration_run@ }
    }
}

/// The name of the migration.
pub open spec fn migration_name() -> Seq<char> {
    "migrate_root_claim_type_to_keep"@
}

/// Every claim type is replaced by `Keep`.
pub open spec fn all_keep(claim_types: Map<AccountId, RootClaimTypeEnum>) -> Map<
    AccountId,
    RootClaimTypeEnum,
> {
    Map::new(|k: AccountId| claim_types.contains_key(k), |k: AccountId| RootClaimTypeEnum::Keep)
}

/// The state after the migration: it works once.
pub open spec fn migrated(s: RootClaimState) -> RootClaimState {
    if s.run.contains(migration_name()) {
        s
    } else {
        RootClaimState {
            claim_types: all_keep(s.claim_types),
            run: s.run.insert(migration_name()),
        }
    }
}

/// What the migration costs: a read, and on the first run a read and a write for each claim type
/// and one more write.
pub open spec fn migration_weight(s: RootClaimState, db: DbWeight) -> Weight {
    let n = s.claim_types.dom().len() as int;
    if s.run.contains(migration_name()) {
        db.cost(1, 0)
    } else {
        db.cost(1, 0).plus(db.cost(n, n)).plus(db.cost(0, 1))
    }
}

/// Make every root claim type `Keep`, once.
pub fn migrate_root_claim_type_to_keep(claims: &mut RootClaims, db: DbWeight) -> (r: Weight)
    ensures
        final(claims)@ == migrated(old(claims)@),
        r == migration_weight(old(claims)@, db),
{
    let name = "migrate_root_claim_type_to_keep";
    let mut weight = db.reads(1);
    if claims.has_migration_run.has_run(name) {
        return weight;
    }
    let ghost before = claims.claim_types@;
    let coldkeys = claims.claim_types.keys();
    let mut reads: u64 = 0;
    let mut writes: u64 = 0;
    let mut i: usize = 0;
    while i < coldkeys.len()
        invariant
            i <= coldkeys@.len(),
            reads == i,
            writes == i,
            forall|k: AccountId| coldkeys@.contains(k) <==> before.contains_key(k),
            claims.claim_types@.dom() == before.dom(),
            forall|j: int|
                0 <= j < i ==> claims.claim_types@[#[trigger] coldkeys@[j]]
                    == RootClaimTypeEnum::Keep,
            claims.has_migration_run@ == old(claims)@.run,
        decreases coldkeys@.len() - i,
    {
        let coldkey = coldkeys[i];
        assert(coldkeys@.contains(coldkey)) by {
            assert(coldkeys@[i as int] == coldkey);
        }
        reads = reads + 1;
        claims.claim_types.insert(coldkey, RootClaimTypeEnum::Keep);
        assert(claims.claim_types@.dom() =~= before.dom());
        writes = writes + 1;
        i = i + 1;
    }
    proof {
        assert(coldkeys@.to_set() =~= before.dom());
        coldkeys@.unique_seq_to_set();
        assert forall|k: AccountId| before.contains_key(k) implies #[trigger] claims.claim_types@[k]
            == RootClaimTypeEnum::Keep by {
            assert(coldkeys@.contains(k));
            let j = choose|j: int| 0 <= j < coldkeys@.len() && coldkeys@[j] == k;
            assert(claims.claim_types@[coldkeys@[j]] == RootClaimTypeEnum::Keep);
        }
        assert(claims.claim_types@ =~= all_keep(before));
    }
    weight = weight.saturating_add(db.reads_writes(reads, writes));
    claims.has_migration_run.record(name);
    weight.saturating_add(db.writes(1))
}

} // verus!
