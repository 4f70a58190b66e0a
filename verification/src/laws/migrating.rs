//! The migration of the root claim types.
use crate::accounts::AccountId;
use crate::migration::{
    migrated, migration_weight, DbWeight, RootClaimState, RootClaimTypeEnum,
};
use vstd::prelude::*;

verus! {

/// The migration works once: a second run changes nothing and costs one read.
pub proof fn law_migration_runs_once(s: RootClaimState, db: DbWeight)
    ensures
        migrated(migrated(s)) == migrated(s),
        migration_weight(migrated(s), db) == db.cost(1, 0),
{
}

/// After the first run every coldkey that had a claim type has `Keep`, and no other has one.
pub proof fn law_migration_keeps_everybody(s: RootClaimState, coldkey: AccountId)
    requires
        !s.run.contains("migrate_root_claim_type_to_keep"@),
    ensures
        migrated(s).claim_types.contains_key(coldkey) == s.claim_types.contains_key(coldkey),
        s.claim_types.contains_key(coldkey) ==> migrated(s).claim_types[coldkey]
            == RootClaimTypeEnum::Keep,
        migrated(s).run == s.run.insert("migrate_root_claim_type_to_keep"@),
{
}

/// What the migration costs: a read for the note that it has run; and on the first run a read and a
/// write for each claim type, and a write of the note. The cost is in time alone, `u64::MAX` where it
/// is more.
pub proof fn law_migration_costs_what_it_touches(s: RootClaimState, db: DbWeight)
    ensures
        ({
            let n = s.claim_types.dom().len();
            let ran = s.run.contains("migrate_root_claim_type_to_keep"@);
            let time = if ran {
                db.read as int
            } else {
                db.read * (1 + n) + db.write * (n + 1)
            };
            let cost = migration_weight(s, db);
            &&& time <= u64::MAX ==> cost.ref_time == time
            &&& time > u64::MAX ==> cost.ref_time == u64::MAX
            &&& cost.proof_size == 0
        }),
{
    let n = s.claim_types.dom().len() as int;
    assert(db.read * 1 == db.read && db.read * 0 == 0 && db.write * 0 == 0 && db.write * 1
        == db.write);
    assert(db.read * (1 + n) == db.read + db.read * n) by (nonlinear_arith);
    assert(db.write * (n + 1) == db.write * n + db.write) by (nonlinear_arith);
    assert(db.read * n >= 0 && db.write * n >= 0) by (nonlinear_arith)
        requires
            n >= 0,
    ;
}

/// A migration that has run, under this name, changes nothing.
pub proof fn law_migration_that_has_run_changes_nothing(s: RootClaimState)
    requires
        s.run.contains("migrate_root_claim_type_to_keep"@),
    ensures
        migrated(s) == s,
{
}

} // verus!
