//! When a key server submits (or resubmits) its migration transactions.
//!
//! A key server asks the chain to start or confirm a migration by submitting
//! a transaction. If the transaction is not mined within a fixed number of
//! blocks it is submitted again; it is never submitted twice for the same
//! migration within that interval. The submission itself is done by the
//! caller.

use vstd::prelude::*;
use crate::id::{H256, MigrationId};

verus! {

/// Number of blocks after which a migration transaction is submitted again.
pub const TRANSACTION_RETRY_INTERVAL_BLOCKS: u64 = 30;

/// A migration transaction that has been submitted.
#[derive(Clone, Copy, Debug, PartialEq, Eq)]
pub struct PreviousMigrationTransaction {
    /// Id of the migration.
    pub migration_id: MigrationId,
    /// Number and hash of the best block when the transaction was submitted.
    pub block: (u64, H256),
}

/// Whether a transaction for `migration_id` is due at best block number
/// `best`, given the previous transaction of the same kind.
pub open spec fn is_due(best: u64, migration_id: MigrationId, previous: Option<PreviousMigrationTransaction>) -> bool {
    match previous {
        None => true,
        Some(tx) => tx.migration_id != migration_id || (tx.block.0 <= best && best - tx.block.0
            >= TRANSACTION_RETRY_INTERVAL_BLOCKS),
    }
}

/// Decides whether to submit a transaction for `migration_id` at best block
/// `best`, and records it as submitted if so.
pub fn update_last_transaction_block(
    best: &(u64, H256),
    migration_id: &MigrationId,
    previous_transaction: &mut Option<PreviousMigrationTransaction>,
) -> (r: bool)
    ensures
        r == is_due(best.0, *migration_id, *old(previous_transaction)),
        r ==> *final(previous_transaction) == Some(
            PreviousMigrationTransaction { migration_id: *migration_id, block: *best },
        ),
        !r ==> *final(previous_transaction) == *old(previous_transaction),
{
    match previous_transaction {
        None => {},
        Some(tx) => {
            if tx.migration_id == *migration_id {
                if tx.block.0 > best.0 || best.0 - tx.block.0 < TRANSACTION_RETRY_INTERVAL_BLOCKS {
                    return false;
                }
            }
        },
    }
    *previous_transaction = Some(
        PreviousMigrationTransaction { migration_id: *migration_id, block: *best },
    );
    true
}

/// What a key server remembers of the chain and of its own migration
/// transactions.
pub struct MigrationTransactions {
    /// Best block: number and hash.
    pub best: (u64, H256),
    /// The last start-migration transaction submitted.
    pub start_migration_tx: Option<PreviousMigrationTransaction>,
    /// The last confirm-migration transaction submitted.
    pub confirm_migration_tx: Option<PreviousMigrationTransaction>,
}

impl MigrationTransactions {
    /// No transaction submitted, best block `best`.
    pub fn new(best: (u64, H256)) -> (r: Self)
        ensures
            r.best == best,
            r.start_migration_tx is None,
            r.confirm_migration_tx is None,
    {
        MigrationTransactions { best, start_migration_tx: None, confirm_migration_tx: None }
    }

    /// Called when a new best block is imported.
    pub fn on_best_block_updated(&mut self, block: (u64, H256))
        ensures
            final(self).best == block,
            final(self).start_migration_tx == old(self).start_migration_tx,
            final(self).confirm_migration_tx == old(self).confirm_migration_tx,
    {
        self.best = block;
    }

    /// Whether to submit a start-migration transaction for `migration_id`
    /// now; if so it is recorded as submitted.
    pub fn start_migration(&mut self, migration_id: MigrationId) -> (r: bool)
        ensures
            r == is_due(old(self).best.0, migration_id, old(self).start_migration_tx),
            final(self).start_migration_tx == if r {
                Some(PreviousMigrationTransaction { migration_id, block: old(self).best })
            } else {
                old(self).start_migration_tx
            },
            final(self).best == old(self).best,
            final(self).confirm_migration_tx == old(self).confirm_migration_tx,
    {
        let best = self.best;
        update_last_transaction_block(&best, &migration_id, &mut self.start_migration_tx)
    }

    /// Whether to submit a confirm-migration transaction for `migration_id`
    /// now; if so it is recorded as submitted.
    pub fn confirm_migration(&mut self, migration_id: MigrationId) -> (r: bool)
        ensures
            r == is_due(old(self).best.0, migration_id, old(self).confirm_migration_tx),
            final(self).confirm_migration_tx == if r {
                Some(PreviousMigrationTransaction { migration_id, block: old(self).best })
            } else {
                old(self).confirm_migration_tx
            },
            final(self).best == old(self).best,
            final(self).start_migration_tx == old(self).start_migration_tx,
    {
        let best = self.best;
        update_last_transaction_block(&best, &migration_id, &mut self.confirm_migration_tx)
    }
}

} // verus!
