//! Off-chain worker parameters and the configuration they produce.
use vstd::prelude::*;

verus! {

/// The role bit of a full node.
pub const ROLE_FULL: u8 = 1;

/// The role bit of a light client.
pub const ROLE_LIGHT: u8 = 2;

/// The role bit of an authority, a node that authors blocks.
pub const ROLE_AUTHORITY: u8 = 4;

/// The roles a node plays, as a set of role bits.
#[derive(Clone, Copy, Debug, PartialEq, Eq, Structural)]
pub struct Roles {
    pub bits: u8,
}

/// Whether off-chain workers are enabled.
#[derive(Clone, Copy, Debug, PartialEq, Eq, Structural)]
pub enum OffchainWorkerEnabled {
    Always,
    Never,
    WhenValidating,
}

/// Off-chain worker settings of a node's configuration.
#[derive(Clone, Copy, Debug, PartialEq, Eq, Structural)]
pub struct OffchainWorkerConfig {
    pub enabled: bool,
    pub allow_runtime_write_to_ocw_db: bool,
}

/// Offchain worker related parameters.
#[derive(Clone, Copy, Debug, PartialEq, Eq, Structural)]
pub struct OffchainWorkerParams {
    /// Should execute offchain workers on every block.
    ///
    /// By default it's only enabled for nodes that are authoring new blocks.
    pub enabled: OffchainWorkerEnabled,
    /// Allow writing from the runtime to the offchain worker database directly (buffered).
    pub allow_runtime_write_to_offchain_worker_db: bool,
}

/// Workers run always, never, or when the node plays exactly the authority role.
pub open spec fn workers_enabled(mode: OffchainWorkerEnabled, role: Roles) -> bool {
    match mode {
        OffchainWorkerEnabled::Always => true,
        OffchainWorkerEnabled::Never => false,
        OffchainWorkerEnabled::WhenValidating => role.bits == ROLE_AUTHORITY,
    }
}

impl OffchainWorkerParams {
    /// Write the off-chain worker settings these parameters give for `role`
    /// into `config`. Database writes are allowed only when workers run.
    pub fn update_config(&self, config: &mut OffchainWorkerConfig, role: Roles)
        ensures
            final(config).enabled == workers_enabled(self.enabled, role),
            final(config).allow_runtime_write_to_ocw_db == (workers_enabled(self.enabled, role)
                && self.allow_runtime_write_to_offchain_worker_db),
    {
        let enabled = match self.enabled {
            OffchainWorkerEnabled::WhenValidating => role.bits == ROLE_AUTHORITY,
            OffchainWorkerEnabled::Always => true,
            OffchainWorkerEnabled::Never => false,
        };
        let allow_runtime_write_to_ocw_db = if enabled {
            self.allow_runtime_write_to_offchain_worker_db
        } else {
            false
        };
        *config = OffchainWorkerConfig { enabled, allow_runtime_write_to_ocw_db };
    }
}

} // verus!
