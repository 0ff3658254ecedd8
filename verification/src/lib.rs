//! Quadratic-voting launch deposits for a referendum engine.
//!
//! Identified accounts jointly crowdfund the decision deposit that moves a
//! proposal from its launch phase into active voting. Each backer locks
//! tokens equal to the square of the votes it casts; the coordinator
//! tracks, per referendum, the ordered contributions, enforces one vote
//! per account, detects when the aggregate crosses the configured
//! threshold — which places the real decision deposit inside the engine —
//! and reconciles refunds once the referendum has concluded.
//!
//! The ledger, the identity service and the referendum engine are external
//! collaborators, injected through the [`Config`] capability trait; every
//! contract the coordinator's proofs rest on is stated there. [`TestEnv`]
//! is a verified in-memory model of the three, suitable for tests.

pub mod config;
pub mod laws;
pub mod pallet;
pub mod test_env;
pub mod types;

pub use config::Config;
pub use pallet::Pallet;
pub use test_env::TestEnv;
pub use types::{
    Contribution, Deposit, DispatchError, EngineError, Error, Event, LedgerError, Origin,
};
