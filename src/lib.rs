//! A credential vault: per-user website accounts whose credentials are kept
//! encoded, with a pay-per-byte storage protocol in which an underpaid
//! addition is rolled back exactly.
pub mod accounting;
pub mod codec;
pub mod model;
pub mod vault;

pub use accounting::{release_refund, storage_cost};
pub use codec::{decode, encode, text_from_decoded, CodecError};
pub use model::{UserAccount, UserAccountId, VaultError};
pub use vault::PassManager;
