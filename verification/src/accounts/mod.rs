//! Game accounts: what they authorize, what they offer, and the
//! bookkeeping behind session keys, devices, passkeys and social recovery.

pub mod batch;
pub mod degradation;
pub mod device_storage;
pub mod error;
pub mod multi_device;
pub mod recovery;
pub mod recovery_storage;
pub mod secp256r1_auth;
pub mod storage;
pub mod traits;
pub mod types;

pub use batch::BatchBuilder;
pub use error::AccountError;
pub use multi_device::{DeviceKey, DevicePolicy, MultiDeviceProvider};
pub use recovery::{Guardian, RecoveryConfig, RecoveryProvider, RecoveryRequest};
pub use storage::SessionStorage;
pub use traits::CougrAccount;
pub use types::{AccountCapabilities, AuthMethod, GameAction, SessionKey, SessionScope};
