pub mod codec;
pub mod errors;
pub mod input;
pub mod order;
pub mod store;
pub mod totp;

pub use codec::decode;
pub use errors::Error;
pub use store::Account;
pub use store::AccountArray;
pub use store::Command;
pub use store::Selector;
pub use store::Step;
pub use totp::generate;
pub use totp::seconds_remaining;
