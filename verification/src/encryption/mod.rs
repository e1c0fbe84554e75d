//! Frame encryption.
mod error;
pub mod moq_secure_adapter;
pub mod moq_secure_runs;

pub use error::EncryptionError;
pub use moq_secure_adapter::{
    MoqSecureDecrypter, MoqSecureDecryptionConfig, MoqSecureEncrypter,
};
