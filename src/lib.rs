//! An encrypted key/value vault kept as a pair of files: a 32-byte key file and a
//! sealed payload file that holds the vault's entries in a canonical text form.

pub mod codec;
pub mod crypto;
pub mod store;
pub mod vault;

pub use codec::{decode_vault, encode_vault};
pub use store::{
    close_vault, handle_add_cmd, handle_delete_key, handle_delete_vault_cmd, handle_list_cmd,
    handle_new_vault_cmd, handle_val_for_key_cmd, key_secret_file, load_keygen, make_new_key,
    open_sealed, open_vault, seal_vault, vault_file_name, SecretKey, VaultFiles,
};
pub use vault::{Entry, Vault, VaultError, VaultErrorKind, VaultKeyName};
