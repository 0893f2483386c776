//! A fork-aware versioned key/value store for a blockchain's execution layer,
//! with the on-disk record format of its sealed tries, and the helpers around
//! it: hexadecimal text, contract documentation, and the decisions that
//! stacking-contract calls trigger.

pub mod docs;
pub mod hex;
pub mod record;
pub mod special;
pub mod storage;
pub mod text;
