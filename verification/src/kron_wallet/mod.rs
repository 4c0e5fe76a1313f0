//! Desktop wallet: amounts, recovery phrases, the wallet file, the explorer view,
//! sending, and the order of its screens.

pub mod amount;
pub mod explorer;
pub mod flow;
pub mod forms;
pub mod mnemonic;
pub mod persist;
pub mod send;
