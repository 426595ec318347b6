//! The replicated types and their traits, for one import.

pub use crate::crdt::{Crdt, DeltaCrdt};
pub use crate::gcounter::{GCounter, GCounterDelta};
pub use crate::gset::GSet;
pub use crate::lww_register::LWWRegister;
pub use crate::mv_register::MVRegister;
pub use crate::or_set::{ORSet, ORSetDelta};
pub use crate::pncounter::{PNCounter, PNCounterDelta};
pub use crate::rga::Rga;
pub use crate::text::TextCrdt;
pub use crate::twop_set::TwoPSet;
