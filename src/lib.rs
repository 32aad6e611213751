//! Texas Hold'em core: cards, seven-card hands with suit canonicalisation and
//! ranking, and a no-limit betting round that settles main and side pots.

pub mod card;
pub mod card_set;
pub mod canonical;
pub mod round_state;
pub mod evaluate;
