use vstd::prelude::*;

pub mod accounts;
pub mod cancel;
pub mod error;
pub mod identity;
pub mod matching;
pub mod place;
pub mod sort;
pub mod state;

pub use accounts::{find_ata, position_of};
pub use error::OrderBookError;
pub use identity::Identity;
pub use matching::{compute_fill, match_sorted, Fill};
pub use place::{deposit_for, lock_amount};
pub use sort::sort_by_priority;
pub use state::{create_market, LimitOrder, Market, OrderBook, Side, MAX_ORDERS};
