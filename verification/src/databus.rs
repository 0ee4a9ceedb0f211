//! The channels on which the market feeds hand their best levels to the pooling
//! worker.
use vstd::prelude::*;
use tokio::sync::mpsc::{UnboundedReceiver, UnboundedSender};
pub use crate::data_types::PxQtLadder;
use crate::data_tunnel::unbounded_channel;

verus! {

/// Sending end of a channel of `(bids, asks)` ladders.
pub type PriceLevelSender = UnboundedSender<(PxQtLadder, PxQtLadder)>;

/// Receiving end of a channel of `(bids, asks)` ladders.
pub type PriceLevelReceiver = UnboundedReceiver<(PxQtLadder, PxQtLadder)>;

/// Creates the channel on which a market feed hands its levels to the pool.
pub fn create_databus() -> (PriceLevelSender, PriceLevelReceiver) {
    unbounded_channel()
}

} // verus!
