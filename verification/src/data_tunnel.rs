//! Channels that carry order book updates from the market feeds to the merger.
use vstd::prelude::*;
use tokio::sync::mpsc::{UnboundedReceiver, UnboundedSender};
pub use crate::data_types::PxQtLadder;
use crate::data_types::Summary;

verus! {

#[verifier::external_type_specification]
#[verifier::external_body]
#[verifier::reject_recursive_types(T)]
pub struct ExUnboundedReceiver<T>(UnboundedReceiver<T>);

#[verifier::external_type_specification]
#[verifier::external_body]
#[verifier::reject_recursive_types(T)]
pub struct ExUnboundedSender<T>(UnboundedSender<T>);

/// Sending end of a channel of `(bids, asks)` ladders.
pub type PxQtLadderSender = UnboundedSender<(PxQtLadder, PxQtLadder)>;

/// Receiving end of a channel of `(bids, asks)` ladders.
pub type PxQtLadderReceiver = UnboundedReceiver<(PxQtLadder, PxQtLadder)>;

/// Creates an unbounded channel (`tokio::sync::mpsc::unbounded_channel`). Nothing is
/// stated of the two ends, which are opaque here.
#[verifier::external_body]
pub(crate) fn unbounded_channel<T>() -> (UnboundedSender<T>, UnboundedReceiver<T>) {
    tokio::sync::mpsc::unbounded_channel()
}

/// Creates the channel on which a market feed hands its top levels to the merger.
pub fn create_data_tunnel() -> (PxQtLadderSender, PxQtLadderReceiver) {
    unbounded_channel()
}

/// Sending end of a client's summary stream.
pub type SummarySender = UnboundedSender<Summary>;

/// Receiving end of a client's summary stream.
pub type SummaryReceiver = UnboundedReceiver<Summary>;

/// Creates the channel on which a client receives the summaries.
pub fn create_summary_tunnel() -> (SummarySender, SummaryReceiver) {
    unbounded_channel()
}

} // verus!
