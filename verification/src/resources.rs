//! Sizes of the queues and pools of one side of a link.

use vstd::prelude::*;

use crate::sender::INFLIGHT_MAX;

verus! {

/// The most buffers that packets can be reassembled in at a time.
pub const RX_POOL_MAX: usize = 32;

/// Whether pools and queues can have these sizes: `n_inflight` outgoing chunks,
/// and `n_rx_pool` packets that are being received or wait for the application.
pub fn sizes_supported(n_inflight: usize, n_rx_pool: usize) -> (supported: bool)
    ensures
        supported == (1 <= n_inflight <= INFLIGHT_MAX && 1 <= n_rx_pool <= RX_POOL_MAX),
        supported == (1 <= n_inflight <= 32 && 1 <= n_rx_pool <= 32),
{
    n_inflight > 0 && n_inflight <= INFLIGHT_MAX && n_rx_pool > 0 && n_rx_pool <= RX_POOL_MAX
}

} // verus!
