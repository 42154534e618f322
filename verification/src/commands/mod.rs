pub mod analyze;
pub mod block_replicate;
pub mod commentary;
pub mod event;
pub mod filter;
pub mod rotate_deals;
pub mod rotated_pbn;
pub mod to_lin;
pub mod to_pdf;
