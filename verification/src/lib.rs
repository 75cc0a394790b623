//! A thin, typed model of a GPU compute pipeline for 32-bit unsigned
//! integer arrays: host-side reference primitives (sum, scans, scatters),
//! workgroup sizing, pass recording, and a verified device model that
//! executes recorded kernel dispatches over a store of typed buffers.

pub mod buffers;
pub mod context;
pub mod host;
pub mod pass;

pub use context::Context;
pub use context::MappedBuffer;
pub use buffers::MappableSingleValueBuffer;
pub use buffers::MappableStorageBuffer;
pub use pass::dispatch_count;
pub use pass::Dispatch;
pub use pass::Pass;
pub use host::sum;
pub use host::inclusive_scan;
pub use host::exclusive_scan;
pub use host::scatter_with_value;
pub use host::scatter_if_non_zero;
pub use host::zeroed_array_of_size;
pub use host::ascending_values_of_len;
