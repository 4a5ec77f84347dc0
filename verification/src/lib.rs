//! A heap profiler's bookkeeping: the registry of live allocations with the
//! call stack that made each of them, and the conversion of a snapshot of that
//! registry into a `pprof` profile with interned string, function and location
//! tables.
//!
//! - `helper`: the guard that keeps the profiler from observing itself;
//! - `capture`: the walk over the call stack of the calling thread;
//! - `symbol`: the symbols of the frames of a call stack;
//! - `profiler`: the registry of live blocks and what the allocator does
//!   with it;
//! - `report`: the tables of a profile under construction, and the snapshot;
//! - `model`: what those tables hold, step by step, and what follows of it;
//! - `proto`: the messages of the profile format;
//! - `wire`, `parse`, `reader`: the bytes of a profile, written and read;
//! - `text`: the label of a block and the name of a snapshot file.
//!
//! The allocator that feeds the registry, and the writing of a snapshot to a
//! file, are left to the program that uses this crate.

pub mod capture;
pub mod helper;
pub mod model;
pub mod parse;
pub mod profiler;
pub mod proto;
pub mod reader;
pub mod report;
pub mod symbol;
pub mod text;
pub mod wire;

pub use capture::get_backtrace;
pub use capture::StackWalk;
pub use helper::Reentrancy;
pub use profiler::Block;
pub use profiler::GLobalHeapProfiler;
pub use profiler::HeapProfiler;
pub use profiler::PprofAlloc;
pub use proto::Profile;
pub use report::FnTable;
pub use report::snapshot;
pub use report::GperfHeapProfilerReport;
pub use report::StringTable;
pub use symbol::frames_to_symbols;
pub use symbol::Symbol;
