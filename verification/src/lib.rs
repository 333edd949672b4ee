//! An embedded store for numeric time series: points go into a buffer for
//! the window of time they fall in, a buffer that its series leaves is
//! compressed into a chunk and kept in a catalog, and a query over a range of
//! time is put together from both.

pub mod chunk;
pub mod engine;
pub mod model;
pub mod reference;
pub mod schedule;
pub mod series;
pub mod sound;
pub mod store;
pub mod tidy;

pub use chunk::{Chunk, CompressError, DecompressError, DecompressFault};
pub use schedule::{Schedule, ScheduleConfig};
pub use series::{DataPoint, RawSeries};
pub use store::{ChunkMeta, GetChunkError, KelpieChunkStore, SetChunkError, SqliteChunkStore};
pub use engine::{InsertStatus, Kelpie, Series};
pub use model::KelpieError;
pub use reference::KelpieFake;
