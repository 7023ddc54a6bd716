pub mod bitmap;
pub mod candidate;
pub mod cascade;
pub mod distance;
pub mod fstmap;
pub mod index;
pub mod text;


pub use cascade::RankingRule;
pub use index::Index;
pub use index::Search;
pub use text::normalize;
