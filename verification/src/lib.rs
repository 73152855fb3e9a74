pub mod allocator;
pub mod errors;
pub mod keyed;
pub mod laws;
pub mod materializer;
pub mod metadata;
pub mod record;
