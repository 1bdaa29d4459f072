pub mod text;
pub mod embed;
pub mod keyword;
pub mod chunk;
pub mod json;
pub mod filter;
pub mod keyed;
pub mod store;
pub mod grep;
pub mod rank;
pub mod search;
pub mod request;
pub mod protocol;
pub mod dispatch;
pub mod laws;
