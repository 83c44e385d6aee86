//! A streaming JSON query engine for a subset of jq. Characters are
//! tokenized and checked against the JSON grammar, then passed through
//! operators (`.[key]`, `.[index]`, `.[]`, `slurp`) and renderers one token at
//! a time, without building a JSON tree. Every stage is a verified state
//! machine whose contract says what it yields for each token it receives.


pub mod array_index;
pub mod char_locations;
pub mod compact;
pub mod error;
pub mod fuse;
pub mod jq_stream;
pub mod lexical;
pub mod location;
pub mod object_index;
pub mod operators;
pub mod pretty;
pub mod raw;
pub mod render;
pub mod round_trip;
pub mod sanitized;
pub mod scope;
pub mod slurp;
pub mod stream_context;
pub mod text;
pub mod token;
pub mod tokenizer;
pub mod values;

pub use array_index::ArraySliceIndex;
pub use char_locations::CharLocations;
pub use compact::CompactChars;
pub use error::{Item, JQErr};
pub use jq_stream::{JQStream, Null, Operator};
pub use location::Location;
pub use object_index::ObjectKeyIndex;
pub use pretty::PrettyChars;
pub use raw::RawTokenStream;
pub use render::{render_compact, render_pretty};
pub use sanitized::Sanitized;
pub use scope::Scope;
pub use slurp::Slurp;
pub use stream_context::{JsonParsingState, StreamContext};
pub use token::Token;
pub use values::Values;
