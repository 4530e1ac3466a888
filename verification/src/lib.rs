//! Static-site building blocks: a bracket-markup to HTML transducer,
//! a metadata-header splitter, rune-based token-tree parsers, template
//! composition helpers, and the character-based text primitives they share.

pub mod chars;
pub mod granite;
pub mod murmur3;
pub mod parser;
pub mod parserhashed;
pub mod progress;
pub mod template;
pub mod text;
