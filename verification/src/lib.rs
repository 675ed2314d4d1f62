//! A markup document as a tree of nodes that can be searched and changed.
//!
//! The text of a document is read into tokens, the tokens are built into a
//! tree of [`Node`]s, and the tree can then be read, searched by the
//! attributes of its nodes, changed, and written out again.

pub mod attribute;
pub mod builder;
pub mod fetch;
pub mod laws;
pub mod markup;
pub mod node;
pub mod normalize;
pub mod settings;
pub mod text;
pub mod token;
pub mod tokenizer;

pub use attribute::Attribute;
pub use attribute::OpeningTag;
pub use fetch::ChildrenFetch;
pub use fetch::ChildrenFetchMut;
pub use node::Children;
pub use node::Node;
pub use node::NodeAccess;
pub use settings::ChildrenType;
pub use settings::LoadSettings;
pub use token::Token;
pub use tokenizer::LoadError;
pub use tokenizer::RawEvent;
