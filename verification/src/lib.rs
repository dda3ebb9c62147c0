//! Generic, immutable, lossless syntax trees.
//!
//! Compact structurally shared green trees are separate from transient immutable red cursors. An
//! exclusively borrowed [`SyntaxEditor`] serves for transactional mutation.

pub mod api;
pub mod api_debug;
pub mod ast;
pub mod ast_laws;
pub mod calls;
pub mod cursor;
pub mod cursor_data;
pub mod cursor_editor;
pub mod cursor_laws;
pub mod cursor_query;
pub mod cursor_replace;
pub mod cursor_siblings;
pub mod cursor_traversal;
pub mod debug;
pub mod debug_laws;
pub mod editor_laws;
pub mod equality_laws;
pub mod green;
pub mod hashing;
pub mod import_laws;
pub mod message_laws;
pub mod messages;
pub mod model;
pub mod navigation_laws;
pub mod outline;
pub mod query_laws;
pub mod replace_laws;
pub mod shared;
pub mod splice_bounds;
pub mod splice_laws;
pub mod syntax_text;
pub mod text;
pub mod text_laws;
pub mod utility_types;

pub use crate::api::Language;
pub use crate::api::Preorder;
pub use crate::api::PreorderWithTokens;
pub use crate::api::SyntaxEditor;
pub use crate::api::SyntaxElement;
pub use crate::api::SyntaxElementChildren;
pub use crate::api::SyntaxNode;
pub use crate::api::SyntaxNodeChildren;
pub use crate::api::SyntaxToken;
pub use crate::ast::AstError;
pub use crate::ast::ResolveError;
pub use crate::cursor::RangeError;
pub use crate::cursor_editor::EditError;
pub use crate::cursor_editor::EditorElementId;
pub use crate::cursor_editor::EditorNodeId;
pub use crate::cursor_editor::EditorTokenId;
pub use crate::cursor_editor::SpliceOutcome;
pub use crate::cursor_traversal::TraversalError;
pub use crate::green::builder::BuildError;
pub use crate::green::builder::Checkpoint;
pub use crate::green::builder::GreenNodeBuilder;
pub use crate::green::element::GreenElement;
pub use crate::green::element::GreenElementRef;
pub use crate::green::node::Children;
pub use crate::green::node::GreenNode;
pub use crate::green::node_cache::NodeCache;
pub use crate::green::token::GreenToken;
pub use crate::green::GreenError;
pub use crate::green::SyntaxKind;
pub use crate::syntax_text::ChunkError;
pub use crate::syntax_text::SyntaxText;
pub use crate::syntax_text::SyntaxTextRange;
pub use crate::text::TextLen;
pub use crate::text::TextRange;
pub use crate::text::TextSize;
pub use crate::utility_types::Direction;
pub use crate::utility_types::NodeOrToken;
pub use crate::utility_types::TokenAtOffset;
pub use crate::utility_types::WalkEvent;
