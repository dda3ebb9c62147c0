//! Messages of the errors.

use vstd::prelude::*;
use vstd::string::StringExecFns;

use crate::ast::AstError;
use crate::ast::ResolveError;
use crate::cursor::RangeError;
use crate::cursor_editor::EditError;
use crate::cursor_traversal::TraversalError;
use crate::green::GreenError;
use crate::green::builder::BuildError;
use crate::debug;
use crate::syntax_text::ChunkError;

verus! {

/// The message of an error.
pub open spec fn green_error_message(error: GreenError) -> Seq<char> {
    match error {
        GreenError::TokenTextTooLong { byte_len } => {
            "token text length "@
                + debug::digits(byte_len as nat)
                + " does not fit in TextSize"@
        },
        GreenError::TextLengthOverflow { accumulated, next } => {
            "text length overflow while adding "@
                + debug::digits(next@)
                + " to "@
                + debug::digits(accumulated@)
        },
        GreenError::ChildIndexOutOfBounds { index, child_count } => {
            "child index "@
                + debug::digits(index as nat)
                + " is out of bounds for "@
                + debug::digits(child_count as nat)
                + " children"@
        },
        GreenError::InvalidChildRange { start, end, child_count } => {
            "child range "@
                + debug::digits(start as nat)
                + ".."@
                + debug::digits(end as nat)
                + " is invalid for "@
                + debug::digits(child_count as nat)
                + " children"@
        },
        GreenError::KindMismatch { expected, actual } => {
            "replacement kind "@
                + debug::kind_shown(actual)
                + " does not match expected kind "@
                + debug::kind_shown(expected)
        },
        GreenError::AllocationFailed => "green-tree allocation failed"@,
    }
}

impl GreenError {
    /// Write out the message of this error.
    pub fn message(&self) -> (text: String)
        ensures
            text@ == green_error_message(*self),
    {
        match self {
            GreenError::TokenTextTooLong { byte_len } => {
                let mut text = "token text length ".to_owned();
                text.append(debug::decimal(*byte_len as u64).as_str());
                text.append(" does not fit in TextSize");
                text
            },
            GreenError::TextLengthOverflow { accumulated, next } => {
                let mut text = "text length overflow while adding ".to_owned();
                text.append(debug::decimal(next.raw as u64).as_str());
                text.append(" to ");
                text.append(debug::decimal(accumulated.raw as u64).as_str());
                text
            },
            GreenError::ChildIndexOutOfBounds { index, child_count } => {
                let mut text = "child index ".to_owned();
                text.append(debug::decimal(*index as u64).as_str());
                text.append(" is out of bounds for ");
                text.append(debug::decimal(*child_count as u64).as_str());
                text.append(" children");
                text
            },
            GreenError::InvalidChildRange { start, end, child_count } => {
                let mut text = "child range ".to_owned();
                text.append(debug::decimal(*start as u64).as_str());
                text.append("..");
                text.append(debug::decimal(*end as u64).as_str());
                text.append(" is invalid for ");
                text.append(debug::decimal(*child_count as u64).as_str());
                text.append(" children");
                text
            },
            GreenError::KindMismatch { expected, actual } => {
                let mut text = "replacement kind ".to_owned();
                text.append(debug::show_kind(*actual).as_str());
                text.append(" does not match expected kind ");
                text.append(debug::show_kind(*expected).as_str());
                text
            },
            GreenError::AllocationFailed => "green-tree allocation failed".to_owned(),
        }
    }
}

/// The message of an error.
pub open spec fn build_error_message(error: BuildError) -> Seq<char> {
    match error {
        BuildError::Green(cause) => green_error_message(cause),
        BuildError::NoOpenNode => "no syntax node is open"@,
        BuildError::ForeignCheckpoint => "checkpoint belongs to another builder"@,
        BuildError::StaleCheckpoint => "checkpoint frame is stale"@,
        BuildError::CheckpointOutOfBounds { index, child_count } => {
            "checkpoint index "@
                + debug::digits(index as nat)
                + " is out of bounds for "@
                + debug::digits(child_count as nat)
                + " children"@
        },
        BuildError::UnclosedNodes { count } => {
            "builder has "@
                + debug::digits(count as nat)
                + " unclosed nodes"@
        },
        BuildError::InvalidRootArity { count } => {
            "builder produced "@
                + debug::digits(count as nat)
                + " root elements instead of one"@
        },
        BuildError::RootMustBeNode => "builder root must be a node"@,
    }
}

impl BuildError {
    /// Write out the message of this error.
    pub fn message(&self) -> (text: String)
        ensures
            text@ == build_error_message(*self),
    {
        match self {
            BuildError::Green(cause) => cause.message(),
            BuildError::NoOpenNode => "no syntax node is open".to_owned(),
            BuildError::ForeignCheckpoint => "checkpoint belongs to another builder".to_owned(),
            BuildError::StaleCheckpoint => "checkpoint frame is stale".to_owned(),
            BuildError::CheckpointOutOfBounds { index, child_count } => {
                let mut text = "checkpoint index ".to_owned();
                text.append(debug::decimal(*index as u64).as_str());
                text.append(" is out of bounds for ");
                text.append(debug::decimal(*child_count as u64).as_str());
                text.append(" children");
                text
            },
            BuildError::UnclosedNodes { count } => {
                let mut text = "builder has ".to_owned();
                text.append(debug::decimal(*count as u64).as_str());
                text.append(" unclosed nodes");
                text
            },
            BuildError::InvalidRootArity { count } => {
                let mut text = "builder produced ".to_owned();
                text.append(debug::decimal(*count as u64).as_str());
                text.append(" root elements instead of one");
                text
            },
            BuildError::RootMustBeNode => "builder root must be a node".to_owned(),
        }
    }
}

/// The message of an error.
pub open spec fn edit_error_message(error: EditError) -> Seq<char> {
    match error {
        EditError::Green(cause) => green_error_message(cause),
        EditError::ForeignId => "editor ID is foreign"@,
        EditError::UnknownSourceElement => {
            "source element does not belong to this editor's original subtree"@
        },
        EditError::InvalidChildRange { start, end, child_count } => {
            "child range "@
                + debug::digits(start as nat)
                + ".."@
                + debug::digits(end as nat)
                + " is invalid for "@
                + debug::digits(child_count as nat)
                + " children"@
        },
        EditError::DuplicateInsertion { first_position, duplicate_position } => {
            "insertion at position "@
                + debug::digits(duplicate_position as nat)
                + " duplicates position "@
                + debug::digits(first_position as nat)
        },
        EditError::Cycle => "edit would create a syntax-tree cycle"@,
        EditError::RootStillAttached => "syntax root is still attached"@,
    }
}

impl EditError {
    /// Write out the message of this error.
    pub fn message(&self) -> (text: String)
        ensures
            text@ == edit_error_message(*self),
    {
        match self {
            EditError::Green(cause) => cause.message(),
            EditError::ForeignId => "editor ID is foreign".to_owned(),
            EditError::UnknownSourceElement => {
                "source element does not belong to this editor's original subtree".to_owned()
            },
            EditError::InvalidChildRange { start, end, child_count } => {
                let mut text = "child range ".to_owned();
                text.append(debug::decimal(*start as u64).as_str());
                text.append("..");
                text.append(debug::decimal(*end as u64).as_str());
                text.append(" is invalid for ");
                text.append(debug::decimal(*child_count as u64).as_str());
                text.append(" children");
                text
            },
            EditError::DuplicateInsertion { first_position, duplicate_position } => {
                let mut text = "insertion at position ".to_owned();
                text.append(debug::decimal(*duplicate_position as u64).as_str());
                text.append(" duplicates position ");
                text.append(debug::decimal(*first_position as u64).as_str());
                text
            },
            EditError::Cycle => "edit would create a syntax-tree cycle".to_owned(),
            EditError::RootStillAttached => "syntax root is still attached".to_owned(),
        }
    }
}

/// The message of an error.
pub open spec fn range_error_message(error: RangeError) -> Seq<char> {
    match error {
        RangeError::OffsetOutOfBounds { offset, valid } => {
            "offset "@
                + debug::digits(offset@)
                + " is outside "@
                + debug::range_shown(valid.lo()@, valid.hi()@)
        },
        RangeError::RangeOutOfBounds { requested, valid } => {
            "range "@
                + debug::range_shown(requested.lo()@, requested.hi()@)
                + " is outside "@
                + debug::range_shown(valid.lo()@, valid.hi()@)
        },
        RangeError::ReversedRange { start, end } => {
            "range start "@
                + debug::digits(start@)
                + " is after end "@
                + debug::digits(end@)
        },
        RangeError::NotCharBoundary { offset } => {
            "offset "@
                + debug::digits(offset@)
                + " is not a UTF-8 character boundary"@
        },
        RangeError::OffsetArithmeticOverflow { base, delta } => {
            "offset arithmetic overflow while adding "@
                + debug::digits(delta@)
                + " to "@
                + debug::digits(base@)
        },
    }
}

impl RangeError {
    /// Write out the message of this error.
    pub fn message(&self) -> (text: String)
        ensures
            text@ == range_error_message(*self),
    {
        match self {
            RangeError::OffsetOutOfBounds { offset, valid } => {
                let mut text = "offset ".to_owned();
                text.append(debug::decimal(offset.raw as u64).as_str());
                text.append(" is outside ");
                text.append(debug::show_range(*valid).as_str());
                text
            },
            RangeError::RangeOutOfBounds { requested, valid } => {
                let mut text = "range ".to_owned();
                text.append(debug::show_range(*requested).as_str());
                text.append(" is outside ");
                text.append(debug::show_range(*valid).as_str());
                text
            },
            RangeError::ReversedRange { start, end } => {
                let mut text = "range start ".to_owned();
                text.append(debug::decimal(start.raw as u64).as_str());
                text.append(" is after end ");
                text.append(debug::decimal(end.raw as u64).as_str());
                text
            },
            RangeError::NotCharBoundary { offset } => {
                let mut text = "offset ".to_owned();
                text.append(debug::decimal(offset.raw as u64).as_str());
                text.append(" is not a UTF-8 character boundary");
                text
            },
            RangeError::OffsetArithmeticOverflow { base, delta } => {
                let mut text = "offset arithmetic overflow while adding ".to_owned();
                text.append(debug::decimal(delta.raw as u64).as_str());
                text.append(" to ");
                text.append(debug::decimal(base.raw as u64).as_str());
                text
            },
        }
    }
}

/// The message of an error.
pub open spec fn traversal_error_message(error: TraversalError) -> Seq<char> {
    match error {
        TraversalError::NoNodeSubtree => "no entered node subtree is available to skip"@,
        TraversalError::SkipAlreadyRequested => {
            "the current node subtree is already marked for skipping"@
        },
    }
}

impl TraversalError {
    /// Write out the message of this error.
    pub fn message(&self) -> (text: String)
        ensures
            text@ == traversal_error_message(*self),
    {
        match self {
            TraversalError::NoNodeSubtree => {
                "no entered node subtree is available to skip".to_owned()
            },
            TraversalError::SkipAlreadyRequested => {
                "the current node subtree is already marked for skipping".to_owned()
            },
        }
    }
}

/// The message of an error.
pub open spec fn resolve_error_message(error: ResolveError) -> Seq<char> {
    match error {
        ResolveError::RootHasParent => "pointer resolution requires a root node"@,
    }
}

impl ResolveError {
    /// Write out the message of this error.
    pub fn message(&self) -> (text: String)
        ensures
            text@ == resolve_error_message(*self),
    {
        match self {
            ResolveError::RootHasParent => "pointer resolution requires a root node".to_owned(),
        }
    }
}

/// The message of an error.
pub open spec fn ast_error_message(error: AstError) -> Seq<char> {
    match error {
        AstError::CloneCastRejected { kind } => {
            "AST cast rejected cloned syntax kind "@
                + debug::kind_shown(kind)
        },
    }
}

impl AstError {
    /// Write out the message of this error.
    pub fn message(&self) -> (text: String)
        ensures
            text@ == ast_error_message(*self),
    {
        match self {
            AstError::CloneCastRejected { kind } => {
                let mut text = "AST cast rejected cloned syntax kind ".to_owned();
                text.append(debug::show_kind(*kind).as_str());
                text
            },
        }
    }
}

impl<CallbackError> ChunkError<CallbackError> {
    /// Write out the message of this error.
    pub fn message(&self) -> (text: String)
        ensures
            match *self {
                ChunkError::Range(error) => text@ == range_error_message(error),
                ChunkError::Callback(_) => text@ == "text chunk callback failed"@,
            },
    {
        match self {
            ChunkError::Range(error) => error.message(),
            ChunkError::Callback(_) => "text chunk callback failed".to_owned(),
        }
    }
}

} // verus!
