//! The value types that flow through every stage of the engine: the `Item`
//! carried by a rename batch, its kind, and the error kinds of the library.

use vstd::prelude::*;

verus! {

/// The kind of a filesystem entry, as reported by a scan; never guessed.
#[derive(Clone, Copy, PartialEq, Eq, Debug, Structural)]
pub enum ItemType {
    File,
    Directory,
}

/// One filesystem entry participating in a scan or a rename batch: where it
/// is now, where it should end up, and what it is.
#[derive(Debug)]
pub struct Item {
    pub source_path: String,
    pub target_path: String,
    pub item_type: ItemType,
}

impl Clone for Item {
    fn clone(&self) -> (r: Item)
        ensures
            r == *self,
    {
        Item {
            source_path: self.source_path.clone(),
            target_path: self.target_path.clone(),
            item_type: self.item_type,
        }
    }
}

/// The mathematical value of an [`Item`]: both paths as character sequences.
pub ghost struct ItemV {
    pub source_path: Seq<char>,
    pub target_path: Seq<char>,
    pub item_type: ItemType,
}

impl View for Item {
    type V = ItemV;

    open spec fn view(&self) -> ItemV {
        ItemV {
            source_path: self.source_path@,
            target_path: self.target_path@,
            item_type: self.item_type,
        }
    }
}

/// The views of a sequence of items.
pub open spec fn item_views(items: Seq<Item>) -> Seq<ItemV> {
    items.map_values(|it: Item| it@)
}

/// Everything that can go wrong in the engine. Validation errors are raised
/// before any plan is produced; `IoError` and `PartiallyApplied` describe
/// failures of an execution that mirrors a plan.
#[derive(Clone, Debug)]
pub enum Error {
    /// A root handed to a scan does not exist.
    NotFound { path: String },
    /// Two items of one batch share a source path.
    DuplicateSource { path: String },
    /// Two items of one batch share a target path.
    DuplicateTarget { path: String },
    /// An item's source path does not exist when the batch is validated.
    SourceMissing { path: String },
    /// An item's target path is occupied by something outside the batch.
    TargetExists { path: String },
    /// A colliding target has no parent directory to place a detour in.
    UnresolvableTarget { path: String },
    /// A read, rename or directory-creation failure outside the library.
    IoError { message: String },
    /// An execution aborted after `count` renames had already been applied.
    PartiallyApplied { count: usize, message: String },
}

/// The message of each error: a single line naming the offending path, or
/// the underlying message of an execution failure.
pub open spec fn error_message(e: Error) -> Seq<char> {
    match e {
        Error::NotFound { path } => "Path "@ + path@ + " does not exist."@,
        Error::DuplicateSource { path } => "Source path "@ + path@ + " is duplicated."@,
        Error::DuplicateTarget { path } => "Target path "@ + path@ + " is duplicated."@,
        Error::SourceMissing { path } => "Source path "@ + path@ + " does not exist."@,
        Error::TargetExists { path } => "Target path "@ + path@ + " exists."@,
        Error::UnresolvableTarget { path } => "Target path "@ + path@ + " cannot be resolved."@,
        Error::IoError { message } => message@,
        Error::PartiallyApplied { message, .. } => "The batch was partially applied: "@
            + message@,
    }
}

/// Renders an error as its single descriptive message, as `error_message`.
pub fn convert_error(error: Error) -> (r: String)
    ensures
        r@ == error_message(error),
{
    match error {
        Error::NotFound { path } => String::from_str("Path ").concat(path.as_str()).concat(
            " does not exist.",
        ),
        Error::DuplicateSource { path } => String::from_str("Source path ").concat(
            path.as_str(),
        ).concat(" is duplicated."),
        Error::DuplicateTarget { path } => String::from_str("Target path ").concat(
            path.as_str(),
        ).concat(" is duplicated."),
        Error::SourceMissing { path } => String::from_str("Source path ").concat(
            path.as_str(),
        ).concat(" does not exist."),
        Error::TargetExists { path } => String::from_str("Target path ").concat(
            path.as_str(),
        ).concat(" exists."),
        Error::UnresolvableTarget { path } => String::from_str("Target path ").concat(
            path.as_str(),
        ).concat(" cannot be resolved."),
        Error::IoError { message } => message,
        Error::PartiallyApplied { count: _, message } => String::from_str(
            "The batch was partially applied: ",
        ).concat(message.as_str()),
    }
}

} // verus!
