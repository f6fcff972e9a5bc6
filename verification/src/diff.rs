//! The diff data model: the kind of a difference, one reported entry, and
//! the result of a whole comparison.

use vstd::prelude::*;
use crate::value::JsonValue;
use crate::value::SpecValue;

verus! {

/// The kind of difference reported by one entry.
#[derive(Debug, Clone, Copy, PartialEq, Eq, Structural)]
pub enum DiffType {
    Added,
    Removed,
    Modified,
    ArrayItemChanged,
    ArrayReordered,
    Ignored,
}

impl DiffType {
    /// The one-character glyph of this kind.
    pub open spec fn spec_symbol(self) -> Seq<char> {
        match self {
            DiffType::Added => "+"@,
            DiffType::Removed => "-"@,
            DiffType::Modified => "~"@,
            DiffType::ArrayItemChanged => "!"@,
            DiffType::ArrayReordered => "*"@,
            DiffType::Ignored => "?"@,
        }
    }

    /// The keyword of this kind.
    pub open spec fn spec_readable_text(self) -> Seq<char> {
        match self {
            DiffType::Added => "ADDED"@,
            DiffType::Removed => "REMOVED"@,
            DiffType::Modified => "MODIFIED"@,
            DiffType::ArrayItemChanged => "ARRAY_ITEM_CHANGED"@,
            DiffType::ArrayReordered => "ARRAY_REORDERED"@,
            DiffType::Ignored => "IGNORED"@,
        }
    }

    /// The human description of this kind.
    pub open spec fn spec_description(self) -> Seq<char> {
        match self {
            DiffType::Added => "Property exists in target but not in source"@,
            DiffType::Removed => "Property exists in source but not in target"@,
            DiffType::Modified => "Property exists in both but with different values"@,
            DiffType::ArrayItemChanged => "Array item has changed"@,
            DiffType::ArrayReordered => "Array elements are reordered"@,
            DiffType::Ignored => "Property was ignored based on configuration"@,
        }
    }

    /// Get the symbol representation of the diff type.
    pub fn symbol(&self) -> (r: &'static str)
        ensures
            r@ == self.spec_symbol(),
    {
        match self {
            DiffType::Added => "+",
            DiffType::Removed => "-",
            DiffType::Modified => "~",
            DiffType::ArrayItemChanged => "!",
            DiffType::ArrayReordered => "*",
            DiffType::Ignored => "?",
        }
    }

    /// Get the readable text representation of the diff type.
    pub fn readable_text(&self) -> (r: &'static str)
        ensures
            r@ == self.spec_readable_text(),
    {
        match self {
            DiffType::Added => "ADDED",
            DiffType::Removed => "REMOVED",
            DiffType::Modified => "MODIFIED",
            DiffType::ArrayItemChanged => "ARRAY_ITEM_CHANGED",
            DiffType::ArrayReordered => "ARRAY_REORDERED",
            DiffType::Ignored => "IGNORED",
        }
    }

    /// Get a description of what the diff type means.
    pub fn description(&self) -> (r: &'static str)
        ensures
            r@ == self.spec_description(),
    {
        match self {
            DiffType::Added => "Property exists in target but not in source",
            DiffType::Removed => "Property exists in source but not in target",
            DiffType::Modified => "Property exists in both but with different values",
            DiffType::ArrayItemChanged => "Array item has changed",
            DiffType::ArrayReordered => "Array elements are reordered",
            DiffType::Ignored => "Property was ignored based on configuration",
        }
    }
}

/// Mathematical model of one diff entry.
#[verifier::ext_equal]
pub struct SpecEntry {
    pub diff_type: DiffType,
    pub path: Seq<char>,
    pub old_value: Option<SpecValue>,
    pub new_value: Option<SpecValue>,
    pub left_line: Option<usize>,
    pub right_line: Option<usize>,
}

/// A single difference entry.
#[derive(Debug)]
pub struct DiffEntry {
    /// Type of difference.
    pub diff_type: DiffType,
    /// Path to the difference.
    pub path: String,
    /// Original value (if applicable).
    pub old_value: Option<JsonValue>,
    /// New value (if applicable).
    pub new_value: Option<JsonValue>,
    /// Line number in the left/source file (if applicable).
    pub left_line: Option<usize>,
    /// Line number in the right/target file (if applicable).
    pub right_line: Option<usize>,
}

impl View for DiffEntry {
    type V = SpecEntry;

    open spec fn view(&self) -> SpecEntry {
        SpecEntry {
            diff_type: self.diff_type,
            path: self.path@,
            old_value: match self.old_value {
                Some(v) => Some(v.deep()),
                None => None,
            },
            new_value: match self.new_value {
                Some(v) => Some(v.deep()),
                None => None,
            },
            left_line: self.left_line,
            right_line: self.right_line,
        }
    }
}

impl Clone for DiffEntry {
    /// A clone denotes the same entry.
    fn clone(&self) -> (r: Self)
        ensures
            r@ == self@,
    {
        let r = DiffEntry {
            diff_type: self.diff_type,
            path: self.path.clone(),
            old_value: match &self.old_value {
                Some(v) => Some(v.clone()),
                None => None,
            },
            new_value: match &self.new_value {
                Some(v) => Some(v.clone()),
                None => None,
            },
            left_line: self.left_line,
            right_line: self.right_line,
        };
        proof {
            assert(r@ =~= self@);
        }
        r
    }
}

/// The views of a sequence of entries.
pub open spec fn entries_view(es: Seq<DiffEntry>) -> Seq<SpecEntry> {
    Seq::new(es.len(), |i: int| es[i]@)
}

pub proof fn lemma_entries_view_push(es: Seq<DiffEntry>, e: DiffEntry)
    ensures
        entries_view(es.push(e)) == entries_view(es) + seq![e@],
{
    assert(entries_view(es.push(e)) =~= entries_view(es) + seq![e@]);
}

/// Complete diff result between two documents.
#[derive(Debug)]
pub struct DiffResult {
    /// Path of the left (original) file, when the comparison came from files.
    pub left_file: Option<String>,
    /// Path of the right (modified) file, when the comparison came from files.
    pub right_file: Option<String>,
    /// When the diff was generated, as an RFC 3339 timestamp.
    pub timestamp: String,
    /// List of differences, ordered by position.
    pub entries: Vec<DiffEntry>,
}

} // verus!
