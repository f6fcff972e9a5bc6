//! A comparison profile: the plain configuration values a configuration
//! file carries, and their translation into `CompareOptions`.

use vstd::prelude::*;
use crate::compare::CompareOptions;
use crate::error::JsonDiffError;
use crate::path::JsonPath;
use crate::path::SpecPath;

verus! {

/// Mathematical model of a profile.
#[verifier::ext_equal]
pub struct SpecProfile {
    pub ignore: Seq<Seq<char>>,
    pub unordered: Seq<Seq<char>>,
    pub show_nested_differences: bool,
    pub identify_array_item_changes: Option<bool>,
}

/// Comparison rules as loaded from a profile file.
#[derive(Debug)]
pub struct Profile {
    /// Addresses to ignore.
    pub ignore: Vec<String>,
    /// Addresses of arrays to compare without considering order.
    pub unordered: Vec<String>,
    /// Whether to show nested differences in unordered arrays.
    pub show_nested_differences: bool,
    /// Whether to identify specific different items in arrays; defaults on
    /// when absent.
    pub identify_array_item_changes: Option<bool>,
}

impl View for Profile {
    type V = SpecProfile;

    open spec fn view(&self) -> SpecProfile {
        SpecProfile {
            ignore: Seq::new(self.ignore@.len(), |i: int| self.ignore@[i]@),
            unordered: Seq::new(self.unordered@.len(), |i: int| self.unordered@[i]@),
            show_nested_differences: self.show_nested_differences,
            identify_array_item_changes: self.identify_array_item_changes,
        }
    }
}

/// The options a profile denotes: each address becomes an exact pattern,
/// and per-item array changes default to on.
pub open spec fn spec_options_of_profile(p: SpecProfile) -> crate::compare::SpecOptions {
    crate::compare::SpecOptions {
        ignore: Seq::new(p.ignore.len(), |i: int| SpecPath { path: p.ignore[i], pattern: None }),
        unordered: Seq::new(
            p.unordered.len(),
            |i: int| SpecPath { path: p.unordered[i], pattern: None },
        ),
        show_nested: p.show_nested_differences,
        identify: match p.identify_array_item_changes {
            Some(b) => b,
            None => true,
        },
    }
}

/// Builds comparison options from a profile.  Every address becomes an
/// exact pattern, so this cannot fail.
pub fn options_from_profile(profile: &Profile) -> (r: Result<CompareOptions, JsonDiffError>)
    ensures
        r matches Ok(o) && o@ == spec_options_of_profile(profile@) && o.wf(),
{
    let mut options = CompareOptions {
        ignore_paths: Vec::new(),
        unordered_arrays: Vec::new(),
        show_nested_differences: false,
        identify_array_item_changes: true,
    };

    let n = profile.ignore.len();
    let mut i: usize = 0;
    while i < n
        invariant
            i <= n,
            n == profile.ignore@.len(),
            options.ignore_paths@.len() == i,
            forall|k: int|
                0 <= k < i ==> (#[trigger] options.ignore_paths@[k])@ == (SpecPath {
                    path: profile.ignore@[k]@,
                    pattern: None,
                }) && options.ignore_paths@[k].wf(),
            options.unordered_arrays@.len() == 0,
            options.show_nested_differences == false,
            options.identify_array_item_changes == true,
        decreases n - i,
    {
        match JsonPath::new(profile.ignore[i].as_str()) {
            Ok(p) => {
                options.ignore_paths.push(p);
            },
            Err(e) => {
                return Err(e);
            },
        }
        i = i + 1;
    }

    let m = profile.unordered.len();
    let mut j: usize = 0;
    while j < m
        invariant
            j <= m,
            m == profile.unordered@.len(),
            options.ignore_paths@.len() == profile.ignore@.len(),
            forall|k: int|
                0 <= k < profile.ignore@.len() ==> (#[trigger] options.ignore_paths@[k])@
                    == (SpecPath { path: profile.ignore@[k]@, pattern: None })
                    && options.ignore_paths@[k].wf(),
            options.unordered_arrays@.len() == j,
            forall|k: int|
                0 <= k < j ==> (#[trigger] options.unordered_arrays@[k])@ == (SpecPath {
                    path: profile.unordered@[k]@,
                    pattern: None,
                }) && options.unordered_arrays@[k].wf(),
            options.show_nested_differences == false,
            options.identify_array_item_changes == true,
        decreases m - j,
    {
        match JsonPath::new(profile.unordered[j].as_str()) {
            Ok(p) => {
                options.unordered_arrays.push(p);
            },
            Err(e) => {
                return Err(e);
            },
        }
        j = j + 1;
    }

    options.show_nested_differences = profile.show_nested_differences;
    match profile.identify_array_item_changes {
        Some(identify) => {
            options.identify_array_item_changes = identify;
        },
        None => {},
    }

    proof {
        assert(options@.ignore =~= spec_options_of_profile(profile@).ignore);
        assert(options@.unordered =~= spec_options_of_profile(profile@).unordered);
        assert(options@ =~= spec_options_of_profile(profile@));
    }
    Ok(options)
}

} // verus!
