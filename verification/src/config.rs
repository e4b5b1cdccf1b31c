//! Run configuration: which root to examine, which trees to compare it
//! against, whether to delete or only report, and how to pick the member of
//! a duplicate group that survives.

use std::str::FromStr;

use vstd::prelude::*;

use crate::text::lower_chars;
use crate::text::chars_of;
use crate::text::to_lower_char;

verus! {

/// The configuration of one engine run.
#[derive(Clone, Debug)]
pub struct Args {
    /// The root path to be examined; the current directory when absent.
    pub path: Option<String>,
    /// Additional trees to compare against the root; files under the root
    /// are preferred.
    pub compare: Vec<String>,
    /// Remove duplicate files instead of reporting them.
    pub force: bool,
    /// Keep the oldest or newest file instead of the most descriptive one.
    /// Only the single-tree pipeline consults this.
    pub sort: Option<SortOrder>,
    /// Do not recurse into subdirectories of the root path.
    pub no_recurse: bool,
}

/// Which member of a duplicate group is kept.
#[derive(Copy, Clone, Debug, Default, PartialEq, Eq, Structural)]
pub enum SortOrder {
    /// Keep the most descriptively named file.
    #[default]
    Descriptive,
    /// Keep the newest file.
    Newest,
    /// Keep the oldest file.
    Oldest,
}

/// The sort order named by a string, compared case-insensitively; either
/// the full word or its first letter is accepted.
pub open spec fn sort_order_of(s: Seq<char>) -> Option<SortOrder> {
    let l = lower_chars(s);
    if l == "d"@ || l == "descriptive"@ {
        Some(SortOrder::Descriptive)
    } else if l == "o"@ || l == "oldest"@ {
        Some(SortOrder::Oldest)
    } else if l == "n"@ || l == "newest"@ {
        Some(SortOrder::Newest)
    } else {
        None
    }
}

/// Whether the case-folded characters of `s` spell exactly `lit`.
fn lower_matches(s: &str, lit: &str) -> (r: bool)
    ensures
        r == (lower_chars(s@) == lit@),
{
    let n: usize = s.unicode_len();
    if n != lit.unicode_len() {
        return false;
    }
    let mut i: usize = 0;
    while i < n
        invariant
            i <= n,
            n == s@.len(),
            n == lit@.len(),
            forall|j: int| 0 <= j < i ==> crate::text::lower_char(s@[j]) == lit@[j],
        decreases n - i,
    {
        if to_lower_char(s.get_char(i)) != lit.get_char(i) {
            return false;
        }
        i = i + 1;
    }
    proof {
        assert(lower_chars(s@) =~= lit@);
    }
    true
}

/// Decide which sort order a string names, or report the string back when
/// it names none.
fn parse_sort_order(s: &str) -> (r: Result<SortOrder, ParseSortOrderError>)
    ensures
        match r {
            Ok(o) => sort_order_of(s@) == Some(o),
            Err(e) => sort_order_of(s@) is None && e.input() == s@,
        },
{
    if lower_matches(s, "d") || lower_matches(s, "descriptive") {
        Ok(SortOrder::Descriptive)
    } else if lower_matches(s, "o") || lower_matches(s, "oldest") {
        Ok(SortOrder::Oldest)
    } else if lower_matches(s, "n") || lower_matches(s, "newest") {
        Ok(SortOrder::Newest)
    } else {
        Err(ParseSortOrderError(s.to_owned()))
    }
}

impl FromStr for SortOrder {
    type Err = ParseSortOrderError;

    fn from_str(s: &str) -> Result<SortOrder, ParseSortOrderError> {
        parse_sort_order(s)
    }
}

/// The error carried when a string names no sort order; it keeps the
/// offending input.
#[derive(Clone, Debug)]
pub struct ParseSortOrderError(String);

impl ParseSortOrderError {
    /// The input that named no sort order.
    pub closed spec fn input(&self) -> Seq<char> {
        self.0@
    }

    /// A one-line description: the offending input between quotes, and the
    /// accepted alternatives.
    pub fn message(&self) -> (r: String)
        ensures
            r@ == seq!['"'] + self.input() + seq!['"']
                + " is not a valid sort order\nTry one of descriptive, oldest, newest"@,
    {
        proof {
            reveal_strlit("\"");
        }
        let mut r = "\"".to_owned();
        r.append(self.0.as_str());
        r.append("\"");
        r.append(" is not a valid sort order\nTry one of descriptive, oldest, newest");
        r
    }
}

impl Args {
    /// The root path to examine: the one given, or the current directory.
    pub open spec fn spec_path(&self) -> Seq<char> {
        match self.path {
            Some(p) => p@,
            None => "."@,
        }
    }

    /// The root path to examine.
    pub fn path(&self) -> (r: &str)
        ensures
            r@ == self.spec_path(),
    {
        match &self.path {
            Some(p) => p.as_str(),
            None => ".",
        }
    }

    /// The selected retention policy; descriptive when none was named.
    pub fn sort_order(&self) -> (r: SortOrder)
        ensures
            r == match self.sort {
                Some(s) => s,
                None => SortOrder::Descriptive,
            },
    {
        match self.sort {
            Some(s) => s,
            None => SortOrder::Descriptive,
        }
    }

    /// Whether the walk of the root descends into subdirectories.
    pub fn recurse(&self) -> (r: bool)
        ensures
            r == !self.no_recurse,
    {
        !self.no_recurse
    }
}

} // verus!
