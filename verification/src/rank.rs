//! The retention ranker: orders the members of a duplicate group so that the
//! most "descriptive" path wins and is kept.
//!
//! A path is ranked by a composite key: the number of its path components
//! first, then how many of its name tokens are known dictionary words, and
//! finally whether its file name is free of a parenthesized copy number such
//! as the "(1)" that auto-renaming appends.  More components win, then more
//! words, then "not an obvious copy".

use vstd::prelude::*;

use crate::text::lower_char;
use crate::text::lower_chars;
use crate::text::is_digit_char;
use crate::text::to_lower_char;
use crate::text::chars_of;
use crate::text::chars_eq;
use crate::text::split_exec;
use crate::text::split_chars;
use crate::text::part_views;
use crate::text::is_name_part;
use crate::text::last_name_upto;
use crate::text::file_name_of;
use crate::text::file_name_exec;
use crate::text::split_from;

verus! {

/// Whether a part counts as a path component: it must be non-empty, and a
/// bare dot only counts in the leading position, mirroring how standard
/// path components are normalized.
pub open spec fn is_kept_part(p: Seq<char>, first: bool) -> bool {
    p.len() > 0 && (first || p != seq!['.'])
}

/// How many of the first `n` parts count as path components.
pub open spec fn kept_upto(ps: Seq<Seq<char>>, n: int) -> int
    decreases n,
{
    if n <= 0 {
        0
    } else {
        kept_upto(ps, n - 1) + if is_kept_part(ps[n - 1], n - 1 == 0) {
            1int
        } else {
            0int
        }
    }
}

/// The number of components of a path: its kept slash-parts, plus one for
/// a leading root slash.
pub open spec fn segments_of(s: Seq<char>) -> int {
    kept_upto(split_chars(true, s), split_chars(true, s).len() as int) + if s.len() > 0 && s[0]
        == '/' {
        1int
    } else {
        0int
    }
}

/// The name tokens of the first `n` parts, concatenated in order.
pub open spec fn tokens_upto(ps: Seq<Seq<char>>, n: int) -> Seq<Seq<char>>
    decreases n,
{
    if n <= 0 {
        Seq::empty()
    } else {
        tokens_upto(ps, n - 1) + split_chars(false, ps[n - 1])
    }
}

/// How many of the first `n` tokens match a dictionary word after case
/// folding.
pub open spec fn matched_upto(ts: Seq<Seq<char>>, dict: Seq<Seq<char>>, n: int) -> int
    decreases n,
{
    if n <= 0 {
        0
    } else {
        matched_upto(ts, dict, n - 1) + if dict.contains(lower_chars(ts[n - 1])) {
            1int
        } else {
            0int
        }
    }
}

/// The word count of a path against a dictionary: over all slash-parts, how
/// many of their tokens case-insensitively match a dictionary word.
pub open spec fn words_of(s: Seq<char>, dict: Seq<Seq<char>>) -> int {
    let ps = split_chars(true, s);
    let ts = tokens_upto(ps, ps.len() as int);
    matched_upto(ts, dict, ts.len() as int)
}

/// A parenthesized run of at least one digit standing at positions `i`
/// through `j` of a name.
pub open spec fn marker_at(s: Seq<char>, i: int, j: int) -> bool {
    &&& 0 <= i
    &&& i + 1 < j
    &&& j < s.len()
    &&& s[i] == '('
    &&& s[j] == ')'
    &&& forall|k: int| i < k < j ==> is_digit_char(s[k])
}

/// Whether a name carries a duplicate marker: a parenthesized number such
/// as the "(1)" that copy-renaming appends.
pub open spec fn has_marker(s: Seq<char>) -> bool {
    exists|i: int, j: int| marker_at(s, i, j)
}

/// Whether a path's file name is free of a duplicate marker.  Paths with
/// no file name at all count as unique.
pub open spec fn is_unique_name(s: Seq<char>) -> bool {
    match file_name_of(s) {
        Some(n) => !has_marker(n),
        None => true,
    }
}

/// The composite retention key of one path.  Keys are compared
/// lexicographically: component count first, then word count, then the
/// absence of a duplicate marker.  A greater key is retained in preference
/// to a smaller one.
#[derive(Clone, Copy, Debug, PartialEq, Eq, PartialOrd, Ord, Structural)]
pub struct Rank {
    /// Number of path components.
    pub segments: usize,
    /// Number of name tokens that match a dictionary word.
    pub words: usize,
    /// Whether the file name is free of a parenthesized copy number.
    pub is_unique: bool,
}

/// The lexicographic order on ranks, mirroring how the derived ordering
/// compares the fields in declaration order.
pub open spec fn rank_le(a: Rank, b: Rank) -> bool {
    ||| a.segments < b.segments
    ||| (a.segments == b.segments && a.words < b.words)
    ||| (a.segments == b.segments && a.words == b.words && (!a.is_unique || b.is_unique))
}

/// Decide the lexicographic order on two ranks.
pub fn rank_le_exec(a: &Rank, b: &Rank) -> (r: bool)
    ensures
        r == rank_le(*a, *b),
{
    if a.segments != b.segments {
        a.segments < b.segments
    } else if a.words != b.words {
        a.words < b.words
    } else {
        !a.is_unique || b.is_unique
    }
}

/// Case folding of a whole character vector.
fn lower_exec(t: &Vec<char>) -> (r: Vec<char>)
    ensures
        r@ == lower_chars(t@),
{
    let n: usize = t.len();
    let mut r: Vec<char> = Vec::new();
    let mut i: usize = 0;
    while i < n
        invariant
            i <= n,
            n == t@.len(),
            r@.len() == i,
            forall|j: int| 0 <= j < i ==> r@[j] == lower_char(t@[j]),
        decreases n - i,
    {
        r.push(to_lower_char(t[i]));
        i = i + 1;
    }
    proof {
        assert(r@ =~= lower_chars(t@));
    }
    r
}

/// The fixed dictionary of known words that the default ranker recognizes,
/// all lower case.
pub open spec fn dictionary_words() -> Seq<Seq<char>> {
    seq![
        "and"@,
        "april"@,
        "august"@,
        "autumn"@,
        "baby"@,
        "backup"@,
        "beach"@,
        "birthday"@,
        "book"@,
        "by"@,
        "camera"@,
        "cat"@,
        "christmas"@,
        "copy"@,
        "dad"@,
        "december"@,
        "dinner"@,
        "document"@,
        "dog"@,
        "draft"@,
        "edit"@,
        "family"@,
        "february"@,
        "festival"@,
        "file"@,
        "friends"@,
        "garden"@,
        "graduation"@,
        "hello"@,
        "holiday"@,
        "home"@,
        "house"@,
        "image"@,
        "invoice"@,
        "january"@,
        "july"@,
        "june"@,
        "kids"@,
        "letter"@,
        "march"@,
        "may"@,
        "mom"@,
        "movie"@,
        "music"@,
        "new"@,
        "night"@,
        "notes"@,
        "november"@,
        "october"@,
        "old"@,
        "party"@,
        "photo"@,
        "picture"@,
        "project"@,
        "receipt"@,
        "report"@,
        "scan"@,
        "school"@,
        "screenshot"@,
        "september"@,
        "song"@,
        "spring"@,
        "summer"@,
        "sunset"@,
        "trip"@,
        "vacation"@,
        "video"@,
        "wedding"@,
        "winter"@,
        "work"@,
        "world"@,
        "year"@,
    ]
}

/// Ranks paths by descriptiveness against a fixed word dictionary.
pub struct PathRanker {
    dictionary: Vec<Vec<char>>,
}

impl View for PathRanker {
    type V = Seq<Seq<char>>;

    closed spec fn view(&self) -> Seq<Seq<char>> {
        part_views(self.dictionary@)
    }
}

impl PathRanker {
    /// A ranker over the fixed dictionary of known words.
    pub fn new() -> (r: PathRanker)
        ensures
            r@ == dictionary_words(),
    {
        let dictionary: Vec<Vec<char>> = vec![
            chars_of("and"),
            chars_of("april"),
            chars_of("august"),
            chars_of("autumn"),
            chars_of("baby"),
            chars_of("backup"),
            chars_of("beach"),
            chars_of("birthday"),
            chars_of("book"),
            chars_of("by"),
            chars_of("camera"),
            chars_of("cat"),
            chars_of("christmas"),
            chars_of("copy"),
            chars_of("dad"),
            chars_of("december"),
            chars_of("dinner"),
            chars_of("document"),
            chars_of("dog"),
            chars_of("draft"),
            chars_of("edit"),
            chars_of("family"),
            chars_of("february"),
            chars_of("festival"),
            chars_of("file"),
            chars_of("friends"),
            chars_of("garden"),
            chars_of("graduation"),
            chars_of("hello"),
            chars_of("holiday"),
            chars_of("home"),
            chars_of("house"),
            chars_of("image"),
            chars_of("invoice"),
            chars_of("january"),
            chars_of("july"),
            chars_of("june"),
            chars_of("kids"),
            chars_of("letter"),
            chars_of("march"),
            chars_of("may"),
            chars_of("mom"),
            chars_of("movie"),
            chars_of("music"),
            chars_of("new"),
            chars_of("night"),
            chars_of("notes"),
            chars_of("november"),
            chars_of("october"),
            chars_of("old"),
            chars_of("party"),
            chars_of("photo"),
            chars_of("picture"),
            chars_of("project"),
            chars_of("receipt"),
            chars_of("report"),
            chars_of("scan"),
            chars_of("school"),
            chars_of("screenshot"),
            chars_of("september"),
            chars_of("song"),
            chars_of("spring"),
            chars_of("summer"),
            chars_of("sunset"),
            chars_of("trip"),
            chars_of("vacation"),
            chars_of("video"),
            chars_of("wedding"),
            chars_of("winter"),
            chars_of("work"),
            chars_of("world"),
            chars_of("year"),
        ];
        let r = PathRanker { dictionary };
        proof {
            assert(r@ =~= dictionary_words());
        }
        r
    }

    /// Whether the case-folded token is a known dictionary word.
    fn contains_word(&self, t: &Vec<char>) -> (r: bool)
        ensures
            r == self@.contains(t@),
    {
        let n: usize = self.dictionary.len();
        let mut i: usize = 0;
        while i < n
            invariant
                i <= n,
                n == self.dictionary@.len(),
                forall|j: int| 0 <= j < i ==> self@[j] != t@,
            decreases n - i,
        {
            if chars_eq(&self.dictionary[i], t) {
                proof {
                    assert(self@[i as int] == t@);
                }
                return true;
            }
            i = i + 1;
        }
        false
    }

    /// The retention key of one path: component count, dictionary word
    /// count and the absence of a duplicate marker in its file name.
    pub fn rank(&self, path: &str) -> (r: Rank)
        ensures
            r.segments == segments_of(path@),
            r.words == words_of(path@, self@),
            r.is_unique == is_unique_name(path@),
    {
        let chars = chars_of(path);
        let parts = split_exec(true, &chars);
        let segments = count_segments(&chars, &parts);
        let words = self.count_words(&parts);
        let is_unique = match file_name_exec(&parts) {
            Some(name) => !has_marker_exec(&name),
            None => true,
        };
        Rank { segments, words, is_unique }
    }

    /// How many tokens of the given parts match the dictionary.
    fn count_words(&self, parts: &Vec<Vec<char>>) -> (r: usize)
        ensures
            r == matched_upto(
                tokens_upto(part_views(parts@), part_views(parts@).len() as int),
                self@,
                tokens_upto(part_views(parts@), part_views(parts@).len() as int).len() as int,
            ),
    {
        let np: usize = parts.len();
        let mut toks: Vec<Vec<char>> = Vec::new();
        let mut i: usize = 0;
        while i < np
            invariant
                i <= np,
                np == part_views(parts@).len(),
                part_views(toks@) =~= tokens_upto(part_views(parts@), i as int),
            decreases np - i,
        {
            let ghost old_toks = part_views(toks@);
            let mut part_toks = split_exec(false, &parts[i]);
            let ghost added = part_views(part_toks@);
            toks.append(&mut part_toks);
            i = i + 1;
            proof {
                assert(part_views(toks@) =~= old_toks + added);
            }
        }
        let nt: usize = toks.len();
        let ghost ts = part_views(toks@);
        let mut count: usize = 0;
        let mut j: usize = 0;
        while j < nt
            invariant
                j <= nt,
                nt == ts.len(),
                ts == part_views(toks@),
                count <= j,
                count == matched_upto(ts, self@, j as int),
            decreases nt - j,
        {
            let low = lower_exec(&toks[j]);
            if self.contains_word(&low) {
                count = count + 1;
            }
            j = j + 1;
        }
        count
    }
}

/// Count the path components among the given parts of the given characters:
/// the kept parts, plus one for a leading root slash.
fn count_segments(chars: &Vec<char>, parts: &Vec<Vec<char>>) -> (r: usize)
    requires
        part_views(parts@) == split_chars(true, chars@),
    ensures
        r == segments_of(chars@),
{
    let np: usize = parts.len();
    let mut kept: usize = 0;
    let mut i: usize = 0;
    while i < np
        invariant
            i <= np,
            np == part_views(parts@).len(),
            part_views(parts@) == split_chars(true, chars@),
            kept == kept_upto(part_views(parts@), i as int),
            kept <= i,
            i >= 1 && !is_kept_part(part_views(parts@)[0], true) ==> kept <= i - 1,
        decreases np - i,
    {
        let p = &parts[i];
        let keep = if p.len() == 0 {
            false
        } else if i > 0 && p.len() == 1 && p[0] == '.' {
            proof {
                assert(part_views(parts@)[i as int] =~= seq!['.']);
            }
            false
        } else {
            true
        };
        if keep {
            proof {
                assert(is_kept_part(part_views(parts@)[i as int], i == 0));
            }
            kept = kept + 1;
        } else {
            proof {
                assert(!is_kept_part(part_views(parts@)[i as int], i == 0));
            }
        }
        i = i + 1;
    }
    if chars.len() > 0 && chars[0] == '/' {
        proof {
            assert(split_chars(true, chars@)[0] =~= Seq::<char>::empty()) by {
                assert(split_from(true, chars@, Seq::empty()) == seq![Seq::<char>::empty()]
                    + split_from(true, chars@.drop_first(), Seq::empty()));
            }
            assert(!is_kept_part(part_views(parts@)[0], true));
            assert(np >= 1);
        }
        kept + 1
    } else {
        kept
    }
}

/// Whether a name holds a parenthesized run of at least one digit.
fn has_marker_exec(name: &Vec<char>) -> (r: bool)
    ensures
        r == has_marker(name@),
{
    let n: usize = name.len();
    let mut i: usize = 0;
    while i < n
        invariant
            i <= n,
            n == name@.len(),
            forall|ii: int, jj: int| ii < i ==> !marker_at(name@, ii, jj),
        decreases n - i,
    {
        if name[i] == '(' {
            let mut j: usize = i + 1;
            while j < n && '0' <= name[j] && name[j] <= '9'
                invariant
                    i < j <= n,
                    n == name@.len(),
                    forall|k: int| i < k < j ==> is_digit_char(name@[k]),
                decreases n - j,
            {
                j = j + 1;
            }
            if j < n && j > i + 1 && name[j] == ')' {
                proof {
                    assert(marker_at(name@, i as int, j as int));
                }
                return true;
            }
            proof {
                assert forall|jj: int| !marker_at(name@, i as int, jj) by {
                    if i + 1 < jj < n {
                        if jj < j {
                            assert(is_digit_char(name@[jj]));
                        } else if jj == j {
                        } else {
                            assert(j < n ==> !is_digit_char(name@[j as int]));
                            assert(jj < name@.len() ==> j < name@.len());
                        }
                    }
                }
            }
        } else {
            proof {
                assert forall|jj: int| !marker_at(name@, i as int, jj) by {}
            }
        }
        i = i + 1;
    }
    proof {
        assert forall|ii: int, jj: int| !marker_at(name@, ii, jj) by {
            if 0 <= ii < n {
                assert(!marker_at(name@, ii, jj));
            }
        }
    }
    false
}

} // verus!
