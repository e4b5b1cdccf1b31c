//! Which walked entries take part in a scan: hidden files and files with
//! ignored extensions are left out.  The walker itself lives outside the
//! crate; it asks these predicates about each path it yields.

use vstd::prelude::*;

use crate::text::chars_of;
use crate::text::file_name_of;
use crate::text::is_name_part;
use crate::text::last_name_upto;
use crate::text::part_views;
use crate::text::push_char;
use crate::text::split_chars;
use crate::text::split_exec;
use crate::text::string_views;

verus! {

/// A path component that hides its subtree: it starts with a dot but is
/// neither the current- nor the parent-directory part.
pub open spec fn hidden_part(p: Seq<char>) -> bool {
    p.len() > 0 && p[0] == '.' && p != seq!['.'] && p != seq!['.', '.']
}

/// Whether any component of the path, the file's own name included, is
/// hidden.
pub open spec fn has_hidden_component(s: Seq<char>) -> bool {
    exists|i: int| 0 <= i < split_chars(true, s).len() && hidden_part(split_chars(true, s)[i])
}

/// The position of the last dot among the first `n` characters of a name.
pub open spec fn last_dot_upto(name: Seq<char>, n: int) -> Option<int>
    decreases n,
{
    if n <= 0 {
        None
    } else if name[n - 1] == '.' {
        Some(n - 1)
    } else {
        last_dot_upto(name, n - 1)
    }
}

/// What follows the last dot of a file name, provided that dot is not the
/// name's first character.
pub open spec fn name_extension(name: Seq<char>) -> Option<Seq<char>> {
    match last_dot_upto(name, name.len() as int) {
        None => None,
        Some(k) => if k > 0 {
            Some(name.subrange(k + 1, name.len() as int))
        } else {
            None
        },
    }
}

/// The extension of a path: the extension of its file name, when it has
/// either.
pub open spec fn extension_of(s: Seq<char>) -> Option<Seq<char>> {
    match file_name_of(s) {
        None => None,
        Some(name) => name_extension(name),
    }
}

/// Whether the path's extension is one of the ignored ones.
pub open spec fn is_ignored(s: Seq<char>, ignore: Seq<Seq<char>>) -> bool {
    match extension_of(s) {
        None => false,
        Some(e) => ignore.contains(e),
    }
}

/// Whether a scan lists the file at this path: no component of the path
/// may be hidden, and its extension must not be ignored.  Whether the
/// entry is a regular file at all is the walker's own knowledge.
pub open spec fn listed(s: Seq<char>, ignore: Seq<Seq<char>>) -> bool {
    !has_hidden_component(s) && !is_ignored(s, ignore)
}

/// Decide whether a scan lists the file at this path.
pub fn should_list(path: &str, ignore: &Vec<String>) -> (r: bool)
    ensures
        r == listed(path@, string_views(ignore@)),
{
    let chars = chars_of(path);
    let parts = split_exec(true, &chars);
    let np: usize = parts.len();

    let mut i: usize = 0;
    while i < np
        invariant
            i <= np,
            np == part_views(parts@).len(),
            part_views(parts@) == split_chars(true, path@),
            forall|j: int| 0 <= j < i ==> !hidden_part(part_views(parts@)[j]),
        decreases np - i,
    {
        let p = &parts[i];
        let hidden = if p.len() == 0 || p[0] != '.' {
            false
        } else if p.len() == 1 {
            proof {
                assert(p@ =~= seq!['.']);
            }
            false
        } else if p.len() == 2 && p[1] == '.' {
            proof {
                assert(p@ =~= seq!['.', '.']);
            }
            false
        } else {
            proof {
                assert(p@ != seq!['.']) by {
                    assert(p@.len() != 1);
                }
                assert(p@ != seq!['.', '.']) by {
                    if p@ == seq!['.', '.'] {
                        assert(p@.len() == 2 && p@[1] == '.');
                    }
                }
            }
            true
        };
        if hidden {
            proof {
                assert(hidden_part(part_views(parts@)[i as int]));
            }
            return false;
        }
        proof {
            assert(!hidden_part(part_views(parts@)[i as int]));
        }
        i = i + 1;
    }
    proof {
        assert(!has_hidden_component(path@));
    }

    match extension_exec(&parts, Ghost(path@)) {
        None => {
            proof {
                assert(extension_of(path@) is None);
            }
            true
        },
        Some(ext) => {
            let ne: usize = ignore.len();
            let mut k: usize = 0;
            while k < ne
                invariant
                    k <= ne,
                    ne == string_views(ignore@).len(),
                    extension_of(path@) == Some(ext@),
                    forall|j: int| 0 <= j < k ==> string_views(ignore@)[j] != ext@,
                decreases ne - k,
            {
                if crate::text::str_eq(ignore[k].as_str(), ext.as_str()) {
                    proof {
                        assert(string_views(ignore@)[k as int] == ext@);
                        assert(string_views(ignore@).contains(ext@));
                        assert(is_ignored(path@, string_views(ignore@)));
                    }
                    return false;
                }
                k = k + 1;
            }
            proof {
                assert(!string_views(ignore@).contains(ext@));
            }
            true
        },
    }
}

/// The extension among the given slash-parts of a path, as a string.
fn extension_exec(parts: &Vec<Vec<char>>, Ghost(s): Ghost<Seq<char>>) -> (r: Option<String>)
    requires
        part_views(parts@) == split_chars(true, s),
    ensures
        match r {
            Some(e) => extension_of(s) == Some(e@),
            None => extension_of(s) is None,
        },
{
    let np: usize = parts.len();
    let mut last: Option<&Vec<char>> = None;
    let mut i: usize = 0;
    while i < np
        invariant
            i <= np,
            np == part_views(parts@).len(),
            match last {
                Some(v) => last_name_upto(part_views(parts@), i as int) == Some(v@),
                None => last_name_upto(part_views(parts@), i as int) is None,
            },
        decreases np - i,
    {
        let p = &parts[i];
        let is_name = if p.len() == 0 {
            false
        } else if p.len() == 1 && p[0] == '.' {
            proof {
                assert(p@ =~= seq!['.']);
            }
            false
        } else {
            true
        };
        if is_name {
            proof {
                assert(is_name_part(part_views(parts@)[i as int]));
            }
            last = Some(&parts[i]);
        } else {
            proof {
                assert(!is_name_part(part_views(parts@)[i as int]));
            }
        }
        i = i + 1;
    }
    let name = match last {
        None => {
            return None;
        },
        Some(v) => v,
    };
    if name.len() == 2 && name[0] == '.' && name[1] == '.' {
        proof {
            assert(name@ =~= seq!['.', '.']);
        }
        return None;
    }
    proof {
        assert(name@ != seq!['.', '.']) by {
            if name@ == seq!['.', '.'] {
                assert(name@.len() == 2 && name@[0] == '.' && name@[1] == '.');
            }
        }
        assert(file_name_of(s) == Some(name@));
    }
    let nn: usize = name.len();
    let mut j: usize = nn;
    let mut dot: Option<usize> = None;
    while j > 0 && dot.is_none()
        invariant
            j <= nn,
            nn == name@.len(),
            match dot {
                Some(k) => k < nn && name@[k as int] == '.' && last_dot_upto(name@, nn as int)
                    == Some(k as int),
                None => last_dot_upto(name@, nn as int) == last_dot_upto(name@, j as int),
            },
        decreases j,
    {
        if name[j - 1] == '.' {
            dot = Some(j - 1);
        }
        j = j - 1;
    }
    match dot {
        Some(k) => {
            if k > 0 {
                let mut out = String::new();
                let mut m: usize = k + 1;
                while m < nn
                    invariant
                        k + 1 <= m <= nn,
                        nn == name@.len(),
                        out@ =~= name@.subrange(k as int + 1, m as int),
                    decreases nn - m,
                {
                    push_char(&mut out, name[m]);
                    m = m + 1;
                    proof {
                        assert(out@ =~= name@.subrange(k as int + 1, m as int));
                    }
                }
                proof {
                    assert(out@ =~= name@.subrange(k as int + 1, nn as int));
                }
                Some(out)
            } else {
                None
            }
        },
        None => None,
    }
}

} // verus!
