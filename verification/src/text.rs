//! Small verified helpers over characters and strings: ASCII case folding,
//! character classes, and decimal rendering of counters.

use vstd::prelude::*;

verus! {

/// ASCII capitals map to their small forms; every other character is kept.
pub open spec fn lower_char(c: char) -> char {
    if 'A' <= c && c <= 'Z' {
        (((c as u8) + 32) as u8) as char
    } else {
        c
    }
}

/// Case folding of a whole character sequence, ASCII letters only.
pub open spec fn lower_chars(s: Seq<char>) -> Seq<char> {
    s.map_values(|c: char| lower_char(c))
}

/// Decimal digit characters.
pub open spec fn is_digit_char(c: char) -> bool {
    '0' <= c && c <= '9'
}

/// Fold one character to lower case.
pub fn to_lower_char(c: char) -> (r: char)
    ensures
        r == lower_char(c),
{
    if 'A' <= c && c <= 'Z' {
        let b: u8 = c as u8;
        (b + 32) as char
    } else {
        c
    }
}

/// The characters of a string slice, in order, as a vector.
pub fn chars_of(s: &str) -> (r: Vec<char>)
    ensures
        r@ == s@,
{
    let n: usize = s.unicode_len();
    let mut r: Vec<char> = Vec::new();
    let mut i: usize = 0;
    while i < n
        invariant
            i <= n,
            n == s@.len(),
            r@ == s@.subrange(0, i as int),
        decreases n - i,
    {
        r.push(s.get_char(i));
        i = i + 1;
        proof {
            assert(r@ =~= s@.subrange(0, i as int));
        }
    }
    proof {
        assert(r@ =~= s@);
    }
    r
}

/// The character for one decimal digit value.
pub open spec fn digit_char(d: int) -> char {
    ((48 + d) as u8) as char
}

/// The usual decimal rendering of a natural number, most significant
/// digit first, with no leading zeroes.
pub open spec fn dec_digits(n: nat) -> Seq<char>
    decreases n,
{
    if n < 10 {
        seq![digit_char(n as int)]
    } else {
        dec_digits(n / 10) + seq![digit_char((n % 10) as int)]
    }
}

/// The single-character string for one decimal digit value.
fn digit_str(d: u64) -> (r: &'static str)
    requires
        d < 10,
    ensures
        r@ == seq![digit_char(d as int)],
{
    proof {
        reveal_strlit("0");
        reveal_strlit("1");
        reveal_strlit("2");
        reveal_strlit("3");
        reveal_strlit("4");
        reveal_strlit("5");
        reveal_strlit("6");
        reveal_strlit("7");
        reveal_strlit("8");
        reveal_strlit("9");
    }
    match d {
        0 => "0",
        1 => "1",
        2 => "2",
        3 => "3",
        4 => "4",
        5 => "5",
        6 => "6",
        7 => "7",
        8 => "8",
        _ => "9",
    }
}

/// Render a counter in decimal.
pub fn u64_to_string(n: u64) -> (r: String)
    ensures
        r@ == dec_digits(n as nat),
    decreases n,
{
    if n < 10 {
        String::from_str(digit_str(n))
    } else {
        let mut s = u64_to_string(n / 10);
        s.append(digit_str(n % 10));
        s
    }
}

/// Whether two string slices hold the same characters.
pub fn str_eq(a: &str, b: &str) -> (r: bool)
    ensures
        r == (a@ == b@),
{
    let an: usize = a.unicode_len();
    let bn: usize = b.unicode_len();
    if an != bn {
        proof {
            assert(a@ != b@) by {
                assert(a@.len() != b@.len());
            }
        }
        return false;
    }
    let mut i: usize = 0;
    while i < an
        invariant
            i <= an,
            an == a@.len(),
            an == b@.len(),
            forall|j: int| 0 <= j < i ==> a@[j] == b@[j],
        decreases an - i,
    {
        if a.get_char(i) != b.get_char(i) {
            return false;
        }
        i = i + 1;
    }
    proof {
        assert(a@ =~= b@);
    }
    true
}

/// Characters that separate name tokens: whitespace of the ASCII kind plus
/// the dot, underscore and dash that commonly glue file-name words.
pub open spec fn is_token_sep(c: char) -> bool {
    c == ' ' || c == '\t' || c == '\n' || c == '\r' || c == '\u{b}' || c == '\u{c}' || c == '.'
        || c == '_' || c == '-'
}

/// The separator class used by the splitter: path separators or token
/// separators.
pub open spec fn sep_char(by_slash: bool, c: char) -> bool {
    if by_slash {
        c == '/'
    } else {
        is_token_sep(c)
    }
}

/// Splitting with an accumulator: the parts of `acc + s`, where `acc` holds
/// the piece read so far.  Adjacent separators yield empty parts, exactly as
/// the standard splitting of strings does.
pub open spec fn split_from(by_slash: bool, s: Seq<char>, acc: Seq<char>) -> Seq<Seq<char>>
    decreases s.len(),
{
    if s.len() == 0 {
        seq![acc]
    } else if sep_char(by_slash, s[0]) {
        seq![acc] + split_from(by_slash, s.drop_first(), Seq::empty())
    } else {
        split_from(by_slash, s.drop_first(), acc.push(s[0]))
    }
}

/// The parts of a character sequence under the chosen separator class.
pub open spec fn split_chars(by_slash: bool, s: Seq<char>) -> Seq<Seq<char>> {
    split_from(by_slash, s, Seq::empty())
}

/// The character sequences held by a vector of character vectors.
pub open spec fn part_views(v: Seq<Vec<char>>) -> Seq<Seq<char>> {
    v.map_values(|p: Vec<char>| p@)
}

pub(crate) fn is_token_sep_exec(c: char) -> (r: bool)
    ensures
        r == is_token_sep(c),
{
    c == ' ' || c == '\t' || c == '\n' || c == '\r' || c == '\u{b}' || c == '\u{c}' || c == '.'
        || c == '_' || c == '-'
}

/// Split a character vector on the chosen separator class.
pub(crate) fn split_exec(by_slash: bool, s: &Vec<char>) -> (r: Vec<Vec<char>>)
    ensures
        part_views(r@) == split_chars(by_slash, s@),
{
    let n: usize = s.len();
    let mut out: Vec<Vec<char>> = Vec::new();
    let mut cur: Vec<char> = Vec::new();
    let mut i: usize = 0;
    proof {
        assert(s@.subrange(0, n as int) =~= s@);
    }
    while i < n
        invariant
            i <= n,
            n == s@.len(),
            split_chars(by_slash, s@) =~= part_views(out@) + split_from(
                by_slash,
                s@.subrange(i as int, n as int),
                cur@,
            ),
        decreases n - i,
    {
        let c = s[i];
        proof {
            assert(s@.subrange(i as int, n as int).drop_first() =~= s@.subrange(
                i as int + 1,
                n as int,
            ));
            assert(s@.subrange(i as int, n as int)[0] == s@[i as int]);
        }
        let ghost old_out = part_views(out@);
        let ghost old_cur = cur@;
        let is_sep = if by_slash {
            c == '/'
        } else {
            is_token_sep_exec(c)
        };
        if is_sep {
            out.push(cur);
            cur = Vec::new();
            proof {
                assert(part_views(out@) =~= old_out + seq![old_cur]);
            }
        } else {
            cur.push(c);
        }
        i = i + 1;
    }
    proof {
        assert(s@.subrange(i as int, n as int).len() == 0);
    }
    let ghost old_out = part_views(out@);
    let ghost old_cur = cur@;
    out.push(cur);
    proof {
        assert(part_views(out@) =~= old_out + seq![old_cur]);
        assert(part_views(out@) =~= split_chars(by_slash, s@));
    }
    out
}

/// Whether a part can serve as a file name: non-empty and not a bare dot.
pub open spec fn is_name_part(p: Seq<char>) -> bool {
    p.len() > 0 && p != seq!['.']
}

/// The last of the first `n` parts that can serve as a file name.
pub open spec fn last_name_upto(ps: Seq<Seq<char>>, n: int) -> Option<Seq<char>>
    decreases n,
{
    if n <= 0 {
        None
    } else if is_name_part(ps[n - 1]) {
        Some(ps[n - 1])
    } else {
        last_name_upto(ps, n - 1)
    }
}

/// The file name of a path: its last name-part, unless that part walks up
/// to the parent directory.
pub open spec fn file_name_of(s: Seq<char>) -> Option<Seq<char>> {
    let ps = split_chars(true, s);
    match last_name_upto(ps, ps.len() as int) {
        None => None,
        Some(p) => if p == seq!['.', '.'] {
            None
        } else {
            Some(p)
        },
    }
}

/// The character sequences of a list of owned strings.
pub open spec fn string_views(v: Seq<String>) -> Seq<Seq<char>> {
    v.map_values(|s: String| s@)
}

/// Viewing strings commutes with appending one.
pub proof fn lemma_string_views_push(a: Seq<String>, x: String)
    ensures
        string_views(a.push(x)) =~= string_views(a) + seq![x@],
{
    assert forall|t: int| 0 <= t < a.len() + 1 implies string_views(a.push(x))[t] == (
    string_views(a) + seq![x@])[t] by {
        if t < a.len() {
            assert(a.push(x)[t] == a[t]);
        } else {
            assert(a.push(x)[t] == x);
        }
    }
}

/// Viewing strings commutes with concatenation.
pub proof fn lemma_string_views_concat(a: Seq<String>, b: Seq<String>)
    ensures
        string_views(a + b) =~= string_views(a) + string_views(b),
{
    assert forall|t: int| 0 <= t < a.len() + b.len() implies string_views(a + b)[t] == (
    string_views(a) + string_views(b))[t] by {
        if t < a.len() {
            assert((a + b)[t] == a[t]);
        } else {
            assert((a + b)[t] == b[t - a.len()]);
        }
    }
}

/// Relies on std's `String::push`: it appends the given character to the
/// end of the string.
#[verifier::external_body]
pub(crate) fn push_char(s: &mut String, c: char)
    ensures
        final(s)@ == old(s)@.push(c),
{
    s.push(c)
}

/// Whether two character vectors hold the same characters.
pub(crate) fn chars_eq(a: &Vec<char>, b: &Vec<char>) -> (r: bool)
    ensures
        r == (a@ == b@),
{
    let n: usize = a.len();
    if n != b.len() {
        return false;
    }
    let mut i: usize = 0;
    while i < n
        invariant
            i <= n,
            n == a@.len(),
            n == b@.len(),
            forall|j: int| 0 <= j < i ==> a@[j] == b@[j],
        decreases n - i,
    {
        if a[i] != b[i] {
            return false;
        }
        i = i + 1;
    }
    proof {
        assert(a@ =~= b@);
    }
    true
}

/// The file name among the given parts: the last part that can serve as a
/// name, unless it walks up to the parent directory.
pub(crate) fn file_name_exec(parts: &Vec<Vec<char>>) -> (r: Option<Vec<char>>)
    ensures
        match r {
            Some(v) => {
                let ps = part_views(parts@);
                last_name_upto(ps, ps.len() as int) == Some(v@) && v@ != seq!['.', '.']
            },
            None => {
                let ps = part_views(parts@);
                match last_name_upto(ps, ps.len() as int) {
                    None => true,
                    Some(p) => p == seq!['.', '.'],
                }
            },
        },
{
    let np: usize = parts.len();
    let mut last: Option<&Vec<char>> = None;
    let mut i: usize = 0;
    while i < np
        invariant
            i <= np,
            np == part_views(parts@).len(),
            match last {
                Some(v) => last_name_upto(part_views(parts@), i as int) == Some(v@),
                None => last_name_upto(part_views(parts@), i as int) is None,
            },
        decreases np - i,
    {
        let p = &parts[i];
        let is_name = if p.len() == 0 {
            false
        } else if p.len() == 1 && p[0] == '.' {
            proof {
                assert(part_views(parts@)[i as int] =~= seq!['.']);
            }
            false
        } else {
            true
        };
        if is_name {
            proof {
                assert(is_name_part(part_views(parts@)[i as int]));
            }
            last = Some(&parts[i]);
        } else {
            proof {
                assert(!is_name_part(part_views(parts@)[i as int]));
            }
        }
        i = i + 1;
    }
    match last {
        None => None,
        Some(v) => {
            if v.len() == 2 && v[0] == '.' && v[1] == '.' {
                proof {
                    assert(v@ =~= seq!['.', '.']);
                }
                None
            } else {
                proof {
                    assert(v@ != seq!['.', '.']);
                }
                Some(v.clone())
            }
        },
    }
}


/// The file name of a path, as an owned string, when the path has one.
pub fn file_name_str(path: &str) -> (r: Option<String>)
    ensures
        match r {
            Some(nm) => file_name_of(path@) == Some(nm@),
            None => file_name_of(path@) is None,
        },
{
    let chars = chars_of(path);
    let parts = split_exec(true, &chars);
    match file_name_exec(&parts) {
        None => None,
        Some(v) => {
            let mut out = String::new();
            let n: usize = v.len();
            let mut i: usize = 0;
            while i < n
                invariant
                    i <= n,
                    n == v@.len(),
                    out@ =~= v@.subrange(0, i as int),
                decreases n - i,
            {
                push_char(&mut out, v[i]);
                i = i + 1;
                proof {
                    assert(out@ =~= v@.subrange(0, i as int));
                }
            }
            proof {
                assert(out@ =~= v@);
            }
            Some(out)
        },
    }
}

} // verus!
