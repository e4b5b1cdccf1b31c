//! Rendering helpers: lowercase hexadecimal for digests, and human-readable
//! byte sizes.

use vstd::prelude::*;

verus! {

/// The lowercase hexadecimal character for one value below sixteen.
pub open spec fn hex_char(d: int) -> char {
    if d < 10 {
        ((48 + d) as u8) as char
    } else {
        ((87 + d) as u8) as char
    }
}

/// Two lowercase hexadecimal digits for one byte, high nibble first.
pub open spec fn byte_hex(b: u8) -> Seq<char> {
    seq![hex_char(b as int / 16), hex_char(b as int % 16)]
}

/// Lowercase hexadecimal of a byte sequence, two digits per byte.
pub open spec fn hex_of(s: Seq<u8>) -> Seq<char>
    decreases s.len(),
{
    if s.len() == 0 {
        Seq::empty()
    } else {
        hex_of(s.drop_last()) + byte_hex(s.last())
    }
}

/// The single-character string for one hexadecimal digit value.
fn hex_digit_str(d: u8) -> (r: &'static str)
    requires
        d < 16,
    ensures
        r@ == seq![hex_char(d as int)],
{
    proof {
        reveal_strlit("0");
        reveal_strlit("1");
        reveal_strlit("2");
        reveal_strlit("3");
        reveal_strlit("4");
        reveal_strlit("5");
        reveal_strlit("6");
        reveal_strlit("7");
        reveal_strlit("8");
        reveal_strlit("9");
        reveal_strlit("a");
        reveal_strlit("b");
        reveal_strlit("c");
        reveal_strlit("d");
        reveal_strlit("e");
        reveal_strlit("f");
    }
    match d {
        0 => "0",
        1 => "1",
        2 => "2",
        3 => "3",
        4 => "4",
        5 => "5",
        6 => "6",
        7 => "7",
        8 => "8",
        9 => "9",
        10 => "a",
        11 => "b",
        12 => "c",
        13 => "d",
        14 => "e",
        _ => "f",
    }
}

/// Render a byte sequence as lowercase hexadecimal.
pub fn hex_string(bytes: &[u8]) -> (r: String)
    ensures
        r@ == hex_of(bytes@),
{
    let n: usize = bytes.len();
    let mut r = String::new();
    let mut i: usize = 0;
    while i < n
        invariant
            i <= n,
            n == bytes@.len(),
            r@ == hex_of(bytes@.subrange(0, i as int)),
        decreases n - i,
    {
        let b = bytes[i];
        r.append(hex_digit_str(b / 16));
        r.append(hex_digit_str(b % 16));
        i = i + 1;
        proof {
            assert(bytes@.subrange(0, i as int).drop_last() =~= bytes@.subrange(
                0,
                i as int - 1,
            ));
        }
    }
    proof {
        assert(bytes@.subrange(0, n as int) =~= bytes@);
    }
    r
}

/// Wraps borrowed bytes so that callers can ask for their hexadecimal form.
pub struct HexFormatter<'a>(pub &'a [u8]);

impl<'a> HexFormatter<'a> {
    /// Lowercase hexadecimal rendering of the wrapped bytes.
    pub fn to_hex_string(&self) -> (r: String)
        ensures
            r@ == hex_of(self.0@),
    {
        hex_string(self.0)
    }
}

/// The human-readable form of a byte count.  The rendering is left
/// abstract here; it is fixed by the `human_size` wrapper below.
pub uninterp spec fn human_size_of(n: u64) -> Seq<char>;

/// Relies on fmtsize's `Conventional` format: the rendering (for example
/// "1.00 MB", with a KB/MB/GB unit and two decimal places) is a pure
/// function of the byte count alone.
#[verifier::external_body]
pub(crate) fn human_size(n: u64) -> (r: String)
    ensures
        r@ == human_size_of(n),
{
    format!("{}", fmtsize::FmtSize::fmt_size(n, fmtsize::Conventional))
}

} // verus!
