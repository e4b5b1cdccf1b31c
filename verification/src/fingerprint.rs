//! The bounded-cost content identity of a file: its byte length, a digest of
//! a capped head region and, for files longer than the cap, a digest of a
//! tail region chosen so that it never overlaps the head.
//!
//! For files at or below the cap the head region is the whole file, so equal
//! fingerprints of equal-length small files coincide exactly with equal
//! digests of their full contents.  For larger files the scheme deliberately
//! trades an accepted, negligible false-match risk for read costs that do
//! not grow with file size.

use vstd::prelude::*;

use crate::format::hex_of;
use crate::format::hex_string;
use sha2::Digest;

verus! {

/// Greatest number of bytes read and hashed from either end of a file.
pub const MAX_SIZE: u64 = 0x0080_0000;

/// The digest that the hash wrapper below computes.  Left abstract: the
/// engine relies only on it being a function of the input bytes.
pub uninterp spec fn sha256_of(data: Seq<u8>) -> Seq<u8>;

/// Relies on sha2's `Sha256` (through `digest::Digest::digest`): the 256-bit
/// digest is a pure function of the input bytes and is 32 bytes long.
#[verifier::external_body]
fn sha256(data: &[u8]) -> (r: Vec<u8>)
    ensures
        r@ == sha256_of(data@),
        r@.len() == 32,
{
    sha2::Sha256::digest(data).to_vec()
}

/// How many bytes the head region of a file of the given length holds.
pub open spec fn head_size(len: u64) -> int {
    if len < MAX_SIZE {
        len as int
    } else {
        MAX_SIZE as int
    }
}

/// How many bytes the tail region of a file of the given length holds;
/// zero when the file is no longer than the cap.
pub open spec fn tail_size(len: u64) -> int {
    if len > MAX_SIZE {
        if len - MAX_SIZE < MAX_SIZE {
            len - MAX_SIZE
        } else {
            MAX_SIZE as int
        }
    } else {
        0
    }
}

/// Where the tail region starts.  Always at or past the end of the head
/// region, so the two regions never overlap even for files only slightly
/// over the cap.
pub open spec fn tail_start(len: u64) -> int {
    len - tail_size(len)
}

/// The number of head bytes to read for a file of the given length.
pub fn head_read_len(len: u64) -> (r: u64)
    ensures
        r == head_size(len),
{
    if len < MAX_SIZE {
        len
    } else {
        MAX_SIZE
    }
}

/// The offset and byte count of the tail region to read for a file of the
/// given length, or nothing for files at or below the cap.
pub fn tail_read(len: u64) -> (r: Option<(u64, u64)>)
    ensures
        match r {
            Some(p) => len > MAX_SIZE && p.0 == tail_start(len) && p.1 == tail_size(len)
                && p.0 >= MAX_SIZE,
            None => len <= MAX_SIZE,
        },
{
    if len > MAX_SIZE {
        let size: u64 = if len - MAX_SIZE < MAX_SIZE {
            len - MAX_SIZE
        } else {
            MAX_SIZE
        };
        Some((len - size, size))
    } else {
        None
    }
}

/// What a caller reads from one file before fingerprinting it: the file's
/// path and length together with the bytes of its head region and, for
/// files over the cap, of its tail region.
pub struct ContentSample {
    /// The path the bytes were read from.
    pub path: String,
    /// The file's total byte length.
    pub len: u64,
    /// The first `head_size(len)` bytes of the file.
    pub head: Vec<u8>,
    /// The last `tail_size(len)` bytes of the file, for files over the cap.
    pub tail: Option<Vec<u8>>,
}

/// The mathematical content of a sample.
pub ghost struct SampleView {
    /// The path the bytes were read from.
    pub path: Seq<char>,
    /// The file's total byte length.
    pub len: u64,
    /// The bytes of the head region.
    pub head: Seq<u8>,
    /// The bytes of the tail region, for files over the cap.
    pub tail: Option<Seq<u8>>,
}

impl View for ContentSample {
    type V = SampleView;

    open spec fn view(&self) -> SampleView {
        SampleView {
            path: self.path@,
            len: self.len,
            head: self.head@,
            tail: match self.tail {
                Some(t) => Some(t@),
                None => None,
            },
        }
    }
}

/// A sample is well formed when its regions have exactly the sizes that
/// the file length dictates: the whole file up to the cap for the head,
/// and a tail region only for files over the cap.
pub open spec fn sample_wf(s: SampleView) -> bool {
    &&& s.head.len() == head_size(s.len)
    &&& match s.tail {
        Some(t) => s.len > MAX_SIZE && t.len() == tail_size(s.len),
        None => s.len <= MAX_SIZE,
    }
}

impl ContentSample {
    /// Well-formedness of the executable sample.
    pub open spec fn wf(&self) -> bool {
        sample_wf(self@)
    }
}

/// A fingerprint reduced to the file length alone; two files can only be
/// byte-identical when their lengths agree.
#[derive(Clone, Copy, Debug, PartialEq, Eq, Hash, Structural)]
pub struct PartialFingerprint(pub u64);

/// The bounded-cost content identity: length, head digest and, for files
/// over the cap, tail digest.  Equality is by value of all three fields.
#[derive(Debug)]
pub struct Fingerprint {
    length: u64,
    head: Vec<u8>,
    tail: Option<Vec<u8>>,
}

/// The mathematical content of a fingerprint.
pub ghost struct FingerprintView {
    /// The file length the fingerprint was taken from.
    pub length: u64,
    /// Digest of the head region.
    pub head: Seq<u8>,
    /// Digest of the tail region, for files over the cap.
    pub tail: Option<Seq<u8>>,
}

impl View for Fingerprint {
    type V = FingerprintView;

    closed spec fn view(&self) -> FingerprintView {
        FingerprintView {
            length: self.length,
            head: self.head@,
            tail: match self.tail {
                Some(t) => Some(t@),
                None => None,
            },
        }
    }
}

/// The fingerprint that a sample is mapped to: the sample's length, the
/// digest of its head bytes and the digest of its tail bytes if any.
pub open spec fn fingerprint_of(s: SampleView) -> FingerprintView {
    FingerprintView {
        length: s.len,
        head: sha256_of(s.head),
        tail: match s.tail {
            Some(t) => Some(sha256_of(t)),
            None => None,
        },
    }
}

impl Fingerprint {
    /// Compute the fingerprint of a sample by hashing its regions.
    pub fn from_sample(s: &ContentSample) -> (r: Fingerprint)
        ensures
            r@ == fingerprint_of(s@),
    {
        Fingerprint {
            length: s.len,
            head: sha256(s.head.as_slice()),
            tail: match &s.tail {
                Some(t) => Some(sha256(t.as_slice())),
                None => None,
            },
        }
    }

    /// The file length this fingerprint was taken from.
    pub fn length(&self) -> (r: u64)
        ensures
            r == self@.length,
    {
        self.length
    }

    /// Lowercase hexadecimal of the head digest: the printable identity of
    /// a duplicate group.
    pub fn to_hex_string(&self) -> (r: String)
        ensures
            r@ == hex_of(self@.head),
    {
        hex_string(self.head.as_slice())
    }
}

impl PartialEq for Fingerprint {
    /// Fingerprints are equal exactly when length, head digest and tail
    /// digest all agree.
    fn eq(&self, other: &Fingerprint) -> (r: bool) {
        if self.length != other.length {
            return false;
        }
        if !(self.head == other.head) {
            return false;
        }
        let r = match (&self.tail, &other.tail) {
            (None, None) => true,
            (Some(a), Some(b)) => a == b,
            _ => false,
        };
        proof {
            if r {
                assert(self.head@ =~= other.head@);
                match (&self.tail, &other.tail) {
                    (Some(a), Some(b)) => {
                        assert(a@ =~= b@);
                    },
                    _ => {},
                }
            }
        }
        r
    }
}

impl vstd::std_specs::cmp::PartialEqSpecImpl for Fingerprint {
    open spec fn obeys_eq_spec() -> bool {
        true
    }

    open spec fn eq_spec(&self, other: &Fingerprint) -> bool {
        self@ == other@
    }
}

/// For two equal-length files no longer than the cap, the head region is
/// the whole file, so samples with the same contents always receive one
/// and the same fingerprint: on small files the scheme is exact.
pub proof fn lemma_small_sample_fingerprint(a: SampleView, b: SampleView)
    requires
        sample_wf(a),
        sample_wf(b),
        a.len == b.len,
        a.len <= MAX_SIZE,
        a.head == b.head,
    ensures
        fingerprint_of(a) == fingerprint_of(b),
{
}

/// For two equal-length files over the cap that agree on their whole head
/// and tail regions, the fingerprints coincide, whatever the unread middle
/// holds.  This is the accepted approximation of the scheme: such files
/// are reported as duplicates.
pub proof fn lemma_large_sample_fingerprint(a: SampleView, b: SampleView)
    requires
        sample_wf(a),
        sample_wf(b),
        a.len == b.len,
        a.len > MAX_SIZE,
        a.head == b.head,
        a.tail == b.tail,
    ensures
        fingerprint_of(a) == fingerprint_of(b),
{
}

/// Equal fingerprints can only come from samples of equal length: the file
/// length is part of the identity, so files of different byte length are
/// never matched.
pub proof fn lemma_fingerprint_length(a: SampleView, b: SampleView)
    requires
        fingerprint_of(a) == fingerprint_of(b),
    ensures
        a.len == b.len,
{
    assert(fingerprint_of(a).length == a.len);
    assert(fingerprint_of(b).length == b.len);
}

} // verus!
