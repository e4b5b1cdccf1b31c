//! The cross-tree pipeline: find which files under external compare trees
//! duplicate files under a base tree.
//!
//! Both listings arrive canonicalized, so a path shared physically between
//! the two trees appears identically in both and is excluded by the
//! compare-minus-base difference before any matching: a file is never
//! reported as a duplicate of itself.  Base files are fingerprinted at most
//! once each, and only when some compare file shares their byte length; a
//! compare file joins the table only when a base file already matched its
//! fingerprint.

use vstd::prelude::*;

use crate::fingerprint::ContentSample;
use crate::fingerprint::Fingerprint;
use crate::fingerprint::FingerprintView;
use crate::fingerprint::SampleView;
use crate::fingerprint::fingerprint_of;
use crate::meta::Meta;
use crate::meta::Metacache;
use crate::single::EntryView;
use crate::single::ScanEntry;
use crate::single::entry_views;
use crate::single::sample_views;
use crate::text::string_views;

verus! {

/// One table entry: the base files that share a fingerprint, and the
/// compare files found to duplicate them.
#[derive(Debug)]
pub struct Conflict {
    /// Base-tree members with this fingerprint; several base files may
    /// legitimately share one content.
    pub base_files: Vec<String>,
    /// Compare-tree members that duplicate the base members.
    pub compare_files: Vec<String>,
}

/// The mathematical content of a table entry.
pub ghost struct ConflictView {
    /// Base-tree members with this fingerprint.
    pub base_files: Seq<Seq<char>>,
    /// Compare-tree members that duplicate them.
    pub compare_files: Seq<Seq<char>>,
}

impl View for Conflict {
    type V = ConflictView;

    open spec fn view(&self) -> ConflictView {
        ConflictView { base_files: string_views(self.base_files@), compare_files: string_views(self.compare_files@) }
    }
}

/// The views of a conflict table.
pub open spec fn table_views(v: Seq<(Fingerprint, Conflict)>) -> Seq<
    (FingerprintView, ConflictView),
> {
    v.map_values(|g: (Fingerprint, Conflict)| (g.0@, g.1@))
}

/// Whether some entry records this path.
pub open spec fn has_path(s: Seq<EntryView>, p: Seq<char>) -> bool {
    exists|i: int| 0 <= i < s.len() && #[trigger] s[i].path == p
}

/// The first `n` entries with duplicate paths dropped: the set of listed
/// files, in first-appearance order.  Canonicalized listings can repeat a
/// path; it counts once.
pub open spec fn dedup_upto(s: Seq<EntryView>, n: int) -> Seq<EntryView>
    decreases n,
{
    if n <= 0 {
        Seq::empty()
    } else {
        let prev = dedup_upto(s, n - 1);
        if has_path(prev, s[n - 1].path) {
            prev
        } else {
            prev.push(s[n - 1])
        }
    }
}

/// The base listing as a set of entries.
pub open spec fn base_set(bvs: Seq<EntryView>) -> Seq<EntryView> {
    dedup_upto(bvs, bvs.len() as int)
}

/// The first `n` compare entries that survive the compare-minus-base
/// difference, deduplicated, in first-appearance order.
pub open spec fn diff_upto(cvs: Seq<EntryView>, bvs: Seq<EntryView>, n: int) -> Seq<EntryView>
    decreases n,
{
    if n <= 0 {
        Seq::empty()
    } else {
        let prev = diff_upto(cvs, bvs, n - 1);
        if has_path(bvs, cvs[n - 1].path) || has_path(prev, cvs[n - 1].path) {
            prev
        } else {
            prev.push(cvs[n - 1])
        }
    }
}

/// The compare entries that take part in matching: those whose canonical
/// path does not also stand in the base listing.
pub open spec fn diff_entries(cvs: Seq<EntryView>, bvs: Seq<EntryView>) -> Seq<EntryView> {
    diff_upto(cvs, bvs, cvs.len() as int)
}

/// One bucketing step: append the path to the bucket of its byte length,
/// or open a new bucket at the end.
pub open spec fn bucket_add(bs: Seq<(u64, Seq<Seq<char>>)>, l: u64, p: Seq<char>) -> Seq<
    (u64, Seq<Seq<char>>),
>
    decreases bs.len(),
{
    if bs.len() == 0 {
        seq![(l, seq![p])]
    } else if bs.first().0 == l {
        seq![(bs.first().0, bs.first().1.push(p))] + bs.drop_first()
    } else {
        seq![bs.first()] + bucket_add(bs.drop_first(), l, p)
    }
}

/// The length buckets of the first `n` entries.
pub open spec fn buckets_upto(s: Seq<EntryView>, n: int) -> Seq<(u64, Seq<Seq<char>>)>
    decreases n,
{
    if n <= 0 {
        Seq::empty()
    } else {
        bucket_add(buckets_upto(s, n - 1), s[n - 1].meta.len, s[n - 1].path)
    }
}

/// The base files bucketed by byte length: the paths that a compare file
/// of the same length is matched against.
pub open spec fn base_buckets(bvs: Seq<EntryView>) -> Seq<(u64, Seq<Seq<char>>)> {
    buckets_upto(base_set(bvs), base_set(bvs).len() as int)
}

/// The bucket of one byte length, if any file has it.
pub open spec fn bucket_lookup(bs: Seq<(u64, Seq<Seq<char>>)>, l: u64) -> Option<Seq<Seq<char>>>
    decreases bs.len(),
{
    if bs.len() == 0 {
        None
    } else if bs.first().0 == l {
        Some(bs.first().1)
    } else {
        bucket_lookup(bs.drop_first(), l)
    }
}

/// The first sample read for this path, if one was.
pub open spec fn sample_for(svs: Seq<SampleView>, p: Seq<char>) -> Option<SampleView>
    decreases svs.len(),
{
    if svs.len() == 0 {
        None
    } else if svs.first().path == p {
        Some(svs.first())
    } else {
        sample_for(svs.drop_first(), p)
    }
}

/// Whether the table holds an entry for this fingerprint.
pub open spec fn table_has(t: Seq<(FingerprintView, ConflictView)>, fp: FingerprintView) -> bool {
    exists|k: int| 0 <= k < t.len() && #[trigger] t[k].0 == fp
}

/// Register a base file under its fingerprint: append it to the matching
/// entry, or open a new entry with it as the only base member.
pub open spec fn table_add_base(
    t: Seq<(FingerprintView, ConflictView)>,
    fp: FingerprintView,
    p: Seq<char>,
) -> Seq<(FingerprintView, ConflictView)>
    decreases t.len(),
{
    if t.len() == 0 {
        seq![(fp, ConflictView { base_files: seq![p], compare_files: Seq::empty() })]
    } else if t.first().0 == fp {
        seq![
            (
                t.first().0,
                ConflictView {
                    base_files: t.first().1.base_files.push(p),
                    compare_files: t.first().1.compare_files,
                },
            ),
        ] + t.drop_first()
    } else {
        seq![t.first()] + table_add_base(t.drop_first(), fp, p)
    }
}

/// Record a compare file under its fingerprint — but only into an entry
/// that some base file already opened; otherwise the table is unchanged.
pub open spec fn table_add_compare(
    t: Seq<(FingerprintView, ConflictView)>,
    fp: FingerprintView,
    p: Seq<char>,
) -> Seq<(FingerprintView, ConflictView)>
    decreases t.len(),
{
    if t.len() == 0 {
        t
    } else if t.first().0 == fp {
        seq![
            (
                t.first().0,
                ConflictView {
                    base_files: t.first().1.base_files,
                    compare_files: t.first().1.compare_files.push(p),
                },
            ),
        ] + t.drop_first()
    } else {
        seq![t.first()] + table_add_compare(t.drop_first(), fp, p)
    }
}

/// Walk the first `j` members of one length bucket for a compare file:
/// each base file not yet visited is marked visited and, when its sample
/// was readable, fingerprinted and registered as a base member.
pub open spec fn visit_bucket(
    svs: Seq<SampleView>,
    bucket: Seq<Seq<char>>,
    j: int,
    visited: Seq<Seq<char>>,
    t: Seq<(FingerprintView, ConflictView)>,
) -> (Seq<Seq<char>>, Seq<(FingerprintView, ConflictView)>)
    decreases j,
{
    if j <= 0 {
        (visited, t)
    } else {
        let (v1, t1) = visit_bucket(svs, bucket, j - 1, visited, t);
        let p = bucket[j - 1];
        if v1.contains(p) {
            (v1, t1)
        } else {
            let v2 = v1.push(p);
            match sample_for(svs, p) {
                None => (v2, t1),
                Some(s) => (v2, table_add_base(t1, fingerprint_of(s), p)),
            }
        }
    }
}

/// The matching state after the first `n` compare files: the base files
/// visited so far, the conflict table, and the metadata cache, which
/// records a compare file only when it joined the table.
pub open spec fn cross_state(
    svs: Seq<SampleView>,
    bs: Seq<(u64, Seq<Seq<char>>)>,
    diff: Seq<EntryView>,
    n: int,
    m0: Map<Seq<char>, Meta>,
) -> (Seq<Seq<char>>, Seq<(FingerprintView, ConflictView)>, Map<Seq<char>, Meta>)
    decreases n,
{
    if n <= 0 {
        (Seq::empty(), Seq::empty(), m0)
    } else {
        let (v, t, m) = cross_state(svs, bs, diff, n - 1, m0);
        let c = diff[n - 1];
        let stepped = match bucket_lookup(bs, c.meta.len) {
            None => (v, t),
            Some(bucket) => visit_bucket(svs, bucket, bucket.len() as int, v, t),
        };
        let v1 = stepped.0;
        let t1 = stepped.1;
        match sample_for(svs, c.path) {
            None => (v1, t1, m),
            Some(s) => if table_has(t1, fingerprint_of(s)) {
                (v1, table_add_compare(t1, fingerprint_of(s), c.path), m.insert(c.path, c.meta))
            } else {
                (v1, t1, m)
            },
        }
    }
}

/// Of the first `n` table entries, those with at least one compare file:
/// a base-side match that no compare file joined is no conflict.
pub open spec fn retained_upto(t: Seq<(FingerprintView, ConflictView)>, n: int) -> Seq<
    (FingerprintView, ConflictView),
>
    decreases n,
{
    if n <= 0 {
        Seq::empty()
    } else {
        retained_upto(t, n - 1) + if t[n - 1].1.compare_files.len() >= 1 {
            seq![t[n - 1]]
        } else {
            Seq::empty()
        }
    }
}

/// The conflicts of a cross-tree run: the retained table entries, in
/// order of first appearance of their fingerprints.
pub open spec fn cross_conflicts(
    bvs: Seq<EntryView>,
    cvs: Seq<EntryView>,
    svs: Seq<SampleView>,
) -> Seq<(FingerprintView, ConflictView)> {
    let diff = diff_entries(cvs, bvs);
    let t = cross_state(svs, base_buckets(bvs), diff, diff.len() as int, Map::empty()).1;
    retained_upto(t, t.len() as int)
}

/// The cache contents after a cross-tree run over an initially given
/// cache: the metadata of every compare file that joined the table.
pub open spec fn cross_cache(
    bvs: Seq<EntryView>,
    cvs: Seq<EntryView>,
    svs: Seq<SampleView>,
    m0: Map<Seq<char>, Meta>,
) -> Map<Seq<char>, Meta> {
    let diff = diff_entries(cvs, bvs);
    cross_state(svs, base_buckets(bvs), diff, diff.len() as int, m0).2
}

/// Copy one scan entry.
fn clone_entry(e: &ScanEntry) -> (r: ScanEntry)
    ensures
        r@ == e@,
{
    ScanEntry { path: e.path.clone(), meta: e.meta }
}

/// Whether any of the entries records this path.
fn path_in_entries(entries: &Vec<ScanEntry>, p: &str) -> (r: bool)
    ensures
        r == has_path(entry_views(entries@), p@),
{
    let n: usize = entries.len();
    let mut i: usize = 0;
    while i < n
        invariant
            i <= n,
            n == entry_views(entries@).len(),
            forall|j: int| 0 <= j < i ==> entry_views(entries@)[j].path != p@,
        decreases n - i,
    {
        if crate::text::str_eq(entries[i].path.as_str(), p) {
            proof {
                assert(entry_views(entries@)[i as int].path == p@);
            }
            return true;
        }
        proof {
            assert(entry_views(entries@)[i as int].path != p@);
        }
        i = i + 1;
    }
    false
}

/// The entries with duplicate paths dropped, first appearance winning.
fn dedup_entries(entries: &Vec<ScanEntry>) -> (r: Vec<ScanEntry>)
    ensures
        entry_views(r@) =~~= dedup_upto(entry_views(entries@), entries@.len() as int),
{
    let n: usize = entries.len();
    let ghost evs = entry_views(entries@);
    let mut r: Vec<ScanEntry> = Vec::new();
    let mut i: usize = 0;
    while i < n
        invariant
            i <= n,
            n == evs.len(),
            evs == entry_views(entries@),
            entry_views(r@) =~~= dedup_upto(evs, i as int),
        decreases n - i,
    {
        let ghost old_r = entry_views(r@);
        if !path_in_entries(&r, entries[i].path.as_str()) {
            r.push(clone_entry(&entries[i]));
            proof {
                assert(entry_views(r@) =~= old_r.push(evs[i as int]));
            }
        }
        i = i + 1;
    }
    r
}

/// The compare entries that survive the compare-minus-base difference,
/// deduplicated, in order.
fn diff_exec(compare: &Vec<ScanEntry>, base: &Vec<ScanEntry>) -> (r: Vec<ScanEntry>)
    ensures
        entry_views(r@) =~~= diff_entries(entry_views(compare@), entry_views(base@)),
{
    let n: usize = compare.len();
    let ghost cvs = entry_views(compare@);
    let ghost bvs = entry_views(base@);
    let mut r: Vec<ScanEntry> = Vec::new();
    let mut i: usize = 0;
    while i < n
        invariant
            i <= n,
            n == cvs.len(),
            cvs == entry_views(compare@),
            bvs == entry_views(base@),
            entry_views(r@) =~~= diff_upto(cvs, bvs, i as int),
        decreases n - i,
    {
        let ghost old_r = entry_views(r@);
        if !path_in_entries(base, compare[i].path.as_str()) && !path_in_entries(
            &r,
            compare[i].path.as_str(),
        ) {
            r.push(clone_entry(&compare[i]));
            proof {
                assert(entry_views(r@) =~= old_r.push(cvs[i as int]));
            }
        }
        i = i + 1;
    }
    r
}

/// No two buckets share a byte length.
spec fn distinct_bucket_keys(bs: Seq<(u64, Seq<Seq<char>>)>) -> bool {
    forall|k1: int, k2: int| 0 <= k1 < k2 < bs.len() ==> bs[k1].0 != bs[k2].0
}

proof fn lemma_bucket_add_new(bs: Seq<(u64, Seq<Seq<char>>)>, l: u64, p: Seq<char>)
    requires
        forall|k: int| 0 <= k < bs.len() ==> bs[k].0 != l,
    ensures
        bucket_add(bs, l, p) =~~= bs + seq![(l, seq![p])],
    decreases bs.len(),
{
    if bs.len() > 0 {
        assert(forall|k: int|
            0 <= k < bs.drop_first().len() ==> bs.drop_first()[k] == bs[k + 1]);
        lemma_bucket_add_new(bs.drop_first(), l, p);
    }
}

proof fn lemma_bucket_add_existing(bs: Seq<(u64, Seq<Seq<char>>)>, l: u64, p: Seq<char>, k: int)
    requires
        0 <= k < bs.len(),
        bs[k].0 == l,
        forall|k2: int| 0 <= k2 < k ==> bs[k2].0 != l,
    ensures
        bucket_add(bs, l, p) =~~= bs.update(k, (l, bs[k].1.push(p))),
    decreases bs.len(),
{
    if k == 0 {
    } else {
        assert(forall|k2: int|
            0 <= k2 < bs.drop_first().len() ==> bs.drop_first()[k2] == bs[k2 + 1]);
        lemma_bucket_add_existing(bs.drop_first(), l, p, k - 1);
        assert(bucket_add(bs, l, p) =~~= seq![bs.first()] + bs.drop_first().update(
            k - 1,
            (l, bs[k].1.push(p)),
        ));
    }
}

proof fn lemma_bucket_lookup_at(bs: Seq<(u64, Seq<Seq<char>>)>, l: u64, k: int)
    requires
        0 <= k < bs.len(),
        bs[k].0 == l,
        forall|k2: int| 0 <= k2 < k ==> bs[k2].0 != l,
    ensures
        bucket_lookup(bs, l) == Some(bs[k].1),
    decreases bs.len(),
{
    if k > 0 {
        assert(forall|k2: int|
            0 <= k2 < bs.drop_first().len() ==> bs.drop_first()[k2] == bs[k2 + 1]);
        lemma_bucket_lookup_at(bs.drop_first(), l, k - 1);
    }
}

proof fn lemma_bucket_lookup_none(bs: Seq<(u64, Seq<Seq<char>>)>, l: u64)
    requires
        forall|k: int| 0 <= k < bs.len() ==> bs[k].0 != l,
    ensures
        bucket_lookup(bs, l) is None,
    decreases bs.len(),
{
    if bs.len() > 0 {
        assert(forall|k: int|
            0 <= k < bs.drop_first().len() ==> bs.drop_first()[k] == bs[k + 1]);
        lemma_bucket_lookup_none(bs.drop_first(), l);
    }
}

/// Bucket the (deduplicated) base entries by byte length.
fn by_length(entries: &Vec<ScanEntry>) -> (r: Vec<(u64, Vec<String>)>)
    ensures
        bucket_views(r@) =~~= buckets_upto(entry_views(entries@), entries@.len() as int),
        distinct_bucket_keys(bucket_views(r@)),
{
    let n: usize = entries.len();
    let ghost evs = entry_views(entries@);
    let mut r: Vec<(u64, Vec<String>)> = Vec::new();
    let mut i: usize = 0;
    while i < n
        invariant
            i <= n,
            n == evs.len(),
            evs == entry_views(entries@),
            bucket_views(r@) =~~= buckets_upto(evs, i as int),
            distinct_bucket_keys(bucket_views(r@)),
        decreases n - i,
    {
        let l = entries[i].meta.len;
        let ghost old_bv = bucket_views(r@);
        let mut k: usize = 0;
        let nb: usize = r.len();
        let mut found: Option<usize> = None;
        while k < nb
            invariant
                k <= nb,
                nb == bucket_views(r@).len(),
                old_bv == bucket_views(r@),
                match found {
                    Some(f) => f < k && bucket_views(r@)[f as int].0 == l && forall|k2: int|
                        0 <= k2 < f ==> bucket_views(r@)[k2].0 != l,
                    None => forall|k2: int| 0 <= k2 < k ==> bucket_views(r@)[k2].0 != l,
                },
            decreases nb - k,
        {
            if found.is_none() && r[k].0 == l {
                found = Some(k);
            }
            k = k + 1;
        }
        match found {
            Some(f) => {
                let (bl, mut members) = r.remove(f);
                members.push(entries[i].path.clone());
                r.insert(f, (bl, members));
                proof {
                    lemma_bucket_add_existing(old_bv, l, evs[i as int].path, f as int);
                    assert(bucket_views(r@) =~~= old_bv.update(
                        f as int,
                        (l, old_bv[f as int].1.push(evs[i as int].path)),
                    ));
                }
            },
            None => {
                let mut members: Vec<String> = Vec::new();
                members.push(entries[i].path.clone());
                r.push((l, members));
                proof {
                    lemma_bucket_add_new(old_bv, l, evs[i as int].path);
                    assert(bucket_views(r@) =~~= old_bv + seq![(l, seq![evs[i as int].path])]);
                }
            },
        }
        i = i + 1;
    }
    r
}

/// The views of a list of length buckets.
pub open spec fn bucket_views(v: Seq<(u64, Vec<String>)>) -> Seq<(u64, Seq<Seq<char>>)> {
    v.map_values(|b: (u64, Vec<String>)| (b.0, string_views(b.1@)))
}

/// The index of the bucket for this byte length, if any.
fn bucket_find(buckets: &Vec<(u64, Vec<String>)>, l: u64) -> (r: Option<usize>)
    ensures
        match r {
            Some(k) => k < buckets@.len() && bucket_lookup(bucket_views(buckets@), l) == Some(
                bucket_views(buckets@)[k as int].1,
            ) && bucket_views(buckets@)[k as int].0 == l,
            None => bucket_lookup(bucket_views(buckets@), l) is None,
        },
{
    let n: usize = buckets.len();
    let mut k: usize = 0;
    while k < n
        invariant
            k <= n,
            n == bucket_views(buckets@).len(),
            forall|k2: int| 0 <= k2 < k ==> bucket_views(buckets@)[k2].0 != l,
        decreases n - k,
    {
        if buckets[k].0 == l {
            proof {
                lemma_bucket_lookup_at(bucket_views(buckets@), l, k as int);
            }
            return Some(k);
        }
        proof {
            assert(bucket_views(buckets@)[k as int].0 != l);
        }
        k = k + 1;
    }
    proof {
        lemma_bucket_lookup_none(bucket_views(buckets@), l);
    }
    None
}

proof fn lemma_sample_for_at(svs: Seq<SampleView>, p: Seq<char>, k: int)
    requires
        0 <= k < svs.len(),
        svs[k].path == p,
        forall|k2: int| 0 <= k2 < k ==> svs[k2].path != p,
    ensures
        sample_for(svs, p) == Some(svs[k]),
    decreases svs.len(),
{
    if k > 0 {
        assert(forall|k2: int|
            0 <= k2 < svs.drop_first().len() ==> svs.drop_first()[k2] == svs[k2 + 1]);
        lemma_sample_for_at(svs.drop_first(), p, k - 1);
    }
}

proof fn lemma_sample_for_none(svs: Seq<SampleView>, p: Seq<char>)
    requires
        forall|k: int| 0 <= k < svs.len() ==> svs[k].path != p,
    ensures
        sample_for(svs, p) is None,
    decreases svs.len(),
{
    if svs.len() > 0 {
        assert(forall|k: int|
            0 <= k < svs.drop_first().len() ==> svs.drop_first()[k] == svs[k + 1]);
        lemma_sample_for_none(svs.drop_first(), p);
    }
}

/// The first sample read for this path, if one was.
fn sample_find<'a>(samples: &'a Vec<ContentSample>, p: &str) -> (r: Option<&'a ContentSample>)
    ensures
        match r {
            Some(s) => sample_for(sample_views(samples@), p@) == Some(s@),
            None => sample_for(sample_views(samples@), p@) is None,
        },
{
    let n: usize = samples.len();
    let mut k: usize = 0;
    while k < n
        invariant
            k <= n,
            n == sample_views(samples@).len(),
            forall|k2: int| 0 <= k2 < k ==> sample_views(samples@)[k2].path != p@,
        decreases n - k,
    {
        if crate::text::str_eq(samples[k].path.as_str(), p) {
            proof {
                assert(sample_views(samples@)[k as int].path == p@);
                lemma_sample_for_at(sample_views(samples@), p@, k as int);
            }
            return Some(&samples[k]);
        }
        proof {
            assert(sample_views(samples@)[k as int].path != p@);
        }
        k = k + 1;
    }
    proof {
        lemma_sample_for_none(sample_views(samples@), p@);
    }
    None
}

/// Whether the list holds this path.
fn strings_contain(v: &Vec<String>, p: &str) -> (r: bool)
    ensures
        r == string_views(v@).contains(p@),
{
    let n: usize = v.len();
    let mut k: usize = 0;
    while k < n
        invariant
            k <= n,
            n == string_views(v@).len(),
            forall|k2: int| 0 <= k2 < k ==> string_views(v@)[k2] != p@,
        decreases n - k,
    {
        if crate::text::str_eq(v[k].as_str(), p) {
            proof {
                assert(string_views(v@)[k as int] == p@);
            }
            return true;
        }
        proof {
            assert(string_views(v@)[k as int] != p@);
        }
        k = k + 1;
    }
    proof {
        if string_views(v@).contains(p@) {
            let w = choose|w: int| 0 <= w < string_views(v@).len() && string_views(v@)[w] == p@;
            assert(false);
        }
    }
    false
}

/// No two table entries share a fingerprint.
spec fn distinct_table_keys(t: Seq<(FingerprintView, ConflictView)>) -> bool {
    forall|k1: int, k2: int| 0 <= k1 < k2 < t.len() ==> t[k1].0 != t[k2].0
}

proof fn lemma_table_add_base_new(
    t: Seq<(FingerprintView, ConflictView)>,
    fp: FingerprintView,
    p: Seq<char>,
)
    requires
        forall|k: int| 0 <= k < t.len() ==> t[k].0 != fp,
    ensures
        table_add_base(t, fp, p) =~~= t + seq![
            (fp, ConflictView { base_files: seq![p], compare_files: Seq::empty() }),
        ],
    decreases t.len(),
{
    if t.len() > 0 {
        assert(forall|k: int| 0 <= k < t.drop_first().len() ==> t.drop_first()[k] == t[k + 1]);
        lemma_table_add_base_new(t.drop_first(), fp, p);
    }
}

proof fn lemma_table_add_base_existing(
    t: Seq<(FingerprintView, ConflictView)>,
    fp: FingerprintView,
    p: Seq<char>,
    k: int,
)
    requires
        0 <= k < t.len(),
        t[k].0 == fp,
        forall|k2: int| 0 <= k2 < k ==> t[k2].0 != fp,
    ensures
        table_add_base(t, fp, p) =~~= t.update(
            k,
            (
                fp,
                ConflictView {
                    base_files: t[k].1.base_files.push(p),
                    compare_files: t[k].1.compare_files,
                },
            ),
        ),
    decreases t.len(),
{
    if k == 0 {
    } else {
        assert(forall|k2: int|
            0 <= k2 < t.drop_first().len() ==> t.drop_first()[k2] == t[k2 + 1]);
        lemma_table_add_base_existing(t.drop_first(), fp, p, k - 1);
        assert(table_add_base(t, fp, p) =~~= seq![t.first()] + t.drop_first().update(
            k - 1,
            (
                fp,
                ConflictView {
                    base_files: t[k].1.base_files.push(p),
                    compare_files: t[k].1.compare_files,
                },
            ),
        ));
    }
}

proof fn lemma_table_add_compare_existing(
    t: Seq<(FingerprintView, ConflictView)>,
    fp: FingerprintView,
    p: Seq<char>,
    k: int,
)
    requires
        0 <= k < t.len(),
        t[k].0 == fp,
        forall|k2: int| 0 <= k2 < k ==> t[k2].0 != fp,
    ensures
        table_add_compare(t, fp, p) =~~= t.update(
            k,
            (
                fp,
                ConflictView {
                    base_files: t[k].1.base_files,
                    compare_files: t[k].1.compare_files.push(p),
                },
            ),
        ),
    decreases t.len(),
{
    if k == 0 {
    } else {
        assert(forall|k2: int|
            0 <= k2 < t.drop_first().len() ==> t.drop_first()[k2] == t[k2 + 1]);
        lemma_table_add_compare_existing(t.drop_first(), fp, p, k - 1);
        assert(table_add_compare(t, fp, p) =~~= seq![t.first()] + t.drop_first().update(
            k - 1,
            (
                fp,
                ConflictView {
                    base_files: t[k].1.base_files,
                    compare_files: t[k].1.compare_files.push(p),
                },
            ),
        ));
    }
}

/// The index of the table entry for this fingerprint, if any.
fn table_find(table: &Vec<(Fingerprint, Conflict)>, fp: &Fingerprint) -> (r: Option<usize>)
    ensures
        match r {
            Some(k) => k < table@.len() && table_views(table@)[k as int].0 == fp@ && forall|
                k2: int,
            |
                0 <= k2 < k ==> table_views(table@)[k2].0 != fp@,
            None => forall|k2: int|
                0 <= k2 < table@.len() ==> table_views(table@)[k2].0 != fp@,
        },
{
    let n: usize = table.len();
    let mut k: usize = 0;
    while k < n
        invariant
            k <= n,
            n == table_views(table@).len(),
            forall|k2: int| 0 <= k2 < k ==> table_views(table@)[k2].0 != fp@,
        decreases n - k,
    {
        if *fp == table[k].0 {
            proof {
                assert(table_views(table@)[k as int].0 == fp@);
            }
            return Some(k);
        }
        proof {
            assert(table_views(table@)[k as int].0 != fp@);
        }
        k = k + 1;
    }
    None
}

proof fn lemma_table_views_update(
    old_vecs: Seq<(Fingerprint, Conflict)>,
    new_vecs: Seq<(Fingerprint, Conflict)>,
    k: int,
)
    requires
        0 <= k < old_vecs.len(),
        new_vecs.len() == old_vecs.len(),
        forall|w: int| 0 <= w < old_vecs.len() && w != k ==> new_vecs[w] == old_vecs[w],
    ensures
        table_views(new_vecs) =~~= table_views(old_vecs).update(
            k,
            (new_vecs[k].0@, new_vecs[k].1@),
        ),
{
    assert forall|w: int| 0 <= w < new_vecs.len() implies table_views(new_vecs)[w]
        == table_views(old_vecs).update(k, (new_vecs[k].0@, new_vecs[k].1@))[w] by {
        if w != k {
            assert(new_vecs[w] == old_vecs[w]);
        }
    }
}

/// Match the compare listing against the base listing and return the
/// conflict table: one entry per fingerprint shared by base and compare
/// files, holding the base members and the compare members found to
/// duplicate them.  Entries that no compare file joined are dropped, and
/// the metadata of every reported compare file is recorded in the cache.
pub fn get_conflicts(
    base: &Vec<ScanEntry>,
    compare: &Vec<ScanEntry>,
    samples: &Vec<ContentSample>,
    cache: &mut Metacache,
) -> (r: Vec<(Fingerprint, Conflict)>)
    requires
        old(cache).wf(),
    ensures
        final(cache).wf(),
        final(cache)@ == cross_cache(
            entry_views(base@),
            entry_views(compare@),
            sample_views(samples@),
            old(cache)@,
        ),
        table_views(r@) == cross_conflicts(
            entry_views(base@),
            entry_views(compare@),
            sample_views(samples@),
        ),
{
    let ghost bvs = entry_views(base@);
    let ghost cvs = entry_views(compare@);
    let ghost svs = sample_views(samples@);
    let ghost m0 = old(cache)@;

    let bset = dedup_entries(base);
    let diff = diff_exec(compare, base);
    let buckets = by_length(&bset);
    proof {
        assert(bucket_views(buckets@) =~~= base_buckets(bvs));
        assert(entry_views(diff@) =~~= diff_entries(cvs, bvs));
    }
    let ghost bsv = bucket_views(buckets@);
    let ghost diffv = entry_views(diff@);

    let mut visited: Vec<String> = Vec::new();
    let mut table: Vec<(Fingerprint, Conflict)> = Vec::new();
    let nd: usize = diff.len();
    let mut t: usize = 0;
    while t < nd
        invariant
            t <= nd,
            nd == diffv.len(),
            diffv == entry_views(diff@),
            bsv == bucket_views(buckets@),
            bsv == base_buckets(bvs),
            diffv == diff_entries(cvs, bvs),
            svs == sample_views(samples@),
            m0 == old(cache)@,
            cache.wf(),
            string_views(visited@) =~= cross_state(svs, bsv, diffv, t as int, m0).0,
            table_views(table@) =~~= cross_state(svs, bsv, diffv, t as int, m0).1,
            cache@ == cross_state(svs, bsv, diffv, t as int, m0).2,
            distinct_table_keys(table_views(table@)),
        decreases nd - t,
    {
        let ghost st_prev = cross_state(svs, bsv, diffv, t as int, m0);
        let clen = diff[t].meta.len;
        proof {
            assert(diffv[t as int].meta.len == clen);
        }
        match bucket_find(&buckets, clen) {
            None => {
                proof {
                    assert(bucket_lookup(bsv, clen) is None);
                }
            },
            Some(bi) => {
                let ghost bucketv = bsv[bi as int].1;
                proof {
                    assert(bucket_lookup(bsv, clen) == Some(bucketv));
                }
                let nbp: usize = buckets[bi].1.len();
                let ghost v0 = string_views(visited@);
                let ghost t0 = table_views(table@);
                let mut j: usize = 0;
                while j < nbp
                    invariant
                        j <= nbp,
                        bi < buckets@.len(),
                        nbp == bsv[bi as int].1.len(),
                        bucketv == bsv[bi as int].1,
                        bsv == bucket_views(buckets@),
                        svs == sample_views(samples@),
                        cache.wf(),
                        string_views(visited@) =~= visit_bucket(svs, bucketv, j as int, v0, t0).0,
                        table_views(table@) =~~= visit_bucket(svs, bucketv, j as int, v0, t0).1,
                        distinct_table_keys(table_views(table@)),
                    decreases nbp - j,
                {
                    let ghost vb_prev = visit_bucket(svs, bucketv, j as int, v0, t0);
                    let p = buckets[bi].1[j].clone();
                    proof {
                        assert(p@ == bucketv[j as int]);
                    }
                    if !strings_contain(&visited, p.as_str()) {
                        let ghost old_v = visited@;
                        visited.push(p.clone());
                        proof {
                            crate::text::lemma_string_views_push(old_v, visited@.last());
                            assert(string_views(visited@) =~= string_views(old_v) + seq![
                                bucketv[j as int],
                            ]);
                        }
                        match sample_find(samples, p.as_str()) {
                            None => {},
                            Some(s) => {
                                let fp = Fingerprint::from_sample(s);
                                let ghost tv = table_views(table@);
                                let ghost old_vecs = table@;
                                match table_find(&table, &fp) {
                                    Some(k) => {
                                        let (kfp, mut conflict) = table.remove(k);
                                        let ghost old_bf = conflict.base_files@;
                                        conflict.base_files.push(p);
                                        let ghost new_cv = conflict@;
                                        proof {
                                            crate::text::lemma_string_views_push(
                                                old_bf,
                                                conflict.base_files@.last(),
                                            );
                                            assert(new_cv.base_files =~= tv[
                                                k as int
                                            ].1.base_files.push(bucketv[j as int]));
                                        }
                                        table.insert(k, (kfp, conflict));
                                        proof {
                                            assert(table@.len() == old_vecs.len());
                                            assert forall|w: int|
                                                0 <= w < old_vecs.len() && w != k implies table@[w]
                                                == old_vecs[w] by {}
                                            lemma_table_views_update(old_vecs, table@, k as int);
                                            assert(table@[k as int].1@ == new_cv);
                                            assert(table@[k as int].1@ == ConflictView {
                                                base_files: tv[k as int].1.base_files.push(
                                                    bucketv[j as int],
                                                ),
                                                compare_files: tv[k as int].1.compare_files,
                                            });
                                            lemma_table_add_base_existing(
                                                tv,
                                                fp@,
                                                bucketv[j as int],
                                                k as int,
                                            );
                                            assert(table_views(table@) =~~= table_add_base(
                                                tv,
                                                fp@,
                                                bucketv[j as int],
                                            ));
                                        }
                                    },
                                    None => {
                                        let mut base_files: Vec<String> = Vec::new();
                                        base_files.push(p);
                                        let conflict = Conflict {
                                            base_files,
                                            compare_files: Vec::new(),
                                        };
                                        table.push((fp, conflict));
                                        proof {
                                            assert(table@ == old_vecs.push(
                                                table@[old_vecs.len() as int],
                                            ));
                                            assert(string_views(
                                                table@[old_vecs.len() as int].1.base_files@,
                                            ) =~= seq![bucketv[j as int]]);
                                            assert(string_views(
                                                table@[old_vecs.len() as int].1.compare_files@,
                                            ) =~= Seq::<Seq<char>>::empty());
                                            lemma_table_add_base_new(tv, fp@, bucketv[j as int]);
                                            assert forall|w: int|
                                                0 <= w < table@.len() implies table_views(
                                                table@,
                                            )[w] == table_add_base(tv, fp@, bucketv[j as int])[w]
                                                by {
                                                if w < old_vecs.len() {
                                                    assert(table@[w] == old_vecs[w]);
                                                }
                                            }
                                            assert(table_views(table@) =~~= table_add_base(
                                                tv,
                                                fp@,
                                                bucketv[j as int],
                                            ));
                                        }
                                    },
                                }
                            },
                        }
                    }
                    j = j + 1;
                }
            },
        }
        match sample_find(samples, diff[t].path.as_str()) {
            None => {},
            Some(s) => {
                let fp = Fingerprint::from_sample(s);
                let ghost tv = table_views(table@);
                let ghost old_vecs = table@;
                match table_find(&table, &fp) {
                    Some(k) => {
                        let (kfp, mut conflict) = table.remove(k);
                        let ghost old_cf = conflict.compare_files@;
                        conflict.compare_files.push(diff[t].path.clone());
                        let ghost new_cv = conflict@;
                        proof {
                            crate::text::lemma_string_views_push(
                                old_cf,
                                conflict.compare_files@.last(),
                            );
                            assert(new_cv.compare_files =~= tv[k as int].1.compare_files.push(
                                diffv[t as int].path,
                            ));
                        }
                        table.insert(k, (kfp, conflict));
                        cache.insert(diff[t].path.clone(), diff[t].meta);
                        proof {
                            assert(table_has(tv, fp@));
                            assert(table@.len() == old_vecs.len());
                            assert forall|w: int|
                                0 <= w < old_vecs.len() && w != k implies table@[w]
                                == old_vecs[w] by {}
                            lemma_table_views_update(old_vecs, table@, k as int);
                            assert(table@[k as int].1@ == new_cv);
                            assert(table@[k as int].1@ == ConflictView {
                                base_files: tv[k as int].1.base_files,
                                compare_files: tv[k as int].1.compare_files.push(
                                    diffv[t as int].path,
                                ),
                            });
                            lemma_table_add_compare_existing(
                                tv,
                                fp@,
                                diffv[t as int].path,
                                k as int,
                            );
                            assert(table_views(table@) =~~= table_add_compare(
                                tv,
                                fp@,
                                diffv[t as int].path,
                            ));
                        }
                    },
                    None => {
                        proof {
                            assert(!table_has(tv, fp@));
                        }
                    },
                }
            },
        }
        t = t + 1;
    }

    let ghost tv_final = table_views(table@);
    proof {
        lemma_cross_state_cache_free(svs, bsv, diffv, diffv.len() as int, m0, Map::empty());
        assert(tv_final =~~= cross_conflicts_table(bvs, cvs, svs));
    }
    let nt: usize = table.len();
    let mut out: Vec<(Fingerprint, Conflict)> = Vec::new();
    let mut q: usize = 0;
    while q < nt
        invariant
            q <= nt,
            nt == tv_final.len(),
            table@.len() == nt - q,
            table_views(table@) =~~= tv_final.subrange(q as int, nt as int),
            table_views(out@) =~~= retained_upto(tv_final, q as int),
        decreases nt - q,
    {
        let ghost old_out = table_views(out@);
        let ghost old_table = table@;
        let g = table.remove(0);
        proof {
            assert(table_views(old_table) == tv_final.subrange(q as int, nt as int));
            assert((g.0@, g.1@) == table_views(old_table)[0]);
            assert(table_views(old_table)[0] == tv_final[q as int]);
            assert forall|w: int| 0 <= w < table@.len() implies table_views(table@)[w]
                == tv_final[q + 1 + w] by {
                assert(table@[w] == old_table[w + 1]);
                assert(table_views(old_table)[w + 1] == tv_final.subrange(q as int, nt as int)[w
                    + 1]);
            }
            assert(table_views(table@) =~~= tv_final.subrange(q as int + 1, nt as int));
        }
        if g.1.compare_files.len() >= 1 {
            out.push(g);
            proof {
                assert(table_views(out@) =~~= old_out + seq![tv_final[q as int]]);
            }
        }
        q = q + 1;
    }
    proof {
        assert(table_views(out@) =~~= cross_conflicts(bvs, cvs, svs));
    }
    out
}

/// The visited set and table of a run do not depend on what the cache
/// held at the start; only the cache component does.
proof fn lemma_cross_state_cache_free(
    svs: Seq<SampleView>,
    bs: Seq<(u64, Seq<Seq<char>>)>,
    diff: Seq<EntryView>,
    n: int,
    m0: Map<Seq<char>, Meta>,
    m1: Map<Seq<char>, Meta>,
)
    ensures
        cross_state(svs, bs, diff, n, m0).0 == cross_state(svs, bs, diff, n, m1).0,
        cross_state(svs, bs, diff, n, m0).1 == cross_state(svs, bs, diff, n, m1).1,
    decreases n,
{
    if n > 0 {
        lemma_cross_state_cache_free(svs, bs, diff, n - 1, m0, m1);
    }
}

/// The full conflict table of a cross-tree run, before entries that no
/// compare file joined are dropped.
pub open spec fn cross_conflicts_table(
    bvs: Seq<EntryView>,
    cvs: Seq<EntryView>,
    svs: Seq<SampleView>,
) -> Seq<(FingerprintView, ConflictView)> {
    let diff = diff_entries(cvs, bvs);
    cross_state(svs, base_buckets(bvs), diff, diff.len() as int, Map::empty()).1
}

/// Whether one of the first `n` difference entries has this path.
spec fn in_diff(diff: Seq<EntryView>, n: int, p: Seq<char>) -> bool {
    exists|q: int| 0 <= q < n && #[trigger] diff[q].path == p
}

/// Every one of these paths is the path of one of the first `n`
/// difference entries.
spec fn paths_from(ps: Seq<Seq<char>>, diff: Seq<EntryView>, n: int) -> bool {
    forall|w: int| 0 <= w < ps.len() ==> in_diff(diff, n, #[trigger] ps[w])
}

/// Every compare file in the table is the path of one of the first `n`
/// difference entries.
spec fn compare_from(t: Seq<(FingerprintView, ConflictView)>, diff: Seq<EntryView>, n: int) -> bool {
    forall|k: int| 0 <= k < t.len() ==> paths_from(#[trigger] t[k].1.compare_files, diff, n)
}

proof fn lemma_in_diff_weaken(diff: Seq<EntryView>, n1: int, n2: int, p: Seq<char>)
    requires
        in_diff(diff, n1, p),
        n1 <= n2,
    ensures
        in_diff(diff, n2, p),
{
    let q = choose|q: int| 0 <= q < n1 && #[trigger] diff[q].path == p;
    assert(0 <= q < n2 && diff[q].path == p);
}

proof fn lemma_compare_from_weaken(
    t: Seq<(FingerprintView, ConflictView)>,
    diff: Seq<EntryView>,
    n1: int,
    n2: int,
)
    requires
        compare_from(t, diff, n1),
        n1 <= n2,
    ensures
        compare_from(t, diff, n2),
{
    assert forall|k: int| 0 <= k < t.len() implies paths_from(
        #[trigger] t[k].1.compare_files,
        diff,
        n2,
    ) by {
        assert(paths_from(t[k].1.compare_files, diff, n1));
        assert forall|w: int| 0 <= w < t[k].1.compare_files.len() implies in_diff(
            diff,
            n2,
            #[trigger] t[k].1.compare_files[w],
        ) by {
            lemma_in_diff_weaken(diff, n1, n2, t[k].1.compare_files[w]);
        }
    }
}

proof fn lemma_add_base_compare_from(
    t: Seq<(FingerprintView, ConflictView)>,
    fp: FingerprintView,
    p: Seq<char>,
    diff: Seq<EntryView>,
    n: int,
)
    requires
        compare_from(t, diff, n),
    ensures
        compare_from(table_add_base(t, fp, p), diff, n),
    decreases t.len(),
{
    let out = table_add_base(t, fp, p);
    if t.len() == 0 {
        assert forall|k: int| 0 <= k < out.len() implies paths_from(
            #[trigger] out[k].1.compare_files,
            diff,
            n,
        ) by {
            assert(out[k].1.compare_files.len() == 0);
        }
    } else if t.first().0 == fp {
        assert forall|k: int| 0 <= k < out.len() implies paths_from(
            #[trigger] out[k].1.compare_files,
            diff,
            n,
        ) by {
            assert(out[k].1.compare_files == t[k].1.compare_files);
            assert(paths_from(t[k].1.compare_files, diff, n));
        }
    } else {
        assert(forall|k: int| 0 <= k < t.drop_first().len() ==> t.drop_first()[k] == t[k + 1]);
        assert forall|k: int| 0 <= k < t.drop_first().len() implies paths_from(
            #[trigger] t.drop_first()[k].1.compare_files,
            diff,
            n,
        ) by {
            assert(t.drop_first()[k].1.compare_files == t[k + 1].1.compare_files);
            assert(paths_from(t[k + 1].1.compare_files, diff, n));
        }
        lemma_add_base_compare_from(t.drop_first(), fp, p, diff, n);
        let rest = table_add_base(t.drop_first(), fp, p);
        assert forall|k: int| 0 <= k < out.len() implies paths_from(
            #[trigger] out[k].1.compare_files,
            diff,
            n,
        ) by {
            if k == 0 {
                assert(out[0] == t[0]);
                assert(paths_from(t[0].1.compare_files, diff, n));
            } else {
                assert(out[k] == rest[k - 1]);
                assert(paths_from(rest[k - 1].1.compare_files, diff, n));
            }
        }
    }
}

proof fn lemma_add_compare_compare_from(
    t: Seq<(FingerprintView, ConflictView)>,
    fp: FingerprintView,
    p: Seq<char>,
    diff: Seq<EntryView>,
    n: int,
)
    requires
        compare_from(t, diff, n),
        in_diff(diff, n, p),
    ensures
        compare_from(table_add_compare(t, fp, p), diff, n),
    decreases t.len(),
{
    let out = table_add_compare(t, fp, p);
    if t.len() == 0 {
    } else if t.first().0 == fp {
        assert forall|k: int| 0 <= k < out.len() implies paths_from(
            #[trigger] out[k].1.compare_files,
            diff,
            n,
        ) by {
            if k == 0 {
                assert(out[0].1.compare_files == t[0].1.compare_files.push(p));
                assert(paths_from(t[0].1.compare_files, diff, n));
                assert forall|w: int| 0 <= w < out[0].1.compare_files.len() implies in_diff(
                    diff,
                    n,
                    #[trigger] out[0].1.compare_files[w],
                ) by {
                    if w < t[0].1.compare_files.len() {
                        assert(out[0].1.compare_files[w] == t[0].1.compare_files[w]);
                        assert(in_diff(diff, n, t[0].1.compare_files[w]));
                    } else {
                        assert(out[0].1.compare_files[w] == p);
                    }
                }
            } else {
                assert(out[k] == t[k]);
                assert(paths_from(t[k].1.compare_files, diff, n));
            }
        }
    } else {
        assert(forall|k: int| 0 <= k < t.drop_first().len() ==> t.drop_first()[k] == t[k + 1]);
        assert forall|k: int| 0 <= k < t.drop_first().len() implies paths_from(
            #[trigger] t.drop_first()[k].1.compare_files,
            diff,
            n,
        ) by {
            assert(t.drop_first()[k].1.compare_files == t[k + 1].1.compare_files);
            assert(paths_from(t[k + 1].1.compare_files, diff, n));
        }
        lemma_add_compare_compare_from(t.drop_first(), fp, p, diff, n);
        let rest = table_add_compare(t.drop_first(), fp, p);
        assert forall|k: int| 0 <= k < out.len() implies paths_from(
            #[trigger] out[k].1.compare_files,
            diff,
            n,
        ) by {
            if k == 0 {
                assert(out[0] == t[0]);
                assert(paths_from(t[0].1.compare_files, diff, n));
            } else {
                assert(out[k] == rest[k - 1]);
                assert(paths_from(rest[k - 1].1.compare_files, diff, n));
            }
        }
    }
}

proof fn lemma_visit_bucket_compare_from(
    svs: Seq<SampleView>,
    bucket: Seq<Seq<char>>,
    j: int,
    v: Seq<Seq<char>>,
    t: Seq<(FingerprintView, ConflictView)>,
    diff: Seq<EntryView>,
    n: int,
)
    requires
        compare_from(t, diff, n),
    ensures
        compare_from(visit_bucket(svs, bucket, j, v, t).1, diff, n),
    decreases j,
{
    if j > 0 {
        lemma_visit_bucket_compare_from(svs, bucket, j - 1, v, t, diff, n);
        let (v1, t1) = visit_bucket(svs, bucket, j - 1, v, t);
        let p = bucket[j - 1];
        if !v1.contains(p) {
            match sample_for(svs, p) {
                None => {},
                Some(s) => {
                    lemma_add_base_compare_from(t1, fingerprint_of(s), p, diff, n);
                },
            }
        }
    }
}

proof fn lemma_cross_state_compare_from(
    svs: Seq<SampleView>,
    bs: Seq<(u64, Seq<Seq<char>>)>,
    diff: Seq<EntryView>,
    n: int,
    m0: Map<Seq<char>, Meta>,
)
    requires
        0 <= n <= diff.len(),
    ensures
        compare_from(cross_state(svs, bs, diff, n, m0).1, diff, n),
    decreases n,
{
    if n > 0 {
        lemma_cross_state_compare_from(svs, bs, diff, n - 1, m0);
        let (v, t, m) = cross_state(svs, bs, diff, n - 1, m0);
        lemma_compare_from_weaken(t, diff, n - 1, n);
        let c = diff[n - 1];
        let stepped = match bucket_lookup(bs, c.meta.len) {
            None => (v, t),
            Some(bucket) => visit_bucket(svs, bucket, bucket.len() as int, v, t),
        };
        match bucket_lookup(bs, c.meta.len) {
            None => {},
            Some(bucket) => {
                lemma_visit_bucket_compare_from(svs, bucket, bucket.len() as int, v, t, diff, n);
            },
        }
        let t1 = stepped.1;
        match sample_for(svs, c.path) {
            None => {},
            Some(s) => {
                if table_has(t1, fingerprint_of(s)) {
                    assert(diff[n - 1].path == c.path);
                    assert(in_diff(diff, n, c.path));
                    lemma_add_compare_compare_from(t1, fingerprint_of(s), c.path, diff, n);
                }
            },
        }
    } else {
        assert(cross_state(svs, bs, diff, n, m0).1.len() == 0);
    }
}

proof fn lemma_diff_not_base(cvs: Seq<EntryView>, bvs: Seq<EntryView>, n: int)
    ensures
        forall|q: int|
            0 <= q < diff_upto(cvs, bvs, n).len() ==> !has_path(
                bvs,
                #[trigger] diff_upto(cvs, bvs, n)[q].path,
            ),
    decreases n,
{
    if n > 0 {
        lemma_diff_not_base(cvs, bvs, n - 1);
    }
}

proof fn lemma_retained_sub(t: Seq<(FingerprintView, ConflictView)>, n: int)
    requires
        0 <= n <= t.len(),
    ensures
        forall|k: int|
            0 <= k < retained_upto(t, n).len() ==> exists|k0: int|
                0 <= k0 < t.len() && #[trigger] retained_upto(t, n)[k] == t[k0],
    decreases n,
{
    if n > 0 {
        lemma_retained_sub(t, n - 1);
        assert forall|k: int| 0 <= k < retained_upto(t, n).len() implies exists|k0: int|
            0 <= k0 < t.len() && #[trigger] retained_upto(t, n)[k] == t[k0] by {
            if k < retained_upto(t, n - 1).len() {
                assert(retained_upto(t, n)[k] == retained_upto(t, n - 1)[k]);
            } else {
                assert(retained_upto(t, n)[k] == t[n - 1]);
            }
        }
    }
}

/// Cross-tree no-self-counting: a reported compare file is never a path
/// of the base listing, so no file is reported as a duplicate of itself,
/// also when a compare root lies inside the base tree: the canonical
/// paths coincide and the difference step removes them.
pub proof fn lemma_no_self_counting(
    bvs: Seq<EntryView>,
    cvs: Seq<EntryView>,
    svs: Seq<SampleView>,
    k: int,
    w: int,
)
    requires
        0 <= k < cross_conflicts(bvs, cvs, svs).len(),
        0 <= w < cross_conflicts(bvs, cvs, svs)[k].1.compare_files.len(),
    ensures
        !has_path(bvs, cross_conflicts(bvs, cvs, svs)[k].1.compare_files[w]),
{
    let diff = diff_entries(cvs, bvs);
    let t = cross_state(svs, base_buckets(bvs), diff, diff.len() as int, Map::empty()).1;
    lemma_cross_state_compare_from(svs, base_buckets(bvs), diff, diff.len() as int, Map::empty());
    lemma_retained_sub(t, t.len() as int);
    lemma_diff_not_base(cvs, bvs, cvs.len() as int);
    let g = cross_conflicts(bvs, cvs, svs)[k];
    let k0 = choose|k0: int| 0 <= k0 < t.len() && cross_conflicts(bvs, cvs, svs)[k] == t[k0];
    assert(t[k0].1.compare_files[w] == g.1.compare_files[w]);
    let q = choose|q: int|
        0 <= q < diff.len() && diff[q].path == t[k0].1.compare_files[w];
    assert(!has_path(bvs, diff[q].path));
}

/// Cross-tree exclusion idempotence: comparing a tree against itself — or
/// against any listing made only of base paths — yields zero conflicts,
/// because the compare-minus-base difference leaves nothing to match.
pub proof fn lemma_self_compare_finds_nothing(
    bvs: Seq<EntryView>,
    cvs: Seq<EntryView>,
    svs: Seq<SampleView>,
)
    requires
        forall|i: int| 0 <= i < cvs.len() ==> has_path(bvs, #[trigger] cvs[i].path),
    ensures
        cross_conflicts(bvs, cvs, svs).len() == 0,
{
    lemma_diff_empty(cvs, bvs, cvs.len() as int);
    let diff = diff_entries(cvs, bvs);
    assert(diff.len() == 0);
    assert(cross_state(svs, base_buckets(bvs), diff, 0, Map::empty()).1 =~= Seq::<
        (FingerprintView, ConflictView),
    >::empty());
}

proof fn lemma_diff_empty(cvs: Seq<EntryView>, bvs: Seq<EntryView>, n: int)
    requires
        0 <= n <= cvs.len(),
        forall|i: int| 0 <= i < cvs.len() ==> has_path(bvs, #[trigger] cvs[i].path),
    ensures
        diff_upto(cvs, bvs, n).len() == 0,
    decreases n,
{
    if n > 0 {
        lemma_diff_empty(cvs, bvs, n - 1);
    }
}

/// All compare files of the first `n` table entries, in order: what a
/// forced cross-tree run removes.
pub open spec fn compare_paths_upto(
    tvs: Seq<(FingerprintView, ConflictView)>,
    n: int,
) -> Seq<Seq<char>>
    decreases n,
{
    if n <= 0 {
        Seq::empty()
    } else {
        compare_paths_upto(tvs, n - 1) + tvs[n - 1].1.compare_files
    }
}

/// Every compare file that a forced cross-tree run removes.
pub open spec fn compare_removal(tvs: Seq<(FingerprintView, ConflictView)>) -> Seq<Seq<char>> {
    compare_paths_upto(tvs, tvs.len() as int)
}

/// The removal plan of a cross-tree run: every reported compare file, in
/// order, with the total bytes their removal reclaims according to the
/// cache.
pub fn removal_plan(groups: &Vec<(Fingerprint, Conflict)>, cache: &Metacache) -> (r: (
    Vec<String>,
    u64,
))
    requires
        cache.wf(),
        crate::single::size_upto(
            cache@,
            compare_removal(table_views(groups@)),
            compare_removal(table_views(groups@)).len() as int,
        ) <= u64::MAX,
    ensures
        string_views(r.0@) == compare_removal(table_views(groups@)),
        r.1 == crate::single::size_upto(
            cache@,
            compare_removal(table_views(groups@)),
            compare_removal(table_views(groups@)).len() as int,
        ),
{
    let ghost tvs = table_views(groups@);
    let ng: usize = groups.len();
    let mut plan: Vec<String> = Vec::new();
    let mut g: usize = 0;
    while g < ng
        invariant
            g <= ng,
            ng == tvs.len(),
            tvs == table_views(groups@),
            string_views(plan@) =~= compare_paths_upto(tvs, g as int),
        decreases ng - g,
    {
        let members = &groups[g].1.compare_files;
        let nm: usize = members.len();
        let mut j: usize = 0;
        while j < nm
            invariant
                j <= nm,
                nm == tvs[g as int].1.compare_files.len(),
                g < tvs.len(),
                tvs == table_views(groups@),
                members == groups@[g as int].1.compare_files,
                string_views(plan@) =~= compare_paths_upto(tvs, g as int) + tvs[
                    g as int
                ].1.compare_files.subrange(0, j as int),
            decreases nm - j,
        {
            let ghost old_plan = plan@;
            plan.push(members[j].clone());
            proof {
                crate::text::lemma_string_views_push(
                    old_plan,
                    groups@[g as int].1.compare_files[j as int],
                );
                assert(string_views(plan@) =~= compare_paths_upto(tvs, g as int) + tvs[
                    g as int
                ].1.compare_files.subrange(0, j as int + 1));
            }
            j = j + 1;
        }
        proof {
            assert(tvs[g as int].1.compare_files.subrange(0, nm as int) == tvs[
                g as int
            ].1.compare_files);
            assert(string_views(plan@) =~= compare_paths_upto(tvs, g as int + 1));
        }
        g = g + 1;
    }
    proof {
        assert(string_views(plan@) =~= compare_removal(tvs));
    }
    let size = crate::single::sum_cached(cache, &plan);
    (plan, size)
}

/// How many duplicates the first `n` table entries hold: every reported
/// compare file counts.
pub open spec fn conflict_count_upto(tvs: Seq<(FingerprintView, ConflictView)>, n: int) -> int
    decreases n,
{
    if n <= 0 {
        0
    } else {
        conflict_count_upto(tvs, n - 1) + tvs[n - 1].1.compare_files.len()
    }
}

/// The cached byte length of an entry's first compare file; all reported
/// compare files of one entry are byte-identical, so it stands for each.
pub open spec fn first_compare_len(
    m: Map<Seq<char>, Meta>,
    g: (FingerprintView, ConflictView),
) -> int {
    if g.1.compare_files.len() >= 1 {
        crate::single::cached_len(m, g.1.compare_files[0])
    } else {
        0
    }
}

/// The bytes that the first `n` entries would reclaim, as the report
/// counts them.
pub open spec fn conflict_size_upto(
    m: Map<Seq<char>, Meta>,
    tvs: Seq<(FingerprintView, ConflictView)>,
    n: int,
) -> int
    decreases n,
{
    if n <= 0 {
        0
    } else {
        conflict_size_upto(m, tvs, n - 1) + tvs[n - 1].1.compare_files.len() * first_compare_len(
            m,
            tvs[n - 1],
        )
    }
}

proof fn lemma_conflict_bounds(
    m: Map<Seq<char>, Meta>,
    tvs: Seq<(FingerprintView, ConflictView)>,
    n1: int,
    n2: int,
)
    requires
        0 <= n1 <= n2 <= tvs.len(),
    ensures
        conflict_count_upto(tvs, n1) <= conflict_count_upto(tvs, n2),
        0 <= conflict_count_upto(tvs, n2),
        conflict_size_upto(m, tvs, n1) <= conflict_size_upto(m, tvs, n2),
        0 <= conflict_size_upto(m, tvs, n2),
    decreases n2,
{
    if n1 < n2 {
        lemma_conflict_bounds(m, tvs, n1, n2 - 1);
        assert(tvs[n2 - 1].1.compare_files.len() * first_compare_len(m, tvs[n2 - 1]) >= 0)
            by (nonlinear_arith)
            requires
                tvs[n2 - 1].1.compare_files.len() >= 0,
                first_compare_len(m, tvs[n2 - 1]) >= 0,
        ;
    } else if n2 > 0 {
        lemma_conflict_bounds(m, tvs, 0, n2 - 1);
        assert(tvs[n2 - 1].1.compare_files.len() * first_compare_len(m, tvs[n2 - 1]) >= 0)
            by (nonlinear_arith)
            requires
                tvs[n2 - 1].1.compare_files.len() >= 0,
                first_compare_len(m, tvs[n2 - 1]) >= 0,
        ;
    }
}

/// The duplicate count and reclaimed-size total of a cross-tree report:
/// every reported compare file counts, at its entry's first compare
/// file's recorded byte length.
pub fn report_stats(groups: &Vec<(Fingerprint, Conflict)>, cache: &Metacache) -> (r: (
    usize,
    u64,
))
    requires
        cache.wf(),
        conflict_count_upto(table_views(groups@), groups@.len() as int) <= usize::MAX,
        conflict_size_upto(cache@, table_views(groups@), groups@.len() as int) <= u64::MAX,
    ensures
        r.0 == conflict_count_upto(table_views(groups@), groups@.len() as int),
        r.1 == conflict_size_upto(cache@, table_views(groups@), groups@.len() as int),
{
    let ghost tvs = table_views(groups@);
    let ng: usize = groups.len();
    let mut count: usize = 0;
    let mut size: u64 = 0;
    let mut g: usize = 0;
    while g < ng
        invariant
            g <= ng,
            ng == tvs.len(),
            tvs == table_views(groups@),
            cache.wf(),
            count == conflict_count_upto(tvs, g as int),
            size == conflict_size_upto(cache@, tvs, g as int),
            conflict_count_upto(tvs, ng as int) <= usize::MAX,
            conflict_size_upto(cache@, tvs, ng as int) <= u64::MAX,
        decreases ng - g,
    {
        let members = &groups[g].1.compare_files;
        let nm: usize = members.len();
        proof {
            lemma_conflict_bounds(cache@, tvs, g as int + 1, ng as int);
            lemma_conflict_bounds(cache@, tvs, 0, g as int);
        }
        let flen: u64 = if nm >= 1 {
            crate::single::cached_len_exec(cache, &members[0])
        } else {
            0
        };
        proof {
            assert(flen == first_compare_len(cache@, tvs[g as int]));
            assert((nm as int) * (flen as int) >= 0) by (nonlinear_arith)
                requires
                    nm >= 0,
                    flen >= 0,
            ;
        }
        count = count + nm;
        let add: u64 = (nm as u64) * flen;
        size = size + add;
        g = g + 1;
    }
    (count, size)
}

/// The section header over an entry's base files.
pub open spec fn base_header() -> Seq<char> {
    "-------------------------- base files --------------------------"@
}

/// The section header over an entry's reported duplicates.
pub open spec fn dup_header() -> Seq<char> {
    "-------------------------- duplicates --------------------------"@
}

/// The file name of a path, for display; empty for the rare path that has
/// none.
pub open spec fn name_of(p: Seq<char>) -> Seq<char> {
    match crate::text::file_name_of(p) {
        Some(nm) => nm,
        None => Seq::empty(),
    }
}

/// The file-name lines of the first `n` paths.
pub open spec fn name_lines_upto(ps: Seq<Seq<char>>, n: int) -> Seq<Seq<char>>
    decreases n,
{
    if n <= 0 {
        Seq::empty()
    } else {
        name_lines_upto(ps, n - 1) + seq![name_of(ps[n - 1])]
    }
}

/// The printed block of one conflict entry: its fingerprint, the names of
/// its base files, the names of its reported duplicates, and a blank line.
pub open spec fn conflict_lines(g: (FingerprintView, ConflictView)) -> Seq<Seq<char>> {
    seq![crate::format::hex_of(g.0.head), base_header()] + name_lines_upto(
        g.1.base_files,
        g.1.base_files.len() as int,
    ) + seq![dup_header()] + name_lines_upto(
        g.1.compare_files,
        g.1.compare_files.len() as int,
    ) + seq![Seq::<char>::empty()]
}

/// The printed blocks of the first `n` conflict entries.
pub open spec fn conflict_lines_upto(
    tvs: Seq<(FingerprintView, ConflictView)>,
    n: int,
) -> Seq<Seq<char>>
    decreases n,
{
    if n <= 0 {
        Seq::empty()
    } else {
        conflict_lines_upto(tvs, n - 1) + conflict_lines(tvs[n - 1])
    }
}

/// Every line of the cross-tree report: one block per entry, then the
/// summary.
pub open spec fn conflict_report_lines(
    m: Map<Seq<char>, Meta>,
    tvs: Seq<(FingerprintView, ConflictView)>,
) -> Seq<Seq<char>> {
    conflict_lines_upto(tvs, tvs.len() as int) + seq![
        crate::single::summary_line(
            conflict_count_upto(tvs, tvs.len() as int),
            conflict_size_upto(m, tvs, tvs.len() as int) as u64,
        ),
    ]
}

/// Render the report of a cross-tree run: one block per conflict entry
/// showing the base files and the duplicates found for them by file name,
/// then the count of duplicates and the size their removal would reclaim.
pub fn render_conflicts(groups: &Vec<(Fingerprint, Conflict)>, cache: &Metacache) -> (r: Vec<
    String,
>)
    requires
        cache.wf(),
        conflict_count_upto(table_views(groups@), groups@.len() as int) <= usize::MAX,
        conflict_size_upto(cache@, table_views(groups@), groups@.len() as int) <= u64::MAX,
    ensures
        string_views(r@) == conflict_report_lines(cache@, table_views(groups@)),
{
    let ghost tvs = table_views(groups@);
    let ng: usize = groups.len();
    let mut lines: Vec<String> = Vec::new();
    let mut g: usize = 0;
    while g < ng
        invariant
            g <= ng,
            ng == tvs.len(),
            tvs == table_views(groups@),
            string_views(lines@) =~= conflict_lines_upto(tvs, g as int),
        decreases ng - g,
    {
        let ghost before_group = string_views(lines@);
        let ghost old_lines = lines@;
        let hex = groups[g].0.to_hex_string();
        lines.push(hex);
        proof {
            crate::text::lemma_string_views_push(old_lines, lines@.last());
        }
        let ghost old_lines = lines@;
        lines.push("-------------------------- base files --------------------------".to_owned());
        proof {
            crate::text::lemma_string_views_push(old_lines, lines@.last());
        }
        push_name_lines(&mut lines, &groups[g].1.base_files);
        proof {
            assert(string_views(lines@) =~= before_group + seq![
                crate::format::hex_of(tvs[g as int].0.head),
                base_header(),
            ] + name_lines_upto(
                tvs[g as int].1.base_files,
                tvs[g as int].1.base_files.len() as int,
            ));
        }
        let ghost mid_lines = string_views(lines@);
        let ghost old_lines = lines@;
        lines.push("-------------------------- duplicates --------------------------".to_owned());
        proof {
            crate::text::lemma_string_views_push(old_lines, lines@.last());
        }
        push_name_lines(&mut lines, &groups[g].1.compare_files);
        let ghost old_lines = lines@;
        lines.push(String::new());
        proof {
            crate::text::lemma_string_views_push(old_lines, lines@.last());
            assert(string_views(lines@) =~= mid_lines + seq![dup_header()] + name_lines_upto(
                tvs[g as int].1.compare_files,
                tvs[g as int].1.compare_files.len() as int,
            ) + seq![Seq::<char>::empty()]);
            assert(string_views(lines@) =~= conflict_lines_upto(tvs, g as int + 1));
        }
        g = g + 1;
    }

    let stats = report_stats(groups, cache);
    let mut line = crate::text::u64_to_string(stats.0 as u64);
    line.append(" duplicates (");
    let human = crate::format::human_size(stats.1);
    line.append(human.as_str());
    line.append(")");
    proof {
        assert(line@ == crate::single::summary_line(
            conflict_count_upto(tvs, ng as int),
            conflict_size_upto(cache@, tvs, ng as int) as u64,
        ));
    }
    let ghost old_lines = lines@;
    lines.push(line);
    proof {
        crate::text::lemma_string_views_push(old_lines, lines@.last());
        assert(string_views(lines@) =~= conflict_report_lines(cache@, tvs));
    }
    lines
}

/// Every one of these paths stands in the entry listing.
spec fn paths_in(ps: Seq<Seq<char>>, evs: Seq<EntryView>) -> bool {
    forall|w: int| 0 <= w < ps.len() ==> has_path(evs, #[trigger] ps[w])
}

/// Every base file in the table is a path of the listing.
spec fn base_from(t: Seq<(FingerprintView, ConflictView)>, evs: Seq<EntryView>) -> bool {
    forall|k: int| 0 <= k < t.len() ==> paths_in(#[trigger] t[k].1.base_files, evs)
}

/// Every path in every bucket is a path of the listing.
spec fn buckets_from(bs: Seq<(u64, Seq<Seq<char>>)>, evs: Seq<EntryView>) -> bool {
    forall|k: int| 0 <= k < bs.len() ==> paths_in(#[trigger] bs[k].1, evs)
}

proof fn lemma_dedup_in(s: Seq<EntryView>, n: int)
    requires
        0 <= n <= s.len(),
    ensures
        forall|q: int|
            0 <= q < dedup_upto(s, n).len() ==> has_path(s, #[trigger] dedup_upto(s, n)[q].path),
    decreases n,
{
    if n > 0 {
        lemma_dedup_in(s, n - 1);
        assert forall|q: int| 0 <= q < dedup_upto(s, n).len() implies has_path(
            s,
            #[trigger] dedup_upto(s, n)[q].path,
        ) by {
            if q < dedup_upto(s, n - 1).len() {
                assert(dedup_upto(s, n)[q] == dedup_upto(s, n - 1)[q]);
                assert(has_path(s, dedup_upto(s, n - 1)[q].path));
            } else {
                assert(dedup_upto(s, n)[q] == s[n - 1]);
                assert(s[n - 1].path == s[n - 1].path);
            }
        }
    }
}

proof fn lemma_bucket_add_from(
    bs: Seq<(u64, Seq<Seq<char>>)>,
    l: u64,
    p: Seq<char>,
    evs: Seq<EntryView>,
)
    requires
        buckets_from(bs, evs),
        has_path(evs, p),
    ensures
        buckets_from(bucket_add(bs, l, p), evs),
    decreases bs.len(),
{
    let out = bucket_add(bs, l, p);
    if bs.len() == 0 {
        assert forall|k: int| 0 <= k < out.len() implies paths_in(#[trigger] out[k].1, evs) by {
            assert forall|w: int| 0 <= w < out[k].1.len() implies has_path(
                evs,
                #[trigger] out[k].1[w],
            ) by {
                assert(out[k].1[w] == p);
            }
        }
    } else if bs.first().0 == l {
        assert forall|k: int| 0 <= k < out.len() implies paths_in(#[trigger] out[k].1, evs) by {
            if k == 0 {
                assert(out[0].1 == bs[0].1.push(p));
                assert(paths_in(bs[0].1, evs));
                assert forall|w: int| 0 <= w < out[0].1.len() implies has_path(
                    evs,
                    #[trigger] out[0].1[w],
                ) by {
                    if w < bs[0].1.len() {
                        assert(out[0].1[w] == bs[0].1[w]);
                        assert(has_path(evs, bs[0].1[w]));
                    } else {
                        assert(out[0].1[w] == p);
                    }
                }
            } else {
                assert(out[k] == bs[k]);
                assert(paths_in(bs[k].1, evs));
            }
        }
    } else {
        assert(forall|k: int|
            0 <= k < bs.drop_first().len() ==> bs.drop_first()[k] == bs[k + 1]);
        assert forall|k: int| 0 <= k < bs.drop_first().len() implies paths_in(
            #[trigger] bs.drop_first()[k].1,
            evs,
        ) by {
            assert(bs.drop_first()[k].1 == bs[k + 1].1);
            assert(paths_in(bs[k + 1].1, evs));
        }
        lemma_bucket_add_from(bs.drop_first(), l, p, evs);
        let rest = bucket_add(bs.drop_first(), l, p);
        assert forall|k: int| 0 <= k < out.len() implies paths_in(#[trigger] out[k].1, evs) by {
            if k == 0 {
                assert(out[0] == bs[0]);
                assert(paths_in(bs[0].1, evs));
            } else {
                assert(out[k] == rest[k - 1]);
                assert(paths_in(rest[k - 1].1, evs));
            }
        }
    }
}

proof fn lemma_base_buckets_from(bvs: Seq<EntryView>)
    ensures
        buckets_from(base_buckets(bvs), bvs),
{
    lemma_dedup_in(bvs, bvs.len() as int);
    lemma_buckets_upto_from(base_set(bvs), base_set(bvs).len() as int, bvs);
}

proof fn lemma_buckets_upto_from(s: Seq<EntryView>, n: int, evs: Seq<EntryView>)
    requires
        0 <= n <= s.len(),
        forall|q: int| 0 <= q < s.len() ==> has_path(evs, #[trigger] s[q].path),
    ensures
        buckets_from(buckets_upto(s, n), evs),
    decreases n,
{
    if n > 0 {
        lemma_buckets_upto_from(s, n - 1, evs);
        lemma_bucket_add_from(buckets_upto(s, n - 1), s[n - 1].meta.len, s[n - 1].path, evs);
    }
}

proof fn lemma_add_base_base_from(
    t: Seq<(FingerprintView, ConflictView)>,
    fp: FingerprintView,
    p: Seq<char>,
    evs: Seq<EntryView>,
)
    requires
        base_from(t, evs),
        has_path(evs, p),
    ensures
        base_from(table_add_base(t, fp, p), evs),
    decreases t.len(),
{
    let out = table_add_base(t, fp, p);
    if t.len() == 0 {
        assert forall|k: int| 0 <= k < out.len() implies paths_in(
            #[trigger] out[k].1.base_files,
            evs,
        ) by {
            assert forall|w: int| 0 <= w < out[k].1.base_files.len() implies has_path(
                evs,
                #[trigger] out[k].1.base_files[w],
            ) by {
                assert(out[k].1.base_files[w] == p);
            }
        }
    } else if t.first().0 == fp {
        assert forall|k: int| 0 <= k < out.len() implies paths_in(
            #[trigger] out[k].1.base_files,
            evs,
        ) by {
            if k == 0 {
                assert(out[0].1.base_files == t[0].1.base_files.push(p));
                assert(paths_in(t[0].1.base_files, evs));
                assert forall|w: int| 0 <= w < out[0].1.base_files.len() implies has_path(
                    evs,
                    #[trigger] out[0].1.base_files[w],
                ) by {
                    if w < t[0].1.base_files.len() {
                        assert(out[0].1.base_files[w] == t[0].1.base_files[w]);
                        assert(has_path(evs, t[0].1.base_files[w]));
                    } else {
                        assert(out[0].1.base_files[w] == p);
                    }
                }
            } else {
                assert(out[k] == t[k]);
                assert(paths_in(t[k].1.base_files, evs));
            }
        }
    } else {
        assert(forall|k: int| 0 <= k < t.drop_first().len() ==> t.drop_first()[k] == t[k + 1]);
        assert forall|k: int| 0 <= k < t.drop_first().len() implies paths_in(
            #[trigger] t.drop_first()[k].1.base_files,
            evs,
        ) by {
            assert(t.drop_first()[k].1.base_files == t[k + 1].1.base_files);
            assert(paths_in(t[k + 1].1.base_files, evs));
        }
        lemma_add_base_base_from(t.drop_first(), fp, p, evs);
        let rest = table_add_base(t.drop_first(), fp, p);
        assert forall|k: int| 0 <= k < out.len() implies paths_in(
            #[trigger] out[k].1.base_files,
            evs,
        ) by {
            if k == 0 {
                assert(out[0] == t[0]);
                assert(paths_in(t[0].1.base_files, evs));
            } else {
                assert(out[k] == rest[k - 1]);
                assert(paths_in(rest[k - 1].1.base_files, evs));
            }
        }
    }
}

proof fn lemma_add_compare_base_from(
    t: Seq<(FingerprintView, ConflictView)>,
    fp: FingerprintView,
    p: Seq<char>,
    evs: Seq<EntryView>,
)
    requires
        base_from(t, evs),
    ensures
        base_from(table_add_compare(t, fp, p), evs),
    decreases t.len(),
{
    let out = table_add_compare(t, fp, p);
    if t.len() == 0 {
    } else if t.first().0 == fp {
        assert forall|k: int| 0 <= k < out.len() implies paths_in(
            #[trigger] out[k].1.base_files,
            evs,
        ) by {
            if k == 0 {
                assert(out[0].1.base_files == t[0].1.base_files);
                assert(paths_in(t[0].1.base_files, evs));
            } else {
                assert(out[k] == t[k]);
                assert(paths_in(t[k].1.base_files, evs));
            }
        }
    } else {
        assert(forall|k: int| 0 <= k < t.drop_first().len() ==> t.drop_first()[k] == t[k + 1]);
        assert forall|k: int| 0 <= k < t.drop_first().len() implies paths_in(
            #[trigger] t.drop_first()[k].1.base_files,
            evs,
        ) by {
            assert(t.drop_first()[k].1.base_files == t[k + 1].1.base_files);
            assert(paths_in(t[k + 1].1.base_files, evs));
        }
        lemma_add_compare_base_from(t.drop_first(), fp, p, evs);
        let rest = table_add_compare(t.drop_first(), fp, p);
        assert forall|k: int| 0 <= k < out.len() implies paths_in(
            #[trigger] out[k].1.base_files,
            evs,
        ) by {
            if k == 0 {
                assert(out[0] == t[0]);
                assert(paths_in(t[0].1.base_files, evs));
            } else {
                assert(out[k] == rest[k - 1]);
                assert(paths_in(rest[k - 1].1.base_files, evs));
            }
        }
    }
}

proof fn lemma_visit_bucket_base_from(
    svs: Seq<SampleView>,
    bucket: Seq<Seq<char>>,
    j: int,
    v: Seq<Seq<char>>,
    t: Seq<(FingerprintView, ConflictView)>,
    evs: Seq<EntryView>,
)
    requires
        base_from(t, evs),
        paths_in(bucket, evs),
        0 <= j <= bucket.len(),
    ensures
        base_from(visit_bucket(svs, bucket, j, v, t).1, evs),
    decreases j,
{
    if j > 0 {
        lemma_visit_bucket_base_from(svs, bucket, j - 1, v, t, evs);
        let (v1, t1) = visit_bucket(svs, bucket, j - 1, v, t);
        let p = bucket[j - 1];
        if !v1.contains(p) {
            match sample_for(svs, p) {
                None => {},
                Some(s) => {
                    assert(has_path(evs, p));
                    lemma_add_base_base_from(t1, fingerprint_of(s), p, evs);
                },
            }
        }
    }
}

proof fn lemma_cross_state_base_from(
    svs: Seq<SampleView>,
    bs: Seq<(u64, Seq<Seq<char>>)>,
    diff: Seq<EntryView>,
    n: int,
    m0: Map<Seq<char>, Meta>,
    evs: Seq<EntryView>,
)
    requires
        0 <= n <= diff.len(),
        buckets_from(bs, evs),
    ensures
        base_from(cross_state(svs, bs, diff, n, m0).1, evs),
    decreases n,
{
    if n > 0 {
        lemma_cross_state_base_from(svs, bs, diff, n - 1, m0, evs);
        let (v, t, m) = cross_state(svs, bs, diff, n - 1, m0);
        let c = diff[n - 1];
        let stepped = match bucket_lookup(bs, c.meta.len) {
            None => (v, t),
            Some(bucket) => visit_bucket(svs, bucket, bucket.len() as int, v, t),
        };
        match bucket_lookup(bs, c.meta.len) {
            None => {},
            Some(bucket) => {
                lemma_bucket_lookup_from(bs, c.meta.len, evs);
                lemma_visit_bucket_base_from(svs, bucket, bucket.len() as int, v, t, evs);
            },
        }
        let t1 = stepped.1;
        match sample_for(svs, c.path) {
            None => {},
            Some(s) => {
                if table_has(t1, fingerprint_of(s)) {
                    lemma_add_compare_base_from(t1, fingerprint_of(s), c.path, evs);
                }
            },
        }
    }
}

proof fn lemma_bucket_lookup_from(
    bs: Seq<(u64, Seq<Seq<char>>)>,
    l: u64,
    evs: Seq<EntryView>,
)
    requires
        buckets_from(bs, evs),
    ensures
        match bucket_lookup(bs, l) {
            None => true,
            Some(bucket) => paths_in(bucket, evs),
        },
    decreases bs.len(),
{
    if bs.len() > 0 && bs.first().0 != l {
        assert(forall|k: int|
            0 <= k < bs.drop_first().len() ==> bs.drop_first()[k] == bs[k + 1]);
        assert forall|k: int| 0 <= k < bs.drop_first().len() implies paths_in(
            #[trigger] bs.drop_first()[k].1,
            evs,
        ) by {
            assert(bs.drop_first()[k].1 == bs[k + 1].1);
            assert(paths_in(bs[k + 1].1, evs));
        }
        lemma_bucket_lookup_from(bs.drop_first(), l, evs);
    }
}

/// Every base file of every reported conflict entry really is a path of
/// the base listing: the base side of a conflict is never invented and
/// never drawn from the compare side.
pub proof fn lemma_base_files_are_base_paths(
    bvs: Seq<EntryView>,
    cvs: Seq<EntryView>,
    svs: Seq<SampleView>,
    k: int,
    w: int,
)
    requires
        0 <= k < cross_conflicts(bvs, cvs, svs).len(),
        0 <= w < cross_conflicts(bvs, cvs, svs)[k].1.base_files.len(),
    ensures
        has_path(bvs, cross_conflicts(bvs, cvs, svs)[k].1.base_files[w]),
{
    let diff = diff_entries(cvs, bvs);
    let t = cross_state(svs, base_buckets(bvs), diff, diff.len() as int, Map::empty()).1;
    lemma_base_buckets_from(bvs);
    lemma_cross_state_base_from(svs, base_buckets(bvs), diff, diff.len() as int, Map::empty(), bvs);
    lemma_retained_sub(t, t.len() as int);
    let k0 = choose|k0: int| 0 <= k0 < t.len() && cross_conflicts(bvs, cvs, svs)[k] == t[k0];
    assert(paths_in(t[k0].1.base_files, bvs));
    assert(has_path(bvs, t[k0].1.base_files[w]));
}

/// Every reported conflict entry really holds a duplicate: at least one
/// compare file joined it.
pub proof fn lemma_conflicts_nonempty(
    bvs: Seq<EntryView>,
    cvs: Seq<EntryView>,
    svs: Seq<SampleView>,
    k: int,
)
    requires
        0 <= k < cross_conflicts(bvs, cvs, svs).len(),
    ensures
        cross_conflicts(bvs, cvs, svs)[k].1.compare_files.len() >= 1,
{
    let t = cross_conflicts_table(bvs, cvs, svs);
    lemma_retained_nonempty(t, t.len() as int);
}

proof fn lemma_retained_nonempty(t: Seq<(FingerprintView, ConflictView)>, n: int)
    requires
        0 <= n <= t.len(),
    ensures
        forall|k: int|
            0 <= k < retained_upto(t, n).len() ==> #[trigger] retained_upto(
                t,
                n,
            )[k].1.compare_files.len() >= 1,
    decreases n,
{
    if n > 0 {
        lemma_retained_nonempty(t, n - 1);
        assert forall|k: int| 0 <= k < retained_upto(t, n).len() implies #[trigger]
        retained_upto(t, n)[k].1.compare_files.len() >= 1 by {
            if k < retained_upto(t, n - 1).len() {
                assert(retained_upto(t, n)[k] == retained_upto(t, n - 1)[k]);
            } else {
                assert(retained_upto(t, n)[k] == t[n - 1]);
            }
        }
    }
}

/// Cross-tree report/force parity: whenever every reported compare file
/// of an entry has the byte length that the cache records for the entry's
/// first compare file — which byte-identical duplicates always do — the
/// duplicate count and size total of the report equal the number of paths
/// a forced run removes and the bytes it reclaims.
pub proof fn lemma_conflict_report_matches_removal(
    m: Map<Seq<char>, Meta>,
    tvs: Seq<(FingerprintView, ConflictView)>,
)
    requires
        forall|k: int, j: int|
            0 <= k < tvs.len() && 0 <= j < tvs[k].1.compare_files.len()
                ==> crate::single::cached_len(m, #[trigger] tvs[k].1.compare_files[j])
                == first_compare_len(m, tvs[k]),
    ensures
        conflict_count_upto(tvs, tvs.len() as int) == compare_removal(tvs).len(),
        conflict_size_upto(m, tvs, tvs.len() as int) == crate::single::size_upto(
            m,
            compare_removal(tvs),
            compare_removal(tvs).len() as int,
        ),
{
    lemma_conflict_parity_upto(m, tvs, tvs.len() as int);
}

proof fn lemma_conflict_parity_upto(
    m: Map<Seq<char>, Meta>,
    tvs: Seq<(FingerprintView, ConflictView)>,
    n: int,
)
    requires
        0 <= n <= tvs.len(),
        forall|k: int, j: int|
            0 <= k < tvs.len() && 0 <= j < tvs[k].1.compare_files.len()
                ==> crate::single::cached_len(m, #[trigger] tvs[k].1.compare_files[j])
                == first_compare_len(m, tvs[k]),
    ensures
        conflict_count_upto(tvs, n) == compare_paths_upto(tvs, n).len(),
        conflict_size_upto(m, tvs, n) == crate::single::size_upto(
            m,
            compare_paths_upto(tvs, n),
            compare_paths_upto(tvs, n).len() as int,
        ),
    decreases n,
{
    if n > 0 {
        lemma_conflict_parity_upto(m, tvs, n - 1);
        let cf = tvs[n - 1].1.compare_files;
        crate::single::lemma_size_concat(m, compare_paths_upto(tvs, n - 1), cf);
        assert forall|j: int| 0 <= j < cf.len() implies crate::single::cached_len(
            m,
            #[trigger] cf[j],
        ) == first_compare_len(m, tvs[n - 1]) by {
            assert(crate::single::cached_len(m, tvs[n - 1].1.compare_files[j])
                == first_compare_len(m, tvs[n - 1]));
        }
        crate::single::lemma_size_const(m, cf, first_compare_len(m, tvs[n - 1]), cf.len() as int);
    }
}

/// Whether some entry records this byte length.
pub open spec fn has_len(s: Seq<EntryView>, l: u64) -> bool {
    exists|i: int| 0 <= i < s.len() && #[trigger] s[i].meta.len == l
}

/// The base paths among the first `n` whose byte length some compare
/// entry shares: only they can possibly be matched, so only they are
/// worth reading.
pub open spec fn base_targets_upto(bvs: Seq<EntryView>, cvs: Seq<EntryView>, n: int) -> Seq<
    Seq<char>,
>
    decreases n,
{
    if n <= 0 {
        Seq::empty()
    } else {
        base_targets_upto(bvs, cvs, n - 1) + if has_len(cvs, bvs[n - 1].meta.len) {
            seq![bvs[n - 1].path]
        } else {
            Seq::empty()
        }
    }
}

/// Every path whose contents a cross-tree run may need: the base files
/// sharing a byte length with some compare file, then every compare file.
pub open spec fn sample_targets_of(bvs: Seq<EntryView>, cvs: Seq<EntryView>) -> Seq<Seq<char>> {
    base_targets_upto(bvs, cvs, bvs.len() as int) + cvs.map_values(|e: EntryView| e.path)
}

/// Whether any of the entries records this byte length.
fn len_in_entries(entries: &Vec<ScanEntry>, l: u64) -> (r: bool)
    ensures
        r == has_len(entry_views(entries@), l),
{
    let n: usize = entries.len();
    let mut i: usize = 0;
    while i < n
        invariant
            i <= n,
            n == entry_views(entries@).len(),
            forall|j: int| 0 <= j < i ==> entry_views(entries@)[j].meta.len != l,
        decreases n - i,
    {
        if entries[i].meta.len == l {
            proof {
                assert(entry_views(entries@)[i as int].meta.len == l);
            }
            return true;
        }
        proof {
            assert(entry_views(entries@)[i as int].meta.len != l);
        }
        i = i + 1;
    }
    false
}

/// The paths a cross-tree run may need to read: base files whose byte
/// length some compare file shares, then every compare file.
pub fn sample_targets(base: &Vec<ScanEntry>, compare: &Vec<ScanEntry>) -> (r: Vec<String>)
    ensures
        string_views(r@) == sample_targets_of(entry_views(base@), entry_views(compare@)),
{
    let ghost bvs = entry_views(base@);
    let ghost cvs = entry_views(compare@);
    let nb: usize = base.len();
    let mut r: Vec<String> = Vec::new();
    let mut i: usize = 0;
    while i < nb
        invariant
            i <= nb,
            nb == bvs.len(),
            bvs == entry_views(base@),
            cvs == entry_views(compare@),
            string_views(r@) =~= base_targets_upto(bvs, cvs, i as int),
        decreases nb - i,
    {
        let ghost old_r = r@;
        if len_in_entries(compare, base[i].meta.len) {
            r.push(base[i].path.clone());
            proof {
                crate::text::lemma_string_views_push(old_r, r@.last());
                assert(string_views(r@) =~= base_targets_upto(bvs, cvs, i as int + 1));
            }
        }
        i = i + 1;
    }
    let nc: usize = compare.len();
    let mut j: usize = 0;
    while j < nc
        invariant
            j <= nc,
            nc == cvs.len(),
            bvs == entry_views(base@),
            cvs == entry_views(compare@),
            string_views(r@) =~= base_targets_upto(bvs, cvs, bvs.len() as int)
                + cvs.map_values(|e: EntryView| e.path).subrange(0, j as int),
        decreases nc - j,
    {
        let ghost old_r = r@;
        r.push(compare[j].path.clone());
        proof {
            crate::text::lemma_string_views_push(old_r, r@.last());
            assert(string_views(r@) =~= base_targets_upto(bvs, cvs, bvs.len() as int)
                + cvs.map_values(|e: EntryView| e.path).subrange(0, j as int + 1));
        }
        j = j + 1;
    }
    proof {
        assert(cvs.map_values(|e: EntryView| e.path).subrange(0, nc as int) =~= cvs.map_values(
            |e: EntryView| e.path,
        ));
        assert(string_views(r@) =~= sample_targets_of(bvs, cvs));
    }
    r
}

/// Append the file-name line of each path.
fn push_name_lines(lines: &mut Vec<String>, paths: &Vec<String>)
    ensures
        string_views(final(lines)@) =~= string_views(old(lines)@) + name_lines_upto(
            string_views(paths@),
            paths@.len() as int,
        ),
{
    let np: usize = paths.len();
    let mut j: usize = 0;
    while j < np
        invariant
            j <= np,
            np == paths@.len(),
            string_views(lines@) =~= string_views(old(lines)@) + name_lines_upto(
                string_views(paths@),
                j as int,
            ),
        decreases np - j,
    {
        let nm = match crate::text::file_name_str(paths[j].as_str()) {
            Some(nm) => nm,
            None => String::new(),
        };
        proof {
            assert(nm@ == name_of(string_views(paths@)[j as int]));
        }
        let ghost old_lines = lines@;
        lines.push(nm);
        proof {
            crate::text::lemma_string_views_push(old_lines, lines@.last());
            assert(string_views(lines@) =~= string_views(old(lines)@) + name_lines_upto(
                string_views(paths@),
                j as int + 1,
            ));
        }
        j = j + 1;
    }
}

} // verus!
