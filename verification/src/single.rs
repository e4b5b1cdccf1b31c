//! The single-tree pipeline: bucket scanned files by byte length, fingerprint
//! only the members of buckets that hold at least two files, group equal
//! fingerprints, order each group by the retention policy, and account for
//! what a removal would reclaim.
//!
//! The caller walks the tree and reads file contents; this module takes the
//! resulting scan records and content samples and performs every decision.

use vstd::prelude::*;

use crate::fingerprint::ContentSample;
use crate::fingerprint::Fingerprint;
use crate::fingerprint::FingerprintView;
use crate::fingerprint::SampleView;
use crate::fingerprint::fingerprint_of;
use crate::text::string_views;
use crate::config::SortOrder;
use crate::meta::Meta;
use crate::meta::Metacache;
use crate::rank::PathRanker;

verus! {

/// What a directory scan yields for one file: its path and its metadata.
pub struct ScanEntry {
    /// The scanned path.
    pub path: String,
    /// The file's metadata, captured once at scan time.
    pub meta: Meta,
}

/// The mathematical content of a scan entry.
pub ghost struct EntryView {
    /// The scanned path.
    pub path: Seq<char>,
    /// The file's metadata.
    pub meta: Meta,
}

impl View for ScanEntry {
    type V = EntryView;

    open spec fn view(&self) -> EntryView {
        EntryView { path: self.path@, meta: self.meta }
    }
}

/// The views of a list of scan entries.
pub open spec fn entry_views(v: Seq<ScanEntry>) -> Seq<EntryView> {
    v.map_values(|e: ScanEntry| e@)
}

/// The views of a list of content samples.
pub open spec fn sample_views(v: Seq<ContentSample>) -> Seq<SampleView> {
    v.map_values(|s: ContentSample| s@)
}

/// How many of the entries record exactly this byte length.
pub open spec fn count_with_len(s: Seq<EntryView>, l: u64) -> int
    decreases s.len(),
{
    if s.len() == 0 {
        0
    } else {
        count_with_len(s.drop_last(), l) + if s.last().meta.len == l {
            1int
        } else {
            0int
        }
    }
}

/// The cache contents after recording the first `n` entries in order,
/// later entries winning.
pub open spec fn cache_after(m: Map<Seq<char>, Meta>, s: Seq<EntryView>, n: int) -> Map<
    Seq<char>,
    Meta,
>
    decreases n,
{
    if n <= 0 {
        m
    } else {
        cache_after(m, s, n - 1).insert(s[n - 1].path, s[n - 1].meta)
    }
}

/// The paths of the first `n` entries whose byte length is shared with at
/// least one other entry, in scan order.
pub open spec fn dup_len_paths_upto(s: Seq<EntryView>, n: int) -> Seq<Seq<char>>
    decreases n,
{
    if n <= 0 {
        Seq::empty()
    } else {
        dup_len_paths_upto(s, n - 1) + if count_with_len(s, s[n - 1].meta.len) >= 2 {
            seq![s[n - 1].path]
        } else {
            Seq::empty()
        }
    }
}

/// The fingerprinting candidates of a scan: every path whose byte length
/// is shared with at least one other scanned file.
pub open spec fn dup_len_paths(s: Seq<EntryView>) -> Seq<Seq<char>> {
    dup_len_paths_upto(s, s.len() as int)
}

/// How many of the given entries record this byte length.
fn count_len_exec(entries: &Vec<ScanEntry>, l: u64) -> (r: usize)
    ensures
        r == count_with_len(entry_views(entries@), l),
{
    let n: usize = entries.len();
    let mut count: usize = 0;
    let mut i: usize = 0;
    while i < n
        invariant
            i <= n,
            n == entry_views(entries@).len(),
            count <= i,
            count == count_with_len(entry_views(entries@).subrange(0, i as int), l),
        decreases n - i,
    {
        proof {
            assert(entry_views(entries@).subrange(0, i as int + 1).drop_last() =~= entry_views(
                entries@,
            ).subrange(0, i as int));
            assert(entry_views(entries@).subrange(0, i as int + 1).last() == entry_views(
                entries@,
            )[i as int]);
        }
        if entries[i].meta.len == l {
            count = count + 1;
        }
        i = i + 1;
    }
    proof {
        assert(entry_views(entries@).subrange(0, n as int) =~= entry_views(entries@));
    }
    count
}

/// Record every scanned file in the metadata cache and keep the paths of
/// those whose byte length is shared with at least one other file: only
/// they can possibly be duplicates, so only they are fingerprinted.
pub fn build_conflicts_by_length(entries: &Vec<ScanEntry>, cache: &mut Metacache) -> (r: Vec<
    String,
>)
    requires
        old(cache).wf(),
    ensures
        final(cache).wf(),
        final(cache)@ == cache_after(
            old(cache)@,
            entry_views(entries@),
            entries@.len() as int,
        ),
        string_views(r@) == dup_len_paths(entry_views(entries@)),
{
    let n: usize = entries.len();
    let ghost evs = entry_views(entries@);

    let mut i: usize = 0;
    while i < n
        invariant
            i <= n,
            n == evs.len(),
            evs == entry_views(entries@),
            cache.wf(),
            cache@ == cache_after(old(cache)@, evs, i as int),
        decreases n - i,
    {
        cache.insert(entries[i].path.clone(), entries[i].meta);
        i = i + 1;
    }

    let mut r: Vec<String> = Vec::new();
    let mut j: usize = 0;
    while j < n
        invariant
            j <= n,
            n == evs.len(),
            evs == entry_views(entries@),
            string_views(r@) =~= dup_len_paths_upto(evs, j as int),
        decreases n - j,
    {
        let ghost old_r = string_views(r@);
        let c = count_len_exec(entries, entries[j].meta.len);
        if c >= 2 {
            r.push(entries[j].path.clone());
            proof {
                assert(string_views(r@) =~= old_r + seq![evs[j as int].path]);
            }
        }
        j = j + 1;
    }
    r
}

/// One grouping step: append the path to the first group keyed by this
/// fingerprint, or open a new group at the end.
pub open spec fn add_group(
    gs: Seq<(FingerprintView, Seq<Seq<char>>)>,
    fp: FingerprintView,
    p: Seq<char>,
) -> Seq<(FingerprintView, Seq<Seq<char>>)>
    decreases gs.len(),
{
    if gs.len() == 0 {
        seq![(fp, seq![p])]
    } else if gs.first().0 == fp {
        seq![(gs.first().0, gs.first().1.push(p))] + gs.drop_first()
    } else {
        seq![gs.first()] + add_group(gs.drop_first(), fp, p)
    }
}

/// The groups formed by the first `n` samples, keyed by fingerprint, in
/// order of first appearance, members in sample order.
pub open spec fn groups_upto(svs: Seq<SampleView>, n: int) -> Seq<
    (FingerprintView, Seq<Seq<char>>),
>
    decreases n,
{
    if n <= 0 {
        Seq::empty()
    } else {
        add_group(groups_upto(svs, n - 1), fingerprint_of(svs[n - 1]), svs[n - 1].path)
    }
}

/// Of the first `n` groups, those with at least two members: only they
/// hold duplicates.
pub open spec fn big_groups_upto(
    gs: Seq<(FingerprintView, Seq<Seq<char>>)>,
    n: int,
) -> Seq<(FingerprintView, Seq<Seq<char>>)>
    decreases n,
{
    if n <= 0 {
        Seq::empty()
    } else {
        big_groups_upto(gs, n - 1) + if gs[n - 1].1.len() >= 2 {
            seq![gs[n - 1]]
        } else {
            Seq::empty()
        }
    }
}

/// The duplicate groups of a list of samples: group every sample by its
/// fingerprint, in order of first appearance, and keep the groups with at
/// least two members.
pub open spec fn conflict_groups(svs: Seq<SampleView>) -> Seq<
    (FingerprintView, Seq<Seq<char>>),
> {
    let gs = groups_upto(svs, svs.len() as int);
    big_groups_upto(gs, gs.len() as int)
}

/// No two groups share a fingerprint.
pub open spec fn distinct_group_keys(gs: Seq<(FingerprintView, Seq<Seq<char>>)>) -> bool {
    forall|k1: int, k2: int| 0 <= k1 < k2 < gs.len() ==> gs[k1].0 != gs[k2].0
}

proof fn lemma_add_group_new(
    gs: Seq<(FingerprintView, Seq<Seq<char>>)>,
    fp: FingerprintView,
    p: Seq<char>,
)
    requires
        forall|k: int| 0 <= k < gs.len() ==> gs[k].0 != fp,
    ensures
        add_group(gs, fp, p) =~~= gs + seq![(fp, seq![p])],
    decreases gs.len(),
{
    if gs.len() > 0 {
        assert(gs.first() == gs[0]);
        assert(forall|k: int| 0 <= k < gs.drop_last().len() ==> gs.drop_first()[k] == gs[k + 1]);
        lemma_add_group_new(gs.drop_first(), fp, p);
    }
}

proof fn lemma_add_group_existing(
    gs: Seq<(FingerprintView, Seq<Seq<char>>)>,
    fp: FingerprintView,
    p: Seq<char>,
    k: int,
)
    requires
        0 <= k < gs.len(),
        gs[k].0 == fp,
        forall|k2: int| 0 <= k2 < k ==> gs[k2].0 != fp,
    ensures
        add_group(gs, fp, p) =~~= gs.update(k, (fp, gs[k].1.push(p))),
    decreases gs.len(),
{
    if k == 0 {
        assert(gs.first().0 == fp);
    } else {
        assert(gs.first().0 != fp);
        assert(forall|k2: int|
            0 <= k2 < gs.drop_first().len() ==> gs.drop_first()[k2] == gs[k2 + 1]);
        lemma_add_group_existing(gs.drop_first(), fp, p, k - 1);
        assert(add_group(gs, fp, p) =~~= seq![gs.first()] + gs.drop_first().update(
            k - 1,
            (fp, gs[k].1.push(p)),
        ));
    }
}

/// Find the group keyed by this fingerprint, if one exists.
fn find_group(groups: &Vec<(Fingerprint, Vec<String>)>, fp: &Fingerprint) -> (r: Option<usize>)
    ensures
        match r {
            Some(k) => k < groups@.len() && group_views(groups@)[k as int].0 == fp@ && forall|
                k2: int,
            |
                0 <= k2 < k ==> group_views(groups@)[k2].0 != fp@,
            None => forall|k2: int|
                0 <= k2 < groups@.len() ==> group_views(groups@)[k2].0 != fp@,
        },
{
    let n: usize = groups.len();
    let mut k: usize = 0;
    while k < n
        invariant
            k <= n,
            n == group_views(groups@).len(),
            forall|k2: int| 0 <= k2 < k ==> group_views(groups@)[k2].0 != fp@,
        decreases n - k,
    {
        if *fp == groups[k].0 {
            proof {
                assert(group_views(groups@)[k as int].0 == fp@);
            }
            return Some(k);
        }
        proof {
            assert(group_views(groups@)[k as int].0 != fp@);
        }
        k = k + 1;
    }
    None
}

/// The views of a list of fingerprint groups.
pub open spec fn group_views(v: Seq<(Fingerprint, Vec<String>)>) -> Seq<
    (FingerprintView, Seq<Seq<char>>),
> {
    v.map_values(|g: (Fingerprint, Vec<String>)| (g.0@, string_views(g.1@)))
}

/// Group the samples by fingerprint and keep the groups with at least two
/// members: the duplicate groups of a single tree.  Every member of a
/// group carries the group's fingerprint, so members always agree on byte
/// length.
pub fn build_conflicts_by_imprint(samples: &Vec<ContentSample>) -> (r: Vec<
    (Fingerprint, Vec<String>),
>)
    ensures
        group_views(r@) == conflict_groups(sample_views(samples@)),
{
    let n: usize = samples.len();
    let ghost svs = sample_views(samples@);
    let mut groups: Vec<(Fingerprint, Vec<String>)> = Vec::new();
    let mut i: usize = 0;
    while i < n
        invariant
            i <= n,
            n == svs.len(),
            svs == sample_views(samples@),
            group_views(groups@) =~~= groups_upto(svs, i as int),
            distinct_group_keys(group_views(groups@)),
        decreases n - i,
    {
        let fp = Fingerprint::from_sample(&samples[i]);
        let ghost gvs = group_views(groups@);
        match find_group(&groups, &fp) {
            Some(k) => {
                let (gfp, mut members) = groups.remove(k);
                members.push(samples[i].path.clone());
                groups.insert(k, (gfp, members));
                proof {
                    lemma_add_group_existing(gvs, fp@, svs[i as int].path, k as int);
                    assert(group_views(groups@) =~~= gvs.update(
                        k as int,
                        (fp@, gvs[k as int].1.push(svs[i as int].path)),
                    ));
                }
            },
            None => {
                let mut members: Vec<String> = Vec::new();
                members.push(samples[i].path.clone());
                groups.push((fp, members));
                proof {
                    lemma_add_group_new(gvs, fp@, svs[i as int].path);
                    assert(group_views(groups@) =~~= gvs + seq![
                        (fp@, seq![svs[i as int].path]),
                    ]);
                }
            },
        }
        i = i + 1;
    }

    let ghost gvs = group_views(groups@);
    let ng: usize = groups.len();
    let mut out: Vec<(Fingerprint, Vec<String>)> = Vec::new();
    let mut j: usize = 0;
    while j < ng
        invariant
            j <= ng,
            ng == gvs.len(),
            groups@.len() == ng - j,
            group_views(groups@) =~~= gvs.subrange(j as int, ng as int),
            group_views(out@) =~~= big_groups_upto(gvs, j as int),
        decreases ng - j,
    {
        let ghost old_out = group_views(out@);
        let ghost old_groups = groups@;
        let g = groups.remove(0);
        proof {
            assert(group_views(old_groups) == gvs.subrange(j as int, ng as int));
            assert((g.0@, string_views(g.1@)) == group_views(old_groups)[0]);
            assert(group_views(old_groups)[0] == gvs[j as int]);
            assert forall|t: int| 0 <= t < groups@.len() implies group_views(groups@)[t] == gvs[
                j + 1 + t
            ] by {
                assert(groups@[t] == old_groups[t + 1]);
                assert(group_views(old_groups)[t + 1] == gvs.subrange(j as int, ng as int)[t + 1]);
            }
            assert(group_views(groups@) =~~= gvs.subrange(j as int + 1, ng as int));
        }
        if g.1.len() >= 2 {
            out.push(g);
            proof {
                assert(group_views(out@) =~~= old_out + seq![gvs[j as int]]);
            }
        }
        j = j + 1;
    }
    proof {
        assert(group_views(out@) =~~= conflict_groups(svs));
    }
    out
}

/// Clone a list of owned strings.
pub(crate) fn clone_strings(v: &Vec<String>) -> (r: Vec<String>)
    ensures
        string_views(r@) == string_views(v@),
{
    let n: usize = v.len();
    let mut r: Vec<String> = Vec::new();
    let mut i: usize = 0;
    while i < n
        invariant
            i <= n,
            n == v@.len(),
            string_views(r@) =~= string_views(v@).subrange(0, i as int),
        decreases n - i,
    {
        let ghost old_rv = r@;
        r.push(v[i].clone());
        i = i + 1;
        proof {
            assert(r@ == old_rv.push(v@[i - 1]));
            assert(old_rv.len() == i - 1) by {
                assert(string_views(old_rv).len() == old_rv.len());
            }
            crate::text::lemma_string_views_push(old_rv, v@[i - 1]);
            assert(string_views(r@) =~= string_views(v@).subrange(0, i as int));
        }
    }
    proof {
        assert(string_views(v@).subrange(0, n as int) =~= string_views(v@));
    }
    r
}

/// Lexicographic order on retention keys: fewer components first, then
/// fewer words, then a marked name before an unmarked one.
pub open spec fn key_le(s1: int, w1: int, u1: bool, s2: int, w2: int, u2: bool) -> bool {
    ||| s1 < s2
    ||| (s1 == s2 && w1 < w2)
    ||| (s1 == s2 && w1 == w2 && (!u1 || u2))
}

/// Whether path `a` may stand before path `b` under descriptive ranking:
/// the greater retention key comes first.
pub open spec fn rank_before(dict: Seq<Seq<char>>, a: Seq<char>, b: Seq<char>) -> bool {
    key_le(
        crate::rank::segments_of(b),
        crate::rank::words_of(b, dict),
        crate::rank::is_unique_name(b),
        crate::rank::segments_of(a),
        crate::rank::words_of(a, dict),
        crate::rank::is_unique_name(a),
    )
}

/// The creation time that the cache records for a path, when it records
/// one at all.
pub open spec fn created_of(m: Map<Seq<char>, Meta>, p: Seq<char>) -> Option<u64> {
    if m.contains_key(p) {
        m[p].created
    } else {
        None
    }
}

/// Whether a timestamp may stand before another under the chosen policy:
/// newest-first or oldest-first among present timestamps, and files with
/// no timestamp sort after all files that have one.
pub open spec fn created_before(newest: bool, ca: Option<u64>, cb: Option<u64>) -> bool {
    match (ca, cb) {
        (Some(x), Some(y)) => if newest {
            x >= y
        } else {
            x <= y
        },
        (Some(x), None) => true,
        (None, Some(y)) => false,
        (None, None) => true,
    }
}

/// The retention policy in force for one run: rank paths by
/// descriptiveness, or order them by recorded creation time.
pub enum Sorter {
    /// Keep the most descriptively named member.
    Ranked(PathRanker),
    /// Keep the newest or the oldest member.
    ByCreated {
        /// Newest first when set; oldest first otherwise.
        newest: bool,
    },
}

/// The sorter that carries out a configured sort order.
pub fn get_sorter(sort: SortOrder) -> (r: Sorter)
    ensures
        match r {
            Sorter::Ranked(pr) => sort == SortOrder::Descriptive && pr@
                == crate::rank::dictionary_words(),
            Sorter::ByCreated { newest } => (newest && sort == SortOrder::Newest) || (!newest
                && sort == SortOrder::Oldest),
        },
{
    match sort {
        SortOrder::Descriptive => Sorter::Ranked(PathRanker::new()),
        SortOrder::Newest => Sorter::ByCreated { newest: true },
        SortOrder::Oldest => Sorter::ByCreated { newest: false },
    }
}

impl Sorter {
    /// Whether path `a` may stand before path `b` under this policy.
    pub open spec fn order(&self, m: Map<Seq<char>, Meta>, a: Seq<char>, b: Seq<char>) -> bool {
        match self {
            Sorter::Ranked(ranker) => rank_before(ranker@, a, b),
            Sorter::ByCreated { newest } => created_before(
                *newest,
                created_of(m, a),
                created_of(m, b),
            ),
        }
    }

    /// The order is total and transitive, so sorting under it is possible
    /// and its first element is least.
    proof fn lemma_order_laws(&self, m: Map<Seq<char>, Meta>)
        ensures
            forall|a: Seq<char>, b: Seq<char>| #[trigger]
                self.order(m, a, b) || #[trigger] self.order(m, b, a),
            forall|a: Seq<char>, b: Seq<char>, c: Seq<char>|
                #[trigger] self.order(m, a, b) && #[trigger] self.order(m, b, c) ==> self.order(
                    m,
                    a,
                    c,
                ),
    {
    }

    /// Decide whether path `a` may stand before path `b`.
    fn before(&self, cache: &Metacache, a: &String, b: &String) -> (r: bool)
        requires
            cache.wf(),
        ensures
            r == self.order(cache@, a@, b@),
    {
        match self {
            Sorter::Ranked(ranker) => {
                let ra = ranker.rank(a.as_str());
                let rb = ranker.rank(b.as_str());
                crate::rank::rank_le_exec(&rb, &ra)
            },
            Sorter::ByCreated { newest } => {
                let ca: Option<u64> = match cache.get(a.as_str()) {
                    Some(meta) => meta.created,
                    None => None,
                };
                let cb: Option<u64> = match cache.get(b.as_str()) {
                    Some(meta) => meta.created,
                    None => None,
                };
                match (ca, cb) {
                    (Some(x), Some(y)) => if *newest {
                        x >= y
                    } else {
                        x <= y
                    },
                    (Some(_), None) => true,
                    (None, Some(_)) => false,
                    (None, None) => true,
                }
            },
        }
    }

    /// Order the paths of one duplicate group so that the member to retain
    /// stands first.  The result holds the same paths, ordered by the
    /// policy; equal keys keep their relative order.
    pub fn sort(&self, cache: &Metacache, paths: &mut Vec<String>)
        requires
            cache.wf(),
        ensures
            final(paths)@.to_multiset() == old(paths)@.to_multiset(),
            forall|i: int, j: int|
                0 <= i < j < final(paths)@.len() ==> #[trigger] self.order(
                    cache@,
                    final(paths)@[i]@,
                    final(paths)@[j]@,
                ),
    {
        broadcast use vstd::seq_lib::group_to_multiset_ensures;

        proof {
            self.lemma_order_laws(cache@);
        }
        let mut out: Vec<String> = Vec::new();
        while paths.len() > 0
            invariant
                cache.wf(),
                out@.to_multiset().add(paths@.to_multiset()) == old(paths)@.to_multiset(),
                forall|i: int, j: int|
                    0 <= i < j < out@.len() ==> #[trigger] self.order(
                        cache@,
                        out@[i]@,
                        out@[j]@,
                    ),
                forall|i: int, j: int|
                    0 <= i < out@.len() && 0 <= j < paths@.len() ==> #[trigger] self.order(
                        cache@,
                        out@[i]@,
                        paths@[j]@,
                    ),
                forall|a: Seq<char>, b: Seq<char>| #[trigger]
                    self.order(cache@, a, b) || #[trigger] self.order(cache@, b, a),
                forall|a: Seq<char>, b: Seq<char>, c: Seq<char>|
                    #[trigger] self.order(cache@, a, b) && #[trigger] self.order(cache@, b, c)
                        ==> self.order(cache@, a, c),
            decreases paths@.len(),
        {
            let n: usize = paths.len();
            let mut best: usize = 0;
            let mut k: usize = 1;
            while k < n
                invariant
                    cache.wf(),
                    best < k <= n,
                    n == paths@.len(),
                    forall|t: int| 0 <= t < k ==> #[trigger] self.order(
                        cache@,
                        paths@[best as int]@,
                        paths@[t]@,
                    ),
                    forall|a: Seq<char>, b: Seq<char>| #[trigger]
                        self.order(cache@, a, b) || #[trigger] self.order(cache@, b, a),
                    forall|a: Seq<char>, b: Seq<char>, c: Seq<char>|
                        #[trigger] self.order(cache@, a, b) && #[trigger] self.order(
                            cache@,
                            b,
                            c,
                        ) ==> self.order(cache@, a, c),
                decreases n - k,
            {
                if !self.before(cache, &paths[best], &paths[k]) {
                    proof {
                        assert(self.order(cache@, paths@[k as int]@, paths@[best as int]@));
                        assert forall|t: int| 0 <= t < k + 1 implies self.order(
                            cache@,
                            paths@[k as int]@,
                            paths@[t]@,
                        ) by {
                            if t < k {
                                assert(self.order(cache@, paths@[best as int]@, paths@[t]@));
                            } else {
                                assert(self.order(cache@, paths@[k as int]@, paths@[k as int]@));
                            }
                        }
                    }
                    best = k;
                }
                k = k + 1;
            }
            let ghost old_paths = paths@;
            let x = paths.remove(best);
            let ghost old_out = out@;
            out.push(x);
            proof {
                broadcast use vstd::seq_lib::group_to_multiset_ensures;

                assert(out@ == old_out.push(old_paths[best as int]));
                assert(out@.to_multiset().add(paths@.to_multiset()) == old(
                    paths,
                )@.to_multiset()) by {
                    assert(old_out.to_multiset().add(old_paths.to_multiset()) == old(
                        paths,
                    )@.to_multiset());
                    assert(paths@ == old_paths.remove(best as int));
                    assert(old_paths.remove(best as int).to_multiset() == old_paths.to_multiset()
                        .remove(old_paths[best as int]));
                    assert(old_out.push(old_paths[best as int]).to_multiset()
                        == old_out.to_multiset().insert(old_paths[best as int]));
                    assert(old_paths.to_multiset().count(old_paths[best as int]) > 0);
                    assert(out@.to_multiset().add(paths@.to_multiset()) =~= old_out.to_multiset()
                        .add(old_paths.to_multiset()));
                }
                assert forall|j: int| 0 <= j < paths@.len() implies #[trigger] self.order(
                    cache@,
                    old_paths[best as int]@,
                    paths@[j]@,
                ) by {
                    if j < best {
                        assert(paths@[j] == old_paths[j]);
                    } else {
                        assert(paths@[j] == old_paths[j + 1]);
                    }
                }
            }
        }
        *paths = out;
    }
}

/// The members of a group that a forced run removes: everything but the
/// retained member at the front.
pub open spec fn tail_of(g: (FingerprintView, Seq<Seq<char>>)) -> Seq<Seq<char>> {
    if g.1.len() >= 1 {
        g.1.subrange(1, g.1.len() as int)
    } else {
        Seq::empty()
    }
}

/// The paths removed from the first `n` groups, in group order.
pub open spec fn removal_upto(gvs: Seq<(FingerprintView, Seq<Seq<char>>)>, n: int) -> Seq<
    Seq<char>,
>
    decreases n,
{
    if n <= 0 {
        Seq::empty()
    } else {
        removal_upto(gvs, n - 1) + tail_of(gvs[n - 1])
    }
}

/// Every path that a forced run over these groups removes.
pub open spec fn removal_paths(gvs: Seq<(FingerprintView, Seq<Seq<char>>)>) -> Seq<Seq<char>> {
    removal_upto(gvs, gvs.len() as int)
}

/// The byte length that the cache records for a path; zero when it
/// records none.
pub open spec fn cached_len(m: Map<Seq<char>, Meta>, p: Seq<char>) -> int {
    if m.contains_key(p) {
        m[p].len as int
    } else {
        0
    }
}

/// The cached byte lengths of the first `n` paths, added up.
pub open spec fn size_upto(m: Map<Seq<char>, Meta>, ps: Seq<Seq<char>>, n: int) -> int
    decreases n,
{
    if n <= 0 {
        0
    } else {
        size_upto(m, ps, n - 1) + cached_len(m, ps[n - 1])
    }
}

/// The bytes that a forced run over these groups reclaims.
pub open spec fn removal_size(
    m: Map<Seq<char>, Meta>,
    gvs: Seq<(FingerprintView, Seq<Seq<char>>)>,
) -> int {
    size_upto(m, removal_paths(gvs), removal_paths(gvs).len() as int)
}

proof fn lemma_size_upto_bounds(m: Map<Seq<char>, Meta>, ps: Seq<Seq<char>>, n1: int, n2: int)
    requires
        0 <= n1 <= n2,
    ensures
        size_upto(m, ps, n1) <= size_upto(m, ps, n2),
        0 <= size_upto(m, ps, n2),
    decreases n2,
{
    if n1 < n2 {
        lemma_size_upto_bounds(m, ps, n1, n2 - 1);
    } else if n2 > 0 {
        lemma_size_upto_bounds(m, ps, 0, n2 - 1);
    }
}

/// The byte length the cache records for this path, or zero.
pub(crate) fn cached_len_exec(cache: &Metacache, p: &String) -> (r: u64)
    requires
        cache.wf(),
    ensures
        r == cached_len(cache@, p@),
{
    match cache.get(p.as_str()) {
        Some(meta) => meta.len,
        None => 0,
    }
}

/// The removal plan of a run of groups: every member but the first of
/// each group, in order, together with the total bytes their removal
/// reclaims according to the cache.
pub fn removal_plan(groups: &Vec<(Fingerprint, Vec<String>)>, cache: &Metacache) -> (r: (
    Vec<String>,
    u64,
))
    requires
        cache.wf(),
        removal_size(cache@, group_views(groups@)) <= u64::MAX,
    ensures
        string_views(r.0@) == removal_paths(group_views(groups@)),
        r.1 == removal_size(cache@, group_views(groups@)),
{
    let ghost gvs = group_views(groups@);
    let ng: usize = groups.len();
    let mut plan: Vec<String> = Vec::new();
    let mut g: usize = 0;
    while g < ng
        invariant
            g <= ng,
            ng == gvs.len(),
            gvs == group_views(groups@),
            string_views(plan@) =~= removal_upto(gvs, g as int),
        decreases ng - g,
    {
        let members = &groups[g].1;
        let nm: usize = members.len();
        if nm >= 1 {
            proof {
                assert(gvs[g as int].1.subrange(1, 1) =~= Seq::<Seq<char>>::empty());
                assert(string_views(plan@) =~= removal_upto(gvs, g as int) + gvs[
                    g as int
                ].1.subrange(1, 1));
            }
            let mut j: usize = 1;
            while j < nm
                invariant
                    1 <= j <= nm,
                    nm == gvs[g as int].1.len(),
                    g < gvs.len(),
                    gvs == group_views(groups@),
                    ng == gvs.len(),
                    members == groups@[g as int].1,
                    string_views(plan@) =~= removal_upto(gvs, g as int) + gvs[
                        g as int
                    ].1.subrange(1, j as int),
                decreases nm - j,
            {
                let ghost old_plan = plan@;
                plan.push(members[j].clone());
                proof {
                    crate::text::lemma_string_views_push(
                        old_plan,
                        groups@[g as int].1[j as int],
                    );
                    assert(string_views(plan@) =~= removal_upto(gvs, g as int) + gvs[
                        g as int
                    ].1.subrange(1, j as int + 1));
                }
                j = j + 1;
            }
            proof {
                assert(gvs[g as int].1.subrange(1, nm as int) == tail_of(gvs[g as int]));
                assert(string_views(plan@) =~= removal_upto(gvs, g as int + 1));
            }
        } else {
            proof {
                assert(tail_of(gvs[g as int]) =~= Seq::<Seq<char>>::empty());
                assert(string_views(plan@) =~= removal_upto(gvs, g as int + 1));
            }
        }
        g = g + 1;
    }
    proof {
        assert(string_views(plan@) =~= removal_paths(gvs));
    }

    let size = sum_cached(cache, &plan);
    (plan, size)
}

/// Add up the byte lengths that the cache records for these paths.
pub(crate) fn sum_cached(cache: &Metacache, paths: &Vec<String>) -> (r: u64)
    requires
        cache.wf(),
        size_upto(cache@, string_views(paths@), paths@.len() as int) <= u64::MAX,
    ensures
        r == size_upto(cache@, string_views(paths@), paths@.len() as int),
{
    let ghost pv = string_views(paths@);
    let np: usize = paths.len();
    let mut size: u64 = 0;
    let mut i: usize = 0;
    while i < np
        invariant
            i <= np,
            np == pv.len(),
            pv == string_views(paths@),
            cache.wf(),
            size == size_upto(cache@, pv, i as int),
            size_upto(cache@, pv, np as int) <= u64::MAX,
        decreases np - i,
    {
        let l = cached_len_exec(cache, &paths[i]);
        proof {
            lemma_size_upto_bounds(cache@, pv, i as int + 1, np as int);
            lemma_size_upto_bounds(cache@, pv, 0, i as int);
        }
        size = size + l;
        i = i + 1;
    }
    size
}

/// How many duplicates the first `n` groups hold: every member but one
/// per group.
pub open spec fn report_count_upto(gvs: Seq<(FingerprintView, Seq<Seq<char>>)>, n: int) -> int
    decreases n,
{
    if n <= 0 {
        0
    } else {
        report_count_upto(gvs, n - 1) + (gvs[n - 1].1.len() - 1)
    }
}

/// The cached byte length of a group's first member; all members are
/// byte-identical, so it stands for every member.
pub open spec fn first_len(m: Map<Seq<char>, Meta>, g: (FingerprintView, Seq<Seq<char>>)) -> int {
    if g.1.len() >= 1 {
        cached_len(m, g.1[0])
    } else {
        0
    }
}

/// The bytes that the first `n` groups would reclaim, as the report
/// counts them: duplicates per group times the retained member's length.
pub open spec fn report_size_upto(
    m: Map<Seq<char>, Meta>,
    gvs: Seq<(FingerprintView, Seq<Seq<char>>)>,
    n: int,
) -> int
    decreases n,
{
    if n <= 0 {
        0
    } else {
        report_size_upto(m, gvs, n - 1) + (gvs[n - 1].1.len() - 1) * first_len(m, gvs[n - 1])
    }
}

proof fn lemma_report_bounds(
    m: Map<Seq<char>, Meta>,
    gvs: Seq<(FingerprintView, Seq<Seq<char>>)>,
    n1: int,
    n2: int,
)
    requires
        0 <= n1 <= n2 <= gvs.len(),
        forall|k: int| 0 <= k < gvs.len() ==> #[trigger] gvs[k].1.len() >= 1,
    ensures
        report_count_upto(gvs, n1) <= report_count_upto(gvs, n2),
        0 <= report_count_upto(gvs, n2),
        report_size_upto(m, gvs, n1) <= report_size_upto(m, gvs, n2),
        0 <= report_size_upto(m, gvs, n2),
    decreases n2,
{
    if n1 < n2 {
        lemma_report_bounds(m, gvs, n1, n2 - 1);
        assert((gvs[n2 - 1].1.len() - 1) * first_len(m, gvs[n2 - 1]) >= 0) by (nonlinear_arith)
            requires
                gvs[n2 - 1].1.len() >= 1,
                first_len(m, gvs[n2 - 1]) >= 0,
        ;
    } else if n2 > 0 {
        lemma_report_bounds(m, gvs, 0, n2 - 1);
        assert((gvs[n2 - 1].1.len() - 1) * first_len(m, gvs[n2 - 1]) >= 0) by (nonlinear_arith)
            requires
                gvs[n2 - 1].1.len() >= 1,
                first_len(m, gvs[n2 - 1]) >= 0,
        ;
    }
}

/// The duplicate count and reclaimed-size total that report mode prints:
/// per group, every member but one counts, at the retained member's
/// recorded byte length.
pub fn report_stats(groups: &Vec<(Fingerprint, Vec<String>)>, cache: &Metacache) -> (r: (
    usize,
    u64,
))
    requires
        cache.wf(),
        forall|k: int| 0 <= k < group_views(groups@).len() ==> #[trigger] group_views(
            groups@,
        )[k].1.len() >= 1,
        report_count_upto(group_views(groups@), groups@.len() as int) <= usize::MAX,
        report_size_upto(cache@, group_views(groups@), groups@.len() as int) <= u64::MAX,
    ensures
        r.0 == report_count_upto(group_views(groups@), groups@.len() as int),
        r.1 == report_size_upto(cache@, group_views(groups@), groups@.len() as int),
{
    let ghost gvs = group_views(groups@);
    let ng: usize = groups.len();
    let mut count: usize = 0;
    let mut size: u64 = 0;
    let mut g: usize = 0;
    while g < ng
        invariant
            g <= ng,
            ng == gvs.len(),
            gvs == group_views(groups@),
            cache.wf(),
            forall|k: int| 0 <= k < gvs.len() ==> #[trigger] gvs[k].1.len() >= 1,
            count == report_count_upto(gvs, g as int),
            size == report_size_upto(cache@, gvs, g as int),
            report_count_upto(gvs, ng as int) <= usize::MAX,
            report_size_upto(cache@, gvs, ng as int) <= u64::MAX,
        decreases ng - g,
    {
        let members = &groups[g].1;
        let nm: usize = members.len();
        proof {
            assert(gvs[g as int].1.len() >= 1);
            lemma_report_bounds(cache@, gvs, g as int + 1, ng as int);
            lemma_report_bounds(cache@, gvs, 0, g as int);
        }
        let dups = nm - 1;
        let flen: u64 = if nm >= 1 {
            cached_len_exec(cache, &members[0])
        } else {
            0
        };
        proof {
            assert(flen == first_len(cache@, gvs[g as int]));
            assert(report_size_upto(cache@, gvs, g as int) + (dups as int) * (flen as int)
                <= report_size_upto(cache@, gvs, ng as int));
            assert((dups as int) * (flen as int) >= 0) by (nonlinear_arith)
                requires
                    dups >= 0,
                    flen >= 0,
            ;
        }
        count = count + dups;
        let add: u64 = (dups as u64) * flen;
        size = size + add;
        g = g + 1;
    }
    (count, size)
}

/// The separator printed under each group's fingerprint.
pub open spec fn separator_line() -> Seq<char> {
    "================================================================"@
}

/// The printed block of one duplicate group: its fingerprint in
/// hexadecimal, a separator, every member path, and a blank line.
pub open spec fn group_lines(g: (FingerprintView, Seq<Seq<char>>)) -> Seq<Seq<char>> {
    seq![crate::format::hex_of(g.0.head), separator_line()] + g.1 + seq![Seq::<char>::empty()]
}

/// The printed blocks of the first `n` groups.
pub open spec fn lines_upto(gvs: Seq<(FingerprintView, Seq<Seq<char>>)>, n: int) -> Seq<
    Seq<char>,
>
    decreases n,
{
    if n <= 0 {
        Seq::empty()
    } else {
        lines_upto(gvs, n - 1) + group_lines(gvs[n - 1])
    }
}

/// The closing summary: the duplicate count and the human-readable total
/// of reclaimable bytes.
pub open spec fn summary_line(count: int, size: u64) -> Seq<char> {
    crate::text::dec_digits(count as nat) + " duplicates ("@ + crate::format::human_size_of(size)
        + ")"@
}

/// Every line of the report: one block per group, then the summary.
pub open spec fn report_lines(
    m: Map<Seq<char>, Meta>,
    gvs: Seq<(FingerprintView, Seq<Seq<char>>)>,
) -> Seq<Seq<char>> {
    lines_upto(gvs, gvs.len() as int) + seq![
        summary_line(
            report_count_upto(gvs, gvs.len() as int),
            report_size_upto(m, gvs, gvs.len() as int) as u64,
        ),
    ]
}

/// Render the report that a dry run prints: one block per duplicate
/// group, then the count of duplicates and the size their removal would
/// reclaim.
pub fn render_report(groups: &Vec<(Fingerprint, Vec<String>)>, cache: &Metacache) -> (r: Vec<
    String,
>)
    requires
        cache.wf(),
        forall|k: int| 0 <= k < group_views(groups@).len() ==> #[trigger] group_views(
            groups@,
        )[k].1.len() >= 1,
        report_count_upto(group_views(groups@), groups@.len() as int) <= usize::MAX,
        report_size_upto(cache@, group_views(groups@), groups@.len() as int) <= u64::MAX,
    ensures
        string_views(r@) == report_lines(cache@, group_views(groups@)),
{
    let ghost gvs = group_views(groups@);
    let ng: usize = groups.len();
    let mut lines: Vec<String> = Vec::new();
    let mut g: usize = 0;
    while g < ng
        invariant
            g <= ng,
            ng == gvs.len(),
            gvs == group_views(groups@),
            string_views(lines@) =~= lines_upto(gvs, g as int),
        decreases ng - g,
    {
        let ghost before_group = string_views(lines@);
        let ghost old_lines = lines@;
        let hex = groups[g].0.to_hex_string();
        lines.push(hex);
        proof {
            crate::text::lemma_string_views_push(old_lines, lines@.last());
        }
        let ghost old_lines = lines@;
        lines.push("================================================================".to_owned());
        proof {
            crate::text::lemma_string_views_push(old_lines, lines@.last());
        }
        let members = &groups[g].1;
        let nm: usize = members.len();
        let mut j: usize = 0;
        while j < nm
            invariant
                j <= nm,
                nm == gvs[g as int].1.len(),
                g < gvs.len(),
                gvs == group_views(groups@),
                members == groups@[g as int].1,
                string_views(lines@) =~= before_group + seq![
                    crate::format::hex_of(gvs[g as int].0.head),
                    separator_line(),
                ] + gvs[g as int].1.subrange(0, j as int),
            decreases nm - j,
        {
            let ghost old_lines = lines@;
            lines.push(members[j].clone());
            proof {
                crate::text::lemma_string_views_push(old_lines, groups@[g as int].1[j as int]);
                assert(string_views(lines@) =~= before_group + seq![
                    crate::format::hex_of(gvs[g as int].0.head),
                    separator_line(),
                ] + gvs[g as int].1.subrange(0, j as int + 1));
            }
            j = j + 1;
        }
        let ghost old_lines = lines@;
        lines.push(String::new());
        proof {
            crate::text::lemma_string_views_push(old_lines, lines@.last());
            assert(gvs[g as int].1.subrange(0, nm as int) == gvs[g as int].1);
            assert(string_views(lines@) =~= lines_upto(gvs, g as int + 1));
        }
        g = g + 1;
    }

    let stats = report_stats(groups, cache);
    let mut line = crate::text::u64_to_string(stats.0 as u64);
    line.append(" duplicates (");
    let human = crate::format::human_size(stats.1);
    line.append(human.as_str());
    line.append(")");
    proof {
        assert(line@ == summary_line(
            report_count_upto(gvs, ng as int),
            report_size_upto(cache@, gvs, ng as int) as u64,
        ));
    }
    let ghost old_lines = lines@;
    lines.push(line);
    proof {
        crate::text::lemma_string_views_push(old_lines, lines@.last());
        assert(string_views(lines@) =~= report_lines(cache@, gvs));
    }
    lines
}

/// Every reported duplicate group really is one: it holds at least two
/// members.
pub proof fn lemma_conflict_groups_min_size(svs: Seq<SampleView>, k: int)
    requires
        0 <= k < conflict_groups(svs).len(),
    ensures
        conflict_groups(svs)[k].1.len() >= 2,
{
    let gs = groups_upto(svs, svs.len() as int);
    lemma_big_groups_min_size(gs, gs.len() as int);
}

proof fn lemma_big_groups_min_size(gs: Seq<(FingerprintView, Seq<Seq<char>>)>, n: int)
    requires
        0 <= n <= gs.len(),
    ensures
        forall|k: int|
            0 <= k < big_groups_upto(gs, n).len() ==> #[trigger] big_groups_upto(
                gs,
                n,
            )[k].1.len() >= 2,
    decreases n,
{
    if n > 0 {
        lemma_big_groups_min_size(gs, n - 1);
        assert forall|k: int| 0 <= k < big_groups_upto(gs, n).len() implies #[trigger]
        big_groups_upto(gs, n)[k].1.len() >= 2 by {
            if k < big_groups_upto(gs, n - 1).len() {
                assert(big_groups_upto(gs, n)[k] == big_groups_upto(gs, n - 1)[k]);
            } else {
                assert(big_groups_upto(gs, n)[k] == gs[n - 1]);
            }
        }
    }
}

/// Every member of the group is the path of some sample whose fingerprint
/// is the group's key.
pub open spec fn group_ok(svs: Seq<SampleView>, g: (FingerprintView, Seq<Seq<char>>)) -> bool {
    forall|j: int|
        0 <= j < g.1.len() ==> exists|i: int|
            0 <= i < svs.len() && svs[i].path == #[trigger] g.1[j] && #[trigger] fingerprint_of(
                svs[i],
            ) == g.0
}

proof fn lemma_add_group_ok(
    svs: Seq<SampleView>,
    gs: Seq<(FingerprintView, Seq<Seq<char>>)>,
    fp: FingerprintView,
    p: Seq<char>,
    i0: int,
)
    requires
        forall|k: int| 0 <= k < gs.len() ==> #[trigger] group_ok(svs, gs[k]),
        0 <= i0 < svs.len(),
        fingerprint_of(svs[i0]) == fp,
        svs[i0].path == p,
    ensures
        forall|k: int|
            0 <= k < add_group(gs, fp, p).len() ==> #[trigger] group_ok(
                svs,
                add_group(gs, fp, p)[k],
            ),
    decreases gs.len(),
{
    let out = add_group(gs, fp, p);
    if gs.len() == 0 {
        assert forall|k: int| 0 <= k < out.len() implies group_ok(svs, out[k]) by {
            assert(out[k] == (fp, seq![p]));
            assert forall|j: int| 0 <= j < out[k].1.len() implies exists|i: int|
                0 <= i < svs.len() && svs[i].path == #[trigger] out[k].1[j]
                    && #[trigger] fingerprint_of(svs[i]) == out[k].0 by {
                assert(out[k].1[j] == p);
                assert(fingerprint_of(svs[i0]) == out[k].0 && svs[i0].path == out[k].1[j]);
            }
        }
    } else if gs.first().0 == fp {
        assert forall|k: int| 0 <= k < out.len() implies group_ok(svs, out[k]) by {
            if k == 0 {
                assert(out[0].0 == gs[0].0 && out[0].1 == gs[0].1.push(p));
                assert(group_ok(svs, gs[0]));
                assert forall|j: int| 0 <= j < out[0].1.len() implies exists|i: int|
                    0 <= i < svs.len() && svs[i].path == #[trigger] out[0].1[j]
                        && #[trigger] fingerprint_of(svs[i]) == out[0].0 by {
                    if j < gs[0].1.len() {
                        assert(out[0].1[j] == gs[0].1[j]);
                    } else {
                        assert(out[0].1[j] == p);
                        assert(fingerprint_of(svs[i0]) == out[0].0 && svs[i0].path
                            == out[0].1[j]);
                    }
                }
            } else {
                assert(out[k] == gs[k]);
                assert(group_ok(svs, gs[k]));
            }
        }
    } else {
        assert(forall|k: int|
            0 <= k < gs.drop_first().len() ==> gs.drop_first()[k] == gs[k + 1]);
        lemma_add_group_ok(svs, gs.drop_first(), fp, p, i0);
        let rest = add_group(gs.drop_first(), fp, p);
        assert forall|k: int| 0 <= k < out.len() implies group_ok(svs, out[k]) by {
            if k == 0 {
                assert(out[0] == gs[0]);
                assert(group_ok(svs, gs[0]));
            } else {
                assert(out[k] == rest[k - 1]);
                assert(group_ok(svs, rest[k - 1]));
            }
        }
    }
}

proof fn lemma_groups_upto_ok(svs: Seq<SampleView>, n: int)
    requires
        0 <= n <= svs.len(),
    ensures
        forall|k: int|
            0 <= k < groups_upto(svs, n).len() ==> #[trigger] group_ok(svs, groups_upto(svs, n)[k]),
    decreases n,
{
    if n > 0 {
        lemma_groups_upto_ok(svs, n - 1);
        lemma_add_group_ok(svs, groups_upto(svs, n - 1), fingerprint_of(svs[n - 1]), svs[n
            - 1].path, n - 1);
    }
}

proof fn lemma_big_groups_sub(gs: Seq<(FingerprintView, Seq<Seq<char>>)>, n: int)
    requires
        0 <= n <= gs.len(),
    ensures
        forall|k: int|
            0 <= k < big_groups_upto(gs, n).len() ==> exists|k0: int|
                0 <= k0 < gs.len() && #[trigger] big_groups_upto(gs, n)[k] == gs[k0],
    decreases n,
{
    if n > 0 {
        lemma_big_groups_sub(gs, n - 1);
        assert forall|k: int| 0 <= k < big_groups_upto(gs, n).len() implies exists|k0: int|
            0 <= k0 < gs.len() && #[trigger] big_groups_upto(gs, n)[k] == gs[k0] by {
            if k < big_groups_upto(gs, n - 1).len() {
                assert(big_groups_upto(gs, n)[k] == big_groups_upto(gs, n - 1)[k]);
            } else {
                assert(big_groups_upto(gs, n)[k] == gs[n - 1]);
            }
        }
    }
}

/// The length gate: every member of every duplicate group is the path of
/// a sample whose byte length is exactly the length stored in the group's
/// fingerprint.  Two files of different byte length therefore never stand
/// together in one group.
pub proof fn lemma_length_gate(svs: Seq<SampleView>, k: int)
    requires
        0 <= k < conflict_groups(svs).len(),
    ensures
        forall|j: int|
            0 <= j < conflict_groups(svs)[k].1.len() ==> exists|i: int|
                0 <= i < svs.len() && #[trigger] svs[i].path == #[trigger] conflict_groups(
                    svs,
                )[k].1[j] && svs[i].len == conflict_groups(svs)[k].0.length,
{
    let gs = groups_upto(svs, svs.len() as int);
    lemma_groups_upto_ok(svs, svs.len() as int);
    lemma_big_groups_sub(gs, gs.len() as int);
    let g = conflict_groups(svs)[k];
    let k0 = choose|k0: int| 0 <= k0 < gs.len() && conflict_groups(svs)[k] == gs[k0];
    assert(group_ok(svs, g));
    assert forall|j: int| 0 <= j < g.1.len() implies exists|i: int|
        0 <= i < svs.len() && #[trigger] svs[i].path == #[trigger] g.1[j] && svs[i].len
            == g.0.length by {
        let i = choose|i: int|
            0 <= i < svs.len() && svs[i].path == g.1[j] && #[trigger] fingerprint_of(svs[i])
                == g.0;
        assert(fingerprint_of(svs[i]).length == svs[i].len);
        assert(svs[i].path == g.1[j] && svs[i].len == g.0.length);
    }
}

pub(crate) proof fn lemma_size_concat(m: Map<Seq<char>, Meta>, a: Seq<Seq<char>>, b: Seq<Seq<char>>)
    ensures
        size_upto(m, a + b, (a + b).len() as int) == size_upto(m, a, a.len() as int) + size_upto(
            m,
            b,
            b.len() as int,
        ),
    decreases b.len(),
{
    if b.len() == 0 {
        assert(a + b =~= a);
    } else {
        lemma_size_concat(m, a, b.drop_last());
        assert((a + b).drop_last() =~= a + b.drop_last());
        assert(size_upto(m, a + b, (a + b).len() as int) == size_upto(
            m,
            a + b,
            (a + b).len() - 1,
        ) + cached_len(m, (a + b).last()));
        assert forall|t: int| 0 <= t < (a + b.drop_last()).len() implies (a + b)[t] == (a
            + b.drop_last())[t] by {}
        lemma_size_upto_same(m, a + b, a + b.drop_last(), (a + b).len() - 1);
        assert((a + b).last() == b.last());
        assert((a + b.drop_last()).len() == (a + b).len() - 1);
        assert(size_upto(m, b, b.len() as int) == size_upto(m, b, b.len() - 1) + cached_len(
            m,
            b.last(),
        ));
        assert(size_upto(m, b.drop_last(), b.drop_last().len() as int) == size_upto(
            m,
            b,
            b.len() - 1,
        )) by {
            lemma_size_upto_same(m, b.drop_last(), b, b.len() - 1);
        }
    }
}

proof fn lemma_size_upto_same(
    m: Map<Seq<char>, Meta>,
    ps1: Seq<Seq<char>>,
    ps2: Seq<Seq<char>>,
    n: int,
)
    requires
        forall|t: int| 0 <= t < n ==> ps1[t] == ps2[t],
    ensures
        size_upto(m, ps1, n) == size_upto(m, ps2, n),
    decreases n,
{
    if n > 0 {
        lemma_size_upto_same(m, ps1, ps2, n - 1);
    }
}

pub(crate) proof fn lemma_size_const(m: Map<Seq<char>, Meta>, ps: Seq<Seq<char>>, c: int, n: int)
    requires
        0 <= n <= ps.len(),
        forall|t: int| 0 <= t < n ==> cached_len(m, #[trigger] ps[t]) == c,
    ensures
        size_upto(m, ps, n) == n * c,
    decreases n,
{
    if n > 0 {
        lemma_size_const(m, ps, c, n - 1);
        assert(cached_len(m, ps[n - 1]) == c);
        assert((n - 1) * c + c == n * c) by (nonlinear_arith);
    } else {
        assert(n * c == 0) by (nonlinear_arith)
            requires
                n == 0,
        ;
    }
}

/// Report/force parity: whenever every member of a group has the byte
/// length that the cache records for the group's first member — which
/// byte-identical duplicates always do — the duplicate count and size
/// total printed by report mode equal the number of paths a forced run
/// removes and the bytes it reclaims.
pub proof fn lemma_report_matches_removal(
    m: Map<Seq<char>, Meta>,
    gvs: Seq<(FingerprintView, Seq<Seq<char>>)>,
)
    requires
        forall|k: int| 0 <= k < gvs.len() ==> #[trigger] gvs[k].1.len() >= 1,
        forall|k: int, j: int|
            0 <= k < gvs.len() && 0 <= j < gvs[k].1.len() ==> cached_len(
                m,
                #[trigger] gvs[k].1[j],
            ) == first_len(m, gvs[k]),
    ensures
        report_count_upto(gvs, gvs.len() as int) == removal_paths(gvs).len(),
        report_size_upto(m, gvs, gvs.len() as int) == removal_size(m, gvs),
{
    lemma_parity_upto(m, gvs, gvs.len() as int);
}

proof fn lemma_parity_upto(
    m: Map<Seq<char>, Meta>,
    gvs: Seq<(FingerprintView, Seq<Seq<char>>)>,
    n: int,
)
    requires
        0 <= n <= gvs.len(),
        forall|k: int| 0 <= k < gvs.len() ==> #[trigger] gvs[k].1.len() >= 1,
        forall|k: int, j: int|
            0 <= k < gvs.len() && 0 <= j < gvs[k].1.len() ==> cached_len(
                m,
                #[trigger] gvs[k].1[j],
            ) == first_len(m, gvs[k]),
    ensures
        report_count_upto(gvs, n) == removal_upto(gvs, n).len(),
        report_size_upto(m, gvs, n) == size_upto(m, removal_upto(gvs, n), removal_upto(
            gvs,
            n,
        ).len() as int),
    decreases n,
{
    if n > 0 {
        lemma_parity_upto(m, gvs, n - 1);
        let g = gvs[n - 1];
        let tail = tail_of(g);
        assert(tail.len() == g.1.len() - 1);
        lemma_size_concat(m, removal_upto(gvs, n - 1), tail);
        assert forall|t: int| 0 <= t < tail.len() implies cached_len(m, #[trigger] tail[t])
            == first_len(m, g) by {
            assert(tail[t] == g.1[t + 1]);
            assert(cached_len(m, gvs[n - 1].1[t + 1]) == first_len(m, gvs[n - 1]));
        }
        lemma_size_const(m, tail, first_len(m, g), tail.len() as int);
        assert((g.1.len() - 1) * first_len(m, g) == tail.len() * first_len(m, g));
    }
}

} // verus!
