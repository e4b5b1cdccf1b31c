//! Per-file metadata captured once at scan time, and the cache that maps
//! each scanned path to it.
//!
//! Timestamps are carried as an optional number of nanoseconds since the
//! epoch; they are optional because not every filesystem exposes a creation
//! time, and the engine must never rely on their presence.

use vstd::prelude::*;

verus! {

/// What a directory scan records about one file: its byte length and,
/// when the filesystem offers one, its creation time.
#[derive(Clone, Copy, Debug)]
pub struct Meta {
    /// Creation time in nanoseconds since the epoch, when available.
    pub created: Option<u64>,
    /// Exact byte length of the file.
    pub len: u64,
}

/// A mapping from scanned paths to their metadata, consulted later for
/// size accounting and timestamp ordering.
pub struct Metacache {
    entries: Vec<(String, Meta)>,
}

/// The mathematical content of a metadata entry list: later entries win.
pub open spec fn map_of(s: Seq<(String, Meta)>) -> Map<Seq<char>, Meta>
    decreases s.len(),
{
    if s.len() == 0 {
        Map::empty()
    } else {
        map_of(s.drop_last()).insert(s.last().0@, s.last().1)
    }
}

impl View for Metacache {
    type V = Map<Seq<char>, Meta>;

    closed spec fn view(&self) -> Map<Seq<char>, Meta> {
        map_of(self.entries@)
    }
}

/// No two entries of the list name the same path.
spec fn distinct_keys(s: Seq<(String, Meta)>) -> bool {
    forall|i: int, j: int| 0 <= i < j < s.len() ==> s[i].0@ != s[j].0@
}

proof fn lemma_map_of_contains(s: Seq<(String, Meta)>, k: Seq<char>)
    ensures
        map_of(s).contains_key(k) <==> exists|i: int| 0 <= i < s.len() && s[i].0@ == k,
    decreases s.len(),
{
    if s.len() > 0 {
        lemma_map_of_contains(s.drop_last(), k);
        if map_of(s).contains_key(k) {
            if s.last().0@ == k {
                assert(s[s.len() - 1].0@ == k);
            } else {
                let i = choose|i: int| 0 <= i < s.drop_last().len() && s.drop_last()[i].0@ == k;
                assert(s[i].0@ == k);
            }
        }
        if exists|i: int| 0 <= i < s.len() && s[i].0@ == k {
            let i = choose|i: int| 0 <= i < s.len() && s[i].0@ == k;
            if i < s.len() - 1 {
                assert(s.drop_last()[i].0@ == k);
            }
        }
    }
}

proof fn lemma_map_of_value(s: Seq<(String, Meta)>, i: int)
    requires
        distinct_keys(s),
        0 <= i < s.len(),
    ensures
        map_of(s).contains_key(s[i].0@),
        map_of(s)[s[i].0@] == s[i].1,
    decreases s.len(),
{
    if i == s.len() - 1 {
    } else {
        assert(distinct_keys(s.drop_last())) by {
            assert(forall|p: int, q: int|
                0 <= p < q < s.drop_last().len() ==> s.drop_last()[p].0@ == s[p].0@
                    && s.drop_last()[q].0@ == s[q].0@);
        }
        lemma_map_of_value(s.drop_last(), i);
        assert(s.drop_last()[i] == s[i]);
        assert(s[i].0@ != s.last().0@);
    }
}

impl Metacache {
    /// All paths stored inside are distinct, so lookups are unambiguous.
    pub closed spec fn wf(&self) -> bool {
        distinct_keys(self.entries@)
    }

    /// An empty cache.
    pub fn new() -> (r: Metacache)
        ensures
            r.wf(),
            r@ == Map::<Seq<char>, Meta>::empty(),
    {
        Metacache { entries: Vec::new() }
    }

    /// Record the metadata of one path, replacing any earlier record.
    pub fn insert(&mut self, path: String, meta: Meta)
        requires
            old(self).wf(),
        ensures
            final(self).wf(),
            final(self)@ == old(self)@.insert(path@, meta),
    {
        let ghost s0 = self.entries@;
        let n: usize = self.entries.len();
        let mut i: usize = 0;
        while i < n
            invariant
                i <= n,
                n == self.entries@.len(),
                self.entries@ == s0,
                s0 == old(self).entries@,
                distinct_keys(s0),
                forall|j: int| 0 <= j < i ==> s0[j].0@ != path@,
            decreases n - i,
        {
            if crate::text::str_eq(self.entries[i].0.as_str(), path.as_str()) {
                let ghost kv = s0[i as int].0@;
                self.entries[i].1 = meta;
                proof {
                    assert(self.entries@ == s0.update(i as int, (s0[i as int].0, meta)));
                    lemma_update_view(s0, i as int, s0[i as int].0, meta, path@);
                }
                return;
            }
            i = i + 1;
        }
        self.entries.push((path, meta));
        proof {
            assert(self.entries@.drop_last() =~= s0);
        }
    }

    /// Look up the metadata recorded for a path.
    pub fn get(&self, path: &str) -> (r: Option<&Meta>)
        requires
            self.wf(),
        ensures
            match r {
                Some(m) => self@.contains_key(path@) && *m == self@[path@],
                None => !self@.contains_key(path@),
            },
    {
        let n: usize = self.entries.len();
        let mut i: usize = 0;
        while i < n
            invariant
                i <= n,
                n == self.entries@.len(),
                self.wf(),
                forall|j: int| 0 <= j < i ==> self.entries@[j].0@ != path@,
            decreases n - i,
        {
            if crate::text::str_eq(self.entries[i].0.as_str(), path) {
                proof {
                    lemma_map_of_value(self.entries@, i as int);
                }
                return Some(&self.entries[i].1);
            }
            i = i + 1;
        }
        proof {
            lemma_map_of_contains(self.entries@, path@);
        }
        None
    }
}

proof fn lemma_update_view(s: Seq<(String, Meta)>, i: int, p: String, meta: Meta, k: Seq<char>)
    requires
        distinct_keys(s),
        0 <= i < s.len(),
        s[i].0 == p,
        p@ == k,
    ensures
        distinct_keys(s.update(i, (p, meta))),
        map_of(s.update(i, (p, meta))) == map_of(s).insert(k, meta),
    decreases s.len(),
{
    let t = s.update(i, (p, meta));
    assert(distinct_keys(t)) by {
        assert(forall|a: int| 0 <= a < t.len() ==> t[a].0@ == s[a].0@);
    }
    if i == s.len() - 1 {
        assert(t.drop_last() =~= s.drop_last());
        assert(map_of(t) =~= map_of(s).insert(k, meta));
    } else {
        assert(t.drop_last() =~= s.drop_last().update(i, (p, meta)));
        assert(distinct_keys(s.drop_last())) by {
            assert(forall|a: int| 0 <= a < s.drop_last().len() ==> s.drop_last()[a].0@ == s[a].0@);
        }
        lemma_update_view(s.drop_last(), i, p, meta, k);
        assert(s.last().0@ != k);
        assert(map_of(t) =~= map_of(s).insert(k, meta));
    }
}

} // verus!
