//! A count table keyed by k-mer hashes.
//!
//! The table is the engine's mapping from hash to count: its view is a
//! `Map<u64, u32>`, every stored count is at least one, and absent keys
//! count as zero.

use vstd::prelude::*;

verus! {

/// How often `h` is counted by the mapping `m`; keys outside the domain
/// count zero times.
pub open spec fn table_count(m: Map<u64, u32>, h: u64) -> int {
    if m.dom().contains(h) {
        m[h] as int
    } else {
        0
    }
}

/// No key occurs twice in the entry list.
pub open spec fn distinct_keys(s: Seq<(u64, u32)>) -> bool {
    forall|i: int, j: int| 0 <= i < j < s.len() ==> s[i].0 != s[j].0
}

/// The mapping an entry list denotes: later entries would win, though a
/// well-formed table never repeats a key.
pub open spec fn map_of(s: Seq<(u64, u32)>) -> Map<u64, u32>
    decreases s.len(),
{
    if s.len() == 0 {
        Map::empty()
    } else {
        map_of(s.drop_last()).insert(s.last().0, s.last().1)
    }
}

/// A key is in the denoted mapping exactly when some entry carries it.
proof fn lemma_map_of_contains(s: Seq<(u64, u32)>, h: u64)
    ensures
        map_of(s).dom().contains(h) <==> exists|i: int| 0 <= i < s.len() && s[i].0 == h,
    decreases s.len(),
{
    if s.len() > 0 {
        lemma_map_of_contains(s.drop_last(), h);
        if s.last().0 == h {
            assert(s[s.len() - 1].0 == h);
        } else if map_of(s).dom().contains(h) {
            let i = choose|i: int| 0 <= i < s.len() - 1 && s.drop_last()[i].0 == h;
            assert(s[i].0 == h);
        } else {
            assert forall|i: int| 0 <= i < s.len() implies s[i].0 != h by {
                if i < s.len() - 1 {
                    assert(s.drop_last()[i].0 == s[i].0);
                }
            }
        }
    }
}

/// With distinct keys, each entry's count is the denoted mapping's value.
proof fn lemma_map_of_index(s: Seq<(u64, u32)>, i: int)
    requires
        distinct_keys(s),
        0 <= i < s.len(),
    ensures
        map_of(s).dom().contains(s[i].0),
        map_of(s)[s[i].0] == s[i].1,
    decreases s.len(),
{
    if i == s.len() - 1 {
    } else {
        assert(distinct_keys(s.drop_last())) by {
            assert(forall|x: int, y: int|
                0 <= x < y < s.len() - 1 ==> s.drop_last()[x].0 == s[x].0 && s.drop_last()[y].0
                    == s[y].0);
        }
        assert(s.drop_last()[i] == s[i]);
        lemma_map_of_index(s.drop_last(), i);
        assert(s.last().0 != s[i].0);
    }
}

/// The denoted mapping has a finite domain, one key per entry when the keys
/// are distinct.
proof fn lemma_map_of_dom_len(s: Seq<(u64, u32)>)
    requires
        distinct_keys(s),
    ensures
        map_of(s).dom().finite(),
        map_of(s).dom().len() == s.len(),
    decreases s.len(),
{
    broadcast use vstd::set::group_set_axioms;

    if s.len() > 0 {
        assert(distinct_keys(s.drop_last())) by {
            assert(forall|x: int, y: int|
                0 <= x < y < s.len() - 1 ==> s.drop_last()[x].0 == s[x].0 && s.drop_last()[y].0
                    == s[y].0);
        }
        lemma_map_of_dom_len(s.drop_last());
        lemma_map_of_contains(s.drop_last(), s.last().0);
        assert(forall|i: int|
            0 <= i < s.len() - 1 ==> s.drop_last()[i].0 == s[i].0 && s[i].0 != s.last().0);
        assert(!map_of(s.drop_last()).dom().contains(s.last().0));
    }
}

/// Updating the count of the entry at `i` updates the denoted mapping at
/// that entry's key.
proof fn lemma_map_of_update(s: Seq<(u64, u32)>, i: int, v: u32)
    requires
        distinct_keys(s),
        0 <= i < s.len(),
    ensures
        map_of(s.update(i, (s[i].0, v))) == map_of(s).insert(s[i].0, v),
    decreases s.len(),
{
    let t = s.update(i, (s[i].0, v));
    if i == s.len() - 1 {
        assert(t.drop_last() =~= s.drop_last());
        assert(t.last() == (s[i].0, v));
        assert(map_of(t) =~= map_of(s).insert(s[i].0, v));
    } else {
        assert(distinct_keys(s.drop_last())) by {
            assert(forall|x: int, y: int|
                0 <= x < y < s.len() - 1 ==> s.drop_last()[x].0 == s[x].0 && s.drop_last()[y].0
                    == s[y].0);
        }
        assert(t.drop_last() =~= s.drop_last().update(i, (s[i].0, v)));
        assert(s.drop_last()[i] == s[i]);
        lemma_map_of_update(s.drop_last(), i, v);
        assert(t.last() == s.last());
        assert(s.last().0 != s[i].0);
        assert(map_of(t) =~= map_of(s).insert(s[i].0, v));
    }
}

/// A table of k-mer counts. Its view is the mapping from hash to count;
/// a hash outside the view's domain has count zero.
pub struct KmerCountTable {
    entries: Vec<(u64, u32)>,
}

impl View for KmerCountTable {
    type V = Map<u64, u32>;

    closed spec fn view(&self) -> Map<u64, u32> {
        map_of(self.entries@)
    }
}

impl KmerCountTable {
    /// Well-formed: no key occurs twice and every stored count is positive.
    pub closed spec fn wf(&self) -> bool {
        distinct_keys(self.entries@) && (forall|i: int|
            0 <= i < self.entries@.len() ==> #[trigger] self.entries@[i].1 >= 1)
    }

    /// An empty table.
    pub fn new() -> (t: Self)
        ensures
            t.wf(),
            t@ == Map::<u64, u32>::empty(),
            t@.dom().len() == 0,
    {
        proof {
            broadcast use vstd::set::group_set_axioms;

        }
        KmerCountTable { entries: Vec::new() }
    }

    /// The number of distinct hashes counted.
    pub fn len(&self) -> (n: usize)
        requires
            self.wf(),
        ensures
            n == self@.dom().len(),
    {
        proof {
            lemma_map_of_dom_len(self.entries@);
        }
        self.entries.len()
    }

    /// The count recorded for a hash; zero when the hash was never counted.
    pub fn count_of(&self, h: u64) -> (c: u32)
        requires
            self.wf(),
        ensures
            c as int == table_count(self@, h),
    {
        let n = self.entries.len();
        let mut i: usize = 0;
        while i < n
            invariant
                0 <= i <= n,
                n == self.entries@.len(),
                self.wf(),
                forall|j: int| 0 <= j < i ==> self.entries@[j].0 != h,
            decreases n - i,
        {
            let pair = self.entries[i];
            if pair.0 == h {
                proof {
                    lemma_map_of_index(self.entries@, i as int);
                }
                return pair.1;
            }
            i = i + 1;
        }
        proof {
            lemma_map_of_contains(self.entries@, h);
        }
        0
    }

    /// Adds `delta` to the count of `h`, creating the entry if absent.
    pub fn increment(&mut self, h: u64, delta: u32)
        requires
            old(self).wf(),
            delta >= 1,
            table_count(old(self)@, h) + delta <= u32::MAX,
        ensures
            final(self).wf(),
            final(self)@ == old(self)@.insert(h, (table_count(old(self)@, h) + delta) as u32),
    {
        let n = self.entries.len();
        let mut i: usize = 0;
        while i < n
            invariant
                0 <= i <= n,
                n == self.entries@.len(),
                self.wf(),
                self.entries@ == old(self).entries@,
                delta >= 1,
                table_count(old(self)@, h) + delta <= u32::MAX,
                forall|j: int| 0 <= j < i ==> self.entries@[j].0 != h,
            decreases n - i,
        {
            let pair = self.entries[i];
            if pair.0 == h {
                proof {
                    lemma_map_of_index(self.entries@, i as int);
                    assert(pair.1 as int == table_count(old(self)@, h));
                    lemma_map_of_update(self.entries@, i as int, (pair.1 + delta) as u32);
                }
                let updated = (h, pair.1 + delta);
                self.entries[i] = updated;
                proof {
                    assert(self.entries@ == old(self).entries@.update(i as int, updated));
                    assert(forall|x: int, y: int|
                        0 <= x < y < self.entries@.len() ==> self.entries@[x].0 == old(
                            self,
                        ).entries@[x].0 && self.entries@[y].0 == old(self).entries@[y].0);
                }
                return ;
            }
            i = i + 1;
        }
        proof {
            lemma_map_of_contains(self.entries@, h);
            assert(table_count(old(self)@, h) == 0);
        }
        self.entries.push((h, delta));
        proof {
            assert(self.entries@.drop_last() =~= old(self).entries@);
            assert(forall|x: int|
                0 <= x < old(self).entries@.len() ==> self.entries@[x] == old(self).entries@[x]);
        }
    }

    /// Every key of a well-formed table carries a positive count.
    pub proof fn lemma_wf_positive(&self)
        requires
            self.wf(),
        ensures
            forall|h: u64| self@.dom().contains(h) ==> #[trigger] table_count(self@, h) >= 1,
    {
        assert forall|h: u64| self@.dom().contains(h) implies #[trigger] table_count(self@, h)
            >= 1 by {
            lemma_map_of_contains(self.entries@, h);
            let i = choose|i: int| 0 <= i < self.entries@.len() && self.entries@[i].0 == h;
            lemma_map_of_index(self.entries@, i);
        }
    }

    /// The entries as hash/count pairs, in unspecified order: one pair per
    /// key of the view, each carrying the view's count.
    pub fn pairs(&self) -> (r: &Vec<(u64, u32)>)
        requires
            self.wf(),
        ensures
            r@.len() == self@.dom().len(),
            distinct_keys(r@),
            forall|i: int|
                0 <= i < r@.len() ==> self@.dom().contains(#[trigger] r@[i].0) && self@[r@[i].0]
                    == r@[i].1 && r@[i].1 >= 1,
            forall|h: u64|
                self@.dom().contains(h) ==> exists|i: int| 0 <= i < r@.len() && r@[i].0 == h,
    {
        proof {
            lemma_map_of_dom_len(self.entries@);
            assert forall|i: int| 0 <= i < self.entries@.len() implies self@.dom().contains(
                #[trigger] self.entries@[i].0,
            ) && self@[self.entries@[i].0] == self.entries@[i].1 by {
                lemma_map_of_index(self.entries@, i);
            }
            assert forall|h: u64| self@.dom().contains(h) implies exists|i: int|
                0 <= i < self.entries@.len() && self.entries@[i].0 == h by {
                lemma_map_of_contains(self.entries@, h);
            }
        }
        &self.entries
    }
}

} // verus!
