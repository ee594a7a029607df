//! Per-order n-gram frequency tables and ranked lists: windowed counting
//! that skips sentence boundaries, summing tables across corpus partitions,
//! and sorting by count descending.

use vstd::prelude::*;
use crate::text::{join_sp, join_range};
use crate::is_boundary_token;
use crate::is_boundary;

verus! {

broadcast use vstd::seq_lib::group_to_multiset_ensures;

/// The counts of a sequence of table entries, summed.
pub open spec fn sum_counts(s: Seq<(String, u64)>) -> int
    decreases s.len(),
{
    if s.len() == 0 {
        0
    } else {
        sum_counts(s.drop_last()) + s.last().1
    }
}

/// The window of length `n` starting at `i` lies inside `toks` and holds no
/// sentence-boundary token.
pub open spec fn window_ok(toks: Seq<Seq<char>>, n: int, i: int) -> bool {
    0 <= i && i + n <= toks.len() && forall|m: int| i <= m < i + n ==> !is_boundary_token(
        #[trigger] toks[m],
    )
}

/// Among the first `upto` window positions, how many boundary-free windows
/// of length `n` join to exactly `key`.
pub open spec fn window_count(toks: Seq<Seq<char>>, n: int, upto: int, key: Seq<char>) -> int
    decreases upto,
{
    if upto <= 0 {
        0
    } else {
        window_count(toks, n, upto - 1, key) + if window_ok(toks, n, upto - 1) && join_sp(
            toks.subrange(upto - 1, upto - 1 + n),
        ) == key {
            1int
        } else {
            0int
        }
    }
}

/// Among the first `upto` window positions, how many windows of length `n`
/// are boundary-free at all.
pub open spec fn qual_windows(toks: Seq<Seq<char>>, n: int, upto: int) -> int
    decreases upto,
{
    if upto <= 0 {
        0
    } else {
        qual_windows(toks, n, upto - 1) + if window_ok(toks, n, upto - 1) {
            1int
        } else {
            0int
        }
    }
}

/// The number of window start positions for order `n` over `toks`.
pub open spec fn window_positions(toks: Seq<Seq<char>>, n: int) -> int {
    if toks.len() >= n {
        toks.len() - n + 1
    } else {
        0
    }
}

/// A frequency table: a mapping from n-gram text to occurrence count, with
/// unique keys.
pub struct FreqTable {
    entries: Vec<(String, u64)>,
}

proof fn lemma_sum_nonneg(s: Seq<(String, u64)>)
    ensures
        sum_counts(s) >= 0,
    decreases s.len(),
{
    if s.len() > 0 {
        lemma_sum_nonneg(s.drop_last());
    }
}

proof fn lemma_sum_ge_elem(s: Seq<(String, u64)>, j: int)
    requires
        0 <= j < s.len(),
    ensures
        sum_counts(s) >= s[j].1,
    decreases s.len(),
{
    lemma_sum_nonneg(s.drop_last());
    if j == s.len() - 1 {
    } else {
        lemma_sum_ge_elem(s.drop_last(), j);
    }
}

proof fn lemma_sum_update(s: Seq<(String, u64)>, j: int, e: (String, u64))
    requires
        0 <= j < s.len(),
    ensures
        sum_counts(s.update(j, e)) == sum_counts(s) - s[j].1 + e.1,
    decreases s.len(),
{
    let s2 = s.update(j, e);
    if j == s.len() - 1 {
        assert(s2.drop_last() =~= s.drop_last());
        assert(s2.last() == e);
    } else {
        assert(s2.drop_last() =~= s.drop_last().update(j, e));
        assert(s2.last() == s.last());
        lemma_sum_update(s.drop_last(), j, e);
    }
}

proof fn lemma_sum_remove(s: Seq<(String, u64)>, j: int)
    requires
        0 <= j < s.len(),
    ensures
        sum_counts(s.remove(j)) == sum_counts(s) - s[j].1,
    decreases s.len(),
{
    let s2 = s.remove(j);
    if j == s.len() - 1 {
        assert(s2 =~= s.drop_last());
    } else {
        assert(s2.drop_last() =~= s.drop_last().remove(j));
        assert(s2.last() == s.last());
        lemma_sum_remove(s.drop_last(), j);
    }
}

impl FreqTable {
    /// The entries as they stand, in insertion order.
    pub closed spec fn entry_seq(self) -> Seq<(String, u64)> {
        self.entries@
    }

    /// Keys are unique and every stored count is positive: the table holds
    /// an entry exactly for the keys that have been counted at all.
    pub closed spec fn wf(self) -> bool {
        &&& (forall|j: int, k: int|
            0 <= j < k < self.entries@.len() ==> (#[trigger] self.entries@[j]).0@ != (
            #[trigger] self.entries@[k]).0@)
        &&& (forall|j: int| 0 <= j < self.entries@.len() ==> (#[trigger] self.entries@[j]).1 > 0)
    }

    pub closed spec fn has_key(self, key: Seq<char>) -> bool {
        exists|j: int| 0 <= j < self.entries@.len() && (#[trigger] self.entries@[j]).0@ == key
    }

    pub closed spec fn key_at(self, key: Seq<char>) -> int {
        choose|j: int| 0 <= j < self.entries@.len() && (#[trigger] self.entries@[j]).0@ == key
    }

    /// The count stored for `key`, 0 when absent.
    pub closed spec fn count_of(self, key: Seq<char>) -> u64 {
        if self.has_key(key) {
            self.entries@[self.key_at(key)].1
        } else {
            0
        }
    }

    /// The sum of all counts.
    pub closed spec fn total(self) -> int {
        sum_counts(self.entries@)
    }

    /// An empty table: every count 0.
    pub fn new() -> (t: FreqTable)
        ensures
            t.wf(),
            forall|key: Seq<char>| #[trigger] t.count_of(key) == 0,
            t.total() == 0,
            t.entry_seq() == Seq::<(String, u64)>::empty(),
    {
        let t = FreqTable { entries: Vec::new() };
        proof {
            assert(t.entries@ =~= Seq::<(String, u64)>::empty());
            assert forall|key: Seq<char>| #[trigger] t.count_of(key) == 0 by {
                assert(!t.has_key(key));
            }
        }
        t
    }

    /// Add `c` occurrences of `key`.
    pub fn add(&mut self, key: &String, c: u64)
        requires
            old(self).wf(),
            c >= 1,
            old(self).total() + c <= u64::MAX,
        ensures
            final(self).wf(),
            final(self).count_of(key@) == old(self).count_of(key@) + c,
            forall|k2: Seq<char>|
                k2 != key@ ==> #[trigger] final(self).count_of(k2) == old(self).count_of(k2),
            final(self).total() == old(self).total() + c,
    {
        let ghost t1 = *self;
        let n = self.entries.len();
        let mut j: usize = 0;
        while j < n
            invariant
                n == self.entries@.len(),
                j <= n,
                *self == t1,
                t1 == *old(self),
                t1.wf(),
                c >= 1,
                t1.total() + c <= u64::MAX,
                forall|m: int| 0 <= m < j ==> (#[trigger] self.entries@[m]).0@ != key@,
            decreases n - j,
        {
            if self.entries[j].0 == *key {
                proof {
                    assert(t1.entries@[j as int].0@ == key@);
                    assert(t1.has_key(key@));
                    let j2 = t1.key_at(key@);
                    assert(0 <= j2 < t1.entries@.len() && t1.entries@[j2].0@ == key@);
                    assert(j2 == j as int);
                    lemma_sum_ge_elem(t1.entries@, j as int);
                    lemma_sum_nonneg(t1.entries@);
                    assert(t1.entries@[j as int].1 + c <= u64::MAX);
                }
                let e = &mut self.entries[j];
                e.1 = e.1 + c;
                proof {
                    let t2 = *self;
                    assert(t2.entries@ == t1.entries@.update(
                        j as int,
                        (t1.entries@[j as int].0, (t1.entries@[j as int].1 + c) as u64),
                    ));
                    assert(forall|m: int|
                        0 <= m < t2.entries@.len() ==> (#[trigger] t2.entries@[m]).0
                            == t1.entries@[m].0);
                    lemma_sum_update(
                        t1.entries@,
                        j as int,
                        (t1.entries@[j as int].0, (t1.entries@[j as int].1 + c) as u64),
                    );
                    assert(t2.has_key(key@));
                    assert(t2.key_at(key@) == j as int) by {
                        let j2 = t2.key_at(key@);
                        assert(0 <= j2 < t2.entries@.len() && t2.entries@[j2].0@ == key@);
                        assert(t1.entries@[j2].0@ == key@);
                    }
                    assert forall|k2: Seq<char>| k2 != key@ implies #[trigger] t2.count_of(k2)
                        == t1.count_of(k2) by {
                        if t1.has_key(k2) {
                            let m1 = t1.key_at(k2);
                            assert(t2.entries@[m1].0@ == k2);
                            assert(t2.has_key(k2));
                            let m2 = t2.key_at(k2);
                            assert(t1.entries@[m2].0@ == k2);
                            assert(m1 == m2);
                            assert(m1 != j as int);
                        } else {
                            if t2.has_key(k2) {
                                let m2 = t2.key_at(k2);
                                assert(t1.entries@[m2].0@ == k2);
                            }
                        }
                    }
                }
                return ;
            }
            j = j + 1;
        }
        proof {
            assert(!t1.has_key(key@));
            lemma_sum_nonneg(t1.entries@);
        }
        self.entries.push((key.clone(), c));
        proof {
            let t2 = *self;
            let m = t1.entries@.len() as int;
            assert(t2.entries@ == t1.entries@.push((*key, c)));
            assert(t2.entries@.drop_last() =~= t1.entries@);
            assert(t2.entries@[m].0@ == key@);
            assert(t2.has_key(key@));
            assert(t2.key_at(key@) == m) by {
                let j2 = t2.key_at(key@);
                assert(0 <= j2 < t2.entries@.len() && t2.entries@[j2].0@ == key@);
                if j2 < m {
                    assert(t1.entries@[j2].0@ == key@);
                }
            }
            assert forall|k2: Seq<char>| k2 != key@ implies #[trigger] t2.count_of(k2)
                == t1.count_of(k2) by {
                if t1.has_key(k2) {
                    let m1 = t1.key_at(k2);
                    assert(t2.entries@[m1].0@ == k2);
                    assert(t2.has_key(k2));
                    let m2 = t2.key_at(k2);
                    if m2 < m {
                        assert(t1.entries@[m2].0@ == k2);
                    }
                    assert(m1 == m2);
                } else {
                    if t2.has_key(k2) {
                        let m2 = t2.key_at(k2);
                        if m2 < m {
                            assert(t1.entries@[m2].0@ == k2);
                        }
                    }
                }
            }
        }
    }

    /// Count every boundary-free window of `n` tokens, keyed by the window
    /// joined with single spaces.
    pub fn count_ngrams(tokens: &Vec<String>, n: usize) -> (t: FreqTable)
        requires
            1 <= n,
        ensures
            t.wf(),
            forall|key: Seq<char>|
                #[trigger] t.count_of(key) == window_count(
                    tokens.deep_view(),
                    n as int,
                    window_positions(tokens.deep_view(), n as int),
                    key,
                ),
            t.total() == qual_windows(
                tokens.deep_view(),
                n as int,
                window_positions(tokens.deep_view(), n as int),
            ),
    {
        let ghost dv = tokens.deep_view();
        let mut t = FreqTable::new();
        if tokens.len() < n {
            proof {
                assert(window_positions(dv, n as int) == 0);
            }
            return t;
        }
        let w = tokens.len() - n + 1;
        let mut i: usize = 0;
        proof {
            assert(tokens@.len() == tokens.len());
        }
        while i < w
            invariant
                dv == tokens.deep_view(),
                dv.len() == tokens@.len(),
                1 <= n <= dv.len(),
                w == dv.len() - n + 1,
                dv.len() <= usize::MAX,
                i <= w,
                t.wf(),
                forall|key: Seq<char>|
                    #[trigger] t.count_of(key) == window_count(dv, n as int, i as int, key),
                t.total() == qual_windows(dv, n as int, i as int),
                t.total() <= i,
            decreases w - i,
        {
            let mut ok = true;
            let mut m: usize = i;
            while m < i + n
                invariant
                    i <= m <= i + n,
                    i + n <= dv.len(),
                    dv == tokens.deep_view(),
                    dv.len() == tokens@.len(),
                    dv.len() <= usize::MAX,
                    ok == (forall|m2: int| i <= m2 < m ==> !is_boundary_token(#[trigger] dv[m2])),
                decreases i + n - m,
            {
                if is_boundary(tokens[m].as_str()) {
                    ok = false;
                    proof {
                        assert(is_boundary_token(dv[m as int]));
                    }
                    m = i + n;
                } else {
                    m = m + 1;
                }
            }
            if ok {
                let key = join_range(tokens, i, i + n);
                proof {
                    assert(window_ok(dv, n as int, i as int));
                    assert(key@ == join_sp(dv.subrange(i as int, i + n)));
                    assert(t.total() + 1 <= u64::MAX) by {
                        assert(dv.len() == tokens@.len());
                        assert(tokens@.len() == tokens.len());
                    }
                }
                t.add(&key, 1);
                proof {
                    assert forall|k2: Seq<char>| #[trigger]
                        t.count_of(k2) == window_count(dv, n as int, i + 1, k2) by {}
                }
            } else {
                proof {
                    let bad = choose|m2: int| i <= m2 < i + n && is_boundary_token(dv[m2]);
                    assert(!window_ok(dv, n as int, i as int));
                    assert forall|k2: Seq<char>| #[trigger]
                        t.count_of(k2) == window_count(dv, n as int, i + 1, k2) by {}
                }
            }
            i = i + 1;
        }
        proof {
            assert(i == window_positions(dv, n as int));
        }
        t
    }

    /// The count stored for `key`, 0 when absent.
    pub fn get(&self, key: &String) -> (c: u64)
        requires
            self.wf(),
        ensures
            c == self.count_of(key@),
    {
        let mut j: usize = 0;
        while j < self.entries.len()
            invariant
                j <= self.entries@.len(),
                forall|m: int| 0 <= m < j ==> (#[trigger] self.entries@[m]).0@ != key@,
                self.wf(),
            decreases self.entries@.len() - j,
        {
            if self.entries[j].0 == *key {
                proof {
                    assert(self.has_key(key@));
                    let j2 = self.key_at(key@);
                    assert(0 <= j2 < self.entries@.len() && self.entries@[j2].0@ == key@);
                    assert(j2 == j as int);
                }
                return self.entries[j].1;
            }
            j = j + 1;
        }
        proof {
            assert(!self.has_key(key@));
        }
        0
    }

    /// The sum of all counts, when it fits a machine word: lets a caller
    /// test `merge_from`'s overflow bound before merging.
    pub fn total_count(&self) -> (t: Option<u64>)
        ensures
            t matches Some(v) ==> v == self.total(),
            t is None ==> self.total() > u64::MAX,
    {
        let mut acc: u64 = 0;
        let mut i: usize = 0;
        proof {
            assert(self.entries@.take(0) =~= Seq::<(String, u64)>::empty());
        }
        while i < self.entries.len()
            invariant
                i <= self.entries@.len(),
                acc == sum_counts(self.entries@.take(i as int)),
            decreases self.entries@.len() - i,
        {
            let c = self.entries[i].1;
            proof {
                lemma_sum_take_step(self.entries@, i as int);
            }
            if acc > u64::MAX - c {
                proof {
                    lemma_sum_take_rest(self.entries@, i + 1);
                }
                return None;
            }
            acc = acc + c;
            i = i + 1;
        }
        proof {
            assert(self.entries@.take(self.entries@.len() as int) =~= self.entries@);
        }
        Some(acc)
    }

    /// The stored entries are exactly the keys with a non-zero count, each
    /// carrying that count: the ranked list a table yields holds no key
    /// that was never counted.
    pub proof fn lemma_entries_characterize(self)
        requires
            self.wf(),
        ensures
            forall|j: int|
                0 <= j < self.entry_seq().len() ==> (#[trigger] self.entry_seq()[j]).1
                    == self.count_of(self.entry_seq()[j].0@) && self.entry_seq()[j].1 > 0,
            forall|k: Seq<char>|
                #[trigger] self.count_of(k) != 0 ==> exists|j: int|
                    0 <= j < self.entry_seq().len() && (#[trigger] self.entry_seq()[j]).0@ == k,
    {
        assert forall|j: int| 0 <= j < self.entry_seq().len() implies (
        #[trigger] self.entry_seq()[j]).1 == self.count_of(self.entry_seq()[j].0@)
            && self.entry_seq()[j].1 > 0 by {
            let k = self.entries@[j].0@;
            assert(self.has_key(k));
            let j2 = self.key_at(k);
            assert(0 <= j2 < self.entries@.len() && self.entries@[j2].0@ == k);
            assert(j2 == j);
        }
        assert forall|k: Seq<char>| #[trigger] self.count_of(k) != 0 implies exists|j: int|
            0 <= j < self.entry_seq().len() && (#[trigger] self.entry_seq()[j]).0@ == k by {
            assert(self.has_key(k));
            let j2 = self.key_at(k);
            assert(0 <= j2 < self.entry_seq().len() && self.entry_seq()[j2].0@ == k);
        }
    }

    /// Sum another table into this one.
    pub fn merge_from(&mut self, other: &FreqTable)
        requires
            old(self).wf(),
            other.wf(),
            old(self).total() + other.total() <= u64::MAX,
        ensures
            final(self).wf(),
            forall|key: Seq<char>|
                #[trigger] final(self).count_of(key) == old(self).count_of(key) + other.count_of(
                    key,
                ),
            final(self).total() == old(self).total() + other.total(),
    {
        let ghost t1 = *self;
        let ghost os = other.entries@;
        let n = other.entries.len();
        let mut j: usize = 0;
        proof {
            assert(os.take(0) =~= Seq::<(String, u64)>::empty());
            lemma_sum_nonneg(os);
        }
        while j < n
            invariant
                n == os.len(),
                os == other.entries@,
                other.wf(),
                j <= n,
                self.wf(),
                forall|key: Seq<char>|
                    #[trigger] self.count_of(key) == t1.count_of(key) + prefix_count(
                        os,
                        j as int,
                        key,
                    ),
                self.total() == t1.total() + sum_counts(os.take(j as int)),
                sum_counts(os.take(j as int)) <= sum_counts(os),
                t1.total() + sum_counts(os) <= u64::MAX,
            decreases n - j,
        {
            let e = &other.entries[j];
            proof {
                assert(other.has_key(os[j as int].0@));
                assert(other.key_at(os[j as int].0@) == j as int) by {
                    let j2 = other.key_at(os[j as int].0@);
                    assert(0 <= j2 < os.len() && os[j2].0@ == os[j as int].0@);
                }
                assert(other.count_of(os[j as int].0@) == os[j as int].1);
                assert(os[j as int].1 > 0);
                lemma_sum_take_step(os, j as int);
                lemma_sum_take_rest(os, j + 1);
                lemma_prefix_count_step(os, j as int);
            }
            self.add(&e.0, e.1);
            j = j + 1;
        }
        proof {
            assert(os.take(n as int) =~= os);
            assert forall|key: Seq<char>| #[trigger]
                self.count_of(key) == t1.count_of(key) + other.count_of(key) by {
                lemma_prefix_count_full(os, key);
                if other.has_key(key) {
                    assert(prefix_count(os, os.len() as int, key) == other.count_of(key));
                } else {
                    assert(prefix_count(os, os.len() as int, key) == 0);
                }
            }
        }
    }

    /// The table as a ranked list: the same entries, ordered by count
    /// descending. Tie order among equal counts is unspecified.
    pub fn rank(self) -> (r: Vec<(String, u64)>)
        requires
            self.wf(),
        ensures
            forall|i: int, j: int| 0 <= i <= j < r@.len() ==> r@[i].1 >= r@[j].1,
            forall|i: int| 0 <= i < r@.len() ==> (#[trigger] r@[i]).1 > 0,
            r@.to_multiset() == self.entry_seq().to_multiset(),
            sum_counts(r@) == self.total(),
            r@.len() == self.entry_seq().len(),
    {
        broadcast use vstd::seq_lib::group_to_multiset_ensures;

        let ghost orig = self.entries@;
        let mut src = self;
        let mut out: Vec<(String, u64)> = Vec::new();
        while src.entries.len() > 0
            invariant
                forall|i: int, j: int| 0 <= i <= j < out@.len() ==> out@[i].1 >= out@[j].1,
                forall|i: int| 0 <= i < out@.len() ==> (#[trigger] out@[i]).1 > 0,
                forall|i: int| 0 <= i < src.entries@.len() ==> (#[trigger] src.entries@[i]).1 > 0,
                forall|i: int, j: int|
                    0 <= i < out@.len() && 0 <= j < src.entries@.len() ==> (#[trigger] out@[i]).1
                        >= (#[trigger] src.entries@[j]).1,
                out@.to_multiset().add(src.entries@.to_multiset()) == orig.to_multiset(),
                sum_counts(out@) + sum_counts(src.entries@) == sum_counts(orig),
                out@.len() + src.entries@.len() == orig.len(),
            decreases src.entries@.len(),
        {
            let mut best: usize = 0;
            let mut j: usize = 1;
            while j < src.entries.len()
                invariant
                    best < j <= src.entries@.len(),
                    src.entries@.len() > 0,
                    forall|m: int|
                        0 <= m < j ==> src.entries@[best as int].1 >= (
                        #[trigger] src.entries@[m]).1,
                decreases src.entries@.len() - j,
            {
                if src.entries[j].1 > src.entries[best].1 {
                    best = j;
                }
                j = j + 1;
            }
            let ghost pre_src = src.entries@;
            let ghost pre_out = out@;
            let e = src.entries.remove(best);
            out.push(e);
            proof {
                assert(e == pre_src[best as int]);
                assert(e.1 > 0);
                assert(out@ == pre_out.push(e));
                assert(src.entries@ == pre_src.remove(best as int));
                assert forall|i: int| 0 <= i < src.entries@.len() implies (
                #[trigger] src.entries@[i]).1 > 0 by {
                    if i < best {
                        assert(src.entries@[i] == pre_src[i]);
                    } else {
                        assert(src.entries@[i] == pre_src[i + 1]);
                    }
                }
                lemma_sum_remove(pre_src, best as int);
                assert(out@.drop_last() =~= pre_out);
                assert(sum_counts(out@) == sum_counts(pre_out) + e.1);
                assert(pre_out.push(e).to_multiset() =~= pre_out.to_multiset().insert(e));
                assert(pre_src.remove(best as int).to_multiset() =~= pre_src.to_multiset().remove(
                    pre_src[best as int],
                ));
                assert(pre_src.contains(e));
                assert(pre_src.to_multiset().contains(e));
                assert(out@.to_multiset().add(src.entries@.to_multiset()) =~= orig.to_multiset());
                assert forall|i: int, j2: int|
                    0 <= i < out@.len() && 0 <= j2 < src.entries@.len() implies (
                #[trigger] out@[i]).1 >= (#[trigger] src.entries@[j2]).1 by {
                    assert(src.entries@[j2] == pre_src.remove(best as int)[j2]);
                    if j2 < best {
                        assert(src.entries@[j2] == pre_src[j2]);
                    } else {
                        assert(src.entries@[j2] == pre_src[j2 + 1]);
                    }
                    if i < pre_out.len() {
                        assert(out@[i] == pre_out[i]);
                    } else {
                        assert(out@[i] == e);
                    }
                }
            }
        }
        proof {
            assert(src.entries@.to_multiset() =~= Seq::<(String, u64)>::empty().to_multiset());
            assert(out@.to_multiset() =~= orig.to_multiset());
        }
        out
    }
}

/// The counts contributed for `key` by the first `upto` entries.
pub open spec fn prefix_count(s: Seq<(String, u64)>, upto: int, key: Seq<char>) -> int
    decreases upto,
{
    if upto <= 0 {
        0
    } else {
        prefix_count(s, upto - 1, key) + if s[upto - 1].0@ == key {
            s[upto - 1].1 as int
        } else {
            0
        }
    }
}

proof fn lemma_sum_take_step(s: Seq<(String, u64)>, j: int)
    requires
        0 <= j < s.len(),
    ensures
        sum_counts(s.take(j + 1)) == sum_counts(s.take(j)) + s[j].1,
{
    assert(s.take(j + 1).drop_last() =~= s.take(j));
    assert(s.take(j + 1).last() == s[j]);
}

proof fn lemma_sum_take_rest(s: Seq<(String, u64)>, j: int)
    requires
        0 <= j <= s.len(),
    ensures
        sum_counts(s.take(j)) <= sum_counts(s),
    decreases s.len() - j,
{
    if j == s.len() {
        assert(s.take(j) =~= s);
    } else {
        lemma_sum_take_step(s, j);
        lemma_sum_take_rest(s, j + 1);
    }
}

proof fn lemma_prefix_count_step(s: Seq<(String, u64)>, j: int)
    requires
        0 <= j < s.len(),
    ensures
        prefix_count(s, j + 1, s[j].0@) == prefix_count(s, j, s[j].0@) + s[j].1,
        forall|key: Seq<char>|
            key != s[j].0@ ==> #[trigger] prefix_count(s, j + 1, key) == prefix_count(s, j, key),
{
}

/// With unique keys, the whole-sequence contribution for `key` is the
/// single entry's count, or 0 when no entry has `key`.
proof fn lemma_prefix_count_full(s: Seq<(String, u64)>, key: Seq<char>)
    requires
        forall|j: int, k: int|
            0 <= j < k < s.len() ==> (#[trigger] s[j]).0@ != (#[trigger] s[k]).0@,
    ensures
        (exists|j: int| 0 <= j < s.len() && (#[trigger] s[j]).0@ == key) ==> prefix_count(
            s,
            s.len() as int,
            key,
        ) == s[choose|j: int| 0 <= j < s.len() && (#[trigger] s[j]).0@ == key].1,
        !(exists|j: int| 0 <= j < s.len() && (#[trigger] s[j]).0@ == key) ==> prefix_count(
            s,
            s.len() as int,
            key,
        ) == 0,
{
    lemma_prefix_count_upto(s, s.len() as int, key);
}

proof fn lemma_prefix_count_upto(s: Seq<(String, u64)>, upto: int, key: Seq<char>)
    requires
        0 <= upto <= s.len(),
        forall|j: int, k: int|
            0 <= j < k < s.len() ==> (#[trigger] s[j]).0@ != (#[trigger] s[k]).0@,
    ensures
        (exists|j: int| 0 <= j < upto && (#[trigger] s[j]).0@ == key) ==> prefix_count(
            s,
            upto,
            key,
        ) == s[choose|j: int| 0 <= j < upto && (#[trigger] s[j]).0@ == key].1,
        !(exists|j: int| 0 <= j < upto && (#[trigger] s[j]).0@ == key) ==> prefix_count(
            s,
            upto,
            key,
        ) == 0,
    decreases upto,
{
    if upto > 0 {
        lemma_prefix_count_upto(s, upto - 1, key);
        if s[upto - 1].0@ == key {
            assert(!(exists|j: int| 0 <= j < upto - 1 && (#[trigger] s[j]).0@ == key)) by {
                if exists|j: int| 0 <= j < upto - 1 && (#[trigger] s[j]).0@ == key {
                    let j = choose|j: int| 0 <= j < upto - 1 && (#[trigger] s[j]).0@ == key;
                    assert(s[j].0@ != s[upto - 1].0@);
                }
            }
            let jw = choose|j: int| 0 <= j < upto && (#[trigger] s[j]).0@ == key;
            assert(jw == upto - 1) by {
                if jw < upto - 1 {
                    assert(s[jw].0@ != s[upto - 1].0@);
                }
            }
        } else {
            if exists|j: int| 0 <= j < upto && (#[trigger] s[j]).0@ == key {
                let jw = choose|j: int| 0 <= j < upto && (#[trigger] s[j]).0@ == key;
                assert(jw < upto - 1);
                assert(exists|j: int| 0 <= j < upto - 1 && (#[trigger] s[j]).0@ == key);
                let jw2 = choose|j: int| 0 <= j < upto - 1 && (#[trigger] s[j]).0@ == key;
                assert(jw == jw2) by {
                    if jw < jw2 {
                        assert(s[jw].0@ != s[jw2].0@);
                    }
                    if jw2 < jw {
                        assert(s[jw2].0@ != s[jw].0@);
                    }
                }
            }
        }
    }
}

/// For order 1, a window is boundary-free exactly when its one token is not
/// a sentence boundary, so the qualifying windows are the non-boundary
/// tokens themselves.
pub proof fn lemma_unigram_windows_are_tokens(toks: Seq<Seq<char>>, upto: int)
    requires
        0 <= upto <= toks.len(),
    ensures
        qual_windows(toks, 1, upto) == nonboundary_count(toks, upto),
    decreases upto,
{
    if upto > 0 {
        lemma_unigram_windows_are_tokens(toks, upto - 1);
    }
}

/// The sum of all order-1 counts equals the number of non-boundary tokens:
/// the total an order-1 count produces — which merging adds up and ranking
/// preserves — is the token count less the sentence boundaries.
pub proof fn lemma_unigram_total(toks: Seq<Seq<char>>)
    ensures
        qual_windows(toks, 1, window_positions(toks, 1)) == nonboundary_count(
            toks,
            toks.len() as int,
        ),
{
    if toks.len() >= 1 {
        lemma_unigram_windows_are_tokens(toks, toks.len() as int);
    }
}

/// The number of non-boundary tokens among the first `upto`.
pub open spec fn nonboundary_count(toks: Seq<Seq<char>>, upto: int) -> int
    decreases upto,
{
    if upto <= 0 {
        0
    } else {
        nonboundary_count(toks, upto - 1) + if is_boundary_token(toks[upto - 1]) {
            0int
        } else {
            1int
        }
    }
}

} // verus!
