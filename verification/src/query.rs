//! The candidate stream engine and the query-side helpers: a pull-based,
//! depth-bounded breadth-first generator over the frequency trie, seed
//! handling, and the suffix-mode record transform.

use vstd::prelude::*;
use crate::text::{split_ws, join_sp, token_ok, words_of, join_range, join_all, string_of,
    lemma_split_ws_tokens, lemma_split_append_word, lemma_split_join};
use crate::trie::{TrieNode, found_entry, path_ext, lemma_split_path_ext};
use vstd::arithmetic::power::{pow, lemma_pow_positive, lemma_pow1, lemma_pow_increases};

verus! {

/// Query options: which index instances are active, the load cutoff, and
/// the expansion depth bound.
#[derive(Debug, Clone, Copy)]
pub struct Options {
    pub prefix_mode: bool,
    pub suffix_mode: bool,
    /// Skip infrequent n-grams (faster trie building, fewer results).
    pub freq_min: u32,
    /// How many breadth-first expansions are made beyond the seed.
    pub max_depth: u32,
}

/// One advance of the candidate stream: a phrase, a search round that
/// produced no output yet, or exhaustion.
pub enum StreamStep {
    /// Frontier and output buffer are both empty: generation has ended.
    Finished,
    /// One frontier entry was expanded; ask again for output.
    Searching,
    /// The next candidate phrase.
    Phrase(String),
}

/// The candidate stream engine's state: a breadth-first frontier of
/// (phrase, depth) pairs and a stack of computed candidates not yet
/// emitted.
pub struct NgramStream {
    queue: Vec<(String, u32)>,
    pending: Vec<(String, u32)>,
    max_depth: u32,
    seed_words: Ghost<int>,
}

/// The token path an expansion looks up: the last two words of a phrase.
pub open spec fn lookup_path(phrase: Seq<char>) -> Seq<Seq<char>> {
    split_ws(phrase).skip(split_ws(phrase).len() - 2)
}

/// A candidate produced by expanding the phrase `headp`: for some non-empty
/// continuation `q` of its last two words present in the index, the phrase
/// extended by a space and `q`'s final word, carrying the stored frequency.
pub open spec fn expansion_entry(
    trie: TrieNode,
    headp: Seq<char>,
    q: Seq<Seq<char>>,
    e: (String, u32),
) -> bool {
    q.len() > 0 && trie.freq_at(lookup_path(headp) + q) is Some && e.0@ == headp + seq![' ']
        + q.last() && Some(e.1) == trie.freq_at(lookup_path(headp) + q)
}

/// A two-word seed derived from a single-word query: the space-joined
/// first two words of some continuation of the seed present in the index.
pub open spec fn seed_entry(
    trie: TrieNode,
    seedv: Seq<char>,
    q: Seq<Seq<char>>,
    text: Seq<char>,
) -> bool {
    q.len() > 0 && trie.freq_at(split_ws(seedv) + q) is Some && text == join_sp(
        (split_ws(seedv) + q).take(2),
    )
}

impl NgramStream {
    /// The number of words of the effective seed phrase.
    pub closed spec fn seed_len(self) -> int {
        self.seed_words@
    }

    pub closed spec fn depth_limit(self) -> u32 {
        self.max_depth
    }

    /// The largest depth label a frontier entry can carry: `max_depth` for
    /// a multi-word seed, except that a single-word seed enters derived
    /// two-word phrases at depth 1 even when `max_depth` is 0.
    pub closed spec fn depth_cap(self) -> int {
        if self.seed_words@ >= 2 {
            self.max_depth as int
        } else if self.max_depth >= 1 {
            self.max_depth as int
        } else {
            1
        }
    }

    /// Every frontier entry's depth stays within the cap, and each word of
    /// a frontier phrase beyond the seed records one past expansion: with
    /// `next`'s pairing clause — every appended entry one level deeper than
    /// the consumed head — these are the facts the stream's finiteness
    /// rests on.
    pub proof fn lemma_frontier_depths_bounded(self)
        requires
            self.wf(),
        ensures
            forall|i: int|
                0 <= i < self.frontier_model().len() ==> (#[trigger] self.frontier_model()[i]).1
                    <= self.depth_cap(),
            forall|i: int|
                0 <= i < self.frontier_model().len() ==> split_ws(
                    (#[trigger] self.frontier_model()[i]).0@,
                ).len() == self.seed_len() + self.frontier_model()[i].1,
    {
    }

    /// How the depth cap relates to the configured expansion bound.
    pub proof fn lemma_depth_cap(self)
        ensures
            self.seed_len() >= 2 ==> self.depth_cap() == self.depth_limit() as int,
            self.seed_len() < 2 ==> self.depth_cap() == if self.depth_limit() >= 1 {
                self.depth_limit() as int
            } else {
                1int
            },
    {
    }

    /// The frontier of (phrase, depth) pairs awaiting expansion, earliest
    /// first.
    pub closed spec fn frontier_model(self) -> Seq<(String, u32)> {
        self.queue@
    }

    /// The already-computed candidates not yet emitted; the last is emitted
    /// first.
    pub closed spec fn buffer_model(self) -> Seq<(String, u32)> {
        self.pending@
    }

    /// Nothing is left to emit or expand.
    pub closed spec fn is_done(self) -> bool {
        self.queue@.len() == 0 && self.pending@.len() == 0
    }

    /// Frontier entries carry their distance from the seed in words and
    /// stay within the depth cap; buffered candidates stay within one
    /// expansion beyond it.
    pub closed spec fn wf(self) -> bool {
        &&& self.seed_words@ >= 1
        &&& (forall|i: int|
            0 <= i < self.queue@.len() ==> {
                &&& (#[trigger] self.queue@[i]).1 <= self.depth_cap()
                &&& split_ws(self.queue@[i].0@).len() == self.seed_words@ + self.queue@[i].1
                &&& split_ws(self.queue@[i].0@).len() >= 2
            })
        &&& (forall|i: int|
            0 <= i < self.pending@.len() ==> split_ws((#[trigger] self.pending@[i]).0@).len()
                <= self.seed_words@ + self.depth_cap() + 1)
    }

    /// A fresh, exhausted stream; `stream_ngrams` builds the seeded ones.
    pub fn new(max_depth: u32) -> (s: NgramStream)
        ensures
            s.wf(),
            s.is_done(),
            s.depth_limit() == max_depth,
    {
        NgramStream { queue: Vec::new(), pending: Vec::new(), max_depth, seed_words: Ghost(1) }
    }

    /// Advance the stream one step: emit a buffered candidate if one is
    /// ready, otherwise expand the earliest frontier entry — looking up the
    /// last two words of its phrase and buffering every extension by the
    /// continuation's final new word, re-queueing extensions whose depth
    /// allows further expansion.
    #[verifier::rlimit(100)]
    #[verifier::spinoff_prover]
    pub fn next(&mut self, trie: &TrieNode) -> (r: StreamStep)
        requires
            trie.wf(),
            old(self).wf(),
        ensures
            final(self).wf(),
            final(self).depth_limit() == old(self).depth_limit(),
            final(self).seed_len() == old(self).seed_len(),
            (r is Finished) <==> old(self).is_done(),
            r is Finished ==> final(self).is_done(),
            r matches StreamStep::Phrase(p) ==> split_ws(p@).len() <= old(self).seed_len() + old(
                self,
            ).depth_cap() + 1,
            r matches StreamStep::Phrase(p) ==> old(self).buffer_model().len() > 0 && p == old(
                self,
            ).buffer_model().last().0 && final(self).buffer_model() == old(
                self,
            ).buffer_model().drop_last() && final(self).frontier_model() == old(
                self,
            ).frontier_model(),
            r is Searching ==> old(self).buffer_model().len() == 0 && old(
                self,
            ).frontier_model().len() > 0 && final(self).frontier_model().take(
                old(self).frontier_model().len() - 1,
            ) == old(self).frontier_model().skip(1),
            r is Searching ==> (forall|i: int|
                0 <= i < final(self).buffer_model().len() ==> split_ws(
                    (#[trigger] final(self).buffer_model()[i]).0@,
                ) == split_ws(old(self).frontier_model()[0].0@).push(
                    split_ws(final(self).buffer_model()[i].0@).last(),
                )),
            // Every buffered candidate is an index-licensed extension of the
            // expanded head phrase, witnessed path by path ...
            r is Searching ==> (exists|qs: Seq<Seq<Seq<char>>>|
                #![trigger qs.len()]
                qs.len() == final(self).buffer_model().len() && (forall|i: int|
                    #![trigger qs[i]]
                    0 <= i < final(self).buffer_model().len() ==> expansion_entry(
                        *trie,
                        old(self).frontier_model()[0].0@,
                        qs[i],
                        final(self).buffer_model()[i],
                    ))),
            // ... and every index continuation of its last two words is
            // buffered.
            r is Searching ==> (forall|q: Seq<Seq<char>>|
                q.len() > 0 && (#[trigger] trie.freq_at(
                    lookup_path(old(self).frontier_model()[0].0@) + q,
                )) is Some ==> exists|i: int|
                    0 <= i < final(self).buffer_model().len() && expansion_entry(
                        *trie,
                        old(self).frontier_model()[0].0@,
                        q,
                        final(self).buffer_model()[i],
                    )),
            // The appended frontier mirrors the buffer one level deeper,
            // exactly when the head's depth allowed further expansion.
            r is Searching ==> (old(self).frontier_model()[0].1 < old(self).depth_limit()
                ==> final(self).frontier_model().len() == old(self).frontier_model().len() - 1
                + final(self).buffer_model().len() && (forall|k: int|
                old(self).frontier_model().len() - 1 <= k < final(self).frontier_model().len()
                    ==> (#[trigger] final(self).frontier_model()[k]) == (
                final(self).buffer_model()[k - (old(self).frontier_model().len() - 1)].0,
                (old(self).frontier_model()[0].1 + 1) as u32))),
            r is Searching ==> (old(self).frontier_model()[0].1 >= old(self).depth_limit()
                ==> final(self).frontier_model().len() == old(self).frontier_model().len() - 1),
    {
        if self.pending.len() > 0 {
            let e = self.pending.pop().unwrap();
            return StreamStep::Phrase(e.0);
        }
        if self.queue.len() == 0 {
            return StreamStep::Finished;
        }
        let ghost sw = self.seed_words@;
        let ghost md = self.max_depth;
        let ghost cap = self.depth_cap();
        let ghost q0 = self.queue@;
        let head = self.queue.remove(0);
        proof {
            assert(self.queue@ =~= q0.skip(1));
        }
        let ghost q1 = self.queue@;
        let cur = head.0;
        let depth = head.1;
        proof {
            assert(old(self).queue@[0] == (cur, depth));
            assert(split_ws(cur@).len() >= 2);
            assert(split_ws(cur@).len() == sw + depth);
            assert(depth <= cap);
        }
        expand_head(trie, &cur, depth, self.max_depth, &mut self.pending, &mut self.queue);
        proof {
            let headp = old(self).frontier_model()[0].0@;
            assert(headp == cur@);
            // The stream stays well formed.
            assert forall|i: int|
                0 <= i < self.queue@.len() implies {
                &&& (#[trigger] self.queue@[i]).1 <= self.depth_cap()
                &&& split_ws(self.queue@[i].0@).len() == self.seed_words@ + self.queue@[i].1
                &&& split_ws(self.queue@[i].0@).len() >= 2
            } by {
                if i < q1.len() {
                    assert(self.queue@[i] == q1[i]);
                    assert(q1[i] == old(self).queue@[i + 1]);
                } else {
                    assert(self.queue@[i] == (self.pending@[i - q1.len()].0, (depth + 1) as u32));
                    assert(split_ws(self.pending@[i - q1.len()].0@) == split_ws(cur@).push(
                        split_ws(self.pending@[i - q1.len()].0@).last(),
                    ));
                }
            }
            assert forall|i: int|
                0 <= i < self.pending@.len() implies split_ws(
                (#[trigger] self.pending@[i]).0@,
            ).len() <= self.seed_words@ + self.depth_cap() + 1 by {
                assert(split_ws(self.pending@[i].0@) == split_ws(cur@).push(
                    split_ws(self.pending@[i].0@).last(),
                ));
            }
            assert(self.wf());
            // Buffered candidates are exactly the index's continuations.
            assert(lookup_path(headp) == lookup_path(cur@));
            let qs = choose|qs: Seq<Seq<Seq<char>>>|
                #![trigger qs.len()]
                qs.len() == self.pending@.len() && (forall|i: int|
                    #![trigger qs[i]]
                    0 <= i < self.pending@.len() ==> expansion_entry(
                        *trie,
                        cur@,
                        qs[i],
                        self.pending@[i],
                    ));
            assert forall|i: int|
                #![trigger qs[i]]
                0 <= i < self.pending@.len() implies expansion_entry(
                *trie,
                headp,
                qs[i],
                self.pending@[i],
            ) by {
                assert(expansion_entry(*trie, cur@, qs[i], self.pending@[i]));
            }
            assert(qs.len() == self.pending@.len() && (forall|i: int|
                #![trigger qs[i]]
                0 <= i < self.pending@.len() ==> expansion_entry(
                    *trie,
                    headp,
                    qs[i],
                    self.pending@[i],
                )));
            assert forall|q: Seq<Seq<char>>|
                q.len() > 0 && (#[trigger] trie.freq_at(lookup_path(headp) + q)) is Some implies exists|
                i: int,
            |
                0 <= i < self.pending@.len() && expansion_entry(
                    *trie,
                    headp,
                    q,
                    self.pending@[i],
                ) by {
                assert(trie.freq_at(lookup_path(cur@) + q) is Some);
                let i = choose|i: int|
                    0 <= i < self.pending@.len() && expansion_entry(
                        *trie,
                        cur@,
                        q,
                        #[trigger] self.pending@[i],
                    );
                assert(0 <= i < self.pending@.len() && expansion_entry(
                    *trie,
                    headp,
                    q,
                    self.pending@[i],
                ));
            }
        }
        StreamStep::Searching
    }
}

/// One breadth-first expansion of the phrase `cur` at depth `depth`: look
/// up its last two words in the index, buffer every continuation as a
/// one-word extension carrying the stored frequency, and re-queue each
/// extension one level deeper when `depth` allows further expansion.
#[verifier::rlimit(100)]
#[verifier::spinoff_prover]
fn expand_head(
    trie: &TrieNode,
    cur: &String,
    depth: u32,
    max_depth: u32,
    pending: &mut Vec<(String, u32)>,
    queue: &mut Vec<(String, u32)>,
)
    requires
        trie.wf(),
        split_ws(cur@).len() >= 2,
        old(pending)@.len() == 0,
    ensures
        forall|k: int|
            0 <= k < old(queue)@.len() ==> #[trigger] final(queue)@[k] == old(queue)@[k],
        forall|i: int|
            0 <= i < final(pending)@.len() ==> split_ws((#[trigger] final(pending)@[i]).0@)
                == split_ws(cur@).push(split_ws(final(pending)@[i].0@).last()),
        exists|qs: Seq<Seq<Seq<char>>>|
            #![trigger qs.len()]
            qs.len() == final(pending)@.len() && (forall|i: int|
                #![trigger qs[i]]
                0 <= i < final(pending)@.len() ==> expansion_entry(
                    *trie,
                    cur@,
                    qs[i],
                    final(pending)@[i],
                )),
        forall|q: Seq<Seq<char>>|
            q.len() > 0 && (#[trigger] trie.freq_at(lookup_path(cur@) + q)) is Some
                ==> exists|i: int|
                0 <= i < final(pending)@.len() && expansion_entry(
                    *trie,
                    cur@,
                    q,
                    final(pending)@[i],
                ),
        depth < max_depth ==> final(queue)@.len() == old(queue)@.len() + final(pending)@.len()
            && (forall|k: int|
            old(queue)@.len() <= k < final(queue)@.len() ==> (#[trigger] final(queue)@[k]) == (
            final(pending)@[k - old(queue)@.len()].0, (depth + 1) as u32)),
        depth >= max_depth ==> final(queue)@ == old(queue)@,
{
    let words = words_of(cur.as_str());
    let ghost cw = split_ws(cur@);
    proof {
        assert(words.deep_view().len() >= 2);
        assert(words@.len() == words.deep_view().len());
    }
    let prefix = join_range(&words, words.len() - 2, words.len());
    let ghost pp = cw.skip(cw.len() - 2);
    proof {
        lemma_split_ws_tokens(cur@);
        assert(words.deep_view().subrange(
            words.deep_view().len() - 2,
            words.deep_view().len() as int,
        ) =~= pp);
        assert(forall|k: int| 0 <= k < pp.len() ==> token_ok(#[trigger] pp[k]));
        lemma_split_join(pp);
        assert(split_ws(prefix@) == pp);
        assert(pp == lookup_path(cur@));
    }
    let results = trie.lookup_entries(prefix.as_str());
    let ghost mut qs: Seq<Seq<Seq<char>>> = Seq::empty();
    let mut j: usize = 0;
    while j < results.len()
        invariant
            trie.wf(),
            j <= results@.len(),
            cw == split_ws(cur@),
            pp == cw.skip(cw.len() - 2),
            pp == lookup_path(cur@),
            cw.len() >= 2,
            split_ws(prefix@) == pp,
            forall|i: int| 0 <= i < results@.len() ==> found_entry(
                *trie,
                prefix@,
                #[trigger] results@[i],
            ),
            pending@.len() == j,
            qs.len() == j,
            forall|jj: int|
                0 <= jj < j ==> (#[trigger] pending@[jj]).0@ == cur@ + seq![' '] + split_ws(
                    results@[jj].0@,
                ).last() && pending@[jj].1 == results@[jj].1,
            forall|jj: int|
                0 <= jj < j ==> split_ws((#[trigger] pending@[jj]).0@) == split_ws(cur@).push(
                    split_ws(pending@[jj].0@).last(),
                ),
            forall|jj: int|
                #![trigger qs[jj]]
                0 <= jj < j ==> expansion_entry(*trie, cur@, qs[jj], pending@[jj]),
            old(queue)@.len() <= queue@.len(),
            forall|k: int| 0 <= k < old(queue)@.len() ==> #[trigger] queue@[k] == old(queue)@[k],
            depth < max_depth ==> queue@.len() == old(queue)@.len() + j && (forall|k: int|
                old(queue)@.len() <= k < queue@.len() ==> (#[trigger] queue@[k]) == (
                pending@[k - old(queue)@.len()].0, (depth + 1) as u32)),
            depth >= max_depth ==> queue@ == old(queue)@,
        decreases results@.len() - j,
    {
        proof {
            assert(found_entry(*trie, prefix@, results@[j as int]));
        }
        let ghost q = choose|q: Seq<Seq<char>>|
            q.len() > 0 && (#[trigger] trie.freq_at(split_ws(prefix@) + q)) is Some
                && results@[j as int].0@ == path_ext(prefix@, q) && Some(results@[j as int].1)
                == trie.freq_at(split_ws(prefix@) + q);
        proof {
            assert(trie.freq_at(pp + q) is Some);
            trie.lemma_path_tokens_ok(pp + q);
            assert forall|k: int| 0 <= k < q.len() implies token_ok(#[trigger] q[k]) by {
                assert((pp + q)[pp.len() + k] == q[k]);
            }
            lemma_split_path_ext(prefix@, q);
            assert(split_ws(results@[j as int].0@) == pp + q);
        }
        let nw = words_of(results[j].0.as_str());
        proof {
            assert(nw.deep_view() == pp + q);
            assert(nw@.len() == nw.deep_view().len());
            assert(nw@.len() >= 3);
        }
        let last = &nw[nw.len() - 1];
        let mut np = cur.clone();
        np.append(" ");
        np.append(last.as_str());
        proof {
            reveal_strlit(" ");
            assert(" "@ =~= seq![' ']);
            let w = last@;
            assert(w == split_ws(results@[j as int].0@)[nw@.len() - 1]);
            assert(token_ok(w));
            assert(np@ =~= cur@ + seq![' '] + w);
            lemma_split_append_word(cur@, w);
            assert(split_ws(np@).len() == split_ws(cur@).len() + 1);
            assert(w == (pp + q).last());
            assert((pp + q).last() == q.last());
            assert(np@ == cur@ + seq![' '] + split_ws(results@[j as int].0@).last());
        }
        let freq = results[j].1;
        if depth < max_depth {
            let np2 = np.clone();
            pending.push((np, freq));
            let ghost qpre = queue@;
            queue.push((np2, depth + 1));
        } else {
            pending.push((np, freq));
        }
        proof {
            qs = qs.push(q);
            assert(expansion_entry(*trie, cur@, q, pending@[j as int]));
        }
        j = j + 1;
    }
    proof {
        assert(qs.len() == pending@.len() && (forall|i: int|
            #![trigger qs[i]]
            0 <= i < pending@.len() ==> expansion_entry(*trie, cur@, qs[i], pending@[i])));
        lemma_expansion_complete(*trie, prefix@, cur@, results@, pending@);
    }
}

/// When every lookup result has been buffered as a one-word extension of
/// the expanded phrase, every index continuation of its last two words is
/// buffered too.
proof fn lemma_expansion_complete(
    trie: TrieNode,
    prefixv: Seq<char>,
    curv: Seq<char>,
    results: Seq<(String, u32)>,
    pend: Seq<(String, u32)>,
)
    requires
        trie.wf(),
        split_ws(prefixv) == lookup_path(curv),
        trie.freq_at(split_ws(prefixv)) is Some ==> (forall|q: Seq<Seq<char>>|
            q.len() > 0 && (#[trigger] trie.freq_at(split_ws(prefixv) + q)) is Some
                ==> exists|i: int|
                0 <= i < results.len() && results[i].0@ == path_ext(prefixv, q) && Some(
                    results[i].1,
                ) == trie.freq_at(split_ws(prefixv) + q)),
        pend.len() == results.len(),
        forall|jj: int|
            0 <= jj < results.len() ==> (#[trigger] pend[jj]).0@ == curv + seq![' '] + split_ws(
                results[jj].0@,
            ).last() && pend[jj].1 == results[jj].1,
    ensures
        forall|q: Seq<Seq<char>>|
            q.len() > 0 && (#[trigger] trie.freq_at(lookup_path(curv) + q)) is Some
                ==> exists|i: int|
                0 <= i < pend.len() && expansion_entry(trie, curv, q, pend[i]),
{
    let pp = lookup_path(curv);
    assert forall|q: Seq<Seq<char>>|
        q.len() > 0 && (#[trigger] trie.freq_at(pp + q)) is Some implies exists|i: int|
        0 <= i < pend.len() && expansion_entry(trie, curv, q, pend[i]) by {
        assert(trie.freq_at(split_ws(prefixv)) is Some) by {
            if trie.freq_at(pp) is None {
                trie.lemma_freq_at_absent(pp, q);
                assert(false);
            }
        }
        assert(trie.freq_at(split_ws(prefixv) + q) is Some);
        let jj = choose|jj: int|
            0 <= jj < results.len() && results[jj].0@ == path_ext(prefixv, q) && Some(
                results[jj].1,
            ) == trie.freq_at(split_ws(prefixv) + q);
        trie.lemma_path_tokens_ok(pp + q);
        assert forall|k: int| 0 <= k < q.len() implies token_ok(#[trigger] q[k]) by {
            assert((pp + q)[pp.len() + k] == q[k]);
        }
        lemma_split_path_ext(prefixv, q);
        assert(split_ws(results[jj].0@) == pp + q);
        assert(split_ws(results[jj].0@).last() == q.last());
        assert(expansion_entry(trie, curv, q, pend[jj]));
        assert(0 <= jj < pend.len() && expansion_entry(trie, curv, q, pend[jj]));
    }
}

/// The weight a frontier entry at depth `d` contributes to the stream's
/// potential, under depth cap `cap` and fanout bound `n`: replacing one
/// entry by at most `n` entries one level deeper always loses weight.
pub open spec fn entry_weight(n: int, cap: int, d: int) -> int {
    pow(n + 1, (cap + 1 - d) as nat)
}

/// The summed weight of a frontier.
pub open spec fn frontier_potential(entries: Seq<(String, u32)>, n: int, cap: int) -> int
    decreases entries.len(),
{
    if entries.len() == 0 {
        0
    } else {
        frontier_potential(entries.drop_last(), n, cap) + entry_weight(
            n,
            cap,
            entries.last().1 as int,
        )
    }
}

/// The whole stream's potential: frontier weight plus buffered candidates.
pub open spec fn stream_potential(s: NgramStream, n: int) -> int {
    frontier_potential(s.frontier_model(), n, s.depth_cap()) + s.buffer_model().len()
}

proof fn lemma_fp_concat(a: Seq<(String, u32)>, b: Seq<(String, u32)>, n: int, cap: int)
    ensures
        frontier_potential(a + b, n, cap) == frontier_potential(a, n, cap) + frontier_potential(
            b,
            n,
            cap,
        ),
    decreases b.len(),
{
    if b.len() == 0 {
        assert(a + b =~= a);
    } else {
        assert((a + b).drop_last() =~= a + b.drop_last());
        assert((a + b).last() == b.last());
        lemma_fp_concat(a, b.drop_last(), n, cap);
    }
}

proof fn lemma_fp_uniform(entries: Seq<(String, u32)>, n: int, cap: int, d: int)
    requires
        forall|i: int| 0 <= i < entries.len() ==> (#[trigger] entries[i]).1 == d,
    ensures
        frontier_potential(entries, n, cap) == entries.len() * entry_weight(n, cap, d),
    decreases entries.len(),
{
    if entries.len() > 0 {
        assert(forall|i: int|
            0 <= i < entries.len() - 1 ==> (#[trigger] entries.drop_last()[i]).1 == d);
        lemma_fp_uniform(entries.drop_last(), n, cap, d);
        assert(entries.last().1 == d);
        assert((entries.len() - 1) * entry_weight(n, cap, d) + entry_weight(n, cap, d)
            == entries.len() * entry_weight(n, cap, d)) by (nonlinear_arith);
    }
}

/// Whole-stream finiteness: any advance of the stream — emitting a
/// buffered candidate, or expanding a frontier head into at most `n`
/// candidates one level deeper, as `next`'s contract describes — strictly
/// decreases this potential, so after finitely many calls the stream is
/// exhausted.
pub proof fn lemma_step_decreases_potential(
    pre: NgramStream,
    post: NgramStream,
    n: int,
    phrase: bool,
)
    requires
        pre.wf(),
        post.wf(),
        n >= 1,
        post.depth_cap() == pre.depth_cap(),
        post.depth_limit() == pre.depth_limit(),
        phrase ==> pre.buffer_model().len() > 0 && post.buffer_model() == pre.buffer_model()
            .drop_last() && post.frontier_model() == pre.frontier_model(),
        !phrase ==> {
            &&& pre.buffer_model().len() == 0
            &&& pre.frontier_model().len() > 0
            &&& post.buffer_model().len() <= n
            &&& post.frontier_model().take(pre.frontier_model().len() - 1) == pre.frontier_model(
            ).skip(1)
            &&& (pre.frontier_model()[0].1 < pre.depth_limit() ==> post.frontier_model().len()
                == pre.frontier_model().len() - 1 + post.buffer_model().len() && (forall|k: int|
                pre.frontier_model().len() - 1 <= k < post.frontier_model().len() ==> (
                #[trigger] post.frontier_model()[k]).1 == pre.frontier_model()[0].1 + 1))
            &&& (pre.frontier_model()[0].1 >= pre.depth_limit() ==> post.frontier_model().len()
                == pre.frontier_model().len() - 1)
        },
    ensures
        stream_potential(post, n) < stream_potential(pre, n),
{
    reveal(pow);
    let cap = pre.depth_cap();
    if phrase {
        assert(stream_potential(post, n) == stream_potential(pre, n) - 1);
    } else {
        let pf = pre.frontier_model();
        let head = pf[0];
        let d0 = head.1 as int;
        let rest = pf.skip(1);
        assert(head.1 <= cap && d0 <= cap);
        assert(pf =~= seq![head] + rest);
        lemma_fp_concat(seq![head], rest, n, cap);
        assert(seq![head].drop_last() =~= Seq::<(String, u32)>::empty());
        assert(frontier_potential(seq![head].drop_last(), n, cap) == 0);
        assert(seq![head].last() == head);
        assert(frontier_potential(seq![head], n, cap) == entry_weight(n, cap, d0));
        let w = entry_weight(n, cap, d0);
        let e1 = (cap + 1 - d0) as nat;
        assert(e1 >= 1);
        lemma_pow_positive(n + 1, (e1 - 1) as nat);
        lemma_pow1(n + 1);
        lemma_pow_increases((n + 1) as nat, 1, (e1 - 1) as nat + 1);
        assert(pow(n + 1, 1) == n + 1);
        assert(w == pow(n + 1, e1));
        assert(w >= n + 1);
        let qf = post.frontier_model();
        let kept = qf.take(pf.len() - 1);
        let appended = qf.skip(pf.len() - 1);
        assert(qf =~= kept + appended);
        lemma_fp_concat(kept, appended, n, cap);
        assert(kept == rest);
        if head.1 >= pre.depth_limit() {
            assert(appended.len() == 0);
            assert(frontier_potential(appended, n, cap) == 0);
            assert(stream_potential(post, n) == frontier_potential(rest, n, cap)
                + post.buffer_model().len());
            assert(post.buffer_model().len() <= n);
            assert(stream_potential(pre, n) == frontier_potential(rest, n, cap) + w);
        } else {
            let b = post.buffer_model().len() as int;
            assert(appended.len() == b);
            assert(forall|i: int|
                0 <= i < appended.len() ==> (#[trigger] appended[i]).1 == head.1 + 1);
            lemma_fp_uniform(appended, n, cap, d0 + 1);
            let p = entry_weight(n, cap, d0 + 1);
            assert(p == pow(n + 1, (cap - d0) as nat));
            assert(e1 == (cap - d0) as nat + 1);
            assert(w == (n + 1) * p) by {
                assert(pow(n + 1, (cap - d0) as nat + 1) == (n + 1) * pow(
                    n + 1,
                    (cap - d0) as nat,
                ));
            }
            assert(cap - d0 >= 1) by {
                pre.lemma_depth_cap();
            }
            lemma_pow_increases((n + 1) as nat, 1, (cap - d0) as nat);
            assert(p >= n + 1);
            assert(b * p + b < (n + 1) * p) by (nonlinear_arith)
                requires
                    0 <= b <= n,
                    p >= n + 1,
                    n >= 1,
            ;
            assert(stream_potential(post, n) == frontier_potential(rest, n, cap) + b * p + b);
            assert(stream_potential(pre, n) == frontier_potential(rest, n, cap) + w);
        }
    }
}

/// A stream seeded as the orchestrator does: a seed of two or more words
/// enters the frontier at depth 0; a single-word seed is first looked up
/// directly, each distinct two-word continuation is buffered as an
/// immediate candidate and enters the frontier at depth 1.
pub fn stream_ngrams(trie: &TrieNode, seed: &str, max_depth: u32) -> (s: NgramStream)
    requires
        trie.wf(),
        split_ws(seed@).len() >= 1,
    ensures
        s.wf(),
        s.depth_limit() == max_depth,
        s.seed_len() == if split_ws(seed@).len() >= 2 {
            split_ws(seed@).len() as int
        } else {
            1int
        },
        split_ws(seed@).len() >= 2 ==> s.frontier_model().len() == 1 && s.frontier_model()[0].0@
            == seed@ && s.frontier_model()[0].1 == 0 && s.buffer_model() == Seq::<(
            String,
            u32,
        )>::empty(),
        split_ws(seed@).len() < 2 ==> {
            &&& s.frontier_model().len() == s.buffer_model().len()
            &&& (forall|i: int|
                0 <= i < s.frontier_model().len() ==> (#[trigger] s.frontier_model()[i]).0@
                    == s.buffer_model()[i].0@ && s.frontier_model()[i].1 == 1
                    && split_ws(s.frontier_model()[i].0@).len() == 2)
        },
        // A single-word seed is looked up: the buffered pairs are exactly
        // the distinct two-word prefixes of its continuations in the index.
        split_ws(seed@).len() < 2 ==> (exists|qs: Seq<Seq<Seq<char>>>|
            #![trigger qs.len()]
            qs.len() == s.buffer_model().len() && (forall|i: int|
                #![trigger qs[i]]
                0 <= i < s.buffer_model().len() ==> seed_entry(
                    *trie,
                    seed@,
                    qs[i],
                    s.buffer_model()[i].0@,
                ))),
        split_ws(seed@).len() < 2 ==> (forall|q: Seq<Seq<char>>|
            q.len() > 0 && (#[trigger] trie.freq_at(split_ws(seed@) + q)) is Some
                ==> exists|i: int|
                0 <= i < s.buffer_model().len() && (#[trigger] s.buffer_model()[i]).0@ == join_sp(
                    (split_ws(seed@) + q).take(2),
                )),
        split_ws(seed@).len() < 2 ==> (forall|i1: int, i2: int|
            0 <= i1 < i2 < s.buffer_model().len() ==> (#[trigger] s.buffer_model()[i1]).0@ != (
            #[trigger] s.buffer_model()[i2]).0@),
{
    let words = words_of(seed);
    proof {
        assert(words@.len() == words.deep_view().len());
    }
    if words.len() >= 2 {
        let mut s = NgramStream {
            queue: Vec::new(),
            pending: Vec::new(),
            max_depth,
            seed_words: Ghost(split_ws(seed@).len() as int),
        };
        let seed_string = seed.to_owned();
        s.queue.push((seed_string, 0));
        proof {
            assert forall|i: int| 0 <= i < s.queue@.len() implies {
                &&& (#[trigger] s.queue@[i]).1 <= s.depth_cap()
                &&& split_ws(s.queue@[i].0@).len() == s.seed_words@ + s.queue@[i].1
                &&& split_ws(s.queue@[i].0@).len() >= 2
            } by {
                assert(s.queue@[i].0@ == seed@);
            }
        }
        s
    } else {
        let seeds = collect_two_word_seeds(trie, seed);
        let mut s = NgramStream {
            queue: Vec::new(),
            pending: Vec::new(),
            max_depth,
            seed_words: Ghost(1),
        };
        let mut m: usize = 0;
        while m < seeds.len()
            invariant
                m <= seeds@.len(),
                forall|k: int| 0 <= k < seeds@.len() ==> split_ws((#[trigger] seeds@[k])@).len()
                    == 2,
                s.wf(),
                s.seed_words@ == 1,
                s.max_depth == max_depth,
                s.queue@.len() == s.pending@.len(),
                s.pending@.len() == m,
                forall|i: int| 0 <= i < m ==> (#[trigger] s.pending@[i]).0@ == seeds@[i]@,
                forall|i: int|
                    0 <= i < s.queue@.len() ==> (#[trigger] s.queue@[i]).0@ == s.pending@[i].0@
                        && s.queue@[i].1 == 1 && split_ws(s.queue@[i].0@).len() == 2,
            decreases seeds@.len() - m,
        {
            let two = seeds[m].clone();
            let two2 = two.clone();
            s.pending.push((two, 0));
            s.queue.push((two2, 1));
            m = m + 1;
        }
        proof {
            let qs = choose|qs: Seq<Seq<Seq<char>>>|
                #![trigger qs.len()]
                qs.len() == seeds@.len() && (forall|i: int|
                    #![trigger qs[i]]
                    0 <= i < seeds@.len() ==> seed_entry(*trie, seed@, qs[i], seeds@[i]@));
            assert forall|i: int|
                #![trigger qs[i]]
                0 <= i < s.pending@.len() implies seed_entry(
                *trie,
                seed@,
                qs[i],
                s.pending@[i].0@,
            ) by {
                assert(seed_entry(*trie, seed@, qs[i], seeds@[i]@));
            }
            assert(qs.len() == s.pending@.len() && (forall|i: int|
                #![trigger qs[i]]
                0 <= i < s.pending@.len() ==> seed_entry(*trie, seed@, qs[i], s.pending@[i].0@)));
            assert forall|q: Seq<Seq<char>>|
                q.len() > 0 && (#[trigger] trie.freq_at(split_ws(seed@) + q)) is Some implies exists|
                i: int,
            |
                0 <= i < s.pending@.len() && (#[trigger] s.pending@[i]).0@ == join_sp(
                    (split_ws(seed@) + q).take(2),
                ) by {
                let i = choose|i: int|
                    0 <= i < seeds@.len() && (#[trigger] seeds@[i])@ == join_sp(
                        (split_ws(seed@) + q).take(2),
                    );
                assert(0 <= i < s.pending@.len() && s.pending@[i].0@ == join_sp(
                    (split_ws(seed@) + q).take(2),
                ));
            }
        }
        s
    }
}

/// The distinct two-word prefixes of the seed's continuations in the
/// index, in first-appearance order.
#[verifier::rlimit(100)]
#[verifier::spinoff_prover]
fn collect_two_word_seeds(trie: &TrieNode, seed: &str) -> (seeds: Vec<String>)
    requires
        trie.wf(),
        split_ws(seed@).len() == 1,
    ensures
        forall|m: int| 0 <= m < seeds@.len() ==> split_ws((#[trigger] seeds@[m])@).len() == 2,
        exists|qs: Seq<Seq<Seq<char>>>|
            #![trigger qs.len()]
            qs.len() == seeds@.len() && (forall|m: int|
                #![trigger qs[m]]
                0 <= m < seeds@.len() ==> seed_entry(*trie, seed@, qs[m], seeds@[m]@)),
        forall|q: Seq<Seq<char>>|
            q.len() > 0 && (#[trigger] trie.freq_at(split_ws(seed@) + q)) is Some ==> exists|
                m: int,
            |
                0 <= m < seeds@.len() && (#[trigger] seeds@[m])@ == join_sp(
                    (split_ws(seed@) + q).take(2),
                ),
        forall|m1: int, m2: int|
            0 <= m1 < m2 < seeds@.len() ==> (#[trigger] seeds@[m1])@ != (
            #[trigger] seeds@[m2])@,
{
    let results = trie.lookup_entries(seed);
    let mut seeds: Vec<String> = Vec::new();
    let ghost mut qs: Seq<Seq<Seq<char>>> = Seq::empty();
    let mut j: usize = 0;
    while j < results.len()
        invariant
            trie.wf(),
            split_ws(seed@).len() == 1,
            j <= results@.len(),
            forall|i: int| 0 <= i < results@.len() ==> found_entry(
                *trie,
                seed@,
                #[trigger] results@[i],
            ),
            forall|m: int| 0 <= m < seeds@.len() ==> split_ws((#[trigger] seeds@[m])@).len() == 2,
            qs.len() == seeds@.len(),
            forall|m: int|
                #![trigger qs[m]]
                0 <= m < seeds@.len() ==> seed_entry(*trie, seed@, qs[m], seeds@[m]@),
            forall|jj: int|
                0 <= jj < j ==> exists|m: int|
                    0 <= m < seeds@.len() && (#[trigger] seeds@[m])@ == join_sp(
                        split_ws((#[trigger] results@[jj]).0@).take(2),
                    ),
            forall|m1: int, m2: int|
                0 <= m1 < m2 < seeds@.len() ==> (#[trigger] seeds@[m1])@ != (
                #[trigger] seeds@[m2])@,
        decreases results@.len() - j,
    {
        proof {
            assert(found_entry(*trie, seed@, results@[j as int]));
        }
        let ghost q = choose|q: Seq<Seq<char>>|
            q.len() > 0 && (#[trigger] trie.freq_at(split_ws(seed@) + q)) is Some
                && results@[j as int].0@ == path_ext(seed@, q) && Some(results@[j as int].1)
                == trie.freq_at(split_ws(seed@) + q);
        let ghost sws = split_ws(seed@);
        proof {
            trie.lemma_path_tokens_ok(sws + q);
            assert forall|k: int| 0 <= k < q.len() implies token_ok(#[trigger] q[k]) by {
                assert((sws + q)[sws.len() + k] == q[k]);
            }
            lemma_split_path_ext(seed@, q);
            assert(split_ws(results@[j as int].0@) == sws + q);
        }
        let nw = words_of(results[j].0.as_str());
        proof {
            assert(nw.deep_view() == sws + q);
            assert(nw@.len() == nw.deep_view().len());
            assert(nw@.len() >= 2);
        }
        let two = join_range(&nw, 0, 2);
        proof {
            lemma_split_ws_tokens(results@[j as int].0@);
            let dv = nw.deep_view();
            assert(forall|k: int| 0 <= k < 2 ==> token_ok(#[trigger] dv.subrange(0, 2)[k]));
            lemma_split_join(dv.subrange(0, 2));
            assert(dv.subrange(0, 2) =~= (sws + q).take(2));
            assert(two@ == join_sp((sws + q).take(2)));
        }
        let ghost pre = seeds@;
        if !contains_string(&seeds, &two) {
            seeds.push(two);
            proof {
                qs = qs.push(q);
                assert(seed_entry(*trie, seed@, q, seeds@[pre.len() as int]@));
                assert(seeds@[pre.len() as int]@ == join_sp(split_ws(results@[j as int].0@).take(
                    2,
                )));
            }
        } else {
            proof {
                let m0 = choose|m: int|
                    0 <= m < pre.len() && (#[trigger] pre[m])@ == two@;
                assert(seeds@[m0]@ == join_sp(split_ws(results@[j as int].0@).take(2)));
            }
        }
        proof {
            assert forall|jj: int| 0 <= jj < j + 1 implies exists|m: int|
                0 <= m < seeds@.len() && (#[trigger] seeds@[m])@ == join_sp(
                    split_ws((#[trigger] results@[jj]).0@).take(2),
                ) by {
                if jj < j {
                    let m0 = choose|m: int|
                        0 <= m < pre.len() && (#[trigger] pre[m])@ == join_sp(
                            split_ws(results@[jj].0@).take(2),
                        );
                    assert(seeds@[m0]@ == join_sp(split_ws(results@[jj].0@).take(2)));
                }
            }
        }
        j = j + 1;
    }
    proof {
        assert(qs.len() == seeds@.len() && (forall|m: int|
            #![trigger qs[m]]
            0 <= m < seeds@.len() ==> seed_entry(*trie, seed@, qs[m], seeds@[m]@)));
        let sws = split_ws(seed@);
        assert forall|q: Seq<Seq<char>>|
            q.len() > 0 && (#[trigger] trie.freq_at(sws + q)) is Some implies exists|m: int|
            0 <= m < seeds@.len() && (#[trigger] seeds@[m])@ == join_sp((sws + q).take(2)) by {
            assert(trie.freq_at(sws) is Some) by {
                if trie.freq_at(sws) is None {
                    trie.lemma_freq_at_absent(sws, q);
                    assert(false);
                }
            }
            let jj = choose|jj: int|
                0 <= jj < results@.len() && results@[jj].0@ == path_ext(seed@, q) && Some(
                    results@[jj].1,
                ) == trie.freq_at(split_ws(seed@) + q);
            trie.lemma_path_tokens_ok(sws + q);
            assert forall|k: int| 0 <= k < q.len() implies token_ok(#[trigger] q[k]) by {
                assert((sws + q)[sws.len() + k] == q[k]);
            }
            lemma_split_path_ext(seed@, q);
            assert(split_ws(results@[jj].0@) == sws + q);
            let m0 = choose|m: int|
                0 <= m < seeds@.len() && (#[trigger] seeds@[m])@ == join_sp(
                    split_ws(results@[jj].0@).take(2),
                );
            assert(0 <= m0 < seeds@.len() && seeds@[m0]@ == join_sp((sws + q).take(2)));
        }
    }
    seeds
}


/// Whether some element of `v` has the same text as `x`.
fn contains_string(v: &Vec<String>, x: &String) -> (r: bool)
    ensures
        r == exists|i: int| 0 <= i < v@.len() && (#[trigger] v@[i])@ == x@,
{
    let mut i: usize = 0;
    while i < v.len()
        invariant
            i <= v@.len(),
            forall|m: int| 0 <= m < i ==> (#[trigger] v@[m])@ != x@,
        decreases v@.len() - i,
    {
        if v[i] == *x {
            return true;
        }
        i = i + 1;
    }
    false
}

/// The words of `s` in reverse order, joined by single spaces.
pub fn reverse_words(s: &str) -> (r: String)
    ensures
        r@ == join_sp(split_ws(s@).reverse()),
{
    let words = words_of(s);
    let mut rev: Vec<String> = Vec::new();
    let mut i: usize = words.len();
    proof {
        assert(words@.len() == words.deep_view().len());
        assert(rev.deep_view() =~= words.deep_view().reverse().take(0));
    }
    while i > 0
        invariant
            i <= words@.len(),
            words@.len() == words.deep_view().len(),
            rev.deep_view() == words.deep_view().reverse().take(
                words.deep_view().len() - i,
            ),
        decreases i,
    {
        i = i - 1;
        let ghost pre = rev@;
        let ghost pre_dv = rev.deep_view();
        rev.push(words[i].clone());
        proof {
            let dv = words.deep_view();
            let k = dv.len() - i - 1;
            assert(dv.reverse().len() == dv.len());
            assert(dv.reverse()[k] == dv[i as int]);
            assert(rev@ == pre.push(words@[i as int]));
            assert(pre_dv.len() == k);
            assert(pre.len() == k);
            assert(rev@.len() == k + 1);
            assert forall|m: int| 0 <= m < rev@.len() implies rev.deep_view()[m] == dv.reverse(
            ).take(k + 1)[m] by {
                assert(rev.deep_view()[m] == rev@[m].deep_view());
                if m < pre.len() {
                    assert(rev@[m] == pre[m]);
                    assert(pre_dv[m] == pre[m].deep_view());
                    assert(pre_dv[m] == dv.reverse().take(k as int)[m]);
                } else {
                    assert(rev@[m] == words@[i as int]);
                    assert(dv[i as int] == words@[i as int].deep_view());
                }
            }
            assert(rev.deep_view() =~= dv.reverse().take(k + 1));
        }
    }
    proof {
        assert(words.deep_view().reverse().take(words.deep_view().len() as int) =~= words
            .deep_view()
            .reverse());
    }
    join_all(&rev)
}

/// The suffix-mode record transform: all words before the tab-separated
/// frequency field are reversed in order, and the frequency field is
/// re-attached behind a tab.
pub fn suffix_transform(line: &str) -> (r: String)
    requires
        split_ws(line@).len() >= 1,
    ensures
        r@ == join_sp(split_ws(line@).drop_last().reverse()) + seq!['\t'] + split_ws(
            line@,
        ).last(),
{
    let words = words_of(line);
    proof {
        assert(words@.len() == words.deep_view().len());
    }
    let n = words.len();
    let mut rev: Vec<String> = Vec::new();
    let mut i: usize = n - 1;
    proof {
        let dvh = words.deep_view().drop_last();
        assert(rev.deep_view() =~= dvh.reverse().take(0));
    }
    while i > 0
        invariant
            n == words@.len(),
            n >= 1,
            words@.len() == words.deep_view().len(),
            i <= n - 1,
            rev.deep_view() == words.deep_view().drop_last().reverse().take(n - 1 - i),
        decreases i,
    {
        i = i - 1;
        let ghost pre = rev@;
        let ghost pre_dv = rev.deep_view();
        rev.push(words[i].clone());
        proof {
            let dvh = words.deep_view().drop_last();
            let k = dvh.len() - i - 1;
            assert(dvh.reverse().len() == dvh.len());
            assert(dvh.reverse()[k] == dvh[i as int]);
            assert(dvh[i as int] == words.deep_view()[i as int]);
            assert(rev@ == pre.push(words@[i as int]));
            assert(pre_dv.len() == k);
            assert(pre.len() == k);
            assert(rev@.len() == k + 1);
            assert forall|m: int| 0 <= m < rev@.len() implies rev.deep_view()[m] == dvh.reverse(
            ).take(k + 1)[m] by {
                assert(rev.deep_view()[m] == rev@[m].deep_view());
                if m < pre.len() {
                    assert(rev@[m] == pre[m]);
                    assert(pre_dv[m] == pre[m].deep_view());
                    assert(pre_dv[m] == dvh.reverse().take(k as int)[m]);
                } else {
                    assert(rev@[m] == words@[i as int]);
                    assert(words.deep_view()[i as int] == words@[i as int].deep_view());
                }
            }
            assert(rev.deep_view() =~= dvh.reverse().take(k + 1));
        }
    }
    proof {
        let dvh = words.deep_view().drop_last();
        assert(dvh.reverse().take(dvh.len() as int) =~= dvh.reverse());
    }
    let mut r = join_all(&rev);
    let mut tail: Vec<char> = Vec::new();
    tail.push('\t');
    let tabs = string_of(&tail);
    r.append(tabs.as_str());
    let lastw = &words[n - 1];
    r.append(lastw.as_str());
    proof {
        assert(tail@ =~= seq!['\t']);
        assert(lastw@ == words.deep_view().last());
        assert(r@ =~= join_sp(split_ws(line@).drop_last().reverse()) + seq!['\t'] + split_ws(
            line@,
        ).last());
    }
    r
}

} // verus!
