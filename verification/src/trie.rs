//! The frequency trie index: a word-path tree storing a frequency at the
//! terminal node of each inserted n-gram, with arbitrary-depth subtree
//! collection for prefix lookup.
//!
//! The mathematical model of a trie is the partial map from token paths
//! (`Seq<Seq<char>>`) to the stored frequency, given by [`TrieNode::freq_at`].

use vstd::prelude::*;
use crate::text::{split_ws, words_of, split_tab, parse_u32, token_ok, lemma_split_ws_tokens,
    lemma_split_single, lemma_split_append_word, is_dec_string, dec_val, tab_split, string_of,
    chars_of};
use crate::NgramError;

verus! {

/// `q` is a strictly shorter prefix of `p`.
pub open spec fn strict_prefix_of(q: Seq<Seq<char>>, p: Seq<Seq<char>>) -> bool {
    q.len() < p.len() && q == p.take(q.len() as int)
}

/// The frequency at `q` after an n-gram with token path `p` and frequency
/// `f` is inserted over a point whose prior frequency was `prev`: the
/// terminal gets `f`, missing intermediate nodes appear with frequency 0,
/// everything else is untouched.
pub open spec fn after_ins(
    prev: Option<u32>,
    p: Seq<Seq<char>>,
    f: u32,
    q: Seq<Seq<char>>,
) -> Option<u32> {
    if q == p {
        Some(f)
    } else if prev is Some {
        prev
    } else if strict_prefix_of(q, p) {
        Some(0u32)
    } else {
        None
    }
}

/// The capability interface of an n-gram index: insertion of whole n-grams
/// and prefix lookup of every stored continuation.
pub trait NgramIndex: Sized {
    /// Abstract model: the frequency stored at a token path, if present.
    spec fn index_freq(&self, q: Seq<Seq<char>>) -> Option<u32>;

    /// The index's internal invariant.
    spec fn inv(&self) -> bool;

    fn insert(&mut self, ngram: &str, freq: u32)
        requires
            old(self).inv(),
        ensures
            final(self).inv(),
            forall|q: Seq<Seq<char>>|
                #[trigger] final(self).index_freq(q) == after_ins(
                    old(self).index_freq(q),
                    split_ws(ngram@),
                    freq,
                    q,
                ),
    ;

    fn lookup(&self, prefix: &str) -> (r: Vec<(String, u32)>)
        requires
            self.inv(),
        ensures
            self.index_freq(split_ws(prefix@)) is None ==> r@ == Seq::<(String, u32)>::empty(),
            self.index_freq(split_ws(prefix@)) is Some ==> (forall|q: Seq<Seq<char>>|
                q.len() > 0 && (#[trigger] self.index_freq(split_ws(prefix@) + q)) is Some
                    ==> exists|i: int|
                    0 <= i < r@.len() && r@[i].0@ == path_ext(prefix@, q) && r@[i].1
                        == self.index_freq(split_ws(prefix@) + q)->Some_0),
            exists|qs: Seq<Seq<Seq<char>>>|
                #![trigger qs.len()]
                qs.len() == r@.len() && (forall|i: int|
                    #![trigger qs[i]]
                    0 <= i < r@.len() ==> qs[i].len() > 0 && self.index_freq(
                        split_ws(prefix@) + qs[i],
                    ) is Some && r@[i].0@ == path_ext(prefix@, qs[i]) && r@[i].1
                        == self.index_freq(split_ws(prefix@) + qs[i])->Some_0),
            forall|i1: int, i2: int|
                0 <= i1 < i2 < r@.len() ==> (#[trigger] r@[i1]).0@ != (#[trigger] r@[i2]).0@,
    ;
}

/// The phrase text built when the word path `q` is walked downward from a
/// node reached by the text `pre`: each step appends a space and the word,
/// except that a step from empty text is the word alone.
pub open spec fn path_ext(pre: Seq<char>, q: Seq<Seq<char>>) -> Seq<char>
    decreases q.len(),
{
    if q.len() == 0 {
        pre
    } else {
        path_ext(if pre.len() == 0 { q[0] } else { pre + seq![' '] + q[0] }, q.skip(1))
    }
}

/// An entry a lookup may return: the phrase and stored frequency of some
/// non-empty continuation path below the prefix.
pub open spec fn found_entry(t: TrieNode, pre: Seq<char>, e: (String, u32)) -> bool {
    exists|q: Seq<Seq<char>>|
        q.len() > 0 && (#[trigger] t.freq_at(split_ws(pre) + q)) is Some && e.0@ == path_ext(
            pre,
            q,
        ) && Some(e.1) == t.freq_at(split_ws(pre) + q)
}

/// An entry a subtree collection may append past the root entry: the phrase
/// and frequency of some non-empty path of the subtree.
pub open spec fn subtree_entry(t: TrieNode, pre: Seq<char>, e: (String, u32)) -> bool {
    exists|q: Seq<Seq<char>>|
        q.len() > 0 && (#[trigger] t.freq_at(q)) is Some && e.0@ == path_ext(pre, q) && Some(e.1)
            == t.freq_at(q)
}

/// A subtree entry whose witness path leaves through the edge labelled `w`.
pub open spec fn edge_entry(t: TrieNode, w: Seq<char>, pre: Seq<char>, e: (String, u32)) -> bool {
    exists|q: Seq<Seq<char>>|
        q.len() > 0 && q[0] == w && (#[trigger] t.freq_at(q)) is Some && e.0@ == path_ext(pre, q)
            && Some(e.1) == t.freq_at(q)
}

/// The phrase built from walking a present path reads back as the prefix's
/// tokens followed by the path: joining and splitting are inverse here.
pub proof fn lemma_split_path_ext(pre: Seq<char>, q: Seq<Seq<char>>)
    requires
        forall|m: int| 0 <= m < q.len() ==> token_ok(#[trigger] q[m]),
    ensures
        split_ws(path_ext(pre, q)) == split_ws(pre) + q,
    decreases q.len(),
{
    if q.len() == 0 {
        assert(split_ws(pre) + q =~= split_ws(pre));
    } else {
        let w = q[0];
        let step = if pre.len() == 0 {
            w
        } else {
            pre + seq![' '] + w
        };
        if pre.len() == 0 {
            lemma_split_single(w);
            assert(split_ws(step) =~= split_ws(pre).push(w));
        } else {
            lemma_split_append_word(pre, w);
        }
        assert(forall|m: int| 0 <= m < q.skip(1).len() ==> #[trigger] q.skip(1)[m] == q[m + 1]);
        lemma_split_path_ext(step, q.skip(1));
        assert(split_ws(path_ext(pre, q)) == split_ws(step) + q.skip(1));
        assert(split_ws(pre).push(w) + q.skip(1) =~= split_ws(pre) + q);
    }
}

/// A node of the frequency trie. The root represents the empty prefix.
#[derive(Debug)]
pub struct TrieNode {
    children: Vec<(String, TrieNode)>,
    freq: u32,
}

impl TrieNode {
    /// There is an edge labelled `w` out of this node.
    pub closed spec fn has_key(self, w: Seq<char>) -> bool {
        exists|j: int| 0 <= j < self.children@.len() && (#[trigger] self.children@[j]).0@ == w
    }

    pub closed spec fn key_idx(self, w: Seq<char>) -> int {
        choose|j: int| 0 <= j < self.children@.len() && (#[trigger] self.children@[j]).0@ == w
    }

    pub closed spec fn child(self, w: Seq<char>) -> TrieNode {
        self.children@[self.key_idx(w)].1
    }

    /// Local well-formedness of one node: edge labels are distinct,
    /// non-empty and whitespace-free.
    pub closed spec fn node_ok(self) -> bool {
        &&& (forall|j: int, k: int|
            0 <= j < k < self.children@.len() ==> (#[trigger] self.children@[j]).0@ != (
            #[trigger] self.children@[k]).0@)
        &&& (forall|j: int|
            0 <= j < self.children@.len() ==> token_ok((#[trigger] self.children@[j]).0@))
    }

    /// The node reached from `self` by walking the token path `q`.
    pub closed spec fn node_at(self, q: Seq<Seq<char>>) -> Option<TrieNode>
        decreases q.len(),
    {
        if q.len() == 0 {
            Some(self)
        } else if self.has_key(q[0]) {
            self.child(q[0]).node_at(q.skip(1))
        } else {
            None
        }
    }

    pub closed spec fn child_count(self) -> nat {
        self.children@.len()
    }

    /// The model of the trie: the frequency stored at each present path.
    pub closed spec fn freq_at(self, q: Seq<Seq<char>>) -> Option<u32> {
        match self.node_at(q) {
            Some(n) => Some(n.freq),
            None => None,
        }
    }

    /// Every node reachable in the tree is well formed.
    pub closed spec fn wf(self) -> bool {
        forall|q: Seq<Seq<char>>|
            (#[trigger] self.node_at(q)) is Some ==> self.node_at(q)->Some_0.node_ok()
    }

    pub proof fn lemma_wf_child(self, w: Seq<char>)
        requires
            self.wf(),
            self.has_key(w),
        ensures
            self.child(w).wf(),
    {
        let c = self.child(w);
        assert forall|q: Seq<Seq<char>>| (#[trigger] c.node_at(q)) is Some implies c.node_at(
            q,
        )->Some_0.node_ok() by {
            let p = seq![w] + q;
            assert(p[0] == w);
            assert(p.skip(1) =~= q);
            assert(self.node_at(p) == c.node_at(q));
        }
    }

    proof fn lemma_wf_intro(self)
        requires
            self.node_ok(),
            forall|j: int| 0 <= j < self.children@.len() ==> (#[trigger] self.children@[j]).1.wf(),
        ensures
            self.wf(),
    {
        assert forall|q: Seq<Seq<char>>| (#[trigger] self.node_at(q)) is Some implies self.node_at(
            q,
        )->Some_0.node_ok() by {
            if q.len() == 0 {
            } else if self.has_key(q[0]) {
                let j = self.key_idx(q[0]);
                assert(0 <= j < self.children@.len() && self.children@[j].0@ == q[0]);
                let c = self.children@[j].1;
                assert(c.wf());
                assert(c.node_at(q.skip(1)) == self.node_at(q));
            }
        }
    }
    proof fn lemma_children_wf(self)
        requires
            self.wf(),
        ensures
            forall|j: int| 0 <= j < self.children@.len() ==> (#[trigger] self.children@[j]).1.wf(),
    {
        assert forall|j: int| 0 <= j < self.children@.len() implies (
        #[trigger] self.children@[j]).1.wf() by {
            let w = self.children@[j].0@;
            assert(self.has_key(w));
            assert(self.node_at(Seq::<Seq<char>>::empty()) == Some(self));
            assert(self.node_ok());
            let jj = self.key_idx(w);
            assert(0 <= jj < self.children@.len() && self.children@[jj].0@ == w);
            assert(jj == j);
            self.lemma_wf_child(w);
        }
    }

    /// A fresh, empty trie: only the empty path is present, with frequency 0.
    pub fn new() -> (t: TrieNode)
        ensures
            t.wf(),
            forall|q: Seq<Seq<char>>|
                #[trigger] t.freq_at(q) == if q.len() == 0 {
                    Some(0u32)
                } else {
                    None::<u32>
                },
    {
        let t = TrieNode { children: Vec::new(), freq: 0 };
        proof {
            assert forall|q: Seq<Seq<char>>| #[trigger]
                t.node_at(q) == if q.len() == 0 {
                    Some(t)
                } else {
                    None::<TrieNode>
                } by {
                if q.len() > 0 {
                    assert(!t.has_key(q[0]));
                }
            }
            t.lemma_wf_intro();
        }
        t
    }
}

/// The index of the child edge labelled `w`, scanning left to right.
fn find_key(cs: &Vec<(String, TrieNode)>, w: &String) -> (r: Option<usize>)
    ensures
        match r {
            Some(j) => j < cs@.len() && cs@[j as int].0@ == w@,
            None => forall|m: int| 0 <= m < cs@.len() ==> (#[trigger] cs@[m]).0@ != w@,
        },
{
    let mut j: usize = 0;
    while j < cs.len()
        invariant
            j <= cs@.len(),
            forall|m: int| 0 <= m < j ==> (#[trigger] cs@[m]).0@ != w@,
        decreases cs@.len() - j,
    {
        if cs[j].0 == *w {
            return Some(j);
        }
        j = j + 1;
    }
    None
}

proof fn lemma_path_cons(p: Seq<Seq<char>>, w: Seq<char>, rest: Seq<Seq<char>>)
    requires
        p.len() > 0,
    ensures
        w == p[0] ==> ((seq![w] + rest == p) <==> rest == p.skip(1)),
        w == p[0] ==> (strict_prefix_of(seq![w] + rest, p) <==> strict_prefix_of(
            rest,
            p.skip(1),
        )),
        w != p[0] ==> seq![w] + rest != p && !strict_prefix_of(seq![w] + rest, p),
{
    let q = seq![w] + rest;
    assert(q[0] == w);
    assert(q.len() == 1 + rest.len());
    if w == p[0] {
        if rest == p.skip(1) {
            assert(q =~= p);
        }
        if q == p {
            assert(q.skip(1) =~= rest);
            assert(p.skip(1) == q.skip(1));
        }
        if strict_prefix_of(rest, p.skip(1)) {
            assert(q =~= p.take(q.len() as int)) by {
                assert(forall|m: int|
                    0 <= m < rest.len() ==> rest[m] == p.skip(1).take(rest.len() as int)[m]);
            }
        }
        if strict_prefix_of(q, p) {
            assert forall|m: int| 0 <= m < rest.len() implies rest[m] == p.skip(1).take(
                rest.len() as int,
            )[m] by {
                assert(rest[m] == q[m + 1]);
                assert(q[m + 1] == p.take(q.len() as int)[m + 1]);
                assert(p.take(q.len() as int)[m + 1] == p[m + 1]);
                assert(p.skip(1).take(rest.len() as int)[m] == p.skip(1)[m]);
                assert(p.skip(1)[m] == p[m + 1]);
            }
            assert(rest =~= p.skip(1).take(rest.len() as int));
        }
    } else {
        if q == p {
            assert(q[0] == p[0]);
        }
        if strict_prefix_of(q, p) {
            assert(q[0] == p.take(q.len() as int)[0]);
        }
    }
}

impl TrieNode {
    /// The chain of single-child nodes for `tokens[i..]`, ending in a
    /// terminal node carrying `freq`.
    fn make_chain(tokens: &Vec<String>, i: usize, freq: u32) -> (t: TrieNode)
        requires
            i <= tokens@.len(),
            forall|m: int| i <= m < tokens@.len() ==> token_ok(#[trigger] tokens.deep_view()[m]),
        ensures
            t.wf(),
            forall|q: Seq<Seq<char>>|
                #[trigger] t.freq_at(q) == after_ins(
                    None,
                    tokens.deep_view().skip(i as int),
                    freq,
                    q,
                ),
        decreases tokens@.len() - i,
    {
        let ghost p = tokens.deep_view().skip(i as int);
        if i == tokens.len() {
            let t = TrieNode { children: Vec::new(), freq };
            proof {
                assert(p =~= Seq::<Seq<char>>::empty());
                assert forall|q: Seq<Seq<char>>| #[trigger]
                    t.freq_at(q) == after_ins(None, p, freq, q) by {
                    if q.len() > 0 {
                        assert(!t.has_key(q[0]));
                        assert(q != p);
                        assert(!strict_prefix_of(q, p));
                    } else {
                        assert(q =~= p);
                    }
                }
                t.lemma_wf_intro();
            }
            t
        } else {
            let child = TrieNode::make_chain(tokens, i + 1, freq);
            let key = tokens[i].clone();
            let t = TrieNode { children: vec![(key, child)], freq: 0 };
            proof {
                let dv = tokens.deep_view();
                let w = dv[i as int];
                assert(t.children@.len() == 1 && t.children@[0].0@ == w && t.children@[0].1
                    == child);
                assert(p.len() > 0 && p[0] == w);
                assert(p.skip(1) =~= dv.skip(i + 1));
                assert(t.node_ok());
                assert forall|q: Seq<Seq<char>>| #[trigger]
                    t.freq_at(q) == after_ins(None, p, freq, q) by {
                    if q.len() == 0 {
                        assert(t.freq_at(q) == Some(0u32));
                        assert(q != p);
                        assert(q =~= p.take(0));
                        assert(strict_prefix_of(q, p));
                    } else {
                        let v = q[0];
                        let rest = q.skip(1);
                        assert(q =~= seq![v] + rest);
                        lemma_path_cons(p, v, rest);
                        if v == w {
                            assert(t.has_key(v));
                            assert(t.key_idx(v) == 0);
                            assert(t.child(v) == child);
                            assert(t.freq_at(q) == child.freq_at(rest));
                            assert(child.freq_at(rest) == after_ins(None, p.skip(1), freq, rest));
                        } else {
                            assert(!t.has_key(v));
                            assert(t.freq_at(q) is None);
                        }
                    }
                }
                t.lemma_wf_intro();
            }
            t
        }
    }

    /// Walk or create the child path for `tokens[i..]` and store `freq` at
    /// its terminal node.
    fn insert_path(&mut self, tokens: &Vec<String>, i: usize, freq: u32)
        requires
            i <= tokens@.len(),
            old(self).wf(),
            forall|m: int| i <= m < tokens@.len() ==> token_ok(#[trigger] tokens.deep_view()[m]),
        ensures
            final(self).wf(),
            forall|q: Seq<Seq<char>>|
                #[trigger] final(self).freq_at(q) == after_ins(
                    old(self).freq_at(q),
                    tokens.deep_view().skip(i as int),
                    freq,
                    q,
                ),
        decreases tokens@.len() - i,
    {
        let ghost t1 = *self;
        let ghost p = tokens.deep_view().skip(i as int);
        proof {
            t1.lemma_children_wf();
            assert(t1.node_at(Seq::<Seq<char>>::empty()) == Some(t1));
            assert(t1.node_ok());
        }
        if i == tokens.len() {
            self.freq = freq;
            proof {
                let t2 = *self;
                assert(p =~= Seq::<Seq<char>>::empty());
                assert(t2.children@ == t1.children@);
                assert forall|q: Seq<Seq<char>>| #[trigger]
                    t2.freq_at(q) == after_ins(t1.freq_at(q), p, freq, q) by {
                    if q.len() == 0 {
                        assert(q =~= p);
                    } else {
                        Self::lemma_same_children(t1, t2, q);
                        assert(q != p);
                        assert(!strict_prefix_of(q, p));
                    }
                }
                assert forall|j: int| 0 <= j < t2.children@.len() implies (
                #[trigger] t2.children@[j]).1.wf() by {}
                t2.lemma_wf_intro();
            }
        } else {
            let found = find_key(&self.children, &tokens[i]);
            let ghost dv = tokens.deep_view();
            let ghost w = dv[i as int];
            proof {
                assert(p.len() > 0 && p[0] == w);
                assert(p.skip(1) =~= dv.skip(i + 1));
                assert(tokens@[i as int]@ == w);
            }
            match found {
                Some(j) => {
                    let (key, mut child) = self.children.remove(j);
                    let ghost c1 = child;
                    child.insert_path(tokens, i + 1, freq);
                    self.children.insert(j, (key, child));
                    proof {
                        let t2 = *self;
                        assert(t2.children@ =~= t1.children@.update(
                            j as int,
                            (t1.children@[j as int].0, child),
                        ));
                        Self::lemma_model_update(t1, t2, j as int, c1, child, p, freq);
                        assert forall|m: int| 0 <= m < t2.children@.len() implies (
                        #[trigger] t2.children@[m]).1.wf() by {}
                        t2.lemma_wf_intro();
                    }
                },
                None => {
                    let child = TrieNode::make_chain(tokens, i + 1, freq);
                    self.children.push((tokens[i].clone(), child));
                    proof {
                        let t2 = *self;
                        assert(t2.children@ =~= t1.children@.push((t2.children@.last().0, child)));
                        assert(t2.children@.last().0@ == w);
                        Self::lemma_model_push(t1, t2, child, p, freq);
                        assert forall|m: int| 0 <= m < t2.children@.len() implies (
                        #[trigger] t2.children@[m]).1.wf() by {}
                        t2.lemma_wf_intro();
                    }
                },
            }
        }
    }

    /// Two nodes with the same children agree on every non-empty path.
    proof fn lemma_same_children(t1: TrieNode, t2: TrieNode, q: Seq<Seq<char>>)
        requires
            t1.children@ == t2.children@,
            q.len() > 0,
        ensures
            t2.freq_at(q) == t1.freq_at(q),
    {
        assert(t1.has_key(q[0]) == t2.has_key(q[0]));
        if t1.has_key(q[0]) {
            assert(t1.key_idx(q[0]) == t2.key_idx(q[0]));
        }
    }

    proof fn lemma_model_update(
        t1: TrieNode,
        t2: TrieNode,
        j: int,
        c1: TrieNode,
        c2: TrieNode,
        p: Seq<Seq<char>>,
        freq: u32,
    )
        requires
            t1.node_ok(),
            0 <= j < t1.children@.len(),
            t1.children@[j].0@ == p[0],
            t1.children@[j].1 == c1,
            t2.children@ == t1.children@.update(j, (t1.children@[j].0, c2)),
            t2.freq == t1.freq,
            p.len() > 0,
            forall|q: Seq<Seq<char>>|
                #[trigger] c2.freq_at(q) == after_ins(c1.freq_at(q), p.skip(1), freq, q),
        ensures
            forall|q: Seq<Seq<char>>|
                #[trigger] t2.freq_at(q) == after_ins(t1.freq_at(q), p, freq, q),
            t2.node_ok(),
    {
        let w = p[0];
        assert(forall|m: int|
            0 <= m < t2.children@.len() ==> (#[trigger] t2.children@[m]).0 == t1.children@[m].0);
        assert(t2.node_ok());
        assert forall|q: Seq<Seq<char>>| #[trigger]
            t2.freq_at(q) == after_ins(t1.freq_at(q), p, freq, q) by {
            if q.len() == 0 {
                assert(q != p);
                assert(t1.freq_at(q) == Some(t1.freq));
                assert(t2.freq_at(q) == Some(t2.freq));
            } else {
                let v = q[0];
                let rest = q.skip(1);
                assert(q =~= seq![v] + rest);
                lemma_path_cons(p, v, rest);
                if t1.has_key(v) {
                    let j1 = t1.key_idx(v);
                    assert(0 <= j1 < t1.children@.len() && t1.children@[j1].0@ == v);
                    assert(t2.children@[j1].0@ == v);
                    assert(t2.has_key(v));
                    let j2 = t2.key_idx(v);
                    assert(0 <= j2 < t2.children@.len() && t2.children@[j2].0@ == v);
                    assert(t1.children@[j2].0@ == v);
                    assert(j1 == j2);
                    if v == w {
                        assert(j1 == j);
                        assert(t1.child(v) == c1);
                        assert(t2.child(v) == c2);
                        assert(t1.freq_at(q) == c1.freq_at(rest));
                        assert(t2.freq_at(q) == c2.freq_at(rest));
                        assert(c2.freq_at(rest) == after_ins(c1.freq_at(rest), p.skip(1), freq,
                            rest));
                    } else {
                        assert(j1 != j);
                        assert(t2.children@[j1] == t1.children@[j1]);
                        assert(t1.child(v) == t2.child(v));
                        assert(t1.freq_at(q) == t1.child(v).freq_at(rest));
                        assert(t2.freq_at(q) == t2.child(v).freq_at(rest));
                    }
                } else {
                    assert(!t2.has_key(v)) by {
                        if t2.has_key(v) {
                            let j2 = t2.key_idx(v);
                            assert(t1.children@[j2].0@ == v);
                        }
                    }
                    assert(v != w);
                    assert(t1.freq_at(q) is None);
                    assert(t2.freq_at(q) is None);
                }
            }
        }
    }

    proof fn lemma_model_push(
        t1: TrieNode,
        t2: TrieNode,
        c2: TrieNode,
        p: Seq<Seq<char>>,
        freq: u32,
    )
        requires
            t1.node_ok(),
            p.len() > 0,
            token_ok(p[0]),
            forall|m: int| 0 <= m < t1.children@.len() ==> (#[trigger] t1.children@[m]).0@ != p[0],
            t2.children@.len() == t1.children@.len() + 1,
            t2.children@ == t1.children@.push((t2.children@.last().0, c2)),
            t2.children@.last().0@ == p[0],
            t2.freq == t1.freq,
            forall|q: Seq<Seq<char>>|
                #[trigger] c2.freq_at(q) == after_ins(None, p.skip(1), freq, q),
        ensures
            forall|q: Seq<Seq<char>>|
                #[trigger] t2.freq_at(q) == after_ins(t1.freq_at(q), p, freq, q),
            t2.node_ok(),
    {
        let w = p[0];
        let n = t1.children@.len() as int;
        assert(forall|m: int|
            0 <= m < n ==> (#[trigger] t2.children@[m]).0 == t1.children@[m].0
                && t2.children@[m].1 == t1.children@[m].1);
        assert(t2.children@[n].0@ == w);
        assert(t2.node_ok());
        assert forall|q: Seq<Seq<char>>| #[trigger]
            t2.freq_at(q) == after_ins(t1.freq_at(q), p, freq, q) by {
            if q.len() == 0 {
                assert(q != p);
                assert(t1.freq_at(q) == Some(t1.freq));
                assert(t2.freq_at(q) == Some(t2.freq));
            } else {
                let v = q[0];
                let rest = q.skip(1);
                assert(q =~= seq![v] + rest);
                lemma_path_cons(p, v, rest);
                if v == w {
                    assert(!t1.has_key(v)) by {
                        if t1.has_key(v) {
                            let j1 = t1.key_idx(v);
                            assert(t1.children@[j1].0@ == v);
                        }
                    }
                    assert(t1.freq_at(q) is None);
                    assert(t2.has_key(v));
                    let j2 = t2.key_idx(v);
                    assert(0 <= j2 < t2.children@.len() && t2.children@[j2].0@ == v);
                    assert(j2 == n) by {
                        if j2 < n {
                            assert(t1.children@[j2].0@ == v);
                        }
                    }
                    assert(t2.child(v) == c2);
                    assert(t2.freq_at(q) == c2.freq_at(rest));
                    assert(c2.freq_at(rest) == after_ins(None, p.skip(1), freq, rest));
                } else {
                    if t1.has_key(v) {
                        let j1 = t1.key_idx(v);
                        assert(0 <= j1 < n && t1.children@[j1].0@ == v);
                        assert(t2.children@[j1].0@ == v);
                        assert(t2.has_key(v));
                        let j2 = t2.key_idx(v);
                        assert(0 <= j2 < t2.children@.len() && t2.children@[j2].0@ == v);
                        assert(j2 != n);
                        assert(t1.children@[j2].0@ == v);
                        assert(j1 == j2);
                        assert(t1.child(v) == t2.child(v));
                        assert(t1.freq_at(q) == t1.child(v).freq_at(rest));
                        assert(t2.freq_at(q) == t2.child(v).freq_at(rest));
                    } else {
                        assert(!t2.has_key(v)) by {
                            if t2.has_key(v) {
                                let j2 = t2.key_idx(v);
                                if j2 < n {
                                    assert(t1.children@[j2].0@ == v);
                                }
                            }
                        }
                        assert(t1.freq_at(q) is None);
                        assert(t2.freq_at(q) is None);
                    }
                }
            }
        }
    }
    /// Walking a present non-empty path only meets well-formed tokens, so
    /// the built phrase is strictly longer than the starting text.
    proof fn lemma_path_ext_longer(self, pre: Seq<char>, q: Seq<Seq<char>>)
        requires
            self.wf(),
            q.len() > 0,
            self.node_at(q) is Some,
        ensures
            path_ext(pre, q).len() > pre.len(),
        decreases q.len(),
    {
        let w = q[0];
        assert(self.node_at(Seq::<Seq<char>>::empty()) == Some(self));
        assert(self.node_ok());
        assert(self.has_key(w));
        let j = self.key_idx(w);
        assert(0 <= j < self.children@.len() && self.children@[j].0@ == w);
        assert(token_ok(w));
        let step = if pre.len() == 0 {
            w
        } else {
            pre + seq![' '] + w
        };
        self.lemma_wf_child(w);
        if q.len() == 1 {
            assert(q.skip(1) =~= Seq::<Seq<char>>::empty());
            assert(path_ext(pre, q) == path_ext(step, q.skip(1)));
            assert(path_ext(step, q.skip(1)) == step);
        } else {
            self.child(w).lemma_path_ext_longer(step, q.skip(1));
        }
    }

    /// No path extends an absent one.
    pub proof fn lemma_freq_at_absent(self, a: Seq<Seq<char>>, b: Seq<Seq<char>>)
        requires
            self.freq_at(a) is None,
        ensures
            self.freq_at(a + b) is None,
        decreases a.len(),
    {
        if a.len() == 0 {
            assert(false);
        } else {
            assert((a + b)[0] == a[0]);
            assert((a + b).skip(1) =~= a.skip(1) + b);
            if self.has_key(a[0]) {
                self.child(a[0]).lemma_freq_at_absent(a.skip(1), b);
            }
        }
    }

    proof fn lemma_node_at_concat(self, a: Seq<Seq<char>>, b: Seq<Seq<char>>)
        requires
            self.node_at(a) is Some,
        ensures
            self.node_at(a + b) == self.node_at(a)->Some_0.node_at(b),
        decreases a.len(),
    {
        if a.len() == 0 {
            assert(a + b =~= b);
        } else {
            let w = a[0];
            assert((a + b)[0] == w);
            assert((a + b).len() > 0);
            assert((a + b).skip(1) =~= a.skip(1) + b);
            self.child(w).lemma_node_at_concat(a.skip(1), b);
        }
    }

    /// Every token along a present path is a well-formed trie key.
    pub proof fn lemma_path_tokens_ok(self, q: Seq<Seq<char>>)
        requires
            self.wf(),
            self.freq_at(q) is Some,
        ensures
            forall|m: int| 0 <= m < q.len() ==> token_ok(#[trigger] q[m]),
        decreases q.len(),
    {
        if q.len() > 0 {
            let w = q[0];
            assert(self.node_at(Seq::<Seq<char>>::empty()) == Some(self));
            assert(self.node_ok());
            assert(self.has_key(w));
            let j = self.key_idx(w);
            assert(0 <= j < self.children@.len() && self.children@[j].0@ == w);
            assert(token_ok(w));
            self.lemma_wf_child(w);
            self.child(w).lemma_path_tokens_ok(q.skip(1));
            assert forall|m: int| 0 <= m < q.len() implies token_ok(#[trigger] q[m]) by {
                if m > 0 {
                    assert(q.skip(1)[m - 1] == q[m]);
                }
            }
        }
    }

    /// An entry whose witness path leaves through one of the edges from
    /// position `j0` on.
    spec fn from_entry(self, j0: int, pre: Seq<char>, e: (String, u32)) -> bool {
        exists|m: int|
            j0 <= m < self.children@.len() && edge_entry(
                self,
                (#[trigger] self.children@[m]).0@,
                pre,
                e,
            )
    }

    /// Entries through distinct edges carry distinct phrases.
    proof fn lemma_edge_entries_distinct(
        self,
        pre: Seq<char>,
        w1: Seq<char>,
        w2: Seq<char>,
        e1: (String, u32),
        e2: (String, u32),
    )
        requires
            self.wf(),
            w1 != w2,
            edge_entry(self, w1, pre, e1),
            edge_entry(self, w2, pre, e2),
        ensures
            e1.0@ != e2.0@,
    {
        let q1 = choose|q: Seq<Seq<char>>|
            q.len() > 0 && q[0] == w1 && (#[trigger] self.freq_at(q)) is Some && e1.0@ == path_ext(
                pre,
                q,
            ) && Some(e1.1) == self.freq_at(q);
        let q2 = choose|q: Seq<Seq<char>>|
            q.len() > 0 && q[0] == w2 && (#[trigger] self.freq_at(q)) is Some && e2.0@ == path_ext(
                pre,
                q,
            ) && Some(e2.1) == self.freq_at(q);
        self.lemma_path_tokens_ok(q1);
        self.lemma_path_tokens_ok(q2);
        lemma_split_path_ext(pre, q1);
        lemma_split_path_ext(pre, q2);
        let base = split_ws(pre).len() as int;
        assert((split_ws(pre) + q1)[base] == q1[0]);
        assert((split_ws(pre) + q2)[base] == q2[0]);
        if e1.0@ == e2.0@ {
            assert(split_ws(e1.0@) == split_ws(e2.0@));
            assert(false);
        }
    }

    proof fn lemma_subtree_entry_lift(
        self,
        w: Seq<char>,
        c: TrieNode,
        pre: Seq<char>,
        step: Seq<char>,
        e: (String, u32),
    )
        requires
            self.has_key(w),
            self.child(w) == c,
            subtree_entry(c, step, e),
            step == if pre.len() == 0 {
                w
            } else {
                pre + seq![' '] + w
            },
        ensures
            subtree_entry(self, pre, e),
            edge_entry(self, w, pre, e),
    {
        let qc = choose|qc: Seq<Seq<char>>|
            qc.len() > 0 && (#[trigger] c.freq_at(qc)) is Some && e.0@ == path_ext(step, qc)
                && Some(e.1) == c.freq_at(qc);
        let q = seq![w] + qc;
        assert(q[0] == w);
        assert(q.skip(1) =~= qc);
        assert(self.freq_at(q) == c.freq_at(qc));
        assert(path_ext(pre, q) == path_ext(step, qc));
        assert(q.len() > 0 && q[0] == w && (#[trigger] self.freq_at(q)) is Some && e.0@
            == path_ext(pre, q) && Some(e.1) == self.freq_at(q));
        assert(subtree_entry(self, pre, e));
        assert(edge_entry(self, w, pre, e));
    }

    /// Combine the child's and the later edges' collection facts into the
    /// whole region's: provenance through an edge from `j0` on, and
    /// pairwise-distinct phrases.
    proof fn lemma_collect_from_combine(
        self,
        j0: int,
        c: TrieNode,
        w: Seq<char>,
        dvp: Seq<char>,
        step: Seq<char>,
        mid0: Seq<(String, u32)>,
        mid1: Seq<(String, u32)>,
        fin: Seq<(String, u32)>,
    )
        requires
            self.wf(),
            0 <= j0 < self.children@.len(),
            self.children@[j0].0@ == w,
            self.has_key(w),
            self.child(w) == c,
            step == if dvp.len() == 0 {
                w
            } else {
                dvp + seq![' '] + w
            },
            mid0.len() < mid1.len() <= fin.len(),
            forall|i: int| 0 <= i < mid1.len() ==> #[trigger] fin[i] == mid1[i],
            mid1[mid0.len() as int].0@ == step,
            Some(mid1[mid0.len() as int].1) == c.freq_at(Seq::<Seq<char>>::empty()),
            forall|i: int|
                mid0.len() < i < mid1.len() ==> subtree_entry(c, step, #[trigger] mid1[i]),
            forall|i1: int, i2: int|
                mid0.len() <= i1 < i2 < mid1.len() ==> (#[trigger] mid1[i1]).0@ != (
                #[trigger] mid1[i2]).0@,
            forall|i: int|
                mid1.len() <= i < fin.len() ==> self.from_entry(j0 + 1, dvp, #[trigger] fin[i]),
            forall|i1: int, i2: int|
                mid1.len() <= i1 < i2 < fin.len() ==> (#[trigger] fin[i1]).0@ != (
                #[trigger] fin[i2]).0@,
        ensures
            forall|i: int|
                mid0.len() <= i < fin.len() ==> self.from_entry(j0, dvp, #[trigger] fin[i]),
            forall|i1: int, i2: int|
                mid0.len() <= i1 < i2 < fin.len() ==> (#[trigger] fin[i1]).0@ != (
                #[trigger] fin[i2]).0@,
    {
        assert(self.node_at(Seq::<Seq<char>>::empty()) == Some(self));
        assert(self.node_ok());
        assert forall|i: int| mid0.len() <= i < mid1.len() implies edge_entry(
            self,
            w,
            dvp,
            #[trigger] fin[i],
        ) by {
            assert(fin[i] == mid1[i]);
            if i == mid0.len() {
                let q = seq![w] + Seq::<Seq<char>>::empty();
                assert(q.len() == 1);
                assert(q[0] == w);
                assert(q.skip(1) =~= Seq::<Seq<char>>::empty());
                assert(path_ext(dvp, q) == path_ext(step, q.skip(1)));
                assert(path_ext(step, q.skip(1)) == step);
                assert(self.freq_at(q) == c.freq_at(Seq::<Seq<char>>::empty()));
                assert(q.len() > 0 && q[0] == w && (#[trigger] self.freq_at(q)) is Some
                    && fin[i].0@ == path_ext(dvp, q) && Some(fin[i].1) == self.freq_at(q));
                assert(edge_entry(self, w, dvp, fin[i]));
            } else {
                assert(subtree_entry(c, step, mid1[i]));
                self.lemma_subtree_entry_lift(w, c, dvp, step, mid1[i]);
            }
        }
        assert forall|i: int| mid0.len() <= i < fin.len() implies self.from_entry(
            j0,
            dvp,
            #[trigger] fin[i],
        ) by {
            if i < mid1.len() {
                assert(edge_entry(self, w, dvp, fin[i]));
                assert(self.children@[j0].0@ == w);
            } else {
                let m = choose|m: int|
                    j0 + 1 <= m < self.children@.len() && edge_entry(
                        self,
                        (#[trigger] self.children@[m]).0@,
                        dvp,
                        fin[i],
                    );
                assert(j0 <= m < self.children@.len() && edge_entry(
                    self,
                    self.children@[m].0@,
                    dvp,
                    fin[i],
                ));
            }
        }
        assert forall|i1: int, i2: int|
            mid0.len() <= i1 < i2 < fin.len() implies (#[trigger] fin[i1]).0@ != (
        #[trigger] fin[i2]).0@ by {
            if i2 < mid1.len() {
                assert(fin[i1] == mid1[i1] && fin[i2] == mid1[i2]);
                assert(mid1[i1].0@ != mid1[i2].0@);
            } else if i1 >= mid1.len() {
            } else {
                assert(edge_entry(self, w, dvp, fin[i1]));
                let m2 = choose|m: int|
                    j0 + 1 <= m < self.children@.len() && edge_entry(
                        self,
                        (#[trigger] self.children@[m]).0@,
                        dvp,
                        fin[i2],
                    );
                assert(self.children@[m2].0@ != w);
                self.lemma_edge_entries_distinct(dvp, w, self.children@[m2].0@, fin[i1], fin[i2]);
            }
        }
    }

    /// Append to `results` one entry per node of this subtree: the phrase
    /// built from `prefix` down to the node, with the node's frequency.
    /// The entry for this node itself comes first.
    #[verifier::rlimit(50)]
    pub fn collect_all(&self, prefix: &str, results: &mut Vec<(String, u32)>)
        requires
            self.wf(),
        ensures
            final(results)@.len() > old(results)@.len(),
            forall|i: int| 0 <= i < old(results)@.len() ==> final(results)@[i] == old(results)@[i],
            final(results)@[old(results)@.len() as int].0@ == prefix@,
            Some(final(results)@[old(results)@.len() as int].1) == self.freq_at(
                Seq::<Seq<char>>::empty(),
            ),
            forall|q: Seq<Seq<char>>|
                (#[trigger] self.freq_at(q)) is Some ==> exists|i: int|
                    old(results)@.len() <= i < final(results)@.len() && final(results)@[i].0@
                        == path_ext(prefix@, q) && Some(final(results)@[i].1) == self.freq_at(q),
            forall|i: int|
                old(results)@.len() < i < final(results)@.len() ==> subtree_entry(
                    *self,
                    prefix@,
                    #[trigger] final(results)@[i],
                ),
            forall|i1: int, i2: int|
                old(results)@.len() <= i1 < i2 < final(results)@.len() ==> (
                #[trigger] final(results)@[i1]).0@ != (#[trigger] final(results)@[i2]).0@,
        decreases *self, self.child_count() + 1,
    {
        let own = prefix.to_owned();
        results.push((own, self.freq));
        proof {
            assert(self.node_at(Seq::<Seq<char>>::empty()) == Some(*self));
            assert(self.node_ok());
            assert(path_ext(prefix@, Seq::<Seq<char>>::empty()) == prefix@);
        }
        self.collect_from(0, prefix, results);
        proof {
            let base = old(results)@.len() as int;
            assert forall|q: Seq<Seq<char>>| (#[trigger] self.freq_at(q)) is Some implies exists|
                i: int,
            |
                base <= i < results@.len() && results@[i].0@ == path_ext(prefix@, q) && Some(
                    results@[i].1,
                ) == self.freq_at(q) by {
                if q.len() == 0 {
                    assert(results@[base].0@ == path_ext(prefix@, q) && Some(results@[base].1)
                        == self.freq_at(q));
                } else {
                    assert(self.has_key(q[0]));
                    let m = self.key_idx(q[0]);
                    assert(0 <= m < self.children@.len() && self.children@[m].0@ == q[0]);
                    assert(exists|m2: int|
                        0 <= m2 < self.children@.len() && (#[trigger] self.children@[m2]).0@
                            == q[0]);
                }
            }
            // Soundness: every later entry is some non-empty path's.
            assert forall|i: int| base < i < results@.len() implies subtree_entry(
                *self,
                prefix@,
                #[trigger] results@[i],
            ) by {
                assert(self.from_entry(0, prefix@, results@[i]));
                let m = choose|m: int|
                    0 <= m < self.children@.len() && edge_entry(
                        *self,
                        (#[trigger] self.children@[m]).0@,
                        prefix@,
                        results@[i],
                    );
                let q = choose|q: Seq<Seq<char>>|
                    q.len() > 0 && q[0] == self.children@[m].0@ && (
                    #[trigger] self.freq_at(q)) is Some && results@[i].0@ == path_ext(prefix@, q)
                        && Some(results@[i].1) == self.freq_at(q);
                assert(q.len() > 0 && (#[trigger] self.freq_at(q)) is Some && results@[i].0@
                    == path_ext(prefix@, q) && Some(results@[i].1) == self.freq_at(q));
                assert(subtree_entry(*self, prefix@, results@[i]));
            }
            // Distinct phrases, the node's own entry included.
            assert forall|i1: int, i2: int|
                base <= i1 < i2 < results@.len() implies (#[trigger] results@[i1]).0@ != (
            #[trigger] results@[i2]).0@ by {
                if i1 == base {
                    assert(subtree_entry(*self, prefix@, results@[i2]));
                    let q = choose|q: Seq<Seq<char>>|
                        q.len() > 0 && (#[trigger] self.freq_at(q)) is Some && results@[i2].0@
                            == path_ext(prefix@, q) && Some(results@[i2].1) == self.freq_at(q);
                    assert(self.node_at(q) is Some);
                    self.lemma_path_ext_longer(prefix@, q);
                    assert(results@[i2].0@.len() > prefix@.len());
                    assert(results@[i1].0@ == prefix@);
                }
            }
        }
    }

    #[verifier::rlimit(100)]
    #[verifier::spinoff_prover]
    fn collect_from(&self, j0: usize, prefix: &str, results: &mut Vec<(String, u32)>)
        requires
            self.wf(),
            j0 <= self.children@.len(),
        ensures
            final(results)@.len() >= old(results)@.len(),
            forall|i: int| 0 <= i < old(results)@.len() ==> final(results)@[i] == old(results)@[i],
            forall|q: Seq<Seq<char>>|
                q.len() > 0 && (#[trigger] self.freq_at(q)) is Some && (exists|m: int|
                    j0 <= m < self.children@.len() && (#[trigger] self.children@[m]).0@ == q[0])
                    ==> exists|i: int|
                    old(results)@.len() <= i < final(results)@.len() && final(results)@[i].0@
                        == path_ext(prefix@, q) && Some(final(results)@[i].1) == self.freq_at(q),
            forall|i: int|
                old(results)@.len() <= i < final(results)@.len() ==> self.from_entry(
                    j0 as int,
                    prefix@,
                    #[trigger] final(results)@[i],
                ),
            forall|i1: int, i2: int|
                old(results)@.len() <= i1 < i2 < final(results)@.len() ==> (
                #[trigger] final(results)@[i1]).0@ != (#[trigger] final(results)@[i2]).0@,
        decreases *self, self.children@.len() - j0,
    {
        proof {
            assert(self.node_at(Seq::<Seq<char>>::empty()) == Some(*self));
            assert(self.node_ok());
        }
        if j0 == self.children.len() {
            return ;
        }
        let ghost mid0 = results@;
        let pair = &self.children[j0];
        let ghost w = pair.0@;
        let new_prefix: String = if prefix.unicode_len() == 0 {
            pair.0.clone()
        } else {
            let mut np = prefix.to_owned();
            np.append(" ");
            np.append(pair.0.as_str());
            proof {
                reveal_strlit(" ");
                assert(np@ =~= prefix@ + seq![' '] + w);
            }
            np
        };
        proof {
            assert(self.has_key(w));
            assert(self.key_idx(w) == j0 as int);
            assert(self.child(w) == pair.1);
            self.lemma_wf_child(w);
            assert(decreases_to!(*self => self.children));
            assert(decreases_to!(self.children => self.children@));
            assert(decreases_to!(self.children@ => self.children@[j0 as int]));
            assert(decreases_to!(self.children@[j0 as int] => self.children@[j0 as int].1));
        }
        pair.1.collect_all(new_prefix.as_str(), results);
        let ghost mid1 = results@;
        self.collect_from(j0 + 1, prefix, results);
        proof {
            let c = pair.1;
            let dvp = prefix@;
            // Translate child paths to our own paths through edge `w`.
            assert forall|qc: Seq<Seq<char>>|
                true implies (#[trigger] self.freq_at(seq![w] + qc)) == c.freq_at(qc) && path_ext(
                dvp,
                seq![w] + qc,
            ) == path_ext(new_prefix@, qc) by {
                let q = seq![w] + qc;
                assert(q[0] == w);
                assert(q.skip(1) =~= qc);
                assert(self.freq_at(q) == c.freq_at(qc));
                assert(path_ext(dvp, q) == path_ext(new_prefix@, qc));
            }
            // Completeness for edges from j0 on.
            assert forall|q: Seq<Seq<char>>|
                q.len() > 0 && (#[trigger] self.freq_at(q)) is Some && (exists|m: int|
                    j0 <= m < self.children@.len() && (#[trigger] self.children@[m]).0@
                        == q[0]) implies exists|i: int|
                mid0.len() <= i < results@.len() && results@[i].0@ == path_ext(dvp, q) && Some(
                    results@[i].1,
                ) == self.freq_at(q) by {
                let m = choose|m: int|
                    j0 <= m < self.children@.len() && (#[trigger] self.children@[m]).0@ == q[0];
                if m == j0 as int {
                    let qc = q.skip(1);
                    assert(seq![w] + qc =~= q);
                    assert(c.freq_at(qc) == self.freq_at(q));
                    assert(c.freq_at(qc) is Some);
                    let i = choose|i: int|
                        mid0.len() <= i < mid1.len() && mid1[i].0@ == path_ext(new_prefix@, qc)
                            && Some(mid1[i].1) == c.freq_at(qc);
                    assert(results@[i] == mid1[i]);
                    assert(mid0.len() <= i < results@.len() && results@[i].0@ == path_ext(dvp, q)
                        && Some(results@[i].1) == self.freq_at(q));
                } else {
                    assert(exists|m2: int|
                        j0 + 1 <= m2 < self.children@.len() && (#[trigger] self.children@[m2]).0@
                            == q[0]);
                }
            }
            // Soundness of every appended entry.
            let ghost step = if dvp.len() == 0 {
                w
            } else {
                dvp + seq![' '] + w
            };
            assert(new_prefix@ == step);
            self.lemma_collect_from_combine(
                j0 as int,
                c,
                w,
                dvp,
                step,
                mid0,
                mid1,
                results@,
            );
        }
    }

    /// Walk the child path for `tokens[i..]`, if present.
    fn descend(&self, tokens: &Vec<String>, i: usize) -> (r: Option<&TrieNode>)
        requires
            self.wf(),
            i <= tokens@.len(),
        ensures
            match r {
                Some(n) => self.node_at(tokens.deep_view().skip(i as int)) == Some(*n) && n.wf(),
                None => self.node_at(tokens.deep_view().skip(i as int)) is None,
            },
        decreases tokens@.len() - i,
    {
        let ghost p = tokens.deep_view().skip(i as int);
        proof {
            assert(self.node_at(Seq::<Seq<char>>::empty()) == Some(*self));
            assert(self.node_ok());
        }
        if i == tokens.len() {
            proof {
                assert(p =~= Seq::<Seq<char>>::empty());
            }
            Some(self)
        } else {
            let ghost w = tokens.deep_view()[i as int];
            proof {
                assert(p.len() > 0 && p[0] == w);
                assert(p.skip(1) =~= tokens.deep_view().skip(i + 1));
            }
            match find_key(&self.children, &tokens[i]) {
                None => {
                    proof {
                        assert(!self.has_key(w)) by {
                            if self.has_key(w) {
                                let j = self.key_idx(w);
                                assert(self.children@[j].0@ == w);
                            }
                        }
                    }
                    None
                },
                Some(j) => {
                    let c = &self.children[j].1;
                    proof {
                        assert(self.has_key(w));
                        assert(self.key_idx(w) == j as int);
                        assert(self.child(w) == *c);
                        self.lemma_wf_child(w);
                    }
                    c.descend(tokens, i + 1)
                },
            }
        }
    }

    /// Prefix lookup: the empty vector when the prefix path is absent;
    /// otherwise one entry per descendant of the prefix node, each the full
    /// phrase from the prefix down and the stored frequency, the prefix's
    /// own entry excluded.
    #[verifier::rlimit(100)]
    #[verifier::spinoff_prover]
    pub fn lookup_entries(&self, prefix: &str) -> (r: Vec<(String, u32)>)
        requires
            self.wf(),
        ensures
            self.freq_at(split_ws(prefix@)) is None ==> r@ == Seq::<(String, u32)>::empty(),
            self.freq_at(split_ws(prefix@)) is Some ==> (forall|q: Seq<Seq<char>>|
                q.len() > 0 && (#[trigger] self.freq_at(split_ws(prefix@) + q)) is Some
                    ==> exists|i: int|
                    0 <= i < r@.len() && r@[i].0@ == path_ext(prefix@, q) && Some(r@[i].1)
                        == self.freq_at(split_ws(prefix@) + q)),
            forall|i: int| 0 <= i < r@.len() ==> found_entry(*self, prefix@, #[trigger] r@[i]),
            forall|i1: int, i2: int|
                0 <= i1 < i2 < r@.len() ==> (#[trigger] r@[i1]).0@ != (#[trigger] r@[i2]).0@,
    {
        let tokens = words_of(prefix);
        let ghost p0 = split_ws(prefix@);
        proof {
            assert(tokens.deep_view().skip(0) =~= tokens.deep_view());
        }
        match self.descend(&tokens, 0) {
            None => {
                let r: Vec<(String, u32)> = Vec::new();
                proof {
                    assert(r@ =~= Seq::<(String, u32)>::empty());
                }
                r
            },
            Some(node) => {
                let mut results: Vec<(String, u32)> = Vec::new();
                node.collect_all(prefix, &mut results);
                let ghost pre = results@;
                let _first = results.remove(0);
                proof {
                    assert(results@ =~= pre.skip(1));
                    let nd = *node;
                    assert forall|q: Seq<Seq<char>>| true implies #[trigger] self.freq_at(p0 + q)
                        == nd.freq_at(q) by {
                        self.lemma_node_at_concat(p0, q);
                    }
                    // Completeness: witnesses move down one slot.
                    assert forall|q: Seq<Seq<char>>|
                        q.len() > 0 && (#[trigger] self.freq_at(split_ws(prefix@) + q)) is Some implies exists|
                        i: int,
                    |
                        0 <= i < results@.len() && results@[i].0@ == path_ext(prefix@, q) && Some(
                            results@[i].1,
                        ) == self.freq_at(split_ws(prefix@) + q) by {
                        assert(nd.freq_at(q) is Some);
                        let i = choose|i: int|
                            0 <= i < pre.len() && pre[i].0@ == path_ext(prefix@, q) && Some(
                                pre[i].1,
                            ) == nd.freq_at(q);
                        nd.lemma_path_ext_longer(prefix@, q);
                        assert(pre[0].0@ == prefix@);
                        assert(pre[i].0@.len() > prefix@.len());
                        assert(i != 0);
                        assert(results@[i - 1] == pre[i]);
                        assert(0 <= i - 1 < results@.len() && results@[i - 1].0@ == path_ext(
                            prefix@,
                            q,
                        ) && Some(results@[i - 1].1) == self.freq_at(split_ws(prefix@) + q));
                    }
                    assert forall|i: int| 0 <= i < results@.len() implies found_entry(
                        *self,
                        prefix@,
                        #[trigger] results@[i],
                    ) by {
                        assert(results@[i] == pre[i + 1]);
                        assert(subtree_entry(nd, prefix@, pre[i + 1]));
                        let q = choose|q: Seq<Seq<char>>|
                            q.len() > 0 && (#[trigger] nd.freq_at(q)) is Some && pre[i + 1].0@
                                == path_ext(prefix@, q) && Some(pre[i + 1].1) == nd.freq_at(q);
                        assert(q.len() > 0 && (#[trigger] self.freq_at(
                            split_ws(prefix@) + q,
                        )) is Some && results@[i].0@ == path_ext(prefix@, q) && Some(
                            results@[i].1,
                        ) == self.freq_at(split_ws(prefix@) + q));
                        assert(found_entry(*self, prefix@, results@[i]));
                    }
                    assert forall|i1: int, i2: int|
                        0 <= i1 < i2 < results@.len() implies (#[trigger] results@[i1]).0@ != (
                    #[trigger] results@[i2]).0@ by {
                        assert(results@[i1] == pre[i1 + 1]);
                        assert(results@[i2] == pre[i2 + 1]);
                        assert(pre[i1 + 1].0@ != pre[i2 + 1].0@);
                    }
                }
                results
            },
        }
    }
}

/// The record a table line holds: the text before the first tab and the
/// decimal frequency after it, if the line is well formed.
pub open spec fn rec_of(line: Seq<char>) -> Option<(Seq<char>, u32)> {
    match tab_split(line) {
        None => None,
        Some((k, fs)) => if is_dec_string(fs) && dec_val(fs) <= u32::MAX {
            Some((k, dec_val(fs) as u32))
        } else {
            None
        },
    }
}

/// The records a load with cutoff `min` consumes: lines in order up to (not
/// including) the first whose frequency falls below `min`; `None` when a
/// malformed line is met first.
pub open spec fn load_recs(lines: Seq<Seq<char>>, min: u32) -> Option<Seq<(Seq<char>, u32)>>
    decreases lines.len(),
{
    if lines.len() == 0 {
        Some(Seq::empty())
    } else {
        match rec_of(lines[0]) {
            None => None,
            Some(r) => if r.1 < min {
                Some(Seq::empty())
            } else {
                match load_recs(lines.skip(1), min) {
                    None => None,
                    Some(rest) => Some(seq![r] + rest),
                }
            },
        }
    }
}

/// The model of a trie built by inserting `recs` in order into a fresh trie.
pub open spec fn table_freq(recs: Seq<(Seq<char>, u32)>, q: Seq<Seq<char>>) -> Option<u32>
    decreases recs.len(),
{
    if recs.len() == 0 {
        if q.len() == 0 {
            Some(0u32)
        } else {
            None
        }
    } else {
        after_ins(table_freq(recs.drop_last(), q), split_ws(recs.last().0), recs.last().1, q)
    }
}

impl TrieNode {
    /// Load one tab-separated `ngram\tfrequency` record, for driving a
    /// load incrementally from a line reader: `Ok(true)` inserts the record,
    /// `Ok(false)` reports that its frequency fell below `freq_min` and
    /// leaves the index untouched — under the sorted-source invariant no
    /// later line need be read. A record without a tab or with a
    /// non-decimal frequency field is the fatal load error.
    pub fn load_record(&mut self, line: &str, freq_min: u32) -> (r: Result<bool, NgramError>)
        requires
            old(self).wf(),
        ensures
            final(self).wf(),
            r is Err ==> r->Err_0 == NgramError::MalformedTableRecord && *final(self) == *old(
                self,
            ) && rec_of(line@) is None,
            r matches Ok(inserted) ==> rec_of(line@) is Some && (!inserted ==> rec_of(
                line@,
            )->Some_0.1 < freq_min && *final(self) == *old(self)) && (inserted ==> rec_of(
                line@,
            )->Some_0.1 >= freq_min && (forall|q: Seq<Seq<char>>|
                #[trigger] final(self).freq_at(q) == after_ins(
                    old(self).freq_at(q),
                    split_ws(rec_of(line@)->Some_0.0),
                    rec_of(line@)->Some_0.1,
                    q,
                ))),
    {
        let cs = chars_of(line);
        match split_tab(&cs) {
            None => {
                proof {
                    assert(rec_of(line@) is None);
                }
                Err(NgramError::MalformedTableRecord)
            },
            Some((key, fs)) => {
                match parse_u32(&fs) {
                    None => {
                        proof {
                            assert(rec_of(line@) is None);
                        }
                        Err(NgramError::MalformedTableRecord)
                    },
                    Some(f) => {
                        proof {
                            assert(rec_of(line@) == Some((key@, f)));
                        }
                        if f < freq_min {
                            Ok(false)
                        } else {
                            let ks = string_of(&key);
                            let ghost pre = *self;
                            self.insert(ks.as_str(), f);
                            proof {
                                assert forall|q: Seq<Seq<char>>| #[trigger]
                                    self.freq_at(q) == after_ins(
                                        pre.freq_at(q),
                                        split_ws(key@),
                                        f,
                                        q,
                                    ) by {
                                    assert(self.index_freq(q) == after_ins(
                                        pre.index_freq(q),
                                        split_ws(ks@),
                                        f,
                                        q,
                                    ));
                                }
                            }
                            Ok(true)
                        }
                    },
                }
            },
        }
    }

    /// Build an index from tab-separated `ngram\tfrequency` records assumed
    /// sorted by frequency descending: insert each until one falls below
    /// `freq_min`, never reading past it. A record without a tab or with a
    /// non-decimal frequency field before that point is a fatal load error.
    pub fn from_it(lines: &Vec<String>, freq_min: u32) -> (r: Result<TrieNode, NgramError>)
        ensures
            r is Ok <==> load_recs(lines.deep_view(), freq_min) is Some,
            r is Err ==> r->Err_0 == NgramError::MalformedTableRecord,
            r is Ok ==> r->Ok_0.wf() && forall|q: Seq<Seq<char>>|
                #[trigger] r->Ok_0.freq_at(q) == table_freq(
                    load_recs(lines.deep_view(), freq_min)->Some_0,
                    q,
                ),
    {
        let ghost dv = lines.deep_view();
        let mut trie = TrieNode::new();
        let ghost consumed = Seq::<(Seq<char>, u32)>::empty();
        let mut i: usize = 0;
        proof {
            assert(dv.skip(0) =~= dv);
            assert forall|q: Seq<Seq<char>>| #[trigger]
                trie.freq_at(q) == table_freq(consumed, q) by {}
        }
        while i < lines.len()
            invariant
                i <= dv.len(),
                dv == lines.deep_view(),
                trie.wf(),
                forall|q: Seq<Seq<char>>| #[trigger] trie.freq_at(q) == table_freq(consumed, q),
                load_recs(dv, freq_min) == (match load_recs(dv.skip(i as int), freq_min) {
                    None => None::<Seq<(Seq<char>, u32)>>,
                    Some(rest) => Some(consumed + rest),
                }),
            decreases dv.len() - i,
        {
            let line = &lines[i];
            let cs = chars_of(line.as_str());
            let ghost tail = dv.skip(i as int);
            proof {
                assert(cs@ == dv[i as int]);
                assert(tail.len() > 0 && tail[0] == dv[i as int]);
                assert(tail.skip(1) =~= dv.skip(i + 1));
            }
            match split_tab(&cs) {
                None => {
                    proof {
                        assert(rec_of(dv[i as int]) is None);
                        assert(load_recs(tail, freq_min) is None);
                    }
                    return Err(NgramError::MalformedTableRecord);
                },
                Some((key, fs)) => {
                    match parse_u32(&fs) {
                        None => {
                            proof {
                                assert(rec_of(dv[i as int]) is None);
                                assert(load_recs(tail, freq_min) is None);
                            }
                            return Err(NgramError::MalformedTableRecord);
                        },
                        Some(f) => {
                            proof {
                                assert(rec_of(dv[i as int]) == Some((key@, f)));
                            }
                            if f < freq_min {
                                proof {
                                    assert(load_recs(tail, freq_min) == Some(
                                        Seq::<(Seq<char>, u32)>::empty(),
                                    ));
                                    assert(consumed + Seq::<(Seq<char>, u32)>::empty()
                                        =~= consumed);
                                }
                                return Ok(trie);
                            }
                            let ks = string_of(&key);
                            let ghost pre_trie = trie;
                            trie.insert(ks.as_str(), f);
                            proof {
                                let r = (key@, f);
                                let consumed2 = consumed.push(r);
                                assert forall|q: Seq<Seq<char>>| #[trigger]
                                    trie.freq_at(q) == table_freq(consumed2, q) by {
                                    assert(consumed2.drop_last() =~= consumed);
                                    assert(consumed2.last() == r);
                                    assert(trie.index_freq(q) == after_ins(
                                        pre_trie.index_freq(q),
                                        split_ws(ks@),
                                        f,
                                        q,
                                    ));
                                }
                                assert(load_recs(tail, freq_min) == (
                                match load_recs(dv.skip(i + 1), freq_min) {
                                    None => None::<Seq<(Seq<char>, u32)>>,
                                    Some(rest) => Some(seq![r] + rest),
                                }));
                                if load_recs(dv.skip(i + 1), freq_min) is Some {
                                    let rest = load_recs(dv.skip(i + 1), freq_min)->Some_0;
                                    assert(consumed + (seq![r] + rest) =~= consumed2 + rest);
                                }
                                consumed = consumed2;
                            }
                            i = i + 1;
                        },
                    }
                },
            }
        }
        proof {
            assert(dv.skip(dv.len() as int) =~= Seq::<Seq<char>>::empty());
            assert(load_recs(dv.skip(dv.len() as int), freq_min) == Some(
                Seq::<(Seq<char>, u32)>::empty(),
            ));
            assert(consumed + Seq::<(Seq<char>, u32)>::empty() =~= consumed);
        }
        Ok(trie)
    }
}

impl Default for TrieNode {
    /// The same fresh trie that `TrieNode::new` builds.
    fn default() -> (t: TrieNode)
        ensures
            t.wf(),
            forall|q: Seq<Seq<char>>|
                #[trigger] t.freq_at(q) == if q.len() == 0 {
                    Some(0u32)
                } else {
                    None::<u32>
                },
    {
        TrieNode::new()
    }
}

impl NgramIndex for TrieNode {
    open spec fn index_freq(&self, q: Seq<Seq<char>>) -> Option<u32> {
        self.freq_at(q)
    }

    open spec fn inv(&self) -> bool {
        self.wf()
    }

    fn insert(&mut self, ngram: &str, freq: u32) {
        let tokens = words_of(ngram);
        proof {
            lemma_split_ws_tokens(ngram@);
            assert(tokens.deep_view().skip(0) =~= tokens.deep_view());
        }
        self.insert_path(&tokens, 0, freq);
    }

    fn lookup(&self, prefix: &str) -> (r: Vec<(String, u32)>) {
        let r = self.lookup_entries(prefix);
        proof {
            let qs = Seq::new(
                r@.len(),
                |i: int|
                    choose|q: Seq<Seq<char>>|
                        q.len() > 0 && (#[trigger] self.freq_at(split_ws(prefix@) + q)) is Some
                            && r@[i].0@ == path_ext(prefix@, q) && Some(r@[i].1) == self.freq_at(
                            split_ws(prefix@) + q,
                        ),
            );
            assert forall|i: int|
                0 <= i < r@.len() implies qs[i].len() > 0 && self.index_freq(
                split_ws(prefix@) + qs[i],
            ) is Some && (#[trigger] r@[i]).0@ == path_ext(prefix@, qs[i]) && r@[i].1
                == self.index_freq(split_ws(prefix@) + qs[i])->Some_0 by {
                assert(found_entry(*self, prefix@, r@[i]));
                assert(qs[i] == (choose|q: Seq<Seq<char>>|
                    q.len() > 0 && (#[trigger] self.freq_at(split_ws(prefix@) + q)) is Some
                        && r@[i].0@ == path_ext(prefix@, q) && Some(r@[i].1) == self.freq_at(
                        split_ws(prefix@) + q,
                    )));
            }
            assert(qs.len() == r@.len() && (forall|i: int|
                #![trigger qs[i]]
                0 <= i < r@.len() ==> qs[i].len() > 0 && self.index_freq(
                    split_ws(prefix@) + qs[i],
                ) is Some && r@[i].0@ == path_ext(prefix@, qs[i]) && r@[i].1 == self.index_freq(
                    split_ws(prefix@) + qs[i],
                )->Some_0));
            if self.freq_at(split_ws(prefix@)) is Some {
                assert forall|q: Seq<Seq<char>>|
                    q.len() > 0 && (#[trigger] self.index_freq(split_ws(prefix@) + q)) is Some implies exists|
                    i: int,
                |
                    0 <= i < r@.len() && r@[i].0@ == path_ext(prefix@, q) && r@[i].1
                        == self.index_freq(split_ws(prefix@) + q)->Some_0 by {
                    let i = choose|i: int|
                        0 <= i < r@.len() && r@[i].0@ == path_ext(prefix@, q) && Some(r@[i].1)
                            == self.freq_at(split_ws(prefix@) + q);
                    assert(0 <= i < r@.len() && r@[i].0@ == path_ext(prefix@, q) && r@[i].1
                        == self.index_freq(split_ws(prefix@) + q)->Some_0);
                }
            }
        }
        r
    }
}

} // verus!
