//! Laws relating the library's components, proved from the models that the
//! function contracts use.

use vstd::prelude::*;
use crate::text::{split_ws, join_sp, tab_split, is_dec_string, token_ok,
    lemma_split_ws_tokens, lemma_split_single, lemma_split_ws_concat, lemma_split_join,
    lemma_tab_split_parts, lemma_join_sp_no_tab, lemma_tab_split_at, is_ws_char};
use crate::trie::{table_freq, load_recs, rec_of, after_ins, strict_prefix_of};

verus! {

/// Round trip: in the model of a trie built from records whose token paths
/// all have length `n` and are pairwise distinct, a path of length `n` is
/// present exactly when it is a record's path, and then it carries that
/// record's frequency — the continuations of any prefix are exactly the
/// records sharing it, with their original frequencies, and no others.
pub proof fn lemma_insert_round_trip(recs: Seq<(Seq<char>, u32)>, x: Seq<Seq<char>>, n: int)
    requires
        n >= 1,
        forall|j: int| 0 <= j < recs.len() ==> split_ws((#[trigger] recs[j]).0).len() == n,
        forall|j: int, k: int|
            0 <= j < k < recs.len() ==> split_ws((#[trigger] recs[j]).0) != split_ws(
                (#[trigger] recs[k]).0,
            ),
        x.len() == n,
    ensures
        table_freq(recs, x) is Some <==> exists|j: int|
            0 <= j < recs.len() && split_ws((#[trigger] recs[j]).0) == x,
        (exists|j: int| 0 <= j < recs.len() && split_ws((#[trigger] recs[j]).0) == x)
            ==> table_freq(recs, x) == Some(
            recs[choose|j: int| 0 <= j < recs.len() && split_ws((#[trigger] recs[j]).0) == x].1,
        ),
    decreases recs.len(),
{
    if recs.len() == 0 {
    } else {
        let head = recs.drop_last();
        let r = recs.last();
        let p = split_ws(r.0);
        assert(forall|j: int| 0 <= j < head.len() ==> head[j] == recs[j]);
        lemma_insert_round_trip(head, x, n);
        assert(table_freq(recs, x) == after_ins(table_freq(head, x), p, r.1, x));
        assert(!strict_prefix_of(x, p));
        if x == p {
            let jw = choose|j: int|
                0 <= j < recs.len() && split_ws((#[trigger] recs[j]).0) == x;
            assert(split_ws(recs[recs.len() - 1].0) == x);
            assert(jw == recs.len() - 1) by {
                if jw < recs.len() - 1 {
                    assert(split_ws(recs[jw].0) != split_ws(recs[recs.len() - 1].0));
                }
            }
        } else {
            if exists|j: int| 0 <= j < recs.len() && split_ws((#[trigger] recs[j]).0) == x {
                let jw = choose|j: int|
                    0 <= j < recs.len() && split_ws((#[trigger] recs[j]).0) == x;
                assert(jw < recs.len() - 1);
                assert(split_ws(head[jw].0) == x);
                let jw2 = choose|j: int|
                    0 <= j < head.len() && split_ws((#[trigger] head[j]).0) == x;
                assert(jw == jw2) by {
                    if jw < jw2 {
                        assert(split_ws(recs[jw].0) != split_ws(recs[jw2].0));
                    }
                    if jw2 < jw {
                        assert(split_ws(recs[jw2].0) != split_ws(recs[jw].0));
                    }
                }
                assert(table_freq(head, x) == Some(head[jw2].1));
            } else {
                assert(!(exists|j: int|
                    0 <= j < head.len() && split_ws((#[trigger] head[j]).0) == x)) by {
                    if exists|j: int| 0 <= j < head.len() && split_ws((#[trigger] head[j]).0)
                        == x {
                        let jw = choose|j: int|
                            0 <= j < head.len() && split_ws((#[trigger] head[j]).0) == x;
                        assert(split_ws(recs[jw].0) == x);
                    }
                }
            }
        }
    }
}

/// Cutoff: when every line parses and the frequencies are non-increasing,
/// loading with cutoff `min` succeeds and consumes exactly the leading
/// records whose frequency is at least `min` — every later record falls
/// below it.
pub proof fn lemma_cutoff(lines: Seq<Seq<char>>, min: u32)
    requires
        forall|i: int| 0 <= i < lines.len() ==> (#[trigger] rec_of(lines[i])) is Some,
        forall|i: int, j: int|
            0 <= i <= j < lines.len() ==> rec_of(#[trigger] lines[i])->Some_0.1 >= rec_of(
                #[trigger] lines[j],
            )->Some_0.1,
    ensures
        load_recs(lines, min) is Some,
        ({
            let recs = load_recs(lines, min)->Some_0;
            &&& recs.len() <= lines.len()
            &&& (forall|j: int|
                0 <= j < recs.len() ==> #[trigger] recs[j] == rec_of(lines[j])->Some_0
                    && recs[j].1 >= min)
            &&& (forall|i: int|
                recs.len() <= i < lines.len() ==> (#[trigger] rec_of(lines[i]))->Some_0.1 < min)
        }),
    decreases lines.len(),
{
    if lines.len() == 0 {
    } else {
        let r0 = rec_of(lines[0])->Some_0;
        if r0.1 < min {
            assert forall|i: int| 0 <= i < lines.len() implies (
            #[trigger] rec_of(lines[i]))->Some_0.1 < min by {
                assert(rec_of(lines[0])->Some_0.1 >= rec_of(lines[i])->Some_0.1);
            }
        } else {
            let tail = lines.skip(1);
            assert(forall|i: int| 0 <= i < tail.len() ==> #[trigger] tail[i] == lines[i + 1]);
            lemma_cutoff(tail, min);
            let rest = load_recs(tail, min)->Some_0;
            let recs = load_recs(lines, min)->Some_0;
            assert(recs == seq![r0] + rest);
            assert(forall|j: int| 1 <= j < recs.len() ==> #[trigger] recs[j] == rest[j - 1]);
            assert(recs[0] == r0);
            assert forall|i: int| recs.len() <= i < lines.len() implies (
            #[trigger] rec_of(lines[i]))->Some_0.1 < min by {
                assert(lines[i] == tail[i - 1]);
                assert(rec_of(tail[i - 1])->Some_0.1 < min);
            }
        }
    }
}

/// The trie model depends on a record only through its token path and its
/// frequency, never through the raw spacing of its text.
pub proof fn lemma_table_freq_congruent(
    a: Seq<(Seq<char>, u32)>,
    b: Seq<(Seq<char>, u32)>,
    q: Seq<Seq<char>>,
)
    requires
        a.len() == b.len(),
        forall|j: int|
            0 <= j < a.len() ==> split_ws((#[trigger] a[j]).0) == split_ws(b[j].0) && a[j].1
                == b[j].1,
    ensures
        table_freq(a, q) == table_freq(b, q),
    decreases a.len(),
{
    if a.len() > 0 {
        assert(forall|j: int|
            0 <= j < a.len() - 1 ==> #[trigger] a.drop_last()[j] == a[j] && b.drop_last()[j]
                == b[j]);
        lemma_table_freq_congruent(a.drop_last(), b.drop_last(), q);
        assert(a.last() == a[a.len() - 1]);
        assert(b.last() == b[a.len() - 1]);
    }
}

/// Two tables whose lines parse to records with the same token paths and
/// frequencies load identically: the same cutoff point, record for record.
pub proof fn lemma_equivalent_tables(la: Seq<Seq<char>>, lb: Seq<Seq<char>>, min: u32)
    requires
        la.len() == lb.len(),
        forall|i: int|
            0 <= i < la.len() ==> {
                &&& (#[trigger] rec_of(la[i])) is Some
                &&& (#[trigger] rec_of(lb[i])) is Some
                &&& rec_of(la[i])->Some_0.1 == rec_of(lb[i])->Some_0.1
                &&& split_ws(rec_of(la[i])->Some_0.0) == split_ws(rec_of(lb[i])->Some_0.0)
            },
    ensures
        load_recs(la, min) is Some,
        load_recs(lb, min) is Some,
        ({
            let ra = load_recs(la, min)->Some_0;
            let rb = load_recs(lb, min)->Some_0;
            &&& ra.len() == rb.len()
            &&& (forall|j: int|
                0 <= j < ra.len() ==> split_ws((#[trigger] ra[j]).0) == split_ws(rb[j].0)
                    && ra[j].1 == rb[j].1)
            &&& (forall|q: Seq<Seq<char>>|
                #[trigger] table_freq(ra, q) == table_freq(rb, q))
        }),
    decreases la.len(),
{
    if la.len() == 0 {
    } else {
        let r0a = rec_of(la[0])->Some_0;
        let r0b = rec_of(lb[0])->Some_0;
        if r0a.1 < min {
        } else {
            let ta = la.skip(1);
            let tb = lb.skip(1);
            assert(forall|i: int|
                0 <= i < ta.len() ==> #[trigger] ta[i] == la[i + 1] && #[trigger] tb[i] == lb[i
                    + 1]);
            lemma_equivalent_tables(ta, tb, min);
            let ra = load_recs(la, min)->Some_0;
            let rb = load_recs(lb, min)->Some_0;
            let resta = load_recs(ta, min)->Some_0;
            let restb = load_recs(tb, min)->Some_0;
            assert(ra == seq![r0a] + resta);
            assert(rb == seq![r0b] + restb);
            assert(forall|j: int|
                1 <= j < ra.len() ==> #[trigger] ra[j] == resta[j - 1] && #[trigger] rb[j]
                    == restb[j - 1]);
            assert(ra[0] == r0a && rb[0] == r0b);
        }
    }
    let ra = load_recs(la, min)->Some_0;
    let rb = load_recs(lb, min)->Some_0;
    assert forall|q: Seq<Seq<char>>| #[trigger]
        table_freq(ra, q) == table_freq(rb, q) by {
        lemma_table_freq_congruent(ra, rb, q);
    }
}

/// The suffix-mode transform of a well-formed record is itself a
/// well-formed record with the same frequency, whose token path is the
/// original's reversed: the suffix index is the forward index of the
/// reversed records.
pub proof fn lemma_suffix_transform_reverses(l: Seq<char>)
    requires
        rec_of(l) is Some,
    ensures
        ({
            let k = rec_of(l)->Some_0.0;
            let f = rec_of(l)->Some_0.1;
            let tl = join_sp(split_ws(l).drop_last().reverse()) + seq!['\t'] + split_ws(l).last();
            &&& split_ws(l).len() >= 1
            &&& rec_of(tl) is Some
            &&& rec_of(tl)->Some_0.1 == f
            &&& split_ws(rec_of(tl)->Some_0.0) == split_ws(k).reverse()
        }),
{
    let k = rec_of(l)->Some_0.0;
    let fs = tab_split(l)->Some_0.1;
    let f = rec_of(l)->Some_0.1;
    lemma_tab_split_parts(l);
    assert(l == k + seq!['\t'] + fs);
    assert(is_dec_string(fs));
    assert(token_ok(fs)) by {
        assert forall|i: int| 0 <= i < fs.len() implies !is_ws_char(fs[i]) by {
            assert(48 <= fs[i] as u32 <= 57);
        }
    }
    lemma_split_ws_concat(k, '\t', fs);
    lemma_split_single(fs);
    let kws = split_ws(k);
    assert(split_ws(l) == kws + seq![fs]);
    assert(split_ws(l).len() == kws.len() + 1);
    assert(split_ws(l).drop_last() =~= kws);
    assert(split_ws(l).last() == fs);
    lemma_split_ws_tokens(k);
    let rws = kws.reverse();
    assert(rws.len() == kws.len());
    assert forall|m: int| 0 <= m < rws.len() implies token_ok(#[trigger] rws[m]) by {
        assert(rws[m] == kws[kws.len() - 1 - m]);
    }
    let joined = join_sp(rws);
    let tl = joined + seq!['\t'] + fs;
    lemma_join_sp_no_tab(rws);
    assert(forall|i: int| 0 <= i < joined.len() ==> #[trigger] tl[i] == joined[i]);
    assert(tl[joined.len() as int] == '\t');
    lemma_tab_split_at(tl, joined.len() as int);
    assert(tl.take(joined.len() as int) =~= joined);
    assert(tl.skip(joined.len() as int + 1) =~= fs);
    assert(tab_split(tl) == Some((joined, fs)));
    assert(rec_of(tl) == Some((joined, f)));
    lemma_split_join(rws);
}

} // verus!
