//! Verified text primitives: whitespace splitting, space-joining, literal
//! substitution, tab-splitting of table records, and decimal parsing.
//! Specifications are stated over `Seq<char>`.

use vstd::prelude::*;

verus! {

/// The whitespace characters the tokenizer splits on: the ASCII set.
/// `str::split_whitespace` also splits on Unicode-only whitespace; the
/// cleaner's own substitutions introduce spaces and sentence markers only,
/// so the narrowing shows just where a corpus holds such characters.
pub open spec fn is_ws_char(c: char) -> bool {
    c == ' ' || c == '\n' || c == '\t' || c == '\r'
}

/// Length of the maximal leading run of non-whitespace characters.
pub open spec fn word_len(s: Seq<char>) -> int
    decreases s.len(),
{
    if s.len() == 0 || is_ws_char(s[0]) {
        0
    } else {
        1 + word_len(s.skip(1))
    }
}

pub proof fn lemma_word_len_bounds(s: Seq<char>)
    ensures
        0 <= word_len(s) <= s.len(),
        s.len() > 0 && !is_ws_char(s[0]) ==> word_len(s) >= 1,
    decreases s.len(),
{
    if s.len() == 0 || is_ws_char(s[0]) {
    } else {
        lemma_word_len_bounds(s.skip(1));
    }
}

/// The token sequence obtained by splitting on whitespace.
pub open spec fn split_ws(s: Seq<char>) -> Seq<Seq<char>>
    decreases s.len(),
    when s.len() >= 0 via split_ws_decreases
{
    if s.len() == 0 {
        Seq::empty()
    } else if is_ws_char(s[0]) {
        split_ws(s.skip(1))
    } else {
        seq![s.take(word_len(s))] + split_ws(s.skip(word_len(s)))
    }
}

#[via_fn]
proof fn split_ws_decreases(s: Seq<char>) {
    lemma_word_len_bounds(s);
}

/// A well-formed token: non-empty and free of whitespace, as whitespace
/// splitting produces.
pub open spec fn token_ok(w: Seq<char>) -> bool {
    w.len() > 0 && forall|i: int| 0 <= i < w.len() ==> !is_ws_char(w[i])
}

proof fn lemma_word_len_chars(s: Seq<char>)
    ensures
        forall|m: int| 0 <= m < word_len(s) ==> !is_ws_char(s[m]),
    decreases s.len(),
{
    lemma_word_len_bounds(s);
    if s.len() == 0 || is_ws_char(s[0]) {
    } else {
        lemma_word_len_chars(s.skip(1));
        assert forall|m: int| 0 <= m < word_len(s) implies !is_ws_char(s[m]) by {
            if m > 0 {
                assert(s.skip(1)[m - 1] == s[m]);
            }
        }
    }
}

/// Whitespace splitting yields only well-formed tokens.
pub proof fn lemma_split_ws_tokens(s: Seq<char>)
    ensures
        forall|k: int| 0 <= k < split_ws(s).len() ==> token_ok(#[trigger] split_ws(s)[k]),
    decreases s.len(),
{
    lemma_word_len_bounds(s);
    if s.len() == 0 {
    } else if is_ws_char(s[0]) {
        lemma_split_ws_tokens(s.skip(1));
        assert forall|k: int| 0 <= k < split_ws(s).len() implies token_ok(
            #[trigger] split_ws(s)[k],
        ) by {
            assert(split_ws(s)[k] == split_ws(s.skip(1))[k]);
        }
    } else {
        let w = word_len(s);
        lemma_word_len_chars(s);
        lemma_split_ws_tokens(s.skip(w));
        assert(token_ok(s.take(w))) by {
            assert(forall|m: int| 0 <= m < w ==> s.take(w)[m] == s[m]);
        }
        assert forall|k: int| 0 <= k < split_ws(s).len() implies token_ok(
            #[trigger] split_ws(s)[k],
        ) by {
            if k > 0 {
                assert(split_ws(s)[k] == split_ws(s.skip(w))[k - 1]);
            }
        }
    }
}

proof fn lemma_word_len_end(s: Seq<char>)
    ensures
        word_len(s) < s.len() ==> is_ws_char(s[word_len(s)]),
    decreases s.len(),
{
    lemma_word_len_bounds(s);
    if s.len() == 0 || is_ws_char(s[0]) {
    } else {
        lemma_word_len_end(s.skip(1));
        lemma_word_len_bounds(s.skip(1));
        if word_len(s) < s.len() {
            assert(s.skip(1)[word_len(s.skip(1))] == s[word_len(s)]);
        }
    }
}

/// Splitting distributes over concatenation at a whitespace character.
pub proof fn lemma_split_ws_concat(a: Seq<char>, c: char, b: Seq<char>)
    requires
        is_ws_char(c),
    ensures
        split_ws(a + seq![c] + b) == split_ws(a) + split_ws(b),
    decreases a.len(),
{
    let s = a + seq![c] + b;
    if a.len() == 0 {
        assert(s[0] == c);
        assert(s.skip(1) =~= b);
        assert(split_ws(s) == split_ws(b));
        assert(split_ws(a) + split_ws(b) =~= split_ws(b));
    } else if is_ws_char(a[0]) {
        assert(s[0] == a[0]);
        assert(s.skip(1) =~= a.skip(1) + seq![c] + b);
        lemma_split_ws_concat(a.skip(1), c, b);
    } else {
        let w = word_len(a);
        lemma_word_len_bounds(a);
        lemma_word_len_chars(a);
        lemma_word_len_end(a);
        assert(s[0] == a[0]);
        assert(forall|m: int| 0 <= m < w ==> s[m] == a[m]);
        assert(w == s.len() || is_ws_char(s[w])) by {
            if w < a.len() {
                assert(s[w] == a[w]);
            } else {
                assert(s[w] == c);
            }
        }
        lemma_word_len_at(s, w);
        assert(s.take(w) =~= a.take(w));
        assert(s.skip(w) =~= a.skip(w) + seq![c] + b);
        lemma_split_ws_concat(a.skip(w), c, b);
        assert(split_ws(s) == seq![a.take(w)] + (split_ws(a.skip(w)) + split_ws(b)));
        assert(seq![a.take(w)] + (split_ws(a.skip(w)) + split_ws(b)) =~= (seq![a.take(w)]
            + split_ws(a.skip(w))) + split_ws(b));
    }
}

/// A lone well-formed token splits to itself.
pub proof fn lemma_split_single(w: Seq<char>)
    requires
        token_ok(w),
    ensures
        split_ws(w) == seq![w],
{
    lemma_word_len_at(w, w.len() as int);
    assert(w.take(w.len() as int) =~= w);
    assert(w.skip(w.len() as int) =~= Seq::<char>::empty());
    assert(split_ws(w) == seq![w] + split_ws(Seq::<char>::empty()));
    assert(seq![w] + Seq::<Seq<char>>::empty() =~= seq![w]);
}

/// Appending a space and a well-formed token appends one token to the split.
pub proof fn lemma_split_append_word(s1: Seq<char>, w: Seq<char>)
    requires
        token_ok(w),
    ensures
        split_ws(s1 + seq![' '] + w) == split_ws(s1).push(w),
{
    lemma_split_ws_concat(s1, ' ', w);
    lemma_split_single(w);
    assert(split_ws(s1) + seq![w] =~= split_ws(s1).push(w));
}

/// Joining well-formed tokens and splitting again gives the tokens back.
pub proof fn lemma_split_join(ws: Seq<Seq<char>>)
    requires
        forall|k: int| 0 <= k < ws.len() ==> token_ok(#[trigger] ws[k]),
    ensures
        split_ws(join_sp(ws)) == ws,
    decreases ws.len(),
{
    if ws.len() == 0 {
        assert(split_ws(join_sp(ws)) =~= ws);
    } else if ws.len() == 1 {
        lemma_split_single(ws[0]);
        assert(seq![ws[0]] =~= ws);
    } else {
        lemma_split_join(ws.drop_last());
        lemma_split_append_word(join_sp(ws.drop_last()), ws.last());
        assert(split_ws(join_sp(ws)) == split_ws(join_sp(ws.drop_last())).push(ws.last()));
        assert(ws.drop_last().push(ws.last()) =~= ws);
    }
}

/// Tokens joined by single spaces: the canonical n-gram text form.
pub open spec fn join_sp(ws: Seq<Seq<char>>) -> Seq<char>
    decreases ws.len(),
{
    if ws.len() == 0 {
        Seq::empty()
    } else if ws.len() == 1 {
        ws[0]
    } else {
        join_sp(ws.drop_last()) + seq![' '] + ws.last()
    }
}

/// Every occurrence of `from` (non-overlapping, left to right) replaced by `to`.
pub open spec fn replace_lit(s: Seq<char>, from: Seq<char>, to: Seq<char>) -> Seq<char>
    decreases s.len(),
{
    if s.len() == 0 {
        Seq::empty()
    } else if 0 < from.len() <= s.len() && s.take(from.len() as int) == from {
        to + replace_lit(s.skip(from.len() as int), from, to)
    } else {
        seq![s[0]] + replace_lit(s.skip(1), from, to)
    }
}

pub open spec fn is_dec_digit(c: char) -> bool {
    48 <= c as u32 <= 57
}

pub open spec fn digit_val(c: char) -> int {
    c as u32 - 48
}

/// Value of a decimal digit string, most significant digit first.
pub open spec fn dec_val(s: Seq<char>) -> int
    decreases s.len(),
{
    if s.len() == 0 {
        0
    } else {
        dec_val(s.take(s.len() - 1)) * 10 + digit_val(s[s.len() - 1])
    }
}

/// A well-formed frequency field: non-empty, decimal digits only.
pub open spec fn is_dec_string(s: Seq<char>) -> bool {
    s.len() > 0 && forall|i: int| 0 <= i < s.len() ==> is_dec_digit(s[i])
}

/// Split at the first tab, if any: the table-record separator.
pub open spec fn tab_split(s: Seq<char>) -> Option<(Seq<char>, Seq<char>)>
    decreases s.len(),
{
    if s.len() == 0 {
        None
    } else if s[0] == '\t' {
        Some((Seq::empty(), s.skip(1)))
    } else {
        match tab_split(s.skip(1)) {
            None => None,
            Some((a, b)) => Some((seq![s[0]] + a, b)),
        }
    }
}

/// The characters of a string, as an indexable vector.
pub fn chars_of(s: &str) -> (r: Vec<char>)
    ensures
        r@ == s@,
{
    let n = s.unicode_len();
    let mut r: Vec<char> = Vec::new();
    let mut i: usize = 0;
    while i < n
        invariant
            i <= n,
            n == s@.len(),
            r@ == s@.take(i as int),
        decreases n - i,
    {
        r.push(s.get_char(i));
        i = i + 1;
        proof {
            assert(r@ =~= s@.take(i as int));
        }
    }
    proof {
        assert(r@ =~= s@);
    }
    r
}

/// Relies on `String::push`: appends the given character to the end.
#[verifier::external_body]
fn push_char(s: &mut String, c: char)
    ensures
        final(s)@ == old(s)@ + seq![c],
{
    s.push(c)
}

/// A `String` holding the characters `s[from..to]`.
pub fn string_from_range(s: &Vec<char>, from: usize, to: usize) -> (r: String)
    requires
        from <= to <= s@.len(),
    ensures
        r@ == s@.subrange(from as int, to as int),
{
    let mut r = String::new();
    let mut i: usize = from;
    while i < to
        invariant
            from <= i <= to <= s@.len(),
            r@ == s@.subrange(from as int, i as int),
        decreases to - i,
    {
        push_char(&mut r, s[i]);
        i = i + 1;
        proof {
            assert(r@ =~= s@.subrange(from as int, i as int));
        }
    }
    r
}

/// The whole vector as a `String`.
pub fn string_of(s: &Vec<char>) -> (r: String)
    ensures
        r@ == s@,
{
    let r = string_from_range(s, 0, s.len());
    proof {
        assert(s@.subrange(0, s@.len() as int) =~= s@);
    }
    r
}

/// A copy of the characters `s[from..to]`.
pub fn subvec(s: &Vec<char>, from: usize, to: usize) -> (r: Vec<char>)
    requires
        from <= to <= s@.len(),
    ensures
        r@ == s@.subrange(from as int, to as int),
{
    let mut r: Vec<char> = Vec::new();
    let mut i: usize = from;
    while i < to
        invariant
            from <= i <= to <= s@.len(),
            r@ == s@.subrange(from as int, i as int),
        decreases to - i,
    {
        r.push(s[i]);
        i = i + 1;
        proof {
            assert(r@ =~= s@.subrange(from as int, i as int));
        }
    }
    r
}

/// Whether `from` occurs in `s` starting at position `i`.
pub fn matches_at(s: &Vec<char>, from: &Vec<char>, i: usize) -> (r: bool)
    requires
        i <= s@.len(),
    ensures
        r == (i + from@.len() <= s@.len() && s@.subrange(
            i as int,
            i + from@.len(),
        ) == from@),
{
    if s.len() - i < from.len() {
        return false;
    }
    let mut k: usize = 0;
    while k < from.len()
        invariant
            0 <= k <= from@.len(),
            i + from@.len() <= s@.len(),
            forall|m: int| 0 <= m < k ==> s@[i + m] == from@[m],
        decreases from@.len() - k,
    {
        proof {
            assert(s@.len() == s.len());
            assert(i + k < s@.len());
        }
        if s[i + k] != from[k] {
            proof {
                assert(s@.subrange(i as int, i + from@.len())[k as int] != from@[k as int]);
            }
            return false;
        }
        k = k + 1;
    }
    proof {
        assert(s@.subrange(i as int, i + from@.len()) =~= from@);
    }
    true
}

/// Every occurrence of `from` in `s` replaced by `to`, left to right.
pub fn replace_all(s: &Vec<char>, from: &Vec<char>, to: &Vec<char>) -> (r: Vec<char>)
    requires
        from@.len() > 0,
    ensures
        r@ == replace_lit(s@, from@, to@),
{
    let mut out: Vec<char> = Vec::new();
    let mut i: usize = 0;
    proof {
        assert(s@.skip(0) =~= s@);
        assert(Seq::<char>::empty() + replace_lit(s@, from@, to@) =~= replace_lit(
            s@,
            from@,
            to@,
        ));
    }
    while i < s.len()
        invariant
            i <= s@.len(),
            from@.len() > 0,
            replace_lit(s@, from@, to@) == out@ + replace_lit(s@.skip(i as int), from@, to@),
        decreases s@.len() - i,
    {
        let ghost pre = out@;
        if matches_at(s, from, i) {
            out.extend_from_slice(to.as_slice());
            let ni = i + from.len();
            proof {
                let tail = s@.skip(i as int);
                assert(tail.take(from@.len() as int) =~= s@.subrange(i as int, i + from@.len()));
                assert(tail.skip(from@.len() as int) =~= s@.skip(ni as int));
                assert(replace_lit(tail, from@, to@) == to@ + replace_lit(
                    s@.skip(ni as int),
                    from@,
                    to@,
                ));
                assert(out@ =~= pre + to@);
                assert(pre + (to@ + replace_lit(s@.skip(ni as int), from@, to@)) =~= (pre + to@)
                    + replace_lit(s@.skip(ni as int), from@, to@));
            }
            i = ni;
        } else {
            out.push(s[i]);
            let ni = i + 1;
            proof {
                let tail = s@.skip(i as int);
                assert(tail[0] == s@[i as int]);
                if 0 < from@.len() <= tail.len() && tail.take(from@.len() as int) == from@ {
                    assert(tail.take(from@.len() as int) =~= s@.subrange(
                        i as int,
                        i + from@.len(),
                    ));
                    assert(false);
                }
                assert(tail.skip(1) =~= s@.skip(ni as int));
                assert(replace_lit(tail, from@, to@) == seq![s@[i as int]] + replace_lit(
                    s@.skip(ni as int),
                    from@,
                    to@,
                ));
                assert(out@ =~= pre + seq![s@[i as int]]);
                assert(pre + (seq![s@[i as int]] + replace_lit(s@.skip(ni as int), from@, to@))
                    =~= out@ + replace_lit(s@.skip(ni as int), from@, to@));
            }
            i = ni;
        }
    }
    proof {
        assert(s@.skip(s@.len() as int) =~= Seq::<char>::empty());
        assert(out@ + Seq::<char>::empty() =~= out@);
    }
    out
}

proof fn lemma_word_len_at(s: Seq<char>, k: int)
    requires
        0 <= k <= s.len(),
        forall|m: int| 0 <= m < k ==> !is_ws_char(s[m]),
        k == s.len() || is_ws_char(s[k]),
    ensures
        word_len(s) == k,
    decreases k,
{
    if k == 0 {
    } else {
        lemma_word_len_at(s.skip(1), k - 1);
    }
}

/// The whitespace-separated tokens of `s`, each as a `String`.
pub fn split_whitespace_of(s: &Vec<char>) -> (r: Vec<String>)
    ensures
        r.deep_view() == split_ws(s@),
{
    let mut r: Vec<String> = Vec::new();
    let mut i: usize = 0;
    proof {
        assert(s@.skip(0) =~= s@);
        assert(Seq::<Seq<char>>::empty() + split_ws(s@) =~= split_ws(s@));
    }
    while i < s.len()
        invariant
            i <= s@.len(),
            split_ws(s@) == r.deep_view() + split_ws(s@.skip(i as int)),
        decreases s@.len() - i,
    {
        let ghost pre = r.deep_view();
        let c = s[i];
        if c == ' ' || c == '\n' || c == '\t' || c == '\r' {
            proof {
                let tail = s@.skip(i as int);
                assert(tail[0] == s@[i as int]);
                assert(tail.skip(1) =~= s@.skip(i + 1));
                assert(split_ws(tail) == split_ws(s@.skip(i + 1)));
            }
            i = i + 1;
        } else {
            let start = i;
            let j = scan_word(s, start);
            let word = string_from_range(s, start, j);
            r.push(word);
            proof {
                let tail = s@.skip(start as int);
                assert(tail[0] == s@[start as int]);
                assert(j > start);
                assert(forall|m: int| 0 <= m < j - start ==> tail[m] == s@[start + m]
                    && !is_ws_char(tail[m]));
                if j < s@.len() {
                    assert(tail[j - start] == s@[j as int]);
                }
                lemma_word_len_at(tail, j - start);
                assert(tail.take(j - start) =~= s@.subrange(start as int, j as int));
                assert(tail.skip(j - start) =~= s@.skip(j as int));
                assert(split_ws(tail) == seq![s@.subrange(start as int, j as int)] + split_ws(
                    s@.skip(j as int),
                ));
                assert(r.deep_view() =~= pre.push(s@.subrange(start as int, j as int)));
                assert(pre + (seq![s@.subrange(start as int, j as int)] + split_ws(
                    s@.skip(j as int),
                )) =~= r.deep_view() + split_ws(s@.skip(j as int)));
            }
            i = j;
        }
    }
    proof {
        assert(s@.skip(s@.len() as int) =~= Seq::<char>::empty());
        assert(r.deep_view() + Seq::<Seq<char>>::empty() =~= r.deep_view());
    }
    r
}

/// The end of the non-whitespace run starting at `start`.
fn scan_word(s: &Vec<char>, start: usize) -> (j: usize)
    requires
        start <= s@.len(),
    ensures
        start <= j <= s@.len(),
        forall|m: int| start <= m < j ==> !is_ws_char(s@[m]),
        j < s@.len() ==> is_ws_char(s@[j as int]),
{
    let mut j: usize = start;
    while j < s.len()
        invariant
            start <= j <= s@.len(),
            forall|m: int| start <= m < j ==> !is_ws_char(s@[m]),
        decreases s@.len() - j,
    {
        let d = s[j];
        if d == ' ' || d == '\n' || d == '\t' || d == '\r' {
            return j;
        }
        j = j + 1;
    }
    j
}

/// The tokens of a string, split on whitespace.
pub fn words_of(s: &str) -> (r: Vec<String>)
    ensures
        r.deep_view() == split_ws(s@),
{
    let cs = chars_of(s);
    split_whitespace_of(&cs)
}

pub proof fn lemma_join_push(ws: Seq<Seq<char>>, x: Seq<char>)
    ensures
        ws.len() == 0 ==> join_sp(ws.push(x)) == x,
        ws.len() > 0 ==> join_sp(ws.push(x)) == join_sp(ws) + seq![' '] + x,
{
    if ws.len() == 0 {
        assert(join_sp(ws.push(x)) == ws.push(x)[0]);
        assert(ws.push(x)[0] == x);
    } else {
        assert(ws.push(x).drop_last() =~= ws);
        assert(ws.push(x).last() == x);
    }
}

/// The tokens `tokens[from..to]` joined by single spaces.
pub fn join_range(tokens: &Vec<String>, from: usize, to: usize) -> (r: String)
    requires
        from <= to <= tokens@.len(),
    ensures
        r@ == join_sp(tokens.deep_view().subrange(from as int, to as int)),
{
    let mut r = String::new();
    if from == to {
        proof {
            assert(tokens.deep_view().subrange(from as int, to as int) =~= Seq::<Seq<
                char,
            >>::empty());
        }
        return r;
    }
    r = tokens[from].clone();
    proof {
        assert(tokens.deep_view().subrange(from as int, from + 1) =~= seq![
            tokens.deep_view()[from as int],
        ]);
        assert(r@ == tokens.deep_view()[from as int]);
    }
    let mut i: usize = from + 1;
    while i < to
        invariant
            from < i <= to <= tokens@.len(),
            r@ == join_sp(tokens.deep_view().subrange(from as int, i as int)),
        decreases to - i,
    {
        push_char(&mut r, ' ');
        let w = &tokens[i];
        r.append(w.as_str());
        proof {
            let dv = tokens.deep_view();
            let prefix = dv.subrange(from as int, i as int);
            assert(dv.subrange(from as int, i + 1) =~= prefix.push(dv[i as int]));
            lemma_join_push(prefix, dv[i as int]);
            assert(prefix.len() > 0);
            assert((join_sp(prefix) + seq![' ']) + dv[i as int] =~= join_sp(prefix) + seq![' ']
                + dv[i as int]);
        }
        i = i + 1;
    }
    r
}

/// All tokens joined by single spaces.
pub fn join_all(tokens: &Vec<String>) -> (r: String)
    ensures
        r@ == join_sp(tokens.deep_view()),
{
    let r = join_range(tokens, 0, tokens.len());
    proof {
        assert(tokens.deep_view().subrange(0, tokens.deep_view().len() as int) =~= tokens
            .deep_view());
    }
    r
}

proof fn lemma_dec_val_nonneg(s: Seq<char>)
    requires
        forall|i: int| 0 <= i < s.len() ==> is_dec_digit(s[i]),
    ensures
        dec_val(s) >= 0,
    decreases s.len(),
{
    if s.len() > 0 {
        assert(forall|i: int| 0 <= i < s.len() - 1 ==> s.take(s.len() - 1)[i] == s[i]);
        lemma_dec_val_nonneg(s.take(s.len() - 1));
    }
}

proof fn lemma_dec_val_prefix_le(s: Seq<char>, k: int)
    requires
        forall|i: int| 0 <= i < s.len() ==> is_dec_digit(s[i]),
        0 <= k <= s.len(),
    ensures
        dec_val(s.take(k)) <= dec_val(s),
    decreases s.len() - k,
{
    if k == s.len() {
        assert(s.take(k) =~= s);
    } else {
        assert(forall|i: int| 0 <= i < k + 1 ==> s.take(k + 1)[i] == s[i]);
        assert(s.take(k + 1).take(k) =~= s.take(k));
        lemma_dec_val_nonneg(s.take(k));
        assert(dec_val(s.take(k + 1)) == dec_val(s.take(k)) * 10 + digit_val(s[k]));
        assert(dec_val(s.take(k)) * 10 >= dec_val(s.take(k)));
        lemma_dec_val_prefix_le(s, k + 1);
    }
}

/// Parse a frequency field: `Some` exactly when `s` is a non-empty decimal
/// digit string whose value fits in a `u32`.
pub fn parse_u32(s: &Vec<char>) -> (r: Option<u32>)
    ensures
        r is Some <==> (is_dec_string(s@) && dec_val(s@) <= u32::MAX),
        r is Some ==> r->Some_0 == dec_val(s@),
{
    if s.len() == 0 {
        return None;
    }
    let mut acc: u64 = 0;
    let mut i: usize = 0;
    while i < s.len()
        invariant
            i <= s@.len(),
            s@.len() > 0,
            forall|m: int| 0 <= m < i ==> is_dec_digit(s@[m]),
            acc == dec_val(s@.take(i as int)),
            acc <= u32::MAX,
        decreases s@.len() - i,
    {
        let c = s[i];
        let u = c as u32;
        if u < 48 || u > 57 {
            return None;
        }
        let d = (u - 48) as u64;
        let next: u64 = acc * 10 + d;
        proof {
            assert(forall|m: int| 0 <= m < i + 1 ==> s@.take(i + 1)[m] == s@[m]);
            assert(s@.take(i + 1).take(i as int) =~= s@.take(i as int));
            assert(dec_val(s@.take(i + 1)) == acc * 10 + digit_val(s@[i as int]));
        }
        if next > 0xffff_ffffu64 {
            proof {
                if is_dec_string(s@) {
                    lemma_dec_val_prefix_le(s@, i + 1);
                }
            }
            return None;
        }
        acc = next as u32 as u64;
        i = i + 1;
    }
    proof {
        assert(s@.take(s@.len() as int) =~= s@);
    }
    Some(acc as u32)
}

proof fn lemma_tab_split_none(s: Seq<char>)
    requires
        forall|i: int| 0 <= i < s.len() ==> s[i] != '\t',
    ensures
        tab_split(s) is None,
    decreases s.len(),
{
    if s.len() > 0 {
        assert(forall|i: int| 0 <= i < s.len() - 1 ==> s.skip(1)[i] == s[i + 1]);
        lemma_tab_split_none(s.skip(1));
    }
}

pub proof fn lemma_tab_split_at(s: Seq<char>, k: int)
    requires
        0 <= k < s.len(),
        forall|i: int| 0 <= i < k ==> s[i] != '\t',
        s[k] == '\t',
    ensures
        tab_split(s) == Some((s.take(k), s.skip(k + 1))),
    decreases k,
{
    if k == 0 {
        assert(s.take(0) =~= Seq::<char>::empty());
    } else {
        assert(forall|i: int| 0 <= i < s.len() - 1 ==> s.skip(1)[i] == s[i + 1]);
        lemma_tab_split_at(s.skip(1), k - 1);
        assert(tab_split(s) == Some(
            (seq![s[0]] + s.skip(1).take(k - 1), s.skip(1).skip(k)),
        ));
        assert(seq![s[0]] + s.skip(1).take(k - 1) =~= s.take(k));
        assert(s.skip(1).skip(k) =~= s.skip(k + 1));
    }
}

/// A successful tab split decomposes the line: the key is tab-free and the
/// line is the key, a tab, and the rest.
pub proof fn lemma_tab_split_parts(s: Seq<char>)
    requires
        tab_split(s) is Some,
    ensures
        s == tab_split(s)->Some_0.0 + seq!['\t'] + tab_split(s)->Some_0.1,
        forall|i: int| 0 <= i < tab_split(s)->Some_0.0.len() ==> tab_split(s)->Some_0.0[i] != '\t',
    decreases s.len(),
{
    if s[0] == '\t' {
        assert(s =~= Seq::<char>::empty() + seq!['\t'] + s.skip(1));
    } else {
        lemma_tab_split_parts(s.skip(1));
        let (a, b) = tab_split(s.skip(1))->Some_0;
        assert(tab_split(s)->Some_0.0 == seq![s[0]] + a);
        assert(s.skip(1) == a + seq!['\t'] + b);
        assert forall|i: int| 0 <= i < s.len() implies s[i] == ((seq![s[0]] + a) + seq!['\t']
            + b)[i] by {
            if i >= 1 {
                assert(s[i] == s.skip(1)[i - 1]);
                assert(s.skip(1)[i - 1] == (a + seq!['\t'] + b)[i - 1]);
            }
        }
        assert(s =~= (seq![s[0]] + a) + seq!['\t'] + b);
        assert(forall|i: int| 1 <= i < (seq![s[0]] + a).len() ==> (seq![s[0]] + a)[i] == a[i - 1]);
    }
}

/// Joining well-formed tokens never introduces a tab.
pub proof fn lemma_join_sp_no_tab(ws: Seq<Seq<char>>)
    requires
        forall|k: int| 0 <= k < ws.len() ==> token_ok(#[trigger] ws[k]),
    ensures
        forall|i: int| 0 <= i < join_sp(ws).len() ==> join_sp(ws)[i] != '\t',
    decreases ws.len(),
{
    if ws.len() == 0 {
    } else if ws.len() == 1 {
        assert(join_sp(ws) == ws[0]);
        assert(token_ok(ws[0]));
    } else {
        lemma_join_sp_no_tab(ws.drop_last());
        assert(token_ok(ws.last()));
        let head = join_sp(ws.drop_last());
        assert(join_sp(ws) == head + seq![' '] + ws.last());
        assert forall|i: int| 0 <= i < join_sp(ws).len() implies join_sp(ws)[i] != '\t' by {
            if i < head.len() {
                assert(join_sp(ws)[i] == head[i]);
            } else if i == head.len() {
                assert(join_sp(ws)[i] == ' ');
            } else {
                assert(join_sp(ws)[i] == ws.last()[i - head.len() - 1]);
            }
        }
    }
}

/// Split a table record at its first tab: `Some((key, freq field))`, or
/// `None` when the record holds no tab at all.
pub fn split_tab(line: &Vec<char>) -> (r: Option<(Vec<char>, Vec<char>)>)
    ensures
        r is Some <==> tab_split(line@) is Some,
        r is Some ==> tab_split(line@) == Some((r->Some_0.0@, r->Some_0.1@)),
{
    let mut k: usize = 0;
    while k < line.len()
        invariant
            k <= line@.len(),
            forall|m: int| 0 <= m < k ==> line@[m] != '\t',
        decreases line@.len() - k,
    {
        if line[k] == '\t' {
            let a = subvec(line, 0, k);
            let b = subvec(line, k + 1, line.len());
            proof {
                lemma_tab_split_at(line@, k as int);
                assert(line@.take(k as int) =~= line@.subrange(0, k as int));
                assert(line@.skip(k + 1) =~= line@.subrange(k + 1, line@.len() as int));
            }
            return Some((a, b));
        }
        k = k + 1;
    }
    proof {
        lemma_tab_split_none(line@);
    }
    None
}

} // verus!
