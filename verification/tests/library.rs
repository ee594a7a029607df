use nword::clean::tokenize;
use nword::query::{stream_ngrams, reverse_words, suffix_transform, StreamStep};
use nword::table::FreqTable;
use nword::trie::{NgramIndex, TrieNode};
use nword::NgramError;

fn drain(trie: &TrieNode, seed: &str, max_depth: u32) -> Vec<String> {
    let mut s = stream_ngrams(trie, seed, max_depth);
    let mut out = Vec::new();
    loop {
        match s.next(trie) {
            StreamStep::Finished => break,
            StreamStep::Searching => {}
            StreamStep::Phrase(p) => out.push(p),
        }
    }
    out
}

fn table_lines() -> Vec<String> {
    vec![
        "the cat sat\t5".to_string(),
        "the cat ran\t3".to_string(),
        "the dog sat\t1".to_string(),
    ]
}

#[test]
fn tokenize_newline_separated_sentences() {
    let toks = tokenize("The cat sat.\nThe cat ran.\n");
    assert_eq!(
        toks,
        vec!["the", "cat", "sat.", ".", "the", "cat", "ran.", "."]
            .into_iter()
            .map(str::to_string)
            .collect::<Vec<_>>()
    );
}

#[test]
fn tokenize_strips_braces_tags_and_lowercases() {
    let toks = tokenize("Hello {noise} <i>World</i>\n");
    assert_eq!(toks, vec!["hello", "world", "."].into_iter().map(str::to_string).collect::<Vec<_>>());
}

#[test]
fn tokenize_strips_timestamp_ranges() {
    let toks = tokenize("123 00 : 02 : 17, 292 -- > 00 : 02 : 19, 982 hello\n");
    assert_eq!(toks, vec!["hello", "."].into_iter().map(str::to_string).collect::<Vec<_>>());
}

#[test]
fn tokenize_boundary_tokens_from_newlines() {
    let toks = tokenize("The cat sat\nThe cat ran\n");
    assert_eq!(
        toks,
        vec!["the", "cat", "sat", ".", "the", "cat", "ran", "."]
            .into_iter()
            .map(str::to_string)
            .collect::<Vec<_>>()
    );
}

#[test]
fn bigram_counts_skip_boundary() {
    let toks: Vec<String> = vec!["the", "cat", "sat", ".", "the", "cat", "ran", "."]
        .into_iter()
        .map(str::to_string)
        .collect();
    let t = FreqTable::count_ngrams(&toks, 2);
    assert_eq!(t.get(&"the cat".to_string()), 2);
    assert_eq!(t.get(&"cat sat".to_string()), 1);
    assert_eq!(t.get(&"cat ran".to_string()), 1);
    assert_eq!(t.get(&"sat .".to_string()), 0);
    assert_eq!(t.get(&". the".to_string()), 0);
}

#[test]
fn unigram_counts_sum_to_nonboundary_tokens() {
    let toks: Vec<String> = vec!["the", "cat", "sat", ".", "the", "cat", "ran", "."]
        .into_iter()
        .map(str::to_string)
        .collect();
    let t = FreqTable::count_ngrams(&toks, 1);
    let ranked = t.rank();
    let sum: u64 = ranked.iter().map(|e| e.1).sum();
    assert_eq!(sum, 6);
}

#[test]
fn ranked_list_is_nonincreasing() {
    let toks: Vec<String> = "a b a c a b d".split(' ').map(str::to_string).collect();
    let t = FreqTable::count_ngrams(&toks, 1);
    let ranked = t.rank();
    for w in ranked.windows(2) {
        assert!(w[0].1 >= w[1].1);
    }
    assert_eq!(ranked[0], ("a".to_string(), 3));
}

#[test]
fn merge_sums_counts() {
    let t1 = FreqTable::count_ngrams(
        &vec!["a".to_string(), "b".to_string(), "a".to_string()],
        1,
    );
    let mut t2 = FreqTable::count_ngrams(&vec!["a".to_string(), "c".to_string()], 1);
    t2.merge_from(&t1);
    assert_eq!(t2.get(&"a".to_string()), 3);
    assert_eq!(t2.get(&"b".to_string()), 1);
    assert_eq!(t2.get(&"c".to_string()), 1);
}

#[test]
fn trie_load_and_lookup_scenario() {
    let trie = TrieNode::from_it(&table_lines(), 2).unwrap();
    let mut hits = trie.lookup("the cat");
    hits.sort();
    assert_eq!(
        hits,
        vec![("the cat ran".to_string(), 3), ("the cat sat".to_string(), 5)]
    );
    assert_eq!(trie.lookup("the dog"), vec![]);
}

#[test]
fn trie_cutoff_keeps_low_frequency_records_out() {
    let trie = TrieNode::from_it(&table_lines(), 1).unwrap();
    let mut hits = trie.lookup("the dog");
    hits.sort();
    assert_eq!(hits, vec![("the dog sat".to_string(), 1)]);
}

#[test]
fn trie_cutoff_never_reads_past_first_low_record() {
    let lines: Vec<String> = vec![
        "the cat sat\t5".to_string(),
        "the cat ran\t1".to_string(),
        "broken line without tab".to_string(),
    ];
    let trie = TrieNode::from_it(&lines, 2).unwrap();
    assert_eq!(trie.lookup("the cat"), vec![("the cat sat".to_string(), 5)]);
}

#[test]
fn malformed_record_missing_tab() {
    let lines = vec!["the cat sat 5".to_string()];
    assert_eq!(
        TrieNode::from_it(&lines, 1).unwrap_err(),
        NgramError::MalformedTableRecord
    );
}

#[test]
fn malformed_record_bad_frequency() {
    let lines = vec!["the cat sat\tfive".to_string()];
    assert_eq!(
        TrieNode::from_it(&lines, 1).unwrap_err(),
        NgramError::MalformedTableRecord
    );
}

#[test]
fn frequency_fits_u32_or_is_malformed() {
    let ok = vec!["a b c\t4294967295".to_string()];
    assert!(TrieNode::from_it(&ok, 1).is_ok());
    let too_big = vec!["a b c\t4294967296".to_string()];
    assert_eq!(
        TrieNode::from_it(&too_big, 1).unwrap_err(),
        NgramError::MalformedTableRecord
    );
}

#[test]
fn insert_replaces_on_repeat() {
    let mut trie = TrieNode::new();
    trie.insert("a b c", 7);
    trie.insert("a b c", 9);
    assert_eq!(trie.lookup("a b"), vec![("a b c".to_string(), 9)]);
}

#[test]
fn lookup_absent_prefix_is_empty() {
    let mut trie = TrieNode::new();
    trie.insert("a b c", 7);
    assert_eq!(trie.lookup("b c"), vec![]);
}

#[test]
fn stream_two_word_seed_collects_continuations() {
    let trie = TrieNode::from_it(&table_lines(), 1).unwrap();
    let mut out = drain(&trie, "the cat", 2);
    out.sort();
    assert_eq!(
        out,
        vec!["the cat ran".to_string(), "the cat sat".to_string()]
    );
}

#[test]
fn stream_depth_bound_holds() {
    let lines: Vec<String> = vec![
        "a b c\t9".to_string(),
        "b c d\t8".to_string(),
        "c d e\t7".to_string(),
        "d e f\t6".to_string(),
    ];
    let trie = TrieNode::from_it(&lines, 1).unwrap();
    for max_depth in 0..3u32 {
        let out = drain(&trie, "a b", max_depth);
        let seed_words = 2usize;
        for p in &out {
            let wc = p.split_whitespace().count();
            let cap = if max_depth >= 1 { max_depth as usize } else { 1 };
            assert!(wc <= seed_words + cap + 1, "{p} too deep for {max_depth}");
        }
        assert!(out.contains(&"a b c".to_string()));
    }
}

#[test]
fn stream_single_word_seed_emits_two_word_seeds_first() {
    let trie = TrieNode::from_it(&table_lines(), 1).unwrap();
    let mut out = drain(&trie, "the", 2);
    out.sort();
    assert_eq!(
        out,
        vec![
            "the cat".to_string(),
            "the cat ran".to_string(),
            "the cat sat".to_string(),
            "the dog".to_string(),
            "the dog sat".to_string(),
        ]
    );
}

#[test]
fn reverse_words_round_trip() {
    assert_eq!(reverse_words("a b c"), "c b a".to_string());
    assert_eq!(reverse_words(&reverse_words("a b c")), "a b c".to_string());
    assert_eq!(reverse_words("word"), "word".to_string());
}

#[test]
fn suffix_transform_reverses_record() {
    assert_eq!(suffix_transform("the cat sat\t5"), "sat cat the\t5".to_string());
}

#[test]
fn suffix_mode_finds_preceding_words() {
    let lines: Vec<String> = table_lines().iter().map(|l| suffix_transform(l)).collect();
    let trie = TrieNode::from_it(&lines, 1).unwrap();
    // Seed "cat sat" reversed is "sat cat"; results reversed give the full
    // n-grams that END in the seed.
    let out = drain(&trie, &reverse_words("cat sat"), 2);
    let restored: Vec<String> = out.iter().map(|p| reverse_words(p)).collect();
    assert_eq!(restored, vec!["the cat sat".to_string()]);
}

#[test]
fn suffix_round_trip_matches_forward_on_reversed_records() {
    let reversed_records: Vec<String> = table_lines()
        .iter()
        .map(|l| {
            let (k, f) = l.split_once('\t').unwrap();
            let rev: Vec<&str> = k.split_whitespace().rev().collect();
            format!("{}\t{}", rev.join(" "), f)
        })
        .collect();
    let via_transform: Vec<String> = table_lines().iter().map(|l| suffix_transform(l)).collect();
    assert_eq!(reversed_records, via_transform);
    let t1 = TrieNode::from_it(&reversed_records, 1).unwrap();
    let t2 = TrieNode::from_it(&via_transform, 1).unwrap();
    let mut a = drain(&t1, "sat cat", 2);
    let mut b = drain(&t2, "sat cat", 2);
    a.sort();
    b.sort();
    assert_eq!(a, b);
}

#[test]
fn tokenize_then_count_then_rank_end_to_end() {
    let toks = tokenize("the cat sat\nthe cat ran\nthe cat sat\n");
    let t = FreqTable::count_ngrams(&toks, 3);
    let ranked = t.rank();
    assert_eq!(ranked[0], ("the cat sat".to_string(), 2));
    assert_eq!(ranked.len(), 2);
    for w in ranked.windows(2) {
        assert!(w[0].1 >= w[1].1);
    }
}

#[test]
fn load_record_streams_until_cutoff() {
    let mut trie = TrieNode::new();
    assert_eq!(trie.load_record("the cat sat\t5", 2), Ok(true));
    assert_eq!(trie.load_record("the cat ran\t3", 2), Ok(true));
    // below the cutoff: reported, not inserted; a driver stops reading here
    assert_eq!(trie.load_record("the dog sat\t1", 2), Ok(false));
    let mut hits = trie.lookup("the cat");
    hits.sort();
    assert_eq!(
        hits,
        vec![("the cat ran".to_string(), 3), ("the cat sat".to_string(), 5)]
    );
    assert_eq!(trie.lookup("the dog"), vec![]);
}

#[test]
fn load_record_rejects_malformed() {
    let mut trie = TrieNode::new();
    assert_eq!(
        trie.load_record("no tab here", 1),
        Err(NgramError::MalformedTableRecord)
    );
    assert_eq!(
        trie.load_record("the cat sat\tmany", 1),
        Err(NgramError::MalformedTableRecord)
    );
    // a failed load leaves the index untouched
    assert_eq!(trie.lookup("the cat"), vec![]);
}

#[test]
fn total_count_sums_the_table() {
    let toks: Vec<String> = "a b a c".split(' ').map(str::to_string).collect();
    let t = FreqTable::count_ngrams(&toks, 1);
    assert_eq!(t.total_count(), Some(4));
}
