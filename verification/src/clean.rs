//! The corpus cleaner/tokenizer: strips subtitle-format artifacts,
//! lowercases, applies an ordered sequence of literal substitutions, and
//! splits on whitespace. A best-effort heuristic cleaner for a subtitle
//! corpus format, not a general tokenizer.

use vstd::prelude::*;
use crate::text::{split_ws, replace_lit, replace_all, chars_of, split_whitespace_of};

verus! {

/// What `regex` removes for the brace pattern: every `{...}` span.
pub uninterp spec fn braces_stripped(s: Seq<char>) -> Seq<char>;

/// What `regex` removes for the short angle-tag pattern: every `<...>` tag
/// with at most three interior characters.
pub uninterp spec fn tags_stripped(s: Seq<char>) -> Seq<char>;

/// What `regex` removes for the timestamp-range pattern.
pub uninterp spec fn timestamps_stripped(s: Seq<char>) -> Seq<char>;

/// What `str::to_lowercase` returns; a function of the characters alone.
pub uninterp spec fn lower_of(s: Seq<char>) -> Seq<char>;

/// Relies on `regex::Regex::replace_all` with the fixed pattern
/// `\{\s*[^}]*\}` and the empty replacement: removes each bracketed
/// annotation span. The pattern is a constant known to compile.
#[verifier::external_body]
fn strip_braces(s: &str) -> (r: String)
    ensures
        r@ == braces_stripped(s@),
        s@.len() == 0 ==> r@.len() == 0,
{
    let re = regex::Regex::new(r"\{\s*[^}]*\}").unwrap();
    re.replace_all(s, "").into_owned()
}

/// Relies on `regex::Regex::replace_all` with the fixed pattern
/// `<[^>]{1,3}>` and the empty replacement: removes each short
/// angle-bracket tag. The pattern is a constant known to compile.
#[verifier::external_body]
fn strip_tags(s: &str) -> (r: String)
    ensures
        r@ == tags_stripped(s@),
        s@.len() == 0 ==> r@.len() == 0,
{
    let re = regex::Regex::new(r"<[^>]{1,3}>").unwrap();
    re.replace_all(s, "").into_owned()
}

/// Relies on `regex::Regex::replace_all` with the fixed timestamp-range
/// pattern (three digits, optional letter, `HH : MM` groups, comma,
/// fraction, `-- >`, mirrored timestamp) and the empty replacement. The
/// pattern is a constant known to compile.
#[verifier::external_body]
fn strip_timestamps(s: &str) -> (r: String)
    ensures
        r@ == timestamps_stripped(s@),
        s@.len() == 0 ==> r@.len() == 0,
{
    let re = regex::Regex::new(
        r"\d\d\d\w? (\d\d : )+\d\d, \d\d\d\d? -- > (\d\d : )+\d\d, \d\d\d\d? ",
    ).unwrap();
    re.replace_all(s, "").into_owned()
}

/// Relies on `str::to_lowercase`: the result depends on the characters
/// alone, and an empty string stays empty.
#[verifier::external_body]
fn lowercase(s: &str) -> (r: String)
    ensures
        r@ == lower_of(s@),
        s@.len() == 0 ==> r@.len() == 0,
{
    s.to_lowercase()
}

/// The ordered literal substitutions that normalize line continuations,
/// ellipses, dialogue dashes, stray punctuation spacing and possessives;
/// newlines become the sentence-boundary token.
pub open spec fn normalized(s: Seq<char>) -> Seq<char> {
    let s1 = replace_lit(s, "\n- "@, " "@);
    let s2 = replace_lit(s1, "\n... "@, " "@);
    let s3 = replace_lit(s2, " ...\n"@, " . "@);
    let s4 = replace_lit(s3, " ,,,\n"@, " . "@);
    let s5 = replace_lit(s4, " -\n"@, " . "@);
    let s6 = replace_lit(s5, "'\n"@, " "@);
    let s7 = replace_lit(s6, "\n' "@, " "@);
    let s8 = replace_lit(s7, "\n"@, " . "@);
    let s9 = replace_lit(s8, " .. "@, " "@);
    let s10 = replace_lit(s9, " ..."@, ""@);
    let s11 = replace_lit(s10, " ' "@, " "@);
    let s12 = replace_lit(s11, ", "@, " "@);
    let s13 = replace_lit(s12, ": "@, " "@);
    let s14 = replace_lit(s13, " - "@, " "@);
    let s15 = replace_lit(s14, "- "@, " "@);
    let s16 = replace_lit(s15, " \" "@, " "@);
    replace_lit(s16, "' s"@, "s"@)
}

/// The token sequence the cleaner produces for a raw text fragment.
pub open spec fn spec_tokens(s: Seq<char>) -> Seq<Seq<char>> {
    split_ws(normalized(lower_of(timestamps_stripped(tags_stripped(braces_stripped(s))))))
}

/// Clean a corpus fragment and split it into tokens.
pub fn tokenize(text: &str) -> (r: Vec<String>)
    ensures
        r.deep_view() == spec_tokens(text@),
{
    let s1 = strip_braces(text);
    let s2 = strip_tags(s1.as_str());
    let s3 = strip_timestamps(s2.as_str());
    let s4 = lowercase(s3.as_str());
    let mut cs = chars_of(s4.as_str());
    proof {
        reveal_strlit("\n- ");
        reveal_strlit("\n... ");
        reveal_strlit(" ...\n");
        reveal_strlit(" ,,,\n");
        reveal_strlit(" -\n");
        reveal_strlit("'\n");
        reveal_strlit("\n' ");
        reveal_strlit("\n");
        reveal_strlit(" .. ");
        reveal_strlit(" ...");
        reveal_strlit(" ' ");
        reveal_strlit(", ");
        reveal_strlit(": ");
        reveal_strlit(" - ");
        reveal_strlit("- ");
        reveal_strlit(" \" ");
        reveal_strlit("' s");
    }
    cs = step(&cs, "\n- ", " ");
    cs = step(&cs, "\n... ", " ");
    cs = step(&cs, " ...\n", " . ");
    cs = step(&cs, " ,,,\n", " . ");
    cs = step(&cs, " -\n", " . ");
    cs = step(&cs, "'\n", " ");
    cs = step(&cs, "\n' ", " ");
    cs = step(&cs, "\n", " . ");
    cs = step(&cs, " .. ", " ");
    cs = step(&cs, " ...", "");
    cs = step(&cs, " ' ", " ");
    cs = step(&cs, ", ", " ");
    cs = step(&cs, ": ", " ");
    cs = step(&cs, " - ", " ");
    cs = step(&cs, "- ", " ");
    cs = step(&cs, " \" ", " ");
    cs = step(&cs, "' s", "s");
    split_whitespace_of(&cs)
}

/// One literal substitution pass.
fn step(s: &Vec<char>, from: &str, to: &str) -> (r: Vec<char>)
    requires
        from@.len() > 0,
    ensures
        r@ == replace_lit(s@, from@, to@),
{
    let f = chars_of(from);
    let t = chars_of(to);
    replace_all(s, &f, &t)
}

} // verus!
