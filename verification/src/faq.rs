//! FAQ chunker: one chunk per question/answer entry, with word-boundary-
//! aware (or sentence-boundary) splitting and configurable unit overlap
//! when an entry exceeds the token budget, plus the line-based parser
//! that extracts entries from an FAQ markdown document.

use vstd::prelude::*;
use vstd::string::StrSliceExecFns;
use vstd::string::StringExecFns;
use crate::text::{
    chars_to_string, dec_chars_pad3, dec_str_pad3, is_ws_char, str_to_chars, trim_chars,
    trim_spec, trim_str,
};
use crate::tokens::{is_canonical_key, normalize_spec, token_count_of, Tokenizer, TokenizerError};
use crate::recursive::{blen_u, lemma_nonws_trim, nonws, sat_add, sat_add_usize, vec_slice, vec_tail};

verus! {

/// One question/answer entry of an FAQ document.
#[derive(Debug, Clone)]
pub struct FAQEntry {
    pub category: String,
    pub q: String,
    pub a: String,
    pub tags: Vec<String>,
}

/// One chunk produced from an FAQ entry.
#[derive(Debug, Clone)]
pub struct FAQChunk {
    pub chunk_id: String,
    pub faq_id: String,
    pub category: String,
    pub title: String,
    pub content: String,
    pub tags: Vec<String>,
    pub token_count: usize,
}

/// The mathematical view of one FAQ entry.
pub struct FE {
    pub category: Seq<char>,
    pub q: Seq<char>,
    pub a: Seq<char>,
    pub tags: Seq<Seq<char>>,
}

/// The view an entry realizes.
pub open spec fn fe_of(e: FAQEntry) -> FE {
    FE { category: e.category@, q: e.q@, a: e.a@, tags: e.tags.deep_view() }
}

/// The mathematical view of one FAQ chunk.
pub struct FC {
    pub chunk_id: Seq<char>,
    pub faq_id: Seq<char>,
    pub category: Seq<char>,
    pub title: Seq<char>,
    pub content: Seq<char>,
    pub tags: Seq<Seq<char>>,
    pub token_count: nat,
}

/// The view a chunk realizes.
pub open spec fn fc_of(c: FAQChunk) -> FC {
    FC {
        chunk_id: c.chunk_id@,
        faq_id: c.faq_id@,
        category: c.category@,
        title: c.title@,
        content: c.content@,
        tags: c.tags.deep_view(),
        token_count: c.token_count as nat,
    }
}

// ---------------------------------------------------------------------
// Parsing FAQ entries from markdown
// ---------------------------------------------------------------------

/// The pieces of `s` split at every occurrence of `sep`.
pub open spec fn split_char(s: Seq<char>, sep: spec_fn(char) -> bool) -> Seq<Seq<char>>
    decreases s.len(),
{
    let f = first_such(s, sep);
    if 0 <= f < s.len() {
        seq![s.take(f)] + split_char(s.skip(f + 1), sep)
    } else {
        seq![s]
    }
}

/// The index of the first character satisfying `sep` (the length when
/// none does).
pub open spec fn first_such(s: Seq<char>, sep: spec_fn(char) -> bool) -> int
    decreases s.len(),
{
    if s.len() == 0 {
        0
    } else if sep(s[0]) {
        0
    } else {
        1 + first_such(s.drop_first(), sep)
    }
}

proof fn lemma_first_such_at(s: Seq<char>, k: int, sep: spec_fn(char) -> bool)
    requires
        0 <= k <= s.len(),
        forall|j: int| 0 <= j < k ==> !sep(s[j]),
        k < s.len() ==> sep(s[k]),
    ensures
        first_such(s, sep) == k,
    decreases k,
{
    if s.len() == 0 {
    } else if k == 0 {
    } else {
        let t = s.drop_first();
        assert(t =~= s.subrange(1, s.len() as int));
        assert forall|j: int| 0 <= j < k - 1 implies !sep(t[j]) by {
            assert(t[j] == s[j + 1]);
        }
        lemma_first_such_at(t, k - 1, sep);
    }
}

/// The lines of a document: split on `\n`, a trailing empty piece
/// dropped, and a trailing carriage return stripped from each line.
pub open spec fn lines_spec(s: Seq<char>) -> Seq<Seq<char>> {
    let raw = split_char(s, |c: char| c == '\n');
    let cut = if raw.len() > 0 && raw.last().len() == 0 {
        raw.drop_last()
    } else {
        raw
    };
    cut.map_values(
        |l: Seq<char>|
            if l.len() > 0 && l.last() == '\r' {
                l.drop_last()
            } else {
                l
            },
    )
}

/// Whether `s` starts with `p`.
pub open spec fn starts_with_spec(s: Seq<char>, p: Seq<char>) -> bool {
    p.len() <= s.len() && s.take(p.len() as int) == p
}

/// `s` with every leading repetition of `p` removed (what
/// `str::trim_start_matches` leaves).
pub open spec fn strip_prefix_reps(s: Seq<char>, p: Seq<char>) -> Seq<char>
    decreases s.len(),
{
    if p.len() > 0 && starts_with_spec(s, p) {
        strip_prefix_reps(s.skip(p.len() as int), p)
    } else {
        s
    }
}

/// Whether `: ` occurs in `s`.
pub open spec fn has_colon_space(s: Seq<char>) -> bool {
    exists|i: int| 0 <= i && i + 1 < s.len() && #[trigger] s[i] == ':' && s[i + 1] == ' '
}

/// The text after the first `:`, trimmed (the Q/A payload of a line).
pub open spec fn after_colon(s: Seq<char>) -> Seq<char> {
    let f = first_such(s, |c: char| c == ':');
    if f < s.len() {
        trim_spec(s.skip(f + 1))
    } else {
        Seq::empty()
    }
}

/// The category a `## ` heading line sets: the part after the first
/// `、` or `.` separator if there is one and it is non-empty after
/// trimming, else the whole heading text.
pub open spec fn category_of(after: Seq<char>) -> Seq<char> {
    let parts = split_char(after, |c: char| c == '\u{3001}' || c == '.');
    let clean = if parts.len() >= 2 {
        trim_spec(parts[1])
    } else {
        trim_spec(after)
    };
    if clean.len() == 0 {
        after
    } else {
        clean
    }
}

/// The parser state while scanning lines: current category, a pending
/// question, and the entries so far.
pub struct PSt {
    pub category: Seq<char>,
    pub pending: Option<Seq<char>>,
    pub entries: Seq<FE>,
}

/// Process one line of the FAQ document.
pub open spec fn parse_line_step(st: PSt, line: Seq<char>) -> PSt {
    let t = trim_spec(line);
    let st1 = if starts_with_spec(t, "## "@) && !starts_with_spec(t, "###"@) {
        let after = trim_spec(strip_prefix_reps(t, "## "@));
        PSt { category: category_of(after), ..st }
    } else {
        st
    };
    if starts_with_spec(t, "- Q"@) && has_colon_space(t) {
        PSt { pending: Some(after_colon(t)), ..st1 }
    } else {
        match st1.pending {
            Some(q) => {
                if starts_with_spec(t, "A"@) && has_colon_space(t) {
                    PSt {
                        pending: None,
                        entries: st1.entries.push(
                            FE {
                                category: st1.category,
                                q,
                                a: after_colon(t),
                                tags: Seq::empty(),
                            },
                        ),
                        ..st1
                    }
                } else {
                    PSt { pending: None, ..st1 }
                }
            },
            None => st1,
        }
    }
}

pub open spec fn parse_lines_run(lines: Seq<Seq<char>>, st: PSt) -> PSt
    decreases lines.len(),
{
    if lines.len() == 0 {
        st
    } else {
        parse_line_step(parse_lines_run(lines.drop_last(), st), lines.last())
    }
}

/// The entries extracted from an FAQ markdown document.
pub open spec fn parse_faq_spec(s: Seq<char>) -> Seq<FE> {
    parse_lines_run(
        lines_spec(s),
        PSt { category: "General"@, pending: None, entries: Seq::empty() },
    ).entries
}

/// One of the three separator classes the FAQ parser scans for.
fn sep_hit(c: char, mode: u8) -> (r: bool)
    requires
        mode == 0 || mode == 1 || mode == 2,
    ensures
        r == if mode == 0 {
            c == '\n'
        } else if mode == 1 {
            c == '\u{3001}' || c == '.'
        } else {
            c == ':'
        },
{
    if mode == 0 {
        c == '\n'
    } else if mode == 1 {
        c == '\u{3001}' || c == '.'
    } else {
        c == ':'
    }
}

/// Find the first index whose character is `'\n'`-like per the three
/// separator uses below.
fn scan_first(v: &Vec<char>, mode: u8) -> (r: usize)
    requires
        mode == 0 || mode == 1 || mode == 2,
    ensures
        r as int == first_such(
            v@,
            if mode == 0 {
                |c: char| c == '\n'
            } else if mode == 1 {
                |c: char| c == '\u{3001}' || c == '.'
            } else {
                |c: char| c == ':'
            },
        ),
        r <= v@.len(),
{
    let ghost sep = if mode == 0 {
        |c: char| c == '\n'
    } else if mode == 1 {
        |c: char| c == '\u{3001}' || c == '.'
    } else {
        |c: char| c == ':'
    };
    let mut i: usize = 0;
    while i < v.len() && !sep_hit(v[i], mode)
        invariant
            0 <= i <= v@.len(),
            mode == 0 || mode == 1 || mode == 2,
            sep == (if mode == 0 {
                |c: char| c == '\n'
            } else if mode == 1 {
                |c: char| c == '\u{3001}' || c == '.'
            } else {
                |c: char| c == ':'
            }),
            forall|j: int| 0 <= j < i ==> !sep(v@[j]),
        decreases v@.len() - i,
    {
        i += 1;
    }
    proof {
        lemma_first_such_at(v@, i as int, sep);
    }
    i
}

/// Split a character vector at every separator of the given mode.
fn split_char_exec(v: Vec<char>, mode: u8) -> (r: Vec<Vec<char>>)
    requires
        mode == 0 || mode == 1,
    ensures
        ({
            let sep = if mode == 0 {
                |c: char| c == '\n'
            } else {
                |c: char| c == '\u{3001}' || c == '.'
            };
            &&& r@.len() == split_char(v@, sep).len()
            &&& forall|l: int| 0 <= l < r@.len() ==> (#[trigger] r@[l])@ == split_char(v@, sep)[l]
        }),
    decreases v@.len(),
{
    let ghost sep = if mode == 0 {
        |c: char| c == '\n'
    } else {
        |c: char| c == '\u{3001}' || c == '.'
    };
    let f = scan_first(&v, mode);
    let mut r: Vec<Vec<char>> = Vec::new();
    if f < v.len() {
        let head = vec_slice(&v, 0, f);
        let rest = split_char_exec(vec_tail(&v, f + 1), mode);
        let ghost tail_spec = split_char(v@.skip(f + 1), sep);
        r.push(head);
        let mut j: usize = 0;
        while j < rest.len()
            invariant
                0 <= j <= rest@.len(),
                rest@.len() == tail_spec.len(),
                forall|l: int| 0 <= l < rest@.len() ==> (#[trigger] rest@[l])@ == tail_spec[l],
                r@.len() == j + 1,
                r@[0]@ =~= v@.take(f as int),
                forall|l: int| 0 <= l < j ==> (#[trigger] r@[l + 1])@ == tail_spec[l],
            decreases rest@.len() - j,
        {
            let piece = vec_slice(&rest[j], 0, rest[j].len());
            proof {
                assert(piece@ =~= rest@[j as int]@);
            }
            r.push(piece);
            j += 1;
        }
        proof {
            assert(split_char(v@, sep) == seq![v@.take(f as int)] + tail_spec);
            assert forall|l: int| 0 <= l < r@.len() implies (#[trigger] r@[l])@ == split_char(
                v@,
                sep,
            )[l] by {
                if l > 0 {
                    let m = l - 1;
                    assert(r@[m + 1]@ == tail_spec[m]);
                }
            }
        }
    } else {
        r.push(v);
        proof {
            assert(split_char(r@[0]@, sep) =~= seq![r@[0]@]);
        }
    }
    r
}

/// Whether the character vector starts with the given prefix.
fn starts_with_str(v: &Vec<char>, p: &str) -> (r: bool)
    ensures
        r == starts_with_spec(v@, p@),
{
    let n = p.unicode_len();
    if v.len() < n {
        proof {
            assert(!starts_with_spec(v@, p@));
        }
        return false;
    }
    let mut i: usize = 0;
    while i < n
        invariant
            0 <= i <= n,
            n == p@.len(),
            n <= v@.len(),
            forall|j: int| 0 <= j < i ==> v@[j] == p@[j],
        decreases n - i,
    {
        if v[i] != p.get_char(i) {
            proof {
                assert(v@.take(p@.len() as int)[i as int] != p@[i as int]);
            }
            return false;
        }
        i += 1;
    }
    proof {
        assert(v@.take(p@.len() as int) =~= p@);
    }
    true
}

/// Remove every leading repetition of the prefix.
fn strip_prefix_reps_exec(v: Vec<char>, p: &str) -> (r: Vec<char>)
    requires
        p@.len() > 0,
    ensures
        r@ == strip_prefix_reps(v@, p@),
    decreases v@.len(),
{
    if starts_with_str(&v, p) {
        let n = p.unicode_len();
        strip_prefix_reps_exec(vec_tail(&v, n), p)
    } else {
        v
    }
}

/// Whether `: ` occurs in the line.
fn has_colon_space_exec(v: &Vec<char>) -> (r: bool)
    ensures
        r == has_colon_space(v@),
{
    if v.len() == 0 {
        return false;
    }
    let mut i: usize = 0;
    while v.len() - i > 1
        invariant
            0 <= i,
            i <= v@.len(),
            forall|j: int| 0 <= j && j + 1 < v@.len() && j < i ==> !(#[trigger] v@[j] == ':'
                && v@[j + 1] == ' '),
        decreases v@.len() - i,
    {
        if v[i] == ':' && v[i + 1] == ' ' {
            return true;
        }
        i += 1;
    }
    false
}

/// The trimmed text after the first colon.
fn after_colon_exec(v: &Vec<char>) -> (r: Vec<char>)
    ensures
        r@ == after_colon(v@),
{
    let f = scan_first(v, 2);
    if f < v.len() {
        trim_chars(&vec_tail(v, f + 1))
    } else {
        Vec::new()
    }
}

impl FAQEntry {
    /// Parse FAQ entries from a markdown document with `## ` category
    /// headers and `- Q: ...` / `A: ...` line pairs.
    pub fn parse_from_markdown(markdown: &str) -> (r: Vec<FAQEntry>)
        ensures
            r@.len() == parse_faq_spec(markdown@).len(),
            forall|k: int| 0 <= k < r@.len() ==> fe_of(#[trigger] r@[k]) == parse_faq_spec(
                markdown@,
            )[k],
    {
        let raw = split_char_exec(str_to_chars(markdown), 0);
        let ghost lines = lines_spec(markdown@);
        // drop a trailing empty piece and strip carriage returns
        let mut line_vecs: Vec<Vec<char>> = Vec::new();
        let keep_count = if raw.len() > 0 && raw[raw.len() - 1].len() == 0 {
            raw.len() - 1
        } else {
            raw.len()
        };
        let mut i: usize = 0;
        while i < keep_count
            invariant
                0 <= i <= keep_count,
                keep_count <= raw@.len(),
                raw@.len() == split_char(markdown@, |c: char| c == '\n').len(),
                forall|l: int| 0 <= l < raw@.len() ==> (#[trigger] raw@[l])@ == split_char(
                    markdown@,
                    |c: char| c == '\n',
                )[l],
                lines == lines_spec(markdown@),
                lines.len() == keep_count,
                line_vecs@.len() == i,
                forall|l: int| 0 <= l < i ==> (#[trigger] line_vecs@[l])@ == lines[l],
            decreases keep_count - i,
        {
            let lv = &raw[i];
            let stripped = if lv.len() > 0 && lv[lv.len() - 1] == '\r' {
                vec_slice(lv, 0, lv.len() - 1)
            } else {
                vec_slice(lv, 0, lv.len())
            };
            proof {
                let orig = split_char(markdown@, |c: char| c == '\n')[i as int];
                assert(lv@ == orig);
                if orig.len() > 0 && orig.last() == '\r' {
                    assert(stripped@ =~= orig.drop_last());
                } else {
                    assert(stripped@ =~= orig);
                }
            }
            line_vecs.push(stripped);
            i += 1;
        }
        // scan the lines
        let mut entries: Vec<FAQEntry> = Vec::new();
        let mut category: String = "General".to_owned();
        let mut pending: Option<String> = None;
        let ghost st0 = PSt { category: "General"@, pending: None, entries: Seq::empty() };
        let ghost mut st = st0;
        proof {
            assert(lines.take(0) =~= Seq::<Seq<char>>::empty());
        }
        let mut k: usize = 0;
        while k < line_vecs.len()
            invariant
                0 <= k <= line_vecs@.len(),
                line_vecs@.len() == lines.len(),
                forall|l: int| 0 <= l < lines.len() ==> (#[trigger] line_vecs@[l])@ == lines[l],
                st0 == (PSt {
                    category: "General"@,
                    pending: Option::<Seq<char>>::None,
                    entries: Seq::<FE>::empty(),
                }),
                st == parse_lines_run(lines.take(k as int), st0),
                category@ == st.category,
                match (pending, st.pending) {
                    (Some(a), Some(b)) => a@ == b,
                    (None, None) => true,
                    _ => false,
                },
                entries@.len() == st.entries.len(),
                forall|l: int| 0 <= l < entries@.len() ==> fe_of(#[trigger] entries@[l])
                    == st.entries[l],
            decreases line_vecs@.len() - k,
        {
            proof {
                assert(lines.take(k + 1).drop_last() =~= lines.take(k as int));
                assert(lines.take(k + 1).last() == lines[k as int]);
            }
            let ghost st_next = parse_line_step(st, lines[k as int]);
            let t = trim_chars(&line_vecs[k]);
            if starts_with_str(&t, "## ") && !starts_with_str(&t, "###") {
                proof {
                    reveal_strlit("## ");
                }
                let after = trim_chars(&strip_prefix_reps_exec(vec_slice(&t, 0, t.len()), "## "));
                proof {
                    assert(t@.subrange(0, t@.len() as int) =~= t@);
                }
                let parts = split_char_exec(vec_slice(&after, 0, after.len()), 1);
                proof {
                    assert(after@.subrange(0, after@.len() as int) =~= after@);
                }
                let clean = if parts.len() >= 2 {
                    trim_chars(&parts[1])
                } else {
                    trim_chars(&after)
                };
                if clean.len() == 0 {
                    category = chars_to_string(&after);
                } else {
                    category = chars_to_string(&clean);
                }
            }
            if starts_with_str(&t, "- Q") && has_colon_space_exec(&t) {
                pending = Some(chars_to_string(&after_colon_exec(&t)));
            } else {
                let taken = pending;
                pending = None;
                match taken {
                    Some(q) => {
                        if starts_with_str(&t, "A") && has_colon_space_exec(&t) {
                            let mut tags: Vec<String> = Vec::new();
                            let e = FAQEntry {
                                category: category.clone(),
                                q,
                                a: chars_to_string(&after_colon_exec(&t)),
                                tags,
                            };
                            proof {
                                assert(e.tags.deep_view() =~= Seq::<Seq<char>>::empty());
                            }
                            entries.push(e);
                        }
                    },
                    None => {},
                }
            }
            proof {
                st = st_next;
            }
            k += 1;
        }
        proof {
            assert(lines.take(lines.len() as int) =~= lines);
        }
        entries
    }
}

// ---------------------------------------------------------------------
// Chunking FAQ entries
// ---------------------------------------------------------------------

#[verifier::external_type_specification]
#[verifier::external_body]
pub struct ExJieba(jieba_rs::Jieba);

/// The word segmentation of a text under the default dictionary.  It
/// depends on the text alone.
pub uninterp spec fn segmented_words(text: Seq<char>) -> Seq<Seq<char>>;

/// Relies on `jieba_rs::Jieba::new`: the segmenter loaded with the
/// built-in default dictionary.
#[verifier::external_body]
fn new_jieba() -> jieba_rs::Jieba {
    jieba_rs::Jieba::new()
}

/// Sentence-terminating punctuation for semantic units.
pub open spec fn is_sentence_end_ch(c: char) -> bool {
    c == '.' || c == '\u{3002}' || c == '!' || c == '\u{FF01}' || c == '?' || c == '\u{FF1F}'
        || c == ';' || c == '\u{FF1B}'
}

/// Clause-terminating punctuation for semantic units.
pub open spec fn is_clause_end_ch(c: char) -> bool {
    c == '\u{FF0C}' || c == ',' || c == '\u{3001}' || c == '\u{FF1A}' || c == ':' || c == '\n'
}

pub open spec fn has_sentence_end(w: Seq<char>) -> bool {
    exists|i: int| 0 <= i < w.len() && is_sentence_end_ch(#[trigger] w[i])
}

pub open spec fn has_clause_end(w: Seq<char>) -> bool {
    exists|i: int| 0 <= i < w.len() && is_clause_end_ch(#[trigger] w[i])
}

/// The state of the semantic-unit scanner.
pub struct USt {
    pub units: Seq<Seq<char>>,
    pub cur: Seq<char>,
}

/// One segmented word: append it, and cut a unit at sentence-ending
/// punctuation, or at clause-ending punctuation once the unit has grown
/// past fifty bytes.
pub open spec fn unit_step(st: USt, w: Seq<char>) -> USt {
    let cur = st.cur + w;
    if has_sentence_end(w) {
        USt { units: st.units.push(trim_spec(cur)), cur: Seq::empty() }
    } else if has_clause_end(w) && blen_u(cur) > 50 {
        USt { units: st.units.push(trim_spec(cur)), cur: Seq::empty() }
    } else {
        USt { units: st.units, cur }
    }
}

pub open spec fn units_run(words: Seq<Seq<char>>, st: USt) -> USt
    decreases words.len(),
{
    if words.len() == 0 {
        st
    } else {
        unit_step(units_run(words.drop_last(), st), words.last())
    }
}

/// The semantic units of a text: word-segmentation-aware spans cut at
/// punctuation, trimmed, empty spans dropped.
pub open spec fn semantic_units_spec(text: Seq<char>) -> Seq<Seq<char>> {
    let st = units_run(segmented_words(text), USt { units: Seq::empty(), cur: Seq::empty() });
    let all = if trim_spec(st.cur).len() > 0 {
        st.units.push(trim_spec(st.cur))
    } else {
        st.units
    };
    all.filter(|u: Seq<char>| u.len() > 0)
}

/// Straight sentence-splitting punctuation (the fallback when semantic
/// segmentation degenerates).
pub open spec fn is_qa_sep(c: char) -> bool {
    c == '\u{3002}' || c == '\u{FF01}' || c == '\u{FF1F}' || c == '.' || c == '!' || c == '?'
        || c == '\u{FF1B}' || c == ';'
}

/// The fallback units: pieces split at each punctuation mark, trimmed,
/// empty ones dropped.
pub open spec fn fallback_units(s: Seq<char>) -> Seq<Seq<char>> {
    split_char(s, |c: char| is_qa_sep(c)).map_values(|p: Seq<char>| trim_spec(p)).filter(
        |p: Seq<char>| p.len() > 0,
    )
}

/// The units an over-budget entry is split into: semantic units when the
/// segmentation yields more than one, else the fallback sentences.
pub open spec fn qa_units(text: Seq<char>) -> Seq<Seq<char>> {
    let sem = semantic_units_spec(text);
    if sem.len() > 1 {
        sem
    } else {
        fallback_units(text)
    }
}

/// Spaces replaced by dashes (for the id's category key).
pub open spec fn replace_spaces(s: Seq<char>) -> Seq<char> {
    s.map_values(|c: char| if c == ' ' { '-' } else { c })
}

/// The deterministic id of the `n`-th entry (1-based):
/// `faq-<category key>-<n, 3 digits>`, the key being the category with
/// spaces as dashes, lowercased.
pub open spec fn faq_id_spec(category: Seq<char>, n: nat) -> Seq<char> {
    "faq-"@ + crate::text::lower_of(replace_spaces(category)) + "-"@ + dec_str_pad3(n)
}

/// One chunk of an entry: named `<faq_id>-chunk-<cidx>`, titled by the
/// trimmed question.
pub open spec fn make_fc(faq_id: Seq<char>, e: FE, content: Seq<char>, tokens: nat, cidx: nat) -> FC {
    FC {
        chunk_id: faq_id + "-chunk-"@ + crate::text::dec_str(cidx),
        faq_id,
        category: e.category,
        title: trim_spec(e.q),
        content,
        tags: e.tags,
        token_count: tokens,
    }
}

/// The state of the unit-accumulation pass over one over-budget entry.
pub struct QSt {
    pub chunks: Seq<FC>,
    /// The unit list behind each emitted chunk (for the overlap law).
    pub chunk_units: Seq<Seq<Seq<char>>>,
    pub cur_units: Seq<Seq<char>>,
    pub cur_tokens: nat,
    pub idx: nat,
}

/// One unit: grow the current chunk while the budget holds; on overflow
/// flush it and restart from the last `k` units before the overflow
/// point (the configured overlap).  The budget check uses the running
/// sum of per-unit counts (the greedy rule), but a flushed chunk records
/// the count of its joined content, so the figure is reproducible by
/// re-tokenizing the content.
pub open spec fn qa_step(
    st: QSt,
    units: Seq<Seq<char>>,
    j: int,
    faq_id: Seq<char>,
    e: FE,
    key: Seq<char>,
    max: nat,
    k: nat,
) -> QSt {
    let ut = trim_spec(units[j]);
    if ut.len() == 0 {
        st
    } else {
        let utok = token_count_of(key, ut);
        let newc = sat_add(st.cur_tokens, utok);
        if newc > max && st.cur_units.len() > 0 {
            let content = crate::recursive::concat_all(st.cur_units);
            let chunks = st.chunks.push(
                make_fc(faq_id, e, content, token_count_of(key, content), st.idx),
            );
            let cu = st.chunk_units.push(st.cur_units);
            if k > 0 {
                let start = if j >= k { j - k } else { 0 };
                let new_units = units.subrange(start, j + 1).map_values(
                    |u: Seq<char>| trim_spec(u),
                );
                QSt {
                    chunks,
                    chunk_units: cu,
                    cur_units: new_units,
                    cur_tokens: token_count_of(key, crate::recursive::concat_all(new_units)),
                    idx: sat_add(st.idx, 1),
                }
            } else {
                QSt {
                    chunks,
                    chunk_units: cu,
                    cur_units: seq![ut],
                    cur_tokens: utok,
                    idx: sat_add(st.idx, 1),
                }
            }
        } else {
            QSt { cur_units: st.cur_units.push(ut), cur_tokens: newc, ..st }
        }
    }
}

/// The state after processing the first `upto` units.
pub open spec fn qa_run(
    units: Seq<Seq<char>>,
    upto: int,
    st: QSt,
    faq_id: Seq<char>,
    e: FE,
    key: Seq<char>,
    max: nat,
    k: nat,
) -> QSt
    decreases upto,
{
    if upto <= 0 {
        st
    } else {
        qa_step(
            qa_run(units, upto - 1, st, faq_id, e, key, max, k),
            units,
            upto - 1,
            faq_id,
            e,
            key,
            max,
            k,
        )
    }
}

/// Splitting one over-budget entry into its chunks.
pub open spec fn split_qa(
    units: Seq<Seq<char>>,
    faq_id: Seq<char>,
    e: FE,
    key: Seq<char>,
    max: nat,
    k: nat,
) -> QSt {
    let st0 = QSt {
        chunks: Seq::empty(),
        chunk_units: Seq::empty(),
        cur_units: Seq::empty(),
        cur_tokens: 0,
        idx: 1,
    };
    let st = qa_run(units, units.len() as int, st0, faq_id, e, key, max, k);
    if st.cur_units.len() > 0 {
        QSt {
            chunks: st.chunks.push(
                make_fc(
                    faq_id,
                    e,
                    crate::recursive::concat_all(st.cur_units),
                    token_count_of(key, crate::recursive::concat_all(st.cur_units)),
                    st.idx,
                ),
            ),
            chunk_units: st.chunk_units.push(st.cur_units),
            cur_units: Seq::empty(),
            cur_tokens: 0,
            idx: sat_add(st.idx, 1),
        }
    } else {
        st
    }
}

/// The raw content of an entry: `Q: <question>\nA: <answer>`, both
/// trimmed.
pub open spec fn raw_content_spec(e: FE) -> Seq<char> {
    "Q: "@ + trim_spec(e.q) + "\nA: "@ + trim_spec(e.a)
}

/// The chunks of the `n`-th entry (1-based): one chunk when its content
/// fits the budget, else the split.
pub open spec fn entry_chunks(e: FE, n: nat, key: Seq<char>, max: nat, k: nat) -> Seq<FC> {
    let fid = faq_id_spec(e.category, n);
    let raw = raw_content_spec(e);
    let rtok = token_count_of(key, raw);
    if rtok > max {
        split_qa(qa_units(raw), fid, e, key, max, k).chunks
    } else {
        seq![make_fc(fid, e, raw, rtok, 1)]
    }
}

/// The chunks of a whole entry list, in order.
pub open spec fn chunk_by_qa_spec(entries: Seq<FE>, key: Seq<char>, max: nat, k: nat) -> Seq<FC>
    decreases entries.len(),
{
    if entries.len() == 0 {
        Seq::empty()
    } else {
        chunk_by_qa_spec(entries.drop_last(), key, max, k) + entry_chunks(
            entries.last(),
            entries.len() as nat,
            key,
            max,
            k,
        )
    }
}

/// Join a vector of strings with nothing between them.
fn join_strings(us: &Vec<String>) -> (r: String)
    ensures
        r@ == crate::recursive::concat_all(us@.map_values(|s: String| s@)),
{
    let ghost views = us@.map_values(|s: String| s@);
    let mut r = String::new();
    let mut i: usize = 0;
    while i < us.len()
        invariant
            0 <= i <= us@.len(),
            views == us@.map_values(|s: String| s@),
            r@ =~= crate::recursive::concat_all(views.take(i as int)),
        decreases us@.len() - i,
    {
        r.append(us[i].as_str());
        proof {
            assert(views.take(i + 1).drop_last() =~= views.take(i as int));
            assert(views.take(i + 1).last() == views[i as int]);
        }
        i += 1;
    }
    proof {
        assert(views.take(views.len() as int) =~= views);
    }
    r
}

/// Whether the string holds sentence-ending punctuation.
fn has_sentence_end_exec(s: &str) -> (r: bool)
    ensures
        r == has_sentence_end(s@),
{
    let v = str_to_chars(s);
    let mut i: usize = 0;
    while i < v.len()
        invariant
            0 <= i <= v@.len(),
            v@ == s@,
            forall|j: int| 0 <= j < i ==> !is_sentence_end_ch(#[trigger] s@[j]),
        decreases v@.len() - i,
    {
        let c = v[i];
        if c == '.' || c == '\u{3002}' || c == '!' || c == '\u{FF01}' || c == '?'
            || c == '\u{FF1F}' || c == ';' || c == '\u{FF1B}' {
            return true;
        }
        i += 1;
    }
    false
}

/// Whether the string holds clause-ending punctuation.
fn has_clause_end_exec(s: &str) -> (r: bool)
    ensures
        r == has_clause_end(s@),
{
    let v = str_to_chars(s);
    let mut i: usize = 0;
    while i < v.len()
        invariant
            0 <= i <= v@.len(),
            v@ == s@,
            forall|j: int| 0 <= j < i ==> !is_clause_end_ch(#[trigger] s@[j]),
        decreases v@.len() - i,
    {
        let c = v[i];
        if c == '\u{FF0C}' || c == ',' || c == '\u{3001}' || c == '\u{FF1A}' || c == ':' || c
            == '\n' {
            return true;
        }
        i += 1;
    }
    false
}

/// Chunks question/answer entries within a token budget, with unit
/// overlap across splits.
pub struct FAQChunker {
    max_tokens: usize,
    overlap: usize,
    model: String,
    tok: Tokenizer,
    jieba: jieba_rs::Jieba,
}

impl FAQChunker {
    /// The canonical encoder key counts are taken under.
    pub closed spec fn key(&self) -> Seq<char> {
        self.tok.key()
    }

    /// The configured token budget.
    pub closed spec fn max_spec(&self) -> nat {
        self.max_tokens as nat
    }

    /// The configured overlap (units repeated across a split).
    pub closed spec fn overlap_spec(&self) -> nat {
        self.overlap as nat
    }

    /// The model name as configured.
    pub closed spec fn model_view(&self) -> Seq<char> {
        self.model@
    }

    /// Create a chunker; fails fast when the model name resolves to no
    /// encoder.
    pub fn new(max_tokens: usize, overlap: usize, model: String) -> (r: Result<
        FAQChunker,
        TokenizerError,
    >)
        ensures
            r matches Ok(c) ==> c.max_spec() == max_tokens as nat && c.overlap_spec()
                == overlap as nat && c.model_view() == model@ && c.key() == normalize_spec(model@),
            r is Ok <==> crate::tokens::has_encoder(normalize_spec(model@)),
            is_canonical_key(normalize_spec(model@)) ==> r is Ok,
    {
        match Tokenizer::for_model(model.as_str()) {
            Ok(tok) => Ok(FAQChunker { max_tokens, overlap, model, tok, jieba: new_jieba() }),
            Err(e) => Err(e),
        }
    }

    /// Relies on `jieba_rs::Jieba::cut` (with HMM enabled): the word
    /// sequence depends on the dictionary — here always the default one —
    /// and the text alone, and the words tile the text: concatenated in
    /// order they reproduce it exactly.
    #[verifier::external_body]
    fn cut_words(&self, text: &str) -> (r: Vec<String>)
        ensures
            r@.len() == segmented_words(text@).len(),
            forall|l: int| 0 <= l < r@.len() ==> (#[trigger] r@[l])@ == segmented_words(text@)[l],
            crate::recursive::concat_all(r@.map_values(|s: String| s@)) == text@,
    {
        self.jieba.cut(text, true).into_iter().map(|t| t.word.to_string()).collect()
    }

    /// Count tokens under the chunker's encoder.
    fn count_tokens(&self, text: &str) -> (r: usize)
        ensures
            r as nat == token_count_of(self.key(), text@),
    {
        self.tok.count(text)
    }

    /// Split text into semantic units at punctuation, guided by word
    /// segmentation.
    fn split_into_semantic_units(&self, text: &str) -> (r: Vec<String>)
        ensures
            r@.len() == semantic_units_spec(text@).len(),
            forall|l: int| 0 <= l < r@.len() ==> (#[trigger] r@[l])@ == semantic_units_spec(
                text@,
            )[l],
    {
        let words = self.cut_words(text);
        let ghost wviews = segmented_words(text@);
        let ghost st0 = USt { units: Seq::empty(), cur: Seq::empty() };
        let ghost mut st = st0;
        let mut units: Vec<String> = Vec::new();
        let mut cur = String::new();
        proof {
            assert(wviews.take(0) =~= Seq::<Seq<char>>::empty());
        }
        let mut i: usize = 0;
        while i < words.len()
            invariant
                0 <= i <= words@.len(),
                words@.len() == wviews.len(),
                forall|l: int| 0 <= l < words@.len() ==> (#[trigger] words@[l])@ == wviews[l],
                wviews == segmented_words(text@),
                st0 == (USt { units: Seq::<Seq<char>>::empty(), cur: Seq::<char>::empty() }),
                st == units_run(wviews.take(i as int), st0),
                cur@ == st.cur,
                units@.len() == st.units.len(),
                forall|l: int| 0 <= l < units@.len() ==> (#[trigger] units@[l])@ == st.units[l],
            decreases words@.len() - i,
        {
            proof {
                assert(wviews.take(i + 1).drop_last() =~= wviews.take(i as int));
                assert(wviews.take(i + 1).last() == wviews[i as int]);
            }
            let ghost st_next = unit_step(st, wviews[i as int]);
            cur.append(words[i].as_str());
            if has_sentence_end_exec(words[i].as_str()) {
                units.push(chars_to_string(&trim_chars(&str_to_chars(cur.as_str()))));
                cur = String::new();
            } else if has_clause_end_exec(words[i].as_str()) && cur.as_str().len() > 50 {
                units.push(chars_to_string(&trim_chars(&str_to_chars(cur.as_str()))));
                cur = String::new();
            }
            proof {
                st = st_next;
            }
            i += 1;
        }
        proof {
            assert(wviews.take(wviews.len() as int) =~= wviews);
        }
        let last = trim_chars(&str_to_chars(cur.as_str()));
        let ghost all = if trim_spec(st.cur).len() > 0 {
            st.units.push(trim_spec(st.cur))
        } else {
            st.units
        };
        if last.len() > 0 {
            units.push(chars_to_string(&last));
        }
        // drop empty units
        let ghost keep = |u: Seq<char>| u.len() > 0;
        let mut r: Vec<String> = Vec::new();
        let mut j: usize = 0;
        while j < units.len()
            invariant
                0 <= j <= units@.len(),
                units@.len() == all.len(),
                forall|l: int| 0 <= l < units@.len() ==> (#[trigger] units@[l])@ == all[l],
                keep == (|u: Seq<char>| u.len() > 0),
                r@.len() == all.take(j as int).filter(keep).len(),
                forall|l: int| 0 <= l < r@.len() ==> (#[trigger] r@[l])@ == all.take(
                    j as int,
                ).filter(keep)[l],
            decreases units@.len() - j,
        {
            proof {
                assert(all.take(j + 1).drop_last() =~= all.take(j as int));
                assert(all.take(j + 1).last() == all[j as int]);
                reveal_with_fuel(Seq::filter, 2);
            }
            if units[j].as_str().unicode_len() > 0 {
                r.push(units[j].clone());
            }
            j += 1;
        }
        proof {
            assert(all.take(all.len() as int) =~= all);
        }
        r
    }

    /// Split one over-budget entry's content into overlapping chunks.
    fn split_long_qa(&self, text: &str, faq_id: &str, entry: &FAQEntry) -> (r: Vec<FAQChunk>)
        ensures
            ({
                let out = split_qa(
                    qa_units(text@),
                    faq_id@,
                    fe_of(*entry),
                    self.key(),
                    self.max_spec(),
                    self.overlap_spec(),
                );
                &&& r@.len() == out.chunks.len()
                &&& forall|l: int| 0 <= l < r@.len() ==> fc_of(#[trigger] r@[l]) == out.chunks[l]
            }),
    {
        let semantic = self.split_into_semantic_units(text);
        let units: Vec<String> = if semantic.len() > 1 {
            semantic
        } else {
            // fall back to straight sentence splitting
            let chars = str_to_chars(text);
            let pieces = split_qa_seps_exec(chars);
            let ghost mapped = split_char(text@, |c: char| is_qa_sep(c)).map_values(
                |p: Seq<char>| trim_spec(p),
            );
            let ghost keep = |p: Seq<char>| p.len() > 0;
            let mut fb: Vec<String> = Vec::new();
            let mut i: usize = 0;
            while i < pieces.len()
                invariant
                    0 <= i <= pieces@.len(),
                    pieces@.len() == split_char(text@, |c: char| is_qa_sep(c)).len(),
                    forall|l: int| 0 <= l < pieces@.len() ==> (#[trigger] pieces@[l])@
                        == split_char(text@, |c: char| is_qa_sep(c))[l],
                    mapped == split_char(text@, |c: char| is_qa_sep(c)).map_values(
                        |p: Seq<char>| trim_spec(p),
                    ),
                    mapped.len() == pieces@.len(),
                    keep == (|p: Seq<char>| p.len() > 0),
                    fb@.len() == mapped.take(i as int).filter(keep).len(),
                    forall|l: int| 0 <= l < fb@.len() ==> (#[trigger] fb@[l])@ == mapped.take(
                        i as int,
                    ).filter(keep)[l],
                decreases pieces@.len() - i,
            {
                proof {
                    assert(mapped.take(i + 1).drop_last() =~= mapped.take(i as int));
                    assert(mapped.take(i + 1).last() == mapped[i as int]);
                    reveal_with_fuel(Seq::filter, 2);
                }
                let t = trim_chars(&pieces[i]);
                if t.len() > 0 {
                    fb.push(chars_to_string(&t));
                }
                i += 1;
            }
            proof {
                assert(mapped.take(mapped.len() as int) =~= mapped);
            }
            fb
        };
        let ghost sunits = qa_units(text@);
        let ghost st0 = QSt {
            chunks: Seq::empty(),
            chunk_units: Seq::empty(),
            cur_units: Seq::empty(),
            cur_tokens: 0,
            idx: 1,
        };
        let ghost mut st = st0;
        let mut chunks: Vec<FAQChunk> = Vec::new();
        let mut cur_units: Vec<String> = Vec::new();
        let mut cur_tokens: usize = 0;
        let mut chunk_idx: usize = 1;
        let mut j: usize = 0;
        while j < units.len()
            invariant
                0 <= j <= units@.len(),
                units@.len() == sunits.len(),
                forall|l: int| 0 <= l < units@.len() ==> (#[trigger] units@[l])@ == sunits[l],
                sunits == qa_units(text@),
                st0 == (QSt {
                    chunks: Seq::<FC>::empty(),
                    chunk_units: Seq::<Seq<Seq<char>>>::empty(),
                    cur_units: Seq::<Seq<char>>::empty(),
                    cur_tokens: 0nat,
                    idx: 1nat,
                }),
                st == qa_run(
                    sunits,
                    j as int,
                    st0,
                    faq_id@,
                    fe_of(*entry),
                    self.key(),
                    self.max_spec(),
                    self.overlap_spec(),
                ),
                cur_units@.len() == st.cur_units.len(),
                forall|l: int| 0 <= l < cur_units@.len() ==> (#[trigger] cur_units@[l])@
                    == st.cur_units[l],
                cur_tokens as nat == st.cur_tokens,
                chunk_idx as nat == st.idx,
                chunk_idx >= 1,
                chunks@.len() == st.chunks.len(),
                forall|l: int| 0 <= l < chunks@.len() ==> fc_of(#[trigger] chunks@[l])
                    == st.chunks[l],
            decreases units@.len() - j,
        {
            let ghost st_next = qa_step(
                st,
                sunits,
                j as int,
                faq_id@,
                fe_of(*entry),
                self.key(),
                self.max_spec(),
                self.overlap_spec(),
            );
            let ut = trim_str(units[j].as_str());
            if !ut.as_str().is_empty() {
                let utok = self.count_tokens(ut.as_str());
                let newc = sat_add_usize(cur_tokens, utok);
                if newc > self.max_tokens && cur_units.len() > 0 {
                    proof {
                        assert(cur_units@.map_values(|s: String| s@) =~= st.cur_units);
                    }
                    let content = join_strings(&cur_units);
                    let ctok = self.count_tokens(content.as_str());
                    let c = self.build_chunk(faq_id, entry, content, ctok, chunk_idx);
                    chunks.push(c);
                    if self.overlap > 0 {
                        let start = if j >= self.overlap {
                            j - self.overlap
                        } else {
                            0
                        };
                        let mut nu: Vec<String> = Vec::new();
                        let ul = units.len();
                        let mut m: usize = start;
                        proof {
                            assert(sunits.subrange(start as int, start as int).map_values(
                                |u: Seq<char>| trim_spec(u),
                            ) =~= Seq::<Seq<char>>::empty());
                        }
                        while m <= j
                            invariant
                                start <= m <= j + 1,
                                j < units@.len(),
                                units@.len() <= usize::MAX,
                                units@.len() == sunits.len(),
                                forall|l: int| 0 <= l < units@.len() ==> (#[trigger] units@[l])@
                                    == sunits[l],
                                nu@.len() == m - start,
                                forall|l: int| 0 <= l < nu@.len() ==> (#[trigger] nu@[l])@
                                    == sunits.subrange(start as int, j + 1).map_values(
                                    |u: Seq<char>| trim_spec(u),
                                )[l],
                            decreases j + 1 - m,
                        {
                            nu.push(trim_str(units[m].as_str()));
                            proof {
                                assert(sunits.subrange(start as int, j + 1).map_values(
                                    |u: Seq<char>| trim_spec(u),
                                )[m - start] == trim_spec(sunits[m as int]));
                            }
                            m += 1;
                        }
                        cur_tokens = self.count_tokens(join_strings(&nu).as_str());
                        proof {
                            let snu = sunits.subrange(start as int, j + 1).map_values(
                                |u: Seq<char>| trim_spec(u),
                            );
                            assert(nu@.map_values(|s: String| s@) =~= snu);
                        }
                        cur_units = nu;
                    } else {
                        let mut nu: Vec<String> = Vec::new();
                        nu.push(ut);
                        cur_units = nu;
                        cur_tokens = utok;
                    }
                    chunk_idx = sat_add_usize(chunk_idx, 1);
                } else {
                    cur_units.push(ut);
                    cur_tokens = newc;
                }
            }
            proof {
                st = st_next;
            }
            j += 1;
        }
        proof {
            assert(sunits.take(sunits.len() as int) =~= sunits);
        }
        if cur_units.len() > 0 {
            proof {
                assert(cur_units@.map_values(|s: String| s@) =~= st.cur_units);
            }
            let content = join_strings(&cur_units);
            let ctok = self.count_tokens(content.as_str());
            let c = self.build_chunk(faq_id, entry, content, ctok, chunk_idx);
            chunks.push(c);
        }
        chunks
    }

    /// Assemble one chunk record for an entry.
    fn build_chunk(
        &self,
        faq_id: &str,
        entry: &FAQEntry,
        content: String,
        tokens: usize,
        cidx: usize,
    ) -> (c: FAQChunk)
        ensures
            fc_of(c) == make_fc(faq_id@, fe_of(*entry), content@, tokens as nat, cidx as nat),
    {
        let mut chunk_id: String = faq_id.to_owned();
        chunk_id.append("-chunk-");
        chunk_id.append(chars_to_string(&crate::text::dec_chars(cidx as u64)).as_str());
        let c = FAQChunk {
            chunk_id,
            faq_id: faq_id.to_owned(),
            category: entry.category.clone(),
            title: trim_str(entry.q.as_str()),
            content,
            tags: crate::text::clone_string_vec(&entry.tags),
            token_count: tokens,
        };
        proof {
            assert(c.tags.deep_view() == entry.tags.deep_view());
        }
        c
    }

    /// Chunk a list of entries: one chunk per entry within the budget,
    /// several overlapping chunks for an entry that exceeds it.  Entry
    /// ids are `faq-<category-key>-<index>`, chunk ids append
    /// `-chunk-<n>`, and every chunk's token count is the count of its
    /// content under the chunker's encoder, reproducible by re-invoking
    /// the tokenizer service.
    pub fn chunk_by_qa(&self, entries: Vec<FAQEntry>) -> (r: Vec<FAQChunk>)
        ensures
            ({
                let out = chunk_by_qa_spec(
                    entries@.map_values(|e: FAQEntry| fe_of(e)),
                    self.key(),
                    self.max_spec(),
                    self.overlap_spec(),
                );
                &&& r@.len() == out.len()
                &&& forall|l: int| 0 <= l < r@.len() ==> fc_of(#[trigger] r@[l]) == out[l]
            }),
    {
        let ghost fes = entries@.map_values(|e: FAQEntry| fe_of(e));
        let mut chunks: Vec<FAQChunk> = Vec::new();
        let mut i: usize = 0;
        while i < entries.len()
            invariant
                0 <= i <= entries@.len(),
                fes == entries@.map_values(|e: FAQEntry| fe_of(e)),
                fes.len() == entries@.len(),
                ({
                    let out = chunk_by_qa_spec(
                        fes.take(i as int),
                        self.key(),
                        self.max_spec(),
                        self.overlap_spec(),
                    );
                    &&& chunks@.len() == out.len()
                    &&& forall|l: int| 0 <= l < chunks@.len() ==> fc_of(#[trigger] chunks@[l])
                        == out[l]
                }),
            decreases entries@.len() - i,
        {
            proof {
                assert(fes.take(i + 1).drop_last() =~= fes.take(i as int));
                assert(fes.take(i + 1).last() == fes[i as int]);
            }
            let entry = &entries[i];
            // the deterministic id: category key plus 1-based 3-digit index
            let cat_key = crate::text::lowercase(
                chars_to_string(&replace_spaces_exec(&str_to_chars(entry.category.as_str()))).as_str(),
            );
            let mut fid: String = "faq-".to_owned();
            fid.append(cat_key.as_str());
            fid.append("-");
            fid.append(chars_to_string(&dec_chars_pad3((i + 1) as u64)).as_str());
            proof {
                assert(fid@ == faq_id_spec(fes[i as int].category, (i + 1) as nat));
            }
            // raw content: Q and A, trimmed
            let mut raw: String = "Q: ".to_owned();
            raw.append(trim_str(entry.q.as_str()).as_str());
            raw.append("\nA: ");
            raw.append(trim_str(entry.a.as_str()).as_str());
            proof {
                assert(raw@ == raw_content_spec(fes[i as int]));
            }
            let rtok = self.count_tokens(raw.as_str());
            if rtok > self.max_tokens {
                let mut split = self.split_long_qa(raw.as_str(), fid.as_str(), entry);
                let ghost sv = split@;
                let ghost pre = chunks@;
                chunks.append(&mut split);
                proof {
                    assert(chunks@ == pre + sv);
                }
            } else {
                let c = self.build_chunk(fid.as_str(), entry, raw, rtok, 1);
                chunks.push(c);
            }
            i += 1;
        }
        proof {
            assert(fes.take(fes.len() as int) =~= fes);
        }
        chunks
    }
}

/// Split at every straight-sentence separator character.
fn split_qa_seps_exec(v: Vec<char>) -> (r: Vec<Vec<char>>)
    ensures
        r@.len() == split_char(v@, |c: char| is_qa_sep(c)).len(),
        forall|l: int| 0 <= l < r@.len() ==> (#[trigger] r@[l])@ == split_char(
            v@,
            |c: char| is_qa_sep(c),
        )[l],
    decreases v@.len(),
{
    let ghost sep = |c: char| is_qa_sep(c);
    let mut f: usize = 0;
    while f < v.len() && !(is_qa_sep_exec(v[f]))
        invariant
            0 <= f <= v@.len(),
            sep == (|c: char| is_qa_sep(c)),
            forall|j: int| 0 <= j < f ==> !sep(v@[j]),
        decreases v@.len() - f,
    {
        f += 1;
    }
    proof {
        lemma_first_such_at(v@, f as int, sep);
    }
    let mut r: Vec<Vec<char>> = Vec::new();
    if f < v.len() {
        let head = vec_slice(&v, 0, f);
        let rest = split_qa_seps_exec(vec_tail(&v, f + 1));
        let ghost tail_spec = split_char(v@.skip(f + 1), sep);
        r.push(head);
        let mut j: usize = 0;
        while j < rest.len()
            invariant
                0 <= j <= rest@.len(),
                rest@.len() == tail_spec.len(),
                forall|l: int| 0 <= l < rest@.len() ==> (#[trigger] rest@[l])@ == tail_spec[l],
                r@.len() == j + 1,
                r@[0]@ =~= v@.take(f as int),
                forall|l: int| 0 <= l < j ==> (#[trigger] r@[l + 1])@ == tail_spec[l],
            decreases rest@.len() - j,
        {
            let piece = vec_slice(&rest[j], 0, rest[j].len());
            proof {
                assert(piece@ =~= rest@[j as int]@);
            }
            r.push(piece);
            j += 1;
        }
        proof {
            assert(split_char(v@, sep) == seq![v@.take(f as int)] + tail_spec);
            assert forall|l: int| 0 <= l < r@.len() implies (#[trigger] r@[l])@ == split_char(
                v@,
                sep,
            )[l] by {
                if l > 0 {
                    let m = l - 1;
                    assert(r@[m + 1]@ == tail_spec[m]);
                }
            }
        }
    } else {
        r.push(v);
        proof {
            assert(split_char(r@[0]@, sep) =~= seq![r@[0]@]);
        }
    }
    r
}

/// Straight-sentence separator test.
fn is_qa_sep_exec(c: char) -> (r: bool)
    ensures
        r == is_qa_sep(c),
{
    c == '\u{3002}' || c == '\u{FF01}' || c == '\u{FF1F}' || c == '.' || c == '!' || c == '?' || c
        == '\u{FF1B}' || c == ';'
}

/// Replace spaces by dashes.
fn replace_spaces_exec(v: &Vec<char>) -> (r: Vec<char>)
    ensures
        r@ == replace_spaces(v@),
{
    let mut r: Vec<char> = Vec::new();
    let mut i: usize = 0;
    while i < v.len()
        invariant
            0 <= i <= v@.len(),
            r@ =~= v@.take(i as int).map_values(|c: char| if c == ' ' { '-' } else { c }),
        decreases v@.len() - i,
    {
        if v[i] == ' ' {
            r.push('-');
        } else {
            r.push(v[i]);
        }
        assert(r@ =~= v@.take(i + 1).map_values(|c: char| if c == ' ' { '-' } else { c }));
        i += 1;
    }
    proof {
        assert(v@.take(v@.len() as int) =~= v@);
    }
    r
}

// ---------------------------------------------------------------------
// The overlap law
// ---------------------------------------------------------------------

/// Consecutive chunks overlap: wherever a chunk holds at least `k`
/// units, the next chunk's first `k` units equal its last `k` units.
pub open spec fn pairwise_overlap_ok(cu: Seq<Seq<Seq<char>>>, k: nat) -> bool {
    forall|i: int|
        0 <= i < cu.len() - 1 && (#[trigger] cu[i]).len() >= k ==> cu[i + 1].len() >= k && cu[i
            + 1].take(k as int) == cu[i].skip(cu[i].len() - k)
}

/// The invariant of the unit pass that drives the overlap law: the
/// current chunk is a contiguous trimmed slice of the unit list ending at
/// the processing point, and it overlaps the previously emitted chunk.
spec fn qst_ok(st: QSt, units: Seq<Seq<char>>, upto: int, k: nat) -> bool {
    &&& pairwise_overlap_ok(st.chunk_units, k)
    &&& exists|cs: int|
        0 <= cs <= upto && #[trigger] st.cur_units =~= units.subrange(cs, upto).map_values(
            |u: Seq<char>| trim_spec(u),
        )
    &&& (st.chunk_units.len() > 0 && st.chunk_units.last().len() >= k ==> st.cur_units.len() >= k
        && st.cur_units.take(k as int) == st.chunk_units.last().skip(
        st.chunk_units.last().len() - k,
    ))
}

proof fn lemma_qa_run_overlap(
    units: Seq<Seq<char>>,
    upto: int,
    faq_id: Seq<char>,
    e: FE,
    key: Seq<char>,
    max: nat,
    k: nat,
)
    requires
        k > 0,
        0 <= upto <= units.len(),
        forall|j: int| 0 <= j < units.len() ==> trim_spec(#[trigger] units[j]).len() > 0,
    ensures
        qst_ok(
            qa_run(
                units,
                upto,
                QSt {
                    chunks: Seq::empty(),
                    chunk_units: Seq::empty(),
                    cur_units: Seq::empty(),
                    cur_tokens: 0,
                    idx: 1,
                },
                faq_id,
                e,
                key,
                max,
                k,
            ),
            units,
            upto,
            k,
        ),
    decreases upto,
{
    let st0 = QSt {
        chunks: Seq::empty(),
        chunk_units: Seq::empty(),
        cur_units: Seq::empty(),
        cur_tokens: 0,
        idx: 1,
    };
    let tr = |u: Seq<char>| trim_spec(u);
    if upto == 0 {
        assert(st0.cur_units =~= units.subrange(0, 0).map_values(tr));
        assert(qst_ok(st0, units, 0, k));
    } else {
        lemma_qa_run_overlap(units, upto - 1, faq_id, e, key, max, k);
        let st = qa_run(units, upto - 1, st0, faq_id, e, key, max, k);
        let j = upto - 1;
        let stn = qa_step(st, units, j, faq_id, e, key, max, k);
        let cs = choose|cs: int|
            0 <= cs <= j && #[trigger] st.cur_units =~= units.subrange(cs, j).map_values(tr);
        let ut = trim_spec(units[j]);
        assert(ut.len() > 0);
        let utok = token_count_of(key, ut);
        let newc = sat_add(st.cur_tokens, utok);
        if newc > max && st.cur_units.len() > 0 {
            // flush: the emitted chunk is the contiguous slice ending at j
            let start: int = if j >= k {
                j - k
            } else {
                0
            };
            let new_units = units.subrange(start, j + 1).map_values(tr);
            assert(stn.cur_units == new_units);
            assert(stn.chunk_units == st.chunk_units.push(st.cur_units));
            // the new current chunk is a contiguous slice
            assert(0 <= start <= upto);
            assert(stn.cur_units =~= units.subrange(start, upto).map_values(tr));
            // bridge between the emitted chunk and the new current chunk
            assert(st.cur_units.len() == j - cs);
            if st.cur_units.len() >= k {
                assert(j - cs >= k);
                assert(start == j - k);
                assert(stn.cur_units.len() == k + 1 >= k);
                assert(stn.cur_units.take(k as int) =~= units.subrange(j - k, j).map_values(tr))
                    by {
                    assert forall|m: int| 0 <= m < k implies stn.cur_units.take(k as int)[m]
                        == units.subrange(j - k, j).map_values(tr)[m] by {
                        assert(stn.cur_units[m] == tr(units[start + m]));
                    }
                }
                assert(st.cur_units.skip(st.cur_units.len() - k) =~= units.subrange(
                    j - k,
                    j,
                ).map_values(tr)) by {
                    assert forall|m: int|
                        #![trigger units.subrange(j - k, j).map_values(tr)[m]]
                        0 <= m < k implies st.cur_units.skip(st.cur_units.len() - k)[m]
                        == units.subrange(j - k, j).map_values(tr)[m] by {
                        assert(st.cur_units[st.cur_units.len() - k + m] == tr(
                            units[cs + (j - cs - k + m)],
                        ));
                    }
                }
            }
            // pairwise property extends by the recorded bridge
            assert forall|i: int|
                0 <= i < stn.chunk_units.len() - 1 && (#[trigger] stn.chunk_units[i]).len() >= k
                    implies stn.chunk_units[i + 1].len() >= k && stn.chunk_units[i + 1].take(
                k as int,
            ) == stn.chunk_units[i].skip(stn.chunk_units[i].len() - k) by {
                if i < st.chunk_units.len() - 1 {
                    assert(stn.chunk_units[i] == st.chunk_units[i]);
                    assert(stn.chunk_units[i + 1] == st.chunk_units[i + 1]);
                } else {
                    assert(stn.chunk_units[i] == st.chunk_units.last());
                    assert(stn.chunk_units[i + 1] == st.cur_units);
                }
            }
            assert(qst_ok(stn, units, upto, k));
        } else {
            // append: the slice grows by one unit
            assert(stn.cur_units == st.cur_units.push(ut));
            assert(stn.cur_units =~= units.subrange(cs, upto).map_values(tr)) by {
                assert forall|m: int| 0 <= m < upto - cs implies stn.cur_units[m]
                    == units.subrange(cs, upto).map_values(tr)[m] by {
                    if m < j - cs {
                        assert(st.cur_units[m] == tr(units[cs + m]));
                    }
                }
            }
            if st.chunk_units.len() > 0 && st.chunk_units.last().len() >= k {
                assert(st.cur_units.len() >= k);
                assert(stn.cur_units.take(k as int) =~= st.cur_units.take(k as int));
            }
            assert(qst_ok(stn, units, upto, k));
        }
    }
}

/// Removing the empty pieces does not change a concatenation.
proof fn lemma_concat_filter_nonempty(s: Seq<Seq<char>>)
    ensures
        crate::recursive::concat_all(s.filter(|u: Seq<char>| u.len() > 0))
            =~= crate::recursive::concat_all(s),
    decreases s.len(),
{
    reveal_with_fuel(Seq::filter, 2);
    let keep = |u: Seq<char>| u.len() > 0;
    if s.len() > 0 {
        lemma_concat_filter_nonempty(s.drop_last());
        if s.last().len() > 0 {
            assert(s.filter(keep) == s.drop_last().filter(keep).push(s.last()));
            assert(s.filter(keep).drop_last() =~= s.drop_last().filter(keep));
        } else {
            assert(s.filter(keep) == s.drop_last().filter(keep));
            assert(crate::recursive::concat_all(s) =~= crate::recursive::concat_all(
                s.drop_last(),
            ));
        }
    }
}

/// The semantic-unit scanner loses no characters: at every point, the
/// non-whitespace characters of the emitted units plus the open buffer
/// are those of the consumed words.
proof fn lemma_units_run_cover(words: Seq<Seq<char>>, st: USt)
    ensures
        nonws(
            crate::recursive::concat_all(units_run(words, st).units) + units_run(words, st).cur,
        ) =~= nonws(
            crate::recursive::concat_all(st.units) + st.cur + crate::recursive::concat_all(words),
        ),
    decreases words.len(),
{
    let p = |c: char| !is_ws_char(c);
    if words.len() == 0 {
        assert(crate::recursive::concat_all(words) =~= Seq::<char>::empty());
        assert(crate::recursive::concat_all(st.units) + st.cur + crate::recursive::concat_all(
            words,
        ) =~= crate::recursive::concat_all(st.units) + st.cur);
    } else {
        let mid = units_run(words.drop_last(), st);
        let w = words.last();
        lemma_units_run_cover(words.drop_last(), st);
        let cur2 = mid.cur + w;
        let mu = crate::recursive::concat_all(mid.units);
        // extending the buffer by one word extends the covered characters
        assert(nonws(mu + cur2) =~= nonws(mu + mid.cur) + nonws(w)) by {
            assert(mu + cur2 =~= (mu + mid.cur) + w);
            Seq::filter_distributes_over_add(mu + mid.cur, w, p);
        }
        let base = crate::recursive::concat_all(st.units) + st.cur
            + crate::recursive::concat_all(words.drop_last());
        assert(nonws(mu + mid.cur) + nonws(w) =~= nonws(base + w)) by {
            Seq::filter_distributes_over_add(base, w, p);
        }
        assert(base + w =~= crate::recursive::concat_all(st.units) + st.cur
            + crate::recursive::concat_all(words));
        let res = units_run(words, st);
        if res.units == mid.units.push(trim_spec(cur2)) && res.cur.len() == 0 {
            // a unit was cut: its trim keeps the non-whitespace characters
            assert(crate::recursive::concat_all(res.units) =~= mu + trim_spec(cur2)) by {
                assert(res.units.drop_last() =~= mid.units);
            }
            assert(nonws(crate::recursive::concat_all(res.units) + res.cur) =~= nonws(mu)
                + nonws(cur2)) by {
                assert(crate::recursive::concat_all(res.units) + res.cur =~= mu + trim_spec(
                    cur2,
                ));
                Seq::filter_distributes_over_add(mu, trim_spec(cur2), p);
                lemma_nonws_trim(cur2);
            }
            assert(nonws(mu) + nonws(cur2) =~= nonws(mu + cur2)) by {
                Seq::filter_distributes_over_add(mu, cur2, p);
            }
        } else {
            assert(res.units == mid.units && res.cur == cur2);
        }
    }
}

/// Concatenating the semantic units of a text reproduces it modulo
/// whitespace (trimmed at unit boundaries): the non-whitespace
/// characters are exactly those of the text, in order.  This rests on
/// the segmenter's words tiling the text, as the segmentation wrapper
/// states.
pub proof fn lemma_semantic_units_cover(text: Seq<char>)
    requires
        crate::recursive::concat_all(segmented_words(text)) == text,
    ensures
        nonws(crate::recursive::concat_all(semantic_units_spec(text))) == nonws(text),
{
    let p = |c: char| !is_ws_char(c);
    let st0 = USt { units: Seq::empty(), cur: Seq::empty() };
    let st = units_run(segmented_words(text), st0);
    lemma_units_run_cover(segmented_words(text), st0);
    assert(crate::recursive::concat_all(st0.units) =~= Seq::<char>::empty());
    assert(crate::recursive::concat_all(st0.units) + st0.cur + crate::recursive::concat_all(
        segmented_words(text),
    ) =~= text);
    let mu = crate::recursive::concat_all(st.units);
    let all = if trim_spec(st.cur).len() > 0 {
        st.units.push(trim_spec(st.cur))
    } else {
        st.units
    };
    assert(nonws(crate::recursive::concat_all(all)) =~= nonws(mu + st.cur)) by {
        Seq::filter_distributes_over_add(mu, st.cur, p);
        lemma_nonws_trim(st.cur);
        if trim_spec(st.cur).len() > 0 {
            assert(crate::recursive::concat_all(all) =~= mu + trim_spec(st.cur)) by {
                assert(all.drop_last() =~= st.units);
            }
            Seq::filter_distributes_over_add(mu, trim_spec(st.cur), p);
        } else {
            assert(nonws(st.cur) =~= Seq::<char>::empty());
        }
    }
    lemma_concat_filter_nonempty(all);
}

/// Trimming leaves either nothing or a piece with non-whitespace ends.
proof fn lemma_trim_props(s: Seq<char>)
    ensures
        trim_spec(s).len() == 0 || (!is_ws_char(trim_spec(s).first()) && !is_ws_char(
            trim_spec(s).last(),
        )),
    decreases s.len(),
{
    if s.len() == 0 {
    } else if is_ws_char(s.first()) {
        lemma_trim_props(s.drop_first());
    } else if is_ws_char(s.last()) {
        lemma_trim_props(s.drop_last());
    }
}

/// Trimming is idempotent.
proof fn lemma_trim_idem(s: Seq<char>)
    ensures
        trim_spec(trim_spec(s)) == trim_spec(s),
{
    lemma_trim_props(s);
}

/// Every element of a filtered sequence occurs in the unfiltered one.
proof fn lemma_filter_elem<A>(s: Seq<A>, pred: spec_fn(A) -> bool, i: int)
    requires
        0 <= i < s.filter(pred).len(),
    ensures
        exists|j: int| 0 <= j < s.len() && s[j] == s.filter(pred)[i],
    decreases s.len(),
{
    reveal_with_fuel(Seq::filter, 2);
    if s.len() > 0 {
        let f = s.filter(pred);
        let fd = s.drop_last().filter(pred);
        if pred(s.last()) && i == f.len() - 1 {
            assert(s[s.len() - 1] == f[i]);
        } else {
            lemma_filter_elem(s.drop_last(), pred, i);
            let j = choose|j: int| 0 <= j < s.drop_last().len() && s.drop_last()[j] == fd[i];
            assert(s[j] == f[i]);
        }
    }
}

/// Every unit the semantic scanner has emitted is trim-fixed.
proof fn lemma_units_run_trimmed(words: Seq<Seq<char>>, st: USt)
    requires
        forall|i: int|
            0 <= i < st.units.len() ==> trim_spec(#[trigger] st.units[i]) == st.units[i],
    ensures
        forall|i: int|
            0 <= i < units_run(words, st).units.len() ==> trim_spec(
                #[trigger] units_run(words, st).units[i],
            ) == units_run(words, st).units[i],
    decreases words.len(),
{
    if words.len() > 0 {
        lemma_units_run_trimmed(words.drop_last(), st);
        let mid = units_run(words.drop_last(), st);
        lemma_trim_idem(mid.cur + words.last());
    }
}

/// The units an over-budget entry is split into are non-empty and
/// trim-fixed, so the overlap law below applies to them.
pub proof fn lemma_qa_units_ok(text: Seq<char>)
    ensures
        forall|j: int|
            0 <= j < qa_units(text).len() ==> trim_spec(#[trigger] qa_units(text)[j]).len() > 0,
{
    let keep = |u: Seq<char>| u.len() > 0;
    let sem = semantic_units_spec(text);
    let st = units_run(segmented_words(text), USt { units: Seq::empty(), cur: Seq::empty() });
    let all = if trim_spec(st.cur).len() > 0 {
        st.units.push(trim_spec(st.cur))
    } else {
        st.units
    };
    assert forall|j: int| 0 <= j < sem.len() implies trim_spec(#[trigger] sem[j]).len() > 0 by {
        lemma_filter_elem(all, keep, j);
        let m = choose|m: int| 0 <= m < all.len() && all[m] == sem[j];
        assert(trim_spec(all[m]) == all[m]) by {
            lemma_units_run_trimmed(segmented_words(text), USt { units: Seq::empty(), cur: Seq::empty() });
            if m == st.units.len() {
                lemma_trim_idem(st.cur);
            }
        }
        assert(Seq::filter(all, keep) == sem);
        all.lemma_filter_pred(keep, j);
    }
    let fb = fallback_units(text);
    let mapped = split_char(text, |c: char| is_qa_sep(c)).map_values(|p: Seq<char>| trim_spec(p));
    assert forall|j: int| 0 <= j < fb.len() implies trim_spec(#[trigger] fb[j]).len() > 0 by {
        lemma_filter_elem(mapped, keep, j);
        let m = choose|m: int| 0 <= m < mapped.len() && mapped[m] == fb[j];
        lemma_trim_idem(split_char(text, |c: char| is_qa_sep(c))[m]);
        assert(Seq::filter(mapped, keep) == fb);
        mapped.lemma_filter_pred(keep, j);
    }
}

/// The overlap law: for an over-budget entry split with overlap `k > 0`,
/// whenever a chunk holds at least `k` units, the next chunk's leading
/// `k` units equal that chunk's trailing `k` units.  (A chunk holding
/// fewer than `k` units than the overlap has nothing to repeat: the next
/// chunk then restarts from the beginning of the window instead.)
pub proof fn lemma_faq_overlap(
    units: Seq<Seq<char>>,
    faq_id: Seq<char>,
    e: FE,
    key: Seq<char>,
    max: nat,
    k: nat,
)
    requires
        k > 0,
        forall|j: int| 0 <= j < units.len() ==> trim_spec(#[trigger] units[j]).len() > 0,
    ensures
        pairwise_overlap_ok(split_qa(units, faq_id, e, key, max, k).chunk_units, k),
{
    lemma_qa_run_overlap(units, units.len() as int, faq_id, e, key, max, k);
    let st0 = QSt {
        chunks: Seq::empty(),
        chunk_units: Seq::empty(),
        cur_units: Seq::empty(),
        cur_tokens: 0,
        idx: 1,
    };
    let st = qa_run(units, units.len() as int, st0, faq_id, e, key, max, k);
    let out = split_qa(units, faq_id, e, key, max, k);
    if st.cur_units.len() > 0 {
        assert(out.chunk_units == st.chunk_units.push(st.cur_units));
        assert forall|i: int|
            0 <= i < out.chunk_units.len() - 1 && (#[trigger] out.chunk_units[i]).len() >= k
                implies out.chunk_units[i + 1].len() >= k && out.chunk_units[i + 1].take(
            k as int,
        ) == out.chunk_units[i].skip(out.chunk_units[i].len() - k) by {
            if i < st.chunk_units.len() - 1 {
                assert(out.chunk_units[i] == st.chunk_units[i]);
                assert(out.chunk_units[i + 1] == st.chunk_units[i + 1]);
            } else {
                assert(out.chunk_units[i] == st.chunk_units.last());
                assert(out.chunk_units[i + 1] == st.cur_units);
            }
        }
    }
}

} // verus!
