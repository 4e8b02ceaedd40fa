//! Recursive token chunker: splits page texts into chunks within a token
//! budget, by paragraph first, then sentence, then a hard character-window
//! cut, producing flat chunk records with monotone byte ranges.

use vstd::prelude::*;
use vstd::string::StrSliceExecFns;
use vstd::string::StringExecFns;
use crate::text::{
    byte_len, chars_to_string, is_ws, is_ws_char, str_to_chars, trim_chars, trim_spec, trim_str,
};
use crate::tokens::{is_canonical_key, normalize_spec, token_count_of, Tokenizer, TokenizerError};

verus! {

/// Whether a double newline (the paragraph boundary) starts at index `j`.
pub open spec fn dnl_at(s: Seq<char>, j: int) -> bool {
    0 <= j && j + 1 < s.len() && s[j] == '\n' && s[j + 1] == '\n'
}

/// The index of the first paragraph boundary, `-1` when there is none.
pub open spec fn first_dnl(s: Seq<char>) -> int
    decreases s.len(),
{
    if s.len() < 2 {
        -1
    } else if s[0] == '\n' && s[1] == '\n' {
        0
    } else {
        let r = first_dnl(s.drop_first());
        if r == -1 {
            -1
        } else {
            r + 1
        }
    }
}

proof fn lemma_first_dnl_range(s: Seq<char>)
    ensures
        first_dnl(s) == -1 || (0 <= first_dnl(s) && first_dnl(s) + 1 < s.len() && dnl_at(
            s,
            first_dnl(s),
        )),
        first_dnl(s) >= 0 ==> forall|j: int| 0 <= j < first_dnl(s) ==> !dnl_at(s, j),
    decreases s.len(),
{
    if s.len() < 2 {
    } else if s[0] == '\n' && s[1] == '\n' {
    } else {
        let t = s.drop_first();
        lemma_first_dnl_range(t);
        assert forall|j: int| 0 <= j < t.len() implies (dnl_at(t, j) <==> dnl_at(s, j + 1)) by {
            assert(t =~= s.subrange(1, s.len() as int));
        }
        if first_dnl(s) >= 0 {
            assert forall|j: int| 0 <= j < first_dnl(s) implies !dnl_at(s, j) by {
                if j > 0 {
                    assert(!dnl_at(t, j - 1));
                }
            }
        }
    }
}

proof fn lemma_first_dnl_none(s: Seq<char>)
    requires
        forall|j: int| 0 <= j ==> !dnl_at(s, j),
    ensures
        first_dnl(s) == -1,
    decreases s.len(),
{
    if s.len() < 2 {
    } else {
        assert(!dnl_at(s, 0));
        let t = s.drop_first();
        assert(t =~= s.subrange(1, s.len() as int));
        assert forall|j: int| 0 <= j implies !dnl_at(t, j) by {
            if dnl_at(t, j) {
                assert(dnl_at(s, j + 1));
            }
        }
        lemma_first_dnl_none(t);
    }
}

proof fn lemma_first_dnl_found(s: Seq<char>, k: int)
    requires
        dnl_at(s, k),
        forall|j: int| 0 <= j < k ==> !dnl_at(s, j),
    ensures
        first_dnl(s) == k,
    decreases k,
{
    if k == 0 {
    } else {
        let t = s.drop_first();
        assert(t =~= s.subrange(1, s.len() as int));
        assert(dnl_at(t, k - 1));
        assert forall|j: int| 0 <= j < k - 1 implies !dnl_at(t, j) by {
            if dnl_at(t, j) {
                assert(dnl_at(s, j + 1));
            }
        }
        lemma_first_dnl_found(t, k - 1);
        assert(!(s[0] == '\n' && s[1] == '\n')) by {
            assert(!dnl_at(s, 0));
        }
    }
}

/// The raw pieces of a text split on `\n\n` boundaries, leftmost first.
pub open spec fn split_dnl(s: Seq<char>) -> Seq<Seq<char>>
    decreases s.len(),
{
    let f = first_dnl(s);
    if f == -1 || !(0 <= f && f + 2 <= s.len()) {
        seq![s]
    } else {
        seq![s.take(f)] + split_dnl(s.skip(f + 2))
    }
}

/// The paragraphs of a page: pieces split on blank lines, trimmed, empty
/// ones dropped.
pub open spec fn split_paragraphs_spec(s: Seq<char>) -> Seq<Seq<char>> {
    split_dnl(s).map_values(|p: Seq<char>| trim_spec(p)).filter(|p: Seq<char>| p.len() > 0)
}

/// Copy the tail of a character vector from `from` on.
pub(crate) fn vec_tail(v: &Vec<char>, from: usize) -> (r: Vec<char>)
    requires
        from <= v@.len(),
    ensures
        r@ == v@.skip(from as int),
{
    let mut r: Vec<char> = Vec::new();
    let mut i: usize = from;
    while i < v.len()
        invariant
            from <= i <= v@.len(),
            r@ =~= v@.subrange(from as int, i as int),
        decreases v@.len() - i,
    {
        r.push(v[i]);
        assert(r@ =~= v@.subrange(from as int, i + 1));
        i += 1;
    }
    proof {
        assert(v@.subrange(from as int, v@.len() as int) =~= v@.skip(from as int));
    }
    r
}

/// Copy a slice of a character vector.
pub(crate) fn vec_slice(v: &Vec<char>, from: usize, to: usize) -> (r: Vec<char>)
    requires
        from <= to <= v@.len(),
    ensures
        r@ == v@.subrange(from as int, to as int),
{
    let mut r: Vec<char> = Vec::new();
    let mut i: usize = from;
    while i < to
        invariant
            from <= i <= to <= v@.len(),
            r@ =~= v@.subrange(from as int, i as int),
        decreases to - i,
    {
        r.push(v[i]);
        assert(r@ =~= v@.subrange(from as int, i + 1));
        i += 1;
    }
    r
}

/// Split a character vector on `\n\n` boundaries.
fn split_dnl_exec(v: Vec<char>) -> (r: Vec<Vec<char>>)
    ensures
        r@.len() == split_dnl(v@).len(),
        forall|l: int| 0 <= l < r@.len() ==> (#[trigger] r@[l])@ == split_dnl(v@)[l],
    decreases v@.len(),
{
    let n = v.len();
    let mut k: usize = 0;
    while n - k > 1 && !(v[k] == '\n' && v[k + 1] == '\n')
        invariant
            0 <= k <= n,
            n == v@.len(),
            forall|j: int| 0 <= j < k ==> !dnl_at(v@, j),
        decreases n - k,
    {
        proof {
            assert(!dnl_at(v@, k as int));
        }
        k += 1;
    }
    let mut r: Vec<Vec<char>> = Vec::new();
    if n - k > 1 {
        proof {
            lemma_first_dnl_found(v@, k as int);
        }
        let head = vec_slice(&v, 0, k);
        let rest = split_dnl_exec(vec_tail(&v, k + 2));
        let ghost tail_spec = split_dnl(v@.skip(k + 2));
        r.push(head);
        let mut j: usize = 0;
        while j < rest.len()
            invariant
                0 <= j <= rest@.len(),
                rest@.len() == tail_spec.len(),
                forall|l: int| 0 <= l < rest@.len() ==> (#[trigger] rest@[l])@ == tail_spec[l],
                r@.len() == j + 1,
                r@[0]@ =~= v@.take(k as int),
                forall|l: int| 0 <= l < j ==> (#[trigger] r@[l + 1])@ == tail_spec[l],
            decreases rest@.len() - j,
        {
            let piece = vec_slice(&rest[j], 0, rest[j].len());
            proof {
                assert(piece@ =~= rest@[j as int]@);
            }
            r.push(piece);
            j += 1;
        }
        proof {
            assert(split_dnl(v@) =~= seq![v@.take(k as int)] + tail_spec);
            assert forall|l: int| 0 <= l < r@.len() implies (#[trigger] r@[l])@ == split_dnl(
                v@,
            )[l] by {
                if l == 0 {
                } else {
                    let m = l - 1;
                    assert(r@[m + 1]@ == tail_spec[m]);
                }
            }
        }
    } else {
        proof {
            assert forall|j: int| 0 <= j implies !dnl_at(v@, j) by {
                if dnl_at(v@, j) {
                    assert(0 <= j < k);
                }
            }
            lemma_first_dnl_none(v@);
        }
        r.push(v);
        proof {
            assert(split_dnl(r@[0]@) =~= seq![r@[0]@]);
        }
    }
    r
}

/// Split a page text into trimmed, non-empty paragraphs.
pub fn split_paragraphs(text: &str) -> (r: Vec<String>)
    ensures
        r@.len() == split_paragraphs_spec(text@).len(),
        forall|l: int| 0 <= l < r@.len() ==> (#[trigger] r@[l])@ == split_paragraphs_spec(
            text@,
        )[l],
{
    let pieces = split_dnl_exec(str_to_chars(text));
    let mut r: Vec<String> = Vec::new();
    let ghost spec_pieces = split_dnl(text@).map_values(|p: Seq<char>| trim_spec(p));
    let ghost keep = |p: Seq<char>| p.len() > 0;
    let mut i: usize = 0;
    while i < pieces.len()
        invariant
            0 <= i <= pieces@.len(),
            pieces@.len() == split_dnl(text@).len(),
            forall|l: int| 0 <= l < pieces@.len() ==> (#[trigger] pieces@[l])@ == split_dnl(
                text@,
            )[l],
            spec_pieces == split_dnl(text@).map_values(|p: Seq<char>| trim_spec(p)),
            keep == (|p: Seq<char>| p.len() > 0),
            spec_pieces.len() == pieces@.len(),
            r@.len() == spec_pieces.take(i as int).filter(keep).len(),
            forall|l: int| 0 <= l < r@.len() ==> (#[trigger] r@[l])@ == spec_pieces.take(
                i as int,
            ).filter(keep)[l],
        decreases pieces@.len() - i,
    {
        let t = trim_chars(&pieces[i]);
        proof {
            assert(spec_pieces[i as int] == trim_spec(pieces@[i as int]@));
            assert(spec_pieces.take(i + 1).drop_last() =~= spec_pieces.take(i as int));
            assert(spec_pieces.take(i + 1).last() == spec_pieces[i as int]);
            reveal_with_fuel(Seq::filter, 2);
            assert(spec_pieces.take(i + 1).filter(keep) == spec_pieces.take(i as int).filter(keep)
                + (if keep(spec_pieces[i as int]) {
                seq![spec_pieces[i as int]]
            } else {
                Seq::<Seq<char>>::empty()
            }));
        }
        if t.len() > 0 {
            r.push(chars_to_string(&t));
        }
        i += 1;
    }
    proof {
        assert(spec_pieces.take(spec_pieces.len() as int) =~= spec_pieces);
    }
    r
}

/// Chinese sentence-ending punctuation (tried first).
pub open spec fn is_cn_sep(c: char) -> bool {
    c == '\u{3002}' || c == '\u{FF01}' || c == '\u{FF1F}' || c == '\n'
}

/// Latin sentence-ending punctuation (the fallback).
pub open spec fn is_en_sep(c: char) -> bool {
    c == '.' || c == '!' || c == '?' || c == '\n'
}

pub open spec fn is_sep(c: char, cn: bool) -> bool {
    if cn {
        is_cn_sep(c)
    } else {
        is_en_sep(c)
    }
}

/// Sentence separator test, for either alphabet.
fn is_sep_exec(c: char, cn: bool) -> (r: bool)
    ensures
        r == is_sep(c, cn),
{
    if cn {
        c == '\u{3002}' || c == '\u{FF01}' || c == '\u{FF1F}' || c == '\n'
    } else {
        c == '.' || c == '!' || c == '?' || c == '\n'
    }
}

/// The index of the first separator character (the length when none).
pub open spec fn first_sep(s: Seq<char>, cn: bool) -> int
    decreases s.len(),
{
    if s.len() == 0 {
        0
    } else if is_sep(s[0], cn) {
        0
    } else {
        1 + first_sep(s.drop_first(), cn)
    }
}

proof fn lemma_first_sep_at(s: Seq<char>, k: int, cn: bool)
    requires
        0 <= k <= s.len(),
        forall|j: int| 0 <= j < k ==> !is_sep(s[j], cn),
        k < s.len() ==> is_sep(s[k], cn),
    ensures
        first_sep(s, cn) == k,
    decreases k,
{
    if s.len() == 0 {
    } else if k == 0 {
    } else {
        let t = s.drop_first();
        assert(t =~= s.subrange(1, s.len() as int));
        assert forall|j: int| 0 <= j < k - 1 implies !is_sep(t[j], cn) by {
            assert(t[j] == s[j + 1]);
        }
        lemma_first_sep_at(t, k - 1, cn);
    }
}

/// The maximal non-separator runs of a text, each trimmed.
pub open spec fn split_runs(s: Seq<char>, cn: bool) -> Seq<Seq<char>>
    decreases s.len(),
{
    if s.len() == 0 {
        Seq::<Seq<char>>::empty()
    } else if is_sep(s[0], cn) {
        split_runs(s.drop_first(), cn)
    } else {
        let e = first_sep(s, cn);
        if 1 <= e <= s.len() {
            seq![trim_spec(s.take(e))] + split_runs(s.skip(e), cn)
        } else {
            seq![trim_spec(s)]
        }
    }
}

/// The sentences of a paragraph: maximal runs between Chinese sentence
/// punctuation, falling back to Latin punctuation when that yields at
/// most one piece; empty pieces are dropped.
pub open spec fn split_sentences_spec(s: Seq<char>) -> Seq<Seq<char>> {
    let cn = split_runs(s, true);
    let base = if cn.len() <= 1 {
        split_runs(s, false)
    } else {
        cn
    };
    base.filter(|p: Seq<char>| p.len() > 0)
}

/// Split a character vector into trimmed maximal non-separator runs.
fn split_runs_exec(v: Vec<char>, cn: bool) -> (r: Vec<Vec<char>>)
    ensures
        r@.len() == split_runs(v@, cn).len(),
        forall|l: int| 0 <= l < r@.len() ==> (#[trigger] r@[l])@ == split_runs(v@, cn)[l],
    decreases v@.len(),
{
    let n = v.len();
    proof {
        assert(v@.skip(0) =~= v@);
    }
    // skip leading separators
    let mut i: usize = 0;
    while i < n && is_sep_exec(v[i], cn)
        invariant
            0 <= i <= n,
            n == v@.len(),
            split_runs(v@, cn) == split_runs(v@.skip(i as int), cn),
        decreases n - i,
    {
        proof {
            let t = v@.skip(i as int);
            assert(t.drop_first() =~= v@.skip(i + 1));
        }
        i += 1;
    }
    let mut r: Vec<Vec<char>> = Vec::new();
    if i == n {
        proof {
            assert(v@.skip(i as int).len() == 0);
        }
        return r;
    }
    // find the end of the run
    let mut e: usize = i;
    while e < n && !is_sep_exec(v[e], cn)
        invariant
            i <= e <= n,
            n == v@.len(),
            forall|j: int| i <= j < e ==> !is_sep(v@[j], cn),
        decreases n - e,
    {
        e += 1;
    }
    proof {
        let t = v@.skip(i as int);
        assert forall|j: int| 0 <= j < e - i implies !is_sep(t[j], cn) by {
            assert(t[j] == v@[j + i]);
        }
        if e < n {
            assert(t[e - i] == v@[e as int]);
        }
        lemma_first_sep_at(t, e - i, cn);
        assert(t.take(e - i) =~= v@.subrange(i as int, e as int));
        assert(t.skip(e - i) =~= v@.skip(e as int));
    }
    let piece = trim_chars(&vec_slice(&v, i, e));
    let ghost tail_spec = split_runs(v@.skip(e as int), cn);
    r.push(piece);
    if e < n {
        let rest = split_runs_exec(vec_tail(&v, e), cn);
        let mut j: usize = 0;
        while j < rest.len()
            invariant
                0 <= j <= rest@.len(),
                rest@.len() == tail_spec.len(),
                forall|l: int| 0 <= l < rest@.len() ==> (#[trigger] rest@[l])@ == tail_spec[l],
                r@.len() == j + 1,
                r@[0]@ == trim_spec(v@.subrange(i as int, e as int)),
                forall|l: int| 0 <= l < j ==> (#[trigger] r@[l + 1])@ == tail_spec[l],
            decreases rest@.len() - j,
        {
            let piece2 = vec_slice(&rest[j], 0, rest[j].len());
            proof {
                assert(piece2@ =~= rest@[j as int]@);
            }
            r.push(piece2);
            j += 1;
        }
    } else {
        proof {
            assert(v@.skip(e as int).len() == 0);
            assert(tail_spec =~= Seq::<Seq<char>>::empty());
        }
    }
    proof {
        let full = split_runs(v@.skip(i as int), cn);
        assert(full =~= seq![trim_spec(v@.subrange(i as int, e as int))] + tail_spec);
        assert forall|l: int| 0 <= l < r@.len() implies (#[trigger] r@[l])@ == split_runs(
            v@,
            cn,
        )[l] by {
            if l > 0 {
                let m = l - 1;
                assert(r@[m + 1]@ == tail_spec[m]);
            }
        }
    }
    r
}

/// Split a paragraph into non-empty sentence pieces.
pub fn split_sentences(text: &str) -> (r: Vec<String>)
    ensures
        r@.len() == split_sentences_spec(text@).len(),
        forall|l: int| 0 <= l < r@.len() ==> (#[trigger] r@[l])@ == split_sentences_spec(
            text@,
        )[l],
{
    let chars = str_to_chars(text);
    let cn_pieces = split_runs_exec(vec_slice(&chars, 0, chars.len()), true);
    proof {
        assert(chars@.subrange(0, chars@.len() as int) =~= chars@);
    }
    let pieces = if cn_pieces.len() <= 1 {
        split_runs_exec(chars, false)
    } else {
        cn_pieces
    };
    let ghost base = if split_runs(text@, true).len() <= 1 {
        split_runs(text@, false)
    } else {
        split_runs(text@, true)
    };
    let ghost keep = |p: Seq<char>| p.len() > 0;
    let mut r: Vec<String> = Vec::new();
    let mut l: usize = 0;
    while l < pieces.len()
        invariant
            0 <= l <= pieces@.len(),
            pieces@.len() == base.len(),
            forall|m: int| 0 <= m < pieces@.len() ==> (#[trigger] pieces@[m])@ == base[m],
            keep == (|p: Seq<char>| p.len() > 0),
            r@.len() == base.take(l as int).filter(keep).len(),
            forall|m: int| 0 <= m < r@.len() ==> (#[trigger] r@[m])@ == base.take(
                l as int,
            ).filter(keep)[m],
        decreases pieces@.len() - l,
    {
        proof {
            assert(base.take(l + 1).drop_last() =~= base.take(l as int));
            assert(base.take(l + 1).last() == base[l as int]);
            reveal_with_fuel(Seq::filter, 2);
            assert(base.take(l + 1).filter(keep) == base.take(l as int).filter(keep) + (if keep(
                base[l as int],
            ) {
                seq![base[l as int]]
            } else {
                Seq::<Seq<char>>::empty()
            }));
        }
        if pieces[l].len() > 0 {
            r.push(chars_to_string(&pieces[l]));
        }
        l += 1;
    }
    proof {
        assert(base.take(base.len() as int) =~= base);
        assert(split_sentences_spec(text@) == base.filter(keep));
    }
    r
}

/// A flat chunk record: a bounded piece of text with its page, position,
/// byte range and token count.
pub struct TextChunk {
    pub content: String,
    pub page_number: usize,
    pub chunk_index: usize,
    pub char_range: (usize, usize),
    /// The model the token count was taken under.
    pub model: String,
    pub token_count: usize,
}

/// The mathematical view of one chunk record.
pub struct ChunkRec {
    pub content: Seq<char>,
    pub page: nat,
    pub index: nat,
    pub start: nat,
    pub end: nat,
    pub tokens: nat,
}

/// The record a chunk realizes.
pub open spec fn rec_of(c: TextChunk) -> ChunkRec {
    ChunkRec {
        content: c.content@,
        page: c.page_number as nat,
        index: c.chunk_index as nat,
        start: c.char_range.0 as nat,
        end: c.char_range.1 as nat,
        tokens: c.token_count as nat,
    }
}

/// Saturating addition within the machine word.
pub open spec fn sat_add(a: nat, b: nat) -> nat {
    if a + b > usize::MAX {
        usize::MAX as nat
    } else {
        a + b
    }
}

/// Saturating addition of offsets.
pub(crate) fn sat_add_usize(a: usize, b: usize) -> (r: usize)
    ensures
        r as nat == sat_add(a as nat, b as nat),
{
    if a > usize::MAX - b {
        usize::MAX
    } else {
        a + b
    }
}

/// A text's byte length as held in a machine word.
pub open spec fn blen_u(s: Seq<char>) -> nat {
    (byte_len(s) as usize) as nat
}

/// The chunk record emitted for `content` at byte offset `offset`.
pub open spec fn mk_rec(
    content: Seq<char>,
    page: nat,
    offset: nat,
    index: nat,
    key: Seq<char>,
) -> ChunkRec {
    ChunkRec {
        content,
        page,
        index,
        start: offset,
        end: sat_add(offset, blen_u(content)),
        tokens: token_count_of(key, content),
    }
}

/// Characters at which a hard-split window prefers to end.
pub open spec fn good_break(c: char) -> bool {
    is_ws_char(c) || c == '\u{FF0C}' || c == ',' || c == '\u{FF1B}' || c == ';' || c == '\u{FF1A}'
        || c == ':' || c == ' ' || c == '\n'
}

fn good_break_exec(c: char) -> (r: bool)
    ensures
        r == good_break(c),
{
    is_ws(c) || c == '\u{FF0C}' || c == ',' || c == '\u{FF1B}' || c == ';' || c == '\u{FF1A}'
        || c == ':' || c == ' ' || c == '\n'
}

/// Back the window end off to the nearest good break after `i`.
pub open spec fn back_off(s: Seq<char>, i: int, e: int) -> int
    decreases e - i,
{
    if e > i && 0 <= i && e <= s.len() && !good_break(s[e - 1]) {
        back_off(s, i, e - 1)
    } else {
        e
    }
}

/// Where the hard-split window starting at `i` ends: at most 500
/// characters, preferably at a good break, else a forced cut at 300
/// characters (clamped to the text's end).
pub open spec fn window_end(s: Seq<char>, i: int) -> int {
    let e0 = if i + 500 <= s.len() {
        i + 500
    } else {
        s.len() as int
    };
    let e1 = back_off(s, i, e0);
    if e1 == i {
        if i + 300 <= s.len() {
            i + 300
        } else {
            s.len() as int
        }
    } else {
        e1
    }
}

proof fn lemma_back_off_range(s: Seq<char>, i: int, e: int)
    requires
        0 <= i <= e <= s.len(),
    ensures
        i <= back_off(s, i, e) <= e,
    decreases e - i,
{
    if e > i && !good_break(s[e - 1]) {
        lemma_back_off_range(s, i, e - 1);
    }
}

/// The chunks, final offset and final index of hard-splitting the text
/// from position `i` on.  Windows are bounded by characters (at most 500,
/// or a forced cut at 300); their token counts are recorded but not held
/// to the budget, since no smaller unit is available below a sentence.
pub struct HsOut {
    pub recs: Seq<ChunkRec>,
    pub offset: nat,
    pub index: nat,
}

pub open spec fn hard_split_spec(
    s: Seq<char>,
    i: int,
    page: nat,
    offset: nat,
    index: nat,
    key: Seq<char>,
) -> HsOut
    decreases s.len() - i,
{
    if !(0 <= i < s.len()) {
        HsOut { recs: Seq::empty(), offset, index }
    } else {
        let e = window_end(s, i);
        if i < e <= s.len() {
            let piece = s.subrange(i, e);
            let rec = mk_rec(piece, page, offset, index, key);
            let rest = hard_split_spec(
                s,
                e,
                page,
                sat_add(offset, blen_u(piece) + 1),
                index + 1,
                key,
            );
            HsOut { recs: seq![rec] + rest.recs, offset: rest.offset, index: rest.index }
        } else {
            HsOut { recs: Seq::empty(), offset, index }
        }
    }
}

/// The running state of the sentence-accumulation pass.
pub struct RSt {
    pub recs: Seq<ChunkRec>,
    pub buffer: Seq<char>,
    pub offset: nat,
    pub index: nat,
}

/// One sentence step: grow the buffer while the budget holds, flush it on
/// overflow, and hard-split a sentence that alone exceeds the budget.
pub open spec fn rstep(st: RSt, sent0: Seq<char>, page: nat, key: Seq<char>, max: nat) -> RSt {
    let sent = trim_spec(sent0);
    if sent.len() == 0 {
        st
    } else {
        let nb = if st.buffer.len() == 0 {
            sent
        } else {
            st.buffer + " "@ + sent
        };
        if token_count_of(key, nb) <= max {
            RSt { buffer: nb, ..st }
        } else {
            let st1 = if st.buffer.len() > 0 {
                RSt {
                    recs: st.recs.push(mk_rec(st.buffer, page, st.offset, st.index, key)),
                    buffer: st.buffer,
                    offset: sat_add(st.offset, blen_u(st.buffer) + 1),
                    index: st.index + 1,
                }
            } else {
                st
            };
            if token_count_of(key, sent) <= max {
                RSt { recs: st1.recs, buffer: sent, offset: st1.offset, index: st1.index }
            } else {
                let hs = hard_split_spec(sent, 0, page, st1.offset, st1.index, key);
                RSt {
                    recs: st1.recs + hs.recs,
                    buffer: Seq::empty(),
                    offset: hs.offset,
                    index: hs.index,
                }
            }
        }
    }
}

pub open spec fn rrun(
    sents: Seq<Seq<char>>,
    st: RSt,
    page: nat,
    key: Seq<char>,
    max: nat,
) -> RSt
    decreases sents.len(),
{
    if sents.len() == 0 {
        st
    } else {
        rstep(rrun(sents.drop_last(), st, page, key, max), sents.last(), page, key, max)
    }
}

/// Recursively split one over-budget paragraph: run the sentence pass and
/// flush the remaining buffer.
pub open spec fn rsplit_spec(
    para: Seq<char>,
    page: nat,
    offset: nat,
    index: nat,
    key: Seq<char>,
    max: nat,
) -> RSt {
    let st = rrun(
        split_sentences_spec(para),
        RSt { recs: Seq::empty(), buffer: Seq::empty(), offset, index },
        page,
        key,
        max,
    );
    if st.buffer.len() > 0 {
        RSt {
            recs: st.recs.push(mk_rec(st.buffer, page, st.offset, st.index, key)),
            buffer: Seq::empty(),
            offset: sat_add(st.offset, blen_u(st.buffer) + 1),
            index: st.index + 1,
        }
    } else {
        st
    }
}

/// The running state of the whole chunking pass.
pub struct CSt {
    pub recs: Seq<ChunkRec>,
    pub offset: nat,
    pub index: nat,
}

/// One paragraph: emit directly within budget, else recursively split.
/// The global offset advances by the paragraph's byte length plus one
/// either way.
pub open spec fn para_step(st: CSt, para: Seq<char>, page: nat, key: Seq<char>, max: nat) -> CSt {
    if token_count_of(key, para) <= max {
        CSt {
            recs: st.recs.push(mk_rec(para, page, st.offset, st.index, key)),
            offset: sat_add(st.offset, blen_u(para) + 1),
            index: st.index + 1,
        }
    } else {
        let sub = rsplit_spec(para, page, st.offset, st.index, key, max);
        CSt {
            recs: st.recs + sub.recs,
            offset: sat_add(st.offset, blen_u(para) + 1),
            index: sub.index,
        }
    }
}

pub open spec fn paras_run(
    paras: Seq<Seq<char>>,
    st: CSt,
    page: nat,
    key: Seq<char>,
    max: nat,
) -> CSt
    decreases paras.len(),
{
    if paras.len() == 0 {
        st
    } else {
        para_step(paras_run(paras.drop_last(), st, page, key, max), paras.last(), page, key, max)
    }
}

pub open spec fn pages_run(
    pages: Seq<(usize, String)>,
    st: CSt,
    key: Seq<char>,
    max: nat,
) -> CSt
    decreases pages.len(),
{
    if pages.len() == 0 {
        st
    } else {
        paras_run(
            split_paragraphs_spec(pages.last().1@),
            pages_run(pages.drop_last(), st, key, max),
            pages.last().0 as nat,
            key,
            max,
        )
    }
}

/// The ordered chunk records produced on this input.
pub open spec fn chunk_spec(pages: Seq<(usize, String)>, key: Seq<char>, max: nat) -> Seq<
    ChunkRec,
> {
    pages_run(pages, CSt { recs: Seq::empty(), offset: 0, index: 0 }, key, max).recs
}

/// The chunk vector `chunks` extends `base` by exactly the records
/// `recs`, every added chunk carrying the chunker's model name.
pub open spec fn chunks_match(
    chunks: Seq<TextChunk>,
    base: Seq<TextChunk>,
    recs: Seq<ChunkRec>,
    model: Seq<char>,
) -> bool {
    &&& chunks.len() == base.len() + recs.len()
    &&& forall|k: int| 0 <= k < base.len() ==> chunks[k] == base[k]
    &&& forall|k: int|
        0 <= k < recs.len() ==> rec_of(#[trigger] chunks[base.len() + k]) == recs[k]
            && chunks[base.len() + k].model@ == model
}

proof fn lemma_chunks_match_trans(
    c2: Seq<TextChunk>,
    c1: Seq<TextChunk>,
    c0: Seq<TextChunk>,
    d1: Seq<ChunkRec>,
    d0: Seq<ChunkRec>,
    model: Seq<char>,
)
    requires
        chunks_match(c2, c1, d1, model),
        chunks_match(c1, c0, d0, model),
    ensures
        chunks_match(c2, c0, d0 + d1, model),
{
    assert forall|k: int| 0 <= k < (d0 + d1).len() implies rec_of(
        #[trigger] c2[c0.len() + k],
    ) == (d0 + d1)[k] && c2[c0.len() + k].model@ == model by {
        if k < d0.len() {
            assert(c2[c0.len() + k] == c1[c0.len() + k]);
        } else {
            assert(c2[c1.len() + (k - d0.len())] == c2[c0.len() + k]);
        }
    }
}

/// Hard splitting emits one record per window: the final index is the
/// initial one plus the number of records.
proof fn lemma_hs_idx(s: Seq<char>, i: int, page: nat, offset: nat, index: nat, key: Seq<char>)
    ensures
        hard_split_spec(s, i, page, offset, index, key).index == index + hard_split_spec(
            s,
            i,
            page,
            offset,
            index,
            key,
        ).recs.len(),
    decreases s.len() - i,
{
    if 0 <= i < s.len() {
        let e = window_end(s, i);
        if i < e <= s.len() {
            let piece = s.subrange(i, e);
            lemma_hs_idx(s, e, page, sat_add(offset, blen_u(piece) + 1), index + 1, key);
        }
    }
}

/// Every step of the sentence pass keeps `index - recs.len()` constant.
proof fn lemma_rstep_idx(st: RSt, sent0: Seq<char>, page: nat, key: Seq<char>, max: nat)
    ensures
        rstep(st, sent0, page, key, max).index as int - rstep(
            st,
            sent0,
            page,
            key,
            max,
        ).recs.len() == st.index as int - st.recs.len(),
{
    let sent = trim_spec(sent0);
    if sent.len() > 0 {
        let nb = if st.buffer.len() == 0 {
            sent
        } else {
            st.buffer + " "@ + sent
        };
        if token_count_of(key, nb) <= max {
        } else {
            let st1 = if st.buffer.len() > 0 {
                RSt {
                    recs: st.recs.push(mk_rec(st.buffer, page, st.offset, st.index, key)),
                    buffer: st.buffer,
                    offset: sat_add(st.offset, blen_u(st.buffer) + 1),
                    index: st.index + 1,
                }
            } else {
                st
            };
            if token_count_of(key, sent) <= max {
            } else {
                lemma_hs_idx(sent, 0, page, st1.offset, st1.index, key);
            }
        }
    }
}

proof fn lemma_rrun_idx(sents: Seq<Seq<char>>, st: RSt, page: nat, key: Seq<char>, max: nat)
    ensures
        rrun(sents, st, page, key, max).index as int - rrun(
            sents,
            st,
            page,
            key,
            max,
        ).recs.len() == st.index as int - st.recs.len(),
    decreases sents.len(),
{
    if sents.len() > 0 {
        lemma_rrun_idx(sents.drop_last(), st, page, key, max);
        lemma_rstep_idx(rrun(sents.drop_last(), st, page, key, max), sents.last(), page, key, max);
    }
}

/// The recursive split of a paragraph advances the index by exactly the
/// number of records it emits.
proof fn lemma_rsplit_idx(
    para: Seq<char>,
    page: nat,
    offset: nat,
    index: nat,
    key: Seq<char>,
    max: nat,
)
    ensures
        rsplit_spec(para, page, offset, index, key, max).index == index + rsplit_spec(
            para,
            page,
            offset,
            index,
            key,
            max,
        ).recs.len(),
{
    lemma_rrun_idx(
        split_sentences_spec(para),
        RSt { recs: Seq::empty(), buffer: Seq::empty(), offset, index },
        page,
        key,
        max,
    );
}

/// Token-budget-aware recursive chunker for one tokenizer model.
pub struct RecursiveChunker {
    max_tokens: usize,
    model: String,
    tok: Tokenizer,
}

impl RecursiveChunker {
    /// The canonical encoder key counts are taken under.
    pub closed spec fn key(&self) -> Seq<char> {
        self.tok.key()
    }

    /// The configured token budget.
    pub closed spec fn max_spec(&self) -> nat {
        self.max_tokens as nat
    }

    /// The model name as configured (before alias folding).
    pub closed spec fn model_view(&self) -> Seq<char> {
        self.model@
    }

    /// Create a chunker; fails fast when the model name resolves to no
    /// encoder.
    pub fn new(max_tokens: usize, model: &str) -> (r: Result<RecursiveChunker, TokenizerError>)
        ensures
            r matches Ok(c) ==> c.max_spec() == max_tokens as nat && c.model_view() == model@
                && c.key() == normalize_spec(model@),
            r is Ok <==> crate::tokens::has_encoder(normalize_spec(model@)),
            is_canonical_key(normalize_spec(model@)) ==> r is Ok,
    {
        match Tokenizer::for_model(model) {
            Ok(tok) => Ok(RecursiveChunker { max_tokens, model: model.to_owned(), tok }),
            Err(e) => Err(e),
        }
    }

    /// Count tokens under the chunker's encoder.
    fn token_count(&self, text: &str) -> (r: usize)
        ensures
            r as nat == token_count_of(self.key(), text@),
    {
        self.tok.count(text)
    }

    /// Build one chunk record.
    fn make_chunk(&self, content: String, page: usize, offset: usize, index: usize) -> (c:
        TextChunk)
        ensures
            rec_of(c) == mk_rec(content@, page as nat, offset as nat, index as nat, self.key()),
            c.model@ == self.model_view(),
    {
        let tokens = self.token_count(content.as_str());
        let end = sat_add_usize(offset, content.as_str().len());
        TextChunk {
            content,
            page_number: page,
            chunk_index: index,
            char_range: (offset, end),
            model: self.model.clone(),
            token_count: tokens,
        }
    }

    /// Cut an over-budget sentence into character windows, preferring to
    /// end each window at a whitespace/punctuation break.
    fn hard_split(
        &self,
        chunks: &mut Vec<TextChunk>,
        chars: &Vec<char>,
        page: usize,
        start_offset: usize,
    ) -> (r: usize)
        ensures
            ({
                let out = hard_split_spec(
                    chars@,
                    0,
                    page as nat,
                    start_offset as nat,
                    old(chunks)@.len() as nat,
                    self.key(),
                );
                &&& chunks_match(final(chunks)@, old(chunks)@, out.recs, self.model_view())
                &&& r as nat == out.offset
            }),
    {
        let n = chars.len();
        let ghost full = hard_split_spec(
            chars@,
            0,
            page as nat,
            start_offset as nat,
            old(chunks)@.len() as nat,
            self.key(),
        );
        let mut i: usize = 0;
        let mut offset: usize = start_offset;
        let ghost mut done: Seq<ChunkRec> = Seq::empty();
        while i < n
            invariant
                0 <= i <= n,
                n == chars@.len(),
                full == hard_split_spec(
                    chars@,
                    0,
                    page as nat,
                    start_offset as nat,
                    old(chunks)@.len() as nat,
                    self.key(),
                ),
                ({
                    let sub = hard_split_spec(
                        chars@,
                        i as int,
                        page as nat,
                        offset as nat,
                        chunks@.len() as nat,
                        self.key(),
                    );
                    &&& full.recs == done + sub.recs
                    &&& full.offset == sub.offset
                }),
                chunks_match(chunks@, old(chunks)@, done, self.model_view()),
            decreases n - i,
        {
            let e0: usize = if n - i > 500 {
                i + 500
            } else {
                n
            };
            let mut e: usize = e0;
            while e > i && !good_break_exec(chars[e - 1])
                invariant
                    i <= e <= e0 <= n,
                    n == chars@.len(),
                    back_off(chars@, i as int, e0 as int) == back_off(chars@, i as int, e as int),
                decreases e,
            {
                e -= 1;
            }
            if e == i {
                e = if n - i > 300 {
                    i + 300
                } else {
                    n
                };
            }
            proof {
                assert(e as int == window_end(chars@, i as int));
            }
            let piece_v = vec_slice(chars, i, e);
            let piece = chars_to_string(&piece_v);
            let pl = piece.as_str().len();
            let idx = chunks.len();
            let c = self.make_chunk(piece, page, offset, idx);
            let ghost rec = rec_of(c);
            chunks.push(c);
            let new_offset = sat_add_usize(offset, sat_add_usize(pl, 1));
            proof {
                let sub = hard_split_spec(
                    chars@,
                    i as int,
                    page as nat,
                    offset as nat,
                    idx as nat,
                    self.key(),
                );
                assert(sub.recs == seq![rec] + hard_split_spec(
                    chars@,
                    e as int,
                    page as nat,
                    sat_add(offset as nat, blen_u(chars@.subrange(i as int, e as int)) + 1),
                    (idx + 1) as nat,
                    self.key(),
                ).recs);
                assert(new_offset as nat == sat_add(
                    offset as nat,
                    blen_u(chars@.subrange(i as int, e as int)) + 1,
                ));
                done = done.push(rec);
                assert(full.recs =~= done + hard_split_spec(
                    chars@,
                    e as int,
                    page as nat,
                    new_offset as nat,
                    chunks@.len() as nat,
                    self.key(),
                ).recs);
            }
            offset = new_offset;
            i = e;
        }
        proof {
            assert(full.recs =~= done);
        }
        offset
    }

    /// Recursively split one over-budget paragraph: accumulate sentences
    /// greedily within the budget, flushing on overflow, hard-splitting a
    /// sentence that alone exceeds it.
    fn recursive_split(
        &self,
        chunks: &mut Vec<TextChunk>,
        text: &str,
        page: usize,
        start_offset: usize,
    )
        ensures
            chunks_match(
                final(chunks)@,
                old(chunks)@,
                rsplit_spec(
                    text@,
                    page as nat,
                    start_offset as nat,
                    old(chunks)@.len() as nat,
                    self.key(),
                    self.max_spec(),
                ).recs,
                self.model_view(),
            ),
    {
        let sents = split_sentences(text);
        let ghost spec_sents = split_sentences_spec(text@);
        let ghost st0 = RSt {
            recs: Seq::empty(),
            buffer: Seq::empty(),
            offset: start_offset as nat,
            index: old(chunks)@.len() as nat,
        };
        let mut buffer = String::new();
        let mut offset: usize = start_offset;
        let ghost mut st = st0;
        proof {
            assert(spec_sents.take(0) =~= Seq::<Seq<char>>::empty());
        }
        let mut i: usize = 0;
        while i < sents.len()
            invariant
                0 <= i <= sents@.len(),
                sents@.len() == spec_sents.len(),
                forall|m: int| 0 <= m < sents@.len() ==> (#[trigger] sents@[m])@ == spec_sents[m],
                spec_sents == split_sentences_spec(text@),
                st0 == (RSt {
                    recs: Seq::<ChunkRec>::empty(),
                    buffer: Seq::<char>::empty(),
                    offset: start_offset as nat,
                    index: old(chunks)@.len() as nat,
                }),
                st == rrun(
                    spec_sents.take(i as int),
                    st0,
                    page as nat,
                    self.key(),
                    self.max_spec(),
                ),
                buffer@ == st.buffer,
                offset as nat == st.offset,
                chunks@.len() as nat == st.index,
                chunks_match(chunks@, old(chunks)@, st.recs, self.model_view()),
            decreases sents@.len() - i,
        {
            proof {
                assert(spec_sents.take(i + 1).drop_last() =~= spec_sents.take(i as int));
                assert(spec_sents.take(i + 1).last() == spec_sents[i as int]);
            }
            let ghost st_next = rstep(st, spec_sents[i as int], page as nat, self.key(), self.max_spec());
            let sent = trim_str(sents[i].as_str());
            if !sent.as_str().is_empty() {
                let nb: String = if buffer.as_str().is_empty() {
                    let mut t = String::new();
                    t.append(sent.as_str());
                    t
                } else {
                    let mut t = String::new();
                    t.append(buffer.as_str());
                    t.append(" ");
                    t.append(sent.as_str());
                    t
                };
                if self.token_count(nb.as_str()) <= self.max_tokens {
                    buffer = nb;
                } else {
                    let ghost st1 = if st.buffer.len() > 0 {
                        RSt {
                            recs: st.recs.push(
                                mk_rec(st.buffer, page as nat, st.offset, st.index, self.key()),
                            ),
                            buffer: st.buffer,
                            offset: sat_add(st.offset, blen_u(st.buffer) + 1),
                            index: st.index + 1,
                        }
                    } else {
                        st
                    };
                    if !buffer.as_str().is_empty() {
                        let pl = buffer.as_str().len();
                        let idx = chunks.len();
                        let content = buffer;
                        buffer = String::new();
                        let c = self.make_chunk(content, page, offset, idx);
                        chunks.push(c);
                        offset = sat_add_usize(offset, sat_add_usize(pl, 1));
                    }
                    proof {
                        assert(chunks@.len() as nat == st1.index);
                        assert(offset as nat == st1.offset);
                        assert(chunks_match(chunks@, old(chunks)@, st1.recs, self.model_view()));
                    }
                    if self.token_count(sent.as_str()) <= self.max_tokens {
                        // start the next chunk fresh from this sentence
                        buffer = sent;
                    } else {
                        let sc = str_to_chars(sent.as_str());
                        let ghost mid = chunks@;
                        offset = self.hard_split(chunks, &sc, page, offset);
                        buffer = String::new();
                        proof {
                            let hs = hard_split_spec(
                                sc@,
                                0,
                                page as nat,
                                st1.offset,
                                st1.index,
                                self.key(),
                            );
                            lemma_hs_idx(sc@, 0, page as nat, st1.offset, st1.index, self.key());
                            lemma_chunks_match_trans(
                                chunks@,
                                mid,
                                old(chunks)@,
                                hs.recs,
                                st1.recs,
                                self.model_view(),
                            );
                            assert(st_next.recs =~= st1.recs + hs.recs);
                        }
                    }
                }
            }
            proof {
                st = st_next;
            }
            i += 1;
        }
        proof {
            assert(spec_sents.take(spec_sents.len() as int) =~= spec_sents);
        }
        if !buffer.as_str().is_empty() {
            let idx = chunks.len();
            let c = self.make_chunk(buffer, page, offset, idx);
            chunks.push(c);
        }
    }

    /// Chunk a sequence of (page number, page text) pairs into an ordered
    /// list of records within the token budget.  Chunk indices count up
    /// from zero across all pages in emission order.  One exemption from
    /// the budget is inherent in the design: a sentence that alone
    /// exceeds it is cut into character windows, which are bounded by
    /// characters, not re-counted tokens.
    pub fn chunk(&self, text_with_pages: Vec<(usize, String)>) -> (r: Vec<TextChunk>)
        ensures
            r@.len() == chunk_spec(text_with_pages@, self.key(), self.max_spec()).len(),
            forall|k: int|
                0 <= k < r@.len() ==> rec_of(#[trigger] r@[k]) == chunk_spec(
                    text_with_pages@,
                    self.key(),
                    self.max_spec(),
                )[k] && r@[k].model@ == self.model_view(),
    {
        let mut chunks: Vec<TextChunk> = Vec::new();
        let mut global_offset: usize = 0;
        let ghost cst0 = CSt { recs: Seq::<ChunkRec>::empty(), offset: 0, index: 0 };
        let ghost mut cst = cst0;
        proof {
            assert(text_with_pages@.take(0) =~= Seq::<(usize, String)>::empty());
        }
        let mut i: usize = 0;
        while i < text_with_pages.len()
            invariant
                0 <= i <= text_with_pages@.len(),
                cst0 == (CSt { recs: Seq::<ChunkRec>::empty(), offset: 0nat, index: 0nat }),
                cst == pages_run(
                    text_with_pages@.take(i as int),
                    cst0,
                    self.key(),
                    self.max_spec(),
                ),
                global_offset as nat == cst.offset,
                chunks@.len() as nat == cst.index,
                chunks_match(chunks@, Seq::<TextChunk>::empty(), cst.recs, self.model_view()),
            decreases text_with_pages@.len() - i,
        {
            proof {
                assert(text_with_pages@.take(i + 1).drop_last() =~= text_with_pages@.take(
                    i as int,
                ));
                assert(text_with_pages@.take(i + 1).last() == text_with_pages@[i as int]);
            }
            let pr = &text_with_pages[i];
            let page = pr.0;
            let paragraphs = split_paragraphs(pr.1.as_str());
            let ghost spec_paras = split_paragraphs_spec(pr.1@);
            let ghost pst0 = cst;
            proof {
                assert(spec_paras.take(0) =~= Seq::<Seq<char>>::empty());
            }
            let mut j: usize = 0;
            while j < paragraphs.len()
                invariant
                    0 <= j <= paragraphs@.len(),
                    paragraphs@.len() == spec_paras.len(),
                    forall|m: int|
                        0 <= m < paragraphs@.len() ==> (#[trigger] paragraphs@[m])@
                            == spec_paras[m],
                    cst == paras_run(
                        spec_paras.take(j as int),
                        pst0,
                        page as nat,
                        self.key(),
                        self.max_spec(),
                    ),
                    global_offset as nat == cst.offset,
                    chunks@.len() as nat == cst.index,
                    chunks_match(chunks@, Seq::<TextChunk>::empty(), cst.recs, self.model_view()),
                decreases paragraphs@.len() - j,
            {
                proof {
                    assert(spec_paras.take(j + 1).drop_last() =~= spec_paras.take(j as int));
                    assert(spec_paras.take(j + 1).last() == spec_paras[j as int]);
                }
                let ghost cst_next = para_step(
                    cst,
                    spec_paras[j as int],
                    page as nat,
                    self.key(),
                    self.max_spec(),
                );
                let para = &paragraphs[j];
                let pl = para.as_str().len();
                if self.token_count(para.as_str()) <= self.max_tokens {
                    let idx = chunks.len();
                    let c = self.make_chunk(para.clone(), page, global_offset, idx);
                    chunks.push(c);
                    global_offset = sat_add_usize(global_offset, sat_add_usize(pl, 1));
                } else {
                    let ghost mid = chunks@;
                    self.recursive_split(&mut chunks, para.as_str(), page, global_offset);
                    proof {
                        let sub = rsplit_spec(
                            para@,
                            page as nat,
                            cst.offset,
                            cst.index,
                            self.key(),
                            self.max_spec(),
                        );
                        lemma_rsplit_idx(
                            para@,
                            page as nat,
                            cst.offset,
                            cst.index,
                            self.key(),
                            self.max_spec(),
                        );
                        lemma_chunks_match_trans(
                            chunks@,
                            mid,
                            Seq::<TextChunk>::empty(),
                            sub.recs,
                            cst.recs,
                            self.model_view(),
                        );
                    }
                    global_offset = sat_add_usize(global_offset, sat_add_usize(pl, 1));
                }
                proof {
                    cst = cst_next;
                }
                j += 1;
            }
            proof {
                assert(spec_paras.take(spec_paras.len() as int) =~= spec_paras);
            }
            i += 1;
        }
        proof {
            assert(text_with_pages@.take(text_with_pages@.len() as int) =~= text_with_pages@);
            assert forall|k: int| 0 <= k < chunks@.len() implies rec_of(#[trigger] chunks@[k])
                == cst.recs[k] && chunks@[k].model@ == self.model_view() by {
                assert(rec_of(chunks@[0 + k]) == cst.recs[k] && chunks@[0 + k].model@
                    == self.model_view());
            }
        }
        chunks
    }
}

/// The non-whitespace characters of a text, in order.
pub open spec fn nonws(s: Seq<char>) -> Seq<char> {
    s.filter(|c: char| !is_ws_char(c))
}

/// All the pieces, concatenated in order.
pub open spec fn concat_all(ps: Seq<Seq<char>>) -> Seq<char>
    decreases ps.len(),
{
    if ps.len() == 0 {
        Seq::empty()
    } else {
        concat_all(ps.drop_last()) + ps.last()
    }
}

pub(crate) proof fn lemma_nonws_trim(s: Seq<char>)
    ensures
        nonws(trim_spec(s)) == nonws(s),
    decreases s.len(),
{
    reveal_with_fuel(Seq::filter, 2);
    if s.len() == 0 {
    } else if is_ws_char(s.first()) {
        lemma_nonws_trim(s.drop_first());
        assert(s =~= seq![s.first()] + s.drop_first());
        Seq::filter_distributes_over_add(seq![s.first()], s.drop_first(), |c: char| !is_ws_char(c));
        assert(seq![s.first()].drop_last() =~= Seq::<char>::empty());
        assert(nonws(seq![s.first()]) =~= Seq::<char>::empty());
        assert(nonws(s) =~= nonws(s.drop_first()));
    } else if is_ws_char(s.last()) {
        lemma_nonws_trim(s.drop_last());
        assert(nonws(s) == nonws(s.drop_last()));
    } else {
    }
}

pub(crate) proof fn lemma_concat_single(x: Seq<char>)
    ensures
        concat_all(seq![x]) == x,
{
    assert(seq![x].drop_last() =~= Seq::<Seq<char>>::empty());
    assert(concat_all(Seq::<Seq<char>>::empty()) == Seq::<char>::empty());
    assert(concat_all(seq![x]) == concat_all(seq![x].drop_last()) + seq![x].last());
    assert(Seq::<char>::empty() + x =~= x);
}

proof fn lemma_nonws_two_ws(sep: Seq<char>)
    requires
        sep.len() == 2,
        is_ws_char(sep[0]),
        is_ws_char(sep[1]),
    ensures
        nonws(sep) == Seq::<char>::empty(),
{
    reveal_with_fuel(Seq::filter, 3);
    assert(sep.drop_last() =~= seq![sep[0]]);
    assert(seq![sep[0]].drop_last() =~= Seq::<char>::empty());
    assert(nonws(sep) =~= Seq::<char>::empty());
}

pub(crate) proof fn lemma_concat_all_add(a: Seq<Seq<char>>, b: Seq<Seq<char>>)
    ensures
        concat_all(a + b) == concat_all(a) + concat_all(b),
    decreases b.len(),
{
    if b.len() == 0 {
        assert(a + b =~= a);
        assert(concat_all(a) + Seq::<char>::empty() =~= concat_all(a));
    } else {
        assert((a + b).drop_last() =~= a + b.drop_last());
        lemma_concat_all_add(a, b.drop_last());
        assert((a + b).last() == b.last());
        assert(concat_all(a) + concat_all(b.drop_last()) + b.last() =~= concat_all(a) + (
        concat_all(b.drop_last()) + b.last()));
    }
}

/// Splitting a text into trimmed paragraphs and dropping empty ones
/// preserves the non-whitespace characters, in order.
proof fn lemma_nonws_paragraphs(s: Seq<char>)
    ensures
        nonws(concat_all(split_paragraphs_spec(s))) == nonws(s),
    decreases s.len(),
{
    reveal_with_fuel(Seq::filter, 2);
    let tr = |p: Seq<char>| trim_spec(p);
    let keep = |p: Seq<char>| p.len() > 0;
    let f = first_dnl(s);
    lemma_first_dnl_range(s);
    if f == -1 || !(0 <= f && f + 2 <= s.len()) {
        assert(split_dnl(s) =~= seq![s]);
        assert(split_dnl(s).map_values(tr) =~= seq![trim_spec(s)]);
        lemma_nonws_trim(s);
        if trim_spec(s).len() > 0 {
            assert(split_paragraphs_spec(s) =~= seq![trim_spec(s)]);
            lemma_concat_single(trim_spec(s));
        } else {
            assert(split_paragraphs_spec(s) =~= Seq::<Seq<char>>::empty());
            assert(nonws(s) =~= Seq::<char>::empty());
            assert(nonws(concat_all(split_paragraphs_spec(s))) =~= Seq::<char>::empty());
        }
    } else {
        let head = s.take(f);
        let tail = s.skip(f + 2);
        let sep = s.subrange(f, f + 2);
        lemma_nonws_paragraphs(tail);
        // the split distributes piecewise
        assert(split_dnl(s) == seq![head] + split_dnl(tail));
        assert(split_dnl(s).map_values(tr) =~= seq![trim_spec(head)] + split_dnl(
            tail,
        ).map_values(tr));
        Seq::filter_distributes_over_add(
            seq![trim_spec(head)],
            split_dnl(tail).map_values(tr),
            keep,
        );
        assert(split_paragraphs_spec(s) == seq![trim_spec(head)].filter(keep)
            + split_paragraphs_spec(tail));
        lemma_concat_all_add(seq![trim_spec(head)].filter(keep), split_paragraphs_spec(tail));
        Seq::filter_distributes_over_add(
            concat_all(seq![trim_spec(head)].filter(keep)),
            concat_all(split_paragraphs_spec(tail)),
            |c: char| !is_ws_char(c),
        );
        // the head piece contributes exactly its non-whitespace characters
        lemma_nonws_trim(head);
        if trim_spec(head).len() > 0 {
            assert(seq![trim_spec(head)].filter(keep) =~= seq![trim_spec(head)]);
            lemma_concat_single(trim_spec(head));
        } else {
            assert(seq![trim_spec(head)].filter(keep) =~= Seq::<Seq<char>>::empty());
            assert(concat_all(Seq::<Seq<char>>::empty()) =~= Seq::<char>::empty());
            assert(nonws(head) =~= Seq::<char>::empty());
        }
        // the whole text decomposes around the separator
        assert(s =~= head + sep + tail);
        Seq::filter_distributes_over_add(head + sep, tail, |c: char| !is_ws_char(c));
        Seq::filter_distributes_over_add(head, sep, |c: char| !is_ws_char(c));
        assert(sep.len() == 2 && is_ws_char(sep[0]) && is_ws_char(sep[1])) by {
            assert(dnl_at(s, f));
        }
        lemma_nonws_two_ws(sep);
        assert(nonws(s) =~= nonws(head) + nonws(tail));
        assert(nonws(concat_all(split_paragraphs_spec(s))) =~= nonws(s));
    }
}

/// Every paragraph of every page fits the token budget.
pub open spec fn paragraphs_fit(pages: Seq<(usize, String)>, key: Seq<char>, max: nat) -> bool {
    forall|i: int, j: int|
        0 <= i < pages.len() && 0 <= j < split_paragraphs_spec(pages[i].1@).len()
            ==> token_count_of(key, #[trigger] split_paragraphs_spec(pages[i].1@)[j]) <= max
}

/// Byte ranges are well-ordered: each chunk's range is forward, and
/// successive chunks never overlap.
pub open spec fn ranges_ok(recs: Seq<ChunkRec>) -> bool {
    &&& forall|k: int| 0 <= k < recs.len() ==> (#[trigger] recs[k]).start <= recs[k].end
    &&& forall|k: int| 0 <= k < recs.len() - 1 ==> (#[trigger] recs[k]).end <= recs[k + 1].start
}

/// The chunk contents, in emission order.
pub open spec fn contents_of(recs: Seq<ChunkRec>) -> Seq<Seq<char>> {
    recs.map_values(|r: ChunkRec| r.content)
}

/// The pages' texts concatenated.
pub open spec fn pages_text(pages: Seq<(usize, String)>) -> Seq<char>
    decreases pages.len(),
{
    if pages.len() == 0 {
        Seq::empty()
    } else {
        pages_text(pages.drop_last()) + pages.last().1@
    }
}

/// Well-orderedness of the running chunking state.
spec fn cst_ok(st: CSt) -> bool {
    &&& ranges_ok(st.recs)
    &&& st.index == st.recs.len()
    &&& forall|k: int| 0 <= k < st.recs.len() ==> (#[trigger] st.recs[k]).index == k
    &&& (st.recs.len() > 0 ==> st.recs.last().end <= st.offset)
    &&& st.offset <= usize::MAX
}

#[verifier::rlimit(100)]
#[verifier::spinoff_prover]
proof fn lemma_paras_run_fit(
    paras: Seq<Seq<char>>,
    st: CSt,
    page: nat,
    key: Seq<char>,
    max: nat,
)
    requires
        cst_ok(st),
        forall|j: int| 0 <= j < paras.len() ==> token_count_of(key, #[trigger] paras[j]) <= max,
    ensures
        cst_ok(paras_run(paras, st, page, key, max)),
        contents_of(paras_run(paras, st, page, key, max).recs) =~= contents_of(st.recs) + paras,
        paras_run(paras, st, page, key, max).recs.take(st.recs.len() as int) =~= st.recs,
        forall|k: int|
            st.recs.len() <= k < paras_run(paras, st, page, key, max).recs.len()
                ==> (#[trigger] paras_run(paras, st, page, key, max).recs[k]).tokens <= max,
    decreases paras.len(),
{
    if paras.len() == 0 {
        assert(contents_of(st.recs) + paras =~= contents_of(st.recs));
    } else {
        lemma_paras_run_fit(paras.drop_last(), st, page, key, max);
        let mid = paras_run(paras.drop_last(), st, page, key, max);
        let para = paras.last();
        assert(token_count_of(key, para) <= max);
        let res = para_step(mid, para, page, key, max);
        assert(res.recs == mid.recs.push(mk_rec(para, page, mid.offset, mid.index, key)));
        assert(cst_ok(res)) by {
            let r = mk_rec(para, page, mid.offset, mid.index, key);
            assert(r.start <= r.end && r.end <= res.offset);
            assert forall|k: int| 0 <= k < res.recs.len() - 1 implies (#[trigger] res.recs[k]).end
                <= res.recs[k + 1].start by {
                if k < mid.recs.len() - 1 {
                    assert(mid.recs[k].end <= mid.recs[k + 1].start);
                }
            }
        }
        assert(contents_of(res.recs) =~= contents_of(mid.recs) + seq![para]);
        assert(contents_of(st.recs) + paras.drop_last() + seq![para] =~= contents_of(st.recs)
            + paras);
    }
}

#[verifier::rlimit(100)]
#[verifier::spinoff_prover]
proof fn lemma_pages_run_fit(pages: Seq<(usize, String)>, st: CSt, key: Seq<char>, max: nat)
    requires
        cst_ok(st),
        paragraphs_fit(pages, key, max),
    ensures
        cst_ok(pages_run(pages, st, key, max)),
        nonws(concat_all(contents_of(pages_run(pages, st, key, max).recs))) =~= nonws(
            concat_all(contents_of(st.recs)),
        ) + nonws(pages_text(pages)),
        forall|k: int|
            st.recs.len() <= k < pages_run(pages, st, key, max).recs.len()
                ==> (#[trigger] pages_run(pages, st, key, max).recs[k]).tokens <= max,
    decreases pages.len(),
{
    if pages.len() == 0 {
        assert(nonws(pages_text(pages)) =~= Seq::<char>::empty());
        assert(nonws(concat_all(contents_of(st.recs))) + Seq::<char>::empty() =~= nonws(
            concat_all(contents_of(st.recs)),
        ));
    } else {
        let front = pages.drop_last();
        assert(paragraphs_fit(front, key, max)) by {
            assert forall|i: int, j: int|
                0 <= i < front.len() && 0 <= j < split_paragraphs_spec(front[i].1@).len() implies
                token_count_of(key, #[trigger] split_paragraphs_spec(front[i].1@)[j]) <= max by {
                assert(front[i] == pages[i]);
            }
        }
        lemma_pages_run_fit(front, st, key, max);
        let mid = pages_run(front, st, key, max);
        let ptext = pages.last().1@;
        let paras = split_paragraphs_spec(ptext);
        assert(forall|j: int| 0 <= j < paras.len() ==> token_count_of(key, #[trigger] paras[j])
            <= max) by {
            assert(pages[pages.len() - 1] == pages.last());
        }
        lemma_paras_run_fit(paras, mid, pages.last().0 as nat, key, max);
        let res = pages_run(pages, st, key, max);
        assert forall|k: int|
            st.recs.len() <= k < res.recs.len() implies (#[trigger] res.recs[k]).tokens
            <= max by {
            if k < mid.recs.len() {
                assert(res.recs.take(mid.recs.len() as int)[k] == mid.recs[k]);
            }
        }
        assert(contents_of(res.recs) =~= contents_of(mid.recs) + paras);
        lemma_concat_all_add(contents_of(mid.recs), paras);
        Seq::filter_distributes_over_add(
            concat_all(contents_of(mid.recs)),
            concat_all(paras),
            |c: char| !is_ws_char(c),
        );
        lemma_nonws_paragraphs(ptext);
        Seq::filter_distributes_over_add(pages_text(front), ptext, |c: char| !is_ws_char(c));
        assert(nonws(concat_all(contents_of(res.recs))) =~= nonws(
            concat_all(contents_of(st.recs)),
        ) + nonws(pages_text(pages)));
    }
}

/// The records' indices count up from `base`.
pub open spec fn indices_from(recs: Seq<ChunkRec>, base: nat) -> bool {
    forall|k: int| 0 <= k < recs.len() ==> (#[trigger] recs[k]).index == base + k
}

proof fn lemma_hs_indices(s: Seq<char>, i: int, page: nat, offset: nat, index: nat, key: Seq<char>)
    ensures
        indices_from(hard_split_spec(s, i, page, offset, index, key).recs, index),
    decreases s.len() - i,
{
    if 0 <= i < s.len() {
        let e = window_end(s, i);
        if i < e <= s.len() {
            let piece = s.subrange(i, e);
            lemma_hs_indices(s, e, page, sat_add(offset, blen_u(piece) + 1), index + 1, key);
        }
    }
}

proof fn lemma_rstep_indices(st: RSt, sent0: Seq<char>, page: nat, key: Seq<char>, max: nat, base: nat)
    requires
        indices_from(st.recs, base),
        st.index == base + st.recs.len(),
    ensures
        indices_from(rstep(st, sent0, page, key, max).recs, base),
        rstep(st, sent0, page, key, max).index == base + rstep(st, sent0, page, key, max).recs.len(),
{
    lemma_rstep_idx(st, sent0, page, key, max);
    let sent = trim_spec(sent0);
    if sent.len() > 0 {
        let nb = if st.buffer.len() == 0 {
            sent
        } else {
            st.buffer + " "@ + sent
        };
        if token_count_of(key, nb) <= max {
        } else {
            let st1 = if st.buffer.len() > 0 {
                RSt {
                    recs: st.recs.push(mk_rec(st.buffer, page, st.offset, st.index, key)),
                    buffer: st.buffer,
                    offset: sat_add(st.offset, blen_u(st.buffer) + 1),
                    index: st.index + 1,
                }
            } else {
                st
            };
            if token_count_of(key, sent) <= max {
            } else {
                lemma_hs_indices(sent, 0, page, st1.offset, st1.index, key);
                lemma_hs_idx(sent, 0, page, st1.offset, st1.index, key);
            }
        }
    }
}

proof fn lemma_rrun_indices(
    sents: Seq<Seq<char>>,
    st: RSt,
    page: nat,
    key: Seq<char>,
    max: nat,
    base: nat,
)
    requires
        indices_from(st.recs, base),
        st.index == base + st.recs.len(),
    ensures
        indices_from(rrun(sents, st, page, key, max).recs, base),
        rrun(sents, st, page, key, max).index == base + rrun(sents, st, page, key, max).recs.len(),
    decreases sents.len(),
{
    if sents.len() > 0 {
        lemma_rrun_indices(sents.drop_last(), st, page, key, max, base);
        lemma_rstep_indices(
            rrun(sents.drop_last(), st, page, key, max),
            sents.last(),
            page,
            key,
            max,
            base,
        );
    }
}

proof fn lemma_paras_run_indices(
    paras: Seq<Seq<char>>,
    st: CSt,
    page: nat,
    key: Seq<char>,
    max: nat,
)
    requires
        indices_from(st.recs, 0),
        st.index == st.recs.len(),
    ensures
        indices_from(paras_run(paras, st, page, key, max).recs, 0),
        paras_run(paras, st, page, key, max).index == paras_run(
            paras,
            st,
            page,
            key,
            max,
        ).recs.len(),
    decreases paras.len(),
{
    if paras.len() > 0 {
        lemma_paras_run_indices(paras.drop_last(), st, page, key, max);
        let mid = paras_run(paras.drop_last(), st, page, key, max);
        let para = paras.last();
        if token_count_of(key, para) <= max {
        } else {
            lemma_rrun_indices(
                split_sentences_spec(para),
                RSt {
                    recs: Seq::empty(),
                    buffer: Seq::empty(),
                    offset: mid.offset,
                    index: mid.index,
                },
                page,
                key,
                max,
                mid.index,
            );
        }
    }
}

proof fn lemma_pages_run_indices(pages: Seq<(usize, String)>, st: CSt, key: Seq<char>, max: nat)
    requires
        indices_from(st.recs, 0),
        st.index == st.recs.len(),
    ensures
        indices_from(pages_run(pages, st, key, max).recs, 0),
        pages_run(pages, st, key, max).index == pages_run(pages, st, key, max).recs.len(),
    decreases pages.len(),
{
    if pages.len() > 0 {
        lemma_pages_run_indices(pages.drop_last(), st, key, max);
        lemma_paras_run_indices(
            split_paragraphs_spec(pages.last().1@),
            pages_run(pages.drop_last(), st, key, max),
            pages.last().0 as nat,
            key,
            max,
        );
    }
}

/// On every input, the chunk indices count up from zero by exactly one
/// per emitted chunk, globally across all pages, in emission order.
pub proof fn lemma_chunk_indices(pages: Seq<(usize, String)>, key: Seq<char>, max: nat)
    ensures
        forall|k: int|
            0 <= k < chunk_spec(pages, key, max).len() ==> (#[trigger] chunk_spec(
                pages,
                key,
                max,
            )[k]).index == k,
{
    lemma_pages_run_indices(pages, CSt { recs: Seq::empty(), offset: 0, index: 0 }, key, max);
}

/// On any input whose paragraphs all fit the token budget, the chunker's
/// records cover the input without loss or overlap: the byte ranges are
/// non-decreasing and non-overlapping, the chunk indices count up from
/// zero in emission order, and concatenating the chunk contents in order
/// reproduces the input modulo whitespace (the non-whitespace characters
/// are exactly those of the page texts, in order).
pub proof fn lemma_chunk_properties(pages: Seq<(usize, String)>, key: Seq<char>, max: nat)
    requires
        paragraphs_fit(pages, key, max),
    ensures
        ranges_ok(chunk_spec(pages, key, max)),
        forall|k: int|
            0 <= k < chunk_spec(pages, key, max).len() ==> (#[trigger] chunk_spec(
                pages,
                key,
                max,
            )[k]).index == k,
        forall|k: int|
            0 <= k < chunk_spec(pages, key, max).len() ==> (#[trigger] chunk_spec(
                pages,
                key,
                max,
            )[k]).tokens <= max,
        nonws(concat_all(contents_of(chunk_spec(pages, key, max)))) == nonws(pages_text(pages)),
{
    let st0 = CSt { recs: Seq::empty(), offset: 0, index: 0 };
    assert(cst_ok(st0));
    lemma_pages_run_fit(pages, st0, key, max);
    assert(contents_of(st0.recs) =~= Seq::<Seq<char>>::empty());
    assert(nonws(concat_all(Seq::<Seq<char>>::empty())) =~= Seq::<char>::empty());
}

} // verus!
