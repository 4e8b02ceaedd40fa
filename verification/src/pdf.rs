//! The text-side logic of the PDF pipeline: splitting extracted page
//! text into paragraph chunks with a simple header heuristic.  Loading
//! and decoding the binary document happens outside the library.

use vstd::prelude::*;
use crate::text::{str_to_chars};
use crate::recursive::{blen_u, split_paragraphs, split_paragraphs_spec};

verus! {

/// ASCII alphanumeric characters and ASCII punctuation (what the header
/// heuristic accepts).
pub open spec fn is_ascii_alnum_or_punct(c: char) -> bool {
    ||| (0x21 <= c as u32 && c as u32 <= 0x2F)
    ||| (0x30 <= c as u32 && c as u32 <= 0x39)
    ||| (0x3A <= c as u32 && c as u32 <= 0x40)
    ||| (0x41 <= c as u32 && c as u32 <= 0x5A)
    ||| (0x5B <= c as u32 && c as u32 <= 0x60)
    ||| (0x61 <= c as u32 && c as u32 <= 0x7A)
    ||| (0x7B <= c as u32 && c as u32 <= 0x7E)
}

/// The header heuristic: short, all ASCII alphanumeric/punctuation, and
/// not ending with a period.
pub open spec fn header_like(p: Seq<char>) -> bool {
    &&& blen_u(p) < 100
    &&& forall|i: int| 0 <= i < p.len() ==> is_ascii_alnum_or_punct(#[trigger] p[i])
    &&& !(p.len() > 0 && p.last() == '.')
}

/// One chunk of extracted PDF text.
pub struct PdfTextChunk {
    pub text: String,
    /// Whether the heuristic classifies the chunk as a header.
    pub is_header: bool,
}

/// Splits extracted page text into chunks.
pub struct PDFParser;

impl PDFParser {
    /// Split extracted text into trimmed, non-empty paragraph chunks,
    /// tagging each with the header heuristic.
    pub fn split_text_into_chunks(&self, text: &str) -> (r: Vec<PdfTextChunk>)
        ensures
            r@.len() == split_paragraphs_spec(text@).len(),
            forall|k: int|
                0 <= k < r@.len() ==> (#[trigger] r@[k]).text@ == split_paragraphs_spec(text@)[k]
                    && r@[k].is_header == header_like(split_paragraphs_spec(text@)[k]),
    {
        let paras = split_paragraphs(text);
        let mut r: Vec<PdfTextChunk> = Vec::new();
        let mut i: usize = 0;
        while i < paras.len()
            invariant
                0 <= i <= paras@.len(),
                paras@.len() == split_paragraphs_spec(text@).len(),
                forall|l: int| 0 <= l < paras@.len() ==> (#[trigger] paras@[l])@
                    == split_paragraphs_spec(text@)[l],
                r@.len() == i,
                forall|k: int|
                    0 <= k < i ==> (#[trigger] r@[k]).text@ == split_paragraphs_spec(text@)[k]
                        && r@[k].is_header == header_like(split_paragraphs_spec(text@)[k]),
            decreases paras@.len() - i,
        {
            let p = &paras[i];
            let chars = str_to_chars(p.as_str());
            let mut all_ok = true;
            let mut j: usize = 0;
            while j < chars.len()
                invariant
                    0 <= j <= chars@.len(),
                    chars@ == p@,
                    all_ok == (forall|m: int|
                        0 <= m < j ==> is_ascii_alnum_or_punct(#[trigger] chars@[m])),
                decreases chars@.len() - j,
            {
                let c = chars[j];
                let u = c as u32;
                let ok = 0x21 <= u && u <= 0x7E;
                if !ok {
                    all_ok = false;
                }
                j += 1;
            }
            let ends_dot = chars.len() > 0 && chars[chars.len() - 1] == '.';
            let short = p.as_str().len() < 100;
            let is_header = short && all_ok && !ends_dot;
            proof {
                assert(is_header == header_like(p@));
            }
            r.push(PdfTextChunk { text: p.clone(), is_header });
            i += 1;
        }
        r
    }
}

} // verus!
