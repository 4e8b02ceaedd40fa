use rag_indexing::faq::{FAQChunker, FAQEntry};
use rag_indexing::pdf::PDFParser;
use rag_indexing::recursive::RecursiveChunker;
use rag_indexing::tokens::{count_tokens, TokenizerError};

#[test]
fn small_paragraphs_become_chunks_verbatim() {
    let chunker = RecursiveChunker::new(512, "gpt-3.5-turbo").unwrap();
    let text = "First paragraph here\n\nSecond paragraph here".to_string();
    let chunks = chunker.chunk(vec![(1, text)]);
    assert_eq!(chunks.len(), 2);
    assert_eq!(chunks[0].content, "First paragraph here");
    assert_eq!(chunks[1].content, "Second paragraph here");
    // indices count up from zero; ranges are forward and non-overlapping
    assert_eq!(chunks[0].chunk_index, 0);
    assert_eq!(chunks[1].chunk_index, 1);
    assert!(chunks[0].char_range.0 <= chunks[0].char_range.1);
    assert!(chunks[0].char_range.1 <= chunks[1].char_range.0);
    // the token counts are reproducible through the tokenizer service
    for c in &chunks {
        assert_eq!(c.page_number, 1);
        assert_eq!(c.token_count, count_tokens(&c.content, &c.model).unwrap());
    }
}

#[test]
fn concatenation_preserves_text_modulo_whitespace() {
    let chunker = RecursiveChunker::new(512, "gpt-3.5-turbo").unwrap();
    let text = "  alpha beta \n\n gamma\n\ndelta  ".to_string();
    let chunks = chunker.chunk(vec![(1, text.clone())]);
    let joined: String = chunks.iter().map(|c| c.content.clone()).collect();
    let strip = |s: &str| s.chars().filter(|c| !c.is_whitespace()).collect::<String>();
    assert_eq!(strip(&joined), strip(&text));
}

#[test]
fn budget_crossing_after_six_sentences_gives_two_chunks() {
    // ten sentences; the budget is exactly the cost of the first six, so
    // the seventh overflows and the chunker emits two chunks
    let sentences = [
        "Alpha alpha alpha.",
        "Beta beta beta.",
        "Gamma gamma gamma.",
        "Delta delta delta.",
        "Epsilon epsilon epsilon.",
        "Zeta zeta zeta.",
        "Eta.",
        "Theta.",
        "Iota.",
        "Kappa.",
    ];
    let paragraph = sentences.join(" ");
    // sentence splitting drops the periods and joins with single spaces
    let first_six = sentences[..6]
        .iter()
        .map(|s| s.trim_end_matches('.'))
        .collect::<Vec<_>>()
        .join(" ");
    let budget = count_tokens(&first_six, "gpt-3.5-turbo").unwrap();
    let chunker = RecursiveChunker::new(budget, "gpt-3.5-turbo").unwrap();
    let chunks = chunker.chunk(vec![(1, paragraph)]);
    assert_eq!(chunks.len(), 2);
    assert_eq!(chunks[0].content, first_six);
    assert_eq!(chunks[1].content, "Eta Theta Iota Kappa");
}

#[test]
fn hard_split_cuts_unbreakable_text() {
    // one long "sentence" without any punctuation or spaces, far over a
    // tiny budget: the chunker falls back to character windows
    let long = "x".repeat(1200);
    let chunker = RecursiveChunker::new(5, "gpt-3.5-turbo").unwrap();
    let chunks = chunker.chunk(vec![(1, long)]);
    assert!(chunks.len() >= 2);
    for (i, c) in chunks.iter().enumerate() {
        assert_eq!(c.chunk_index, i);
        assert!(c.content.chars().count() <= 500);
    }
}

#[test]
fn faq_small_entry_gives_one_chunk() {
    let chunker = FAQChunker::new(200, 2, "qwen-max".to_string()).unwrap();
    let entries = vec![FAQEntry {
        category: "Return Policy".to_string(),
        q: "How do I return an item?".to_string(),
        a: "Contact support within 30 days.".to_string(),
        tags: vec!["returns".to_string()],
    }];
    let chunks = chunker.chunk_by_qa(entries);
    assert_eq!(chunks.len(), 1);
    let c = &chunks[0];
    assert_eq!(c.faq_id, "faq-return-policy-001");
    assert_eq!(c.chunk_id, "faq-return-policy-001-chunk-1");
    assert_eq!(c.category, "Return Policy");
    assert_eq!(c.title, "How do I return an item?");
    assert_eq!(c.content, "Q: How do I return an item?\nA: Contact support within 30 days.");
    assert_eq!(c.tags, vec!["returns".to_string()]);
    assert_eq!(
        c.token_count,
        count_tokens(&c.content, "qwen-max").unwrap()
    );
}

#[test]
fn faq_long_entry_splits_with_overlap() {
    // an over-budget entry made of short sentences, overlap of one unit:
    // each later chunk starts with the unit the previous one ended with
    let answer = "Alpha one. Beta two. Gamma three. Delta four. Epsilon five. \
                  Zeta six. Eta seven. Theta eight. Iota nine. Kappa ten."
        .to_string();
    let chunker = FAQChunker::new(12, 1, "gpt-4o".to_string()).unwrap();
    let entries = vec![FAQEntry {
        category: "General".to_string(),
        q: "What?".to_string(),
        a: answer,
        tags: vec![],
    }];
    let chunks = chunker.chunk_by_qa(entries);
    assert!(chunks.len() >= 2, "expected a split, got {} chunk(s)", chunks.len());
    for (i, c) in chunks.iter().enumerate() {
        assert_eq!(c.chunk_id, format!("faq-general-001-chunk-{}", i + 1));
        assert_eq!(c.faq_id, "faq-general-001");
        // even for split chunks the count re-tokenizes the joined content
        assert_eq!(c.token_count, count_tokens(&c.content, "gpt-4o").unwrap());
    }
    // the overlap: each later chunk leads with the unit the previous
    // chunk ended with
    for pair in chunks.windows(2) {
        let next = &pair[1].content;
        let first_unit = &next[..next.find('.').map(|p| p + 1).unwrap_or(next.len())];
        assert!(
            pair[0].content.ends_with(first_unit),
            "chunk {:?} does not end with {:?}",
            pair[0].content,
            first_unit
        );
    }
}

#[test]
fn faq_clause_splitting_uses_word_segmentation() {
    // a long Chinese run separated only by clause commas: the semantic
    // splitter cuts at them, so the entry spreads over several chunks
    let answer = "这是一个很长的句子，它包含了许多不同的分句，每个分句都描述了一个重要的细节，\
                  我们希望切分器能够在逗号处进行切分，从而产生多个语义连贯的块，\
                  而不是把全部内容放进一个超长的块里"
        .to_string();
    let chunker = FAQChunker::new(30, 0, "qwen-max".to_string()).unwrap();
    let entries = vec![FAQEntry {
        category: "General".to_string(),
        q: "说明".to_string(),
        a: answer,
        tags: vec![],
    }];
    let chunks = chunker.chunk_by_qa(entries);
    assert!(chunks.len() >= 2);
}

#[test]
fn faq_unknown_model_fails_fast() {
    let r = FAQChunker::new(100, 2, "no-such-model".to_string());
    assert!(matches!(r, Err(TokenizerError::UnsupportedModel)));
    let r2 = RecursiveChunker::new(100, "no-such-model");
    assert!(matches!(r2, Err(TokenizerError::UnsupportedModel)));
}

#[test]
fn faq_entries_parse_from_markdown() {
    let md = "## 1、Returns\n- Q: How do I return?\nA: Use the portal.\n\
              ## 2、Shipping\n- Q: How long does shipping take?\nA: Three days.\n";
    let entries = FAQEntry::parse_from_markdown(md);
    assert_eq!(entries.len(), 2);
    assert_eq!(entries[0].category, "Returns");
    assert_eq!(entries[0].q, "How do I return?");
    assert_eq!(entries[0].a, "Use the portal.");
    assert!(entries[0].tags.is_empty());
    assert_eq!(entries[1].category, "Shipping");
    assert_eq!(entries[1].q, "How long does shipping take?");
    assert_eq!(entries[1].a, "Three days.");
}

#[test]
fn faq_q_without_a_is_dropped() {
    let md = "- Q: Orphan question?\nNot an answer line\n- Q: Real one?\nA: Yes.\n";
    let entries = FAQEntry::parse_from_markdown(md);
    assert_eq!(entries.len(), 1);
    assert_eq!(entries[0].q, "Real one?");
    assert_eq!(entries[0].category, "General");
}

#[test]
fn pdf_text_chunks_with_header_heuristic() {
    let parser = PDFParser;
    let text = "Introduction\n\nThis paragraph explains the topic in detail.";
    let chunks = parser.split_text_into_chunks(text);
    assert_eq!(chunks.len(), 2);
    assert_eq!(chunks[0].text, "Introduction");
    assert!(chunks[0].is_header);
    assert_eq!(chunks[1].text, "This paragraph explains the topic in detail.");
    assert!(!chunks[1].is_header);
}
