use rag_indexing::tokens::{count_tokens, normalize_model_name, TokenizerError};
use rag_indexing::tree::{Node, NodeTree, TreeError};
use rag_indexing::embedding::EmbeddingError;

#[test]
fn tiktoken_test_count_tokens() {
    let text = "Rust 是一门系统编程语言，专注于安全与性能。\n它由 Mozilla 开发。";

    let models = ["gpt-4o", "gpt-3.5-turbo", "text-embedding-3-small"];

    for model in models {
        let tokens = count_tokens(text, model).unwrap();
        println!("[{}] tokens: {}", model, tokens);
        assert!(tokens > 0);
    }
}

#[test]
fn count_tokens_alias_equivalence() {
    // "gpt-4" and "gpt-4-turbo" normalize to the same canonical encoder
    let a = count_tokens("hello", "gpt-4").unwrap();
    let b = count_tokens("hello", "gpt-4-turbo").unwrap();
    assert_eq!(a, b);
    // trimming and case folding do not change the encoder either
    let c = count_tokens("hello", "  GPT-4o  ").unwrap();
    assert_eq!(a, c);
}

#[test]
fn count_tokens_counts_grow_with_text() {
    let short = count_tokens("hello", "gpt-4o").unwrap();
    let long = count_tokens("hello hello hello hello hello", "gpt-4o").unwrap();
    assert!(long > short);
}

#[test]
fn count_tokens_unknown_model() {
    let r = count_tokens("hello", "no-such-model-xyz");
    assert!(matches!(r, Err(TokenizerError::UnsupportedModel)));
}

#[test]
fn normalize_model_name_aliases() {
    assert_eq!(normalize_model_name("gpt-4"), "gpt-4o");
    assert_eq!(normalize_model_name("GPT-4-Turbo"), "gpt-4o");
    assert_eq!(normalize_model_name("qwen-max"), "gpt-4o");
    assert_eq!(normalize_model_name("chatgpt"), "gpt-3.5-turbo");
    assert_eq!(normalize_model_name("embedding-small"), "text-embedding-3-small");
    assert_eq!(normalize_model_name("ada"), "text-embedding-ada-002");
    assert_eq!(normalize_model_name("something-else"), "something-else");
}

fn build_family(n: usize) -> (NodeTree, Vec<rag_indexing::tree::NodeId>) {
    let root = Node::new_root("doc".to_string(), None);
    let mut tree = NodeTree::new(root);
    let root_id = tree.root_id();
    let mut ids = Vec::new();
    for i in 0..n {
        let leaf = Node::new_leaf(
            root_id,
            format!("leaf {}", i),
            6,
            i,
            vec!["Root".to_string()],
            "doc".to_string(),
            None,
            None,
            None,
            None,
        );
        let id = leaf.id();
        tree.add_node(leaf).unwrap();
        ids.push(id);
    }
    (tree, ids)
}

#[test]
fn sibling_chain_follows_insertion_order() {
    // walking Next from the first child visits all children in insertion
    // order; walking Previous from the last reverses it
    let (tree, ids) = build_family(4);
    let root = tree.get(tree.root_id()).unwrap();
    let children = root.children().clone();
    assert_eq!(children, ids);

    let mut cur = children[0];
    let mut visited = vec![cur];
    while let Some(nx) = tree.get(cur).unwrap().next_id() {
        visited.push(nx);
        cur = nx;
    }
    assert_eq!(visited, ids);

    let mut cur = children[children.len() - 1];
    let mut back = vec![cur];
    while let Some(pv) = tree.get(cur).unwrap().prev_id() {
        back.push(pv);
        cur = pv;
    }
    let mut rev = ids.clone();
    rev.reverse();
    assert_eq!(back, rev);
}

#[test]
fn ancestors_end_at_the_node_and_start_at_the_root() {
    let root = Node::new_root("doc".to_string(), None);
    let mut tree = NodeTree::new(root);
    let root_id = tree.root_id();
    let section = Node::new_intermediate(
        root_id,
        Some("S".to_string()),
        vec!["Root".to_string(), "S".to_string()],
        "doc".to_string(),
    );
    let sec_id = section.id();
    tree.add_node(section).unwrap();
    let leaf = Node::new_leaf(
        sec_id,
        "body".to_string(),
        4,
        0,
        vec!["Root".to_string(), "S".to_string()],
        "doc".to_string(),
        None,
        None,
        None,
        None,
    );
    let leaf_id = leaf.id();
    tree.add_node(leaf).unwrap();

    let path = tree.get_ancestors(leaf_id);
    assert_eq!(path.len(), 3);
    assert_eq!(path[0].id(), root_id);
    assert_eq!(path[1].id(), sec_id);
    assert_eq!(path[2].id(), leaf_id);
}

#[test]
fn add_node_rejects_unknown_parent() {
    let root = Node::new_root("doc".to_string(), None);
    let mut tree = NodeTree::new(root);
    // a parent id from a different tree is not found
    let other = Node::new_root("other".to_string(), None);
    let stray = Node::new_leaf(
        other.id(),
        "text".to_string(),
        4,
        0,
        vec!["Root".to_string()],
        "doc".to_string(),
        None,
        None,
        None,
        None,
    );
    assert!(matches!(tree.add_node(stray), Err(TreeError::ParentNotFound)));
}

#[test]
fn set_leaf_embedding_stores_and_rejects() {
    let (mut tree, ids) = build_family(1);
    let root_id = tree.root_id();
    // the root is not a leaf
    assert!(matches!(
        tree.set_leaf_embedding(root_id, vec![1, 2, 3]),
        Err(TreeError::LeafNotFound)
    ));
    // a leaf takes the vector
    tree.set_leaf_embedding(ids[0], vec![7, 8]).unwrap();
    let leaf = tree.get(ids[0]).unwrap().as_leaf().unwrap();
    assert_eq!(leaf.embedding, Some(vec![7, 8]));
    // leaf_nodes sees exactly the one leaf
    let leaves = tree.leaf_nodes();
    assert_eq!(leaves.len(), 1);
    assert_eq!(leaves[0].text, "leaf 0");
}

#[test]
fn node_ids_are_distinct() {
    let a = Node::new_root("a".to_string(), None);
    let b = Node::new_root("b".to_string(), None);
    assert_ne!(a.id(), b.id());
}

#[test]
fn embedding_error_carries_detail() {
    let e = EmbeddingError::Api("Input texts cannot be empty".to_string());
    assert_eq!(e.detail().as_str(), "Input texts cannot be empty");
    let v = EmbeddingError::InvalidVector("Zero vector cannot be normalized".to_string());
    assert!(matches!(v, EmbeddingError::InvalidVector(_)));
}
