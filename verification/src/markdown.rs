//! Markdown tree builder: a single-pass state machine that consumes the
//! linear event stream of a markdown tokenizer and grows a [`NodeTree`]:
//! one intermediate node per (non-empty) heading, nested by heading level,
//! and one leaf per paragraph, code block, table or image.
//!
//! The machine is specified by [`step`], a pure transition function on
//! [`BuildState`]; [`MarkdownParser::parse`] is proved to produce a tree
//! that matches the emission list of running [`step`] over the event
//! stream, so any two runs on the same input build isomorphic trees.

use vstd::prelude::*;
use vstd::string::StringExecFns;
use pulldown_cmark::{Event as E, Options, Parser, Tag as T, TagEnd as TE};
use crate::text::{
    byte_len, chars_to_string, clone_opt_string, dec_chars, dec_str, str_to_chars,
    trim_end_chars, trim_end_spec, trim_spec, trim_str,
};
use crate::tree::{chunk_label, same_payload, Node, NodeId, NodeTree, NodeType, TreeError};

verus! {

/// One event of the markdown token stream, reduced to what the builder
/// reacts to.
#[derive(Debug, Clone)]
pub enum MdEvent {
    /// A heading opens, with its level (1 to 6).
    HeadingStart(u32),
    HeadingEnd,
    ParagraphEnd,
    CodeBlockStart,
    CodeBlockEnd,
    TableStart,
    TableHeadEnd,
    TableRowEnd,
    TableEnd,
    /// An inline image opens, carrying its title and destination URL.
    ImageStart(String, String),
    ImageEnd,
    Text(String),
    InlineCode(String),
    SoftBreak,
    HardBreak,
    /// Any event the builder ignores.
    Other,
}

/// The event stream that the markdown tokenizer produces on this input,
/// reduced to [`MdEvent`].  It depends on the input text alone.
pub uninterp spec fn md_events_of(s: Seq<char>) -> Seq<MdEvent>;

#[verifier::external_type_specification]
#[verifier::external_body]
pub struct ExEvent<'a>(E<'a>);

#[verifier::external_type_specification]
#[verifier::external_body]
pub struct ExTagEnd(TE);

/// Classification of a closing tag; one arm per variant, moving nothing.
#[verifier::external_body]
fn conv_end(te: TE) -> MdEvent {
    match te {
        TE::Heading(_) => MdEvent::HeadingEnd,
        TE::Paragraph => MdEvent::ParagraphEnd,
        TE::CodeBlock => MdEvent::CodeBlockEnd,
        TE::TableHead => MdEvent::TableHeadEnd,
        TE::TableRow => MdEvent::TableRowEnd,
        TE::Table => MdEvent::TableEnd,
        TE::Image => MdEvent::ImageEnd,
        _ => MdEvent::Other,
    }
}

/// Classification of one parser event; one arm per variant, moving the
/// carried text only.
#[verifier::external_body]
fn conv_event(e: E<'_>) -> MdEvent {
    match e {
        E::Start(T::Heading { level, .. }) => MdEvent::HeadingStart(level as u32),
        E::Start(T::CodeBlock(_)) => MdEvent::CodeBlockStart,
        E::Start(T::Table(_)) => MdEvent::TableStart,
        E::Start(T::Image { dest_url, title, .. }) => MdEvent::ImageStart(title.to_string(), dest_url.to_string()),
        E::End(te) => conv_end(te),
        E::Text(t) => MdEvent::Text(t.to_string()),
        E::Code(t) => MdEvent::InlineCode(t.to_string()),
        E::SoftBreak => MdEvent::SoftBreak,
        E::HardBreak => MdEvent::HardBreak,
        _ => MdEvent::Other,
    }
}

/// Relies on `pulldown_cmark::Parser::new_ext` (with all extensions
/// enabled): the event stream is a pure function of the input text,
/// reduced event by event through the classifiers above.
#[verifier::external_body]
fn parse_markdown_events(content: &str) -> (r: Vec<MdEvent>)
    ensures
        r@ == md_events_of(content@),
{
    let mut r = Vec::new();
    for e in Parser::new_ext(content, Options::all()) {
        r.push(conv_event(e));
    }
    r
}

/// Image provenance of an emitted leaf.
pub enum ImageInfo {
    NotImage,
    /// Alt text, path, and the derived image id (the last path segment).
    Image(Seq<char>, Seq<char>, Seq<char>),
}

/// One tree mutation the builder emits: a section (heading) node or a
/// content chunk (leaf).  Parents are emission indices, `-1` standing for
/// the root.
pub enum Emit {
    /// Parent, title, and the full hierarchy path ending in the title.
    Section(int, Seq<char>, Seq<Seq<char>>),
    /// Parent, text, chunk index, the node's full hierarchy path (whose
    /// last element is the one synthetic segment: the chunk label for
    /// paragraph and code leaves, `table_<n>` or `img_<n>` otherwise),
    /// and image provenance.
    Chunk(int, Seq<char>, nat, Seq<Seq<char>>, ImageInfo),
}

/// The state of the builder between events.
pub struct BuildState {
    pub emits: Seq<Emit>,
    /// Open heading levels: (emission index of the node, its hierarchy).
    pub stack: Seq<(int, Seq<Seq<char>>)>,
    pub cur_parent: int,
    pub cur_hier: Seq<Seq<char>>,
    pub in_code: bool,
    pub in_table: bool,
    pub in_image: bool,
    pub table_header: Option<Seq<Seq<char>>>,
    pub table_rows: Seq<Seq<Seq<char>>>,
    pub cur_row: Seq<Seq<char>>,
    pub code_buf: Seq<char>,
    pub para_buf: Seq<char>,
    pub image_alt: Seq<char>,
    pub image_path: Seq<char>,
    /// A heading whose End has not been seen: its level and title buffer.
    pub pending: Option<(u32, Seq<char>)>,
    pub chunk_index: nat,
}

/// The state before any event.
pub open spec fn init_state() -> BuildState {
    BuildState {
        emits: Seq::empty(),
        stack: seq![(-1int, seq!["Root"@])],
        cur_parent: -1,
        cur_hier: seq!["Root"@],
        in_code: false,
        in_table: false,
        in_image: false,
        table_header: None,
        table_rows: Seq::empty(),
        cur_row: Seq::empty(),
        code_buf: Seq::empty(),
        para_buf: Seq::empty(),
        image_alt: Seq::empty(),
        image_path: Seq::empty(),
        pending: None,
        chunk_index: 0,
    }
}

/// `s` repeated `k` times.
pub open spec fn repeat_chars(s: Seq<char>, k: nat) -> Seq<char>
    decreases k,
{
    if k == 0 {
        Seq::empty()
    } else {
        repeat_chars(s, (k - 1) as nat) + s
    }
}

/// The parts joined with ` | ` between them.
pub open spec fn join_cells(parts: Seq<Seq<char>>) -> Seq<char>
    decreases parts.len(),
{
    if parts.len() == 0 {
        Seq::empty()
    } else if parts.len() == 1 {
        parts[0]
    } else {
        join_cells(parts.drop_last()) + " | "@ + parts.last()
    }
}

/// One markdown table line: `| cells |` and a newline.
pub open spec fn table_line(cells: Seq<Seq<char>>) -> Seq<char> {
    "| "@ + join_cells(cells) + " |\n"@
}

/// The single markdown string a closed table is emitted as: header line,
/// divider line, one line per body row.
pub open spec fn table_markdown(header: Option<Seq<Seq<char>>>, rows: Seq<Seq<Seq<char>>>) -> Seq<
    char,
>
    decreases rows.len(),
{
    if rows.len() > 0 {
        table_markdown(header, rows.drop_last()) + table_line(rows.last())
    } else {
        match header {
            Some(h) => table_line(h) + "| "@ + trim_end_spec(repeat_chars("--- | "@, h.len()))
                + " |\n"@,
            None => Seq::empty(),
        }
    }
}

/// The inline-image markdown `![alt](path)`.
pub open spec fn image_markdown(alt: Seq<char>, path: Seq<char>) -> Seq<char> {
    "!["@ + alt + "]("@ + path + ")"@
}

/// The last `/`-separated segment of a path (the whole path when it has
/// no slash).
pub open spec fn last_segment(path: Seq<char>) -> Seq<char>
    decreases path.len(),
{
    if path.len() == 0 {
        path
    } else if path.last() == '/' {
        Seq::empty()
    } else {
        last_segment(path.drop_last()).push(path.last())
    }
}

/// The `table_<n>` synthetic hierarchy segment.
pub open spec fn table_segment(n: nat) -> Seq<char> {
    "table_"@ + dec_str(n)
}

/// The `img_<n>` synthetic hierarchy segment.
pub open spec fn img_segment(n: nat) -> Seq<char> {
    "img_"@ + dec_str(n)
}

/// The stack truncated to at most `level` open entries.
pub open spec fn truncate_stack(stack: Seq<(int, Seq<Seq<char>>)>, level: u32) -> Seq<
    (int, Seq<Seq<char>>),
> {
    if stack.len() > level {
        stack.take(level as int)
    } else {
        stack
    }
}

/// The parent entry the next node attaches to: the top of the stack, or
/// the root when the stack is empty.
pub open spec fn stack_top(stack: Seq<(int, Seq<Seq<char>>)>) -> (int, Seq<Seq<char>>) {
    if stack.len() > 0 {
        stack.last()
    } else {
        (-1int, seq!["Root"@])
    }
}

/// The transition of the builder on one event.  This mirrors the
/// event-by-event behavior described in the module documentation; text is
/// routed to exactly one sink, chosen by the pending-heading marker and
/// the code/table/image flags.
pub open spec fn step(s: BuildState, e: MdEvent) -> BuildState {
    match e {
        MdEvent::HeadingStart(level) => BuildState {
            stack: truncate_stack(s.stack, level),
            pending: Some((level, Seq::empty())),
            ..s
        },
        MdEvent::CodeBlockStart => BuildState { in_code: true, code_buf: Seq::empty(), ..s },
        MdEvent::TableStart => BuildState {
            in_table: true,
            table_header: None,
            table_rows: Seq::empty(),
            cur_row: Seq::empty(),
            ..s
        },
        MdEvent::ImageStart(title, url) => BuildState {
            in_image: true,
            image_alt: title@,
            image_path: url@,
            ..s
        },
        MdEvent::HeadingEnd => match s.pending {
            None => s,
            Some((level, text)) => {
                let title = trim_spec(text);
                if title.len() == 0 {
                    BuildState { pending: None, ..s }
                } else {
                    let stack1 = truncate_stack(s.stack, level);
                    let top = stack_top(stack1);
                    let new_hier = top.1.push(title);
                    let idx = s.emits.len() as int;
                    BuildState {
                        emits: s.emits.push(Emit::Section(top.0, title, new_hier)),
                        stack: stack1.push((idx, new_hier)),
                        cur_parent: idx,
                        cur_hier: new_hier,
                        pending: None,
                        ..s
                    }
                }
            },
        },
        MdEvent::ParagraphEnd => {
            let text = trim_spec(s.para_buf);
            if text.len() > 0 {
                BuildState {
                    emits: s.emits.push(
                        Emit::Chunk(
                            s.cur_parent,
                            text,
                            s.chunk_index,
                            s.cur_hier.push(
                                chunk_label(s.chunk_index, (byte_len(text) as usize) as nat),
                            ),
                            ImageInfo::NotImage,
                        ),
                    ),
                    chunk_index: s.chunk_index + 1,
                    para_buf: Seq::empty(),
                    ..s
                }
            } else {
                BuildState { para_buf: Seq::empty(), ..s }
            }
        },
        MdEvent::CodeBlockEnd => {
            if s.in_code {
                let text = trim_end_spec(s.code_buf);
                if text.len() > 0 {
                    BuildState {
                        emits: s.emits.push(
                            Emit::Chunk(
                                s.cur_parent,
                                text,
                                s.chunk_index,
                                s.cur_hier.push(
                                    chunk_label(s.chunk_index, (byte_len(text) as usize) as nat),
                                ),
                                ImageInfo::NotImage,
                            ),
                        ),
                        chunk_index: s.chunk_index + 1,
                        in_code: false,
                        code_buf: Seq::empty(),
                        ..s
                    }
                } else {
                    BuildState { in_code: false, code_buf: Seq::empty(), ..s }
                }
            } else {
                s
            }
        },
        MdEvent::TableHeadEnd => {
            if s.in_table {
                BuildState { table_header: Some(s.cur_row), cur_row: Seq::empty(), ..s }
            } else {
                s
            }
        },
        MdEvent::TableRowEnd => {
            if s.in_table && s.table_header is Some {
                BuildState { table_rows: s.table_rows.push(s.cur_row), cur_row: Seq::empty(), ..s }
            } else {
                s
            }
        },
        MdEvent::TableEnd => {
            if s.in_table {
                let markdown = table_markdown(s.table_header, s.table_rows);
                if trim_spec(markdown).len() > 0 {
                    BuildState {
                        emits: s.emits.push(
                            Emit::Chunk(
                                s.cur_parent,
                                markdown,
                                s.chunk_index,
                                s.cur_hier.push(table_segment(s.chunk_index)),
                                ImageInfo::NotImage,
                            ),
                        ),
                        chunk_index: s.chunk_index + 1,
                        table_header: None,
                        table_rows: Seq::empty(),
                        in_table: false,
                        ..s
                    }
                } else {
                    BuildState {
                        table_header: None,
                        table_rows: Seq::empty(),
                        in_table: false,
                        ..s
                    }
                }
            } else {
                s
            }
        },
        MdEvent::ImageEnd => {
            if s.in_image {
                let markdown = image_markdown(s.image_alt, s.image_path);
                BuildState {
                    emits: s.emits.push(
                        Emit::Chunk(
                            s.cur_parent,
                            markdown,
                            s.chunk_index,
                            s.cur_hier.push(img_segment(s.chunk_index)),
                            ImageInfo::Image(
                                s.image_alt,
                                s.image_path,
                                last_segment(s.image_path),
                            ),
                        ),
                    ),
                    chunk_index: s.chunk_index + 1,
                    in_image: false,
                    image_alt: Seq::empty(),
                    image_path: Seq::empty(),
                    para_buf: Seq::empty(),
                    ..s
                }
            } else {
                s
            }
        },
        MdEvent::Text(t) => match s.pending {
            Some((level, text)) => BuildState { pending: Some((level, text + t@)), ..s },
            None => {
                if s.in_code {
                    BuildState { code_buf: s.code_buf + t@ + "\n"@, ..s }
                } else if s.in_table {
                    BuildState { cur_row: s.cur_row.push(t@), ..s }
                } else if s.in_image {
                    BuildState { image_alt: s.image_alt + t@, ..s }
                } else if trim_spec(t@).len() > 0 {
                    BuildState { para_buf: s.para_buf + t@ + " "@, ..s }
                } else {
                    s
                }
            },
        },
        MdEvent::InlineCode(t) => {
            if s.pending is None && !s.in_code {
                BuildState { para_buf: s.para_buf + "`"@ + t@ + "` "@, ..s }
            } else {
                s
            }
        },
        MdEvent::SoftBreak | MdEvent::HardBreak => {
            if s.para_buf.len() > 0 && s.pending is None && !s.in_table {
                BuildState { para_buf: s.para_buf + " "@, ..s }
            } else {
                s
            }
        },
        MdEvent::Other => s,
    }
}

/// The state after consuming a whole event sequence.
pub open spec fn run_events(events: Seq<MdEvent>) -> BuildState
    decreases events.len(),
{
    if events.len() == 0 {
        init_state()
    } else {
        step(run_events(events.drop_last()), events.last())
    }
}

/// End of input: a non-empty unflushed paragraph buffer becomes a final
/// leaf.
pub open spec fn finalize(s: BuildState) -> Seq<Emit> {
    let text = trim_spec(s.para_buf);
    if text.len() > 0 {
        s.emits.push(
            Emit::Chunk(
                s.cur_parent,
                text,
                s.chunk_index,
                s.cur_hier.push(chunk_label(s.chunk_index, (byte_len(text) as usize) as nat)),
                ImageInfo::NotImage,
            ),
        )
    } else {
        s.emits
    }
}

/// The emission list the builder produces on this event stream.
pub open spec fn spec_build(events: Seq<MdEvent>) -> Seq<Emit> {
    finalize(run_events(events))
}

/// No event ever removes an emission.
proof fn lemma_step_emits_grow(st: BuildState, e: MdEvent)
    ensures
        step(st, e).emits.len() >= st.emits.len(),
{
}

/// The final emission list is at least as long as at any prefix of the
/// run.
proof fn lemma_build_extends(evs: Seq<MdEvent>, i: int)
    requires
        0 <= i <= evs.len(),
    ensures
        spec_build(evs).len() >= run_events(evs.take(i)).emits.len(),
    decreases evs.len() - i,
{
    if i == evs.len() {
        assert(evs.take(i) =~= evs);
    } else {
        assert(evs.take(i + 1).drop_last() =~= evs.take(i));
        assert(evs.take(i + 1).last() == evs[i]);
        lemma_step_emits_grow(run_events(evs.take(i)), evs[i]);
        lemma_build_extends(evs, i + 1);
    }
}

/// The view of an optional string.
pub open spec fn opt_view(o: Option<String>) -> Option<Seq<char>> {
    match o {
        Some(s) => Some(s@),
        None => None,
    }
}

/// The node at arena index `i` realizes emission `e`: right variant,
/// right payload and metadata, and its Parent link names the node that
/// realized emission `p` (the root for `p == -1`).
pub open spec fn matches_emit(
    t: &NodeTree,
    i: int,
    e: Emit,
    doc: Seq<char>,
    file: Option<Seq<char>>,
) -> bool {
    let n = t.nodes_seq()[i];
    match e {
        Emit::Section(p, title, hier) => {
            &&& n matches Node::Intermediate(x) && {
                &&& x.title matches Some(s) && s@ == title
                &&& x.metadata.hierarchy.deep_view() == hier
                &&& x.metadata.document_id@ == doc
                &&& x.metadata.node_type == NodeType::Intermediate
                &&& x.metadata.chunk_size is None
                &&& x.metadata.file_name is None
                &&& x.metadata.image_alt is None
                &&& x.metadata.image_path is None
                &&& x.metadata.image_id is None
            }
            &&& -1 <= p && p + 1 < i
            &&& n.spec_parent() == Some(t.nodes_seq()[p + 1].spec_id())
        },
        Emit::Chunk(p, text, ci, hier_full, img) => {
            &&& n matches Node::Leaf(x) && {
                &&& x.text@ == text
                &&& x.embedding is None
                &&& x.metadata.hierarchy.deep_view() == hier_full
                &&& x.metadata.document_id@ == doc
                &&& x.metadata.node_type == NodeType::Leaf
                &&& x.metadata.chunk_size == Some(byte_len(text) as usize)
                &&& opt_view(x.metadata.file_name) == file
                &&& match img {
                    ImageInfo::NotImage => {
                        &&& x.metadata.image_alt is None
                        &&& x.metadata.image_path is None
                        &&& x.metadata.image_id is None
                    },
                    ImageInfo::Image(alt, path, iid) => {
                        &&& (if alt.len() == 0 {
                            x.metadata.image_alt is None
                        } else {
                            opt_view(x.metadata.image_alt) == Some(alt)
                        })
                        &&& opt_view(x.metadata.image_path) == Some(path)
                        &&& opt_view(x.metadata.image_id) == Some(iid)
                    },
                }
            }
            &&& -1 <= p && p + 1 < i
            &&& n.spec_parent() == Some(t.nodes_seq()[p + 1].spec_id())
        },
    }
}

/// The tree realizes the emission list: one root carrying the document
/// id and file name, and one further node per emission, in order.
pub open spec fn tree_matches_emits(
    t: &NodeTree,
    emits: Seq<Emit>,
    doc: Seq<char>,
    file: Option<Seq<char>>,
) -> bool {
    &&& t.nodes_seq().len() == emits.len() + 1
    &&& t.nodes_seq()[0] matches Node::Root(x) && {
        &&& x.document_id@ == doc
        &&& x.metadata.document_id@ == doc
        &&& x.metadata.hierarchy.deep_view() == seq!["Root"@]
        &&& x.metadata.node_type == NodeType::Root
        &&& x.metadata.chunk_size is None
        &&& opt_view(x.metadata.file_name) == file
        &&& x.metadata.image_alt is None
        &&& x.metadata.image_path is None
        &&& x.metadata.image_id is None
    }
    &&& forall|i: int|
        1 <= i < t.nodes_seq().len() ==> #[trigger] matches_emit(t, i, emits[i - 1], doc, file)
}

/// The freshly built `node` realizes emission `e` once appended at the
/// end of `t`'s arena.
pub open spec fn node_realizes_emit(
    t: &NodeTree,
    node: Node,
    e: Emit,
    doc: Seq<char>,
    file: Option<Seq<char>>,
) -> bool {
    match e {
        Emit::Section(p, title, hier) => {
            &&& node matches Node::Intermediate(x) && {
                &&& x.title matches Some(s) && s@ == title
                &&& x.metadata.hierarchy.deep_view() == hier
                &&& x.metadata.document_id@ == doc
                &&& x.metadata.node_type == NodeType::Intermediate
                &&& x.metadata.chunk_size is None
                &&& x.metadata.file_name is None
                &&& x.metadata.image_alt is None
                &&& x.metadata.image_path is None
                &&& x.metadata.image_id is None
            }
            &&& -1 <= p && p + 1 < t.nodes_seq().len()
            &&& node.spec_parent() == Some(t.nodes_seq()[p + 1].spec_id())
        },
        Emit::Chunk(p, text, ci, hier_full, img) => {
            &&& node matches Node::Leaf(x) && {
                &&& x.text@ == text
                &&& x.embedding is None
                &&& x.metadata.hierarchy.deep_view() == hier_full
                &&& x.metadata.document_id@ == doc
                &&& x.metadata.node_type == NodeType::Leaf
                &&& x.metadata.chunk_size == Some(byte_len(text) as usize)
                &&& opt_view(x.metadata.file_name) == file
                &&& match img {
                    ImageInfo::NotImage => {
                        &&& x.metadata.image_alt is None
                        &&& x.metadata.image_path is None
                        &&& x.metadata.image_id is None
                    },
                    ImageInfo::Image(alt, path, iid) => {
                        &&& (if alt.len() == 0 {
                            x.metadata.image_alt is None
                        } else {
                            opt_view(x.metadata.image_alt) == Some(alt)
                        })
                        &&& opt_view(x.metadata.image_path) == Some(path)
                        &&& opt_view(x.metadata.image_id) == Some(iid)
                    },
                }
            }
            &&& -1 <= p && p + 1 < t.nodes_seq().len()
            &&& node.spec_parent() == Some(t.nodes_seq()[p + 1].spec_id())
        },
    }
}

/// Appending a node that realizes `e` extends the realized emission
/// list by `e`.
proof fn lemma_add_extends_matching(
    pre: NodeTree,
    post: NodeTree,
    node: Node,
    emits: Seq<Emit>,
    e: Emit,
    doc: Seq<char>,
    file: Option<Seq<char>>,
)
    requires
        pre.wf(),
        tree_matches_emits(&pre, emits, doc, file),
        pre.spec_add_shape(&post, node),
        node_realizes_emit(&pre, node, e, doc, file),
        post.nodes_seq().len() == pre.nodes_seq().len() + 1,
    ensures
        tree_matches_emits(&post, emits.push(e), doc, file),
{
    let pres = pre.nodes_seq();
    let posts = post.nodes_seq();
    let n = pres.len() as int;
    let p = node.spec_parent()->0;
    let pi = pre.index_of(p);
    let c = pres[pi].spec_children();
    assert(0 <= pi < n && pres[pi].spec_id() == p);
    // payload-level preservation at every old index
    assert forall|j: int| 0 <= j < n implies same_payload(pres[j], #[trigger] posts[j])
        && posts[j].spec_parent() == pres[j].spec_parent() by {
        if j == pi {
        } else if c.len() > 0 && j == pre.index_of(c.last()) {
        } else {
            assert(posts[j] == pres[j]);
            lemma_same_payload_refl(pres[j]);
        }
    }
    assert(same_payload(node, posts[n]) && posts[n].spec_parent() == node.spec_parent()) by {
        if c.len() == 0 {
            assert(posts[n] == node);
            lemma_same_payload_refl(node);
        }
    }
    assert forall|i: int| 1 <= i < posts.len() implies #[trigger] matches_emit(
        &post,
        i,
        emits.push(e)[i - 1],
        doc,
        file,
    ) by {
        if i < n {
            assert(matches_emit(&pre, i, emits[i - 1], doc, file));
            lemma_same_payload_emit(&pre, &post, i, emits[i - 1], doc, file);
        } else {
            lemma_same_payload_emit_new(&pre, &post, node, e, doc, file);
        }
    }
    assert(posts[0] matches Node::Root(_)) by {
        lemma_same_payload_variant(pres[0], posts[0]);
    }
}

/// `same_payload` is reflexive.
proof fn lemma_same_payload_refl(a: Node)
    ensures
        same_payload(a, a),
{
}

/// `same_payload` keeps the variant.
proof fn lemma_same_payload_variant(a: Node, b: Node)
    requires
        same_payload(a, b),
    ensures
        (a matches Node::Root(_)) <==> (b matches Node::Root(_)),
{
}

/// A node that realized an emission still realizes it after payload-
/// preserving, parent-preserving updates with stable ids.
proof fn lemma_same_payload_emit(
    pre: &NodeTree,
    post: &NodeTree,
    i: int,
    e: Emit,
    doc: Seq<char>,
    file: Option<Seq<char>>,
)
    requires
        1 <= i < pre.nodes_seq().len(),
        pre.nodes_seq().len() <= post.nodes_seq().len(),
        matches_emit(pre, i, e, doc, file),
        same_payload(pre.nodes_seq()[i], post.nodes_seq()[i]),
        post.nodes_seq()[i].spec_parent() == pre.nodes_seq()[i].spec_parent(),
        forall|j: int|
            0 <= j < pre.nodes_seq().len() ==> same_payload(
                pre.nodes_seq()[j],
                #[trigger] post.nodes_seq()[j],
            ),
    ensures
        matches_emit(post, i, e, doc, file),
{
    match e {
        Emit::Section(p, title, hier) => {
            assert(same_payload(pre.nodes_seq()[p + 1], post.nodes_seq()[p + 1]));
        },
        Emit::Chunk(p, text, ci, hier_full, img) => {
            assert(same_payload(pre.nodes_seq()[p + 1], post.nodes_seq()[p + 1]));
        },
    }
}

/// Join table cells with ` | ` between them.
fn render_join(cells: &Vec<String>) -> (r: String)
    ensures
        r@ == join_cells(cells.deep_view()),
{
    let mut r = String::new();
    let mut i: usize = 0;
    while i < cells.len()
        invariant
            0 <= i <= cells@.len(),
            cells.deep_view().len() == cells@.len(),
            forall|j: int| 0 <= j < cells@.len() ==> #[trigger] cells.deep_view()[j] == cells@[j]@,
            r@ =~= join_cells(cells.deep_view().take(i as int)),
        decreases cells@.len() - i,
    {
        if i > 0 {
            r.append(" | ");
        }
        r.append(cells[i].as_str());
        proof {
            let d = cells.deep_view();
            assert(d.take(i + 1).drop_last() =~= d.take(i as int));
            assert(d.take(i + 1).last() == d[i as int]);
            if i == 0 {
                assert(join_cells(d.take(1)) == d[0]);
            }
            assert(r@ =~= join_cells(d.take(i + 1)));
        }
        i += 1;
    }
    proof {
        assert(cells.deep_view().take(cells.deep_view().len() as int) =~= cells.deep_view());
    }
    r
}

/// Render one `| cells |` table line with its newline.
fn render_table_line(cells: &Vec<String>) -> (r: String)
    ensures
        r@ == table_line(cells.deep_view()),
{
    let mut r: String = "| ".to_owned();
    r.append(render_join(cells).as_str());
    r.append(" |\n");
    r
}

/// Render the divider line under a table header of `k` columns.
fn render_divider(k: usize) -> (r: String)
    ensures
        r@ == "| "@ + trim_end_spec(repeat_chars("--- | "@, k as nat)) + " |\n"@,
{
    let mut rep = String::new();
    let mut i: usize = 0;
    while i < k
        invariant
            0 <= i <= k,
            rep@ =~= repeat_chars("--- | "@, i as nat),
        decreases k - i,
    {
        rep.append("--- | ");
        i += 1;
    }
    let trimmed = chars_to_string(&trim_end_chars(&str_to_chars(rep.as_str())));
    let mut r: String = "| ".to_owned();
    r.append(trimmed.as_str());
    r.append(" |\n");
    r
}

/// The deep view of an optional row.
pub open spec fn opt_rows_view(o: Option<Vec<String>>) -> Option<Seq<Seq<char>>> {
    match o {
        Some(v) => Some(v.deep_view()),
        None => None,
    }
}

/// Render a whole table as one markdown string.
fn render_table(header: &Option<Vec<String>>, rows: &Vec<Vec<String>>) -> (r: String)
    ensures
        r@ == table_markdown(opt_rows_view(*header), rows.deep_view()),
{
    let ghost hv = opt_rows_view(*header);
    let mut r: String;
    match header {
        Some(h) => {
            r = render_table_line(h);
            r.append(render_divider(h.len()).as_str());
            proof {
                assert(h.deep_view().len() == h@.len());
            }
        },
        None => {
            r = String::new();
        },
    }
    proof {
        assert(rows.deep_view().take(0) =~= Seq::<Seq<Seq<char>>>::empty());
        assert(r@ =~= table_markdown(hv, rows.deep_view().take(0)));
    }
    let mut i: usize = 0;
    while i < rows.len()
        invariant
            0 <= i <= rows@.len(),
            rows.deep_view().len() == rows@.len(),
            forall|j: int| 0 <= j < rows@.len() ==> #[trigger] rows.deep_view()[j]
                == rows@[j].deep_view(),
            r@ =~= table_markdown(hv, rows.deep_view().take(i as int)),
        decreases rows@.len() - i,
    {
        r.append(render_table_line(&rows[i]).as_str());
        proof {
            let d = rows.deep_view();
            assert(d.take(i + 1).drop_last() =~= d.take(i as int));
            assert(d.take(i + 1).last() == d[i as int]);
            assert(r@ =~= table_markdown(hv, d.take(i + 1)));
        }
        i += 1;
    }
    proof {
        assert(rows.deep_view().take(rows.deep_view().len() as int) =~= rows.deep_view());
    }
    r
}

/// Render the `![alt](path)` image markdown.
fn render_image(alt: &String, path: &String) -> (r: String)
    ensures
        r@ == image_markdown(alt@, path@),
{
    let mut r: String = "![".to_owned();
    r.append(alt.as_str());
    r.append("](");
    r.append(path.as_str());
    r.append(")");
    r
}

proof fn lemma_last_segment(s: Seq<char>, j: int)
    requires
        0 <= j <= s.len(),
        forall|i: int| j <= i < s.len() ==> s[i] != '/',
        j > 0 ==> s[j - 1] == '/',
    ensures
        last_segment(s) =~= s.subrange(j, s.len() as int),
    decreases s.len(),
{
    if s.len() == 0 {
    } else if s.last() == '/' {
        assert(j == s.len());
    } else {
        assert(j < s.len());
        let t = s.drop_last();
        assert(t =~= s.subrange(0, s.len() - 1));
        lemma_last_segment(t, j);
        assert(last_segment(s) =~= t.subrange(j, t.len() as int).push(s.last()));
        assert(t.subrange(j, t.len() as int).push(s.last()) =~= s.subrange(j, s.len() as int));
    }
}

/// The final `/`-separated segment of a path string.
fn render_last_segment(path: &String) -> (r: String)
    ensures
        r@ == last_segment(path@),
{
    let chars = str_to_chars(path.as_str());
    let n = chars.len();
    let mut j: usize = n;
    while j > 0 && chars[j - 1] != '/'
        invariant
            0 <= j <= n,
            n == chars@.len(),
            forall|i: int| j <= i < n ==> chars@[i] != '/',
        decreases j,
    {
        j -= 1;
    }
    let mut seg: Vec<char> = Vec::new();
    let mut i: usize = j;
    while i < n
        invariant
            j <= i <= n,
            n == chars@.len(),
            seg@ =~= chars@.subrange(j as int, i as int),
        decreases n - i,
    {
        seg.push(chars[i]);
        assert(seg@ =~= chars@.subrange(j as int, i + 1));
        i += 1;
    }
    proof {
        lemma_last_segment(chars@, j as int);
    }
    chars_to_string(&seg)
}

/// Render `prefix<n>` (used for the `table_` and `img_` segments).
fn render_indexed(prefix: &str, n: u64) -> (r: String)
    ensures
        r@ == prefix@ + dec_str(n as nat),
{
    let mut r: String = prefix.to_owned();
    r.append(chars_to_string(&dec_chars(n)).as_str());
    r
}

/// The appended node realizes its emission in the extended tree.
proof fn lemma_same_payload_emit_new(
    pre: &NodeTree,
    post: &NodeTree,
    node: Node,
    e: Emit,
    doc: Seq<char>,
    file: Option<Seq<char>>,
)
    requires
        node_realizes_emit(pre, node, e, doc, file),
        post.nodes_seq().len() == pre.nodes_seq().len() + 1,
        same_payload(node, post.nodes_seq()[pre.nodes_seq().len() as int]),
        post.nodes_seq()[pre.nodes_seq().len() as int].spec_parent() == node.spec_parent(),
        forall|j: int|
            0 <= j < pre.nodes_seq().len() ==> same_payload(
                pre.nodes_seq()[j],
                #[trigger] post.nodes_seq()[j],
            ),
    ensures
        matches_emit(post, pre.nodes_seq().len() as int, e, doc, file),
{
    let n = pre.nodes_seq().len() as int;
    match e {
        Emit::Section(p, title, hier) => {
            assert(same_payload(pre.nodes_seq()[p + 1], post.nodes_seq()[p + 1]));
        },
        Emit::Chunk(p, text, ci, hier_full, img) => {
            assert(same_payload(pre.nodes_seq()[p + 1], post.nodes_seq()[p + 1]));
        },
    }
}

/// A stack or context entry corresponds to a builder-state entry: same
/// hierarchy, and the held id is the id of the node that realized
/// emission `sp` (the root for `-1`).
pub open spec fn entry_ok(
    t: &NodeTree,
    id: NodeId,
    hier: Seq<Seq<char>>,
    sp: int,
    sh: Seq<Seq<char>>,
) -> bool {
    &&& hier == sh
    &&& -1 <= sp
    &&& sp + 1 < t.nodes_seq().len()
    &&& id == t.nodes_seq()[sp + 1].spec_id()
}

/// The reshaping of `add_node` keeps every existing node's id in place.
proof fn lemma_add_preserves_ids(pre: NodeTree, post: NodeTree, node: Node)
    requires
        pre.wf(),
        pre.spec_add_shape(&post, node),
    ensures
        post.nodes_seq().len() == pre.nodes_seq().len() + 1,
        forall|j: int|
            0 <= j < pre.nodes_seq().len() ==> (#[trigger] post.nodes_seq()[j]).spec_id()
                == pre.nodes_seq()[j].spec_id(),
        post.nodes_seq()[pre.nodes_seq().len() as int].spec_id() == node.spec_id(),
{
    let p = node.spec_parent()->0;
    let pi = pre.index_of(p);
    let c = pre.nodes_seq()[pi].spec_children();
    assert forall|j: int| 0 <= j < pre.nodes_seq().len() implies
        (#[trigger] post.nodes_seq()[j]).spec_id() == pre.nodes_seq()[j].spec_id() by {
        if j == pi {
        } else if c.len() > 0 && j == pre.index_of(c.last()) {
        } else {
            assert(post.nodes_seq()[j] == pre.nodes_seq()[j]);
        }
    }
}

/// Insert a freshly built node that realizes emission `e`; on success the
/// tree realizes the extended emission list.  The only possible failure
/// is a collision of the node's randomly generated id.
fn push_emit_node(
    tree: &mut NodeTree,
    node: Node,
    Ghost(e): Ghost<Emit>,
    Ghost(doc): Ghost<Seq<char>>,
    Ghost(file): Ghost<Option<Seq<char>>>,
    Ghost(emits): Ghost<Seq<Emit>>,
) -> (r: Result<(), TreeError>)
    requires
        old(tree).wf(),
        tree_matches_emits(&*old(tree), emits, doc, file),
        node_realizes_emit(&*old(tree), node, e, doc, file),
        !(node matches Node::Root(_)),
        node.spec_children() =~= Seq::<NodeId>::empty(),
        node.spec_prev() is None,
        node.spec_next() is None,
    ensures
        final(tree).wf(),
        final(tree).root_id_spec() == old(tree).root_id_spec(),
        match r {
            Ok(_) => {
                &&& tree_matches_emits(&*final(tree), emits.push(e), doc, file)
                &&& final(tree).nodes_seq().len() == old(tree).nodes_seq().len() + 1
                &&& forall|j: int|
                    0 <= j < old(tree).nodes_seq().len()
                        ==> (#[trigger] final(tree).nodes_seq()[j]).spec_id()
                        == old(tree).nodes_seq()[j].spec_id()
                &&& final(tree).nodes_seq()[old(tree).nodes_seq().len() as int].spec_id()
                    == node.spec_id()
            },
            Err(err) => err == TreeError::DuplicateId && *final(tree) == *old(tree),
        },
{
    let ghost pre = *tree;
    proof {
        let p = node.spec_parent()->0;
        let pi = pre.index_of(p);
    }
    match tree.add_node(node) {
        Ok(()) => {
            proof {
                lemma_add_preserves_ids(pre, *tree, node);
                lemma_add_extends_matching(pre, *tree, node, emits, e, doc, file);
            }
            Ok(())
        },
        Err(err) => {
            proof {
                assert(node.spec_parent() is Some);
                assert(pre.contains_id(node.spec_parent()->0));
            }
            Err(err)
        },
    }
}

/// The nodes at one arena index of two trees agree on everything except
/// the randomly generated ids: same variant, same title/text/metadata
/// (compared as views), and parents at the same arena index.
pub open spec fn iso_node_at(t1: &NodeTree, t2: &NodeTree, i: int) -> bool {
    let a = t1.nodes_seq()[i];
    let b = t2.nodes_seq()[i];
    &&& match (a, b) {
        (Node::Root(x), Node::Root(y)) => x.document_id@ == y.document_id@,
        (Node::Intermediate(x), Node::Intermediate(y)) => opt_view(x.title) == opt_view(y.title),
        (Node::Leaf(x), Node::Leaf(y)) => x.text@ == y.text@ && x.embedding == y.embedding,
        _ => false,
    }
    &&& a.spec_meta().document_id@ == b.spec_meta().document_id@
    &&& a.spec_meta().hierarchy.deep_view() == b.spec_meta().hierarchy.deep_view()
    &&& a.spec_meta().node_type == b.spec_meta().node_type
    &&& a.spec_meta().chunk_size == b.spec_meta().chunk_size
    &&& opt_view(a.spec_meta().file_name) == opt_view(b.spec_meta().file_name)
    &&& opt_view(a.spec_meta().image_alt) == opt_view(b.spec_meta().image_alt)
    &&& opt_view(a.spec_meta().image_path) == opt_view(b.spec_meta().image_path)
    &&& opt_view(a.spec_meta().image_id) == opt_view(b.spec_meta().image_id)
    &&& match (a.spec_parent(), b.spec_parent()) {
        (None, None) => true,
        (Some(p1), Some(p2)) => t1.index_of(p1) == t2.index_of(p2),
        _ => false,
    }
}

/// The two trees are isomorphic: equally many nodes, and index by index
/// the same structure, metadata and text, ids aside.
pub open spec fn iso_trees(t1: &NodeTree, t2: &NodeTree) -> bool {
    &&& t1.nodes_seq().len() == t2.nodes_seq().len()
    &&& forall|i: int| 0 <= i < t1.nodes_seq().len() ==> #[trigger] iso_node_at(t1, t2, i)
}

/// Re-running the builder on identical input is idempotent: any two
/// well-formed trees that realize the same emission list — as two runs of
/// `parse` on the same document do — are isomorphic in structure,
/// metadata and text; only the randomly generated ids may differ.
pub proof fn lemma_build_deterministic(
    t1: &NodeTree,
    t2: &NodeTree,
    emits: Seq<Emit>,
    doc: Seq<char>,
    file: Option<Seq<char>>,
)
    requires
        t1.wf(),
        t2.wf(),
        tree_matches_emits(t1, emits, doc, file),
        tree_matches_emits(t2, emits, doc, file),
    ensures
        iso_trees(t1, t2),
{
    assert forall|i: int| 0 <= i < t1.nodes_seq().len() implies #[trigger] iso_node_at(
        t1,
        t2,
        i,
    ) by {
        if i >= 1 {
            assert(matches_emit(t1, i, emits[i - 1], doc, file));
            assert(matches_emit(t2, i, emits[i - 1], doc, file));
            match emits[i - 1] {
                Emit::Section(p, title, hier) => {
                    t1.lemma_index_of(p + 1);
                    t2.lemma_index_of(p + 1);
                },
                Emit::Chunk(p, text, ci, hier_full, img) => {
                    t1.lemma_index_of(p + 1);
                    t2.lemma_index_of(p + 1);
                },
            }
        }
    }
}

/// A context entry stays valid when the arena grows at the end with ids
/// kept in place.
proof fn lemma_entry_ok_extend(
    pre: NodeTree,
    post: NodeTree,
    id: NodeId,
    hier: Seq<Seq<char>>,
    sp: int,
    sh: Seq<Seq<char>>,
)
    requires
        entry_ok(&pre, id, hier, sp, sh),
        post.nodes_seq().len() == pre.nodes_seq().len() + 1,
        forall|j: int|
            0 <= j < pre.nodes_seq().len() ==> (#[trigger] post.nodes_seq()[j]).spec_id()
                == pre.nodes_seq()[j].spec_id(),
    ensures
        entry_ok(&post, id, hier, sp, sh),
{
}

/// All held context entries (stack and current parent) stay valid when
/// the arena grows at the end with ids kept in place.
proof fn restore_entries(
    pre: NodeTree,
    post: NodeTree,
    stack: Seq<(NodeId, Vec<String>)>,
    sstack: Seq<(int, Seq<Seq<char>>)>,
    cur: NodeId,
    cur_hier: Seq<Seq<char>>,
    scur: int,
    scur_hier: Seq<Seq<char>>,
)
    requires
        post.nodes_seq().len() == pre.nodes_seq().len() + 1,
        forall|j: int|
            0 <= j < pre.nodes_seq().len() ==> (#[trigger] post.nodes_seq()[j]).spec_id()
                == pre.nodes_seq()[j].spec_id(),
        stack.len() == sstack.len(),
        forall|k: int|
            0 <= k < stack.len() ==> entry_ok(
                &pre,
                (#[trigger] stack[k]).0,
                stack[k].1.deep_view(),
                sstack[k].0,
                sstack[k].1,
            ),
        entry_ok(&pre, cur, cur_hier, scur, scur_hier),
    ensures
        forall|k: int|
            0 <= k < stack.len() ==> entry_ok(
                &post,
                (#[trigger] stack[k]).0,
                stack[k].1.deep_view(),
                sstack[k].0,
                sstack[k].1,
            ),
        entry_ok(&post, cur, cur_hier, scur, scur_hier),
{
    assert forall|k: int| 0 <= k < stack.len() implies entry_ok(
        &post,
        (#[trigger] stack[k]).0,
        stack[k].1.deep_view(),
        sstack[k].0,
        sstack[k].1,
    ) by {
        assert(entry_ok(&pre, stack[k].0, stack[k].1.deep_view(), sstack[k].0, sstack[k].1));
        lemma_entry_ok_extend(pre, post, stack[k].0, stack[k].1.deep_view(), sstack[k].0, sstack[k].1);
    }
    lemma_entry_ok_extend(pre, post, cur, cur_hier, scur, scur_hier);
}

/// The full hierarchy of a leaf: the context path plus its one
/// synthetic segment — the chunk label, or the given table/image
/// segment.
pub open spec fn leaf_hier(
    base: Seq<Seq<char>>,
    text: Seq<char>,
    ci: nat,
    segment: Option<String>,
) -> Seq<Seq<char>> {
    match segment {
        None => base.push(chunk_label(ci, (byte_len(text) as usize) as nat)),
        Some(s) => base.push(s@),
    }
}

/// Create and insert one content leaf realizing a chunk emission.
fn emit_chunk_leaf(
    tree: &mut NodeTree,
    parent: NodeId,
    hier: Vec<String>,
    text: String,
    chunk_index: usize,
    segment: Option<String>,
    image_alt: Option<String>,
    image_path: Option<String>,
    image_id: Option<String>,
    document_id: &String,
    file_name: &Option<String>,
    Ghost(sp): Ghost<int>,
    Ghost(emits): Ghost<Seq<Emit>>,
    Ghost(doc): Ghost<Seq<char>>,
    Ghost(file): Ghost<Option<Seq<char>>>,
    Ghost(img): Ghost<ImageInfo>,
) -> (r: Result<(), TreeError>)
    requires
        old(tree).wf(),
        tree_matches_emits(&*old(tree), emits, doc, file),
        -1 <= sp && sp + 1 < old(tree).nodes_seq().len(),
        parent == old(tree).nodes_seq()[sp + 1].spec_id(),
        document_id@ == doc,
        opt_view(*file_name) == file,
        match img {
            ImageInfo::NotImage => image_alt is None && image_path is None && image_id is None,
            ImageInfo::Image(alt, path, iid) => {
                &&& (if alt.len() == 0 {
                    image_alt is None
                } else {
                    opt_view(image_alt) == Some(alt)
                })
                &&& opt_view(image_path) == Some(path)
                &&& opt_view(image_id) == Some(iid)
            },
        },
    ensures
        final(tree).wf(),
        final(tree).root_id_spec() == old(tree).root_id_spec(),
        match r {
            Ok(_) => {
                &&& tree_matches_emits(
                    &*final(tree),
                    emits.push(
                        Emit::Chunk(
                            sp,
                            text@,
                            chunk_index as nat,
                            leaf_hier(hier.deep_view(), text@, chunk_index as nat, segment),
                            img,
                        ),
                    ),
                    doc,
                    file,
                )
                &&& final(tree).nodes_seq().len() == old(tree).nodes_seq().len() + 1
                &&& forall|j: int|
                    0 <= j < old(tree).nodes_seq().len()
                        ==> (#[trigger] final(tree).nodes_seq()[j]).spec_id()
                        == old(tree).nodes_seq()[j].spec_id()
            },
            Err(err) => err == TreeError::DuplicateId && *final(tree) == *old(tree),
        },
{
    let size = text.as_str().len();
    let ghost tv = text@;
    let ghost hv = leaf_hier(hier.deep_view(), text@, chunk_index as nat, segment);
    let node = match segment {
        None => Node::new_leaf(
            parent,
            text,
            size,
            chunk_index,
            hier,
            document_id.clone(),
            image_alt,
            image_path,
            image_id,
            clone_opt_string(file_name),
        ),
        Some(seg) => Node::new_leaf_with_segment(
            parent,
            text,
            size,
            seg,
            hier,
            document_id.clone(),
            image_alt,
            image_path,
            image_id,
            clone_opt_string(file_name),
        ),
    };
    let ghost e = Emit::Chunk(sp, tv, chunk_index as nat, hv, img);
    proof {
        assert(node_realizes_emit(&*tree, node, e, doc, file));
    }
    push_emit_node(tree, node, Ghost(e), Ghost(doc), Ghost(file), Ghost(emits))
}

/// Create and insert one heading node realizing a section emission,
/// returning its fresh id.
fn emit_section_node(
    tree: &mut NodeTree,
    parent: NodeId,
    title: String,
    hier: Vec<String>,
    document_id: &String,
    Ghost(sp): Ghost<int>,
    Ghost(emits): Ghost<Seq<Emit>>,
    Ghost(doc): Ghost<Seq<char>>,
    Ghost(file): Ghost<Option<Seq<char>>>,
) -> (r: Result<NodeId, TreeError>)
    requires
        old(tree).wf(),
        tree_matches_emits(&*old(tree), emits, doc, file),
        -1 <= sp && sp + 1 < old(tree).nodes_seq().len(),
        parent == old(tree).nodes_seq()[sp + 1].spec_id(),
        document_id@ == doc,
    ensures
        final(tree).wf(),
        final(tree).root_id_spec() == old(tree).root_id_spec(),
        match r {
            Ok(nid) => {
                &&& tree_matches_emits(
                    &*final(tree),
                    emits.push(Emit::Section(sp, title@, hier.deep_view())),
                    doc,
                    file,
                )
                &&& final(tree).nodes_seq().len() == old(tree).nodes_seq().len() + 1
                &&& forall|j: int|
                    0 <= j < old(tree).nodes_seq().len()
                        ==> (#[trigger] final(tree).nodes_seq()[j]).spec_id()
                        == old(tree).nodes_seq()[j].spec_id()
                &&& nid == final(tree).nodes_seq()[old(tree).nodes_seq().len() as int].spec_id()
            },
            Err(err) => err == TreeError::DuplicateId && *final(tree) == *old(tree),
        },
{
    let ghost tv = title@;
    let ghost hv = hier.deep_view();
    let node = Node::new_intermediate(parent, Some(title), hier, document_id.clone());
    let nid = node.id();
    let ghost e = Emit::Section(sp, tv, hv);
    proof {
        assert(node_realizes_emit(&*tree, node, e, doc, file));
    }
    match push_emit_node(tree, node, Ghost(e), Ghost(doc), Ghost(file), Ghost(emits)) {
        Ok(()) => Ok(nid),
        Err(err) => Err(err),
    }
}

/// Builds a [`NodeTree`] from a markdown document.
pub struct MarkdownParser {
    document_id: String,
    file_name: Option<String>,
}

impl MarkdownParser {
    /// The document id this parser stamps on every node.
    pub closed spec fn doc_view(&self) -> Seq<char> {
        self.document_id@
    }

    /// The source file name recorded on the root and the leaves.
    pub closed spec fn file_view(&self) -> Option<Seq<char>> {
        opt_view(self.file_name)
    }

    /// Create a parser for one document.
    pub fn new(document_id: String, file_name: Option<String>) -> (r: MarkdownParser)
        ensures
            r.doc_view() == document_id@,
            r.file_view() == opt_view(file_name),
    {
        MarkdownParser { document_id, file_name }
    }

    /// Parse a markdown document into a tree.  The resulting tree is
    /// well-formed and realizes exactly the emission list of the
    /// specification state machine run over the document's event stream.
    /// The only possible failure is a collision between two randomly
    /// generated node ids, which requires at least one emission: on a
    /// document that emits nothing the call always succeeds.
    #[verifier::rlimit(100)]
    #[verifier::spinoff_prover]
    pub fn parse(&self, content: &str) -> (r: Result<NodeTree, TreeError>)
        ensures
            r matches Ok(t) ==> t.wf() && tree_matches_emits(
                &t,
                spec_build(md_events_of(content@)),
                self.doc_view(),
                self.file_view(),
            ),
            r matches Err(e) ==> e == TreeError::DuplicateId && spec_build(
                md_events_of(content@),
            ).len() > 0,
            spec_build(md_events_of(content@)).len() == 0 ==> r is Ok,
    {
        let ghost doc = self.doc_view();
        let ghost file = self.file_view();
        let events = parse_markdown_events(content);
        let ghost evs = events@;

        let root = Node::new_root(self.document_id.clone(), clone_opt_string(&self.file_name));
        let mut tree = NodeTree::new(root);
        let root_id = tree.root_id();

        let mut heading_stack: Vec<(NodeId, Vec<String>)> = Vec::new();
        let mut root_hier: Vec<String> = Vec::new();
        root_hier.push("Root".to_owned());
        heading_stack.push((root_id, root_hier));
        let mut current_parent: NodeId = root_id;
        let mut current_hier: Vec<String> = Vec::new();
        current_hier.push("Root".to_owned());

        let mut in_code = false;
        let mut in_table = false;
        let mut in_image = false;
        let mut table_header: Option<Vec<String>> = None;
        let mut table_rows: Vec<Vec<String>> = Vec::new();
        let mut cur_row: Vec<String> = Vec::new();
        let mut code_buf = String::new();
        let mut para_buf = String::new();
        let mut image_alt = String::new();
        let mut image_path = String::new();
        let mut pending: Option<(u32, String)> = None;
        let mut chunk_index: usize = 0;

        let ghost mut bs = init_state();
        proof {
            assert(evs.take(0) =~= Seq::<MdEvent>::empty());
            assert(heading_stack@[0].1.deep_view() =~= seq!["Root"@]);
            assert(current_hier.deep_view() =~= seq!["Root"@]);
            assert(table_rows.deep_view() =~= Seq::<Seq<Seq<char>>>::empty());
            assert(cur_row.deep_view() =~= Seq::<Seq<char>>::empty());
        }

        let mut i: usize = 0;
        while i < events.len()
            invariant
                0 <= i <= evs.len(),
                events@ == evs,
                evs == md_events_of(content@),
                doc == self.doc_view(),
                file == self.file_view(),
                bs == run_events(evs.take(i as int)),
                tree.wf(),
                tree_matches_emits(&tree, bs.emits, doc, file),
                heading_stack@.len() == bs.stack.len(),
                forall|k: int|
                    0 <= k < heading_stack@.len() ==> entry_ok(
                        &tree,
                        (#[trigger] heading_stack@[k]).0,
                        heading_stack@[k].1.deep_view(),
                        bs.stack[k].0,
                        bs.stack[k].1,
                    ),
                entry_ok(&tree, current_parent, current_hier.deep_view(), bs.cur_parent, bs.cur_hier),
                in_code == bs.in_code,
                in_table == bs.in_table,
                in_image == bs.in_image,
                match (table_header, bs.table_header) {
                    (Some(h), Some(sh)) => h.deep_view() == sh,
                    (None, None) => true,
                    _ => false,
                },
                table_rows.deep_view() == bs.table_rows,
                cur_row.deep_view() == bs.cur_row,
                code_buf@ == bs.code_buf,
                para_buf@ == bs.para_buf,
                image_alt@ == bs.image_alt,
                image_path@ == bs.image_path,
                match (pending, bs.pending) {
                    (Some(pp), Some(sp)) => pp.0 == sp.0 && pp.1@ == sp.1,
                    (None, None) => true,
                    _ => false,
                },
                chunk_index as nat == bs.chunk_index,
                bs.chunk_index <= bs.emits.len(),
            decreases evs.len() - i,
        {
            let ghost bs_next = step(bs, evs[i as int]);
            proof {
                assert(evs.take(i + 1).drop_last() =~= evs.take(i as int));
                assert(evs.take(i + 1).last() == evs[i as int]);
            }
            let ev = &events[i];
            match ev {
                MdEvent::HeadingStart(level) => {
                    let lvl = *level as usize;
                    let ghost st0 = heading_stack@;
                    let ghost sst0 = bs.stack;
                    while heading_stack.len() > lvl
                        invariant
                            heading_stack@.len() <= st0.len(),
                            heading_stack@ =~= st0.take(heading_stack@.len() as int),
                            lvl <= heading_stack@.len() || heading_stack@.len() == st0.len(),
                        decreases heading_stack@.len(),
                    {
                        heading_stack.pop();
                        proof {
                            assert(heading_stack@ =~= st0.take(heading_stack@.len() as int));
                        }
                    }
                    pending = Some((*level, String::new()));
                    proof {
                        assert(heading_stack@.len() == truncate_stack(sst0, *level).len());
                        assert forall|k: int| 0 <= k < heading_stack@.len() implies
                            heading_stack@[k] == st0[k] && truncate_stack(sst0, *level)[k]
                            == sst0[k] by {}
                    }
                },
                MdEvent::CodeBlockStart => {
                    in_code = true;
                    code_buf = String::new();
                },
                MdEvent::TableStart => {
                    in_table = true;
                    table_header = None;
                    table_rows = Vec::new();
                    cur_row = Vec::new();
                    proof {
                        assert(table_rows.deep_view() =~= Seq::<Seq<Seq<char>>>::empty());
                        assert(cur_row.deep_view() =~= Seq::<Seq<char>>::empty());
                    }
                },
                MdEvent::ImageStart(title, url) => {
                    in_image = true;
                    image_alt = title.clone();
                    image_path = url.clone();
                },
                MdEvent::HeadingEnd => {
                    let taken = pending;
                    pending = None;
                    match taken {
                        None => {},
                        Some((lvl32, text_buf)) => {
                            let title = trim_str(text_buf.as_str());
                            if !title.as_str().is_empty() {
                                let lvl = lvl32 as usize;
                                let ghost st0 = heading_stack@;
                                let ghost sst0 = bs.stack;
                                while heading_stack.len() > lvl
                                    invariant
                                        heading_stack@.len() <= st0.len(),
                                        heading_stack@ =~= st0.take(heading_stack@.len() as int),
                                        lvl <= heading_stack@.len() || heading_stack@.len()
                                            == st0.len(),
                                    decreases heading_stack@.len(),
                                {
                                    heading_stack.pop();
                                    proof {
                                        assert(heading_stack@ =~= st0.take(
                                            heading_stack@.len() as int,
                                        ));
                                    }
                                }
                                let ghost stack1 = truncate_stack(sst0, lvl32);
                                proof {
                                    assert(heading_stack@.len() == stack1.len());
                                    assert forall|k: int|
                                        0 <= k < heading_stack@.len() implies heading_stack@[k]
                                        == st0[k] && stack1[k] == sst0[k] by {}
                                }
                                let (parent_id, parent_hier): (NodeId, Vec<String>) = if heading_stack.len() > 0 {
                                    let last = &heading_stack[heading_stack.len() - 1];
                                    (last.0, crate::text::clone_string_vec(&last.1))
                                } else {
                                    let mut rh: Vec<String> = Vec::new();
                                    rh.push("Root".to_owned());
                                    proof {
                                        assert(rh.deep_view() =~= seq!["Root"@]);
                                    }
                                    (tree.root_id(), rh)
                                };
                                let mut new_hier = parent_hier;
                                new_hier.push(title.clone());
                                let ghost top = stack_top(stack1);
                                proof {
                                    assert(new_hier.deep_view() =~= top.1.push(title@));
                                }
                                let ghost pre_t = tree;
                                let nid = match emit_section_node(
                                    &mut tree,
                                    parent_id,
                                    title.clone(),
                                    crate::text::clone_string_vec(&new_hier),
                                    &self.document_id,
                                    Ghost(top.0),
                                    Ghost(bs.emits),
                                    Ghost(doc),
                                    Ghost(file),
                                ) {
                                    Ok(nid) => nid,
                                    Err(err) => {
                                        proof {
                                            assert(run_events(evs.take(i + 1)) == bs_next);
                                            assert(bs_next.emits.len() >= 1);
                                            lemma_build_extends(evs, i + 1);
                                        }
                                        return Err(err);
                                    },
                                };
                                proof {
                                    restore_entries(
                                        pre_t,
                                        tree,
                                        heading_stack@,
                                        stack1,
                                        current_parent,
                                        current_hier.deep_view(),
                                        bs.cur_parent,
                                        bs.cur_hier,
                                    );
                                    assert(entry_ok(
                                        &tree,
                                        nid,
                                        new_hier.deep_view(),
                                        bs.emits.len() as int,
                                        new_hier.deep_view(),
                                    ));
                                }
                                heading_stack.push((nid, crate::text::clone_string_vec(&new_hier)));
                                current_parent = nid;
                                current_hier = new_hier;
                            }
                        },
                    }
                },
                MdEvent::ParagraphEnd => {
                    let text = trim_str(para_buf.as_str());
                    if !text.as_str().is_empty() {
                        let ghost pre_t = tree;
                        match emit_chunk_leaf(
                            &mut tree,
                            current_parent,
                            crate::text::clone_string_vec(&current_hier),
                            text,
                            chunk_index,
                            None,
                            None,
                            None,
                            None,
                            &self.document_id,
                            &self.file_name,
                            Ghost(bs.cur_parent),
                            Ghost(bs.emits),
                            Ghost(doc),
                            Ghost(file),
                            Ghost(ImageInfo::NotImage),
                        ) {
                            Ok(()) => {},
                            Err(err) => {
                                proof {
                                    assert(run_events(evs.take(i + 1)) == bs_next);
                                    assert(bs_next.emits.len() >= 1);
                                    lemma_build_extends(evs, i + 1);
                                }
                                return Err(err);
                            },
                        }
                        proof {
                            restore_entries(
                                pre_t,
                                tree,
                                heading_stack@,
                                bs.stack,
                                current_parent,
                                current_hier.deep_view(),
                                bs.cur_parent,
                                bs.cur_hier,
                            );
                        }
                        // the arena size bounds the chunk counter below
                        let nc = tree.node_count();
                        chunk_index += 1;
                    }
                    para_buf = String::new();
                },
                MdEvent::CodeBlockEnd => {
                    if in_code {
                        let text = chars_to_string(&trim_end_chars(&str_to_chars(code_buf.as_str())));
                        if !text.as_str().is_empty() {
                            let ghost pre_t = tree;
                            match emit_chunk_leaf(
                                &mut tree,
                                current_parent,
                                crate::text::clone_string_vec(&current_hier),
                                text,
                                chunk_index,
                                None,
                                None,
                                None,
                                None,
                                &self.document_id,
                                &self.file_name,
                                Ghost(bs.cur_parent),
                                Ghost(bs.emits),
                                Ghost(doc),
                                Ghost(file),
                                Ghost(ImageInfo::NotImage),
                            ) {
                                Ok(()) => {},
                                Err(err) => {
                                    proof {
                                        assert(run_events(evs.take(i + 1)) == bs_next);
                                        assert(bs_next.emits.len() >= 1);
                                        lemma_build_extends(evs, i + 1);
                                    }
                                    return Err(err);
                                },
                            }
                            proof {
                                restore_entries(
                                    pre_t,
                                    tree,
                                    heading_stack@,
                                    bs.stack,
                                    current_parent,
                                    current_hier.deep_view(),
                                    bs.cur_parent,
                                    bs.cur_hier,
                                );
                            }
                            // the arena size bounds the chunk counter below
                        let nc = tree.node_count();
                            chunk_index += 1;
                        }
                        in_code = false;
                        code_buf = String::new();
                    }
                },
                MdEvent::TableHeadEnd => {
                    if in_table {
                        table_header = Some(cur_row);
                        cur_row = Vec::new();
                        proof {
                            assert(cur_row.deep_view() =~= Seq::<Seq<char>>::empty());
                        }
                    }
                },
                MdEvent::TableRowEnd => {
                    if in_table && table_header.is_some() {
                        table_rows.push(cur_row);
                        cur_row = Vec::new();
                        proof {
                            assert(cur_row.deep_view() =~= Seq::<Seq<char>>::empty());
                            assert(table_rows.deep_view() =~= bs.table_rows.push(bs.cur_row));
                        }
                    }
                },
                MdEvent::TableEnd => {
                    if in_table {
                        let markdown = render_table(&table_header, &table_rows);
                        let trimmed = trim_str(markdown.as_str());
                        if !trimmed.as_str().is_empty() {
                            let seg = render_indexed("table_", chunk_index as u64);
                            proof {
                                assert(seg@ == table_segment(bs.chunk_index));
                            }
                            let ghost pre_t = tree;
                            match emit_chunk_leaf(
                                &mut tree,
                                current_parent,
                                crate::text::clone_string_vec(&current_hier),
                                markdown,
                                chunk_index,
                                Some(seg),
                                None,
                                None,
                                None,
                                &self.document_id,
                                &self.file_name,
                                Ghost(bs.cur_parent),
                                Ghost(bs.emits),
                                Ghost(doc),
                                Ghost(file),
                                Ghost(ImageInfo::NotImage),
                            ) {
                                Ok(()) => {},
                                Err(err) => {
                                    proof {
                                        assert(run_events(evs.take(i + 1)) == bs_next);
                                        assert(bs_next.emits.len() >= 1);
                                        lemma_build_extends(evs, i + 1);
                                    }
                                    return Err(err);
                                },
                            }
                            proof {
                                restore_entries(
                                    pre_t,
                                    tree,
                                    heading_stack@,
                                    bs.stack,
                                    current_parent,
                                    current_hier.deep_view(),
                                    bs.cur_parent,
                                    bs.cur_hier,
                                );
                            }
                            // the arena size bounds the chunk counter below
                        let nc = tree.node_count();
                            chunk_index += 1;
                        }
                        table_header = None;
                        table_rows = Vec::new();
                        in_table = false;
                        proof {
                            assert(table_rows.deep_view() =~= Seq::<Seq<Seq<char>>>::empty());
                        }
                    }
                },
                MdEvent::ImageEnd => {
                    if in_image {
                        let markdown = render_image(&image_alt, &image_path);
                        let seg = render_indexed("img_", chunk_index as u64);
                        proof {
                            assert(seg@ == img_segment(bs.chunk_index));
                        }
                        let image_id = render_last_segment(&image_path);
                        let alt_opt: Option<String> = if image_alt.as_str().is_empty() {
                            None
                        } else {
                            Some(image_alt.clone())
                        };
                        let ghost pre_t = tree;
                        match emit_chunk_leaf(
                            &mut tree,
                            current_parent,
                            crate::text::clone_string_vec(&current_hier),
                            markdown,
                            chunk_index,
                            Some(seg),
                            alt_opt,
                            Some(image_path.clone()),
                            Some(image_id),
                            &self.document_id,
                            &self.file_name,
                            Ghost(bs.cur_parent),
                            Ghost(bs.emits),
                            Ghost(doc),
                            Ghost(file),
                            Ghost(ImageInfo::Image(
                                bs.image_alt,
                                bs.image_path,
                                last_segment(bs.image_path),
                            )),
                        ) {
                            Ok(()) => {},
                            Err(err) => {
                                proof {
                                    assert(run_events(evs.take(i + 1)) == bs_next);
                                    assert(bs_next.emits.len() >= 1);
                                    lemma_build_extends(evs, i + 1);
                                }
                                return Err(err);
                            },
                        }
                        proof {
                            restore_entries(
                                pre_t,
                                tree,
                                heading_stack@,
                                bs.stack,
                                current_parent,
                                current_hier.deep_view(),
                                bs.cur_parent,
                                bs.cur_hier,
                            );
                        }
                        // the arena size bounds the chunk counter below
                        let nc = tree.node_count();
                        chunk_index += 1;
                        in_image = false;
                        image_alt = String::new();
                        image_path = String::new();
                        para_buf = String::new();
                    }
                },
                MdEvent::Text(t) => {
                    match &mut pending {
                        Some(pair) => {
                            pair.1.append(t.as_str());
                        },
                        None => {
                            if in_code {
                                code_buf.append(t.as_str());
                                code_buf.append("\n");
                            } else if in_table {
                                cur_row.push(t.clone());
                                proof {
                                    assert(cur_row.deep_view() =~= bs.cur_row.push(t@));
                                }
                            } else if in_image {
                                image_alt.append(t.as_str());
                            } else {
                                let tt = trim_str(t.as_str());
                                if !tt.as_str().is_empty() {
                                    para_buf.append(t.as_str());
                                    para_buf.append(" ");
                                }
                            }
                        },
                    }
                },
                MdEvent::InlineCode(t) => {
                    if pending.is_none() && !in_code {
                        para_buf.append("`");
                        para_buf.append(t.as_str());
                        para_buf.append("` ");
                    }
                },
                MdEvent::SoftBreak | MdEvent::HardBreak => {
                    if !para_buf.as_str().is_empty() && pending.is_none() && !in_table {
                        para_buf.append(" ");
                    }
                },
                MdEvent::Other => {},
            }
            proof {
                bs = bs_next;
            }
            i += 1;
        }
        proof {
            assert(evs.take(evs.len() as int) =~= evs);
        }
        // flush a final unterminated paragraph
        let text = trim_str(para_buf.as_str());
        if !text.as_str().is_empty() {
            match emit_chunk_leaf(
                &mut tree,
                current_parent,
                crate::text::clone_string_vec(&current_hier),
                text,
                chunk_index,
                None,
                None,
                None,
                None,
                &self.document_id,
                &self.file_name,
                Ghost(bs.cur_parent),
                Ghost(bs.emits),
                Ghost(doc),
                Ghost(file),
                Ghost(ImageInfo::NotImage),
            ) {
                Ok(()) => {},
                Err(err) => {
                    proof {
                        assert(spec_build(evs).len() >= 1);
                    }
                    return Err(err);
                },
            }
        }
        proof {
            assert(tree_matches_emits(&tree, spec_build(evs), doc, file));
        }
        Ok(tree)
    }
}



} // verus!
