//! The parsed stylesheet as the library reads it: the nodes of the syntax tree in pre-order,
//! each with its kind and the bytes it spans.
use vstd::prelude::*;
use vstd::string::StringSliceAdditionalSpecFns;
use biome_css_syntax::{CssLanguage, CssSyntaxKind};
use biome_rowan::SyntaxNode;

verus! {

/// The kinds of node that color extraction tells apart.
#[derive(Clone, Copy, Debug, PartialEq, Eq, Structural)]
pub enum NodeKind {
    /// A function call such as `rgb(0 0 0)`.
    Function,
    /// An identifier such as `red`.
    Identifier,
    /// A hexadecimal color such as `#ff0000`.
    Color,
    /// Any other node.
    Other,
}

/// The bytes `start..end` of a text.
#[derive(Clone, Copy, Debug, PartialEq, Eq, Structural)]
pub struct Span {
    pub start: usize,
    pub end: usize,
}

/// One node of the tree: its kind, the bytes it spans with the trivia (whitespace and
/// comments) of its tokens, and for a function the span of its name.
#[derive(Clone, Copy, Debug, PartialEq, Eq, Structural)]
pub struct SyntaxNodeInfo {
    pub kind: NodeKind,
    pub span: Span,
    pub name: Option<Span>,
}

/// The nodes of a syntax tree, in pre-order.
pub struct SyntaxTree {
    pub nodes: Vec<SyntaxNodeInfo>,
}

/// Whether span `s` lies in a text of `len` bytes.
pub open spec fn span_fits(s: Span, len: int) -> bool {
    s.start <= s.end <= len
}

/// Whether the spans of node `n` lie in a text of `len` bytes.
pub open spec fn node_fits(n: SyntaxNodeInfo, len: int) -> bool {
    &&& span_fits(n.span, len)
    &&& match n.name {
        Some(s) => span_fits(s, len),
        None => true,
    }
}

impl SyntaxTree {
    /// Whether every span of the tree lies in a text of `len` bytes.
    pub open spec fn fits(&self, len: int) -> bool {
        forall|i: int| 0 <= i < self.nodes@.len() ==> node_fits(#[trigger] self.nodes@[i], len)
    }
}

/// The nodes of a parsed stylesheet, in pre-order. Verus does not take biome_rowan's
/// `SyntaxNode` in a signature (its type parameter is bound by an outside trait), so the
/// nodes stay in this private field and the functions below read them.
#[verifier::external_body]
pub struct CssNodes {
    nodes: Vec<SyntaxNode<CssLanguage>>,
}

/// What a `CssNodes` holds: for each node, its kind, its span, and as `name` the span of its
/// first child node.
pub uninterp spec fn css_node_view(nodes: CssNodes) -> Seq<SyntaxNodeInfo>;

/// The nodes, as `css_node_view` gives them, of the tree that the parser builds from the UTF-8
/// text `text`.
pub uninterp spec fn parsed_nodes(text: Seq<u8>) -> Seq<SyntaxNodeInfo>;

/// Relies on biome_css_parser::parse_css, with default options, to parse `text`, and on
/// CssParse::syntax and biome_rowan::SyntaxNode::descendants for the nodes of its tree in
/// pre-order, the root first. The parse depends on the text alone. The lexer keeps offsets
/// in 32 bits and panics past them, so the text is at most `u32::MAX` bytes.
#[verifier::external_body]
fn parse_nodes(text: &str) -> (r: CssNodes)
    requires
        text.spec_bytes().len() <= u32::MAX,
    ensures
        css_node_view(r) == parsed_nodes(text.spec_bytes()),
{
    let parse = biome_css_parser::parse_css(text, biome_css_parser::CssParserOptions::default());
    CssNodes { nodes: parse.syntax().descendants().collect() }
}

impl CssNodes {
    /// Relies on Vec::len for the number of nodes.
    #[verifier::external_body]
    fn count(&self) -> (r: usize)
        ensures
            r == css_node_view(*self).len(),
    {
        self.nodes.len()
    }

    /// Relies on biome_rowan::SyntaxNode::kind for the kind of node `i`.
    #[verifier::external_body]
    fn kind(&self, i: usize) -> (r: NodeKind)
        requires
            i < css_node_view(*self).len(),
        ensures
            r == css_node_view(*self)[i as int].kind,
    {
        match self.nodes[i].kind() {
            CssSyntaxKind::CSS_FUNCTION => NodeKind::Function,
            CssSyntaxKind::CSS_IDENTIFIER => NodeKind::Identifier,
            CssSyntaxKind::CSS_COLOR => NodeKind::Color,
            _ => NodeKind::Other,
        }
    }

    /// Relies on biome_rowan::SyntaxNode::text_range for the bytes that node `i` spans, trivia
    /// included; a range never ends before it starts.
    #[verifier::external_body]
    fn span(&self, i: usize) -> (r: Span)
        requires
            i < css_node_view(*self).len(),
        ensures
            r == css_node_view(*self)[i as int].span,
            r.start <= r.end,
    {
        let range = self.nodes[i].text_range();
        Span { start: usize::from(range.start()), end: usize::from(range.end()) }
    }

    /// Relies on biome_rowan::SyntaxNode::first_child and text_range for the span of the first
    /// child node of node `i`, if it has one.
    #[verifier::external_body]
    fn first_child_span(&self, i: usize) -> (r: Option<Span>)
        requires
            i < css_node_view(*self).len(),
        ensures
            r == css_node_view(*self)[i as int].name,
            r.is_some() ==> r.unwrap().start <= r.unwrap().end,
    {
        match self.nodes[i].first_child() {
            Some(child) => {
                let range = child.text_range();
                Some(Span { start: usize::from(range.start()), end: usize::from(range.end()) })
            },
            None => None,
        }
    }
}

/// Node `n` as the tree keeps it: only a function keeps the span of its first child, as its
/// name, and only when that span ends within a text of `len` bytes.
pub open spec fn tree_node(n: SyntaxNodeInfo, len: int) -> SyntaxNodeInfo {
    let name = match n.name {
        Some(s) => if n.kind == NodeKind::Function && s.end <= len {
            Some(s)
        } else {
            None
        },
        None => None,
    };
    SyntaxNodeInfo { kind: n.kind, span: n.span, name }
}

/// The nodes `nodes` that end within a text of `len` bytes, in order, as the tree keeps them.
pub open spec fn fitting_nodes(nodes: Seq<SyntaxNodeInfo>, len: int) -> Seq<SyntaxNodeInfo>
    decreases nodes.len(),
{
    if nodes.len() == 0 {
        seq![]
    } else {
        let before = fitting_nodes(nodes.drop_last(), len);
        if nodes.last().span.end <= len {
            before.push(tree_node(nodes.last(), len))
        } else {
            before
        }
    }
}

/// The nodes of the syntax tree of the UTF-8 text `t`, in pre-order; none for a text longer
/// than `u32::MAX` bytes, which the parser cannot take.
pub open spec fn stylesheet_nodes(t: Seq<u8>) -> Seq<SyntaxNodeInfo> {
    if t.len() <= u32::MAX {
        fitting_nodes(parsed_nodes(t), t.len() as int)
    } else {
        seq![]
    }
}

/// Parses `text` as a stylesheet and lists the nodes of its tree in pre-order, the root
/// first. A node whose span would lie outside the text is left out. A text longer than
/// `u32::MAX` bytes gives no nodes.
pub fn parse_css(text: &str) -> (r: SyntaxTree)
    ensures
        r.nodes@ == stylesheet_nodes(text.spec_bytes()),
        r.fits(text.spec_bytes().len() as int),
{
    let len = text.as_bytes().len();
    let mut nodes: Vec<SyntaxNodeInfo> = Vec::new();
    if len > u32::MAX as usize {
        return SyntaxTree { nodes };
    }
    let all = parse_nodes(text);
    let count = all.count();
    let mut i: usize = 0;
    while i < count
        invariant
            len == text.spec_bytes().len(),
            len <= u32::MAX,
            count == css_node_view(all).len(),
            i <= count,
            nodes@ == fitting_nodes(css_node_view(all).take(i as int), len as int),
            css_node_view(all) == parsed_nodes(text.spec_bytes()),
            forall|j: int| 0 <= j < nodes@.len() ==> node_fits(#[trigger] nodes@[j], len as int),
        decreases count - i,
    {
        assert(css_node_view(all).take(i + 1).drop_last() =~= css_node_view(all).take(i as int));
        let kind = all.kind(i);
        let span = all.span(i);
        let name = if kind == NodeKind::Function {
            match all.first_child_span(i) {
                Some(name_span) => {
                    if name_span.end <= len {
                        Some(name_span)
                    } else {
                        None
                    }
                },
                None => None,
            }
        } else {
            None
        };
        if span.end <= len {
            nodes.push(SyntaxNodeInfo { kind, span, name });
        }
        i = i + 1;
    }
    assert(css_node_view(all).take(count as int) =~= css_node_view(all));
    SyntaxTree { nodes }
}

} // verus!
