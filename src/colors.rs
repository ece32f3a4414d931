//! Colors in a parsed stylesheet: color functions, named colors and hexadecimal colors.
use vstd::prelude::*;
use vstd::string::StringSliceAdditionalSpecFns;
use vstd::utf8::is_char_boundary;
use crate::line_index::{LineIndex, PositionEncoding, Range, range_of};
use crate::syntax::{NodeKind, Span, SyntaxNodeInfo, SyntaxTree, span_fits};

verus! {

/// A color with four components in [0, 1]. Each component is held as the bit pattern of an
/// IEEE 754 single-precision number, as the color parser gave it.
#[derive(Clone, Copy, Debug, PartialEq, Eq, Structural)]
pub struct Color {
    pub red: u32,
    pub green: u32,
    pub blue: u32,
    pub alpha: u32,
}

/// A color found in a document, and where.
#[derive(Clone, Copy, Debug, PartialEq, Eq, Structural)]
pub struct ColorInformation {
    pub color: Color,
    pub range: Range,
}

/// The color that the color parser reads from the UTF-8 text `text`, if it reads one.
pub uninterp spec fn parsed_color(text: Seq<u8>) -> Option<Color>;

/// The 8-bit red, green and blue of the named color whose name is the UTF-8 text `name`.
pub uninterp spec fn named_color(name: Seq<u8>) -> Option<(u8, u8, u8)>;

/// The color with 8-bit components `r`, `g`, `b` and `a`, each divided by 255.
pub uninterp spec fn rgba8_color(r: u8, g: u8, b: u8, a: u8) -> Color;

/// Whether every byte of `b` is ASCII.
pub open spec fn is_ascii_text(b: Seq<u8>) -> bool {
    forall|i: int| 0 <= i < b.len() ==> b[i] < 0x80
}

/// Relies on csscolorparser::parse, which reads a CSS color from text and depends on the
/// text alone. It cuts suffixes off at byte offsets without looking for character
/// boundaries, so it is only called on ASCII text, where every offset is one.
#[verifier::external_body]
fn parse_color(text: &str) -> (r: Option<Color>)
    requires
        is_ascii_text(text.spec_bytes()),
    ensures
        r == parsed_color(text.spec_bytes()),
{
    match csscolorparser::parse(text) {
        Ok(c) => Some(
            Color {
                red: c.r.to_bits(),
                green: c.g.to_bits(),
                blue: c.b.to_bits(),
                alpha: c.a.to_bits(),
            },
        ),
        Err(_) => None,
    }
}

/// Relies on csscolorparser::NAMED_COLORS, a fixed table from color name to 8-bit red,
/// green and blue, looked up by the exact name.
#[verifier::external_body]
fn lookup_named_color(name: &str) -> (r: Option<(u8, u8, u8)>)
    ensures
        r == named_color(name.spec_bytes()),
{
    match csscolorparser::NAMED_COLORS.get(name) {
        Some(c) => Some((c[0], c[1], c[2])),
        None => None,
    }
}

/// Relies on csscolorparser::Color::from_rgba8, which divides each component by 255.
#[verifier::external_body]
fn color_from_rgba8(r: u8, g: u8, b: u8, a: u8) -> (c: Color)
    ensures
        c == rgba8_color(r, g, b, a),
{
    let c = csscolorparser::Color::from_rgba8(r, g, b, a);
    Color { red: c.r.to_bits(), green: c.g.to_bits(), blue: c.b.to_bits(), alpha: c.a.to_bits() }
}

/// The bytes of span `s` of `t`, when both of its ends fall on character boundaries.
pub open spec fn span_text(t: Seq<u8>, s: Span) -> Option<Seq<u8>> {
    if is_char_boundary(t, s.start as int) && is_char_boundary(
        t.subrange(s.start as int, t.len() as int),
        s.end - s.start,
    ) {
        Some(t.subrange(s.start as int, s.end as int))
    } else {
        None
    }
}

/// Whether `name` is that of a function that denotes a color: `rgb`, `rgba`, `hsl`, `hsla`,
/// `hwb`, `hwba`, `hsv`, `hsva`, `lab` or `lch`.
pub open spec fn is_color_function_name(name: Seq<u8>) -> bool {
    ||| name == seq![0x72u8, 0x67u8, 0x62u8]
    ||| name == seq![0x72u8, 0x67u8, 0x62u8, 0x61u8]
    ||| name == seq![0x68u8, 0x73u8, 0x6cu8]
    ||| name == seq![0x68u8, 0x73u8, 0x6cu8, 0x61u8]
    ||| name == seq![0x68u8, 0x77u8, 0x62u8]
    ||| name == seq![0x68u8, 0x77u8, 0x62u8, 0x61u8]
    ||| name == seq![0x68u8, 0x73u8, 0x76u8]
    ||| name == seq![0x68u8, 0x73u8, 0x76u8, 0x61u8]
    ||| name == seq![0x6cu8, 0x61u8, 0x62u8]
    ||| name == seq![0x6cu8, 0x63u8, 0x68u8]
}

/// The color that the color parser reads from `text`, which it is given only when `text` is
/// ASCII: no CSS color is written with other characters.
pub open spec fn ascii_parsed_color(text: Seq<u8>) -> Option<Color> {
    if is_ascii_text(text) {
        parsed_color(text)
    } else {
        None
    }
}

/// The color that node `n` of a tree over `t` denotes: a color function, read whole by the
/// color parser; an identifier found in the table of named colors, fully opaque; or a
/// hexadecimal color, read by the color parser. The color parser reads ASCII text only.
pub open spec fn node_color(t: Seq<u8>, n: SyntaxNodeInfo) -> Option<Color> {
    match (n.kind, span_text(t, n.span)) {
        (NodeKind::Function, Some(text)) => match n.name {
            Some(name) => if is_color_function_name(t.subrange(name.start as int, name.end as int)) {
                ascii_parsed_color(text)
            } else {
                None
            },
            None => None,
        },
        (NodeKind::Identifier, Some(text)) => match named_color(text) {
            Some((r, g, b)) => Some(rgba8_color(r, g, b, 255)),
            None => None,
        },
        (NodeKind::Color, Some(text)) => ascii_parsed_color(text),
        _ => None,
    }
}

/// The color of node `n` with the range it spans, when it denotes a color whose span has
/// positions.
pub open spec fn color_entry(t: Seq<u8>, n: SyntaxNodeInfo, enc: PositionEncoding) -> Option<
    ColorInformation,
> {
    match (node_color(t, n), range_of(t, n.span.start as int, n.span.end as int, enc)) {
        (Some(color), Some(range)) => Some(ColorInformation { color, range }),
        _ => None,
    }
}

/// The colors of the nodes `nodes` of a tree over `t`, in the order of the nodes.
pub open spec fn document_colors_of(t: Seq<u8>, nodes: Seq<SyntaxNodeInfo>, enc: PositionEncoding) -> Seq<
    ColorInformation,
>
    decreases nodes.len(),
{
    if nodes.len() == 0 {
        seq![]
    } else {
        let before = document_colors_of(t, nodes.drop_last(), enc);
        match color_entry(t, nodes.last(), enc) {
            Some(e) => before.push(e),
            None => before,
        }
    }
}

/// The text of span `s` of `text`, when both of its ends fall on character boundaries.
fn text_of_span<'a>(text: &'a str, s: Span) -> (r: Option<&'a str>)
    requires
        span_fits(s, text.spec_bytes().len() as int),
    ensures
        r.is_some() == span_text(text.spec_bytes(), s).is_some(),
        r.is_some() ==> r.unwrap().spec_bytes() == span_text(text.spec_bytes(), s).unwrap(),
{
    let ghost t = text.spec_bytes();
    if !text.is_char_boundary(s.start) {
        return None;
    }
    let (_, tail) = text.split_at(s.start);
    if !tail.is_char_boundary(s.end - s.start) {
        return None;
    }
    let (mid, _) = tail.split_at(s.end - s.start);
    assert(mid.spec_bytes() =~= t.subrange(s.start as int, s.end as int));
    Some(mid)
}

/// Whether span `s` of `bytes` holds exactly `pat`.
fn span_equals(bytes: &[u8], s: Span, pat: &Vec<u8>) -> (r: bool)
    requires
        span_fits(s, bytes@.len() as int),
    ensures
        r == (bytes@.subrange(s.start as int, s.end as int) == pat@),
{
    if s.end - s.start != pat.len() {
        return false;
    }
    let mut j: usize = 0;
    while j < pat.len()
        invariant
            span_fits(s, bytes@.len() as int),
            s.end - s.start == pat@.len(),
            j <= pat@.len(),
            forall|x: int| 0 <= x < j ==> bytes@[s.start + x] == pat@[x],
        decreases pat@.len() - j,
    {
        if bytes[s.start + j] != pat[j] {
            assert(bytes@.subrange(s.start as int, s.end as int)[j as int] != pat@[j as int]);
            return false;
        }
        j = j + 1;
    }
    assert(bytes@.subrange(s.start as int, s.end as int) =~= pat@);
    true
}

/// Whether span `s` of `bytes` names a color function.
fn names_color_function(bytes: &[u8], s: Span) -> (r: bool)
    requires
        span_fits(s, bytes@.len() as int),
    ensures
        r == is_color_function_name(bytes@.subrange(s.start as int, s.end as int)),
{
    let names: Vec<Vec<u8>> = vec![
        vec![0x72u8, 0x67u8, 0x62u8],
        vec![0x72u8, 0x67u8, 0x62u8, 0x61u8],
        vec![0x68u8, 0x73u8, 0x6cu8],
        vec![0x68u8, 0x73u8, 0x6cu8, 0x61u8],
        vec![0x68u8, 0x77u8, 0x62u8],
        vec![0x68u8, 0x77u8, 0x62u8, 0x61u8],
        vec![0x68u8, 0x73u8, 0x76u8],
        vec![0x68u8, 0x73u8, 0x76u8, 0x61u8],
        vec![0x6cu8, 0x61u8, 0x62u8],
        vec![0x6cu8, 0x63u8, 0x68u8],
    ];
    let ghost all = seq![
        seq![0x72u8, 0x67u8, 0x62u8],
        seq![0x72u8, 0x67u8, 0x62u8, 0x61u8],
        seq![0x68u8, 0x73u8, 0x6cu8],
        seq![0x68u8, 0x73u8, 0x6cu8, 0x61u8],
        seq![0x68u8, 0x77u8, 0x62u8],
        seq![0x68u8, 0x77u8, 0x62u8, 0x61u8],
        seq![0x68u8, 0x73u8, 0x76u8],
        seq![0x68u8, 0x73u8, 0x76u8, 0x61u8],
        seq![0x6cu8, 0x61u8, 0x62u8],
        seq![0x6cu8, 0x63u8, 0x68u8],
    ];
    assert forall|k: int| 0 <= k < 10 implies names@[k]@ == all[k] by {
        assert(names@[k]@ =~= all[k]);
    }
    let ghost name = bytes@.subrange(s.start as int, s.end as int);
    assert(is_color_function_name(name) <==> exists|k: int| 0 <= k < 10 && name == all[k]);
    let mut k: usize = 0;
    while k < names.len()
        invariant
            span_fits(s, bytes@.len() as int),
            name == bytes@.subrange(s.start as int, s.end as int),
            names@.len() == 10,
            all.len() == 10,
            is_color_function_name(name) <==> exists|x: int| 0 <= x < 10 && name == all[x],
            forall|x: int| 0 <= x < 10 ==> names@[x]@ == all[x],
            k <= 10,
            forall|x: int| 0 <= x < k ==> name != all[x],
        decreases 10 - k,
    {
        if span_equals(bytes, s, &names[k]) {
            assert(name == all[k as int]);
            return true;
        }
        k = k + 1;
    }
    false
}

/// The color that the color parser reads from `text`, when `text` is ASCII.
fn parse_ascii_color(text: &str) -> (r: Option<Color>)
    ensures
        r == ascii_parsed_color(text.spec_bytes()),
{
    let bytes = text.as_bytes();
    let mut i: usize = 0;
    while i < bytes.len()
        invariant
            bytes@ == text.spec_bytes(),
            i <= bytes@.len(),
            forall|j: int| 0 <= j < i ==> bytes@[j] < 0x80,
        decreases bytes@.len() - i,
    {
        if bytes[i] >= 0x80 {
            return None;
        }
        i = i + 1;
    }
    parse_color(text)
}

/// The color that node `n` of a tree over `text` denotes (see `node_color`).
fn color_of_node(text: &str, n: &SyntaxNodeInfo) -> (r: Option<Color>)
    requires
        crate::syntax::node_fits(*n, text.spec_bytes().len() as int),
    ensures
        r == node_color(text.spec_bytes(), *n),
{
    let bytes = text.as_bytes();
    let node_text = match text_of_span(text, n.span) {
        Some(s) => s,
        None => return None,
    };
    match n.kind {
        NodeKind::Function => match n.name {
            Some(name) => if names_color_function(bytes, name) {
                parse_ascii_color(node_text)
            } else {
                None
            },
            None => None,
        },
        NodeKind::Identifier => match lookup_named_color(node_text) {
            Some((r, g, b)) => Some(color_from_rgba8(r, g, b, 255)),
            None => None,
        },
        NodeKind::Color => parse_ascii_color(node_text),
        NodeKind::Other => None,
    }
}

/// The colors of the nodes of `tree`, a tree over `text`, in pre-order, each with the range
/// of its node under `enc`.
pub fn find_document_colors(
    tree: &SyntaxTree,
    text: &str,
    index: &LineIndex,
    enc: PositionEncoding,
) -> (r: Vec<ColorInformation>)
    requires
        tree.fits(text.spec_bytes().len() as int),
        index.indexes(text.spec_bytes()),
    ensures
        r@ == document_colors_of(text.spec_bytes(), tree.nodes@, enc),
{
    let ghost t = text.spec_bytes();
    let mut colors: Vec<ColorInformation> = Vec::new();
    let mut i: usize = 0;
    assert(tree.nodes@.take(0) =~= Seq::<SyntaxNodeInfo>::empty());
    while i < tree.nodes.len()
        invariant
            t == text.spec_bytes(),
            tree.fits(t.len() as int),
            index.indexes(t),
            i <= tree.nodes@.len(),
            colors@ == document_colors_of(t, tree.nodes@.take(i as int), enc),
        decreases tree.nodes@.len() - i,
    {
        let n = &tree.nodes[i];
        assert(tree.nodes@.take(i + 1).drop_last() =~= tree.nodes@.take(i as int));
        assert(crate::syntax::node_fits(tree.nodes@[i as int], t.len() as int));
        match color_of_node(text, n) {
            Some(color) => match index.range(text, n.span.start, n.span.end, enc) {
                Some(range) => colors.push(ColorInformation { color, range }),
                None => {},
            },
            None => {},
        }
        i = i + 1;
    }
    assert(tree.nodes@.take(i as int) =~= tree.nodes@);
    colors
}

/// Whether a node of a tree over `t` gives a color entry under `enc`.
pub open spec fn bears_color(t: Seq<u8>, enc: PositionEncoding) -> spec_fn(SyntaxNodeInfo) -> bool {
    |n: SyntaxNodeInfo| color_entry(t, n, enc).is_some()
}

/// The color entry of a node of a tree over `t` under `enc`.
pub open spec fn entry_of(t: Seq<u8>, enc: PositionEncoding) -> spec_fn(SyntaxNodeInfo) -> ColorInformation {
    |n: SyntaxNodeInfo| color_entry(t, n, enc).unwrap()
}

/// The colors of a document are one entry for each node that bears a color, in the order of
/// the nodes, and nothing else: N such nodes give exactly N entries.
pub proof fn lemma_one_color_per_node(t: Seq<u8>, nodes: Seq<SyntaxNodeInfo>, enc: PositionEncoding)
    ensures
        document_colors_of(t, nodes, enc) == nodes.filter(bears_color(t, enc)).map_values(
            entry_of(t, enc),
        ),
        document_colors_of(t, nodes, enc).len() == nodes.filter(bears_color(t, enc)).len(),
    decreases nodes.len(),
{
    reveal(Seq::filter);
    let f = bears_color(t, enc);
    let g = entry_of(t, enc);
    if nodes.len() == 0 {
        assert(nodes.filter(f).map_values(g) =~= Seq::<ColorInformation>::empty());
    } else {
        lemma_one_color_per_node(t, nodes.drop_last(), enc);
        if f(nodes.last()) {
            assert(nodes.filter(f) == nodes.drop_last().filter(f).push(nodes.last()));
        } else {
            assert(nodes.filter(f) == nodes.drop_last().filter(f));
        }
        assert(document_colors_of(t, nodes, enc) =~= nodes.filter(f).map_values(g));
    }
}

} // verus!
