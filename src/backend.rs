//! A drawing backend that appends one child of the root per primitive drawn.

use vstd::prelude::*;
use crate::text::{int_text, color_text, push_int, make_svg_color, int_string};
use crate::tree::{Attrs, Node, NodeKind, NodeView, Tree, attrs_view};
use crate::markup::{adopt, element_view};
use crate::style::{
    Rgba, ShapeStyle, TextStyle, HPos, VPos, FontStyle, FontTransform, opacity_text, opacity_string,
    font_size_text, font_size_string,
};

verus! {

/// The png encoder's error, carried through unread.
#[verifier::external_type_specification]
#[verifier::external_body]
pub struct ExEncodingError(png::EncodingError);

/// Why a primitive could not be drawn.
#[derive(Debug)]
pub enum Error {
    Unknown,
    /// A path with no points.
    NotEnoughPoints,
    /// The image encoder refused the bitmap.
    PngError(png::EncodingError),
}

/// `x,y` of a point.
pub open spec fn point_text(p: (i32, i32)) -> Seq<char> {
    int_text(p.0 as int) + ","@ + int_text(p.1 as int)
}

/// A point of a path or polygon, with the line-to letter or without.
pub open spec fn segment_text(p: (i32, i32), line_to: bool) -> Seq<char> {
    if line_to {
        "L"@ + point_text(p)
    } else {
        point_text(p)
    }
}

/// The texts of `ps` separated by single spaces.
pub open spec fn joined(ps: Seq<(i32, i32)>, line_to: bool) -> Seq<char>
    decreases ps.len(),
{
    if ps.len() == 0 {
        Seq::empty()
    } else if ps.len() == 1 {
        segment_text(ps[0], line_to)
    } else {
        joined(ps.drop_last(), line_to) + " "@ + segment_text(ps.last(), line_to)
    }
}

/// Path descriptor: a move-to the first point, a space, then line-to each later point.
pub open spec fn path_text(ps: Seq<(i32, i32)>) -> Seq<char> {
    "M"@ + point_text(ps[0]) + " "@ + joined(ps.drop_first(), true)
}

/// `nodes` with `n` added as the last child of the root.
pub open spec fn appended(nodes: Seq<NodeView>, n: NodeView) -> Seq<NodeView> {
    adopt(nodes.push(n), 0, nodes.len() as usize)
}

/// Appends an attribute.
fn push_attr(a: &mut Vec<(String, String)>, k: &str, v: String)
    ensures
        attrs_view(final(a)@) == attrs_view(old(a)@).push((k@, v@)),
{
    a.push((String::from_str(k), v));
    assert(attrs_view(a@) =~= attrs_view(old(a)@).push((k@, v@)));
}

fn lit(s: &str) -> (r: String)
    ensures
        r@ == s@,
{
    String::from_str(s)
}

/// Appends the text of a point.
fn push_point(s: &mut String, p: (i32, i32))
    ensures
        final(s)@ == old(s)@ + point_text(p),
{
    push_int(s, p.0 as i64);
    s.append(",");
    push_int(s, p.1 as i64);
    assert(final(s)@ =~= old(s)@ + point_text(p));
}

/// Appends the points of `ps` from `start` on, separated by spaces.
fn push_joined(s: &mut String, ps: &Vec<(i32, i32)>, start: usize, line_to: bool)
    requires
        start <= ps@.len(),
    ensures
        final(s)@ == old(s)@ + joined(ps@.skip(start as int), line_to),
{
    let ghost tail = ps@.skip(start as int);
    let mut i: usize = start;
    while i < ps.len()
        invariant
            start <= i <= ps@.len(),
            tail == ps@.skip(start as int),
            s@ == old(s)@ + joined(tail.take(i - start), line_to),
        decreases ps@.len() - i,
    {
        let ghost before = s@;
        if i > start {
            s.append(" ");
        }
        if line_to {
            s.append("L");
        }
        push_point(s, ps[i]);
        proof {
            let t = tail.take(i - start + 1);
            assert(t.drop_last() =~= tail.take(i - start));
            assert(t.last() == ps@[i as int]);
            if i == start {
                assert(joined(tail.take(0), line_to) =~= Seq::<char>::empty());
            }
            assert(s@ =~= old(s)@ + joined(t, line_to));
        }
        i = i + 1;
    }
    assert(tail.take(i - start) =~= tail);
}

pub open spec fn pixel_node(p: (i32, i32), c: Rgba) -> NodeView {
    element_view(
        "rect"@,
        seq![
            ("x"@, int_text(p.0 as int)),
            ("y"@, int_text(p.1 as int)),
            ("width"@, "1"@),
            ("height"@, "1"@),
            ("stroke"@, "none"@),
            ("opacity"@, opacity_text(c.alpha as nat)),
            ("fill"@, color_text(c.r, c.g, c.b)),
        ],
        false,
    )
}

/// A line from `from` to `to`. The second end keeps the vertical coordinate of
/// the first, so every line drawn is horizontal.
pub open spec fn line_node(from: (i32, i32), to: (i32, i32), s: ShapeStyle) -> NodeView {
    element_view(
        "line"@,
        seq![
            ("opacity"@, opacity_text(s.color.alpha as nat)),
            ("stroke"@, color_text(s.color.r, s.color.g, s.color.b)),
            ("stroke-width"@, int_text(s.stroke_width as int)),
            ("x1"@, int_text(from.0 as int)),
            ("y1"@, int_text(from.1 as int)),
            ("x2"@, int_text(to.0 as int)),
            ("y2"@, int_text(from.1 as int)),
        ],
        false,
    )
}

/// The fill and stroke values: the color goes to one, `none` to the other.
pub open spec fn paint(s: ShapeStyle, fill: bool) -> (Seq<char>, Seq<char>) {
    if fill {
        (color_text(s.color.r, s.color.g, s.color.b), "none"@)
    } else {
        ("none"@, color_text(s.color.r, s.color.g, s.color.b))
    }
}

pub open spec fn rect_node(ul: (i32, i32), br: (i32, i32), s: ShapeStyle, fill: bool) -> NodeView {
    element_view(
        "rect"@,
        seq![
            ("x"@, int_text(ul.0 as int)),
            ("y"@, int_text(ul.1 as int)),
            ("width"@, int_text(br.0 - ul.0)),
            ("height"@, int_text(br.1 - ul.1)),
            ("opacity"@, opacity_text(s.color.alpha as nat)),
            ("fill"@, paint(s, fill).0),
            ("stroke"@, paint(s, fill).1),
        ],
        false,
    )
}

pub open spec fn path_node(ps: Seq<(i32, i32)>, s: ShapeStyle) -> NodeView {
    element_view(
        "path"@,
        seq![
            ("d"@, path_text(ps)),
            ("fill"@, "none"@),
            ("opacity"@, opacity_text(s.color.alpha as nat)),
            ("stroke"@, color_text(s.color.r, s.color.g, s.color.b)),
            ("stroke-width"@, int_text(s.stroke_width as int)),
        ],
        false,
    )
}

pub open spec fn circle_node(center: (i32, i32), radius: u32, s: ShapeStyle, fill: bool) -> NodeView {
    element_view(
        "circle"@,
        seq![
            ("cx"@, int_text(center.0 as int)),
            ("cy"@, int_text(center.1 as int)),
            ("r"@, int_text(radius as int)),
            ("stroke"@, paint(s, fill).1),
            ("fill"@, paint(s, fill).0),
            ("opacity"@, opacity_text(s.color.alpha as nat)),
        ],
        false,
    )
}

pub open spec fn polygon_node(ps: Seq<(i32, i32)>, s: ShapeStyle) -> NodeView {
    element_view(
        "polygon"@,
        seq![
            ("points"@, joined(ps, false)),
            ("opacity"@, opacity_text(s.color.alpha as nat)),
            ("fill"@, color_text(s.color.r, s.color.g, s.color.b)),
        ],
        false,
    )
}

/// The drawing target: a tree whose root, node 0, receives one child per primitive.
pub struct VTagWrapper {
    pub tree: Tree,
    pub width: u32,
    pub height: u32,
}

/// The root of a drawing of the given size, on a white background.
pub open spec fn drawing_root(width: u32, height: u32) -> NodeView {
    element_view(
        "svg"@,
        seq![
            ("width"@, int_text(width as int)),
            ("height"@, int_text(height as int)),
            ("viewBox"@, "0 0 "@ + int_text(width as int) + " "@ + int_text(height as int)),
            ("fill"@, "#ffffff"@),
        ],
        false,
    )
}

impl VTagWrapper {
    pub open spec fn wf(&self) -> bool {
        self.tree@.len() > 0
    }

    /// A drawing of the given size, with nothing drawn yet.
    pub fn new(width: u32, height: u32) -> (r: VTagWrapper)
        ensures
            r.wf(),
            r.tree@ == seq![drawing_root(width, height)],
            r.width == width,
            r.height == height,
    {
        let mut vb = lit("0 0 ");
        push_int(&mut vb, width as i64);
        vb.append(" ");
        push_int(&mut vb, height as i64);
        let mut a: Vec<(String, String)> = Vec::new();
        let mut w = String::new();
        push_int(&mut w, width as i64);
        let mut h = String::new();
        push_int(&mut h, height as i64);
        push_attr(&mut a, "width", w);
        push_attr(&mut a, "height", h);
        push_attr(&mut a, "viewBox", vb);
        push_attr(&mut a, "fill", lit("#ffffff"));
        let root = Node { kind: NodeKind::Element, name: lit("svg"), attributes: a, children: Vec::new(), hover: false };
        let mut tree = Tree { nodes: Vec::new() };
        tree.add(root);
        assert(attrs_view(a@) =~= drawing_root(width, height).attributes);
        assert(tree@ =~= seq![drawing_root(width, height)]);
        VTagWrapper { tree, width, height }
    }

    pub fn get_size(&self) -> (r: (u32, u32))
        ensures
            r == (self.width, self.height),
    {
        (self.width, self.height)
    }

    /// Nothing needs preparing: the tree is always ready.
    pub fn ensure_prepared(&mut self) -> (r: Result<(), Error>)
        ensures
            r is Ok,
            final(self).tree@ == old(self).tree@,
            final(self).width == old(self).width,
            final(self).height == old(self).height,
    {
        Ok(())
    }

    /// Nothing needs flushing: each primitive is in the tree once drawn.
    pub fn present(&mut self) -> (r: Result<(), Error>)
        ensures
            r is Ok,
            final(self).tree@ == old(self).tree@,
            final(self).width == old(self).width,
            final(self).height == old(self).height,
    {
        Ok(())
    }

    /// Adds `node` as the last child of the root.
    fn append(&mut self, node: Node)
        requires
            old(self).wf(),
        ensures
            final(self).wf(),
            final(self).tree@ == appended(old(self).tree@, node@),
            final(self).width == old(self).width,
            final(self).height == old(self).height,
    {
        let idx = self.tree.add(node);
        self.tree.adopt(0, idx);
    }
}

fn element(tag: &str, attributes: Vec<(String, String)>) -> (r: Node)
    ensures
        r@ == element_view(tag@, attrs_view(attributes@), false),
{
    let r = Node { kind: NodeKind::Element, name: lit(tag), attributes, children: Vec::new(), hover: false };
    assert(r@.children =~= Seq::<usize>::empty());
    r
}


fn paint_strings(s: &ShapeStyle, fill: bool) -> (r: (String, String))
    ensures
        (r.0@, r.1@) == paint(*s, fill),
{
    let c = make_svg_color(s.color.r, s.color.g, s.color.b);
    if fill {
        (c, lit("none"))
    } else {
        (lit("none"), c)
    }
}

impl VTagWrapper {
    /// A one-unit square at the point, unless the color is fully transparent.
    pub fn draw_pixel(&mut self, point: (i32, i32), color: Rgba) -> (r: Result<(), Error>)
        requires
            old(self).wf(),
        ensures
            r is Ok,
            final(self).wf(),
            final(self).width == old(self).width && final(self).height == old(self).height,
            color.alpha == 0 ==> final(self).tree@ == old(self).tree@,
            color.alpha != 0 ==> final(self).tree@ == appended(old(self).tree@, pixel_node(point, color)),
    {
        if color.alpha == 0 {
            return Ok(());
        }
        let mut a: Vec<(String, String)> = Vec::new();
        push_attr(&mut a, "x", int_string(point.0 as i64));
        push_attr(&mut a, "y", int_string(point.1 as i64));
        push_attr(&mut a, "width", lit("1"));
        push_attr(&mut a, "height", lit("1"));
        push_attr(&mut a, "stroke", lit("none"));
        push_attr(&mut a, "opacity", opacity_string(color.alpha));
        push_attr(&mut a, "fill", make_svg_color(color.r, color.g, color.b));
        assert(attrs_view(a@) =~= pixel_node(point, color).attributes);
        let n = element("rect", a);
        self.append(n);
        Ok(())
    }

    /// A line segment. The second end takes its vertical coordinate from the
    /// first point, so every line drawn is horizontal.
    pub fn draw_line(&mut self, from: (i32, i32), to: (i32, i32), style: &ShapeStyle) -> (r: Result<(), Error>)
        requires
            old(self).wf(),
        ensures
            r is Ok,
            final(self).wf(),
            final(self).width == old(self).width && final(self).height == old(self).height,
            final(self).tree@ == appended(old(self).tree@, line_node(from, to, *style)),
    {
        let mut a: Vec<(String, String)> = Vec::new();
        push_attr(&mut a, "opacity", opacity_string(style.color.alpha));
        push_attr(&mut a, "stroke", make_svg_color(style.color.r, style.color.g, style.color.b));
        push_attr(&mut a, "stroke-width", int_string(style.stroke_width as i64));
        push_attr(&mut a, "x1", int_string(from.0 as i64));
        push_attr(&mut a, "y1", int_string(from.1 as i64));
        push_attr(&mut a, "x2", int_string(to.0 as i64));
        push_attr(&mut a, "y2", int_string(from.1 as i64));
        assert(attrs_view(a@) =~= line_node(from, to, *style).attributes);
        let n = element("line", a);
        self.append(n);
        Ok(())
    }

    /// A rectangle between two corners, filled or outlined in the style's color.
    /// Width and height are the second corner minus the first, and may be negative.
    pub fn draw_rect(&mut self, upper_left: (i32, i32), bottom_right: (i32, i32), style: &ShapeStyle, fill: bool) -> (r: Result<(), Error>)
        requires
            old(self).wf(),
        ensures
            r is Ok,
            final(self).wf(),
            final(self).width == old(self).width && final(self).height == old(self).height,
            final(self).tree@ == appended(old(self).tree@, rect_node(upper_left, bottom_right, *style, fill)),
    {
        let width = bottom_right.0 as i64 - upper_left.0 as i64;
        let height = bottom_right.1 as i64 - upper_left.1 as i64;
        let (f, s) = paint_strings(style, fill);
        let mut a: Vec<(String, String)> = Vec::new();
        push_attr(&mut a, "x", int_string(upper_left.0 as i64));
        push_attr(&mut a, "y", int_string(upper_left.1 as i64));
        push_attr(&mut a, "width", int_string(width));
        push_attr(&mut a, "height", int_string(height));
        push_attr(&mut a, "opacity", opacity_string(style.color.alpha));
        push_attr(&mut a, "fill", f);
        push_attr(&mut a, "stroke", s);
        assert(attrs_view(a@) =~= rect_node(upper_left, bottom_right, *style, fill).attributes);
        let n = element("rect", a);
        self.append(n);
        Ok(())
    }

    /// A stroked path through the points, unless the color is fully transparent.
    /// A visible path needs at least one point.
    pub fn draw_path(&mut self, path: &Vec<(i32, i32)>, style: &ShapeStyle) -> (r: Result<(), Error>)
        requires
            old(self).wf(),
        ensures
            final(self).wf(),
            final(self).width == old(self).width && final(self).height == old(self).height,
            r is Err <==> (style.color.alpha != 0 && path@.len() == 0),
            r is Err ==> r->Err_0 is NotEnoughPoints,
            r is Err || style.color.alpha == 0 ==> final(self).tree@ == old(self).tree@,
            r is Ok && style.color.alpha != 0 ==> final(self).tree@ == appended(old(self).tree@, path_node(path@, *style)),
    {
        if style.color.alpha == 0 {
            return Ok(());
        }
        if path.len() == 0 {
            return Err(Error::NotEnoughPoints);
        }
        let mut d = lit("M");
        push_point(&mut d, path[0]);
        d.append(" ");
        push_joined(&mut d, path, 1, true);
        assert(path@.skip(1) =~= path@.drop_first());
        let mut a: Vec<(String, String)> = Vec::new();
        push_attr(&mut a, "d", d);
        push_attr(&mut a, "fill", lit("none"));
        push_attr(&mut a, "opacity", opacity_string(style.color.alpha));
        push_attr(&mut a, "stroke", make_svg_color(style.color.r, style.color.g, style.color.b));
        push_attr(&mut a, "stroke-width", int_string(style.stroke_width as i64));
        assert(attrs_view(a@) =~= path_node(path@, *style).attributes);
        let n = element("path", a);
        self.append(n);
        Ok(())
    }

    /// A circle, filled or outlined in the style's color.
    pub fn draw_circle(&mut self, center: (i32, i32), radius: u32, style: &ShapeStyle, fill: bool) -> (r: Result<(), Error>)
        requires
            old(self).wf(),
        ensures
            r is Ok,
            final(self).wf(),
            final(self).width == old(self).width && final(self).height == old(self).height,
            final(self).tree@ == appended(old(self).tree@, circle_node(center, radius, *style, fill)),
    {
        let (f, s) = paint_strings(style, fill);
        let mut a: Vec<(String, String)> = Vec::new();
        push_attr(&mut a, "cx", int_string(center.0 as i64));
        push_attr(&mut a, "cy", int_string(center.1 as i64));
        push_attr(&mut a, "r", int_string(radius as i64));
        push_attr(&mut a, "stroke", s);
        push_attr(&mut a, "fill", f);
        push_attr(&mut a, "opacity", opacity_string(style.color.alpha));
        assert(attrs_view(a@) =~= circle_node(center, radius, *style, fill).attributes);
        let n = element("circle", a);
        self.append(n);
        Ok(())
    }

    /// A polygon through the vertices, always filled.
    pub fn fill_polygon(&mut self, vert: &Vec<(i32, i32)>, style: &ShapeStyle) -> (r: Result<(), Error>)
        requires
            old(self).wf(),
        ensures
            r is Ok,
            final(self).wf(),
            final(self).width == old(self).width && final(self).height == old(self).height,
            final(self).tree@ == appended(old(self).tree@, polygon_node(vert@, *style)),
    {
        let mut points = String::new();
        push_joined(&mut points, vert, 0, false);
        assert(vert@.skip(0) =~= vert@);
        assert(points@ =~= joined(vert@, false));
        let mut a: Vec<(String, String)> = Vec::new();
        push_attr(&mut a, "points", points);
        push_attr(&mut a, "opacity", opacity_string(style.color.alpha));
        push_attr(&mut a, "fill", make_svg_color(style.color.r, style.color.g, style.color.b));
        assert(attrs_view(a@) =~= polygon_node(vert@, *style).attributes);
        let n = element("polygon", a);
        self.append(n);
        Ok(())
    }
}


pub open spec fn anchor_text(h: HPos) -> Seq<char> {
    match h {
        HPos::Left => "start"@,
        HPos::Right => "end"@,
        HPos::Center => "middle"@,
    }
}

/// Baseline shift that puts the anchor at the top, middle or bottom of the text.
pub open spec fn dy_text(v: VPos) -> Seq<char> {
    match v {
        VPos::Top => "0.76em"@,
        VPos::Center => "0.5ex"@,
        VPos::Bottom => "-0.5ex"@,
    }
}

pub open spec fn weight_text(s: FontStyle) -> Seq<char> {
    match s {
        FontStyle::Bold => "bold"@,
        _ => "normal"@,
    }
}

/// A bold text is upright; the other styles are named as they are.
pub open spec fn font_style_text(s: FontStyle) -> Seq<char> {
    match s {
        FontStyle::Normal => "normal"@,
        FontStyle::Oblique => "oblique"@,
        FontStyle::Italic => "italic"@,
        FontStyle::Bold => "normal"@,
    }
}

pub open spec fn rotation(angle: Seq<char>, p: (i32, i32)) -> Seq<char> {
    "rotate("@ + angle + ", "@ + int_text(p.0 as int) + ", "@ + int_text(p.1 as int) + ")"@
}

/// A rotation about the anchor point, or nothing for upright text.
pub open spec fn transform_text(t: FontTransform, p: (i32, i32)) -> Seq<char> {
    match t {
        FontTransform::Upright => Seq::empty(),
        FontTransform::Rotate90 => rotation("90"@, p),
        FontTransform::Rotate180 => rotation("180"@, p),
        FontTransform::Rotate270 => rotation("270"@, p),
    }
}

/// The text element; its one child, the text itself, is node `child`.
pub open spec fn text_node(s: TextStyle, family: Seq<char>, p: (i32, i32), child: usize) -> NodeView {
    NodeView { children: seq![child], ..element_view("text"@, text_attrs(s, family, p), false) }
}

/// The text element's attributes; a rotation comes last, and upright text has none.
pub open spec fn text_attrs(s: TextStyle, family: Seq<char>, p: (i32, i32)) -> Attrs {
    let base = seq![
        ("x"@, int_text(p.0 as int)),
        ("y"@, int_text(p.1 as int)),
        ("dy"@, dy_text(s.v_pos)),
        ("text-anchor"@, anchor_text(s.h_pos)),
        ("font-family"@, family),
        ("font-size"@, font_size_text(s.size as nat)),
        ("opacity"@, opacity_text(s.color.alpha as nat)),
        ("fill"@, color_text(s.color.r, s.color.g, s.color.b)),
        ("font-weight"@, weight_text(s.style)),
        ("font-style"@, font_style_text(s.style)),
    ];
    if s.transform is Upright {
        base
    } else {
        base.push(("transform"@, transform_text(s.transform, p)))
    }
}

pub open spec fn text_leaf(t: Seq<char>) -> NodeView {
    NodeView { kind: NodeKind::Text, name: t, attributes: Seq::empty(), children: Seq::empty(), hover: false }
}

/// `nodes` with a text element as the last child of the root, and its text after it.
pub open spec fn appended_text(nodes: Seq<NodeView>, t: Seq<char>, s: TextStyle, family: Seq<char>, p: (i32, i32)) -> Seq<NodeView> {
    adopt(nodes.push(text_node(s, family, p, (nodes.len() + 1) as usize)).push(text_leaf(t)), 0, nodes.len() as usize)
}

fn anchor_string(h: HPos) -> (r: String)
    ensures
        r@ == anchor_text(h),
{
    match h {
        HPos::Left => lit("start"),
        HPos::Right => lit("end"),
        HPos::Center => lit("middle"),
    }
}

fn dy_string(v: VPos) -> (r: String)
    ensures
        r@ == dy_text(v),
{
    match v {
        VPos::Top => lit("0.76em"),
        VPos::Center => lit("0.5ex"),
        VPos::Bottom => lit("-0.5ex"),
    }
}

fn weight_string(s: FontStyle) -> (r: String)
    ensures
        r@ == weight_text(s),
{
    match s {
        FontStyle::Bold => lit("bold"),
        _ => lit("normal"),
    }
}

fn font_style_string(s: FontStyle) -> (r: String)
    ensures
        r@ == font_style_text(s),
{
    match s {
        FontStyle::Normal => lit("normal"),
        FontStyle::Oblique => lit("oblique"),
        FontStyle::Italic => lit("italic"),
        FontStyle::Bold => lit("normal"),
    }
}

fn rotation_string(angle: &str, p: (i32, i32)) -> (r: String)
    ensures
        r@ == rotation(angle@, p),
{
    let mut s = lit("rotate(");
    s.append(angle);
    s.append(", ");
    push_int(&mut s, p.0 as i64);
    s.append(", ");
    push_int(&mut s, p.1 as i64);
    s.append(")");
    assert(s@ =~= rotation(angle@, p));
    s
}

fn transform_string(t: FontTransform, p: (i32, i32)) -> (r: String)
    ensures
        r@ == transform_text(t, p),
{
    match t {
        FontTransform::Upright => {
            let s = String::new();
            assert(s@ =~= Seq::<char>::empty());
            s
        },
        FontTransform::Rotate90 => rotation_string("90", p),
        FontTransform::Rotate180 => rotation_string("180", p),
        FontTransform::Rotate270 => rotation_string("270", p),
    }
}

impl VTagWrapper {
    /// A text at the position, unless its color is fully transparent.
    pub fn draw_text(&mut self, text: &str, style: &TextStyle, pos: (i32, i32)) -> (r: Result<(), Error>)
        requires
            old(self).wf(),
        ensures
            r is Ok,
            final(self).wf(),
            final(self).width == old(self).width && final(self).height == old(self).height,
            style.color.alpha == 0 ==> final(self).tree@ == old(self).tree@,
            style.color.alpha != 0 ==> final(self).tree@ == appended_text(old(self).tree@, text@, *style, style.family@, pos),
    {
        if style.color.alpha == 0 {
            return Ok(());
        }
        let mut a: Vec<(String, String)> = Vec::new();
        push_attr(&mut a, "x", int_string(pos.0 as i64));
        push_attr(&mut a, "y", int_string(pos.1 as i64));
        push_attr(&mut a, "dy", dy_string(style.v_pos));
        push_attr(&mut a, "text-anchor", anchor_string(style.h_pos));
        push_attr(&mut a, "font-family", style.family.clone());
        push_attr(&mut a, "font-size", font_size_string(style.size));
        push_attr(&mut a, "opacity", opacity_string(style.color.alpha));
        push_attr(&mut a, "fill", make_svg_color(style.color.r, style.color.g, style.color.b));
        push_attr(&mut a, "font-weight", weight_string(style.style));
        push_attr(&mut a, "font-style", font_style_string(style.style));
        if style.transform != FontTransform::Upright {
            push_attr(&mut a, "transform", transform_string(style.transform, pos));
        }
        let ghost at = (old(self).tree@.len() + 1) as usize;
        assert(attrs_view(a@) =~= text_node(*style, style.family@, pos, at).attributes);
        let n = element("text", a);
        let idx = self.tree.add(n);
        let leaf = Node { kind: NodeKind::Text, name: String::from_str(text), attributes: Vec::new(), children: Vec::new(), hover: false };
        assert(leaf@.attributes =~= Seq::empty());
        assert(leaf@.children =~= Seq::<usize>::empty());
        assert(leaf@ =~= text_leaf(text@));
        let child = self.tree.add(leaf);
        self.tree.adopt(idx, child);
        self.tree.adopt(0, idx);
        assert(self.tree@ =~= appended_text(old(self).tree@, text@, *style, style.family@, pos));
        Ok(())
    }
}


/// The bytes of the PNG file that the png crate writes for an 8-bit RGB image.
pub uninterp spec fn png_rgb8(width: u32, height: u32, data: Seq<u8>) -> Seq<u8>;

/// Relies on png::Encoder with `ColorType::RGB` and `BitDepth::Eight`, written
/// into memory: the header is refused for a zero width or height, and the image
/// data for a buffer other than three bytes per pixel; else the file's bytes.
/// The encoder sizes the image in `usize` without an overflow check, so the
/// pixel bytes must fit in one.
#[verifier::external_body]
fn encode_png(width: u32, height: u32, data: &[u8]) -> (r: Result<Vec<u8>, png::EncodingError>)
    requires
        3 * width * height <= usize::MAX,
    ensures
        r is Err <==> (width == 0 || height == 0 || data@.len() != 3 * width * height),
        r is Ok ==> r->Ok_0@ == png_rgb8(width, height, data@),
{
    let mut out = Vec::new();
    let mut e = png::Encoder::new(&mut out, width, height);
    e.set_color(png::ColorType::RGB);
    e.set_depth(png::BitDepth::Eight);
    e.write_header()?.write_image_data(data)?;
    Ok(out)
}

/// The standard base64 text of some bytes, with padding.
pub uninterp spec fn base64_of(data: Seq<u8>) -> Seq<char>;

/// Relies on base64::encode: the standard alphabet, padded.
#[verifier::external_body]
fn encode_base64(data: &Vec<u8>) -> (r: String)
    ensures
        r@ == base64_of(data@),
{
    base64::encode(data)
}

/// An image embedded as a data URI holding base64 PNG bytes.
pub open spec fn image_node(p: (i32, i32), encoded: Seq<char>) -> NodeView {
    element_view(
        "image"@,
        seq![
            ("x"@, int_text(p.0 as int)),
            ("y"@, int_text(p.1 as int)),
            ("href"@, "data:image/png;base64,"@ + encoded),
        ],
        false,
    )
}

/// Whether the png encoder accepts an RGB buffer of this size.
pub open spec fn bitmap_ok(size: (u32, u32), len: nat) -> bool {
    size.0 != 0 && size.1 != 0 && len == 3 * size.0 * size.1
}

impl VTagWrapper {
    /// Adds an image whose PNG bytes, in base64, are `encoded`.
    pub fn push_image(&mut self, pos: (i32, i32), encoded: &str)
        requires
            old(self).wf(),
        ensures
            final(self).wf(),
            final(self).width == old(self).width && final(self).height == old(self).height,
            final(self).tree@ == appended(old(self).tree@, image_node(pos, encoded@)),
    {
        let mut href = lit("data:image/png;base64,");
        href.append(encoded);
        let mut a: Vec<(String, String)> = Vec::new();
        push_attr(&mut a, "x", int_string(pos.0 as i64));
        push_attr(&mut a, "y", int_string(pos.1 as i64));
        push_attr(&mut a, "href", href);
        assert(attrs_view(a@) =~= image_node(pos, encoded@).attributes);
        let n = element("image", a);
        self.append(n);
    }

    /// An RGB bitmap of the given size at the position, encoded as PNG and
    /// embedded in base64. An encoder failure is handed back and nothing is drawn.
    /// The image's bytes must be countable in a `usize`.
    pub fn blit_bitmap(&mut self, pos: (i32, i32), size: (u32, u32), src: &[u8]) -> (r: Result<(), Error>)
        requires
            old(self).wf(),
            3 * size.0 * size.1 <= usize::MAX,
        ensures
            final(self).wf(),
            final(self).width == old(self).width && final(self).height == old(self).height,
            r is Ok <==> bitmap_ok(size, src@.len()),
            r is Err ==> r->Err_0 is PngError && final(self).tree@ == old(self).tree@,
            r is Ok ==> final(self).tree@ == appended(
                old(self).tree@,
                image_node(pos, base64_of(png_rgb8(size.0, size.1, src@))),
            ),
    {
        match encode_png(size.0, size.1, src) {
            Ok(bytes) => {
                let encoded = encode_base64(&bytes);
                self.push_image(pos, encoded.as_str());
                Ok(())
            },
            Err(e) => Err(Error::PngError(e)),
        }
    }
}


/// Drawing one visible primitive gives the root exactly one more child, the new
/// last node, and leaves every other node as it was.
pub proof fn lemma_appended_one_child(nodes: Seq<NodeView>, n: NodeView)
    requires
        nodes.len() > 0,
    ensures
        appended(nodes, n).len() == nodes.len() + 1,
        appended(nodes, n)[0].children == nodes[0].children.push(nodes.len() as usize),
        appended(nodes, n)[nodes.len() as int] == n,
        forall|j: int| 1 <= j < nodes.len() ==> #[trigger] appended(nodes, n)[j] == nodes[j],
{
}

/// A visible text gives the root exactly one more child, the text element, whose
/// one child holds the text.
pub proof fn lemma_appended_text_one_child(nodes: Seq<NodeView>, t: Seq<char>, s: TextStyle, family: Seq<char>, p: (i32, i32))
    requires
        nodes.len() > 0,
    ensures
        appended_text(nodes, t, s, family, p)[0].children == nodes[0].children.push(nodes.len() as usize),
        appended_text(nodes, t, s, family, p)[nodes.len() as int].children == seq![(nodes.len() + 1) as usize],
        appended_text(nodes, t, s, family, p)[nodes.len() + 1int] == text_leaf(t),
        forall|j: int| 1 <= j < nodes.len() ==> #[trigger] appended_text(nodes, t, s, family, p)[j] == nodes[j],
{
}

/// Fill and stroke never both carry the color: one is `none`, and toggling the
/// fill flag swaps them, the color held fixed.
pub proof fn lemma_paint_swaps(s: ShapeStyle)
    ensures
        paint(s, true) == (color_text(s.color.r, s.color.g, s.color.b), "none"@),
        paint(s, false) == ("none"@, color_text(s.color.r, s.color.g, s.color.b)),
        paint(s, true).0 == paint(s, false).1,
        paint(s, true).1 == paint(s, false).0,
        paint(s, true).0 != paint(s, true).1,
{
    reveal_strlit("none");
    assert(color_text(s.color.r, s.color.g, s.color.b)[0] == '#');
}


/// Texts separated by single spaces.
pub open spec fn spaced(parts: Seq<Seq<char>>) -> Seq<char>
    decreases parts.len(),
{
    if parts.len() == 0 {
        Seq::empty()
    } else if parts.len() == 1 {
        parts[0]
    } else {
        spaced(parts.drop_last()) + " "@ + parts.last()
    }
}

/// The line-to segments of points: `L` and the point, one per point.
pub open spec fn line_tos(ps: Seq<(i32, i32)>) -> Seq<Seq<char>> {
    ps.map_values(|p: (i32, i32)| "L"@ + point_text(p))
}

proof fn lemma_joined_spaced(ps: Seq<(i32, i32)>)
    ensures
        joined(ps, true) == spaced(line_tos(ps)),
    decreases ps.len(),
{
    if ps.len() > 1 {
        lemma_joined_spaced(ps.drop_last());
        assert(line_tos(ps.drop_last()) =~= line_tos(ps).drop_last());
    }
}

/// A path of N points is described by a move-to its first point, a space, and
/// the N - 1 line-to segments of the later points, in order, separated by spaces.
pub proof fn lemma_path_descriptor(ps: Seq<(i32, i32)>)
    requires
        ps.len() >= 1,
    ensures
        path_text(ps) == "M"@ + point_text(ps[0]) + " "@ + spaced(line_tos(ps.drop_first())),
        line_tos(ps.drop_first()).len() == ps.len() - 1,
        forall|k: int| 0 <= k < ps.len() - 1 ==> #[trigger] line_tos(ps.drop_first())[k] == "L"@ + point_text(ps[k + 1]),
{
    lemma_joined_spaced(ps.drop_first());
}

} // verus!
