use chart_tree::backend::{Error, VTagWrapper};
use chart_tree::style::{FontStyle, FontTransform, HPos, Rgba, ShapeStyle, TextStyle, VPos};
use chart_tree::tree::NodeKind;

fn attrs(w: &VTagWrapper, i: usize) -> Vec<(&str, &str)> {
    w.tree.nodes[i].attributes.iter().map(|(k, v)| (k.as_str(), v.as_str())).collect()
}

fn red(alpha: u16) -> Rgba {
    Rgba { r: 255, g: 0, b: 0, alpha }
}

fn style(alpha: u16) -> ShapeStyle {
    ShapeStyle { color: red(alpha), stroke_width: 2 }
}

fn text_style(alpha: u16, style: FontStyle, transform: FontTransform) -> TextStyle {
    TextStyle {
        family: "sans-serif".to_string(),
        size: 1600,
        style,
        transform,
        color: red(alpha),
        h_pos: HPos::Center,
        v_pos: VPos::Top,
    }
}

#[test]
fn new_drawing_has_sized_root() {
    let w = VTagWrapper::new(1024, 768);
    assert_eq!(w.get_size(), (1024, 768));
    assert_eq!(w.tree.nodes.len(), 1);
    assert_eq!(
        attrs(&w, 0),
        vec![("width", "1024"), ("height", "768"), ("viewBox", "0 0 1024 768"), ("fill", "#ffffff")]
    );
}

#[test]
fn transparent_pixel_adds_nothing() {
    let mut w = VTagWrapper::new(10, 10);
    assert!(w.draw_pixel((1, 2), red(0)).is_ok());
    assert_eq!(w.tree.nodes.len(), 1);
    assert!(w.tree.nodes[0].children.is_empty());
    assert!(w.draw_pixel((1, 2), red(500)).is_ok());
    assert_eq!(w.tree.nodes[0].children, vec![1]);
    assert_eq!(
        attrs(&w, 1),
        vec![("x", "1"), ("y", "2"), ("width", "1"), ("height", "1"), ("stroke", "none"), ("opacity", "0.5"), ("fill", "#FF0000")]
    );
}

#[test]
fn transparent_path_and_text_add_nothing() {
    let mut w = VTagWrapper::new(10, 10);
    assert!(w.draw_path(&vec![(0, 0), (1, 1)], &style(0)).is_ok());
    assert!(w.draw_text("t", &text_style(0, FontStyle::Normal, FontTransform::Upright), (0, 0)).is_ok());
    assert_eq!(w.tree.nodes.len(), 1);
    assert!(w.draw_path(&vec![(0, 0), (1, 1)], &style(1000)).is_ok());
    assert!(w.draw_text("t", &text_style(1000, FontStyle::Normal, FontTransform::Upright), (0, 0)).is_ok());
    assert_eq!(w.tree.nodes[0].children.len(), 2);
}

#[test]
fn rect_fill_and_stroke_swap() {
    let mut w = VTagWrapper::new(10, 10);
    w.draw_rect((1, 2), (4, 8), &style(1000), true).unwrap();
    w.draw_rect((4, 8), (1, 2), &style(1000), false).unwrap();
    assert_eq!(
        attrs(&w, 1),
        vec![("x", "1"), ("y", "2"), ("width", "3"), ("height", "6"), ("opacity", "1"), ("fill", "#FF0000"), ("stroke", "none")]
    );
    assert_eq!(
        attrs(&w, 2),
        vec![("x", "4"), ("y", "8"), ("width", "-3"), ("height", "-6"), ("opacity", "1"), ("fill", "none"), ("stroke", "#FF0000")]
    );
}

#[test]
fn circle_fill_and_stroke_swap() {
    let mut w = VTagWrapper::new(10, 10);
    w.draw_circle((3, 4), 5, &style(1000), true).unwrap();
    w.draw_circle((3, 4), 5, &style(1000), false).unwrap();
    assert_eq!(
        attrs(&w, 1),
        vec![("cx", "3"), ("cy", "4"), ("r", "5"), ("stroke", "none"), ("fill", "#FF0000"), ("opacity", "1")]
    );
    assert_eq!(
        attrs(&w, 2),
        vec![("cx", "3"), ("cy", "4"), ("r", "5"), ("stroke", "#FF0000"), ("fill", "none"), ("opacity", "1")]
    );
}

#[test]
fn empty_path_is_an_error() {
    let mut w = VTagWrapper::new(10, 10);
    assert!(matches!(w.draw_path(&vec![], &style(1000)), Err(Error::NotEnoughPoints)));
    assert_eq!(w.tree.nodes.len(), 1);
}

#[test]
fn path_moves_then_draws_lines() {
    let mut w = VTagWrapper::new(10, 10);
    w.draw_path(&vec![(1, 2), (3, -4), (5, 6)], &style(250)).unwrap();
    w.draw_path(&vec![(7, 8)], &style(250)).unwrap();
    assert_eq!(
        attrs(&w, 1),
        vec![("d", "M1,2 L3,-4 L5,6"), ("fill", "none"), ("opacity", "0.25"), ("stroke", "#FF0000"), ("stroke-width", "2")]
    );
    assert_eq!(attrs(&w, 2)[0], ("d", "M7,8 "));
}

#[test]
fn line_keeps_first_vertical() {
    let mut w = VTagWrapper::new(10, 10);
    w.draw_line((1, 2), (3, 4), &style(1000)).unwrap();
    assert_eq!(
        attrs(&w, 1),
        vec![("opacity", "1"), ("stroke", "#FF0000"), ("stroke-width", "2"), ("x1", "1"), ("y1", "2"), ("x2", "3"), ("y2", "2")]
    );
}

#[test]
fn polygon_lists_points() {
    let mut w = VTagWrapper::new(10, 10);
    w.fill_polygon(&vec![(0, 0), (10, 0), (5, -5)], &style(1000)).unwrap();
    assert_eq!(attrs(&w, 1), vec![("points", "0,0 10,0 5,-5"), ("opacity", "1"), ("fill", "#FF0000")]);
}

#[test]
fn text_attributes() {
    let mut w = VTagWrapper::new(10, 10);
    w.draw_text("label", &text_style(1000, FontStyle::Bold, FontTransform::Rotate90), (3, 4)).unwrap();
    assert_eq!(w.tree.nodes[0].children, vec![1]);
    assert_eq!(w.tree.nodes[1].children, vec![2]);
    assert_eq!(w.tree.nodes[2].kind, NodeKind::Text);
    assert_eq!(w.tree.nodes[2].name, "label");
    assert_eq!(
        attrs(&w, 1),
        vec![
            ("x", "3"),
            ("y", "4"),
            ("dy", "0.76em"),
            ("text-anchor", "middle"),
            ("font-family", "sans-serif"),
            ("font-size", "12.90"),
            ("opacity", "1"),
            ("fill", "#FF0000"),
            ("font-weight", "bold"),
            ("font-style", "normal"),
            ("transform", "rotate(90, 3, 4)"),
        ]
    );
    w.draw_text("x", &text_style(1000, FontStyle::Italic, FontTransform::Upright), (0, 0)).unwrap();
    let a = attrs(&w, 3);
    assert_eq!(a[8], ("font-weight", "normal"));
    assert_eq!(a[9], ("font-style", "italic"));
    assert_eq!(a.len(), 10);
    assert!(a.iter().all(|(k, _)| *k != "transform"));
}

#[test]
fn bitmap_round_trips() {
    let mut w = VTagWrapper::new(10, 10);
    let src: Vec<u8> = vec![10, 20, 30, 10, 20, 30, 10, 20, 30, 10, 20, 30];
    w.blit_bitmap((5, 6), (2, 2), &src).unwrap();
    assert_eq!(w.tree.nodes[0].children, vec![1]);
    let a = attrs(&w, 1);
    assert_eq!(a[0], ("x", "5"));
    assert_eq!(a[1], ("y", "6"));
    let payload = a[2].1.strip_prefix("data:image/png;base64,").unwrap();
    let bytes = base64::decode(payload).unwrap();
    let decoder = png::Decoder::new(&bytes[..]);
    let (info, mut reader) = decoder.read_info().unwrap();
    assert_eq!((info.width, info.height), (2, 2));
    let mut buf = vec![0; info.buffer_size()];
    reader.next_frame(&mut buf).unwrap();
    assert_eq!(buf, src);
}

#[test]
fn bad_bitmap_is_an_encoder_error() {
    let mut w = VTagWrapper::new(10, 10);
    assert!(matches!(w.blit_bitmap((0, 0), (2, 2), &[1, 2, 3]), Err(Error::PngError(_))));
    assert!(matches!(w.blit_bitmap((0, 0), (0, 1), &[]), Err(Error::PngError(_))));
    assert_eq!(w.tree.nodes.len(), 1);
}

#[test]
fn prepare_and_present_do_nothing() {
    let mut w = VTagWrapper::new(10, 10);
    assert!(w.ensure_prepared().is_ok());
    assert!(w.present().is_ok());
    assert_eq!(w.tree.nodes.len(), 1);
}
