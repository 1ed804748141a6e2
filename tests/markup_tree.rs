use chart_tree::chart::{ChartComponent, Msg, Props};
use chart_tree::markup::{build_tree, render_markup, BuildConfig, MarkupEvent, Severity, ShapeError};
use chart_tree::text::{compare_text, int_string, make_svg_color};
use chart_tree::tree::{sort_attributes, NodeKind, Tree};
use chart_tree::style::{font_size_string, opacity_string};

fn s(x: &str) -> String {
    x.to_string()
}

fn pairs(p: &[(&str, &str)]) -> Vec<(String, String)> {
    p.iter().map(|(k, v)| (s(k), s(v))).collect()
}

fn config(interactive: bool) -> BuildConfig {
    BuildConfig { width: 800, height: 600, min_x: 0, min_y: 0, interactive }
}

fn attr<'a>(t: &'a Tree, i: usize, k: &str) -> Option<&'a str> {
    t.nodes[i].attributes.iter().find(|(a, _)| a == k).map(|(_, v)| v.as_str())
}

#[test]
fn color_is_upper_hex() {
    assert_eq!(make_svg_color(10, 11, 255), "#0A0BFF");
    assert_eq!(make_svg_color(0, 0, 0), "#000000");
}

#[test]
fn integers_in_decimal() {
    assert_eq!(int_string(0), "0");
    assert_eq!(int_string(-42), "-42");
    assert_eq!(int_string(1234567), "1234567");
    assert_eq!(int_string(i64::MIN), "-9223372036854775808");
}

#[test]
fn text_order_is_lexicographic() {
    assert!(compare_text("a", "b") < 0);
    assert!(compare_text("ab", "a") > 0);
    assert_eq!(compare_text("class", "class"), 0);
    assert!(compare_text("", "x") < 0);
}

#[test]
fn opacity_notation() {
    assert_eq!(opacity_string(0), "0");
    assert_eq!(opacity_string(1000), "1");
    assert_eq!(opacity_string(500), "0.5");
    assert_eq!(opacity_string(250), "0.25");
    assert_eq!(opacity_string(123), "0.123");
    assert_eq!(opacity_string(5), "0.005");
}

#[test]
fn font_size_is_scaled() {
    assert_eq!(font_size_string(1600), "12.90");
    assert_eq!(font_size_string(12400), "100.00");
    assert_eq!(font_size_string(0), "0.00");
    assert_eq!(font_size_string(1550), "12.50");
}

#[test]
fn attributes_sorted_last_wins() {
    let r = sort_attributes(&pairs(&[("y", "1"), ("class", "a"), ("x", "2"), ("class", "b")]));
    assert_eq!(r, pairs(&[("class", "b"), ("x", "2"), ("y", "1")]));
}

#[test]
fn balanced_stream_builds_one_root() {
    let events = vec![
        MarkupEvent::Start(s("g"), pairs(&[("z", "1"), ("a", "2"), ("m", "3")])),
        MarkupEvent::Empty(s("circle"), pairs(&[("r", "5")])),
        MarkupEvent::Text(s("hello")),
        MarkupEvent::End,
    ];
    let t = build_tree(&events, &config(false)).unwrap().tree;
    assert_eq!(t.nodes.len(), 4);
    assert_eq!(t.nodes[0].name, "svg");
    assert_eq!(t.nodes[0].children, vec![1]);
    assert_eq!(t.nodes[1].name, "g");
    assert_eq!(t.nodes[1].attributes, pairs(&[("a", "2"), ("m", "3"), ("z", "1")]));
    assert_eq!(t.nodes[1].children, vec![2, 3]);
    assert_eq!(t.nodes[3].kind, NodeKind::Text);
    assert_eq!(t.nodes[3].name, "hello");
    assert_eq!(attr(&t, 0, "viewBox"), Some("0 0 800 600"));
    assert_eq!(attr(&t, 0, "width"), Some("100%"));
    assert_eq!(attr(&t, 0, "preserveAspectRatio"), Some("none"));
}

#[test]
fn view_box_uses_offset() {
    let c = BuildConfig { width: 10, height: 20, min_x: -5, min_y: 7, interactive: false };
    let t = build_tree(&vec![], &c).unwrap().tree;
    assert_eq!(attr(&t, 0, "viewBox"), Some("-5 7 10 20"));
}

#[test]
fn listener_needs_both_interactivity_and_marker() {
    for (interactive, class, expected) in [
        (true, "scatter-point", true),
        (true, "line", false),
        (false, "scatter-point", false),
        (false, "line", false),
    ] {
        let events = vec![MarkupEvent::Start(s("g"), pairs(&[("class", class)])), MarkupEvent::End];
        let t = build_tree(&events, &config(interactive)).unwrap().tree;
        assert_eq!(t.nodes[1].hover, expected);
    }
}

#[test]
fn diagnostics_leave_no_node() {
    let events = vec![
        MarkupEvent::Declaration,
        MarkupEvent::Start(s("g"), vec![]),
        MarkupEvent::Error(s("bad tag")),
        MarkupEvent::Comment,
        MarkupEvent::Instruction,
        MarkupEvent::End,
    ];
    let r = build_tree(&events, &config(false)).unwrap();
    let t = &r.tree;
    assert_eq!(t.nodes.len(), 2);
    assert_eq!(t.nodes[1].children.len(), 0);
    let d: Vec<(Severity, &str)> = r.diagnostics.iter().map(|d| (d.severity, d.message.as_str())).collect();
    assert_eq!(
        d,
        vec![
            (Severity::Info, "declaration"),
            (Severity::Error, "error parsing svg: bad tag"),
            (Severity::Info, "comment"),
            (Severity::Info, "instruction"),
        ]
    );
}

#[test]
fn clean_stream_has_no_diagnostics() {
    let events = vec![MarkupEvent::Start(s("g"), vec![]), MarkupEvent::End];
    assert!(build_tree(&events, &config(false)).unwrap().diagnostics.is_empty());
}

#[test]
fn parsed_comment_is_reported() {
    let r = render_markup("<svg><!-- note --><g/></svg>", &config(false)).unwrap();
    assert!(r.diagnostics.iter().any(|d| d.severity == Severity::Info && d.message == "comment"));
    assert!(r.tree.nodes.iter().all(|n| n.name != " note "));
}

#[test]
fn extra_end_is_a_shape_error() {
    let events = vec![MarkupEvent::Start(s("g"), vec![]), MarkupEvent::End, MarkupEvent::End];
    assert!(matches!(build_tree(&events, &config(false)), Err(ShapeError::UnmatchedEnd)));
}

#[test]
fn unclosed_element_is_a_shape_error() {
    let events = vec![MarkupEvent::Start(s("g"), vec![])];
    assert!(matches!(build_tree(&events, &config(false)), Err(ShapeError::Unclosed)));
}

#[test]
fn markup_text_is_parsed_and_built() {
    let markup = r#"<svg><g class="scatter-point" transform="translate(1,2)"><circle r="3"/></g><text>hi</text></svg>"#;
    let t = render_markup(markup, &config(true)).unwrap().tree;
    assert_eq!(t.nodes[0].children, vec![1]);
    assert_eq!(t.nodes[1].name, "svg");
    assert_eq!(t.nodes[2].name, "g");
    assert!(t.nodes[2].hover);
    assert_eq!(t.nodes[2].attributes, pairs(&[("class", "scatter-point"), ("transform", "translate(1,2)")]));
    assert_eq!(t.nodes[3].name, "circle");
    assert!(t.nodes.iter().any(|n| n.kind == NodeKind::Text && n.name == "hi"));
}

fn chart_markup(props: &Props) -> String {
    let mut doc = svg::Document::new().set("width", props.width).set("height", props.height);
    let mut line = svg::node::element::Group::new().set("class", "line");
    for (x, y) in &props.data {
        let point = svg::node::element::Group::new()
            .set("class", "scatter-point")
            .set("transform", format!("translate({},{})", x * 4, 600 - y * 6))
            .add(svg::node::element::Circle::new().set("cx", 0).set("cy", 0).set("r", 5));
        line = line.add(point);
    }
    doc = doc.add(line).add(svg::node::element::Text::new().add(svg::node::Text::new("Line Chart")));
    doc.to_string()
}

#[test]
fn line_chart_round_trip() {
    let props = Props {
        width: 800,
        height: 600,
        min_x: 0,
        min_y: 0,
        on_hover: true,
        data: vec![(12, 54), (100, 40), (120, 50), (180, 70)],
    };
    let markup = chart_markup(&props);
    let mut chart = ChartComponent::create(props, markup);
    assert!(chart.update(Msg::Nothing));
    let t = chart.view().unwrap().tree;
    assert_eq!(t.nodes[0].name, "svg");
    assert_eq!(attr(&t, 0, "width"), Some("100%"));
    assert_eq!(attr(&t, 0, "height"), Some("100%"));
    assert_eq!(attr(&t, 0, "viewBox"), Some("0 0 800 600"));
    let points = (1..t.nodes.len()).filter(|&i| attr(&t, i, "class") == Some("scatter-point")).count();
    assert!(points >= 4);
    assert!(t.nodes.iter().filter(|n| n.hover).count() >= 4);
    assert!(t.nodes.iter().filter(|n| n.name == "circle").count() >= 4);
}
