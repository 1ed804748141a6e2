//! Building a tree from a stream of markup events with a stack of open elements.

use vstd::prelude::*;
use svg::node::element::tag::Type;
use svg::parser::Event;
use crate::text::{compare_text, push_int, int_text};
use crate::tree::{Attrs, NodeKind, NodeView, Node, Tree, attrs_view, has_attr, sorted_attrs, sort_attributes, strictly_sorted, lemma_sorted_attrs_sorted, last_value, lemma_sorted_attrs_last_wins, lemma_sorted_same_entries};

verus! {

/// One event of a parsed markup document.
pub enum MarkupEvent {
    /// An opening tag with its attributes.
    Start(String, Vec<(String, String)>),
    /// A closing tag.
    End,
    /// A self-closing tag with its attributes.
    Empty(String, Vec<(String, String)>),
    Text(String),
    Comment,
    Declaration,
    Instruction,
    /// A fragment the parser could not read, with its message.
    Error(String),
}

/// Why a stream could not be built into a tree.
#[derive(Clone, Copy, Debug, PartialEq, Eq, Structural)]
pub enum ShapeError {
    /// A closing tag with no open element but the root.
    UnmatchedEnd,
    /// A node arrived with no open element to receive it.
    NoParent,
    /// The stream ended with elements still open.
    Unclosed,
}

/// How serious a diagnostic is.
#[derive(Clone, Copy, Debug, PartialEq, Eq, Structural)]
pub enum Severity {
    Info,
    Error,
}

/// A note about an event that made no node: a comment, a declaration, an
/// instruction, or a fragment the parser could not read.
#[derive(Debug)]
pub struct Diagnostic {
    pub severity: Severity,
    pub message: String,
}

/// A successful build: the tree, and the diagnostics met on the way, in stream order.
#[derive(Debug)]
pub struct Rendered {
    pub tree: Tree,
    pub diagnostics: Vec<Diagnostic>,
}

/// The diagnostic an event gives, if any.
pub open spec fn diagnostic_of(e: EventView) -> Option<(Severity, Seq<char>)> {
    match e {
        EventView::Comment => Some((Severity::Info, "comment"@)),
        EventView::Declaration => Some((Severity::Info, "declaration"@)),
        EventView::Instruction => Some((Severity::Info, "instruction"@)),
        EventView::Error(m) => Some((Severity::Error, "error parsing svg: "@ + m)),
        _ => None,
    }
}

/// The diagnostics of a stream, in order.
pub open spec fn diagnostics(evs: Seq<EventView>) -> Seq<(Severity, Seq<char>)>
    decreases evs.len(),
{
    if evs.len() == 0 {
        Seq::empty()
    } else {
        match diagnostic_of(evs.last()) {
            Some(d) => diagnostics(evs.drop_last()).push(d),
            None => diagnostics(evs.drop_last()),
        }
    }
}

pub open spec fn diagnostics_view(d: Seq<Diagnostic>) -> Seq<(Severity, Seq<char>)> {
    d.map_values(|x: Diagnostic| (x.severity, x.message@))
}

fn note(diags: &mut Vec<Diagnostic>, severity: Severity, message: String)
    ensures
        diagnostics_view(final(diags)@) == diagnostics_view(old(diags)@).push((severity, message@)),
{
    diags.push(Diagnostic { severity, message });
    assert(diagnostics_view(diags@) =~= diagnostics_view(old(diags)@).push((severity, message@)));
}

/// What the builder is asked for besides the events.
pub struct BuildConfig {
    pub width: isize,
    pub height: isize,
    pub min_x: isize,
    pub min_y: isize,
    /// Whether pointer-enter listeners are wanted at all.
    pub interactive: bool,
}

/// The nodes built so far, and the indices of the open elements, root first.
pub struct BuildState {
    pub nodes: Seq<NodeView>,
    pub stack: Seq<usize>,
}

pub open spec fn element_view(tag: Seq<char>, attributes: Attrs, hover: bool) -> NodeView {
    NodeView { kind: NodeKind::Element, name: tag, attributes, children: Seq::empty(), hover }
}

/// The class value that marks an element as a hover target.
pub open spec fn hover_class() -> Seq<char> {
    "scatter-point"@
}

pub open spec fn class_key() -> Seq<char> {
    "class"@
}

/// The node that an opening tag makes: attributes sorted by key, and a listener
/// exactly when one is wanted and the class is the marker.
pub open spec fn start_node(tag: Seq<char>, pairs: Attrs, interactive: bool) -> NodeView {
    let a = sorted_attrs(pairs);
    element_view(tag, a, interactive && has_attr(a, class_key(), hover_class()))
}

/// `nodes` with `child` appended to the children of `parent`.
pub open spec fn adopt(nodes: Seq<NodeView>, parent: usize, child: usize) -> Seq<NodeView> {
    nodes.update(parent as int, NodeView { children: nodes[parent as int].children.push(child), ..nodes[parent as int] })
}

/// `node` added to the arena as the last child of the open element on top.
pub open spec fn append_leaf(st: BuildState, node: NodeView) -> Option<BuildState> {
    if st.stack.len() == 0 {
        None
    } else {
        Some(BuildState {
            nodes: adopt(st.nodes.push(node), st.stack.last(), st.nodes.len() as usize),
            stack: st.stack,
        })
    }
}

/// One event applied to the state; `None` where the stream is out of shape.
pub open spec fn step(st: BuildState, e: MarkupEvent, interactive: bool) -> Option<BuildState> {
    match e {
        MarkupEvent::Start(tag, pairs) => Some(BuildState {
            nodes: st.nodes.push(start_node(tag@, attrs_view(pairs@), interactive)),
            stack: st.stack.push(st.nodes.len() as usize),
        }),
        MarkupEvent::End => {
            if st.stack.len() < 2 {
                None
            } else {
                let rest = st.stack.drop_last();
                Some(BuildState { nodes: adopt(st.nodes, rest.last(), st.stack.last()), stack: rest })
            }
        },
        MarkupEvent::Empty(tag, pairs) => append_leaf(
            st,
            element_view(tag@, sorted_attrs(attrs_view(pairs@)), false),
        ),
        MarkupEvent::Text(t) => append_leaf(
            st,
            NodeView { kind: NodeKind::Text, name: t@, attributes: Seq::empty(), children: Seq::empty(), hover: false },
        ),
        _ => Some(st),
    }
}

/// The events applied in order from `st`.
pub open spec fn run(st: BuildState, events: Seq<MarkupEvent>, interactive: bool) -> Option<BuildState>
    decreases events.len(),
{
    if events.len() == 0 {
        Some(st)
    } else {
        match run(st, events.drop_last(), interactive) {
            Some(s) => step(s, events.last(), interactive),
            None => None,
        }
    }
}

/// `viewBox` text: origin then size, separated by spaces.
pub open spec fn view_box_text(c: BuildConfig) -> Seq<char> {
    int_text(c.min_x as int) + " "@ + int_text(c.min_y as int) + " "@ + int_text(c.width as int) + " "@
        + int_text(c.height as int)
}

/// The synthetic root: it fills its container and maps the configured view box.
pub open spec fn root_view(c: BuildConfig) -> NodeView {
    element_view(
        "svg"@,
        seq![
            ("width"@, "100%"@),
            ("height"@, "100%"@),
            ("viewBox"@, view_box_text(c)),
            ("preserveAspectRatio"@, "none"@),
        ],
        false,
    )
}

pub open spec fn initial_state(c: BuildConfig) -> BuildState {
    BuildState { nodes: seq![root_view(c)], stack: seq![0usize] }
}

/// What building `events` under `c` gives: the arena when the root alone is left
/// open at the end, else the first shape fault.
pub open spec fn build_spec(events: Seq<MarkupEvent>, c: BuildConfig) -> Result<Seq<NodeView>, ShapeError> {
    match run(initial_state(c), events, c.interactive) {
        Some(st) => if st.stack.len() == 1 {
            Ok(st.nodes)
        } else {
            Err(ShapeError::Unclosed)
        },
        None => Err(first_fault(events, c)),
    }
}

/// The fault of the first event that could not be applied.
pub open spec fn first_fault(events: Seq<MarkupEvent>, c: BuildConfig) -> ShapeError
    decreases events.len(),
{
    if events.len() == 0 {
        ShapeError::Unclosed
    } else if run(initial_state(c), events.drop_last(), c.interactive) is None {
        first_fault(events.drop_last(), c)
    } else if events.last() is End {
        ShapeError::UnmatchedEnd
    } else {
        ShapeError::NoParent
    }
}


/// Whether the attributes mark a hover target.
fn has_hover_class(a: &Vec<(String, String)>) -> (r: bool)
    ensures
        r == has_attr(attrs_view(a@), class_key(), hover_class()),
{
    let ghost av = attrs_view(a@);
    let mut i: usize = 0;
    while i < a.len()
        invariant
            i <= a@.len(),
            av == attrs_view(a@),
            forall|j: int| 0 <= j < i ==> #[trigger] av[j] != (class_key(), hover_class()),
        decreases a@.len() - i,
    {
        let k = compare_text(a[i].0.as_str(), "class");
        let v = compare_text(a[i].1.as_str(), "scatter-point");
        if k == 0 && v == 0 {
            assert(av[i as int] == (class_key(), hover_class()));
            return true;
        }
        i = i + 1;
    }
    false
}

/// The root element for a configuration.
fn make_root(c: &BuildConfig) -> (r: Node)
    ensures
        r@ == root_view(*c),
{
    let mut vb = String::new();
    push_int(&mut vb, c.min_x as i64);
    vb.append(" ");
    push_int(&mut vb, c.min_y as i64);
    vb.append(" ");
    push_int(&mut vb, c.width as i64);
    vb.append(" ");
    push_int(&mut vb, c.height as i64);
    let mut attributes: Vec<(String, String)> = Vec::new();
    attributes.push((String::from_str("width"), String::from_str("100%")));
    attributes.push((String::from_str("height"), String::from_str("100%")));
    attributes.push((String::from_str("viewBox"), vb));
    attributes.push((String::from_str("preserveAspectRatio"), String::from_str("none")));
    let r = Node { kind: NodeKind::Element, name: String::from_str("svg"), attributes, children: Vec::new(), hover: false };
    assert(r@.attributes =~= root_view(*c).attributes);
    assert(r@.children =~= Seq::<usize>::empty());
    r
}


/// Once a prefix fails, every longer prefix fails, at the same event.
proof fn lemma_fault_persists(events: Seq<MarkupEvent>, c: BuildConfig, k: int, n: int)
    requires
        0 <= k < n <= events.len(),
        run(initial_state(c), events.take(k), c.interactive) is Some,
        run(initial_state(c), events.take(k + 1), c.interactive) is None,
    ensures
        run(initial_state(c), events.take(n), c.interactive) is None,
        first_fault(events.take(n), c) == (if events[k] is End {
            ShapeError::UnmatchedEnd
        } else {
            ShapeError::NoParent
        }),
    decreases n - k,
{
    assert(events.take(k + 1).drop_last() =~= events.take(k));
    if n > k + 1 {
        lemma_fault_persists(events, c, k, n - 1);
        assert(events.take(n).drop_last() =~= events.take(n - 1));
    }
}

/// Builds the tree that `events` describe under the root that `c` configures.
/// Comments, declarations, instructions and parser errors leave the tree as it is.
/// Self-closing tags get their attributes sorted as opening tags do, so that the
/// tree does not depend on the order in which a parser lists them.
pub fn build_tree(events: &Vec<MarkupEvent>, c: &BuildConfig) -> (r: Result<Rendered, ShapeError>)
    ensures
        result_is(r, build_spec(events@, *c)),
        r is Ok ==> diagnostics_view(r->Ok_0.diagnostics@) == diagnostics(events_view(events@)),
{
    let mut diags: Vec<Diagnostic> = Vec::new();
    let ghost init = initial_state(*c);
    let mut tree = Tree { nodes: Vec::new() };
    let root = make_root(c);
    tree.add(root);
    let mut stack: Vec<usize> = Vec::new();
    stack.push(0);
    assert(tree@ =~= init.nodes);
    assert(stack@ =~= init.stack);
    let mut i: usize = 0;
    while i < events.len()
        invariant
            i <= events@.len(),
            init == initial_state(*c),
            run(init, events@.take(i as int), c.interactive) == Some(BuildState { nodes: tree@, stack: stack@ }),
            forall|j: int| 0 <= j < stack@.len() ==> #[trigger] stack@[j] < tree@.len(),
            diagnostics_view(diags@) == diagnostics(events_view(events@.take(i as int))),
        decreases events@.len() - i,
    {
        let ghost before = BuildState { nodes: tree@, stack: stack@ };
        proof {
            assert(events@.take(i + 1).drop_last() =~= events@.take(i as int));
            assert(events_view(events@.take(i + 1)).drop_last() =~= events_view(events@.take(i as int)));
            assert(events_view(events@.take(i + 1)).last() == events@[i as int]@);
        }
        match &events[i] {
            MarkupEvent::Start(tag, pairs) => {
                let attributes = sort_attributes(pairs);
                let hover = c.interactive && has_hover_class(&attributes);
                let node = Node { kind: NodeKind::Element, name: tag.clone(), attributes, children: Vec::new(), hover };
                assert(node@.children =~= Seq::<usize>::empty());
                let idx = tree.add(node);
                stack.push(idx);
            },
            MarkupEvent::End => {
                if stack.len() < 2 {
                    proof {
                        lemma_fault_persists(events@, *c, i as int, events@.len() as int);
                        assert(events@.take(events@.len() as int) =~= events@);
                    }
                    return Err(ShapeError::UnmatchedEnd);
                }
                let child = stack.pop().unwrap();
                let parent = stack[stack.len() - 1];
                tree.adopt(parent, child);
                assert(stack@ =~= before.stack.drop_last());
            },
            MarkupEvent::Empty(tag, pairs) => {
                if stack.len() == 0 {
                    proof {
                        lemma_fault_persists(events@, *c, i as int, events@.len() as int);
                        assert(events@.take(events@.len() as int) =~= events@);
                    }
                    return Err(ShapeError::NoParent);
                }
                let attributes = sort_attributes(pairs);
                let node = Node { kind: NodeKind::Element, name: tag.clone(), attributes, children: Vec::new(), hover: false };
                assert(node@.children =~= Seq::<usize>::empty());
                let idx = tree.add(node);
                tree.adopt(stack[stack.len() - 1], idx);
            },
            MarkupEvent::Text(t) => {
                if stack.len() == 0 {
                    proof {
                        lemma_fault_persists(events@, *c, i as int, events@.len() as int);
                        assert(events@.take(events@.len() as int) =~= events@);
                    }
                    return Err(ShapeError::NoParent);
                }
                let node = Node { kind: NodeKind::Text, name: t.clone(), attributes: Vec::new(), children: Vec::new(), hover: false };
                assert(node@.children =~= Seq::<usize>::empty());
                assert(node@.attributes =~= Seq::empty());
                let idx = tree.add(node);
                tree.adopt(stack[stack.len() - 1], idx);
            },
            MarkupEvent::Comment => note(&mut diags, Severity::Info, String::from_str("comment")),
            MarkupEvent::Declaration => note(&mut diags, Severity::Info, String::from_str("declaration")),
            MarkupEvent::Instruction => note(&mut diags, Severity::Info, String::from_str("instruction")),
            MarkupEvent::Error(m) => {
                let mut message = String::from_str("error parsing svg: ");
                message.append(m.as_str());
                note(&mut diags, Severity::Error, message);
            },
        }
        assert(step(before, events@[i as int], c.interactive) == Some(BuildState { nodes: tree@, stack: stack@ }));
        i = i + 1;
    }
    assert(events@.take(i as int) =~= events@);
    if stack.len() == 1 {
        stack.pop();
        Ok(Rendered { tree, diagnostics: diags })
    } else {
        Err(ShapeError::Unclosed)
    }
}


/// Open elements that `events` leave, counting an opening tag up and a closing tag down.
pub open spec fn depth(events: Seq<MarkupEvent>) -> int
    decreases events.len(),
{
    if events.len() == 0 {
        0
    } else {
        depth(events.drop_last()) + match events.last() {
            MarkupEvent::Start(_, _) => 1int,
            MarkupEvent::End => -1int,
            _ => 0int,
        }
    }
}

/// No prefix closes more than it opened, and the whole closes all it opened.
pub open spec fn balanced(events: Seq<MarkupEvent>) -> bool {
    &&& forall|n: int| 0 <= n <= events.len() ==> depth(#[trigger] events.take(n)) >= 0
    &&& depth(events) == 0
}

proof fn lemma_run_depth(events: Seq<MarkupEvent>, c: BuildConfig, n: int)
    requires
        0 <= n <= events.len(),
        forall|m: int| 0 <= m <= n ==> depth(#[trigger] events.take(m)) >= 0,
    ensures
        run(initial_state(c), events.take(n), c.interactive) is Some,
        run(initial_state(c), events.take(n), c.interactive)->Some_0.stack.len() == 1 + depth(events.take(n)),
    decreases n,
{
    if n == 0 {
        assert(events.take(0) =~= Seq::<MarkupEvent>::empty());
    } else {
        lemma_run_depth(events, c, n - 1);
        assert(events.take(n).drop_last() =~= events.take(n - 1));
        assert(events.take(n).last() == events[n - 1]);
    }
}

/// A stream whose opening and closing tags balance always builds: the root alone
/// is left open at the end, and it is handed back as the tree.
pub proof fn lemma_balanced_builds(events: Seq<MarkupEvent>, c: BuildConfig)
    requires
        balanced(events),
    ensures
        run(initial_state(c), events, c.interactive) is Some,
        run(initial_state(c), events, c.interactive)->Some_0.stack.len() == 1,
        build_spec(events, c) is Ok,
{
    lemma_run_depth(events, c, events.len() as int);
    assert(events.take(events.len() as int) =~= events);
}

/// Every node but the root carries strictly key-sorted attributes.
pub open spec fn non_root_sorted(nodes: Seq<NodeView>) -> bool {
    forall|j: int| 1 <= j < nodes.len() ==> strictly_sorted(#[trigger] nodes[j].attributes)
}

/// Every open element is a node of the arena.
pub open spec fn stack_in_arena(st: BuildState) -> bool {
    forall|k: int| 0 <= k < st.stack.len() ==> #[trigger] st.stack[k] < st.nodes.len()
}

proof fn lemma_run_sorted(events: Seq<MarkupEvent>, c: BuildConfig)
    ensures
        run(initial_state(c), events, c.interactive) is Some ==> non_root_sorted(
            run(initial_state(c), events, c.interactive)->Some_0.nodes,
        ),
        run(initial_state(c), events, c.interactive) is Some ==> stack_in_arena(
            run(initial_state(c), events, c.interactive)->Some_0,
        ),
    decreases events.len(),
{
    if events.len() > 0 {
        lemma_run_sorted(events.drop_last(), c);
        let r = run(initial_state(c), events.drop_last(), c.interactive);
        if r is Some {
            let st = r->Some_0;
            match events.last() {
                MarkupEvent::Start(tag, pairs) => {
                    lemma_sorted_attrs_sorted(attrs_view(pairs@));
                },
                MarkupEvent::Empty(tag, pairs) => {
                    lemma_sorted_attrs_sorted(attrs_view(pairs@));
                },
                _ => {},
            }
            let s2 = step(st, events.last(), c.interactive);
            if s2 is Some {
                let n2 = s2->Some_0.nodes;
                assert(stack_in_arena(s2->Some_0)) by {
                    match events.last() {
                        MarkupEvent::End => {
                            assert forall|k: int| 0 <= k < s2->Some_0.stack.len() implies #[trigger] s2->Some_0.stack[k] < n2.len() by {
                                assert(s2->Some_0.stack[k] == st.stack[k]);
                            }
                        },
                        _ => {},
                    }
                }
                assert forall|j: int| 1 <= j < n2.len() implies strictly_sorted(#[trigger] n2[j].attributes) by {
                    match events.last() {
                        MarkupEvent::Start(tag, pairs) => {
                            if j < st.nodes.len() {
                                assert(n2[j] == st.nodes[j]);
                            }
                        },
                        MarkupEvent::End => {
                            assert(n2[j].attributes == st.nodes[j].attributes);
                        },
                        MarkupEvent::Empty(tag, pairs) => {
                            let pushed = st.nodes.push(element_view(tag@, sorted_attrs(attrs_view(pairs@)), false));
                            assert(n2[j].attributes == pushed[j].attributes);
                        },
                        MarkupEvent::Text(t) => {
                            let pushed = st.nodes.push(NodeView { kind: NodeKind::Text, name: t@, attributes: Seq::empty(), children: Seq::empty(), hover: false });
                            assert(n2[j].attributes == pushed[j].attributes);
                        },
                        _ => {},
                    }
                }
            }
        }
    } else {
        assert(run(initial_state(c), events, c.interactive) == Some(initial_state(c)));
    }
}

/// Every element built from a tag holds its attributes in strictly increasing key
/// order, whatever order the event listed them in.
pub proof fn lemma_built_attributes_sorted(events: Seq<MarkupEvent>, c: BuildConfig)
    requires
        build_spec(events, c) is Ok,
    ensures
        non_root_sorted(build_spec(events, c)->Ok_0),
{
    lemma_run_sorted(events, c);
}

/// Comments, declarations, instructions and parser errors change nothing: the
/// build goes on as if they were not in the stream, and no node comes of them.
pub proof fn lemma_diagnostics_ignored(events: Seq<MarkupEvent>, e: MarkupEvent, c: BuildConfig)
    requires
        e is Comment || e is Declaration || e is Instruction || e is Error,
    ensures
        run(initial_state(c), events.push(e), c.interactive) == run(initial_state(c), events, c.interactive),
        build_spec(events.push(e), c) == build_spec(events, c),
{
    assert(events.push(e).drop_last() =~= events);
}


/// A markup event as a value: attributes become a map from key to value.
pub enum EventView {
    Start(Seq<char>, Map<Seq<char>, Seq<char>>),
    End,
    Empty(Seq<char>, Map<Seq<char>, Seq<char>>),
    Text(Seq<char>),
    Comment,
    Declaration,
    Instruction,
    Error(Seq<char>),
}

/// The map that a list of pairs gives, a later pair of a key winning.
pub open spec fn attr_map(a: Attrs) -> Map<Seq<char>, Seq<char>>
    decreases a.len(),
{
    if a.len() == 0 {
        Map::empty()
    } else {
        attr_map(a.drop_last()).insert(a.last().0, a.last().1)
    }
}

impl View for MarkupEvent {
    type V = EventView;

    open spec fn view(&self) -> EventView {
        match self {
            MarkupEvent::Start(t, a) => EventView::Start(t@, attr_map(attrs_view(a@))),
            MarkupEvent::End => EventView::End,
            MarkupEvent::Empty(t, a) => EventView::Empty(t@, attr_map(attrs_view(a@))),
            MarkupEvent::Text(t) => EventView::Text(t@),
            MarkupEvent::Comment => EventView::Comment,
            MarkupEvent::Declaration => EventView::Declaration,
            MarkupEvent::Instruction => EventView::Instruction,
            MarkupEvent::Error(m) => EventView::Error(m@),
        }
    }
}

pub open spec fn events_view(ev: Seq<MarkupEvent>) -> Seq<EventView> {
    ev.map_values(|e: MarkupEvent| e@)
}

/// The events that the svg crate's parser reads from a markup text.
pub uninterp spec fn svg_events(s: Seq<char>) -> Seq<EventView>;

/// An attribute value of the svg crate, carried through unread.
#[verifier::external_type_specification]
#[verifier::external_body]
pub struct ExValue(svg::node::Value);

/// Relies on the svg crate's attribute map, whose values display as their text:
/// its entries as key and value pairs, in the map's own order.
#[verifier::external_body]
fn pairs(a: svg::node::Attributes) -> Vec<(String, String)> {
    a.into_iter().map(|(k, v)| (k, v.to_string())).collect()
}

/// Relies on svg::read and the svg crate's Parser: the events of the text, in
/// document order, each tag with its attribute map. The parser keeps attributes
/// in a hash map, so the order of the pairs is not fixed; the map is. Reading
/// from a `&str` cannot fail, its bytes being valid UTF-8.
#[verifier::external_body]
fn read_markup(s: &str) -> (r: Vec<MarkupEvent>)
    ensures
        events_view(r@) == svg_events(s@),
{
    let events = svg::read(s.as_bytes()).map(|p| p.map(|e| match e {
        Event::Tag(t, Type::Start, a) => MarkupEvent::Start(t.to_string(), pairs(a)),
        Event::Tag(_, Type::End, _) => MarkupEvent::End,
        Event::Tag(t, Type::Empty, a) => MarkupEvent::Empty(t.to_string(), pairs(a)),
        Event::Text(t) => MarkupEvent::Text(t.to_string()),
        Event::Comment => MarkupEvent::Comment,
        Event::Declaration => MarkupEvent::Declaration,
        Event::Instruction => MarkupEvent::Instruction,
        Event::Error(e) => MarkupEvent::Error(e.to_string()),
    }).collect());
    events.unwrap_or_default()
}

/// Whether a build result is the tree or the fault that the model gives.
pub open spec fn result_is(r: Result<Rendered, ShapeError>, m: Result<Seq<NodeView>, ShapeError>) -> bool {
    match r {
        Ok(t) => m == Ok::<Seq<NodeView>, ShapeError>(t.tree@),
        Err(e) => m == Err::<Seq<NodeView>, ShapeError>(e),
    }
}

/// Parses a markup text and builds its tree: the result is what building the
/// parsed events gives, whatever order the parser lists each tag's attributes in,
/// with the diagnostics of the parsed events.
pub fn render_markup(markup: &str, c: &BuildConfig) -> (r: Result<Rendered, ShapeError>)
    ensures
        r is Ok ==> diagnostics_view(r->Ok_0.diagnostics@) == diagnostics(svg_events(markup@)),
        exists|ev: Seq<MarkupEvent>| events_view(ev) == svg_events(markup@) && result_is(r, #[trigger] build_spec(ev, *c)),
        forall|ev: Seq<MarkupEvent>| events_view(ev) == svg_events(markup@) ==> result_is(r, #[trigger] build_spec(ev, *c)),
{
    let events = read_markup(markup);
    let r = build_tree(&events, c);
    assert(result_is(r, build_spec(events@, *c)));
    assert forall|ev: Seq<MarkupEvent>| events_view(ev) == svg_events(markup@) implies result_is(r, #[trigger] build_spec(ev, *c)) by {
        lemma_build_congruent(ev, events@, *c);
    }
    r
}


/// An element made from an opening tag gets a listener exactly when listeners
/// are wanted and the tag's `class` attribute, the last one given, is the marker.
pub proof fn lemma_hover_rule(tag: Seq<char>, pairs: Attrs, interactive: bool)
    ensures
        start_node(tag, pairs, interactive).hover <==> (interactive && last_value(pairs, class_key()) == Some(
            hover_class(),
        )),
{
    lemma_sorted_attrs_last_wins(pairs, class_key(), hover_class());
}


proof fn lemma_attr_map_last(p: Attrs, k: Seq<char>)
    ensures
        attr_map(p).contains_key(k) <==> last_value(p, k) is Some,
        last_value(p, k) is Some ==> attr_map(p)[k] == last_value(p, k)->Some_0,
    decreases p.len(),
{
    if p.len() > 0 {
        lemma_attr_map_last(p.drop_last(), k);
    }
}

/// Pairs that give the same map give the same sorted list, whatever their order.
pub proof fn lemma_same_map_same_attrs(pa: Attrs, pb: Attrs)
    requires
        attr_map(pa) == attr_map(pb),
    ensures
        sorted_attrs(pa) == sorted_attrs(pb),
{
    lemma_sorted_attrs_sorted(pa);
    lemma_sorted_attrs_sorted(pb);
    assert forall|k: Seq<char>, v: Seq<char>| has_attr(sorted_attrs(pa), k, v) <==> has_attr(sorted_attrs(pb), k, v) by {
        lemma_sorted_attrs_last_wins(pa, k, v);
        lemma_sorted_attrs_last_wins(pb, k, v);
        lemma_attr_map_last(pa, k);
        lemma_attr_map_last(pb, k);
    }
    lemma_sorted_same_entries(sorted_attrs(pa), sorted_attrs(pb));
}

proof fn lemma_step_congruent(st: BuildState, ea: MarkupEvent, eb: MarkupEvent, interactive: bool)
    requires
        ea@ == eb@,
    ensures
        step(st, ea, interactive) == step(st, eb, interactive),
{
    match (ea, eb) {
        (MarkupEvent::Start(_, pa), MarkupEvent::Start(_, pb)) => {
            lemma_same_map_same_attrs(attrs_view(pa@), attrs_view(pb@));
        },
        (MarkupEvent::Empty(_, pa), MarkupEvent::Empty(_, pb)) => {
            lemma_same_map_same_attrs(attrs_view(pa@), attrs_view(pb@));
        },
        _ => {},
    }
}

/// Building depends on the events' values alone: the order in which a tag's
/// attributes are listed, and duplicates overridden by later pairs, change nothing.
pub proof fn lemma_build_congruent(ev_a: Seq<MarkupEvent>, ev_b: Seq<MarkupEvent>, c: BuildConfig)
    requires
        events_view(ev_a) == events_view(ev_b),
    ensures
        run(initial_state(c), ev_a, c.interactive) == run(initial_state(c), ev_b, c.interactive),
        build_spec(ev_a, c) == build_spec(ev_b, c),
    decreases ev_a.len(),
{
    assert(ev_a.len() == events_view(ev_a).len());
    assert(ev_b.len() == events_view(ev_b).len());
    if ev_a.len() > 0 {
        assert(events_view(ev_a.drop_last()) =~= events_view(ev_a).drop_last());
        assert(events_view(ev_b.drop_last()) =~= events_view(ev_b).drop_last());
        lemma_build_congruent(ev_a.drop_last(), ev_b.drop_last(), c);
        assert(ev_a.last()@ == events_view(ev_a).last());
        assert(ev_b.last()@ == events_view(ev_b).last());
        let r = run(initial_state(c), ev_a.drop_last(), c.interactive);
        if r is Some {
            lemma_step_congruent(r->Some_0, ev_a.last(), ev_b.last(), c.interactive);
        }
    }
}


/// Slot `i` of node `p`'s children exists.
pub open spec fn is_slot(nodes: Seq<NodeView>, p: int, i: int) -> bool {
    0 <= p < nodes.len() && 0 <= i < nodes[p].children.len()
}

/// Node `j` fills some child slot.
pub open spec fn has_parent(nodes: Seq<NodeView>, j: usize) -> bool {
    exists|p: int, i: int| is_slot(nodes, p, i) && #[trigger] nodes[p].children[i] == j
}

/// Children come after their parent in the arena, and no node fills two slots.
pub open spec fn slots_ok(nodes: Seq<NodeView>) -> bool {
    &&& forall|p: int, i: int| is_slot(nodes, p, i) ==> p < #[trigger] nodes[p].children[i] < nodes.len()
    &&& forall|pa: int, ia: int, pb: int, ib: int|
        is_slot(nodes, pa, ia) && is_slot(nodes, pb, ib) && #[trigger] nodes[pa].children[ia]
            == #[trigger] nodes[pb].children[ib] ==> pa == pb && ia == ib
}

/// The shape kept while building: open elements, root first, in arena order and
/// not yet anyone's child; every other node but the root is placed as a child.
pub open spec fn shape_ok(st: BuildState) -> bool {
    &&& slots_ok(st.nodes)
    &&& st.stack.len() > 0
    &&& st.stack[0] == 0
    &&& forall|a: int, b: int| 0 <= a < b < st.stack.len() ==> #[trigger] st.stack[a] < #[trigger] st.stack[b]
    &&& forall|k: int| 0 <= k < st.stack.len() ==> #[trigger] st.stack[k] < st.nodes.len()
    &&& forall|k: int| 0 <= k < st.stack.len() ==> !has_parent(st.nodes, #[trigger] st.stack[k])
    &&& forall|j: usize| 1 <= j < st.nodes.len() ==> has_parent(st.nodes, j) || st.stack.contains(j)
}

proof fn lemma_adopt_slots(nodes: Seq<NodeView>, parent: usize, child: usize)
    requires
        parent < nodes.len(),
    ensures
        adopt(nodes, parent, child).len() == nodes.len(),
        forall|p: int, i: int| is_slot(adopt(nodes, parent, child), p, i) <==> (is_slot(nodes, p, i) || (p == parent
            && i == nodes[p].children.len())),
        forall|p: int, i: int| #[trigger] is_slot(adopt(nodes, parent, child), p, i) ==> adopt(nodes, parent, child)[p].children[i]
            == if p == parent && i == nodes[p].children.len() { child } else { nodes[p].children[i] },
{
}

proof fn lemma_step_shape(st: BuildState, e: MarkupEvent, interactive: bool)
    requires
        shape_ok(st),
        st.nodes.len() < usize::MAX,
        step(st, e, interactive) is Some,
    ensures
        shape_ok(step(st, e, interactive)->Some_0),
        step(st, e, interactive)->Some_0.nodes.len() <= st.nodes.len() + 1,
{
    let s2 = step(st, e, interactive)->Some_0;
    let n = st.nodes.len();
    match e {
        MarkupEvent::Start(tag, pairs) => {
            let nn = st.nodes.push(start_node(tag@, attrs_view(pairs@), interactive));
            assert(s2.nodes == nn);
            assert forall|p: int, i: int| is_slot(nn, p, i) implies is_slot(st.nodes, p, i) && nn[p].children[i] == st.nodes[p].children[i] by {
                if p == n {
                    assert(nn[p].children.len() == 0);
                }
            }
            assert forall|j: usize| #[trigger] has_parent(nn, j) implies has_parent(st.nodes, j) by {
                let (p, i) = choose|p: int, i: int| is_slot(nn, p, i) && #[trigger] nn[p].children[i] == j;
                assert(st.nodes[p].children[i] == j);
            }
            assert forall|pa: int, ia: int, pb: int, ib: int|
                is_slot(nn, pa, ia) && is_slot(nn, pb, ib) && #[trigger] nn[pa].children[ia]
                    == #[trigger] nn[pb].children[ib] implies pa == pb && ia == ib by {
                assert(st.nodes[pa].children[ia] == nn[pa].children[ia]);
                assert(st.nodes[pb].children[ib] == nn[pb].children[ib]);
            }
            assert forall|p: int, i: int| is_slot(nn, p, i) implies p < #[trigger] nn[p].children[i] < nn.len() by {
                assert(st.nodes[p].children[i] == nn[p].children[i]);
            }
            assert forall|a: int, b: int| 0 <= a < b < s2.stack.len() implies #[trigger] s2.stack[a] < #[trigger] s2.stack[b] by {
                assert(s2.stack[a] == st.stack[a]);
                if b < st.stack.len() {
                    assert(s2.stack[b] == st.stack[b]);
                }
            }
            assert forall|k: int| 0 <= k < s2.stack.len() implies #[trigger] s2.stack[k] < nn.len() by {
                if k < st.stack.len() {
                    assert(s2.stack[k] == st.stack[k]);
                }
            }
            assert(s2.stack[0] == st.stack[0]);
            assert forall|j: usize| 1 <= j < nn.len() implies has_parent(nn, j) || s2.stack.contains(j) by {
                if j < n {
                    if has_parent(st.nodes, j) {
                        let (p, i) = choose|p: int, i: int| is_slot(st.nodes, p, i) && #[trigger] st.nodes[p].children[i] == j;
                        assert(nn[p].children[i] == j);
                    } else {
                        let k = choose|k: int| 0 <= k < st.stack.len() && st.stack[k] == j;
                        assert(s2.stack[k] == j);
                    }
                } else {
                    assert(s2.stack[st.stack.len() as int] == j);
                }
            }
            assert forall|k: int| 0 <= k < s2.stack.len() implies !has_parent(s2.nodes, #[trigger] s2.stack[k]) by {
                if k < st.stack.len() {
                    assert(s2.stack[k] == st.stack[k]);
                    if has_parent(nn, s2.stack[k]) {
                        assert(has_parent(st.nodes, s2.stack[k]));
                    }
                } else {
                    if has_parent(nn, s2.stack[k]) {
                        let (p, i) = choose|p: int, i: int| is_slot(nn, p, i) && #[trigger] nn[p].children[i] == s2.stack[k];
                        assert(st.nodes[p].children[i] < n);
                    }
                }
            }
        },
        MarkupEvent::End => {
            let rest = st.stack.drop_last();
            let parent = rest.last();
            let child = st.stack.last();
            let top = st.stack.len() - 1;
            lemma_adopt_slots(st.nodes, parent, child);
            let nn = s2.nodes;
            assert(parent < child);
            assert(!has_parent(st.nodes, child));
            assert forall|pa: int, ia: int, pb: int, ib: int|
                is_slot(nn, pa, ia) && is_slot(nn, pb, ib) && #[trigger] nn[pa].children[ia]
                    == #[trigger] nn[pb].children[ib] implies pa == pb && ia == ib by {
                let l = st.nodes[parent as int].children.len();
                let new_a = pa == parent && ia == l;
                let new_b = pb == parent && ib == l;
                if new_a && !new_b {
                    assert(st.nodes[pb].children[ib] == child);
                } else if new_b && !new_a {
                    assert(st.nodes[pa].children[ia] == child);
                }
            }
            assert forall|j: usize| #[trigger] has_parent(nn, j) implies has_parent(st.nodes, j) || j == child by {
                let (p, i) = choose|p: int, i: int| is_slot(nn, p, i) && #[trigger] nn[p].children[i] == j;
                if !(p == parent && i == st.nodes[p].children.len()) {
                    assert(st.nodes[p].children[i] == j);
                }
            }
            assert forall|j: usize| #[trigger] has_parent(st.nodes, j) implies has_parent(nn, j) by {
                let (p, i) = choose|p: int, i: int| is_slot(st.nodes, p, i) && #[trigger] st.nodes[p].children[i] == j;
                assert(nn[p].children[i] == j);
            }
            assert(has_parent(nn, child)) by {
                let l = st.nodes[parent as int].children.len() as int;
                assert(nn[parent as int].children[l] == child);
            }
            assert forall|k: int| 0 <= k < s2.stack.len() implies !has_parent(nn, #[trigger] s2.stack[k]) by {
                assert(s2.stack[k] == st.stack[k]);
                assert(st.stack[k] < st.stack[top]);
            }
            assert forall|a: int, b: int| 0 <= a < b < s2.stack.len() implies #[trigger] s2.stack[a] < #[trigger] s2.stack[b] by {
                assert(s2.stack[a] == st.stack[a] && s2.stack[b] == st.stack[b]);
            }
            assert forall|k: int| 0 <= k < s2.stack.len() implies #[trigger] s2.stack[k] < nn.len() by {
                assert(s2.stack[k] == st.stack[k]);
            }
            assert forall|j: usize| 1 <= j < nn.len() implies has_parent(nn, j) || s2.stack.contains(j) by {
                if !has_parent(st.nodes, j) && j != child {
                    let k = choose|k: int| 0 <= k < st.stack.len() && st.stack[k] == j;
                    assert(k != top);
                    assert(s2.stack[k] == j);
                }
            }
            assert(s2.stack[0] == st.stack[0]);
        },
        MarkupEvent::Empty(_, _) | MarkupEvent::Text(_) => {
            let node = match e {
                MarkupEvent::Empty(tag, pairs) => element_view(tag@, sorted_attrs(attrs_view(pairs@)), false),
                MarkupEvent::Text(t) => NodeView { kind: NodeKind::Text, name: t@, attributes: Seq::empty(), children: Seq::empty(), hover: false },
                _ => arbitrary(),
            };
            let pushed = st.nodes.push(node);
            let parent = st.stack.last();
            let child = n as usize;
            assert(s2.nodes == adopt(pushed, parent, child));
            lemma_adopt_slots(pushed, parent, child);
            let nn = s2.nodes;
            assert(pushed[n as int].children.len() == 0);
            assert forall|p: int, i: int| is_slot(pushed, p, i) implies is_slot(st.nodes, p, i) && pushed[p].children[i] == st.nodes[p].children[i] by {
                if p == n {
                    assert(pushed[p].children.len() == 0);
                }
            }
            assert forall|pa: int, ia: int, pb: int, ib: int|
                is_slot(nn, pa, ia) && is_slot(nn, pb, ib) && #[trigger] nn[pa].children[ia]
                    == #[trigger] nn[pb].children[ib] implies pa == pb && ia == ib by {
                let l = pushed[parent as int].children.len();
                let new_a = pa == parent && ia == l;
                let new_b = pb == parent && ib == l;
                if !new_a {
                    assert(is_slot(pushed, pa, ia));
                    assert(nn[pa].children[ia] == pushed[pa].children[ia]);
                    assert(is_slot(st.nodes, pa, ia));
                }
                if !new_b {
                    assert(is_slot(pushed, pb, ib));
                    assert(nn[pb].children[ib] == pushed[pb].children[ib]);
                    assert(is_slot(st.nodes, pb, ib));
                }
                if new_a && !new_b {
                    assert(st.nodes[pb].children[ib] < n);
                } else if new_b && !new_a {
                    assert(st.nodes[pa].children[ia] < n);
                }
            }
            assert forall|j: usize| #[trigger] has_parent(nn, j) implies has_parent(st.nodes, j) || j == child by {
                let (p, i) = choose|p: int, i: int| is_slot(nn, p, i) && #[trigger] nn[p].children[i] == j;
                if !(p == parent && i == pushed[p].children.len()) {
                    assert(st.nodes[p].children[i] == j);
                }
            }
            assert forall|j: usize| #[trigger] has_parent(st.nodes, j) implies has_parent(nn, j) by {
                let (p, i) = choose|p: int, i: int| is_slot(st.nodes, p, i) && #[trigger] st.nodes[p].children[i] == j;
                assert(nn[p].children[i] == j);
            }
            assert(has_parent(nn, child)) by {
                let l = pushed[parent as int].children.len() as int;
                assert(nn[parent as int].children[l] == child);
            }
            assert forall|k: int| 0 <= k < s2.stack.len() implies !has_parent(nn, #[trigger] s2.stack[k]) by {
                assert(s2.stack[k] == st.stack[k]);
                assert(s2.stack[k] < n);
                if has_parent(nn, s2.stack[k]) {
                    assert(has_parent(st.nodes, s2.stack[k]) || s2.stack[k] == child);
                }
            }
        },
        _ => {},
    }
}

proof fn lemma_run_shape(events: Seq<MarkupEvent>, c: BuildConfig)
    requires
        events.len() + 1 < usize::MAX,
    ensures
        run(initial_state(c), events, c.interactive) is Some ==> shape_ok(run(initial_state(c), events, c.interactive)->Some_0),
        run(initial_state(c), events, c.interactive) is Some ==> run(initial_state(c), events, c.interactive)->Some_0.nodes.len()
            <= events.len() + 1,
    decreases events.len(),
{
    if events.len() == 0 {
        let st = initial_state(c);
        assert(st.nodes[0].children.len() == 0);
        assert forall|k: int| 0 <= k < st.stack.len() implies !has_parent(st.nodes, #[trigger] st.stack[k]) by {
            if has_parent(st.nodes, st.stack[k]) {
                let (p, i) = choose|p: int, i: int| is_slot(st.nodes, p, i) && #[trigger] st.nodes[p].children[i] == st.stack[k];
            }
        }
    } else {
        lemma_run_shape(events.drop_last(), c);
        let r = run(initial_state(c), events.drop_last(), c.interactive);
        if r is Some && step(r->Some_0, events.last(), c.interactive) is Some {
            lemma_step_shape(r->Some_0, events.last(), c.interactive);
        }
    }
}

/// A build that succeeds gives one tree: the root is no node's child, every other
/// node is the child of exactly one node, once, and comes after it in the arena.
pub proof fn lemma_build_one_root(events: Seq<MarkupEvent>, c: BuildConfig)
    requires
        events.len() + 1 < usize::MAX,
        build_spec(events, c) is Ok,
    ensures
        slots_ok(build_spec(events, c)->Ok_0),
        !has_parent(build_spec(events, c)->Ok_0, 0),
        forall|j: usize| 1 <= j < build_spec(events, c)->Ok_0.len() ==> has_parent(build_spec(events, c)->Ok_0, j),
{
    lemma_run_shape(events, c);
    let st = run(initial_state(c), events, c.interactive)->Some_0;
    assert(st.stack.len() == 1);
    assert forall|j: usize| 1 <= j < st.nodes.len() implies has_parent(st.nodes, j) by {
        if st.stack.contains(j) {
            assert(st.stack[0] == 0);
        }
    }
}


/// Whether an event is one that makes no node.
pub open spec fn is_diagnostic(e: MarkupEvent) -> bool {
    e is Comment || e is Declaration || e is Instruction || e is Error
}

/// `events` with those that `drop` picks taken out, the rest kept in order.
pub open spec fn without(events: Seq<MarkupEvent>, drop: spec_fn(MarkupEvent) -> bool) -> Seq<MarkupEvent>
    decreases events.len(),
{
    if events.len() == 0 {
        events
    } else if drop(events.last()) {
        without(events.drop_last(), drop)
    } else {
        without(events.drop_last(), drop).push(events.last())
    }
}

/// Taking diagnostic events out of a stream, anywhere and any of them (all parser
/// errors, say), changes neither the tree built nor the fault met.
pub proof fn lemma_without_diagnostics(events: Seq<MarkupEvent>, drop: spec_fn(MarkupEvent) -> bool, c: BuildConfig)
    requires
        forall|e: MarkupEvent| #[trigger] drop(e) ==> is_diagnostic(e),
    ensures
        run(initial_state(c), without(events, drop), c.interactive) == run(initial_state(c), events, c.interactive),
        run(initial_state(c), events, c.interactive) is None ==> first_fault(without(events, drop), c) == first_fault(
            events,
            c,
        ),
        build_spec(without(events, drop), c) == build_spec(events, c),
    decreases events.len(),
{
    if events.len() > 0 {
        let rest = events.drop_last();
        lemma_without_diagnostics(rest, drop, c);
        if !drop(events.last()) {
            let w = without(events, drop);
            assert(w.drop_last() =~= without(rest, drop));
            assert(w.last() == events.last());
        }
    }
}


/// Events that make a node: opening and self-closing tags, and text.
pub open spec fn node_events(events: Seq<MarkupEvent>) -> nat
    decreases events.len(),
{
    if events.len() == 0 {
        0
    } else {
        node_events(events.drop_last()) + if events.last() is Start || events.last() is Empty || events.last() is Text {
            1nat
        } else {
            0nat
        }
    }
}

/// Text events.
pub open spec fn text_events(events: Seq<MarkupEvent>) -> nat
    decreases events.len(),
{
    if events.len() == 0 {
        0
    } else {
        text_events(events.drop_last()) + if events.last() is Text {
            1nat
        } else {
            0nat
        }
    }
}

/// Text nodes among `nodes`.
pub open spec fn text_nodes(nodes: Seq<NodeView>) -> nat
    decreases nodes.len(),
{
    if nodes.len() == 0 {
        0
    } else {
        text_nodes(nodes.drop_last()) + if nodes.last().kind == NodeKind::Text {
            1nat
        } else {
            0nat
        }
    }
}

/// Listeners sit only on marked elements, and only when they are wanted; never on the root.
pub open spec fn hover_sound(nodes: Seq<NodeView>, interactive: bool) -> bool {
    &&& nodes.len() > 0 && !nodes[0].hover
    &&& forall|j: int| 0 <= j < nodes.len() && (#[trigger] nodes[j]).hover ==> interactive && has_attr(
        nodes[j].attributes,
        class_key(),
        hover_class(),
    )
}

proof fn lemma_text_nodes_update(nodes: Seq<NodeView>, i: int, n: NodeView)
    requires
        0 <= i < nodes.len(),
        n.kind == nodes[i].kind,
    ensures
        text_nodes(nodes.update(i, n)) == text_nodes(nodes),
    decreases nodes.len(),
{
    let u = nodes.update(i, n);
    if i == nodes.len() - 1 {
        assert(u.drop_last() =~= nodes.drop_last());
    } else {
        lemma_text_nodes_update(nodes.drop_last(), i, n);
        assert(u.drop_last() =~= nodes.drop_last().update(i, n));
    }
}

proof fn lemma_run_counts(events: Seq<MarkupEvent>, c: BuildConfig)
    ensures
        run(initial_state(c), events, c.interactive) is Some ==> {
            let nodes = run(initial_state(c), events, c.interactive)->Some_0.nodes;
            &&& nodes.len() == 1 + node_events(events)
            &&& text_nodes(nodes) == text_events(events)
            &&& hover_sound(nodes, c.interactive)
        },
    decreases events.len(),
{
    if events.len() == 0 {
        let nodes = initial_state(c).nodes;
        assert(nodes.drop_last() =~= Seq::<NodeView>::empty());
        assert(text_nodes(nodes.drop_last()) == 0);
        assert(text_nodes(nodes) == 0);
        assert(run(initial_state(c), events, c.interactive) == Some(initial_state(c)));
        assert(hover_sound(nodes, c.interactive));
    } else {
        lemma_run_counts(events.drop_last(), c);
        lemma_run_sorted(events.drop_last(), c);
        let r = run(initial_state(c), events.drop_last(), c.interactive);
        if r is Some && step(r->Some_0, events.last(), c.interactive) is Some {
            let st = r->Some_0;
            let n2 = step(st, events.last(), c.interactive)->Some_0.nodes;
            match events.last() {
                MarkupEvent::Start(tag, pairs) => {
                    let nn = st.nodes.push(start_node(tag@, attrs_view(pairs@), c.interactive));
                    assert(nn.drop_last() =~= st.nodes);
                    assert forall|j: int| 0 <= j < n2.len() && (#[trigger] n2[j]).hover implies c.interactive && has_attr(
                        n2[j].attributes,
                        class_key(),
                        hover_class(),
                    ) by {
                        if j < st.nodes.len() {
                            assert(n2[j] == st.nodes[j]);
                        }
                    }
                },
                MarkupEvent::End => {
                    let rest = st.stack.drop_last();
                    let p = rest.last();
                    let old_node = st.nodes[p as int];
                    lemma_text_nodes_update(st.nodes, p as int, NodeView { children: old_node.children.push(st.stack.last()), ..old_node });
                    assert forall|j: int| 0 <= j < n2.len() && (#[trigger] n2[j]).hover implies c.interactive && has_attr(
                        n2[j].attributes,
                        class_key(),
                        hover_class(),
                    ) by {
                        assert(n2[j].hover == st.nodes[j].hover && n2[j].attributes == st.nodes[j].attributes);
                    }
                    assert(n2[0].hover == st.nodes[0].hover);
                },
                MarkupEvent::Empty(_, _) | MarkupEvent::Text(_) => {
                    let node = match events.last() {
                        MarkupEvent::Empty(tag, pairs) => element_view(tag@, sorted_attrs(attrs_view(pairs@)), false),
                        MarkupEvent::Text(t) => NodeView { kind: NodeKind::Text, name: t@, attributes: Seq::empty(), children: Seq::empty(), hover: false },
                        _ => arbitrary(),
                    };
                    let pushed = st.nodes.push(node);
                    assert(pushed.drop_last() =~= st.nodes);
                    let p = st.stack.last();
                    let old_node = pushed[p as int];
                    lemma_text_nodes_update(pushed, p as int, NodeView { children: old_node.children.push(st.nodes.len() as usize), ..old_node });
                    assert forall|j: int| 0 <= j < n2.len() && (#[trigger] n2[j]).hover implies c.interactive && has_attr(
                        n2[j].attributes,
                        class_key(),
                        hover_class(),
                    ) by {
                        assert(n2[j].hover == pushed[j].hover && n2[j].attributes == pushed[j].attributes);
                        if j < st.nodes.len() {
                            assert(pushed[j] == st.nodes[j]);
                        }
                    }
                    assert(n2[0].hover == pushed[0].hover);
                },
                _ => {},
            }
            assert(n2.len() == 1 + node_events(events));
            assert(text_nodes(n2) == text_events(events));
            assert(hover_sound(n2, c.interactive));
        }
    }
}

/// A successful build has one node per opening tag, self-closing tag and text,
/// below the root, the text nodes being those of the text events; and a listener
/// only on an element whose `class` is the marker, when listeners are wanted,
/// never on the root.
pub proof fn lemma_build_counts(events: Seq<MarkupEvent>, c: BuildConfig)
    requires
        build_spec(events, c) is Ok,
    ensures
        build_spec(events, c)->Ok_0.len() == 1 + node_events(events),
        text_nodes(build_spec(events, c)->Ok_0) == text_events(events),
        hover_sound(build_spec(events, c)->Ok_0, c.interactive),
{
    lemma_run_counts(events, c);
}

} // verus!
