//! A chart drawn as markup by a charting engine, and turned into a tree.

use vstd::prelude::*;
use crate::markup::{
    BuildConfig, MarkupEvent, Rendered, ShapeError, build_spec, diagnostics, diagnostics_view, events_view, render_markup,
    result_is, svg_events,
};

verus! {

/// What a chart is asked to show.
pub struct Props {
    pub width: isize,
    pub height: isize,
    pub min_x: isize,
    pub min_y: isize,
    /// Whether the caller listens for the pointer entering a data point.
    pub on_hover: bool,
    pub data: Vec<(isize, isize)>,
}

impl Props {
    /// The builder configuration these properties give.
    pub open spec fn config(&self) -> BuildConfig {
        BuildConfig {
            width: self.width,
            height: self.height,
            min_x: self.min_x,
            min_y: self.min_y,
            interactive: self.on_hover,
        }
    }

    pub fn build_config(&self) -> (c: BuildConfig)
        ensures
            c == self.config(),
    {
        BuildConfig {
            width: self.width,
            height: self.height,
            min_x: self.min_x,
            min_y: self.min_y,
            interactive: self.on_hover,
        }
    }
}

/// What the chart is told.
pub enum Msg {
    /// The pointer entered the node with this index.
    Hover(usize),
    Nothing,
}

/// A chart: its properties and the markup that the charting engine drew for them.
pub struct ChartComponent {
    pub props: Props,
    pub width: isize,
    pub height: isize,
    pub markup: String,
}

impl ChartComponent {
    pub fn create(props: Props, markup: String) -> (r: ChartComponent)
        ensures
            r.props == props,
            r.width == props.width,
            r.height == props.height,
            r.markup@ == markup@,
    {
        let width = props.width;
        let height = props.height;
        ChartComponent { props, width, height, markup }
    }

    /// Every message asks for the chart to be drawn again.
    pub fn update(&mut self, msg: Msg) -> (r: bool)
        ensures
            r,
            *final(self) == *old(self),
    {
        true
    }

    /// New properties are ignored: the chart keeps what it was created with.
    pub fn change(&mut self, props: Props) -> (r: bool)
        ensures
            !r,
            *final(self) == *old(self),
    {
        false
    }

    /// The tree of the chart's markup, under a root that maps the configured view
    /// box, with the diagnostics that parsing the markup gave.
    pub fn view(&self) -> (r: Result<Rendered, ShapeError>)
        ensures
            exists|ev: Seq<MarkupEvent>| events_view(ev) == svg_events(self.markup@)
                && result_is(r, #[trigger] build_spec(ev, self.props.config())),
            forall|ev: Seq<MarkupEvent>| events_view(ev) == svg_events(self.markup@)
                ==> result_is(r, #[trigger] build_spec(ev, self.props.config())),
            r is Ok ==> diagnostics_view(r->Ok_0.diagnostics@) == diagnostics(svg_events(self.markup@)),
    {
        let c = self.props.build_config();
        render_markup(self.markup.as_str(), &c)
    }
}

} // verus!
