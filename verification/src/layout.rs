use vstd::prelude::*;

verus! {

/// The main axis of a flex layout.
#[derive(Debug, Clone, Copy, PartialEq, Eq)]
pub enum FlexDirection {
    Row,
    Col,
}

/// How the unused space of a flex layout is shared out along its main axis.
#[derive(Debug, Clone, Copy, PartialEq, Eq)]
pub enum Spacing {
    // Place an equal amount of space on either side of each element, without necessarily expanding each element
    // |--X----Y----Z--|
    Around,
    // Place an equal amount of space between each element, without necessarily expanding each element
    // |X------Y------Z|
    Between,
    // Place an equal amount of space between each element AND between first/last elements and the frame sides, without necessarily expanding each element
    // |---X---Y---Z---|
    Even,
    // Allow each element to expand evenly within the frame
    Stretch,
    NoSpacing,
}

/// Where items sit along an axis.
#[derive(Debug, Clone, Copy, PartialEq, Eq)]
pub enum Alignment {
    // |XYZ------------|
    Start,
    // |------XYZ------|
    Center,
    // |------------XYZ|
    End,
}

/// The properties of a flex layout.
#[derive(Debug, Clone, Copy)]
pub struct Flex {
    pub gap: usize,
    pub direction: FlexDirection,
    pub is_reverse: bool,
    // In the layout direction
    pub axis_alignment: Alignment,
    // Perpendicular to the layout direction
    pub cross_alignment: Alignment,
    pub spacing: Spacing,
}

/// The total gap between `item_count` items, as `calc_total_gap` computes it.
pub open spec fn total_gap(gap: usize, item_count: usize) -> i32 {
    ((item_count - 1) * gap) as i32
}

impl Flex {
    pub fn row() -> (f: Self)
        ensures
            f == (Flex {
                gap: 0,
                direction: FlexDirection::Row,
                is_reverse: false,
                axis_alignment: Alignment::Start,
                cross_alignment: Alignment::Center,
                spacing: Spacing::NoSpacing,
            }),
    {
        Self {
            gap: 0,
            direction: FlexDirection::Row,
            is_reverse: false,
            axis_alignment: Alignment::Start,
            cross_alignment: Alignment::Center,
            spacing: Spacing::NoSpacing,
        }
    }

    pub fn col() -> (f: Self)
        ensures
            f == (Flex {
                gap: 0,
                direction: FlexDirection::Col,
                is_reverse: false,
                axis_alignment: Alignment::Start,
                cross_alignment: Alignment::Start,
                spacing: Spacing::NoSpacing,
            }),
    {
        Self {
            gap: 0,
            direction: FlexDirection::Col,
            is_reverse: false,
            axis_alignment: Alignment::Start,
            cross_alignment: Alignment::Start,
            spacing: Spacing::NoSpacing,
        }
    }

    pub fn item_gap(self, gap: usize) -> (f: Self)
        ensures
            f == (Flex { gap: gap, ..self }),
    {
        let mut f = self;
        f.gap = gap;
        f
    }

    pub fn reverse(self) -> (f: Self)
        ensures
            f == (Flex { is_reverse: true, ..self }),
    {
        let mut f = self;
        f.is_reverse = true;
        f
    }

    pub fn axis_align(self, alignment: Alignment) -> (f: Self)
        ensures
            f == (Flex { axis_alignment: alignment, ..self }),
    {
        let mut f = self;
        f.axis_alignment = alignment;
        f
    }

    pub fn cross_align(self, alignment: Alignment) -> (f: Self)
        ensures
            f == (Flex { cross_alignment: alignment, ..self }),
    {
        let mut f = self;
        f.cross_alignment = alignment;
        f
    }

    pub fn spacing(self, spacing: Spacing) -> (f: Self)
        ensures
            f == (Flex { spacing: spacing, ..self }),
    {
        let mut f = self;
        f.spacing = spacing;
        f
    }

    /// A flex layout with these properties.
    pub fn build(&self) -> (l: Layout)
        ensures
            l == (Layout::Flex { properties: *self }),
    {
        Layout::Flex { properties: *self }
    }

    /// The total gap between `item_count` items: `item_count - 1` gaps, taken as an `i32`.
    pub fn calc_total_gap(&self, item_count: usize) -> (r: i32)
        requires
            item_count >= 1,
            (item_count - 1) * self.gap <= usize::MAX,
        ensures
            r == total_gap(self.gap, item_count),
    {
        ((item_count - 1) * self.gap) as i32
    }
}

/// How a frame arranges its sub-elements.
#[derive(Debug, Clone, Copy)]
pub enum Layout {
    /// A plain column: sub-elements stacked from top to bottom.
    Sequential,
    /// A row or column with gaps, spacing and alignment.
    Flex { properties: Flex },
    /// A grid of cells.
    Grid { gap_row: usize, gap_col: usize, rows: usize, cols: usize },
    /// A scrolling viewport around a single body element.
    Scroll,
}

} // verus!
