//! Bookkeeping of the selection of initial pendulums on the angle plane.
//!
//! Selected points are kept as they were clicked; the point type is left to
//! the caller (the application stores scaled screen positions).
use vstd::prelude::*;
use vstd::arithmetic::div_mod::lemma_fundamental_div_mod_converse;

verus! {

/// Which selector receives clicks.
#[derive(PartialEq, Eq, Structural, Debug, Clone, Copy)]
pub enum ActiveSelector {
    RectSel,
    PointSel,
}

impl Default for ActiveSelector {
    fn default() -> (active: Self)
        ensures
            active == ActiveSelector::RectSel,
    {
        ActiveSelector::RectSel
    }
}

/// Selection of the rectangle spanned by the last two clicked points, sampled
/// on a grid `width` cells wide.
pub struct RectSelector<P> {
    pub width: usize,
    first: P,
    second: P,
}

impl<P: Copy> RectSelector<P> {
    /// The two corners that span the rectangle, older one first.
    pub closed spec fn corners(&self) -> (P, P) {
        (self.first, self.second)
    }

    /// The number of grid cells across the rectangle.
    pub closed spec fn grid_width(&self) -> usize {
        self.width
    }

    /// A rectangle selector spanned by `first` and `second`.
    pub fn new(first: P, second: P, width: usize) -> (sel: Self)
        ensures
            sel.corners() == (first, second),
            sel.grid_width() == width,
    {
        RectSelector { width, first, second }
    }

    /// Records a click: the newer corner becomes the older one and the
    /// click becomes the newer corner.
    pub fn add_selection(&mut self, point: P)
        ensures
            final(self).corners() == (old(self).corners().1, point),
            final(self).grid_width() == old(self).grid_width(),
    {
        self.first = self.second;
        self.second = point;
    }

    /// The two corners that span the rectangle, older one first.
    pub fn corner_points(&self) -> (corners: (P, P))
        ensures
            corners == self.corners(),
    {
        (self.first, self.second)
    }
}

/// Two clicks in a row span the rectangle between them, whatever was
/// selected before: if `s1` is `s0` after a click at `p` and `s2` is `s1`
/// after a click at `q` (as `add_selection` ensures), `s2` is spanned by `p`
/// and `q`.
pub proof fn lemma_two_clicks_span<P: Copy>(
    s0: RectSelector<P>,
    s1: RectSelector<P>,
    s2: RectSelector<P>,
    p: P,
    q: P,
)
    requires
        s1.corners() == (s0.corners().1, p),
        s2.corners() == (s1.corners().1, q),
    ensures
        s2.corners() == (p, q),
{
}

/// Selection of individually clicked points.
pub struct PointSelector<P> {
    points: Vec<P>,
}

impl<P> View for PointSelector<P> {
    type V = Seq<P>;

    closed spec fn view(&self) -> Seq<P> {
        self.points@
    }
}

impl<P> Default for PointSelector<P> {
    fn default() -> (sel: Self)
        ensures
            sel@ == Seq::<P>::empty(),
    {
        PointSelector { points: Vec::new() }
    }
}

impl<P: Copy> PointSelector<P> {
    /// Records a click as one more selected point.
    pub fn add_selection(&mut self, point: P)
        ensures
            final(self)@ == old(self)@.push(point),
    {
        self.points.push(point);
    }

    /// The selected points, in the order they were clicked.
    pub fn get_points(&self) -> (points: Vec<P>)
        ensures
            points@ == self@,
    {
        let mut points: Vec<P> = Vec::new();
        let n = self.points.len();
        for i in 0..n
            invariant
                n == self.points@.len(),
                points@ == self.points@.take(i as int),
        {
            points.push(self.points[i]);
            assert(points@ =~= self.points@.take(i + 1));
        }
        assert(self.points@.take(n as int) =~= self.points@);
        points
    }
}

/// Routes clicks to the active selector.
pub struct Selector<P> {
    pub rect: RectSelector<P>,
    pub point: PointSelector<P>,
    pub active: ActiveSelector,
}

impl<P: Copy> Selector<P> {
    /// A selector over the given rectangle and point selectors, with the
    /// default selector active.
    pub fn new(rect: RectSelector<P>, point: PointSelector<P>) -> (sel: Self)
        ensures
            sel.rect == rect,
            sel.point == point,
            sel.active == ActiveSelector::RectSel,
    {
        Selector { rect, point, active: ActiveSelector::default() }
    }

    /// Hands a click to the active selector; the other one is left as it was.
    pub fn add_selection(&mut self, point: P)
        ensures
            final(self).active == old(self).active,
            old(self).active == ActiveSelector::PointSel ==> {
                &&& final(self).point@ == old(self).point@.push(point)
                &&& final(self).rect == old(self).rect
            },
            old(self).active == ActiveSelector::RectSel ==> {
                &&& final(self).rect.corners() == (old(self).rect.corners().1, point)
                &&& final(self).rect.grid_width() == old(self).rect.grid_width()
                &&& final(self).point == old(self).point
            },
    {
        match self.active {
            ActiveSelector::PointSel => {
                self.point.add_selection(point);
            },
            ActiveSelector::RectSel => {
                self.rect.add_selection(point);
            },
        }
    }
}

/// The cells of a grid `width` cells wide and `height` cells high, row by
/// row, as `(column, row)` pairs.
pub fn grid_cells(width: usize, height: usize) -> (cells: Vec<(usize, usize)>)
    ensures
        cells@.len() == width * height,
        forall|i: int|
            0 <= i < cells@.len() ==> #[trigger] cells@[i] == ((i % width as int) as usize, (i
                / width as int) as usize),
{
    let mut cells: Vec<(usize, usize)> = Vec::new();
    for y in 0..height
        invariant
            cells@.len() == y * width,
            forall|i: int|
                0 <= i < cells@.len() ==> #[trigger] cells@[i] == ((i % width as int) as usize, (i
                    / width as int) as usize),
    {
        for x in 0..width
            invariant
                cells@.len() == y * width + x,
                forall|i: int|
                    0 <= i < cells@.len() ==> #[trigger] cells@[i] == ((i % width as int) as usize, (i
                        / width as int) as usize),
        {
            proof {
                lemma_fundamental_div_mod_converse(
                    (y * width + x) as int,
                    width as int,
                    y as int,
                    x as int,
                );
            }
            cells.push((x, y));
        }
        assert((y + 1) * width == y * width + width) by (nonlinear_arith);
    }
    assert(height * width == width * height) by (nonlinear_arith);
    cells
}

/// The grid cells cover the whole grid: the cell in column `c` and row `r`
/// comes at position `r * width + c`.
pub proof fn lemma_grid_covers(width: usize, height: usize, cells: Seq<(usize, usize)>, c: int, r: int)
    requires
        cells.len() == width * height,
        forall|i: int|
            0 <= i < cells.len() ==> #[trigger] cells[i] == ((i % width as int) as usize, (i
                / width as int) as usize),
        0 <= c < width,
        0 <= r < height,
    ensures
        0 <= r * width + c < cells.len(),
        cells[r * width + c] == (c as usize, r as usize),
{
    lemma_fundamental_div_mod_converse(r * width + c, width as int, r, c);
    assert(0 <= r * width + c < width * height) by (nonlinear_arith)
        requires
            0 <= c < width,
            0 <= r < height,
    ;
}

/// The grid height rounded up to an even number of rows.
pub fn even_height(height: usize) -> (even: usize)
    requires
        height % 2 == 1 ==> height < usize::MAX,
    ensures
        even % 2 == 0,
        height <= even <= height + 1,
        even == (if height % 2 == 1 { height + 1 } else { height as int }),
{
    if height % 2 == 1 {
        height + 1
    } else {
        height
    }
}

} // verus!
