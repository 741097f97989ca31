use vstd::prelude::*;

verus! {

/// The number of samples along each axis of a grid.
pub struct Resolution {
    pub width: usize,
    pub height: usize,
}

impl Resolution {
    /// The number of samples, `width * height`.
    pub fn area(&self) -> (r: usize)
        requires
            self.width * self.height <= usize::MAX,
        ensures
            r == self.width * self.height,
    {
        self.width * self.height
    }

    /// The pair `[width, height]`.
    pub fn slice(&self) -> (r: [usize; 2])
        ensures
            r@ == seq![self.width, self.height],
    {
        let r = [self.width, self.height];
        assert(r@ =~= seq![self.width, self.height]);
        r
    }
}

/// A dense row-major grid: the sample at `(x, y)` is stored at `x + y * width`.
pub struct Grid<T> {
    resolution: Resolution,
    values: Vec<T>,
}

impl<T> Grid<T> {
    /// The number of columns.
    pub closed spec fn spec_width(&self) -> nat {
        self.resolution.width as nat
    }

    /// The number of rows.
    pub closed spec fn spec_height(&self) -> nat {
        self.resolution.height as nat
    }

    /// The samples in row-major order.
    pub closed spec fn cells(&self) -> Seq<T> {
        self.values@
    }

    /// The buffer holds exactly one sample per grid position.
    pub open spec fn wf(&self) -> bool {
        self.cells().len() == self.spec_width() * self.spec_height()
    }

    /// The sample at column `x` and row `y`.
    pub open spec fn at(&self, x: int, y: int) -> T {
        self.cells()[x + y * self.spec_width()]
    }

    pub fn width(&self) -> (r: usize)
        ensures
            r == self.spec_width(),
    {
        self.resolution.width
    }

    pub fn height(&self) -> (r: usize)
        ensures
            r == self.spec_height(),
    {
        self.resolution.height
    }

    /// The dimensions are machine integers.
    pub proof fn lemma_dimensions_fit(&self)
        ensures
            self.spec_width() <= usize::MAX,
            self.spec_height() <= usize::MAX,
    {
    }

    /// Borrows the sample at column `x` and row `y`.
    pub fn get(&self, x: usize, y: usize) -> (r: &T)
        requires
            self.wf(),
            x < self.spec_width(),
            y < self.spec_height(),
        ensures
            *r == self.at(x as int, y as int),
    {
        let len = self.values.len();
        proof {
            lemma_offset_in_bounds(x as int, y as int, self.spec_width() as int, self.spec_height() as int);
            assert(x + y * self.spec_width() < len);
        }
        &self.values[x + y * self.resolution.width]
    }
}

/// A position inside a `width` by `height` grid has a row-major offset inside the buffer.
pub proof fn lemma_offset_in_bounds(x: int, y: int, width: int, height: int)
    requires
        0 <= x < width,
        0 <= y < height,
    ensures
        0 <= y * width,
        0 <= x + y * width < width * height,
{
    assert(0 <= y * width && 0 <= x + y * width < width * height) by (nonlinear_arith)
        requires
            0 <= x < width,
            0 <= y < height,
    ;
}

impl<T: Clone> Grid<T> {
    /// A grid whose samples are copies of `buffer`, read in row-major order.
    pub fn from_buffer(resolution: Resolution, buffer: &Vec<T>) -> (g: Grid<T>)
        requires
            buffer.len() == resolution.width * resolution.height,
        ensures
            g.wf(),
            g.spec_width() == resolution.width,
            g.spec_height() == resolution.height,
            forall|i: int| 0 <= i < buffer.len() ==> cloned(buffer@[i], #[trigger] g.cells()[i]),
    {
        Grid { resolution, values: buffer.clone() }
    }

    /// A grid with every sample a copy of `value`.
    pub fn fill(resolution: Resolution, value: T) -> (g: Grid<T>)
        requires
            resolution.width * resolution.height <= usize::MAX,
        ensures
            g.wf(),
            g.spec_width() == resolution.width,
            g.spec_height() == resolution.height,
            forall|i: int| 0 <= i < g.cells().len() ==> cloned(value, #[trigger] g.cells()[i]),
    {
        let area = resolution.area();
        Grid { resolution, values: vec![value; area] }
    }
}

} // verus!
