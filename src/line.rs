use vstd::prelude::*;

verus! {

/// A pixel coordinate.
pub type Num = i16;

pub open spec fn abs_diff(a: Num, b: Num) -> int {
    if a >= b {
        a - b
    } else {
        b - a
    }
}

/// How a line is walked: start and end along the longer axis, the other
/// coordinate at the start and at the end, the extents along the walked and the
/// other axis, and whether the axes were swapped to walk along the y axis.
pub open spec fn walk_params(x: (Num, Num), y: (Num, Num)) -> (int, int, int, int, int, int, bool) {
    let dx = abs_diff(x.0, x.1);
    let dy = abs_diff(y.0, y.1);
    if dy < dx {
        if x.0 > x.1 {
            (x.1 as int, y.1 as int, x.0 as int, y.0 as int, dx, dy, false)
        } else {
            (x.0 as int, y.0 as int, x.1 as int, y.1 as int, dx, dy, false)
        }
    } else if y.0 > y.1 {
        (y.1 as int, x.1 as int, y.0 as int, x.0 as int, dy, dx, true)
    } else {
        (y.0 as int, x.0 as int, y.1 as int, x.1 as int, dy, dx, true)
    }
}

/// The minor coordinate and the decision value after `k` steps of the walk.
pub open spec fn walk_state(y0: int, y_up: bool, dx: int, dy: int, k: nat) -> (int, int)
    decreases k,
{
    if k == 0 {
        (y0, 2 * dy - dx)
    } else {
        let (y, d) = walk_state(y0, y_up, dx, dy, (k - 1) as nat);
        if d > 0 {
            (if y_up { y + 1 } else { y - 1 }, d - 2 * dx)
        } else {
            (y, d + 2 * dy)
        }
    }
}

/// The `k`-th pixel of the line from `(x.0, y.0)` to `(x.1, y.1)`.
pub open spec fn line_point(x: (Num, Num), y: (Num, Num), k: nat) -> (Num, Num) {
    let (a0, b0, a1, b1, da, db, swapped) = walk_params(x, y);
    let b = walk_state(b0, b0 <= b1, da, db, k).0;
    let a = a0 + k;
    if swapped {
        (b as Num, a as Num)
    } else {
        (a as Num, b as Num)
    }
}

/// The number of pixels of the line.
pub open spec fn pixel_count(x: (Num, Num), y: (Num, Num)) -> nat {
    let dx = abs_diff(x.0, x.1);
    let dy = abs_diff(y.0, y.1);
    (if dx > dy { dx } else { dy }) as nat + 1
}

/// The pixels of the line, from the end with the smaller coordinate along the
/// walked axis.
pub open spec fn line_pixels(x: (Num, Num), y: (Num, Num)) -> Seq<(Num, Num)> {
    Seq::new(pixel_count(x, y), |k: int| line_point(x, y, k as nat))
}

/// Each extent fits twice in a coordinate.
pub open spec fn line_fits(x: (Num, Num), y: (Num, Num)) -> bool {
    abs_diff(x.0, x.1) <= 0x3fff && abs_diff(y.0, y.1) <= 0x3fff
}

/// A rasterised line segment between two pixels, walked by Bresenham's method.
pub struct Line {
    x: (Num, Num),
    y: (Num, Num),
    dx: Num,
    dy: Num,
}

impl View for Line {
    type V = ((Num, Num), (Num, Num));

    closed spec fn view(&self) -> ((Num, Num), (Num, Num)) {
        (self.x, self.y)
    }
}

/// A walk over the pixels of a line.
pub struct LineIter {
    d: i32,
    dx: i32,
    dy: i32,
    y: i32,
    x: i32,
    x0: i32,
    x1: i32,
    swap: bool,
    yi_plus: bool,
    line: Ghost<((Num, Num), (Num, Num))>,
}

impl LineIter {
    /// The line walked.
    pub closed spec fn line(&self) -> ((Num, Num), (Num, Num)) {
        self.line@
    }

    /// The number of pixels handed out so far.
    pub closed spec fn taken(&self) -> int {
        self.x - self.x0
    }

    pub closed spec fn wf(&self) -> bool {
        let (x, y) = self.line@;
        let (a0, b0, a1, b1, da, db, swapped) = walk_params(x, y);
        &&& line_fits(x, y)
        &&& self.x0 == a0
        &&& self.x1 == a1
        &&& self.dx == da
        &&& self.dy == db
        &&& self.swap == swapped
        &&& self.yi_plus == (b0 <= b1)
        &&& a0 <= a1
        &&& a1 - a0 == pixel_count(x, y) - 1
        &&& a0 <= self.x <= a1 + 1
        &&& (self.y as int, self.d as int) == walk_state(b0, b0 <= b1, da, db, (self.x - a0) as nat)
        &&& -2 * da <= self.d <= 2 * db
        &&& b0 - (self.x - a0) <= self.y <= b0 + (self.x - a0)
    }

    proof fn lemma_taken_bounds(&self)
        requires
            self.wf(),
        ensures
            0 <= self.taken() <= pixel_count(self.line().0, self.line().1),
    {
    }

    /// Hands out the next pixel, or `None` once the line is done.
    pub fn next(&mut self) -> (r: Option<(Num, Num)>)
        requires
            old(self).wf(),
        ensures
            final(self).wf(),
            final(self).line() == old(self).line(),
            old(self).taken() < pixel_count(old(self).line().0, old(self).line().1) ==> r == Some(
                line_point(old(self).line().0, old(self).line().1, old(self).taken() as nat),
            ) && final(self).taken() == old(self).taken() + 1,
            old(self).taken() >= pixel_count(old(self).line().0, old(self).line().1) ==> r.is_none()
                && final(self).taken() == old(self).taken(),
    {
        if self.x > self.x1 || self.x < self.x0 {
            return None;
        }
        let ghost k = (self.x - self.x0) as nat;
        let r = (self.x as Num, self.y as Num);
        if self.d > 0 {
            if self.yi_plus {
                self.y = self.y + 1;
            } else {
                self.y = self.y - 1;
            }
            self.d = self.d - 2 * self.dx;
        } else {
            self.d = self.d + 2 * self.dy;
        }
        self.x = self.x + 1;
        proof {
            let (x, y) = self.line@;
            let (a0, b0, a1, b1, da, db, swapped) = walk_params(x, y);
            assert(walk_state(b0, b0 <= b1, da, db, (k + 1) as nat) == (self.y as int, self.d as int));
        }
        Some(if self.swap { (r.1, r.0) } else { r })
    }

    /// The pixels not handed out yet, in order.
    pub fn collect_points(self) -> (r: Vec<(Num, Num)>)
        requires
            self.wf(),
        ensures
            r@ == line_pixels(self.line().0, self.line().1).subrange(
                self.taken(),
                pixel_count(self.line().0, self.line().1) as int,
            ),
    {
        let mut it = self;
        let ghost start = it.taken();
        let ghost l = it.line();
        let mut result: Vec<(Num, Num)> = Vec::new();
        proof {
            it.lemma_taken_bounds();
            assert(line_pixels(l.0, l.1).len() == pixel_count(l.0, l.1));
            assert(result@ =~= line_pixels(l.0, l.1).subrange(start, it.taken()));
        }
        loop
            invariant
                it.wf(),
                it.line() == l,
                0 <= start <= it.taken() <= pixel_count(l.0, l.1),
                result@ == line_pixels(l.0, l.1).subrange(start, it.taken()),
            ensures
                result@ == line_pixels(l.0, l.1).subrange(start, pixel_count(l.0, l.1) as int),
            decreases pixel_count(l.0, l.1) - it.taken(),
        {
            let ghost before = it.taken();
            let ghost prev = result@;
            let next = it.next();
            match next {
                Some(p) => {
                    proof {
                        it.lemma_taken_bounds();
                    }
                    let ghost ls = line_pixels(l.0, l.1);
                    assert(ls.len() == pixel_count(l.0, l.1));
                    assert(p == ls[before]);
                    result.push(p);
                    assert forall|i: int| 0 <= i < result@.len() implies result@[i] == ls.subrange(start, before + 1)[i] by {
                        if i < prev.len() {
                            assert(prev[i] == ls.subrange(start, before)[i]);
                        }
                    }
                    assert(result@ =~= ls.subrange(start, it.taken()));
                },
                None => {
                    assert(line_pixels(l.0, l.1).len() == pixel_count(l.0, l.1));
                    assert(result@ =~= line_pixels(l.0, l.1).subrange(start, pixel_count(l.0, l.1) as int));
                    break;
                },
            }
        }
        result
    }
}

fn abs_diff_exec(a: Num, b: Num) -> (r: Num)
    requires
        abs_diff(a, b) <= 0x7fff,
    ensures
        r as int == abs_diff(a, b),
{
    if a >= b {
        a - b
    } else {
        b - a
    }
}

fn line_iterator(
    x0: Num,
    y0: Num,
    x1: Num,
    y1: Num,
    dx: Num,
    dy: Num,
    swap: bool,
    line: Ghost<((Num, Num), (Num, Num))>,
) -> (r: LineIter)
    requires
        line_fits(line@.0, line@.1),
        walk_params(line@.0, line@.1) == (x0 as int, y0 as int, x1 as int, y1 as int, dx as int, dy as int, swap),
    ensures
        r.wf(),
        r.line() == line@,
        r.taken() == 0,
{
    let dx = dx as i32;
    let dy = dy as i32;
    LineIter {
        d: 2 * dy - dx,
        dx,
        dy,
        y: y0 as i32,
        x: x0 as i32,
        x0: x0 as i32,
        x1: x1 as i32,
        swap,
        yi_plus: y0 <= y1,
        line,
    }
}

impl Line {
    pub fn new(x: (Num, Num), y: (Num, Num)) -> (r: Line)
        requires
            line_fits(x, y),
        ensures
            r@ == (x, y),
            r.wf(),
    {
        Line { x, y, dx: abs_diff_exec(x.1, x.0), dy: abs_diff_exec(y.1, y.0) }
    }

    pub closed spec fn wf(&self) -> bool {
        &&& line_fits(self.x, self.y)
        &&& self.dx == abs_diff(self.x.0, self.x.1)
        &&& self.dy == abs_diff(self.y.0, self.y.1)
    }

    pub fn num_pixels(&self) -> (r: usize)
        requires
            self.wf(),
        ensures
            r == pixel_count(self@.0, self@.1),
    {
        (if self.dx > self.dy { self.dx } else { self.dy } + 1) as usize
    }

    /// A walk over the pixels of the line.
    pub fn iter(&self) -> (r: LineIter)
        requires
            self.wf(),
        ensures
            r.wf(),
            r.line() == self@,
            r.taken() == 0,
    {
        let g = Ghost((self.x, self.y));
        if self.dy < self.dx {
            if self.x.0 > self.x.1 {
                line_iterator(self.x.1, self.y.1, self.x.0, self.y.0, self.dx, self.dy, false, g)
            } else {
                line_iterator(self.x.0, self.y.0, self.x.1, self.y.1, self.dx, self.dy, false, g)
            }
        } else if self.y.0 > self.y.1 {
            line_iterator(self.y.1, self.x.1, self.y.0, self.x.0, self.dy, self.dx, true, g)
        } else {
            line_iterator(self.y.0, self.x.0, self.y.1, self.x.1, self.dy, self.dx, true, g)
        }
    }

    /// The pixels of the line are handed out from its far end.
    pub fn iterator_reversed(&self) -> (r: bool)
        requires
            self.wf(),
        ensures
            r == ((abs_diff(self@.0.0, self@.0.1) > abs_diff(self@.1.0, self@.1.1) && self@.0.0 > self@.0.1)
                || (abs_diff(self@.0.0, self@.0.1) <= abs_diff(self@.1.0, self@.1.1) && self@.1.0 > self@.1.1)),
    {
        (self.dy < self.dx && self.x.0 > self.x.1) || (self.dy >= self.dx && self.y.0 > self.y.1)
    }
}

} // verus!
