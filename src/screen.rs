use vstd::prelude::*;
use crate::stack::{Color, Stack};
use itertools::Itertools;

verus! {

/// Left cap, body and right cap of a ring.
pub type RingPieces = (&'static str, &'static str, &'static str);

/// Pole, base centre of an empty peg, and base.
pub type StackPieces = (&'static str, &'static str, &'static str);

/// The glyph of a cell that nothing was painted on.
pub const EMPTY: &'static str = " ";

/// The colour of a ring, by its size modulo four.
pub open spec fn ring_color(ring_size: usize) -> Color {
    if ring_size % 4 == 0 {
        Color::Red
    } else if ring_size % 4 == 1 {
        Color::BrightGreen
    } else if ring_size % 4 == 2 {
        Color::Yellow
    } else {
        Color::Blue
    }
}

/// The glyphs of a ring of the given colour.
pub open spec fn ring_pieces(color: Color) -> RingPieces {
    match color {
        Color::Red => ("\x1b[31m╭\x1b[0m", "\x1b[31m─\x1b[0m", "\x1b[31m╮\x1b[0m"),
        Color::Blue => ("\x1b[34m╭\x1b[0m", "\x1b[34m─\x1b[0m", "\x1b[34m╮\x1b[0m"),
        Color::BrightGreen => ("\x1b[32;1m╭\x1b[0m", "\x1b[32;1m─\x1b[0m", "\x1b[32;1m╮\x1b[0m"),
        Color::Yellow => ("\x1b[33m╭\x1b[0m", "\x1b[33m─\x1b[0m", "\x1b[33m╮\x1b[0m"),
        _ => ("╭", "─", "╮"),
    }
}

/// The glyphs of a peg of the given colour; colours without glyphs of their
/// own are drawn plain.
pub open spec fn stack_pieces(color: Color) -> StackPieces {
    match color {
        Color::Red => ("\x1b[31m║\x1b[0m", "\x1b[31m╩\x1b[0m", "\x1b[31m═\x1b[0m"),
        Color::Blue => ("\x1b[34m║\x1b[0m", "\x1b[34m╩\x1b[0m", "\x1b[34m═\x1b[0m"),
        Color::Yellow => ("\x1b[33m║\x1b[0m", "\x1b[33m╩\x1b[0m", "\x1b[33m═\x1b[0m"),
        Color::Green => ("\x1b[32;1m║\x1b[0m", "\x1b[32;1m╩\x1b[0m", "\x1b[32;1m═\x1b[0m"),
        _ => ("║", "╩", "═"),
    }
}

/// The glyph of a ring of size `ring` at `dx` columns from its centre, for
/// `-ring <= dx <= ring`.
pub open spec fn ring_glyph(ring: usize, dx: int) -> &'static str {
    let pieces = ring_pieces(ring_color(ring));
    if ring > 0 && dx == -(ring as int) {
        pieces.0
    } else if ring > 0 && dx == ring {
        pieces.2
    } else {
        pieces.1
    }
}

/// The glyph that painting a peg with `rings` and `color` leaves at `dy` rows
/// below the grid offset and `dx` columns right of the pole, where `prev` was:
/// ring `k` lies on row `largest - 1 - k`, the pole fills the free slots
/// above, and the base, five glyphs wide, lies on row `largest`.
pub open spec fn stack_glyph<'a>(
    prev: &'a str,
    rings: Seq<usize>,
    color: Color,
    largest: int,
    dy: int,
    dx: int,
) -> &'a str {
    let pieces = stack_pieces(color);
    if dy == largest && -2 <= dx <= 2 {
        if dx == 0 && rings.len() == 0 {
            pieces.1
        } else {
            pieces.2
        }
    } else if 0 <= dy < largest && largest - 1 - dy < rings.len() {
        let ring = rings[largest - 1 - dy];
        if -(ring as int) <= dx <= ring {
            ring_glyph(ring, dx)
        } else {
            prev
        }
    } else if 0 <= dy < largest && dx == 0 {
        pieces.0
    } else {
        prev
    }
}

/// `parts` written one after another, with `sep` between each two.
pub open spec fn joined(parts: Seq<Seq<char>>, sep: Seq<char>) -> Seq<char>
    decreases parts.len(),
{
    if parts.len() == 0 {
        Seq::empty()
    } else if parts.len() == 1 {
        parts[0]
    } else {
        joined(parts.drop_last(), sep) + sep + parts.last()
    }
}

/// The text of each of `parts`.
pub open spec fn views(parts: Seq<&str>) -> Seq<Seq<char>> {
    parts.map_values(|p: &str| p@)
}

/// Relies on itertools::Itertools::join: the `Display` text of each item,
/// with `sep` between each two.
#[verifier::external_body]
fn join_strs(parts: &[&str], sep: &str) -> (r: String)
    ensures
        r@ == joined(views(parts@), sep@),
{
    parts.iter().join(sep)
}

/// The colour of a ring of size `*ring_size`.
pub fn get_ring_color(ring_size: &usize) -> (r: Color)
    ensures
        r == ring_color(*ring_size),
{
    let modulo = *ring_size % 4;
    if modulo == 0 {
        Color::Red
    } else if modulo == 1 {
        Color::BrightGreen
    } else if modulo == 2 {
        Color::Yellow
    } else {
        Color::Blue
    }
}

/// The glyphs of a ring of size `*ring_size`.
pub fn get_ring_pieces(ring_size: &usize) -> (r: RingPieces)
    ensures
        r == ring_pieces(ring_color(*ring_size)),
{
    match get_ring_color(ring_size) {
        Color::Red => ("\x1b[31m╭\x1b[0m", "\x1b[31m─\x1b[0m", "\x1b[31m╮\x1b[0m"),
        Color::Blue => ("\x1b[34m╭\x1b[0m", "\x1b[34m─\x1b[0m", "\x1b[34m╮\x1b[0m"),
        Color::BrightGreen => ("\x1b[32;1m╭\x1b[0m", "\x1b[32;1m─\x1b[0m", "\x1b[32;1m╮\x1b[0m"),
        Color::Yellow => ("\x1b[33m╭\x1b[0m", "\x1b[33m─\x1b[0m", "\x1b[33m╮\x1b[0m"),
        _ => ("╭", "─", "╮"),
    }
}

/// The glyphs of a peg of colour `*color`.
pub fn get_stack_pieces(color: &Color) -> (r: StackPieces)
    ensures
        r == stack_pieces(*color),
{
    match color {
        Color::Red => ("\x1b[31m║\x1b[0m", "\x1b[31m╩\x1b[0m", "\x1b[31m═\x1b[0m"),
        Color::Blue => ("\x1b[34m║\x1b[0m", "\x1b[34m╩\x1b[0m", "\x1b[34m═\x1b[0m"),
        Color::Yellow => ("\x1b[33m║\x1b[0m", "\x1b[33m╩\x1b[0m", "\x1b[33m═\x1b[0m"),
        Color::Green => ("\x1b[32;1m║\x1b[0m", "\x1b[32;1m╩\x1b[0m", "\x1b[32;1m═\x1b[0m"),
        _ => ("║", "╩", "═"),
    }
}

/// A `row` by `col` grid of glyphs, stored row after row.
pub struct Screen<'a> {
    vec: Vec<&'a str>,
    col: usize,
    row: usize,
}

/// Cell `(r, c)` of a grid with `cols` columns is stored at `r * cols + c`,
/// and no other cell is stored there.
proof fn lemma_flat_index(rows: int, cols: int, r1: int, c1: int, r2: int, c2: int)
    requires
        0 <= r1 < rows,
        0 <= r2 < rows,
        0 <= c1 < cols,
        0 <= c2 < cols,
    ensures
        0 <= r1 * cols + c1 < rows * cols,
        (r1 * cols + c1 == r2 * cols + c2) == (r1 == r2 && c1 == c2),
{
    assert(0 <= r1 * cols + c1 < rows * cols) by (nonlinear_arith)
        requires
            0 <= r1 < rows,
            0 <= c1 < cols,
    ;
    if r1 < r2 {
        assert(r1 * cols + c1 < r2 * cols + c2) by (nonlinear_arith)
            requires
                r1 < r2,
                0 <= c1 < cols,
                0 <= c2,
        ;
    } else if r2 < r1 {
        assert(r2 * cols + c2 < r1 * cols + c1) by (nonlinear_arith)
            requires
                r2 < r1,
                0 <= c2 < cols,
                0 <= c1,
        ;
    }
}

impl<'a> Screen<'a> {
    /// The number of rows.
    pub closed spec fn rows(&self) -> nat {
        self.row as nat
    }

    /// The number of columns.
    pub closed spec fn cols(&self) -> nat {
        self.col as nat
    }

    /// The glyph in row `r`, column `c`.
    pub closed spec fn glyph(&self, r: int, c: int) -> &'a str {
        self.vec@[r * self.col + c]
    }

    /// The glyphs of row `r`, left to right.
    pub open spec fn line(&self, r: int) -> Seq<&'a str> {
        Seq::new(self.cols(), |c: int| self.glyph(r, c))
    }

    /// The buffer holds exactly one glyph per cell.
    pub closed spec fn wf(&self) -> bool {
        &&& self.vec@.len() == self.row * self.col
        &&& self.row * self.col <= usize::MAX
    }

    /// A blank grid of `row` rows and `col` columns.
    pub fn new(row: usize, col: usize) -> (r: Self)
        requires
            row * col <= usize::MAX,
        ensures
            r.wf(),
            r.rows() == row,
            r.cols() == col,
            forall|i: int, j: int| 0 <= i < row && 0 <= j < col ==> r.glyph(i, j) == EMPTY,
    {
        let n: usize = row * col;
        let mut vec: Vec<&'a str> = Vec::new();
        while vec.len() < n
            invariant
                vec@.len() <= n,
                forall|k: int| 0 <= k < vec@.len() ==> vec@[k] == EMPTY,
            decreases n - vec@.len(),
        {
            vec.push(EMPTY);
        }
        let r = Self { vec, row, col };
        assert forall|i: int, j: int| 0 <= i < row && 0 <= j < col implies r.glyph(i, j)
            == EMPTY by {
            lemma_flat_index(row as int, col as int, i, j, i, j);
        }
        r
    }

    /// The glyphs of row `row`.
    pub fn row(&self, row: usize) -> (r: &[&'a str])
        requires
            self.wf(),
            row < self.rows(),
        ensures
            r@ == self.line(row as int),
    {
        proof {
            let (rows, cols, r) = (self.row as int, self.col as int, row as int);
            assert(0 <= r * cols && r * cols + cols <= rows * cols) by (nonlinear_arith)
                requires
                    0 <= r < rows,
                    0 <= cols,
            ;
        }
        let i = row * self.col;
        let r = vstd::slice::slice_subrange(self.vec.as_slice(), i, i + self.col);
        assert(r@ =~= self.line(row as int)) by {
            assert forall|c: int| 0 <= c < self.col implies r@[c] == self.glyph(row as int, c) by {}
        }
        r
    }

    /// The glyph in row `row`, column `col`.
    pub fn index(&self, row: usize, col: usize) -> (r: &&'a str)
        requires
            self.wf(),
            row < self.rows(),
            col < self.cols(),
        ensures
            *r == self.glyph(row as int, col as int),
    {
        proof {
            lemma_flat_index(self.row as int, self.col as int, row as int, col as int, row as int, col as int);
        }
        let i = row * self.col;
        &self.vec[i + col]
    }

    /// A mutable reference to the glyph in row `row`, column `col`.
    pub fn index_mut(&mut self, row: usize, col: usize) -> (r: &mut &'a str)
        requires
            old(self).wf(),
            row < old(self).rows(),
            col < old(self).cols(),
        ensures
            *r == old(self).glyph(row as int, col as int),
            final(self).wf(),
            final(self).rows() == old(self).rows(),
            final(self).cols() == old(self).cols(),
            final(self).glyph(row as int, col as int) == *final(r),
            forall|i: int, j: int|
                0 <= i < old(self).rows() && 0 <= j < old(self).cols() && !(i == row && j == col)
                    ==> final(self).glyph(i, j) == old(self).glyph(i, j),
    {
        proof {
            lemma_flat_index(self.row as int, self.col as int, row as int, col as int, row as int, col as int);
        }
        proof {
            assert forall|i: int, j: int|
                0 <= i < self.row && 0 <= j < self.col && !(i == row && j == col) implies #[trigger] (i
                    * self.col + j) != row * self.col + col && 0 <= i * self.col + j < self.row
                    * self.col by {
                lemma_flat_index(self.row as int, self.col as int, i, j, row as int, col as int);
            }
        }
        let i = row * self.col;
        &mut self.vec[i + col]
    }

    /// Paints `value` in row `row`, column `col`.
    pub fn set(&mut self, row: usize, col: usize, value: &'a str)
        requires
            old(self).wf(),
            row < old(self).rows(),
            col < old(self).cols(),
        ensures
            final(self).wf(),
            final(self).rows() == old(self).rows(),
            final(self).cols() == old(self).cols(),
            forall|r: int, c: int|
                0 <= r < old(self).rows() && 0 <= c < old(self).cols() ==> final(self).glyph(r, c)
                    == if r == row && c == col {
                    value
                } else {
                    old(self).glyph(r, c)
                },
    {
        proof {
            lemma_flat_index(self.row as int, self.col as int, row as int, col as int, row as int, col as int);
        }
        let i = row * self.col;
        self.vec.set(i + col, value);
        proof {
            assert forall|r: int, c: int|
                0 <= r < self.row && 0 <= c < self.col implies self.glyph(r, c) == if r == row && c
                    == col {
                    value
                } else {
                    old(self).glyph(r, c)
                } by {
                lemma_flat_index(self.row as int, self.col as int, r, c, row as int, col as int);
            }
        }
    }

    /// Paints a ring of size `ring` centred on column `offset_x` of row
    /// `offset_y`: `2 * ring + 1` glyphs, caps at both ends.
    pub fn print_ring(&mut self, ring: usize, offset_x: usize, offset_y: usize)
        requires
            old(self).wf(),
            offset_y < old(self).rows(),
            ring <= offset_x,
            offset_x + ring < old(self).cols(),
        ensures
            final(self).wf(),
            final(self).rows() == old(self).rows(),
            final(self).cols() == old(self).cols(),
            forall|r: int, c: int|
                0 <= r < old(self).rows() && 0 <= c < old(self).cols() ==> final(self).glyph(r, c)
                    == if r == offset_y && offset_x - ring <= c <= offset_x + ring {
                    ring_glyph(ring, c - offset_x)
                } else {
                    old(self).glyph(r, c)
                },
    {
        let ring_width = ring * 2 + 1;
        let half_width = (ring_width - 1) / 2;
        let pieces = get_ring_pieces(&ring);
        self.set(offset_y, offset_x, pieces.1);
        let mut i: usize = 1;
        while i <= half_width
            invariant
                half_width == ring,
                pieces == ring_pieces(ring_color(ring)),
                1 <= i <= half_width + 1,
                ring <= offset_x,
                offset_x + ring < self.cols(),
                offset_y < self.rows(),
                self.wf(),
                self.rows() == old(self).rows(),
                self.cols() == old(self).cols(),
                forall|r: int, c: int|
                    0 <= r < self.rows() && 0 <= c < self.cols() ==> self.glyph(r, c) == if r
                        == offset_y && offset_x - i < c <= offset_x {
                        ring_glyph(ring, c - offset_x)
                    } else {
                        old(self).glyph(r, c)
                    },
            decreases half_width + 1 - i,
        {
            self.set(offset_y, offset_x - i, if i == half_width { pieces.0 } else { pieces.1 });
            i = i + 1;
        }
        let mut i: usize = 1;
        while i <= half_width
            invariant
                half_width == ring,
                pieces == ring_pieces(ring_color(ring)),
                1 <= i <= half_width + 1,
                ring <= offset_x,
                offset_x + ring < self.cols(),
                offset_y < self.rows(),
                self.wf(),
                self.rows() == old(self).rows(),
                self.cols() == old(self).cols(),
                forall|r: int, c: int|
                    0 <= r < self.rows() && 0 <= c < self.cols() ==> self.glyph(r, c) == if r
                        == offset_y && offset_x - ring <= c < offset_x + i {
                        ring_glyph(ring, c - offset_x)
                    } else {
                        old(self).glyph(r, c)
                    },
            decreases half_width + 1 - i,
        {
            self.set(offset_y, offset_x + i, if i == half_width { pieces.2 } else { pieces.1 });
            i = i + 1;
        }
    }

    /// Paints `stack` with its pole at column `offset_x + largest_ring`, in
    /// rows `offset_y` to `offset_y + largest_ring`, the base on the last.
    pub fn print_stack(&mut self, stack: &Stack, largest_ring: usize, offset_x: usize, offset_y: usize)
        requires
            old(self).wf(),
            stack.rings@.len() <= largest_ring,
            forall|k: int| 0 <= k < stack.rings@.len() ==> stack.rings@[k] <= largest_ring,
            offset_y + largest_ring < old(self).rows(),
            offset_x + largest_ring >= 2,
            offset_x + 2 * largest_ring < old(self).cols(),
            offset_x + largest_ring + 2 < old(self).cols(),
        ensures
            final(self).wf(),
            final(self).rows() == old(self).rows(),
            final(self).cols() == old(self).cols(),
            forall|r: int, c: int|
                0 <= r < old(self).rows() && 0 <= c < old(self).cols() ==> final(self).glyph(r, c)
                    == stack_glyph(
                    old(self).glyph(r, c),
                    stack.rings@,
                    stack.color,
                    largest_ring as int,
                    r - offset_y,
                    c - offset_x - largest_ring,
                ),
    {
        let largest_ring_width = largest_ring * 2 + 1;
        let half_width = (largest_ring_width - 1) / 2;
        let cx = offset_x + half_width;
        let ghost rings = stack.rings@;
        let ghost lr = largest_ring as int;
        let mut ring_index: usize = 0;
        while ring_index < stack.rings.len()
            invariant
                half_width == largest_ring,
                cx == offset_x + largest_ring,
                rings == stack.rings@,
                lr == largest_ring,
                rings.len() <= largest_ring,
                forall|k: int| 0 <= k < rings.len() ==> rings[k] <= largest_ring,
                offset_y + largest_ring < self.rows(),
                offset_x + 2 * largest_ring < self.cols(),
                0 <= ring_index <= rings.len(),
                self.wf(),
                self.rows() == old(self).rows(),
                self.cols() == old(self).cols(),
                forall|r: int, c: int|
                    #![trigger self.glyph(r, c)]
                    0 <= r < self.rows() && 0 <= c < self.cols() ==> self.glyph(r, c) == if 0 <= r
                        - offset_y < lr && lr - 1 - (r - offset_y) < ring_index && -(rings[lr - 1
                        - (r - offset_y)] as int) <= c - cx <= rings[lr - 1 - (r - offset_y)] {
                        ring_glyph(rings[lr - 1 - (r - offset_y)], c - cx)
                    } else {
                        old(self).glyph(r, c)
                    },
            decreases rings.len() - ring_index,
        {
            let ring = stack.rings[ring_index];
            let ghost before = *self;
            self.print_ring(ring, cx, offset_y + largest_ring - 1 - ring_index);
            proof {
                assert forall|r: int, c: int|
                    0 <= r < self.rows() && 0 <= c < self.cols() implies self.glyph(r, c) == if 0
                        <= r - offset_y < lr && lr - 1 - (r - offset_y) < ring_index + 1 && -(
                    rings[lr - 1 - (r - offset_y)] as int) <= c - cx <= rings[lr - 1 - (r
                        - offset_y)] {
                        ring_glyph(rings[lr - 1 - (r - offset_y)], c - cx)
                    } else {
                        old(self).glyph(r, c)
                    } by {
                    let _ = before.glyph(r, c);
                }
            }
            ring_index = ring_index + 1;
        }
        let pieces = get_stack_pieces(&stack.color);
        let mut stack_index: usize = stack.rings.len();
        while stack_index < largest_ring
            invariant
                half_width == largest_ring,
                cx == offset_x + largest_ring,
                rings == stack.rings@,
                lr == largest_ring,
                pieces == stack_pieces(stack.color),
                rings.len() <= stack_index <= largest_ring,
                offset_y + largest_ring < self.rows(),
                offset_x + 2 * largest_ring < self.cols(),
                self.wf(),
                self.rows() == old(self).rows(),
                self.cols() == old(self).cols(),
                forall|r: int, c: int|
                    #![trigger self.glyph(r, c)]
                    0 <= r < self.rows() && 0 <= c < self.cols() ==> self.glyph(r, c) == if 0 <= r
                        - offset_y < lr && lr - 1 - (r - offset_y) < rings.len() {
                        if -(rings[lr - 1 - (r - offset_y)] as int) <= c - cx <= rings[lr - 1 - (r
                            - offset_y)] {
                            ring_glyph(rings[lr - 1 - (r - offset_y)], c - cx)
                        } else {
                            old(self).glyph(r, c)
                        }
                    } else if 0 <= r - offset_y < lr && lr - 1 - (r - offset_y) < stack_index && c
                        == cx {
                        pieces.0
                    } else {
                        old(self).glyph(r, c)
                    },
            decreases largest_ring - stack_index,
        {
            let ghost before = *self;
            self.set(offset_y + largest_ring - stack_index - 1, cx, pieces.0);
            proof {
                assert forall|r: int, c: int|
                    0 <= r < self.rows() && 0 <= c < self.cols() implies self.glyph(r, c) == if 0
                        <= r - offset_y < lr && lr - 1 - (r - offset_y) < rings.len() {
                        if -(rings[lr - 1 - (r - offset_y)] as int) <= c - cx <= rings[lr - 1 - (r
                            - offset_y)] {
                            ring_glyph(rings[lr - 1 - (r - offset_y)], c - cx)
                        } else {
                            old(self).glyph(r, c)
                        }
                    } else if 0 <= r - offset_y < lr && lr - 1 - (r - offset_y) < stack_index + 1
                        && c == cx {
                        pieces.0
                    } else {
                        old(self).glyph(r, c)
                    } by {
                    let _ = before.glyph(r, c);
                }
            }
            stack_index = stack_index + 1;
        }
        let base = offset_y + largest_ring;
        self.set(base, cx - 2, pieces.2);
        self.set(base, cx - 1, pieces.2);
        self.set(base, cx + 1, pieces.2);
        self.set(base, cx + 2, pieces.2);
        if stack.rings.len() == 0 {
            self.set(base, cx, pieces.1);
        } else {
            self.set(base, cx, pieces.2);
        }
    }

    /// The text of each cell, by row and column.
    pub open spec fn cell_text(&self) -> spec_fn(int, int) -> Seq<char> {
        |r: int, c: int| self.glyph(r, c)@
    }

    /// The text of the whole grid: each row followed by a line break.
    pub open spec fn text(&self) -> Seq<char> {
        grid_text(self.rows(), self.cols(), self.cell_text())
    }

    /// Writes the grid out as text, row by row, each row ending in a line break.
    pub fn render(&self) -> (r: String)
        requires
            self.wf(),
        ensures
            r@ == self.text(),
    {
        let ghost cell = self.cell_text();
        let mut lines: Vec<String> = Vec::new();
        let mut i: usize = 0;
        while i < self.row
            invariant
                self.wf(),
                cell == self.cell_text(),
                i <= self.rows(),
                lines@.len() == i,
                forall|k: int| 0 <= k < i ==> lines@[k]@ == row_text(self.cols(), cell, k),
            decreases self.row - i,
        {
            let line = join_strs(self.row(i), "");
            proof {
                reveal_strlit("");
                assert(""@ =~= Seq::<char>::empty());
                assert(views(self.line(i as int)) =~= Seq::new(self.cols(), |c: int| cell(i as int, c)));
                assert(line@ == row_text(self.cols(), cell, i as int));
            }
            lines.push(line);
            i = i + 1;
        }
        let mut parts: Vec<&str> = Vec::new();
        let mut j: usize = 0;
        while j < lines.len()
            invariant
                j <= lines@.len(),
                parts@.len() == j,
                forall|k: int| 0 <= k < j ==> parts@[k]@ == lines@[k]@,
            decreases lines@.len() - j,
        {
            parts.push(lines[j].as_str());
            j = j + 1;
        }
        parts.push("");
        proof {
            reveal_strlit("");
            reveal_strlit("\n");
            assert(""@ =~= Seq::<char>::empty());
            assert("\n"@ =~= seq!['\n']);
            assert(views(parts@) =~= Seq::new(self.rows(), |r: int| row_text(self.cols(), cell, r)).push(
                Seq::empty(),
            ));
        }
        join_strs(parts.as_slice(), "\n")
    }
}

/// Row `r` of a grid with `cols` columns whose cell `(r, c)` reads `cell(r, c)`.
pub open spec fn row_text(cols: nat, cell: spec_fn(int, int) -> Seq<char>, r: int) -> Seq<char> {
    joined(Seq::new(cols, |c: int| cell(r, c)), Seq::empty())
}

/// The text of a `rows` by `cols` grid: each row followed by a line break.
pub open spec fn grid_text(rows: nat, cols: nat, cell: spec_fn(int, int) -> Seq<char>) -> Seq<char> {
    joined(Seq::new(rows, |r: int| row_text(cols, cell, r)).push(Seq::empty()), seq!['\n'])
}

/// The number of rings on all of `stacks` together.
pub open spec fn total_rings(stacks: Seq<&Stack>) -> nat
    decreases stacks.len(),
{
    if stacks.len() == 0 {
        0
    } else {
        total_rings(stacks.drop_last()) + stacks.last().rings@.len()
    }
}

/// Each peg, and each first part of the list, holds at most all the rings.
proof fn lemma_total_rings(stacks: Seq<&Stack>, i: int)
    requires
        0 <= i < stacks.len(),
    ensures
        stacks[i].rings@.len() <= total_rings(stacks),
        total_rings(stacks.take(i)) + stacks[i].rings@.len() == total_rings(stacks.take(i + 1)),
        total_rings(stacks.take(i + 1)) <= total_rings(stacks),
    decreases stacks.len(),
{
    assert(stacks.take(i + 1).drop_last() =~= stacks.take(i));
    if i < stacks.len() - 1 {
        lemma_total_rings(stacks.drop_last(), i);
        assert(stacks.drop_last().take(i) =~= stacks.take(i));
        assert(stacks.drop_last().take(i + 1) =~= stacks.take(i + 1));
    } else {
        assert(stacks.take(i + 1) =~= stacks);
    }
}

/// The glyph in row `r`, column `c` of the frame that shows `stacks` side by
/// side, `2 * h + 3` columns apart, each on a pole of height `h`.
pub open spec fn frame_glyph(stacks: Seq<&Stack>, h: int, r: int, c: int) -> &'static str
    decreases stacks.len(),
{
    if stacks.len() == 0 {
        EMPTY
    } else {
        let lo = (stacks.len() - 1) * (2 * h + 3);
        if c >= lo {
            stack_glyph(EMPTY, stacks.last().rings@, stacks.last().color, h, r, c - lo - h)
        } else {
            frame_glyph(stacks.drop_last(), h, r, c)
        }
    }
}

/// The height of the poles in a frame of `stacks`: the number of rings on
/// all of them together, and at least two, so that every base fits.
pub open spec fn frame_height(stacks: Seq<&Stack>) -> int {
    if total_rings(stacks) >= 2 {
        total_rings(stacks) as int
    } else {
        2
    }
}

/// The text of one frame: `stacks` side by side in the given order, each on a
/// pole of height `frame_height(stacks)`.
pub fn draw_stacks(stacks: &Vec<&Stack>) -> (r: String)
    requires
        (frame_height(stacks@) + 1) * ((2 * frame_height(stacks@) + 3) * stacks@.len()) <= usize::MAX,
        forall|i: int, k: int|
            0 <= i < stacks@.len() && 0 <= k < stacks@[i].rings@.len() ==> stacks@[i].rings@[k]
                <= frame_height(stacks@),
    ensures
        ({
            let h = frame_height(stacks@);
            r@ == grid_text(
                (h + 1) as nat,
                ((2 * h + 3) * stacks@.len()) as nat,
                |r: int, c: int| frame_glyph(stacks@, h, r, c)@,
            )
        }),
{
    let ghost total = total_rings(stacks@) as int;
    let ghost fh = frame_height(stacks@);
    let n = stacks.len();
    proof {
        if n == 0 {
            assert(total == 0);
        } else {
            assert(2 * fh + 3 <= usize::MAX) by (nonlinear_arith)
                requires
                    (fh + 1) * ((2 * fh + 3) * n) <= usize::MAX,
                    fh >= 2,
                    n >= 1,
            ;
        }
    }
    let mut total_height: usize = 0;
    let mut i: usize = 0;
    while i < n
        invariant
            n == stacks@.len(),
            i <= n,
            total == total_rings(stacks@) as int,
            total <= usize::MAX,
            total_height == total_rings(stacks@.take(i as int)),
        decreases n - i,
    {
        proof {
            lemma_total_rings(stacks@, i as int);
        }
        total_height = total_height + stacks[i].rings.len();
        i = i + 1;
    }
    proof {
        assert(stacks@.take(n as int) =~= stacks@);
    }
    let max_height: usize = if total_height < 2 { 2 } else { total_height };
    let max_width = max_height * 2 + 1;
    let spacing = max_width + 2;
    proof {
        assert(spacing * n <= usize::MAX) by (nonlinear_arith)
            requires
                (max_height + 1) * (spacing * n) <= usize::MAX,
        ;
    }
    let mut screen = Screen::new(max_height + 1, spacing * n);
    let ghost h = max_height as int;
    let mut offset_x: usize = 0;
    let mut index: usize = 0;
    while index < n
        invariant
            n == stacks@.len(),
            h == max_height,
            h == frame_height(stacks@),
            h >= 2,
            spacing == 2 * h + 3,
            index <= n,
            offset_x == index * spacing,
            (h + 1) * (spacing * n) <= usize::MAX,
            forall|i: int, k: int|
                0 <= i < stacks@.len() && 0 <= k < stacks@[i].rings@.len() ==> stacks@[i].rings@[k]
                    <= h,
            screen.wf(),
            screen.rows() == h + 1,
            screen.cols() == spacing * n,
            forall|r: int, c: int|
                0 <= r < screen.rows() && 0 <= c < screen.cols() ==> screen.glyph(r, c) == if c
                    < offset_x {
                    frame_glyph(stacks@.take(index as int), h, r, c)
                } else {
                    EMPTY
                },
        decreases n - index,
    {
        proof {
            lemma_total_rings(stacks@, index as int);
            assert(offset_x + spacing <= spacing * n) by (nonlinear_arith)
                requires
                    offset_x == index * spacing,
                    index < n,
            ;
        }
        let ghost before = screen;
        screen.print_stack(stacks[index], max_height, offset_x, 0);
        proof {
            let taken = stacks@.take(index as int + 1);
            assert(taken.drop_last() =~= stacks@.take(index as int));
            assert(taken.last() == stacks@[index as int]);
            assert(taken.len() - 1 == index);
            assert forall|r: int, c: int|
                0 <= r < screen.rows() && 0 <= c < screen.cols() implies screen.glyph(r, c) == if c
                    < offset_x + spacing {
                    frame_glyph(taken, h, r, c)
                } else {
                    EMPTY
                } by {
                let _ = before.glyph(r, c);
            }
        }
        offset_x = offset_x + spacing;
        index = index + 1;
        proof {
            assert(offset_x == index * spacing) by (nonlinear_arith)
                requires
                    offset_x == (index - 1) * spacing + spacing,
            ;
        }
    }
    proof {
        assert(stacks@.take(n as int) =~= stacks@);
        assert(offset_x == spacing * n) by (nonlinear_arith)
            requires
                offset_x == index * spacing,
                index == n,
        ;
    }
    let text = screen.render();
    proof {
        let cell_a = |r: int, c: int| screen.glyph(r, c)@;
        let cell_b = |r: int, c: int| frame_glyph(stacks@, h, r, c)@;
        assert forall|r: int| 0 <= r < h + 1 implies row_text(screen.cols(), cell_a, r) == row_text(
            screen.cols(),
            cell_b,
            r,
        ) by {
            assert forall|c: int| 0 <= c < screen.cols() implies #[trigger] cell_a(r, c) == cell_b(r, c) by {
                assert(screen.glyph(r, c) == frame_glyph(stacks@.take(n as int), h, r, c));
            }
            assert(Seq::new(screen.cols(), |c: int| cell_a(r, c)) =~= Seq::new(
                screen.cols(),
                |c: int| cell_b(r, c),
            ));
        }
        assert(Seq::new(screen.rows(), |r: int| row_text(screen.cols(), cell_a, r)) =~= Seq::new(
            screen.rows(),
            |r: int| row_text(screen.cols(), cell_b, r),
        ));
    }
    text
}

} // verus!
