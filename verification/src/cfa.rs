//! The colour filter array in front of a sensor.

use vstd::prelude::*;

verus! {

pub const CFA_COLOR_R: usize = 0;

pub const CFA_COLOR_G: usize = 1;

pub const CFA_COLOR_B: usize = 2;

pub const CFA_COLOR_E: usize = 3;

/// The colour of the filter over each pixel of the plane, by row and column.
pub type Mosaic = spec_fn(int, int) -> usize;

/// The mosaic seen from column `x` of row `y`.
pub open spec fn shifted(m: Mosaic, x: int, y: int) -> Mosaic {
    |row: int, col: int| m(row + y, col + x)
}

/// Rows of red and green alternate with rows of green and blue.
pub open spec fn rggb() -> Mosaic {
    |row: int, col: int|
        if row % 2 == 0 {
            if col % 2 == 0 {
                CFA_COLOR_R
            } else {
                CFA_COLOR_G
            }
        } else {
            if col % 2 == 0 {
                CFA_COLOR_G
            } else {
                CFA_COLOR_B
            }
        }
}

/// A Bayer mosaic: RGGB, or what it looks like from another pixel.
pub open spec fn bayer(m: Mosaic) -> bool {
    exists|x: int, y: int| m == #[trigger] shifted(rggb(), x, y)
}

/// The colour that a letter stands for.
pub open spec fn letter_color(letter: char) -> usize {
    if letter == 'R' {
        CFA_COLOR_R
    } else if letter == 'G' {
        CFA_COLOR_G
    } else if letter == 'B' {
        CFA_COLOR_B
    } else {
        CFA_COLOR_E
    }
}

/// The letter of a colour.
pub open spec fn color_letter(color: usize) -> char {
    if color == CFA_COLOR_R {
        'R'
    } else if color == CFA_COLOR_G {
        'G'
    } else if color == CFA_COLOR_B {
        'B'
    } else {
        'E'
    }
}

/// The letters of the first block of a mosaic, row after row.
pub open spec fn block_name(m: Mosaic, side: int) -> Seq<char> {
    Seq::new((side * side) as nat, |k: int| color_letter(m(k / side, k % side)))
}

/// The side of the block that a name of so many letters describes.
pub open spec fn name_side(letters: nat) -> int {
    if letters == 4 {
        2
    } else {
        6
    }
}

/// `name` has a letter for each filter of a block, row after row: of 2 by 2 filters, or of
/// 6 by 6.
pub open spec fn valid_name(name: Seq<char>) -> bool {
    &&& name.len() == 4 || name.len() == 36
    &&& forall|i: int|
        0 <= i < name.len() ==> (#[trigger] name[i] == 'R' || name[i] == 'G' || name[i] == 'B'
            || name[i] == 'E')
}

/// A colour filter array: a square block of filters that is repeated over the sensor.
pub struct CFA {
    side: usize,
    colors: Vec<usize>,
}

impl View for CFA {
    type V = Mosaic;

    closed spec fn view(&self) -> Mosaic {
        |row: int, col: int| self.cell(row % (self.side as int), col % (self.side as int))
    }
}

impl CFA {
    spec fn cell(&self, i: int, j: int) -> usize {
        self.colors@[i * self.side + j]
    }

    /// The side of the block that is repeated.
    pub closed spec fn block_side(&self) -> int {
        self.side as int
    }

    pub closed spec fn wf(&self) -> bool {
        &&& self.side == 2 || self.side == 6
        &&& self.colors@.len() == self.side * self.side
        &&& forall|i: int| 0 <= i < self.colors@.len() ==> #[trigger] self.colors@[i] <= CFA_COLOR_E
    }

    /// The array that `name` describes, such as `RGGB`.
    pub fn new(name: &str) -> (r: Self)
        requires
            valid_name(name@),
        ensures
            r.wf(),
            r.block_side() == name_side(name@.len()),
            forall|row: int, col: int| #[trigger]
                r@(row, col) == letter_color(
                    name@[(row % name_side(name@.len())) * name_side(name@.len()) + col % name_side(
                        name@.len(),
                    )],
                ),
    {
        let n: usize = name.unicode_len();
        let side: usize = if n == 4 {
            2
        } else {
            6
        };
        let mut colors: Vec<usize> = Vec::with_capacity(n);
        let mut i: usize = 0;
        while i < n
            invariant
                n == name@.len(),
                valid_name(name@),
                i <= n,
                colors@.len() == i,
                forall|k: int| 0 <= k < i ==> #[trigger] colors@[k] == letter_color(name@[k]),
            decreases n - i,
        {
            let letter = name.get_char(i);
            let color: usize = if letter == 'R' {
                CFA_COLOR_R
            } else if letter == 'G' {
                CFA_COLOR_G
            } else if letter == 'B' {
                CFA_COLOR_B
            } else {
                CFA_COLOR_E
            };
            colors.push(color);
            i += 1;
        }
        let r = CFA { side, colors };
        proof {
            assert(side * side == n);
            assert forall|row: int, col: int| #[trigger]
                r@(row, col) == letter_color(
                    name@[(row % name_side(name@.len())) * name_side(name@.len()) + col % name_side(
                        name@.len(),
                    )],
                ) by {
                lemma_cell(row % (side as int), col % (side as int), side as int);
            }
        }
        r
    }

    /// The colour of the filter over the pixel in the given row and column.
    pub fn color_at(&self, row: usize, col: usize) -> (r: usize)
        requires
            self.wf(),
        ensures
            r == self@(row as int, col as int),
            r <= CFA_COLOR_E,
    {
        let i: usize = row % self.side;
        let j: usize = col % self.side;
        proof {
            lemma_cell(i as int, j as int, self.side as int);
        }
        self.colors[i * self.side + j]
    }

    /// The same array, counted from column `x` of row `y`.
    pub fn shift(&self, x: usize, y: usize) -> (r: CFA)
        requires
            self.wf(),
        ensures
            r.wf(),
            r.block_side() == self.block_side(),
            r@ == shifted(self@, x as int, y as int),
    {
        let side: usize = self.side;
        let n: usize = side * side;
        let mut colors: Vec<usize> = Vec::with_capacity(n);
        let mut k: usize = 0;
        while k < n
            invariant
                self.wf(),
                side == self.side,
                n == side * side,
                k <= n,
                colors@.len() == k,
                forall|p: int|
                    0 <= p < k ==> #[trigger] colors@[p] == self@(
                        p / (side as int) + y,
                        p % (side as int) + x,
                    ),
                forall|p: int| 0 <= p < k ==> #[trigger] colors@[p] <= CFA_COLOR_E,
            decreases n - k,
        {
            let row: usize = k / side + y % side;
            let col: usize = k % side + x % side;
            proof {
                lemma_wrap(k as int / side as int, y as int, side as int);
                lemma_wrap(k as int % side as int, x as int, side as int);
            }
            colors.push(self.color_at(row, col));
            k += 1;
        }
        let r = CFA { side, colors };
        proof {
            let m = shifted(self@, x as int, y as int);
            assert forall|row: int, col: int| #[trigger] r@(row, col) == m(row, col) by {
                let s = side as int;
                let i = row % s;
                let j = col % s;
                lemma_cell(i, j, s);
                lemma_wrap(y as int, row, s);
                lemma_wrap(x as int, col, s);
            }
            assert(r@ =~= m);
        }
        r
    }

    /// The name of the array: the letters of the first block.
    pub fn name(&self) -> (r: String)
        requires
            self.wf(),
        ensures
            r@ == block_name(self@, self.block_side()),
    {
        let n: usize = self.colors.len();
        let ghost letters = block_name(self@, self.side as int);
        let mut r: String = String::new();
        let mut k: usize = 0;
        while k < n
            invariant
                self.wf(),
                n == self.side * self.side,
                k <= n,
                letters == block_name(self@, self.side as int),
                r@ == letters.take(k as int),
            decreases n - k,
        {
            proof {
                lemma_place(k as int, self.side as int);
                reveal_strlit("R");
                reveal_strlit("G");
                reveal_strlit("B");
                reveal_strlit("E");
            }
            let color: usize = self.color_at(k / self.side, k % self.side);
            let letter = if color == CFA_COLOR_R {
                "R"
            } else if color == CFA_COLOR_G {
                "G"
            } else if color == CFA_COLOR_B {
                "B"
            } else {
                "E"
            };
            r.append(letter);
            assert(letters.take(k + 1) =~= letters.take(k as int) + letter@);
            k += 1;
        }
        assert(letters.take(k as int) =~= letters);
        r
    }

    /// Whether this is RGGB seen from column `x` of row `y`.
    fn has_phase(&self, x: usize, y: usize) -> (r: bool)
        requires
            self.wf(),
            x < 2,
            y < 2,
        ensures
            r <==> self@ == shifted(rggb(), x as int, y as int),
    {
        let ghost m = shifted(rggb(), x as int, y as int);
        let n: usize = self.colors.len();
        let mut k: usize = 0;
        while k < n
            invariant
                self.wf(),
                x < 2,
                y < 2,
                m == shifted(rggb(), x as int, y as int),
                n == self.side * self.side,
                k <= n,
                forall|p: int|
                    0 <= p < k ==> #[trigger] self.colors@[p] == m(
                        p / (self.side as int),
                        p % (self.side as int),
                    ),
            decreases n - k,
        {
            let i: usize = k / self.side;
            let j: usize = k % self.side;
            let expected: usize = if (i + y) % 2 == 0 {
                if (j + x) % 2 == 0 {
                    CFA_COLOR_R
                } else {
                    CFA_COLOR_G
                }
            } else {
                if (j + x) % 2 == 0 {
                    CFA_COLOR_G
                } else {
                    CFA_COLOR_B
                }
            };
            if self.colors[k] != expected {
                proof {
                    lemma_place(k as int, self.side as int);
                    assert(self@(i as int, j as int) == self.cell(i as int, j as int));
                    assert(self@(i as int, j as int) != m(i as int, j as int));
                }
                return false;
            }
            k += 1;
        }
        proof {
            assert forall|row: int, col: int| #[trigger] self@(row, col) == m(row, col) by {
                let s = self.side as int;
                let i = row % s;
                let j = col % s;
                lemma_cell(i, j, s);
                lemma_parity(row, y as int, s);
                lemma_parity(col, x as int, s);
                assert(self.colors@[i * s + j] == m(i, j));
            }
            assert(self@ =~= m);
        }
        true
    }

    /// Whether the array is RGGB or one of its variants.
    pub fn is_rgb(&self) -> (r: bool)
        requires
            self.wf(),
        ensures
            r <==> bayer(self@),
    {
        proof {
            if bayer(self@) {
                let (x, y) = choose|x: int, y: int| self@ == #[trigger] shifted(rggb(), x, y);
                assert(shifted(rggb(), x, y) =~= shifted(rggb(), x % 2, y % 2));
            }
        }
        self.has_phase(0, 0) || self.has_phase(1, 0) || self.has_phase(0, 1) || self.has_phase(1, 1)
    }
}

/// The filter in row `i` and column `j` of a block has a place in row order.
proof fn lemma_cell(i: int, j: int, side: int)
    requires
        side == 2 || side == 6,
        0 <= i < side,
        0 <= j < side,
    ensures
        0 <= i * side <= i * side + j < side * side,
        (i * side + j) / side == i,
        (i * side + j) % side == j,
{
    if side == 2 {
        assert((i * 2 + j) / 2 == i && (i * 2 + j) % 2 == j);
    } else {
        assert((i * 6 + j) / 6 == i && (i * 6 + j) % 6 == j);
    }
}

/// A block has as many even rows and columns as odd ones.
proof fn lemma_parity(a: int, b: int, side: int)
    requires
        side == 2 || side == 6,
    ensures
        (a % side + b) % 2 == (a + b) % 2,
{
    if side == 2 {
        assert((a % 2 + b) % 2 == (a + b) % 2);
    } else {
        assert(a + b == (a % 6 + b) + 2 * (3 * (a / 6)));
    }
}

/// A place in row order is that of a filter of the block.
proof fn lemma_place(k: int, side: int)
    requires
        side == 2 || side == 6,
        0 <= k < side * side,
    ensures
        0 <= k / side < side,
        (k / side) * side + k % side == k,
{
    if side == 2 {
        assert((k / 2) * 2 + k % 2 == k);
    } else {
        assert((k / 6) * 6 + k % 6 == k);
    }
}

/// A shift may be cut down to less than a block before it is applied.
proof fn lemma_wrap(a: int, b: int, side: int)
    requires
        side == 2 || side == 6,
    ensures
        (a + b % side) % side == (a + b) % side,
{
    if side == 2 {
        assert((a + b % 2) % 2 == (a + b) % 2);
    } else {
        assert(a + b == (a + b % 6) + 6 * (b / 6));
    }
}

/// The name of the array that a name describes is that name.
pub proof fn law_name_is_kept(name: Seq<char>, m: Mosaic)
    requires
        valid_name(name),
        forall|row: int, col: int| #[trigger]
            m(row, col) == letter_color(
                name[(row % name_side(name.len())) * name_side(name.len()) + col % name_side(
                    name.len(),
                )],
            ),
    ensures
        block_name(m, name_side(name.len())) == name,
{
    let side = name_side(name.len());
    let letters = block_name(m, side);
    assert(side * side == name.len());
    assert forall|k: int| 0 <= k < letters.len() implies letters[k] == name[k] by {
        lemma_place(k, side);
        lemma_cell(k / side, k % side, side);
        assert((k / side) % side == k / side && (k % side) % side == k % side) by {
            if side == 2 {
                assert((k / 2) % 2 == k / 2);
            } else {
                assert((k / 6) % 6 == k / 6);
            }
        }
        assert(m(k / side, k % side) == letter_color(name[k]));
    }
    assert(letters =~= name);
}

/// A mosaic that is shifted twice is shifted by the sum.
pub proof fn law_shifts_add(m: Mosaic, x: int, y: int, u: int, v: int)
    ensures
        shifted(shifted(m, x, y), u, v) == shifted(m, x + u, y + v),
{
    assert(shifted(shifted(m, x, y), u, v) =~= shifted(m, x + u, y + v));
}

/// Seen from another pixel, a Bayer mosaic is a Bayer mosaic.
pub proof fn law_bayer_from_anywhere(m: Mosaic, x: int, y: int)
    requires
        bayer(m),
    ensures
        bayer(shifted(m, x, y)),
{
    let (dx, dy) = choose|dx: int, dy: int| m == #[trigger] shifted(rggb(), dx, dy);
    law_shifts_add(rggb(), dx, dy, x, y);
    assert(shifted(m, x, y) == shifted(rggb(), dx + x, dy + y));
}

/// The filter two rows below `(y, x)`, and the one two columns on, is of the same colour.
pub open spec fn repeats(m: Mosaic, y: int, x: int) -> bool {
    m(y + 2, x) == m(y, x) && m(y, x + 2) == m(y, x)
}

/// In the block whose first pixel is `(y, x)`, the pixels of one diagonal are green, and of the
/// other one red and one blue.
pub open spec fn green_diagonal(m: Mosaic, y: int, x: int) -> bool {
    let pair = |a: usize, b: usize|
        a == CFA_COLOR_R && b == CFA_COLOR_B || a == CFA_COLOR_B && b == CFA_COLOR_R;
    ||| m(y, x) == CFA_COLOR_G && m(y + 1, x + 1) == CFA_COLOR_G && pair(m(y, x + 1), m(y + 1, x))
    ||| m(y, x + 1) == CFA_COLOR_G && m(y + 1, x) == CFA_COLOR_G && pair(m(y, x), m(y + 1, x + 1))
}

/// A mosaic that repeats after two rows and two columns repeats its first block.
proof fn lemma_block(m: Mosaic, y: int, x: int)
    requires
        forall|y: int, x: int| #[trigger] repeats(m, y, x),
    ensures
        m(y, x) == m(y % 2, x % 2),
    decreases
            (if y < 0 {
                1 - y
            } else {
                y
            }) + (if x < 0 {
                1 - x
            } else {
                x
            }),
{
    if y < 0 {
        assert(repeats(m, y, x));
        lemma_block(m, y + 2, x);
    } else if y >= 2 {
        assert(repeats(m, y - 2, x));
        lemma_block(m, y - 2, x);
    } else if x < 0 {
        assert(repeats(m, y, x));
        lemma_block(m, y, x + 2);
    } else if x >= 2 {
        assert(repeats(m, y, x - 2));
        lemma_block(m, y, x - 2);
    }
}

/// A mosaic is a Bayer mosaic if and only if it repeats after two rows and two columns, and in
/// each block of two by two the pixels of one diagonal are green, and of the other one red and one
/// blue.
pub proof fn law_bayer_blocks(m: Mosaic)
    ensures
        bayer(m) <==> {
            &&& forall|y: int, x: int| #[trigger] repeats(m, y, x)
            &&& forall|y: int, x: int| #[trigger] green_diagonal(m, y, x)
        },
{
    if bayer(m) {
        let (dx, dy) = choose|dx: int, dy: int| m == #[trigger] shifted(rggb(), dx, dy);
        assert forall|y: int, x: int| #[trigger] repeats(m, y, x) by {
            assert(m(y, x) == rggb()(y + dy, x + dx));
            assert(m(y + 2, x) == rggb()(y + 2 + dy, x + dx));
            assert(m(y, x + 2) == rggb()(y + dy, x + 2 + dx));
        }
        assert forall|y: int, x: int| #[trigger] green_diagonal(m, y, x) by {
            assert(m(y, x) == rggb()(y + dy, x + dx));
            assert(m(y + 1, x) == rggb()(y + 1 + dy, x + dx));
            assert(m(y, x + 1) == rggb()(y + dy, x + 1 + dx));
            assert(m(y + 1, x + 1) == rggb()(y + 1 + dy, x + 1 + dx));
        }
    }
    if (forall|y: int, x: int| #[trigger] repeats(m, y, x)) && (forall|y: int, x: int| #[trigger]
        green_diagonal(m, y, x)) {
        assert(green_diagonal(m, 0, 0));
        let dy = if m(0, 0) == CFA_COLOR_R || m(0, 1) == CFA_COLOR_R {
            0int
        } else {
            1int
        };
        let dx = if m(0, 0) == CFA_COLOR_R || m(1, 0) == CFA_COLOR_R {
            0int
        } else {
            1int
        };
        let s = shifted(rggb(), dx, dy);
        assert forall|y: int, x: int| #[trigger] m(y, x) == s(y, x) by {
            lemma_block(m, y, x);
            assert(m(y % 2, x % 2) == s(y % 2, x % 2));
        }
        assert(m =~= s);
    }
}

/// Seen from column `x` of row `y`, a mosaic shows what it has further on by as many columns and
/// rows.
pub proof fn law_shift_moves_the_origin(m: Mosaic, x: int, y: int, row: int, col: int)
    ensures
        shifted(m, x, y)(row, col) == m(row + y, col + x),
        shifted(m, 0, 0) == m,
{
    assert(shifted(m, 0, 0) =~= m);
}

/// Letters and colours stand for each other, one for one.
pub proof fn law_letters(letter: char, color: usize)
    requires
        letter == 'R' || letter == 'G' || letter == 'B' || letter == 'E',
        color <= 3,
    ensures
        color_letter(letter_color(letter)) == letter,
        letter_color(color_letter(color)) == color,
        letter_color('R') == 0 && letter_color('G') == 1 && letter_color('B') == 2,
{
}

} // verus!
