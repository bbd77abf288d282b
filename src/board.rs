//! Columns of coloured balls: each column is a stack filled from index 0
//! upwards, and the whole board can be packed into one integer key that
//! ignores the order of the columns.
use vstd::prelude::*;
use vstd::arithmetic::power2::{lemma2_to64, lemma_pow2_adds, lemma_pow2_strictly_increases, pow2};
use vstd::bits::lemma_usize_shl_is_mul;
use vstd::layout::unsigned_int_max_values;
use vstd::relations::{sorted_by, total_ordering};
use vstd::seq_lib::lemma_sorted_unique;

verus! {

/// The colour of a ball.
#[derive(Clone, Copy, PartialEq, Eq, Structural, PartialOrd, Ord, Debug)]
pub enum Color {
    Red,
    Green,
    Blue,
}

/// The code of a colour in a packed key; 0 stands for an empty cell.
pub open spec fn color_code(c: Color) -> nat {
    match c {
        Color::Red => 1,
        Color::Green => 2,
        Color::Blue => 3,
    }
}

impl Color {
    /// Every colour, in declaration order.
    pub fn all() -> (r: Vec<Color>)
        ensures
            r@ == seq![Color::Red, Color::Green, Color::Blue],
    {
        let mut r: Vec<Color> = Vec::new();
        r.push(Color::Red);
        r.push(Color::Green);
        r.push(Color::Blue);
        proof {
            assert(r@ =~= seq![Color::Red, Color::Green, Color::Blue]);
        }
        r
    }

    /// The number of colours.
    pub fn len() -> (r: usize)
        ensures
            r == 3,
    {
        Self::all().len()
    }

    /// Bits needed for the code of one cell: every colour and the empty
    /// cell, i.e. the number of binary digits of the number of colours.
    pub fn bits() -> (r: usize)
        ensures
            r == 2,
    {
        let mut n = Self::len();
        let mut count: usize = 1;
        while n > 1
            invariant
                (n == 3 && count == 1) || (n == 1 && count == 2),
            decreases n,
        {
            count += 1;
            assert(3usize >> 1usize == 1usize) by (bit_vector);
            n >>= 1;
        }
        count
    }

    /// The code of this colour in a packed key.
    pub fn to_bit(&self) -> (r: usize)
        ensures
            r == color_code(*self),
    {
        match self {
            Color::Red => 1,
            Color::Green => 2,
            Color::Blue => 3,
        }
    }
}

/// A column is a stack: no ball above an empty cell.
pub open spec fn packed(col: Seq<Option<Color>>) -> bool {
    forall|i: int, j: int|
        #![trigger col[i], col[j]]
        0 <= i < j < col.len() && col[i] is None ==> col[j] is None
}

/// Columns of one common length, each a stack.
pub open spec fn board_wf(b: Seq<Seq<Option<Color>>>) -> bool {
    forall|x: int|
        0 <= x < b.len() ==> (#[trigger] b[x]).len() == b[0].len() && packed(b[x])
}

/// `t` is where the next ball of `col` goes: every cell below holds a ball
/// and the cell at `t`, if any, is empty.
pub open spec fn is_top(col: Seq<Option<Color>>, t: int) -> bool {
    &&& 0 <= t <= col.len()
    &&& forall|j: int| 0 <= j < t ==> (#[trigger] col[j]) is Some
    &&& t < col.len() ==> col[t] is None
}

/// Where the next ball of `col` goes.
pub open spec fn top_of(col: Seq<Option<Color>>) -> int {
    choose|t: int| is_top(col, t)
}

proof fn lemma_top_unique(col: Seq<Option<Color>>, t: int)
    requires
        is_top(col, t),
    ensures
        top_of(col) == t,
{
    let u = top_of(col);
    assert(is_top(col, u));
    if u < t {
        assert(col[u] is Some);
    }
    if t < u {
        assert(col[t] is Some);
    }
}

/// The code of one cell: its colour's code, or 0 when empty.
pub open spec fn cell_code(c: Option<Color>) -> nat {
    match c {
        Some(c) => color_code(c),
        None => 0,
    }
}

/// The code of a column: its cells as base-4 digits, the bottom cell most
/// significant.
pub open spec fn column_code(col: Seq<Option<Color>>) -> nat
    decreases col.len(),
{
    if col.len() == 0 {
        0
    } else {
        column_code(col.drop_last()) * 4 + cell_code(col.last())
    }
}

/// The codes of all columns, in column order.
pub open spec fn column_codes(b: Seq<Seq<Option<Color>>>) -> Seq<usize> {
    b.map_values(|col: Seq<Option<Color>>| column_code(col) as usize)
}

/// Ascending order of column codes.
pub open spec fn ascending() -> spec_fn(usize, usize) -> bool {
    |a: usize, b: usize| a <= b
}

/// The codes as digits of `width` bits each, the first most significant.
pub open spec fn packed_codes(codes: Seq<usize>, width: nat) -> nat
    decreases codes.len(),
{
    if codes.len() == 0 {
        0
    } else {
        packed_codes(codes.drop_last(), width) * pow2(width) + codes.last() as nat
    }
}

/// The key of a board: its column codes in ascending order, packed with two
/// bits per cell. Boards that differ only in the order of their columns get
/// the same key.
pub open spec fn board_key(b: Seq<Seq<Option<Color>>>) -> nat {
    packed_codes(column_codes(b).sort_by(ascending()), 2 * b[0].len())
}

/// The key of `b` fits in a `usize`, and so does the shift by one column.
pub open spec fn key_fits(b: Seq<Seq<Option<Color>>>) -> bool {
    b.len() == 0 || (2 * b[0].len() < usize::BITS && 2 * b[0].len() * b.len() <= usize::BITS)
}

/// Length of the run of equal cells that ends at position `i`.
pub open spec fn run_len(col: Seq<Option<Color>>, i: int) -> nat
    decreases i,
{
    if i <= 0 {
        1
    } else if col[i] == col[i - 1] {
        run_len(col, i - 1) + 1
    } else {
        1
    }
}

/// Every cell up to position `i` holds a ball.
pub open spec fn filled_through(col: Seq<Option<Color>>, i: int) -> bool {
    forall|j: int| 0 <= j <= i ==> (#[trigger] col[j]) is Some
}

/// A run of at least `k` equal balls stands in `col`.
pub open spec fn has_run(col: Seq<Option<Color>>, k: nat) -> bool {
    exists|i: int| 0 <= i < col.len() && filled_through(col, i) && #[trigger] run_len(col, i) >= k
}

proof fn lemma_run_len_bound(col: Seq<Option<Color>>, i: int)
    ensures
        run_len(col, i) <= if i <= 0 { 1 } else { i + 1 },
        run_len(col, i) >= 1,
    decreases i,
{
    if i > 0 {
        lemma_run_len_bound(col, i - 1);
    }
}

/// A run of at least one ball stands in `col` exactly when its bottom cell
/// holds a ball.
pub proof fn lemma_run_of_zero_or_one(col: Seq<Option<Color>>, k: nat)
    requires
        k <= 1,
    ensures
        has_run(col, k) == (col.len() > 0 && col[0] is Some),
{
    if col.len() > 0 && col[0] is Some {
        lemma_run_len_bound(col, 0);
        assert(filled_through(col, 0));
    }
}

proof fn lemma_column_code_bound(col: Seq<Option<Color>>)
    ensures
        column_code(col) < pow2(2 * col.len()),
    decreases col.len(),
{
    lemma2_to64();
    if col.len() > 0 {
        let n = (col.len() - 1) as nat;
        lemma_column_code_bound(col.drop_last());
        lemma_pow2_adds(2 * n, 2);
    }
}

proof fn lemma_packed_bound(codes: Seq<usize>, width: nat)
    requires
        forall|i: int| 0 <= i < codes.len() ==> (#[trigger] codes[i]) < pow2(width),
    ensures
        packed_codes(codes, width) < pow2(width * codes.len()),
    decreases codes.len(),
{
    if codes.len() == 0 {
        assert(width * codes.len() == 0);
        lemma2_to64();
    } else {
        let p = codes.drop_last();
        let n = p.len();
        lemma_packed_bound(p, width);
        let a = packed_codes(p, width) as int;
        let q = pow2(width * n) as int;
        let w = pow2(width) as int;
        let c = codes.last() as int;
        assert(a * w + c < q * w) by (nonlinear_arith)
            requires
                0 <= a < q,
                0 <= c < w,
        {
            assert((a + 1) * w <= q * w);
        }
        lemma_pow2_adds(width * n, width);
        assert(width * n + width == width * codes.len()) by (nonlinear_arith)
            requires
                n + 1 == codes.len(),
        ;
        assert(packed_codes(codes, width) == a * w + c);
        assert(q * w == pow2(width * codes.len()));
    }
}

/// Relies on `slice::sort`: afterwards the same elements stand in
/// ascending order.
#[verifier::external_body]
fn sort_codes(v: &mut Vec<usize>)
    ensures
        final(v)@.to_multiset() == old(v)@.to_multiset(),
        sorted_by(final(v)@, ascending()),
{
    v.sort();
}

/// The code of column `line`, built cell by cell.
fn encode_column(line: &Vec<Option<Color>>) -> (r: usize)
    requires
        2 * line@.len() < usize::BITS,
    ensures
        r == column_code(line@),
{
    let bits = Color::bits();
    let ghost col = line@;
    let mut data: usize = 0;
    let mut y: usize = 0;
    proof {
        assert(col.take(0) =~= Seq::<Option<Color>>::empty());
        lemma2_to64();
        unsigned_int_max_values();
    }
    while y < line.len()
        invariant
            bits == 2,
            col == line@,
            2 * col.len() < usize::BITS,
            (usize::MAX as nat) == pow2(usize::BITS as nat) - 1,
            y <= col.len(),
            data == column_code(col.take(y as int)),
        decreases col.len() - y,
    {
        proof {
            lemma_column_code_bound(col.take(y as int));
            lemma_pow2_adds(2 * y as nat, 2);
            lemma2_to64();
            if 2 * y + 2 < usize::BITS {
                lemma_pow2_strictly_increases((2 * y + 2) as nat, usize::BITS as nat);
            }
            lemma_usize_shl_is_mul(data, 2);
        }
        data = data << bits;
        if let Some(c) = line[y] {
            data = data + c.to_bit();
        }
        proof {
            let t = col.take(y as int + 1);
            assert(t.drop_last() =~= col.take(y as int));
        }
        y += 1;
    }
    proof {
        assert(col.take(y as int) =~= col);
    }
    data
}

/// A set of `width` columns, each holding up to `height` balls.
#[derive(Clone, Debug)]
pub struct Board {
    board: Vec<Vec<Option<Color>>>,
}

impl View for Board {
    type V = Seq<Seq<Option<Color>>>;

    closed spec fn view(&self) -> Seq<Seq<Option<Color>>> {
        self.board@.map_values(|c: Vec<Option<Color>>| c@)
    }
}

impl Board {
    pub open spec fn wf(&self) -> bool {
        board_wf(self@)
    }

    /// `width` empty columns of `height` cells.
    pub fn with_size(width: usize, height: usize) -> (r: Self)
        ensures
            r.wf(),
            r@.len() == width,
            forall|x: int| 0 <= x < width ==> (#[trigger] r@[x]).len() == height,
            forall|x: int, y: int| 0 <= x < width && 0 <= y < height ==> (#[trigger] r@[x][y]) is None,
    {
        let mut board: Vec<Vec<Option<Color>>> = Vec::new();
        let mut x: usize = 0;
        while x < width
            invariant
                x <= width,
                board@.len() == x,
                forall|i: int| 0 <= i < x ==> (#[trigger] board@[i])@.len() == height,
                forall|i: int, j: int|
                    0 <= i < x && 0 <= j < height ==> (#[trigger] board@[i]@[j]) is None,
            decreases width - x,
        {
            let mut line: Vec<Option<Color>> = Vec::new();
            let mut y: usize = 0;
            while y < height
                invariant
                    y <= height,
                    line@.len() == y,
                    forall|j: int| 0 <= j < y ==> (#[trigger] line@[j]) is None,
                decreases height - y,
            {
                line.push(None);
                y += 1;
            }
            board.push(line);
            x += 1;
        }
        let r = Board { board };
        assert forall|i: int| 0 <= i < width implies (#[trigger] r@[i]).len() == height by {
            assert(r@[i] == board@[i]@);
        }
        assert forall|i: int, j: int| 0 <= i < width && 0 <= j < height implies (
        #[trigger] r@[i][j]) is None by {
            assert(r@[i] == board@[i]@);
        }
        r
    }

    /// The number of columns.
    pub fn width(&self) -> (r: usize)
        ensures
            r == self@.len(),
    {
        self.board.len()
    }

    /// The number of cells in a column (that of the first column).
    pub fn height(&self) -> (r: usize)
        requires
            self@.len() > 0,
        ensures
            r == self@[0].len(),
    {
        self.board[0].len()
    }

    /// Where the next ball dropped into column `x` lands: the number of
    /// balls in it, which is `height` when it is full.
    pub fn top(&self, x: usize) -> (r: usize)
        requires
            self.wf(),
            x < self@.len(),
        ensures
            r == top_of(self@[x as int]),
            is_top(self@[x as int], r as int),
    {
        let ghost col = self@[x as int];
        assert(col == self.board@[x as int]@);
        let mut y: usize = 0;
        while y < self.height() && self.board[x][y].is_some()
            invariant
                self.wf(),
                x < self@.len(),
                col == self.board@[x as int]@,
                col.len() == self@[0].len(),
                y <= col.len(),
                forall|j: int| 0 <= j < y ==> (#[trigger] col[j]) is Some,
            decreases col.len() - y,
        {
            y += 1;
        }
        proof {
            lemma_top_unique(col, y as int);
        }
        y
    }

    /// The key of the board: the codes of its columns (two bits per cell,
    /// the bottom cell most significant) sorted in ascending order and
    /// packed one after the other, the smallest most significant.
    pub fn serialize(&self) -> (r: usize)
        requires
            self.wf(),
            key_fits(self@),
        ensures
            self@.len() > 0 ==> r == board_key(self@),
            self@.len() == 0 ==> r == 0,
    {
        let bits = Color::bits();
        let ghost b = self@;
        let mut v: Vec<usize> = Vec::new();
        let mut x: usize = 0;
        while x < self.board.len()
            invariant
                b == self@,
                b.len() == self.board@.len(),
                self.wf(),
                key_fits(b),
                x <= b.len(),
                v@.len() == x,
                forall|i: int| 0 <= i < x ==> (#[trigger] v@[i]) == column_code(b[i]),
            decreases b.len() - x,
        {
            proof {
                assert(self.board@[x as int]@ == b[x as int]);
                assert(b[x as int].len() == b[0].len());
                assert(2 * b[0].len() <= 2 * b[0].len() * b.len()) by (nonlinear_arith)
                    requires
                        b.len() >= 1,
                ;
            }
            let code = encode_column(&self.board[x]);
            v.push(code);
            x += 1;
        }
        if x == 0 {
            return 0;
        }
        let h = self.height();
        let ghost codes = v@;
        proof {
            assert(codes =~= column_codes(b));
        }
        sort_codes(&mut v);
        let ghost sorted = codes.sort_by(ascending());
        proof {
            assert(total_ordering(ascending()));
            codes.lemma_sort_by_ensures(ascending());
            lemma_sorted_unique(v@, sorted, ascending());
            assert(v@.len() == codes.len()) by {
                broadcast use vstd::seq_lib::group_to_multiset_ensures;
                assert(v@.to_multiset().len() == codes.to_multiset().len());
            }
            assert forall|i: int| 0 <= i < v@.len() implies (#[trigger] v@[i]) < pow2(2 * h as nat) by {
                assert(sorted.contains(v@[i]));
                let j = choose|j: int| 0 <= j < codes.len() && codes[j] == v@[i];
                lemma_column_code_bound(b[j]);
            }
            lemma2_to64();
            unsigned_int_max_values();
            assert(v@.take(0) =~= Seq::<usize>::empty());
        }
        let shift = bits * h;
        let mut data: usize = 0;
        let mut i: usize = 0;
        while i < v.len()
            invariant
                shift == 2 * h,
                h == b[0].len(),
                b.len() == v@.len(),
                b.len() > 0,
                key_fits(b),
                (usize::MAX as nat) == pow2(usize::BITS as nat) - 1,
                forall|j: int| 0 <= j < v@.len() ==> (#[trigger] v@[j]) < pow2(2 * h as nat),
                i <= v@.len(),
                data == packed_codes(v@.take(i as int), shift as nat),
            decreases v@.len() - i,
        {
            proof {
                let t = v@.take(i as int + 1);
                assert(t.drop_last() =~= v@.take(i as int));
                lemma_packed_bound(v@.take(i as int), shift as nat);
                lemma_packed_bound(t, shift as nat);
                assert(shift * (i + 1) <= shift * b.len()) by (nonlinear_arith)
                    requires
                        i + 1 <= b.len(),
                ;
                if shift * (i + 1) < usize::BITS {
                    lemma_pow2_strictly_increases((shift * (i + 1)) as nat, usize::BITS as nat);
                }
                lemma_pow2_adds((shift * i) as nat, shift as nat);
                assert(shift * i + shift == shift * (i + 1)) by (nonlinear_arith);
                let a = data as int;
                let q = pow2((shift * i) as nat) as int;
                let w = pow2(shift as nat) as int;
                assert(a * w < q * w) by (nonlinear_arith)
                    requires
                        0 <= a < q,
                        w > 0,
                ;
                lemma_usize_shl_is_mul(data, shift);
            }
            data = data << shift;
            data = data + v[i];
            i += 1;
        }
        proof {
            assert(v@.take(i as int) =~= v@);
        }
        data
    }

    /// Whether some column holds `connection_size` or more balls of one
    /// colour in a row. With a `connection_size` of 0 or 1 that is whether
    /// any ball is on the board at all.
    pub fn is_connected(&self, connection_size: usize) -> (r: bool)
        ensures
            r == exists|x: int|
                0 <= x < self@.len() && #[trigger] has_run(self@[x], connection_size as nat),
            connection_size <= 1 ==> r == exists|x: int|
                0 <= x < self@.len() && (#[trigger] self@[x]).len() > 0 && self@[x][0] is Some,
    {
        let ghost b = self@;
        let ghost k = connection_size as nat;
        let mut x: usize = 0;
        while x < self.board.len()
            invariant
                b == self@,
                b.len() == self.board@.len(),
                k == connection_size,
                x <= b.len(),
                forall|i: int| 0 <= i < x ==> !(#[trigger] has_run(b[i], k)),
            decreases b.len() - x,
        {
            let line = &self.board[x];
            let ghost col = line@;
            proof {
                assert(col == b[x as int]);
            }
            let mut count: usize = 0;
            let mut current_color = Color::Red;
            let mut y: usize = 0;
            while y < line.len() && line[y].is_some()
                invariant
                    b == self@,
                    col == line@,
                    x < b.len(),
                    col == b[x as int],
                    y <= col.len(),
                    k == connection_size,
                    forall|j: int| 0 <= j < y ==> (#[trigger] col[j]) is Some,
                    forall|j: int| 0 <= j < y ==> #[trigger] run_len(col, j) < k,
                    y > 0 ==> count == run_len(col, y - 1) && col[y - 1] == Some(current_color),
                decreases col.len() - y,
            {
                let c = line[y].unwrap();
                proof {
                    lemma_run_len_bound(col, y - 1);
                    assert(filled_through(col, y as int));
                }
                if y > 0 && c == current_color {
                    count += 1;
                } else {
                    current_color = c;
                    count = 1;
                }
                if count >= connection_size {
                    proof {
                        assert(run_len(col, y as int) >= k);
                        assert(has_run(b[x as int], k));
                    }
                    return true;
                }
                y += 1;
            }
            proof {
                assert forall|i: int|
                    0 <= i < col.len() && filled_through(col, i) implies #[trigger] run_len(col, i) < k by {
                    if i >= y {
                        assert(col[y as int] is Some);
                    }
                }
            }
            x += 1;
        }
        proof {
            if connection_size <= 1 {
                assert forall|i: int| 0 <= i < b.len() implies !((#[trigger] b[i]).len() > 0 && b[i][0] is Some) by {
                    lemma_run_of_zero_or_one(b[i], k);
                }
            }
        }
        false
    }

    /// Drops a ball of `color` onto column `x`, which must not be full.
    pub fn drop(&mut self, x: usize, color: Color)
        requires
            old(self).wf(),
            x < old(self)@.len(),
            top_of(old(self)@[x as int]) < old(self)@[x as int].len(),
        ensures
            final(self).wf(),
            final(self)@ == old(self)@.update(
                x as int,
                old(self)@[x as int].update(top_of(old(self)@[x as int]), Some(color)),
            ),
    {
        let y = self.top(x);
        let ghost before = self@;
        self.board[x][y] = Some(color);
        proof {
            let after = self@;
            let col = before[x as int];
            let new_col = col.update(y as int, Some(color));
            assert(after[x as int] =~= new_col);
            assert(after =~= before.update(x as int, new_col));
            assert forall|i: int, j: int|
                #![trigger new_col[i], new_col[j]]
                0 <= i < j < new_col.len() && new_col[i] is None implies new_col[j] is None by {
                assert(i != y);
                if i < y {
                    assert(col[i] is Some);
                }
            }
        }
    }
}

} // verus!
