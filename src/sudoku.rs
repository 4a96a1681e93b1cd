//! A Sudoku board as an exact cover problem: each filled cell is a row, and
//! each of the 324 constraints (a cell holds a number; a row, a column and a
//! box hold each number) is an element.
use crate::spec::{has_exact_cover, is_exact_cover, select};
use crate::{labels_of, rows_of, total_len};
use vstd::prelude::*;
use vstd::string::StringSliceAdditionalSpecFns;

verus! {

/// A number placed in the cell at row `row` and column `col`, all of them
/// counted from the board's top left; `num` runs from 1 to 9.
#[derive(Clone, Copy, Debug, PartialEq, Eq)]
pub struct Cell {
    pub row: usize,
    pub col: usize,
    pub num: usize,
}

/// One of the four conditions that a filled board meets once for each pair
/// of its arguments.
#[derive(Clone, Copy, Debug, PartialEq, Eq)]
pub enum Constraint {
    /// The cell at (row, column) holds a number.
    RowCol(usize, usize),
    /// The row holds the number.
    RowNum(usize, usize),
    /// The column holds the number.
    ColNum(usize, usize),
    /// The box holds the number.
    BoxNum(usize, usize),
}

impl Cell {
    /// The row, column and number are on the board.
    pub open spec fn valid(self) -> bool {
        self.row < 9 && self.col < 9 && 1 <= self.num <= 9
    }

    /// The box, numbered row by row from the top left, that holds the cell.
    pub open spec fn spec_box(self) -> int {
        3 * (self.row as int / 3) + self.col as int / 3
    }

    /// The element keys of the four constraints that the cell meets.
    pub open spec fn spec_constraints(self) -> Seq<u64> {
        seq![
            Constraint::RowCol(self.row, self.col).spec_key(),
            Constraint::RowNum(self.row, self.num).spec_key(),
            Constraint::ColNum(self.col, self.num).spec_key(),
            Constraint::BoxNum(self.spec_box() as usize, self.num).spec_key(),
        ]
    }

    /// The element keys of the four constraints that the cell meets.
    pub fn constraints(&self) -> (r: Vec<u64>)
        requires
            self.valid(),
        ensures
            r@ == self.spec_constraints(),
            r@.no_duplicates(),
    {
        let bx = 3 * (self.row / 3) + (self.col / 3);
        let v = vec![
            Constraint::RowCol(self.row, self.col).key(),
            Constraint::RowNum(self.row, self.num).key(),
            Constraint::ColNum(self.col, self.num).key(),
            Constraint::BoxNum(bx, self.num).key(),
        ];
        proof {
            assert(bx == self.spec_box());
            assert(v@ =~= self.spec_constraints());
        }
        v
    }
}

impl Constraint {
    /// Its arguments are on the board: indices below 9, numbers from 1 to 9.
    pub open spec fn valid(self) -> bool {
        match self {
            Constraint::RowCol(r, c) => r < 9 && c < 9,
            Constraint::RowNum(r, n) => r < 9 && 1 <= n <= 9,
            Constraint::ColNum(c, n) => c < 9 && 1 <= n <= 9,
            Constraint::BoxNum(b, n) => b < 9 && 1 <= n <= 9,
        }
    }

    /// The element key of the constraint: each kind has a block of 81 keys.
    pub open spec fn spec_key(self) -> u64 {
        match self {
            Constraint::RowCol(r, c) => (9 * r + c) as u64,
            Constraint::RowNum(r, n) => (81 + 9 * r + n - 1) as u64,
            Constraint::ColNum(c, n) => (162 + 9 * c + n - 1) as u64,
            Constraint::BoxNum(b, n) => (243 + 9 * b + n - 1) as u64,
        }
    }

    /// The element key of the constraint.
    pub fn key(&self) -> (r: u64)
        requires
            self.valid(),
        ensures
            r == self.spec_key(),
            r < 324,
    {
        match *self {
            Constraint::RowCol(r, c) => (9 * r + c) as u64,
            Constraint::RowNum(r, n) => (81 + 9 * r + n - 1) as u64,
            Constraint::ColNum(c, n) => (162 + 9 * c + n - 1) as u64,
            Constraint::BoxNum(b, n) => (243 + 9 * b + n - 1) as u64,
        }
    }
}

/// Keys of distinct valid constraints are distinct.
pub proof fn lemma_key_injective(a: Constraint, b: Constraint)
    requires
        a.valid(),
        b.valid(),
        a.spec_key() == b.spec_key(),
    ensures
        a == b,
{
}

/// The four keys of a cell on the board are distinct.
pub proof fn lemma_constraints_distinct(c: Cell)
    requires
        c.valid(),
    ensures
        c.spec_constraints().no_duplicates(),
        c.spec_constraints().len() == 4,
{
    let k = c.spec_constraints();
    assert(k[0] < 81);
    assert(81 <= k[1] < 162);
    assert(162 <= k[2] < 243);
    assert(243 <= k[3] < 324) by {
        assert(c.spec_box() < 9) by (nonlinear_arith)
            requires
                c.row < 9,
                c.col < 9,
                c.spec_box() == 3 * (c.row as int / 3) + c.col as int / 3,
        ;
    }
}

/// When every subset has four elements, there are four times as many elements as subsets.
pub proof fn lemma_total_len_four<L>(s: Seq<(L, Vec<u64>)>)
    requires
        forall|i: int| 0 <= i < s.len() ==> (#[trigger] s[i]).1@.len() == 4,
    ensures
        total_len(s) == 4 * s.len(),
    decreases s.len(),
{
    if s.len() > 0 {
        lemma_total_len_four(s.drop_last());
        assert(s.last().1@.len() == 4);
    }
}

/// What `select` keeps is taken from the sequence.
pub proof fn lemma_select_from<L>(s: Seq<L>, sel: Set<int>)
    ensures
        forall|k: int| 0 <= k < select(s, sel).len() ==> s.contains(#[trigger] select(s, sel)[k]),
    decreases s.len(),
{
    if s.len() > 0 {
        lemma_select_from(s.drop_last(), sel);
        assert forall|k: int| 0 <= k < select(s, sel).len() implies s.contains(#[trigger] select(s, sel)[k]) by {
            let r = select(s.drop_last(), sel);
            if k < r.len() {
                assert(s.drop_last().contains(r[k]));
                let j = choose|j: int| 0 <= j < s.drop_last().len() && s.drop_last()[j] == r[k];
                assert(s[j] == r[k]);
            } else {
                assert(s[s.len() - 1] == s.last());
            }
        }
    }
}

/// A byte of a board line: `.` for an empty cell, or a digit from 1 to 9.
pub open spec fn board_byte(b: u8) -> bool {
    b == 46 || (49 <= b <= 57)
}

/// A board line: 81 bytes, each a board byte.
pub open spec fn valid_board(b: Seq<u8>) -> bool {
    b.len() == 81 && forall|i: int| 0 <= i < 81 ==> board_byte(#[trigger] b[i])
}

/// The cells that byte `i` allows: every number for `.`, else its digit.
pub open spec fn cells_at(b: Seq<u8>, i: int) -> Seq<Cell> {
    let row = (i / 9) as usize;
    let col = (i % 9) as usize;
    if b[i] == 46 {
        Seq::new(9, |k: int| Cell { row, col, num: (k + 1) as usize })
    } else {
        seq![Cell { row, col, num: (b[i] - 48) as usize }]
    }
}

/// The cells that the first `n` bytes allow, in byte order.
pub open spec fn cells_upto(b: Seq<u8>, n: int) -> Seq<Cell>
    decreases n,
{
    if n <= 0 {
        Seq::empty()
    } else {
        cells_upto(b, n - 1) + cells_at(b, n - 1)
    }
}

/// The digit of each cell.
pub open spec fn digits(cells: Seq<Cell>) -> Seq<char> {
    Seq::new(cells.len(), |i: int| (48 + cells[i].num) as char)
}

/// The candidate cells of a board line, each with the keys of its
/// constraints; `None` for a line that is no board.
pub fn parse(s: &str) -> (r: Option<Vec<(Cell, Vec<u64>)>>)
    ensures
        r is None <==> !valid_board(s.spec_bytes()),
        r matches Some(v) ==> {
            &&& v@.len() == cells_upto(s.spec_bytes(), 81).len()
            &&& v@.len() <= 729
            &&& forall|i: int|
                0 <= i < v@.len() ==> (#[trigger] v@[i]).0 == cells_upto(s.spec_bytes(), 81)[i]
                    && v@[i].1@ == v@[i].0.spec_constraints() && v@[i].0.valid()
        },
{
    let b = s.as_bytes();
    if b.len() != 81 {
        return None;
    }
    let mut cells: Vec<(Cell, Vec<u64>)> = Vec::new();
    let mut i: usize = 0;
    while i < 81
        invariant
            b@ == s.spec_bytes(),
            b@.len() == 81,
            0 <= i <= 81,
            forall|j: int| 0 <= j < i ==> board_byte(#[trigger] b@[j]),
            cells@.len() == cells_upto(b@, i as int).len(),
            cells@.len() <= 9 * i,
            forall|j: int|
                0 <= j < cells@.len() ==> (#[trigger] cells@[j]).0 == cells_upto(b@, i as int)[j]
                    && cells@[j].1@ == cells@[j].0.spec_constraints() && cells@[j].0.valid(),
        decreases 81 - i,
    {
        let row = i / 9;
        let col = i % 9;
        let ch = b[i];
        let ghost before = cells@;
        if ch == 46 {
            let mut num: usize = 1;
            while num <= 9
                invariant
                    b@ == s.spec_bytes(),
                    b@.len() == 81,
                    0 <= i < 81,
                    b@[i as int] == 46,
                    row == i / 9,
                    col == i % 9,
                    1 <= num <= 10,
                    cells@.len() == before.len() + num - 1,
                    before.len() == cells_upto(b@, i as int).len(),
                    before.len() <= 9 * i,
                    forall|j: int| 0 <= j < before.len() ==> cells@[j] == before[j],
                    forall|j: int|
                        0 <= j < before.len() ==> (#[trigger] before[j]).0 == cells_upto(b@, i as int)[j]
                            && before[j].1@ == before[j].0.spec_constraints() && before[j].0.valid(),
                    forall|k: int|
                        0 <= k < num - 1 ==> (#[trigger] cells@[before.len() + k]).0 == (Cell {
                            row,
                            col,
                            num: (k + 1) as usize,
                        }) && cells@[before.len() + k].1@ == cells@[before.len() + k].0.spec_constraints()
                            && cells@[before.len() + k].0.valid(),
                decreases 10 - num,
            {
                let cell = Cell { row, col, num };
                let cs = cell.constraints();
                cells.push((cell, cs));
                num += 1;
            }
        } else if 49 <= ch && ch <= 57 {
            let cell = Cell { row, col, num: (ch - 48) as usize };
            let cs = cell.constraints();
            cells.push((cell, cs));
            proof {
                assert(cells_at(b@, i as int).len() == 1);
                assert(cells@[before.len() as int] == (cell, cs));
                assert(forall|j: int| 0 <= j < before.len() ==> cells@[j] == before[j]);
            }
        } else {
            return None;
        }
        proof {
            let ii = i as int;
            let up = cells_upto(b@, ii + 1);
            assert(up == cells_upto(b@, ii) + cells_at(b@, ii));
            assert(row < 9 && col < 9);
            assert forall|j: int|
                0 <= j < cells@.len() implies (#[trigger] cells@[j]).0 == up[j]
                    && cells@[j].1@ == cells@[j].0.spec_constraints() && cells@[j].0.valid() by {
                if j < before.len() {
                    assert(cells@[j] == before[j]);
                    assert(up[j] == cells_upto(b@, ii)[j]);
                } else {
                    let k = j - before.len();
                    assert(up[j] == cells_at(b@, ii)[k]);
                    if ch == 46 {
                        assert(cells@[before.len() + k] == cells@[j]);
                    }
                }
            }
        }
        i += 1;
    }
    Some(cells)
}

/// Relies on std's `String::from_utf8`: ASCII bytes make the string of the
/// same characters.
#[verifier::external_body]
fn ascii_string(v: Vec<u8>) -> (r: String)
    requires
        forall|i: int| 0 <= i < v@.len() ==> #[trigger] v@[i] < 128,
    ensures
        r@ == Seq::new(v@.len(), |i: int| v@[i] as char),
{
    match String::from_utf8(v) {
        Ok(s) => s,
        Err(_) => String::new(),
    }
}

/// The digits of the cells, in their order.
pub fn display(board: &[Cell]) -> (r: String)
    requires
        forall|i: int| 0 <= i < board@.len() ==> (#[trigger] board@[i]).num <= 9,
    ensures
        r@ == digits(board@),
{
    let mut v: Vec<u8> = Vec::new();
    let mut i: usize = 0;
    while i < board.len()
        invariant
            0 <= i <= board@.len(),
            forall|j: int| 0 <= j < board@.len() ==> (#[trigger] board@[j]).num <= 9,
            v@.len() == i,
            forall|j: int| 0 <= j < i ==> #[trigger] v@[j] == 48 + board@[j].num && v@[j] < 128,
        decreases board@.len() - i,
    {
        v.push(48 + board[i].num as u8);
        i += 1;
    }
    let r = ascii_string(v);
    proof {
        assert(r@ =~= digits(board@));
    }
    r
}

/// Solves a board line: the 81 digits of its completion, or `None` for a
/// line that is no board or a board without a completion.
pub fn solve(s: &str) -> (r: Option<String>)
    ensures
        r is None <==> (!valid_board(s.spec_bytes()) || !has_exact_cover(
            Seq::new(cells_upto(s.spec_bytes(), 81).len(), |i: int| cells_upto(s.spec_bytes(), 81)[i].spec_constraints().to_set()),
        )),
        r matches Some(t) ==> valid_board(s.spec_bytes()) && exists|sel: Set<int>|
            is_exact_cover(
                Seq::new(cells_upto(s.spec_bytes(), 81).len(), |i: int| cells_upto(s.spec_bytes(), 81)[i].spec_constraints().to_set()),
                sel,
            ) && t@ == digits(select(cells_upto(s.spec_bytes(), 81), sel)),
{
    let cells = match parse(s) {
        Some(c) => c,
        None => return None,
    };
    let ghost cs = cells@;
    let ghost all = cells_upto(s.spec_bytes(), 81);
    proof {
        assert forall|i: int| 0 <= i < cs.len() implies (#[trigger] cs[i]).1@.no_duplicates() by {
            lemma_constraints_distinct(cs[i].0);
        }
        lemma_total_len_four(cs);
        assert(labels_of(cs) =~= all);
        assert(rows_of(cs) =~= Seq::new(all.len(), |i: int| all[i].spec_constraints().to_set()));
    }
    match crate::solve(cells) {
        Some(solution) => {
            proof {
                let sel = choose|sel: Set<int>| is_exact_cover(rows_of(cs), sel) && solution@ == select(labels_of(cs), sel);
                lemma_select_from(labels_of(cs), sel);
                assert forall|i: int| 0 <= i < solution@.len() implies (#[trigger] solution@[i]).num <= 9 by {
                    assert(labels_of(cs).contains(solution@[i]));
                    let j = choose|j: int| 0 <= j < labels_of(cs).len() && labels_of(cs)[j] == solution@[i];
                    assert(cs[j].0.valid());
                }
            }
            Some(display(solution.as_slice()))
        },
        None => None,
    }
}

} // verus!
