use crate::random::{below, shuffle};
use rand::rngs::StdRng;
use vstd::prelude::*;

verus! {

/// Why a text does not describe a board.
#[derive(Clone, Copy, Debug, PartialEq, Eq)]
pub enum ParseError {
    /// There are not nine rows.
    RowCount,
    /// A row does not have nine cells.
    RowLength,
    /// A cell is not a decimal digit.
    NotADigit,
}

/// An ASCII decimal digit.
pub open spec fn is_digit_byte(b: u8) -> bool {
    48 <= b <= 57
}

/// Nine rows of nine ASCII digits each.
pub open spec fn is_grid_text(rows: Seq<Seq<u8>>) -> bool {
    &&& rows.len() == 9
    &&& forall|r: int| 0 <= r < 9 ==> (#[trigger] rows[r]).len() == 9
    &&& forall|r: int, c: int| 0 <= r < 9 && 0 <= c < 9 ==> is_digit_byte(#[trigger] rows[r][c])
}

/// The bytes of each whitespace-separated piece of a text, in order.
pub uninterp spec fn whitespace_rows(s: Seq<char>) -> Seq<Seq<u8>>;

/// Relies on `str::split_whitespace`: the pieces of `s` between runs of
/// whitespace, each taken as its UTF-8 bytes.
#[verifier::external_body]
fn split_rows(s: &str) -> (r: Vec<Vec<u8>>)
    ensures
        r@.map_values(|v: Vec<u8>| v@) == whitespace_rows(s@),
{
    s.split_whitespace().map(|t| t.as_bytes().to_vec()).collect()
}

/// The character of a decimal digit.
pub open spec fn digit_char(d: nat) -> char {
    seq!['0', '1', '2', '3', '4', '5', '6', '7', '8', '9'][d as int]
}

/// Decimal notation of `n`, without leading zeros.
pub open spec fn decimal(n: nat) -> Seq<char>
    decreases n,
{
    if n < 10 {
        seq![digit_char(n)]
    } else {
        decimal(n / 10).push(digit_char(n % 10))
    }
}

/// Relies on `u32`'s `ToString`: its decimal notation.
#[verifier::external_body]
fn decimal_text(n: u32) -> (r: String)
    ensures
        r@ == decimal(n as nat),
{
    n.to_string()
}

/// The line drawn above rows 3 and 6: twenty-one dashes.
pub open spec fn separator(i: int) -> Seq<char> {
    if i != 0 && i % 3 == 0 {
        Seq::new(21, |k: int| '-').push('\n')
    } else {
        Seq::empty()
    }
}

/// One cell in a row of text: a bar before columns 3 and 6, then the value and a space.
pub open spec fn cell_text(v: u32, j: int) -> Seq<char> {
    (if j != 0 && j % 3 == 0 {
        seq!['|', ' ']
    } else {
        Seq::empty()
    }) + decimal(v as nat) + seq![' ']
}

/// A 9x9 grid of digits, `0` meaning an empty cell.
#[derive(Clone, Copy, Debug, PartialEq, Eq)]
pub struct Sudoku {
    cells: [u32; 81],
}

/// Row of the `k`-th cell of block `b` (blocks are numbered down the columns of blocks).
pub open spec fn block_row(b: int, k: int) -> int {
    3 * (b % 3) + k / 3
}

/// Column of the `k`-th cell of block `b`.
pub open spec fn block_col(b: int, k: int) -> int {
    3 * (b / 3) + k % 3
}

/// Block that holds the cell at row `r`, column `c`.
pub open spec fn block_of(r: int, c: int) -> int {
    r / 3 + 3 * (c / 3)
}

/// Coordinates of the `k`-th cell of block `b`.
pub open spec fn block_position(b: int, k: int) -> (usize, usize) {
    (block_row(b, k) as usize, block_col(b, k) as usize)
}

/// `block` lists the cells of block `b`, in order.
pub open spec fn is_block(block: Seq<(usize, usize)>, b: int) -> bool {
    block.len() == 9 && forall|k: int| 0 <= k < 9 ==> #[trigger] block[k] == block_position(b, k)
}

/// The blocks partition the board: the `k`-th cell of block `b` lies in block `b`,
/// and distinct indices of one block name distinct cells.
pub proof fn lemma_block_cells(b: int, k: int)
    requires
        0 <= b < 9,
        0 <= k < 9,
    ensures
        0 <= block_row(b, k) < 9,
        0 <= block_col(b, k) < 9,
        block_of(block_row(b, k), block_col(b, k)) == b,
        forall|k2: int|
            0 <= k2 < 9 && k2 != k ==> 9 * block_row(b, k2) + block_col(b, k2) != 9 * block_row(
                b,
                k,
            ) + block_col(b, k),
{
    assert forall|k2: int|
        0 <= k2 < 9 && k2 != k implies 9 * block_row(b, k2) + block_col(b, k2) != 9 * block_row(
        b,
        k,
    ) + block_col(b, k) by {
        assert(k2 == 3 * (k2 / 3) + k2 % 3);
        assert(k == 3 * (k / 3) + k % 3);
    }
}

/// Every cell is a cell of its block, at index `3 * (r % 3) + c % 3`.
pub proof fn lemma_cell_in_block(r: int, c: int)
    requires
        0 <= r < 9,
        0 <= c < 9,
    ensures
        0 <= block_of(r, c) < 9,
        block_row(block_of(r, c), 3 * (r % 3) + c % 3) == r,
        block_col(block_of(r, c), 3 * (r % 3) + c % 3) == c,
{
}

/// `after` is the block `before` completed: the givens stay, and the empty
/// cells hold distinct digits 1 to 9 that are not among the givens.
pub open spec fn is_block_filling(before: Seq<u32>, after: Seq<u32>) -> bool {
    &&& forall|k: int| 0 <= k < 9 && before[k] != 0 ==> #[trigger] after[k] == before[k]
    &&& forall|k: int|
        0 <= k < 9 && before[k] == 0 ==> 1 <= #[trigger] after[k] <= 9 && !before.contains(after[k])
    &&& forall|k1: int, k2: int|
        0 <= k1 < 9 && 0 <= k2 < 9 && k1 != k2 && before[k1] == 0 && before[k2] == 0
            ==> #[trigger] after[k1] != #[trigger] after[k2]
}

/// Nine values that are the digits 1 to 9, each exactly once.
pub open spec fn is_digit_permutation(s: Seq<u32>) -> bool {
    &&& s.len() == 9
    &&& forall|i: int| 0 <= i < 9 ==> 1 <= #[trigger] s[i] <= 9
    &&& s.no_duplicates()
}

/// Number of different digits in a line; empty cells (`0`) do not count.
pub open spec fn digit_count(s: Seq<u32>) -> int {
    s.to_set().remove(0).len() as int
}

/// A line has no more different digits than cells; without an empty cell its
/// digits are all its values.
pub proof fn lemma_digit_count_bound(s: Seq<u32>)
    ensures
        0 <= digit_count(s) <= s.len(),
        !s.contains(0) ==> digit_count(s) == s.to_set().len(),
{
    broadcast use vstd::seq_lib::seq_to_set_is_finite;
    broadcast use vstd::set::group_set_axioms;

    s.lemma_cardinality_of_set();
    if !s.contains(0) {
        assert(s.to_set().remove(0) =~= s.to_set());
    }
}

/// `s` with its `i`-th and `j`-th items exchanged.
pub open spec fn swapped(s: Seq<u32>, i: int, j: int) -> Seq<u32> {
    s.update(i, s[j]).update(j, s[i])
}

/// Exchanging two items of a line keeps the set of its values.
pub proof fn lemma_swap_keeps_values(s: Seq<u32>, i: int, j: int)
    requires
        0 <= i < s.len(),
        0 <= j < s.len(),
    ensures
        swapped(s, i, j).to_set() == s.to_set(),
{
    let t = swapped(s, i, j);
    assert forall|x: u32| t.to_set().contains(x) implies s.to_set().contains(x) by {
        let k = choose|k: int| 0 <= k < t.len() && t[k] == x;
        if k == j {
            assert(s[i] == x);
        } else if k == i {
            assert(s[j] == x);
        } else {
            assert(s[k] == x);
        }
    }
    assert forall|x: u32| s.to_set().contains(x) implies t.to_set().contains(x) by {
        let k = choose|k: int| 0 <= k < s.len() && s[k] == x;
        if k == j {
            assert(t[i] == x);
        } else if k == i {
            assert(t[j] == x);
        } else {
            assert(t[k] == x);
        }
    }
    assert(t.to_set() =~= s.to_set());
}

/// Distinct coordinates name distinct cells.
proof fn lemma_index_injective(r1: int, c1: int, r2: int, c2: int)
    requires
        0 <= c1 < 9,
        0 <= c2 < 9,
        9 * r1 + c1 == 9 * r2 + c2,
    ensures
        r1 == r2,
        c1 == c2,
{
}

/// Exchanging two items of a line keeps the multiset of its values.
pub proof fn lemma_swap_multiset(s: Seq<u32>, i: int, j: int)
    requires
        0 <= i < s.len(),
        0 <= j < s.len(),
    ensures
        swapped(s, i, j).to_multiset() == s.to_multiset(),
{
    broadcast use vstd::multiset::group_multiset_axioms;

    let m = s.to_multiset();
    if i != j {
        vstd::seq_lib::to_multiset_update(s, i, s[j]);
        vstd::seq_lib::to_multiset_update(s.update(i, s[j]), j, s[i]);
        vstd::seq_lib::to_multiset_contains(s, s[i]);
        assert(swapped(s, i, j).to_multiset() =~= m);
    } else {
        assert(swapped(s, i, j) =~= s);
    }
}

/// Nine values in 1..=9 have nine different digits exactly when each digit
/// occurs once.
pub proof fn lemma_nine_distinct(s: Seq<u32>)
    requires
        s.len() == 9,
        forall|i: int| 0 <= i < 9 ==> 1 <= #[trigger] s[i] <= 9,
    ensures
        digit_count(s) <= 9,
        digit_count(s) == 9 <==> is_digit_permutation(s),
{
    s.lemma_cardinality_of_set();
    lemma_digit_count_bound(s);
    if s.no_duplicates() {
        s.unique_seq_to_set();
    }
    if digit_count(s) == 9 {
        s.lemma_no_dup_set_cardinality();
    }
}

/// Number of empty cells in a line.
pub open spec fn zeros(s: Seq<u32>) -> nat
    decreases s.len(),
{
    if s.len() == 0 {
        0
    } else {
        (if s[0] == 0 {
            1nat
        } else {
            0nat
        }) + zeros(s.drop_first())
    }
}

/// Number of the digits `1..=n` that occur in a line.
pub open spec fn present_digits(s: Seq<u32>, n: int) -> int
    decreases n,
{
    if n <= 0 {
        0
    } else {
        present_digits(s, n - 1) + (if s.contains(n as u32) {
            1int
        } else {
            0int
        })
    }
}

proof fn lemma_present_in_empty(s: Seq<u32>, n: int)
    requires
        s.len() == 0,
    ensures
        present_digits(s, n) == 0,
    decreases n,
{
    if n > 0 {
        lemma_present_in_empty(s, n - 1);
    }
}

proof fn lemma_present_drop_first(s: Seq<u32>, n: int)
    requires
        s.len() > 0,
        0 <= n <= 9,
    ensures
        present_digits(s, n) <= present_digits(s.drop_first(), n) + (if 1 <= s[0] <= n {
            1int
        } else {
            0int
        }),
    decreases n,
{
    if n > 0 {
        lemma_present_drop_first(s, n - 1);
        let d = n as u32;
        if s.contains(d) && s[0] != d {
            let i = choose|i: int| 0 <= i < s.len() && s[i] == d;
            assert(s.drop_first()[i - 1] == d);
        }
    }
}

/// A line has at least as many cells as different digits plus empty cells.
proof fn lemma_present_and_zeros(s: Seq<u32>)
    ensures
        present_digits(s, 9) + zeros(s) <= s.len(),
    decreases s.len(),
{
    if s.len() == 0 {
        lemma_present_in_empty(s, 9);
    } else {
        lemma_present_drop_first(s, 9);
        lemma_present_and_zeros(s.drop_first());
    }
}

/// A reordering keeps the length, the members and the absence of duplicates.
pub proof fn lemma_reordered(a: Seq<u32>, b: Seq<u32>)
    requires
        a.to_multiset() == b.to_multiset(),
    ensures
        a.len() == b.len(),
        forall|x: u32| a.contains(x) <==> b.contains(x),
        a.no_duplicates() ==> b.no_duplicates(),
{
    vstd::seq_lib::to_multiset_len(a);
    vstd::seq_lib::to_multiset_len(b);
    assert forall|x: u32| a.contains(x) <==> b.contains(x) by {
        vstd::seq_lib::to_multiset_contains(a, x);
        vstd::seq_lib::to_multiset_contains(b, x);
    }
    if a.no_duplicates() {
        a.lemma_multiset_has_no_duplicates();
        b.lemma_multiset_has_no_duplicates_conv();
    }
}

/// Counts the different digits of `vals`, leaving out empty cells.
fn count_digits(vals: &Vec<u32>) -> (n: usize)
    ensures
        n == digit_count(vals@),
{
    broadcast use vstd::seq_lib::seq_to_set_is_finite;
    broadcast use vstd::set::group_set_axioms;

    let mut n: usize = 0;
    let mut j: usize = 0;
    proof {
        vals@.take(0).lemma_cardinality_of_empty_set_is_0();
        assert(vals@.take(0).to_set().remove(0) =~= vals@.take(0).to_set());
    }
    while j < vals.len()
        invariant
            j <= vals.len(),
            n <= j,
            n == vals@.take(j as int).to_set().remove(0).len(),
        decreases vals.len() - j,
    {
        let mut seen = false;
        let mut i: usize = 0;
        while i < j
            invariant
                i <= j,
                j < vals.len(),
                seen <==> exists|t: int| 0 <= t < i && vals@[t] == vals@[j as int],
            decreases j - i,
        {
            if vals[i] == vals[j] {
                seen = true;
            }
            i += 1;
        }
        let ghost prefix = vals@.take(j as int);
        proof {
            let x = vals@[j as int];
            assert(vals@.take(j + 1) =~= prefix.push(x));
            prefix.lemma_push_to_set_commute(x);
            if x == 0 {
                assert(prefix.to_set().insert(x).remove(0) =~= prefix.to_set().remove(0));
            } else if seen {
                let t = choose|t: int| 0 <= t < i && vals@[t] == x;
                assert(prefix[t] == x);
                assert(prefix.to_set().contains(x));
                assert(prefix.to_set().insert(x) =~= prefix.to_set());
            } else {
                assert(!prefix.contains(x));
                assert(prefix.to_set().insert(x).remove(0) =~= prefix.to_set().remove(0).insert(x));
            }
        }
        if !seen && vals[j] != 0 {
            n += 1;
        }
        j += 1;
    }
    assert(vals@.take(j as int) =~= vals@);
    n
}

impl View for Sudoku {
    type V = Seq<u32>;

    closed spec fn view(&self) -> Seq<u32> {
        self.cells@
    }
}

impl Sudoku {
    /// Value at row `r`, column `c`.
    pub open spec fn cell(self, r: int, c: int) -> u32 {
        self@[9 * r + c]
    }

    /// The nine values of row `r`.
    pub open spec fn row(self, r: int) -> Seq<u32> {
        Seq::new(9, |j: int| self.cell(r, j))
    }

    /// The nine values of column `c`.
    pub open spec fn col(self, c: int) -> Seq<u32> {
        Seq::new(9, |i: int| self.cell(i, c))
    }

    /// The nine values of block `b`, in the order of its cells.
    pub open spec fn block(self, b: int) -> Seq<u32> {
        Seq::new(9, |k: int| self.cell(block_row(b, k), block_col(b, k)))
    }

    /// Cost of the first `n` rows and columns: for each, nine less its number of
    /// different values.
    pub open spec fn lines_cost(self, n: int) -> int
        decreases n,
    {
        if n <= 0 {
            0
        } else {
            self.lines_cost(n - 1) + (9 - digit_count(self.row(n - 1))) + (9 - digit_count(
                self.col(n - 1),
            ))
        }
    }

    /// Digits missing from the rows and the columns, summed (blocks are not
    /// counted); an empty board costs 162, a solved one 0.
    pub open spec fn global_cost(self) -> int {
        self.lines_cost(9)
    }

    /// Digits missing from the row and from the column through one cell.
    pub open spec fn local_cost(self, r: int, c: int) -> int {
        18 - digit_count(self.row(r)) - digit_count(self.col(c))
    }

    /// Every cell holds a digit from 1 to 9.
    pub open spec fn is_complete(self) -> bool {
        forall|r: int, c: int| 0 <= r < 9 && 0 <= c < 9 ==> 1 <= #[trigger] self.cell(r, c) <= 9
    }

    /// Every row and every column holds each digit from 1 to 9 exactly once.
    pub open spec fn lines_solved(self) -> bool {
        forall|i: int|
            0 <= i < 9 ==> is_digit_permutation(#[trigger] self.row(i)) && is_digit_permutation(
                self.col(i),
            )
    }

    /// The cost of lines is never negative, and is zero exactly when none repeats a value.
    proof fn lemma_lines_cost_bounds(self, n: int)
        requires
            0 <= n <= 9,
        ensures
            0 <= self.lines_cost(n) <= 18 * n,
            self.lines_cost(n) == 0 <==> forall|i: int|
                0 <= i < n ==> digit_count(#[trigger] self.row(i)) == 9 && digit_count(
                    self.col(i),
                ) == 9,
        decreases n,
    {
        if n > 0 {
            self.lemma_lines_cost_bounds(n - 1);
            let r = self.row(n - 1);
            let c = self.col(n - 1);
            lemma_digit_count_bound(r);
            lemma_digit_count_bound(c);
        }
    }

    /// Global cost is never negative; on a board of digits 1 to 9 it is zero
    /// exactly when every row and every column holds each digit once.
    pub proof fn lemma_cost_zero_iff_solved(self)
        ensures
            0 <= self.global_cost() <= 162,
            self.is_complete() ==> (self.global_cost() == 0 <==> self.lines_solved()),
    {
        self.lemma_lines_cost_bounds(9);
        if self.is_complete() {
            assert forall|i: int| 0 <= i < 9 implies (digit_count(#[trigger] self.row(i)) == 9
                && digit_count(self.col(i)) == 9) == (is_digit_permutation(self.row(i))
                && is_digit_permutation(self.col(i))) by {
                lemma_nine_distinct(self.row(i));
                lemma_nine_distinct(self.col(i));
            }
        }
    }

    /// Change of the lines' cost from `before` to `after` over the first `n` rows
    /// and columns, when only rows `r1`, `r2` and columns `c1`, `c2` differ.
    proof fn lemma_lines_delta(
        before: Sudoku,
        after: Sudoku,
        r1: int,
        c1: int,
        r2: int,
        c2: int,
        n: int,
    )
        requires
            0 <= n <= 9,
            forall|i: int| 0 <= i < 9 && i != r1 && i != r2 ==> #[trigger] after.row(i) == before.row(i),
            forall|i: int| 0 <= i < 9 && i != c1 && i != c2 ==> #[trigger] after.col(i) == before.col(i),
        ensures
            after.lines_cost(n) - before.lines_cost(n) == (if 0 <= r1 < n {
                digit_count(before.row(r1)) - digit_count(after.row(r1))
            } else {
                0
            }) + (if 0 <= r2 < n && r2 != r1 {
                digit_count(before.row(r2)) - digit_count(after.row(r2))
            } else {
                0
            }) + (if 0 <= c1 < n {
                digit_count(before.col(c1)) - digit_count(after.col(c1))
            } else {
                0
            }) + (if 0 <= c2 < n && c2 != c1 {
                digit_count(before.col(c2)) - digit_count(after.col(c2))
            } else {
                0
            }),
        decreases n,
    {
        if n > 0 {
            Self::lemma_lines_delta(before, after, r1, c1, r2, c2, n - 1);
        }
    }

    /// Delta correctness: after a swap of two cells, the change of the global
    /// cost equals the change of the summed local costs of the two cells.
    pub proof fn lemma_swap_delta(before: Sudoku, after: Sudoku, r1: int, c1: int, r2: int, c2: int)
        requires
            0 <= r1 < 9,
            0 <= c1 < 9,
            0 <= r2 < 9,
            0 <= c2 < 9,
            after@ == swapped(before@, 9 * r1 + c1, 9 * r2 + c2),
        ensures
            after.global_cost() - before.global_cost() == (after.local_cost(r1, c1)
                + after.local_cost(r2, c2)) - (before.local_cost(r1, c1) + before.local_cost(
                r2,
                c2,
            )),
    {
        before.lemma_len();
        assert forall|i: int| 0 <= i < 9 && i != r1 && i != r2 implies #[trigger] after.row(i)
            == before.row(i) by {
            assert(after.row(i) =~= before.row(i));
        }
        assert forall|i: int| 0 <= i < 9 && i != c1 && i != c2 implies #[trigger] after.col(i)
            == before.col(i) by {
            assert(after.col(i) =~= before.col(i));
        }
        if r1 == r2 {
            assert(after.row(r1) =~= swapped(before.row(r1), c1, c2));
            lemma_swap_keeps_values(before.row(r1), c1, c2);
        }
        if c1 == c2 {
            assert(after.col(c1) =~= swapped(before.col(c1), r1, r2));
            lemma_swap_keeps_values(before.col(c1), r1, r2);
        }
        Self::lemma_lines_delta(before, after, r1, c1, r2, c2, 9);
    }

    /// The given digits of block `b` are digits and none occurs twice.
    pub open spec fn block_givens_ok(self, b: int) -> bool {
        &&& forall|k: int| 0 <= k < 9 ==> #[trigger] self.block(b)[k] <= 9
        &&& forall|k1: int, k2: int|
            0 <= k1 < 9 && 0 <= k2 < 9 && k1 != k2 && #[trigger] self.block(b)[k1] != 0
                ==> self.block(b)[k1] != #[trigger] self.block(b)[k2]
    }

    /// Swap invariance: exchanging two cells of block `b` keeps the multiset of
    /// the block's digits, and leaves every other block as it was.
    pub proof fn lemma_swap_in_block(before: Sudoku, after: Sudoku, b: int, k1: int, k2: int)
        requires
            0 <= b < 9,
            0 <= k1 < 9,
            0 <= k2 < 9,
            after@ == swapped(
                before@,
                9 * block_row(b, k1) + block_col(b, k1),
                9 * block_row(b, k2) + block_col(b, k2),
            ),
        ensures
            after.block(b).to_multiset() == before.block(b).to_multiset(),
            forall|b2: int| 0 <= b2 < 9 && b2 != b ==> #[trigger] after.block(b2) == before.block(b2),
    {
        before.lemma_len();
        lemma_block_cells(b, k1);
        lemma_block_cells(b, k2);
        let s = before.block(b);
        assert forall|k: int| 0 <= k < 9 implies #[trigger] after.block(b)[k] == swapped(s, k1, k2)[k] by {
            lemma_block_cells(b, k);
        }
        assert(after.block(b) =~= swapped(s, k1, k2));
        lemma_swap_multiset(s, k1, k2);
        assert forall|b2: int| 0 <= b2 < 9 && b2 != b implies #[trigger] after.block(b2)
            == before.block(b2) by {
            assert forall|k: int| 0 <= k < 9 implies #[trigger] after.block(b2)[k] == before.block(
                b2,
            )[k] by {
                lemma_block_cells(b2, k);
                let t = 9 * block_row(b2, k) + block_col(b2, k);
                let t1 = 9 * block_row(b, k1) + block_col(b, k1);
                let t2 = 9 * block_row(b, k2) + block_col(b, k2);
                if t == t1 {
                    lemma_index_injective(block_row(b2, k), block_col(b2, k), block_row(b, k1), block_col(b, k1));
                }
                if t == t2 {
                    lemma_index_injective(block_row(b2, k), block_col(b2, k), block_row(b, k2), block_col(b, k2));
                }
                assert(after@[t] == before@[t]);
            }
            assert(after.block(b2) =~= before.block(b2));
        }
    }

    /// Text of the first `n` cells of row `i`.
    pub open spec fn cells_text(self, i: int, n: int) -> Seq<char>
        decreases n,
    {
        if n <= 0 {
            Seq::empty()
        } else {
            self.cells_text(i, n - 1) + cell_text(self.cell(i, n - 1), n - 1)
        }
    }

    /// Text of the first `n` rows, each ended by a newline.
    pub open spec fn rows_text(self, n: int) -> Seq<char>
        decreases n,
    {
        if n <= 0 {
            Seq::empty()
        } else {
            self.rows_text(n - 1) + separator(n - 1) + self.cells_text(n - 1, 9) + seq!['\n']
        }
    }

    /// A board has 81 cells, row after row.
    pub proof fn lemma_len(self)
        ensures
            self@.len() == 81,
    {
    }

    /// The empty board.
    pub fn new() -> (r: Sudoku)
        ensures
            r@.len() == 81,
            forall|i: int| 0 <= i < 81 ==> r@[i] == 0,
    {
        Sudoku { cells: [0u32; 81] }
    }

    /// Value at `row`, `col`.
    pub fn get(&self, row: usize, col: usize) -> (r: u32)
        requires
            row < 9,
            col < 9,
        ensures
            r == self.cell(row as int, col as int),
    {
        self.cells[9 * row + col]
    }

    /// Writes `value` at `row`, `col`.
    pub fn set(&mut self, row: usize, col: usize, value: u32)
        requires
            row < 9,
            col < 9,
        ensures
            final(self)@ == old(self)@.update(9 * row + col, value),
    {
        self.cells[9 * row + col] = value;
    }

    /// The board as text: space-separated values, a bar between groups of three
    /// columns and a line of dashes between groups of three rows.
    pub fn to_text(&self) -> (r: String)
        ensures
            r@ == self.rows_text(9),
    {
        let mut out = String::new();
        proof {
            reveal_strlit("-");
            reveal_strlit("\n");
            reveal_strlit("| ");
            reveal_strlit(" ");
            assert(out@ =~= self.rows_text(0));
        }
        let mut i: usize = 0;
        while i < 9
            invariant
                i <= 9,
                self@.len() == 81,
                out@ == self.rows_text(i as int),
            decreases 9 - i,
        {
            let ghost base = out@;
            if i != 0 && i % 3 == 0 {
                let mut d: usize = 0;
                while d < 21
                    invariant
                        d <= 21,
                        out@ == base + Seq::new(d as nat, |k: int| '-'),
                    decreases 21 - d,
                {
                    out.append("-");
                    d += 1;
                    proof {
                        reveal_strlit("-");
                        assert(out@ =~= base + Seq::new(d as nat, |k: int| '-'));
                    }
                }
                out.append("\n");
                proof {
                    reveal_strlit("\n");
                }
            }
            proof {
                assert(out@ =~= base + separator(i as int) + self.cells_text(i as int, 0));
            }
            let mut j: usize = 0;
            while j < 9
                invariant
                    i < 9,
                    j <= 9,
                    self@.len() == 81,
                    out@ == base + separator(i as int) + self.cells_text(i as int, j as int),
                decreases 9 - j,
            {
                let ghost before = out@;
                if j % 3 == 0 && j != 0 {
                    out.append("| ");
                }
                let t = decimal_text(self.cells[9 * i + j]);
                out.append(t.as_str());
                out.append(" ");
                proof {
                    reveal_strlit("| ");
                    reveal_strlit(" ");
                    assert(out@ =~= before + cell_text(self.cell(i as int, j as int), j as int));
                }
                j += 1;
            }
            out.append("\n");
            proof {
                reveal_strlit("\n");
                assert(out@ =~= self.rows_text(i + 1));
            }
            i += 1;
        }
        out
    }

    /// Exchanges the values of two cells.
    pub fn flip_elements(&mut self, positions: ((usize, usize), (usize, usize)))
        requires
            positions.0.0 < 9,
            positions.0.1 < 9,
            positions.1.0 < 9,
            positions.1.1 < 9,
        ensures
            final(self)@ == swapped(
                old(self)@,
                9 * positions.0.0 + positions.0.1,
                9 * positions.1.0 + positions.1.1,
            ),
    {
        let i = 9 * positions.0.0 + positions.0.1;
        let j = 9 * positions.1.0 + positions.1.1;
        let elem = self.cells[i];
        self.cells[i] = self.cells[j];
        self.cells[j] = elem;
    }

    /// The board written by `rows`: nine rows of nine ASCII digits, `0` for an
    /// empty cell. The errors come in this order: the number of rows, then the
    /// length of each row, then the cells.
    pub fn from_digit_rows(rows: &Vec<Vec<u8>>) -> (r: Result<Sudoku, ParseError>)
        ensures
            rows.len() != 9 <==> r == Err::<Sudoku, ParseError>(ParseError::RowCount),
            (rows.len() == 9 && exists|i: int| 0 <= i < 9 && #[trigger] rows@[i].len() != 9) <==> r
                == Err::<Sudoku, ParseError>(ParseError::RowLength),
            is_grid_text(rows@.map_values(|v: Vec<u8>| v@)) <==> r is Ok,
            r matches Ok(b) ==> forall|i: int, j: int|
                0 <= i < 9 && 0 <= j < 9 ==> #[trigger] b.cell(i, j) == rows@[i]@[j] - 48,
    {
        let ghost text = rows@.map_values(|v: Vec<u8>| v@);
        if rows.len() != 9 {
            return Err(ParseError::RowCount);
        }
        let mut i: usize = 0;
        while i < 9
            invariant
                i <= 9,
                rows.len() == 9,
                text == rows@.map_values(|v: Vec<u8>| v@),
                forall|t: int| 0 <= t < i ==> #[trigger] rows@[t].len() == 9,
            decreases 9 - i,
        {
            if rows[i].len() != 9 {
                proof {
                    assert(text[i as int].len() != 9);
                }
                return Err(ParseError::RowLength);
            }
            i += 1;
        }
        let mut board = Sudoku::new();
        let mut k: usize = 0;
        while k < 81
            invariant
                k <= 81,
                rows.len() == 9,
                text == rows@.map_values(|v: Vec<u8>| v@),
                forall|t: int| 0 <= t < 9 ==> #[trigger] rows@[t].len() == 9,
                forall|t: int| 0 <= t < k ==> is_digit_byte(#[trigger] rows@[t / 9]@[t % 9]),
                board@.len() == 81,
                forall|t: int|
                    0 <= t < 81 ==> #[trigger] board@[t] == (if t < k {
                        rows@[t / 9]@[t % 9] - 48
                    } else {
                        0
                    }),
            decreases 81 - k,
        {
            assert(rows@[(k / 9) as int].len() == 9);
            let byte = rows[k / 9][k % 9];
            if byte < 48 || byte > 57 {
                proof {
                    assert(text[(k / 9) as int][(k % 9) as int] == byte);
                }
                return Err(ParseError::NotADigit);
            }
            board.cells[k] = (byte - 48) as u32;
            k += 1;
        }
        proof {
            assert forall|r: int| 0 <= r < 9 implies (#[trigger] text[r]).len() == 9 by {
                assert(rows@[r].len() == 9);
            }
            assert forall|r: int, c: int| 0 <= r < 9 && 0 <= c < 9 implies is_digit_byte(
                #[trigger] text[r][c],
            ) by {
                let t = 9 * r + c;
                assert(t / 9 == r && t % 9 == c);
                assert(is_digit_byte(rows@[t / 9]@[t % 9]));
            }
            assert forall|r: int, c: int| 0 <= r < 9 && 0 <= c < 9 implies #[trigger] board.cell(r, c)
                == rows@[r]@[c] - 48 by {
                let t = 9 * r + c;
                assert(t / 9 == r && t % 9 == c);
            }
        }
        Ok(board)
    }

    /// The board written in `text` as nine whitespace-separated rows of nine
    /// digits, `0` for an empty cell.
    pub fn parse(text: &str) -> (r: Result<Sudoku, ParseError>)
        ensures
            is_grid_text(whitespace_rows(text@)) <==> r is Ok,
            whitespace_rows(text@).len() != 9 <==> r == Err::<Sudoku, ParseError>(
                ParseError::RowCount,
            ),
            (whitespace_rows(text@).len() == 9 && exists|i: int|
                0 <= i < 9 && (#[trigger] whitespace_rows(text@)[i]).len() != 9) <==> r == Err::<
                Sudoku,
                ParseError,
            >(ParseError::RowLength),
            r matches Ok(b) ==> forall|i: int, j: int|
                0 <= i < 9 && 0 <= j < 9 ==> #[trigger] b.cell(i, j) == whitespace_rows(text@)[i][j]
                    - 48,
    {
        let rows = split_rows(text);
        let r = Self::from_digit_rows(&rows);
        proof {
            let text_rows = rows@.map_values(|v: Vec<u8>| v@);
            assert(text_rows.len() == rows.len());
            if r is Ok {
                assert forall|i: int, j: int| 0 <= i < 9 && 0 <= j < 9 implies rows@[i]@[j]
                    == text_rows[i][j] by {}
            }
            assert forall|i: int| 0 <= i < rows.len() implies (#[trigger] text_rows[i]).len()
                == rows@[i].len() by {}
            if rows.len() == 9 && exists|i: int| 0 <= i < 9 && (#[trigger] text_rows[i]).len() != 9 {
                let i = choose|i: int| 0 <= i < 9 && (#[trigger] text_rows[i]).len() != 9;
                assert(rows@[i].len() != 9);
            }
            if rows.len() == 9 && exists|i: int| 0 <= i < 9 && (#[trigger] rows@[i]).len() != 9 {
                let i = choose|i: int| 0 <= i < 9 && (#[trigger] rows@[i]).len() != 9;
                assert(text_rows[i].len() != 9);
            }
        }
        r
    }

    /// Marks the given cells: `1` where the board holds a digit, `0` where it is empty.
    pub fn get_fixed_values(&self) -> (fixed: Sudoku)
        ensures
            fixed@.len() == 81,
            forall|r: int, c: int|
                0 <= r < 9 && 0 <= c < 9 ==> #[trigger] fixed.cell(r, c) == (if self.cell(r, c)
                    != 0 {
                    1u32
                } else {
                    0u32
                }),
    {
        let mut fixed = Sudoku::new();
        let mut i: usize = 0;
        while i < 81
            invariant
                i <= 81,
                self@.len() == 81,
                fixed@.len() == 81,
                forall|t: int|
                    0 <= t < 81 ==> #[trigger] fixed@[t] == (if t < i && self@[t] != 0 {
                        1u32
                    } else {
                        0u32
                    }),
            decreases 81 - i,
        {
            if self.cells[i] != 0 {
                fixed.cells[i] = 1;
            }
            i += 1;
        }
        fixed
    }

    /// Coordinates of the nine cells of block `index`.
    pub fn block_positions(index: usize) -> (block: [(usize, usize); 9])
        requires
            index < 9,
        ensures
            is_block(block@, index as int),
    {
        let r = 3 * (index % 3);
        let c = 3 * (index / 3);
        [
            (r, c),
            (r, c + 1),
            (r, c + 2),
            (r + 1, c),
            (r + 1, c + 1),
            (r + 1, c + 2),
            (r + 2, c),
            (r + 2, c + 1),
            (r + 2, c + 2),
        ]
    }

    /// The nine blocks, each as the coordinates of its cells.
    pub fn create_blocks() -> (blocks: [[(usize, usize); 9]; 9])
        ensures
            forall|b: int, k: int|
                0 <= b < 9 && 0 <= k < 9 ==> #[trigger] blocks@[b]@[k] == block_position(b, k),
    {
        [
            Self::block_positions(0),
            Self::block_positions(1),
            Self::block_positions(2),
            Self::block_positions(3),
            Self::block_positions(4),
            Self::block_positions(5),
            Self::block_positions(6),
            Self::block_positions(7),
            Self::block_positions(8),
        ]
    }

    /// Coordinates of the cells of a block picked at random.
    pub fn get_random_block_positions(rng: &mut StdRng) -> (block: [(usize, usize); 9])
        ensures
            exists|b: int| 0 <= b < 9 && #[trigger] is_block(block@, b),
    {
        let index = below(rng, 9);
        let block = Self::block_positions(index);
        assert(is_block(block@, index as int));
        block
    }

    /// The cell at `p` is not marked in `fixed`.
    pub open spec fn is_free(fixed: Sudoku, p: (usize, usize)) -> bool {
        fixed.cell(p.0 as int, p.1 as int) != 1
    }

    /// Two different cells of `block` picked at random among those that `fixed`
    /// does not mark; `None` when the block has fewer than two such cells.
    pub fn get_two_random_positions_in_block(
        fixed: &Sudoku,
        block: &[(usize, usize); 9],
        rng: &mut StdRng,
    ) -> (r: Option<((usize, usize), (usize, usize))>)
        requires
            forall|k: int| 0 <= k < 9 ==> #[trigger] block@[k].0 < 9 && block@[k].1 < 9,
            block@.no_duplicates(),
        ensures
            r is None <==> !exists|k1: int, k2: int|
                0 <= k1 < 9 && 0 <= k2 < 9 && k1 != k2 && Self::is_free(*fixed, #[trigger] block@[k1])
                    && Self::is_free(*fixed, #[trigger] block@[k2]),
            r matches Some(pq) ==> {
                &&& pq.0 != pq.1
                &&& block@.contains(pq.0)
                &&& block@.contains(pq.1)
                &&& Self::is_free(*fixed, pq.0)
                &&& Self::is_free(*fixed, pq.1)
            },
    {
        let mut free: Vec<(usize, usize)> = Vec::new();
        let mut k: usize = 0;
        while k < 9
            invariant
                k <= 9,
                free.len() <= k,
                forall|k: int| 0 <= k < 9 ==> #[trigger] block@[k].0 < 9 && block@[k].1 < 9,
                block@.no_duplicates(),
                free@.no_duplicates(),
                forall|t: int|
                    0 <= t < free.len() ==> block@.take(k as int).contains(#[trigger] free@[t])
                        && Self::is_free(*fixed, free@[t]),
                forall|t: int|
                    0 <= t < k && Self::is_free(*fixed, #[trigger] block@[t]) ==> free@.contains(
                        block@[t],
                    ),
            decreases 9 - k,
        {
            let p = block[k];
            let ghost before = free@;
            if fixed.cells[9 * p.0 + p.1] != 1 {
                proof {
                    assert(!block@.take(k as int).contains(p));
                }
                free.push(p);
            }
            k += 1;
            proof {
                assert forall|t: int|
                    0 <= t < k && Self::is_free(*fixed, #[trigger] block@[t]) implies free@.contains(
                    block@[t],
                ) by {
                    if t < k - 1 {
                        let u = choose|u: int| 0 <= u < before.len() && before[u] == block@[t];
                        assert(free@[u] == block@[t]);
                    } else {
                        assert(free@[free.len() - 1] == block@[t]);
                    }
                }
                assert forall|t: int| 0 <= t < free.len() implies block@.take(k as int).contains(
                    #[trigger] free@[t],
                ) by {
                    if t < free.len() - 1 || block@[k - 1] != free@[t] {
                        let u = choose|u: int|
                            0 <= u < k - 1 && #[trigger] block@.take(k - 1)[u] == free@[t];
                        assert(block@.take(k as int)[u] == free@[t]);
                    } else {
                        assert(block@.take(k as int)[k - 1] == free@[t]);
                    }
                }
            }
        }
        assert(block@.take(9) =~= block@);
        if free.len() < 2 {
            proof {
                assert forall|k1: int, k2: int|
                    0 <= k1 < 9 && 0 <= k2 < 9 && k1 != k2 && Self::is_free(*fixed, #[trigger] block@[k1])
                        && Self::is_free(*fixed, #[trigger] block@[k2]) implies false by {
                    assert(free@.contains(block@[k1]));
                    assert(free@.contains(block@[k2]));
                    assert(block@[k1] != block@[k2]);
                }
            }
            return None;
        }
        let n = free.len();
        let i = below(rng, n);
        let mut j = below(rng, n - 1);
        if j >= i {
            j = j + 1;
        }
        proof {
            assert(free@[i as int] != free@[j as int]);
            let u = choose|u: int| 0 <= u < 9 && #[trigger] block@[u] == free@[i as int];
            let v = choose|v: int| 0 <= v < 9 && #[trigger] block@[v] == free@[j as int];
            assert(u != v);
        }
        Some((free[i], free[j]))
    }

    /// Completes the board at random: in each block the empty cells receive the
    /// digits that the block lacks, in random order, and the given digits stay.
    /// Each block whose givens are distinct digits then holds each digit once.
    pub fn randomly_fill(&mut self, rng: &mut StdRng)
        ensures
            forall|r: int, c: int|
                0 <= r < 9 && 0 <= c < 9 ==> #[trigger] final(self).cell(r, c) != 0 && (old(
                    self,
                ).cell(r, c) != 0 ==> final(self).cell(r, c) == old(self).cell(r, c)),
            forall|r: int, c: int|
                0 <= r < 9 && 0 <= c < 9 && old(self).cell(r, c) == 0 ==> 1 <= #[trigger] final(self).cell(r, c) <= 9,
            forall|b: int|
                0 <= b < 9 ==> is_block_filling(old(self).block(b), #[trigger] final(self).block(b)),
            forall|b: int|
                0 <= b < 9 && #[trigger] old(self).block_givens_ok(b) ==> is_digit_permutation(
                    final(self).block(b),
                ),
    {
        let ghost start = *self;
        let mut b: usize = 0;
        while b < 9
            invariant
                b <= 9,
                forall|r: int, c: int|
                    0 <= r < 9 && 0 <= c < 9 && block_of(r, c) >= b ==> #[trigger] self.cell(r, c)
                        == start.cell(r, c),
                forall|bb: int, k: int|
                    0 <= bb < b && 0 <= k < 9 ==> #[trigger] self.block(bb)[k] != 0 && (start.block(
                        bb,
                    )[k] != 0 ==> self.block(bb)[k] == start.block(bb)[k]),
                forall|bb: int|
                    0 <= bb < b && #[trigger] start.block_givens_ok(bb) ==> is_digit_permutation(
                        self.block(bb),
                    ),
                forall|bb: int|
                    0 <= bb < b ==> is_block_filling(start.block(bb), #[trigger] self.block(bb)),
            decreases 9 - b,
        {
            let ghost prev = *self;
            proof {
                assert(self.block(b as int) =~= start.block(b as int)) by {
                    assert forall|k: int| 0 <= k < 9 implies #[trigger] self.block(b as int)[k]
                        == start.block(b as int)[k] by {
                        lemma_block_cells(b as int, k);
                    }
                }
            }
            self.fill_block(b, rng);
            proof {
                assert forall|bb: int| 0 <= bb < b implies #[trigger] self.block(bb) == prev.block(
                    bb,
                ) by {
                    assert forall|k: int| 0 <= k < 9 implies #[trigger] self.block(bb)[k]
                        == prev.block(bb)[k] by {
                        lemma_block_cells(bb, k);
                    }
                    assert(self.block(bb) =~= prev.block(bb));
                }
            }
            b += 1;
        }
        proof {
            assert forall|r: int, c: int| 0 <= r < 9 && 0 <= c < 9 implies #[trigger] self.cell(r, c)
                != 0 && (start.cell(r, c) != 0 ==> self.cell(r, c) == start.cell(r, c)) by {
                lemma_cell_in_block(r, c);
                let k = 3 * (r % 3) + c % 3;
                assert(self.block(block_of(r, c))[k] == self.cell(r, c));
                assert(start.block(block_of(r, c))[k] == start.cell(r, c));
            }
            assert forall|r: int, c: int|
                0 <= r < 9 && 0 <= c < 9 && start.cell(r, c) == 0 implies 1 <= #[trigger] self.cell(
                r,
                c,
            ) <= 9 by {
                lemma_cell_in_block(r, c);
                let b = block_of(r, c);
                let k = 3 * (r % 3) + c % 3;
                assert(self.block(b)[k] == self.cell(r, c));
                assert(start.block(b)[k] == start.cell(r, c));
                assert(is_block_filling(start.block(b), self.block(b)));
            }
        }
    }

    /// Fills the empty cells of block `b` with the digits the block lacks, in random order.
    #[verifier::rlimit(40)]
    fn fill_block(&mut self, b: usize, rng: &mut StdRng)
        requires
            b < 9,
        ensures
            forall|r: int, c: int|
                0 <= r < 9 && 0 <= c < 9 && block_of(r, c) != b ==> #[trigger] final(self).cell(r, c)
                    == old(self).cell(r, c),
            forall|k: int|
                0 <= k < 9 ==> #[trigger] final(self).block(b as int)[k] != 0 && (old(self).block(
                    b as int,
                )[k] != 0 ==> final(self).block(b as int)[k] == old(self).block(b as int)[k]),
            is_block_filling(old(self).block(b as int), final(self).block(b as int)),
            old(self).block_givens_ok(b as int) ==> is_digit_permutation(final(self).block(b as int)),
    {
        let ghost start = *self;
        let ghost s = self.block(b as int);
        proof {
            self.lemma_len();
            assert forall|k: int| 0 <= k < 9 implies 0 <= block_row(b as int, k) < 9 && 0
                <= #[trigger] block_col(b as int, k) < 9 by {
                lemma_block_cells(b as int, k);
            }
        }
        let pos = Self::block_positions(b);
        let mut missing: Vec<u32> = Vec::new();
        let mut d: u32 = 1;
        while d <= 9
            invariant
                1 <= d <= 10,
                *self == start,
                s == self.block(b as int),
                is_block(pos@, b as int),
                forall|k: int| 0 <= k < 9 ==> 0 <= block_row(b as int, k) < 9 && 0 <= #[trigger] block_col(b as int, k) < 9,
                missing.len() + present_digits(s, d - 1) == d - 1,
                missing@.no_duplicates(),
                forall|t: int|
                    0 <= t < missing.len() ==> 1 <= #[trigger] missing@[t] < d && !s.contains(
                        missing@[t],
                    ),
            decreases 10 - d,
        {
            let mut present = false;
            let mut k: usize = 0;
            while k < 9
                invariant
                    k <= 9,
                    1 <= d <= 9,
                    s == self.block(b as int),
                    is_block(pos@, b as int),
                    forall|k: int| 0 <= k < 9 ==> 0 <= block_row(b as int, k) < 9 && 0 <= #[trigger] block_col(b as int, k) < 9,
                    self@.len() == 81,
                    present <==> exists|t: int| 0 <= t < k && #[trigger] s[t] == d,
                decreases 9 - k,
            {
                let p = pos[k];
                proof {
                    lemma_block_cells(b as int, k as int);
                    assert(s[k as int] == self@[9 * p.0 + p.1]);
                }
                if self.cells[9 * p.0 + p.1] == d {
                    present = true;
                }
                k += 1;
            }
            if !present {
                missing.push(d);
            }
            d += 1;
        }
        proof {
            lemma_present_and_zeros(s);
            assert(s.subrange(0, 9) =~= s);
        }
        let ghost unshuffled = missing@;
        shuffle(rng, &mut missing);
        proof {
            lemma_reordered(unshuffled, missing@);
            assert forall|t: int| 0 <= t < missing.len() implies 1 <= #[trigger] missing@[t] <= 9
                && !s.contains(missing@[t]) by {
                assert(missing@.contains(missing@[t]));
            }
        }
        let mut k: usize = 0;
        while k < 9
            invariant
                k <= 9,
                self@.len() == 81,
                s == start.block(b as int),
                is_block(pos@, b as int),
                forall|k: int| 0 <= k < 9 ==> 0 <= block_row(b as int, k) < 9 && 0 <= #[trigger] block_col(b as int, k) < 9,
                forall|r: int, c: int|
                    0 <= r < 9 && 0 <= c < 9 && block_of(r, c) != b ==> #[trigger] self.cell(r, c)
                        == start.cell(r, c),
                forall|j: int| k <= j < 9 ==> #[trigger] self.block(b as int)[j] == s[j],
                forall|j: int|
                    0 <= j < k ==> #[trigger] self.block(b as int)[j] != 0 && (s[j] != 0
                        ==> self.block(b as int)[j] == s[j]),
                missing.len() >= zeros(s.subrange(k as int, 9)),
                missing@.no_duplicates(),
                forall|t: int|
                    0 <= t < missing.len() ==> 1 <= #[trigger] missing@[t] <= 9 && !s.contains(
                        missing@[t],
                    ),
                forall|j: int|
                    0 <= j < k && s[j] == 0 ==> !missing@.contains(#[trigger] self.block(b as int)[j])
                        && 1 <= self.block(b as int)[j] <= 9 && !s.contains(self.block(b as int)[j]),
                forall|j1: int, j2: int|
                    0 <= j1 < k && 0 <= j2 < k && j1 != j2 && s[j1] == 0 && s[j2] == 0
                        ==> #[trigger] self.block(b as int)[j1] != #[trigger] self.block(b as int)[j2],
            decreases 9 - k,
        {
            let p = pos[k];
            let ghost prev = *self;
            let ghost prev_missing = missing@;
            proof {
                lemma_block_cells(b as int, k as int);
                assert(s.subrange(k as int, 9).drop_first() =~= s.subrange(k + 1, 9));
                assert(s.subrange(k as int, 9)[0] == s[k as int]);
                assert(self.block(b as int)[k as int] == s[k as int]);
                assert(s[k as int] == self@[9 * p.0 + p.1]);
            }
            if self.cells[9 * p.0 + p.1] == 0 {
                if let Some(v) = missing.pop() {
                    self.cells[9 * p.0 + p.1] = v;
                    proof {
                        assert(prev_missing =~= missing@.push(v));
                        assert(prev_missing.contains(v));
                        assert(prev_missing[prev_missing.len() - 1] == v);
                        assert forall|t: int| 0 <= t < missing.len() implies missing@[t] != v by {
                            assert(prev_missing[t] == missing@[t]);
                        }
                        assert forall|x: u32| missing@.contains(x) implies prev_missing.contains(x) by {
                            let t = choose|t: int| 0 <= t < missing.len() && missing@[t] == x;
                            assert(prev_missing[t] == x);
                        }
                    }
                }
            }
            proof {
                assert forall|r: int, c: int|
                    0 <= r < 9 && 0 <= c < 9 && block_of(r, c) != b implies #[trigger] self.cell(r, c)
                        == start.cell(r, c) by {
                    assert(prev.cell(r, c) == start.cell(r, c));
                }
                assert forall|j: int| 0 <= j < 9 && j != k implies #[trigger] self.block(b as int)[j]
                    == prev.block(b as int)[j] by {
                    lemma_block_cells(b as int, j);
                }
                assert(self.block(b as int)[k as int] == self@[9 * p.0 + p.1]);
                assert(self.block(b as int)[k as int] != 0);
            }
            k += 1;
        }
        proof {
            if start.block_givens_ok(b as int) {
                let fin = self.block(b as int);
                assert forall|j1: int, j2: int|
                    0 <= j1 < 9 && 0 <= j2 < 9 && j1 != j2 implies fin[j1] != fin[j2] by {
                    if s[j1] != 0 && s[j2] != 0 {
                    } else if s[j1] != 0 {
                        assert(s.contains(s[j1]));
                    } else if s[j2] != 0 {
                        assert(s.contains(s[j2]));
                    }
                }
            }
        }
    }

    fn row_values(&self, r: usize) -> (v: Vec<u32>)
        requires
            r < 9,
        ensures
            v@ == self.row(r as int),
    {
        let mut v: Vec<u32> = Vec::new();
        let mut j: usize = 0;
        while j < 9
            invariant
                r < 9,
                j <= 9,
                v@ == self.row(r as int).take(j as int),
            decreases 9 - j,
        {
            v.push(self.cells[9 * r + j]);
            j += 1;
            assert(v@ =~= self.row(r as int).take(j as int));
        }
        assert(v@ =~= self.row(r as int));
        v
    }

    fn col_values(&self, c: usize) -> (v: Vec<u32>)
        requires
            c < 9,
        ensures
            v@ == self.col(c as int),
    {
        let mut v: Vec<u32> = Vec::new();
        let mut i: usize = 0;
        while i < 9
            invariant
                c < 9,
                i <= 9,
                v@ == self.col(c as int).take(i as int),
            decreases 9 - i,
        {
            v.push(self.cells[9 * i + c]);
            i += 1;
            assert(v@ =~= self.col(c as int).take(i as int));
        }
        assert(v@ =~= self.col(c as int));
        v
    }

    /// Digits missing from the rows and the columns of the board, summed.
    pub fn calculate_errors(&self) -> (r: i32)
        ensures
            r == self.global_cost(),
            0 <= r <= 162,
    {
        let mut res: i32 = 0;
        let mut i: usize = 0;
        while i < 9
            invariant
                i <= 9,
                res == self.lines_cost(i as int),
                0 <= res <= 18 * i,
            decreases 9 - i,
        {
            let rv = self.row_values(i);
            let cv = self.col_values(i);
            proof {
                lemma_digit_count_bound(rv@);
                lemma_digit_count_bound(cv@);
            }
            let dr = count_digits(&rv);
            let dc = count_digits(&cv);
            res = res + (9 - dr as i32) + (9 - dc as i32);
            i += 1;
        }
        res
    }

    /// Digits missing from the row and from the column of one cell.
    pub fn calculate_number_of_errors_for_position(&self, row: usize, column: usize) -> (r: i32)
        requires
            row < 9,
            column < 9,
        ensures
            r == self.local_cost(row as int, column as int),
            0 <= r <= 18,
    {
        let rv = self.row_values(row);
        let cv = self.col_values(column);
        proof {
            lemma_digit_count_bound(rv@);
            lemma_digit_count_bound(cv@);
        }
        let dr = count_digits(&rv);
        let dc = count_digits(&cv);
        18 - dc as i32 - dr as i32
    }
}

impl std::str::FromStr for Sudoku {
    type Err = ParseError;

    /// Reads a board as `Sudoku::parse` does.
    fn from_str(s: &str) -> (r: Result<Sudoku, ParseError>)
        ensures
            is_grid_text(whitespace_rows(s@)) <==> r is Ok,
            whitespace_rows(s@).len() != 9 <==> r == Err::<Sudoku, ParseError>(
                ParseError::RowCount,
            ),
            (whitespace_rows(s@).len() == 9 && exists|i: int|
                0 <= i < 9 && (#[trigger] whitespace_rows(s@)[i]).len() != 9) <==> r == Err::<
                Sudoku,
                ParseError,
            >(ParseError::RowLength),
            r matches Ok(b) ==> forall|i: int, j: int|
                0 <= i < 9 && 0 <= j < 9 ==> #[trigger] b.cell(i, j) == whitespace_rows(s@)[i][j]
                    - 48,
    {
        Sudoku::parse(s)
    }
}

impl Default for Sudoku {
    fn default() -> (r: Sudoku)
        ensures
            forall|i: int| 0 <= i < 81 ==> r@[i] == 0,
    {
        Sudoku::new()
    }
}

} // verus!
