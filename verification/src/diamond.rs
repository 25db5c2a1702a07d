//! Tonality diamonds: the square of ratios that a list of identities
//! generates, and the order in which its cells are laid out as a diamond.

use crate::math::lowest_terms;
use crate::ratio::Ratio;
use crate::rational::{lemma_unison, normalized};
use crate::text::{joined, push_tabs, repeated};
use vstd::prelude::*;
use vstd::string::StringExecFns;

verus! {

/// A tonality diamond over a list of identities, in the order given.
pub struct Diamond {
    pub identities: Vec<u32>,
}

/// A position in the matrix of a diamond: row, then column.
pub type Coordinate = (usize, usize);

/// The ratio in row `i`, column `j` of the diamond: identity `j` over
/// identity `i`, reduced and normalized.
pub open spec fn diamond_cell(identities: Seq<u32>, i: int, j: int) -> (int, int) {
    normalized(lowest_terms(identities[j] as int, identities[i] as int))
}

/// The cell in row `i`, column `j` can be computed: both identities are
/// `i32` values, the denominator is not zero, and the ratio can be normalized.
pub open spec fn diamond_cell_defined(identities: Seq<u32>, i: int, j: int) -> bool {
    &&& 0 < identities[i] <= i32::MAX
    &&& identities[j] <= i32::MAX
    &&& Ratio::<i32>::normalizable(lowest_terms(identities[j] as int, identities[i] as int))
}

/// The number of cells in row `r` of the diamond laid out over `n`
/// identities: one in the first row, one more in each row down to the middle
/// row, which has all `n`, and one less in each row after it.
pub open spec fn diamond_row_len(n: int, r: int) -> int {
    if r < n {
        r + 1
    } else {
        2 * n - 1 - r
    }
}

/// The matrix position of cell `k` in row `r` of the diamond laid out over
/// `n` identities. The rows are the diagonals of the matrix: from the corner
/// `(0, n - 1)` down to the main diagonal, and on to the corner `(n - 1, 0)`.
pub open spec fn diamond_coordinate(n: int, r: int, k: int) -> (int, int) {
    if r < n {
        (k, n - 1 - r + k)
    } else {
        (r - (n - 1) + k, k)
    }
}

/// The cells that `row` picks out of `ratios`, each written out.
pub open spec fn row_cells(row: Seq<Coordinate>, ratios: Seq<Vec<Ratio<i32>>>) -> Seq<Seq<char>> {
    Seq::new(row.len(), |k: int| ratios[row[k].0 as int]@[row[k].1 as int].text())
}

/// One line of a diamond over `n` identities: a tab for each cell the line
/// has fewer than `n`, then the cells with two tabs between each two.
pub open spec fn row_text(n: nat, cells: Seq<Seq<char>>) -> Seq<char> {
    repeated('\t', (n - cells.len()) as nat) + joined(cells, seq!['\t', '\t'])
}

/// The cells of line `r` of the diamond over `identities`, each written out.
pub open spec fn diamond_row_cells(identities: Seq<u32>, r: int) -> Seq<Seq<char>> {
    let n = identities.len() as int;
    Seq::new(
        diamond_row_len(n, r) as nat,
        |k: int|
            {
                let c = diamond_coordinate(n, r, k);
                let cell = diamond_cell(identities, c.0, c.1);
                Ratio::<i32>::of_pair(cell).text()
            },
    )
}

/// The lines of the diamond over `identities`.
pub open spec fn diamond_lines(identities: Seq<u32>) -> Seq<Seq<char>> {
    Seq::new(
        (2 * identities.len() - 1) as nat,
        |r: int| row_text(identities.len(), diamond_row_cells(identities, r)),
    )
}

/// `k` is a place in row `r` of the diamond laid out over `n` identities.
pub open spec fn in_diamond(n: int, r: int, k: int) -> bool {
    0 <= r < 2 * n - 1 && 0 <= k < diamond_row_len(n, r)
}

/// Every cell of the matrix has a place in the diamond: those on and above
/// the main diagonal in the upper half, by their distance from the diagonal,
/// the others in the lower half.
pub proof fn lemma_diamond_holds_every_cell(n: int, i: int, j: int)
    requires
        0 <= i < n,
        0 <= j < n,
    ensures
        i <= j ==> in_diamond(n, n - 1 - (j - i), i) && diamond_coordinate(n, n - 1 - (j - i), i)
            == (i, j),
        i > j ==> in_diamond(n, n - 1 + (i - j), j) && diamond_coordinate(n, n - 1 + (i - j), j)
            == (i, j),
{
}

/// No cell of the matrix has two places in the diamond.
pub proof fn lemma_diamond_holds_no_cell_twice(n: int, r: int, k: int, s: int, l: int)
    requires
        in_diamond(n, r, k),
        in_diamond(n, s, l),
        diamond_coordinate(n, r, k) == diamond_coordinate(n, s, l),
    ensures
        r == s,
        k == l,
{
}

/// Every place in the diamond is a cell of the matrix.
pub proof fn lemma_diamond_stays_in_matrix(n: int, r: int, k: int)
    requires
        in_diamond(n, r, k),
    ensures
        0 <= diamond_coordinate(n, r, k).0 < n,
        0 <= diamond_coordinate(n, r, k).1 < n,
{
}

/// The diagonal of a diamond holds unisons: an identity over itself.
pub proof fn lemma_diamond_diagonal(identities: Seq<u32>, i: int)
    requires
        0 <= i < identities.len(),
        identities[i] > 0,
    ensures
        diamond_cell(identities, i, i) == (1int, 1int),
{
    lemma_unison(identities[i] as int);
}

impl Diamond {
    /// Every cell of the matrix can be computed.
    pub open spec fn defined(self) -> bool {
        forall|i: int, j: int|
            0 <= i < self.identities@.len() && 0 <= j < self.identities@.len()
                ==> #[trigger] diamond_cell_defined(self.identities@, i, j)
    }

    /// `matrix` is the square of all cells, row by row.
    pub open spec fn generates(self, matrix: Seq<Vec<Ratio<i32>>>) -> bool {
        &&& matrix.len() == self.identities@.len()
        &&& forall|i: int| 0 <= i < matrix.len() ==> self.generates_row(i, #[trigger] matrix[i]@)
    }

    /// `row` is row `i` of the matrix: every identity over identity `i`.
    pub open spec fn generates_row(self, i: int, row: Seq<Ratio<i32>>) -> bool {
        &&& row.len() == self.identities@.len()
        &&& forall|j: int|
            0 <= j < row.len() ==> (#[trigger] row[j])@ == diamond_cell(self.identities@, i, j)
    }

    /// The diamond over `identities`.
    pub fn new(identities: Vec<u32>) -> (r: Self)
        ensures
            r.identities == identities,
    {
        Self { identities }
    }

    /// The matrix of the diamond, or `None` where a cell cannot be computed
    /// in `i32`.
    pub fn checked_generate(&self) -> (r: Option<Vec<Vec<Ratio<i32>>>>)
        ensures
            r is Some <==> self.defined(),
            r matches Some(matrix) ==> self.generates(matrix@),
    {
        let n = self.identities.len();
        let mut matrix: Vec<Vec<Ratio<i32>>> = Vec::new();
        let mut i: usize = 0;
        while i < n
            invariant
                i <= n,
                n == self.identities@.len(),
                matrix@.len() == i,
                forall|r: int| 0 <= r < i ==> self.generates_row(r, #[trigger] matrix@[r]@),
                forall|r: int, j: int|
                    0 <= r < i && 0 <= j < n ==> #[trigger] diamond_cell_defined(
                        self.identities@,
                        r,
                        j,
                    ),
            decreases n - i,
        {
            match self.construct_ratios_with_denominator(i) {
                Some(row) => {
                    matrix.push(row);
                },
                None => {
                    return None;
                },
            }
            i = i + 1;
        }
        Some(matrix)
    }

    /// The matrix of the diamond: row `i` holds, for every identity `n`
    /// in turn, the ratio of `n` over identity `i`, normalized. The diagonal
    /// is all unisons.
    pub fn generate(&self) -> (matrix: Vec<Vec<Ratio<i32>>>)
        requires
            self.defined(),
        ensures
            self.generates(matrix@),
    {
        self.checked_generate().unwrap()
    }

    /// Row `i` of the matrix, or `None` where one of its cells cannot be
    /// computed.
    fn construct_ratios_with_denominator(&self, i: usize) -> (r: Option<Vec<Ratio<i32>>>)
        requires
            i < self.identities@.len(),
        ensures
            r is Some <==> (forall|j: int|
                0 <= j < self.identities@.len() ==> #[trigger] diamond_cell_defined(
                    self.identities@,
                    i as int,
                    j,
                )),
            r matches Some(row) ==> self.generates_row(i as int, row@),
    {
        let n = self.identities.len();
        let denominator = self.identities[i];
        if denominator == 0 || denominator > i32::MAX as u32 {
            assert(!diamond_cell_defined(self.identities@, i as int, 0));
            return None;
        }
        let mut row: Vec<Ratio<i32>> = Vec::new();
        let mut j: usize = 0;
        while j < n
            invariant
                j <= n,
                i < n,
                n == self.identities@.len(),
                denominator == self.identities@[i as int],
                0 < denominator <= i32::MAX,
                row@.len() == j,
                forall|c: int|
                    0 <= c < j ==> (#[trigger] row@[c])@ == diamond_cell(
                        self.identities@,
                        i as int,
                        c,
                    ),
                forall|c: int|
                    0 <= c < j ==> #[trigger] diamond_cell_defined(self.identities@, i as int, c),
            decreases n - j,
        {
            let numerator = self.identities[j];
            if numerator > i32::MAX as u32 {
                assert(!diamond_cell_defined(self.identities@, i as int, j as int));
                return None;
            }
            match Ratio::new(numerator as i32, denominator as i32).checked_normalize() {
                Some(cell) => {
                    row.push(cell);
                },
                None => {
                    assert(!diamond_cell_defined(self.identities@, i as int, j as int));
                    return None;
                },
            }
            j = j + 1;
        }
        Some(row)
    }

    /// The line that the cells at `row` make: as many leading tabs as the row
    /// has fewer cells than there are identities, then the cells as
    /// `numer/denom` with two tabs between each two.
    fn construct_diamond_row(&self, row: &[Coordinate], ratios: &[Vec<Ratio<i32>>]) -> (text:
        String)
        requires
            row@.len() <= self.identities@.len(),
            forall|k: int|
                0 <= k < row@.len() ==> (#[trigger] row@[k]).0 < ratios@.len() && row@[k].1
                    < ratios@[row@[k].0 as int]@.len(),
        ensures
            text@ == row_text(self.identities@.len(), row_cells(row@, ratios@)),
    {
        let prefix_len = self.identities.len() - row.len();
        let mut text = String::new();
        push_tabs(&mut text, prefix_len);
        let ghost prefix = text@;
        let ghost cells = row_cells(row@, ratios@);
        let mut k: usize = 0;
        while k < row.len()
            invariant
                k <= row@.len(),
                cells == row_cells(row@, ratios@),
                forall|i: int|
                    0 <= i < row@.len() ==> (#[trigger] row@[i]).0 < ratios@.len() && row@[i].1
                        < ratios@[row@[i].0 as int]@.len(),
                text@ == prefix + joined(cells.take(k as int), seq!['\t', '\t']),
            decreases row@.len() - k,
        {
            let ghost before = text@;
            if k > 0 {
                proof {
                    reveal_strlit("\t\t");
                }
                text.append("\t\t");
            }
            let (a, b) = row[k];
            ratios[a][b].write_to(&mut text);
            proof {
                let sep = seq!['\t', '\t'];
                assert("\t\t"@ =~= sep) by {
                    reveal_strlit("\t\t");
                }
                assert(cells.take(k + 1).drop_last() =~= cells.take(k as int));
                assert(cells.take(k + 1).last() == cells[k as int]);
                assert(text@ =~= prefix + joined(cells.take(k + 1), sep));
            }
            k = k + 1;
        }
        assert(cells.take(row@.len() as int) =~= cells);
        assert(Seq::<char>::empty() + repeated('\t', prefix_len as nat) =~= repeated(
            '\t',
            prefix_len as nat,
        ));
        text
    }

    /// The diamond as text: its lines from the single cell of the top corner
    /// through the row of unisons to the single cell of the bottom corner,
    /// centred by tabs, with an empty line between each two.
    pub fn to_string(&self) -> (text: String)
        requires
            self.defined(),
            0 < self.identities@.len() <= usize::MAX / 2,
        ensures
            text@ == joined(diamond_lines(self.identities@), seq!['\n', '\n']),
    {
        let ratios = self.generate();
        let rows = self.index_coordinates();
        let ghost lines = diamond_lines(self.identities@);
        let ghost n = self.identities@.len();
        let mut text = String::new();
        let mut r: usize = 0;
        while r < rows.len()
            invariant
                r <= rows@.len(),
                n == self.identities@.len(),
                0 < n,
                rows@.len() == 2 * n - 1,
                lines == diamond_lines(self.identities@),
                self.generates(ratios@),
                forall|s: int|
                    0 <= s < rows@.len() ==> (#[trigger] rows@[s])@.len() == diamond_row_len(
                        n as int,
                        s,
                    ),
                forall|s: int, k: int|
                    0 <= s < rows@.len() && 0 <= k < rows@[s]@.len() ==> {
                        let c = #[trigger] rows@[s]@[k];
                        (c.0 as int, c.1 as int) == diamond_coordinate(n as int, s, k)
                    },
                text@ == joined(lines.take(r as int), seq!['\n', '\n']),
            decreases rows@.len() - r,
        {
            let ghost before = text@;
            if r > 0 {
                proof {
                    reveal_strlit("\n\n");
                }
                text.append("\n\n");
            }
            let row = &rows[r];
            proof {
                let ri = r as int;
                assert forall|k: int| 0 <= k < row@.len() implies (#[trigger] row@[k]).0
                    < ratios@.len() && row@[k].1 < ratios@[row@[k].0 as int]@.len() by {
                    let c = rows@[ri]@[k];
                    assert((c.0 as int, c.1 as int) == diamond_coordinate(n as int, ri, k));
                    assert(self.generates_row(c.0 as int, ratios@[c.0 as int]@));
                }
            }
            let line = self.construct_diamond_row(row.as_slice(), ratios.as_slice());
            proof {
                let ri = r as int;
                let sep = seq!['\n', '\n'];
                assert("\n\n"@ =~= sep) by {
                    reveal_strlit("\n\n");
                }
                assert(row_cells(row@, ratios@) =~= diamond_row_cells(self.identities@, ri)) by {
                    assert forall|k: int| 0 <= k < row@.len() implies row_cells(
                        row@,
                        ratios@,
                    )[k] == diamond_row_cells(self.identities@, ri)[k] by {
                        let c = rows@[ri]@[k];
                        assert((c.0 as int, c.1 as int) == diamond_coordinate(n as int, ri, k));
                        assert(self.generates_row(c.0 as int, ratios@[c.0 as int]@));
                        let cell = ratios@[c.0 as int]@[c.1 as int];
                        assert(cell@ == diamond_cell(self.identities@, c.0 as int, c.1 as int));
                        cell.lemma_view();
                    }
                }
                assert(line@ == lines[ri]);
                assert(lines.take(r + 1).drop_last() =~= lines.take(ri));
                assert(lines.take(r + 1).last() == lines[ri]);
            }
            text.append(line.as_str());
            proof {
                assert(text@ =~= joined(lines.take(r + 1), seq!['\n', '\n']));
            }
            r = r + 1;
        }
        assert(lines.take(rows@.len() as int) =~= lines);
        text
    }

    /// The order in which the cells are laid out as a diamond: `2n - 1` rows
    /// of matrix positions, each row one diagonal of the matrix. The first
    /// row is the corner `(0, n - 1)`; the rows grow down to the main
    /// diagonal, which holds the unisons, and shrink again to the corner
    /// `(n - 1, 0)`.
    pub fn index_coordinates(&self) -> (rows: Vec<Vec<Coordinate>>)
        requires
            0 < self.identities@.len() <= usize::MAX / 2,
        ensures
            rows@.len() == 2 * self.identities@.len() - 1,
            forall|r: int|
                0 <= r < rows@.len() ==> (#[trigger] rows@[r])@.len() == diamond_row_len(
                    self.identities@.len() as int,
                    r,
                ),
            forall|r: int, k: int|
                0 <= r < rows@.len() && 0 <= k < rows@[r]@.len() ==> {
                    let c = #[trigger] rows@[r]@[k];
                    (c.0 as int, c.1 as int) == diamond_coordinate(
                        self.identities@.len() as int,
                        r,
                        k,
                    )
                },
    {
        let n = self.identities.len();
        let max = n - 1;
        let mut rows: Vec<Vec<Coordinate>> = Vec::new();
        let mut r: usize = 0;
        while r < 2 * n - 1
            invariant
                r <= 2 * n - 1,
                0 < n <= usize::MAX / 2,
                max == n - 1,
                rows@.len() == r,
                forall|s: int|
                    0 <= s < r ==> (#[trigger] rows@[s])@.len() == diamond_row_len(n as int, s),
                forall|s: int, k: int|
                    0 <= s < r && 0 <= k < rows@[s]@.len() ==> {
                        let c = #[trigger] rows@[s]@[k];
                        (c.0 as int, c.1 as int) == diamond_coordinate(n as int, s, k)
                    },
            decreases 2 * n - 1 - r,
        {
            let len = if r < n { r + 1 } else { 2 * n - 1 - r };
            let mut row: Vec<Coordinate> = Vec::new();
            let mut k: usize = 0;
            while k < len
                invariant
                    k <= len,
                    r < 2 * n - 1,
                    0 < n <= usize::MAX / 2,
                    max == n - 1,
                    len == diamond_row_len(n as int, r as int),
                    row@.len() == k,
                    forall|c: int|
                        0 <= c < k ==> ((#[trigger] row@[c]).0 as int, row@[c].1 as int)
                            == diamond_coordinate(n as int, r as int, c),
                decreases len - k,
            {
                if r < n {
                    row.push((k, max - r + k));
                } else {
                    row.push((r - max + k, k));
                }
                k = k + 1;
            }
            rows.push(row);
            r = r + 1;
        }
        rows
    }
}

} // verus!
