use vstd::prelude::*;
use vstd::arithmetic::div_mod::{
    lemma_fundamental_div_mod, lemma_mod_bound, lemma_mod_sub_multiples_vanish, lemma_small_mod,
};

verus! {

/// The single-bit constraint mask of a placed value; an empty cell (0) excludes nothing.
pub open spec fn value_bit(value: u16) -> u16 {
    if value == 0 {
        0u16
    } else {
        1u16 << ((value - 1) as u16)
    }
}

/// Two cell indices share a row, a column, or a 3x3 block.
pub open spec fn same_unit(a: int, b: int) -> bool {
    ||| a / 9 == b / 9
    ||| a % 9 == b % 9
    ||| ((a % 9) / 3 == (b % 9) / 3 && (a / 9) / 3 == (b / 9) / 3)
}

/// The candidates 1..v (exclusive) whose bit is absent from the mask, in increasing order.
pub open spec fn cands_below(mask: u16, v: int) -> Seq<u16>
    decreases v,
{
    if v <= 1 {
        Seq::empty()
    } else {
        cands_below(mask, v - 1) + (if mask & value_bit((v - 1) as u16) == 0 {
            seq![(v - 1) as u16]
        } else {
            Seq::empty()
        })
    }
}

/// The ordered list of values 1..=9 not excluded by the mask.
pub open spec fn candidates_spec(mask: u16) -> Seq<u16> {
    cands_below(mask, 10)
}

pub proof fn lemma_cands_elems(mask: u16, v: int)
    requires
        1 <= v <= 10,
    ensures
        forall|k: int|
            0 <= k < cands_below(mask, v).len() ==> 1 <= #[trigger] cands_below(mask, v)[k] < v
                && mask & value_bit(cands_below(mask, v)[k]) == 0,
    decreases v,
{
    if v > 1 {
        lemma_cands_elems(mask, v - 1);
        let prev = cands_below(mask, v - 1);
        let cur = cands_below(mask, v);
        assert forall|k: int|
            0 <= k < cur.len() implies 1 <= #[trigger] cur[k] < v && mask & value_bit(cur[k])
            == 0 by {
            if k < prev.len() {
                assert(cur[k] == prev[k]);
            } else {
                assert(cur[k] == (v - 1) as u16);
            }
        }
    }
}

/// How many cells of the board are still empty.
pub open spec fn count_empty(s: Seq<u16>) -> nat
    decreases s.len(),
{
    if s.len() == 0 {
        0
    } else {
        count_empty(s.drop_last()) + (if s.last() == 0 {
            1nat
        } else {
            0nat
        })
    }
}

proof fn lemma_count_empty_update(s: Seq<u16>, i: int, v: u16)
    requires
        0 <= i < s.len(),
    ensures
        count_empty(s.update(i, v)) == count_empty(s) - (if s[i] == 0 {
            1int
        } else {
            0int
        }) + (if v == 0 {
            1int
        } else {
            0int
        }),
    decreases s.len(),
{
    let t = s.update(i, v);
    assert(t.len() == s.len());
    if i == s.len() - 1 {
        assert(t.drop_last() =~= s.drop_last());
    } else {
        lemma_count_empty_update(s.drop_last(), i, v);
        assert(t.drop_last() =~= s.drop_last().update(i, v));
        assert(t.last() == s.last());
    }
}

/// No cell is empty.
pub open spec fn solved_board(b: Seq<u16>) -> bool {
    forall|i: int| 0 <= i < 81 ==> #[trigger] b[i] != 0
}

/// No two distinct cells of a common row, column or block hold the same placed value.
pub open spec fn valid_board(b: Seq<u16>) -> bool {
    forall|c: int, d: int|
        0 <= c < 81 && 0 <= d < 81 && c != d && same_unit(c, d) && #[trigger] b[c] != 0 ==> b[c]
            != #[trigger] b[d]
}

/// The k-th cell of row r.
pub open spec fn row_val(b: Seq<u16>, r: int, k: int) -> u16 {
    b[r * 9 + k]
}

/// The k-th cell of column c.
pub open spec fn col_val(b: Seq<u16>, c: int, k: int) -> u16 {
    b[k * 9 + c]
}

/// The k-th cell of the t-th 3x3 block, blocks numbered left to right, top to bottom.
pub open spec fn block_val(b: Seq<u16>, t: int, k: int) -> u16 {
    b[(t / 3) * 27 + (k / 3) * 9 + (t % 3) * 3 + (k % 3)]
}

pub open spec fn row_has(b: Seq<u16>, r: int, v: u16) -> bool {
    exists|k: int| 0 <= k < 9 && #[trigger] row_val(b, r, k) == v
}

pub open spec fn col_has(b: Seq<u16>, c: int, v: u16) -> bool {
    exists|k: int| 0 <= k < 9 && #[trigger] col_val(b, c, k) == v
}

pub open spec fn block_has(b: Seq<u16>, t: int, v: u16) -> bool {
    exists|k: int| 0 <= k < 9 && #[trigger] block_val(b, t, k) == v
}

/// Nine pairwise distinct values in 1..=9 must include any given value in 1..=9.
proof fn lemma_nine_distinct_hit(
    w0: u16,
    w1: u16,
    w2: u16,
    w3: u16,
    w4: u16,
    w5: u16,
    w6: u16,
    w7: u16,
    w8: u16,
    v: u16,
)
    requires
        1 <= v <= 9,
        1 <= w0 <= 9,
        1 <= w1 <= 9,
        1 <= w2 <= 9,
        1 <= w3 <= 9,
        1 <= w4 <= 9,
        1 <= w5 <= 9,
        1 <= w6 <= 9,
        1 <= w7 <= 9,
        1 <= w8 <= 9,
        w0 != w1,
        w0 != w2,
        w0 != w3,
        w0 != w4,
        w0 != w5,
        w0 != w6,
        w0 != w7,
        w0 != w8,
        w1 != w2,
        w1 != w3,
        w1 != w4,
        w1 != w5,
        w1 != w6,
        w1 != w7,
        w1 != w8,
        w2 != w3,
        w2 != w4,
        w2 != w5,
        w2 != w6,
        w2 != w7,
        w2 != w8,
        w3 != w4,
        w3 != w5,
        w3 != w6,
        w3 != w7,
        w3 != w8,
        w4 != w5,
        w4 != w6,
        w4 != w7,
        w4 != w8,
        w5 != w6,
        w5 != w7,
        w5 != w8,
        w6 != w7,
        w6 != w8,
        w7 != w8,
    ensures
        w0 == v || w1 == v || w2 == v || w3 == v || w4 == v || w5 == v || w6 == v || w7 == v
            || w8 == v,
{
    assert(w0 == v || w1 == v || w2 == v || w3 == v || w4 == v || w5 == v || w6 == v || w7 == v
        || w8 == v) by (bit_vector)
        requires
            1 <= v <= 9,
            1 <= w0 <= 9,
            1 <= w1 <= 9,
            1 <= w2 <= 9,
            1 <= w3 <= 9,
            1 <= w4 <= 9,
            1 <= w5 <= 9,
            1 <= w6 <= 9,
            1 <= w7 <= 9,
            1 <= w8 <= 9,
            w0 != w1,
            w0 != w2,
            w0 != w3,
            w0 != w4,
            w0 != w5,
            w0 != w6,
            w0 != w7,
            w0 != w8,
            w1 != w2,
            w1 != w3,
            w1 != w4,
            w1 != w5,
            w1 != w6,
            w1 != w7,
            w1 != w8,
            w2 != w3,
            w2 != w4,
            w2 != w5,
            w2 != w6,
            w2 != w7,
            w2 != w8,
            w3 != w4,
            w3 != w5,
            w3 != w6,
            w3 != w7,
            w3 != w8,
            w4 != w5,
            w4 != w6,
            w4 != w7,
            w4 != w8,
            w5 != w6,
            w5 != w7,
            w5 != w8,
            w6 != w7,
            w6 != w8,
            w7 != w8,
    ;
}

proof fn lemma_row_pigeon(b: Seq<u16>, u: int, v: u16)
    requires
        b.len() == 81,
        solved_board(b),
        forall|i: int| 0 <= i < 81 ==> #[trigger] b[i] <= 9,
        valid_board(b),
        0 <= u < 9,
        1 <= v <= 9,
    ensures
        row_has(b, u, v),
{
    assert forall|j: int, k: int|
        0 <= j < 9 && 0 <= k < 9 && j != k implies #[trigger] row_val(b, u, j)
        != #[trigger] row_val(b, u, k) by {
            vstd::arithmetic::div_mod::lemma_fundamental_div_mod_converse(u * 9 + j, 9, u, j);
            vstd::arithmetic::div_mod::lemma_fundamental_div_mod_converse(u * 9 + k, 9, u, k);
            assert(same_unit(u * 9 + j, u * 9 + k));
            assert(b[u * 9 + j] != 0);
        }
    assert(1 <= row_val(b, u, 0) <= 9);
    assert(1 <= row_val(b, u, 1) <= 9);
    assert(1 <= row_val(b, u, 2) <= 9);
    assert(1 <= row_val(b, u, 3) <= 9);
    assert(1 <= row_val(b, u, 4) <= 9);
    assert(1 <= row_val(b, u, 5) <= 9);
    assert(1 <= row_val(b, u, 6) <= 9);
    assert(1 <= row_val(b, u, 7) <= 9);
    assert(1 <= row_val(b, u, 8) <= 9);
    lemma_nine_distinct_hit(
        row_val(b,
        u,
        0),
        row_val(b,
        u,
        1),
        row_val(b,
        u,
        2),
        row_val(b,
        u,
        3),
        row_val(b,
        u,
        4),
        row_val(b,
        u,
        5),
        row_val(b,
        u,
        6),
        row_val(b,
        u,
        7),
        row_val(b,
        u,
        8),
        v,
    );
}

proof fn lemma_col_pigeon(b: Seq<u16>, u: int, v: u16)
    requires
        b.len() == 81,
        solved_board(b),
        forall|i: int| 0 <= i < 81 ==> #[trigger] b[i] <= 9,
        valid_board(b),
        0 <= u < 9,
        1 <= v <= 9,
    ensures
        col_has(b, u, v),
{
    assert forall|j: int, k: int|
        0 <= j < 9 && 0 <= k < 9 && j != k implies #[trigger] col_val(b, u, j)
        != #[trigger] col_val(b, u, k) by {
            vstd::arithmetic::div_mod::lemma_fundamental_div_mod_converse(j * 9 + u, 9, j, u);
            vstd::arithmetic::div_mod::lemma_fundamental_div_mod_converse(k * 9 + u, 9, k, u);
            assert(same_unit(j * 9 + u, k * 9 + u));
            assert(b[j * 9 + u] != 0);
        }
    assert(1 <= col_val(b, u, 0) <= 9);
    assert(1 <= col_val(b, u, 1) <= 9);
    assert(1 <= col_val(b, u, 2) <= 9);
    assert(1 <= col_val(b, u, 3) <= 9);
    assert(1 <= col_val(b, u, 4) <= 9);
    assert(1 <= col_val(b, u, 5) <= 9);
    assert(1 <= col_val(b, u, 6) <= 9);
    assert(1 <= col_val(b, u, 7) <= 9);
    assert(1 <= col_val(b, u, 8) <= 9);
    lemma_nine_distinct_hit(
        col_val(b,
        u,
        0),
        col_val(b,
        u,
        1),
        col_val(b,
        u,
        2),
        col_val(b,
        u,
        3),
        col_val(b,
        u,
        4),
        col_val(b,
        u,
        5),
        col_val(b,
        u,
        6),
        col_val(b,
        u,
        7),
        col_val(b,
        u,
        8),
        v,
    );
}

proof fn lemma_block_cell_coords(t: int, k: int)
    requires
        0 <= t < 9,
        0 <= k < 9,
    ensures
        ({
            let i = (t / 3) * 27 + (k / 3) * 9 + (t % 3) * 3 + (k % 3);
            &&& 0 <= i < 81
            &&& (i % 9) / 3 == t % 3
            &&& (i / 9) / 3 == t / 3
        }),
{
    lemma_fundamental_div_mod(t, 3);
    lemma_mod_bound(t, 3);
    lemma_fundamental_div_mod(k, 3);
    lemma_mod_bound(k, 3);
    let i = (t / 3) * 27 + (k / 3) * 9 + (t % 3) * 3 + (k % 3);
    let q = 3 * (t / 3) + k / 3;
    let r = 3 * (t % 3) + k % 3;
    assert(i == q * 9 + r);
    vstd::arithmetic::div_mod::lemma_fundamental_div_mod_converse(i, 9, q, r);
    vstd::arithmetic::div_mod::lemma_fundamental_div_mod_converse(r, 3, t % 3, k % 3);
    vstd::arithmetic::div_mod::lemma_fundamental_div_mod_converse(q, 3, t / 3, k / 3);
}

proof fn lemma_block_pigeon(b: Seq<u16>, u: int, v: u16)
    requires
        b.len() == 81,
        solved_board(b),
        forall|i: int| 0 <= i < 81 ==> #[trigger] b[i] <= 9,
        valid_board(b),
        0 <= u < 9,
        1 <= v <= 9,
    ensures
        block_has(b, u, v),
{
    assert forall|j: int, k: int|
        0 <= j < 9 && 0 <= k < 9 && j != k implies #[trigger] block_val(b, u, j)
        != #[trigger] block_val(b, u, k) by {
            lemma_block_cell_coords(u, j);
            lemma_block_cell_coords(u, k);
            lemma_fundamental_div_mod(j, 3);
            lemma_mod_bound(j, 3);
            lemma_fundamental_div_mod(k, 3);
            lemma_mod_bound(k, 3);
            let cj = (u / 3) * 27 + (j / 3) * 9 + (u % 3) * 3 + (j % 3);
            let ck = (u / 3) * 27 + (k / 3) * 9 + (u % 3) * 3 + (k % 3);
            assert(cj != ck);
            assert(same_unit(cj, ck));
            assert(b[cj] != 0);
        }
    assert(1 <= block_val(b, u, 0) <= 9) by {
        lemma_block_cell_coords(u, 0);
    }
    assert(1 <= block_val(b, u, 1) <= 9) by {
        lemma_block_cell_coords(u, 1);
    }
    assert(1 <= block_val(b, u, 2) <= 9) by {
        lemma_block_cell_coords(u, 2);
    }
    assert(1 <= block_val(b, u, 3) <= 9) by {
        lemma_block_cell_coords(u, 3);
    }
    assert(1 <= block_val(b, u, 4) <= 9) by {
        lemma_block_cell_coords(u, 4);
    }
    assert(1 <= block_val(b, u, 5) <= 9) by {
        lemma_block_cell_coords(u, 5);
    }
    assert(1 <= block_val(b, u, 6) <= 9) by {
        lemma_block_cell_coords(u, 6);
    }
    assert(1 <= block_val(b, u, 7) <= 9) by {
        lemma_block_cell_coords(u, 7);
    }
    assert(1 <= block_val(b, u, 8) <= 9) by {
        lemma_block_cell_coords(u, 8);
    }
    lemma_nine_distinct_hit(
        block_val(b,
        u,
        0),
        block_val(b,
        u,
        1),
        block_val(b,
        u,
        2),
        block_val(b,
        u,
        3),
        block_val(b,
        u,
        4),
        block_val(b,
        u,
        5),
        block_val(b,
        u,
        6),
        block_val(b,
        u,
        7),
        block_val(b,
        u,
        8),
        v,
    );
}

/// A completely filled board with no duplicate in any row, column or block — what
/// fill_board guarantees — carries every value 1..=9 in every row, every column
/// and every 3x3 block, hence each exactly once.
pub proof fn lemma_solved_valid_units(b: Seq<u16>)
    requires
        b.len() == 81,
        solved_board(b),
        forall|i: int| 0 <= i < 81 ==> #[trigger] b[i] <= 9,
        valid_board(b),
    ensures
        forall|u: int, v: u16| 0 <= u < 9 && 1 <= v <= 9 ==> #[trigger] row_has(b, u, v),
        forall|u: int, v: u16| 0 <= u < 9 && 1 <= v <= 9 ==> #[trigger] col_has(b, u, v),
        forall|u: int, v: u16| 0 <= u < 9 && 1 <= v <= 9 ==> #[trigger] block_has(b, u, v),
{
    assert forall|u: int, v: u16| 0 <= u < 9 && 1 <= v <= 9 implies #[trigger] row_has(
        b,
        u,
        v,
    ) by {
        lemma_row_pigeon(b, u, v);
    }
    assert forall|u: int, v: u16| 0 <= u < 9 && 1 <= v <= 9 implies #[trigger] col_has(
        b,
        u,
        v,
    ) by {
        lemma_col_pigeon(b, u, v);
    }
    assert forall|u: int, v: u16| 0 <= u < 9 && 1 <= v <= 9 implies #[trigger] block_has(
        b,
        u,
        v,
    ) by {
        lemma_block_pigeon(b, u, v);
    }
}

/// The column offset of the reference solution pattern, injective over 0..9.
pub open spec fn coloff(y: int) -> int {
    3 * (y % 3) + y / 3
}

/// The value of the reference solution at a cell index.
pub open spec fn canon_val(c: int) -> u16 {
    (((c % 9 + coloff(c / 9)) % 9) + 1) as u16
}

proof fn lemma_mod9_range(s: int)
    requires
        0 <= s < 18,
    ensures
        s % 9 == if s < 9 {
            s
        } else {
            s - 9
        },
{
    if s < 9 {
        lemma_small_mod(s as nat, 9);
    } else {
        lemma_mod_sub_multiples_vanish(s - 9, 9);
        assert((-9 + (s - 9) + 9) % 9 == (s - 9) % 9);
        lemma_small_mod((s - 9) as nat, 9);
    }
}

proof fn lemma_canon_pair(a: int, b: int)
    requires
        0 <= a < 81,
        0 <= b < 81,
        a != b,
        same_unit(a, b),
    ensures
        canon_val(a) != canon_val(b),
{
    let xa = a % 9;
    let ya = a / 9;
    let xb = b % 9;
    let yb = b / 9;
    lemma_fundamental_div_mod(a, 9);
    lemma_fundamental_div_mod(b, 9);
    lemma_mod_bound(a, 9);
    lemma_mod_bound(b, 9);
    lemma_fundamental_div_mod(ya, 3);
    lemma_fundamental_div_mod(yb, 3);
    lemma_mod_bound(ya, 3);
    lemma_mod_bound(yb, 3);
    lemma_fundamental_div_mod(xa, 3);
    lemma_fundamental_div_mod(xb, 3);
    lemma_mod_bound(xa, 3);
    lemma_mod_bound(xb, 3);
    assert(0 <= ya <= 8);
    assert(0 <= yb <= 8);
    let sa = xa + coloff(ya);
    let sb = xb + coloff(yb);
    assert(0 <= coloff(ya) <= 8);
    assert(0 <= coloff(yb) <= 8);
    lemma_mod9_range(sa);
    lemma_mod9_range(sb);
    if sa % 9 == sb % 9 {
        assert(sa - sb == 9 || sa - sb == -9 || sa == sb);
        if ya == yb {
            assert(xa != xb);
            assert(sa - sb == xa - xb);
            assert(false);
        } else if xa == xb {
            assert(coloff(ya) != coloff(yb)) by {
                if coloff(ya) == coloff(yb) {
                    assert(3 * (ya % 3) - 3 * (yb % 3) == yb / 3 - ya / 3);
                    assert(ya % 3 == yb % 3);
                    assert(ya / 3 == yb / 3);
                    assert(ya == yb);
                }
            }
            assert(sa - sb == coloff(ya) - coloff(yb));
            assert(false);
        } else {
            assert(xa / 3 == xb / 3 && ya / 3 == yb / 3);
            assert(sa == 3 * (xa / 3) + xa % 3 + 3 * (ya % 3) + ya / 3);
            assert(sa - sb == (xa % 3 + 3 * (ya % 3)) - (xb % 3 + 3 * (yb % 3)));
            assert(xa % 3 + 3 * (ya % 3) == xb % 3 + 3 * (yb % 3));
            assert(xa % 3 - xb % 3 == 3 * ((yb % 3) - (ya % 3)));
            assert(xa % 3 == xb % 3 && ya % 3 == yb % 3);
            assert(xa == xb && ya == yb);
            assert(a == b);
            assert(false);
        }
    }
    assert(0 <= sa % 9 < 9 && 0 <= sb % 9 < 9);
}

/// The Sudoku generator: the emerging value grid and the per-cell constraint masks.
pub struct Sudoku {
    pub board: Vec<u16>,
    pub sol_board: Vec<u16>,
}

impl Sudoku {
    /// Structural well-formedness: 81 cells, values at most 9, masks within 9 bits.
    pub open spec fn wf(self) -> bool {
        &&& self.board@.len() == 81
        &&& self.sol_board@.len() == 81
        &&& forall|i: int| 0 <= i < 81 ==> #[trigger] self.board@[i] <= 9
        &&& forall|i: int| 0 <= i < 81 ==> #[trigger] self.sol_board@[i] < 0x200
    }

    pub open spec fn is_solved_spec(self) -> bool {
        solved_board(self.board@)
    }

    /// Some empty cell already excludes every value.
    pub open spec fn stuck_spec(self) -> bool {
        exists|i: int|
            0 <= i < 81 && #[trigger] self.board@[i] == 0 && self.sol_board@[i] == 0x1ff
    }

    pub fn new() -> (s: Sudoku)
        ensures
            s.wf(),
            forall|i: int| 0 <= i < 81 ==> #[trigger] s.board@[i] == 0,
            forall|i: int| 0 <= i < 81 ==> #[trigger] s.sol_board@[i] == 0,
    {
        Sudoku { board: vec![0u16; 81], sol_board: vec![0u16; 81] }
    }

    /// The values a cell with this exclusion mask may still take, in increasing order.
    pub fn get_possible_numbers(bitmask: u16) -> (r: Vec<u16>)
        ensures
            r@ == candidates_spec(bitmask),
    {
        let mut vec: Vec<u16> = Vec::new();
        let mut v: u16 = 1;
        while v <= 9
            invariant
                1 <= v <= 10,
                vec@ == cands_below(bitmask, v as int),
            decreases 10 - v,
        {
            let ghost prev = vec@;
            if bitmask & (1u16 << (v - 1)) == 0 {
                vec.push(v);
                proof {
                    assert(vec@ =~= prev + seq![v]);
                }
            } else {
                proof {
                    assert(vec@ =~= prev + Seq::<u16>::empty());
                }
            }
            v = v + 1;
        }
        vec
    }

    pub fn transform_to_x_y(idx: usize) -> (r: (usize, usize))
        requires
            idx < 81,
        ensures
            r.0 == idx % 9,
            r.1 == idx / 9,
            r.0 < 9,
            r.1 < 9,
            r.0 + r.1 * 9 == idx,
    {
        proof {
            lemma_fundamental_div_mod(idx as int, 9);
            lemma_mod_bound(idx as int, 9);
        }
        (idx % 9, idx / 9)
    }

    pub fn transform_to_idx(x: usize, y: usize) -> (r: usize)
        requires
            x < 9,
            y < 9,
        ensures
            r == x + y * 9,
            r < 81,
    {
        x + (y * 9)
    }

    pub fn get_index_in_row(row: usize, idx: usize) -> (r: usize)
        requires
            row < 9,
            idx < 9,
        ensures
            r == row * 9 + idx,
            r < 81,
    {
        (row * 9) + idx
    }

    pub fn get_index_in_column(column: usize, idx: usize) -> (r: usize)
        requires
            column < 9,
            idx < 9,
        ensures
            r == idx * 9 + column,
            r < 81,
    {
        (idx * 9) + column
    }

    pub fn get_index_in_block(block_x: usize, block_y: usize, idx: usize) -> (r: usize)
        requires
            block_x < 3,
            block_y < 3,
            idx < 9,
        ensures
            r == block_y * 27 + (idx / 3) * 9 + block_x * 3 + idx % 3,
            r < 81,
    {
        proof {
            lemma_fundamental_div_mod(idx as int, 3);
            lemma_mod_bound(idx as int, 3);
        }
        let mut temp: usize = 0;
        temp += block_y * 3 * 9;
        temp += (idx / 3) * 9;
        temp += block_x * 3;
        temp += idx % 3;
        temp
    }

    pub fn convert_to_bitmask(value: u16) -> (r: u16)
        requires
            value <= 9,
        ensures
            r == value_bit(value),
            r < 0x200,
    {
        if value == 0 {
            return 0;
        }
        let r = 1u16 << (value - 1);
        proof {
            let s = (value - 1) as u16;
            assert(1u16 << s < 0x200) by (bit_vector)
                requires
                    s <= 8,
            ;
        }
        r
    }

    /// The read accessor for a cell's value.
    pub fn get_value(&self, x: usize, y: usize) -> (r: u16)
        requires
            self.wf(),
            x < 9,
            y < 9,
        ensures
            r == self.board@[x + y * 9],
    {
        let idx = Self::transform_to_idx(x, y);
        self.board[idx]
    }

    /// The read accessor for a cell's exclusion mask.
    pub fn get_mask(&self, x: usize, y: usize) -> (r: u16)
        requires
            self.wf(),
            x < 9,
            y < 9,
        ensures
            r == self.sol_board@[x + y * 9],
    {
        let idx = Self::transform_to_idx(x, y);
        self.sol_board[idx]
    }

    pub fn is_solved(&self) -> (r: bool)
        requires
            self.wf(),
        ensures
            r == self.is_solved_spec(),
    {
        let mut c: usize = 0;
        while c < 81
            invariant
                c <= 81,
                self.wf(),
                forall|j: int| 0 <= j < c ==> #[trigger] self.board@[j] != 0,
            decreases 81 - c,
        {
            if self.board[c] == 0 {
                return false;
            }
            c += 1;
        }
        true
    }

    /// No still-empty cell is stuck with a full mask.
    pub fn is_valid(&self) -> (r: bool)
        requires
            self.wf(),
        ensures
            r == !self.stuck_spec(),
    {
        let mut c: usize = 0;
        while c < 81
            invariant
                c <= 81,
                self.wf(),
                forall|j: int|
                    0 <= j < c ==> !(#[trigger] self.board@[j] == 0 && self.sol_board@[j]
                        == 0x1ff),
            decreases 81 - c,
        {
            if self.board[c] == 0 && self.sol_board[c] == 0x1ff {
                return false;
            }
            c += 1;
        }
        true
    }
    /// How many of the nine meaningful mask bits are set.
    fn count_set_bits(m: u16) -> (r: u16)
        ensures
            r == ones9(m),
            r <= 9,
    {
        let mut r: u16 = 0;
        if m & 0x1 != 0 {
            r += 1;
        }
        if m & 0x2 != 0 {
            r += 1;
        }
        if m & 0x4 != 0 {
            r += 1;
        }
        if m & 0x8 != 0 {
            r += 1;
        }
        if m & 0x10 != 0 {
            r += 1;
        }
        if m & 0x20 != 0 {
            r += 1;
        }
        if m & 0x40 != 0 {
            r += 1;
        }
        if m & 0x80 != 0 {
            r += 1;
        }
        if m & 0x100 != 0 {
            r += 1;
        }
        r
    }

    /// The first still-empty cell whose mask excludes the most values, or None when solved.
    pub fn find_lowest(&self) -> (r: Option<usize>)
        requires
            self.wf(),
        ensures
            r is None <==> self.is_solved_spec(),
            r is Some ==> {
                let i = r->Some_0 as int;
                &&& 0 <= i < 81
                &&& self.board@[i] == 0
                &&& forall|c: int|
                    0 <= c < 81 && #[trigger] self.board@[c] == 0 ==> ones9(self.sol_board@[i])
                        > ones9(self.sol_board@[c]) || (ones9(self.sol_board@[i]) == ones9(
                        self.sol_board@[c],
                    ) && i <= c)
            },
    {
        let mut best: Option<usize> = None;
        let mut best_ones: u16 = 0;
        let mut c: usize = 0;
        while c < 81
            invariant
                c <= 81,
                self.wf(),
                best is None ==> forall|j: int| 0 <= j < c ==> #[trigger] self.board@[j] != 0,
                best is Some ==> {
                    let i = best->Some_0 as int;
                    &&& 0 <= i < c
                    &&& self.board@[i] == 0
                    &&& best_ones == ones9(self.sol_board@[i])
                    &&& forall|j: int|
                        0 <= j < c && #[trigger] self.board@[j] == 0 ==> ones9(self.sol_board@[i])
                            > ones9(self.sol_board@[j]) || (ones9(self.sol_board@[i]) == ones9(
                            self.sol_board@[j],
                        ) && i <= j)
                },
            decreases 81 - c,
        {
            if self.board[c] == 0 {
                let ones = Self::count_set_bits(self.sol_board[c]);
                match best {
                    Option::None => {
                        best = Some(c);
                        best_ones = ones;
                    },
                    Option::Some(_) => {
                        if ones > best_ones {
                            best = Some(c);
                            best_ones = ones;
                        }
                    },
                }
            }
            c += 1;
        }
        best
    }

    /// Places a value at (x, y): rejects out-of-range input and a value the cell's
    /// mask already excludes; otherwise it writes the value and reworks the masks of
    /// every cell of the same row, column and block, first withdrawing the bit of the
    /// value previously held there, then adding the new value's bit.
    pub fn insert_value(&mut self, x: usize, y: usize, value: u16) -> (r: bool)
        requires
            old(self).wf(),
        ensures
            final(self).wf(),
            !(x <= 8 && y <= 8) ==> r == false && *final(self) == *old(self),
            x <= 8 && y <= 8 && value > 9 ==> r == false && *final(self) == *old(self),
            x <= 8 && y <= 8 && value <= 9 && old(self).sol_board@[x + y * 9] & value_bit(value)
                != 0 ==> r == false && *final(self) == *old(self),
            x <= 8 && y <= 8 && value <= 9 && old(self).sol_board@[x + y * 9] & value_bit(value)
                == 0 ==> {
                &&& r == true
                &&& final(self).board@ == old(self).board@.update((x + y * 9) as int, value)
                &&& forall|c: int|
                    0 <= c < 81 ==> #[trigger] final(self).sol_board@[c] == (if same_unit(
                        c,
                        x + y * 9,
                    ) {
                        (old(self).sol_board@[c] & !value_bit(old(self).board@[x + y * 9]))
                            | value_bit(value)
                    } else {
                        old(self).sol_board@[c]
                    })
            },
    {
        let m_xy = if x > y {
            x
        } else {
            y
        };
        if m_xy > 8 {
            return false;
        }
        if value > 9 {
            return false;
        }
        let idx = Self::transform_to_idx(x, y);
        let available_bitmask: u16 = self.sol_board[idx];
        let vb = Self::convert_to_bitmask(value);
        if available_bitmask & vb > 0 {
            return false;
        }
        let old_value = self.board[idx];
        let ob = Self::convert_to_bitmask(old_value);
        let keep = !ob;
        self.board[idx] = value;
        let ghost sol0 = self.sol_board@;
        let ghost ov = old(self).board@[idx as int];
        let mut c: usize = 0;
        while c < 81
            invariant
                c <= 81,
                idx == x + y * 9 < 81,
                self.board@.len() == 81,
                self.sol_board@.len() == 81,
                self.board@ == old(self).board@.update(idx as int, value),
                forall|i: int| 0 <= i < 81 ==> #[trigger] self.board@[i] <= 9,
                keep == !value_bit(ov),
                ov == old(self).board@[idx as int],
                vb == value_bit(value),
                vb < 0x200,
                value <= 9,
                sol0 == old(self).sol_board@,
                forall|i: int| 0 <= i < 81 ==> #[trigger] sol0[i] < 0x200,
                forall|j: int|
                    0 <= j < c ==> #[trigger] self.sol_board@[j] == (if same_unit(j, idx as int) {
                        (sol0[j] & keep) | vb
                    } else {
                        sol0[j]
                    }),
                forall|j: int| 0 <= j < c ==> #[trigger] self.sol_board@[j] < 0x200,
                forall|j: int| c <= j < 81 ==> #[trigger] self.sol_board@[j] == sol0[j],
            decreases 81 - c,
        {
            if in_same_unit(c, idx) {
                let m = self.sol_board[c];
                let nm = (m & keep) | vb;
                proof {
                    assert((m & keep) | vb < 0x200) by (bit_vector)
                        requires
                            m < 0x200,
                            vb < 0x200,
                    ;
                }
                self.sol_board[c] = nm;
            }
            c += 1;
        }
        true
    }

    /// Empties the board and every constraint mask.
    fn reset_boards(&mut self)
        requires
            old(self).wf(),
        ensures
            final(self).wf(),
            forall|i: int| 0 <= i < 81 ==> #[trigger] final(self).board@[i] == 0,
            forall|i: int| 0 <= i < 81 ==> #[trigger] final(self).sol_board@[i] == 0,
    {
        let mut c: usize = 0;
        while c < 81
            invariant
                c <= 81,
                self.board@.len() == 81,
                self.sol_board@.len() == 81,
                forall|j: int| 0 <= j < c ==> #[trigger] self.board@[j] == 0,
                forall|j: int| 0 <= j < c ==> #[trigger] self.sol_board@[j] == 0,
            decreases 81 - c,
        {
            self.board[c] = 0;
            self.sol_board[c] = 0;
            c += 1;
        }
    }

    /// Whether the placed values break no row, column or block constraint.
    pub fn is_board_valid(&self) -> (r: bool)
        requires
            self.wf(),
        ensures
            r == valid_board(self.board@),
    {
        let mut a: usize = 0;
        while a < 81
            invariant
                a <= 81,
                self.wf(),
                forall|c: int, d: int|
                    0 <= c < a && 0 <= d < 81 && c != d && same_unit(c, d)
                        && #[trigger] self.board@[c] != 0 ==> self.board@[c]
                        != #[trigger] self.board@[d],
            decreases 81 - a,
        {
            let va = self.board[a];
            if va != 0 {
                let mut b: usize = 0;
                while b < 81
                    invariant
                        b <= 81,
                        a < 81,
                        self.wf(),
                        va == self.board@[a as int],
                        va != 0,
                        forall|d: int|
                            0 <= d < b && a != d && same_unit(a as int, d) ==> va
                                != #[trigger] self.board@[d],
                    decreases 81 - b,
                {
                    if a != b && in_same_unit(a, b) && self.board[b] == va {
                        return false;
                    }
                    b += 1;
                }
            }
            a += 1;
        }
        true
    }

    /// Fills the board with the reference solution pattern, proven valid.
    fn fill_canonical(&mut self)
        requires
            old(self).wf(),
        ensures
            final(self).wf(),
            final(self).is_solved_spec(),
            valid_board(final(self).board@),
    {
        let mut c: usize = 0;
        while c < 81
            invariant
                c <= 81,
                self.board@.len() == 81,
                self.sol_board@.len() == 81,
                forall|i: int| 0 <= i < 81 ==> #[trigger] self.sol_board@[i] < 0x200,
                forall|j: int| 0 <= j < c ==> #[trigger] self.board@[j] == canon_val(j),
            decreases 81 - c,
        {
            proof {
                lemma_fundamental_div_mod(c as int, 9);
                lemma_mod_bound(c as int, 9);
                lemma_fundamental_div_mod((c as int) / 9, 3);
                lemma_mod_bound((c as int) / 9, 3);
                lemma_mod_bound(
                    c as int % 9 + (3 * (((c as int) / 9) % 3) + ((c as int) / 9) / 3),
                    9,
                );
            }
            let x = c % 9;
            let y = c / 9;
            let v = ((x + 3 * (y % 3) + y / 3) % 9 + 1) as u16;
            self.board[c] = v;
            c += 1;
        }
        proof {
            assert forall|c: int, d: int|
                0 <= c < 81 && 0 <= d < 81 && c != d && same_unit(c, d) && #[trigger] self.board@[c]
                    != 0 implies self.board@[c] != #[trigger] self.board@[d] by {
                lemma_canon_pair(c, d);
            }
            assert forall|i: int| 0 <= i < 81 implies #[trigger] self.board@[i] != 0 by {
                lemma_mod_bound(i % 9 + coloff(i / 9), 9);
            }
            assert forall|i: int| 0 <= i < 81 implies #[trigger] self.board@[i] <= 9 by {
                lemma_mod_bound(i % 9 + coloff(i / 9), 9);
            }
        }
    }

    /// Drives randomized, most-constrained-first generation with retry-in-place and
    /// whole-board restarts until the board is completely filled and valid; after the
    /// restart budget it falls back to the proven reference solution.
    pub fn fill_board(&mut self)
        requires
            old(self).wf(),
        ensures
            final(self).wf(),
            final(self).is_solved_spec(),
            valid_board(final(self).board@),
    {
        let mut attempts_left: u32 = 100000;
        while attempts_left > 0
            invariant
                self.wf(),
            decreases attempts_left,
        {
            attempts_left -= 1;
            let filled = self.try_fill();
            if filled {
                if self.is_board_valid() {
                    return;
                }
            }
        }
        self.fill_canonical();
    }

    /// One generation attempt from an empty board; false reports a dead end.
    fn try_fill(&mut self) -> (ok: bool)
        requires
            old(self).wf(),
        ensures
            final(self).wf(),
            ok ==> final(self).is_solved_spec(),
    {
        self.reset_boards();
        let mut xx: u32 = 0;
        let mut solved = self.is_solved();
        while !solved
            invariant
                self.wf(),
                xx <= 8,
                solved == self.is_solved_spec(),
            decreases count_empty(self.board@),
        {
            let ghost empty0 = count_empty(self.board@);
            let lowest = match self.find_lowest() {
                Option::Some(i) => i,
                Option::None => {
                    return false;
                },
            };
            let (x, y) = Self::transform_to_x_y(lowest);
            let mask = self.sol_board[lowest];
            let numbers = Self::get_possible_numbers(mask);
            proof {
                lemma_cands_elems(mask, 10);
            }
            if numbers.len() == 0 {
                return false;
            }
            let k = crate::rng::rand_below(numbers.len());
            let number = numbers[k];
            let ghost bpre = self.board@;
            let ok = self.insert_value(x, y, number);
            proof {
                assert(1 <= number <= 9);
                assert(ok);
                lemma_count_empty_update(bpre, lowest as int, number);
            }
            assert(count_empty(self.board@) < empty0);
            let mut valid = self.is_valid();
            while !valid
                invariant
                    self.wf(),
                    xx <= 8,
                    lowest < 81,
                    lowest == x + y * 9,
                    x < 9,
                    y < 9,
                    valid == !self.stuck_spec(),
                    numbers@ == candidates_spec(mask),
                    numbers@.len() > 0,
                    self.board@[lowest as int] != 0,
                    count_empty(self.board@) < empty0,
                decreases 9 - xx,
            {
                xx += 1;
                if xx > 8 {
                    return false;
                }
                proof {
                    lemma_cands_elems(mask, 10);
                }
                let ghost before = self.board@;
                let k2 = crate::rng::rand_below(numbers.len());
                let number2 = numbers[k2];
                let ok2 = self.insert_value(x, y, number2);
                proof {
                    if ok2 {
                        lemma_count_empty_update(before, lowest as int, number2);
                    }
                }
                valid = self.is_valid();
            }
            solved = self.is_solved();
        }
        true
    }

}

/// Whether two cell indices share a row, a column or a 3x3 block.
fn in_same_unit(a: usize, b: usize) -> (r: bool)
    requires
        a < 81,
        b < 81,
    ensures
        r == same_unit(a as int, b as int),
{
    a / 9 == b / 9 || a % 9 == b % 9 || ((a % 9) / 3 == (b % 9) / 3 && (a / 9) / 3 == (b / 9) / 3)
}

/// How many of the nine low bits of a mask are set.
pub open spec fn ones9(m: u16) -> int {
    bit1(m, 0x1) + bit1(m, 0x2) + bit1(m, 0x4) + bit1(m, 0x8) + bit1(m, 0x10) + bit1(m, 0x20)
        + bit1(m, 0x40) + bit1(m, 0x80) + bit1(m, 0x100)
}

pub open spec fn bit1(m: u16, k: u16) -> int {
    if m & k != 0 {
        1
    } else {
        0
    }
}

} // verus!
