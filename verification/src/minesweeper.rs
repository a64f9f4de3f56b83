use vstd::prelude::*;

verus! {

/// The outcome of one applied move.
#[derive(Debug, Clone, Copy, PartialEq, Eq, Structural)]
pub enum MoveResult {
    Useless,
    Continue,
    Won,
    Lost,
    NotStarted,
    UserMineThere,
    UserMineToggled,
}

/// A cell of the visibility layer: -1 hidden, 0..=8 a revealed count, 9 a revealed mine.
pub open spec fn cell_v(s: Seq<i16>, w: int, x: int, y: int) -> i16 {
    s[x + y * w]
}

/// A cell of a boolean layer (mines or flags).
pub open spec fn cell_b(s: Seq<bool>, w: int, x: int, y: int) -> bool {
    s[x + y * w]
}

/// A cell of the adjacency-count layer.
pub open spec fn cell_c(s: Seq<u16>, w: int, x: int, y: int) -> u16 {
    s[x + y * w]
}

pub open spec fn mine_ind(mines: Seq<bool>, w: int, h: int, x: int, y: int) -> int {
    if 0 <= x < w && 0 <= y < h && cell_b(mines, w, x, y) {
        1
    } else {
        0
    }
}

/// How many mined cells the clipped 8-neighborhood of a cell holds.
pub open spec fn adj_count(mines: Seq<bool>, w: int, h: int, x: int, y: int) -> int {
    mine_ind(mines, w, h, x - 1, y - 1) + mine_ind(mines, w, h, x, y - 1) + mine_ind(
        mines,
        w,
        h,
        x + 1,
        y - 1,
    ) + mine_ind(mines, w, h, x - 1, y) + mine_ind(mines, w, h, x + 1, y) + mine_ind(
        mines,
        w,
        h,
        x - 1,
        y + 1,
    ) + mine_ind(mines, w, h, x, y + 1) + mine_ind(mines, w, h, x + 1, y + 1)
}

/// The adjacency layer is faithful to the mine layer.
pub open spec fn adj_ok(mines: Seq<bool>, counts: Seq<u16>, w: int, h: int) -> bool {
    forall|a: int, b: int|
        0 <= a < w && 0 <= b < h ==> #[trigger] cell_c(counts, w, a, b) as int == adj_count(
            mines,
            w,
            h,
            a,
            b,
        )
}

/// Every cell that holds no mine has been revealed.
pub open spec fn won_of(game: Seq<i16>, mines: Seq<bool>, w: int, h: int) -> bool {
    forall|a: int, b: int|
        0 <= a < w && 0 <= b < h && !cell_b(mines, w, a, b) ==> #[trigger] cell_v(game, w, a, b)
            != -1
}

/// A revealed cell never turns hidden again.
pub open spec fn stays_revealed(pre: Seq<i16>, post: Seq<i16>) -> bool {
    forall|j: int| 0 <= j < pre.len() && #[trigger] pre[j] != -1 ==> post[j] != -1
}

/// Already revealed cells keep their value from one visibility layer to the next.
pub open spec fn keeps_revealed(pre: Seq<i16>, post: Seq<i16>) -> bool {
    forall|j: int| 0 <= j < pre.len() && #[trigger] pre[j] != -1 ==> post[j] == pre[j]
}

/// The coordinate reading of keeps_revealed.
pub open spec fn keeps_revealed_cells(pre: Seq<i16>, post: Seq<i16>, w: int, h: int) -> bool {
    forall|a: int, b: int|
        0 <= a < w && 0 <= b < h && #[trigger] cell_v(pre, w, a, b) != -1 ==> #[trigger] cell_v(
            post,
            w,
            a,
            b,
        ) == cell_v(pre, w, a, b)
}

/// Every cell a move revealed was hidden, unflagged and not mined, and now shows
/// its adjacency count.
pub open spec fn new_reveals_ok(
    pre: Seq<i16>,
    post: Seq<i16>,
    mines: Seq<bool>,
    flags: Seq<bool>,
    counts: Seq<u16>,
) -> bool {
    forall|j: int|
        0 <= j < pre.len() && pre[j] == -1 && #[trigger] post[j] != -1 ==> !mines[j] && !flags[j]
            && post[j] == counts[j] as i16
}

/// Two distinct cells within one step of each other in both coordinates.
pub open spec fn is_neighbor(x1: int, y1: int, x2: int, y2: int) -> bool {
    -1 <= x2 - x1 <= 1 && -1 <= y2 - y1 <= 1 && !(x1 == x2 && y1 == y2)
}

/// Every cell a move revealed whose count is zero has all of its unflagged
/// in-bounds neighbors revealed: a zero region never stops half-opened.
pub open spec fn cascade_closed(
    pre: Seq<i16>,
    post: Seq<i16>,
    flags: Seq<bool>,
    counts: Seq<u16>,
    w: int,
    h: int,
) -> bool {
    forall|a: int, b: int, c: int, d: int|
        0 <= a < w && 0 <= b < h && 0 <= c < w && 0 <= d < h && is_neighbor(a, b, c, d) && cell_v(
            pre,
            w,
            a,
            b,
        ) == -1 && #[trigger] cell_v(post, w, a, b) != -1 && cell_c(counts, w, a, b) == 0
            && !cell_b(flags, w, c, d) ==> #[trigger] cell_v(post, w, c, d) != -1
}

/// Every cell a move revealed, other than the move's own target, neighbors a
/// revealed zero-count non-mined cell: reveals spread only out of zero cells.
pub open spec fn cascade_justified(
    pre: Seq<i16>,
    post: Seq<i16>,
    mines: Seq<bool>,
    counts: Seq<u16>,
    w: int,
    h: int,
    x: int,
    y: int,
) -> bool {
    forall|a: int, b: int|
        0 <= a < w && 0 <= b < h && !(a == x && b == y) && cell_v(pre, w, a, b) == -1
            && #[trigger] cell_v(post, w, a, b) != -1 ==> exists|c: int, d: int|
            0 <= c < w && 0 <= d < h && is_neighbor(a, b, c, d) && #[trigger] cell_v(post, w, c, d)
                != -1 && cell_c(counts, w, c, d) == 0 && !cell_b(mines, w, c, d)
}

/// How many cells of a mine layer are mined.
pub open spec fn count_true(s: Seq<bool>) -> nat
    decreases s.len(),
{
    if s.len() == 0 {
        0
    } else {
        count_true(s.drop_last()) + (if s.last() {
            1nat
        } else {
            0nat
        })
    }
}

proof fn lemma_count_true_update(s: Seq<bool>, i: int, v: bool)
    requires
        0 <= i < s.len(),
    ensures
        count_true(s.update(i, v)) == count_true(s) - (if s[i] {
            1int
        } else {
            0int
        }) + (if v {
            1int
        } else {
            0int
        }),
    decreases s.len(),
{
    let t = s.update(i, v);
    if i == s.len() - 1 {
        assert(t.drop_last() =~= s.drop_last());
    } else {
        lemma_count_true_update(s.drop_last(), i, v);
        assert(t.drop_last() =~= s.drop_last().update(i, v));
        assert(t.last() == s.last());
    }
}

proof fn lemma_count_true_take_succ(s: Seq<bool>, i: int)
    requires
        0 <= i < s.len(),
    ensures
        count_true(s.take(i + 1)) == count_true(s.take(i)) + (if s[i] {
            1int
        } else {
            0int
        }),
{
    assert(s.take(i + 1).drop_last() =~= s.take(i));
    assert(s.take(i + 1).last() == s[i]);
}

proof fn lemma_count_true_take_le(s: Seq<bool>, j: int)
    requires
        0 <= j <= s.len(),
    ensures
        count_true(s.take(j)) <= count_true(s),
    decreases s.len() - j,
{
    if j == s.len() {
        assert(s.take(j) =~= s);
    } else {
        lemma_count_true_take_succ(s, j);
        lemma_count_true_take_le(s, j + 1);
    }
}

proof fn lemma_count_true_zero(s: Seq<bool>)
    requires
        forall|j: int| 0 <= j < s.len() ==> !(#[trigger] s[j]),
    ensures
        count_true(s) == 0,
    decreases s.len(),
{
    if s.len() > 0 {
        lemma_count_true_zero(s.drop_last());
    }
}

/// How many cells of the visibility layer are still hidden.
pub open spec fn count_hidden(s: Seq<i16>) -> nat
    decreases s.len(),
{
    if s.len() == 0 {
        0
    } else {
        count_hidden(s.drop_last()) + (if s.last() == -1 {
            1nat
        } else {
            0nat
        })
    }
}

proof fn lemma_count_hidden_update(s: Seq<i16>, i: int, v: i16)
    requires
        0 <= i < s.len(),
    ensures
        count_hidden(s.update(i, v)) == count_hidden(s) - (if s[i] == -1 {
            1int
        } else {
            0int
        }) + (if v == -1 {
            1int
        } else {
            0int
        }),
    decreases s.len(),
{
    let t = s.update(i, v);
    if i == s.len() - 1 {
        assert(t.drop_last() =~= s.drop_last());
    } else {
        lemma_count_hidden_update(s.drop_last(), i, v);
        assert(t.drop_last() =~= s.drop_last().update(i, v));
        assert(t.last() == s.last());
    }
}

proof fn lemma_count_hidden_mono(s: Seq<i16>, t: Seq<i16>)
    requires
        s.len() == t.len(),
        forall|j: int| 0 <= j < t.len() && #[trigger] t[j] == -1 ==> s[j] == -1,
    ensures
        count_hidden(t) <= count_hidden(s),
    decreases s.len(),
{
    if s.len() > 0 {
        lemma_count_hidden_mono(s.drop_last(), t.drop_last());
    }
}

proof fn lemma_idx_bound(x: int, y: int, w: int, h: int)
    requires
        0 <= x < w,
        0 <= y < h,
    ensures
        0 <= x + y * w < w * h,
{
    assert(x + y * w < w * h) by (nonlinear_arith)
        requires
            0 <= x < w,
            0 <= y < h,
    ;
}

proof fn lemma_idx_inj(a: int, b: int, x: int, y: int, w: int)
    requires
        0 <= a < w,
        0 <= x < w,
        0 <= b,
        0 <= y,
        a + b * w == x + y * w,
    ensures
        a == x && b == y,
{
    assert(a == x && b == y) by (nonlinear_arith)
        requires
            0 <= a < w,
            0 <= x < w,
            0 <= b,
            0 <= y,
            a + b * w == x + y * w,
    ;
}

/// The minefield with its fixed mine layer, the precomputed adjacency counts,
/// the player's visibility layer and flag layer, indexed by x + y * width.
pub struct Minesweeper {
    pub width: usize,
    pub height: usize,
    pub game_started: bool,
    pub mine_board: Vec<bool>,
    pub user_mine_board: Vec<bool>,
    pub game_board: Vec<i16>,
    pub adjacency_board: Vec<u16>,
}

impl Minesweeper {
    pub open spec fn area(self) -> int {
        self.width * self.height
    }

    pub open spec fn in_bounds(self, x: int, y: int) -> bool {
        0 <= x < self.width && 0 <= y < self.height
    }

    pub open spec fn gcell(self, x: int, y: int) -> i16 {
        cell_v(self.game_board@, self.width as int, x, y)
    }

    pub open spec fn mcell(self, x: int, y: int) -> bool {
        cell_b(self.mine_board@, self.width as int, x, y)
    }

    pub open spec fn ucell(self, x: int, y: int) -> bool {
        cell_b(self.user_mine_board@, self.width as int, x, y)
    }

    pub open spec fn acell(self, x: int, y: int) -> u16 {
        cell_c(self.adjacency_board@, self.width as int, x, y)
    }

    pub open spec fn adj_spec(self, x: int, y: int) -> int {
        adj_count(self.mine_board@, self.width as int, self.height as int, x, y)
    }

    pub open spec fn dims_ok(self) -> bool {
        &&& self.mine_board@.len() == self.area()
        &&& self.user_mine_board@.len() == self.area()
        &&& self.game_board@.len() == self.area()
        &&& self.adjacency_board@.len() == self.area()
        &&& self.area() <= usize::MAX
    }

    /// Well-formed: boards sized to the grid and adjacency counts faithful to the mines.
    pub open spec fn wf(self) -> bool {
        &&& self.dims_ok()
        &&& adj_ok(
            self.mine_board@,
            self.adjacency_board@,
            self.width as int,
            self.height as int,
        )
    }

    /// Every cell that holds no mine has been revealed.
    pub open spec fn won_spec(self) -> bool {
        won_of(self.game_board@, self.mine_board@, self.width as int, self.height as int)
    }

    fn index_of(&self, x: usize, y: usize) -> (r: usize)
        requires
            self.dims_ok(),
            x < self.width,
            y < self.height,
        ensures
            r == x + y * self.width,
            r < self.area(),
    {
        proof {
            lemma_idx_bound(x as int, y as int, self.width as int, self.height as int);
        }
        x + y * self.width
    }

    /// A field of the given size with no mines, everything hidden and unflagged.
    pub fn empty(width: usize, height: usize) -> (ms: Minesweeper)
        requires
            width * height <= usize::MAX,
        ensures
            ms.wf(),
            ms.width == width,
            ms.height == height,
            ms.game_started,
            forall|j: int| 0 <= j < ms.area() ==> !(#[trigger] ms.mine_board@[j]),
            forall|j: int| 0 <= j < ms.area() ==> !(#[trigger] ms.user_mine_board@[j]),
            forall|j: int| 0 <= j < ms.area() ==> #[trigger] ms.game_board@[j] == -1,
            count_true(ms.mine_board@) == 0,
    {
        let area = width * height;
        let ms = Minesweeper {
            width,
            height,
            game_started: true,
            mine_board: vec![false; area],
            user_mine_board: vec![false; area],
            game_board: vec![-1i16; area],
            adjacency_board: vec![0u16; area],
        };
        proof {
            let w = width as int;
            let h = height as int;
            assert forall|x: int, y: int| 0 <= x < w && 0 <= y < h implies #[trigger] cell_c(
                ms.adjacency_board@,
                w,
                x,
                y,
            ) as int == adj_count(ms.mine_board@, w, h, x, y) by {
                lemma_idx_bound(x, y, w, h);
                if 0 <= x - 1 && y - 1 >= 0 {
                    lemma_idx_bound(x - 1, y - 1, w, h);
                }
                if y - 1 >= 0 {
                    lemma_idx_bound(x, y - 1, w, h);
                }
                if x + 1 < w && y - 1 >= 0 {
                    lemma_idx_bound(x + 1, y - 1, w, h);
                }
                if 0 <= x - 1 {
                    lemma_idx_bound(x - 1, y, w, h);
                }
                if x + 1 < w {
                    lemma_idx_bound(x + 1, y, w, h);
                }
                if 0 <= x - 1 && y + 1 < h {
                    lemma_idx_bound(x - 1, y + 1, w, h);
                }
                if y + 1 < h {
                    lemma_idx_bound(x, y + 1, w, h);
                }
                if x + 1 < w && y + 1 < h {
                    lemma_idx_bound(x + 1, y + 1, w, h);
                }
            }
            lemma_count_true_zero(ms.mine_board@);
        }
        ms
    }

    /// The number of mined cells in the clipped 8-neighborhood of (x, y).
    pub fn count_adjacent(&self, x: usize, y: usize) -> (r: u16)
        requires
            self.dims_ok(),
            x < self.width,
            y < self.height,
        ensures
            r as int == adj_count(
                self.mine_board@,
                self.width as int,
                self.height as int,
                x as int,
                y as int,
            ),
            r <= 8,
    {
        let w = self.width;
        let h = self.height;
        proof {
            let xi = x as int;
            let yi = y as int;
            let wi = w as int;
            let hi = h as int;
            if 0 <= xi - 1 && yi - 1 >= 0 {
                lemma_idx_bound(xi - 1, yi - 1, wi, hi);
            }
            if yi - 1 >= 0 {
                lemma_idx_bound(xi, yi - 1, wi, hi);
            }
            if xi + 1 < wi && yi - 1 >= 0 {
                lemma_idx_bound(xi + 1, yi - 1, wi, hi);
            }
            if 0 <= xi - 1 {
                lemma_idx_bound(xi - 1, yi, wi, hi);
            }
            if xi + 1 < wi {
                lemma_idx_bound(xi + 1, yi, wi, hi);
            }
            if 0 <= xi - 1 && yi + 1 < hi {
                lemma_idx_bound(xi - 1, yi + 1, wi, hi);
            }
            if yi + 1 < hi {
                lemma_idx_bound(xi, yi + 1, wi, hi);
            }
            if xi + 1 < wi && yi + 1 < hi {
                lemma_idx_bound(xi + 1, yi + 1, wi, hi);
            }
        }
        let mut count: u16 = 0;
        if x > 0 && y > 0 && self.mine_board[(x - 1) + (y - 1) * w] {
            count += 1;
        }
        if y > 0 && self.mine_board[x + (y - 1) * w] {
            count += 1;
        }
        if x + 1 < w && y > 0 && self.mine_board[(x + 1) + (y - 1) * w] {
            count += 1;
        }
        if x > 0 && self.mine_board[(x - 1) + y * w] {
            count += 1;
        }
        if x + 1 < w && self.mine_board[(x + 1) + y * w] {
            count += 1;
        }
        if x > 0 && y + 1 < h && self.mine_board[(x - 1) + (y + 1) * w] {
            count += 1;
        }
        if y + 1 < h && self.mine_board[x + (y + 1) * w] {
            count += 1;
        }
        if x + 1 < w && y + 1 < h && self.mine_board[(x + 1) + (y + 1) * w] {
            count += 1;
        }
        count
    }

    /// Recomputes every cell's adjacency count from the current mine layer.
    pub fn compute_adjacency_board(&mut self)
        requires
            old(self).dims_ok(),
        ensures
            final(self).wf(),
            final(self).width == old(self).width,
            final(self).height == old(self).height,
            final(self).game_started == old(self).game_started,
            final(self).mine_board@ == old(self).mine_board@,
            final(self).user_mine_board@ == old(self).user_mine_board@,
            final(self).game_board@ == old(self).game_board@,
    {
        let w = self.width;
        let h = self.height;
        let mut y: usize = 0;
        while y < h
            invariant
                y <= h,
                w == self.width,
                h == self.height,
                self.dims_ok(),
                self.game_started == old(self).game_started,
                self.mine_board@ == old(self).mine_board@,
                self.user_mine_board@ == old(self).user_mine_board@,
                self.game_board@ == old(self).game_board@,
                forall|a: int, b: int|
                    0 <= a < w && 0 <= b < y ==> #[trigger] cell_c(self.adjacency_board@, w as int, a, b)
                        as int == adj_count(self.mine_board@, w as int, h as int, a, b),
            decreases h - y,
        {
            let mut x: usize = 0;
            while x < w
                invariant
                    x <= w,
                    y < h,
                    w == self.width,
                    h == self.height,
                    self.dims_ok(),
                    self.game_started == old(self).game_started,
                    self.mine_board@ == old(self).mine_board@,
                    self.user_mine_board@ == old(self).user_mine_board@,
                    self.game_board@ == old(self).game_board@,
                    forall|a: int, b: int|
                        0 <= a < w && 0 <= b < y ==> #[trigger] cell_c(
                            self.adjacency_board@,
                            w as int,
                            a,
                            b,
                        ) as int == adj_count(self.mine_board@, w as int, h as int, a, b),
                    forall|a: int|
                        0 <= a < x ==> #[trigger] cell_c(self.adjacency_board@, w as int, a, y as int)
                            as int == adj_count(self.mine_board@, w as int, h as int, a, y as int),
                decreases w - x,
            {
                let c = self.count_adjacent(x, y);
                let i = self.index_of(x, y);
                let ghost pre = *self;
                self.adjacency_board[i] = c;
                proof {
                    assert forall|a: int, b: int|
                        0 <= a < w && (0 <= b < y || (b == y && 0 <= a <= x)) implies #[trigger] cell_c(
                        self.adjacency_board@,
                        w as int,
                        a,
                        b,
                    ) as int == adj_count(self.mine_board@, w as int, h as int, a, b) by {
                        lemma_idx_bound(a, b, w as int, h as int);
                        lemma_idx_bound(x as int, y as int, w as int, h as int);
                        if a + b * w == x + y * w {
                            lemma_idx_inj(a, b, x as int, y as int, w as int);
                            assert(cell_c(self.adjacency_board@, w as int, a, b) == c);
                        } else {
                            assert(cell_c(self.adjacency_board@, w as int, a, b) == cell_c(
                                pre.adjacency_board@,
                                w as int,
                                a,
                                b,
                            ));
                        }
                    }
                }
                x += 1;
            }
            y += 1;
        }
    }

    /// A field with exactly the requested number of mines at distinct random
    /// locations, adjacency counts computed, everything hidden and unflagged.
    pub fn with_random_mines(width: usize, height: usize, count: usize) -> (ms: Minesweeper)
        requires
            width * height <= usize::MAX,
            count <= width * height,
        ensures
            ms.wf(),
            ms.width == width,
            ms.height == height,
            ms.game_started,
            count_true(ms.mine_board@) == count,
            forall|j: int| 0 <= j < ms.area() ==> !(#[trigger] ms.user_mine_board@[j]),
            forall|j: int| 0 <= j < ms.area() ==> #[trigger] ms.game_board@[j] == -1,
    {
        let mut ms = Minesweeper::empty(width, height);
        let area = width * height;
        let mut placed: usize = 0;
        while placed < count
            invariant
                placed <= count,
                count <= area,
                area == width * height,
                area <= usize::MAX,
                ms.width == width,
                ms.height == height,
                ms.game_started,
                ms.dims_ok(),
                count_true(ms.mine_board@) == placed,
                forall|j: int| 0 <= j < ms.area() ==> !(#[trigger] ms.user_mine_board@[j]),
                forall|j: int| 0 <= j < ms.area() ==> #[trigger] ms.game_board@[j] == -1,
            decreases count - placed,
        {
            // choose uniformly among the still-unmined cells: the k-th unmined one
            let k = crate::rng::rand_below(area - placed);
            let mut i: usize = 0;
            let mut seen: usize = 0;
            let mut found = false;
            while !found
                invariant
                    i <= area,
                    seen <= k,
                    k < area - placed,
                    placed < count <= area,
                    area == width * height,
                    ms.width == width,
                    ms.height == height,
                    ms.game_started,
                    ms.dims_ok(),
                    count_true(ms.mine_board@) == placed + (if found {
                        1int
                    } else {
                        0int
                    }),
                    forall|j: int| 0 <= j < ms.area() ==> !(#[trigger] ms.user_mine_board@[j]),
                    forall|j: int| 0 <= j < ms.area() ==> #[trigger] ms.game_board@[j] == -1,
                    !found ==> seen == i - count_true(ms.mine_board@.take(i as int)),
                    !found ==> count_true(ms.mine_board@.take(i as int)) <= placed,
                decreases (if found {
                    0int
                } else {
                    1 + area - i
                }),
            {
                proof {
                    if i == area {
                        assert(ms.mine_board@.take(area as int) =~= ms.mine_board@);
                    }
                }
                assert(i < area);
                let is_mined = ms.mine_board[i];
                proof {
                    lemma_count_true_take_succ(ms.mine_board@, i as int);
                    lemma_count_true_take_le(ms.mine_board@, i + 1);
                }
                if !is_mined && seen == k {
                    let ghost mb = ms.mine_board@;
                    ms.mine_board[i] = true;
                    proof {
                        lemma_count_true_update(mb, i as int, true);
                    }
                    found = true;
                } else {
                    if !is_mined {
                        seen += 1;
                    }
                    i += 1;
                }
            }
            placed += 1;
        }
        ms.compute_adjacency_board();
        ms
    }

    /// Whether every non-mined cell has been revealed.
    pub fn is_won(&self) -> (r: bool)
        requires
            self.dims_ok(),
        ensures
            r == self.won_spec(),
    {
        let w = self.width;
        let h = self.height;
        let mut y: usize = 0;
        while y < h
            invariant
                y <= h,
                w == self.width,
                h == self.height,
                self.dims_ok(),
                forall|a: int, b: int|
                    0 <= a < w && 0 <= b < y && !cell_b(self.mine_board@, w as int, a, b)
                        ==> #[trigger] cell_v(self.game_board@, w as int, a, b) != -1,
            decreases h - y,
        {
            let mut x: usize = 0;
            while x < w
                invariant
                    x <= w,
                    y < h,
                    w == self.width,
                    h == self.height,
                    self.dims_ok(),
                    forall|a: int, b: int|
                        0 <= a < w && 0 <= b < y && !cell_b(self.mine_board@, w as int, a, b)
                            ==> #[trigger] cell_v(self.game_board@, w as int, a, b) != -1,
                    forall|a: int|
                        0 <= a < x && !cell_b(self.mine_board@, w as int, a, y as int)
                            ==> #[trigger] cell_v(self.game_board@, w as int, a, y as int) != -1,
                decreases w - x,
            {
                let i = self.index_of(x, y);
                if self.game_board[i] == -1 && !self.mine_board[i] {
                    proof {
                        assert(!cell_b(self.mine_board@, w as int, x as int, y as int) && cell_v(
                            self.game_board@,
                            w as int,
                            x as int,
                            y as int,
                        ) == -1);
                    }
                    return false;
                }
                x += 1;
            }
            y += 1;
        }
        true
    }

    /// Turns every mined cell's visibility to the revealed mine marker.
    fn reveal_all_mines(&mut self)
        requires
            old(self).dims_ok(),
        ensures
            final(self).width == old(self).width,
            final(self).height == old(self).height,
            final(self).game_started == old(self).game_started,
            final(self).mine_board@ == old(self).mine_board@,
            final(self).user_mine_board@ == old(self).user_mine_board@,
            final(self).adjacency_board@ == old(self).adjacency_board@,
            final(self).game_board@.len() == old(self).game_board@.len(),
            forall|j: int|
                0 <= j < old(self).game_board@.len() ==> #[trigger] final(self).game_board@[j] == (
                if old(self).mine_board@[j] {
                    9i16
                } else {
                    old(self).game_board@[j]
                }),
    {
        let area = self.game_board.len();
        let mut j: usize = 0;
        while j < area
            invariant
                j <= area,
                self.dims_ok(),
                area == self.game_board@.len(),
                self.width == old(self).width,
                self.height == old(self).height,
                self.game_started == old(self).game_started,
                self.mine_board@ == old(self).mine_board@,
                self.user_mine_board@ == old(self).user_mine_board@,
                self.adjacency_board@ == old(self).adjacency_board@,
                forall|k: int|
                    0 <= k < j ==> #[trigger] self.game_board@[k] == (if old(self).mine_board@[k] {
                        9i16
                    } else {
                        old(self).game_board@[k]
                    }),
                forall|k: int|
                    j <= k < area ==> #[trigger] self.game_board@[k] == old(self).game_board@[k],
            decreases area - j,
        {
            if self.mine_board[j] {
                self.game_board[j] = 9;
            }
            j += 1;
        }
    }

    /// Applies one player move: a reveal, or a flag toggle when mark_bomb is set.
    /// An inactive game or an already revealed cell changes nothing; a flagged cell
    /// rejects a reveal; a mined cell uncovers every mine and loses; any other cell
    /// is revealed with its adjacency count, a zero count floods its whole zero
    /// region (never crossing a flag, never entering a mine), and the move wins as
    /// soon as every non-mined cell stands revealed.
    pub fn game_move(&mut self, x: usize, y: usize, mark_bomb: bool) -> (r: MoveResult)
        requires
            old(self).wf(),
            x < old(self).width,
            y < old(self).height,
        ensures
            final(self).wf(),
            final(self).width == old(self).width,
            final(self).height == old(self).height,
            final(self).mine_board@ == old(self).mine_board@,
            final(self).adjacency_board@ == old(self).adjacency_board@,
            final(self).game_started ==> old(self).game_started,
            stays_revealed(old(self).game_board@, final(self).game_board@),
            !(old(self).game_started && old(self).gcell(x as int, y as int) == -1 && !mark_bomb
                && !old(self).ucell(x as int, y as int) && old(self).mcell(x as int, y as int))
                ==> keeps_revealed(old(self).game_board@, final(self).game_board@)
                && keeps_revealed_cells(
                old(self).game_board@,
                final(self).game_board@,
                old(self).width as int,
                old(self).height as int,
            ),
            !old(self).game_started ==> r == MoveResult::NotStarted && *final(self) == *old(self),
            old(self).game_started && old(self).gcell(x as int, y as int) != -1 ==> r
                == MoveResult::Useless && *final(self) == *old(self),
            old(self).game_started && old(self).gcell(x as int, y as int) == -1 && mark_bomb ==> r
                == MoveResult::UserMineToggled && final(self).game_board@ == old(self).game_board@
                && final(self).game_started == old(self).game_started
                && final(self).user_mine_board@ == old(self).user_mine_board@.update(
                x + y * old(self).width,
                !old(self).ucell(x as int, y as int),
            ),
            old(self).game_started && old(self).gcell(x as int, y as int) == -1 && !mark_bomb
                && old(self).ucell(x as int, y as int) ==> r == MoveResult::UserMineThere
                && *final(self) == *old(self),
            old(self).game_started && old(self).gcell(x as int, y as int) == -1 && !mark_bomb
                && !old(self).ucell(x as int, y as int) && old(self).mcell(x as int, y as int)
                ==> r == MoveResult::Lost && !final(self).game_started
                && final(self).user_mine_board@ == old(self).user_mine_board@ && forall|j: int|
                0 <= j < old(self).game_board@.len() ==> #[trigger] final(self).game_board@[j] == (
                if old(self).mine_board@[j] {
                    9i16
                } else {
                    old(self).game_board@[j]
                }),
            old(self).game_started && old(self).gcell(x as int, y as int) == -1 && !mark_bomb
                && !old(self).ucell(x as int, y as int) && !old(self).mcell(x as int, y as int)
                ==> {
                &&& final(self).user_mine_board@ == old(self).user_mine_board@
                &&& final(self).gcell(x as int, y as int) == old(self).acell(x as int, y as int)
                    as i16
                &&& new_reveals_ok(
                    old(self).game_board@,
                    final(self).game_board@,
                    old(self).mine_board@,
                    old(self).user_mine_board@,
                    old(self).adjacency_board@,
                )
                &&& cascade_closed(
                    old(self).game_board@,
                    final(self).game_board@,
                    old(self).user_mine_board@,
                    old(self).adjacency_board@,
                    old(self).width as int,
                    old(self).height as int,
                )
                &&& cascade_justified(
                    old(self).game_board@,
                    final(self).game_board@,
                    old(self).mine_board@,
                    old(self).adjacency_board@,
                    old(self).width as int,
                    old(self).height as int,
                    x as int,
                    y as int,
                )
                &&& (r == MoveResult::Won <==> final(self).won_spec())
                &&& (r == MoveResult::Won || r == MoveResult::Continue)
                &&& (r == MoveResult::Won ==> !final(self).game_started)
                &&& (r == MoveResult::Continue ==> final(self).game_started)
            },
        decreases count_hidden(self.game_board@),
    {
        let w = self.width;
        let h = self.height;
        let ghost wi = w as int;
        let ghost hi = h as int;
        let ghost og = old(self).game_board@;
        let ghost mines = old(self).mine_board@;
        let ghost flags = old(self).user_mine_board@;
        let ghost counts = old(self).adjacency_board@;
        let i = self.index_of(x, y);
        if !self.game_started {
            return MoveResult::NotStarted;
        }
        if self.game_board[i] != -1 {
            return MoveResult::Useless;
        }
        if mark_bomb {
            let cur = self.user_mine_board[i];
            self.user_mine_board[i] = !cur;
            return MoveResult::UserMineToggled;
        }
        if self.user_mine_board[i] {
            return MoveResult::UserMineThere;
        }
        if self.mine_board[i] {
            self.reveal_all_mines();
            self.game_started = false;
            return MoveResult::Lost;
        }
        let adj = self.adjacency_board[i];
        proof {
            assert(cell_c(counts, wi, x as int, y as int) as int == adj_count(
                mines,
                wi,
                hi,
                x as int,
                y as int,
            ));
            assert(0 <= adj_count(mines, wi, hi, x as int, y as int) <= 8);
            lemma_count_hidden_update(og, i as int, adj as i16);
        }
        self.game_board[i] = adj as i16;
        proof {
            assert(self.game_board@ == og.update(i as int, adj as i16));
            assert(og[i as int] == -1);
            assert forall|a: int, b: int|
                0 <= a < wi && 0 <= b < hi && cell_v(og, wi, a, b) == -1 && #[trigger] cell_v(
                    self.game_board@,
                    wi,
                    a,
                    b,
                ) != -1 implies a == x && b == y by {
                lemma_idx_bound(a, b, wi, hi);
                if a + b * wi == i {
                    lemma_idx_inj(a, b, x as int, y as int, wi);
                }
            }
            assert(keeps_revealed(og, self.game_board@));
            assert forall|a: int, b: int|
                0 <= a < wi && 0 <= b < hi && #[trigger] cell_v(og, wi, a, b) != -1 implies
                #[trigger] cell_v(self.game_board@, wi, a, b) == cell_v(og, wi, a, b) by {
                lemma_idx_bound(a, b, wi, hi);
                if a + b * wi == i {
                    lemma_idx_inj(a, b, x as int, y as int, wi);
                }
            }
            assert(keeps_revealed_cells(og, self.game_board@, wi, hi));
            assert forall|j: int|
                0 <= j < og.len() && og[j] == -1 && #[trigger] self.game_board@[j] != -1 implies
                !mines[j] && !flags[j] && self.game_board@[j] == counts[j] as i16 by {
                assert(j == i);
            }
            assert(new_reveals_ok(og, self.game_board@, mines, flags, counts));
        }
        if adj == 0 {
            let ylo = if y > 0 {
                y - 1
            } else {
                0
            };
            let yhi = if y + 1 < h {
                y + 1
            } else {
                h - 1
            };
            let xlo = if x > 0 {
                x - 1
            } else {
                0
            };
            let xhi = if x + 1 < w {
                x + 1
            } else {
                w - 1
            };
            let mut ny = ylo;
            while ny <= yhi
                invariant
                    self.wf(),
                    w == self.width,
                    h == self.height,
                    wi == w as int,
                    hi == h as int,
                    x < w,
                    y < h,
                    i == x + y * w,
                    ylo <= ny <= yhi + 1,
                    yhi < h,
                    xlo < w,
                    xhi < w,
                    yhi <= y + 1 && ylo <= y && y <= ylo + 1 && y <= yhi,
                    xhi <= x + 1 && xlo <= x && x <= xlo + 1 && x <= xhi,
                    y + 1 < h ==> yhi == y + 1,
                    x + 1 < w ==> xhi == x + 1,
                    self.mine_board@ == mines,
                    self.adjacency_board@ == counts,
                    self.user_mine_board@ == flags,
                    og == old(self).game_board@,
                    x == 0 || xlo == x - 1,
                    y == 0 || ylo == y - 1,
                    og.len() == wi * hi,
                    cell_v(og, wi, x as int, y as int) == -1,
                    !cell_b(mines, wi, x as int, y as int),
                    !cell_b(flags, wi, x as int, y as int),
                    adj == cell_c(counts, wi, x as int, y as int),
                    adj == 0,
                    cell_v(self.game_board@, wi, x as int, y as int) == adj as i16,
                    keeps_revealed(og, self.game_board@),
                    keeps_revealed_cells(og, self.game_board@, wi, hi),
                    new_reveals_ok(og, self.game_board@, mines, flags, counts),
                    count_hidden(self.game_board@) < count_hidden(og),
                    !won_of(self.game_board@, mines, wi, hi) ==> self.game_started,
                    forall|a: int, b: int, c: int, d: int|
                        0 <= a < wi && 0 <= b < hi && 0 <= c < wi && 0 <= d < hi && is_neighbor(
                            a,
                            b,
                            c,
                            d,
                        ) && !(a == x && b == y) && cell_v(og, wi, a, b) == -1
                            && #[trigger] cell_v(self.game_board@, wi, a, b) != -1 && cell_c(
                            counts,
                            wi,
                            a,
                            b,
                        ) == 0 && !cell_b(flags, wi, c, d) ==> #[trigger] cell_v(
                            self.game_board@,
                            wi,
                            c,
                            d,
                        ) != -1,
                    forall|c: int, d: int|
                        0 <= c < wi && 0 <= d < hi && is_neighbor(x as int, y as int, c, d) && d
                            < ny && !cell_b(flags, wi, c, d) ==> #[trigger] cell_v(
                            self.game_board@,
                            wi,
                            c,
                            d,
                        ) != -1,
                    cascade_justified(
                        og,
                        self.game_board@,
                        mines,
                        counts,
                        wi,
                        hi,
                        x as int,
                        y as int,
                    ),
                decreases yhi + 1 - ny,
            {
                proof {
                    assert forall|c: int|
                        0 <= c < xlo && is_neighbor(x as int, y as int, c, ny as int) && !cell_b(
                            flags,
                            wi,
                            c,
                            ny as int,
                        ) implies #[trigger] cell_v(self.game_board@, wi, c, ny as int) != -1 by {
                        assert(c - x >= -1);
                        assert(false);
                    }
                }
                let mut nx = xlo;
                while nx <= xhi
                    invariant
                        self.wf(),
                        w == self.width,
                        h == self.height,
                        wi == w as int,
                        hi == h as int,
                        x < w,
                        y < h,
                        i == x + y * w,
                        ylo <= ny <= yhi,
                        yhi < h,
                        xlo <= nx <= xhi + 1,
                        xhi < w,
                        xlo < w,
                        yhi <= y + 1 && ylo <= y && y <= ylo + 1 && y <= yhi,
                        xhi <= x + 1 && xlo <= x && x <= xlo + 1 && x <= xhi,
                        y + 1 < h ==> yhi == y + 1,
                        x + 1 < w ==> xhi == x + 1,
                        self.mine_board@ == mines,
                        self.adjacency_board@ == counts,
                        self.user_mine_board@ == flags,
                        og == old(self).game_board@,
                        x == 0 || xlo == x - 1,
                        y == 0 || ylo == y - 1,
                        og.len() == wi * hi,
                        cell_v(og, wi, x as int, y as int) == -1,
                        !cell_b(mines, wi, x as int, y as int),
                        !cell_b(flags, wi, x as int, y as int),
                        adj == cell_c(counts, wi, x as int, y as int),
                        adj == 0,
                        cell_v(self.game_board@, wi, x as int, y as int) == adj as i16,
                        keeps_revealed(og, self.game_board@),
                        keeps_revealed_cells(og, self.game_board@, wi, hi),
                        new_reveals_ok(og, self.game_board@, mines, flags, counts),
                        count_hidden(self.game_board@) < count_hidden(og),
                        !won_of(self.game_board@, mines, wi, hi) ==> self.game_started,
                        forall|a: int, b: int, c: int, d: int|
                            0 <= a < wi && 0 <= b < hi && 0 <= c < wi && 0 <= d < hi && is_neighbor(
                                a,
                                b,
                                c,
                                d,
                            ) && !(a == x && b == y) && cell_v(og, wi, a, b) == -1
                                && #[trigger] cell_v(self.game_board@, wi, a, b) != -1 && cell_c(
                                counts,
                                wi,
                                a,
                                b,
                            ) == 0 && !cell_b(flags, wi, c, d) ==> #[trigger] cell_v(
                                self.game_board@,
                                wi,
                                c,
                                d,
                            ) != -1,
                        forall|c: int, d: int|
                            0 <= c < wi && 0 <= d < hi && is_neighbor(x as int, y as int, c, d) && d
                                < ny && !cell_b(flags, wi, c, d) ==> #[trigger] cell_v(
                                self.game_board@,
                                wi,
                                c,
                                d,
                            ) != -1,
                        forall|c: int|
                            0 <= c < nx && is_neighbor(x as int, y as int, c, ny as int)
                                && !cell_b(flags, wi, c, ny as int) ==> #[trigger] cell_v(
                                self.game_board@,
                                wi,
                                c,
                                ny as int,
                            ) != -1,
                        cascade_justified(
                            og,
                            self.game_board@,
                            mines,
                            counts,
                            wi,
                            hi,
                            x as int,
                            y as int,
                        ),
                    decreases xhi + 1 - nx,
                {
                    let nidx = self.index_of(nx, ny);
                    proof {
                        assert(cell_c(counts, wi, x as int, y as int) as int == adj_count(
                            mines,
                            wi,
                            hi,
                            x as int,
                            y as int,
                        ));
                        assert(mine_ind(mines, wi, hi, nx as int, ny as int) == 0);
                        assert(!cell_b(mines, wi, nx as int, ny as int));
                    }
                    if self.game_board[nidx] == -1 {
                        let ghost pre = *self;
                        let ghost pg = pre.game_board@;
                        proof {
                            assert(cell_v(pg, wi, nx as int, ny as int) == -1);
                            assert(!won_of(pg, mines, wi, hi));
                            assert(pre.game_started);
                        }
                        let res = self.game_move(nx, ny, false);
                        proof {
                            let sg = self.game_board@;
                            lemma_count_hidden_mono(pg, sg);
                            assert forall|j: int|
                                0 <= j < og.len() && #[trigger] og[j] != -1 implies sg[j]
                                == og[j] by {
                                assert(pg[j] == og[j]);
                            }
                            assert forall|a: int, b: int|
                                0 <= a < wi && 0 <= b < hi && #[trigger] cell_v(og, wi, a, b) != -1
                                    implies #[trigger] cell_v(sg, wi, a, b) == cell_v(
                                og,
                                wi,
                                a,
                                b,
                            ) by {
                                assert(cell_v(pg, wi, a, b) == cell_v(og, wi, a, b));
                            }
                            assert forall|j: int|
                                0 <= j < og.len() && og[j] == -1 && #[trigger] sg[j] != -1 implies
                                !mines[j] && !flags[j] && sg[j] == counts[j] as i16 by {
                                if pg[j] != -1 {
                                    assert(sg[j] == pg[j]);
                                }
                            }
                            assert forall|a: int, b: int, c: int, d: int|
                                0 <= a < wi && 0 <= b < hi && 0 <= c < wi && 0 <= d < hi
                                    && is_neighbor(a, b, c, d) && !(a == x && b == y) && cell_v(
                                    og,
                                    wi,
                                    a,
                                    b,
                                ) == -1 && #[trigger] cell_v(sg, wi, a, b) != -1 && cell_c(
                                    counts,
                                    wi,
                                    a,
                                    b,
                                ) == 0 && !cell_b(flags, wi, c, d) implies #[trigger] cell_v(
                                sg,
                                wi,
                                c,
                                d,
                            ) != -1 by {
                                if cell_v(pg, wi, a, b) != -1 {
                                    assert(cell_v(pg, wi, c, d) != -1);
                                    assert(cell_v(sg, wi, c, d) == cell_v(pg, wi, c, d));
                                } else {
                                    assert(cell_v(sg, wi, c, d) != -1);
                                }
                            }
                            assert forall|a: int, b: int|
                                0 <= a < wi && 0 <= b < hi && !(a == x && b == y) && cell_v(
                                    og,
                                    wi,
                                    a,
                                    b,
                                ) == -1 && #[trigger] cell_v(sg, wi, a, b) != -1 implies exists|
                                c: int,
                                d: int,
                            |
                                0 <= c < wi && 0 <= d < hi && is_neighbor(a, b, c, d)
                                    && #[trigger] cell_v(sg, wi, c, d) != -1 && cell_c(
                                    counts,
                                    wi,
                                    c,
                                    d,
                                ) == 0 && !cell_b(mines, wi, c, d) by {
                                if cell_v(pg, wi, a, b) != -1 {
                                    let (c, d) = choose|c: int, d: int|
                                        0 <= c < wi && 0 <= d < hi && is_neighbor(a, b, c, d)
                                            && #[trigger] cell_v(pg, wi, c, d) != -1 && cell_c(
                                            counts,
                                            wi,
                                            c,
                                            d,
                                        ) == 0 && !cell_b(mines, wi, c, d);
                                    assert(cell_v(sg, wi, c, d) == cell_v(pg, wi, c, d));
                                    assert(0 <= c < wi && 0 <= d < hi && is_neighbor(a, b, c, d)
                                        && cell_v(sg, wi, c, d) != -1 && cell_c(counts, wi, c, d)
                                        == 0 && !cell_b(mines, wi, c, d));
                                } else if a == nx && b == ny {
                                    assert(is_neighbor(a, b, x as int, y as int));
                                    assert(cell_v(sg, wi, x as int, y as int) != -1 && cell_c(
                                        counts,
                                        wi,
                                        x as int,
                                        y as int,
                                    ) == 0 && !cell_b(mines, wi, x as int, y as int));
                                } else {
                                    let (c, d) = choose|c: int, d: int|
                                        0 <= c < wi && 0 <= d < hi && is_neighbor(a, b, c, d)
                                            && #[trigger] cell_v(sg, wi, c, d) != -1 && cell_c(
                                            counts,
                                            wi,
                                            c,
                                            d,
                                        ) == 0 && !cell_b(mines, wi, c, d);
                                    assert(cell_v(sg, wi, c, d) != -1);
                                }
                            }
                            assert forall|c: int, d: int|
                                0 <= c < wi && 0 <= d < hi && is_neighbor(x as int, y as int, c, d)
                                    && d < ny && !cell_b(flags, wi, c, d) implies #[trigger] cell_v(
                                sg,
                                wi,
                                c,
                                d,
                            ) != -1 by {
                                assert(cell_v(pg, wi, c, d) != -1);
                            }
                            assert forall|c: int|
                                0 <= c < nx && is_neighbor(x as int, y as int, c, ny as int)
                                    && !cell_b(flags, wi, c, ny as int) implies #[trigger] cell_v(
                                sg,
                                wi,
                                c,
                                ny as int,
                            ) != -1 by {
                                assert(cell_v(pg, wi, c, ny as int) != -1);
                            }
                            if !won_of(sg, mines, wi, hi) {
                                assert(!won_of(pg, mines, wi, hi)) by {
                                    if won_of(pg, mines, wi, hi) {
                                        assert forall|a: int, b: int|
                                            0 <= a < wi && 0 <= b < hi && !cell_b(mines, wi, a, b)
                                                implies #[trigger] cell_v(sg, wi, a, b) != -1 by {
                                            assert(cell_v(pg, wi, a, b) != -1);
                                        }
                                    }
                                }
                                assert(pre.game_started);
                                if cell_b(flags, wi, nx as int, ny as int) {
                                    assert(*self == pre);
                                } else {
                                    assert(res == MoveResult::Continue);
                                }
                                assert(self.game_started);
                            }
                        }
                    }
                    proof {
                        assert(cell_v(self.game_board@, wi, nx as int, ny as int) != -1 || cell_b(
                            flags,
                            wi,
                            nx as int,
                            ny as int,
                        ));
                    }
                    nx += 1;
                }
                proof {
                    assert forall|c: int, d: int|
                        0 <= c < wi && 0 <= d < hi && is_neighbor(x as int, y as int, c, d) && d
                            < ny + 1 && !cell_b(flags, wi, c, d) implies #[trigger] cell_v(
                        self.game_board@,
                        wi,
                        c,
                        d,
                    ) != -1 by {
                        if d == ny as int {
                            assert(c <= xhi);
                            assert(c < nx);
                        }
                    }
                }
                ny += 1;
            }
            proof {
                assert forall|c: int, d: int|
                    0 <= c < wi && 0 <= d < hi && is_neighbor(x as int, y as int, c, d) && !cell_b(
                        flags,
                        wi,
                        c,
                        d,
                    ) implies #[trigger] cell_v(self.game_board@, wi, c, d) != -1 by {
                    assert(d < ny);
                }
            }
        }
        proof {
            let sg = self.game_board@;
            assert forall|a: int, b: int, c: int, d: int|
                0 <= a < wi && 0 <= b < hi && 0 <= c < wi && 0 <= d < hi && is_neighbor(a, b, c, d)
                    && cell_v(og, wi, a, b) == -1 && #[trigger] cell_v(sg, wi, a, b) != -1
                    && cell_c(counts, wi, a, b) == 0 && !cell_b(flags, wi, c, d) implies
                #[trigger] cell_v(sg, wi, c, d) != -1 by {
                if a == x && b == y {
                    assert(adj == 0);
                } else {
                    if adj != 0 {
                        lemma_idx_bound(a, b, wi, hi);
                        if a + b * wi == i {
                            lemma_idx_inj(a, b, x as int, y as int, wi);
                        }
                    }
                }
            }
            if adj != 0 {
                assert forall|a: int, b: int|
                    0 <= a < wi && 0 <= b < hi && !(a == x && b == y) && cell_v(og, wi, a, b) == -1
                        && #[trigger] cell_v(sg, wi, a, b) != -1 implies exists|c: int, d: int|
                    0 <= c < wi && 0 <= d < hi && is_neighbor(a, b, c, d) && #[trigger] cell_v(
                        sg,
                        wi,
                        c,
                        d,
                    ) != -1 && cell_c(counts, wi, c, d) == 0 && !cell_b(mines, wi, c, d) by {
                    lemma_idx_bound(a, b, wi, hi);
                    if a + b * wi == i {
                        lemma_idx_inj(a, b, x as int, y as int, wi);
                    }
                }
            }
        }
        let won = self.is_won();
        if won {
            self.game_started = false;
            MoveResult::Won
        } else {
            MoveResult::Continue
        }
    }

    /// How many decimal digits the wider of the two grid dimensions needs.
    pub fn get_character_width(&self) -> (r: u32)
        requires
            self.width > 0 || self.height > 0,
        ensures
            r == num_digits(
                if self.height > self.width {
                    self.height as int
                } else {
                    self.width as int
                },
            ),
    {
        let m: u64 = if self.height > self.width {
            self.height as u64
        } else {
            self.width as u64
        };
        if m < 10 {
            1
        } else if m < 100 {
            2
        } else if m < 1000 {
            3
        } else if m < 10000 {
            4
        } else if m < 100000 {
            5
        } else if m < 1000000 {
            6
        } else if m < 10000000 {
            7
        } else if m < 100000000 {
            8
        } else if m < 1000000000 {
            9
        } else if m < 10000000000 {
            10
        } else if m < 100000000000 {
            11
        } else if m < 1000000000000 {
            12
        } else if m < 10000000000000 {
            13
        } else if m < 100000000000000 {
            14
        } else if m < 1000000000000000 {
            15
        } else if m < 10000000000000000 {
            16
        } else if m < 100000000000000000 {
            17
        } else if m < 1000000000000000000 {
            18
        } else if m < 10000000000000000000 {
            19
        } else {
            20
        }
    }

    /// The read accessors for rendering.
    pub fn get_width(&self) -> (r: usize)
        ensures
            r == self.width,
    {
        self.width
    }

    pub fn get_height(&self) -> (r: usize)
        ensures
            r == self.height,
    {
        self.height
    }

    pub fn is_active(&self) -> (r: bool)
        ensures
            r == self.game_started,
    {
        self.game_started
    }

    pub fn cell_at(&self, x: usize, y: usize) -> (r: i16)
        requires
            self.dims_ok(),
            x < self.width,
            y < self.height,
        ensures
            r == self.gcell(x as int, y as int),
    {
        let i = self.index_of(x, y);
        self.game_board[i]
    }

    pub fn flag_at(&self, x: usize, y: usize) -> (r: bool)
        requires
            self.dims_ok(),
            x < self.width,
            y < self.height,
        ensures
            r == self.ucell(x as int, y as int),
    {
        let i = self.index_of(x, y);
        self.user_mine_board[i]
    }

    pub fn mine_at(&self, x: usize, y: usize) -> (r: bool)
        requires
            self.dims_ok(),
            x < self.width,
            y < self.height,
        ensures
            r == self.mcell(x as int, y as int),
    {
        let i = self.index_of(x, y);
        self.mine_board[i]
    }

    pub fn adjacency_at(&self, x: usize, y: usize) -> (r: u16)
        requires
            self.dims_ok(),
            x < self.width,
            y < self.height,
        ensures
            r == self.acell(x as int, y as int),
    {
        let i = self.index_of(x, y);
        self.adjacency_board[i]
    }
}

/// The number of decimal digits of a nonnegative number below 10^20.
pub open spec fn num_digits(n: int) -> int {
    if n < 10 {
        1
    } else if n < 100 {
        2
    } else if n < 1000 {
        3
    } else if n < 10000 {
        4
    } else if n < 100000 {
        5
    } else if n < 1000000 {
        6
    } else if n < 10000000 {
        7
    } else if n < 100000000 {
        8
    } else if n < 1000000000 {
        9
    } else if n < 10000000000 {
        10
    } else if n < 100000000000 {
        11
    } else if n < 1000000000000 {
        12
    } else if n < 10000000000000 {
        13
    } else if n < 100000000000000 {
        14
    } else if n < 1000000000000000 {
        15
    } else if n < 10000000000000000 {
        16
    } else if n < 100000000000000000 {
        17
    } else if n < 1000000000000000000 {
        18
    } else if n < 10000000000000000000 {
        19
    } else {
        20
    }
}

} // verus!
