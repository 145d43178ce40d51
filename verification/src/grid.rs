//! The board model: row-major cell storage, neighbor resolution under the
//! clipped and toroidal topologies, and the per-cell and whole-board step.

use crate::rule::{calculate_next_state, spec_rule};
use vstd::prelude::*;

verus! {

/// A board of dimension `size` is a row-major sequence of exactly
/// `size * size` cell states, with at least 3 cells on a side.
pub open spec fn valid_board(b: Seq<bool>, size: int) -> bool {
    &&& size >= 3
    &&& b.len() == size * size
}

/// Whether (x, y) is a real position on a board of dimension `size`.
pub open spec fn in_bounds(size: int, x: int, y: int) -> bool {
    0 <= x < size && 0 <= y < size
}

/// The cell at column `x`, row `y`, under row-major linear indexing.
pub open spec fn cell(b: Seq<bool>, size: int, x: int, y: int) -> bool
    recommends
        in_bounds(size, x, y),
{
    b[y * size + x]
}

/// Clipped topology: a position outside the board reads as dead.
pub open spec fn clipped_at(b: Seq<bool>, size: int, x: int, y: int) -> bool {
    if in_bounds(size, x, y) {
        cell(b, size, x, y)
    } else {
        false
    }
}

/// Wraps a coordinate that is less than one full dimension outside the
/// board back onto it, as the toroidal topology prescribes.
pub open spec fn wrap(size: int, c: int) -> int
    recommends
        -size <= c < 2 * size,
{
    if c < 0 {
        c + size
    } else if c >= size {
        c - size
    } else {
        c
    }
}

/// Toroidal topology: both coordinates wrap modulo the dimension, so every
/// position reads a real cell.
pub open spec fn toroidal_at(b: Seq<bool>, size: int, x: int, y: int) -> bool {
    cell(b, size, wrap(size, x), wrap(size, y))
}

/// The neighbor state read at (x, y) under the chosen topology.
pub open spec fn neighbor_at(b: Seq<bool>, size: int, x: int, y: int, toroidal: bool) -> bool {
    if toroidal {
        toroidal_at(b, size, x, y)
    } else {
        clipped_at(b, size, x, y)
    }
}

pub open spec fn indicator(v: bool) -> int {
    if v {
        1
    } else {
        0
    }
}

/// The number of live cells among the 8 neighbor positions of (x, y).
pub open spec fn live_neighbor_count(
    b: Seq<bool>,
    size: int,
    x: int,
    y: int,
    toroidal: bool,
) -> int {
    indicator(neighbor_at(b, size, x - 1, y - 1, toroidal)) + indicator(
        neighbor_at(b, size, x, y - 1, toroidal),
    ) + indicator(neighbor_at(b, size, x + 1, y - 1, toroidal)) + indicator(
        neighbor_at(b, size, x - 1, y, toroidal),
    ) + indicator(neighbor_at(b, size, x + 1, y, toroidal)) + indicator(
        neighbor_at(b, size, x - 1, y + 1, toroidal),
    ) + indicator(neighbor_at(b, size, x, y + 1, toroidal)) + indicator(
        neighbor_at(b, size, x + 1, y + 1, toroidal),
    )
}

/// The next state of the cell with linear index `i`.
pub open spec fn spec_next_cell(b: Seq<bool>, size: int, i: int, toroidal: bool) -> bool
    recommends
        valid_board(b, size),
        0 <= i < b.len(),
{
    spec_rule(b[i], live_neighbor_count(b, size, i % size, i / size, toroidal))
}

/// The next generation of a whole board.
pub open spec fn spec_next_board(b: Seq<bool>, size: int, toroidal: bool) -> Seq<bool> {
    Seq::new(b.len(), |i: int| spec_next_cell(b, size, i, toroidal))
}

/// The board `k` generations after `b`.
pub open spec fn spec_generation(b: Seq<bool>, size: int, toroidal: bool, k: nat) -> Seq<bool>
    decreases k,
{
    if k == 0 {
        b
    } else {
        spec_next_board(spec_generation(b, size, toroidal, (k - 1) as nat), size, toroidal)
    }
}

/// Whether `after` is the board one generation after `before`, under either
/// of the two topologies.
pub open spec fn is_step(before: Seq<bool>, after: Seq<bool>, size: int) -> bool {
    after == spec_next_board(before, size, true) || after == spec_next_board(before, size, false)
}

/// Whether every adjacent pair of boards in `chain` is one generation apart.
pub open spec fn is_chain(chain: Seq<Seq<bool>>, size: int) -> bool {
    forall|i: int| 0 <= i < chain.len() - 1 ==> #[trigger] is_step(chain[i], chain[i + 1], size)
}

/// Whether `b` can be reached from `init` by advancing some number of
/// generations, each under either topology.
pub open spec fn reachable_from(init: Seq<bool>, b: Seq<bool>, size: int) -> bool {
    exists|chain: Seq<Seq<bool>>|
        chain.len() >= 1 && chain.first() == init && chain.last() == b && #[trigger] is_chain(
            chain,
            size,
        )
}

/// Every board is reachable from itself: the empty run of generations.
pub proof fn lemma_reachable_refl(b: Seq<bool>, size: int)
    ensures
        reachable_from(b, b, size),
{
    let chain = seq![b];
    assert(is_chain(chain, size));
    assert(chain.len() >= 1 && chain.first() == b && chain.last() == b);
}

/// Advancing one more generation, under either topology, stays reachable.
pub proof fn lemma_reachable_step(init: Seq<bool>, b: Seq<bool>, size: int, toroidal: bool)
    requires
        reachable_from(init, b, size),
    ensures
        reachable_from(init, spec_next_board(b, size, toroidal), size),
{
    let chain = choose|chain: Seq<Seq<bool>>|
        chain.len() >= 1 && chain.first() == init && chain.last() == b && #[trigger] is_chain(
            chain,
            size,
        );
    let after = spec_next_board(b, size, toroidal);
    let longer = chain.push(after);
    assert forall|i: int| 0 <= i < longer.len() - 1 implies #[trigger] is_step(
        longer[i],
        longer[i + 1],
        size,
    ) by {
        if i < chain.len() - 1 {
            assert(longer[i] == chain[i]);
            assert(longer[i + 1] == chain[i + 1]);
            assert(is_step(chain[i], chain[i + 1], size));
        } else {
            assert(longer[i] == chain.last());
            assert(longer[i + 1] == after);
        }
    };
    assert(is_chain(longer, size));
    assert(longer.len() >= 1 && longer.first() == init && longer.last() == after);
}

/// The board of dimension `size` with every cell dead.
pub open spec fn dead_board(size: int) -> Seq<bool>
    recommends
        size >= 0,
{
    Seq::new((size * size) as nat, |i: int| false)
}

/// The all-dead board is a fixed point of the step under both topologies:
/// no cell has three live neighbors, so extinction is permanent.
pub proof fn lemma_dead_board_fixed(size: int, toroidal: bool)
    requires
        size >= 3,
    ensures
        spec_next_board(dead_board(size), size, toroidal) == dead_board(size),
{
    let d = dead_board(size);
    assert forall|i: int| 0 <= i < d.len() implies !spec_next_cell(d, size, i, toroidal) by {
        lemma_linear_index_split(size, i);
        assert forall|x: int, y: int| in_bounds(size, x, y) implies !#[trigger] cell(
            d,
            size,
            x,
            y,
        ) by {
            lemma_linear_index_bounds(size, x, y);
        };
        assert(live_neighbor_count(d, size, i % size, i / size, toroidal) == 0);
    };
    assert(spec_next_board(d, size, toroidal) =~= d);
}

proof fn lemma_chain_stays_fixed(chain: Seq<Seq<bool>>, size: int, i: int, init: Seq<bool>)
    requires
        is_chain(chain, size),
        0 <= i < chain.len(),
        chain.first() == init,
        spec_next_board(init, size, true) == init,
        spec_next_board(init, size, false) == init,
    ensures
        chain[i] == init,
    decreases i,
{
    if i > 0 {
        lemma_chain_stays_fixed(chain, size, i - 1, init);
        assert(is_step(chain[i - 1], chain[(i - 1) + 1], size));
    }
}

/// A still life — a board that one step maps to itself, under both
/// topologies — is the only board reachable from itself: once a game sits
/// on such a board, every later generation is that board again.
pub proof fn lemma_reachable_from_fixed_point(init: Seq<bool>, b: Seq<bool>, size: int)
    requires
        spec_next_board(init, size, true) == init,
        spec_next_board(init, size, false) == init,
        reachable_from(init, b, size),
    ensures
        b == init,
{
    let chain = choose|chain: Seq<Seq<bool>>|
        chain.len() >= 1 && chain.first() == init && chain.last() == b && #[trigger] is_chain(
            chain,
            size,
        );
    lemma_chain_stays_fixed(chain, size, chain.len() - 1, init);
}

/// Nothing but the all-dead board is reachable from the all-dead board.
pub proof fn lemma_reachable_from_dead(b: Seq<bool>, size: int)
    requires
        size >= 3,
        reachable_from(dead_board(size), b, size),
    ensures
        b == dead_board(size),
{
    lemma_dead_board_fixed(size, true);
    lemma_dead_board_fixed(size, false);
    lemma_reachable_from_fixed_point(dead_board(size), b, size);
}

/// The board `b` shifted cyclically by `dx` columns and `dy` rows: the
/// translated board reads at (x, y) what `b` holds at the wrapped
/// (x - dx, y - dy).
pub open spec fn translate(b: Seq<bool>, size: int, dx: int, dy: int) -> Seq<bool>
    recommends
        valid_board(b, size),
        0 <= dx < size,
        0 <= dy < size,
{
    Seq::new(
        b.len(),
        |i: int| cell(b, size, wrap(size, i % size - dx), wrap(size, i / size - dy)),
    )
}

/// The number of the 8 neighbor positions of (x, y) that lie on the board.
/// Under clipped topology these are the only positions that can contribute
/// to a neighbor count.
pub open spec fn real_neighbor_positions(size: int, x: int, y: int) -> int {
    indicator(in_bounds(size, x - 1, y - 1)) + indicator(in_bounds(size, x, y - 1)) + indicator(
        in_bounds(size, x + 1, y - 1),
    ) + indicator(in_bounds(size, x - 1, y)) + indicator(in_bounds(size, x + 1, y)) + indicator(
        in_bounds(size, x - 1, y + 1),
    ) + indicator(in_bounds(size, x, y + 1)) + indicator(in_bounds(size, x + 1, y + 1))
}

pub open spec fn is_corner(size: int, x: int, y: int) -> bool {
    (x == 0 || x == size - 1) && (y == 0 || y == size - 1)
}

pub open spec fn is_edge(size: int, x: int, y: int) -> bool {
    x == 0 || x == size - 1 || y == 0 || y == size - 1
}

/// Clipped topology reaches 3 real neighbor positions from a corner cell,
/// 5 from a non-corner edge cell, and all 8 from an interior cell.
pub proof fn lemma_clipped_real_positions(size: int, x: int, y: int)
    requires
        size >= 3,
        in_bounds(size, x, y),
    ensures
        is_corner(size, x, y) ==> real_neighbor_positions(size, x, y) == 3,
        is_edge(size, x, y) && !is_corner(size, x, y) ==> real_neighbor_positions(size, x, y) == 5,
        !is_edge(size, x, y) ==> real_neighbor_positions(size, x, y) == 8,
{
}

/// A clipped neighbor count can only come from real positions: it never
/// exceeds their number, so a corner cell counts at most 3 live neighbors
/// and a non-corner edge cell at most 5.
pub proof fn lemma_clipped_count_bounded(b: Seq<bool>, size: int, x: int, y: int)
    requires
        size >= 3,
        in_bounds(size, x, y),
    ensures
        0 <= live_neighbor_count(b, size, x, y, false),
        live_neighbor_count(b, size, x, y, false) <= real_neighbor_positions(size, x, y),
{
}

/// Toroidal topology reaches a real position from every cell in every of the
/// 8 neighbor directions: wrapping puts each one back on the board.
pub proof fn lemma_toroidal_real_positions(size: int, x: int, y: int, dx: int, dy: int)
    requires
        size >= 3,
        in_bounds(size, x, y),
        -1 <= dx <= 1,
        -1 <= dy <= 1,
    ensures
        in_bounds(size, wrap(size, x + dx), wrap(size, y + dy)),
{
}

/// Advancing a board j generations and then k more lands exactly on
/// generation j + k: each step is a function of the board alone, with no
/// hidden state carried between calls.
pub proof fn lemma_generations_compose(b: Seq<bool>, size: int, toroidal: bool, j: nat, k: nat)
    ensures
        spec_generation(b, size, toroidal, j + k) == spec_generation(
            spec_generation(b, size, toroidal, j),
            size,
            toroidal,
            k,
        ),
    decreases k,
{
    if k > 0 {
        lemma_generations_compose(b, size, toroidal, j, (k - 1) as nat);
    }
}

/// Advancing twice in a row is exactly the second generation.
pub proof fn lemma_two_steps(b: Seq<bool>, size: int, toroidal: bool)
    ensures
        spec_next_board(spec_next_board(b, size, toroidal), size, toroidal) == spec_generation(
            b,
            size,
            toroidal,
            2,
        ),
{
    assert(spec_generation(b, size, toroidal, 0) == b);
    assert(spec_generation(b, size, toroidal, 1) == spec_next_board(b, size, toroidal));
    assert(spec_generation(b, size, toroidal, 2) == spec_next_board(
        spec_generation(b, size, toroidal, 1),
        size,
        toroidal,
    ));
}

proof fn lemma_index_recompose(size: int, x: int, y: int)
    requires
        0 <= x < size,
        0 <= y < size,
    ensures
        (y * size + x) % size == x,
        (y * size + x) / size == y,
{
    vstd::arithmetic::div_mod::lemma_fundamental_div_mod_converse(y * size + x, size, y, x);
}

proof fn lemma_wrap_shift(size: int, c: int, d: int, e: int)
    requires
        size >= 1,
        0 <= c < size,
        0 <= d < size,
        -1 <= e <= 1,
    ensures
        wrap(size, wrap(size, c + e) - d) == wrap(size, wrap(size, c - d) + e),
{
}

proof fn lemma_translate_at(b: Seq<bool>, size: int, dx: int, dy: int, x: int, y: int)
    requires
        valid_board(b, size),
        0 <= dx < size,
        0 <= dy < size,
        in_bounds(size, x, y),
    ensures
        cell(translate(b, size, dx, dy), size, x, y) == cell(
            b,
            size,
            wrap(size, x - dx),
            wrap(size, y - dy),
        ),
{
    lemma_linear_index_bounds(size, x, y);
    lemma_index_recompose(size, x, y);
}

proof fn lemma_translate_neighbor(
    b: Seq<bool>,
    size: int,
    dx: int,
    dy: int,
    x: int,
    y: int,
    ex: int,
    ey: int,
)
    requires
        valid_board(b, size),
        0 <= dx < size,
        0 <= dy < size,
        in_bounds(size, x, y),
        -1 <= ex <= 1,
        -1 <= ey <= 1,
    ensures
        toroidal_at(translate(b, size, dx, dy), size, x + ex, y + ey) == toroidal_at(
            b,
            size,
            wrap(size, x - dx) + ex,
            wrap(size, y - dy) + ey,
        ),
{
    let wx = wrap(size, x + ex);
    let wy = wrap(size, y + ey);
    lemma_translate_at(b, size, dx, dy, wx, wy);
    lemma_wrap_shift(size, x, dx, ex);
    lemma_wrap_shift(size, y, dy, ey);
}

proof fn lemma_translate_count(b: Seq<bool>, size: int, dx: int, dy: int, x: int, y: int)
    requires
        valid_board(b, size),
        0 <= dx < size,
        0 <= dy < size,
        in_bounds(size, x, y),
    ensures
        live_neighbor_count(translate(b, size, dx, dy), size, x, y, true) == live_neighbor_count(
            b,
            size,
            wrap(size, x - dx),
            wrap(size, y - dy),
            true,
        ),
{
    lemma_translate_neighbor(b, size, dx, dy, x, y, -1, -1);
    lemma_translate_neighbor(b, size, dx, dy, x, y, 0, -1);
    lemma_translate_neighbor(b, size, dx, dy, x, y, 1, -1);
    lemma_translate_neighbor(b, size, dx, dy, x, y, -1, 0);
    lemma_translate_neighbor(b, size, dx, dy, x, y, 1, 0);
    lemma_translate_neighbor(b, size, dx, dy, x, y, -1, 1);
    lemma_translate_neighbor(b, size, dx, dy, x, y, 0, 1);
    lemma_translate_neighbor(b, size, dx, dy, x, y, 1, 1);
}

/// The toroidal step commutes with every cyclic translation of the board:
/// advancing a shifted board is the shift of the advanced board, because
/// coordinates wrap modulo the dimension in both axes.
pub proof fn lemma_toroidal_translation_equivariant(b: Seq<bool>, size: int, dx: int, dy: int)
    requires
        valid_board(b, size),
        0 <= dx < size,
        0 <= dy < size,
    ensures
        spec_next_board(translate(b, size, dx, dy), size, true) == translate(
            spec_next_board(b, size, true),
            size,
            dx,
            dy,
        ),
{
    let tb = translate(b, size, dx, dy);
    let nb = spec_next_board(b, size, true);
    let lhs = spec_next_board(tb, size, true);
    let rhs = translate(nb, size, dx, dy);
    assert forall|i: int| 0 <= i < b.len() implies lhs[i] == rhs[i] by {
        lemma_linear_index_split(size, i);
        let x = i % size;
        let y = i / size;
        let xp = wrap(size, x - dx);
        let yp = wrap(size, y - dy);
        let j = yp * size + xp;
        lemma_linear_index_bounds(size, xp, yp);
        lemma_index_recompose(size, xp, yp);
        lemma_translate_count(b, size, dx, dy, x, y);
        assert(lhs[i] == spec_rule(b[j], live_neighbor_count(b, size, xp, yp, true)));
        assert(rhs[i] == spec_rule(b[j], live_neighbor_count(b, size, xp, yp, true)));
    };
    assert(lhs =~= rhs);
}

proof fn lemma_linear_index_bounds(size: int, x: int, y: int)
    by (nonlinear_arith)
    requires
        0 <= x < size,
        0 <= y < size,
    ensures
        0 <= y * size + x < size * size,
{
}

proof fn lemma_linear_index_split(size: int, i: int)
    by (nonlinear_arith)
    requires
        size > 0,
        0 <= i < size * size,
    ensures
        0 <= i % size < size,
        0 <= i / size < size,
{
}

/// Reads the cell at (x, y) from a row-major board.
pub fn cell_at(board: &Vec<bool>, size: usize, x: usize, y: usize) -> (r: bool)
    requires
        board@.len() == size * size,
        x < size,
        y < size,
    ensures
        r == cell(board@, size as int, x as int, y as int),
{
    proof {
        lemma_linear_index_bounds(size as int, x as int, y as int);
    }
    let n = board.len();
    board[y * size + x]
}

/// One step toward smaller coordinates with toroidal wrap-around.
fn wrap_dec(size: usize, c: usize) -> (r: usize)
    requires
        size >= 1,
        c < size,
    ensures
        r as int == wrap(size as int, c as int - 1),
        r < size,
{
    if c == 0 {
        size - 1
    } else {
        c - 1
    }
}

/// One step toward larger coordinates with toroidal wrap-around.
fn wrap_inc(size: usize, c: usize) -> (r: usize)
    requires
        c < size,
    ensures
        r as int == wrap(size as int, c as int + 1),
        r < size,
{
    if c == size - 1 {
        0
    } else {
        c + 1
    }
}

/// Counts the live neighbors of (x, y) under clipped topology: neighbor
/// positions outside the board contribute nothing.
#[verifier::rlimit(30)]
pub fn count_neighbors(board: &Vec<bool>, size: usize, x: usize, y: usize) -> (r: u8)
    requires
        valid_board(board@, size as int),
        x < size,
        y < size,
    ensures
        r as int == live_neighbor_count(board@, size as int, x as int, y as int, false),
{
    let ul = if y >= 1 && x >= 1 {
        cell_at(board, size, x - 1, y - 1)
    } else {
        false
    };
    let uu = if y >= 1 {
        cell_at(board, size, x, y - 1)
    } else {
        false
    };
    let ur = if y >= 1 && x + 1 < size {
        cell_at(board, size, x + 1, y - 1)
    } else {
        false
    };
    let l = if x >= 1 {
        cell_at(board, size, x - 1, y)
    } else {
        false
    };
    let r = if x + 1 < size {
        cell_at(board, size, x + 1, y)
    } else {
        false
    };
    let dl = if y + 1 < size && x >= 1 {
        cell_at(board, size, x - 1, y + 1)
    } else {
        false
    };
    let dd = if y + 1 < size {
        cell_at(board, size, x, y + 1)
    } else {
        false
    };
    let dr = if y + 1 < size && x + 1 < size {
        cell_at(board, size, x + 1, y + 1)
    } else {
        false
    };
    let mut neighbors: u8 = 0;
    if ul {
        neighbors += 1;
    }
    if uu {
        neighbors += 1;
    }
    if ur {
        neighbors += 1;
    }
    if l {
        neighbors += 1;
    }
    if r {
        neighbors += 1;
    }
    if dl {
        neighbors += 1;
    }
    if dd {
        neighbors += 1;
    }
    if dr {
        neighbors += 1;
    }
    neighbors
}

/// Counts the live neighbors of (x, y) under toroidal topology: coordinates
/// wrap modulo the dimension, so all 8 neighbor positions are real cells.
#[verifier::rlimit(30)]
pub fn count_neighbors_toroidally(board: &Vec<bool>, size: usize, x: usize, y: usize) -> (r: u8)
    requires
        valid_board(board@, size as int),
        x < size,
        y < size,
    ensures
        r as int == live_neighbor_count(board@, size as int, x as int, y as int, true),
{
    let xm = wrap_dec(size, x);
    let xp = wrap_inc(size, x);
    let ym = wrap_dec(size, y);
    let yp = wrap_inc(size, y);
    let ul = cell_at(board, size, xm, ym);
    let uu = cell_at(board, size, x, ym);
    let ur = cell_at(board, size, xp, ym);
    let l = cell_at(board, size, xm, y);
    let r = cell_at(board, size, xp, y);
    let dl = cell_at(board, size, xm, yp);
    let dd = cell_at(board, size, x, yp);
    let dr = cell_at(board, size, xp, yp);
    let mut neighbors: u8 = 0;
    if ul {
        neighbors += 1;
    }
    if uu {
        neighbors += 1;
    }
    if ur {
        neighbors += 1;
    }
    if l {
        neighbors += 1;
    }
    if r {
        neighbors += 1;
    }
    if dl {
        neighbors += 1;
    }
    if dd {
        neighbors += 1;
    }
    if dr {
        neighbors += 1;
    }
    neighbors
}

/// Computes the next state of the cell with linear index `i`, resolving its
/// neighbors from `board` under the chosen topology.
pub fn next_cell(board: &Vec<bool>, size: usize, i: usize, toroidal: bool) -> (r: bool)
    requires
        valid_board(board@, size as int),
        i < size * size,
    ensures
        r == spec_next_cell(board@, size as int, i as int, toroidal),
{
    proof {
        lemma_linear_index_split(size as int, i as int);
    }
    let x = i % size;
    let y = i / size;
    let count = if toroidal {
        count_neighbors_toroidally(board, size, x, y)
    } else {
        count_neighbors(board, size, x, y)
    };
    calculate_next_state(board[i], count)
}

/// Computes a full next generation, one cell after another. This is the
/// reference evaluator; `Game::advance` distributes the same per-cell
/// computation across a worker pool.
pub fn next_board(board: &Vec<bool>, size: usize, toroidal: bool) -> (r: Vec<bool>)
    requires
        valid_board(board@, size as int),
    ensures
        r@ == spec_next_board(board@, size as int, toroidal),
{
    let n = board.len();
    let mut r: Vec<bool> = Vec::new();
    let mut i: usize = 0;
    while i < n
        invariant
            size >= 3,
            board@.len() == size * size,
            n == board@.len(),
            i <= n,
            r@.len() == i,
            forall|j: int|
                0 <= j < i ==> r@[j] == spec_next_cell(board@, size as int, j, toroidal),
        decreases n - i,
    {
        let c = next_cell(board, size, i, toroidal);
        r.push(c);
        i += 1;
    }
    proof {
        assert(r@ =~= spec_next_board(board@, size as int, toroidal));
    }
    r
}

} // verus!
