//! The board handle and its concurrency coordinator: a reference-counted
//! double buffer in which the live generation sits behind a reader-writer
//! lock and the staging buffer behind an exclusive lock, so that `advance`
//! is atomic with respect to concurrent readers and mutually exclusive with
//! concurrent `advance` calls.

use crate::grid::{
    dead_board, lemma_reachable_refl, lemma_reachable_step, next_cell, reachable_from,
    spec_next_cell,
};
use rayon::iter::{IndexedParallelIterator, IntoParallelIterator, ParallelIterator};
use std::sync::Arc;
use vstd::prelude::*;
use vstd::rwlock::{ReadHandle, RwLock, RwLockPredicate};

verus! {

/// Lock invariant of the live buffer: it always holds one complete board of
/// the handle's fixed dimension, and that board is a generation reachable
/// from the board the handle was constructed with — so every read view is a
/// full generation of this game, never a partial or foreign one.
pub struct BoardInv {
    pub size: usize,
    pub init: Seq<bool>,
}

impl RwLockPredicate<Vec<bool>> for BoardInv {
    open spec fn inv(self, v: Vec<bool>) -> bool {
        &&& v@.len() == self.size * self.size
        &&& reachable_from(self.init, v@, self.size as int)
    }
}

/// Lock invariant of the staging buffer: none. Its content is meaningful
/// only to the advance call that is filling it and is never read externally.
pub struct StagingInv {}

impl RwLockPredicate<Vec<bool>> for StagingInv {
    open spec fn inv(self, v: Vec<bool>) -> bool {
        true
    }
}

/// Squaring, named so that quantified claims about perfect squares have a
/// term to match on.
pub open spec fn square(k: int) -> int {
    k * k
}

/// Whether `n` is a perfect square.
pub open spec fn is_perfect_square(n: int) -> bool {
    exists|k: int| 0 <= k && square(k) == n
}

/// A shared, reference-counted handle to one logical board. Cloning a handle
/// shares the same underlying buffers and locks, not an independent board;
/// the board lives until the last handle is dropped.
pub struct Game {
    size: usize,
    current: Arc<RwLock<Vec<bool>, BoardInv>>,
    next: Arc<RwLock<Vec<bool>, StagingInv>>,
}

/// Relies on rand::random: one uniform draw from the thread-local random
/// number generator. Nothing is promised of the value.
#[verifier::external_body]
fn random_u32() -> u32 {
    rand::random::<u32>()
}

/// Fans the per-cell computation of one generation out across rayon's worker
/// pool and collects the results into `target`, one disjoint slot per cell.
///
/// Relies on rayon: `map` over an indexed parallel iterator applies the
/// closure to every index, and `collect_into_vec` clears `target` and stores
/// the results in index order. The closure is the verified `next_cell`, so
/// each slot holds that function's result for its own index.
#[verifier::external_body]
fn distribute_next_generation(board: &Vec<bool>, size: usize, toroidal: bool, target: &mut Vec<
    bool,
>)
    requires
        size >= 3,
        board@.len() == size * size,
    ensures
        final(target)@.len() == board@.len(),
        forall|i: int|
            0 <= i < board@.len() ==> final(target)@[i] == spec_next_cell(
                board@,
                size as int,
                i,
                toroidal,
            ),
{
    (0..size * size).into_par_iter().map(|i| next_cell(board, size, i, toroidal)).collect_into_vec(
        target,
    );
}

/// Integer square root of a perfect square.
fn integer_sqrt(n: usize) -> (r: usize)
    requires
        is_perfect_square(n as int),
    ensures
        r * r == n,
{
    let ghost k = choose|k: int| 0 <= k && square(k) == n as int;
    let mut r: usize = 0;
    while r * r != n
        invariant
            0 <= r <= k,
            square(k) == n as int,
            r * r <= n,
        decreases k - r,
    {
        proof {
            assert(r < k) by {
                if r == k {
                    assert(r * r == n);
                }
            }
            assert((r + 1) * (r + 1) <= k * k) by (nonlinear_arith)
                requires
                    0 <= r,
                    r + 1 <= k,
            ;
            assert(k <= n) by (nonlinear_arith)
                requires
                    0 <= k,
                    k * k == n as int,
            ;
        }
        r = r + 1;
    }
    r
}

impl Game {
    /// The grid dimension this handle was constructed with.
    pub closed spec fn spec_size(self) -> int {
        self.size as int
    }

    /// The board this handle was constructed with, row-major: the preset
    /// for `from`, the randomly drawn population for `new`. Every board a
    /// reader can observe is a generation reachable from it.
    pub closed spec fn spec_init(self) -> Seq<bool> {
        self.current.pred().init
    }

    #[verifier::type_invariant]
    spec fn wf(self) -> bool {
        &&& self.size >= 3
        &&& self.size * self.size <= usize::MAX
        &&& self.current.pred().size == self.size
        &&& self.current.pred().init.len() == self.size * self.size
    }

    /// Creates a `size` by `size` board whose cells are each independently
    /// alive with probability `live_probability` / 2^32: one uniform draw
    /// per cell, compared against that threshold. Any threshold is a
    /// probability in [0, 1).
    pub fn new(size: usize, live_probability: u32) -> (game: Game)
        requires
            size >= 3,
            size * size <= usize::MAX,
        ensures
            game.spec_size() == size,
            game.spec_init().len() == size * size,
            live_probability == 0 ==> game.spec_init() == dead_board(size as int),
    {
        let n = size * size;
        let mut board: Vec<bool> = Vec::new();
        let mut i: usize = 0;
        while i < n
            invariant
                i <= n,
                board@.len() == i,
                live_probability == 0 ==> forall|j: int| 0 <= j < i ==> !board@[j],
            decreases n - i,
        {
            let draw = random_u32();
            board.push(draw < live_probability);
            i += 1;
        }
        let ghost init = board@;
        proof {
            lemma_reachable_refl(init, size as int);
            if live_probability == 0 {
                assert(init =~= dead_board(size as int));
            }
        }
        Game {
            size,
            current: Arc::new(RwLock::new(board, Ghost(BoardInv { size, init }))),
            next: Arc::new(RwLock::new(Vec::new(), Ghost(StagingInv {}))),
        }
    }

    /// Builds a board from an explicit row-major preset. The preset length
    /// must be a perfect square of at least 9 cells; the dimension is its
    /// square root.
    pub fn from(preset: Vec<bool>) -> (game: Game)
        requires
            is_perfect_square(preset@.len() as int),
            preset@.len() >= 9,
        ensures
            game.spec_size() * game.spec_size() == preset@.len(),
            game.spec_size() >= 3,
            game.spec_init() == preset@,
    {
        let n = preset.len();
        let size = integer_sqrt(n);
        let ghost init = preset@;
        proof {
            assert(size >= 3) by (nonlinear_arith)
                requires
                    size * size == n as int,
                    n >= 9,
                    size >= 0,
            ;
            lemma_reachable_refl(init, size as int);
        }
        Game {
            size,
            current: Arc::new(RwLock::new(preset, Ghost(BoardInv { size, init }))),
            next: Arc::new(RwLock::new(Vec::new(), Ghost(StagingInv {}))),
        }
    }

    /// The grid dimension N.
    pub fn size(&self) -> (r: usize)
        ensures
            r == self.spec_size(),
    {
        self.size
    }

    /// Takes a shared read lock on the live generation. The view behind the
    /// returned handle is one complete board, a generation reachable from
    /// the construction board — never the staging buffer. The handle must be
    /// given back with `release_read`, and `advance` waits during its
    /// promotion step while any read handle is outstanding.
    pub fn get_current_read_lock<'a>(&'a self) -> (r: ReadHandle<'a, Vec<bool>, BoardInv>)
        ensures
            r.view()@.len() == self.spec_size() * self.spec_size(),
            reachable_from(self.spec_init(), r.view()@, self.spec_size()),
            r.rwlock().pred() == (BoardInv {
                size: self.spec_size() as usize,
                init: self.spec_init(),
            }),
    {
        proof {
            use_type_invariant(self);
        }
        self.current.acquire_read()
    }

    /// Copies the current generation out, row-major. The copy is taken under
    /// a read lock, so it is always one complete generation of this game —
    /// reachable from the construction board, never a mix of two
    /// generations and never the staging buffer.
    pub fn snapshot(&self) -> (r: Vec<bool>)
        ensures
            r@.len() == self.spec_size() * self.spec_size(),
            reachable_from(self.spec_init(), r@, self.spec_size()),
    {
        proof {
            use_type_invariant(self);
        }
        let handle = self.current.acquire_read();
        let src = handle.borrow();
        let n = src.len();
        let mut r: Vec<bool> = Vec::new();
        let mut i: usize = 0;
        while i < n
            invariant
                i <= n,
                n == src@.len(),
                r@.len() == i,
                forall|j: int| 0 <= j < i ==> r@[j] == src@[j],
            decreases n - i,
        {
            r.push(src[i]);
            i += 1;
        }
        proof {
            assert(r@ =~= src@);
        }
        handle.release_read();
        r
    }

    /// Advances in place to the next generation under clipped topology.
    pub fn advance(&self) {
        self.step(false);
    }

    /// Advances in place to the next generation under toroidal topology.
    pub fn advance_toroidally(&self) {
        self.step(true);
    }

    /// The advance protocol shared by both topologies. The staging lock is
    /// taken first, so a second advance blocks before either has touched the
    /// live buffer; the parallel pass then runs under a shared read lock of
    /// live, and the finished staging buffer is promoted under a brief
    /// exclusive write lock, the retired live buffer staying behind as the
    /// next staging buffer.
    fn step(&self, toroidal: bool) {
        proof {
            use_type_invariant(self);
        }
        let (mut staging, staging_handle) = self.next.acquire_write();
        let read_handle = self.current.acquire_read();
        distribute_next_generation(read_handle.borrow(), self.size, toroidal, &mut staging);
        proof {
            assert(staging@ =~= crate::grid::spec_next_board(
                read_handle.view()@,
                self.size as int,
                toroidal,
            ));
            lemma_reachable_step(
                self.spec_init(),
                read_handle.view()@,
                self.size as int,
                toroidal,
            );
        }
        read_handle.release_read();
        let (retired, write_handle) = self.current.acquire_write();
        write_handle.release_write(staging);
        staging_handle.release_write(retired);
    }
}

impl Clone for Game {
    /// Cloning a handle shares the board: the clone reads and advances the
    /// same buffers through the same locks.
    fn clone(&self) -> (r: Game)
        ensures
            r == *self,
    {
        proof {
            use_type_invariant(self);
        }
        Game { size: self.size, current: self.current.clone(), next: self.next.clone() }
    }
}

} // verus!
