//! How the kernels are launched: the size of their buffers, and how their
//! threads are laid out.

use vstd::arithmetic::div_mod::lemma_fundamental_div_mod;
use vstd::arithmetic::mul::lemma_mul_is_commutative;
use vstd::prelude::*;

verus! {

/// Threads of a threadgroup that works on rows. It is also the number of
/// columns that the tiled kernel takes at a time.
pub const ROW_THREADS: usize = 256;

/// The side of a threadgroup that works on a tile of a matrix.
pub const TILE_SIDE: usize = 16;

/// An extent in three dimensions.
#[derive(Debug, Clone, Copy, PartialEq, Eq)]
pub struct Extent {
    pub width: usize,
    pub height: usize,
    pub depth: usize,
}

/// How many threadgroups a kernel is launched with, and of how many threads.
#[derive(Debug, Clone, Copy, PartialEq, Eq)]
pub struct Launch {
    pub threadgroups: Extent,
    pub threads_per_threadgroup: Extent,
}

impl Launch {
    /// All threads along the first dimension.
    pub open spec fn across(self) -> int {
        self.threadgroups.width * self.threads_per_threadgroup.width
    }

    /// All threads along the second dimension.
    pub open spec fn down(self) -> int {
        self.threadgroups.height * self.threads_per_threadgroup.height
    }
}

/// Why a kernel cannot be launched.
#[derive(Debug, Clone, Copy, PartialEq, Eq)]
pub enum LaunchError {
    /// The number of columns is no multiple of the tile size.
    PartialTile,
    /// The sequence length is no multiple of the block size.
    PartialBlock,
}

/// The launch of a kernel with one thread for each row, and one row of
/// threadgroups for each token.
pub open spec fn row_launch(num_rows: usize, tokens: usize) -> Launch {
    Launch {
        threadgroups: Extent {
            width: (num_rows / ROW_THREADS) as usize,
            height: tokens,
            depth: 1,
        },
        threads_per_threadgroup: Extent { width: ROW_THREADS, height: 1, depth: 1 },
    }
}

/// The launch of a kernel with one thread for each element of a matrix.
pub open spec fn tile_launch(rows: usize, cols: usize) -> Launch {
    Launch {
        threadgroups: Extent {
            width: (cols / TILE_SIDE) as usize,
            height: (rows / TILE_SIDE) as usize,
            depth: 1,
        },
        threads_per_threadgroup: Extent { width: TILE_SIDE, height: TILE_SIDE, depth: 1 },
    }
}

/// The launch of a kernel with one threadgroup of `n` threads.
pub open spec fn single_launch(n: usize) -> Launch {
    Launch {
        threadgroups: Extent { width: 1, height: 1, depth: 1 },
        threads_per_threadgroup: Extent { width: n, height: 1, depth: 1 },
    }
}

/// The launch of a kernel with one threadgroup for each block of `block_rows`
/// rows, and in it one thread for each element of the block.
pub open spec fn block_launch(rows: usize, cols: usize, block_rows: usize) -> Launch {
    Launch {
        threadgroups: Extent { width: (rows / block_rows) as usize, height: 1, depth: 1 },
        threads_per_threadgroup: Extent {
            width: (block_rows * cols) as usize,
            height: 1,
            depth: 1,
        },
    }
}

fn make_row_launch(num_rows: usize, tokens: usize) -> (r: Launch)
    ensures
        r == row_launch(num_rows, tokens),
{
    Launch {
        threadgroups: Extent { width: num_rows / ROW_THREADS, height: tokens, depth: 1 },
        threads_per_threadgroup: Extent { width: ROW_THREADS, height: 1, depth: 1 },
    }
}

fn make_tile_launch(rows: usize, cols: usize) -> (r: Launch)
    ensures
        r == tile_launch(rows, cols),
{
    Launch {
        threadgroups: Extent { width: cols / TILE_SIDE, height: rows / TILE_SIDE, depth: 1 },
        threads_per_threadgroup: Extent { width: TILE_SIDE, height: TILE_SIDE, depth: 1 },
    }
}

/// The bytes of a matrix of single-precision numbers.
pub fn matrix_bytes(rows: usize, cols: usize) -> (r: usize)
    requires
        rows * cols * 4 <= usize::MAX,
    ensures
        r == rows * cols * 4,
{
    assert(rows * cols <= rows * cols * 4) by (nonlinear_arith)
        requires
            rows >= 0,
            cols >= 0,
    ;
    rows * cols * 4
}

/// The plan of a kernel that multiplies a matrix with one vector or more.
#[derive(Debug, Clone, Copy, PartialEq, Eq)]
pub struct ProductPlan {
    /// Bytes of the matrix, at single precision.
    pub weight_bytes: usize,
    /// Bytes of the vectors.
    pub input_bytes: usize,
    /// Bytes of the result.
    pub output_bytes: usize,
    pub launch: Launch,
}

/// The plan for multiplying a matrix with `tokens` vectors.
pub fn plan_product(num_rows: usize, num_cols: usize, tokens: usize) -> (plan: ProductPlan)
    requires
        num_rows * num_cols * 4 <= usize::MAX,
        tokens * num_cols * 4 <= usize::MAX,
        tokens * num_rows * 4 <= usize::MAX,
    ensures
        plan.weight_bytes == num_rows * num_cols * 4,
        plan.input_bytes == tokens * num_cols * 4,
        plan.output_bytes == tokens * num_rows * 4,
        plan.launch == row_launch(num_rows, tokens),
        num_rows % 256 == 0 ==> plan.launch.threadgroups.width
            * plan.launch.threads_per_threadgroup.width == num_rows,
        plan.launch.threadgroups.height * plan.launch.threads_per_threadgroup.height == tokens,
{
    ProductPlan {
        weight_bytes: matrix_bytes(num_rows, num_cols),
        input_bytes: matrix_bytes(tokens, num_cols),
        output_bytes: matrix_bytes(tokens, num_rows),
        launch: make_row_launch(num_rows, tokens),
    }
}

/// The plan for multiplying a matrix with one vector, a tile of columns at a
/// time. Only whole tiles can be handled.
pub fn plan_tiled_product(num_rows: usize, num_cols: usize) -> (r: Result<ProductPlan, LaunchError>)
    requires
        num_rows * num_cols * 4 <= usize::MAX,
        num_rows * 4 <= usize::MAX,
        num_cols * 4 <= usize::MAX,
    ensures
        match r {
            Ok(plan) => {
                &&& num_cols % ROW_THREADS == 0
                &&& plan.weight_bytes == num_rows * num_cols * 4
                &&& plan.input_bytes == num_cols * 4
                &&& plan.output_bytes == num_rows * 4
                &&& plan.launch == row_launch(num_rows, 1)
            },
            Err(e) => num_cols % ROW_THREADS != 0 && e == LaunchError::PartialTile,
        },
{
    if num_cols % ROW_THREADS != 0 {
        return Err(LaunchError::PartialTile);
    }
    Ok(plan_product(num_rows, num_cols, 1))
}

/// The plan of attention in three kernels: scores, softmax and weighted sum.
#[derive(Debug, Clone, Copy, PartialEq, Eq)]
pub struct AttentionPlan {
    /// Bytes of the queries, of the keys, of the values and of the result.
    pub tensor_bytes: usize,
    /// Bytes of the scores.
    pub scores_bytes: usize,
    pub scores: Launch,
    pub softmax: Launch,
    pub weighted_sum: Launch,
}

/// The plan of attention over `seq_len` positions with `d_head` numbers each.
pub fn plan_attention(seq_len: usize, d_head: usize) -> (plan: AttentionPlan)
    requires
        seq_len * d_head * 4 <= usize::MAX,
        seq_len * seq_len * 4 <= usize::MAX,
    ensures
        plan.tensor_bytes == seq_len * d_head * 4,
        plan.scores_bytes == seq_len * seq_len * 4,
        plan.scores == tile_launch(seq_len, seq_len),
        plan.softmax == single_launch(seq_len),
        plan.weighted_sum == tile_launch(seq_len, d_head),
        plan.softmax.threadgroups.width * plan.softmax.threads_per_threadgroup.width == seq_len,
        seq_len % 16 == 0 ==> plan.scores.threadgroups.width
            * plan.scores.threads_per_threadgroup.width == seq_len
            && plan.scores.threadgroups.height * plan.scores.threads_per_threadgroup.height
            == seq_len && plan.weighted_sum.threadgroups.height
            * plan.weighted_sum.threads_per_threadgroup.height == seq_len,
        d_head % 16 == 0 ==> plan.weighted_sum.threadgroups.width
            * plan.weighted_sum.threads_per_threadgroup.width == d_head,
{
    AttentionPlan {
        tensor_bytes: matrix_bytes(seq_len, d_head),
        scores_bytes: matrix_bytes(seq_len, seq_len),
        scores: make_tile_launch(seq_len, seq_len),
        softmax: Launch {
            threadgroups: Extent { width: 1, height: 1, depth: 1 },
            threads_per_threadgroup: Extent { width: seq_len, height: 1, depth: 1 },
        },
        weighted_sum: make_tile_launch(seq_len, d_head),
    }
}

/// The plan of attention in one kernel.
#[derive(Debug, Clone, Copy, PartialEq, Eq)]
pub struct FlashPlan {
    /// Bytes of the queries, of the keys, of the values and of the result.
    pub tensor_bytes: usize,
    pub launch: Launch,
}

/// The plan of attention in one kernel that takes `block_rows` positions at a
/// time. Only whole blocks can be handled.
pub fn plan_flash_attention(seq_len: usize, d_head: usize, block_rows: usize) -> (r: Result<
    FlashPlan,
    LaunchError,
>)
    requires
        block_rows > 0,
        seq_len * d_head * 4 <= usize::MAX,
        block_rows * d_head <= usize::MAX,
    ensures
        match r {
            Ok(plan) => {
                &&& seq_len % block_rows == 0
                &&& plan.tensor_bytes == seq_len * d_head * 4
                &&& plan.launch == block_launch(seq_len, d_head, block_rows)
                &&& plan.launch.threadgroups.width * plan.launch.threads_per_threadgroup.width
                    == seq_len * d_head
            },
            Err(e) => seq_len % block_rows != 0 && e == LaunchError::PartialBlock,
        },
{
    if seq_len % block_rows != 0 {
        return Err(LaunchError::PartialBlock);
    }
    proof {
        block_launch_covers(seq_len, d_head, block_rows);
    }
    Ok(
        FlashPlan {
            tensor_bytes: matrix_bytes(seq_len, d_head),
            launch: Launch {
                threadgroups: Extent { width: seq_len / block_rows, height: 1, depth: 1 },
                threads_per_threadgroup: Extent {
                    width: block_rows * d_head,
                    height: 1,
                    depth: 1,
                },
            },
        },
    )
}

/// A launch over rows has threadgroups of 256 threads, as many as whole ones fit
/// into the rows, for each token.
pub proof fn row_launch_fills(num_rows: usize, tokens: usize)
    ensures
        ({
            let l = row_launch(num_rows, tokens);
            let (groups, threads) = (l.threadgroups, l.threads_per_threadgroup);
            &&& threads.width == 256 && threads.height == 1 && threads.depth == 1
            &&& groups.height == tokens && groups.depth == 1
            &&& groups.width * threads.width <= num_rows < groups.width * threads.width + 256
        }),
{
}

/// A launch over the elements of a matrix has threadgroups of 16 by 16 threads,
/// as many as whole ones fit across the columns and down the rows.
pub proof fn tile_launch_fills(rows: usize, cols: usize)
    ensures
        ({
            let l = tile_launch(rows, cols);
            let (groups, threads) = (l.threadgroups, l.threads_per_threadgroup);
            &&& threads.width == 16 && threads.height == 16 && threads.depth == 1
            &&& groups.depth == 1
            &&& groups.width * threads.width <= cols < groups.width * threads.width + 16
            &&& groups.height * threads.height <= rows < groups.height * threads.height + 16
        }),
{
}

/// A launch of one threadgroup has a thread for each of the `n` rows, all of them
/// in that threadgroup.
pub proof fn single_launch_covers(n: usize)
    ensures
        single_launch(n).across() == n,
        single_launch(n).down() == 1,
        ({
            let l = single_launch(n);
            let (groups, threads) = (l.threadgroups, l.threads_per_threadgroup);
            &&& groups.width == 1 && groups.height == 1 && groups.depth == 1
            &&& threads.width == n && threads.height == 1 && threads.depth == 1
        }),
{
}

/// A launch over blocks of rows has a threadgroup for each whole block, and in it
/// a thread for each element of the block.
pub proof fn block_launch_fills(rows: usize, cols: usize, block_rows: usize)
    requires
        block_rows > 0,
        block_rows * cols <= usize::MAX,
    ensures
        ({
            let l = block_launch(rows, cols, block_rows);
            let (groups, threads) = (l.threadgroups, l.threads_per_threadgroup);
            &&& groups.height == 1 && groups.depth == 1
            &&& threads.width == block_rows * cols && threads.height == 1 && threads.depth == 1
            &&& groups.width * block_rows <= rows < (groups.width + 1) * block_rows
        }),
{
    let blocks = rows as int / block_rows as int;
    lemma_fundamental_div_mod(rows as int, block_rows as int);
    lemma_mul_is_commutative(block_rows as int, blocks);
    assert((blocks + 1) * block_rows == blocks * block_rows + block_rows) by (nonlinear_arith);
}

/// All threads of a launch along a dimension are those of all its threadgroups.
pub proof fn threads_are_counted(l: Launch)
    ensures
        l.across() == l.threadgroups.width * l.threads_per_threadgroup.width,
        l.down() == l.threadgroups.height * l.threads_per_threadgroup.height,
{
}

/// Every row has a thread for every token, where the rows fill their
/// threadgroups.
pub proof fn row_launch_covers(num_rows: usize, tokens: usize)
    requires
        num_rows % ROW_THREADS == 0,
    ensures
        row_launch(num_rows, tokens).across() == num_rows,
        row_launch(num_rows, tokens).down() == tokens,
{
}

/// Every element of a matrix has a thread, where the matrix is made of whole
/// tiles.
pub proof fn tile_launch_covers(rows: usize, cols: usize)
    requires
        rows % TILE_SIDE == 0,
        cols % TILE_SIDE == 0,
    ensures
        tile_launch(rows, cols).across() == cols,
        tile_launch(rows, cols).down() == rows,
{
}

/// Every element of a matrix has a thread, where the matrix is made of whole
/// blocks.
pub proof fn block_launch_covers(rows: usize, cols: usize, block_rows: usize)
    requires
        block_rows > 0,
        rows % block_rows == 0,
        block_rows * cols <= usize::MAX,
    ensures
        block_launch(rows, cols, block_rows).across() == rows * cols,
        block_launch(rows, cols, block_rows).down() == 1,
{
    let blocks = rows as int / block_rows as int;
    lemma_fundamental_div_mod(rows as int, block_rows as int);
    lemma_mul_is_commutative(block_rows as int, blocks);
    assert(blocks * (block_rows * cols) == (blocks * block_rows) * cols) by (nonlinear_arith);
}

} // verus!
