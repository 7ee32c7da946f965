//! Transposition of squares of scalars held packed.

use vstd::arithmetic::power2::pow2;
use crate::field::packed::{Divisible, PackedField};
use crate::math::index::{
    lemma_block_bound, lemma_div_mod, lemma_index_bound, lemma_split_index, pow2_usize,
};
use vstd::prelude::*;

verus! {

/// Lane `c` of element `r`.
pub open spec fn lane<P: Divisible>(s: Seq<P>, r: int, c: int) -> P::Scalar {
    s[r].lanes()[c]
}

/// Transposes a square of lanes: one packed element per row, one lane per column.
pub fn square_transpose<P: PackedField>(block: &mut [P])
    requires
        old(block).len() == P::WIDTH,
    ensures
        final(block).len() == P::WIDTH,
        forall|r: int, c: int|
            0 <= r < P::WIDTH && 0 <= c < P::WIDTH ==> #[trigger] lane(final(block)@, r, c)
                == lane(old(block)@, c, r),
{
    let ghost before = block@;
    let mut copy: Vec<P> = Vec::new();
    let mut i: usize = 0;
    while i < P::WIDTH
        invariant
            i <= P::WIDTH,
            block.len() == P::WIDTH,
            block@ == before,
            copy.len() == i,
            forall|j: int| 0 <= j < i ==> #[trigger] copy[j] == before[j],
        decreases P::WIDTH - i,
    {
        copy.push(block[i]);
        i = i + 1;
    }
    let mut r: usize = 0;
    while r < P::WIDTH
        invariant
            r <= P::WIDTH,
            block.len() == P::WIDTH,
            copy.len() == P::WIDTH,
            forall|j: int| 0 <= j < P::WIDTH ==> #[trigger] copy[j] == before[j],
            forall|x: int, c: int|
                0 <= x < r && 0 <= c < P::WIDTH ==> #[trigger] lane(block@, x, c) == lane(
                    before,
                    c,
                    x,
                ),
        decreases P::WIDTH - r,
    {
        let mut row = P::zero_packed();
        let mut c: usize = 0;
        proof {
            row.lanes_len();
        }
        while c < P::WIDTH
            invariant
                r < P::WIDTH,
                c <= P::WIDTH,
                copy.len() == P::WIDTH,
                row.lanes().len() == P::WIDTH,
                forall|j: int| 0 <= j < P::WIDTH ==> #[trigger] copy[j] == before[j],
                forall|j: int|
                    0 <= j < c ==> #[trigger] row.lanes()[j] == lane(before, j, r as int),
            decreases P::WIDTH - c,
        {
            row.set(c, copy[c].get(r));
            c = c + 1;
        }
        let ghost current = block@;
        block[r] = row;
        proof {
            assert forall|x: int, c: int| 0 <= x < r + 1 && 0 <= c < P::WIDTH implies #[trigger] lane(
                block@,
                x,
                c,
            ) == lane(before, c, x) by {
                if x == r {
                    assert(block@[x] == row);
                    assert(row.lanes()[c] == lane(before, c, r as int));
                } else {
                    assert(lane(current, x, c) == lane(before, c, x));
                }
            }
        }
        r = r + 1;
    }
}

/// Row `a` of sub-block `(r, c)` in a square of `t` by `t` sub-blocks of `w` rows each.
pub open spec fn sub_block_row<P>(s: Seq<P>, t: int, w: int, r: int, a: int, c: int) -> P {
    s[(r * w + a) * t + c]
}

/// Row and column of a square of scalars with `t` packed elements of `w` lanes in each row.
pub open spec fn square_cell<P: Divisible>(s: Seq<P>, t: int, w: int, i: int, j: int) -> P::Scalar {
    s[i * t + j / w].lanes()[j % w]
}

/// The place of a sub-block row is in range.
proof fn lemma_row_bound(t: int, w: int, r: int, a: int, c: int)
    requires
        0 <= r < t,
        0 <= a < w,
        0 <= c < t,
    ensures
        0 <= r * w + a < t * w,
        0 <= (r * w + a) * t + c < t * w * t,
{
    lemma_index_bound(r, a, t, w);
    lemma_index_bound(r * w + a, c, t * w, t);
}

/// Different sub-block rows are in different places.
proof fn lemma_row_injective(t: int, w: int, r: int, a: int, c: int, x: int, b: int, y: int)
    requires
        0 <= r,
        0 <= x,
        0 <= a < w,
        0 <= b < w,
        0 <= c < t,
        0 <= y < t,
        (r * w + a) * t + c == (x * w + b) * t + y,
    ensures
        r == x,
        a == b,
        c == y,
{
    lemma_div_mod(r * w + a, t, c);
    lemma_div_mod(x * w + b, t, y);
    lemma_div_mod(r, w, a);
    lemma_div_mod(x, w, b);
}

/// Exchanges sub-block `(r, c)` with its mirror across the diagonal.
fn swap_sub_blocks<P: Copy>(tile: &mut [P], t: usize, w: usize, r: usize, c: usize)
    requires
        r < c < t,
        old(tile).len() == t * w * t,
    ensures
        final(tile).len() == old(tile).len(),
        forall|x: int, a: int, y: int|
            0 <= x < t && 0 <= a < w && 0 <= y < t ==> #[trigger] sub_block_row(
                final(tile)@,
                t as int,
                w as int,
                x,
                a,
                y,
            ) == if (x == r && y == c) || (x == c && y == r) {
                sub_block_row(old(tile)@, t as int, w as int, y, a, x)
            } else {
                sub_block_row(old(tile)@, t as int, w as int, x, a, y)
            },
{
    let ghost before = tile@;
    let ghost (ti, wi) = (t as int, w as int);
    let mut k: usize = 0;
    while k < w
        invariant
            k <= w,
            r < c < t,
            ti == t && wi == w,
            before.len() == t * w * t,
            tile.len() == before.len(),
            forall|x: int, a: int, y: int|
                0 <= x < t && 0 <= a < w && 0 <= y < t ==> #[trigger] sub_block_row(
                    tile@,
                    ti,
                    wi,
                    x,
                    a,
                    y,
                ) == if a < k && ((x == r && y == c) || (x == c && y == r)) {
                    sub_block_row(before, ti, wi, y, a, x)
                } else {
                    sub_block_row(before, ti, wi, x, a, y)
                },
        decreases w - k,
    {
        let ghost current = tile@;
        proof {
            lemma_row_bound(ti, wi, r as int, k as int, c as int);
            lemma_row_bound(ti, wi, c as int, k as int, r as int);
            assert(t * w <= t * w * t) by (nonlinear_arith)
                requires
                    t >= 1,
                    w >= 0,
            ;
            assert(0 <= r * w && 0 <= c * w && 0 <= (r * w + k) * t && 0 <= (c * w + k) * t)
                by (nonlinear_arith)
                requires
                    0 <= r,
                    0 <= c,
                    0 <= w,
                    0 <= k,
                    0 <= t,
            ;
        }
        let i: usize = (r * w + k) * t + c;
        let j: usize = (c * w + k) * t + r;
        let first = tile[i];
        let second = tile[j];
        tile[i] = second;
        tile[j] = first;
        proof {
            assert forall|x: int, a: int, y: int|
                0 <= x < t && 0 <= a < w && 0 <= y < t implies #[trigger] sub_block_row(
                tile@,
                ti,
                wi,
                x,
                a,
                y,
            ) == (if a < k + 1 && ((x == r && y == c) || (x == c && y == r)) {
                sub_block_row(before, ti, wi, y, a, x)
            } else {
                sub_block_row(before, ti, wi, x, a, y)
            }) by {
                lemma_row_bound(ti, wi, x, a, y);
                assert(sub_block_row(current, ti, wi, x, a, y) == if a < k && ((x == r && y == c)
                    || (x == c && y == r)) {
                    sub_block_row(before, ti, wi, y, a, x)
                } else {
                    sub_block_row(before, ti, wi, x, a, y)
                });
                let p = (x * wi + a) * ti + y;
                if p == i {
                    lemma_row_injective(ti, wi, x, a, y, r as int, k as int, c as int);
                    assert(sub_block_row(current, ti, wi, c as int, k as int, r as int)
                        == sub_block_row(before, ti, wi, c as int, k as int, r as int));
                } else if p == j {
                    lemma_row_injective(ti, wi, x, a, y, c as int, k as int, r as int);
                    assert(sub_block_row(current, ti, wi, r as int, k as int, c as int)
                        == sub_block_row(before, ti, wi, r as int, k as int, c as int));
                }
            }
        }
        k = k + 1;
    }
}

/// Transposes sub-block `(r, c)` in place.
fn transpose_sub_block<P: PackedField>(
    tile: &mut [P],
    block: &mut [P],
    t: usize,
    r: usize,
    c: usize,
)
    requires
        r < t,
        c < t,
        old(tile).len() == t * P::WIDTH * t,
        old(block).len() == P::WIDTH,
    ensures
        final(tile).len() == old(tile).len(),
        final(block).len() == P::WIDTH,
        forall|a: int, b: int|
            0 <= a < P::WIDTH && 0 <= b < P::WIDTH ==> sub_block_row(
                final(tile)@,
                t as int,
                P::WIDTH as int,
                r as int,
                a,
                c as int,
            ).lanes()[b] == #[trigger] lane_of(
                old(tile)@,
                t as int,
                P::WIDTH as int,
                r as int,
                b,
                c as int,
                a,
            ),
        forall|x: int, a: int, y: int|
            0 <= x < t && 0 <= a < P::WIDTH && 0 <= y < t && !(x == r && y == c)
                ==> #[trigger] sub_block_row(
                final(tile)@,
                t as int,
                P::WIDTH as int,
                x,
                a,
                y,
            ) == sub_block_row(old(tile)@, t as int, P::WIDTH as int, x, a, y),
{
    let ghost before = tile@;
    let w: usize = P::WIDTH;
    let ghost (ti, wi, ri, ci) = (t as int, w as int, r as int, c as int);
    let mut a: usize = 0;
    while a < w
        invariant
            a <= w,
            w == P::WIDTH,
            r < t,
            c < t,
            ti == t && wi == w && ri == r && ci == c,
            tile@ == before,
            before.len() == t * w * t,
            tile.len() == before.len(),
            block.len() == w,
            forall|b: int|
                0 <= b < a ==> #[trigger] block[b] == sub_block_row(before, ti, wi, ri, b, ci),
        decreases w - a,
    {
        proof {
            lemma_row_fits(t, w, r, a, c, tile.len());
        }
        block[a] = tile[(r * w + a) * t + c];
        a = a + 1;
    }
    let ghost gathered = block@;
    square_transpose(block);
    let mut a: usize = 0;
    while a < w
        invariant
            a <= w,
            w == P::WIDTH,
            r < t,
            c < t,
            ti == t && wi == w && ri == r && ci == c,
            before.len() == t * w * t,
            tile.len() == before.len(),
            block.len() == w,
            forall|x: int, b: int, y: int|
                0 <= x < t && 0 <= b < w && 0 <= y < t ==> #[trigger] sub_block_row(
                    tile@,
                    ti,
                    wi,
                    x,
                    b,
                    y,
                ) == if b < a && x == r && y == c {
                    block[b]
                } else {
                    sub_block_row(before, ti, wi, x, b, y)
                },
        decreases w - a,
    {
        let ghost current = tile@;
        proof {
            lemma_row_fits(t, w, r, a, c, tile.len());
        }
        tile[(r * w + a) * t + c] = block[a];
        proof {
            assert forall|x: int, b: int, y: int|
                0 <= x < t && 0 <= b < w && 0 <= y < t implies #[trigger] sub_block_row(
                tile@,
                ti,
                wi,
                x,
                b,
                y,
            ) == (if b < a + 1 && x == r && y == c {
                block[b]
            } else {
                sub_block_row(before, ti, wi, x, b, y)
            }) by {
                lemma_row_bound(ti, wi, x, b, y);
                assert(sub_block_row(current, ti, wi, x, b, y) == if b < a && x == r && y == c {
                    block[b]
                } else {
                    sub_block_row(before, ti, wi, x, b, y)
                });
                if (x * wi + b) * ti + y == (r * wi + a) * ti + c {
                    lemma_row_injective(ti, wi, x, b, y, ri, a as int, ci);
                }
            }
        }
        a = a + 1;
    }
    proof {
        assert forall|a: int, b: int| 0 <= a < w && 0 <= b < w implies sub_block_row(
            tile@,
            ti,
            wi,
            ri,
            a,
            ci,
        ).lanes()[b] == #[trigger] lane_of(before, ti, wi, ri, b, ci, a) by {
            assert(sub_block_row(tile@, ti, wi, ri, a, ci) == block[a]);
            assert(lane(block@, a, b) == lane(gathered, b, a));
        }
    }
}

/// Lane `b` of row `a` of sub-block `(r, c)`.
pub open spec fn lane_of<P: Divisible>(
    s: Seq<P>,
    t: int,
    w: int,
    r: int,
    a: int,
    c: int,
    b: int,
) -> P::Scalar {
    sub_block_row(s, t, w, r, a, c).lanes()[b]
}

/// The place of a sub-block row can be computed without overflow.
proof fn lemma_row_fits(t: usize, w: usize, r: usize, a: usize, c: usize, len: usize)
    requires
        r < t,
        a < w,
        c < t,
        len == t * w * t,
    ensures
        0 <= r * w <= usize::MAX,
        0 <= r * w + a <= usize::MAX,
        0 <= (r * w + a) * t <= usize::MAX,
        0 <= (r * w + a) * t + c < len,
{
    lemma_row_bound(t as int, w as int, r as int, a as int, c as int);
    assert(t * w <= t * w * t) by (nonlinear_arith)
        requires
            t >= 1,
            w >= 0,
    ;
    assert(0 <= r * w && 0 <= (r * w + a) * t) by (nonlinear_arith)
        requires
            0 <= r,
            0 <= w,
            0 <= a,
            0 <= t,
    ;
}

/// Transposes the square of scalars a tile holds, row by row.
///
/// A row spans `2^LOG_TILE_PACKED` packed elements, which is also the number of sub-blocks along
/// one side.
/// Every sub-block is exchanged with its mirror, and then transposed in place with `block` as
/// scratch space.
pub fn transpose_tile<P: PackedField, const LOG_TILE_PACKED: usize>(
    tile: &mut [P],
    block: &mut [P],
)
    requires
        old(tile).len() == pow2(LOG_TILE_PACKED as nat) * P::WIDTH * pow2(LOG_TILE_PACKED as nat),
        old(block).len() == P::WIDTH,
    ensures
        final(tile).len() == old(tile).len(),
        final(block).len() == P::WIDTH,
        forall|i: int, j: int|
            0 <= i < pow2(LOG_TILE_PACKED as nat) * P::WIDTH && 0 <= j < pow2(
                LOG_TILE_PACKED as nat,
            ) * P::WIDTH ==> #[trigger] square_cell(
                final(tile)@,
                pow2(LOG_TILE_PACKED as nat) as int,
                P::WIDTH as int,
                i,
                j,
            ) == square_cell(
                old(tile)@,
                pow2(LOG_TILE_PACKED as nat) as int,
                P::WIDTH as int,
                j,
                i,
            ),
{
    transpose_tile_by(tile, block, LOG_TILE_PACKED);
}

/// [`transpose_tile`] with the tile width as an argument.
pub fn transpose_tile_by<P: PackedField>(tile: &mut [P], block: &mut [P], log_tile_packed: usize)
    requires
        old(tile).len() == pow2(log_tile_packed as nat) * P::WIDTH * pow2(log_tile_packed as nat),
        old(block).len() == P::WIDTH,
    ensures
        final(tile).len() == old(tile).len(),
        final(block).len() == P::WIDTH,
        forall|i: int, j: int|
            0 <= i < pow2(log_tile_packed as nat) * P::WIDTH && 0 <= j < pow2(
                log_tile_packed as nat,
            ) * P::WIDTH ==> #[trigger] square_cell(
                final(tile)@,
                pow2(log_tile_packed as nat) as int,
                P::WIDTH as int,
                i,
                j,
            ) == square_cell(
                old(tile)@,
                pow2(log_tile_packed as nat) as int,
                P::WIDTH as int,
                j,
                i,
            ),
{
    let ghost before = tile@;
    let ghost ti = pow2(log_tile_packed as nat) as int;
    let ghost wi = P::WIDTH as int;
    proof {
        P::width_is_power();
        vstd::arithmetic::power2::lemma_pow2_pos(log_tile_packed as nat);
        assert(ti <= ti * wi * ti) by (nonlinear_arith)
            requires
                ti >= 1,
                wi >= 1,
        ;
    }
    let t = pow2_usize(log_tile_packed);

    // Exchange every sub-block with its mirror.
    let mut r: usize = 0;
    while r < t
        invariant
            r <= t,
            ti == t && wi == P::WIDTH,
            before.len() == t * P::WIDTH * t,
            tile.len() == before.len(),
            block.len() == P::WIDTH,
            forall|x: int, a: int, y: int|
                0 <= x < ti && 0 <= a < wi && 0 <= y < ti ==> #[trigger] sub_block_row(
                    tile@,
                    ti,
                    wi,
                    x,
                    a,
                    y,
                ) == if x < r || y < r {
                    sub_block_row(before, ti, wi, y, a, x)
                } else {
                    sub_block_row(before, ti, wi, x, a, y)
                },
        decreases t - r,
    {
        let mut c: usize = r + 1;
        while c < t
            invariant
                r < t,
                r + 1 <= c <= t,
                ti == t && wi == P::WIDTH,
                before.len() == t * P::WIDTH * t,
                tile.len() == before.len(),
                block.len() == P::WIDTH,
                forall|x: int, a: int, y: int|
                    0 <= x < ti && 0 <= a < wi && 0 <= y < ti ==> #[trigger] sub_block_row(
                        tile@,
                        ti,
                        wi,
                        x,
                        a,
                        y,
                    ) == if x < r || y < r || (x == r && y < c) || (y == r && x < c) {
                        sub_block_row(before, ti, wi, y, a, x)
                    } else {
                        sub_block_row(before, ti, wi, x, a, y)
                    },
            decreases t - c,
        {
            let ghost current = tile@;
            swap_sub_blocks(tile, t, P::WIDTH, r, c);
            proof {
                assert forall|x: int, a: int, y: int|
                    0 <= x < ti && 0 <= a < wi && 0 <= y < ti implies #[trigger] sub_block_row(
                    tile@,
                    ti,
                    wi,
                    x,
                    a,
                    y,
                ) == (if x < r || y < r || (x == r && y < c + 1) || (y == r && x < c + 1) {
                    sub_block_row(before, ti, wi, y, a, x)
                } else {
                    sub_block_row(before, ti, wi, x, a, y)
                }) by {
                    let moved = (x == r && y == c) || (x == c && y == r);
                    if moved {
                        assert(sub_block_row(current, ti, wi, y, a, x) == sub_block_row(
                            before,
                            ti,
                            wi,
                            y,
                            a,
                            x,
                        ));
                    } else {
                        assert(sub_block_row(tile@, ti, wi, x, a, y) == sub_block_row(
                            current,
                            ti,
                            wi,
                            x,
                            a,
                            y,
                        ));
                    }
                }
            }
            c = c + 1;
        }
        r = r + 1;
    }
    let ghost mirrored = tile@;

    // Transpose each sub-block.
    let mut r: usize = 0;
    while r < t
        invariant
            r <= t,
            ti == t && wi == P::WIDTH,
            mirrored.len() == t * P::WIDTH * t,
            tile.len() == mirrored.len(),
            block.len() == P::WIDTH,
            forall|x: int, a: int, y: int|
                0 <= x < ti && 0 <= a < wi && 0 <= y < ti && r <= x ==> #[trigger] sub_block_row(
                    tile@,
                    ti,
                    wi,
                    x,
                    a,
                    y,
                ) == sub_block_row(mirrored, ti, wi, x, a, y),
            forall|x: int, a: int, y: int, b: int|
                0 <= x < ti && 0 <= a < wi && 0 <= y < ti && 0 <= b < wi && x < r
                    ==> #[trigger] lane_of(tile@, ti, wi, x, a, y, b) == lane_of(
                    mirrored,
                    ti,
                    wi,
                    x,
                    b,
                    y,
                    a,
                ),
        decreases t - r,
    {
        let mut c: usize = 0;
        while c < t
            invariant
                r < t,
                c <= t,
                ti == t && wi == P::WIDTH,
                mirrored.len() == t * P::WIDTH * t,
                tile.len() == mirrored.len(),
                block.len() == P::WIDTH,
                forall|x: int, a: int, y: int|
                    0 <= x < ti && 0 <= a < wi && 0 <= y < ti && (r < x || (r == x && c <= y))
                        ==> #[trigger] sub_block_row(tile@, ti, wi, x, a, y) == sub_block_row(
                        mirrored,
                        ti,
                        wi,
                        x,
                        a,
                        y,
                    ),
                forall|x: int, a: int, y: int, b: int|
                    0 <= x < ti && 0 <= a < wi && 0 <= y < ti && 0 <= b < wi && (x < r || (x == r
                        && y < c)) ==> #[trigger] lane_of(tile@, ti, wi, x, a, y, b) == lane_of(
                        mirrored,
                        ti,
                        wi,
                        x,
                        b,
                        y,
                        a,
                    ),
            decreases t - c,
        {
            let ghost current = tile@;
            transpose_sub_block(tile, block, t, r, c);
            proof {
                assert forall|x: int, a: int, y: int, b: int|
                    0 <= x < ti && 0 <= a < wi && 0 <= y < ti && 0 <= b < wi && (x < r || (x == r
                        && y < c + 1)) implies #[trigger] lane_of(tile@, ti, wi, x, a, y, b)
                    == lane_of(mirrored, ti, wi, x, b, y, a) by {
                    if x == r && y == c {
                        assert(lane_of(current, ti, wi, x, b, y, a) == lane_of(
                            mirrored,
                            ti,
                            wi,
                            x,
                            b,
                            y,
                            a,
                        )) by {
                            assert(sub_block_row(current, ti, wi, x, b, y) == sub_block_row(
                                mirrored,
                                ti,
                                wi,
                                x,
                                b,
                                y,
                            ));
                        }
                    } else {
                        assert(sub_block_row(tile@, ti, wi, x, a, y) == sub_block_row(
                            current,
                            ti,
                            wi,
                            x,
                            a,
                            y,
                        ));
                        assert(lane_of(current, ti, wi, x, a, y, b) == lane_of(
                            mirrored,
                            ti,
                            wi,
                            x,
                            b,
                            y,
                            a,
                        ));
                    }
                }
            }
            c = c + 1;
        }
        r = r + 1;
    }
    proof {
        assert forall|i: int, j: int| 0 <= i < ti * wi && 0 <= j < ti * wi implies #[trigger] square_cell(
            tile@,
            ti,
            wi,
            i,
            j,
        ) == square_cell(before, ti, wi, j, i) by {
            lemma_split_index(i, wi);
            lemma_split_index(j, wi);
            lemma_block_bound(i, ti, wi);
            lemma_block_bound(j, ti, wi);
            let (r, a, c, b) = (i / wi, i % wi, j / wi, j % wi);
            assert(lane_of(tile@, ti, wi, r, a, c, b) == lane_of(mirrored, ti, wi, r, b, c, a));
            assert(sub_block_row(mirrored, ti, wi, r, b, c) == sub_block_row(
                before,
                ti,
                wi,
                c,
                b,
                r,
            ));
        }
    }
}

} // verus!
