use vstd::prelude::*;
use num::integer::Roots;

verus! {

/// `n` is the square of some natural number.
pub open spec fn is_square(n: int) -> bool {
    exists|k: nat| #[trigger] (k * k) == n
}

/// The natural square root of `n`, for a square `n`.
pub open spec fn square_root(n: int) -> nat {
    choose|k: nat| #[trigger] (k * k) == n
}

/// A byte length that holds a square grid of 2-byte cells: `2 * k * k`.
pub open spec fn is_tile_size(bytes: int) -> bool {
    bytes % 2 == 0 && is_square(bytes / 2)
}

/// The cell side of a tile of `bytes` bytes (meaningful when `is_tile_size(bytes)`).
pub open spec fn tile_side(bytes: int) -> nat {
    square_root(bytes / 2)
}

/// Relies on num's `Roots::sqrt` for unsigned integers: the truncated square
/// root `r`, with `r * r <= x < (r + 1) * (r + 1)`; it never panics on `u64`.
#[verifier::external_body]
fn floor_sqrt(x: u64) -> (r: u64)
    ensures
        r * r <= x,
        x < (r + 1) * (r + 1),
{
    x.sqrt()
}

/// Two natural numbers with equal squares are equal.
pub proof fn lemma_square_unique(a: nat, b: nat)
    requires
        a * a == b * b,
    ensures
        a == b,
{
    if a < b {
        assert(a * a < b * b) by (nonlinear_arith)
            requires
                a < b,
        ;
    } else if b < a {
        assert(b * b < a * a) by (nonlinear_arith)
            requires
                b < a,
        ;
    }
}

/// The exact square root of `x`, or `None` when `x` is not a square.
pub fn exact_sqrt(x: u64) -> (r: Option<u64>)
    ensures
        r.is_some() <==> is_square(x as int),
        r matches Some(k) ==> k * k == x && k == square_root(x as int),
{
    let k = floor_sqrt(x);
    if k * k == x {
        proof {
            assert((k as nat) * (k as nat) == x as int);
            let c = square_root(x as int);
            lemma_square_unique(c, k as nat);
        }
        Some(k)
    } else {
        proof {
            if is_square(x as int) {
                let c = choose|c: nat| #[trigger] (c * c) == x as int;
                let kn = k as nat;
                if c <= kn {
                    assert(c * c <= kn * kn) by (nonlinear_arith)
                        requires
                            c <= kn,
                    ;
                } else {
                    assert((kn + 1) * (kn + 1) <= c * c) by (nonlinear_arith)
                        requires
                            kn + 1 <= c,
                    ;
                }
            }
        }
        None
    }
}


/// The resolved shape of a tile set: `tile_grid_side` tiles per mosaic row and
/// column, and `unit_side` cells per tile row and column.
#[derive(Clone, Copy, Debug, PartialEq, Eq, Structural)]
pub struct TileGeometry {
    pub tile_grid_side: usize,
    pub unit_side: usize,
}

/// Why a tile set cannot be arranged into a square mosaic.
#[derive(Clone, Copy, Debug, PartialEq, Eq, Structural)]
pub enum GeometryError {
    /// No tile was given.
    EmptyFileList,
    /// The number of tiles is not a square.
    NotSquareFileCount { count: usize },
    /// A tile's byte length is not a whole number of cells forming a
    /// square: the first tile's is not twice a square, or a later tile's is odd.
    TileNotSquare { index: usize, size: u64 },
    /// A tile holds `actual` cells where the first tile's side asks for
    /// `expected = unit_side * unit_side`.
    TileSizeMismatch { index: usize, expected: u64, actual: u64 },
}

/// The tile grid side for `count` tiles, or why there is none.
pub open spec fn grid_resolution(count: int) -> Result<usize, GeometryError> {
    if count == 0 {
        Err(GeometryError::EmptyFileList)
    } else if !is_square(count) {
        Err(GeometryError::NotSquareFileCount { count: count as usize })
    } else {
        Ok(square_root(count) as usize)
    }
}

/// `i` is the first tile after the first whose size differs from the first's.
pub open spec fn is_first_mismatch(sizes: Seq<u64>, i: int) -> bool {
    &&& 0 < i < sizes.len()
    &&& sizes[i] != sizes[0]
    &&& forall|j: int| 0 < j < i ==> #[trigger] sizes[j] == sizes[0]
}

/// Some tile after the first differs in size from the first.
pub open spec fn has_mismatch(sizes: Seq<u64>) -> bool {
    exists|i: int| 0 < i < sizes.len() && #[trigger] sizes[i] != sizes[0]
}

/// The common cell side of non-empty `sizes`, or why there is none.
pub open spec fn unit_resolution(sizes: Seq<u64>) -> Result<usize, GeometryError> {
    if !is_tile_size(sizes[0] as int) {
        Err(GeometryError::TileNotSquare { index: 0, size: sizes[0] })
    } else if has_mismatch(sizes) {
        let i = choose|i: int| is_first_mismatch(sizes, i);
        if sizes[i] % 2 != 0 {
            Err(GeometryError::TileNotSquare { index: i as usize, size: sizes[i] })
        } else {
            Err(GeometryError::TileSizeMismatch { index: i as usize, expected: sizes[0] / 2, actual: sizes[i] / 2 })
        }
    } else {
        Ok(tile_side(sizes[0] as int) as usize)
    }
}

/// The geometry of `count` tiles of byte lengths `sizes`, or the first check that fails.
pub open spec fn resolution(count: int, sizes: Seq<u64>) -> Result<TileGeometry, GeometryError> {
    match grid_resolution(count) {
        Err(e) => Err(e),
        Ok(s) => match unit_resolution(sizes) {
            Err(e) => Err(e),
            Ok(u) => Ok(TileGeometry { tile_grid_side: s, unit_side: u }),
        },
    }
}

/// A square root of a number below `2^64` stays below `2^32`.
proof fn lemma_root_fits(k: nat, x: int)
    requires
        k * k == x,
        x <= u64::MAX,
    ensures
        k <= u32::MAX,
{
    if k > u32::MAX {
        assert(k * k >= 0x1_0000_0000 * 0x1_0000_0000) by (nonlinear_arith)
            requires
                k >= 0x1_0000_0000,
        ;
    }
}

/// Checks that `file_count` tiles fill a square grid and returns its side.
pub fn resolve_grid_side(file_count: usize) -> (r: Result<usize, GeometryError>)
    ensures
        r == grid_resolution(file_count as int),
{
    if file_count == 0 {
        return Err(GeometryError::EmptyFileList);
    }
    match exact_sqrt(file_count as u64) {
        None => Err(GeometryError::NotSquareFileCount { count: file_count }),
        Some(k) => {
            proof {
                lemma_root_fits(k as nat, file_count as int);
            }
            Ok(k as usize)
        },
    }
}

/// Checks that every tile holds the same square grid of 2-byte cells and
/// returns its side.
pub fn resolve_unit_side(byte_sizes: &[u64]) -> (r: Result<usize, GeometryError>)
    requires
        byte_sizes@.len() >= 1,
    ensures
        r == unit_resolution(byte_sizes@),
{
    let first = byte_sizes[0];
    if first % 2 != 0 {
        return Err(GeometryError::TileNotSquare { index: 0, size: first });
    }
    let unit: u64 = match exact_sqrt(first / 2) {
        None => {
            return Err(GeometryError::TileNotSquare { index: 0, size: first });
        },
        Some(k) => k,
    };
    proof {
        lemma_root_fits(unit as nat, (first / 2) as int);
    }
    let mut i: usize = 1;
    while i < byte_sizes.len()
        invariant
            1 <= i <= byte_sizes@.len(),
            first == byte_sizes@[0],
            is_tile_size(first as int),
            unit == tile_side(first as int),
            unit <= u32::MAX,
            forall|j: int| 0 < j < i ==> #[trigger] byte_sizes@[j] == first,
        decreases byte_sizes@.len() - i,
    {
        if byte_sizes[i] != first {
            proof {
                let sizes = byte_sizes@;
                assert(is_first_mismatch(sizes, i as int));
                assert(has_mismatch(sizes));
                let c = choose|c: int| is_first_mismatch(sizes, c);
                if c < i {
                    assert(sizes[c] == first);
                } else if c > i {
                    assert(sizes[i as int] == sizes[0]);
                }
                assert(c == i as int);
                assert(is_tile_size(first as int));
            }
            if byte_sizes[i] % 2 != 0 {
                return Err(GeometryError::TileNotSquare { index: i, size: byte_sizes[i] });
            }
            return Err(GeometryError::TileSizeMismatch { index: i, expected: first / 2, actual: byte_sizes[i] / 2 });
        }
        i = i + 1;
    }
    Ok(unit as usize)
}

/// Resolves the geometry of `file_count` tiles whose byte lengths are
/// `byte_sizes`, in raster order.
pub fn resolve(file_count: usize, byte_sizes: &[u64]) -> (r: Result<TileGeometry, GeometryError>)
    requires
        byte_sizes@.len() == file_count,
    ensures
        r == resolution(file_count as int, byte_sizes@),
{
    let side = resolve_grid_side(file_count)?;
    let unit = resolve_unit_side(byte_sizes)?;
    Ok(TileGeometry { tile_grid_side: side, unit_side: unit })
}

/// A byte length is a tile size exactly when it is `2 * k * k` for some natural `k`,
/// and then `k` is the tile's side.
pub proof fn lemma_tile_size_is_twice_square(bytes: int)
    ensures
        is_tile_size(bytes) <==> exists|k: nat| 2 * #[trigger] (k * k) == bytes,
        is_tile_size(bytes) ==> 2 * (tile_side(bytes) * tile_side(bytes)) == bytes,
{
    if exists|k: nat| 2 * #[trigger] (k * k) == bytes {
        let k = choose|k: nat| 2 * #[trigger] (k * k) == bytes;
        assert(bytes / 2 == k * k);
        assert(is_square(bytes / 2));
    }
    if is_tile_size(bytes) {
        let k = tile_side(bytes);
        assert(k * k == bytes / 2);
        assert(2 * (k * k) == bytes);
    }
}

/// The side of a tile of `2 * k * k` bytes is `k`.
pub proof fn lemma_tile_side_of(k: nat)
    ensures
        is_tile_size((2 * (k * k)) as int),
        tile_side((2 * (k * k)) as int) == k,
{
    let bytes = (2 * (k * k)) as int;
    lemma_tile_size_is_twice_square(bytes);
    lemma_square_unique(tile_side(bytes), k);
}

/// When some tile after the first differs in size from the first, a first such tile exists.
pub proof fn lemma_first_mismatch_exists(sizes: Seq<u64>, i: int)
    requires
        0 < i < sizes.len(),
        sizes[i] != sizes[0],
    ensures
        exists|c: int| is_first_mismatch(sizes, c),
    decreases i,
{
    if forall|j: int| 0 < j < i ==> #[trigger] sizes[j] == sizes[0] {
        assert(is_first_mismatch(sizes, i));
    } else {
        let j = choose|j: int| 0 < j < i && #[trigger] sizes[j] != sizes[0];
        lemma_first_mismatch_exists(sizes, j);
    }
}

/// With `n >= 1` tiles that all share one valid tile size, the geometry
/// resolves exactly when `n` is a square, and otherwise the failure is
/// `NotSquareFileCount`.
pub proof fn lemma_count_decides(n: usize, sizes: Seq<u64>)
    requires
        n >= 1,
        sizes.len() == n,
        is_tile_size(sizes[0] as int),
        forall|i: int| 0 <= i < n ==> #[trigger] sizes[i] == sizes[0],
    ensures
        resolution(n as int, sizes) is Ok <==> is_square(n as int),
        !is_square(n as int) ==> resolution(n as int, sizes) == Err::<TileGeometry, GeometryError>(
            GeometryError::NotSquareFileCount { count: n },
        ),
{
    assert(!has_mismatch(sizes));
}

/// With a square number of tiles that all share one byte length, that length
/// is accepted exactly when it is `2 * k * k`, and the unit side is then `k`;
/// any other length (an odd one among them) fails with `TileNotSquare`.
pub proof fn lemma_tile_size_decides(n: usize, sizes: Seq<u64>)
    requires
        n >= 1,
        is_square(n as int),
        sizes.len() == n,
        forall|i: int| 0 <= i < n ==> #[trigger] sizes[i] == sizes[0],
    ensures
        forall|k: nat|
            2 * #[trigger] (k * k) == sizes[0] ==> (resolution(n as int, sizes) matches Ok(g)
                && g.unit_side == k && g.tile_grid_side * g.tile_grid_side == n),
        !(exists|k: nat| 2 * #[trigger] (k * k) == sizes[0]) ==> resolution(n as int, sizes)
            == Err::<TileGeometry, GeometryError>(
            GeometryError::TileNotSquare { index: 0, size: sizes[0] },
        ),
{
    assert(!has_mismatch(sizes));
    lemma_tile_size_is_twice_square(sizes[0] as int);
    let s = square_root(n as int);
    lemma_root_fits(s, n as int);
    assert forall|k: nat| 2 * #[trigger] (k * k) == sizes[0] implies (resolution(n as int, sizes) matches Ok(g)
        && g.unit_side == k && g.tile_grid_side * g.tile_grid_side == n) by {
        lemma_tile_side_of(k);
        lemma_root_fits(k, (k * k) as int);
    }
}

/// Tiles whose sizes are each valid but give different unit sides are
/// rejected with `TileSizeMismatch`, naming a tile whose cell count differs
/// from `unit_side * unit_side` of the first; they are never cut down to a
/// common size.
pub proof fn lemma_mixed_sides_rejected(n: usize, sizes: Seq<u64>, i: int)
    requires
        n >= 1,
        is_square(n as int),
        sizes.len() == n,
        0 < i < n,
        forall|j: int| 0 <= j < n ==> is_tile_size(#[trigger] sizes[j] as int),
        tile_side(sizes[i] as int) != tile_side(sizes[0] as int),
    ensures
        resolution(n as int, sizes) matches Err(GeometryError::TileSizeMismatch { index, expected, actual })
            && 0 < index < n && expected == tile_side(sizes[0] as int) * tile_side(sizes[0] as int)
            && actual == sizes[index as int] / 2 && actual != expected,
{
    lemma_first_mismatch_exists(sizes, i);
    assert(has_mismatch(sizes));
    let c = choose|c: int| is_first_mismatch(sizes, c);
    assert(is_tile_size(sizes[c] as int));
    let k = tile_side(sizes[0] as int);
    assert(k * k == sizes[0] / 2);
}

/// Resolving the same inputs twice gives the same geometry, or the same error.
pub proof fn lemma_resolve_deterministic(
    file_count: usize,
    byte_sizes: Seq<u64>,
    first: Result<TileGeometry, GeometryError>,
    second: Result<TileGeometry, GeometryError>,
)
    requires
        first == resolution(file_count as int, byte_sizes),
        second == resolution(file_count as int, byte_sizes),
    ensures
        first == second,
{
}

} // verus!
