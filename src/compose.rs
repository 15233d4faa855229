use vstd::prelude::*;
use crate::geometry::TileGeometry;
use vstd::arithmetic::div_mod::{lemma_fundamental_div_mod, lemma_fundamental_div_mod_converse, lemma_mod_pos_bound};

verus! {

/// Bytes in one row of one tile: two per cell.
pub open spec fn row_bytes(g: TileGeometry) -> int {
    2 * g.unit_side
}

/// Bytes in one full row of the mosaic.
pub open spec fn mosaic_row_bytes(g: TileGeometry) -> int {
    row_bytes(g) * g.tile_grid_side
}

/// Rows (of cells) in the mosaic.
pub open spec fn mosaic_rows(g: TileGeometry) -> int {
    g.unit_side * g.tile_grid_side
}

/// Bytes in one whole tile.
pub open spec fn tile_bytes(g: TileGeometry) -> int {
    row_bytes(g) * g.unit_side
}

/// The row buffer and the tile indices of `g` fit in memory.
pub open spec fn fits(g: TileGeometry) -> bool {
    &&& mosaic_row_bytes(g) <= usize::MAX
    &&& g.tile_grid_side * g.tile_grid_side <= usize::MAX
}

/// What the compositor asks for next.
#[derive(Clone, Copy, Debug, PartialEq, Eq, Structural)]
pub enum Step {
    /// Read the next `len` bytes of tile `tile_index`, one row of it, for mosaic row `row`.
    Read { tile_index: usize, row: usize, len: usize },
    /// The row buffer holds a complete mosaic row: write it out.
    WriteRow,
    /// Every mosaic row has been written.
    Done,
}

/// Why composing the mosaic stopped.
#[derive(Clone, Copy, Debug, PartialEq, Eq, Structural)]
pub enum CompositeError {
    /// A tile gave fewer bytes than one of its rows needs.
    ShortRead { tile_index: usize, row: usize, expected: usize, actual: usize },
    /// The output could not take a row.
    SinkWriteError,
}

/// The step due at mosaic row `y` once `col` tiles of that row are in the buffer.
pub open spec fn step_at(g: TileGeometry, y: int, col: int) -> Step {
    if y >= mosaic_rows(g) {
        Step::Done
    } else if col < g.tile_grid_side {
        Step::Read {
            tile_index: ((y / g.unit_side as int) * g.tile_grid_side + col) as usize,
            row: y as usize,
            len: row_bytes(g) as usize,
        }
    } else {
        Step::WriteRow
    }
}

/// The byte at column `x` of mosaic row `y`, taken from the tile it falls in.
pub open spec fn mosaic_byte(tiles: Seq<Seq<u8>>, g: TileGeometry, y: int, x: int) -> u8 {
    let rb = row_bytes(g);
    let u = g.unit_side as int;
    tiles[(y / u) * g.tile_grid_side + x / rb][(y % u) * rb + x % rb]
}

/// Mosaic row `y`: the rows `y % unit_side` of the tiles in band `y / unit_side`, left to right.
pub open spec fn mosaic_row(tiles: Seq<Seq<u8>>, g: TileGeometry, y: int) -> Seq<u8> {
    Seq::new(mosaic_row_bytes(g) as nat, |x: int| mosaic_byte(tiles, g, y, x))
}

/// The first `n` rows of the mosaic, one after the other.
pub open spec fn mosaic_prefix(tiles: Seq<Seq<u8>>, g: TileGeometry, n: int) -> Seq<u8> {
    Seq::new(n as nat, |y: int| mosaic_row(tiles, g, y)).flatten()
}

/// The whole mosaic of `tiles`, given in raster order, row after row.
pub open spec fn mosaic(tiles: Seq<Seq<u8>>, g: TileGeometry) -> Seq<u8> {
    mosaic_prefix(tiles, g, mosaic_rows(g))
}

/// The first `n` rows of the mosaic take `n` full mosaic rows of bytes.
pub proof fn lemma_mosaic_prefix_len(tiles: Seq<Seq<u8>>, g: TileGeometry, n: nat)
    ensures
        mosaic_prefix(tiles, g, n as int).len() == n * mosaic_row_bytes(g),
    decreases n,
{
    if n > 0 {
        let f = |y: int| mosaic_row(tiles, g, y);
        let m = (n - 1) as nat;
        assert(Seq::new(n, f) =~= Seq::new(m, f).push(f(m as int)));
        Seq::new(m, f).lemma_flatten_push(f(m as int));
        lemma_mosaic_prefix_len(tiles, g, m);
        assert(m * mosaic_row_bytes(g) + mosaic_row_bytes(g) == n * mosaic_row_bytes(g)) by (nonlinear_arith)
            requires
                m + 1 == n,
        ;
    } else {
        assert(Seq::new(0, |y: int| mosaic_row(tiles, g, y)) =~= Seq::<Seq<u8>>::empty());
    }
}

/// The mosaic holds every byte of every tile once, and nothing else:
/// `2 * unit_side^2 * tile_grid_side^2` bytes.
pub proof fn lemma_mosaic_len(tiles: Seq<Seq<u8>>, g: TileGeometry)
    ensures
        mosaic(tiles, g).len() == tile_bytes(g) * (g.tile_grid_side * g.tile_grid_side),
        mosaic(tiles, g).len() == 2 * (g.unit_side * g.unit_side) * (g.tile_grid_side * g.tile_grid_side),
{
    let u = g.unit_side as int;
    let s = g.tile_grid_side as int;
    lemma_mosaic_prefix_len(tiles, g, (u * s) as nat);
    assert((u * s) * ((2 * u) * s) == (2 * u) * u * (s * s)) by (nonlinear_arith);
    assert((2 * u) * u * (s * s) == 2 * (u * u) * (s * s)) by (nonlinear_arith);
}

/// Sizes that follow from `fits(g)`: the row count, and the end of the
/// buffer slot of tile column `col`, are within the row buffer's length.
proof fn lemma_fits(g: TileGeometry, col: int)
    requires
        fits(g),
    ensures
        mosaic_rows(g) <= mosaic_row_bytes(g),
        0 <= col < g.tile_grid_side ==> col * row_bytes(g) + row_bytes(g) <= mosaic_row_bytes(g),
{
    let u = g.unit_side as int;
    let s = g.tile_grid_side as int;
    assert(u * s <= (2 * u) * s) by (nonlinear_arith)
        requires
            u >= 0,
            s >= 0,
    ;
    if 0 <= col < s {
        assert(col * (2 * u) + 2 * u <= (2 * u) * s) by (nonlinear_arith)
            requires
                0 <= col < s,
                u >= 0,
        ;
    }
}

/// Within a mosaic of `s * s` tiles of side `u`, the tile at column `col` of
/// the band of row `y` has an index below `s * s`.
proof fn lemma_band_index(y: int, u: int, s: int, col: int)
    requires
        0 <= y < u * s,
        0 <= col < s,
    ensures
        u > 0,
        0 <= y / u < s,
        0 <= (y / u) * s + col < s * s,
{
    if u <= 0 {
        assert(u * s <= 0) by (nonlinear_arith)
            requires
                u <= 0,
                s > 0,
        ;
    }
    assert(0 <= y / u < s) by (nonlinear_arith)
        requires
            0 <= y < u * s,
            u > 0,
    ;
    assert((y / u) * s + col < s * s) by (nonlinear_arith)
        requires
            0 <= y / u < s,
            0 <= col < s,
    ;
}

/// Drives the interleaving of tile rows into mosaic rows, one step at a time,
/// with one reusable row buffer. The caller performs each read and write.
pub struct Compositor {
    geometry: TileGeometry,
    y: usize,
    col: usize,
    row: Vec<u8>,
}

impl Compositor {
    /// The geometry being composed.
    pub closed spec fn geometry(&self) -> TileGeometry {
        self.geometry
    }

    /// The mosaic row being assembled.
    pub closed spec fn row_index(&self) -> int {
        self.y as int
    }

    /// How many tiles of the current row are in the buffer.
    pub closed spec fn filled(&self) -> int {
        self.col as int
    }

    /// The row buffer.
    pub closed spec fn buffer(&self) -> Seq<u8> {
        self.row@
    }

    /// The compositor's invariant: its counters stay within the mosaic and
    /// the buffer holds exactly one mosaic row.
    pub closed spec fn wf(&self) -> bool {
        &&& fits(self.geometry)
        &&& self.row@.len() == mosaic_row_bytes(self.geometry)
        &&& self.y <= mosaic_rows(self.geometry)
        &&& self.col <= self.geometry.tile_grid_side
        &&& self.y == mosaic_rows(self.geometry) ==> self.col == 0
    }

    /// The step the compositor is at.
    pub open spec fn step(&self) -> Step {
        step_at(self.geometry(), self.row_index(), self.filled())
    }

    /// A compositor at the first mosaic row, or `None` when the geometry does not fit in memory.
    pub fn new(geometry: TileGeometry) -> (r: Option<Compositor>)
        ensures
            r is Some <==> fits(geometry),
            r matches Some(c) ==> {
                &&& c.wf()
                &&& c.geometry() == geometry
                &&& c.row_index() == 0
                &&& c.filled() == 0
                &&& c.buffer().len() == mosaic_row_bytes(geometry)
            },
    {
        let s = geometry.tile_grid_side;
        let u = geometry.unit_side;
        if s.checked_mul(s).is_none() {
            return None;
        }
        let w = match u.checked_mul(2) {
            Some(rb) => match rb.checked_mul(s) {
                Some(w) => w,
                None => {
                    return None;
                },
            },
            None => {
                proof {
                    if s > 0 {
                        assert(2 * u * s >= 2 * u) by (nonlinear_arith)
                            requires
                                s > 0,
                        ;
                    }
                }
                if s == 0 {
                    0
                } else {
                    return None;
                }
            },
        };
        proof {
            assert(u * s <= 2 * u * s) by (nonlinear_arith);
        }
        let row: Vec<u8> = vec![0u8; w];
        Some(Compositor { geometry, y: 0, col: 0, row })
    }

    /// The next step: read a tile row, write the buffer, or stop.
    pub fn next_step(&self) -> (r: Step)
        requires
            self.wf(),
        ensures
            r == self.step(),
    {
        let g = self.geometry;
        proof {
            lemma_fits(g, 0);
        }
        let rows = g.unit_side * g.tile_grid_side;
        if self.y >= rows {
            Step::Done
        } else if self.col < g.tile_grid_side {
            let band = self.y / g.unit_side;
            proof {
                lemma_band_index(self.y as int, g.unit_side as int, g.tile_grid_side as int, self.col as int);
            }
            Step::Read {
                tile_index: band * g.tile_grid_side + self.col,
                row: self.y,
                len: 2 * g.unit_side,
            }
        } else {
            Step::WriteRow
        }
    }

    /// Puts the bytes read for the pending `Read` step into the row buffer.
    /// A chunk shorter than a tile row is a `ShortRead`, and nothing changes.
    pub fn supply(&mut self, chunk: &[u8]) -> (r: Result<(), CompositeError>)
        requires
            old(self).wf(),
            old(self).step() is Read,
            chunk@.len() <= row_bytes(old(self).geometry()),
        ensures
            final(self).wf(),
            final(self).geometry() == old(self).geometry(),
            final(self).row_index() == old(self).row_index(),
            ({
                let g = old(self).geometry();
                let rb = row_bytes(g);
                let at = old(self).filled() * rb;
                if chunk@.len() == rb {
                    &&& r is Ok
                    &&& final(self).filled() == old(self).filled() + 1
                    &&& final(self).buffer() == old(self).buffer().subrange(0, at) + chunk@
                        + old(self).buffer().subrange(at + rb, mosaic_row_bytes(g))
                } else {
                    &&& old(self).step() matches Step::Read { tile_index, row, len }
                    &&& r == Err::<(), CompositeError>(
                        CompositeError::ShortRead { tile_index, row, expected: len, actual: chunk@.len() as usize },
                    )
                    &&& *final(self) == *old(self)
                }
            }),
    {
        let g = self.geometry;
        proof {
            lemma_fits(g, self.col as int);
        }
        let rb = 2 * g.unit_side;
        if chunk.len() < rb {
            let band = self.y / g.unit_side;
            proof {
                lemma_band_index(self.y as int, g.unit_side as int, g.tile_grid_side as int, self.col as int);
            }
            return Err(CompositeError::ShortRead {
                tile_index: band * g.tile_grid_side + self.col,
                row: self.y,
                expected: rb,
                actual: chunk.len(),
            });
        }
        let at = self.col * rb;
        let ghost before = self.row@;
        let mut j: usize = 0;
        while j < rb
            invariant
                self.wf(),
                self.geometry == g,
                rb == row_bytes(g),
                chunk@.len() == rb,
                at + rb <= self.row@.len(),
                self.row@.len() == before.len(),
                0 <= j <= rb,
                forall|i: int| 0 <= i < before.len() ==> #[trigger] self.row@[i] == if at <= i < at + j {
                    chunk@[i - at]
                } else {
                    before[i]
                },
                self.y == old(self).y,
                self.col == old(self).col,
                before == old(self).row@,
            decreases rb - j,
        {
            self.row.set(at + j, chunk[j]);
            j = j + 1;
        }
        self.col = self.col + 1;
        proof {
            assert(self.row@ =~= before.subrange(0, at as int) + chunk@ + before.subrange(at + rb, before.len() as int));
        }
        Ok(())
    }

    /// The row buffer, to be written out at a `WriteRow` step.
    pub fn row(&self) -> (r: &[u8])
        ensures
            r@ == self.buffer(),
    {
        self.row.as_slice()
    }

    /// Records that the buffer was written out and moves to the next mosaic row.
    pub fn row_written(&mut self)
        requires
            old(self).wf(),
            old(self).step() == Step::WriteRow,
        ensures
            final(self).wf(),
            final(self).geometry() == old(self).geometry(),
            final(self).row_index() == old(self).row_index() + 1,
            final(self).filled() == 0,
            final(self).buffer() == old(self).buffer(),
    {
        proof {
            lemma_fits(self.geometry, 0);
        }
        self.y = self.y + 1;
        self.col = 0;
    }
}

/// The byte views of the tiles.
pub open spec fn tile_views(tiles: Seq<Vec<u8>>) -> Seq<Seq<u8>> {
    tiles.map_values(|t: Vec<u8>| t@)
}

/// Bytes of the tile at column `cc` of band `b` that are consumed once mosaic
/// row `y` holds `col` tiles.
pub open spec fn consumed(g: TileGeometry, y: int, col: int, b: int, cc: int) -> int {
    let u = g.unit_side as int;
    if b < y / u {
        tile_bytes(g)
    } else if b == y / u {
        (y % u) * row_bytes(g) + if cc < col {
            row_bytes(g)
        } else {
            0
        }
    } else {
        0
    }
}

/// Every tile held the bytes consumed from it so far.
pub open spec fn tiles_ready(tiles: Seq<Seq<u8>>, g: TileGeometry, y: int, col: int) -> bool {
    forall|b: int, cc: int|
        0 <= b < g.tile_grid_side && 0 <= cc < g.tile_grid_side ==> #[trigger] tiles[b
            * g.tile_grid_side + cc].len() >= consumed(g, y, col, b, cc)
}

/// Bytes `start ..` of `tile`, at most `len` of them: what a read of `len`
/// bytes at offset `start` returns.
fn read_tile_row(tile: &Vec<u8>, start: usize, len: usize) -> (r: Vec<u8>)
    requires
        start <= tile@.len(),
    ensures
        r@ == tile@.subrange(start as int, if start + len <= tile@.len() {
            start + len
        } else {
            tile@.len() as int
        }),
{
    let end = if len <= tile.len() - start {
        start + len
    } else {
        tile.len()
    };
    let mut r: Vec<u8> = Vec::new();
    let mut i: usize = start;
    while i < end
        invariant
            start <= i <= end <= tile@.len(),
            r@ == tile@.subrange(start as int, i as int),
        decreases end - i,
    {
        r.push(tile[i]);
        i = i + 1;
        proof {
            assert(r@ =~= tile@.subrange(start as int, i as int));
        }
    }
    r
}

/// Row `y + 1` continues the band of row `y`, or starts the next band.
proof fn lemma_next_row(y: int, u: int)
    requires
        0 <= y,
        u > 0,
    ensures
        y % u + 1 < u ==> (y + 1) / u == y / u && (y + 1) % u == y % u + 1,
        y % u + 1 == u ==> (y + 1) / u == y / u + 1 && (y + 1) % u == 0,
{
    lemma_fundamental_div_mod(y, u);
    lemma_mod_pos_bound(y, u);
    if y % u + 1 < u {
        assert(y + 1 == (y / u) * u + (y % u + 1)) by (nonlinear_arith)
            requires
                y == u * (y / u) + y % u,
        ;
        lemma_fundamental_div_mod_converse(y + 1, u, y / u, y % u + 1);
    } else {
        assert(y + 1 == u * (y / u) + u);
        assert(y + 1 == (y / u + 1) * u) by (nonlinear_arith)
            requires
                y + 1 == u * (y / u) + u,
        ;
        lemma_fundamental_div_mod_converse(y + 1, u, y / u + 1, 0);
    }
}

/// Once every mosaic row is done, every tile was read in full.
proof fn lemma_all_ready(tv: Seq<Seq<u8>>, g: TileGeometry)
    requires
        tv.len() == g.tile_grid_side * g.tile_grid_side,
        tiles_ready(tv, g, mosaic_rows(g), 0),
    ensures
        forall|t: int| 0 <= t < tv.len() ==> #[trigger] tv[t].len() >= tile_bytes(g),
{
    let u = g.unit_side as int;
    let s = g.tile_grid_side as int;
    if u > 0 {
        lemma_fundamental_div_mod_converse(u * s, u, s, 0);
        assert(u * s == s * u) by (nonlinear_arith);
    }
    assert forall|t: int| 0 <= t < tv.len() implies #[trigger] tv[t].len() >= tile_bytes(g) by {
        if u > 0 {
            assert(s > 0) by (nonlinear_arith)
                requires
                    0 <= t < s * s,
                    s >= 0,
            ;
            lemma_fundamental_div_mod(t, s);
            lemma_mod_pos_bound(t, s);
            let b = t / s;
            let cc = t % s;
            assert(t == b * s + cc) by (nonlinear_arith)
                requires
                    t == s * (t / s) + t % s,
                    b == t / s,
                    cc == t % s,
            ;
            assert(0 <= b < s) by (nonlinear_arith)
                requires
                    t == b * s + cc,
                    0 <= cc < s,
                    0 <= t < s * s,
            ;
            assert(tv[b * s + cc].len() >= consumed(g, mosaic_rows(g), 0, b, cc));
        } else {
            assert(tile_bytes(g) == 0);
        }
    }
}

/// After a full mosaic row is written, what has been consumed of each tile
/// is what the next row starts from.
proof fn lemma_consumed_next_row(g: TileGeometry, y: int)
    requires
        g.unit_side > 0,
        0 <= y,
    ensures
        forall|b: int, cc: int|
            0 <= cc < g.tile_grid_side ==> #[trigger] consumed(g, y + 1, 0, b, cc) == consumed(
                g,
                y,
                g.tile_grid_side as int,
                b,
                cc,
            ),
{
    let u = g.unit_side as int;
    let rb = row_bytes(g);
    lemma_next_row(y, u);
    lemma_fundamental_div_mod(y, u);
    assert((y % u) * rb + rb == (y % u + 1) * rb) by (nonlinear_arith);
    assert((u - 1) * rb + rb == rb * u) by (nonlinear_arith);
}

/// Distinct band and column pairs name distinct tiles.
proof fn lemma_tile_index_unique(s: int, b1: int, c1: int, b2: int, c2: int)
    requires
        0 <= b1,
        0 <= b2,
        0 <= c1 < s,
        0 <= c2 < s,
        b1 * s + c1 == b2 * s + c2,
    ensures
        b1 == b2,
        c1 == c2,
{
    if b1 < b2 {
        assert(b1 * s + s <= b2 * s) by (nonlinear_arith)
            requires
                b1 < b2,
                s >= 0,
        ;
    } else if b2 < b1 {
        assert(b2 * s + s <= b1 * s) by (nonlinear_arith)
            requires
                b2 < b1,
                s >= 0,
        ;
    }
}

/// Composes the mosaic of `tiles`, given in raster order, reading each tile
/// front to back one row at a time through a cursor that only moves forward,
/// as a stream is read. A tile that ends before its last row
/// stops the work with `ShortRead` at the first read that comes up short:
/// every read before it found its whole row.
pub fn compose_tiles(tiles: &Vec<Vec<u8>>, geometry: TileGeometry) -> (r: Result<Vec<u8>, CompositeError>)
    requires
        tiles@.len() == geometry.tile_grid_side * geometry.tile_grid_side,
        fits(geometry),
        tile_bytes(geometry) * tiles@.len() <= usize::MAX,
    ensures
        r is Ok <==> forall|t: int|
            0 <= t < tiles@.len() ==> #[trigger] tiles@[t]@.len() >= tile_bytes(geometry),
        r matches Ok(out) ==> out@ == mosaic(tile_views(tiles@), geometry),
        r matches Err(e) ==> e matches CompositeError::ShortRead { tile_index, row, expected, actual }
            && tile_index < tiles@.len() && row < mosaic_rows(geometry) && expected == row_bytes(geometry)
            && actual < expected && tiles@[tile_index as int]@.len() == (row % geometry.unit_side) * expected
            + actual && (row / geometry.unit_side) * geometry.tile_grid_side <= tile_index < (row
                / geometry.unit_side) * geometry.tile_grid_side + geometry.tile_grid_side && tiles_ready(
                tile_views(tiles@),
                geometry,
                row as int,
                tile_index - (row / geometry.unit_side) * geometry.tile_grid_side,
            ),
{
    let g = geometry;
    let ghost tv = tile_views(tiles@);
    let ghost s = g.tile_grid_side as int;
    let ghost u = g.unit_side as int;
    let ghost rb = row_bytes(g);
    let mut c = match Compositor::new(g) {
        Some(c) => c,
        // `fits(geometry)` is required, so the compositor always exists.
        None => {
            return Err(CompositeError::SinkWriteError);
        },
    };
    let mut out: Vec<u8> = Vec::new();
    let mut cursors: Vec<usize> = vec![0usize; tiles.len()];
    proof {
        assert(out@ =~= mosaic_prefix(tv, g, 0));
        assert forall|b: int, cc: int| 0 <= b < s && 0 <= cc < s implies #[trigger] consumed(g, 0, 0, b, cc)
            == 0 by {
            if u == 0 {
                assert(tile_bytes(g) == 0 && row_bytes(g) == 0);
                assert((0int % u) * row_bytes(g) == 0);
            }
        }
        assert forall|b: int, cc: int| 0 <= b < s && 0 <= cc < s implies #[trigger] cursors@[b * s + cc]
            == consumed(g, 0, 0, b, cc) by {
            assert(0 <= b * s + cc < s * s) by (nonlinear_arith)
                requires
                    0 <= b < s,
                    0 <= cc < s,
            ;
        }
    }
    loop
        invariant
            c.wf(),
            c.geometry() == g,
            g == geometry,
            s == g.tile_grid_side,
            u == g.unit_side,
            rb == row_bytes(g),
            tv == tile_views(tiles@),
            tiles@.len() == s * s,
            tile_bytes(g) * tiles@.len() <= usize::MAX,
            out@ == mosaic_prefix(tv, g, c.row_index()),
            forall|x: int|
                0 <= x < c.filled() * rb ==> #[trigger] c.buffer()[x] == mosaic_byte(tv, g, c.row_index(), x),
            tiles_ready(tv, g, c.row_index(), c.filled()),
            cursors@.len() == s * s,
            forall|b: int, cc: int|
                0 <= b < s && 0 <= cc < s ==> #[trigger] cursors@[b * s + cc] == consumed(
                    g,
                    c.row_index(),
                    c.filled(),
                    b,
                    cc,
                ),
        decreases mosaic_rows(g) - c.row_index(), s - c.filled(),
    {
        let ghost y = c.row_index();
        let ghost col = c.filled();
        match c.next_step() {
            Step::Done => {
                proof {
                    lemma_all_ready(tv, g);
                    assert forall|t: int| 0 <= t < tiles@.len() implies #[trigger] tiles@[t]@.len()
                        >= tile_bytes(g) by {
                        assert(tv[t] == tiles@[t]@);
                    }
                }
                return Ok(out);
            },
            Step::WriteRow => {
                let row = c.row();
                let ghost before = out@;
                let mut i: usize = 0;
                while i < row.len()
                    invariant
                        0 <= i <= row@.len(),
                        out@ == before + row@.subrange(0, i as int),
                    decreases row@.len() - i,
                {
                    out.push(row[i]);
                    i = i + 1;
                    proof {
                        assert(out@ =~= before + row@.subrange(0, i as int));
                    }
                }
                proof {
                    let f = |yy: int| mosaic_row(tv, g, yy);
                    assert(s * rb == mosaic_row_bytes(g)) by (nonlinear_arith)
                        requires
                            rb == row_bytes(g),
                            s == g.tile_grid_side,
                    ;
                    assert(row@ =~= mosaic_row(tv, g, y));
                    assert(row@.subrange(0, row@.len() as int) =~= row@);
                    assert(Seq::new((y + 1) as nat, f) =~= Seq::new(y as nat, f).push(f(y)));
                    Seq::new(y as nat, f).lemma_flatten_push(f(y));
                    assert(u > 0) by (nonlinear_arith)
                        requires
                            0 <= y < u * s,
                            u >= 0,
                            s >= 0,
                    ;
                    lemma_consumed_next_row(g, y);
                    assert forall|b: int, cc: int| 0 <= b < s && 0 <= cc < s implies #[trigger] tv[b * s
                        + cc].len() >= consumed(g, y + 1, 0, b, cc) by {
                        assert(tv[b * s + cc].len() >= consumed(g, y, s, b, cc));
                    }
                    assert forall|b: int, cc: int| 0 <= b < s && 0 <= cc < s implies #[trigger] cursors@[b * s
                        + cc] == consumed(g, y + 1, 0, b, cc) by {
                        assert(cursors@[b * s + cc] == consumed(g, y, s, b, cc));
                    }
                }
                c.row_written();
            },
            Step::Read { tile_index, row, len } => {
                proof {
                    lemma_band_index(y, u, s, col);
                    lemma_fundamental_div_mod(y, u);
                    assert((y % u) * rb + rb <= tile_bytes(g)) by (nonlinear_arith)
                        requires
                            0 <= y % u < g.unit_side,
                            rb == row_bytes(g),
                    ;
                    assert(tile_bytes(g) <= tile_bytes(g) * tiles@.len()) by (nonlinear_arith)
                        requires
                            tiles@.len() >= 1,
                            tile_bytes(g) >= 0,
                    ;
                    assert(tv[(y / u) * s + col].len() >= consumed(g, y, col, y / u, col));
                    assert(tv[tile_index as int] == tiles@[tile_index as int]@);
                    assert(cursors@[(y / u) * s + col] == consumed(g, y, col, y / u, col));
                }
                let start = cursors[tile_index];
                let chunk = read_tile_row(&tiles[tile_index], start, len);
                let ghost tile = tiles@[tile_index as int]@;
                let ghost old_buf = c.buffer();
                match c.supply(chunk.as_slice()) {
                    Err(e) => {
                        proof {
                            assert(!(tiles@[tile_index as int]@.len() >= tile_bytes(g)));
                        }
                        return Err(e);
                    },
                    Ok(()) => {
                        proof {
                            let at = col * rb;
                            assert((col + 1) * rb == at + rb) by (nonlinear_arith)
                                requires
                                    at == col * rb,
                            ;
                            assert(chunk@.len() == rb);
                            assert(old_buf.len() == rb * s);
                            assert(at + rb <= rb * s) by (nonlinear_arith)
                                requires
                                    at + rb == (col + 1) * rb,
                                    col < s,
                                    rb >= 0,
                            ;
                            assert(tile.len() >= (y % u) * rb + rb);
                            assert forall|x: int| 0 <= x < (col + 1) * rb implies #[trigger] c.buffer()[x]
                                == mosaic_byte(tv, g, y, x) by {
                                if x >= at {
                                    lemma_fundamental_div_mod_converse(x, rb, col, x - at);
                                    assert(c.buffer()[x] == chunk@[x - at]);
                                    assert(chunk@[x - at] == tile[(y % u) * rb + (x - at)]);
                                    assert(tv[(y / u) * s + col] == tile);
                                } else {
                                    assert(c.buffer()[x] == old_buf[x]);
                                }
                            }
                            assert forall|b: int, cc: int| 0 <= b < s && 0 <= cc < s implies #[trigger] tv[b * s
                                + cc].len() >= consumed(g, y, col + 1, b, cc) by {
                                assert(tv[b * s + cc].len() >= consumed(g, y, col, b, cc));
                            }
                        }
                        let ghost before = cursors@;
                        cursors.set(tile_index, start + len);
                        proof {
                            assert forall|b: int, cc: int| 0 <= b < s && 0 <= cc < s implies #[trigger] cursors@[b
                                * s + cc] == consumed(g, y, col + 1, b, cc) by {
                                assert(0 <= b * s + cc < s * s) by (nonlinear_arith)
                                    requires
                                        0 <= b < s,
                                        0 <= cc < s,
                                ;
                                if b * s + cc == tile_index as int {
                                    lemma_tile_index_unique(s, b, cc, y / u, col);
                                } else {
                                    assert(before[b * s + cc] == consumed(g, y, col, b, cc));
                                }
                            }
                        }
                    },
                }
            },
        }
    }
}

} // verus!
