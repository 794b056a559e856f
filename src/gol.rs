use vstd::prelude::*;

verus! {

/// The age a cell has in the next generation, given its current age and the
/// number of live cells among its eight neighbours. A live cell survives with
/// two or three live neighbours and grows one generation older, saturating at
/// 255; a dead cell with exactly three live neighbours is born with age 1;
/// every other cell is dead in the next generation.
pub open spec fn next_age(age: u8, n: int) -> u8 {
    if age != 0 && (n == 2 || n == 3) {
        if age == 255 {
            255
        } else {
            (age + 1) as u8
        }
    } else if age == 0 && n == 3 {
        1
    } else {
        0
    }
}

/// 1 for a live cell, 0 for a dead one.
pub open spec fn live(age: u8) -> int {
    if age != 0 {
        1
    } else {
        0
    }
}

/// Byte `channel` (0 red, 1 green, 2 blue, 3 alpha) of the pixel that
/// stands for a cell of the given age: white for a live cell and black for a
/// dead one, with the age itself as alpha.
pub open spec fn pixel(age: u8, channel: int) -> u8 {
    if channel == 3 {
        age
    } else if age > 0 {
        255
    } else {
        0
    }
}

/// The rows of a pattern, as sequences of ages.
pub open spec fn rows(pattern: Seq<Vec<u8>>) -> Seq<Seq<u8>> {
    pattern.map_values(|r: Vec<u8>| r@)
}

/// Whether every offset into `pattern` is a valid `i32` coordinate.
pub open spec fn offsets_fit(pattern: Seq<Seq<u8>>) -> bool {
    &&& pattern.len() <= i32::MAX
    &&& forall|r: int| 0 <= r < pattern.len() ==> #[trigger] pattern[r].len() <= i32::MAX
}

/// The canonical glider, row by row: `010`, `001`, `111`.
pub open spec fn glider_base(r: int, c: int) -> u8 {
    if r == 2 || (r == 0 && c == 1) || (r == 1 && c == 2) {
        1
    } else {
        0
    }
}

/// The glider, mirrored left to right when `flip_x` and top to bottom when
/// `flip_y`.
pub open spec fn glider(flip_x: bool, flip_y: bool) -> Seq<Seq<u8>> {
    Seq::new(
        3,
        |r: int|
            Seq::new(
                3,
                |c: int|
                    glider_base(
                        if flip_y {
                            2 - r
                        } else {
                            r
                        },
                        if flip_x {
                            2 - c
                        } else {
                            c
                        },
                    ),
            ),
    )
}

/// One cell of the canonical glider.
fn glider_cell(r: usize, c: usize) -> (v: u8)
    ensures
        v == glider_base(r as int, c as int),
{
    if r == 2 || (r == 0 && c == 1) || (r == 1 && c == 2) {
        1
    } else {
        0
    }
}

/// Row `r` of the glider, mirrored as `glider` says.
fn glider_row(r: usize, flip_x: bool, flip_y: bool) -> (v: Vec<u8>)
    requires
        r < 3,
    ensures
        v@ == glider(flip_x, flip_y)[r as int],
{
    let sr = if flip_y {
        2 - r
    } else {
        r
    };
    let row = if flip_x {
        vec![glider_cell(sr, 2), glider_cell(sr, 1), glider_cell(sr, 0)]
    } else {
        vec![glider_cell(sr, 0), glider_cell(sr, 1), glider_cell(sr, 2)]
    };
    assert(row@ =~= glider(flip_x, flip_y)[r as int]);
    row
}

/// Relies on rand's `thread_rng` and `RngCore::next_u32`: a value drawn from
/// the thread-local generator. Nothing is promised of it.
#[verifier::external_body]
fn random_u32() -> u32 {
    rand::RngCore::next_u32(&mut rand::thread_rng())
}

/// glium's raw image, handed on to the renderer as it is.
#[verifier::external_type_specification]
#[verifier::external_body]
#[verifier::reject_recursive_types(T)]
pub struct ExRawImage2d<'a, T: Clone + 'a>(glium::texture::RawImage2d<'a, T>);

/// The pixel bytes that a glium raw image holds, in its own order (bottom
/// row first).
pub uninterp spec fn image_bytes(img: glium::texture::RawImage2d<'static, u8>) -> Seq<u8>;

/// The width in pixels that a glium raw image records.
pub uninterp spec fn image_width(img: glium::texture::RawImage2d<'static, u8>) -> u32;

/// The height in pixels that a glium raw image records.
pub uninterp spec fn image_height(img: glium::texture::RawImage2d<'static, u8>) -> u32;

/// `data`, cut into `h` rows of `row_len` bytes, with the rows in reverse
/// order and the bytes within each row kept in order.
pub open spec fn rows_reversed(data: Seq<u8>, row_len: int, h: int) -> Seq<u8> {
    Seq::new(data.len(), |j: int| data[(h - 1 - j / row_len) * row_len + j % row_len])
}

/// Relies on glium's `RawImage2d::from_raw_rgba_reversed`, which cuts RGBA
/// `data` into rows of `4 * width` bytes, reverses the order of the rows (top
/// to bottom becomes bottom to top, as OpenGL reads textures) and records both
/// dimensions as given. `chunks` panics on a zero row length, so the width
/// must not be zero.
#[verifier::external_body]
fn raw_image_reversed(data: &Vec<u8>, width: u32, height: u32) -> (r: glium::texture::RawImage2d<
    'static,
    u8,
>)
    requires
        width > 0,
        data@.len() == 4 * width * height,
    ensures
        image_bytes(r) == rows_reversed(data@, 4 * width, height as int),
        image_width(r) == width,
        image_height(r) == height,
{
    glium::texture::RawImage2d::from_raw_rgba_reversed(data, (width, height))
}

proof fn lemma_channel_of(i: int, k: int)
    requires
        0 <= i,
        0 <= k < 4,
    ensures
        (4 * i + k) / 4 == i,
        (4 * i + k) % 4 == k,
{
    assert((4 * i + k) / 4 == i && (4 * i + k) % 4 == k) by (nonlinear_arith)
        requires
            0 <= k < 4,
            0 <= i,
    ;
}

/// Conway's Game of Life.
#[derive(Clone)]
pub struct GoL {
    /// Linear vector of all cells on the board, row by row. Cells are 0 when
    /// dead. Non-zero indicates how many generations a cell has been alive.
    pub buffer: Vec<u8>,
    pub width: i32,
    pub height: i32,
}

/// The position in `0..n` that `v` wraps to on a ring of `n` positions.
fn wrap(v: i64, n: i64) -> (r: i64)
    requires
        n > 0,
    ensures
        r == v as int % n as int,
        0 <= r < n,
{
    match v.checked_rem_euclid(n) {
        Some(r) => r,
        None => 0,
    }
}

proof fn lemma_row_major_bound(x: int, y: int, w: int, h: int)
    requires
        0 <= x < w,
        0 <= y < h,
    ensures
        0 <= y * w + x < w * h,
{
    assert(0 <= y * w + x < w * h) by (nonlinear_arith)
        requires
            0 <= x < w,
            0 <= y < h,
    ;
}

impl GoL {
    /// The grid is non-empty, holds one age per cell, and its rendered form
    /// (four bytes per cell) fits in memory.
    pub open spec fn wf(&self) -> bool {
        &&& self.width > 0
        &&& self.height > 0
        &&& self.buffer@.len() == self.width * self.height
        &&& self.width * self.height * 4 <= usize::MAX
    }

    /// Where cell `(x, y)` lives in `buffer`, both coordinates first wrapped
    /// around the torus.
    pub open spec fn idx(&self, x: int, y: int) -> int {
        (y % self.height as int) * self.width + (x % self.width as int)
    }

    /// The age of cell `(x, y)`, for any integer coordinates.
    pub open spec fn cell(&self, x: int, y: int) -> u8 {
        self.buffer@[self.idx(x, y)]
    }

    /// The number of live cells among the eight toroidal neighbours of `(x, y)`.
    pub open spec fn neighbors(&self, x: int, y: int) -> int {
        live(self.cell(x - 1, y - 1)) + live(self.cell(x, y - 1)) + live(self.cell(x + 1, y - 1))
            + live(self.cell(x - 1, y)) + live(self.cell(x + 1, y)) + live(
            self.cell(x - 1, y + 1),
        ) + live(self.cell(x, y + 1)) + live(self.cell(x + 1, y + 1))
    }

    /// The age of cell `(x, y)` one generation later.
    pub open spec fn next_at(&self, x: int, y: int) -> u8 {
        next_age(self.cell(x, y), self.neighbors(x, y))
    }

    /// The whole buffer one generation later.
    pub open spec fn next_generation(&self) -> Seq<u8> {
        Seq::new(
            self.buffer@.len(),
            |i: int| self.next_at(i % self.width as int, i / self.width as int),
        )
    }

    /// The whole board in RGBA, four bytes per cell (see `pixel`), rows from
    /// top (`y == 0`) to bottom, each row from left to right.
    pub open spec fn rendered(&self) -> Seq<u8> {
        Seq::new(self.buffer@.len() * 4, |j: int| pixel(self.buffer@[j / 4], j % 4))
    }

    /// Whether some cell of `pattern`, placed with its top-left corner at
    /// `(x, y)`, lands on buffer position `k`.
    pub open spec fn covers(&self, pattern: Seq<Seq<u8>>, x: int, y: int, k: int) -> bool {
        exists|dy: int, dx: int|
            0 <= dy < pattern.len() && 0 <= dx < pattern[dy].len() && #[trigger] self.idx(
                x + dx,
                y + dy,
            ) == k
    }

    /// Whether pattern cell `(dy, dx)`, placed with the pattern's top-left
    /// corner at `(x, y)`, lands where a later cell of the pattern (read row
    /// by row) lands too. That happens only when the pattern is wider or
    /// taller than the board.
    pub open spec fn overwritten(&self, pattern: Seq<Seq<u8>>, x: int, y: int, dy: int, dx: int) -> bool {
        exists|dy2: int, dx2: int|
            0 <= dy2 < pattern.len() && 0 <= dx2 < pattern[dy2].len() && (dy2 > dy || (dy2 == dy
                && dx2 > dx)) && #[trigger] self.idx(x + dx2, y + dy2) == self.idx(x + dx, y + dy)
    }

    /// Whether `self` is `before` with `pattern` written over it row by row,
    /// top-left corner at `(x, y)`: each pattern cell that no later one lands
    /// on holds its value, and every cell that no pattern cell lands on is as
    /// it was.
    pub open spec fn is_stamp(&self, before: GoL, pattern: Seq<Seq<u8>>, x: int, y: int) -> bool {
        &&& self.wf()
        &&& self.width == before.width
        &&& self.height == before.height
        &&& forall|dy: int, dx: int|
            0 <= dy < pattern.len() && 0 <= dx < pattern[dy].len() && !before.overwritten(
                pattern,
                x,
                y,
                dy,
                dx,
            ) ==> #[trigger] self.cell(x + dx, y + dy) == pattern[dy][dx]
        &&& forall|k: int|
            0 <= k < self.buffer@.len() && !before.covers(pattern, x, y, k)
                ==> #[trigger] self.buffer@[k] == before.buffer@[k]
    }

    /// `covers`, restricted to the pattern cells that come before cell
    /// `(rx, ry)` when the pattern is read row by row.
    spec fn covers_before(&self, pattern: Seq<Seq<u8>>, x: int, y: int, k: int, ry: int, rx: int) -> bool {
        exists|dy: int, dx: int|
            0 <= dy < pattern.len() && 0 <= dx < pattern[dy].len() && (dy < ry || (dy == ry && dx
                < rx)) && #[trigger] self.idx(x + dx, y + dy) == k
    }

    /// `overwritten`, counting only the later pattern cells that come before
    /// cell `(rx, ry)`.
    spec fn overwritten_before(
        &self,
        pattern: Seq<Seq<u8>>,
        x: int,
        y: int,
        dy: int,
        dx: int,
        ry: int,
        rx: int,
    ) -> bool {
        exists|dy2: int, dx2: int|
            0 <= dy2 < pattern.len() && 0 <= dx2 < pattern[dy2].len() && (dy2 > dy || (dy2 == dy
                && dx2 > dx)) && (dy2 < ry || (dy2 == ry && dx2 < rx)) && #[trigger] self.idx(
                x + dx2,
                y + dy2,
            ) == self.idx(x + dx, y + dy)
    }

    proof fn lemma_idx_in_bounds(&self, x: int, y: int)
        requires
            self.wf(),
        ensures
            0 <= self.idx(x, y) < self.buffer@.len(),
    {
        lemma_row_major_bound(x % self.width as int, y % self.height as int, self.width as int, self.height as int);
    }

    /// An empty (all dead) board of `dims.0` columns and `dims.1` rows.
    pub fn new(dims: (usize, usize)) -> (r: GoL)
        requires
            dims.0 > 0,
            dims.1 > 0,
            dims.0 <= i32::MAX,
            dims.1 <= i32::MAX,
            dims.0 * dims.1 * 4 <= usize::MAX,
        ensures
            r.wf(),
            r.width == dims.0,
            r.height == dims.1,
            forall|i: int| 0 <= i < r.buffer@.len() ==> r.buffer@[i] == 0,
    {
        assert(dims.0 * dims.1 <= dims.0 * dims.1 * 4) by (nonlinear_arith);
        let len = dims.0 * dims.1;
        GoL { buffer: vec![0u8; len], width: dims.0 as i32, height: dims.1 as i32 }
    }

    /// The age of cell `(x, y)`, coordinates wrapped around the torus.
    pub fn get(&self, x: i64, y: i64) -> (r: u8)
        requires
            self.wf(),
        ensures
            r == self.cell(x as int, y as int),
    {
        let xm = wrap(x, self.width as i64);
        let ym = wrap(y, self.height as i64);
        proof {
            self.lemma_idx_in_bounds(x as int, y as int);
        }
        self.buffer[(ym as usize) * (self.width as usize) + xm as usize]
    }

    /// Sets the age of cell `(x, y)`, coordinates wrapped around the torus.
    pub fn set(&mut self, x: i64, y: i64, v: u8)
        requires
            old(self).wf(),
        ensures
            final(self).wf(),
            final(self).width == old(self).width,
            final(self).height == old(self).height,
            final(self).buffer@ == old(self).buffer@.update(old(self).idx(x as int, y as int), v),
    {
        let xm = wrap(x, self.width as i64);
        let ym = wrap(y, self.height as i64);
        proof {
            self.lemma_idx_in_bounds(x as int, y as int);
        }
        self.buffer.set((ym as usize) * (self.width as usize) + xm as usize, v);
    }

    /// Count living cells adjacent to a cell in the matrix.
    pub fn alive_neighbors(&self, x: i32, y: i32) -> (r: u8)
        requires
            self.wf(),
        ensures
            r == self.neighbors(x as int, y as int),
    {
        let x = x as i64;
        let y = y as i64;
        let a = self.get(x - 1, y - 1) != 0;
        let b = self.get(x, y - 1) != 0;
        let c = self.get(x + 1, y - 1) != 0;
        let d = self.get(x - 1, y) != 0;
        let e = self.get(x + 1, y) != 0;
        let f = self.get(x - 1, y + 1) != 0;
        let g = self.get(x, y + 1) != 0;
        let h = self.get(x + 1, y + 1) != 0;
        let mut total: u8 = 0;
        if a { total = total + 1; }
        if b { total = total + 1; }
        if c { total = total + 1; }
        if d { total = total + 1; }
        if e { total = total + 1; }
        if f { total = total + 1; }
        if g { total = total + 1; }
        if h { total = total + 1; }
        total
    }

    /// Execute one generation on a single cell.
    pub fn automata_rules(&self, x: i32, y: i32) -> (r: u8)
        requires
            self.wf(),
        ensures
            r == self.next_at(x as int, y as int),
    {
        let current_state = self.get(x as i64, y as i64);
        let n_neighbors = self.alive_neighbors(x, y);
        let next_state = if current_state != 0 {
            n_neighbors == 2 || n_neighbors == 3
        } else {
            n_neighbors == 3
        };
        if next_state {
            current_state.saturating_add(1)
        } else {
            0
        }
    }

    /// Execute one generation of the game. Every cell of the next generation
    /// is computed from the current one before any of it is replaced.
    pub fn step(&mut self)
        requires
            old(self).wf(),
        ensures
            final(self).wf(),
            final(self).width == old(self).width,
            final(self).height == old(self).height,
            final(self).buffer@ == old(self).next_generation(),
    {
        let mut next_gen: Vec<u8> = self.buffer.clone();
        let len = self.buffer.len();
        let w = self.width as usize;
        let mut i: usize = 0;
        while i < len
            invariant
                self.wf(),
                len == self.buffer@.len(),
                w == self.width,
                0 <= i <= len,
                next_gen@.len() == len,
                forall|j: int| 0 <= j < i ==> #[trigger] next_gen@[j] == self.next_generation()[j],
            decreases len - i,
        {
            proof {
                let h = self.height as int;
                assert((i as int) / (w as int) < h) by (nonlinear_arith)
                    requires
                        0 <= i < w * h,
                        w > 0,
                ;
            }
            let x = (i % w) as i32;
            let y = (i / w) as i32;
            let v = self.automata_rules(x, y);
            next_gen.set(i, v);
            assert(next_gen@[i as int] == self.next_generation()[i as int]);
            i = i + 1;
        }
        assert(next_gen@ =~= self.next_generation());
        self.buffer = next_gen;
    }

    /// Sets every cell from the low bit of the matching entry of `bits`: age
    /// 1 where it is set, 0 where it is clear.
    pub fn randomize_with(&mut self, bits: &Vec<u32>)
        requires
            old(self).wf(),
            bits@.len() == old(self).buffer@.len(),
        ensures
            final(self).wf(),
            final(self).width == old(self).width,
            final(self).height == old(self).height,
            final(self).buffer@.len() == old(self).buffer@.len(),
            forall|i: int|
                0 <= i < bits@.len() ==> #[trigger] final(self).buffer@[i] == (bits@[i] % 2) as u8,
    {
        let len = self.buffer.len();
        let mut index: usize = 0;
        while index < len
            invariant
                self.wf(),
                self.width == old(self).width,
                self.height == old(self).height,
                len == self.buffer@.len(),
                bits@.len() == len,
                0 <= index <= len,
                forall|i: int| 0 <= i < index ==> #[trigger] self.buffer@[i] == (bits@[i] % 2) as u8,
            decreases len - index,
        {
            let b = bits[index];
            assert(b & 1 == b % 2) by (bit_vector);
            self.buffer.set(index, (b & 1) as u8);
            index = index + 1;
        }
    }

    /// Reset and randomize all cells: each becomes 0 or 1, drawn
    /// independently from the thread-local random generator.
    pub fn randomize(&mut self)
        requires
            old(self).wf(),
        ensures
            final(self).wf(),
            final(self).width == old(self).width,
            final(self).height == old(self).height,
            forall|i: int| 0 <= i < final(self).buffer@.len() ==> #[trigger] final(self).buffer@[i] <= 1,
    {
        let len = self.buffer.len();
        let mut bits: Vec<u32> = Vec::with_capacity(len);
        let mut index: usize = 0;
        while index < len
            invariant
                0 <= index <= len,
                bits@.len() == index,
            decreases len - index,
        {
            bits.push(random_u32());
            index = index + 1;
        }
        self.randomize_with(&bits);
    }

    /// The board as RGBA bytes, as described by `rendered`.
    pub fn to_rendered_buffer(&self) -> (r: Vec<u8>)
        requires
            self.wf(),
        ensures
            r@ == self.rendered(),
    {
        let len = self.buffer.len();
        let mut image_data: Vec<u8> = Vec::with_capacity(4 * len);
        let mut index: usize = 0;
        while index < len
            invariant
                self.wf(),
                len == self.buffer@.len(),
                0 <= index <= len,
                image_data@.len() == 4 * index,
                forall|j: int| 0 <= j < 4 * index ==> #[trigger] image_data@[j] == self.rendered()[j],
            decreases len - index,
        {
            let cell = self.buffer[index];
            let val: u8 = if cell > 0 {
                255
            } else {
                0
            };
            image_data.push(val);
            image_data.push(val);
            image_data.push(val);
            image_data.push(cell);
            proof {
                let i = index as int;
                lemma_channel_of(i, 0);
                lemma_channel_of(i, 1);
                lemma_channel_of(i, 2);
                lemma_channel_of(i, 3);
                assert(image_data@[4 * i] == self.rendered()[4 * i]);
                assert(image_data@[4 * i + 1] == self.rendered()[4 * i + 1]);
                assert(image_data@[4 * i + 2] == self.rendered()[4 * i + 2]);
                assert(image_data@[4 * i + 3] == self.rendered()[4 * i + 3]);
            }
            index = index + 1;
        }
        assert(image_data@ =~= self.rendered());
        image_data
    }

    /// Convert to an image for use by Glium: the bytes of
    /// `to_rendered_buffer`, with the rows stored from bottom to top as glium
    /// and OpenGL expect, and the board's dimensions.
    pub fn as_raw_image_2d(&self) -> (r: glium::texture::RawImage2d<'static, u8>)
        requires
            self.wf(),
        ensures
            image_bytes(r) == rows_reversed(self.rendered(), 4 * self.width, self.height as int),
            image_width(r) == self.width,
            image_height(r) == self.height,
    {
        let data = self.to_rendered_buffer();
        proof {
            assert(data@.len() == 4 * self.width * self.height) by (nonlinear_arith)
                requires
                    data@.len() == self.buffer@.len() * 4,
                    self.buffer@.len() == self.width * self.height,
            ;
            assert((self.width as u32) as int == self.width as int);
            assert((self.height as u32) as int == self.height as int);
        }
        raw_image_reversed(&data, self.width as u32, self.height as u32)
    }

    /// Writes `pattern` over the board row by row with its top-left corner at
    /// `(x, y)`, row `r` of the pattern on row `y + r` of the board, wrapping
    /// around the torus. The pattern's cells replace what was there; where
    /// two of them land on the same place, the later one stays.
    pub fn insert_pattern(&mut self, pattern: Vec<Vec<u8>>, x: i32, y: i32)
        requires
            old(self).wf(),
            offsets_fit(rows(pattern@)),
        ensures
            final(self).is_stamp(*old(self), rows(pattern@), x as int, y as int),
    {
        let ghost before = *old(self);
        let ghost p = rows(pattern@);
        let ghost xi = x as int;
        let ghost yi = y as int;
        let mut y_offset: usize = 0;
        while y_offset < pattern.len()
            invariant
                self.wf(),
                self.width == before.width,
                self.height == before.height,
                before.wf(),
                xi == x as int,
                yi == y as int,
                p == rows(pattern@),
                offsets_fit(p),
                0 <= y_offset <= pattern@.len(),
                forall|dy: int, dx: int|
                    0 <= dy < y_offset && 0 <= dx < p[dy].len() && !before.overwritten_before(
                        p,
                        xi,
                        yi,
                        dy,
                        dx,
                        y_offset as int,
                        0,
                    ) ==> #[trigger] self.cell(xi + dx, yi + dy) == p[dy][dx],
                forall|k: int|
                    0 <= k < self.buffer@.len() && !before.covers_before(p, xi, yi, k, y_offset as int, 0)
                        ==> #[trigger] self.buffer@[k] == before.buffer@[k],
            decreases pattern@.len() - y_offset,
        {
            let row = &pattern[y_offset];
            let mut x_offset: usize = 0;
            while x_offset < row.len()
                invariant
                    self.wf(),
                    self.width == before.width,
                    self.height == before.height,
                    before.wf(),
                    xi == x as int,
                    yi == y as int,
                    p == rows(pattern@),
                    row@ == p[y_offset as int],
                    offsets_fit(p),
                    0 <= y_offset < pattern@.len(),
                    0 <= x_offset <= row@.len(),
                    forall|dy: int, dx: int|
                        0 <= dy < p.len() && 0 <= dx < p[dy].len() && (dy < y_offset || (dy
                            == y_offset && dx < x_offset)) && !before.overwritten_before(
                            p,
                            xi,
                            yi,
                            dy,
                            dx,
                            y_offset as int,
                            x_offset as int,
                        ) ==> #[trigger] self.cell(xi + dx, yi + dy) == p[dy][dx],
                    forall|k: int|
                        0 <= k < self.buffer@.len() && !before.covers_before(
                            p,
                            xi,
                            yi,
                            k,
                            y_offset as int,
                            x_offset as int,
                        ) ==> #[trigger] self.buffer@[k] == before.buffer@[k],
                decreases row@.len() - x_offset,
            {
                let ghost prev = *self;
                let ghost dy0 = y_offset as int;
                let ghost dx0 = x_offset as int;
                assert(p[dy0].len() <= i32::MAX);
                let v = row[x_offset];
                self.set(x as i64 + x_offset as i64, y as i64 + y_offset as i64, v);
                proof {
                    let k0 = before.idx(xi + dx0, yi + dy0);
                    before.lemma_idx_in_bounds(xi + dx0, yi + dy0);
                    assert(self.buffer@ == prev.buffer@.update(k0, p[dy0][dx0]));
                    assert forall|dy: int, dx: int|
                        0 <= dy < p.len() && 0 <= dx < p[dy].len() && (dy < dy0 || (dy == dy0 && dx
                            < dx0 + 1)) && !before.overwritten_before(p, xi, yi, dy, dx, dy0, dx0 + 1)
                            implies #[trigger] self.cell(xi + dx, yi + dy) == p[dy][dx] by {
                        before.lemma_idx_in_bounds(xi + dx, yi + dy);
                        if dy != dy0 || dx != dx0 {
                            if before.overwritten_before(p, xi, yi, dy, dx, dy0, dx0) {
                                let (dy2, dx2) = choose|dy2: int, dx2: int|
                                    0 <= dy2 < p.len() && 0 <= dx2 < p[dy2].len() && (dy2 > dy || (
                                    dy2 == dy && dx2 > dx)) && (dy2 < dy0 || (dy2 == dy0 && dx2
                                        < dx0)) && #[trigger] before.idx(xi + dx2, yi + dy2)
                                        == before.idx(xi + dx, yi + dy);
                                assert(before.idx(xi + dx2, yi + dy2) == before.idx(xi + dx, yi + dy));
                            }
                            assert(prev.cell(xi + dx, yi + dy) == p[dy][dx]);
                            if before.idx(xi + dx, yi + dy) == k0 {
                                assert(before.idx(xi + dx0, yi + dy0) == before.idx(xi + dx, yi + dy));
                            }
                        }
                    }
                    assert forall|k: int|
                        0 <= k < self.buffer@.len() && !before.covers_before(p, xi, yi, k, dy0, dx0 + 1)
                            implies #[trigger] self.buffer@[k] == before.buffer@[k] by {
                        assert(before.idx(xi + dx0, yi + dy0) == k0);
                        if before.covers_before(p, xi, yi, k, dy0, dx0) {
                            let (dy, dx) = choose|dy: int, dx: int|
                                0 <= dy < p.len() && 0 <= dx < p[dy].len() && (dy < dy0 || (dy
                                    == dy0 && dx < dx0)) && #[trigger] before.idx(xi + dx, yi + dy)
                                    == k;
                            assert(before.idx(xi + dx, yi + dy) == k);
                        }
                        assert(k != k0);
                        assert(prev.buffer@[k] == before.buffer@[k]);
                    }
                }
                x_offset = x_offset + 1;
            }
            proof {
                let rl = row@.len() as int;
                assert forall|dy: int, dx: int|
                    0 <= dy < y_offset + 1 && 0 <= dx < p[dy].len() && !before.overwritten_before(
                        p,
                        xi,
                        yi,
                        dy,
                        dx,
                        y_offset + 1,
                        0,
                    ) implies #[trigger] self.cell(xi + dx, yi + dy) == p[dy][dx] by {
                    if before.overwritten_before(p, xi, yi, dy, dx, y_offset as int, rl) {
                        let (dy2, dx2) = choose|dy2: int, dx2: int|
                            0 <= dy2 < p.len() && 0 <= dx2 < p[dy2].len() && (dy2 > dy || (dy2
                                == dy && dx2 > dx)) && (dy2 < y_offset || (dy2 == y_offset && dx2
                                < rl)) && #[trigger] before.idx(xi + dx2, yi + dy2) == before.idx(
                                xi + dx,
                                yi + dy,
                            );
                        assert(before.idx(xi + dx2, yi + dy2) == before.idx(xi + dx, yi + dy));
                    }
                }
                assert forall|k: int|
                    0 <= k < self.buffer@.len() && !before.covers_before(p, xi, yi, k, y_offset + 1, 0)
                        implies #[trigger] self.buffer@[k] == before.buffer@[k] by {
                    if before.covers_before(p, xi, yi, k, y_offset as int, rl) {
                        let (dy, dx) = choose|dy: int, dx: int|
                            0 <= dy < p.len() && 0 <= dx < p[dy].len() && (dy < y_offset || (dy
                                == y_offset && dx < rl)) && #[trigger] before.idx(xi + dx, yi + dy)
                                == k;
                        assert(before.idx(xi + dx, yi + dy) == k);
                    }
                }
            }
            y_offset = y_offset + 1;
        }
        assert forall|dy: int, dx: int|
            0 <= dy < p.len() && 0 <= dx < p[dy].len() && !before.overwritten(p, xi, yi, dy, dx)
                implies #[trigger] self.cell(xi + dx, yi + dy) == p[dy][dx] by {
            if before.overwritten_before(p, xi, yi, dy, dx, p.len() as int, 0) {
                let (dy2, dx2) = choose|dy2: int, dx2: int|
                    0 <= dy2 < p.len() && 0 <= dx2 < p[dy2].len() && (dy2 > dy || (dy2 == dy && dx2
                        > dx)) && (dy2 < p.len() || (dy2 == p.len() && dx2 < 0)) && #[trigger] before.idx(
                        xi + dx2,
                        yi + dy2,
                    ) == before.idx(xi + dx, yi + dy);
                assert(before.idx(xi + dx2, yi + dy2) == before.idx(xi + dx, yi + dy));
            }
        }
        assert forall|k: int|
            0 <= k < self.buffer@.len() && !before.covers(p, xi, yi, k) implies #[trigger] self.buffer@[k]
                == before.buffer@[k] by {
            if before.covers_before(p, xi, yi, k, p.len() as int, 0) {
                let (dy, dx) = choose|dy: int, dx: int|
                    0 <= dy < p.len() && 0 <= dx < p[dy].len() && (dy < p.len() || (dy == p.len()
                        && dx < 0)) && #[trigger] before.idx(xi + dx, yi + dy) == k;
                assert(before.idx(xi + dx, yi + dy) == k);
            }
        }
    }

    /// Writes the glider (see `glider`) over the board with its top-left
    /// corner at `(x, y)`.
    pub fn insert_glider_at(&mut self, flip_x: bool, flip_y: bool, x: i32, y: i32)
        requires
            old(self).wf(),
        ensures
            final(self).is_stamp(*old(self), glider(flip_x, flip_y), x as int, y as int),
    {
        let pattern: Vec<Vec<u8>> = vec![
            glider_row(0, flip_x, flip_y),
            glider_row(1, flip_x, flip_y),
            glider_row(2, flip_x, flip_y),
        ];
        assert(rows(pattern@) =~= glider(flip_x, flip_y));
        self.insert_pattern(pattern, x, y);
    }

    /// Writes a glider over the board as four draws of a random generator
    /// decide: it is mirrored left to right when the low bit of `flip_x_draw`
    /// is clear, and top to bottom when that of `flip_y_draw` is, and its
    /// top-left corner goes to column `x_draw % width`, row `y_draw % height`.
    pub fn insert_glider_with(&mut self, flip_x_draw: u32, flip_y_draw: u32, x_draw: u32, y_draw: u32)
        requires
            old(self).wf(),
        ensures
            final(self).is_stamp(
                *old(self),
                glider(flip_x_draw % 2 == 0, flip_y_draw % 2 == 0),
                x_draw as int % (old(self).width as int),
                y_draw as int % (old(self).height as int),
            ),
    {
        assert(flip_x_draw & 1 == flip_x_draw % 2) by (bit_vector);
        assert(flip_y_draw & 1 == flip_y_draw % 2) by (bit_vector);
        let flip_x = flip_x_draw & 1 == 0;
        let flip_y = flip_y_draw & 1 == 0;
        let x = (x_draw % (self.width as u32)) as i32;
        let y = (y_draw % (self.height as u32)) as i32;
        self.insert_glider_at(flip_x, flip_y, x, y);
    }

    /// Writes a glider over the board at a random place, mirrored left to
    /// right and top to bottom each with even chance.
    pub fn insert_glider(&mut self)
        requires
            old(self).wf(),
        ensures
            exists|flip_x: bool, flip_y: bool, x: int, y: int|
                0 <= x < old(self).width && 0 <= y < old(self).height && final(self).is_stamp(
                    *old(self),
                    glider(flip_x, flip_y),
                    x,
                    y,
                ),
    {
        let flip_x_draw = random_u32();
        let flip_y_draw = random_u32();
        let x_draw = random_u32();
        let y_draw = random_u32();
        self.insert_glider_with(flip_x_draw, flip_y_draw, x_draw, y_draw);
        assert(0 <= x_draw as int % (old(self).width as int) < old(self).width);
        assert(0 <= y_draw as int % (old(self).height as int) < old(self).height);
    }
}

/// Moving a wrapped coordinate by `a` wraps to the same place as moving the
/// coordinate itself.
proof fn lemma_wrap_add(x: int, a: int, w: int)
    requires
        w > 0,
    ensures
        ((x % w) + a) % w == (x + a) % w,
{
    vstd::arithmetic::div_mod::lemma_fundamental_div_mod(x, w);
    assert(x + a == w * (x / w) + ((x % w) + a));
    vstd::arithmetic::div_mod::lemma_mod_multiples_vanish(x / w, (x % w) + a, w);
}

/// The board is periodic: a cell seen from a wrapped coordinate is the cell
/// seen from the coordinate itself.
proof fn lemma_cell_periodic(g: GoL, x: int, y: int, a: int, b: int)
    requires
        g.wf(),
    ensures
        g.cell((x % g.width as int) + a, (y % g.height as int) + b) == g.cell(x + a, y + b),
{
    lemma_wrap_add(x, a, g.width as int);
    lemma_wrap_add(y, b, g.height as int);
}

proof fn lemma_next_at_periodic(g: GoL, x: int, y: int)
    requires
        g.wf(),
    ensures
        g.next_at(x % g.width as int, y % g.height as int) == g.next_at(x, y),
{
    lemma_cell_periodic(g, x, y, -1, -1);
    lemma_cell_periodic(g, x, y, 0, -1);
    lemma_cell_periodic(g, x, y, 1, -1);
    lemma_cell_periodic(g, x, y, -1, 0);
    lemma_cell_periodic(g, x, y, 0, 0);
    lemma_cell_periodic(g, x, y, 1, 0);
    lemma_cell_periodic(g, x, y, -1, 1);
    lemma_cell_periodic(g, x, y, 0, 1);
    lemma_cell_periodic(g, x, y, 1, 1);
    assert(g.cell(x % g.width as int, y % g.height as int) == g.cell(x, y));
}

/// Whether `after` is what `step` makes of `before`.
pub open spec fn stepped(before: GoL, after: GoL) -> bool {
    &&& after.width == before.width
    &&& after.height == before.height
    &&& after.buffer@ == before.next_generation()
}

/// After a step, every cell, at any coordinates, holds the age that the rule
/// gives it from the previous generation.
pub proof fn lemma_stepped_cell(before: GoL, after: GoL)
    requires
        before.wf(),
        stepped(before, after),
    ensures
        forall|x: int, y: int| #[trigger] after.cell(x, y) == before.next_at(x, y),
{
    let w = before.width as int;
    let h = before.height as int;
    assert forall|x: int, y: int| #[trigger] after.cell(x, y) == before.next_at(x, y) by {
        let k = before.idx(x, y);
        before.lemma_idx_in_bounds(x, y);
        vstd::arithmetic::div_mod::lemma_fundamental_div_mod_converse_mod(k, w, y % h, x % w);
        vstd::arithmetic::div_mod::lemma_fundamental_div_mod_converse_div(k, w, y % h, x % w);
        lemma_next_at_periodic(before, x, y);
        assert(after.buffer@[k] == before.next_at(k % w, k / w));
    }
}

/// The rule treats the torus the same everywhere: if board `b` is board `a`
/// moved by `(dx, dy)`, wrapping around the edges, then a step of `b` is a
/// step of `a` moved the same way. A lone cell in a corner, whose neighbours
/// lie across both edges, thus fares as it would anywhere else.
pub proof fn lemma_step_shift(a: GoL, b: GoL, a2: GoL, b2: GoL, dx: int, dy: int)
    requires
        a.wf(),
        b.wf(),
        b.width == a.width,
        b.height == a.height,
        forall|x: int, y: int| #[trigger] b.cell(x, y) == a.cell(x + dx, y + dy),
        stepped(a, a2),
        stepped(b, b2),
    ensures
        forall|x: int, y: int| #[trigger] b2.cell(x, y) == a2.cell(x + dx, y + dy),
{
    lemma_stepped_cell(a, a2);
    lemma_stepped_cell(b, b2);
    assert forall|x: int, y: int| #[trigger] b2.cell(x, y) == a2.cell(x + dx, y + dy) by {
        assert(b.cell(x - 1, y - 1) == a.cell(x + dx - 1, y + dy - 1));
        assert(b.cell(x, y - 1) == a.cell(x + dx, y + dy - 1));
        assert(b.cell(x + 1, y - 1) == a.cell(x + dx + 1, y + dy - 1));
        assert(b.cell(x - 1, y) == a.cell(x + dx - 1, y + dy));
        assert(b.cell(x, y) == a.cell(x + dx, y + dy));
        assert(b.cell(x + 1, y) == a.cell(x + dx + 1, y + dy));
        assert(b.cell(x - 1, y + 1) == a.cell(x + dx - 1, y + dy + 1));
        assert(b.cell(x, y + 1) == a.cell(x + dx, y + dy + 1));
        assert(b.cell(x + 1, y + 1) == a.cell(x + dx + 1, y + dy + 1));
    }
}

/// After a step, a cell is alive exactly when it was alive with two or three
/// live neighbours, or dead with exactly three.
pub proof fn lemma_step_rule(before: GoL, after: GoL)
    requires
        before.wf(),
        stepped(before, after),
    ensures
        forall|x: int, y: int|
            (#[trigger] after.cell(x, y) != 0) == if before.cell(x, y) != 0 {
                before.neighbors(x, y) == 2 || before.neighbors(x, y) == 3
            } else {
                before.neighbors(x, y) == 3
            },
{
    lemma_stepped_cell(before, after);
}

/// A cell that survives a step grows one generation older, but never past
/// 255: its age neither exceeds 255 nor wraps back to zero.
pub proof fn lemma_step_age(before: GoL, after: GoL)
    requires
        before.wf(),
        stepped(before, after),
    ensures
        forall|x: int, y: int|
            before.cell(x, y) != 0 && (before.neighbors(x, y) == 2 || before.neighbors(x, y) == 3)
                ==> #[trigger] after.cell(x, y) == if before.cell(x, y) == 255 {
                255
            } else {
                before.cell(x, y) + 1
            },
        forall|x: int, y: int| #[trigger] after.cell(x, y) != 0 ==> after.cell(x, y) == 1 || after.cell(x, y) == before.cell(x, y) + 1 || (after.cell(x, y) == 255 && before.cell(x, y) == 255),
{
    lemma_stepped_cell(before, after);
}

/// A cell that stays alive, with two or three live neighbours, through a run
/// of `k` steps grows one generation older per step up to 255: its age ends
/// at `min(a0 + k, 255)`, so it never exceeds 255 and never wraps to zero.
/// `boards[i + 1]` is what a step makes of `boards[i]`.
pub proof fn lemma_age_over_steps(boards: Seq<GoL>, x: int, y: int)
    requires
        boards.len() >= 1,
        forall|i: int| 0 <= i < boards.len() ==> (#[trigger] boards[i]).wf(),
        forall|i: int|
            #![trigger boards[i]]
            0 <= i < boards.len() - 1 ==> stepped(boards[i], boards[i + 1]),
        forall|i: int|
            #![trigger boards[i]]
            0 <= i < boards.len() - 1 ==> boards[i].neighbors(x, y) == 2 || boards[i].neighbors(x, y)
                == 3,
        boards[0].cell(x, y) != 0,
    ensures
        boards.last().cell(x, y) as int == if boards[0].cell(x, y) + boards.len() - 1 < 255 {
            boards[0].cell(x, y) + boards.len() - 1
        } else {
            255
        },
    decreases boards.len(),
{
    if boards.len() > 1 {
        let n = boards.len() as int;
        let prefix = boards.subrange(0, n - 1);
        assert forall|i: int| #![trigger prefix[i]] 0 <= i < prefix.len() - 1 implies stepped(prefix[i], prefix[i + 1]) by {
            assert(boards[i] == prefix[i]);
            assert(stepped(boards[i], boards[i + 1]));
        }
        lemma_age_over_steps(prefix, x, y);
        let before = boards[n - 2];
        assert(before == prefix.last());
        assert(stepped(before, boards[n - 1]));
        lemma_step_age(before, boards[n - 1]);
    }
}

/// The live cells of the canonical glider after `k` steps (`k` from 0 to
/// 4), relative to the top-left corner of the box it started in. After four
/// steps it is the starting glider moved one cell right and one down.
pub open spec fn glider_phase(k: int, dx: int, dy: int) -> bool {
    if k == 0 {
        (dx == 1 && dy == 0) || (dx == 2 && dy == 1) || (dx == 0 && dy == 2) || (dx == 1 && dy
            == 2) || (dx == 2 && dy == 2)
    } else if k == 1 {
        (dx == 0 && dy == 1) || (dx == 2 && dy == 1) || (dx == 1 && dy == 2) || (dx == 2 && dy
            == 2) || (dx == 1 && dy == 3)
    } else if k == 2 {
        (dx == 2 && dy == 1) || (dx == 0 && dy == 2) || (dx == 2 && dy == 2) || (dx == 1 && dy
            == 3) || (dx == 2 && dy == 3)
    } else if k == 3 {
        (dx == 1 && dy == 1) || (dx == 2 && dy == 2) || (dx == 3 && dy == 2) || (dx == 1 && dy
            == 3) || (dx == 2 && dy == 3)
    } else {
        (dx == 2 && dy == 1) || (dx == 3 && dy == 2) || (dx == 1 && dy == 3) || (dx == 2 && dy
            == 3) || (dx == 3 && dy == 3)
    }
}

/// Whether the live cells of a 20 x 20 board are exactly those of glider
/// phase `k` with its box's corner at `(x0, y0)`.
pub open spec fn holds_glider(g: GoL, k: int, x0: int, y0: int) -> bool {
    &&& g.wf()
    &&& g.width == 20
    &&& g.height == 20
    &&& forall|x: int, y: int|
        0 <= x < 20 && 0 <= y < 20 ==> (#[trigger] g.cell(x, y) != 0) == glider_phase(
            k,
            x - x0,
            y - y0,
        )
}

proof fn lemma_cell_wrapped(g: GoL, a: int, b: int)
    requires
        g.wf(),
    ensures
        g.cell(a, b) == g.cell(a % g.width as int, b % g.height as int),
{
    lemma_wrap_add(a, 0, g.width as int);
    lemma_wrap_add(b, 0, g.height as int);
}

#[verifier::rlimit(100)]
proof fn lemma_glider_phase_step(before: GoL, after: GoL, k: int, x0: int, y0: int)
    requires
        0 <= k < 4,
        2 <= x0 <= 14,
        2 <= y0 <= 14,
        holds_glider(before, k, x0, y0),
        stepped(before, after),
    ensures
        holds_glider(after, k + 1, x0, y0),
{
    lemma_step_rule(before, after);
    assert forall|x: int, y: int| 0 <= x < 20 && 0 <= y < 20 implies (#[trigger] after.cell(x, y)
        != 0) == glider_phase(k + 1, x - x0, y - y0) by {
        lemma_cell_wrapped(before, x - 1, y - 1);
        lemma_cell_wrapped(before, x, y - 1);
        lemma_cell_wrapped(before, x + 1, y - 1);
        lemma_cell_wrapped(before, x - 1, y);
        lemma_cell_wrapped(before, x, y);
        lemma_cell_wrapped(before, x + 1, y);
        lemma_cell_wrapped(before, x - 1, y + 1);
        lemma_cell_wrapped(before, x, y + 1);
        lemma_cell_wrapped(before, x + 1, y + 1);
        let xm = if x == 0 { 19 } else { x - 1 };
        let xp = if x == 19 { 0 } else { x + 1 };
        let ym = if y == 0 { 19 } else { y - 1 };
        let yp = if y == 19 { 0 } else { y + 1 };
        assert((x - 1) % 20 == xm && (x + 1) % 20 == xp && x % 20 == x);
        assert((y - 1) % 20 == ym && (y + 1) % 20 == yp && y % 20 == y);
        assert((before.cell(xm, ym) != 0) == glider_phase(k, xm - x0, ym - y0));
        assert((before.cell(x, ym) != 0) == glider_phase(k, x - x0, ym - y0));
        assert((before.cell(xp, ym) != 0) == glider_phase(k, xp - x0, ym - y0));
        assert((before.cell(xm, y) != 0) == glider_phase(k, xm - x0, y - y0));
        assert((before.cell(x, y) != 0) == glider_phase(k, x - x0, y - y0));
        assert((before.cell(xp, y) != 0) == glider_phase(k, xp - x0, y - y0));
        assert((before.cell(xm, yp) != 0) == glider_phase(k, xm - x0, yp - y0));
        assert((before.cell(x, yp) != 0) == glider_phase(k, x - x0, yp - y0));
        assert((before.cell(xp, yp) != 0) == glider_phase(k, xp - x0, yp - y0));
    }
}

/// A glider travels: on a 20 x 20 board whose only live cells are the
/// canonical glider, its box's top-left corner at `(x0, y0)` away from the
/// edges, four steps give the same glider moved by one cell right and one
/// down. `boards[i + 1]` is what a step makes of `boards[i]`.
pub proof fn lemma_glider_travels(boards: Seq<GoL>, x0: int, y0: int)
    requires
        boards.len() == 5,
        2 <= x0 <= 14,
        2 <= y0 <= 14,
        holds_glider(boards[0], 0, x0, y0),
        forall|i: int| #![trigger boards[i]] 0 <= i < 4 ==> stepped(boards[i], boards[i + 1]),
    ensures
        holds_glider(boards[4], 0, x0 + 1, y0 + 1),
{
    assert(stepped(boards[0], boards[1]));
    lemma_glider_phase_step(boards[0], boards[1], 0, x0, y0);
    assert(stepped(boards[1], boards[2]));
    lemma_glider_phase_step(boards[1], boards[2], 1, x0, y0);
    assert(stepped(boards[2], boards[3]));
    lemma_glider_phase_step(boards[2], boards[3], 2, x0, y0);
    assert(stepped(boards[3], boards[4]));
    lemma_glider_phase_step(boards[3], boards[4], 3, x0, y0);
}

/// The rendered buffer shows each cell as it stands: its first three bytes
/// are 255 exactly for a live cell and its fourth is the cell's age.
pub proof fn lemma_rendered_cells(g: GoL, r: Seq<u8>)
    requires
        g.wf(),
        r == g.rendered(),
    ensures
        r.len() == 4 * g.buffer@.len(),
        forall|i: int|
            0 <= i < g.buffer@.len() ==> {
                &&& (#[trigger] g.buffer@[i] != 0) == (r[4 * i] == 255)
                &&& r[4 * i] == r[4 * i + 1]
                &&& r[4 * i] == r[4 * i + 2]
                &&& r[4 * i + 3] == g.buffer@[i]
            },
{
    assert forall|i: int| 0 <= i < g.buffer@.len() implies {
        &&& (#[trigger] g.buffer@[i] != 0) == (r[4 * i] == 255)
        &&& r[4 * i] == r[4 * i + 1]
        &&& r[4 * i] == r[4 * i + 2]
        &&& r[4 * i + 3] == g.buffer@[i]
    } by {
        lemma_channel_of(i, 0);
        lemma_channel_of(i, 1);
        lemma_channel_of(i, 2);
        lemma_channel_of(i, 3);
    }
}

} // verus!
