use vstd::prelude::*;
use vstd::arithmetic::div_mod::{
    lemma_add_mod_noop_right, lemma_fundamental_div_mod_converse, lemma_mod_add_multiples_vanish,
    lemma_small_mod,
};

verus! {

/// The pixel that is rendered next, in an image of `nx` by `ny` pixels that
/// is rendered row by row. The host keeps the cursor between two pixels.
#[derive(Clone, Copy, PartialEq, Eq, Structural, Debug)]
pub struct Cursor {
    pub x: u16,
    pub y: u16,
}

/// Counting one up below `n` either stays below `n` or wraps to zero.
proof fn lemma_wrap(x: int, n: int)
    requires
        0 <= x < n,
    ensures
        (x + 1) % n == if x + 1 < n { x + 1 } else { 0 },
{
    if x + 1 < n {
        lemma_small_mod((x + 1) as nat, n as nat);
    } else {
        lemma_fundamental_div_mod_converse(x + 1, n, 1, 0);
    }
}

impl Cursor {
    /// The cursor stands on a pixel of an image of `nx` by `ny` pixels.
    pub open spec fn within(self, nx: u16, ny: u16) -> bool {
        self.x < nx && self.y < ny
    }

    /// The number of pixels that come before this one in a frame.
    pub open spec fn index(self, nx: u16) -> int {
        self.y * nx + self.x
    }

    /// The pixel after this one: the next in the row, or the first of the
    /// next row, or the first of the frame after the last row.
    pub open spec fn successor(self, nx: u16, ny: u16) -> Cursor {
        if self.x + 1 < nx {
            Cursor { x: (self.x + 1) as u16, y: self.y }
        } else if self.y + 1 < ny {
            Cursor { x: 0, y: (self.y + 1) as u16 }
        } else {
            Cursor { x: 0, y: 0 }
        }
    }

    /// The pixel reached from this one after `k` steps.
    pub open spec fn after(self, nx: u16, ny: u16, k: nat) -> Cursor
        decreases k,
    {
        if k == 0 {
            self
        } else {
            self.after(nx, ny, (k - 1) as nat).successor(nx, ny)
        }
    }

    /// The first pixel of a frame.
    pub fn start() -> (c: Cursor)
        ensures
            c == (Cursor { x: 0, y: 0 }),
    {
        Cursor { x: 0, y: 0 }
    }

    /// Where the pixel is drawn: rows are counted from the bottom of the
    /// image, so the first row is drawn at height `ny`.
    pub fn position(&self, ny: u16) -> (at: (u16, u16))
        requires
            self.y <= ny,
        ensures
            at.0 == self.x,
            at.1 == ny - self.y,
    {
        (self.x, ny - self.y)
    }

    /// Moves to the next pixel, and says whether that pixel starts a new
    /// frame.
    pub fn advance(&mut self, nx: u16, ny: u16) -> (wrapped: bool)
        requires
            old(self).within(nx, ny),
        ensures
            *final(self) == old(self).successor(nx, ny),
            final(self).within(nx, ny),
            wrapped <==> final(self).x == 0 && final(self).y == 0,
    {
        proof {
            lemma_wrap(self.x as int, nx as int);
            lemma_wrap(self.y as int, ny as int);
        }
        let next_x: u16 = (self.x + 1) % nx;
        let next_y: u16 = if next_x == 0 {
            (self.y + 1) % ny
        } else {
            self.y
        };
        self.x = next_x;
        self.y = next_y;
        next_x == 0 && next_y == 0
    }
}

/// The index of a pixel of the image is below the number of pixels.
pub proof fn lemma_index_in_frame(c: Cursor, nx: u16, ny: u16)
    requires
        c.within(nx, ny),
    ensures
        0 <= c.index(nx) < nx * ny,
        c.y * nx + nx <= nx * ny,
{
    assert(c.y * nx + nx <= ny * nx) by (nonlinear_arith)
        requires
            0 <= c.y < ny,
            0 <= nx,
    ;
    assert(0 <= c.y * nx) by (nonlinear_arith)
        requires
            0 <= c.y,
            0 <= nx,
    ;
    assert(ny * nx == nx * ny) by (nonlinear_arith);
}

/// Two pixels of the image with the same index are the same pixel.
pub proof fn lemma_index_is_one_to_one(a: Cursor, b: Cursor, nx: u16, ny: u16)
    requires
        a.within(nx, ny),
        b.within(nx, ny),
        a.index(nx) == b.index(nx),
    ensures
        a == b,
{
    assert(a.y == b.y) by (nonlinear_arith)
        requires
            a.y * nx + a.x == b.y * nx + b.x,
            0 <= a.x < nx,
            0 <= b.x < nx,
    ;
}

/// A step leads to the pixel whose index is one more, and from the last
/// pixel of a frame to the first.
pub proof fn lemma_successor_counts_up(c: Cursor, nx: u16, ny: u16)
    requires
        c.within(nx, ny),
    ensures
        c.successor(nx, ny).within(nx, ny),
        c.successor(nx, ny).index(nx) == (c.index(nx) + 1) % (nx * ny),
{
    let next = c.successor(nx, ny);
    let size = nx * ny;
    lemma_index_in_frame(c, nx, ny);
    if c.x + 1 < nx {
        lemma_small_mod((c.index(nx) + 1) as nat, size as nat);
    } else if c.y + 1 < ny {
        assert((c.y + 1) * nx == c.y * nx + nx) by (nonlinear_arith);
        lemma_index_in_frame(next, nx, ny);
        lemma_small_mod((c.index(nx) + 1) as nat, size as nat);
    } else {
        assert(c.y * nx + nx == ny * nx) by (nonlinear_arith)
            requires
                c.y + 1 == ny,
        ;
        assert(ny * nx == nx * ny) by (nonlinear_arith);
        lemma_fundamental_div_mod_converse(c.index(nx) + 1, size, 1, 0);
    }
}

/// After `k` steps the index has gone up by `k`, counted round the frame.
pub proof fn lemma_after_counts_up(c: Cursor, nx: u16, ny: u16, k: nat)
    requires
        c.within(nx, ny),
    ensures
        c.after(nx, ny, k).within(nx, ny),
        c.after(nx, ny, k).index(nx) == (c.index(nx) + k) % (nx * ny),
    decreases k,
{
    let size = nx * ny;
    lemma_index_in_frame(c, nx, ny);
    if k == 0 {
        lemma_small_mod(c.index(nx) as nat, size as nat);
    } else {
        let before = c.after(nx, ny, (k - 1) as nat);
        lemma_after_counts_up(c, nx, ny, (k - 1) as nat);
        lemma_successor_counts_up(before, nx, ny);
        lemma_add_mod_noop_right(1, c.index(nx) + k - 1, size);
    }
}

/// A frame renders every pixel exactly once: counted from the start of a
/// frame, the pixel `pixel` is reached after as many steps as its index
/// says, and after no other number of steps below the number of pixels.
pub proof fn lemma_frame_visits_each_pixel_once(nx: u16, ny: u16, pixel: Cursor)
    requires
        pixel.within(nx, ny),
    ensures
        0 <= pixel.index(nx) < nx * ny,
        (Cursor { x: 0, y: 0 }).after(nx, ny, pixel.index(nx) as nat) == pixel,
        forall|k: nat|
            k < nx * ny && #[trigger] (Cursor { x: 0, y: 0 }).after(nx, ny, k) == pixel ==> k
                == pixel.index(nx),
{
    let start = Cursor { x: 0, y: 0 };
    let size = nx * ny;
    lemma_index_in_frame(pixel, nx, ny);
    assert(start.index(nx) == 0) by (nonlinear_arith)
        requires
            start.x == 0,
            start.y == 0,
            start.index(nx) == start.y * nx + start.x,
    ;
    let k0 = pixel.index(nx) as nat;
    lemma_after_counts_up(start, nx, ny, k0);
    lemma_small_mod(k0, size as nat);
    lemma_index_is_one_to_one(start.after(nx, ny, k0), pixel, nx, ny);
    assert forall|k: nat| k < size && #[trigger] start.after(nx, ny, k) == pixel implies k
        == pixel.index(nx) by {
        lemma_after_counts_up(start, nx, ny, k);
        lemma_small_mod(k, size as nat);
    }
}

/// After as many steps as the image has pixels the cursor is back where it
/// was: frame follows frame.
pub proof fn lemma_frame_repeats(c: Cursor, nx: u16, ny: u16)
    requires
        c.within(nx, ny),
    ensures
        c.after(nx, ny, (nx * ny) as nat) == c,
{
    let size = nx * ny;
    lemma_index_in_frame(c, nx, ny);
    lemma_after_counts_up(c, nx, ny, size as nat);
    lemma_mod_add_multiples_vanish(c.index(nx), size);
    lemma_small_mod(c.index(nx) as nat, size as nat);
    lemma_index_is_one_to_one(c.after(nx, ny, size as nat), c, nx, ny);
}

} // verus!
