use vstd::prelude::*;

verus! {

/// One pixel color: three 8-bit channels (red, green, blue).
#[derive(Clone, Copy, Debug, PartialEq, Eq, Structural)]
pub struct Color {
    pub r: u8,
    pub g: u8,
    pub b: u8,
}

/// One rendered pixel: three 8-bit color channels plus an alpha channel.
#[derive(Clone, Copy, Debug, PartialEq, Eq, Structural)]
pub struct Rgba {
    pub r: u8,
    pub g: u8,
    pub b: u8,
    pub a: u8,
}

/// Channel `ch` of `c` (0 red, 1 green, 2 blue), as a mathematical integer.
pub open spec fn chan(c: Color, ch: int) -> int {
    if ch == 0 {
        c.r as int
    } else if ch == 1 {
        c.g as int
    } else {
        c.b as int
    }
}

/// The sentinel color every centroid starts from: white.
pub open spec fn white() -> Color {
    Color { r: 255, g: 255, b: 255 }
}

/// Squared Euclidean distance between two colors in 3-dimensional channel
/// space. The Euclidean distance itself is the square root of this value;
/// the square root is strictly monotonic, so comparing squared distances
/// orders any two color pairs exactly as the Euclidean distance does.
pub open spec fn dist_sq(a: Color, b: Color) -> int {
    (a.r - b.r) * (a.r - b.r) + (a.g - b.g) * (a.g - b.g) + (a.b - b.b) * (a.b - b.b)
}

/// A perceptually weighted variant of `dist_sq`, scaled by 512 so that it is
/// exact over the integers: 512 times the square of the weighted distance
/// sqrt(2*dr^2 + 4*dg^2 + 3*db^2 + (rbar + dr^2 - db^2)/256), where rbar is
/// the mean of the two red channels. Scaling by a positive constant and
/// squaring both preserve the ordering of distances.
pub open spec fn dist2_scaled(a: Color, b: Color) -> int {
    let dr = a.r - b.r;
    let dg = a.g - b.g;
    let db = a.b - b.b;
    1026 * (dr * dr) + 2048 * (dg * dg) + 1534 * (db * db) + a.r + b.r
}

proof fn lemma_sq_bound(x: int)
    requires
        -255 <= x <= 255,
    ensures
        0 <= x * x <= 65025,
{
    assert(0 <= x * x <= 65025) by (nonlinear_arith)
        requires
            -255 <= x <= 255,
    ;
}

/// Dissimilarity of two colors: the squared Euclidean distance over the three
/// channels, which orders color pairs exactly as the Euclidean distance does.
pub fn cdist(a: Color, b: Color) -> (d: u32)
    ensures
        d == dist_sq(a, b),
{
    let dr: i32 = a.r as i32 - b.r as i32;
    let dg: i32 = a.g as i32 - b.g as i32;
    let db: i32 = a.b as i32 - b.b as i32;
    proof {
        lemma_sq_bound(dr as int);
        lemma_sq_bound(dg as int);
        lemma_sq_bound(db as int);
    }
    (dr * dr + dg * dg + db * db) as u32
}

/// The perceptually weighted alternative metric, as the exact integer
/// `dist2_scaled`; an order-preserving rescaling of the weighted distance.
pub fn cdist2(a: Color, b: Color) -> (d: u32)
    ensures
        d == dist2_scaled(a, b),
{
    let dr: i32 = a.r as i32 - b.r as i32;
    let dg: i32 = a.g as i32 - b.g as i32;
    let db: i32 = a.b as i32 - b.b as i32;
    proof {
        lemma_sq_bound(dr as int);
        lemma_sq_bound(dg as int);
        lemma_sq_bound(db as int);
    }
    (1026 * (dr * dr) + 2048 * (dg * dg) + 1534 * (db * db) + a.r as i32 + b.r as i32) as u32
}

} // verus!
