//! Ray–sphere intersection, shading, and frame assembly.
//!
//! The scene is fixed: one sphere of radius 0.5 centered at (0, 0, -1) in
//! front of a vertical sky gradient. The camera rig is an axis-aligned
//! viewport 4 units wide and 2 units tall, 1 unit in front of the origin
//! along -z. `render` casts one ray per pixel, shades it with `color`, and
//! assembles a row-major framebuffer whose top row is pixel row zero.

use crate::fixed::{
    abs_int, fdiv, fmul, lemma_fmul_bound, lemma_prod_bound, lemma_tdiv_bound, lemma_tdiv_ge,
    sqrt_floor, Fixed, SCALE,
};
use crate::ray::Ray;
use crate::vec3::{
    in_range, lemma_svdot_bound, sv_channel, svadd, svdot, svscale, svsub, svunit, Vec3,
};
use vstd::arithmetic::div_mod::lemma_fundamental_div_mod_converse;
use vstd::prelude::*;

verus! {

/// Magnitude limit on the scene coordinates handed to the intersector and
/// the shader.
pub const GEOM_LIMIT: i128 = 4_000_000_000;

/// Magnitude bound on the intersection parameter returned for a direction of
/// length at least one.
pub const HIT_LIMIT: i128 = 1_000_000_000_000_000;

/// Largest image side length.
pub const SIDE_LIMIT: usize = 40_000;

/// The raw value of one half.
pub open spec fn half() -> int {
    500_000
}

/// The fixed sphere center (0, 0, -1).
pub open spec fn sphere_center() -> (int, int, int) {
    (0, 0, -(SCALE as int))
}

/// The fixed sphere radius 0.5.
pub open spec fn sphere_radius() -> int {
    half()
}

/// The white end of the sky gradient.
pub open spec fn white() -> (int, int, int) {
    (SCALE as int, SCALE as int, SCALE as int)
}

/// The blue end of the sky gradient, (0.5, 0.7, 1.0).
pub open spec fn sky_blue() -> (int, int, int) {
    (half(), 700_000, SCALE as int)
}

/// The camera origin (0, 0, 0).
pub open spec fn cam_origin() -> (int, int, int) {
    (0, 0, 0)
}

/// The lower-left corner of the viewport, (-2, -1, -1).
pub open spec fn lower_left() -> (int, int, int) {
    (-2 * (SCALE as int), -(SCALE as int), -(SCALE as int))
}

/// The horizontal span of the viewport, (4, 0, 0).
pub open spec fn horizontal() -> (int, int, int) {
    (4 * (SCALE as int), 0, 0)
}

/// The vertical span of the viewport, (0, 2, 0).
pub open spec fn vertical() -> (int, int, int) {
    (0, 2 * (SCALE as int), 0)
}

/// The intersection parameter of a ray `(o, d)` against the sphere of
/// center `c` and radius `rad`: the near root of the quadratic, or the
/// sentinel -1 when the discriminant is negative.
pub open spec fn spec_hit_sphere(
    c: (int, int, int),
    rad: int,
    o: (int, int, int),
    d: (int, int, int),
) -> int {
    let oc = svsub(o, c);
    let a = svdot(d, d);
    let b = 2 * svdot(oc, d);
    let cc = svdot(oc, oc) - fmul(rad, rad);
    let disc = fmul(b, b) - fmul(4 * a, cc);
    if disc < 0 {
        -(SCALE as int)
    } else {
        fdiv(0 - b - sqrt_floor(disc * SCALE), 2 * a)
    }
}

/// The color of a ray `(o, d)`: normal shading where the fixed sphere is
/// hit at a positive parameter, otherwise the vertical sky gradient keyed
/// on the unit direction's second component. A zero direction takes the
/// gradient branch at its midpoint.
pub open spec fn spec_color(o: (int, int, int), d: (int, int, int)) -> (int, int, int) {
    let t = if d == (0int, 0int, 0int) {
        -(SCALE as int)
    } else {
        spec_hit_sphere(sphere_center(), sphere_radius(), o, d)
    };
    if t > 0 {
        let p = svadd(o, svscale(t, d));
        let n = svunit(svsub(p, sphere_center()));
        svscale(half(), svadd(n, (SCALE as int, SCALE as int, SCALE as int)))
    } else {
        let ud = svunit(d);
        let t2 = fmul(half(), ud.1 + SCALE);
        svadd(svscale(SCALE - t2, white()), svscale(t2, sky_blue()))
    }
}

/// The viewport direction of pixel `(x, y)` in an `nx` by `ny` image: row 0
/// is the top of the image, so the vertical coordinate is flipped before it
/// is mapped to the viewport.
pub open spec fn spec_pixel_dir(nx: int, ny: int, x: int, y: int) -> (int, int, int) {
    let u = fdiv(x * SCALE, nx * SCALE);
    let v = fdiv((ny - 1 - y) * SCALE, ny * SCALE);
    svadd(svadd(lower_left(), svscale(u, horizontal())), svscale(v, vertical()))
}

/// The three channels of pixel `(x, y)` in an `nx` by `ny` image.
pub open spec fn spec_pixel(nx: int, ny: int, x: int, y: int) -> Rgb {
    let col = spec_color(cam_origin(), spec_pixel_dir(nx, ny, x, y));
    Rgb { r: sv_channel(col.0) as u8, g: sv_channel(col.1) as u8, b: sv_channel(col.2) as u8 }
}

/// The pixel of a row-major framebuffer sequence at column `x` of row `y`.
pub open spec fn pixel_at(s: Seq<Rgb>, nx: int, x: int, y: int) -> Rgb {
    s[y * nx + x]
}

/// One pixel: three 8-bit channels.
#[derive(Clone, Copy, PartialEq, Eq, Structural, Debug)]
pub struct Rgb {
    pub r: u8,
    pub g: u8,
    pub b: u8,
}

/// A row-major grid of pixels; row 0 is the top of the image.
pub struct Framebuffer {
    nx: usize,
    ny: usize,
    data: Vec<Rgb>,
}

impl View for Framebuffer {
    type V = Seq<Rgb>;

    closed spec fn view(&self) -> Seq<Rgb> {
        self.data@
    }
}

impl Framebuffer {
    /// The image width.
    pub closed spec fn spec_width(&self) -> int {
        self.nx as int
    }

    /// The image height.
    pub closed spec fn spec_height(&self) -> int {
        self.ny as int
    }

    /// The stored pixels fill the grid exactly, and the sides are small
    /// enough that every index computation fits a `usize`.
    pub open spec fn wf(&self) -> bool {
        &&& self@.len() == self.spec_width() * self.spec_height()
        &&& 1 <= self.spec_width() <= SIDE_LIMIT as int
        &&& 1 <= self.spec_height() <= SIDE_LIMIT as int
    }

    /// The image width.
    pub fn width(&self) -> (r: usize)
        ensures
            r as int == self.spec_width(),
    {
        self.nx
    }

    /// The image height.
    pub fn height(&self) -> (r: usize)
        ensures
            r as int == self.spec_height(),
    {
        self.ny
    }

    /// The pixel at column `x` of row `y`.
    pub fn get(&self, x: usize, y: usize) -> (r: Rgb)
        requires
            self.wf(),
            x < self.spec_width(),
            y < self.spec_height(),
        ensures
            r == pixel_at(self@, self.spec_width(), x as int, y as int),
    {
        proof {
            assert(0 <= y * self.spec_width() + x < self.spec_width() * self.spec_height()
                && y * self.spec_width() + x < 1_600_000_000) by (nonlinear_arith)
                requires
                    0 <= x < self.spec_width() <= SIDE_LIMIT as int,
                    0 <= y < self.spec_height() <= SIDE_LIMIT as int,
                    SIDE_LIMIT == 40_000usize,
            ;
        }
        self.data[y * self.nx + x]
    }
}

/// The intersection parameter of `ray` against the sphere of the given
/// center and radius, or -1 when the ray misses. The direction must have a
/// positive squared length at the resolution of the representation.
pub fn hit_sphere(center: Vec3, radius: Fixed, ray: Ray) -> (r: Fixed)
    requires
        in_range(center@, GEOM_LIMIT as int),
        in_range(ray@.0, GEOM_LIMIT as int),
        in_range(ray@.1, GEOM_LIMIT as int),
        abs_int(radius@) <= GEOM_LIMIT,
        svdot(ray@.1, ray@.1) >= 1,
    ensures
        r@ == spec_hit_sphere(center@, radius@, ray@.0, ray@.1),
        svdot(ray@.1, ray@.1) >= SCALE ==> abs_int(r@) <= HIT_LIMIT,
{
    let oc = ray.origin().sub(center);
    let a = ray.direction().dot(ray.direction());
    let bdot = oc.dot(ray.direction());
    proof {
        lemma_svdot_bound(ray@.1, ray@.1, GEOM_LIMIT as int, GEOM_LIMIT as int,
            48_000_000_000_000);
        lemma_svdot_bound(svsub(ray@.0, center@), ray@.1, 2 * GEOM_LIMIT as int,
            GEOM_LIMIT as int, 96_000_000_000_000);
        lemma_svdot_bound(svsub(ray@.0, center@), svsub(ray@.0, center@),
            2 * GEOM_LIMIT as int, 2 * GEOM_LIMIT as int, 192_000_000_000_000);
        lemma_fmul_bound(radius@, radius@, GEOM_LIMIT as int, GEOM_LIMIT as int,
            16_000_000_000_000);
    }
    let b = Fixed::from_raw(2 * bdot.raw());
    let cc = oc.dot(oc).sub(radius.mul(radius));
    proof {
        lemma_fmul_bound(b@, b@, 192_000_000_000_000, 192_000_000_000_000,
            36_864_000_000_000_000_000_000);
        lemma_fmul_bound(4 * a@, cc@, 192_000_000_000_000, 208_000_000_000_000,
            39_936_000_000_000_000_000_000);
    }
    let disc = b.mul(b).sub(Fixed::from_raw(4 * a.raw()).mul(cc));
    if disc.raw() < 0 {
        Fixed::from_int(-1)
    } else {
        let sq = disc.sqrt();
        proof {
            assert(sq@ <= 300_000_000_000_000) by (nonlinear_arith)
                requires
                    sq@ >= 0,
                    sq@ * sq@ <= disc@ * SCALE,
                    disc@ <= 76_800_000_000_000_000_000_000,
                    SCALE == 1_000_000i128,
            ;
        }
        let num = b.neg().sub(sq);
        let den = Fixed::from_raw(2 * a.raw());
        let t = num.div(den);
        proof {
            if svdot(ray@.1, ray@.1) >= SCALE {
                lemma_prod_bound(num@, SCALE as int, 700_000_000_000_000, SCALE as int);
                assert(700_000_000_000_000 * (SCALE as int) <= HIT_LIMIT * (2 * a@))
                    by (nonlinear_arith)
                    requires
                        a@ >= SCALE,
                        SCALE == 1_000_000i128,
                        HIT_LIMIT == 1_000_000_000_000_000i128,
                ;
                lemma_tdiv_bound(num@ * SCALE, 2 * a@, HIT_LIMIT as int);
            }
        }
        t
    }
}

/// The color seen along `ray`: normal shading where the fixed sphere is hit
/// at a positive parameter, otherwise the sky gradient. The direction must
/// be exactly zero (which degenerates to the gradient's midpoint) or have a
/// squared length of at least one at the representation's resolution; a
/// shorter direction would lose its quadratic coefficient to truncation.
pub fn color(ray: Ray) -> (r: Vec3)
    requires
        in_range(ray@.0, GEOM_LIMIT as int),
        in_range(ray@.1, GEOM_LIMIT as int),
        ray@.1 == (0int, 0int, 0int) || svdot(ray@.1, ray@.1) >= SCALE,
    ensures
        r@ == spec_color(ray@.0, ray@.1),
        in_range(r@, 4 * SCALE as int),
{
    let d = ray.direction();
    let zero_dir = d.x().raw() == 0 && d.y().raw() == 0 && d.z().raw() == 0;
    let center = Vec3::new(Fixed::from_int(0), Fixed::from_int(0), Fixed::from_int(-1));
    let half_s = Fixed::from_raw(500_000);
    let one = Fixed::from_int(1);
    let t = if zero_dir {
        Fixed::from_int(-1)
    } else {
        hit_sphere(center, half_s, ray)
    };
    if t.raw() > 0 {
        proof {
            lemma_fmul_bound(t@, ray@.1.0, HIT_LIMIT as int, GEOM_LIMIT as int,
                4_000_000_000_000_000_000);
            lemma_fmul_bound(t@, ray@.1.1, HIT_LIMIT as int, GEOM_LIMIT as int,
                4_000_000_000_000_000_000);
            lemma_fmul_bound(t@, ray@.1.2, HIT_LIMIT as int, GEOM_LIMIT as int,
                4_000_000_000_000_000_000);
        }
        let p = ray.point_at(t);
        let n = p.sub(center).unit();
        let ones = Vec3::new(one, one, one);
        proof {
            lemma_fmul_bound(half_s@, n@.0 + SCALE, half(), 2 * SCALE as int, SCALE as int);
            lemma_fmul_bound(half_s@, n@.1 + SCALE, half(), 2 * SCALE as int, SCALE as int);
            lemma_fmul_bound(half_s@, n@.2 + SCALE, half(), 2 * SCALE as int, SCALE as int);
        }
        n.add(ones).scale(half_s)
    } else {
        let ud = d.unit();
        let t2 = half_s.mul(ud.y().add(one));
        proof {
            lemma_fmul_bound(half_s@, ud@.1 + SCALE, 500_000, 2 * SCALE as int, SCALE as int);
        }
        let one_minus = one.sub(t2);
        let white_v = Vec3::new(one, one, one);
        let sky_v = Vec3::new(half_s, Fixed::from_raw(700_000), one);
        proof {
            lemma_fmul_bound(one_minus@, SCALE as int, 2 * SCALE as int, SCALE as int,
                2 * SCALE as int);
            lemma_fmul_bound(t2@, SCALE as int, SCALE as int, SCALE as int, SCALE as int);
            lemma_fmul_bound(t2@, half(), SCALE as int, SCALE as int, SCALE as int);
            lemma_fmul_bound(t2@, 700_000, SCALE as int, SCALE as int, SCALE as int);
        }
        white_v.scale(one_minus).add(sky_v.scale(t2))
    }
}

/// Renders the `nx` by `ny` frame: one ray per pixel through the fixed
/// camera rig, shaded by `color`, converted to 8-bit channels, stored
/// row-major with the top row first.
pub fn render(nx: usize, ny: usize) -> (r: Framebuffer)
    requires
        1 <= nx <= SIDE_LIMIT,
        1 <= ny <= SIDE_LIMIT,
    ensures
        r.wf(),
        r.spec_width() == nx,
        r.spec_height() == ny,
        forall|x: int, y: int|
            0 <= x < nx && 0 <= y < ny ==> #[trigger] pixel_at(r@, nx as int, x, y)
                == spec_pixel(nx as int, ny as int, x, y),
{
    let fnx = Fixed::from_int(nx as i128);
    let fny = Fixed::from_int(ny as i128);
    let origin = Vec3::new(Fixed::from_int(0), Fixed::from_int(0), Fixed::from_int(0));
    let ll = Vec3::new(Fixed::from_int(-2), Fixed::from_int(-1), Fixed::from_int(-1));
    let horiz = Vec3::new(Fixed::from_int(4), Fixed::from_int(0), Fixed::from_int(0));
    let vert = Vec3::new(Fixed::from_int(0), Fixed::from_int(2), Fixed::from_int(0));
    let mut data: Vec<Rgb> = Vec::new();
    let mut y: usize = 0;
    while y < ny
        invariant
            1 <= nx <= SIDE_LIMIT,
            1 <= ny <= SIDE_LIMIT,
            y <= ny,
            fnx@ == nx * SCALE,
            fny@ == ny * SCALE,
            origin@ == cam_origin(),
            ll@ == lower_left(),
            horiz@ == horizontal(),
            vert@ == vertical(),
            data@.len() == y * nx,
            forall|k: int|
                0 <= k < data@.len() ==> data@[k] == spec_pixel(nx as int, ny as int,
                    k % (nx as int), k / (nx as int)),
        decreases ny - y,
    {
        let mut x: usize = 0;
        while x < nx
            invariant
                1 <= nx <= SIDE_LIMIT,
                1 <= ny <= SIDE_LIMIT,
                y < ny,
                x <= nx,
                fnx@ == nx * SCALE,
                fny@ == ny * SCALE,
                origin@ == cam_origin(),
                ll@ == lower_left(),
                horiz@ == horizontal(),
                vert@ == vertical(),
                data@.len() == y * nx + x,
                forall|k: int|
                    0 <= k < data@.len() ==> data@[k] == spec_pixel(nx as int, ny as int,
                        k % (nx as int), k / (nx as int)),
            decreases nx - x,
        {
            let u = Fixed::from_int(x as i128).div(fnx);
            let v = Fixed::from_int((ny - 1 - y) as i128).div(fny);
            proof {
                lemma_pixel_coord_bound(x as int, nx as int, u@);
                lemma_pixel_coord_bound((ny - 1 - y) as int, ny as int, v@);
                lemma_fmul_bound(u@, 4 * SCALE as int, SCALE as int, 4 * SCALE as int,
                    4 * SCALE as int);
                lemma_fmul_bound(u@, 0, SCALE as int, 0, 0);
                lemma_fmul_bound(v@, 2 * SCALE as int, SCALE as int, 2 * SCALE as int,
                    2 * SCALE as int);
                lemma_fmul_bound(v@, 0, SCALE as int, 0, 0);
            }
            let dir = ll.add(horiz.scale(u)).add(vert.scale(v));
            proof {
                lemma_dir_dot_ge_one(dir@);
            }
            let ray = Ray::new(origin, dir);
            let col = color(ray);
            let px = col.to_rgb();
            proof {
                lemma_fundamental_div_mod_converse(
                    (y * nx + x) as int, nx as int, y as int, x as int);
            }
            data.push(Rgb { r: px.0, g: px.1, b: px.2 });
            x = x + 1;
        }
        y = y + 1;
        proof {
            assert((y - 1) * nx + nx == y * nx) by (nonlinear_arith);
        }
    }
    proof {
        assert(ny * nx == nx * ny) by (nonlinear_arith);
    }
    let fb = Framebuffer { nx, ny, data };
    proof {
        assert(fb@.len() == fb.spec_width() * fb.spec_height());
        assert forall|x: int, y2: int|
            0 <= x < nx && 0 <= y2 < ny implies #[trigger] pixel_at(fb@, nx as int, x, y2)
            == spec_pixel(nx as int, ny as int, x, y2) by {
            assert(0 <= y2 * (nx as int) + x < (ny as int) * (nx as int)) by (nonlinear_arith)
                requires
                    0 <= x < nx as int,
                    0 <= y2 < ny as int,
            ;
            lemma_fundamental_div_mod_converse(y2 * (nx as int) + x, nx as int, y2, x);
        }
    }
    fb
}

/// A pixel coordinate `0 <= x < n` divides into a viewport coordinate
/// within `[0, 1]`: `|fdiv(x * SCALE, n * SCALE)| <= SCALE`.
proof fn lemma_pixel_coord_bound(x: int, n: int, u: int)
    requires
        0 <= x < n,
        u == fdiv(x * SCALE, n * SCALE),
    ensures
        abs_int(u) <= SCALE,
{
    assert(abs_int((x * SCALE) * SCALE) <= (SCALE as int) * (n * SCALE)) by (nonlinear_arith)
        requires
            0 <= x < n,
            SCALE == 1_000_000i128,
    ;
    assert(n * SCALE >= 1) by (nonlinear_arith)
        requires
            n >= 1,
            SCALE == 1_000_000i128,
    ;
    lemma_tdiv_bound((x * SCALE) * SCALE, n * SCALE, SCALE as int);
}

/// Every viewport direction has a squared length of at least one, because
/// its third component is exactly -1.
proof fn lemma_dir_dot_ge_one(d: (int, int, int))
    requires
        d.2 == -(SCALE as int),
    ensures
        svdot(d, d) >= SCALE,
{
    assert(d.0 * d.0 >= 0) by (nonlinear_arith);
    assert(d.1 * d.1 >= 0) by (nonlinear_arith);
    assert(d.2 * d.2 == (SCALE as int) * (SCALE as int)) by (nonlinear_arith)
        requires
            d.2 == -(SCALE as int),
    ;
    lemma_tdiv_ge(d.0 * d.0 + d.1 * d.1 + d.2 * d.2, SCALE as int, SCALE as int);
}

} // verus!
