//! Properties that relate the scalar counter, the lane group and the raster layout.
use vstd::prelude::*;
use crate::escape::{
    bounded_steps,
    counting,
    escape_count,
    lemma_bounded_steps_char,
    lemma_counter_yields_escape_count,
    observed,
    run_counter,
    STEP_LIMIT,
};
use crate::lanes::group_step;
use crate::raster::{lemma_dims_bounds, lemma_index_in_range, RasterDimensions};

verus! {

/// The flags offered to a lane group at step `t`: lane `j` gets flag `t` of its orbit.
pub open spec fn flags_at(orbits: Seq<Seq<bool>>, t: int) -> Seq<bool> {
    Seq::new(orbits.len(), |j: int| orbits[j][t])
}

/// What a fresh lane group has consumed after the first `n` steps, lane `j`
/// following orbit `orbits[j]`.
pub open spec fn run_group(orbits: Seq<Seq<bool>>, n: nat) -> Seq<Seq<bool>>
    decreases n,
{
    if n == 0 {
        Seq::new(orbits.len(), |j: int| Seq::<bool>::empty())
    } else {
        group_step(run_group(orbits, (n - 1) as nat), flags_at(orbits, n - 1))
    }
}

/// Each lane of a group consumes exactly what a scalar counter fed the same
/// orbit consumes, step for step: predication and the monotonic mask count
/// as the scalar branch does.
pub proof fn lemma_group_matches_scalar(orbits: Seq<Seq<bool>>, n: nat)
    requires
        forall|j: int| 0 <= j < orbits.len() ==> n <= #[trigger] orbits[j].len(),
    ensures
        run_group(orbits, n).len() == orbits.len(),
        forall|j: int|
            0 <= j < orbits.len() ==> #[trigger] run_group(orbits, n)[j] == run_counter(
                orbits[j],
                n,
            ),
    decreases n,
{
    if n > 0 {
        lemma_group_matches_scalar(orbits, (n - 1) as nat);
    }
}

/// The scalar kernel and the lane-group kernel give every pixel the same
/// value: once no lane of a group iterates, which may be before the step
/// limit, each lane holds the escape count of its own orbit, the value the
/// scalar counter stops at for that orbit.
pub proof fn lemma_scalar_vector_equivalence(orbits: Seq<Seq<bool>>, n: nat)
    requires
        forall|j: int|
            0 <= j < orbits.len() ==> STEP_LIMIT <= #[trigger] orbits[j].len() && n
                <= orbits[j].len(),
        forall|j: int| 0 <= j < orbits.len() ==> !counting(#[trigger] run_group(orbits, n)[j]),
    ensures
        forall|j: int|
            0 <= j < orbits.len() ==> #[trigger] bounded_steps(run_group(orbits, n)[j])
                == escape_count(orbits[j]),
        forall|j: int|
            0 <= j < orbits.len() ==> bounded_steps(#[trigger] run_group(orbits, n)[j])
                == bounded_steps(run_counter(orbits[j], n)),
{
    lemma_group_matches_scalar(orbits, n);
    assert forall|j: int| 0 <= j < orbits.len() implies #[trigger] bounded_steps(
        run_group(orbits, n)[j],
    ) == escape_count(orbits[j]) by {
        assert(run_group(orbits, n)[j] == run_counter(orbits[j], n));
        lemma_counter_yields_escape_count(orbits[j], n);
    }
}

/// A lane's value depends on its own orbit alone: two groups whose lane `j`
/// follows the same orbit agree on that lane, whatever the other lanes do.
pub proof fn lemma_lane_independent(a: Seq<Seq<bool>>, b: Seq<Seq<bool>>, n: nat, j: int)
    requires
        forall|k: int| 0 <= k < a.len() ==> n <= #[trigger] a[k].len(),
        forall|k: int| 0 <= k < b.len() ==> n <= #[trigger] b[k].len(),
        0 <= j < a.len(),
        j < b.len(),
        a[j] == b[j],
    ensures
        run_group(a, n)[j] == run_group(b, n)[j],
{
    lemma_group_matches_scalar(a, n);
    lemma_group_matches_scalar(b, n);
}

/// An orbit that stays inside the escape radius for every observed step, as
/// the fixed point `c = 0` does, takes the ceiling value `STEP_LIMIT`.
pub proof fn lemma_bounded_orbit_count(orbit: Seq<bool>)
    requires
        STEP_LIMIT <= orbit.len(),
        forall|k: int| 0 <= k < STEP_LIMIT ==> !#[trigger] orbit[k],
    ensures
        escape_count(orbit) == STEP_LIMIT,
{
    let obs = observed(orbit);
    assert(obs.len() == STEP_LIMIT);
    assert forall|k: int| 0 <= k < STEP_LIMIT implies !#[trigger] obs[k] by {
        assert(obs[k] == orbit[k]);
    }
    lemma_bounded_steps_char(obs, STEP_LIMIT as nat);
}

/// An orbit whose first iterate already escapes counts zero.
pub proof fn lemma_first_step_escape_count(orbit: Seq<bool>)
    requires
        0 < orbit.len(),
        orbit[0],
    ensures
        escape_count(orbit) == 0,
{
    let obs = observed(orbit);
    assert(obs[0] == orbit[0]);
    lemma_bounded_steps_char(obs, 0);
}

/// Pixel `(x, y)` is lane `x % lanes` of lane group `x / lanes` of row `y`:
/// the groups of a row tile it, each pixel written by exactly one lane, and
/// the lane's position in the buffer is the pixel's own.
pub proof fn lemma_lane_placement(dims: RasterDimensions, x: nat, y: nat)
    requires
        dims.wf(),
        x < dims.spec_width(),
        y < dims.spec_height(),
    ensures
        x / dims.spec_lanes() < dims.spec_width() / dims.spec_lanes(),
        x % dims.spec_lanes() < dims.spec_lanes(),
        dims.spec_index((x / dims.spec_lanes()) * dims.spec_lanes(), y) + x % dims.spec_lanes()
            == dims.spec_index(x, y),
{
    let l = dims.spec_lanes();
    let w = dims.spec_width();
    vstd::arithmetic::div_mod::lemma_fundamental_div_mod(x as int, l as int);
    vstd::arithmetic::div_mod::lemma_fundamental_div_mod(w as int, l as int);
    assert(x / l < w / l) by {
        vstd::arithmetic::div_mod::lemma_div_is_ordered(x as int, w as int, l as int);
        if x / l == w / l {
            assert(w % l == 0);
            assert(x == (x / l) * l + x % l);
            assert(w == (w / l) * l);
        }
    }
}

/// No other lane writes pixel `x` of a row: lane `j` of group `g` is pixel
/// `g * lanes + j`, and that is `x` only for the group and lane above.
pub proof fn lemma_lane_unique(dims: RasterDimensions, g: nat, j: nat, x: nat)
    requires
        dims.wf(),
        j < dims.spec_lanes(),
        g * dims.spec_lanes() + j == x,
    ensures
        g == x / dims.spec_lanes(),
        j == x % dims.spec_lanes(),
{
    vstd::arithmetic::div_mod::lemma_fundamental_div_mod_converse(
        x as int,
        dims.spec_lanes() as int,
        g as int,
        j as int,
    );
}

/// Every pixel of the raster has its own position in the buffer, inside it.
pub proof fn lemma_buffer_positions(dims: RasterDimensions, x1: nat, y1: nat, x2: nat, y2: nat)
    requires
        dims.wf(),
        x1 < dims.spec_width(),
        y1 < dims.spec_height(),
        x2 < dims.spec_width(),
        y2 < dims.spec_height(),
    ensures
        dims.spec_index(x1, y1) < dims.spec_pixel_count(),
        dims.spec_index(x1, y1) == dims.spec_index(x2, y2) ==> x1 == x2 && y1 == y2,
{
    let w = dims.spec_width();
    lemma_index_in_range(w, dims.spec_height(), x1, y1);
    if dims.spec_index(x1, y1) == dims.spec_index(x2, y2) {
        vstd::arithmetic::div_mod::lemma_fundamental_div_mod_converse(
            (y1 * w + x1) as int,
            w as int,
            y1 as int,
            x1 as int,
        );
        vstd::arithmetic::div_mod::lemma_fundamental_div_mod_converse(
            (y2 * w + x2) as int,
            w as int,
            y2 as int,
            x2 as int,
        );
    }
}

/// Buffer position `i` is pixel `(i % width, i / width)`.
pub proof fn lemma_position_pixel(dims: RasterDimensions, i: int)
    requires
        dims.wf(),
        0 <= i < dims.spec_pixel_count(),
    ensures
        (i % dims.spec_width() as int) < dims.spec_width(),
        (i / dims.spec_width() as int) < dims.spec_height(),
        0 <= i % dims.spec_width() as int,
        0 <= i / dims.spec_width() as int,
        dims.spec_index(
            (i % dims.spec_width() as int) as u32 as nat,
            (i / dims.spec_width() as int) as u32 as nat,
        ) == i,
{
    let w = dims.spec_width() as int;
    let h = dims.spec_height() as int;
    lemma_dims_bounds(dims);
    vstd::arithmetic::div_mod::lemma_fundamental_div_mod(i, w);
    let x = i % w;
    let y = i / w;
    vstd::arithmetic::div_mod::lemma_mod_bound(i, w);
    vstd::arithmetic::div_mod::lemma_div_pos_is_pos(i, w);
    assert(y < h) by (nonlinear_arith)
        requires
            i == w * y + x,
            0 <= x,
            i < w * h,
            w > 0,
    ;
    assert(x as u32 as nat == x);
    assert(y as u32 as nat == y);
    assert(y * w == w * y) by (nonlinear_arith);
}

/// Two buffers filled pixel by pixel with the same work, which gives each
/// pixel one value, are equal, whatever either held before.
pub proof fn lemma_fill_pixels_deterministic<F: Fn(u32, u32) -> u8>(
    dims: RasterDimensions,
    a: Seq<u8>,
    b: Seq<u8>,
    count_at: F,
)
    requires
        dims.wf(),
        a.len() == dims.spec_pixel_count(),
        b.len() == dims.spec_pixel_count(),
        forall|x: u32, y: u32, v1: u8, v2: u8|
            #![trigger count_at.ensures((x, y), v1), count_at.ensures((x, y), v2)]
            count_at.ensures((x, y), v1) && count_at.ensures((x, y), v2) ==> v1 == v2,
        forall|x: u32, y: u32|
            x < dims.spec_width() && y < dims.spec_height() ==> count_at.ensures(
                (x, y),
                a[#[trigger] dims.spec_index(x as nat, y as nat) as int],
            ),
        forall|x: u32, y: u32|
            x < dims.spec_width() && y < dims.spec_height() ==> count_at.ensures(
                (x, y),
                b[#[trigger] dims.spec_index(x as nat, y as nat) as int],
            ),
    ensures
        a == b,
{
    assert forall|i: int| 0 <= i < a.len() implies a[i] == b[i] by {
        lemma_position_pixel(dims, i);
        let w = dims.spec_width() as int;
        let x = (i % w) as u32;
        let y = (i / w) as u32;
        assert(dims.spec_index(x as nat, y as nat) == i);
        assert(count_at.ensures((x, y), a[i]));
        assert(count_at.ensures((x, y), b[i]));
    }
    assert(a =~= b);
}

/// Two buffers filled group by group with the same work, which gives each
/// group one result, are equal, whatever either held before.
pub proof fn lemma_fill_groups_deterministic<F: Fn(u32, u32) -> Vec<u8>>(
    dims: RasterDimensions,
    a: Seq<u8>,
    b: Seq<u8>,
    counts_at: F,
)
    requires
        dims.wf(),
        a.len() == dims.spec_pixel_count(),
        b.len() == dims.spec_pixel_count(),
        forall|y: u32, g: u32|
            y < dims.spec_height() && g < dims.spec_width() / dims.spec_lanes()
                ==> #[trigger] counts_at.requires((y, g)),
        forall|y: u32, g: u32|
            y < dims.spec_height() && g < dims.spec_width() / dims.spec_lanes()
                && #[trigger] counts_at.requires((y, g)) ==> exists|r: Vec<u8>|
                counts_at.ensures((y, g), r),
        forall|x: u32, y: u32, r: Vec<u8>|
            #![trigger counts_at.ensures((y, (x as nat / dims.spec_lanes()) as u32), r), dims.spec_index(x as nat, y as nat)]
            x < dims.spec_width() && y < dims.spec_height() && counts_at.ensures(
                (y, (x as nat / dims.spec_lanes()) as u32),
                r,
            ) ==> r@[(x as nat % dims.spec_lanes()) as int] == a[dims.spec_index(
                x as nat,
                y as nat,
            ) as int],
        forall|x: u32, y: u32, r: Vec<u8>|
            #![trigger counts_at.ensures((y, (x as nat / dims.spec_lanes()) as u32), r), dims.spec_index(x as nat, y as nat)]
            x < dims.spec_width() && y < dims.spec_height() && counts_at.ensures(
                (y, (x as nat / dims.spec_lanes()) as u32),
                r,
            ) ==> r@[(x as nat % dims.spec_lanes()) as int] == b[dims.spec_index(
                x as nat,
                y as nat,
            ) as int],
    ensures
        a == b,
{
    assert forall|i: int| 0 <= i < a.len() implies a[i] == b[i] by {
        lemma_position_pixel(dims, i);
        let w = dims.spec_width() as int;
        let x = (i % w) as u32;
        let y = (i / w) as u32;
        lemma_lane_placement(dims, x as nat, y as nat);
        let g = (x as nat / dims.spec_lanes()) as u32;
        assert(counts_at.requires((y, g)));
        let r = choose|r: Vec<u8>| counts_at.ensures((y, g), r);
        assert(dims.spec_index(x as nat, y as nat) == i);
        assert(a[i] == r@[(x as nat % dims.spec_lanes()) as int]);
    }
    assert(a =~= b);
}

/// A buffer filled pixel by pixel and one filled by lane groups are equal
/// when each group's lane `j` gives the value that the per-pixel work gives
/// pixel `group * lanes + j`, and that work gives each pixel one value.
pub proof fn lemma_fills_agree<F: Fn(u32, u32) -> u8, G: Fn(u32, u32) -> Vec<u8>>(
    dims: RasterDimensions,
    a: Seq<u8>,
    b: Seq<u8>,
    count_at: F,
    counts_at: G,
)
    requires
        dims.wf(),
        a.len() == dims.spec_pixel_count(),
        b.len() == dims.spec_pixel_count(),
        forall|x: u32, y: u32, v1: u8, v2: u8|
            #![trigger count_at.ensures((x, y), v1), count_at.ensures((x, y), v2)]
            count_at.ensures((x, y), v1) && count_at.ensures((x, y), v2) ==> v1 == v2,
        forall|x: u32, y: u32|
            x < dims.spec_width() && y < dims.spec_height() ==> count_at.ensures(
                (x, y),
                a[#[trigger] dims.spec_index(x as nat, y as nat) as int],
            ),
        forall|y: u32, g: u32|
            y < dims.spec_height() && g < dims.spec_width() / dims.spec_lanes()
                ==> #[trigger] counts_at.requires((y, g)),
        forall|y: u32, g: u32|
            y < dims.spec_height() && g < dims.spec_width() / dims.spec_lanes()
                && #[trigger] counts_at.requires((y, g)) ==> exists|r: Vec<u8>|
                counts_at.ensures((y, g), r),
        forall|x: u32, y: u32, r: Vec<u8>|
            #![trigger counts_at.ensures((y, (x as nat / dims.spec_lanes()) as u32), r), dims.spec_index(x as nat, y as nat)]
            x < dims.spec_width() && y < dims.spec_height() && counts_at.ensures(
                (y, (x as nat / dims.spec_lanes()) as u32),
                r,
            ) ==> r@[(x as nat % dims.spec_lanes()) as int] == b[dims.spec_index(
                x as nat,
                y as nat,
            ) as int],
        forall|y: u32, g: u32, r: Vec<u8>, j: int|
            #![trigger counts_at.ensures((y, g), r), r@[j]]
            y < dims.spec_height() && g < dims.spec_width() / dims.spec_lanes() && 0 <= j
                < dims.spec_lanes() && counts_at.ensures((y, g), r) ==> count_at.ensures(
                ((g * dims.spec_lanes() + j) as u32, y),
                r@[j],
            ),
    ensures
        a == b,
{
    assert forall|i: int| 0 <= i < a.len() implies a[i] == b[i] by {
        lemma_position_pixel(dims, i);
        let w = dims.spec_width() as int;
        let x = (i % w) as u32;
        let y = (i / w) as u32;
        lemma_lane_placement(dims, x as nat, y as nat);
        vstd::arithmetic::div_mod::lemma_fundamental_div_mod(x as int, dims.spec_lanes() as int);
        let g = (x as nat / dims.spec_lanes()) as u32;
        let j = (x as nat % dims.spec_lanes()) as int;
        assert(counts_at.requires((y, g)));
        let r = choose|r: Vec<u8>| counts_at.ensures((y, g), r);
        assert(dims.spec_index(x as nat, y as nat) == i);
        assert(b[i] == r@[j]);
        assert((g * dims.spec_lanes() + j) as u32 == x);
        assert(count_at.ensures((x, y), r@[j]));
        assert(count_at.ensures((x, y), a[i]));
    }
    assert(a =~= b);
}

} // verus!
