//! The choice between interpolation along the row and along the column.

use crate::cfa::{CFA, CFA_COLOR_G};
use crate::image::{lemma_area, lemma_window_area, Image, Pix2D, Pix2DView};
use crate::model::{
    across, along, cost, cost_plane, cost_taps, cost_weights, direction_plane, gradient_plane,
};
use crate::neighbours::{addressable, pixel_beside, same_size, window_beside};
use crate::raster::{
    lemma_finish, lemma_row, lemma_size, lemma_skip, lemma_start, lemma_write, partway,
};
use crate::sample::{absolute, arithmetic, num, sample, weighted_sum, Sample};
use vstd::prelude::*;

verus! {

/// The gradients of the difference between what is measured and `green`.
fn measure_gradients<T: Sample>(
    raw: &Pix2DView<'_, T>,
    cfa: &CFA,
    green: &Pix2D<T>,
    vertical: bool,
) -> (r: Pix2D<T>)
    requires
        arithmetic::<T>(),
        raw.wf(),
        addressable(raw@),
        cfa.wf(),
        green.wf(),
        same_size(green@, raw@),
    ensures
        r.wf(),
        r@ == gradient_plane(raw@, cfa@, green@, vertical),
{
    proof {
        lemma_window_area(*raw);
    }
    let mut out: Pix2D<T> = Pix2D::filled(raw.width(), raw.height(), sample::<T>(0));
    let ghost before = out@;
    let ghost after = gradient_plane(raw@, cfa@, green@, vertical);
    proof {
        lemma_start(before, after);
    }
    let mut y: usize = 0;
    while y < raw.height()
        invariant
            arithmetic::<T>(),
            raw.wf(),
            addressable(raw@),
            cfa.wf(),
            green.wf(),
            same_size(green@, raw@),
            out.wf(),
            y <= raw@.height,
            before == Image::constant(raw@.width, raw@.height, num::<T>(0)),
            after == gradient_plane(raw@, cfa@, green@, vertical),
            partway(out@, before, after, y as int, 0),
        decreases raw@.height - y,
    {
        let mut x: usize = 0;
        while x < raw.width()
            invariant
                arithmetic::<T>(),
                raw.wf(),
                addressable(raw@),
                cfa.wf(),
                green.wf(),
                same_size(green@, raw@),
                out.wf(),
                y < raw@.height,
                x <= raw@.width,
                before == Image::constant(raw@.width, raw@.height, num::<T>(0)),
                after == gradient_plane(raw@, cfa@, green@, vertical),
                partway(out@, before, after, y as int, x as int),
            decreases raw@.width - x,
        {
            proof {
                lemma_size(out@, before, after, y as int, x as int);
            }
            if cfa.color_at(y, x) != CFA_COLOR_G {
                let delta0: T = *window_beside(raw, vertical, y, x, 0) - *pixel_beside(
                    green,
                    vertical,
                    y,
                    x,
                    0,
                );
                let delta2: T = *window_beside(raw, vertical, y, x, 2) - *pixel_beside(
                    green,
                    vertical,
                    y,
                    x,
                    2,
                );
                let value: T = absolute(delta0 - delta2);
                proof {
                    lemma_write(out@, before, after, y as int, x as int, value);
                }
                *out.at_mut(y, x) = value;
            } else {
                proof {
                    lemma_skip(out@, before, after, y as int, x as int);
                }
            }
            x += 1;
        }
        proof {
            lemma_size(out@, before, after, y as int, x as int);
            lemma_row(out@, before, after, y as int);
        }
        y += 1;
    }
    proof {
        lemma_size(out@, before, after, y as int, 0);
        lemma_finish(out@, before, after);
    }
    out
}

/// The weighted sum of the eight gradients around `(y, x)`.
fn cost_at<T: Sample>(
    gradients: &Pix2D<T>,
    weights: &[T; 8],
    vertical: bool,
    y: usize,
    x: usize,
) -> (r: T)
    requires
        arithmetic::<T>(),
        gradients.wf(),
        gradients@.contains(y as int, x as int),
        addressable(gradients@),
        weights@ == cost_weights::<T>(),
    ensures
        r == cost(gradients@, vertical, y as int, x as int),
{
    let kx: [isize; 8] = [0, -2, -1, 0, -2, -1, 0, -2];
    let ky: [isize; 8] = [2, 2, 1, 0, 0, -1, -2, -2];
    let zero: T = sample::<T>(0);
    let iy: isize = y as isize;
    let ix: isize = x as isize;
    let ghost taps = cost_taps(gradients@, vertical, y as int, x as int);
    let mut acc: T = zero;
    let mut i: usize = 0;
    while i < 8
        invariant
            arithmetic::<T>(),
            gradients.wf(),
            gradients@.contains(y as int, x as int),
            addressable(gradients@),
            weights@ == cost_weights::<T>(),
            zero == num::<T>(0),
            iy == y,
            ix == x,
            forall|k: int| 0 <= k < 8 ==> #[trigger] kx@[k] == along()[k] && -2 <= kx@[k] <= 0,
            forall|k: int| 0 <= k < 8 ==> #[trigger] ky@[k] == across()[k] && -2 <= ky@[k] <= 2,
            taps == cost_taps(gradients@, vertical, y as int, x as int),
            i <= 8,
            acc == weighted_sum(cost_weights::<T>(), taps, i as nat),
        decreases 8 - i,
    {
        let value: T = if vertical {
            *gradients.at_padding(iy + kx[i], ix + ky[i], &zero)
        } else {
            *gradients.at_padding(iy + ky[i], ix + kx[i], &zero)
        };
        assert(value == taps[i as int]);
        acc = acc + weights[i] * value;
        i += 1;
    }
    acc
}

/// The costs of interpolating in the given direction.
fn measure_costs<T: Sample>(gradients: &Pix2D<T>, cfa: &CFA, vertical: bool) -> (r: Pix2D<T>)
    requires
        arithmetic::<T>(),
        gradients.wf(),
        addressable(gradients@),
        cfa.wf(),
    ensures
        r.wf(),
        r@ == cost_plane(gradients@, cfa@, vertical),
{
    proof {
        lemma_area(*gradients);
    }
    let one: T = sample::<T>(1);
    let three: T = sample::<T>(3);
    let weights: [T; 8] = [one, one, one, three, three, one, one, one];
    assert(weights@ =~= cost_weights::<T>());
    let mut out: Pix2D<T> = Pix2D::filled(gradients.width, gradients.height, sample::<T>(0));
    let ghost before = out@;
    let ghost after = cost_plane(gradients@, cfa@, vertical);
    proof {
        lemma_start(before, after);
    }
    let mut y: usize = 0;
    while y < gradients.height
        invariant
            arithmetic::<T>(),
            gradients.wf(),
            addressable(gradients@),
            cfa.wf(),
            weights@ == cost_weights::<T>(),
            out.wf(),
            y <= gradients.height,
            before == Image::constant(gradients@.width, gradients@.height, num::<T>(0)),
            after == cost_plane(gradients@, cfa@, vertical),
            partway(out@, before, after, y as int, 0),
        decreases gradients.height - y,
    {
        let mut x: usize = 0;
        while x < gradients.width
            invariant
                arithmetic::<T>(),
                gradients.wf(),
                addressable(gradients@),
                cfa.wf(),
                weights@ == cost_weights::<T>(),
                out.wf(),
                y < gradients.height,
                x <= gradients.width,
                before == Image::constant(gradients@.width, gradients@.height, num::<T>(0)),
                after == cost_plane(gradients@, cfa@, vertical),
                partway(out@, before, after, y as int, x as int),
            decreases gradients.width - x,
        {
            proof {
                lemma_size(out@, before, after, y as int, x as int);
            }
            if cfa.color_at(y, x) != CFA_COLOR_G {
                let value: T = cost_at(gradients, &weights, vertical, y, x);
                proof {
                    lemma_write(out@, before, after, y as int, x as int, value);
                }
                *out.at_mut(y, x) = value;
            } else {
                proof {
                    lemma_skip(out@, before, after, y as int, x as int);
                }
            }
            x += 1;
        }
        proof {
            lemma_size(out@, before, after, y as int, x as int);
            lemma_row(out@, before, after, y as int);
        }
        y += 1;
    }
    proof {
        lemma_size(out@, before, after, y as int, 0);
        lemma_finish(out@, before, after);
    }
    out
}

/// Chooses the direction of interpolation wherever green is not measured: 1 is along the row.
pub fn pick_direction<T: Sample>(
    raw: &Pix2DView<'_, T>,
    cfa: &CFA,
    gh: &Pix2D<T>,
    gv: &Pix2D<T>,
    dir: &mut Pix2D<u16>,
)
    requires
        arithmetic::<T>(),
        raw.wf(),
        addressable(raw@),
        cfa.wf(),
        gh.wf(),
        gv.wf(),
        old(dir).wf(),
        same_size(gh@, raw@),
        same_size(gv@, raw@),
        same_size(old(dir)@, raw@),
    ensures
        final(dir).wf(),
        final(dir)@ == direction_plane(raw@, cfa@, gh@, gv@, old(dir)@),
{
    let dh: Pix2D<T> = measure_costs(&measure_gradients(raw, cfa, gh, false), cfa, false);
    let dv: Pix2D<T> = measure_costs(&measure_gradients(raw, cfa, gv, true), cfa, true);
    let ghost before = dir@;
    let ghost after = direction_plane(raw@, cfa@, gh@, gv@, before);
    proof {
        lemma_start(before, after);
    }
    let mut y: usize = 0;
    while y < raw.height()
        invariant
            arithmetic::<T>(),
            cfa.wf(),
            dir.wf(),
            dh.wf(),
            dv.wf(),
            dh@ == cost_plane(gradient_plane(raw@, cfa@, gh@, false), cfa@, false),
            dv@ == cost_plane(gradient_plane(raw@, cfa@, gv@, true), cfa@, true),
            y <= raw@.height,
            same_size(before, raw@),
            after == direction_plane(raw@, cfa@, gh@, gv@, before),
            partway(dir@, before, after, y as int, 0),
        decreases raw@.height - y,
    {
        let mut x: usize = 0;
        while x < raw.width()
            invariant
                arithmetic::<T>(),
                cfa.wf(),
                dir.wf(),
                dh.wf(),
                dv.wf(),
                dh@ == cost_plane(gradient_plane(raw@, cfa@, gh@, false), cfa@, false),
                dv@ == cost_plane(gradient_plane(raw@, cfa@, gv@, true), cfa@, true),
                y < raw@.height,
                x <= raw@.width,
                same_size(before, raw@),
                after == direction_plane(raw@, cfa@, gh@, gv@, before),
                partway(dir@, before, after, y as int, x as int),
            decreases raw@.width - x,
        {
            proof {
                lemma_size(dir@, before, after, y as int, x as int);
            }
            if cfa.color_at(y, x) != CFA_COLOR_G {
                let value: u16 = if *dv.at(y, x) >= *dh.at(y, x) {
                    1
                } else {
                    0
                };
                proof {
                    lemma_write(dir@, before, after, y as int, x as int, value);
                }
                *dir.at_mut(y, x) = value;
            } else {
                proof {
                    lemma_skip(dir@, before, after, y as int, x as int);
                }
            }
            x += 1;
        }
        proof {
            lemma_size(dir@, before, after, y as int, x as int);
            lemma_row(dir@, before, after, y as int);
        }
        y += 1;
    }
    proof {
        lemma_size(dir@, before, after, y as int, 0);
        lemma_finish(dir@, before, after);
    }
}

} // verus!
