//! Images that are rewritten pixel by pixel, row after row.

use crate::image::{lemma_image_equal, Image};
use vstd::prelude::*;

verus! {

/// `cur` is what `before` has become on the way to `after`, when all pixels ahead of `(y, x)` in
/// row order have been visited.
pub closed spec fn partway<P>(
    cur: Image<P>,
    before: Image<P>,
    after: Image<P>,
    y: int,
    x: int,
) -> bool {
    &&& cur.rectangular()
    &&& after.rectangular()
    &&& cur.width == before.width == after.width
    &&& cur.height == before.height == after.height
    &&& forall|r: int, c: int| #[trigger]
        cur.contains(r, c) ==> cur.px(r, c) == if r < y || (r == y && c < x) {
            after.px(r, c)
        } else {
            before.px(r, c)
        }
}

/// Before the first pixel nothing has changed.
pub proof fn lemma_start<P>(before: Image<P>, after: Image<P>)
    requires
        before.rectangular(),
        after.rectangular(),
        before.width == after.width,
        before.height == after.height,
    ensures
        partway(before, before, after, 0, 0),
{
}

/// A pixel is written with what it shall be.
pub proof fn lemma_write<P>(
    cur: Image<P>,
    before: Image<P>,
    after: Image<P>,
    y: int,
    x: int,
    value: P,
)
    requires
        partway(cur, before, after, y, x),
        cur.contains(y, x),
        value == after.px(y, x),
    ensures
        partway(cur.update(y, x, value), before, after, y, x + 1),
{
    let next = cur.update(y, x, value);
    assert forall|r: int, c: int| #[trigger] next.contains(r, c) implies next.px(r, c) == if r < y
        || (r == y && c < x + 1) {
        after.px(r, c)
    } else {
        before.px(r, c)
    } by {
        assert(cur.contains(r, c));
    }
}

/// A pixel is left as it is.
pub proof fn lemma_skip<P>(cur: Image<P>, before: Image<P>, after: Image<P>, y: int, x: int)
    requires
        partway(cur, before, after, y, x),
        cur.contains(y, x),
        before.px(y, x) == after.px(y, x),
    ensures
        partway(cur, before, after, y, x + 1),
{
}

/// The end of a row is the start of the next.
pub proof fn lemma_row<P>(cur: Image<P>, before: Image<P>, after: Image<P>, y: int)
    requires
        partway(cur, before, after, y, cur.width as int),
    ensures
        partway(cur, before, after, y + 1, 0),
{
}

/// After the last row all pixels have been visited.
pub proof fn lemma_finish<P>(cur: Image<P>, before: Image<P>, after: Image<P>)
    requires
        partway(cur, before, after, cur.height as int, 0),
    ensures
        cur == after,
{
    lemma_image_equal(cur, after);
}

/// What a pixel holds on the way.
pub proof fn lemma_pixel<P>(
    cur: Image<P>,
    before: Image<P>,
    after: Image<P>,
    y: int,
    x: int,
    r: int,
    c: int,
)
    requires
        partway(cur, before, after, y, x),
        cur.contains(r, c),
    ensures
        cur.px(r, c) == before.px(r, c) || cur.px(r, c) == after.px(r, c),
        !(r < y || (r == y && c < x)) ==> cur.px(r, c) == before.px(r, c),
{
}

/// The images on the way have one size.
pub proof fn lemma_size<P>(cur: Image<P>, before: Image<P>, after: Image<P>, y: int, x: int)
    requires
        partway(cur, before, after, y, x),
    ensures
        cur.width == before.width == after.width,
        cur.height == before.height == after.height,
{
}

} // verus!
