use vstd::prelude::*;
use crate::geometry::Bounds;

verus! {

/// The pixels of `m` after drawing `shape` with its offset `(0, 0)` at
/// `origin`: every pixel of the grid that `clip` holds and that the shape
/// covers takes the shape's value there; all other pixels keep theirs.
/// A shape maps each offset it covers to `Some(value)` and all others to `None`.
pub open spec fn paint(
    m: Map<(int, int), bool>,
    clip: Bounds,
    origin: (int, int),
    shape: spec_fn(int, int) -> Option<bool>,
) -> Map<(int, int), bool> {
    Map::new(
        |q: (int, int)| m.dom().contains(q),
        |q: (int, int)|
            {
                let s = shape(q.0 - origin.0, q.1 - origin.1);
                if clip.holds(q.0, q.1) && s is Some {
                    s->0
                } else {
                    m[q]
                }
            },
    )
}

/// The pixels of `m` after writing `value` at the point `q`, which only
/// happens when `q` is a pixel of the grid that `clip` holds.
pub open spec fn touch(m: Map<(int, int), bool>, clip: Bounds, q: (int, int), value: bool) -> Map<
    (int, int),
    bool,
> {
    if clip.holds(q.0, q.1) && m.dom().contains(q) {
        m.insert(q, value)
    } else {
        m
    }
}

/// The shape that covers nothing.
pub open spec fn nothing() -> spec_fn(int, int) -> Option<bool> {
    |i: int, j: int| None::<bool>
}

/// `shape` restricted to the offsets that `part` admits.
pub open spec fn only(shape: spec_fn(int, int) -> Option<bool>, part: spec_fn(int, int) -> bool) -> spec_fn(
    int,
    int,
) -> Option<bool> {
    |i: int, j: int|
        if part(i, j) {
            shape(i, j)
        } else {
            None
        }
}

/// Painting a shape that covers nothing changes nothing.
pub proof fn lemma_paint_nothing(m: Map<(int, int), bool>, clip: Bounds, origin: (int, int))
    ensures
        paint(m, clip, origin, nothing()) == m,
{
    assert(paint(m, clip, origin, nothing()) =~= m);
}

/// Shapes that agree everywhere paint the same pixels.
pub proof fn lemma_paint_same(
    m: Map<(int, int), bool>,
    clip: Bounds,
    origin: (int, int),
    s1: spec_fn(int, int) -> Option<bool>,
    s2: spec_fn(int, int) -> Option<bool>,
)
    requires
        forall|i: int, j: int| #[trigger] s1(i, j) == s2(i, j),
    ensures
        paint(m, clip, origin, s1) == paint(m, clip, origin, s2),
{
    assert forall|q: (int, int)| #[trigger] paint(m, clip, origin, s1).dom().contains(q) implies paint(
        m,
        clip,
        origin,
        s1,
    )[q] == paint(m, clip, origin, s2)[q] by {
        assert(s1(q.0 - origin.0, q.1 - origin.1) == s2(q.0 - origin.0, q.1 - origin.1));
    }
    assert(paint(m, clip, origin, s1) =~= paint(m, clip, origin, s2));
}

/// Writing one more pixel after painting a shape is painting the shape
/// extended (or overridden) at that offset.
pub proof fn lemma_paint_step(
    m: Map<(int, int), bool>,
    clip: Bounds,
    origin: (int, int),
    s1: spec_fn(int, int) -> Option<bool>,
    s2: spec_fn(int, int) -> Option<bool>,
    i: int,
    j: int,
    value: bool,
)
    requires
        forall|a: int, b: int| #[trigger]
            s2(a, b) == (if a == i && b == j {
                Some(value)
            } else {
                s1(a, b)
            }),
    ensures
        touch(paint(m, clip, origin, s1), clip, (origin.0 + i, origin.1 + j), value) == paint(
            m,
            clip,
            origin,
            s2,
        ),
{
    let lhs = touch(paint(m, clip, origin, s1), clip, (origin.0 + i, origin.1 + j), value);
    let rhs = paint(m, clip, origin, s2);
    assert forall|q: (int, int)| #[trigger] rhs.dom().contains(q) implies lhs[q] == rhs[q] by {
        assert(s2(q.0 - origin.0, q.1 - origin.1) == (if q.0 - origin.0 == i && q.1 - origin.1
            == j {
            Some(value)
        } else {
            s1(q.0 - origin.0, q.1 - origin.1)
        }));
    }
    assert(lhs =~= rhs);
}

/// Painting never changes which points form the grid.
pub proof fn lemma_paint_domain(
    m: Map<(int, int), bool>,
    clip: Bounds,
    origin: (int, int),
    shape: spec_fn(int, int) -> Option<bool>,
)
    ensures
        paint(m, clip, origin, shape).dom() == m.dom(),
{
    assert(paint(m, clip, origin, shape).dom() =~= m.dom());
}

/// Painting only changes pixels that `clip` holds.
pub proof fn lemma_paint_stays_inside(
    m: Map<(int, int), bool>,
    clip: Bounds,
    origin: (int, int),
    shape: spec_fn(int, int) -> Option<bool>,
    q: (int, int),
)
    requires
        m.dom().contains(q),
        !clip.holds(q.0, q.1),
    ensures
        paint(m, clip, origin, shape)[q] == m[q],
{
}


/// Writing a pixel changes at most that pixel: afterwards it reads back the
/// value written if `clip` holds it and it is on the grid, and every other
/// pixel keeps its value.
pub proof fn lemma_touch_effect(m: Map<(int, int), bool>, clip: Bounds, q: (int, int), value: bool, p: (int, int))
    requires
        m.dom().contains(p),
    ensures
        touch(m, clip, q, value).dom() == m.dom(),
        touch(m, clip, q, value)[p] == (if p == q && clip.holds(q.0, q.1) {
            value
        } else {
            m[p]
        }),
{
    if clip.holds(q.0, q.1) && m.dom().contains(q) {
        assert(m.insert(q, value).dom() =~= m.dom());
    }
}

} // verus!
