use core::cmp::Ordering;
use vstd::prelude::*;
use vstd::std_specs::cmp::{PartialOrdIs, PartialOrdSpec};

verus! {

/// The nearest hit among `responses`: the last one that is `Some`. During the
/// scan every hit shrinks the search window, so a later hit is a closer one.
pub open spec fn last_hit<T, X>(responses: Seq<Option<(T, X)>>) -> Option<(T, X)>
    decreases responses.len(),
{
    if responses.len() == 0 {
        None
    } else {
        match responses.last() {
            Some(h) => Some(h),
            None => last_hit(responses.drop_last()),
        }
    }
}

/// The far end of the search window after `responses`: the ray parameter of
/// the nearest hit so far, or `t_max` while nothing was hit.
pub open spec fn window_end<T, X>(t_max: T, responses: Seq<Option<(T, X)>>) -> T {
    match last_hit(responses) {
        Some(h) => h.0,
        None => t_max,
    }
}

/// `responses` is what a closest-hit scan over `list` can have received:
/// primitive `i` was asked with `t_min` and the window end left by the
/// responses before it.
pub open spec fn is_scan<P, T, X, F: Fn(&P, T, T) -> Option<(T, X)>>(
    list: Seq<P>,
    t_min: T,
    t_max: T,
    intersect: F,
    responses: Seq<Option<(T, X)>>,
) -> bool {
    &&& responses.len() == list.len()
    &&& forall|i: int|
        0 <= i < list.len() ==> #[trigger] intersect.ensures(
            (&list[i], t_min, window_end(t_max, responses.take(i))),
            responses[i],
        )
}

/// `t` lies strictly inside the window `(t_min, t_max)`.
pub open spec fn in_window<T: PartialOrd>(t: T, t_min: T, t_max: T) -> bool {
    t.is_lt(&t_max) && t.is_gt(&t_min)
}

/// Chooses where a ray meets a sphere from the two roots of its quadratic,
/// `near <= far`: the nearer root if it lies strictly inside `(t_min, t_max)`,
/// else the farther one if it does, else none. A root on either end of the
/// window is rejected.
pub fn nearest_root<T: PartialOrd>(near: T, far: T, t_min: T, t_max: T) -> (r: Option<T>)
    ensures
        r == Some(near) || r == Some(far) || r is None,
        T::obeys_partial_cmp_spec() ==> {
            &&& in_window(near, t_min, t_max) ==> r == Some(near)
            &&& !in_window(near, t_min, t_max) && in_window(far, t_min, t_max) ==> r == Some(far)
            &&& !in_window(near, t_min, t_max) && !in_window(far, t_min, t_max) ==> r is None
        },
{
    if near < t_max && near > t_min {
        Some(near)
    } else if far < t_max && far > t_min {
        Some(far)
    } else {
        None
    }
}

/// Every primitive reports only hits strictly inside the window it is asked
/// about: nearer than the window's end.
pub open spec fn honours_window<P, T: PartialOrd, X, F: Fn(&P, T, T) -> Option<(T, X)>>(
    list: Seq<P>,
    intersect: F,
) -> bool {
    forall|i: int, lo: T, hi: T, h: (T, X)|
        0 <= i < list.len() && #[trigger] intersect.ensures((&list[i], lo, hi), Some(h))
            ==> h.0.is_lt(&hi)
}

/// `<` on `T` is transitive.
pub open spec fn lt_transitive<T: PartialOrd>() -> bool {
    forall|x: T, y: T, z: T|
        #[trigger] x.partial_cmp_spec(&y) == Some(Ordering::Less) && #[trigger] y.partial_cmp_spec(&z)
            == Some(Ordering::Less) ==> x.partial_cmp_spec(&z) == Some(Ordering::Less)
}

/// Each hit the scan receives is strictly nearer than every hit before it,
/// when every primitive honours its window and `<` is transitive. So the
/// result is strictly nearer than every other hit, and of two equally near
/// primitives the one earlier in the list is kept.
pub proof fn lemma_scan_hits_strictly_nearer<P, T: PartialOrd, X, F: Fn(&P, T, T) -> Option<(T, X)>>(
    list: Seq<P>,
    t_min: T,
    t_max: T,
    intersect: F,
    responses: Seq<Option<(T, X)>>,
)
    requires
        is_scan(list, t_min, t_max, intersect, responses),
        honours_window(list, intersect),
        lt_transitive::<T>(),
    ensures
        forall|i: int, j: int|
            0 <= i < j < responses.len() && #[trigger] responses[i] is Some
                && #[trigger] responses[j] is Some ==> responses[j]->Some_0.0.is_lt(
                &responses[i]->Some_0.0,
            ),
{
    lemma_scan_prefix(list, t_min, t_max, intersect, responses, responses.len() as int);
}

/// After the first `j` responses, the window end is a hit no farther than any
/// hit so far, and each of those hits was strictly nearer than those before.
proof fn lemma_scan_prefix<P, T: PartialOrd, X, F: Fn(&P, T, T) -> Option<(T, X)>>(
    list: Seq<P>,
    t_min: T,
    t_max: T,
    intersect: F,
    responses: Seq<Option<(T, X)>>,
    j: int,
)
    requires
        is_scan(list, t_min, t_max, intersect, responses),
        honours_window(list, intersect),
        lt_transitive::<T>(),
        0 <= j <= responses.len(),
    ensures
        forall|i: int|
            0 <= i < j && #[trigger] responses[i] is Some ==> last_hit(responses.take(j)) is Some
                && (last_hit(responses.take(j))->Some_0.0 == responses[i]->Some_0.0
                || last_hit(responses.take(j))->Some_0.0.is_lt(&responses[i]->Some_0.0)),
        forall|i: int, k: int|
            0 <= i < k < j && #[trigger] responses[i] is Some && #[trigger] responses[k] is Some
                ==> responses[k]->Some_0.0.is_lt(&responses[i]->Some_0.0),
    decreases j,
{
    if j > 0 {
        lemma_scan_prefix(list, t_min, t_max, intersect, responses, j - 1);
        let prev = responses.take(j - 1);
        let cur = responses.take(j);
        assert(cur.drop_last() =~= prev);
        assert(cur.last() == responses[j - 1]);
        assert(intersect.ensures(
            (&list[j - 1], t_min, window_end(t_max, prev)),
            responses[j - 1],
        ));
        if let Some(h) = responses[j - 1] {
            assert(h.0.is_lt(&window_end(t_max, prev)));
            assert(last_hit(cur) == Some(h));
            assert forall|i: int| 0 <= i < j - 1 && #[trigger] responses[i] is Some implies h.0.is_lt(
                &responses[i]->Some_0.0,
            ) by {
                let e = last_hit(prev)->Some_0.0;
                assert(window_end(t_max, prev) == e);
                if e != responses[i]->Some_0.0 {
                    assert(h.0.is_lt(&e) && e.is_lt(&responses[i]->Some_0.0));
                }
            }
        } else {
            assert(last_hit(cur) == last_hit(prev));
        }
    }
}

/// A scene: an ordered collection of primitives, searched linearly.
pub struct HitableList<P> {
    pub list: Vec<P>,
}

impl<P> HitableList<P> {
    pub fn new(list: Vec<P>) -> (r: HitableList<P>)
        ensures
            r.list@ == list@,
    {
        HitableList { list }
    }

    /// Closest hit along a ray within `(t_min, t_max)`. `intersect(p, lo, hi)`
    /// intersects the ray with primitive `p` inside `(lo, hi)` and returns the
    /// hit's ray parameter with its payload. The primitives are asked in list
    /// order, each with the window shrunk to the nearest hit found before it;
    /// the result is the last hit returned, or `None` if none was.
    pub fn hit<T: Copy, X, F: Fn(&P, T, T) -> Option<(T, X)>>(
        &self,
        t_min: T,
        t_max: T,
        intersect: &F,
    ) -> (r: Option<(T, X)>)
        requires
            forall|i: int, hi: T|
                0 <= i < self.list@.len() ==> #[trigger] intersect.requires(
                    (&self.list@[i], t_min, hi),
                ),
        ensures
            exists|responses: Seq<Option<(T, X)>>|
                {
                    &&& is_scan(self.list@, t_min, t_max, *intersect, responses)
                    &&& r == last_hit(responses)
                },
    {
        let ghost mut responses: Seq<Option<(T, X)>> = Seq::empty();
        let mut closest_so_far: T = t_max;
        let mut res: Option<(T, X)> = None;
        let mut i: usize = 0;
        while i < self.list.len()
            invariant
                i <= self.list@.len(),
                forall|k: int, hi: T|
                    0 <= k < self.list@.len() ==> #[trigger] intersect.requires(
                        (&self.list@[k], t_min, hi),
                    ),
                responses.len() == i,
                forall|k: int|
                    0 <= k < i ==> #[trigger] intersect.ensures(
                        (&self.list@[k], t_min, window_end(t_max, responses.take(k))),
                        responses[k],
                    ),
                closest_so_far == window_end(t_max, responses),
                res == last_hit(responses),
            decreases self.list@.len() - i,
        {
            let h = intersect(&self.list[i], t_min, closest_so_far);
            proof {
                let prev = responses;
                responses = responses.push(h);
                assert(responses.take(i as int) =~= prev);
                assert(responses.drop_last() =~= prev);
                assert forall|k: int| 0 <= k < i implies responses.take(k) =~= prev.take(k) by {}
            }
            match h {
                Some((t, x)) => {
                    closest_so_far = t;
                    res = Some((t, x));
                },
                None => {},
            }
            i = i + 1;
        }
        proof {
            assert(responses.len() == self.list@.len());
        }
        res
    }
}

} // verus!
