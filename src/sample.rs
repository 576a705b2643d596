use vstd::prelude::*;

verus! {

/// What tracing the current ray of a path through the scene produced.
/// `C` is a colour, `R` a ray; both are opaque to the integrator.
pub enum Bounce<R, C> {
    /// The ray hit nothing; the colour is the sky seen along its direction.
    Escaped(C),
    /// The ray hit a surface whose material returned no continuation ray
    /// (absorption, or an emitter); the colour is the material's attenuation.
    Absorbed(C),
    /// The ray hit a surface that scattered it: attenuation and continuation ray.
    Scattered(C, R),
}

/// Mathematical state of a path: the ray still to be traced, if any, the number
/// of scattering events taken so far, and the depth bound.
pub struct PathState<R> {
    pub ray: Option<R>,
    pub depth: nat,
    pub max_depth: nat,
}

/// The state in which a path starts: `ray` to trace, at depth zero.
pub open spec fn fresh<R>(ray: R, max_depth: nat) -> PathState<R> {
    PathState { ray: Some(ray), depth: 0, max_depth }
}

/// One transition of the integrator from an active state: the next state and
/// the factor by which the path's accumulated colour is multiplied.
pub open spec fn step<R, C>(s: PathState<R>, b: Bounce<R, C>) -> (PathState<R>, C) {
    match b {
        Bounce::Escaped(sky) => (PathState { ray: None, ..s }, sky),
        Bounce::Absorbed(attenuation) => (PathState { ray: None, ..s }, attenuation),
        Bounce::Scattered(attenuation, scattered) => {
            if s.depth < s.max_depth {
                (PathState { ray: Some(scattered), depth: s.depth + 1, ..s }, attenuation)
            } else {
                (PathState { ray: None, ..s }, attenuation)
            }
        },
    }
}

/// The factors applied to a path's colour, in order, when the outcomes in
/// `bounces` are fed to it one after another from state `s`. Outcomes left
/// over once the path has terminated are not used.
pub open spec fn path_factors<R, C>(s: PathState<R>, bounces: Seq<Bounce<R, C>>) -> Seq<C>
    decreases bounces.len(),
{
    if s.ray is None || bounces.len() == 0 {
        Seq::empty()
    } else {
        let (next, factor) = step(s, bounces[0]);
        seq![factor] + path_factors(next, bounces.drop_first())
    }
}

/// The state reached from `s` once the outcomes in `bounces` have been fed to
/// it one after another.
pub open spec fn state_after<R, C>(s: PathState<R>, bounces: Seq<Bounce<R, C>>) -> PathState<R>
    decreases bounces.len(),
{
    if s.ray is None || bounces.len() == 0 {
        s
    } else {
        state_after(step(s, bounces[0]).0, bounces.drop_first())
    }
}

/// `bounces` is a complete run of a path from `s` against `world`: outcome `i`
/// is one that `world` may return for the ray of the state before it, every
/// such state still had a ray to trace, and the last outcome ended the path.
pub open spec fn is_run<R, C, F: Fn(&R) -> Bounce<R, C>>(
    s: PathState<R>,
    world: F,
    bounces: Seq<Bounce<R, C>>,
) -> bool {
    &&& forall|i: int|
        0 <= i < bounces.len() ==> (#[trigger] state_after(s, bounces.take(i))).ray is Some
    &&& forall|i: int|
        0 <= i < bounces.len() ==> world.ensures(
            (&state_after(s, bounces.take(i)).ray->Some_0,),
            #[trigger] bounces[i],
        )
    &&& state_after(s, bounces).ray is None
}

/// Feeding one more outcome to an active state extends the factors by that
/// outcome's factor and moves to the state one step further.
proof fn lemma_extend<R, C>(s: PathState<R>, bounces: Seq<Bounce<R, C>>, b: Bounce<R, C>)
    requires
        state_after(s, bounces).ray is Some,
    ensures
        state_after(s, bounces.push(b)) == step(state_after(s, bounces), b).0,
        path_factors(s, bounces.push(b)) == path_factors(s, bounces).push(
            step(state_after(s, bounces), b).1,
        ),
    decreases bounces.len(),
{
    let all = bounces.push(b);
    assert(all[0] == if bounces.len() == 0 { b } else { bounces[0] });
    if bounces.len() == 0 {
        assert(all.drop_first() =~= Seq::<Bounce<R, C>>::empty());
        assert(state_after(step(s, b).0, all.drop_first()) == step(s, b).0);
        assert(path_factors(step(s, b).0, all.drop_first()) == Seq::<C>::empty());
        assert(seq![step(s, b).1] + Seq::<C>::empty() =~= Seq::<C>::empty().push(step(s, b).1));
    } else {
        let next = step(s, bounces[0]).0;
        assert(s.ray is Some);
        assert(state_after(s, bounces) == state_after(next, bounces.drop_first()));
        assert(all.drop_first() =~= bounces.drop_first().push(b));
        lemma_extend(next, bounces.drop_first(), b);
        let factor = step(s, bounces[0]).1;
        let tail = path_factors(next, bounces.drop_first());
        assert(seq![factor] + tail.push(step(state_after(s, bounces), b).1) =~= (seq![factor]
            + tail).push(step(state_after(s, bounces), b).1));
    }
}

/// A ray that escapes the scene ends its path with exactly one factor, the sky
/// colour along it, whatever the depth the path had reached and whatever
/// outcomes would have followed. From a fresh path the colour is thus white
/// times the sky colour.
pub proof fn lemma_escape_yields_sky<R, C>(s: PathState<R>, sky: C, rest: Seq<Bounce<R, C>>)
    requires
        s.ray is Some,
    ensures
        path_factors(s, seq![Bounce::Escaped(sky)] + rest) == seq![sky],
{
    let bounces = seq![Bounce::Escaped(sky)] + rest;
    assert(bounces[0] == Bounce::<R, C>::Escaped(sky));
    let (next, factor) = step(s, bounces[0]);
    assert(next.ray is None);
    assert(path_factors(next, bounces.drop_first()) == Seq::<C>::empty());
    assert(seq![sky] + Seq::<C>::empty() =~= seq![sky]);
}

/// A ray that misses every primitive, traced from the start of its path, is
/// coloured by the sky alone: whatever the depth bound, the run applies
/// exactly one factor, the sky colour along the ray.
pub proof fn lemma_missed_ray_is_sky<R, C, F: Fn(&R) -> Bounce<R, C>>(
    ray: R,
    max_depth: nat,
    world: F,
    sky: C,
    bounces: Seq<Bounce<R, C>>,
)
    requires
        is_run(fresh(ray, max_depth), world, bounces),
        forall|b: Bounce<R, C>| #[trigger] world.ensures((&ray,), b) ==> b == Bounce::<R, C>::Escaped(sky),
    ensures
        path_factors(fresh(ray, max_depth), bounces) == seq![sky],
{
    let s = fresh(ray, max_depth);
    if bounces.len() == 0 {
        assert(state_after(s, bounces) == s);
    }
    assert(bounces.take(0) =~= Seq::<Bounce<R, C>>::empty());
    assert(state_after(s, bounces.take(0)) == s);
    assert(world.ensures((&ray,), bounces[0]));
    assert(bounces =~= seq![Bounce::Escaped(sky)] + bounces.drop_first());
    lemma_escape_yields_sky(s, sky, bounces.drop_first());
}

/// With its randomness fixed, a render reproduces itself: against a world that
/// has only one outcome for each ray, two runs of a path from the same ray
/// receive the same outcomes and so apply the same factors.
pub proof fn lemma_fixed_world_reproduces_path<R, C, F: Fn(&R) -> Bounce<R, C>>(
    ray: R,
    max_depth: nat,
    world: F,
    first: Seq<Bounce<R, C>>,
    second: Seq<Bounce<R, C>>,
)
    requires
        forall|x: &R, o1: Bounce<R, C>, o2: Bounce<R, C>|
            #[trigger] world.ensures((x,), o1) && #[trigger] world.ensures((x,), o2) ==> o1 == o2,
        is_run(fresh(ray, max_depth), world, first),
        is_run(fresh(ray, max_depth), world, second),
    ensures
        first == second,
        path_factors(fresh(ray, max_depth), first) == path_factors(fresh(ray, max_depth), second),
{
    let s = fresh(ray, max_depth);
    let shorter = if first.len() <= second.len() { first.len() } else { second.len() };
    assert forall|i: int| 0 <= i <= shorter implies #[trigger] first.take(i) == second.take(i) by {
        lemma_common_prefix(s, world, first, second, i);
    }
    if first.len() < second.len() {
        assert(first.take(first.len() as int) =~= first);
        assert(state_after(s, second.take(first.len() as int)).ray is Some);
    } else if second.len() < first.len() {
        assert(second.take(second.len() as int) =~= second);
        assert(state_after(s, first.take(second.len() as int)).ray is Some);
    }
    assert(first.take(first.len() as int) =~= first);
    assert(second.take(second.len() as int) =~= second);
}

/// Two runs against a world with one outcome per ray agree on their first
/// `n` outcomes, for any `n` up to the shorter run's length.
proof fn lemma_common_prefix<R, C, F: Fn(&R) -> Bounce<R, C>>(
    s: PathState<R>,
    world: F,
    first: Seq<Bounce<R, C>>,
    second: Seq<Bounce<R, C>>,
    n: int,
)
    requires
        forall|x: &R, o1: Bounce<R, C>, o2: Bounce<R, C>|
            #[trigger] world.ensures((x,), o1) && #[trigger] world.ensures((x,), o2) ==> o1 == o2,
        is_run(s, world, first),
        is_run(s, world, second),
        0 <= n <= first.len(),
        n <= second.len(),
    ensures
        first.take(n) == second.take(n),
    decreases n,
{
    if n == 0 {
        assert(first.take(0) =~= second.take(0));
    } else {
        lemma_common_prefix(s, world, first, second, n - 1);
        let before = state_after(s, first.take(n - 1));
        assert(world.ensures((&before.ray->Some_0,), first[n - 1]));
        assert(world.ensures((&before.ray->Some_0,), second[n - 1]));
        assert(first.take(n) =~= first.take(n - 1).push(first[n - 1]));
        assert(second.take(n) =~= second.take(n - 1).push(second[n - 1]));
    }
}

/// The depth bound keeps every path finite: from a state at depth `d` with
/// bound `m`, at most `m - d + 1` factors are ever applied, however many
/// outcomes are offered.
pub proof fn lemma_path_length_bounded<R, C>(s: PathState<R>, bounces: Seq<Bounce<R, C>>)
    requires
        s.depth <= s.max_depth,
    ensures
        path_factors(s, bounces).len() <= s.max_depth - s.depth + 1,
    decreases bounces.len(),
{
    if s.ray is None || bounces.len() == 0 {
    } else {
        let (next, factor) = step(s, bounces[0]);
        lemma_path_length_bounded(next, bounces.drop_first());
        if next.ray is Some {
            assert(next.depth == s.depth + 1);
        } else {
            assert(path_factors(next, bounces.drop_first()).len() == 0);
        }
    }
}

/// One light path through the scene, advanced one scattering event at a time.
/// The path starts white; its colour is the product of the factors returned
/// by `next`.
pub struct Sample<R> {
    ray: Option<R>,
    depth: usize,
    max_depth: usize,
}

impl<R> View for Sample<R> {
    type V = PathState<R>;

    closed spec fn view(&self) -> PathState<R> {
        PathState { ray: self.ray, depth: self.depth as nat, max_depth: self.max_depth as nat }
    }
}

impl<R> Sample<R> {
    /// Well-formed: the depth never exceeds the bound.
    pub open spec fn wf(&self) -> bool {
        self@.depth <= self@.max_depth
    }

    /// A path that starts with `ray`, at depth zero.
    pub fn new(ray: R, max_depth: usize) -> (r: Sample<R>)
        ensures
            r@ == fresh(ray, max_depth as nat),
            r.wf(),
    {
        Sample { ray: Some(ray), depth: 0, max_depth }
    }

    /// The ray still to be traced, or `None` once the path has terminated.
    pub fn ray(&self) -> (r: Option<&R>)
        ensures
            r == match self@.ray {
                Some(x) => Some(&x),
                None => None::<&R>,
            },
    {
        match &self.ray {
            Some(x) => Some(x),
            None => None,
        }
    }

    /// Whether the path has terminated.
    pub fn is_done(&self) -> (r: bool)
        ensures
            r == self@.ray is None,
    {
        self.ray.is_none()
    }

    /// Number of scattering events taken so far.
    pub fn depth(&self) -> (r: usize)
        ensures
            r == self@.depth,
    {
        self.depth
    }

    /// Feeds the outcome of tracing the current ray. On an active path,
    /// returns the factor by which the path's colour is multiplied and moves
    /// to the next state; on a terminated path, returns `None` and changes
    /// nothing.
    pub fn next<C>(&mut self, bounce: Bounce<R, C>) -> (r: Option<C>)
        requires
            old(self).wf(),
        ensures
            final(self).wf(),
            old(self)@.ray is None ==> r is None && final(self)@ == old(self)@,
            old(self)@.ray is Some ==> r == Some(step(old(self)@, bounce).1) && final(self)@ == step(
                old(self)@,
                bounce,
            ).0,
    {
        if self.ray.is_none() {
            return None;
        }
        match bounce {
            Bounce::Escaped(sky) => {
                self.ray = None;
                Some(sky)
            },
            Bounce::Absorbed(attenuation) => {
                self.ray = None;
                Some(attenuation)
            },
            Bounce::Scattered(attenuation, scattered) => {
                if self.depth < self.max_depth {
                    self.depth = self.depth + 1;
                    self.ray = Some(scattered);
                } else {
                    self.ray = None;
                }
                Some(attenuation)
            },
        }
    }
}

/// Traces one path from `ray` to its end: asks `world` for the outcome of
/// tracing each ray in turn (the closest hit and the material's scattering, or
/// the sky) and returns the factors applied to the path's colour, in order.
/// The path's colour is white times their product.
pub fn trace_path<R, C, F: Fn(&R) -> Bounce<R, C>>(ray: R, max_depth: usize, world: &F) -> (r: Vec<C>)
    requires
        forall|x: &R| #[trigger] world.requires((x,)),
    ensures
        exists|bounces: Seq<Bounce<R, C>>|
            {
                &&& #[trigger] is_run(fresh(ray, max_depth as nat), *world, bounces)
                &&& r@ == path_factors(fresh(ray, max_depth as nat), bounces)
            },
{
    let ghost start = fresh(ray, max_depth as nat);
    let mut sample = Sample::new(ray, max_depth);
    let mut factors: Vec<C> = Vec::new();
    let ghost mut bounces: Seq<Bounce<R, C>> = Seq::empty();
    while !sample.is_done()
        invariant
            forall|x: &R| #[trigger] world.requires((x,)),
            sample.wf(),
            sample@ == state_after(start, bounces),
            factors@ == path_factors(start, bounces),
            forall|i: int|
                0 <= i < bounces.len() ==> (#[trigger] state_after(start, bounces.take(i))).ray is Some,
            forall|i: int|
                0 <= i < bounces.len() ==> world.ensures(
                    (&state_after(start, bounces.take(i)).ray->Some_0,),
                    #[trigger] bounces[i],
                ),
        decreases sample@.max_depth - sample@.depth + if sample@.ray is Some {
            1int
        } else {
            0int
        },
    {
        let current = match sample.ray() {
            Some(x) => x,
            None => {
                return factors;
            },
        };
        let bounce = world(current);
        proof {
            lemma_extend(start, bounces, bounce);
            let prev = bounces;
            bounces = bounces.push(bounce);
            assert(bounces.take(prev.len() as int) =~= prev);
            assert forall|i: int| 0 <= i < prev.len() implies bounces.take(i) =~= prev.take(i) by {}
        }
        let factor = sample.next(bounce);
        match factor {
            Some(c) => factors.push(c),
            None => {},
        }
    }
    proof {
        assert(is_run(start, *world, bounces));
    }
    factors
}

} // verus!
