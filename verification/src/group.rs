//! The bounding hierarchy: groups of items and sub-groups, each group behind a
//! bounding shape that lets a traversal skip it.

use vstd::prelude::*;
use crate::primitive::{nearer, DistanceMeasure, Hit, Intersectable};

verus! {

/// A child of a group: a single item, or a whole sub-group.
pub enum Pair<I, G> {
    Item(I),
    Group(G),
}

/// A group of items and sub-groups, enclosed by `bound`.
pub struct TypedGroup<B, I> {
    pub bound: B,
    pub children: Vec<Pair<I, TypedGroup<B, I>>>,
}

impl<B: Default, I> Default for TypedGroup<B, I> {
    /// A group without children, behind the default bound.
    fn default() -> (g: Self)
        ensures
            g.children@ == Seq::<Pair<I, TypedGroup<B, I>>>::empty(),
            call_ensures(B::default, (), g.bound),
    {
        TypedGroup { bound: B::default(), children: Vec::new() }
    }
}

impl<B, I> TypedGroup<B, I> {
    /// The hit after the first `n` children have been visited in order,
    /// starting from `hit`.
    pub open spec fn through<R, P>(&self, n: nat, hit: Hit<P>, ray: &R) -> Hit<P>
        where B: DistanceMeasure<R>, I: Intersectable<R, P>
        decreases self, n,
    {
        if n == 0 || n > self.children@.len() {
            hit
        } else {
            let prev = self.through((n - 1) as nat, hit, ray);
            match self.children@[n - 1] {
                Pair::Item(i) => nearer(prev, i.candidate(ray)),
                Pair::Group(g) => g.traverse(prev, ray),
            }
        }
    }

    /// The hit after the group has been traversed, starting from `hit`: the
    /// group is skipped where its bound is no nearer than `hit`, and else every
    /// child is visited in order.
    pub open spec fn traverse<R, P>(&self, hit: Hit<P>, ray: &R) -> Hit<P>
        where B: DistanceMeasure<R>, I: Intersectable<R, P>
        decreases self, self.children@.len() + 1,
    {
        if self.bound.ray_distance(ray) >= hit.distance {
            hit
        } else {
            self.through(self.children@.len(), hit, ray)
        }
    }
}

/// The hit after every item of `items` has been offered in order, starting
/// from `hit`: the nearest of them all, the earliest among equals, and `hit`
/// itself where none is strictly nearer.
pub open spec fn nearest_of<I, R, P>(items: Seq<I>, hit: Hit<P>, ray: &R) -> Hit<P>
    where I: Intersectable<R, P>
    decreases items.len(),
{
    if items.len() == 0 {
        hit
    } else {
        nearer(nearest_of(items.drop_last(), hit, ray), items.last().candidate(ray))
    }
}

impl<B, I> TypedGroup<B, I> {
    /// The items below the first `n` children, in the order in which a
    /// traversal that skips nothing meets them.
    pub open spec fn items_through(&self, n: nat) -> Seq<I>
        decreases self, n,
    {
        if n == 0 || n > self.children@.len() {
            Seq::empty()
        } else {
            let prev = self.items_through((n - 1) as nat);
            match self.children@[n - 1] {
                Pair::Item(i) => prev.push(i),
                Pair::Group(g) => prev + g.items(),
            }
        }
    }

    /// All items of the group and of its sub-groups, in traversal order.
    pub open spec fn items(&self) -> Seq<I>
        decreases self, self.children@.len() + 1,
    {
        self.items_through(self.children@.len())
    }

    /// The number of groups among the first `n` children and below them.
    pub open spec fn groups_through(&self, n: nat) -> nat
        decreases self, n,
    {
        if n == 0 || n > self.children@.len() {
            0
        } else {
            let prev = self.groups_through((n - 1) as nat);
            match self.children@[n - 1] {
                Pair::Item(_) => prev,
                Pair::Group(g) => prev + g.groups(),
            }
        }
    }

    /// The number of groups in the hierarchy, this one included.
    pub open spec fn groups(&self) -> nat
        decreases self, self.children@.len() + 1,
    {
        1 + self.groups_through(self.children@.len())
    }

    /// On `ray`, the bound of this group is met no later than any item of the
    /// group, and the same holds of every sub-group: the bounds enclose what
    /// they stand for, as far as this ray can tell.
    pub open spec fn encloses<R, P>(&self, ray: &R) -> bool
        where B: DistanceMeasure<R>, I: Intersectable<R, P>
        decreases self,
    {
        &&& forall|j: int|
            0 <= j < self.items().len() ==> self.bound.ray_distance(ray) <= (
            #[trigger] self.items()[j]).candidate(ray).distance
        &&& forall|k: int|
            0 <= k < self.children@.len() ==> match #[trigger] self.children@[k] {
                Pair::Item(_) => true,
                Pair::Group(g) => g.encloses::<R, P>(ray),
            }
    }
}

/// Offering two runs of items one after the other is offering their
/// concatenation.
pub proof fn lemma_nearest_of_concat<I, R, P>(a: Seq<I>, b: Seq<I>, hit: Hit<P>, ray: &R)
    where I: Intersectable<R, P>
    ensures
        nearest_of(a + b, hit, ray) == nearest_of(b, nearest_of(a, hit, ray), ray),
    decreases b.len(),
{
    if b.len() == 0 {
        assert(a + b =~= a);
    } else {
        lemma_nearest_of_concat(a, b.drop_last(), hit, ray);
        assert((a + b).drop_last() =~= a + b.drop_last());
        assert((a + b).last() == b.last());
    }
}

/// Items that are all no nearer than `hit` leave it as it was.
pub proof fn lemma_nearest_of_far_items<I, R, P>(items: Seq<I>, hit: Hit<P>, ray: &R)
    where I: Intersectable<R, P>
    requires
        forall|j: int|
            0 <= j < items.len() ==> hit.distance <= (#[trigger] items[j]).candidate(ray).distance,
    ensures
        nearest_of(items, hit, ray) == hit,
    decreases items.len(),
{
    if items.len() > 0 {
        assert forall|j: int| 0 <= j < items.drop_last().len() implies hit.distance <= (
        #[trigger] items.drop_last()[j]).candidate(ray).distance by {
            assert(items.drop_last()[j] == items[j]);
        }
        lemma_nearest_of_far_items(items.drop_last(), hit, ray);
        assert(items.last() == items[items.len() - 1]);
    }
}

/// What a run of items leaves behind is `hit` untouched, or something
/// strictly nearer.
pub proof fn lemma_nearest_of_no_farther<I, R, P>(items: Seq<I>, hit: Hit<P>, ray: &R)
    where I: Intersectable<R, P>
    ensures
        nearest_of(items, hit, ray) == hit || nearest_of(items, hit, ray).distance < hit.distance,
    decreases items.len(),
{
    if items.len() > 0 {
        lemma_nearest_of_no_farther(items.drop_last(), hit, ray);
    }
}

/// What a run of items leaves behind is no farther than any of them, and it
/// is `hit` itself or what one of the items records.
pub proof fn lemma_nearest_of_is_nearest<I, R, P>(items: Seq<I>, hit: Hit<P>, ray: &R)
    where I: Intersectable<R, P>
    ensures
        forall|j: int|
            0 <= j < items.len() ==> nearest_of(items, hit, ray).distance <= (
            #[trigger] items[j]).candidate(ray).distance,
        nearest_of(items, hit, ray) == hit || exists|j: int|
            0 <= j < items.len() && nearest_of(items, hit, ray) == (#[trigger] items[j]).candidate(
                ray,
            ),
    decreases items.len(),
{
    if items.len() > 0 {
        let front = items.drop_last();
        lemma_nearest_of_is_nearest(front, hit, ray);
        assert forall|j: int| 0 <= j < items.len() implies nearest_of(items, hit, ray).distance
            <= (#[trigger] items[j]).candidate(ray).distance by {
            if j < front.len() {
                assert(front[j] == items[j]);
            }
        }
        if nearest_of(items, hit, ray) != hit {
            if nearest_of(items, hit, ray) == items.last().candidate(ray) {
                assert(items[items.len() - 1] == items.last());
            } else {
                let j = choose|j: int|
                    0 <= j < front.len() && nearest_of(front, hit, ray) == (
                    #[trigger] front[j]).candidate(ray);
                assert(front[j] == items[j]);
            }
        }
    }
}

impl<B, I> TypedGroup<B, I> {
    /// The items below the first `k` children come first among those below the
    /// first `n`, for `k <= n`.
    pub proof fn lemma_items_through_prefix(&self, k: nat, n: nat)
        requires
            k <= n <= self.children@.len(),
        ensures
            self.items_through(k).len() <= self.items_through(n).len(),
            forall|j: int|
                0 <= j < self.items_through(k).len() ==> self.items_through(k)[j]
                    == self.items_through(n)[j],
        decreases n,
    {
        if k < n {
            self.lemma_items_through_prefix(k, (n - 1) as nat);
        }
    }

    /// The groups among the first `k` children are among those of the first
    /// `n`, for `k <= n`.
    pub proof fn lemma_groups_through_monotone(&self, k: nat, n: nat)
        requires
            k <= n <= self.children@.len(),
        ensures
            self.groups_through(k) <= self.groups_through(n),
        decreases n,
    {
        if k < n {
            self.lemma_groups_through_monotone(k, (n - 1) as nat);
        }
    }

    /// Below enclosing bounds, visiting the first `n` children finds the
    /// nearest of the items below them.
    pub proof fn lemma_through_is_nearest<R, P>(&self, n: nat, hit: Hit<P>, ray: &R)
        where B: DistanceMeasure<R>, I: Intersectable<R, P>
        requires
            self.encloses::<R, P>(ray),
            n <= self.children@.len(),
        ensures
            self.through(n, hit, ray) == nearest_of(self.items_through(n), hit, ray),
        decreases self, n,
    {
        if n > 0 {
            let m = (n - 1) as nat;
            self.lemma_through_is_nearest(m, hit, ray);
            let prev = self.through(m, hit, ray);
            match self.children@[n - 1] {
                Pair::Item(i) => {
                    assert(self.items_through(n).drop_last() =~= self.items_through(m));
                    assert(self.items_through(n).last() == i);
                },
                Pair::Group(g) => {
                    g.lemma_traverse_is_nearest(prev, ray);
                    lemma_nearest_of_concat(self.items_through(m), g.items(), hit, ray);
                },
            }
        }
    }

    /// Skipping is sound: below enclosing bounds, the traversal finds exactly
    /// the nearest of all items, as if no group had been skipped.
    pub proof fn lemma_traverse_is_nearest<R, P>(&self, hit: Hit<P>, ray: &R)
        where B: DistanceMeasure<R>, I: Intersectable<R, P>
        requires
            self.encloses::<R, P>(ray),
        ensures
            self.traverse(hit, ray) == nearest_of(self.items(), hit, ray),
        decreases self, self.children@.len() + 1,
    {
        if self.bound.ray_distance(ray) >= hit.distance {
            lemma_nearest_of_far_items(self.items(), hit, ray);
        } else {
            self.lemma_through_is_nearest(self.children@.len(), hit, ray);
        }
    }

    /// The size of a bound decides how much work a traversal does, never what
    /// it finds: two hierarchies that hold the same items in the same order,
    /// each below enclosing bounds, return the same hit for the same ray.
    pub proof fn lemma_bound_size_is_immaterial<R, P>(
        &self,
        other: &TypedGroup<B, I>,
        hit: Hit<P>,
        ray: &R,
    )
        where B: DistanceMeasure<R>, I: Intersectable<R, P>
        requires
            self.encloses::<R, P>(ray),
            other.encloses::<R, P>(ray),
            self.items() == other.items(),
        ensures
            self.traverse(hit, ray) == other.traverse(hit, ray),
    {
        self.lemma_traverse_is_nearest(hit, ray);
        other.lemma_traverse_is_nearest(hit, ray);
    }

    /// Visiting children never moves a hit away: it stays as it was, or
    /// becomes strictly nearer.
    pub proof fn lemma_through_no_farther<R, P>(&self, n: nat, hit: Hit<P>, ray: &R)
        where B: DistanceMeasure<R>, I: Intersectable<R, P>
        ensures
            self.through(n, hit, ray) == hit || self.through(n, hit, ray).distance
                < hit.distance,
        decreases self, n,
    {
        if n > 0 && n <= self.children@.len() {
            let m = (n - 1) as nat;
            self.lemma_through_no_farther(m, hit, ray);
            match self.children@[n - 1] {
                Pair::Item(_) => {},
                Pair::Group(g) => {
                    g.lemma_traverse_no_farther(self.through(m, hit, ray), ray);
                },
            }
        }
    }

    /// A traversal never moves a hit away, whatever the bounds are: the hit
    /// stays as it was, or becomes strictly nearer.
    pub proof fn lemma_traverse_no_farther<R, P>(&self, hit: Hit<P>, ray: &R)
        where B: DistanceMeasure<R>, I: Intersectable<R, P>
        ensures
            self.traverse(hit, ray) == hit || self.traverse(hit, ray).distance < hit.distance,
        decreases self, self.children@.len() + 1,
    {
        if self.bound.ray_distance(ray) < hit.distance {
            self.lemma_through_no_farther(self.children@.len(), hit, ray);
        }
    }
}

impl<B, I> TypedGroup<B, I> {
    /// Records in `hit` the nearest intersection of `ray` with the group's
    /// items, where one lies strictly nearer than `hit.distance`; else `hit`
    /// stays as it was. A group whose bound is no nearer than `hit` is skipped.
    pub fn intersect<R, P>(&self, hit: &mut Hit<P>, ray: &R)
        where B: DistanceMeasure<R>, I: Intersectable<R, P>
        ensures
            *final(hit) == self.traverse(*old(hit), ray),
            final(hit).distance <= old(hit).distance,
            final(hit).distance == old(hit).distance ==> *final(hit) == *old(hit),
        decreases self,
    {
        proof {
            self.lemma_traverse_no_farther(*hit, ray);
        }
        if self.bound.distance_from_ray(ray) >= hit.distance {
            return ;
        }
        let n: usize = self.children.len();
        let mut k: usize = 0;
        while k < n
            invariant
                k <= n,
                n == self.children@.len(),
                *hit == self.through(k as nat, *old(hit), ray),
            decreases n - k,
        {
            match &self.children[k] {
                Pair::Item(v) => v.intersect(hit, ray),
                Pair::Group(g) => g.intersect(hit, ray),
            }
            k += 1;
        }
    }
}

impl<B, I> TypedGroup<B, I> {
    /// Counts the groups of the hierarchy, this one included, and its items:
    /// `(groups, items)`.
    pub fn count(&self) -> (c: (usize, usize))
        requires
            self.groups() + self.items().len() <= usize::MAX,
        ensures
            c.0 == self.groups(),
            c.1 == self.items().len(),
        decreases self,
    {
        let n: usize = self.children.len();
        let mut ng: usize = 1;
        let mut ni: usize = 0;
        let mut k: usize = 0;
        while k < n
            invariant
                k <= n,
                n == self.children@.len(),
                ng == 1 + self.groups_through(k as nat),
                ni == self.items_through(k as nat).len(),
                self.groups() + self.items().len() <= usize::MAX,
            decreases n - k,
        {
            proof {
                self.lemma_groups_through_monotone((k + 1) as nat, n as nat);
                self.lemma_items_through_prefix((k + 1) as nat, n as nat);
            }
            match &self.children[k] {
                Pair::Item(_) => {
                    ni += 1;
                },
                Pair::Group(g) => {
                    let (gng, gni) = g.count();
                    ng += gng;
                    ni += gni;
                },
            }
            k += 1;
        }
        (ng, ni)
    }
}

/// The number of items in a pyramid of `level` levels: one, and four
/// pyramids of one level less.
pub open spec fn pyramid_items(level: nat) -> nat
    decreases level,
{
    if level <= 1 {
        level
    } else {
        1 + 4 * pyramid_items((level - 1) as nat)
    }
}

/// The number of groups in a pyramid of `level` levels. A pyramid of one
/// level is a bare item and holds no group.
pub open spec fn pyramid_groups(level: nat) -> nat
    decreases level,
{
    if level <= 1 {
        0
    } else {
        1 + 4 * pyramid_groups((level - 1) as nat)
    }
}

/// The sideways direction, `-1` or `1`, of the `k`-th of a group's four
/// sub-pyramids along the first axis. It changes with every step.
pub open spec fn corner_dx(k: int) -> i32 {
    if k % 2 == 0 {
        (-1) as i32
    } else {
        1
    }
}

/// The sideways direction, `-1` or `1`, of the `k`-th of a group's four
/// sub-pyramids along the second axis. It changes with every second step.
pub open spec fn corner_dz(k: int) -> i32 {
    if k < 2 {
        (-1) as i32
    } else {
        1
    }
}

/// What a function that makes a sub-pyramid's seed may return: `made` for
/// the item `parent` and the corner `(dx, dz)`.
pub open spec fn seeds_of<I, FC>(child: FC) -> spec_fn(I, i32, i32, I) -> bool
    where FC: Fn(&I, i32, i32) -> I
{
    |parent: I, dx: i32, dz: i32, made: I| call_ensures(child, (&parent, dx, dz), made)
}

/// What a function that makes a group's bound may return: `made` for the
/// item `seed`.
pub open spec fn bounds_of<B, I, FB>(bound: FB) -> spec_fn(I, B) -> bool
    where FB: Fn(&I) -> B
{
    |seed: I, made: B| call_ensures(bound, (&seed,), made)
}

/// `node` is the pyramid of `level` levels that grows from the item `seed`.
///
/// At one level it is the seed itself. Above that it is a group whose bound
/// is one that `bounds` allows for the seed, whose first child is the seed,
/// and whose four other children are pyramids of one level less, the `k`-th
/// grown from an item that `seeds` allows for the seed and the `k`-th corner.
pub open spec fn is_pyramid<B, I>(
    node: Pair<I, TypedGroup<B, I>>,
    level: nat,
    seed: I,
    seeds: spec_fn(I, i32, i32, I) -> bool,
    bounds: spec_fn(I, B) -> bool,
) -> bool
    decreases level, 0nat,
{
    if level <= 1 {
        node == Pair::<I, TypedGroup<B, I>>::Item(seed)
    } else {
        match node {
            Pair::Item(_) => false,
            Pair::Group(g) => {
                &&& bounds(seed, g.bound)
                &&& g.children@.len() == 5
                &&& g.children@[0] == Pair::<I, TypedGroup<B, I>>::Item(seed)
                &&& forall|k: int|
                    0 <= k < 4 ==> is_corner_pyramid(
                        #[trigger] g.children@[k + 1],
                        (level - 1) as nat,
                        seed,
                        k,
                        seeds,
                        bounds,
                    )
            },
        }
    }
}

/// `node` is the pyramid of `level` levels that grows from some item that
/// `seeds` allows for `parent` and the `k`-th corner.
pub open spec fn is_corner_pyramid<B, I>(
    node: Pair<I, TypedGroup<B, I>>,
    level: nat,
    parent: I,
    k: int,
    seeds: spec_fn(I, i32, i32, I) -> bool,
    bounds: spec_fn(I, B) -> bool,
) -> bool
    decreases level, 1nat,
{
    exists|s: I| #[trigger]
        seeds(parent, corner_dx(k), corner_dz(k), s) && is_pyramid(node, level, s, seeds, bounds)
}

/// `child` may be called on any item and any of the four corners, and
/// `bound` on any item.
pub open spec fn grows_everywhere<B, I, FC, FB>(child: FC, bound: FB) -> bool
    where FC: Fn(&I, i32, i32) -> I, FB: Fn(&I) -> B
{
    &&& forall|s: &I, dx: i32, dz: i32|
        (dx == -1 || dx == 1) && (dz == -1 || dz == 1) ==> #[trigger] call_requires(
            child,
            (s, dx, dz),
        )
    &&& forall|s: &I| #[trigger] call_requires(bound, (s,))
}

impl<B, I> TypedGroup<B, I> {
    /// The size of what lies below the first `n` children of a pyramid's root.
    proof fn lemma_pyramid_counts_through(
        &self,
        n: nat,
        level: nat,
        seed: I,
        child: spec_fn(I, i32, i32, I) -> bool,
        bound: spec_fn(I, B) -> bool,
    )
        requires
            level > 1,
            is_pyramid(Pair::<I, TypedGroup<B, I>>::Group(*self), level, seed, child, bound),
            1 <= n <= 5,
        ensures
            self.items_through(n).len() == 1 + (n - 1) * pyramid_items((level - 1) as nat),
            self.groups_through(n) == (n - 1) * pyramid_groups((level - 1) as nat),
        decreases level, n,
    {
        if n == 1 {
            assert(self.items_through(0).len() == 0);
            assert(self.groups_through(0) == 0);
        } else {
            let m = (n - 1) as nat;
            let below = (level - 1) as nat;
            self.lemma_pyramid_counts_through(m, level, seed, child, bound);
            let k = n - 2;
            assert(is_corner_pyramid(self.children@[k + 1], below, seed, k, child, bound));
            let s = choose|s: I| #[trigger]
                child(seed, corner_dx(k), corner_dz(k), s) && is_pyramid(
                    self.children@[k + 1],
                    below,
                    s,
                    child,
                    bound,
                );
            match self.children@[k + 1] {
                Pair::Item(_) => {},
                Pair::Group(g) => {
                    g.lemma_pyramid_counts(below, s, child, bound);
                },
            }
            assert((m - 1) * pyramid_items(below) + pyramid_items(below) == (n - 1)
                * pyramid_items(below)) by (nonlinear_arith)
                requires
                    m == n - 1,
            ;
            assert((m - 1) * pyramid_groups(below) + pyramid_groups(below) == (n - 1)
                * pyramid_groups(below)) by (nonlinear_arith)
                requires
                    m == n - 1,
            ;
        }
    }

    /// A pyramid holds as many items and groups as its number of levels
    /// says, whatever it was grown from.
    pub proof fn lemma_pyramid_counts(
        &self,
        level: nat,
        seed: I,
        child: spec_fn(I, i32, i32, I) -> bool,
        bound: spec_fn(I, B) -> bool,
    )
        requires
            level > 1,
            is_pyramid(Pair::<I, TypedGroup<B, I>>::Group(*self), level, seed, child, bound),
        ensures
            self.items().len() == pyramid_items(level),
            self.groups() == pyramid_groups(level),
        decreases level, 6nat,
    {
        self.lemma_pyramid_counts_through(5, level, seed, child, bound);
    }

    fn pyramid_recursive<FC, FB>(level: u32, seed: I, child: &FC, bound: &FB) -> (node: Pair<
        I,
        TypedGroup<B, I>,
    >)
        where FC: Fn(&I, i32, i32) -> I, FB: Fn(&I) -> B
        requires
            level >= 1,
            grows_everywhere(*child, *bound),
        ensures
            is_pyramid(node, level as nat, seed, seeds_of(*child), bounds_of(*bound)),
        decreases level,
    {
        if level == 1 {
            return Pair::Item(seed);
        }
        let b = bound(&seed);
        let mut children: Vec<Pair<I, TypedGroup<B, I>>> = Vec::new();
        let mut k: usize = 0;
        while k < 4
            invariant
                k <= 4,
                level > 1,
                children@.len() == k,
                grows_everywhere(*child, *bound),
                forall|j: int|
                    0 <= j < k ==> is_corner_pyramid(
                        #[trigger] children@[j],
                        (level - 1) as nat,
                        seed,
                        j,
                        seeds_of(*child),
                        bounds_of(*bound),
                    ),
            decreases 4 - k,
        {
            let dx: i32 = if k % 2 == 0 {
                -1
            } else {
                1
            };
            let dz: i32 = if k < 2 {
                -1
            } else {
                1
            };
            assert(dx == corner_dx(k as int) && dz == corner_dz(k as int));
            let s = child(&seed, dx, dz);
            let ghost from = s;
            let sub = Self::pyramid_recursive(level - 1, s, child, bound);
            assert(seeds_of(*child)(seed, corner_dx(k as int), corner_dz(k as int), from));
            children.push(sub);
            k += 1;
        }
        let ghost subs = children@;
        children.insert(0, Pair::Item(seed));
        assert forall|j: int| 0 <= j < 4 implies is_corner_pyramid(
            #[trigger] children@[j + 1],
            (level - 1) as nat,
            seed,
            j,
            seeds_of(*child),
            bounds_of(*bound),
        ) by {
            assert(children@[j + 1] == subs[j]);
        }
        Pair::Group(TypedGroup { bound: b, children })
    }

    /// Grows the pyramid of `level` levels from the item `seed`.
    ///
    /// The root group is bounded by what `bound` makes of the seed, holds the
    /// seed as its first child, and after it four pyramids of one level less:
    /// the `k`-th grown from `child(seed, dx, dz)`, where `dx` changes sign
    /// with every step and `dz` with every second. A pyramid of a single
    /// level would be a bare item and no group, so there must be two at least.
    pub fn pyramid<FC, FB>(level: u32, seed: I, child: FC, bound: FB) -> (g: TypedGroup<B, I>)
        where FC: Fn(&I, i32, i32) -> I, FB: Fn(&I) -> B
        requires
            level > 1,
            grows_everywhere(child, bound),
        ensures
            is_pyramid(
                Pair::<I, TypedGroup<B, I>>::Group(g),
                level as nat,
                seed,
                seeds_of(child),
                bounds_of(bound),
            ),
            g.items().len() == pyramid_items(level as nat),
            g.groups() == pyramid_groups(level as nat),
    {
        match Self::pyramid_recursive(level, seed, &child, &bound) {
            Pair::Group(g) => {
                proof {
                    g.lemma_pyramid_counts(
                        level as nat,
                        seed,
                        seeds_of(child),
                        bounds_of(bound),
                    );
                }
                g
            },
            Pair::Item(_) => {
                vstd::pervasive::unreached()
            },
        }
    }
}

} // verus!
