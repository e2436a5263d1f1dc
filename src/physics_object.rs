//! The physics world: an index-stable array of particles and the bucket grid
//! that indexes them.
use vstd::prelude::*;
use crate::vec2::norm_sq;
use crate::grid::{
    bucket_of, bucket_spec, lemma_block_valid, neighbor_buckets, neighbor_seq, BUCKET_COUNT,
};
use crate::laws::law_separated_pair_unchanged;
use crate::circle::{
    Circle, CircleView, integrated, resolved, dir_ok, DT_LIMIT,
};

verus! {

/// The indices below `n` whose bucket in `slots` is `b`, in ascending order.
pub open spec fn members(slots: Seq<int>, n: nat, b: int) -> Seq<usize>
    decreases n,
{
    if n == 0 {
        Seq::empty()
    } else {
        let prev = members(slots, (n - 1) as nat, b);
        if slots[n - 1] == b {
            prev.push((n - 1) as usize)
        } else {
            prev
        }
    }
}

/// `members` lists exactly the indices below `n` recorded in bucket `b`, each once.
pub proof fn lemma_members(slots: Seq<int>, n: nat, b: int)
    requires
        n <= slots.len(),
        n <= usize::MAX,
    ensures
        forall|k: int|
            0 <= k < members(slots, n, b).len() ==> #[trigger] members(slots, n, b)[k] < n
                && slots[members(slots, n, b)[k] as int] == b,
        forall|i: int| 0 <= i < n && slots[i] == b ==> #[trigger] members(slots, n, b).contains(i as usize),
        members(slots, n, b).no_duplicates(),
    decreases n,
{
    if n > 0 {
        lemma_members(slots, (n - 1) as nat, b);
        let prev = members(slots, (n - 1) as nat, b);
        let cur = members(slots, n, b);
        if slots[n - 1] == b {
            assert(cur == prev.push((n - 1) as usize));
            assert forall|i: int| 0 <= i < n && slots[i] == b implies #[trigger] cur.contains(
                i as usize,
            ) by {
                if i < n - 1 {
                    assert(prev.contains(i as usize));
                    let k = choose|k: int| 0 <= k < prev.len() && prev[k] == i as usize;
                    assert(cur[k] == i as usize);
                } else {
                    assert(cur[prev.len() as int] == i as usize);
                }
            }
            assert forall|k: int| 0 <= k < cur.len() implies #[trigger] cur[k] < n && slots[cur[k] as int]
                == b by {
                if k < prev.len() {
                    assert(cur[k] == prev[k]);
                }
            }
            assert forall|j: int, k: int| 0 <= j < cur.len() && 0 <= k < cur.len() && j != k implies cur[j]
                != cur[k] by {
                if j < prev.len() {
                    assert(cur[j] == prev[j]);
                }
                if k < prev.len() {
                    assert(cur[k] == prev[k]);
                }
            }
        } else {
            assert forall|i: int| 0 <= i < n && slots[i] == b implies #[trigger] cur.contains(
                i as usize,
            ) by {
                assert(prev.contains(i as usize));
            }
        }
    }
}

/// Bucket lists depend only on the recorded buckets below `n`.
pub proof fn lemma_members_prefix(s1: Seq<int>, s2: Seq<int>, n: nat, b: int)
    requires
        n <= s1.len(),
        n <= s2.len(),
        forall|i: int| 0 <= i < n ==> s1[i] == s2[i],
    ensures
        members(s1, n, b) == members(s2, n, b),
    decreases n,
{
    if n > 0 {
        lemma_members_prefix(s1, s2, (n - 1) as nat, b);
    }
}

/// Particle `i` resolves its collision with `j`, unless `j` is `i`.
pub open spec fn collide_step(objs: Seq<CircleView>, i: int, j: int, d: (int, int)) -> Seq<
    CircleView,
> {
    if i == j {
        objs
    } else {
        let r = resolved(objs[i], objs[j], d);
        objs.update(i, r.0).update(j, r.1)
    }
}

/// Particle `i` resolves its collisions with `js` in order, the `k`-th
/// using direction `ds[k]` should the centres coincide.
pub open spec fn resolve_turn(objs: Seq<CircleView>, i: int, js: Seq<usize>, ds: Seq<(int, int)>) -> Seq<
    CircleView,
>
    decreases js.len(),
{
    if js.len() == 0 {
        objs
    } else {
        collide_step(
            resolve_turn(objs, i, js.drop_last(), ds),
            i,
            js.last() as int,
            ds[js.len() - 1],
        )
    }
}

/// The indices filed in the buckets `nb`, bucket by bucket.
pub open spec fn candidates(grid: Seq<Seq<usize>>, nb: Seq<usize>) -> Seq<usize>
    decreases nb.len(),
{
    if nb.len() == 0 {
        Seq::empty()
    } else {
        candidates(grid, nb.drop_last()) + grid[nb.last() as int]
    }
}

/// The particles after the turns of particles `0 .. i` of the collision
/// pass: on its turn, a particle meets every index filed in the 3×3 block
/// around the bucket of its current position; `dirs[t]` holds the
/// directions of turn `t`.
pub open spec fn pass(
    objs: Seq<CircleView>,
    grid: Seq<Seq<usize>>,
    width: int,
    height: int,
    i: nat,
    dirs: Seq<Seq<(int, int)>>,
) -> Seq<CircleView>
    decreases i,
{
    if i == 0 {
        objs
    } else {
        let s = pass(objs, grid, width, height, (i - 1) as nat, dirs);
        let b = bucket_spec(s[i - 1].position.0, s[i - 1].position.1, width, height);
        resolve_turn(s, i - 1, candidates(grid, neighbor_seq(b)), dirs[i - 1])
    }
}

pub open spec fn dirs_ok(dirs: Seq<Seq<(int, int)>>) -> bool {
    forall|t: int, k: int|
        0 <= t < dirs.len() && 0 <= k < dirs[t].len() ==> dir_ok(#[trigger] dirs[t][k])
}

proof fn lemma_turn_prefix(objs: Seq<CircleView>, i: int, js: Seq<usize>, d1: Seq<(int, int)>, d2: Seq<(int, int)>)
    requires
        js.len() <= d1.len(),
        js.len() <= d2.len(),
        forall|k: int| 0 <= k < js.len() ==> d1[k] == d2[k],
    ensures
        resolve_turn(objs, i, js, d1) == resolve_turn(objs, i, js, d2),
    decreases js.len(),
{
    if js.len() > 0 {
        lemma_turn_prefix(objs, i, js.drop_last(), d1, d2);
    }
}

proof fn lemma_pass_prefix(
    objs: Seq<CircleView>,
    grid: Seq<Seq<usize>>,
    width: int,
    height: int,
    i: nat,
    d1: Seq<Seq<(int, int)>>,
    d2: Seq<Seq<(int, int)>>,
)
    requires
        i <= d1.len(),
        i <= d2.len(),
        forall|t: int| 0 <= t < i ==> d1[t] == d2[t],
    ensures
        pass(objs, grid, width, height, i, d1) == pass(objs, grid, width, height, i, d2),
    decreases i,
{
    if i > 0 {
        lemma_pass_prefix(objs, grid, width, height, (i - 1) as nat, d1, d2);
    }
}

/// No two distinct particles overlap: centres at least the sum of the
/// radii apart.
pub open spec fn separated(objs: Seq<CircleView>) -> bool {
    forall|i: int, j: int|
        0 <= i < objs.len() && 0 <= j < objs.len() && i != j ==> norm_sq(
            crate::vec2::vsub(objs[j].position, objs[i].position),
        ) >= (objs[i].radius + objs[j].radius) * (objs[i].radius + objs[j].radius)
}

/// Every bucket of `grid` lists indices below `n` only.
pub open spec fn grid_within(grid: Seq<Seq<usize>>, n: int) -> bool {
    &&& grid.len() == BUCKET_COUNT
    &&& forall|c: int, k: int| 0 <= c < grid.len() && 0 <= k < grid[c].len() ==> (#[trigger] grid[c][k] as int) < n
}

proof fn lemma_candidates_within(grid: Seq<Seq<usize>>, nb: Seq<usize>, n: int)
    requires
        grid_within(grid, n),
        forall|t: int| 0 <= t < nb.len() ==> #[trigger] nb[t] < BUCKET_COUNT,
    ensures
        forall|k: int| 0 <= k < candidates(grid, nb).len() ==> (#[trigger] candidates(grid, nb)[k] as int) < n,
    decreases nb.len(),
{
    if nb.len() > 0 {
        let prev = nb.drop_last();
        assert forall|t: int| 0 <= t < prev.len() implies #[trigger] prev[t] < BUCKET_COUNT by {
            assert(prev[t] == nb[t]);
        }
        lemma_candidates_within(grid, prev, n);
        let c = candidates(grid, prev);
        let last = grid[nb.last() as int];
        assert forall|k: int| 0 <= k < candidates(grid, nb).len() implies (#[trigger] candidates(
            grid,
            nb,
        )[k] as int) < n by {
            if k < c.len() {
                assert(candidates(grid, nb)[k] == c[k]);
            } else {
                assert(candidates(grid, nb)[k] == last[k - c.len()]);
            }
        }
    }
}

proof fn lemma_turn_unchanged(objs: Seq<CircleView>, i: int, js: Seq<usize>, ds: Seq<(int, int)>)
    requires
        0 <= i < objs.len(),
        forall|m: int| 0 <= m < objs.len() ==> (#[trigger] objs[m]).wf(),
        separated(objs),
        forall|k: int| 0 <= k < js.len() ==> (#[trigger] js[k] as int) < objs.len(),
    ensures
        resolve_turn(objs, i, js, ds) == objs,
    decreases js.len(),
{
    if js.len() > 0 {
        let prev = js.drop_last();
        assert forall|k: int| 0 <= k < prev.len() implies (#[trigger] prev[k] as int) < objs.len() by {
            assert(prev[k] == js[k]);
        }
        lemma_turn_unchanged(objs, i, prev, ds);
        let j = js.last() as int;
        assert(j < objs.len());
        if i != j {
            law_separated_pair_unchanged(objs[i], objs[j], ds[js.len() - 1]);
            assert(objs.update(i, objs[i]).update(j, objs[j]) =~= objs);
        }
    }
}

/// When no two particles overlap and every bucket lists valid indices only,
/// the collision pass leaves every particle where it is, whatever the
/// directions.
pub proof fn law_separated_pass_unchanged(
    objs: Seq<CircleView>,
    grid: Seq<Seq<usize>>,
    width: int,
    height: int,
    n: nat,
    dirs: Seq<Seq<(int, int)>>,
)
    requires
        n <= objs.len(),
        forall|m: int| 0 <= m < objs.len() ==> (#[trigger] objs[m]).wf(),
        separated(objs),
        grid_within(grid, objs.len() as int),
    ensures
        pass(objs, grid, width, height, n, dirs) == objs,
    decreases n,
{
    if n > 0 {
        law_separated_pass_unchanged(objs, grid, width, height, (n - 1) as nat, dirs);
        let b = bucket_spec(objs[n - 1].position.0, objs[n - 1].position.1, width, height);
        lemma_block_valid(b, 9);
        lemma_candidates_within(grid, neighbor_seq(b), objs.len() as int);
        lemma_turn_unchanged(objs, n - 1, candidates(grid, neighbor_seq(b)), dirs[n - 1]);
    }
}

/// `after` is what `hook` returned for `before` integrated over `dt`.
pub open spec fn hooked<H: Fn(Circle) -> Circle>(
    hook: H,
    before: CircleView,
    after: Circle,
    dt: int,
) -> bool {
    exists|m: Circle| #[trigger] m@ == integrated(before, dt) && call_ensures(hook, (m,), after)
}

/// Each particle of `after` is what `hook` returned for the matching
/// particle of `collided` integrated over `dt`.
pub open spec fn all_hooked<H: Fn(Circle) -> Circle>(
    hook: H,
    collided: Seq<CircleView>,
    after: Seq<Circle>,
    dt: int,
) -> bool {
    &&& after.len() == collided.len()
    &&& forall|i: int| 0 <= i < after.len() ==> hooked(hook, collided[i], #[trigger] after[i], dt)
}

/// A simulation world over the domain `[0, width) × [0, height)`.
pub struct PhysicsWorld {
    objects: Vec<Circle>,
    size: (u32, u32),
    grid: Vec<Vec<usize>>,
    slots: Ghost<Seq<int>>,
}

impl View for PhysicsWorld {
    type V = Seq<CircleView>;

    closed spec fn view(&self) -> Seq<CircleView> {
        self.objects@.map_values(|p: Circle| p@)
    }
}

impl PhysicsWorld {
    /// The particles, by index.
    pub closed spec fn particles(&self) -> Seq<Circle> {
        self.objects@
    }

    pub closed spec fn width(&self) -> int {
        self.size.0 as int
    }

    pub closed spec fn height(&self) -> int {
        self.size.1 as int
    }

    /// The bucket each particle index was filed under.
    pub closed spec fn slots(&self) -> Seq<int> {
        self.slots@
    }

    /// The contents of each bucket.
    pub closed spec fn buckets(&self) -> Seq<Seq<usize>> {
        self.grid@.map_values(|v: Vec<usize>| v@)
    }

    /// Every index is filed in exactly one bucket, the buckets list their
    /// indices in ascending order, and the model agrees with the particles.
    pub closed spec fn wf(&self) -> bool {
        &&& self.grid@.len() == BUCKET_COUNT
        &&& self.slots@.len() == self.objects@.len()
        &&& self.objects@.len() <= usize::MAX
        &&& forall|b: int| 0 <= b < BUCKET_COUNT ==> #[trigger] self.grid@[b]@ == members(
            self.slots@,
            self.objects@.len(),
            b,
        )
        &&& forall|i: int| 0 <= i < self.slots@.len() ==> 0 <= #[trigger] self.slots@[i] < BUCKET_COUNT
    }

    /// Each index appears in the bucket it is filed under, and nowhere else.
    pub proof fn lemma_grid_exact(&self, i: int, b: int)
        requires
            self.wf(),
            0 <= i < self@.len(),
            0 <= b < BUCKET_COUNT,
        ensures
            self.buckets().len() == BUCKET_COUNT,
            grid_within(self.buckets(), self@.len() as int),
            self.buckets()[b].contains(i as usize) <==> self.slots()[i] == b,
            self.buckets()[b].no_duplicates(),
            forall|k: usize| #[trigger] self.buckets()[b].contains(k) ==> (k as int) < self@.len(),
    {
        lemma_members(self.slots@, self.objects@.len() as nat, b);
        assert(self.buckets()[b] == self.grid@[b]@);
        assert(self@.len() == self.objects@.len());
        assert forall|c: int, k: int|
            0 <= c < self.buckets().len() && 0 <= k < self.buckets()[c].len() implies (
            #[trigger] self.buckets()[c][k] as int) < self@.len() by {
            lemma_members(self.slots@, self.objects@.len() as nat, c);
            assert(self.buckets()[c] == self.grid@[c]@);
        }
        assert forall|k: usize| #[trigger] self.buckets()[b].contains(k) implies (k as int)
            < self@.len() by {
            let q = choose|q: int| 0 <= q < self.buckets()[b].len() && self.buckets()[b][q] == k;
            assert(members(self.slots@, self.objects@.len() as nat, b)[q] == k);
        }
        if self.slots()[i] == b {
            assert(members(self.slots@, self.objects@.len() as nat, b).contains(i as usize));
        }
        if self.buckets()[b].contains(i as usize) {
            let k = choose|k: int|
                0 <= k < self.buckets()[b].len() && self.buckets()[b][k] == i as usize;
            assert(members(self.slots@, self.objects@.len() as nat, b)[k] == i as usize);
        }
    }

    /// An empty world over a `width × height` domain.
    pub fn new(width: u32, height: u32) -> (r: PhysicsWorld)
        ensures
            r.wf(),
            r@ == Seq::<CircleView>::empty(),
            r.buckets() == Seq::new(BUCKET_COUNT as nat, |b: int| Seq::<usize>::empty()),
            r.width() == width,
            r.height() == height,
    {
        let mut grid: Vec<Vec<usize>> = Vec::new();
        let mut b: usize = 0;
        while b < BUCKET_COUNT
            invariant
                b <= BUCKET_COUNT,
                grid@.len() == b,
                forall|c: int| 0 <= c < b ==> (#[trigger] grid@[c])@ == Seq::<usize>::empty(),
            decreases BUCKET_COUNT - b,
        {
            grid.push(Vec::new());
            b = b + 1;
        }
        let r = PhysicsWorld {
            objects: Vec::new(),
            size: (width, height),
            grid,
            slots: Ghost(Seq::empty()),
        };
        assert(r@ =~= Seq::<CircleView>::empty());
        assert(r.buckets() =~= Seq::new(BUCKET_COUNT as nat, |b: int| Seq::<usize>::empty()));
        r
    }

    /// The number of particles.
    pub fn count(&self) -> (r: usize)
        ensures
            r == self@.len(),
    {
        self.objects.len()
    }

    /// Appends a particle and files it under the bucket of its position. Earlier
    /// particles keep their indices and values.
    pub fn push_object(&mut self, circle: Circle)
        requires
            old(self).wf(),
            old(self)@.len() < usize::MAX,
        ensures
            final(self).wf(),
            final(self)@ == old(self)@.push(circle@),
            final(self).particles() == old(self).particles().push(circle),
            final(self).slots() == old(self).slots().push(
                bucket_spec(
                    circle@.position.0,
                    circle@.position.1,
                    old(self).width(),
                    old(self).height(),
                ),
            ),
            final(self).buckets() == old(self).buckets().update(
                bucket_spec(
                    circle@.position.0,
                    circle@.position.1,
                    old(self).width(),
                    old(self).height(),
                ),
                old(self).buckets()[bucket_spec(
                    circle@.position.0,
                    circle@.position.1,
                    old(self).width(),
                    old(self).height(),
                )].push(old(self)@.len() as usize),
            ),
            final(self).width() == old(self).width(),
            final(self).height() == old(self).height(),
    {
        let pos = circle.get_position();
        let b = bucket_of(pos.x, pos.y, self.size.0, self.size.1);
        let n = self.objects.len();
        let ghost old_slots = self.slots@;
        let ghost old_grid = self.grid@;
        self.grid[b].push(n);
        self.objects.push(circle);
        self.slots = Ghost(self.slots@.push(b as int));
        proof {
            assert forall|c: int| 0 <= c < BUCKET_COUNT implies #[trigger] self.grid@[c]@
                == members(self.slots@, self.objects@.len(), c) by {
                lemma_members_prefix(self.slots@, old_slots, n as nat, c);
                if c != b {
                    assert(self.grid@[c] == old_grid[c]);
                }
            }
            assert(self@ =~= old(self)@.push(circle@));
            assert(self.buckets() =~= old(self).buckets().update(
                b as int,
                old(self).buckets()[b as int].push(n),
            ));
        }
    }

    /// The particle at `index`, if there is one.
    pub fn get_object(&self, index: usize) -> (r: Option<&Circle>)
        ensures
            index < self@.len() ==> r == Some(&self.particles()[index as int]),
            index >= self@.len() ==> r is None,
    {
        if index < self.objects.len() {
            Some(&self.objects[index])
        } else {
            None
        }
    }

    /// The particle at `index` for in-place changes, if there is one. The
    /// grid is not refiled: a moved particle is found under its old bucket
    /// until the next `update`.
    pub fn get_object_mut(&mut self, index: usize) -> (r: Option<&mut Circle>)
        requires
            old(self).wf(),
        ensures
            final(self).wf(),
            (index < old(self)@.len()) == (r is Some),
            r matches Some(p) ==> *p == old(self).particles()[index as int]
                && final(self).particles() == old(self).particles().update(index as int, *final(p)),
            r is None ==> final(self).particles() == old(self).particles(),
            final(self).slots() == old(self).slots(),
            final(self).width() == old(self).width(),
            final(self).height() == old(self).height(),
    {
        if index < self.objects.len() {
            Some(&mut self.objects[index])
        } else {
            None
        }
    }

    /// Resolves collisions of every particle against the particles filed in
    /// the 3×3 block of buckets around its current position.
    fn resolve_all(&mut self)
        requires
            old(self).wf(),
        ensures
            final(self).wf(),
            final(self).slots() == old(self).slots(),
            final(self).buckets() == old(self).buckets(),
            final(self).size == old(self).size,
            final(self).objects@.len() == old(self).objects@.len(),
            exists|dirs: Seq<Seq<(int, int)>>|
                dirs.len() == old(self)@.len() && dirs_ok(dirs) && #[trigger] pass(
                    old(self)@,
                    old(self).buckets(),
                    old(self).width(),
                    old(self).height(),
                    old(self)@.len() as nat,
                    dirs,
                ) == final(self)@,
    {
        let n = self.objects.len();
        let ghost orig = self@;
        let ghost grid = self.buckets();
        let ghost w = self.width();
        let ghost h = self.height();
        proof {
            assert forall|c: int, k: int|
                0 <= c < BUCKET_COUNT && 0 <= k < self.grid@[c]@.len() implies (
                #[trigger] self.grid@[c]@[k]) < n by {
                lemma_members(self.slots@, n as nat, c);
            }
        }
        let ghost mut dirs: Seq<Seq<(int, int)>> = Seq::empty();
        let mut i: usize = 0;
        while i < n
            invariant
                self.wf(),
                i <= n,
                self.objects@.len() == n,
                orig.len() == n,
                self.slots@ == old(self).slots@,
                self.size == old(self).size,
                grid == self.buckets(),
                w == self.width(),
                h == self.height(),
                forall|c: int, k: int|
                    0 <= c < BUCKET_COUNT && 0 <= k < self.grid@[c]@.len() ==> (
                    #[trigger] self.grid@[c]@[k]) < n,
                dirs.len() == i,
                dirs_ok(dirs),
                self@ == pass(orig, grid, w, h, i as nat, dirs),
            decreases n - i,
        {
            let ghost start = self@;
            let pos = self.objects[i].get_position();
            assert(pos@ == start[i as int].position);
            let b = bucket_of(pos.x, pos.y, self.size.0, self.size.1);
            let nb = neighbor_buckets(b);
            let ghost mut ds: Seq<(int, int)> = Seq::empty();
            let mut t: usize = 0;
            while t < nb.len()
                invariant
                    self.wf(),
                    i < n,
                    self.objects@.len() == n,
                    self.slots@ == old(self).slots@,
                    self.size == old(self).size,
                    grid == self.buckets(),
                    forall|j: int| 0 <= j < nb@.len() ==> #[trigger] nb@[j] < BUCKET_COUNT,
                    forall|c: int, k: int|
                        0 <= c < BUCKET_COUNT && 0 <= k < self.grid@[c]@.len() ==> (
                        #[trigger] self.grid@[c]@[k]) < n,
                    t <= nb@.len(),
                    ds.len() == candidates(grid, nb@.take(t as int)).len(),
                    forall|k: int| 0 <= k < ds.len() ==> dir_ok(#[trigger] ds[k]),
                    self@ == resolve_turn(start, i as int, candidates(grid, nb@.take(t as int)), ds),
                decreases nb@.len() - t,
            {
                let c = nb[t];
                let ghost before = candidates(grid, nb@.take(t as int));
                let mut k: usize = 0;
                while k < self.grid[c].len()
                    invariant
                        self.wf(),
                        i < n,
                        c < BUCKET_COUNT,
                        self.objects@.len() == n,
                        self.slots@ == old(self).slots@,
                        self.size == old(self).size,
                        grid == self.buckets(),
                        forall|c: int, k: int|
                            0 <= c < BUCKET_COUNT && 0 <= k < self.grid@[c]@.len() ==> (
                            #[trigger] self.grid@[c]@[k]) < n,
                        k <= grid[c as int].len(),
                        ds.len() == before.len() + k,
                        forall|q: int| 0 <= q < ds.len() ==> dir_ok(#[trigger] ds[q]),
                        self@ == resolve_turn(
                            start,
                            i as int,
                            before + grid[c as int].take(k as int),
                            ds,
                        ),
                    decreases self.grid@[c as int]@.len() - k,
                {
                    let j = self.grid[c][k];
                    assert(j < n);
                    assert(j == grid[c as int][k as int]);
                    let ghost js = before + grid[c as int].take(k as int);
                    let ghost cur = self@;
                    assert(before + grid[c as int].take(k + 1) =~= js.push(j));
                    if j != i {
                        let mut a = self.objects[i];
                        let mut o = self.objects[j];
                        let ghost a0 = a;
                        let ghost o0 = o;
                        a.resolve_collision(&mut o);
                        let ghost d = choose|d: (int, int)|
                            dir_ok(d) && (a@, o@) == resolved(a0@, o0@, d);
                        self.objects.set(i, a);
                        self.objects.set(j, o);
                        proof {
                            lemma_turn_prefix(start, i as int, js, ds, ds.push(d));
                            ds = ds.push(d);
                            assert(self@ =~= collide_step(cur, i as int, j as int, d));
                            assert(js.push(j).drop_last() =~= js);
                        }
                    } else {
                        proof {
                            let d = (1024int, 0int);
                            assert(d.0 == 1024 && d.1 == 0);
                            assert(norm_sq(d) == d.0 * d.0 + d.1 * d.1);
                            assert(d.0 * d.0 + d.1 * d.1 == 1048576) by (nonlinear_arith)
                                requires
                                    d.0 == 1024,
                                    d.1 == 0,
                            ;
                            lemma_turn_prefix(start, i as int, js, ds, ds.push(d));
                            ds = ds.push(d);
                            assert(js.push(j).drop_last() =~= js);
                        }
                    }
                    k = k + 1;
                }
                proof {
                    assert(grid[c as int].take(k as int) =~= grid[c as int]);
                    assert(nb@.take(t + 1).drop_last() =~= nb@.take(t as int));
                }
                t = t + 1;
            }
            proof {
                assert(nb@.take(t as int) =~= nb@);
                let nd = dirs.push(ds);
                lemma_pass_prefix(orig, grid, w, h, i as nat, dirs, nd);
                dirs = nd;
            }
            i = i + 1;
        }
    }

    /// Advances the world by `d_t`. First every particle in index order is
    /// separated from the overlapping particles filed near it; then the grid
    /// is emptied, and each particle in index order is integrated, handed to
    /// `hook` (which may add forces or constrain it), and filed under its new
    /// bucket. Only the directions used for coincident centres are left open.
    pub fn update<H: Fn(Circle) -> Circle>(&mut self, d_t: i64, hook: &H)
        requires
            old(self).wf(),
            0 < d_t <= DT_LIMIT,
            forall|p: Circle| call_requires(*hook, (p,)),
        ensures
            final(self).wf(),
            final(self)@.len() == old(self)@.len(),
            final(self).width() == old(self).width(),
            final(self).height() == old(self).height(),
            exists|dirs: Seq<Seq<(int, int)>>|
                dirs.len() == old(self)@.len() && dirs_ok(dirs) && #[trigger] all_hooked(
                    *hook,
                    pass(
                        old(self)@,
                        old(self).buckets(),
                        old(self).width(),
                        old(self).height(),
                        old(self)@.len() as nat,
                        dirs,
                    ),
                    final(self).particles(),
                    d_t as int,
                ),
            forall|i: int|
                0 <= i < final(self)@.len() ==> #[trigger] final(self).slots()[i] == bucket_spec(
                    final(self)@[i].position.0,
                    final(self)@[i].position.1,
                    final(self).width(),
                    final(self).height(),
                ),
            (forall|p: Circle, q: Circle|
                #[trigger] call_ensures(*hook, (p,), q) ==> q@.force == p@.force)
                ==> forall|i: int|
                0 <= i < final(self)@.len() ==> (#[trigger] final(self)@[i]).force == (0int, 0int),
    {
        self.resolve_all();
        let ghost dirs = choose|dirs: Seq<Seq<(int, int)>>|
            dirs.len() == old(self)@.len() && dirs_ok(dirs) && #[trigger] pass(
                old(self)@,
                old(self).buckets(),
                old(self).width(),
                old(self).height(),
                old(self)@.len() as nat,
                dirs,
            ) == self@;
        let ghost moved = self.objects@;
        let ghost collided = self@;
        let n = self.objects.len();
        let mut c: usize = 0;
        while c < BUCKET_COUNT
            invariant
                self.grid@.len() == BUCKET_COUNT,
                forall|e: int| 0 <= e < c ==> (#[trigger] self.grid@[e])@ == Seq::<usize>::empty(),
                self.objects@ == moved,
                self.size == old(self).size,
            decreases BUCKET_COUNT - c,
        {
            self.grid[c].clear();
            c = c + 1;
        }
        let ghost mut filed: Seq<int> = Seq::empty();
        let mut i: usize = 0;
        while i < n
            invariant
                i <= n,
                0 < d_t <= DT_LIMIT,
                n == moved.len(),
                n <= usize::MAX,
                n == old(self)@.len(),
                collided.len() == n,
                forall|m: int| 0 <= m < n ==> (#[trigger] moved[m])@ == collided[m],
                self.size == old(self).size,
                self.grid@.len() == BUCKET_COUNT,
                self.objects@.len() == n,
                filed.len() == i,
                forall|m: int| i <= m < n ==> #[trigger] self.objects@[m] == moved[m],
                forall|b: int|
                    0 <= b < BUCKET_COUNT ==> #[trigger] self.grid@[b]@ == members(filed, i as nat, b),
                forall|m: int|
                    0 <= m < i ==> #[trigger] filed[m] == bucket_spec(
                        self.objects@[m]@.position.0,
                        self.objects@[m]@.position.1,
                        self.size.0 as int,
                        self.size.1 as int,
                    ) && 0 <= filed[m] < BUCKET_COUNT,
                forall|m: int|
                    0 <= m < i ==> hooked(*hook, collided[m], #[trigger] self.objects@[m], d_t as int),
                forall|p: Circle| call_requires(*hook, (p,)),
            decreases n - i,
        {
            let mut p = self.objects[i];
            p.update(d_t);
            assert(p@ == integrated(collided[i as int], d_t as int));
            let q = hook(p);
            let ghost old_objs = self.objects@;
            self.objects.set(i, q);
            let pos = q.get_position();
            let b = bucket_of(pos.x, pos.y, self.size.0, self.size.1);
            let ghost prev_grid = self.grid@;
            self.grid[b].push(i);
            proof {
                let old_filed = filed;
                filed = filed.push(b as int);
                assert forall|e: int| 0 <= e < BUCKET_COUNT implies #[trigger] self.grid@[e]@
                    == members(filed, (i + 1) as nat, e) by {
                    lemma_members_prefix(filed, old_filed, i as nat, e);
                    if e != b {
                        assert(self.grid@[e] == prev_grid[e]);
                    }
                }
                assert forall|m: int| 0 <= m < i + 1 implies hooked(
                    *hook,
                    collided[m],
                    #[trigger] self.objects@[m],
                    d_t as int,
                ) by {
                    if m == i {
                        assert(p@ == integrated(collided[m], d_t as int));
                    } else {
                        assert(self.objects@[m] == old_objs[m]);
                    }
                }
            }
            i = i + 1;
        }
        self.slots = Ghost(filed);
        proof {
            assert forall|b: int| 0 <= b < BUCKET_COUNT implies #[trigger] self.grid@[b]@
                == members(self.slots@, self.objects@.len(), b) by {}
            assert(all_hooked(*hook, collided, self.objects@, d_t as int));
            assert(all_hooked(
                *hook,
                pass(
                    old(self)@,
                    old(self).buckets(),
                    old(self).width(),
                    old(self).height(),
                    old(self)@.len() as nat,
                    dirs,
                ),
                self.particles(),
                d_t as int,
            ));
            if forall|p: Circle, q: Circle|
                #[trigger] call_ensures(*hook, (p,), q) ==> q@.force == p@.force {
                assert forall|i: int| 0 <= i < self@.len() implies (#[trigger] self@[i]).force == (
                0int,
                0int,
            ) by {
                    assert(hooked(*hook, collided[i], self.objects@[i], d_t as int));
                    let m = choose|m: Circle|
                        #[trigger] m@ == integrated(collided[i], d_t as int) && call_ensures(
                            *hook,
                            (m,),
                            self.objects@[i],
                        );
                    assert(self@[i] == self.objects@[i]@);
                }
            }
        }
    }

    /// All particles, by index.
    pub fn get_objects(&self) -> (r: &Vec<Circle>)
        ensures
            r@ == self.particles(),
    {
        &self.objects
    }
}

} // verus!
