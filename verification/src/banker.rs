use vstd::prelude::*;

verus! {

/// The abstract state of the banker: what is left of each resource, and for each
/// thread what it holds of each resource and the most it may ever hold.
pub ghost struct BankView {
    pub available: Seq<int>,
    pub allocation: Seq<Seq<int>>,
    pub max: Seq<Seq<int>>,
}

/// The values of an array, as integers.
pub open spec fn row_view<const N: usize>(a: [usize; N]) -> Seq<int> {
    Seq::new(N as nat, |j: int| a[j] as int)
}

/// The rows of a matrix, as sequences of integers.
pub open spec fn matrix_view<const N: usize, const M: usize>(m: [[usize; N]; M]) -> Seq<Seq<int>> {
    Seq::new(M as nat, |i: int| row_view(m[i]))
}

impl BankView {
    pub open spec fn nres(self) -> nat {
        self.available.len()
    }

    pub open spec fn nth(self) -> nat {
        self.allocation.len()
    }

    /// What thread `i` may still ask for of resource `j`.
    pub open spec fn need(self, i: int, j: int) -> int {
        self.max[i][j] - self.allocation[i][j]
    }

    /// What the threads of `s` among the first `n` hold of resource `j`.
    pub open spec fn held(self, j: int, s: Set<int>, n: nat) -> int
        decreases n,
    {
        if n == 0 {
            0
        } else {
            self.held(j, s, (n - 1) as nat) + if s.contains(n - 1) {
                self.allocation[n - 1][j]
            } else {
                0
            }
        }
    }

    /// What is left of resource `j` once the threads of `s` have finished and
    /// given back all they hold.
    pub open spec fn work(self, s: Set<int>, j: int) -> int {
        self.available[j] + self.held(j, s, self.nth())
    }

    /// Thread `i` can run to completion once the threads of `s` have finished.
    pub open spec fn can_finish(self, i: int, s: Set<int>) -> bool {
        forall|j: int| 0 <= j < self.nres() ==> #[trigger] self.need(i, j) <= self.work(s, j)
    }

    /// `s` orders all threads so that each can finish after those before it.
    pub open spec fn is_safe_sequence(self, s: Seq<int>) -> bool {
        &&& s.no_duplicates()
        &&& forall|k: int| 0 <= k < s.len() ==> 0 <= #[trigger] s[k] < self.nth()
        &&& forall|i: int| 0 <= i < self.nth() ==> #[trigger] s.contains(i)
        &&& forall|k: int|
            0 <= k < s.len() ==> self.can_finish(#[trigger] s[k], s.take(k).to_set())
    }

    /// Some order lets every thread run to completion.
    pub open spec fn is_safe(self) -> bool {
        exists|s: Seq<int>| self.is_safe_sequence(s)
    }

    pub open spec fn all_threads(self) -> Set<int> {
        Set::new(|i: int| 0 <= i < self.nth())
    }

    /// What exists of resource `j`, left or held.
    pub open spec fn total(self, j: int) -> int {
        self.work(self.all_threads(), j)
    }

    pub open spec fn well_formed(self) -> bool {
        &&& self.max.len() == self.nth()
        &&& forall|i: int|
            0 <= i < self.nth() ==> (#[trigger] self.allocation[i]).len() == self.nres()
                && self.max[i].len() == self.nres()
        &&& forall|j: int| 0 <= j < self.nres() ==> 0 <= #[trigger] self.available[j]
        &&& forall|i: int, j: int|
            0 <= i < self.nth() && 0 <= j < self.nres() ==> 0 <= #[trigger] self.allocation[i][j]
                <= self.max[i][j]
        &&& forall|j: int| 0 <= j < self.nres() ==> #[trigger] self.total(j) <= usize::MAX
    }

    /// The state after thread `id` is given one unit of resource `r`.
    pub open spec fn grant(self, id: int, r: int) -> BankView {
        BankView {
            available: self.available.update(r, self.available[r] - 1),
            allocation: self.allocation.update(
                id,
                self.allocation[id].update(r, self.allocation[id][r] + 1),
            ),
            max: self.max,
        }
    }

    /// The state after thread `id` gives back one unit of resource `r`.
    pub open spec fn give_back(self, id: int, r: int) -> BankView {
        BankView {
            available: self.available.update(r, self.available[r] + 1),
            allocation: self.allocation.update(
                id,
                self.allocation[id].update(r, self.allocation[id][r] - 1),
            ),
            max: self.max,
        }
    }

    /// A request the banker looks at: a known thread, a known resource, one unit left.
    pub open spec fn request_valid(self, id: int, r: int) -> bool {
        0 <= id < self.nth() && 0 <= r < self.nres() && self.available[r] > 0
    }

    /// Handing thread `id` one more unit of `r` keeps it within its claim.
    pub open spec fn within_claim(self, id: int, r: int) -> bool {
        self.allocation[id][r] < self.max[id][r]
    }

    /// A release the banker carries out: a known thread that holds some of a known resource.
    pub open spec fn release_valid(self, id: int, r: int) -> bool {
        0 <= id < self.nth() && 0 <= r < self.nres() && self.allocation[id][r] > 0
    }
}

/// The number of members of `s` below `n`.
pub open spec fn count_below(s: Set<int>, n: nat) -> nat
    decreases n,
{
    if n == 0 {
        0
    } else {
        count_below(s, (n - 1) as nat) + if s.contains(n - 1) {
            1nat
        } else {
            0nat
        }
    }
}

proof fn lemma_count_insert(s: Set<int>, x: int, n: nat)
    requires
        !s.contains(x),
        0 <= x < n,
    ensures
        count_below(s.insert(x), n) == count_below(s, n) + 1,
    decreases n,
{
    if x < n - 1 {
        lemma_count_insert(s, x, (n - 1) as nat);
    } else {
        lemma_count_bounded_eq(s, s.insert(x), (n - 1) as nat);
    }
}

proof fn lemma_count_bounded_eq(s: Set<int>, t: Set<int>, n: nat)
    requires
        forall|i: int| 0 <= i < n ==> (s.contains(i) <==> t.contains(i)),
    ensures
        count_below(s, n) == count_below(t, n),
    decreases n,
{
    if n > 0 {
        lemma_count_bounded_eq(s, t, (n - 1) as nat);
    }
}

proof fn lemma_count_le(s: Set<int>, n: nat)
    ensures
        count_below(s, n) <= n,
    decreases n,
{
    if n > 0 {
        lemma_count_le(s, (n - 1) as nat);
    }
}

impl BankView {
    proof fn lemma_held_nonneg(self, j: int, s: Set<int>, n: nat)
        requires
            self.well_formed(),
            0 <= j < self.nres(),
            n <= self.nth(),
        ensures
            0 <= self.held(j, s, n),
        decreases n,
    {
        if n > 0 {
            self.lemma_held_nonneg(j, s, (n - 1) as nat);
            assert(0 <= self.allocation[n - 1][j]);
        }
    }

    proof fn lemma_held_same(self, j: int, s: Set<int>, t: Set<int>, n: nat)
        requires
            forall|i: int| 0 <= i < n ==> (s.contains(i) <==> t.contains(i)),
        ensures
            self.held(j, s, n) == self.held(j, t, n),
        decreases n,
    {
        if n > 0 {
            self.lemma_held_same(j, s, t, (n - 1) as nat);
        }
    }

    proof fn lemma_held_insert(self, j: int, s: Set<int>, x: int, n: nat)
        requires
            !s.contains(x),
            0 <= x < n,
        ensures
            self.held(j, s.insert(x), n) == self.held(j, s, n) + self.allocation[x][j],
        decreases n,
    {
        if x < n - 1 {
            self.lemma_held_insert(j, s, x, (n - 1) as nat);
        } else {
            self.lemma_held_same(j, s, s.insert(x), (n - 1) as nat);
        }
    }

    proof fn lemma_held_mono(self, j: int, s: Set<int>, t: Set<int>, n: nat)
        requires
            self.well_formed(),
            0 <= j < self.nres(),
            n <= self.nth(),
            forall|i: int| 0 <= i < n && s.contains(i) ==> t.contains(i),
        ensures
            self.held(j, s, n) <= self.held(j, t, n),
        decreases n,
    {
        if n > 0 {
            self.lemma_held_mono(j, s, t, (n - 1) as nat);
            assert(0 <= self.allocation[n - 1][j]);
        }
    }

    /// What a set of threads holds is at most what all threads hold.
    proof fn lemma_work_le_total(self, s: Set<int>, j: int)
        requires
            self.well_formed(),
            0 <= j < self.nres(),
        ensures
            self.available[j] <= self.work(s, j) <= self.total(j),
    {
        self.lemma_held_mono(j, s, self.all_threads(), self.nth());
        self.lemma_held_nonneg(j, s, self.nth());
    }

    /// The first element of `s` outside `f`, searched from `lo` on, given that
    /// `s[k0]` lies outside `f`.
    proof fn first_outside(s: Seq<int>, f: Set<int>, lo: int, k0: int) -> (k: int)
        requires
            0 <= lo <= k0 < s.len(),
            !f.contains(s[k0]),
            forall|l: int| 0 <= l < lo ==> f.contains(#[trigger] s[l]),
        ensures
            0 <= k <= k0,
            !f.contains(s[k]),
            forall|l: int| 0 <= l < k ==> f.contains(#[trigger] s[l]),
        decreases k0 - lo,
    {
        if !f.contains(s[lo]) {
            lo
        } else {
            Self::first_outside(s, f, lo + 1, k0)
        }
    }

    /// When the threads of `f` can finish but none of the others can once they have,
    /// no order lets every thread finish.
    proof fn lemma_stuck_is_unsafe(self, f: Set<int>, i0: int)
        requires
            self.well_formed(),
            0 <= i0 < self.nth(),
            !f.contains(i0),
            forall|i: int| 0 <= i < self.nth() && !f.contains(i) ==> !self.can_finish(i, f),
        ensures
            !self.is_safe(),
    {
        if self.is_safe() {
            let s = choose|s: Seq<int>| self.is_safe_sequence(s);
            assert(s.contains(i0));
            let k0 = choose|k: int| 0 <= k < s.len() && s[k] == i0;
            let k = Self::first_outside(s, f, 0, k0);
            let p = s.take(k).to_set();
            assert forall|i: int| 0 <= i < self.nth() && p.contains(i) implies f.contains(i) by {
                let l = choose|l: int| 0 <= l < s.take(k).len() && s.take(k)[l] == i;
                assert(s[l] == i);
            }
            assert(self.can_finish(s[k], p));
            assert forall|j: int| 0 <= j < self.nres() implies #[trigger] self.need(s[k], j)
                <= self.work(f, j) by {
                self.lemma_held_mono(j, p, f, self.nth());
            }
            assert(self.can_finish(s[k], f));
            assert(0 <= s[k] < self.nth());
        }
    }

    /// Giving one unit back takes it out of what the giver holds.
    proof fn lemma_held_give_back(self, j: int, s: Set<int>, id: int, r: int, n: nat)
        requires
            self.well_formed(),
            self.release_valid(id, r),
            0 <= j < self.nres(),
            n <= self.nth(),
        ensures
            self.give_back(id, r).held(j, s, n) == self.held(j, s, n) - if s.contains(id) && id
                < n && j == r {
                1int
            } else {
                0int
            },
        decreases n,
    {
        if n > 0 {
            self.lemma_held_give_back(j, s, id, r, (n - 1) as nat);
        }
    }

    /// Giving one unit takes it out of what is available and adds it to what the taker holds.
    proof fn lemma_held_grant(self, j: int, s: Set<int>, id: int, r: int, n: nat)
        requires
            self.well_formed(),
            self.request_valid(id, r),
            0 <= j < self.nres(),
            n <= self.nth(),
        ensures
            self.grant(id, r).held(j, s, n) == self.held(j, s, n) + if s.contains(id) && id < n
                && j == r {
                1int
            } else {
                0int
            },
        decreases n,
    {
        if n > 0 {
            self.lemma_held_grant(j, s, id, r, (n - 1) as nat);
        }
    }
}


/// The banker's books: what is left of each resource, what each thread holds,
/// and the most each thread may ever hold.
pub struct Resource<const NRES: usize, const NTH: usize> {
    available: [usize; NRES],
    allocation: [[usize; NRES]; NTH],
    max: [[usize; NRES]; NTH],
}

impl<const NRES: usize, const NTH: usize> View for Resource<NRES, NTH> {
    type V = BankView;

    closed spec fn view(&self) -> BankView {
        BankView {
            available: row_view(self.available),
            allocation: matrix_view(self.allocation),
            max: matrix_view(self.max),
        }
    }
}

/// The books of a fresh banker: nothing handed out yet.
pub open spec fn initial_view<const NRES: usize, const NTH: usize>(
    available: [usize; NRES],
    max: [[usize; NRES]; NTH],
) -> BankView {
    BankView {
        available: row_view(available),
        allocation: Seq::new(NTH as nat, |i: int| Seq::new(NRES as nat, |j: int| 0int)),
        max: matrix_view(max),
    }
}

impl<const NRES: usize, const NTH: usize> Resource<NRES, NTH> {
    pub open spec fn wf(&self) -> bool {
        &&& self@.well_formed()
        &&& self@.nres() == NRES
        &&& self@.nth() == NTH
    }

    proof fn lemma_view_shape(&self)
        ensures
            self@.nres() == NRES,
            self@.nth() == NTH,
            self@.max.len() == NTH,
            forall|i: int|
                0 <= i < NTH ==> (#[trigger] self@.allocation[i]).len() == NRES
                    && self@.max[i].len() == NRES,
            forall|j: int| 0 <= j < NRES ==> #[trigger] self@.available[j] == self.available[j] as int,
            forall|i: int, j: int|
                0 <= i < NTH && 0 <= j < NRES ==> #[trigger] self@.allocation[i][j]
                    == self.allocation[i][j] as int && self@.max[i][j] == self.max[i][j] as int,
    {
    }

    /// Books with `available` left of each resource, nothing handed out, and
    /// `max[i][j]` the most thread `i` may hold of resource `j`.
    pub fn new(available: [usize; NRES], max: [[usize; NRES]; NTH]) -> (r: Self)
        ensures
            r@ == initial_view(available, max),
            r.wf(),
    {
        let r = Resource { available, allocation: [[0; NRES]; NTH], max };
        proof {
            r.lemma_view_shape();
            assert forall|i: int| 0 <= i < NTH implies #[trigger] r@.allocation[i]
                =~= initial_view(available, max).allocation[i] by {
                assert forall|j: int| 0 <= j < NRES implies r.allocation[i][j] == 0 by {
                    assert(r.allocation[i] == [0usize; NRES]);
                }
            }
            assert(r@.allocation =~= initial_view(available, max).allocation);
            assert(r@ =~= initial_view(available, max));
            assert forall|j: int| 0 <= j < NRES implies #[trigger] r@.total(j) <= usize::MAX by {
                r@.lemma_held_zero(j, r@.all_threads(), NTH as nat);
            }
        }
        r
    }
}

impl BankView {
    /// Handing one unit of a resource to a thread that may still ask for it keeps
    /// the books well formed and leaves what exists of every resource unchanged.
    pub proof fn lemma_grant_well_formed(self, id: int, r: int)
        requires
            self.well_formed(),
            self.request_valid(id, r),
            self.allocation[id][r] < self.max[id][r],
        ensures
            self.grant(id, r).well_formed(),
            forall|j: int| 0 <= j < self.nres() ==> #[trigger] self.grant(id, r).total(j) == self.total(j),
    {
        let g = self.grant(id, r);
        assert(g.all_threads() =~= self.all_threads());
        assert forall|j: int| 0 <= j < self.nres() implies #[trigger] g.total(j) == self.total(j) by {
            self.lemma_held_grant(j, self.all_threads(), id, r, self.nth());
        }
        assert forall|i: int| 0 <= i < g.nth() implies (#[trigger] g.allocation[i]).len() == g.nres()
            && g.max[i].len() == g.nres() by {}
        assert forall|i: int, j: int|
            0 <= i < g.nth() && 0 <= j < g.nres() implies 0 <= #[trigger] g.allocation[i][j]
            <= g.max[i][j] by {
            assert(0 <= self.allocation[i][j] <= self.max[i][j]);
        }
        assert forall|j: int| 0 <= j < g.nres() implies #[trigger] g.total(j) <= usize::MAX by {
            assert(self.total(j) <= usize::MAX);
        }
    }

    /// Taking back one unit a thread holds keeps the books well formed and leaves
    /// what exists of every resource unchanged.
    pub proof fn lemma_give_back_well_formed(self, id: int, r: int)
        requires
            self.well_formed(),
            self.release_valid(id, r),
        ensures
            self.give_back(id, r).well_formed(),
            forall|j: int|
                0 <= j < self.nres() ==> #[trigger] self.give_back(id, r).total(j) == self.total(j),
    {
        let g = self.give_back(id, r);
        assert(g.all_threads() =~= self.all_threads());
        assert forall|j: int| 0 <= j < self.nres() implies #[trigger] g.total(j) == self.total(j) by {
            self.lemma_held_give_back(j, self.all_threads(), id, r, self.nth());
        }
        assert forall|i: int| 0 <= i < g.nth() implies (#[trigger] g.allocation[i]).len() == g.nres()
            && g.max[i].len() == g.nres() by {}
        assert forall|i: int, j: int|
            0 <= i < g.nth() && 0 <= j < g.nres() implies 0 <= #[trigger] g.allocation[i][j]
            <= g.max[i][j] by {
            assert(0 <= self.allocation[i][j] <= self.max[i][j]);
        }
        assert forall|j: int| 0 <= j < g.nres() implies #[trigger] g.total(j) <= usize::MAX by {
            assert(self.total(j) <= usize::MAX);
        }
        assert forall|j: int| 0 <= j < g.nres() implies 0 <= #[trigger] g.available[j] by {
            assert(0 <= self.available[j]);
        }
    }

    /// Giving back the unit just handed out restores the books exactly.
    pub proof fn lemma_give_back_undoes_grant(self, id: int, r: int)
        requires
            self.well_formed(),
            self.request_valid(id, r),
        ensures
            self.grant(id, r).give_back(id, r) == self,
    {
        let b = self.grant(id, r).give_back(id, r);
        assert(b.available =~= self.available);
        assert(b.allocation[id] =~= self.allocation[id]);
        assert(b.allocation =~= self.allocation);
    }

    /// A release never makes a safe state unsafe: the order that let every thread
    /// finish before still does.
    pub proof fn lemma_release_keeps_safe(self, id: int, r: int)
        requires
            self.well_formed(),
            self.release_valid(id, r),
            self.is_safe(),
        ensures
            self.give_back(id, r).is_safe(),
    {
        let g = self.give_back(id, r);
        let s = choose|s: Seq<int>| self.is_safe_sequence(s);
        assert forall|k: int| 0 <= k < s.len() implies g.can_finish(
            #[trigger] s[k],
            s.take(k).to_set(),
        ) by {
            let p = s.take(k).to_set();
            assert(self.can_finish(s[k], p));
            assert forall|j: int| 0 <= j < g.nres() implies #[trigger] g.need(s[k], j) <= g.work(
                p,
                j,
            ) by {
                self.lemma_held_give_back(j, p, id, r, self.nth());
                assert(self.need(s[k], j) <= self.work(p, j));
                if s[k] == id && j == r {
                    if p.contains(id) {
                        let l = choose|l: int| 0 <= l < s.take(k).len() && s.take(k)[l] == id;
                        assert(s[l] == s[k]);
                    }
                }
            }
        }
        assert(g.is_safe_sequence(s));
    }
}

impl<const NRES: usize, const NTH: usize> Resource<NRES, NTH> {
    /// The threads of `order` have finished, in that order, each once those before it
    /// had; `finish` marks them and `work` is what is left of each resource then.
    spec fn scan_state(&self, finish: [bool; NTH], work: [usize; NRES], order: Seq<int>) -> bool {
        &&& order.no_duplicates()
        &&& forall|k: int| 0 <= k < order.len() ==> 0 <= #[trigger] order[k] < NTH
        &&& forall|i: int| 0 <= i < NTH ==> (#[trigger] finish[i] <==> order.contains(i))
        &&& forall|j: int| 0 <= j < NRES ==> #[trigger] work[j] as int == self@.work(order.to_set(), j)
        &&& forall|k: int|
            0 <= k < order.len() ==> self@.can_finish(#[trigger] order[k], order.take(k).to_set())
        &&& count_below(order.to_set(), NTH as nat) == order.len()
    }

    /// Whether some order lets every thread run to completion. The search goes over
    /// the threads again and again, each time letting the first unfinished thread whose
    /// remaining need fits in what is left finish and give back what it holds.
    pub fn is_safe(&self) -> (r: bool)
        requires
            self.wf(),
        ensures
            r == self@.is_safe(),
    {
        let mut finish: [bool; NTH] = [false; NTH];
        let mut work: [usize; NRES] = self.available;
        let ghost mut order: Seq<int> = Seq::empty();
        proof {
            self.lemma_view_shape();
            assert forall|j: int| 0 <= j < NRES implies #[trigger] work[j] as int == self@.work(
                order.to_set(),
                j,
            ) by {
                self@.lemma_held_zero_set(j, order.to_set(), NTH as nat);
            }
            lemma_count_empty(order.to_set(), NTH as nat);
        }
        loop
            invariant
                self.wf(),
                self.scan_state(finish, work, order),
            ensures
                !self@.is_safe(),
            decreases NTH - order.len(),
        {
            let ghost order0 = order;
            let mut found = false;
            let mut num_true: usize = 0;
            let mut i: usize = 0;
            while i < NTH && !found
                invariant
                    self.wf(),
                    self.scan_state(finish, work, order),
                    i <= NTH,
                    num_true <= i,
                    num_true == i <==> forall|l: int| 0 <= l < i ==> #[trigger] finish[l],
                    !found ==> order == order0,
                    !found ==> forall|l: int|
                        0 <= l < i && !#[trigger] finish[l] ==> !self@.can_finish(l, order.to_set()),
                    found ==> order.len() == order0.len() + 1 && num_true < NTH,
                decreases NTH - i, if found { 0int } else { 1int },
            {
                if finish[i] {
                    proof {
                        assert((forall|l: int| 0 <= l < i + 1 ==> #[trigger] finish[l]) <==> (
                        forall|l: int| 0 <= l < i ==> #[trigger] finish[l])) by {
                            assert(finish[i as int]);
                        }
                    }
                    num_true += 1;
                    i += 1;
                } else {
                    proof {
                        self.lemma_view_shape();
                    }
                    let mut is_avail = true;
                    let mut j: usize = 0;
                    while j < NRES
                        invariant
                            self.wf(),
                            self.scan_state(finish, work, order),
                            i < NTH,
                            j <= NRES,
                            is_avail <==> forall|l: int|
                                0 <= l < j ==> #[trigger] self@.need(i as int, l) <= self@.work(
                                    order.to_set(),
                                    l,
                                ),
                        decreases NRES - j,
                    {
                        proof {
                            self.lemma_view_shape();
                            assert(self@.allocation[i as int][j as int] <= self@.max[i as int][j as int]);
                            assert(work[j as int] as int == self@.work(order.to_set(), j as int));
                        }
                        let need = self.max[i][j] - self.allocation[i][j];
                        assert(self@.need(i as int, j as int) == need as int);
                        if work[j] < need {
                            is_avail = false;
                        }
                        j += 1;
                    }
                    if is_avail {
                        let ghost work0 = work;
                        let ghost f = order.to_set();
                        let mut j: usize = 0;
                        while j < NRES
                            invariant
                                self.wf(),
                                i < NTH,
                                j <= NRES,
                                !f.contains(i as int),
                                forall|l: int|
                                    0 <= l < j ==> #[trigger] work[l] as int == self@.work(
                                        f.insert(i as int),
                                        l,
                                    ),
                                forall|l: int| j <= l < NRES ==> #[trigger] work[l] == work0[l],
                                forall|l: int|
                                    0 <= l < NRES ==> #[trigger] work0[l] as int == self@.work(
                                        f,
                                        l,
                                    ),
                            decreases NRES - j,
                        {
                            proof {
                                self.lemma_view_shape();
                                self@.lemma_held_insert(j as int, f, i as int, NTH as nat);
                                self@.lemma_work_le_total(f.insert(i as int), j as int);
                            }
                            work[j] = work[j] + self.allocation[i][j];
                            j += 1;
                        }
                        let ghost finish0 = finish;
                        finish[i] = true;
                        proof {
                            assert(forall|l: int| 0 <= l < NTH && l != i ==> #[trigger] finish[l]
                                == finish0[l]);
                            assert(!finish0[i as int]);
                            assert((forall|l: int| 0 <= l < i ==> #[trigger] finish[l]) <==> (
                            forall|l: int| 0 <= l < i ==> #[trigger] finish0[l])) by {
                                if forall|l: int| 0 <= l < i ==> #[trigger] finish0[l] {
                                    assert forall|l: int| 0 <= l < i implies #[trigger] finish[l] by {
                                        assert(finish0[l]);
                                    }
                                }
                                if forall|l: int| 0 <= l < i ==> #[trigger] finish[l] {
                                    assert forall|l: int| 0 <= l < i implies #[trigger] finish0[l] by {
                                        assert(finish[l]);
                                    }
                                }
                            }
                            let o2 = order.push(i as int);
                            assert(o2.take(order.len() as int) =~= order);
                            assert forall|x: int| #[trigger] o2.to_set().contains(x) <==> f.insert(
                                i as int,
                            ).contains(x) by {
                                if o2.contains(x) && x != i {
                                    let k = choose|k: int| 0 <= k < o2.len() && o2[k] == x;
                                    assert(order[k] == x);
                                }
                                if order.contains(x) {
                                    let k = choose|k: int| 0 <= k < order.len() && order[k] == x;
                                    assert(o2[k] == x);
                                }
                                assert(o2[order.len() as int] == i);
                            }
                            assert(o2.to_set() =~= f.insert(i as int));
                            lemma_count_insert(f, i as int, NTH as nat);
                            assert forall|l: int| 0 <= l < NTH implies (#[trigger] finish[l]
                                <==> o2.contains(l)) by {
                                if l != i {
                                    if o2.contains(l) {
                                        let k = choose|k: int| 0 <= k < o2.len() && o2[k] == l;
                                        assert(order[k] == l);
                                    }
                                } else {
                                    assert(o2[order.len() as int] == l);
                                }
                            }
                            assert forall|k: int| 0 <= k < o2.len() implies self@.can_finish(
                                #[trigger] o2[k],
                                o2.take(k).to_set(),
                            ) by {
                                if k < order.len() {
                                    assert(o2.take(k) =~= order.take(k));
                                }
                            }
                            order = o2;
                        }
                        found = true;
                    } else {
                        proof {
                            assert(!finish[i as int]);
                        }
                        i += 1;
                    }
                }
            }
            if num_true == NTH {
                proof {
                    assert(!found);
                    assert(i == NTH);
                    assert forall|l: int| 0 <= l < NTH implies #[trigger] order.contains(l) by {
                        assert(finish[l]);
                    }
                    assert(self@.is_safe_sequence(order));
                }
                return true;
            }
            if !found {
                proof {
                    assert(i == NTH);
                    let l = choose|l: int| 0 <= l < NTH && !finish[l];
                    assert forall|x: int|
                        0 <= x < self@.nth() && !order.to_set().contains(x) implies !self@.can_finish(
                        x,
                        order.to_set(),
                    ) by {
                        assert(!finish[x]);
                    }
                    self@.lemma_stuck_is_unsafe(order.to_set(), l);
                }
                break;
            }
            proof {
                lemma_count_le(order.to_set(), NTH as nat);
            }
        }
        false
    }
}

impl<const NRES: usize, const NTH: usize> Resource<NRES, NTH> {
    /// Thread `id` asks for one unit of `resource`. The unit is handed out when the
    /// thread and resource exist, a unit is left, and the books stay safe once it is
    /// handed out; otherwise the books are left as they were and `false` comes back.
    /// A request that would take the thread beyond its claim is not admitted: the
    /// safety check would then compute a negative need.
    pub fn take(&mut self, id: usize, resource: usize) -> (r: bool)
        requires
            old(self).wf(),
            old(self)@.request_valid(id as int, resource as int) ==> old(self)@.within_claim(
                id as int,
                resource as int,
            ),
        ensures
            final(self).wf(),
            r == (old(self)@.request_valid(id as int, resource as int) && old(self)@.grant(
                id as int,
                resource as int,
            ).is_safe()),
            r ==> final(self)@ == old(self)@.grant(id as int, resource as int),
            !r ==> final(self)@ == old(self)@,
    {
        proof {
            self.lemma_view_shape();
        }
        if id >= NTH || resource >= NRES || self.available[resource] == 0 {
            return false;
        }
        let ghost v0 = self@;
        self.allocation[id][resource] += 1;
        self.available[resource] -= 1;
        proof {
            self.lemma_view_shape();
            let g = v0.grant(id as int, resource as int);
            assert forall|i: int| 0 <= i < NTH implies #[trigger] self@.allocation[i] =~= g.allocation[i] by {}
            assert(self@.allocation =~= g.allocation);
            assert(self@.available =~= g.available);
            assert(self@ =~= g);
            v0.lemma_grant_well_formed(id as int, resource as int);
        }
        if self.is_safe() {
            true
        } else {
            self.allocation[id][resource] -= 1;
            self.available[resource] += 1;
            proof {
                self.lemma_view_shape();
                assert forall|i: int| 0 <= i < NTH implies #[trigger] self@.allocation[i] =~= v0.allocation[i] by {}
                assert(self@.allocation =~= v0.allocation);
                assert(self@.available =~= v0.available);
                assert(self@ =~= v0);
            }
            false
        }
    }

    /// Thread `id` gives back one unit of `resource`; nothing happens when the thread
    /// or resource does not exist or the thread holds none of it.
    pub fn release(&mut self, id: usize, resource: usize)
        requires
            old(self).wf(),
        ensures
            final(self).wf(),
            old(self)@.release_valid(id as int, resource as int) ==> final(self)@ == old(self)@.give_back(
                id as int,
                resource as int,
            ),
            !old(self)@.release_valid(id as int, resource as int) ==> final(self)@ == old(self)@,
    {
        proof {
            self.lemma_view_shape();
        }
        if id >= NTH || resource >= NRES || self.allocation[id][resource] == 0 {
            return;
        }
        let ghost v0 = self@;
        proof {
            v0.lemma_give_back_well_formed(id as int, resource as int);
            v0.lemma_work_le_total(v0.all_threads(), resource as int);
            v0.lemma_held_mono(resource as int, Set::empty().insert(id as int), v0.all_threads(), NTH as nat);
            v0.lemma_held_insert(resource as int, Set::empty(), id as int, NTH as nat);
            v0.lemma_held_zero_set(resource as int, Set::empty(), NTH as nat);
        }
        self.allocation[id][resource] -= 1;
        self.available[resource] += 1;
        proof {
            self.lemma_view_shape();
            let g = v0.give_back(id as int, resource as int);
            assert forall|i: int| 0 <= i < NTH implies #[trigger] self@.allocation[i] =~= g.allocation[i] by {}
            assert(self@.allocation =~= g.allocation);
            assert(self@.available =~= g.available);
            assert(self@ =~= g);
        }
    }
}

/// A banker that hands resources to threads only while some order still lets
/// every thread run to completion, so that the threads never deadlock.
pub struct Banker<const NRES: usize, const NTH: usize> {
    resource: Resource<NRES, NTH>,
}

impl<const NRES: usize, const NTH: usize> View for Banker<NRES, NTH> {
    type V = BankView;

    closed spec fn view(&self) -> BankView {
        self.resource@
    }
}

impl<const NRES: usize, const NTH: usize> Banker<NRES, NTH> {
    pub open spec fn wf(&self) -> bool {
        &&& self@.well_formed()
        &&& self@.nres() == NRES
        &&& self@.nth() == NTH
    }

    /// A banker with `available` units of each resource, none handed out, and
    /// `max[i][j]` the most thread `i` may hold of resource `j`.
    pub fn new(available: [usize; NRES], max: [[usize; NRES]; NTH]) -> (r: Self)
        ensures
            r@ == initial_view(available, max),
            r.wf(),
    {
        Banker { resource: Resource::new(available, max) }
    }

    /// Thread `id` asks for one unit of `resource`; `true` when it was handed out.
    pub fn take(&mut self, id: usize, resource: usize) -> (r: bool)
        requires
            old(self).wf(),
            old(self)@.request_valid(id as int, resource as int) ==> old(self)@.within_claim(
                id as int,
                resource as int,
            ),
        ensures
            final(self).wf(),
            r == (old(self)@.request_valid(id as int, resource as int) && old(self)@.grant(
                id as int,
                resource as int,
            ).is_safe()),
            r ==> final(self)@ == old(self)@.grant(id as int, resource as int),
            !r ==> final(self)@ == old(self)@,
    {
        self.resource.take(id, resource)
    }

    /// Whether handing thread `id` one more unit of `resource` would keep it within
    /// its claim, as `take` asks of every request it could grant.
    pub fn within_claim(&self, id: usize, resource: usize) -> (r: bool)
        requires
            self.wf(),
        ensures
            r == (self@.request_valid(id as int, resource as int) ==> self@.within_claim(
                id as int,
                resource as int,
            )),
    {
        self.resource.within_claim(id, resource)
    }

    /// Thread `id` gives back one unit of `resource`, if it holds one.
    pub fn release(&mut self, id: usize, resource: usize)
        requires
            old(self).wf(),
        ensures
            final(self).wf(),
            old(self)@.release_valid(id as int, resource as int) ==> final(self)@ == old(self)@.give_back(
                id as int,
                resource as int,
            ),
            !old(self)@.release_valid(id as int, resource as int) ==> final(self)@ == old(self)@,
    {
        self.resource.release(id, resource)
    }

    /// Whether some order lets every thread run to completion.
    pub fn is_safe(&self) -> (r: bool)
        requires
            self.wf(),
        ensures
            r == self@.is_safe(),
    {
        self.resource.is_safe()
    }
}


/// `p` renumbers `n` threads: each number below `n` appears in it exactly once.
pub open spec fn is_permutation(p: Seq<int>, n: nat) -> bool {
    &&& p.len() == n
    &&& p.no_duplicates()
    &&& forall|i: int| 0 <= i < n ==> 0 <= #[trigger] p[i] < n
    &&& forall|x: int| 0 <= x < n ==> #[trigger] p.contains(x)
}

/// `b` is `a` with its threads renumbered by `p`: thread `i` of `b` is thread
/// `p[i]` of `a`, with the same holdings and the same claim.
pub open spec fn renumbered(a: BankView, b: BankView, p: Seq<int>) -> bool {
    &&& b.available == a.available
    &&& b.nth() == a.nth()
    &&& forall|i: int|
        0 <= i < a.nth() ==> (#[trigger] b.allocation[i]) == a.allocation[p[i]] && b.max[i]
            == a.max[p[i]]
}

impl BankView {
    /// What the threads listed in `s` hold of resource `j`, added up along `s`.
    pub open spec fn seq_held(self, s: Seq<int>, j: int) -> int
        decreases s.len(),
    {
        if s.len() == 0 {
            0
        } else {
            self.seq_held(s.drop_last(), j) + self.allocation[s.last()][j]
        }
    }

    proof fn lemma_held_as_seq(self, s: Seq<int>, j: int)
        requires
            s.no_duplicates(),
            forall|k: int| 0 <= k < s.len() ==> 0 <= #[trigger] s[k] < self.nth(),
        ensures
            self.held(j, s.to_set(), self.nth()) == self.seq_held(s, j),
        decreases s.len(),
    {
        if s.len() == 0 {
            assert(s.to_set() =~= Set::empty());
            self.lemma_held_zero_set(j, s.to_set(), self.nth());
        } else {
            let t = s.drop_last();
            let x = s.last();
            assert forall|k1: int, k2: int|
                0 <= k1 < t.len() && 0 <= k2 < t.len() && k1 != k2 implies t[k1] != t[k2] by {
                assert(s[k1] != s[k2]);
            }
            assert forall|k: int| 0 <= k < t.len() implies 0 <= #[trigger] t[k] < self.nth() by {
                assert(s[k] == t[k]);
            }
            self.lemma_held_as_seq(t, j);
            assert(!t.to_set().contains(x)) by {
                if t.contains(x) {
                    let k = choose|k: int| 0 <= k < t.len() && t[k] == x;
                    assert(s[k] == s[s.len() - 1]);
                }
            }
            assert forall|y: int| #[trigger] s.to_set().contains(y) <==> t.to_set().insert(x).contains(
                y,
            ) by {
                if s.contains(y) {
                    let k = choose|k: int| 0 <= k < s.len() && s[k] == y;
                    if k < s.len() - 1 {
                        assert(t[k] == y);
                    }
                }
                if t.contains(y) {
                    let k = choose|k: int| 0 <= k < t.len() && t[k] == y;
                    assert(s[k] == y);
                }
                assert(s[s.len() - 1] == x);
            }
            assert(s.to_set() =~= t.to_set().insert(x));
            self.lemma_held_insert(j, t.to_set(), x, self.nth());
        }
    }
}

/// Adding up along a list of `b`'s threads is adding up along the same threads of `a`.
proof fn lemma_seq_held_renumbered(a: BankView, b: BankView, p: Seq<int>, t: Seq<int>, j: int)
    requires
        renumbered(a, b, p),
        forall|k: int| 0 <= k < t.len() ==> 0 <= #[trigger] t[k] < a.nth(),
    ensures
        b.seq_held(t, j) == a.seq_held(t.map_values(|i: int| p[i]), j),
    decreases t.len(),
{
    if t.len() > 0 {
        let u = t.drop_last();
        assert forall|k: int| 0 <= k < u.len() implies 0 <= #[trigger] u[k] < a.nth() by {
            assert(t[k] == u[k]);
        }
        lemma_seq_held_renumbered(a, b, p, u, j);
        assert(t.map_values(|i: int| p[i]).drop_last() =~= u.map_values(|i: int| p[i]));
        assert(b.allocation[t.last()] == a.allocation[p[t.last()]]);
    }
}

/// If `b`, a renumbering of `a`, is safe, so is `a`: the order that lets `b`'s
/// threads finish, renumbered, lets `a`'s threads finish.
proof fn lemma_renumbered_safe(a: BankView, b: BankView, p: Seq<int>)
    requires
        a.well_formed(),
        b.well_formed(),
        is_permutation(p, a.nth()),
        renumbered(a, b, p),
        b.is_safe(),
    ensures
        a.is_safe(),
{
    let s = choose|s: Seq<int>| b.is_safe_sequence(s);
    let f = |i: int| p[i];
    let sa = s.map_values(f);
    assert forall|k1: int, k2: int|
        0 <= k1 < sa.len() && 0 <= k2 < sa.len() && k1 != k2 implies sa[k1] != sa[k2] by {
        assert(s[k1] != s[k2]);
        assert(0 <= s[k1] < a.nth() && 0 <= s[k2] < a.nth());
    }
    assert forall|k: int| 0 <= k < sa.len() implies 0 <= #[trigger] sa[k] < a.nth() by {
        assert(0 <= s[k] < a.nth());
    }
    assert forall|x: int| 0 <= x < a.nth() implies #[trigger] sa.contains(x) by {
        assert(p.contains(x));
        let i = choose|i: int| 0 <= i < p.len() && p[i] == x;
        assert(s.contains(i));
        let k = choose|k: int| 0 <= k < s.len() && s[k] == i;
        assert(sa[k] == x);
    }
    assert forall|k: int| 0 <= k < sa.len() implies a.can_finish(#[trigger] sa[k], sa.take(k).to_set()) by {
        let t = s.take(k);
        let ta = sa.take(k);
        assert(ta =~= t.map_values(f));
        assert(b.can_finish(s[k], t.to_set()));
        assert forall|l: int| 0 <= l < t.len() implies 0 <= #[trigger] t[l] < a.nth() by {
            assert(t[l] == s[l]);
        }
        assert forall|l1: int, l2: int|
            0 <= l1 < t.len() && 0 <= l2 < t.len() && l1 != l2 implies t[l1] != t[l2] by {
            assert(s[l1] != s[l2]);
        }
        assert forall|l1: int, l2: int|
            0 <= l1 < ta.len() && 0 <= l2 < ta.len() && l1 != l2 implies ta[l1] != ta[l2] by {
            assert(sa[l1] != sa[l2]);
        }
        assert forall|l: int| 0 <= l < ta.len() implies 0 <= #[trigger] ta[l] < a.nth() by {
            assert(ta[l] == sa[l]);
        }
        assert forall|j: int| 0 <= j < a.nres() implies #[trigger] a.need(sa[k], j) <= a.work(
            ta.to_set(),
            j,
        ) by {
            assert(b.need(s[k], j) <= b.work(t.to_set(), j));
            b.lemma_held_as_seq(t, j);
            a.lemma_held_as_seq(ta, j);
            lemma_seq_held_renumbered(a, b, p, t, j);
            assert(b.allocation[s[k]] == a.allocation[p[s[k]]]);
        }
    }
    assert(a.is_safe_sequence(sa));
}

/// Safety does not depend on how the threads are numbered: renumbering the
/// threads, each keeping its holdings and its claim, leaves the verdict as it was.
pub proof fn lemma_safety_ignores_numbering(a: BankView, b: BankView, p: Seq<int>)
    requires
        a.well_formed(),
        b.well_formed(),
        is_permutation(p, a.nth()),
        renumbered(a, b, p),
    ensures
        a.is_safe() == b.is_safe(),
{
    let n = a.nth();
    let q = Seq::new(n, |x: int| choose|i: int| 0 <= i < n && p[i] == x);
    assert forall|x: int| 0 <= x < n implies 0 <= #[trigger] q[x] < n && p[q[x]] == x by {
        assert(p.contains(x));
    }
    assert forall|k1: int, k2: int| 0 <= k1 < q.len() && 0 <= k2 < q.len() && k1 != k2 implies q[k1]
        != q[k2] by {
        assert(p[q[k1]] == k1 && p[q[k2]] == k2);
    }
    assert forall|i: int| 0 <= i < n implies #[trigger] q.contains(i) by {
        let x = p[i];
        assert(p[q[x]] == x);
        assert(q[x] == i);
    }
    assert(is_permutation(q, b.nth()));
    assert forall|x: int| 0 <= x < b.nth() implies (#[trigger] a.allocation[x]) == b.allocation[q[x]]
        && a.max[x] == b.max[q[x]] by {
        assert(b.allocation[q[x]] == a.allocation[p[q[x]]]);
    }
    assert(renumbered(b, a, q));
    if a.is_safe() {
        lemma_renumbered_safe(b, a, q);
    }
    if b.is_safe() {
        lemma_renumbered_safe(a, b, p);
    }
}

impl<const NRES: usize, const NTH: usize> Resource<NRES, NTH> {
    /// Whether handing thread `id` one more unit of `resource` would keep it within its claim.
    pub fn within_claim(&self, id: usize, resource: usize) -> (r: bool)
        requires
            self.wf(),
        ensures
            r == (self@.request_valid(id as int, resource as int) ==> self@.within_claim(
                id as int,
                resource as int,
            )),
    {
        proof {
            self.lemma_view_shape();
        }
        if id >= NTH || resource >= NRES || self.available[resource] == 0 {
            true
        } else {
            self.allocation[id][resource] < self.max[id][resource]
        }
    }
}

impl BankView {
    /// Which requests the banker looks at: every request of a known thread for a
    /// known resource of which a unit is left, whatever the numbers of threads and
    /// resources, and no other.
    pub proof fn lemma_requests_looked_at(self, id: int, r: int)
        ensures
            self.request_valid(id, r) <==> (0 <= id < self.nth() && 0 <= r < self.nres()
                && self.available[r] > 0),
    {
    }

    /// A granted unit moves from what is left of the resource to what the thread
    /// holds, and nothing else changes.
    pub proof fn lemma_grant_moves_one_unit(self, id: int, r: int)
        requires
            self.well_formed(),
            0 <= id < self.nth(),
            0 <= r < self.nres(),
            self.available[r] > 0,
        ensures
            self.request_valid(id, r),
            self.grant(id, r).available[r] == self.available[r] - 1,
            self.grant(id, r).allocation[id][r] == self.allocation[id][r] + 1,
            forall|j: int| 0 <= j < self.nres() && j != r ==> #[trigger] self.grant(id, r).available[j]
                == self.available[j],
            forall|i: int, j: int|
                0 <= i < self.nth() && 0 <= j < self.nres() && (i != id || j != r)
                    ==> #[trigger] self.grant(id, r).allocation[i][j] == self.allocation[i][j],
            self.grant(id, r).max == self.max,
    {
    }

    /// Every known thread that holds a unit of a known resource can give it back:
    /// the unit moves from what the thread holds to what is left, and nothing else
    /// changes. Any other release is ignored.
    pub proof fn lemma_release_gives_back(self, id: int, r: int)
        requires
            self.well_formed(),
        ensures
            self.release_valid(id, r) <==> (0 <= id < self.nth() && 0 <= r < self.nres()
                && self.allocation[id][r] > 0),
            self.release_valid(id, r) ==> {
                &&& self.give_back(id, r).available[r] == self.available[r] + 1
                &&& self.give_back(id, r).allocation[id][r] == self.allocation[id][r] - 1
                &&& forall|j: int|
                    0 <= j < self.nres() && j != r ==> #[trigger] self.give_back(id, r).available[j]
                        == self.available[j]
                &&& forall|i: int, j: int|
                    0 <= i < self.nth() && 0 <= j < self.nres() && (i != id || j != r)
                        ==> #[trigger] self.give_back(id, r).allocation[i][j] == self.allocation[i][j]
                &&& self.give_back(id, r).max == self.max
            },
    {
        if self.release_valid(id, r) {
            assert(self.allocation[id].len() == self.nres());
        }
    }
}

/// Fresh books keep what they are given: each resource has the given number of
/// units left, each thread the given claim, and no thread holds anything.
pub proof fn lemma_new_keeps_arguments<const NRES: usize, const NTH: usize>(
    available: [usize; NRES],
    max: [[usize; NRES]; NTH],
)
    ensures
        initial_view(available, max).nres() == NRES,
        initial_view(available, max).nth() == NTH,
        forall|j: int| 0 <= j < NRES ==> #[trigger] initial_view(available, max).available[j] == available[j] as int,
        forall|i: int, j: int|
            0 <= i < NTH && 0 <= j < NRES ==> #[trigger] initial_view(available, max).max[i][j]
                == max[i][j] as int,
        forall|i: int, j: int|
            0 <= i < NTH && 0 <= j < NRES ==> #[trigger] initial_view(available, max).allocation[i][j]
                == 0,
{
}

proof fn lemma_count_empty(s: Set<int>, n: nat)
    requires
        s.is_empty(),
    ensures
        count_below(s, n) == 0,
    decreases n,
{
    if n > 0 {
        lemma_count_empty(s, (n - 1) as nat);
    }
}

impl BankView {
    proof fn lemma_held_zero_set(self, j: int, s: Set<int>, n: nat)
        requires
            s.is_empty(),
        ensures
            self.held(j, s, n) == 0,
        decreases n,
    {
        if n > 0 {
            self.lemma_held_zero_set(j, s, (n - 1) as nat);
        }
    }

    proof fn lemma_held_zero(self, j: int, s: Set<int>, n: nat)
        requires
            n <= self.nth(),
            forall|i: int| 0 <= i < n ==> #[trigger] self.allocation[i][j] == 0,
        ensures
            self.held(j, s, n) == 0,
        decreases n,
    {
        if n > 0 {
            self.lemma_held_zero(j, s, (n - 1) as nat);
        }
    }
}

} // verus!
