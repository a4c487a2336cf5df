//! Several restartable sequences run side by side: the longest runs once,
//! the shorter ones start again each time they run out.
use vstd::prelude::*;
use vstd::arithmetic::div_mod::{
    lemma_add_mod_noop, lemma_fundamental_div_mod, lemma_mod_self_0, lemma_mod_twice,
    lemma_small_mod,
};

verus! {

/// A sequence that can be started again from its first value.
pub trait ResettableIterator: Sized {
    type Item;

    spec fn inv(&self) -> bool;

    /// Every value of the sequence, in order.
    spec fn cycle(&self) -> Seq<Self::Item>;

    /// How many values have been taken since the start.
    spec fn position(&self) -> nat;

    fn next(&mut self) -> (r: Option<Self::Item>)
        requires
            old(self).inv(),
        ensures
            final(self).inv(),
            final(self).cycle() == old(self).cycle(),
            old(self).position() < old(self).cycle().len() ==> r == Some(
                old(self).cycle()[old(self).position() as int],
            ) && final(self).position() == old(self).position() + 1,
            old(self).position() >= old(self).cycle().len() ==> r is None
                && final(self).position() == old(self).position(),
    ;

    fn reset(&mut self)
        requires
            old(self).inv(),
        ensures
            final(self).inv(),
            final(self).cycle() == old(self).cycle(),
            final(self).position() == 0,
    ;
}

/// The values of a vector, from `offset` on.
pub struct VecIter<T> {
    pub v: Vec<T>,
    pub offset: usize,
}

impl<T: Copy> ResettableIterator for VecIter<T> {
    type Item = T;

    open spec fn inv(&self) -> bool {
        true
    }

    open spec fn cycle(&self) -> Seq<T> {
        self.v@
    }

    open spec fn position(&self) -> nat {
        self.offset as nat
    }

    fn next(&mut self) -> (r: Option<T>) {
        if self.offset < self.v.len() {
            let n = self.v[self.offset];
            self.offset += 1;
            Some(n)
        } else {
            None
        }
    }

    fn reset(&mut self) {
        self.offset = 0;
    }
}

/// The largest length among `cycles`; zero where there are none.
pub open spec fn max_len<T>(cycles: Seq<Seq<T>>) -> nat
    decreases cycles.len(),
{
    if cycles.len() == 0 {
        0
    } else {
        let m = max_len(cycles.drop_last());
        if cycles.last().len() > m {
            cycles.last().len()
        } else {
            m
        }
    }
}

pub open spec fn all_nonempty<T>(cycles: Seq<Seq<T>>) -> bool {
    forall|i: int| 0 <= i < cycles.len() ==> (#[trigger] cycles[i]).len() > 0
}

/// Row `t` of the combination: from each sequence the value at `t` modulo
/// its length.
pub open spec fn row_at<T>(cycles: Seq<Seq<T>>, t: nat) -> Seq<T> {
    Seq::new(cycles.len(), |i: int| cycles[i][(t % cycles[i].len()) as int])
}

/// How many rows the combination of `cycles` yields: the largest length, or
/// none at all where a sequence is empty.
pub open spec fn row_count<T>(cycles: Seq<Seq<T>>) -> nat {
    if all_nonempty(cycles) {
        max_len(cycles)
    } else {
        0
    }
}

/// The rows that the combination of `cycles` yields, in order.
pub open spec fn rows<T>(cycles: Seq<Seq<T>>) -> Seq<Seq<T>> {
    Seq::new(row_count(cycles), |t: int| row_at(cycles, t as nat))
}

pub open spec fn count_true(s: Seq<bool>) -> nat
    decreases s.len(),
{
    if s.len() == 0 {
        0
    } else {
        count_true(s.drop_last()) + if s.last() {
            1nat
        } else {
            0
        }
    }
}

proof fn lemma_count_true(s: Seq<bool>)
    ensures
        count_true(s) <= s.len(),
        count_true(s) < s.len() <==> exists|i: int| 0 <= i < s.len() && !s[i],
    decreases s.len(),
{
    if s.len() > 0 {
        let d = s.drop_last();
        lemma_count_true(d);
        if exists|i: int| 0 <= i < d.len() && !d[i] {
            let i = choose|i: int| 0 <= i < d.len() && !d[i];
            assert(!s[i]);
        }
        if exists|i: int| 0 <= i < s.len() && !s[i] {
            let i = choose|i: int| 0 <= i < s.len() && !s[i];
            if i < d.len() {
                assert(!d[i]);
            }
        }
    }
}

proof fn lemma_count_true_set(s: Seq<bool>, i: int)
    requires
        0 <= i < s.len(),
    ensures
        count_true(s.update(i, true)) == count_true(s) + if s[i] {
            0nat
        } else {
            1
        },
    decreases s.len(),
{
    let u = s.update(i, true);
    if i == s.len() - 1 {
        assert(u.drop_last() =~= s.drop_last());
    } else {
        lemma_count_true_set(s.drop_last(), i);
        assert(u.drop_last() =~= s.drop_last().update(i, true));
    }
}

proof fn lemma_max_len<T>(cycles: Seq<Seq<T>>)
    ensures
        forall|i: int| 0 <= i < cycles.len() ==> (#[trigger] cycles[i]).len() <= max_len(cycles),
        cycles.len() > 0 ==> exists|i: int|
            0 <= i < cycles.len() && (#[trigger] cycles[i]).len() == max_len(cycles),
    decreases cycles.len(),
{
    if cycles.len() > 0 {
        let d = cycles.drop_last();
        lemma_max_len(d);
        assert forall|i: int| 0 <= i < cycles.len() implies (#[trigger] cycles[i]).len()
            <= max_len(cycles) by {
            if i < d.len() {
                assert(cycles[i] == d[i]);
            }
        }
        if cycles.last().len() >= max_len(d) {
            assert(cycles[cycles.len() - 1].len() == max_len(cycles));
        } else {
            let i = choose|i: int| 0 <= i < d.len() && (#[trigger] d[i]).len() == max_len(d);
            assert(cycles[i] == d[i]);
        }
    }
}

/// One sequence's step: its position `p` after `t` rows agrees with `t`
/// modulo its length `c`.
proof fn lemma_cycle_step(c: nat, p: nat, t: nat)
    requires
        c > 0,
        p <= c,
        p % c == t % c,
        t == 0 ==> p == 0,
        t > 0 ==> p > 0,
    ensures
        p < c ==> p == t % c && (p + 1) % c == (t + 1) % c && ((t > c) == (t + 1 > c)),
        p == c ==> t % c == 0 && 1nat % c == (t + 1) % c && t + 1 > c,
{
    lemma_add_mod_noop(t as int, 1, c as int);
    lemma_add_mod_noop(p as int, 1, c as int);
    if p < c {
        lemma_small_mod(p, c);
        if t == c {
            lemma_mod_self_0(c as int);
        }
    } else {
        lemma_mod_self_0(c as int);
        lemma_mod_twice(1, c as int);
        lemma_fundamental_div_mod(t as int, c as int);
        let q = t as int / c as int;
        assert(t == c * q);
        if q <= 0 {
            assert(c * q <= 0) by (nonlinear_arith)
                requires
                    q <= 0,
                    c > 0,
            ;
        }
        assert(c * q >= c) by (nonlinear_arith)
            requires
                q >= 1,
                c > 0,
        ;
    }
}

/// The sequences to run side by side, in the order in which they were added.
pub struct IterBundle<I> {
    iters: Vec<I>,
}

impl<I: ResettableIterator> IterBundle<I> {
    pub closed spec fn spec_iters(&self) -> Seq<I> {
        self.iters@
    }

    pub fn new() -> (r: Self)
        ensures
            r.spec_iters() == Seq::<I>::empty(),
    {
        IterBundle { iters: Vec::new() }
    }

    /// Adds a sequence after those already added.
    pub fn push(&mut self, iter: I)
        ensures
            final(self).spec_iters() == old(self).spec_iters().push(iter),
    {
        self.iters.push(iter);
    }

    /// Starts the combination.
    pub fn into_iter(self) -> (r: BundledIter<I>)
        requires
            forall|i: int|
                0 <= i < self.spec_iters().len() ==> (#[trigger] self.spec_iters()[i]).inv()
                    && self.spec_iters()[i].position() == 0,
        ensures
            r.inv(),
            r.cycles() == Seq::new(
                self.spec_iters().len(),
                |i: int| self.spec_iters()[i].cycle(),
            ),
            r.emitted() == 0,
            !r.finished(),
    {
        let n = self.iters.len();
        let mut done: Vec<bool> = Vec::new();
        let mut i: usize = 0;
        while i < n
            invariant
                i <= n,
                n == self.iters@.len(),
                done@ == Seq::new(i as nat, |j: int| false),
            decreases n - i,
        {
            done.push(false);
            i += 1;
            assert(done@ =~= Seq::new(i as nat, |j: int| false));
        }
        let ghost cycles = Seq::new(self.iters@.len(), |i: int| self.iters@[i].cycle());
        let r = BundledIter {
            iters: self.iters,
            done,
            finished: false,
            cycles: Ghost(cycles),
            steps: Ghost(0),
        };
        proof {
            assert forall|i: int| 0 <= i < r.iters@.len() implies BundledIter::<I>::agrees_at(&r, i) by {
                assert(r.iters@[i] == self.spec_iters()[i]);
                assert(self.spec_iters()[i].position() == 0);
                assert(self.spec_iters()[i].inv());
                assert(!r.done@[i]);
                assert(r.steps@ == 0);
                if cycles[i].len() > 0 {
                    lemma_small_mod(0, cycles[i].len());
                }
            }
        }
        assert forall|i: int| 0 <= i < r.iters@.len() implies (#[trigger] r.iters@[i]).inv()
            && r.iters@[i].cycle() == r.cycles@[i] by {
            assert(r.iters@[i] == self.spec_iters()[i]);
        }
        assert forall|i: int| 0 <= i < r.iters@.len() implies BundledIter::<I>::agrees(
            r.cycles@[i].len(),
            (#[trigger] r.iters@[i]).position(),
            r.done@[i],
            r.steps@,
        ) by {
            assert(BundledIter::<I>::agrees_at(&r, i));
        }
        r
    }
}

/// The combination in progress.
pub struct BundledIter<I: ResettableIterator> {
    iters: Vec<I>,
    done: Vec<bool>,
    finished: bool,
    cycles: Ghost<Seq<Seq<I::Item>>>,
    steps: Ghost<nat>,
}

impl<I: ResettableIterator> BundledIter<I> {
    /// The values of each sequence.
    pub closed spec fn cycles(&self) -> Seq<Seq<I::Item>> {
        self.cycles@
    }

    /// How many rows have been yielded.
    pub closed spec fn emitted(&self) -> nat {
        self.steps@
    }

    /// For each sequence, whether it has run out at least once.
    pub closed spec fn flags(&self) -> Seq<bool> {
        self.done@
    }

    /// Whether the combination has ended.
    pub closed spec fn finished(&self) -> bool {
        self.finished
    }

    /// The state of one sequence agrees with the number of rows yielded:
    /// its position is that number modulo its length, and it has been marked
    /// as having run out exactly when that number exceeds its length.
    spec fn agrees(c: nat, p: nat, done: bool, t: nat) -> bool {
        &&& c > 0 ==> {
            &&& p <= c
            &&& p % c == t % c
            &&& t == 0 ==> p == 0
            &&& t > 0 ==> p > 0
            &&& done == (t > c)
        }
        &&& c == 0 ==> p == 0 && !done && t == 0
    }

    spec fn agrees_at(b: &BundledIter<I>, i: int) -> bool {
        BundledIter::<I>::agrees(b.cycles@[i].len(), b.iters@[i].position(), b.done@[i], b.steps@)
    }

    pub closed spec fn inv(&self) -> bool {
        &&& self.iters@.len() == self.done@.len()
        &&& self.iters@.len() == self.cycles@.len()
        &&& forall|i: int|
            0 <= i < self.iters@.len() ==> (#[trigger] self.iters@[i]).inv()
                && self.iters@[i].cycle() == self.cycles@[i]
        &&& !self.finished ==> forall|i: int|
            0 <= i < self.iters@.len() ==> Self::agrees(
                self.cycles@[i].len(),
                (#[trigger] self.iters@[i]).position(),
                self.done@[i],
                self.steps@,
            )
        &&& !self.finished ==> self.steps@ <= row_count(self.cycles@)
    }

    /// How many sequences have run out at least once.
    pub fn count_done(&self) -> (r: usize)
        requires
            self.inv(),
        ensures
            r == count_true(self.flags()),
    {
        let mut c: usize = 0;
        let mut i: usize = 0;
        while i < self.done.len()
            invariant
                i <= self.done@.len(),
                c == count_true(self.done@.subrange(0, i as int)),
                c <= i,
            decreases self.done@.len() - i,
        {
            let ghost pre = self.done@.subrange(0, i as int + 1);
            assert(pre.drop_last() =~= self.done@.subrange(0, i as int));
            if self.done[i] {
                c += 1;
            }
            i += 1;
        }
        assert(self.done@.subrange(0, i as int) =~= self.done@);
        c
    }

    /// Whether every sequence has run out at least once.
    pub fn is_all_done(&self) -> (r: bool)
        ensures
            r == forall|i: int| 0 <= i < self.flags().len() ==> self.flags()[i],
    {
        let mut i: usize = 0;
        while i < self.done.len()
            invariant
                i <= self.done@.len(),
                forall|j: int| 0 <= j < i ==> self.done@[j],
            decreases self.done@.len() - i,
        {
            if !self.done[i] {
                assert(!self.flags()[i as int]);
                return false;
            }
            i += 1;
        }
        true
    }

    /// How many sequences run side by side.
    pub fn len(&self) -> (r: usize)
        requires
            self.inv(),
        ensures
            r == self.cycles().len(),
    {
        self.done.len()
    }

    /// The next row: one value from each sequence, in the order in which the
    /// sequences were added. Each step takes the next value of every
    /// sequence; one that has run out is marked, started again and gives its
    /// first value. The first step after which every sequence is marked
    /// yields no row and ends the combination.
    pub fn next(&mut self) -> (r: Option<Vec<I::Item>>)
        requires
            old(self).inv(),
        ensures
            final(self).inv(),
            final(self).cycles() == old(self).cycles(),
            !old(self).finished() && old(self).emitted() < row_count(old(self).cycles()) ==> {
                &&& r is Some
                &&& r->0@ == row_at(old(self).cycles(), old(self).emitted())
                &&& final(self).emitted() == old(self).emitted() + 1
                &&& !final(self).finished()
            },
            !(!old(self).finished() && old(self).emitted() < row_count(old(self).cycles())) ==> {
                &&& r is None
                &&& final(self).finished()
            },
    {
        if self.finished {
            return None;
        }
        let mut count = self.count_done();
        let n = self.iters.len();
        let ghost t = self.steps@;
        let ghost cycles = self.cycles@;
        let ghost old_iters = self.iters@;
        let ghost old_done = self.done@;
        proof {
            lemma_count_true(self.done@);
            lemma_max_len(cycles);
        }
        let mut row: Vec<I::Item> = Vec::new();
        let mut i: usize = 0;
        while i < n
            invariant
                i <= n,
                n == self.iters@.len(),
                n == self.done@.len(),
                n == cycles.len(),
                cycles == self.cycles@,
                cycles == old(self).cycles@,
                t == self.steps@,
                !self.finished,
                count == count_true(self.done@),
                count <= n,
                forall|j: int|
                    0 <= j < n ==> (#[trigger] self.iters@[j]).inv() && self.iters@[j].cycle()
                        == cycles[j],
                old_iters.len() == n,
                old_done.len() == n,
                forall|j: int| i <= j < n ==> #[trigger] self.iters@[j] == old_iters[j],
                forall|j: int| i <= j < n ==> #[trigger] self.done@[j] == old_done[j],
                forall|j: int|
                    i <= j < n ==> Self::agrees(
                        cycles[j].len(),
                        (#[trigger] self.iters@[j]).position(),
                        self.done@[j],
                        t,
                    ),
                forall|j: int| 0 <= j < i ==> (#[trigger] cycles[j]).len() > 0,
                forall|j: int|
                    0 <= j < i ==> Self::agrees(
                        cycles[j].len(),
                        (#[trigger] self.iters@[j]).position(),
                        self.done@[j],
                        t + 1,
                    ),
                row@ == Seq::new(i as nat, |j: int| cycles[j][(t % cycles[j].len()) as int]),
            decreases n - i,
        {
            let ghost before = self.iters@;
            let ghost done_before = self.done@;
            let mut it = self.iters.remove(i);
            let ghost c = cycles[i as int].len();
            let ghost p = it.position();
            proof {
                if c > 0 {
                    lemma_cycle_step(c, p, t);
                }
            }
            let value = match it.next() {
                Some(x) => x,
                None => {
                    proof {
                        lemma_count_true(self.done@);
                    }
                    if !self.done[i] {
                        assert(!self.done@[i as int]);
                        count += 1;
                    }
                    proof {
                        lemma_count_true_set(self.done@, i as int);
                    }
                    self.done.set(i, true);
                    it.reset();
                    match it.next() {
                        Some(x) => x,
                        None => {
                            self.iters.insert(i, it);
                            self.finished = true;
                            proof {
                                assert(self.iters@ =~= before.update(i as int, it));
                                assert forall|j: int|
                                    0 <= j < n implies (#[trigger] self.iters@[j]).inv()
                                        && self.iters@[j].cycle() == self.cycles@[j] by {}
                                assert(cycles[i as int].len() == 0);
                                assert(!all_nonempty(cycles));
                            }
                            return None;
                        },
                    }
                },
            };
            self.iters.insert(i, it);
            row.push(value);
            proof {
                assert(self.iters@ =~= before.update(i as int, it));
                assert forall|j: int| i + 1 <= j < n implies #[trigger] self.iters@[j] == old_iters[j] by {
                    assert(self.iters@[j] == before[j]);
                }
                assert forall|j: int| i + 1 <= j < n implies #[trigger] self.done@[j] == old_done[j] by {
                    assert(self.done@[j] == done_before[j]);
                }
                assert(row@ =~= Seq::new(
                    (i + 1) as nat,
                    |j: int| cycles[j][(t % cycles[j].len()) as int],
                ));
            }
            i += 1;
        }
        self.steps = Ghost((t + 1) as nat);
        proof {
            lemma_count_true(self.done@);
            assert(all_nonempty(cycles));
            assert(row@ =~= row_at(cycles, t));
            if count < n {
                let j = choose|j: int| 0 <= j < n && !self.done@[j];
                assert(Self::agrees(cycles[j].len(), self.iters@[j].position(), self.done@[j], t + 1));
                assert(cycles[j].len() >= t + 1);
            } else {
                if n > 0 {
                    let j = choose|j: int|
                        0 <= j < cycles.len() && (#[trigger] cycles[j]).len() == max_len(cycles);
                    assert(Self::agrees(cycles[j].len(), self.iters@[j].position(), self.done@[j], t + 1));
                    assert(self.done@[j]);
                }
            }
        }
        if count < n {
            Some(row)
        } else {
            self.finished = true;
            None
        }
    }
}

/// Combining sequences of lengths `c_1 .. c_n`, all at least one, yields
/// exactly `max(c_i)` rows; where one of them is empty it yields none.
pub proof fn lemma_row_count<T>(cycles: Seq<Seq<T>>)
    ensures
        all_nonempty(cycles) ==> rows(cycles).len() == max_len(cycles) && (cycles.len() > 0
            ==> exists|i: int|
            0 <= i < cycles.len() && (#[trigger] cycles[i]).len() == rows(cycles).len())
            && forall|i: int| 0 <= i < cycles.len() ==> (#[trigger] cycles[i]).len() <= rows(cycles).len(),
        !all_nonempty(cycles) ==> rows(cycles).len() == 0,
{
    lemma_max_len(cycles);
}

} // verus!
