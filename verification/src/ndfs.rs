use vstd::prelude::*;

use crate::emptyness::{error_allowed, ModelCheckConfig, ModelCheckError};

verus! {

/// Whether a run into an accepting cycle was found, and if so the blue and the red stack.
pub type SearchOutcome = (bool, Option<Vec<usize>>, Option<Vec<usize>>);

/// The colours of the nested depth-first search.
#[derive(Clone, Copy, PartialEq, Eq, Structural)]
pub enum StateColor {
    White,
    Cyan,
    Red,
    Blue,
}

/// A graph explored on the fly: states are numbered as they are met, each state's successors
/// are fixed once asked for, and the search may be stopped by a limit.
pub trait NdfsEngine: Sized {
    /// How many states are numbered so far.
    spec fn count(&self) -> nat;

    /// A bound on how many states can ever be numbered.
    spec fn cap(&self) -> nat;

    /// The successors of a state, once they were asked for.
    spec fn succ_of(&self, s: int) -> Option<Seq<usize>>;

    /// Whether a state accepts.
    spec fn acc(&self, s: int) -> bool;

    /// The limits of the search.
    spec fn cfg(&self) -> ModelCheckConfig;

    /// The engine's invariant.
    spec fn inv(&self) -> bool;

    /// `later` still names every numbered state as `self` does.
    spec fn keeps(&self, later: Self) -> bool;

    proof fn lemma_keeps_refl(a: Self)
        ensures
            a.keeps(a),
    ;

    proof fn lemma_keeps_trans(a: Self, b: Self, c: Self)
        requires
            a.keeps(b),
            b.keeps(c),
        ensures
            a.keeps(c),
    ;

    fn num_states(&self) -> (r: usize)
        requires
            self.inv(),
        ensures
            r == self.count(),
    ;

    fn check_limits(&mut self) -> (r: Result<(), ModelCheckError>)
        requires
            old(self).inv(),
        ensures
            final(self).inv(),
            old(self).count() <= final(self).count(),
            final(self).count() <= final(self).cap(),
            final(self).cap() == old(self).cap(),
            final(self).cfg() == old(self).cfg(),
            old(self).keeps(*final(self)),
            forall|t: int| 0 <= t < old(self).count() && #[trigger] old(self).succ_of(t) is Some ==> final(self).succ_of(t) == old(self).succ_of(t),
            forall|t: int| 0 <= t < old(self).count() ==> #[trigger] final(self).acc(t) == old(self).acc(t),
            r matches Err(e) ==> error_allowed(old(self).cfg(), e),
    ;

    fn successors(&mut self, s: usize) -> (r: Result<Vec<usize>, ModelCheckError>)
        requires
            old(self).inv(),
            s < old(self).count(),
        ensures
            final(self).inv(),
            old(self).count() <= final(self).count(),
            final(self).count() <= final(self).cap(),
            final(self).cap() == old(self).cap(),
            final(self).cfg() == old(self).cfg(),
            old(self).keeps(*final(self)),
            forall|t: int| 0 <= t < old(self).count() && #[trigger] old(self).succ_of(t) is Some ==> final(self).succ_of(t) == old(self).succ_of(t),
            forall|t: int| 0 <= t < old(self).count() ==> #[trigger] final(self).acc(t) == old(self).acc(t),
            r matches Ok(v) ==> final(self).succ_of(s as int) == Some(v@) && forall|k: int|
                0 <= k < v@.len() ==> #[trigger] v@[k] < final(self).count(),
            r matches Err(e) ==> error_allowed(old(self).cfg(), e),
    ;

    fn is_accepting(&self, s: usize) -> (r: bool)
        requires
            self.inv(),
            s < self.count(),
        ensures
            r == self.acc(s as int),
    ;
}

/// `b` is `a` after more work: more states, the same bound and limits, and what was known of
/// the old states unchanged.
pub open spec fn grows<E: NdfsEngine>(a: E, b: E) -> bool {
    &&& a.count() <= b.count()
    &&& b.count() <= b.cap()
    &&& b.cap() == a.cap()
    &&& b.cfg() == a.cfg()
    &&& a.keeps(b)
    &&& forall|s: int| 0 <= s < a.count() && #[trigger] a.succ_of(s) is Some ==> b.succ_of(s) == a.succ_of(s)
    &&& forall|s: int| 0 <= s < a.count() ==> #[trigger] b.acc(s) == a.acc(s)
}

/// `t` is a known successor of `s`.
pub open spec fn edge<E: NdfsEngine>(e: E, s: int, t: usize) -> bool {
    e.succ_of(s) matches Some(v) && v.contains(t)
}

/// `p` is a walk through known edges.
pub open spec fn walk<E: NdfsEngine>(e: E, p: Seq<usize>) -> bool {
    &&& forall|i: int| 0 <= i < p.len() ==> #[trigger] p[i] < e.count()
    &&& forall|i: int| 0 <= i < p.len() - 1 ==> #[trigger] edge(e, p[i] as int, p[i + 1])
}

/// A run into an accepting cycle: `st` leads from a root to an accepting state, `st2` leads
/// from that state back to a successor's predecessor on `st`, closing a cycle through it.
pub open spec fn lasso<E: NdfsEngine>(e: E, roots: Seq<usize>, st: Seq<usize>, st2: Seq<usize>) -> bool {
    &&& st.len() >= 1
    &&& roots.contains(st[0])
    &&& walk(e, st)
    &&& e.acc(st.last() as int)
    &&& st2.len() >= 1
    &&& st2[0] == st.last()
    &&& walk(e, st2)
    &&& exists|c: usize| st.contains(c) && #[trigger] edge(e, st2.last() as int, c)
}

/// How many entries satisfy `p`.
pub open spec fn count_where(c: Seq<StateColor>, p: spec_fn(StateColor) -> bool) -> nat
    decreases c.len(),
{
    if c.len() == 0 {
        0
    } else {
        count_where(c.drop_last(), p) + if p(c.last()) {
            1nat
        } else {
            0nat
        }
    }
}

pub open spec fn is_nonwhite() -> spec_fn(StateColor) -> bool {
    |c: StateColor| c != StateColor::White
}

pub open spec fn is_red() -> spec_fn(StateColor) -> bool {
    |c: StateColor| c == StateColor::Red
}

proof fn lemma_count_le_len(c: Seq<StateColor>, p: spec_fn(StateColor) -> bool)
    ensures
        count_where(c, p) <= c.len(),
    decreases c.len(),
{
    if c.len() > 0 {
        lemma_count_le_len(c.drop_last(), p);
    }
}

/// Counting grows along a pointwise growth, and strictly where one entry starts to count.
proof fn lemma_count_mono(a: Seq<StateColor>, b: Seq<StateColor>, p: spec_fn(StateColor) -> bool, j: int)
    requires
        a.len() <= b.len(),
        forall|i: int| 0 <= i < a.len() && #[trigger] p(a[i]) ==> p(b[i]),
    ensures
        count_where(a, p) <= count_where(b, p),
        0 <= j < a.len() && !p(a[j]) && p(b[j]) ==> count_where(a, p) < count_where(b, p),
    decreases b.len(),
{
    if b.len() > a.len() {
        lemma_count_mono(a, b.drop_last(), p, j);
    } else if a.len() > 0 {
        lemma_count_mono(a.drop_last(), b.drop_last(), p, j);
        assert(p(a.last()) ==> p(b.last()));
    }
}

proof fn lemma_walk_grows<E: NdfsEngine>(a: E, b: E, p: Seq<usize>)
    requires
        grows(a, b),
        walk(a, p),
    ensures
        walk(b, p),
{
    assert forall|i: int| 0 <= i < p.len() - 1 implies #[trigger] edge(b, p[i] as int, p[i + 1]) by {
        assert(edge(a, p[i] as int, p[i + 1]));
        assert(a.succ_of(p[i] as int) is Some);
    }
}

proof fn lemma_grows_trans<E: NdfsEngine>(a: E, b: E, c: E)
    requires
        grows(a, b),
        grows(b, c),
    ensures
        grows(a, c),
{
    E::lemma_keeps_trans(a, b, c);
    assert forall|s: int| 0 <= s < a.count() && #[trigger] a.succ_of(s) is Some implies c.succ_of(s)
        == a.succ_of(s) by {
        assert(b.succ_of(s) == a.succ_of(s));
    }
    assert forall|s: int| 0 <= s < a.count() implies #[trigger] c.acc(s) == a.acc(s) by {
        assert(b.acc(s) == a.acc(s));
    }
}

/// The successors of `s` are known and numbered.
pub open spec fn explored<E: NdfsEngine>(e: E, s: int) -> bool {
    e.succ_of(s) matches Some(v) && forall|k: int| 0 <= k < v.len() ==> #[trigger] v[k] < e.count()
}

/// No walk of one step or more leads from `c` back to `c`.
pub open spec fn no_cycle<E: NdfsEngine>(e: E, c: int) -> bool {
    forall|p: Seq<usize>| #[trigger] walk(e, p) && p.len() >= 2 && p[0] == c ==> p.last() != c
}

/// Every state that a walk from `x` reaches is explored, and where it accepts it lies on no
/// cycle.
pub open spec fn safe<E: NdfsEngine>(e: E, x: int) -> bool {
    forall|p: Seq<usize>|
        #[trigger] walk(e, p) && p.len() >= 1 && p[0] == x ==> explored(e, p.last() as int) && (e.acc(
            p.last() as int,
        ) ==> no_cycle(e, p.last() as int))
}

/// Blue and red states are explored, with no white successor.
pub open spec fn finished_closed<E: NdfsEngine>(e: E, c: Seq<StateColor>) -> bool {
    forall|x: int|
        0 <= x < c.len() && (#[trigger] c[x] == StateColor::Blue || c[x] == StateColor::Red) ==> {
            &&& explored(e, x)
            &&& forall|k: int|
                0 <= k < e.succ_of(x)->Some_0.len() ==> c[#[trigger] e.succ_of(x)->Some_0[k] as int]
                    != StateColor::White
        }
}

/// Blue states do not accept.
pub open spec fn blue_rejects<E: NdfsEngine>(e: E, c: Seq<StateColor>) -> bool {
    forall|x: int| 0 <= x < c.len() && #[trigger] c[x] == StateColor::Blue ==> !e.acc(x)
}

/// Red states are safe.
pub open spec fn red_safe<E: NdfsEngine>(e: E, c: Seq<StateColor>) -> bool {
    forall|x: int| 0 <= x < c.len() && #[trigger] c[x] == StateColor::Red ==> safe(e, x)
}

/// What the colours tell between searches.
pub open spec fn colors_ok<E: NdfsEngine>(e: E, c: Seq<StateColor>) -> bool {
    &&& finished_closed(e, c)
    &&& blue_rejects(e, c)
    &&& red_safe(e, c)
}

/// Red before the red search began.
pub open spec fn old_red(c0: Seq<StateColor>, x: int) -> bool {
    0 <= x < c0.len() && c0[x] == StateColor::Red
}

/// Made red by the red search and done: every successor is red and none is the seed.
pub open spec fn closed_new<E: NdfsEngine>(e: E, c: Seq<StateColor>, seed: int, x: int) -> bool {
    &&& explored(e, x)
    &&& forall|k: int|
        0 <= k < e.succ_of(x)->Some_0.len() ==> c[#[trigger] e.succ_of(x)->Some_0[k] as int]
            == StateColor::Red && e.succ_of(x)->Some_0[k] != seed
}

/// Each red state was red before the red search, is still being searched from, or is done.
pub open spec fn red_classified<E: NdfsEngine>(
    e: E,
    c: Seq<StateColor>,
    c0: Seq<StateColor>,
    seed: int,
    open: Seq<usize>,
) -> bool {
    forall|x: int|
        0 <= x < c.len() && #[trigger] c[x] == StateColor::Red ==> old_red(c0, x) || open.contains(
            x as usize,
        ) || closed_new(e, c, seed, x)
}

/// A state made red by the red search does not accept, unless it is the seed.
pub open spec fn new_red_rejects<E: NdfsEngine>(e: E, c: Seq<StateColor>, c0: Seq<StateColor>, seed: int) -> bool {
    forall|x: int|
        0 <= x < c.len() && #[trigger] c[x] == StateColor::Red && !old_red(c0, x) ==> !e.acc(x) || x == seed
}

proof fn lemma_subwalk<E: NdfsEngine>(e: E, p: Seq<usize>, a: int, b: int)
    requires
        walk(e, p),
        0 <= a <= b <= p.len(),
    ensures
        walk(e, p.subrange(a, b)),
{
    let q = p.subrange(a, b);
    assert forall|i: int| 0 <= i < q.len() - 1 implies #[trigger] edge(e, q[i] as int, q[i + 1]) by {
        assert(edge(e, p[a + i] as int, p[a + i + 1]));
    }
    assert forall|i: int| 0 <= i < q.len() implies #[trigger] q[i] < e.count() by {
        assert(p[a + i] < e.count());
    }
}

proof fn lemma_walk_concat<E: NdfsEngine>(e: E, p: Seq<usize>, q: Seq<usize>)
    requires
        walk(e, p),
        walk(e, q),
        p.len() >= 1,
        q.len() >= 1,
        p.last() == q[0],
    ensures
        walk(e, p + q.drop_first()),
        (p + q.drop_first()).len() == p.len() + q.len() - 1,
        (p + q.drop_first())[0] == p[0],
        (p + q.drop_first()).last() == q.last(),
{
    let r = p + q.drop_first();
    assert forall|i: int| 0 <= i < r.len() implies #[trigger] r[i] < e.count() by {
        if i < p.len() {
            assert(r[i] == p[i]);
        } else {
            assert(r[i] == q[i - p.len() + 1]);
        }
    }
    assert forall|i: int| 0 <= i < r.len() - 1 implies #[trigger] edge(e, r[i] as int, r[i + 1]) by {
        if i < p.len() - 1 {
            assert(r[i] == p[i] && r[i + 1] == p[i + 1]);
            assert(edge(e, p[i] as int, p[i + 1]));
        } else {
            let j = i - p.len() + 1;
            assert(r[i] == q[j]);
            assert(r[i + 1] == q[j + 1]);
            assert(edge(e, q[j] as int, q[j + 1]));
        }
    }
    if q.len() == 1 {
        assert(r =~= p);
    } else {
        assert(r.last() == q.last());
    }
}

/// A walk of the grown graph from a safe state is a walk of the old one.
proof fn lemma_walk_back<E: NdfsEngine>(a: E, b: E, x: int, p: Seq<usize>)
    requires
        grows(a, b),
        safe(a, x),
        0 <= x < a.count(),
        walk(b, p),
        p.len() >= 1,
        p[0] == x,
    ensures
        walk(a, p),
    decreases p.len(),
{
    if p.len() == 1 {
        assert(walk(a, p));
    } else {
        let q = p.drop_last();
        lemma_subwalk(b, p, 0, p.len() - 1);
        assert(q =~= p.subrange(0, p.len() - 1));
        lemma_walk_back(a, b, x, q);
        assert(walk(a, q) && q.len() >= 1 && q[0] == x);
        assert(explored(a, q.last() as int));
        let n = p.len() - 2;
        assert(q.last() == p[n]);
        assert(edge(b, p[n] as int, p[n + 1]));
        assert(a.succ_of(p[n] as int) is Some);
        assert(b.succ_of(p[n] as int) == a.succ_of(p[n] as int));
        assert(edge(a, p[n] as int, p[n + 1]));
        let v = a.succ_of(p[n] as int)->Some_0;
        let k = choose|k: int| 0 <= k < v.len() && v[k] == p[n + 1];
        assert(v[k] < a.count());
        assert forall|i: int| 0 <= i < p.len() implies #[trigger] p[i] < a.count() by {
            if i < p.len() - 1 {
                assert(p[i] == q[i]);
            }
        }
        assert forall|i: int| 0 <= i < p.len() - 1 implies #[trigger] edge(a, p[i] as int, p[i + 1]) by {
            if i < n {
                assert(p[i] == q[i] && p[i + 1] == q[i + 1]);
                assert(edge(a, q[i] as int, q[i + 1]));
            }
        }
    }
}

/// Safety is kept as the graph grows.
proof fn lemma_safe_grows<E: NdfsEngine>(a: E, b: E, x: int)
    requires
        grows(a, b),
        safe(a, x),
        0 <= x < a.count(),
    ensures
        safe(b, x),
{
    assert forall|p: Seq<usize>| #[trigger] walk(b, p) && p.len() >= 1 && p[0] == x implies explored(b, p.last() as int) && (b.acc(
        p.last() as int,
    ) ==> no_cycle(b, p.last() as int)) by {
        lemma_walk_back(a, b, x, p);
        let c = p.last() as int;
        assert(explored(a, c));
        assert(a.succ_of(c) is Some);
        assert(b.succ_of(c) == a.succ_of(c));
        assert(p[p.len() - 1] < a.count());
        assert(b.acc(c) == a.acc(c));
        if b.acc(c) {
            assert(no_cycle(a, c));
            assert forall|q: Seq<usize>| #[trigger] walk(b, q) && q.len() >= 2 && q[0] == c implies q.last() != c by {
                lemma_walk_concat(b, p, q);
                let r = p + q.drop_first();
                lemma_walk_back(a, b, x, r);
                lemma_subwalk(a, r, p.len() - 1, r.len() as int);
                let q2 = r.subrange(p.len() - 1, r.len() as int);
                assert(q2 =~= q) by {
                    assert forall|i: int| 0 <= i < q.len() implies q2[i] == q[i] by {
                        if i == 0 {
                            assert(q2[0] == r[p.len() - 1]);
                            assert(r[p.len() - 1] == p[p.len() - 1]);
                        } else {
                            assert(q2[i] == r[p.len() - 1 + i]);
                        }
                    }
                }
            }
        }
    }
}

proof fn lemma_colors_ok_grows<E: NdfsEngine>(a: E, b: E, c1: Seq<StateColor>, c2: Seq<StateColor>)
    requires
        grows(a, b),
        colors_ok(a, c1),
        c1.len() == a.count(),
        c2.len() == b.count(),
        c2.subrange(0, c1.len() as int) == c1,
        forall|i: int| c1.len() <= i < c2.len() ==> #[trigger] c2[i] == StateColor::White,
    ensures
        colors_ok(b, c2),
{
    assert forall|x: int| 0 <= x < c2.len() && (#[trigger] c2[x] == StateColor::Blue || c2[x] == StateColor::Red) implies {
        &&& explored(b, x)
        &&& forall|k: int|
            0 <= k < b.succ_of(x)->Some_0.len() ==> c2[#[trigger] b.succ_of(x)->Some_0[k] as int]
                != StateColor::White
    } by {
        assert(x < c1.len());
        assert(c2[x] == c1[x]);
        assert(explored(a, x));
        assert(b.succ_of(x) == a.succ_of(x));
        assert forall|k: int| 0 <= k < b.succ_of(x)->Some_0.len() implies c2[#[trigger] b.succ_of(x)->Some_0[k] as int]
            != StateColor::White by {
            let t = a.succ_of(x)->Some_0[k] as int;
            assert(t < c1.len());
            assert(c2[t] == c1[t]);
        }
    }
    assert forall|x: int| 0 <= x < c2.len() && #[trigger] c2[x] == StateColor::Blue implies !b.acc(x) by {
        assert(x < c1.len());
        assert(c2[x] == c1[x]);
    }
    assert forall|x: int| 0 <= x < c2.len() && #[trigger] c2[x] == StateColor::Red implies safe(b, x) by {
        assert(x < c1.len());
        assert(c2[x] == c1[x]);
        lemma_safe_grows(a, b, x);
    }
}

proof fn lemma_grows_refl<E: NdfsEngine>(a: E)
    requires
        a.count() <= a.cap(),
    ensures
        grows(a, a),
{
    E::lemma_keeps_refl(a);
}

/// The finished states stay finished and explored as the graph grows and colours darken.
proof fn lemma_finished_keep<E: NdfsEngine>(a: E, b: E, c1: Seq<StateColor>, c2: Seq<StateColor>)
    requires
        grows(a, b),
        finished_closed(a, c1),
        blue_rejects(a, c1),
        c1.len() == a.count(),
        c1.len() <= c2.len(),
        forall|x: int| 0 <= x < c1.len() && #[trigger] c1[x] != StateColor::White ==> c2[x] != StateColor::White,
        forall|x: int|
            0 <= x < c2.len() && (#[trigger] c2[x] == StateColor::Blue || c2[x] == StateColor::Red)
                ==> x < c1.len() && (c1[x] == StateColor::Blue || c1[x] == StateColor::Red),
        forall|x: int| 0 <= x < c2.len() && #[trigger] c2[x] == StateColor::Blue ==> c1[x] == StateColor::Blue,
    ensures
        finished_closed(b, c2),
        blue_rejects(b, c2),
{
    assert forall|x: int| 0 <= x < c2.len() && (#[trigger] c2[x] == StateColor::Blue || c2[x] == StateColor::Red) implies {
        &&& explored(b, x)
        &&& forall|k: int|
            0 <= k < b.succ_of(x)->Some_0.len() ==> c2[#[trigger] b.succ_of(x)->Some_0[k] as int]
                != StateColor::White
    } by {
        assert(c1[x] == StateColor::Blue || c1[x] == StateColor::Red);
        assert(explored(a, x));
        assert(b.succ_of(x) == a.succ_of(x));
        assert forall|k: int| 0 <= k < b.succ_of(x)->Some_0.len() implies c2[#[trigger] b.succ_of(x)->Some_0[k] as int]
            != StateColor::White by {
            let t = a.succ_of(x)->Some_0[k] as int;
            assert(c1[t] != StateColor::White);
        }
    }
    assert forall|x: int| 0 <= x < c2.len() && #[trigger] c2[x] == StateColor::Blue implies !b.acc(x) by {
        assert(c1[x] == StateColor::Blue);
    }
}

/// The classification of red states is kept as the graph grows, colours turn red, and more
/// states are being searched from.
proof fn lemma_classified_keep<E: NdfsEngine>(
    a: E,
    b: E,
    c1: Seq<StateColor>,
    c2: Seq<StateColor>,
    c0: Seq<StateColor>,
    seed: int,
    o1: Seq<usize>,
    o2: Seq<usize>,
)
    requires
        grows(a, b),
        red_classified(a, c1, c0, seed, o1),
        new_red_rejects(a, c1, c0, seed),
        c1.len() == a.count(),
        c1.len() <= c2.len(),
        forall|x: int| 0 <= x < c1.len() && c1[x] == StateColor::Red ==> #[trigger] c2[x] == StateColor::Red,
        forall|x: int|
            0 <= x < c2.len() && #[trigger] c2[x] == StateColor::Red ==> (x < c1.len() && c1[x]
                == StateColor::Red) || (o2.contains(x as usize) && (!b.acc(x) || x == seed || old_red(c0, x))),
        forall|y: usize| o1.contains(y) ==> #[trigger] o2.contains(y),
    ensures
        red_classified(b, c2, c0, seed, o2),
        new_red_rejects(b, c2, c0, seed),
{
    assert forall|x: int| 0 <= x < c2.len() && #[trigger] c2[x] == StateColor::Red implies old_red(c0, x) || o2.contains(
        x as usize,
    ) || closed_new(b, c2, seed, x) by {
        if x < c1.len() && c1[x] == StateColor::Red {
            if !old_red(c0, x) && !o2.contains(x as usize) {
                assert(!o1.contains(x as usize));
                assert(closed_new(a, c1, seed, x));
                assert(b.succ_of(x) == a.succ_of(x));
                assert forall|k: int| 0 <= k < b.succ_of(x)->Some_0.len() implies c2[#[trigger] b.succ_of(x)->Some_0[k] as int]
                    == StateColor::Red && b.succ_of(x)->Some_0[k] != seed by {
                    let t = a.succ_of(x)->Some_0[k] as int;
                    assert(c1[t] == StateColor::Red);
                }
            }
        }
    }
    assert forall|x: int| 0 <= x < c2.len() && #[trigger] c2[x] == StateColor::Red && !old_red(c0, x) implies !b.acc(x) || x == seed by {
        if x < c1.len() && c1[x] == StateColor::Red {
            assert(!a.acc(x) || x == seed);
            assert(b.acc(x) == a.acc(x));
        }
    }
}

/// A walk from a red state after a red search either meets a state that was red before it,
/// or runs through states the search made red and done, never returning to the seed.
proof fn lemma_red_walk<E: NdfsEngine>(e: E, c: Seq<StateColor>, c0: Seq<StateColor>, seed: int, p: Seq<usize>)
    requires
        red_classified(e, c, c0, seed, seq![]),
        c.len() == e.count(),
        walk(e, p),
        p.len() >= 1,
        c[p[0] as int] == StateColor::Red,
    ensures
        (exists|j: int| 0 <= j < p.len() && old_red(c0, #[trigger] p[j] as int)) || (forall|j: int|
            0 <= j < p.len() ==> closed_new(e, c, seed, #[trigger] p[j] as int) && (j >= 1 ==> p[j]
                != seed)),
    decreases p.len(),
{
    if p.len() == 1 {
        if !old_red(c0, p[0] as int) {
            assert(!seq![].contains(p[0]));
            assert(closed_new(e, c, seed, p[0] as int));
        } else {
            assert(old_red(c0, p[0] as int));
        }
    } else {
        let q = p.drop_last();
        lemma_subwalk(e, p, 0, p.len() - 1);
        assert(q =~= p.subrange(0, p.len() - 1));
        lemma_red_walk(e, c, c0, seed, q);
        if exists|j: int| 0 <= j < q.len() && old_red(c0, #[trigger] q[j] as int) {
            let j = choose|j: int| 0 <= j < q.len() && old_red(c0, #[trigger] q[j] as int);
            assert(q[j] == p[j]);
            assert(old_red(c0, p[j] as int));
        } else {
            let n = p.len() - 2;
            assert(q[n] == p[n]);
            assert(closed_new(e, c, seed, p[n] as int));
            assert(edge(e, p[n] as int, p[n + 1]));
            let v = e.succ_of(p[n] as int)->Some_0;
            let k = choose|k: int| 0 <= k < v.len() && v[k] == p[n + 1];
            assert(c[v[k] as int] == StateColor::Red && v[k] != seed);
            let t = p[n + 1] as int;
            assert(c[t] == StateColor::Red);
            if old_red(c0, t) {
                assert(old_red(c0, p[p.len() - 1] as int));
            } else {
                assert(!seq![].contains(t as usize));
                assert(closed_new(e, c, seed, t));
                assert forall|j: int| 0 <= j < p.len() implies closed_new(e, c, seed, #[trigger] p[j] as int) && (j >= 1 ==> p[j]
                    != seed) by {
                    if j < p.len() - 1 {
                        assert(p[j] == q[j]);
                    }
                }
            }
        }
    }
}

/// After a red search from `seed` that found nothing, every red state is safe.
proof fn lemma_new_red_safe<E: NdfsEngine>(
    e0: E,
    e: E,
    c0: Seq<StateColor>,
    c: Seq<StateColor>,
    seed: int,
)
    requires
        grows(e0, e),
        red_safe(e0, c0),
        c0.len() == e0.count(),
        c.len() == e.count(),
        red_classified(e, c, c0, seed, seq![]),
        new_red_rejects(e, c, c0, seed),
        forall|x: int| old_red(c0, x) ==> #[trigger] c[x] == StateColor::Red,
    ensures
        red_safe(e, c),
{
    assert forall|x: int| 0 <= x < c.len() && #[trigger] c[x] == StateColor::Red implies safe(e, x) by {
        if old_red(c0, x) {
            assert(c0[x] == StateColor::Red);
            lemma_safe_grows(e0, e, x);
        } else {
            assert forall|p: Seq<usize>| #[trigger] walk(e, p) && p.len() >= 1 && p[0] == x implies explored(
                e,
                p.last() as int,
            ) && (e.acc(p.last() as int) ==> no_cycle(e, p.last() as int)) by {
                lemma_red_walk_safe(e0, e, c0, c, seed, p);
            }
        }
    }
}

proof fn lemma_red_walk_safe<E: NdfsEngine>(
    e0: E,
    e: E,
    c0: Seq<StateColor>,
    c: Seq<StateColor>,
    seed: int,
    p: Seq<usize>,
)
    requires
        grows(e0, e),
        red_safe(e0, c0),
        c0.len() == e0.count(),
        c.len() == e.count(),
        red_classified(e, c, c0, seed, seq![]),
        new_red_rejects(e, c, c0, seed),
        forall|x: int| old_red(c0, x) ==> #[trigger] c[x] == StateColor::Red,
        walk(e, p),
        p.len() >= 1,
        c[p[0] as int] == StateColor::Red,
    ensures
        explored(e, p.last() as int),
        e.acc(p.last() as int) ==> no_cycle(e, p.last() as int),
{
    lemma_red_walk(e, c, c0, seed, p);
    if exists|j: int| 0 <= j < p.len() && old_red(c0, #[trigger] p[j] as int) {
        let j = choose|j: int| 0 <= j < p.len() && old_red(c0, #[trigger] p[j] as int);
        assert(c0[p[j] as int] == StateColor::Red);
        lemma_safe_grows(e0, e, p[j] as int);
        lemma_subwalk(e, p, j, p.len() as int);
        let s = p.subrange(j, p.len() as int);
        assert(s[0] == p[j]);
        assert(s.last() == p.last());
        assert(walk(e, s) && s.len() >= 1);
    } else {
        let l = p.len() - 1;
        assert(closed_new(e, c, seed, p[l] as int));
        let last = p.last() as int;
        assert(c[last] == StateColor::Red) by {
            if l == 0 {
            } else {
                let m = l - 1;
                assert(closed_new(e, c, seed, p[m] as int));
                assert(edge(e, p[m] as int, p[m + 1]));
                assert(p[m + 1] == p[l]);
                let v = e.succ_of(p[m] as int)->Some_0;
                let k = choose|k: int| 0 <= k < v.len() && v[k] == p[l];
                assert(c[v[k] as int] == StateColor::Red);
            }
        }
        assert(!old_red(c0, last));
        if e.acc(last) {
            assert(last == seed);
            assert forall|q: Seq<usize>| #[trigger] walk(e, q) && q.len() >= 2 && q[0] == last implies q.last() != last by {
                lemma_red_walk(e, c, c0, seed, q);
                if exists|j: int| 0 <= j < q.len() && old_red(c0, #[trigger] q[j] as int) {
                    let j = choose|j: int| 0 <= j < q.len() && old_red(c0, #[trigger] q[j] as int);
                    assert(c0[q[j] as int] == StateColor::Red);
                    lemma_safe_grows(e0, e, q[j] as int);
                    lemma_subwalk(e, q, j, q.len() as int);
                    let s = q.subrange(j, q.len() as int);
                    assert(s[0] == q[j]);
                    assert(walk(e, s) && s.len() >= 1);
                    if q.last() == last {
                        assert(s.last() == last);
                        assert(e.acc(s.last() as int));
                        assert(no_cycle(e, last));
                    }
                } else {
                    assert(q.len() - 1 >= 1);
                    assert(closed_new(e, c, seed, q[q.len() - 1] as int) && q[q.len() - 1] != seed);
                }
            }
        }
    }
}

/// Every state on a walk from a non-white state is non-white, when no state is cyan.
proof fn lemma_walk_nonwhite<E: NdfsEngine>(e: E, c: Seq<StateColor>, p: Seq<usize>)
    requires
        finished_closed(e, c),
        c.len() == e.count(),
        forall|j: int| 0 <= j < c.len() ==> c[j] != StateColor::Cyan,
        walk(e, p),
        p.len() >= 1,
        c[p[0] as int] != StateColor::White,
    ensures
        forall|j: int| 0 <= j < p.len() ==> c[#[trigger] p[j] as int] != StateColor::White,
    decreases p.len(),
{
    if p.len() > 1 {
        let q = p.drop_last();
        lemma_subwalk(e, p, 0, p.len() - 1);
        assert(q =~= p.subrange(0, p.len() - 1));
        lemma_walk_nonwhite(e, c, q);
        let n = p.len() - 2;
        assert(q[n] == p[n]);
        assert(c[p[n] as int] != StateColor::White);
        assert(c[p[n] as int] != StateColor::Cyan);
        assert(edge(e, p[n] as int, p[n + 1]));
        let v = e.succ_of(p[n] as int)->Some_0;
        let k = choose|k: int| 0 <= k < v.len() && v[k] == p[n + 1];
        assert(c[v[k] as int] != StateColor::White);
        assert forall|j: int| 0 <= j < p.len() implies c[#[trigger] p[j] as int] != StateColor::White by {
            if j < p.len() - 1 {
                assert(p[j] == q[j]);
            }
        }
    }
}

/// When the search ends without a find, no run from a root reaches an accepting cycle.
proof fn lemma_no_lasso<E: NdfsEngine>(e: E, c: Seq<StateColor>, roots: Seq<usize>, st: Seq<usize>, st2: Seq<usize>)
    requires
        colors_ok(e, c),
        c.len() == e.count(),
        forall|j: int| 0 <= j < c.len() ==> c[j] != StateColor::Cyan,
        forall|k: int| 0 <= k < roots.len() ==> c[#[trigger] roots[k] as int] != StateColor::White,
    ensures
        !lasso(e, roots, st, st2),
{
    if lasso(e, roots, st, st2) {
        let k0 = choose|k: int| 0 <= k < roots.len() && roots[k] == st[0];
        assert(c[roots[k0] as int] != StateColor::White);
        lemma_walk_nonwhite(e, c, st);
        let a = st.last() as int;
        assert(c[st[st.len() - 1] as int] != StateColor::White);
        assert(c[a] == StateColor::Red);
        assert(walk(e, seq![a as usize]));
        assert(safe(e, a));
        assert(seq![a as usize].last() == a as usize);
        assert(no_cycle(e, a));
        let cc = choose|cc: usize| st.contains(cc) && #[trigger] edge(e, st2.last() as int, cc);
        let k = choose|k: int| 0 <= k < st.len() && st[k] == cc;
        lemma_subwalk(e, st, k, st.len() as int);
        let tail = st.subrange(k, st.len() as int);
        let one = seq![st2.last(), cc];
        assert(walk(e, one)) by {
            assert(st2[st2.len() - 1] < e.count());
            assert(st[k] < e.count());
            assert(edge(e, one[0] as int, one[1]));
        }
        lemma_walk_concat(e, st2, one);
        let w = st2 + one.drop_first();
        assert(w.last() == cc);
        assert(tail[0] == cc);
        lemma_walk_concat(e, w, tail);
        let cyc = w + tail.drop_first();
        assert(cyc[0] == st2[0]);
        assert(cyc.last() == tail.last());
        assert(tail.last() == st.last());
        assert(cyc.len() >= 2);
        assert(walk(e, cyc));
    }
}

/// Extends the colours with white entries for the states numbered since.
fn pad_colors<E: NdfsEngine>(e: &E, colors: &mut Vec<StateColor>)
    requires
        e.inv(),
        old(colors)@.len() <= e.count(),
    ensures
        final(colors)@.len() == e.count(),
        final(colors)@.subrange(0, old(colors)@.len() as int) == old(colors)@,
        forall|i: int|
            old(colors)@.len() <= i < e.count() ==> #[trigger] final(colors)@[i] == StateColor::White,
{
    let n = e.num_states();
    while colors.len() < n
        invariant
            n == e.count(),
            old(colors)@.len() <= colors@.len() <= n,
            colors@.subrange(0, old(colors)@.len() as int) == old(colors)@,
            forall|i: int| old(colors)@.len() <= i < colors@.len() ==> #[trigger] colors@[i] == StateColor::White,
        decreases n - colors.len(),
    {
        colors.push(StateColor::White);
        assert(colors@.subrange(0, old(colors)@.len() as int) =~= old(colors)@);
    }
}

/// The red search from a state: it looks for a cyan state, that is one on the blue stack,
/// among the successors, and goes on through blue states, making them red.
fn dfs_red<E: NdfsEngine>(
    e: &mut E,
    colors: &mut Vec<StateColor>,
    stack: &Vec<usize>,
    stack2: &mut Vec<usize>,
    s: usize,
    e_start: Ghost<E>,
    c_start: Ghost<Seq<StateColor>>,
) -> (r: Result<bool, ModelCheckError>)
    requires
        old(e).inv(),
        old(e).count() <= old(e).cap(),
        old(colors)@.len() == old(e).count(),
        s < old(e).count(),
        old(colors)@[s as int] != StateColor::White,
        grows(e_start@, *old(e)),
        red_safe(e_start@, c_start@),
        c_start@.len() == e_start@.count(),
        old(colors)@[stack@.last() as int] == StateColor::Cyan,
        explored(*old(e), s as int),
        forall|k: int|
            0 <= k < old(e).succ_of(s as int)->Some_0.len() ==> old(colors)@[#[trigger] old(e).succ_of(
                s as int,
            )->Some_0[k] as int] != StateColor::White,
        finished_closed(*old(e), old(colors)@),
        blue_rejects(*old(e), old(colors)@),
        red_classified(*old(e), old(colors)@, c_start@, stack@.last() as int, old(stack2)@.push(s)),
        new_red_rejects(*old(e), old(colors)@, c_start@, stack@.last() as int),
        forall|x: int| old_red(c_start@, x) ==> #[trigger] old(colors)@[x] == StateColor::Red,
        old(colors)@[s as int] == StateColor::Red || s == stack@.last(),
        stack@.len() >= 1,
        walk(*old(e), stack@),
        old(e).acc(stack@.last() as int),
        forall|i: int| 0 <= i < old(colors)@.len() && old(colors)@[i] == StateColor::Cyan ==> stack@.contains(i as usize),
        walk(*old(e), old(stack2)@.push(s)),
        old(stack2)@.push(s)[0] == stack@.last(),
    ensures
        grows(*old(e), *final(e)),
        final(e).inv(),
        r matches Ok(true) ==> {
            &&& final(stack2)@.len() >= 1
            &&& final(stack2)@[0] == stack@.last()
            &&& walk(*final(e), final(stack2)@)
            &&& exists|c: usize| stack@.contains(c) && #[trigger] edge(*final(e), final(stack2)@.last() as int, c)
        },
        r matches Ok(false) ==> {
            &&& final(colors)@.len() == final(e).count()
            &&& final(stack2)@ == old(stack2)@
            &&& finished_closed(*final(e), final(colors)@)
            &&& blue_rejects(*final(e), final(colors)@)
            &&& red_classified(*final(e), final(colors)@, c_start@, stack@.last() as int, old(stack2)@)
            &&& new_red_rejects(*final(e), final(colors)@, c_start@, stack@.last() as int)
            &&& final(colors)@[s as int] == StateColor::Red
            &&& forall|i: int| 0 <= i < old(colors)@.len() && #[trigger] old(colors)@[i] != StateColor::White ==> final(colors)@[i] != StateColor::White
            &&& forall|i: int| 0 <= i < old(colors)@.len() && old(colors)@[i] == StateColor::Red ==> #[trigger] final(colors)@[i] == StateColor::Red
            &&& forall|i: int| 0 <= i < old(colors)@.len() && i != s && old(colors)@[i] == StateColor::Cyan ==> #[trigger] final(colors)@[i] == StateColor::Cyan
            &&& forall|i: int| 0 <= i < final(colors)@.len() && final(colors)@[i] == StateColor::Cyan ==> stack@.contains(i as usize)
            &&& forall|i: int| old(colors)@.len() <= i < final(colors)@.len() ==> #[trigger] final(colors)@[i] == StateColor::White
            &&& forall|i: int| 0 <= i < old(colors)@.len() && old(colors)@[i] == StateColor::White ==> #[trigger] final(colors)@[i] == StateColor::White
        },
        r matches Err(err) ==> error_allowed(old(e).cfg(), err),
    decreases old(e).cap() - count_where(old(colors)@, is_red()),
{
    let ghost e0 = *e;
    let ghost c0 = colors@;
    let ghost seed = stack@.last() as int;
    let ghost st2_0 = stack2@;
    match e.check_limits() {
        Err(err) => { return Err(err); },
        Ok(()) => {},
    }
    let ghost ea = *e;
    stack2.push(s);
    let succs = match e.successors(s) {
        Err(err) => {
            proof {
                lemma_grows_trans(e0, ea, *e);
            }
            return Err(err);
        },
        Ok(v) => v,
    };
    proof {
        lemma_grows_trans(e0, ea, *e);
        lemma_walk_grows(e0, *e, stack@);
        lemma_walk_grows(e0, *e, stack2@);
    }
    pad_colors(e, colors);
    let ghost e1 = *e;
    proof {
        E::lemma_keeps_refl(e1);
        assert forall|j: int| 0 <= j < c0.len() implies colors@[j] == c0[j] by {
            assert(colors@.subrange(0, c0.len() as int)[j] == c0[j]);
        }
        lemma_count_mono(c0, colors@, is_red(), -1);
        assert forall|j: int| 0 <= j < colors@.len() && colors@[j] == StateColor::Cyan implies stack@.contains(j as usize) by {
            if j < c0.len() {
                assert(colors@[j] == c0[j]);
            }
        }
        assert(e0.succ_of(s as int) is Some);
        assert(e1.succ_of(s as int) == e0.succ_of(s as int));
        assert(succs@ == e0.succ_of(s as int)->Some_0);
        lemma_finished_keep(e0, e1, c0, colors@);
        assert(stack2@ == st2_0.push(s));
        lemma_classified_keep(e0, e1, c0, colors@, c_start@, seed, st2_0.push(s), stack2@);
        lemma_grows_trans(e_start@, e0, e1);
        assert forall|k: int| 0 <= k < succs@.len() implies colors@[#[trigger] succs@[k] as int] != StateColor::White by {
            assert(c0[succs@[k] as int] != StateColor::White);
        }
        assert forall|x: int| old_red(c_start@, x) implies #[trigger] colors@[x] == StateColor::Red by {
            assert(c0[x] == StateColor::Red);
        }
        assert(colors@[seed] == c0[seed]);
    }
    let mut i: usize = 0;
    while i < succs.len()
        invariant
            e.inv(),
            grows(e0, *e),
            grows(e1, *e),
            e0 == *old(e),
            c0 == old(colors)@,
            c0.len() == e0.count(),
            s < e1.count(),
            colors@.len() == e.count(),
            e1.succ_of(s as int) == Some(succs@),
            forall|k: int| 0 <= k < succs@.len() ==> #[trigger] succs@[k] < e1.count(),
            s < e0.count(),
            stack@.len() >= 1,
            walk(*e, stack@),
            stack@.last() < e0.count(),
            e0.acc(stack@.last() as int),
            stack2@ == old(stack2)@.push(s),
            walk(*e, stack2@),
            stack2@[0] == stack@.last(),
            forall|j: int| 0 <= j < c0.len() && #[trigger] c0[j] != StateColor::White ==> colors@[j] != StateColor::White,
            forall|j: int| 0 <= j < c0.len() && c0[j] == StateColor::Red ==> #[trigger] colors@[j] == StateColor::Red,
            forall|j: int| 0 <= j < c0.len() && c0[j] == StateColor::Cyan ==> #[trigger] colors@[j] == StateColor::Cyan,
            forall|j: int| c0.len() <= j < colors@.len() ==> #[trigger] colors@[j] == StateColor::White,
            forall|j: int| 0 <= j < c0.len() && c0[j] == StateColor::White ==> #[trigger] colors@[j] == StateColor::White,
            c0[s as int] != StateColor::White,
            forall|j: int| 0 <= j < colors@.len() && colors@[j] == StateColor::Cyan ==> stack@.contains(j as usize),
            count_where(c0, is_red()) <= count_where(colors@, is_red()),
            seed == stack@.last() as int,
            grows(e_start@, *e),
            red_safe(e_start@, c_start@),
            c_start@.len() == e_start@.count(),
            colors@[seed] == StateColor::Cyan,
            forall|k: int| 0 <= k < succs@.len() ==> colors@[#[trigger] succs@[k] as int] != StateColor::White,
            forall|k: int| 0 <= k < i ==> colors@[#[trigger] succs@[k] as int] == StateColor::Red && succs@[k] != seed,
            finished_closed(*e, colors@),
            blue_rejects(*e, colors@),
            red_classified(*e, colors@, c_start@, seed, stack2@),
            new_red_rejects(*e, colors@, c_start@, seed),
            forall|x: int| old_red(c_start@, x) ==> #[trigger] colors@[x] == StateColor::Red,
            c0[s as int] == StateColor::Red ==> colors@[s as int] == StateColor::Red,
        decreases succs.len() - i,
    {
        let t = succs[i];
        proof {
            assert(succs@.contains(t));
            assert(e.succ_of(s as int) == Some(succs@));
            assert(edge(*e, s as int, t));
            assert(colors@[succs@[i as int] as int] != StateColor::White);
        }
        let ct = colors[t];
        if ct == StateColor::Cyan {
            proof {
                assert(stack@.contains(t));
                assert(stack2@.last() == s);
            }
            return Ok(true);
        } else if ct == StateColor::Blue {
            let ghost cb = colors@;
            let ghost eb = *e;
            colors.set(t, StateColor::Red);
            proof {
                if (t as int) < c0.len() {
                    assert(c0[t as int] != StateColor::Red);
                }
                lemma_count_mono(c0, cb, is_red(), -1);
                lemma_count_mono(cb, colors@, is_red(), t as int);
                lemma_count_le_len(colors@, is_red());
                assert(walk(*e, stack2@.push(t))) by {
                    assert forall|k: int| 0 <= k < stack2@.push(t).len() - 1 implies #[trigger] edge(*e, stack2@.push(t)[k] as int, stack2@.push(t)[k + 1]) by {
                        if k < stack2@.len() - 1 {
                            assert(edge(*e, stack2@[k] as int, stack2@[k + 1]));
                        }
                    }
                }
                lemma_grows_refl(eb);
                assert(!eb.acc(t as int));
                assert(stack2@.push(t)[stack2@.len() as int] == t);
                assert(stack2@.push(t).contains(t));
                assert forall|y: usize| stack2@.contains(y) implies #[trigger] stack2@.push(t).contains(y) by {
                    let k = choose|k: int| 0 <= k < stack2@.len() && stack2@[k] == y;
                    assert(stack2@.push(t)[k] == y);
                }
                lemma_classified_keep(eb, eb, cb, colors@, c_start@, seed, stack2@, stack2@.push(t));
                lemma_finished_keep(eb, eb, cb, colors@);
                assert(explored(eb, t as int));
                assert forall|k: int| 0 <= k < eb.succ_of(t as int)->Some_0.len() implies colors@[#[trigger] eb.succ_of(
                    t as int,
                )->Some_0[k] as int] != StateColor::White by {
                    assert(cb[eb.succ_of(t as int)->Some_0[k] as int] != StateColor::White);
                }
                assert(colors@[seed] == StateColor::Cyan);
            }
            let ghost e2 = *e;
            let ghost c2 = colors@;
            assert(e.acc(stack@.last() as int) == e0.acc(stack@.last() as int));
            let found = dfs_red(e, colors, stack, stack2, t, e_start, c_start);
            match found {
                Err(err) => {
                    proof {
                        lemma_grows_trans(e0, e2, *e);
                    }
                    return Err(err);
                },
                Ok(true) => {
                    proof {
                        lemma_grows_trans(e0, e2, *e);
                    }
                    return Ok(true);
                },
                Ok(false) => {},
            }
            proof {
                lemma_grows_trans(e0, e2, *e);
                lemma_grows_trans(e1, e2, *e);
                lemma_grows_trans(e_start@, e2, *e);
                lemma_walk_grows(e2, *e, stack@);
                lemma_walk_grows(e2, *e, stack2@);
                lemma_count_mono(c2, colors@, is_red(), -1);
                assert(colors@[t as int] == StateColor::Red);
                assert(t as int != seed);
                assert forall|k: int| 0 <= k < i + 1 implies colors@[#[trigger] succs@[k] as int] == StateColor::Red && succs@[k] != seed by {
                    if k < i {
                        assert(c2[succs@[k] as int] == StateColor::Red);
                    }
                }
            }
        } else {
            proof {
                assert(ct == StateColor::Red);
                assert(t as int != seed);
            }
        }
        i = i + 1;
    }
    let ghost cl = colors@;
    let ghost el = *e;
    stack2.pop();
    colors.set(s, StateColor::Red);
    let n_c = colors.len();
    proof {
        assert(stack2@ =~= old(stack2)@);
        assert(el.succ_of(s as int) == Some(succs@));
        assert(closed_new(el, colors@, seed, s as int)) by {
            assert forall|k: int| 0 <= k < succs@.len() implies #[trigger] succs@[k] < el.count() by {
                assert(succs@[k] < e1.count());
            }
            assert forall|k: int| 0 <= k < succs@.len() implies colors@[#[trigger] succs@[k] as int] == StateColor::Red && succs@[k] != seed by {
                assert(cl[succs@[k] as int] == StateColor::Red);
            }
        }
        assert forall|x: int| 0 <= x < colors@.len() && #[trigger] colors@[x] == StateColor::Red implies old_red(c_start@, x) || old(stack2)@.contains(
            x as usize,
        ) || closed_new(el, colors@, seed, x) by {
            if x != s {
                assert(cl[x] == StateColor::Red);
                if !old_red(c_start@, x) && !closed_new(el, cl, seed, x) {
                    assert(stack2@.push(s).contains(x as usize));
                    let k = choose|k: int| 0 <= k < stack2@.push(s).len() && stack2@.push(s)[k] == x as usize;
                    assert(stack2@.push(s)[stack2@.len() as int] == s);
                    assert(x < n_c);
                    assert((x as usize) as int == x);
                    assert((x as usize) != s);
                    assert(k < stack2@.len());
                    assert(old(stack2)@[k] == x as usize);
                }
                if closed_new(el, cl, seed, x) {
                    assert forall|k: int| 0 <= k < el.succ_of(x)->Some_0.len() implies colors@[#[trigger] el.succ_of(x)->Some_0[k] as int]
                        == StateColor::Red && el.succ_of(x)->Some_0[k] != seed by {
                        assert(cl[el.succ_of(x)->Some_0[k] as int] == StateColor::Red);
                    }
                }
            }
        }
        assert forall|x: int| 0 <= x < colors@.len() && #[trigger] colors@[x] == StateColor::Red && !old_red(c_start@, x) implies !el.acc(x) || x == seed by {
            if x != s {
                assert(cl[x] == StateColor::Red);
            } else if s as int != seed {
                assert(c0[s as int] == StateColor::Red);
                assert(cl[x] == StateColor::Red);
            }
        }
        assert forall|x: int| 0 <= x < colors@.len() && (#[trigger] colors@[x] == StateColor::Blue || colors@[x] == StateColor::Red) implies {
            &&& explored(el, x)
            &&& forall|k: int|
                0 <= k < el.succ_of(x)->Some_0.len() ==> colors@[#[trigger] el.succ_of(x)->Some_0[k] as int]
                    != StateColor::White
        } by {
            if x != s {
                assert(cl[x] == colors@[x]);
                assert forall|k: int| 0 <= k < el.succ_of(x)->Some_0.len() implies colors@[#[trigger] el.succ_of(x)->Some_0[k] as int]
                    != StateColor::White by {
                    assert(cl[el.succ_of(x)->Some_0[k] as int] != StateColor::White);
                }
            } else {
                assert forall|k: int| 0 <= k < el.succ_of(x)->Some_0.len() implies colors@[#[trigger] el.succ_of(x)->Some_0[k] as int]
                    != StateColor::White by {
                    assert(colors@[succs@[k] as int] == StateColor::Red);
                }
            }
        }
        assert forall|x: int| 0 <= x < colors@.len() && #[trigger] colors@[x] == StateColor::Blue implies !el.acc(x) by {
            assert(cl[x] == StateColor::Blue);
        }
    }
    Ok(false)
}

/// The blue search from a state: it explores the white successors depth first and, when the
/// state accepts, runs a red search from it once its successors are done.
fn dfs_blue<E: NdfsEngine>(
    e: &mut E,
    colors: &mut Vec<StateColor>,
    stack: &mut Vec<usize>,
    stack2: &mut Vec<usize>,
    roots: Ghost<Seq<usize>>,
    s: usize,
) -> (r: Result<bool, ModelCheckError>)
    requires
        old(e).inv(),
        old(e).count() <= old(e).cap(),
        old(colors)@.len() == old(e).count(),
        s < old(e).count(),
        walk(*old(e), old(stack)@.push(s)),
        roots@.contains(old(stack)@.push(s)[0]),
        old(stack2)@.len() == 0,
        forall|i: int| 0 <= i < old(colors)@.len() && old(colors)@[i] == StateColor::Cyan ==> old(stack)@.contains(i as usize),
        colors_ok(*old(e), old(colors)@),
    ensures
        grows(*old(e), *final(e)),
        final(e).inv(),
        r matches Ok(true) ==> lasso(*final(e), roots@, final(stack)@, final(stack2)@),
        r matches Ok(false) ==> {
            &&& final(colors)@.len() == final(e).count()
            &&& final(stack)@ == old(stack)@
            &&& final(stack2)@.len() == 0
            &&& final(colors)@[s as int] != StateColor::White
            &&& forall|i: int| 0 <= i < old(colors)@.len() && #[trigger] old(colors)@[i] != StateColor::White ==> final(colors)@[i] != StateColor::White
            &&& forall|i: int| 0 <= i < final(colors)@.len() && final(colors)@[i] == StateColor::Cyan ==> old(stack)@.contains(i as usize)
            &&& colors_ok(*final(e), final(colors)@)
            &&& forall|i: int| 0 <= i < old(colors)@.len() && i != s && #[trigger] old(colors)@[i] == StateColor::Cyan ==> final(colors)@[i] == StateColor::Cyan
        },
        r matches Err(err) ==> error_allowed(old(e).cfg(), err),
    decreases 2 * (old(e).cap() - count_where(old(colors)@, is_nonwhite())) + if old(colors)@[s as int] == StateColor::White { 0int } else { 1int },
{
    let ghost e0 = *e;
    let ghost c0 = colors@;
    let ghost st0 = stack@;
    proof {
        lemma_count_le_len(c0, is_nonwhite());
    }
    match e.check_limits() {
        Err(err) => { return Err(err); },
        Ok(()) => {},
    }
    let ghost ea = *e;
    colors.set(s, StateColor::Cyan);
    let ghost c1 = colors@;
    assert(c1 == c0.update(s as int, StateColor::Cyan));
    proof {
        lemma_grows_refl(e0);
        lemma_finished_keep(e0, e0, c0, c1);
        assert forall|x: int| 0 <= x < c1.len() && #[trigger] c1[x] == StateColor::Red implies safe(e0, x) by {
            assert(c0[x] == StateColor::Red);
        }
        lemma_grows_trans(e0, e0, ea);
    }
    stack.push(s);
    let succs = match e.successors(s) {
        Err(err) => {
            proof {
                lemma_grows_trans(e0, ea, *e);
            }
            return Err(err);
        },
        Ok(v) => v,
    };
    proof {
        lemma_grows_trans(e0, ea, *e);
        lemma_walk_grows(e0, *e, stack@);
    }
    pad_colors(e, colors);
    let ghost e1 = *e;
    proof {
        E::lemma_keeps_refl(e1);
        assert forall|j: int| 0 <= j < c1.len() implies colors@[j] == c1[j] by {
            assert(colors@.subrange(0, c1.len() as int)[j] == c1[j]);
        }
        assert forall|j: int| 0 <= j < c0.len() && #[trigger] is_nonwhite()(c0[j]) implies is_nonwhite()(colors@[j]) by {
            assert(colors@[j] == c1[j]);
        }
        assert(colors@[s as int] == c1[s as int]);
        assert(is_nonwhite()(colors@[s as int]));
        assert forall|j: int| 0 <= j < c0.len() && #[trigger] c0[j] != StateColor::White implies colors@[j] != StateColor::White by {
            assert(colors@[j] == c1[j]);
        }
        lemma_count_mono(c0, colors@, is_nonwhite(), s as int);
        lemma_colors_ok_grows(e0, e1, c1, colors@);
        assert forall|j: int| 0 <= j < c0.len() && j != s && #[trigger] c0[j] == StateColor::Cyan implies colors@[j] == StateColor::Cyan by {
            assert(colors@[j] == c1[j]);
        }
        assert forall|j: int| 0 <= j < colors@.len() && colors@[j] == StateColor::Cyan implies stack@.contains(j as usize) by {
            if j == s {
                assert(stack@[stack@.len() - 1] == s);
            } else if j < c0.len() {
                assert(colors@[j] == c1[j]);
                assert(c1[j] == c0[j]);
                assert(st0.contains(j as usize));
                let k = choose|k: int| 0 <= k < st0.len() && st0[k] == j as usize;
                assert(stack@[k] == j as usize);
            }
        }
    }
    let mut i: usize = 0;
    while i < succs.len()
        invariant
            e.inv(),
            grows(e0, *e),
            grows(e1, *e),
            e0 == *old(e),
            c0 == old(colors)@,
            st0 == old(stack)@,
            c0.len() == e0.count(),
            s < e1.count(),
            colors@.len() == e.count(),
            e1.succ_of(s as int) == Some(succs@),
            forall|k: int| 0 <= k < succs@.len() ==> #[trigger] succs@[k] < e1.count(),
            s < e0.count(),
            stack@ == st0.push(s),
            walk(*e, stack@),
            roots@.contains(stack@[0]),
            stack2@.len() == 0,
            colors@[s as int] != StateColor::White,
            forall|j: int| 0 <= j < c0.len() && #[trigger] c0[j] != StateColor::White ==> colors@[j] != StateColor::White,
            forall|j: int| 0 <= j < colors@.len() && colors@[j] == StateColor::Cyan ==> stack@.contains(j as usize),
            count_where(c0, is_nonwhite()) + if c0[s as int] == StateColor::White { 1int } else { 0int } <= count_where(colors@, is_nonwhite()),
            colors_ok(*e, colors@),
            colors@[s as int] == StateColor::Cyan,
            forall|k: int| 0 <= k < i ==> colors@[#[trigger] succs@[k] as int] != StateColor::White,
            forall|j: int| 0 <= j < c0.len() && j != s && #[trigger] c0[j] == StateColor::Cyan ==> colors@[j] == StateColor::Cyan,
        decreases succs.len() - i,
    {
        let t = succs[i];
        proof {
            assert(succs@.contains(t));
            assert(e.succ_of(s as int) == Some(succs@));
            assert(edge(*e, s as int, t));
        }
        if colors[t] == StateColor::White {
            proof {
                assert(walk(*e, stack@.push(t))) by {
                    assert forall|k: int| 0 <= k < stack@.push(t).len() - 1 implies #[trigger] edge(*e, stack@.push(t)[k] as int, stack@.push(t)[k + 1]) by {
                        if k < stack@.len() - 1 {
                            assert(edge(*e, stack@[k] as int, stack@[k + 1]));
                        }
                    }
                }
                assert(stack@.push(t)[0] == stack@[0]);
                lemma_count_le_len(colors@, is_nonwhite());
            }
            let ghost e2 = *e;
            let ghost c2 = colors@;
            let found = dfs_blue(e, colors, stack, stack2, roots, t);
            match found {
                Err(err) => {
                    proof {
                        lemma_grows_trans(e0, e2, *e);
                    }
                    return Err(err);
                },
                Ok(true) => {
                    proof {
                        lemma_grows_trans(e0, e2, *e);
                    }
                    return Ok(true);
                },
                Ok(false) => {},
            }
            proof {
                lemma_grows_trans(e0, e2, *e);
                lemma_grows_trans(e1, e2, *e);
                lemma_walk_grows(e2, *e, stack@);
                lemma_count_mono(c2, colors@, is_nonwhite(), -1);
                assert forall|k: int| 0 <= k < i + 1 implies colors@[#[trigger] succs@[k] as int] != StateColor::White by {
                    if k < i {
                        assert(c2[succs@[k] as int] != StateColor::White);
                    }
                }
                assert forall|j: int| 0 <= j < c0.len() && j != s && #[trigger] c0[j] == StateColor::Cyan implies colors@[j] == StateColor::Cyan by {
                    assert(c2[j] == StateColor::Cyan);
                }
            }
        }
        i = i + 1;
    }
    proof {
        assert(e.succ_of(s as int) == Some(succs@));
        assert forall|k: int| 0 <= k < succs@.len() implies colors@[#[trigger] succs@[k] as int] != StateColor::White by {}
    }
    if e.is_accepting(s) {
        proof {
            assert(stack@.last() == s);
            assert(stack@.push(s)[0] == stack@[0]);
        }
        let ghost e3 = *e;
        let ghost c3 = colors@;
        proof {
            lemma_grows_refl(e3);
            assert(explored(e3, s as int)) by {
                assert forall|k: int| 0 <= k < succs@.len() implies #[trigger] succs@[k] < e3.count() by {
                    assert(succs@[k] < e1.count());
                }
            }
            assert forall|x: int| 0 <= x < c3.len() && #[trigger] c3[x] == StateColor::Red implies old_red(c3, x) || seq![].push(s).contains(
                x as usize,
            ) || closed_new(e3, c3, s as int, x) by {}
            assert(seq![].push(s) =~= stack2@.push(s));
        }
        let found = dfs_red(e, colors, stack, stack2, s, Ghost(e3), Ghost(c3));
        match found {
            Err(err) => {
                proof {
                    lemma_grows_trans(e0, e3, *e);
                }
                return Err(err);
            },
            Ok(true) => {
                proof {
                    lemma_grows_trans(e0, e3, *e);
                    lemma_walk_grows(e3, *e, stack@);
                    assert(e.acc(stack@.last() as int));
                }
                return Ok(true);
            },
            Ok(false) => {},
        }
        proof {
            lemma_grows_trans(e0, e3, *e);
            assert(stack2@ =~= seq![]);
            lemma_new_red_safe(e3, *e, c3, colors@, s as int);
        }
    }
    let ghost cpre = colors@;
    let accepting_seed = e.is_accepting(s);
    if accepting_seed {
        colors.set(s, StateColor::Red);
    } else {
        colors.set(s, StateColor::Blue);
    }
    stack.pop();
    let n_colors = colors.len();
    proof {
        assert(stack@ =~= st0);
        assert forall|j: int| 0 <= j < colors@.len() && colors@[j] == StateColor::Cyan implies st0.contains(j as usize) by {
            assert(j != s);
            assert(colors@[j] == cpre[j]);
            assert(st0.push(s).contains(j as usize));
            let k = choose|k: int| 0 <= k < st0.push(s).len() && st0.push(s)[k] == j as usize;
            assert(j < n_colors);
            assert((j as usize) as int == j);
            assert((j as usize) != s);
            assert(st0.push(s)[st0.len() as int] == s);
            assert(k < st0.len());
            assert(st0[k] == j as usize);
        }
        assert forall|j: int| 0 <= j < c0.len() && #[trigger] c0[j] != StateColor::White implies colors@[j] != StateColor::White by {
            if j != s {
                assert(colors@[j] == cpre[j]);
            }
        }
        assert forall|j: int| 0 <= j < c0.len() && j != s && #[trigger] c0[j] == StateColor::Cyan implies colors@[j] == StateColor::Cyan by {
            assert(colors@[j] == cpre[j]);
        }
        assert(e.succ_of(s as int) == Some(succs@));
        if accepting_seed {
            assert(colors@ =~= cpre);
        } else {
            assert(cpre[s as int] == StateColor::Cyan);
            assert forall|x: int| 0 <= x < colors@.len() && (#[trigger] colors@[x] == StateColor::Blue || colors@[x] == StateColor::Red) implies {
                &&& explored(*e, x)
                &&& forall|k: int|
                    0 <= k < e.succ_of(x)->Some_0.len() ==> colors@[#[trigger] e.succ_of(x)->Some_0[k] as int]
                        != StateColor::White
            } by {
                if x == s {
                    assert forall|k: int| 0 <= k < succs@.len() implies #[trigger] succs@[k] < e.count() by {
                        assert(succs@[k] < e1.count());
                    }
                    assert forall|k: int| 0 <= k < e.succ_of(x)->Some_0.len() implies colors@[#[trigger] e.succ_of(x)->Some_0[k] as int]
                        != StateColor::White by {
                        assert(cpre[succs@[k] as int] != StateColor::White);
                    }
                } else {
                    assert(colors@[x] == cpre[x]);
                    assert forall|k: int| 0 <= k < e.succ_of(x)->Some_0.len() implies colors@[#[trigger] e.succ_of(x)->Some_0[k] as int]
                        != StateColor::White by {
                        assert(cpre[e.succ_of(x)->Some_0[k] as int] != StateColor::White);
                    }
                }
            }
            assert forall|x: int| 0 <= x < colors@.len() && #[trigger] colors@[x] == StateColor::Blue implies !e.acc(x) by {
                if x != s {
                    assert(cpre[x] == StateColor::Blue);
                }
            }
            assert forall|x: int| 0 <= x < colors@.len() && #[trigger] colors@[x] == StateColor::Red implies safe(*e, x) by {
                assert(cpre[x] == StateColor::Red);
            }
        }
    }
    Ok(false)
}

/// The nested depth-first search from each root in turn: `Ok((true, stack, stack2))` with a
/// run into an accepting cycle, `Ok((false, None, None))` when none was found.
pub fn run_ndfs<E: NdfsEngine>(e: &mut E, roots: Vec<usize>) -> (r: Result<
    SearchOutcome,
    ModelCheckError,
>)
    requires
        old(e).inv(),
        old(e).count() <= old(e).cap(),
        forall|k: int| 0 <= k < roots@.len() ==> #[trigger] roots@[k] < old(e).count(),
    ensures
        grows(*old(e), *final(e)),
        final(e).inv(),
        r matches Ok(o) ==> (o.0 ==> (o.1 matches Some(st) && o.2 matches Some(st2) && lasso(
            *final(e),
            roots@,
            st@,
            st2@,
        ))) && (!o.0 ==> o.1 is None && o.2 is None && (forall|st: Seq<usize>, st2: Seq<usize>|
            !#[trigger] lasso(*final(e), roots@, st, st2)) && (forall|p: Seq<usize>|
            #[trigger] walk(*final(e), p) && p.len() >= 1 && roots@.contains(p[0]) ==> explored(
                *final(e),
                p.last() as int,
            ))),
        r matches Err(err) ==> error_allowed(old(e).cfg(), err),
{
    let ghost e0 = *e;
    proof {
        E::lemma_keeps_refl(e0);
    }
    let mut colors: Vec<StateColor> = Vec::new();
    pad_colors(e, &mut colors);
    let mut stack: Vec<usize> = Vec::new();
    let mut stack2: Vec<usize> = Vec::new();
    let mut i: usize = 0;
    while i < roots.len()
        invariant
            e.inv(),
            grows(e0, *e),
            e0 == *old(e),
            e.count() <= e.cap(),
            colors@.len() == e.count(),
            stack@.len() == 0,
            stack2@.len() == 0,
            forall|k: int| 0 <= k < roots@.len() ==> #[trigger] roots@[k] < e0.count(),
            forall|j: int| 0 <= j < colors@.len() ==> colors@[j] != StateColor::Cyan,
            colors_ok(*e, colors@),
            i <= roots.len(),
            forall|k: int| 0 <= k < i ==> colors@[#[trigger] roots@[k] as int] != StateColor::White,
        decreases roots.len() - i,
    {
        let root = roots[i];
        proof {
            assert(roots@.contains(root));
            assert(stack@.push(root)[0] == root);
        }
        let ghost e1 = *e;
        let ghost c1 = colors@;
        let found = dfs_blue(e, &mut colors, &mut stack, &mut stack2, Ghost(roots@), root);
        match found {
            Err(err) => {
                proof {
                    lemma_grows_trans(e0, e1, *e);
                }
                return Err(err);
            },
            Ok(true) => {
                proof {
                    lemma_grows_trans(e0, e1, *e);
                }
                return Ok((true, Some(stack), Some(stack2)));
            },
            Ok(false) => {},
        }
        proof {
            lemma_grows_trans(e0, e1, *e);
            assert forall|k: int| 0 <= k < i + 1 implies colors@[#[trigger] roots@[k] as int] != StateColor::White by {
                if k < i {
                    assert(c1[roots@[k] as int] != StateColor::White);
                }
            }
        }
        i = i + 1;
    }
    proof {
        assert forall|st: Seq<usize>, st2: Seq<usize>| !#[trigger] lasso(*e, roots@, st, st2) by {
            lemma_no_lasso(*e, colors@, roots@, st, st2);
        }
        assert forall|p: Seq<usize>| #[trigger] walk(*e, p) && p.len() >= 1 && roots@.contains(p[0]) implies explored(
            *e,
            p.last() as int,
        ) by {
            let k0 = choose|k: int| 0 <= k < roots@.len() && roots@[k] == p[0];
            assert(colors@[roots@[k0] as int] != StateColor::White);
            lemma_walk_nonwhite(*e, colors@, p);
            assert(colors@[p[p.len() - 1] as int] != StateColor::White);
        }
    }
    Ok((false, None, None))
}

} // verus!
