//! Version lineage tracking.
//!
//! A [`Lineage`] is an arena of immutable lineage records. Each record knows
//! its parent records (zero for a root, one for a fork, two for a merge), and
//! every parent was created strictly earlier, so the history is acyclic by
//! construction. A [`Version`] names one lineage record together with a
//! generation counter; deriving a version bumps the counter without growing
//! the history, while forking and merging append fresh records.
//!
//! The ancestry test [`Version::is_derivative_of`] is a reachability walk
//! over parent links. A record may carry a frozen ancestor table, built by
//! [`Version::optimize`], that answers later queries against that record in
//! constant time; the table is semantically invisible, which the contracts
//! express by keeping it out of the lineage view.

use vstd::prelude::*;

verus! {

/// Every parent link of a lineage record points to a record created earlier.
pub open spec fn lineage_wf(l: Seq<Seq<int>>) -> bool {
    forall|i: int, k: int|
        0 <= i < l.len() && 0 <= k < l[i].len() ==> 0 <= #[trigger] l[i][k] < i
}

/// Record `a` can reach record `b` by following parent links (in zero or
/// more steps).
pub open spec fn reaches(l: Seq<Seq<int>>, a: int, b: int) -> bool
    decreases a, 1int, 0int,
        when lineage_wf(l) && 0 <= a < l.len()
{
    a == b || parent_reaches(l, a, b, l[a].len() as int)
}

/// One of the first `j` parents of record `a` reaches record `b`.
pub open spec fn parent_reaches(l: Seq<Seq<int>>, a: int, b: int, j: int) -> bool
    decreases a, 0int, j,
        when lineage_wf(l) && 0 <= a < l.len() && j <= l[a].len()
{
    j > 0 && (reaches(l, l[a][j - 1], b) || parent_reaches(l, a, b, j - 1))
}

/// If the `k`-th parent of `a` reaches `b`, so does `a`.
pub proof fn lemma_reaches_step(l: Seq<Seq<int>>, a: int, b: int, k: int)
    requires
        lineage_wf(l),
        0 <= a < l.len(),
        0 <= k < l[a].len(),
        reaches(l, l[a][k], b),
    ensures
        reaches(l, a, b),
{
    lemma_parent_reaches_intro(l, a, b, k, l[a].len() as int);
}

proof fn lemma_parent_reaches_intro(l: Seq<Seq<int>>, a: int, b: int, k: int, j: int)
    requires
        lineage_wf(l),
        0 <= a < l.len(),
        0 <= k < j <= l[a].len(),
        reaches(l, l[a][k], b),
    ensures
        parent_reaches(l, a, b, j),
    decreases j,
{
    if k < j - 1 {
        lemma_parent_reaches_intro(l, a, b, k, j - 1);
    }
}

/// If `a` reaches `b` through some parent, name one such parent index.
pub proof fn lemma_reaches_elim(l: Seq<Seq<int>>, a: int, b: int) -> (k: int)
    requires
        lineage_wf(l),
        0 <= a < l.len(),
        reaches(l, a, b),
        a != b,
    ensures
        0 <= k < l[a].len(),
        reaches(l, l[a][k], b),
{
    lemma_parent_reaches_elim(l, a, b, l[a].len() as int)
}

proof fn lemma_parent_reaches_elim(l: Seq<Seq<int>>, a: int, b: int, j: int) -> (k: int)
    requires
        lineage_wf(l),
        0 <= a < l.len(),
        0 <= j <= l[a].len(),
        parent_reaches(l, a, b, j),
    ensures
        0 <= k < j,
        reaches(l, l[a][k], b),
    decreases j,
{
    if reaches(l, l[a][j - 1], b) {
        j - 1
    } else {
        lemma_parent_reaches_elim(l, a, b, j - 1)
    }
}

/// A point in the fork/merge history: a lineage record plus a generation
/// counter for cheap linear evolution on that record.
#[derive(Clone, Copy, PartialEq, Eq, Structural)]
pub struct Version {
    node: usize,
    generation: u64,
}

impl Version {
    /// The lineage record this version lives on.
    pub closed spec fn lineage_node(self) -> int {
        self.node as int
    }

    /// The generation counter within the lineage record.
    pub closed spec fn gen(self) -> int {
        self.generation as int
    }

    /// The version names a record of lineage `l`.
    pub open spec fn valid(self, l: Seq<Seq<int>>) -> bool {
        0 <= self.lineage_node() < l.len() && 0 <= self.gen()
    }
}

/// `v` descends from `u`: either both live on the same lineage record and
/// `v`'s generation is at least `u`'s, or `u`'s record is reachable from
/// `v`'s by parent links.
pub open spec fn derivative(l: Seq<Seq<int>>, v: Version, u: Version) -> bool {
    if v.lineage_node() == u.lineage_node() {
        u.gen() <= v.gen()
    } else {
        reaches(l, v.lineage_node(), u.lineage_node())
    }
}

struct LineageRecord {
    parents: Vec<usize>,
    depth: usize,
    cache: Option<Vec<bool>>,
}

/// The arena owning the immutable fork/merge history.
///
/// Its view is the parent table alone: the depth field and the frozen
/// ancestor tables are performance artifacts with no semantic content.
pub struct Lineage {
    records: Vec<LineageRecord>,
}

impl View for Lineage {
    type V = Seq<Seq<int>>;

    closed spec fn view(&self) -> Seq<Seq<int>> {
        self.records@.map_values(|r: LineageRecord| r.parents@.map_values(|p: usize| p as int))
    }
}

/// A frozen ancestor table for record `i` holds exactly the reachability
/// facts of the history it was built against.
spec fn cache_ok(l: Seq<Seq<int>>, i: int, cache: Option<Vec<bool>>) -> bool {
    match cache {
        Option::Some(c) => c@.len() == i + 1 && forall|j: int|
            0 <= j <= i ==> c@[j] == reaches(l, i, j),
        Option::None => true,
    }
}

impl Lineage {
    /// Internal consistency: acyclic parent links, bounded depths, and
    /// truthful frozen ancestor tables.
    pub closed spec fn wf(&self) -> bool {
        &&& lineage_wf(self@)
        &&& self.records@.len() == self@.len()
        &&& forall|i: int|
            0 <= i < self.records@.len() ==> (#[trigger] self.records@[i]).depth <= i
        &&& forall|i: int|
            0 <= i < self.records@.len() ==> cache_ok(self@, i, (#[trigger] self.records@[i]).cache)
    }

    /// Depth of record `i`: zero for a root, one more than the parent for a
    /// fork, one more than the deeper parent for a merge.
    pub closed spec fn depth_of(&self, i: int) -> int {
        self.records@[i].depth as int
    }

    /// An empty history.
    pub fn new() -> (l: Lineage)
        ensures
            l.wf(),
            l@ == Seq::<Seq<int>>::empty(),
    {
        let l = Lineage { records: Vec::new() };
        proof {
            assert(l@ =~= Seq::<Seq<int>>::empty());
        }
        l
    }
}

/// Appending a fresh record with in-range parents, a bounded depth and no
/// frozen table keeps the arena consistent and extends the view by the
/// record's parent list.
proof fn lemma_records_push_wf(l1: Lineage, l2: Lineage, ps: Seq<int>, r: LineageRecord)
    requires
        l1.wf(),
        l2.records@ == l1.records@.push(r),
        r.parents@.map_values(|p: usize| p as int) == ps,
        forall|k: int| 0 <= k < ps.len() ==> 0 <= #[trigger] ps[k] < l1.records@.len(),
        r.depth <= l1.records@.len(),
        r.cache is None,
    ensures
        l2.wf(),
        l2@ == l1@.push(ps),
{
    assert forall|i: int| 0 <= i < l1@.len() implies l2@[i] == l1@[i] by {
        assert(l2.records@[i] == l1.records@[i]);
    }
    assert(l2@[l1@.len() as int] == ps);
    assert(l2@ =~= l1@.push(ps));
    assert(lineage_wf(l2@)) by {
        assert forall|i: int, k: int|
            0 <= i < l2@.len() && 0 <= k < l2@[i].len() implies 0 <= #[trigger] l2@[i][k] < i by {
            if i < l1@.len() {
                assert(l2@[i] == l1@[i]);
            } else {
                assert(l2@[i] == ps);
            }
        }
    }
    assert forall|i: int|
        0 <= i < l2.records@.len() implies cache_ok(
        l2@,
        i,
        (#[trigger] l2.records@[i]).cache,
    ) by {
        if i < l1.records@.len() {
            assert(l2.records@[i] == l1.records@[i]);
            assert(cache_ok(l1@, i, l1.records@[i].cache));
            match l1.records@[i].cache {
                Option::Some(c) => {
                    assert forall|j: int| 0 <= j <= i implies c@[j] == reaches(l2@, i, j) by {
                        lemma_reaches_grow(l1@, l2@, i, j);
                    }
                },
                Option::None => {},
            }
        }
    }
}

/// Reachability only ever descends: every record reachable from `a` was
/// created no later than `a`.
pub proof fn lemma_reaches_bound(l: Seq<Seq<int>>, a: int, b: int)
    requires
        lineage_wf(l),
        0 <= a < l.len(),
        reaches(l, a, b),
    ensures
        0 <= b <= a,
    decreases a,
{
    if a != b {
        let k = lemma_reaches_elim(l, a, b);
        lemma_reaches_bound(l, l[a][k], b);
    }
}

/// Reachability is transitive.
pub proof fn lemma_reaches_trans(l: Seq<Seq<int>>, a: int, b: int, c: int)
    requires
        lineage_wf(l),
        0 <= a < l.len(),
        reaches(l, a, b),
        reaches(l, b, c),
    ensures
        reaches(l, a, c),
    decreases a,
{
    if a != b {
        let k = lemma_reaches_elim(l, a, b);
        lemma_reaches_trans(l, l[a][k], b, c);
        lemma_reaches_step(l, a, c, k);
    }
}

/// Growing the history does not change reachability among the records that
/// already existed.
pub proof fn lemma_reaches_grow(l1: Seq<Seq<int>>, l2: Seq<Seq<int>>, a: int, b: int)
    requires
        lineage_wf(l1),
        lineage_wf(l2),
        l1.len() <= l2.len(),
        forall|i: int| 0 <= i < l1.len() ==> l1[i] == l2[i],
        0 <= a < l1.len(),
    ensures
        reaches(l1, a, b) == reaches(l2, a, b),
    decreases a,
{
    assert(l1[a] == l2[a]);
    if reaches(l1, a, b) && a != b {
        let k = lemma_reaches_elim(l1, a, b);
        lemma_reaches_grow(l1, l2, l1[a][k], b);
        lemma_reaches_step(l2, a, b, k);
    }
    if reaches(l2, a, b) && a != b {
        let k = lemma_reaches_elim(l2, a, b);
        lemma_reaches_grow(l1, l2, l2[a][k], b);
        lemma_reaches_step(l1, a, b, k);
    }
}

/// A marked set that contains `a` and is closed under parent links contains
/// everything `a` reaches.
proof fn lemma_closed_complete(l: Seq<Seq<int>>, m: Seq<bool>, a: int, b: int)
    requires
        lineage_wf(l),
        0 <= a < l.len(),
        a < m.len(),
        m[a],
        forall|j: int, k: int|
            0 <= j < m.len() && m[j] && j < l.len() && 0 <= k < l[j].len() ==> m[#[trigger] l[j][k]],
        reaches(l, a, b),
    ensures
        0 <= b < m.len(),
        m[b],
    decreases a,
{
    if a != b {
        let k = lemma_reaches_elim(l, a, b);
        assert(m[l[a][k]]);
        lemma_closed_complete(l, m, l[a][k], b);
    }
}

impl Lineage {
    /// The full ancestor table of record `s`: one mark per record up to `s`,
    /// set exactly on the records `s` reaches.
    ///
    /// Parent links only ever point at earlier records, so one descending
    /// sweep suffices: a record is an ancestor exactly when it is `s` itself
    /// or a parent of some already-discovered ancestor. When a discovered
    /// record carries a frozen table of its own, that table is taken whole
    /// instead of stepping through the record's parents.
    #[verifier::loop_isolation(false)]
    fn ancestor_marks(&self, s: usize) -> (marks: Vec<bool>)
        requires
            self.wf(),
            s < self@.len(),
        ensures
            marks@.len() == s + 1,
            forall|j: int| 0 <= j <= s ==> marks@[j] == reaches(self@, s as int, j),
    {
        let total = self.records.len();
        proof {
            assert(s < total);
        }
        let mut marks: Vec<bool> = Vec::new();
        let mut t: usize = 0;
        while t < s + 1
            invariant
                t <= s + 1,
                marks@.len() == t,
                forall|x: int| 0 <= x < t ==> !marks@[x],
            decreases s + 1 - t,
        {
            marks.push(false);
            t = t + 1;
        }
        marks[s] = true;
        proof {
            assert(reaches(self@, s as int, s as int));
        }
        let mut t: usize = s + 1;
        while t > 0
            invariant
                t <= s + 1,
                marks@.len() == s + 1,
                marks@[s as int],
                forall|j: int| 0 <= j <= s && (#[trigger] marks@[j]) ==> reaches(self@, s as int, j),
                forall|j: int, k: int|
                    t <= j <= s && marks@[j] && 0 <= k < self@[j].len()
                        ==> marks@[#[trigger] self@[j][k]],
            decreases t,
        {
            t = t - 1;
            if marks[t] {
                let ghost marks0 = marks@;
                match &self.records[t].cache {
                    Option::Some(c) => {
                        proof {
                            assert(cache_ok(self@, t as int, self.records@[t as int].cache));
                        }
                        // the frozen table already holds every ancestor of t
                        let mut w: usize = 0;
                        while w < t + 1
                            invariant
                                c@.len() == t + 1,
                                forall|j: int| 0 <= j <= t ==> (#[trigger] c@[j]) == reaches(self@, t as int, j),
                                w <= t + 1,
                                marks@.len() == s + 1,
                                forall|x: int|
                                    0 <= x <= s ==> (#[trigger] marks@[x]) == (marks0[x] || (x < w
                                        && c@[x])),
                            decreases t + 1 - w,
                        {
                            if c[w] {
                                marks[w] = true;
                            }
                            w = w + 1;
                        }
                        proof {
                            assert forall|j: int| 0 <= j <= s && marks@[j] implies reaches(
                                self@,
                                s as int,
                                j,
                            ) by {
                                if !marks0[j] {
                                    assert(c@[j] == reaches(self@, t as int, j));
                                    lemma_reaches_trans(self@, s as int, t as int, j);
                                }
                            }
                            assert forall|j: int, k: int|
                                t <= j <= s && marks@[j] && 0 <= k
                                    < self@[j].len() implies marks@[#[trigger] self@[j][k]] by {
                                let p = self@[j][k];
                                if marks0[j] && j > t {
                                    assert(marks0[p]);
                                } else {
                                    // j's mark came through t's frozen table, or j is t
                                    // itself; either way t reaches j's parents too
                                    assert(reaches(self@, t as int, j));
                                    assert(reaches(self@, p, p));
                                    lemma_reaches_step(self@, j, p, k);
                                    lemma_reaches_trans(self@, t as int, j, p);
                                    lemma_reaches_bound(self@, t as int, p);
                                    assert(c@[p]);
                                }
                                assert(marks@[p]);
                            }
                        }
                    },
                    Option::None => {
                        let np = self.records[t].parents.len();
                        let mut k: usize = 0;
                        while k < np
                            invariant
                                np == self@[t as int].len(),
                                k <= np,
                                marks@.len() == s + 1,
                                forall|x: int|
                                    0 <= x <= s ==> (#[trigger] marks@[x]) == (marks0[x]
                                        || exists|k2: int|
                                        0 <= k2 < k && self@[t as int][k2] == x),
                            decreases np - k,
                        {
                            let p = self.records[t].parents[k];
                            proof {
                                assert(self@[t as int][k as int] == p as int);
                                assert(0 <= p <= s);
                            }
                            marks[p] = true;
                            k = k + 1;
                        }
                        proof {
                            assert forall|j: int| 0 <= j <= s && marks@[j] implies reaches(
                                self@,
                                s as int,
                                j,
                            ) by {
                                if !marks0[j] {
                                    let k2 = choose|k2: int|
                                        0 <= k2 < np && self@[t as int][k2] == j;
                                    assert(reaches(self@, j, j));
                                    lemma_reaches_step(self@, t as int, j, k2);
                                    lemma_reaches_trans(self@, s as int, t as int, j);
                                }
                            }
                            assert forall|j: int, k2: int|
                                t <= j <= s && marks@[j] && 0 <= k2
                                    < self@[j].len() implies marks@[#[trigger] self@[j][k2]] by {
                                if marks0[j] && j > t {
                                    assert(marks0[self@[j][k2]]);
                                } else {
                                    assert(j == t);
                                    assert(self@[t as int][k2] == self@[j][k2]);
                                }
                            }
                        }
                    },
                }
            }
        }
        proof {
            assert forall|j: int| 0 <= j <= s implies marks@[j] == reaches(
                self@,
                s as int,
                j,
            ) by {
                if reaches(self@, s as int, j) {
                    lemma_closed_complete(self@, marks@, s as int, j);
                }
            }
        }
        marks
    }
}

impl Version {
    /// A fresh root version: a new lineage record with no parents.
    pub fn new(lin: &mut Lineage) -> (v: Version)
        requires
            old(lin).wf(),
        ensures
            final(lin).wf(),
            final(lin)@ == old(lin)@.push(Seq::<int>::empty()),
            v.lineage_node() == old(lin)@.len(),
            v.gen() == 0,
            final(lin).depth_of(v.lineage_node()) == 0,
    {
        let node = lin.records.len();
        let r = LineageRecord { parents: Vec::new(), depth: 0, cache: None };
        proof {
            assert(r.parents@.map_values(|p: usize| p as int) =~= Seq::<int>::empty());
        }
        lin.records.push(r);
        proof {
            lemma_records_push_wf(
                *old(lin),
                *lin,
                Seq::<int>::empty(),
                lin.records@.last(),
            );
        }
        Version { node, generation: 0 }
    }

    /// Linear evolution: the same lineage record, one generation later.
    /// Constant time; the history does not grow.
    pub fn derive(&self) -> (v: Version)
        requires
            self.gen() < u64::MAX,
        ensures
            v.lineage_node() == self.lineage_node(),
            v.gen() == self.gen() + 1,
    {
        Version { node: self.node, generation: self.generation + 1 }
    }

    /// Branch off: a new lineage record whose single parent is this
    /// version's record, one level deeper, at generation zero.
    pub fn fork(&self, lin: &mut Lineage) -> (v: Version)
        requires
            old(lin).wf(),
            self.valid(old(lin)@),
        ensures
            final(lin).wf(),
            final(lin)@ == old(lin)@.push(seq![self.lineage_node()]),
            v.lineage_node() == old(lin)@.len(),
            v.gen() == 0,
            final(lin).depth_of(v.lineage_node()) == old(lin).depth_of(self.lineage_node()) + 1,
    {
        let node = lin.records.len();
        let depth = lin.records[self.node].depth + 1;
        let mut parents: Vec<usize> = Vec::new();
        parents.push(self.node);
        let r = LineageRecord { parents, depth, cache: None };
        proof {
            assert(r.parents@.map_values(|p: usize| p as int) =~= seq![self.lineage_node()]);
        }
        lin.records.push(r);
        proof {
            lemma_records_push_wf(*old(lin), *lin, seq![self.lineage_node()], lin.records@.last());
        }
        Version { node, generation: 0 }
    }

    /// Join two lines of history: a new lineage record descending from both
    /// this version's record and `other`'s, one deeper than the deeper of
    /// the two. Only lineage is recorded; nothing is reconciled. Merging
    /// already-related versions is legal and merely adds a redundant link.
    pub fn merge(&self, lin: &mut Lineage, other: &Version) -> (v: Version)
        requires
            old(lin).wf(),
            self.valid(old(lin)@),
            other.valid(old(lin)@),
        ensures
            final(lin).wf(),
            final(lin)@ == old(lin)@.push(seq![self.lineage_node(), other.lineage_node()]),
            v.lineage_node() == old(lin)@.len(),
            v.gen() == 0,
            final(lin).depth_of(v.lineage_node()) == 1 + (if old(lin).depth_of(
                self.lineage_node(),
            ) >= old(lin).depth_of(other.lineage_node()) {
                old(lin).depth_of(self.lineage_node())
            } else {
                old(lin).depth_of(other.lineage_node())
            }),
    {
        let node = lin.records.len();
        let da = lin.records[self.node].depth;
        let db = lin.records[other.node].depth;
        let depth = 1 + (if da >= db {
            da
        } else {
            db
        });
        let mut parents: Vec<usize> = Vec::new();
        parents.push(self.node);
        parents.push(other.node);
        let r = LineageRecord { parents, depth, cache: None };
        proof {
            assert(r.parents@.map_values(|p: usize| p as int) =~= seq![
                self.lineage_node(),
                other.lineage_node(),
            ]);
        }
        lin.records.push(r);
        proof {
            lemma_records_push_wf(
                *old(lin),
                *lin,
                seq![self.lineage_node(), other.lineage_node()],
                lin.records@.last(),
            );
        }
        Version { node, generation: 0 }
    }

    /// The ancestry test: does this version descend from `other`?
    ///
    /// Total and never failing; unrelated lineages simply answer `false`.
    /// When this version's record carries a frozen ancestor table the answer
    /// is a single lookup; otherwise a reachability walk over parent links
    /// decides it, consulting any frozen tables it meets on the way.
    pub fn is_derivative_of(&self, lin: &Lineage, other: &Version) -> (r: bool)
        requires
            lin.wf(),
            self.valid(lin@),
            other.valid(lin@),
        ensures
            r == derivative(lin@, *self, *other),
    {
        if self.node == other.node {
            other.generation <= self.generation
        } else if other.node > self.node {
            proof {
                if reaches(lin@, self.lineage_node(), other.lineage_node()) {
                    lemma_reaches_bound(lin@, self.lineage_node(), other.lineage_node());
                }
            }
            false
        } else {
            match &lin.records[self.node].cache {
                Option::Some(c) => {
                    proof {
                        assert(cache_ok(lin@, self.lineage_node(), lin.records@[self.lineage_node()].cache));
                    }
                    c[other.node]
                },
                Option::None => {
                    let marks = lin.ancestor_marks(self.node);
                    marks[other.node]
                },
            }
        }
    }

    /// Freeze the full ancestor set of this version's lineage record, so
    /// that later ancestry queries against it are constant-time lookups.
    ///
    /// A pure performance hint: the recorded history is untouched and the
    /// returned version equals this one, so by the contract of
    /// [`Version::is_derivative_of`] no query's answer can change.
    pub fn optimize(&self, lin: &mut Lineage) -> (v: Version)
        requires
            old(lin).wf(),
            self.valid(old(lin)@),
        ensures
            final(lin).wf(),
            final(lin)@ == old(lin)@,
            v == *self,
    {
        let marks = lin.ancestor_marks(self.node);
        lin.records[self.node].cache = Some(marks);
        proof {
            assert forall|i: int| 0 <= i < lin.records@.len() implies lin@[i] == old(lin)@[i] by {
                assert(lin.records@[i].parents == old(lin).records@[i].parents);
            }
            assert(lin@ =~= old(lin)@);
            assert forall|i: int|
                0 <= i < lin.records@.len() implies cache_ok(
                lin@,
                i,
                (#[trigger] lin.records@[i]).cache,
            ) by {
                if i != self.lineage_node() {
                    assert(lin.records@[i] == old(lin).records@[i]);
                    assert(cache_ok(old(lin)@, i, old(lin).records@[i].cache));
                }
            }
        }
        *self
    }
}

/// A consistent arena records a history whose parent links all point
/// backwards.
pub proof fn lemma_wf_lineage(lin: &Lineage)
    requires
        lin.wf(),
    ensures
        lineage_wf(lin@),
{
}

/// Growing the history does not change any derivative relation among
/// versions that already existed.
pub proof fn lemma_derivative_grow(l1: Seq<Seq<int>>, l2: Seq<Seq<int>>, v: Version, u: Version)
    requires
        lineage_wf(l1),
        lineage_wf(l2),
        l1.len() <= l2.len(),
        forall|i: int| 0 <= i < l1.len() ==> l1[i] == l2[i],
        v.valid(l1),
        u.valid(l1),
    ensures
        derivative(l2, v, u) == derivative(l1, v, u),
{
    if v.lineage_node() != u.lineage_node() {
        lemma_reaches_grow(l1, l2, v.lineage_node(), u.lineage_node());
    }
}

/// Reflexivity: every version is a derivative of itself.
pub proof fn lemma_derivative_reflexive(l: Seq<Seq<int>>, v: Version)
    requires
        lineage_wf(l),
        v.valid(l),
    ensures
        derivative(l, v, v),
{
}

/// Derivation points forward: a derived version descends from the version
/// it was derived from, and anything the base descends from.
pub proof fn lemma_derive_derivative(l: Seq<Seq<int>>, a: Version, a2: Version, u: Version)
    requires
        lineage_wf(l),
        a.valid(l),
        a2.lineage_node() == a.lineage_node(),
        a2.gen() >= a.gen(),
        derivative(l, a, u),
    ensures
        derivative(l, a2, u),
{
}

/// Fork asymmetry: after forking `a`, the fork descends from `a`, `a` does
/// not descend from the fork, and no later derive of `a` (which stays on
/// `a`'s lineage record) ever does.
pub proof fn lemma_fork_asymmetry(l0: Seq<Seq<int>>, a: Version, a2: Version, b: Version)
    requires
        lineage_wf(l0),
        a.valid(l0),
        b.lineage_node() == l0.len(),
        b.gen() == 0,
        a2.lineage_node() == a.lineage_node(),
    ensures
        derivative(l0.push(seq![a.lineage_node()]), b, a),
        !derivative(l0.push(seq![a.lineage_node()]), a2, b),
{
    let l = l0.push(seq![a.lineage_node()]);
    let an = a.lineage_node();
    let bn = b.lineage_node();
    assert(lineage_wf(l)) by {
        assert forall|i: int, k: int|
            0 <= i < l.len() && 0 <= k < l[i].len() implies 0 <= #[trigger] l[i][k] < i by {
            if i < l0.len() {
                assert(l[i] == l0[i]);
            } else {
                assert(l[i] == seq![an]);
            }
        }
    }
    assert(l[bn] == seq![an]);
    assert(reaches(l, an, an));
    lemma_reaches_step(l, bn, an, 0);
    if reaches(l, a2.lineage_node(), bn) {
        lemma_reaches_bound(l, a2.lineage_node(), bn);
    }
}

/// Merge reachability: a merge descends from both of its operands.
pub proof fn lemma_merge_reachability(l0: Seq<Seq<int>>, x: Version, y: Version, m: Version)
    requires
        lineage_wf(l0),
        x.valid(l0),
        y.valid(l0),
        m.lineage_node() == l0.len(),
    ensures
        derivative(l0.push(seq![x.lineage_node(), y.lineage_node()]), m, x),
        derivative(l0.push(seq![x.lineage_node(), y.lineage_node()]), m, y),
{
    let l = l0.push(seq![x.lineage_node(), y.lineage_node()]);
    let mn = m.lineage_node();
    assert(lineage_wf(l)) by {
        assert forall|i: int, k: int|
            0 <= i < l.len() && 0 <= k < l[i].len() implies 0 <= #[trigger] l[i][k] < i by {
            if i < l0.len() {
                assert(l[i] == l0[i]);
            } else {
                assert(l[i] == seq![x.lineage_node(), y.lineage_node()]);
            }
        }
    }
    assert(l[mn] == seq![x.lineage_node(), y.lineage_node()]);
    assert(reaches(l, x.lineage_node(), x.lineage_node()));
    assert(reaches(l, y.lineage_node(), y.lineage_node()));
    lemma_reaches_step(l, mn, x.lineage_node(), 0);
    lemma_reaches_step(l, mn, y.lineage_node(), 1);
}

/// Sibling forks are independent: two forks taken from the same version
/// each descend from it, yet neither descends from the other. This is the
/// shape `Node::clone` leaves behind, making the two handles mutually
/// non-derivative.
pub proof fn lemma_sibling_forks_independent(l0: Seq<Seq<int>>, a: Version, b1: Version, b2: Version)
    requires
        lineage_wf(l0),
        a.valid(l0),
        b1.lineage_node() == l0.len(),
        b1.gen() == 0,
        b2.lineage_node() == l0.len() + 1,
        b2.gen() == 0,
    ensures
        derivative(
            l0.push(seq![a.lineage_node()]).push(seq![a.lineage_node()]),
            b1,
            a,
        ),
        derivative(
            l0.push(seq![a.lineage_node()]).push(seq![a.lineage_node()]),
            b2,
            a,
        ),
        !derivative(
            l0.push(seq![a.lineage_node()]).push(seq![a.lineage_node()]),
            b1,
            b2,
        ),
        !derivative(
            l0.push(seq![a.lineage_node()]).push(seq![a.lineage_node()]),
            b2,
            b1,
        ),
{
    let l = l0.push(seq![a.lineage_node()]).push(seq![a.lineage_node()]);
    let an = a.lineage_node();
    let n1 = b1.lineage_node();
    let n2 = b2.lineage_node();
    assert(lineage_wf(l)) by {
        assert forall|i: int, k: int|
            0 <= i < l.len() && 0 <= k < l[i].len() implies 0 <= #[trigger] l[i][k] < i by {
            if i < l0.len() {
                assert(l[i] == l0[i]);
            } else {
                assert(l[i] == seq![an]);
            }
        }
    }
    assert(l[n1] == seq![an]);
    assert(l[n2] == seq![an]);
    assert(reaches(l, an, an));
    lemma_reaches_step(l, n1, an, 0);
    lemma_reaches_step(l, n2, an, 0);
    if reaches(l, n1, n2) {
        lemma_reaches_bound(l, n1, n2);
    }
    if reaches(l, n2, n1) {
        let k = lemma_reaches_elim(l, n2, n1);
        assert(l[n2][k] == an);
        lemma_reaches_bound(l, an, n1);
    }
}

} // verus!