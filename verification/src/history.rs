//! The history of a commit: ancestors, merge bases and commit lists.

use crate::error::Error;
use crate::odb::{ObjectDatabase, Objects};
use crate::oid::Oid;
use vstd::prelude::*;

verus! {

impl Objects {
    /// Whether `p` is a parent of the commit `c`.
    pub open spec fn is_parent(self, p: Oid, c: Oid) -> bool {
        self.has_commit(c) && self.commit(c).parents.contains(p)
    }

    /// Whether `a` is `d` or can be reached from `d` by going from a commit to
    /// one of its parents any number of times.
    pub open spec fn is_ancestor(self, a: Oid, d: Oid) -> bool
        decreases d.index - a.index,
    {
        a == d || (a.index < d.index && exists|k: Oid|
            #![trigger self.is_parent(a, k)]
            a.index < k.index <= d.index && self.is_parent(a, k) && self.is_ancestor(k, d))
    }

    /// Whether `c` is an ancestor of both `a` and `b`.
    pub open spec fn is_common_ancestor(self, c: Oid, a: Oid, b: Oid) -> bool {
        self.is_ancestor(c, a) && self.is_ancestor(c, b)
    }

    /// Whether `m` is the latest common ancestor of `a` and `b`: the one that
    /// was stored last. No other common ancestor descends from it.
    pub open spec fn is_merge_base(self, m: Oid, a: Oid, b: Oid) -> bool {
        &&& self.is_common_ancestor(m, a, b)
        &&& forall|c: Oid| #[trigger] self.is_common_ancestor(c, a, b) ==> c.index <= m.index
    }

    /// The merge base of two commits, if they have a common ancestor.
    pub open spec fn merge_base(self, a: Oid, b: Oid) -> Option<Oid> {
        if exists|m: Oid| self.is_merge_base(m, a, b) {
            Some(choose|m: Oid| self.is_merge_base(m, a, b))
        } else {
            None
        }
    }

    /// Whether the commit has a first parent to go on to.
    pub open spec fn has_first_parent(self, c: Oid) -> bool {
        self.has_commit(c) && self.commit(c).parents.len() > 0 && self.commit(c).parents[0].index
            < c.index
    }

    /// The first parent of a commit.
    pub open spec fn first_parent(self, c: Oid) -> Oid {
        self.commit(c).parents[0]
    }

    /// The commit and the commits before it along first parents, newest
    /// first, down to a commit without parents.
    pub open spec fn lineage(self, from: Oid) -> Seq<Oid>
        decreases from.index,
    {
        if !self.has_commit(from) {
            seq![]
        } else if !self.has_first_parent(from) {
            seq![from]
        } else {
            seq![from] + self.lineage(self.first_parent(from))
        }
    }

    /// The commits from `from` down along first parents, newest first, that
    /// cannot be reached from `until`: the list stops before the first commit
    /// that is an ancestor of `until`.
    pub open spec fn log(self, from: Oid, until: Oid) -> Seq<Oid>
        decreases from.index,
    {
        if !self.has_commit(from) || self.is_ancestor(from, until) {
            seq![]
        } else if !self.has_first_parent(from) {
            seq![from]
        } else {
            seq![from] + self.log(self.first_parent(from), until)
        }
    }

    /// Whether `a` is `from` or is reached from `from` through commits that
    /// were stored at `lo` or later.
    spec fn reached(self, a: Oid, lo: int, from: Oid) -> bool {
        a == from || exists|k: Oid|
            #![trigger self.is_parent(a, k)]
            lo <= k.index <= from.index && self.is_parent(a, k) && self.is_ancestor(k, from)
    }
}

/// An ancestor was stored no later than its descendant.
pub proof fn lemma_ancestor_index(g: Objects, a: Oid, d: Oid)
    requires
        g.is_ancestor(a, d),
    ensures
        a.index <= d.index,
{
}

/// In a well-formed database a parent is an ancestor of its child and was
/// stored before it.
pub proof fn lemma_parent_is_ancestor(g: Objects, p: Oid, c: Oid)
    requires
        g.wf(),
        g.is_parent(p, c),
    ensures
        p.index < c.index,
        g.is_ancestor(p, c),
{
    let k = choose|k: int| 0 <= k < g.commit(c).parents.len() && g.commit(c).parents[k] == p;
    assert(g.commits[c.index as int].parents[k].index < c.index);
    assert(g.is_ancestor(c, c));
}

/// An ancestor of an ancestor is an ancestor.
pub proof fn lemma_ancestor_transitive(g: Objects, a: Oid, b: Oid, c: Oid)
    requires
        g.is_ancestor(a, b),
        g.is_ancestor(b, c),
    ensures
        g.is_ancestor(a, c),
    decreases b.index - a.index,
{
    if a != b {
        let k = choose|k: Oid|
            #![trigger g.is_parent(a, k)]
            a.index < k.index <= b.index && g.is_parent(a, k) && g.is_ancestor(k, b);
        lemma_ancestor_transitive(g, k, b, c);
        lemma_ancestor_index(g, k, c);
        if a == c {
        } else {
            assert(a.index < k.index <= c.index && g.is_parent(a, k) && g.is_ancestor(k, c));
        }
    }
}

/// A proper ancestor of a commit is an ancestor of one of its parents.
pub proof fn lemma_ancestor_through_parent(g: Objects, x: Oid, d: Oid)
    requires
        g.is_ancestor(x, d),
        x != d,
    ensures
        exists|q: Oid| #![trigger g.is_parent(q, d)] g.is_parent(q, d) && g.is_ancestor(x, q),
    decreases d.index - x.index,
{
    let k = choose|k: Oid|
        #![trigger g.is_parent(x, k)]
        x.index < k.index <= d.index && g.is_parent(x, k) && g.is_ancestor(k, d);
    if k == d {
        assert(g.is_parent(x, d) && g.is_ancestor(x, x));
    } else {
        lemma_ancestor_through_parent(g, k, d);
        let q = choose|q: Oid|
            #![trigger g.is_parent(q, d)]
            g.is_parent(q, d) && g.is_ancestor(k, q);
        lemma_ancestor_index(g, k, q);
        assert(x.index < k.index <= q.index && g.is_parent(x, k) && g.is_ancestor(k, q));
        assert(g.is_parent(q, d) && g.is_ancestor(x, q));
    }
}

/// Objects that are added later do not change who the ancestors of a commit
/// are.
pub proof fn lemma_ancestor_stable(g: Objects, later: Objects, a: Oid, d: Oid)
    requires
        g.within(later),
        g.has_commit(d),
    ensures
        later.is_ancestor(a, d) == g.is_ancestor(a, d),
    decreases d.index - a.index,
{
    if a != d && a.index < d.index {
        if g.is_ancestor(a, d) {
            let k = choose|k: Oid|
                #![trigger g.is_parent(a, k)]
                a.index < k.index <= d.index && g.is_parent(a, k) && g.is_ancestor(k, d);
            lemma_ancestor_stable(g, later, k, d);
            assert(later.commit(k) == g.commit(k));
            assert(later.is_parent(a, k));
        }
        if later.is_ancestor(a, d) {
            let k = choose|k: Oid|
                #![trigger later.is_parent(a, k)]
                a.index < k.index <= d.index && later.is_parent(a, k) && later.is_ancestor(k, d);
            lemma_ancestor_stable(g, later, k, d);
            assert(later.commit(k) == g.commit(k));
            assert(g.is_parent(a, k));
        }
    }
}

/// Objects that are added later do not change the commit list of a commit.
pub proof fn lemma_log_stable(g: Objects, later: Objects, from: Oid, until: Oid)
    requires
        g.within(later),
        g.has_commit(from),
        g.has_commit(until),
    ensures
        later.log(from, until) == g.log(from, until),
    decreases from.index,
{
    lemma_ancestor_stable(g, later, from, until);
    assert(later.commit(from) == g.commit(from));
    if !g.is_ancestor(from, until) && g.has_first_parent(from) {
        lemma_log_stable(g, later, g.first_parent(from), until);
    }
}

/// Objects that are added later do not change the lineage of a commit.
pub proof fn lemma_lineage_stable(g: Objects, later: Objects, from: Oid)
    requires
        g.within(later),
        g.has_commit(from),
    ensures
        later.lineage(from) == g.lineage(from),
    decreases from.index,
{
    assert(later.commit(from) == g.commit(from));
    if g.has_first_parent(from) {
        lemma_lineage_stable(g, later, g.first_parent(from));
    }
}

/// The latest common ancestor of two commits among those stored at `n` or
/// before, where there is one.
proof fn lemma_latest_common(g: Objects, a: Oid, b: Oid, n: nat) -> (m: Oid)
    requires
        n <= usize::MAX,
        exists|c: Oid| c.index <= n && g.is_common_ancestor(c, a, b),
    ensures
        m.index <= n,
        g.is_common_ancestor(m, a, b),
        forall|c: Oid|
            c.index <= n && #[trigger] g.is_common_ancestor(c, a, b) ==> c.index <= m.index,
    decreases n,
{
    let here = Oid { index: n as usize };
    if g.is_common_ancestor(here, a, b) {
        here
    } else {
        let c = choose|c: Oid| c.index <= n && g.is_common_ancestor(c, a, b);
        assert(c.index != n) by {
            if c.index == n {
                assert(c == here);
            }
        }
        let m = lemma_latest_common(g, a, b, (n - 1) as nat);
        assert forall|c: Oid|
            c.index <= n && #[trigger] g.is_common_ancestor(c, a, b) implies c.index
            <= m.index by {
            if c.index == n {
                assert(c == here);
            }
        }
        m
    }
}

/// Two commits have a merge base exactly if they have a common ancestor, and
/// no other common ancestor descends from the merge base.
pub proof fn lemma_merge_base(g: Objects, a: Oid, b: Oid)
    ensures
        g.merge_base(a, b) is Some <==> exists|c: Oid| g.is_common_ancestor(c, a, b),
        g.merge_base(a, b) is Some ==> g.is_merge_base(g.merge_base(a, b).unwrap(), a, b),
        forall|c: Oid|
            g.merge_base(a, b) is Some && #[trigger] g.is_common_ancestor(c, a, b) && g.is_ancestor(
                g.merge_base(a, b).unwrap(),
                c,
            ) ==> c == g.merge_base(a, b).unwrap(),
{
    if exists|c: Oid| g.is_common_ancestor(c, a, b) {
        let c = choose|c: Oid| g.is_common_ancestor(c, a, b);
        assert(c.index <= a.index);
        let m = lemma_latest_common(g, a, b, a.index as nat);
        assert(g.is_merge_base(m, a, b)) by {
            assert forall|c: Oid| #[trigger] g.is_common_ancestor(c, a, b) implies c.index
                <= m.index by {
                assert(c.index <= a.index);
            }
        }
    }
    if g.merge_base(a, b) is Some {
        let m = g.merge_base(a, b).unwrap();
        assert(g.is_merge_base(m, a, b));
        assert(g.is_common_ancestor(m, a, b));
        assert forall|c: Oid|
            #[trigger] g.is_common_ancestor(c, a, b) && g.is_ancestor(m, c) implies c == m by {
            assert(c.index <= m.index);
            assert(m.index <= c.index);
        }
    }
}

/// A commit list is the beginning of the lineage: the lineage is the list up
/// to any of its commits, and then the lineage of that commit.
pub proof fn lemma_log_split(g: Objects, from: Oid, until: Oid, k: int)
    requires
        0 <= k < g.log(from, until).len(),
    ensures
        g.lineage(from) == g.log(from, until).take(k) + g.lineage(g.log(from, until)[k]),
        k + 1 < g.log(from, until).len() ==> g.has_first_parent(g.log(from, until)[k])
            && g.first_parent(g.log(from, until)[k]) == g.log(from, until)[k + 1],
    decreases from.index,
{
    let list = g.log(from, until);
    if k == 0 {
        assert(list.take(0) + g.lineage(from) =~= g.lineage(from));
        if list.len() > 1 {
            lemma_log_index(g, g.first_parent(from), until, 0);
        }
    } else {
        let p = g.first_parent(from);
        lemma_log_split(g, p, until, k - 1);
        assert(list.take(k) =~= seq![from] + g.log(p, until).take(k - 1));
        assert(g.lineage(from) =~= list.take(k) + g.lineage(list[k]));
    }
}

/// Every commit of a commit list is an ancestor of the commit that the list
/// starts from, and none is an ancestor of the commit that bounds it.
pub proof fn lemma_log_members(g: Objects, from: Oid, until: Oid, i: int)
    requires
        g.wf(),
        0 <= i < g.log(from, until).len(),
    ensures
        g.has_commit(g.log(from, until)[i]),
        g.is_ancestor(g.log(from, until)[i], from),
        !g.is_ancestor(g.log(from, until)[i], until),
    decreases from.index,
{
    if i > 0 {
        let p = g.first_parent(from);
        assert(g.commit(from).parents[0] == p);
        lemma_parent_is_ancestor(g, p, from);
        lemma_log_members(g, p, until, i - 1);
        lemma_ancestor_transitive(g, g.log(p, until)[i - 1], p, from);
    }
}

/// A commit of a commit list was stored no later than the commit that the
/// list starts from, and every commit but the first was stored before it.
pub proof fn lemma_log_index(g: Objects, from: Oid, until: Oid, i: int)
    requires
        0 <= i < g.log(from, until).len(),
    ensures
        g.log(from, until)[i].index <= from.index,
        i > 0 ==> g.log(from, until)[i].index < from.index,
        i == 0 ==> g.log(from, until)[i] == from,
    decreases from.index,
{
    if i > 0 {
        lemma_log_index(g, g.first_parent(from), until, i - 1);
    }
}

/// In a commit list each commit was stored before the one that precedes it
/// in the list.
pub proof fn lemma_log_descends(g: Objects, from: Oid, until: Oid, i: int, j: int)
    requires
        0 <= i < j < g.log(from, until).len(),
    ensures
        g.log(from, until)[j].index < g.log(from, until)[i].index,
    decreases from.index,
{
    if i > 0 {
        lemma_log_descends(g, g.first_parent(from), until, i - 1, j - 1);
    } else {
        lemma_log_index(g, from, until, j);
    }
}

/// A commit list holds no commit twice.
pub proof fn lemma_log_no_duplicates(g: Objects, from: Oid, until: Oid)
    ensures
        g.log(from, until).no_duplicates(),
{
    assert forall|i: int, j: int|
        0 <= i < g.log(from, until).len() && 0 <= j < g.log(from, until).len() && i
            != j implies g.log(from, until)[i] != g.log(from, until)[j] by {
        if i < j {
            lemma_log_descends(g, from, until, i, j);
        } else {
            lemma_log_descends(g, from, until, j, i);
        }
    }
}

impl ObjectDatabase {
    /// For each commit of the database, whether it is an ancestor of `of`.
    pub fn ancestors(&self, of: Oid) -> (r: Vec<bool>)
        requires
            self.wf(),
            self@.has_commit(of),
        ensures
            r@.len() == self@.commits.len(),
            forall|a: Oid|
                #![trigger self@.is_ancestor(a, of)]
                self@.has_commit(a) ==> r@[a.index as int] == self@.is_ancestor(a, of),
    {
        let n = self.commits.len();
        let mut marks: Vec<bool> = Vec::new();
        let mut f: usize = 0;
        while f < n
            invariant
                f <= n,
                marks@.len() == f,
                forall|k: int| 0 <= k < f ==> marks@[k] == (k == of.index),
            decreases n - f,
        {
            marks.push(f == of.index);
            f += 1;
        }
        let mut i: usize = of.index + 1;
        proof {
            assert forall|a: Oid|
                #![trigger self@.reached(a, i as int, of)]
                a.index < i implies marks@[a.index as int] == self@.reached(a, i as int, of) by {
                assert(marks@[a.index as int] == (a.index == of.index));
            }
        }
        while i > 0
            invariant
                self.wf(),
                self@.has_commit(of),
                n == self@.commits.len(),
                marks@.len() == n,
                i <= of.index + 1,
                forall|a: Oid|
                    #![trigger self@.is_ancestor(a, of)]
                    i <= a.index < n ==> marks@[a.index as int] == self@.is_ancestor(a, of),
                forall|a: Oid|
                    #![trigger self@.reached(a, i as int, of)]
                    a.index < i ==> marks@[a.index as int] == self@.reached(a, i as int, of),
            decreases i,
        {
            i -= 1;
            let ghost here = Oid { index: i };
            let ghost before = marks@;
            proof {
                lemma_reached_step(self@, here, i + 1, of);
                assert(before[i as int] == self@.reached(here, i + 1, of));
            }
            if marks[i] {
                let parents = &self.commits[i].parents;
                let mut k: usize = 0;
                while k < parents.len()
                    invariant
                        self.wf(),
                        i < n,
                        n == self@.commits.len(),
                        marks@.len() == n,
                        parents@ == self@.commit(here).parents,
                        here.index == i,
                        k <= parents@.len(),
                        before.len() == n,
                        forall|j: int| i <= j < n ==> marks@[j] == before[j],
                        forall|a: Oid|
                            #![trigger marked_by(before, parents@, k as int, a)]
                            a.index < i ==> marks@[a.index as int] == marked_by(
                                before,
                                parents@,
                                k as int,
                                a,
                            ),
                    decreases parents@.len() - k,
                {
                    let p = parents[k];
                    assert(self@.commits[i as int].parents[k as int].index < i);
                    let ghost inner = marks@;
                    marks.set(p.index, true);
                    proof {
                        assert forall|a: Oid|
                            #![trigger marked_by(before, parents@, k + 1, a)]
                            a.index < i implies marks@[a.index as int] == marked_by(
                            before,
                            parents@,
                            k + 1,
                            a,
                        ) by {
                            assert(inner[a.index as int] == marked_by(
                                before,
                                parents@,
                                k as int,
                                a,
                            ));
                            if a == p {
                                assert(0 <= k < k + 1 && parents@[k as int] == a);
                            } else {
                                assert(marks@[a.index as int] == inner[a.index as int]);
                                if exists|m: int| 0 <= m < k && parents@[m] == a {
                                    let m = choose|m: int| 0 <= m < k && parents@[m] == a;
                                    assert(0 <= m < k + 1 && parents@[m] == a);
                                }
                                if exists|m: int| 0 <= m < k + 1 && parents@[m] == a {
                                    let m = choose|m: int| 0 <= m < k + 1 && parents@[m] == a;
                                    assert(0 <= m < k && parents@[m] == a);
                                }
                            }
                        }
                    }
                    k += 1;
                }
                proof {
                    assert forall|a: Oid|
                        #![trigger self@.reached(a, i as int, of)]
                        a.index < i implies marks@[a.index as int] == self@.reached(
                        a,
                        i as int,
                        of,
                    ) by {
                        lemma_reached_step(self@, a, i as int, of);
                        assert(before[a.index as int] == self@.reached(a, i + 1, of));
                        assert(marks@[a.index as int] == marked_by(
                            before,
                            parents@,
                            parents@.len() as int,
                            a,
                        ));
                        assert(self@.is_ancestor(here, of));
                        assert(self@.is_parent(a, here) == exists|m: int|
                            0 <= m < parents@.len() && parents@[m] == a);
                    }
                }
            } else {
                proof {
                    assert forall|a: Oid|
                        #![trigger self@.reached(a, i as int, of)]
                        a.index < i implies marks@[a.index as int] == self@.reached(
                        a,
                        i as int,
                        of,
                    ) by {
                        lemma_reached_step(self@, a, i as int, of);
                        assert(before[a.index as int] == self@.reached(a, i + 1, of));
                        assert(!self@.is_ancestor(here, of));
                    }
                }
            }
            proof {
                assert forall|a: Oid|
                    #![trigger self@.is_ancestor(a, of)]
                    i <= a.index < n implies marks@[a.index as int] == self@.is_ancestor(a, of) by {
                    if a.index == i {
                        assert(a == here);
                    } else {
                        assert(marks@[a.index as int] == before[a.index as int]);
                    }
                }
            }
        }
        marks
    }

    /// Whether `a` is an ancestor of `d`.
    pub fn is_ancestor(&self, a: Oid, d: Oid) -> (r: bool)
        requires
            self.wf(),
            self@.has_commit(d),
        ensures
            r == self@.is_ancestor(a, d),
    {
        if a.index > d.index {
            false
        } else {
            let marks = self.ancestors(d);
            assert(marks@[a.index as int] == self@.is_ancestor(a, d));
            marks[a.index]
        }
    }

    /// The merge base of two commits: their latest common ancestor.
    pub fn merge_base(&self, a: Oid, b: Oid) -> (r: Result<Oid, Error>)
        requires
            self.wf(),
        ensures
            match r {
                Ok(m) => self@.has_commit(a) && self@.has_commit(b) && self@.merge_base(a, b)
                    == Some(m) && self@.is_merge_base(m, a, b) && self@.has_commit(m),
                Err(e) => e == Error::NotFound && (!self@.has_commit(a) || !self@.has_commit(b) || (
                self@.merge_base(a, b) is None && forall|c: Oid|
                    !#[trigger] self@.is_common_ancestor(c, a, b))),
            },
    {
        let n = self.commits.len();
        if a.index >= n || b.index >= n {
            return Err(Error::NotFound);
        }
        let of_a = self.ancestors(a);
        let of_b = self.ancestors(b);
        let mut i: usize = n;
        while i > 0
            invariant
                i <= n,
                n == self@.commits.len(),
                of_a@.len() == n,
                of_b@.len() == n,
                self@.has_commit(a),
                self@.has_commit(b),
                forall|c: Oid|
                    #![trigger self@.is_ancestor(c, a)]
                    self@.has_commit(c) ==> of_a@[c.index as int] == self@.is_ancestor(c, a),
                forall|c: Oid|
                    #![trigger self@.is_ancestor(c, b)]
                    self@.has_commit(c) ==> of_b@[c.index as int] == self@.is_ancestor(c, b),
                forall|c: Oid| i <= c.index ==> !self@.is_common_ancestor(c, a, b),
            decreases i,
        {
            i -= 1;
            let here = Oid { index: i };
            if of_a[i] && of_b[i] {
                proof {
                    assert(self@.is_ancestor(here, a) && self@.is_ancestor(here, b));
                    assert forall|c: Oid| #[trigger]
                        self@.is_common_ancestor(c, a, b) implies c.index <= here.index by {
                        if c.index > i {
                            assert(!self@.is_common_ancestor(c, a, b));
                        }
                    }
                    assert(self@.is_merge_base(here, a, b));
                    let m = choose|m: Oid| self@.is_merge_base(m, a, b);
                    assert(self@.is_common_ancestor(here, a, b));
                    assert(self@.is_common_ancestor(m, a, b));
                    assert(m.index == here.index);
                }
                return Ok(here);
            }
            proof {
                assert forall|c: Oid| i <= c.index implies !self@.is_common_ancestor(c, a, b) by {
                    if c.index == i {
                        assert(c == here);
                        assert(of_a@[i as int] == self@.is_ancestor(here, a));
                        assert(of_b@[i as int] == self@.is_ancestor(here, b));
                    }
                }
            }
        }
        proof {
            assert forall|c: Oid| !#[trigger] self@.is_common_ancestor(c, a, b) by {
                assert(0 <= c.index);
            }
            if self@.merge_base(a, b) is Some {
                let m = choose|m: Oid| self@.is_merge_base(m, a, b);
                assert(self@.is_common_ancestor(m, a, b));
            }
        }
        Err(Error::NotFound)
    }

    /// The commits from `from` down along first parents, newest first, that
    /// are not reachable from `until`.
    pub fn log(&self, from: Oid, until: Oid) -> (r: Result<Vec<Oid>, Error>)
        requires
            self.wf(),
        ensures
            match r {
                Ok(list) => self@.has_commit(from) && self@.has_commit(until) && list@
                    == self@.log(from, until),
                Err(e) => e == Error::NotFound && !(self@.has_commit(from) && self@.has_commit(
                    until,
                )),
            },
    {
        let n = self.commits.len();
        if from.index >= n || until.index >= n {
            return Err(Error::NotFound);
        }
        let marks = self.ancestors(until);
        let mut out: Vec<Oid> = Vec::new();
        let mut cur = from;
        let mut open = true;
        while open
            invariant
                self.wf(),
                n == self@.commits.len(),
                marks@.len() == n,
                self@.has_commit(cur),
                forall|c: Oid|
                    #![trigger self@.is_ancestor(c, until)]
                    self@.has_commit(c) ==> marks@[c.index as int] == self@.is_ancestor(c, until),
                self@.log(from, until) == out@ + if open {
                    self@.log(cur, until)
                } else {
                    Seq::<Oid>::empty()
                },
            decreases
                    cur.index + if open {
                        1int
                    } else {
                        0int
                    },
        {
            assert(marks@[cur.index as int] == self@.is_ancestor(cur, until));
            if marks[cur.index] {
                open = false;
                assert(out@ + Seq::<Oid>::empty() =~= out@);
                assert(out@ + self@.log(cur, until) =~= out@);
            } else {
                let ghost before = out@;
                out.push(cur);
                let c = &self.commits[cur.index];
                if c.parents.len() == 0 {
                    open = false;
                    assert(before + self@.log(cur, until) =~= out@ + Seq::<Oid>::empty());
                } else {
                    let p = c.parents[0];
                    assert(self@.commits[cur.index as int].parents[0].index < cur.index);
                    assert(self@.has_first_parent(cur));
                    assert(before + self@.log(cur, until) =~= out@ + self@.log(p, until));
                    cur = p;
                }
            }
        }
        assert(out@ + Seq::<Oid>::empty() =~= out@);
        Ok(out)
    }
}

/// Whether a commit was marked before, or is one of the first `k` parents.
spec fn marked_by(before: Seq<bool>, parents: Seq<Oid>, k: int, a: Oid) -> bool {
    before[a.index as int] || exists|m: int| 0 <= m < k && parents[m] == a
}

proof fn lemma_reached_step(g: Objects, a: Oid, lo: int, from: Oid)
    requires
        g.wf(),
        0 <= lo <= from.index + 1,
        lo <= usize::MAX,
        a.index < lo,
    ensures
        g.reached(a, lo, from) == (g.reached(a, lo + 1, from) || (g.is_parent(a, Oid {
            index: lo as usize,
        }) && g.is_ancestor(Oid { index: lo as usize }, from))),
        lo == a.index + 1 ==> g.reached(a, lo, from) == g.is_ancestor(a, from),
{
    let here = Oid { index: lo as usize };
    if g.reached(a, lo + 1, from) && a != from {
        let k = choose|k: Oid|
            #![trigger g.is_parent(a, k)]
            lo + 1 <= k.index <= from.index && g.is_parent(a, k) && g.is_ancestor(k, from);
        assert(lo <= k.index <= from.index && g.is_parent(a, k) && g.is_ancestor(k, from));
    }
    if g.is_parent(a, here) && g.is_ancestor(here, from) {
        assert(lo <= here.index <= from.index && g.is_parent(a, here) && g.is_ancestor(here, from));
    }
    if g.reached(a, lo, from) && a != from {
        let k = choose|k: Oid|
            #![trigger g.is_parent(a, k)]
            lo <= k.index <= from.index && g.is_parent(a, k) && g.is_ancestor(k, from);
        if k.index == lo {
            assert(k == here);
        } else {
            assert(lo + 1 <= k.index <= from.index && g.is_parent(a, k) && g.is_ancestor(k, from));
        }
    }
}

} // verus!
