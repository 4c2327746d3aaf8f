//! The cherry-rebase engine: replaying commits onto a new parent.

use crate::bytes::{bytes_to_vec, decimal_bytes, decimal_digits, lemma_decimal_round_trip};
use crate::commit::{
    change_id_field, change_id_of, conflicted_field, conflicted_files_of, copy_headers,
    header_field, headers_view, is_conflicted_of, lemma_with_field, set_header, with_field,
    Commit, CommitView, HeaderView,
};
use crate::history::{
    lemma_ancestor_index, lemma_ancestor_stable, lemma_ancestor_through_parent,
    lemma_lineage_stable, lemma_log_stable,
};
use crate::error::Error;
use crate::merge::{conflicted_paths, lemma_merge_in_place, merge_trees, merged_files};
use crate::odb::{
    lemma_with_commit, lemma_with_tree, lemma_with_within, lemma_within_transitive,
    ObjectDatabase, Objects,
};
use crate::oid::Oid;
use crate::position::lemma_position_is;
use crate::tree::Tree;
use vstd::prelude::*;
use vstd::string::is_ascii_spec_bytes;

verus! {

impl Objects {
    /// The files that a commit changed: those of its first parent, or none
    /// where it has no parent.
    pub open spec fn replay_base(self, c: Oid) -> Map<Seq<u8>, Seq<u8>> {
        if self.commit(c).parents.len() == 0 {
            Map::empty()
        } else {
            self.files_of_commit(self.commit(c).parents[0])
        }
    }

    /// The files of the commit `c` replayed onto `onto`: the change that `c`
    /// made to its parent, merged into the files of `onto`.
    pub open spec fn replayed_files(self, onto: Oid, c: Oid) -> Map<Seq<u8>, Seq<u8>> {
        merged_files(self.replay_base(c), self.files_of_commit(onto), self.files_of_commit(c))
    }

    /// The paths on which replaying `c` onto `onto` conflicts.
    pub open spec fn replay_conflicts(self, onto: Oid, c: Oid) -> Set<Seq<u8>> {
        conflicted_paths(self.replay_base(c), self.files_of_commit(onto), self.files_of_commit(c))
    }

    /// The header fields of the commit `c` replayed onto `onto`: those of `c`,
    /// and where the replay conflicts the conflict marker with the number of
    /// conflicted paths.
    pub open spec fn replayed_headers(self, onto: Oid, c: Oid) -> Seq<HeaderView> {
        let n = self.replay_conflicts(onto, c).len();
        if n > 0 {
            with_field(self.commit(c).headers, conflicted_field(), decimal_digits(n))
        } else {
            self.commit(c).headers
        }
    }

    /// The database after the commit `c` was replayed onto `onto`, and the
    /// commit that the replay made. It has `onto` as its only parent, the
    /// message of `c`, and the files and header fields described above.
    pub open spec fn picked(self, onto: Oid, c: Oid) -> (Objects, Oid) {
        let (stored, tree) = self.with_tree(self.replayed_files(onto, c));
        stored.with_commit(
            CommitView {
                parents: seq![onto],
                tree,
                message: self.commit(c).message,
                headers: self.replayed_headers(onto, c),
            },
        )
    }

    /// The database after the commits `ids` were replayed in their order,
    /// each onto the one before it and the first onto `base`, and the last
    /// commit that was made: the new head. With no commits to replay the head
    /// is `base` itself.
    pub open spec fn rebased(self, base: Oid, ids: Seq<Oid>) -> (Objects, Oid)
        decreases ids.len(),
    {
        if ids.len() == 0 {
            (self, base)
        } else {
            let (done, head) = self.rebased(base, ids.drop_last());
            done.picked(head, ids.last())
        }
    }
}

/// Replaying a commit keeps every earlier object in place.
pub proof fn lemma_picked_within(g: Objects, onto: Oid, c: Oid)
    ensures
        g.within(g.picked(onto, c).0),
{
    let files = g.replayed_files(onto, c);
    let (stored, tree) = g.with_tree(files);
    let commit = CommitView {
        parents: seq![onto],
        tree,
        message: g.commit(c).message,
        headers: g.replayed_headers(onto, c),
    };
    lemma_with_within(g, files, commit);
    lemma_with_within(stored, files, commit);
}

/// What replaying a commit makes: a commit of the database that has the new
/// parent as its only parent, the message of the replayed commit, the merged
/// files, and the header fields of the replayed commit with the outcome of
/// the merge.
pub proof fn lemma_picked(g: Objects, onto: Oid, c: Oid)
    requires
        g.wf(),
        g.has_commit(onto),
        g.has_commit(c),
        g.picked(onto, c).0.fits(),
    ensures
        g.picked(onto, c).0.wf(),
        g.within(g.picked(onto, c).0),
        g.picked(onto, c).0.has_commit(g.picked(onto, c).1),
        onto.index < g.picked(onto, c).1.index,
        g.picked(onto, c).0.commit(g.picked(onto, c).1).parents == seq![onto],
        g.picked(onto, c).0.commit(g.picked(onto, c).1).message == g.commit(c).message,
        g.picked(onto, c).0.commit(g.picked(onto, c).1).headers == g.replayed_headers(onto, c),
        g.picked(onto, c).0.files_of_commit(g.picked(onto, c).1) == g.replayed_files(onto, c),
{
    let files = g.replayed_files(onto, c);
    let (stored, tree) = g.with_tree(files);
    let commit = CommitView {
        parents: seq![onto],
        tree,
        message: g.commit(c).message,
        headers: g.replayed_headers(onto, c),
    };
    lemma_with_within(g, files, commit);
    lemma_with_within(stored, files, commit);
    lemma_with_tree(g, files);
    assert(stored.admits(commit));
    lemma_with_commit(stored, commit);
    let (after, id) = stored.with_commit(commit);
    assert(after.commits[id.index as int].parents[0].index < id.index);
}

/// Replaying commits keeps every earlier object in place.
pub proof fn lemma_rebased_within(g: Objects, base: Oid, ids: Seq<Oid>)
    ensures
        g.within(g.rebased(base, ids).0),
    decreases ids.len(),
{
    if ids.len() > 0 {
        let (done, head) = g.rebased(base, ids.drop_last());
        lemma_rebased_within(g, base, ids.drop_last());
        lemma_picked_within(done, head, ids.last());
    }
}

/// The field that marks a conflict is not the field that holds the change
/// identity.
pub proof fn lemma_marker_is_not_change_id()
    ensures
        conflicted_field() != change_id_field(),
{
    reveal_strlit("conflicted");
    reveal_strlit("change-id");
    is_ascii_spec_bytes("conflicted");
    is_ascii_spec_bytes("change-id");
    assert(conflicted_field().len() == 10);
    assert(change_id_field().len() == 9);
}

/// The commits that a replay makes, newest first: one for each of `ids`, the
/// last of them first.
pub open spec fn replayed_ids(g: Objects, base: Oid, ids: Seq<Oid>) -> Seq<Oid>
    decreases ids.len(),
{
    if ids.len() == 0 {
        seq![]
    } else {
        seq![g.rebased(base, ids).1] + replayed_ids(g, base, ids.drop_last())
    }
}

/// A commit says what another said: it has the same message and the same
/// change identity.
pub open spec fn restates(a: CommitView, b: CommitView) -> bool {
    a.message == b.message && change_id_of(a) == change_id_of(b)
}

/// A replay touches no header field but the conflict marker: the author, the
/// signature, the change identity and every other field of the replayed
/// commit are those of the commit that is made.
pub proof fn lemma_picked_keeps_fields(g: Objects, onto: Oid, c: Oid, field: Seq<u8>)
    requires
        g.wf(),
        g.has_commit(onto),
        g.has_commit(c),
        g.picked(onto, c).0.fits(),
        field != conflicted_field(),
    ensures
        header_field(g.picked(onto, c).0.commit(g.picked(onto, c).1).headers, field)
            == header_field(g.commit(c).headers, field),
{
    lemma_picked(g, onto, c);
    let n = g.replay_conflicts(onto, c).len();
    lemma_with_field(g.commit(c).headers, conflicted_field(), decimal_digits(n), field);
}

/// Replaying a commit keeps its message and its change identity.
pub proof fn lemma_picked_restates(g: Objects, onto: Oid, c: Oid)
    requires
        g.wf(),
        g.has_commit(onto),
        g.has_commit(c),
        g.picked(onto, c).0.fits(),
    ensures
        restates(g.picked(onto, c).0.commit(g.picked(onto, c).1), g.commit(c)),
{
    lemma_picked(g, onto, c);
    lemma_marker_is_not_change_id();
    lemma_picked_keeps_fields(g, onto, c, change_id_field());
}

/// A replay that conflicts makes a commit that says so: it carries the
/// conflict marker, and the marker lists the number of conflicted paths. A
/// replay that does not conflict leaves the marker as the replayed commit had
/// it.
pub proof fn lemma_picked_conflicts(g: Objects, onto: Oid, c: Oid)
    requires
        g.wf(),
        g.has_commit(onto),
        g.has_commit(c),
        g.picked(onto, c).0.fits(),
    ensures
        ({
            let made = g.picked(onto, c).0.commit(g.picked(onto, c).1);
            let n = g.replay_conflicts(onto, c).len();
            &&& n > 0 ==> is_conflicted_of(made) && conflicted_files_of(made) == if n
                <= u32::MAX {
                Some(n as u32)
            } else {
                None::<u32>
            }
            &&& n == 0 ==> is_conflicted_of(made) == is_conflicted_of(g.commit(c))
                && conflicted_files_of(made) == conflicted_files_of(g.commit(c))
        }),
{
    lemma_picked(g, onto, c);
    let n = g.replay_conflicts(onto, c).len();
    lemma_with_field(
        g.commit(c).headers,
        conflicted_field(),
        decimal_digits(n),
        conflicted_field(),
    );
    lemma_decimal_round_trip(n);
}

/// The commit that a replay makes for the commit at a position is the head
/// of the replay of the commits up to that position.
pub proof fn lemma_replayed_id_is_head(g: Objects, base: Oid, ids: Seq<Oid>, i: int)
    requires
        0 <= i < ids.len(),
    ensures
        replayed_ids(g, base, ids).len() == ids.len(),
        replayed_ids(g, base, ids)[i] == g.rebased(base, ids.take(ids.len() - i)).1,
    decreases ids.len(),
{
    lemma_replayed_len(g, base, ids);
    if i == 0 {
        assert(ids.take(ids.len() as int) =~= ids);
    } else {
        lemma_replayed_id_is_head(g, base, ids.drop_last(), i - 1);
        assert(ids.drop_last().take(ids.len() - i) =~= ids.take(ids.len() - i));
    }
}

/// A replay makes one commit for each commit that it replays.
pub proof fn lemma_replayed_len(g: Objects, base: Oid, ids: Seq<Oid>)
    ensures
        replayed_ids(g, base, ids).len() == ids.len(),
    decreases ids.len(),
{
    if ids.len() > 0 {
        lemma_replayed_len(g, base, ids.drop_last());
    }
}

/// Replaying a chain of commits onto the base that it stands on makes the
/// same commits again and stores nothing: a commit keeps its identity as long
/// as its content, its parent included, stays what it was.
pub proof fn lemma_rebased_in_place(g: Objects, base: Oid, ids: Seq<Oid>)
    requires
        g.wf(),
        g.has_commit(base),
        forall|k: int| 0 <= k < ids.len() ==> g.has_commit(#[trigger] ids[k]),
        forall|k: int|
            0 <= k < ids.len() ==> g.commit(#[trigger] ids[k]).parents == seq![
                if k == 0 {
                    base
                } else {
                    ids[k - 1]
                },
            ],
    ensures
        g.rebased(base, ids) == (
            g,
            if ids.len() == 0 {
                base
            } else {
                ids.last()
            },
        ),
    decreases ids.len(),
{
    if ids.len() > 0 {
        let rest = ids.drop_last();
        assert forall|k: int| 0 <= k < rest.len() implies g.has_commit(#[trigger] rest[k])
            && g.commit(rest[k]).parents == seq![
            if k == 0 {
                base
            } else {
                rest[k - 1]
            },
        ] by {
            assert(rest[k] == ids[k]);
            if k > 0 {
                assert(rest[k - 1] == ids[k - 1]);
            }
        }
        lemma_rebased_in_place(g, base, rest);
        let c = ids[ids.len() - 1];
        assert(g.commit(c).parents[0] == if ids.len() == 1 {
            base
        } else {
            ids[ids.len() - 2]
        });
        lemma_picked_in_place(g, c);
    }
}

/// What a replay of several commits leaves behind: a well-formed database
/// that still holds every earlier object, and a head in it that was stored
/// after the base unless there was nothing to replay.
pub proof fn lemma_rebased(g: Objects, base: Oid, ids: Seq<Oid>)
    requires
        g.wf(),
        g.has_commit(base),
        forall|k: int| 0 <= k < ids.len() ==> g.has_commit(#[trigger] ids[k]),
        g.rebased(base, ids).0.fits(),
    ensures
        g.rebased(base, ids).0.wf(),
        g.within(g.rebased(base, ids).0),
        g.rebased(base, ids).0.has_commit(g.rebased(base, ids).1),
        base.index <= g.rebased(base, ids).1.index,
        ids.len() > 0 ==> base.index < g.rebased(base, ids).1.index,
        ids.len() == 0 ==> g.rebased(base, ids) == (g, base),
        replayed_ids(g, base, ids).len() == ids.len(),
    decreases ids.len(),
{
    if ids.len() > 0 {
        let (done, head) = g.rebased(base, ids.drop_last());
        lemma_picked_within(done, head, ids.last());
        assert forall|k: int| 0 <= k < ids.drop_last().len() implies g.has_commit(
            #[trigger] ids.drop_last()[k],
        ) by {
            assert(ids.drop_last()[k] == ids[k]);
        }
        lemma_rebased(g, base, ids.drop_last());
        assert(g.has_commit(ids[ids.len() - 1]));
        lemma_picked(done, head, ids.last());
    }
}

/// Each commit that a replay makes restates the commit that it replays, and
/// was stored after the base.
pub proof fn lemma_replayed_ids(g: Objects, base: Oid, ids: Seq<Oid>, i: int)
    requires
        g.wf(),
        g.has_commit(base),
        forall|k: int| 0 <= k < ids.len() ==> g.has_commit(#[trigger] ids[k]),
        g.rebased(base, ids).0.fits(),
        0 <= i < ids.len(),
    ensures
        replayed_ids(g, base, ids).len() == ids.len(),
        g.rebased(base, ids).0.has_commit(replayed_ids(g, base, ids)[i]),
        base.index < replayed_ids(g, base, ids)[i].index,
        restates(
            g.rebased(base, ids).0.commit(replayed_ids(g, base, ids)[i]),
            g.commit(ids[ids.len() - 1 - i]),
        ),
        g.rebased(base, ids).0.commit(replayed_ids(g, base, ids)[i]).parents == seq![
            if i + 1 < ids.len() {
                replayed_ids(g, base, ids)[i + 1]
            } else {
                base
            },
        ],
    decreases ids.len(),
{
    let (done, head) = g.rebased(base, ids.drop_last());
    let (after, new) = g.rebased(base, ids);
    lemma_picked_within(done, head, ids.last());
    assert forall|k: int| 0 <= k < ids.drop_last().len() implies g.has_commit(
        #[trigger] ids.drop_last()[k],
    ) by {
        assert(ids.drop_last()[k] == ids[k]);
    }
    lemma_rebased(g, base, ids.drop_last());
    lemma_rebased(g, base, ids);
    assert(g.has_commit(ids[ids.len() - 1]));
    lemma_picked(done, head, ids.last());
    if i == 0 {
        lemma_picked_restates(done, head, ids.last());
        assert(done.commit(ids.last()) == g.commit(ids.last()));
        if ids.len() > 1 {
            assert(replayed_ids(g, base, ids)[1] == replayed_ids(g, base, ids.drop_last())[0]);
            assert(replayed_ids(g, base, ids.drop_last())[0] == head);
        }
    } else {
        lemma_replayed_ids(g, base, ids.drop_last(), i - 1);
        let r = replayed_ids(g, base, ids.drop_last())[i - 1];
        assert(replayed_ids(g, base, ids)[i] == r);
        assert(after.commit(r) == done.commit(r));
        assert(ids.drop_last()[ids.len() - 1 - i] == ids[ids.len() - 1 - i]);
    }
}

/// The commit list of the new head: the commits that the replay made, newest
/// first, and then the commit list of the base. This holds for every bound
/// that was stored no later than the base.
pub proof fn lemma_rebased_log(g: Objects, base: Oid, ids: Seq<Oid>, until: Oid)
    requires
        g.wf(),
        g.has_commit(base),
        forall|k: int| 0 <= k < ids.len() ==> g.has_commit(#[trigger] ids[k]),
        g.rebased(base, ids).0.fits(),
        until.index <= base.index,
    ensures
        g.rebased(base, ids).0.log(g.rebased(base, ids).1, until) == replayed_ids(g, base, ids)
            + g.log(base, until),
    decreases ids.len(),
{
    let (after, new) = g.rebased(base, ids);
    if ids.len() == 0 {
        assert(replayed_ids(g, base, ids) + g.log(base, until) =~= g.log(base, until));
    } else {
        let (done, head) = g.rebased(base, ids.drop_last());
        lemma_picked_within(done, head, ids.last());
        assert forall|k: int| 0 <= k < ids.drop_last().len() implies g.has_commit(
            #[trigger] ids.drop_last()[k],
        ) by {
            assert(ids.drop_last()[k] == ids[k]);
        }
        lemma_rebased(g, base, ids.drop_last());
        assert(g.has_commit(ids[ids.len() - 1]));
        lemma_picked(done, head, ids.last());
        lemma_rebased_log(g, base, ids.drop_last(), until);
        assert(after.commit(new).parents[0] == head);
        assert(after.has_first_parent(new));
        assert(!after.is_ancestor(new, until)) by {
            if after.is_ancestor(new, until) {
                lemma_ancestor_index(after, new, until);
            }
        }
        lemma_log_stable(done, after, head, until);
        assert(after.log(new, until) =~= seq![new] + done.log(head, until));
        assert(seq![new] + (replayed_ids(g, base, ids.drop_last()) + g.log(base, until))
            =~= replayed_ids(g, base, ids) + g.log(base, until));
    }
}

/// The lineage of the new head: the commits that the replay made, newest
/// first, and then the lineage of the base.
pub proof fn lemma_rebased_lineage(g: Objects, base: Oid, ids: Seq<Oid>)
    requires
        g.wf(),
        g.has_commit(base),
        forall|k: int| 0 <= k < ids.len() ==> g.has_commit(#[trigger] ids[k]),
        g.rebased(base, ids).0.fits(),
    ensures
        g.rebased(base, ids).0.lineage(g.rebased(base, ids).1) == replayed_ids(g, base, ids)
            + g.lineage(base),
    decreases ids.len(),
{
    let (after, new) = g.rebased(base, ids);
    if ids.len() == 0 {
        assert(replayed_ids(g, base, ids) + g.lineage(base) =~= g.lineage(base));
    } else {
        let (done, head) = g.rebased(base, ids.drop_last());
        lemma_picked_within(done, head, ids.last());
        assert forall|k: int| 0 <= k < ids.drop_last().len() implies g.has_commit(
            #[trigger] ids.drop_last()[k],
        ) by {
            assert(ids.drop_last()[k] == ids[k]);
        }
        lemma_rebased(g, base, ids.drop_last());
        assert(g.has_commit(ids[ids.len() - 1]));
        lemma_picked(done, head, ids.last());
        lemma_rebased_lineage(g, base, ids.drop_last());
        assert(after.commit(new).parents[0] == head);
        assert(after.has_first_parent(new));
        lemma_lineage_stable(done, after, head);
        assert(after.lineage(new) =~= seq![new] + done.lineage(head));
        assert(seq![new] + (replayed_ids(g, base, ids.drop_last()) + g.lineage(base))
            =~= replayed_ids(g, base, ids) + g.lineage(base));
    }
}

/// The history of the new head holds the commits that the replay made and the
/// history of the base, and nothing else.
pub proof fn lemma_rebased_ancestors(g: Objects, base: Oid, ids: Seq<Oid>, x: Oid)
    requires
        g.wf(),
        g.has_commit(base),
        forall|k: int| 0 <= k < ids.len() ==> g.has_commit(#[trigger] ids[k]),
        g.rebased(base, ids).0.fits(),
        g.rebased(base, ids).0.is_ancestor(x, g.rebased(base, ids).1),
    ensures
        replayed_ids(g, base, ids).contains(x) || g.is_ancestor(x, base),
    decreases ids.len(),
{
    let (after, new) = g.rebased(base, ids);
    if ids.len() > 0 {
        let (done, head) = g.rebased(base, ids.drop_last());
        lemma_picked_within(done, head, ids.last());
        assert forall|k: int| 0 <= k < ids.drop_last().len() implies g.has_commit(
            #[trigger] ids.drop_last()[k],
        ) by {
            assert(ids.drop_last()[k] == ids[k]);
        }
        lemma_rebased(g, base, ids.drop_last());
        assert(g.has_commit(ids[ids.len() - 1]));
        lemma_picked(done, head, ids.last());
        let made = replayed_ids(g, base, ids);
        if x == new {
            assert(made[0] == x);
        } else {
            lemma_ancestor_through_parent(after, x, new);
            let q = choose|q: Oid|
                #![trigger after.is_parent(q, new)]
                after.is_parent(q, new) && after.is_ancestor(x, q);
            assert(q == head) by {
                let at = choose|at: int|
                    0 <= at < after.commit(new).parents.len() && after.commit(new).parents[at]
                        == q;
                assert(after.commit(new).parents[at] == seq![head][at]);
            }
            lemma_ancestor_stable(done, after, x, head);
            lemma_rebased_ancestors(g, base, ids.drop_last(), x);
            if replayed_ids(g, base, ids.drop_last()).contains(x) {
                let i = choose|i: int|
                    0 <= i < replayed_ids(g, base, ids.drop_last()).len() && replayed_ids(
                        g,
                        base,
                        ids.drop_last(),
                    )[i] == x;
                assert(made[i + 1] == x);
            }
        }
    }
}

/// What a replay of the first commits stored is still there after the replay
/// of all of them.
pub proof fn lemma_rebased_prefix_within(g: Objects, base: Oid, ids: Seq<Oid>, n: int)
    requires
        0 <= n <= ids.len(),
    ensures
        g.rebased(base, ids.take(n)).0.within(g.rebased(base, ids).0),
    decreases ids.len() - n,
{
    if n == ids.len() {
        assert(ids.take(n) =~= ids);
    } else {
        lemma_rebased_prefix_within(g, base, ids, n + 1);
        let longer = ids.take(n + 1);
        assert(longer.drop_last() =~= ids.take(n));
        let (done, head) = g.rebased(base, ids.take(n));
        lemma_picked_within(done, head, longer.last());
        lemma_within_transitive(done, g.rebased(base, longer).0, g.rebased(base, ids).0);
    }
}

/// Replaying a chain of commits onto another base than the one it stood on
/// rewrites every commit of the chain: none keeps its identity.
pub proof fn lemma_replayed_differs(g: Objects, base: Oid, ids: Seq<Oid>, old_base: Oid, j: int)
    requires
        g.wf(),
        g.has_commit(base),
        forall|k: int| 0 <= k < ids.len() ==> g.has_commit(#[trigger] ids[k]),
        g.rebased(base, ids).0.fits(),
        forall|k: int|
            0 <= k < ids.len() ==> g.commit(#[trigger] ids[k]).parents.len() > 0 && g.commit(
                ids[k],
            ).parents[0] == if k == 0 {
                old_base
            } else {
                ids[k - 1]
            },
        base != old_base,
        0 <= j < ids.len(),
    ensures
        replayed_ids(g, base, ids).len() == ids.len(),
        replayed_ids(g, base, ids)[ids.len() - 1 - j] != ids[j],
    decreases j,
{
    let after = g.rebased(base, ids).0;
    let i = ids.len() - 1 - j;
    lemma_replayed_ids(g, base, ids, i);
    lemma_rebased(g, base, ids);
    let r = replayed_ids(g, base, ids)[i];
    if r == ids[j] {
        assert(after.commit(ids[j]) == g.commit(ids[j]));
        assert(after.commit(r).parents[0] == g.commit(ids[j]).parents[0]);
        if j > 0 {
            lemma_replayed_differs(g, base, ids, old_base, j - 1);
        }
    }
}

/// Replaying a commit onto its own only parent makes that same commit again
/// and stores nothing.
pub proof fn lemma_picked_in_place(g: Objects, c: Oid)
    requires
        g.wf(),
        g.has_commit(c),
        g.commit(c).parents.len() == 1,
    ensures
        g.picked(g.commit(c).parents[0], c) == (g, c),
{
    let onto = g.commit(c).parents[0];
    assert(g.commits[c.index as int].parents[0].index < c.index);
    let base = g.replay_base(c);
    let theirs = g.files_of_commit(c);
    assert(g.has_tree(g.commits[c.index as int].tree));
    lemma_merge_in_place(base, theirs);
    lemma_position_is(g.trees, theirs, g.commit(c).tree.index as int);
    let content = CommitView {
        parents: seq![onto],
        tree: g.commit(c).tree,
        message: g.commit(c).message,
        headers: g.replayed_headers(onto, c),
    };
    assert(g.commit(c).parents =~= seq![onto]);
    assert(content == g.commit(c));
    lemma_position_is(g.commits, content, c.index as int);
}

/// Replays the commit `id` onto `onto` and returns the commit that this
/// makes.
///
/// The change that `id` made to its first parent is merged into the files of
/// `onto`. A conflict does not fail the replay: the conflicted paths get
/// marked text, and the new commit carries the conflict marker with their
/// number.
pub fn cherry_pick(db: &mut ObjectDatabase, onto: Oid, id: Oid) -> (r: Result<Oid, Error>)
    requires
        old(db).wf(),
    ensures
        final(db).wf(),
        old(db)@.within(final(db)@),
        match r {
            Ok(new) => {
                &&& old(db)@.has_commit(onto)
                &&& old(db)@.has_commit(id)
                &&& (final(db)@, new) == old(db)@.picked(onto, id)
                &&& final(db)@.has_commit(new)
                &&& final(db)@.commit(new).parents == seq![onto]
                &&& final(db)@.commit(new).message == old(db)@.commit(id).message
                &&& final(db)@.commit(new).headers == old(db)@.replayed_headers(onto, id)
                &&& final(db)@.files_of_commit(new) == old(db)@.replayed_files(onto, id)
            },
            Err(e) => e == Error::NotFound && !(old(db)@.has_commit(onto) && old(db)@.has_commit(
                id,
            )) && *final(db) == *old(db),
        },
{
    if onto.index >= db.commits.len() || id.index >= db.commits.len() {
        return Err(Error::NotFound);
    }
    let ghost g = db@;
    let target = &db.commits[onto.index];
    let source = &db.commits[id.index];
    assert(g.commits[onto.index as int] == target@);
    assert(g.commits[id.index as int] == source@);
    assert(g.has_tree(g.commits[onto.index as int].tree));
    assert(g.has_tree(g.commits[id.index as int].tree));
    let ours = &db.trees[target.tree.index];
    let theirs = &db.trees[source.tree.index];
    let empty = Tree::new();
    let merged = if source.parents.len() == 0 {
        merge_trees(&empty, ours, theirs)
    } else {
        let first = source.parents[0];
        assert(g.commits[id.index as int].parents[0].index < id.index);
        let parent = &db.commits[first.index];
        assert(g.commits[first.index as int] == parent@);
        assert(g.has_tree(g.commits[first.index as int].tree));
        merge_trees(&db.trees[parent.tree.index], ours, theirs)
    };
    assert(merged.tree@ == g.replayed_files(onto, id));
    let mut headers = copy_headers(&source.headers);
    let conflicts = merged.conflicts.len();
    if conflicts > 0 {
        set_header(&mut headers, "conflicted".as_bytes(), decimal_bytes(conflicts as u64));
    }
    assert(headers_view(headers@) == g.replayed_headers(onto, id));
    let message = bytes_to_vec(source.message.as_slice());
    let tree = db.insert_tree(merged.tree);
    let mut parents: Vec<Oid> = Vec::new();
    parents.push(onto);
    let commit = Commit { parents, tree, message, headers };
    proof {
        assert(commit@.parents =~= seq![onto]);
        lemma_with_tree(g, g.replayed_files(onto, id));
        lemma_picked_within(g, onto, id);
        assert(db@.admits(commit@));
    }
    let ghost stored = db@;
    match db.insert_commit(commit) {
        Ok(new) => {
            proof {
                lemma_with_commit(stored, commit@);
                lemma_picked(g, onto, id);
            }
            Ok(new)
        },
        Err(e) => Err(e),
    }
}

/// Replays the commits `ids` onto `target`, in the order in which they are
/// given: the first onto `target`, each of the others onto the commit that
/// the one before it became. Returns the last commit made, the new head; with
/// nothing to replay that is `target` itself.
///
/// Conflicts do not stop the replay (see [`cherry_pick`]). The call fails,
/// and stores nothing, where `target` or one of `ids` is not in the database.
pub fn cherry_rebase_group(db: &mut ObjectDatabase, target: Oid, ids: &Vec<Oid>) -> (r: Result<
    Oid,
    Error,
>)
    requires
        old(db).wf(),
    ensures
        final(db).wf(),
        old(db)@.within(final(db)@),
        match r {
            Ok(head) => {
                &&& old(db)@.has_commit(target)
                &&& forall|k: int| 0 <= k < ids@.len() ==> old(db)@.has_commit(#[trigger] ids@[k])
                &&& (final(db)@, head) == old(db)@.rebased(target, ids@)
                &&& final(db)@.has_commit(head)
                &&& ids@.len() == 0 ==> head == target && *final(db) == *old(db)
                &&& final(db)@.lineage(head) == replayed_ids(old(db)@, target, ids@) + old(
                    db,
                )@.lineage(target)
            },
            Err(e) => {
                &&& e == Error::NotFound
                &&& !(old(db)@.has_commit(target) && forall|k: int|
                    0 <= k < ids@.len() ==> old(db)@.has_commit(#[trigger] ids@[k]))
                &&& *final(db) == *old(db)
            },
        },
{
    if target.index >= db.commits.len() {
        return Err(Error::NotFound);
    }
    let mut k: usize = 0;
    while k < ids.len()
        invariant
            *db == *old(db),
            db.wf(),
            k <= ids@.len(),
            forall|m: int| 0 <= m < k ==> db@.has_commit(#[trigger] ids@[m]),
        decreases ids@.len() - k,
    {
        if ids[k].index >= db.commits.len() {
            assert(!db@.has_commit(ids@[k as int]));
            return Err(Error::NotFound);
        }
        k += 1;
    }
    let mut head = target;
    let mut i: usize = 0;
    while i < ids.len()
        invariant
            db.wf(),
            i <= ids@.len(),
            old(db)@.within(db@),
            db@.has_commit(head),
            forall|m: int| 0 <= m < ids@.len() ==> old(db)@.has_commit(#[trigger] ids@[m]),
            (db@, head) == old(db)@.rebased(target, ids@.take(i as int)),
            i == 0 ==> head == target && *db == *old(db),
        decreases ids@.len() - i,
    {
        let ghost before = db@;
        assert(old(db)@.has_commit(ids@[i as int]));
        match cherry_pick(db, head, ids[i]) {
            Ok(new) => {
                assert(ids@.take(i + 1).drop_last() =~= ids@.take(i as int));
                assert(ids@.take(i + 1).last() == ids@[i as int]);
                head = new;
            },
            Err(_) => {
                assert(false);
            },
        }
        i += 1;
    }
    assert(ids@.take(ids@.len() as int) =~= ids@);
    proof {
        lemma_rebased_lineage(old(db)@, target, ids@);
    }
    Ok(head)
}

} // verus!
