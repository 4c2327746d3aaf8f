//! Merging trees: the three-way merge that replays a change, and the overlay
//! that stacks trees on one another.

use crate::bytes::{append_bytes, bytes_eq, bytes_to_vec};
use crate::tree::{
    content_at, lemma_content_at, lemma_lookup_entry, lemma_lookup_none, lemma_lookup_push,
    lemma_same_content, lookup, pairs_of, unique_paths, Tree, TreeEntry,
};
use vstd::prelude::*;
use vstd::string::StringSliceAdditionalSpecFns;

verus! {

/// The bytes of an optional byte string.
pub open spec fn bytes_of(o: Option<&Vec<u8>>) -> Option<Seq<u8>> {
    match o {
        Some(v) => Some(v@),
        None => None,
    }
}

/// The bytes of an optional owned byte string.
pub open spec fn owned_bytes_of(o: Option<Vec<u8>>) -> Option<Seq<u8>> {
    match o {
        Some(v) => Some(v@),
        None => None,
    }
}

/// What one side of a conflict contributes to the marked text: its content,
/// or nothing where that side has no file.
pub open spec fn side_text(side: Option<Seq<u8>>) -> Seq<u8> {
    match side {
        Some(c) => c,
        None => Seq::empty(),
    }
}

/// The content of a conflicted path: both sides between the standard conflict
/// markers.
pub open spec fn conflict_text(ours: Option<Seq<u8>>, theirs: Option<Seq<u8>>) -> Seq<u8> {
    "<<<<<<< ours\n".spec_bytes() + side_text(ours) + "=======\n".spec_bytes() + side_text(theirs)
        + ">>>>>>> theirs\n".spec_bytes()
}

/// Whether two sides changed one path of the base in different ways.
pub open spec fn is_conflict(
    base: Option<Seq<u8>>,
    ours: Option<Seq<u8>>,
    theirs: Option<Seq<u8>>,
) -> bool {
    theirs != base && ours != base && ours != theirs
}

/// The content that a three-way merge gives one path. A side that left the
/// base alone yields to the other side; two sides that agree are taken as they
/// are; two sides that differ from the base and from each other make a
/// conflict, which is written out between markers.
pub open spec fn merged_content(
    base: Option<Seq<u8>>,
    ours: Option<Seq<u8>>,
    theirs: Option<Seq<u8>>,
) -> Option<Seq<u8>> {
    if theirs == base {
        ours
    } else if ours == base {
        theirs
    } else if ours == theirs {
        ours
    } else {
        Some(conflict_text(ours, theirs))
    }
}

/// The files of the three-way merge of `ours` and `theirs` over `base`.
pub open spec fn merged_files(
    base: Map<Seq<u8>, Seq<u8>>,
    ours: Map<Seq<u8>, Seq<u8>>,
    theirs: Map<Seq<u8>, Seq<u8>>,
) -> Map<Seq<u8>, Seq<u8>> {
    Map::new(
        |p: Seq<u8>|
            merged_content(content_at(base, p), content_at(ours, p), content_at(theirs, p))
                is Some,
        |p: Seq<u8>|
            merged_content(
                content_at(base, p),
                content_at(ours, p),
                content_at(theirs, p),
            ).unwrap(),
    )
}

/// The paths on which the three-way merge of `ours` and `theirs` over `base`
/// conflicts.
pub open spec fn conflicted_paths(
    base: Map<Seq<u8>, Seq<u8>>,
    ours: Map<Seq<u8>, Seq<u8>>,
    theirs: Map<Seq<u8>, Seq<u8>>,
) -> Set<Seq<u8>> {
    Set::new(
        |p: Seq<u8>| is_conflict(content_at(base, p), content_at(ours, p), content_at(theirs, p)),
    )
}

/// The files of `lower` with those of `upper` laid over them: where both have
/// a path, `upper` wins.
pub open spec fn overlaid_files(
    lower: Map<Seq<u8>, Seq<u8>>,
    upper: Map<Seq<u8>, Seq<u8>>,
) -> Map<Seq<u8>, Seq<u8>> {
    lower.union_prefer_right(upper)
}

/// Merging a change into the very files that it was made on gives the files
/// that the change made, without conflict.
pub proof fn lemma_merge_in_place(base: Map<Seq<u8>, Seq<u8>>, theirs: Map<Seq<u8>, Seq<u8>>)
    ensures
        merged_files(base, base, theirs) == theirs,
        conflicted_paths(base, base, theirs) == Set::<Seq<u8>>::empty(),
        conflicted_paths(base, base, theirs).len() == 0,
{
    assert(merged_files(base, base, theirs) =~= theirs);
    assert(conflicted_paths(base, base, theirs) =~= Set::<Seq<u8>>::empty());
}

/// The byte strings of a list of buffers, in their order.
pub open spec fn paths_of(paths: Seq<Vec<u8>>) -> Seq<Seq<u8>> {
    Seq::new(paths.len(), |i: int| paths[i]@)
}

/// Whether one of the first `n` entries has the given path.
spec fn has_path(pairs: Seq<(Seq<u8>, Seq<u8>)>, n: int, path: Seq<u8>) -> bool {
    exists|k: int| 0 <= k < n && (#[trigger] pairs[k]).0 == path
}

proof fn lemma_has_path_step(pairs: Seq<(Seq<u8>, Seq<u8>)>, n: int, path: Seq<u8>)
    requires
        0 <= n < pairs.len(),
    ensures
        has_path(pairs, n + 1, path) == (has_path(pairs, n, path) || pairs[n].0 == path),
{
    if has_path(pairs, n, path) {
        let k = choose|k: int| 0 <= k < n && (#[trigger] pairs[k]).0 == path;
        assert(0 <= k < n + 1 && pairs[k].0 == path);
    }
    if pairs[n].0 == path {
        assert(0 <= n < n + 1 && (#[trigger] pairs[n]).0 == path);
    }
}

proof fn lemma_has_path_all(pairs: Seq<(Seq<u8>, Seq<u8>)>, path: Seq<u8>)
    ensures
        has_path(pairs, pairs.len() as int, path) == (lookup(pairs, path) is Some),
{
    lemma_lookup_none(pairs, path);
}

/// The result of a three-way merge of trees.
#[derive(Debug)]
pub struct MergedTree {
    /// The merged files, with marked text at the conflicted paths.
    pub tree: Tree,
    /// The conflicted paths, each once.
    pub conflicts: Vec<Vec<u8>>,
}

/// Whether two optional byte strings are both absent or hold the same bytes.
fn optional_bytes_eq(a: Option<&Vec<u8>>, b: Option<&Vec<u8>>) -> (r: bool)
    ensures
        r == (bytes_of(a) == bytes_of(b)),
{
    match (a, b) {
        (Some(x), Some(y)) => bytes_eq(x.as_slice(), y.as_slice()),
        (None, None) => true,
        _ => false,
    }
}

/// The marked text of a conflict between two sides.
fn conflict_content(ours: Option<&Vec<u8>>, theirs: Option<&Vec<u8>>) -> (r: Vec<u8>)
    ensures
        r@ == conflict_text(bytes_of(ours), bytes_of(theirs)),
{
    let mut out: Vec<u8> = Vec::new();
    append_bytes(&mut out, "<<<<<<< ours\n".as_bytes());
    if let Some(c) = ours {
        append_bytes(&mut out, c.as_slice());
    }
    append_bytes(&mut out, "=======\n".as_bytes());
    if let Some(c) = theirs {
        append_bytes(&mut out, c.as_slice());
    }
    append_bytes(&mut out, ">>>>>>> theirs\n".as_bytes());
    assert(out@ =~= conflict_text(bytes_of(ours), bytes_of(theirs)));
    out
}

/// Merges one path: the merged content, and whether the path conflicts.
pub fn merge_entry(base: Option<&Vec<u8>>, ours: Option<&Vec<u8>>, theirs: Option<&Vec<u8>>) -> (r:
    (Option<Vec<u8>>, bool))
    ensures
        owned_bytes_of(r.0) == merged_content(bytes_of(base), bytes_of(ours), bytes_of(theirs)),
        r.1 == is_conflict(bytes_of(base), bytes_of(ours), bytes_of(theirs)),
{
    if optional_bytes_eq(theirs, base) {
        (copy_optional(ours), false)
    } else if optional_bytes_eq(ours, base) {
        (copy_optional(theirs), false)
    } else if optional_bytes_eq(ours, theirs) {
        (copy_optional(ours), false)
    } else {
        (Some(conflict_content(ours, theirs)), true)
    }
}

fn copy_optional(a: Option<&Vec<u8>>) -> (r: Option<Vec<u8>>)
    ensures
        owned_bytes_of(r) == bytes_of(a),
{
    match a {
        Some(v) => Some(bytes_to_vec(v.as_slice())),
        None => None,
    }
}

/// What the merge gives a path, over lists of entries.
spec fn merged_at(
    base: Seq<(Seq<u8>, Seq<u8>)>,
    ours: Seq<(Seq<u8>, Seq<u8>)>,
    theirs: Seq<(Seq<u8>, Seq<u8>)>,
    p: Seq<u8>,
) -> Option<Seq<u8>> {
    merged_content(lookup(base, p), lookup(ours, p), lookup(theirs, p))
}

spec fn conflict_at(
    base: Seq<(Seq<u8>, Seq<u8>)>,
    ours: Seq<(Seq<u8>, Seq<u8>)>,
    theirs: Seq<(Seq<u8>, Seq<u8>)>,
    p: Seq<u8>,
) -> bool {
    is_conflict(lookup(base, p), lookup(ours, p), lookup(theirs, p))
}

/// The three-way merge of `ours` and `theirs` over their common `base`.
///
/// The merge never fails: a path that both sides changed in different ways
/// gets both contents between conflict markers and is listed as conflicted.
pub fn merge_trees(base: &Tree, ours: &Tree, theirs: &Tree) -> (r: MergedTree)
    requires
        base.wf(),
        ours.wf(),
        theirs.wf(),
    ensures
        r.tree.wf(),
        r.tree@ == merged_files(base@, ours@, theirs@),
        paths_of(r.conflicts@).no_duplicates(),
        paths_of(r.conflicts@).to_set() == conflicted_paths(base@, ours@, theirs@),
        r.conflicts@.len() == conflicted_paths(base@, ours@, theirs@).len(),
        r.conflicts@.len() <= ours.entries@.len() + theirs.entries@.len(),
{
    let ghost bp = pairs_of(base.entries@);
    let ghost op = pairs_of(ours.entries@);
    let ghost tp = pairs_of(theirs.entries@);
    let mut entries: Vec<TreeEntry> = Vec::new();
    let mut conflicts: Vec<Vec<u8>> = Vec::new();
    let mut i: usize = 0;
    while i < ours.entries.len()
        invariant
            base.wf(),
            ours.wf(),
            theirs.wf(),
            bp == pairs_of(base.entries@),
            op == pairs_of(ours.entries@),
            tp == pairs_of(theirs.entries@),
            i <= ours.entries@.len(),
            conflicts@.len() <= i,
            unique_paths(pairs_of(entries@)),
            paths_of(conflicts@).no_duplicates(),
            forall|q: Seq<u8>| #[trigger]
                lookup(pairs_of(entries@), q) == if has_path(op, i as int, q) {
                    merged_at(bp, op, tp, q)
                } else {
                    None
                },
            forall|q: Seq<u8>| #[trigger]
                paths_of(conflicts@).contains(q) == (has_path(op, i as int, q) && conflict_at(
                    bp,
                    op,
                    tp,
                    q,
                )),
        decreases ours.entries@.len() - i,
    {
        let e = &ours.entries[i];
        let ghost p = e.path@;
        let b = base.get(e.path.as_slice());
        let t = theirs.get(e.path.as_slice());
        let (content, conflict) = merge_entry(b, Some(&e.content), t);
        proof {
            lemma_lookup_entry(op, i as int);
            lemma_content_at(bp, p);
            lemma_content_at(op, p);
            lemma_content_at(tp, p);
            assert(!has_path(op, i as int, p)) by {
                if has_path(op, i as int, p) {
                    let k = choose|k: int| 0 <= k < i && (#[trigger] op[k]).0 == p;
                    assert(op[k].0 != op[i as int].0);
                }
            }
            assert(lookup(pairs_of(entries@), p) is None);
            assert(!paths_of(conflicts@).contains(p));
        }
        let ghost before = pairs_of(entries@);
        let ghost conflicts_before = paths_of(conflicts@);
        if let Some(c) = content {
            proof {
                lemma_lookup_push(before, p, c@);
                lemma_lookup_none(before, p);
            }
            entries.push(TreeEntry { path: bytes_to_vec(e.path.as_slice()), content: c });
            assert(pairs_of(entries@) =~= before.push((p, c@)));
        }
        if conflict {
            conflicts.push(bytes_to_vec(e.path.as_slice()));
            assert(paths_of(conflicts@) =~= conflicts_before.push(p));
        }
        proof {
            assert forall|q: Seq<u8>| #[trigger]
                lookup(pairs_of(entries@), q) == if has_path(op, i + 1, q) {
                    merged_at(bp, op, tp, q)
                } else {
                    None
                } by {
                lemma_has_path_step(op, i as int, q);
            }
            assert forall|q: Seq<u8>| #[trigger]
                paths_of(conflicts@).contains(q) == (has_path(op, i + 1, q) && conflict_at(
                    bp,
                    op,
                    tp,
                    q,
                )) by {
                lemma_has_path_step(op, i as int, q);
                lemma_contains_push(conflicts_before, p, q);
                assert(conflicts_before.contains(q) == (has_path(op, i as int, q) && conflict_at(
                    bp,
                    op,
                    tp,
                    q,
                )));
            }
        }
        i += 1;
    }
    proof {
        assert(i == op.len());
        assert forall|q: Seq<u8>| #[trigger]
            lookup(pairs_of(entries@), q) == if lookup(op, q) is Some || has_path(tp, 0, q) {
                merged_at(bp, op, tp, q)
            } else {
                None
            } by {
            lemma_has_path_all(op, q);
        }
        assert forall|q: Seq<u8>| #[trigger]
            paths_of(conflicts@).contains(q) == ((lookup(op, q) is Some || has_path(tp, 0, q))
                && conflict_at(bp, op, tp, q)) by {
            lemma_has_path_all(op, q);
        }
    }
    let mut j: usize = 0;
    while j < theirs.entries.len()
        invariant
            base.wf(),
            ours.wf(),
            theirs.wf(),
            bp == pairs_of(base.entries@),
            op == pairs_of(ours.entries@),
            tp == pairs_of(theirs.entries@),
            j <= theirs.entries@.len(),
            conflicts@.len() <= ours.entries@.len() + j,
            unique_paths(pairs_of(entries@)),
            paths_of(conflicts@).no_duplicates(),
            forall|q: Seq<u8>| #[trigger]
                lookup(pairs_of(entries@), q) == if lookup(op, q) is Some || has_path(
                    tp,
                    j as int,
                    q,
                ) {
                    merged_at(bp, op, tp, q)
                } else {
                    None
                },
            forall|q: Seq<u8>| #[trigger]
                paths_of(conflicts@).contains(q) == ((lookup(op, q) is Some || has_path(
                    tp,
                    j as int,
                    q,
                )) && conflict_at(bp, op, tp, q)),
        decreases theirs.entries@.len() - j,
    {
        let e = &theirs.entries[j];
        let ghost p = e.path@;
        let ghost before = pairs_of(entries@);
        let ghost conflicts_before = paths_of(conflicts@);
        proof {
            lemma_lookup_entry(tp, j as int);
            lemma_content_at(bp, p);
            lemma_content_at(op, p);
            lemma_content_at(tp, p);
        }
        if ours.get(e.path.as_slice()).is_none() {
            let b = base.get(e.path.as_slice());
            let (content, conflict) = merge_entry(b, None, Some(&e.content));
            proof {
                assert(!has_path(tp, j as int, p)) by {
                    if has_path(tp, j as int, p) {
                        let k = choose|k: int| 0 <= k < j && (#[trigger] tp[k]).0 == p;
                        assert(tp[k].0 != tp[j as int].0);
                    }
                }
                assert(lookup(before, p) is None);
                assert(!conflicts_before.contains(p));
            }
            if let Some(c) = content {
                proof {
                    lemma_lookup_push(before, p, c@);
                    lemma_lookup_none(before, p);
                }
                entries.push(TreeEntry { path: bytes_to_vec(e.path.as_slice()), content: c });
                assert(pairs_of(entries@) =~= before.push((p, c@)));
            }
            if conflict {
                conflicts.push(bytes_to_vec(e.path.as_slice()));
                assert(paths_of(conflicts@) =~= conflicts_before.push(p));
            }
        }
        proof {
            assert forall|q: Seq<u8>| #[trigger]
                lookup(pairs_of(entries@), q) == if lookup(op, q) is Some || has_path(
                    tp,
                    j + 1,
                    q,
                ) {
                    merged_at(bp, op, tp, q)
                } else {
                    None
                } by {
                lemma_has_path_step(tp, j as int, q);
            }
            assert forall|q: Seq<u8>| #[trigger]
                paths_of(conflicts@).contains(q) == ((lookup(op, q) is Some || has_path(
                    tp,
                    j + 1,
                    q,
                )) && conflict_at(bp, op, tp, q)) by {
                lemma_has_path_step(tp, j as int, q);
                lemma_contains_push(conflicts_before, p, q);
                assert(conflicts_before.contains(q) == ((lookup(op, q) is Some || has_path(
                    tp,
                    j as int,
                    q,
                )) && conflict_at(bp, op, tp, q)));
            }
        }
        j += 1;
    }
    let tree = Tree { entries };
    proof {
        assert forall|q: Seq<u8>|
            lookup(pairs_of(tree.entries@), q) == merged_at(bp, op, tp, q) by {
            lemma_has_path_all(tp, q);
        }
        assert forall|q: Seq<u8>|
            content_at(tree@, q) == merged_content(
                content_at(base@, q),
                content_at(ours@, q),
                content_at(theirs@, q),
            ) by {
            lemma_content_at(pairs_of(tree.entries@), q);
            lemma_content_at(bp, q);
            lemma_content_at(op, q);
            lemma_content_at(tp, q);
        }
        lemma_same_content(tree@, merged_files(base@, ours@, theirs@));
        assert(paths_of(conflicts@).to_set() =~= conflicted_paths(base@, ours@, theirs@)) by {
            assert forall|q: Seq<u8>|
                paths_of(conflicts@).to_set().contains(q) == conflicted_paths(
                    base@,
                    ours@,
                    theirs@,
                ).contains(q) by {
                lemma_has_path_all(tp, q);
                lemma_content_at(bp, q);
                lemma_content_at(op, q);
                lemma_content_at(tp, q);
                assert(paths_of(conflicts@).contains(q) == ((lookup(op, q) is Some || has_path(
                    tp,
                    tp.len() as int,
                    q,
                )) && conflict_at(bp, op, tp, q)));
            }
        }
        paths_of(conflicts@).unique_seq_to_set();
    }
    MergedTree { tree, conflicts }
}

proof fn lemma_contains_push(s: Seq<Seq<u8>>, p: Seq<u8>, q: Seq<u8>)
    ensures
        s.push(p).contains(q) == (s.contains(q) || q == p),
        !s.contains(p) && s.no_duplicates() ==> s.push(p).no_duplicates(),
{
    if s.contains(q) {
        let k = choose|k: int| 0 <= k < s.len() && s[k] == q;
        assert(s.push(p)[k] == q);
    }
    if q == p {
        assert(s.push(p)[s.len() as int] == q);
    }
    if s.push(p).contains(q) {
        let k = choose|k: int| 0 <= k < s.push(p).len() && s.push(p)[k] == q;
        if k < s.len() {
            assert(s[k] == q);
        }
    }
}

/// Lays the files of `upper` over those of `lower`.
pub fn overlay(lower: &Tree, upper: &Tree) -> (r: Tree)
    requires
        lower.wf(),
        upper.wf(),
    ensures
        r.wf(),
        r@ == overlaid_files(lower@, upper@),
{
    let mut out = lower.copy();
    let ghost up = pairs_of(upper.entries@);
    let mut j: usize = 0;
    while j < upper.entries.len()
        invariant
            lower.wf(),
            upper.wf(),
            out.wf(),
            up == pairs_of(upper.entries@),
            j <= upper.entries@.len(),
            forall|q: Seq<u8>| #[trigger]
                out.at(q) == if has_path(up, j as int, q) {
                    upper.at(q)
                } else {
                    lower.at(q)
                },
        decreases upper.entries@.len() - j,
    {
        let e = &upper.entries[j];
        let ghost before = out;
        out.set(e.path.as_slice(), e.content.as_slice());
        proof {
            lemma_lookup_entry(up, j as int);
            lemma_content_at(up, e.path@);
            assert forall|q: Seq<u8>| #[trigger]
                out.at(q) == if has_path(up, j + 1, q) {
                    upper.at(q)
                } else {
                    lower.at(q)
                } by {
                lemma_has_path_step(up, j as int, q);
                assert(before.at(q) == if has_path(up, j as int, q) {
                    upper.at(q)
                } else {
                    lower.at(q)
                });
            }
        }
        j += 1;
    }
    proof {
        assert forall|q: Seq<u8>|
            content_at(out@, q) == content_at(overlaid_files(lower@, upper@), q) by {
            lemma_has_path_all(up, q);
            lemma_content_at(up, q);
            assert(out.at(q) == if has_path(up, up.len() as int, q) {
                upper.at(q)
            } else {
                lower.at(q)
            });
        }
        lemma_same_content(out@, overlaid_files(lower@, upper@));
    }
    out
}

} // verus!
