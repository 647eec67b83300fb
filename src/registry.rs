//! The ordered registry of fragments. A fragment with id `n` is the file
//! `opt-<n>.py` of the registry's directory. The registry keeps an index
//! of the ids found there, and plans its insertions, removals and
//! resequencing as file actions, which are then carried out on the
//! directory in order.

use vstd::prelude::*;
use std::collections::HashMap;
use crate::names::{fragment_file_name, fragment_name, parse_fragment_name};
use crate::python::{edit_view, get_operation_python, get_operation_temple_python, marker_line, OperationTemplate};
use crate::extract::{extracted, ExtractionError};

verus! {

/// One change to the registry's directory.
#[derive(Debug, Clone, Copy, PartialEq, Eq, Structural)]
pub enum FileAction {
    /// Move the fragment `from` to the id `to`. A missing source counts as
    /// already moved.
    Rename { from: usize, to: usize },
    /// Delete the fragment with this id.
    Delete { id: usize },
}

/// The directory's contents after one action: the body stored under each id.
pub open spec fn apply_action(m: Map<usize, Seq<char>>, a: FileAction) -> Map<usize, Seq<char>> {
    match a {
        FileAction::Rename { from, to } => if m.contains_key(from) {
            m.remove(from).insert(to, m[from])
        } else {
            m
        },
        FileAction::Delete { id } => m.remove(id),
    }
}

/// The directory's contents after the actions, carried out in order.
pub open spec fn apply_actions(m: Map<usize, Seq<char>>, acts: Seq<FileAction>) -> Map<
    usize,
    Seq<char>,
>
    decreases acts.len(),
{
    if acts.len() == 0 {
        m
    } else {
        apply_action(apply_actions(m, acts.drop_last()), acts.last())
    }
}

/// Each id is greater than the one before it.
pub open spec fn strictly_increasing(ids: Seq<usize>) -> bool {
    forall|i: int, j: int| 0 <= i < j < ids.len() ==> ids[i] < ids[j]
}

/// `ids` lists, in ascending order, the ids that hold a body in `m`.
pub open spec fn index_of(m: Map<usize, Seq<char>>, ids: Seq<usize>) -> bool {
    strictly_increasing(ids) && m.dom() == ids.to_set()
}

/// Each id is one more than the one before it.
pub open spec fn contiguous(ids: Seq<usize>) -> bool {
    forall|i: int| 0 <= i < ids.len() - 1 ==> #[trigger] ids[i + 1] == ids[i] + 1
}

/// The ids at and after position `p` moved up by one.
pub open spec fn shifted_ids(ids: Seq<usize>, p: int) -> Seq<usize> {
    Seq::new(ids.len(), |i: int| if i < p { ids[i] } else { (ids[i] + 1) as usize })
}

/// The renames that make room at `ids[p]`: from the largest id down to
/// `ids[p]`, each id moves up by one.
pub open spec fn insert_actions(ids: Seq<usize>, p: int) -> Seq<FileAction> {
    Seq::new(
        (ids.len() - p) as nat,
        |i: int|
            FileAction::Rename {
                from: ids[ids.len() - 1 - i],
                to: (ids[ids.len() - 1 - i] + 1) as usize,
            },
    )
}

/// The ids after resequencing: unchanged when contiguous, else `1..=n`.
pub open spec fn resequenced(ids: Seq<usize>) -> Seq<usize> {
    if contiguous(ids) {
        ids
    } else {
        Seq::new(ids.len(), |i: int| (i + 1) as usize)
    }
}

/// The renames that resequence `ids`: none when contiguous, else from the
/// largest id down, the `k`-th smallest id moves to `k` (counting from 1).
pub open spec fn resequence_actions(ids: Seq<usize>) -> Seq<FileAction> {
    if contiguous(ids) {
        Seq::empty()
    } else {
        Seq::new(
            ids.len(),
            |i: int| FileAction::Rename { from: ids[ids.len() - 1 - i], to: (ids.len() - i) as usize },
        )
    }
}

/// No rename of the resequencing lands on an id that has not moved yet.
pub open spec fn resequence_keeps_all(ids: Seq<usize>) -> bool {
    forall|k: int, j: int| #![trigger ids[k], ids[j]] 0 <= k < j < ids.len() ==> ids[k] != j + 1
}

/// The contents with every id from `t` on moved up by one: `t` is free.
pub open spec fn shifted(m: Map<usize, Seq<char>>, t: usize) -> Map<usize, Seq<char>> {
    Map::new(
        |k: usize| (k < t && m.contains_key(k)) || (k > t && m.contains_key((k - 1) as usize)),
        |k: usize| if k < t { m[k] } else { m[(k - 1) as usize] },
    )
}

/// Where the insertion's renames have reached before handling `ids[q]`:
/// every id from this one on has moved.
spec fn insert_threshold(ids: Seq<usize>, q: int) -> usize {
    if q + 1 < ids.len() {
        ids[q + 1]
    } else {
        (ids[q] + 1) as usize
    }
}

/// No id of `m` lies strictly between `ids[q]` and the next threshold.
proof fn lemma_gap_after(m: Map<usize, Seq<char>>, ids: Seq<usize>, q: int)
    requires
        index_of(m, ids),
        0 <= q < ids.len(),
        ids[q] < usize::MAX,
    ensures
        ids[q] < insert_threshold(ids, q),
        forall|k: usize| ids[q] < k < insert_threshold(ids, q) ==> !m.contains_key(k),
        forall|k: usize| m.contains_key(k) ==> k < insert_threshold(ids, q) || k > ids[q],
{
    assert forall|k: usize| m.contains_key(k) implies k <= ids[q] || k >= insert_threshold(ids, q) by {
        assert(ids.to_set().contains(k));
        let i = choose|i: int| 0 <= i < ids.len() && ids[i] == k;
        if i > q + 1 {
            assert(ids[q + 1] < ids[i]);
        }
        if i < q {
            assert(ids[i] < ids[q]);
        }
    }
    if q + 1 < ids.len() {
        assert(ids[q] < ids[q + 1]);
    }
}

/// One rename of the insertion moves the threshold down to `ids[q]`.
proof fn lemma_insert_step(m: Map<usize, Seq<char>>, ids: Seq<usize>, q: int)
    requires
        index_of(m, ids),
        0 <= q < ids.len(),
        ids[q] < usize::MAX,
    ensures
        apply_action(
            shifted(m, insert_threshold(ids, q)),
            FileAction::Rename { from: ids[q], to: (ids[q] + 1) as usize },
        ) == shifted(m, ids[q]),
{
    lemma_gap_after(m, ids, q);
    let x = ids[q];
    assert(ids.to_set().contains(x));
    let before = shifted(m, insert_threshold(ids, q));
    assert(before.contains_key(x));
    let after = apply_action(before, FileAction::Rename { from: x, to: (x + 1) as usize });
    assert(after =~= shifted(m, x));
}

/// Before any rename, the threshold above the largest id leaves `m` as is.
proof fn lemma_insert_start(m: Map<usize, Seq<char>>, ids: Seq<usize>)
    requires
        index_of(m, ids),
        ids.len() > 0,
        ids.last() < usize::MAX,
    ensures
        shifted(m, insert_threshold(ids, ids.len() - 1)) == m,
{
    lemma_gap_after(m, ids, ids.len() - 1);
    assert(shifted(m, insert_threshold(ids, ids.len() - 1)) =~= m);
}

/// After `s` renames of the insertion at `ids[p]`, the ids from
/// `ids[n - s]` on have moved.
proof fn lemma_insert_prefix(m: Map<usize, Seq<char>>, ids: Seq<usize>, p: int, s: int)
    requires
        index_of(m, ids),
        0 <= p < ids.len(),
        forall|i: int| p <= i < ids.len() ==> ids[i] < usize::MAX,
        0 <= s <= ids.len() - p,
    ensures
        s > 0 ==> apply_actions(m, insert_actions(ids, p).take(s)) == shifted(
            m,
            ids[ids.len() - s],
        ),
        s == 0 ==> apply_actions(m, insert_actions(ids, p).take(s)) == m,
    decreases s,
{
    let n = ids.len();
    let acts = insert_actions(ids, p);
    if s == 0 {
        assert(acts.take(0) =~= Seq::<FileAction>::empty());
    } else {
        lemma_insert_prefix(m, ids, p, s - 1);
        assert(acts.take(s).drop_last() =~= acts.take(s - 1));
        let q = n - s;
        if s == 1 {
            lemma_insert_start(m, ids);
        }
        lemma_insert_step(m, ids, q);
    }
}

/// Making room at an occupied id moves every id from it on up by one and
/// keeps each body with its fragment; the index shifts alike. Once a body
/// is written at the freed id, the ids are contiguous if they were before.
pub proof fn lemma_insert_shifts(
    m: Map<usize, Seq<char>>,
    ids: Seq<usize>,
    p: int,
    body: Seq<char>,
)
    requires
        index_of(m, ids),
        0 <= p < ids.len(),
        forall|i: int| p <= i < ids.len() ==> ids[i] < usize::MAX,
    ensures
        apply_actions(m, insert_actions(ids, p)) == shifted(m, ids[p]),
        index_of(shifted(m, ids[p]), shifted_ids(ids, p)),
        index_of(shifted(m, ids[p]).insert(ids[p], body), shifted_ids(ids, p).insert(p, ids[p])),
        contiguous(ids) ==> contiguous(shifted_ids(ids, p).insert(p, ids[p])),
{
    let n = ids.len();
    lemma_insert_prefix(m, ids, p, n - p);
    assert(insert_actions(ids, p).take(n - p) =~= insert_actions(ids, p));
    let x = ids[p];
    let sm = shifted(m, x);
    let si = shifted_ids(ids, p);
    assert forall|k: usize| sm.contains_key(k) <==> si.to_set().contains(k) by {
        if sm.contains_key(k) {
            if k < x {
                assert(ids.to_set().contains(k));
                let i = choose|i: int| 0 <= i < ids.len() && ids[i] == k;
                if i >= p {
                    assert(ids[p] <= ids[i]);
                }
                assert(si[i] == k);
            } else {
                assert(ids.to_set().contains((k - 1) as usize));
                let i = choose|i: int| 0 <= i < ids.len() && ids[i] == (k - 1) as usize;
                if i < p {
                    assert(ids[i] < ids[p]);
                }
                assert(si[i] == k);
            }
        }
        if si.to_set().contains(k) {
            let i = choose|i: int| 0 <= i < si.len() && si[i] == k;
            assert(ids.to_set().contains(ids[i]));
            if i < p {
                assert(ids[i] < ids[p]);
            } else {
                assert(ids[p] <= ids[i]);
            }
        }
    }
    assert(sm.dom() =~= si.to_set());
    let wi = si.insert(p, x);
    assert forall|i: int, j: int| 0 <= i < j < wi.len() implies wi[i] < wi[j] by {
        if j < p {
        } else if j == p {
            assert(ids[i] < ids[p]);
        } else if i < p {
            assert(ids[i] < ids[j - 1]);
        } else if i == p {
            assert(ids[p] <= ids[j - 1]);
        } else {
            assert(ids[i - 1] < ids[j - 1]);
        }
    }
    assert forall|i: int, j: int| 0 <= i < j < si.len() implies si[i] < si[j] by {
        assert(ids[i] < ids[j]);
    }
    assert(sm.insert(x, body).dom() =~= wi.to_set()) by {
        assert forall|k: usize| wi.to_set().contains(k) <==> si.to_set().contains(k) || k == x by {
            if wi.to_set().contains(k) {
                let i = choose|i: int| 0 <= i < wi.len() && wi[i] == k;
                if i < p {
                    assert(si[i] == k);
                } else if i > p {
                    assert(si[i - 1] == k);
                }
            }
            if si.to_set().contains(k) {
                let i = choose|i: int| 0 <= i < si.len() && si[i] == k;
                if i < p {
                    assert(wi[i] == k);
                } else {
                    assert(wi[i + 1] == k);
                }
            }
            if k == x {
                assert(wi[p] == k);
            }
        }
    }
    if contiguous(ids) {
        assert forall|i: int| 0 <= i < wi.len() - 1 implies #[trigger] wi[i + 1] == wi[i] + 1 by {
            if i + 1 < p {
                assert(ids[i + 1] == ids[i] + 1);
            } else if i + 1 == p {
                assert(ids[i + 1] == ids[i] + 1);
            } else if i == p {
            } else {
                let k = i - 1;
                assert(ids[k + 1] == ids[k] + 1);
            }
        }
    }
}

/// The actions that remove `ids[p]`: delete it, then resequence the rest.
pub open spec fn remove_actions(ids: Seq<usize>, p: int) -> Seq<FileAction> {
    seq![FileAction::Delete { id: ids[p] }] + resequence_actions(ids.remove(p))
}

/// Carrying out `x` then `y` is carrying out `x + y`.
pub proof fn lemma_apply_concat(m: Map<usize, Seq<char>>, x: Seq<FileAction>, y: Seq<FileAction>)
    ensures
        apply_actions(m, x + y) == apply_actions(apply_actions(m, x), y),
    decreases y.len(),
{
    if y.len() == 0 {
        assert(x + y =~= x);
    } else {
        assert((x + y).drop_last() =~= x + y.drop_last());
        lemma_apply_concat(m, x, y.drop_last());
    }
}

/// The contents while resequencing, once the ids from `ids[q]` on have
/// moved: the `k`-th smallest id has moved to `k` for `k > q`.
spec fn resequence_partial(m: Map<usize, Seq<char>>, ids: Seq<usize>, q: int) -> Map<
    usize,
    Seq<char>,
> {
    Map::new(
        |k: usize|
            (q < k <= ids.len()) || (m.contains_key(k) && (q >= ids.len() || k < ids[q])),
        |k: usize| if q < k <= ids.len() { m[ids[k - 1]] } else { m[k] },
    )
}

/// One rename of the resequencing moves `ids[q]` to `q + 1`.
proof fn lemma_resequence_step(m: Map<usize, Seq<char>>, ids: Seq<usize>, q: int)
    requires
        index_of(m, ids),
        resequence_keeps_all(ids),
        0 <= q < ids.len(),
        ids.len() <= usize::MAX,
    ensures
        apply_action(
            resequence_partial(m, ids, q + 1),
            FileAction::Rename { from: ids[q], to: (q + 1) as usize },
        ) == resequence_partial(m, ids, q),
{
    let x = ids[q];
    assert(ids.to_set().contains(x));
    assert forall|k: usize| m.contains_key(k) implies k <= x || q + 1 >= ids.len() || k >= ids[q
        + 1] by {
        assert(ids.to_set().contains(k));
        let i = choose|i: int| 0 <= i < ids.len() && ids[i] == k;
        if i > q + 1 {
            assert(ids[q + 1] < ids[i]);
        }
        if i < q {
            assert(ids[i] < ids[q]);
        }
    }
    if q + 1 < ids.len() {
        assert(ids[q] < ids[q + 1]);
    }
    let before = resequence_partial(m, ids, q + 1);
    assert(before.contains_key(x));
    let after = apply_action(before, FileAction::Rename { from: x, to: (q + 1) as usize });
    assert(after =~= resequence_partial(m, ids, q));
}

/// After `s` renames of the resequencing, the `s` largest ids have moved.
proof fn lemma_resequence_prefix(m: Map<usize, Seq<char>>, ids: Seq<usize>, s: int)
    requires
        index_of(m, ids),
        resequence_keeps_all(ids),
        !contiguous(ids),
        0 <= s <= ids.len(),
        ids.len() <= usize::MAX,
    ensures
        apply_actions(m, resequence_actions(ids).take(s)) == resequence_partial(
            m,
            ids,
            ids.len() - s,
        ),
    decreases s,
{
    let acts = resequence_actions(ids);
    if s == 0 {
        assert(acts.take(0) =~= Seq::<FileAction>::empty());
        assert(resequence_partial(m, ids, ids.len() as int) =~= m);
    } else {
        lemma_resequence_prefix(m, ids, s - 1);
        assert(acts.take(s).drop_last() =~= acts.take(s - 1));
        lemma_resequence_step(m, ids, ids.len() - s);
    }
}

/// Resequencing, where no rename lands on an id that has not moved yet,
/// leaves the ids that `resequenced` gives, each holding the body of the
/// id at the same place in the old order.
pub proof fn lemma_resequence_contents(m: Map<usize, Seq<char>>, ids: Seq<usize>)
    requires
        index_of(m, ids),
        contiguous(ids) || resequence_keeps_all(ids),
        ids.len() <= usize::MAX,
    ensures
        index_of(apply_actions(m, resequence_actions(ids)), resequenced(ids)),
        contiguous(resequenced(ids)),
        resequenced(ids).len() == ids.len(),
        forall|k: int|
            0 <= k < ids.len() ==> apply_actions(m, resequence_actions(ids))[#[trigger] resequenced(
                ids,
            )[k]] == m[ids[k]],
{
    let n = ids.len();
    if contiguous(ids) {
        assert(resequence_actions(ids) =~= Seq::<FileAction>::empty());
    } else {
        lemma_resequence_prefix(m, ids, n as int);
        assert(resequence_actions(ids).take(n as int) =~= resequence_actions(ids));
        let r = resequenced(ids);
        let m2 = resequence_partial(m, ids, 0);
        if n > 0 {
            assert(ids.to_set().contains(ids[0]));
        }
        assert forall|k: usize| m.contains_key(k) implies k >= ids[0] by {
            assert(ids.to_set().contains(k));
            let i = choose|i: int| 0 <= i < ids.len() && ids[i] == k;
            if i > 0 {
                assert(ids[0] < ids[i]);
            }
        }
        assert forall|k: usize| m2.contains_key(k) <==> r.to_set().contains(k) by {
            if m2.contains_key(k) {
                assert(r[k - 1] == k);
            }
        }
        assert(m2.dom() =~= r.to_set());
    }
}

/// Removing a fragment, then resequencing where no rename lands on an id
/// that has not moved yet, leaves contiguous ids, one fewer than before,
/// the survivors holding their bodies in their old order.
pub proof fn lemma_remove_resequences(m: Map<usize, Seq<char>>, ids: Seq<usize>, p: int)
    requires
        index_of(m, ids),
        0 <= p < ids.len(),
        ids.len() <= usize::MAX,
        contiguous(ids.remove(p)) || resequence_keeps_all(ids.remove(p)),
    ensures
        index_of(apply_actions(m, remove_actions(ids, p)), resequenced(ids.remove(p))),
        contiguous(resequenced(ids.remove(p))),
        resequenced(ids.remove(p)).len() == ids.len() - 1,
        forall|k: int|
            0 <= k < ids.len() - 1 ==> apply_actions(m, remove_actions(ids, p))[#[trigger] resequenced(
                ids.remove(p),
            )[k]] == m[ids.remove(p)[k]],
{
    let a = ids.remove(p);
    let del = seq![FileAction::Delete { id: ids[p] }];
    lemma_apply_concat(m, del, resequence_actions(a));
    assert(del.drop_last() =~= Seq::<FileAction>::empty());
    assert(apply_actions(m, del.drop_last()) == m);
    let m1 = m.remove(ids[p]);
    assert(apply_actions(m, del) == m1);
    assert forall|i: int, j: int| 0 <= i < j < a.len() implies a[i] < a[j] by {
        if j < p {
        } else if i < p {
            assert(ids[i] < ids[j + 1]);
        } else {
            assert(ids[i + 1] < ids[j + 1]);
        }
    }
    assert forall|k: usize| m1.contains_key(k) <==> a.to_set().contains(k) by {
        if m1.contains_key(k) {
            assert(ids.to_set().contains(k));
            let i = choose|i: int| 0 <= i < ids.len() && ids[i] == k;
            if i < p {
                assert(a[i] == k);
            } else {
                assert(a[i - 1] == k);
            }
        }
        if a.to_set().contains(k) {
            let i = choose|i: int| 0 <= i < a.len() && a[i] == k;
            if i < p {
                assert(ids[i] == k);
                assert(ids[i] < ids[p]);
            } else {
                assert(ids[i + 1] == k);
                assert(ids[p] < ids[i + 1]);
            }
            assert(ids.to_set().contains(k));
        }
    }
    assert(m1.dom() =~= a.to_set());
    lemma_resequence_contents(m1, a);
    assert forall|k: int| 0 <= k < a.len() implies m1[a[k]] == m[a[k]] by {
        if k < p {
            assert(ids[k] < ids[p]);
        } else {
            assert(ids[p] < ids[k + 1]);
        }
    }
}

/// Resequencing twice in a row: the second time renames nothing and
/// leaves the ids as they are.
pub proof fn lemma_resequence_idempotent(m: Map<usize, Seq<char>>, ids: Seq<usize>)
    requires
        ids.len() <= usize::MAX,
    ensures
        contiguous(resequenced(ids)),
        resequence_actions(resequenced(ids)) == Seq::<FileAction>::empty(),
        resequenced(resequenced(ids)) == resequenced(ids),
        apply_actions(m, resequence_actions(resequenced(ids))) == m,
{
    let r = resequenced(ids);
    if !contiguous(ids) {
        assert forall|i: int| 0 <= i < r.len() - 1 implies #[trigger] r[i + 1] == r[i] + 1 by {}
    }
    assert(resequence_actions(r) =~= Seq::<FileAction>::empty());
}

/// Whether consecutive ids differ by exactly one.
pub fn is_contiguous(ids: &Vec<usize>) -> (r: bool)
    ensures
        r == contiguous(ids@),
{
    let n = ids.len();
    if n == 0 {
        return true;
    }
    let mut i: usize = 0;
    while i + 1 < n
        invariant
            n == ids@.len(),
            n > 0,
            i < n,
            forall|k: int| 0 <= k < i ==> #[trigger] ids@[k + 1] == ids@[k] + 1,
        decreases n - i,
    {
        if ids[i] >= usize::MAX || ids[i + 1] != ids[i] + 1 {
            assert(!(ids@[i + 1] == ids@[i as int] + 1));
            return false;
        }
        i = i + 1;
    }
    true
}

/// The renames that resequence `ids`.
pub fn resequence_plan(ids: &Vec<usize>) -> (r: Vec<FileAction>)
    ensures
        r@ == resequence_actions(ids@),
{
    let mut r: Vec<FileAction> = Vec::new();
    if is_contiguous(ids) {
        assert(r@ =~= resequence_actions(ids@));
        return r;
    }
    let n = ids.len();
    let mut i: usize = 0;
    while i < n
        invariant
            n == ids@.len(),
            i <= n,
            !contiguous(ids@),
            r@ =~= resequence_actions(ids@).subrange(0, i as int),
        decreases n - i,
    {
        r.push(FileAction::Rename { from: ids[n - 1 - i], to: n - i });
        i = i + 1;
    }
    r
}

/// The renames that make room at `ids[p]`.
pub fn insert_plan(ids: &Vec<usize>, p: usize) -> (r: Vec<FileAction>)
    requires
        p <= ids@.len(),
        forall|i: int| p <= i < ids@.len() ==> ids@[i] < usize::MAX,
    ensures
        r@ == insert_actions(ids@, p as int),
{
    let n = ids.len();
    let mut r: Vec<FileAction> = Vec::new();
    let mut i: usize = 0;
    while i < n - p
        invariant
            n == ids@.len(),
            p <= n,
            i <= n - p,
            forall|i: int| p <= i < ids@.len() ==> ids@[i] < usize::MAX,
            r@ =~= insert_actions(ids@, p as int).subrange(0, i as int),
        decreases n - p - i,
    {
        let x = ids[n - 1 - i];
        r.push(FileAction::Rename { from: x, to: x + 1 });
        i = i + 1;
    }
    r
}

/// Adds `x` to the ascending ids `v`, unless it is there already.
fn insert_sorted(v: &mut Vec<usize>, x: usize)
    requires
        strictly_increasing(old(v)@),
    ensures
        strictly_increasing(final(v)@),
        forall|y: usize| final(v)@.contains(y) <==> old(v)@.contains(y) || y == x,
{
    let n = v.len();
    let mut p: usize = 0;
    while p < n && v[p] < x
        invariant
            n == v@.len(),
            p <= n,
            forall|k: int| 0 <= k < p ==> v@[k] < x,
        decreases n - p,
    {
        p = p + 1;
    }
    if p < n && v[p] == x {
        assert(v@.contains(x) && v@[p as int] == x);
        return;
    }
    let ghost before = v@;
    v.insert(p, x);
    assert forall|i: int, j: int| 0 <= i < j < v@.len() implies v@[i] < v@[j] by {
        if j < p {
        } else if j == p {
        } else if i < p {
            assert(before[i] < before[j - 1]);
        } else if i == p {
            assert(x <= before[p as int]);
            if j - 1 > p {
                assert(before[p as int] < before[j - 1]);
            }
        } else {
            assert(before[i - 1] < before[j - 1]);
        }
    }
    assert forall|y: usize| v@.contains(y) <==> before.contains(y) || y == x by {
        if v@.contains(y) {
            let i = choose|i: int| 0 <= i < v@.len() && v@[i] == y;
            if i < p {
                assert(before[i] == y);
            } else if i > p {
                assert(before[i - 1] == y);
            }
        }
        if before.contains(y) {
            let i = choose|i: int| 0 <= i < before.len() && before[i] == y;
            if i < p {
                assert(v@[i] == y);
            } else {
                assert(v@[i + 1] == y);
            }
        }
        if y == x {
            assert(v@[p as int] == y);
        }
    }
}

/// Some name in `names` is the file name of the fragment `id`.
pub open spec fn names_hold(names: Seq<String>, id: usize) -> bool {
    exists|i: int| 0 <= i < names.len() && #[trigger] names[i]@ == fragment_name(id as nat)
}

/// The ids of the fragment files among the directory entries `names`, in
/// ascending order; other names are not fragments and are left out.
pub fn fragment_ids(names: &Vec<String>) -> (r: Vec<usize>)
    ensures
        strictly_increasing(r@),
        forall|id: usize| r@.contains(id) <==> names_hold(names@, id),
{
    let mut r: Vec<usize> = Vec::new();
    let mut i: usize = 0;
    while i < names.len()
        invariant
            i <= names@.len(),
            strictly_increasing(r@),
            forall|id: usize| r@.contains(id) <==> names_hold(names@.take(i as int), id),
        decreases names@.len() - i,
    {
        let parsed = parse_fragment_name(names[i].as_str());
        let ghost before = r@;
        if let Some(id) = parsed {
            insert_sorted(&mut r, id);
        }
        proof {
            assert forall|id: usize| r@.contains(id) <==> names_hold(names@.take(i + 1), id) by {
                let t = names@.take(i + 1);
                if names_hold(names@.take(i as int), id) {
                    let k = choose|k: int|
                        0 <= k < i && #[trigger] names@.take(i as int)[k]@ == fragment_name(
                            id as nat,
                        );
                    assert(t[k] == names@.take(i as int)[k]);
                }
                if names_hold(t, id) {
                    let k = choose|k: int| 0 <= k < t.len() && #[trigger] t[k]@ == fragment_name(id as nat);
                    if k < i {
                        assert(names@.take(i as int)[k] == t[k]);
                    } else {
                        assert(t[k] == names@[i as int]);
                    }
                }
                if parsed == Some(id) {
                    assert(t[i as int] == names@[i as int]);
                }
            }
        }
        i = i + 1;
    }
    assert(names@.take(names@.len() as int) =~= names@);
    r
}

/// One fragment of a registry: its id and the registry's directory.
pub struct Operation {
    pub id: usize,
    pub opt_dir_path: String,
}

impl Operation {
    pub fn new(id: usize, opt_dir_path: &str) -> (r: Operation)
        ensures
            r.id == id,
            r.opt_dir_path@ == opt_dir_path@,
    {
        Operation { id, opt_dir_path: opt_dir_path.to_owned() }
    }

    /// The path of the fragment's file: `<directory>/opt-<id>.py`.
    pub fn file_path(&self) -> (r: String)
        ensures
            r@ == self.opt_dir_path@ + seq!['/'] + fragment_name(self.id as nat),
    {
        let mut r = self.opt_dir_path.clone();
        r.append("/");
        let name = fragment_file_name(self.id);
        r.append(name.as_str());
        proof {
            reveal_strlit("/");
        }
        assert(r@ =~= self.opt_dir_path@ + seq!['/'] + fragment_name(self.id as nat));
        r
    }

    /// The view a user edits: the runner's init section, the marker line,
    /// then the fragment's stored code, or the default operation when the
    /// fragment has none.
    pub fn user_get_content(&self, template: &OperationTemplate, stored: Option<&str>) -> (r: String)
        ensures
            r@ == edit_view(
                template.init@,
                match stored {
                    Some(c) => c@,
                    None => template.template@,
                },
            ),
    {
        get_operation_temple_python(template, stored)
    }

    /// The code to store for the fragment from an edited view: what follows
    /// the marker line. None when the marker line is gone or nothing
    /// follows it; the fragment's file must then be left as it is.
    pub fn user_write_content<'a>(&self, content: &'a str) -> (r: Option<&'a str>)
        ensures
            r is Some <==> extracted(content@, marker_line(), None) is Ok,
            r matches Some(b) ==> extracted(content@, marker_line(), None) == Ok::<
                Seq<char>,
                ExtractionError,
            >(b@) && b@.len() > 0,
    {
        match get_operation_python(content) {
            Ok(b) => Some(b),
            Err(_) => None,
        }
    }
}

/// The registry of a directory: the index of the fragment ids found there
/// and the data map carried from one pipeline run to the next.
pub struct OperationManager {
    opt_dir_path: String,
    data_map: HashMap<String, String>,
    ids: Vec<usize>,
}

impl OperationManager {
    /// The index: the fragment ids, ascending.
    pub closed spec fn ids_view(&self) -> Seq<usize> {
        self.ids@
    }

    /// The data map carried between runs.
    pub closed spec fn data_map_view(&self) -> Map<String, String> {
        self.data_map@
    }

    /// The registry's directory.
    pub closed spec fn dir_view(&self) -> Seq<char> {
        self.opt_dir_path@
    }

    pub open spec fn wf(&self) -> bool {
        strictly_increasing(self.ids_view())
    }

    /// A registry of `opt_dir_path` with an empty index and data map.
    pub fn new(opt_dir_path: &str) -> (r: OperationManager)
        ensures
            r.wf(),
            r.ids_view() == Seq::<usize>::empty(),
            r.data_map_view() == Map::<String, String>::empty(),
            r.dir_view() == opt_dir_path@,
    {
        OperationManager {
            opt_dir_path: opt_dir_path.to_owned(),
            data_map: HashMap::new(),
            ids: Vec::new(),
        }
    }

    /// Rebuilds the index from the names of the directory's entries.
    pub fn load_ids(&mut self, names: &Vec<String>)
        ensures
            final(self).wf(),
            forall|id: usize| final(self).ids_view().contains(id) <==> names_hold(names@, id),
            final(self).data_map_view() == old(self).data_map_view(),
            final(self).dir_view() == old(self).dir_view(),
    {
        self.ids = fragment_ids(names);
    }

    /// A copy of the data map carried between runs.
    pub fn data_map_clone(&self) -> (r: HashMap<String, String>)
        ensures
            r@ == self.data_map_view(),
    {
        self.data_map.clone()
    }

    /// Replaces the data map carried between runs.
    pub fn set_data_map(&mut self, data_map: HashMap<String, String>)
        ensures
            final(self).data_map_view() == data_map@,
            final(self).ids_view() == old(self).ids_view(),
            final(self).dir_view() == old(self).dir_view(),
    {
        self.data_map = data_map;
    }

    /// The fragment ids, ascending.
    pub fn get_ids(&self) -> (r: Vec<usize>)
        ensures
            r@ == self.ids_view(),
    {
        self.ids.clone()
    }

    /// Where `id` stands in the index, if it is there.
    fn position(&self, id: usize) -> (r: Option<usize>)
        ensures
            r is Some <==> self.ids_view().contains(id),
            r matches Some(p) ==> p < self.ids_view().len() && self.ids_view()[p as int] == id,
    {
        let mut p: usize = 0;
        while p < self.ids.len()
            invariant
                p <= self.ids@.len(),
                forall|k: int| 0 <= k < p ==> self.ids@[k] != id,
            decreases self.ids@.len() - p,
        {
            if self.ids[p] == id {
                return Some(p);
            }
            p = p + 1;
        }
        None
    }

    /// The fragment `id`, when the index holds it.
    pub fn get_operation(&self, id: usize) -> (r: Option<Operation>)
        ensures
            r is Some <==> self.ids_view().contains(id),
            r matches Some(o) ==> o.id == id && o.opt_dir_path@ == self.dir_view(),
    {
        match self.position(id) {
            Some(_) => Some(Operation::new(id, self.opt_dir_path.as_str())),
            None => None,
        }
    }

    /// Reserves `id` for a new fragment. When `id` is taken, every id from
    /// it on moves up by one, largest first: the renames are returned, in
    /// the order to carry them out, and the index shifts alike. The new
    /// fragment has no file until its code is written.
    pub fn insert_operation(&mut self, id: usize) -> (r: (Operation, Vec<FileAction>))
        requires
            old(self).wf(),
            old(self).ids_view().len() == 0 || old(self).ids_view().last() < usize::MAX,
        ensures
            final(self).wf(),
            r.0.id == id,
            r.0.opt_dir_path@ == old(self).dir_view(),
            final(self).data_map_view() == old(self).data_map_view(),
            final(self).dir_view() == old(self).dir_view(),
            !old(self).ids_view().contains(id) ==> r.1@ == Seq::<FileAction>::empty()
                && final(self).ids_view() == old(self).ids_view(),
            forall|p: int|
                0 <= p < old(self).ids_view().len() && old(self).ids_view()[p] == id ==> r.1@
                    == insert_actions(old(self).ids_view(), p) && final(self).ids_view()
                    == shifted_ids(old(self).ids_view(), p),
    {
        let op = Operation::new(id, self.opt_dir_path.as_str());
        match self.position(id) {
            None => (op, Vec::new()),
            Some(p) => {
                let ghost old_ids = self.ids@;
                assert forall|i: int| p <= i < old_ids.len() implies old_ids[i] < usize::MAX by {
                    if i < old_ids.len() - 1 {
                        assert(old_ids[i] < old_ids[old_ids.len() - 1]);
                    }
                }
                let acts = insert_plan(&self.ids, p);
                let n = self.ids.len();
                let mut k: usize = p;
                while k < n
                    invariant
                        n == self.ids@.len(),
                        p <= k <= n,
                        forall|i: int| p <= i < old_ids.len() ==> old_ids[i] < usize::MAX,
                        old_ids.len() == n,
                        self.data_map@ == old(self).data_map@,
                        self.opt_dir_path@ == old(self).opt_dir_path@,
                        self.ids@ =~= shifted_ids(old_ids, p as int).take(k as int) + old_ids.skip(
                            k as int,
                        ),
                    decreases n - k,
                {
                    let x = self.ids[k];
                    self.ids.set(k, x + 1);
                    k = k + 1;
                }
                assert(self.ids@ =~= shifted_ids(old_ids, p as int));
                assert forall|i: int, j: int| 0 <= i < j < n implies self.ids@[i] < self.ids@[j] by {
                    assert(old_ids[i] < old_ids[j]);
                }
                proof {
                    assert forall|q: int| 0 <= q < n && old_ids[q] == id implies q == p by {
                        if q < p {
                            assert(old_ids[q] < old_ids[p as int]);
                        }
                        if q > p {
                            assert(old_ids[p as int] < old_ids[q]);
                        }
                    }
                }
                (op, acts)
            },
        }
    }

    /// Reserves the id that follows a registry numbered from zero: the
    /// number of fragments.
    pub fn add_operation(&mut self) -> (r: (Operation, Vec<FileAction>))
        requires
            old(self).wf(),
            old(self).ids_view().len() == 0 || old(self).ids_view().last() < usize::MAX,
        ensures
            final(self).wf(),
            r.0.id == old(self).ids_view().len(),
            r.0.opt_dir_path@ == old(self).dir_view(),
            final(self).data_map_view() == old(self).data_map_view(),
            final(self).dir_view() == old(self).dir_view(),
            !old(self).ids_view().contains(r.0.id) ==> r.1@ == Seq::<FileAction>::empty()
                && final(self).ids_view() == old(self).ids_view(),
            forall|p: int|
                0 <= p < old(self).ids_view().len() && old(self).ids_view()[p] == r.0.id ==> r.1@
                    == insert_actions(old(self).ids_view(), p) && final(self).ids_view()
                    == shifted_ids(old(self).ids_view(), p),
    {
        let id = self.ids.len();
        self.insert_operation(id)
    }

    /// Closes gaps in the index: unchanged when contiguous, else the ids
    /// become `1..=n` in their order. Returns the renames, largest id first.
    pub fn resort_operations(&mut self) -> (r: Vec<FileAction>)
        requires
            old(self).wf(),
        ensures
            final(self).wf(),
            r@ == resequence_actions(old(self).ids_view()),
            final(self).ids_view() == resequenced(old(self).ids_view()),
            final(self).data_map_view() == old(self).data_map_view(),
            final(self).dir_view() == old(self).dir_view(),
    {
        let acts = resequence_plan(&self.ids);
        if !is_contiguous(&self.ids) {
            let n = self.ids.len();
            let mut fresh: Vec<usize> = Vec::new();
            let mut k: usize = 0;
            while k < n
                invariant
                    n == self.ids@.len(),
                    k <= n,
                    fresh@ =~= resequenced(self.ids@).take(k as int),
                    !contiguous(self.ids@),
                decreases n - k,
            {
                fresh.push(k + 1);
                k = k + 1;
            }
            assert(fresh@ =~= resequenced(self.ids@));
            self.ids = fresh;
        }
        acts
    }

    /// Removes the fragment `id`: None when the index does not hold it.
    /// Else the actions delete its file and resequence the rest, and the
    /// index follows.
    pub fn remove_operation(&mut self, id: usize) -> (r: Option<Vec<FileAction>>)
        requires
            old(self).wf(),
        ensures
            final(self).wf(),
            r is Some <==> old(self).ids_view().contains(id),
            forall|p: int|
                0 <= p < old(self).ids_view().len() && old(self).ids_view()[p] == id ==> (r matches Some(
                    acts) && acts@ == remove_actions(old(self).ids_view(), p)) && final(self).ids_view()
                    == resequenced(old(self).ids_view().remove(p)),
            r is None ==> final(self).ids_view() == old(self).ids_view(),
            final(self).data_map_view() == old(self).data_map_view(),
            final(self).dir_view() == old(self).dir_view(),
    {
        match self.position(id) {
            None => None,
            Some(p) => {
                let ghost old_ids = self.ids@;
                self.ids.remove(p);
                assert forall|i: int, j: int| 0 <= i < j < self.ids@.len() implies self.ids@[i]
                    < self.ids@[j] by {
                    if j < p {
                    } else if i < p {
                        assert(old_ids[i] < old_ids[j + 1]);
                    } else {
                        assert(old_ids[i + 1] < old_ids[j + 1]);
                    }
                }
                let mut acts: Vec<FileAction> = Vec::new();
                acts.push(FileAction::Delete { id });
                let mut rest = self.resort_operations();
                acts.append(&mut rest);
                proof {
                    assert forall|q: int| 0 <= q < old_ids.len() && old_ids[q] == id implies q == p by {
                        if q < p {
                            assert(old_ids[q] < old_ids[p as int]);
                        }
                        if q > p {
                            assert(old_ids[p as int] < old_ids[q]);
                        }
                    }
                }
                Some(acts)
            },
        }
    }
}

} // verus!
