//! The guarantees the aggregation gives over whole message streams: totals
//! without hard links are exact sums, a hard-linked inode counts once, errors
//! never disturb totals, aggregation is deterministic, and roots are
//! independent when they share no inodes.

use vstd::prelude::*;
use crate::unique_id::UniqueID;
use crate::walk::{
    aggregate, init, lemma_run_msgs_push, run_msgs, step, AggModel, Aggregator, Error, Message,
};

verus! {

/// The identity a message carries, if it is a size entry with one.
pub open spec fn msg_id(m: Message) -> Option<UniqueID> {
    match m {
        Message::SizeEntry(id, _, _) => id,
        _ => None,
    }
}

/// All identities that occur anywhere in a stream.
pub open spec fn ids_set(msgs: Seq<Message>) -> Set<UniqueID> {
    Set::new(
        |u: UniqueID|
            exists|i: int| 0 <= i < msgs.len() && msg_id(#[trigger] msgs[i]) == Some(u),
    )
}

/// No identity occurs in two messages of the stream: the scanned trees hold
/// no hard links.
pub open spec fn distinct_ids(msgs: Seq<Message>) -> bool {
    forall|i: int, j: int|
        0 <= i < j < msgs.len() && msg_id(#[trigger] msgs[i]) is Some ==> msg_id(msgs[i])
            != msg_id(#[trigger] msgs[j])
}

/// Whether a message is a size entry discovered under the given root.
pub open spec fn entry_for_root(m: Message, root: int) -> bool {
    match m {
        Message::SizeEntry(_, r, _) => r == root,
        _ => false,
    }
}

/// The size a message reports, zero for non-entries.
pub open spec fn entry_size(m: Message) -> int {
    match m {
        Message::SizeEntry(_, _, size) => size as int,
        _ => 0,
    }
}

/// Sum of all sizes reported for one root, duplicates included.
pub open spec fn sum_root_sizes(msgs: Seq<Message>, root: int) -> int
    decreases msgs.len(),
{
    if msgs.len() == 0 {
        0
    } else {
        sum_root_sizes(msgs.drop_last(), root) + if entry_for_root(msgs.last(), root) {
            entry_size(msgs.last())
        } else {
            0
        }
    }
}

/// The errors a stream carries, in arrival order.
pub open spec fn errors_of(msgs: Seq<Message>) -> Seq<Error>
    decreases msgs.len(),
{
    if msgs.len() == 0 {
        Seq::empty()
    } else {
        let prefix = errors_of(msgs.drop_last());
        match msgs.last() {
            Message::Error { error } => prefix.push(error),
            _ => prefix,
        }
    }
}

/// The subsequence of size entries discovered under one root: the stream
/// that scanning that root alone would aggregate.
pub open spec fn restrict_to_root(msgs: Seq<Message>, root: int) -> Seq<Message>
    decreases msgs.len(),
{
    if msgs.len() == 0 {
        Seq::empty()
    } else {
        let prefix = restrict_to_root(msgs.drop_last(), root);
        if entry_for_root(msgs.last(), root) {
            prefix.push(msgs.last())
        } else {
            prefix
        }
    }
}

/// No identity of a size entry under `root` occurs in a size entry under any
/// other root: the root's subtree shares no inode with the rest of the scan.
pub open spec fn foreign_ids_disjoint(msgs: Seq<Message>, root: int) -> bool {
    forall|i: int, j: int|
        0 <= i < msgs.len() && 0 <= j < msgs.len() && entry_for_root(#[trigger] msgs[i], root)
            && !entry_for_root(#[trigger] msgs[j], root) && msg_id(msgs[i]) is Some ==> msg_id(
            msgs[i],
        ) != msg_id(msgs[j])
}

/// Aggregation never changes how many roots are accounted.
pub proof fn lemma_run_totals_len(s: AggModel, msgs: Seq<Message>)
    ensures
        run_msgs(s, msgs).totals.len() == s.totals.len(),
    decreases msgs.len(),
{
    if msgs.len() > 0 {
        lemma_run_totals_len(s, msgs.drop_last());
    }
}

/// After aggregating a stream, the seen set is exactly the set of
/// identities the stream carries.
pub proof fn lemma_seen_is_ids(num_roots: nat, msgs: Seq<Message>)
    ensures
        aggregate(num_roots, msgs).seen == ids_set(msgs),
    decreases msgs.len(),
{
    if msgs.len() == 0 {
        assert(aggregate(num_roots, msgs).seen =~= ids_set(msgs));
    } else {
        let prefix = msgs.drop_last();
        let m = msgs.last();
        lemma_seen_is_ids(num_roots, prefix);
        let s = aggregate(num_roots, msgs);
        assert forall|u: UniqueID| ids_set(msgs).contains(u) implies s.seen.contains(u) by {
            let i = choose|i: int| 0 <= i < msgs.len() && msg_id(#[trigger] msgs[i]) == Some(u);
            if i < msgs.len() - 1 {
                assert(prefix[i] == msgs[i]);
                assert(ids_set(prefix).contains(u));
            } else {
                assert(msg_id(m) == Some(u));
            }
        }
        assert forall|u: UniqueID| s.seen.contains(u) implies ids_set(msgs).contains(u) by {
            if ids_set(prefix).contains(u) {
                let i = choose|i: int| 0 <= i < prefix.len() && msg_id(#[trigger] prefix[i])
                    == Some(u);
                assert(msgs[i] == prefix[i]);
                assert(msg_id(msgs[i]) == Some(u));
            } else {
                assert(msg_id(m) == Some(u));
                assert(msg_id(msgs[msgs.len() - 1]) == Some(u));
            }
        }
        assert(s.seen =~= ids_set(msgs));
    }
}

/// In a stream without repeated identities — a tree without hard links —
/// every size entry is counted, so each root's total is exactly the sum of
/// the sizes reported for it. With apparent sizes those are the logical byte
/// lengths, so the total is exactly the tree's logical size.
pub proof fn lemma_total_without_hardlinks(num_roots: nat, msgs: Seq<Message>, root: int)
    requires
        distinct_ids(msgs),
        0 <= root < num_roots,
    ensures
        aggregate(num_roots, msgs).totals[root] == sum_root_sizes(msgs, root),
    decreases msgs.len(),
{
    lemma_run_totals_len(init(num_roots), msgs);
    if msgs.len() > 0 {
        let prefix = msgs.drop_last();
        let m = msgs.last();
        assert(distinct_ids(prefix)) by {
            assert forall|i: int, j: int|
                0 <= i < j < prefix.len() && msg_id(#[trigger] prefix[i]) is Some implies msg_id(
                prefix[i],
            ) != msg_id(#[trigger] prefix[j]) by {
                assert(prefix[i] == msgs[i]);
                assert(prefix[j] == msgs[j]);
            }
        }
        lemma_total_without_hardlinks(num_roots, prefix, root);
        lemma_run_totals_len(init(num_roots), prefix);
        let s = aggregate(num_roots, prefix);
        match m {
            Message::SizeEntry(id, r, size) => {
                match id {
                    Some(u) => {
                        lemma_seen_is_ids(num_roots, prefix);
                        assert(!ids_set(prefix).contains(u)) by {
                            if ids_set(prefix).contains(u) {
                                let i = choose|i: int|
                                    0 <= i < prefix.len() && msg_id(#[trigger] prefix[i]) == Some(
                                        u,
                                    );
                                assert(msgs[i] == prefix[i]);
                                assert(msg_id(msgs[i]) == Some(u));
                                assert(msg_id(msgs[msgs.len() - 1]) == Some(u));
                                assert(false);
                            }
                        }
                    },
                    None => {},
                }
            },
            _ => {},
        }
    }
}

/// A root's reported sizes sum piecewise.
proof fn lemma_sum_root_sizes_concat(a: Seq<Message>, b: Seq<Message>, root: int)
    ensures
        sum_root_sizes(a + b, root) == sum_root_sizes(a, root) + sum_root_sizes(b, root),
    decreases b.len(),
{
    if b.len() == 0 {
        assert(a + b =~= a);
    } else {
        lemma_sum_root_sizes_concat(a, b.drop_last(), root);
        assert((a + b).drop_last() =~= a + b.drop_last());
        assert((a + b).last() == b.last());
    }
}

/// A scan that loses a subtree — an unreadable directory's descendants are
/// never visited — reports for each root exactly what the fully-readable
/// scan would, minus the lost entries' sizes, while everything visited (the
/// unreadable directory's own entry included) still counts. Stated for
/// streams in which no identity repeats: with a hard link between the lost
/// subtree and a visited entry, the exact subtraction cannot hold of
/// first-occurrence-wins deduplication.
pub proof fn lemma_lost_subtree_excluded(
    num_roots: nat,
    visited: Seq<Message>,
    lost: Seq<Message>,
    root: int,
)
    requires
        distinct_ids(visited + lost),
        0 <= root < num_roots,
    ensures
        aggregate(num_roots, visited).totals[root] == aggregate(
            num_roots,
            visited + lost,
        ).totals[root] - sum_root_sizes(lost, root),
{
    let whole = visited + lost;
    assert(distinct_ids(visited)) by {
        assert forall|i: int, j: int|
            0 <= i < j < visited.len() && msg_id(#[trigger] visited[i]) is Some implies msg_id(
            visited[i],
        ) != msg_id(#[trigger] visited[j]) by {
            assert(whole[i] == visited[i]);
            assert(whole[j] == visited[j]);
        }
    }
    lemma_total_without_hardlinks(num_roots, visited, root);
    lemma_total_without_hardlinks(num_roots, whole, root);
    lemma_sum_root_sizes_concat(visited, lost, root);
}

/// Consuming a stream piecewise is consuming it whole.
pub proof fn lemma_run_msgs_concat(s: AggModel, a: Seq<Message>, b: Seq<Message>)
    ensures
        run_msgs(s, a + b) == run_msgs(run_msgs(s, a), b),
    decreases b.len(),
{
    if b.len() == 0 {
        assert(a + b =~= a);
    } else {
        lemma_run_msgs_concat(s, a, b.drop_last());
        assert((a + b).drop_last() =~= a + b.drop_last());
        assert((a + b).last() == b.last());
    }
}

/// A size entry whose identity occurred earlier in the stream changes
/// nothing at all: a hard-linked inode is counted exactly once, for
/// whichever root discovered it first, however many links it has.
pub proof fn lemma_duplicate_entry_ignored(num_roots: nat, msgs: Seq<Message>, j: int)
    requires
        0 <= j < msgs.len(),
        msg_id(msgs[j]) is Some,
        exists|i: int| 0 <= i < j && msg_id(#[trigger] msgs[i]) == msg_id(msgs[j]),
    ensures
        aggregate(num_roots, msgs) == aggregate(num_roots, msgs.remove(j)),
{
    let u = msg_id(msgs[j])->Some_0;
    assert(msg_id(msgs[j]) == Some(u));
    let i = choose|i: int| 0 <= i < j && msg_id(#[trigger] msgs[i]) == msg_id(msgs[j]);
    let a = msgs.take(j);
    let b = msgs.skip(j + 1);
    let one = seq![msgs[j]];
    assert(msgs =~= a + (one + b));
    lemma_run_msgs_concat(init(num_roots), a, one + b);
    lemma_run_msgs_concat(run_msgs(init(num_roots), a), one, b);
    let s_j = aggregate(num_roots, a);
    lemma_seen_is_ids(num_roots, a);
    assert(ids_set(a).contains(u)) by {
        assert(a[i] == msgs[i]);
        assert(msg_id(a[i]) == Some(u));
    }
    assert(msgs[j] is SizeEntry);
    let root_j = msgs[j]->SizeEntry_1;
    let size_j = msgs[j]->SizeEntry_2;
    assert(msgs[j] == Message::SizeEntry(Some(u), root_j, size_j));
    assert(run_msgs(s_j, one) == s_j) by {
        assert(one =~= Seq::<Message>::empty().push(msgs[j]));
        lemma_run_msgs_push(s_j, Seq::empty(), msgs[j]);
        assert(run_msgs(s_j, Seq::<Message>::empty()) == s_j);
        assert(s_j.seen.contains(u));
        assert(s_j.seen.insert(u) =~= s_j.seen);
        assert(step(s_j, msgs[j]) =~= s_j);
    }
    assert(msgs.remove(j) =~= a + b);
    lemma_run_msgs_concat(init(num_roots), a, b);
}

/// An error aborts nothing and disturbs nothing: it is appended to the error
/// list, and the seen set and every total stay exactly as they were.
pub proof fn lemma_error_keeps_totals(s: AggModel, e: Error)
    ensures
        step(s, (Message::Error { error: e })).totals == s.totals,
        step(s, (Message::Error { error: e })).seen == s.seen,
        step(s, (Message::Error { error: e })).errors == s.errors.push(e),
{
}

/// The error list of a finished scan is exactly the stream's errors, in
/// arrival order: every failure is reported, none twice.
pub proof fn lemma_errors_in_order(num_roots: nat, msgs: Seq<Message>)
    ensures
        aggregate(num_roots, msgs).errors == errors_of(msgs),
    decreases msgs.len(),
{
    if msgs.len() > 0 {
        lemma_errors_in_order(num_roots, msgs.drop_last());
    }
}

/// Restricting a stream to one root introduces no identity that the whole
/// stream does not carry.
proof fn lemma_restrict_ids_subset(msgs: Seq<Message>, root: int)
    ensures
        ids_set(restrict_to_root(msgs, root)).subset_of(ids_set(msgs)),
    decreases msgs.len(),
{
    let r = restrict_to_root(msgs, root);
    if msgs.len() > 0 {
        let prefix = msgs.drop_last();
        let rp = restrict_to_root(prefix, root);
        lemma_restrict_ids_subset(prefix, root);
        assert forall|u: UniqueID| ids_set(r).contains(u) implies ids_set(msgs).contains(u) by {
            let k = choose|k: int| 0 <= k < r.len() && msg_id(#[trigger] r[k]) == Some(u);
            let kept = entry_for_root(msgs.last(), root);
            if kept && k == r.len() - 1 {
                assert(r[k] == msgs.last());
                assert(msg_id(msgs[msgs.len() - 1]) == Some(u));
            } else {
                assert(rp[k] == r[k]);
                assert(ids_set(rp).contains(u));
                assert(ids_set(prefix).contains(u));
                let i = choose|i: int|
                    0 <= i < prefix.len() && msg_id(#[trigger] prefix[i]) == Some(u);
                assert(msgs[i] == prefix[i]);
                assert(msg_id(msgs[i]) == Some(u));
            }
        }
    }
}

/// Every identity of a size entry under `root` survives the restriction of
/// the stream to that root.
proof fn lemma_restrict_keeps_ids(msgs: Seq<Message>, root: int, i: int)
    requires
        0 <= i < msgs.len(),
        entry_for_root(msgs[i], root),
        msg_id(msgs[i]) is Some,
    ensures
        ids_set(restrict_to_root(msgs, root)).contains(msg_id(msgs[i])->Some_0),
    decreases msgs.len(),
{
    let u = msg_id(msgs[i])->Some_0;
    let r = restrict_to_root(msgs, root);
    let prefix = msgs.drop_last();
    let rp = restrict_to_root(prefix, root);
    if i == msgs.len() - 1 {
        assert(r == rp.push(msgs[i]));
        assert(msg_id(r[r.len() - 1]) == Some(u));
        assert(ids_set(r).contains(u));
    } else {
        assert(prefix[i] == msgs[i]);
        lemma_restrict_keeps_ids(prefix, root, i);
        assert(ids_set(rp).contains(u));
        let k = choose|k: int| 0 <= k < rp.len() && msg_id(#[trigger] rp[k]) == Some(u);
        if entry_for_root(msgs.last(), root) {
            assert(r == rp.push(msgs.last()));
            assert(r[k] == rp[k]);
            assert(msg_id(r[k]) == Some(u));
        } else {
            assert(r == rp);
        }
        assert(ids_set(r).contains(u));
    }
}

/// Scanning several roots together credits a root with exactly what scanning
/// it alone would, when its subtree shares no inode with the rest of the
/// scan: its total depends only on its own size entries.
pub proof fn lemma_root_independence(num_roots: nat, msgs: Seq<Message>, root: int)
    requires
        0 <= root < num_roots,
        foreign_ids_disjoint(msgs, root),
    ensures
        aggregate(num_roots, msgs).totals[root] == aggregate(
            num_roots,
            restrict_to_root(msgs, root),
        ).totals[root],
    decreases msgs.len(),
{
    if msgs.len() > 0 {
        let prefix = msgs.drop_last();
        let m = msgs.last();
        assert(foreign_ids_disjoint(prefix, root)) by {
            assert forall|i: int, j: int|
                0 <= i < prefix.len() && 0 <= j < prefix.len() && entry_for_root(
                    #[trigger] prefix[i],
                    root,
                ) && !entry_for_root(#[trigger] prefix[j], root) && msg_id(prefix[i])
                    is Some implies msg_id(prefix[i]) != msg_id(prefix[j]) by {
                assert(prefix[i] == msgs[i]);
                assert(prefix[j] == msgs[j]);
            }
        }
        lemma_root_independence(num_roots, prefix, root);
        let rp = restrict_to_root(prefix, root);
        let s_full = aggregate(num_roots, prefix);
        let s_restr = aggregate(num_roots, rp);
        lemma_run_totals_len(init(num_roots), prefix);
        lemma_run_totals_len(init(num_roots), rp);
        if entry_for_root(m, root) {
            assert(m is SizeEntry);
            let id = msg_id(m);
            assert(restrict_to_root(msgs, root) == rp.push(m));
            lemma_run_msgs_push(init(num_roots), rp, m);
            match id {
                Some(u) => {
                    lemma_seen_is_ids(num_roots, prefix);
                    lemma_seen_is_ids(num_roots, rp);
                    lemma_restrict_ids_subset(prefix, root);
                    if ids_set(prefix).contains(u) {
                        let i = choose|i: int|
                            0 <= i < prefix.len() && msg_id(#[trigger] prefix[i]) == Some(u);
                        assert(msgs[i] == prefix[i]);
                        assert(msg_id(msgs[i]) == Some(u));
                        assert(msg_id(msgs[msgs.len() - 1]) == Some(u));
                        assert(entry_for_root(msgs[i], root));
                        lemma_restrict_keeps_ids(prefix, root, i);
                        assert(ids_set(rp).contains(u));
                    }
                    assert(s_full.seen.contains(u) == s_restr.seen.contains(u));
                },
                None => {},
            }
        } else {
            assert(restrict_to_root(msgs, root) == rp);
        }
    }
}

/// When roots do share inodes, the combined scan can only credit a root with
/// at most what scanning it alone would: deduplication applies within one
/// scan's seen set, never adds.
pub proof fn lemma_combined_total_bounded(num_roots: nat, msgs: Seq<Message>, root: int)
    requires
        0 <= root < num_roots,
    ensures
        aggregate(num_roots, msgs).totals[root] <= aggregate(
            num_roots,
            restrict_to_root(msgs, root),
        ).totals[root],
    decreases msgs.len(),
{
    if msgs.len() > 0 {
        let prefix = msgs.drop_last();
        let m = msgs.last();
        lemma_combined_total_bounded(num_roots, prefix, root);
        let rp = restrict_to_root(prefix, root);
        let s_full = aggregate(num_roots, prefix);
        let s_restr = aggregate(num_roots, rp);
        lemma_run_totals_len(init(num_roots), prefix);
        lemma_run_totals_len(init(num_roots), rp);
        if entry_for_root(m, root) {
            assert(m is SizeEntry);
            assert(restrict_to_root(msgs, root) == rp.push(m));
            lemma_run_msgs_push(init(num_roots), rp, m);
            match msg_id(m) {
                Some(u) => {
                    lemma_seen_is_ids(num_roots, prefix);
                    lemma_seen_is_ids(num_roots, rp);
                    lemma_restrict_ids_subset(prefix, root);
                    assert(!s_full.seen.contains(u) ==> !s_restr.seen.contains(u));
                },
                None => {},
            }
        } else {
            assert(restrict_to_root(msgs, root) == rp);
        }
    }
}

/// Removing one message removes exactly its contribution from a root's sum.
proof fn lemma_sum_root_sizes_remove(msgs: Seq<Message>, i: int, root: int)
    requires
        0 <= i < msgs.len(),
    ensures
        sum_root_sizes(msgs.remove(i), root) == sum_root_sizes(msgs, root) - (
        if entry_for_root(msgs[i], root) {
            entry_size(msgs[i])
        } else {
            0
        }),
    decreases msgs.len(),
{
    if i == msgs.len() - 1 {
        assert(msgs.remove(i) =~= msgs.drop_last());
    } else {
        lemma_sum_root_sizes_remove(msgs.drop_last(), i, root);
        assert(msgs.remove(i).drop_last() =~= msgs.drop_last().remove(i));
        assert(msgs.remove(i).last() == msgs.last());
        assert(msgs.drop_last()[i] == msgs[i]);
    }
}

/// A root's sum of reported sizes depends only on which messages occur, not
/// on the order they arrive in.
proof fn lemma_sum_root_sizes_permutation(m1: Seq<Message>, m2: Seq<Message>, root: int)
    requires
        m1.to_multiset() == m2.to_multiset(),
    ensures
        sum_root_sizes(m1, root) == sum_root_sizes(m2, root),
    decreases m1.len(),
{
    broadcast use vstd::seq_lib::group_to_multiset_ensures;

    if m1.len() == 0 {
        assert(m1.to_multiset().len() == 0);
        assert(m2.to_multiset().len() == m2.len());
        assert(m2.len() == 0);
    } else {
        let last = m1.last();
        assert(m1.contains(last));
        assert(m1.to_multiset().count(last) > 0);
        assert(m2.to_multiset().count(last) > 0);
        assert(m2.contains(last));
        let i = choose|i: int| 0 <= i < m2.len() && m2[i] == last;
        assert(m1.drop_last().push(last) =~= m1);
        assert(m1.drop_last().to_multiset() =~= m1.to_multiset().remove(last));
        assert(m2.remove(i).to_multiset() =~= m2.to_multiset().remove(last));
        lemma_sum_root_sizes_permutation(m1.drop_last(), m2.remove(i), root);
        lemma_sum_root_sizes_remove(m2, i, root);
    }
}

/// For streams without repeated identities, arrival order is irrelevant: any
/// interleaving of the same messages yields the same totals, so re-running a
/// scan of an unmodified, hard-link-free tree gives identical totals however
/// the workers' messages interleave. (With an inode hard-linked under two
/// roots, the totals genuinely depend on which root's entry arrives first,
/// so the statement cannot hold unconditionally.)
pub proof fn lemma_order_irrelevant_without_hardlinks(
    num_roots: nat,
    m1: Seq<Message>,
    m2: Seq<Message>,
    root: int,
)
    requires
        distinct_ids(m1),
        distinct_ids(m2),
        m1.to_multiset() == m2.to_multiset(),
        0 <= root < num_roots,
    ensures
        aggregate(num_roots, m1).totals[root] == aggregate(num_roots, m2).totals[root],
{
    lemma_total_without_hardlinks(num_roots, m1, root);
    lemma_total_without_hardlinks(num_roots, m2, root);
    lemma_sum_root_sizes_permutation(m1, m2, root);
}

/// Aggregation is deterministic: two aggregators that consumed the same
/// message stream over the same number of roots hold identical seen sets,
/// totals and error lists. Scanning an unmodified tree twice therefore
/// yields identical totals.
pub proof fn lemma_scan_deterministic(a1: &Aggregator, a2: &Aggregator)
    requires
        a1.inv(),
        a2.inv(),
        a1.num_roots() == a2.num_roots(),
        a1.history() == a2.history(),
    ensures
        a1@ == a2@,
{
    crate::walk::lemma_state_is_history(a1);
    crate::walk::lemma_state_is_history(a2);
}

} // verus!
