//! The message protocol between traversal workers and the single aggregator,
//! the seen-identity set that deduplicates hard links, and the aggregation of
//! the message stream into per-root totals and an error list.

use vstd::prelude::*;
use crate::filesize::{FilesizeType, Metadata};
use crate::unique_id::{generate_unique_id, spec_unique_id, UniqueID};

verus! {

/// A per-entry failure during traversal. Neither aborts the scan: the entry
/// (or its unread children) simply goes uncounted.
#[derive(Debug, Clone)]
pub enum Error {
    /// The entry's metadata could not be retrieved; no size was counted for
    /// it and it was not recursed into.
    NoMetadataForPath(String),
    /// A directory's children could not be listed; the directory's own entry
    /// still counts, its subtree goes unexplored.
    CouldNotReadDir(String),
}

/// One message from a traversal worker to the aggregator. A root is named by
/// its position in the scan's ordered root list.
#[derive(Debug, Clone)]
pub enum Message {
    /// One visited entry: its optional identity, the root it was discovered
    /// under, and its size contribution.
    SizeEntry(Option<UniqueID>, usize, u64),
    /// A root's entire subtree has been traversed; its total is final.
    FinishedEntry(usize),
    /// A per-entry failure.
    Error { error: Error },
}

/// The key under which an identity is stored: the device number in the high
/// 64 bits, the inode number in the low.
pub open spec fn pack_id(u: UniqueID) -> u128 {
    ((u.device as int) * 0x1_0000_0000_0000_0000 + (u.inode as int)) as u128
}

/// Packing is injective: distinct identities store under distinct keys.
proof fn lemma_pack_injective(a: UniqueID, b: UniqueID)
    requires
        pack_id(a) == pack_id(b),
    ensures
        a == b,
{
    let ka = (a.device as int) * 0x1_0000_0000_0000_0000 + (a.inode as int);
    let kb = (b.device as int) * 0x1_0000_0000_0000_0000 + (b.inode as int);
    assert(0 <= ka < 0x1_0000_0000_0000_0000_0000_0000_0000_0000);
    assert(0 <= kb < 0x1_0000_0000_0000_0000_0000_0000_0000_0000);
    assert(ka == kb);
    assert(a.device == b.device) by (nonlinear_arith)
        requires
            ka == kb,
            ka == (a.device as int) * 0x1_0000_0000_0000_0000 + (a.inode as int),
            kb == (b.device as int) * 0x1_0000_0000_0000_0000 + (b.inode as int),
            (a.inode as int) < 0x1_0000_0000_0000_0000,
            (b.inode as int) < 0x1_0000_0000_0000_0000,
            0 <= (a.inode as int),
            0 <= (b.inode as int),
    ;
    assert(a.inode == b.inode);
}

/// The set of identities already counted in this scan. Grows monotonically
/// for the lifetime of one scan; an identity is counted only on its first
/// insertion.
pub struct SeenSet {
    items: std::collections::HashSet<u128>,
}

impl View for SeenSet {
    type V = Set<UniqueID>;

    closed spec fn view(&self) -> Set<UniqueID> {
        Set::new(|u: UniqueID| self.items@.contains(pack_id(u)))
    }
}

impl SeenSet {
    /// The stored key of an identity.
    fn pack(u: &UniqueID) -> (k: u128)
        ensures
            k == pack_id(*u),
    {
        (u.device as u128) * 0x1_0000_0000_0000_0000u128 + (u.inode as u128)
    }

    /// The empty set: no identity has been counted yet.
    pub fn new() -> (s: SeenSet)
        ensures
            s@ == Set::<UniqueID>::empty(),
    {
        let s = SeenSet { items: std::collections::HashSet::new() };
        proof {
            assert(s@ =~= Set::<UniqueID>::empty());
        }
        s
    }

    /// Membership test.
    pub fn contains(&self, u: &UniqueID) -> (r: bool)
        ensures
            r == self@.contains(*u),
    {
        let k = Self::pack(u);
        let r = self.items.contains(&k);
        proof {
            broadcast use vstd::std_specs::hash::group_hash_axioms;
        }
        r
    }

    /// Inserts an identity; reports whether it was newly seen. First
    /// occurrence wins: only a `true` result lets the caller count the entry.
    pub fn insert(&mut self, u: UniqueID) -> (fresh: bool)
        ensures
            final(self)@ == old(self)@.insert(u),
            fresh == !old(self)@.contains(u),
    {
        let k = Self::pack(&u);
        let fresh = self.items.insert(k);
        proof {
            broadcast use vstd::std_specs::hash::group_hash_axioms;
            assert forall|x: UniqueID| #[trigger] self@.contains(x) == old(self)@.insert(
                u,
            ).contains(x) by {
                if pack_id(x) == pack_id(u) {
                    lemma_pack_injective(x, u);
                }
            }
            assert(self@ =~= old(self)@.insert(u));
        }
        fresh
    }
}

/// The aggregation state, mathematically: which identities have been counted,
/// the running total each root owns (0 until its first counted entry), and
/// the errors in arrival order.
#[verifier::ext_equal]
pub ghost struct AggModel {
    pub seen: Set<UniqueID>,
    pub totals: Seq<int>,
    pub errors: Seq<Error>,
}

/// Whether an entry with identity `id` is counted against its root when the
/// counted identities so far are `seen`: entries without an identity always
/// count, ones with an identity only on its first occurrence.
pub open spec fn counted(seen: Set<UniqueID>, id: Option<UniqueID>) -> bool {
    match id {
        Some(u) => !seen.contains(u),
        None => true,
    }
}

/// How one message changes the aggregation state: a size entry is counted
/// against its root unless its identity was already seen, an error is
/// appended to the error list, and a finished root changes nothing (its
/// total is simply final from that point on).
pub open spec fn step(s: AggModel, msg: Message) -> AggModel {
    match msg {
        Message::SizeEntry(id, root, size) => {
            let seen = match id {
                Some(u) => s.seen.insert(u),
                None => s.seen,
            };
            if counted(s.seen, id) && 0 <= root < s.totals.len() {
                AggModel {
                    seen,
                    totals: s.totals.update(root as int, s.totals[root as int] + size),
                    errors: s.errors,
                }
            } else {
                AggModel { seen, totals: s.totals, errors: s.errors }
            }
        },
        Message::FinishedEntry(_) => s,
        Message::Error { error } => AggModel {
            seen: s.seen,
            totals: s.totals,
            errors: s.errors.push(error),
        },
    }
}

/// The aggregation state before any message: nothing seen, every root owns
/// the total 0, no errors.
pub open spec fn init(num_roots: nat) -> AggModel {
    AggModel {
        seen: Set::empty(),
        totals: Seq::new(num_roots, |i: int| 0),
        errors: Seq::empty(),
    }
}

/// The state after consuming `msgs` from state `s`, strictly in order.
pub open spec fn run_msgs(s: AggModel, msgs: Seq<Message>) -> AggModel
    decreases msgs.len(),
{
    if msgs.len() == 0 {
        s
    } else {
        step(run_msgs(s, msgs.drop_last()), msgs.last())
    }
}

/// The aggregation state a scan over `num_roots` roots reaches after the
/// message stream `msgs`.
pub open spec fn aggregate(num_roots: nat, msgs: Seq<Message>) -> AggModel {
    run_msgs(init(num_roots), msgs)
}

/// Consuming one more message steps the state once.
pub broadcast proof fn lemma_run_msgs_push(s: AggModel, msgs: Seq<Message>, msg: Message)
    ensures
        #[trigger] run_msgs(s, msgs.push(msg)) == step(run_msgs(s, msgs), msg),
{
    assert(msgs.push(msg).drop_last() =~= msgs);
    assert(msgs.push(msg).last() == msg);
}

/// A message is well-formed for a scan when the root it names exists.
pub open spec fn msg_wf(msg: Message, num_roots: nat) -> bool {
    match msg {
        Message::SizeEntry(_, root, _) => root < num_roots,
        Message::FinishedEntry(root) => root < num_roots,
        Message::Error { .. } => true,
    }
}

/// Whether counting `msg` keeps the affected root's total within `u64`:
/// the one machine limit on processing a message.
pub open spec fn can_add(s: AggModel, msg: Message) -> bool {
    match msg {
        Message::SizeEntry(id, root, size) => counted(s.seen, id) && 0 <= root
            < s.totals.len() ==> s.totals[root as int] + size <= u64::MAX,
        _ => true,
    }
}

/// The stored totals, as the model sees them.
pub open spec fn view_totals(ts: Seq<u64>) -> Seq<int> {
    Seq::new(ts.len(), |i: int| ts[i] as int)
}

/// The single-threaded consumer of the message stream: owns the seen-identity
/// set, the per-root running totals and the error list, and is the only point
/// of mutation for them. Its state is always exactly the aggregation of the
/// messages processed so far, in the order they arrived.
pub struct Aggregator {
    seen: SeenSet,
    totals: Vec<u64>,
    errors: Vec<Error>,
    history: Ghost<Seq<Message>>,
}

impl View for Aggregator {
    type V = AggModel;

    closed spec fn view(&self) -> AggModel {
        AggModel { seen: self.seen@, totals: view_totals(self.totals@), errors: self.errors@ }
    }
}

impl Aggregator {
    /// How many roots this scan accounts for.
    pub closed spec fn num_roots(&self) -> nat {
        self.totals@.len()
    }

    /// The messages processed so far, in arrival order.
    pub closed spec fn history(&self) -> Seq<Message> {
        self.history@
    }

    /// The aggregator's state is the aggregation of its history.
    pub closed spec fn inv(&self) -> bool {
        self@ == aggregate(self.num_roots(), self.history@)
    }

    /// A fresh aggregator for a scan over `num_roots` roots.
    pub fn new(num_roots: usize) -> (agg: Aggregator)
        ensures
            agg.inv(),
            agg@ == init(num_roots as nat),
            agg.history() == Seq::<Message>::empty(),
            agg.num_roots() == num_roots,
    {
        let mut totals: Vec<u64> = Vec::new();
        let mut i: usize = 0;
        while i < num_roots
            invariant
                0 <= i <= num_roots,
                totals@.len() == i,
                forall|k: int| 0 <= k < i ==> totals@[k] == 0,
            decreases num_roots - i,
        {
            totals.push(0);
            i = i + 1;
        }
        let agg = Aggregator {
            seen: SeenSet::new(),
            totals,
            errors: Vec::new(),
            history: Ghost(Seq::empty()),
        };
        proof {
            assert(agg@ =~= init(num_roots as nat));
        }
        agg
    }

    /// Consumes one message, in arrival order: this is the whole decision
    /// the aggregator makes, and the new state is a function of the old
    /// state and the message alone.
    pub fn process(&mut self, msg: Message)
        requires
            old(self).inv(),
            msg_wf(msg, old(self).num_roots()),
            can_add(old(self)@, msg),
        ensures
            final(self).inv(),
            final(self)@ == step(old(self)@, msg),
            final(self).history() == old(self).history().push(msg),
            final(self).num_roots() == old(self).num_roots(),
    {
        proof {
            self.history@ = self.history@.push(msg);
        }
        match msg {
            Message::SizeEntry(id, root, size) => {
                let fresh = match id {
                    Some(u) => self.seen.insert(u),
                    None => true,
                };
                if fresh {
                    let updated: u64 = self.totals[root] + size;
                    self.totals[root] = updated;
                }
                proof {
                    assert(self@ =~= step(old(self)@, msg));
                }
            },
            Message::FinishedEntry(_) => {
                proof {
                    assert(self@ =~= step(old(self)@, msg));
                }
            },
            Message::Error { error } => {
                self.errors.push(error);
                proof {
                    assert(self@ =~= step(old(self)@, msg));
                }
            },
        }
        proof {
            lemma_run_msgs_push(
                init(old(self).num_roots()),
                old(self).history@,
                msg,
            );
        }
    }

    /// Whether `process` accepts the message: it names a root of this scan
    /// and counting it cannot push the root's total past `u64::MAX`.
    pub fn accepts(&self, msg: &Message) -> (r: bool)
        requires
            self.inv(),
        ensures
            r == (msg_wf(*msg, self.num_roots()) && can_add(self@, *msg)),
    {
        match msg {
            Message::SizeEntry(id, root, size) => {
                if *root >= self.totals.len() {
                    return false;
                }
                let fresh = match id {
                    Some(u) => !self.seen.contains(u),
                    None => true,
                };
                if fresh {
                    *size <= u64::MAX - self.totals[*root]
                } else {
                    true
                }
            },
            Message::FinishedEntry(root) => *root < self.totals.len(),
            Message::Error { .. } => true,
        }
    }

    /// The number of roots, for callers that index them.
    pub fn root_count(&self) -> (n: usize)
        ensures
            n == self.num_roots(),
    {
        self.totals.len()
    }

    /// A root's running total so far, 0 while nothing has been counted for
    /// it. Once the root's finished-message has arrived, this value is final
    /// and reportable.
    pub fn total_of(&self, root: usize) -> (t: u64)
        requires
            root < self.num_roots(),
        ensures
            t == self@.totals[root as int],
    {
        self.totals[root]
    }

    /// Whether any error has arrived: the scan's results may understate the
    /// true sizes.
    pub fn tainted(&self) -> (r: bool)
        ensures
            r == (self@.errors.len() > 0),
    {
        self.errors.len() > 0
    }

    /// Ends the scan once the message stream is exhausted: every root's
    /// final total — 0 where nothing was counted for it — paired with the
    /// root, in root order, and the complete error list in arrival order.
    pub fn finish(self) -> (r: (Vec<(usize, u64)>, Vec<Error>))
        ensures
            results_view(r.0@) == results_of(self@.totals),
            r.1@ == self@.errors,
    {
        let mut out: Vec<(usize, u64)> = Vec::new();
        let mut i: usize = 0;
        while i < self.totals.len()
            invariant
                0 <= i <= self.totals@.len(),
                out@.len() == i,
                forall|k: int|
                    0 <= k < i ==> (#[trigger] out@[k]).0 == k && out@[k].1 == self.totals@[k],
            decreases self.totals@.len() - i,
        {
            out.push((i, self.totals[i]));
            i = i + 1;
        }
        proof {
            assert(results_view(out@) =~= results_of(view_totals(self.totals@)));
        }
        let Aggregator { seen: _, totals: _, errors, history: _ } = self;
        (out, errors)
    }
}

/// An aggregator's state is a function of its message history alone: the
/// aggregation of that history over its roots.
pub proof fn lemma_state_is_history(a: &Aggregator)
    requires
        a.inv(),
    ensures
        a@ == aggregate(a.num_roots(), a.history()),
{
}

/// The decision the traversal makes for one visited entry: which message
/// describes it, and whether traversal recurses into it. An entry whose
/// metadata was read contributes one size entry and is recursed into exactly
/// when it is a directory; an entry whose metadata could not be read
/// contributes one inaccessible-path error and is not recursed into.
pub fn visit_entry(path: String, root: usize, metadata: Option<Metadata>, filesize_type: FilesizeType) -> (r: (Message, bool))
    requires
        metadata matches Some(m) ==> filesize_type.spec_size(m) <= u64::MAX,
    ensures
        match metadata {
            Some(m) => r.0 == Message::SizeEntry(
                spec_unique_id(m),
                root,
                filesize_type.spec_size(m) as u64,
            ) && r.1 == m.is_dir,
            None => r.0 == (Message::Error { error: Error::NoMetadataForPath(path) }) && !r.1,
        },
{
    match metadata {
        Some(m) => {
            let unique_id = generate_unique_id(&m);
            let size: u64 = filesize_type.size(&m);
            (Message::SizeEntry(unique_id, root, size), m.is_dir)
        },
        None => (Message::Error { error: Error::NoMetadataForPath(path) }, false),
    }
}

/// The message for a directory whose children could not be listed: the
/// directory's own entry has already been counted, its subtree stays
/// unexplored and the scan goes on.
pub fn dir_read_failure(path: String) -> (m: Message)
    ensures
        m == (Message::Error { error: Error::CouldNotReadDir(path) }),
{
    Message::Error { error: Error::CouldNotReadDir(path) }
}

/// The reportable batch results of a finished scan: one `(root, total)` pair
/// for every root, 0-totals included, in root order.
pub open spec fn results_of(totals: Seq<int>) -> Seq<(int, int)> {
    Seq::new(totals.len(), |i: int| (i, totals[i]))
}

/// The pair a result entry denotes, as the model sees it.
pub open spec fn result_pair(p: (usize, u64)) -> (int, int) {
    (p.0 as int, p.1 as int)
}

/// A result list, as the model sees it.
pub open spec fn results_view(s: Seq<(usize, u64)>) -> Seq<(int, int)> {
    s.map_values(|p: (usize, u64)| result_pair(p))
}

/// Whether results are sorted ascending by size.
pub open spec fn sorted_by_size(s: Seq<(usize, u64)>) -> bool {
    forall|i: int, j: int| 0 <= i < j < s.len() ==> (#[trigger] s[i]).1 <= (#[trigger] s[j]).1
}

/// Sum of the reported sizes of a result list.
pub open spec fn sum_sizes_of(s: Seq<(usize, u64)>) -> int
    decreases s.len(),
{
    if s.len() == 0 {
        0
    } else {
        sum_sizes_of(s.drop_last()) + s.last().1
    }
}

/// Sorts a result list ascending by size; the same pairs, as a multiset,
/// come back out.
pub fn sort_by_size(results: &mut Vec<(usize, u64)>)
    ensures
        sorted_by_size(final(results)@),
        final(results)@.to_multiset() == old(results)@.to_multiset(),
{
    let n: usize = results.len();
    if n == 0 {
        return ;
    }
    let mut i: usize = 1;
    while i < n
        invariant
            1 <= i <= n,
            n == results@.len(),
            sorted_by_size(results@.take(i as int)),
            results@.to_multiset() == old(results)@.to_multiset(),
        decreases n - i,
    {
        proof {
            let s = results@;
            assert forall|a: int, b: int|
                0 <= a < b <= i && a != i && b != i implies (#[trigger] s[a]).1
                <= (#[trigger] s[b]).1 by {
                assert(s.take(i as int)[a] == s[a]);
                assert(s.take(i as int)[b] == s[b]);
            }
        }
        let mut j: usize = i;
        while j > 0 && results[j - 1].1 > results[j].1
            invariant
                0 <= j <= i < n,
                n == results@.len(),
                forall|a: int, b: int|
                    0 <= a < b <= i && a != j && b != j ==> (#[trigger] results@[a]).1
                        <= (#[trigger] results@[b]).1,
                forall|b: int| j < b <= i ==> (results@[j as int]).1 < (#[trigger] results@[b]).1,
                results@.to_multiset() == old(results)@.to_multiset(),
            decreases j,
        {
            let ghost pre = results@;
            let lo = results[j - 1];
            let hi = results[j];
            results[j - 1] = hi;
            results[j] = lo;
            proof {
                broadcast use vstd::seq_lib::to_multiset_update;
                broadcast use vstd::seq_lib::group_to_multiset_ensures;
                let u1 = pre.update(j as int - 1, hi);
                assert(pre[j as int - 1] == lo);
                assert(pre.contains(lo));
                assert(pre.to_multiset().count(lo) > 0);
                assert(u1[j as int] == hi);
                assert(u1.contains(hi));
                assert(u1.to_multiset().count(hi) > 0);
                assert(results@ == u1.update(j as int, lo));
                assert(results@.to_multiset() =~= pre.to_multiset());
            }
            j = j - 1;
        }
        proof {
            assert(sorted_by_size(results@.take(i as int + 1)));
        }
        i = i + 1;
    }
    proof {
        assert(results@.take(n as int) =~= results@);
    }
}

/// Sum of the prefixes of a result list never exceeds the full sum.
proof fn lemma_sum_sizes_prefix(s: Seq<(usize, u64)>, k: int)
    requires
        0 <= k <= s.len(),
    ensures
        sum_sizes_of(s.take(k)) <= sum_sizes_of(s),
    decreases s.len(),
{
    if k < s.len() {
        assert(s.drop_last().take(k) =~= s.take(k));
        lemma_sum_sizes_prefix(s.drop_last(), k);
    } else {
        assert(s.take(k) =~= s);
    }
}

/// The grand total of a result list: the sum of all reported sizes, or
/// `None` exactly when that sum does not fit in a `u64`.
pub fn grand_total(results: &Vec<(usize, u64)>) -> (t: Option<u64>)
    ensures
        t is Some <==> sum_sizes_of(results@) <= u64::MAX,
        t matches Some(v) ==> v == sum_sizes_of(results@),
{
    let mut acc: u64 = 0;
    let mut i: usize = 0;
    while i < results.len()
        invariant
            0 <= i <= results@.len(),
            acc == sum_sizes_of(results@.take(i as int)),
        decreases results@.len() - i,
    {
        let size: u64 = results[i].1;
        proof {
            assert(results@.take(i as int + 1).drop_last() =~= results@.take(i as int));
            assert(results@.take(i as int + 1).last() == results@[i as int]);
        }
        if size > u64::MAX - acc {
            proof {
                lemma_sum_sizes_prefix(results@, i as int + 1);
            }
            return None;
        }
        acc = acc + size;
        i = i + 1;
    }
    proof {
        assert(results@.take(results@.len() as int) =~= results@);
    }
    Some(acc)
}

/// The scan configuration: the ordered list of top-level paths to account
/// for, the number of worker threads to traverse with, and the size mode.
pub struct Walk {
    pub root_directories: Vec<String>,
    pub num_threads: usize,
    pub filesize_type: FilesizeType,
}

impl Walk {
    /// Packages a scan configuration unchanged.
    pub fn new(root_directories: Vec<String>, num_threads: usize, filesize_type: FilesizeType) -> (w: Walk)
        ensures
            w.root_directories == root_directories,
            w.num_threads == num_threads,
            w.filesize_type == filesize_type,
    {
        Walk { root_directories, num_threads, filesize_type }
    }
}

} // verus!
