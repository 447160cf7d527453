//! Revision-history resolution over a snapshot of the mutation graph.
//!
//! Every record lives in an append-only store as a chain of immutable
//! nodes: an origination, then updates (or a deletion) each referencing
//! the node it supersedes. Resolution walks predecessor links backward to
//! the original revision and successor links forward to the latest one,
//! counting the hops, and assembles the consolidated metadata record.
//!
//! The store itself is a distributed system reached through a read port;
//! resolution here runs against a [`Store`] value holding the snapshot of
//! its state that those reads returned. Results are deterministic for a
//! fixed snapshot; concurrent writers may make successive snapshots (and
//! so successive resolutions) differ.

use vstd::prelude::*;

use crate::DataIntegrityError;

verus! {

/// Distributed-validation outcome for a node at query time.
#[derive(Clone, Copy, Debug, PartialEq, Eq, Structural)]
pub enum ValidationStatus {
    Valid,
    Rejected,
    Pending,
}

/// The shape of a node in the mutation graph.
///
/// A predecessor of `None` inside an update or a deletion stands for a
/// reference whose target has become unreachable in the store; it is
/// tolerated and treated as "no previous revision".
#[derive(Clone, Copy, Debug, PartialEq, Eq, Structural)]
pub enum NodeShape {
    /// First revision of a record: no predecessor.
    Origination,
    /// A revision superseding its predecessor.
    Update { predecessor: Option<usize> },
    /// A revision removing its predecessor.
    Deletion { predecessor: Option<usize> },
    /// Any other node shape; never a legal revision.
    Other,
}

/// An immutable node of the mutation graph, as the store reports it:
/// shape, author-assigned creation time, author, and validation status.
#[derive(Clone, Copy, Debug, PartialEq, Eq, Structural)]
pub struct Node {
    pub shape: NodeShape,
    /// Creation time assigned by the node's author, in microseconds.
    pub timestamp: i64,
    /// Identifier of the agent who authored the node.
    pub author: u64,
    pub validation: ValidationStatus,
}

/// Metadata for a specific revision of a record: its id, creation time
/// and author.
#[derive(Clone, Copy, Debug, PartialEq, Eq, Structural)]
pub struct RevisionMeta {
    pub id: usize,
    pub time: i64,
    pub author: u64,
}

/// Consolidated revision metadata for a record, derived on demand from a
/// store snapshot and never persisted.
#[derive(Clone, Copy, Debug, PartialEq, Eq)]
pub struct RecordMeta {
    pub original_revision: RevisionMeta,
    pub previous_revision: Option<RevisionMeta>,
    pub previous_revisions_count: u32,
    pub latest_revision: RevisionMeta,
    pub future_revisions_count: u32,
    pub current_revision: RevisionMeta,
}

/// A snapshot of the mutation graph: the nodes in order of creation, a
/// node's id being its position. Since the store is append-only, a
/// resolvable predecessor reference always points at an earlier node.
pub struct Store {
    nodes: Vec<Node>,
}

impl View for Store {
    type V = Seq<Node>;

    closed spec fn view(&self) -> Seq<Node> {
        self.nodes@
    }
}

/// The predecessor reference a node's shape carries, resolved or not.
pub open spec fn pred_ref(n: Node) -> Option<usize> {
    match n.shape {
        NodeShape::Origination => None,
        NodeShape::Update { predecessor } => predecessor,
        NodeShape::Deletion { predecessor } => predecessor,
        NodeShape::Other => None,
    }
}

/// Well-formedness of a snapshot: every resolvable predecessor reference
/// points at an earlier node, and the node count fits the revision
/// counters.
pub open spec fn store_wf(s: Seq<Node>) -> bool {
    &&& s.len() <= 0xFFFF_FFFF
    &&& forall|i: int|
        0 <= i < s.len() ==> (#[trigger] pred_ref(s[i]) matches Some(p) ==> (p as int) < i)
}

/// One step backward from node `i`: its predecessor, when the reference
/// resolves to an earlier node.
pub open spec fn step_back(s: Seq<Node>, i: int) -> Option<int> {
    match pred_ref(s[i]) {
        Some(p) => if (p as int) < i {
            Some(p as int)
        } else {
            None
        },
        None => None,
    }
}

/// The original revision reached from node `i` by following predecessor
/// links backward.
pub open spec fn orig_of(s: Seq<Node>, i: int) -> int
    decreases i,
{
    match step_back(s, i) {
        Some(p) => orig_of(s, p),
        None => i,
    }
}

/// The number of predecessor hops from node `i` back to its original
/// revision.
pub open spec fn back_count(s: Seq<Node>, i: int) -> nat
    decreases i,
{
    match step_back(s, i) {
        Some(p) => 1 + back_count(s, p),
        None => 0,
    }
}

/// The node's shape matches a known kind of revision.
pub open spec fn shape_ok(n: Node) -> bool {
    !(n.shape is Other)
}

/// Every node on the backward chain from `i` (itself included) has a
/// legal revision shape.
pub open spec fn back_ok(s: Seq<Node>, i: int) -> bool
    decreases i,
{
    shape_ok(s[i]) && match step_back(s, i) {
        Some(p) => back_ok(s, p),
        None => true,
    }
}

/// Node `j` is an update whose predecessor reference resolves to `i`.
pub open spec fn is_update_of(s: Seq<Node>, j: int, i: int) -> bool {
    &&& 0 <= j < s.len()
    &&& s[j].shape matches NodeShape::Update { predecessor: Some(p) } && p as int == i
}

/// The update of node `i` with the most recent timestamp among the nodes
/// below position `k`, later position winning ties; `None` when there is
/// no such update.
pub open spec fn best_succ_upto(s: Seq<Node>, i: int, k: int) -> Option<int>
    decreases k,
{
    if k <= 0 {
        None
    } else {
        let rest = best_succ_upto(s, i, k - 1);
        if is_update_of(s, k - 1, i) {
            match rest {
                None => Some(k - 1),
                Some(b) => if s[k - 1].timestamp >= s[b].timestamp {
                    Some(k - 1)
                } else {
                    Some(b)
                },
            }
        } else {
            rest
        }
    }
}

/// The branch head among node `i`'s updates: the most recent one by
/// timestamp. No divergence detection is made here: concurrent updates
/// are resolved by this time-ordering tie-break alone.
pub open spec fn best_succ(s: Seq<Node>, i: int) -> Option<int> {
    best_succ_upto(s, i, s.len() as int)
}

/// What `best_succ_upto` returns is an update of `i` below `k`.
pub proof fn lemma_best_succ_upto_props(s: Seq<Node>, i: int, k: int)
    ensures
        best_succ_upto(s, i, k) matches Some(j) ==> is_update_of(s, j, i) && j < k,
    decreases k,
{
    if k > 0 {
        lemma_best_succ_upto_props(s, i, k - 1);
    }
}

/// The forward walk from node `i` along branch heads: the latest
/// revision reached, the number of hops, and whether every head on the
/// way had a valid status.
pub open spec fn forward_walk(s: Seq<Node>, i: int) -> (int, nat, bool)
    decreases s.len() - i,
    when store_wf(s) && 0 <= i < s.len()
    via forward_walk_decreases
{
    match best_succ(s, i) {
        None => (i, 0nat, true),
        Some(j) => {
            let rest = forward_walk(s, j);
            (rest.0, rest.1 + 1, rest.2 && s[j].validation == ValidationStatus::Valid)
        },
    }
}

/// In a well-formed snapshot the branch head, being an update of `i`,
/// sits at a later position than `i`.
pub proof fn lemma_best_succ_gt(s: Seq<Node>, i: int)
    requires
        store_wf(s),
        0 <= i < s.len(),
    ensures
        best_succ(s, i) matches Some(j) ==> i < j < s.len(),
{
    lemma_best_succ_upto_props(s, i, s.len() as int);
    if let Some(j) = best_succ(s, i) {
        assert(is_update_of(s, j, i));
        assert(pred_ref(s[j]) matches Some(p) && p as int == i);
    }
}

#[via_fn]
proof fn forward_walk_decreases(s: Seq<Node>, i: int) {
    lemma_best_succ_gt(s, i);
}

/// The latest revision reached forward from node `i`.
pub open spec fn latest_of(s: Seq<Node>, i: int) -> int {
    forward_walk(s, i).0
}

/// The number of successor hops from node `i` to its latest revision.
pub open spec fn fwd_count(s: Seq<Node>, i: int) -> nat {
    forward_walk(s, i).1
}

/// Every branch head on the forward walk from node `i` has a valid
/// status.
pub open spec fn fwd_ok(s: Seq<Node>, i: int) -> bool {
    forward_walk(s, i).2
}

/// The revision metadata of node `i`.
pub open spec fn rev_meta_spec(s: Seq<Node>, i: int) -> RevisionMeta {
    RevisionMeta { id: i as usize, time: s[i].timestamp, author: s[i].author }
}

/// The consolidated metadata record for node `at`.
pub open spec fn record_meta_spec(s: Seq<Node>, at: int) -> RecordMeta {
    RecordMeta {
        original_revision: rev_meta_spec(s, orig_of(s, at)),
        previous_revision: match step_back(s, at) {
            Some(p) => Some(rev_meta_spec(s, p)),
            None => None,
        },
        previous_revisions_count: back_count(s, at) as u32,
        latest_revision: rev_meta_spec(s, latest_of(s, at)),
        future_revisions_count: fwd_count(s, at) as u32,
        current_revision: rev_meta_spec(s, at),
    }
}

/// What resolution returns for node `at` against snapshot `s`: the
/// consolidated metadata record, or the first error the walks meet.
pub open spec fn resolve_post(
    s: Seq<Node>,
    at: int,
    r: Result<RecordMeta, DataIntegrityError>,
) -> bool {
    if !(0 <= at < s.len()) || s[at].validation != ValidationStatus::Valid {
        r == Err::<RecordMeta, DataIntegrityError>(DataIntegrityError::EntryNotFound)
    } else if !back_ok(s, at) {
        r == Err::<RecordMeta, DataIntegrityError>(DataIntegrityError::EntryWrongType)
    } else if !fwd_ok(s, at) {
        r == Err::<RecordMeta, DataIntegrityError>(DataIntegrityError::EntryNotFound)
    } else {
        r == Ok::<RecordMeta, DataIntegrityError>(record_meta_spec(s, at))
    }
}

impl Store {
    /// The snapshot is well formed.
    pub open spec fn wf(&self) -> bool {
        store_wf(self@)
    }

    /// An empty snapshot.
    pub fn new() -> (s: Store)
        ensures
            s@ == Seq::<Node>::empty(),
            s.wf(),
    {
        let s = Store { nodes: Vec::new() };
        proof {
            assert(s@ =~= Seq::<Node>::empty());
        }
        s
    }

    /// The number of nodes in the snapshot.
    pub fn len(&self) -> (n: usize)
        ensures
            n == self@.len(),
    {
        self.nodes.len()
    }

    /// Append a node to the snapshot, handing back its id. The append is
    /// refused — `None`, snapshot unchanged — exactly when the node's
    /// predecessor reference does not resolve within the snapshot, or the
    /// snapshot is already at the size the revision counters can cover.
    pub fn append(&mut self, node: Node) -> (r: Option<usize>)
        requires
            old(self).wf(),
        ensures
            final(self).wf(),
            ({
                let accepted = (pred_ref(node) matches Some(p) ==> (p as int) < old(self)@.len())
                    && old(self)@.len() < 0xFFFF_FFFF;
                match r {
                    Some(id) => accepted && id == old(self)@.len() && final(self)@ == old(
                        self,
                    )@.push(node),
                    None => !accepted && final(self)@ == old(self)@,
                }
            }),
    {
        if self.nodes.len() >= 0xFFFF_FFFF {
            return None;
        }
        let resolvable = match node.shape {
            NodeShape::Update { predecessor: Some(p) } => p < self.nodes.len(),
            NodeShape::Deletion { predecessor: Some(p) } => p < self.nodes.len(),
            _ => true,
        };
        if !resolvable {
            return None;
        }
        let id = self.nodes.len();
        self.nodes.push(node);
        proof {
            let s_new = self@;
            let s_old = old(self)@;
            assert forall|i: int|
                0 <= i < s_new.len() implies (#[trigger] pred_ref(s_new[i]) matches Some(p) ==> (
            p as int) < i) by {
                if i < s_old.len() {
                    assert(s_new[i] == s_old[i]);
                    assert(pred_ref(s_old[i]) matches Some(p) ==> (p as int) < i);
                } else {
                    assert(s_new[i] == node);
                }
            }
        }
        Some(id)
    }

    /// The revision metadata — id, creation time, author — of the node
    /// with the given id.
    pub fn revision_meta(&self, i: usize) -> (r: RevisionMeta)
        requires
            i < self@.len(),
        ensures
            r == rev_meta_spec(self@, i as int),
    {
        RevisionMeta {
            id: i,
            time: self.nodes[i].timestamp,
            author: self.nodes[i].author,
        }
    }

    /// Derive the consolidated metadata for the revision history of the
    /// node `at`: its original revision and the count of hops back to it,
    /// its previous revision if one resolves, and the latest revision
    /// with the count of hops forward to it, following the most recent
    /// branch head at each step.
    ///
    /// Fails with `EntryNotFound` when `at` is absent or not valid, or a
    /// branch head on the forward walk is not valid; fails with
    /// `EntryWrongType` when a node on the backward walk has a shape that
    /// is no legal revision. Any error aborts the whole resolution; there
    /// is no partial result.
    pub fn resolve(&self, at: usize) -> (r: Result<RecordMeta, DataIntegrityError>)
        requires
            self.wf(),
        ensures
            resolve_post(self@, at as int, r),
    {
        let ghost s = self@;
        let n = self.nodes.len();
        if at >= n {
            return Err(DataIntegrityError::EntryNotFound);
        }
        if self.nodes[at].validation != ValidationStatus::Valid {
            return Err(DataIntegrityError::EntryNotFound);
        }
        // the previous revision, from the node's own shape
        let prev: Option<usize> = match self.nodes[at].shape {
            NodeShape::Origination => None,
            NodeShape::Update { predecessor } => predecessor,
            NodeShape::Deletion { predecessor } => predecessor,
            NodeShape::Other => {
                return Err(DataIntegrityError::EntryWrongType);
            },
        };
        proof {
            assert(pred_ref(s[at as int]) == prev);
        }
        // backward walk to the original revision
        let mut cur: usize = at;
        let mut prev_count: u32 = 0;
        loop
            invariant
                self.wf(),
                s == self@,
                n == s.len(),
                cur <= at < s.len(),
                s[at as int].validation == ValidationStatus::Valid,
                shape_ok(s[at as int]),
                pred_ref(s[at as int]) == prev,
                prev_count as int <= at - cur,
                orig_of(s, at as int) == orig_of(s, cur as int),
                back_count(s, at as int) == prev_count + back_count(s, cur as int),
                back_ok(s, at as int) == back_ok(s, cur as int),
            ensures
                cur <= at < s.len(),
                orig_of(s, at as int) == cur as int,
                back_count(s, at as int) == prev_count as nat,
                back_ok(s, at as int),
            decreases cur,
        {
            match self.nodes[cur].shape {
                NodeShape::Other => {
                    proof {
                        assert(!shape_ok(s[cur as int]));
                    }
                    return Err(DataIntegrityError::EntryWrongType);
                },
                NodeShape::Origination => {
                    proof {
                        assert(step_back(s, cur as int) is None);
                    }
                    break ;
                },
                NodeShape::Update { predecessor } => {
                    proof {
                        assert(pred_ref(s[cur as int]) == predecessor);
                    }
                    match predecessor {
                        Some(p) => {
                            cur = p;
                            prev_count = prev_count + 1;
                        },
                        None => {
                            break ;
                        },
                    }
                },
                NodeShape::Deletion { predecessor } => {
                    proof {
                        assert(pred_ref(s[cur as int]) == predecessor);
                    }
                    match predecessor {
                        Some(p) => {
                            cur = p;
                            prev_count = prev_count + 1;
                        },
                        None => {
                            break ;
                        },
                    }
                },
            }
        }
        let first = cur;
        // forward walk along branch heads to the latest revision
        let mut head: usize = at;
        let mut future_count: u32 = 0;
        loop
            invariant
                self.wf(),
                s == self@,
                n == s.len(),
                at <= head < s.len(),
                s[at as int].validation == ValidationStatus::Valid,
                back_ok(s, at as int),
                future_count as int <= head - at,
                latest_of(s, at as int) == latest_of(s, head as int),
                fwd_count(s, at as int) == future_count + fwd_count(s, head as int),
                fwd_ok(s, at as int) == fwd_ok(s, head as int),
            ensures
                at <= head < s.len(),
                latest_of(s, at as int) == head as int,
                fwd_count(s, at as int) == future_count as nat,
                fwd_ok(s, at as int),
            decreases s.len() - head,
        {
            // scan for the most recent update of `head`
            let mut best: Option<usize> = None;
            let mut j: usize = 0;
            while j < n
                invariant
                    self.wf(),
                    s == self@,
                    n == s.len(),
                    head < s.len(),
                    j <= n,
                    match best {
                        Some(b) => b < n && best_succ_upto(s, head as int, j as int) == Some(
                            b as int,
                        ),
                        None => best_succ_upto(s, head as int, j as int) is None,
                    },
                decreases n - j,
            {
                let is_upd = match self.nodes[j].shape {
                    NodeShape::Update { predecessor: Some(p) } => p == head,
                    _ => false,
                };
                proof {
                    assert(is_upd == is_update_of(s, j as int, head as int));
                }
                if is_upd {
                    best = match best {
                        None => Some(j),
                        Some(b) => if self.nodes[j].timestamp >= self.nodes[b].timestamp {
                            Some(j)
                        } else {
                            Some(b)
                        },
                    };
                }
                j = j + 1;
            }
            match best {
                None => {
                    proof {
                        assert(best_succ(s, head as int) is None);
                    }
                    break ;
                },
                Some(b) => {
                    proof {
                        assert(best_succ(s, head as int) == Some(b as int));
                        lemma_best_succ_gt(s, head as int);
                    }
                    if self.nodes[b].validation != ValidationStatus::Valid {
                        proof {
                            assert(forward_walk(s, head as int) == ({
                                let rest = forward_walk(s, b as int);
                                (rest.0, rest.1 + 1nat, rest.2 && s[b as int].validation
                                    == ValidationStatus::Valid)
                            }));
                            assert(!fwd_ok(s, head as int));
                        }
                        return Err(DataIntegrityError::EntryNotFound);
                    }
                    head = b;
                    future_count = future_count + 1;
                },
            }
        }
        Ok(
            RecordMeta {
                original_revision: self.revision_meta(first),
                previous_revision: match prev {
                    Some(p) => Some(self.revision_meta(p)),
                    None => None,
                },
                previous_revisions_count: prev_count,
                latest_revision: self.revision_meta(head),
                future_revisions_count: future_count,
                current_revision: self.revision_meta(at),
            },
        )
    }
}

/// When node `i` has exactly one update `j`, the branch head scan finds
/// `j`.
proof fn lemma_best_succ_upto_unique(s: Seq<Node>, i: int, j: int, k: int)
    requires
        is_update_of(s, j, i),
        forall|j2: int| is_update_of(s, j2, i) ==> j2 == j,
    ensures
        best_succ_upto(s, i, k) == if j < k {
            Some(j)
        } else {
            None::<int>
        },
    decreases k,
{
    if k > 0 {
        lemma_best_succ_upto_unique(s, i, j, k - 1);
    }
}

/// When node `i` has no update at all, the branch head scan finds none.
proof fn lemma_best_succ_none(s: Seq<Node>, i: int)
    requires
        forall|j: int| !is_update_of(s, j, i),
    ensures
        best_succ(s, i) is None,
{
    lemma_best_succ_upto_props(s, i, s.len() as int);
    if best_succ(s, i) is Some {
        let j = best_succ(s, i).unwrap();
        assert(is_update_of(s, j, i));
    }
}

/// For a node with no predecessor and no successors, resolution yields
/// the node itself as original and latest revision, no previous revision,
/// and both hop counts zero.
pub proof fn lemma_no_history(s: Seq<Node>, at: int)
    requires
        store_wf(s),
        0 <= at < s.len(),
        pred_ref(s[at]) is None,
        forall|j: int| !is_update_of(s, j, at),
    ensures
        record_meta_spec(s, at) == (RecordMeta {
            original_revision: rev_meta_spec(s, at),
            previous_revision: None::<RevisionMeta>,
            previous_revisions_count: 0,
            latest_revision: rev_meta_spec(s, at),
            future_revisions_count: 0,
            current_revision: rev_meta_spec(s, at),
        }),
        back_ok(s, at) == shape_ok(s[at]),
        fwd_ok(s, at),
{
    lemma_best_succ_none(s, at);
}

/// The nodes at positions `idx` form one linear chain of revisions: the
/// first has no predecessor, each later one is an update of the one
/// before it and the only update of it, and every node of the chain is a
/// valid, legally shaped revision.
pub open spec fn linear_chain(s: Seq<Node>, idx: Seq<int>) -> bool {
    &&& idx.len() > 0
    &&& forall|k: int| 0 <= k < idx.len() ==> 0 <= #[trigger] idx[k] < s.len()
    &&& pred_ref(s[idx[0]]) is None
    &&& forall|k: int| 1 <= k < idx.len() ==> is_update_of(s, #[trigger] idx[k], idx[k - 1])
    &&& forall|k: int, j: int|
        0 <= k < idx.len() && #[trigger] is_update_of(s, j, idx[k]) ==> k + 1 < idx.len() && j
            == idx[k + 1]
    &&& forall|k: int|
        0 <= k < idx.len() ==> s[#[trigger] idx[k]].validation == ValidationStatus::Valid
    &&& forall|k: int| 0 <= k < idx.len() ==> shape_ok(s[#[trigger] idx[k]])
}

/// Backward half of the linear-chain law: from position `k` of the
/// chain, the original revision is the chain's first node, reached in
/// `k` hops, and every shape on the way back is legal.
proof fn lemma_chain_back(s: Seq<Node>, idx: Seq<int>, k: int)
    requires
        store_wf(s),
        linear_chain(s, idx),
        0 <= k < idx.len(),
    ensures
        orig_of(s, idx[k]) == idx[0],
        back_count(s, idx[k]) == k,
        back_ok(s, idx[k]),
    decreases k,
{
    if k == 0 {
        assert(step_back(s, idx[0]) is None);
    } else {
        assert(is_update_of(s, idx[k], idx[k - 1]));
        assert(pred_ref(s[idx[k]]) matches Some(p) && p as int == idx[k - 1]);
        assert(step_back(s, idx[k]) == Some(idx[k - 1]));
        lemma_chain_back(s, idx, k - 1);
    }
}

/// Forward half of the linear-chain law: from position `k` of the chain,
/// the latest revision is the chain's last node, reached in
/// `idx.len() - 1 - k` hops through valid branch heads.
proof fn lemma_chain_fwd(s: Seq<Node>, idx: Seq<int>, k: int)
    requires
        store_wf(s),
        linear_chain(s, idx),
        0 <= k < idx.len(),
    ensures
        latest_of(s, idx[k]) == idx[idx.len() - 1],
        fwd_count(s, idx[k]) == idx.len() - 1 - k,
        fwd_ok(s, idx[k]),
    decreases idx.len() - k,
{
    if k == idx.len() - 1 {
        assert(forall|j: int| !is_update_of(s, j, idx[k]));
        lemma_best_succ_none(s, idx[k]);
    } else {
        assert(is_update_of(s, idx[k + 1], idx[k]));
        assert(forall|j2: int| is_update_of(s, j2, idx[k]) ==> j2 == idx[k + 1]);
        lemma_best_succ_upto_unique(s, idx[k], idx[k + 1], s.len() as int);
        assert(best_succ(s, idx[k]) == Some(idx[k + 1]));
        lemma_chain_fwd(s, idx, k + 1);
    }
}

/// For a linear chain of revisions `idx[0] <- idx[1] <- ... `, resolving
/// the node at any position `k` of the chain finds the chain's first
/// node as original revision, `k` hops back; the chain's last node as
/// latest revision, the remaining hops forward; the node before it (if
/// any) as previous revision; and no error.
pub proof fn lemma_linear_chain_resolution(s: Seq<Node>, idx: Seq<int>, k: int)
    requires
        store_wf(s),
        linear_chain(s, idx),
        0 <= k < idx.len(),
    ensures
        back_ok(s, idx[k]),
        fwd_ok(s, idx[k]),
        record_meta_spec(s, idx[k]) == (RecordMeta {
            original_revision: rev_meta_spec(s, idx[0]),
            previous_revision: if k == 0 {
                None::<RevisionMeta>
            } else {
                Some(rev_meta_spec(s, idx[k - 1]))
            },
            previous_revisions_count: k as u32,
            latest_revision: rev_meta_spec(s, idx[idx.len() - 1]),
            future_revisions_count: (idx.len() - 1 - k) as u32,
            current_revision: rev_meta_spec(s, idx[k]),
        }),
{
    lemma_chain_back(s, idx, k);
    lemma_chain_fwd(s, idx, k);
    if k == 0 {
        assert(step_back(s, idx[0]) is None);
    } else {
        assert(is_update_of(s, idx[k], idx[k - 1]));
        assert(pred_ref(s[idx[k]]) matches Some(p) && p as int == idx[k - 1]);
        assert(step_back(s, idx[k]) == Some(idx[k - 1]));
    }
}

/// The backward hop count never exceeds the node's position; with the
/// size bound of `store_wf` it therefore always fits the `u32` counter
/// of `record_meta_spec`.
pub proof fn lemma_back_count_le(s: Seq<Node>, i: int)
    requires
        0 <= i,
    ensures
        back_count(s, i) <= i,
    decreases i,
{
    match step_back(s, i) {
        Some(p) => lemma_back_count_le(s, p),
        None => {},
    }
}

/// The forward hop count never exceeds the distance from the node's
/// position to the end of the snapshot; with the size bound of
/// `store_wf` it therefore always fits the `u32` counter of
/// `record_meta_spec`.
pub proof fn lemma_fwd_count_le(s: Seq<Node>, i: int)
    requires
        store_wf(s),
        0 <= i < s.len(),
    ensures
        fwd_count(s, i) + i < s.len() || fwd_count(s, i) == 0,
    decreases s.len() - i,
{
    lemma_best_succ_gt(s, i);
    match best_succ(s, i) {
        Some(j) => lemma_fwd_count_le(s, j),
        None => {},
    }
}

} // verus!
