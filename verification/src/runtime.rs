//! The reactive runtime: an arena of signal, memo and effect nodes owned by a
//! hierarchy of disposable scopes, together with the propagation scheduler.
//!
//! One `Runtime` is one independent reactive graph.  Nodes are addressed by
//! stable arena indices; a node's computation may only read nodes created
//! before it, so the dependency graph is acyclic by construction.  Disposal
//! never removes storage: it marks the node, prunes its edges, and every later
//! access detects the mark.
//!
//! Propagation is a single synchronous algorithm.  A non-batched write marks
//! the memos reachable from the written signal dirty, enqueues the reachable
//! effects, and then drains the queue in FIFO order; an effect is rerun only
//! if the recorded version of one of its dependencies has moved, which is
//! what makes propagation glitch-free.  Writes inside an open batch defer the
//! drain to the close of the outermost batch.

use vstd::prelude::*;

use crate::expr::{
    lemma_pure_is_untracked, no_input, no_tracked_reads, pure_expr, pure_val, refs_below,
    tracked_only, Expr,
};

verus! {

broadcast use vstd::seq_lib::lemma_seq_contains_after_push;

/// How often one effect may rerun within a single drain before the drain is
/// abandoned with [`ReactiveError::InfiniteUpdateLoop`].
pub const EFFECT_RUN_LIMIT: u64 = 64;

/// The recoverable failures of the runtime.
#[derive(Clone, Copy, Debug, PartialEq, Eq, Structural)]
pub enum ReactiveError {
    /// A node was read or written after its owning scope was disposed.
    UseAfterDispose,
    /// An effect kept retriggering itself (directly or through a cycle of
    /// writes) beyond [`EFFECT_RUN_LIMIT`] within one drain.
    InfiniteUpdateLoop,
    /// A computation faulted while it ran; the fault is contained at the node
    /// boundary, reported on the diagnostic record, and the node is skipped
    /// for the remainder of the current drain.
    ClosurePanic,
}

/// Owner of a hierarchy level: a scope owns the nodes created in it, its
/// child scopes, and the cleanup tokens registered on it.
pub struct ScopeRec {
    /// The scope this one was created under; `None` only for the root.
    pub parent: Option<usize>,
    /// Child scopes, in creation order; every child index is larger than the
    /// parent's.
    pub children: Vec<usize>,
    /// Cleanup tokens in registration order; disposal records them in
    /// reverse.
    pub cleanups: Vec<u64>,
    /// Arena indices of the nodes created in this scope.
    pub owned: Vec<usize>,
    /// Set once, by disposal of this scope or of an ancestor; never cleared.
    pub disposed: bool,
}

/// What kind of reactive node sits in an arena slot.
pub enum NodeKind {
    /// A writable cell.  With `eq_skip`, a write of a value equal to the
    /// current one is skipped entirely: no version bump, no propagation.
    Signal { eq_skip: bool },
    /// A cached computation, recomputed lazily when read after having been
    /// marked dirty.
    Memo { expr: Expr, dirty: bool },
    /// An eager subscriber.  After each run its value may be pushed into a
    /// signal (`write_to`), which is how effect-driven write cascades arise.
    /// `last_epoch`/`runs_in_epoch` count reruns within one drain for the
    /// cycle guard; `failed_in` records the drain in which the computation
    /// faulted, so the node is skipped for the rest of that drain.
    Effect {
        expr: Expr,
        write_to: Option<usize>,
        last_epoch: u64,
        runs_in_epoch: u64,
        failed_in: Option<u64>,
    },
}

/// One arena slot.
pub struct Node {
    pub kind: NodeKind,
    /// The scope that owns this node.
    pub scope: usize,
    /// Mirrors the owning scope's `disposed` flag.
    pub disposed: bool,
    /// A signal's current value, a memo's cached value, or the value an
    /// effect observed on its last run.
    pub value: i64,
    /// Bumped from the global clock whenever the value is (re)assigned by a
    /// non-skipped write or by a recomputation that changed the value.
    pub version: u64,
    /// For observers (memos and effects): the nodes read during the last run,
    /// each with the version that was seen.  Replaced wholesale on each run.
    /// Always empty for signals.
    pub deps: Vec<(usize, u64)>,
    /// Weak back-references: the observers that recorded this node in their
    /// dependency set.  Pruned on disposal.
    pub subs: Vec<usize>,
    /// For effects: every value observed by a completed run, oldest first.
    pub log: Vec<i64>,
}

/// Handle for a scope.
#[derive(Clone, Copy, Debug, PartialEq, Eq, Structural)]
pub struct ScopeHandle {
    pub id: usize,
}

/// Read handle for a signal or a memo.
#[derive(Clone, Copy, Debug, PartialEq, Eq, Structural)]
pub struct ReadSignal {
    pub id: usize,
}

/// Write handle for a signal.
#[derive(Clone, Copy, Debug, PartialEq, Eq, Structural)]
pub struct WriteSignal {
    pub id: usize,
}

/// Handle for an effect.
#[derive(Clone, Copy, Debug, PartialEq, Eq, Structural)]
pub struct EffectHandle {
    pub id: usize,
}

/// One independent reactive graph: arena, scope tree and scheduler state.
pub struct Runtime {
    nodes: Vec<Node>,
    scopes: Vec<ScopeRec>,
    /// Active-observer stack; `None` is the marker pushed by untracked reads.
    observers: Vec<Option<usize>>,
    /// Pending-effect queue, FIFO, deduplicated.
    pending: Vec<usize>,
    /// Open batches; writes drain only at depth zero.
    batch_depth: u64,
    /// Global version clock.
    clock: u64,
    /// Drain counter, used by the cycle guard and fault containment.
    epoch: u64,
    /// Cleanup tokens in the order disposal ran them.
    cleanup_record: Vec<u64>,
    /// Nodes whose computation faulted, in fault order.
    diagnostics: Vec<usize>,
}

/// The pending-queue invariants carry over to a state whose queue is the same
/// and whose node kinds are unchanged.
proof fn lemma_pending_transfer(pre: Runtime, post: Runtime)
    requires
        forall|k: int|
            0 <= k < pre.pending_seq().len() ==> pre.is_effect(pre.pending_seq()[k] as int),
        forall|k1: int, k2: int|
            0 <= k1 < k2 < pre.pending_seq().len() ==> pre.pending_seq()[k1]
                != pre.pending_seq()[k2],
        post.pending_seq() == pre.pending_seq(),
        pre.n_nodes() <= post.n_nodes(),
        forall|i: int|
            0 <= i < pre.n_nodes() ==> ((#[trigger] post.node_at(i).kind) is Effect == pre.node_at(
                i,
            ).kind is Effect),
    ensures
        forall|k: int|
            0 <= k < post.pending_seq().len() ==> post.is_effect(post.pending_seq()[k] as int),
        forall|k1: int, k2: int|
            0 <= k1 < k2 < post.pending_seq().len() ==> post.pending_seq()[k1]
                != post.pending_seq()[k2],
{
    assert forall|k: int| 0 <= k < post.pending_seq().len() implies post.is_effect(
        post.pending_seq()[k] as int,
    ) by {
        assert(pre.is_effect(pre.pending_seq()[k] as int));
        assert(post.node_at(pre.pending_seq()[k] as int).kind is Effect == pre.node_at(
            pre.pending_seq()[k] as int,
        ).kind is Effect);
    }
    assert forall|k1: int, k2: int| 0 <= k1 < k2 < post.pending_seq().len() implies post
        .pending_seq()[k1] != post.pending_seq()[k2] by {
        assert(pre.pending_seq()[k1] != pre.pending_seq()[k2]);
    }
}

impl Runtime {
    /// The arena contents.
    pub closed spec fn nodes_seq(self) -> Seq<Node> {
        self.nodes@
    }

    /// The scope tree.
    pub closed spec fn scopes_seq(self) -> Seq<ScopeRec> {
        self.scopes@
    }

    /// The pending-effect queue.
    pub closed spec fn pending_seq(self) -> Seq<usize> {
        self.pending@
    }

    /// The active-observer stack.
    pub closed spec fn observer_seq(self) -> Seq<Option<usize>> {
        self.observers@
    }

    /// How many batches are open.
    pub closed spec fn batch_depth_of(self) -> u64 {
        self.batch_depth
    }

    /// The global version clock.
    pub closed spec fn clock_of(self) -> u64 {
        self.clock
    }

    /// The drain counter.
    pub closed spec fn epoch_of(self) -> u64 {
        self.epoch
    }

    /// Cleanup tokens in the order disposal ran them.
    pub closed spec fn cleanup_record_seq(self) -> Seq<u64> {
        self.cleanup_record@
    }

    /// Nodes whose computation faulted, in fault order.
    pub closed spec fn diagnostics_seq(self) -> Seq<usize> {
        self.diagnostics@
    }

    pub open spec fn n_nodes(self) -> nat {
        self.nodes_seq().len()
    }

    pub open spec fn n_scopes(self) -> nat {
        self.scopes_seq().len()
    }

    pub open spec fn node_at(self, i: int) -> Node {
        self.nodes_seq()[i]
    }

    pub open spec fn scope_at(self, s: int) -> ScopeRec {
        self.scopes_seq()[s]
    }

    pub open spec fn valid_node(self, i: int) -> bool {
        0 <= i < self.n_nodes()
    }

    pub open spec fn valid_scope(self, s: int) -> bool {
        0 <= s < self.n_scopes()
    }

    /// The node exists and its owning scope has not been disposed.
    pub open spec fn node_live(self, i: int) -> bool {
        self.valid_node(i) && !self.node_at(i).disposed
    }

    /// The scope exists and has not been disposed.
    pub open spec fn scope_live(self, s: int) -> bool {
        self.valid_scope(s) && !self.scope_at(s).disposed
    }

    pub open spec fn is_signal(self, i: int) -> bool {
        self.valid_node(i) && self.node_at(i).kind is Signal
    }

    pub open spec fn is_memo(self, i: int) -> bool {
        self.valid_node(i) && self.node_at(i).kind is Memo
    }

    pub open spec fn is_effect(self, i: int) -> bool {
        self.valid_node(i) && self.node_at(i).kind is Effect
    }

    /// A read handle names a signal or a memo.
    pub open spec fn valid_read(self, r: ReadSignal) -> bool {
        self.is_signal(r.id as int) || self.is_memo(r.id as int)
    }

    /// A write handle names a signal.
    pub open spec fn valid_write(self, w: WriteSignal) -> bool {
        self.is_signal(w.id as int)
    }

    pub open spec fn valid_effect(self, e: EffectHandle) -> bool {
        self.is_effect(e.id as int)
    }

    pub open spec fn value_at(self, i: int) -> i64 {
        self.node_at(i).value
    }

    pub open spec fn version_at(self, i: int) -> u64 {
        self.node_at(i).version
    }

    pub open spec fn deps_at(self, i: int) -> Seq<(usize, u64)> {
        self.node_at(i).deps@
    }

    pub open spec fn log_at(self, i: int) -> Seq<i64> {
        self.node_at(i).log@
    }

    /// One scope record is internally consistent with the rest of the tree.
    pub open spec fn scope_wf(self, s: int) -> bool {
        let sc = self.scope_at(s);
        &&& (s == 0 <==> sc.parent is None)
        &&& (match sc.parent {
            Option::Some(p) => {
                &&& 0 <= p < s
                &&& (self.scope_at(p as int).disposed ==> sc.disposed)
                &&& self.scope_at(p as int).children@.contains(s as usize)
            },
            Option::None => true,
        })
        &&& (forall|k: int|
            0 <= k < sc.children@.len() ==> {
                let c = #[trigger] sc.children@[k] as int;
                &&& s < c < self.n_scopes()
                &&& self.scope_at(c).parent == Option::Some(s as usize)
            })
        &&& (forall|k: int|
            0 <= k < sc.owned@.len() ==> {
                let x = #[trigger] sc.owned@[k] as int;
                &&& 0 <= x < self.n_nodes()
                &&& self.node_at(x).scope == s as usize
            })
        &&& (forall|k1: int, k2: int|
            0 <= k1 < k2 < sc.children@.len() ==> sc.children@[k1] != sc.children@[k2])
    }

    /// One arena slot is internally consistent.
    pub open spec fn node_wf(self, i: int) -> bool {
        let nd = self.node_at(i);
        &&& (nd.scope as int) < self.n_scopes()
        &&& self.scope_at(nd.scope as int).owned@.contains(i as usize)
        &&& nd.version <= self.clock_of()
        &&& (forall|k: int|
            0 <= k < nd.deps@.len() ==> {
                let (d, v) = #[trigger] nd.deps@[k];
                &&& (d as int) < i
                &&& v <= self.node_at(d as int).version
            })
        &&& (forall|k: int|
            0 <= k < nd.subs@.len() ==> i < (#[trigger] nd.subs@[k] as int) < self.n_nodes())
        &&& (match nd.kind {
            NodeKind::Signal { .. } => nd.deps@.len() == 0,
            NodeKind::Memo { expr, .. } => refs_below(expr, i as nat) && tracked_only(expr)
                && no_input(expr),
            NodeKind::Effect { expr, write_to, last_epoch, failed_in, .. } => {
                &&& refs_below(expr, i as nat)
                &&& no_input(expr)
                &&& (match write_to {
                    Option::Some(t) => self.is_signal(t as int),
                    Option::None => true,
                })
                &&& last_epoch <= self.epoch_of()
                &&& (match failed_in {
                    Option::Some(f) => f <= self.epoch_of(),
                    Option::None => true,
                })
            },
        })
    }

    /// Everything that holds of the graph between operations, except that the
    /// observer stack may be occupied; internal evaluation maintains this.
    pub open spec fn wf_base(self) -> bool {
        &&& self.n_scopes() >= 1
        &&& (forall|s: int| 0 <= s < self.n_scopes() ==> self.scope_wf(s))
        &&& (forall|i: int| 0 <= i < self.n_nodes() ==> self.node_wf(i))
        &&& (forall|k: int|
            0 <= k < self.pending_seq().len() ==> self.is_effect(self.pending_seq()[k] as int))
        &&& (forall|k1: int, k2: int|
            0 <= k1 < k2 < self.pending_seq().len() ==> self.pending_seq()[k1]
                != self.pending_seq()[k2])
    }

    /// The public well-formedness of a runtime: every public operation
    /// requires and preserves this.
    pub open spec fn wf(self) -> bool {
        &&& self.wf_base()
        &&& self.observer_seq().len() == 0
    }

    /// A fresh runtime holding only the root scope.
    pub fn new() -> (rt: Runtime)
        ensures
            rt.wf(),
            rt.n_nodes() == 0,
            rt.n_scopes() == 1,
            rt.scope_live(0),
            rt.scope_at(0).cleanups@ =~= Seq::<u64>::empty(),
            rt.pending_seq() =~= Seq::<usize>::empty(),
            rt.batch_depth_of() == 0,
            rt.cleanup_record_seq() =~= Seq::<u64>::empty(),
            rt.diagnostics_seq() =~= Seq::<usize>::empty(),
    {
        let root = ScopeRec {
            parent: Option::None,
            children: Vec::new(),
            cleanups: Vec::new(),
            owned: Vec::new(),
            disposed: false,
        };
        let mut scopes: Vec<ScopeRec> = Vec::new();
        scopes.push(root);
        Runtime {
            nodes: Vec::new(),
            scopes,
            observers: Vec::new(),
            pending: Vec::new(),
            batch_depth: 0,
            clock: 0,
            epoch: 0,
            cleanup_record: Vec::new(),
            diagnostics: Vec::new(),
        }
    }

    /// The root scope created together with the runtime; disposing it tears
    /// the whole graph down.
    pub fn root_scope(&self) -> (s: ScopeHandle)
        ensures
            s.id == 0,
    {
        ScopeHandle { id: 0 }
    }

    /// Creates a child scope owned by `parent`.
    pub fn create_scope(&mut self, parent: ScopeHandle) -> (r: Result<ScopeHandle, ReactiveError>)
        requires
            old(self).wf(),
            old(self).valid_scope(parent.id as int),
        ensures
            final(self).wf(),
            old(self).scope_live(parent.id as int) <==> r is Ok,
            !old(self).scope_live(parent.id as int) ==> r == Result::<
                ScopeHandle,
                ReactiveError,
            >::Err(ReactiveError::UseAfterDispose) && *final(self) == *old(self),
            r is Ok ==> {
                &&& r->Ok_0.id == old(self).n_scopes()
                &&& final(self).n_scopes() == old(self).n_scopes() + 1
                &&& final(self).scope_live(r->Ok_0.id as int)
                &&& final(self).scope_at(r->Ok_0.id as int).parent == Option::Some(parent.id)
                &&& final(self).scope_at(r->Ok_0.id as int).cleanups@ =~= Seq::<u64>::empty()
                &&& final(self).nodes_seq() == old(self).nodes_seq()
                &&& final(self).pending_seq() == old(self).pending_seq()
                &&& final(self).batch_depth_of() == old(self).batch_depth_of()
                &&& final(self).cleanup_record_seq() == old(self).cleanup_record_seq()
                &&& final(self).diagnostics_seq() == old(self).diagnostics_seq()
                &&& (forall|s: int|
                    0 <= s < old(self).n_scopes() ==> final(self).scope_at(s).disposed == old(self).scope_at(s).disposed && final(self).scope_at(s).cleanups == old(self).scope_at(s).cleanups)
            },
    {
        let p = parent.id;
        if self.scopes[p].disposed {
            return Result::Err(ReactiveError::UseAfterDispose);
        }
        let id = self.scopes.len();
        let child = ScopeRec {
            parent: Option::Some(p),
            children: Vec::new(),
            cleanups: Vec::new(),
            owned: Vec::new(),
            disposed: false,
        };
        self.scopes.push(child);
        self.scopes[p].children.push(id);
        proof {
            assert forall|t: int| 0 <= t < self.n_scopes() implies self.scope_wf(t) by {
                if t < old(self).n_scopes() {
                    assert(old(self).scope_wf(t));
                    assert(self.scope_at(t).parent == old(self).scope_at(t).parent);
                    assert(self.scope_at(t).owned == old(self).scope_at(t).owned);
                    assert(self.scope_at(t).disposed == old(self).scope_at(t).disposed);
                    if t == p as int {
                        assert(self.scope_at(t).children@ == old(self).scope_at(
                            t,
                        ).children@.push(id));
                    } else {
                        assert(self.scope_at(t) == old(self).scope_at(t));
                    }
                } else {
                    assert(t == id as int);
                    assert(self.scope_at(p as int).children@ == old(self).scope_at(
                        p as int,
                    ).children@.push(id));
                }
            }
            lemma_pending_transfer(*old(self), *self);
            assert forall|i: int| 0 <= i < self.n_nodes() implies self.node_wf(i) by {
                assert(old(self).node_wf(i));
                let sc = self.node_at(i).scope as int;
                if sc == p as int {
                    assert(self.scope_at(sc).owned == old(self).scope_at(sc).owned);
                    assert(self.scope_at(sc).disposed == old(self).scope_at(sc).disposed);
                } else {
                    assert(self.scope_at(sc) == old(self).scope_at(sc));
                }
            }
        }
        Result::Ok(ScopeHandle { id })
    }

    /// Registers a cleanup token on a scope; disposal records the scope's
    /// tokens in reverse registration order.
    pub fn on_cleanup(&mut self, scope: ScopeHandle, token: u64) -> (r: Result<(), ReactiveError>)
        requires
            old(self).wf(),
            old(self).valid_scope(scope.id as int),
        ensures
            final(self).wf(),
            old(self).scope_live(scope.id as int) <==> r is Ok,
            !old(self).scope_live(scope.id as int) ==> r == Result::<(), ReactiveError>::Err(
                ReactiveError::UseAfterDispose,
            ) && *final(self) == *old(self),
            r is Ok ==> {
                &&& final(self).scope_at(scope.id as int).cleanups@ == old(self).scope_at(
                    scope.id as int,
                ).cleanups@.push(token)
                &&& final(self).n_scopes() == old(self).n_scopes()
                &&& final(self).nodes_seq() == old(self).nodes_seq()
                &&& final(self).cleanup_record_seq() == old(self).cleanup_record_seq()
                &&& (forall|s: int|
                    0 <= s < old(self).n_scopes() && s != scope.id as int ==> final(self).scope_at(
                        s,
                    ) == old(self).scope_at(s))
            },
    {
        let s = scope.id;
        if self.scopes[s].disposed {
            return Result::Err(ReactiveError::UseAfterDispose);
        }
        self.scopes[s].cleanups.push(token);
        proof {
            assert forall|t: int| 0 <= t < self.n_scopes() implies self.scope_wf(t) by {
                assert(old(self).scope_wf(t));
                if t == s as int {
                    assert(self.scope_at(t).children == old(self).scope_at(t).children);
                    assert(self.scope_at(t).owned == old(self).scope_at(t).owned);
                } else {
                    assert(self.scope_at(t) == old(self).scope_at(t));
                }
            }
            lemma_pending_transfer(*old(self), *self);
            assert forall|i: int| 0 <= i < self.n_nodes() implies self.node_wf(i) by {
                assert(old(self).node_wf(i));
                let sc = self.node_at(i).scope as int;
                if sc == s as int {
                    assert(self.scope_at(sc).owned == old(self).scope_at(sc).owned);
                    assert(self.scope_at(sc).disposed == old(self).scope_at(sc).disposed);
                } else {
                    assert(self.scope_at(sc) == old(self).scope_at(sc));
                }
            }
        }
        Result::Ok(())
    }

    /// Creates a signal owned by `scope`, holding `initial`.  With `eq_skip`
    /// a write of a value equal to the current one is skipped entirely.
    pub fn create_signal(&mut self, scope: ScopeHandle, initial: i64, eq_skip: bool) -> (r: Result<
        (ReadSignal, WriteSignal),
        ReactiveError,
    >)
        requires
            old(self).wf(),
            old(self).valid_scope(scope.id as int),
        ensures
            final(self).wf(),
            old(self).scope_live(scope.id as int) <==> r is Ok,
            !old(self).scope_live(scope.id as int) ==> r == Result::<
                (ReadSignal, WriteSignal),
                ReactiveError,
            >::Err(ReactiveError::UseAfterDispose) && *final(self) == *old(self),
            r is Ok ==> {
                &&& r->Ok_0.0.id == old(self).n_nodes()
                &&& r->Ok_0.1.id == old(self).n_nodes()
                &&& final(self).n_nodes() == old(self).n_nodes() + 1
                &&& final(self).is_signal(r->Ok_0.0.id as int)
                &&& final(self).node_live(r->Ok_0.0.id as int)
                &&& final(self).value_at(r->Ok_0.0.id as int) == initial
                &&& final(self).node_at(r->Ok_0.0.id as int).kind == (NodeKind::Signal { eq_skip })
                &&& final(self).nodes_seq() =~= old(self).nodes_seq().push(
                    final(self).node_at(r->Ok_0.0.id as int),
                )
                &&& final(self).n_scopes() == old(self).n_scopes()
                &&& final(self).pending_seq() == old(self).pending_seq()
                &&& final(self).batch_depth_of() == old(self).batch_depth_of()
                &&& final(self).cleanup_record_seq() == old(self).cleanup_record_seq()
                &&& final(self).diagnostics_seq() == old(self).diagnostics_seq()
                &&& (forall|s: int|
                    0 <= s < old(self).n_scopes() ==> final(self).scope_at(s).disposed == old(self).scope_at(s).disposed && final(self).scope_at(s).cleanups == old(self).scope_at(s).cleanups)
            },
    {
        let s = scope.id;
        if self.scopes[s].disposed {
            return Result::Err(ReactiveError::UseAfterDispose);
        }
        let id = self.nodes.len();
        let node = Node {
            kind: NodeKind::Signal { eq_skip },
            scope: s,
            disposed: false,
            value: initial,
            version: 0,
            deps: Vec::new(),
            subs: Vec::new(),
            log: Vec::new(),
        };
        self.nodes.push(node);
        self.scopes[s].owned.push(id);
        proof {
            assert forall|t: int| 0 <= t < self.n_scopes() implies self.scope_wf(t) by {
                assert(old(self).scope_wf(t));
                if t == s as int {
                    assert(self.scope_at(t).children == old(self).scope_at(t).children);
                    assert(self.scope_at(t).owned@ == old(self).scope_at(t).owned@.push(id));
                } else {
                    assert(self.scope_at(t) == old(self).scope_at(t));
                }
            }
            lemma_pending_transfer(*old(self), *self);
            assert forall|i: int| 0 <= i < self.n_nodes() implies self.node_wf(i) by {
                if i < old(self).n_nodes() {
                    assert(old(self).node_wf(i));
                    let sc = self.node_at(i).scope as int;
                    if sc == s as int {
                        assert(self.scope_at(sc).owned@ == old(self).scope_at(sc).owned@.push(id));
                        assert(self.scope_at(sc).disposed == old(self).scope_at(sc).disposed);
                    } else {
                        assert(self.scope_at(sc) == old(self).scope_at(sc));
                    }
                } else {
                    assert(i == id as int);
                    assert(self.scope_at(s as int).owned@ == old(self).scope_at(
                        s as int,
                    ).owned@.push(id));
                }
            }
        }
        Result::Ok((ReadSignal { id }, WriteSignal { id }))
    }
}


/// The parts of a node's kind that no evaluation step may change: the variant
/// itself, a memo's expression (its dirty flag may move), and an effect's
/// expression and write target (its counters may move).
pub open spec fn kind_like(a: NodeKind, b: NodeKind) -> bool {
    match (a, b) {
        (NodeKind::Signal { eq_skip: e1 }, NodeKind::Signal { eq_skip: e2 }) => e1 == e2,
        (NodeKind::Memo { expr: x1, .. }, NodeKind::Memo { expr: x2, .. }) => x1 == x2,
        (
            NodeKind::Effect { expr: x1, write_to: w1, .. },
            NodeKind::Effect { expr: x2, write_to: w2, .. },
        ) => x1 == x2 && w1 == w2,
        _ => false,
    }
}

/// The scheduler state that pure evaluation never touches.
pub open spec fn same_admin(pre: Runtime, post: Runtime) -> bool {
    &&& post.scopes_seq() == pre.scopes_seq()
    &&& post.pending_seq() == pre.pending_seq()
    &&& post.batch_depth_of() == pre.batch_depth_of()
    &&& post.epoch_of() == pre.epoch_of()
    &&& post.cleanup_record_seq() == pre.cleanup_record_seq()
    &&& post.diagnostics_seq() == pre.diagnostics_seq()
}

/// What holds of the state across one evaluation step: the graph keeps its
/// shape, signals are untouched, versions only move forward, no run is
/// logged, and no effect's dependency set or counters move -- except, when
/// `x` names an effect, those of that one active effect.
pub open spec fn eval_frame(pre: Runtime, post: Runtime, x: Option<usize>) -> bool {
    &&& same_admin(pre, post)
    &&& post.n_nodes() == pre.n_nodes()
    &&& pre.clock_of() <= post.clock_of()
    &&& (forall|i: int|
        0 <= i < pre.n_nodes() ==> #[trigger] post.node_at(i).scope == pre.node_at(i).scope)
    &&& (forall|i: int|
        0 <= i < pre.n_nodes() ==> #[trigger] post.node_at(i).disposed == pre.node_at(i).disposed)
    &&& (forall|i: int|
        0 <= i < pre.n_nodes() ==> pre.version_at(i) <= #[trigger] post.version_at(i))
    &&& (forall|i: int|
        0 <= i < pre.n_nodes() ==> kind_like(
            pre.node_at(i).kind,
            #[trigger] post.node_at(i).kind,
        ))
    &&& (forall|i: int| 0 <= i < pre.n_nodes() ==> #[trigger] post.log_at(i) == pre.log_at(i))
    &&& (forall|i: int|
        #[trigger] pre.is_signal(i) ==> post.node_at(i).value == pre.node_at(i).value
            && post.version_at(i) == pre.version_at(i) && post.node_at(i).kind == pre.node_at(
            i,
        ).kind)
    &&& (forall|i: usize|
        #[trigger] pre.is_effect(i as int) && Option::Some(i) != x ==> post.deps_at(i as int)
            == pre.deps_at(i as int) && post.node_at(i as int).kind == pre.node_at(i as int).kind)
}

/// `eval_frame` composes across consecutive steps.
proof fn lemma_eval_frame_trans(a: Runtime, b: Runtime, c: Runtime, x: Option<usize>)
    requires
        eval_frame(a, b, x),
        eval_frame(b, c, x),
    ensures
        eval_frame(a, c, x),
{
    assert forall|i: int|
        0 <= i < a.n_nodes() implies kind_like(a.node_at(i).kind, #[trigger] c.node_at(i).kind) by {
        assert(kind_like(a.node_at(i).kind, b.node_at(i).kind));
        assert(kind_like(b.node_at(i).kind, c.node_at(i).kind));
    }
    assert forall|i: int| #[trigger]
        a.is_signal(i) implies c.node_at(i).value == a.node_at(i).value && c.version_at(i)
        == a.version_at(i) && c.node_at(i).kind == a.node_at(i).kind by {
        assert(b.is_signal(i));
    }
    assert forall|i: usize| #[trigger]
        a.is_effect(i as int) && Option::Some(i) != x implies c.deps_at(i as int) == a.deps_at(
        i as int,
    ) && c.node_at(i as int).kind == a.node_at(i as int).kind by {
        assert(b.is_effect(i as int));
    }
}

/// A step that rebuilt no dependency set at all also fits a frame that
/// allows one.
proof fn lemma_eval_frame_weaken(a: Runtime, b: Runtime, x: Option<usize>)
    requires
        eval_frame(a, b, Option::None),
    ensures
        eval_frame(a, b, x),
{
}

/// `eval_frame` holds reflexively.
proof fn lemma_eval_frame_refl(a: Runtime, x: Option<usize>)
    ensures
        eval_frame(a, a, x),
{
    assert forall|i: int|
        0 <= i < a.n_nodes() implies kind_like(a.node_at(i).kind, #[trigger] a.node_at(i).kind) by {
        match a.node_at(i).kind {
            NodeKind::Signal { eq_skip } => {},
            NodeKind::Memo { expr, dirty } => {},
            NodeKind::Effect { expr, write_to, last_epoch, runs_in_epoch, failed_in } => {},
        }
    }
}

/// `wf_base` does not look at the observer stack, so it carries over to any
/// state that differs only there (and perhaps in a larger clock).
proof fn lemma_wf_base_congruence(a: Runtime, b: Runtime)
    requires
        a.wf_base(),
        b.nodes_seq() == a.nodes_seq(),
        b.scopes_seq() == a.scopes_seq(),
        b.pending_seq() == a.pending_seq(),
        a.clock_of() <= b.clock_of(),
        a.epoch_of() <= b.epoch_of(),
    ensures
        b.wf_base(),
{
    assert forall|s: int| 0 <= s < b.n_scopes() implies b.scope_wf(s) by {
        assert(a.scope_wf(s));
    }
    assert forall|i: int| 0 <= i < b.n_nodes() implies b.node_wf(i) by {
        assert(a.node_wf(i));
    }
    assert forall|k: int| 0 <= k < b.pending_seq().len() implies b.is_effect(
        b.pending_seq()[k] as int,
    ) by {
        assert(a.is_effect(a.pending_seq()[k] as int));
    }
    assert forall|k1: int, k2: int| 0 <= k1 < k2 < b.pending_seq().len() implies b.pending_seq()[k1]
        != b.pending_seq()[k2] by {
        assert(a.pending_seq()[k1] != a.pending_seq()[k2]);
    }
}

/// Fault-freedom of an expression depends only on node kinds and disposal
/// marks, which evaluation never changes.
proof fn lemma_fault_free_congruence(a: Runtime, b: Runtime, e: Expr)
    requires
        b.n_nodes() == a.n_nodes(),
        forall|i: int|
            0 <= i < a.n_nodes() ==> kind_like(a.node_at(i).kind, #[trigger] b.node_at(i).kind),
        forall|i: int|
            0 <= i < a.n_nodes() ==> #[trigger] b.node_at(i).disposed == a.node_at(i).disposed,
    ensures
        b.fault_free(e) == a.fault_free(e),
    decreases e,
{
    match e {
        Expr::Read(d) => {
            if (d as int) < a.n_nodes() {
                assert(kind_like(a.node_at(d as int).kind, b.node_at(d as int).kind));
            }
        },
        Expr::ReadUntracked(d) => {
            if (d as int) < a.n_nodes() {
                assert(kind_like(a.node_at(d as int).kind, b.node_at(d as int).kind));
            }
        },
        Expr::IfNz(c, t, f) => {
            lemma_fault_free_congruence(a, b, *c);
            lemma_fault_free_congruence(a, b, *t);
            lemma_fault_free_congruence(a, b, *f);
        },
        _ => {},
    }
}

/// A step that only moved the observer stack keeps any frame already
/// established.
proof fn lemma_eval_frame_same_nodes(a: Runtime, b: Runtime, c: Runtime, x: Option<usize>)
    requires
        eval_frame(a, b, x),
        c.nodes_seq() == b.nodes_seq(),
        same_admin(b, c),
        c.clock_of() == b.clock_of(),
    ensures
        eval_frame(a, c, x),
{
    assert forall|i: int|
        0 <= i < a.n_nodes() implies kind_like(a.node_at(i).kind, #[trigger] c.node_at(i).kind) by {
        assert(c.node_at(i) == b.node_at(i));
        assert(kind_like(a.node_at(i).kind, b.node_at(i).kind));
    }
    assert forall|i: int|
        0 <= i < a.n_nodes() implies #[trigger] c.node_at(i).scope == a.node_at(i).scope by {
        assert(c.node_at(i) == b.node_at(i));
    }
    assert forall|i: int|
        0 <= i < a.n_nodes() implies #[trigger] c.node_at(i).disposed == a.node_at(i).disposed by {
        assert(c.node_at(i) == b.node_at(i));
    }
    assert forall|i: int|
        0 <= i < a.n_nodes() implies a.version_at(i) <= #[trigger] c.version_at(i) by {
        assert(c.node_at(i) == b.node_at(i));
        assert(a.version_at(i) <= b.version_at(i));
    }
    assert forall|i: int| 0 <= i < a.n_nodes() implies #[trigger] c.log_at(i) == a.log_at(i) by {
        assert(c.node_at(i) == b.node_at(i));
        assert(b.log_at(i) == a.log_at(i));
    }
    assert forall|i: int| #[trigger]
        a.is_signal(i) implies c.node_at(i).value == a.node_at(i).value && c.version_at(i)
        == a.version_at(i) && c.node_at(i).kind == a.node_at(i).kind by {
        assert(c.node_at(i) == b.node_at(i));
    }
    assert forall|i: usize| #[trigger]
        a.is_effect(i as int) && Option::Some(i) != x implies c.deps_at(i as int) == a.deps_at(
        i as int,
    ) && c.node_at(i as int).kind == a.node_at(i as int).kind by {
        assert(c.node_at(i as int) == b.node_at(i as int));
    }
}

/// The scope-tree invariants carry over to a state with the same scope tree
/// whose nodes kept their owners.
proof fn lemma_scopes_transfer(pre: Runtime, post: Runtime)
    requires
        forall|s: int| 0 <= s < pre.n_scopes() ==> pre.scope_wf(s),
        post.scopes_seq() == pre.scopes_seq(),
        post.n_nodes() == pre.n_nodes(),
        forall|i: int|
            0 <= i < pre.n_nodes() ==> #[trigger] post.node_at(i).scope == pre.node_at(i).scope,
    ensures
        forall|s: int| 0 <= s < post.n_scopes() ==> post.scope_wf(s),
{
    assert forall|s: int| 0 <= s < post.n_scopes() implies post.scope_wf(s) by {
        assert(pre.scope_wf(s));
    }
}

/// `d` occurs among the dependency ids of `s`.
pub open spec fn dep_ids_has(s: Seq<(usize, u64)>, d: usize) -> bool {
    exists|k: int| 0 <= k < s.len() && (#[trigger] s[k]).0 == d
}

/// Whether `v` contains `x`.
fn usize_vec_has(v: &Vec<usize>, x: usize) -> (r: bool)
    ensures
        r == v@.contains(x),
{
    let mut k: usize = 0;
    while k < v.len()
        invariant
            k <= v.len(),
            forall|j: int| 0 <= j < k ==> v@[j] != x,
        decreases v.len() - k,
    {
        if v[k] == x {
            return true;
        }
        k += 1;
    }
    false
}

/// Whether some dependency entry of `v` names `d`.
fn dep_vec_has(v: &Vec<(usize, u64)>, d: usize) -> (r: bool)
    ensures
        r == dep_ids_has(v@, d),
{
    let mut k: usize = 0;
    while k < v.len()
        invariant
            k <= v.len(),
            forall|j: int| 0 <= j < k ==> (#[trigger] v@[j]).0 != d,
        decreases v.len() - k,
    {
        if v[k].0 == d {
            return true;
        }
        k += 1;
    }
    false
}

impl Runtime {
    /// Is `i` a memo currently marked dirty?
    pub open spec fn memo_dirty(self, i: int) -> bool {
        match self.node_at(i).kind {
            NodeKind::Memo { dirty, .. } => dirty,
            _ => false,
        }
    }

    /// The observer on top of the stack may record reads below `bound`: if it
    /// is a real observer, it sits at or above `bound`, so every recorded
    /// edge points downward.
    pub open spec fn top_ok(self, bound: nat) -> bool {
        self.observer_seq().len() > 0 ==> match self.observer_seq().last() {
            Option::Some(o) => bound <= o && (o as nat) < self.n_nodes() && (self.is_memo(o as int)
                || self.is_effect(o as int)),
            Option::None => true,
        }
    }

    /// Advances the global version clock (saturating at the top).
    fn tick(&mut self) -> (v: u64)
        requires
            old(self).wf_base(),
        ensures
            final(self).wf_base(),
            v == final(self).clock_of(),
            old(self).clock_of() <= v,
            old(self).clock_of() < u64::MAX ==> old(self).clock_of() < v,
            final(self).nodes_seq() == old(self).nodes_seq(),
            final(self).observer_seq() == old(self).observer_seq(),
            same_admin(*old(self), *final(self)),
    {
        if self.clock < u64::MAX {
            self.clock = self.clock + 1;
        }
        proof {
            assert forall|t: int| 0 <= t < self.n_scopes() implies self.scope_wf(t) by {
                assert(old(self).scope_wf(t));
            }
            assert forall|i: int| 0 <= i < self.n_nodes() implies self.node_wf(i) by {
                assert(old(self).node_wf(i));
            }
            lemma_pending_transfer(*old(self), *self);
        }
        self.clock
    }

    /// Removes one occurrence of the observer `o` from the subscriber list of
    /// `d`, if present.
    fn remove_sub(&mut self, d: usize, o: usize)
        requires
            old(self).wf_base(),
            (d as int) < old(self).n_nodes(),
        ensures
            final(self).wf_base(),
            final(self).nodes_seq() == old(self).nodes_seq().update(
                d as int,
                final(self).node_at(d as int),
            ),
            final(self).node_at(d as int).kind == old(self).node_at(d as int).kind,
            final(self).node_at(d as int).scope == old(self).node_at(d as int).scope,
            final(self).node_at(d as int).disposed == old(self).node_at(d as int).disposed,
            final(self).node_at(d as int).value == old(self).node_at(d as int).value,
            final(self).node_at(d as int).version == old(self).node_at(d as int).version,
            final(self).node_at(d as int).deps == old(self).node_at(d as int).deps,
            final(self).node_at(d as int).log == old(self).node_at(d as int).log,
            forall|k: int|
                0 <= k < final(self).node_at(d as int).subs@.len() ==> old(self).node_at(
                    d as int,
                ).subs@.contains(#[trigger] final(self).node_at(d as int).subs@[k]),
            final(self).observer_seq() == old(self).observer_seq(),
            final(self).clock_of() == old(self).clock_of(),
            same_admin(*old(self), *final(self)),
    {
        let n = self.nodes[d].subs.len();
        let mut k: usize = 0;
        let mut found: bool = false;
        let mut at: usize = 0;
        while k < n
            invariant
                n == self.nodes@[d as int].subs@.len(),
                (d as int) < self.nodes@.len(),
                k <= n,
                found ==> at < n && self.nodes@[d as int].subs@[at as int] == o,
            decreases n - k,
        {
            if self.nodes[d].subs[k] == o {
                found = true;
                at = k;
                k = n;
            } else {
                k += 1;
            }
        }
        if found {
            self.nodes[d].subs.remove(at);
            proof {
                assert(final(self).node_at(d as int).subs@ == old(self).node_at(
                    d as int,
                ).subs@.remove(at as int));
                assert forall|j: int|
                    0 <= j < self.node_at(d as int).subs@.len() implies old(self).node_at(
                    d as int,
                ).subs@.contains(#[trigger] self.node_at(d as int).subs@[j]) by {
                    if j < at {
                        assert(self.node_at(d as int).subs@[j] == old(self).node_at(
                            d as int,
                        ).subs@[j]);
                    } else {
                        assert(self.node_at(d as int).subs@[j] == old(self).node_at(
                            d as int,
                        ).subs@[j + 1]);
                    }
                }
                lemma_scopes_transfer(*old(self), *self);
                lemma_pending_transfer(*old(self), *self);
                assert forall|i: int| 0 <= i < self.n_nodes() implies self.node_wf(i) by {
                    assert(old(self).node_wf(i));
                    if i == d as int {
                        assert forall|j: int|
                            0 <= j < self.node_at(i).subs@.len() implies i < (
                        #[trigger] self.node_at(i).subs@[j] as int) < self.n_nodes() by {
                            let x = self.node_at(i).subs@[j];
                            assert(old(self).node_at(i).subs@.contains(x));
                            let jj = choose|jj: int|
                                0 <= jj < old(self).node_at(i).subs@.len() && old(self).node_at(
                                    i,
                                ).subs@[jj] == x;
                            assert(old(self).node_wf(i));
                        }
                    }
                }
            }
        }
    }
}


impl Runtime {
    /// Empties the dependency set of the observer `o`, removing the matching
    /// back-references from the subscriber lists of its former dependencies.
    fn clear_deps(&mut self, o: usize)
        requires
            old(self).wf_base(),
            (o as int) < old(self).n_nodes(),
        ensures
            final(self).wf_base(),
            final(self).n_nodes() == old(self).n_nodes(),
            final(self).node_at(o as int).deps@ =~= Seq::<(usize, u64)>::empty(),
            forall|i: int|
                0 <= i < old(self).n_nodes() ==> {
                    let pre = old(self).node_at(i);
                    let post = #[trigger] final(self).node_at(i);
                    &&& post.kind == pre.kind
                    &&& post.scope == pre.scope
                    &&& post.disposed == pre.disposed
                    &&& post.value == pre.value
                    &&& post.version == pre.version
                    &&& post.log == pre.log
                    &&& (i != o as int ==> post.deps == pre.deps)
                    &&& (forall|k: int|
                        0 <= k < post.subs@.len() ==> pre.subs@.contains(#[trigger] post.subs@[k]))
                },
            final(self).observer_seq() == old(self).observer_seq(),
            final(self).clock_of() == old(self).clock_of(),
            same_admin(*old(self), *final(self)),
    {
        let n = self.nodes[o].deps.len();
        let mut k: usize = 0;
        while k < n
            invariant
                self.wf_base(),
                (o as int) < self.n_nodes(),
                self.n_nodes() == old(self).n_nodes(),
                k <= n,
                self.node_at(o as int).deps == old(self).node_at(o as int).deps,
                n == self.node_at(o as int).deps@.len(),
                forall|i: int|
                    0 <= i < old(self).n_nodes() ==> {
                        let pre = old(self).node_at(i);
                        let post = #[trigger] self.node_at(i);
                        &&& post.kind == pre.kind
                        &&& post.scope == pre.scope
                        &&& post.disposed == pre.disposed
                        &&& post.value == pre.value
                        &&& post.version == pre.version
                        &&& post.log == pre.log
                        &&& post.deps == pre.deps
                        &&& (forall|j: int|
                            0 <= j < post.subs@.len() ==> pre.subs@.contains(
                                #[trigger] post.subs@[j],
                            ))
                    },
                self.observer_seq() == old(self).observer_seq(),
                self.clock_of() == old(self).clock_of(),
                same_admin(*old(self), *self),
            decreases n - k,
        {
            let d = self.nodes[o].deps[k].0;
            proof {
                assert(self.node_wf(o as int));
            }
            let ghost mid = *self;
            self.remove_sub(d, o);
            proof {
                assert forall|i: int|
                    0 <= i < old(self).n_nodes() implies {
                    let pre = old(self).node_at(i);
                    let post = #[trigger] self.node_at(i);
                    &&& post.kind == pre.kind
                    &&& post.scope == pre.scope
                    &&& post.disposed == pre.disposed
                    &&& post.value == pre.value
                    &&& post.version == pre.version
                    &&& post.log == pre.log
                    &&& post.deps == pre.deps
                    &&& (forall|j: int|
                        0 <= j < post.subs@.len() ==> pre.subs@.contains(#[trigger] post.subs@[j]))
                } by {
                    let pre = old(self).node_at(i);
                    let post = self.node_at(i);
                    assert forall|j: int|
                        0 <= j < post.subs@.len() implies pre.subs@.contains(
                        #[trigger] post.subs@[j],
                    ) by {
                        if i == d as int {
                            assert(mid.node_at(i).subs@.contains(post.subs@[j]));
                        }
                    }
                }
            }
            k += 1;
        }
        let ghost fin = *self;
        self.nodes[o].deps = Vec::new();
        proof {
            assert forall|i: int|
                0 <= i < old(self).n_nodes() implies (#[trigger] self.node_at(i)).scope == old(self).node_at(i).scope && self.node_at(i).kind == old(self).node_at(i).kind by {
                assert(fin.node_at(i).scope == old(self).node_at(i).scope);
                assert(fin.node_at(i).kind == old(self).node_at(i).kind);
                if i != o as int {
                    assert(self.node_at(i) == fin.node_at(i));
                }
            }
            lemma_scopes_transfer(*old(self), *self);
            lemma_pending_transfer(*old(self), *self);
            assert forall|i: int| 0 <= i < self.n_nodes() implies self.node_wf(i) by {
                assert(fin.node_wf(i));
                if i != o as int {
                    assert(self.node_at(i) == fin.node_at(i));
                }
                assert(self.node_at(i).subs == fin.node_at(i).subs);
                assert(self.node_at(i).kind == fin.node_at(i).kind);
                assert(self.node_at(i).scope == fin.node_at(i).scope);
                assert(self.node_at(i).disposed == fin.node_at(i).disposed);
                assert(self.node_at(i).version == fin.node_at(i).version);
                assert(self.scopes_seq() == fin.scopes_seq());
                assert forall|kk: int|
                    0 <= kk < self.node_at(i).deps@.len() implies {
                    let (dd, vv) = #[trigger] self.node_at(i).deps@[kk];
                    &&& (dd as int) < i
                    &&& vv <= self.node_at(dd as int).version
                } by {
                    assert(i != o as int);
                    assert(self.node_at(i).deps@[kk] == fin.node_at(i).deps@[kk]);
                    let (dd, vv) = fin.node_at(i).deps@[kk];
                    assert((dd as int) < i && vv <= fin.node_at(dd as int).version);
                    assert(self.node_at(dd as int).version == fin.node_at(dd as int).version);
                }
                assert forall|j: int|
                    0 <= j < self.node_at(i).subs@.len() implies i < (
                #[trigger] self.node_at(i).subs@[j] as int) < self.n_nodes() by {
                    assert(self.node_at(i).subs@[j] == fin.node_at(i).subs@[j]);
                }
            }
            assert forall|i: int|
                0 <= i < old(self).n_nodes() implies {
                let pre = old(self).node_at(i);
                let post = #[trigger] self.node_at(i);
                &&& post.kind == pre.kind
                &&& post.scope == pre.scope
                &&& post.disposed == pre.disposed
                &&& post.value == pre.value
                &&& post.version == pre.version
                &&& post.log == pre.log
                &&& (i != o as int ==> post.deps == pre.deps)
                &&& (forall|k2: int|
                    0 <= k2 < post.subs@.len() ==> pre.subs@.contains(#[trigger] post.subs@[k2]))
            } by {
                if i != o as int {
                    assert(self.node_at(i) == fin.node_at(i));
                }
                assert(self.node_at(i).subs == fin.node_at(i).subs);
                assert(self.node_at(i).kind == fin.node_at(i).kind);
                assert(self.node_at(i).scope == fin.node_at(i).scope);
                assert(self.node_at(i).disposed == fin.node_at(i).disposed);
                assert(self.node_at(i).value == fin.node_at(i).value);
                assert(self.node_at(i).version == fin.node_at(i).version);
                assert(self.node_at(i).log == fin.node_at(i).log);
            }
        }
    }

    /// Records the edge `d -> o`: `o` remembers `d` with the version it saw,
    /// and `d` lists `o` among its subscribers.  Idempotent within one run.
    fn register_dep(&mut self, o: usize, d: usize)
        requires
            old(self).wf_base(),
            (d as int) < o as int,
            (o as int) < old(self).n_nodes(),
            old(self).is_memo(o as int) || old(self).is_effect(o as int),
        ensures
            final(self).wf_base(),
            final(self).n_nodes() == old(self).n_nodes(),
            dep_ids_has(old(self).deps_at(o as int), d) ==> final(self).nodes_seq() == old(self).nodes_seq(),
            !dep_ids_has(old(self).deps_at(o as int), d) ==> final(self).deps_at(o as int) == old(self).deps_at(o as int).push((d, old(self).version_at(d as int))),
            forall|i: int|
                0 <= i < old(self).n_nodes() ==> {
                    let pre = old(self).node_at(i);
                    let post = #[trigger] final(self).node_at(i);
                    &&& post.kind == pre.kind
                    &&& post.scope == pre.scope
                    &&& post.disposed == pre.disposed
                    &&& post.value == pre.value
                    &&& post.version == pre.version
                    &&& post.log == pre.log
                    &&& (i != o as int ==> post.deps == pre.deps)
                },
            final(self).observer_seq() == old(self).observer_seq(),
            final(self).clock_of() == old(self).clock_of(),
            same_admin(*old(self), *final(self)),
    {
        proof {
            assert(old(self).node_wf(o as int));
            assert(old(self).node_wf(d as int));
        }
        if dep_vec_has(&self.nodes[o].deps, d) {
            return ;
        }
        let v = self.nodes[d].version;
        self.nodes[o].deps.push((d, v));
        let ghost mid = *self;
        if !usize_vec_has(&self.nodes[d].subs, o) {
            self.nodes[d].subs.push(o);
        }
        proof {
            lemma_scopes_transfer(*old(self), *self);
            lemma_pending_transfer(*old(self), *self);
            assert forall|i: int| 0 <= i < self.n_nodes() implies self.node_wf(i) by {
                assert(old(self).node_wf(i));
                if i == o as int {
                    assert(self.node_at(i).deps@ == old(self).node_at(i).deps@.push((d, v)));
                }
            }
        }
    }
}


impl Runtime {
    /// Evaluating `e` against this graph cannot fault: it reads only live
    /// signals and performs no arithmetic and takes no input.
    pub open spec fn fault_free(self, e: Expr) -> bool
        decreases e,
    {
        match e {
            Expr::Lit(_) => true,
            Expr::Read(d) => self.is_signal(d as int) && !self.node_at(d as int).disposed,
            Expr::ReadUntracked(d) => self.is_signal(d as int) && !self.node_at(
                d as int,
            ).disposed,
            Expr::Input => false,
            Expr::Add(_, _) => false,
            Expr::Rem(_, _) => false,
            Expr::IfNz(c, t, f) => self.fault_free(*c) && self.fault_free(*t) && self.fault_free(
                *f,
            ),
        }
    }

    /// The observer on top of the stack, if the stack is occupied by a real
    /// observer rather than the untracking marker.
    pub open spec fn cur_obs(self) -> Option<usize> {
        if self.observer_seq().len() == 0 {
            Option::None
        } else {
            self.observer_seq().last()
        }
    }

    /// Brings a dirty memo up to date: rebuilds its dependency set by
    /// re-running its computation, stores the new value, and bumps its
    /// version only when the value actually changed (suppressing downstream
    /// staleness for unchanged values).  A faulting computation leaves the
    /// memo dirty.  Signals, effects, clean memos and disposed nodes are left
    /// untouched.
    fn refresh(&mut self, d: usize) -> (r: Result<(), ReactiveError>)
        requires
            old(self).wf_base(),
            (d as int) < old(self).n_nodes(),
        ensures
            final(self).wf_base(),
            eval_frame(*old(self), *final(self), Option::None),
            final(self).observer_seq() == old(self).observer_seq(),
            r is Ok && final(self).node_live(d as int) ==> !final(self).memo_dirty(d as int),
            (!old(self).memo_dirty(d as int) || old(self).node_at(d as int).disposed) ==> (
            *final(self) == *old(self) && r is Ok),
            forall|i: int|
                (d as int) < i < old(self).n_nodes() ==> #[trigger] final(self).version_at(i)
                    == old(self).version_at(i),
            forall|i: int|
                (d as int) < i < old(self).n_nodes() ==> (#[trigger] final(self).node_at(i)).value
                    == old(self).node_at(i).value,
            final(self).value_at(d as int) != old(self).value_at(d as int) || final(self).version_at(
                d as int,
            ) == old(self).version_at(d as int),
            (r is Ok && old(self).clock_of() < u64::MAX && final(self).value_at(d as int) != old(self).value_at(d as int)) ==> final(self).version_at(d as int) > old(self).version_at(
                d as int,
            ),
        decreases d as int, 2int, Expr::Lit(0),
    {
        let disposed = self.nodes[d].disposed;
        let dirty = match &self.nodes[d].kind {
            NodeKind::Memo { dirty, .. } => *dirty,
            _ => false,
        };
        if disposed || !dirty {
            proof {
                lemma_eval_frame_refl(*self, Option::None);
            }
            return Result::Ok(());
        }
        let expr = match &self.nodes[d].kind {
            NodeKind::Memo { expr, .. } => expr.clone(),
            _ => Expr::Lit(0),
        };
        proof {
            assert(old(self).node_wf(d as int));
        }
        let ghost g0 = *self;
        self.clear_deps(d);
        let ghost g1 = *self;
        self.observers.push(Option::Some(d));
        let ghost g2 = *self;
        proof {
            lemma_wf_base_congruence(g1, g2);
        }
        let r = self.eval(&expr, Option::None, Ghost(d));
        let ghost g3 = *self;
        self.observers.pop();
        proof {
            assert(self.observer_seq() =~= g0.observer_seq());
            lemma_wf_base_congruence(g3, *self);
            assert(eval_frame(g2, g3, g2.cur_obs()));
            // the frame from before the dependency rebuild to after the
            // computation, with no effect touched: the active observer is the
            // memo `d`
            assert(eval_frame(g0, g1, Option::None)) by {
                lemma_eval_frame_refl(g0, Option::None);
                assert forall|i: int|
                    0 <= i < g0.n_nodes() implies kind_like(
                    g0.node_at(i).kind,
                    #[trigger] g1.node_at(i).kind,
                ) by {
                    assert(g1.node_at(i).kind == g0.node_at(i).kind);
                    assert(kind_like(g0.node_at(i).kind, g0.node_at(i).kind));
                }
                assert forall|i: int| #[trigger]
                    g0.is_signal(i) implies g1.node_at(i).value == g0.node_at(i).value
                    && g1.version_at(i) == g0.version_at(i) && g1.node_at(i).kind == g0.node_at(
                    i,
                ).kind by {}
                assert forall|i: usize| #[trigger]
                    g0.is_effect(i as int) && Option::Some(i) != Option::<usize>::None implies g1
                    .deps_at(i as int) == g0.deps_at(i as int) && g1.node_at(i as int).kind
                    == g0.node_at(i as int).kind by {
                    assert(i != d);
                }
            }
            assert(eval_frame(g1, g3, Option::None)) by {
                assert(g2.cur_obs() == Option::Some(d));
                assert(g2.nodes_seq() == g1.nodes_seq());
                assert forall|i: usize| #[trigger]
                    g1.is_effect(i as int) && Option::Some(i) != Option::<usize>::None implies g3
                    .deps_at(i as int) == g1.deps_at(i as int) && g3.node_at(i as int).kind
                    == g1.node_at(i as int).kind by {
                    assert(g2.is_effect(i as int));
                    assert(g1.is_memo(d as int));
                    assert(i != d);
                    assert(Option::Some(i) != g2.cur_obs());
                }
                assert forall|i: int| #[trigger]
                    g1.is_signal(i) implies g3.node_at(i).value == g1.node_at(i).value
                    && g3.version_at(i) == g1.version_at(i) && g3.node_at(i).kind == g1.node_at(
                    i,
                ).kind by {
                    assert(g2.is_signal(i));
                }
                assert forall|i: int|
                    0 <= i < g1.n_nodes() implies kind_like(
                    g1.node_at(i).kind,
                    #[trigger] g3.node_at(i).kind,
                ) by {
                    assert(kind_like(g2.node_at(i).kind, g3.node_at(i).kind));
                }
            }
            lemma_eval_frame_trans(g0, g1, g3, Option::None);
            lemma_eval_frame_same_nodes(g0, g3, *self, Option::None);
            assert(g0 == *old(self));
        }
        let ghost g4 = *self;
        proof {
            assert(g1.node_at(d as int).value == g0.node_at(d as int).value);
            assert(g1.node_at(d as int).version == g0.node_at(d as int).version);
            assert(g3.version_at(d as int) == g2.version_at(d as int) && g3.node_at(
                d as int,
            ).value == g2.node_at(d as int).value);
            assert(g4.value_at(d as int) == old(self).value_at(d as int));
            assert(g4.version_at(d as int) == old(self).version_at(d as int));
            assert forall|i: int|
                (d as int) < i < old(self).n_nodes() implies #[trigger] self.version_at(i) == old(self).version_at(i) by {
                assert(g1.node_at(i).version == g0.node_at(i).version);
                assert(g3.version_at(i) == g2.version_at(i));
            }
            assert forall|i: int|
                (d as int) < i < old(self).n_nodes() implies (#[trigger] self.node_at(i)).value
                == old(self).node_at(i).value by {
                assert(g1.node_at(i).value == g0.node_at(i).value);
                assert(g3.node_at(i).value == g2.node_at(i).value);
            }
        }
        match r {
            Result::Ok(v) => {
                let oldval = self.nodes[d].value;
                if v != oldval {
                    proof {
                        assert(g4.node_wf(d as int));
                    }
                    let c = self.tick();
                    self.nodes[d].value = v;
                    self.nodes[d].version = c;
                    proof {
                        assert(self.node_at(d as int).version >= g4.node_at(d as int).version);
                    }
                }
                match &mut self.nodes[d].kind {
                    NodeKind::Memo { dirty, .. } => {
                        *dirty = false;
                    },
                    _ => {},
                }
                proof {
                    assert(!self.memo_dirty(d as int));
                    assert forall|i: int|
                        (d as int) < i < old(self).n_nodes() implies #[trigger] self.version_at(i)
                        == old(self).version_at(i) by {
                        assert(self.node_at(i) == g4.node_at(i));
                        assert(g4.version_at(i) == old(self).version_at(i));
                    }
                    assert forall|i: int|
                        (d as int) < i < old(self).n_nodes() implies (
                    #[trigger] self.node_at(i)).value == old(self).node_at(i).value by {
                        assert(self.node_at(i) == g4.node_at(i));
                        assert(g4.node_at(i).value == old(self).node_at(i).value);
                    }
                    lemma_scopes_transfer(g4, *self);
                    lemma_pending_transfer(g4, *self);
                    assert forall|i: int| 0 <= i < self.n_nodes() implies self.node_wf(i) by {
                        assert(g4.node_wf(i));
                        if i != d as int {
                            assert(self.node_at(i) == g4.node_at(i));
                        }
                        assert forall|kk: int|
                            0 <= kk < self.node_at(i).deps@.len() implies {
                            let (dd, vv) = #[trigger] self.node_at(i).deps@[kk];
                            &&& (dd as int) < i
                            &&& vv <= self.node_at(dd as int).version
                        } by {
                            assert(self.node_at(i).deps@[kk] == g4.node_at(i).deps@[kk]);
                            let (dd, vv) = g4.node_at(i).deps@[kk];
                            assert(vv <= g4.node_at(dd as int).version);
                            assert(g4.node_at(dd as int).version <= self.node_at(
                                dd as int,
                            ).version);
                        }
                    }
                    assert(eval_frame(g4, *self, Option::None)) by {
                        assert forall|i: int|
                            0 <= i < g4.n_nodes() implies kind_like(
                            g4.node_at(i).kind,
                            #[trigger] self.node_at(i).kind,
                        ) by {
                            lemma_eval_frame_refl(g4, Option::None);
                            if i != d as int {
                                assert(self.node_at(i).kind == g4.node_at(i).kind);
                                assert(kind_like(g4.node_at(i).kind, g4.node_at(i).kind));
                            }
                        }
                        assert forall|i: int| #[trigger]
                            g4.is_signal(i) implies self.node_at(i).value == g4.node_at(i).value
                            && self.version_at(i) == g4.version_at(i) && self.node_at(i).kind
                            == g4.node_at(i).kind by {
                            assert(i != d as int);
                        }
                        assert forall|i: usize| #[trigger]
                            g4.is_effect(i as int) && Option::Some(i)
                            != Option::<usize>::None implies self.deps_at(i as int) == g4.deps_at(
                            i as int,
                        ) && self.node_at(i as int).kind == g4.node_at(i as int).kind by {
                            assert(i != d);
                        }
                    }
                    lemma_eval_frame_trans(*old(self), g4, *self, Option::None);
                }
                Result::Ok(())
            },
            Result::Err(f) => {
                Result::Err(f)
            },
        }
    }

    /// Evaluates a computation against the graph.  Reads refresh the node
    /// they touch and, for tracked reads with an active observer, record a
    /// dependency edge.  Faults stand in for a panicking user closure and are
    /// reported to the caller, never swallowed.
    fn eval(&mut self, e: &Expr, input: Option<i64>, Ghost(bound): Ghost<usize>) -> (r: Result<
        i64,
        ReactiveError,
    >)
        requires
            old(self).wf_base(),
            refs_below(*e, bound as nat),
            bound as nat <= old(self).n_nodes(),
            old(self).top_ok(bound as nat),
        ensures
            final(self).wf_base(),
            eval_frame(*old(self), *final(self), old(self).cur_obs()),
            final(self).observer_seq() == old(self).observer_seq(),
            forall|i: int|
                bound as int <= i < old(self).n_nodes() ==> #[trigger] final(self).version_at(i)
                    == old(self).version_at(i),
            forall|i: int|
                bound as int <= i < old(self).n_nodes() ==> (#[trigger] final(self).node_at(
                    i,
                )).value == old(self).node_at(i).value,
            pure_expr(*e) ==> *final(self) == *old(self) && (match pure_val(*e, input) {
                Option::Some(v) => r == Result::<i64, ReactiveError>::Ok(v),
                Option::None => r == Result::<i64, ReactiveError>::Err(
                    ReactiveError::ClosurePanic,
                ),
            }),
            no_tracked_reads(*e) ==> (forall|i: int|
                old(self).is_effect(i) ==> #[trigger] final(self).deps_at(i) == old(self).deps_at(
                    i,
                )),
            old(self).fault_free(*e) ==> r is Ok,
        decreases bound as int, 1int, *e,
    {
        match e {
            Expr::Lit(v) => {
                proof {
                    lemma_eval_frame_refl(*self, old(self).cur_obs());
                }
                Result::Ok(*v)
            },
            Expr::Input => {
                proof {
                    lemma_eval_frame_refl(*self, old(self).cur_obs());
                }
                match input {
                    Option::Some(v) => Result::Ok(v),
                    Option::None => Result::Err(ReactiveError::ClosurePanic),
                }
            },
            Expr::Read(dr) => {
                let d = *dr;
                if self.nodes[d].disposed {
                    proof {
                        lemma_eval_frame_refl(*self, old(self).cur_obs());
                    }
                    return Result::Err(ReactiveError::UseAfterDispose);
                }
                let is_eff = match &self.nodes[d].kind {
                    NodeKind::Effect { .. } => true,
                    _ => false,
                };
                if is_eff {
                    proof {
                        lemma_eval_frame_refl(*self, old(self).cur_obs());
                    }
                    return Result::Err(ReactiveError::ClosurePanic);
                }
                let ghost g0 = *self;
                match self.refresh(d) {
                    Result::Ok(()) => {},
                    Result::Err(f) => {
                        proof {
                            lemma_eval_frame_weaken(g0, *self, g0.cur_obs());
                            if old(self).fault_free(*e) {
                                assert(!g0.memo_dirty(d as int));
                                assert(false);
                            }
                        }
                        return Result::Err(f);
                    },
                }
                let ghost g1 = *self;
                proof {
                    lemma_eval_frame_weaken(g0, g1, g0.cur_obs());
                }
                if self.observers.len() > 0 {
                    let top = self.observers[self.observers.len() - 1];
                    match top {
                        Option::Some(o) => {
                            proof {
                                assert(g0.top_ok(bound as nat));
                                assert(g0.is_memo(o as int) || g0.is_effect(o as int));
                                assert(kind_like(g0.node_at(o as int).kind, g1.node_at(o as int).kind));
                                assert(g1.is_memo(o as int) || g1.is_effect(o as int));
                            }
                            self.register_dep(o, d);
                            proof {
                                assert(eval_frame(g1, *self, g0.cur_obs())) by {
                                    lemma_eval_frame_refl(g1, g0.cur_obs());
                                    assert(g0.cur_obs() == Option::Some(o));
                                    assert forall|i: int|
                                        0 <= i < g1.n_nodes() implies kind_like(
                                        g1.node_at(i).kind,
                                        #[trigger] self.node_at(i).kind,
                                    ) by {
                                        assert(self.node_at(i).kind == g1.node_at(i).kind);
                                        assert(kind_like(g1.node_at(i).kind, g1.node_at(i).kind));
                                    }
                                    assert forall|i: int| #[trigger]
                                        g1.is_signal(i) implies self.node_at(i).value == g1.node_at(
                                        i,
                                    ).value && self.version_at(i) == g1.version_at(i)
                                        && self.node_at(i).kind == g1.node_at(i).kind by {}
                                    assert forall|i: usize| #[trigger]
                                        g1.is_effect(i as int) && Option::Some(i)
                                        != g0.cur_obs() implies self.deps_at(i as int)
                                        == g1.deps_at(i as int) && self.node_at(i as int).kind
                                        == g1.node_at(i as int).kind by {
                                        assert(i != o);
                                    }
                                }
                                lemma_eval_frame_trans(g0, g1, *self, g0.cur_obs());
                            }
                        },
                        Option::None => {},
                    }
                }
                Result::Ok(self.nodes[d].value)
            },
            Expr::ReadUntracked(dr) => {
                let d = *dr;
                if self.nodes[d].disposed {
                    proof {
                        lemma_eval_frame_refl(*self, old(self).cur_obs());
                    }
                    return Result::Err(ReactiveError::UseAfterDispose);
                }
                let is_eff = match &self.nodes[d].kind {
                    NodeKind::Effect { .. } => true,
                    _ => false,
                };
                if is_eff {
                    proof {
                        lemma_eval_frame_refl(*self, old(self).cur_obs());
                    }
                    return Result::Err(ReactiveError::ClosurePanic);
                }
                let ghost g0 = *self;
                match self.refresh(d) {
                    Result::Ok(()) => {},
                    Result::Err(f) => {
                        proof {
                            lemma_eval_frame_weaken(g0, *self, g0.cur_obs());
                            if old(self).fault_free(*e) {
                                assert(!g0.memo_dirty(d as int));
                                assert(false);
                            }
                            assert forall|i: int|
                                g0.is_effect(i) implies #[trigger] self.deps_at(i) == g0.deps_at(
                                i,
                            ) by {
                                vstd::std_specs::vec::axiom_spec_len(&g0.nodes);
                                assert((i as usize) as int == i);
                                assert(g0.is_effect((i as usize) as int));
                                assert(self.deps_at((i as usize) as int) == g0.deps_at(
                                    (i as usize) as int,
                                ));
                            }
                        }
                        return Result::Err(f);
                    },
                }
                proof {
                    lemma_eval_frame_weaken(g0, *self, g0.cur_obs());
                    assert forall|i: int|
                        g0.is_effect(i) implies #[trigger] self.deps_at(i) == g0.deps_at(i) by {
                        vstd::std_specs::vec::axiom_spec_len(&g0.nodes);
                        assert((i as usize) as int == i);
                        assert(g0.is_effect((i as usize) as int));
                        assert(self.deps_at((i as usize) as int) == g0.deps_at(
                            (i as usize) as int,
                        ));
                    }
                }
                Result::Ok(self.nodes[d].value)
            },
            Expr::Add(a, b) => {
                let ghost g0 = *self;
                let va = match self.eval(a, input, Ghost(bound)) {
                    Result::Ok(v) => v,
                    Result::Err(f) => {
                        return Result::Err(f);
                    },
                };
                let ghost g1 = *self;
                let vb = match self.eval(b, input, Ghost(bound)) {
                    Result::Ok(v) => v,
                    Result::Err(f) => {
                        proof {
                            lemma_eval_frame_trans(g0, g1, *self, g0.cur_obs());
                        }
                        return Result::Err(f);
                    },
                };
                proof {
                    lemma_eval_frame_trans(g0, g1, *self, g0.cur_obs());
                }
                match va.checked_add(vb) {
                    Option::Some(v) => Result::Ok(v),
                    Option::None => Result::Err(ReactiveError::ClosurePanic),
                }
            },
            Expr::Rem(a, b) => {
                let ghost g0 = *self;
                let va = match self.eval(a, input, Ghost(bound)) {
                    Result::Ok(v) => v,
                    Result::Err(f) => {
                        return Result::Err(f);
                    },
                };
                let ghost g1 = *self;
                let vb = match self.eval(b, input, Ghost(bound)) {
                    Result::Ok(v) => v,
                    Result::Err(f) => {
                        proof {
                            lemma_eval_frame_trans(g0, g1, *self, g0.cur_obs());
                        }
                        return Result::Err(f);
                    },
                };
                proof {
                    lemma_eval_frame_trans(g0, g1, *self, g0.cur_obs());
                }
                if va >= 0 && vb > 0 {
                    Result::Ok(va % vb)
                } else {
                    Result::Err(ReactiveError::ClosurePanic)
                }
            },
            Expr::IfNz(c, t, f) => {
                let ghost g0 = *self;
                let vc = match self.eval(c, input, Ghost(bound)) {
                    Result::Ok(v) => v,
                    Result::Err(fault) => {
                        proof {
                            if old(self).fault_free(*e) {
                                assert(false);
                            }
                        }
                        return Result::Err(fault);
                    },
                };
                let ghost g1 = *self;
                proof {
                    if g0.fault_free(*e) {
                        lemma_fault_free_congruence(g0, g1, **t);
                        lemma_fault_free_congruence(g0, g1, **f);
                    }
                }
                let res = if vc != 0 {
                    self.eval(t, input, Ghost(bound))
                } else {
                    self.eval(f, input, Ghost(bound))
                };
                proof {
                    lemma_eval_frame_trans(g0, g1, *self, g0.cur_obs());
                }
                res
            },
        }
    }
}


/// Copies a vector of plain values.
fn copy_vec<T: Copy>(v: &Vec<T>) -> (r: Vec<T>)
    ensures
        r@ == v@,
{
    let mut r: Vec<T> = Vec::new();
    let mut k: usize = 0;
    while k < v.len()
        invariant
            k <= v.len(),
            r@ == v@.subrange(0, k as int),
        decreases v.len() - k,
    {
        r.push(v[k]);
        proof {
            assert(r@ =~= v@.subrange(0, k + 1));
        }
        k += 1;
    }
    proof {
        assert(r@ =~= v@);
    }
    r
}

impl Runtime {
    /// Reads a signal or memo.  A live signal returns its current value and
    /// leaves the runtime untouched; a live memo is lazily brought up to date
    /// first.  Reading a node whose owning scope was disposed surfaces
    /// `UseAfterDispose`; a faulting memo computation surfaces its fault and
    /// leaves the memo dirty.
    pub fn read(&mut self, r: ReadSignal) -> (res: Result<i64, ReactiveError>)
        requires
            old(self).wf(),
            old(self).valid_read(r),
        ensures
            final(self).wf(),
            old(self).node_at(r.id as int).disposed ==> res == Result::<i64, ReactiveError>::Err(
                ReactiveError::UseAfterDispose,
            ) && *final(self) == *old(self),
            old(self).is_signal(r.id as int) && !old(self).node_at(r.id as int).disposed ==> res
                == Result::<i64, ReactiveError>::Ok(old(self).value_at(r.id as int)) && *final(self) == *old(self),
            old(self).is_memo(r.id as int) && !old(self).node_at(r.id as int).disposed ==> {
                &&& eval_frame(*old(self), *final(self), Option::None)
                &&& (res is Ok ==> res->Ok_0 == final(self).value_at(r.id as int) && !final(self).memo_dirty(r.id as int))
                &&& (final(self).version_at(r.id as int) != old(self).version_at(r.id as int)
                    ==> final(self).value_at(r.id as int) != old(self).value_at(r.id as int))
                &&& (res is Ok && old(self).clock_of() < u64::MAX && final(self).value_at(
                    r.id as int,
                ) != old(self).value_at(r.id as int) ==> final(self).version_at(r.id as int) > old(self).version_at(r.id as int))
            },
            old(self).is_memo(r.id as int) && !old(self).node_at(r.id as int).disposed && !old(self).memo_dirty(r.id as int) ==> *final(self) == *old(self) && res == Result::<
                i64,
                ReactiveError,
            >::Ok(old(self).value_at(r.id as int)),
    {
        let id = r.id;
        if self.nodes[id].disposed {
            return Result::Err(ReactiveError::UseAfterDispose);
        }
        let is_sig = match &self.nodes[id].kind {
            NodeKind::Signal { .. } => true,
            _ => false,
        };
        if is_sig {
            return Result::Ok(self.nodes[id].value);
        }
        match self.refresh(id) {
            Result::Ok(()) => Result::Ok(self.nodes[id].value),
            Result::Err(f) => Result::Err(f),
        }
    }

    /// Reads like [`Runtime::read`], but under the untracking marker: a null
    /// observer is pushed around the access, so even when called from code
    /// that is itself being tracked, no dependency edge is recorded.
    pub fn untracked_read(&mut self, r: ReadSignal) -> (res: Result<i64, ReactiveError>)
        requires
            old(self).wf(),
            old(self).valid_read(r),
        ensures
            final(self).wf(),
            old(self).node_at(r.id as int).disposed ==> res == Result::<i64, ReactiveError>::Err(
                ReactiveError::UseAfterDispose,
            ) && *final(self) == *old(self),
            old(self).is_signal(r.id as int) && !old(self).node_at(r.id as int).disposed ==> res
                == Result::<i64, ReactiveError>::Ok(old(self).value_at(r.id as int)) && *final(self) == *old(self),
            old(self).is_memo(r.id as int) && !old(self).node_at(r.id as int).disposed ==> {
                &&& eval_frame(*old(self), *final(self), Option::None)
                &&& (res is Ok ==> res->Ok_0 == final(self).value_at(r.id as int) && !final(self).memo_dirty(r.id as int))
                &&& (final(self).version_at(r.id as int) != old(self).version_at(r.id as int)
                    ==> final(self).value_at(r.id as int) != old(self).value_at(r.id as int))
                &&& (res is Ok && old(self).clock_of() < u64::MAX && final(self).value_at(
                    r.id as int,
                ) != old(self).value_at(r.id as int) ==> final(self).version_at(r.id as int) > old(self).version_at(r.id as int))
            },
    {
        let id = r.id;
        if self.nodes[id].disposed {
            return Result::Err(ReactiveError::UseAfterDispose);
        }
        let is_sig = match &self.nodes[id].kind {
            NodeKind::Signal { .. } => true,
            _ => false,
        };
        if is_sig {
            return Result::Ok(self.nodes[id].value);
        }
        let ghost g0 = *self;
        self.observers.push(Option::None);
        proof {
            lemma_wf_base_congruence(g0, *self);
        }
        let ghost g1 = *self;
        let res = match self.refresh(id) {
            Result::Ok(()) => Result::Ok(self.nodes[id].value),
            Result::Err(f) => Result::Err(f),
        };
        let ghost g2 = *self;
        self.observers.pop();
        proof {
            lemma_wf_base_congruence(g2, *self);
            assert(self.observer_seq() =~= g0.observer_seq());
            lemma_eval_frame_same_nodes(g1, g2, *self, Option::None);
            assert(eval_frame(g0, g1, Option::None)) by {
                lemma_eval_frame_refl(g0, Option::None);
                lemma_eval_frame_same_nodes(g0, g0, g1, Option::None);
            }
            lemma_eval_frame_trans(g0, g1, *self, Option::None);
        }
        res
    }

    /// Creates a memo owned by `scope`: a cached computation over the graph,
    /// marked for computation on first read.  The computation may only use
    /// tracked reads of previously created nodes: an untracked read would
    /// leave a dependency out of the recorded set, so a later change to it
    /// would never mark this memo and the cache could go stale without any
    /// contract noticing -- the restriction is what makes the suppression
    /// law sound for memos.
    pub fn create_memo(&mut self, scope: ScopeHandle, expr: Expr) -> (r: Result<
        ReadSignal,
        ReactiveError,
    >)
        requires
            old(self).wf(),
            old(self).valid_scope(scope.id as int),
            refs_below(expr, old(self).n_nodes()),
            tracked_only(expr),
            no_input(expr),
        ensures
            final(self).wf(),
            old(self).scope_live(scope.id as int) <==> r is Ok,
            !old(self).scope_live(scope.id as int) ==> r == Result::<
                ReadSignal,
                ReactiveError,
            >::Err(ReactiveError::UseAfterDispose) && *final(self) == *old(self),
            r is Ok ==> {
                &&& r->Ok_0.id == old(self).n_nodes()
                &&& final(self).n_nodes() == old(self).n_nodes() + 1
                &&& final(self).is_memo(r->Ok_0.id as int)
                &&& final(self).node_live(r->Ok_0.id as int)
                &&& final(self).memo_dirty(r->Ok_0.id as int)
                &&& final(self).node_at(r->Ok_0.id as int).kind == (NodeKind::Memo {
                    expr,
                    dirty: true,
                })
                &&& final(self).nodes_seq() =~= old(self).nodes_seq().push(
                    final(self).node_at(r->Ok_0.id as int),
                )
                &&& final(self).n_scopes() == old(self).n_scopes()
                &&& final(self).pending_seq() == old(self).pending_seq()
                &&& final(self).batch_depth_of() == old(self).batch_depth_of()
                &&& final(self).cleanup_record_seq() == old(self).cleanup_record_seq()
                &&& final(self).diagnostics_seq() == old(self).diagnostics_seq()
                &&& (forall|s: int|
                    0 <= s < old(self).n_scopes() ==> final(self).scope_at(s).disposed == old(self).scope_at(s).disposed && final(self).scope_at(s).cleanups == old(self).scope_at(s).cleanups)
            },
    {
        let s = scope.id;
        if self.scopes[s].disposed {
            return Result::Err(ReactiveError::UseAfterDispose);
        }
        let id = self.nodes.len();
        let node = Node {
            kind: NodeKind::Memo { expr, dirty: true },
            scope: s,
            disposed: false,
            value: 0,
            version: 0,
            deps: Vec::new(),
            subs: Vec::new(),
            log: Vec::new(),
        };
        self.nodes.push(node);
        self.scopes[s].owned.push(id);
        proof {
            assert forall|t: int| 0 <= t < self.n_scopes() implies self.scope_wf(t) by {
                assert(old(self).scope_wf(t));
                if t == s as int {
                    assert(self.scope_at(t).children == old(self).scope_at(t).children);
                    assert(self.scope_at(t).owned@ == old(self).scope_at(t).owned@.push(id));
                } else {
                    assert(self.scope_at(t) == old(self).scope_at(t));
                }
            }
            lemma_pending_transfer(*old(self), *self);
            assert forall|i: int| 0 <= i < self.n_nodes() implies self.node_wf(i) by {
                if i < old(self).n_nodes() {
                    assert(old(self).node_wf(i));
                    let sc = self.node_at(i).scope as int;
                    if sc == s as int {
                        assert(self.scope_at(sc).owned@ == old(self).scope_at(sc).owned@.push(id));
                        assert(self.scope_at(sc).disposed == old(self).scope_at(sc).disposed);
                    } else {
                        assert(self.scope_at(sc) == old(self).scope_at(sc));
                    }
                } else {
                    assert(i == id as int);
                    assert(self.scope_at(s as int).owned@ == old(self).scope_at(
                        s as int,
                    ).owned@.push(id));
                }
            }
        }
        Result::Ok(ReadSignal { id })
    }

    /// The current value of a live node, without refreshing or tracking
    /// anything (a stale memo returns its cached value).
    pub fn peek(&self, r: ReadSignal) -> (res: Result<i64, ReactiveError>)
        requires
            self.wf(),
            self.valid_read(r),
        ensures
            self.node_at(r.id as int).disposed ==> res == Result::<i64, ReactiveError>::Err(
                ReactiveError::UseAfterDispose,
            ),
            !self.node_at(r.id as int).disposed ==> res == Result::<i64, ReactiveError>::Ok(
                self.value_at(r.id as int),
            ),
    {
        if self.nodes[r.id].disposed {
            Result::Err(ReactiveError::UseAfterDispose)
        } else {
            Result::Ok(self.nodes[r.id].value)
        }
    }

    /// The version of a live node: the global clock value at its last change.
    pub fn version_of(&self, r: ReadSignal) -> (res: Result<u64, ReactiveError>)
        requires
            self.wf(),
            self.valid_read(r),
        ensures
            self.node_at(r.id as int).disposed ==> res == Result::<u64, ReactiveError>::Err(
                ReactiveError::UseAfterDispose,
            ),
            !self.node_at(r.id as int).disposed ==> res == Result::<u64, ReactiveError>::Ok(
                self.version_at(r.id as int),
            ),
    {
        if self.nodes[r.id].disposed {
            Result::Err(ReactiveError::UseAfterDispose)
        } else {
            Result::Ok(self.nodes[r.id].version)
        }
    }

    /// Every value the effect observed, one entry per completed run, oldest
    /// first.
    pub fn observations(&self, e: EffectHandle) -> (r: Vec<i64>)
        requires
            self.wf(),
            self.valid_effect(e),
        ensures
            r@ == self.log_at(e.id as int),
    {
        copy_vec(&self.nodes[e.id].log)
    }

    /// How many nodes the arena holds; handles with smaller indices are
    /// valid.
    pub fn node_count(&self) -> (r: usize)
        ensures
            r == self.n_nodes(),
    {
        self.nodes.len()
    }

    /// How many scopes the tree holds; handles with smaller indices are
    /// valid.
    pub fn scope_count(&self) -> (r: usize)
        ensures
            r == self.n_scopes(),
    {
        self.scopes.len()
    }

    /// The cleanup tokens disposal has run so far, in execution order.
    pub fn cleanups_run(&self) -> (r: Vec<u64>)
        ensures
            r@ == self.cleanup_record_seq(),
    {
        copy_vec(&self.cleanup_record)
    }

    /// The nodes whose computations have faulted, in fault order.
    pub fn fault_report(&self) -> (r: Vec<usize>)
        ensures
            r@ == self.diagnostics_seq(),
    {
        copy_vec(&self.diagnostics)
    }
}


/// What a marking pass may do to the state: set memo dirty flags, and append
/// new pending effects; everything else stays put.
pub open spec fn mark_frame(pre: Runtime, post: Runtime) -> bool {
    &&& post.n_nodes() == pre.n_nodes()
    &&& post.scopes_seq() == pre.scopes_seq()
    &&& post.observer_seq() == pre.observer_seq()
    &&& post.clock_of() == pre.clock_of()
    &&& post.batch_depth_of() == pre.batch_depth_of()
    &&& post.epoch_of() == pre.epoch_of()
    &&& post.cleanup_record_seq() == pre.cleanup_record_seq()
    &&& post.diagnostics_seq() == pre.diagnostics_seq()
    &&& (forall|i: int|
        0 <= i < pre.n_nodes() ==> {
            let a = pre.node_at(i);
            let b = #[trigger] post.node_at(i);
            &&& b.scope == a.scope
            &&& b.disposed == a.disposed
            &&& b.value == a.value
            &&& b.version == a.version
            &&& b.deps == a.deps
            &&& b.subs == a.subs
            &&& b.log == a.log
            &&& kind_like(a.kind, b.kind)
            &&& ((a.kind is Signal || a.kind is Effect) ==> b.kind == a.kind)
            &&& (pre.memo_dirty(i) ==> post.memo_dirty(i))
        })
    &&& pre.pending_seq().len() <= post.pending_seq().len()
    &&& post.pending_seq().subrange(0, pre.pending_seq().len() as int) == pre.pending_seq()
}

/// `mark_frame` composes.
proof fn lemma_mark_frame_trans(a: Runtime, b: Runtime, c: Runtime)
    requires
        mark_frame(a, b),
        mark_frame(b, c),
    ensures
        mark_frame(a, c),
{
    assert forall|i: int|
        0 <= i < a.n_nodes() implies {
        let p = a.node_at(i);
        let q = #[trigger] c.node_at(i);
        &&& q.scope == p.scope
        &&& q.disposed == p.disposed
        &&& q.value == p.value
        &&& q.version == p.version
        &&& q.deps == p.deps
        &&& q.subs == p.subs
        &&& q.log == p.log
        &&& kind_like(p.kind, q.kind)
        &&& ((p.kind is Signal || p.kind is Effect) ==> q.kind == p.kind)
        &&& (a.memo_dirty(i) ==> c.memo_dirty(i))
    } by {
        let m = b.node_at(i);
        assert(kind_like(a.node_at(i).kind, m.kind));
        assert(kind_like(m.kind, c.node_at(i).kind));
    }
    assert(c.pending_seq().subrange(0, a.pending_seq().len() as int) =~= a.pending_seq()) by {
        assert(b.pending_seq().subrange(0, a.pending_seq().len() as int) == a.pending_seq());
        assert(c.pending_seq().subrange(0, b.pending_seq().len() as int) == b.pending_seq());
        assert forall|k: int| 0 <= k < a.pending_seq().len() implies c.pending_seq()[k]
            == a.pending_seq()[k] by {
            assert(b.pending_seq()[k] == b.pending_seq().subrange(
                0,
                a.pending_seq().len() as int,
            )[k]);
            assert(c.pending_seq()[k] == c.pending_seq().subrange(
                0,
                b.pending_seq().len() as int,
            )[k]);
        }
    }
}

impl Runtime {
    /// The write-propagation pass: walking the arena upward from the written
    /// signal, marks every memo that (transitively) depends on it dirty and
    /// enqueues every effect that does, deduplicated against the pending
    /// queue.  Since every dependency edge points downward, one ascending
    /// sweep reaches the full downstream closure.
    fn mark_and_enqueue(&mut self, s: usize)
        requires
            old(self).wf_base(),
            (s as int) < old(self).n_nodes(),
        ensures
            final(self).wf_base(),
            mark_frame(*old(self), *final(self)),
            forall|e: int|
                #![trigger old(self).deps_at(e)]
                old(self).is_effect(e) && !old(self).node_at(e).disposed && dep_ids_has(
                    old(self).deps_at(e),
                    s,
                ) ==> final(self).pending_seq().contains(e as usize),
    {
        let n = self.nodes.len();
        let mut marked: Vec<bool> = Vec::new();
        while marked.len() < n
            invariant
                marked.len() <= n,
                forall|j: int| 0 <= j < marked.len() ==> marked@[j] == false,
            decreases n - marked.len(),
        {
            marked.push(false);
        }
        marked.set(s, true);
        proof {
            lemma_eval_frame_refl(*self, Option::None);
            assert(self.pending_seq().subrange(0, self.pending_seq().len() as int)
                =~= self.pending_seq());
            assert(mark_frame(*old(self), *self));
        }
        let mut i: usize = s + 1;
        proof {
            assert forall|e: int|
                #![trigger old(self).deps_at(e)]
                old(self).is_effect(e) && e < i as int && !old(self).node_at(e).disposed
                    && dep_ids_has(old(self).deps_at(e), s) implies self.pending_seq().contains(
                e as usize,
            ) by {
                assert(old(self).node_wf(e));
                let j = choose|j: int|
                    0 <= j < old(self).deps_at(e).len() && (#[trigger] old(self).deps_at(
                        e,
                    )[j]).0 == s;
                assert((old(self).deps_at(e)[j].0 as int) < e);
                assert(false);
            }
        }
        while i < n
            invariant
                self.wf_base(),
                mark_frame(*old(self), *self),
                n == self.n_nodes(),
                (s as int) < n,
                s < i,
                marked.len() == n,
                marked@[s as int] == true,
                forall|e: int|
                    #![trigger old(self).deps_at(e)]
                    old(self).is_effect(e) && e < i && !old(self).node_at(e).disposed
                        && dep_ids_has(old(self).deps_at(e), s) ==> self.pending_seq().contains(
                        e as usize,
                    ),
            decreases n - i,
        {
            proof {
                assert(self.node_wf(i as int));
            }
            let disposed = self.nodes[i].disposed;
            let mut hit: bool = false;
            let mut k: usize = 0;
            let deps_len = self.nodes[i].deps.len();
            while k < deps_len
                invariant
                    deps_len == self.node_at(i as int).deps@.len(),
                    (i as int) < self.n_nodes(),
                    self.wf_base(),
                    marked.len() == self.n_nodes(),
                    k <= deps_len,
                    !hit ==> forall|j: int|
                        0 <= j < k ==> marked@[(#[trigger] self.node_at(
                            i as int,
                        ).deps@[j]).0 as int] == false,
                decreases deps_len - k,
            {
                proof {
                    assert(self.node_wf(i as int));
                }
                let d = self.nodes[i].deps[k].0;
                if marked[d] {
                    hit = true;
                    k = deps_len;
                } else {
                    k += 1;
                }
            }
            if hit && !disposed {
                let ghost mid = *self;
                let is_memo_node = match &self.nodes[i].kind {
                    NodeKind::Memo { .. } => true,
                    _ => false,
                };
                if is_memo_node {
                    match &mut self.nodes[i].kind {
                        NodeKind::Memo { dirty, .. } => {
                            *dirty = true;
                        },
                        _ => {},
                    }
                    marked.set(i, true);
                    proof {
                        lemma_scopes_transfer(mid, *self);
                        lemma_pending_transfer(mid, *self);
                        assert forall|j: int| 0 <= j < self.n_nodes() implies self.node_wf(j) by {
                            assert(mid.node_wf(j));
                            if j != i as int {
                                assert(self.node_at(j) == mid.node_at(j));
                            }
                        }
                        assert(mark_frame(mid, *self)) by {
                            assert forall|j: int|
                                0 <= j < mid.n_nodes() implies {
                                let a = mid.node_at(j);
                                let b = #[trigger] self.node_at(j);
                                &&& b.scope == a.scope
                                &&& b.disposed == a.disposed
                                &&& b.value == a.value
                                &&& b.version == a.version
                                &&& b.deps == a.deps
                                &&& b.subs == a.subs
                                &&& b.log == a.log
                                &&& kind_like(a.kind, b.kind)
                                &&& ((a.kind is Signal || a.kind is Effect) ==> b.kind == a.kind)
                                &&& (mid.memo_dirty(j) ==> self.memo_dirty(j))
                            } by {
                                if j != i as int {
                                    assert(self.node_at(j) == mid.node_at(j));
                                    assert(kind_like(mid.node_at(j).kind, mid.node_at(j).kind))
                                        by {
                                        lemma_eval_frame_refl(mid, Option::None);
                                    }
                                }
                            }
                            assert(self.pending_seq().subrange(
                                0,
                                mid.pending_seq().len() as int,
                            ) =~= mid.pending_seq());
                        }
                        lemma_mark_frame_trans(*old(self), mid, *self);
                    }
                } else {
                    let is_effect_node = match &self.nodes[i].kind {
                        NodeKind::Effect { .. } => true,
                        _ => false,
                    };
                    if is_effect_node {
                        if !usize_vec_has(&self.pending, i) {
                            self.pending.push(i);
                            proof {
                                lemma_scopes_transfer(mid, *self);
                                assert forall|j: int|
                                    0 <= j < self.n_nodes() implies self.node_wf(j) by {
                                    assert(mid.node_wf(j));
                                    assert(self.node_at(j) == mid.node_at(j));
                                }
                                assert forall|k2: int|
                                    0 <= k2 < self.pending_seq().len() implies self.is_effect(
                                    self.pending_seq()[k2] as int,
                                ) by {
                                    if k2 < mid.pending_seq().len() {
                                        assert(mid.is_effect(mid.pending_seq()[k2] as int));
                                    }
                                }
                                assert forall|k1: int, k2: int|
                                    0 <= k1 < k2 < self.pending_seq().len() implies self
                                    .pending_seq()[k1] != self.pending_seq()[k2] by {
                                    if k2 < mid.pending_seq().len() {
                                        assert(mid.pending_seq()[k1] != mid.pending_seq()[k2]);
                                    } else {
                                        assert(self.pending_seq()[k2] == i);
                                        assert(!mid.pending_seq().contains(i));
                                        assert(self.pending_seq()[k1] == mid.pending_seq()[k1]);
                                        if self.pending_seq()[k1] == i {
                                            assert(mid.pending_seq().contains(i));
                                        }
                                    }
                                }
                                assert(mark_frame(mid, *self)) by {
                                    assert forall|j: int|
                                        0 <= j < mid.n_nodes() implies {
                                        let a = mid.node_at(j);
                                        let b = #[trigger] self.node_at(j);
                                        &&& b.scope == a.scope
                                        &&& b.disposed == a.disposed
                                        &&& b.value == a.value
                                        &&& b.version == a.version
                                        &&& b.deps == a.deps
                                        &&& b.subs == a.subs
                                        &&& b.log == a.log
                                        &&& kind_like(a.kind, b.kind)
                                        &&& ((a.kind is Signal || a.kind is Effect) ==> b.kind
                                            == a.kind)
                                        &&& (mid.memo_dirty(j) ==> self.memo_dirty(j))
                                    } by {
                                        assert(self.node_at(j) == mid.node_at(j));
                                        assert(kind_like(mid.node_at(j).kind, mid.node_at(j).kind))
                                            by {
                                            lemma_eval_frame_refl(mid, Option::None);
                                        }
                                    }
                                    assert(self.pending_seq().subrange(
                                        0,
                                        mid.pending_seq().len() as int,
                                    ) =~= mid.pending_seq());
                                }
                                lemma_mark_frame_trans(*old(self), mid, *self);
                            }
                        }
                    }
                }
            }
            i += 1;
        }
    }
}


/// What one scheduler step (a write without its drain, or one effect run)
/// may do to the state: versions move forward, memos may be marked or
/// refreshed, effects may be logged and requeued, diagnostics may grow; the
/// arena shape, the scope tree and every disposal flag stay put.
pub open spec fn run_step(pre: Runtime, post: Runtime) -> bool {
    &&& post.n_nodes() == pre.n_nodes()
    &&& post.scopes_seq() == pre.scopes_seq()
    &&& pre.epoch_of() <= post.epoch_of()
    &&& post.cleanup_record_seq() == pre.cleanup_record_seq()
    &&& pre.clock_of() <= post.clock_of()
    &&& pre.diagnostics_seq().is_prefix_of(post.diagnostics_seq())
    &&& (forall|i: int|
        0 <= i < pre.n_nodes() ==> #[trigger] post.node_at(i).scope == pre.node_at(i).scope)
    &&& (forall|i: int|
        0 <= i < pre.n_nodes() ==> #[trigger] post.node_at(i).disposed == pre.node_at(i).disposed)
    &&& (forall|i: int|
        0 <= i < pre.n_nodes() ==> pre.version_at(i) <= #[trigger] post.version_at(i))
    &&& (forall|i: int|
        0 <= i < pre.n_nodes() ==> kind_like(
            pre.node_at(i).kind,
            #[trigger] post.node_at(i).kind,
        ))
}

/// The node's computation faulted between the two states: its id was newly
/// appended to the diagnostic record.
pub open spec fn faulted_between(pre: Runtime, post: Runtime, e: usize) -> bool {
    exists|k: int|
        pre.diagnostics_seq().len() <= k < post.diagnostics_seq().len()
            && #[trigger] post.diagnostics_seq()[k] == e
}

/// `run_step` holds reflexively.
proof fn lemma_run_step_refl(a: Runtime)
    ensures
        run_step(a, a),
{
    lemma_eval_frame_refl(a, Option::None);
    assert(a.diagnostics_seq().is_prefix_of(a.diagnostics_seq())) by {
        assert(a.diagnostics_seq().subrange(0, a.diagnostics_seq().len() as int)
            =~= a.diagnostics_seq());
    }
}

/// `run_step` composes.
proof fn lemma_run_step_trans(a: Runtime, b: Runtime, c: Runtime)
    requires
        run_step(a, b),
        run_step(b, c),
    ensures
        run_step(a, c),
{
    assert forall|i: int|
        0 <= i < a.n_nodes() implies kind_like(a.node_at(i).kind, #[trigger] c.node_at(i).kind) by {
        assert(kind_like(a.node_at(i).kind, b.node_at(i).kind));
        assert(kind_like(b.node_at(i).kind, c.node_at(i).kind));
    }
    assert(a.diagnostics_seq().is_prefix_of(c.diagnostics_seq())) by {
        assert forall|k: int| 0 <= k < a.diagnostics_seq().len() implies c.diagnostics_seq()[k]
            == a.diagnostics_seq()[k] by {
            assert(b.diagnostics_seq()[k] == b.diagnostics_seq().subrange(
                0,
                a.diagnostics_seq().len() as int,
            )[k]);
            assert(c.diagnostics_seq()[k] == c.diagnostics_seq().subrange(
                0,
                b.diagnostics_seq().len() as int,
            )[k]);
        }
        assert(a.diagnostics_seq() =~= c.diagnostics_seq().subrange(
            0,
            a.diagnostics_seq().len() as int,
        ));
    }
}

impl Runtime {
    /// No effect in this graph performs a write of its own.  Under this,
    /// draining never enqueues further work, so each effect runs at most
    /// once per drain.
    pub open spec fn no_effect_writes(self) -> bool {
        forall|i: int| #[trigger]
            self.is_effect(i) ==> (match self.node_at(i).kind {
                NodeKind::Effect { write_to, .. } => write_to is None,
                _ => true,
            })
    }

    /// Does the effect at `e` write no signal after its runs?
    pub open spec fn effect_writes_nothing(self, e: int) -> bool {
        match self.node_at(e).kind {
            NodeKind::Effect { write_to, .. } => write_to is None,
            _ => true,
        }
    }

    /// Is `i` a signal configured to skip writes of an equal value?
    pub open spec fn sig_eq_skip(self, i: int) -> bool {
        match self.node_at(i).kind {
            NodeKind::Signal { eq_skip } => eq_skip,
            _ => false,
        }
    }

    /// The write itself, without the drain that a top-level write appends:
    /// stores the value, bumps the version from the global clock, marks the
    /// downstream memos dirty and enqueues the downstream effects.  Writing a
    /// disposed signal, or an equal value into an equality-skipping signal,
    /// changes nothing at all.
    fn write_inner(&mut self, t: usize, v: i64)
        requires
            old(self).wf_base(),
            old(self).is_signal(t as int),
        ensures
            final(self).wf_base(),
            run_step(*old(self), *final(self)),
            final(self).batch_depth_of() == old(self).batch_depth_of(),
            final(self).epoch_of() == old(self).epoch_of(),
            final(self).observer_seq() == old(self).observer_seq(),
            old(self).pending_seq().is_prefix_of(final(self).pending_seq()),
            final(self).diagnostics_seq() == old(self).diagnostics_seq(),
            (old(self).node_at(t as int).disposed || (old(self).sig_eq_skip(t as int) && v == old(self).value_at(t as int))) ==> *final(self) == *old(self),
            forall|i: int| 0 <= i < old(self).n_nodes() ==> #[trigger] final(self).log_at(i) == old(self).log_at(i),
            forall|i: int|
                0 <= i < old(self).n_nodes() ==> (#[trigger] final(self).node_at(i)).deps == old(self).node_at(i).deps,
            forall|i: int|
                0 <= i < old(self).n_nodes() && (old(self).node_at(i).kind is Signal || old(self).node_at(i).kind is Effect) ==> (#[trigger] final(self).node_at(i)).kind == old(self).node_at(i).kind,
            forall|i: int|
                0 <= i < old(self).n_nodes() && i != t as int ==> (#[trigger] final(self).node_at(
                    i,
                )).value == old(self).node_at(i).value && final(self).version_at(i) == old(self).version_at(i),
            !(old(self).node_at(t as int).disposed || (old(self).sig_eq_skip(t as int) && v == old(self).value_at(t as int))) ==> {
                &&& final(self).value_at(t as int) == v
                &&& old(self).version_at(t as int) <= final(self).version_at(t as int)
                &&& (old(self).clock_of() < u64::MAX ==> final(self).version_at(t as int) > old(self).version_at(t as int))
                &&& (forall|e: int|
                    #![trigger old(self).deps_at(e)]
                    old(self).is_effect(e) && !old(self).node_at(e).disposed && dep_ids_has(
                        old(self).deps_at(e),
                        t,
                    ) ==> final(self).pending_seq().contains(e as usize))
            },
    {
        if self.nodes[t].disposed {
            proof {
                lemma_run_step_refl(*self);
                assert(self.pending_seq().is_prefix_of(self.pending_seq())) by {
                    assert(self.pending_seq().subrange(0, self.pending_seq().len() as int)
                        =~= self.pending_seq());
                }
            }
            return ;
        }
        let skip = match &self.nodes[t].kind {
            NodeKind::Signal { eq_skip } => *eq_skip && self.nodes[t].value == v,
            _ => false,
        };
        if skip {
            proof {
                lemma_run_step_refl(*self);
                assert(self.pending_seq().is_prefix_of(self.pending_seq())) by {
                    assert(self.pending_seq().subrange(0, self.pending_seq().len() as int)
                        =~= self.pending_seq());
                }
            }
            return ;
        }
        proof {
            assert(old(self).node_wf(t as int));
        }
        let c = self.tick();
        self.nodes[t].value = v;
        self.nodes[t].version = c;
        let ghost g1 = *self;
        proof {
            lemma_scopes_transfer(*old(self), g1);
            lemma_pending_transfer(*old(self), g1);
            assert forall|i: int| 0 <= i < self.n_nodes() implies self.node_wf(i) by {
                assert(old(self).node_wf(i));
                if i != t as int {
                    assert(self.node_at(i) == old(self).node_at(i));
                }
                assert forall|kk: int|
                    0 <= kk < self.node_at(i).deps@.len() implies {
                    let (dd, vv) = #[trigger] self.node_at(i).deps@[kk];
                    &&& (dd as int) < i
                    &&& vv <= self.node_at(dd as int).version
                } by {
                    assert(self.node_at(i).deps@[kk] == old(self).node_at(i).deps@[kk]);
                    let (dd, vv) = old(self).node_at(i).deps@[kk];
                    assert(vv <= old(self).node_at(dd as int).version);
                    assert(old(self).node_at(dd as int).version <= self.node_at(dd as int).version);
                }
            }
        }
        self.mark_and_enqueue(t);
        proof {
            assert(run_step(*old(self), *self)) by {
                assert(mark_frame(g1, *self));
                assert forall|i: int|
                    0 <= i < old(self).n_nodes() implies kind_like(
                    old(self).node_at(i).kind,
                    #[trigger] self.node_at(i).kind,
                ) by {
                    lemma_eval_frame_refl(g1, Option::None);
                    assert(kind_like(g1.node_at(i).kind, self.node_at(i).kind));
                    assert(g1.node_at(i).kind == old(self).node_at(i).kind);
                }
                assert forall|i: int|
                    0 <= i < old(self).n_nodes() implies old(self).version_at(i) <= (
                #[trigger] self.version_at(i)) by {
                    assert(self.node_at(i).version == g1.node_at(i).version);
                }
                assert(self.diagnostics_seq().is_prefix_of(self.diagnostics_seq())) by {
                    assert(self.diagnostics_seq().subrange(0, self.diagnostics_seq().len() as int)
                        =~= self.diagnostics_seq());
                }
            }
            assert(old(self).pending_seq().is_prefix_of(self.pending_seq())) by {
                assert(self.pending_seq().subrange(0, g1.pending_seq().len() as int)
                    == g1.pending_seq());
                assert(g1.pending_seq() == old(self).pending_seq());
            }
            assert forall|i: int|
                0 <= i < old(self).n_nodes() && i != t as int implies (
            #[trigger] self.node_at(i)).value == old(self).node_at(i).value && self.version_at(i)
                == old(self).version_at(i) by {
                assert(self.node_at(i).value == g1.node_at(i).value);
                assert(self.node_at(i).version == g1.node_at(i).version);
            }
            assert forall|i: int|
                0 <= i < old(self).n_nodes() implies #[trigger] self.log_at(i) == old(self).log_at(
                i,
            ) by {
                assert(self.node_at(i).log == g1.node_at(i).log);
            }
            assert forall|i: int|
                0 <= i < old(self).n_nodes() implies (#[trigger] self.node_at(i)).deps == old(self).node_at(i).deps by {
                assert(self.node_at(i).deps == g1.node_at(i).deps);
            }
            assert forall|i: int|
                0 <= i < old(self).n_nodes() && (old(self).node_at(i).kind is Signal || old(self).node_at(i).kind is Effect) implies (#[trigger] self.node_at(i)).kind == old(self).node_at(i).kind by {
                assert(g1.node_at(i).kind == old(self).node_at(i).kind);
                assert(self.node_at(i).kind == g1.node_at(i).kind);
            }
            assert(self.value_at(t as int) == v) by {
                assert(self.node_at(t as int).value == g1.node_at(t as int).value);
            }
            assert(self.version_at(t as int) == c) by {
                assert(self.node_at(t as int).version == g1.node_at(t as int).version);
            }
            assert forall|e: int|
                #![trigger old(self).deps_at(e)]
                old(self).is_effect(e) && !old(self).node_at(e).disposed && dep_ids_has(
                    old(self).deps_at(e),
                    t,
                ) implies self.pending_seq().contains(e as usize) by {
                assert(g1.node_at(e) == old(self).node_at(e));
                assert(g1.is_effect(e));
                assert(g1.deps_at(e) == old(self).deps_at(e));
            }
        }
    }
}


/// A state that differs from `a` only in the observer stack is one
/// `run_step` away.
proof fn lemma_run_step_stack_only(a: Runtime, b: Runtime)
    requires
        b.nodes_seq() == a.nodes_seq(),
        b.scopes_seq() == a.scopes_seq(),
        a.epoch_of() <= b.epoch_of(),
        b.cleanup_record_seq() == a.cleanup_record_seq(),
        b.clock_of() == a.clock_of(),
        b.diagnostics_seq() == a.diagnostics_seq(),
    ensures
        run_step(a, b),
{
    lemma_eval_frame_refl(a, Option::None);
    assert forall|i: int|
        0 <= i < a.n_nodes() implies kind_like(a.node_at(i).kind, #[trigger] b.node_at(i).kind) by {
        assert(b.node_at(i) == a.node_at(i));
        assert(kind_like(a.node_at(i).kind, a.node_at(i).kind));
    }
    assert forall|i: int|
        0 <= i < a.n_nodes() implies a.version_at(i) <= #[trigger] b.version_at(i) by {
        assert(b.node_at(i) == a.node_at(i));
    }
    assert forall|i: int|
        0 <= i < a.n_nodes() implies #[trigger] b.node_at(i).scope == a.node_at(i).scope
        && b.node_at(i).disposed == a.node_at(i).disposed by {
        assert(b.node_at(i) == a.node_at(i));
    }
    assert(a.diagnostics_seq().is_prefix_of(b.diagnostics_seq())) by {
        assert(a.diagnostics_seq() =~= b.diagnostics_seq().subrange(
            0,
            a.diagnostics_seq().len() as int,
        ));
    }
}

/// `wf_base` carries over when only the pending queue changed, provided the
/// new queue keeps the queue invariants.
proof fn lemma_wf_base_congruence_pending(a: Runtime, b: Runtime)
    requires
        a.wf_base(),
        b.nodes_seq() == a.nodes_seq(),
        b.scopes_seq() == a.scopes_seq(),
        a.clock_of() <= b.clock_of(),
        a.epoch_of() <= b.epoch_of(),
        forall|k: int|
            0 <= k < b.pending_seq().len() ==> b.is_effect(#[trigger] b.pending_seq()[k] as int),
        forall|k1: int, k2: int|
            0 <= k1 < k2 < b.pending_seq().len() ==> b.pending_seq()[k1] != b.pending_seq()[k2],
    ensures
        b.wf_base(),
{
    assert forall|s: int| 0 <= s < b.n_scopes() implies b.scope_wf(s) by {
        assert(a.scope_wf(s));
    }
    assert forall|i: int| 0 <= i < b.n_nodes() implies b.node_wf(i) by {
        assert(a.node_wf(i));
    }
}

/// A state that differs from `a` in one node only, in ways `run_step`
/// allows, is one `run_step` away.
proof fn lemma_run_step_local(a: Runtime, b: Runtime, e: int)
    requires
        b.n_nodes() == a.n_nodes(),
        b.scopes_seq() == a.scopes_seq(),
        b.batch_depth_of() == a.batch_depth_of(),
        b.epoch_of() == a.epoch_of(),
        b.cleanup_record_seq() == a.cleanup_record_seq(),
        a.clock_of() <= b.clock_of(),
        a.diagnostics_seq().is_prefix_of(b.diagnostics_seq()),
        forall|i: int| 0 <= i < a.n_nodes() && i != e ==> #[trigger] b.node_at(i) == a.node_at(i),
        0 <= e < a.n_nodes(),
        b.node_at(e).scope == a.node_at(e).scope,
        b.node_at(e).disposed == a.node_at(e).disposed,
        a.version_at(e) <= b.version_at(e),
        kind_like(a.node_at(e).kind, b.node_at(e).kind),
    ensures
        run_step(a, b),
{
    lemma_eval_frame_refl(a, Option::None);
    assert forall|i: int|
        0 <= i < a.n_nodes() implies kind_like(a.node_at(i).kind, #[trigger] b.node_at(i).kind) by {
        if i != e {
            assert(b.node_at(i) == a.node_at(i));
            assert(kind_like(a.node_at(i).kind, a.node_at(i).kind));
        }
    }
}

impl Runtime {
    /// Runs one pending effect within a drain, if it still has to run:
    /// refreshes its memo dependencies, reruns the computation only when some
    /// dependency's version has moved since the last run (rebuilding the
    /// dependency set wholesale), logs the observed value, and performs the
    /// effect's write, whose propagation enqueues into the same drain.  A
    /// faulting computation is reported and the effect is skipped for the
    /// rest of the drain.  Exceeding the rerun bound aborts with
    /// `InfiniteUpdateLoop`.
    fn run_effect(&mut self, e: usize) -> (r: Result<(), ReactiveError>)
        requires
            old(self).wf_base(),
            old(self).is_effect(e as int),
            old(self).observer_seq().len() == 0,
        ensures
            final(self).wf_base(),
            run_step(*old(self), *final(self)),
            final(self).observer_seq().len() == 0,
            final(self).batch_depth_of() == old(self).batch_depth_of(),
            final(self).epoch_of() == old(self).epoch_of(),
            old(self).pending_seq().is_prefix_of(final(self).pending_seq()),
            r is Err ==> r == Result::<(), ReactiveError>::Err(ReactiveError::InfiniteUpdateLoop),
            (match old(self).node_at(e as int).kind {
                NodeKind::Effect { last_epoch, .. } => last_epoch != old(self).epoch_of(),
                _ => false,
            }) ==> r is Ok,
            old(self).node_at(e as int).disposed ==> *final(self) == *old(self) && r is Ok,
            (!old(self).node_at(e as int).disposed && (match old(self).node_at(e as int).kind {
                NodeKind::Effect { last_epoch: le0, failed_in: fi0, .. } => le0 < old(self).epoch_of() && (match fi0 {
                    Option::Some(f) => f < old(self).epoch_of(),
                    Option::None => true,
                }),
                _ => false,
            }) && (exists|j: int|
                0 <= j < old(self).deps_at(e as int).len() && (#[trigger] old(self).deps_at(
                    e as int,
                )[j]).1 != old(self).version_at(old(self).deps_at(e as int)[j].0 as int)) && (match old(self).node_at(e as int).kind {
                NodeKind::Effect { expr: ex0, .. } => old(self).fault_free(ex0),
                _ => false,
            })) ==> final(self).log_at(e as int).len() == old(self).log_at(e as int).len() + 1,
            forall|i: int|
                0 <= i < old(self).n_nodes() && i != e as int ==> #[trigger] final(self).log_at(i)
                    == old(self).log_at(i),
            forall|i: int|
                old(self).is_effect(i) && i != e as int ==> #[trigger] final(self).deps_at(i)
                    == old(self).deps_at(i),
            (forall|k: int|
                0 <= k < old(self).deps_at(e as int).len() ==> final(self).version_at(
                    (#[trigger] old(self).deps_at(e as int)[k]).0 as int,
                ) == old(self).deps_at(e as int)[k].1) ==> {
                &&& final(self).log_at(e as int) == old(self).log_at(e as int)
                &&& final(self).deps_at(e as int) == old(self).deps_at(e as int)
                &&& final(self).node_at(e as int).kind == old(self).node_at(e as int).kind
            },
            old(self).effect_writes_nothing(e as int) ==> final(self).pending_seq() == old(self).pending_seq(),
            old(self).effect_writes_nothing(e as int) ==> (forall|i: int|
                old(self).is_signal(i) ==> (#[trigger] final(self).node_at(i)).value == old(self).node_at(i).value && final(self).version_at(i) == old(self).version_at(i)),
            forall|i: int|
                old(self).is_effect(i) && i != e as int ==> (#[trigger] final(self).node_at(
                    i,
                )).kind == old(self).node_at(i).kind,
            final(self).log_at(e as int) == old(self).log_at(e as int) || final(self).log_at(
                e as int,
            ).len() == old(self).log_at(e as int).len() + 1,
            (!old(self).node_at(e as int).disposed && (match old(self).node_at(e as int).kind {
                NodeKind::Effect { last_epoch, failed_in, .. } => last_epoch < old(self).epoch_of()
                    && (match failed_in {
                    Option::Some(f) => f < old(self).epoch_of(),
                    Option::None => true,
                }),
                _ => false,
            }) && (exists|j: int|
                0 <= j < old(self).deps_at(e as int).len() && (#[trigger] old(self).deps_at(
                    e as int,
                )[j]).1 != old(self).version_at(old(self).deps_at(e as int)[j].0 as int)))
                ==> final(self).log_at(e as int).len() == old(self).log_at(e as int).len() + 1
                || faulted_between(*old(self), *final(self), e),
    {
        proof {
            lemma_run_step_refl(*old(self));
            assert(self.pending_seq().is_prefix_of(self.pending_seq())) by {
                assert(self.pending_seq().subrange(0, self.pending_seq().len() as int)
                    =~= self.pending_seq());
            }
        }
        if self.nodes[e].disposed {
            return Result::Ok(());
        }
        let ep = self.epoch;
        let (last_epoch, runs, failed) = match &self.nodes[e].kind {
            NodeKind::Effect { last_epoch, runs_in_epoch, failed_in, .. } => (
                *last_epoch,
                *runs_in_epoch,
                *failed_in,
            ),
            _ => (0, 0, Option::None),
        };
        let skip_failed = match failed {
            Option::Some(fe) => fe == ep,
            Option::None => false,
        };
        if skip_failed {
            return Result::Ok(());
        }
        // refresh the recorded dependencies so the version comparison sees
        // settled memo versions
        let dn = self.nodes[e].deps.len();
        let mut k: usize = 0;
        while k < dn
            invariant
                self.wf_base(),
                self.observer_seq().len() == 0,
                run_step(*old(self), *self),
                self.batch_depth_of() == old(self).batch_depth_of(),
                self.epoch_of() == old(self).epoch_of(),
                old(self).pending_seq().is_prefix_of(self.pending_seq()),
                self.pending_seq() == old(self).pending_seq(),
                self.diagnostics_seq() == old(self).diagnostics_seq(),
                self.is_effect(e as int),
                (e as int) < self.n_nodes(),
                self.node_at(e as int).deps@ == old(self).node_at(e as int).deps@,
                self.node_at(e as int).kind == old(self).node_at(e as int).kind,
                self.log_at(e as int) == old(self).log_at(e as int),
                forall|i: int|
                    0 <= i < old(self).n_nodes() ==> #[trigger] self.log_at(i) == old(self).log_at(
                        i,
                    ),
                forall|i: int|
                    old(self).is_effect(i) ==> #[trigger] self.deps_at(i) == old(self).deps_at(i),
                forall|i: int|
                    old(self).is_effect(i) ==> (#[trigger] self.node_at(i)).kind == old(self).node_at(i).kind,
                forall|i: int|
                    old(self).is_signal(i) ==> (#[trigger] self.node_at(i)).value == old(self).node_at(i).value && self.version_at(i) == old(self).version_at(i),
                dn == self.node_at(e as int).deps@.len(),
                k <= dn,
            decreases dn - k,
        {
            proof {
                assert(self.node_wf(e as int));
            }
            let d = self.nodes[e].deps[k].0;
            let ghost mid = *self;
            let _ = self.refresh(d);
            proof {
                assert(eval_frame(mid, *self, Option::None));
                assert(mid.is_effect(e as int));
                assert(self.deps_at(e as int) == mid.deps_at(e as int) && self.node_at(
                    e as int,
                ).kind == mid.node_at(e as int).kind);
                assert forall|i: int|
                    0 <= i < old(self).n_nodes() implies #[trigger] self.log_at(i) == old(self).log_at(i) by {
                    assert(self.log_at(i) == mid.log_at(i));
                }
                assert forall|i: int|
                    old(self).is_effect(i) implies #[trigger] self.deps_at(i) == old(self).deps_at(
                    i,
                ) && self.node_at(i).kind == old(self).node_at(i).kind by {
                    vstd::std_specs::vec::axiom_spec_len(&mid.nodes);
                    assert(kind_like(old(self).node_at(i).kind, mid.node_at(i).kind));
                    assert(mid.is_effect(i));
                    assert((i as usize) as int == i);
                    assert(mid.is_effect((i as usize) as int));
                    assert(self.deps_at((i as usize) as int) == mid.deps_at((i as usize) as int));
                    assert(self.node_at((i as usize) as int).kind == mid.node_at(
                        (i as usize) as int,
                    ).kind);
                    assert(mid.node_at(i).kind == old(self).node_at(i).kind);
                }
                assert forall|i: int|
                    old(self).is_effect(i) implies (#[trigger] self.node_at(i)).kind == old(self).node_at(i).kind by {
                    assert(self.deps_at(i) == old(self).deps_at(i));
                }
                assert forall|i: int|
                    old(self).is_signal(i) implies (#[trigger] self.node_at(i)).value == old(self).node_at(i).value && self.version_at(i) == old(self).version_at(i) by {
                    assert(mid.is_signal(i));
                    assert(self.node_at(i).value == mid.node_at(i).value && self.version_at(i)
                        == mid.version_at(i));
                }
                assert(self.log_at(e as int) == mid.log_at(e as int));
                assert(run_step(mid, *self)) by {
                    assert(self.diagnostics_seq().is_prefix_of(self.diagnostics_seq())) by {
                        assert(self.diagnostics_seq().subrange(
                            0,
                            self.diagnostics_seq().len() as int,
                        ) =~= self.diagnostics_seq());
                    }
                }
                lemma_run_step_trans(*old(self), mid, *self);
            }
            k += 1;
        }
        // rerun only when something the effect last observed has moved
        let mut changed: bool = false;
        k = 0;
        while k < dn
            invariant
                self.wf_base(),
                self.is_effect(e as int),
                (e as int) < self.n_nodes(),
                dn == self.node_at(e as int).deps@.len(),
                k <= dn,
                changed ==> exists|j: int|
                    0 <= j < dn && (#[trigger] self.node_at(e as int).deps@[j]).1 != self.node_at(
                        self.node_at(e as int).deps@[j].0 as int,
                    ).version,
                !changed ==> forall|j: int|
                    0 <= j < k ==> (#[trigger] self.node_at(e as int).deps@[j]).1 == self.node_at(
                        self.node_at(e as int).deps@[j].0 as int,
                    ).version,
            decreases dn - k,
        {
            proof {
                assert(self.node_wf(e as int));
            }
            let (d, vv) = self.nodes[e].deps[k];
            if self.nodes[d].version != vv {
                proof {
                    assert((#[trigger] self.node_at(e as int).deps@[k as int]).1 != self.node_at(
                        self.node_at(e as int).deps@[k as int].0 as int,
                    ).version);
                }
                changed = true;
                k = dn;
            } else {
                k += 1;
            }
        }
        if !changed {
            proof {
                if !old(self).node_at(e as int).disposed && (match old(self).node_at(e as int).kind {
                NodeKind::Effect { last_epoch: le0, failed_in: fi0, .. } => le0 < old(self).epoch_of() && (match fi0 {
                    Option::Some(f) => f < old(self).epoch_of(),
                    Option::None => true,
                }),
                _ => false,
            }) && (exists|j: int|
                0 <= j < old(self).deps_at(e as int).len() && (#[trigger] old(self).deps_at(
                    e as int,
                )[j]).1 != old(self).version_at(old(self).deps_at(e as int)[j].0 as int)) {
                    let j = choose|j: int|
                        0 <= j < old(self).deps_at(e as int).len() && (#[trigger] old(self).deps_at(e as int)[j]).1 != old(self).version_at(old(self).deps_at(
                            e as int,
                        )[j].0 as int);
                    let (dj, vj) = old(self).deps_at(e as int)[j];
                    assert(self.node_at(e as int).deps@[j] == old(self).deps_at(e as int)[j]);
                    assert(old(self).node_wf(e as int));
                    assert(vj <= old(self).version_at(dj as int));
                    assert(old(self).version_at(dj as int) <= self.version_at(dj as int));
                    assert(self.node_at(e as int).deps@[j].1 == self.node_at(
                        self.node_at(e as int).deps@[j].0 as int,
                    ).version);
                    assert(false);
                }
            }
            return Result::Ok(());
        }
        let ghost jw: int = choose|j: int|
            0 <= j < dn && (#[trigger] self.node_at(e as int).deps@[j]).1 != self.node_at(
                self.node_at(e as int).deps@[j].0 as int,
            ).version;
        // cycle guard
        let new_runs = if last_epoch == ep {
            runs
        } else {
            0
        };
        if new_runs >= EFFECT_RUN_LIMIT {
            proof {
                if (match old(self).node_at(e as int).kind {
                    NodeKind::Effect { last_epoch: le1, .. } => le1 != old(self).epoch_of(),
                    _ => false,
                }) {
                    assert(new_runs == 0);
                    assert(false);
                }
                if !old(self).node_at(e as int).disposed && (match old(self).node_at(e as int).kind {
                NodeKind::Effect { last_epoch: le0, failed_in: fi0, .. } => le0 < old(self).epoch_of() && (match fi0 {
                    Option::Some(f) => f < old(self).epoch_of(),
                    Option::None => true,
                }),
                _ => false,
            }) && (exists|j: int|
                0 <= j < old(self).deps_at(e as int).len() && (#[trigger] old(self).deps_at(
                    e as int,
                )[j]).1 != old(self).version_at(old(self).deps_at(e as int)[j].0 as int)) {
                    assert(new_runs == 0);
                    assert(false);
                }
            }
            return Result::Err(ReactiveError::InfiniteUpdateLoop);
        }
        let ghost g1 = *self;
        match &mut self.nodes[e].kind {
            NodeKind::Effect { last_epoch, runs_in_epoch, .. } => {
                *last_epoch = ep;
                *runs_in_epoch = new_runs + 1;
            },
            _ => {},
        }
        proof {
            lemma_scopes_transfer(g1, *self);
            lemma_pending_transfer(g1, *self);
            assert forall|i: int| 0 <= i < self.n_nodes() implies self.node_wf(i) by {
                assert(g1.node_wf(i));
                if i != e as int {
                    assert(self.node_at(i) == g1.node_at(i));
                }
            }
            assert(self.diagnostics_seq().is_prefix_of(self.diagnostics_seq())) by {
                assert(self.diagnostics_seq().subrange(0, self.diagnostics_seq().len() as int)
                    =~= self.diagnostics_seq());
            }
            lemma_run_step_local(g1, *self, e as int);
            lemma_run_step_trans(*old(self), g1, *self);
        }
        let ghost gpre = *self;
        self.fire_effect(e, ep);
        proof {
            lemma_run_step_trans(*old(self), gpre, *self);
            assert(old(self).pending_seq().is_prefix_of(self.pending_seq())) by {
                assert(gpre.pending_seq() == old(self).pending_seq());
            }
            assert forall|i: int|
                0 <= i < old(self).n_nodes() && i != e as int implies #[trigger] self.log_at(i)
                == old(self).log_at(i) by {
                assert(g1.log_at(i) == old(self).log_at(i));
                assert(gpre.node_at(i) == g1.node_at(i));
                assert(self.log_at(i) == gpre.log_at(i));
            }
            assert forall|i: int|
                old(self).is_effect(i) && i != e as int implies #[trigger] self.deps_at(i) == old(self).deps_at(i) by {
                assert(g1.deps_at(i) == old(self).deps_at(i));
                assert(gpre.node_at(i) == g1.node_at(i));
                assert(gpre.is_effect(i)) by {
                    assert(kind_like(old(self).node_at(i).kind, g1.node_at(i).kind));
                }
                assert(self.deps_at(i) == gpre.deps_at(i));
            }
            assert(gpre.pending_seq() == old(self).pending_seq());
            assert(gpre.log_at(e as int) == old(self).log_at(e as int));
            assert(old(self).effect_writes_nothing(e as int)
                ==> gpre.effect_writes_nothing(e as int)) by {
                assert(gpre.node_at(e as int).kind is Effect ==> g1.node_at(e as int).kind
                    is Effect);
            }
            // the rerun only happened because a recorded version had moved,
            // and versions never move back
            lemma_run_step_trans(g1, gpre, *self);
            assert(g1.node_at(e as int).deps@ == old(self).deps_at(e as int));
            let (dw, vw) = old(self).deps_at(e as int)[jw];
            assert(g1.node_wf(e as int));
            assert(vw < g1.version_at(dw as int));
            assert(g1.version_at(dw as int) <= self.version_at(dw as int));
            assert(self.version_at(dw as int) != vw);
            if !old(self).node_at(e as int).disposed && (match old(self).node_at(e as int).kind {
                NodeKind::Effect { last_epoch: le0, failed_in: fi0, .. } => le0 < old(self).epoch_of() && (match fi0 {
                    Option::Some(f) => f < old(self).epoch_of(),
                    Option::None => true,
                }),
                _ => false,
            }) && (exists|j: int|
                0 <= j < old(self).deps_at(e as int).len() && (#[trigger] old(self).deps_at(
                    e as int,
                )[j]).1 != old(self).version_at(old(self).deps_at(e as int)[j].0 as int)) {
                if (match old(self).node_at(e as int).kind {
                    NodeKind::Effect { expr: ex0, .. } => old(self).fault_free(ex0),
                    _ => false,
                }) {
                    assert((match gpre.node_at(e as int).kind {
                        NodeKind::Effect { expr: ex1, .. } => gpre.fault_free(ex1),
                        _ => true,
                    })) by {
                        assert forall|i: int|
                            0 <= i < old(self).n_nodes() implies kind_like(
                            old(self).node_at(i).kind,
                            #[trigger] gpre.node_at(i).kind,
                        ) by {
                            assert(kind_like(old(self).node_at(i).kind, g1.node_at(i).kind));
                            if i != e as int {
                                assert(gpre.node_at(i) == g1.node_at(i));
                            } else {
                                assert(kind_like(g1.node_at(i).kind, gpre.node_at(i).kind));
                            }
                        }
                        assert forall|i: int|
                            0 <= i < old(self).n_nodes() implies #[trigger] gpre.node_at(
                            i,
                        ).disposed == old(self).node_at(i).disposed by {
                            assert(g1.node_at(i).disposed == old(self).node_at(i).disposed);
                            if i != e as int {
                                assert(gpre.node_at(i) == g1.node_at(i));
                            } else {
                                assert(gpre.node_at(i).disposed == g1.node_at(i).disposed);
                            }
                        }
                        match old(self).node_at(e as int).kind {
                            NodeKind::Effect { expr: ex0, .. } => {
                                lemma_fault_free_congruence(*old(self), gpre, ex0);
                            },
                            _ => {},
                        }
                    }
                    assert(self.log_at(e as int) == gpre.log_at(e as int).push(
                        self.node_at(e as int).value,
                    ));
                    assert(self.log_at(e as int).len() == old(self).log_at(e as int).len() + 1);
                }
                if self.log_at(e as int) == gpre.log_at(e as int) {
                    assert(self.diagnostics_seq() == gpre.diagnostics_seq().push(e));
                    assert(gpre.diagnostics_seq() == old(self).diagnostics_seq());
                    assert(self.diagnostics_seq()[old(self).diagnostics_seq().len() as int] == e);
                    assert(faulted_between(*old(self), *self, e));
                } else {
                    assert(self.log_at(e as int) == gpre.log_at(e as int).push(
                        self.node_at(e as int).value,
                    ));
                    assert(self.log_at(e as int).len() == old(self).log_at(e as int).len() + 1);
                }
            }
        }
        Result::Ok(())
    }

    /// Runs an effect unconditionally: rebuilds its dependency set by
    /// re-running the computation under tracking, logs the observed value,
    /// and performs the effect's write (which marks and enqueues but never
    /// drains).  A faulting computation is reported on the diagnostic record
    /// and the effect is skipped for the rest of drain `ep`.
    fn fire_effect(&mut self, e: usize, ep: u64)
        requires
            old(self).wf_base(),
            old(self).is_effect(e as int),
            old(self).observer_seq().len() == 0,
            ep <= old(self).epoch_of(),
        ensures
            final(self).wf_base(),
            run_step(*old(self), *final(self)),
            final(self).observer_seq().len() == 0,
            final(self).batch_depth_of() == old(self).batch_depth_of(),
            final(self).epoch_of() == old(self).epoch_of(),
            old(self).pending_seq().is_prefix_of(final(self).pending_seq()),
            forall|i: int|
                0 <= i < old(self).n_nodes() && i != e as int ==> #[trigger] final(self).log_at(i)
                    == old(self).log_at(i),
            forall|i: int|
                old(self).is_effect(i) && i != e as int ==> #[trigger] final(self).deps_at(i)
                    == old(self).deps_at(i),
            forall|i: int|
                old(self).is_effect(i) && i != e as int ==> (#[trigger] final(self).node_at(
                    i,
                )).kind == old(self).node_at(i).kind,
            old(self).effect_writes_nothing(e as int) ==> final(self).pending_seq() == old(self).pending_seq(),
            final(self).log_at(e as int) == old(self).log_at(e as int) || final(self).log_at(
                e as int,
            ) == old(self).log_at(e as int).push(final(self).node_at(e as int).value),
            final(self).log_at(e as int) == old(self).log_at(e as int) ==> final(self).diagnostics_seq()
                == old(self).diagnostics_seq().push(e),
            (match old(self).node_at(e as int).kind {
                NodeKind::Effect { expr, .. } => no_tracked_reads(expr),
                _ => true,
            }) ==> final(self).deps_at(e as int) =~= Seq::<(usize, u64)>::empty(),
            old(self).effect_writes_nothing(e as int) ==> (forall|i: int|
                old(self).is_signal(i) ==> (#[trigger] final(self).node_at(i)).value == old(self).node_at(i).value && final(self).version_at(i) == old(self).version_at(i)),
            (match old(self).node_at(e as int).kind {
                NodeKind::Effect { expr, .. } => pure_expr(expr) ==> (match pure_val(
                    expr,
                    Option::None,
                ) {
                    Option::Some(u) => final(self).log_at(e as int) == old(self).log_at(
                        e as int,
                    ).push(u),
                    Option::None => final(self).log_at(e as int) == old(self).log_at(e as int),
                }),
                _ => true,
            }),
            (match old(self).node_at(e as int).kind {
                NodeKind::Effect { expr, .. } => old(self).fault_free(expr),
                _ => true,
            }) ==> final(self).log_at(e as int) == old(self).log_at(e as int).push(
                final(self).node_at(e as int).value,
            ),
    {
        proof {
            lemma_run_step_refl(*old(self));
            assert(self.pending_seq().is_prefix_of(self.pending_seq())) by {
                assert(self.pending_seq().subrange(0, self.pending_seq().len() as int)
                    =~= self.pending_seq());
            }
        }
        let (expr, wt) = match &self.nodes[e].kind {
            NodeKind::Effect { expr, write_to, .. } => (expr.clone(), *write_to),
            _ => (Expr::Lit(0), Option::None),
        };
        let ghost g2 = *self;
        self.clear_deps(e);
        proof {
            let ghost g3 = *self;
            assert(run_step(g2, g3)) by {
                lemma_eval_frame_refl(g2, Option::None);
                assert forall|i: int|
                    0 <= i < g2.n_nodes() implies kind_like(
                    g2.node_at(i).kind,
                    #[trigger] g3.node_at(i).kind,
                ) by {
                    assert(g3.node_at(i).kind == g2.node_at(i).kind);
                    assert(kind_like(g2.node_at(i).kind, g2.node_at(i).kind));
                }
                assert forall|i: int|
                    0 <= i < g2.n_nodes() implies g2.version_at(i) <= #[trigger] g3.version_at(
                    i,
                ) by {
                    assert(g3.node_at(i).version == g2.node_at(i).version);
                }
                assert forall|i: int|
                    0 <= i < g2.n_nodes() implies #[trigger] g3.node_at(i).scope == g2.node_at(
                    i,
                ).scope && g3.node_at(i).disposed == g2.node_at(i).disposed by {}
                assert(g3.diagnostics_seq().is_prefix_of(g3.diagnostics_seq())) by {
                    assert(g3.diagnostics_seq().subrange(0, g3.diagnostics_seq().len() as int)
                        =~= g3.diagnostics_seq());
                }
            }
            lemma_run_step_trans(*old(self), g2, *self);
        }
        proof {
            assert(self.node_wf(e as int));
        }
        let ghost ga = *self;
        self.observers.push(Option::Some(e));
        let ghost g4 = *self;
        proof {
            lemma_wf_base_congruence(ga, g4);
        }
        let rv = self.eval(&expr, Option::None, Ghost(e));
        let ghost g5 = *self;
        self.observers.pop();
        proof {
            lemma_wf_base_congruence(g5, *self);
            assert(self.observer_seq() =~= g2.observer_seq());
            assert(run_step(g4, g5)) by {
                assert(eval_frame(g4, g5, g4.cur_obs()));
                assert(g5.diagnostics_seq().is_prefix_of(g5.diagnostics_seq())) by {
                    assert(g5.diagnostics_seq().subrange(0, g5.diagnostics_seq().len() as int)
                        =~= g5.diagnostics_seq());
                }
            }
            lemma_run_step_stack_only(ga, g4);
            lemma_run_step_stack_only(g5, *self);
            lemma_run_step_trans(g4, g5, *self);
            lemma_run_step_trans(ga, g4, *self);
            lemma_run_step_trans(g2, ga, *self);
            lemma_run_step_trans(*old(self), g2, *self);
        }
        let ghost g6 = *self;
        proof {
            assert(g2 == *old(self));
            assert(g6.log_at(e as int) == old(self).log_at(e as int)) by {
                assert(ga.node_at(e as int).log == g2.node_at(e as int).log);
                assert(g4.node_at(e as int) == ga.node_at(e as int));
                assert(g5.log_at(e as int) == g4.log_at(e as int));
                assert(g6.node_at(e as int) == g5.node_at(e as int));
            }
            assert(g6.pending_seq() == old(self).pending_seq());
            if (match old(self).node_at(e as int).kind {
                NodeKind::Effect { expr: ex0, .. } => no_tracked_reads(ex0),
                _ => true,
            }) {
                assert(ga.deps_at(e as int) =~= Seq::<(usize, u64)>::empty());
                assert(g4.node_at(e as int) == ga.node_at(e as int));
                assert(no_tracked_reads(expr));
                assert(g4.is_effect(e as int));
                assert(g5.deps_at(e as int) == g4.deps_at(e as int));
                assert(g6.node_at(e as int) == g5.node_at(e as int));
                assert(g6.deps_at(e as int) =~= Seq::<(usize, u64)>::empty());
            }
            assert forall|i: int|
                old(self).is_signal(i) implies (#[trigger] g6.node_at(i)).value == old(self).node_at(i).value && g6.version_at(i) == old(self).version_at(i) by {
                assert(ga.node_at(i).value == g2.node_at(i).value);
                assert(ga.node_at(i).version == g2.node_at(i).version);
                assert(ga.node_at(i).kind == g2.node_at(i).kind);
                assert(g4.node_at(i) == ga.node_at(i));
                assert(g4.is_signal(i));
                assert(g5.node_at(i).value == g4.node_at(i).value && g5.version_at(i)
                    == g4.version_at(i));
                assert(g6.node_at(i) == g5.node_at(i));
            }
            assert forall|i: int|
                0 <= i < old(self).n_nodes() && i != e as int implies #[trigger] g6.log_at(i)
                == old(self).log_at(i) by {
                assert(ga.node_at(i).log == g2.node_at(i).log);
                assert(g4.node_at(i) == ga.node_at(i));
                assert(g5.log_at(i) == g4.log_at(i));
                assert(g6.node_at(i) == g5.node_at(i));
            }
            assert forall|i: int|
                old(self).is_effect(i) && i != e as int implies #[trigger] g6.deps_at(i) == old(self).deps_at(i) && g6.node_at(i).kind == old(self).node_at(i).kind by {
                assert(ga.node_at(i).deps == g2.node_at(i).deps);
                assert(ga.node_at(i).kind == g2.node_at(i).kind);
                assert(g4.node_at(i) == ga.node_at(i));
                vstd::std_specs::vec::axiom_spec_len(&g4.nodes);
                assert(g4.is_effect((i as usize) as int));
                assert(g4.cur_obs() == Option::Some(e));
                assert(Option::Some(i as usize) != g4.cur_obs());
                assert(g5.deps_at((i as usize) as int) == g4.deps_at((i as usize) as int));
                assert(g5.node_at((i as usize) as int).kind == g4.node_at(
                    (i as usize) as int,
                ).kind);
                assert(g6.node_at(i) == g5.node_at(i));
            }
        }
        match rv {
            Result::Ok(v) => {
                self.nodes[e].log.push(v);
                self.nodes[e].value = v;
                proof {
                    lemma_scopes_transfer(g6, *self);
                    lemma_pending_transfer(g6, *self);
                    assert forall|i: int| 0 <= i < self.n_nodes() implies self.node_wf(i) by {
                        assert(g6.node_wf(i));
                        if i != e as int {
                            assert(self.node_at(i) == g6.node_at(i));
                        }
                    }
                    assert(self.diagnostics_seq().is_prefix_of(self.diagnostics_seq())) by {
                        assert(self.diagnostics_seq().subrange(
                            0,
                            self.diagnostics_seq().len() as int,
                        ) =~= self.diagnostics_seq());
                    }
                    lemma_run_step_local(g6, *self, e as int);
                    lemma_run_step_trans(*old(self), g6, *self);
                }
                match wt {
                    Option::Some(t) => {
                        let ghost g7 = *self;
                        proof {
                            assert(self.node_wf(e as int));
                        }
                        self.write_inner(t, v);
                        proof {
                            lemma_run_step_trans(*old(self), g7, *self);
                            assert(old(self).pending_seq().is_prefix_of(self.pending_seq())) by {
                                assert(g7.pending_seq() == old(self).pending_seq());
                            }
                            assert forall|i: int|
                                0 <= i < old(self).n_nodes() && i != e as int implies (
                            #[trigger] self.log_at(i)) == old(self).log_at(i) by {
                                assert(g6.log_at(i) == old(self).log_at(i));
                                assert(g7.node_at(i) == g6.node_at(i));
                                assert(self.log_at(i) == g7.log_at(i));
                            }
                            assert forall|i: int|
                                old(self).is_effect(i) && i != e as int implies (
                            #[trigger] self.deps_at(i)) == old(self).deps_at(i) && self.node_at(
                                i,
                            ).kind == old(self).node_at(i).kind by {
                                assert(g6.deps_at(i) == old(self).deps_at(i));
                                assert(g6.node_at(i).kind == old(self).node_at(i).kind);
                                assert(g7.node_at(i) == g6.node_at(i));
                                assert(self.node_at(i).deps == g7.node_at(i).deps);
                                assert(self.node_at(i).kind == g7.node_at(i).kind);
                            }
                            assert forall|i: int|
                                old(self).is_effect(i) && i != e as int implies (
                            #[trigger] self.node_at(i)).kind == old(self).node_at(i).kind by {
                                assert(g6.deps_at(i) == old(self).deps_at(i));
                                assert(g6.node_at(i).kind == old(self).node_at(i).kind);
                                assert(g7.node_at(i) == g6.node_at(i));
                                assert(self.node_at(i).kind == g7.node_at(i).kind);
                            }
                            assert(g7.log_at(e as int) == g6.log_at(e as int).push(v));
                            assert(self.log_at(e as int) == g7.log_at(e as int));
                            assert(g7.is_signal(t as int)) by {
                                assert(g7.node_wf(e as int));
                            }
                            assert(t as int != e as int);
                            assert(self.node_at(e as int).value == g7.node_at(e as int).value);
                            assert(g7.node_at(e as int).value == v);
                            assert(self.log_at(e as int) == old(self).log_at(e as int).push(
                                self.node_at(e as int).value,
                            ));
                            assert(self.log_at(e as int).len() == old(self).log_at(
                                e as int,
                            ).len() + 1);
                            assert(self.log_at(e as int) != old(self).log_at(e as int));
                            assert(g7.node_at(e as int).deps == g6.node_at(e as int).deps);
                            assert(self.node_at(e as int).deps == g7.node_at(e as int).deps);
                        }
                    },
                    Option::None => {
                        proof {
                            assert forall|i: int|
                                0 <= i < old(self).n_nodes() && i != e as int implies (
                            #[trigger] self.log_at(i)) == old(self).log_at(i) by {
                                assert(g6.log_at(i) == old(self).log_at(i));
                                assert(self.node_at(i) == g6.node_at(i));
                            }
                            assert forall|i: int|
                                old(self).is_effect(i) && i != e as int implies (
                            #[trigger] self.deps_at(i)) == old(self).deps_at(i) && self.node_at(
                                i,
                            ).kind == old(self).node_at(i).kind by {
                                assert(g6.deps_at(i) == old(self).deps_at(i));
                                assert(g6.node_at(i).kind == old(self).node_at(i).kind);
                                assert(self.node_at(i) == g6.node_at(i));
                            }
                            assert forall|i: int|
                                old(self).is_effect(i) && i != e as int implies (
                            #[trigger] self.node_at(i)).kind == old(self).node_at(i).kind by {
                                assert(g6.deps_at(i) == old(self).deps_at(i));
                                assert(g6.node_at(i).kind == old(self).node_at(i).kind);
                                assert(self.node_at(i) == g6.node_at(i));
                            }
                            assert(self.pending_seq() == g6.pending_seq());
                            assert(self.log_at(e as int) == old(self).log_at(e as int).push(
                                self.node_at(e as int).value,
                            )) by {
                                assert(self.log_at(e as int) == g6.log_at(e as int).push(v));
                            }
                            assert(self.log_at(e as int).len() == old(self).log_at(
                                e as int,
                            ).len() + 1);
                            assert(self.log_at(e as int) != old(self).log_at(e as int));
                            assert(self.node_at(e as int).deps == g6.node_at(e as int).deps);
                            assert forall|i: int|
                                old(self).is_signal(i) implies (#[trigger] self.node_at(i)).value
                                == old(self).node_at(i).value && self.version_at(i) == old(self).version_at(i) by {
                                assert(i != e as int);
                                assert(self.node_at(i) == g6.node_at(i));
                                assert(g6.node_at(i).value == old(self).node_at(i).value
                                    && g6.version_at(i) == old(self).version_at(i));
                            }
                        }
                    },
                }
            },
            Result::Err(_) => {
                proof {
                    if (match old(self).node_at(e as int).kind {
                        NodeKind::Effect { expr: ex1, .. } => old(self).fault_free(ex1),
                        _ => true,
                    }) {
                        assert(g4.fault_free(expr)) by {
                            assert forall|i: int|
                                0 <= i < old(self).n_nodes() implies kind_like(
                                old(self).node_at(i).kind,
                                #[trigger] g4.node_at(i).kind,
                            ) by {
                                lemma_eval_frame_refl(*old(self), Option::None);
                                assert(g4.node_at(i).kind == old(self).node_at(i).kind);
                            }
                            assert forall|i: int|
                                0 <= i < old(self).n_nodes() implies #[trigger] g4.node_at(
                                i,
                            ).disposed == old(self).node_at(i).disposed by {
                                assert(ga.node_at(i).disposed == g2.node_at(i).disposed);
                                assert(g4.node_at(i) == ga.node_at(i));
                            }
                            lemma_fault_free_congruence(*old(self), g4, expr);
                        }
                        assert(false);
                    }
                }
                match &mut self.nodes[e].kind {
                    NodeKind::Effect { failed_in, .. } => {
                        *failed_in = Option::Some(ep);
                    },
                    _ => {},
                }
                self.diagnostics.push(e);
                proof {
                    lemma_scopes_transfer(g6, *self);
                    lemma_pending_transfer(g6, *self);
                    assert forall|i: int| 0 <= i < self.n_nodes() implies self.node_wf(i) by {
                        assert(g6.node_wf(i));
                        if i != e as int {
                            assert(self.node_at(i) == g6.node_at(i));
                        }
                    }
                    assert(g6.diagnostics_seq().is_prefix_of(self.diagnostics_seq())) by {
                        assert(g6.diagnostics_seq() =~= self.diagnostics_seq().subrange(
                            0,
                            g6.diagnostics_seq().len() as int,
                        ));
                    }
                    lemma_run_step_local(g6, *self, e as int);
                    lemma_run_step_trans(*old(self), g6, *self);
                    assert forall|i: int|
                        0 <= i < old(self).n_nodes() && i != e as int implies (
                    #[trigger] self.log_at(i)) == old(self).log_at(i) by {
                        assert(g6.log_at(i) == old(self).log_at(i));
                        assert(self.node_at(i) == g6.node_at(i));
                    }
                    assert forall|i: int|
                        old(self).is_effect(i) && i != e as int implies (
                    #[trigger] self.deps_at(i)) == old(self).deps_at(i) && self.node_at(
                        i,
                    ).kind == old(self).node_at(i).kind by {
                        assert(g6.deps_at(i) == old(self).deps_at(i));
                        assert(g6.node_at(i).kind == old(self).node_at(i).kind);
                        assert(self.node_at(i) == g6.node_at(i));
                    }
                    assert forall|i: int|
                        old(self).is_effect(i) && i != e as int implies (
                    #[trigger] self.node_at(i)).kind == old(self).node_at(i).kind by {
                        assert(g6.deps_at(i) == old(self).deps_at(i));
                        assert(g6.node_at(i).kind == old(self).node_at(i).kind);
                        assert(self.node_at(i) == g6.node_at(i));
                    }
                    assert(self.pending_seq() == g6.pending_seq());
                    assert(self.log_at(e as int) == old(self).log_at(e as int)) by {
                        assert(self.node_at(e as int).log == g6.node_at(e as int).log);
                    }
                    assert(self.diagnostics_seq() =~= old(self).diagnostics_seq().push(e)) by {
                        assert(g6.diagnostics_seq() == old(self).diagnostics_seq());
                    }
                    assert(self.node_at(e as int).deps == g6.node_at(e as int).deps);
                    assert forall|i: int|
                        old(self).is_signal(i) implies (#[trigger] self.node_at(i)).value == old(self).node_at(i).value && self.version_at(i) == old(self).version_at(i) by {
                        assert(i != e as int);
                        assert(self.node_at(i) == g6.node_at(i));
                        assert(g6.node_at(i).value == old(self).node_at(i).value && g6.version_at(
                            i,
                        ) == old(self).version_at(i));
                    }
                }
            },
        }
    }

}


impl Runtime {
    /// Drains the pending-effect queue in FIFO order: pops each effect and
    /// runs it if it still has to run; writes performed by effects enqueue
    /// further work into this same drain rather than recursing.  The drain
    /// aborts with `InfiniteUpdateLoop` when an effect exceeds its rerun
    /// bound.  The loop metric is an explicit fuel counter; the per-effect
    /// cycle guard always fires long before the fuel could run out.
    fn drain(&mut self) -> (r: Result<(), ReactiveError>)
        requires
            old(self).wf_base(),
            old(self).observer_seq().len() == 0,
        ensures
            final(self).wf_base(),
            run_step(*old(self), *final(self)),
            final(self).observer_seq().len() == 0,
            final(self).batch_depth_of() == old(self).batch_depth_of(),
            final(self).pending_seq() =~= Seq::<usize>::empty(),
            r is Ok || r == Result::<(), ReactiveError>::Err(ReactiveError::InfiniteUpdateLoop),
            forall|e: int| #[trigger]
                old(self).is_effect(e) ==> ((forall|k: int|
                    0 <= k < old(self).deps_at(e).len() ==> final(self).version_at(
                        (#[trigger] old(self).deps_at(e)[k]).0 as int,
                    ) == old(self).deps_at(e)[k].1) ==> final(self).log_at(e) == old(self).log_at(
                    e,
                ) && final(self).deps_at(e) == old(self).deps_at(e)),
            old(self).no_effect_writes() ==> (forall|e: int| #[trigger]
                old(self).is_effect(e) ==> final(self).log_at(e).len() <= old(self).log_at(
                    e,
                ).len() + 1),
            old(self).pending_seq().len() == 0 ==> r is Ok && final(self).nodes_seq() == old(self).nodes_seq() && final(self).diagnostics_seq() == old(self).diagnostics_seq(),
            old(self).no_effect_writes() ==> (forall|i: int|
                old(self).is_signal(i) ==> (#[trigger] final(self).node_at(i)).value == old(self).node_at(i).value && final(self).version_at(i) == old(self).version_at(i)),
            (old(self).no_effect_writes() && old(self).epoch_of() < u64::MAX) ==> r is Ok,
            forall|e: int|
                #![trigger old(self).log_at(e)]
                old(self).is_effect(e) && old(self).node_at(e).disposed ==> final(self).log_at(e)
                    == old(self).log_at(e),
            (r is Ok && old(self).no_effect_writes() && old(self).epoch_of() < u64::MAX) ==> (
            forall|k: int|
                0 <= k < old(self).pending_seq().len() ==> {
                    let e = (#[trigger] old(self).pending_seq()[k]) as int;
                    &&& ((!old(self).node_at(e).disposed && (exists|j: int|
                        0 <= j < old(self).deps_at(e).len() && (#[trigger] old(self).deps_at(
                            e,
                        )[j]).1 != old(self).version_at(old(self).deps_at(e)[j].0 as int))) ==> (
                    final(self).log_at(e).len() == old(self).log_at(e).len() + 1
                        || faulted_between(*old(self), *final(self), e as usize)))
                    &&& ((!old(self).node_at(e).disposed && (exists|j: int|
                        0 <= j < old(self).deps_at(e).len() && (#[trigger] old(self).deps_at(
                            e,
                        )[j]).1 != old(self).version_at(old(self).deps_at(e)[j].0 as int))
                        && (match old(self).node_at(e).kind {
                        NodeKind::Effect { expr, .. } => old(self).fault_free(expr),
                        _ => false,
                    })) ==> final(self).log_at(e).len() == old(self).log_at(e).len() + 1)
                }),
    {
        let ghost g0 = *self;
        if self.epoch < u64::MAX {
            self.epoch = self.epoch + 1;
        }
        proof {
            lemma_wf_base_congruence(g0, *self);
            lemma_run_step_stack_only(g0, *self);
            if old(self).no_effect_writes() {
                assert forall|i: int| #[trigger]
                    self.is_effect(i) implies (match self.node_at(i).kind {
                    NodeKind::Effect { write_to, .. } => write_to is None,
                    _ => true,
                }) by {
                    assert(self.node_at(i) == g0.node_at(i));
                    assert(g0.is_effect(i));
                }
                assert forall|k: int|
                    0 <= k < self.pending_seq().len() implies self.log_at(
                    (#[trigger] self.pending_seq()[k]) as int,
                ) == old(self).log_at(self.pending_seq()[k] as int) by {
                    assert(self.node_at(self.pending_seq()[k] as int) == g0.node_at(
                        self.pending_seq()[k] as int,
                    ));
                }
                assert forall|e2: int| #[trigger]
                    old(self).is_effect(e2) implies self.log_at(e2).len() <= old(self).log_at(
                    e2,
                ).len() + 1 by {
                    assert(self.node_at(e2) == g0.node_at(e2));
                }
            }
        }
        let mut fuel: u64 = u64::MAX;
        let ghost mut processed: int = 0;
        while self.pending.len() > 0
            invariant
                old(self).wf_base(),
                self.wf_base(),
                self.observer_seq().len() == 0,
                run_step(*old(self), *self),
                self.batch_depth_of() == old(self).batch_depth_of(),
                forall|e: int|
                    #![trigger old(self).log_at(e)]
                    old(self).is_effect(e) && old(self).node_at(e).disposed ==> self.log_at(e)
                        == old(self).log_at(e),
                forall|e: int| #[trigger]
                    old(self).is_effect(e) ==> ((forall|k: int|
                        0 <= k < old(self).deps_at(e).len() ==> self.version_at(
                            (#[trigger] old(self).deps_at(e)[k]).0 as int,
                        ) == old(self).deps_at(e)[k].1) ==> self.log_at(e) == old(self).log_at(e)
                        && self.deps_at(e) == old(self).deps_at(e)),
                old(self).no_effect_writes() ==> {
                    &&& self.no_effect_writes()
                    &&& (forall|i: int|
                        old(self).is_signal(i) ==> (#[trigger] self.node_at(i)).value == old(self).node_at(i).value && self.version_at(i) == old(self).version_at(i))
                    &&& (forall|k: int|
                        0 <= k < self.pending_seq().len() ==> self.log_at(
                            (#[trigger] self.pending_seq()[k]) as int,
                        ) == old(self).log_at(self.pending_seq()[k] as int))
                    &&& (forall|e2: int| #[trigger]
                        old(self).is_effect(e2) ==> self.log_at(e2).len() <= old(self).log_at(
                            e2,
                        ).len() + 1)
                },
                old(self).pending_seq().len() == 0 ==> self.pending_seq().len() == 0
                    && self.nodes_seq() == old(self).nodes_seq() && self.diagnostics_seq() == old(self).diagnostics_seq(),
                (old(self).no_effect_writes() && old(self).epoch_of() < u64::MAX) ==> {
                    &&& self.epoch_of() == old(self).epoch_of() + 1
                    &&& 0 <= processed <= old(self).pending_seq().len()
                    &&& fuel == u64::MAX - processed
                    &&& self.pending_seq() =~= old(self).pending_seq().subrange(
                        processed,
                        old(self).pending_seq().len() as int,
                    )
                    &&& (forall|k: int|
                        processed <= k < old(self).pending_seq().len() ==> {
                            let e = (#[trigger] old(self).pending_seq()[k]) as int;
                            self.node_at(e).kind == old(self).node_at(e).kind && self.deps_at(e)
                                == old(self).deps_at(e)
                        })
                    &&& (forall|k: int|
                        0 <= k < processed ==> {
                            let e = (#[trigger] old(self).pending_seq()[k]) as int;
                            &&& ((!old(self).node_at(e).disposed && (exists|j: int|
                                0 <= j < old(self).deps_at(e).len() && (#[trigger] old(self).deps_at(e)[j]).1 != old(self).version_at(old(self).deps_at(
                                    e,
                                )[j].0 as int))) ==> (self.log_at(e).len() == old(self).log_at(
                                e,
                            ).len() + 1 || faulted_between(*old(self), *self, e as usize)))
                            &&& ((!old(self).node_at(e).disposed && (exists|j: int|
                                0 <= j < old(self).deps_at(e).len() && (#[trigger] old(self).deps_at(e)[j]).1 != old(self).version_at(old(self).deps_at(
                                    e,
                                )[j].0 as int)) && (match old(self).node_at(e).kind {
                                NodeKind::Effect { expr, .. } => old(self).fault_free(expr),
                                _ => false,
                            })) ==> self.log_at(e).len() == old(self).log_at(e).len() + 1)
                        })
                },
            decreases fuel,
        {
            if fuel == 0 {
                proof {
                    if old(self).no_effect_writes() && old(self).epoch_of() < u64::MAX {
                        // the queue never grows here, so the fuel cannot run
                        // out before the queue does
                        assert(processed == u64::MAX);
                        assert(self.pending_seq().len() > 0);
                        assert(processed < old(self).pending_seq().len());
                        vstd::std_specs::vec::axiom_spec_len(&old(self).pending);
                        assert(false);
                    }
                }
                let ghost gx = *self;
                self.pending = Vec::new();
                proof {
                    lemma_wf_base_congruence_pending(gx, *self);
                    lemma_run_step_stack_only(gx, *self);
                    lemma_run_step_trans(*old(self), gx, *self);
                    assert forall|e2: int| #[trigger]
                        old(self).is_effect(e2) implies ((forall|k2: int|
                        0 <= k2 < old(self).deps_at(e2).len() ==> self.version_at(
                            (#[trigger] old(self).deps_at(e2)[k2]).0 as int,
                        ) == old(self).deps_at(e2)[k2].1) ==> self.log_at(e2) == old(self).log_at(
                        e2,
                    ) && self.deps_at(e2) == old(self).deps_at(e2)) by {
                        if forall|k2: int|
                            0 <= k2 < old(self).deps_at(e2).len() ==> self.version_at(
                                (#[trigger] old(self).deps_at(e2)[k2]).0 as int,
                            ) == old(self).deps_at(e2)[k2].1 {
                            assert forall|k2: int|
                                0 <= k2 < old(self).deps_at(e2).len() implies gx.version_at(
                                (#[trigger] old(self).deps_at(e2)[k2]).0 as int,
                            ) == old(self).deps_at(e2)[k2].1 by {
                                let (dk, vk) = old(self).deps_at(e2)[k2];
                                assert(self.node_at(dk as int) == gx.node_at(dk as int));
                            }
                            assert(gx.log_at(e2) == old(self).log_at(e2));
                            assert(gx.deps_at(e2) == old(self).deps_at(e2));
                            assert(self.node_at(e2) == gx.node_at(e2));
                        }
                    }
                }
                proof {
                    if old(self).no_effect_writes() {
                        assert forall|e2: int| #[trigger]
                            old(self).is_effect(e2) implies self.log_at(e2).len() <= old(self).log_at(e2).len() + 1 by {
                            assert(gx.log_at(e2).len() <= old(self).log_at(e2).len() + 1);
                            assert(self.node_at(e2) == gx.node_at(e2));
                        }
                        assert forall|i: int|
                            old(self).is_signal(i) implies (#[trigger] self.node_at(i)).value
                            == old(self).node_at(i).value && self.version_at(i) == old(self).version_at(i) by {
                            assert(gx.node_at(i).value == old(self).node_at(i).value
                                && gx.version_at(i) == old(self).version_at(i));
                            assert(self.node_at(i) == gx.node_at(i));
                        }
                    }
                }
                return Result::Err(ReactiveError::InfiniteUpdateLoop);
            }
            fuel = fuel - 1;
            let ghost gy = *self;
            let e = self.pending.remove(0);
            proof {
                assert(gy.is_effect(gy.pending_seq()[0] as int));
                assert forall|k: int|
                    0 <= k < self.pending_seq().len() implies self.is_effect(
                    self.pending_seq()[k] as int,
                ) by {
                    assert(self.pending_seq()[k] == gy.pending_seq()[k + 1]);
                    assert(gy.is_effect(gy.pending_seq()[k + 1] as int));
                }
                assert forall|k1: int, k2: int|
                    0 <= k1 < k2 < self.pending_seq().len() implies self.pending_seq()[k1]
                    != self.pending_seq()[k2] by {
                    assert(self.pending_seq()[k1] == gy.pending_seq()[k1 + 1]);
                    assert(self.pending_seq()[k2] == gy.pending_seq()[k2 + 1]);
                }
                lemma_wf_base_congruence_pending(gy, *self);
                lemma_run_step_stack_only(gy, *self);
                lemma_run_step_trans(*old(self), gy, *self);
            }
            let ghost gz = *self;
            match self.run_effect(e) {
                Result::Ok(()) => {
                    proof {
                        lemma_run_step_trans(*old(self), gz, *self);
                        assert forall|e2: int|
                            #![trigger old(self).log_at(e2)]
                            old(self).is_effect(e2) && old(self).node_at(e2).disposed implies self.log_at(e2) == old(self).log_at(e2) by {
                            assert(gy.log_at(e2) == old(self).log_at(e2));
                            if e2 == e as int {
                                assert(gz.node_at(e2).disposed == old(self).node_at(e2).disposed);
                                assert(self.node_at(e2).log == gz.node_at(e2).log);
                            } else {
                                assert(self.log_at(e2) == gz.log_at(e2));
                                assert(gz.node_at(e2) == gy.node_at(e2));
                            }
                        }
                        assert forall|e2: int| #[trigger]
                            old(self).is_effect(e2) implies ((forall|k2: int|
                            0 <= k2 < old(self).deps_at(e2).len() ==> self.version_at(
                                (#[trigger] old(self).deps_at(e2)[k2]).0 as int,
                            ) == old(self).deps_at(e2)[k2].1) ==> self.log_at(e2) == old(self).log_at(e2) && self.deps_at(e2) == old(self).deps_at(e2)) by {
                            if forall|k2: int|
                                0 <= k2 < old(self).deps_at(e2).len() ==> self.version_at(
                                    (#[trigger] old(self).deps_at(e2)[k2]).0 as int,
                                ) == old(self).deps_at(e2)[k2].1 {
                                // versions never move back, so they matched
                                // before this run as well
                                assert forall|k2: int|
                                    0 <= k2 < old(self).deps_at(e2).len() implies gz.version_at(
                                    (#[trigger] old(self).deps_at(e2)[k2]).0 as int,
                                ) == old(self).deps_at(e2)[k2].1 by {
                                    let (dk, vk) = old(self).deps_at(e2)[k2];
                                    assert(old(self).node_wf(e2));
                                    assert(vk <= old(self).version_at(dk as int));
                                    assert(old(self).version_at(dk as int) <= gz.version_at(
                                        dk as int,
                                    ));
                                    assert(gz.version_at(dk as int) <= self.version_at(dk as int));
                                    assert(self.version_at(dk as int) == vk);
                                }
                                assert(gz.node_at(e2) == gy.node_at(e2));
                                assert(gy.log_at(e2) == old(self).log_at(e2) && gy.deps_at(e2)
                                    == old(self).deps_at(e2));
                                assert(gz.log_at(e2) == old(self).log_at(e2) && gz.deps_at(e2)
                                    == old(self).deps_at(e2));
                                if e2 == e as int {
                                    assert forall|k3: int|
                                        0 <= k3 < gz.deps_at(e as int).len() implies self
                                        .version_at(
                                        (#[trigger] gz.deps_at(e as int)[k3]).0 as int,
                                    ) == gz.deps_at(e as int)[k3].1 by {
                                        assert(gz.deps_at(e as int)[k3] == old(self).deps_at(
                                            e2,
                                        )[k3]);
                                        assert(self.version_at(
                                            (old(self).deps_at(e2)[k3]).0 as int,
                                        ) == old(self).deps_at(e2)[k3].1);
                                    }
                                    assert(self.log_at(e as int) == gz.log_at(e as int)
                                        && self.deps_at(e as int) == gz.deps_at(e as int));
                                } else {
                                    assert(self.log_at(e2) == gz.log_at(e2));
                                    assert(gz.is_effect(e2)) by {
                                        assert(kind_like(
                                            old(self).node_at(e2).kind,
                                            gz.node_at(e2).kind,
                                        ));
                                    }
                                    assert(self.deps_at(e2) == gz.deps_at(e2));
                                }
                            }
                        }
                        if old(self).no_effect_writes() && old(self).epoch_of() < u64::MAX {
                            let n0 = old(self).pending_seq().len() as int;
                            assert(gy.pending_seq()[0] == old(self).pending_seq().subrange(
                                processed,
                                n0,
                            )[0]);
                            assert(e == old(self).pending_seq()[processed]);
                            assert(gz.pending_seq() =~= old(self).pending_seq().subrange(
                                processed + 1,
                                n0,
                            )) by {
                                assert(gz.pending_seq() =~= gy.pending_seq().subrange(
                                    1,
                                    gy.pending_seq().len() as int,
                                ));
                            }
                            assert(gz.effect_writes_nothing(e as int)) by {
                                assert(gz.node_at(e as int) == gy.node_at(e as int));
                                assert(gy.is_effect(e as int));
                            }
                            assert(self.pending_seq() == gz.pending_seq());
                            assert forall|k: int|
                                processed + 1 <= k < n0 implies {
                                let e2 = (#[trigger] old(self).pending_seq()[k]) as int;
                                self.node_at(e2).kind == old(self).node_at(e2).kind
                                    && self.deps_at(e2) == old(self).deps_at(e2)
                            } by {
                                let e2 = old(self).pending_seq()[k] as int;
                                assert(gy.node_at(e2).kind == old(self).node_at(e2).kind
                                    && gy.deps_at(e2) == old(self).deps_at(e2));
                                assert(gz.node_at(e2) == gy.node_at(e2));
                                assert(old(self).pending_seq()[processed] != old(self).pending_seq()[k]);
                                assert(e2 != e as int);
                                assert((#[trigger] self.node_at(e2)).kind == gz.node_at(
                                    e2,
                                ).kind);
                                assert(self.deps_at(e2) == gz.deps_at(e2));
                            }
                            assert forall|k: int|
                                0 <= k < processed + 1 implies {
                                let e2 = (#[trigger] old(self).pending_seq()[k]) as int;
                                &&& ((!old(self).node_at(e2).disposed && (exists|j: int|
                                    0 <= j < old(self).deps_at(e2).len() && (#[trigger] old(self).deps_at(e2)[j]).1 != old(self).version_at(old(self).deps_at(e2)[j].0 as int))) ==> (self.log_at(e2).len()
                                    == old(self).log_at(e2).len() + 1 || faulted_between(
                                    *old(self),
                                    *self,
                                    e2 as usize,
                                )))
                                &&& ((!old(self).node_at(e2).disposed && (exists|j: int|
                                    0 <= j < old(self).deps_at(e2).len() && (#[trigger] old(self).deps_at(e2)[j]).1 != old(self).version_at(old(self).deps_at(e2)[j].0 as int))
                                    && (match old(self).node_at(e2).kind {
                                    NodeKind::Effect { expr, .. } => old(self).fault_free(expr),
                                    _ => false,
                                })) ==> self.log_at(e2).len() == old(self).log_at(e2).len() + 1)
                            } by {
                                let e2 = old(self).pending_seq()[k] as int;
                                if !old(self).node_at(e2).disposed && (exists|j: int|
                                    0 <= j < old(self).deps_at(e2).len() && (#[trigger] old(self).deps_at(e2)[j]).1 != old(self).version_at(old(self).deps_at(e2)[j].0 as int)) {
                                    if k < processed {
                                        assert(old(self).pending_seq()[k] != old(self).pending_seq()[processed]);
                                        assert(e2 != e as int);
                                        if gy.log_at(e2).len() == old(self).log_at(e2).len()
                                            + 1 {
                                            assert(gz.node_at(e2) == gy.node_at(e2));
                                            assert(self.log_at(e2) == gz.log_at(e2));
                                        } else {
                                            assert(faulted_between(*old(self), gy, e2 as usize));
                                            let kw = choose|kw: int|
                                                old(self).diagnostics_seq().len() <= kw
                                                    < gy.diagnostics_seq().len() && #[trigger] gy.diagnostics_seq()[kw] == e2 as usize;
                                            assert(gz.diagnostics_seq() == gy.diagnostics_seq());
                                            assert(gz.diagnostics_seq().is_prefix_of(
                                                self.diagnostics_seq(),
                                            ));
                                            assert(self.diagnostics_seq()[kw] == gz.diagnostics_seq().subrange(
                                                0,
                                                gz.diagnostics_seq().len() as int,
                                            )[kw] || true);
                                            assert(self.diagnostics_seq()[kw] == e2 as usize)
                                                by {
                                                assert(gz.diagnostics_seq() =~= self.diagnostics_seq().subrange(
                                                    0,
                                                    gz.diagnostics_seq().len() as int,
                                                ));
                                            }
                                            assert(faulted_between(
                                                *old(self),
                                                *self,
                                                e2 as usize,
                                            ));
                                        }
                                    } else {
                                        assert(k == processed && e2 == e as int);
                                        assert(gz.node_at(e as int).kind == old(self).node_at(
                                            e as int,
                                        ).kind) by {
                                            assert(gy.node_at(e as int).kind == old(self).node_at(e as int).kind);
                                            assert(gz.node_at(e as int) == gy.node_at(
                                                e as int,
                                            ));
                                        }
                                        assert(gz.deps_at(e as int) == old(self).deps_at(
                                            e as int,
                                        )) by {
                                            assert(gy.deps_at(e as int) == old(self).deps_at(
                                                e as int,
                                            ));
                                            assert(gz.node_at(e as int) == gy.node_at(
                                                e as int,
                                            ));
                                        }
                                        assert(!gz.node_at(e as int).disposed);
                                        assert(old(self).node_wf(e as int));
                                        assert(gz.epoch_of() == old(self).epoch_of() + 1);
                                        let j = choose|j: int|
                                            0 <= j < old(self).deps_at(e as int).len() && (
                                            #[trigger] old(self).deps_at(e as int)[j]).1 != old(self).version_at(old(self).deps_at(e as int)[j].0 as int);
                                        let (dj, vj) = old(self).deps_at(e as int)[j];
                                        assert(gz.deps_at(e as int)[j] == old(self).deps_at(
                                            e as int,
                                        )[j]);
                                        assert(vj <= old(self).version_at(dj as int));
                                        assert(old(self).version_at(dj as int) <= gz.version_at(
                                            dj as int,
                                        ));
                                        assert(gz.deps_at(e as int)[j].1 != gz.version_at(
                                            gz.deps_at(e as int)[j].0 as int,
                                        ));
                                        assert(self.log_at(e as int).len() == gz.log_at(
                                            e as int,
                                        ).len() + 1 || faulted_between(gz, *self, e));
                                        assert(gz.log_at(e as int) == old(self).log_at(
                                            e as int,
                                        )) by {
                                            assert(gy.log_at(
                                                (#[trigger] gy.pending_seq()[0]) as int,
                                            ) == old(self).log_at(gy.pending_seq()[0] as int));
                                            assert(gz.node_at(e as int) == gy.node_at(
                                                e as int,
                                            ));
                                        }
                                        if faulted_between(gz, *self, e) {
                                            let kw = choose|kw: int|
                                                gz.diagnostics_seq().len() <= kw
                                                    < self.diagnostics_seq().len() && #[trigger] self.diagnostics_seq()[kw] == e;
                                            assert(old(self).diagnostics_seq().len()
                                                <= gz.diagnostics_seq().len()) by {
                                                assert(old(self).diagnostics_seq().is_prefix_of(
                                                    gz.diagnostics_seq(),
                                                ));
                                            }
                                            assert(faulted_between(*old(self), *self, e));
                                        }
                                    }
                                    if (match old(self).node_at(e2).kind {
                                        NodeKind::Effect { expr, .. } => old(self).fault_free(
                                            expr,
                                        ),
                                        _ => false,
                                    }) {
                                        if k < processed {
                                            assert(gy.log_at(e2).len() == old(self).log_at(
                                                e2,
                                            ).len() + 1);
                                            assert(gz.node_at(e2) == gy.node_at(e2));
                                            assert(self.log_at(e2) == gz.log_at(e2));
                                        } else {
                                            assert((match gz.node_at(e as int).kind {
                                                NodeKind::Effect { expr: ex1, .. } => gz.fault_free(ex1),
                                                _ => false,
                                            })) by {
                                                assert forall|i2: int|
                                                    0 <= i2 < old(self).n_nodes() implies kind_like(
                                                    old(self).node_at(i2).kind,
                                                    #[trigger] gz.node_at(i2).kind,
                                                ) by {}
                                                assert forall|i2: int|
                                                    0 <= i2 < old(self).n_nodes() implies #[trigger] gz.node_at(i2).disposed == old(self).node_at(i2).disposed by {}
                                                match old(self).node_at(e2).kind {
                                                    NodeKind::Effect { expr: ex0, .. } => {
                                                        lemma_fault_free_congruence(
                                                            *old(self),
                                                            gz,
                                                            ex0,
                                                        );
                                                    },
                                                    _ => {},
                                                }
                                            }
                                            assert(self.log_at(e as int).len() == gz.log_at(
                                                e as int,
                                            ).len() + 1);
                                            assert(gz.log_at(e as int) == old(self).log_at(
                                                e as int,
                                            ));
                                        }
                                    }
                                }
                            }
                            processed = processed + 1;
                        }
                        if old(self).no_effect_writes() {
                            assert(gz.effect_writes_nothing(e as int)) by {
                                assert(gz.node_at(e as int) == gy.node_at(e as int));
                                assert(gy.is_effect(e as int));
                            }
                            assert(self.pending_seq() == gz.pending_seq());
                            assert forall|i: int|
                                old(self).is_signal(i) implies (#[trigger] self.node_at(i)).value
                                == old(self).node_at(i).value && self.version_at(i) == old(self).version_at(i) by {
                                assert(gy.node_at(i).value == old(self).node_at(i).value
                                    && gy.version_at(i) == old(self).version_at(i));
                                assert(gz.node_at(i) == gy.node_at(i));
                                assert(gz.is_signal(i));
                                assert(self.node_at(i).value == gz.node_at(i).value
                                    && self.version_at(i) == gz.version_at(i));
                            }
                            assert forall|i: int| #[trigger]
                                self.is_effect(i) implies (match self.node_at(i).kind {
                                NodeKind::Effect { write_to, .. } => write_to is None,
                                _ => true,
                            }) by {
                                assert(kind_like(old(self).node_at(i).kind, self.node_at(i).kind));
                                assert(old(self).is_effect(i));
                                assert(kind_like(gy.node_at(i).kind, gy.node_at(i).kind)) by {
                                    lemma_eval_frame_refl(gy, Option::None);
                                }
                                assert(gy.is_effect(i));
                            }
                            assert forall|k: int|
                                0 <= k < self.pending_seq().len() implies self.log_at(
                                (#[trigger] self.pending_seq()[k]) as int,
                            ) == old(self).log_at(self.pending_seq()[k] as int) by {
                                let f = self.pending_seq()[k];
                                assert(gz.pending_seq()[k] == f);
                                assert(gz.pending_seq()[k] == gy.pending_seq()[k + 1]);
                                assert(gy.log_at((#[trigger] gy.pending_seq()[k + 1]) as int)
                                    == old(self).log_at(gy.pending_seq()[k + 1] as int));
                                assert(f != e) by {
                                    assert(gy.pending_seq()[0] != gy.pending_seq()[k + 1]);
                                }
                                assert(self.log_at(f as int) == gz.log_at(f as int));
                                assert(gz.node_at(f as int) == gy.node_at(f as int));
                            }
                            assert forall|e2: int| #[trigger]
                                old(self).is_effect(e2) implies self.log_at(e2).len() <= old(self).log_at(e2).len() + 1 by {
                                assert(gz.node_at(e2) == gy.node_at(e2));
                                if e2 == e as int {
                                    assert(gy.log_at(
                                        (#[trigger] gy.pending_seq()[0]) as int,
                                    ) == old(self).log_at(gy.pending_seq()[0] as int));
                                    assert(gy.log_at(e as int) == old(self).log_at(e as int));
                                    assert(self.log_at(e as int) == gz.log_at(e as int)
                                        || self.log_at(e as int).len() == gz.log_at(
                                        e as int,
                                    ).len() + 1);
                                } else {
                                    assert(self.log_at(e2) == gz.log_at(e2));
                                    assert(gy.log_at(e2).len() <= old(self).log_at(e2).len() + 1);
                                }
                            }
                        }
                    }
                },
                Result::Err(f) => {
                    let ghost gw = *self;
                    proof {
                        lemma_run_step_trans(*old(self), gz, gw);
                        if old(self).no_effect_writes() && old(self).epoch_of() < u64::MAX {
                            // every effect enters the drain with a fresh
                            // epoch, so the cycle guard cannot trip
                            assert(gy.pending_seq()[0] == old(self).pending_seq().subrange(
                                processed,
                                old(self).pending_seq().len() as int,
                            )[0]);
                            assert(e == old(self).pending_seq()[processed]);
                            assert(gz.node_at(e as int).kind == old(self).node_at(
                                e as int,
                            ).kind) by {
                                assert(gy.node_at(e as int).kind == old(self).node_at(
                                    e as int,
                                ).kind);
                                assert(gz.node_at(e as int) == gy.node_at(e as int));
                            }
                            assert(old(self).node_wf(e as int));
                            assert(gz.epoch_of() == old(self).epoch_of() + 1);
                            assert(false);
                        }
                    }
                    self.pending = Vec::new();
                    proof {
                        lemma_wf_base_congruence_pending(gw, *self);
                        lemma_run_step_stack_only(gw, *self);
                        lemma_run_step_trans(*old(self), gw, *self);
                        assert forall|e2: int| #[trigger]
                            old(self).is_effect(e2) implies ((forall|k2: int|
                            0 <= k2 < old(self).deps_at(e2).len() ==> self.version_at(
                                (#[trigger] old(self).deps_at(e2)[k2]).0 as int,
                            ) == old(self).deps_at(e2)[k2].1) ==> self.log_at(e2) == old(self).log_at(e2)
                            && self.deps_at(e2) == old(self).deps_at(e2)) by {
                            if forall|k2: int|
                                0 <= k2 < old(self).deps_at(e2).len() ==> self.version_at(
                                    (#[trigger] old(self).deps_at(e2)[k2]).0 as int,
                                ) == old(self).deps_at(e2)[k2].1 {
                                assert forall|k2: int|
                                    0 <= k2 < old(self).deps_at(e2).len() implies gz.version_at(
                                    (#[trigger] old(self).deps_at(e2)[k2]).0 as int,
                                ) == old(self).deps_at(e2)[k2].1 by {
                                    let (dk, vk) = old(self).deps_at(e2)[k2];
                                    assert(self.node_at(dk as int) == gw.node_at(dk as int));
                                    assert(old(self).node_wf(e2));
                                    assert(vk <= old(self).version_at(dk as int));
                                    assert(old(self).version_at(dk as int) <= gz.version_at(
                                        dk as int,
                                    ));
                                    assert(gz.version_at(dk as int) <= gw.version_at(dk as int));
                                    assert(gw.version_at(dk as int) == vk);
                                }
                                assert(gz.node_at(e2) == gy.node_at(e2));
                                assert(gy.log_at(e2) == old(self).log_at(e2) && gy.deps_at(e2)
                                    == old(self).deps_at(e2));
                                assert(gz.log_at(e2) == old(self).log_at(e2) && gz.deps_at(e2)
                                    == old(self).deps_at(e2));
                                if e2 == e as int {
                                    assert forall|k3: int|
                                        0 <= k3 < gz.deps_at(e as int).len() implies gw.version_at(
                                        (#[trigger] gz.deps_at(e as int)[k3]).0 as int,
                                    ) == gz.deps_at(e as int)[k3].1 by {
                                        assert(gz.deps_at(e as int)[k3] == old(self).deps_at(
                                            e2,
                                        )[k3]);
                                        let (dk, vk) = old(self).deps_at(e2)[k3];
                                        assert(self.node_at(dk as int) == gw.node_at(dk as int));
                                        assert(self.version_at(dk as int) == vk);
                                    }
                                    assert(gw.log_at(e as int) == gz.log_at(e as int));
                                    assert(gw.deps_at(e as int) == gz.deps_at(e as int));
                                } else {
                                    assert(gw.log_at(e2) == gz.log_at(e2));
                                    assert(gz.is_effect(e2)) by {
                                        assert(kind_like(
                                            old(self).node_at(e2).kind,
                                            gz.node_at(e2).kind,
                                        ));
                                    }
                                    assert(gw.deps_at(e2) == gz.deps_at(e2));
                                }
                                assert(self.node_at(e2) == gw.node_at(e2));
                            }
                        }
                        if old(self).no_effect_writes() {
                            assert forall|i: int|
                                old(self).is_signal(i) implies (#[trigger] self.node_at(i)).value
                                == old(self).node_at(i).value && self.version_at(i) == old(self).version_at(i) by {
                                assert(gy.node_at(i).value == old(self).node_at(i).value
                                    && gy.version_at(i) == old(self).version_at(i));
                                assert(gz.node_at(i) == gy.node_at(i));
                                assert(gz.is_signal(i));
                                assert(gz.effect_writes_nothing(e as int)) by {
                                    assert(gz.node_at(e as int) == gy.node_at(e as int));
                                    assert(gy.is_effect(e as int));
                                }
                                assert(gw.node_at(i).value == gz.node_at(i).value
                                    && gw.version_at(i) == gz.version_at(i));
                                assert(self.node_at(i) == gw.node_at(i));
                            }
                            assert forall|e2: int| #[trigger]
                                old(self).is_effect(e2) implies self.log_at(e2).len() <= old(self).log_at(e2).len() + 1 by {
                                assert(self.node_at(e2) == gw.node_at(e2));
                                assert(gz.node_at(e2) == gy.node_at(e2));
                                if e2 == e as int {
                                    assert(gy.log_at(
                                        (#[trigger] gy.pending_seq()[0]) as int,
                                    ) == old(self).log_at(gy.pending_seq()[0] as int));
                                    assert(gy.log_at(e as int) == old(self).log_at(e as int));
                                    assert(gw.log_at(e as int) == gz.log_at(e as int)
                                        || gw.log_at(e as int).len() == gz.log_at(
                                        e as int,
                                    ).len() + 1);
                                } else {
                                    assert(gw.log_at(e2) == gz.log_at(e2));
                                    assert(gy.log_at(e2).len() <= old(self).log_at(e2).len() + 1);
                                }
                            }
                        }
                        assert forall|e2: int|
                            #![trigger old(self).log_at(e2)]
                            old(self).is_effect(e2) && old(self).node_at(e2).disposed implies self.log_at(e2) == old(self).log_at(e2) by {
                            assert(gy.log_at(e2) == old(self).log_at(e2));
                            assert(self.node_at(e2) == gw.node_at(e2));
                            if e2 == e as int {
                                assert(gz.node_at(e2).disposed == old(self).node_at(e2).disposed);
                                assert(gw.node_at(e2).log == gz.node_at(e2).log);
                                assert(gz.node_at(e2) == gy.node_at(e2));
                            } else {
                                assert(gw.log_at(e2) == gz.log_at(e2));
                                assert(gz.node_at(e2) == gy.node_at(e2));
                            }
                        }
                    }
                    return Result::Err(f);
                },
            }
        }
        Result::Ok(())
    }
}


/// Everything [`Runtime::write`] guarantees for writing `u` into the signal
/// at `t`, bundled so that wrappers around the write can restate the whole
/// contract verbatim.
pub open spec fn write_outcome(
    pre: Runtime,
    post: Runtime,
    t: int,
    u: i64,
    r: Result<(), ReactiveError>,
) -> bool {
    &&& (pre.node_at(t).disposed ==> r == Result::<(), ReactiveError>::Err(
        ReactiveError::UseAfterDispose,
    ) && post == pre)
    &&& (!pre.node_at(t).disposed && pre.sig_eq_skip(t) && u == pre.value_at(t) ==> r
        == Result::<(), ReactiveError>::Ok(()) && post == pre)
    &&& (!pre.node_at(t).disposed && !(pre.sig_eq_skip(t) && u == pre.value_at(t)) ==> {
        &&& run_step(pre, post)
        &&& post.batch_depth_of() == pre.batch_depth_of()
        &&& (r is Ok || r == Result::<(), ReactiveError>::Err(ReactiveError::InfiniteUpdateLoop))
        &&& (pre.batch_depth_of() > 0 ==> {
            &&& r is Ok
            &&& post.value_at(t) == u
            &&& (pre.clock_of() < u64::MAX ==> post.version_at(t) > pre.version_at(t))
            &&& (forall|i: int|
                0 <= i < pre.n_nodes() ==> #[trigger] post.log_at(i) == pre.log_at(i))
            &&& (forall|i: int|
                0 <= i < pre.n_nodes() && i != t ==> (#[trigger] post.node_at(i)).value
                    == pre.node_at(i).value && post.version_at(i) == pre.version_at(i))
            &&& post.diagnostics_seq() == pre.diagnostics_seq()
        })
        &&& (pre.batch_depth_of() == 0 ==> post.pending_seq() =~= Seq::<usize>::empty())
    })
    &&& (forall|e: int| #[trigger]
        pre.is_effect(e) ==> ((forall|k: int|
            0 <= k < pre.deps_at(e).len() ==> post.version_at(
                (#[trigger] pre.deps_at(e)[k]).0 as int,
            ) == pre.deps_at(e)[k].1) ==> post.log_at(e) == pre.log_at(e)))
    &&& (pre.no_effect_writes() ==> (forall|e: int| #[trigger]
        pre.is_effect(e) ==> post.log_at(e).len() <= pre.log_at(e).len() + 1))
    &&& (!pre.node_at(t).disposed && pre.no_effect_writes() && pre.epoch_of() < u64::MAX ==> r
        is Ok)
    &&& (forall|e: int|
        #![trigger pre.log_at(e)]
        pre.is_effect(e) && pre.node_at(e).disposed ==> post.log_at(e) == pre.log_at(e))
    &&& (!pre.node_at(t).disposed && !(pre.sig_eq_skip(t) && u == pre.value_at(t))
        && pre.no_effect_writes() ==> {
        &&& post.value_at(t) == u
        &&& (pre.clock_of() < u64::MAX ==> post.version_at(t) > pre.version_at(t))
        &&& (forall|i: int|
            pre.is_signal(i) && i != t ==> (#[trigger] post.node_at(i)).value == pre.node_at(
                i,
            ).value && post.version_at(i) == pre.version_at(i))
    })
    &&& ((!pre.node_at(t).disposed && !(pre.sig_eq_skip(t) && u == pre.value_at(t))
        && pre.batch_depth_of() == 0 && pre.no_effect_writes() && pre.epoch_of() < u64::MAX
        && pre.clock_of() < u64::MAX && r is Ok) ==> (forall|e: int|
        #![trigger pre.deps_at(e)]
        pre.is_effect(e) && !pre.node_at(e).disposed && dep_ids_has(pre.deps_at(e), t as usize)
            ==> (post.log_at(e).len() == pre.log_at(e).len() + 1 || faulted_between(
            pre,
            post,
            e as usize,
        ))))
}

impl Runtime {
    /// Writes a signal.  Writing a disposed signal surfaces
    /// `UseAfterDispose` and changes nothing.  With equality-skip configured,
    /// writing a value equal to the current one is a complete no-op: no
    /// version bump, no marking, no reruns.  Otherwise the value is stored,
    /// the version bumped, the downstream marked and enqueued; at batch depth
    /// zero the pending queue is then drained, deferring to the close of the
    /// batch otherwise.
    ///
    /// The scheduler's laws are part of the contract, in both directions.
    /// Suppression: an effect none of whose recorded dependencies ends the
    /// call with a moved version is never rerun -- in particular an effect
    /// that reads only untracked never reruns, writing a signal that has
    /// dropped out of an effect's dependency set cannot rerun it, and a memo
    /// that recomputes to an unchanged value does not wake its subscribers.
    /// Propagation: in a graph whose effects perform no writes of their own,
    /// the call succeeds, the written signal holds the new value afterwards
    /// while every other signal keeps value and version, each effect reruns
    /// at most once, and every live effect that recorded this signal either
    /// gains exactly one observation or has its fault recorded -- exactly
    /// one observation whenever its computation cannot fault (it reads only
    /// live signals).  Disposed effects never gain observations.  Inside an
    /// open batch the dependents are pending instead, and the close of the
    /// batch owes them the same.
    pub fn write(&mut self, w: WriteSignal, v: i64) -> (r: Result<(), ReactiveError>)
        requires
            old(self).wf(),
            old(self).valid_write(w),
        ensures
            final(self).wf(),
            old(self).node_at(w.id as int).disposed ==> r == Result::<(), ReactiveError>::Err(
                ReactiveError::UseAfterDispose,
            ) && *final(self) == *old(self),
            !old(self).node_at(w.id as int).disposed && old(self).sig_eq_skip(w.id as int) && v
                == old(self).value_at(w.id as int) ==> r == Result::<(), ReactiveError>::Ok(())
                && *final(self) == *old(self),
            !old(self).node_at(w.id as int).disposed && !(old(self).sig_eq_skip(w.id as int) && v
                == old(self).value_at(w.id as int)) ==> {
                &&& run_step(*old(self), *final(self))
                &&& final(self).batch_depth_of() == old(self).batch_depth_of()
                &&& (r is Ok || r == Result::<(), ReactiveError>::Err(
                    ReactiveError::InfiniteUpdateLoop,
                ))
                &&& (old(self).batch_depth_of() > 0 ==> {
                    &&& r is Ok
                    &&& final(self).value_at(w.id as int) == v
                    &&& (old(self).clock_of() < u64::MAX ==> final(self).version_at(w.id as int)
                        > old(self).version_at(w.id as int))
                    &&& (forall|i: int|
                        0 <= i < old(self).n_nodes() ==> #[trigger] final(self).log_at(i) == old(self).log_at(i))
                    &&& (forall|i: int|
                        0 <= i < old(self).n_nodes() && i != w.id as int ==> (#[trigger] final(self).node_at(i)).value == old(self).node_at(i).value && final(self).version_at(
                            i,
                        ) == old(self).version_at(i))
                    &&& final(self).diagnostics_seq() == old(self).diagnostics_seq()
                })
                &&& (old(self).batch_depth_of() == 0 ==> final(self).pending_seq() =~= Seq::<
                    usize,
                >::empty())
            },
            forall|e: int| #[trigger]
                old(self).is_effect(e) ==> ((forall|k: int|
                    0 <= k < old(self).deps_at(e).len() ==> final(self).version_at(
                        (#[trigger] old(self).deps_at(e)[k]).0 as int,
                    ) == old(self).deps_at(e)[k].1) ==> final(self).log_at(e) == old(self).log_at(
                    e,
                )),
            old(self).no_effect_writes() ==> (forall|e: int| #[trigger]
                old(self).is_effect(e) ==> final(self).log_at(e).len() <= old(self).log_at(
                    e,
                ).len() + 1),
            (!old(self).node_at(w.id as int).disposed && !(old(self).sig_eq_skip(w.id as int) && v
                == old(self).value_at(w.id as int)) && old(self).no_effect_writes()) ==> {
                &&& final(self).value_at(w.id as int) == v
                &&& (old(self).clock_of() < u64::MAX ==> final(self).version_at(w.id as int)
                    > old(self).version_at(w.id as int))
                &&& (forall|i: int|
                    old(self).is_signal(i) && i != w.id as int ==> (#[trigger] final(self).node_at(
                        i,
                    )).value == old(self).node_at(i).value && final(self).version_at(i) == old(
                        self,
                    ).version_at(i))
            },
            (!old(self).node_at(w.id as int).disposed && !(old(self).sig_eq_skip(w.id as int) && v
                == old(self).value_at(w.id as int)) && old(self).batch_depth_of() == 0 && old(self).no_effect_writes() && old(self).epoch_of() < u64::MAX && old(self).clock_of()
                < u64::MAX && r is Ok) ==> (forall|e: int|
                #![trigger old(self).deps_at(e)]
                old(self).is_effect(e) && !old(self).node_at(e).disposed && dep_ids_has(
                    old(self).deps_at(e),
                    w.id,
                ) ==> (final(self).log_at(e).len() == old(self).log_at(e).len() + 1
                    || faulted_between(*old(self), *final(self), e as usize))),
            (!old(self).node_at(w.id as int).disposed && !(old(self).sig_eq_skip(w.id as int) && v
                == old(self).value_at(w.id as int)) && old(self).batch_depth_of() == 0 && old(self).no_effect_writes() && old(self).epoch_of() < u64::MAX && old(self).clock_of()
                < u64::MAX && r is Ok) ==> (forall|e: int|
                #![trigger old(self).deps_at(e)]
                old(self).is_effect(e) && !old(self).node_at(e).disposed && dep_ids_has(
                    old(self).deps_at(e),
                    w.id,
                ) && (match old(self).node_at(e).kind {
                    NodeKind::Effect { expr, .. } => old(self).fault_free(expr),
                    _ => false,
                }) ==> final(self).log_at(e).len() == old(self).log_at(e).len() + 1),
            (!old(self).node_at(w.id as int).disposed && !(old(self).sig_eq_skip(w.id as int) && v
                == old(self).value_at(w.id as int)) && old(self).batch_depth_of() > 0) ==> (
            forall|e: int|
                #![trigger old(self).deps_at(e)]
                old(self).is_effect(e) && !old(self).node_at(e).disposed && dep_ids_has(
                    old(self).deps_at(e),
                    w.id,
                ) ==> final(self).pending_seq().contains(e as usize)),
            (!old(self).node_at(w.id as int).disposed && old(self).no_effect_writes() && old(
                self,
            ).epoch_of() < u64::MAX) ==> r is Ok,
            forall|e: int|
                #![trigger old(self).log_at(e)]
                old(self).is_effect(e) && old(self).node_at(e).disposed ==> final(self).log_at(e)
                    == old(self).log_at(e),
            write_outcome(*old(self), *final(self), w.id as int, v, r),
    {
        let t = w.id;
        if self.nodes[t].disposed {
            return Result::Err(ReactiveError::UseAfterDispose);
        }
        let skip = match &self.nodes[t].kind {
            NodeKind::Signal { eq_skip } => *eq_skip && self.nodes[t].value == v,
            _ => false,
        };
        if skip {
            return Result::Ok(());
        }
        self.write_inner(t, v);
        if self.batch_depth == 0 {
            let ghost g1 = *self;
            let r = self.drain();
            proof {
                lemma_run_step_trans(*old(self), g1, *self);
                assert forall|e: int| #[trigger]
                    old(self).is_effect(e) implies ((forall|k: int|
                    0 <= k < old(self).deps_at(e).len() ==> self.version_at(
                        (#[trigger] old(self).deps_at(e)[k]).0 as int,
                    ) == old(self).deps_at(e)[k].1) ==> self.log_at(e) == old(self).log_at(
                    e,
                )) by {
                    if forall|k: int|
                        0 <= k < old(self).deps_at(e).len() ==> self.version_at(
                            (#[trigger] old(self).deps_at(e)[k]).0 as int,
                        ) == old(self).deps_at(e)[k].1 {
                        assert(g1.deps_at(e) == old(self).deps_at(e));
                        assert(g1.is_effect(e)) by {
                            assert(kind_like(old(self).node_at(e).kind, g1.node_at(e).kind));
                        }
                        assert forall|k: int|
                            0 <= k < g1.deps_at(e).len() implies self.version_at(
                            (#[trigger] g1.deps_at(e)[k]).0 as int,
                        ) == g1.deps_at(e)[k].1 by {
                            assert(g1.deps_at(e)[k] == old(self).deps_at(e)[k]);
                            assert(self.version_at((old(self).deps_at(e)[k]).0 as int) == old(self).deps_at(e)[k].1);
                        }
                        assert(self.log_at(e) == g1.log_at(e));
                        assert(g1.log_at(e) == old(self).log_at(e));
                    }
                }
                if old(self).no_effect_writes() && old(self).epoch_of() < u64::MAX {
                    assert(g1.epoch_of() == old(self).epoch_of());
                    assert(g1.no_effect_writes()) by {
                        assert forall|i: int| #[trigger]
                            g1.is_effect(i) implies (match g1.node_at(i).kind {
                            NodeKind::Effect { write_to, .. } => write_to is None,
                            _ => true,
                        }) by {
                            assert(kind_like(old(self).node_at(i).kind, g1.node_at(i).kind));
                            assert(old(self).is_effect(i));
                        }
                    }
                    assert(r is Ok);
                }
                if old(self).no_effect_writes() {
                    assert(g1.no_effect_writes()) by {
                        assert forall|i: int| #[trigger]
                            g1.is_effect(i) implies (match g1.node_at(i).kind {
                            NodeKind::Effect { write_to, .. } => write_to is None,
                            _ => true,
                        }) by {
                            assert(kind_like(old(self).node_at(i).kind, g1.node_at(i).kind));
                            assert(old(self).is_effect(i));
                        }
                    }
                    assert forall|e: int| #[trigger]
                        old(self).is_effect(e) implies self.log_at(e).len() <= old(self).log_at(
                        e,
                    ).len() + 1 by {
                        assert(g1.is_effect(e)) by {
                            assert(kind_like(old(self).node_at(e).kind, g1.node_at(e).kind));
                        }
                        assert(g1.no_effect_writes());
                        assert(self.log_at(e).len() <= g1.log_at(e).len() + 1);
                        assert(g1.log_at(e) == old(self).log_at(e));
                    }
                }
                assert forall|e: int|
                    #![trigger old(self).log_at(e)]
                    old(self).is_effect(e) && old(self).node_at(e).disposed implies self.log_at(e)
                    == old(self).log_at(e) by {
                    assert(g1.log_at(e) == old(self).log_at(e));
                    assert(g1.is_effect(e)) by {
                        assert(kind_like(old(self).node_at(e).kind, g1.node_at(e).kind));
                    }
                    assert(g1.node_at(e).disposed == old(self).node_at(e).disposed);
                    assert(self.log_at(e) == g1.log_at(e));
                }
                if old(self).no_effect_writes() {
                    assert(g1.no_effect_writes()) by {
                        assert forall|i: int| #[trigger]
                            g1.is_effect(i) implies (match g1.node_at(i).kind {
                            NodeKind::Effect { write_to, .. } => write_to is None,
                            _ => true,
                        }) by {
                            assert(kind_like(old(self).node_at(i).kind, g1.node_at(i).kind));
                            assert(old(self).is_effect(i));
                        }
                    }
                    // the written value survives the drain, and no other signal moves
                    assert(g1.is_signal(t as int));
                    assert(self.node_at(t as int).value == g1.node_at(t as int).value
                        && self.version_at(t as int) == g1.version_at(t as int));
                    assert(self.value_at(t as int) == v);
                    assert forall|i: int|
                        old(self).is_signal(i) && i != t as int implies (
                    #[trigger] self.node_at(i)).value == old(self).node_at(i).value
                        && self.version_at(i) == old(self).version_at(i) by {
                        assert(g1.node_at(i).value == old(self).node_at(i).value
                            && g1.node_at(i).version == old(self).node_at(i).version);
                        assert(g1.is_signal(i)) by {
                            assert(kind_like(old(self).node_at(i).kind, g1.node_at(i).kind));
                        }
                        assert(self.node_at(i).value == g1.node_at(i).value && self.version_at(i)
                            == g1.version_at(i));
                    }
                    // every live effect that recorded this signal is rerun
                    if old(self).epoch_of() < u64::MAX && old(self).clock_of() < u64::MAX && r
                        is Ok {
                        assert forall|e: int|
                            #![trigger old(self).deps_at(e)]
                            old(self).is_effect(e) && !old(self).node_at(e).disposed
                                && dep_ids_has(old(self).deps_at(e), t) implies ((self.log_at(
                            e,
                        ).len() == old(self).log_at(e).len() + 1 || faulted_between(
                            *old(self),
                            *self,
                            e as usize,
                        )) && ((match old(self).node_at(e).kind {
                            NodeKind::Effect { expr, .. } => old(self).fault_free(expr),
                            _ => false,
                        }) ==> self.log_at(e).len() == old(self).log_at(e).len() + 1)) by {
                            assert(g1.pending_seq().contains(e as usize));
                            let k = choose|k: int|
                                0 <= k < g1.pending_seq().len() && g1.pending_seq()[k]
                                    == e as usize;
                            assert((#[trigger] g1.pending_seq()[k]) == e as usize);
                            assert(g1.node_at(e).kind == old(self).node_at(e).kind);
                            assert(g1.deps_at(e) == old(self).deps_at(e));
                            assert(g1.node_at(e).disposed == old(self).node_at(e).disposed);
                            assert(!g1.node_at(e).disposed);
                            let j = choose|j: int|
                                0 <= j < old(self).deps_at(e).len() && (#[trigger] old(self).deps_at(e)[j]).0 == t;
                            let (dj, vj) = old(self).deps_at(e)[j];
                            assert(old(self).node_wf(e));
                            assert(vj <= old(self).version_at(t as int));
                            assert(old(self).version_at(t as int) < g1.version_at(t as int));
                            assert(g1.deps_at(e)[j] == old(self).deps_at(e)[j]);
                            assert(g1.deps_at(e)[j].1 != g1.version_at(g1.deps_at(
                                e,
                            )[j].0 as int));
                            assert(g1.epoch_of() == old(self).epoch_of());
                            vstd::std_specs::vec::axiom_spec_len(&old(self).nodes);
                            assert((g1.pending_seq()[k] as int) == e);
                            assert(exists|j2: int|
                                0 <= j2 < g1.deps_at(e).len() && (#[trigger] g1.deps_at(
                                    e,
                                )[j2]).1 != g1.version_at(g1.deps_at(e)[j2].0 as int)) by {
                                assert((#[trigger] g1.deps_at(e)[j]).1 != g1.version_at(
                                    g1.deps_at(e)[j].0 as int,
                                ));
                            }
                            assert(self.log_at(e).len() == g1.log_at(e).len() + 1
                                || faulted_between(g1, *self, e as usize));
                            assert(g1.log_at(e) == old(self).log_at(e));
                            if (match old(self).node_at(e).kind {
                                NodeKind::Effect { expr, .. } => old(self).fault_free(expr),
                                _ => false,
                            }) {
                                assert((match g1.node_at(e).kind {
                                    NodeKind::Effect { expr: ex1, .. } => g1.fault_free(ex1),
                                    _ => false,
                                })) by {
                                    assert forall|i2: int|
                                        0 <= i2 < old(self).n_nodes() implies kind_like(
                                        old(self).node_at(i2).kind,
                                        #[trigger] g1.node_at(i2).kind,
                                    ) by {}
                                    assert forall|i2: int|
                                        0 <= i2 < old(self).n_nodes() implies #[trigger] g1.node_at(i2).disposed == old(self).node_at(i2).disposed by {}
                                    match old(self).node_at(e).kind {
                                        NodeKind::Effect { expr: ex0, .. } => {
                                            lemma_fault_free_congruence(*old(self), g1, ex0);
                                        },
                                        _ => {},
                                    }
                                }
                                assert(g1.pending_seq()[k] == e as usize);
                                assert((g1.pending_seq()[k] as int) == e);
                                assert(!g1.node_at((g1.pending_seq()[k]) as int).disposed);
                                assert((match g1.node_at((g1.pending_seq()[k]) as int).kind {
                                    NodeKind::Effect { expr: ex1, .. } => g1.fault_free(ex1),
                                    _ => false,
                                }));
                                assert(exists|j2: int|
                                    0 <= j2 < g1.deps_at((g1.pending_seq()[k]) as int).len() && (
                                    #[trigger] g1.deps_at((g1.pending_seq()[k]) as int)[j2]).1
                                        != g1.version_at(g1.deps_at(
                                        (g1.pending_seq()[k]) as int,
                                    )[j2].0 as int));
                                assert(self.log_at(e).len() == g1.log_at(e).len() + 1);
                            }
                            if faulted_between(g1, *self, e as usize) {
                                let kw = choose|kw: int|
                                    g1.diagnostics_seq().len() <= kw < self.diagnostics_seq().len()
                                        && #[trigger] self.diagnostics_seq()[kw] == e as usize;
                                assert(g1.diagnostics_seq() == old(self).diagnostics_seq());
                                assert(faulted_between(*old(self), *self, e as usize));
                            }
                        }
                    }
                }
            }
            r
        } else {
            proof {
                assert forall|e: int| #[trigger]
                    old(self).is_effect(e) implies self.log_at(e) == old(self).log_at(e) by {}
            }
            Result::Ok(())
        }
    }

    /// Opens a batch: until the outermost batch is closed again, writes
    /// store, mark and enqueue, but no effect runs.
    pub fn begin_batch(&mut self)
        requires
            old(self).wf(),
            old(self).batch_depth_of() < u64::MAX,
        ensures
            final(self).wf(),
            final(self).batch_depth_of() == old(self).batch_depth_of() + 1,
            final(self).nodes_seq() == old(self).nodes_seq(),
            final(self).scopes_seq() == old(self).scopes_seq(),
            final(self).pending_seq() == old(self).pending_seq(),
            final(self).clock_of() == old(self).clock_of(),
            final(self).epoch_of() == old(self).epoch_of(),
            final(self).cleanup_record_seq() == old(self).cleanup_record_seq(),
            final(self).diagnostics_seq() == old(self).diagnostics_seq(),
    {
        let ghost g0 = *self;
        self.batch_depth = self.batch_depth + 1;
        proof {
            lemma_wf_base_congruence(g0, *self);
        }
    }

    /// Closes one batch level.  Closing the outermost batch drains the queue
    /// once, so every write performed under the batch collapses into a
    /// single update pass; nested closes just decrement the depth.
    /// The rerun-suppression and at-most-once laws stated on
    /// [`Runtime::write`] hold of the closing drain as well.
    pub fn end_batch(&mut self) -> (r: Result<(), ReactiveError>)
        requires
            old(self).wf(),
            old(self).batch_depth_of() > 0,
        ensures
            final(self).wf(),
            final(self).batch_depth_of() == old(self).batch_depth_of() - 1,
            old(self).batch_depth_of() > 1 ==> {
                &&& r is Ok
                &&& final(self).nodes_seq() == old(self).nodes_seq()
                &&& final(self).scopes_seq() == old(self).scopes_seq()
                &&& final(self).pending_seq() == old(self).pending_seq()
                &&& final(self).clock_of() == old(self).clock_of()
                &&& final(self).cleanup_record_seq() == old(self).cleanup_record_seq()
                &&& final(self).diagnostics_seq() == old(self).diagnostics_seq()
            },
            old(self).batch_depth_of() == 1 ==> {
                &&& run_step(*old(self), *final(self))
                &&& final(self).pending_seq() =~= Seq::<usize>::empty()
                &&& (r is Ok || r == Result::<(), ReactiveError>::Err(
                    ReactiveError::InfiniteUpdateLoop,
                ))
            },
            forall|e: int| #[trigger]
                old(self).is_effect(e) ==> ((forall|k: int|
                    0 <= k < old(self).deps_at(e).len() ==> final(self).version_at(
                        (#[trigger] old(self).deps_at(e)[k]).0 as int,
                    ) == old(self).deps_at(e)[k].1) ==> final(self).log_at(e) == old(self).log_at(
                    e,
                )),
            old(self).no_effect_writes() ==> (forall|e: int| #[trigger]
                old(self).is_effect(e) ==> final(self).log_at(e).len() <= old(self).log_at(
                    e,
                ).len() + 1),
            old(self).no_effect_writes() ==> (forall|i: int|
                old(self).is_signal(i) ==> (#[trigger] final(self).node_at(i)).value == old(self).node_at(i).value && final(self).version_at(i) == old(self).version_at(i)),
            (old(self).no_effect_writes() && old(self).epoch_of() < u64::MAX) ==> r is Ok,
            forall|e: int|
                #![trigger old(self).log_at(e)]
                old(self).is_effect(e) && old(self).node_at(e).disposed ==> final(self).log_at(e)
                    == old(self).log_at(e),
            (old(self).batch_depth_of() == 1 && old(self).no_effect_writes() && old(self).epoch_of() < u64::MAX && r is Ok) ==> (forall|k: int|
                0 <= k < old(self).pending_seq().len() ==> {
                    let e = (#[trigger] old(self).pending_seq()[k]) as int;
                    &&& ((!old(self).node_at(e).disposed && (exists|j: int|
                        0 <= j < old(self).deps_at(e).len() && (#[trigger] old(self).deps_at(
                            e,
                        )[j]).1 != old(self).version_at(old(self).deps_at(e)[j].0 as int))) ==> (
                    final(self).log_at(e).len() == old(self).log_at(e).len() + 1
                        || faulted_between(*old(self), *final(self), e as usize)))
                    &&& ((!old(self).node_at(e).disposed && (exists|j: int|
                        0 <= j < old(self).deps_at(e).len() && (#[trigger] old(self).deps_at(
                            e,
                        )[j]).1 != old(self).version_at(old(self).deps_at(e)[j].0 as int))
                        && (match old(self).node_at(e).kind {
                        NodeKind::Effect { expr, .. } => old(self).fault_free(expr),
                        _ => false,
                    })) ==> final(self).log_at(e).len() == old(self).log_at(e).len() + 1)
                }),
    {
        let ghost g0 = *self;
        self.batch_depth = self.batch_depth - 1;
        proof {
            lemma_wf_base_congruence(g0, *self);
        }
        if self.batch_depth == 0 {
            let ghost g1 = *self;
            let r = self.drain();
            proof {
                lemma_run_step_stack_only(g0, g1);
                lemma_run_step_trans(g0, g1, *self);
                assert forall|e: int| #[trigger]
                    old(self).is_effect(e) implies ((forall|k: int|
                    0 <= k < old(self).deps_at(e).len() ==> self.version_at(
                        (#[trigger] old(self).deps_at(e)[k]).0 as int,
                    ) == old(self).deps_at(e)[k].1) ==> self.log_at(e) == old(self).log_at(
                    e,
                )) by {
                    if forall|k: int|
                        0 <= k < old(self).deps_at(e).len() ==> self.version_at(
                            (#[trigger] old(self).deps_at(e)[k]).0 as int,
                        ) == old(self).deps_at(e)[k].1 {
                        assert(g1.deps_at(e) == old(self).deps_at(e));
                        assert(g1.is_effect(e));
                        assert forall|k: int|
                            0 <= k < g1.deps_at(e).len() implies self.version_at(
                            (#[trigger] g1.deps_at(e)[k]).0 as int,
                        ) == g1.deps_at(e)[k].1 by {
                            assert(g1.deps_at(e)[k] == old(self).deps_at(e)[k]);
                            assert(self.version_at((old(self).deps_at(e)[k]).0 as int) == old(self).deps_at(e)[k].1);
                        }
                        assert(self.log_at(e) == g1.log_at(e));
                        assert(g1.log_at(e) == old(self).log_at(e));
                    }
                }
                if old(self).no_effect_writes() && old(self).epoch_of() < u64::MAX {
                    assert(g1.epoch_of() == old(self).epoch_of());
                    assert(g1.no_effect_writes()) by {
                        assert forall|i: int| #[trigger]
                            g1.is_effect(i) implies (match g1.node_at(i).kind {
                            NodeKind::Effect { write_to, .. } => write_to is None,
                            _ => true,
                        }) by {
                            assert(g1.node_at(i) == old(self).node_at(i));
                            assert(old(self).is_effect(i));
                        }
                    }
                    assert(r is Ok);
                }
                assert forall|e: int|
                    #![trigger old(self).log_at(e)]
                    old(self).is_effect(e) && old(self).node_at(e).disposed implies self.log_at(e)
                    == old(self).log_at(e) by {
                    assert(g1.node_at(e) == old(self).node_at(e));
                    assert(g1.is_effect(e) && g1.node_at(e).disposed);
                    assert(self.log_at(e) == g1.log_at(e));
                }
                if old(self).no_effect_writes() {
                    assert(g1.no_effect_writes()) by {
                        assert forall|i: int| #[trigger]
                            g1.is_effect(i) implies (match g1.node_at(i).kind {
                            NodeKind::Effect { write_to, .. } => write_to is None,
                            _ => true,
                        }) by {
                            assert(g1.node_at(i) == old(self).node_at(i));
                            assert(old(self).is_effect(i));
                        }
                    }
                    assert forall|e: int| #[trigger]
                        old(self).is_effect(e) implies self.log_at(e).len() <= old(self).log_at(
                        e,
                    ).len() + 1 by {
                        assert(g1.is_effect(e)) by {
                            assert(g1.node_at(e) == old(self).node_at(e));
                        }
                        assert(self.log_at(e).len() <= g1.log_at(e).len() + 1);
                        assert(g1.log_at(e) == old(self).log_at(e));
                    }
                    assert forall|i: int|
                        old(self).is_signal(i) implies (#[trigger] self.node_at(i)).value == old(self).node_at(i).value && self.version_at(i) == old(self).version_at(i) by {
                        assert(g1.node_at(i) == old(self).node_at(i));
                        assert(g1.is_signal(i));
                        assert(self.node_at(i).value == g1.node_at(i).value && self.version_at(i)
                            == g1.version_at(i));
                    }
                    if old(self).epoch_of() < u64::MAX && r is Ok {
                        assert forall|k: int|
                            0 <= k < old(self).pending_seq().len() implies {
                            let e = (#[trigger] old(self).pending_seq()[k]) as int;
                            &&& ((!old(self).node_at(e).disposed && (exists|j: int|
                                0 <= j < old(self).deps_at(e).len() && (#[trigger] old(self).deps_at(e)[j]).1 != old(self).version_at(old(self).deps_at(
                                    e,
                                )[j].0 as int))) ==> (self.log_at(e).len() == old(self).log_at(
                                e,
                            ).len() + 1 || faulted_between(*old(self), *self, e as usize)))
                            &&& ((!old(self).node_at(e).disposed && (exists|j: int|
                                0 <= j < old(self).deps_at(e).len() && (#[trigger] old(self).deps_at(e)[j]).1 != old(self).version_at(old(self).deps_at(
                                    e,
                                )[j].0 as int)) && (match old(self).node_at(e).kind {
                                NodeKind::Effect { expr, .. } => old(self).fault_free(expr),
                                _ => false,
                            })) ==> self.log_at(e).len() == old(self).log_at(e).len() + 1)
                        } by {
                            let e = old(self).pending_seq()[k] as int;
                            if !old(self).node_at(e).disposed && (exists|j: int|
                                0 <= j < old(self).deps_at(e).len() && (#[trigger] old(self).deps_at(e)[j]).1 != old(self).version_at(old(self).deps_at(
                                    e,
                                )[j].0 as int)) {
                                assert((#[trigger] g1.pending_seq()[k]) == old(self).pending_seq()[k]);
                                assert(g1.node_at(e) == old(self).node_at(e));
                                let j = choose|j: int|
                                    0 <= j < old(self).deps_at(e).len() && (#[trigger] old(self).deps_at(e)[j]).1 != old(self).version_at(old(self).deps_at(
                                        e,
                                    )[j].0 as int);
                                assert(g1.deps_at(e)[j] == old(self).deps_at(e)[j]);
                                assert(g1.node_at(old(self).deps_at(e)[j].0 as int) == old(self).node_at(old(self).deps_at(e)[j].0 as int));
                                assert(exists|j2: int|
                                    0 <= j2 < g1.deps_at(e).len() && (#[trigger] g1.deps_at(
                                        e,
                                    )[j2]).1 != g1.version_at(g1.deps_at(e)[j2].0 as int)) by {
                                    assert((#[trigger] g1.deps_at(e)[j]).1 != g1.version_at(
                                        g1.deps_at(e)[j].0 as int,
                                    ));
                                }
                                assert(self.log_at(e).len() == g1.log_at(e).len() + 1
                                    || faulted_between(g1, *self, e as usize));
                                assert(g1.log_at(e) == old(self).log_at(e));
                                if (match old(self).node_at(e).kind {
                                    NodeKind::Effect { expr, .. } => old(self).fault_free(expr),
                                    _ => false,
                                }) {
                                    assert((match g1.node_at(e).kind {
                                        NodeKind::Effect { expr: ex1, .. } => g1.fault_free(ex1),
                                        _ => false,
                                    })) by {
                                        assert forall|i2: int|
                                            0 <= i2 < old(self).n_nodes() implies kind_like(
                                            old(self).node_at(i2).kind,
                                            #[trigger] g1.node_at(i2).kind,
                                        ) by {
                                            lemma_eval_frame_refl(*old(self), Option::None);
                                            assert(g1.node_at(i2) == old(self).node_at(i2));
                                        }
                                        assert forall|i2: int|
                                            0 <= i2 < old(self).n_nodes() implies #[trigger] g1.node_at(i2).disposed == old(self).node_at(i2).disposed by {
                                            assert(g1.node_at(i2) == old(self).node_at(i2));
                                        }
                                        match old(self).node_at(e).kind {
                                            NodeKind::Effect { expr: ex0, .. } => {
                                                lemma_fault_free_congruence(*old(self), g1, ex0);
                                            },
                                            _ => {},
                                        }
                                    }
                                    assert(g1.pending_seq()[k] == old(self).pending_seq()[k]);
                                    assert(self.log_at(e).len() == g1.log_at(e).len() + 1);
                                }
                                if faulted_between(g1, *self, e as usize) {
                                    assert(g1.diagnostics_seq() == old(self).diagnostics_seq());
                                    assert(faulted_between(*old(self), *self, e as usize));
                                }
                            }
                        }
                    }
                }
            }
            r
        } else {
            proof {
                assert forall|i: int|
                    old(self).is_signal(i) implies (#[trigger] self.node_at(i)).value == old(self).node_at(i).value && self.version_at(i) == old(self).version_at(i) by {
                    assert(self.node_at(i) == old(self).node_at(i));
                }
            }
            Result::Ok(())
        }
    }
}


impl Runtime {
    /// Creates an effect owned by `scope` and runs it immediately once,
    /// tracking its reads as dependency edges.  After each run, the observed
    /// value is appended to the effect's log, and, when `write_to` names a
    /// signal, written into it; at batch depth zero propagation from that
    /// write (and from the creation run) is drained before returning.
    /// Subsequent reruns happen only through the pending queue.
    pub fn create_effect(
        &mut self,
        scope: ScopeHandle,
        expr: Expr,
        write_to: Option<WriteSignal>,
    ) -> (r: Result<EffectHandle, ReactiveError>)
        requires
            old(self).wf(),
            old(self).valid_scope(scope.id as int),
            refs_below(expr, old(self).n_nodes()),
            no_input(expr),
            match write_to {
                Option::Some(w) => old(self).is_signal(w.id as int),
                Option::None => true,
            },
        ensures
            final(self).wf(),
            !old(self).scope_live(scope.id as int) ==> r == Result::<
                EffectHandle,
                ReactiveError,
            >::Err(ReactiveError::UseAfterDispose) && *final(self) == *old(self),
            old(self).scope_live(scope.id as int) ==> {
                &&& (r is Ok || r == Result::<EffectHandle, ReactiveError>::Err(
                    ReactiveError::InfiniteUpdateLoop,
                ))
                &&& final(self).n_nodes() == old(self).n_nodes() + 1
                &&& final(self).is_effect(old(self).n_nodes() as int)
                &&& final(self).node_live(old(self).n_nodes() as int)
                &&& final(self).n_scopes() == old(self).n_scopes()
                &&& (forall|s: int|
                    0 <= s < old(self).n_scopes() ==> final(self).scope_at(s).disposed == old(self).scope_at(s).disposed)
                &&& final(self).batch_depth_of() == old(self).batch_depth_of()
                &&& final(self).cleanup_record_seq() == old(self).cleanup_record_seq()
            },
            (old(self).scope_live(scope.id as int) && write_to is None && old(self).pending_seq().len()
                == 0) ==> {
                &&& r is Ok
                &&& (final(self).log_at(old(self).n_nodes() as int).len() == 1 || final(self).diagnostics_seq()
                    == old(self).diagnostics_seq().push(old(self).n_nodes() as usize))
            },
            old(self).scope_live(scope.id as int) ==> (forall|i: int|
                0 <= i < old(self).n_nodes() ==> {
                    let a = old(self).node_at(i);
                    let b = #[trigger] final(self).node_at(i);
                    &&& kind_like(a.kind, b.kind)
                    &&& b.scope == a.scope
                    &&& b.disposed == a.disposed
                    &&& a.version <= b.version
                }),
            old(self).scope_live(scope.id as int) ==> (forall|i: int|
                #[trigger] old(self).is_signal(i) ==> final(self).is_signal(i) && final(self).sig_eq_skip(i) == old(self).sig_eq_skip(i)),
            (old(self).scope_live(scope.id as int) && write_to is None && old(self).no_effect_writes()) ==> (forall|i: int|
                old(self).is_signal(i) ==> (#[trigger] final(self).node_at(i)).value == old(self).node_at(i).value && final(self).version_at(i) == old(self).version_at(i)),
            (old(self).scope_live(scope.id as int) && no_tracked_reads(expr)) ==> final(self).deps_at(old(self).n_nodes() as int) =~= Seq::<(usize, u64)>::empty(),
            (old(self).scope_live(scope.id as int) && pure_expr(expr)) ==> (match pure_val(
                expr,
                Option::None,
            ) {
                Option::Some(u) => final(self).log_at(old(self).n_nodes() as int) =~= seq![u],
                Option::None => final(self).log_at(old(self).n_nodes() as int) =~= Seq::<
                    i64,
                >::empty(),
            }),
            old(self).scope_live(scope.id as int) ==> (match final(self).node_at(
                old(self).n_nodes() as int,
            ).kind {
                NodeKind::Effect { expr: e2, write_to: w2, .. } => e2 == expr && w2 == (
                match write_to {
                    Option::Some(w) => Option::Some(w.id),
                    Option::None => Option::<usize>::None,
                }),
                _ => false,
            }),
            r is Ok ==> r->Ok_0.id == old(self).n_nodes(),
    {
        let s = scope.id;
        if self.scopes[s].disposed {
            return Result::Err(ReactiveError::UseAfterDispose);
        }
        let id = self.nodes.len();
        let wt = match write_to {
            Option::Some(w) => Option::Some(w.id),
            Option::None => Option::None,
        };
        let node = Node {
            kind: NodeKind::Effect {
                expr,
                write_to: wt,
                last_epoch: 0,
                runs_in_epoch: 0,
                failed_in: Option::None,
            },
            scope: s,
            disposed: false,
            value: 0,
            version: 0,
            deps: Vec::new(),
            subs: Vec::new(),
            log: Vec::new(),
        };
        self.nodes.push(node);
        self.scopes[s].owned.push(id);
        proof {
            assert forall|t: int| 0 <= t < self.n_scopes() implies self.scope_wf(t) by {
                assert(old(self).scope_wf(t));
                if t == s as int {
                    assert(self.scope_at(t).children == old(self).scope_at(t).children);
                    assert(self.scope_at(t).owned@ == old(self).scope_at(t).owned@.push(id));
                } else {
                    assert(self.scope_at(t) == old(self).scope_at(t));
                }
            }
            lemma_pending_transfer(*old(self), *self);
            assert forall|i: int| 0 <= i < self.n_nodes() implies self.node_wf(i) by {
                if i < old(self).n_nodes() {
                    assert(old(self).node_wf(i));
                    let sc = self.node_at(i).scope as int;
                    if sc == s as int {
                        assert(self.scope_at(sc).owned@ == old(self).scope_at(sc).owned@.push(id));
                        assert(self.scope_at(sc).disposed == old(self).scope_at(sc).disposed);
                    } else {
                        assert(self.scope_at(sc) == old(self).scope_at(sc));
                    }
                    assert(self.node_at(i) == old(self).node_at(i));
                } else {
                    assert(i == id as int);
                    assert(self.scope_at(s as int).owned@ == old(self).scope_at(
                        s as int,
                    ).owned@.push(id));
                }
            }
        }
        let ghost g1 = *self;
        let ep = self.epoch;
        self.fire_effect(id, ep);
        let ghost g2 = *self;
        let dr = if self.batch_depth == 0 {
            self.drain()
        } else {
            Result::Ok(())
        };
        proof {
            assert(run_step(g1, *self)) by {
                lemma_run_step_trans(g1, g2, *self);
            }
            assert(self.node_live(id as int)) by {
                assert(self.node_at(id as int).disposed == g1.node_at(id as int).disposed);
            }
            assert(self.is_effect(id as int)) by {
                assert(kind_like(g1.node_at(id as int).kind, self.node_at(id as int).kind));
            }
            assert((match self.node_at(id as int).kind {
                NodeKind::Effect { expr: e2, write_to: w2, .. } => e2 == expr && w2 == wt,
                _ => false,
            })) by {
                assert(kind_like(g1.node_at(id as int).kind, self.node_at(id as int).kind));
            }
            assert forall|t: int|
                0 <= t < old(self).n_scopes() implies self.scope_at(t).disposed == old(self).scope_at(t).disposed by {
                assert(self.scopes_seq() == g1.scopes_seq());
            }
            assert forall|i: int|
                0 <= i < old(self).n_nodes() implies {
                let a = old(self).node_at(i);
                let b = #[trigger] self.node_at(i);
                &&& kind_like(a.kind, b.kind)
                &&& b.scope == a.scope
                &&& b.disposed == a.disposed
                &&& a.version <= b.version
            } by {
                assert(g1.node_at(i) == old(self).node_at(i));
                assert(kind_like(g1.node_at(i).kind, self.node_at(i).kind));
                assert(self.node_at(i).scope == g1.node_at(i).scope);
                assert(self.node_at(i).disposed == g1.node_at(i).disposed);
                assert(g1.version_at(i) <= self.version_at(i));
            }
            assert forall|i: int| #[trigger]
                old(self).is_signal(i) implies self.is_signal(i) && self.sig_eq_skip(i) == old(self).sig_eq_skip(i) by {
                assert(kind_like(old(self).node_at(i).kind, (#[trigger] self.node_at(i)).kind));
            }
            if write_to is None && old(self).no_effect_writes() {
                assert(g1.effect_writes_nothing(id as int));
                assert(g2.no_effect_writes()) by {
                    assert forall|f: int| #[trigger]
                        g2.is_effect(f) implies (match g2.node_at(f).kind {
                        NodeKind::Effect { write_to: w2, .. } => w2 is None,
                        _ => true,
                    }) by {
                        assert(kind_like(g1.node_at(f).kind, g2.node_at(f).kind));
                        assert(g1.is_effect(f));
                        if f != id as int {
                            assert(g1.node_at(f) == old(self).node_at(f));
                            assert(old(self).is_effect(f));
                        }
                    }
                }
                assert forall|i: int|
                    old(self).is_signal(i) implies (#[trigger] self.node_at(i)).value == old(self).node_at(i).value && self.version_at(i) == old(self).version_at(i) by {
                    assert(g1.node_at(i) == old(self).node_at(i));
                    assert(g1.is_signal(i));
                    assert(g2.node_at(i).value == g1.node_at(i).value && g2.version_at(i)
                        == g1.version_at(i));
                    assert(g2.is_signal(i));
                    assert(self.node_at(i).value == g2.node_at(i).value && self.version_at(i)
                        == g2.version_at(i));
                }
            }
            if no_tracked_reads(expr) {
                assert(g2.deps_at(id as int) =~= Seq::<(usize, u64)>::empty());
                assert(g2.is_effect(id as int)) by {
                    assert(kind_like(g1.node_at(id as int).kind, g2.node_at(id as int).kind));
                }
                assert(self.deps_at(id as int) == g2.deps_at(id as int));
                assert(self.deps_at(id as int) =~= Seq::<(usize, u64)>::empty());
            }
            if pure_expr(expr) {
                assert(no_tracked_reads(expr)) by {
                    lemma_pure_is_untracked(expr);
                }
                assert(g1.log_at(id as int) =~= Seq::<i64>::empty());
                assert(g2.deps_at(id as int) =~= Seq::<(usize, u64)>::empty());
                assert(g2.is_effect(id as int)) by {
                    assert(kind_like(g1.node_at(id as int).kind, g2.node_at(id as int).kind));
                }
                assert(self.log_at(id as int) == g2.log_at(id as int));
                match pure_val(expr, Option::None) {
                    Option::Some(u) => {
                        assert(g2.log_at(id as int) == g1.log_at(id as int).push(u));
                        assert(self.log_at(id as int) =~= seq![u]);
                    },
                    Option::None => {
                        assert(g2.log_at(id as int) == g1.log_at(id as int));
                        assert(self.log_at(id as int) =~= Seq::<i64>::empty());
                    },
                }
            }
            if write_to is None && old(self).pending_seq().len() == 0 {
                assert(g1.effect_writes_nothing(id as int));
                assert(g1.pending_seq() == old(self).pending_seq());
                assert(g2.pending_seq() == g1.pending_seq());
                assert(self.nodes_seq() == g2.nodes_seq());
                assert(self.diagnostics_seq() == g2.diagnostics_seq());
                assert(g1.log_at(id as int) =~= Seq::<i64>::empty());
                if g2.log_at(id as int) == g1.log_at(id as int) {
                    assert(g2.diagnostics_seq() == g1.diagnostics_seq().push(id));
                    assert(g1.diagnostics_seq() == old(self).diagnostics_seq());
                    assert(self.diagnostics_seq() == old(self).diagnostics_seq().push(id));
                } else {
                    assert(g2.log_at(id as int) == g1.log_at(id as int).push(
                        g2.node_at(id as int).value,
                    ));
                    assert(self.log_at(id as int).len() == 1);
                }
            }
        }
        match dr {
            Result::Ok(()) => Result::Ok(EffectHandle { id }),
            Result::Err(f) => Result::Err(f),
        }
    }
}


impl Runtime {
    /// `t` lies in the scope subtree rooted at `s`: following parent links
    /// upward from `t` reaches `s`.  The relation depends only on the parent
    /// links, which no operation ever changes.
    pub open spec fn scope_in_subtree(self, t: int, s: int) -> bool
        decreases t,
    {
        if !(0 <= t < self.n_scopes()) {
            false
        } else if t == s {
            true
        } else {
            match self.scope_at(t).parent {
                Option::Some(p) => 0 <= (p as int) < t && self.scope_in_subtree(p as int, s),
                Option::None => false,
            }
        }
    }

    /// The cleanup tokens that disposing the subtree at `s` runs, in
    /// execution order: each live child subtree in creation order, then the
    /// scope's own tokens in reverse registration order.  Parts already
    /// disposed contribute nothing.
    pub open spec fn subtree_cleanups(self, s: int) -> Seq<u64>
        decreases self.n_scopes() - s, 1int, 0int,
    {
        if !(0 <= s < self.n_scopes()) || self.scope_at(s).disposed {
            Seq::empty()
        } else {
            self.children_cleanups(s, 0) + self.scope_at(s).cleanups@.reverse()
        }
    }

    /// The cleanup tokens of the child subtrees of `s` from child index `k`
    /// on.
    pub open spec fn children_cleanups(self, s: int, k: int) -> Seq<u64>
        decreases self.n_scopes() - s, 0int, self.scope_at(s).children@.len() - k,
    {
        if !(0 <= s < self.n_scopes()) || k < 0 || k >= self.scope_at(s).children@.len() {
            Seq::empty()
        } else {
            let c = self.scope_at(s).children@[k] as int;
            (if s < c < self.n_scopes() {
                self.subtree_cleanups(c)
            } else {
                Seq::empty()
            }) + self.children_cleanups(s, k + 1)
        }
    }
}

/// The subtree relation is the same in two states whose scope count and
/// parent links agree.
proof fn lemma_subtree_congruence(a: Runtime, b: Runtime, t: int, s: int)
    requires
        b.n_scopes() == a.n_scopes(),
        forall|u: int|
            0 <= u < a.n_scopes() ==> #[trigger] b.scope_at(u).parent == a.scope_at(u).parent,
    ensures
        b.scope_in_subtree(t, s) == a.scope_in_subtree(t, s),
    decreases t,
{
    if 0 <= t < a.n_scopes() && t != s {
        match a.scope_at(t).parent {
            Option::Some(p) => {
                if 0 <= (p as int) < t {
                    lemma_subtree_congruence(a, b, p as int, s);
                }
            },
            Option::None => {},
        }
    }
}

/// Climbing parent links only decreases the index: everything in the
/// subtree at `s` sits at or above `s`.
proof fn lemma_subtree_le(a: Runtime, t: int, s: int)
    requires
        a.scope_in_subtree(t, s),
    ensures
        s <= t,
    decreases t,
{
    if t != s {
        match a.scope_at(t).parent {
            Option::Some(p) => {
                lemma_subtree_le(a, p as int, s);
            },
            Option::None => {},
        }
    }
}

/// The parent chains are linear: a scope inside two subtrees forces one of
/// the two roots inside the other.
proof fn lemma_subtree_linear(a: Runtime, u: int, x: int, y: int)
    requires
        a.scope_in_subtree(u, x),
        a.scope_in_subtree(u, y),
    ensures
        a.scope_in_subtree(x, y) || a.scope_in_subtree(y, x),
    decreases u,
{
    if u == x {
        assert(a.scope_in_subtree(x, y));
    } else if u == y {
        assert(a.scope_in_subtree(y, x));
    } else {
        match a.scope_at(u).parent {
            Option::Some(p) => {
                lemma_subtree_linear(a, p as int, x, y);
            },
            Option::None => {},
        }
    }
}

/// Two distinct children of one scope root disjoint subtrees.
proof fn lemma_sibling_subtrees_disjoint(a: Runtime, s: int, c1: int, c2: int, u: int)
    requires
        0 <= c1 < a.n_scopes(),
        0 <= c2 < a.n_scopes(),
        c1 != c2,
        s < c1,
        s < c2,
        match a.scope_at(c1).parent {
            Option::Some(p) => p as int == s,
            Option::None => false,
        },
        match a.scope_at(c2).parent {
            Option::Some(p) => p as int == s,
            Option::None => false,
        },
    ensures
        !(a.scope_in_subtree(u, c1) && a.scope_in_subtree(u, c2)),
{
    if a.scope_in_subtree(u, c1) && a.scope_in_subtree(u, c2) {
        lemma_subtree_linear(a, u, c1, c2);
        if a.scope_in_subtree(c1, c2) {
            assert(a.scope_in_subtree(s, c2));
            lemma_subtree_le(a, s, c2);
        } else {
            assert(a.scope_in_subtree(s, c1));
            lemma_subtree_le(a, s, c1);
        }
        assert(false);
    }
}

/// In a well-formed tree, every scope in the subtree of a disposed scope is
/// itself disposed.
proof fn lemma_subtree_disposed(a: Runtime, t: int, s: int)
    requires
        forall|q: int| 0 <= q < a.n_scopes() ==> a.scope_wf(q),
        a.scope_in_subtree(t, s),
        0 <= s < a.n_scopes(),
        a.scope_at(s).disposed,
    ensures
        0 <= t < a.n_scopes() && a.scope_at(t).disposed,
    decreases t,
{
    if t != s {
        match a.scope_at(t).parent {
            Option::Some(p) => {
                lemma_subtree_disposed(a, p as int, s);
                assert(a.scope_wf(t));
            },
            Option::None => {},
        }
    }
}


/// Subtree membership is transitive.
proof fn lemma_subtree_trans(a: Runtime, u: int, c: int, s: int)
    requires
        a.scope_in_subtree(u, c),
        a.scope_in_subtree(c, s),
    ensures
        a.scope_in_subtree(u, s),
    decreases u,
{
    if u != c {
        match a.scope_at(u).parent {
            Option::Some(p) => {
                lemma_subtree_trans(a, p as int, c, s);
            },
            Option::None => {},
        }
    }
}

/// The cleanup order of a subtree is the same in any state that agrees with
/// `a` on every scope of that subtree.
proof fn lemma_cleanups_frame(a: Runtime, b: Runtime, s: int)
    requires
        forall|q: int| 0 <= q < a.n_scopes() ==> a.scope_wf(q),
        b.n_scopes() == a.n_scopes(),
        forall|u: int| a.scope_in_subtree(u, s) ==> #[trigger] b.scope_at(u) == a.scope_at(u),
    ensures
        b.subtree_cleanups(s) == a.subtree_cleanups(s),
    decreases a.n_scopes() - s, 1int, 0int,
{
    if 0 <= s < a.n_scopes() {
        assert(a.scope_in_subtree(s, s));
        assert(b.scope_at(s) == a.scope_at(s));
        if !a.scope_at(s).disposed {
            lemma_children_cleanups_frame(a, b, s, 0);
        }
    }
}

/// Companion of [`lemma_cleanups_frame`] for the child lists.
proof fn lemma_children_cleanups_frame(a: Runtime, b: Runtime, s: int, k: int)
    requires
        forall|q: int| 0 <= q < a.n_scopes() ==> a.scope_wf(q),
        b.n_scopes() == a.n_scopes(),
        forall|u: int| a.scope_in_subtree(u, s) ==> #[trigger] b.scope_at(u) == a.scope_at(u),
        0 <= s < a.n_scopes(),
    ensures
        b.children_cleanups(s, k) == a.children_cleanups(s, k),
    decreases a.n_scopes() - s, 0int, a.scope_at(s).children@.len() - k,
{
    assert(a.scope_in_subtree(s, s));
    assert(b.scope_at(s) == a.scope_at(s));
    if 0 <= k < a.scope_at(s).children@.len() {
        let c = a.scope_at(s).children@[k] as int;
        assert(a.scope_wf(s));
        assert(s < c < a.n_scopes());
        assert(a.scope_at(c).parent == Option::Some(s as usize));
        assert(a.scope_in_subtree(c, s));
        assert forall|u: int| a.scope_in_subtree(u, c) implies #[trigger] b.scope_at(u)
            == a.scope_at(u) by {
            lemma_subtree_trans(a, u, c, s);
        }
        lemma_cleanups_frame(a, b, c);
        lemma_children_cleanups_frame(a, b, s, k + 1);
    }
}


/// A scope strictly inside a subtree is reached through one of the root's
/// children.
proof fn lemma_subtree_through_child(a: Runtime, u: int, s: int) -> (c: int)
    requires
        forall|q: int| 0 <= q < a.n_scopes() ==> a.scope_wf(q),
        a.scope_in_subtree(u, s),
        0 <= s < a.n_scopes(),
        u != s,
    ensures
        exists|k: int|
            0 <= k < a.scope_at(s).children@.len() && a.scope_at(s).children@[k] as int == c,
        a.scope_in_subtree(u, c),
    decreases u,
{
    match a.scope_at(u).parent {
        Option::Some(p) => {
            if p as int == s {
                assert(a.scope_wf(u as int));
                assert(a.scope_at(s).children@.contains(u as usize));
                let k = choose|k: int|
                    0 <= k < a.scope_at(s).children@.len() && a.scope_at(s).children@[k]
                        == u as usize;
                vstd::std_specs::vec::axiom_spec_len(&a.scopes);
                assert(0 <= u < a.n_scopes());
                assert(a.scope_at(s).children@[k] as int == u);
                assert(a.scope_in_subtree(u, u));
                u
            } else {
                let c = lemma_subtree_through_child(a, p as int, s);
                assert(a.scope_in_subtree(u, c));
                c
            }
        },
        Option::None => {
            assert(false);
            0
        },
    }
}

impl Runtime {
    /// Invalidates one node at disposal time: sets its mark, empties its
    /// dependency set (removing the matching back-references) and its
    /// subscriber list.  Entries for this node left in other sets elsewhere
    /// are caught by the mark on their next access.
    fn invalidate_node(&mut self, x: usize)
        requires
            old(self).wf_base(),
            (x as int) < old(self).n_nodes(),
        ensures
            final(self).wf_base(),
            final(self).n_nodes() == old(self).n_nodes(),
            final(self).scopes_seq() == old(self).scopes_seq(),
            final(self).pending_seq() == old(self).pending_seq(),
            final(self).observer_seq() == old(self).observer_seq(),
            final(self).clock_of() == old(self).clock_of(),
            same_admin(*old(self), *final(self)),
            final(self).node_at(x as int).disposed,
            forall|i: int|
                0 <= i < old(self).n_nodes() ==> {
                    let a = old(self).node_at(i);
                    let b = #[trigger] final(self).node_at(i);
                    &&& b.kind == a.kind
                    &&& b.scope == a.scope
                    &&& b.value == a.value
                    &&& b.version == a.version
                    &&& b.log == a.log
                    &&& (i != x as int ==> b.disposed == a.disposed && b.deps == a.deps)
                    &&& (forall|k: int|
                        0 <= k < b.subs@.len() ==> a.subs@.contains(#[trigger] b.subs@[k]))
                },
    {
        self.clear_deps(x);
        let ghost g1 = *self;
        self.nodes[x].disposed = true;
        self.nodes[x].subs = Vec::new();
        proof {
            lemma_scopes_transfer(g1, *self);
            lemma_pending_transfer(g1, *self);
            assert forall|i: int| 0 <= i < self.n_nodes() implies self.node_wf(i) by {
                assert(g1.node_wf(i));
                if i != x as int {
                    assert(self.node_at(i) == g1.node_at(i));
                } else {
                    assert(self.node_at(i).deps == g1.node_at(i).deps);
                    assert(self.node_at(i).subs@.len() == 0);
                    assert(self.node_at(i).kind == g1.node_at(i).kind);
                    assert(self.node_at(i).version == g1.node_at(i).version);
                }
            }
            assert forall|i: int|
                0 <= i < old(self).n_nodes() implies {
                let a = old(self).node_at(i);
                let b = #[trigger] self.node_at(i);
                &&& b.kind == a.kind
                &&& b.scope == a.scope
                &&& b.value == a.value
                &&& b.version == a.version
                &&& b.log == a.log
                &&& (i != x as int ==> b.disposed == a.disposed && b.deps == a.deps)
                &&& (forall|k: int|
                    0 <= k < b.subs@.len() ==> a.subs@.contains(#[trigger] b.subs@[k]))
            } by {
                if i != x as int {
                    assert(self.node_at(i) == g1.node_at(i));
                } else {
                    assert(self.node_at(i).subs@.len() == 0);
                }
            }
        }
    }
}



impl Runtime {
    /// One child of `s`, as the spec sees it.
    pub open spec fn child_of(self, s: int, j: int) -> int {
        self.scope_at(s).children@[j] as int
    }

    /// Recursive disposal: child subtrees depth-first in creation order,
    /// then the scope's own cleanup tokens in reverse registration order,
    /// then the scope's mark and the invalidation of its nodes.  Disposing
    /// an already-disposed scope is a no-op.
    fn dispose_scope_rec(&mut self, s: usize)
        requires
            old(self).wf_base(),
            (s as int) < old(self).n_scopes(),
        ensures
            final(self).wf_base(),
            final(self).n_scopes() == old(self).n_scopes(),
            final(self).n_nodes() == old(self).n_nodes(),
            final(self).pending_seq() == old(self).pending_seq(),
            final(self).observer_seq() == old(self).observer_seq(),
            final(self).clock_of() == old(self).clock_of(),
            final(self).epoch_of() == old(self).epoch_of(),
            final(self).batch_depth_of() == old(self).batch_depth_of(),
            final(self).diagnostics_seq() == old(self).diagnostics_seq(),
            forall|u: int|
                0 <= u < old(self).n_scopes() ==> {
                    let a = old(self).scope_at(u);
                    let b = #[trigger] final(self).scope_at(u);
                    &&& b.parent == a.parent
                    &&& b.children == a.children
                    &&& b.cleanups == a.cleanups
                    &&& b.owned == a.owned
                },
            forall|u: int|
                0 <= u < old(self).n_scopes() ==> (#[trigger] final(self).scope_at(u).disposed == (
                old(self).scope_at(u).disposed || old(self).scope_in_subtree(u, s as int))),
            forall|x: int|
                0 <= x < old(self).n_nodes() ==> {
                    let a = old(self).node_at(x);
                    let b = #[trigger] final(self).node_at(x);
                    &&& b.kind == a.kind
                    &&& b.scope == a.scope
                    &&& b.value == a.value
                    &&& b.version == a.version
                    &&& b.log == a.log
                },
            forall|x: int|
                0 <= x < old(self).n_nodes() && !old(self).scope_in_subtree(
                    old(self).node_at(x).scope as int,
                    s as int,
                ) ==> (#[trigger] final(self).node_at(x)).disposed == old(self).node_at(x).disposed,
            forall|x: int|
                0 <= x < old(self).n_nodes() && old(self).scope_in_subtree(
                    old(self).node_at(x).scope as int,
                    s as int,
                ) && !old(self).scope_at(old(self).node_at(x).scope as int).disposed ==> (
                #[trigger] final(self).node_at(x)).disposed,
            final(self).cleanup_record_seq() == old(self).cleanup_record_seq() + old(self).subtree_cleanups(s as int),
        decreases old(self).n_scopes() - s,
    {
        if self.scopes[s].disposed {
            proof {
                assert(old(self).subtree_cleanups(s as int) =~= Seq::<u64>::empty());
                assert(self.cleanup_record_seq() =~= old(self).cleanup_record_seq() + old(self).subtree_cleanups(s as int));
                assert forall|u: int|
                    0 <= u < old(self).n_scopes() implies (#[trigger] self.scope_at(u).disposed
                    == (old(self).scope_at(u).disposed || old(self).scope_in_subtree(
                    u,
                    s as int,
                ))) by {
                    if old(self).scope_in_subtree(u, s as int) {
                        lemma_subtree_disposed(*old(self), u, s as int);
                    }
                }
                assert forall|x: int|
                    0 <= x < old(self).n_nodes() && old(self).scope_in_subtree(
                        old(self).node_at(x).scope as int,
                        s as int,
                    ) && !old(self).scope_at(old(self).node_at(x).scope as int).disposed implies (
                #[trigger] self.node_at(x)).disposed by {
                    lemma_subtree_disposed(*old(self), old(self).node_at(x).scope as int, s as int);
                }
            }
            return ;
        }
        let cn = self.scopes[s].children.len();
        let ghost a0 = old(self).children_cleanups(s as int, 0);
        let mut k: usize = 0;
        while k < cn
            invariant
                self.wf_base(),
                old(self).wf_base(),
                (s as int) < old(self).n_scopes(),
                !old(self).scope_at(s as int).disposed,
                cn == old(self).scope_at(s as int).children@.len(),
                k <= cn,
                self.n_scopes() == old(self).n_scopes(),
                self.n_nodes() == old(self).n_nodes(),
                self.pending_seq() == old(self).pending_seq(),
                self.observer_seq() == old(self).observer_seq(),
                self.clock_of() == old(self).clock_of(),
                self.epoch_of() == old(self).epoch_of(),
                self.batch_depth_of() == old(self).batch_depth_of(),
                self.diagnostics_seq() == old(self).diagnostics_seq(),
                a0 == old(self).children_cleanups(s as int, 0),
                forall|u: int|
                    0 <= u < old(self).n_scopes() ==> {
                        let a = old(self).scope_at(u);
                        let b = #[trigger] self.scope_at(u);
                        &&& b.parent == a.parent
                        &&& b.children == a.children
                        &&& b.cleanups == a.cleanups
                        &&& b.owned == a.owned
                    },
                forall|u: int|
                    0 <= u < old(self).n_scopes() ==> (#[trigger] self.scope_at(u).disposed == (
                    old(self).scope_at(u).disposed || exists|j: int|
                        0 <= j < k && #[trigger] old(self).scope_in_subtree(
                            u,
                            old(self).child_of(s as int, j),
                        ))),
                forall|x: int|
                    0 <= x < old(self).n_nodes() ==> {
                        let a = old(self).node_at(x);
                        let b = #[trigger] self.node_at(x);
                        &&& b.kind == a.kind
                        &&& b.scope == a.scope
                        &&& b.value == a.value
                        &&& b.version == a.version
                        &&& b.log == a.log
                    },
                forall|x: int|
                    0 <= x < old(self).n_nodes() && !(exists|j: int|
                        0 <= j < k && #[trigger] old(self).scope_in_subtree(
                            old(self).node_at(x).scope as int,
                            old(self).child_of(s as int, j),
                        )) ==> (#[trigger] self.node_at(x)).disposed == old(self).node_at(
                        x,
                    ).disposed,
                forall|x: int|
                    0 <= x < old(self).n_nodes() && (exists|j: int|
                        0 <= j < k && #[trigger] old(self).scope_in_subtree(
                            old(self).node_at(x).scope as int,
                            old(self).child_of(s as int, j),
                        )) && !old(self).scope_at(old(self).node_at(x).scope as int).disposed ==> (
                    #[trigger] self.node_at(x)).disposed,
                old(self).children_cleanups(s as int, k as int).len() <= a0.len(),
                self.cleanup_record_seq() == old(self).cleanup_record_seq() + a0.subrange(
                    0,
                    a0.len() - old(self).children_cleanups(s as int, k as int).len(),
                ),
                a0 == a0.subrange(
                    0,
                    a0.len() - old(self).children_cleanups(s as int, k as int).len(),
                ) + old(self).children_cleanups(s as int, k as int),
            decreases cn - k,
        {
            proof {
                assert(old(self).scope_wf(s as int));
            }
            let c = self.scopes[s].children[k];
            proof {
                assert(self.scope_at(s as int).children == old(self).scope_at(s as int).children);
                assert(old(self).child_of(s as int, k as int) == c as int);
                assert((s as int) < (c as int) && (c as int) < old(self).n_scopes());
                assert(old(self).scope_at(c as int).parent == Option::Some(s));
            }
            let ghost sk = *self;
            self.dispose_scope_rec(c);
            proof {
                let oldst = *old(self);
                let n = oldst.n_scopes();
                // subtree membership never changes: parents are never written
                assert forall|u: int, t: int| #[trigger]
                    sk.scope_in_subtree(u, t) == oldst.scope_in_subtree(u, t) by {
                    lemma_subtree_congruence(oldst, sk, u, t);
                }
                // disjointness of the sibling subtrees handled so far
                assert forall|u: int, j: int|
                    0 <= j < k && oldst.scope_in_subtree(u, c as int) implies !(
                #[trigger] oldst.scope_in_subtree(u, oldst.child_of(s as int, j))) by {
                    if oldst.scope_in_subtree(u, oldst.child_of(s as int, j)) {
                        lemma_sibling_subtrees_disjoint(
                            oldst,
                            s as int,
                            c as int,
                            oldst.child_of(s as int, j),
                            u,
                        );
                    }
                }
                // the recorded tokens of the child subtree are the same
                // whether read in the entry state or now
                assert forall|u: int|
                    oldst.scope_in_subtree(u, c as int) implies #[trigger] sk.scope_at(u)
                    == oldst.scope_at(u) by {
                    lemma_subtree_le(oldst, u, c as int);
                    assert(0 <= u < n);
                    assert(sk.scope_at(u).disposed == oldst.scope_at(u).disposed);
                }
                lemma_cleanups_frame(oldst, sk, c as int);
                // scope flags
                assert forall|u: int|
                    0 <= u < n implies (#[trigger] self.scope_at(u).disposed == (oldst.scope_at(
                    u,
                ).disposed || exists|j: int|
                    0 <= j < k + 1 && #[trigger] oldst.scope_in_subtree(
                        u,
                        oldst.child_of(s as int, j),
                    ))) by {
                    assert(self.scope_at(u).disposed == (sk.scope_at(u).disposed
                        || sk.scope_in_subtree(u, c as int)));
                    if self.scope_at(u).disposed {
                        if sk.scope_at(u).disposed {
                            if !oldst.scope_at(u).disposed {
                                let j = choose|j: int|
                                    0 <= j < k && #[trigger] oldst.scope_in_subtree(
                                        u,
                                        oldst.child_of(s as int, j),
                                    );
                                assert(0 <= j < k + 1 && oldst.scope_in_subtree(
                                    u,
                                    oldst.child_of(s as int, j),
                                ));
                            }
                        } else {
                            assert(oldst.scope_in_subtree(u, c as int));
                            assert(0 <= (k as int) < k + 1 && oldst.scope_in_subtree(
                                u,
                                oldst.child_of(s as int, k as int),
                            ));
                        }
                    } else {
                        if exists|j: int|
                            0 <= j < k + 1 && #[trigger] oldst.scope_in_subtree(
                                u,
                                oldst.child_of(s as int, j),
                            ) {
                            let j = choose|j: int|
                                0 <= j < k + 1 && #[trigger] oldst.scope_in_subtree(
                                    u,
                                    oldst.child_of(s as int, j),
                                );
                            if j < k {
                                assert(sk.scope_at(u).disposed);
                            } else {
                                assert(oldst.scope_in_subtree(u, c as int));
                                assert(sk.scope_in_subtree(u, c as int));
                            }
                            assert(false);
                        }
                    }
                }
                // untouched nodes
                assert forall|x: int|
                    0 <= x < oldst.n_nodes() && !(exists|j: int|
                        0 <= j < k + 1 && #[trigger] oldst.scope_in_subtree(
                            oldst.node_at(x).scope as int,
                            oldst.child_of(s as int, j),
                        )) implies (#[trigger] self.node_at(x)).disposed == oldst.node_at(
                    x,
                ).disposed by {
                    let sc = oldst.node_at(x).scope as int;
                    assert(!oldst.scope_in_subtree(sc, c as int));
                    assert(!sk.scope_in_subtree(sk.node_at(x).scope as int, c as int));
                    assert(self.node_at(x).disposed == sk.node_at(x).disposed);
                    assert(!(exists|j: int|
                        0 <= j < k && #[trigger] oldst.scope_in_subtree(
                            sc,
                            oldst.child_of(s as int, j),
                        )));
                }
                // nodes of the freshly disposed subtree
                assert forall|x: int|
                    0 <= x < oldst.n_nodes() && (exists|j: int|
                        0 <= j < k + 1 && #[trigger] oldst.scope_in_subtree(
                            oldst.node_at(x).scope as int,
                            oldst.child_of(s as int, j),
                        )) && !oldst.scope_at(oldst.node_at(x).scope as int).disposed implies (
                #[trigger] self.node_at(x)).disposed by {
                    let sc = oldst.node_at(x).scope as int;
                    let j = choose|j: int|
                        0 <= j < k + 1 && #[trigger] oldst.scope_in_subtree(
                            sc,
                            oldst.child_of(s as int, j),
                        );
                    if j < k {
                        assert(sk.node_at(x).disposed);
                        if oldst.scope_in_subtree(sc, c as int) {
                            lemma_sibling_subtrees_disjoint(
                                oldst,
                                s as int,
                                c as int,
                                oldst.child_of(s as int, j),
                                sc,
                            );
                        }
                        assert(!sk.scope_in_subtree(sk.node_at(x).scope as int, c as int));
                        assert(self.node_at(x).disposed == sk.node_at(x).disposed);
                    } else {
                        assert(oldst.scope_in_subtree(sc, c as int));
                        assert(!sk.scope_at(sc).disposed) by {
                            if exists|j2: int|
                                0 <= j2 < k && #[trigger] oldst.scope_in_subtree(
                                    sc,
                                    oldst.child_of(s as int, j2),
                                ) {
                                let j2 = choose|j2: int|
                                    0 <= j2 < k && #[trigger] oldst.scope_in_subtree(
                                        sc,
                                        oldst.child_of(s as int, j2),
                                    );
                                lemma_sibling_subtrees_disjoint(
                                    oldst,
                                    s as int,
                                    c as int,
                                    oldst.child_of(s as int, j2),
                                    sc,
                                );
                            }
                        }
                        assert(sk.scope_in_subtree(sk.node_at(x).scope as int, c as int));
                        assert(!sk.scope_at(sk.node_at(x).scope as int).disposed);
                        assert(self.node_at(x).disposed);
                    }
                }
                // the record bookkeeping
                let suffix_k = oldst.children_cleanups(s as int, k as int);
                let suffix_k1 = oldst.children_cleanups(s as int, k + 1);
                let x_part = oldst.subtree_cleanups(c as int);
                assert(suffix_k == x_part + suffix_k1);
                assert(self.cleanup_record_seq() == sk.cleanup_record_seq() + x_part);
                assert(a0.subrange(0, a0.len() - suffix_k1.len()) =~= a0.subrange(
                    0,
                    a0.len() - suffix_k.len(),
                ) + x_part) by {
                    assert(a0 == a0.subrange(0, a0.len() - suffix_k.len()) + (x_part + suffix_k1));
                }
                assert(self.cleanup_record_seq() =~= oldst.cleanup_record_seq() + a0.subrange(
                    0,
                    a0.len() - suffix_k1.len(),
                ));
                assert(a0 =~= a0.subrange(0, a0.len() - suffix_k1.len()) + suffix_k1) by {
                    assert(a0 == a0.subrange(0, a0.len() - suffix_k.len()) + (x_part + suffix_k1));
                }
            }
            k += 1;
        }
        proof {
            assert(old(self).children_cleanups(s as int, cn as int) =~= Seq::<u64>::empty());
            assert(self.cleanup_record_seq() =~= old(self).cleanup_record_seq() + a0);
        }
        // the scope's own cleanup tokens, newest first
        let ghost p1 = *self;
        let m = self.scopes[s].cleanups.len();
        let mut j: usize = m;
        while j > 0
            invariant
                self.wf_base(),
                old(self).wf_base(),
                (s as int) < old(self).n_scopes(),
                j <= m,
                self.nodes_seq() == p1.nodes_seq(),
                self.scopes_seq() == p1.scopes_seq(),
                self.pending_seq() == p1.pending_seq(),
                self.observer_seq() == p1.observer_seq(),
                self.clock_of() == p1.clock_of(),
                self.epoch_of() == p1.epoch_of(),
                self.batch_depth_of() == p1.batch_depth_of(),
                self.diagnostics_seq() == p1.diagnostics_seq(),
                (s as int) < self.n_scopes(),
                self.n_scopes() == old(self).n_scopes(),
                m == old(self).scope_at(s as int).cleanups@.len(),
                self.scope_at(s as int).cleanups@ == old(self).scope_at(s as int).cleanups@,
                self.scope_at(s as int).cleanups@.len() == m,
                self.cleanup_record_seq() == p1.cleanup_record_seq() + old(self).scope_at(
                    s as int,
                ).cleanups@.reverse().subrange(0, m - j),
            decreases j,
        {
            j = j - 1;
            let t = self.scopes[s].cleanups[j];
            let ghost pre = *self;
            self.cleanup_record.push(t);
            proof {
                lemma_wf_base_congruence(pre, *self);
                let rev = old(self).scope_at(s as int).cleanups@.reverse();
                assert(rev.len() == m);
                assert(rev[m - 1 - (j as int)] == old(self).scope_at(s as int).cleanups@[j as int]);
                assert(self.cleanup_record_seq() =~= p1.cleanup_record_seq() + rev.subrange(
                    0,
                    m - j,
                ));
            }
        }
        proof {
            assert(self.cleanup_record_seq() =~= p1.cleanup_record_seq() + old(self).scope_at(
                s as int,
            ).cleanups@.reverse());
        }
        // the scope's own mark
        let ghost p2 = *self;
        self.scopes[s].disposed = true;
        proof {
            assert forall|t: int| 0 <= t < self.n_scopes() implies self.scope_wf(t) by {
                assert(p2.scope_wf(t));
                if t != s as int {
                    assert(self.scope_at(t) == p2.scope_at(t));
                }
                match self.scope_at(t).parent {
                    Option::Some(p) => {
                        if p as int == s as int && self.scope_at(p as int).disposed
                            && !p2.scope_at(p as int).disposed {
                            // t is a child of s; the children loop disposed
                            // its whole subtree
                            assert(p2.scope_wf(t));
                            assert(self.scope_at(t).parent == p2.scope_at(t).parent);
                            assert(p2.scope_at(s as int).children@.contains(t as usize));
                            assert(p2.scope_at(s as int).children@ == old(self).scope_at(
                                s as int,
                            ).children@);
                            let kk = choose|kk: int|
                                0 <= kk < old(self).scope_at(s as int).children@.len() && old(self).scope_at(s as int).children@[kk] == t as usize;
                            vstd::std_specs::vec::axiom_spec_len(&p2.scopes);
                            assert(old(self).child_of(s as int, kk) == t);
                            assert(old(self).scope_in_subtree(t, old(self).child_of(
                                s as int,
                                kk,
                            )));
                            assert(0 <= kk < cn && old(self).scope_in_subtree(
                                t,
                                old(self).child_of(s as int, kk),
                            ));
                            assert(p1.scope_at(t).disposed);
                            assert(p2.scope_at(t) == p1.scope_at(t));
                            assert(p2.scope_at(t).disposed);
                        }
                    },
                    Option::None => {},
                }
            }
            assert forall|i: int| 0 <= i < self.n_nodes() implies self.node_wf(i) by {
                assert(p2.node_wf(i));
                let sc = self.node_at(i).scope as int;
                assert(self.scope_at(sc).owned == p2.scope_at(sc).owned);
            }
            lemma_pending_transfer(p2, *self);
        }
        // invalidate the nodes this scope owns
        let ghost p3 = *self;
        let on = self.scopes[s].owned.len();
        let mut q: usize = 0;
        while q < on
            invariant
                self.wf_base(),
                old(self).wf_base(),
                (s as int) < old(self).n_scopes(),
                q <= on,
                (s as int) < self.n_scopes(),
                self.n_scopes() == old(self).n_scopes(),
                self.n_nodes() == old(self).n_nodes(),
                on == old(self).scope_at(s as int).owned@.len(),
                self.scope_at(s as int).owned@ == old(self).scope_at(s as int).owned@,
                self.scope_at(s as int).owned@.len() == on,
                self.n_nodes() == p3.n_nodes(),
                self.scopes_seq() == p3.scopes_seq(),
                self.pending_seq() == p3.pending_seq(),
                self.observer_seq() == p3.observer_seq(),
                self.clock_of() == p3.clock_of(),
                self.epoch_of() == p3.epoch_of(),
                self.batch_depth_of() == p3.batch_depth_of(),
                self.diagnostics_seq() == p3.diagnostics_seq(),
                self.cleanup_record_seq() == p3.cleanup_record_seq(),
                forall|x: int|
                    0 <= x < p3.n_nodes() ==> {
                        let a = p3.node_at(x);
                        let b = #[trigger] self.node_at(x);
                        &&& b.kind == a.kind
                        &&& b.scope == a.scope
                        &&& b.value == a.value
                        &&& b.version == a.version
                        &&& b.log == a.log
                    },
                forall|x: int|
                    0 <= x < p3.n_nodes() && !(exists|idx: int|
                        0 <= idx < q && #[trigger] old(self).scope_at(s as int).owned@[idx]
                            == x as usize) ==> (#[trigger] self.node_at(x)).disposed
                        == p3.node_at(x).disposed,
                forall|idx: int|
                    0 <= idx < q ==> self.node_at(
                        #[trigger] old(self).scope_at(s as int).owned@[idx] as int,
                    ).disposed,
            decreases on - q,
        {
            proof {
                assert(old(self).scope_wf(s as int));
                assert(self.scope_at(s as int).owned@[q as int] == old(self).scope_at(
                    s as int,
                ).owned@[q as int]);
                assert((old(self).scope_at(s as int).owned@[q as int] as int) < old(self).n_nodes());
            }
            let x = self.scopes[s].owned[q];
            let ghost pre = *self;
            proof {
                assert(old(self).scope_at(s as int).owned@[q as int] == x);
                assert((x as int) < self.n_nodes());
            }
            self.invalidate_node(x);
            proof {
                assert forall|y: int|
                    0 <= y < p3.n_nodes() && !(exists|idx: int|
                        0 <= idx < q + 1 && #[trigger] old(self).scope_at(s as int).owned@[idx]
                            == y as usize) implies (#[trigger] self.node_at(y)).disposed
                    == p3.node_at(y).disposed by {
                    assert(y != x as int) by {
                        if y == x as int {
                            assert(old(self).scope_at(s as int).owned@[q as int] == y as usize);
                        }
                    }
                    assert(self.node_at(y).disposed == pre.node_at(y).disposed);
                    assert(!(exists|idx: int|
                        0 <= idx < q && #[trigger] old(self).scope_at(s as int).owned@[idx]
                            == y as usize));
                }
                assert forall|idx: int|
                    0 <= idx < q + 1 implies self.node_at(
                    #[trigger] old(self).scope_at(s as int).owned@[idx] as int,
                ).disposed by {
                    let y = old(self).scope_at(s as int).owned@[idx] as int;
                    if idx < q {
                        assert(pre.node_at(y).disposed);
                        if y != x as int {
                            assert(self.node_at(y).disposed == pre.node_at(y).disposed);
                        }
                    }
                }
            }
            q += 1;
        }
        proof {
            let oldst = *old(self);
            let n = oldst.n_scopes();
            // final scope-flag shape
            assert forall|u: int|
                0 <= u < n implies (#[trigger] self.scope_at(u).disposed == (oldst.scope_at(
                u,
            ).disposed || oldst.scope_in_subtree(u, s as int))) by {
                assert(self.scope_at(u).disposed == p3.scope_at(u).disposed);
                if u == s as int {
                    assert(oldst.scope_in_subtree(u, s as int));
                    assert(self.scope_at(u).disposed);
                } else {
                    assert(p3.scope_at(u).disposed == p2.scope_at(u).disposed);
                    assert(p1.scope_at(u).disposed == (oldst.scope_at(u).disposed || exists|j: int|
                        0 <= j < cn && #[trigger] oldst.scope_in_subtree(
                            u,
                            oldst.child_of(s as int, j),
                        )));
                    assert(p2.scope_at(u) == p1.scope_at(u));
                    assert(p2.scope_at(u).disposed == (oldst.scope_at(u).disposed || exists|j: int|
                        0 <= j < cn && #[trigger] oldst.scope_in_subtree(
                            u,
                            oldst.child_of(s as int, j),
                        )));
                    if p2.scope_at(u).disposed && !oldst.scope_at(u).disposed {
                        let j = choose|j: int|
                            0 <= j < cn && #[trigger] oldst.scope_in_subtree(
                                u,
                                oldst.child_of(s as int, j),
                            );
                        assert(oldst.scope_wf(s as int));
                        let c = oldst.child_of(s as int, j);
                        assert(0 <= j < oldst.scope_at(s as int).children@.len());
                        assert(oldst.scope_at(s as int).children@[j] as int == c);
                        assert(oldst.scope_at(c).parent == Option::Some(s));
                        assert((s as int) < c && c < oldst.n_scopes());
                        assert(oldst.scope_in_subtree(s as int, s as int));
                        assert(oldst.scope_in_subtree(c, s as int));
                        lemma_subtree_trans(oldst, u, c, s as int);
                    }
                    if oldst.scope_in_subtree(u, s as int) && !oldst.scope_at(u).disposed {
                        let c = lemma_subtree_through_child(oldst, u, s as int);
                        let kk = choose|kk: int|
                            0 <= kk < oldst.scope_at(s as int).children@.len() && oldst.scope_at(
                                s as int,
                            ).children@[kk] as int == c;
                        assert(oldst.scope_in_subtree(u, oldst.child_of(s as int, kk)));
                        assert(p2.scope_at(u).disposed);
                    }
                }
            }
            // untouched nodes keep their flag
            assert forall|x: int|
                0 <= x < oldst.n_nodes() && !oldst.scope_in_subtree(
                    oldst.node_at(x).scope as int,
                    s as int,
                ) implies (#[trigger] self.node_at(x)).disposed == oldst.node_at(x).disposed by {
                let sc = oldst.node_at(x).scope as int;
                assert(sc != s as int);
                assert forall|j: int|
                    0 <= j < cn implies !(#[trigger] oldst.scope_in_subtree(
                    sc,
                    oldst.child_of(s as int, j),
                )) by {
                    if oldst.scope_in_subtree(sc, oldst.child_of(s as int, j)) {
                        assert(oldst.scope_wf(s as int));
                        let c = oldst.child_of(s as int, j);
                        assert(0 <= j < oldst.scope_at(s as int).children@.len());
                        assert(oldst.scope_at(s as int).children@[j] as int == c);
                        assert(oldst.scope_at(c).parent == Option::Some(s));
                        assert((s as int) < c && c < oldst.n_scopes());
                        assert(oldst.scope_in_subtree(s as int, s as int));
                        assert(oldst.scope_in_subtree(c, s as int));
                        lemma_subtree_trans(oldst, sc, c, s as int);
                    }
                }
                assert(!(exists|j: int|
                    0 <= j < cn && #[trigger] oldst.scope_in_subtree(
                        sc,
                        oldst.child_of(s as int, j),
                    )));
                assert(p1.node_at(x).disposed == oldst.node_at(x).disposed);
                assert(p2.node_at(x) == p1.node_at(x));
                assert(p3.node_at(x).disposed == p2.node_at(x).disposed);
                // x is not owned by s, so the invalidation loop skipped it
                assert(!(exists|idx: int|
                    0 <= idx < on && #[trigger] oldst.scope_at(s as int).owned@[idx]
                        == x as usize)) by {
                    if exists|idx: int|
                        0 <= idx < on && #[trigger] oldst.scope_at(s as int).owned@[idx]
                            == x as usize {
                        let idx = choose|idx: int|
                            0 <= idx < on && #[trigger] oldst.scope_at(s as int).owned@[idx]
                                == x as usize;
                        assert(oldst.scope_wf(s as int));
                        vstd::std_specs::vec::axiom_spec_len(&oldst.nodes);
                        assert(oldst.scope_at(s as int).owned@[idx] as int == x);
                        assert(oldst.node_at(x).scope == s);
                    }
                }
            }
            // nodes of the subtree are now marked
            assert forall|x: int|
                0 <= x < oldst.n_nodes() && oldst.scope_in_subtree(
                    oldst.node_at(x).scope as int,
                    s as int,
                ) && !oldst.scope_at(oldst.node_at(x).scope as int).disposed implies (
            #[trigger] self.node_at(x)).disposed by {
                let sc = oldst.node_at(x).scope as int;
                if sc == s as int {
                    assert(oldst.node_wf(x));
                    assert(oldst.scope_at(s as int).owned@.contains(x as usize));
                    let idx = choose|idx: int|
                        0 <= idx < on && oldst.scope_at(s as int).owned@[idx] == x as usize;
                    assert(self.node_at(oldst.scope_at(s as int).owned@[idx] as int).disposed);
                    vstd::std_specs::vec::axiom_spec_len(&oldst.nodes);
                    assert(oldst.scope_at(s as int).owned@[idx] as int == x);
                } else {
                    let c = lemma_subtree_through_child(oldst, sc, s as int);
                    let kk = choose|kk: int|
                        0 <= kk < oldst.scope_at(s as int).children@.len() && oldst.scope_at(
                            s as int,
                        ).children@[kk] as int == c;
                    assert(oldst.scope_in_subtree(sc, oldst.child_of(s as int, kk)));
                    assert(0 <= kk < cn && oldst.scope_in_subtree(
                        sc,
                        oldst.child_of(s as int, kk),
                    ));
                    assert(p1.node_at(x).disposed);
                    assert(p2.node_at(x) == p1.node_at(x));
                    assert(p2.node_at(x).disposed);
                    assert(p3.node_at(x).disposed == p2.node_at(x).disposed);
                    assert(self.node_at(x).disposed == p3.node_at(x).disposed) by {
                        assert(!(exists|idx: int|
                            0 <= idx < on && #[trigger] oldst.scope_at(s as int).owned@[idx]
                                == x as usize)) by {
                            if exists|idx: int|
                                0 <= idx < on && #[trigger] oldst.scope_at(s as int).owned@[idx]
                                    == x as usize {
                                let idx = choose|idx: int|
                                    0 <= idx < on && #[trigger] oldst.scope_at(
                                        s as int,
                                    ).owned@[idx] == x as usize;
                                assert(oldst.scope_wf(s as int));
                                vstd::std_specs::vec::axiom_spec_len(&oldst.nodes);
                                assert(oldst.scope_at(s as int).owned@[idx] as int == x);
                                assert(oldst.node_at(x).scope == s);
                            }
                        }
                    }
                }
            }
            // scope fields other than the mark are untouched
            assert forall|u: int|
                0 <= u < oldst.n_scopes() implies {
                let a = oldst.scope_at(u);
                let b = #[trigger] self.scope_at(u);
                &&& b.parent == a.parent
                &&& b.children == a.children
                &&& b.cleanups == a.cleanups
                &&& b.owned == a.owned
            } by {
                assert(self.scope_at(u) == p3.scope_at(u));
                if u != s as int {
                    assert(p3.scope_at(u) == p2.scope_at(u));
                } else {
                    assert(p3.scope_at(u).parent == p2.scope_at(u).parent);
                    assert(p3.scope_at(u).children == p2.scope_at(u).children);
                    assert(p3.scope_at(u).cleanups == p2.scope_at(u).cleanups);
                    assert(p3.scope_at(u).owned == p2.scope_at(u).owned);
                }
                assert(p2.scope_at(u) == p1.scope_at(u));
                assert(p1.scope_at(u).parent == oldst.scope_at(u).parent);
                assert(p1.scope_at(u).children == oldst.scope_at(u).children);
                assert(p1.scope_at(u).cleanups == oldst.scope_at(u).cleanups);
                assert(p1.scope_at(u).owned == oldst.scope_at(u).owned);
            }
            // node fields other than the mark are untouched
            assert forall|x: int|
                0 <= x < oldst.n_nodes() implies {
                let a = oldst.node_at(x);
                let b = #[trigger] self.node_at(x);
                &&& b.kind == a.kind
                &&& b.scope == a.scope
                &&& b.value == a.value
                &&& b.version == a.version
                &&& b.log == a.log
            } by {
                assert(p1.node_at(x).kind == oldst.node_at(x).kind && p1.node_at(x).scope
                    == oldst.node_at(x).scope && p1.node_at(x).value == oldst.node_at(x).value
                    && p1.node_at(x).version == oldst.node_at(x).version && p1.node_at(x).log
                    == oldst.node_at(x).log);
                assert(p2.node_at(x) == p1.node_at(x));
                assert(p3.node_at(x) == p2.node_at(x));
                assert(self.node_at(x).kind == p3.node_at(x).kind && self.node_at(x).scope
                    == p3.node_at(x).scope && self.node_at(x).value == p3.node_at(x).value
                    && self.node_at(x).version == p3.node_at(x).version && self.node_at(x).log
                    == p3.node_at(x).log);
            }
            // the complete record
            assert(self.cleanup_record_seq() =~= oldst.cleanup_record_seq()
                + oldst.subtree_cleanups(s as int)) by {
                assert(self.cleanup_record_seq() == p2.cleanup_record_seq());
                assert(p2.cleanup_record_seq() == p1.cleanup_record_seq() + oldst.scope_at(
                    s as int,
                ).cleanups@.reverse());
                assert(p1.cleanup_record_seq() == oldst.cleanup_record_seq() + a0);
                assert(oldst.subtree_cleanups(s as int) == a0 + oldst.scope_at(
                    s as int,
                ).cleanups@.reverse());
            }
        }
    }

    /// Disposes a scope: recursively disposes its child scopes depth-first,
    /// then runs its cleanup tokens in reverse registration order, then
    /// invalidates every node it owns.  Disposal is idempotent, and every
    /// node owned transitively by the scope is inert afterwards: reads and
    /// writes surface `UseAfterDispose` and no effect rerun can be observed.
    pub fn dispose(&mut self, scope: ScopeHandle)
        requires
            old(self).wf(),
            old(self).valid_scope(scope.id as int),
        ensures
            final(self).wf(),
            final(self).n_scopes() == old(self).n_scopes(),
            final(self).n_nodes() == old(self).n_nodes(),
            final(self).pending_seq() == old(self).pending_seq(),
            final(self).batch_depth_of() == old(self).batch_depth_of(),
            final(self).diagnostics_seq() == old(self).diagnostics_seq(),
            old(self).scope_at(scope.id as int).disposed ==> *final(self) == *old(self),
            forall|u: int|
                0 <= u < old(self).n_scopes() ==> (#[trigger] final(self).scope_at(u).disposed == (
                old(self).scope_at(u).disposed || old(self).scope_in_subtree(u, scope.id as int))),
            forall|x: int|
                0 <= x < old(self).n_nodes() ==> {
                    let a = old(self).node_at(x);
                    let b = #[trigger] final(self).node_at(x);
                    &&& b.kind == a.kind
                    &&& b.scope == a.scope
                    &&& b.value == a.value
                    &&& b.version == a.version
                    &&& b.log == a.log
                },
            forall|x: int|
                0 <= x < old(self).n_nodes() && !old(self).scope_in_subtree(
                    old(self).node_at(x).scope as int,
                    scope.id as int,
                ) ==> (#[trigger] final(self).node_at(x)).disposed == old(self).node_at(
                    x,
                ).disposed,
            forall|x: int|
                0 <= x < old(self).n_nodes() && old(self).scope_in_subtree(
                    old(self).node_at(x).scope as int,
                    scope.id as int,
                ) && !old(self).scope_at(old(self).node_at(x).scope as int).disposed ==> (
                #[trigger] final(self).node_at(x)).disposed,
            final(self).cleanup_record_seq() == old(self).cleanup_record_seq() + old(self).subtree_cleanups(scope.id as int),
    {
        if self.scopes[scope.id].disposed {
            proof {
                assert(old(self).subtree_cleanups(scope.id as int) =~= Seq::<u64>::empty());
                assert(self.cleanup_record_seq() =~= old(self).cleanup_record_seq() + old(self).subtree_cleanups(scope.id as int));
                assert forall|u: int|
                    0 <= u < old(self).n_scopes() implies (#[trigger] self.scope_at(u).disposed
                    == (old(self).scope_at(u).disposed || old(self).scope_in_subtree(
                    u,
                    scope.id as int,
                ))) by {
                    if old(self).scope_in_subtree(u, scope.id as int) {
                        lemma_subtree_disposed(*old(self), u, scope.id as int);
                    }
                }
                assert forall|x: int|
                    0 <= x < old(self).n_nodes() && old(self).scope_in_subtree(
                        old(self).node_at(x).scope as int,
                        scope.id as int,
                    ) && !old(self).scope_at(old(self).node_at(x).scope as int).disposed implies (
                #[trigger] self.node_at(x)).disposed by {
                    lemma_subtree_disposed(
                        *old(self),
                        old(self).node_at(x).scope as int,
                        scope.id as int,
                    );
                }
            }
            return ;
        }
        self.dispose_scope_rec(scope.id);
    }
}


impl Runtime {
    /// Evaluates a computation at top level: no observer is active, so
    /// tracked reads record nothing.  This is how a mapped setter derives
    /// the value it writes; a pure expression leaves the runtime untouched
    /// and returns exactly its pure value.
    pub fn apply_input(&mut self, e: &Expr, input: i64) -> (r: Result<i64, ReactiveError>)
        requires
            old(self).wf(),
            refs_below(*e, old(self).n_nodes()),
        ensures
            final(self).wf(),
            eval_frame(*old(self), *final(self), Option::None),
            pure_expr(*e) ==> *final(self) == *old(self) && (match pure_val(
                *e,
                Option::Some(input),
            ) {
                Option::Some(v) => r == Result::<i64, ReactiveError>::Ok(v),
                Option::None => r == Result::<i64, ReactiveError>::Err(
                    ReactiveError::ClosurePanic,
                ),
            }),
            old(self).fault_free(*e) ==> r is Ok,
    {
        let n = self.nodes.len();
        let r = self.eval(e, Option::Some(input), Ghost(n));
        proof {
            assert(old(self).cur_obs() == Option::<usize>::None);
        }
        r
    }
}

} // verus!
