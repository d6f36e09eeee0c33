//! The resolver: walks the receiver type's view-as chain and picks the first
//! implementation that a by-value or an auto-referenced probe finds.
use vstd::prelude::*;

use crate::chain::{lemma_walk_stays_ended, walk, walk_ends};
use crate::registry::{
    has_impl, has_pattern, impl_matches, BindingMode, EngineError, MethodImpl, Registry,
    TypeHandle,
};

verus! {

/// What the caller holds: a value of `ty` under `reference_depth` borrows,
/// and whether an owned value of it may be duplicated implicitly.
#[derive(Clone, Copy, Debug, PartialEq, Eq, Structural)]
pub struct ReceiverDescriptor {
    pub ty: TypeHandle,
    pub reference_depth: usize,
    pub is_copyable: bool,
}

/// Apply `dereference_count` dereferences to the receiver expression, then
/// take one reference if `then_borrow`.
#[derive(Clone, Copy, Debug, PartialEq, Eq, Structural)]
pub struct Adjustment {
    pub dereference_count: usize,
    pub then_borrow: bool,
}

/// The chosen implementation and the adjustment of the receiver.
#[derive(Debug)]
pub struct ResolutionResult {
    pub implementation: MethodImpl,
    pub adjustment: Adjustment,
}

/// The decision of the resolver, as mathematics.
pub enum Outcome {
    /// The by-value probe matched at this chain position.
    ByValueAt(nat),
    /// The auto-reference probe matched at this chain position.
    AutoRefAt(nat),
    Fails(EngineError),
}

/// The by-value probe matches `u`.
pub open spec fn by_value_hit(methods: Seq<MethodImpl>, name: Seq<char>, u: TypeHandle) -> bool {
    has_impl(methods, name, u, 0, BindingMode::ByValue)
}

/// The auto-reference probe matches `u`.
pub open spec fn auto_ref_hit(methods: Seq<MethodImpl>, name: Seq<char>, u: TypeHandle) -> bool {
    has_impl(methods, name, u, 1, BindingMode::ByReference)
}

/// Moving the receiver is illegal: it is held through a borrow and cannot be
/// duplicated.
pub open spec fn move_is_illegal(recv: ReceiverDescriptor) -> bool {
    recv.reference_depth > 0 && !recv.is_copyable
}

/// The outcome of a by-value match at position `i`.
pub open spec fn by_value_outcome(recv: ReceiverDescriptor, i: nat) -> Outcome {
    if move_is_illegal(recv) {
        Outcome::Fails(EngineError::IllegalMoveOfBorrowedReceiver)
    } else {
        Outcome::ByValueAt(i)
    }
}

/// The scan from chain position `i` on: first match wins, by-value before
/// auto-reference at each position. A walk that runs past as many types as
/// the registry holds has repeated one.
pub open spec fn resolve_from(
    edges: Seq<Option<TypeHandle>>,
    methods: Seq<MethodImpl>,
    recv: ReceiverDescriptor,
    name: Seq<char>,
    i: nat,
) -> Outcome
    decreases edges.len() + 1 - i,
{
    match walk(edges, recv.ty, i) {
        None => Outcome::Fails(EngineError::NoMatchingMethod),
        Some(u) => if i > edges.len() {
            Outcome::Fails(EngineError::CyclicViewChain)
        } else if by_value_hit(methods, name, u) {
            by_value_outcome(recv, i)
        } else if auto_ref_hit(methods, name, u) {
            Outcome::AutoRefAt(i)
        } else {
            resolve_from(edges, methods, recv, name, i + 1)
        },
    }
}

/// What resolving `name` for `recv` decides.
pub open spec fn resolution(
    edges: Seq<Option<TypeHandle>>,
    methods: Seq<MethodImpl>,
    recv: ReceiverDescriptor,
    name: Seq<char>,
) -> Outcome {
    resolve_from(edges, methods, recv, name, 0)
}

/// `r` carries out the decision `o`: on a match, the implementation is one of
/// the table's with the probed pattern and mode, and the adjustment
/// dereferences down to the matched place (a by-value match counts chain
/// steps; an auto-reference also spends the receiver's own borrows) and
/// borrows exactly for an auto-reference.
pub open spec fn carries_out(
    r: Result<ResolutionResult, EngineError>,
    o: Outcome,
    edges: Seq<Option<TypeHandle>>,
    methods: Seq<MethodImpl>,
    recv: ReceiverDescriptor,
    name: Seq<char>,
) -> bool {
    match o {
        Outcome::ByValueAt(i) => match r {
            Ok(res) => {
                &&& methods.contains(res.implementation)
                &&& impl_matches(
                    res.implementation,
                    name,
                    walk(edges, recv.ty, i)->Some_0,
                    0,
                    BindingMode::ByValue,
                )
                &&& res.adjustment.dereference_count == i
                &&& !res.adjustment.then_borrow
            },
            Err(_) => false,
        },
        Outcome::AutoRefAt(i) => match r {
            Ok(res) => {
                &&& methods.contains(res.implementation)
                &&& impl_matches(
                    res.implementation,
                    name,
                    walk(edges, recv.ty, i)->Some_0,
                    1,
                    BindingMode::ByReference,
                )
                &&& res.adjustment.dereference_count == recv.reference_depth + i
                &&& res.adjustment.then_borrow
            },
            Err(_) => false,
        },
        Outcome::Fails(e) => r == Err::<ResolutionResult, EngineError>(e),
    }
}

/// Neither probe matches at any chain position before `i`.
pub open spec fn no_hit_before(
    edges: Seq<Option<TypeHandle>>,
    methods: Seq<MethodImpl>,
    recv: ReceiverDescriptor,
    name: Seq<char>,
    i: nat,
) -> bool {
    forall|k: nat|
        k < i ==> (#[trigger] walk(edges, recv.ty, k) matches Some(u) ==> !by_value_hit(methods, name, u)
            && !auto_ref_hit(methods, name, u))
}

/// A scan that passes only positions where neither probe matches leaves the
/// decision to the first position past them.
proof fn lemma_scan_passes(
    edges: Seq<Option<TypeHandle>>,
    methods: Seq<MethodImpl>,
    recv: ReceiverDescriptor,
    name: Seq<char>,
    i: nat,
)
    requires
        i <= edges.len(),
        walk(edges, recv.ty, i) is Some,
        no_hit_before(edges, methods, recv, name, i),
    ensures
        resolution(edges, methods, recv, name) == resolve_from(edges, methods, recv, name, i),
    decreases i,
{
    if i > 0 {
        let p = (i - 1) as nat;
        if walk(edges, recv.ty, p) is None {
            lemma_walk_stays_ended(edges, recv.ty, p, i);
        }
        assert(walk(edges, recv.ty, p) is Some);
        lemma_scan_passes(edges, methods, recv, name, p);
    }
}

/// On a chain that ends, every position where the walk stands is within the
/// registry's size.
proof fn lemma_position_in_range(edges: Seq<Option<TypeHandle>>, start: TypeHandle, i: nat)
    requires
        walk_ends(edges, start),
        walk(edges, start, i) is Some,
    ensures
        i <= edges.len(),
{
    if i > edges.len() {
        lemma_walk_stays_ended(edges, start, edges.len() + 1, i);
    }
}

/// Left-to-right priority: when a by-value implementation matches at chain
/// position `i`, an auto-referenced one matches at a later position `j`, and
/// nothing matches before `i`, the decision is taken at `i` by the by-value
/// implementation.
pub proof fn lemma_earlier_position_wins(
    edges: Seq<Option<TypeHandle>>,
    methods: Seq<MethodImpl>,
    recv: ReceiverDescriptor,
    name: Seq<char>,
    i: nat,
    j: nat,
)
    requires
        walk_ends(edges, recv.ty),
        walk(edges, recv.ty, i) matches Some(u) && by_value_hit(methods, name, u),
        i < j,
        walk(edges, recv.ty, j) matches Some(v) && auto_ref_hit(methods, name, v),
        no_hit_before(edges, methods, recv, name, i),
    ensures
        resolution(edges, methods, recv, name) == by_value_outcome(recv, i),
{
    lemma_position_in_range(edges, recv.ty, i);
    lemma_scan_passes(edges, methods, recv, name, i);
}

/// By-value over auto-reference: when both probes match at the same chain
/// position `i` and nothing matches before it, the by-value implementation
/// decides.
pub proof fn lemma_by_value_beats_auto_ref(
    edges: Seq<Option<TypeHandle>>,
    methods: Seq<MethodImpl>,
    recv: ReceiverDescriptor,
    name: Seq<char>,
    i: nat,
)
    requires
        walk_ends(edges, recv.ty),
        walk(edges, recv.ty, i) matches Some(u) && by_value_hit(methods, name, u) && auto_ref_hit(
            methods,
            name,
            u,
        ),
        no_hit_before(edges, methods, recv, name, i),
    ensures
        resolution(edges, methods, recv, name) == by_value_outcome(recv, i),
{
    lemma_position_in_range(edges, recv.ty, i);
    lemma_scan_passes(edges, methods, recv, name, i);
}

/// From position `i` on, no probe matches, so the scan ends without a match.
proof fn lemma_no_match_from(
    edges: Seq<Option<TypeHandle>>,
    methods: Seq<MethodImpl>,
    recv: ReceiverDescriptor,
    name: Seq<char>,
    i: nat,
)
    requires
        walk_ends(edges, recv.ty),
        forall|k: nat|
            #[trigger] walk(edges, recv.ty, k) matches Some(u) ==> !by_value_hit(methods, name, u)
                && !auto_ref_hit(methods, name, u),
    ensures
        resolve_from(edges, methods, recv, name, i) == Outcome::Fails(EngineError::NoMatchingMethod),
    decreases edges.len() + 1 - i,
{
    if walk(edges, recv.ty, i) is Some {
        lemma_position_in_range(edges, recv.ty, i);
        lemma_no_match_from(edges, methods, recv, name, i + 1);
    }
}

/// No-match totality: when no implementation matches under either probe
/// anywhere on a chain that ends, resolution fails with `NoMatchingMethod`.
pub proof fn lemma_no_match_fails(
    edges: Seq<Option<TypeHandle>>,
    methods: Seq<MethodImpl>,
    recv: ReceiverDescriptor,
    name: Seq<char>,
)
    requires
        walk_ends(edges, recv.ty),
        forall|k: nat|
            #[trigger] walk(edges, recv.ty, k) matches Some(u) ==> !by_value_hit(methods, name, u)
                && !auto_ref_hit(methods, name, u),
    ensures
        resolution(edges, methods, recv, name) == Outcome::Fails(EngineError::NoMatchingMethod),
{
    lemma_no_match_from(edges, methods, recv, name, 0);
}

/// Move legality gate: a borrowed, non-copyable receiver whose own type has a
/// by-value implementation fails with `IllegalMoveOfBorrowedReceiver`,
/// whatever else the table holds.
pub proof fn lemma_illegal_move_fails(
    edges: Seq<Option<TypeHandle>>,
    methods: Seq<MethodImpl>,
    recv: ReceiverDescriptor,
    name: Seq<char>,
)
    requires
        move_is_illegal(recv),
        by_value_hit(methods, name, recv.ty),
    ensures
        resolution(edges, methods, recv, name) == Outcome::Fails(
            EngineError::IllegalMoveOfBorrowedReceiver,
        ),
{
}

/// From position `i` on, a chain that ends never yields `CyclicViewChain`.
proof fn lemma_no_cycle_error_from(
    edges: Seq<Option<TypeHandle>>,
    methods: Seq<MethodImpl>,
    recv: ReceiverDescriptor,
    name: Seq<char>,
    i: nat,
)
    requires
        walk_ends(edges, recv.ty),
    ensures
        resolve_from(edges, methods, recv, name, i) != Outcome::Fails(EngineError::CyclicViewChain),
    decreases edges.len() + 1 - i,
{
    if walk(edges, recv.ty, i) is Some {
        lemma_position_in_range(edges, recv.ty, i);
        lemma_no_cycle_error_from(edges, methods, recv, name, i + 1);
    }
}

/// Resolution fails with `CyclicViewChain` only where the receiver type's
/// walk does not end.
pub proof fn lemma_cycle_error_needs_cycle(
    edges: Seq<Option<TypeHandle>>,
    methods: Seq<MethodImpl>,
    recv: ReceiverDescriptor,
    name: Seq<char>,
)
    requires
        walk_ends(edges, recv.ty),
    ensures
        resolution(edges, methods, recv, name) != Outcome::Fails(EngineError::CyclicViewChain),
{
    lemma_no_cycle_error_from(edges, methods, recv, name, 0);
}

/// Determinism: on a well-formed registry, any two results that carry out
/// the resolution of the same receiver and name are equal.
pub proof fn lemma_resolution_deterministic(
    reg: &Registry,
    recv: ReceiverDescriptor,
    name: Seq<char>,
    r1: Result<ResolutionResult, EngineError>,
    r2: Result<ResolutionResult, EngineError>,
)
    requires
        reg.wf(),
        carries_out(
            r1,
            resolution(reg.edges_view(), reg.methods_view(), recv, name),
            reg.edges_view(),
            reg.methods_view(),
            recv,
            name,
        ),
        carries_out(
            r2,
            resolution(reg.edges_view(), reg.methods_view(), recv, name),
            reg.edges_view(),
            reg.methods_view(),
            recv,
            name,
        ),
    ensures
        r1 == r2,
{
    let methods = reg.methods_view();
    reg.lemma_patterns_unique();
    if let (Ok(a), Ok(b)) = (r1, r2) {
        let ja = choose|j: int| 0 <= j < methods.len() && methods[j] == a.implementation;
        let jb = choose|j: int| 0 <= j < methods.len() && methods[j] == b.implementation;
        if ja < jb {
            assert(!has_pattern(methods[jb], methods[ja].method_name@, methods[ja].receiver_type, methods[ja].receiver_depth as nat));
        } else if jb < ja {
            assert(!has_pattern(methods[ja], methods[jb].method_name@, methods[jb].receiver_type, methods[jb].receiver_depth as nat));
        }
        assert(a.implementation == b.implementation);
        assert(a.adjustment == b.adjustment);
    }
}

impl Registry {
    /// Resolves `method_name` for `receiver`. Scans the chain of the
    /// receiver's type left to right; at each type a by-value implementation
    /// is preferred to an auto-referenced one, and the first match wins. A
    /// by-value match on a borrowed, non-copyable receiver fails with
    /// `IllegalMoveOfBorrowedReceiver` instead of going on; an exhausted chain
    /// fails with `NoMatchingMethod`. A walk that meets some type twice fails
    /// with `CyclicViewChain` once it has passed every type without a match.
    pub fn resolve(&self, receiver: &ReceiverDescriptor, method_name: &String) -> (r: Result<
        ResolutionResult,
        EngineError,
    >)
        requires
            self.wf(),
            self.holds(receiver.ty),
            receiver.reference_depth + self.edges_view().len() <= usize::MAX,
        ensures
            carries_out(
                r,
                resolution(self.edges_view(), self.methods_view(), *receiver, method_name@),
                self.edges_view(),
                self.methods_view(),
                *receiver,
                method_name@,
            ),
    {
        let ghost edges = self.edges_view();
        let ghost methods = self.methods_view();
        let ghost name = method_name@;
        let n = self.type_count();
        let mut cur = receiver.ty;
        let mut i: usize = 0;
        loop
            invariant
                self.wf(),
                edges == self.edges_view(),
                methods == self.methods_view(),
                name == method_name@,
                n == edges.len(),
                receiver.reference_depth + n <= usize::MAX,
                i <= n,
                self.holds(cur),
                walk(edges, receiver.ty, i as nat) == Some(cur),
                resolution(edges, methods, *receiver, name) == resolve_from(
                    edges,
                    methods,
                    *receiver,
                    name,
                    i as nat,
                ),
            decreases n - i,
        {
            if let Some(m) = self.find_impl(method_name, cur, 0, BindingMode::ByValue) {
                if receiver.reference_depth > 0 && !receiver.is_copyable {
                    return Err(EngineError::IllegalMoveOfBorrowedReceiver);
                }
                return Ok(
                    ResolutionResult {
                        implementation: m,
                        adjustment: Adjustment { dereference_count: i, then_borrow: false },
                    },
                );
            }
            if let Some(m) = self.find_impl(method_name, cur, 1, BindingMode::ByReference) {
                return Ok(
                    ResolutionResult {
                        implementation: m,
                        adjustment: Adjustment {
                            dereference_count: receiver.reference_depth + i,
                            then_borrow: true,
                        },
                    },
                );
            }
            assert(walk(edges, receiver.ty, (i + 1) as nat) == edges[cur.index as int]);
            match self.view_target(cur) {
                None => {
                    assert(resolve_from(edges, methods, *receiver, name, (i + 1) as nat)
                        == Outcome::Fails(EngineError::NoMatchingMethod));
                    return Err(EngineError::NoMatchingMethod);
                },
                Some(u) => {
                    if i == n {
                        assert(resolve_from(edges, methods, *receiver, name, (i + 1) as nat)
                            == Outcome::Fails(EngineError::CyclicViewChain));
                        return Err(EngineError::CyclicViewChain);
                    }
                    cur = u;
                    i = i + 1;
                },
            }
        }
    }
}

} // verus!
