//! The type registry and the method table, built once at setup and read by
//! the resolver.
use vstd::prelude::*;

use crate::chain::{
    edges_in_range, is_chain, lemma_endless_iff_repeats, lemma_walk_stays_ended, reaches, repeats,
    walk, walk_ends,
};

verus! {

/// A registered type, named by its position in the registry.
#[derive(Clone, Copy, Debug, PartialEq, Eq, Structural)]
pub struct TypeHandle {
    pub index: usize,
}

/// Whether an implementation consumes its receiver or borrows it.
#[derive(Clone, Copy, Debug, PartialEq, Eq, Structural)]
pub enum BindingMode {
    ByValue,
    ByReference,
}

/// One implementation of a method: it applies to a receiver of exactly
/// `receiver_type` under `receiver_depth` borrows.
#[derive(Debug)]
pub struct MethodImpl {
    pub method_name: String,
    pub receiver_type: TypeHandle,
    pub receiver_depth: usize,
    pub mode: BindingMode,
}

/// Configuration errors at setup, and resolution errors.
#[derive(Clone, Copy, Debug, PartialEq, Eq, Structural)]
pub enum EngineError {
    CyclicViewChain,
    DuplicateViewAs,
    DuplicateReceiverPattern,
    NoMatchingMethod,
    IllegalMoveOfBorrowedReceiver,
}

/// `m` is an implementation of `name` for the receiver pattern `(ty, depth)`.
pub open spec fn has_pattern(m: MethodImpl, name: Seq<char>, ty: TypeHandle, depth: nat) -> bool {
    m.method_name@ == name && m.receiver_type == ty && m.receiver_depth == depth
}

/// `m` is an implementation of `name` for `(ty, depth)` with binding `mode`.
pub open spec fn impl_matches(
    m: MethodImpl,
    name: Seq<char>,
    ty: TypeHandle,
    depth: nat,
    mode: BindingMode,
) -> bool {
    has_pattern(m, name, ty, depth) && m.mode == mode
}

/// The table holds an implementation of `name` for `(ty, depth)` with `mode`.
pub open spec fn has_impl(
    methods: Seq<MethodImpl>,
    name: Seq<char>,
    ty: TypeHandle,
    depth: nat,
    mode: BindingMode,
) -> bool {
    exists|j: int| 0 <= j < methods.len() && impl_matches(#[trigger] methods[j], name, ty, depth, mode)
}

/// Within each method, receiver patterns are distinct.
pub open spec fn patterns_unique(methods: Seq<MethodImpl>) -> bool {
    forall|i: int, j: int|
        #![trigger methods[i], methods[j]]
        0 <= i < j < methods.len() ==> !has_pattern(
            methods[j],
            methods[i].method_name@,
            methods[i].receiver_type,
            methods[i].receiver_depth as nat,
        )
}

/// The registry of types, their view-as edges, and method implementations.
pub struct Registry {
    names: Vec<String>,
    edges: Vec<Option<TypeHandle>>,
    methods: Vec<MethodImpl>,
}

impl Registry {
    /// The name of each registered type.
    pub closed spec fn names_view(&self) -> Seq<Seq<char>> {
        self.names@.map_values(|s: String| s@)
    }

    /// The view-as edge of each registered type.
    pub closed spec fn edges_view(&self) -> Seq<Option<TypeHandle>> {
        self.edges@
    }

    /// The method table, in order of registration.
    pub closed spec fn methods_view(&self) -> Seq<MethodImpl> {
        self.methods@
    }

    /// The handle `h` names a registered type.
    pub open spec fn holds(&self, h: TypeHandle) -> bool {
        h.index < self.edges_view().len()
    }

    /// Names are unique, every edge and every receiver pattern names a
    /// registered type, and no two implementations of one method share a
    /// receiver pattern.
    pub closed spec fn wf(&self) -> bool {
        &&& self.names@.len() == self.edges@.len()
        &&& forall|i: int, j: int|
            0 <= i < j < self.names@.len() ==> self.names@[i]@ != self.names@[j]@
        &&& edges_in_range(self.edges@)
        &&& forall|j: int|
            0 <= j < self.methods@.len() ==> (#[trigger] self.methods@[j]).receiver_type.index
                < self.edges@.len()
        &&& patterns_unique(self.methods@)
    }

    /// No two implementations of one method share a receiver pattern.
    pub proof fn lemma_patterns_unique(&self)
        requires
            self.wf(),
        ensures
            patterns_unique(self.methods_view()),
    {
    }

    /// Looks up the implementation of `name` for `(ty, depth)` with `mode`,
    /// and hands back a copy of it.
    pub fn find_impl(&self, name: &String, ty: TypeHandle, depth: usize, mode: BindingMode) -> (r:
        Option<MethodImpl>)
        requires
            self.wf(),
        ensures
            r is None <==> !has_impl(self.methods_view(), name@, ty, depth as nat, mode),
            r matches Some(m) ==> self.methods_view().contains(m) && impl_matches(
                m,
                name@,
                ty,
                depth as nat,
                mode,
            ),
    {
        let n = self.methods.len();
        let mut j: usize = 0;
        while j < n
            invariant
                n == self.methods@.len(),
                j <= n,
                forall|i: int|
                    0 <= i < j ==> !impl_matches(#[trigger] self.methods@[i], name@, ty, depth as nat, mode),
            decreases n - j,
        {
            let m = &self.methods[j];
            if m.method_name == *name && m.receiver_type == ty && m.receiver_depth == depth && m.mode
                == mode {
                let copy = MethodImpl {
                    method_name: m.method_name.clone(),
                    receiver_type: m.receiver_type,
                    receiver_depth: m.receiver_depth,
                    mode: m.mode,
                };
                proof {
                    assert(copy == self.methods@[j as int]);
                    assert(self.methods_view()[j as int] == copy);
                }
                return Some(copy);
            }
            j = j + 1;
        }
        None
    }

    /// An empty registry.
    pub fn new() -> (r: Registry)
        ensures
            r.wf(),
            r.names_view() == Seq::<Seq<char>>::empty(),
            r.edges_view() == Seq::<Option<TypeHandle>>::empty(),
            r.methods_view() == Seq::<MethodImpl>::empty(),
    {
        let r = Registry { names: Vec::new(), edges: Vec::new(), methods: Vec::new() };
        proof {
            assert(r.names_view() =~= Seq::<Seq<char>>::empty());
        }
        r
    }

    /// The number of registered types.
    pub fn type_count(&self) -> (r: usize)
        requires
            self.wf(),
        ensures
            r == self.edges_view().len(),
            r == self.names_view().len(),
    {
        self.edges.len()
    }

    /// The name under which `h` was registered.
    pub fn name_of(&self, h: TypeHandle) -> (r: &String)
        requires
            self.wf(),
            self.holds(h),
        ensures
            r@ == self.names_view()[h.index as int],
    {
        &self.names[h.index]
    }

    /// Registers a type under `name`. A name already registered keeps its
    /// type, and the registry is left unchanged.
    pub fn register_type(&mut self, name: String) -> (r: TypeHandle)
        requires
            old(self).wf(),
        ensures
            final(self).wf(),
            final(self).methods_view() == old(self).methods_view(),
            final(self).names_view()[r.index as int] == name@,
            final(self).holds(r),
            old(self).names_view().contains(name@) ==> {
                &&& final(self).names_view() == old(self).names_view()
                &&& final(self).edges_view() == old(self).edges_view()
            },
            !old(self).names_view().contains(name@) ==> {
                &&& r.index == old(self).edges_view().len()
                &&& final(self).names_view() == old(self).names_view().push(name@)
                &&& final(self).edges_view() == old(self).edges_view().push(None)
            },
    {
        let n = self.names.len();
        let mut i: usize = 0;
        while i < n
            invariant
                self.wf(),
                n == self.names@.len(),
                i <= n,
                forall|j: int| 0 <= j < i ==> self.names@[j]@ != name@,
            decreases n - i,
        {
            if self.names[i] == name {
                proof {
                    assert(self.names_view()[i as int] == name@);
                }
                return TypeHandle { index: i };
            }
            i = i + 1;
        }
        proof {
            assert(!self.names_view().contains(name@)) by {
                if self.names_view().contains(name@) {
                    let j = choose|j: int| 0 <= j < self.names_view().len() && self.names_view()[j] == name@;
                    assert(self.names@[j]@ == name@);
                }
            }
        }
        self.names.push(name);
        self.edges.push(None);
        proof {
            assert(self.names_view() =~= old(self).names_view().push(name@));
        }
        TypeHandle { index: n }
    }

    /// Records that `from` views as `to`. Fails with `DuplicateViewAs` when
    /// `from` already has a target, and with `CyclicViewChain` when the walk
    /// from `to` meets some type twice or passes through `from`.
    pub fn register_view_as(&mut self, from: TypeHandle, to: TypeHandle) -> (r: Result<(), EngineError>)
        requires
            old(self).wf(),
            old(self).holds(from),
            old(self).holds(to),
        ensures
            final(self).wf(),
            final(self).names_view() == old(self).names_view(),
            final(self).methods_view() == old(self).methods_view(),
            old(self).edges_view()[from.index as int] is Some ==> r == Err::<(), EngineError>(
                EngineError::DuplicateViewAs,
            ),
            old(self).edges_view()[from.index as int] is None && (repeats(old(self).edges_view(), to)
                || reaches(old(self).edges_view(), to, from)) ==> r == Err::<(), EngineError>(
                EngineError::CyclicViewChain,
            ),
            r is Err ==> final(self).edges_view() == old(self).edges_view(),
            r is Ok <==> {
                &&& old(self).edges_view()[from.index as int] is None
                &&& !repeats(old(self).edges_view(), to)
                &&& !reaches(old(self).edges_view(), to, from)
            },
            r is Ok ==> final(self).edges_view() == old(self).edges_view().update(
                from.index as int,
                Some(to),
            ),
    {
        proof {
            lemma_endless_iff_repeats(self.edges_view(), to);
        }
        if self.edges[from.index].is_some() {
            return Err(EngineError::DuplicateViewAs);
        }
        let chain = match self.build_chain(to) {
            Ok(c) => c,
            Err(e) => {
                return Err(e);
            },
        };
        let len = chain.len();
        let mut j: usize = 0;
        while j < len
            invariant
                *self == *old(self),
                old(self).wf(),
                old(self).edges_view()[from.index as int] is None,
                len == chain@.len(),
                is_chain(self.edges_view(), to, chain@),
                j <= len,
                forall|i: int| 0 <= i < j ==> chain@[i] != from,
            decreases len - j,
        {
            if chain[j] == from {
                assert(walk(self.edges_view(), to, j as nat) == Some(from));
                return Err(EngineError::CyclicViewChain);
            }
            j = j + 1;
        }
        proof {
            assert forall|k: nat| walk(self.edges_view(), to, k) != Some(from) by {
                if k >= len {
                    lemma_walk_stays_ended(self.edges_view(), to, len as nat, k);
                } else {
                    assert(walk(self.edges_view(), to, k) == Some(chain@[k as int]));
                }
            }
        }
        self.edges.set(from.index, Some(to));
        Ok(())
    }

    /// Adds an implementation of `method_name` for the receiver pattern
    /// `(receiver_type, receiver_depth)`. Fails with
    /// `DuplicateReceiverPattern` when that method already has an
    /// implementation for the same pattern.
    pub fn register_method(
        &mut self,
        method_name: String,
        receiver_type: TypeHandle,
        receiver_depth: usize,
        mode: BindingMode,
    ) -> (r: Result<(), EngineError>)
        requires
            old(self).wf(),
            old(self).holds(receiver_type),
        ensures
            final(self).wf(),
            final(self).names_view() == old(self).names_view(),
            final(self).edges_view() == old(self).edges_view(),
            r is Err <==> exists|j: int|
                0 <= j < old(self).methods_view().len() && has_pattern(
                    #[trigger] old(self).methods_view()[j],
                    method_name@,
                    receiver_type,
                    receiver_depth as nat,
                ),
            r is Err ==> r == Err::<(), EngineError>(EngineError::DuplicateReceiverPattern)
                && final(self).methods_view() == old(self).methods_view(),
            r is Ok ==> final(self).methods_view() == old(self).methods_view().push(
                MethodImpl { method_name, receiver_type, receiver_depth, mode },
            ),
    {
        let n = self.methods.len();
        let mut j: usize = 0;
        while j < n
            invariant
                self.wf(),
                n == self.methods@.len(),
                j <= n,
                forall|i: int|
                    0 <= i < j ==> !has_pattern(
                        #[trigger] self.methods@[i],
                        method_name@,
                        receiver_type,
                        receiver_depth as nat,
                    ),
            decreases n - j,
        {
            let m = &self.methods[j];
            if m.method_name == method_name && m.receiver_type == receiver_type && m.receiver_depth
                == receiver_depth {
                assert(has_pattern(
                    old(self).methods_view()[j as int],
                    method_name@,
                    receiver_type,
                    receiver_depth as nat,
                ));
                return Err(EngineError::DuplicateReceiverPattern);
            }
            j = j + 1;
        }
        let ghost new_impl = MethodImpl { method_name, receiver_type, receiver_depth, mode };
        self.methods.push(MethodImpl { method_name, receiver_type, receiver_depth, mode });
        proof {
            assert(self.methods@ == old(self).methods@.push(new_impl));
        }
        Ok(())
    }

    /// The type that `h` views as, if any.
    pub fn view_target(&self, h: TypeHandle) -> (r: Option<TypeHandle>)
        requires
            self.wf(),
            self.holds(h),
        ensures
            r == self.edges_view()[h.index as int],
            r matches Some(u) ==> self.holds(u),
    {
        self.edges[h.index]
    }

    /// The chain of types reached from `start` by following view-as edges,
    /// `start` first. Fails with `CyclicViewChain` when the walk repeats a
    /// type and so never ends.
    pub fn build_chain(&self, start: TypeHandle) -> (r: Result<Vec<TypeHandle>, EngineError>)
        requires
            self.wf(),
            self.holds(start),
        ensures
            r is Ok <==> walk_ends(self.edges_view(), start),
            r is Err <==> repeats(self.edges_view(), start),
            r matches Ok(c) ==> is_chain(self.edges_view(), start, c@),
            r matches Err(e) ==> e == EngineError::CyclicViewChain,
    {
        proof {
            lemma_endless_iff_repeats(self.edges_view(), start);
        }
        let n = self.edges.len();
        let mut chain: Vec<TypeHandle> = Vec::new();
        let mut cur = start;
        let mut k: usize = 0;
        loop
            invariant
                self.wf(),
                n == self.edges_view().len(),
                !walk_ends(self.edges_view(), start) <==> repeats(self.edges_view(), start),
                k <= n,
                self.holds(cur),
                walk(self.edges_view(), start, k as nat) == Some(cur),
                chain@.len() == k,
                forall|j: int| 0 <= j < k ==> walk(self.edges_view(), start, j as nat) == Some(#[trigger] chain@[j]),
            decreases n - k,
        {
            chain.push(cur);
            assert(walk(self.edges_view(), start, (k + 1) as nat) == self.edges_view()[cur.index as int]);
            match self.view_target(cur) {
                None => {
                    proof {
                        lemma_walk_stays_ended(self.edges_view(), start, (k + 1) as nat, (n + 1) as nat);
                    }
                    return Ok(chain);
                },
                Some(u) => {
                    if k == n {
                        return Err(EngineError::CyclicViewChain);
                    }
                    cur = u;
                    k = k + 1;
                },
            }
        }
    }
}

} // verus!
