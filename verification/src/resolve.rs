//! Resolving, with two caches: from a call site to a type, and from a type to
//! what is known of it. A call site always passes the same local, so its type
//! is looked up once; and two sites that fill the same type share one layout
//! and whatever a consumer derived from it.
use crate::classify::{classify, Store};
use crate::die::Fault;
use crate::frame::Caller;
use crate::locate::{local_at_address, subprogram_at, Opcodes};
use crate::plan::{Site, Ty, TyV};
use std::collections::HashMap;
use vstd::prelude::*;
use vstd::std_specs::hash::*;

verus! {

/// Why a pointer cannot be resolved.
#[derive(Clone, Copy, PartialEq, Eq, Structural, Debug)]
pub enum ResolveError {
    /// No subprogram contains the caller's address.
    NoSubprogram,
    /// No local matches the pointer.
    NoLocal,
    /// The debugging information cannot be read.
    Unreadable(Fault),
}

/// What is known of a type.
pub struct Resolved<E> {
    /// The entry of the type.
    pub site: Site,
    pub ty: Ty,
    /// What a consumer derived from the layout.
    pub ext: Option<E>,
}

/// The entry of the type of the local that a pointer means in the caller's
/// frame.
pub open spec fn site_for(store: Store, caller: Caller, ptr: u64, ops: Opcodes) -> Result<
    Site,
    ResolveError,
> {
    match crate::locate::subprogram_from(store.all(), caller.static_pc, 0) {
        Err(f) => Err(ResolveError::Unreadable(f)),
        Ok(None) => Err(ResolveError::NoSubprogram),
        Ok(Some((ui, sp))) => match crate::locate::local_at(
            store.all()[ui as int],
            sp,
            caller.caller_fp,
            caller.caller_sp,
            caller.static_pc,
            ptr,
            ops,
        ) {
            Err(f) => Err(ResolveError::Unreadable(f)),
            Ok(None) => Err(ResolveError::NoLocal),
            Ok(Some((name, off))) => Ok(Site { unit: ui, off }),
        },
    }
}

/// The layout that a pointer resolves to.
pub open spec fn layout_for(store: Store, caller: Caller, ptr: u64, ops: Opcodes) -> Result<
    TyV,
    ResolveError,
> {
    match site_for(store, caller, ptr, ops) {
        Err(e) => Err(e),
        Ok(site) => match crate::classify::classified(store.all(), store.slid(), site) {
            Err(f) => Err(ResolveError::Unreadable(f)),
            Ok(ty) => Ok(ty),
        },
    }
}

/// The position of the first type of that site, from the `k`th on.
pub open spec fn type_from<E>(types: Seq<Resolved<E>>, site: Site, k: nat) -> Option<nat>
    decreases types.len() - k,
{
    if k >= types.len() {
        None
    } else if types[k as int].site == site {
        Some(k)
    } else {
        type_from(types, site, k + 1)
    }
}

/// The store with its caches.
pub struct Resolver<E> {
    store: Store,
    ops: Opcodes,
    calls: HashMap<u64, usize>,
    types: Vec<Resolved<E>>,
}

impl<E> Resolver<E> {
    pub closed spec fn store(&self) -> Store {
        self.store
    }

    pub closed spec fn ops(&self) -> Opcodes {
        self.ops
    }

    /// The types of the call sites seen so far, each by its position.
    pub closed spec fn calls(&self) -> Map<u64, usize> {
        self.calls@
    }

    /// The types seen so far.
    pub closed spec fn types(&self) -> Seq<Resolved<E>> {
        self.types@
    }

    /// Every call site leads to a type, no type is listed twice, and every
    /// layout is the one of its type.
    pub open spec fn wf(&self) -> bool {
        &&& forall|pc: u64| #[trigger]
            self.calls().dom().contains(pc) ==> self.calls()[pc] < self.types().len()
        &&& forall|i: int|
            0 <= i < self.types().len() ==> crate::classify::classified(
                self.store().all(),
                self.store().slid(),
                (#[trigger] self.types()[i]).site,
            ) == Ok::<TyV, Fault>(self.types()[i].ty@)
        &&& forall|i: int, j: int|
            0 <= i < j < self.types().len() ==> (#[trigger] self.types()[i]).site != (
            #[trigger] self.types()[j]).site
    }

    /// A resolver with empty caches.
    pub fn new(store: Store, ops: Opcodes) -> (r: Resolver<E>)
        ensures
            r.wf(),
            r.store() == store,
            r.ops() == ops,
            r.calls() == Map::<u64, usize>::empty(),
            r.types() == Seq::<Resolved<E>>::empty(),
    {
        broadcast use group_hash_axioms;

        Resolver { store, ops, calls: HashMap::new(), types: Vec::new() }
    }

    fn find_type(&self, site: Site) -> (r: Option<usize>)
        ensures
            match type_from(self.types(), site, 0) {
                Some(k) => r matches Some(got) && got == k && k < self.types().len(),
                None => r is None,
            },
    {
        let mut k: usize = 0;
        while k < self.types.len()
            invariant
                k <= self.types@.len(),
                type_from(self.types(), site, 0) == type_from(self.types(), site, k as nat),
                self.types() == self.types@,
            decreases self.types@.len() - k,
        {
            if self.types[k].site == site {
                return Some(k);
            }
            k = k + 1;
        }
        None
    }

    /// The position of the type for a call site that has been resolved before. Such a
    /// call needs no unwinding.
    pub fn seen(&self, pc: u64) -> (r: Option<usize>)
        ensures
            r == if self.calls().dom().contains(pc) {
                Some(self.calls()[pc])
            } else {
                None
            },
    {
        broadcast use group_hash_axioms;

        match self.calls.get(&pc) {
            Some(k) => Some(*k),
            None => None,
        }
    }

    /// Resolves a pointer: the position of its type among those seen. The first
    /// call from a site looks the local up; a type that is new is laid out and
    /// added; every later call from the site is answered from the cache.
    pub fn plan_for(&mut self, caller: &Caller, ptr: u64) -> (r: Result<usize, ResolveError>)
        requires
            old(self).wf(),
        ensures
            final(self).wf(),
            final(self).store() == old(self).store(),
            final(self).ops() == old(self).ops(),
            r matches Ok(k) ==> k < final(self).types().len(),
            ({
                let pc = caller.static_pc;
                let store = old(self).store();
                if old(self).calls().dom().contains(pc) {
                    &&& r == Ok::<usize, ResolveError>(old(self).calls()[pc])
                    &&& *final(self) == *old(self)
                } else {
                    match site_for(store, *caller, ptr, old(self).ops()) {
                        Err(e) => {
                            &&& r == Err::<usize, ResolveError>(e)
                            &&& *final(self) == *old(self)
                        },
                        Ok(site) => match type_from(old(self).types(), site, 0) {
                            Some(k) => {
                                &&& r matches Ok(got) && got == k
                                &&& final(self).types() == old(self).types()
                                &&& final(self).calls() == old(self).calls().insert(pc, k as usize)
                            },
                            None => match layout_for(store, *caller, ptr, old(self).ops()) {
                                Err(e) => {
                                    &&& r == Err::<usize, ResolveError>(e)
                                    &&& *final(self) == *old(self)
                                },
                                Ok(ty) => {
                                    let k = old(self).types().len();
                                    &&& r matches Ok(got) && got == k
                                    &&& final(self).calls() == old(self).calls().insert(
                                        pc,
                                        k as usize,
                                    )
                                    &&& final(self).types().len() == k + 1
                                    &&& final(self).types().take(k as int) == old(self).types()
                                    &&& final(self).types().last().site == site
                                    &&& final(self).types().last().ty@ == ty
                                    &&& final(self).types().last().ext is None
                                },
                            },
                        },
                    }
                }
            }),
    {
        broadcast use group_hash_axioms;

        let pc: u64 = caller.static_pc;
        if let Some(k) = self.calls.get(&pc) {
            assert(self.calls().dom().contains(pc));
            return Ok(*k);
        }
        let units = self.store.units();
        let n: usize = units.len();
        let (ui, sp) = match subprogram_at(units, pc) {
            Err(f) => {
                return Err(ResolveError::Unreadable(f));
            },
            Ok(None) => {
                return Err(ResolveError::NoSubprogram);
            },
            Ok(Some(found)) => found,
        };
        proof {
            assert(units@.len() == n);
            crate::locate::lemma_subprogram_from(units@, pc, 0);
        }
        let off: usize = match local_at_address(
            &units[ui],
            sp,
            caller.caller_fp,
            caller.caller_sp,
            pc,
            ptr,
            self.ops,
        ) {
            Err(f) => {
                return Err(ResolveError::Unreadable(f));
            },
            Ok(None) => {
                return Err(ResolveError::NoLocal);
            },
            Ok(Some((_, off))) => off,
        };
        let site = Site { unit: ui, off };
        let k: usize = match self.find_type(site) {
            Some(k) => k,
            None => {
                let ty: Ty = match classify(&self.store, site) {
                    Err(f) => {
                        return Err(ResolveError::Unreadable(f));
                    },
                    Ok(ty) => ty,
                };
                let k: usize = self.types.len();
                proof {
                    lemma_type_from(self.types(), site, 0);
                }
                self.types.push(Resolved { site, ty, ext: None });
                assert(self.types().take(k as int) =~= old(self).types());
                assert forall|i: int| 0 <= i < k implies #[trigger] self.types()[i] == old(
                    self,
                ).types()[i] by {}
                k
            },
        };
        self.calls.insert(pc, k);
        assert forall|pc: u64| #[trigger] self.calls().dom().contains(pc) implies self.calls()[pc]
            < self.types().len() by {
            if old(self).calls().dom().contains(pc) {
                assert(old(self).calls()[pc] < old(self).types().len());
            }
        }
        Ok(k)
    }

    /// What is known of a type.
    pub fn resolved(&self, k: usize) -> (r: &Resolved<E>)
        requires
            k < self.types().len(),
        ensures
            *r == self.types()[k as int],
    {
        &self.types[k]
    }

    /// What a consumer derives from a type's layout: made on the first call for
    /// the type, and kept.
    pub fn ext<F: FnOnce(&Ty) -> E>(&mut self, k: usize, make: F)
        requires
            old(self).wf(),
            k < old(self).types().len(),
            make.requires((&old(self).types()[k as int].ty,)),
        ensures
            final(self).wf(),
            final(self).store() == old(self).store(),
            final(self).ops() == old(self).ops(),
            final(self).calls() == old(self).calls(),
            final(self).types().len() == old(self).types().len(),
            forall|i: int|
                0 <= i < old(self).types().len() && i != k ==> #[trigger] final(self).types()[i] == old(
                    self,
                ).types()[i],
            final(self).types()[k as int].site == old(self).types()[k as int].site,
            final(self).types()[k as int].ty == old(self).types()[k as int].ty,
            match old(self).types()[k as int].ext {
                Some(e) => final(self).types()[k as int].ext == Some(e),
                None => final(self).types()[k as int].ext matches Some(e) && make.ensures(
                    (&old(self).types()[k as int].ty,),
                    e,
                ),
            },
    {
        if self.types[k].ext.is_none() {
            let made: E = make(&self.types[k].ty);
            self.types[k].ext = Some(made);
        }
        proof {
            let was = old(self).types();
            let now = self.types();
            assert(now.len() == was.len());
            assert forall|i: int| 0 <= i < now.len() implies (#[trigger] now[i]).site
                == was[i].site && now[i].ty == was[i].ty by {}
            assert forall|i: int, j: int| 0 <= i < j < now.len() implies (#[trigger] now[i]).site
                != (#[trigger] now[j]).site by {
                assert(was[i].site != was[j].site);
            }
            assert forall|pc: u64| #[trigger] self.calls().dom().contains(pc) implies self.calls()[pc]
                < now.len() by {
                assert(old(self).calls().dom().contains(pc));
            }
        }
    }
}

proof fn lemma_type_from<E>(types: Seq<Resolved<E>>, site: Site, k: nat)
    ensures
        type_from(types, site, k) is None ==> forall|i: int|
            k <= i < types.len() ==> (#[trigger] types[i]).site != site,
    decreases types.len() - k,
{
    if k < types.len() && types[k as int].site != site {
        lemma_type_from(types, site, k + 1);
    }
}

/// One type has one layout, and whatever was derived from it, however many call
/// sites fill it: two sites that resolve to one type share its place.
pub proof fn law_sites_share_a_type<E>(r: Resolver<E>, i: int, j: int)
    requires
        r.wf(),
        0 <= i < r.types().len(),
        0 <= j < r.types().len(),
        r.types()[i].site == r.types()[j].site,
    ensures
        i == j,
{
    if i < j {
        assert(r.types()[i].site != r.types()[j].site);
    } else if j < i {
        assert(r.types()[j].site != r.types()[i].site);
    }
}

/// A pointer resolves to the local that lies there: the subprogram is the first that the
/// caller's address lies in, its frame begins where the caller's registers put it, and
/// where one of its locals is a `MaybeUninit<..>` at the pointer, with those before it
/// readable, the type is that of the first such local. Its layout, where it has one, is
/// what the entries give.
pub proof fn law_pointer_resolves_to_its_local(
    store: Store,
    caller: Caller,
    ptr: u64,
    ops: Opcodes,
    u: int,
    i: int,
    base: u64,
    v: int,
) -> (w: int)
    requires
        store.all().len() <= usize::MAX,
        crate::described::all_ascending(store.all()),
        crate::described::all_whole(store.all()),
        0 <= u < store.all().len(),
        0 <= i < store.all()[u].dies().len(),
        crate::locate::runs_at(store.all()[u].dies()[i], caller.static_pc),
        forall|t: int, j: int|
            0 <= t < store.all().len() && 0 <= j < store.all()[t].dies().len() && (t < u || (t == u && j < i))
                ==> !crate::locate::runs_at(#[trigger] store.all()[t].dies()[j], caller.static_pc),
        forall|t: int, j: int|
            0 <= t < store.all().len() && 0 <= j < store.all()[t].dies().len() ==> crate::locate::can_tell(
                #[trigger] store.all()[t].dies()[j],
                caller.static_pc,
            ),
        crate::locals::frame_at(
            store.all()[u],
            store.all()[u].dies()[i].offset,
            caller.caller_fp,
            caller.caller_sp,
            ops,
            base,
        ),
        crate::locals::is_local_of(store.all()[u], store.all()[u].dies()[i].offset, v),
        ({
            let regs = crate::locate::Regs { fp: caller.caller_fp, sp: caller.caller_sp, frame_base: base, ops };
            &&& crate::locals::seen(store.all()[u], v, regs, caller.static_pc) matches Ok(l)
                && crate::locals::is_target(l, ptr)
            &&& forall|b: int|
                b < v && #[trigger] crate::locals::is_local_of(store.all()[u], store.all()[u].dies()[i].offset, b)
                    ==> crate::locals::seen(store.all()[u], b, regs, caller.static_pc) is Ok
        }),
    ensures
        ({
            let regs = crate::locate::Regs { fp: caller.caller_fp, sp: caller.caller_sp, frame_base: base, ops };
            &&& w <= v
            &&& crate::locals::is_local_of(store.all()[u], store.all()[u].dies()[i].offset, w)
            &&& crate::locals::seen(store.all()[u], w, regs, caller.static_pc) matches Ok(l)
                && crate::locals::is_target(l, ptr) && (l.ty matches Some(t) && site_for(store, caller, ptr, ops) == Ok::<
                Site,
                ResolveError,
            >(Site { unit: u as usize, off: t }))
            &&& layout_for(store, caller, ptr, ops) matches Ok(ty) ==> crate::described::describes(
                store.all(),
                store.slid(),
                site_for(store, caller, ptr, ops)->Ok_0,
                ty,
            )
        }),
{
    let units = store.all();
    let pc = caller.static_pc;
    let unit = units[u];
    let off = unit.dies()[i].offset;
    crate::locate::law_subprogram_is_the_first_there(units, pc);
    match crate::locate::subprogram_from(units, pc, 0) {
        Ok(Some((t, at))) => {
            let j = choose|j: int|
                0 <= j < units[t as int].dies().len() && (#[trigger] units[t as int].dies()[j]).offset == at
                    && crate::locate::runs_at(units[t as int].dies()[j], pc) && forall|a: int, b: int|
                    0 <= a < units.len() && 0 <= b < units[a].dies().len() && (a < t || (a == t && b < j))
                        ==> !crate::locate::runs_at(#[trigger] units[a].dies()[b], pc);
            let _ = units[u].dies()[i];
            let _ = units[t as int].dies()[j];
            assert(t == u && j == i);
        },
        Ok(None) => {
            let _ = units[u].dies()[i];
        },
        Err(f) => {
            let t = choose|t: int|
                0 <= t < units.len() && (!(#[trigger] units[t]).whole() || exists|j: int|
                    0 <= j < units[t].dies().len() && !crate::locate::can_tell(#[trigger] units[t].dies()[j], pc));
            assert(units[t].whole());
        },
    }
    let w = crate::locals::law_target_is_found(
        unit,
        off,
        caller.caller_fp,
        caller.caller_sp,
        pc,
        ptr,
        ops,
        base,
        v,
    );
    let site = site_for(store, caller, ptr, ops)->Ok_0;
    crate::described::law_layout_is_described(units, store.slid(), site);
    w
}

/// Every layout that a resolver holds is what the entries of its type give.
pub proof fn law_resolved_layouts_are_described<E>(r: Resolver<E>, i: int)
    requires
        r.wf(),
        crate::described::all_ascending(r.store().all()),
        0 <= i < r.types().len(),
    ensures
        crate::described::describes(r.store().all(), r.store().slid(), r.types()[i].site, r.types()[i].ty@),
{
    crate::described::law_layout_is_described(r.store().all(), r.store().slid(), r.types()[i].site);
}

} // verus!
