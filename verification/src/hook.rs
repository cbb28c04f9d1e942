//! Bookkeeping of intercepted functions: which targets are redirected, where
//! to, and where the original code of each can still be entered.
//!
//! The patching of the host's code is done by the caller; the registry decides
//! when it may happen and remembers what it captured.

use vstd::prelude::*;
use vstd::bytes::{spec_u32_to_le_bytes, u32_to_le_bytes};

verus! {

/// Entry point of the host's console writer.
pub const CONSOLE_WRITE_ADDRESS: u32 = 0x0045_0b90;

/// Entry point of the host's item spawner.
pub const SPAWN_ITEM_ADDRESS: u32 = 0x004e_3810;

/// The host loader's notice that the library was attached.
pub const PROCESS_ATTACH: u32 = 1;

/// The host loader's notice that the library is being detached.
pub const PROCESS_DETACH: u32 = 0;

/// Length of the jump that is written over the start of a target.
pub const JUMP_LEN: u32 = 5;

/// Opcode of a near jump with a 32-bit distance.
pub const JUMP_OPCODE: u8 = 0xE9;

/// The distance that a jump at `target` covers to land at `replacement`,
/// counted from the end of the jump, modulo 2^32.
pub open spec fn jump_distance(target: u32, replacement: u32) -> u32 {
    ((replacement - target - JUMP_LEN) % 0x1_0000_0000) as u32
}

/// The bytes of the jump from `target` to `replacement`: the opcode, then the
/// distance, little-endian.
pub open spec fn jump_code(target: u32, replacement: u32) -> Seq<u8> {
    seq![JUMP_OPCODE] + spec_u32_to_le_bytes(jump_distance(target, replacement))
}

/// A jump at `target` over `jump_distance` lands at `replacement`.
pub proof fn lemma_jump_lands(target: u32, replacement: u32)
    ensures
        (target + JUMP_LEN + jump_distance(target, replacement)) % 0x1_0000_0000 == replacement,
{
}

/// The bytes to write at `target` so that a call there continues at
/// `replacement`.
pub fn jump_bytes(target: u32, replacement: u32) -> (r: Vec<u8>)
    ensures
        r@ == jump_code(target, replacement),
        r@.len() == JUMP_LEN,
{
    let distance: u32 = replacement.wrapping_sub(target).wrapping_sub(JUMP_LEN);
    assert(distance == jump_distance(target, replacement));
    let mut out: Vec<u8> = Vec::new();
    out.push(JUMP_OPCODE);
    let mut tail = u32_to_le_bytes(distance);
    out.append(&mut tail);
    assert(out@ =~= jump_code(target, replacement));
    out
}

/// Why an interception could not be installed.
#[derive(Clone, Copy, Debug, PartialEq, Eq, Structural)]
pub enum InterceptError {
    /// The target is intercepted already.
    AlreadyIntercepted,
    /// The patch could not be applied to the host's code.
    PatchFailed,
}

/// One redirection target. `original` is where the captured original code
/// can be entered; it means something only while `installed`.
#[derive(Clone, Copy, Debug, PartialEq, Eq, Structural)]
pub struct InterceptedFunction {
    pub target: u32,
    pub replacement: u32,
    pub original: u32,
    pub installed: bool,
}

/// Names one entry of a registry.
#[derive(Clone, Copy, Debug, PartialEq, Eq, Structural)]
pub struct HookHandle {
    pub slot: usize,
}

/// The way back into the original code of one installed interception. It can
/// only be had from the registry, and it borrows the registry: while a proxy
/// lives, nothing can be installed or removed.
pub struct CallThroughProxy<'a> {
    owner: &'a HookRegistry,
    address: u32,
}

/// What the loader's notice asks for.
#[derive(Clone, Copy, Debug, PartialEq, Eq, Structural)]
pub enum Lifecycle {
    Attach,
    Detach,
    Ignore,
}

/// The set of interceptions, one entry per target ever installed.
#[derive(Debug)]
pub struct HookRegistry {
    pub hooks: Vec<InterceptedFunction>,
}

/// The first position from `from` on whose entry is for `target`.
pub open spec fn entry_for(hooks: Seq<InterceptedFunction>, target: u32, from: int) -> Option<int>
    decreases hooks.len() - from,
{
    if from < 0 || from >= hooks.len() {
        None
    } else if hooks[from].target == target {
        Some(from)
    } else {
        entry_for(hooks, target, from + 1)
    }
}

/// No two entries share a target.
pub open spec fn distinct_targets(hooks: Seq<InterceptedFunction>) -> bool {
    forall|i: int, j: int|
        0 <= i < hooks.len() && 0 <= j < hooks.len() && i != j ==> (#[trigger] hooks[i]).target
            != (#[trigger] hooks[j]).target
}

/// `target` is redirected at present.
pub open spec fn intercepted(hooks: Seq<InterceptedFunction>, target: u32) -> bool {
    match entry_for(hooks, target, 0) {
        Some(i) => hooks[i].installed,
        None => false,
    }
}

/// Where a call to `target` ends up: at the replacement while the target is
/// intercepted, in the target's own code otherwise.
pub open spec fn route(hooks: Seq<InterceptedFunction>, target: u32) -> u32 {
    match entry_for(hooks, target, 0) {
        Some(i) => if hooks[i].installed {
            hooks[i].replacement
        } else {
            target
        },
        None => target,
    }
}

/// The position that an installation of `target` takes: the entry the target
/// has already, or a new one at the end.
pub open spec fn install_slot(hooks: Seq<InterceptedFunction>, target: u32) -> int {
    match entry_for(hooks, target, 0) {
        Some(i) => i,
        None => hooks.len() as int,
    }
}

/// The entries after `target` was redirected to `replacement`, with its
/// original code reachable at `original`.
pub open spec fn installed(
    hooks: Seq<InterceptedFunction>,
    target: u32,
    replacement: u32,
    original: u32,
) -> Seq<InterceptedFunction> {
    let entry = InterceptedFunction { target, replacement, original, installed: true };
    match entry_for(hooks, target, 0) {
        Some(i) => hooks.update(i, entry),
        None => hooks.push(entry),
    }
}

/// The entries after the interception at position `slot` was removed.
pub open spec fn uninstalled(hooks: Seq<InterceptedFunction>, slot: int) -> Seq<
    InterceptedFunction,
> {
    if 0 <= slot < hooks.len() {
        hooks.update(slot, InterceptedFunction { installed: false, ..hooks[slot] })
    } else {
        hooks
    }
}

/// The entries with every interception removed.
pub open spec fn all_uninstalled(hooks: Seq<InterceptedFunction>) -> Seq<InterceptedFunction> {
    Seq::new(hooks.len(), |i: int| InterceptedFunction { installed: false, ..hooks[i] })
}

/// The installed entries among the first `n`, in order.
pub open spec fn active(hooks: Seq<InterceptedFunction>, n: int) -> Seq<InterceptedFunction>
    decreases n,
{
    if n <= 0 || n > hooks.len() {
        Seq::empty()
    } else if hooks[n - 1].installed {
        active(hooks, n - 1).push(hooks[n - 1])
    } else {
        active(hooks, n - 1)
    }
}

/// With every interception removed, every call goes to its target's own code.
pub proof fn lemma_all_uninstalled_routes_home(hooks: Seq<InterceptedFunction>, target: u32)
    ensures
        route(all_uninstalled(hooks), target) == target,
        !intercepted(all_uninstalled(hooks), target),
        distinct_targets(hooks) ==> distinct_targets(all_uninstalled(hooks)),
{
    lemma_entry_for(all_uninstalled(hooks), target, 0);
    if distinct_targets(hooks) {
        let after = all_uninstalled(hooks);
        assert forall|i: int, j: int|
            0 <= i < after.len() && 0 <= j < after.len() && i != j implies (#[trigger] after[i]).target
            != (#[trigger] after[j]).target by {
            assert(hooks[i].target != hooks[j].target);
        }
    }
}

pub proof fn lemma_entry_for(hooks: Seq<InterceptedFunction>, target: u32, from: int)
    requires
        0 <= from,
    ensures
        match entry_for(hooks, target, from) {
            Some(i) => from <= i < hooks.len() && hooks[i].target == target && forall|j: int|
                from <= j < i ==> (#[trigger] hooks[j]).target != target,
            None => forall|j: int| from <= j < hooks.len() ==> (#[trigger] hooks[j]).target != target,
        },
    decreases hooks.len() - from,
{
    if from < hooks.len() && hooks[from].target != target {
        lemma_entry_for(hooks, target, from + 1);
    }
}

/// Among distinct targets, the entry for a target is the one that holds it.
pub proof fn lemma_entry_is_unique(hooks: Seq<InterceptedFunction>, i: int)
    requires
        distinct_targets(hooks),
        0 <= i < hooks.len(),
    ensures
        entry_for(hooks, hooks[i].target, 0) == Some(i),
{
    lemma_entry_for(hooks, hooks[i].target, 0);
}

/// Two entry lists of one length that hold the same targets resolve every
/// target to the same position.
proof fn lemma_entry_for_same_targets(
    a: Seq<InterceptedFunction>,
    b: Seq<InterceptedFunction>,
    target: u32,
    from: int,
)
    requires
        a.len() == b.len(),
        forall|i: int| 0 <= i < a.len() ==> (#[trigger] a[i]).target == b[i].target,
        0 <= from,
    ensures
        entry_for(a, target, from) == entry_for(b, target, from),
    decreases a.len() - from,
{
    if from < a.len() {
        assert(a[from].target == b[from].target);
        if a[from].target != target {
            lemma_entry_for_same_targets(a, b, target, from + 1);
        }
    }
}

/// Installing redirects the target, at the position that `install_slot`
/// names, and leaves every other target's route alone; targets that were
/// distinct stay so.
pub proof fn lemma_install(
    hooks: Seq<InterceptedFunction>,
    target: u32,
    replacement: u32,
    original: u32,
    other: u32,
)
    ensures
        distinct_targets(hooks) ==> distinct_targets(
            installed(hooks, target, replacement, original),
        ),
        0 <= install_slot(hooks, target) < installed(hooks, target, replacement, original).len(),
        install_slot(hooks, target) <= hooks.len(),
        installed(hooks, target, replacement, original)[install_slot(hooks, target)] == (
            InterceptedFunction { target, replacement, original, installed: true }
        ),
        entry_for(installed(hooks, target, replacement, original), target, 0) == Some(
            install_slot(hooks, target),
        ),
        intercepted(installed(hooks, target, replacement, original), target),
        route(installed(hooks, target, replacement, original), target) == replacement,
        other != target ==> route(installed(hooks, target, replacement, original), other) == route(
            hooks,
            other,
        ),
{
    let after = installed(hooks, target, replacement, original);
    let slot = install_slot(hooks, target);
    lemma_entry_for(hooks, target, 0);
    lemma_entry_for(after, target, 0);
    assert(after[slot].target == target);
    assert forall|i: int| 0 <= i < hooks.len() && i != slot implies after[i] == hooks[i] by {}
    if distinct_targets(hooks) {
        assert forall|i: int, j: int|
            0 <= i < after.len() && 0 <= j < after.len() && i != j implies (#[trigger] after[i]).target
            != (#[trigger] after[j]).target by {
            if i < hooks.len() && i != slot {
                assert(after[i] == hooks[i]);
            }
            if j < hooks.len() && j != slot {
                assert(after[j] == hooks[j]);
            }
            if i < hooks.len() && j < hooks.len() {
                assert(hooks[i].target != hooks[j].target);
            }
        }
    }
    let first = entry_for(after, target, 0).unwrap();
    if first < slot {
        assert(after[first] == hooks[first]);
    }
    if other != target {
        lemma_entry_for(hooks, other, 0);
        lemma_entry_for(after, other, 0);
        match entry_for(hooks, other, 0) {
            Some(i) => {
                assert(after[i] == hooks[i]);
                let j = entry_for(after, other, 0).unwrap();
                if j < i {
                    assert(after[j] == hooks[j]);
                }
            },
            None => {
                if entry_for(after, other, 0) is Some {
                    let j = entry_for(after, other, 0).unwrap();
                    if j < hooks.len() {
                        assert(hooks[j].target == after[j].target);
                    }
                }
            },
        }
    }
}

/// Uninstalling sends a position's target back to its own code and leaves
/// every other target's route alone.
pub proof fn lemma_uninstall(hooks: Seq<InterceptedFunction>, slot: int, other: u32)
    requires
        distinct_targets(hooks),
    ensures
        distinct_targets(uninstalled(hooks, slot)),
        0 <= slot < hooks.len() ==> route(uninstalled(hooks, slot), hooks[slot].target)
            == hooks[slot].target,
        (0 <= slot < hooks.len() ==> other != hooks[slot].target) ==> route(
            uninstalled(hooks, slot),
            other,
        ) == route(hooks, other),
{
    let after = uninstalled(hooks, slot);
    assert forall|i: int| 0 <= i < hooks.len() implies (#[trigger] hooks[i]).target
        == after[i].target by {}
    assert(distinct_targets(after)) by {
        assert forall|i: int, j: int|
            0 <= i < after.len() && 0 <= j < after.len() && i != j implies (#[trigger] after[i]).target
            != (#[trigger] after[j]).target by {
            assert(hooks[i].target != hooks[j].target);
        }
    }
    lemma_entry_for_same_targets(hooks, after, other, 0);
    lemma_entry_for(hooks, other, 0);
    if 0 <= slot < hooks.len() {
        lemma_entry_for_same_targets(hooks, after, hooks[slot].target, 0);
        lemma_entry_is_unique(hooks, slot);
        if other != hooks[slot].target {
            match entry_for(hooks, other, 0) {
                Some(i) => {
                    assert(after[i] == hooks[i]);
                },
                None => {},
            }
        }
    }
}

/// Installing an interception on a target that has none and removing it at
/// once leaves every call, to that target and to any other, where it went
/// before.
pub proof fn lemma_install_uninstall_round_trip(
    hooks: Seq<InterceptedFunction>,
    target: u32,
    replacement: u32,
    original: u32,
    any: u32,
)
    requires
        distinct_targets(hooks),
        !intercepted(hooks, target),
    ensures
        route(
            uninstalled(installed(hooks, target, replacement, original), install_slot(hooks, target)),
            any,
        ) == route(hooks, any),
        route(
            uninstalled(installed(hooks, target, replacement, original), install_slot(hooks, target)),
            target,
        ) == target,
{
    let mid = installed(hooks, target, replacement, original);
    let slot = install_slot(hooks, target);
    lemma_entry_for(hooks, target, 0);
    lemma_install(hooks, target, replacement, original, any);
    assert(mid[slot].target == target);
    lemma_uninstall(mid, slot, any);
    lemma_uninstall(mid, slot, target);
}

/// Removing an interception twice is the same as removing it once.
pub proof fn lemma_uninstall_idempotent(hooks: Seq<InterceptedFunction>, slot: int)
    ensures
        uninstalled(uninstalled(hooks, slot), slot) == uninstalled(hooks, slot),
{
    assert(uninstalled(uninstalled(hooks, slot), slot) =~= uninstalled(hooks, slot));
}

/// What the loader's notice asks for: attach on 1, detach on 0, nothing on
/// any other reason.
pub fn lifecycle(call_reason: u32) -> (r: Lifecycle)
    ensures
        r == (if call_reason == PROCESS_ATTACH {
            Lifecycle::Attach
        } else if call_reason == PROCESS_DETACH {
            Lifecycle::Detach
        } else {
            Lifecycle::Ignore
        }),
{
    if call_reason == PROCESS_ATTACH {
        Lifecycle::Attach
    } else if call_reason == PROCESS_DETACH {
        Lifecycle::Detach
    } else {
        Lifecycle::Ignore
    }
}

impl<'a> CallThroughProxy<'a> {
    /// Where the original code is entered.
    pub closed spec fn entry(&self) -> u32 {
        self.address
    }

    /// The registry that this proxy was taken from.
    pub closed spec fn owner(&self) -> HookRegistry {
        *self.owner
    }

    pub fn entry_point(&self) -> (r: u32)
        ensures
            r == self.entry(),
    {
        self.address
    }

    /// Enters the original code with `args` and returns what it returns.
    /// `invoke` is the caller's means to call into the host at an address.
    pub fn call<A, R, F: Fn(u32, A) -> R>(&self, invoke: F, args: A) -> (r: R)
        requires
            invoke.requires((self.entry(), args)),
        ensures
            invoke.ensures((self.entry(), args), r),
    {
        invoke(self.address, args)
    }
}

impl HookRegistry {
    /// No two entries share a target.
    pub open spec fn well_formed(self) -> bool {
        distinct_targets(self.hooks@)
    }

    /// The interception that `handle` names is installed.
    pub open spec fn is_installed(self, handle: HookHandle) -> bool {
        handle.slot < self.hooks@.len() && self.hooks@[handle.slot as int].installed
    }

    /// A registry without interceptions.
    pub fn new() -> (r: HookRegistry)
        ensures
            r.hooks@.len() == 0,
            r.well_formed(),
    {
        HookRegistry { hooks: Vec::new() }
    }

    fn position(&self, target: u32) -> (r: Option<usize>)
        ensures
            match r {
                Some(i) => entry_for(self.hooks@, target, 0) == Some(i as int) && i
                    < self.hooks@.len(),
                None => entry_for(self.hooks@, target, 0) is None,
            },
    {
        let mut i: usize = 0;
        while i < self.hooks.len()
            invariant
                i <= self.hooks@.len(),
                entry_for(self.hooks@, target, 0) == entry_for(self.hooks@, target, i as int),
            decreases self.hooks@.len() - i,
        {
            if self.hooks[i].target == target {
                return Some(i);
            }
            i = i + 1;
        }
        None
    }

    /// Whether `target` is redirected at present.
    pub fn is_intercepted(&self, target: u32) -> (r: bool)
        ensures
            r == intercepted(self.hooks@, target),
    {
        match self.position(target) {
            Some(i) => self.hooks[i].installed,
            None => false,
        }
    }

    /// Where a call to `target` ends up at present.
    pub fn resolve(&self, target: u32) -> (r: u32)
        ensures
            r == route(self.hooks@, target),
    {
        match self.position(target) {
            Some(i) => if self.hooks[i].installed {
                self.hooks[i].replacement
            } else {
                target
            },
            None => target,
        }
    }

    /// Records the outcome of a patch attempt on a target that is not
    /// intercepted: `captured` is the entry to the original code if the patch
    /// was applied, `None` if it was refused.
    pub fn record_install(&mut self, target: u32, replacement: u32, captured: Option<u32>) -> (r:
        Result<HookHandle, InterceptError>)
        ensures
            old(self).well_formed() ==> final(self).well_formed(),
            match r {
                Err(InterceptError::AlreadyIntercepted) => {
                    &&& intercepted(old(self).hooks@, target)
                    &&& final(self).hooks@ == old(self).hooks@
                },
                Err(InterceptError::PatchFailed) => {
                    &&& !intercepted(old(self).hooks@, target)
                    &&& captured is None
                    &&& final(self).hooks@ == old(self).hooks@
                },
                Ok(h) => {
                    &&& !intercepted(old(self).hooks@, target)
                    &&& captured is Some
                    &&& h.slot == install_slot(old(self).hooks@, target)
                    &&& final(self).hooks@ == installed(
                        old(self).hooks@,
                        target,
                        replacement,
                        captured.unwrap(),
                    )
                },
            },
    {
        let found = self.position(target);
        if let Some(i) = found {
            if self.hooks[i].installed {
                return Err(InterceptError::AlreadyIntercepted);
            }
        }
        match captured {
            None => Err(InterceptError::PatchFailed),
            Some(original) => {
                proof {
                    lemma_install(self.hooks@, target, replacement, original, target);
                }
                let entry = InterceptedFunction { target, replacement, original, installed: true };
                match found {
                    Some(i) => {
                        self.hooks.set(i, entry);
                        Ok(HookHandle { slot: i })
                    },
                    None => {
                        let slot = self.hooks.len();
                        self.hooks.push(entry);
                        Ok(HookHandle { slot })
                    },
                }
            },
        }
    }

    /// Redirects `target` to `replacement`. The patch is attempted, through
    /// `patch`, only where the target is not intercepted already; `patch`
    /// answers with the entry to the captured original code, or `None` where
    /// the host's code could not be changed.
    pub fn install<P: Fn(u32, u32) -> Option<u32>>(
        &mut self,
        target: u32,
        replacement: u32,
        patch: P,
    ) -> (r: Result<HookHandle, InterceptError>)
        requires
            patch.requires((target, replacement)),
        ensures
            old(self).well_formed() ==> final(self).well_formed(),
            match r {
                Err(InterceptError::AlreadyIntercepted) => {
                    &&& intercepted(old(self).hooks@, target)
                    &&& final(self).hooks@ == old(self).hooks@
                },
                Err(InterceptError::PatchFailed) => {
                    &&& !intercepted(old(self).hooks@, target)
                    &&& patch.ensures((target, replacement), None)
                    &&& final(self).hooks@ == old(self).hooks@
                },
                Ok(h) => {
                    &&& !intercepted(old(self).hooks@, target)
                    &&& h.slot == install_slot(old(self).hooks@, target)
                    &&& final(self).is_installed(h)
                    &&& patch.ensures(
                        (target, replacement),
                        Some(final(self).hooks@[h.slot as int].original),
                    )
                    &&& final(self).hooks@ == installed(
                        old(self).hooks@,
                        target,
                        replacement,
                        final(self).hooks@[h.slot as int].original,
                    )
                    &&& route(final(self).hooks@, target) == replacement
                },
            },
    {
        if self.is_intercepted(target) {
            return Err(InterceptError::AlreadyIntercepted);
        }
        let captured = patch(target, replacement);
        proof {
            if captured is Some {
                lemma_install(self.hooks@, target, replacement, captured.unwrap(), target);
            }
        }
        self.record_install(target, replacement, captured)
    }

    /// Removes the interception that `handle` names. Returns the entry whose
    /// original code the caller has to put back, or `None` where there is
    /// nothing to undo: the handle names no entry, or its interception was
    /// removed before.
    pub fn uninstall(&mut self, handle: HookHandle) -> (r: Option<InterceptedFunction>)
        ensures
            old(self).well_formed() ==> final(self).well_formed(),
            final(self).hooks@ == uninstalled(old(self).hooks@, handle.slot as int),
            !final(self).is_installed(handle),
            r == (if old(self).is_installed(handle) {
                Some(old(self).hooks@[handle.slot as int])
            } else {
                None
            }),
            !old(self).is_installed(handle) ==> final(self).hooks@ == old(self).hooks@,
    {
        proof {
            if self.well_formed() {
                lemma_uninstall(self.hooks@, handle.slot as int, 0);
            }
        }
        if handle.slot >= self.hooks.len() {
            return None;
        }
        let entry: InterceptedFunction = self.hooks[handle.slot];
        if !entry.installed {
            assert(self.hooks@ =~= uninstalled(self.hooks@, handle.slot as int));
            return None;
        }
        self.hooks.set(
            handle.slot,
            InterceptedFunction {
                target: entry.target,
                replacement: entry.replacement,
                original: entry.original,
                installed: false,
            },
        );
        Some(entry)
    }

    /// Removes every interception, as is due before the host lets go of the
    /// library. Returns the entries whose original code the caller has to put
    /// back, in registry order.
    pub fn uninstall_all(&mut self) -> (r: Vec<InterceptedFunction>)
        ensures
            final(self).hooks@ == all_uninstalled(old(self).hooks@),
            r@ == active(old(self).hooks@, old(self).hooks@.len() as int),
            old(self).well_formed() ==> final(self).well_formed(),
            forall|target: u32| #[trigger] route(final(self).hooks@, target) == target,
    {
        let ghost start = self.hooks@;
        let n: usize = self.hooks.len();
        let mut out: Vec<InterceptedFunction> = Vec::new();
        let mut i: usize = 0;
        while i < n
            invariant
                i <= n,
                n == start.len(),
                self.hooks@.len() == n,
                forall|j: int| 0 <= j < i ==> #[trigger] self.hooks@[j] == all_uninstalled(start)[j],
                forall|j: int| i <= j < n ==> #[trigger] self.hooks@[j] == start[j],
                out@ == active(start, i as int),
            decreases n - i,
        {
            let entry: InterceptedFunction = self.hooks[i];
            if entry.installed {
                out.push(entry);
            }
            self.hooks.set(
                i,
                InterceptedFunction {
                    target: entry.target,
                    replacement: entry.replacement,
                    original: entry.original,
                    installed: false,
                },
            );
            i = i + 1;
        }
        proof {
            assert(self.hooks@ =~= all_uninstalled(start));
            lemma_all_uninstalled_routes_home(start, 0);
            assert forall|target: u32| #[trigger] route(self.hooks@, target) == target by {
                lemma_all_uninstalled_routes_home(start, target);
            }
        }
        out
    }

    /// The way into the original code of an installed interception; there is
    /// none for an interception that is not installed.
    pub fn proxy(&self, handle: HookHandle) -> (r: Option<CallThroughProxy<'_>>)
        ensures
            r is Some <==> self.is_installed(handle),
            r matches Some(p) ==> p.entry() == self.hooks@[handle.slot as int].original && p.owner()
                == *self,
    {
        if handle.slot < self.hooks.len() && self.hooks[handle.slot].installed {
            Some(CallThroughProxy { owner: self, address: self.hooks[handle.slot].original })
        } else {
            None
        }
    }

    /// Calls the original code behind an installed interception with `args`
    /// and returns its result as it is; `None`, without any call, where the
    /// interception is not installed.
    pub fn call_through<A, R, F: Fn(u32, A) -> R>(&self, handle: HookHandle, invoke: F, args: A) -> (r:
        Option<R>)
        requires
            self.is_installed(handle) ==> invoke.requires(
                (self.hooks@[handle.slot as int].original, args),
            ),
        ensures
            r is Some <==> self.is_installed(handle),
            r matches Some(v) ==> invoke.ensures(
                (self.hooks@[handle.slot as int].original, args),
                v,
            ),
    {
        match self.proxy(handle) {
            Some(p) => Some(p.call(invoke, args)),
            None => None,
        }
    }
}

} // verus!
