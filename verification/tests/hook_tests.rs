use nox_hax::hook::{
    jump_bytes, JUMP_LEN, JUMP_OPCODE, lifecycle, HookHandle, HookRegistry, InterceptError, InterceptedFunction,
    Lifecycle, CONSOLE_WRITE_ADDRESS, PROCESS_ATTACH, PROCESS_DETACH, SPAWN_ITEM_ADDRESS,
};

fn patch_ok(target: u32, _replacement: u32) -> Option<u32> {
    Some(target + 0x1000_0000)
}

fn patch_denied(_target: u32, _replacement: u32) -> Option<u32> {
    None
}

fn stub_original(entry: u32, arg: u32) -> u32 {
    entry ^ arg.wrapping_mul(3)
}

#[test]
fn install_redirects_and_captures_the_original() {
    let mut registry = HookRegistry::new();
    let handle = registry.install(CONSOLE_WRITE_ADDRESS, 0x7000_0000, patch_ok).unwrap();
    assert_eq!(handle, HookHandle { slot: 0 });
    assert!(registry.is_intercepted(CONSOLE_WRITE_ADDRESS));
    assert!(!registry.is_intercepted(SPAWN_ITEM_ADDRESS));
    assert_eq!(
        registry.hooks,
        vec![InterceptedFunction {
            target: 0x0045_0b90,
            replacement: 0x7000_0000,
            original: 0x1045_0b90,
            installed: true,
        }]
    );
    let second = registry.install(SPAWN_ITEM_ADDRESS, 0x7000_0100, patch_ok).unwrap();
    assert_eq!(second, HookHandle { slot: 1 });
    assert_eq!(registry.hooks[1].target, 0x004e_3810);
}

#[test]
fn install_twice_is_refused() {
    let mut registry = HookRegistry::new();
    registry.install(0x400, 0x900, patch_ok).unwrap();
    let before = registry.hooks.clone();
    assert_eq!(registry.install(0x400, 0x901, patch_ok), Err(InterceptError::AlreadyIntercepted));
    assert_eq!(registry.install(0x400, 0x901, patch_denied), Err(InterceptError::AlreadyIntercepted));
    assert_eq!(registry.record_install(0x400, 0x901, Some(1)), Err(InterceptError::AlreadyIntercepted));
    assert_eq!(registry.hooks, before);
}

#[test]
fn refused_patch_leaves_the_registry_alone() {
    let mut registry = HookRegistry::new();
    assert_eq!(registry.install(0x400, 0x900, patch_denied), Err(InterceptError::PatchFailed));
    assert!(registry.hooks.is_empty());
    assert!(!registry.is_intercepted(0x400));
    assert_eq!(registry.record_install(0x400, 0x900, None), Err(InterceptError::PatchFailed));
    assert!(registry.hooks.is_empty());
}

#[test]
fn uninstall_restores_and_is_idempotent() {
    let mut registry = HookRegistry::new();
    let handle = registry.install(0x400, 0x900, patch_ok).unwrap();
    let undone = registry.uninstall(handle);
    assert_eq!(
        undone,
        Some(InterceptedFunction { target: 0x400, replacement: 0x900, original: 0x1000_0400, installed: true })
    );
    assert!(!registry.is_intercepted(0x400));
    let after_first = registry.hooks.clone();
    assert_eq!(registry.uninstall(handle), None);
    assert_eq!(registry.hooks, after_first);
    assert_eq!(registry.uninstall(HookHandle { slot: 17 }), None);
    assert_eq!(registry.hooks, after_first);
}

#[test]
fn reinstall_after_uninstall_reuses_the_entry() {
    let mut registry = HookRegistry::new();
    let first = registry.install(0x400, 0x900, patch_ok).unwrap();
    registry.uninstall(first);
    let again = registry.install(0x400, 0x950, patch_ok).unwrap();
    assert_eq!(again, first);
    assert_eq!(registry.hooks.len(), 1);
    assert_eq!(registry.hooks[0].replacement, 0x950);
    assert!(registry.is_intercepted(0x400));
}

#[test]
fn call_through_returns_what_the_original_returns() {
    let mut registry = HookRegistry::new();
    let handle = registry.install(0x400, 0x900, patch_ok).unwrap();
    for arg in [0u32, 1, 77, u32::MAX] {
        assert_eq!(
            registry.call_through(handle, stub_original, arg),
            Some(stub_original(0x1000_0400, arg))
        );
    }
    let proxy = registry.proxy(handle).unwrap();
    assert_eq!(proxy.entry_point(), 0x1000_0400);
    assert_eq!(proxy.call(stub_original, 5), stub_original(0x1000_0400, 5));
}

#[test]
fn no_proxy_without_an_installed_interception() {
    let mut registry = HookRegistry::new();
    assert!(registry.proxy(HookHandle { slot: 0 }).is_none());
    let handle = registry.install(0x400, 0x900, patch_ok).unwrap();
    registry.uninstall(handle);
    assert!(registry.proxy(handle).is_none());
    assert_eq!(registry.call_through(handle, stub_original, 1), None);
}

#[test]
fn loader_notices_map_to_lifecycle_steps() {
    assert_eq!(lifecycle(PROCESS_ATTACH), Lifecycle::Attach);
    assert_eq!(lifecycle(1), Lifecycle::Attach);
    assert_eq!(lifecycle(PROCESS_DETACH), Lifecycle::Detach);
    assert_eq!(lifecycle(0), Lifecycle::Detach);
    assert_eq!(lifecycle(2), Lifecycle::Ignore);
    assert_eq!(lifecycle(3), Lifecycle::Ignore);
}

#[test]
fn install_then_uninstall_leaves_every_route_as_it_was() {
    let mut registry = HookRegistry::new();
    registry.install(0x500, 0x990, patch_ok).unwrap();
    let before: Vec<u32> = [0x400u32, 0x500, 0x600].iter().map(|t| registry.resolve(*t)).collect();
    assert_eq!(before, vec![0x400, 0x990, 0x600]);

    let handle = registry.install(0x400, 0x900, patch_ok).unwrap();
    assert_eq!(registry.resolve(0x400), 0x900);
    assert_eq!(registry.resolve(0x500), 0x990);
    registry.uninstall(handle);
    let after: Vec<u32> = [0x400u32, 0x500, 0x600].iter().map(|t| registry.resolve(*t)).collect();
    assert_eq!(after, before);

    for _ in 0..3 {
        let again = registry.install(0x400, 0x900, patch_ok).unwrap();
        assert_eq!(registry.resolve(0x400), 0x900);
        registry.uninstall(again);
        assert_eq!(registry.resolve(0x400), 0x400);
    }
}

#[test]
fn uninstall_all_hands_back_the_installed_entries_in_order() {
    let mut registry = HookRegistry::new();
    let a = registry.install(0x400, 0x900, patch_ok).unwrap();
    registry.install(0x500, 0x910, patch_ok).unwrap();
    registry.install(0x600, 0x920, patch_ok).unwrap();
    registry.uninstall(a);

    let undone = registry.uninstall_all();
    assert_eq!(
        undone,
        vec![
            InterceptedFunction { target: 0x500, replacement: 0x910, original: 0x1000_0500, installed: true },
            InterceptedFunction { target: 0x600, replacement: 0x920, original: 0x1000_0600, installed: true },
        ]
    );
    assert_eq!(registry.hooks.len(), 3);
    for target in [0x400u32, 0x500, 0x600, 0x700] {
        assert!(!registry.is_intercepted(target));
        assert_eq!(registry.resolve(target), target);
    }
    assert!(registry.uninstall_all().is_empty());
}

#[test]
fn jump_bytes_hold_the_opcode_and_the_distance() {
    assert_eq!(JUMP_LEN, 5);
    assert_eq!(JUMP_OPCODE, 0xE9);
    assert_eq!(jump_bytes(0x0045_0b90, 0x1000_1000), vec![0xE9, 0x6B, 0x04, 0xBB, 0x0F]);
    assert_eq!(jump_bytes(0x1000, 0x0800), vec![0xE9, 0xFB, 0xF7, 0xFF, 0xFF]);
    assert_eq!(jump_bytes(0x1000, 0x1005), vec![0xE9, 0, 0, 0, 0]);
    assert_eq!(jump_bytes(0xFFFF_FFFF, 0x0000_0004), vec![0xE9, 0, 0, 0, 0]);
}
