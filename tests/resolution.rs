use auto_ref::emit::{emit, ReceiverStep};
use auto_ref::registry::{BindingMode, EngineError, Registry, TypeHandle};
use auto_ref::resolve::{Adjustment, ReceiverDescriptor, ResolutionResult};

fn name(s: &str) -> String {
    s.to_string()
}

fn receiver(ty: TypeHandle, reference_depth: usize, is_copyable: bool) -> ReceiverDescriptor {
    ReceiverDescriptor { ty, reference_depth, is_copyable }
}

fn resolve(reg: &Registry, recv: ReceiverDescriptor, method: &str) -> Result<ResolutionResult, EngineError> {
    reg.resolve(&recv, &name(method))
}

/// `X` views as `i32`; `X::m` and `i32::m` both consume their receiver.
fn x_and_i32() -> (Registry, TypeHandle, TypeHandle) {
    let mut reg = Registry::new();
    let x = reg.register_type(name("X"));
    let i = reg.register_type(name("i32"));
    reg.register_view_as(x, i).unwrap();
    reg.register_method(name("m"), x, 0, BindingMode::ByValue).unwrap();
    reg.register_method(name("m"), i, 0, BindingMode::ByValue).unwrap();
    (reg, x, i)
}

#[test]
fn owned_receiver_takes_its_own_by_value_method() {
    let (reg, x, _) = x_and_i32();
    let r = resolve(&reg, receiver(x, 0, false), "m").unwrap();
    assert_eq!(r.implementation.receiver_type, x);
    assert_eq!(r.implementation.mode, BindingMode::ByValue);
    assert_eq!(r.adjustment, Adjustment { dereference_count: 0, then_borrow: false });
}

#[test]
fn borrowed_non_copyable_receiver_cannot_be_moved() {
    let (reg, x, _) = x_and_i32();
    let r = resolve(&reg, receiver(x, 1, false), "m");
    assert_eq!(r.unwrap_err(), EngineError::IllegalMoveOfBorrowedReceiver);
}

#[test]
fn by_value_at_depth_zero_is_probed_before_the_borrowed_pattern() {
    let mut reg = Registry::new();
    let x = reg.register_type(name("X"));
    reg.register_method(name("refm"), x, 1, BindingMode::ByReference).unwrap();
    reg.register_method(name("refm"), x, 0, BindingMode::ByValue).unwrap();
    let owned = resolve(&reg, receiver(x, 1, false), "refm");
    assert_eq!(owned.unwrap_err(), EngineError::IllegalMoveOfBorrowedReceiver);
    let copied = resolve(&reg, receiver(x, 1, true), "refm").unwrap();
    assert_eq!(copied.implementation.receiver_depth, 0);
    assert_eq!(copied.implementation.mode, BindingMode::ByValue);
    assert_eq!(copied.adjustment, Adjustment { dereference_count: 0, then_borrow: false });
}

#[test]
fn copyable_borrowed_receiver_is_duplicated() {
    let mut reg = Registry::new();
    let a = reg.register_type(name("A"));
    reg.register_method(name("m"), a, 0, BindingMode::ByValue).unwrap();
    reg.register_method(name("m"), a, 3, BindingMode::ByReference).unwrap();
    let r = resolve(&reg, receiver(a, 1, true), "m").unwrap();
    assert_eq!(r.implementation.receiver_depth, 0);
    assert_eq!(r.implementation.mode, BindingMode::ByValue);
    assert_eq!(r.adjustment, Adjustment { dereference_count: 0, then_borrow: false });
}

#[test]
fn lone_type_without_implementations_has_no_match() {
    let mut reg = Registry::new();
    let t = reg.register_type(name("T"));
    for depth in 0..3 {
        let r = resolve(&reg, receiver(t, depth, false), "m");
        assert_eq!(r.unwrap_err(), EngineError::NoMatchingMethod);
    }
}

#[test]
fn view_as_cycle_is_refused() {
    let mut reg = Registry::new();
    let p = reg.register_type(name("P"));
    let q = reg.register_type(name("Q"));
    assert_eq!(reg.register_view_as(p, q), Ok(()));
    assert_eq!(reg.register_view_as(q, p), Err(EngineError::CyclicViewChain));
    assert_eq!(reg.view_target(q), None);
    assert_eq!(reg.build_chain(q).unwrap(), vec![q]);
    assert_eq!(reg.build_chain(p).unwrap(), vec![p, q]);
}

#[test]
fn view_as_onto_itself_is_refused() {
    let mut reg = Registry::new();
    let p = reg.register_type(name("P"));
    assert_eq!(reg.register_view_as(p, p), Err(EngineError::CyclicViewChain));
}

#[test]
fn second_view_as_target_is_refused() {
    let mut reg = Registry::new();
    let p = reg.register_type(name("P"));
    let q = reg.register_type(name("Q"));
    let s = reg.register_type(name("S"));
    reg.register_view_as(p, q).unwrap();
    assert_eq!(reg.register_view_as(p, s), Err(EngineError::DuplicateViewAs));
    assert_eq!(reg.view_target(p), Some(q));
}

#[test]
fn duplicate_receiver_pattern_is_refused() {
    let mut reg = Registry::new();
    let x = reg.register_type(name("X"));
    reg.register_method(name("m"), x, 1, BindingMode::ByReference).unwrap();
    assert_eq!(
        reg.register_method(name("m"), x, 1, BindingMode::ByValue),
        Err(EngineError::DuplicateReceiverPattern)
    );
    assert_eq!(reg.register_method(name("n"), x, 1, BindingMode::ByValue), Ok(()));
    assert_eq!(reg.register_method(name("m"), x, 2, BindingMode::ByValue), Ok(()));
}

#[test]
fn registering_a_name_twice_gives_the_same_type() {
    let mut reg = Registry::new();
    let x = reg.register_type(name("X"));
    let y = reg.register_type(name("Y"));
    assert_eq!(reg.register_type(name("X")), x);
    assert_ne!(x, y);
    assert_eq!(reg.type_count(), 2);
    assert_eq!(reg.name_of(y), "Y");
}

#[test]
fn repeated_resolution_gives_the_same_result() {
    let (reg, x, _) = x_and_i32();
    for depth in 0..3 {
        for copyable in [false, true] {
            let a = resolve(&reg, receiver(x, depth, copyable), "m");
            let b = resolve(&reg, receiver(x, depth, copyable), "m");
            match (a, b) {
                (Ok(a), Ok(b)) => {
                    assert_eq!(a.adjustment, b.adjustment);
                    assert_eq!(a.implementation.method_name, b.implementation.method_name);
                    assert_eq!(a.implementation.receiver_type, b.implementation.receiver_type);
                    assert_eq!(a.implementation.receiver_depth, b.implementation.receiver_depth);
                    assert_eq!(a.implementation.mode, b.implementation.mode);
                }
                (Err(a), Err(b)) => assert_eq!(a, b),
                _ => panic!("two resolutions disagree"),
            }
        }
    }
}

/// `Z` views as `Y`, which views as `W`.
fn three_link_chain() -> (Registry, TypeHandle, TypeHandle, TypeHandle) {
    let mut reg = Registry::new();
    let z = reg.register_type(name("Z"));
    let y = reg.register_type(name("Y"));
    let w = reg.register_type(name("W"));
    reg.register_view_as(z, y).unwrap();
    reg.register_view_as(y, w).unwrap();
    (reg, z, y, w)
}

#[test]
fn earlier_by_value_beats_later_auto_ref() {
    let (mut reg, z, y, w) = three_link_chain();
    reg.register_method(name("m"), w, 1, BindingMode::ByReference).unwrap();
    reg.register_method(name("m"), y, 0, BindingMode::ByValue).unwrap();
    let r = resolve(&reg, receiver(z, 0, false), "m").unwrap();
    assert_eq!(r.implementation.receiver_type, y);
    assert_eq!(r.implementation.mode, BindingMode::ByValue);
    assert_eq!(r.adjustment, Adjustment { dereference_count: 1, then_borrow: false });
}

#[test]
fn earlier_auto_ref_beats_later_by_value() {
    let (mut reg, z, y, w) = three_link_chain();
    reg.register_method(name("m"), y, 1, BindingMode::ByReference).unwrap();
    reg.register_method(name("m"), w, 0, BindingMode::ByValue).unwrap();
    let r = resolve(&reg, receiver(z, 0, false), "m").unwrap();
    assert_eq!(r.implementation.receiver_type, y);
    assert_eq!(r.adjustment, Adjustment { dereference_count: 1, then_borrow: true });
}

#[test]
fn by_value_beats_auto_ref_at_one_position() {
    let (mut reg, z, y, _) = three_link_chain();
    reg.register_method(name("m"), y, 1, BindingMode::ByReference).unwrap();
    reg.register_method(name("m"), y, 0, BindingMode::ByValue).unwrap();
    let r = resolve(&reg, receiver(z, 0, false), "m").unwrap();
    assert_eq!(r.implementation.receiver_depth, 0);
    assert_eq!(r.implementation.mode, BindingMode::ByValue);
    assert_eq!(r.adjustment, Adjustment { dereference_count: 1, then_borrow: false });
}

#[test]
fn patterns_off_the_probes_do_not_match() {
    let (mut reg, z, y, w) = three_link_chain();
    reg.register_method(name("m"), z, 0, BindingMode::ByReference).unwrap();
    reg.register_method(name("m"), y, 1, BindingMode::ByValue).unwrap();
    reg.register_method(name("m"), w, 2, BindingMode::ByReference).unwrap();
    reg.register_method(name("n"), w, 0, BindingMode::ByValue).unwrap();
    let r = resolve(&reg, receiver(z, 0, true), "m");
    assert_eq!(r.unwrap_err(), EngineError::NoMatchingMethod);
}

#[test]
fn illegal_move_is_not_rescued_by_a_later_match() {
    let (mut reg, z, y, _) = three_link_chain();
    reg.register_method(name("m"), z, 0, BindingMode::ByValue).unwrap();
    reg.register_method(name("m"), y, 1, BindingMode::ByReference).unwrap();
    let r = resolve(&reg, receiver(z, 2, false), "m");
    assert_eq!(r.unwrap_err(), EngineError::IllegalMoveOfBorrowedReceiver);
    let copied = resolve(&reg, receiver(z, 2, true), "m").unwrap();
    assert_eq!(copied.adjustment, Adjustment { dereference_count: 0, then_borrow: false });
}

#[test]
fn illegal_move_further_down_the_chain_fails_too() {
    let (mut reg, z, _, w) = three_link_chain();
    reg.register_method(name("m"), w, 0, BindingMode::ByValue).unwrap();
    let r = resolve(&reg, receiver(z, 1, false), "m");
    assert_eq!(r.unwrap_err(), EngineError::IllegalMoveOfBorrowedReceiver);
}

#[test]
fn view_chain_reaches_a_distant_by_value_method() {
    let (mut reg, z, _, w) = three_link_chain();
    reg.register_method(name("refm"), w, 0, BindingMode::ByValue).unwrap();
    let r = resolve(&reg, receiver(z, 0, false), "refm").unwrap();
    assert_eq!(r.implementation.receiver_type, w);
    assert_eq!(r.adjustment, Adjustment { dereference_count: 2, then_borrow: false });
    assert_eq!(emit(&r), vec![ReceiverStep::Deref, ReceiverStep::Deref]);
}

#[test]
fn auto_ref_spends_the_receivers_borrows_first() {
    let (mut reg, z, y, _) = three_link_chain();
    reg.register_method(name("m"), y, 1, BindingMode::ByReference).unwrap();
    let r = resolve(&reg, receiver(z, 2, false), "m").unwrap();
    assert_eq!(r.implementation.receiver_type, y);
    assert_eq!(r.implementation.method_name, "m");
    assert_eq!(r.adjustment, Adjustment { dereference_count: 3, then_borrow: true });
    assert_eq!(
        emit(&r),
        vec![ReceiverStep::Deref, ReceiverStep::Deref, ReceiverStep::Deref, ReceiverStep::Borrow]
    );
}

#[test]
fn emit_of_a_plain_match_is_empty() {
    let (reg, x, _) = x_and_i32();
    let r = resolve(&reg, receiver(x, 0, false), "m").unwrap();
    assert_eq!(emit(&r), Vec::<ReceiverStep>::new());
}

#[test]
fn build_chain_lists_every_view() {
    let (reg, z, y, w) = three_link_chain();
    assert_eq!(reg.build_chain(z).unwrap(), vec![z, y, w]);
    assert_eq!(reg.build_chain(w).unwrap(), vec![w]);
}
