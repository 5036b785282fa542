use kernel_core::interrupts::{
    init_idt, Handler, InterruptController, DOUBLE_FAULT_IST_INDEX, KEYBOARD_INTERRUPT_ID, TIMER_INTERRUPT_ID,
};

#[test]
fn vector_table_holds_kernel_handlers() {
    let idt = init_idt();
    assert_eq!(idt.entry(3).handler, Some(Handler::Breakpoint));
    assert_eq!(idt.entry(3).stack_index, None);
    assert_eq!(idt.entry(8).handler, Some(Handler::DoubleFault));
    assert_eq!(idt.entry(8).stack_index, Some(DOUBLE_FAULT_IST_INDEX));
    assert_eq!(idt.entry(14).handler, Some(Handler::PageFault));
    assert_eq!(idt.entry(32).handler, Some(Handler::Timer));
    assert_eq!(idt.entry(33).handler, Some(Handler::Keyboard));
    for v in [0u8, 1, 2, 4, 6, 13, 34, 40, 47, 255] {
        assert_eq!(idt.entry(v).handler, None);
    }
}

#[test]
fn acknowledged_timer_ticks_keep_coming() {
    let mut pics = InterruptController::new();
    for _ in 0..10 {
        assert_eq!(pics.raise(0), Some(TIMER_INTERRUPT_ID));
        pics.notify_end_of_interrupt(TIMER_INTERRUPT_ID);
    }
    assert!(!pics.in_service(0));
}

#[test]
fn missing_acknowledgement_blocks_lower_lines() {
    let mut pics = InterruptController::new();
    assert_eq!(pics.raise(0), Some(TIMER_INTERRUPT_ID));
    assert_eq!(pics.raise(0), None);
    assert_eq!(pics.raise(1), None);
    assert_eq!(pics.raise(12), None);
    pics.notify_end_of_interrupt(TIMER_INTERRUPT_ID);
    assert_eq!(pics.raise(1), Some(KEYBOARD_INTERRUPT_ID));
    // The keyboard in service blocks itself and lower lines, not the timer.
    assert_eq!(pics.raise(1), None);
    assert_eq!(pics.raise(5), None);
    assert_eq!(pics.raise(0), Some(TIMER_INTERRUPT_ID));
    pics.notify_end_of_interrupt(TIMER_INTERRUPT_ID);
    pics.notify_end_of_interrupt(KEYBOARD_INTERRUPT_ID);
    assert_eq!(pics.raise(1), Some(KEYBOARD_INTERRUPT_ID));
}

#[test]
fn secondary_lines_need_both_acknowledged() {
    let mut pics = InterruptController::new();
    assert_eq!(pics.raise(12), Some(44));
    assert!(pics.in_service(12));
    assert!(pics.in_service(2));
    assert_eq!(pics.raise(3), None);
    assert_eq!(pics.raise(1), Some(KEYBOARD_INTERRUPT_ID));
    pics.notify_end_of_interrupt(KEYBOARD_INTERRUPT_ID);
    pics.notify_end_of_interrupt(44);
    assert!(!pics.in_service(12));
    assert!(!pics.in_service(2));
    assert_eq!(pics.raise(3), Some(35));
    // A vector outside the controllers' range changes nothing.
    pics.notify_end_of_interrupt(14);
    assert!(pics.in_service(3));
}
