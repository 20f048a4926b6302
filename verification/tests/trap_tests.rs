use lib::trap::{ec_name, exception_class, exception_level, is_recoverable_class, TrapFrame, TrapOutcome};

fn frame(elr: u64) -> TrapFrame {
    let mut x = [0u64; 31];
    for (i, r) in x.iter_mut().enumerate() {
        *r = i as u64 * 3;
    }
    TrapFrame { x, elr, spsr: 0x3c5 }
}

#[test]
fn exception_class_is_top_six_bits() {
    assert_eq!(exception_class(0x9600_0010), 0x25);
    assert_eq!(exception_class(0x9200_0000), 0x24);
    assert_eq!(exception_class(0xf200_0000), 0x3c);
    assert_eq!(exception_class(0x5600_0000), 0x15);
    assert_eq!(exception_class(0xffff_ffff_0000_0000 | 0x8600_0000), 0x21);
    assert_eq!(exception_class(0), 0);
}

#[test]
fn exception_level_field() {
    assert_eq!(exception_level(0b0100), 1);
    assert_eq!(exception_level(0b1000), 2);
    assert_eq!(exception_level(0b1111), 3);
    assert_eq!(exception_level(0b0011), 0);
}

#[test]
fn exception_class_names() {
    assert_eq!(ec_name(0x15), "SVC (syscall)");
    assert_eq!(ec_name(0x20), "Instruction abort, lower EL");
    assert_eq!(ec_name(0x21), "Instruction abort, same EL");
    assert_eq!(ec_name(0x24), "Data abort, lower EL");
    assert_eq!(ec_name(0x25), "Data abort, same EL");
    assert_eq!(ec_name(0x3c), "BRK instruction");
    assert_eq!(ec_name(0x07), "(other)");
}

#[test]
fn understood_faults_skip_the_instruction() {
    for ec in [0x24u64, 0x25, 0x3c] {
        let mut f = frame(0x4008_0000);
        assert_eq!(f.recover(ec), TrapOutcome::Resume);
        assert_eq!(f.elr, 0x4008_0004);
        assert_eq!(f.spsr, 0x3c5);
        assert_eq!(f.x, frame(0).x);
    }
}

#[test]
fn other_faults_halt_without_change() {
    for ec in [0x15u64, 0x20, 0x21, 0x00, 0x3f] {
        let mut f = frame(0x4008_0000);
        assert_eq!(f.recover(ec), TrapOutcome::Halt);
        assert_eq!(f.elr, 0x4008_0000);
    }
}

#[test]
fn recoverable_classes() {
    assert!(is_recoverable_class(0x24));
    assert!(is_recoverable_class(0x25));
    assert!(is_recoverable_class(0x3c));
    assert!(!is_recoverable_class(0x15));
    assert!(!is_recoverable_class(0x21));
}
