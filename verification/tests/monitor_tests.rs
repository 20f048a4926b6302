use lib::monitor::{parse_command, parse_hex, run, tokenize, Command, KeyAction, LineEditor};
use lib::serial::format_hex64;

#[test]
fn parse_hex_accepts_plain_and_prefixed() {
    assert_eq!(parse_hex(b"40100000"), Some(0x4010_0000));
    assert_eq!(parse_hex(b"0x40100000"), Some(0x4010_0000));
    assert_eq!(parse_hex(b"0X1f"), Some(31));
    assert_eq!(parse_hex(b"DeadBeef"), Some(0xdead_beef));
    assert_eq!(parse_hex(b"0"), Some(0));
    assert_eq!(parse_hex(b"ffffffffffffffff"), Some(u64::MAX));
}

#[test]
fn parse_hex_rejects_bad_input() {
    assert_eq!(parse_hex(b""), None);
    assert_eq!(parse_hex(b"0x"), None);
    assert_eq!(parse_hex(b"0X"), None);
    assert_eq!(parse_hex(b"xyz"), None);
    assert_eq!(parse_hex(b"12g4"), None);
    assert_eq!(parse_hex(b"0x0x1"), None);
    assert_eq!(parse_hex(b" 1"), None);
}

#[test]
fn parse_hex_keeps_low_64_bits() {
    assert_eq!(parse_hex(b"10000000000000001"), Some(1));
    assert_eq!(parse_hex(b"0x1ffffffffffffffff"), Some(u64::MAX));
}

#[test]
fn printed_values_parse_back() {
    for v in [0u64, 1, 0xdead, 0x4010_0000, 0xffff_0000_dead_0000, u64::MAX] {
        assert_eq!(parse_hex(&format_hex64(v)), Some(v));
    }
}

#[test]
fn tokenize_splits_on_spaces() {
    assert_eq!(tokenize(b"peek 40100000"), vec![b"peek".to_vec(), b"40100000".to_vec()]);
    assert_eq!(tokenize(b"   poke  1   2  "), vec![b"poke".to_vec(), b"1".to_vec(), b"2".to_vec()]);
    assert_eq!(tokenize(b""), Vec::<Vec<u8>>::new());
    assert_eq!(tokenize(b"     "), Vec::<Vec<u8>>::new());
    assert_eq!(tokenize(b"a b c d e"), vec![b"a".to_vec(), b"b".to_vec(), b"c".to_vec()]);
    assert_eq!(tokenize(b"help"), vec![b"help".to_vec()]);
}

#[test]
fn commands_are_recognised() {
    assert_eq!(parse_command(b"help"), Some(Command::Help));
    assert_eq!(parse_command(b"  el "), Some(Command::ShowLevel));
    assert_eq!(parse_command(b"regs"), Some(Command::Regs));
    assert_eq!(parse_command(b"mem"), Some(Command::Mem));
    assert_eq!(parse_command(b"fault"), Some(Command::Fault));
    assert_eq!(parse_command(b"poweroff"), Some(Command::PowerOff));
    assert_eq!(parse_command(b"halt"), Some(Command::PowerOff));
    assert_eq!(parse_command(b"reboot"), Some(Command::Reboot));
    assert_eq!(parse_command(b""), None);
    assert_eq!(parse_command(b"   "), None);
    assert_eq!(parse_command(b"Help"), Some(Command::Unknown(b"Help".to_vec())));
    assert_eq!(parse_command(b"helpme now"), Some(Command::Unknown(b"helpme".to_vec())));
}

#[test]
fn peek_and_poke_arguments() {
    assert_eq!(parse_command(b"peek 0x40100000"), Some(Command::Peek(Some(0x4010_0000))));
    assert_eq!(parse_command(b"peek"), Some(Command::Peek(None)));
    assert_eq!(parse_command(b"peek zz"), Some(Command::Peek(None)));
    assert_eq!(parse_command(b"poke 40000000 ff"), Some(Command::Poke(Some((0x4000_0000, 0xff)))));
    assert_eq!(parse_command(b"poke 40000000"), Some(Command::Poke(None)));
    assert_eq!(parse_command(b"poke q 1"), Some(Command::Poke(None)));
    assert_eq!(parse_command(b"poke 1 2 3"), Some(Command::Poke(Some((1, 2)))));
}

fn feed(e: &mut LineEditor, bytes: &[u8]) -> Vec<KeyAction> {
    bytes.iter().map(|&b| run(e, b)).collect()
}

#[test]
fn typed_line_is_echoed_and_submitted() {
    let mut e = LineEditor::new();
    let acts = feed(&mut e, b"el");
    assert_eq!(acts, vec![KeyAction::Echo(b'e'), KeyAction::Echo(b'l')]);
    assert_eq!(e.line(), b"el");
    assert_eq!(run(&mut e, b'\r'), KeyAction::Submit(Some(Command::ShowLevel)));
    assert_eq!(e.line(), b"");
    feed(&mut e, b"mem");
    assert_eq!(run(&mut e, b'\n'), KeyAction::Submit(Some(Command::Mem)));
}

#[test]
fn empty_line_submits_nothing() {
    let mut e = LineEditor::new();
    assert_eq!(run(&mut e, b'\r'), KeyAction::Submit(None));
    feed(&mut e, b"   ");
    assert_eq!(run(&mut e, b'\r'), KeyAction::Submit(None));
}

#[test]
fn backspace_takes_back_last_byte() {
    let mut e = LineEditor::new();
    assert_eq!(run(&mut e, 0x7f), KeyAction::Ignore);
    assert_eq!(run(&mut e, 0x08), KeyAction::Ignore);
    feed(&mut e, b"helx");
    assert_eq!(run(&mut e, 0x7f), KeyAction::Erase);
    assert_eq!(e.line(), b"hel");
    feed(&mut e, b"q");
    assert_eq!(run(&mut e, 0x08), KeyAction::Erase);
    feed(&mut e, b"p");
    assert_eq!(run(&mut e, b'\r'), KeyAction::Submit(Some(Command::Help)));
}

#[test]
fn full_line_ignores_more_bytes() {
    let mut e = LineEditor::new();
    for _ in 0..127 {
        assert_eq!(run(&mut e, b'a'), KeyAction::Echo(b'a'));
    }
    assert_eq!(run(&mut e, b'b'), KeyAction::Ignore);
    assert_eq!(e.line().len(), 127);
    assert_eq!(run(&mut e, 0x7f), KeyAction::Erase);
    assert_eq!(run(&mut e, b'b'), KeyAction::Echo(b'b'));
    assert_eq!(e.line().len(), 127);
}

#[test]
fn tokenize_splits_on_any_ascii_whitespace() {
    assert_eq!(tokenize(b"peek\t40"), vec![b"peek".to_vec(), b"40".to_vec()]);
    assert_eq!(tokenize(b"\tpoke\x0c1 \t2"), vec![b"poke".to_vec(), b"1".to_vec(), b"2".to_vec()]);
    assert_eq!(tokenize(b"a\rb\nc"), vec![b"a".to_vec(), b"b".to_vec(), b"c".to_vec()]);
    assert_eq!(tokenize(b"x\x0by"), vec![b"x\x0by".to_vec()]);
    assert_eq!(parse_command(b"peek\t0x10"), Some(Command::Peek(Some(0x10))));
}

#[test]
fn tab_is_typed_into_the_line() {
    let mut e = LineEditor::new();
    feed(&mut e, b"peek\t20");
    assert_eq!(run(&mut e, b'\r'), KeyAction::Submit(Some(Command::Peek(Some(0x20)))));
}
