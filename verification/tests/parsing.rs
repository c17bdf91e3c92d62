//! The number parser, tokenizer helpers and error names on their own.
use miniforth::defs::align_addr;
use miniforth::defs::digit_val;
use miniforth::defs::error_name;
use miniforth::defs::VMError;
use miniforth::io::str_to_bytes;
use miniforth::vm::VM;

#[test]
fn align_addr_rounds_to_cells() {
    assert_eq!(align_addr(48), 48);
    assert_eq!(align_addr(49), 52);
    assert_eq!(align_addr(50), 52);
    assert_eq!(align_addr(51), 52);
    assert_eq!(align_addr(52), 52);
}

#[test]
fn digit_values_follow_ascii() {
    assert_eq!(digit_val('0'), 0);
    assert_eq!(digit_val('7'), 7);
    assert_eq!(digit_val('9'), 9);
    assert_eq!(digit_val('a'), 10);
    assert_eq!(digit_val('f'), 15);
    assert_eq!(digit_val('z'), 35);
}

#[test]
fn str_to_bytes_keeps_ascii_only() {
    assert_eq!(str_to_bytes("dup"), b"dup");
    assert_eq!(str_to_bytes(""), b"");
    assert_eq!(str_to_bytes("a\u{00e9}b"), b"ab", "non-ASCII is dropped");
}

#[test]
fn error_name_carries_the_unknown_token() {
    assert_eq!(
        error_name(&VMError::UnknownWord(String::from("xyz"))),
        "unknown word xyz"
    );
    assert_eq!(error_name(&VMError::UnknownOpcode), "unknown opcode");
    assert_eq!(error_name(&VMError::IOError), "i/o error");
    assert_eq!(error_name(&VMError::Terminated), "input terminated");
}

fn vm_with_token(token: &str) -> (VM, u32, u32) {
    let mut vm = VM::new();
    vm.buffer_word(token);
    let len = vm.pop_data().unwrap();
    let addr = vm.pop_data().unwrap();
    (vm, addr, len)
}

#[test]
fn parse_number_reads_decimal() {
    let (vm, addr, len) = vm_with_token("1234");
    assert_eq!(vm.parse_number(addr, len).unwrap(), (1234, 0));
}

#[test]
fn parse_number_respects_the_base() {
    let (mut vm, addr, len) = vm_with_token("ff");
    vm.write_u32(4, 16).unwrap();
    assert_eq!(vm.parse_number(addr, len).unwrap(), (255, 0));
    // under base 10 the same token consumes no characters
    vm.write_u32(4, 10).unwrap();
    assert_eq!(vm.parse_number(addr, len).unwrap(), (0, 2));
}

#[test]
fn parse_number_handles_signs() {
    let (vm, addr, len) = vm_with_token("-42");
    assert_eq!(vm.parse_number(addr, len).unwrap(), (42u32.wrapping_neg(), 0));
    let (vm, addr, len) = vm_with_token("-");
    let r = vm.parse_number(addr, len).unwrap();
    assert_eq!(r, (0, 1), "a lone minus consumes nothing");
}

#[test]
fn parse_number_stops_at_the_first_bad_digit() {
    let (vm, addr, len) = vm_with_token("12x4");
    assert_eq!(vm.parse_number(addr, len).unwrap(), (12, 2));
}

#[test]
fn parse_number_wraps_large_values() {
    let (vm, addr, len) = vm_with_token("4294967296");
    assert_eq!(vm.parse_number(addr, len).unwrap(), (0, 0), "2^32 wraps to 0");
}

#[test]
fn number_round_trip_in_every_base() {
    // formatting n under base b and parsing it back recovers n
    for b in 2u32..=36 {
        for &n in &[0u32, 1, 5, 255, 4096, 0xDEAD_BEEF, u32::MAX] {
            let digits = format_digits(n, b);
            let mut vm = VM::new();
            vm.write_u32(4, b).unwrap();
            vm.buffer_word(&digits);
            let len = vm.pop_data().unwrap();
            let addr = vm.pop_data().unwrap();
            assert_eq!(
                vm.parse_number(addr, len).unwrap(),
                (n, 0),
                "base {b}, value {n}"
            );
        }
    }
}

#[test]
fn negative_round_trip_recovers_twos_complement() {
    for b in 2u32..=36 {
        for &n in &[-1i32, -5, -255, i32::MIN + 1, i32::MIN] {
            let digits = format!("-{}", format_digits(n.unsigned_abs(), b));
            if digits.len() > 32 {
                // the scratch buffer holds 32 bytes; longer tokens are
                // truncated before parsing
                continue;
            }
            let mut vm = VM::new();
            vm.write_u32(4, b).unwrap();
            vm.buffer_word(&digits);
            let len = vm.pop_data().unwrap();
            let addr = vm.pop_data().unwrap();
            assert_eq!(
                vm.parse_number(addr, len).unwrap(),
                (n as u32, 0),
                "base {b}, value {n}"
            );
        }
    }
}

fn format_digits(mut n: u32, b: u32) -> String {
    let mut out = Vec::new();
    loop {
        let d = n % b;
        out.push(if d < 10 {
            (b'0' + d as u8) as char
        } else {
            (b'a' + (d - 10) as u8) as char
        });
        n /= b;
        if n == 0 {
            break;
        }
    }
    out.iter().rev().collect()
}
