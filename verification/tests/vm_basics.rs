//! Image, stack and dictionary operations exercised directly.
use miniforth::defs::error_name;
use miniforth::defs::VMError;
use miniforth::vm::VM;

fn fresh() -> VM {
    VM::new()
}

#[test]
fn new_vm_has_reserved_region_and_defaults() {
    let vm = fresh();
    assert_eq!(vm.memory.len(), 48);
    assert_eq!(vm.read_u32(0).unwrap(), 0, "LATEST starts at 0");
    assert_eq!(vm.read_u32(4).unwrap(), 10, "BASE starts at 10");
    assert_eq!(vm.read_u32(8).unwrap(), 0, "STATE starts interpreting");
    assert_eq!(vm.read_u32(12).unwrap(), 48, "HERE starts past the reserved region");
}

#[test]
fn cell_write_read_round_trip() {
    let mut vm = fresh();
    vm.write_u32(40, 0xDEAD_BEEF).unwrap();
    assert_eq!(vm.read_u32(40).unwrap(), 0xDEAD_BEEF);
    // little-endian byte order
    assert_eq!(vm.read_u8(40).unwrap(), 0xEF);
    assert_eq!(vm.read_u8(41).unwrap(), 0xBE);
    assert_eq!(vm.read_u8(42).unwrap(), 0xAD);
    assert_eq!(vm.read_u8(43).unwrap(), 0xDE);
}

#[test]
fn unaligned_cell_access_reports_unaligned() {
    let vm = fresh();
    assert!(matches!(vm.read_u32(2), Err(VMError::UnalignedAccess)));
    let mut vm = fresh();
    assert!(matches!(vm.write_u32(6, 1), Err(VMError::UnalignedAccess)));
    assert_eq!(
        error_name(&VMError::UnalignedAccess),
        "unaligned memory access"
    );
}

#[test]
fn out_of_range_read_reports_illegal_address() {
    let vm = fresh();
    assert!(matches!(vm.read_u8(48), Err(VMError::IllegalAddress)));
    assert!(matches!(vm.read_u32(48), Err(VMError::IllegalAddress)));
    assert_eq!(error_name(&VMError::IllegalAddress), "illegal address");
}

#[test]
fn write_extends_up_to_the_grow_margin() {
    // live length is 48 and the margin is 64: the last writable byte is at
    // 48 + 64 - 1 = 111, one byte beyond fails
    let mut vm = fresh();
    assert!(vm.write_u8(111, 7).is_ok());
    assert_eq!(vm.memory.len(), 112);
    assert_eq!(vm.read_u8(111).unwrap(), 7);
    let mut vm = fresh();
    assert!(matches!(vm.write_u8(112, 7), Err(VMError::IllegalAddress)));
    assert_eq!(vm.memory.len(), 48, "a failed write changes nothing");
}

#[test]
fn pops_from_empty_stacks_report_underflow() {
    let mut vm = fresh();
    assert!(matches!(vm.pop_data(), Err(VMError::DataStackUnderflow)));
    assert!(matches!(vm.pop_return(), Err(VMError::ReturnStackUnderflow)));
    assert_eq!(error_name(&VMError::DataStackUnderflow), "data stack underflow");
    assert_eq!(
        error_name(&VMError::ReturnStackUnderflow),
        "return stack underflow"
    );
}

#[test]
fn push_pop_round_trip() {
    let mut vm = fresh();
    vm.push_data(11);
    vm.push_data(22);
    assert_eq!(vm.pop_data().unwrap(), 22);
    assert_eq!(vm.pop_data().unwrap(), 11);
    vm.push_return(33);
    assert_eq!(vm.pop_return().unwrap(), 33);
}

#[test]
fn align_rounds_here_up() {
    let mut vm = fresh();
    vm.write_u32(12, 49).unwrap();
    vm.align().unwrap();
    assert_eq!(vm.read_u32(12).unwrap(), 52);
    vm.align().unwrap();
    assert_eq!(vm.read_u32(12).unwrap(), 52, "aligning twice changes nothing");
}

#[test]
fn create_then_find_returns_new_header() {
    let mut vm = fresh();
    vm.buffer_word("double");
    vm.create().unwrap();
    let header = vm.read_u32(0).unwrap();
    assert_eq!(header, 48, "first header at the aligned initial bump pointer");
    assert_eq!(vm.read_u8(header + 4).unwrap(), 6, "plain length byte");
    // looking the same name up from the scratch buffer finds the header
    vm.buffer_word("double");
    let len = vm.pop_data().unwrap();
    let addr = vm.pop_data().unwrap();
    assert_eq!(vm.find_word(addr, len as u8).unwrap(), header);
    // an unknown name yields 0
    vm.buffer_word("nothing");
    let len = vm.pop_data().unwrap();
    let addr = vm.pop_data().unwrap();
    assert_eq!(vm.find_word(addr, len as u8).unwrap(), 0);
}

#[test]
fn find_skips_hidden_and_prefers_newest() {
    let mut vm = fresh();
    vm.buffer_word("w");
    vm.create().unwrap();
    let first = vm.read_u32(0).unwrap();
    vm.buffer_word("w");
    vm.create().unwrap();
    let second = vm.read_u32(0).unwrap();
    assert!(second > first);
    vm.buffer_word("w");
    let len = vm.pop_data().unwrap();
    let addr = vm.pop_data().unwrap();
    assert_eq!(
        vm.find_word(addr, len as u8).unwrap(),
        second,
        "the most recently created header wins"
    );
    // hide the newest: the older one is found again
    vm.push_data(second);
    vm.hidden().unwrap();
    assert_eq!(vm.find_word(addr, len as u8).unwrap(), first);
    // unhide: back to the newest
    vm.push_data(second);
    vm.hidden().unwrap();
    assert_eq!(vm.find_word(addr, len as u8).unwrap(), second);
}

#[test]
fn distinct_names_stay_findable_after_more_creates() {
    let mut vm = fresh();
    let mut headers = Vec::new();
    for name in ["alpha", "beta", "gamma"] {
        vm.buffer_word(name);
        vm.create().unwrap();
        headers.push(vm.read_u32(0).unwrap());
    }
    for (name, h) in ["alpha", "beta", "gamma"].iter().zip(&headers) {
        vm.buffer_word(name);
        let len = vm.pop_data().unwrap();
        let addr = vm.pop_data().unwrap();
        assert_eq!(vm.find_word(addr, len as u8).unwrap(), *h, "{name}");
    }
}

#[test]
fn immediate_toggles_the_newest_header_bit() {
    let mut vm = fresh();
    vm.buffer_word("w");
    vm.create().unwrap();
    let header = vm.read_u32(0).unwrap();
    let before = vm.read_u8(header + 4).unwrap();
    vm.immediate().unwrap();
    assert_eq!(vm.read_u8(header + 4).unwrap(), before ^ 64);
    vm.immediate().unwrap();
    assert_eq!(
        vm.read_u8(header + 4).unwrap(),
        before,
        "two toggles restore the byte"
    );
}

#[test]
fn header_addr_to_cfa_skips_link_flags_and_name() {
    let mut vm = fresh();
    vm.buffer_word("abc");
    vm.create().unwrap();
    let header = vm.read_u32(0).unwrap();
    assert_eq!(vm.header_addr_to_cfa(header).unwrap(), header + 5 + 3);
}

#[test]
fn dispatching_an_unassigned_opcode_reports_unknown_opcode() {
    let mut vm = fresh();
    vm.write_u8(48, 200).unwrap();
    assert!(matches!(vm.exec(48), Err(VMError::UnknownOpcode)));
}

#[test]
fn name_of_31_bytes_is_accepted_and_32_truncated() {
    let mut vm = fresh();
    let long31: String = "a".repeat(31);
    vm.feed(long31.as_bytes());
    vm.feed(b" ");
    let word = vm.word();
    assert!(word.is_ok());
    let len = vm.pop_data().unwrap();
    assert_eq!(len, 31, "a 31-byte token is kept whole");
    let mut vm = fresh();
    let long32: String = "b".repeat(32);
    vm.feed(long32.as_bytes());
    vm.feed(b" ");
    vm.word().unwrap();
    let len = vm.pop_data().unwrap();
    assert_eq!(len, 31, "a 32-byte token is truncated at input time");
}
