//! Fixed addresses of the control cells, header flag bits, primitive opcode
//! values, and the error type shared by every part of the interpreter.
use vstd::prelude::*;

verus! {

/// Address of the cell holding the newest header address (0 if none).
pub const ADDR_LATEST: u32 = 0;

/// Address of the cell holding the numeric radix.
pub const ADDR_BASE: u32 = 4;

/// Address of the cell holding the interpret (0) / compile (nonzero) mode.
pub const ADDR_STATE: u32 = 8;

/// Address of the cell holding the bump pointer.
pub const ADDR_HERE: u32 = 12;

/// Start of the 32-byte scratch buffer for the most recently scanned word.
pub const ADDR_WORD_BUFFER: u32 = 16;

/// First free byte of a fresh image: everything below is reserved.
pub const INITIAL_HERE: u32 = 48;

/// A single write may extend the image by at most this many bytes.
pub const MAX_EXTEND: u32 = 64;

/// Bit 5 of the flags-and-length byte: the word is skipped by lookup.
pub const HIDDEN_FLAG: u8 = 32;

/// Bit 6 of the flags-and-length byte: the word runs even while compiling.
pub const IMMEDIATE_FLAG: u8 = 64;

/// Bits 0..4 of the flags-and-length byte: the name length.
pub const LENGTH_MASK: u8 = 31;

pub const OP_DO_COLON_DEF: u8 = 0;

pub const OP_DUP: u8 = 1;

pub const OP_DROP: u8 = 2;

pub const OP_SWAP: u8 = 3;

pub const OP_DEPTH: u8 = 4;

pub const OP_TO_R: u8 = 5;

pub const OP_FROM_R: u8 = 6;

pub const OP_FETCH: u8 = 7;

pub const OP_C_FETCH: u8 = 8;

pub const OP_STORE: u8 = 9;

pub const OP_C_STORE: u8 = 10;

pub const OP_ALIGN: u8 = 11;

pub const OP_ADD: u8 = 12;

pub const OP_SUBTRACT: u8 = 13;

pub const OP_MULTIPLY: u8 = 14;

pub const OP_DIV_MOD: u8 = 15;

pub const OP_EQUALS: u8 = 16;

pub const OP_LESS_THAN: u8 = 17;

pub const OP_GREATER_THAN: u8 = 18;

pub const OP_AND: u8 = 19;

pub const OP_OR: u8 = 20;

pub const OP_XOR: u8 = 21;

pub const OP_INVERT: u8 = 22;

pub const OP_LIT: u8 = 23;

pub const OP_LIT_STRING: u8 = 24;

pub const OP_KEY: u8 = 25;

pub const OP_WORD: u8 = 26;

pub const OP_EMIT: u8 = 27;

pub const OP_FIND: u8 = 28;

pub const OP_NUMBER: u8 = 29;

pub const OP_TO_CFA: u8 = 30;

pub const OP_L_BRACKET: u8 = 31;

pub const OP_R_BRACKET: u8 = 32;

pub const OP_CREATE: u8 = 33;

pub const OP_COMMA: u8 = 34;

pub const OP_C_COMMA: u8 = 35;

pub const OP_IMMEDIATE: u8 = 36;

pub const OP_HIDDEN: u8 = 37;

pub const OP_TICK: u8 = 38;

pub const OP_EXECUTE: u8 = 39;

pub const OP_BRANCH: u8 = 40;

pub const OP_BRANCH_IF_ZERO: u8 = 41;

pub const OP_EXIT: u8 = 42;

pub const OP_RESET: u8 = 43;

pub const OP_INTERPRET: u8 = 44;

pub const OP_PROMPT: u8 = 45;

/// The ways a primitive can fail. The step driver queues these and resets the
/// program counter to the entry point; the data stack is left untouched.
#[derive(Debug)]
pub enum VMError {
    IllegalAddress,
    UnknownOpcode,
    DataStackUnderflow,
    ReturnStackUnderflow,
    UnalignedAccess,
    IOError,
    UnknownWord(String),
    Terminated,
}

pub type VMResult<T> = Result<T, VMError>;

pub type VMSuccess = VMResult<()>;

/// The stable, user-visible name of each error kind.
pub fn error_name(err: &VMError) -> (r: String)
    ensures
        r@ == match err {
            VMError::IllegalAddress => "illegal address"@,
            VMError::UnknownOpcode => "unknown opcode"@,
            VMError::DataStackUnderflow => "data stack underflow"@,
            VMError::ReturnStackUnderflow => "return stack underflow"@,
            VMError::UnalignedAccess => "unaligned memory access"@,
            VMError::IOError => "i/o error"@,
            VMError::UnknownWord(s) => "unknown word "@ + s@,
            VMError::Terminated => "input terminated"@,
        },
{
    match err {
        VMError::IllegalAddress => String::from_str("illegal address"),
        VMError::UnknownOpcode => String::from_str("unknown opcode"),
        VMError::DataStackUnderflow => String::from_str("data stack underflow"),
        VMError::ReturnStackUnderflow => String::from_str("return stack underflow"),
        VMError::UnalignedAccess => String::from_str("unaligned memory access"),
        VMError::IOError => String::from_str("i/o error"),
        VMError::UnknownWord(s) => {
            let mut r = String::from_str("unknown word ");
            r.append(s.as_str());
            r
        },
        VMError::Terminated => String::from_str("input terminated"),
    }
}

/// Address arithmetic as the machine does it: the sum taken modulo 2^32.
pub open spec fn wadd(a: u32, k: int) -> u32 {
    (((a + k) % 0x1_0000_0000) as u32)
}

/// Rounding an address up to the next multiple of 4, with the sum taken
/// modulo 2^32 as every cell of the machine is.
pub open spec fn align_up(a: u32) -> u32 {
    ((((a + 3) % 0x1_0000_0000) / 4) * 4) as u32
}

/// The machine's wrapping addition is addition modulo 2^32.
pub broadcast proof fn lemma_wadd(a: u32, k: u32)
    ensures
        #[trigger] a.wrapping_add(k) == wadd(a, k as int),
{
    let s = a + k;
    if s <= u32::MAX {
        vstd::arithmetic::div_mod::lemma_small_mod(s as nat, 0x1_0000_0000);
    } else {
        vstd::arithmetic::div_mod::lemma_mod_multiples_vanish(1, s - 0x1_0000_0000, 0x1_0000_0000);
        vstd::arithmetic::div_mod::lemma_small_mod((s - 0x1_0000_0000) as nat, 0x1_0000_0000);
    }
}

/// The machine's wrapping subtraction is subtraction modulo 2^32.
pub broadcast proof fn lemma_wsub(a: u32, k: u32)
    ensures
        #[trigger] a.wrapping_sub(k) == wadd(a, -(k as int)),
{
    if a >= k {
        vstd::arithmetic::div_mod::lemma_small_mod((a - k) as nat, 0x1_0000_0000);
    } else {
        vstd::arithmetic::div_mod::lemma_mod_multiples_vanish(1, a - k, 0x1_0000_0000);
        vstd::arithmetic::div_mod::lemma_small_mod((a - k + 0x1_0000_0000) as nat, 0x1_0000_0000);
    }
}

/// Rounding up lands on a 4-byte boundary, never moves down, and moves by
/// less than a cell, as long as the sum does not wrap.
pub proof fn lemma_align_up(a: u32)
    ensures
        align_up(a) % 4 == 0,
        a % 4 == 0 ==> align_up(a) == a,
        a <= 0xFFFF_FFFC ==> a <= align_up(a) < a + 4,
{
    let k = (a + 3) % 0x1_0000_0000;
    vstd::arithmetic::div_mod::lemma_mod_multiples_basic(k / 4, 4);
    vstd::arithmetic::div_mod::lemma_fundamental_div_mod(k, 4);
}

/// Round an address up to the next 4-byte boundary.
pub fn align_addr(addr: u32) -> (r: u32)
    ensures
        r == align_up(addr),
{
    addr.wrapping_add(3) / 4 * 4
}

/// The numeric value a character stands for: `0`..`9` give 0..9 and any other
/// character gives its distance from `a` plus 10, modulo 2^32.
pub open spec fn spec_digit_val(c: char) -> u32 {
    if '0' <= c && c <= '9' {
        (c as u32 - '0' as u32) as u32
    } else {
        ((c as int - 'a' as int + 10) % 0x1_0000_0000) as u32
    }
}

/// The numeric value of one digit character under any base.
pub fn digit_val(digit: char) -> (r: u32)
    ensures
        r == spec_digit_val(digit),
{
    if digit >= '0' && digit <= '9' {
        return (digit as u32).wrapping_sub('0' as u32);
    }
    (digit as u32).wrapping_sub('a' as u32).wrapping_add(10)
}

} // verus!
