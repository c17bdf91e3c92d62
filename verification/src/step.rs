//! The inner interpreter: dispatch on the one-byte opcode at an execution
//! token, and the outer `interpret` opcode that reads a token, looks it up,
//! and executes, compiles, or parses a number. `exec_step` is the machine's
//! transition relation: it says exactly how one dispatch transforms the
//! state, with a fuel bound on the chained dispatches that `execute` and
//! `interpret` perform.
use vstd::prelude::*;

use crate::cells::le32_at;
use crate::cells::store32;
use crate::cells::store8;
use crate::defs::align_addr;
use crate::defs::align_up;
use crate::defs::lemma_wadd;
use crate::defs::lemma_wsub;
use crate::defs::wadd;
use crate::defs::error_name;
use crate::defs::ADDR_STATE;
use crate::defs::VMError;
use crate::defs::VMSuccess;
use crate::dict::cfa_spec;
use crate::dict::create_spec;
use crate::dict::find_spec;
use crate::dict::toggle_flag;
use crate::image::w32h;
use crate::image::w8h;
use crate::io::input_byte_spec;
use crate::io::prompted;
use crate::io::is_ws_spec;
use crate::io::scan_rec;
use crate::number::parse_spec;
use crate::vm::here_of;
use crate::vm::latest_of;
use crate::vm::state_of;
use crate::vm::VMView;
use crate::vm::VM;

verus! {

broadcast use lemma_wadd, lemma_wsub;

/// The state with the top data cell popped.
pub open spec fn dpop(v: VMView) -> VMView {
    VMView { data: v.data.drop_last(), ..v }
}

/// The state with one cell pushed onto the data stack.
pub open spec fn dpush(v: VMView, x: u32) -> VMView {
    VMView { data: v.data.push(x), ..v }
}

/// The state with another image.
pub open spec fn with_mem(v: VMView, m: Seq<u8>) -> VMView {
    VMView { mem: m, ..v }
}

/// A 32-bit cell read as a signed two's-complement value.
pub open spec fn as_signed(x: u32) -> int {
    if x < 0x8000_0000 {
        x as int
    } else {
        x - 0x1_0000_0000
    }
}

/// Casting a cell to `i32` reads it as two's complement.
pub proof fn lemma_as_signed(x: u32)
    ensures
        (x as i32) as int == as_signed(x),
{
    assert((x as i32) as int == if x < 0x8000_0000 {
        x as int
    } else {
        x - 0x1_0000_0000
    }) by (bit_vector);
}

/// What a two-operand primitive pushes, computed from `a op b` where `b`
/// was on top. Arithmetic wraps modulo 2^32; `/mod` pushes the remainder
/// and then the quotient, and a zero divisor leaves the dividend as the
/// remainder with quotient 0; comparisons push 1 or 0, `<` and `>` signed.
pub open spec fn binop_values(op: u8, a: u32, b: u32) -> Seq<u32> {
    if op == 12 {
        seq![wadd(a, b as int)]
    } else if op == 13 {
        seq![wadd(a, -(b as int))]
    } else if op == 14 {
        seq![(((a as int) * (b as int)) % 0x1_0000_0000) as u32]
    } else if op == 15 {
        if b == 0 {
            seq![a, 0u32]
        } else {
            seq![(a % b) as u32, (a / b) as u32]
        }
    } else if op == 16 {
        seq![
            if a == b {
                1u32
            } else {
                0u32
            },
        ]
    } else if op == 17 {
        seq![
            if as_signed(a) < as_signed(b) {
                1u32
            } else {
                0u32
            },
        ]
    } else if op == 18 {
        seq![
            if as_signed(a) > as_signed(b) {
                1u32
            } else {
                0u32
            },
        ]
    } else if op == 19 {
        seq![a & b]
    } else if op == 20 {
        seq![a | b]
    } else {
        seq![a ^ b]
    }
}

/// The characters of the token sitting in the scratch buffer.
pub open spec fn token_chars(m: Seq<u8>, len: u32) -> Seq<char> {
    Seq::new(len as nat, |j: int| m[16 + j] as char)
}

/// The effect of one stack, fetch or store primitive (opcodes 0 to 11).
pub open spec fn core_post(pre: VMView, post: VMView, xt: u32, op: u8, r: VMSuccess) -> bool {
    if op == 0 {
        // enter a colon definition: save pc, continue at the aligned body
        post == (VMView { ret: pre.ret.push(pre.pc), pc: align_up(wadd(xt, 1)), ..pre }) && r
            == VMSuccess::Ok(())
    } else if op == 1 {
        // dup
        if pre.data.len() == 0 {
            post == pre && r == VMSuccess::Err(VMError::DataStackUnderflow)
        } else {
            post == dpush(dpush(dpop(pre), pre.data.last()), pre.data.last()) && r
                == VMSuccess::Ok(())
        }
    } else if op == 2 {
        // drop
        if pre.data.len() == 0 {
            post == pre && r == VMSuccess::Err(VMError::DataStackUnderflow)
        } else {
            post == dpop(pre) && r == VMSuccess::Ok(())
        }
    } else if op == 3 {
        // swap
        if pre.data.len() == 0 {
            post == pre && r == VMSuccess::Err(VMError::DataStackUnderflow)
        } else if pre.data.len() == 1 {
            post == dpop(pre) && r == VMSuccess::Err(VMError::DataStackUnderflow)
        } else {
            post == dpush(
                dpush(dpop(dpop(pre)), pre.data.last()),
                pre.data[pre.data.len() - 2],
            ) && r == VMSuccess::Ok(())
        }
    } else if op == 4 {
        // depth
        post == dpush(pre, (pre.data.len() % 0x1_0000_0000) as u32) && r == VMSuccess::Ok(())
    } else if op == 5 {
        // >r
        if pre.data.len() == 0 {
            post == pre && r == VMSuccess::Err(VMError::DataStackUnderflow)
        } else {
            post == (VMView {
                data: pre.data.drop_last(),
                ret: pre.ret.push(pre.data.last()),
                ..pre
            }) && r == VMSuccess::Ok(())
        }
    } else if op == 6 {
        // r>
        if pre.ret.len() == 0 {
            post == pre && r == VMSuccess::Err(VMError::ReturnStackUnderflow)
        } else {
            post == (VMView {
                ret: pre.ret.drop_last(),
                data: pre.data.push(pre.ret.last()),
                ..pre
            }) && r == VMSuccess::Ok(())
        }
    } else if op == 7 {
        // @
        if pre.data.len() == 0 {
            post == pre && r == VMSuccess::Err(VMError::DataStackUnderflow)
        } else {
            let a = pre.data.last();
            if a % 4 != 0 {
                post == dpop(pre) && r == VMSuccess::Err(VMError::UnalignedAccess)
            } else if a + 4 > pre.mem.len() {
                post == dpop(pre) && r == VMSuccess::Err(VMError::IllegalAddress)
            } else {
                post == dpush(dpop(pre), le32_at(pre.mem, a as int)) && r == VMSuccess::Ok(())
            }
        }
    } else if op == 8 {
        // c@
        if pre.data.len() == 0 {
            post == pre && r == VMSuccess::Err(VMError::DataStackUnderflow)
        } else {
            let a = pre.data.last();
            if a >= pre.mem.len() {
                post == dpop(pre) && r == VMSuccess::Err(VMError::IllegalAddress)
            } else {
                post == dpush(dpop(pre), pre.mem[a as int] as u32) && r == VMSuccess::Ok(())
            }
        }
    } else if op == 9 {
        // !
        if pre.data.len() == 0 {
            post == pre && r == VMSuccess::Err(VMError::DataStackUnderflow)
        } else if pre.data.len() == 1 {
            post == dpop(pre) && r == VMSuccess::Err(VMError::DataStackUnderflow)
        } else {
            let a = pre.data.last();
            let val = pre.data[pre.data.len() - 2];
            let v2 = dpop(dpop(pre));
            if a % 4 != 0 {
                post == v2 && r == VMSuccess::Err(VMError::UnalignedAccess)
            } else if a + 4 > pre.mem.len() + 64 {
                post == v2 && r == VMSuccess::Err(VMError::IllegalAddress)
            } else {
                post == with_mem(v2, store32(pre.mem, a as int, val)) && r == VMSuccess::Ok(())
            }
        }
    } else if op == 10 {
        // c!
        if pre.data.len() == 0 {
            post == pre && r == VMSuccess::Err(VMError::DataStackUnderflow)
        } else if pre.data.len() == 1 {
            post == dpop(pre) && r == VMSuccess::Err(VMError::DataStackUnderflow)
        } else {
            let a = pre.data.last();
            let val = pre.data[pre.data.len() - 2];
            let v2 = dpop(dpop(pre));
            if a + 1 > pre.mem.len() + 64 {
                post == v2 && r == VMSuccess::Err(VMError::IllegalAddress)
            } else {
                post == with_mem(v2, store8(pre.mem, a as int, (val % 256) as u8)) && r
                    == VMSuccess::Ok(())
            }
        }
    } else if op == 11 {
        // align
        post == with_mem(pre, store32(pre.mem, 12, align_up(here_of(pre.mem)))) && r
            == VMSuccess::Ok(())
    } else {
        false
    }
}

/// The effect of a two-operand primitive or `invert` (opcodes 12 to 22).
pub open spec fn binop_post(pre: VMView, post: VMView, op: u8, r: VMSuccess) -> bool {
    if op == 22 {
        // invert
        if pre.data.len() == 0 {
            post == pre && r == VMSuccess::Err(VMError::DataStackUnderflow)
        } else {
            post == dpush(dpop(pre), !pre.data.last()) && r == VMSuccess::Ok(())
        }
    } else {
        // two-operand arithmetic, logic and comparison
        if pre.data.len() == 0 {
            post == pre && r == VMSuccess::Err(VMError::DataStackUnderflow)
        } else if pre.data.len() == 1 {
            post == dpop(pre) && r == VMSuccess::Err(VMError::DataStackUnderflow)
        } else {
            post == (VMView {
                data: pre.data.drop_last().drop_last() + binop_values(
                    op,
                    pre.data[pre.data.len() - 2],
                    pre.data.last(),
                ),
                ..pre
            }) && r == VMSuccess::Ok(())
        }
    }
}

/// The effect of a primitive that moves the program counter or reads inline cells.
pub open spec fn pcops_post(pre: VMView, post: VMView, xt: u32, op: u8, r: VMSuccess) -> bool {
    if op == 23 {
        // lit
        if pre.pc % 4 != 0 {
            post == pre && r == VMSuccess::Err(VMError::UnalignedAccess)
        } else if pre.pc + 4 > pre.mem.len() {
            post == pre && r == VMSuccess::Err(VMError::IllegalAddress)
        } else {
            post == (VMView {
                data: pre.data.push(le32_at(pre.mem, pre.pc as int)),
                pc: wadd(pre.pc, 4),
                ..pre
            }) && r == VMSuccess::Ok(())
        }
    } else if op == 24 {
        // litstring
        if pre.pc % 4 != 0 {
            post == pre && r == VMSuccess::Err(VMError::UnalignedAccess)
        } else if pre.pc + 4 > pre.mem.len() {
            post == pre && r == VMSuccess::Err(VMError::IllegalAddress)
        } else {
            let sl = le32_at(pre.mem, pre.pc as int);
            let body = wadd(pre.pc, 4);
            post == (VMView {
                data: pre.data.push(body).push(sl),
                pc: align_up(wadd(body, sl as int)),
                ..pre
            }) && r == VMSuccess::Ok(())
        }
    } else if op == 38 {
        // the tick-literal primitive: push the next inline token
        if pre.pc % 4 != 0 {
            post == pre && r == VMSuccess::Err(VMError::UnalignedAccess)
        } else if pre.pc + 4 > pre.mem.len() {
            post == pre && r == VMSuccess::Err(VMError::IllegalAddress)
        } else {
            post == (VMView {
                data: pre.data.push(le32_at(pre.mem, pre.pc as int)),
                pc: wadd(pre.pc, 4),
                ..pre
            }) && r == VMSuccess::Ok(())
        }
    } else if op == 40 {
        // branch: the offset is relative to its own slot
        if pre.pc % 4 != 0 {
            post == pre && r == VMSuccess::Err(VMError::UnalignedAccess)
        } else if pre.pc + 4 > pre.mem.len() {
            post == pre && r == VMSuccess::Err(VMError::IllegalAddress)
        } else {
            post == (VMView {
                pc: wadd(wadd(pre.pc, -4), le32_at(pre.mem, pre.pc as int) as int),
                ..pre
            }) && r == VMSuccess::Ok(())
        }
    } else if op == 41 {
        // 0branch
        if pre.data.len() == 0 {
            post == pre && r == VMSuccess::Err(VMError::DataStackUnderflow)
        } else {
            let v2 = dpop(pre);
            if pre.pc % 4 != 0 {
                post == v2 && r == VMSuccess::Err(VMError::UnalignedAccess)
            } else if pre.pc + 4 > pre.mem.len() {
                post == v2 && r == VMSuccess::Err(VMError::IllegalAddress)
            } else if pre.data.last() == 0 {
                post == (VMView {
                    pc: wadd(wadd(pre.pc, -4), le32_at(pre.mem, pre.pc as int) as int),
                    ..v2
                }) && r == VMSuccess::Ok(())
            } else {
                post == (VMView { pc: wadd(pre.pc, 4), ..v2 }) && r == VMSuccess::Ok(())
            }
        }
    } else if op == 42 {
        // exit
        if pre.ret.len() == 0 {
            post == pre && r == VMSuccess::Err(VMError::ReturnStackUnderflow)
        } else {
            post == (VMView { ret: pre.ret.drop_last(), pc: pre.ret.last(), ..pre }) && r
                == VMSuccess::Ok(())
        }
    } else if op == 43 {
        // reset
        post == (VMView { ret: Seq::<u32>::empty(), ..pre }) && r == VMSuccess::Ok(())
    } else {
        false
    }
}

/// The effect of an input or output primitive.
pub open spec fn ioops_post(pre: VMView, post: VMView, xt: u32, op: u8, r: VMSuccess) -> bool {
    if op == 25 {
        // key
        let step = input_byte_spec(pre);
        match step.1 {
            Err(e) => post == step.0 && r == VMSuccess::Err(e),
            Ok(b) => post == dpush(step.0, b as u32) && r == VMSuccess::Ok(()),
        }
    } else if op == 26 {
        // word
        let sc = scan_rec(pre, 0);
        match sc.1 {
            Err(e) => post == sc.0 && r == VMSuccess::Err(e),
            Ok(i) => post == dpush(dpush(sc.0, 16), i) && r == VMSuccess::Ok(()),
        }
    } else if op == 27 {
        // emit
        if pre.data.len() == 0 {
            post == pre && r == VMSuccess::Err(VMError::DataStackUnderflow)
        } else {
            post == (VMView {
                data: pre.data.drop_last(),
                output: pre.output.push((pre.data.last() % 256) as u8),
                ..pre
            }) && r == VMSuccess::Ok(())
        }
    } else if op == 45 {
        // prompt
        post == prompted(pre) && r == VMSuccess::Ok(())
    } else {
        false
    }
}

/// The effect of a dictionary or mode primitive (opcodes 28 to 37).
pub open spec fn dict_post(pre: VMView, post: VMView, xt: u32, op: u8, r: VMSuccess) -> bool {
    if op == 28 {
        // find
        if pre.data.len() == 0 {
            post == pre && r == VMSuccess::Err(VMError::DataStackUnderflow)
        } else if pre.data.len() == 1 {
            post == dpop(pre) && r == VMSuccess::Err(VMError::DataStackUnderflow)
        } else {
            let len = (pre.data.last() % 256) as u8;
            let a = pre.data[pre.data.len() - 2];
            match find_spec(pre.mem, a, len) {
                Ok(h) => post == dpush(dpop(dpop(pre)), h) && r == VMSuccess::Ok(()),
                Err(e) => post == dpop(dpop(pre)) && r == VMSuccess::Err(e),
            }
        }
    } else if op == 29 {
        // number
        if pre.data.len() == 0 {
            post == pre && r == VMSuccess::Err(VMError::DataStackUnderflow)
        } else if pre.data.len() == 1 {
            post == dpop(pre) && r == VMSuccess::Err(VMError::DataStackUnderflow)
        } else {
            let len = pre.data.last();
            let a = pre.data[pre.data.len() - 2];
            match parse_spec(pre.mem, a, len) {
                Ok(pv) => post == dpush(dpush(dpop(dpop(pre)), pv.0), pv.1) && r
                    == VMSuccess::Ok(()),
                Err(e) => post == dpop(dpop(pre)) && r == VMSuccess::Err(e),
            }
        }
    } else if op == 30 {
        // >cfa
        if pre.data.len() == 0 {
            post == pre && r == VMSuccess::Err(VMError::DataStackUnderflow)
        } else {
            match cfa_spec(pre.mem, pre.data.last()) {
                Ok(c) => post == dpush(dpop(pre), c) && r == VMSuccess::Ok(()),
                Err(e) => post == dpop(pre) && r == VMSuccess::Err(e),
            }
        }
    } else if op == 31 {
        // [
        post == with_mem(pre, store32(pre.mem, 8, 0)) && r == VMSuccess::Ok(())
    } else if op == 32 {
        // ]
        post == with_mem(pre, store32(pre.mem, 8, 1)) && r == VMSuccess::Ok(())
    } else if op == 33 {
        // create
        let c = create_spec(pre.mem, pre.data);
        post == (VMView { mem: c.0, data: c.1, ..pre }) && r == c.2
    } else if op == 34 {
        // ,
        if pre.data.len() == 0 {
            post == pre && r == VMSuccess::Err(VMError::DataStackUnderflow)
        } else {
            let w = w32h(pre.mem, pre.data.last());
            post == with_mem(dpop(pre), w.0) && r == w.1
        }
    } else if op == 35 {
        // c,
        if pre.data.len() == 0 {
            post == pre && r == VMSuccess::Err(VMError::DataStackUnderflow)
        } else {
            let w = w8h(pre.mem, (pre.data.last() % 256) as u8);
            post == with_mem(dpop(pre), w.0) && r == w.1
        }
    } else if op == 36 {
        // immediate
        if latest_of(pre.mem) + 4 >= pre.mem.len() {
            post == pre && r == VMSuccess::Err(VMError::IllegalAddress)
        } else {
            post == with_mem(pre, toggle_flag(pre.mem, latest_of(pre.mem), 64)) && r
                == VMSuccess::Ok(())
        }
    } else if op == 37 {
        // hidden
        if pre.data.len() == 0 {
            post == pre && r == VMSuccess::Err(VMError::DataStackUnderflow)
        } else {
            let h = pre.data.last();
            if h + 4 >= pre.mem.len() {
                post == dpop(pre) && r == VMSuccess::Err(VMError::IllegalAddress)
            } else {
                post == with_mem(dpop(pre), toggle_flag(pre.mem, h, 32)) && r == VMSuccess::Ok(
                    (),
                )
            }
        }
    } else {
        false
    }
}

/// The transition relation of one dispatch at the execution token `xt`:
/// read the opcode byte there and perform that primitive. `fuel` bounds
/// the dispatches chained through `execute` and through `interpret`'s
/// execution of a found word.
pub open spec fn exec_step(pre: VMView, post: VMView, xt: u32, r: VMSuccess, fuel: nat) -> bool
    decreases fuel, 1int,
{
    if xt >= pre.mem.len() {
        post == pre && r == VMSuccess::Err(VMError::IllegalAddress)
    } else {
        let op = pre.mem[xt as int];
        if op <= 11 {
            core_post(pre, post, xt, op, r)
        } else if 12 <= op <= 22 {
            binop_post(pre, post, op, r)
        } else if op == 23 || op == 24 || op == 38 || op == 40 || op == 41 || op == 42 || op == 43 {
            pcops_post(pre, post, xt, op, r)
        } else if op == 25 || op == 26 || op == 27 || op == 45 {
            ioops_post(pre, post, xt, op, r)
        } else if 28 <= op <= 37 {
            dict_post(pre, post, xt, op, r)
        } else if op == 39 {
            // execute
            if pre.data.len() == 0 {
                post == pre && r == VMSuccess::Err(VMError::DataStackUnderflow)
            } else {
                fuel > 0 && exec_step(dpop(pre), post, pre.data.last(), r, (fuel - 1) as nat)
            }
        } else if op == 44 {
            // interpret
            interpret_step(pre, post, r, fuel)
        } else {
            post == pre && r == VMSuccess::Err(VMError::UnknownOpcode)
        }
    }
}

/// Scanning a token only advances the input cursor and writes the scratch
/// buffer: input, stacks and the rest of the machine are untouched, a
/// successful scan consumes at least one byte, and a token never exceeds
/// 31 bytes.
pub proof fn lemma_scan_effects(v: VMView, i: u32)
    requires
        i <= 31,
    ensures
        scan_rec(v, i).0.input == v.input,
        scan_rec(v, i).0.pos >= v.pos,
        scan_rec(v, i).1 is Ok ==> scan_rec(v, i).0.pos > v.pos,
        scan_rec(v, i).0.data == v.data,
        scan_rec(v, i).0.ret == v.ret,
        scan_rec(v, i).0.lit == v.lit,
        scan_rec(v, i).1 matches Ok(n) ==> i <= n <= 31,
    decreases v.input.len() - v.pos,
{
    let step = input_byte_spec(v);
    match step.1 {
        Err(e) => {},
        Ok(b) => {
            if is_ws_spec(b) {
                if i > 0 {
                } else {
                    lemma_scan_effects(step.0, i);
                }
            } else {
                if i < 31 {
                    lemma_scan_effects(
                        (VMView { mem: store8(step.0.mem, 16 + i, b), ..step.0 }),
                        (i + 1) as u32,
                    );
                } else {
                    lemma_scan_effects(step.0, i);
                }
            }
        },
    }
}

/// The outer interpreter's transition: read a token; a known word is
/// executed (or compiled, unless immediate, while compiling); otherwise
/// the token is parsed as a number and pushed or compiled as a literal; a
/// token that is neither is reported as an unknown word.
pub open spec fn interpret_step(pre: VMView, post: VMView, r: VMSuccess, fuel: nat) -> bool
    decreases fuel, 0int,
{
    let compiling = state_of(pre.mem) != 0;
    let sc = scan_rec(pre, 0);
    match sc.1 {
        Err(e) => post == sc.0 && r == VMSuccess::Err(e),
        Ok(len) => {
            let v1 = sc.0;
            match find_spec(v1.mem, 16, (len % 256) as u8) {
                Err(e) => post == v1 && r == VMSuccess::Err(e),
                Ok(h) => {
                    if h > 0 {
                        if h + 4 >= v1.mem.len() {
                            post == v1 && r == VMSuccess::Err(VMError::IllegalAddress)
                        } else {
                            let imm = (v1.mem[h + 4] & 64) != 0;
                            match cfa_spec(v1.mem, h) {
                                Err(e) => post == v1 && r == VMSuccess::Err(e),
                                Ok(xt2) => {
                                    if compiling && !imm {
                                        let w = w32h(v1.mem, xt2);
                                        post == with_mem(v1, w.0) && r == w.1
                                    } else {
                                        fuel > 0 && exec_step(v1, post, xt2, r, (fuel - 1) as nat)
                                    }
                                },
                            }
                        }
                    } else {
                        match parse_spec(v1.mem, 16, len) {
                            Err(e) => post == v1 && r == VMSuccess::Err(e),
                            Ok(pv) => {
                                if pv.1 == 0 {
                                    if compiling {
                                        let w1 = w32h(v1.mem, pre.lit);
                                        match w1.1 {
                                            Err(e) => post == with_mem(v1, w1.0) && r
                                                == VMSuccess::Err(e),
                                            Ok(u) => {
                                                let w2 = w32h(w1.0, pv.0);
                                                post == with_mem(v1, w2.0) && r == w2.1
                                            },
                                        }
                                    } else {
                                        post == dpush(v1, pv.0) && r == VMSuccess::Ok(())
                                    }
                                } else {
                                    post == v1 && (match r {
                                        Err(VMError::UnknownWord(t)) => t@ == token_chars(
                                            v1.mem,
                                            len,
                                        ),
                                        _ => false,
                                    })
                                }
                            },
                        }
                    }
                },
            }
        },
    }
}

/// Relies on char::to_string: the string holding exactly that character.
#[verifier::external_body]
fn char_to_text(c: char) -> (r: String)
    ensures
        r@ == seq![c],
{
    c.to_string()
}

impl VM {
    /// The token in the scratch buffer as text, for an unknown-word report.
    fn token_string(&self, len: u32) -> (s: String)
        requires
            self.wf(),
            len <= 31,
        ensures
            s@ == token_chars(self@.mem, len),
    {
        let mut s = String::new();
        let mut j: u32 = 0;
        while j < len
            invariant
                self.wf(),
                j <= len,
                len <= 31,
                s@ == token_chars(self@.mem, j),
            decreases len - j,
        {
            let b = self.memory[(16 + j) as usize];
            let piece = char_to_text(b as char);
            s.append(piece.as_str());
            j = j + 1;
            proof {
                assert(s@ =~= token_chars(self@.mem, j));
            }
        }
        s
    }

    /// One non-chaining primitive of the stack-and-memory group.
    #[verifier::rlimit(100)]
    fn step_core(&mut self, cur: u32, op: u8) -> (r: VMSuccess)
        requires
            old(self).wf(),
            cur < old(self)@.mem.len(),
            op == old(self)@.mem[cur as int],
            op <= 11,
        ensures
            final(self).wf(),
            core_post(old(self)@, final(self)@, cur, op, r),
    {
            if op == 0 {
                let pc0 = self.pc;
                self.push_return(pc0);
                self.pc = align_addr(cur.wrapping_add(1));
                proof {
                    assert(core_post(old(self)@, self@, cur, op, VMSuccess::Ok(())));
                }
                return Ok(());
            } else if op == 1 {
                let a = match self.pop_data() {
                    Ok(v) => v,
                    Err(e) => {
                        proof {
                            assert(core_post(old(self)@, self@, cur, op, VMSuccess::Err(e)));
                        }
                        return Err(e);
                    },
                };
                self.push_data(a);
                self.push_data(a);
                proof {
                    assert(core_post(old(self)@, self@, cur, op, VMSuccess::Ok(())));
                }
                return Ok(());
            } else if op == 2 {
                match self.pop_data() {
                    Ok(v) => v,
                    Err(e) => {
                        proof {
                            assert(core_post(old(self)@, self@, cur, op, VMSuccess::Err(e)));
                        }
                        return Err(e);
                    },
                };
                proof {
                    assert(core_post(old(self)@, self@, cur, op, VMSuccess::Ok(())));
                }
                return Ok(());
            } else if op == 3 {
                let a = match self.pop_data() {
                    Ok(v) => v,
                    Err(e) => {
                        proof {
                            assert(core_post(old(self)@, self@, cur, op, VMSuccess::Err(e)));
                        }
                        return Err(e);
                    },
                };
                let b = match self.pop_data() {
                    Ok(v) => v,
                    Err(e) => {
                        proof {
                            assert(core_post(old(self)@, self@, cur, op, VMSuccess::Err(e)));
                        }
                        return Err(e);
                    },
                };
                self.push_data(a);
                self.push_data(b);
                proof {
                    assert(core_post(old(self)@, self@, cur, op, VMSuccess::Ok(())));
                }
                return Ok(());
            } else if op == 4 {
                let d = ((self.data_stack.len() as u64) % 0x1_0000_0000u64) as u32;
                self.push_data(d);
                proof {
                    assert(core_post(old(self)@, self@, cur, op, VMSuccess::Ok(())));
                }
                return Ok(());
            } else if op == 5 {
                let v = match self.pop_data() {
                    Ok(v) => v,
                    Err(e) => {
                        proof {
                            assert(core_post(old(self)@, self@, cur, op, VMSuccess::Err(e)));
                        }
                        return Err(e);
                    },
                };
                self.push_return(v);
                proof {
                    assert(core_post(old(self)@, self@, cur, op, VMSuccess::Ok(())));
                }
                return Ok(());
            } else if op == 6 {
                let v = match self.pop_return() {
                    Ok(v) => v,
                    Err(e) => {
                        proof {
                            assert(core_post(old(self)@, self@, cur, op, VMSuccess::Err(e)));
                        }
                        return Err(e);
                    },
                };
                self.push_data(v);
                proof {
                    assert(core_post(old(self)@, self@, cur, op, VMSuccess::Ok(())));
                }
                return Ok(());
            } else if op == 7 {
                let a = match self.pop_data() {
                    Ok(v) => v,
                    Err(e) => {
                        proof {
                            assert(core_post(old(self)@, self@, cur, op, VMSuccess::Err(e)));
                        }
                        return Err(e);
                    },
                };
                let v = match self.read_u32(a) {
                    Ok(v) => v,
                    Err(e) => {
                        proof {
                            assert(core_post(old(self)@, self@, cur, op, VMSuccess::Err(e)));
                        }
                        return Err(e);
                    },
                };
                self.push_data(v);
                proof {
                    assert(core_post(old(self)@, self@, cur, op, VMSuccess::Ok(())));
                }
                return Ok(());
            } else if op == 8 {
                let a = match self.pop_data() {
                    Ok(v) => v,
                    Err(e) => {
                        proof {
                            assert(core_post(old(self)@, self@, cur, op, VMSuccess::Err(e)));
                        }
                        return Err(e);
                    },
                };
                let v = match self.read_u8(a) {
                    Ok(v) => v,
                    Err(e) => {
                        proof {
                            assert(core_post(old(self)@, self@, cur, op, VMSuccess::Err(e)));
                        }
                        return Err(e);
                    },
                };
                self.push_data(v as u32);
                proof {
                    assert(core_post(old(self)@, self@, cur, op, VMSuccess::Ok(())));
                }
                return Ok(());
            } else if op == 9 {
                let a = match self.pop_data() {
                    Ok(v) => v,
                    Err(e) => {
                        proof {
                            assert(core_post(old(self)@, self@, cur, op, VMSuccess::Err(e)));
                        }
                        return Err(e);
                    },
                };
                let val = match self.pop_data() {
                    Ok(v) => v,
                    Err(e) => {
                        proof {
                            assert(core_post(old(self)@, self@, cur, op, VMSuccess::Err(e)));
                        }
                        return Err(e);
                    },
                };
                let res = self.write_u32(a, val);
                proof {
                    assert(core_post(old(self)@, self@, cur, op, res));
                }
                return res;
            } else if op == 10 {
                let a = match self.pop_data() {
                    Ok(v) => v,
                    Err(e) => {
                        proof {
                            assert(core_post(old(self)@, self@, cur, op, VMSuccess::Err(e)));
                        }
                        return Err(e);
                    },
                };
                let val = match self.pop_data() {
                    Ok(v) => v,
                    Err(e) => {
                        proof {
                            assert(core_post(old(self)@, self@, cur, op, VMSuccess::Err(e)));
                        }
                        return Err(e);
                    },
                };
                let res = self.write_u8(a, (val % 256) as u8);
                proof {
                    assert(core_post(old(self)@, self@, cur, op, res));
                }
                return res;
            } else if op == 11 {
                let res = self.align();
                proof {
                    assert(core_post(old(self)@, self@, cur, op, res));
                }
                return res;
            } else {
                proof {
                    assert(false);
                }
                return Err(VMError::UnknownOpcode);
            }
    }

    /// One two-operand primitive, or `invert`.
    fn step_binop(&mut self, cur: u32, op: u8) -> (r: VMSuccess)
        requires
            old(self).wf(),
            cur < old(self)@.mem.len(),
            op == old(self)@.mem[cur as int],
            12 <= op <= 22,
        ensures
            final(self).wf(),
            binop_post(old(self)@, final(self)@, op, r),
    {
            if op == 22 {
                let a = match self.pop_data() {
                    Ok(v) => v,
                    Err(e) => {
                        proof {
                            assert(binop_post(old(self)@, self@, op, VMSuccess::Err(e)));
                        }
                        return Err(e);
                    },
                };
                self.push_data(!a);
                proof {
                    assert(binop_post(old(self)@, self@, op, VMSuccess::Ok(())));
                }
                return Ok(());
            } else {
                let b = match self.pop_data() {
                    Ok(v) => v,
                    Err(e) => {
                        proof {
                            assert(binop_post(old(self)@, self@, op, VMSuccess::Err(e)));
                        }
                        return Err(e);
                    },
                };
                let a = match self.pop_data() {
                    Ok(v) => v,
                    Err(e) => {
                        proof {
                            assert(binop_post(old(self)@, self@, op, VMSuccess::Err(e)));
                        }
                        return Err(e);
                    },
                };
                if op == 12 {
                    self.push_data(a.wrapping_add(b));
                } else if op == 13 {
                    self.push_data(a.wrapping_sub(b));
                } else if op == 14 {
                    self.push_data(a.wrapping_mul(b));
                } else if op == 15 {
                    if b == 0 {
                        self.push_data(a);
                        self.push_data(0);
                    } else {
                        self.push_data(a % b);
                        self.push_data(a / b);
                    }
                } else if op == 16 {
                    self.push_data(
                        if a == b {
                            1
                        } else {
                            0
                        },
                    );
                } else if op == 17 {
                    proof {
                        lemma_as_signed(a);
                        lemma_as_signed(b);
                    }
                    self.push_data(
                        if (a as i32) < (b as i32) {
                            1
                        } else {
                            0
                        },
                    );
                } else if op == 18 {
                    proof {
                        lemma_as_signed(a);
                        lemma_as_signed(b);
                    }
                    self.push_data(
                        if (a as i32) > (b as i32) {
                            1
                        } else {
                            0
                        },
                    );
                } else if op == 19 {
                    self.push_data(a & b);
                } else if op == 20 {
                    self.push_data(a | b);
                } else {
                    self.push_data(a ^ b);
                }
                proof {
                    assert(self@.data =~= old(self)@.data.drop_last().drop_last() + binop_values(
                        op,
                        a,
                        b,
                    ));
                    assert(binop_post(old(self)@, self@, op, VMSuccess::Ok(())));
                }
                return Ok(());
            }
    }

    /// One primitive that moves the program counter or reads inline cells.
    #[verifier::rlimit(100)]
    fn step_pcops(&mut self, cur: u32, op: u8) -> (r: VMSuccess)
        requires
            old(self).wf(),
            cur < old(self)@.mem.len(),
            op == old(self)@.mem[cur as int],
            op == 23 || op == 24 || op == 38 || op == 40 || op == 41 || op == 42 || op == 43,
        ensures
            final(self).wf(),
            pcops_post(old(self)@, final(self)@, cur, op, r),
    {
            if op == 24 {
                let pc0 = self.pc;
                let sl = match self.read_u32(pc0) {
                    Ok(v) => v,
                    Err(e) => {
                        proof {
                            assert(pcops_post(old(self)@, self@, cur, op, VMSuccess::Err(e)));
                        }
                        return Err(e);
                    },
                };
                self.pc = self.pc.wrapping_add(4);
                let body = self.pc;
                self.push_data(body);
                self.push_data(sl);
                self.pc = align_addr(self.pc.wrapping_add(sl));
                proof {
                    assert(pcops_post(old(self)@, self@, cur, op, VMSuccess::Ok(())));
                }
                return Ok(());
            } else if op == 40 {
                let pc0 = self.pc;
                let offs = match self.read_u32(pc0) {
                    Ok(v) => v,
                    Err(e) => {
                        proof {
                            assert(pcops_post(old(self)@, self@, cur, op, VMSuccess::Err(e)));
                        }
                        return Err(e);
                    },
                };
                self.pc = self.pc.wrapping_sub(4).wrapping_add(offs);
                proof {
                    assert(pcops_post(old(self)@, self@, cur, op, VMSuccess::Ok(())));
                }
                return Ok(());
            } else if op == 41 {
                let cond = match self.pop_data() {
                    Ok(v) => v,
                    Err(e) => {
                        proof {
                            assert(pcops_post(old(self)@, self@, cur, op, VMSuccess::Err(e)));
                        }
                        return Err(e);
                    },
                };
                let pc0 = self.pc;
                let offs = match self.read_u32(pc0) {
                    Ok(v) => v,
                    Err(e) => {
                        proof {
                            assert(pcops_post(old(self)@, self@, cur, op, VMSuccess::Err(e)));
                        }
                        return Err(e);
                    },
                };
                if cond == 0 {
                    self.pc = self.pc.wrapping_sub(4).wrapping_add(offs);
                } else {
                    self.pc = self.pc.wrapping_add(4);
                }
                proof {
                    assert(pcops_post(old(self)@, self@, cur, op, VMSuccess::Ok(())));
                }
                return Ok(());
            } else if op == 42 {
                let v = match self.pop_return() {
                    Ok(v) => v,
                    Err(e) => {
                        proof {
                            assert(pcops_post(old(self)@, self@, cur, op, VMSuccess::Err(e)));
                        }
                        return Err(e);
                    },
                };
                self.pc = v;
                proof {
                    assert(pcops_post(old(self)@, self@, cur, op, VMSuccess::Ok(())));
                }
                return Ok(());
            } else if op == 43 {
                self.return_stack.clear();
                proof {
                    assert(pcops_post(old(self)@, self@, cur, op, VMSuccess::Ok(())));
                }
                return Ok(());
            } else {
                let pc0 = self.pc;
                let value = match self.read_u32(pc0) {
                    Ok(v) => v,
                    Err(e) => {
                        proof {
                            assert(pcops_post(old(self)@, self@, cur, op, VMSuccess::Err(e)));
                        }
                        return Err(e);
                    },
                };
                self.push_data(value);
                self.pc = self.pc.wrapping_add(4);
                proof {
                    assert(pcops_post(old(self)@, self@, cur, op, VMSuccess::Ok(())));
                }
                return Ok(());
            }
    }

    /// One primitive of the input-output group.
    fn step_ioops(&mut self, cur: u32, op: u8) -> (r: VMSuccess)
        requires
            old(self).wf(),
            cur < old(self)@.mem.len(),
            op == old(self)@.mem[cur as int],
            op == 25 || op == 26 || op == 27 || op == 45,
        ensures
            final(self).wf(),
            ioops_post(old(self)@, final(self)@, cur, op, r),
    {
            if op == 25 {
                let b = match self.input_byte() {
                    Ok(v) => v,
                    Err(e) => {
                        proof {
                            assert(ioops_post(old(self)@, self@, cur, op, VMSuccess::Err(e)));
                        }
                        return Err(e);
                    },
                };
                self.push_data(b as u32);
                proof {
                    assert(ioops_post(old(self)@, self@, cur, op, VMSuccess::Ok(())));
                }
                return Ok(());
            } else if op == 26 {
                let res = self.word();
                proof {
                    assert(ioops_post(old(self)@, self@, cur, op, res));
                }
                return res;
            } else if op == 27 {
                let val = match self.pop_data() {
                    Ok(v) => v,
                    Err(e) => {
                        proof {
                            assert(ioops_post(old(self)@, self@, cur, op, VMSuccess::Err(e)));
                        }
                        return Err(e);
                    },
                };
                self.output.push((val % 256) as u8);
                proof {
                    assert(ioops_post(old(self)@, self@, cur, op, VMSuccess::Ok(())));
                }
                return Ok(());
            } else if op == 45 {
                self.prompt();
                proof {
                    assert(ioops_post(old(self)@, self@, cur, op, VMSuccess::Ok(())));
                }
                return Ok(());
            } else {
                proof {
                    assert(false);
                }
                return Err(VMError::UnknownOpcode);
            }
    }

    /// One primitive of the dictionary group.
    fn step_dict(&mut self, cur: u32, op: u8) -> (r: VMSuccess)
        requires
            old(self).wf(),
            cur < old(self)@.mem.len(),
            op == old(self)@.mem[cur as int],
            28 <= op <= 37,
        ensures
            final(self).wf(),
            dict_post(old(self)@, final(self)@, cur, op, r),
    {
            if op == 28 {
                let res = self.find();
                proof {
                    assert(dict_post(old(self)@, self@, cur, op, res));
                }
                return res;
            } else if op == 29 {
                let res = self.number();
                proof {
                    assert(dict_post(old(self)@, self@, cur, op, res));
                }
                return res;
            } else if op == 30 {
                let h = match self.pop_data() {
                    Ok(v) => v,
                    Err(e) => {
                        proof {
                            assert(dict_post(old(self)@, self@, cur, op, VMSuccess::Err(e)));
                        }
                        return Err(e);
                    },
                };
                let c = match self.header_addr_to_cfa(h) {
                    Ok(v) => v,
                    Err(e) => {
                        proof {
                            assert(dict_post(old(self)@, self@, cur, op, VMSuccess::Err(e)));
                        }
                        return Err(e);
                    },
                };
                self.push_data(c);
                proof {
                    assert(dict_post(old(self)@, self@, cur, op, VMSuccess::Ok(())));
                }
                return Ok(());
            } else if op == 31 {
                match self.write_u32(ADDR_STATE, 0) {
                    Ok(v) => v,
                    Err(e) => {
                        proof {
                            assert(false);
                        }
                        return Err(e);
                    },
                };
                proof {
                    assert(dict_post(old(self)@, self@, cur, op, VMSuccess::Ok(())));
                }
                return Ok(());
            } else if op == 32 {
                match self.write_u32(ADDR_STATE, 1) {
                    Ok(v) => v,
                    Err(e) => {
                        proof {
                            assert(false);
                        }
                        return Err(e);
                    },
                };
                proof {
                    assert(dict_post(old(self)@, self@, cur, op, VMSuccess::Ok(())));
                }
                return Ok(());
            } else if op == 33 {
                let res = self.create();
                proof {
                    assert(dict_post(old(self)@, self@, cur, op, res));
                }
                return res;
            } else if op == 34 {
                let val = match self.pop_data() {
                    Ok(v) => v,
                    Err(e) => {
                        proof {
                            assert(dict_post(old(self)@, self@, cur, op, VMSuccess::Err(e)));
                        }
                        return Err(e);
                    },
                };
                let res = self.write_u32_here(val);
                proof {
                    assert(dict_post(old(self)@, self@, cur, op, res));
                }
                return res;
            } else if op == 35 {
                let val = match self.pop_data() {
                    Ok(v) => v,
                    Err(e) => {
                        proof {
                            assert(dict_post(old(self)@, self@, cur, op, VMSuccess::Err(e)));
                        }
                        return Err(e);
                    },
                };
                let res = self.write_u8_here((val % 256) as u8);
                proof {
                    assert(dict_post(old(self)@, self@, cur, op, res));
                }
                return res;
            } else if op == 36 {
                let res = self.immediate();
                proof {
                    assert(dict_post(old(self)@, self@, cur, op, res));
                }
                return res;
            } else if op == 37 {
                let res = self.hidden();
                proof {
                    assert(dict_post(old(self)@, self@, cur, op, res));
                }
                return res;
            } else {
                proof {
                    assert(false);
                }
                return Err(VMError::UnknownOpcode);
            }
    }


    /// The outer interpreter up to its dispatch: read a token and decide.
    /// When the token names a word that must be executed, the word's token
    /// comes back in `out.0` and the caller dispatches it; every other path
    /// finishes here with `out.0` empty.
    #[verifier::rlimit(100)]
    fn step_interpret(&mut self) -> (out: (Option<u32>, VMSuccess))
        requires
            old(self).wf(),
        ensures
            final(self).wf(),
            out.0 is None ==> interpret_step(old(self)@, final(self)@, out.1, 0),
            (match out.0 {
                Some(xt2) => out.1 == VMSuccess::Ok(()) && final(self)@.input == old(self)@.input
                    && final(self)@.pos > old(self)@.pos && final(self)@.data == old(self)@.data
                    && forall|post: VMView, rr: VMSuccess, f: nat|
                    #[trigger] exec_step(final(self)@, post, xt2, rr, f) ==> interpret_step(
                        old(self)@,
                        post,
                        rr,
                        f + 1,
                    ),
                None => true,
            }),
    {

                let compiling = match self.read_u32(ADDR_STATE) {
                    Ok(v) => v != 0,
                    Err(e) => {
                        proof {
                            assert(false);
                        }
                        return (None, Err(e));
                    },
                };
                proof {
                    lemma_scan_effects(old(self)@, 0);
                }
                let pair = match self.input_word() {
                    Ok(p) => p,
                    Err(e) => {
                        proof {
                            assert(interpret_step(old(self)@, self@, VMSuccess::Err(e), 0));
                        }
                        return (None, Err(e));
                    },
                };
                let len_w = pair.1;
                let header = match self.find_word(pair.0, (len_w % 256) as u8) {
                    Ok(h) => h,
                    Err(e) => {
                        proof {
                            assert(interpret_step(old(self)@, self@, VMSuccess::Err(e), 0));
                        }
                        return (None, Err(e));
                    },
                };
                if header > 0 {
                    if (header as u64) + 4 >= self.memory.len() as u64 {
                        proof {
                            assert(interpret_step(old(self)@, self@, VMSuccess::Err(VMError::IllegalAddress), 0));
                        }
                        return (None, Err(VMError::IllegalAddress));
                    }
                    let flags = self.memory[(header as u64 + 4) as usize];
                    let imm = (flags & 64) != 0;
                    let xt2 = match self.header_addr_to_cfa(header) {
                        Ok(x) => x,
                        Err(e) => {
                            proof {
                                assert(false);
                            }
                            return (None, Err(e));
                        },
                    };
                    if compiling && !imm {
                        let res = self.write_u32_here(xt2);
                        proof {
                            assert(interpret_step(old(self)@, self@, res, 0));
                        }
                        return (None, res);
                    } else {
                        proof {
                            assert forall|post: VMView, rr: VMSuccess, f: nat|
                                #[trigger] exec_step(self@, post, xt2, rr, f) implies interpret_step(
                                old(self)@,
                                post,
                                rr,
                                f + 1,
                            ) by {
                            }
                        }
                        return (Some(xt2), Ok(()));
                    }
                } else {
                    let parsed = match self.parse_number(pair.0, len_w) {
                        Ok(v) => v,
                        Err(e) => {
                            proof {
                                assert(interpret_step(old(self)@, self@, VMSuccess::Err(e), 0));
                            }
                            return (None, Err(e));
                        },
                    };
                    if parsed.1 == 0 {
                        if compiling {
                            let lit0 = self.lit;
                            match self.write_u32_here(lit0) {
                                Ok(v) => v,
                                Err(e) => {
                                    proof {
                                        assert(interpret_step(old(self)@, self@, VMSuccess::Err(e), 0));
                                    }
                                    return (None, Err(e));
                                },
                            };
                            let res = self.write_u32_here(parsed.0);
                            proof {
                                assert(interpret_step(old(self)@, self@, res, 0));
                            }
                            return (None, res);
                        } else {
                            self.push_data(parsed.0);
                            proof {
                                assert(interpret_step(old(self)@, self@, VMSuccess::Ok(()), 0));
                            }
                            return (None, Ok(()));
                        }
                    } else {
                        let tok = self.token_string(len_w);
                        proof {
                            assert(interpret_step(old(self)@, self@, VMSuccess::Err(VMError::UnknownWord(tok)), 0));
                        }
                        return (None, Err(VMError::UnknownWord(tok)));
                    }
                }
    }

    /// Dispatch the primitive whose opcode byte sits at the execution token
    /// `addr`, chaining through `execute` and through the words that
    /// `interpret` runs. The whole effect is `exec_step`. A zero divisor in
    /// `/mod` does not trap: it leaves the dividend as the remainder with
    /// quotient 0.
    #[verifier::rlimit(100)]
    pub fn exec(&mut self, addr: u32) -> (r: VMSuccess)
        requires
            old(self).wf(),
        ensures
            final(self).wf(),
            exists|fuel: nat| exec_step(old(self)@, final(self)@, addr, r, fuel),
    {
        let mut cur = addr;
        let ghost mut k: nat = 0;
        loop
            invariant
                self.wf(),
                forall|post: VMView, rr: VMSuccess, f: nat|
                    #[trigger] exec_step(self@, post, cur, rr, f) ==> exec_step(
                        old(self)@,
                        post,
                        addr,
                        rr,
                        f + k,
                    ),
            decreases self@.input.len() - self@.pos + self@.data.len(),
        {
            let ghost head = self@;
            let op = match self.read_u8(cur) {
                Ok(v) => v,
                Err(e) => {
                    proof {
                        assert(exec_step(head, self@, cur, VMSuccess::Err(VMError::IllegalAddress), 0));
                    }
                    return Err(e);
                },
            };
            if op <= 11 {
                let res = self.step_core(cur, op);
                proof {
                    assert(exec_step(head, self@, cur, res, 0));
                }
                return res;
            } else if 12 <= op && op <= 22 {
                let res = self.step_binop(cur, op);
                proof {
                    assert(exec_step(head, self@, cur, res, 0));
                }
                return res;
            } else if op == 23 || op == 24 || op == 38 || op == 40 || op == 41 || op == 42 || op
                == 43 {
                let res = self.step_pcops(cur, op);
                proof {
                    assert(exec_step(head, self@, cur, res, 0));
                }
                return res;
            } else if op == 25 || op == 26 || op == 27 || op == 45 {
                let res = self.step_ioops(cur, op);
                proof {
                    assert(exec_step(head, self@, cur, res, 0));
                }
                return res;
            } else if 28 <= op && op <= 37 {
                let res = self.step_dict(cur, op);
                proof {
                    assert(exec_step(head, self@, cur, res, 0));
                }
                return res;
            } else if op == 39 {
                let xt = match self.pop_data() {
                    Ok(v) => v,
                    Err(e) => {
                        proof {
                            assert(exec_step(head, self@, cur, VMSuccess::Err(e), 0));
                        }
                        return Err(e);
                    },
                };
                proof {
                    assert forall|post: VMView, rr: VMSuccess, f: nat|
                        #[trigger] exec_step(self@, post, xt, rr, f) implies exec_step(
                        old(self)@,
                        post,
                        addr,
                        rr,
                        f + (k + 1),
                    ) by {
                        assert(exec_step(head, post, cur, rr, f + 1));
                    }
                    k = k + 1;
                }
                cur = xt;
            } else if op == 44 {
                let out = self.step_interpret();
                match out.0 {
                    None => {
                        proof {
                            assert(exec_step(head, self@, cur, out.1, 0));
                        }
                        return out.1;
                    },
                    Some(xt2) => {
                        proof {
                            assert forall|post: VMView, rr: VMSuccess, f: nat|
                                #[trigger] exec_step(self@, post, xt2, rr, f) implies exec_step(
                                old(self)@,
                                post,
                                addr,
                                rr,
                                f + (k + 1),
                            ) by {
                                assert(interpret_step(head, post, rr, f + 1));
                                assert(exec_step(head, post, cur, rr, f + 1));
                            }
                            k = k + 1;
                        }
                        cur = xt2;
                    },
                }
            } else {
                proof {
                    assert(exec_step(head, self@, cur, VMSuccess::Err(VMError::UnknownOpcode), 0));
                }
                return Err(VMError::UnknownOpcode);
            }
        }
    }
}

/// One fetch-and-dispatch cycle: read the execution token at the program
/// counter, advance past it, and dispatch it.
pub open spec fn exec_pc_step(pre: VMView, post: VMView, r: VMSuccess, fuel: nat) -> bool {
    if pre.pc % 4 != 0 {
        post == pre && r == VMSuccess::Err(VMError::UnalignedAccess)
    } else if pre.pc + 4 > pre.mem.len() {
        post == pre && r == VMSuccess::Err(VMError::IllegalAddress)
    } else {
        exec_step(
            (VMView { pc: wadd(pre.pc, 4), ..pre }),
            post,
            le32_at(pre.mem, pre.pc as int),
            r,
            fuel,
        )
    }
}

/// The error names printed when the driver gives up, one per line.
pub open spec fn abort_lines(errs: Seq<crate::vm::ErrView>) -> Seq<u8>
    decreases errs.len(),
{
    if errs.len() == 0 {
        Seq::<u8>::empty()
    } else {
        abort_lines(errs.drop_last()) + crate::io::err_name_bytes(errs.last()) + crate::io::ascii(
            "\n"@,
        )
    }
}

/// One driver step: a failing dispatch is recovered from by queueing the
/// error and resetting the program counter to the entry point, until ten
/// errors have accumulated; then they are all reported and the machine
/// stops.
pub open spec fn step_spec(pre: VMView, post: VMView, fuel: nat) -> bool {
    exists|mid: VMView, r: VMSuccess|
        #[trigger] exec_pc_step(pre, mid, r, fuel) && (match r {
            Ok(u) => post == mid,
            Err(e) => {
                if mid.errors.len() < 10 {
                    post == (VMView {
                        errors: mid.errors.push(crate::vm::err_view(e)),
                        pc: mid.entry,
                        ..mid
                    })
                } else {
                    post == (VMView {
                        output: mid.output + abort_lines(mid.errors) + crate::io::ascii(
                            "too many errors, aborting\n"@,
                        ),
                        running: false,
                        ..mid
                    })
                }
            },
        })
}

impl VM {
    /// Read the execution token at the program counter, advance past it,
    /// and dispatch it.
    pub fn exec_pc(&mut self) -> (r: VMSuccess)
        requires
            old(self).wf(),
        ensures
            final(self).wf(),
            exists|fuel: nat| exec_pc_step(old(self)@, final(self)@, r, fuel),
    {
        let pc0 = self.pc;
        let xt = match self.read_u32(pc0) {
            Ok(v) => v,
            Err(e) => {
                proof {
                    assert(exec_pc_step(old(self)@, self@, VMSuccess::Err(e), 0));
                }
                return Err(e);
            },
        };
        self.pc = self.pc.wrapping_add(4);
        proof {
            assert(self@ == (VMView { pc: wadd(old(self)@.pc, 4), ..old(self)@ }));
        }
        let ghost fetched = self@;
        let r = self.exec(xt);
        proof {
            let f = choose|f: nat| exec_step(fetched, self@, xt, r, f);
            assert(exec_step(fetched, self@, xt, r, f));
            assert(exec_pc_step(old(self)@, self@, r, f));
        }
        r
    }

    /// Perform one driver step, recovering from a failed dispatch as the
    /// quit loop expects: the error joins the queue and the program counter
    /// returns to the entry point; after ten queued errors the driver
    /// reports them all and stops the machine. The data stack is never
    /// cleared by recovery.
    pub fn step(&mut self)
        requires
            old(self).wf(),
        ensures
            final(self).wf(),
            exists|fuel: nat| step_spec(old(self)@, final(self)@, fuel),
    {
        let ghost pre = self@;
        let e = match self.exec_pc() {
            Ok(u) => {
                proof {
                    let f = choose|f: nat| exec_pc_step(pre, self@, VMSuccess::Ok(()), f);
                    assert(exec_pc_step(pre, self@, VMSuccess::Ok(()), f));
                    assert(step_spec(pre, self@, f));
                }
                return ;
            },
            Err(e) => e,
        };
        let ghost mid = self@;
        let ghost ghost_err = VMSuccess::Err(e);
        let ghost ev = crate::vm::err_view(e);
        if self.errors.len() < 10 {
            self.errors.push(e);
            self.pc = self.entry;
            proof {
                assert(self@.errors =~= mid.errors.push(ev));
                let f = choose|f: nat| exec_pc_step(pre, mid, ghost_err, f);
                assert(exec_pc_step(pre, mid, ghost_err, f));
                assert(step_spec(pre, self@, f));
            }
        } else {
            let n = self.errors.len();
            let mut i: usize = 0;
            while i < n
                invariant
                    i <= n,
                    n == self@.errors.len(),
                    self@.errors == mid.errors,
                    self@ == (VMView {
                        output: mid.output + abort_lines(mid.errors.take(i as int)),
                        ..mid
                    }),
                decreases n - i,
            {
                let name = error_name(&self.errors[i]);
                self.append_str(name.as_str());
                self.append_str("\n");
                i = i + 1;
                proof {
                    let errs = mid.errors;
                    assert(errs.take(i as int).drop_last() =~= errs.take(i - 1));
                    assert(errs.take(i as int).last() == errs[i - 1]);
                    assert(crate::io::ascii(name@) == crate::io::err_name_bytes(errs[i - 1]));
                    assert(mid.output + abort_lines(errs.take(i as int)) =~= (mid.output
                        + abort_lines(errs.take(i - 1)) + crate::io::ascii(name@)) + crate::io::ascii("\n"@));
                }
            }
            proof {
                assert(mid.errors.take(n as int) =~= mid.errors);
            }
            self.append_str("too many errors, aborting\n");
            self.running = false;
            proof {
                assert(self@.output =~= mid.output + abort_lines(mid.errors) + crate::io::ascii(
                    "too many errors, aborting\n"@,
                ));
                let f = choose|f: nat| exec_pc_step(pre, mid, ghost_err, f);
                assert(exec_pc_step(pre, mid, ghost_err, f));
                assert(step_spec(pre, self@, f));
            }
        }
    }
}

} // verus!
