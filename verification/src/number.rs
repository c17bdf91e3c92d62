//! The number parser: a token is read under the current base, with an
//! optional leading minus sign when more than one character follows it.
//! Digits accumulate with 32-bit wrapping; parsing stops at the first
//! character whose value reaches the base, and the caller learns how many
//! characters were left unconsumed.
use vstd::prelude::*;

use crate::defs::lemma_wadd;
use crate::defs::spec_digit_val;
use crate::defs::digit_val;
use crate::defs::wadd;
use crate::defs::ADDR_BASE;
use crate::defs::VMError;
use crate::defs::VMResult;
use crate::defs::VMSuccess;
use crate::vm::base_of;
use crate::vm::VMView;
use crate::vm::VM;

verus! {

broadcast use lemma_wadd;

/// Two's-complement negation of a 32-bit cell.
pub open spec fn neg32(x: u32) -> u32 {
    if x == 0 {
        0u32
    } else {
        (0x1_0000_0000 - x) as u32
    }
}

/// Consuming digits from position `offs` on: each digit below the base
/// multiplies the accumulator by the base and adds in, modulo 2^32. The
/// result is the accumulator and the position of the first character that
/// stopped the scan (or the end).
pub open spec fn digits_rec(
    m: Seq<u8>,
    addr: u32,
    len: u32,
    base: u32,
    offs: u32,
    acc: u32,
) -> VMResult<(u32, u32)>
    decreases len - offs,
{
    if offs >= len {
        Ok((acc, offs))
    } else {
        let a = wadd(addr, offs as int);
        if a >= m.len() {
            Err(VMError::IllegalAddress)
        } else {
            let v = spec_digit_val(m[a as int] as char);
            if v < base {
                digits_rec(
                    m,
                    addr,
                    len,
                    base,
                    (offs + 1) as u32,
                    ((acc * base + v) % 0x1_0000_0000) as u32,
                )
            } else {
                Ok((acc, offs))
            }
        }
    }
}

/// What parsing the `len` bytes at `addr` under the base of image `m`
/// returns: the value and the count of unconsumed characters (0 means the
/// whole token was a number). A lone minus sign consumes nothing.
pub open spec fn parse_spec(m: Seq<u8>, addr: u32, len: u32) -> VMResult<(u32, u32)> {
    let base = base_of(m);
    if addr >= m.len() {
        Err(VMError::IllegalAddress)
    } else {
        let neg = m[addr as int] == 45 && len > 1;
        let start: u32 = if neg {
            1u32
        } else {
            0u32
        };
        match digits_rec(m, addr, len, base, start, 0) {
            Err(e) => Err(e),
            Ok((acc, offs)) => {
                if offs == 1 && neg {
                    Ok((0u32, len))
                } else {
                    Ok(
                        (
                            if neg {
                                neg32(acc)
                            } else {
                                acc
                            },
                            (len - offs) as u32,
                        ),
                    )
                }
            },
        }
    }
}

impl VM {
    /// Parse the `len` bytes at `addr` as a signed number under the current
    /// base: the value, and how many characters were not consumed.
    pub fn parse_number(&self, addr: u32, len: u32) -> (r: VMResult<(u32, u32)>)
        requires
            self.wf(),
        ensures
            r == parse_spec(self@.mem, addr, len),
    {
        let base = match self.read_u32(ADDR_BASE) {
            Ok(v) => v,
            Err(e) => {
                proof {
                    assert(false);
                }
                return Err(e);
            },
        };
        let mut offs: u32 = 0;
        let sym = self.read_u8(addr)?;
        let negative = sym == 45 && len > 1;
        if negative {
            offs = 1;
        }
        let mut result: u32 = 0;
        let ghost target = digits_rec(self@.mem, addr, len, base, offs, 0);
        loop
            invariant
                self.wf(),
                addr < self@.mem.len(),
                base == base_of(self@.mem),
                negative == (self@.mem[addr as int] == 45 && len > 1),
                offs <= len,
                target == digits_rec(self@.mem, addr, len, base, offs, result),
                parse_spec(self@.mem, addr, len) == (match target {
                    Err(e) => VMResult::<(u32, u32)>::Err(e),
                    Ok(p) => {
                        if p.1 == 1 && negative {
                            Ok((0u32, len))
                        } else {
                            Ok(
                                (
                                    if negative {
                                        neg32(p.0)
                                    } else {
                                        p.0
                                    },
                                    (len - p.1) as u32,
                                ),
                            )
                        }
                    },
                }),
            ensures
                target == VMResult::<(u32, u32)>::Ok((result, offs)),
            decreases len - offs,
        {
            if offs >= len {
                break ;
            }
            let sym = match self.read_u8(addr.wrapping_add(offs)) {
                Ok(v) => v,
                Err(e) => {
                    return Err(e);
                },
            };
            let val = digit_val(sym as char);
            if val < base {
                let ghost pre = result as int;
                result = result.wrapping_mul(base).wrapping_add(val);
                offs = offs + 1;
                proof {
                    vstd::arithmetic::div_mod::lemma_add_mod_noop(
                        pre * base,
                        val as int,
                        0x1_0000_0000,
                    );
                    vstd::arithmetic::div_mod::lemma_small_mod(val as nat, 0x1_0000_0000);
                }
            } else {
                break ;
            }
        }
        if offs == 1 && negative {
            return Ok((0, len));
        }
        let value = if negative {
            0u32.wrapping_sub(result)
        } else {
            result
        };
        Ok((value, len - offs))
    }

    /// Pop a length and address, parse the bytes there as a number, and push
    /// the value and the unconsumed-character count.
    pub fn number(&mut self) -> (r: VMSuccess)
        requires
            old(self).wf(),
        ensures
            final(self).wf(),
            old(self)@.data.len() == 0 ==> r == VMSuccess::Err(VMError::DataStackUnderflow)
                && final(self)@ == old(self)@,
            old(self)@.data.len() == 1 ==> r == VMSuccess::Err(VMError::DataStackUnderflow)
                && final(self)@ == (VMView { data: old(self)@.data.drop_last(), ..old(self)@ }),
            old(self)@.data.len() >= 2 ==> {
                let len = old(self)@.data.last();
                let addr = old(self)@.data[old(self)@.data.len() - 2];
                match parse_spec(old(self)@.mem, addr, len) {
                    Ok(pair) => r == VMSuccess::Ok(()) && final(self)@ == (VMView {
                        data: old(self)@.data.drop_last().drop_last().push(pair.0).push(pair.1),
                        ..old(self)@
                    }),
                    Err(e) => r == VMSuccess::Err(e) && final(self)@ == (VMView {
                        data: old(self)@.data.drop_last().drop_last(),
                        ..old(self)@
                    }),
                }
            },
    {
        let len = self.pop_data()?;
        let addr = self.pop_data()?;
        let parsed = match self.parse_number(addr, len) {
            Ok(v) => v,
            Err(e) => {
                return Err(e);
            },
        };
        self.push_data(parsed.0);
        self.push_data(parsed.1);
        Ok(())
    }
}

} // verus!
