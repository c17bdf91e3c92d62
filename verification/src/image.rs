//! Image operations: byte and aligned 32-bit cell reads and writes, writes at
//! the bump pointer, and alignment of the bump pointer. A write may extend
//! the live image with zero bytes by at most `MAX_EXTEND`.
use vstd::prelude::*;

use crate::cells::le32_at;
use crate::cells::store32;
use crate::cells::store8;
use crate::defs::align_up;
use crate::defs::wadd;
use crate::defs::align_addr;
use crate::defs::ADDR_HERE;
use crate::defs::MAX_EXTEND;
use crate::defs::VMError;
use crate::defs::VMResult;
use crate::defs::VMSuccess;
use crate::vm::here_of;
use crate::vm::VMView;
use crate::vm::VM;

verus! {

/// The effect of one byte write at the bump pointer: the new image, and
/// what the write returns. On success the bump pointer has advanced by 1,
/// modulo 2^32.
pub open spec fn w8h(m: Seq<u8>, data: u8) -> (Seq<u8>, VMSuccess) {
    let h = here_of(m);
    if h + 1 > m.len() + MAX_EXTEND {
        (m, Err(VMError::IllegalAddress))
    } else {
        (store32(store8(m, h as int, data), 12, wadd(h, 1)), Ok(()))
    }
}

/// The effect of one cell write at the bump pointer: the new image, and
/// what the write returns. On success the bump pointer has advanced by 4,
/// modulo 2^32.
pub open spec fn w32h(m: Seq<u8>, data: u32) -> (Seq<u8>, VMSuccess) {
    let h = here_of(m);
    if h % 4 != 0 {
        (m, Err(VMError::UnalignedAccess))
    } else if h + 4 > m.len() + MAX_EXTEND {
        (m, Err(VMError::IllegalAddress))
    } else {
        (store32(store32(m, h as int, data), 12, wadd(h, 4)), Ok(()))
    }
}

impl VM {
    /// Read the byte at `addr`; an address outside the live image reports an
    /// illegal address.
    pub fn read_u8(&self, addr: u32) -> (r: VMResult<u8>)
        ensures
            r == (if (addr as int) < self@.mem.len() {
                VMResult::<u8>::Ok(self@.mem[addr as int])
            } else {
                VMResult::<u8>::Err(VMError::IllegalAddress)
            }),
    {
        if (addr as u64) < (self.memory.len() as u64) {
            Ok(self.memory[addr as usize])
        } else {
            Err(VMError::IllegalAddress)
        }
    }

    /// Write one byte at `addr`, extending the live image with zeros up to
    /// `MAX_EXTEND` bytes past its end; further addresses report an illegal
    /// address and change nothing.
    pub fn write_u8(&mut self, addr: u32, data: u8) -> (r: VMSuccess)
        requires
            old(self).wf(),
        ensures
            final(self).wf(),
            addr as int + 1 <= old(self)@.mem.len() + MAX_EXTEND ==> r == VMSuccess::Ok(())
                && final(self)@ == (VMView {
                mem: store8(old(self)@.mem, addr as int, data),
                ..old(self)@
            }),
            addr as int + 1 > old(self)@.mem.len() + MAX_EXTEND ==> r == VMSuccess::Err(
                VMError::IllegalAddress,
            ) && final(self)@ == old(self)@,
    {
        if (addr as u64) + 1 > (self.memory.len() as u64) + (MAX_EXTEND as u64) {
            return Err(VMError::IllegalAddress);
        }
        let ghost pre = self@;
        while (self.memory.len() as u64) <= (addr as u64)
            invariant
                pre.mem.len() <= self@.mem.len(),
                self@.mem.len() <= pre.mem.len() || self@.mem.len() <= addr as int + 1,
                self@ == (VMView { mem: self@.mem, ..pre }),
                self@.mem =~= pre.mem + Seq::new((self@.mem.len() - pre.mem.len()) as nat, |j: int| 0u8),
            decreases addr as int + 1 - self@.mem.len(),
        {
            self.memory.push(0);
        }
        self.memory[addr as usize] = data;
        proof {
            assert(self@.mem =~= store8(pre.mem, addr as int, data));
        }
        Ok(())
    }

    /// Read the 32-bit cell at `addr`, little-endian. A misaligned address
    /// reports unaligned access; a cell not wholly inside the live image
    /// reports an illegal address.
    pub fn read_u32(&self, addr: u32) -> (r: VMResult<u32>)
        ensures
            r == (if addr % 4 != 0 {
                VMResult::<u32>::Err(VMError::UnalignedAccess)
            } else if addr as int + 4 > self@.mem.len() {
                VMResult::<u32>::Err(VMError::IllegalAddress)
            } else {
                VMResult::<u32>::Ok(le32_at(self@.mem, addr as int))
            }),
    {
        if addr % 4 != 0 {
            return Err(VMError::UnalignedAccess);
        }
        if (addr as u64) + 4 > (self.memory.len() as u64) {
            return Err(VMError::IllegalAddress);
        }
        let a = addr as usize;
        let b0 = self.memory[a];
        let b1 = self.memory[a + 1];
        let b2 = self.memory[a + 2];
        let b3 = self.memory[a + 3];
        Ok((b0 as u32) + (b1 as u32) * 256 + (b2 as u32) * 65536 + (b3 as u32) * 16777216)
    }

    /// Write the 32-bit cell `data` at `addr`, little-endian, with the same
    /// alignment rule and grow margin as byte writes.
    pub fn write_u32(&mut self, addr: u32, data: u32) -> (r: VMSuccess)
        requires
            old(self).wf(),
        ensures
            final(self).wf(),
            addr % 4 != 0 ==> r == VMSuccess::Err(VMError::UnalignedAccess) && final(self)@ == old(
                self,
            )@,
            addr % 4 == 0 && addr as int + 4 > old(self)@.mem.len() + MAX_EXTEND ==> r
                == VMSuccess::Err(VMError::IllegalAddress) && final(self)@ == old(self)@,
            addr % 4 == 0 && addr as int + 4 <= old(self)@.mem.len() + MAX_EXTEND ==> r
                == VMSuccess::Ok(()) && final(self)@ == (VMView {
                mem: store32(old(self)@.mem, addr as int, data),
                ..old(self)@
            }),
    {
        if addr % 4 != 0 {
            return Err(VMError::UnalignedAccess);
        }
        if (addr as u64) + 4 > (self.memory.len() as u64) + (MAX_EXTEND as u64) {
            return Err(VMError::IllegalAddress);
        }
        let ghost pre = self@;
        while (self.memory.len() as u64) < (addr as u64) + 4
            invariant
                pre.mem.len() <= self@.mem.len(),
                self@.mem.len() <= pre.mem.len() || self@.mem.len() <= addr as int + 4,
                self@ == (VMView { mem: self@.mem, ..pre }),
                self@.mem =~= pre.mem + Seq::new((self@.mem.len() - pre.mem.len()) as nat, |j: int| 0u8),
            decreases addr as int + 4 - self@.mem.len(),
        {
            self.memory.push(0);
        }
        let a = addr as usize;
        self.memory[a] = (data % 256) as u8;
        self.memory[a + 1] = ((data / 256) % 256) as u8;
        self.memory[a + 2] = ((data / 65536) % 256) as u8;
        self.memory[a + 3] = ((data / 16777216) % 256) as u8;
        proof {
            assert(self@.mem =~= store32(pre.mem, addr as int, data));
        }
        Ok(())
    }

    /// Write one byte at the bump pointer and advance it by 1.
    pub fn write_u8_here(&mut self, data: u8) -> (r: VMSuccess)
        requires
            old(self).wf(),
        ensures
            final(self).wf(),
            r == w8h(old(self)@.mem, data).1,
            final(self)@ == (VMView { mem: w8h(old(self)@.mem, data).0, ..old(self)@ }),
    {
        let here = self.read_u32(ADDR_HERE)?;
        self.write_u8(here, data)?;
        self.write_u32(ADDR_HERE, here.wrapping_add(1))
    }

    /// Write one cell at the bump pointer and advance it by 4. A misaligned
    /// bump pointer reports unaligned access.
    pub fn write_u32_here(&mut self, data: u32) -> (r: VMSuccess)
        requires
            old(self).wf(),
        ensures
            final(self).wf(),
            r == w32h(old(self)@.mem, data).1,
            final(self)@ == (VMView { mem: w32h(old(self)@.mem, data).0, ..old(self)@ }),
    {
        let here = self.read_u32(ADDR_HERE)?;
        self.write_u32(here, data)?;
        self.write_u32(ADDR_HERE, here.wrapping_add(4))
    }

    /// Round the bump pointer up to the next 4-byte boundary.
    pub fn align(&mut self) -> (r: VMSuccess)
        requires
            old(self).wf(),
        ensures
            final(self).wf(),
            r == VMSuccess::Ok(()),
            final(self)@ == (VMView {
                mem: store32(old(self)@.mem, 12, align_up(here_of(old(self)@.mem))),
                ..old(self)@
            }),
    {
        let mut here = self.read_u32(ADDR_HERE)?;
        here = align_addr(here);
        self.write_u32(ADDR_HERE, here)
    }
}

} // verus!
