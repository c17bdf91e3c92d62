//! The dictionary: a linked list of word headers laid out in the image. A
//! header holds a link cell, a flags-and-length byte, and the name bytes;
//! the code field starts right after the name. Lookup walks the chain from
//! `LATEST`; bump allocation lays headers out at increasing addresses, so
//! every link points strictly downward and the walk terminates.
use vstd::prelude::*;

use crate::cells::le32_at;
use crate::cells::store32;
use crate::cells::store8;
use crate::defs::align_up;
use crate::defs::lemma_wadd;
use crate::defs::wadd;
use crate::defs::ADDR_HERE;
use crate::defs::ADDR_LATEST;
use crate::defs::VMError;
use crate::defs::VMResult;
use crate::defs::VMSuccess;
use crate::vm::here_of;
use crate::vm::latest_of;
use crate::vm::VMView;
use crate::vm::VM;

verus! {

broadcast use lemma_wadd;

/// Comparing the name of the header at `h` with the `len` bytes at `addr`,
/// byte by byte from position `i`: stops at the first mismatch, and a byte
/// outside the live image reports an illegal address.
pub open spec fn name_cmp(m: Seq<u8>, h: u32, addr: u32, len: u8, i: int) -> VMResult<bool>
    decreases len - i,
{
    if i >= len {
        Ok(true)
    } else if h + 5 + i >= m.len() || addr + i >= m.len() {
        Err(VMError::IllegalAddress)
    } else if m[h + 5 + i] != m[addr + i] {
        Ok(false)
    } else {
        name_cmp(m, h, addr, len, i + 1)
    }
}

/// The dictionary walk from header address `h`: a header matches when its
/// flags-and-length byte, hidden bit included, equals `len` and the name
/// bytes equal the bytes at `addr`. The walk follows links downward; a link
/// that does not point strictly downward can only come from a corrupted
/// image and reports an illegal address.
pub open spec fn find_rec(m: Seq<u8>, h: u32, addr: u32, len: u8) -> VMResult<u32>
    decreases h,
{
    if h == 0 {
        Ok(0u32)
    } else if h + 4 >= m.len() {
        Err(VMError::IllegalAddress)
    } else if (m[h + 4] & 63) == len && name_cmp(m, h, addr, len, 0) == VMResult::<bool>::Err(
        VMError::IllegalAddress,
    ) {
        Err(VMError::IllegalAddress)
    } else if (m[h + 4] & 63) == len && name_cmp(m, h, addr, len, 0) == VMResult::<bool>::Ok(true) {
        Ok(h)
    } else if h % 4 != 0 {
        Err(VMError::UnalignedAccess)
    } else if le32_at(m, h as int) >= h {
        Err(VMError::IllegalAddress)
    } else {
        find_rec(m, le32_at(m, h as int), addr, len)
    }
}

/// The result of looking the `len` bytes at `addr` up in the dictionary of
/// image `m`: the address of the first matching header from `LATEST`, or 0.
pub open spec fn find_spec(m: Seq<u8>, addr: u32, len: u8) -> VMResult<u32> {
    find_rec(m, latest_of(m), addr, len)
}

impl VM {
    /// Look the `len` name bytes at `addr` up in the dictionary: the first
    /// matching non-hidden header from `LATEST`, or 0 when none matches.
    pub fn find_word(&self, addr: u32, len: u8) -> (r: VMResult<u32>)
        requires
            self.wf(),
        ensures
            r == find_spec(self@.mem, addr, len),
    {
        let ghost m = self@.mem;
        let mut search_addr = match self.read_u32(ADDR_LATEST) {
            Ok(v) => v,
            Err(e) => {
                return Err(e);
            },
        };
        loop
            invariant
                self.wf(),
                m == self@.mem,
                find_spec(m, addr, len) == find_rec(m, search_addr, addr, len),
            decreases search_addr,
        {
            if search_addr == 0 {
                return Ok(0);
            }
            let mem_len = self.memory.len() as u64;
            if (search_addr as u64) + 4 >= mem_len {
                return Err(VMError::IllegalAddress);
            }
            let flags = self.memory[(search_addr as u64 + 4) as usize];
            if (flags & 63) == len {
                let mut i: u32 = 0;
                let mut matched = true;
                loop
                    invariant_except_break
                        matched,
                        name_cmp(m, search_addr, addr, len, 0) == name_cmp(
                            m,
                            search_addr,
                            addr,
                            len,
                            i as int,
                        ),
                    invariant
                        self.wf(),
                        m == self@.mem,
                        0 <= i <= len,
                        mem_len == m.len(),
                        mem_len <= usize::MAX as u64,
                        search_addr != 0,
                        search_addr as u64 + 4 < mem_len,
                        (m[search_addr + 4] & 63) == len,
                        find_spec(m, addr, len) == find_rec(m, search_addr, addr, len),
                    ensures
                        matched ==> i == len && name_cmp(m, search_addr, addr, len, 0)
                            == VMResult::<bool>::Ok(true),
                        !matched ==> name_cmp(m, search_addr, addr, len, 0) == VMResult::<
                            bool,
                        >::Ok(false),
                    decreases len - i,
                {
                    if i >= len as u32 {
                        break ;
                    }
                    let hi = search_addr as u64 + 5 + i as u64;
                    let ai = addr as u64 + i as u64;
                    if hi >= mem_len || ai >= mem_len {
                        return Err(VMError::IllegalAddress);
                    }
                    proof {
                        assert(hi <= usize::MAX as u64 && ai <= usize::MAX as u64);
                    }
                    if self.memory[hi as usize] != self.memory[ai as usize] {
                        matched = false;
                        break ;
                    }
                    i = i + 1;
                }
                if matched {
                    return Ok(search_addr);
                }
            }
            let next = match self.read_u32(search_addr) {
                Ok(v) => v,
                Err(e) => {
                    return Err(e);
                },
            };
            if next >= search_addr {
                return Err(VMError::IllegalAddress);
            }
            search_addr = next;
        }
    }

    /// Pop a name length and address and push the result of looking that
    /// name up: the header address, or 0 when the name is unknown. The
    /// length is taken modulo 256, as it is stored in a single byte.
    pub fn find(&mut self) -> (r: VMSuccess)
        requires
            old(self).wf(),
        ensures
            final(self).wf(),
            old(self)@.data.len() == 0 ==> r == VMSuccess::Err(VMError::DataStackUnderflow)
                && final(self)@ == old(self)@,
            old(self)@.data.len() == 1 ==> r == VMSuccess::Err(VMError::DataStackUnderflow)
                && final(self)@ == (VMView { data: old(self)@.data.drop_last(), ..old(self)@ }),
            old(self)@.data.len() >= 2 ==> {
                let len = (old(self)@.data.last() % 256) as u8;
                let addr = old(self)@.data[old(self)@.data.len() - 2];
                match find_spec(old(self)@.mem, addr, len) {
                    Ok(h) => r == VMSuccess::Ok(()) && final(self)@ == (VMView {
                        data: old(self)@.data.drop_last().drop_last().push(h),
                        ..old(self)@
                    }),
                    Err(e) => r == VMSuccess::Err(e) && final(self)@ == (VMView {
                        data: old(self)@.data.drop_last().drop_last(),
                        ..old(self)@
                    }),
                }
            },
    {
        let len_cell = self.pop_data()?;
        let len = (len_cell % 256) as u8;
        let addr = self.pop_data()?;
        let found = self.find_word(addr, len)?;
        self.push_data(found);
        Ok(())
    }

    /// The code field address of the header at `addr`: past the link, the
    /// flags-and-length byte, and the name.
    pub fn header_addr_to_cfa(&self, addr: u32) -> (r: VMResult<u32>)
        requires
            self.wf(),
        ensures
            r == cfa_spec(self@.mem, addr),
    {
        if (addr as u64) + 4 >= self.memory.len() as u64 {
            return Err(VMError::IllegalAddress);
        }
        let len = self.memory[(addr as u64 + 4) as usize] & 31;
        Ok(addr.wrapping_add(len as u32).wrapping_add(5))
    }

    /// Toggle the immediate bit of the newest header.
    pub fn immediate(&mut self) -> (r: VMSuccess)
        requires
            old(self).wf(),
        ensures
            final(self).wf(),
            latest_of(old(self)@.mem) + 4 >= old(self)@.mem.len() ==> r == VMSuccess::Err(
                VMError::IllegalAddress,
            ) && final(self)@ == old(self)@,
            latest_of(old(self)@.mem) + 4 < old(self)@.mem.len() ==> r == VMSuccess::Ok(())
                && final(self)@ == (VMView {
                mem: toggle_flag(old(self)@.mem, latest_of(old(self)@.mem), 64),
                ..old(self)@
            }),
    {
        let header_addr = match self.read_u32(ADDR_LATEST) {
            Ok(v) => v,
            Err(e) => {
                return Err(e);
            },
        };
        if (header_addr as u64) + 4 >= self.memory.len() as u64 {
            return Err(VMError::IllegalAddress);
        }
        let a = (header_addr as u64 + 4) as usize;
        let byte = self.memory[a];
        self.memory[a] = byte ^ 64;
        proof {
            assert(self@.mem =~= toggle_flag(old(self)@.mem, latest_of(old(self)@.mem), 64));
        }
        Ok(())
    }

    /// Pop a header address and toggle its hidden bit.
    pub fn hidden(&mut self) -> (r: VMSuccess)
        requires
            old(self).wf(),
        ensures
            final(self).wf(),
            old(self)@.data.len() == 0 ==> r == VMSuccess::Err(VMError::DataStackUnderflow)
                && final(self)@ == old(self)@,
            old(self)@.data.len() > 0 ==> {
                let h = old(self)@.data.last();
                if h + 4 >= old(self)@.mem.len() {
                    r == VMSuccess::Err(VMError::IllegalAddress) && final(self)@ == (VMView {
                        data: old(self)@.data.drop_last(),
                        ..old(self)@
                    })
                } else {
                    r == VMSuccess::Ok(()) && final(self)@ == (VMView {
                        data: old(self)@.data.drop_last(),
                        mem: toggle_flag(old(self)@.mem, h, 32),
                        ..old(self)@
                    })
                }
            },
    {
        let header_addr = self.pop_data()?;
        if (header_addr as u64) + 4 >= self.memory.len() as u64 {
            return Err(VMError::IllegalAddress);
        }
        let a = (header_addr as u64 + 4) as usize;
        let byte = self.memory[a];
        self.memory[a] = byte ^ 32;
        proof {
            assert(self@.mem =~= toggle_flag(old(self)@.mem, old(self)@.data.last(), 32));
        }
        Ok(())
    }
}

/// Copying the `n` name bytes at `src` to `dst`, one byte at a time as
/// `create` does: a source byte outside the live image, or a destination
/// past the grow margin, reports an illegal address with the bytes so far
/// already written. Addresses wrap modulo 2^32.
pub open spec fn copy_rec(m: Seq<u8>, src: u32, dst: u32, n: u32, i: u32) -> (Seq<u8>, u32, VMSuccess)
    decreases n - i,
{
    if i >= n {
        (m, dst, Ok(()))
    } else {
        let a = wadd(src, i as int);
        if a >= m.len() {
            (m, dst, Err(VMError::IllegalAddress))
        } else if dst + 1 > m.len() + 64 {
            (m, dst, Err(VMError::IllegalAddress))
        } else {
            copy_rec(store8(m, dst as int, m[a as int]), src, wadd(dst, 1), n, (i + 1) as u32)
        }
    }
}

/// The full effect of `create` on the image and the data stack: pop the
/// name address and length, align the bump pointer, lay down the link,
/// the length byte and the name, and only then make the new header the
/// newest. A data-stack underflow changes nothing at all, and every other
/// failure leaves `LATEST` still heading the old, valid chain. The result
/// is the new image, the new data stack, and what `create` returns.
#[verifier::opaque]
pub open spec fn create_spec(m: Seq<u8>, data: Seq<u32>) -> (Seq<u8>, Seq<u32>, VMSuccess) {
    if data.len() == 0 {
        (m, data, Err(VMError::DataStackUnderflow))
    } else {
        let word_len = data.last();
        let d1 = data.drop_last();
        if d1.len() == 0 {
            (m, d1, Err(VMError::DataStackUnderflow))
        } else {
            let word_addr = d1.last();
            let d2 = d1.drop_last();
            let h = align_up(here_of(m));
            let m1 = store32(m, 12, h);
            let lat = latest_of(m1);
            if h + 4 > m1.len() + 64 {
                (m1, d2, Err(VMError::IllegalAddress))
            } else {
                let m2 = store32(m1, h as int, lat);
                let h1 = wadd(h, 4);
                if h1 + 1 > m2.len() + 64 {
                    (m2, d2, Err(VMError::IllegalAddress))
                } else {
                    let m3 = store8(m2, h1 as int, (word_len % 256) as u8);
                    let step = copy_rec(m3, word_addr, wadd(h1, 1), word_len, 0);
                    if step.2 is Err {
                        (step.0, d2, step.2)
                    } else {
                        (store32(store32(step.0, 0, h), 12, step.1), d2, Ok(()))
                    }
                }
            }
        }
    }
}

impl VM {
    /// Begin a new header at the aligned bump pointer: pop the name as
    /// (addr, len) from the data stack, append the link to the previous
    /// newest header, the length byte and the name bytes, and only then
    /// make the new header the newest, so that any failure leaves `LATEST`
    /// heading the old chain. No code field is written.
    #[verifier::rlimit(100)]
    pub fn create(&mut self) -> (r: VMSuccess)
        requires
            old(self).wf(),
        ensures
            final(self).wf(),
            r == create_spec(old(self)@.mem, old(self)@.data).2,
            final(self)@ == (VMView {
                mem: create_spec(old(self)@.mem, old(self)@.data).0,
                data: create_spec(old(self)@.mem, old(self)@.data).1,
                ..old(self)@
            }),
    {
        let ghost cs = create_spec(old(self)@.mem, old(self)@.data);
        proof {
            reveal(create_spec);
        }
        let word_len = self.pop_data()?;
        let word_addr = self.pop_data()?;
        match self.align() {
            Ok(v) => v,
            Err(e) => {
                proof {
                    assert(false);
                }
                return Err(e);
            },
        };
        let here = match self.read_u32(ADDR_HERE) {
            Ok(v) => v,
            Err(e) => {
                proof {
                    assert(false);
                }
                return Err(e);
            },
        };
        proof {
            crate::cells::lemma_store32_le32(old(self)@.mem, 12, align_up(here_of(old(self)@.mem)));
            crate::defs::lemma_align_up(here_of(old(self)@.mem));
        }
        let latest = match self.read_u32(ADDR_LATEST) {
            Ok(v) => v,
            Err(e) => {
                proof {
                    assert(false);
                }
                return Err(e);
            },
        };
        match self.write_u32(here, latest) {
            Ok(v) => v,
            Err(e) => {
                return Err(e);
            },
        };
        match self.write_u8(here.wrapping_add(4), (word_len % 256) as u8) {
            Ok(v) => v,
            Err(e) => {
                return Err(e);
            },
        };
        let copied = self.copy_name(word_addr, here.wrapping_add(4).wrapping_add(1), word_len);
        match copied.1 {
            Ok(v) => v,
            Err(e) => {
                return Err(e);
            },
        };
        match self.write_u32(ADDR_LATEST, here) {
            Ok(v) => v,
            Err(e) => {
                proof {
                    assert(false);
                }
                return Err(e);
            },
        };
        match self.write_u32(ADDR_HERE, copied.0) {
            Ok(v) => v,
            Err(e) => {
                proof {
                    assert(false);
                }
                return Err(e);
            },
        };
        Ok(())
    }

    /// Copy the `n` name bytes at `src` to `dst`, byte by byte, as the tail
    /// of `create`; returns the address past the copy.
    fn copy_name(&mut self, src: u32, dst: u32, n: u32) -> (r: (u32, VMSuccess))
        requires
            old(self).wf(),
        ensures
            final(self).wf(),
            final(self)@ == (VMView {
                mem: copy_rec(old(self)@.mem, src, dst, n, 0).0,
                ..old(self)@
            }),
            r.0 == copy_rec(old(self)@.mem, src, dst, n, 0).1,
            r.1 == copy_rec(old(self)@.mem, src, dst, n, 0).2,
    {
        let ghost target = copy_rec(old(self)@.mem, src, dst, n, 0);
        let mut here = dst;
        let mut i: u32 = 0;
        while i < n
            invariant
                self.wf(),
                i <= n,
                self@ == (VMView { mem: self@.mem, ..old(self)@ }),
                target == copy_rec(old(self)@.mem, src, dst, n, 0),
                copy_rec(self@.mem, src, here, n, i) == target,
            decreases n - i,
        {
            let b = match self.read_u8(src.wrapping_add(i)) {
                Ok(v) => v,
                Err(e) => {
                    return (here, Err(e));
                },
            };
            match self.write_u8(here, b) {
                Ok(v) => v,
                Err(e) => {
                    return (here, Err(e));
                },
            };
            here = here.wrapping_add(1);
            i = i + 1;
        }
        (here, Ok(()))
    }
}

/// The code field address of the header at `addr` in image `m`.
pub open spec fn cfa_spec(m: Seq<u8>, addr: u32) -> VMResult<u32> {
    if addr + 4 >= m.len() {
        Err(VMError::IllegalAddress)
    } else {
        Ok(wadd(wadd(addr, (m[addr + 4] & 31) as int), 5))
    }
}

/// Image `m` with one bit of the flags-and-length byte of the header at `h`
/// flipped.
pub open spec fn toggle_flag(m: Seq<u8>, h: u32, bit: u8) -> Seq<u8> {
    store8(m, h + 4, m[h + 4] ^ bit)
}

} // verus!
