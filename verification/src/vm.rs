//! The interpreter state: the byte image, the two stacks, the program
//! counter, the input and output byte streams, and the queue of recovered
//! errors. The view `VMView` is the mathematical value every contract
//! speaks of.
use vstd::prelude::*;

use crate::cells::le32_at;
use crate::cells::store32;
use crate::defs::VMError;
use crate::defs::VMResult;

verus! {

/// The abstract value of an interpreter: the image as a byte sequence, the
/// stacks as cell sequences, and the streams as byte sequences.
pub ghost struct VMView {
    pub mem: Seq<u8>,
    pub data: Seq<u32>,
    pub ret: Seq<u32>,
    pub pc: u32,
    pub entry: u32,
    pub lit: u32,
    pub input: Seq<u8>,
    pub pos: int,
    pub output: Seq<u8>,
    pub running: bool,
    pub line: bool,
    pub errors: Seq<ErrView>,
}

/// The abstract value of a queued error; an unknown word carries its token.
pub ghost enum ErrView {
    IllegalAddress,
    UnknownOpcode,
    DataStackUnderflow,
    ReturnStackUnderflow,
    UnalignedAccess,
    IOError,
    UnknownWord(Seq<char>),
    Terminated,
}

/// The abstract value of a concrete error.
pub open spec fn err_view(e: VMError) -> ErrView {
    match e {
        VMError::IllegalAddress => ErrView::IllegalAddress,
        VMError::UnknownOpcode => ErrView::UnknownOpcode,
        VMError::DataStackUnderflow => ErrView::DataStackUnderflow,
        VMError::ReturnStackUnderflow => ErrView::ReturnStackUnderflow,
        VMError::UnalignedAccess => ErrView::UnalignedAccess,
        VMError::IOError => ErrView::IOError,
        VMError::UnknownWord(s) => ErrView::UnknownWord(s@),
        VMError::Terminated => ErrView::Terminated,
    }
}

/// The newest header address, read from its fixed cell.
pub open spec fn latest_of(m: Seq<u8>) -> u32 {
    le32_at(m, 0)
}

/// The numeric radix, read from its fixed cell.
pub open spec fn base_of(m: Seq<u8>) -> u32 {
    le32_at(m, 4)
}

/// The interpret/compile mode, read from its fixed cell.
pub open spec fn state_of(m: Seq<u8>) -> u32 {
    le32_at(m, 8)
}

/// The bump pointer, read from its fixed cell.
pub open spec fn here_of(m: Seq<u8>) -> u32 {
    le32_at(m, 12)
}

pub struct VM {
    /// The byte-addressed image: dictionary, compiled code, user data, and
    /// the fixed-address cells.
    pub memory: Vec<u8>,
    /// The data stack of 32-bit cells.
    pub data_stack: Vec<u32>,
    /// The return stack of 32-bit cells.
    pub return_stack: Vec<u32>,
    /// The program counter of the inner interpreter.
    pub pc: u32,
    /// The entry point the driver resets to after an error.
    pub entry: u32,
    /// The execution token of `lit`, used when compiling a literal.
    pub lit: u32,
    /// The bytes still to be read; `input_pos` is the read cursor.
    pub input: Vec<u8>,
    pub input_pos: usize,
    /// Bytes emitted so far and not yet drained by the host.
    pub output: Vec<u8>,
    /// Cleared when input ends or too many errors accumulate.
    pub running: bool,
    /// Set when a carriage return has been read and a prompt is owed.
    pub line: bool,
    /// Errors recovered from since the last prompt.
    pub errors: Vec<VMError>,
}

impl View for VM {
    type V = VMView;

    open spec fn view(&self) -> VMView {
        VMView {
            mem: self.memory@,
            data: self.data_stack@,
            ret: self.return_stack@,
            pc: self.pc,
            entry: self.entry,
            lit: self.lit,
            input: self.input@,
            pos: self.input_pos as int,
            output: self.output@,
            running: self.running,
            line: self.line,
            errors: self.errors@.map_values(|e: VMError| err_view(e)),
        }
    }
}

impl VM {
    /// The image always covers the reserved region, never outgrows the
    /// 32-bit address space by more than the tail of one cell write, and the
    /// input cursor never passes the end of the input.
    pub open spec fn wf(self) -> bool {
        &&& 48 <= self@.mem.len() <= 0x1_0000_0004
        &&& self@.pos <= self@.input.len()
    }

    /// A fresh interpreter: a 48-byte zero image except `BASE = 10` and
    /// `HERE = INITIAL_HERE`, empty stacks and streams, running.
    pub fn new() -> (vm: VM)
        ensures
            vm.wf(),
            vm@.mem == store32(store32(Seq::new(48, |i: int| 0u8), 4, 10), 12, 48),
            vm@.data == Seq::<u32>::empty(),
            vm@.ret == Seq::<u32>::empty(),
            vm@.pc == 0u32,
            vm@.entry == 0u32,
            vm@.lit == 0u32,
            vm@.input == Seq::<u8>::empty(),
            vm@.pos == 0,
            vm@.output == Seq::<u8>::empty(),
            vm@.running,
            !vm@.line,
            vm@.errors == Seq::<ErrView>::empty(),
    {
        let mut memory: Vec<u8> = Vec::new();
        let mut i: usize = 0;
        while i < 48
            invariant
                i <= 48,
                memory@ =~= Seq::new(i as nat, |j: int| 0u8),
            decreases 48 - i,
        {
            memory.push(0);
            i = i + 1;
        }
        let mut vm = VM {
            memory,
            data_stack: Vec::new(),
            return_stack: Vec::new(),
            pc: 0,
            entry: 0,
            lit: 0,
            input: Vec::new(),
            input_pos: 0,
            output: Vec::new(),
            running: true,
            line: false,
            errors: Vec::new(),
        };
        let r1 = vm.write_u32(4, 10);
        let r2 = vm.write_u32(12, 48);
        assert(r1 is Ok && r2 is Ok);
        vm
    }

    /// Append bytes to the pending input.
    pub fn feed(&mut self, bytes: &[u8])
        requires
            old(self).wf(),
        ensures
            final(self).wf(),
            final(self)@ == (VMView { input: old(self)@.input + bytes@, ..old(self)@ }),
    {
        let n = bytes.len();
        let mut i: usize = 0;
        while i < n
            invariant
                old(self).wf(),
                i <= n,
                n == bytes@.len(),
                self@ == (VMView { input: old(self)@.input + bytes@.take(i as int), ..old(self)@ }),
            decreases n - i,
        {
            self.input.push(bytes[i]);
            i = i + 1;
            proof {
                assert(old(self)@.input + bytes@.take(i as int) =~= (old(self)@.input
                    + bytes@.take(i - 1)).push(bytes@[i - 1]));
            }
        }
        proof {
            assert(bytes@.take(n as int) =~= bytes@);
        }
    }

    /// Hand the emitted bytes to the host and clear the buffer.
    pub fn take_output(&mut self) -> (r: Vec<u8>)
        ensures
            r@ == old(self)@.output,
            final(self)@ == (VMView { output: Seq::<u8>::empty(), ..old(self)@ }),
    {
        let mut v: Vec<u8> = Vec::new();
        core::mem::swap(&mut self.output, &mut v);
        v
    }

    /// Push a cell onto the data stack; pushes cannot fail.
    pub fn push_data(&mut self, data: u32)
        ensures
            final(self)@ == (VMView { data: old(self)@.data.push(data), ..old(self)@ }),
    {
        self.data_stack.push(data)
    }

    /// Pop the top cell of the data stack; an empty stack reports data-stack
    /// underflow and leaves the state as it was.
    pub fn pop_data(&mut self) -> (r: VMResult<u32>)
        ensures
            old(self)@.data.len() == 0 ==> r == VMResult::<u32>::Err(VMError::DataStackUnderflow)
                && final(self)@ == old(self)@,
            old(self)@.data.len() > 0 ==> r == VMResult::<u32>::Ok(old(self)@.data.last())
                && final(self)@ == (VMView {
                data: old(self)@.data.drop_last(),
                ..old(self)@
            }),
    {
        match self.data_stack.pop() {
            Some(v) => Ok(v),
            None => Err(VMError::DataStackUnderflow),
        }
    }

    /// Push a cell onto the return stack; pushes cannot fail.
    pub fn push_return(&mut self, addr: u32)
        ensures
            final(self)@ == (VMView { ret: old(self)@.ret.push(addr), ..old(self)@ }),
    {
        self.return_stack.push(addr)
    }

    /// Pop the top cell of the return stack; an empty stack reports
    /// return-stack underflow and leaves the state as it was.
    pub fn pop_return(&mut self) -> (r: VMResult<u32>)
        ensures
            old(self)@.ret.len() == 0 ==> r == VMResult::<u32>::Err(VMError::ReturnStackUnderflow)
                && final(self)@ == old(self)@,
            old(self)@.ret.len() > 0 ==> r == VMResult::<u32>::Ok(old(self)@.ret.last())
                && final(self)@ == (VMView { ret: old(self)@.ret.drop_last(), ..old(self)@ }),
    {
        match self.return_stack.pop() {
            Some(v) => Ok(v),
            None => Err(VMError::ReturnStackUnderflow),
        }
    }
}

} // verus!
