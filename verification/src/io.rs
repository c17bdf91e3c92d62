//! The input and output edge of the interpreter as pure state: reading one
//! byte advances a cursor over the pending input, tokenizing buffers a word
//! into the scratch area, and the prompt appends its bytes to the output
//! buffer for the host to drain. The host owns the real streams.
use vstd::prelude::*;

use crate::cells::splice;
use crate::cells::store8;
use crate::defs::error_name;
use crate::defs::ADDR_WORD_BUFFER;
use crate::defs::VMError;
use crate::defs::VMResult;
use crate::defs::VMSuccess;
use crate::vm::err_view;
use crate::vm::ErrView;
use crate::vm::VMView;
use crate::vm::VM;

verus! {

/// Characters written as bytes, each truncated to its low eight bits; on
/// ASCII text this is the identity on code points.
pub open spec fn ascii(s: Seq<char>) -> Seq<u8> {
    s.map_values(|c: char| c as u8)
}

/// The bytes of one error's user-visible name.
pub open spec fn err_name_bytes(e: ErrView) -> Seq<u8> {
    match e {
        ErrView::IllegalAddress => ascii("illegal address"@),
        ErrView::UnknownOpcode => ascii("unknown opcode"@),
        ErrView::DataStackUnderflow => ascii("data stack underflow"@),
        ErrView::ReturnStackUnderflow => ascii("return stack underflow"@),
        ErrView::UnalignedAccess => ascii("unaligned memory access"@),
        ErrView::IOError => ascii("i/o error"@),
        ErrView::UnknownWord(t) => ascii("unknown word "@ + t),
        ErrView::Terminated => ascii("input terminated"@),
    }
}

/// One reported error line: a space, the error's name, a newline.
pub open spec fn err_line(e: ErrView) -> Seq<u8> {
    ascii(" "@) + err_name_bytes(e) + ascii("\n"@)
}

/// The queued errors reported one per line, in order.
pub open spec fn err_lines(errs: Seq<ErrView>) -> Seq<u8>
    decreases errs.len(),
{
    if errs.len() == 0 {
        Seq::<u8>::empty()
    } else {
        err_lines(errs.drop_last()) + err_line(errs.last())
    }
}

/// What one prompt emits: ` ok` on a clean line, else the queued error
/// names, and then a fresh `>`.
pub open spec fn prompt_out(errs: Seq<ErrView>) -> Seq<u8> {
    if errs.len() == 0 {
        ascii(" ok\n"@) + ascii(">"@)
    } else {
        err_lines(errs) + ascii(">"@)
    }
}

/// The state after the prompt ran: it emits only when a line ended, and it
/// drains the error queue.
pub open spec fn prompted(v: VMView) -> VMView {
    if v.line {
        VMView { output: v.output + prompt_out(v.errors), errors: Seq::<ErrView>::empty(), line: false, ..v }
    } else {
        v
    }
}

/// Reading one input byte: a due prompt is emitted first; an exhausted
/// input stops the machine and reports termination; a carriage return
/// marks the line as ended.
pub open spec fn input_byte_spec(v: VMView) -> (VMView, VMResult<u8>) {
    let v1 = prompted(v);
    if v1.pos >= v1.input.len() {
        ((VMView { running: false, ..v1 }), Err(VMError::Terminated))
    } else {
        (
            (VMView { pos: v1.pos + 1, line: v1.input[v1.pos] == 13, ..v1 }),
            Ok(v1.input[v1.pos]),
        )
    }
}

/// The ASCII whitespace bytes that delimit words.
pub open spec fn is_ws_spec(b: u8) -> bool {
    b == 32 || b == 9 || b == 10 || b == 12 || b == 13
}

/// Scanning one whitespace-delimited token into the scratch buffer, having
/// buffered `i` bytes so far: whitespace ends a nonempty token, bytes past
/// the 31st are dropped, and the token's length comes back.
pub open spec fn scan_rec(v: VMView, i: u32) -> (VMView, VMResult<u32>)
    decreases v.input.len() - v.pos,
{
    let step = input_byte_spec(v);
    match step.1 {
        Err(e) => (step.0, Err(e)),
        Ok(b) => {
            if is_ws_spec(b) {
                if i > 0 {
                    (step.0, Ok(i))
                } else {
                    scan_rec(step.0, i)
                }
            } else {
                if i < 31 {
                    scan_rec(
                        (VMView { mem: store8(step.0.mem, 16 + i, b), ..step.0 }),
                        (i + 1) as u32,
                    )
                } else {
                    scan_rec(step.0, i)
                }
            }
        },
    }
}

/// Whether a byte is ASCII whitespace.
pub fn is_ws(b: u8) -> (r: bool)
    ensures
        r == is_ws_spec(b),
{
    b == 32 || b == 9 || b == 10 || b == 12 || b == 13
}

/// The ASCII characters of a string as bytes; other characters are
/// dropped at this host boundary.
pub open spec fn ascii_filter(s: Seq<char>) -> Seq<u8>
    decreases s.len(),
{
    if s.len() == 0 {
        Seq::<u8>::empty()
    } else if s.last() as int <= 127 {
        ascii_filter(s.drop_last()).push(s.last() as u8)
    } else {
        ascii_filter(s.drop_last())
    }
}

/// Keep the ASCII characters of a string as bytes, dropping the rest.
pub fn str_to_bytes(s: &str) -> (r: Vec<u8>)
    ensures
        r@ == ascii_filter(s@),
{
    let n = s.unicode_len();
    let mut v: Vec<u8> = Vec::new();
    let mut i: usize = 0;
    while i < n
        invariant
            i <= n,
            n == s@.len(),
            v@ == ascii_filter(s@.take(i as int)),
        decreases n - i,
    {
        let c = s.get_char(i);
        if (c as u32) < 128 {
            v.push(c as u8);
        }
        i = i + 1;
        proof {
            assert(s@.take(i as int).drop_last() =~= s@.take(i - 1));
            assert(s@.take(i as int).last() == s@[i - 1]);
        }
    }
    proof {
        assert(s@.take(n as int) =~= s@);
    }
    v
}

impl VM {
    /// Append every character of `s` to the output, as bytes.
    pub fn append_str(&mut self, s: &str)
        ensures
            final(self)@ == (VMView { output: old(self)@.output + ascii(s@), ..old(self)@ }),
    {
        let n = s.unicode_len();
        let mut i: usize = 0;
        while i < n
            invariant
                i <= n,
                n == s@.len(),
                self@ == (VMView {
                    output: old(self)@.output + ascii(s@.take(i as int)),
                    ..old(self)@
                }),
            decreases n - i,
        {
            let c = s.get_char(i);
            self.output.push(c as u8);
            i = i + 1;
            proof {
                assert(old(self)@.output + ascii(s@.take(i as int)) =~= (old(self)@.output + ascii(
                    s@.take(i - 1),
                )).push(s@[i - 1] as u8));
            }
        }
        proof {
            assert(ascii(s@.take(n as int)) =~= ascii(s@));
        }
    }

    /// Emit the prompt if a line just ended: ` ok`, or the queued error
    /// names one per line, then `>` on a fresh line; the queue is drained.
    pub fn prompt(&mut self)
        ensures
            final(self)@ == prompted(old(self)@),
    {
        if !self.line {
            return ;
        }
        if self.errors.len() == 0 {
            self.append_str(" ok\n");
        } else {
            let n = self.errors.len();
            let mut i: usize = 0;
            while i < n
                invariant
                    i <= n,
                    n == self@.errors.len(),
                    self@.errors == old(self)@.errors,
                    self@ == (VMView {
                        output: old(self)@.output + err_lines(old(self)@.errors.take(i as int)),
                        ..old(self)@
                    }),
                decreases n - i,
            {
                let name = error_name(&self.errors[i]);
                self.append_str(" ");
                self.append_str(name.as_str());
                self.append_str("\n");
                i = i + 1;
                proof {
                    let errs = old(self)@.errors;
                    let e = errs[i - 1];
                    assert(errs.take(i as int).drop_last() =~= errs.take(i - 1));
                    assert(errs.take(i as int).last() == e);
                    assert(e == err_view(old(self).errors@[i - 1]));
                    assert(ascii(name@) == err_name_bytes(e));
                    assert(old(self)@.output + err_lines(errs.take(i as int)) =~= ((old(self)@.output
                        + err_lines(errs.take(i - 1)) + ascii(" "@)) + ascii(name@)) + ascii(
                        "\n"@,
                    ));
                }
            }
            proof {
                assert(old(self)@.errors.take(n as int) =~= old(self)@.errors);
            }
        }
        self.errors.clear();
        self.append_str(">");
        self.line = false;
        proof {
            assert(self@.errors =~= Seq::<ErrView>::empty());
            assert(self@.output =~= old(self)@.output + prompt_out(old(self)@.errors));
        }
    }

    /// Read one input byte, prompting first if a line just ended; an
    /// exhausted input stops the machine and reports termination.
    pub fn input_byte(&mut self) -> (r: VMResult<u8>)
        requires
            old(self).wf(),
        ensures
            final(self).wf(),
            final(self)@ == input_byte_spec(old(self)@).0,
            r == input_byte_spec(old(self)@).1,
    {
        if self.line {
            self.prompt();
            self.line = false;
        }
        if self.input_pos >= self.input.len() {
            self.running = false;
            return Err(VMError::Terminated);
        }
        let b = self.input[self.input_pos];
        self.input_pos = self.input_pos + 1;
        if b == 13 {
            self.line = true;
        }
        Ok(b)
    }

    /// Read one whitespace-delimited token into the scratch buffer,
    /// truncating it to 31 bytes; returns its address and length.
    pub fn input_word(&mut self) -> (r: VMResult<(u32, u32)>)
        requires
            old(self).wf(),
        ensures
            final(self).wf(),
            final(self)@ == scan_rec(old(self)@, 0).0,
            (match scan_rec(old(self)@, 0).1 {
                Ok(i) => r == VMResult::<(u32, u32)>::Ok((ADDR_WORD_BUFFER, i)),
                Err(e) => r == VMResult::<(u32, u32)>::Err(e),
            }),
    {
        let mut i: u32 = 0;
        loop
            invariant
                self.wf(),
                i <= 31,
                scan_rec(old(self)@, 0) == scan_rec(self@, i),
            decreases self@.input.len() - self@.pos,
        {
            let b = match self.input_byte() {
                Ok(v) => v,
                Err(e) => {
                    return Err(e);
                },
            };
            if is_ws(b) {
                if i > 0 {
                    return Ok((ADDR_WORD_BUFFER, i));
                }
            } else {
                if i < 31 {
                    match self.write_u8(ADDR_WORD_BUFFER + i, b) {
                        Ok(v) => v,
                        Err(e) => {
                            proof {
                                assert(false);
                            }
                            return Err(e);
                        },
                    };
                    i = i + 1;
                }
            }
        }
    }

    /// Read one token and push its address and length.
    pub fn word(&mut self) -> (r: VMSuccess)
        requires
            old(self).wf(),
        ensures
            final(self).wf(),
            (match scan_rec(old(self)@, 0).1 {
                Ok(i) => r == VMSuccess::Ok(()) && final(self)@ == (VMView {
                    data: scan_rec(old(self)@, 0).0.data.push(ADDR_WORD_BUFFER).push(i),
                    ..scan_rec(old(self)@, 0).0
                }),
                Err(e) => r == VMSuccess::Err(e) && final(self)@ == scan_rec(old(self)@, 0).0,
            }),
    {
        let pair = match self.input_word() {
            Ok(v) => v,
            Err(e) => {
                return Err(e);
            },
        };
        self.push_data(pair.0);
        self.push_data(pair.1);
        Ok(())
    }

    /// Copy a word's ASCII bytes into the scratch buffer, truncated to the
    /// buffer's 32 bytes, and push its address and length. Used only while
    /// the dictionary is bootstrapped.
    pub fn buffer_word(&mut self, word: &str)
        requires
            old(self).wf(),
        ensures
            final(self).wf(),
            final(self)@ == (VMView {
                mem: splice(
                    old(self)@.mem,
                    16,
                    ascii_filter(word@).take(
                        if ascii_filter(word@).len() > 32 {
                            32int
                        } else {
                            ascii_filter(word@).len() as int
                        },
                    ),
                ),
                data: old(self)@.data.push(ADDR_WORD_BUFFER).push(
                    if ascii_filter(word@).len() > 32 {
                        32u32
                    } else {
                        ascii_filter(word@).len() as u32
                    },
                ),
                ..old(self)@
            }),
    {
        let bytes = str_to_bytes(word);
        let n: usize = if bytes.len() > 32 {
            32
        } else {
            bytes.len()
        };
        let mut i: usize = 0;
        proof {
            assert(splice(old(self)@.mem, 16, bytes@.take(0)) =~= old(self)@.mem);
        }
        while i < n
            invariant
                old(self).wf(),
                i <= n,
                n <= 32,
                n <= bytes@.len(),
                bytes@ == ascii_filter(word@),
                self@ == (VMView {
                    mem: splice(old(self)@.mem, 16, bytes@.take(i as int)),
                    ..old(self)@
                }),
            decreases n - i,
        {
            let a = 16 + i;
            self.memory[a] = bytes[i];
            i = i + 1;
            proof {
                assert(splice(old(self)@.mem, 16, bytes@.take(i as int)) =~= splice(
                    old(self)@.mem,
                    16,
                    bytes@.take(i - 1),
                ).update(16 + i - 1, bytes@[i - 1]));
            }
        }
        self.push_data(ADDR_WORD_BUFFER);
        self.push_data(n as u32);
        proof {
            assert(splice(old(self)@.mem, 16, bytes@.take(n as int)) == self@.mem);
        }
    }

    /// Append bytes to the pending input as the prelude is fed: carriage
    /// returns become spaces, and one carriage return is appended so an
    /// unterminated final line still ends.
    pub fn feed_prelude(&mut self, bytes: &[u8])
        requires
            old(self).wf(),
        ensures
            final(self).wf(),
            final(self)@ == (VMView {
                input: old(self)@.input + bytes@.map_values(
                    |b: u8|
                        if b == 13 {
                            32u8
                        } else {
                            b
                        },
                ) + seq![13u8],
                ..old(self)@
            }),
    {
        let n = bytes.len();
        let mut i: usize = 0;
        while i < n
            invariant
                old(self).wf(),
                i <= n,
                n == bytes@.len(),
                self@ == (VMView {
                    input: old(self)@.input + bytes@.take(i as int).map_values(
                        |b: u8|
                            if b == 13 {
                                32u8
                            } else {
                                b
                            },
                    ),
                    ..old(self)@
                }),
            decreases n - i,
        {
            let b = bytes[i];
            if b == 13 {
                self.input.push(32);
            } else {
                self.input.push(b);
            }
            i = i + 1;
            proof {
                let f = |b: u8|
                    if b == 13 {
                        32u8
                    } else {
                        b
                    };
                assert(old(self)@.input + bytes@.take(i as int).map_values(f) =~= (old(self)@.input
                    + bytes@.take(i - 1).map_values(f)).push(f(bytes@[i - 1])));
            }
        }
        self.input.push(13);
        proof {
            let f = |b: u8|
                if b == 13 {
                    32u8
                } else {
                    b
                };
            assert(old(self)@.input + bytes@.map_values(f) + seq![13u8] =~= (old(self)@.input
                + bytes@.take(n as int).map_values(f)).push(13u8));
        }
    }
}

} // verus!
