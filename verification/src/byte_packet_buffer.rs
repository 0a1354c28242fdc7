use vstd::prelude::*;
use vstd::string::{StringExecFns, StringSliceAdditionalSpecFns};

use crate::dns_error::DnsError;
use crate::name::{label_text, label_len_at, lowercase, read_name_at, read_name_spec, utf8_lossy,
    write_name_attempt, write_name_attempt_from, write_name_result, write_name_result_from,
    NameParse};

verus! {

/// Two bytes as one big-endian `u16`.
pub open spec fn be16(hi: u8, lo: u8) -> u16 {
    (hi as int * 256 + lo as int) as u16
}

/// Four bytes as one big-endian `u32`.
pub open spec fn be32(b0: u8, b1: u8, b2: u8, b3: u8) -> u32 {
    (b0 as int * 0x1000000 + b1 as int * 0x10000 + b2 as int * 256 + b3 as int) as u32
}

/// The two big-endian bytes of a `u16`, most significant first.
pub open spec fn u16_bytes(v: u16) -> Seq<u8> {
    seq![(v as int / 256) as u8, (v as int % 256) as u8]
}

/// The four big-endian bytes of a `u32`, most significant first.
pub open spec fn u32_bytes(v: u32) -> Seq<u8> {
    seq![
        (v as int / 0x1000000) as u8,
        ((v as int / 0x10000) % 256) as u8,
        ((v as int / 256) % 256) as u8,
        (v as int % 256) as u8,
    ]
}

/// `buf` with `bytes` overlaid starting at `pos`; whatever falls past
/// the end of `buf` is dropped.  This is exactly the effect of the
/// buffer's sequential writes, including a write cut short by the
/// 512-byte bound.
pub open spec fn splice(buf: Seq<u8>, pos: int, bytes: Seq<u8>) -> Seq<u8> {
    Seq::new(buf.len(), |i: int| if pos <= i && i < pos + bytes.len() { bytes[i - pos] } else { buf[i] })
}

/// A fixed 512-byte packet buffer with a cursor: the sole carrier of
/// DNS wire bytes.  Reads and writes advance the cursor and fail once
/// it would pass 512.
pub struct BytePacketBuffer {
    pub buf: Vec<u8>,
    pub pos: usize,
}

impl BytePacketBuffer {
    /// The buffer always holds exactly 512 bytes.
    pub open spec fn wf(&self) -> bool {
        self.buf@.len() == 512
    }

    /// A fresh zeroed buffer with the cursor at the start.
    pub fn new() -> (r: Self)
        ensures
            r.wf(),
            r.pos == 0,
            r.buf@ == Seq::new(512, |i: int| 0u8),
    {
        let mut buf: Vec<u8> = Vec::new();
        let mut i: usize = 0;
        while i < 512
            invariant
                i <= 512,
                buf@ == Seq::new(i as nat, |j: int| 0u8),
            decreases 512 - i,
        {
            buf.push(0);
            i = i + 1;
            proof {
                assert(buf@ =~= Seq::new(i as nat, |j: int| 0u8));
            }
        }
        BytePacketBuffer { buf, pos: 0 }
    }

    /// Current position within the buffer.
    pub fn pos(&self) -> (r: usize)
        ensures
            r == self.pos,
    {
        self.pos
    }

    /// Step the buffer position forward a specific number of steps.
    pub fn step(&mut self, steps: usize) -> (r: Result<(), DnsError>)
        requires
            old(self).pos + steps <= usize::MAX,
        ensures
            final(self).pos == old(self).pos + steps,
            final(self).buf == old(self).buf,
            r is Ok,
    {
        self.pos += steps;
        Ok(())
    }

    /// Change the buffer position.
    pub fn seek(&mut self, pos: usize) -> (r: Result<(), DnsError>)
        ensures
            final(self).pos == pos,
            final(self).buf == old(self).buf,
            r is Ok,
    {
        self.pos = pos;
        Ok(())
    }

    /// Read a single byte and move the position one step forward.
    pub fn read(&mut self) -> (r: Result<u8, DnsError>)
        requires
            old(self).wf(),
        ensures
            final(self).wf(),
            final(self).buf == old(self).buf,
            old(self).pos < 512 ==> r == Ok::<u8, DnsError>(old(self).buf@[old(self).pos as int])
                && final(self).pos == old(self).pos + 1,
            old(self).pos >= 512 ==> r == Err::<u8, DnsError>(DnsError::EndOfBuffer)
                && final(self).pos == old(self).pos,
    {
        if self.pos >= 512 {
            return Err(DnsError::EndOfBuffer);
        }
        let res = self.buf[self.pos];
        self.pos += 1;
        Ok(res)
    }

    /// Get a single byte, without changing the buffer position.
    pub fn get(&self, pos: usize) -> (r: Result<u8, DnsError>)
        requires
            self.wf(),
        ensures
            pos < 512 ==> r == Ok::<u8, DnsError>(self.buf@[pos as int]),
            pos >= 512 ==> r == Err::<u8, DnsError>(DnsError::EndOfBuffer),
    {
        if pos >= 512 {
            return Err(DnsError::EndOfBuffer);
        }
        Ok(self.buf[pos])
    }

    /// Get a range of bytes.
    pub fn get_range(&self, start: usize, len: usize) -> (r: Result<&[u8], DnsError>)
        requires
            self.wf(),
        ensures
            start + len <= 512 ==> r is Ok && r->Ok_0@ == self.buf@.subrange(start as int, start + len),
            start + len > 512 ==> r == Err::<&[u8], DnsError>(DnsError::EndOfBuffer),
    {
        if start > 512 || len > 512 - start {
            return Err(DnsError::EndOfBuffer);
        }
        Ok(vstd::slice::slice_subrange(self.buf.as_slice(), start, start + len))
    }

    /// Read two bytes as a big-endian `u16`, stepping two steps forward.
    pub fn read_u16(&mut self) -> (r: Result<u16, DnsError>)
        requires
            old(self).wf(),
        ensures
            final(self).wf(),
            final(self).buf == old(self).buf,
            old(self).pos + 2 <= 512 ==> r == Ok::<u16, DnsError>(be16(
                old(self).buf@[old(self).pos as int],
                old(self).buf@[old(self).pos + 1],
            )) && final(self).pos == old(self).pos + 2,
            old(self).pos + 2 > 512 ==> r == Err::<u16, DnsError>(DnsError::EndOfBuffer)
                && final(self).pos == (if old(self).pos >= 512 { old(self).pos as int } else { 512 }),
    {
        let hi = match self.read() {
            Ok(v) => v,
            Err(e) => return Err(e),
        };
        let lo = match self.read() {
            Ok(v) => v,
            Err(e) => return Err(e),
        };
        Ok((hi as u16) * 256 + (lo as u16))
    }

    /// Read four bytes as a big-endian `u32`, stepping four steps forward.
    pub fn read_u32(&mut self) -> (r: Result<u32, DnsError>)
        requires
            old(self).wf(),
        ensures
            final(self).wf(),
            final(self).buf == old(self).buf,
            old(self).pos + 4 <= 512 ==> r == Ok::<u32, DnsError>(be32(
                old(self).buf@[old(self).pos as int],
                old(self).buf@[old(self).pos + 1],
                old(self).buf@[old(self).pos + 2],
                old(self).buf@[old(self).pos + 3],
            )) && final(self).pos == old(self).pos + 4,
            old(self).pos + 4 > 512 ==> r == Err::<u32, DnsError>(DnsError::EndOfBuffer)
                && final(self).pos == (if old(self).pos >= 512 { old(self).pos as int } else { 512 }),
    {
        let b0 = match self.read() {
            Ok(v) => v,
            Err(e) => return Err(e),
        };
        let b1 = match self.read() {
            Ok(v) => v,
            Err(e) => return Err(e),
        };
        let b2 = match self.read() {
            Ok(v) => v,
            Err(e) => return Err(e),
        };
        let b3 = match self.read() {
            Ok(v) => v,
            Err(e) => return Err(e),
        };
        Ok((b0 as u32) * 0x1000000 + (b1 as u32) * 0x10000 + (b2 as u32) * 256 + (b3 as u32))
    }

    /// Write a single byte and move the position one step forward.
    pub fn write(&mut self, val: u8) -> (r: Result<(), DnsError>)
        requires
            old(self).wf(),
        ensures
            final(self).wf(),
            old(self).pos < 512 ==> r is Ok
                && final(self).buf@ == old(self).buf@.update(old(self).pos as int, val)
                && final(self).pos == old(self).pos + 1,
            old(self).pos >= 512 ==> r == Err::<(), DnsError>(DnsError::EndOfBuffer)
                && final(self).buf == old(self).buf
                && final(self).pos == old(self).pos,
    {
        if self.pos >= 512 {
            return Err(DnsError::EndOfBuffer);
        }
        self.buf.set(self.pos, val);
        self.pos += 1;
        Ok(())
    }

    /// Write a single byte.
    pub fn write_u8(&mut self, val: u8) -> (r: Result<(), DnsError>)
        requires
            old(self).wf(),
        ensures
            final(self).wf(),
            old(self).pos < 512 ==> r is Ok
                && final(self).buf@ == old(self).buf@.update(old(self).pos as int, val)
                && final(self).pos == old(self).pos + 1,
            old(self).pos >= 512 ==> r == Err::<(), DnsError>(DnsError::EndOfBuffer)
                && final(self).buf == old(self).buf
                && final(self).pos == old(self).pos,
    {
        self.write(val)
    }

    /// Write a `u16` as two big-endian bytes.
    pub fn write_u16(&mut self, val: u16) -> (r: Result<(), DnsError>)
        requires
            old(self).wf(),
        ensures
            final(self).wf(),
            final(self).buf@ == splice(old(self).buf@, old(self).pos as int, u16_bytes(val)),
            final(self).pos == (if old(self).pos >= 512 {
                old(self).pos as int
            } else if old(self).pos + 2 <= 512 {
                old(self).pos + 2
            } else {
                512int
            }),
            r is Ok <==> old(self).pos + 2 <= 512,
            r is Err ==> r == Err::<(), DnsError>(DnsError::EndOfBuffer),
    {
        let hi: u8 = (val / 256) as u8;
        let lo: u8 = (val % 256) as u8;
        match self.write(hi) {
            Ok(()) => {}
            Err(e) => {
                proof {
                    assert(final(self).buf@ =~= splice(old(self).buf@, old(self).pos as int, u16_bytes(val)));
                }
                return Err(e);
            }
        }
        match self.write(lo) {
            Ok(()) => {}
            Err(e) => {
                proof {
                    assert(self.buf@ =~= splice(old(self).buf@, old(self).pos as int, u16_bytes(val)));
                }
                return Err(e);
            }
        }
        proof {
            assert(self.buf@ =~= splice(old(self).buf@, old(self).pos as int, u16_bytes(val)));
        }
        Ok(())
    }

    /// Write a `u32` as four big-endian bytes.
    pub fn write_u32(&mut self, val: u32) -> (r: Result<(), DnsError>)
        requires
            old(self).wf(),
        ensures
            final(self).wf(),
            final(self).buf@ == splice(old(self).buf@, old(self).pos as int, u32_bytes(val)),
            final(self).pos == (if old(self).pos >= 512 {
                old(self).pos as int
            } else if old(self).pos + 4 <= 512 {
                old(self).pos + 4
            } else {
                512int
            }),
            r is Ok <==> old(self).pos + 4 <= 512,
            r is Err ==> r == Err::<(), DnsError>(DnsError::EndOfBuffer),
    {
        let b0: u8 = (val / 0x1000000) as u8;
        let b1: u8 = ((val / 0x10000) % 256) as u8;
        let b2: u8 = ((val / 256) % 256) as u8;
        let b3: u8 = (val % 256) as u8;
        let ghost target = splice(old(self).buf@, old(self).pos as int, u32_bytes(val));
        match self.write(b0) {
            Ok(()) => {}
            Err(e) => {
                proof {
                    assert(self.buf@ =~= target);
                }
                return Err(e);
            }
        }
        match self.write(b1) {
            Ok(()) => {}
            Err(e) => {
                proof {
                    assert(self.buf@ =~= target);
                }
                return Err(e);
            }
        }
        match self.write(b2) {
            Ok(()) => {}
            Err(e) => {
                proof {
                    assert(self.buf@ =~= target);
                }
                return Err(e);
            }
        }
        match self.write(b3) {
            Ok(()) => {}
            Err(e) => {
                proof {
                    assert(self.buf@ =~= target);
                }
                return Err(e);
            }
        }
        proof {
            assert(self.buf@ =~= target);
        }
        Ok(())
    }

    /// Decode a domain name at the cursor, appending it to `outstr`
    /// with labels joined by dots, each label decoded as UTF-8 with
    /// invalid sequences replaced, then lowercased.  Compression
    /// pointers are chased
    /// through a shadow position: the primary cursor moves just past
    /// the first pointer and otherwise past the terminator.  More than
    /// five pointer jumps fail the decode.
    #[verifier::loop_isolation(false)]
    #[verifier::rlimit(60)]
    pub fn read_qname(&mut self, outstr: &mut String) -> (r: Result<(), DnsError>)
        requires
            old(self).wf(),
        ensures
            final(self).wf(),
            final(self).buf@ == old(self).buf@,
            r == read_name_at(old(self).buf@, old(self).pos as int).outcome,
            final(outstr)@ == old(outstr)@ + read_name_at(old(self).buf@, old(self).pos as int).text,
            final(self).pos == read_name_at(old(self).buf@, old(self).pos as int).cursor,
    {
        let ghost s: Seq<u8> = self.buf@;
        let ghost target: NameParse = read_name_at(s, self.pos as int);
        let mut p: usize = self.pos();
        let mut jumped = false;
        let mut jumps: usize = 0;
        let mut first = true;
        let ghost mut acc: Seq<char> = seq![];
        loop
            invariant
                self.wf(),
                self.buf@ == s,
                jumps <= 6,
                outstr@ == old(outstr)@ + acc,
                read_name_spec(s, p as int, jumps as int, self.pos as int, jumped, first, acc)
                    == target,
            decreases 6 - jumps, (if p <= 513 { 513int - p } else { 0int }),
        {
            if jumps > 5 {
                return Err(DnsError::JumpLimitExceeded);
            }
            let b = match self.get(p) {
                Ok(v) => v,
                Err(e) => return Err(e),
            };
            if (b & 0xC0) == 0xC0 {
                proof {
                    assert(b >= 192) by (bit_vector)
                        requires
                            (b & 0xC0) == 0xC0,
                    ;
                }
                if !jumped {
                    let _ = self.seek(p + 2);
                }
                let b2 = match self.get(p + 1) {
                    Ok(v) => v,
                    Err(e) => return Err(e),
                };
                let offset = ((b - 192) as usize) * 256 + (b2 as usize);
                p = offset;
                jumped = true;
                jumps += 1;
            } else {
                proof {
                    assert(b < 192) by (bit_vector)
                        requires
                            (b & 0xC0) != 0xC0,
                    ;
                }
                if b == 0 {
                    if !jumped {
                        let _ = self.seek(p + 1);
                    }
                    return Ok(());
                }
                if !first {
                    outstr.push('.');
                }
                proof {
                    acc = acc + (if first { seq![] } else { seq!['.'] });
                }
                let lenb = b as usize;
                let range = match self.get_range(p + 1, lenb) {
                    Ok(v) => v,
                    Err(e) => return Err(e),
                };
                let fragment = utf8_lossy(range);
                let lowered = lowercase(fragment.as_str());
                outstr.append(lowered.as_str());
                proof {
                    reveal(label_text);
                    acc = acc + label_text(s.subrange(p + 1, p + 1 + lenb));
                }
                first = false;
                p = p + 1 + lenb;
            }
        }
    }

    /// Encode a domain name as uncompressed length-prefixed labels
    /// followed by a zero byte, splitting the text form at every dot.
    /// An over-long label is rejected; a full buffer cuts the write
    /// short.
    #[verifier::loop_isolation(false)]
    #[verifier::rlimit(60)]
    pub fn write_qname(&mut self, qname: &str) -> (r: Result<(), DnsError>)
        requires
            old(self).wf(),
        ensures
            final(self).wf(),
            final(self).buf@ == splice(old(self).buf@, old(self).pos as int, write_name_attempt(qname.spec_bytes())),
            final(self).pos == (if old(self).pos >= 512 {
                old(self).pos as int
            } else if old(self).pos + write_name_attempt(qname.spec_bytes()).len() <= 512 {
                old(self).pos + write_name_attempt(qname.spec_bytes()).len()
            } else {
                512int
            }),
            r == write_name_result(qname.spec_bytes(), old(self).pos as int),
    {
        let ghost s: Seq<u8> = qname.spec_bytes();
        let ghost pos0: int = old(self).pos as int;
        let ghost buf0: Seq<u8> = old(self).buf@;
        let bytes: &[u8] = qname.as_bytes();
        let n: usize = bytes.len();
        let mut start: usize = 0;
        let ghost mut done: Seq<u8> = seq![];
        loop
            invariant
                self.wf(),
                0 <= start <= n,
                self.pos == pos0 + done.len(),
                done.len() > 0 ==> pos0 < 512 && self.pos <= 512,
                self.buf@ == splice(buf0, pos0, done),
                write_name_attempt_from(s, 0) == done + write_name_attempt_from(s, start as int),
                write_name_result_from(s, 0, pos0) == write_name_result_from(s, start as int, pos0 + done.len()),
            decreases n - start,
        {
            let ghost done_ls = done;
            let ghost pos_ls = pos0 + done.len();
            // find the end of the current label: the next dot or the end
            let mut end: usize = start;
            while end < n && bytes[end] != 46
                invariant
                    start <= end <= n,
                    label_len_at(s, start as int) == end - start + label_len_at(s, end as int),
                decreases n - end,
            {
                end = end + 1;
            }
            proof {
                assert(label_len_at(s, end as int) == 0);
                assert(label_len_at(s, start as int) == end - start);
            }
            let len = end - start;
            if len > 0x3f {
                proof {
                    assert(write_name_attempt_from(s, start as int) =~= Seq::<u8>::empty());
                    assert(write_name_attempt_from(s, 0) =~= done);
                }
                return Err(DnsError::LabelTooLong);
            }
            // the label's length byte
            match self.write_u8(len as u8) {
                Ok(()) => {
                    proof {
                        lemma_splice_push(buf0, pos0, done, len as u8);
                        done = done.push(len as u8);
                    }
                }
                Err(_) => {
                    proof {
                        let attempt = write_name_attempt_from(s, 0);
                        assert(attempt.take(done.len() as int) =~= done);
                        lemma_splice_trunc(buf0, pos0, attempt, done.len() as int);
                    }
                    return Err(DnsError::EndOfBuffer);
                }
            }
            // the label's bytes
            let mut j = start;
            while j < end
                invariant
                    start <= j <= end,
                    self.wf(),
                    self.pos == pos_ls + 1 + (j - start),
                    self.pos <= 512,
                    pos0 < 512,
                    done == done_ls + seq![len as u8] + s.subrange(start as int, j as int),
                    self.buf@ == splice(buf0, pos0, done),
                decreases end - j,
            {
                match self.write_u8(bytes[j]) {
                    Ok(()) => {
                        proof {
                            lemma_splice_push(buf0, pos0, done, s[j as int]);
                            done = done.push(s[j as int]);
                            assert(done =~= done_ls + seq![len as u8] + s.subrange(
                                start as int,
                                j + 1,
                            ));
                        }
                    }
                    Err(_) => {
                        proof {
                            let attempt = write_name_attempt_from(s, 0);
                            assert(write_name_attempt_from(s, start as int) == seq![len as u8]
                                + s.subrange(start as int, end as int) + (if end == n {
                                seq![0u8]
                            } else {
                                write_name_attempt_from(s, end + 1)
                            }));
                            assert(attempt.take(done.len() as int) =~= done);
                            lemma_splice_trunc(buf0, pos0, attempt, done.len() as int);
                        }
                        return Err(DnsError::EndOfBuffer);
                    }
                }
                j = j + 1;
            }
            if end == n {
                // last label: the terminating zero byte
                match self.write_u8(0) {
                    Ok(()) => {
                        proof {
                            lemma_splice_push(buf0, pos0, done, 0u8);
                            done = done.push(0u8);
                            assert(write_name_attempt_from(s, start as int) =~= seq![len as u8]
                                + s.subrange(start as int, end as int) + seq![0u8]);
                            assert(done =~= done_ls + write_name_attempt_from(s, start as int));
                            assert(write_name_attempt_from(s, 0) =~= done);
                        }
                        return Ok(());
                    }
                    Err(_) => {
                        proof {
                            let attempt = write_name_attempt_from(s, 0);
                            assert(write_name_attempt_from(s, start as int) =~= seq![len as u8]
                                + s.subrange(start as int, end as int) + seq![0u8]);
                            assert(attempt.take(done.len() as int) =~= done);
                            lemma_splice_trunc(buf0, pos0, attempt, done.len() as int);
                        }
                        return Err(DnsError::EndOfBuffer);
                    }
                }
            }
            proof {
                assert(done =~= done_ls + seq![len as u8] + s.subrange(start as int, end as int));
                assert(write_name_attempt_from(s, start as int) == seq![len as u8] + s.subrange(
                    start as int,
                    end as int,
                ) + write_name_attempt_from(s, end + 1));
                assert(write_name_attempt_from(s, 0) =~= done + write_name_attempt_from(s, end + 1));
            }
            start = end + 1;
        }
    }

    /// Overwrite a single byte in place, without moving the cursor.
    pub fn set(&mut self, pos: usize, val: u8) -> (r: Result<(), DnsError>)
        requires
            old(self).wf(),
            pos < 512,
        ensures
            final(self).wf(),
            final(self).buf@ == old(self).buf@.update(pos as int, val),
            final(self).pos == old(self).pos,
            r is Ok,
    {
        self.buf.set(pos, val);
        Ok(())
    }

    /// Overwrite a `u16` in place as two big-endian bytes, without
    /// moving the cursor.
    pub fn set_u16(&mut self, pos: usize, val: u16) -> (r: Result<(), DnsError>)
        requires
            old(self).wf(),
            pos + 1 < 512,
        ensures
            final(self).wf(),
            final(self).buf@ == splice(old(self).buf@, pos as int, u16_bytes(val)),
            final(self).pos == old(self).pos,
            r is Ok,
    {
        let r1 = self.set(pos, (val / 256) as u8);
        let r2 = self.set(pos + 1, (val % 256) as u8);
        proof {
            assert(self.buf@ =~= splice(old(self).buf@, pos as int, u16_bytes(val)));
        }
        Ok(())
    }
}

/// Nothing below `pos` changed between the buffer states `b0` and
/// `b1`: what a writer that starts at `pos` guarantees even when it
/// stops early.
pub open spec fn untouched_below(b0: Seq<u8>, b1: Seq<u8>, pos: int) -> bool {
    forall|i: int| 0 <= i < pos && i < b0.len() ==> b1[i] == b0[i]
}

/// An overlay at or after `pos` leaves everything below `pos` alone.
pub proof fn lemma_untouched_below_splice(b0: Seq<u8>, p: int, bytes: Seq<u8>, pos: int)
    requires
        pos <= p,
    ensures
        untouched_below(b0, splice(b0, p, bytes), pos),
{
}

/// `untouched_below` composes across two buffer states.
pub proof fn lemma_untouched_below_trans(b0: Seq<u8>, b1: Seq<u8>, b2: Seq<u8>, pos: int)
    requires
        untouched_below(b0, b1, pos),
        untouched_below(b1, b2, pos),
        b0.len() == b1.len(),
    ensures
        untouched_below(b0, b2, pos),
{
}

/// Overlaying one more byte right after `bytes` is the same as
/// overlaying `bytes` extended by that byte.
pub proof fn lemma_splice_push(buf: Seq<u8>, pos: int, bytes: Seq<u8>, v: u8)
    requires
        0 <= pos,
        pos + bytes.len() < buf.len(),
    ensures
        splice(buf, pos, bytes).update(pos + bytes.len(), v) == splice(buf, pos, bytes.push(v)),
{
    assert(splice(buf, pos, bytes).update(pos + bytes.len(), v) =~= splice(buf, pos, bytes.push(v)));
}

/// Bytes that would land past the end of the buffer change nothing:
/// the overlay may as well stop at the buffer's edge.
pub proof fn lemma_splice_trunc(buf: Seq<u8>, pos: int, bytes: Seq<u8>, k: int)
    requires
        0 <= k <= bytes.len(),
        pos + k >= buf.len(),
    ensures
        splice(buf, pos, bytes) == splice(buf, pos, bytes.take(k)),
{
    assert(splice(buf, pos, bytes) =~= splice(buf, pos, bytes.take(k)));
}

/// Two overlays in a row, the second starting where the first ended,
/// are one overlay of the concatenation.
pub proof fn lemma_splice_concat(buf: Seq<u8>, pos: int, xs: Seq<u8>, ys: Seq<u8>)
    requires
        0 <= pos,
    ensures
        splice(splice(buf, pos, xs), pos + xs.len(), ys) == splice(buf, pos, xs + ys),
{
    assert(splice(splice(buf, pos, xs), pos + xs.len(), ys) =~= splice(buf, pos, xs + ys));
}

/// Big-endian composition and decomposition of a `u16` are inverse:
/// the two bytes of `v` reassemble to `v`, and assembling two bytes
/// then taking them apart gives the bytes back.
pub proof fn lemma_be16_round_trip(v: u16, hi: u8, lo: u8)
    ensures
        be16(u16_bytes(v)[0], u16_bytes(v)[1]) == v,
        u16_bytes(be16(hi, lo)) == seq![hi, lo],
{
    assert(v as int / 256 * 256 + v as int % 256 == v as int);
    assert((hi as int * 256 + lo as int) / 256 == hi as int);
    assert((hi as int * 256 + lo as int) % 256 == lo as int);
    assert(u16_bytes(be16(hi, lo)) =~= seq![hi, lo]);
}

/// A big-endian `u32` splits at 16 bits into its two big-endian
/// `u16` halves.
pub proof fn lemma_be32_split16(b0: u8, b1: u8, b2: u8, b3: u8)
    ensures
        be32(b0, b1, b2, b3) as int / 0x10000 == be16(b0, b1),
        be32(b0, b1, b2, b3) as int % 0x10000 == be16(b2, b3),
{
    let n = b0 as int * 0x1000000 + b1 as int * 0x10000 + b2 as int * 256 + b3 as int;
    assert(n / 0x10000 == b0 as int * 256 + b1 as int && n % 0x10000 == b2 as int * 256
        + b3 as int) by (nonlinear_arith)
        requires
            n == b0 as int * 0x1000000 + b1 as int * 0x10000 + b2 as int * 256 + b3 as int,
            0 <= (b0 as int) < 256,
            0 <= (b1 as int) < 256,
            0 <= (b2 as int) < 256,
            0 <= (b3 as int) < 256,
    ;
}

/// Big-endian composition and decomposition of a `u32` are inverse.
pub proof fn lemma_be32_round_trip(v: u32, b0: u8, b1: u8, b2: u8, b3: u8)
    ensures
        be32(u32_bytes(v)[0], u32_bytes(v)[1], u32_bytes(v)[2], u32_bytes(v)[3]) == v,
        u32_bytes(be32(b0, b1, b2, b3)) == seq![b0, b1, b2, b3],
{
    let n = b0 as int * 0x1000000 + b1 as int * 0x10000 + b2 as int * 256 + b3 as int;
    assert(n / 0x1000000 == b0 as int && (n / 0x10000) % 256 == b1 as int && (n / 256) % 256
        == b2 as int && n % 256 == b3 as int) by (nonlinear_arith)
        requires
            n == b0 as int * 0x1000000 + b1 as int * 0x10000 + b2 as int * 256 + b3 as int,
            0 <= (b0 as int) < 256,
            0 <= (b1 as int) < 256,
            0 <= (b2 as int) < 256,
            0 <= (b3 as int) < 256,
    ;
    let m = v as int;
    assert(m / 0x1000000 * 0x1000000 + (m / 0x10000) % 256 * 0x10000 + (m / 256) % 256 * 256 + m
        % 256 == m) by (nonlinear_arith)
        requires
            0 <= m < 0x100000000,
    ;
    assert(u32_bytes(be32(b0, b1, b2, b3)) =~= seq![b0, b1, b2, b3]);
}

} // verus!
