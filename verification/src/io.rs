//! Sequential byte streams, as the content encoder sees them.
//!
//! A stream outside Verus leaves the spec functions of its trait as they are: nothing is known of
//! them.

use vstd::prelude::*;

use crate::error::Result;
use crate::util::{append_bytes, copy_range};

verus! {

/// A number of failures after one more operation.
pub open spec fn after(faults: nat, succeeded: bool) -> nat {
    if succeeded {
        faults
    } else {
        faults + 1
    }
}

/// A source of bytes that are read once, front to back.
pub trait ByteReader {
    /// The bytes not read yet.
    open spec fn rest(&self) -> Seq<u8> {
        arbitrary()
    }

    /// Whether every read succeeds.
    open spec fn dependable(&self) -> bool {
        arbitrary()
    }

    /// How many reads have failed.
    open spec fn faults(&self) -> nat {
        arbitrary()
    }

    /// Read at most `max` bytes. Reading nothing means that nothing was asked for or nothing is
    /// left.
    fn read(&mut self, max: usize) -> (r: Result<Vec<u8>>)
        ensures
            final(self).dependable() == old(self).dependable(),
            old(self).dependable() ==> r is Ok,
            final(self).faults() == after(old(self).faults(), r is Ok),
            r matches Ok(chunk) ==> {
                &&& chunk@.len() <= max
                &&& chunk@ + final(self).rest() == old(self).rest()
                &&& chunk@.len() == 0 ==> max == 0 || old(self).rest().len() == 0
            },
    ;
}

/// A sink that takes bytes in order.
pub trait ByteWriter {
    /// The bytes written so far.
    open spec fn written(&self) -> Seq<u8> {
        arbitrary()
    }

    /// Whether every write succeeds.
    open spec fn dependable(&self) -> bool {
        arbitrary()
    }

    /// How many writes have failed.
    open spec fn faults(&self) -> nat {
        arbitrary()
    }

    /// Write all of `data`.
    fn write_all(&mut self, data: &[u8]) -> (r: Result<()>)
        ensures
            final(self).dependable() == old(self).dependable(),
            old(self).dependable() ==> r is Ok,
            final(self).faults() == after(old(self).faults(), r is Ok),
            r is Ok ==> final(self).written() == old(self).written() + data@,
    ;
}

/// Reads a byte slice front to back.
pub struct SliceReader<'a> {
    data: &'a [u8],
    pos: usize,
}

impl<'a> SliceReader<'a> {
    /// A reader over all of `data`.
    pub fn new(data: &'a [u8]) -> (r: Self)
        ensures
            r.rest() == data@,
            r.dependable(),
    {
        let r = SliceReader { data, pos: 0 };
        assert(r.rest() =~= data@);
        r
    }

    /// The position stays inside the slice.
    #[verifier::type_invariant]
    spec fn inv(self) -> bool {
        self.pos <= self.data@.len()
    }
}

impl<'a> ByteReader for SliceReader<'a> {
    closed spec fn rest(&self) -> Seq<u8> {
        self.data@.subrange(self.pos as int, self.data@.len() as int)
    }

    open spec fn dependable(&self) -> bool {
        true
    }

    open spec fn faults(&self) -> nat {
        0
    }

    fn read(&mut self, max: usize) -> (r: Result<Vec<u8>>) {
        proof {
            use_type_invariant(&*self);
        }
        let left: usize = self.data.len() - self.pos;
        let n: usize = if max < left {
            max
        } else {
            left
        };
        let chunk: Vec<u8> = copy_range(self.data, self.pos, self.pos + n);
        self.pos = self.pos + n;
        assert(chunk@ + self.rest() =~= old(self).rest());
        Ok(chunk)
    }
}

/// Collects what is written in memory.
pub struct MemoryWriter {
    /// Everything written so far.
    pub data: Vec<u8>,
}

impl MemoryWriter {
    /// A sink that holds nothing yet.
    pub fn new() -> (r: Self)
        ensures
            r.written() == Seq::<u8>::empty(),
            r.dependable(),
    {
        MemoryWriter { data: Vec::new() }
    }
}

impl ByteWriter for MemoryWriter {
    open spec fn written(&self) -> Seq<u8> {
        self.data@
    }

    open spec fn dependable(&self) -> bool {
        true
    }

    open spec fn faults(&self) -> nat {
        0
    }

    fn write_all(&mut self, data: &[u8]) -> (r: Result<()>) {
        append_bytes(&mut self.data, data);
        Ok(())
    }
}

/// Read until `want` bytes have come or nothing is left.
pub fn read_up_to<R: ByteReader>(reader: &mut R, want: usize) -> (r: Result<Vec<u8>>)
    ensures
        final(reader).dependable() == old(reader).dependable(),
        old(reader).dependable() ==> r is Ok,
        final(reader).faults() == after(old(reader).faults(), r is Ok),
        r matches Ok(bytes) ==> {
            &&& bytes@ + final(reader).rest() == old(reader).rest()
            &&& bytes@.len() == if old(reader).rest().len() < want {
                old(reader).rest().len()
            } else {
                want as nat
            }
        },
{
    let ghost before = reader.rest();
    let mut out: Vec<u8> = Vec::new();
    assert(out@ + reader.rest() =~= before);
    while out.len() < want
        invariant
            out@.len() <= want,
            out@ + reader.rest() == before,
            before == old(reader).rest(),
            reader.dependable() == old(reader).dependable(),
            reader.faults() == old(reader).faults(),
        ensures
            out@ + reader.rest() == before,
            out@.len() <= want,
            out@.len() == want || reader.rest().len() == 0,
            reader.dependable() == old(reader).dependable(),
            reader.faults() == old(reader).faults(),
        decreases want - out@.len(),
    {
        let ghost sofar = out@;
        let chunk: Vec<u8> = match reader.read(want - out.len()) {
            Ok(chunk) => chunk,
            Err(e) => return Err(e),
        };
        if chunk.len() == 0 {
            assert(chunk@ + reader.rest() =~= reader.rest());
            break;
        }
        append_bytes(&mut out, chunk.as_slice());
        assert(out@ + reader.rest() =~= sofar + (chunk@ + reader.rest()));
    }
    assert(before.len() == out@.len() + reader.rest().len());
    Ok(out)
}

} // verus!
