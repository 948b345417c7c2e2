//! Framing of outbound lines.

use vstd::prelude::*;
use vstd::utf8::encode_utf8;
use crate::error::Error;
use crate::wire::{CR, LF};

verus! {

/// `data` as one line on the wire: its bytes, then carriage return and line
/// feed.
pub open spec fn line_of(data: Seq<u8>) -> Seq<u8> {
    data + seq![CR, LF]
}

/// A sink of bytes that can take whole lines.
pub trait WriteExt {
    /// Everything written to the sink so far.
    spec fn written(&self) -> Seq<u8>;

    /// Writes `data` and the line terminator after it. A sink that cannot
    /// take the whole line reports `WriteFailed`.
    fn write_line(&mut self, data: &[u8]) -> (r: Result<(), Error>)
        ensures
            r is Ok ==> final(self).written() == old(self).written() + line_of(data@),
            r matches Err(e) ==> e == Error::WriteFailed,
    ;
}

impl WriteExt for Vec<u8> {
    open spec fn written(&self) -> Seq<u8> {
        self@
    }

    /// A vector takes every line.
    fn write_line(&mut self, data: &[u8]) -> (r: Result<(), Error>)
        ensures
            r is Ok,
    {
        let ghost before = self@;
        let mut i: usize = 0;
        while i < data.len()
            invariant
                i <= data.len(),
                self@ == before + data@.take(i as int),
            decreases data.len() - i,
        {
            self.push(data[i]);
            assert(data@.take(i + 1) =~= data@.take(i as int).push(data@[i as int]));
            i += 1;
        }
        self.push(CR);
        self.push(LF);
        assert(data@.take(i as int) =~= data@);
        assert(self@ =~= before + line_of(data@));
        Ok(())
    }
}

/// The bytes to send for `command`: the command as it is, ended as a line.
pub fn command_line(command: &str) -> (frame: Vec<u8>)
    ensures
        frame@ == line_of(encode_utf8(command@)),
{
    let mut frame: Vec<u8> = Vec::new();
    let _ = frame.write_line(command.as_bytes());
    assert(Seq::<u8>::empty() + line_of(encode_utf8(command@)) =~= line_of(encode_utf8(command@)));
    frame
}

} // verus!
