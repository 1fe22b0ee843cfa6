//! The two capabilities that a machine needs from its surroundings: a place to
//! read single bytes from and a place to write single bytes to.

use vstd::prelude::*;

verus! {

/// What a source answers when it is asked for one byte.
#[derive(Clone, Copy, Debug, PartialEq, Eq, Structural)]
pub enum ReadOutcome {
    /// The source handed out this byte.
    Byte(u8),
    /// The source had nothing to hand out.
    End,
    /// The source reported an error.
    Failed,
}

/// What a sink answers when it is offered one byte.
#[derive(Clone, Copy, Debug, PartialEq, Eq, Structural)]
pub enum WriteOutcome {
    /// The sink took the byte.
    Written,
    /// The sink took nothing.
    Refused,
    /// The sink reported an error.
    Failed,
}

/// Something that bytes can be read from, one at a time.
pub trait ByteSource {
    /// The bytes that this source has yet to hand out, next one first.
    spec fn pending(&self) -> Seq<u8>;

    /// Whether this source always answers as its pending bytes say: with
    /// the first of them while there is one, and with `End` once there is
    /// none.
    spec fn reliable(&self) -> bool;

    /// Asks for the next byte.
    ///
    /// A byte that is handed out is the first pending one and is no longer
    /// pending afterwards; any other answer leaves the pending bytes alone.
    /// A reliable source stays reliable, hands out a byte while one is
    /// pending and answers `End` when none is.
    fn read_byte(&mut self) -> (outcome: ReadOutcome)
        ensures
            outcome matches ReadOutcome::Byte(byte) ==> old(self).pending() == seq![byte]
                + final(self).pending(),
            !(outcome is Byte) ==> final(self).pending() == old(self).pending(),
            final(self).reliable() == old(self).reliable(),
            old(self).reliable() ==> (outcome is Byte <==> old(self).pending().len() > 0),
            old(self).reliable() ==> !(outcome is Failed),
    ;
}

/// Something that bytes can be written to, one at a time.
pub trait ByteSink {
    /// The bytes that this sink has taken so far, oldest first.
    spec fn taken(&self) -> Seq<u8>;

    /// Whether this sink takes every byte that it is offered.
    spec fn reliable(&self) -> bool;

    /// Offers one byte.
    ///
    /// A byte that is written is appended to the bytes taken; any other
    /// answer leaves them alone. A reliable sink stays reliable and writes
    /// the byte.
    fn write_byte(&mut self, byte: u8) -> (outcome: WriteOutcome)
        ensures
            outcome is Written ==> final(self).taken() == old(self).taken().push(byte),
            !(outcome is Written) ==> final(self).taken() == old(self).taken(),
            final(self).reliable() == old(self).reliable(),
            old(self).reliable() ==> outcome is Written,
    ;
}

/// A byte slice is read from its front: each byte handed out shortens the
/// slice by one, and the empty slice is at its end.
impl<'a> ByteSource for &'a [u8] {
    open spec fn pending(&self) -> Seq<u8> {
        (*self)@
    }

    open spec fn reliable(&self) -> bool {
        true
    }

    fn read_byte(&mut self) -> (outcome: ReadOutcome)
        ensures
            outcome == (if old(self).pending().len() == 0 {
                ReadOutcome::End
            } else {
                ReadOutcome::Byte(old(self).pending()[0])
            }),
    {
        let bytes: &'a [u8] = *self;
        if bytes.len() == 0 {
            ReadOutcome::End
        } else {
            let byte = bytes[0];
            *self = vstd::slice::slice_subrange(bytes, 1, bytes.len());
            assert(bytes@ =~= seq![byte] + bytes@.subrange(1, bytes@.len() as int));
            ReadOutcome::Byte(byte)
        }
    }
}

/// A vector takes every byte it is offered, at its end.
impl ByteSink for Vec<u8> {
    open spec fn taken(&self) -> Seq<u8> {
        self@
    }

    open spec fn reliable(&self) -> bool {
        true
    }

    fn write_byte(&mut self, byte: u8) -> (outcome: WriteOutcome) {
        self.push(byte);
        WriteOutcome::Written
    }
}

} // verus!
