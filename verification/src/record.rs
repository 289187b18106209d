//! Writers and readers that record the windows that are opened on them.

use crate::wire::ReadError;
use vstd::prelude::*;

verus! {

/// What is done to a writer.
#[derive(Debug, Clone, Copy, PartialEq, Eq, Structural)]
pub enum Event {
    /// A window for this many bytes is opened.
    Window(usize),
    /// The window is finished.
    Finish,
    /// This many bytes are written outside of windows.
    ParentWrite(usize),
    /// The writer is finished.
    ParentFinish,
}

/// A writer that keeps the bytes and records what is done to it.
#[derive(Debug, PartialEq, Eq)]
pub struct RecordingWriter {
    pub bytes: Vec<u8>,
    pub events: Vec<Event>,
}

/// A window of a writer: room for a number of bytes that is known ahead of time.
pub struct Window<'a> {
    pub parent: &'a mut RecordingWriter,
    /// How many bytes there is still room for.
    pub left: usize,
}

/// Appends bytes.
pub(crate) fn append_bytes(bytes: &mut Vec<u8>, src: &Vec<u8>)
    ensures
        final(bytes)@ == old(bytes)@ + src@,
{
    let mut i: usize = 0;
    while i < src.len()
        invariant
            i <= src.len(),
            bytes@ =~= old(bytes)@ + src@.take(i as int),
        decreases src.len() - i,
    {
        bytes.push(src[i]);
        i += 1;
    }
    assert(src@.take(i as int) =~= src@);
}

impl RecordingWriter {
    /// A writer that nothing is done to yet.
    pub fn new() -> (writer: RecordingWriter)
        ensures
            writer.bytes@ == Seq::<u8>::empty(),
            writer.events@ == Seq::<Event>::empty(),
    {
        RecordingWriter { bytes: Vec::new(), events: Vec::new() }
    }

    /// Writes bytes outside of windows.
    pub fn write(&mut self, src: &Vec<u8>)
        ensures
            final(self).bytes@ == old(self).bytes@ + src@,
            final(self).events@ == old(self).events@.push(Event::ParentWrite(src@.len() as usize)),
    {
        self.events.push(Event::ParentWrite(src.len()));
        append_bytes(&mut self.bytes, src);
    }

    /// Opens a window for `size` bytes.
    pub fn as_trusted_for<'a>(&'a mut self, size: usize) -> (window: Window<'a>)
        ensures
            window.left == size,
            window.parent.bytes@ == old(self).bytes@,
            window.parent.events@ == old(self).events@.push(Event::Window(size)),
            *final(self) == *final(window.parent),
    {
        self.events.push(Event::Window(size));
        Window { parent: self, left: size }
    }

    /// Finishes the writer.
    pub fn finish(&mut self)
        ensures
            final(self).bytes@ == old(self).bytes@,
            final(self).events@ == old(self).events@.push(Event::ParentFinish),
    {
        self.events.push(Event::ParentFinish);
    }
}

impl<'a> Window<'a> {
    /// Writes bytes that there is room for.
    pub fn write(&mut self, src: &Vec<u8>)
        requires
            src@.len() <= old(self).left,
        ensures
            final(self).left == old(self).left - src@.len(),
            final(self).parent.bytes@ == old(self).parent.bytes@ + src@,
            final(self).parent.events@ == old(self).parent.events@,
            *final(final(self).parent) == *final(old(self).parent),
    {
        append_bytes(&mut self.parent.bytes, src);
        self.left = self.left - src.len();
    }

    /// Finishes the window.
    pub fn finish(&mut self)
        ensures
            final(self).left == old(self).left,
            final(self).parent.bytes@ == old(self).parent.bytes@,
            final(self).parent.events@ == old(self).parent.events@.push(Event::Finish),
            *final(final(self).parent) == *final(old(self).parent),
    {
        self.parent.events.push(Event::Finish);
    }
}

/// A reader of a buffer that records the windows that are opened on it.
#[derive(Debug, PartialEq, Eq)]
pub struct RecordingReader<'a> {
    pub buffer: &'a [u8],
    /// Where the bytes begin that are not read yet.
    pub pos: usize,
    /// The sizes of the windows.
    pub windows: Vec<usize>,
}

impl<'a> RecordingReader<'a> {
    /// Whether the position is one in the buffer or behind it.
    pub open spec fn wf(self) -> bool {
        self.pos <= self.buffer@.len()
    }

    /// A reader of the whole buffer.
    pub fn new(buffer: &'a [u8]) -> (reader: RecordingReader<'a>)
        ensures
            reader.wf(),
            reader.buffer@ == buffer@,
            reader.pos == 0,
            reader.windows@ == Seq::<usize>::empty(),
    {
        RecordingReader { buffer, pos: 0, windows: Vec::new() }
    }

    /// Whether everything is read.
    pub fn is_empty(&self) -> (empty: bool)
        ensures
            empty == (self.pos >= self.buffer@.len()),
    {
        self.pos >= self.buffer.len()
    }

    /// Reads as many bytes as `dst` holds into it. Where there are too few, nothing is read and
    /// nothing changed.
    pub fn copy_into_slice(&mut self, dst: &mut Vec<u8>) -> (result: Result<(), ReadError>)
        requires
            old(self).wf(),
        ensures
            final(self).wf(),
            final(self).buffer@ == old(self).buffer@,
            final(self).windows == old(self).windows,
            match result {
                Ok(_) => {
                    &&& old(self).pos + old(dst)@.len() <= old(self).buffer@.len()
                    &&& final(self).pos == old(self).pos + old(dst)@.len()
                    &&& final(dst)@ == old(self).buffer@.subrange(
                        old(self).pos as int,
                        old(self).pos + old(dst)@.len(),
                    )
                },
                Err(error) => {
                    &&& error == ReadError::UnexpectedEnd
                    &&& old(self).pos + old(dst)@.len() > old(self).buffer@.len()
                    &&& final(self).pos == old(self).pos
                    &&& final(dst)@ == old(dst)@
                },
            },
    {
        let len: usize = self.buffer.len();
        if dst.len() > len - self.pos {
            return Err(ReadError::UnexpectedEnd);
        }
        let mut i: usize = 0;
        while i < dst.len()
            invariant
                i <= dst@.len(),
                dst@.len() == old(dst)@.len(),
                len == self.buffer@.len(),
                self.pos + dst@.len() <= len,
                *self == *old(self),
                dst@.take(i as int) =~= self.buffer@.subrange(
                    self.pos as int,
                    self.pos + i,
                ),
            decreases dst@.len() - i,
        {
            let byte: u8 = self.buffer[self.pos + i];
            dst.set(i, byte);
            i += 1;
        }
        assert(dst@.take(i as int) =~= dst@);
        self.pos = self.pos + dst.len();
        Ok(())
    }

    /// Reads one byte.
    pub fn take_byte(&mut self) -> (result: Result<u8, ReadError>)
        requires
            old(self).wf(),
        ensures
            final(self).wf(),
            final(self).buffer@ == old(self).buffer@,
            final(self).windows == old(self).windows,
            match result {
                Ok(byte) => {
                    &&& old(self).pos < old(self).buffer@.len()
                    &&& final(self).pos == old(self).pos + 1
                    &&& byte == old(self).buffer@[old(self).pos as int]
                },
                Err(error) => {
                    &&& error == ReadError::UnexpectedEnd
                    &&& old(self).pos == old(self).buffer@.len()
                    &&& final(self).pos == old(self).pos
                },
            },
    {
        let mut bytes: Vec<u8> = Vec::new();
        bytes.push(0);
        match self.copy_into_slice(&mut bytes) {
            Ok(_) => Ok(bytes[0]),
            Err(error) => Err(error),
        }
    }

    /// Opens a window for `size` bytes: from here on there are that many.
    pub fn as_trusted_for(&mut self, size: usize) -> (result: Result<(), ReadError>)
        requires
            old(self).wf(),
        ensures
            final(self).buffer@ == old(self).buffer@,
            final(self).pos == old(self).pos,
            final(self).windows@ == old(self).windows@.push(size),
            match result {
                Ok(_) => old(self).pos + size <= old(self).buffer@.len(),
                Err(error) => {
                    &&& error == ReadError::UnexpectedEnd
                    &&& old(self).pos + size > old(self).buffer@.len()
                },
            },
    {
        self.windows.push(size);
        self.check_for(size)
    }

    /// Whether there are `size` bytes from here on.
    pub fn check_for(&self, size: usize) -> (result: Result<(), ReadError>)
        requires
            self.wf(),
        ensures
            match result {
                Ok(_) => self.pos + size <= self.buffer@.len(),
                Err(error) => {
                    &&& error == ReadError::UnexpectedEnd
                    &&& self.pos + size > self.buffer@.len()
                },
            },
    {
        if size > self.buffer.len() - self.pos {
            Err(ReadError::UnexpectedEnd)
        } else {
            Ok(())
        }
    }
}

} // verus!
