//! A console that echoes what is typed into it, to try out raw mode with.

use vstd::prelude::*;

verus! {

/// What the echo does next.
#[derive(Clone, Copy, PartialEq, Eq, Structural, Debug)]
pub enum EchoAction {
    /// Wait for input.
    Read,
    /// Write the buffer to the output.
    Write,
}

/// The echo, and what it has read and not yet written.
pub struct Echo {
    buffer: Vec<u8>,
}

impl View for Echo {
    type V = Seq<u8>;

    closed spec fn view(&self) -> Seq<u8> {
        self.buffer@
    }
}

impl Echo {
    /// Nothing is read yet.
    pub fn new() -> (echo: Self)
        ensures
            echo@ == Seq::<u8>::empty(),
    {
        Echo { buffer: Vec::new() }
    }

    /// Reads while there is nothing to write.
    pub fn action(&self) -> (action: EchoAction)
        ensures
            action == if self@.len() == 0 {
                EchoAction::Read
            } else {
                EchoAction::Write
            },
    {
        if self.buffer.len() == 0 {
            EchoAction::Read
        } else {
            EchoAction::Write
        }
    }

    /// What is to be written.
    pub fn buffer(&self) -> (buffer: &[u8])
        ensures
            buffer@ == self@,
    {
        self.buffer.as_slice()
    }

    /// After a read: true if the echo goes on, false if the input is closed.
    pub fn after_read(&mut self, input: Option<Vec<u8>>) -> (open: bool)
        ensures
            open <==> input is Some,
            final(self)@ == match input {
                Some(data) => old(self)@ + data@,
                None => old(self)@,
            },
    {
        match input {
            Some(data) => {
                self.buffer.extend_from_slice(data.as_slice());
                assert(self@ =~= old(self)@ + data@);
                true
            },
            None => false,
        }
    }

    /// After a write.
    pub fn after_write(&mut self)
        ensures
            final(self)@ == Seq::<u8>::empty(),
    {
        self.buffer.clear();
    }
}

} // verus!
