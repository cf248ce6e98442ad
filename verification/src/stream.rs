use vstd::prelude::*;

verus! {

/// A cursor over the bytes of an input, read one byte at a time with one
/// byte of lookahead.
///
/// Its view is the sequence of bytes that have not been read yet.
pub struct ByteStream<'a> {
    bytes: &'a [u8],
    pos: usize,
}

impl<'a> ByteStream<'a> {
    #[verifier::type_invariant]
    spec fn inv(self) -> bool {
        self.pos <= self.bytes@.len()
    }
}

impl<'a> View for ByteStream<'a> {
    type V = Seq<u8>;

    closed spec fn view(&self) -> Seq<u8> {
        self.bytes@.subrange(self.pos as int, self.bytes@.len() as int)
    }
}

impl<'a> ByteStream<'a> {
    /// A stream that yields `bytes` from the first to the last.
    pub fn new(bytes: &'a [u8]) -> (s: Self)
        ensures
            s@ == bytes@,
    {
        let s = ByteStream { bytes, pos: 0 };
        assert(s@ =~= bytes@);
        s
    }

    /// The next byte, without consuming it.
    pub fn peek(&self) -> (r: Option<u8>)
        ensures
            r == (if self@.len() > 0 { Some(self@[0]) } else { None::<u8> }),
    {
        proof {
            use_type_invariant(self);
        }
        if self.pos < self.bytes.len() {
            Some(self.bytes[self.pos])
        } else {
            None
        }
    }

    /// Consumes and returns the next byte, or returns `None` at the end.
    pub fn next(&mut self) -> (r: Option<u8>)
        ensures
            old(self)@.len() == 0 ==> r == None::<u8> && final(self)@ == old(self)@,
            old(self)@.len() > 0 ==> r == Some(old(self)@[0]) && final(self)@ == old(
                self,
            )@.drop_first(),
    {
        proof {
            use_type_invariant(&*self);
        }
        if self.pos < self.bytes.len() {
            let b = self.bytes[self.pos];
            self.pos = self.pos + 1;
            assert(self@ =~= old(self)@.drop_first());
            Some(b)
        } else {
            None
        }
    }
}

} // verus!
