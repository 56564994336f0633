use vstd::prelude::*;
use vstd::string::StringSliceAdditionalSpecFns;

verus! {

/// The transmit side of a PL011 UART: the bytes handed to the device, oldest
/// first, until the platform layer sends them.
pub struct PL011 {
    output: Vec<u8>,
}

impl View for PL011 {
    type V = Seq<u8>;

    closed spec fn view(&self) -> Seq<u8> {
        self.output@
    }
}

impl PL011 {
    pub fn new() -> (u: PL011)
        ensures
            u@ == Seq::<u8>::empty(),
    {
        PL011 { output: Vec::new() }
    }

    /// Hands one byte to the device.
    pub fn putc(&mut self, byte: u8)
        ensures
            final(self)@ == old(self)@.push(byte),
    {
        self.output.push(byte);
    }

    /// Hands every byte of `data` to the device, in order.
    pub fn put_all(&mut self, data: &[u8])
        ensures
            final(self)@ == old(self)@ + data@,
    {
        let mut i: usize = 0;
        while i < data.len()
            invariant
                i <= data@.len(),
                self@ == old(self)@ + data@.take(i as int),
            decreases data@.len() - i,
        {
            self.putc(data[i]);
            assert(data@.take(i + 1) =~= data@.take(i as int).push(data@[i as int]));
            i = i + 1;
        }
        assert(data@.take(data@.len() as int) =~= data@);
    }

    /// Writes the text of `s` followed by a line feed.
    pub fn write_ln(&mut self, s: &str)
        ensures
            final(self)@ == old(self)@ + s.spec_bytes() + seq![10u8],
    {
        self.put_all(s.as_bytes());
        self.putc(10);
    }

    /// The bytes handed to the device since the last `take_output`.
    pub fn output(&self) -> (o: &Vec<u8>)
        ensures
            o@ == self@,
    {
        &self.output
    }

    /// Returns the pending bytes and forgets them.
    pub fn take_output(&mut self) -> (o: Vec<u8>)
        ensures
            o@ == old(self)@,
            final(self)@ == Seq::<u8>::empty(),
    {
        let mut o: Vec<u8> = Vec::new();
        std::mem::swap(&mut o, &mut self.output);
        o
    }
}

} // verus!
