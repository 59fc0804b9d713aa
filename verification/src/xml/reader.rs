use vstd::prelude::*;

verus! {

/// The largest input, in bytes, that the decoder accepts: every offset and
/// counter of the format is a signed 32-bit integer.
pub const MAX_INPUT_BYTES: usize = 0x7FFF_FFFF;

/// The little-endian 32-bit word made of four bytes, read as a signed integer.
pub open spec fn le_word(b0: u8, b1: u8, b2: u8, b3: u8) -> i32 {
    ((b0 + 256 * b1 + 65536 * b2 + 16777216 * b3) as u32) as i32
}

/// The words of a byte sequence whose length is a multiple of four.
pub open spec fn le_words(bytes: Seq<u8>) -> Seq<i32> {
    Seq::new(
        bytes.len() / 4,
        |i: int| le_word(bytes[4 * i], bytes[4 * i + 1], bytes[4 * i + 2], bytes[4 * i + 3]),
    )
}

/// What a reader holds: its words, and the index of the next word to read.
pub struct ReaderModel {
    pub data: Seq<i32>,
    pub pos: nat,
}

/// A cursor over the 32-bit little-endian words of a binary document.
pub struct IntReader {
    data: Vec<i32>,
    position: usize,
}

impl View for IntReader {
    type V = ReaderModel;

    closed spec fn view(&self) -> ReaderModel {
        ReaderModel { data: self.data@, pos: self.position as nat }
    }
}

impl IntReader {
    /// Splits `buf` into little-endian 32-bit words; the reader starts at the first word.
    pub fn new(buf: &[u8]) -> (reader: IntReader)
        requires
            buf@.len() % 4 == 0,
            buf@.len() <= MAX_INPUT_BYTES,
        ensures
            reader@.data == le_words(buf@),
            reader@.pos == 0,
    {
        let n = buf.len() / 4;
        let mut data: Vec<i32> = Vec::with_capacity(n);
        let mut i: usize = 0;
        while i < n
            invariant
                n == buf@.len() / 4,
                buf@.len() % 4 == 0,
                buf@.len() <= MAX_INPUT_BYTES,
                i <= n,
                data@.len() == i,
                forall|k: int| 0 <= k < i ==> data@[k] == le_words(buf@)[k],
            decreases n - i,
        {
            assert(4 * i + 3 < buf@.len()) by (nonlinear_arith)
                requires
                    i < n,
                    n == buf@.len() / 4,
                    buf@.len() % 4 == 0,
            ;
            let b0 = buf[4 * i];
            let b1 = buf[4 * i + 1];
            let b2 = buf[4 * i + 2];
            let b3 = buf[4 * i + 3];
            let v: u32 = b0 as u32 + 256 * (b1 as u32) + 65536 * (b2 as u32) + 16777216 * (b3 as u32);
            data.push(#[verifier::truncate] (v as i32));
            i = i + 1;
        }
        assert(data@ =~= le_words(buf@));
        IntReader { data, position: 0 }
    }

    /// Returns the next word and moves past it.
    pub fn read_int(&mut self) -> (word: i32)
        requires
            old(self)@.pos < old(self)@.data.len(),
        ensures
            word == old(self)@.data[old(self)@.pos as int],
            final(self)@.data == old(self)@.data,
            final(self)@.pos == old(self)@.pos + 1,
    {
        let _n = self.data.len();
        let word = self.data[self.position];
        self.position = self.position + 1;
        word
    }

    /// Returns the next `length` words and moves past them.
    pub fn read_int_array(&mut self, length: usize) -> (slice: Vec<i32>)
        requires
            length == 0 || old(self)@.pos + length <= old(self)@.data.len(),
        ensures
            slice@ == (if length == 0 {
                Seq::<i32>::empty()
            } else {
                old(self)@.data.subrange(old(self)@.pos as int, old(self)@.pos + length)
            }),
            final(self)@.data == old(self)@.data,
            final(self)@.pos == old(self)@.pos + length,
    {
        if length == 0 {
            Vec::new()
        } else {
            let mut slice: Vec<i32> = Vec::with_capacity(length);
            let start = self.position;
            let _n = self.data.len();
            let mut k: usize = 0;
            while k < length
                invariant
                    start == old(self)@.pos,
                    self@ == old(self)@,
                    start + length <= self.data@.len(),
                    self.data@.len() <= usize::MAX,
                    k <= length,
                    slice@ =~= self@.data.subrange(start as int, start + k),
                decreases length - k,
            {
                slice.push(self.data[start + k]);
                k = k + 1;
            }
            self.position = start + length;
            slice
        }
    }

    /// Moves past the next word without reading it.
    pub fn skip_int(&mut self)
        requires
            old(self)@.pos < usize::MAX,
        ensures
            final(self)@.data == old(self)@.data,
            final(self)@.pos == old(self)@.pos + 1,
    {
        self.position = self.position + 1;
    }

    /// The number of words.
    pub fn len(&self) -> (n: usize)
        ensures
            n == self@.data.len(),
    {
        self.data.len()
    }

    /// The index of the next word.
    pub fn position(&self) -> (p: usize)
        ensures
            p == self@.pos,
    {
        self.position
    }
}

} // verus!
