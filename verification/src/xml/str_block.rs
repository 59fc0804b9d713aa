use vstd::prelude::*;
use crate::text::{char_from_u32, push_char, is_scalar};
use crate::xml::reader::{IntReader, ReaderModel, le_words};

verus! {

/// The chunk type that opens a string pool.
pub const CHUNK_TYPE: i32 = 0x001C0001;

/// What a string pool holds: the offset of each string, in bytes, and the
/// words in which the strings are stored.
pub struct StringBlockModel {
    pub offsets: Seq<i32>,
    pub words: Seq<i32>,
}

/// The 16-bit unit stored at byte `offset` of `words`, with the index
/// arithmetic of the format (division rounding toward zero); `None` when that
/// word does not exist.
pub open spec fn short_at(words: Seq<i32>, offset: int) -> Option<u32> {
    if offset <= -4 {
        None
    } else {
        let index = if offset < 0 { 0 } else { offset / 4 };
        let low = if offset < 0 { offset == -1 } else { offset % 4 < 2 };
        if index >= words.len() {
            None
        } else if low {
            Some((words[index] as u32) & 0xFFFF)
        } else {
            Some((words[index] as u32) >> 16)
        }
    }
}

/// The character a 16-bit unit stands for: the unit itself, or a space where
/// it is not a Unicode scalar value.
pub open spec fn unit_char(u: u32) -> char {
    if is_scalar(u) {
        u as char
    } else {
        ' '
    }
}

/// Over the words of a document, the unit at an even byte offset is the
/// little-endian 16-bit number made of the byte there and the next one.
pub proof fn law_unit_bytes(bytes: Seq<u8>, offset: int)
    requires
        bytes.len() % 4 == 0,
        0 <= offset,
        offset % 2 == 0,
        offset + 1 < bytes.len(),
    ensures
        short_at(le_words(bytes), offset) == Some((bytes[offset] + 256 * bytes[offset + 1]) as u32),
{
    let i = offset / 4;
    let b0 = bytes[4 * i];
    let b1 = bytes[4 * i + 1];
    let b2 = bytes[4 * i + 2];
    let b3 = bytes[4 * i + 3];
    assert(le_words(bytes)[i] == ((b0 + 256 * b1 + 65536 * b2 + 16777216 * b3) as u32) as i32);
    if offset % 4 == 0 {
        assert(offset == 4 * i);
        assert(((((b0 + 256 * b1 + 65536 * b2 + 16777216 * b3) as u32) as i32) as u32) & 0xFFFF == (b0 + 256
            * b1) as u32) by (bit_vector);
    } else {
        assert(offset == 4 * i + 2);
        assert(((((b0 + 256 * b1 + 65536 * b2 + 16777216 * b3) as u32) as i32) as u32) >> 16 == (b2 + 256
            * b3) as u32) by (bit_vector);
    }
}

/// A unit that is a Unicode scalar value decodes to the character with that
/// code; any other unit (half of a surrogate pair) decodes to a space.
pub proof fn law_unit_char(u: u32)
    ensures
        is_scalar(u) ==> unit_char(u) as u32 == u,
        !is_scalar(u) ==> unit_char(u) == ' ',
{
}

/// The `n` characters stored after the length unit at byte `start`; `None`
/// when an offset leaves the 32-bit range or the words.
pub open spec fn string_chars(words: Seq<i32>, start: int, n: nat) -> Option<Seq<char>>
    decreases n,
{
    if n == 0 {
        Some(Seq::empty())
    } else {
        match string_chars(words, start, (n - 1) as nat) {
            Some(cs) => if start + 2 * n > i32::MAX {
                None
            } else {
                match short_at(words, start + 2 * n) {
                    Some(u) => Some(cs.push(unit_char(u))),
                    None => None,
                }
            },
            None => None,
        }
    }
}

/// The string at `index`: `Some(None)` for an index that the pool refuses,
/// `Some(Some(chars))` for a string that it holds, and `None` where the pool's
/// offsets lead outside its words (the lookup cannot be carried out).
pub open spec fn string_at(sb: StringBlockModel, index: i32) -> Option<Option<Seq<char>>> {
    if index < 0 || index > (sb.offsets.len() as i32) {
        Some(None)
    } else if index >= sb.offsets.len() {
        None
    } else {
        let start = sb.offsets[index as int];
        match short_at(sb.words, start as int) {
            Some(n) => match string_chars(sb.words, start as int, n as nat) {
                Some(cs) => Some(Some(cs)),
                None => None,
            },
            None => None,
        }
    }
}

/// Whether `c` is what the unit `u` reads as: a unit that exists, and `c` is
/// the character with its code where that code is a Unicode scalar value, a
/// space otherwise.
pub open spec fn decodes_unit(c: char, u: Option<u32>) -> bool {
    match u {
        Some(v) => (is_scalar(v) ==> c as u32 == v) && (!is_scalar(v) ==> c == ' '),
        None => false,
    }
}

/// A decoded string has one character per unit: character `k` stands for the
/// unit `k + 1` units after the length unit at byte `start`, with the code of
/// that unit where it is a Unicode scalar value, and a space otherwise.
pub proof fn law_string_units(words: Seq<i32>, start: int, n: nat)
    ensures
        string_chars(words, start, n) matches Some(cs) ==> {
            &&& cs.len() == n
            &&& forall|k: int|
                0 <= k < n ==> decodes_unit(cs[k], #[trigger] short_at(words, start + 2 * (k + 1)))
        },
    decreases n,
{
    if n > 0 {
        law_string_units(words, start, (n - 1) as nat);
        if let Some(cs) = string_chars(words, start, n) {
            let prev = string_chars(words, start, (n - 1) as nat).unwrap();
            assert(cs == prev.push(unit_char(short_at(words, start + 2 * n).unwrap())));
            assert forall|k: int|
                0 <= k < n implies decodes_unit(cs[k], #[trigger] short_at(words, start + 2 * (k + 1))) by {
                if k < n - 1 {
                    assert(cs[k] == prev[k]);
                } else {
                    law_unit_char(short_at(words, start + 2 * n).unwrap());
                }
            }
        }
    }
}

/// A string that the pool holds is as long as its length unit says, and its
/// characters are the units that follow that unit, as `law_string_units` says.
pub proof fn law_pool_string(sb: StringBlockModel, index: i32)
    ensures
        string_at(sb, index) matches Some(Some(cs)) ==> {
            let start = sb.offsets[index as int] as int;
            &&& 0 <= index < sb.offsets.len()
            &&& short_at(sb.words, start) == Some(cs.len() as u32)
            &&& forall|k: int|
                0 <= k < cs.len() ==> decodes_unit(cs[k], #[trigger] short_at(sb.words, start + 2 * (k + 1)))
        },
{
    if let Some(Some(cs)) = string_at(sb, index) {
        let start = sb.offsets[index as int] as int;
        let n = short_at(sb.words, start).unwrap();
        law_string_units(sb.words, start, n as nat);
    }
}

/// The words `data[pos..pos + n]` and the position after them; an empty read
/// always succeeds, a negative or overlong one cannot be carried out.
pub open spec fn read_words(data: Seq<i32>, pos: int, n: int) -> Option<(Seq<i32>, int)> {
    if n == 0 {
        Some((Seq::empty(), pos))
    } else if n < 0 || pos + n > data.len() {
        None
    } else {
        Some((data.subrange(pos, pos + n), pos + n))
    }
}

/// Reading `n` words and then `m` more reads the same as reading `n + m`.
pub proof fn law_read_words_split(data: Seq<i32>, pos: int, n: int, m: int)
    requires
        0 < n,
        0 < m,
        0 <= pos,
    ensures
        read_words(data, pos, n + m) == match read_words(data, pos, n) {
            Some((a, q)) => match read_words(data, q, m) {
                Some((b, r)) => Some((a + b, r)),
                None => None,
            },
            None => None,
        },
{
    if pos + n + m <= data.len() {
        assert(data.subrange(pos, pos + n + m) =~= data.subrange(pos, pos + n) + data.subrange(
            pos + n,
            pos + n + m,
        ));
    }
}

/// The words of a region of `size` bytes: none when `size` is not a multiple of four.
pub open spec fn read_region(data: Seq<i32>, pos: int, size: int) -> Option<(Seq<i32>, int)> {
    if size % 4 != 0 {
        Some((Seq::empty(), pos))
    } else {
        read_words(data, pos, size / 4)
    }
}

/// Reading a string pool at the reader's position: `None` where the reading
/// cannot be carried out; otherwise the pool (`None` when the chunk type is not
/// that of a string pool) and the position after what was read.
pub open spec fn block_read(r: ReaderModel) -> Option<(Option<StringBlockModel>, int)> {
    let d = r.data;
    let p = r.pos as int;
    if p >= d.len() {
        None
    } else if d[p] != CHUNK_TYPE {
        Some((None, p + 1))
    } else if p + 7 > d.len() {
        None
    } else {
        let chunk_size = d[p + 1] as int;
        let string_count = d[p + 2] as int;
        let style_offset_count = d[p + 3] as int;
        let strings_offset = d[p + 5] as int;
        let styles_offset = d[p + 6] as int;
        let size = if styles_offset == 0 {
            chunk_size - strings_offset
        } else {
            styles_offset - strings_offset
        };
        match read_words(d, p + 7, string_count) {
            None => None,
            Some((offsets, q1)) => match read_words(d, q1, style_offset_count) {
                None => None,
                Some((_, q2)) => if size < i32::MIN || size > i32::MAX {
                    None
                } else {
                    match read_region(d, q2, size) {
                        None => None,
                        Some((words, q3)) => if styles_offset == 0 {
                            Some((Some(StringBlockModel { offsets, words }), q3))
                        } else {
                            let size2 = chunk_size - styles_offset;
                            if size2 < i32::MIN || size2 > i32::MAX {
                                None
                            } else {
                                match read_region(d, q3, size2) {
                                    None => None,
                                    Some((_, q4)) => Some(
                                        (Some(StringBlockModel { offsets, words }), q4),
                                    ),
                                }
                            }
                        },
                    }
                },
            },
        }
    }
}

/// Reads the next word, or `None` at the end of the words.
pub(crate) fn next_word(reader: &mut IntReader) -> (w: Option<i32>)
    ensures
        final(reader)@.data == old(reader)@.data,
        old(reader)@.pos < old(reader)@.data.len() ==> w == Some(old(reader)@.data[old(reader)@.pos as int])
            && final(reader)@.pos == old(reader)@.pos + 1,
        old(reader)@.pos >= old(reader)@.data.len() ==> w is None && final(reader)@ == old(reader)@,
{
    if reader.position() < reader.len() {
        Some(reader.read_int())
    } else {
        None
    }
}

/// Reads `n` words as `read_words` says, or `None` where it cannot.
pub(crate) fn next_words(reader: &mut IntReader, n: i32) -> (ws: Option<Vec<i32>>)
    ensures
        final(reader)@.data == old(reader)@.data,
        match read_words(old(reader)@.data, old(reader)@.pos as int, n as int) {
            Some((s, q)) => ws matches Some(v) && v@ == s && final(reader)@.pos == q,
            None => ws is None,
        },
{
    if n == 0 {
        let v = reader.read_int_array(0);
        Some(v)
    } else if n < 0 {
        None
    } else {
        let len = reader.len();
        let pos = reader.position();
        if pos <= len && (n as usize) <= len - pos {
            Some(reader.read_int_array(n as usize))
        } else {
            None
        }
    }
}

/// Reads a region of `size` bytes as `read_region` says, or `None` where it cannot.
fn next_region(reader: &mut IntReader, size: i32) -> (ws: Option<Vec<i32>>)
    ensures
        final(reader)@.data == old(reader)@.data,
        match read_region(old(reader)@.data, old(reader)@.pos as int, size as int) {
            Some((s, q)) => ws matches Some(v) && v@ == s && final(reader)@.pos == q,
            None => ws is None,
        },
{
    let rem: u32 = if size >= 0 {
        (size as u32) % 4
    } else {
        ((-(size as i64)) as u64 % 4) as u32
    };
    if rem != 0 {
        proof {
            assert((size as int) % 4 != 0);
        }
        Some(Vec::new())
    } else {
        let quarter: i32 = if size >= 0 {
            ((size as u32) / 4) as i32
        } else {
            -((((-(size as i64)) as u64) / 4) as i32)
        };
        assert(quarter == (size as int) / 4);
        next_words(reader, quarter)
    }
}

/// A string pool: the strings of a document, each stored as a 16-bit length
/// followed by that many 16-bit units.
pub struct StringBlock {
    string_offsets: Vec<i32>,
    strings: Vec<i32>,
}

impl View for StringBlock {
    type V = StringBlockModel;

    closed spec fn view(&self) -> StringBlockModel {
        StringBlockModel { offsets: self.string_offsets@, words: self.strings@ }
    }
}

impl StringBlock {
    /// The string at `index`, or `None` for an index that the pool refuses.
    pub fn get_string(&mut self, index: i32) -> (s: Option<String>)
        requires
            string_at(old(self)@, index) is Some,
        ensures
            final(self)@ == old(self)@,
            match string_at(old(self)@, index) {
                Some(Some(cs)) => s matches Some(t) && t@ == cs,
                _ => s is None,
            },
    {
        match self.decode_string(index) {
            Some(r) => r,
            None => None,
        }
    }

    /// `string_at` carried out: `None` where it cannot be.
    pub fn decode_string(&self, index: i32) -> (s: Option<Option<String>>)
        ensures
            match string_at(self@, index) {
                Some(Some(cs)) => s matches Some(Some(t)) && t@ == cs,
                Some(None) => s == Some(None::<String>),
                None => s is None,
            },
    {
        if index < 0 || index > (#[verifier::truncate] (self.string_offsets.len() as i32)) {
            return Some(None);
        }
        if (index as usize) >= self.string_offsets.len() {
            return None;
        }
        let start = self.string_offsets[index as usize];
        let mut offset = start;
        let length = match self.get_short(offset) {
            Some(l) => l,
            None => {
                return None;
            },
        };
        let mut result = String::new();
        let mut k: u32 = 0;
        assert(string_at(self@, index) == match string_chars(self@.words, start as int, length as nat) {
            Some(cs) => Some(Some(cs)),
            None => None::<Option<Seq<char>>>,
        });
        while k < length
            invariant
                string_at(self@, index) == match string_chars(self@.words, start as int, length as nat) {
                    Some(cs) => Some(Some(cs)),
                    None => None::<Option<Seq<char>>>,
                },
                0 <= k <= length,
                offset as int == start as int + 2 * k,
                string_chars(self@.words, start as int, k as nat) == Some(result@),
            decreases length - k,
        {
            if offset > i32::MAX - 2 {
                proof {
                    lemma_string_chars_fail(self@.words, start as int, (k + 1) as nat, length as nat);
                }
                return None;
            }
            offset = offset + 2;
            let tmp = match self.get_short(offset) {
                Some(t) => t,
                None => {
                    proof {
                        lemma_string_chars_fail(self@.words, start as int, (k + 1) as nat, length as nat);
                    }
                    return None;
                },
            };
            let c = match char_from_u32(tmp) {
                Some(c) => c,
                None => ' ',
            };
            push_char(&mut result, c);
            k = k + 1;
        }
        Some(Some(result))
    }

    /// The 16-bit unit at byte `offset` of the stored words, as `short_at` says.
    fn get_short(&self, offset: i32) -> (u: Option<u32>)
        ensures
            u == short_at(self@.words, offset as int),
    {
        if offset <= -4 {
            return None;
        }
        let index: usize = if offset < 0 {
            0
        } else {
            (offset as u32 / 4) as usize
        };
        let low: bool = if offset < 0 {
            offset == -1
        } else {
            (offset as u32) % 4 < 2
        };
        if index >= self.strings.len() {
            return None;
        }
        let value = self.strings[index] as u32;
        if low {
            Some(value & 0xFFFF)
        } else {
            Some(value >> 16)
        }
    }

    /// Reads a string pool at the reader's position; `None` when the chunk
    /// there is not a string pool.
    pub fn read(reader: &mut IntReader) -> (block: Option<StringBlock>)
        requires
            block_read(old(reader)@) is Some,
        ensures
            final(reader)@.data == old(reader)@.data,
            final(reader)@.pos == block_read(old(reader)@).unwrap().1,
            match block_read(old(reader)@).unwrap().0 {
                Some(m) => block matches Some(b) && b@ == m,
                None => block is None,
            },
    {
        match Self::try_read(reader) {
            Some(b) => b,
            None => None,
        }
    }

    /// `block_read` carried out: `None` where it cannot be.
    pub fn try_read(reader: &mut IntReader) -> (block: Option<Option<StringBlock>>)
        ensures
            final(reader)@.data == old(reader)@.data,
            match block_read(old(reader)@) {
                Some((m, q)) => block matches Some(b) && final(reader)@.pos == q && match m {
                    Some(mm) => b matches Some(bb) && bb@ == mm,
                    None => b is None,
                },
                None => block is None,
            },
    {
        let ghost r0 = reader@;
        let tp = match next_word(reader) {
            Some(w) => w,
            None => {
                return None;
            },
        };
        if tp != CHUNK_TYPE {
            return Some(None);
        }
        let len = reader.len();
        let pos = reader.position();
        if !(pos <= len && len - pos >= 6) {
            return None;
        }
        let chunk_size = reader.read_int();
        let string_count = reader.read_int();
        let style_offset_count = reader.read_int();
        reader.read_int();
        let strings_offset = reader.read_int();
        let styles_offset = reader.read_int();
        let string_offsets = match next_words(reader, string_count) {
            Some(v) => v,
            None => {
                return None;
            },
        };
        if style_offset_count != 0 {
            match next_words(reader, style_offset_count) {
                Some(_) => {},
                None => {
                    return None;
                },
            }
        }
        let size: i64 = if styles_offset == 0 {
            chunk_size as i64 - strings_offset as i64
        } else {
            styles_offset as i64 - strings_offset as i64
        };
        if size < i32::MIN as i64 || size > i32::MAX as i64 {
            return None;
        }
        let strings = match next_region(reader, size as i32) {
            Some(v) => v,
            None => {
                return None;
            },
        };
        if styles_offset != 0 {
            let size2: i64 = chunk_size as i64 - styles_offset as i64;
            if size2 < i32::MIN as i64 || size2 > i32::MAX as i64 {
                return None;
            }
            match next_region(reader, size2 as i32) {
                Some(_) => {},
                None => {
                    return None;
                },
            }
        }
        Some(Some(StringBlock { string_offsets, strings }))
    }
}

/// Once a character cannot be decoded, neither can any longer string.
proof fn lemma_string_chars_fail(words: Seq<i32>, start: int, k: nat, n: nat)
    requires
        1 <= k <= n,
        string_chars(words, start, k) is None,
    ensures
        string_chars(words, start, n) is None,
    decreases n - k,
{
    if k < n {
        lemma_string_chars_fail(words, start, k, (n - 1) as nat);
    }
}

} // verus!
