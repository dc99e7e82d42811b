use vstd::prelude::*;

verus! {

/// Sources up to this size are read into memory; larger ones are mapped.
pub const BUFFER_SIZE: usize = 32768;

/// Bytes handed out per chunk.
pub const CHUNK_SIZE: usize = 16;

/// `b` padded with zero bytes to a whole chunk.
pub open spec fn pad_chunk(b: Seq<u8>) -> Seq<u8> {
    b + Seq::new((CHUNK_SIZE - b.len()) as nat, |i: int| 0u8)
}

/// Newline, carriage return, tab, dash and underscore separate tokens.
pub open spec fn is_delim(c: u8) -> bool {
    c == 10 || c == 13 || c == 9 || c == 45 || c == 95
}

/// `b` with every delimiter turned into a space.
pub open spec fn blank_delims(b: Seq<u8>) -> Seq<u8> {
    Seq::new(b.len(), |i: int| if is_delim(b[i]) { 32u8 } else { b[i] })
}

/// The token stream of a source: its chunks, the last one zero-padded, with
/// delimiters turned into spaces.
pub open spec fn tokens_of(b: Seq<u8>) -> Seq<u8>
    decreases b.len(),
{
    if b.len() == 0 {
        seq![]
    } else if b.len() <= CHUNK_SIZE {
        blank_delims(pad_chunk(b))
    } else {
        blank_delims(b.take(CHUNK_SIZE as int)) + tokens_of(b.skip(CHUNK_SIZE as int))
    }
}

/// A source's bytes, handed out a chunk at a time.
pub struct SrcReader {
    pub src: Vec<u8>,
    pub len: usize,
    pub pos: usize,
}

impl SrcReader {
    pub open spec fn wf(&self) -> bool {
        &&& self.len == self.src@.len()
        &&& self.pos <= self.len
    }

    /// A reader at the start of `src`.
    pub fn new(src: Vec<u8>) -> (r: SrcReader)
        ensures
            r.wf(),
            r.src@ == src@,
            r.pos == 0,
    {
        let len = src.len();
        SrcReader { src, len, pos: 0 }
    }

    /// The next chunk, zero-padded where the source ends inside it; `None`
    /// once the source is used up.
    pub fn get_chunk(&mut self) -> (c: Option<[u8; 16]>)
        requires
            old(self).wf(),
        ensures
            final(self).wf(),
            final(self).src == old(self).src,
            old(self).pos == old(self).len ==> c is None && final(self).pos == old(self).pos,
            old(self).pos < old(self).len ==> {
                &&& c is Some
                &&& final(self).pos == if old(self).pos + CHUNK_SIZE < old(self).len {
                    old(self).pos + CHUNK_SIZE
                } else {
                    old(self).len as int
                }
                &&& c->Some_0@ == pad_chunk(old(self).src@.subrange(old(self).pos as int, final(self).pos as int))
            },
    {
        if self.pos == self.len {
            return None;
        }
        let end = if self.len - self.pos > CHUNK_SIZE {
            self.pos + CHUNK_SIZE
        } else {
            self.len
        };
        let mut chunk = [0u8; 16];
        let mut i: usize = 0;
        while i < end - self.pos
            invariant
                self.wf(),
                self.pos < end <= self.len,
                end - self.pos <= CHUNK_SIZE,
                i <= end - self.pos,
                chunk@.len() == 16,
                forall|j: int| 0 <= j < i ==> chunk@[j] == self.src@[self.pos + j],
                forall|j: int| i <= j < 16 ==> chunk@[j] == 0,
            decreases end - self.pos - i,
        {
            chunk[i] = self.src[self.pos + i];
            i += 1;
        }
        assert(chunk@ =~= pad_chunk(self.src@.subrange(self.pos as int, end as int)));
        self.pos = end;
        Some(chunk)
    }
}

/// Turns delimiters into spaces.
pub struct Tokenizer;

impl Tokenizer {
    /// The token stream of `src`.
    pub fn tokenize(src: Vec<u8>) -> (tokens: Vec<u8>)
        ensures
            tokens@ == tokens_of(src@),
    {
        let ghost all = src@;
        let mut tokens: Vec<u8> = Vec::new();
        let mut src_reader = SrcReader::new(src);
        assert(all.skip(0) =~= all);
        while src_reader.pos < src_reader.len
            invariant
                src_reader.wf(),
                src_reader.src@ == all,
                tokens@ + tokens_of(all.skip(src_reader.pos as int)) == tokens_of(all),
            decreases src_reader.len - src_reader.pos,
        {
            let ghost pos = src_reader.pos as int;
            let ghost d = all.skip(pos);
            if let Some(buf) = src_reader.get_chunk() {
                let output = Self::replace_delims_16_simple(&buf);
                let ghost before = tokens@;
                tokens.extend_from_slice(&output);
                proof {
                    let end = src_reader.pos as int;
                    if d.len() <= CHUNK_SIZE {
                        assert(d =~= all.subrange(pos, end));
                        assert(all.skip(end) =~= Seq::<u8>::empty());
                    } else {
                        assert(d.take(CHUNK_SIZE as int) =~= all.subrange(pos, end));
                        assert(pad_chunk(d.take(CHUNK_SIZE as int)) =~= d.take(CHUNK_SIZE as int));
                        assert(d.skip(CHUNK_SIZE as int) =~= all.skip(end));
                    }
                    assert(tokens@ =~= before + output@);
                }
            }
        }
        assert(all.skip(src_reader.pos as int) =~= Seq::<u8>::empty());
        assert(tokens@ =~= tokens@ + Seq::<u8>::empty());
        tokens
    }

    /// `input` with every delimiter turned into a space.
    pub fn replace_delims_16_simple(input: &[u8; 16]) -> (output: [u8; 16])
        ensures
            output@ == blank_delims(input@),
    {
        let mut output = [0u8; 16];
        let mut i: usize = 0;
        while i < 16
            invariant
                i <= 16,
                output@.len() == 16,
                input@.len() == 16,
                forall|j: int| 0 <= j < i ==> output@[j] == if is_delim(input@[j]) {
                    32u8
                } else {
                    input@[j]
                },
            decreases 16 - i,
        {
            let c = input[i];
            output[i] = if c == 10 || c == 13 || c == 9 || c == 45 || c == 95 {
                32
            } else {
                c
            };
            i += 1;
        }
        assert(output@ =~= blank_delims(input@));
        output
    }
}

} // verus!
