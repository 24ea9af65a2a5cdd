//! The chunked LZW coder that every SQP payload goes through.

use crate::binio::BitReader;
use crate::binio::BitWriter;
use crate::binio::IoFailure;
use crate::bits::bits_of;
use crate::bits::bytes_bits;
use crate::bits::lemma_value_of_single;
use crate::compression::laws::lemma_chunk_index_sums;
use crate::compression::lzw::Chunk;
use crate::compression::lzw::chunk_bytes;
use crate::compression::lzw::chunk_of;
use crate::compression::lzw::chunk_output;
use crate::compression::lzw::chunk_scan;
use crate::compression::lzw::chunks_of;
use crate::compression::lzw::code_bits;
use crate::compression::lzw::CodeAt;
use crate::compression::lzw::codes_bits;
use crate::compression::lzw::decode_run;
use crate::compression::lzw::decoder_inv;
use crate::compression::lzw::decoder_start;
use crate::compression::lzw::decoder_step;
use crate::compression::lzw::Decoding;
use crate::compression::lzw::decompress_model;
use crate::compression::lzw::DICTIONARY_LIMIT;
use crate::compression::lzw::encoder_inv;
use crate::compression::lzw::encoder_start;
use crate::compression::lzw::encoder_step;
use crate::compression::lzw::EncoderState;
use crate::compression::lzw::entry_for;
use crate::compression::lzw::index_of;
use crate::compression::lzw::lemma_chunk_of_bounds;
use crate::compression::lzw::lemma_codes_bits_len;
use crate::compression::lzw::lemma_codes_bits_push;
use crate::compression::lzw::lemma_decode_failed_extends;
use crate::compression::lzw::lemma_decoder_step_inv;
use crate::compression::lzw::lemma_encoder_start_inv;
use crate::compression::lzw::lemma_encoder_step_inv;
use crate::compression::lzw::lemma_payload_push;
use crate::compression::lzw::lemma_push_injective;
use crate::compression::lzw::payload_of;
use crate::compression::lzw::read_codes;
use crate::compression::lzw::total_compressed;
use crate::compression::lzw::total_raw;
use crate::header::le_bytes;
use crate::header::le_value;
use crate::header::lemma_le_roundtrip;
use crate::header::lemma_le_value_fits;
use crate::header::read_u32_le;
use crate::header::write_u32_le;
use std::collections::HashMap;
use vstd::arithmetic::power2::lemma2_to64;
use vstd::prelude::*;
use vstd::slice::slice_subrange;
use vstd::std_specs::hash::group_hash_axioms;

verus! {

/// The size of compressed data in each chunk
#[derive(Debug, Clone, Copy)]
pub struct ChunkInfo {
    /// The size of the data when compressed
    pub size_compressed: usize,
    /// The size of the data before compression
    pub size_raw: usize,
}

/// A file's information about its compression chunks
#[derive(Debug, Clone)]
pub struct CompressionInfo {
    /// Number of compression chunks
    pub chunk_count: usize,
    /// The compression chunk information
    pub chunks: Vec<ChunkInfo>,
}

impl View for CompressionInfo {
    type V = Seq<(nat, nat)>;

    /// The index as numbers: for each chunk its compressed and its raw size.
    open spec fn view(&self) -> Seq<(nat, nat)> {
        Seq::new(
            self.chunks@.len(),
            |i: int| (self.chunks@[i].size_compressed as nat, self.chunks@[i].size_raw as nat),
        )
    }
}

/// The bytes of the entries of an index: for each chunk its compressed and
/// its raw size, four bytes each, lowest byte first.
pub open spec fn entries_bytes(index: Seq<(nat, nat)>) -> Seq<u8>
    decreases index.len(),
{
    if index.len() == 0 {
        Seq::empty()
    } else {
        entries_bytes(index.drop_last()) + le_bytes(index.last().0 as u32) + le_bytes(
            index.last().1 as u32,
        )
    }
}

/// The bytes of an index in a file: the number of chunks in four bytes, then
/// the entries.
pub open spec fn index_bytes(index: Seq<(nat, nat)>) -> Seq<u8> {
    le_bytes(index.len() as u32) + entries_bytes(index)
}

/// Every number of the index fits the four bytes it has in a file.
pub open spec fn index_fits(index: Seq<(nat, nat)>) -> bool {
    &&& index.len() <= u32::MAX
    &&& forall|i: int|
        0 <= i < index.len() ==> (#[trigger] index[i]).0 <= u32::MAX && index[i].1 <= u32::MAX
}

/// The index that `bytes` starts with; nothing where the bytes end before
/// the index does.
pub open spec fn index_parsed(bytes: Seq<u8>) -> Option<Seq<(nat, nat)>> {
    if bytes.len() < 4 {
        None
    } else {
        let n = le_value(bytes.subrange(0, 4));
        if 4 + 8 * n > bytes.len() {
            None
        } else {
            Some(
                Seq::new(
                    n,
                    |i: int|
                        (
                            le_value(bytes.subrange(4 + 8 * i, 8 + 8 * i)),
                            le_value(bytes.subrange(8 + 8 * i, 12 + 8 * i)),
                        ),
                ),
            )
        }
    }
}

/// Where the entries of an index lie in its bytes.
pub proof fn lemma_entries_bytes_at(index: Seq<(nat, nat)>, i: int)
    requires
        0 <= i < index.len(),
    ensures
        entries_bytes(index).len() == 8 * index.len(),
        entries_bytes(index).subrange(8 * i, 8 * i + 4) == le_bytes(index[i].0 as u32),
        entries_bytes(index).subrange(8 * i + 4, 8 * i + 8) == le_bytes(index[i].1 as u32),
    decreases index.len(),
{
    let front = index.drop_last();
    lemma_entries_bytes_len(front);
    lemma_entries_bytes_len(index);
    if i == index.len() - 1 {
        assert(entries_bytes(index).subrange(8 * i, 8 * i + 4) =~= le_bytes(index[i].0 as u32));
        assert(entries_bytes(index).subrange(8 * i + 4, 8 * i + 8) =~= le_bytes(
            index[i].1 as u32,
        ));
    } else {
        lemma_entries_bytes_at(front, i);
        assert(entries_bytes(index).subrange(8 * i, 8 * i + 4) =~= entries_bytes(front).subrange(
            8 * i,
            8 * i + 4,
        ));
        assert(entries_bytes(index).subrange(8 * i + 4, 8 * i + 8) =~= entries_bytes(
            front,
        ).subrange(8 * i + 4, 8 * i + 8));
    }
}

/// An entry takes eight bytes.
pub proof fn lemma_entries_bytes_len(index: Seq<(nat, nat)>)
    ensures
        entries_bytes(index).len() == 8 * index.len(),
    decreases index.len(),
{
    if index.len() > 0 {
        lemma_entries_bytes_len(index.drop_last());
    }
}

/// An index written out and read back is the index, whatever bytes follow
/// it.
pub proof fn lemma_index_roundtrip(index: Seq<(nat, nat)>, rest: Seq<u8>)
    requires
        index_fits(index),
    ensures
        index_bytes(index).len() == 4 + 8 * index.len(),
        index_parsed(index_bytes(index) + rest) == Some(index),
{
    let bytes = index_bytes(index) + rest;
    lemma_entries_bytes_len(index);
    lemma_le_roundtrip(index.len() as u32);
    assert(bytes.subrange(0, 4) =~= le_bytes(index.len() as u32));
    let parsed = index_parsed(bytes).unwrap();
    assert forall|i: int| 0 <= i < index.len() implies parsed[i] == index[i] by {
        lemma_entries_bytes_at(index, i);
        lemma_le_roundtrip(index[i].0 as u32);
        lemma_le_roundtrip(index[i].1 as u32);
        assert(bytes.subrange(4 + 8 * i, 8 + 8 * i) =~= entries_bytes(index).subrange(
            8 * i,
            8 * i + 4,
        ));
        assert(bytes.subrange(8 + 8 * i, 12 + 8 * i) =~= entries_bytes(index).subrange(
            8 * i + 4,
            8 * i + 8,
        ));
    }
    assert(parsed =~= index);
}

impl CompressionInfo {
    /// The index is in order: it counts the chunks that it lists, and every
    /// number in it fits the four bytes it has in a file.
    pub open spec fn wf(&self) -> bool {
        &&& self.chunk_count == self.chunks@.len()
        &&& index_fits(self@)
    }

    /// Write the index at the end of `output`: the number of chunks, then
    /// for each chunk its compressed and its raw size.
    ///
    /// Returns the number of bytes written.
    pub fn write_into(&self, output: &mut Vec<u8>) -> (size: usize)
        requires
            self.wf(),
        ensures
            size == 4 + 8 * self@.len(),
            final(output)@ == old(output)@ + index_bytes(self@),
    {
        let start: usize = output.len();
        write_u32_le(output, self.chunk_count as u32);

        let mut i: usize = 0;
        proof {
            assert(self@.take(0) =~= Seq::<(nat, nat)>::empty());
            assert(output@ =~= old(output)@ + le_bytes(self.chunk_count as u32) + entries_bytes(
                self@.take(0),
            ));
        }
        while i < self.chunks.len()
            invariant
                i <= self.chunks@.len(),
                self.wf(),
                start == old(output)@.len(),
                output@ == old(output)@ + le_bytes(self.chunk_count as u32) + entries_bytes(
                    self@.take(i as int),
                ),
            decreases self.chunks@.len() - i,
        {
            let chunk = self.chunks[i];
            proof {
                assert(self@[i as int] == (chunk.size_compressed as nat, chunk.size_raw as nat));
                assert(self@.take(i + 1).drop_last() =~= self@.take(i as int));
            }
            write_u32_le(output, chunk.size_compressed as u32);
            write_u32_le(output, chunk.size_raw as u32);
            i += 1;
            proof {
                assert(output@ =~= old(output)@ + le_bytes(self.chunk_count as u32)
                    + entries_bytes(self@.take(i as int)));
            }
        }
        proof {
            assert(self@.take(i as int) =~= self@);
            lemma_entries_bytes_len(self@);
        }
        output.len() - start
    }

    /// Read an index from the start of `input`. Input that ends before the
    /// index does is refused.
    pub fn read_from(input: &[u8]) -> (r: Result<Self, IoFailure>)
        ensures
            match index_parsed(input@) {
                Some(index) => r matches Ok(info) && info@ == index && info.wf(),
                None => r == Err::<Self, IoFailure>(IoFailure::UnexpectedEof),
            },
    {
        if input.len() < 4 {
            return Err(IoFailure::UnexpectedEof);
        }
        proof {
            lemma_le_value_fits(input@.subrange(0, 4));
        }
        let count: u32 = read_u32_le(input, 0);
        if count as u64 > ((input.len() - 4) / 8) as u64 {
            return Err(IoFailure::UnexpectedEof);
        }
        let mut compression_info = CompressionInfo {
            chunk_count: count as usize,
            chunks: Vec::new(),
        };
        let ghost index = index_parsed(input@).unwrap();
        let total: usize = input.len();

        let mut i: usize = 0;
        proof {
            assert(compression_info@ =~= index.take(0));
        }
        while i < count as usize
            invariant
                i <= count,
                total == input@.len(),
                4 + 8 * count <= input@.len(),
                index_parsed(input@) == Some(index),
                index.len() == count,
                compression_info.chunk_count == count,
                compression_info@ == index.take(i as int),
            decreases count - i,
        {
            proof {
                lemma_le_value_fits(input@.subrange(4 + 8 * i, 8 + 8 * i));
                lemma_le_value_fits(input@.subrange(8 + 8 * i, 12 + 8 * i));
            }
            let size_compressed: u32 = read_u32_le(input, 4 + 8 * i);
            let size_raw: u32 = read_u32_le(input, 8 + 8 * i);
            let ghost before = compression_info@;
            compression_info.chunks.push(
                ChunkInfo { size_compressed: size_compressed as usize, size_raw: size_raw as usize },
            );
            i += 1;
            proof {
                assert(compression_info@ =~= before.push((size_compressed as nat, size_raw as nat)));
                assert(index[i - 1] == (size_compressed as nat, size_raw as nat));
                assert(compression_info@ =~= index.take(i as int));
            }
        }
        proof {
            assert(index.take(i as int) =~= index);
        }
        Ok(compression_info)
    }
}

impl Default for CompressionInfo {
    fn default() -> (info: Self)
        ensures
            info.chunk_count == 0,
            info.chunks@.len() == 0,
    {
        CompressionInfo { chunk_count: 0, chunks: Vec::new() }
    }
}

/// What can go wrong in the coder.
#[derive(Debug)]
pub enum CompressionError {
    /// A code in a chunk stood for nothing. The fields are the bytes decoded
    /// before it, the code, and the number of whole bytes of the chunk read
    /// up to the end of the code.
    BadElement(Vec<u8>, u64, usize),
    /// There was nothing to compress.
    NoChunks,
}

/// The key under which the coder's table holds a string: the code of the
/// string without its last byte, and that byte.
spec fn trie_key(prefix_code: nat, c: u8) -> nat {
    prefix_code * 256 + c as nat
}

/// The coder's table holds the dictionary, each string of two bytes or more
/// under the key made of its front part's code and its last byte. `owner`
/// names, for each key, the string that it is the key of.
spec fn trie_inv(table: Map<u64, u64>, owner: Map<u64, (Seq<u8>, u8)>, st: EncoderState) -> bool {
    &&& forall|s: Seq<u8>, c: u8| #[trigger]
        st.dict.contains_key(s.push(c)) && s.len() >= 1 ==> {
            &&& trie_key(st.dict[s], c) <= u64::MAX
            &&& table.contains_key(trie_key(st.dict[s], c) as u64)
            &&& table[trie_key(st.dict[s], c) as u64] == st.dict[s.push(c)]
        }
    &&& forall|k: u64| #[trigger]
        table.contains_key(k) ==> {
            &&& owner.contains_key(k)
            &&& owner[k].0.len() >= 1
            &&& st.dict.contains_key(owner[k].0)
            &&& st.dict.contains_key(owner[k].0.push(owner[k].1))
            &&& k == trie_key(st.dict[owner[k].0], owner[k].1)
        }
}

/// A key that the table holds is the key of the bytes read with `c` behind
/// them, and its value is their code; a key that it lacks means that those
/// bytes have no code.
proof fn lemma_trie_lookup(
    table: Map<u64, u64>,
    owner: Map<u64, (Seq<u8>, u8)>,
    st: EncoderState,
    c: u8,
)
    requires
        encoder_inv(st),
        trie_inv(table, owner, st),
        st.element.len() >= 1,
    ensures
        trie_key(st.dict[st.element], c) <= u64::MAX ==> (table.contains_key(
            trie_key(st.dict[st.element], c) as u64,
        ) <==> st.dict.contains_key(st.element.push(c))),
        st.dict.contains_key(st.element.push(c)) ==> trie_key(st.dict[st.element], c) <= u64::MAX
            && table[trie_key(st.dict[st.element], c) as u64] == st.dict[st.element.push(c)],
{
    let key = trie_key(st.dict[st.element], c);
    if key <= u64::MAX && table.contains_key(key as u64) {
        let k = key as u64;
        let s = owner[k].0;
        let d = owner[k].1;
        assert(st.dict[s] == st.dict[st.element] && d == c) by (nonlinear_arith)
            requires
                st.dict[s] * 256 + d as nat == st.dict[st.element] * 256 + c as nat,
        ;
        assert(s == st.element);
    }
}

/// The table with a new key still holds the dictionary with the new entry.
proof fn lemma_trie_insert(
    table: Map<u64, u64>,
    owner: Map<u64, (Seq<u8>, u8)>,
    st: EncoderState,
    c: u8,
)
    requires
        encoder_inv(st),
        trie_inv(table, owner, st),
        st.element.len() >= 1,
        !st.dict.contains_key(st.element.push(c)),
        st.next < DICTIONARY_LIMIT,
    ensures
        trie_key(st.dict[st.element], c) <= u64::MAX,
        trie_inv(
            table.insert(trie_key(st.dict[st.element], c) as u64, st.next as u64),
            owner.insert(trie_key(st.dict[st.element], c) as u64, (st.element, c)),
            encoder_step(st, c),
        ),
{
    let after = encoder_step(st, c);
    let entry = st.element.push(c);
    let key = trie_key(st.dict[st.element], c) as u64;
    let table2 = table.insert(key, st.next as u64);
    let owner2 = owner.insert(key, (st.element, c));
    lemma_encoder_step_inv(st, c);
    assert(entry.len() >= 2);
    assert(!table.contains_key(key)) by {
        lemma_trie_lookup(table, owner, st, c);
    }
    assert forall|s: Seq<u8>, d: u8| #[trigger]
        after.dict.contains_key(s.push(d)) && s.len() >= 1 implies {
        &&& trie_key(after.dict[s], d) <= u64::MAX
        &&& table2.contains_key(trie_key(after.dict[s], d) as u64)
        &&& table2[trie_key(after.dict[s], d) as u64] == after.dict[s.push(d)]
    } by {
        if s.push(d) == entry {
            lemma_push_injective(s, d, st.element, c);
        } else {
            assert(st.dict.contains_key(s.push(d)));
            assert(st.dict.contains_key(s));
            assert(s != entry);
            let k = trie_key(st.dict[s], d);
            if k == key {
                assert(st.dict[s] == st.dict[st.element] && d == c) by (nonlinear_arith)
                    requires
                        st.dict[s] * 256 + d as nat == st.dict[st.element] * 256 + c as nat,
                ;
                assert(s == st.element);
            }
        }
    }
    assert forall|k: u64| #[trigger] table2.contains_key(k) implies {
        &&& owner2.contains_key(k)
        &&& owner2[k].0.len() >= 1
        &&& after.dict.contains_key(owner2[k].0)
        &&& after.dict.contains_key(owner2[k].0.push(owner2[k].1))
        &&& k == trie_key(after.dict[owner2[k].0], owner2[k].1)
    } by {
        if k != key {
            assert(table.contains_key(k));
            assert(owner[k].0 != entry);
        }
    }
}

/// Write one code: a flag bit, then the code in 15 bits, or in 18 bits where
/// it is above `0x7FFF`.
fn write_code(bit_io: &mut BitWriter, code: u64)
    requires
        old(bit_io).wf(),
        old(bit_io).bits().len() + 200 <= usize::MAX,
    ensures
        final(bit_io).wf(),
        final(bit_io).bits() == old(bit_io).bits() + code_bits(code as nat),
{
    proof {
        lemma2_to64();
        assert(bits_of(1, 1) =~= seq![true]);
        assert(bits_of(0, 1) =~= seq![false]);
    }
    if code > 0x7FFF {
        let _flag = bit_io.write_bit(1, 1);
        let _code = bit_io.write_bit(code, 18);
    } else {
        let _flag = bit_io.write_bit(0, 1);
        let _code = bit_io.write_bit(code, 15);
    }
    proof {
        assert(bit_io.bits() =~= old(bit_io).bits() + code_bits(code as nat));
    }
}

/// Code one chunk of `data`: as many of its bytes as can be coded before the
/// dictionary is full. The result is the number of bytes coded, the bytes of
/// the chunk, and the bytes read last but not coded.
///
/// `last` is what the chunk before left over. Nothing of it is coded here: a
/// byte that is left over is not counted by the chunk that read it, so it is
/// still the first byte of `data`.
///
/// The dictionary is kept as a table from the code of a string and one more
/// byte to the code of the string with that byte behind it.
pub fn compress_lzw(data: &[u8], last: Vec<u8>) -> (r: (usize, Vec<u8>, Vec<u8>))
    ensures
        r.0 == chunk_of(data@).count,
        r.1@ == chunk_bytes(chunk_of(data@).codes),
        r.2@ == chunk_of(data@).carry,
{
    broadcast use group_hash_axioms;

    let _ = last;
    let mut count: usize = 0;
    let mut dictionary: HashMap<u64, u64> = HashMap::new();
    let mut dictionary_count: u64 = 257;
    let mut element: Option<u64> = None;
    let mut bit_io = BitWriter::new();
    let mut exhausted = false;
    let ghost mut st = encoder_start();
    let ghost mut owner: Map<u64, (Seq<u8>, u8)> = Map::empty();
    proof {
        lemma_encoder_start_inv();
    }
    while count < data.len() && !exhausted
        invariant
            count <= data.len(),
            encoder_inv(st),
            trie_inv(dictionary@, owner, st),
            dictionary_count == st.next,
            bit_io.wf(),
            bit_io.bits() == codes_bits(st.codes),
            element is None <==> st.element.len() == 0,
            element matches Some(code) ==> code == st.dict[st.element],
            !exhausted ==> st.next < DICTIONARY_LIMIT && chunk_of(data@) == chunk_scan(
                data@,
                count as int,
                st,
            ),
            exhausted ==> st.next == DICTIONARY_LIMIT && st.element.len() == 1 && chunk_of(data@)
                == (Chunk { count: count as nat, codes: st.codes, carry: st.element }),
        decreases data.len() - count + if exhausted { 0int } else { 1int },
    {
        let c: u8 = data[count];
        proof {
            lemma_encoder_step_inv(st, c);
            lemma_codes_bits_len(st.codes);
        }
        match element {
            None => {
                proof {
                    assert(st.element.push(c).len() == 1);
                }
                element = Some(c as u64);
            },
            Some(code) => {
                proof {
                    lemma_trie_lookup(dictionary@, owner, st, c);
                }
                let key: u64 = code * 256 + c as u64;
                if dictionary.contains_key(&key) {
                    match dictionary.get(&key) {
                        Some(found) => {
                            element = Some(*found);
                        },
                        None => {},
                    }
                } else {
                    proof {
                        lemma_trie_insert(dictionary@, owner, st, c);
                        lemma_codes_bits_push(st.codes, code as nat);
                        owner = owner.insert(key, (st.element, c));
                        assert(seq![c].len() == 1);
                    }
                    write_code(&mut bit_io, code);
                    dictionary.insert(key, dictionary_count);
                    element = Some(c as u64);
                    dictionary_count += 1;
                }
            },
        }
        proof {
            st = encoder_step(st, c);
        }
        count += 1;
        if dictionary_count >= DICTIONARY_LIMIT {
            count -= 1;
            exhausted = true;
        }
    }

    proof {
        lemma_codes_bits_len(st.codes);
    }
    let last_element = element;
    if bit_io.byte_size() == 0 {
        match last_element {
            Some(code) => {
                proof {
                    lemma_codes_bits_push(st.codes, code as nat);
                }
                write_code(&mut bit_io, code);
            },
            None => {},
        }
        bit_io.flush();
        return (count, bit_io.into_bytes(), Vec::new());
    } else if dictionary_count < DICTIONARY_LIMIT {
        match last_element {
            Some(code) => {
                proof {
                    lemma_codes_bits_push(st.codes, code as nat);
                }
                write_code(&mut bit_io, code);
            },
            None => {},
        }
        bit_io.flush();
        return (count, bit_io.into_bytes(), Vec::new());
    }
    bit_io.flush();
    let mut carry: Vec<u8> = Vec::new();
    match last_element {
        Some(code) => {
            carry.push(code as u8);
        },
        None => {},
    }
    proof {
        assert(carry@ =~= st.element);
    }
    (count, bit_io.into_bytes(), carry)
}

/// Compress `data` into chunks. The result is the bytes of all chunks, laid
/// end to end, and the index that says where each chunk ends and how many
/// bytes of `data` it stands for. Data without a byte has no chunk and is
/// refused with `NoChunks`.
pub fn compress(data: &[u8]) -> (r: Result<(Vec<u8>, CompressionInfo), CompressionError>)
    ensures
        r is Err <==> data@.len() == 0,
        r matches Err(e) ==> e is NoChunks,
        r matches Ok((buf, info)) ==> {
            &&& buf@ == payload_of(chunks_of(data@))
            &&& info@ == index_of(chunks_of(data@))
            &&& info.chunk_count == info.chunks@.len()
            &&& total_raw(info@) == data@.len()
            &&& total_compressed(info@) == buf@.len()
        },
{
    let mut part_data: Vec<u8>;

    let mut offset: usize = 0;
    let mut count: usize;
    let mut last: Vec<u8> = Vec::new();

    let mut output_buf: Vec<u8> = Vec::new();
    let mut output_info = CompressionInfo::default();

    let ghost mut done: Seq<(Seq<u8>, nat)> = Seq::empty();
    proof {
        assert(data@.skip(0) =~= data@);
        assert(done + chunks_of(data@) =~= chunks_of(data@));
        assert(output_info@ =~= index_of(done));
    }
    loop
        invariant
            offset <= data@.len(),
            chunks_of(data@) == done + chunks_of(data@.skip(offset as int)),
            output_buf@ == payload_of(done),
            output_info@ == index_of(done),
            output_info.chunk_count == output_info.chunks@.len(),
            done.len() == 0 <==> offset == 0,
        ensures
            chunks_of(data@) == done,
            output_buf@ == payload_of(done),
            output_info@ == index_of(done),
            output_info.chunk_count == output_info.chunks@.len(),
            done.len() == 0 <==> data@.len() == 0,
        decreases data@.len() - offset,
    {
        let rest = slice_subrange(data, offset, data.len());
        let ghost tail = data@.skip(offset as int);
        proof {
            assert(rest@ =~= tail);
            lemma_chunk_of_bounds(tail);
        }
        let part = compress_lzw(rest, last);
        count = part.0;
        part_data = part.1;
        last = part.2;
        if count == 0 {
            proof {
                assert(done + Seq::<(Seq<u8>, nat)>::empty() =~= done);
            }
            break ;
        }
        offset += count;

        output_buf.extend_from_slice(part_data.as_slice());

        let ghost index_before = output_info@;
        output_info.chunks.push(ChunkInfo { size_compressed: part_data.len(), size_raw: count });

        output_info.chunk_count = output_info.chunks.len();
        proof {
            let made = (part_data@, count as nat);
            lemma_payload_push(done, made);
            assert(tail.skip(count as int) =~= data@.skip(offset as int));
            assert(done + (seq![made] + chunks_of(tail.skip(count as int))) =~= done.push(made)
                + chunks_of(data@.skip(offset as int)));
            done = done.push(made);
            assert(output_info@ =~= index_before.push((part_data@.len(), count as nat)));
            assert(output_info@ =~= index_of(done));
        }
    }

    if output_info.chunk_count == 0 {
        return Err(CompressionError::NoChunks);
    }
    proof {
        lemma_chunk_index_sums(data@);
    }
    Ok((output_buf, output_info))
}

/// The entries of the decoder's table, as byte strings.
spec fn table_view(dictionary: Seq<Vec<u8>>) -> Seq<Seq<u8>> {
    Seq::new(dictionary.len(), |i: int| dictionary[i]@)
}

/// Decode one chunk. The codes are read up to the chunk's last byte, and
/// each is replaced by the bytes it stands for. A code that stands for
/// nothing ends the decoding with `BadElement`.
///
/// `size` is the number of bytes that the chunk is said to hold; room for as
/// many is set aside, and no more is made of it.
pub fn decompress_lzw(input_data: &[u8], size: usize) -> (r: Result<Vec<u8>, CompressionError>)
    ensures
        match r {
            Ok(out) => decode_run(read_codes(input_data@, 0)) matches Decoding::Running(st)
                && out@ == st.out,
            Err(CompressionError::BadElement(partial, code, offset)) => decode_run(
                read_codes(input_data@, 0),
            ) == (Decoding::Failed { partial: partial@, code: code as nat, offset: offset as nat }),
            Err(CompressionError::NoChunks) => false,
        },
{
    // Build the initial dictionary of 256 values
    let mut dictionary: Vec<Vec<u8>> = Vec::new();
    let mut value: usize = 0;
    while value < 256
        invariant
            value <= 256,
            dictionary@.len() == value,
            forall|i: int| 0 <= i < value ==> (#[trigger] dictionary@[i])@ == seq![i as u8],
        decreases 256 - value,
    {
        let mut single: Vec<u8> = Vec::new();
        single.push(value as u8);
        dictionary.push(single);
        value += 1;
    }
    let mut dictionary_count: u64 = dictionary.len() as u64;

    let mut result: Vec<u8> = Vec::with_capacity(size);
    let data_size: usize = input_data.len();

    let mut bit_io = BitReader::new(input_data);
    let mut w: Vec<u8> = dictionary[0].clone();

    let ghost all = read_codes(input_data@, 0);
    let ghost mut consumed: Seq<CodeAt> = Seq::empty();
    let ghost mut st = decoder_start();
    let mut running = true;
    proof {
        assert(table_view(dictionary@) =~= st.dict);
        assert(w@ =~= st.w);
        assert(consumed + all =~= all);
    }
    while running
        invariant
            bit_io.wf(),
            bit_io.source() == input_data@,
            data_size == input_data@.len(),
            all == read_codes(input_data@, 0),
            decode_run(consumed) == Decoding::Running(st),
            decoder_inv(st),
            table_view(dictionary@) == st.dict,
            dictionary_count == dictionary@.len(),
            w@ == st.w,
            result@ == st.out,
            running ==> all == consumed + read_codes(input_data@, bit_io.position()),
            !running ==> all == consumed,
        decreases 8 * input_data@.len() - bit_io.position() + if running { 1int } else { 0int },
    {
        proof {
            bit_io.lemma_position();
        }
        let ghost pos = bit_io.position();
        let ghost stream = bytes_bits(input_data@);
        if data_size == 0 || bit_io.byte_offset() >= data_size - 1 {
            running = false;
            proof {
                assert(consumed + Seq::<CodeAt>::empty() =~= consumed);
            }
        } else {
            let flag_read = bit_io.read_bit(1);
            match flag_read {
                Err(_) => {
                    running = false;
                },
                Ok(flag) => {
                    proof {
                        lemma_value_of_single(stream.subrange(pos as int, pos as int + 1));
                    }
                    let code_read = if flag == 0 {
                        bit_io.read_bit(15)
                    } else {
                        bit_io.read_bit(18)
                    };
                    match code_read {
                        Err(_) => {
                            running = false;
                            proof {
                                assert(consumed + Seq::<CodeAt>::empty() =~= consumed);
                            }
                        },
                        Ok(element) => {
                            let ghost found = CodeAt {
                                code: element as nat,
                                end: bit_io.position(),
                            };
                            proof {
                                assert(read_codes(input_data@, pos) == seq![found] + read_codes(
                                    input_data@,
                                    found.end,
                                ));
                                assert(consumed + (seq![found] + read_codes(
                                    input_data@,
                                    found.end,
                                )) =~= consumed.push(found) + read_codes(input_data@, found.end));
                                assert(consumed.push(found).drop_last() =~= consumed);
                            }
                            let table_len: usize = dictionary.len();
                            let mut entry: Vec<u8>;
                            if element < dictionary_count {
                                // If the element was already in the dict, get it
                                entry = dictionary[element as usize].clone();
                                proof {
                                    assert(st.dict[element as int] == dictionary@[element as int]@);
                                }
                            } else if element == dictionary_count {
                                entry = w.clone();
                                entry.push(w[0]);
                            } else {
                                proof {
                                    lemma_decode_failed_extends(
                                        consumed.push(found),
                                        read_codes(input_data@, found.end),
                                    );
                                }
                                return Err(
                                    CompressionError::BadElement(
                                        result,
                                        element,
                                        bit_io.byte_offset(),
                                    ),
                                );
                            }
                            proof {
                                lemma_decoder_step_inv(st, element as nat);
                                assert(entry@ == entry_for(st, element as nat).unwrap());
                            }
                            result.extend_from_slice(entry.as_slice());
                            w.push(entry[0]);
                            dictionary.push(w);
                            dictionary_count = dictionary.len() as u64;
                            w = entry;
                            proof {
                                st = decoder_step(st, entry_for(st, element as nat).unwrap());
                                consumed = consumed.push(found);
                                assert(table_view(dictionary@) =~= st.dict);
                            }
                        },
                    }
                },
            }
        }
    }
    Ok(result)
}

/// Decompress the chunks that `compression_info` lists, cut from `input` one
/// after the other. A chunk in which a code stands for nothing gives the
/// bytes decoded before that code, filled up with zero bytes to the chunk's
/// raw size; the chunks behind it are decoded as ever. Input that is too
/// short for the chunks listed is refused.
pub fn decompress(input: &[u8], compression_info: &CompressionInfo) -> (r: Result<
    Vec<u8>,
    IoFailure,
>)
    ensures
        match decompress_model(input@, compression_info@) {
            Some(out) => r matches Ok(v) && v@ == out,
            None => r == Err::<Vec<u8>, IoFailure>(IoFailure::UnexpectedEof),
        },
{
    let mut output_buf: Vec<u8> = Vec::new();
    let mut offset: usize = 0;
    let mut i: usize = 0;
    let ghost index = compression_info@;
    proof {
        assert(input@.skip(0) =~= input@);
        assert(index.skip(0) =~= index);
    }
    while i < compression_info.chunks.len()
        invariant
            i <= compression_info.chunks@.len(),
            index == compression_info@,
            offset <= input@.len(),
            decompress_model(input@, index) == match decompress_model(
                input@.skip(offset as int),
                index.skip(i as int),
            ) {
                Some(rest) => Some(output_buf@ + rest),
                None => None::<Seq<u8>>,
            },
        decreases compression_info.chunks@.len() - i,
    {
        let block_info = compression_info.chunks[i];
        let ghost here = input@.skip(offset as int);
        let ghost left = index.skip(i as int);
        proof {
            assert(left[0] == index[i as int]);
            assert(left.drop_first() =~= index.skip(i + 1));
        }
        if block_info.size_compressed > input.len() - offset {
            return Err(IoFailure::UnexpectedEof);
        }
        let buffer = slice_subrange(input, offset, offset + block_info.size_compressed);
        proof {
            assert(buffer@ =~= here.take(block_info.size_compressed as int));
            assert(here.skip(block_info.size_compressed as int) =~= input@.skip(
                offset + block_info.size_compressed,
            ));
        }
        let ghost before = output_buf@;
        match decompress_lzw(buffer, block_info.size_raw) {
            Ok(result) => {
                output_buf.extend_from_slice(result.as_slice());
            },
            Err(error) => {
                match error {
                    CompressionError::BadElement(partial, _, _) => {
                        output_buf.extend_from_slice(partial.as_slice());
                        if block_info.size_raw > partial.len() {
                            let missing: usize = block_info.size_raw - partial.len();
                            let padding: Vec<u8> = vec![0u8; missing];
                            output_buf.extend_from_slice(padding.as_slice());
                        }
                    },
                    CompressionError::NoChunks => {},
                }
            },
        }
        proof {
            let made = chunk_output(buffer@, block_info.size_raw as nat);
            assert(output_buf@ =~= before + made);
            match decompress_model(input@.skip(offset + block_info.size_compressed), index.skip(i + 1)) {
                Some(rest) => {
                    assert(before + (made + rest) =~= (before + made) + rest);
                },
                None => {},
            }
        }
        offset += block_info.size_compressed;
        i += 1;
    }
    proof {
        assert(output_buf@ + Seq::<u8>::empty() =~= output_buf@);
    }
    Ok(output_buf)
}

} // verus!
