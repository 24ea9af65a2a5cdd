//! The LZW coder as mathematics: which codes stand for a run of bytes, which
//! bytes a run of codes stands for, and how codes lie in a chunk's bits.
//!
//! A code is written as one flag bit and then 15 bits, or 18 bits for a code
//! above `0x7FFF`. The coder starts with one entry for each byte value and
//! gives new entries the codes from 257 on; the decoder numbers its own
//! entries from 256 on, its first one standing for nothing the coder has.

use crate::bits::bits_of;
use crate::bits::bytes_bits;
use crate::bits::flushed;
use crate::bits::value_of;
use vstd::prelude::*;

verus! {

/// The number of dictionary entries at which a chunk ends.
pub const DICTIONARY_LIMIT: u64 = 0x3FFFE;

/// What the coder holds while it walks through the bytes of a chunk.
pub struct EncoderState {
    /// The byte strings that have a code, with their codes.
    pub dict: Map<Seq<u8>, nat>,
    /// The code that the next new entry gets.
    pub next: nat,
    /// The bytes read since the last code was put out.
    pub element: Seq<u8>,
    /// The codes put out so far.
    pub codes: Seq<nat>,
}

/// The coder before the first byte: every single byte has its own value as
/// its code, and nothing has been read.
pub open spec fn encoder_start() -> EncoderState {
    EncoderState {
        dict: Map::new(|s: Seq<u8>| s.len() == 1, |s: Seq<u8>| s[0] as nat),
        next: 257,
        element: Seq::empty(),
        codes: Seq::empty(),
    }
}

/// The coder after one more byte `c`. Where the bytes read with `c` behind
/// them have a code, they are read on; where not, the code of the bytes read
/// goes out, the longer string gets the next code, and reading starts again
/// at `c`.
pub open spec fn encoder_step(st: EncoderState, c: u8) -> EncoderState {
    let entry = st.element.push(c);
    if st.dict.contains_key(entry) {
        EncoderState { element: entry, ..st }
    } else {
        EncoderState {
            dict: st.dict.insert(entry, st.next),
            next: st.next + 1,
            element: seq![c],
            codes: st.codes.push(st.dict[st.element]),
        }
    }
}

/// One chunk: how many bytes of the input it stands for, the codes in it, and
/// the bytes read but left to the next chunk.
pub struct Chunk {
    /// The number of input bytes that the codes stand for.
    pub count: nat,
    /// The codes of the chunk, in order.
    pub codes: Seq<nat>,
    /// The bytes read last and not coded, where the dictionary filled up.
    pub carry: Seq<u8>,
}

/// The chunk that comes out when the coder, in state `st`, goes on from byte
/// `i` of `data`. It ends where the data ends, with the code of the bytes
/// read last, or at the byte that fills the dictionary, which is then left
/// out of the count.
pub open spec fn chunk_scan(data: Seq<u8>, i: int, st: EncoderState) -> Chunk
    decreases data.len() - i,
{
    if i < 0 || i >= data.len() {
        Chunk {
            count: data.len(),
            codes: if st.element.len() > 0 {
                st.codes.push(st.dict[st.element])
            } else {
                st.codes
            },
            carry: Seq::empty(),
        }
    } else {
        let after = encoder_step(st, data[i]);
        if after.next >= DICTIONARY_LIMIT {
            Chunk { count: i as nat, codes: after.codes, carry: after.element }
        } else {
            chunk_scan(data, i + 1, after)
        }
    }
}

/// The first chunk of `data`.
pub open spec fn chunk_of(data: Seq<u8>) -> Chunk {
    chunk_scan(data, 0, encoder_start())
}

/// The bits of one code: a flag, then the code in 15 bits, or in 18 bits
/// where it is above `0x7FFF`.
pub open spec fn code_bits(code: nat) -> Seq<bool> {
    if code > 0x7FFF {
        seq![true] + bits_of(code, 18)
    } else {
        seq![false] + bits_of(code, 15)
    }
}

/// The bits of a run of codes.
pub open spec fn codes_bits(codes: Seq<nat>) -> Seq<bool>
    decreases codes.len(),
{
    if codes.len() == 0 {
        Seq::empty()
    } else {
        codes_bits(codes.drop_last()) + code_bits(codes.last())
    }
}

/// The bytes of a chunk that holds `codes`: their bits, closed by a flush.
pub open spec fn chunk_bytes(codes: Seq<nat>) -> Seq<u8> {
    flushed(codes_bits(codes))
}

/// A code as it was found in a chunk, with the place where its bits end.
pub struct CodeAt {
    /// The code.
    pub code: nat,
    /// The number of bits of the chunk up to the end of the code.
    pub end: nat,
}

/// The codes that are read from `bytes`, starting at bit `pos`. Reading stops
/// once the last byte is reached, and also where the bits that are left do not
/// hold a whole code.
pub open spec fn read_codes(bytes: Seq<u8>, pos: nat) -> Seq<CodeAt>
    decreases 8 * bytes.len() - pos,
{
    let stream = bytes_bits(bytes);
    if pos / 8 + 1 >= bytes.len() {
        Seq::empty()
    } else {
        let width: nat = if stream[pos as int] {
            18
        } else {
            15
        };
        let end = pos + 1 + width;
        if end > stream.len() {
            Seq::empty()
        } else {
            seq![CodeAt { code: value_of(stream.subrange(pos as int + 1, end as int)), end }]
                + read_codes(bytes, end)
        }
    }
}

/// What the decoder holds while it walks through the codes of a chunk.
pub struct DecoderState {
    /// The byte strings that have a code; the code is the index.
    pub dict: Seq<Seq<u8>>,
    /// The bytes that the last code stood for.
    pub w: Seq<u8>,
    /// The bytes put out so far.
    pub out: Seq<u8>,
}

/// The decoder before the first code: one entry for each byte value, and the
/// zero byte as the bytes of a code before the first.
pub open spec fn decoder_start() -> DecoderState {
    DecoderState {
        dict: Seq::new(256, |i: int| seq![i as u8]),
        w: seq![0u8],
        out: Seq::empty(),
    }
}

/// The bytes that `code` stands for in state `st`: its entry, or, for the
/// code that the next entry will get, the last bytes with their first byte
/// behind them. A code beyond that stands for nothing.
pub open spec fn entry_for(st: DecoderState, code: nat) -> Option<Seq<u8>> {
    if code < st.dict.len() {
        Some(st.dict[code as int])
    } else if code == st.dict.len() {
        Some(st.w.push(st.w[0]))
    } else {
        None
    }
}

/// The decoder after a code that stood for `entry`.
pub open spec fn decoder_step(st: DecoderState, entry: Seq<u8>) -> DecoderState {
    DecoderState { dict: st.dict.push(st.w.push(entry[0])), w: entry, out: st.out + entry }
}

/// How far the decoding of a run of codes got.
pub enum Decoding {
    /// Every code stood for something.
    Running(DecoderState),
    /// A code stood for nothing.
    Failed {
        /// The bytes put out before that code.
        partial: Seq<u8>,
        /// The code.
        code: nat,
        /// The number of whole bytes read up to the end of the code.
        offset: nat,
    },
}

/// The decoding of a run of codes. It fails at the first code that stands
/// for nothing, and what comes after that code changes nothing.
pub open spec fn decode_run(codes: Seq<CodeAt>) -> Decoding
    decreases codes.len(),
{
    if codes.len() == 0 {
        Decoding::Running(decoder_start())
    } else {
        match decode_run(codes.drop_last()) {
            Decoding::Running(st) => match entry_for(st, codes.last().code) {
                Some(entry) => Decoding::Running(decoder_step(st, entry)),
                None => Decoding::Failed {
                    partial: st.out,
                    code: codes.last().code,
                    offset: codes.last().end / 8,
                },
            },
            failed => failed,
        }
    }
}

/// What holds of the coder at every byte: single bytes have their value as
/// code, longer strings have codes from 257 on and their front part has a
/// code too, no two strings share a code, and one code went out for each
/// entry made.
pub open spec fn encoder_inv(st: EncoderState) -> bool {
    &&& st.next == 257 + st.codes.len()
    &&& forall|s: Seq<u8>| s.len() == 1 ==> #[trigger] st.dict.contains_key(s)
    &&& forall|s: Seq<u8>| #[trigger]
        st.dict.contains_key(s) ==> {
            &&& s.len() >= 1
            &&& st.dict[s] < st.next
            &&& st.dict[s] != 256
            &&& (s.len() == 1 ==> st.dict[s] == s[0])
            &&& (s.len() >= 2 ==> st.dict[s] >= 257)
        }
    &&& forall|s: Seq<u8>, c: u8| #[trigger]
        st.dict.contains_key(s.push(c)) && s.len() >= 1 ==> st.dict.contains_key(s)
    &&& forall|s: Seq<u8>, t: Seq<u8>|
        #[trigger] st.dict.contains_key(s) && #[trigger] st.dict.contains_key(t) && st.dict[s]
            == st.dict[t] ==> s == t
    &&& (st.element.len() > 0 ==> st.dict.contains_key(st.element))
    &&& forall|k: int| 0 <= k < st.codes.len() ==> #[trigger] st.codes[k] < st.next
}

/// Two strings that are equal after a push were equal before it, and so
/// were the bytes pushed.
pub proof fn lemma_push_injective(s: Seq<u8>, c: u8, t: Seq<u8>, d: u8)
    requires
        s.push(c) == t.push(d),
    ensures
        s == t,
        c == d,
{
    assert(s.push(c).drop_last() =~= s);
    assert(t.push(d).drop_last() =~= t);
    assert(s.push(c).last() == c);
    assert(t.push(d).last() == d);
}

/// The coder starts in order.
pub proof fn lemma_encoder_start_inv()
    ensures
        encoder_inv(encoder_start()),
{
    let st = encoder_start();
    assert forall|s: Seq<u8>, t: Seq<u8>|
        #[trigger] st.dict.contains_key(s) && #[trigger] st.dict.contains_key(t) && st.dict[s]
            == st.dict[t] implies s == t by {
        assert(s =~= t);
    }
}

/// A byte leaves the coder in order.
pub proof fn lemma_encoder_step_inv(st: EncoderState, c: u8)
    requires
        encoder_inv(st),
    ensures
        encoder_inv(encoder_step(st, c)),
        encoder_step(st, c).element.len() >= 1,
        encoder_step(st, c).element[0] == if st.element.len() > 0 && st.dict.contains_key(
            st.element.push(c),
        ) {
            st.element[0]
        } else {
            c
        },
{
    let after = encoder_step(st, c);
    let entry = st.element.push(c);
    if st.dict.contains_key(entry) {
        assert(encoder_inv(after));
    } else {
        assert(st.element.len() >= 1) by {
            if st.element.len() == 0 {
                assert(entry.len() == 1);
            }
        }
        assert(entry.drop_last() =~= st.element);
        assert forall|s: Seq<u8>, d: u8| #[trigger]
            after.dict.contains_key(s.push(d)) && s.len() >= 1 implies after.dict.contains_key(
            s,
        ) by {
            if s.push(d) == entry {
                lemma_push_injective(s, d, st.element, c);
            } else {
                assert(st.dict.contains_key(s.push(d)));
            }
        }
        assert forall|s: Seq<u8>| #[trigger] after.dict.contains_key(s) implies {
            &&& s.len() >= 1
            &&& after.dict[s] < after.next
            &&& after.dict[s] != 256
            &&& (s.len() == 1 ==> after.dict[s] == s[0])
            &&& (s.len() >= 2 ==> after.dict[s] >= 257)
        } by {
            if s != entry {
                assert(st.dict.contains_key(s));
            }
        }
        assert forall|s: Seq<u8>, t: Seq<u8>|
            #[trigger] after.dict.contains_key(s) && #[trigger] after.dict.contains_key(t)
                && after.dict[s] == after.dict[t] implies s == t by {
            if s != entry {
                assert(st.dict.contains_key(s));
            }
            if t != entry {
                assert(st.dict.contains_key(t));
            }
        }
        assert(after.dict.contains_key(seq![c])) by {
            assert(seq![c].len() == 1);
            assert(st.dict.contains_key(seq![c]));
        }
        assert forall|s: Seq<u8>| s.len() == 1 implies #[trigger] after.dict.contains_key(s) by {
            assert(st.dict.contains_key(s));
        }
        assert(encoder_inv(after));
    }
}

/// The bits of a run of codes with one more code behind it.
pub proof fn lemma_codes_bits_push(codes: Seq<nat>, code: nat)
    ensures
        codes_bits(codes.push(code)) == codes_bits(codes) + code_bits(code),
{
    assert(codes.push(code).drop_last() =~= codes);
}

/// A code takes 16 or 19 bits.
pub proof fn lemma_codes_bits_len(codes: Seq<nat>)
    ensures
        16 * codes.len() <= codes_bits(codes).len() <= 19 * codes.len(),
    decreases codes.len(),
{
    if codes.len() > 0 {
        lemma_codes_bits_len(codes.drop_last());
    }
}

/// What holds of the decoder at every code: no entry is empty, and neither
/// are the bytes of the last code.
pub open spec fn decoder_inv(st: DecoderState) -> bool {
    &&& st.dict.len() >= 256
    &&& st.w.len() >= 1
    &&& forall|i: int| 0 <= i < st.dict.len() ==> (#[trigger] st.dict[i]).len() >= 1
}

/// A code that stands for something leaves the decoder in order.
pub proof fn lemma_decoder_step_inv(st: DecoderState, code: nat)
    requires
        decoder_inv(st),
        entry_for(st, code) is Some,
    ensures
        decoder_inv(decoder_step(st, entry_for(st, code).unwrap())),
        entry_for(st, code).unwrap().len() >= 1,
{
}

/// Codes behind the one at which a decoding failed change nothing.
pub proof fn lemma_decode_failed_extends(codes: Seq<CodeAt>, more: Seq<CodeAt>)
    requires
        decode_run(codes) is Failed,
    ensures
        decode_run(codes + more) == decode_run(codes),
    decreases more.len(),
{
    if more.len() == 0 {
        assert(codes + more =~= codes);
    } else {
        assert((codes + more).drop_last() =~= codes + more.drop_last());
        lemma_decode_failed_extends(codes, more.drop_last());
    }
}

/// The chunks of a payload: the bytes of each chunk, and the number of bytes
/// of the payload that it stands for. A chunk starts where the one before it
/// stopped counting.
pub open spec fn chunks_of(data: Seq<u8>) -> Seq<(Seq<u8>, nat)>
    decreases data.len(),
{
    let first = chunk_of(data);
    if data.len() == 0 || first.count == 0 || first.count > data.len() {
        Seq::empty()
    } else {
        seq![(chunk_bytes(first.codes), first.count)] + chunks_of(data.skip(first.count as int))
    }
}

/// The bytes of a run of chunks, laid end to end.
pub open spec fn payload_of(chunks: Seq<(Seq<u8>, nat)>) -> Seq<u8>
    decreases chunks.len(),
{
    if chunks.len() == 0 {
        Seq::empty()
    } else {
        chunks[0].0 + payload_of(chunks.drop_first())
    }
}

/// The index of a run of chunks: for each chunk, the number of its bytes and
/// the number of bytes it stands for.
pub open spec fn index_of(chunks: Seq<(Seq<u8>, nat)>) -> Seq<(nat, nat)> {
    Seq::new(chunks.len(), |i: int| (chunks[i].0.len(), chunks[i].1))
}

/// The sum of the compressed sizes in an index.
pub open spec fn total_compressed(index: Seq<(nat, nat)>) -> nat
    decreases index.len(),
{
    if index.len() == 0 {
        0
    } else {
        index[0].0 + total_compressed(index.drop_first())
    }
}

/// The sum of the raw sizes in an index.
pub open spec fn total_raw(index: Seq<(nat, nat)>) -> nat
    decreases index.len(),
{
    if index.len() == 0 {
        0
    } else {
        index[0].1 + total_raw(index.drop_first())
    }
}

/// The bytes that a chunk gives when it is decoded: what its codes stand
/// for, or, where a code stands for nothing, the bytes decoded before that
/// code, followed by zero bytes up to the size that the chunk is said to
/// have.
pub open spec fn chunk_output(payload: Seq<u8>, size_raw: nat) -> Seq<u8> {
    match decode_run(read_codes(payload, 0)) {
        Decoding::Running(st) => st.out,
        Decoding::Failed { partial, .. } => partial + Seq::new(
            if size_raw > partial.len() {
                (size_raw - partial.len()) as nat
            } else {
                0
            },
            |i: int| 0u8,
        ),
    }
}

/// The bytes that a run of chunks gives when it is decoded, the chunks being
/// cut from `input` by the sizes in `index`; nothing where `input` is too
/// short for them.
pub open spec fn decompress_model(input: Seq<u8>, index: Seq<(nat, nat)>) -> Option<Seq<u8>>
    decreases index.len(),
{
    if index.len() == 0 {
        Some(Seq::empty())
    } else if index[0].0 > input.len() {
        None
    } else {
        match decompress_model(input.skip(index[0].0 as int), index.drop_first()) {
            Some(rest) => Some(chunk_output(input.take(index[0].0 as int), index[0].1) + rest),
            None => None,
        }
    }
}

/// The bytes of a run of chunks with one more chunk behind it.
pub proof fn lemma_payload_push(chunks: Seq<(Seq<u8>, nat)>, last: (Seq<u8>, nat))
    ensures
        payload_of(chunks.push(last)) == payload_of(chunks) + last.0,
    decreases chunks.len(),
{
    if chunks.len() == 0 {
        assert(chunks.push(last).drop_first() =~= chunks);
        assert(payload_of(chunks) =~= Seq::<u8>::empty());
        assert(chunks.push(last)[0] == last);
        assert(payload_of(chunks.push(last)) =~= last.0 + Seq::<u8>::empty());
        assert(payload_of(chunks.push(last)) =~= payload_of(chunks) + last.0);
    } else {
        assert(chunks.push(last).drop_first() =~= chunks.drop_first().push(last));
        lemma_payload_push(chunks.drop_first(), last);
        assert(chunks[0].0 + (payload_of(chunks.drop_first()) + last.0) =~= (chunks[0].0
            + payload_of(chunks.drop_first())) + last.0);
    }
}

/// A chunk counts no byte before the one it started from, and none beyond
/// the end of the data; it holds fewer codes than the dictionary has room
/// for, and each code is below the limit.
pub proof fn lemma_chunk_scan_bounds(data: Seq<u8>, i: int, st: EncoderState)
    requires
        0 <= i <= data.len(),
        encoder_inv(st),
        st.next < DICTIONARY_LIMIT,
    ensures
        i <= chunk_scan(data, i, st).count <= data.len(),
        chunk_scan(data, i, st).codes.len() + 257 <= DICTIONARY_LIMIT,
        forall|k: int|
            0 <= k < chunk_scan(data, i, st).codes.len() ==> #[trigger] chunk_scan(
                data,
                i,
                st,
            ).codes[k] < DICTIONARY_LIMIT,
    decreases data.len() - i,
{
    if i < data.len() {
        let after = encoder_step(st, data[i]);
        lemma_encoder_step_inv(st, data[i]);
        if after.next < DICTIONARY_LIMIT {
            lemma_chunk_scan_bounds(data, i + 1, after);
        }
    }
}

/// The first chunk of data that is not empty counts at least one byte.
pub proof fn lemma_chunk_of_bounds(data: Seq<u8>)
    ensures
        chunk_of(data).count <= data.len(),
        data.len() > 0 ==> chunk_of(data).count >= 1,
        chunk_of(data).codes.len() + 257 <= DICTIONARY_LIMIT,
        chunk_bytes(chunk_of(data).codes).len() <= 0x100000,
        forall|k: int|
            0 <= k < chunk_of(data).codes.len() ==> #[trigger] chunk_of(data).codes[k]
                < DICTIONARY_LIMIT,
{
    lemma_encoder_start_inv();
    lemma_chunk_scan_bounds(data, 0, encoder_start());
    if data.len() > 0 {
        let st = encoder_start();
        let after = encoder_step(st, data[0]);
        assert(st.element.push(data[0]).len() == 1);
        lemma_encoder_step_inv(st, data[0]);
        lemma_chunk_scan_bounds(data, 1, after);
    }
    lemma_codes_bits_len(chunk_of(data).codes);
    crate::bits::lemma_flushed_bits(codes_bits(chunk_of(data).codes));
}

} // verus!
