//! What the LZW coder and its decoder owe each other: the decoder gives back
//! the bytes that the coder was given, chunk by chunk.

use crate::bits::bits_of;
use crate::bits::bytes_bits;
use crate::bits::lemma_flushed_bits;
use crate::bits::lemma_value_of_bits_of;
use crate::compression::lzw::chunk_bytes;
use crate::compression::lzw::chunk_of;
use crate::compression::lzw::chunk_output;
use crate::compression::lzw::chunk_scan;
use crate::compression::lzw::chunks_of;
use crate::compression::lzw::code_bits;
use crate::compression::lzw::CodeAt;
use crate::compression::lzw::codes_bits;
use crate::compression::lzw::decode_run;
use crate::compression::lzw::decoder_inv;
use crate::compression::lzw::decoder_start;
use crate::compression::lzw::decoder_step;
use crate::compression::lzw::DecoderState;
use crate::compression::lzw::Decoding;
use crate::compression::lzw::decompress_model;
use crate::compression::lzw::DICTIONARY_LIMIT;
use crate::compression::lzw::encoder_inv;
use crate::compression::lzw::encoder_start;
use crate::compression::lzw::encoder_step;
use crate::compression::lzw::EncoderState;
use crate::compression::lzw::entry_for;
use crate::compression::lzw::index_of;
use crate::compression::lzw::lemma_chunk_of_bounds;
use crate::compression::lzw::lemma_decoder_step_inv;
use crate::compression::lzw::lemma_encoder_start_inv;
use crate::compression::lzw::lemma_encoder_step_inv;
use crate::compression::lzw::payload_of;
use crate::compression::lzw::read_codes;
use crate::compression::lzw::total_compressed;
use crate::compression::lzw::total_raw;
use vstd::arithmetic::div_mod::lemma_small_mod;
use vstd::arithmetic::power2::lemma2_to64;
use vstd::arithmetic::power2::pow2;
use vstd::prelude::*;

verus! {

/// The codes of a chunk as a reader finds them: each with the place where
/// its bits end.
pub open spec fn placed(codes: Seq<nat>) -> Seq<CodeAt>
    decreases codes.len(),
{
    if codes.len() == 0 {
        Seq::empty()
    } else {
        placed(codes.drop_last()).push(
            CodeAt { code: codes.last(), end: codes_bits(codes).len() },
        )
    }
}

proof fn lemma_placed_len(codes: Seq<nat>)
    ensures
        placed(codes).len() == codes.len(),
    decreases codes.len(),
{
    if codes.len() > 0 {
        lemma_placed_len(codes.drop_last());
    }
}

proof fn lemma_placed_index(codes: Seq<nat>, k: int)
    requires
        0 <= k < codes.len(),
    ensures
        placed(codes).len() == codes.len(),
        placed(codes)[k] == (CodeAt {
            code: codes[k],
            end: codes_bits(codes.take(k + 1)).len(),
        }),
    decreases codes.len(),
{
    lemma_placed_len(codes);
    lemma_placed_len(codes.drop_last());
    if k == codes.len() - 1 {
        assert(codes.take(k + 1) =~= codes);
    } else {
        lemma_placed_index(codes.drop_last(), k);
        assert(codes.drop_last().take(k + 1) =~= codes.take(k + 1));
    }
}

/// The bits of the first `k` codes of a run open the bits of the run.
proof fn lemma_codes_bits_prefix(codes: Seq<nat>, k: int)
    requires
        0 <= k <= codes.len(),
    ensures
        codes_bits(codes.take(k)).len() <= codes_bits(codes).len(),
        codes_bits(codes).subrange(0, codes_bits(codes.take(k)).len() as int) == codes_bits(
            codes.take(k),
        ),
    decreases codes.len(),
{
    if k == codes.len() {
        assert(codes.take(k) =~= codes);
        assert(codes_bits(codes).subrange(0, codes_bits(codes).len() as int) =~= codes_bits(
            codes,
        ));
    } else {
        lemma_codes_bits_prefix(codes.drop_last(), k);
        assert(codes.drop_last().take(k) =~= codes.take(k));
        assert(codes_bits(codes).subrange(0, codes_bits(codes.take(k)).len() as int)
            =~= codes_bits(codes.drop_last()).subrange(
            0,
            codes_bits(codes.take(k)).len() as int,
        ));
    }
}

/// A reader that stands behind the first `k` codes of a chunk finds the
/// codes from `k` on, each where the coder put it.
proof fn lemma_read_codes_from(codes: Seq<nat>, k: int)
    requires
        0 <= k <= codes.len(),
        forall|j: int| 0 <= j < codes.len() ==> #[trigger] codes[j] < 0x40000,
    ensures
        read_codes(chunk_bytes(codes), codes_bits(codes.take(k)).len()) == placed(codes).skip(k),
    decreases codes.len() - k,
{
    let bits = codes_bits(codes);
    let bytes = chunk_bytes(codes);
    let stream = bytes_bits(bytes);
    let pos = codes_bits(codes.take(k)).len();
    lemma_flushed_bits(bits);
    lemma_codes_bits_prefix(codes, k);
    lemma_placed_len(codes);
    if k == codes.len() {
        assert(codes.take(k) =~= codes);
        assert(placed(codes).skip(k) =~= Seq::<CodeAt>::empty());
    } else {
        let c = codes[k];
        let width: nat = if c > 0x7FFF {
            18
        } else {
            15
        };
        let front = codes_bits(codes.take(k + 1));
        lemma_codes_bits_prefix(codes, k + 1);
        assert(codes.take(k + 1).drop_last() =~= codes.take(k));
        assert(front == codes_bits(codes.take(k)) + code_bits(c));
        let end = pos + 1 + width;
        assert(end == front.len());
        assert(stream[pos as int] == bits[pos as int]);
        assert(bits[pos as int] == front[pos as int]);
        assert(front[pos as int] == code_bits(c)[0]);
        assert(stream.subrange(pos as int + 1, end as int) =~= bits_of(c, width)) by {
            assert forall|j: int| 0 <= j < width implies stream.subrange(
                pos as int + 1,
                end as int,
            )[j] == bits_of(c, width)[j] by {
                assert(stream[pos + 1 + j] == bits[pos + 1 + j]);
                assert(bits[pos + 1 + j] == front[pos + 1 + j]);
                assert(front[pos + 1 + j] == code_bits(c)[1 + j]);
            }
        }
        lemma_value_of_bits_of(c, width);
        lemma2_to64();
        lemma_small_mod(c, pow2(width));
        lemma_read_codes_from(codes, k + 1);
        lemma_placed_index(codes, k);
        assert(placed(codes).skip(k) =~= seq![placed(codes)[k]] + placed(codes).skip(k + 1));
    }
}

/// The coder in state `e` and the decoder in state `d` have seen the same
/// chunk: the decoder has decoded the coder's codes, it holds every entry of
/// the coder whose code it has reached, and the coder's newest entry is the
/// one that the decoder will make next.
pub open spec fn matched(e: EncoderState, d: DecoderState) -> bool {
    &&& encoder_inv(e)
    &&& decoder_inv(d)
    &&& decode_run(placed(e.codes)) == Decoding::Running(d)
    &&& d.dict.len() == 256 + e.codes.len()
    &&& forall|s: Seq<u8>| #[trigger]
        e.dict.contains_key(s) && e.dict[s] < d.dict.len() ==> d.dict[e.dict[s] as int] == s
    &&& (e.codes.len() >= 1 ==> {
        &&& e.element.len() >= 1
        &&& e.dict.contains_key(d.w.push(e.element[0]))
        &&& e.dict[d.w.push(e.element[0])] == 256 + e.codes.len()
    })
}

/// The code that the coder puts out for the bytes it has read stands, for a
/// decoder that has seen the same chunk, for those bytes.
proof fn lemma_emitted_code(e: EncoderState, d: DecoderState)
    requires
        matched(e, d),
        e.element.len() >= 1,
    ensures
        entry_for(d, e.dict[e.element]) == Some(e.element),
{
    let k = e.dict[e.element];
    if k >= d.dict.len() {
        let newest = d.w.push(e.element[0]);
        assert(e.element == newest);
        assert(newest[0] == d.w[0]);
        assert(d.w.push(d.w[0]) =~= e.element);
    }
}

/// The decoding of a run of codes with one more code behind it.
proof fn lemma_decode_push(codes: Seq<nat>, code: nat, d: DecoderState)
    requires
        decode_run(placed(codes)) == Decoding::Running(d),
        entry_for(d, code) is Some,
    ensures
        decode_run(placed(codes.push(code))) == Decoding::Running(
            decoder_step(d, entry_for(d, code).unwrap()),
        ),
{
    let longer = codes.push(code);
    assert(longer.drop_last() =~= codes);
    assert(placed(longer).drop_last() =~= placed(codes));
}

/// The decoder that has seen what the coder has seen after one more byte.
pub open spec fn decoder_after(e: EncoderState, d: DecoderState, c: u8) -> DecoderState {
    if e.dict.contains_key(e.element.push(c)) {
        d
    } else {
        decoder_step(d, e.element)
    }
}

/// A byte read by the coder leaves coder and decoder agreed on the chunk.
proof fn lemma_step_matched(e: EncoderState, d: DecoderState, c: u8)
    requires
        matched(e, d),
    ensures
        matched(encoder_step(e, c), decoder_after(e, d, c)),
        decoder_after(e, d, c).out + encoder_step(e, c).element == (d.out + e.element).push(c),
{
    let e2 = encoder_step(e, c);
    let d2 = decoder_after(e, d, c);
    let entry = e.element.push(c);
    lemma_encoder_step_inv(e, c);
    if e.dict.contains_key(entry) {
        assert(d.out + entry =~= (d.out + e.element).push(c));
        if e.codes.len() >= 1 {
            assert(entry[0] == e.element[0]);
        }
    } else {
        assert(e.element.len() >= 1) by {
            if e.element.len() == 0 {
                assert(entry.len() == 1);
            }
        }
        let k = e.dict[e.element];
        lemma_emitted_code(e, d);
        lemma_decode_push(e.codes, k, d);
        lemma_decoder_step_inv(d, k);
        assert(d2.out + e2.element =~= (d.out + e.element).push(c));
        assert(d2.w.push(e2.element[0]) =~= entry);
        assert forall|s: Seq<u8>| #[trigger]
            e2.dict.contains_key(s) && e2.dict[s] < d2.dict.len() implies d2.dict[e2.dict[s] as int]
            == s by {
            if s != entry {
                assert(e.dict.contains_key(s));
                if e.dict[s] >= d.dict.len() {
                    assert(s == d.w.push(e.element[0]));
                }
            }
        }
    }
}

/// The codes of a chunk, decoded, give the bytes that the chunk counts.
proof fn lemma_chunk_decodes(data: Seq<u8>, i: int, e: EncoderState, d: DecoderState)
    requires
        0 <= i <= data.len(),
        matched(e, d),
        d.out + e.element == data.subrange(0, i),
        e.next < DICTIONARY_LIMIT,
    ensures
        decode_run(placed(chunk_scan(data, i, e).codes)) matches Decoding::Running(st) && st.out
            == data.subrange(0, chunk_scan(data, i, e).count as int),
    decreases data.len() - i,
{
    if i >= data.len() {
        if e.element.len() > 0 {
            lemma_emitted_code(e, d);
            lemma_decode_push(e.codes, e.dict[e.element], d);
        }
    } else {
        let c = data[i];
        let e2 = encoder_step(e, c);
        let d2 = decoder_after(e, d, c);
        lemma_step_matched(e, d, c);
        assert((d.out + e.element).push(c) =~= data.subrange(0, i + 1));
        if e2.next >= DICTIONARY_LIMIT {
            assert(d2.out =~= data.subrange(0, i));
        } else {
            lemma_chunk_decodes(data, i + 1, e2, d2);
        }
    }
}

/// Coder and decoder agree before the first byte.
proof fn lemma_start_matched()
    ensures
        matched(encoder_start(), decoder_start()),
{
    let e = encoder_start();
    let d = decoder_start();
    lemma_encoder_start_inv();
    assert forall|s: Seq<u8>| #[trigger]
        e.dict.contains_key(s) && e.dict[s] < d.dict.len() implies d.dict[e.dict[s] as int]
        == s by {
        assert(d.dict[e.dict[s] as int] =~= s);
    }
}

/// One chunk, round trip: the bytes of the first chunk of `data`, decoded,
/// are the bytes of `data` that the chunk counts.
pub proof fn lemma_chunk_roundtrip(data: Seq<u8>, size_raw: nat)
    ensures
        chunk_output(chunk_bytes(chunk_of(data).codes), size_raw) == data.subrange(
            0,
            chunk_of(data).count as int,
        ),
{
    let chunk = chunk_of(data);
    lemma_chunk_of_bounds(data);
    lemma_start_matched();
    assert(decoder_start().out + encoder_start().element =~= data.subrange(0, 0));
    lemma_chunk_decodes(data, 0, encoder_start(), decoder_start());
    lemma_read_codes_from(chunk.codes, 0);
    assert(chunk.codes.take(0) =~= Seq::<nat>::empty());
    assert(placed(chunk.codes).skip(0) =~= placed(chunk.codes));
}

/// LZW round trip: the chunks of any run of bytes, decoded by the index that
/// was made with them, give the bytes back.
pub proof fn lemma_lzw_roundtrip(data: Seq<u8>)
    ensures
        decompress_model(payload_of(chunks_of(data)), index_of(chunks_of(data))) == Some(data),
    decreases data.len(),
{
    let chunks = chunks_of(data);
    let index = index_of(chunks);
    let payload = payload_of(chunks);
    if data.len() == 0 {
        assert(Seq::<u8>::empty() =~= data);
    } else {
        let first = chunk_of(data);
        let n = first.count as int;
        lemma_chunk_of_bounds(data);
        let rest = chunks_of(data.skip(n));
        let made = (chunk_bytes(first.codes), first.count);
        assert(chunks == seq![made] + rest);
        assert(chunks.drop_first() =~= rest);
        assert(index.drop_first() =~= index_of(rest));
        assert(payload.take(made.0.len() as int) =~= made.0);
        assert(payload.skip(made.0.len() as int) =~= payload_of(rest));
        lemma_lzw_roundtrip(data.skip(n));
        lemma_chunk_roundtrip(data, first.count);
        assert(data.subrange(0, n) + data.skip(n) =~= data);
    }
}

/// Chunk index integrity: the raw sizes in the index of a payload add up to
/// the length of the payload, and the compressed sizes to the number of
/// bytes in its chunks. No chunk is larger than a megabyte, none stands for
/// more bytes than the payload has, and there are no more chunks than
/// bytes.
pub proof fn lemma_chunk_index_sums(data: Seq<u8>)
    ensures
        total_raw(index_of(chunks_of(data))) == data.len(),
        total_compressed(index_of(chunks_of(data))) == payload_of(chunks_of(data)).len(),
        chunks_of(data).len() <= data.len(),
        forall|i: int|
            0 <= i < chunks_of(data).len() ==> {
                &&& (#[trigger] index_of(chunks_of(data))[i]).0 <= 0x100000
                &&& 1 <= index_of(chunks_of(data))[i].1 <= data.len()
            },
    decreases data.len(),
{
    let chunks = chunks_of(data);
    let index = index_of(chunks);
    if data.len() > 0 {
        let first = chunk_of(data);
        let n = first.count as int;
        lemma_chunk_of_bounds(data);
        let rest = chunks_of(data.skip(n));
        let made = (chunk_bytes(first.codes), first.count);
        assert(chunks == seq![made] + rest);
        assert(chunks.drop_first() =~= rest);
        assert(index.drop_first() =~= index_of(rest));
        lemma_chunk_index_sums(data.skip(n));
        assert forall|i: int| 0 <= i < chunks.len() implies {
            &&& (#[trigger] index[i]).0 <= 0x100000
            &&& 1 <= index[i].1 <= data.len()
        } by {
            if i > 0 {
                assert(index[i] == index_of(rest)[i - 1]);
            }
        }
    }
}

} // verus!
