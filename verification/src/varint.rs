//! Coefficients as bytes: each `i16` is folded to a number that is not
//! negative and written in groups of seven bits, lowest group first, with
//! the top bit of a byte saying that another byte follows.

use integer_encoding::VarInt;
use vstd::prelude::*;
use vstd::slice::slice_subrange;

verus! {

/// The zig-zag fold of a signed number: 0, -1, 1, -2, 2, ... become 0, 1, 2,
/// 3, 4, ...
pub open spec fn zigzag(value: i16) -> nat {
    if value >= 0 {
        (2 * value) as nat
    } else {
        (-2 * value - 1) as nat
    }
}

/// A number in groups of seven bits, lowest group first; every byte but the
/// last has its top bit set.
pub open spec fn base128(n: nat) -> Seq<u8>
    decreases n,
{
    if n < 128 {
        seq![n as u8]
    } else {
        seq![(128 + n % 128) as u8] + base128(n / 128)
    }
}

/// The bytes of one coefficient.
pub open spec fn varint_bytes(value: i16) -> Seq<u8> {
    base128(zigzag(value))
}

/// The bytes of a run of coefficients.
pub open spec fn varint_stream(values: Seq<i16>) -> Seq<u8>
    decreases values.len(),
{
    if values.len() == 0 {
        Seq::empty()
    } else {
        varint_stream(values.drop_last()) + varint_bytes(values.last())
    }
}

/// What `VarInt::decode_var` for `i16` makes of the bytes it is given: the
/// number that they start with and the count of bytes that it took, or
/// nothing.
pub uninterp spec fn varint_decoded(src: Seq<u8>) -> Option<(i16, usize)>;

/// The coefficients that are read from `stream`, one after the other, until
/// what is left starts with no number.
pub open spec fn varint_stream_decoded(stream: Seq<u8>) -> Seq<i16>
    decreases stream.len(),
{
    match varint_decoded(stream) {
        Some((value, size)) => if 1 <= size <= stream.len() {
            seq![value] + varint_stream_decoded(stream.skip(size as int))
        } else {
            Seq::empty()
        },
        None => Seq::empty(),
    }
}

/// A number takes at least one byte, and a number that 16 bits hold takes no
/// more than three.
pub proof fn lemma_base128_len(n: nat)
    ensures
        base128(n).len() >= 1,
        n <= 65535 ==> base128(n).len() <= 3,
    decreases n,
{
    if n >= 128 {
        lemma_base128_len(n / 128);
        if n <= 65535 {
            assert(n / 128 <= 511);
            lemma_base128_len(n / 128 / 128);
            assert(n / 128 / 128 <= 3);
        }
    }
}

/// The bytes of the first `k` coefficients of a run open the bytes of the
/// run, and those of coefficient `k` follow them.
pub proof fn lemma_varint_stream_take(values: Seq<i16>, k: int)
    requires
        0 <= k < values.len(),
    ensures
        varint_stream(values.take(k)).len() + varint_bytes(values[k]).len() <= varint_stream(
            values,
        ).len(),
        varint_stream(values).subrange(
            varint_stream(values.take(k)).len() as int,
            varint_stream(values.take(k)).len() as int + varint_bytes(values[k]).len(),
        ) == varint_bytes(values[k]),
        varint_stream(values.take(k + 1)) == varint_stream(values.take(k)) + varint_bytes(
            values[k],
        ),
    decreases values.len(),
{
    let front = values.drop_last();
    let pos = varint_stream(values.take(k)).len() as int;
    let len = varint_bytes(values[k]).len() as int;
    assert(values.take(k + 1).drop_last() =~= values.take(k));
    if k == values.len() - 1 {
        assert(values.take(k) =~= front);
        assert(varint_stream(values).subrange(pos, pos + len) =~= varint_bytes(values[k]));
    } else {
        lemma_varint_stream_take(front, k);
        assert(front.take(k) =~= values.take(k));
        assert(varint_stream(values).subrange(pos, pos + len) =~= varint_stream(front).subrange(
            pos,
            pos + len,
        ));
    }
}

/// Calls `VarInt::encode_var_vec` of integer_encoding on an `i16`. The
/// contract claims that the result is the zig-zag fold of the value in
/// groups of seven bits, lowest first, each byte but the last with its top
/// bit set.
#[verifier::external_body]
fn encode_var(value: i16) -> (bytes: Vec<u8>)
    ensures
        bytes@ == varint_bytes(value),
{
    value.encode_var_vec()
}

/// Calls `VarInt::decode_var` of integer_encoding for `i16`. The contract
/// names the result, and claims two things of it. A number, where one is
/// found, took at least one byte and no more bytes than were given. And
/// bytes that start with the bytes of a coefficient give that coefficient
/// and the count of its bytes: reading stops at the first byte whose top
/// bit is clear.
#[verifier::external_body]
fn decode_var(src: &[u8]) -> (r: Option<(i16, usize)>)
    ensures
        r == varint_decoded(src@),
        r matches Some((_, size)) ==> 1 <= size <= src@.len(),
        forall|value: i16|
            (#[trigger] varint_bytes(value)).len() <= src@.len() && src@.subrange(
                0,
                varint_bytes(value).len() as int,
            ) == varint_bytes(value) ==> r == Some((value, varint_bytes(value).len() as usize)),
{
    i16::decode_var(src)
}

/// Write a run of coefficients as bytes.
pub fn encode_varint_stream(values: &[i16]) -> (out: Vec<u8>)
    ensures
        out@ == varint_stream(values@),
{
    let mut out: Vec<u8> = Vec::new();
    let mut i: usize = 0;
    proof {
        assert(values@.take(0) =~= Seq::<i16>::empty());
    }
    while i < values.len()
        invariant
            i <= values@.len(),
            out@ == varint_stream(values@.take(i as int)),
        decreases values@.len() - i,
    {
        let bytes = encode_var(values[i]);
        out.extend_from_slice(bytes.as_slice());
        proof {
            assert(values@.take(i + 1).drop_last() =~= values@.take(i as int));
        }
        i += 1;
    }
    proof {
        assert(values@.take(i as int) =~= values@);
    }
    out
}

/// Take one decoded number into `output`. `decoded` is what the decoder made
/// of the bytes from `offset` on, of which there are `left`. A number that
/// took between one and `left` bytes is pushed to `output`, and the offset
/// behind it is returned; anything else ends the reading and leaves
/// `output` as it was.
pub fn take_decoded(
    output: &mut Vec<i16>,
    offset: usize,
    left: usize,
    decoded: Option<(i16, usize)>,
) -> (next: Option<usize>)
    requires
        offset + left <= usize::MAX,
    ensures
        match decoded {
            Some((value, size)) => if 1 <= size <= left {
                next == Some((offset + size) as usize) && final(output)@ == old(output)@.push(value)
            } else {
                next.is_none() && final(output)@ == old(output)@
            },
            None => next.is_none() && final(output)@ == old(output)@,
        },
{
    match decoded {
        Some(num) => {
            if 1 <= num.1 && num.1 <= left {
                output.push(num.0);
                Some(offset + num.1)
            } else {
                None
            }
        },
        None => None,
    }
}

/// Decode a stream encoded as varints. Reading goes on until what is left
/// starts with no number. A stream that was made of coefficients gives
/// those coefficients back.
pub fn decode_varint_stream(stream: &[u8]) -> (output: Vec<i16>)
    ensures
        output@ == varint_stream_decoded(stream@),
        forall|values: Seq<i16>| stream@ == #[trigger] varint_stream(values) ==> output@ == values,
{
    let mut output: Vec<i16> = Vec::new();
    let mut offset: usize = 0;
    let total: usize = stream.len();
    let mut reading = true;
    proof {
        assert(stream@.skip(0) =~= stream@);
        assert forall|values: Seq<i16>| stream@ == #[trigger] varint_stream(values) implies output@
            == values.take(0) && offset == varint_stream(values.take(0)).len() by {
            assert(values.take(0) =~= Seq::<i16>::empty());
        }
    }
    while reading
        invariant
            offset <= total == stream@.len(),
            reading ==> varint_stream_decoded(stream@) == output@ + varint_stream_decoded(
                stream@.skip(offset as int),
            ),
            !reading ==> varint_stream_decoded(stream@) == output@,
            reading ==> forall|values: Seq<i16>|
                stream@ == #[trigger] varint_stream(values) ==> {
                    &&& output@.len() <= values.len()
                    &&& output@ == values.take(output@.len() as int)
                    &&& offset == varint_stream(values.take(output@.len() as int)).len()
                },
            !reading ==> forall|values: Seq<i16>|
                stream@ == #[trigger] varint_stream(values) ==> output@ == values,
        decreases total - offset + if reading { 1int } else { 0int },
    {
        let rest = slice_subrange(stream, offset, total);
        let ghost tail = stream@.skip(offset as int);
        let ghost before = output@;
        proof {
            assert(rest@ =~= tail);
        }
        let decoded = decode_var(rest);
        proof {
            assert forall|values: Seq<i16>| stream@ == #[trigger] varint_stream(values) implies (
            if before.len() < values.len() {
                decoded == Some(
                    (
                        values[before.len() as int],
                        varint_bytes(values[before.len() as int]).len() as usize,
                    ),
                ) && 1 <= varint_bytes(values[before.len() as int]).len() <= total - offset
            } else {
                decoded.is_none()
            }) by {
                let k = before.len() as int;
                if k < values.len() {
                    let bytes = varint_bytes(values[k]);
                    lemma_varint_stream_take(values, k);
                    lemma_base128_len(zigzag(values[k]));
                    assert(tail.subrange(0, bytes.len() as int) =~= stream@.subrange(
                        offset as int,
                        offset + bytes.len(),
                    ));
                } else {
                    assert(values.take(k) =~= values);
                }
            }
        }
        match take_decoded(&mut output, offset, total - offset, decoded) {
            Some(next) => {
                proof {
                    let size = next - offset;
                    assert(tail.skip(size) =~= stream@.skip(next as int));
                    assert(before + (seq![output@.last()] + varint_stream_decoded(
                        tail.skip(size),
                    )) =~= output@ + varint_stream_decoded(stream@.skip(next as int)));
                    assert forall|values: Seq<i16>|
                        stream@ == #[trigger] varint_stream(values) implies {
                        &&& output@.len() <= values.len()
                        &&& output@ == values.take(output@.len() as int)
                        &&& next == varint_stream(values.take(output@.len() as int)).len()
                    } by {
                        let k = before.len() as int;
                        lemma_varint_stream_take(values, k);
                        assert(values.take(k).push(values[k]) =~= values.take(k + 1));
                    }
                }
                offset = next;
            },
            None => {
                proof {
                    assert(before + Seq::<i16>::empty() =~= before);
                    assert forall|values: Seq<i16>|
                        stream@ == #[trigger] varint_stream(values) implies output@ == values by {
                        assert(values.take(before.len() as int) =~= values);
                    }
                }
                reading = false;
            },
        }
    }
    output
}

} // verus!
