//! The packed wire body of a data point, per the fixed `raw_data_point`
//! schema: a single-segment message whose root struct holds the timestamp
//! (seconds and nanoseconds), the value union's discriminant and scalar
//! storage in its data words, and four pointers — location, path, component
//! and the text value — to NUL-terminated UTF-8 list contents; the whole
//! message (segment table included) then goes through the packing pass,
//! which writes each word as a bitmap tag of its non-zero bytes followed by
//! those bytes, with run markers after all-zero and all-non-zero tags.

use vstd::prelude::*;
use vstd::arithmetic::div_mod::lemma_fundamental_div_mod;
use vstd::utf8::decode_utf8;
use vstd::utf8::encode_utf8;
use vstd::utf8::valid_utf8;
use crate::messaging::DataValue;
use crate::messaging::DataValueV;
use crate::messaging::RawDataPoint;
use crate::messaging::RawDataPointV;
use crate::messaging::Timestamp;
use crate::serde::DataType;
use crate::serde::DeserializationError;
use crate::serde::SerDeError;
use crate::serde::SerDeErrorKind;

verus! {

/// The largest text the wire can carry: a list pointer's element count is
/// 29 bits wide, and this bound leaves ample room below it.
pub const MAX_TEXT_BYTES: u64 = 0x1000_0000;

/// The little-endian bytes of `v`, `n` of them, least significant first.
pub open spec fn le_bytes(v: int, n: int) -> Seq<u8>
    decreases n,
{
    if n <= 0 {
        Seq::empty()
    } else {
        seq![(v % 256) as u8] + le_bytes(v / 256, n - 1)
    }
}

/// The value named by little-endian bytes.
pub open spec fn le_val(s: Seq<u8>) -> int
    decreases s.len(),
{
    if s.len() == 0 {
        0
    } else {
        s[0] + 256 * le_val(s.drop_first())
    }
}

/// `n` zero bytes.
pub open spec fn zero_bytes(n: int) -> Seq<u8> {
    Seq::new((if n >= 0 {
        n
    } else {
        0
    }) as nat, |i: int| 0u8)
}

/// How many words a text of `bytes` UTF-8 bytes occupies: the bytes, the
/// NUL terminator, and padding to the next word boundary.
pub open spec fn text_words(bytes: int) -> int {
    (bytes + 1 + 7) / 8
}

/// The word-aligned content of a text: its UTF-8 bytes, a NUL terminator,
/// and zero padding.
pub open spec fn text_content(s: Seq<char>) -> Seq<u8> {
    let b = encode_utf8(s);
    b + seq![0u8] + zero_bytes(text_words(b.len() as int) * 8 - (b.len() + 1))
}

/// A list-of-bytes pointer word: kind 1, a non-negative word offset from
/// the word after the pointer to the content, element size 2 (bytes), and
/// the element count.
pub open spec fn list_ptr_val(offset: int, count: int) -> int {
    1 + 4 * offset + 0x2_0000_0000 + count * 0x8_0000_0000
}

/// The root struct pointer word: offset zero, three data words, four
/// pointer words.
pub open spec fn root_ptr_val() -> int {
    3int * 0x1_0000_0000 + 4int * 0x1_0000_0000_0000
}

/// The value union's discriminant.
pub open spec fn disc_of(v: DataValueV) -> int {
    match v {
        DataValueV::Integer(_) => 0,
        DataValueV::Float(_) => 1,
        DataValueV::Bool(_) => 2,
        DataValueV::Text(_) => 3,
    }
}

/// The value union's scalar storage word.
pub open spec fn scalar_of(v: DataValueV) -> int {
    match v {
        DataValueV::Integer(x) => (x as u64) as int,
        DataValueV::Float(bits) => bits as int,
        DataValueV::Bool(b) => if b {
            1
        } else {
            0
        },
        DataValueV::Text(_) => 0,
    }
}

/// The UTF-8 byte count of the value's text, or zero for scalar values.
pub open spec fn value_text_bytes(v: DataValueV) -> int {
    match v {
        DataValueV::Text(s) => encode_utf8(s).len() as int,
        _ => 0,
    }
}

/// Whether a data point's texts fit the wire's count fields.
pub open spec fn encodable(p: RawDataPointV) -> bool {
    &&& encode_utf8(p.location).len() < MAX_TEXT_BYTES as int
    &&& encode_utf8(p.path).len() < MAX_TEXT_BYTES as int
    &&& encode_utf8(p.component).len() < MAX_TEXT_BYTES as int
    &&& (p.value matches DataValueV::Text(s) ==> encode_utf8(s).len() < MAX_TEXT_BYTES as int)
}

/// The unpacked message bytes of one data point: the segment table, then
/// the single segment — root pointer, three data words, four pointers, and
/// the text contents in field order.
pub open spec fn unpacked_point_bytes(p: RawDataPointV) -> Seq<u8> {
    let lb = encode_utf8(p.location).len() as int;
    let pb = encode_utf8(p.path).len() as int;
    let cb = encode_utf8(p.component).len() as int;
    let lw = text_words(lb);
    let pw = text_words(pb);
    let cw = text_words(cb);
    let tw = match p.value {
        DataValueV::Text(s) => text_words(encode_utf8(s).len() as int),
        _ => 0,
    };
    let seg = 8 + lw + pw + cw + tw;
    le_bytes(0, 4) + le_bytes(seg, 4) + le_bytes(root_ptr_val(), 8) + le_bytes(
        (p.timestamp.secs as u64) as int,
        8,
    ) + le_bytes(p.timestamp.nanos as int, 4) + le_bytes(disc_of(p.value), 2) + le_bytes(0, 2)
        + le_bytes(scalar_of(p.value), 8) + le_bytes(list_ptr_val(3, lb + 1), 8) + le_bytes(
        list_ptr_val(2 + lw, pb + 1),
        8,
    ) + le_bytes(list_ptr_val(1 + lw + pw, cb + 1), 8) + (match p.value {
        DataValueV::Text(s) => le_bytes(
            list_ptr_val(lw + pw + cw, encode_utf8(s).len() as int + 1),
            8,
        ),
        _ => le_bytes(0, 8),
    }) + text_content(p.location) + text_content(p.path) + text_content(p.component) + (
    match p.value {
        DataValueV::Text(s) => text_content(s),
        _ => Seq::<u8>::empty(),
    })
}

/// The tag byte of a word under packing: bit `i` set exactly when byte `i`
/// is non-zero.
pub open spec fn tag_of(w: Seq<u8>) -> u8
    recommends
        w.len() == 8,
{
    ((if w[0] != 0 {
        1int
    } else {
        0int
    }) + (if w[1] != 0 {
        2int
    } else {
        0int
    }) + (if w[2] != 0 {
        4int
    } else {
        0int
    }) + (if w[3] != 0 {
        8int
    } else {
        0int
    }) + (if w[4] != 0 {
        16int
    } else {
        0int
    }) + (if w[5] != 0 {
        32int
    } else {
        0int
    }) + (if w[6] != 0 {
        64int
    } else {
        0int
    }) + (if w[7] != 0 {
        128int
    } else {
        0int
    })) as u8
}

/// The non-zero bytes of a word from position `j` on, in order.
pub open spec fn nz_from(w: Seq<u8>, j: int) -> Seq<u8>
    decreases 8 - j,
{
    if j < 0 || j >= 8 {
        Seq::empty()
    } else {
        (if w[j] != 0 {
            seq![w[j]]
        } else {
            Seq::<u8>::empty()
        }) + nz_from(w, j + 1)
    }
}

/// One word under the packing pass. This encoder always writes a zero run
/// count after an all-zero or all-ones tag, which the format permits.
pub open spec fn pack_word(w: Seq<u8>) -> Seq<u8>
    recommends
        w.len() == 8,
{
    let t = tag_of(w);
    if t == 0 {
        seq![0u8, 0u8]
    } else if t == 255 {
        seq![255u8] + w + seq![0u8]
    } else {
        seq![t] + nz_from(w, 0)
    }
}

/// A whole word stream under the packing pass.
pub open spec fn pack(words: Seq<u8>) -> Seq<u8>
    decreases words.len(),
{
    if words.len() < 8 {
        Seq::empty()
    } else {
        pack_word(words.take(8)) + pack(words.skip(8))
    }
}

/// The packed wire bytes of one data point.
pub open spec fn packed_point_bytes(p: RawDataPointV) -> Seq<u8> {
    pack(unpacked_point_bytes(p))
}

/// Appending a word to a stream packs as the stream then the word.
pub proof fn lemma_pack_snoc(words: Seq<u8>, w: Seq<u8>)
    requires
        words.len() % 8 == 0,
        w.len() == 8,
    ensures
        pack(words + w) == pack(words) + pack_word(w),
    decreases words.len(),
{
    if words.len() == 0 {
        assert(words + w =~= w);
        assert((words + w).take(8) =~= w);
        assert((words + w).skip(8) =~= Seq::<u8>::empty());
        assert(pack(Seq::<u8>::empty()) =~= Seq::<u8>::empty());
        assert(pack(words + w) == pack_word(w) + pack(Seq::<u8>::empty()));
        assert(pack_word(w) + Seq::<u8>::empty() =~= pack_word(w));
        assert(pack(words) =~= Seq::<u8>::empty());
        assert(pack(words) + pack_word(w) =~= pack_word(w));
    } else {
        assert((words + w).take(8) =~= words.take(8));
        assert((words + w).skip(8) =~= words.skip(8) + w);
        lemma_pack_snoc(words.skip(8), w);
        assert(pack(words + w) == pack_word(words.take(8)) + (pack(words.skip(8)) + pack_word(
            w,
        )));
        assert(pack_word(words.take(8)) + (pack(words.skip(8)) + pack_word(w)) =~= (pack_word(
            words.take(8),
        ) + pack(words.skip(8))) + pack_word(w));
    }
}

/// Writes `v`'s low `n` little-endian bytes onto `out`.
fn push_le(out: &mut Vec<u8>, v: u64, n: usize)
    requires
        n <= 8,
    ensures
        final(out)@ == old(out)@ + le_bytes(v as int, n as int),
{
    let ghost base = out@;
    let mut cur: u64 = v;
    let mut i: usize = 0;
    while i < n
        invariant
            0 <= i <= n,
            out@ + le_bytes(cur as int, n - i) =~= base + le_bytes(v as int, n as int),
        decreases n - i,
    {
        let b = (cur % 256) as u8;
        out.push(b);
        cur = cur / 256;
        i = i + 1;
    }
    proof {
        assert(out@ =~= base + le_bytes(v as int, n as int));
    }
}

proof fn lemma_text_pad(m: int)
    requires
        m >= 1,
    ensures
        ((m + 7) / 8) * 8 - m == (if m % 8 == 0 {
            0int
        } else {
            8 - m % 8
        }),
        0 <= ((m + 7) / 8) * 8 - m < 8,
{
    lemma_fundamental_div_mod(m, 8);
    vstd::arithmetic::div_mod::lemma_mod_bound(m, 8);
    let q = m / 8;
    let r = m % 8;
    if r == 0 {
        vstd::arithmetic::div_mod::lemma_fundamental_div_mod_converse(m + 7, 8, q, 7);
        assert(8 * q + 7 == m + 7);
        assert((q) * 8 - m == 0) by (nonlinear_arith)
            requires
                m == 8 * q,
        ;
    } else {
        vstd::arithmetic::div_mod::lemma_fundamental_div_mod_converse(m + 7, 8, q + 1, r - 1);
        assert(8 * (q + 1) + (r - 1) == m + 7);
        assert((q + 1) * 8 - m == 8 - r) by (nonlinear_arith)
            requires
                m == 8 * q + r,
        ;
    }
}

/// Writes a text's word-aligned content — UTF-8 bytes, NUL, padding — onto
/// `out`.
fn push_text(out: &mut Vec<u8>, s: &str)
    requires
        encode_utf8(s@).len() < MAX_TEXT_BYTES as int,
    ensures
        final(out)@ == old(out)@ + text_content(s@),
{
    let ghost base = out@;
    let mut bytes = s.as_bytes_vec();
    let blen: usize = bytes.len();
    proof {
        assert(blen as int == encode_utf8(s@).len());
    }
    out.append(&mut bytes);
    out.push(0);
    let pad: usize = if (blen + 1) % 8 == 0 {
        0
    } else {
        8 - (blen + 1) % 8
    };
    proof {
        lemma_text_pad(blen as int + 1);
    }
    let mut i: usize = 0;
    while i < pad
        invariant
            0 <= i <= pad,
            out@ =~= base + encode_utf8(s@) + seq![0u8] + zero_bytes(i as int),
        decreases pad - i,
    {
        out.push(0);
        proof {
            assert(out@ =~= base + encode_utf8(s@) + seq![0u8] + zero_bytes(i as int + 1));
        }
        i = i + 1;
    }
    proof {
        assert(zero_bytes(pad as int) =~= zero_bytes(
            text_words(encode_utf8(s@).len() as int) * 8 - (encode_utf8(s@).len() + 1),
        ));
        assert(out@ =~= base + text_content(s@));
    }
}

/// Packs a word stream: per word, the tag byte and its non-zero bytes, with
/// a zero run count after all-zero and all-ones tags.
#[verifier::rlimit(80)]
#[verifier::spinoff_prover]
fn pack_bytes(words: &Vec<u8>) -> (r: Vec<u8>)
    requires
        words@.len() % 8 == 0,
    ensures
        r@ == pack(words@),
{
    let mut out: Vec<u8> = Vec::new();
    let n: usize = words.len();
    let mut i: usize = 0;
    while i < n
        invariant
            0 <= i <= n,
            n == words@.len(),
            n % 8 == 0,
            i % 8 == 0,
            out@ == pack(words@.take(i as int)),
        decreases n - i,
    {
        let ghost w = words@.subrange(i as int, i as int + 8);
        let b0 = words[i];
        let b1 = words[i + 1];
        let b2 = words[i + 2];
        let b3 = words[i + 3];
        let b4 = words[i + 4];
        let b5 = words[i + 5];
        let b6 = words[i + 6];
        let b7 = words[i + 7];
        let tag: u8 = (if b0 != 0 {
            1u8
        } else {
            0u8
        }) + (if b1 != 0 {
            2u8
        } else {
            0u8
        }) + (if b2 != 0 {
            4u8
        } else {
            0u8
        }) + (if b3 != 0 {
            8u8
        } else {
            0u8
        }) + (if b4 != 0 {
            16u8
        } else {
            0u8
        }) + (if b5 != 0 {
            32u8
        } else {
            0u8
        }) + (if b6 != 0 {
            64u8
        } else {
            0u8
        }) + (if b7 != 0 {
            128u8
        } else {
            0u8
        });
        proof {
            assert(tag == tag_of(w));
        }
        let ghost out_pre = out@;
        if tag == 0 {
            out.push(0);
            out.push(0);
            proof {
                assert(out@ =~= out_pre + pack_word(w));
            }
        } else if tag == 255 {
            out.push(255);
            out.push(b0);
            out.push(b1);
            out.push(b2);
            out.push(b3);
            out.push(b4);
            out.push(b5);
            out.push(b6);
            out.push(b7);
            out.push(0);
            proof {
                assert(out@ =~= out_pre + pack_word(w));
            }
        } else {
            out.push(tag);
            let mut j: usize = 0;
            while j < 8
                invariant
                    0 <= j <= 8,
                    i + 8 <= n,
                    n == words@.len(),
                    w =~= words@.subrange(i as int, i as int + 8),
                    out@ + nz_from(w, j as int) =~= out_pre + seq![tag_of(w)] + nz_from(w, 0),
                decreases 8 - j,
            {
                let b = words[i + j];
                proof {
                    assert(w[j as int] == words@[i + j]);
                }
                if b != 0 {
                    out.push(b);
                }
                j = j + 1;
            }
            proof {
                assert(out@ =~= out_pre + pack_word(w));
            }
        }
        proof {
            assert(words@.take(i as int + 8) =~= words@.take(i as int) + w);
            lemma_pack_snoc(words@.take(i as int), w);
        }
        i = i + 8;
    }
    proof {
        assert(words@.take(n as int) =~= words@);
    }
    out
}

/// Encodes one data point as its packed wire body.
pub fn encode_raw_data_point(p: &RawDataPoint) -> (r: Vec<u8>)
    requires
        encodable(p@),
    ensures
        r@ == packed_point_bytes(p@),
{
    let mut words: Vec<u8> = Vec::new();
    let lb: u64 = text_byte_len(&p.location);
    let pb: u64 = text_byte_len(&p.path);
    let cb: u64 = text_byte_len(&p.component);
    let lw: u64 = (lb + 8) / 8;
    let pw: u64 = (pb + 8) / 8;
    let cw: u64 = (cb + 8) / 8;
    let tb: u64 = match &p.value {
        DataValue::Text(s) => text_byte_len(s),
        _ => 0,
    };
    let tw: u64 = match &p.value {
        DataValue::Text(_) => (tb + 8) / 8,
        _ => 0,
    };
    proof {
        lemma_text_pad(lb as int + 1);
        lemma_text_pad(pb as int + 1);
        lemma_text_pad(cb as int + 1);
        if p@.value matches DataValueV::Text(_) {
            lemma_text_pad(tb as int + 1);
        }
        assert(lw as int == text_words(lb as int));
        assert(pw as int == text_words(pb as int));
        assert(cw as int == text_words(cb as int));
    }
    let seg: u64 = 8 + lw + pw + cw + tw;
    push_le(&mut words, 0, 4);
    push_le(&mut words, seg, 4);
    push_le(&mut words, 0x4_0003_0000_0000u64, 8);
    proof {
        assert(0x4_0003_0000_0000u64 as int == root_ptr_val());
    }
    push_le(&mut words, #[verifier::truncate] (p.timestamp.secs as u64), 8);
    push_le(&mut words, p.timestamp.nanos as u64, 4);
    let disc: u64 = match &p.value {
        DataValue::Integer(_) => 0,
        DataValue::Float(_) => 1,
        DataValue::Bool(_) => 2,
        DataValue::Text(_) => 3,
    };
    push_le(&mut words, disc, 2);
    push_le(&mut words, 0, 2);
    let scalar: u64 = match &p.value {
        DataValue::Integer(x) => #[verifier::truncate] (*x as u64),
        DataValue::Float(bits) => *bits,
        DataValue::Bool(b) => if *b {
            1
        } else {
            0
        },
        DataValue::Text(_) => 0,
    };
    push_le(&mut words, scalar, 8);
    proof {
        vstd::arithmetic::div_mod::lemma_div_is_ordered(
            lb as int + 8,
            MAX_TEXT_BYTES as int + 8,
            8,
        );
        vstd::arithmetic::div_mod::lemma_div_is_ordered(
            pb as int + 8,
            MAX_TEXT_BYTES as int + 8,
            8,
        );
        vstd::arithmetic::div_mod::lemma_div_is_ordered(
            cb as int + 8,
            MAX_TEXT_BYTES as int + 8,
            8,
        );
        vstd::arithmetic::div_mod::lemma_div_is_ordered(
            tb as int + 8,
            MAX_TEXT_BYTES as int + 8,
            8,
        );
    }
    push_le(&mut words, list_ptr(3, lb + 1), 8);
    push_le(&mut words, list_ptr(2 + lw, pb + 1), 8);
    push_le(&mut words, list_ptr(1 + lw + pw, cb + 1), 8);
    match &p.value {
        DataValue::Text(_) => push_le(&mut words, list_ptr(lw + pw + cw, tb + 1), 8),
        _ => push_le(&mut words, 0, 8),
    }
    push_text(&mut words, p.location.as_str());
    push_text(&mut words, p.path.as_str());
    push_text(&mut words, p.component.as_str());
    match &p.value {
        DataValue::Text(s) => push_text(&mut words, s.as_str()),
        _ => {},
    }
    proof {
        lemma_le_bytes_len(2);
        lemma_le_bytes_len(4);
        lemma_le_bytes_len(8);
        lemma_text_content_len(p@.location);
        lemma_text_content_len(p@.path);
        lemma_text_content_len(p@.component);
        match p@.value {
            DataValueV::Text(sv) => lemma_text_content_len(sv),
            _ => (),
        }
        assert(words@ =~= unpacked_point_bytes(p@));
        lemma_unpacked_len(p@);
    }
    pack_bytes(&words)
}

/// A text's UTF-8 byte count.
fn text_byte_len(s: &String) -> (n: u64)
    ensures
        n as int == encode_utf8(s@).len(),
{
    let b = s.as_str().as_bytes();
    b.len() as u64
}

/// A list-of-bytes pointer word for in-range offset and count.
fn list_ptr(offset: u64, count: u64) -> (r: u64)
    requires
        offset < 0x4000_0000,
        count <= 0x1000_0000,
    ensures
        r as int == list_ptr_val(offset as int, count as int),
{
    1 + 4 * offset + 0x2_0000_0000 + count * 0x8_0000_0000
}

/// The unpacked message's byte count is a whole number of words.
pub proof fn lemma_unpacked_len(p: RawDataPointV)
    ensures
        unpacked_point_bytes(p).len() % 8 == 0,
{
    let lb = encode_utf8(p.location).len() as int;
    let pb = encode_utf8(p.path).len() as int;
    let cb = encode_utf8(p.component).len() as int;
    lemma_le_bytes_len(4);
    lemma_le_bytes_len(8);
    lemma_le_bytes_len(2);
    lemma_text_content_len(p.location);
    lemma_text_content_len(p.path);
    lemma_text_content_len(p.component);
    lemma_text_pad(lb + 1);
    lemma_text_pad(pb + 1);
    lemma_text_pad(cb + 1);
    match p.value {
        DataValueV::Text(s) => {
            lemma_text_content_len(s);
            lemma_text_pad(encode_utf8(s).len() as int + 1);
            assert(unpacked_point_bytes(p).len() % 8 == 0) by (nonlinear_arith)
                requires
                    unpacked_point_bytes(p).len() == 16 + 7 * 8 + text_words(lb) * 8 + text_words(
                        pb,
                    ) * 8 + text_words(cb) * 8 + text_words(encode_utf8(s).len() as int) * 8,
            ;
        },
        _ => {
            assert(unpacked_point_bytes(p).len() % 8 == 0) by (nonlinear_arith)
                requires
                    unpacked_point_bytes(p).len() == 16 + 7 * 8 + text_words(lb) * 8 + text_words(
                        pb,
                    ) * 8 + text_words(cb) * 8,
            ;
        },
    }
}

/// `le_bytes` writes exactly `n` bytes.
pub proof fn lemma_le_bytes_len(n: int)
    ensures
        forall|v: int| #[trigger] le_bytes(v, n).len() == (if n >= 0 {
            n
        } else {
            0
        }),
    decreases (if n >= 0 {
        n
    } else {
        0
    }),
{
    if n > 0 {
        lemma_le_bytes_len(n - 1);
        assert forall|v: int| #[trigger] le_bytes(v, n).len() == n by {
            assert(le_bytes(v / 256, n - 1).len() == n - 1);
            assert(le_bytes(v, n) == seq![(v % 256) as u8] + le_bytes(v / 256, n - 1));
        }
    } else {
        assert forall|v: int| #[trigger] le_bytes(v, n).len() == 0 by {
            assert(le_bytes(v, n) == Seq::<u8>::empty());
        }
    }
}

/// A text's content is exactly its word count times the word size.
pub proof fn lemma_text_content_len(s: Seq<char>)
    ensures
        text_content(s).len() == text_words(encode_utf8(s).len() as int) * 8,
{
    lemma_text_pad(encode_utf8(s).len() as int + 1);
}


/// Whether bit `i` of a tag byte is set.
pub open spec fn tag_bit(t: u8, i: int) -> bool {
    ((t as int) / (if i == 0 {
        1int
    } else if i == 1 {
        2int
    } else if i == 2 {
        4int
    } else if i == 3 {
        8int
    } else if i == 4 {
        16int
    } else if i == 5 {
        32int
    } else if i == 6 {
        64int
    } else {
        128int
    })) % 2 == 1
}

/// How many tag bits below position `i` are set.
pub open spec fn bits_below(t: u8, i: int) -> int
    decreases i,
{
    if i <= 0 {
        0
    } else {
        bits_below(t, i - 1) + (if tag_bit(t, i - 1) {
            1int
        } else {
            0int
        })
    }
}

/// The word a tag byte and its literal bytes unpack to.
pub open spec fn unpack_word(t: u8, lit: Seq<u8>) -> Seq<u8> {
    Seq::new(8, |i: int| if tag_bit(t, i) {
        lit[bits_below(t, i)]
    } else {
        0u8
    })
}

/// Unpacks a packed stream back to its words, or nothing if the stream is
/// cut short. After an all-zero tag a count byte names additional zero
/// words; after an all-ones tag the eight bytes are followed by a count of
/// verbatim words.
pub open spec fn unpack(bytes: Seq<u8>) -> Option<Seq<u8>>
    decreases bytes.len(),
{
    if bytes.len() == 0 {
        Option::Some(Seq::empty())
    } else {
        let t = bytes[0];
        if t == 0 {
            if bytes.len() < 2 {
                Option::None
            } else {
                match unpack(bytes.skip(2)) {
                    Option::None => Option::None,
                    Option::Some(rest) => Option::Some(
                        zero_bytes((1 + bytes[1]) * 8) + rest,
                    ),
                }
            }
        } else if t == 255 {
            if bytes.len() < 10 || bytes.len() < 10 + 8 * (bytes[9] as int) {
                Option::None
            } else {
                match unpack(bytes.skip(10 + 8 * (bytes[9] as int))) {
                    Option::None => Option::None,
                    Option::Some(rest) => Option::Some(
                        bytes.subrange(1, 9) + bytes.subrange(10, 10 + 8 * (bytes[9] as int))
                            + rest,
                    ),
                }
            }
        } else {
            let k = bits_below(t, 8);
            if k < 0 || bytes.len() < 1 + k {
                Option::None
            } else {
                match unpack(bytes.skip(1 + k)) {
                    Option::None => Option::None,
                    Option::Some(rest) => Option::Some(
                        unpack_word(t, bytes.subrange(1, 1 + k)) + rest,
                    ),
                }
            }
        }
    }
}

/// Each tag bit marks exactly the non-zero byte at its position.
#[verifier::rlimit(80)]
#[verifier::spinoff_prover]
proof fn lemma_tag_bits(w: Seq<u8>)
    requires
        w.len() == 8,
    ensures
        forall|i: int| 0 <= i < 8 ==> tag_bit(tag_of(w), i) == (w[i] != 0),
{
    assert(tag_bit(tag_of(w), 0) == (w[0] != 0));
    assert(tag_bit(tag_of(w), 1) == (w[1] != 0));
    assert(tag_bit(tag_of(w), 2) == (w[2] != 0));
    assert(tag_bit(tag_of(w), 3) == (w[3] != 0));
    assert(tag_bit(tag_of(w), 4) == (w[4] != 0));
    assert(tag_bit(tag_of(w), 5) == (w[5] != 0));
    assert(tag_bit(tag_of(w), 6) == (w[6] != 0));
    assert(tag_bit(tag_of(w), 7) == (w[7] != 0));
}

/// The non-zero bytes from position `i` number the set tag bits from `i`.
proof fn lemma_nz_len(w: Seq<u8>, i: int)
    requires
        w.len() == 8,
        0 <= i <= 8,
    ensures
        nz_from(w, i).len() == bits_below(tag_of(w), 8) - bits_below(tag_of(w), i),
    decreases 8 - i,
{
    lemma_tag_bits(w);
    if i < 8 {
        lemma_nz_len(w, i + 1);
        lemma_bits_below_step(tag_of(w), i);
    } else {
    }
}

/// One step of the set-bit count.
proof fn lemma_bits_below_step(t: u8, i: int)
    requires
        0 <= i < 8,
    ensures
        bits_below(t, i + 1) == bits_below(t, i) + (if tag_bit(t, i) {
            1int
        } else {
            0int
        }),
{
}

/// The set-bit count never decreases and stays within range.
proof fn lemma_bits_below_mono(t: u8, i: int, j: int)
    requires
        0 <= i <= j <= 8,
    ensures
        bits_below(t, i) <= bits_below(t, j),
        0 <= bits_below(t, i) <= i,
    decreases j - i,
{
    if i < j {
        lemma_bits_below_mono(t, i + 1, j);
    }
    lemma_bits_below_nonneg(t, i);
}

proof fn lemma_bits_below_nonneg(t: u8, i: int)
    requires
        0 <= i <= 8,
    ensures
        0 <= bits_below(t, i) <= i,
    decreases i,
{
    if i > 0 {
        lemma_bits_below_nonneg(t, i - 1);
    }
}

/// The non-zero byte at position `idx` sits in the literal bytes at the
/// index given by the set bits below it.
proof fn lemma_nz_index(w: Seq<u8>, i: int, idx: int)
    requires
        w.len() == 8,
        0 <= i <= idx < 8,
        w[idx] != 0,
    ensures
        0 <= bits_below(tag_of(w), idx) - bits_below(tag_of(w), i) < nz_from(w, i).len(),
        nz_from(w, i)[bits_below(tag_of(w), idx) - bits_below(tag_of(w), i)] == w[idx],
    decreases idx - i,
{
    lemma_tag_bits(w);
    lemma_nz_len(w, i);
    lemma_bits_below_mono(tag_of(w), i, idx);
    lemma_bits_below_step(tag_of(w), idx);
    lemma_bits_below_mono(tag_of(w), idx + 1, 8);
    if i == idx {
        assert(nz_from(w, i)[0] == w[i]);
    } else {
        lemma_nz_index(w, i + 1, idx);
        lemma_bits_below_step(tag_of(w), i);
        if w[i] != 0 {
            assert(nz_from(w, i) == seq![w[i]] + nz_from(w, i + 1));
        } else {
            assert(nz_from(w, i) == Seq::<u8>::empty() + nz_from(w, i + 1));
            assert(nz_from(w, i) =~= nz_from(w, i + 1));
        }
    }
}


/// Unpacking inverts packing: a whole word stream comes back exactly.
pub proof fn lemma_unpack_pack(words: Seq<u8>)
    requires
        words.len() % 8 == 0,
    ensures
        unpack(pack(words)) == Option::Some(words),
    decreases words.len(),
{
    if words.len() == 0 {
        assert(pack(words) == Seq::<u8>::empty());
        assert(unpack(pack(words)) == Option::Some(Seq::<u8>::empty()));
        assert(Seq::<u8>::empty() =~= words);
    } else {
        let w = words.take(8);
        let rest = words.skip(8);
        lemma_unpack_pack(rest);
        let t = tag_of(w);
        lemma_tag_bits(w);
        let pw = pack_word(w);
        let stream = pack(words);
        assert(stream == pw + pack(rest));
        if t == 0 {
            assert(forall|i: int| 0 <= i < 8 ==> w[i] == 0);
            assert(stream[0] == 0);
            assert(stream[1] == 0);
            assert(stream.len() >= 2);
            assert(stream.skip(2) =~= pack(rest));
            assert(zero_bytes(8) =~= w);
            assert(unpack(stream) == Option::Some(zero_bytes((1 + stream[1]) * 8) + rest));
            assert(zero_bytes((1 + stream[1]) * 8) + rest =~= words);
        } else if t == 255 {
            assert(pw == seq![255u8] + w + seq![0u8]);
            assert(pw.len() == 10);
            assert(stream[0] == 255);
            assert(stream[9] == 0);
            assert(stream.len() >= 10);
            assert(stream.subrange(1, 9) =~= w);
            assert(stream.subrange(10, 10) =~= Seq::<u8>::empty());
            assert(stream.skip(10) =~= pack(rest));
            assert(stream.subrange(1, 9) + stream.subrange(10, 10) + rest =~= words);
        } else {
            let k = bits_below(t, 8);
            lemma_nz_len(w, 0);
            assert(pw == seq![t] + nz_from(w, 0));
            assert(pw.len() == 1 + k);
            assert(stream[0] == t);
            assert(stream.len() >= 1 + k);
            assert(stream.subrange(1, 1 + k) =~= nz_from(w, 0));
            assert(stream.skip(1 + k) =~= pack(rest));
            assert forall|i: int| 0 <= i < 8 implies unpack_word(t, nz_from(w, 0))[i] == w[i] by {
                if w[i] != 0 {
                    lemma_nz_index(w, 0, i);
                } else {
                }
            }
            assert(unpack_word(t, nz_from(w, 0)) =~= w);
            assert(unpack_word(t, nz_from(w, 0)) + rest =~= words);
        }
    }
}



/// The value of the word at word index `k`.
pub open spec fn word_at(words: Seq<u8>, k: int) -> int
    recommends
        0 <= k,
        8 * k + 8 <= words.len(),
{
    le_val(words.subrange(8 * k, 8 * k + 8))
}

/// Reads the text behind the list pointer at word `ptr_word`: the pointer
/// must be a list of bytes with a NUL-terminated, UTF-8 content inside the
/// message.
pub open spec fn read_text(words: Seq<u8>, ptr_word: int) -> Option<Seq<char>> {
    let v = word_at(words, ptr_word);
    let offset = (v / 4) % 0x4000_0000;
    let esize = (v / 0x1_0000_0000) % 8;
    let count = v / 0x8_0000_0000;
    let start = ptr_word + 1 + offset;
    if v % 4 != 1 || esize != 2 || count < 1 {
        Option::None
    } else if 8 * start + count > words.len() {
        Option::None
    } else {
        let raw = words.subrange(8 * start, 8 * start + count);
        if raw[count - 1] != 0 {
            Option::None
        } else if !valid_utf8(raw.take(count - 1)) {
            Option::None
        } else {
            Option::Some(decode_utf8(raw.take(count - 1)))
        }
    }
}

/// The value union read back from its discriminant, scalar word and text
/// pointer.
pub open spec fn read_value(words: Seq<u8>, disc: int, scalar: int) -> Option<DataValueV> {
    if disc == 0 {
        Option::Some(DataValueV::Integer((scalar as u64) as i64))
    } else if disc == 1 {
        Option::Some(DataValueV::Float(scalar as u64))
    } else if disc == 2 {
        Option::Some(DataValueV::Bool(scalar % 2 == 1))
    } else if disc == 3 {
        match read_text(words, 8) {
            Option::None => Option::None,
            Option::Some(s) => Option::Some(DataValueV::Text(s)),
        }
    } else {
        Option::None
    }
}

/// Parses an unpacked message back to a data point: a single segment whose
/// size matches, the fixed root pointer, the three data words, and the four
/// texts.
pub open spec fn parse_unpacked(words: Seq<u8>) -> Option<RawDataPointV> {
    if words.len() % 8 != 0 || words.len() < 72 {
        Option::None
    } else if le_val(words.subrange(0, 4)) != 0 {
        Option::None
    } else if 8 * le_val(words.subrange(4, 8)) + 8 != words.len() {
        Option::None
    } else if word_at(words, 1) != root_ptr_val() {
        Option::None
    } else {
        let secs = (word_at(words, 2) as u64) as i64;
        let nanos = le_val(words.subrange(24, 28));
        let disc = le_val(words.subrange(28, 30));
        let scalar = word_at(words, 4);
        match read_text(words, 5) {
            Option::None => Option::None,
            Option::Some(location) => match read_text(words, 6) {
                Option::None => Option::None,
                Option::Some(path) => match read_text(words, 7) {
                    Option::None => Option::None,
                    Option::Some(component) => match read_value(words, disc, scalar) {
                        Option::None => Option::None,
                        Option::Some(value) => Option::Some(
                            RawDataPointV {
                                location,
                                path,
                                component,
                                timestamp: Timestamp { secs, nanos: nanos as u32 },
                                value,
                            },
                        ),
                    },
                },
            },
        }
    }
}

/// How the decoder reads packed wire bytes: unpack the words, then parse
/// the message.
pub open spec fn packed_point_parse(bytes: Seq<u8>) -> Option<RawDataPointV> {
    match unpack(bytes) {
        Option::None => Option::None,
        Option::Some(words) => parse_unpacked(words),
    }
}

/// Little-endian bytes name values in range.
pub proof fn lemma_le_val_bound(s: Seq<u8>)
    ensures
        0 <= le_val(s),
        s.len() == 2 ==> le_val(s) < 0x1_0000,
        s.len() == 4 ==> le_val(s) < 0x1_0000_0000,
        s.len() == 8 ==> le_val(s) < 0x1_0000_0000_0000_0000,
{
    lemma_le_val_nonneg(s);
    if s.len() == 2 {
        lemma_le_val_small(s, 2);
        assert(pow256(2) == 0x1_0000) by {
            reveal_with_fuel(pow256, 3);
        }
    }
    if s.len() == 4 {
        lemma_le_val_small(s, 4);
        assert(pow256(4) == 0x1_0000_0000) by {
            reveal_with_fuel(pow256, 5);
        }
    }
    if s.len() == 8 {
        lemma_le_val_small(s, 8);
        assert(pow256(8) == 0x1_0000_0000_0000_0000) by {
            reveal_with_fuel(pow256, 9);
        }
    }
}

/// A short byte string names a value below 256 to its length's power.
proof fn lemma_le_val_small(s: Seq<u8>, n: int)
    requires
        s.len() <= n,
        0 <= n <= 8,
    ensures
        le_val(s) < pow256(n),
    decreases n,
{
    lemma_pow256_pos(n);
    if s.len() > 0 {
        lemma_le_val_small(s.drop_first(), n - 1);
        assert(le_val(s) == s[0] + 256 * le_val(s.drop_first()));
        assert(256 * le_val(s.drop_first()) <= 256 * (pow256(n - 1) - 1)) by (nonlinear_arith)
            requires
                le_val(s.drop_first()) <= pow256(n - 1) - 1,
        ;
        assert(256 * pow256(n - 1) == pow256(n));
    } else {
        lemma_le_val_nonneg(s);
    }
}

proof fn lemma_le_val_nonneg(s: Seq<u8>)
    ensures
        0 <= le_val(s),
    decreases s.len(),
{
    if s.len() > 0 {
        lemma_le_val_nonneg(s.drop_first());
    }
}

/// 256 to the `n`-th, for the widths in use.
pub open spec fn pow256(n: int) -> int
    decreases n,
{
    if n <= 0 {
        1
    } else {
        256 * pow256(n - 1)
    }
}

proof fn lemma_pow256_pos(n: int)
    ensures
        pow256(n) >= 1,
    decreases (if n >= 0 {
        n
    } else {
        0
    }),
{
    if n > 0 {
        lemma_pow256_pos(n - 1);
    }
}

/// Reading little-endian bytes inverts writing them, for in-range values.
pub proof fn lemma_le_round_trip(v: int, n: int)
    requires
        0 <= v < pow256(n),
        0 <= n,
    ensures
        le_val(le_bytes(v, n)) == v,
    decreases n,
{
    if n > 0 {
        lemma_fundamental_div_mod(v, 256);
        vstd::arithmetic::div_mod::lemma_mod_bound(v, 256);
        vstd::arithmetic::div_mod::lemma_div_pos_is_pos(v, 256);
        assert(v / 256 < pow256(n - 1)) by (nonlinear_arith)
            requires
                v < 256 * pow256(n - 1),
                v == 256 * (v / 256) + v % 256,
                v % 256 >= 0,
        ;
        lemma_le_round_trip(v / 256, n - 1);
        assert(le_bytes(v, n).drop_first() =~= le_bytes(v / 256, n - 1));
        assert(le_bytes(v, n)[0] == (v % 256) as u8);
    } else {
        assert(le_bytes(v, n) =~= Seq::<u8>::empty());
    }
}

/// The fields of a list pointer word read back exactly.
pub proof fn lemma_list_ptr_fields(offset: int, count: int)
    requires
        0 <= offset < 0x4000_0000,
        1 <= count <= 0x1000_0000,
    ensures
        ({
            let v = list_ptr_val(offset, count);
            &&& 0 <= v < pow256(8)
            &&& v % 4 == 1
            &&& (v / 4) % 0x4000_0000 == offset
            &&& (v / 0x1_0000_0000) % 8 == 2
            &&& v / 0x8_0000_0000 == count
        }),
{
    let v = list_ptr_val(offset, count);
    assert(pow256(8) == 0x1_0000_0000_0000_0000) by {
        reveal_with_fuel(pow256, 9);
    }
    assert(v == 1 + 4 * offset + 0x2_0000_0000 + count * 0x8_0000_0000);
    assert(v < 0x1_0000_0000_0000_0000) by (nonlinear_arith)
        requires
            v == 1 + 4 * offset + 0x2_0000_0000 + count * 0x8_0000_0000,
            offset < 0x4000_0000,
            count <= 0x1000_0000,
    ;
    assert(v == 4 * (offset + 0x8000_0000 + count * 0x2_0000_0000) + 1) by (nonlinear_arith)
        requires
            v == 1 + 4 * offset + 0x2_0000_0000 + count * 0x8_0000_0000,
    ;
    vstd::arithmetic::div_mod::lemma_fundamental_div_mod_converse(
        v,
        4,
        offset + 0x8000_0000 + count * 0x2_0000_0000,
        1,
    );
    let q4 = offset + 0x8000_0000 + count * 0x2_0000_0000;
    assert(q4 == 0x4000_0000 * (2 + count * 8) + offset) by (nonlinear_arith)
        requires
            q4 == offset + 0x8000_0000 + count * 0x2_0000_0000,
    ;
    vstd::arithmetic::div_mod::lemma_fundamental_div_mod_converse(
        q4,
        0x4000_0000,
        2 + count * 8,
        offset,
    );
    assert(v == 0x1_0000_0000 * (2 + 8 * count) + (1 + 4 * offset)) by (nonlinear_arith)
        requires
            v == 1 + 4 * offset + 0x2_0000_0000 + count * 0x8_0000_0000,
    ;
    assert(1 + 4 * offset < 0x1_0000_0000) by (nonlinear_arith)
        requires
            offset < 0x4000_0000,
    ;
    vstd::arithmetic::div_mod::lemma_fundamental_div_mod_converse(
        v,
        0x1_0000_0000,
        2 + 8 * count,
        1 + 4 * offset,
    );
    assert(2 + 8 * count == 8 * count + 2) by (nonlinear_arith);
    vstd::arithmetic::div_mod::lemma_fundamental_div_mod_converse(2 + 8 * count, 8, count, 2);
    assert(v == 0x8_0000_0000 * count + (1 + 4 * offset + 0x2_0000_0000)) by (nonlinear_arith)
        requires
            v == 1 + 4 * offset + 0x2_0000_0000 + count * 0x8_0000_0000,
    ;
    assert(1 + 4 * offset + 0x2_0000_0000 < 0x8_0000_0000) by (nonlinear_arith)
        requires
            offset < 0x4000_0000,
    ;
    vstd::arithmetic::div_mod::lemma_fundamental_div_mod_converse(
        v,
        0x8_0000_0000,
        count,
        1 + 4 * offset + 0x2_0000_0000,
    );
}


/// Copies `words[a..b]` out.
fn copy_range(words: &Vec<u8>, a: usize, b: usize) -> (r: Vec<u8>)
    requires
        a <= b <= words@.len(),
    ensures
        r@ == words@.subrange(a as int, b as int),
{
    let mut r: Vec<u8> = Vec::new();
    let mut i: usize = a;
    while i < b
        invariant
            a <= i <= b <= words@.len(),
            r@ =~= words@.subrange(a as int, i as int),
        decreases b - i,
    {
        r.push(words[i]);
        proof {
            assert(r@ =~= words@.subrange(a as int, i as int + 1));
        }
        i = i + 1;
    }
    proof {
        assert(r@ =~= words@.subrange(a as int, b as int));
    }
    r
}

/// Reads the little-endian value of `words[a..a+n]`.
fn read_le(words: &Vec<u8>, a: usize, n: usize) -> (v: u64)
    requires
        n <= 8,
        a + n <= words@.len(),
    ensures
        v as int == le_val(words@.subrange(a as int, a as int + n as int)),
{
    let total: usize = words.len();
    proof {
        lemma_pow256_pos(8);
        assert(words@.subrange(a as int + n as int, a as int + n as int) =~= Seq::<u8>::empty());
    }
    let mut v: u64 = 0;
    let mut j: usize = n;
    while j > 0
        invariant
            0 <= j <= n <= 8,
            a + n <= total,
            total == words@.len(),
            v as int == le_val(words@.subrange(a + j, a as int + n as int)),
            (v as int) < pow256(n - j),
        decreases j,
    {
        let ghost pre = words@.subrange(a + j, a as int + n as int);
        let b = words[a + (j - 1)];
        proof {
            let cur = words@.subrange(a + j - 1, a as int + n as int);
            assert(cur.drop_first() =~= pre);
            assert(cur[0] == words@[a + j - 1]);
            assert(256 * (v as int) <= 256 * (pow256(n - j) - 1)) by (nonlinear_arith)
                requires
                    v as int <= pow256(n - j) - 1,
            ;
            assert(256 * pow256(n - j) == pow256(n - j + 1));
            lemma_pow256_le8(n - j + 1);
        }
        v = b as u64 + 256 * v;
        j = j - 1;
    }
    v
}

proof fn lemma_pow256_le8(n: int)
    requires
        0 <= n <= 8,
    ensures
        pow256(n) <= 0x1_0000_0000_0000_0000,
{
    reveal_with_fuel(pow256, 9);
}

/// The decode failure for a malformed body.
fn body_error() -> (e: DeserializationError)
    ensures
        e.data_type == DataType::RawDataPoint,
        e.kind == SerDeErrorKind::MalformedBody,
{
    SerDeError::new(DataType::RawDataPoint, SerDeErrorKind::MalformedBody)
}

/// Unpacks a packed stream back to its words.
#[verifier::rlimit(80)]
#[verifier::spinoff_prover]
fn unpack_bytes(bytes: &Vec<u8>) -> (r: Option<Vec<u8>>)
    ensures
        match r {
            Option::Some(words) => unpack(bytes@) == Option::Some(words@),
            Option::None => unpack(bytes@) is None,
        },
{
    let n: usize = bytes.len();
    let mut out: Vec<u8> = Vec::new();
    let mut i: usize = 0;
    proof {
        assert(bytes@.skip(0) =~= bytes@);
        match unpack(bytes@) {
            Option::Some(rest) => {
                assert(Seq::<u8>::empty() + rest =~= rest);
            },
            Option::None => {},
        }
    }
    loop
        invariant
            0 <= i <= n,
            n == bytes@.len(),
            match unpack(bytes@.skip(i as int)) {
                Option::Some(rest) => unpack(bytes@) == Option::Some(out@ + rest),
                Option::None => unpack(bytes@) is None,
            },
        decreases n - i,
    {
        let ghost tail = bytes@.skip(i as int);
        if i == n {
            proof {
                assert(tail =~= Seq::<u8>::empty());
                assert(out@ + Seq::<u8>::empty() =~= out@);
            }
            return Option::Some(out);
        }
        let t = bytes[i];
        proof {
            assert(tail[0] == bytes@[i as int]);
        }
        if t == 0 {
            if n - i < 2 {
                proof {
                    assert(tail.len() < 2);
                }
                return Option::None;
            }
            let cnt = bytes[i + 1];
            proof {
                assert(tail[1] == bytes@[i as int + 1]);
                assert(tail.skip(2) =~= bytes@.skip(i as int + 2));
            }
            let ghost out_pre = out@;
            let total: usize = (1 + cnt as usize) * 8;
            let mut z: usize = 0;
            while z < total
                invariant
                    0 <= z <= total,
                    out@ =~= out_pre + zero_bytes(z as int),
                decreases total - z,
            {
                out.push(0);
                proof {
                    assert(out@ =~= out_pre + zero_bytes(z as int + 1));
                }
                z = z + 1;
            }
            proof {
                assert(out@ =~= out_pre + zero_bytes((1 + bytes@[i as int + 1]) * 8));
            }
            i = i + 2;
        } else if t == 255 {
            let have: usize = n - i;
            if have < 10 {
                return Option::None;
            }
            let cnt = bytes[i + 9];
            proof {
                assert(tail[9] == bytes@[i as int + 9]);
            }
            let need: usize = 10 + 8 * (cnt as usize);
            if have < need {
                return Option::None;
            }
            let ghost out_pre = out@;
            let mut lit = copy_range(bytes, i + 1, i + 9);
            out.append(&mut lit);
            let mut verb = copy_range(bytes, i + 10, i + need);
            out.append(&mut verb);
            proof {
                assert(tail.subrange(1, 9) =~= bytes@.subrange(i as int + 1, i as int + 9));
                assert(tail.subrange(10, 10 + 8 * (cnt as int)) =~= bytes@.subrange(
                    i as int + 10,
                    i + need,
                ));
                assert(out@ =~= out_pre + (tail.subrange(1, 9) + tail.subrange(
                    10,
                    10 + 8 * (cnt as int),
                )));
                assert(tail.skip(10 + 8 * (cnt as int)) =~= bytes@.skip(i + need));
            }
            i = i + need;
        } else {
            let mut k: usize = 0;
            let mut idx: usize = 0;
            let ghost out_pre = out@;
            while idx < 8
                invariant
                    0 <= idx <= 8,
                    k as int == bits_below(t, idx as int),
                decreases 8 - idx,
            {
                let bit = ((t / (if idx == 0 {
                    1u8
                } else if idx == 1 {
                    2u8
                } else if idx == 2 {
                    4u8
                } else if idx == 3 {
                    8u8
                } else if idx == 4 {
                    16u8
                } else if idx == 5 {
                    32u8
                } else if idx == 6 {
                    64u8
                } else {
                    128u8
                })) % 2) == 1;
                proof {
                    assert(bit == tag_bit(t, idx as int));
                    lemma_bits_below_step(t, idx as int);
                    lemma_bits_below_nonneg(t, idx as int);
                }
                if bit {
                    k = k + 1;
                }
                idx = idx + 1;
            }
            proof {
                lemma_bits_below_nonneg(t, 8);
            }
            if n - i < 1 + k {
                return Option::None;
            }
            let ghost lit = bytes@.subrange(i as int + 1, i as int + 1 + k as int);
            proof {
                assert(lit =~= tail.subrange(1, 1 + k as int));
            }
            let mut c: usize = 0;
            let mut idx2: usize = 0;
            while idx2 < 8
                invariant
                    0 <= idx2 <= 8,
                    c as int == bits_below(t, idx2 as int),
                    i + 1 + k <= n,
                    n == bytes@.len(),
                    k as int == bits_below(t, 8),
                    t == bytes@[i as int],
                    lit =~= bytes@.subrange(i as int + 1, i as int + 1 + k as int),
                    out@ =~= out_pre + unpack_word(t, lit).take(idx2 as int),
                decreases 8 - idx2,
            {
                let bit = ((t / (if idx2 == 0 {
                    1u8
                } else if idx2 == 1 {
                    2u8
                } else if idx2 == 2 {
                    4u8
                } else if idx2 == 3 {
                    8u8
                } else if idx2 == 4 {
                    16u8
                } else if idx2 == 5 {
                    32u8
                } else if idx2 == 6 {
                    64u8
                } else {
                    128u8
                })) % 2) == 1;
                proof {
                    assert(bit == tag_bit(t, idx2 as int));
                    lemma_bits_below_step(t, idx2 as int);
                    lemma_bits_below_mono(t, idx2 as int + 1, 8);
                }
                if bit {
                    out.push(bytes[i + 1 + c]);
                    proof {
                        assert(lit[c as int] == bytes@[i as int + 1 + c]);
                    }
                    c = c + 1;
                } else {
                    out.push(0);
                }
                proof {
                    assert(out@ =~= out_pre + unpack_word(t, lit).take(idx2 as int + 1));
                }
                idx2 = idx2 + 1;
            }
            proof {
                assert(unpack_word(t, lit).take(8) =~= unpack_word(t, lit));
                assert(tail.skip(1 + k as int) =~= bytes@.skip(i as int + 1 + k as int));
            }
            i = i + 1 + k;
        }
    }
}


/// Reads the text behind the list pointer at word `ptr_word`.
fn read_text_at(words: &Vec<u8>, ptr_word: usize) -> (r: Option<String>)
    requires
        ptr_word <= 8,
        8 * ptr_word + 8 <= words@.len(),
    ensures
        match r {
            Option::Some(s) => read_text(words@, ptr_word as int) == Option::Some(s@),
            Option::None => read_text(words@, ptr_word as int) is None,
        },
{
    let total: usize = words.len();
    let v: u64 = read_le(words, 8 * ptr_word, 8);
    let offset: u64 = (v / 4) % 0x4000_0000;
    let esize: u64 = (v / 0x1_0000_0000) % 8;
    let count: u64 = v / 0x8_0000_0000;
    if v % 4 != 1 || esize != 2 || count < 1 {
        return Option::None;
    }
    let start: u64 = ptr_word as u64 + 1 + offset;
    if 8 * start > u64::MAX - count || 8 * start + count > total as u64 {
        proof {
            assert(8 * (ptr_word as int + 1 + offset as int) + count as int > words@.len());
        }
        return Option::None;
    }
    let s_lo: usize = (8 * start) as usize;
    let c: usize = count as usize;
    let raw = copy_range(words, s_lo, s_lo + c);
    if raw[c - 1] != 0 {
        return Option::None;
    }
    let content = copy_range(&raw, 0, c - 1);
    proof {
        assert(content@ =~= words@.subrange(8 * (start as int), 8 * (start as int)
            + count as int).take(count as int - 1));
    }
    match crate::header::utf8_to_string(content.as_slice()) {
        Option::None => Option::None,
        Option::Some(s) => Option::Some(s),
    }
}

/// Decodes a packed wire body back to its data point. Every malformation —
/// a cut-short packed stream, a mismatched segment table, a foreign root
/// pointer, a bad text pointer or non-UTF-8 text, an unknown discriminant —
/// reports the body as malformed.
pub fn decode_raw_data_point(bytes: &Vec<u8>) -> (r: Result<RawDataPoint, DeserializationError>)
    ensures
        (r matches Result::Ok(p) ==> packed_point_parse(bytes@) == Option::Some(p@)),
        (r matches Result::Err(e) ==> packed_point_parse(bytes@) is None && e.data_type
            == DataType::RawDataPoint && e.kind == SerDeErrorKind::MalformedBody),
{
    let words = match unpack_bytes(bytes) {
        Option::None => {
            return Result::Err(body_error());
        },
        Option::Some(w) => w,
    };
    let total: usize = words.len();
    if total % 8 != 0 || total < 72 {
        return Result::Err(body_error());
    }
    let seg0 = read_le(&words, 0, 4);
    if seg0 != 0 {
        return Result::Err(body_error());
    }
    let segsz = read_le(&words, 4, 4);
    proof {
        lemma_le_val_bound(words@.subrange(4, 8));
    }
    if 8 * segsz + 8 != total as u64 {
        return Result::Err(body_error());
    }
    let root = read_le(&words, 8, 8);
    proof {
        assert(0x4_0003_0000_0000u64 as int == root_ptr_val());
    }
    if root != 0x4_0003_0000_0000u64 {
        return Result::Err(body_error());
    }
    let secs_u = read_le(&words, 16, 8);
    let nanos = read_le(&words, 24, 4);
    let disc = read_le(&words, 28, 2);
    let scalar = read_le(&words, 32, 8);
    proof {
        lemma_le_val_bound(words@.subrange(24, 28));
        lemma_le_val_bound(words@.subrange(16, 24));
        lemma_le_val_bound(words@.subrange(32, 40));
    }
    let location = match read_text_at(&words, 5) {
        Option::None => {
            return Result::Err(body_error());
        },
        Option::Some(s) => s,
    };
    let path = match read_text_at(&words, 6) {
        Option::None => {
            return Result::Err(body_error());
        },
        Option::Some(s) => s,
    };
    let component = match read_text_at(&words, 7) {
        Option::None => {
            return Result::Err(body_error());
        },
        Option::Some(s) => s,
    };
    let value: DataValue = if disc == 0 {
        DataValue::Integer(#[verifier::truncate] (scalar as i64))
    } else if disc == 1 {
        DataValue::Float(scalar)
    } else if disc == 2 {
        DataValue::Bool(scalar % 2 == 1)
    } else if disc == 3 {
        match read_text_at(&words, 8) {
            Option::None => {
                return Result::Err(body_error());
            },
            Option::Some(s) => DataValue::Text(s),
        }
    } else {
        return Result::Err(body_error());
    };
    let p = RawDataPoint {
        location,
        path,
        component,
        timestamp: Timestamp {
            secs: #[verifier::truncate] (secs_u as i64),
            nanos: nanos as u32,
        },
        value,
    };
    proof {
        assert(parse_unpacked(words@) == Option::Some(p@));
    }
    Result::Ok(p)
}


/// Parsing inverts the unpacked layout: every field of an encodable point
/// reads back exactly.
#[verifier::rlimit(100)]
#[verifier::spinoff_prover]
pub proof fn lemma_parse_point(p: RawDataPointV)
    requires
        encodable(p),
    ensures
        parse_unpacked(unpacked_point_bytes(p)) == Option::Some(p),
{
    let u = unpacked_point_bytes(p);
    let lb = encode_utf8(p.location).len() as int;
    let pb = encode_utf8(p.path).len() as int;
    let cb = encode_utf8(p.component).len() as int;
    let lw = text_words(lb);
    let pw = text_words(pb);
    let cw = text_words(cb);
    let tb = value_text_bytes(p.value);
    let tw = match p.value {
        DataValueV::Text(s) => text_words(encode_utf8(s).len() as int),
        _ => 0,
    };
    let seg = 8 + lw + pw + cw + tw;
    lemma_le_bytes_len(2);
    lemma_le_bytes_len(4);
    lemma_le_bytes_len(8);
    lemma_text_content_len(p.location);
    lemma_text_content_len(p.path);
    lemma_text_content_len(p.component);
    lemma_text_pad(lb + 1);
    lemma_text_pad(pb + 1);
    lemma_text_pad(cb + 1);
    match p.value {
        DataValueV::Text(sv) => {
            lemma_text_content_len(sv);
            lemma_text_pad(encode_utf8(sv).len() as int + 1);
        },
        _ => (),
    }
    lemma_unpacked_len(p);
    assert(u.len() == 8 + 8 * seg);
    reveal_with_fuel(pow256, 9);
    // The segment table and root pointer.
    assert(u.subrange(0, 4) =~= le_bytes(0, 4));
    lemma_le_round_trip(0, 4);
    assert(u.subrange(4, 8) =~= le_bytes(seg, 4));
    lemma_le_round_trip(seg, 4);
    assert(u.subrange(8, 16) =~= le_bytes(root_ptr_val(), 8));
    lemma_le_round_trip(root_ptr_val(), 8);
    // The data words.
    assert(u.subrange(16, 24) =~= le_bytes((p.timestamp.secs as u64) as int, 8));
    lemma_le_round_trip((p.timestamp.secs as u64) as int, 8);
    let sv64 = p.timestamp.secs;
    assert(((sv64 as u64) as i64) == sv64) by (bit_vector);
    assert(u.subrange(24, 28) =~= le_bytes(p.timestamp.nanos as int, 4));
    lemma_le_round_trip(p.timestamp.nanos as int, 4);
    assert(u.subrange(28, 30) =~= le_bytes(disc_of(p.value), 2));
    lemma_le_round_trip(disc_of(p.value), 2);
    assert(u.subrange(32, 40) =~= le_bytes(scalar_of(p.value), 8));
    lemma_le_round_trip(scalar_of(p.value), 8);
    // The four texts.
    lemma_read_text_back(u, 5, 3, p.location, 72);
    assert(u.subrange(40, 48) =~= le_bytes(list_ptr_val(3, lb + 1), 8));
    lemma_read_text_back(u, 6, 2 + lw, p.path, 72 + 8 * lw);
    assert(u.subrange(48, 56) =~= le_bytes(list_ptr_val(2 + lw, pb + 1), 8));
    lemma_read_text_back(u, 7, 1 + lw + pw, p.component, 72 + 8 * lw + 8 * pw);
    assert(u.subrange(56, 64) =~= le_bytes(list_ptr_val(1 + lw + pw, cb + 1), 8));
    match p.value {
        DataValueV::Text(sv) => {
            lemma_read_text_back(u, 8, lw + pw + cw, sv, 72 + 8 * lw + 8 * pw + 8 * cw);
            assert(u.subrange(64, 72) =~= le_bytes(
                list_ptr_val(lw + pw + cw, encode_utf8(sv).len() as int + 1),
                8,
            ));
            assert(read_value(u, 3, scalar_of(p.value)) == Option::Some(p.value));
        },
        DataValueV::Integer(x) => {
            assert(((x as u64) as i64) == x) by (bit_vector);
            assert(((scalar_of(p.value) as u64) as i64) == x);
        },
        DataValueV::Float(bits) => {
            assert(scalar_of(p.value) as u64 == bits);
        },
        DataValueV::Bool(b) => {
            assert(scalar_of(p.value) % 2 == 1 <==> b);
        },
    }
}

/// The text behind one of the layout's pointers reads back exactly.
#[verifier::rlimit(100)]
#[verifier::spinoff_prover]
proof fn lemma_read_text_back(
    u: Seq<u8>,
    ptr_word: int,
    offset: int,
    s: Seq<char>,
    content_at: int,
)
    requires
        encode_utf8(s).len() < MAX_TEXT_BYTES as int,
        0 <= ptr_word,
        8 * ptr_word + 8 <= u.len(),
        0 <= offset < 0x4000_0000,
        content_at == 8 * (ptr_word + 1 + offset),
        u.subrange(8 * ptr_word, 8 * ptr_word + 8) =~= le_bytes(
            list_ptr_val(offset, encode_utf8(s).len() as int + 1),
            8,
        ),
        content_at + text_content(s).len() <= u.len(),
        u.subrange(content_at, content_at + text_content(s).len()) =~= text_content(s),
    ensures
        read_text(u, ptr_word) == Option::Some(s),
{
    let eb = encode_utf8(s).len() as int;
    lemma_list_ptr_fields(offset, eb + 1);
    lemma_le_round_trip(list_ptr_val(offset, eb + 1), 8);
    reveal_with_fuel(pow256, 9);
    assert(word_at(u, ptr_word) == list_ptr_val(offset, eb + 1));
    lemma_text_content_len(s);
    lemma_text_pad(eb + 1);
    let tc = text_content(s);
    let raw = u.subrange(content_at, content_at + eb + 1);
    assert(raw =~= u.subrange(content_at, content_at + tc.len()).take(eb + 1));
    assert(u.subrange(content_at, content_at + tc.len()).take(eb + 1) =~= tc.take(eb + 1));
    assert(tc.take(eb + 1) =~= encode_utf8(s) + seq![0u8]);
    assert(raw =~= encode_utf8(s) + seq![0u8]);
    assert(raw[eb] == 0);
    assert(raw.take(eb) =~= encode_utf8(s));
    vstd::utf8::encode_utf8_valid_utf8(s);
    vstd::utf8::encode_utf8_decode_utf8(s);
}

/// Round trip of the body codec: the packed wire bytes of any encodable
/// data point decode back to exactly its fields.
pub proof fn lemma_point_round_trip(p: RawDataPointV)
    requires
        encodable(p),
    ensures
        packed_point_parse(packed_point_bytes(p)) == Option::Some(p),
{
    lemma_unpacked_len(p);
    lemma_unpack_pack(unpacked_point_bytes(p));
    lemma_parse_point(p);
}

} // verus!
