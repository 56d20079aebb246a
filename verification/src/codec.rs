//! The integer block codec and the layout of one posting-list record.

use crate::bytes::{be32_bytes, be32_value, lemma_be32_round_trip, push_u32};
use vstd::prelude::*;

verus! {

/// What goes wrong in the engine.
#[derive(Clone, Copy, Debug, PartialEq, Eq, Structural)]
pub enum SegmentError {
    /// The block arena has no free block left.
    OutOfBlocks,
    /// A dictionary entry did not come after the one before it.
    DictionaryOrderViolation,
    /// Segment data that cannot be read back.
    CorruptedSegment,
    /// The document store refused a record.
    StoreWriteFailed,
    /// Writing a file failed underneath.
    IoError,
}

/// The version of the packing, which the header word of every non-empty
/// block carries in its second byte from the right.
pub const CODEC_VERSION: u32 = 1;

/// The header word of a block whose integers take `width` bits each.
pub open spec fn header(width: int) -> u32 {
    (CODEC_VERSION * 256 + width) as u32
}

/// The width that a header word announces, where the word is a header of
/// this version: 8, 16 or 32 bits.
pub open spec fn header_width(h: u32) -> Option<int> {
    if h / 256 == CODEC_VERSION && (h % 256 == 8 || h % 256 == 16 || h % 256 == 32) {
        Some(h as int % 256)
    } else {
        None
    }
}

/// The number of bits that each integer of the block is packed in: the
/// least of 8, 16 and 32 that holds them all.
pub open spec fn width_of(xs: Seq<u32>) -> int {
    if forall|i: int| 0 <= i < xs.len() ==> xs[i] < 0x100 {
        8
    } else if forall|i: int| 0 <= i < xs.len() ==> xs[i] < 0x1_0000 {
        16
    } else {
        32
    }
}

/// The data word in which the integer at place `i` stands.
pub open spec fn word_index(i: int, width: int) -> int {
    if width == 8 {
        i / 4
    } else if width == 16 {
        i / 2
    } else {
        i
    }
}

/// The place in its data word at which the integer at place `i` stands.
pub open spec fn word_slot(i: int, width: int) -> int {
    if width == 8 {
        i % 4
    } else if width == 16 {
        i % 2
    } else {
        0
    }
}

/// The number of words that `n` integers of `width` bits take.
pub open spec fn words_for(n: int, width: int) -> int {
    word_index(n, width) + (if word_slot(n, width) != 0 {
        1int
    } else {
        0int
    })
}

/// The integer at place `i`, and zero behind the end.
pub open spec fn slot(xs: Seq<u32>, i: int) -> int {
    if 0 <= i < xs.len() {
        xs[i] as int
    } else {
        0
    }
}

/// The data word `w` of a block: its integers side by side, the first in
/// the highest bits.
pub open spec fn packed(xs: Seq<u32>, width: int, w: int) -> u32 {
    if width == 8 {
        (slot(xs, 4 * w) * 0x100_0000 + slot(xs, 4 * w + 1) * 0x1_0000 + slot(xs, 4 * w + 2) * 0x100
            + slot(xs, 4 * w + 3)) as u32
    } else if width == 16 {
        (slot(xs, 2 * w) * 0x1_0000 + slot(xs, 2 * w + 1)) as u32
    } else {
        slot(xs, w) as u32
    }
}

/// The integer that stands at place `k` of a data word.
pub open spec fn unpacked(word: u32, width: int, k: int) -> u32 {
    if width == 8 {
        if k == 0 {
            (word / 0x100_0000) as u32
        } else if k == 1 {
            (word / 0x1_0000 % 0x100) as u32
        } else if k == 2 {
            (word / 0x100 % 0x100) as u32
        } else {
            (word % 0x100) as u32
        }
    } else if width == 16 {
        if k == 0 {
            (word / 0x1_0000) as u32
        } else {
            (word % 0x1_0000) as u32
        }
    } else {
        word
    }
}

/// The data words that stand for `xs`: none for an empty block, else the
/// header word and the packed integers.
pub open spec fn encoded_words(xs: Seq<u32>) -> Seq<u32> {
    if xs.len() == 0 {
        Seq::empty()
    } else {
        seq![header(width_of(xs))] + Seq::new(
            words_for(xs.len() as int, width_of(xs)) as nat,
            |w: int| packed(xs, width_of(xs), w),
        )
    }
}

/// The `n` integers that `words` stand for, if they stand for any: no word
/// for no integer, else a header of this version and as many data words as
/// `n` integers of its width take.
pub open spec fn decoded_words(words: Seq<u32>, n: nat) -> Option<Seq<u32>> {
    if n == 0 {
        if words.len() == 0 {
            Some(Seq::empty())
        } else {
            None
        }
    } else if words.len() > 0 && header_width(words[0]).is_some() && words.len() - 1 == words_for(
        n as int,
        header_width(words[0]).unwrap(),
    ) {
        let width = header_width(words[0]).unwrap();
        Some(
            Seq::new(
                n,
                |i: int| unpacked(words[1 + word_index(i, width)], width, word_slot(i, width)),
            ),
        )
    } else {
        None
    }
}

/// A block takes at most one word more than it has integers.
pub proof fn lemma_encoded_len(xs: Seq<u32>)
    ensures
        encoded_words(xs).len() <= xs.len() + 1,
{
}

/// Four integers of eight bits come back out of the word that packs them.
pub proof fn lemma_unpack_bytes(a: int, b: int, c: int, d: int)
    requires
        0 <= a < 0x100,
        0 <= b < 0x100,
        0 <= c < 0x100,
        0 <= d < 0x100,
    ensures
        unpacked((a * 0x100_0000 + b * 0x1_0000 + c * 0x100 + d) as u32, 8, 0) == a,
        unpacked((a * 0x100_0000 + b * 0x1_0000 + c * 0x100 + d) as u32, 8, 1) == b,
        unpacked((a * 0x100_0000 + b * 0x1_0000 + c * 0x100 + d) as u32, 8, 2) == c,
        unpacked((a * 0x100_0000 + b * 0x1_0000 + c * 0x100 + d) as u32, 8, 3) == d,
{
}

/// Two integers of sixteen bits come back out of the word that packs them.
pub proof fn lemma_unpack_halves(a: int, b: int)
    requires
        0 <= a < 0x1_0000,
        0 <= b < 0x1_0000,
    ensures
        unpacked((a * 0x1_0000 + b) as u32, 16, 0) == a,
        unpacked((a * 0x1_0000 + b) as u32, 16, 1) == b,
{
}

/// Each integer comes back out of the data word that it was packed in.
pub proof fn lemma_unpack_packed(xs: Seq<u32>, i: int)
    requires
        0 <= i < xs.len(),
    ensures
        unpacked(
            packed(xs, width_of(xs), word_index(i, width_of(xs))),
            width_of(xs),
            word_slot(i, width_of(xs)),
        ) == xs[i],
{
    let width = width_of(xs);
    if width == 8 {
        let w = i / 4;
        assert(slot(xs, 4 * w) < 0x100 && slot(xs, 4 * w + 1) < 0x100 && slot(xs, 4 * w + 2) < 0x100
            && slot(xs, 4 * w + 3) < 0x100);
        lemma_unpack_bytes(
            slot(xs, 4 * w),
            slot(xs, 4 * w + 1),
            slot(xs, 4 * w + 2),
            slot(xs, 4 * w + 3),
        );
        assert(slot(xs, 4 * w + i % 4) == xs[i]);
    } else if width == 16 {
        let w = i / 2;
        assert(slot(xs, 2 * w) < 0x1_0000 && slot(xs, 2 * w + 1) < 0x1_0000);
        lemma_unpack_halves(slot(xs, 2 * w), slot(xs, 2 * w + 1));
        assert(slot(xs, 2 * w + i % 2) == xs[i]);
    }
}

/// Decoding what was encoded, with the right count, gives the input back.
pub proof fn lemma_codec_identity(xs: Seq<u32>)
    ensures
        decoded_words(encoded_words(xs), xs.len()) == Some(xs),
{
    if xs.len() == 0 {
        assert(xs =~= Seq::empty());
    } else {
        let width = width_of(xs);
        let words = encoded_words(xs);
        assert(words[0] == header(width));
        assert(header_width(words[0]) == Some(width));
        assert(words.len() - 1 == words_for(xs.len() as int, width));
        let back = decoded_words(words, xs.len()).unwrap();
        assert forall|i: int| 0 <= i < xs.len() implies back[i] == xs[i] by {
            assert(words[1 + word_index(i, width)] == packed(xs, width, word_index(i, width)));
            lemma_unpack_packed(xs, i);
        }
        assert(back =~= xs);
    }
}

/// The width that the integers of `xs` are packed in.
fn choose_width(xs: &Vec<u32>) -> (width: u32)
    ensures
        width == width_of(xs@),
{
    let mut small = true;
    let mut medium = true;
    let mut i: usize = 0;
    while i < xs.len()
        invariant
            i <= xs.len(),
            small == (forall|j: int| 0 <= j < i ==> xs@[j] < 0x100),
            medium == (forall|j: int| 0 <= j < i ==> xs@[j] < 0x1_0000),
        decreases xs.len() - i,
    {
        if xs[i] >= 0x100 {
            small = false;
        }
        if xs[i] >= 0x1_0000 {
            medium = false;
        }
        i += 1;
    }
    if small {
        8
    } else if medium {
        16
    } else {
        32
    }
}

/// The integer at place `i`, and zero behind the end.
fn slot_of(xs: &Vec<u32>, i: usize) -> (x: u32)
    ensures
        x == slot(xs@, i as int),
{
    if i < xs.len() {
        xs[i]
    } else {
        0
    }
}

/// The number of words that `n` integers of `width` bits take.
fn words_needed(n: usize, width: u32) -> (count: usize)
    ensures
        count == words_for(n as int, width as int),
{
    if width == 8 {
        n / 4 + (if n % 4 != 0 {
            1
        } else {
            0
        })
    } else if width == 16 {
        n / 2 + (if n % 2 != 0 {
            1
        } else {
            0
        })
    } else {
        n
    }
}

/// Packs `xs` into data words.
pub fn encode(xs: &Vec<u32>) -> (words: Vec<u32>)
    ensures
        words@ == encoded_words(xs@),
{
    let mut words: Vec<u32> = Vec::new();
    let n = xs.len();
    if n == 0 {
        return words;
    }
    let width = choose_width(xs);
    words.push(CODEC_VERSION * 256 + width);
    let count: usize = words_needed(n, width);
    let mut w: usize = 0;
    while w < count
        invariant
            w <= count,
            count == words_for(n as int, width as int),
            n == xs@.len(),
            width == width_of(xs@),
            width == 8 || width == 16 || width == 32,
            words@ == seq![header(width as int)] + Seq::new(
                w as nat,
                |k: int| packed(xs@, width as int, k),
            ),
        decreases count - w,
    {
        let word: u32 = if width == 8 {
            let a = slot_of(xs, 4 * w);
            let b = slot_of(xs, 4 * w + 1);
            let c = slot_of(xs, 4 * w + 2);
            let d = slot_of(xs, 4 * w + 3);
            assert(a < 0x100 && b < 0x100 && c < 0x100 && d < 0x100);
            a * 0x100_0000 + b * 0x1_0000 + c * 0x100 + d
        } else if width == 16 {
            let a = slot_of(xs, 2 * w);
            let b = slot_of(xs, 2 * w + 1);
            assert(a < 0x1_0000 && b < 0x1_0000);
            a * 0x1_0000 + b
        } else {
            slot_of(xs, w)
        };
        words.push(word);
        assert(words@ =~= seq![header(width as int)] + Seq::new(
            (w + 1) as nat,
            |k: int| packed(xs@, width as int, k),
        ));
        w += 1;
    }
    words
}

/// Unpacks the `n` integers that `words` hold, or `None` where the words do
/// not stand for `n` integers.
pub fn decode(words: &Vec<u32>, n: usize) -> (r: Option<Vec<u32>>)
    ensures
        match r {
            Some(xs) => decoded_words(words@, n as nat) == Some(xs@),
            None => decoded_words(words@, n as nat).is_none(),
        },
{
    let mut xs: Vec<u32> = Vec::new();
    if n == 0 {
        if words.len() == 0 {
            return Some(xs);
        }
        return None;
    }
    if words.len() == 0 {
        return None;
    }
    let h = words[0];
    let width = h % 256;
    if h / 256 != CODEC_VERSION || !(width == 8 || width == 16 || width == 32) {
        return None;
    }
    let count: usize = words_needed(n, width);
    if words.len() - 1 != count {
        return None;
    }
    let mut i: usize = 0;
    while i < n
        invariant
            i <= n,
            n > 0,
            words@.len() - 1 == words_for(n as int, width as int),
            header_width(words@[0]) == Some(width as int),
            width == 8 || width == 16 || width == 32,
            xs@ == Seq::new(
                i as nat,
                |j: int|
                    unpacked(
                        words@[1 + word_index(j, width as int)],
                        width as int,
                        word_slot(j, width as int),
                    ),
            ),
        decreases n - i,
    {
        let x: u32 = if width == 8 {
            let word = words[1 + i / 4];
            let k = i % 4;
            if k == 0 {
                word / 0x100_0000
            } else if k == 1 {
                word / 0x1_0000 % 0x100
            } else if k == 2 {
                word / 0x100 % 0x100
            } else {
                word % 0x100
            }
        } else if width == 16 {
            let word = words[1 + i / 2];
            if i % 2 == 0 {
                word / 0x1_0000
            } else {
                word % 0x1_0000
            }
        } else {
            words[1 + i]
        };
        xs.push(x);
        assert(xs@ =~= Seq::new(
            (i + 1) as nat,
            |j: int|
                unpacked(
                    words@[1 + word_index(j, width as int)],
                    width as int,
                    word_slot(j, width as int),
                ),
        ));
        i += 1;
    }
    Some(xs)
}

/// The bytes of a run of words, each big-endian.
pub open spec fn words_bytes(ws: Seq<u32>) -> Seq<u8> {
    Seq::new(4 * ws.len(), |k: int| be32_bytes(ws[k / 4])[k % 4])
}

/// The `count` words that `data` holds after the two header words.
pub open spec fn record_words(data: Seq<u8>, count: nat) -> Seq<u32> {
    Seq::new(count, |i: int| be32_value(data.subrange(8 + 4 * i, 12 + 4 * i)) as u32)
}

/// One posting-list record: the number of documents, the number of data
/// words, then the data words.
pub open spec fn record_bytes(xs: Seq<u32>) -> Seq<u8> {
    be32_bytes(xs.len() as u32) + be32_bytes(encoded_words(xs).len() as u32) + words_bytes(
        encoded_words(xs),
    )
}

/// The document ids of the record that `data` starts with, if it starts
/// with one. Bytes after the record are not looked at.
pub open spec fn parse_record(data: Seq<u8>) -> Option<Seq<u32>> {
    if data.len() < 8 {
        None
    } else {
        let n = be32_value(data.subrange(0, 4)) as nat;
        let w = be32_value(data.subrange(4, 8)) as nat;
        if data.len() < 8 + 4 * w {
            None
        } else {
            decoded_words(record_words(data, w), n)
        }
    }
}

/// A record, whatever follows it, reads back as the ids it was made from.
pub proof fn lemma_record_round_trip(xs: Seq<u32>, rest: Seq<u8>)
    requires
        xs.len() < u32::MAX,
    ensures
        parse_record(record_bytes(xs) + rest) == Some(xs),
{
    let ws = encoded_words(xs);
    let data = record_bytes(xs) + rest;
    lemma_encoded_len(xs);
    lemma_be32_round_trip(xs.len() as u32);
    lemma_be32_round_trip(ws.len() as u32);
    assert(data.subrange(0, 4) =~= be32_bytes(xs.len() as u32));
    assert(data.subrange(4, 8) =~= be32_bytes(ws.len() as u32));
    assert forall|i: int| 0 <= i < ws.len() implies #[trigger] record_words(data, ws.len())[i]
        == ws[i] by {
        lemma_be32_round_trip(ws[i]);
        assert forall|k: int| 0 <= k < 4 implies data.subrange(8 + 4 * i, 12 + 4 * i)[k]
            == be32_bytes(ws[i])[k] by {
            assert(data[8 + 4 * i + k] == words_bytes(ws)[4 * i + k]);
            assert((4 * i + k) / 4 == i && (4 * i + k) % 4 == k);
        }
        assert(data.subrange(8 + 4 * i, 12 + 4 * i) =~= be32_bytes(ws[i]));
    }
    assert(record_words(data, ws.len()) =~= ws);
    lemma_codec_identity(xs);
}

/// Writes the record of `doc_ids`.
pub fn serialize_postings(doc_ids: &Vec<u32>) -> (out: Vec<u8>)
    requires
        doc_ids.len() < u32::MAX,
    ensures
        out@ == record_bytes(doc_ids@),
{
    let words = encode(doc_ids);
    proof {
        lemma_encoded_len(doc_ids@);
    }
    let mut out: Vec<u8> = Vec::new();
    push_u32(&mut out, doc_ids.len() as u32);
    push_u32(&mut out, words.len() as u32);
    let ghost head = out@;
    let mut i: usize = 0;
    while i < words.len()
        invariant
            i <= words.len(),
            out@ == head + words_bytes(words@.take(i as int)),
        decreases words.len() - i,
    {
        push_u32(&mut out, words[i]);
        proof {
            let a = words@.take(i as int);
            let b = words@.take(i + 1);
            assert forall|k: int| 0 <= k < 4 * (i + 1) implies (words_bytes(a) + be32_bytes(
                words@[i as int],
            ))[k] == words_bytes(b)[k] by {
                if k >= 4 * i {
                    assert(k / 4 == i && k % 4 == k - 4 * i);
                } else {
                    assert(k / 4 < i);
                }
            }
            assert(words_bytes(a) + be32_bytes(words@[i as int]) =~= words_bytes(b));
        }
        i += 1;
    }
    assert(words@.take(i as int) =~= words@);
    out
}

} // verus!
