//! Records in a file: the runs of bytes between ASCII white space.

use vstd::prelude::*;

verus! {

/// Whether a byte is ASCII white space: space, tab, line feed, form feed or
/// carriage return.
pub open spec fn is_space(byte: u8) -> bool {
    byte == 0x20 || byte == 0x09 || byte == 0x0a || byte == 0x0c || byte == 0x0d
}

/// The bytes from `start` up to `end` are one record: a run of bytes without
/// white space that cannot be extended on either side.
pub open spec fn is_record(bytes: Seq<u8>, start: int, end: int) -> bool {
    &&& 0 <= start < end <= bytes.len()
    &&& forall|i: int| start <= i < end ==> !is_space(#[trigger] bytes[i])
    &&& start == 0 || is_space(bytes[start - 1])
    &&& end == bytes.len() || is_space(bytes[end])
}

/// Every byte below `limit` that is no white space lies in one of the spans.
pub open spec fn covers(spans: Seq<(usize, usize)>, bytes: Seq<u8>, limit: int) -> bool {
    forall|i: int|
        0 <= i < limit && !is_space(#[trigger] bytes[i]) ==> exists|k: int|
            0 <= k < spans.len() && (#[trigger] spans[k]).0 <= i < spans[k].1
}

/// The spans are the records of the bytes: each is a record, they stand in
/// the order of the file, and no byte outside them belongs to a record.
pub open spec fn frames(spans: Seq<(usize, usize)>, bytes: Seq<u8>) -> bool {
    &&& forall|k: int|
        0 <= k < spans.len() ==> is_record(bytes, (#[trigger] spans[k]).0 as int, spans[k].1 as int)
    &&& forall|k: int, l: int|
        0 <= k < l < spans.len() ==> (#[trigger] spans[k]).1 < (#[trigger] spans[l]).0
    &&& covers(spans, bytes, bytes.len() as int)
}

/// Whether a byte is ASCII white space.
pub fn is_space_byte(byte: u8) -> (space: bool)
    ensures
        space == is_space(byte),
{
    byte == 0x20 || byte == 0x09 || byte == 0x0a || byte == 0x0c || byte == 0x0d
}

/// Where the records of a file start and end.
///
/// Records are separated by any amount of ASCII white space; white space
/// at the start and at the end of the file separates nothing. Each span
/// `(start, end)` holds the position of the first byte of a record and the
/// position after its last byte. A file of white space has no records.
pub fn record_spans(bytes: &[u8]) -> (spans: Vec<(usize, usize)>)
    ensures
        frames(spans@, bytes@),
{
    let mut spans: Vec<(usize, usize)> = Vec::new();
    let mut i: usize = 0;
    while i < bytes.len()
        invariant
            i <= bytes.len(),
            i == 0 || i == bytes.len() || is_space(bytes@[i - 1]) || is_space(bytes@[i as int]),
            forall|k: int|
                0 <= k < spans.len() ==> is_record(
                    bytes@,
                    (#[trigger] spans@[k]).0 as int,
                    spans@[k].1 as int,
                ),
            forall|k: int| 0 <= k < spans.len() ==> (#[trigger] spans@[k]).1 <= i,
            forall|k: int, l: int|
                0 <= k < l < spans.len() ==> (#[trigger] spans@[k]).1 < (#[trigger] spans@[l]).0,
            covers(spans@, bytes@, i as int),
        decreases bytes.len() - i,
    {
        if is_space_byte(bytes[i]) {
            i = i + 1;
        } else {
            let start: usize = i;
            let ghost before = spans@;
            while i < bytes.len() && !is_space_byte(bytes[i])
                invariant
                    start <= i <= bytes.len(),
                    forall|j: int| start <= j < i ==> !is_space(#[trigger] bytes@[j]),
                decreases bytes.len() - i,
            {
                i = i + 1;
            }
            spans.push((start, i));
            proof {
                assert forall|k: int, l: int|
                    0 <= k < l < spans@.len() implies (#[trigger] spans@[k]).1
                    < (#[trigger] spans@[l]).0 by {
                    if l == before.len() {
                        assert(spans@[k] == before[k]);
                        assert(is_record(bytes@, before[k].0 as int, before[k].1 as int));
                    } else {
                        assert(spans@[k] == before[k] && spans@[l] == before[l]);
                    }
                }
                assert forall|j: int|
                    0 <= j < i && !is_space(#[trigger] bytes@[j]) implies exists|k: int|
                    0 <= k < spans@.len() && (#[trigger] spans@[k]).0 <= j < spans@[k].1 by {
                    if j < start {
                        let k = choose|k: int|
                            0 <= k < before.len() && (#[trigger] before[k]).0 <= j < before[k].1;
                        assert(spans@[k] == before[k]);
                    } else {
                        assert(spans@[before.len() as int].0 <= j < spans@[before.len() as int].1);
                    }
                }
            }
        }
    }
    spans
}

} // verus!
