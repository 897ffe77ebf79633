//! Scanning an Annex-B byte stream for NAL units.
//!
//! A unit begins at the header byte that follows a start code (`00 00 01` or
//! `00 00 00 01`) and runs up to the next start code that is itself followed
//! by a header of a recognized type, or to the end of the buffer.

use vstd::prelude::*;
use vstd::slice::slice_subrange;

verus! {

/// The NAL unit types that the scanner recognizes, and `UnKnown` for the rest.
#[derive(Clone, Copy, Debug, PartialEq, Eq, Structural)]
pub enum H264NalType {
    UnKnown,
    NonIdr,
    Idr,
    Sei,
    Sps,
    Pps,
    Aud,
    EndOfSeq,
    EndOfStream,
    Filler,
}

impl H264NalType {
    /// The type that a NAL header byte announces in its low five bits.
    pub open spec fn of_header(header: u8) -> H264NalType {
        let code = header & 0x1f;
        if code == 1 {
            H264NalType::NonIdr
        } else if code == 5 {
            H264NalType::Idr
        } else if code == 6 {
            H264NalType::Sei
        } else if code == 7 {
            H264NalType::Sps
        } else if code == 8 {
            H264NalType::Pps
        } else if code == 9 {
            H264NalType::Aud
        } else if code == 10 {
            H264NalType::EndOfSeq
        } else if code == 11 {
            H264NalType::EndOfStream
        } else if code == 12 {
            H264NalType::Filler
        } else {
            H264NalType::UnKnown
        }
    }

    /// The number of this type as H.264 assigns it; 0 for `UnKnown`.
    pub open spec fn spec_code(self) -> u8 {
        match self {
            H264NalType::UnKnown => 0,
            H264NalType::NonIdr => 1,
            H264NalType::Idr => 5,
            H264NalType::Sei => 6,
            H264NalType::Sps => 7,
            H264NalType::Pps => 8,
            H264NalType::Aud => 9,
            H264NalType::EndOfSeq => 10,
            H264NalType::EndOfStream => 11,
            H264NalType::Filler => 12,
        }
    }

    /// Reads the type out of a NAL header byte.
    pub fn from_header(header: u8) -> (kind: H264NalType)
        ensures
            kind == H264NalType::of_header(header),
            kind != H264NalType::UnKnown ==> kind.spec_code() == header & 0x1f,
    {
        let code: u8 = header & 0x1f;
        match code {
            1 => H264NalType::NonIdr,
            5 => H264NalType::Idr,
            6 => H264NalType::Sei,
            7 => H264NalType::Sps,
            8 => H264NalType::Pps,
            9 => H264NalType::Aud,
            10 => H264NalType::EndOfSeq,
            11 => H264NalType::EndOfStream,
            12 => H264NalType::Filler,
            _ => H264NalType::UnKnown,
        }
    }

    /// The number of this type as H.264 assigns it; 0 for `UnKnown`.
    #[verifier::when_used_as_spec(spec_code)]
    pub fn code(self) -> (code: u8)
        ensures
            code == self.spec_code(),
    {
        match self {
            H264NalType::UnKnown => 0,
            H264NalType::NonIdr => 1,
            H264NalType::Idr => 5,
            H264NalType::Sei => 6,
            H264NalType::Sps => 7,
            H264NalType::Pps => 8,
            H264NalType::Aud => 9,
            H264NalType::EndOfSeq => 10,
            H264NalType::EndOfStream => 11,
            H264NalType::Filler => 12,
        }
    }
}

/// Whether a header byte announces one of the recognized types.
pub open spec fn is_recognized(header: u8) -> bool {
    H264NalType::of_header(header) != H264NalType::UnKnown
}

/// Length of the start code that begins at `i`: 3 for `00 00 01`, 4 for
/// `00 00 00 01`, and 0 where neither stands.
pub open spec fn start_code_len(buf: Seq<u8>, i: int) -> int {
    if 0 <= i && i + 3 <= buf.len() && buf[i] == 0 && buf[i + 1] == 0 && buf[i + 2] == 1 {
        3
    } else if 0 <= i && i + 4 <= buf.len() && buf[i] == 0 && buf[i + 1] == 0 && buf[i + 2] == 0
        && buf[i + 3] == 1 {
        4
    } else {
        0
    }
}

/// Whether a NAL unit is announced at `i`: a start code begins there, the
/// byte after it is a header of a recognized type, and `i` is one of the
/// positions that the scanner examines (those with more than four bytes left).
pub open spec fn is_nal_start(buf: Seq<u8>, i: int) -> bool {
    &&& 0 <= i
    &&& i + 4 < buf.len()
    &&& start_code_len(buf, i) > 0
    &&& is_recognized(buf[i + start_code_len(buf, i)])
}

/// The first position at or after `from` that announces a NAL unit, or the
/// length of the buffer where there is none.
pub open spec fn next_start(buf: Seq<u8>, from: int) -> int
    decreases buf.len() - from,
{
    if from + 4 >= buf.len() {
        buf.len() as int
    } else if is_nal_start(buf, from) {
        from
    } else {
        next_start(buf, from + 1)
    }
}

/// Whether the buffer holds a NAL unit at all.
pub open spec fn has_nal(buf: Seq<u8>) -> bool {
    next_start(buf, 0) < buf.len()
}

/// Position of the header byte of the first NAL unit.
pub open spec fn first_header(buf: Seq<u8>) -> int {
    next_start(buf, 0) + start_code_len(buf, next_start(buf, 0))
}

/// Position just past the first NAL unit: where the next unit is announced,
/// or the length of the buffer.
pub open spec fn first_end(buf: Seq<u8>) -> int {
    next_start(buf, first_header(buf))
}

/// Where a unit was found in a buffer.
#[derive(Clone, Copy, Debug)]
pub struct NalSpan {
    /// Type read from the header byte.
    pub kind: H264NalType,
    /// Index of the header byte.
    pub start: usize,
    /// Index just past the last byte of the unit.
    pub end: usize,
    /// Whether the unit runs to the end of the buffer.
    pub trailing: bool,
}

/// Length of the start code at `index`, or 0.
fn start_code_at(buf: &[u8], index: usize) -> (n: usize)
    requires
        index + 4 < buf@.len(),
    ensures
        n == start_code_len(buf@, index as int),
{
    if buf[index] == 0 && buf[index + 1] == 0 && buf[index + 2] == 1 {
        3
    } else if buf[index] == 0 && buf[index + 1] == 0 && buf[index + 2] == 0 && buf[index + 3]
        == 1 {
        4
    } else {
        0
    }
}

/// The first position at or after `from` that announces a unit.
fn find_start(buf: &[u8], from: usize) -> (found: usize)
    ensures
        found == next_start(buf@, from as int),
{
    let len = buf.len();
    if len <= 4 {
        return len;
    }
    let limit = len - 4;
    let mut index = from;
    while index < limit
        invariant
            len == buf@.len(),
            limit == len - 4,
            from <= index,
            next_start(buf@, from as int) == next_start(buf@, index as int),
        decreases limit - index,
    {
        let code = start_code_at(buf, index);
        if code != 0 {
            let kind = H264NalType::from_header(buf[index + code]);
            if kind != H264NalType::UnKnown {
                return index;
            }
        }
        index += 1;
    }
    len
}

/// Finds the first NAL unit of `input_buffer` and says where it lies.
pub fn locate_nal(input_buffer: &[u8]) -> (found: Option<NalSpan>)
    ensures
        found is Some <==> has_nal(input_buffer@),
        input_buffer@.len() <= 4 ==> found is None,
        found matches Some(span) ==> {
            &&& 3 <= span.start < span.end <= input_buffer@.len()
            &&& span.start == first_header(input_buffer@)
            &&& span.end == first_end(input_buffer@)
            &&& span.kind == H264NalType::of_header(input_buffer@[span.start as int])
            &&& span.kind != H264NalType::UnKnown
            &&& span.trailing == (span.end == input_buffer@.len())
        },
{
    let len = input_buffer.len();
    let index = find_start(input_buffer, 0);
    proof {
        lemma_next_start(input_buffer@, 0);
    }
    if index >= len {
        return None;
    }
    let code = start_code_at(input_buffer, index);
    let start = index + code;
    let kind = H264NalType::from_header(input_buffer[start]);
    let end = find_start(input_buffer, start);
    proof {
        lemma_first_nal_bounds(input_buffer@);
    }
    Some(NalSpan { kind, start, end, trailing: end == len })
}

/// Finds the first NAL unit of `input_buffer`.
///
/// The result holds the unit's type, its bytes from the header byte on (the
/// start code is left out), and whether it runs to the end of the buffer, in
/// which case no unit follows it.
pub fn get_nal(input_buffer: &[u8]) -> (found: Option<(H264NalType, &[u8], bool)>)
    ensures
        found is Some <==> has_nal(input_buffer@),
        input_buffer@.len() <= 4 ==> found is None,
        found matches Some((kind, unit, trailing)) ==> {
            &&& kind == H264NalType::of_header(input_buffer@[first_header(input_buffer@)])
            &&& kind != H264NalType::UnKnown
            &&& unit@ == input_buffer@.subrange(
                first_header(input_buffer@),
                first_end(input_buffer@),
            )
            &&& unit@.len() > 0
            &&& trailing == (first_end(input_buffer@) == input_buffer@.len())
        },
{
    match locate_nal(input_buffer) {
        None => None,
        Some(span) => {
            let unit = slice_subrange(input_buffer, span.start, span.end);
            Some((span.kind, unit, span.trailing))
        },
    }
}

/// The units that scanning yields when it is repeated on what follows each
/// unit, until none is found.
pub open spec fn nal_units(buf: Seq<u8>) -> Seq<Seq<u8>>
    decreases buf.len(),
    via nal_units_decreases
{
    if has_nal(buf) {
        seq![buf.subrange(first_header(buf), first_end(buf))] + nal_units(
            buf.subrange(first_end(buf), buf.len() as int),
        )
    } else {
        Seq::empty()
    }
}

#[via_fn]
proof fn nal_units_decreases(buf: Seq<u8>) {
    if has_nal(buf) {
        lemma_first_nal_bounds(buf);
    }
}

/// Where the units lie that repeated scanning finds from `from` on: for each
/// unit the position of its header byte and the position just past it.
pub open spec fn nal_spans(buf: Seq<u8>, from: int) -> Seq<(int, int)>
    decreases buf.len() - from,
    via nal_spans_decreases
{
    let at = next_start(buf, from);
    if 0 <= from && at < buf.len() {
        let start = at + start_code_len(buf, at);
        let end = next_start(buf, start);
        seq![(start, end)] + nal_spans(buf, end)
    } else {
        Seq::empty()
    }
}

#[via_fn]
proof fn nal_spans_decreases(buf: Seq<u8>, from: int) {
    let at = next_start(buf, from);
    if 0 <= from && at < buf.len() {
        lemma_next_start(buf, from);
        lemma_next_start(buf, at + start_code_len(buf, at));
    }
}

/// Whether `start` is the header byte of a unit that the buffer announces:
/// a start code ends just before it at a position that the scanner examines,
/// and its type is recognized.
pub open spec fn is_unit_header(buf: Seq<u8>, start: int) -> bool {
    exists|at: int| is_nal_start(buf, at) && start == at + #[trigger] start_code_len(buf, at)
}

/// Whether `spans` mark out the units of the buffer from `from` on.
///
/// The spans lie one after the other, each behind its start code; each
/// begins at an announced header, is not empty, and reaches to the position
/// that announces the next one, with no announcement inside it; the last one
/// reaches to the end of the buffer; and every header that the buffer
/// announces at or after `from` is the beginning of one of them.
pub open spec fn marks_out_units(buf: Seq<u8>, from: int, spans: Seq<(int, int)>) -> bool {
    &&& spans.len() == 0 <==> next_start(buf, from) == buf.len()
    &&& spans.len() > 0 ==> spans[0].0 == next_start(buf, from) + start_code_len(
        buf,
        next_start(buf, from),
    )
    &&& spans.len() > 0 ==> spans.last().1 == buf.len()
    &&& forall|k: int|
        0 <= k < spans.len() ==> {
            &&& from + 3 <= (#[trigger] spans[k]).0 < spans[k].1 <= buf.len()
            &&& is_unit_header(buf, spans[k].0)
        }
    &&& forall|k: int, j: int|
        #![trigger spans[k], is_nal_start(buf, j)]
        0 <= k < spans.len() && spans[k].0 <= j < spans[k].1 ==> !is_nal_start(buf, j)
    &&& forall|k: int|
        0 <= k < spans.len() - 1 ==> {
            &&& is_nal_start(buf, (#[trigger] spans[k]).1)
            &&& spans[k + 1].0 == spans[k].1 + start_code_len(buf, spans[k].1)
        }
    &&& forall|i: int|
        from <= i && #[trigger] is_nal_start(buf, i) ==> exists|k: int|
            0 <= k < spans.len() && (#[trigger] spans[k]).0 == i + start_code_len(buf, i)
}

/// What `next_start` finds: nothing before it announces a unit, and it does
/// unless it is the end of the buffer.
pub proof fn lemma_next_start(buf: Seq<u8>, from: int)
    requires
        0 <= from <= buf.len(),
    ensures
        from <= next_start(buf, from) <= buf.len(),
        next_start(buf, from) < buf.len() ==> is_nal_start(buf, next_start(buf, from)),
        forall|j: int| from <= j < next_start(buf, from) ==> !is_nal_start(buf, j),
    decreases buf.len() - from,
{
    if from + 4 < buf.len() && !is_nal_start(buf, from) {
        lemma_next_start(buf, from + 1);
    }
}

/// Where the first unit of a buffer lies: behind a start code, not empty, and
/// within the buffer.
pub proof fn lemma_first_nal_bounds(buf: Seq<u8>)
    requires
        has_nal(buf),
    ensures
        is_nal_start(buf, next_start(buf, 0)),
        3 <= first_header(buf) < first_end(buf) <= buf.len(),
        is_recognized(buf[first_header(buf)]),
        forall|j: int| first_header(buf) <= j < first_end(buf) ==> !is_nal_start(buf, j),
        first_end(buf) < buf.len() ==> is_nal_start(buf, first_end(buf)),
{
    lemma_next_start(buf, 0);
    let start = first_header(buf);
    lemma_next_start(buf, start);
    assert(!is_nal_start(buf, start)) by {
        assert(0u8 & 0x1f == 0) by (bit_vector);
    }
}

/// The units of a buffer that holds one: the first, then the units of what
/// follows it, which are none where the first reaches the end of the buffer.
pub proof fn lemma_units_unfold(buf: Seq<u8>)
    requires
        has_nal(buf),
    ensures
        nal_units(buf) == seq![buf.subrange(first_header(buf), first_end(buf))] + nal_units(
            buf.subrange(first_end(buf), buf.len() as int),
        ),
        first_end(buf) == buf.len() ==> nal_units(buf.subrange(first_end(buf), buf.len() as int))
            == Seq::<Seq<u8>>::empty(),
{
}

/// A short buffer holds no unit: with four bytes or fewer there is no
/// position left at which the scanner looks.
pub proof fn lemma_short_buffer_has_no_nal(buf: Seq<u8>)
    requires
        buf.len() <= 4,
    ensures
        !has_nal(buf),
        nal_units(buf) == Seq::<Seq<u8>>::empty(),
        forall|i: int| !is_nal_start(buf, i),
{
}

/// Scanning what follows position `cut` finds what scanning the whole buffer
/// from `cut` on finds, `cut` positions earlier.
pub proof fn lemma_scan_suffix(buf: Seq<u8>, cut: int, i: int)
    requires
        0 <= cut <= buf.len(),
        0 <= i <= buf.len() - cut,
    ensures
        start_code_len(buf.subrange(cut, buf.len() as int), i) == start_code_len(buf, cut + i),
        is_nal_start(buf.subrange(cut, buf.len() as int), i) == is_nal_start(buf, cut + i),
        next_start(buf.subrange(cut, buf.len() as int), i) + cut == next_start(buf, cut + i),
    decreases buf.len() - cut - i,
{
    let rest = buf.subrange(cut, buf.len() as int);
    assert(start_code_len(rest, i) == start_code_len(buf, cut + i));
    if i + 4 < rest.len() && !is_nal_start(rest, i) {
        lemma_scan_suffix(buf, cut, i + 1);
    }
}

/// Repeated scanning yields the bytes between the positions of `nal_spans`:
/// the units of what follows `from` are the pieces of the buffer that the
/// spans from `from` on mark out, in the same order.
pub proof fn lemma_units_lie_at_spans(buf: Seq<u8>, from: int)
    requires
        0 <= from <= buf.len(),
    ensures
        nal_units(buf.subrange(from, buf.len() as int)).len() == nal_spans(buf, from).len(),
        forall|k: int|
            0 <= k < nal_spans(buf, from).len() ==> #[trigger] nal_units(
                buf.subrange(from, buf.len() as int),
            )[k] == buf.subrange(nal_spans(buf, from)[k].0, nal_spans(buf, from)[k].1),
    decreases buf.len() - from,
{
    let rest = buf.subrange(from, buf.len() as int);
    lemma_scan_suffix(buf, from, 0);
    if has_nal(rest) {
        lemma_first_nal_bounds(rest);
        let start = first_header(rest);
        let end = first_end(rest);
        lemma_scan_suffix(buf, from, next_start(rest, 0));
        lemma_scan_suffix(buf, from, start);
        lemma_units_lie_at_spans(buf, from + end);
        assert(rest.subrange(end, rest.len() as int) =~= buf.subrange(
            from + end,
            buf.len() as int,
        ));
        let units = nal_units(rest);
        let spans = nal_spans(buf, from);
        assert(spans == seq![(from + start, from + end)] + nal_spans(buf, from + end));
    }
}

/// The spans that scanning finds from `from` on mark out the units of the
/// buffer from there on.
pub proof fn lemma_spans_partition(buf: Seq<u8>, from: int)
    requires
        0 <= from <= buf.len(),
    ensures
        marks_out_units(buf, from, nal_spans(buf, from)),
    decreases buf.len() - from,
{
    let spans = nal_spans(buf, from);
    let at = next_start(buf, from);
    lemma_next_start(buf, from);
    if at < buf.len() {
        let start = at + start_code_len(buf, at);
        let end = next_start(buf, start);
        lemma_next_start(buf, start);
        assert(!is_nal_start(buf, start)) by {
            assert(buf[start] & 0x1f != 0);
            assert(0u8 & 0x1f == 0) by (bit_vector);
        }
        lemma_spans_partition(buf, end);
        let rest = nal_spans(buf, end);
        assert(spans == seq![(start, end)] + rest);
        if rest.len() > 0 {
            lemma_next_start(buf, end);
            assert(spans.last() == rest.last());
        }
        assert(is_unit_header(buf, start));
        assert forall|k: int| 0 <= k < spans.len() - 1 implies {
            &&& is_nal_start(buf, (#[trigger] spans[k]).1)
            &&& spans[k + 1].0 == spans[k].1 + start_code_len(buf, spans[k].1)
        } by {
            if k > 0 {
                assert(spans[k] == rest[k - 1]);
            }
        }
        assert forall|i: int| from <= i && #[trigger] is_nal_start(buf, i) implies exists|k: int|
            0 <= k < spans.len() && (#[trigger] spans[k]).0 == i + start_code_len(buf, i) by {
            if i < start {
                assert(spans[0].0 == i + start_code_len(buf, i));
            } else {
                let k = choose|k: int|
                    0 <= k < rest.len() && (#[trigger] rest[k]).0 == i + start_code_len(buf, i);
                assert(spans[k + 1] == rest[k]);
            }
        }
    }
}

/// Repeated scanning partitions the buffer.
///
/// Scanning a buffer, then what follows the unit found, and so on until no
/// unit is found, yields the buffer's units in their order: as many as the
/// buffer announces, each one the bytes from its header to the next
/// announcement or the end of the buffer, the start codes left out.
pub proof fn lemma_scanning_partitions(buf: Seq<u8>)
    ensures
        marks_out_units(buf, 0, nal_spans(buf, 0)),
        nal_units(buf).len() == nal_spans(buf, 0).len(),
        forall|k: int|
            0 <= k < nal_units(buf).len() ==> #[trigger] nal_units(buf)[k] == buf.subrange(
                nal_spans(buf, 0)[k].0,
                nal_spans(buf, 0)[k].1,
            ),
{
    lemma_spans_partition(buf, 0);
    lemma_units_lie_at_spans(buf, 0);
    assert(buf.subrange(0, buf.len() as int) =~= buf);
}

} // verus!
