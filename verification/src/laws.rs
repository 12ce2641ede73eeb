//! What holds of the codec as a whole: how checking and parsing agree, that a
//! frame read takes bytes, and that what was written is read back.

use crate::connection::{line_break, spec_encode, spec_encode_items};
use crate::decimal::{
    all_digits, decimal_digits, is_digit, lemma_decimal_digits, lemma_digits_parse,
};
use crate::frame::{
    lemma_line_end, lemma_parse_bounds, line_end, null_length, spec_check, spec_check_items,
    spec_decimal_line, spec_length_line, spec_parse, spec_parse_items, FrameView, Outcome, CR, LF,
    TAG_ARRAY, TAG_BULK, TAG_ERROR, TAG_INTEGER, TAG_SIMPLE,
};
use vstd::prelude::*;
use vstd::utf8::{encode_utf8, encode_utf8_decode_utf8, encode_utf8_valid_utf8};

verus! {

/// Where an outcome ends, without its value.
pub open spec fn end_of<T>(outcome: Outcome<T>) -> Outcome<()> {
    match outcome {
        Outcome::Complete(_, end) => Outcome::Complete((), end),
        Outcome::Incomplete => Outcome::Incomplete,
        Outcome::Protocol => Outcome::Protocol,
    }
}

/// How the outcome of a check and the outcome of a parse of the same bytes
/// stand to each other: unless the parse rejects the bytes, the check comes
/// to the same outcome and ends at the same place; and what the check
/// rejects, the parse rejects.
pub open spec fn check_agrees<T>(checked: Outcome<()>, parsed: Outcome<T>) -> bool {
    &&& !(parsed is Protocol) ==> checked == end_of(parsed)
    &&& checked is Protocol ==> parsed is Protocol
}

/// Checking and parsing the same bytes from the same place agree.
///
/// Both give a frame that ends at the same place, or both fail alike, but
/// for this: a text that is not UTF-8, and a line that starts like the one of
/// a null and is not `-1`, pass the check and are rejected by the parse. So
/// after a check that succeeded, the parse never asks for more bytes.
pub proof fn law_check_then_parse(s: Seq<u8>, pos: int)
    ensures
        check_agrees(spec_check(s, pos), spec_parse(s, pos)),
        spec_check(s, pos) is Complete ==> !(spec_parse(s, pos) is Incomplete),
    decreases s.len() - pos, 0nat,
{
    if 0 <= pos < s.len() {
        lemma_line_end(s, pos + 1);
        if s[pos] == TAG_ARRAY {
            if let Outcome::Complete(n, start) = spec_length_line(s, pos + 1) {
                law_check_then_parse_items(s, start, n);
            }
        }
    }
}

/// Checking and parsing the same run of frames agree.
pub proof fn law_check_then_parse_items(s: Seq<u8>, pos: int, count: nat)
    ensures
        check_agrees(spec_check_items(s, pos, count), spec_parse_items(s, pos, count)),
    decreases s.len() - pos, count + 1,
{
    if count > 0 {
        law_check_then_parse(s, pos);
        if let Outcome::Complete(_, next) = spec_check(s, pos) {
            if pos < next <= s.len() {
                law_check_then_parse_items(s, next, (count - 1) as nat);
            }
        }
    }
}

/// A frame that is read takes at least one byte, and none from beyond the
/// buffer: reading frame after frame from a buffer comes to an end.
pub proof fn law_parse_advances(s: Seq<u8>, pos: int)
    ensures
        spec_parse(s, pos) matches Outcome::Complete(_, end) ==> pos < end <= s.len(),
{
    lemma_parse_bounds(s, pos);
}

/// Whether `bytes` holds a line break: a CR with an LF right after it.
pub open spec fn holds_line_break(bytes: Seq<u8>) -> bool {
    exists|i: int| 0 <= i && i + 1 < bytes.len() && bytes[i] == CR && #[trigger] bytes[i + 1] == LF
}

/// Whether `frame` can go over the wire and come back: its texts hold no line
/// break, and its lengths are such as a `usize` can hold.
pub open spec fn encodable(frame: FrameView) -> bool
    decreases frame,
{
    match frame {
        FrameView::Simple(text) => !holds_line_break(encode_utf8(text)),
        FrameView::Error(text) => !holds_line_break(encode_utf8(text)),
        FrameView::Integer(_) => true,
        FrameView::Bulk(data) => data.len() <= usize::MAX,
        FrameView::Null => true,
        FrameView::Array(items) => items.len() <= usize::MAX && forall|i: int|
            0 <= i < items.len() ==> encodable(#[trigger] items[i]),
    }
}

/// Whether the bytes of `part` stand in `s` from position `pos` on.
pub open spec fn has_at(s: Seq<u8>, pos: int, part: Seq<u8>) -> bool {
    0 <= pos && pos + part.len() <= s.len() && s.subrange(pos, pos + part.len()) == part
}

/// Where two parts stand one after the other, each of them stands there.
proof fn lemma_has_at_split(s: Seq<u8>, pos: int, a: Seq<u8>, b: Seq<u8>)
    requires
        has_at(s, pos, a + b),
    ensures
        has_at(s, pos, a),
        has_at(s, pos + a.len(), b),
{
    let whole = s.subrange(pos, pos + (a + b).len());
    assert(s.subrange(pos, pos + a.len()) =~= a) by {
        assert forall|i: int| 0 <= i < a.len() implies s.subrange(pos, pos + a.len())[i]
            == a[i] by {
            assert(whole[i] == (a + b)[i]);
        }
    }
    assert(s.subrange(pos + a.len(), pos + a.len() + b.len()) =~= b) by {
        assert forall|i: int| 0 <= i < b.len() implies s.subrange(
            pos + a.len(),
            pos + a.len() + b.len(),
        )[i] == b[i] by {
            assert(whole[a.len() + i] == (a + b)[a.len() + i]);
        }
    }
}

/// What stands at a place holds, byte for byte, what `s` holds there.
proof fn lemma_has_at_index(s: Seq<u8>, pos: int, part: Seq<u8>, i: int)
    requires
        has_at(s, pos, part),
        0 <= i < part.len(),
    ensures
        s[pos + i] == part[i],
{
    assert(s.subrange(pos, pos + part.len())[i] == part[i]);
}

/// A line without a line break in it, followed by one, ends at that one.
proof fn lemma_line_found(s: Seq<u8>, from: int, line: Seq<u8>)
    requires
        has_at(s, from, line + line_break()),
        !holds_line_break(line),
    ensures
        line_end(s, from) == Some(from + line.len()),
        s.subrange(from, from + line.len()) == line,
        from + line.len() + 2 <= s.len(),
    decreases line.len(),
{
    lemma_has_at_split(s, from, line, line_break());
    lemma_has_at_index(s, from + line.len(), line_break(), 0);
    lemma_has_at_index(s, from + line.len(), line_break(), 1);
    if line.len() == 0 {
    } else {
        lemma_has_at_index(s, from, line, 0);
        if line.len() >= 2 {
            lemma_has_at_index(s, from, line, 1);
            assert(!(line[0] == CR && line[0int + 1] == LF));
        }
        let rest = line.drop_first();
        assert(!holds_line_break(rest)) by {
            if holds_line_break(rest) {
                let i = choose|i: int|
                    0 <= i && i + 1 < rest.len() && rest[i] == CR && #[trigger] rest[i + 1] == LF;
                assert(line[i + 1] == CR && line[(i + 1) + 1] == LF);
            }
        }
        assert(has_at(s, from + 1, rest + line_break())) by {
            let whole = s.subrange(from, from + (line + line_break()).len());
            assert(s.subrange(from + 1, from + 1 + (rest + line_break()).len()) =~= rest
                + line_break()) by {
                assert forall|i: int| 0 <= i < (rest + line_break()).len() implies s.subrange(
                    from + 1,
                    from + 1 + (rest + line_break()).len(),
                )[i] == (rest + line_break())[i] by {
                    assert(whole[i + 1] == (line + line_break())[i + 1]);
                }
            }
        }
        lemma_line_found(s, from + 1, rest);
    }
}

/// Digits hold no line break.
proof fn lemma_digits_hold_no_line_break(digits: Seq<u8>)
    requires
        all_digits(digits),
    ensures
        !holds_line_break(digits),
{
    if holds_line_break(digits) {
        let i = choose|i: int|
            0 <= i && i + 1 < digits.len() && digits[i] == CR && #[trigger] digits[i + 1] == LF;
        assert(is_digit(digits[i + 1]));
    }
}

/// The line that holds the digits of `v` is read as `v`.
proof fn lemma_decimal_line_found(s: Seq<u8>, from: int, v: u64)
    requires
        has_at(s, from, decimal_digits(v as nat) + line_break()),
    ensures
        spec_decimal_line(s, from) == Outcome::Complete(
            v,
            from + decimal_digits(v as nat).len() + 2,
        ),
        from + decimal_digits(v as nat).len() + 2 <= s.len(),
        is_digit(s[from]),
{
    let digits = decimal_digits(v as nat);
    lemma_decimal_digits(v as nat);
    lemma_digits_parse(v);
    lemma_digits_hold_no_line_break(digits);
    lemma_line_found(s, from, digits);
    lemma_has_at_split(s, from, digits, line_break());
    lemma_has_at_index(s, from, digits, 0);
}

/// A frame that can go over the wire is read back from where its bytes
/// stand, whatever stands before and after them.
pub proof fn lemma_round_trip(frame: FrameView, s: Seq<u8>, pos: int)
    requires
        encodable(frame),
        has_at(s, pos, spec_encode(frame)),
    ensures
        spec_parse(s, pos) == Outcome::Complete(frame, pos + spec_encode(frame).len()),
    decreases frame, 0nat,
{
    let bytes = spec_encode(frame);
    match frame {
        FrameView::Simple(text) => {
            let line = encode_utf8(text);
            assert(bytes =~= seq![TAG_SIMPLE] + (line + line_break()));
            lemma_has_at_split(s, pos, seq![TAG_SIMPLE], line + line_break());
            lemma_has_at_index(s, pos, seq![TAG_SIMPLE], 0);
            lemma_line_found(s, pos + 1, line);
            encode_utf8_valid_utf8(text);
            encode_utf8_decode_utf8(text);
        },
        FrameView::Error(text) => {
            let line = encode_utf8(text);
            assert(bytes =~= seq![TAG_ERROR] + (line + line_break()));
            lemma_has_at_split(s, pos, seq![TAG_ERROR], line + line_break());
            lemma_has_at_index(s, pos, seq![TAG_ERROR], 0);
            lemma_line_found(s, pos + 1, line);
            encode_utf8_valid_utf8(text);
            encode_utf8_decode_utf8(text);
        },
        FrameView::Integer(v) => {
            let digits = decimal_digits(v as nat);
            assert(bytes =~= seq![TAG_INTEGER] + (digits + line_break()));
            lemma_has_at_split(s, pos, seq![TAG_INTEGER], digits + line_break());
            lemma_has_at_index(s, pos, seq![TAG_INTEGER], 0);
            lemma_decimal_line_found(s, pos + 1, v);
        },
        FrameView::Bulk(data) => {
            let n = data.len() as u64;
            let digits = decimal_digits(data.len());
            assert(bytes =~= seq![TAG_BULK] + ((digits + line_break()) + (data + line_break())));
            lemma_has_at_split(
                s,
                pos,
                seq![TAG_BULK],
                (digits + line_break()) + (data + line_break()),
            );
            lemma_has_at_index(s, pos, seq![TAG_BULK], 0);
            lemma_has_at_split(s, pos + 1, digits + line_break(), data + line_break());
            lemma_decimal_line_found(s, pos + 1, n);
            let start = pos + 1 + digits.len() + 2;
            lemma_has_at_split(s, start, data, line_break());
        },
        FrameView::Null => {
            assert(bytes =~= seq![TAG_BULK] + (null_length() + line_break()));
            lemma_has_at_split(s, pos, seq![TAG_BULK], null_length() + line_break());
            lemma_has_at_index(s, pos, seq![TAG_BULK], 0);
            assert(!holds_line_break(null_length()));
            lemma_line_found(s, pos + 1, null_length());
            lemma_has_at_split(s, pos + 1, null_length(), line_break());
            lemma_has_at_index(s, pos + 1, null_length(), 0);
        },
        FrameView::Array(items) => {
            let n = items.len() as u64;
            let digits = decimal_digits(items.len());
            let body = spec_encode_items(items, 0);
            assert(bytes =~= seq![TAG_ARRAY] + ((digits + line_break()) + body));
            lemma_has_at_split(s, pos, seq![TAG_ARRAY], (digits + line_break()) + body);
            lemma_has_at_index(s, pos, seq![TAG_ARRAY], 0);
            lemma_has_at_split(s, pos + 1, digits + line_break(), body);
            lemma_decimal_line_found(s, pos + 1, n);
            let start = pos + 1 + digits.len() + 2;
            lemma_round_trip_items(items, 0, s, start);
            assert(items.subrange(0, items.len() as int) =~= items);
        },
    }
}

/// Frames that can go over the wire are read back, one after the other, from
/// where their bytes stand.
pub proof fn lemma_round_trip_items(items: Seq<FrameView>, from: nat, s: Seq<u8>, pos: int)
    requires
        from <= items.len(),
        forall|i: int| 0 <= i < items.len() ==> encodable(#[trigger] items[i]),
        has_at(s, pos, spec_encode_items(items, from)),
    ensures
        spec_parse_items(s, pos, (items.len() - from) as nat) == Outcome::Complete(
            items.subrange(from as int, items.len() as int),
            pos + spec_encode_items(items, from).len(),
        ),
    decreases items, items.len() - from,
{
    if from >= items.len() {
        assert(items.subrange(from as int, items.len() as int) =~= Seq::<FrameView>::empty());
    } else {
        let first = items[from as int];
        let head = spec_encode(first);
        let tail = spec_encode_items(items, from + 1);
        lemma_has_at_split(s, pos, head, tail);
        lemma_round_trip(first, s, pos);
        lemma_parse_bounds(s, pos);
        lemma_round_trip_items(items, from + 1, s, pos + head.len());
        assert(seq![first] + items.subrange(from as int + 1, items.len() as int) =~= items.subrange(
            from as int,
            items.len() as int,
        ));
    }
}

/// Writing a frame and reading what was written gives the frame back, and
/// the reading ends where the writing ended.
///
/// This holds of every frame whose texts hold no line break; a text with one
/// is cut short at it when it is read back.
pub proof fn law_encode_then_parse(frame: FrameView)
    requires
        encodable(frame),
    ensures
        spec_parse(spec_encode(frame), 0) == Outcome::Complete(
            frame,
            spec_encode(frame).len() as int,
        ),
{
    let bytes = spec_encode(frame);
    assert(bytes.subrange(0, bytes.len() as int) =~= bytes);
    lemma_round_trip(frame, bytes, 0);
}

} // verus!
