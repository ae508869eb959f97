//! Strict text: UTF-8 validation that also rejects embedded zero bytes.
//!
//! A byte string crossing the C boundary is read by consumers that treat a
//! zero byte as a terminator, so a strict conversion to text must reject
//! zero bytes alongside malformed UTF-8. This module defines the spec-level
//! notion of strict text, an exact spec for the offset at which a
//! left-to-right scan first stops, and a verified scanner.

use vstd::prelude::*;
use vstd::utf8::*;

verus! {

/// `bytes` is strict text: a valid UTF-8 encoding containing no zero byte.
pub open spec fn is_valid_text(bytes: Seq<u8>) -> bool {
    valid_utf8(bytes) && (forall|k: int| 0 <= k < bytes.len() ==> bytes[k] != 0)
}

/// Offset at which a left-to-right scan of `bytes` first stops: either a
/// zero byte or the start of a byte sequence that is not a well-formed
/// scalar encoding. `-1` when the whole sequence is strict text.
pub open spec fn text_fault(bytes: Seq<u8>) -> int
    decreases bytes.len(),
{
    if bytes.len() == 0 {
        -1
    } else if bytes[0] == 0 || !valid_first_scalar(bytes) {
        0
    } else {
        let rest = text_fault(pop_first_scalar(bytes));
        if rest == -1 {
            -1
        } else {
            length_of_first_scalar(bytes) + rest
        }
    }
}

/// The scan runs to the end exactly on strict text, and otherwise stops at
/// a position inside the sequence.
pub proof fn lemma_text_fault(bytes: Seq<u8>)
    ensures
        (text_fault(bytes) == -1) <==> is_valid_text(bytes),
        text_fault(bytes) != -1 ==> 0 <= text_fault(bytes) < bytes.len(),
    decreases bytes.len(),
{
    if bytes.len() == 0 {
    } else if bytes[0] == 0 {
        assert(!is_valid_text(bytes));
    } else if !valid_first_scalar(bytes) {
        assert(!valid_utf8(bytes));
    } else {
        let l = length_of_first_scalar(bytes);
        let rest = pop_first_scalar(bytes);
        if is_leading_byte_width_1(bytes[0]) {
            assert(l == 1);
        } else if is_leading_byte_width_2(bytes[0]) {
            assert(l == 2 && bytes.len() >= 2 && is_continuation_byte(bytes[1]));
        } else if is_leading_byte_width_3(bytes[0]) {
            assert(l == 3 && bytes.len() >= 3 && is_continuation_byte(bytes[1])
                && is_continuation_byte(bytes[2]));
        } else {
            assert(l == 4 && bytes.len() >= 4 && is_continuation_byte(bytes[1])
                && is_continuation_byte(bytes[2]) && is_continuation_byte(bytes[3]));
        }
        assert(forall|j: int| 1 <= j < l ==> bytes[j] != 0);
        assert(rest.len() == bytes.len() - l);
        lemma_text_fault(rest);
        if text_fault(rest) == -1 {
            assert(forall|k: int| l <= k < bytes.len() ==> bytes[k] == rest[k - l]);
            assert(is_valid_text(bytes));
        } else {
            assert(text_fault(bytes) == l + text_fault(rest));
            if valid_utf8(rest) {
                // a zero byte inside `rest` is a zero byte inside `bytes`
                let k = choose|k: int| 0 <= k < rest.len() && rest[k] == 0;
                assert(bytes[k + l] == 0);
                assert(!is_valid_text(bytes));
            } else {
                assert(!valid_utf8(bytes));
            }
        }
    }
}

/// The scan only consumes strict text: everything before the stop offset
/// (or the whole sequence when there is none) is itself strict text.
pub proof fn lemma_text_fault_prefix(bytes: Seq<u8>)
    ensures
        text_fault(bytes) != -1 ==> is_valid_text(
            bytes.subrange(0, text_fault(bytes)),
        ),
    decreases bytes.len(),
{
    if bytes.len() == 0 || text_fault(bytes) == -1 {
    } else if bytes[0] == 0 || !valid_first_scalar(bytes) {
        assert(bytes.subrange(0, 0) =~= Seq::<u8>::empty());
        assert(is_valid_text(Seq::<u8>::empty()));
    } else {
        let l = length_of_first_scalar(bytes);
        let rest = pop_first_scalar(bytes);
        if is_leading_byte_width_1(bytes[0]) {
            assert(l == 1);
        } else if is_leading_byte_width_2(bytes[0]) {
            assert(l == 2 && bytes.len() >= 2 && is_continuation_byte(bytes[1]));
        } else if is_leading_byte_width_3(bytes[0]) {
            assert(l == 3 && bytes.len() >= 3 && is_continuation_byte(bytes[1])
                && is_continuation_byte(bytes[2]));
        } else {
            assert(l == 4 && bytes.len() >= 4 && is_continuation_byte(bytes[1])
                && is_continuation_byte(bytes[2]) && is_continuation_byte(bytes[3]));
        }
        lemma_text_fault(rest);
        lemma_text_fault_prefix(rest);
        let fr = text_fault(rest);
        assert(fr != -1);
        let f = l + fr;
        assert(text_fault(bytes) == f);
        let head = bytes.subrange(0, l);
        let mid = rest.subrange(0, fr);
        assert(is_valid_text(mid));
        assert(forall|j: int| 0 <= j < l ==> head[j] == bytes[j]);
        assert(valid_first_scalar(head)) by {
            assert(head[0] == bytes[0]);
            if l >= 2 {
                assert(head[1] == bytes[1]);
            }
            if l >= 3 {
                assert(head[2] == bytes[2]);
            }
            if l >= 4 {
                assert(head[3] == bytes[3]);
            }
        }
        assert(length_of_first_scalar(head) == l);
        assert(pop_first_scalar(head) =~= Seq::<u8>::empty());
        assert(valid_utf8(Seq::<u8>::empty()));
        assert(valid_utf8(head));
        valid_utf8_concat(head, mid);
        assert(bytes.subrange(0, f) =~= head + mid);
        assert forall|k: int| 0 <= k < f implies #[trigger] bytes.subrange(0, f)[k] != 0 by {
            if k < l {
                assert(bytes.subrange(0, f)[k] == bytes[k]);
                if k != 0 {
                    assert(is_continuation_byte(bytes[k]));
                }
            } else {
                assert(bytes.subrange(0, f)[k] == mid[k - l]);
            }
        }
        assert(is_valid_text(bytes.subrange(0, f)));
    }
}

// Bit-level bounds on the codepoint each byte pattern decodes to. The
// expressions mirror `codepoint_width_2/3/4` from vstd's UTF-8 theory.
proof fn bv_width1(b0: u8)
    by (bit_vector)
    ensures
        b0 <= 0x7f ==> (b0 & 0x7f) == b0,
{
}

proof fn bv_width2(b0: u8, b1: u8)
    by (bit_vector)
    ensures
        (0xc2 <= b0 && b0 <= 0xdf) ==> 0x80 <= ((((b0 & 0x1f) as u32) << 6) | ((b1
            & 0x3f) as u32)) <= 0x7ff,
        (0xc0 <= b0 && b0 <= 0xc1) ==> ((((b0 & 0x1f) as u32) << 6) | ((b1 & 0x3f) as u32))
            <= 0x7f,
{
}

proof fn bv_width3(b0: u8, b1: u8, b2: u8)
    by (bit_vector)
    ensures
        (b0 == 0xe0 && 0xa0 <= b1 && b1 <= 0xbf) ==> 0x800 <= (((((b0 & 0x0f) as u32) << 12) | (((
        b1 & 0x3f) as u32) << 6)) | ((b2 & 0x3f) as u32)) <= 0xfff,
        (0xe1 <= b0 && b0 <= 0xec) ==> (((((b0 & 0x0f) as u32) << 12) | (((b1
            & 0x3f) as u32) << 6)) | ((b2 & 0x3f) as u32)) <= 0xcfff,
        (0xe1 <= b0 && b0 <= 0xec) ==> 0x1000 <= (((((b0 & 0x0f) as u32) << 12) | (((b1
            & 0x3f) as u32) << 6)) | ((b2 & 0x3f) as u32)),
        (b0 == 0xed && 0x80 <= b1 && b1 <= 0x9f) ==> 0xd000 <= (((((b0 & 0x0f) as u32) << 12) | (((
        b1 & 0x3f) as u32) << 6)) | ((b2 & 0x3f) as u32)) <= 0xd7ff,
        (0xee <= b0 && b0 <= 0xef) ==> 0xe000 <= (((((b0 & 0x0f) as u32) << 12) | (((b1
            & 0x3f) as u32) << 6)) | ((b2 & 0x3f) as u32)) <= 0xffff,
        (b0 == 0xe0 && 0x80 <= b1 && b1 <= 0x9f) ==> (((((b0 & 0x0f) as u32) << 12) | (((b1
            & 0x3f) as u32) << 6)) | ((b2 & 0x3f) as u32)) <= 0x7ff,
        (b0 == 0xed && 0xa0 <= b1 && b1 <= 0xbf) ==> 0xd800 <= (((((b0 & 0x0f) as u32) << 12) | (((
        b1 & 0x3f) as u32) << 6)) | ((b2 & 0x3f) as u32)) <= 0xdfff,
{
}

proof fn bv_width4(b0: u8, b1: u8, b2: u8, b3: u8)
    by (bit_vector)
    ensures
        (b0 == 0xf0 && 0x90 <= b1 && b1 <= 0xbf) ==> 0x10000 <= ((((((b0 & 0x07) as u32) << 18) | (
        ((b1 & 0x3f) as u32) << 12)) | (((b2 & 0x3f) as u32) << 6)) | ((b3
            & 0x3f) as u32)) <= 0x3ffff,
        (0xf1 <= b0 && b0 <= 0xf3) ==> 0x40000 <= ((((((b0 & 0x07) as u32) << 18) | (((b1
            & 0x3f) as u32) << 12)) | (((b2 & 0x3f) as u32) << 6)) | ((b3
            & 0x3f) as u32)) <= 0xfffff,
        (b0 == 0xf4 && 0x80 <= b1 && b1 <= 0x8f) ==> 0x100000 <= ((((((b0 & 0x07) as u32) << 18) | (
        ((b1 & 0x3f) as u32) << 12)) | (((b2 & 0x3f) as u32) << 6)) | ((b3
            & 0x3f) as u32)) <= 0x10ffff,
        (b0 == 0xf0 && 0x80 <= b1 && b1 <= 0x8f) ==> ((((((b0 & 0x07) as u32) << 18) | (((b1
            & 0x3f) as u32) << 12)) | (((b2 & 0x3f) as u32) << 6)) | ((b3
            & 0x3f) as u32)) <= 0xffff,
        (b0 == 0xf4 && 0x90 <= b1 && b1 <= 0xbf) ==> 0x110000 <= ((((((b0 & 0x07) as u32) << 18)
            | (((b1
            & 0x3f) as u32) << 12)) | (((b2 & 0x3f) as u32) << 6)) | ((b3 & 0x3f) as u32)),
        (0xf5 <= b0 && b0 <= 0xf7) ==> 0x140000 <= ((((((b0 & 0x07) as u32) << 18) | (((b1
            & 0x3f) as u32) << 12)) | (((b2 & 0x3f) as u32) << 6)) | ((b3 & 0x3f) as u32)),
{
}

/// Allowed second byte of a three-byte encoding, given its leading byte:
/// the ranges that rule out overlong encodings and surrogates.
pub open spec fn second_byte_ok_3(b0: u8, b1: u8) -> bool {
    if b0 == 0xe0 {
        0xa0 <= b1 <= 0xbf
    } else if b0 == 0xed {
        0x80 <= b1 <= 0x9f
    } else {
        is_continuation_byte(b1)
    }
}

/// Allowed second byte of a four-byte encoding, given its leading byte:
/// the ranges that rule out overlong encodings and values above U+10FFFF.
pub open spec fn second_byte_ok_4(b0: u8, b1: u8) -> bool {
    if b0 == 0xf0 {
        0x90 <= b1 <= 0xbf
    } else if b0 == 0xf4 {
        0x80 <= b1 <= 0x8f
    } else {
        is_continuation_byte(b1)
    }
}

proof fn valid_step_1(suf: Seq<u8>)
    requires
        suf.len() >= 1,
        suf[0] <= 0x7f,
    ensures
        valid_first_scalar(suf),
        length_of_first_scalar(suf) == 1,
{
    bv_width1(suf[0]);
}

proof fn valid_step_2(suf: Seq<u8>)
    requires
        suf.len() >= 2,
        0xc2 <= suf[0] <= 0xdf,
        is_continuation_byte(suf[1]),
    ensures
        valid_first_scalar(suf),
        length_of_first_scalar(suf) == 2,
{
    bv_width2(suf[0], suf[1]);
    assert(decode_first_codepoint(suf) == codepoint_width_2(suf[0], suf[1]));
}

proof fn valid_step_3(suf: Seq<u8>)
    requires
        suf.len() >= 3,
        0xe0 <= suf[0] <= 0xef,
        second_byte_ok_3(suf[0], suf[1]),
        is_continuation_byte(suf[2]),
    ensures
        valid_first_scalar(suf),
        length_of_first_scalar(suf) == 3,
{
    bv_width3(suf[0], suf[1], suf[2]);
    assert(is_continuation_byte(suf[1]));
    assert(decode_first_codepoint(suf) == codepoint_width_3(suf[0], suf[1], suf[2]));
}

proof fn valid_step_4(suf: Seq<u8>)
    requires
        suf.len() >= 4,
        0xf0 <= suf[0] <= 0xf4,
        second_byte_ok_4(suf[0], suf[1]),
        is_continuation_byte(suf[2]),
        is_continuation_byte(suf[3]),
    ensures
        valid_first_scalar(suf),
        length_of_first_scalar(suf) == 4,
{
    bv_width4(suf[0], suf[1], suf[2], suf[3]);
    assert(is_continuation_byte(suf[1]));
    assert(decode_first_codepoint(suf) == codepoint_width_4(suf[0], suf[1], suf[2], suf[3]));
}

/// When the scanner's checks fail at the head of `suf`, no well-formed
/// scalar encoding starts there.
proof fn invalid_step(suf: Seq<u8>)
    requires
        suf.len() >= 1,
        ({
            let b0 = suf[0];
            ||| (0x80 <= b0 && b0 <= 0xc1)
            ||| (0xc2 <= b0 && b0 <= 0xdf && !(suf.len() >= 2 && is_continuation_byte(suf[1])))
            ||| (0xe0 <= b0 && b0 <= 0xef && !(suf.len() >= 3 && second_byte_ok_3(b0, suf[1])
                && is_continuation_byte(suf[2])))
            ||| (0xf0 <= b0 && b0 <= 0xf4 && !(suf.len() >= 4 && second_byte_ok_4(b0, suf[1])
                && is_continuation_byte(suf[2]) && is_continuation_byte(suf[3])))
            ||| 0xf5 <= b0
        }),
    ensures
        !valid_first_scalar(suf),
{
    let b0 = suf[0];
    if 0x80 <= b0 && b0 <= 0xbf {
        assert(!valid_leading_and_continuation_bytes_first_codepoint(suf));
    } else if 0xc0 <= b0 && b0 <= 0xc1 {
        if suf.len() >= 2 && is_continuation_byte(suf[1]) {
            bv_width2(b0, suf[1]);
            assert(decode_first_codepoint(suf) == codepoint_width_2(suf[0], suf[1]));
            assert(length_of_first_codepoint(suf) == 2);
            assert(!not_overlong_encoding(decode_first_codepoint(suf), 2));
        } else {
            assert(!valid_leading_and_continuation_bytes_first_codepoint(suf));
        }
    } else if 0xc2 <= b0 && b0 <= 0xdf {
        assert(!valid_leading_and_continuation_bytes_first_codepoint(suf));
    } else if 0xe0 <= b0 && b0 <= 0xef {
        if suf.len() >= 3 && is_continuation_byte(suf[1]) && is_continuation_byte(suf[2]) {
            bv_width3(b0, suf[1], suf[2]);
            assert(decode_first_codepoint(suf) == codepoint_width_3(suf[0], suf[1], suf[2]));
            assert(length_of_first_codepoint(suf) == 3);
            if b0 == 0xe0 {
                assert(suf[1] <= 0x9f);
                assert(!not_overlong_encoding(decode_first_codepoint(suf), 3));
            } else {
                assert(b0 == 0xed && 0xa0 <= suf[1]);
                assert(!not_surrogate(decode_first_codepoint(suf)));
            }
        } else {
            assert(!valid_leading_and_continuation_bytes_first_codepoint(suf));
        }
    } else if 0xf0 <= b0 && b0 <= 0xf4 {
        if suf.len() >= 4 && is_continuation_byte(suf[1]) && is_continuation_byte(suf[2])
            && is_continuation_byte(suf[3]) {
            bv_width4(b0, suf[1], suf[2], suf[3]);
            assert(decode_first_codepoint(suf) == codepoint_width_4(
                suf[0],
                suf[1],
                suf[2],
                suf[3],
            ));
            assert(length_of_first_codepoint(suf) == 4);
            if b0 == 0xf0 {
                assert(suf[1] <= 0x8f);
                assert(!not_overlong_encoding(decode_first_codepoint(suf), 4));
            } else {
                assert(b0 == 0xf4 && 0x90 <= suf[1]);
                assert(!not_overlong_encoding(decode_first_codepoint(suf), 4));
            }
        } else {
            assert(!valid_leading_and_continuation_bytes_first_codepoint(suf));
        }
    } else if 0xf5 <= b0 && b0 <= 0xf7 {
        if suf.len() >= 4 && is_continuation_byte(suf[1]) && is_continuation_byte(suf[2])
            && is_continuation_byte(suf[3]) {
            bv_width4(b0, suf[1], suf[2], suf[3]);
            assert(decode_first_codepoint(suf) == codepoint_width_4(
                suf[0],
                suf[1],
                suf[2],
                suf[3],
            ));
            assert(length_of_first_codepoint(suf) == 4);
            assert(!not_overlong_encoding(decode_first_codepoint(suf), 4));
        } else {
            assert(!valid_leading_and_continuation_bytes_first_codepoint(suf));
        }
    } else {
        assert(!valid_leading_and_continuation_bytes_first_codepoint(suf));
    }
}

/// Consuming one well-formed, non-zero scalar keeps the scan relation
/// between the whole sequence and the remaining suffix.
proof fn lemma_scan_step(s: Seq<u8>, i: int, l: int)
    requires
        0 <= i,
        0 < l,
        i + l <= s.len(),
        valid_first_scalar(s.skip(i)),
        length_of_first_scalar(s.skip(i)) == l,
        s[i] != 0,
        text_fault(s.skip(i)) == -1 ==> text_fault(s) == -1,
        text_fault(s.skip(i)) != -1 ==> text_fault(s) == i + text_fault(s.skip(i)),
    ensures
        text_fault(s.skip(i + l)) == -1 ==> text_fault(s) == -1,
        text_fault(s.skip(i + l)) != -1 ==> text_fault(s) == i + l + text_fault(s.skip(i + l)),
{
    let suf = s.skip(i);
    lemma_text_fault(s.skip(i + l));
    assert(suf[0] == s[i]);
    assert(pop_first_scalar(suf) =~= s.skip(i + l));
    assert(text_fault(suf) == (if text_fault(s.skip(i + l)) == -1 {
        -1
    } else {
        l + text_fault(s.skip(i + l))
    }));
}

/// When the scan stops at `i`, the stop offset of the whole sequence is `i`.
proof fn lemma_scan_stop(s: Seq<u8>, i: int)
    requires
        0 <= i < s.len(),
        s[i] == 0 || !valid_first_scalar(s.skip(i)),
        text_fault(s.skip(i)) != -1 ==> text_fault(s) == i + text_fault(s.skip(i)),
    ensures
        text_fault(s) == i,
{
    let suf = s.skip(i);
    assert(suf.len() > 0);
    assert(suf[0] == s[i]);
    assert(text_fault(suf) == 0);
}

fn is_cont(b: u8) -> (r: bool)
    ensures
        r == is_continuation_byte(b),
{
    0x80 <= b && b <= 0xbf
}

fn second_ok_3(b0: u8, b1: u8) -> (r: bool)
    ensures
        r == second_byte_ok_3(b0, b1),
{
    if b0 == 0xe0 {
        0xa0 <= b1 && b1 <= 0xbf
    } else if b0 == 0xed {
        0x80 <= b1 && b1 <= 0x9f
    } else {
        0x80 <= b1 && b1 <= 0xbf
    }
}

fn second_ok_4(b0: u8, b1: u8) -> (r: bool)
    ensures
        r == second_byte_ok_4(b0, b1),
{
    if b0 == 0xf0 {
        0x90 <= b1 && b1 <= 0xbf
    } else if b0 == 0xf4 {
        0x80 <= b1 && b1 <= 0x8f
    } else {
        0x80 <= b1 && b1 <= 0xbf
    }
}

/// Scans `bytes` left to right and reports the offset at which it first
/// stops, or `None` when the whole slice is strict text.
pub fn scan_text(bytes: &[u8]) -> (r: Option<usize>)
    ensures
        r is None <==> is_valid_text(bytes@),
        r matches Some(off) ==> off < bytes@.len() && off as int == text_fault(bytes@),
{
    let ghost s = bytes@;
    let n: usize = bytes.len();
    let mut i: usize = 0;
    proof {
        assert(s.skip(0) =~= s);
    }
    while i < n
        invariant
            i <= n,
            n == s.len(),
            s == bytes@,
            text_fault(s.skip(i as int)) == -1 ==> text_fault(s) == -1,
            text_fault(s.skip(i as int)) != -1 ==> text_fault(s) == i + text_fault(
                s.skip(i as int),
            ),
        decreases n - i,
    {
        let b0 = bytes[i];
        let rem = n - i;
        let ghost suf = s.skip(i as int);
        proof {
            assert(suf.len() == n - i);
            assert(suf[0] == s[i as int]);
        }
        if b0 == 0 {
            proof {
                lemma_scan_stop(s, i as int);
                lemma_text_fault(s);
            }
            return Some(i);
        } else if b0 < 0x80 {
            proof {
                valid_step_1(suf);
                lemma_scan_step(s, i as int, 1);
            }
            i = i + 1;
        } else if b0 < 0xc2 {
            proof {
                invalid_step(suf);
                lemma_scan_stop(s, i as int);
                lemma_text_fault(s);
            }
            return Some(i);
        } else if b0 < 0xe0 {
            if rem >= 2 && is_cont(bytes[i + 1]) {
                proof {
                    assert(suf[1] == s[i as int + 1]);
                    valid_step_2(suf);
                    lemma_scan_step(s, i as int, 2);
                }
                i = i + 2;
            } else {
                proof {
                    if suf.len() >= 2 {
                        assert(suf[1] == s[i as int + 1]);
                    }
                    invalid_step(suf);
                    lemma_scan_stop(s, i as int);
                    lemma_text_fault(s);
                }
                return Some(i);
            }
        } else if b0 < 0xf0 {
            if rem >= 3 && second_ok_3(b0, bytes[i + 1]) && is_cont(bytes[i + 2]) {
                proof {
                    assert(suf[1] == s[i as int + 1]);
                    assert(suf[2] == s[i as int + 2]);
                    valid_step_3(suf);
                    lemma_scan_step(s, i as int, 3);
                }
                i = i + 3;
            } else {
                proof {
                    if suf.len() >= 2 {
                        assert(suf[1] == s[i as int + 1]);
                    }
                    if suf.len() >= 3 {
                        assert(suf[2] == s[i as int + 2]);
                    }
                    invalid_step(suf);
                    lemma_scan_stop(s, i as int);
                    lemma_text_fault(s);
                }
                return Some(i);
            }
        } else if b0 < 0xf5 {
            if rem >= 4 && second_ok_4(b0, bytes[i + 1]) && is_cont(bytes[i + 2]) && is_cont(
                bytes[i + 3],
            ) {
                proof {
                    assert(suf[1] == s[i as int + 1]);
                    assert(suf[2] == s[i as int + 2]);
                    assert(suf[3] == s[i as int + 3]);
                    valid_step_4(suf);
                    lemma_scan_step(s, i as int, 4);
                }
                i = i + 4;
            } else {
                proof {
                    if suf.len() >= 2 {
                        assert(suf[1] == s[i as int + 1]);
                    }
                    if suf.len() >= 3 {
                        assert(suf[2] == s[i as int + 2]);
                    }
                    if suf.len() >= 4 {
                        assert(suf[3] == s[i as int + 3]);
                    }
                    invalid_step(suf);
                    lemma_scan_stop(s, i as int);
                    lemma_text_fault(s);
                }
                return Some(i);
            }
        } else {
            proof {
                if suf.len() >= 2 {
                    assert(suf[1] == s[i as int + 1]);
                }
                if suf.len() >= 3 {
                    assert(suf[2] == s[i as int + 2]);
                }
                if suf.len() >= 4 {
                    assert(suf[3] == s[i as int + 3]);
                }
                invalid_step(suf);
                lemma_scan_stop(s, i as int);
                lemma_text_fault(s);
            }
            return Some(i);
        }
    }
    proof {
        assert(s.skip(n as int) =~= Seq::<u8>::empty());
        assert(text_fault(Seq::<u8>::empty()) == -1);
        lemma_text_fault(s);
    }
    None
}

/// Width and continuation facts for a well-formed first scalar.
proof fn lemma_first_scalar_shape(bytes: Seq<u8>)
    requires
        valid_first_scalar(bytes),
    ensures
        1 <= length_of_first_scalar(bytes) <= 4,
        length_of_first_scalar(bytes) <= bytes.len(),
        forall|j: int| 1 <= j < length_of_first_scalar(bytes) ==> is_continuation_byte(bytes[j]),
{
    if is_leading_byte_width_1(bytes[0]) {
    } else if is_leading_byte_width_2(bytes[0]) {
        assert(is_continuation_byte(bytes[1]));
    } else if is_leading_byte_width_3(bytes[0]) {
        assert(is_continuation_byte(bytes[1]) && is_continuation_byte(bytes[2]));
    } else {
        assert(is_continuation_byte(bytes[1]) && is_continuation_byte(bytes[2])
            && is_continuation_byte(bytes[3]));
    }
}

/// A well-formed first scalar depends only on its own bytes: it transfers
/// to any sequence that starts with the same bytes.
proof fn lemma_first_scalar_transfer(a: Seq<u8>, b: Seq<u8>)
    requires
        valid_first_scalar(a),
        length_of_first_scalar(a) <= b.len(),
        forall|j: int| 0 <= j < length_of_first_scalar(a) ==> b[j] == a[j],
    ensures
        valid_first_scalar(b),
        length_of_first_scalar(b) == length_of_first_scalar(a),
        decode_first_scalar(b) == decode_first_scalar(a),
{
    lemma_first_scalar_shape(a);
    assert(b[0] == a[0]);
    if length_of_first_scalar(a) >= 2 {
        assert(b[1] == a[1]);
    }
    if length_of_first_scalar(a) >= 3 {
        assert(b[2] == a[2]);
    }
    if length_of_first_scalar(a) >= 4 {
        assert(b[3] == a[3]);
    }
}

/// Length of the maximal ill-formed subpart at the head of `bytes`: the
/// leading byte together with the continuation bytes that still fit the
/// pattern of a longer encoding. A zero byte, a stray continuation byte
/// and a byte that can lead no encoding stand alone.
pub open spec fn fault_len(bytes: Seq<u8>) -> int
    recommends
        bytes.len() > 0,
{
    let b0 = bytes[0];
    if 0xe0 <= b0 <= 0xef {
        if bytes.len() >= 2 && second_byte_ok_3(b0, bytes[1]) {
            2
        } else {
            1
        }
    } else if 0xf0 <= b0 <= 0xf4 {
        if bytes.len() >= 2 && second_byte_ok_4(b0, bytes[1]) {
            if bytes.len() >= 3 && is_continuation_byte(bytes[2]) {
                3
            } else {
                2
            }
        } else {
            1
        }
    } else {
        1
    }
}

/// Computes [`fault_len`] for the suffix of `bytes` starting at `at`.
pub fn fault_width(bytes: &[u8], at: usize) -> (w: usize)
    requires
        at < bytes@.len(),
    ensures
        w as int == fault_len(bytes@.skip(at as int)),
        1 <= w,
        at + w <= bytes@.len(),
{
    let ghost suf = bytes@.skip(at as int);
    let n = bytes.len();
    let b0 = bytes[at];
    proof {
        assert(suf[0] == bytes@[at as int]);
        if at as int + 1 < n as int {
            assert(suf[1] == bytes@[at as int + 1]);
        }
        if at as int + 2 < n as int {
            assert(suf[2] == bytes@[at as int + 2]);
        }
    }
    if 0xe0 <= b0 && b0 <= 0xef {
        if at + 1 < n && second_ok_3(b0, bytes[at + 1]) {
            2
        } else {
            1
        }
    } else if 0xf0 <= b0 && b0 <= 0xf4 {
        if at + 1 < n && second_ok_4(b0, bytes[at + 1]) {
            if at + 2 < n && is_cont(bytes[at + 2]) {
                3
            } else {
                2
            }
        } else {
            1
        }
    } else {
        1
    }
}

/// The characters of `bytes` under lossy decoding: each well-formed,
/// non-zero scalar encoding decodes to its character, and each maximal
/// ill-formed subpart, each embedded zero byte included, is replaced by
/// one U+FFFD.
pub open spec fn lossy_chars(bytes: Seq<u8>) -> Seq<char>
    decreases bytes.len(),
{
    if bytes.len() == 0 {
        Seq::<char>::empty()
    } else if bytes[0] != 0 && valid_first_scalar(bytes) {
        seq![decode_first_scalar(bytes) as char] + lossy_chars(pop_first_scalar(bytes))
    } else {
        seq!['\u{fffd}'] + lossy_chars(bytes.skip(fault_len(bytes)))
    }
}

/// On strict text, lossy decoding is exactly strict decoding.
pub proof fn lemma_lossy_valid(bytes: Seq<u8>)
    requires
        is_valid_text(bytes),
    ensures
        lossy_chars(bytes) == decode_utf8(bytes),
    decreases bytes.len(),
{
    if bytes.len() == 0 {
    } else {
        let l = length_of_first_scalar(bytes);
        let rest = pop_first_scalar(bytes);
        lemma_first_scalar_shape(bytes);
        assert(forall|k: int| 0 <= k < rest.len() ==> rest[k] == bytes[k + l]);
        assert(is_valid_text(rest));
        lemma_lossy_valid(rest);
    }
}

/// Lossy decoding around the first scan stop: the strict-text prefix
/// decodes strictly, the maximal ill-formed subpart at the stop becomes
/// one U+FFFD, and lossy decoding continues after that subpart.
pub proof fn lemma_lossy_fault(bytes: Seq<u8>)
    requires
        text_fault(bytes) != -1,
    ensures
        ({
            let f = text_fault(bytes);
            let w = fault_len(bytes.skip(f));
            lossy_chars(bytes) == decode_utf8(bytes.take(f)) + seq!['\u{fffd}'] + lossy_chars(
                bytes.skip(f + w),
            )
        }),
    decreases bytes.len(),
{
    lemma_text_fault(bytes);
    let f = text_fault(bytes);
    let w = fault_len(bytes.skip(f));
    if bytes[0] == 0 || !valid_first_scalar(bytes) {
        assert(f == 0);
        assert(bytes.skip(0) =~= bytes);
        assert(w == fault_len(bytes));
        assert(bytes.take(0) =~= Seq::<u8>::empty());
        assert(decode_utf8(Seq::<u8>::empty()) =~= Seq::<char>::empty());
        assert(decode_utf8(bytes.take(0)) + seq!['\u{fffd}'] + lossy_chars(bytes.skip(0 + w))
            =~= seq!['\u{fffd}'] + lossy_chars(bytes.skip(fault_len(bytes))));
    } else {
        let l = length_of_first_scalar(bytes);
        let rest = pop_first_scalar(bytes);
        lemma_first_scalar_shape(bytes);
        let fr = text_fault(rest);
        assert(fr != -1);
        assert(f == l + fr);
        lemma_text_fault(rest);
        lemma_lossy_fault(rest);
        assert(bytes.skip(f) =~= rest.skip(fr));
        assert(w == fault_len(rest.skip(fr)));
        let c = decode_first_scalar(bytes) as char;
        let pre = bytes.take(f);
        assert(forall|j: int| 0 <= j < l ==> pre[j] == bytes[j]);
        lemma_first_scalar_transfer(bytes, pre);
        lemma_text_fault_prefix(bytes);
        assert(valid_utf8(pre));
        assert(decode_utf8(pre) == seq![decode_first_scalar(pre) as char] + decode_utf8(
            pop_first_scalar(pre),
        ));
        assert(pop_first_scalar(pre) =~= rest.take(fr));
        assert(bytes.skip(f + w) =~= rest.skip(fr + w));
        assert(lossy_chars(bytes) == seq![c] + lossy_chars(rest));
        assert(lossy_chars(rest) == decode_utf8(rest.take(fr)) + seq!['\u{fffd}'] + lossy_chars(
            rest.skip(fr + w),
        ));
        assert(seq![c] + (decode_utf8(rest.take(fr)) + seq!['\u{fffd}'] + lossy_chars(
            rest.skip(fr + w),
        )) =~= (seq![c] + decode_utf8(rest.take(fr))) + seq!['\u{fffd}'] + lossy_chars(
            rest.skip(fr + w),
        ));
        assert(decode_utf8(pre) =~= seq![c] + decode_utf8(rest.take(fr)));
    }
}

/// UTF-8 encoding distributes over concatenation of character sequences.
pub proof fn lemma_encode_utf8_concat(a: Seq<char>, b: Seq<char>)
    ensures
        encode_utf8(a + b) == encode_utf8(a) + encode_utf8(b),
    decreases a.len(),
{
    if a.len() == 0 {
        assert(a + b =~= b);
        assert(encode_utf8(a) =~= Seq::<u8>::empty());
        assert(encode_utf8(a) + encode_utf8(b) =~= encode_utf8(b));
    } else {
        assert((a + b)[0] == a[0]);
        assert((a + b).len() != 0);
        assert((a + b).drop_first() =~= a.drop_first() + b);
        lemma_encode_utf8_concat(a.drop_first(), b);
        assert(encode_scalar(a[0] as u32) + (encode_utf8(a.drop_first()) + encode_utf8(b)) =~= (
        encode_scalar(a[0] as u32) + encode_utf8(a.drop_first())) + encode_utf8(b));
    }
}

proof fn bv_fffd(s: u32)
    by (bit_vector)
    requires
        s == 0xfffd,
    ensures
        (0xE0 | ((s >> 12) & 0x0F) as u8) == 0xef,
        (0x80 | ((s >> 6) & 0x3F) as u8) == 0xbf,
        (0x80 | (s & 0x3F) as u8) == 0xbd,
{
}

/// The UTF-8 encoding of the replacement character U+FFFD.
pub proof fn lemma_fffd()
    ensures
        encode_utf8(seq!['\u{fffd}']) == seq![0xefu8, 0xbfu8, 0xbdu8],
{
    let c = '\u{fffd}';
    let s = c as u32;
    assert(s == 0xfffd);
    bv_fffd(s);
    assert(seq![c].drop_first() =~= Seq::<char>::empty());
    assert(encode_utf8(Seq::<char>::empty()) =~= Seq::<u8>::empty());
    assert(encode_utf8(seq![c]) =~= encode_scalar(s));
    assert(encode_scalar(s) =~= seq![0xefu8, 0xbfu8, 0xbdu8]);
}

/// Relies on std's `str::from_utf8`: it succeeds exactly when the input is
/// valid UTF-8, and the returned slice borrows the input bytes unchanged.
#[verifier::external_body]
pub(crate) fn bytes_as_str(bytes: &[u8]) -> (r: Option<&str>)
    ensures
        r is Some <==> valid_utf8(bytes@),
        r matches Some(s) ==> encode_utf8(s@) == bytes@,
{
    std::str::from_utf8(bytes).ok()
}

} // verus!
