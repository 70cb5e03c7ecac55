//! Where UTF-8 validation stops: the valid prefix of a byte string and the
//! length of the invalid sequence after it, as `std::str::Utf8Error` reports
//! them through `valid_up_to` and `error_len`.
use vstd::prelude::*;
use vstd::utf8::*;

verus! {

/// The byte is a UTF-8 continuation byte, `10xxxxxx`.
pub open spec fn is_cont(b: u8) -> bool {
    0x80 <= b && b <= 0xBF
}

/// The first two bytes can begin the encoding of a 3-byte scalar: neither an
/// overlong form nor a surrogate.
pub open spec fn second_ok_3(b0: u8, b1: u8) -> bool {
    ||| b0 == 0xE0 && 0xA0 <= b1 && b1 <= 0xBF
    ||| 0xE1 <= b0 && b0 <= 0xEC && is_cont(b1)
    ||| b0 == 0xED && 0x80 <= b1 && b1 <= 0x9F
    ||| 0xEE <= b0 && b0 <= 0xEF && is_cont(b1)
}

/// The first two bytes can begin the encoding of a 4-byte scalar: neither an
/// overlong form nor above U+10FFFF.
pub open spec fn second_ok_4(b0: u8, b1: u8) -> bool {
    ||| b0 == 0xF0 && 0x90 <= b1 && b1 <= 0xBF
    ||| 0xF1 <= b0 && b0 <= 0xF3 && is_cont(b1)
    ||| b0 == 0xF4 && 0x80 <= b1 && b1 <= 0x8F
}

/// Reading one scalar at the start of the non-empty `b`: its width where it is
/// well formed; else the length of the invalid sequence that starts there, or
/// `None` where the bytes end before the sequence can be told invalid.
pub open spec fn scalar_step(b: Seq<u8>) -> Result<usize, Option<u8>> {
    let b0 = b[0];
    if b0 <= 0x7F {
        Ok(1)
    } else if 0xC2 <= b0 && b0 <= 0xDF {
        if b.len() < 2 {
            Err(None)
        } else if !is_cont(b[1]) {
            Err(Some(1))
        } else {
            Ok(2)
        }
    } else if 0xE0 <= b0 && b0 <= 0xEF {
        if b.len() < 2 {
            Err(None)
        } else if !second_ok_3(b0, b[1]) {
            Err(Some(1))
        } else if b.len() < 3 {
            Err(None)
        } else if !is_cont(b[2]) {
            Err(Some(2))
        } else {
            Ok(3)
        }
    } else if 0xF0 <= b0 && b0 <= 0xF4 {
        if b.len() < 2 {
            Err(None)
        } else if !second_ok_4(b0, b[1]) {
            Err(Some(1))
        } else if b.len() < 3 {
            Err(None)
        } else if !is_cont(b[2]) {
            Err(Some(2))
        } else if b.len() < 4 {
            Err(None)
        } else if !is_cont(b[3]) {
            Err(Some(3))
        } else {
            Ok(4)
        }
    } else {
        Err(Some(1))
    }
}

/// Reads `b` scalar by scalar: the length of the valid prefix read, and
/// `None` where all of `b` is valid, else what stopped the reading.
pub open spec fn utf8_scan(b: Seq<u8>) -> (nat, Option<Option<u8>>)
    decreases b.len(),
{
    if b.len() == 0 {
        (0, None)
    } else {
        match scalar_step(b) {
            Ok(w) => {
                let rest = utf8_scan(b.skip(w as int));
                ((w + rest.0) as nat, rest.1)
            },
            Err(e) => (0, Some(e)),
        }
    }
}

proof fn lemma_width_2(b0: u8, b1: u8)
    by (bit_vector)
    requires
        0xC0 <= b0 <= 0xDF,
        0x80 <= b1 <= 0xBF,
    ensures
        ((((b0 & 0x1F) as u32) << 6) | ((b1 & 0x3F) as u32)) >= 0x80 <==> b0 >= 0xC2,
        ((((b0 & 0x1F) as u32) << 6) | ((b1 & 0x3F) as u32)) <= 0x7FF,
{
}

proof fn lemma_width_3(b0: u8, b1: u8, b2: u8)
    by (bit_vector)
    requires
        0xE0 <= b0 <= 0xEF,
        0x80 <= b1 <= 0xBF,
        0x80 <= b2 <= 0xBF,
    ensures
        ({
            let c = (((b0 & 0x0F) as u32) << 12) | (((b1 & 0x3F) as u32) << 6) | ((b2
                & 0x3F) as u32);
            (0x800 <= c && !(0xD800 <= c && c <= 0xDFFF)) <==> ((b0 == 0xE0 && 0xA0 <= b1) || (0xE1
                <= b0 && b0 <= 0xEC) || (b0 == 0xED && b1 <= 0x9F) || (0xEE <= b0))
        }),
{
}

proof fn lemma_width_4(b0: u8, b1: u8, b2: u8, b3: u8)
    by (bit_vector)
    requires
        0xF0 <= b0 <= 0xF7,
        0x80 <= b1 <= 0xBF,
        0x80 <= b2 <= 0xBF,
        0x80 <= b3 <= 0xBF,
    ensures
        ({
            let c = (((b0 & 0x07) as u32) << 18) | (((b1 & 0x3F) as u32) << 12) | (((b2
                & 0x3F) as u32) << 6) | ((b3 & 0x3F) as u32);
            (0x10000 <= c && c <= 0x10FFFF) <==> ((b0 == 0xF0 && 0x90 <= b1) || (0xF1 <= b0 && b0
                <= 0xF3) || (b0 == 0xF4 && b1 <= 0x8F))
        }),
{
}

proof fn lemma_width_1(b0: u8)
    by (bit_vector)
    requires
        b0 <= 0x7F,
    ensures
        ((b0 & 0x7F) as u32) <= 0x7F,
{
}

/// A step succeeds exactly where the bytes begin with a well-formed scalar,
/// and then its width is that scalar's length.
pub proof fn lemma_scalar_step(b: Seq<u8>)
    requires
        b.len() > 0,
    ensures
        scalar_step(b) is Ok <==> valid_first_scalar(b),
        scalar_step(b) matches Ok(w) ==> w == length_of_first_scalar(b) && 1 <= w <= b.len(),
{
    let b0 = b[0];
    if b0 <= 0x7F {
        lemma_width_1(b0);
    } else if 0xC0 <= b0 && b0 <= 0xDF {
        if b.len() >= 2 && is_cont(b[1]) {
            lemma_width_2(b0, b[1]);
        }
    } else if 0xE0 <= b0 && b0 <= 0xEF {
        if b.len() >= 3 && is_cont(b[1]) && is_cont(b[2]) {
            lemma_width_3(b0, b[1], b[2]);
        }
    } else if 0xF0 <= b0 && b0 <= 0xF7 {
        if b.len() >= 4 && is_cont(b[1]) && is_cont(b[2]) && is_cont(b[3]) {
            lemma_width_4(b0, b[1], b[2], b[3]);
        }
    }
}

/// The reading finds no error exactly where the bytes are valid UTF-8, and the
/// prefix it reads is never longer than the bytes.
pub proof fn lemma_utf8_scan(b: Seq<u8>)
    ensures
        utf8_scan(b).1 is None <==> valid_utf8(b),
        utf8_scan(b).0 <= b.len(),
        utf8_scan(b).1 is None ==> utf8_scan(b).0 == b.len(),
    decreases b.len(),
{
    if b.len() > 0 {
        lemma_scalar_step(b);
        if let Ok(w) = scalar_step(b) {
            assert(pop_first_scalar(b) =~= b.skip(w as int));
            lemma_utf8_scan(b.skip(w as int));
        }
    }
}

/// A step reads only the bytes of the scalar: a prefix that holds them reads the same.
proof fn lemma_step_prefix(b: Seq<u8>, k: int)
    requires
        0 < k <= b.len(),
    ensures
        scalar_step(b.take(k)) matches Ok(w) ==> scalar_step(b) == Ok::<usize, Option<u8>>(w),
        scalar_step(b) matches Ok(w) ==> (w <= k ==> scalar_step(b.take(k)) == Ok::<
            usize,
            Option<u8>,
        >(w)),
{
    let t = b.take(k);
    assert(t[0] == b[0]);
    if k >= 2 {
        assert(t[1] == b[1]);
    }
    if k >= 3 {
        assert(t[2] == b[2]);
    }
    if k >= 4 {
        assert(t[3] == b[3]);
    }
}

/// The prefix that the reading reports is the longest valid one: it is valid
/// UTF-8, and no longer prefix is, as `Utf8Error::valid_up_to` is documented.
pub proof fn law_valid_up_to_is_longest(b: Seq<u8>)
    ensures
        utf8_scan(b).0 <= b.len(),
        valid_utf8(b.take(utf8_scan(b).0 as int)),
        forall|k: int| utf8_scan(b).0 < k <= b.len() ==> !valid_utf8(#[trigger] b.take(k)),
    decreases b.len(),
{
    lemma_utf8_scan(b);
    if b.len() == 0 {
        assert(b.take(0) =~= Seq::<u8>::empty());
    } else {
        lemma_scalar_step(b);
        match scalar_step(b) {
            Ok(w) => {
                let rest = b.skip(w as int);
                law_valid_up_to_is_longest(rest);
                let v1 = utf8_scan(rest).0;
                let head = b.take(w as int);
                lemma_step_prefix(b, w as int);
                lemma_scalar_step(head);
                assert(pop_first_scalar(head) =~= Seq::<u8>::empty());
                assert(valid_utf8(head)) by {
                    reveal_with_fuel(valid_utf8, 2);
                }
                assert(b.take(w + v1) =~= head + rest.take(v1 as int));
                valid_utf8_concat(head, rest.take(v1 as int));
                assert forall|k: int| utf8_scan(b).0 < k <= b.len() implies !valid_utf8(
                    #[trigger] b.take(k),
                ) by {
                    let t = b.take(k);
                    lemma_step_prefix(b, k);
                    lemma_scalar_step(t);
                    assert(pop_first_scalar(t) =~= rest.take(k - w));
                    assert(!valid_utf8(rest.take(k - w)));
                }
            },
            Err(e) => {
                assert(b.take(0) =~= Seq::<u8>::empty());
                assert forall|k: int| 0 < k <= b.len() implies !valid_utf8(#[trigger] b.take(k)) by {
                    let t = b.take(k);
                    lemma_step_prefix(b, k);
                    lemma_scalar_step(t);
                }
            },
        }
    }
}

/// `scalar_step` of `b[i..]`.
fn step_at(b: &[u8], i: usize) -> (r: Result<usize, Option<u8>>)
    requires
        i < b@.len(),
    ensures
        r == scalar_step(b@.skip(i as int)),
{
    let ghost s = b@.skip(i as int);
    let n = b.len();
    let b0 = b[i];
    if b0 <= 0x7F {
        Ok(1)
    } else if 0xC2 <= b0 && b0 <= 0xDF {
        if n - i < 2 {
            Err(None)
        } else if !(0x80 <= b[i + 1] && b[i + 1] <= 0xBF) {
            Err(Some(1))
        } else {
            Ok(2)
        }
    } else if 0xE0 <= b0 && b0 <= 0xEF {
        if n - i < 2 {
            return Err(None);
        }
        let b1 = b[i + 1];
        let ok = (b0 == 0xE0 && 0xA0 <= b1 && b1 <= 0xBF) || (0xE1 <= b0 && b0 <= 0xEC && 0x80
            <= b1 && b1 <= 0xBF) || (b0 == 0xED && 0x80 <= b1 && b1 <= 0x9F) || (0xEE <= b0 && b0
            <= 0xEF && 0x80 <= b1 && b1 <= 0xBF);
        if !ok {
            Err(Some(1))
        } else if n - i < 3 {
            Err(None)
        } else if !(0x80 <= b[i + 2] && b[i + 2] <= 0xBF) {
            Err(Some(2))
        } else {
            Ok(3)
        }
    } else if 0xF0 <= b0 && b0 <= 0xF4 {
        if n - i < 2 {
            return Err(None);
        }
        let b1 = b[i + 1];
        let ok = (b0 == 0xF0 && 0x90 <= b1 && b1 <= 0xBF) || (0xF1 <= b0 && b0 <= 0xF3 && 0x80
            <= b1 && b1 <= 0xBF) || (b0 == 0xF4 && 0x80 <= b1 && b1 <= 0x8F);
        if !ok {
            Err(Some(1))
        } else if n - i < 3 {
            Err(None)
        } else if !(0x80 <= b[i + 2] && b[i + 2] <= 0xBF) {
            Err(Some(2))
        } else if n - i < 4 {
            Err(None)
        } else if !(0x80 <= b[i + 3] && b[i + 3] <= 0xBF) {
            Err(Some(3))
        } else {
            Ok(4)
        }
    } else {
        Err(Some(1))
    }
}

/// How far `b` is valid UTF-8, and what stops it: `None` where all of it is
/// valid, else the length of the invalid sequence after the valid prefix, or
/// `None` inside where the bytes end in the middle of a sequence.
pub fn utf8_check(b: &[u8]) -> (r: (usize, Option<Option<u8>>))
    ensures
        r.0 == utf8_scan(b@).0,
        r.1 == utf8_scan(b@).1,
{
    let n = b.len();
    let mut i: usize = 0;
    assert(b@.skip(0) =~= b@);
    while i < n
        invariant
            n == b@.len(),
            i <= n,
            utf8_scan(b@).0 == i + utf8_scan(b@.skip(i as int)).0,
            utf8_scan(b@).1 == utf8_scan(b@.skip(i as int)).1,
        decreases n - i,
    {
        let ghost s = b@.skip(i as int);
        proof {
            lemma_scalar_step(s);
        }
        match step_at(b, i) {
            Ok(w) => {
                assert(s.skip(w as int) =~= b@.skip(i + w));
                i = i + w;
            },
            Err(e) => {
                return (i, Some(e));
            },
        }
    }
    assert(b@.skip(i as int).len() == 0);
    (i, None)
}

} // verus!
