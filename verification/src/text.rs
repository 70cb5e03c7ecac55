//! Text handling: UTF-8 decoding of the packet, and the character-level
//! splitting that the packet format is made of.
use vstd::prelude::*;
use vstd::utf8::*;
use vstd::std_specs::iter::IteratorSpec;
use vstd::string::StringSliceAdditionalSpecFns;

verus! {

broadcast use vstd::utf8::group_utf8_lib;

/// The pieces of `s` between occurrences of `sep`, in order, the way
/// `str::split` yields them: `n` separators give `n + 1` pieces, and an
/// empty text gives a single empty piece.
pub open spec fn split_on(s: Seq<char>, sep: char) -> Seq<Seq<char>>
    decreases s.len(),
{
    match s.index_of_first(sep) {
        Some(i) => {
            proof {
                s.index_of_first_ensures(sep);
            }
            seq![s.take(i)] + split_on(s.skip(i + 1), sep)
        },
        None => seq![s],
    }
}

/// `s` cut at the first occurrence of `sep`, the way `str::split_once` does:
/// the text before it and the text after it, or `None` where `sep` does not occur.
pub open spec fn split_once(s: Seq<char>, sep: char) -> Option<(Seq<char>, Seq<char>)> {
    match s.index_of_first(sep) {
        Some(i) => Some((s.take(i), s.skip(i + 1))),
        None => None,
    }
}

/// The pieces joined again, with `sep` between each two.
pub open spec fn join_with(pieces: Seq<Seq<char>>, sep: char) -> Seq<char>
    decreases pieces.len(),
{
    if pieces.len() == 0 {
        Seq::empty()
    } else if pieces.len() == 1 {
        pieces[0]
    } else {
        pieces[0] + seq![sep] + join_with(pieces.drop_first(), sep)
    }
}

/// Splitting cuts the text at every separator and nowhere else: there is at
/// least one piece, no piece holds the separator, and the pieces joined with
/// the separator give back the text.
pub proof fn law_split_on(s: Seq<char>, sep: char)
    ensures
        split_on(s, sep).len() >= 1,
        forall|i: int|
            0 <= i < split_on(s, sep).len() ==> !(#[trigger] split_on(s, sep)[i]).contains(sep),
        join_with(split_on(s, sep), sep) == s,
    decreases s.len(),
{
    s.index_of_first_ensures(sep);
    match s.index_of_first(sep) {
        Some(i) => {
            let rest = s.skip(i + 1);
            law_split_on(rest, sep);
            let pieces = split_on(s, sep);
            let head = s.take(i);
            assert(pieces == seq![head] + split_on(rest, sep));
            assert(pieces[0] == head);
            assert(pieces.drop_first() =~= split_on(rest, sep));
            assert(!head.contains(sep)) by {
                if head.contains(sep) {
                    let j = choose|j: int| 0 <= j < head.len() && head[j] == sep;
                    assert(s[j] == sep);
                }
            }
            assert forall|k: int| 0 <= k < pieces.len() implies !(#[trigger] pieces[k]).contains(
                sep,
            ) by {
                if k > 0 {
                    assert(pieces[k] == split_on(rest, sep)[k - 1]);
                }
            }
            assert(head + seq![sep] + rest =~= s);
        },
        None => {},
    }
}

/// Cutting at the first separator: the two parts with the separator between
/// them give back the text, and the first part holds no separator; there is
/// no cut exactly where the text holds no separator.
pub proof fn law_split_once(s: Seq<char>, sep: char)
    ensures
        match split_once(s, sep) {
            Some((k, v)) => k + seq![sep] + v == s && !k.contains(sep),
            None => !s.contains(sep),
        },
{
    s.index_of_first_ensures(sep);
    if let Some(i) = s.index_of_first(sep) {
        let k = s.take(i);
        assert(k + seq![sep] + s.skip(i + 1) =~= s);
        if k.contains(sep) {
            let j = choose|j: int| 0 <= j < k.len() && k[j] == sep;
            assert(s[j] == sep);
        }
    }
}

/// The first position at or after `from` and before `to` where `cs` holds `c`,
/// or `to` where there is none.
pub fn find_char(cs: &[char], from: usize, to: usize, c: char) -> (r: usize)
    requires
        from <= to <= cs@.len(),
    ensures
        from <= r <= to,
        r < to ==> cs@[r as int] == c,
        forall|j: int| from <= j < r ==> cs@[j] != c,
{
    let mut i = from;
    while i < to
        invariant
            from <= i <= to <= cs@.len(),
            forall|j: int| from <= j < i ==> cs@[j] != c,
        decreases to - i,
    {
        if cs[i] == c {
            return i;
        }
        i = i + 1;
    }
    i
}

/// Relates the first position found by a scan to `index_of_first`.
pub proof fn lemma_first_index(s: Seq<char>, c: char, k: int)
    requires
        0 <= k <= s.len(),
        k < s.len() ==> s[k] == c,
        forall|j: int| 0 <= j < k ==> s[j] != c,
    ensures
        k < s.len() ==> s.index_of_first(c) == Some(k),
        k == s.len() ==> s.index_of_first(c) is None,
{
    s.index_of_first_ensures(c);
    if k < s.len() {
        assert(s.contains(c));
        let i = s.index_of_first(c)->0;
        assert(!(i < k));
        assert(!(k < i));
    } else {
        if s.contains(c) {
            let i = s.index_of_first(c)->0;
            assert(s[i] != c);
        }
    }
}

/// Whether `cs[lo..hi]` is exactly `word`.
pub fn span_is(cs: &[char], lo: usize, hi: usize, word: &[char]) -> (r: bool)
    requires
        lo <= hi <= cs@.len(),
    ensures
        r == (cs@.subrange(lo as int, hi as int) == word@),
{
    if hi - lo != word.len() {
        proof {
            if cs@.subrange(lo as int, hi as int) == word@ {
                assert(cs@.subrange(lo as int, hi as int).len() == word@.len());
            }
        }
        return false;
    }
    let mut i: usize = 0;
    while i < word.len()
        invariant
            lo <= hi <= cs@.len(),
            hi - lo == word@.len(),
            i <= word@.len(),
            forall|j: int| 0 <= j < i ==> cs@[lo + j] == word@[j],
        decreases word@.len() - i,
    {
        if cs[lo + i] != word[i] {
            proof {
                assert(cs@.subrange(lo as int, hi as int)[i as int] != word@[i as int]);
            }
            return false;
        }
        i = i + 1;
    }
    assert(cs@.subrange(lo as int, hi as int) =~= word@);
    true
}

/// The characters of `s`, in order.
pub fn str_chars(s: &str) -> (r: Vec<char>)
    ensures
        r@ == s@,
{
    let mut out: Vec<char> = Vec::new();
    let mut it = s.chars();
    loop
        invariant
            it.obeys_prophetic_iter_laws(),
            it.decrease() is Some,
            out@ + it.remaining() == s@,
        decreases it.decrease()->0,
    {
        let ghost before = it;
        match it.next() {
            Some(c) => {
                proof {
                    assert(before.remaining().len() > 0);
                }
                out.push(c);
                assert(out@ + it.remaining() =~= s@) by {
                    assert(before.remaining() =~= seq![c] + it.remaining());
                }
            },
            None => {
                assert(out@ =~= s@);
                return out;
            },
        }
    }
}

/// Decodes `bytes` as UTF-8 text.
///
/// Calls `std::str::from_utf8`, whose documentation says that it returns an
/// error exactly when the slice is not UTF-8; on success the text it returns
/// is encoded by exactly these bytes.
#[verifier::external_body]
fn utf8_text(bytes: &[u8]) -> (r: Option<&str>)
    ensures
        r is Some <==> valid_utf8(bytes@),
        r matches Some(s) ==> s.spec_bytes() == bytes@,
{
    std::str::from_utf8(bytes).ok()
}

/// Appends the UTF-8 encoding of `c` to `out`.
fn push_utf8(out: &mut Vec<u8>, c: char)
    ensures
        final(out)@ == old(out)@ + encode_scalar(c as u32),
{
    let v = c as u32;
    if v <= 0x7F {
        out.push((v & 0x7F) as u8);
    } else if v <= 0x7FF {
        out.push(0xC0 | ((v >> 6) & 0x1F) as u8);
        out.push(0x80 | (v & 0x3F) as u8);
    } else if v <= 0xFFFF {
        out.push(0xE0 | ((v >> 12) & 0x0F) as u8);
        out.push(0x80 | ((v >> 6) & 0x3F) as u8);
        out.push(0x80 | (v & 0x3F) as u8);
    } else {
        out.push(0xF0 | ((v >> 18) & 0x7) as u8);
        out.push(0x80 | ((v >> 12) & 0x3F) as u8);
        out.push(0x80 | ((v >> 6) & 0x3F) as u8);
        out.push(0x80 | (v & 0x3F) as u8);
    }
    assert(final(out)@ =~= old(out)@ + encode_scalar(c as u32));
}

/// The UTF-8 encoding of the characters `cs`.
fn encode_chars(cs: &[char]) -> (r: Vec<u8>)
    ensures
        r@ == encode_utf8(cs@),
{
    let mut out: Vec<u8> = Vec::new();
    let mut i: usize = 0;
    assert(cs@.skip(0) =~= cs@);
    while i < cs.len()
        invariant
            i <= cs@.len(),
            encode_utf8(cs@) == out@ + encode_utf8(cs@.skip(i as int)),
        decreases cs@.len() - i,
    {
        let ghost rest = cs@.skip(i as int);
        assert(rest[0] == cs@[i as int]);
        assert(rest.drop_first() =~= cs@.skip(i + 1));
        let ghost before = out@;
        push_utf8(&mut out, cs[i]);
        assert(before + encode_utf8(rest) =~= out@ + encode_utf8(cs@.skip(i + 1)));
        i = i + 1;
    }
    assert(cs@.skip(i as int) =~= Seq::<char>::empty());
    assert(out@ + encode_utf8(Seq::<char>::empty()) =~= out@);
    out
}

/// Builds a `String` of the given characters, in order: their UTF-8 encoding,
/// read back as text.
pub(crate) fn chars_to_string(cs: &[char]) -> (r: String)
    ensures
        r@ == cs@,
{
    let bytes = encode_chars(cs);
    proof {
        encode_utf8_valid_utf8(cs@);
    }
    match utf8_text(bytes.as_slice()) {
        Some(s) => {
            proof {
                encode_utf8_decode_utf8(s@);
                encode_utf8_decode_utf8(cs@);
            }
            s.to_owned()
        },
        None => String::new(),
    }
}

/// The characters that the UTF-8 bytes `bytes` encode, or `None` where the
/// bytes are not UTF-8.
pub fn decode_chars(bytes: &[u8]) -> (r: Option<Vec<char>>)
    ensures
        r is Some <==> valid_utf8(bytes@),
        r matches Some(cs) ==> cs@ == decode_utf8(bytes@),
{
    match utf8_text(bytes) {
        None => None,
        Some(s) => {
            let cs = str_chars(s);
            proof {
                encode_utf8_decode_utf8(s@);
            }
            Some(cs)
        },
    }
}

} // verus!
