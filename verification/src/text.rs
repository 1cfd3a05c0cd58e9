//! Text primitives over `&str`: UTF-8 byte accounting, slicing at character
//! positions, line terminators and whitespace.
use vstd::prelude::*;
use vstd::string::*;
use vstd::utf8::*;

verus! {

/// Number of bytes in the UTF-8 encoding of `s`.
pub open spec fn byte_len(s: Seq<char>) -> nat {
    encode_utf8(s).len()
}

/// The encoding of a concatenation is the concatenation of the encodings.
pub proof fn lemma_encode_concat(a: Seq<char>, b: Seq<char>)
    ensures
        encode_utf8(a + b) == encode_utf8(a) + encode_utf8(b),
    decreases a.len(),
{
    if a.len() == 0 {
        assert(a + b =~= b);
        assert(encode_utf8(a) =~= Seq::<u8>::empty());
        assert(encode_utf8(a) + encode_utf8(b) =~= encode_utf8(b));
    } else {
        lemma_encode_concat(a.drop_first(), b);
        assert((a + b).drop_first() =~= a.drop_first() + b);
        assert((a + b)[0] == a[0]);
        assert(encode_scalar(a[0] as u32) + (encode_utf8(a.drop_first()) + encode_utf8(b))
            =~= (encode_scalar(a[0] as u32) + encode_utf8(a.drop_first())) + encode_utf8(b));
    }
}

/// The byte length of a concatenation adds up.
pub proof fn lemma_byte_len_concat(a: Seq<char>, b: Seq<char>)
    ensures
        byte_len(a + b) == byte_len(a) + byte_len(b),
{
    lemma_encode_concat(a, b);
}

/// The end of an encoded prefix is a character boundary of the whole encoding.
pub proof fn lemma_boundary_at_prefix(a: Seq<char>, b: Seq<char>)
    ensures
        is_char_boundary(encode_utf8(a + b), byte_len(a) as int),
    decreases a.len(),
{
    broadcast use encode_utf8_valid_utf8;

    let bytes = encode_utf8(a + b);
    if a.len() == 0 {
    } else {
        let c = a + b;
        encode_utf8_first_scalar(c);
        assert(c.drop_first() =~= a.drop_first() + b);
        assert(c[0] == a[0]);
        assert(pop_first_scalar(bytes) =~= encode_utf8(a.drop_first() + b));
        lemma_boundary_at_prefix(a.drop_first(), b);
        lemma_byte_len_concat(a.drop_first(), b);
        lemma_byte_len_concat(a, b);
        assert(byte_len(a) == encode_scalar(a[0] as u32).len() + byte_len(a.drop_first()));
    }
}

/// A prefix of `s` of `k` characters ends at a character boundary.
pub proof fn lemma_boundary_at(s: Seq<char>, k: int)
    requires
        0 <= k <= s.len(),
    ensures
        is_char_boundary(encode_utf8(s), byte_len(s.take(k)) as int),
        byte_len(s.take(k)) <= byte_len(s),
{
    assert(s =~= s.take(k) + s.skip(k));
    lemma_boundary_at_prefix(s.take(k), s.skip(k));
    lemma_byte_len_concat(s.take(k), s.skip(k));
}

/// The byte length of one character.
pub open spec fn char_width(c: char) -> nat {
    encode_scalar(c as u32).len()
}

/// The UTF-8 width of a character, computed from its scalar value.
pub fn utf8_width(c: char) -> (w: usize)
    ensures
        w == char_width(c),
        1 <= w <= 4,
{
    proof {
        char_is_scalar(c);
    }
    let v = c as u32;
    if v <= 0x7F {
        1
    } else if v <= 0x7FF {
        2
    } else if v <= 0xFFFF {
        3
    } else {
        4
    }
}

/// Appending one character adds its width to the byte length.
pub proof fn lemma_byte_len_push(s: Seq<char>, c: char)
    ensures
        byte_len(s.push(c)) == byte_len(s) + char_width(c),
{
    lemma_byte_len_concat(s, seq![c]);
    assert(s.push(c) =~= s + seq![c]);
    assert(seq![c].drop_first() =~= Seq::<char>::empty());
    assert(encode_utf8(seq![c]) =~= encode_scalar(c as u32) + encode_utf8(Seq::<char>::empty()));
}

/// Byte facts behind [`slice`]: the tail after `from` and the piece `from..to`.
proof fn lemma_slice_bytes(s: Seq<char>, from: int, to: int)
    requires
        0 <= from <= to <= s.len(),
    ensures
        is_char_boundary(encode_utf8(s), byte_len(s.take(from)) as int),
        is_char_boundary(encode_utf8(s.skip(from)), byte_len(s.subrange(from, to)) as int),
        encode_utf8(s).subrange(byte_len(s.take(from)) as int, byte_len(s) as int)
            == encode_utf8(s.skip(from)),
        encode_utf8(s.skip(from)).subrange(0, byte_len(s.subrange(from, to)) as int)
            == encode_utf8(s.subrange(from, to)),
        byte_len(s.take(to)) == byte_len(s.take(from)) + byte_len(s.subrange(from, to)),
        byte_len(s.take(from)) <= byte_len(s),
{
    lemma_boundary_at(s, from);
    assert(s =~= s.take(from) + s.skip(from));
    lemma_encode_concat(s.take(from), s.skip(from));
    assert(s.take(to) =~= s.take(from) + s.subrange(from, to));
    lemma_encode_concat(s.take(from), s.subrange(from, to));
    assert(s.skip(from) =~= s.subrange(from, to) + s.skip(to));
    lemma_encode_concat(s.subrange(from, to), s.skip(to));
    lemma_boundary_at_prefix(s.subrange(from, to), s.skip(to));
    let e = encode_utf8(s);
    assert(e.subrange(byte_len(s.take(from)) as int, byte_len(s) as int) =~= encode_utf8(s.skip(from)));
    assert(encode_utf8(s.skip(from)).subrange(0, byte_len(s.subrange(from, to)) as int)
        =~= encode_utf8(s.subrange(from, to)));
}

/// Every character takes at least one byte.
pub proof fn lemma_byte_len_grows(s: Seq<char>, k: int, m: int)
    requires
        0 <= k <= m <= s.len(),
    ensures
        byte_len(s.take(k)) + (m - k) <= byte_len(s.take(m)),
        s.len() <= byte_len(s),
    decreases m - k,
{
    if k < m {
        lemma_byte_len_grows(s, k, m - 1);
        lemma_byte_len_push(s.take(m - 1), s[m - 1]);
        assert(s.take(m) =~= s.take(m - 1).push(s[m - 1]));
    }
    lemma_byte_len_grows_full(s, s.len() as int);
    lemma_byte_len_take_all(s);
}

proof fn lemma_byte_len_grows_full(s: Seq<char>, m: int)
    requires
        0 <= m <= s.len(),
    ensures
        m <= byte_len(s.take(m)),
    decreases m,
{
    if m > 0 {
        lemma_byte_len_grows_full(s, m - 1);
        lemma_byte_len_push(s.take(m - 1), s[m - 1]);
        assert(s.take(m) =~= s.take(m - 1).push(s[m - 1]));
    }
}

proof fn lemma_byte_len_take_all(s: Seq<char>)
    ensures
        s.take(s.len() as int) == s,
{
    assert(s.take(s.len() as int) =~= s);
}

/// The characters `from..to` of `text`, given their byte positions.
pub fn slice<'a>(text: &'a str, Ghost(from): Ghost<int>, Ghost(to): Ghost<int>, start: usize, end: usize) -> (r: &'a str)
    requires
        0 <= from <= to <= text@.len(),
        start == byte_len(text@.take(from)),
        end == byte_len(text@.take(to)),
    ensures
        r@ == text@.subrange(from, to),
{
    let ghost s = text@;
    proof {
        lemma_slice_bytes(s, from, to);
    }
    let (_, tail) = text.split_at(start);
    proof {
        encode_utf8_decode_utf8(tail@);
        encode_utf8_decode_utf8(s.skip(from));
        assert(tail@ == s.skip(from));
    }
    let (r, _) = tail.split_at(end - start);
    proof {
        encode_utf8_decode_utf8(r@);
        encode_utf8_decode_utf8(s.subrange(from, to));
    }
    r
}

} // verus!

verus! {

/// `s` without one trailing `'\n'`, and then without one trailing `'\r'`.
pub open spec fn strip_eol_spec(s: Seq<char>) -> Seq<char> {
    let t = if s.len() > 0 && s.last() == '\n' { s.drop_last() } else { s };
    if t.len() > 0 && t.last() == '\r' { t.drop_last() } else { t }
}

/// The last byte of an encoding is the last character itself when that
/// character is ASCII, and a byte at or above `0x80` otherwise.
proof fn lemma_last_byte(s: Seq<char>)
    requires
        s.len() > 0,
    ensures
        encode_utf8(s).len() > 0,
        (s.last() as u32) < 0x80 ==> encode_utf8(s).last() == s.last() as u32 as u8,
        (s.last() as u32) >= 0x80 ==> encode_utf8(s).last() >= 0x80,
{
    let c = s.last();
    let v = c as u32;
    char_is_scalar(c);
    assert(s =~= s.drop_last() + seq![c]);
    lemma_encode_concat(s.drop_last(), seq![c]);
    assert(seq![c].drop_first() =~= Seq::<char>::empty());
    assert(seq![c][0] == c);
    assert(encode_utf8(seq![c]) =~= encode_scalar(v) + encode_utf8(Seq::<char>::empty()));
    let e = encode_scalar(v);
    if has_width_1_encoding(v) {
        assert((v & 0x7F) as u8 == v as u8) by (bit_vector)
            requires v <= 0x7F;
    } else {
        assert(0x80 <= (0x80u8 | (v & 0x3F) as u8)) by (bit_vector);
        assert(e.last() == last_continuation_byte(v));
    }
}

/// For an ASCII character `c` with byte value `b`, the last character of
/// `s` is `c` exactly when the last byte of its encoding is `b`.
pub proof fn lemma_last_is(s: Seq<char>, c: char, b: u8)
    requires
        s.len() > 0,
        c as u32 == b as u32,
        b < 0x80,
    ensures
        encode_utf8(s).len() > 0,
        (s.last() == c) == (encode_utf8(s).last() == b),
{
    lemma_last_byte(s);
    let v = s.last() as u32;
    let e = encode_utf8(s).last();
    if (v < 0x80) {
        assert((v == b as u32) == (v as u8 == b)) by (bit_vector)
            requires v < 0x80, b < 0x80;
    }
    char_u32_cast(s.last(), v);
    char_u32_cast(c, c as u32);
}

/// Removes one trailing line terminator (`"\n"` or `"\r\n"`, or a lone
/// trailing `'\r'`) without copying.
pub fn strip_eol(line: &str) -> (r: &str)
    ensures
        r@ == strip_eol_spec(line@),
{
    let ghost s = line@;
    let bytes = line.as_bytes();
    let n = bytes.len();
    let mut t = line;
    proof {
        if s.len() > 0 {
            lemma_last_is(s, '\n', 10u8);
            assert(n == encode_utf8(s).len());
            assert(n > 0);
            assert(bytes@[n - 1] == encode_utf8(s).last());
        } else {
            assert(n == 0);
        }
    }
    if n > 0 && bytes[n - 1] == 10u8 {
        proof {
            lemma_byte_len_push(s.drop_last(), '\n');
            assert(s.drop_last().push('\n') =~= s);
            assert(s.take(s.len() - 1) =~= s.drop_last());
            assert(s.take(0) =~= Seq::<char>::empty());
        }
        t = slice(line, Ghost(0), Ghost(s.len() - 1), 0, n - 1);
        assert(t@ =~= s.drop_last());
    }
    let ghost u = t@;
    assert(u == (if s.len() > 0 && s.last() == '\n' { s.drop_last() } else { s }));
    let tb = t.as_bytes();
    let m = tb.len();
    proof {
        if u.len() > 0 {
            lemma_last_is(u, '\r', 13u8);
        }
    }
    if m > 0 && tb[m - 1] == 13u8 {
        proof {
            lemma_byte_len_push(u.drop_last(), '\r');
            assert(u.drop_last().push('\r') =~= u);
            assert(u.take(u.len() - 1) =~= u.drop_last());
            assert(u.take(0) =~= Seq::<char>::empty());
        }
        let r = slice(t, Ghost(0), Ghost(u.len() - 1), 0, m - 1);
        assert(r@ =~= u.drop_last());
        r
    } else {
        t
    }
}


/// For an ASCII character `c` with byte value `b`, the first character of
/// `s` is `c` exactly when the first byte of its encoding is `b`.
pub proof fn lemma_first_is(s: Seq<char>, c: char, b: u8)
    requires
        s.len() > 0,
        c as u32 == b as u32,
        b < 0x80,
    ensures
        encode_utf8(s).len() > 0,
        (s[0] == c) == (encode_utf8(s)[0] == b),
{
    encode_utf8_first_scalar(s);
    let v = s[0] as u32;
    char_is_scalar(s[0]);
    let e = encode_scalar(v);
    assert(encode_utf8(s) == e + encode_utf8(s.drop_first()));
    if has_width_1_encoding(v) {
        assert((v & 0x7F) as u8 == v as u8) by (bit_vector)
            requires v <= 0x7F;
        assert((v == b as u32) == (v as u8 == b)) by (bit_vector)
            requires v < 0x80, b < 0x80;
    } else if has_width_2_encoding(v) {
        assert(0xC0 <= (0xC0u8 | ((v >> 6) & 0x1F) as u8)) by (bit_vector);
    } else if has_width_3_encoding(v) {
        assert(0xE0 <= (0xE0u8 | ((v >> 12) & 0x0F) as u8)) by (bit_vector);
    } else {
        assert(0xF0 <= (0xF0u8 | ((v >> 18) & 0x7) as u8)) by (bit_vector);
    }
    char_u32_cast(s[0], v);
    char_u32_cast(c, c as u32);
}

/// `s` without its first character, which is the ASCII character `c` with
/// byte value `b`; `None` when `s` does not start with `c`.
pub fn strip_prefix_ascii<'a>(s: &'a str, c: char, b: u8) -> (r: Option<&'a str>)
    requires
        c as u32 == b as u32,
        b < 0x80,
    ensures
        r is Some <==> (s@.len() > 0 && s@[0] == c),
        r matches Some(t) ==> t@ == s@.drop_first(),
{
    let ghost q = s@;
    let bytes = s.as_bytes();
    let n = bytes.len();
    proof {
        if q.len() > 0 {
            lemma_first_is(q, c, b);
        } else {
            assert(n == 0);
        }
    }
    if n > 0 && bytes[0] == b {
        proof {
            lemma_byte_len_push(Seq::<char>::empty(), c);
            assert(q.take(1) =~= Seq::<char>::empty().push(c));
            assert(q.take(0) =~= Seq::<char>::empty());
            lemma_boundary_at(q, q.len() as int);
            assert(q.take(q.len() as int) =~= q);
        }
        let t = slice(s, Ghost(1), Ghost(q.len() as int), 1, n);
        assert(t@ =~= q.drop_first());
        Some(t)
    } else {
        None
    }
}


/// `s` without any leading run of `c`.
pub open spec fn trim_start_char_spec(s: Seq<char>, c: char) -> Seq<char>
    decreases s.len(),
{
    if s.len() > 0 && s[0] == c {
        trim_start_char_spec(s.drop_first(), c)
    } else {
        s
    }
}

/// `s` without any trailing run of `c`.
pub open spec fn trim_end_char_spec(s: Seq<char>, c: char) -> Seq<char>
    decreases s.len(),
{
    if s.len() > 0 && s.last() == c {
        trim_end_char_spec(s.drop_last(), c)
    } else {
        s
    }
}

/// Removes every leading `c` (`str::trim_start_matches(c)`), for an ASCII
/// character `c` with byte value `b`.
pub fn trim_start_char<'a>(s: &'a str, c: char, b: u8) -> (r: &'a str)
    requires
        c as u32 == b as u32,
        b < 0x80,
    ensures
        r@ == trim_start_char_spec(s@, c),
{
    let mut t = s;
    loop
        invariant
            trim_start_char_spec(t@, c) == trim_start_char_spec(s@, c),
            c as u32 == b as u32,
            b < 0x80,
        decreases t@.len(),
    {
        match strip_prefix_ascii(t, c, b) {
            Some(u) => {
                t = u;
            }
            None => {
                return t;
            }
        }
    }
}

/// Removes every trailing `c` (`str::trim_end_matches(c)`), for an ASCII
/// character `c` with byte value `b`.
pub fn trim_end_char<'a>(s: &'a str, c: char, b: u8) -> (r: &'a str)
    requires
        c as u32 == b as u32,
        b < 0x80,
    ensures
        r@ == trim_end_char_spec(s@, c),
{
    let mut t = s;
    loop
        invariant
            trim_end_char_spec(t@, c) == trim_end_char_spec(s@, c),
            c as u32 == b as u32,
            b < 0x80,
        decreases t@.len(),
    {
        let ghost u = t@;
        let bytes = t.as_bytes();
        let m = bytes.len();
        proof {
            if u.len() > 0 {
                lemma_last_is(u, c, b);
            } else {
                assert(m == 0);
            }
        }
        if m > 0 && bytes[m - 1] == b {
            proof {
                lemma_byte_len_push(u.drop_last(), c);
                assert(u.drop_last().push(c) =~= u);
                assert(u.take(u.len() - 1) =~= u.drop_last());
                assert(u.take(0) =~= Seq::<char>::empty());
            }
            let r = slice(t, Ghost(0), Ghost(u.len() - 1), 0, m - 1);
            assert(r@ =~= u.drop_last());
            t = r;
        } else {
            return t;
        }
    }
}

/// The text `String::from_utf8_lossy` makes of the bytes `b`: their UTF-8
/// decoding, each invalid sequence replaced by U+FFFD.
pub uninterp spec fn lossy_utf8(b: Seq<u8>) -> Seq<char>;

/// `String::from_utf8_lossy`, made owned. Its text is `lossy_utf8` of the
/// bytes; valid UTF-8 decodes exactly; otherwise each invalid sequence
/// becomes one U+FFFD (three bytes), so the text has at most one character
/// per input byte and at most three bytes per input byte.
#[verifier::external_body]
pub(crate) fn utf8_lossy(b: &[u8]) -> (r: String)
    ensures
        r@ == lossy_utf8(b@),
        valid_utf8(b@) ==> r@ == decode_utf8(b@),
        r@.len() <= b@.len(),
        byte_len(r@) <= 3 * b@.len(),
{
    String::from_utf8_lossy(b).into_owned()
}

} // verus!
