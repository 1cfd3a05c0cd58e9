//! Small string algorithms with exact contracts: whitespace, trimming,
//! splitting into words, ASCII case folding and decimal numbers.
use vstd::prelude::*;
use vstd::string::*;
use crate::text::{byte_len, strip_prefix_ascii, lemma_boundary_at, lemma_byte_len_grows, lemma_byte_len_push, slice, utf8_width};

verus! {

/// `String::push`: appends one character.
#[verifier::external_body]
pub(crate) fn push_char(s: &mut String, c: char)
    ensures
        final(s)@ == old(s)@.push(c),
{
    s.push(c)
}

/// `<str as PartialEq>::eq`: two strings are equal exactly when they hold the
/// same characters.
#[verifier::external_body]
pub(crate) fn str_eq(a: &str, b: &str) -> (r: bool)
    ensures
        r == (a@ == b@),
{
    a == b
}

/// Unicode `White_Space`, which is what `char::is_whitespace` tests.
pub open spec fn is_ws(c: char) -> bool {
    let v = c as u32;
    (9 <= v <= 13) || v == 32 || v == 0x85 || v == 0xA0 || v == 0x1680 || (0x2000 <= v <= 0x200A)
        || v == 0x2028 || v == 0x2029 || v == 0x202F || v == 0x205F || v == 0x3000
}

/// Whether `c` is whitespace (Unicode `White_Space`).
pub fn is_whitespace(c: char) -> (b: bool)
    ensures
        b == is_ws(c),
{
    let v = c as u32;
    (9 <= v && v <= 13) || v == 32 || v == 0x85 || v == 0xA0 || v == 0x1680 || (0x2000 <= v && v <= 0x200A)
        || v == 0x2028 || v == 0x2029 || v == 0x202F || v == 0x205F || v == 0x3000
}

/// Index of the first non-whitespace character of `s` (or its length).
pub open spec fn first_non_ws(s: Seq<char>) -> int
    decreases s.len(),
{
    if s.len() == 0 {
        0
    } else if is_ws(s[0]) {
        1 + first_non_ws(s.drop_first())
    } else {
        0
    }
}

/// `s` without leading whitespace.
pub open spec fn trim_start_spec(s: Seq<char>) -> Seq<char>
    decreases s.len(),
{
    if s.len() > 0 && is_ws(s[0]) {
        trim_start_spec(s.drop_first())
    } else {
        s
    }
}

/// `s` without trailing whitespace.
pub open spec fn trim_end_spec(s: Seq<char>) -> Seq<char>
    decreases s.len(),
{
    if s.len() > 0 && is_ws(s.last()) {
        trim_end_spec(s.drop_last())
    } else {
        s
    }
}

/// `s` without leading or trailing whitespace.
pub open spec fn trim_spec(s: Seq<char>) -> Seq<char> {
    trim_end_spec(trim_start_spec(s))
}

proof fn lemma_trim_start_skip(s: Seq<char>, k: int)
    requires
        0 <= k <= s.len(),
        forall|i: int| 0 <= i < k ==> is_ws(#[trigger] s[i]),
    ensures
        trim_start_spec(s) == trim_start_spec(s.skip(k)),
    decreases k,
{
    if k > 0 {
        assert(s.drop_first().skip(k - 1) =~= s.skip(k));
        lemma_trim_start_skip(s.drop_first(), k - 1);
    } else {
        assert(s.skip(0) =~= s);
    }
}

proof fn lemma_trim_end_take(s: Seq<char>, k: int)
    requires
        0 <= k <= s.len(),
        forall|i: int| k <= i < s.len() ==> is_ws(#[trigger] s[i]),
    ensures
        trim_end_spec(s) == trim_end_spec(s.take(k)),
    decreases s.len() - k,
{
    if k < s.len() {
        assert(s.drop_last().take(k) =~= s.take(k));
        lemma_trim_end_take(s.drop_last(), k);
    } else {
        assert(s.take(k) =~= s);
    }
}

/// `s` without leading whitespace.
pub fn trim_start(s: &str) -> (r: &str)
    ensures
        r@ == trim_start_spec(s@),
{
    let ghost q = s@;
    let total = s.as_bytes().len();
    let mut k: usize = 0;
    let mut byte: usize = 0;
    let mut found = false;
    proof {
        lemma_byte_len_grows(q, 0, 0);
        assert(q.take(0) =~= Seq::<char>::empty());
    }
    for c in it: s.chars()
        invariant
            q == s@,
            it.seq() == q,
            k <= it.index(),
            !found ==> k == it.index(),
            total == byte_len(q),
            byte == byte_len(q.take(k as int)),
            forall|i: int| 0 <= i < k ==> is_ws(#[trigger] q[i]),
            found ==> k < q.len() && !is_ws(q[k as int]),
    {
        if !found {
            assert(c == q[k as int]);
            if !is_whitespace(c) {
                found = true;
            } else {
                proof {
                    lemma_byte_len_push(q.take(k as int), c);
                    assert(q.take(k + 1) =~= q.take(k as int).push(c));
                    lemma_boundary_at(q, k + 1);
                    lemma_byte_len_grows(q, 0, 0);
                }
                byte = byte + utf8_width(c);
                k = k + 1;
            }
        }
    }
    proof {
        lemma_byte_len_grows(q, 0, 0);
        lemma_boundary_at(q, k as int);
        lemma_trim_start_skip(q, k as int);
        assert(q.take(q.len() as int) =~= q);
        assert(q.skip(k as int) =~= q.subrange(k as int, q.len() as int));
        if !found {
            assert(k == q.len());
        }
        assert(trim_start_spec(q.skip(k as int)) == q.skip(k as int));
    }
    slice(s, Ghost(k as int), Ghost(q.len() as int), byte, total)
}


/// `s` without trailing whitespace.
pub fn trim_end(s: &str) -> (r: &str)
    ensures
        r@ == trim_end_spec(s@),
{
    let ghost q = s@;
    let mut k: usize = 0;
    let mut byte: usize = 0;
    let mut keep: usize = 0;
    let mut keep_byte: usize = 0;
    let total = s.as_bytes().len();
    proof {
        lemma_boundary_at(q, q.len() as int);
        assert(q.take(q.len() as int) =~= q);
        lemma_byte_len_grows(q, 0, 0);
        assert(q.take(0) =~= Seq::<char>::empty());
    }
    for c in it: s.chars()
        invariant
            q == s@,
            it.seq() == q,
            k == it.index(),
            total == byte_len(q),
            byte == byte_len(q.take(k as int)),
            keep <= k,
            keep_byte == byte_len(q.take(keep as int)),
            keep > 0 ==> !is_ws(q[keep - 1]),
            forall|i: int| keep <= i < k ==> is_ws(#[trigger] q[i]),
    {
        assert(c == q[k as int]);
        proof {
            lemma_byte_len_push(q.take(k as int), c);
            assert(q.take(k + 1) =~= q.take(k as int).push(c));
            lemma_boundary_at(q, k + 1);
            lemma_byte_len_grows(q, 0, 0);
        }
        byte = byte + utf8_width(c);
        k = k + 1;
        if !is_whitespace(c) {
            keep = k;
            keep_byte = byte;
        }
    }
    proof {
        lemma_trim_end_take(q, keep as int);
        let t = q.take(keep as int);
        if keep > 0 {
            assert(t.last() == q[keep - 1]);
        }
        assert(trim_end_spec(t) == t);
        assert(q.take(0) =~= Seq::<char>::empty());
        assert(t =~= q.subrange(0, keep as int));
    }
    slice(s, Ghost(0), Ghost(keep as int), 0, keep_byte)
}

/// `s` without leading and trailing whitespace (`str::trim`).
pub fn trim(s: &str) -> (r: &str)
    ensures
        r@ == trim_spec(s@),
{
    trim_end(trim_start(s))
}

/// The words of `s`: its maximal runs of non-whitespace characters, in order
/// (`str::split_whitespace`).
pub open spec fn words(s: Seq<char>) -> Seq<Seq<char>>
    decreases s.len(),
{
    if s.len() == 0 {
        seq![]
    } else if is_ws(s.last()) {
        words(s.drop_last())
    } else if s.len() >= 2 && !is_ws(s[s.len() - 2]) {
        let w = words(s.drop_last());
        w.update(w.len() - 1, w.last().push(s.last()))
    } else {
        words(s.drop_last()).push(seq![s.last()])
    }
}

/// A text ending in a non-whitespace character has at least one word.
proof fn lemma_words_nonempty(s: Seq<char>)
    requires
        s.len() > 0,
        !is_ws(s.last()),
    ensures
        words(s).len() > 0,
    decreases s.len(),
{
    if s.len() >= 2 && !is_ws(s[s.len() - 2]) {
        assert(s.drop_last().last() == s[s.len() - 2]);
        lemma_words_nonempty(s.drop_last());
    }
}

/// The words of `s` (`str::split_whitespace`), as slices of `s`.
pub fn split_whitespace<'a>(s: &'a str) -> (r: Vec<&'a str>)
    ensures
        r@.map_values(|w: &str| w@) == words(s@),
{
    let ghost q = s@;
    let mut out: Vec<&'a str> = Vec::new();
    let mut k: usize = 0;
    let mut byte: usize = 0;
    let mut in_word = false;
    let mut start: usize = 0;
    let mut start_byte: usize = 0;
    let total = s.as_bytes().len();
    proof {
        lemma_byte_len_grows(q, 0, 0);
        lemma_boundary_at(q, q.len() as int);
        assert(q.take(q.len() as int) =~= q);
        assert(q.take(0) =~= Seq::<char>::empty());
    }
    for c in it: s.chars()
        invariant
            q == s@,
            it.seq() == q,
            k == it.index(),
            total == byte_len(q),
            byte == byte_len(q.take(k as int)),
            start <= k,
            start_byte == byte_len(q.take(start as int)),
            in_word == (k > 0 && !is_ws(q[k - 1])),
            in_word ==> start < k && forall|i: int| start <= i < k ==> !is_ws(#[trigger] q[i]),
            words(q.take(k as int)) == out@.map_values(|w: &str| w@)
                + if in_word { seq![q.subrange(start as int, k as int)] } else { seq![] },
    {
        assert(c == q[k as int]);
        let ghost tk = q.take(k as int);
        let ghost tk1 = q.take(k + 1);
        proof {
            lemma_byte_len_push(tk, c);
            assert(tk1 =~= tk.push(c));
            assert(tk1.drop_last() =~= tk);
            assert(tk1.last() == c);
            lemma_boundary_at(q, k + 1);
            lemma_byte_len_grows(q, 0, 0);
            lemma_boundary_at(q, start as int);
        }
        let ws = is_whitespace(c);
        if ws {
            if in_word {
                let w = slice(s, Ghost(start as int), Ghost(k as int), start_byte, byte);
                let ghost before = out@;
                out.push(w);
                assert(out@.map_values(|w: &str| w@) =~= before.map_values(|w: &str| w@).push(q.subrange(start as int, k as int)));
            }
            assert(words(tk1) == words(tk));
            byte = byte + utf8_width(c);
            k = k + 1;
            in_word = false;
        } else {
            if in_word {
                assert(tk1[tk1.len() - 2] == q[k - 1]);
                let ghost pre = out@.map_values(|w: &str| w@);
                assert(words(tk) == pre.push(q.subrange(start as int, k as int)));
                assert(q.subrange(start as int, k + 1) =~= q.subrange(start as int, k as int).push(c));
                assert(words(tk1) =~= pre.push(q.subrange(start as int, k + 1)));
            } else {
                start = k;
                start_byte = byte;
                if k > 0 {
                    assert(tk1[tk1.len() - 2] == q[k - 1]);
                }
                assert(q.subrange(k as int, k + 1) =~= seq![c]);
                assert(words(tk1) =~= words(tk).push(seq![c]));
            }
            byte = byte + utf8_width(c);
            k = k + 1;
            in_word = true;
        }
    }
    if in_word {
        proof {
            lemma_boundary_at(q, start as int);
        }
        let w = slice(s, Ghost(start as int), Ghost(k as int), start_byte, total);
        let ghost before = out@;
        out.push(w);
        assert(out@.map_values(|w: &str| w@) =~= before.map_values(|w: &str| w@).push(q.subrange(start as int, k as int)));
    } else {
        assert(out@.map_values(|w: &str| w@) =~= out@.map_values(|w: &str| w@) + Seq::<Seq<char>>::empty());
    }
    out
}


/// ASCII lowercase of one character (`char::to_ascii_lowercase`).
pub open spec fn lower_char(c: char) -> char {
    if 'A' <= c && c <= 'Z' {
        ((c as u32) + 32) as char
    } else {
        c
    }
}

/// ASCII lowercase of one character.
pub fn to_lower_char(c: char) -> (r: char)
    ensures
        r == lower_char(c),
{
    if 'A' <= c && c <= 'Z' {
        let v = (c as u8) + 32;
        v as char
    } else {
        c
    }
}

/// `s` with ASCII letters lowercased (`str::to_ascii_lowercase`).
pub fn to_ascii_lowercase(s: &str) -> (r: String)
    ensures
        r@ == s@.map_values(|c: char| lower_char(c)),
{
    let ghost q = s@;
    let mut out = String::new();
    for c in it: s.chars()
        invariant
            q == s@,
            it.seq() == q,
            out@ == q.take(it.index()).map_values(|c: char| lower_char(c)),
    {
        let ghost k = it.index();
        assert(c == q[k]);
        push_char(&mut out, to_lower_char(c));
        assert(q.take(k + 1) =~= q.take(k).push(c));
        assert(out@ =~= q.take(k + 1).map_values(|c: char| lower_char(c)));
    }
    assert(q.take(q.len() as int) =~= q);
    out
}

/// The ASCII digit for `d < 10`.
pub open spec fn digit_char(d: nat) -> char {
    (48 + d) as char
}

/// The decimal digits of `n`, most significant first, without leading zeros.
pub open spec fn decimal_spec(n: nat) -> Seq<char>
    decreases n,
{
    if n < 10 {
        seq![digit_char(n)]
    } else {
        decimal_spec(n / 10).push(digit_char(n % 10))
    }
}

/// The ASCII digit for `d < 10`.
fn digit(d: u64) -> (c: char)
    requires
        d < 10,
    ensures
        c == digit_char(d as nat),
{
    let v = (d as u8) + 48;
    v as char
}

/// Appends the decimal digits of `n`.
pub fn push_decimal(out: &mut String, n: u64)
    ensures
        final(out)@ == old(out)@ + decimal_spec(n as nat),
    decreases n,
{
    if n < 10 {
        push_char(out, digit(n));
        assert(final(out)@ =~= old(out)@ + decimal_spec(n as nat));
    } else {
        push_decimal(out, n / 10);
        push_char(out, digit(n % 10));
        assert(final(out)@ =~= old(out)@ + decimal_spec(n as nat));
    }
}

/// The decimal text of `n` (`u64::to_string`).
pub fn u64_to_string(n: u64) -> (r: String)
    ensures
        r@ == decimal_spec(n as nat),
{
    let mut out = String::new();
    push_decimal(&mut out, n);
    assert(out@ =~= decimal_spec(n as nat));
    out
}

/// Whether `c` is an ASCII digit.
pub open spec fn is_digit(c: char) -> bool {
    '0' <= c && c <= '9'
}

/// The value of a string of ASCII digits, most significant first.
pub open spec fn digits_value(s: Seq<char>) -> nat
    decreases s.len(),
{
    if s.len() == 0 {
        0
    } else {
        digits_value(s.drop_last()) * 10 + ((s.last() as u32) - 48) as nat
    }
}

/// Whether every character of `s` is an ASCII digit.
pub open spec fn all_digits(s: Seq<char>) -> bool {
    forall|i: int| 0 <= i < s.len() ==> is_digit(#[trigger] s[i])
}

/// What `s.parse::<u64>()` accepts: an optional `'+'`, then one or more
/// ASCII digits whose value fits in a `u64`.
pub open spec fn parse_u64_spec(s: Seq<char>) -> Option<u64> {
    let d = if s.len() > 0 && s[0] == '+' { s.drop_first() } else { s };
    if d.len() > 0 && all_digits(d) && digits_value(d) <= u64::MAX {
        Some(digits_value(d) as u64)
    } else {
        None
    }
}

/// A prefix of a digit string is worth no more than the whole.
proof fn lemma_digits_prefix_le(s: Seq<char>, k: int)
    requires
        0 <= k <= s.len(),
        all_digits(s),
    ensures
        digits_value(s.take(k)) <= digits_value(s),
    decreases s.len(),
{
    if k < s.len() {
        assert(s.drop_last().take(k) =~= s.take(k));
        assert(all_digits(s.drop_last()));
        lemma_digits_prefix_le(s.drop_last(), k);
    } else {
        assert(s.take(k) =~= s);
    }
}

/// Parses digits `d`, giving their value when it does not exceed `limit`.
fn parse_digits(d: &str, limit: u64) -> (r: Option<u64>)
    requires
        limit >= 9,
    ensures
        r is Some <==> (d@.len() > 0 && all_digits(d@) && digits_value(d@) <= limit),
        r matches Some(v) ==> v == digits_value(d@),
{
    let ghost q = d@;
    let mut acc: u64 = 0;
    let mut ok = true;
    let mut any = false;
    for c in it: d.chars()
        invariant
            q == d@,
            it.seq() == q,
            any == (it.index() > 0),
            limit >= 9,
            ok ==> all_digits(q.take(it.index())) && digits_value(q.take(it.index())) <= limit
                && acc == digits_value(q.take(it.index())),
            !ok ==> !(all_digits(q) && digits_value(q) <= limit),
    {
        let ghost k = it.index();
        assert(c == q[k]);
        let ghost t = q.take(k + 1);
        assert(t.drop_last() =~= q.take(k));
        assert(t.last() == c);
        any = true;
        if ok {
            if '0' <= c && c <= '9' {
                let dv = (c as u32 - 48) as u64;
                assert(dv < 10);
                if acc > (limit - dv) / 10 {
                    ok = false;
                    proof {
                        assert(digits_value(t) == acc * 10 + dv);
                        assert(acc * 10 + dv > limit) by (nonlinear_arith)
                            requires acc > (limit - dv) / 10, dv < 10, limit >= 9;
                        if all_digits(q) {
                            lemma_digits_prefix_le(q, k + 1);
                        }
                    }
                } else {
                    proof {
                        assert(acc * 10 + dv <= limit) by (nonlinear_arith)
                            requires acc <= (limit - dv) / 10, dv < 10;
                    }
                    acc = acc * 10 + dv;
                    assert(all_digits(t));
                }
            } else {
                ok = false;
                assert(!is_digit(q[k]));
                assert(!all_digits(q));
            }
        }
    }
    assert(q.take(q.len() as int) =~= q);
    if ok && any {
        Some(acc)
    } else {
        None
    }
}


/// Parses `s` as `s.parse::<u64>()` does.
pub fn parse_u64(s: &str) -> (r: Option<u64>)
    ensures
        r == parse_u64_spec(s@),
{
    let d = match strip_prefix_ascii(s, '+', 43u8) {
        Some(t) => t,
        None => s,
    };
    parse_digits(d, u64::MAX)
}

/// What `s.parse::<i64>()` accepts: an optional sign, then one or more ASCII
/// digits whose signed value fits in an `i64`.
pub open spec fn parse_i64_spec(s: Seq<char>) -> Option<i64> {
    if s.len() > 0 && s[0] == '-' {
        let d = s.drop_first();
        if d.len() > 0 && all_digits(d) && digits_value(d) <= 0x8000_0000_0000_0000 {
            Some((0 - digits_value(d)) as i64)
        } else {
            None
        }
    } else {
        let d = if s.len() > 0 && s[0] == '+' { s.drop_first() } else { s };
        if d.len() > 0 && all_digits(d) && digits_value(d) <= i64::MAX {
            Some(digits_value(d) as i64)
        } else {
            None
        }
    }
}

/// Parses `s` as `s.parse::<i64>()` does.
pub fn parse_i64(s: &str) -> (r: Option<i64>)
    ensures
        r == parse_i64_spec(s@),
{
    match strip_prefix_ascii(s, '-', 45u8) {
        Some(d) => match parse_digits(d, 0x8000_0000_0000_0000) {
            Some(v) => {
                if v == 0x8000_0000_0000_0000 {
                    Some(i64::MIN)
                } else {
                    Some(0 - (v as i64))
                }
            }
            None => None,
        },
        None => {
            let d = match strip_prefix_ascii(s, '+', 43u8) {
                Some(t) => t,
                None => s,
            };
            match parse_digits(d, 0x7FFF_FFFF_FFFF_FFFF) {
                Some(v) => Some(v as i64),
                None => None,
            }
        }
    }
}


/// The pieces of `s` between occurrences of any character of `delims`, in
/// order (`str::split` with a set of characters): one more piece than there
/// are delimiters, pieces possibly empty.
pub open spec fn split_spec(s: Seq<char>, delims: Seq<char>) -> Seq<Seq<char>>
    decreases s.len(),
{
    if s.len() == 0 {
        seq![seq![]]
    } else if delims.contains(s.last()) {
        split_spec(s.drop_last(), delims).push(seq![])
    } else {
        let p = split_spec(s.drop_last(), delims);
        p.update(p.len() - 1, p.last().push(s.last()))
    }
}

/// `split_spec` always yields at least one piece.
pub proof fn lemma_split_nonempty(s: Seq<char>, delims: Seq<char>)
    ensures
        split_spec(s, delims).len() >= 1,
    decreases s.len(),
{
    if s.len() > 0 {
        lemma_split_nonempty(s.drop_last(), delims);
    }
}

/// Whether `c` is one of `delims`.
fn is_delim(c: char, delims: &[char]) -> (b: bool)
    ensures
        b == delims@.contains(c),
{
    let mut i: usize = 0;
    while i < delims.len()
        invariant
            0 <= i <= delims.len(),
            forall|j: int| 0 <= j < i ==> delims@[j] != c,
        decreases delims.len() - i,
    {
        if delims[i] == c {
            return true;
        }
        i = i + 1;
    }
    false
}

/// The pieces of `s` between occurrences of any of `delims`, as slices of `s`.
pub fn split_chars<'a>(s: &'a str, delims: &[char]) -> (r: Vec<&'a str>)
    ensures
        r@.map_values(|w: &str| w@) == split_spec(s@, delims@),
{
    let ghost q = s@;
    let ghost ds = delims@;
    let mut out: Vec<&'a str> = Vec::new();
    let mut k: usize = 0;
    let mut byte: usize = 0;
    let mut start: usize = 0;
    let mut start_byte: usize = 0;
    let total = s.as_bytes().len();
    proof {
        lemma_byte_len_grows(q, 0, 0);
        lemma_boundary_at(q, q.len() as int);
        assert(q.take(q.len() as int) =~= q);
        assert(q.take(0) =~= Seq::<char>::empty());
    }
    for c in it: s.chars()
        invariant
            q == s@,
            ds == delims@,
            it.seq() == q,
            k == it.index(),
            total == byte_len(q),
            byte == byte_len(q.take(k as int)),
            start <= k,
            start_byte == byte_len(q.take(start as int)),
            split_spec(q.take(k as int), ds) == out@.map_values(|w: &str| w@).push(q.subrange(start as int, k as int)),
    {
        assert(c == q[k as int]);
        let ghost tk = q.take(k as int);
        let ghost tk1 = q.take(k + 1);
        proof {
            lemma_byte_len_push(tk, c);
            assert(tk1 =~= tk.push(c));
            assert(tk1.drop_last() =~= tk);
            assert(tk1.last() == c);
            lemma_boundary_at(q, k + 1);
            lemma_byte_len_grows(q, 0, 0);
            lemma_boundary_at(q, start as int);
        }
        let ghost pre = out@.map_values(|w: &str| w@);
        if is_delim(c, delims) {
            let w = slice(s, Ghost(start as int), Ghost(k as int), start_byte, byte);
            out.push(w);
            assert(out@.map_values(|w: &str| w@) =~= pre.push(q.subrange(start as int, k as int)));
            byte = byte + utf8_width(c);
            k = k + 1;
            start = k;
            start_byte = byte;
            assert(q.subrange(k as int, k as int) =~= Seq::<char>::empty());
        } else {
            assert(q.subrange(start as int, k + 1) =~= q.subrange(start as int, k as int).push(c));
            assert(split_spec(tk1, ds) =~= pre.push(q.subrange(start as int, k + 1)));
            byte = byte + utf8_width(c);
            k = k + 1;
        }
    }
    proof {
        lemma_boundary_at(q, start as int);
    }
    let w = slice(s, Ghost(start as int), Ghost(k as int), start_byte, total);
    let ghost pre = out@.map_values(|w: &str| w@);
    out.push(w);
    assert(out@.map_values(|w: &str| w@) =~= pre.push(q.subrange(start as int, k as int)));
    out
}

/// Whether `s` is empty (a character count of zero).
pub fn is_empty_str(s: &str) -> (b: bool)
    ensures
        b == (s@.len() == 0),
{
    proof {
        if s@.len() > 0 {
            crate::text::lemma_byte_len_grows(s@, 0, 0);
        }
    }
    s.as_bytes().len() == 0
}


/// `str::strip_prefix` with a string pattern: the rest of `s` after `prefix`
/// when `s` starts with it.
#[verifier::external_body]
pub(crate) fn strip_prefix<'a>(s: &'a str, prefix: &str) -> (r: Option<&'a str>)
    ensures
        r is Some <==> (prefix@.len() <= s@.len() && s@.take(prefix@.len() as int) == prefix@),
        r matches Some(t) ==> t@ == s@.skip(prefix@.len() as int),
{
    s.strip_prefix(prefix)
}

} // verus!
