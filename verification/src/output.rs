//! What the command line prints for the hits of a search, one line each.
use vstd::prelude::*;
use vstd::string::*;
use vstd::utf8::{decode_utf8, encode_utf8, encode_utf8_decode_utf8};
use crate::cli::{json_escape, json_escape_spec, Output};
use crate::model::Match;
use crate::strings::{decimal_spec, push_char, push_decimal, str_eq, u64_to_string};

verus! {

/// `a` comes before `b` in byte order, the order of `str`.
pub open spec fn bytes_before(a: Seq<u8>, b: Seq<u8>) -> bool
    decreases a.len(),
{
    if b.len() == 0 {
        false
    } else if a.len() == 0 {
        true
    } else if a[0] != b[0] {
        a[0] < b[0]
    } else {
        bytes_before(a.drop_first(), b.drop_first())
    }
}

/// The text `a` comes before the text `b` in the order of `str`.
pub open spec fn text_before(a: Seq<char>, b: Seq<char>) -> bool {
    bytes_before(encode_utf8(a), encode_utf8(b))
}

/// Of two different byte strings, one comes first.
proof fn lemma_bytes_total(a: Seq<u8>, b: Seq<u8>)
    requires
        a != b,
    ensures
        bytes_before(a, b) || bytes_before(b, a),
    decreases a.len(),
{
    if a.len() > 0 && b.len() > 0 && a[0] == b[0] {
        if a.drop_first() == b.drop_first() {
            assert(a =~= seq![a[0]] + a.drop_first());
            assert(b =~= seq![b[0]] + b.drop_first());
        }
        lemma_bytes_total(a.drop_first(), b.drop_first());
    } else if a.len() == 0 && b.len() == 0 {
        assert(a =~= b);
    }
}

/// Of two different texts, one comes first.
proof fn lemma_text_total(a: Seq<char>, b: Seq<char>)
    requires
        a != b,
    ensures
        text_before(a, b) || text_before(b, a),
{
    broadcast use encode_utf8_decode_utf8;
    if encode_utf8(a) == encode_utf8(b) {
        assert(decode_utf8(encode_utf8(a)) == a);
        assert(decode_utf8(encode_utf8(b)) == b);
        assert(a == b);
    }
    lemma_bytes_total(encode_utf8(a), encode_utf8(b));
}

/// Whether `a` comes before `b` in the order of `str`.
fn str_before(a: &str, b: &str) -> (r: bool)
    ensures
        r == text_before(a@, b@),
{
    let x = a.as_bytes();
    let y = b.as_bytes();
    let ghost xa = x@;
    let ghost ya = y@;
    let mut i: usize = 0;
    assert(xa.skip(0) =~= xa);
    assert(ya.skip(0) =~= ya);
    while i < x.len() && i < y.len() && x[i] == y[i]
        invariant
            x@ == xa,
            y@ == ya,
            xa == encode_utf8(a@),
            ya == encode_utf8(b@),
            i <= x.len(),
            i <= y.len(),
            bytes_before(xa, ya) == bytes_before(xa.skip(i as int), ya.skip(i as int)),
        decreases x.len() - i,
    {
        assert(xa.skip(i + 1) =~= xa.skip(i as int).drop_first());
        assert(ya.skip(i + 1) =~= ya.skip(i as int).drop_first());
        i = i + 1;
    }
    if i == y.len() {
        false
    } else if i == x.len() {
        true
    } else {
        x[i] < y[i]
    }
}

/// The paths of the hits.
pub open spec fn hit_paths(hits: Seq<Match>) -> Seq<Seq<char>> {
    hits.map_values(|m: Match| m.path@)
}

/// The views of some strings.
pub open spec fn string_views(v: Seq<String>) -> Seq<Seq<char>> {
    v.map_values(|s: String| s@)
}

/// Each text comes before the next one: `ps` is in the order of `str`,
/// without repeats.
pub open spec fn ascending(ps: Seq<Seq<char>>) -> bool {
    forall|j: int| 0 <= j < ps.len() - 1 ==> #[trigger] text_before(ps[j], ps[j + 1])
}

/// The paths of the hits, each once, in the order of `str` (as a
/// `BTreeSet` of them gives them).
pub fn distinct_paths(hits: &Vec<Match>) -> (r: Vec<String>)
    ensures
        ascending(string_views(r@)),
        forall|p: Seq<char>| string_views(r@).contains(p) <==> hit_paths(hits@).contains(p),
{
    let mut out: Vec<String> = Vec::new();
    for k in 0..hits.len()
        invariant
            ascending(string_views(out@)),
            forall|p: Seq<char>| string_views(out@).contains(p) <==> hit_paths(hits@).take(k as int).contains(p),
    {
        let p = hits[k].path.as_str();
        let ghost ov = string_views(out@);
        let mut i: usize = 0;
        while i < out.len() && str_before(out[i].as_str(), p)
            invariant
                ov == string_views(out@),
                i <= out.len(),
                i > 0 ==> text_before(ov[i - 1], p@),
            decreases out.len() - i,
        {
            i = i + 1;
        }
        let ghost take_next = hit_paths(hits@).take(k + 1);
        assert(take_next =~= hit_paths(hits@).take(k as int).push(p@));
        if i < out.len() && str_eq(out[i].as_str(), p) {
            assert(ov[i as int] == p@);
            assert forall|q: Seq<char>| ov.contains(q) <==> take_next.contains(q) by {
                if take_next.contains(q) {
                    let j = choose|j: int| 0 <= j < take_next.len() && take_next[j] == q;
                    if j < k {
                        assert(hit_paths(hits@).take(k as int)[j] == q);
                    } else {
                        assert(ov[i as int] == q);
                    }
                }
                if ov.contains(q) {
                    assert(hit_paths(hits@).take(k as int).contains(q));
                    let j = choose|j: int| 0 <= j < k && hit_paths(hits@).take(k as int)[j] == q;
                    assert(take_next[j] == q);
                }
            }
        } else {
            proof {
                if i < out.len() {
                    lemma_text_total(ov[i as int], p@);
                }
            }
            out.insert(i, p.to_string());
            let ghost nv = string_views(out@);
            assert(nv =~= ov.insert(i as int, p@));
            assert forall|j: int| 0 <= j < nv.len() - 1 implies #[trigger] text_before(nv[j], nv[j + 1]) by {
                if j + 1 < i {
                    assert(text_before(ov[j], ov[j + 1]));
                } else if j + 1 == i {
                } else if j == i {
                } else {
                    assert(nv[j] == ov[j - 1] && nv[j + 1] == ov[j]);
                    assert(text_before(ov[j - 1], ov[j - 1 + 1]));
                }
            }
            assert forall|q: Seq<char>| nv.contains(q) <==> take_next.contains(q) by {
                if take_next.contains(q) {
                    let j = choose|j: int| 0 <= j < take_next.len() && take_next[j] == q;
                    if j < k {
                        assert(hit_paths(hits@).take(k as int)[j] == q);
                        assert(ov.contains(q));
                        let t = choose|t: int| 0 <= t < ov.len() && ov[t] == q;
                        if t < i {
                            assert(nv[t] == q);
                        } else {
                            assert(nv[t + 1] == q);
                        }
                    } else {
                        assert(nv[i as int] == q);
                    }
                }
                if nv.contains(q) {
                    let t = choose|t: int| 0 <= t < nv.len() && nv[t] == q;
                    if t == i {
                        assert(take_next[k as int] == q);
                    } else {
                        let u = if t < i { t } else { t - 1 };
                        assert(ov[u] == q);
                        assert(ov.contains(q));
                        assert(hit_paths(hits@).take(k as int).contains(q));
                        let j = choose|j: int| 0 <= j < k && hit_paths(hits@).take(k as int)[j] == q;
                        assert(take_next[j] == q);
                    }
                }
            }
        }
    }
    assert(hit_paths(hits@).take(hits.len() as int) =~= hit_paths(hits@));
    out
}

/// A hit as a plain line: `path:line: text`.
pub open spec fn plain_line(m: Match) -> Seq<char> {
    m.path@ + seq![':'] + decimal_spec(m.line_start as nat) + seq![':', ' '] + m.text@
}

/// A hit as a JSON object on one line, with its path, first line and text.
pub open spec fn json_line(m: Match) -> Seq<char> {
    "{\"path\":\""@ + json_escape_spec(m.path@) + "\",\"line\":"@ + decimal_spec(m.line_start as nat)
        + ",\"text\":\""@ + json_escape_spec(m.text@) + "\"}"@
}

/// The lines printed for the hits in each output mode: one plain or JSON
/// line per hit, the number of hits, or the paths of the files with hits
/// (each once, in the order of `str`).
pub fn output_lines(output: Output, hits: &Vec<Match>) -> (r: Vec<String>)
    requires
        hits@.len() <= u64::MAX,
    ensures
        match output {
            Output::Lines => string_views(r@) == hits@.map_values(|m: Match| plain_line(m)),
            Output::Json => string_views(r@) == hits@.map_values(|m: Match| json_line(m)),
            Output::Count => string_views(r@) == seq![decimal_spec(hits@.len())],
            Output::FilesOnly => {
                &&& ascending(string_views(r@))
                &&& forall|p: Seq<char>| string_views(r@).contains(p) <==> hit_paths(hits@).contains(p)
            },
        },
{
    match output {
        Output::Count => {
            let v = vec![u64_to_string(hits.len() as u64)];
            assert(string_views(v@) =~= seq![decimal_spec(hits@.len())]);
            v
        },
        Output::FilesOnly => distinct_paths(hits),
        _ => {
            let json = output == Output::Json;
            let mut out: Vec<String> = Vec::new();
            for k in 0..hits.len()
                invariant
                    json == (output == Output::Json),
                    output != Output::Count && output != Output::FilesOnly,
                    string_views(out@) == hits@.take(k as int).map_values(
                        |m: Match| if json { json_line(m) } else { plain_line(m) },
                    ),
            {
                let m = &hits[k];
                let mut s = String::new();
                if json {
                    s.append("{\"path\":\"");
                    s.append(json_escape(m.path.as_str()).as_str());
                    s.append("\",\"line\":");
                    push_decimal(&mut s, m.line_start);
                    s.append(",\"text\":\"");
                    s.append(json_escape(m.text.as_str()).as_str());
                    s.append("\"}");
                    assert(s@ =~= json_line(*m));
                } else {
                    s.append(m.path.as_str());
                    push_char(&mut s, ':');
                    push_decimal(&mut s, m.line_start);
                    push_char(&mut s, ':');
                    push_char(&mut s, ' ');
                    s.append(m.text.as_str());
                    assert(s@ =~= plain_line(*m));
                }
                let ghost before = out@;
                out.push(s);
                assert(hits@.take(k + 1) =~= hits@.take(k as int).push(*m));
                assert(string_views(out@) =~= string_views(before).push(s@));
                assert(string_views(out@) =~= hits@.take(k + 1).map_values(
                    |m: Match| if json { json_line(m) } else { plain_line(m) },
                ));
            }
            assert(hits@.take(hits.len() as int) =~= hits@);
            if json {
                assert(string_views(out@) =~= hits@.map_values(|m: Match| json_line(m)));
            } else {
                assert(string_views(out@) =~= hits@.map_values(|m: Match| plain_line(m)));
            }
            out
        },
    }
}

} // verus!
