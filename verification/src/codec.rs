use vstd::prelude::*;
use vstd::string::{StrSliceExecFns, StringExecFns};

use crate::station::{views, Station, StationView};

verus! {

// ---------------------------------------------------------------------------
// String escaping: every character is representable inside a document
// string.  Quote and backslash are backslash-escaped, control characters
// become a \u00XX block, everything else stands verbatim.
// ---------------------------------------------------------------------------
/// Characters that stand in a document string verbatim.
pub open spec fn plain_char(c: char) -> bool {
    c != '"' && c != '\\' && (c as u32) >= 0x20
}

/// The lowercase hexadecimal digit for a value below sixteen.
pub open spec fn hex_digit(n: int) -> char {
    if n == 0 {
        '0'
    } else if n == 1 {
        '1'
    } else if n == 2 {
        '2'
    } else if n == 3 {
        '3'
    } else if n == 4 {
        '4'
    } else if n == 5 {
        '5'
    } else if n == 6 {
        '6'
    } else if n == 7 {
        '7'
    } else if n == 8 {
        '8'
    } else if n == 9 {
        '9'
    } else if n == 10 {
        'a'
    } else if n == 11 {
        'b'
    } else if n == 12 {
        'c'
    } else if n == 13 {
        'd'
    } else if n == 14 {
        'e'
    } else {
        'f'
    }
}

/// The value of a lowercase hexadecimal digit, and -1 for anything else.
pub open spec fn hex_val(c: char) -> int {
    if c == '0' {
        0
    } else if c == '1' {
        1
    } else if c == '2' {
        2
    } else if c == '3' {
        3
    } else if c == '4' {
        4
    } else if c == '5' {
        5
    } else if c == '6' {
        6
    } else if c == '7' {
        7
    } else if c == '8' {
        8
    } else if c == '9' {
        9
    } else if c == 'a' {
        10
    } else if c == 'b' {
        11
    } else if c == 'c' {
        12
    } else if c == 'd' {
        13
    } else if c == 'e' {
        14
    } else if c == 'f' {
        15
    } else {
        -1
    }
}

pub open spec fn is_hex(c: char) -> bool {
    hex_val(c) >= 0
}

/// The character with the given code point (used for codes below 0x20).
pub open spec fn char_of_code(n: int) -> char {
    (n as u8) as char
}

/// The escape block written for one character.
pub open spec fn escape_char(c: char) -> Seq<char> {
    if c == '"' {
        seq!['\\', '"']
    } else if c == '\\' {
        seq!['\\', '\\']
    } else if (c as u32) < 0x20 {
        seq!['\\', 'u', '0', '0', hex_digit(c as u32 as int / 16), hex_digit(c as u32 as int % 16)]
    } else {
        seq![c]
    }
}

/// The document form of a field: each character escaped as needed.
pub open spec fn escape(s: Seq<char>) -> Seq<char>
    decreases s.len(),
{
    if s.len() == 0 {
        Seq::empty()
    } else {
        escape_char(s[0]) + escape(s.skip(1))
    }
}

// ---------------------------------------------------------------------------
// The document model: the exact JSON text written for a station collection.
// ---------------------------------------------------------------------------
pub open spec fn id_prefix() -> Seq<char> {
    seq!['{', '"', 'i', 'd', '"', ':', '"']
}

pub open spec fn location_prefix() -> Seq<char> {
    seq!['"', ',', '"', 'l', 'o', 'c', 'a', 't', 'i', 'o', 'n', '"', ':', '"']
}

pub open spec fn intensity_prefix() -> Seq<char> {
    seq!['"', ',', '"', 'i', 'n', 't', 'e', 'n', 's', 'i', 't', 'y', '"', ':', '"']
}

pub open spec fn station_suffix() -> Seq<char> {
    seq!['"', '}']
}

/// The JSON object written for one station.
pub open spec fn station_json(v: StationView) -> Seq<char> {
    id_prefix() + escape(v.id) + location_prefix() + escape(v.location) + intensity_prefix()
        + escape(v.intensity) + station_suffix()
}

/// The comma-separated objects inside the array brackets.
pub open spec fn stations_body(s: Seq<StationView>) -> Seq<char>
    decreases s.len(),
{
    if s.len() == 0 {
        Seq::empty()
    } else if s.len() == 1 {
        station_json(s[0])
    } else {
        station_json(s[0]) + seq![','] + stations_body(s.skip(1))
    }
}

/// The full JSON document for a station collection.
pub open spec fn stations_json(s: Seq<StationView>) -> Seq<char> {
    seq!['['] + stations_body(s) + seq![']']
}

// ---------------------------------------------------------------------------
// The parser model: the unique collection a text decodes to, if any.
// ---------------------------------------------------------------------------
/// `lit` occurs in `t` at position `i`.
pub open spec fn match_at(t: Seq<char>, i: int, lit: Seq<char>) -> bool {
    0 <= i && i + lit.len() <= t.len() && t.subrange(i, i + lit.len()) == lit
}

/// Parse a string body from `i` to its closing quote: the unescaped content
/// and the position of that quote.
pub open spec fn parse_string(t: Seq<char>, i: int) -> Option<(Seq<char>, int)>
    decreases t.len() - i,
{
    if i < 0 || i >= t.len() {
        None
    } else if t[i] == '"' {
        Some((Seq::<char>::empty(), i))
    } else if t[i] == '\\' {
        if i + 1 < t.len() && (t[i + 1] == '"' || t[i + 1] == '\\') {
            match parse_string(t, i + 2) {
                None => None,
                Some((s, j)) => Some((seq![t[i + 1]] + s, j)),
            }
        } else if i + 5 < t.len() && t[i + 1] == 'u' && t[i + 2] == '0' && t[i + 3] == '0'
            && is_hex(t[i + 4]) && is_hex(t[i + 5]) && 16 * hex_val(t[i + 4]) + hex_val(t[i + 5])
            < 0x20 {
            match parse_string(t, i + 6) {
                None => None,
                Some(
                    (s, j),
                ) => Some((seq![char_of_code(16 * hex_val(t[i + 4]) + hex_val(t[i + 5]))] + s, j)),
            }
        } else {
            None
        }
    } else if plain_char(t[i]) {
        match parse_string(t, i + 1) {
            None => None,
            Some((s, j)) => Some((seq![t[i]] + s, j)),
        }
    } else {
        None
    }
}

/// Parse one station object at `i`: the station and the position just past
/// its closing brace.
pub open spec fn parse_station(t: Seq<char>, i: int) -> Option<(StationView, int)> {
    if !match_at(t, i, id_prefix()) {
        None
    } else {
        let p1 = i + id_prefix().len();
        match parse_string(t, p1) {
            None => None,
            Some((idf, q1)) => {
                if !match_at(t, q1, location_prefix()) {
                    None
                } else {
                    let p2 = q1 + location_prefix().len();
                    match parse_string(t, p2) {
                        None => None,
                        Some((locf, q2)) => {
                            if !match_at(t, q2, intensity_prefix()) {
                                None
                            } else {
                                let p3 = q2 + intensity_prefix().len();
                                match parse_string(t, p3) {
                                    None => None,
                                    Some((intf, q3)) => {
                                        if !match_at(t, q3, station_suffix()) {
                                            None
                                        } else {
                                            Some(
                                                (
                                                    StationView {
                                                        id: idf,
                                                        location: locf,
                                                        intensity: intf,
                                                    },
                                                    q3 + 2,
                                                ),
                                            )
                                        }
                                    },
                                }
                            }
                        },
                    }
                }
            },
        }
    }
}

/// Parse one or more comma-separated stations from `i` up to exactly `end`.
pub open spec fn parse_body(t: Seq<char>, i: int, end: int) -> Option<Seq<StationView>>
    decreases end - i,
{
    match parse_station(t, i) {
        None => None,
        Some((v, j)) => {
            if j <= i {
                None  // a parsed station is never empty; this keeps the recursion visibly bounded
            } else if j == end {
                Some(seq![v])
            } else if j < end && t[j] == ',' {
                match parse_body(t, j + 1, end) {
                    None => None,
                    Some(rest) => Some(seq![v] + rest),
                }
            } else {
                None
            }
        },
    }
}

/// Parse a full document: a JSON array of station objects.
pub open spec fn parse_stations(t: Seq<char>) -> Option<Seq<StationView>> {
    if t.len() < 2 || t[0] != '[' || t[t.len() - 1] != ']' {
        None
    } else if t.len() == 2 {
        Some(Seq::empty())
    } else {
        parse_body(t, 1, t.len() - 1)
    }
}

// ---------------------------------------------------------------------------
// The encoder.
// ---------------------------------------------------------------------------
proof fn lemma_literal_views()
    ensures
        "{\"id\":\""@ == id_prefix(),
        "\",\"location\":\""@ == location_prefix(),
        "\",\"intensity\":\""@ == intensity_prefix(),
        "\"}"@ == station_suffix(),
        "["@ == seq!['['],
        "]"@ == seq![']'],
        ","@ == seq![','],
{
    reveal_strlit("{\"id\":\"");
    reveal_strlit("\",\"location\":\"");
    reveal_strlit("\",\"intensity\":\"");
    reveal_strlit("\"}");
    reveal_strlit("[");
    reveal_strlit("]");
    reveal_strlit(",");
    assert("{\"id\":\""@ =~= id_prefix());
    assert("\",\"location\":\""@ =~= location_prefix());
    assert("\",\"intensity\":\""@ =~= intensity_prefix());
    assert("\"}"@ =~= station_suffix());
    assert("["@ =~= seq!['[']);
    assert("]"@ =~= seq![']']);
    assert(","@ =~= seq![',']);
}

proof fn lemma_escape_snoc(u: Seq<char>, c: char)
    ensures
        escape(u.push(c)) == escape(u) + escape_char(c),
    decreases u.len(),
{
    if u.len() == 0 {
        assert(u.push(c)[0] == c);
        assert(u.push(c).skip(1) =~= Seq::<char>::empty());
        assert(escape(Seq::<char>::empty()) == Seq::<char>::empty());
        assert(escape(u.push(c)) == escape_char(c) + Seq::<char>::empty());
        assert(escape(u.push(c)) =~= escape(u) + escape_char(c));
    } else {
        assert(u.push(c)[0] == u[0]);
        assert(u.push(c).skip(1) =~= u.skip(1).push(c));
        lemma_escape_snoc(u.skip(1), c);
        assert(escape(u.push(c)) == escape_char(u[0]) + escape(u.skip(1).push(c)));
        assert(escape(u.push(c)) =~= escape(u) + escape_char(c));
    }
}

/// Over a run of plain characters the escaping is the identity.
proof fn lemma_escape_extend(s: Seq<char>, a: int, b: int)
    requires
        0 <= a <= b <= s.len(),
        forall|m: int| a <= m < b ==> plain_char(#[trigger] s[m]),
    ensures
        escape(s.take(b)) == escape(s.take(a)) + s.subrange(a, b),
    decreases b - a,
{
    if a == b {
        assert(s.subrange(a, b) =~= Seq::<char>::empty());
        assert(escape(s.take(a)) + s.subrange(a, b) =~= escape(s.take(a)));
    } else {
        lemma_escape_extend(s, a, b - 1);
        assert(s.take(b) =~= s.take(b - 1).push(s[b - 1]));
        lemma_escape_snoc(s.take(b - 1), s[b - 1]);
        assert(plain_char(s[b - 1]));
        assert(escape_char(s[b - 1]) == seq![s[b - 1]]);
        assert(escape(s.take(b)) =~= escape(s.take(a)) + s.subrange(a, b));
    }
}

/// The lowercase hexadecimal digit of `n`, as text.
fn hex_digit_str(n: u8) -> (r: &'static str)
    requires
        n < 16,
    ensures
        r@ == seq![hex_digit(n as int)],
{
    let digits = "0123456789abcdef";
    proof {
        reveal_strlit("0123456789abcdef");
    }
    let r = digits.substring_char(n as usize, n as usize + 1);
    proof {
        assert(r@ =~= seq![hex_digit(n as int)]);
    }
    r
}

/// Append the document form of `s` to `out`.
fn append_escaped(out: &mut String, s: &str)
    ensures
        final(out)@ == old(out)@ + escape(s@),
{
    let n = s.unicode_len();
    let mut start: usize = 0;
    let mut k: usize = 0;
    proof {
        assert(s@.take(0) =~= Seq::<char>::empty());
    }
    while k < n
        invariant
            n == s@.len(),
            0 <= start <= k <= n,
            out@ == old(out)@ + escape(s@.take(start as int)),
            forall|m: int| start <= m < k ==> plain_char(#[trigger] s@[m]),
        decreases n - k,
    {
        let c = s.get_char(k);
        if c == '"' || c == '\\' || (c as u32) < 0x20 {
            let ghost mid = out@;
            out.append(s.substring_char(start, k));
            if c == '"' {
                out.append("\\\"");
                proof {
                    reveal_strlit("\\\"");
                    assert("\\\""@ =~= escape_char('"'));
                }
            } else if c == '\\' {
                out.append("\\\\");
                proof {
                    reveal_strlit("\\\\");
                    assert("\\\\"@ =~= escape_char('\\'));
                }
            } else {
                out.append("\\u00");
                let code = c as u32;
                out.append(hex_digit_str((code / 16) as u8));
                out.append(hex_digit_str((code % 16) as u8));
                proof {
                    reveal_strlit("\\u00");
                    assert("\\u00"@ + seq![hex_digit(code as int / 16)] + seq![
                        hex_digit(code as int % 16),
                    ] =~= escape_char(c));
                }
            }
            proof {
                lemma_escape_extend(s@, start as int, k as int);
                assert(s@.take(k as int + 1) =~= s@.take(k as int).push(s@[k as int]));
                lemma_escape_snoc(s@.take(k as int), s@[k as int]);
                assert(out@ =~= old(out)@ + escape(s@.take(k as int + 1)));
            }
            start = k + 1;
        }
        k += 1;
    }
    out.append(s.substring_char(start, n));
    proof {
        lemma_escape_extend(s@, start as int, n as int);
        assert(s@.take(n as int) =~= s@);
        assert(out@ =~= old(out)@ + escape(s@));
    }
}

proof fn lemma_body_snoc(s: Seq<StationView>, v: StationView)
    ensures
        stations_body(s.push(v)) == if s.len() == 0 {
            station_json(v)
        } else {
            stations_body(s) + seq![','] + station_json(v)
        },
    decreases s.len(),
{
    if s.len() == 0 {
        assert(s.push(v)[0] == v);
        assert(stations_body(s.push(v)) =~= station_json(v));
    } else if s.len() == 1 {
        assert(s.push(v)[0] == s[0]);
        assert(s.push(v).skip(1) =~= seq![v]);
        assert(stations_body(seq![v]) == station_json(v));
        assert(stations_body(s.push(v)) =~= stations_body(s) + seq![','] + station_json(v));
    } else {
        lemma_body_snoc(s.skip(1), v);
        assert(s.push(v)[0] == s[0]);
        assert(s.push(v).skip(1) =~= s.skip(1).push(v));
        assert(stations_body(s.push(v)) =~= stations_body(s) + seq![','] + station_json(v));
    }
}

fn append_station(out: &mut String, st: &Station)
    ensures
        final(out)@ == old(out)@ + station_json(st@),
{
    out.append("{\"id\":\"");
    append_escaped(out, st.id.as_str());
    out.append("\",\"location\":\"");
    append_escaped(out, st.location.as_str());
    out.append("\",\"intensity\":\"");
    append_escaped(out, st.intensity.as_str());
    out.append("\"}");
    proof {
        lemma_literal_views();
        assert(out@ =~= old(out)@ + station_json(st@));
    }
}

/// Encode a station collection as its JSON document.  Every collection is
/// encodable: fields that need escaping are escaped.
pub fn encode_stations(stations: &Vec<Station>) -> (r: String)
    ensures
        r@ == stations_json(views(stations@)),
{
    let ghost vs = views(stations@);
    let mut out = String::new();
    out.append("[");
    proof {
        lemma_literal_views();
        assert(vs.take(0) =~= Seq::<StationView>::empty());
        assert(out@ =~= seq!['['] + stations_body(vs.take(0)));
    }
    let mut i: usize = 0;
    while i < stations.len()
        invariant
            vs == views(stations@),
            vs.len() == stations@.len(),
            0 <= i <= stations@.len(),
            out@ == seq!['['] + stations_body(vs.take(i as int)),
        decreases stations@.len() - i,
    {
        if i > 0 {
            out.append(",");
        }
        append_station(&mut out, &stations[i]);
        proof {
            lemma_literal_views();
            assert(stations@[i as int]@ == vs[i as int]);
            lemma_body_snoc(vs.take(i as int), vs[i as int]);
            assert(vs.take(i as int).push(vs[i as int]) =~= vs.take(i as int + 1));
            assert(out@ =~= seq!['['] + stations_body(vs.take(i as int + 1)));
        }
        i += 1;
    }
    out.append("]");
    proof {
        lemma_literal_views();
        assert(vs.take(vs.len() as int) =~= vs);
        assert(out@ =~= stations_json(vs));
    }
    out
}

// ---------------------------------------------------------------------------
// The decoder.
// ---------------------------------------------------------------------------
fn match_lit(t: &str, n: usize, i: usize, lit: &str) -> (r: bool)
    requires
        n == t@.len(),
    ensures
        r == match_at(t@, i as int, lit@),
{
    let m = lit.unicode_len();
    if i > n || n - i < m {
        return false;
    }
    let mut j: usize = 0;
    while j < m
        invariant
            n == t@.len(),
            m == lit@.len(),
            i + m <= n,
            0 <= j <= m,
            forall|k: int| 0 <= k < j ==> t@[i + k] == lit@[k],
        decreases m - j,
    {
        if t.get_char(i + j) != lit.get_char(j) {
            proof {
                let ii = i as int;
                let jj = j as int;
                if match_at(t@, ii, lit@) {
                    assert(t@.subrange(ii, ii + lit@.len())[jj] == t@[ii + jj]);
                }
            }
            return false;
        }
        j += 1;
    }
    proof {
        assert(t@.subrange(i as int, i as int + lit@.len()) =~= lit@);
    }
    true
}

/// The value of a lowercase hexadecimal digit.
fn hex_val_exec(c: char) -> (r: Option<u8>)
    ensures
        match r {
            Some(v) => is_hex(c) && v as int == hex_val(c) && v < 16,
            None => !is_hex(c),
        },
{
    if c == '0' {
        Some(0)
    } else if c == '1' {
        Some(1)
    } else if c == '2' {
        Some(2)
    } else if c == '3' {
        Some(3)
    } else if c == '4' {
        Some(4)
    } else if c == '5' {
        Some(5)
    } else if c == '6' {
        Some(6)
    } else if c == '7' {
        Some(7)
    } else if c == '8' {
        Some(8)
    } else if c == '9' {
        Some(9)
    } else if c == 'a' {
        Some(10)
    } else if c == 'b' {
        Some(11)
    } else if c == 'c' {
        Some(12)
    } else if c == 'd' {
        Some(13)
    } else if c == 'e' {
        Some(14)
    } else if c == 'f' {
        Some(15)
    } else {
        None
    }
}

/// The control character with code `v`, as text.
fn control_str(v: u8) -> (r: &'static str)
    requires
        v < 32,
    ensures
        r@ == seq![char_of_code(v as int)],
{
    let all =
        "\u{0}\u{1}\u{2}\u{3}\u{4}\u{5}\u{6}\u{7}\u{8}\u{9}\u{a}\u{b}\u{c}\u{d}\u{e}\u{f}\u{10}\u{11}\u{12}\u{13}\u{14}\u{15}\u{16}\u{17}\u{18}\u{19}\u{1a}\u{1b}\u{1c}\u{1d}\u{1e}\u{1f}";
    proof {
        reveal_strlit(
            "\u{0}\u{1}\u{2}\u{3}\u{4}\u{5}\u{6}\u{7}\u{8}\u{9}\u{a}\u{b}\u{c}\u{d}\u{e}\u{f}\u{10}\u{11}\u{12}\u{13}\u{14}\u{15}\u{16}\u{17}\u{18}\u{19}\u{1a}\u{1b}\u{1c}\u{1d}\u{1e}\u{1f}",
        );
    }
    let r = all.substring_char(v as usize, v as usize + 1);
    proof {
        assert(r@ =~= seq![char_of_code(v as int)]);
    }
    r
}

fn parse_string_exec(t: &str, n: usize, i: usize) -> (r: Option<(String, usize)>)
    requires
        n == t@.len(),
    ensures
        match r {
            Some(p) => parse_string(t@, i as int) == Some((p.0@, p.1 as int)) && i <= p.1 < n,
            None => parse_string(t@, i as int) is None,
        },
{
    if i >= n {
        return None;
    }
    let mut out = String::new();
    let mut j: usize = i;
    loop
        invariant
            n == t@.len(),
            i <= j <= n,
            forall|s: Seq<char>, e: int|
                parse_string(t@, j as int) == Some((s, e)) ==> parse_string(t@, i as int) == Some(
                    (out@ + s, e),
                ),
            parse_string(t@, j as int) is None ==> parse_string(t@, i as int) is None,
        decreases n - j,
    {
        if j >= n {
            return None;
        }
        let c = t.get_char(j);
        if c == '"' {
            proof {
                assert(parse_string(t@, j as int) == Some((Seq::<char>::empty(), j as int)));
                assert(out@ + Seq::<char>::empty() =~= out@);
            }
            return Some((out, j));
        }
        if c == '\\' {
            if j + 1 >= n {
                return None;
            }
            let c2 = t.get_char(j + 1);
            if c2 == '"' || c2 == '\\' {
                let ghost prev = out@;
                if c2 == '"' {
                    out.append("\"");
                    proof {
                        reveal_strlit("\"");
                    }
                } else {
                    out.append("\\");
                    proof {
                        reveal_strlit("\\");
                    }
                }
                proof {
                    assert(out@ =~= prev + seq![t@[j as int + 1]]);
                    assert forall|s: Seq<char>, e: int|
                        parse_string(t@, j as int + 2) == Some((s, e)) implies parse_string(
                        t@,
                        i as int,
                    ) == Some((out@ + s, e)) by {
                        assert(parse_string(t@, j as int) == Some((seq![t@[j as int + 1]] + s, e)));
                        assert(prev + (seq![t@[j as int + 1]] + s) =~= out@ + s);
                    }
                }
                j += 2;
            } else if c2 == 'u' {
                if n - j <= 5 {
                    return None;
                }
                if t.get_char(j + 2) != '0' || t.get_char(j + 3) != '0' {
                    return None;
                }
                let hv = hex_val_exec(t.get_char(j + 4));
                let lv = hex_val_exec(t.get_char(j + 5));
                match (hv, lv) {
                    (Some(a), Some(b)) => {
                        let v = 16 * a + b;
                        if v >= 32 {
                            return None;
                        }
                        let ghost prev = out@;
                        out.append(control_str(v));
                        proof {
                            let code = 16 * hex_val(t@[j as int + 4]) + hex_val(t@[j as int + 5]);
                            assert(out@ =~= prev + seq![char_of_code(code)]);
                            assert forall|s: Seq<char>, e: int|
                                parse_string(t@, j as int + 6) == Some((s, e)) implies parse_string(
                                t@,
                                i as int,
                            ) == Some((out@ + s, e)) by {
                                assert(parse_string(t@, j as int) == Some(
                                    (seq![char_of_code(code)] + s, e),
                                ));
                                assert(prev + (seq![char_of_code(code)] + s) =~= out@ + s);
                            }
                        }
                        j += 6;
                    },
                    _ => {
                        return None;
                    },
                }
            } else {
                return None;
            }
        } else if (c as u32) >= 0x20 {
            let ghost prev = out@;
            out.append(t.substring_char(j, j + 1));
            proof {
                assert(out@ =~= prev + seq![t@[j as int]]);
                assert forall|s: Seq<char>, e: int|
                    parse_string(t@, j as int + 1) == Some((s, e)) implies parse_string(
                    t@,
                    i as int,
                ) == Some((out@ + s, e)) by {
                    assert(parse_string(t@, j as int) == Some((seq![t@[j as int]] + s, e)));
                    assert(prev + (seq![t@[j as int]] + s) =~= out@ + s);
                }
            }
            j += 1;
        } else {
            return None;
        }
    }
}

#[verifier::rlimit(30)]
fn parse_station_exec(t: &str, n: usize, i: usize) -> (r: Option<(Station, usize)>)
    requires
        n == t@.len(),
    ensures
        match r {
            Some(p) => parse_station(t@, i as int) == Some((p.0@, p.1 as int)) && i < p.1 <= n,
            None => parse_station(t@, i as int) is None,
        },
{
    proof {
        lemma_literal_views();
    }
    if !match_lit(t, n, i, "{\"id\":\"") {
        return None;
    }
    let p1 = i + 7;
    let (id, q1) = match parse_string_exec(t, n, p1) {
        None => {
            return None;
        },
        Some(p) => p,
    };
    if !match_lit(t, n, q1, "\",\"location\":\"") {
        return None;
    }
    let p2 = q1 + 14;
    let (location, q2) = match parse_string_exec(t, n, p2) {
        None => {
            return None;
        },
        Some(p) => p,
    };
    if !match_lit(t, n, q2, "\",\"intensity\":\"") {
        return None;
    }
    let p3 = q2 + 15;
    let (intensity, q3) = match parse_string_exec(t, n, p3) {
        None => {
            return None;
        },
        Some(p) => p,
    };
    if !match_lit(t, n, q3, "\"}") {
        return None;
    }
    Some((Station { id, location, intensity }, q3 + 2))
}

proof fn lemma_views_push(s: Seq<Station>, st: Station)
    ensures
        views(s.push(st)) == views(s).push(st@),
{
    assert(views(s.push(st)) =~= views(s).push(st@));
}

#[verifier::rlimit(30)]
fn parse_body_exec(t: &str, n: usize, i: usize, end: usize) -> (r: Option<Vec<Station>>)
    requires
        n == t@.len(),
        end <= n,
    ensures
        match r {
            Some(v) => parse_body(t@, i as int, end as int) == Some(views(v@)),
            None => parse_body(t@, i as int, end as int) is None,
        },
{
    if i > n {
        return None;
    }
    let mut acc: Vec<Station> = Vec::new();
    let mut cur: usize = i;
    proof {
        assert(views(acc@) =~= Seq::<StationView>::empty());
    }
    loop
        invariant
            n == t@.len(),
            end <= n,
            cur <= n,
            forall|rest: Seq<StationView>|
                parse_body(t@, cur as int, end as int) == Some(rest) ==> parse_body(
                    t@,
                    i as int,
                    end as int,
                ) == Some(views(acc@) + rest),
            parse_body(t@, cur as int, end as int) is None ==> parse_body(
                t@,
                i as int,
                end as int,
            ) is None,
        decreases n - cur,
    {
        match parse_station_exec(t, n, cur) {
            None => {
                return None;
            },
            Some(pair) => {
                let (st, j) = pair;
                let ghost prev = acc@;
                if j == end {
                    acc.push(st);
                    proof {
                        lemma_views_push(prev, st);
                        assert(parse_body(t@, cur as int, end as int) == Some(seq![st@]));
                        assert(views(prev) + seq![st@] =~= views(acc@));
                    }
                    return Some(acc);
                } else if j < end && t.get_char(j) == ',' {
                    acc.push(st);
                    proof {
                        lemma_views_push(prev, st);
                        assert forall|rest: Seq<StationView>|
                            parse_body(t@, j + 1, end as int) == Some(rest) implies parse_body(
                            t@,
                            i as int,
                            end as int,
                        ) == Some(views(acc@) + rest) by {
                            assert(parse_body(t@, cur as int, end as int) == Some(
                                seq![st@] + rest,
                            ));
                            assert(views(prev) + (seq![st@] + rest) =~= views(acc@) + rest);
                        }
                        assert(parse_body(t@, j + 1, end as int) is None ==> parse_body(
                            t@,
                            cur as int,
                            end as int,
                        ) is None);
                    }
                    cur = j + 1;
                } else {
                    proof {
                        assert(parse_body(t@, cur as int, end as int) is None);
                    }
                    return None;
                }
            },
        }
    }
}

/// Decode a station-collection document; `None` when the text is not a valid
/// collection encoding.
pub fn decode_stations(text: &str) -> (r: Option<Vec<Station>>)
    ensures
        match r {
            Some(v) => parse_stations(text@) == Some(views(v@)),
            None => parse_stations(text@) is None,
        },
{
    let n = text.unicode_len();
    if n < 2 {
        return None;
    }
    if text.get_char(0) != '[' || text.get_char(n - 1) != ']' {
        return None;
    }
    if n == 2 {
        let v: Vec<Station> = Vec::new();
        proof {
            assert(views(v@) =~= Seq::<StationView>::empty());
        }
        return Some(v);
    }
    parse_body_exec(text, n, 1, n - 1)
}

// ---------------------------------------------------------------------------
// The round-trip law.
// ---------------------------------------------------------------------------
proof fn lemma_match_lit_elem(t: Seq<char>, i: int, lit: Seq<char>)
    requires
        0 <= i,
        i + lit.len() <= t.len(),
        forall|k: int| 0 <= k < lit.len() ==> t[i + k] == #[trigger] lit[k],
    ensures
        match_at(t, i, lit),
{
    assert(t.subrange(i, i + lit.len()) =~= lit);
}

proof fn lemma_hex_round(n: int)
    requires
        0 <= n < 16,
    ensures
        hex_val(hex_digit(n)) == n,
{
}

/// A character with a code below 0x20 is recovered from its code.
proof fn lemma_char_code_round(c: char)
    requires
        (c as u32) < 0x20,
    ensures
        char_of_code(c as u32 as int) == c,
{
    assert(char_of_code(c as u32 as int) as u32 == c as u32);
}

/// Where the document holds the escaped form of `s` followed by a quote,
/// the parser recovers exactly `s` and stops at that quote.
#[verifier::rlimit(50)]
proof fn lemma_parse_string_of_escape(t: Seq<char>, i: int, s: Seq<char>)
    requires
        0 <= i,
        i + escape(s).len() < t.len(),
        forall|k: int| 0 <= k < escape(s).len() ==> t[i + k] == #[trigger] escape(s)[k],
        t[i + escape(s).len()] == '"',
    ensures
        parse_string(t, i) == Some((s, i + escape(s).len())),
    decreases s.len(),
{
    if s.len() == 0 {
        assert(s =~= Seq::<char>::empty());
        assert(escape(s).len() == 0);
    } else {
        let c = s[0];
        let ec = escape_char(c);
        let el = ec.len() as int;
        let rest = escape(s.skip(1));
        assert(escape(s) == ec + rest);
        assert forall|k: int| 0 <= k < el implies t[i + k] == #[trigger] ec[k] by {
            assert(escape(s)[k] == ec[k]);
        }
        assert forall|k: int| 0 <= k < rest.len() implies t[i + el + k] == #[trigger] rest[k] by {
            assert(escape(s)[el + k] == rest[k]);
        }
        lemma_parse_string_of_escape(t, i + el, s.skip(1));
        if c == '"' {
            assert(ec[0] == '\\' && ec[1] == '"');
            assert(t[i + 0] == ec[0] && t[i + 1] == ec[1]);
            assert(t[i] == '\\' && t[i + 1] == '"');
            assert(seq![t[i + 1]] + s.skip(1) =~= s);
        } else if c == '\\' {
            assert(ec[0] == '\\' && ec[1] == '\\');
            assert(t[i + 0] == ec[0] && t[i + 1] == ec[1]);
            assert(t[i] == '\\' && t[i + 1] == '\\');
            assert(seq![t[i + 1]] + s.skip(1) =~= s);
        } else if (c as u32) < 0x20 {
            let hi = c as u32 as int / 16;
            let lo = c as u32 as int % 16;
            assert(ec[0] == '\\' && ec[1] == 'u' && ec[2] == '0' && ec[3] == '0');
            assert(ec[4] == hex_digit(hi) && ec[5] == hex_digit(lo));
            assert(t[i + 0] == ec[0] && t[i + 1] == ec[1] && t[i + 2] == ec[2] && t[i + 3] == ec[3]
                && t[i + 4] == ec[4] && t[i + 5] == ec[5]);
            assert(t[i] == '\\' && t[i + 1] == 'u' && t[i + 2] == '0' && t[i + 3] == '0');
            lemma_hex_round(hi);
            lemma_hex_round(lo);
            assert(16 * hi + lo == c as u32 as int);
            lemma_char_code_round(c);
            assert(char_of_code(16 * hex_val(t[i + 4]) + hex_val(t[i + 5])) == c);
            assert(seq![char_of_code(16 * hex_val(t[i + 4]) + hex_val(t[i + 5]))] + s.skip(1)
                =~= s);
        } else {
            assert(plain_char(c));
            assert(ec[0] == c);
            assert(t[i + 0] == ec[0]);
            assert(seq![t[i]] + s.skip(1) =~= s);
        }
    }
}

#[verifier::rlimit(80)]
proof fn lemma_parse_station_of_encode(t: Seq<char>, i: int, v: StationView)
    requires
        0 <= i,
        i + station_json(v).len() <= t.len(),
        t.subrange(i, i + station_json(v).len()) == station_json(v),
    ensures
        parse_station(t, i) == Some((v, i + station_json(v).len())),
{
    let sj = station_json(v);
    let l = sj.len() as int;
    assert forall|m: int| 0 <= m < l implies t[i + m] == #[trigger] sj[m] by {
        assert(t.subrange(i, i + l)[m] == t[i + m]);
    }
    let n0 = id_prefix().len() as int;
    let idl = escape(v.id).len() as int;
    let n1 = location_prefix().len() as int;
    let locl = escape(v.location).len() as int;
    let n2 = intensity_prefix().len() as int;
    let intl = escape(v.intensity).len() as int;
    let p1 = i + n0;
    let q1 = p1 + idl;
    let p2 = q1 + n1;
    let q2 = p2 + locl;
    let p3 = q2 + n2;
    let q3 = p3 + intl;
    assert(l == n0 + idl + n1 + locl + n2 + intl + 2);
    // the literal segments and the escaped fields, read off the document
    assert forall|m: int| 0 <= m < n0 implies sj[m] == #[trigger] id_prefix()[m] by {}
    assert forall|m: int| 0 <= m < idl implies sj[n0 + m] == #[trigger] escape(v.id)[m] by {}
    assert forall|m: int| 0 <= m < n1 implies sj[n0 + idl + m] == #[trigger] location_prefix()[m]
        by {}
    assert forall|m: int|
        0 <= m < locl implies sj[n0 + idl + n1 + m] == #[trigger] escape(v.location)[m] by {}
    assert forall|m: int|
        0 <= m < n2 implies sj[n0 + idl + n1 + locl + m] == #[trigger] intensity_prefix()[m] by {}
    assert forall|m: int|
        0 <= m < intl implies sj[n0 + idl + n1 + locl + n2 + m] == #[trigger] escape(v.intensity)[m]
        by {}
    assert forall|m: int|
        0 <= m < 2 implies sj[n0 + idl + n1 + locl + n2 + intl + m] == #[trigger] station_suffix()[m]
        by {}
    // opening literal
    assert forall|k: int| 0 <= k < n0 implies t[i + k] == #[trigger] id_prefix()[k] by {}
    lemma_match_lit_elem(t, i, id_prefix());
    // the id field, closed by the quote that opens the next literal
    assert forall|k: int| 0 <= k < idl implies t[p1 + k] == #[trigger] escape(v.id)[k] by {
        assert(t[i + (n0 + k)] == sj[n0 + k]);
    }
    assert(t[p1 + idl] == sj[n0 + idl + 0]);
    assert(location_prefix()[0] == '"');
    lemma_parse_string_of_escape(t, p1, v.id);
    // the location literal and field
    assert forall|k: int| 0 <= k < n1 implies t[q1 + k] == #[trigger] location_prefix()[k] by {
        assert(t[i + (n0 + idl + k)] == sj[n0 + idl + k]);
    }
    lemma_match_lit_elem(t, q1, location_prefix());
    assert forall|k: int| 0 <= k < locl implies t[p2 + k] == #[trigger] escape(v.location)[k] by {
        assert(t[i + (n0 + idl + n1 + k)] == sj[n0 + idl + n1 + k]);
    }
    assert(t[p2 + locl] == sj[n0 + idl + n1 + locl + 0]);
    assert(intensity_prefix()[0] == '"');
    lemma_parse_string_of_escape(t, p2, v.location);
    // the intensity literal and field
    assert forall|k: int| 0 <= k < n2 implies t[q2 + k] == #[trigger] intensity_prefix()[k] by {
        assert(t[i + (n0 + idl + n1 + locl + k)] == sj[n0 + idl + n1 + locl + k]);
    }
    lemma_match_lit_elem(t, q2, intensity_prefix());
    assert forall|k: int| 0 <= k < intl implies t[p3 + k] == #[trigger] escape(v.intensity)[k] by {
        assert(t[i + (n0 + idl + n1 + locl + n2 + k)] == sj[n0 + idl + n1 + locl + n2 + k]);
    }
    assert(t[p3 + intl] == sj[n0 + idl + n1 + locl + n2 + intl + 0]);
    assert(station_suffix()[0] == '"');
    lemma_parse_string_of_escape(t, p3, v.intensity);
    // the closing literal
    assert forall|k: int| 0 <= k < 2 implies t[q3 + k] == #[trigger] station_suffix()[k] by {
        assert(t[i + (n0 + idl + n1 + locl + n2 + intl + k)] == sj[n0 + idl + n1 + locl + n2 + intl
            + k]);
    }
    lemma_match_lit_elem(t, q3, station_suffix());
}

#[verifier::rlimit(50)]
proof fn lemma_parse_body_of_encode(t: Seq<char>, i: int, s: Seq<StationView>)
    requires
        s.len() >= 1,
        0 <= i,
        i + stations_body(s).len() <= t.len(),
        t.subrange(i, i + stations_body(s).len()) == stations_body(s),
    ensures
        parse_body(t, i, i + stations_body(s).len()) == Some(s),
    decreases s.len(),
{
    let body = stations_body(s);
    let sj0 = station_json(s[0]);
    assert(sj0.len() >= 38);
    assert forall|m: int| 0 <= m < body.len() implies t[i + m] == #[trigger] body[m] by {
        assert(t.subrange(i, i + body.len() as int)[m] == t[i + m]);
    }
    if s.len() == 1 {
        assert(body == sj0);
        lemma_parse_station_of_encode(t, i, s[0]);
        assert(seq![s[0]] =~= s);
    } else {
        let rest = stations_body(s.skip(1));
        assert(body == sj0 + seq![','] + rest);
        assert(body.len() == sj0.len() + 1 + rest.len());
        assert(t.subrange(i, i + sj0.len() as int) =~= sj0) by {
            assert forall|k: int|
                0 <= k < sj0.len() implies t.subrange(i, i + sj0.len() as int)[k] == sj0[k] by {
                assert(t[i + k] == body[k]);
            }
        }
        lemma_parse_station_of_encode(t, i, s[0]);
        let j = i + sj0.len() as int;
        assert(t[j] == ',') by {
            assert(body[sj0.len() as int] == ',');
        }
        assert(t.subrange(j + 1, j + 1 + rest.len() as int) =~= rest) by {
            assert forall|k: int|
                0 <= k < rest.len() implies t.subrange(j + 1, j + 1 + rest.len() as int)[k]
                == rest[k] by {
                assert(t[i + (sj0.len() + 1 + k)] == body[sj0.len() + 1 + k]);
                assert(body[sj0.len() + 1 + k] == rest[k]);
            }
        }
        lemma_parse_body_of_encode(t, j + 1, s.skip(1));
        assert(seq![s[0]] + s.skip(1) =~= s);
    }
}

/// Law (round trip): decoding the document written for a collection gives
/// back exactly that collection, whatever its fields contain.
pub proof fn lemma_round_trip(s: Seq<StationView>)
    ensures
        parse_stations(stations_json(s)) == Some(s),
{
    let t = stations_json(s);
    let body = stations_body(s);
    assert(t.len() == body.len() + 2);
    assert(t[0] == '[');
    assert(t[t.len() - 1] == ']');
    if s.len() == 0 {
        assert(body.len() == 0);
        assert(t.len() == 2);
    } else {
        assert(station_json(s[0]).len() >= 38);
        assert(body.len() >= 38);
        assert(t.subrange(1, 1 + body.len() as int) =~= body) by {
            assert forall|k: int|
                0 <= k < body.len() implies t.subrange(1, 1 + body.len() as int)[k] == body[k] by {
                assert(t[1 + k] == body[k]);
            }
        }
        lemma_parse_body_of_encode(t, 1, s);
    }
}

} // verus!
