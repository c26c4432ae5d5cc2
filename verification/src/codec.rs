//! The snapshot wire form: an ordered array of objects, one per tracked
//! keyword, each with the fields `keyword`, `positiveCount`, `neutralCount`
//! and `negativeCount`. `spec_ser` is the canonical form; `serialize_snapshot`
//! produces exactly that form and `parse_snapshot` accepts exactly that form.

use vstd::prelude::*;
use vstd::string::StringExecFns;
use vstd::string::StrSliceExecFns;
use crate::mood::Mood;

verus! {

/// The decimal digit character for a value below ten.
pub open spec fn digit_char(d: int) -> char {
    if d == 0 { '0' }
    else if d == 1 { '1' }
    else if d == 2 { '2' }
    else if d == 3 { '3' }
    else if d == 4 { '4' }
    else if d == 5 { '5' }
    else if d == 6 { '6' }
    else if d == 7 { '7' }
    else if d == 8 { '8' }
    else { '9' }
}

/// The canonical decimal representation of `n`: most significant digit
/// first, no leading zeros, `"0"` for zero.
pub open spec fn dec_rep(n: nat) -> Seq<char>
    decreases n,
{
    if n < 10 {
        seq![digit_char(n as int)]
    } else {
        dec_rep(n / 10).push(digit_char((n % 10) as int))
    }
}

/// How one keyword character is written inside the quoted keyword field:
/// a quote or a backslash is preceded by a backslash, any other character
/// stands for itself.
pub open spec fn esc_char(c: char) -> Seq<char> {
    if c == '"' {
        seq!['\\', '"']
    } else if c == '\\' {
        seq!['\\', '\\']
    } else {
        seq![c]
    }
}

/// The escaped form of a keyword.
pub open spec fn esc(s: Seq<char>) -> Seq<char>
    decreases s.len(),
{
    if s.len() == 0 {
        Seq::empty()
    } else {
        esc_char(s[0]) + esc(s.drop_first())
    }
}

/// The serialized form of one mood, from its fields.
pub open spec fn ser_fields(k: Seq<char>, p: u64, nn: u64, g: u64) -> Seq<char> {
    "{\"keyword\":\""@ + esc(k) + "\",\"positiveCount\":"@ + dec_rep(p as nat)
        + ",\"neutralCount\":"@ + dec_rep(nn as nat) + ",\"negativeCount\":"@ + dec_rep(
        g as nat,
    ) + "}"@
}

/// The serialized form of one mood.
pub open spec fn ser_mood(m: Mood) -> Seq<char> {
    ser_fields(m.keyword@, m.positive_count, m.neutral_count, m.negative_count)
}

/// The comma-separated serialized moods, without the surrounding brackets.
pub open spec fn ser_items(ms: Seq<Mood>) -> Seq<char>
    decreases ms.len(),
{
    if ms.len() == 0 {
        Seq::empty()
    } else if ms.len() == 1 {
        ser_mood(ms[0])
    } else {
        ser_mood(ms[0]) + seq![','] + ser_items(ms.drop_first())
    }
}

/// The canonical serialized form of a whole snapshot.
pub open spec fn spec_ser(ms: Seq<Mood>) -> Seq<char> {
    seq!['['] + ser_items(ms) + seq![']']
}

/// Relies on `String::push`: appends exactly the given character.
#[verifier::external_body]
fn push_char(s: &mut String, c: char)
    ensures
        final(s)@ == old(s)@.push(c),
{
    s.push(c)
}

/// The digit character of a value below ten.
fn digit_to_char(d: u64) -> (c: char)
    requires
        d < 10,
    ensures
        c == digit_char(d as int),
{
    if d == 0 { '0' }
    else if d == 1 { '1' }
    else if d == 2 { '2' }
    else if d == 3 { '3' }
    else if d == 4 { '4' }
    else if d == 5 { '5' }
    else if d == 6 { '6' }
    else if d == 7 { '7' }
    else if d == 8 { '8' }
    else { '9' }
}

/// Append the canonical decimal representation of `n`.
pub(crate) fn push_decimal(out: &mut String, n: u64)
    ensures
        final(out)@ == old(out)@ + dec_rep(n as nat),
    decreases n,
{
    if n < 10 {
        push_char(out, digit_to_char(n));
        assert(final(out)@ =~= old(out)@ + dec_rep(n as nat));
    } else {
        push_decimal(out, n / 10);
        push_char(out, digit_to_char(n % 10));
        assert(final(out)@ =~= old(out)@ + dec_rep(n as nat));
    }
}

/// `esc` distributes over appending one character at the end.
proof fn lemma_esc_snoc(s: Seq<char>, c: char)
    ensures
        esc(s.push(c)) == esc(s) + esc_char(c),
    decreases s.len(),
{
    if s.len() == 0 {
        assert(s.push(c)[0] == c);
        assert(s.push(c).drop_first() =~= Seq::<char>::empty());
        assert(esc(Seq::<char>::empty()) == Seq::<char>::empty());
        assert(esc(s.push(c)) == esc_char(c) + esc(Seq::<char>::empty()));
        assert(esc(s.push(c)) =~= esc(s) + esc_char(c));
    } else {
        assert(s.push(c)[0] == s[0]);
        assert(s.push(c).drop_first() =~= s.drop_first().push(c));
        lemma_esc_snoc(s.drop_first(), c);
        assert(esc(s.push(c)) == esc_char(s[0]) + esc(s.drop_first().push(c)));
        assert(esc(s.push(c)) == esc_char(s[0]) + (esc(s.drop_first()) + esc_char(c)));
        assert(esc(s) == esc_char(s[0]) + esc(s.drop_first()));
        assert(esc_char(s[0]) + (esc(s.drop_first()) + esc_char(c)) =~= (esc_char(s[0]) + esc(
            s.drop_first(),
        )) + esc_char(c));
    }
}

/// Append the escaped form of `s`.
fn push_escaped(out: &mut String, s: &str)
    ensures
        final(out)@ == old(out)@ + esc(s@),
{
    let n = s.unicode_len();
    let mut i: usize = 0;
    while i < n
        invariant
            n == s@.len(),
            i <= n,
            out@ == old(out)@ + esc(s@.subrange(0, i as int)),
        decreases n - i,
    {
        let c = s.get_char(i);
        if c == '"' {
            push_char(out, '\\');
            push_char(out, '"');
        } else if c == '\\' {
            push_char(out, '\\');
            push_char(out, '\\');
        } else {
            push_char(out, c);
        }
        proof {
            lemma_esc_snoc(s@.subrange(0, i as int), c);
            assert(s@.subrange(0, i + 1 as int) =~= s@.subrange(0, i as int).push(c));
            assert(out@ =~= old(out)@ + esc(s@.subrange(0, i + 1 as int)));
        }
        i = i + 1;
    }
    assert(s@.subrange(0, n as int) =~= s@);
}

/// Append the serialized form of one mood.
fn push_mood(out: &mut String, m: &Mood)
    ensures
        final(out)@ == old(out)@ + ser_mood(*m),
{
    out.append("{\"keyword\":\"");
    push_escaped(out, m.keyword.as_str());
    out.append("\",\"positiveCount\":");
    push_decimal(out, m.positive_count);
    out.append(",\"neutralCount\":");
    push_decimal(out, m.neutral_count);
    out.append(",\"negativeCount\":");
    push_decimal(out, m.negative_count);
    out.append("}");
    assert(final(out)@ =~= old(out)@ + ser_mood(*m));
}

/// `ser_items` distributes over appending one mood at the end: a comma is
/// written before it exactly when it is not the first.
proof fn lemma_ser_items_snoc(ms: Seq<Mood>, m: Mood)
    ensures
        ser_items(ms.push(m)) == ser_items(ms) + (if ms.len() == 0 {
            Seq::<char>::empty()
        } else {
            seq![',']
        }) + ser_mood(m),
    decreases ms.len(),
{
    if ms.len() == 0 {
        assert(ms.push(m)[0] == m);
        assert(ser_items(ms.push(m)) =~= ser_items(ms) + Seq::<char>::empty() + ser_mood(m));
    } else if ms.len() == 1 {
        assert(ms.push(m)[0] == ms[0]);
        assert(ms.push(m).drop_first() =~= seq![m]);
        assert(ser_items(seq![m]) == ser_mood(seq![m][0]));
        assert(seq![m][0] == m);
        assert(ser_items(ms.push(m)) =~= ser_items(ms) + seq![','] + ser_mood(m));
    } else {
        assert(ms.push(m)[0] == ms[0]);
        assert(ms.push(m).drop_first() =~= ms.drop_first().push(m));
        lemma_ser_items_snoc(ms.drop_first(), m);
        assert(ser_items(ms.push(m)) =~= ser_items(ms) + seq![','] + ser_mood(m));
    }
}

/// Serialize a snapshot: the result is exactly the canonical form of the
/// given moods, in their given order.
pub fn serialize_snapshot(moods: &Vec<Mood>) -> (r: String)
    ensures
        r@ == spec_ser(moods@),
{
    let mut out = String::new();
    push_char(&mut out, '[');
    assert(out@ =~= seq!['['] + ser_items(moods@.subrange(0, 0)));
    let mut i: usize = 0;
    while i < moods.len()
        invariant
            i <= moods@.len(),
            out@ == seq!['['] + ser_items(moods@.subrange(0, i as int)),
        decreases moods@.len() - i,
    {
        if i > 0 {
            push_char(&mut out, ',');
        }
        push_mood(&mut out, &moods[i]);
        proof {
            lemma_ser_items_snoc(moods@.subrange(0, i as int), moods@[i as int]);
            assert(moods@.subrange(0, i + 1 as int) =~= moods@.subrange(0, i as int).push(
                moods@[i as int],
            ));
            assert(out@ =~= seq!['['] + ser_items(moods@.subrange(0, i + 1 as int)));
        }
        i = i + 1;
    }
    assert(moods@.subrange(0, moods@.len() as int) =~= moods@);
    push_char(&mut out, ']');
    assert(out@ =~= spec_ser(moods@));
    out
}


/// The value of a decimal digit character, or a negative value for any
/// other character.
pub open spec fn digit_val(c: char) -> int {
    if c == '0' { 0 }
    else if c == '1' { 1 }
    else if c == '2' { 2 }
    else if c == '3' { 3 }
    else if c == '4' { 4 }
    else if c == '5' { 5 }
    else if c == '6' { 6 }
    else if c == '7' { 7 }
    else if c == '8' { 8 }
    else if c == '9' { 9 }
    else { -1 }
}

/// `c` is a decimal digit character.
pub open spec fn is_digit(c: char) -> bool {
    digit_val(c) >= 0
}

/// Scan a run of digits from position `i`, folding them onto `acc`, most
/// significant first; stop at the first non-digit; reject a value that
/// would not fit in a 64-bit counter.
pub open spec fn spec_scan_num(v: Seq<char>, i: int, acc: u64) -> Option<(u64, int)>
    decreases v.len() - i,
{
    if 0 <= i < v.len() && is_digit(v[i]) {
        let d = digit_val(v[i]) as u64;
        if acc > (u64::MAX - d) / 10 {
            None
        } else {
            spec_scan_num(v, i + 1, (acc * 10 + d) as u64)
        }
    } else {
        Some((acc, i))
    }
}

/// Scan one canonical decimal number at position `i`: at least one digit,
/// no leading zero except for `"0"` itself.
pub open spec fn spec_scan_number(v: Seq<char>, i: int) -> Option<(u64, int)> {
    if 0 <= i < v.len() && v[i] == '0' {
        if i + 1 < v.len() && is_digit(v[i + 1]) {
            None
        } else {
            Some((0, i + 1))
        }
    } else if 0 <= i < v.len() && is_digit(v[i]) {
        spec_scan_num(v, i, 0)
    } else {
        None
    }
}

/// Scan the escaped body of a quoted keyword from position `i` up to and
/// including its closing quote, undoing `esc`: a backslash must be followed
/// by a quote or a backslash, any other character stands for itself.
pub open spec fn spec_scan_str(v: Seq<char>, i: int) -> Option<(Seq<char>, int)>
    decreases v.len() - i,
{
    if !(0 <= i < v.len()) {
        None
    } else if v[i] == '"' {
        Some((Seq::empty(), i + 1))
    } else if v[i] == '\\' {
        if i + 1 < v.len() && (v[i + 1] == '"' || v[i + 1] == '\\') {
            match spec_scan_str(v, i + 2) {
                Some((s, j)) => Some((seq![v[i + 1]] + s, j)),
                None => None,
            }
        } else {
            None
        }
    } else {
        match spec_scan_str(v, i + 1) {
            Some((s, j)) => Some((seq![v[i]] + s, j)),
            None => None,
        }
    }
}

/// The literal `lit` stands at position `i` of `v`.
pub open spec fn lit_at(v: Seq<char>, i: int, lit: Seq<char>) -> bool {
    0 <= i && i + lit.len() <= v.len() && v.subrange(i, i + lit.len()) == lit
}

/// The parsed form of one mood: its keyword characters and its three
/// counters.
pub open spec fn mood_view(m: Mood) -> (Seq<char>, u64, u64, u64) {
    (m.keyword@, m.positive_count, m.neutral_count, m.negative_count)
}

/// The parsed forms of a snapshot's moods, in order.
pub open spec fn mood_views(ms: Seq<Mood>) -> Seq<(Seq<char>, u64, u64, u64)> {
    ms.map(|i: int, m: Mood| mood_view(m))
}

/// Parse one serialized mood object at position `i`.
pub open spec fn spec_parse_mood(v: Seq<char>, i: int) -> Option<((Seq<char>, u64, u64, u64), int)> {
    if !lit_at(v, i, "{\"keyword\":\""@) {
        None
    } else {
        match spec_scan_str(v, i + "{\"keyword\":\""@.len()) {
            None => None,
            Some((k, j1)) => if !lit_at(v, j1, ",\"positiveCount\":"@) {
                None
            } else {
                match spec_scan_number(v, j1 + ",\"positiveCount\":"@.len()) {
                    None => None,
                    Some((p, j2)) => if !lit_at(v, j2, ",\"neutralCount\":"@) {
                        None
                    } else {
                        match spec_scan_number(v, j2 + ",\"neutralCount\":"@.len()) {
                            None => None,
                            Some((nn, j3)) => if !lit_at(v, j3, ",\"negativeCount\":"@) {
                                None
                            } else {
                                match spec_scan_number(v, j3 + ",\"negativeCount\":"@.len()) {
                                    None => None,
                                    Some((g, j4)) => if j4 < v.len() && v[j4] == '}' {
                                        Some(((k, p, nn, g), j4 + 1))
                                    } else {
                                        None
                                    },
                                }
                            },
                        }
                    },
                }
            },
        }
    }
}

/// Parse a nonempty comma-separated run of mood objects at position `i`,
/// up to and including the closing bracket.
pub open spec fn spec_parse_items(v: Seq<char>, i: int) -> Option<(
    Seq<(Seq<char>, u64, u64, u64)>,
    int,
)>
    decreases v.len() - i,
{
    match spec_parse_mood(v, i) {
        None => None,
        Some((m, j)) => if i < j < v.len() && v[j] == ',' {
            match spec_parse_items(v, j + 1) {
                Some((ms, j2)) => Some((seq![m] + ms, j2)),
                None => None,
            }
        } else if j < v.len() && v[j] == ']' {
            Some((seq![m], j + 1))
        } else {
            None
        },
    }
}

/// Parse a whole serialized snapshot: the strict grammar of the canonical
/// form, with no whitespace, no leading zeros and only the two character
/// escapes. `lemma_snapshot_round_trip` shows that every canonical form is
/// accepted and yields the moods it serializes; `lemma_parse_sound` shows
/// that nothing else is accepted.
pub open spec fn spec_parse(v: Seq<char>) -> Option<Seq<(Seq<char>, u64, u64, u64)>> {
    if v.len() == 2 && v[0] == '[' && v[1] == ']' {
        Some(Seq::empty())
    } else if v.len() > 0 && v[0] == '[' {
        match spec_parse_items(v, 1) {
            Some((ms, j)) => if j == v.len() {
                Some(ms)
            } else {
                None
            },
            None => None,
        }
    } else {
        None
    }
}


/// Append each character of `v` to a fresh string.
fn chars_to_string(v: &Vec<char>) -> (r: String)
    ensures
        r@ == v@,
{
    let mut s = String::new();
    let mut i: usize = 0;
    while i < v.len()
        invariant
            i <= v@.len(),
            s@ == v@.subrange(0, i as int),
        decreases v@.len() - i,
    {
        push_char(&mut s, v[i]);
        proof {
            assert(v@.subrange(0, i + 1 as int) =~= v@.subrange(0, i as int).push(v@[i as int]));
        }
        i = i + 1;
    }
    assert(v@.subrange(0, v@.len() as int) =~= v@);
    s
}

/// The characters of `s`, in order.
fn str_to_chars(s: &str) -> (r: Vec<char>)
    ensures
        r@ == s@,
{
    let n = s.unicode_len();
    let mut v: Vec<char> = Vec::new();
    let mut i: usize = 0;
    while i < n
        invariant
            n == s@.len(),
            i <= n,
            v@ == s@.subrange(0, i as int),
        decreases n - i,
    {
        v.push(s.get_char(i));
        proof {
            assert(s@.subrange(0, i + 1 as int) =~= s@.subrange(0, i as int).push(s@[i as int]));
        }
        i = i + 1;
    }
    assert(s@.subrange(0, n as int) =~= s@);
    v
}

/// The value of a digit character, if it is one.
fn digit_of(c: char) -> (r: Option<u64>)
    ensures
        r matches Some(d) ==> is_digit(c) && d == digit_val(c),
        r is None ==> !is_digit(c),
{
    match c {
        '0' => Some(0),
        '1' => Some(1),
        '2' => Some(2),
        '3' => Some(3),
        '4' => Some(4),
        '5' => Some(5),
        '6' => Some(6),
        '7' => Some(7),
        '8' => Some(8),
        '9' => Some(9),
        _ => None,
    }
}

/// Scan a digit run as `spec_scan_num` does.
fn scan_num(v: &Vec<char>, i: usize, acc: u64) -> (r: Option<(u64, usize)>)
    requires
        i <= v@.len(),
    ensures
        (match r {
            Some((n, j)) => spec_scan_num(v@, i as int, acc) == Some((n, j as int)) && i <= j
                <= v@.len(),
            None => spec_scan_num(v@, i as int, acc) is None,
        }),
    decreases v@.len() - i,
{
    if i < v.len() {
        match digit_of(v[i]) {
            Some(d) => {
                if acc > (u64::MAX - d) / 10 {
                    None
                } else {
                    assert(acc * 10 + d <= u64::MAX);
                    scan_num(v, i + 1, acc * 10 + d)
                }
            },
            None => Some((acc, i)),
        }
    } else {
        Some((acc, i))
    }
}

/// Scan one canonical decimal number as `spec_scan_number` does.
fn scan_number(v: &Vec<char>, i: usize) -> (r: Option<(u64, usize)>)
    requires
        i <= v@.len(),
    ensures
        (match r {
            Some((n, j)) => spec_scan_number(v@, i as int) == Some((n, j as int)) && i <= j
                <= v@.len(),
            None => spec_scan_number(v@, i as int) is None,
        }),
{
    if i < v.len() && v[i] == '0' {
        if i + 1 < v.len() && digit_of(v[i + 1]).is_some() {
            None
        } else {
            Some((0, i + 1))
        }
    } else if i < v.len() && digit_of(v[i]).is_some() {
        scan_num(v, i, 0)
    } else {
        None
    }
}

/// Scan an escaped keyword body as `spec_scan_str` does.
fn scan_str(v: &Vec<char>, i: usize) -> (r: Option<(Vec<char>, usize)>)
    requires
        i <= v@.len(),
    ensures
        (match r {
            Some((s, j)) => spec_scan_str(v@, i as int) == Some((s@, j as int)) && i <= j
                <= v@.len(),
            None => spec_scan_str(v@, i as int) is None,
        }),
    decreases v@.len() - i,
{
    if i >= v.len() {
        None
    } else {
        let c = v[i];
        if c == '"' {
            let s: Vec<char> = Vec::new();
            assert(s@ =~= Seq::<char>::empty());
            Some((s, i + 1))
        } else if c == '\\' {
            if i + 1 < v.len() && (v[i + 1] == '"' || v[i + 1] == '\\') {
                match scan_str(v, i + 2) {
                    Some(sj) => {
                        let (mut s, j) = sj;
                        let ghost tail = s@;
                        s.insert(0, v[i + 1]);
                        assert(s@ =~= seq![v@[i + 1]] + tail);
                        Some((s, j))
                    },
                    None => None,
                }
            } else {
                None
            }
        } else {
            match scan_str(v, i + 1) {
                Some(sj) => {
                    let (mut s, j) = sj;
                    let ghost tail = s@;
                    s.insert(0, c);
                    assert(s@ =~= seq![v@[i as int]] + tail);
                    Some((s, j))
                },
                None => None,
            }
        }
    }
}

/// Check that `lit` stands at position `i` of `v` and step past it.
fn expect_lit(v: &Vec<char>, i: usize, lit: &str) -> (r: Option<usize>)
    requires
        i <= v@.len(),
    ensures
        r matches Some(j) ==> lit_at(v@, i as int, lit@) && j == i + lit@.len() && j <= v@.len(),
        r is None ==> !lit_at(v@, i as int, lit@),
{
    let n = lit.unicode_len();
    if v.len() - i < n {
        return None;
    }
    let mut t: usize = 0;
    while t < n
        invariant
            i + n <= v@.len(),
            v@.len() <= usize::MAX,
            t <= n,
            n == lit@.len(),
            forall|q: int| 0 <= q < t ==> v@[i + q] == lit@[q],
        decreases n - t,
    {
        if v[i + t] != lit.get_char(t) {
            proof {
                if lit_at(v@, i as int, lit@) {
                    assert(v@.subrange(i as int, i + n as int)[t as int] == v@[i + t]);
                }
            }
            return None;
        }
        t = t + 1;
    }
    proof {
        assert(v@.subrange(i as int, i + n as int) =~= lit@);
    }
    Some(i + n)
}

/// Parse one serialized mood object as `spec_parse_mood` does.
fn parse_mood(v: &Vec<char>, i: usize) -> (r: Option<(Mood, usize)>)
    requires
        i <= v@.len(),
    ensures
        (match r {
            Some((m, j)) => spec_parse_mood(v@, i as int) == Some((mood_view(m), j as int)) && i < j
                <= v@.len(),
            None => spec_parse_mood(v@, i as int) is None,
        }),
{
    let j0 = match expect_lit(v, i, "{\"keyword\":\"") {
        Some(j) => j,
        None => {
            return None;
        },
    };
    let kj = match scan_str(v, j0) {
        Some(x) => x,
        None => {
            return None;
        },
    };
    let (k, j1) = kj;
    let j2a = match expect_lit(v, j1, ",\"positiveCount\":") {
        Some(j) => j,
        None => {
            return None;
        },
    };
    let pj = match scan_number(v, j2a) {
        Some(x) => x,
        None => {
            return None;
        },
    };
    let (p, j2) = pj;
    let j3a = match expect_lit(v, j2, ",\"neutralCount\":") {
        Some(j) => j,
        None => {
            return None;
        },
    };
    let nj = match scan_number(v, j3a) {
        Some(x) => x,
        None => {
            return None;
        },
    };
    let (nn, j3) = nj;
    let j4a = match expect_lit(v, j3, ",\"negativeCount\":") {
        Some(j) => j,
        None => {
            return None;
        },
    };
    let gj = match scan_number(v, j4a) {
        Some(x) => x,
        None => {
            return None;
        },
    };
    let (g, j4) = gj;
    if j4 < v.len() && v[j4] == '}' {
        let m = Mood {
            keyword: chars_to_string(&k),
            positive_count: p,
            neutral_count: nn,
            negative_count: g,
        };
        Some((m, j4 + 1))
    } else {
        None
    }
}

/// Parse a nonempty run of mood objects as `spec_parse_items` does.
fn parse_items(v: &Vec<char>, i: usize) -> (r: Option<(Vec<Mood>, usize)>)
    requires
        i <= v@.len(),
    ensures
        (match r {
            Some((ms, j)) => spec_parse_items(v@, i as int) == Some((mood_views(ms@), j as int))
                && j <= v@.len(),
            None => spec_parse_items(v@, i as int) is None,
        }),
    decreases v@.len() - i,
{
    match parse_mood(v, i) {
        None => None,
        Some(mj) => {
            let (m, j) = mj;
            if j < v.len() && v[j] == ',' {
                match parse_items(v, j + 1) {
                    Some(msj) => {
                        let (mut ms, j2) = msj;
                        let ghost tailviews = mood_views(ms@);
                        ms.insert(0, m);
                        assert(mood_views(ms@) =~= seq![mood_view(m)] + tailviews);
                        Some((ms, j2))
                    },
                    None => None,
                }
            } else if j < v.len() && v[j] == ']' {
                let mut ms: Vec<Mood> = Vec::new();
                ms.push(m);
                assert(mood_views(ms@) =~= seq![mood_view(m)]);
                Some((ms, j + 1))
            } else {
                None
            }
        },
    }
}

/// Parse a whole serialized snapshot. The result is pinned by `spec_parse`;
/// `lemma_snapshot_round_trip` shows that the serialization of any snapshot
/// parses back to exactly its moods, and `lemma_parse_sound` that nothing
/// but canonical serializations is ever accepted.
pub fn parse_snapshot(s: &str) -> (r: Option<Vec<Mood>>)
    ensures
        (match r {
            Some(ms) => spec_parse(s@) == Some(mood_views(ms@)),
            None => spec_parse(s@) is None,
        }),
{
    let v = str_to_chars(s);
    if v.len() == 2 && v[0] == '[' && v[1] == ']' {
        let ms: Vec<Mood> = Vec::new();
        assert(mood_views(ms@) =~= Seq::<(Seq<char>, u64, u64, u64)>::empty());
        Some(ms)
    } else if v.len() > 0 && v[0] == '[' {
        match parse_items(&v, 1) {
            Some(msj) => {
                let (ms, j) = msj;
                if j == v.len() {
                    Some(ms)
                } else {
                    None
                }
            },
            None => None,
        }
    } else {
        None
    }
}


/// Every character of `ds` is a decimal digit.
spec fn all_digits(ds: Seq<char>) -> bool {
    forall|q: int| 0 <= q < ds.len() ==> is_digit(#[trigger] ds[q])
}

/// The value of a digit run, most significant digit first.
spec fn dval(ds: Seq<char>) -> int
    decreases ds.len(),
{
    if ds.len() == 0 {
        0
    } else {
        dval(ds.drop_last()) * 10 + digit_val(ds.last())
    }
}

/// The `k`-th power of ten.
spec fn pow10(k: nat) -> int
    decreases k,
{
    if k == 0 {
        1
    } else {
        10 * pow10((k - 1) as nat)
    }
}

proof fn lemma_pow10_pos(k: nat)
    ensures
        pow10(k) >= 1,
    decreases k,
{
    if k > 0 {
        lemma_pow10_pos((k - 1) as nat);
    }
}

proof fn lemma_dval_nonneg(ds: Seq<char>)
    requires
        all_digits(ds),
    ensures
        dval(ds) >= 0,
    decreases ds.len(),
{
    if ds.len() > 0 {
        assert(is_digit(ds[ds.len() - 1]));
        assert(all_digits(ds.drop_last())) by {
            assert forall|q: int| 0 <= q < ds.drop_last().len() implies is_digit(
                #[trigger] ds.drop_last()[q],
            ) by {
                assert(ds.drop_last()[q] == ds[q]);
            }
        }
        lemma_dval_nonneg(ds.drop_last());
    }
}

/// Peeling the most significant digit off a digit run.
proof fn lemma_dval_front(ds: Seq<char>)
    requires
        ds.len() > 0,
        all_digits(ds),
    ensures
        dval(ds) == digit_val(ds[0]) * pow10((ds.len() - 1) as nat) + dval(ds.drop_first()),
    decreases ds.len(),
{
    if ds.len() == 1 {
        assert(ds.drop_last() =~= Seq::<char>::empty());
        assert(ds.drop_first() =~= Seq::<char>::empty());
        assert(ds.last() == ds[0]);
        assert(digit_val(ds[0]) * 1 == digit_val(ds[0]));
    } else {
        let dl = ds.drop_last();
        let df = ds.drop_first();
        assert(all_digits(dl)) by {
            assert forall|q: int| 0 <= q < dl.len() implies is_digit(#[trigger] dl[q]) by {
                assert(dl[q] == ds[q]);
            }
        }
        lemma_dval_front(dl);
        assert(dl[0] == ds[0]);
        assert(df.drop_last() =~= dl.drop_first());
        assert(df.last() == ds.last());
        let a = digit_val(ds[0]);
        let p = pow10((dl.len() - 1) as nat);
        assert(pow10((ds.len() - 1) as nat) == 10 * p);
        assert(dval(ds) == dval(dl) * 10 + digit_val(ds.last()));
        assert(dval(dl) == a * p + dval(dl.drop_first()));
        assert(dval(df) == dval(dl.drop_first()) * 10 + digit_val(ds.last()));
        assert((a * p + dval(dl.drop_first())) * 10 == a * (10 * p) + dval(dl.drop_first()) * 10)
            by (nonlinear_arith);
    }
}

/// Splitting a known subrange of `v` into two known pieces.
proof fn lemma_subrange_split(v: Seq<char>, i: int, a: Seq<char>, b: Seq<char>)
    requires
        0 <= i,
        i + a.len() + b.len() <= v.len(),
        v.subrange(i, i + a.len() + b.len()) == a + b,
    ensures
        v.subrange(i, i + a.len()) == a,
        v.subrange(i + a.len(), i + a.len() + b.len()) == b,
{
    assert forall|q: int| 0 <= q < a.len() implies v.subrange(i, i + a.len())[q] == a[q] by {
        assert(v.subrange(i, i + a.len() + b.len())[q] == (a + b)[q]);
    }
    assert(v.subrange(i, i + a.len()) =~= a);
    assert forall|q: int| 0 <= q < b.len() implies v.subrange(
        i + a.len(),
        i + a.len() + b.len(),
    )[q] == b[q] by {
        assert(v.subrange(i, i + a.len() + b.len())[a.len() + q] == (a + b)[a.len() + q]);
        assert(v.subrange(i, i + a.len() + b.len())[a.len() + q] == v[i + a.len() + q]);
        assert(v.subrange(i + a.len(), i + a.len() + b.len())[q] == v[i + a.len() + q]);
        assert((a + b)[a.len() + q] == b[q]);
    }
    assert(v.subrange(i + a.len(), i + a.len() + b.len()) =~= b);
}

/// Scanning a digit run folds its value onto the accumulator.
proof fn lemma_scan_num_digits(v: Seq<char>, i: int, acc: u64, ds: Seq<char>)
    requires
        0 <= i,
        i + ds.len() <= v.len(),
        v.subrange(i, i + ds.len()) == ds,
        all_digits(ds),
        i + ds.len() == v.len() || !is_digit(v[i + ds.len()]),
        acc * pow10(ds.len() as nat) + dval(ds) <= u64::MAX,
    ensures
        spec_scan_num(v, i, acc) == Some(
            (((acc * pow10(ds.len() as nat) + dval(ds)) as u64), i + ds.len()),
        ),
    decreases ds.len(),
{
    if ds.len() == 0 {
        assert(acc * 1 == acc);
    } else {
        assert(v.subrange(i, i + ds.len())[0] == v[i]);
        assert(v[i] == ds[0]);
        let d = digit_val(ds[0]);
        let df = ds.drop_first();
        let p = pow10((ds.len() - 1) as nat);
        assert(all_digits(df)) by {
            assert forall|q: int| 0 <= q < df.len() implies is_digit(#[trigger] df[q]) by {
                assert(df[q] == ds[q + 1]);
            }
        }
        lemma_dval_front(ds);
        lemma_dval_nonneg(df);
        lemma_pow10_pos((ds.len() - 1) as nat);
        assert(pow10(ds.len() as nat) == 10 * p);
        let total = acc * pow10(ds.len() as nat) + dval(ds);
        assert(total == (acc * 10 + d) * p + dval(df)) by (nonlinear_arith)
            requires
                total == acc * (10 * p) + (d * p + dval(df)),
                pow10(ds.len() as nat) == 10 * p,
        ;
        assert(acc * 10 + d <= (acc * 10 + d) * p) by (nonlinear_arith)
            requires
                p >= 1,
                acc * 10 + d >= 0,
        ;
        assert(acc * 10 + d <= u64::MAX);
        assert(acc <= (u64::MAX - d) / 10);
        let acc2 = (acc * 10 + d) as u64;
        assert(v.subrange(i + 1, i + 1 + df.len()) =~= df) by {
            assert forall|q: int| 0 <= q < df.len() implies v.subrange(
                i + 1,
                i + 1 + df.len(),
            )[q] == df[q] by {
                assert(v.subrange(i, i + ds.len())[q + 1] == v[i + 1 + q]);
                assert(df[q] == ds[q + 1]);
            }
        }
        lemma_scan_num_digits(v, i + 1, acc2, df);
        assert(acc2 * p + dval(df) == total);
    }
}

/// The canonical decimal representation of `n` is a digit run, carries the
/// value `n`, and never starts with a zero unless it is exactly `"0"`.
proof fn lemma_dec_rep_digits(n: nat)
    ensures
        all_digits(dec_rep(n)),
        dec_rep(n).len() >= 1,
        dval(dec_rep(n)) == n,
        n > 0 ==> dec_rep(n)[0] != '0',
    decreases n,
{
    if n < 10 {
        let ds = dec_rep(n);
        assert(ds == seq![digit_char(n as int)]);
        assert(ds[0] == digit_char(n as int));
        assert(is_digit(digit_char(n as int)));
        assert(ds.drop_last() =~= Seq::<char>::empty());
        assert(ds.last() == digit_char(n as int));
        assert(dval(Seq::<char>::empty()) == 0);
        assert(dval(ds) == dval(ds.drop_last()) * 10 + digit_val(ds.last()));
        assert(digit_val(digit_char(n as int)) == n);
    } else {
        lemma_dec_rep_digits(n / 10);
        let pre = dec_rep(n / 10);
        let c = digit_char((n % 10) as int);
        let ds = dec_rep(n);
        assert(ds == pre.push(c));
        assert(is_digit(c));
        assert(all_digits(ds)) by {
            assert forall|q: int| 0 <= q < ds.len() implies is_digit(#[trigger] ds[q]) by {
                if q < pre.len() {
                    assert(ds[q] == pre[q]);
                } else {
                    assert(ds[q] == c);
                }
            }
        }
        assert(ds.drop_last() =~= pre);
        assert(ds.last() == c);
        assert(dval(ds) == dval(pre) * 10 + digit_val(c));
        assert(digit_val(c) == n % 10);
        assert(dval(ds) == (n / 10) * 10 + n % 10);
        assert(ds[0] == pre[0]);
    }
}

/// Scanning the canonical decimal representation of `n` yields `n` and
/// stops right after it.
proof fn lemma_scan_number_dec(v: Seq<char>, i: int, n: u64)
    requires
        0 <= i,
        i + dec_rep(n as nat).len() <= v.len(),
        v.subrange(i, i + dec_rep(n as nat).len()) == dec_rep(n as nat),
        i + dec_rep(n as nat).len() == v.len() || !is_digit(v[i + dec_rep(n as nat).len()]),
    ensures
        spec_scan_number(v, i) == Some((n, i + dec_rep(n as nat).len())),
{
    lemma_dec_rep_digits(n as nat);
    let ds = dec_rep(n as nat);
    assert(v.subrange(i, i + ds.len())[0] == v[i]);
    assert(v[i] == ds[0]);
    if n == 0 {
        assert(ds == seq![digit_char(0)]);
        assert(v[i] == '0');
        assert(i + 1 == v.len() || !is_digit(v[i + 1]));
    } else {
        assert(v[i] != '0');
        assert(is_digit(v[i]));
        lemma_pow10_pos(ds.len() as nat);
        assert(0 * pow10(ds.len() as nat) == 0) by (nonlinear_arith);
        lemma_scan_num_digits(v, i, 0, ds);
    }
}

/// Scanning the escaped form of `k` followed by a closing quote undoes the
/// escaping exactly.
proof fn lemma_scan_str_esc(v: Seq<char>, i: int, k: Seq<char>)
    requires
        0 <= i,
        i + esc(k).len() + 1 <= v.len(),
        v.subrange(i, i + esc(k).len()) == esc(k),
        v[i + esc(k).len()] == '"',
    ensures
        spec_scan_str(v, i) == Some((k, i + esc(k).len() + 1)),
    decreases k.len(),
{
    if k.len() == 0 {
        assert(esc(k).len() == 0);
        assert(v[i] == '"');
        assert(k =~= Seq::<char>::empty());
    } else {
        let c = k[0];
        let kf = k.drop_first();
        let e = esc_char(c);
        assert(esc(k) == e + esc(kf));
        assert(esc(k).len() == e.len() + esc(kf).len());
        assert(v.subrange(i, i + esc(k).len())[0] == v[i]);
        assert((e + esc(kf))[0] == e[0]);
        assert(v[i] == e[0]);
        if e.len() == 2 {
            assert(v.subrange(i, i + esc(k).len())[1] == v[i + 1]);
            assert((e + esc(kf))[1] == e[1]);
            assert(v[i + 1] == e[1]);
        }
        assert forall|q: int| 0 <= q < esc(kf).len() implies v[i + e.len() + q] == esc(kf)[q] by {
            assert(v.subrange(i, i + esc(k).len())[e.len() + q] == v[i + e.len() + q]);
            assert((e + esc(kf))[e.len() + q] == esc(kf)[q]);
        }
        assert(v.subrange(i + e.len(), i + e.len() + esc(kf).len()) =~= esc(kf));
        assert(v[i + e.len() + esc(kf).len()] == '"');
        if c == '"' {
            assert(e == seq!['\\', '"']);
            assert(v[i] == '\\' && v[i + 1] == '"');
            lemma_scan_str_esc(v, i + 2, kf);
            assert(seq![v[i + 1]] + kf =~= k);
        } else if c == '\\' {
            assert(e == seq!['\\', '\\']);
            assert(v[i] == '\\' && v[i + 1] == '\\');
            lemma_scan_str_esc(v, i + 2, kf);
            assert(seq![v[i + 1]] + kf =~= k);
        } else {
            assert(e == seq![c]);
            assert(v[i] == c);
            lemma_scan_str_esc(v, i + 1, kf);
            assert(seq![v[i]] + kf =~= k);
        }
    }
}


/// Parsing the serialized form of one mood at its position yields exactly
/// that mood's fields and stops right after it.
proof fn lemma_parse_mood_ser(v: Seq<char>, i: int, m: Mood)
    requires
        0 <= i,
        i + ser_mood(m).len() <= v.len(),
        v.subrange(i, i + ser_mood(m).len()) == ser_mood(m),
    ensures
        spec_parse_mood(v, i) == Some((mood_view(m), i + ser_mood(m).len())),
{
    reveal_strlit("{\"keyword\":\"");
    reveal_strlit("\",\"positiveCount\":");
    reveal_strlit(",\"positiveCount\":");
    reveal_strlit(",\"neutralCount\":");
    reveal_strlit(",\"negativeCount\":");
    reveal_strlit("}");
    let l1 = "{\"keyword\":\""@;
    let e = esc(m.keyword@);
    let qt = seq!['"'];
    let l2 = ",\"positiveCount\":"@;
    let d1 = dec_rep(m.positive_count as nat);
    let l3 = ",\"neutralCount\":"@;
    let d2 = dec_rep(m.neutral_count as nat);
    let l4 = ",\"negativeCount\":"@;
    let d3 = dec_rep(m.negative_count as nat);
    let l5 = "}"@;
    assert("\",\"positiveCount\":"@ =~= qt + l2);
    let r9 = d3 + l5;
    let r8 = l4 + r9;
    let r7 = d2 + r8;
    let r6 = l3 + r7;
    let r5 = d1 + r6;
    let r4 = l2 + r5;
    let r3 = qt + r4;
    let r2 = e + r3;
    let total = l1 + r2;
    assert(ser_mood(m) =~= total);
    assert(v.subrange(i, i + total.len()) == total);
    lemma_subrange_split(v, i, l1, r2);
    let i1 = i + l1.len();
    lemma_subrange_split(v, i1, e, r3);
    let i2 = i1 + e.len();
    assert(v.subrange(i2, i2 + r3.len())[0] == v[i2]);
    assert(r3[0] == '"');
    lemma_scan_str_esc(v, i1, m.keyword@);
    lemma_subrange_split(v, i2, qt, r4);
    let j1 = i2 + 1;
    lemma_subrange_split(v, j1, l2, r5);
    let j2a = j1 + l2.len();
    lemma_subrange_split(v, j2a, d1, r6);
    let j2 = j2a + d1.len();
    assert(v.subrange(j2, j2 + r6.len())[0] == v[j2]);
    assert(r6[0] == l3[0]);
    assert(l3[0] == ',');
    assert(!is_digit(','));
    lemma_scan_number_dec(v, j2a, m.positive_count);
    lemma_subrange_split(v, j2, l3, r7);
    let j3a = j2 + l3.len();
    lemma_subrange_split(v, j3a, d2, r8);
    let j3 = j3a + d2.len();
    assert(v.subrange(j3, j3 + r8.len())[0] == v[j3]);
    assert(r8[0] == l4[0]);
    assert(l4[0] == ',');
    lemma_scan_number_dec(v, j3a, m.neutral_count);
    lemma_subrange_split(v, j3, l4, r9);
    let j4a = j3 + l4.len();
    lemma_subrange_split(v, j4a, d3, l5);
    let j4 = j4a + d3.len();
    assert(v.subrange(j4, j4 + l5.len())[0] == v[j4]);
    assert(l5[0] == '}');
    assert(!is_digit('}'));
    lemma_scan_number_dec(v, j4a, m.negative_count);
    assert(v[j4] == '}');
    assert(lit_at(v, i, l1));
    assert(lit_at(v, j1, l2));
    assert(lit_at(v, j2, l3));
    assert(lit_at(v, j3, l4));
    assert(j4 + 1 == i + ser_mood(m).len());
}

/// Parsing the serialized items of a nonempty snapshot, up to and including
/// the closing bracket, yields exactly those moods' fields in order.
proof fn lemma_parse_items_ser(v: Seq<char>, i: int, ms: Seq<Mood>)
    requires
        ms.len() >= 1,
        0 <= i,
        i + ser_items(ms).len() + 1 <= v.len(),
        v.subrange(i, i + ser_items(ms).len()) == ser_items(ms),
        v[i + ser_items(ms).len()] == ']',
    ensures
        spec_parse_items(v, i) == Some((mood_views(ms), i + ser_items(ms).len() + 1)),
    decreases ms.len(),
{
    reveal_strlit("{\"keyword\":\"");
    let m0 = ms[0];
    if ms.len() == 1 {
        assert(ser_items(ms) == ser_mood(m0));
        lemma_parse_mood_ser(v, i, m0);
        let j = i + ser_mood(m0).len();
        assert(v[j] == ']');
        assert(mood_views(ms) =~= seq![mood_view(m0)]);
    } else {
        let rest = ms.drop_first();
        let sm = ser_mood(m0);
        let tail = seq![','] + ser_items(rest);
        assert(ser_items(ms) == sm + tail);
        lemma_subrange_split(v, i, sm, tail);
        lemma_parse_mood_ser(v, i, m0);
        let j = i + sm.len();
        assert(v.subrange(j, j + tail.len())[0] == v[j]);
        assert(tail[0] == ',');
        assert(v[j] == ',');
        assert(sm.len() >= 1) by {
            assert(ser_mood(m0).len() >= "{\"keyword\":\""@.len());
        }
        assert(i < j);
        lemma_subrange_split(v, j, seq![','], ser_items(rest));
        assert(v.subrange(j + 1, j + 1 + ser_items(rest).len()) == ser_items(rest));
        assert(v[j + 1 + ser_items(rest).len()] == ']');
        lemma_parse_items_ser(v, j + 1, rest);
        assert(j < v.len());
        assert(seq![mood_view(m0)] + mood_views(rest) =~= mood_views(ms));
        assert(j + 1 + ser_items(rest).len() + 1 == i + ser_items(ms).len() + 1);
    }
}

/// Round-trip law: parsing the canonical serialization of any snapshot
/// yields exactly that snapshot's moods, in order. Together with the
/// contracts of `serialize_snapshot` and `parse_snapshot`, this says that
/// serializing a snapshot and parsing the result gives back an identical
/// ordered sequence of mood values.
pub proof fn lemma_snapshot_round_trip(ms: Seq<Mood>)
    ensures
        spec_parse(spec_ser(ms)) == Some(mood_views(ms)),
{
    let v = spec_ser(ms);
    if ms.len() == 0 {
        assert(ser_items(ms) == Seq::<char>::empty());
        assert(v =~= seq!['[', ']']);
        assert(v[0] == '[' && v[1] == ']' && v.len() == 2);
        assert(mood_views(ms) =~= Seq::<(Seq<char>, u64, u64, u64)>::empty());
    } else {
        reveal_strlit("{\"keyword\":\"");
        let sl = ser_items(ms).len() as int;
        assert(ser_mood(ms[0]).len() >= "{\"keyword\":\""@.len());
        assert(sl >= 1) by {
            if ms.len() == 1 {
                assert(ser_items(ms) == ser_mood(ms[0]));
            }
        }
        assert(v.len() == 2 + sl);
        assert(v[0] == '[');
        assert(v.subrange(1, 1 + sl) =~= ser_items(ms)) by {
            assert forall|q: int| 0 <= q < sl implies v.subrange(1, 1 + sl)[q] == ser_items(
                ms,
            )[q] by {
                assert(v.subrange(1, 1 + sl)[q] == v[1 + q]);
                assert(v[1 + q] == (seq!['['] + ser_items(ms) + seq![']'])[1 + q]);
            }
        }
        assert(v[1 + sl] == ']');
        lemma_parse_items_ser(v, 1, ms);
        assert(v.len() != 2);
    }
}


/// The comma-separated serialized moods, from parsed fields.
pub open spec fn ser_items_v(vs: Seq<(Seq<char>, u64, u64, u64)>) -> Seq<char>
    decreases vs.len(),
{
    if vs.len() == 0 {
        Seq::empty()
    } else if vs.len() == 1 {
        ser_fields(vs[0].0, vs[0].1, vs[0].2, vs[0].3)
    } else {
        ser_fields(vs[0].0, vs[0].1, vs[0].2, vs[0].3) + seq![','] + ser_items_v(vs.drop_first())
    }
}

/// The canonical serialized form, from parsed fields.
pub open spec fn spec_ser_v(vs: Seq<(Seq<char>, u64, u64, u64)>) -> Seq<char> {
    seq!['['] + ser_items_v(vs) + seq![']']
}

proof fn lemma_ser_items_views(ms: Seq<Mood>)
    ensures
        ser_items(ms) == ser_items_v(mood_views(ms)),
    decreases ms.len(),
{
    if ms.len() == 0 {
    } else if ms.len() == 1 {
        assert(mood_views(ms)[0] == mood_view(ms[0]));
    } else {
        lemma_ser_items_views(ms.drop_first());
        assert(mood_views(ms)[0] == mood_view(ms[0]));
        assert(mood_views(ms).drop_first() =~= mood_views(ms.drop_first()));
        assert(ser_items(ms) =~= ser_items_v(mood_views(ms)));
    }
}

/// The two serialization spec functions agree through `mood_views`.
pub proof fn lemma_ser_views(ms: Seq<Mood>)
    ensures
        spec_ser(ms) == spec_ser_v(mood_views(ms)),
{
    lemma_ser_items_views(ms);
}

/// A digit character survives the trip through its value.
proof fn lemma_digit_char_val(c: char)
    requires
        is_digit(c),
    ensures
        digit_char(digit_val(c)) == c,
{
}

/// What an accepted keyword scan consumed: exactly the escaped form of the
/// result plus the closing quote.
proof fn lemma_scan_str_sound(v: Seq<char>, i: int)
    requires
        0 <= i <= v.len(),
    ensures
        spec_scan_str(v, i) matches Some((k, j)) ==> i < j <= v.len() && v.subrange(i, j) == esc(
            k,
        ) + seq!['"'],
    decreases v.len() - i,
{
    if i < v.len() {
        if v[i] == '"' {
            assert(esc(Seq::<char>::empty()) == Seq::<char>::empty());
            assert(v.subrange(i, i + 1) =~= esc(Seq::<char>::empty()) + seq!['"']);
        } else if v[i] == '\\' {
            if i + 1 < v.len() && (v[i + 1] == '"' || v[i + 1] == '\\') {
                lemma_scan_str_sound(v, i + 2);
                match spec_scan_str(v, i + 2) {
                    Some((k2, j2)) => {
                        let k = seq![v[i + 1]] + k2;
                        assert(k[0] == v[i + 1]);
                        assert(k.drop_first() =~= k2);
                        assert(esc(k) == esc_char(v[i + 1]) + esc(k2));
                        assert(esc_char(v[i + 1]) =~= seq![v[i], v[i + 1]]);
                        assert(v.subrange(i, j2) =~= seq![v[i], v[i + 1]] + v.subrange(i + 2, j2));
                        assert(v.subrange(i, j2) =~= esc(k) + seq!['"']);
                    },
                    None => {},
                }
            }
        } else {
            lemma_scan_str_sound(v, i + 1);
            match spec_scan_str(v, i + 1) {
                Some((k2, j2)) => {
                    let k = seq![v[i]] + k2;
                    assert(k[0] == v[i]);
                    assert(k.drop_first() =~= k2);
                    assert(esc(k) == esc_char(v[i]) + esc(k2));
                    assert(esc_char(v[i]) =~= seq![v[i]]);
                    assert(v.subrange(i, j2) =~= seq![v[i]] + v.subrange(i + 1, j2));
                    assert(v.subrange(i, j2) =~= esc(k) + seq!['"']);
                },
                None => {},
            }
        }
    }
}

/// What an accepted digit scan consumed, relative to a nonzero accumulator:
/// the result's representation extends the accumulator's by the consumed
/// digits.
proof fn lemma_scan_num_sound(v: Seq<char>, i: int, acc: u64)
    requires
        0 <= i <= v.len(),
        acc >= 1,
    ensures
        spec_scan_num(v, i, acc) matches Some((n, j)) ==> i <= j <= v.len() && dec_rep(
            n as nat,
        ) == dec_rep(acc as nat) + v.subrange(i, j),
    decreases v.len() - i,
{
    if i < v.len() && is_digit(v[i]) {
        let d = digit_val(v[i]) as u64;
        if acc > (u64::MAX - d) / 10 {
        } else {
            let acc2 = (acc * 10 + d) as u64;
            assert(acc2 / 10 == acc && acc2 % 10 == d);
            lemma_digit_char_val(v[i]);
            assert(dec_rep(acc2 as nat) == dec_rep(acc as nat).push(v[i]));
            lemma_scan_num_sound(v, i + 1, acc2);
            match spec_scan_num(v, i + 1, acc2) {
                Some((n, j)) => {
                    assert(dec_rep(n as nat) == dec_rep(acc2 as nat) + v.subrange(i + 1, j));
                    assert(dec_rep(acc as nat).push(v[i]) + v.subrange(i + 1, j) =~= dec_rep(
                        acc as nat,
                    ) + v.subrange(i, j));
                },
                None => {},
            }
        }
    } else {
        assert(v.subrange(i, i) =~= Seq::<char>::empty());
        assert(dec_rep(acc as nat) + v.subrange(i, i) =~= dec_rep(acc as nat));
    }
}

/// What an accepted number scan consumed: exactly the canonical decimal
/// representation of the result.
proof fn lemma_scan_number_sound(v: Seq<char>, i: int)
    requires
        0 <= i <= v.len(),
    ensures
        spec_scan_number(v, i) matches Some((n, j)) ==> i < j <= v.len() && v.subrange(i, j)
            == dec_rep(n as nat),
{
    if i < v.len() && v[i] == '0' {
        if !(i + 1 < v.len() && is_digit(v[i + 1])) {
            assert(v.subrange(i, i + 1) =~= seq!['0']);
            assert(dec_rep(0) == seq![digit_char(0)]);
            assert(v.subrange(i, i + 1) =~= dec_rep(0));
        }
    } else if i < v.len() && is_digit(v[i]) {
        let d = digit_val(v[i]) as u64;
        assert(d >= 1);
        assert(!(0u64 > (u64::MAX - d) / 10));
        let acc2 = (0 * 10 + d) as u64;
        assert(acc2 == d);
        lemma_digit_char_val(v[i]);
        assert(dec_rep(d as nat) =~= seq![v[i]]);
        lemma_scan_num_sound(v, i + 1, d);
        assert(spec_scan_num(v, i, 0) == spec_scan_num(v, i + 1, d));
        match spec_scan_num(v, i + 1, d) {
            Some((n, j)) => {
                assert(dec_rep(n as nat) == dec_rep(d as nat) + v.subrange(i + 1, j));
                assert(seq![v[i]] + v.subrange(i + 1, j) =~= v.subrange(i, j));
            },
            None => {},
        }
    }
}


/// Adjacent subranges of the same sequence join by concatenation.
proof fn lemma_subrange_join(v: Seq<char>, a: int, b: int, c: int)
    requires
        0 <= a <= b <= c <= v.len(),
    ensures
        v.subrange(a, c) == v.subrange(a, b) + v.subrange(b, c),
{
    assert(v.subrange(a, c) =~= v.subrange(a, b) + v.subrange(b, c));
}

/// What an accepted mood parse consumed: exactly the serialized form of the
/// fields it returned.
proof fn lemma_parse_mood_sound(v: Seq<char>, i: int)
    requires
        0 <= i <= v.len(),
    ensures
        spec_parse_mood(v, i) matches Some((mv, j)) ==> i < j <= v.len() && v.subrange(i, j)
            == ser_fields(mv.0, mv.1, mv.2, mv.3),
{
    reveal_strlit("{\"keyword\":\"");
    reveal_strlit("\",\"positiveCount\":");
    reveal_strlit(",\"positiveCount\":");
    reveal_strlit(",\"neutralCount\":");
    reveal_strlit(",\"negativeCount\":");
    reveal_strlit("}");
    let l1 = "{\"keyword\":\""@;
    let l2 = ",\"positiveCount\":"@;
    let l3 = ",\"neutralCount\":"@;
    let l4 = ",\"negativeCount\":"@;
    if lit_at(v, i, l1) {
        let i1 = i + l1.len();
        lemma_scan_str_sound(v, i1);
        match spec_scan_str(v, i1) {
            Some((k, j1)) => {
                if lit_at(v, j1, l2) {
                    let j2a = j1 + l2.len();
                    lemma_scan_number_sound(v, j2a);
                    match spec_scan_number(v, j2a) {
                        Some((p, j2)) => {
                            if lit_at(v, j2, l3) {
                                let j3a = j2 + l3.len();
                                lemma_scan_number_sound(v, j3a);
                                match spec_scan_number(v, j3a) {
                                    Some((nn, j3)) => {
                                        if lit_at(v, j3, l4) {
                                            let j4a = j3 + l4.len();
                                            lemma_scan_number_sound(v, j4a);
                                            match spec_scan_number(v, j4a) {
                                                Some((g, j4)) => {
                                                    if j4 < v.len() && v[j4] == '}' {
                                                        lemma_parse_mood_sound_join(
                                                            v, i, i1, j1, j2a, j2, j3a, j3, j4a,
                                                            j4, k, p, nn, g,
                                                        );
                                                    }
                                                },
                                                None => {},
                                            }
                                        }
                                    },
                                    None => {},
                                }
                            }
                        },
                        None => {},
                    }
                }
            },
            None => {},
        }
    }
}

/// The assembly step of `lemma_parse_mood_sound`: gluing the consumed
/// pieces back together gives `ser_fields`.
proof fn lemma_parse_mood_sound_join(
    v: Seq<char>,
    i: int,
    i1: int,
    j1: int,
    j2a: int,
    j2: int,
    j3a: int,
    j3: int,
    j4a: int,
    j4: int,
    k: Seq<char>,
    p: u64,
    nn: u64,
    g: u64,
)
    requires
        0 <= i <= i1 <= j1 <= j2a <= j2 <= j3a <= j3 <= j4a <= j4 < v.len(),
        v.subrange(i, i1) == "{\"keyword\":\""@,
        v.subrange(i1, j1) == esc(k) + seq!['"'],
        v.subrange(j1, j2a) == ",\"positiveCount\":"@,
        v.subrange(j2a, j2) == dec_rep(p as nat),
        v.subrange(j2, j3a) == ",\"neutralCount\":"@,
        v.subrange(j3a, j3) == dec_rep(nn as nat),
        v.subrange(j3, j4a) == ",\"negativeCount\":"@,
        v.subrange(j4a, j4) == dec_rep(g as nat),
        v[j4] == '}',
    ensures
        v.subrange(i, j4 + 1) == ser_fields(k, p, nn, g),
{
    reveal_strlit("{\"keyword\":\"");
    reveal_strlit("\",\"positiveCount\":");
    reveal_strlit(",\"positiveCount\":");
    reveal_strlit(",\"neutralCount\":");
    reveal_strlit(",\"negativeCount\":");
    reveal_strlit("}");
    lemma_subrange_join(v, i, i1, j1);
    lemma_subrange_join(v, i, j1, j2a);
    lemma_subrange_join(v, i, j2a, j2);
    lemma_subrange_join(v, i, j2, j3a);
    lemma_subrange_join(v, i, j3a, j3);
    lemma_subrange_join(v, i, j3, j4a);
    lemma_subrange_join(v, i, j4a, j4);
    lemma_subrange_join(v, i, j4, j4 + 1);
    assert(v.subrange(j4, j4 + 1) =~= seq!['}']);
    assert("\",\"positiveCount\":"@ =~= seq!['"'] + ",\"positiveCount\":"@);
    assert("}"@ =~= seq!['}']);
    assert(v.subrange(i, j4 + 1) =~= ser_fields(k, p, nn, g));
}

/// What an accepted items parse consumed: the serialized fields, comma
/// separated, with the closing bracket.
proof fn lemma_parse_items_sound(v: Seq<char>, i: int)
    requires
        0 <= i <= v.len(),
    ensures
        spec_parse_items(v, i) matches Some((vs, j)) ==> i < j <= v.len() && vs.len() >= 1
            && v.subrange(i, j) == ser_items_v(vs) + seq![']'],
    decreases v.len() - i,
{
    lemma_parse_mood_sound(v, i);
    match spec_parse_mood(v, i) {
        Some((m, jm)) => {
            if i < jm < v.len() && v[jm] == ',' {
                lemma_parse_items_sound(v, jm + 1);
                match spec_parse_items(v, jm + 1) {
                    Some((vs2, j2)) => {
                        let vs = seq![m] + vs2;
                        assert(vs[0] == m);
                        assert(vs.drop_first() =~= vs2);
                        assert(ser_items_v(vs) == ser_fields(m.0, m.1, m.2, m.3) + seq![',']
                            + ser_items_v(vs2));
                        lemma_subrange_join(v, i, jm, jm + 1);
                        lemma_subrange_join(v, i, jm + 1, j2);
                        assert(v.subrange(jm, jm + 1) =~= seq![',']);
                        assert(v.subrange(i, j2) =~= ser_items_v(vs) + seq![']']);
                    },
                    None => {},
                }
            } else if jm < v.len() && v[jm] == ']' {
                let vs = seq![m];
                assert(vs[0] == m);
                assert(ser_items_v(vs) == ser_fields(m.0, m.1, m.2, m.3));
                lemma_subrange_join(v, i, jm, jm + 1);
                assert(v.subrange(jm, jm + 1) =~= seq![']']);
                assert(v.subrange(i, jm + 1) =~= ser_items_v(vs) + seq![']']);
            }
        },
        None => {},
    }
}

/// Soundness law: any input the parser accepts is itself the canonical
/// serialization of the fields the parser returned. Together with
/// `lemma_snapshot_round_trip` this pins the parser exactly: it accepts the
/// canonical forms and nothing else.
pub proof fn lemma_parse_sound(v: Seq<char>)
    ensures
        spec_parse(v) matches Some(vs) ==> v == spec_ser_v(vs),
{
    if v.len() == 2 && v[0] == '[' && v[1] == ']' {
        assert(ser_items_v(Seq::<(Seq<char>, u64, u64, u64)>::empty()) == Seq::<char>::empty());
        assert(spec_ser_v(Seq::<(Seq<char>, u64, u64, u64)>::empty()) =~= v);
    } else if v.len() > 0 && v[0] == '[' {
        lemma_parse_items_sound(v, 1);
        match spec_parse_items(v, 1) {
            Some((vs, j)) => {
                if j == v.len() {
                    assert(v.subrange(1, j) == ser_items_v(vs) + seq![']']);
                    assert(v =~= seq![v[0]] + v.subrange(1, j));
                    assert(v =~= spec_ser_v(vs));
                }
            },
            None => {},
        }
    }
}


/// Serialization is injective on mood values: two snapshots with the same
/// canonical form carry the same keywords and counters, in the same order.
pub proof fn lemma_ser_injective(a: Seq<Mood>, b: Seq<Mood>)
    requires
        spec_ser(a) == spec_ser(b),
    ensures
        mood_views(a) == mood_views(b),
{
    lemma_snapshot_round_trip(a);
    lemma_snapshot_round_trip(b);
}

} // verus!
