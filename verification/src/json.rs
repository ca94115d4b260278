//! The output rows: one JSON object per line, and the reading back of single
//! fields from such lines.
use crate::number;
use crate::text;
use crate::trade;
use vstd::prelude::*;

verus! {

// ---------------------------------------------------------------------------
// Escaping

/// The small hexadecimal digit of `n`.
pub open spec fn hex_digit(n: int) -> char {
    if n < 10 {
        (n + '0' as int) as char
    } else {
        (n - 10 + 'a' as int) as char
    }
}

/// A character that cannot stand for itself inside a JSON string.
pub open spec fn is_special(c: char) -> bool {
    c == '"' || c == '\\' || text::is_control(c)
}

/// How a character is written inside a JSON string.
pub open spec fn escape_char(c: char) -> Seq<char> {
    if c == '"' {
        seq!['\\', '"']
    } else if c == '\\' {
        seq!['\\', '\\']
    } else if c == '\n' {
        seq!['\\', 'n']
    } else if c == '\r' {
        seq!['\\', 'r']
    } else if c == '\t' {
        seq!['\\', 't']
    } else if text::is_control(c) {
        seq!['\\', 'u', '0', '0', hex_digit(c as int / 16), hex_digit(c as int % 16)]
    } else {
        seq![c]
    }
}

/// How a text is written inside a JSON string.
pub open spec fn escaped(s: Seq<char>) -> Seq<char>
    decreases s.len(),
{
    if s.len() == 0 {
        Seq::empty()
    } else {
        escape_char(s[0]) + escaped(s.drop_first())
    }
}

/// A text that is written as it is.
pub open spec fn is_plain(s: Seq<char>) -> bool {
    forall|i: int| 0 <= i < s.len() ==> !is_special(#[trigger] s[i])
}

proof fn lemma_escaped_push(s: Seq<char>, c: char)
    ensures
        escaped(s.push(c)) == escaped(s) + escape_char(c),
    decreases s.len(),
{
    let t = s.push(c);
    if s.len() == 0 {
        assert(t.drop_first() =~= Seq::<char>::empty());
        assert(escaped(Seq::<char>::empty()) =~= Seq::<char>::empty());
        assert(escaped(t) =~= escape_char(c));
        assert(escaped(s) + escape_char(c) =~= escape_char(c));
    } else {
        assert(t.drop_first() =~= s.drop_first().push(c));
        lemma_escaped_push(s.drop_first(), c);
        assert(escaped(t) =~= escaped(s) + escape_char(c));
    }
}

fn hex(n: u32) -> (r: char)
    requires
        n < 16,
    ensures
        r == hex_digit(n as int),
{
    if n < 10 {
        ((n + 48) as u8) as char
    } else {
        ((n - 10 + 97) as u8) as char
    }
}

fn push_escaped(out: &mut String, c: char)
    ensures
        final(out)@ == old(out)@ + escape_char(c),
{
    if c == '"' {
        out.push('\\');
        out.push('"');
    } else if c == '\\' {
        out.push('\\');
        out.push('\\');
    } else if c == '\n' {
        out.push('\\');
        out.push('n');
    } else if c == '\r' {
        out.push('\\');
        out.push('r');
    } else if c == '\t' {
        out.push('\\');
        out.push('t');
    } else if text::control(c) {
        let n: u32 = c as u32;
        out.push('\\');
        out.push('u');
        out.push('0');
        out.push('0');
        out.push(hex(n / 16));
        out.push(hex(n % 16));
    } else {
        out.push(c);
    }
    assert(out@ =~= old(out)@ + escape_char(c));
}

/// Writes a text as it stands inside a JSON string.
pub fn json_escape(s: &str) -> (r: String)
    ensures
        r@ == escaped(s@),
{
    let v = text::chars_of(s);
    let mut out = String::new();
    for i in 0..v.len()
        invariant
            v@ == s@,
            out@ == escaped(s@.take(i as int)),
    {
        push_escaped(&mut out, v[i]);
        proof {
            assert(s@.take(i + 1) =~= s@.take(i as int).push(v@[i as int]));
            lemma_escaped_push(s@.take(i as int), v@[i as int]);
        }
    }
    assert(s@.take(s@.len() as int) =~= s@);
    out
}

// ---------------------------------------------------------------------------
// Rows

pub open spec fn bool_text(b: bool) -> Seq<char> {
    if b {
        "true"@
    } else {
        "false"@
    }
}

/// The row of a trade: the eight fields `s`, `a`, `p`, `q`, `f`, `l`, `T` and
/// `m`, in this order.
pub open spec fn json_row(x: trade::TradeView) -> Seq<char> {
    "{\"s\":\""@ + escaped(x.s) + "\",\"a\":"@ + number::int_text(x.a) + ",\"p\":\""@ + escaped(x.p)
        + "\",\"q\":\""@ + escaped(x.q) + "\",\"f\":"@ + number::int_text(x.f) + ",\"l\":"@
        + number::int_text(x.l) + ",\"T\":"@ + number::int_text(x.t) + ",\"m\":"@ + bool_text(x.m)
        + "}"@
}

/// Writes the row of a trade.
pub fn to_json_line(x: &trade::AggTrade) -> (r: String)
    ensures
        r@ == json_row(x@),
{
    let mut r = "{\"s\":\"".to_owned();
    r.append(json_escape(x.s.as_str()).as_str());
    r.append("\",\"a\":");
    r.append(number::i64_text(x.a).as_str());
    r.append(",\"p\":\"");
    r.append(json_escape(x.p.as_str()).as_str());
    r.append("\",\"q\":\"");
    r.append(json_escape(x.q.as_str()).as_str());
    r.append("\",\"f\":");
    r.append(number::i64_text(x.f).as_str());
    r.append(",\"l\":");
    r.append(number::i64_text(x.l).as_str());
    r.append(",\"T\":");
    r.append(number::i64_text(x.t).as_str());
    r.append(",\"m\":");
    if x.m {
        r.append("true");
    } else {
        r.append("false");
    }
    r.append("}");
    r
}

// ---------------------------------------------------------------------------
// Reading fields back

/// What follows the first occurrence of `needle`.
pub open spec fn after(line: Seq<char>, needle: Seq<char>) -> Option<Seq<char>> {
    match text::find_text(line, needle) {
        None => None,
        Some(i) => Some(line.skip(i as int + needle.len())),
    }
}

/// The text of a string field: what stands between the quote after the key and
/// the next quote.
pub open spec fn string_field(line: Seq<char>, key: Seq<char>) -> Option<Seq<char>> {
    match after(line, "\""@ + key + "\":\""@) {
        None => None,
        Some(rest) => match text::find_text(rest, seq!['"']) {
            None => None,
            Some(j) => Some(rest.take(j as int)),
        },
    }
}

/// The value of an integer field: the run of digits and minus signs after the
/// key, read as an `i64`.
pub open spec fn int_field(line: Seq<char>, key: Seq<char>) -> Option<int> {
    match after(line, "\""@ + key + "\":"@) {
        None => None,
        Some(rest) => match number::read_i64(text::lead(rest, text::CharClass::Numeral)) {
            Ok(v) => Some(v),
            Err(_) => None,
        },
    }
}

fn end_of(line: &[char], needle: &str) -> (r: Option<usize>)
    ensures
        match r {
            Some(n) => n <= line@.len() && after(line@, needle@) == Some(line@.skip(n as int)),
            None => after(line@, needle@) is None,
        },
{
    let p = text::chars_of(needle);
    assert(line@.skip(0) =~= line@);
    match text::find_from(line, 0, p.as_slice()) {
        None => None,
        Some(i) => {
            assert(i + p@.len() <= line@.len() <= usize::MAX) by {
                assert(line@.len() == line.len());
            }
            Some(i + p.len())
        },
    }
}

/// The text of the string field with the given key.
pub fn extract_json_string(line: &str, key: &str) -> (r: Option<String>)
    ensures
        match r {
            Some(s) => string_field(line@, key@) == Some(s@),
            None => string_field(line@, key@) is None,
        },
{
    let mut needle = "\"".to_owned();
    needle.append(key);
    needle.append("\":\"");
    let v = text::chars_of(line);
    let start: usize = match end_of(v.as_slice(), needle.as_str()) {
        Some(n) => n,
        None => return None,
    };
    let mut quote: Vec<char> = Vec::new();
    quote.push('"');
    assert(quote@ =~= seq!['"']);
    match text::find_from(v.as_slice(), start, quote.as_slice()) {
        None => None,
        Some(end) => {
            let ghost rest = v@.skip(start as int);
            assert(v@.subrange(start as int, end as int) =~= rest.take(end - start));
            Some(text::string_of(text::part(v.as_slice(), start, end).as_slice()))
        },
    }
}

/// The value of the integer field with the given key.
pub fn extract_json_i64(line: &str, key: &str) -> (r: Option<i64>)
    ensures
        match r {
            Some(v) => int_field(line@, key@) == Some(v as int),
            None => int_field(line@, key@) is None,
        },
{
    let mut needle = "\"".to_owned();
    needle.append(key);
    needle.append("\":");
    let v = text::chars_of(line);
    let start: usize = match end_of(v.as_slice(), needle.as_str()) {
        Some(n) => n,
        None => return None,
    };
    let end: usize = text::run_end(v.as_slice(), start, text::CharClass::Numeral);
    let run = text::string_of(text::part(v.as_slice(), start, end).as_slice());
    match number::parse_i64(run.as_str()) {
        Ok(n) => Some(n),
        Err(_) => None,
    }
}

// ---------------------------------------------------------------------------
// Laws

/// What an escaped character is made of.
proof fn lemma_escape_char(c: char)
    ensures
        escape_char(c).len() >= 1,
        is_special(c) ==> escape_char(c).len() >= 2,
        !is_special(c) ==> escape_char(c) == seq![c],
        forall|i: int|
            0 <= i < escape_char(c).len() && #[trigger] escape_char(c)[i] == '"' ==> c == '"' && i
                == 1 && escape_char(c)[0] == '\\',
        forall|i: int|
            0 <= i < escape_char(c).len() ==> !text::is_control(#[trigger] escape_char(c)[i]),
{
}

/// The characters of an escaped text are those of its first character and then
/// those of the rest.
proof fn lemma_escaped_index(s: Seq<char>)
    requires
        s.len() > 0,
    ensures
        ({
            let h = escape_char(s[0]);
            let r = escaped(s.drop_first());
            &&& escaped(s).len() == h.len() + r.len()
            &&& forall|i: int| 0 <= i < h.len() ==> #[trigger] escaped(s)[i] == h[i]
            &&& forall|i: int| h.len() <= i < escaped(s).len() ==> #[trigger] escaped(s)[i] == r[i
                - h.len()]
        }),
{
}

/// In an escaped text every quote follows a backslash.
proof fn lemma_quotes_are_escaped(s: Seq<char>)
    ensures
        forall|i: int|
            0 <= i < escaped(s).len() && #[trigger] escaped(s)[i] == '"' ==> i >= 1 && escaped(
                s,
            )[i - 1] == '\\',
    decreases s.len(),
{
    if s.len() > 0 {
        let t = s.drop_first();
        lemma_escape_char(s[0]);
        lemma_escaped_index(s);
        lemma_quotes_are_escaped(t);
        let h = escape_char(s[0]);
        let e = escaped(s);
        let r = escaped(t);
        assert forall|i: int| 0 <= i < e.len() && #[trigger] e[i] == '"' implies i >= 1 && e[i - 1]
            == '\\' by {
            if i >= h.len() {
                assert(r[i - h.len()] == '"');
                assert(r[i - h.len() - 1] == '\\');
                assert(e[i - 1] == r[i - 1 - h.len()]);
            } else {
                assert(h[i] == '"');
                assert(e[0] == h[0]);
            }
        }
    }
}

/// A plain text is written as it is, and any other takes more room.
proof fn lemma_escaped_length(s: Seq<char>)
    ensures
        is_plain(s) ==> escaped(s) == s,
        !is_plain(s) ==> escaped(s).len() > s.len(),
        escaped(s).len() >= s.len(),
    decreases s.len(),
{
    if s.len() > 0 {
        let t = s.drop_first();
        lemma_escape_char(s[0]);
        lemma_escaped_index(s);
        lemma_escaped_length(t);
        if is_plain(s) {
            assert forall|i: int| 0 <= i < t.len() implies !is_special(#[trigger] t[i]) by {
                assert(t[i] == s[i + 1]);
            }
            assert(is_plain(t));
            assert(!is_special(s[0]));
            assert(escaped(s) =~= s);
        } else if !is_special(s[0]) && is_plain(t) {
            assert forall|i: int| 0 <= i < s.len() implies !is_special(#[trigger] s[i]) by {
                if i > 0 {
                    assert(s[i] == t[i - 1]);
                }
            }
        }
    } else {
        assert(escaped(s) =~= s);
    }
}

/// A text without quotes is escaped without quotes.
proof fn lemma_no_new_quotes(s: Seq<char>)
    requires
        forall|i: int| 0 <= i < s.len() ==> #[trigger] s[i] != '"',
    ensures
        forall|i: int| 0 <= i < escaped(s).len() ==> #[trigger] escaped(s)[i] != '"',
    decreases s.len(),
{
    if s.len() > 0 {
        let t = s.drop_first();
        lemma_escape_char(s[0]);
        lemma_escaped_index(s);
        assert(s[0] != '"');
        assert forall|i: int| 0 <= i < t.len() implies #[trigger] t[i] != '"' by {
            assert(t[i] == s[i + 1]);
        }
        lemma_no_new_quotes(t);
        let e = escaped(s);
        let h = escape_char(s[0]);
        let r = escaped(t);
        assert forall|i: int| 0 <= i < e.len() implies #[trigger] e[i] != '"' by {
            if i < h.len() {
                assert(e[i] == h[i]);
            } else {
                assert(e[i] == r[i - h.len()]);
            }
        }
    }
}

/// The opening of a row, then the symbol, then the rest.
#[verifier::spinoff_prover]
proof fn lemma_row_parts(x: trade::TradeView) -> (rest: Seq<char>)
    ensures
        json_row(x) == seq!['{', '"', 's', '"', ':', '"'] + escaped(x.s) + (seq![
            '"',
            ',',
            '"',
            'a',
            '"',
            ':',
        ] + number::int_text(x.a) + rest),
        rest.len() > 0,
        rest[0] == ',',
{
    reveal_strlit("{\"s\":\"");
    reveal_strlit("\",\"a\":");
    reveal_strlit(",\"p\":\"");
    assert("{\"s\":\""@ =~= seq!['{', '"', 's', '"', ':', '"']);
    assert("\",\"a\":"@ =~= seq!['"', ',', '"', 'a', '"', ':']);
    let rest = ",\"p\":\""@ + escaped(x.p) + "\",\"q\":\""@ + escaped(x.q) + "\",\"f\":"@
        + number::int_text(x.f) + ",\"l\":"@ + number::int_text(x.l) + ",\"T\":"@
        + number::int_text(x.t) + ",\"m\":"@ + bool_text(x.m) + "}"@;
    assert(json_row(x) =~= seq!['{', '"', 's', '"', ':', '"'] + escaped(x.s) + (seq![
        '"',
        ',',
        '"',
        'a',
        '"',
        ':',
    ] + number::int_text(x.a) + rest));
    rest
}

/// The first quote in an escaped text without quotes and what follows it in a row
/// is the one that closes it.
#[verifier::spinoff_prover]
proof fn lemma_closing_quote(s: Seq<char>, rest: Seq<char>)
    requires
        forall|i: int| 0 <= i < s.len() ==> #[trigger] s[i] != '"',
    ensures
        text::find_text(escaped(s) + (seq!['"'] + rest), seq!['"']) == Some(escaped(s).len()),
{
    let e = escaped(s);
    let tail = e + (seq!['"'] + rest);
    let quote = seq!['"'];
    lemma_no_new_quotes(s);
    assert(tail.skip(e.len() as int).take(1) =~= quote);
    assert(text::occurs_at(tail, quote, e.len() as int));
    assert forall|i: int| 0 <= i < e.len() implies !#[trigger] text::occurs_at(tail, quote, i) by {
        assert(tail.skip(i).take(1)[0] == tail[i]);
        assert(tail[i] == e[i]);
        assert(e[i] != '"');
    }
    text::lemma_find_at(tail, quote, e.len() as int);
}

/// What stands before the first quote holds none.
#[verifier::spinoff_prover]
proof fn lemma_no_quote_before_first(tail: Seq<char>, j: int, k: int)
    requires
        text::find_text(tail, seq!['"']) == Some(j as nat),
        0 <= k < j <= tail.len(),
    ensures
        tail[k] != '"',
{
    if tail[k] == '"' {
        assert(tail.skip(k).take(1) =~= seq!['"']);
        text::lemma_find_no_earlier(tail, seq!['"'], k);
    }
}

/// What is read as the symbol of a row ends at the first quote behind the key.
#[verifier::spinoff_prover]
proof fn lemma_symbol_field(x: trade::TradeView) -> (rest: Seq<char>)
    ensures
        ({
            let tail = escaped(x.s) + (seq!['"'] + rest);
            string_field(json_row(x), "s"@) == match text::find_text(tail, seq!['"']) {
                None => None,
                Some(j) => Some(tail.take(j as int)),
            }
        }),
{
    let behind = lemma_row_parts(x);
    let line = json_row(x);
    let e = escaped(x.s);
    let rest = seq![',', '"', 'a', '"', ':'] + number::int_text(x.a) + behind;
    let needle = "\""@ + "s"@ + "\":\""@;
    reveal_strlit("\"");
    reveal_strlit("s");
    reveal_strlit("\":\"");
    assert(needle =~= seq!['"', 's', '"', ':', '"']);
    assert(line.skip(1).take(5) =~= needle);
    assert(text::occurs_at(line, needle, 1));
    assert(!text::occurs_at(line, needle, 0)) by {
        assert(line.skip(0).take(5)[0] == '{');
    }
    text::lemma_find_at(line, needle, 1);
    assert(line.skip(6) =~= e + (seq!['"'] + rest));
    rest
}

/// The symbol of a trade is read back from its row exactly where it is plain.
#[verifier::spinoff_prover]
pub proof fn law_symbol_reads_back(x: trade::TradeView)
    ensures
        string_field(json_row(x), "s"@) == Some(x.s) <==> is_plain(x.s),
{
    let rest = lemma_symbol_field(x);
    let e = escaped(x.s);
    let tail = e + (seq!['"'] + rest);
    lemma_escaped_length(x.s);
    if forall|i: int| 0 <= i < x.s.len() ==> #[trigger] x.s[i] != '"' {
        lemma_closing_quote(x.s, rest);
        assert(tail.take(e.len() as int) =~= e);
    } else {
        let k = choose|k: int| 0 <= k < x.s.len() && x.s[k] == '"';
        assert(is_special(x.s[k]));
        text::lemma_find_sound(tail, seq!['"']);
        if let Some(j) = text::find_text(tail, seq!['"']) {
            if tail.take(j as int) == x.s {
                assert(tail[k] == tail.take(j as int)[k]);
                lemma_no_quote_before_first(tail, j as int, k);
            }
        }
    }
}

/// The key of the trade id first occurs behind the symbol, whatever the symbol
/// is: inside an escaped text no quote follows a letter.
#[verifier::spinoff_prover]
proof fn lemma_id_key_position(line: Seq<char>, e: Seq<char>, tail: Seq<char>)
    requires
        line == seq!['{', '"', 's', '"', ':', '"'] + e + (seq!['"', ',', '"', 'a', '"', ':']
            + tail),
        forall|i: int|
            0 <= i < e.len() && #[trigger] e[i] == '"' ==> i >= 1 && e[i - 1] == '\\',
    ensures
        text::find_text(line, seq!['"', 'a', '"', ':']) == Some(8 + e.len()),
        line.skip(12 + e.len() as int) == tail,
{
    let needle = seq!['"', 'a', '"', ':'];
    let n = e.len() as int;
    assert(line[0] == '{' && line[1] == '"' && line[2] == 's' && line[3] == '"' && line[4] == ':'
        && line[5] == '"');
    assert(line[6 + n] == '"' && line[7 + n] == ',' && line[8 + n] == '"' && line[9 + n] == 'a'
        && line[10 + n] == '"' && line[11 + n] == ':');
    assert forall|i: int| 6 <= i < 6 + n implies #[trigger] line[i] == e[i - 6] by {}
    assert(line.skip(12 + n) =~= tail);
    assert(line.skip(8 + n).take(4) =~= needle);
    assert forall|i: int| 0 <= i < 8 + n implies !#[trigger] text::occurs_at(line, needle, i) by {
        if text::occurs_at(line, needle, i) {
            let w = line.skip(i).take(4);
            assert(w[0] == line[i] && w[1] == line[i + 1] && w[2] == line[i + 2] && w[3] == line[i
                + 3]);
            assert(needle[0] == '"' && needle[1] == 'a' && needle[2] == '"' && needle[3] == ':');
            if 6 <= i + 2 < 6 + n {
                assert(e[i - 4] == '"');
                assert(e[i - 5] == '\\');
                assert(line[i + 1] == e[i - 5]);
            }
        }
    }
    text::lemma_find_at(line, needle, 8 + n);
}

/// The run of digits and minus signs at the start of a number and a comma is
/// the number.
proof fn lemma_number_run(v: int, rest: Seq<char>)
    requires
        rest.len() > 0,
        rest[0] == ',',
    ensures
        text::lead(number::int_text(v) + rest, text::CharClass::Numeral) == number::int_text(v),
{
    let digits = number::int_text(v);
    let tail = digits + rest;
    let size: nat = if v < 0 {
        (-v) as nat
    } else {
        v as nat
    };
    number::lemma_decimal_digits(size);
    assert forall|i: int| 0 <= i < digits.len() implies text::CharClass::Numeral.has(
        #[trigger] tail[i],
    ) by {
        assert(tail[i] == digits[i]);
        if v < 0 && i > 0 {
            assert(digits[i] == number::decimal(size)[i - 1]);
        }
    }
    text::lemma_lead_cut(tail, text::CharClass::Numeral, digits.len() as int);
    assert(tail.take(digits.len() as int) =~= digits);
}

/// The trade id of a trade is read back from its row, whatever its symbol is.
#[verifier::spinoff_prover]
pub proof fn law_trade_id_reads_back(x: trade::TradeView)
    requires
        trade::is_trade(x),
    ensures
        int_field(json_row(x), "a"@) == Some(x.a),
{
    let rest = lemma_row_parts(x);
    let line = json_row(x);
    let tail = number::int_text(x.a) + rest;
    reveal_strlit("\"");
    reveal_strlit("a");
    reveal_strlit("\":");
    assert("\""@ + "a"@ + "\":"@ =~= seq!['"', 'a', '"', ':']);
    lemma_quotes_are_escaped(x.s);
    assert(line =~= seq!['{', '"', 's', '"', ':', '"'] + escaped(x.s) + (seq![
        '"',
        ',',
        '"',
        'a',
        '"',
        ':',
    ] + tail));
    lemma_id_key_position(line, escaped(x.s), tail);
    lemma_number_run(x.a, rest);
    number::law_int_text_reads_back(x.a, i64::MIN as int, i64::MAX as int);
}

/// An escaped character tells where it ends and which character it stands for.
#[verifier::spinoff_prover]
proof fn lemma_escape_char_unique(c: char, x: Seq<char>, d: char, y: Seq<char>)
    requires
        escape_char(c) + x == escape_char(d) + y,
    ensures
        c == d,
        x == y,
{
    let p = escape_char(c) + x;
    let q = escape_char(d) + y;
    let (h, k) = (escape_char(c), escape_char(d));
    assert(forall|i: int| 0 <= i < h.len() ==> #[trigger] p[i] == h[i]);
    assert(forall|i: int| 0 <= i < k.len() ==> #[trigger] q[i] == k[i]);
    assert(p[0] == q[0]);
    if is_special(c) && is_special(d) {
        assert(p[1] == q[1]);
        if h.len() == 6 && k.len() == 6 {
            assert(p[4] == q[4] && p[5] == q[5]);
        }
    }
    assert(c == d);
    assert(p.skip(h.len() as int) =~= x);
    assert(q.skip(k.len() as int) =~= y);
}

/// An escaped text in quotes tells where it ends and which text it stands for.
#[verifier::spinoff_prover]
proof fn lemma_quoted_unique(s: Seq<char>, x: Seq<char>, t: Seq<char>, y: Seq<char>)
    requires
        escaped(s) + (seq!['"'] + x) == escaped(t) + (seq!['"'] + y),
    ensures
        s == t,
        x == y,
    decreases s.len(),
{
    let p = escaped(s) + (seq!['"'] + x);
    let q = escaped(t) + (seq!['"'] + y);
    if s.len() > 0 {
        lemma_escape_char(s[0]);
        lemma_escaped_index(s);
        assert(p =~= escape_char(s[0]) + (escaped(s.drop_first()) + (seq!['"'] + x)));
        assert(p[0] == escape_char(s[0])[0]);
    } else {
        assert(p =~= seq!['"'] + x);
    }
    if t.len() > 0 {
        lemma_escape_char(t[0]);
        lemma_escaped_index(t);
        assert(q =~= escape_char(t[0]) + (escaped(t.drop_first()) + (seq!['"'] + y)));
        assert(q[0] == escape_char(t[0])[0]);
    } else {
        assert(q =~= seq!['"'] + y);
    }
    if s.len() > 0 && t.len() > 0 {
        let x1 = escaped(s.drop_first()) + (seq!['"'] + x);
        let y1 = escaped(t.drop_first()) + (seq!['"'] + y);
        lemma_escape_char_unique(s[0], x1, t[0], y1);
        lemma_quoted_unique(s.drop_first(), x, t.drop_first(), y);
        assert(s =~= seq![s[0]] + s.drop_first());
        assert(t =~= seq![t[0]] + t.drop_first());
    } else {
        assert(s.len() == 0 && t.len() == 0);
        assert(s =~= t);
        assert(p.skip(1) =~= x);
        assert(q.skip(1) =~= y);
    }
}

/// Texts are escaped to the same only if they are the same.
pub proof fn law_escape_is_injective(s: Seq<char>, t: Seq<char>)
    requires
        escaped(s) == escaped(t),
    ensures
        s == t,
{
    let x = Seq::<char>::empty();
    lemma_quoted_unique(s, x, t, x);
}

proof fn lemma_number_unique(a: int, x: Seq<char>, b: int, y: Seq<char>)
    requires
        x.len() > 0,
        x[0] == ',',
        y.len() > 0,
        y[0] == ',',
        number::int_text(a) + x == number::int_text(b) + y,
    ensures
        a == b,
        x == y,
{
    lemma_number_run(a, x);
    lemma_number_run(b, y);
    let max = if a < 0 {
        -a
    } else {
        a
    } + if b < 0 {
        -b
    } else {
        b
    };
    number::law_int_text_reads_back(a, -max, max);
    number::law_int_text_reads_back(b, -max, max);
    let n = number::int_text(a).len() as int;
    assert((number::int_text(a) + x).skip(n) =~= x);
    assert((number::int_text(b) + y).skip(n) =~= y);
}

proof fn lemma_same_start(a: Seq<char>, x: Seq<char>, y: Seq<char>)
    requires
        a + x == a + y,
    ensures
        x == y,
{
    assert((a + x).skip(a.len() as int) =~= x);
    assert((a + y).skip(a.len() as int) =~= y);
}

/// The parts of a row behind each of its keys.
spec fn from_m(x: trade::TradeView) -> Seq<char> {
    ",\"m\":"@ + (bool_text(x.m) + "}"@)
}

spec fn from_t(x: trade::TradeView) -> Seq<char> {
    ",\"T\":"@ + (number::int_text(x.t) + from_m(x))
}

spec fn from_l(x: trade::TradeView) -> Seq<char> {
    ",\"l\":"@ + (number::int_text(x.l) + from_t(x))
}

spec fn from_f(x: trade::TradeView) -> Seq<char> {
    ",\"f\":"@ + (number::int_text(x.f) + from_l(x))
}

spec fn from_q(x: trade::TradeView) -> Seq<char> {
    ",\"q\":\""@ + (escaped(x.q) + (seq!['"'] + from_f(x)))
}

spec fn from_p(x: trade::TradeView) -> Seq<char> {
    ",\"p\":\""@ + (escaped(x.p) + (seq!['"'] + from_q(x)))
}

spec fn from_a(x: trade::TradeView) -> Seq<char> {
    ",\"a\":"@ + (number::int_text(x.a) + from_p(x))
}

spec fn from_s(x: trade::TradeView) -> Seq<char> {
    "{\"s\":\""@ + (escaped(x.s) + (seq!['"'] + from_a(x)))
}

proof fn lemma_assoc(a: Seq<char>, b: Seq<char>, c: Seq<char>)
    ensures
        a + b + c == a + (b + c),
{
    assert(a + b + c =~= a + (b + c));
}

#[verifier::spinoff_prover]
proof fn lemma_row_nested(x: trade::TradeView)
    ensures
        json_row(x) == from_s(x),
{
    reveal_strlit("\",\"a\":");
    reveal_strlit(",\"a\":");
    reveal_strlit("\",\"q\":\"");
    reveal_strlit(",\"q\":\"");
    reveal_strlit("\",\"f\":");
    reveal_strlit(",\"f\":");
    let quote = seq!['"'];
    assert("\",\"a\":"@ =~= quote + ",\"a\":"@);
    assert("\",\"q\":\""@ =~= quote + ",\"q\":\""@);
    assert("\",\"f\":"@ =~= quote + ",\"f\":"@);
    let r1 = "{\"s\":\""@ + escaped(x.s);
    let r2 = r1 + "\",\"a\":"@;
    let r3 = r2 + number::int_text(x.a);
    let r4 = r3 + ",\"p\":\""@;
    let r5 = r4 + escaped(x.p);
    let r6 = r5 + "\",\"q\":\""@;
    let r7 = r6 + escaped(x.q);
    let r8 = r7 + "\",\"f\":"@;
    let r9 = r8 + number::int_text(x.f);
    let r10 = r9 + ",\"l\":"@;
    let r11 = r10 + number::int_text(x.l);
    let r12 = r11 + ",\"T\":"@;
    let r13 = r12 + number::int_text(x.t);
    let r14 = r13 + ",\"m\":"@;
    let r15 = r14 + bool_text(x.m);
    lemma_assoc(r14, bool_text(x.m), "}"@);
    lemma_assoc(r13, ",\"m\":"@, bool_text(x.m) + "}"@);
    lemma_assoc(r12, number::int_text(x.t), from_m(x));
    lemma_assoc(r11, ",\"T\":"@, number::int_text(x.t) + from_m(x));
    lemma_assoc(r10, number::int_text(x.l), from_t(x));
    lemma_assoc(r9, ",\"l\":"@, number::int_text(x.l) + from_t(x));
    lemma_assoc(r8, number::int_text(x.f), from_l(x));
    lemma_assoc(r7, "\",\"f\":"@, number::int_text(x.f) + from_l(x));
    lemma_assoc(quote, ",\"f\":"@, number::int_text(x.f) + from_l(x));
    lemma_assoc(r6, escaped(x.q), quote + from_f(x));
    lemma_assoc(r5, "\",\"q\":\""@, escaped(x.q) + (quote + from_f(x)));
    lemma_assoc(quote, ",\"q\":\""@, escaped(x.q) + (quote + from_f(x)));
    lemma_assoc(r4, escaped(x.p), quote + from_q(x));
    lemma_assoc(r3, ",\"p\":\""@, escaped(x.p) + (quote + from_q(x)));
    lemma_assoc(r2, number::int_text(x.a), from_p(x));
    lemma_assoc(r1, "\",\"a\":"@, number::int_text(x.a) + from_p(x));
    lemma_assoc(quote, ",\"a\":"@, number::int_text(x.a) + from_p(x));
    lemma_assoc("{\"s\":\""@, escaped(x.s), quote + from_a(x));
}

/// A row holds the whole trade: different trades have different rows.
#[verifier::spinoff_prover]
pub proof fn law_row_determines_trade(x: trade::TradeView, y: trade::TradeView)
    requires
        json_row(x) == json_row(y),
    ensures
        x == y,
{
    lemma_row_nested(x);
    lemma_row_nested(y);
    reveal_strlit(",\"m\":");
    reveal_strlit(",\"T\":");
    reveal_strlit(",\"l\":");
    reveal_strlit(",\"p\":\"");
    lemma_same_start(
        "{\"s\":\""@,
        escaped(x.s) + (seq!['"'] + from_a(x)),
        escaped(y.s) + (seq!['"'] + from_a(y)),
    );
    lemma_quoted_unique(x.s, from_a(x), y.s, from_a(y));
    lemma_same_start(
        ",\"a\":"@,
        number::int_text(x.a) + from_p(x),
        number::int_text(y.a) + from_p(y),
    );
    lemma_number_unique(x.a, from_p(x), y.a, from_p(y));
    lemma_same_start(
        ",\"p\":\""@,
        escaped(x.p) + (seq!['"'] + from_q(x)),
        escaped(y.p) + (seq!['"'] + from_q(y)),
    );
    lemma_quoted_unique(x.p, from_q(x), y.p, from_q(y));
    lemma_same_start(
        ",\"q\":\""@,
        escaped(x.q) + (seq!['"'] + from_f(x)),
        escaped(y.q) + (seq!['"'] + from_f(y)),
    );
    lemma_quoted_unique(x.q, from_f(x), y.q, from_f(y));
    lemma_same_start(
        ",\"f\":"@,
        number::int_text(x.f) + from_l(x),
        number::int_text(y.f) + from_l(y),
    );
    lemma_number_unique(x.f, from_l(x), y.f, from_l(y));
    lemma_same_start(
        ",\"l\":"@,
        number::int_text(x.l) + from_t(x),
        number::int_text(y.l) + from_t(y),
    );
    lemma_number_unique(x.l, from_t(x), y.l, from_t(y));
    lemma_same_start(
        ",\"T\":"@,
        number::int_text(x.t) + from_m(x),
        number::int_text(y.t) + from_m(y),
    );
    lemma_number_unique(x.t, from_m(x), y.t, from_m(y));
    lemma_same_start(",\"m\":"@, bool_text(x.m) + "}"@, bool_text(y.m) + "}"@);
    reveal_strlit("true");
    reveal_strlit("false");
    assert((bool_text(x.m) + "}"@)[0] == bool_text(x.m)[0]);
    assert((bool_text(y.m) + "}"@)[0] == bool_text(y.m)[0]);
}

/// Text without control characters.
pub open spec fn is_one_line(s: Seq<char>) -> bool {
    forall|i: int| 0 <= i < s.len() ==> !text::is_control(#[trigger] s[i])
}

proof fn lemma_one_line_append(a: Seq<char>, b: Seq<char>)
    requires
        is_one_line(a),
        is_one_line(b),
    ensures
        is_one_line(a + b),
{
    assert forall|i: int| 0 <= i < (a + b).len() implies !text::is_control(
        #[trigger] (a + b)[i],
    ) by {
        if i < a.len() {
            assert((a + b)[i] == a[i]);
        } else {
            assert((a + b)[i] == b[i - a.len()]);
        }
    }
}

proof fn lemma_escaped_one_line(s: Seq<char>)
    ensures
        is_one_line(escaped(s)),
    decreases s.len(),
{
    if s.len() > 0 {
        lemma_escape_char(s[0]);
        lemma_escaped_one_line(s.drop_first());
        lemma_one_line_append(escape_char(s[0]), escaped(s.drop_first()));
    }
}

proof fn lemma_int_one_line(v: int)
    ensures
        is_one_line(number::int_text(v)),
{
    let size: nat = if v < 0 {
        (-v) as nat
    } else {
        v as nat
    };
    number::lemma_decimal_digits(size);
    assert forall|i: int| 0 <= i < number::decimal(size).len() implies !text::is_control(
        #[trigger] number::decimal(size)[i],
    ) by {
        assert(text::is_digit(number::decimal(size)[i]));
    }
    if v < 0 {
        lemma_one_line_append(seq!['-'], number::decimal(size));
    }
}

/// A row is one line: it holds no control characters, whatever the trade holds.
#[verifier::spinoff_prover]
pub proof fn law_row_is_one_line(x: trade::TradeView)
    ensures
        is_one_line(json_row(x)),
{
    reveal_strlit("{\"s\":\"");
    reveal_strlit("\",\"a\":");
    reveal_strlit(",\"p\":\"");
    reveal_strlit("\",\"q\":\"");
    reveal_strlit("\",\"f\":");
    reveal_strlit(",\"l\":");
    reveal_strlit(",\"T\":");
    reveal_strlit(",\"m\":");
    reveal_strlit("true");
    reveal_strlit("false");
    reveal_strlit("}");
    lemma_escaped_one_line(x.s);
    lemma_escaped_one_line(x.p);
    lemma_escaped_one_line(x.q);
    lemma_int_one_line(x.a);
    lemma_int_one_line(x.f);
    lemma_int_one_line(x.l);
    lemma_int_one_line(x.t);
    let r1 = "{\"s\":\""@ + escaped(x.s);
    lemma_one_line_append("{\"s\":\""@, escaped(x.s));
    let r2 = r1 + "\",\"a\":"@;
    lemma_one_line_append(r1, "\",\"a\":"@);
    let r3 = r2 + number::int_text(x.a);
    lemma_one_line_append(r2, number::int_text(x.a));
    let r4 = r3 + ",\"p\":\""@;
    lemma_one_line_append(r3, ",\"p\":\""@);
    let r5 = r4 + escaped(x.p);
    lemma_one_line_append(r4, escaped(x.p));
    let r6 = r5 + "\",\"q\":\""@;
    lemma_one_line_append(r5, "\",\"q\":\""@);
    let r7 = r6 + escaped(x.q);
    lemma_one_line_append(r6, escaped(x.q));
    let r8 = r7 + "\",\"f\":"@;
    lemma_one_line_append(r7, "\",\"f\":"@);
    let r9 = r8 + number::int_text(x.f);
    lemma_one_line_append(r8, number::int_text(x.f));
    let r10 = r9 + ",\"l\":"@;
    lemma_one_line_append(r9, ",\"l\":"@);
    let r11 = r10 + number::int_text(x.l);
    lemma_one_line_append(r10, number::int_text(x.l));
    let r12 = r11 + ",\"T\":"@;
    lemma_one_line_append(r11, ",\"T\":"@);
    let r13 = r12 + number::int_text(x.t);
    lemma_one_line_append(r12, number::int_text(x.t));
    let r14 = r13 + ",\"m\":"@;
    lemma_one_line_append(r13, ",\"m\":"@);
    let r15 = r14 + bool_text(x.m);
    lemma_one_line_append(r14, bool_text(x.m));
    lemma_one_line_append(r15, "}"@);
}

// ---------------------------------------------------------------------------
// What rows and fields say

/// The value of a hexadecimal digit.
pub open spec fn hex_value(c: char) -> int {
    if '0' <= c <= '9' {
        c as int - '0' as int
    } else {
        c as int - 'a' as int + 10
    }
}

/// What the inside of a JSON string stands for.
pub open spec fn unescaped(s: Seq<char>) -> Seq<char>
    decreases s.len(),
{
    if s.len() == 0 {
        Seq::empty()
    } else if s[0] != '\\' {
        seq![s[0]] + unescaped(s.skip(1))
    } else if s.len() >= 6 && s[1] == 'u' {
        seq![
            (4096 * hex_value(s[2]) + 256 * hex_value(s[3]) + 16 * hex_value(s[4]) + hex_value(
                s[5],
            )) as char,
        ] + unescaped(s.skip(6))
    } else if s.len() >= 2 {
        seq![
            if s[1] == 'n' {
                '\n'
            } else if s[1] == 'r' {
                '\r'
            } else if s[1] == 't' {
                '\t'
            } else {
                s[1]
            },
        ] + unescaped(s.skip(2))
    } else {
        Seq::empty()
    }
}

#[verifier::spinoff_prover]
proof fn lemma_unescape_char(c: char, rest: Seq<char>)
    ensures
        unescaped(escape_char(c) + rest) == seq![c] + unescaped(rest),
{
    let s = escape_char(c) + rest;
    if !is_special(c) {
        assert(s[0] == c);
        assert(s.skip(1) =~= rest);
    } else if c == '"' || c == '\\' || c == '\n' || c == '\r' || c == '\t' {
        assert(s[0] == '\\');
        assert(s[1] == escape_char(c)[1]);
        assert(s.skip(2) =~= rest);
    } else {
        let n = c as int;
        assert(s[0] == '\\' && s[1] == 'u' && s[2] == '0' && s[3] == '0');
        assert(s[4] == hex_digit(n / 16) && s[5] == hex_digit(n % 16));
        assert(0 <= n / 16 < 16 && 0 <= n % 16 < 16);
        assert(hex_value(s[4]) == n / 16);
        assert(hex_value(s[5]) == n % 16);
        assert(hex_value('0') == 0);
        assert(16 * (n / 16) + n % 16 == n);
        assert(s.skip(6) =~= rest);
    }
}

/// What is escaped stands for the text that it was made of.
pub proof fn law_escaped_stands_for_text(s: Seq<char>)
    ensures
        unescaped(escaped(s)) == s,
    decreases s.len(),
{
    if s.len() > 0 {
        let rest = s.drop_first();
        law_escaped_stands_for_text(rest);
        lemma_unescape_char(s[0], escaped(rest));
        assert(seq![s[0]] + rest =~= s);
    } else {
        assert(s =~= Seq::<char>::empty());
    }
}

/// A member of a JSON object.
pub open spec fn member(name: Seq<char>, value: Seq<char>) -> Seq<char> {
    seq!['"'] + name + seq!['"', ':'] + value
}

/// A text as a JSON string.
pub open spec fn quoted(s: Seq<char>) -> Seq<char> {
    seq!['"'] + escaped(s) + seq!['"']
}

/// The members of the row of a trade.
pub open spec fn members(x: trade::TradeView) -> Seq<Seq<char>> {
    seq![
        member(seq!['s'], quoted(x.s)),
        member(seq!['a'], number::int_text(x.a)),
        member(seq!['p'], quoted(x.p)),
        member(seq!['q'], quoted(x.q)),
        member(seq!['f'], number::int_text(x.f)),
        member(seq!['l'], number::int_text(x.l)),
        member(seq!['T'], number::int_text(x.t)),
        member(
            seq!['m'],
            if x.m {
                seq!['t', 'r', 'u', 'e']
            } else {
                seq!['f', 'a', 'l', 's', 'e']
            },
        ),
    ]
}

/// Members behind a first one, and what closes them.
spec fn members_tail(v: Seq<Seq<char>>, end: Seq<char>) -> Seq<char>
    decreases v.len(),
{
    if v.len() == 0 {
        end
    } else {
        seq![','] + v[0] + members_tail(v.drop_first(), end)
    }
}

proof fn lemma_tail_push(v: Seq<Seq<char>>, x: Seq<char>, end: Seq<char>)
    ensures
        members_tail(v.push(x), end) == members_tail(v, seq![','] + x + end),
    decreases v.len(),
{
    let all = v.push(x);
    if v.len() == 0 {
        assert(all.drop_first().len() == 0);
        assert(members_tail(all.drop_first(), end) == end);
    } else {
        assert(all.drop_first() =~= v.drop_first().push(x));
        lemma_tail_push(v.drop_first(), x, end);
    }
}

proof fn lemma_tail_is_joined(v: Seq<Seq<char>>, end: Seq<char>)
    requires
        v.len() > 0,
    ensures
        v[0] + members_tail(v.drop_first(), end) == text::joined(v, ',') + end,
    decreases v.len(),
{
    if v.len() == 1 {
        assert(v.drop_first().len() == 0);
    } else {
        let front = v.drop_last();
        let more = seq![','] + v.last() + end;
        lemma_tail_is_joined(front, more);
        assert(front.drop_first().push(v.last()) =~= v.drop_first());
        lemma_tail_push(front.drop_first(), v.last(), end);
        assert(text::joined(front, ',') + more =~= text::joined(v, ',') + end);
    }
}

/// A string as a member behind another one.
proof fn lemma_string_member(name: char, s: Seq<char>, tail: Seq<char>)
    ensures
        seq![','] + member(seq![name], quoted(s)) + tail == seq![',', '"', name, '"', ':', '"'] + (
        escaped(s) + (seq!['"'] + tail)),
{
    assert(seq![','] + member(seq![name], quoted(s)) + tail =~= seq![
        ',',
        '"',
        name,
        '"',
        ':',
        '"',
    ] + (escaped(s) + (seq!['"'] + tail)));
}

/// Something else as a member behind another one.
proof fn lemma_plain_member(name: char, v: Seq<char>, tail: Seq<char>)
    ensures
        seq![','] + member(seq![name], v) + tail == seq![',', '"', name, '"', ':'] + (v + tail),
{
    assert(seq![','] + member(seq![name], v) + tail =~= seq![',', '"', name, '"', ':'] + (v
        + tail));
}

proof fn lemma_tail_step(v: Seq<Seq<char>>, i: int, end: Seq<char>)
    requires
        0 <= i < v.len(),
    ensures
        members_tail(v.skip(i), end) == seq![','] + v[i] + members_tail(v.skip(i + 1), end),
{
    assert(v.skip(i).drop_first() =~= v.skip(i + 1));
}

/// A row is a JSON object with exactly eight members, in the order `s`, `a`,
/// `p`, `q`, `f`, `l`, `T`, `m`: the texts of the trade as strings, its numbers
/// in decimal, and its flag.
#[verifier::spinoff_prover]
pub proof fn law_row_is_object_of_eight(x: trade::TradeView)
    ensures
        json_row(x) == seq!['{'] + text::joined(members(x), ',') + seq!['}'],
        members(x).len() == 8,
{
    let v = members(x);
    let end = seq!['}'];
    lemma_row_nested(x);
    lemma_nested_tail(x);
    assert(v.skip(1) =~= v.drop_first());
    lemma_tail_is_joined(v, end);
    reveal_strlit("{\"s\":\"");
    assert("{\"s\":\""@ =~= seq!['{', '"', 's', '"', ':', '"']);
    let tail = from_a(x);
    assert(from_s(x) =~= seq!['{'] + (v[0] + tail));
    assert(seq!['{'] + (text::joined(v, ',') + end) =~= seq!['{'] + text::joined(v, ',') + end);
}

#[verifier::spinoff_prover]
proof fn lemma_nested_tail(x: trade::TradeView)
    ensures
        from_a(x) == members_tail(members(x).skip(1), seq!['}']),
{
    let v = members(x);
    let end = seq!['}'];
    let flag = if x.m {
        seq!['t', 'r', 'u', 'e']
    } else {
        seq!['f', 'a', 'l', 's', 'e']
    };
    reveal_strlit(",\"a\":");
    reveal_strlit(",\"p\":\"");
    reveal_strlit(",\"q\":\"");
    reveal_strlit(",\"f\":");
    reveal_strlit(",\"l\":");
    reveal_strlit(",\"T\":");
    reveal_strlit(",\"m\":");
    reveal_strlit("true");
    reveal_strlit("false");
    reveal_strlit("}");
    assert(",\"a\":"@ =~= seq![',', '"', 'a', '"', ':']);
    assert(",\"p\":\""@ =~= seq![',', '"', 'p', '"', ':', '"']);
    assert(",\"q\":\""@ =~= seq![',', '"', 'q', '"', ':', '"']);
    assert(",\"f\":"@ =~= seq![',', '"', 'f', '"', ':']);
    assert(",\"l\":"@ =~= seq![',', '"', 'l', '"', ':']);
    assert(",\"T\":"@ =~= seq![',', '"', 'T', '"', ':']);
    assert(",\"m\":"@ =~= seq![',', '"', 'm', '"', ':']);
    assert(bool_text(x.m) =~= flag);
    assert("}"@ =~= end);
    assert(v.skip(8).len() == 0);
    lemma_tail_step(v, 7, end);
    lemma_plain_member('m', flag, end);
    assert(from_m(x) == members_tail(v.skip(7), end));
    lemma_tail_step(v, 6, end);
    lemma_plain_member('T', number::int_text(x.t), from_m(x));
    lemma_tail_step(v, 5, end);
    lemma_plain_member('l', number::int_text(x.l), from_t(x));
    lemma_tail_step(v, 4, end);
    lemma_plain_member('f', number::int_text(x.f), from_l(x));
    lemma_tail_step(v, 3, end);
    lemma_string_member('q', x.q, from_f(x));
    lemma_tail_step(v, 2, end);
    lemma_string_member('p', x.p, from_q(x));
    lemma_tail_step(v, 1, end);
    lemma_plain_member('a', number::int_text(x.a), from_p(x));
}

/// The key of a field as it stands in a line.
pub open spec fn key_text(key: Seq<char>) -> Seq<char> {
    seq!['"'] + key + seq!['"', ':']
}

proof fn lemma_needles(key: Seq<char>)
    ensures
        "\""@ + key + "\":"@ == key_text(key),
        "\""@ + key + "\":\""@ == key_text(key) + seq!['"'],
{
    reveal_strlit("\"");
    reveal_strlit("\":");
    reveal_strlit("\":\"");
    assert("\""@ + key + "\":"@ =~= key_text(key));
    assert("\""@ + key + "\":\""@ =~= key_text(key) + seq!['"']);
}

/// The text of a string field is what stands between the quotes behind the first
/// place where its key is followed by a quote.
pub proof fn law_string_field(
    a: Seq<char>,
    key: Seq<char>,
    value: Seq<char>,
    b: Seq<char>,
)
    requires
        !value.contains('"'),
        ({
            let needle = key_text(key) + seq!['"'];
            forall|i: int|
                0 <= i < a.len() ==> !#[trigger] text::stands_at(
                    a + needle + (value + seq!['"'] + b),
                    needle,
                    i,
                )
        }),
    ensures
        string_field(a + (key_text(key) + seq!['"']) + (value + seq!['"'] + b), key) == Some(value),
{
    let needle = key_text(key) + seq!['"'];
    let rest = value + seq!['"'] + b;
    let line = a + needle + rest;
    lemma_needles(key);
    text::law_search_behind(a, needle, rest);
    assert(line.skip(a.len() + needle.len() as int) =~= rest);
    let quote = seq!['"'];
    assert forall|i: int| 0 <= i < value.len() implies !#[trigger] text::stands_at(
        value + quote + b,
        quote,
        i,
    ) by {
        let s = value + quote + b;
        assert(s[i] == value[i]);
        if text::stands_at(s, quote, i) {
            assert(s.subrange(i, i + 1)[0] == '"');
            assert(value.contains('"'));
        }
    }
    text::law_search_behind(value, quote, b);
    assert(rest.take(value.len() as int) =~= value);
}

/// There is no string field where its key, followed by a quote, stands nowhere.
pub proof fn law_no_string_field(line: Seq<char>, key: Seq<char>)
    requires
        forall|i: int| !#[trigger] text::stands_at(line, key_text(key) + seq!['"'], i),
    ensures
        string_field(line, key) is None,
{
    lemma_needles(key);
    text::law_search(line, key_text(key) + seq!['"']);
}

/// The value of an integer field is that of the digits and minus signs right
/// behind the first place of its key, if they are an integer.
pub proof fn law_int_field(a: Seq<char>, key: Seq<char>, run: Seq<char>, b: Seq<char>)
    requires
        text::all_in(run, text::CharClass::Numeral),
        b.len() > 0 ==> !text::CharClass::Numeral.has(b[0]),
        forall|i: int|
            0 <= i < a.len() ==> !#[trigger] text::stands_at(
                a + key_text(key) + (run + b),
                key_text(key),
                i,
            ),
    ensures
        int_field(a + key_text(key) + (run + b), key) == match number::read_i64(run) {
            Ok(v) => Some(v),
            Err(_) => None,
        },
{
    let needle = key_text(key);
    let line = a + needle + (run + b);
    lemma_needles(key);
    text::law_search_behind(a, needle, run + b);
    assert(line.skip(a.len() + needle.len() as int) =~= run + b);
    text::law_leading_run(run, b, text::CharClass::Numeral);
}

/// There is no integer field where its key stands nowhere.
pub proof fn law_no_int_field(line: Seq<char>, key: Seq<char>)
    requires
        forall|i: int| !#[trigger] text::stands_at(line, key_text(key), i),
    ensures
        int_field(line, key) is None,
{
    lemma_needles(key);
    text::law_search(line, key_text(key));
}

/// How a character is written inside a JSON string: quote and backslash behind a
/// backslash, line feed, carriage return and tab as `n`, `r` and `t` behind one,
/// every other control character by its code in four hexadecimal digits, and
/// everything else as it is.
pub open spec fn is_written(c: char, e: Seq<char>) -> bool {
    let n = c as int;
    if n == 34 || n == 92 {
        e == seq!['\\', c]
    } else if n == 10 {
        e == seq!['\\', 'n']
    } else if n == 13 {
        e == seq!['\\', 'r']
    } else if n == 9 {
        e == seq!['\\', 't']
    } else if n < 32 || 127 <= n < 160 {
        &&& e.len() == 6
        &&& e.take(4) == seq!['\\', 'u', '0', '0']
        &&& 16 * hex_value(e[4]) + hex_value(e[5]) == n
        &&& forall|i: int|
            4 <= i < 6 ==> '0' <= #[trigger] e[i] <= '9' || 'a' <= e[i] <= 'f'
    } else {
        e == seq![c]
    }
}

proof fn lemma_escaped_append(a: Seq<char>, b: Seq<char>)
    ensures
        escaped(a + b) == escaped(a) + escaped(b),
    decreases b.len(),
{
    if b.len() == 0 {
        assert(a + b =~= a);
        assert(escaped(a) + escaped(b) =~= escaped(a));
    } else {
        let (front, last) = (b.drop_last(), b.last());
        lemma_escaped_append(a, front);
        lemma_escaped_push(a + front, last);
        lemma_escaped_push(front, last);
        assert((a + front).push(last) =~= a + b);
        assert(front.push(last) =~= b);
        assert(escaped(a) + escaped(front) + escape_char(last) =~= escaped(a) + (escaped(front)
            + escape_char(last)));
    }
}

/// A text is escaped character by character.
#[verifier::spinoff_prover]
pub proof fn law_escaped_by_character(a: Seq<char>, c: char, b: Seq<char>)
    ensures
        exists|e: Seq<char>|
            #[trigger] is_written(c, e) && escaped(a + seq![c] + b) == escaped(a) + e + escaped(b),
        escaped(Seq::empty()) == Seq::<char>::empty(),
{
    let e = escape_char(c);
    let n = c as int;
    lemma_escaped_append(a + seq![c], b);
    lemma_escaped_push(a, c);
    assert(a.push(c) =~= a + seq![c]);
    if text::is_control(c) && c != '\n' && c != '\r' && c != '\t' {
        assert(e.take(4) =~= seq!['\\', 'u', '0', '0']);
        assert(0 <= n / 16 < 16 && 0 <= n % 16 < 16);
        assert(hex_value(e[4]) == n / 16);
        assert(hex_value(e[5]) == n % 16);
        assert(16 * (n / 16) + n % 16 == n);
    }
    assert(is_written(c, e));
}

/// There is no string field where the quote behind its key is not closed.
pub proof fn law_unclosed_string_field(a: Seq<char>, key: Seq<char>, rest: Seq<char>)
    requires
        !rest.contains('"'),
        ({
            let needle = key_text(key) + seq!['"'];
            forall|i: int|
                0 <= i < a.len() ==> !#[trigger] text::stands_at(a + needle + rest, needle, i)
        }),
    ensures
        string_field(a + (key_text(key) + seq!['"']) + rest, key) is None,
{
    let needle = key_text(key) + seq!['"'];
    let line = a + needle + rest;
    lemma_needles(key);
    text::law_search_behind(a, needle, rest);
    assert(line.skip(a.len() + needle.len() as int) =~= rest);
    text::law_search(rest, seq!['"']);
    if let Some(j) = text::find_text(rest, seq!['"']) {
        assert(rest.subrange(j as int, j as int + 1)[0] == '"');
        assert(rest[j as int] == '"');
    }
}

} // verus!
