//! Aggregate trades and the comma-separated rows that they are read from.
use crate::number;
use crate::text;
use vstd::prelude::*;

verus! {

/// One aggregate trade: symbol, trade id, price, quantity, first and last id,
/// time in milliseconds and whether the buyer was the maker. Price and quantity
/// are kept as they were written.
#[derive(Clone, Debug)]
pub struct AggTrade {
    pub s: String,
    pub a: i64,
    pub p: String,
    pub q: String,
    pub f: i64,
    pub l: i64,
    pub t: i64,
    pub m: bool,
}

/// What a trade holds.
#[verifier::ext_equal]
pub struct TradeView {
    pub s: Seq<char>,
    pub a: int,
    pub p: Seq<char>,
    pub q: Seq<char>,
    pub f: int,
    pub l: int,
    pub t: int,
    pub m: bool,
}

impl View for AggTrade {
    type V = TradeView;

    open spec fn view(&self) -> TradeView {
        TradeView {
            s: self.s@,
            a: self.a as int,
            p: self.p@,
            q: self.q@,
            f: self.f as int,
            l: self.l as int,
            t: self.t as int,
            m: self.m,
        }
    }
}

/// A trade whose numbers are those of its type.
pub open spec fn is_trade(x: TradeView) -> bool {
    &&& i64::MIN <= x.a <= i64::MAX
    &&& i64::MIN <= x.f <= i64::MAX
    &&& i64::MIN <= x.l <= i64::MAX
    &&& i64::MIN <= x.t <= i64::MAX
}

/// Why a row is not a trade.
pub enum RowFault {
    /// The row has too few columns.
    Length { columns: usize, row: String },
    /// The column of the named field is not an integer.
    Field { name: char, column: String, error: number::IntError },
    /// The word is not one that stands for true or false.
    Flag { word: String },
}

#[verifier::ext_equal]
pub enum RowFaultView {
    Length { columns: int, row: Seq<char> },
    Field { name: char, column: Seq<char>, error: number::IntError },
    Flag { word: Seq<char> },
}

impl View for RowFault {
    type V = RowFaultView;

    open spec fn view(&self) -> RowFaultView {
        match self {
            RowFault::Length { columns, row } => RowFaultView::Length {
                columns: *columns as int,
                row: row@,
            },
            RowFault::Field { name, column, error } => RowFaultView::Field {
                name: *name,
                column: column@,
                error: *error,
            },
            RowFault::Flag { word } => RowFaultView::Flag { word: word@ },
        }
    }
}

impl RowFaultView {
    /// The text that the message quotes.
    pub open spec fn subject(self) -> Seq<char> {
        match self {
            RowFaultView::Length { columns, row } => row,
            RowFaultView::Field { name, column, error } => column,
            RowFaultView::Flag { word } => word,
        }
    }

    /// The message, given the quoted form of the subject.
    pub open spec fn message(self, quoted: Seq<char>) -> Seq<char> {
        match self {
            RowFaultView::Length { columns, row } => "bad row length="@ + number::int_text(columns)
                + " row="@ + quoted,
            RowFaultView::Field { name, column, error } => "bad "@ + seq![name] + "="@ + quoted
                + ": "@ + error.message(),
            RowFaultView::Flag { word } => "invalid boolean: "@ + quoted,
        }
    }

    /// The message, with the subject quoted as `Debug` does.
    pub open spec fn full_message(self) -> Seq<char> {
        self.message(text::debug_text(self.subject()))
    }
}

impl RowFault {
    /// The text that the message quotes.
    pub fn subject(&self) -> (r: &str)
        ensures
            r@ == self@.subject(),
    {
        match self {
            RowFault::Length { columns: _, row } => row.as_str(),
            RowFault::Field { name: _, column, error: _ } => column.as_str(),
            RowFault::Flag { word } => word.as_str(),
        }
    }

    /// The message, given the quoted form of the subject.
    pub fn message_with(&self, quoted: &str) -> (r: String)
        ensures
            r@ == self@.message(quoted@),
    {
        match self {
            RowFault::Length { columns, row: _ } => {
                let mut r = "bad row length=".to_owned();
                r.append(number::decimal_text(*columns as u128).as_str());
                r.append(" row=");
                r.append(quoted);
                r
            },
            RowFault::Field { name, column: _, error } => {
                let mut r = "bad ".to_owned();
                r.push(*name);
                r.append("=");
                r.append(quoted);
                r.append(": ");
                r.append(error.text());
                assert(r@ =~= self@.message(quoted@));
                r
            },
            RowFault::Flag { word: _ } => {
                let mut r = "invalid boolean: ".to_owned();
                r.append(quoted);
                r
            },
        }
    }

    /// The message of the fault.
    pub fn message(&self) -> (r: String)
        ensures
            r@ == self@.full_message(),
    {
        let quoted = text::debug_quoted(self.subject());
        self.message_with(quoted.as_str())
    }
}

// ---------------------------------------------------------------------------
// Booleans

/// The word of a boolean column: trimmed, in small letters.
pub open spec fn flag_word(x: Seq<char>) -> Seq<char> {
    text::lower(text::trim(x))
}

pub open spec fn read_bool(x: Seq<char>) -> Result<bool, RowFaultView> {
    let w = flag_word(x);
    if w == "true"@ || w == "1"@ || w == "t"@ || w == "yes"@ {
        Ok(true)
    } else if w == "false"@ || w == "0"@ || w == "f"@ || w == "no"@ {
        Ok(false)
    } else {
        Err(RowFaultView::Flag { word: w })
    }
}

/// Reads a boolean, and says what is wrong with one that cannot be read.
pub fn bool_of(x: &str) -> (r: Result<bool, RowFault>)
    ensures
        match r {
            Ok(b) => read_bool(x@) == Ok::<bool, RowFaultView>(b),
            Err(e) => read_bool(x@) == Err::<bool, RowFaultView>(e@),
        },
{
    let w = text::lower_text(text::trim_text(x).as_str());
    let s = w.as_str();
    if text::same_text(s, "true") || text::same_text(s, "1") || text::same_text(s, "t")
        || text::same_text(s, "yes") {
        Ok(true)
    } else if text::same_text(s, "false") || text::same_text(s, "0") || text::same_text(s, "f")
        || text::same_text(s, "no") {
        Ok(false)
    } else {
        Err(RowFault::Flag { word: w })
    }
}

/// Reads a boolean: `true`, `1`, `t`, `yes`, `false`, `0`, `f` or `no`, in any
/// case and with white space around it.
pub fn parse_bool(x: &str) -> (r: Result<bool, String>)
    ensures
        match r {
            Ok(b) => read_bool(x@) == Ok::<bool, RowFaultView>(b),
            Err(e) => read_bool(x@) matches Err(fault) && e@ == fault.full_message(),
        },
{
    match bool_of(x) {
        Ok(b) => Ok(b),
        Err(e) => Err(e.message()),
    }
}

// ---------------------------------------------------------------------------
// Rows

pub open spec fn strs(v: Seq<&str>) -> Seq<Seq<char>> {
    Seq::new(v.len(), |i: int| v[i]@)
}

/// A row of column names: it has no columns, or its first one is no trade id.
pub open spec fn header(cols: Seq<Seq<char>>) -> bool {
    cols.len() == 0 || {
        let head = text::lower(text::trim(cols[0]));
        ||| text::starts_with(head, "aggregate"@)
        ||| head == "agg_trade_id"@
        ||| head == "aggtradeid"@
        ||| head == "id"@
        ||| number::read_i64(head) is Err
    }
}

/// Whether the columns are those of a header row.
pub fn is_header(cols: &[&str]) -> (r: bool)
    ensures
        r == header(strs(cols@)),
{
    if cols.len() == 0 {
        return true;
    }
    assert(strs(cols@)[0] == cols@[0]@);
    let head = text::lower_text(text::trim_text(cols[0]).as_str());
    let h = head.as_str();
    text::begins_with(h, "aggregate") || text::same_text(h, "agg_trade_id") || text::same_text(
        h,
        "aggtradeid",
    ) || text::same_text(h, "id") || number::parse_i64(h).is_err()
}

/// The integer of a column, which may have white space around it.
pub open spec fn read_field(name: char, column: Seq<char>) -> Result<int, RowFaultView> {
    match number::read_i64(text::trim(column)) {
        Ok(v) => Ok(v),
        Err(e) => Err(RowFaultView::Field { name, column, error: e }),
    }
}

/// What a row says: nothing if it is blank or a header, otherwise a trade of
/// the given symbol. The columns are trade id, price, quantity, first id, last
/// id, time and the maker flag; more columns are ignored.
pub open spec fn read_row(symbol: Seq<char>, line: Seq<char>) -> Result<
    Option<TradeView>,
    RowFaultView,
> {
    let row = text::trim(line);
    let cols = text::split_on(row, ',');
    if row.len() == 0 || header(cols) {
        Ok(None)
    } else if cols.len() < 7 {
        Err(RowFaultView::Length { columns: cols.len() as int, row })
    } else {
        match read_field('a', cols[0]) {
            Err(e) => Err(e),
            Ok(a) => match read_field('f', cols[3]) {
                Err(e) => Err(e),
                Ok(f) => match read_field('l', cols[4]) {
                    Err(e) => Err(e),
                    Ok(l) => match read_field('T', cols[5]) {
                        Err(e) => Err(e),
                        Ok(t) => match read_bool(cols[6]) {
                            Err(e) => Err(e),
                            Ok(m) => Ok(
                                Some(
                                    TradeView {
                                        s: symbol,
                                        a,
                                        p: text::trim(cols[1]),
                                        q: text::trim(cols[2]),
                                        f,
                                        l,
                                        t,
                                        m,
                                    },
                                ),
                            ),
                        },
                    },
                },
            },
        }
    }
}

fn field_of(name: char, column: &str) -> (r: Result<i64, RowFault>)
    ensures
        match r {
            Ok(v) => read_field(name, column@) == Ok::<int, RowFaultView>(v as int),
            Err(e) => read_field(name, column@) == Err::<int, RowFaultView>(e@),
        },
{
    match number::parse_i64(text::trim_text(column).as_str()) {
        Ok(v) => Ok(v),
        Err(error) => Err(RowFault::Field { name, column: column.to_owned(), error }),
    }
}

/// Reads a row, and says what is wrong with one that is no trade.
pub fn row_of(symbol: &str, line: &str) -> (r: Result<Option<AggTrade>, RowFault>)
    ensures
        match r {
            Ok(None) => read_row(symbol@, line@) == Ok::<Option<TradeView>, RowFaultView>(None),
            Ok(Some(x)) => read_row(symbol@, line@) == Ok::<Option<TradeView>, RowFaultView>(
                Some(x@),
            ),
            Err(e) => read_row(symbol@, line@) == Err::<Option<TradeView>, RowFaultView>(e@),
        },
{
    let row = text::trim_text(line);
    if row.as_str().is_empty() {
        return Ok(None);
    }
    let cols = text::split_text(row.as_str(), ',');
    let mut refs: Vec<&str> = Vec::new();
    for i in 0..cols.len()
        invariant
            refs@.len() == i,
            forall|j: int| 0 <= j < i ==> (#[trigger] refs@[j])@ == cols@[j]@,
    {
        refs.push(cols[i].as_str());
    }
    let ghost views = text::texts(cols@);
    proof {
        assert(strs(refs@) =~= views);
        assert(forall|i: int| 0 <= i < cols@.len() ==> #[trigger] views[i] == cols@[i]@);
    }
    if is_header(refs.as_slice()) {
        return Ok(None);
    }
    if cols.len() < 7 {
        return Err(RowFault::Length { columns: cols.len(), row });
    }
    let a: i64 = match field_of('a', refs[0]) {
        Ok(v) => v,
        Err(e) => return Err(e),
    };
    let p = text::trim_text(refs[1]);
    let q = text::trim_text(refs[2]);
    let f: i64 = match field_of('f', refs[3]) {
        Ok(v) => v,
        Err(e) => return Err(e),
    };
    let l: i64 = match field_of('l', refs[4]) {
        Ok(v) => v,
        Err(e) => return Err(e),
    };
    let t: i64 = match field_of('T', refs[5]) {
        Ok(v) => v,
        Err(e) => return Err(e),
    };
    let m = match bool_of(refs[6]) {
        Ok(v) => v,
        Err(e) => return Err(e),
    };
    Ok(Some(AggTrade { s: symbol.to_owned(), a, p, q, f, l, t, m }))
}

/// Reads a row of the given symbol.
pub fn parse_aggtrade_row(symbol: &str, line: &str) -> (r: Result<Option<AggTrade>, String>)
    ensures
        match r {
            Ok(None) => read_row(symbol@, line@) == Ok::<Option<TradeView>, RowFaultView>(None),
            Ok(Some(x)) => read_row(symbol@, line@) == Ok::<Option<TradeView>, RowFaultView>(
                Some(x@),
            ),
            Err(e) => read_row(symbol@, line@) matches Err(fault) && e@ == fault.full_message(),
        },
{
    match row_of(symbol, line) {
        Ok(x) => Ok(x),
        Err(e) => Err(e.message()),
    }
}

// ---------------------------------------------------------------------------
// Laws

proof fn lemma_numeral_has_no_letters(s: Seq<char>)
    requires
        number::read_i64(s) is Ok,
    ensures
        forall|i: int| 0 <= i < s.len() ==> text::is_digit(#[trigger] s[i]) || s[i] == '+' || s[i]
            == '-',
{
    let (lo, hi) = (i64::MIN as int, i64::MAX as int);
    if s[0] == '+' || s[0] == '-' {
        let t = s.drop_first();
        number::law_digits_read(t, s[0] == '-', lo, hi);
        assert forall|i: int| 0 <= i < s.len() implies text::is_digit(#[trigger] s[i]) || s[i]
            == '+' || s[i] == '-' by {
            if i > 0 {
                assert(s[i] == t[i - 1]);
            }
        }
    } else {
        number::law_digits_read(s, false, lo, hi);
    }
}

/// Small letters make no difference to whether a text is an integer.
pub proof fn lemma_lower_numeral(s: Seq<char>)
    ensures
        number::read_i64(text::lower(s)) is Ok <==> number::read_i64(s) is Ok,
{
    let t = text::lower(s);
    if number::read_i64(t) is Ok {
        lemma_numeral_has_no_letters(t);
        assert forall|i: int| 0 <= i < s.len() implies #[trigger] t[i] == s[i] by {
            assert(t[i] == text::lower_char(s[i]));
        }
        assert(t =~= s);
    }
    if number::read_i64(s) is Ok {
        lemma_numeral_has_no_letters(s);
        assert(t =~= s);
    }
}

/// A row is a header exactly where its first column is no trade id: the known
/// column names are no integers.
pub proof fn law_header_is_row_without_id(cols: Seq<Seq<char>>)
    ensures
        header(cols) <==> cols.len() == 0 || number::read_i64(text::trim(cols[0])) is Err,
{
    if cols.len() > 0 {
        let head = text::lower(text::trim(cols[0]));
        lemma_lower_numeral(text::trim(cols[0]));
        if number::read_i64(head) is Ok {
            lemma_numeral_has_no_letters(head);
            reveal_strlit("aggregate");
            reveal_strlit("agg_trade_id");
            reveal_strlit("aggtradeid");
            reveal_strlit("id");
            if text::starts_with(head, "aggregate"@) {
                assert(head.take(9)[0] == 'a');
                assert(head[0] == 'a');
            }
            assert(head[0] != 'a' && head[0] != 'i');
        }
    }
}

/// What is read from a row is a trade of the symbol asked for, and a row never
/// fails on its trade id.
pub proof fn law_row_is_trade_of_symbol(symbol: Seq<char>, line: Seq<char>)
    ensures
        read_row(symbol, line) matches Ok(Some(x)) ==> x.s == symbol && is_trade(x),
        read_row(symbol, line) matches Err(RowFaultView::Field { name, column, error }) ==> name
            != 'a',
{
    let cols = text::split_on(text::trim(line), ',');
    law_header_is_row_without_id(cols);
    if cols.len() >= 7 {
        number::lemma_read_in_range(text::trim(cols[0]), i64::MIN as int, i64::MAX as int);
        number::lemma_read_in_range(text::trim(cols[3]), i64::MIN as int, i64::MAX as int);
        number::lemma_read_in_range(text::trim(cols[4]), i64::MIN as int, i64::MAX as int);
        number::lemma_read_in_range(text::trim(cols[5]), i64::MIN as int, i64::MAX as int);
    }
}

/// A word for true: `true`, `1`, `t` or `yes`, in any case.
pub open spec fn says_true(w: Seq<char>) -> bool {
    let s = text::lower(w);
    s == "true"@ || s == "1"@ || s == "t"@ || s == "yes"@
}

/// A word for false: `false`, `0`, `f` or `no`, in any case.
pub open spec fn says_false(w: Seq<char>) -> bool {
    let s = text::lower(w);
    s == "false"@ || s == "0"@ || s == "f"@ || s == "no"@
}

/// A word with white space around it is read as a boolean exactly where it is
/// one of those words, in any case; else the word is told, in small letters.
pub proof fn law_booleans(a: Seq<char>, w: Seq<char>, b: Seq<char>)
    requires
        text::all_in(a, text::CharClass::Space),
        text::all_in(b, text::CharClass::Space),
        text::bare(w, text::CharClass::Space),
    ensures
        read_bool(a + w + b) == if says_true(w) {
            Ok::<bool, RowFaultView>(true)
        } else if says_false(w) {
            Ok(false)
        } else {
            Err(RowFaultView::Flag { word: text::lower(w) })
        },
{
    text::law_trimming(a, w, b, text::CharClass::Space);
}

/// A line whose columns hold the values of a trade, each with white space around
/// it or not, reads as that trade: the first is the id, then come price,
/// quantity, first id, last id, time and maker flag; what follows is ignored.
pub proof fn law_columns_make_trade(line: Seq<char>, cols: Seq<Seq<char>>, x: TradeView)
    requires
        cols.len() >= 7,
        text::free_of(cols, ','),
        text::trim(line) == text::joined(cols, ','),
        number::read_i64(text::trim(cols[0])) == Ok::<int, number::IntError>(x.a),
        text::trim(cols[1]) == x.p,
        text::trim(cols[2]) == x.q,
        number::read_i64(text::trim(cols[3])) == Ok::<int, number::IntError>(x.f),
        number::read_i64(text::trim(cols[4])) == Ok::<int, number::IntError>(x.l),
        number::read_i64(text::trim(cols[5])) == Ok::<int, number::IntError>(x.t),
        x.m ==> says_true(text::trim(cols[6])),
        !x.m ==> says_false(text::trim(cols[6])),
    ensures
        read_row(x.s, line) == Ok::<Option<TradeView>, RowFaultView>(Some(x)),
{
    let row = text::joined(cols, ',');
    text::law_joined_comes_apart(cols, ',');
    law_header_is_row_without_id(cols);
    lemma_row_not_empty(cols);
    lemma_words_differ(text::trim(cols[6]));
    assert(text::split_on(row, ',') == cols);
}

proof fn lemma_row_not_empty(cols: Seq<Seq<char>>)
    requires
        cols.len() >= 2,
    ensures
        text::joined(cols, ',').len() > 0,
{
}

/// No word says both.
proof fn lemma_words_differ(w: Seq<char>)
    ensures
        !(says_true(w) && says_false(w)),
{
    reveal_strlit("true");
    reveal_strlit("1");
    reveal_strlit("t");
    reveal_strlit("yes");
    reveal_strlit("false");
    reveal_strlit("0");
    reveal_strlit("f");
    reveal_strlit("no");
    let s = text::lower(w);
    if says_true(w) {
        assert(s[0] == 't' || s[0] == '1' || s[0] == 'y');
    }
    if says_false(w) {
        assert(s[0] == 'f' || s[0] == '0' || s[0] == 'n');
    }
}

/// A trade written as a row of a trade file.
pub open spec fn csv_row(x: TradeView) -> Seq<char> {
    text::joined(
        seq![
            number::int_text(x.a),
            x.p,
            x.q,
            number::int_text(x.f),
            number::int_text(x.l),
            number::int_text(x.t),
            if x.m {
                "true"@
            } else {
                "false"@
            },
        ],
        ',',
    )
}

proof fn lemma_int_column(v: int)
    ensures
        !number::int_text(v).contains(','),
        text::bare(number::int_text(v), text::CharClass::Space),
        number::int_text(v).len() > 0,
{
    let size: nat = if v < 0 {
        (-v) as nat
    } else {
        v as nat
    };
    let d = number::decimal(size);
    let s = number::int_text(v);
    number::lemma_decimal_digits(size);
    assert forall|i: int| 0 <= i < s.len() implies text::is_digit(#[trigger] s[i]) || s[i] == '-' by {
        if v < 0 && i > 0 {
            assert(s[i] == d[i - 1]);
        }
    }
    assert(text::is_digit(s[0]) || s[0] == '-');
    assert(text::is_digit(s[s.len() - 1]) || s[s.len() - 1] == '-');
}

proof fn lemma_bare_trims(s: Seq<char>)
    requires
        text::bare(s, text::CharClass::Space),
    ensures
        text::trim(s) == s,
{
    let none = Seq::<char>::empty();
    text::law_trimming(none, s, none, text::CharClass::Space);
    assert(none + s + none =~= s);
}

/// A trade that is written as a row, with white space around it or not, reads
/// back as that trade in every field, where price and quantity are texts without
/// commas and without white space at their ends.
#[verifier::spinoff_prover]
pub proof fn law_row_reads_back(a: Seq<char>, x: TradeView, b: Seq<char>)
    requires
        is_trade(x),
        text::all_in(a, text::CharClass::Space),
        text::all_in(b, text::CharClass::Space),
        !x.p.contains(','),
        !x.q.contains(','),
        text::bare(x.p, text::CharClass::Space),
        text::bare(x.q, text::CharClass::Space),
    ensures
        read_row(x.s, a + csv_row(x) + b) == Ok::<Option<TradeView>, RowFaultView>(Some(x)),
{
    let word = if x.m {
        "true"@
    } else {
        "false"@
    };
    let cols = seq![
        number::int_text(x.a),
        x.p,
        x.q,
        number::int_text(x.f),
        number::int_text(x.l),
        number::int_text(x.t),
        word,
    ];
    let (lo, hi) = (i64::MIN as int, i64::MAX as int);
    reveal_strlit("true");
    reveal_strlit("false");
    lemma_int_column(x.a);
    lemma_int_column(x.f);
    lemma_int_column(x.l);
    lemma_int_column(x.t);
    assert(!word.contains(','));
    assert(text::bare(word, text::CharClass::Space));
    assert forall|i: int| 0 <= i < cols.len() implies !(#[trigger] cols[i]).contains(',') by {}
    lemma_bare_trims(cols[0]);
    lemma_bare_trims(cols[1]);
    lemma_bare_trims(cols[2]);
    lemma_bare_trims(cols[3]);
    lemma_bare_trims(cols[4]);
    lemma_bare_trims(cols[5]);
    lemma_bare_trims(cols[6]);
    number::law_int_text_reads_back(x.a, lo, hi);
    number::law_int_text_reads_back(x.f, lo, hi);
    number::law_int_text_reads_back(x.l, lo, hi);
    number::law_int_text_reads_back(x.t, lo, hi);
    assert(text::lower(word) =~= word);
    let row = csv_row(x);
    lemma_joined_ends(cols);
    assert(text::bare(row, text::CharClass::Space));
    text::law_trimming(a, row, b, text::CharClass::Space);
    law_columns_make_trade(a + row + b, cols, x);
}

/// What is joined begins as its first piece does and ends as its last one.
proof fn lemma_joined_ends(cols: Seq<Seq<char>>)
    requires
        cols.len() > 0,
        cols[0].len() > 0,
        cols.last().len() > 0,
    ensures
        ({
            let s = text::joined(cols, ',');
            s.len() > 0 && s[0] == cols[0][0] && s.last() == cols.last().last()
        }),
{
    lemma_joined_start(cols);
    let s = text::joined(cols, ',');
    if cols.len() > 1 {
        let front = text::joined(cols.drop_last(), ',') + seq![','];
        assert(s == front + cols.last());
        assert(s[s.len() - 1] == cols.last()[cols.last().len() - 1]);
    }
}

proof fn lemma_joined_start(cols: Seq<Seq<char>>)
    requires
        cols.len() > 0,
        cols[0].len() > 0,
    ensures
        text::joined(cols, ',').len() > 0,
        text::joined(cols, ',')[0] == cols[0][0],
    decreases cols.len(),
{
    if cols.len() > 1 {
        lemma_joined_start(cols.drop_last());
        assert(cols.drop_last()[0] == cols[0]);
    }
}

/// A blank line says nothing, nor does one whose first column is no integer.
pub proof fn law_lines_without_trades(symbol: Seq<char>, line: Seq<char>, cols: Seq<Seq<char>>)
    requires
        cols.len() >= 1,
        text::free_of(cols, ','),
        text::trim(line) == text::joined(cols, ','),
        text::trim(line).len() == 0 || number::read_i64(text::trim(cols[0])) is Err,
    ensures
        read_row(symbol, line) == Ok::<Option<TradeView>, RowFaultView>(None),
{
    text::law_joined_comes_apart(cols, ',');
    law_header_is_row_without_id(cols);
}

/// The name of the field in a column of integers behind the id.
pub open spec fn field_name(k: int) -> char {
    if k == 3 {
        'f'
    } else if k == 4 {
        'l'
    } else {
        'T'
    }
}

/// A row with an id and too few columns is told with their number; else the
/// first column that is wrong is told, the integers before the flag.
pub proof fn law_rows_with_faults(
    symbol: Seq<char>,
    line: Seq<char>,
    cols: Seq<Seq<char>>,
    k: int,
)
    requires
        cols.len() >= 1,
        text::free_of(cols, ','),
        text::trim(line) == text::joined(cols, ','),
        text::trim(line).len() > 0,
        number::read_i64(text::trim(cols[0])) is Ok,
    ensures
        cols.len() < 7 ==> read_row(symbol, line) == Err::<Option<TradeView>, RowFaultView>(
            RowFaultView::Length { columns: cols.len() as int, row: text::joined(cols, ',') },
        ),
        cols.len() >= 7 && 3 <= k <= 5 && (number::read_i64(text::trim(cols[k])) matches Err(e)
            && (forall|i: int|
            3 <= i < k ==> number::read_i64(text::trim(#[trigger] cols[i])) is Ok)) ==> read_row(
            symbol,
            line,
        ) == Err::<Option<TradeView>, RowFaultView>(
            RowFaultView::Field {
                name: field_name(k),
                column: cols[k],
                error: number::read_i64(text::trim(cols[k]))->Err_0,
            },
        ),
        cols.len() >= 7 && (forall|i: int|
            3 <= i < 6 ==> number::read_i64(text::trim(#[trigger] cols[i])) is Ok) && !says_true(
            text::trim(cols[6]),
        ) && !says_false(text::trim(cols[6])) ==> read_row(symbol, line) == Err::<
            Option<TradeView>,
            RowFaultView,
        >(RowFaultView::Flag { word: text::lower(text::trim(cols[6])) }),
{
    text::law_joined_comes_apart(cols, ',');
    law_header_is_row_without_id(cols);
    if cols.len() >= 7 {
        let (c3, c4, c5) = (cols[3], cols[4], cols[5]);
    }
}

/// The words of the messages about rows.
pub proof fn law_fault_messages(
    columns: int,
    row: Seq<char>,
    name: char,
    column: Seq<char>,
    error: number::IntError,
    quoted: Seq<char>,
)
    ensures
        (RowFaultView::Length { columns, row }).message(quoted) == text::joined(
            seq![
                "bad"@,
                "row"@,
                "length="@ + number::int_text(columns),
                "row="@ + quoted,
            ],
            ' ',
        ),
        (RowFaultView::Length { columns, row }).subject() == row,
        (RowFaultView::Field { name, column, error }).message(quoted) == text::joined(
            seq!["bad"@, seq![name] + "="@ + quoted + ":"@, error.message()],
            ' ',
        ),
        (RowFaultView::Field { name, column, error }).subject() == column,
        (RowFaultView::Flag { word: row }).message(quoted) == text::joined(
            seq!["invalid"@, "boolean:"@, quoted],
            ' ',
        ),
        (RowFaultView::Flag { word: row }).subject() == row,
{
    reveal_with_fuel(text::joined, 4);
    reveal_strlit("bad");
    reveal_strlit("bad ");
    reveal_strlit("row");
    reveal_strlit("length=");
    reveal_strlit("row=");
    reveal_strlit(" row=");
    reveal_strlit("bad row length=");
    reveal_strlit(":");
    reveal_strlit(": ");
    reveal_strlit("=");
    reveal_strlit("invalid");
    reveal_strlit("boolean:");
    reveal_strlit("invalid boolean: ");
    let n = number::int_text(columns);
    let v = seq!["bad"@, "row"@, "length="@ + n, "row="@ + quoted];
    assert(v.drop_last() =~= seq!["bad"@, "row"@, "length="@ + n]);
    assert(v.drop_last().drop_last() =~= seq!["bad"@, "row"@]);
    assert(v.drop_last().drop_last().drop_last() =~= seq!["bad"@]);
    assert((RowFaultView::Length { columns, row }).message(quoted) =~= text::joined(v, ' '));
    let w = seq!["bad"@, seq![name] + "="@ + quoted + ":"@, error.message()];
    assert(w.drop_last() =~= seq!["bad"@, seq![name] + "="@ + quoted + ":"@]);
    assert(w.drop_last().drop_last() =~= seq!["bad"@]);
    assert((RowFaultView::Field { name, column, error }).message(quoted) =~= text::joined(w, ' '));
    let u = seq!["invalid"@, "boolean:"@, quoted];
    assert(u.drop_last() =~= seq!["invalid"@, "boolean:"@]);
    assert(u.drop_last().drop_last() =~= seq!["invalid"@]);
    assert((RowFaultView::Flag { word: row }).message(quoted) =~= text::joined(u, ' '));
}

/// What a trade holds are its fields.
pub proof fn law_fields_of_trade(x: AggTrade)
    ensures
        x@.s == x.s@ && x@.p == x.p@ && x@.q == x.q@,
        x@.a == x.a && x@.f == x.f && x@.l == x.l && x@.t == x.t,
        x@.m == x.m,
{
}

/// What a fault holds are its fields.
pub proof fn law_fields_of_fault(
    columns: usize,
    text: String,
    name: char,
    error: number::IntError,
)
    ensures
        (RowFault::Length { columns, row: text })@ == (RowFaultView::Length {
            columns: columns as int,
            row: text@,
        }),
        (RowFault::Field { name, column: text, error })@ == (RowFaultView::Field {
            name,
            column: text@,
            error,
        }),
        (RowFault::Flag { word: text })@ == (RowFaultView::Flag { word: text@ }),
{
}

/// Columns hold the text of each of them in its place.
pub proof fn law_columns(v: Seq<&str>, i: int)
    ensures
        strs(v).len() == v.len(),
        0 <= i < v.len() ==> strs(v)[i] == v[i]@,
{
}

/// The full message of a fault quotes its subject as `Debug` does.
pub proof fn law_full_message(f: RowFaultView)
    ensures
        f.full_message() == f.message(text::debug_text(f.subject())),
{
}

} // verus!
