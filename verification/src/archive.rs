//! Where things are: the addresses of the archive and the names of temporary
//! files.
use crate::number;
use crate::text;
use vstd::prelude::*;

verus! {

/// The directory of the archive that holds one directory for each symbol.
pub const BASE_URL: &'static str = "https://data.binance.vision/data/futures/um/daily/aggTrades";

/// The address of the index page.
pub open spec fn index_address() -> Seq<char> {
    BASE_URL@ + "/"@
}

/// The address of the trades of a symbol on a day.
pub open spec fn zip_address(symbol: Seq<char>, day: Seq<char>) -> Seq<char> {
    BASE_URL@ + "/"@ + symbol + "/"@ + symbol + "-aggTrades-"@ + day + ".zip"@
}

/// The address of the checksum of a file.
pub open spec fn checksum_address(url: Seq<char>) -> Seq<char> {
    url + ".CHECKSUM"@
}

/// The name of the temporary file for the trades of a symbol on a day, fetched
/// at the given time.
pub open spec fn temporary_name(symbol: Seq<char>, day: Seq<char>, ms: nat) -> Seq<char> {
    "tick-"@ + symbol + "-"@ + day + "-"@ + number::decimal(ms) + ".zip"@
}

/// The address of the index page.
pub fn index_url() -> (r: String)
    ensures
        r@ == index_address(),
{
    let mut r = BASE_URL.to_owned();
    r.append("/");
    r
}

/// The address of the trades of a symbol on a day.
pub fn make_url(symbol: &str, day: &str) -> (r: String)
    ensures
        r@ == zip_address(symbol@, day@),
{
    let mut r = BASE_URL.to_owned();
    r.append("/");
    r.append(symbol);
    r.append("/");
    r.append(symbol);
    r.append("-aggTrades-");
    r.append(day);
    r.append(".zip");
    r
}

/// The address of the checksum of a file.
pub fn checksum_url(url: &str) -> (r: String)
    ensures
        r@ == checksum_address(url@),
{
    let mut r = url.to_owned();
    r.append(".CHECKSUM");
    r
}

/// The name of the temporary file for the trades of a symbol on a day, fetched
/// at the given time.
pub fn zip_name(symbol: &str, day: &str, ms: u128) -> (r: String)
    ensures
        r@ == temporary_name(symbol@, day@, ms as nat),
{
    let mut r = "tick-".to_owned();
    r.append(symbol);
    r.append("-");
    r.append(day);
    r.append("-");
    r.append(number::decimal_text(ms).as_str());
    r.append(".zip");
    r
}

// ---------------------------------------------------------------------------
// Laws

/// The file of a symbol and a day lies in the directory of the symbol, and its
/// name is made of the symbol and the day.
pub proof fn law_place_of_file(symbol: Seq<char>, day: Seq<char>)
    ensures
        zip_address(symbol, day) == text::joined(
            seq![
                "https://data.binance.vision/data/futures/um/daily/aggTrades"@,
                symbol,
                text::joined(seq![symbol, "aggTrades"@, day + ".zip"@], '-'),
            ],
            '/',
        ),
        index_address() == text::joined(
            seq!["https://data.binance.vision/data/futures/um/daily/aggTrades"@, Seq::empty()],
            '/',
        ),
{
    reveal_strlit("/");
    reveal_strlit("-aggTrades-");
    reveal_strlit("aggTrades");
    let base = "https://data.binance.vision/data/futures/um/daily/aggTrades"@;
    let name = seq![symbol, "aggTrades"@, day + ".zip"@];
    text::lemma_joined_three(symbol, "aggTrades"@, day + ".zip"@, '-');
    text::lemma_joined_three(base, symbol, text::joined(name, '-'), '/');
    text::lemma_joined_two(base, Seq::empty(), '/');
    assert("/"@ =~= seq!['/']);
    assert("-aggTrades-"@ =~= seq!['-'] + "aggTrades"@ + seq!['-']);
    assert(index_address() =~= base + seq!['/'] + Seq::<char>::empty());
    assert(zip_address(symbol, day) =~= base + seq!['/'] + symbol + seq!['/'] + (symbol + seq!['-']
        + "aggTrades"@ + seq!['-'] + (day + ".zip"@)));
}

/// Different symbols and days have different files, where symbols hold no slash.
pub proof fn law_each_file_has_its_place(
    s1: Seq<char>,
    d1: Seq<char>,
    s2: Seq<char>,
    d2: Seq<char>,
)
    requires
        !s1.contains('/'),
        !s2.contains('/'),
        zip_address(s1, d1) == zip_address(s2, d2),
    ensures
        s1 == s2,
        d1 == d2,
{
    reveal_strlit("/");
    assert("/"@ =~= seq!['/']);
    let base = BASE_URL@ + "/"@;
    let x = s1 + ("/"@ + s1 + "-aggTrades-"@ + d1 + ".zip"@);
    let y = s2 + ("/"@ + s2 + "-aggTrades-"@ + d2 + ".zip"@);
    assert(zip_address(s1, d1) =~= base + x);
    assert(zip_address(s2, d2) =~= base + y);
    assert((base + x).skip(base.len() as int) =~= x);
    assert((base + y).skip(base.len() as int) =~= y);
    let (n, m) = (s1.len() as int, s2.len() as int);
    assert(x[n] == '/' && y[m] == '/');
    if n < m {
        assert(y[n] == s2[n]);
        assert(s2.contains('/'));
    }
    if m < n {
        assert(x[m] == s1[m]);
        assert(s1.contains('/'));
    }
    assert(x.take(n) =~= s1);
    assert(y.take(n) =~= s2);
    let head = s1 + "/"@ + s1 + "-aggTrades-"@;
    assert(x =~= head + (d1 + ".zip"@));
    assert(y =~= head + (d2 + ".zip"@));
    assert(x.skip(head.len() as int) =~= d1 + ".zip"@);
    assert(y.skip(head.len() as int) =~= d2 + ".zip"@);
    let tail = ".zip"@.len() as int;
    assert(d1.len() == d2.len());
    assert((d1 + ".zip"@).take(d1.len() as int) =~= d1);
    assert((d2 + ".zip"@).take(d1.len() as int) =~= d2);
}

/// A temporary file is named by the symbol, the day and the time; a checksum
/// lies beside its file.
pub proof fn law_names_of_files(symbol: Seq<char>, day: Seq<char>, ms: nat, url: Seq<char>)
    ensures
        temporary_name(symbol, day, ms) == text::joined(
            seq!["tick"@, symbol, day, number::int_text(ms as int) + ".zip"@],
            '-',
        ),
        checksum_address(url) == text::joined(seq![url, "CHECKSUM"@], '.'),
{
    reveal_strlit("tick-");
    reveal_strlit("tick");
    reveal_strlit("-");
    reveal_strlit(".CHECKSUM");
    reveal_strlit("CHECKSUM");
    let end = number::int_text(ms as int) + ".zip"@;
    let v = seq!["tick"@, symbol, day, end];
    text::lemma_joined_three("tick"@, symbol, day, '-');
    text::lemma_joined_two(url, "CHECKSUM"@, '.');
    assert(v.drop_last() =~= seq!["tick"@, symbol, day]);
    assert("tick-"@ =~= "tick"@ + seq!['-']);
    assert("-"@ =~= seq!['-']);
    assert(".CHECKSUM"@ =~= seq!['.'] + "CHECKSUM"@);
    assert(temporary_name(symbol, day, ms) =~= "tick"@ + seq!['-'] + symbol + seq!['-'] + day
        + seq!['-'] + end);
    assert(checksum_address(url) =~= url + seq!['.'] + "CHECKSUM"@);
}

} // verus!
