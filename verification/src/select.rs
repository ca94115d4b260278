//! Which symbols a run is for.
use crate::calendar;
use crate::index;
use crate::number;
use crate::options;
use crate::symbols;
use crate::text;
use vstd::prelude::*;

verus! {

/// A symbol as it was typed: trimmed, in capitals.
pub open spec fn typed_symbol(s: Seq<char>) -> Seq<char> {
    text::upper(text::trim(s))
}

/// The symbols of some pieces of a list, those that are empty left out.
pub open spec fn typed_symbols(pieces: Seq<Seq<char>>) -> Set<Seq<char>> {
    Set::new(
        |s: Seq<char>|
            s.len() > 0 && exists|i: int|
                0 <= i < pieces.len() && typed_symbol(#[trigger] pieces[i]) == s,
    )
}

/// The symbols that a run is for, given the index page of the archive if it is
/// needed and could be fetched.
pub open spec fn selected(a: options::ArgsView, page: Option<Seq<char>>) -> Result<
    Seq<Seq<char>>,
    Seq<char>,
> {
    if a.all_assets {
        index::discovered(page, a.max_symbols)
    } else {
        match a.symbols {
            Some(list) => Ok(symbols::in_order(typed_symbols(text::split_on(list, ',')))),
            None => Ok(seq![typed_symbol(a.symbol)]),
        }
    }
}

fn typed(s: &str) -> (r: String)
    ensures
        r@ == typed_symbol(s@),
{
    text::upper_text(text::trim_text(s).as_str())
}

proof fn lemma_typed_push(pieces: Seq<Seq<char>>, p: Seq<char>)
    ensures
        typed_symbols(pieces.push(p)) == if typed_symbol(p).len() > 0 {
            typed_symbols(pieces).insert(typed_symbol(p))
        } else {
            typed_symbols(pieces)
        },
{
    let all = pieces.push(p);
    let want = if typed_symbol(p).len() > 0 {
        typed_symbols(pieces).insert(typed_symbol(p))
    } else {
        typed_symbols(pieces)
    };
    assert forall|s: Seq<char>| typed_symbols(all).contains(s) == want.contains(s) by {
        if typed_symbols(all).contains(s) {
            let i = choose|i: int| 0 <= i < all.len() && typed_symbol(#[trigger] all[i]) == s;
            if i < pieces.len() {
                assert(pieces[i] == all[i]);
            }
        }
        if typed_symbols(pieces).contains(s) {
            let i = choose|i: int| 0 <= i < pieces.len() && typed_symbol(#[trigger] pieces[i]) == s;
            assert(all[i] == pieces[i]);
        }
        assert(all[pieces.len() as int] == p);
    }
    assert(typed_symbols(all) =~= want);
}

fn listed(list: &str) -> (r: Vec<String>)
    ensures
        text::texts(r@) == symbols::in_order(typed_symbols(text::split_on(list@, ','))),
{
    let pieces = text::split_text(list, ',');
    let ghost all = text::texts(pieces@);
    let mut set = symbols::SymbolSet::new();
    assert(typed_symbols(all.take(0)) =~= Set::<Seq<char>>::empty());
    for i in 0..pieces.len()
        invariant
            all == text::texts(pieces@),
            set.wf(),
            set@ == typed_symbols(all.take(i as int)),
    {
        let name = typed(pieces[i].as_str());
        proof {
            lemma_typed_push(all.take(i as int), all[i as int]);
            assert(all.take(i + 1) =~= all.take(i as int).push(all[i as int]));
        }
        if !name.as_str().is_empty() {
            set.insert(name);
        }
    }
    assert(all.take(all.len() as int) =~= all);
    set.into_list()
}

/// The symbols that a run is for: all those of the archive, those of the list,
/// in order and none of them twice, or the single one. The index page is looked
/// at only for all assets.
pub fn select_symbols(args: &options::Args, page: &Option<String>) -> (r: Result<
    Vec<String>,
    String,
>)
    ensures
        match r {
            Ok(v) => selected(args@, text::opt_text(*page)) == Ok::<Seq<Seq<char>>, Seq<char>>(
                text::texts(v@),
            ),
            Err(e) => selected(args@, text::opt_text(*page)) == Err::<
                Seq<Seq<char>>,
                Seq<char>,
            >(e@),
        },
{
    if args.all_assets {
        return index::discover_all_symbols(page, args.max_symbols);
    }
    if let Some(list) = &args.symbols {
        return Ok(listed(list.as_str()));
    }
    let mut out: Vec<String> = Vec::new();
    out.push(typed(args.symbol.as_str()));
    assert(text::texts(out@) =~= seq![typed_symbol(args.symbol@)]);
    Ok(out)
}

/// The line that tells how many symbols were discovered.
pub open spec fn discovery_text(n: int) -> Seq<char> {
    "[DISCOVER] all-assets symbols="@ + number::int_text(n)
}

/// The line that tells how many symbols were discovered.
pub fn discovery_line(n: usize) -> (r: String)
    ensures
        r@ == discovery_text(n as int),
{
    let mut r = "[DISCOVER] all-assets symbols=".to_owned();
    r.append(number::decimal_text(n as u128).as_str());
    r
}

/// The line is told where the symbols of the archive were asked for and found.
pub open spec fn discovery(a: options::ArgsView, page: Option<Seq<char>>) -> Option<Seq<char>> {
    match selected(a, page) {
        Ok(v) if a.all_assets => Some(discovery_text(v.len() as int)),
        _ => None,
    }
}

/// The line that tells how many symbols were discovered, if there is one to
/// tell.
pub fn discovery_told(args: &options::Args, page: &Option<String>) -> (r: Option<String>)
    ensures
        text::opt_text(r) == discovery(args@, text::opt_text(*page)),
{
    if !args.all_assets {
        return None;
    }
    match select_symbols(args, page) {
        Ok(v) => {
            assert(text::texts(v@).len() == v@.len());
            Some(discovery_line(v.len()))
        },
        Err(_) => None,
    }
}

/// The symbols and the days that a run is for. What is wrong with the symbols
/// is told first.
pub open spec fn chosen(a: options::ArgsView, page: Option<Seq<char>>) -> Result<
    (Seq<Seq<char>>, Seq<Seq<char>>),
    Seq<char>,
> {
    match (selected(a, page), calendar::dates_between(a.start, a.end)) {
        (Err(e), _) => Err(e),
        (_, Err(e)) => Err(e),
        (Ok(symbols), Ok(days)) => Ok((symbols, days)),
    }
}

/// The symbols and the days that a run is for. The days are looked at only where
/// there is nothing wrong with the symbols.
pub fn symbols_and_days(args: &options::Args, page: &Option<String>) -> (r: Result<
    (Vec<String>, Vec<String>),
    String,
>)
    requires
        selected(args@, text::opt_text(*page)) is Ok ==> calendar::numbers_fit(
            args.start@,
            args.end@,
        ),
    ensures
        match r {
            Ok((symbols, days)) => chosen(args@, text::opt_text(*page)) == Ok::<
                (Seq<Seq<char>>, Seq<Seq<char>>),
                Seq<char>,
            >((text::texts(symbols@), text::texts(days@))),
            Err(e) => chosen(args@, text::opt_text(*page)) == Err::<
                (Seq<Seq<char>>, Seq<Seq<char>>),
                Seq<char>,
            >(e@),
        },
{
    let symbols = match select_symbols(args, page) {
        Ok(v) => v,
        Err(e) => return Err(e),
    };
    match calendar::date_range(args.start.as_str(), args.end.as_str()) {
        Ok(days) => Ok((symbols, days)),
        Err(e) => Err(e),
    }
}

proof fn lemma_typed_order(pieces: Seq<Seq<char>>) -> (v: Seq<Seq<char>>)
    ensures
        symbols::ascending(v),
        v.to_set() == typed_symbols(pieces),
    decreases pieces.len(),
{
    if pieces.len() == 0 {
        let v = Seq::<Seq<char>>::empty();
        assert(typed_symbols(pieces) =~= v.to_set());
        v
    } else {
        let v = lemma_typed_order(pieces.drop_last());
        assert(pieces.drop_last().push(pieces.last()) =~= pieces);
        lemma_typed_push(pieces.drop_last(), pieces.last());
        if typed_symbol(pieces.last()).len() > 0 {
            symbols::lemma_insert_after(v, 0, typed_symbol(pieces.last()))
        } else {
            v
        }
    }
}

/// The symbols of a list come in order, none of them twice and none empty, and
/// each of them was typed.
pub proof fn law_list_is_in_order(a: options::ArgsView, page: Option<Seq<char>>)
    requires
        !a.all_assets,
        a.symbols is Some,
    ensures
        selected(a, page) matches Ok(v) && symbols::ascending(v) && v.to_set() == typed_symbols(
            text::split_on(a.symbols->0, ','),
        ),
{
    let v = lemma_typed_order(text::split_on(a.symbols->0, ','));
    symbols::law_in_order(v);
}

// ---------------------------------------------------------------------------
// Laws of the choice

/// For all assets the symbols of the archive are taken, whatever else is asked
/// for; for a single symbol the one that was typed, in capitals and without the
/// white space around it.
pub proof fn law_symbols_for_assets(
    a: options::ArgsView,
    page: Option<Seq<char>>,
    front: Seq<char>,
    w: Seq<char>,
    back: Seq<char>,
)
    requires
        text::all_in(front, text::CharClass::Space),
        text::all_in(back, text::CharClass::Space),
        text::bare(w, text::CharClass::Space),
    ensures
        a.all_assets ==> selected(a, page) == index::discovered(page, a.max_symbols),
        !a.all_assets && a.symbols is None && a.symbol == front + w + back ==> selected(a, page)
            == Ok::<Seq<Seq<char>>, Seq<char>>(seq![text::upper(w)]),
{
    text::law_trimming(front, w, back, text::CharClass::Space);
}

/// For a list the symbols are those of its items, in order and none twice: each
/// item, in capitals and without the white space around it, unless that leaves
/// nothing.
pub proof fn law_symbols_for_list(
    a: options::ArgsView,
    page: Option<Seq<char>>,
    items: Seq<Seq<char>>,
    s: Seq<char>,
)
    requires
        !a.all_assets,
        items.len() > 0,
        text::free_of(items, ','),
        a.symbols == Some(text::joined(items, ',')),
    ensures
        selected(a, page) matches Ok(v) && symbols::ascending(v) && (v.contains(s) <==> s.len() > 0
            && exists|i: int|
            0 <= i < items.len() && text::upper(text::trim(#[trigger] items[i])) == s),
{
    text::law_joined_comes_apart(items, ',');
    law_list_is_in_order(a, page);
    let v = selected(a, page)->Ok_0;
    assert(v.contains(s) <==> v.to_set().contains(s));
    if typed_symbols(items).contains(s) {
        let i = choose|i: int| 0 <= i < items.len() && typed_symbol(#[trigger] items[i]) == s;
        assert(text::upper(text::trim(items[i])) == s);
    }
    if s.len() > 0 && exists|i: int|
        0 <= i < items.len() && text::upper(text::trim(#[trigger] items[i])) == s {
        let i = choose|i: int|
            0 <= i < items.len() && text::upper(text::trim(#[trigger] items[i])) == s;
        assert(typed_symbol(items[i]) == s);
    }
}

/// A run has its symbols and its days exactly where neither is wrong; else what
/// is wrong with the symbols is told, and only then what is wrong with the days.
pub proof fn law_symbols_then_days(a: options::ArgsView, page: Option<Seq<char>>)
    ensures
        chosen(a, page) matches Ok(r) ==> selected(a, page) == Ok::<Seq<Seq<char>>, Seq<char>>(r.0)
            && calendar::dates_between(a.start, a.end) == Ok::<Seq<Seq<char>>, Seq<char>>(r.1),
        selected(a, page) matches Err(e) ==> chosen(a, page) == Err::<
            (Seq<Seq<char>>, Seq<Seq<char>>),
            Seq<char>,
        >(e),
        selected(a, page) is Ok ==> (calendar::dates_between(a.start, a.end) matches Err(e)
            ==> chosen(a, page) == Err::<(Seq<Seq<char>>, Seq<Seq<char>>), Seq<char>>(e)),
        selected(a, page) is Ok && calendar::dates_between(a.start, a.end) is Ok ==> chosen(
            a,
            page,
        ) is Ok,
{
}

/// The discovery is told exactly where all assets were asked for and found, with
/// their number.
pub proof fn law_discovery_line(a: options::ArgsView, page: Option<Seq<char>>)
    ensures
        discovery(a, page) is Some <==> a.all_assets && index::discovered(
            page,
            a.max_symbols,
        ) is Ok,
        discovery(a, page) matches Some(line) ==> line == text::joined(
            seq![
                "[DISCOVER]"@,
                "all-assets"@,
                "symbols="@ + number::int_text(
                    index::discovered(page, a.max_symbols)->Ok_0.len() as int,
                ),
            ],
            ' ',
        ),
{
    reveal_strlit("[DISCOVER]");
    reveal_strlit("all-assets");
    reveal_strlit("symbols=");
    reveal_strlit("[DISCOVER] all-assets symbols=");
    if let Some(line) = discovery(a, page) {
        let n = number::int_text(index::discovered(page, a.max_symbols)->Ok_0.len() as int);
        text::lemma_joined_three("[DISCOVER]"@, "all-assets"@, "symbols="@ + n, ' ');
        assert("[DISCOVER] all-assets symbols="@ =~= "[DISCOVER]"@ + seq![' '] + "all-assets"@
            + seq![' '] + "symbols="@);
        assert(line =~= "[DISCOVER]"@ + seq![' '] + "all-assets"@ + seq![' '] + ("symbols="@ + n));
    }
}

} // verus!
