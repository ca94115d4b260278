//! Reading the index page of the archive: the links in it and the symbols that
//! they name.
use crate::archive;
use crate::symbols;
use crate::text;
use vstd::prelude::*;

verus! {

// ---------------------------------------------------------------------------
// Links

/// The quoted targets behind the occurrences of `href=`, in order. An
/// occurrence without a quote behind it is passed over; one whose quote is not
/// closed ends the search.
pub open spec fn href_targets(html: Seq<char>) -> Seq<Seq<char>>
    decreases html.len(),
{
    proof {
        reveal_strlit("href=");
        text::lemma_find_sound(html, "href="@);
    }
    match text::find_text(html, "href="@) {
        None => Seq::empty(),
        Some(i) => {
            let rest = html.skip(i as int + 5);
            if rest.len() == 0 {
                Seq::empty()
            } else if rest[0] != '"' && rest[0] != '\'' {
                href_targets(rest)
            } else {
                let inner = rest.skip(1);
                proof {
                    text::lemma_find_sound(inner, seq![rest[0]]);
                }
                match text::find_text(inner, seq![rest[0]]) {
                    None => Seq::empty(),
                    Some(j) => seq![inner.take(j as int)] + href_targets(
                        inner.skip(j as int + 1),
                    ),
                }
            }
        },
    }
}

/// The quoted targets of the links in a page.
pub fn extract_href_targets(html: &str) -> (r: Vec<String>)
    ensures
        text::texts(r@) == href_targets(html@),
{
    let v = text::chars_of(html);
    let key = text::chars_of("href=");
    let mut out: Vec<String> = Vec::new();
    let len: usize = v.len();
    let mut pos: usize = 0;
    proof {
        reveal_strlit("href=");
        assert(v@.skip(0) =~= v@);
        assert(text::texts(out@) + href_targets(html@) =~= href_targets(html@));
    }
    loop
        invariant
            v@ == html@,
            key@ == "href="@,
            key@.len() == 5,
            len == v@.len(),
            pos <= len,
            href_targets(html@) == text::texts(out@) + href_targets(v@.skip(pos as int)),
        decreases v@.len() - pos,
    {
        let ghost page = v@.skip(pos as int);
        let found = text::find_from(v.as_slice(), pos, key.as_slice());
        if found.is_none() {
            assert(text::texts(out@) + Seq::<Seq<char>>::empty() =~= text::texts(out@));
            return out;
        }
        let start: usize = found.unwrap() + 5;
        let ghost rest = v@.skip(start as int);
        assert(page.skip(start - pos) =~= rest);
        if start == len {
            assert(text::texts(out@) + Seq::<Seq<char>>::empty() =~= text::texts(out@));
            return out;
        }
        let quote = v[start];
        assert(rest[0] == quote);
        if quote != '"' && quote != '\'' {
            pos = start;
        } else {
            let mut mark: Vec<char> = Vec::new();
            mark.push(quote);
            let ghost inner = v@.skip(start + 1);
            assert(mark@ =~= seq![quote]);
            assert(rest.skip(1) =~= inner);
            let closed = text::find_from(v.as_slice(), start + 1, mark.as_slice());
            if closed.is_none() {
                assert(text::texts(out@) + Seq::<Seq<char>>::empty() =~= text::texts(out@));
                return out;
            }
            let end: usize = closed.unwrap();
            let ghost before = out@;
            out.push(text::string_of(text::part(v.as_slice(), start + 1, end).as_slice()));
            proof {
                let target = v@.subrange(start + 1, end as int);
                let tail = v@.skip(end + 1);
                assert(target =~= inner.take(end - (start + 1)));
                assert(inner.skip(end - (start + 1) + 1) =~= tail);
                assert(text::texts(out@) =~= text::texts(before).push(target));
                assert(text::texts(before) + (seq![target] + href_targets(tail)) =~= text::texts(
                    out@,
                ) + href_targets(tail));
            }
            pos = end + 1;
        }
    }
}

// ---------------------------------------------------------------------------
// Pieces that may name a symbol

/// What follows the first occurrence of the marker, if there is one.
pub open spec fn tail_after(s: Seq<char>, marker: Seq<char>) -> Seq<Seq<char>> {
    match text::find_text(s, marker) {
        None => Seq::empty(),
        Some(i) => seq![s.skip(i as int + marker.len())],
    }
}

/// The pieces of a link that may name a symbol: its last part, if it ends in a
/// slash; what follows the path of the archive; and what follows that path with
/// its slashes encoded, up to the next code.
pub open spec fn link_pieces(target: Seq<char>) -> Seq<Seq<char>> {
    let link = text::trim(target);
    let last = if link.len() > 0 && link.last() == '/' {
        seq![text::split_on(text::skip_tail(link, text::CharClass::Slash), '/').last()]
    } else {
        Seq::empty()
    };
    let coded = tail_after(link, "daily%2FaggTrades%2F"@);
    last + tail_after(link, "daily/aggTrades/"@) + Seq::new(
        coded.len(),
        |i: int| text::split_on(coded[i], '%')[0],
    )
}

/// The pieces of some links.
pub open spec fn links_pieces(targets: Seq<Seq<char>>) -> Seq<Seq<char>>
    decreases targets.len(),
{
    if targets.len() == 0 {
        Seq::empty()
    } else {
        links_pieces(targets.drop_last()) + link_pieces(targets.last())
    }
}

/// The runs of letters and digits behind the occurrences of the full path of
/// the archive, wherever they stand in the page.
pub open spec fn path_pieces(html: Seq<char>) -> Seq<Seq<char>>
    decreases html.len(),
{
    proof {
        reveal_strlit("/data/futures/um/daily/aggTrades/");
        text::lemma_find_sound(html, "/data/futures/um/daily/aggTrades/"@);
    }
    match text::find_text(html, "/data/futures/um/daily/aggTrades/"@) {
        None => Seq::empty(),
        Some(i) => {
            let rest = html.skip(i as int + 33);
            seq![text::lead(rest, text::CharClass::Alphanumeric)] + path_pieces(rest)
        },
    }
}

/// All the pieces of a page that may name a symbol.
pub open spec fn page_pieces(html: Seq<char>) -> Seq<Seq<char>> {
    links_pieces(href_targets(html)) + path_pieces(html)
}

/// The symbols that a page names.
pub open spec fn page_symbols(html: Seq<char>) -> Set<Seq<char>> {
    symbols::symbols_in(page_pieces(html))
}

fn last_piece(link: &[char]) -> (r: String)
    ensures
        r@ == text::split_on(text::skip_tail(link@, text::CharClass::Slash), '/').last(),
{
    let end: usize = text::tail_start(link, text::CharClass::Slash);
    let bare = text::string_of(text::part(link, 0, end).as_slice());
    assert(link@.subrange(0, end as int) =~= link@.take(end as int));
    let mut pieces = text::split_text(bare.as_str(), '/');
    let n: usize = pieces.len() - 1;
    assert(text::texts(pieces@)[n as int] == pieces@[n as int]@);
    pieces.remove(n)
}

fn tail_of(link: &[char], marker: &str) -> (r: Option<String>)
    ensures
        match r {
            None => tail_after(link@, marker@) == Seq::<Seq<char>>::empty(),
            Some(s) => tail_after(link@, marker@) == seq![s@],
        },
{
    let key = text::chars_of(marker);
    assert(link@.skip(0) =~= link@);
    match text::find_from(link, 0, key.as_slice()) {
        None => None,
        Some(i) => {
            assert(link@.len() == link.len());
            let start: usize = i + key.len();
            assert(link@.subrange(start as int, link@.len() as int) =~= link@.skip(start as int));
            Some(text::string_of(text::part(link, start, link.len()).as_slice()))
        },
    }
}

/// Adds the symbols that a link names.
fn add_link(set: &mut symbols::SymbolSet, target: &str, Ghost(raws): Ghost<Seq<Seq<char>>>)
    requires
        old(set).wf(),
        old(set)@ == symbols::symbols_in(raws),
    ensures
        final(set).wf(),
        final(set)@ == symbols::symbols_in(raws + link_pieces(target@)),
{
    let chars = text::chars_of(target);
    let link = text::trim_class(chars.as_slice(), text::CharClass::Space);
    let ghost mut done = raws;
    if link.len() > 0 && link[link.len() - 1] == '/' {
        let piece = last_piece(link.as_slice());
        symbols::add_symbol_candidate(set, piece.as_str());
        proof {
            symbols::lemma_symbols_in_push(done, piece@);
            done = done.push(piece@);
        }
    }
    if let Some(piece) = tail_of(link.as_slice(), "daily/aggTrades/") {
        symbols::add_symbol_candidate(set, piece.as_str());
        proof {
            symbols::lemma_symbols_in_push(done, piece@);
            done = done.push(piece@);
        }
    }
    if let Some(coded) = tail_of(link.as_slice(), "daily%2FaggTrades%2F") {
        let mut pieces = text::split_text(coded.as_str(), '%');
        assert(text::texts(pieces@)[0] == pieces@[0]@);
        let piece = pieces.remove(0);
        symbols::add_symbol_candidate(set, piece.as_str());
        proof {
            symbols::lemma_symbols_in_push(done, piece@);
            done = done.push(piece@);
        }
    }
    proof {
        assert(done =~= raws + link_pieces(target@));
    }
}

/// Adds the symbols that follow the full path of the archive in a page.
fn add_paths(set: &mut symbols::SymbolSet, html: &str, Ghost(raws): Ghost<Seq<Seq<char>>>)
    requires
        old(set).wf(),
        old(set)@ == symbols::symbols_in(raws),
    ensures
        final(set).wf(),
        final(set)@ == symbols::symbols_in(raws + path_pieces(html@)),
{
    let v = text::chars_of(html);
    let key = text::chars_of("/data/futures/um/daily/aggTrades/");
    let ghost mut done = raws;
    let len: usize = v.len();
    let mut pos: usize = 0;
    proof {
        reveal_strlit("/data/futures/um/daily/aggTrades/");
        assert(v@.skip(0) =~= v@);
    }
    loop
        invariant
            v@ == html@,
            key@ == "/data/futures/um/daily/aggTrades/"@,
            key@.len() == 33,
            len == v@.len(),
            pos <= len,
            set.wf(),
            set@ == symbols::symbols_in(done),
            raws + path_pieces(html@) == done + path_pieces(v@.skip(pos as int)),
        decreases v@.len() - pos,
    {
        let ghost page = v@.skip(pos as int);
        let found = text::find_from(v.as_slice(), pos, key.as_slice());
        if found.is_none() {
            assert(done + Seq::<Seq<char>>::empty() =~= done);
            return;
        }
        let start: usize = found.unwrap() + 33;
        let end: usize = text::run_end(v.as_slice(), start, text::CharClass::Alphanumeric);
        let piece = text::string_of(text::part(v.as_slice(), start, end).as_slice());
        symbols::add_symbol_candidate(set, piece.as_str());
        proof {
            let rest = v@.skip(start as int);
            assert(page.skip(start - pos) =~= rest);
            symbols::lemma_symbols_in_push(done, piece@);
            assert(done + (seq![piece@] + path_pieces(rest)) =~= done.push(piece@) + path_pieces(
                rest,
            ));
            done = done.push(piece@);
        }
        pos = start;
    }
}

/// The symbols that a page names, in order.
pub fn symbols_of_page(html: &str) -> (r: Vec<String>)
    ensures
        text::texts(r@) == symbols::in_order(page_symbols(html@)),
        symbols::ascending(text::texts(r@)),
        text::texts(r@).to_set() == page_symbols(html@),
{
    let mut set = symbols::SymbolSet::new();
    let targets = extract_href_targets(html);
    let ghost all = text::texts(targets@);
    proof {
        symbols::lemma_symbols_in_none();
        assert(links_pieces(all.take(0)) =~= Seq::<Seq<char>>::empty());
    }
    for i in 0..targets.len()
        invariant
            all == text::texts(targets@),
            set.wf(),
            set@ == symbols::symbols_in(links_pieces(all.take(i as int))),
    {
        let ghost raws = links_pieces(all.take(i as int));
        add_link(&mut set, targets[i].as_str(), Ghost(raws));
        proof {
            let more = all.take(i + 1);
            assert(more.drop_last() =~= all.take(i as int));
            assert(more.last() == targets@[i as int]@);
        }
    }
    assert(all.take(all.len() as int) =~= all);
    add_paths(&mut set, html, Ghost(links_pieces(all)));
    set.into_list()
}

/// The first `max` of a list, or all of them if `max` is zero.
pub open spec fn limited(v: Seq<Seq<char>>, max: int) -> Seq<Seq<char>> {
    if max > 0 && v.len() > max {
        v.take(max)
    } else {
        v
    }
}

/// The symbols of the archive, given its index page: in order, at most `max` of
/// them unless `max` is zero.
pub open spec fn discovered(index: Option<Seq<char>>, max: int) -> Result<
    Seq<Seq<char>>,
    Seq<char>,
> {
    match index {
        None => Err("cannot fetch symbol index: "@ + archive::index_address()),
        Some(html) => {
            let found = limited(symbols::in_order(page_symbols(html)), max);
            if found.len() == 0 {
                Err(
                    "all-assets found zero symbols; Binance directory format may have changed"@,
                )
            } else {
                Ok(found)
            }
        },
    }
}

/// The symbols of the archive, given its index page if it could be fetched.
pub fn discover_all_symbols(index: &Option<String>, max_symbols: usize) -> (r: Result<
    Vec<String>,
    String,
>)
    ensures
        match r {
            Ok(v) => discovered(text::opt_text(*index), max_symbols as int) == Ok::<
                Seq<Seq<char>>,
                Seq<char>,
            >(text::texts(v@)),
            Err(e) => discovered(text::opt_text(*index), max_symbols as int) == Err::<
                Seq<Seq<char>>,
                Seq<char>,
            >(e@),
        },
{
    match index {
        None => {
            let mut e = "cannot fetch symbol index: ".to_owned();
            e.append(archive::index_url().as_str());
            Err(e)
        },
        Some(html) => {
            let mut found = symbols_of_page(html.as_str());
            let ghost all = text::texts(found@);
            if max_symbols > 0 && found.len() > max_symbols {
                found.truncate(max_symbols);
                assert(text::texts(found@) =~= all.take(max_symbols as int));
            }
            if found.len() == 0 {
                assert(text::texts(found@).len() == 0);
                return Err(
                    "all-assets found zero symbols; Binance directory format may have changed".to_owned(),
                );
            }
            assert(text::texts(found@).len() > 0);
            Ok(found)
        },
    }
}

/// What is discovered is a list of symbols that the page names, in order and
/// none of them twice, as many as were asked for; all of them if there is room.
pub proof fn law_discovered_symbols(html: Seq<char>, max: int)
    requires
        max >= 0,
    ensures
        discovered(Some(html), max) matches Ok(v) ==> {
            &&& symbols::ascending(v)
            &&& forall|i: int|
                0 <= i < v.len() ==> symbols::is_symbol(#[trigger] v[i]) && page_symbols(
                    html,
                ).contains(v[i])
            &&& max > 0 ==> v.len() <= max
            &&& max == 0 || v.len() < max ==> v.to_set() == page_symbols(html)
        },
        discovered(Some(html), max) is Err <==> page_symbols(html) == Set::<Seq<char>>::empty(),
{
    let all = symbols::in_order(page_symbols(html));
    symbols::law_symbols_have_order(page_pieces(html));
    let v = limited(all, max);
    assert forall|i: int| 0 <= i < v.len() implies symbols::is_symbol(#[trigger] v[i])
        && page_symbols(html).contains(v[i]) by {
        assert(v[i] == all[i]);
        assert(all.to_set().contains(all[i]));
    }
    assert(symbols::ascending(v)) by {
        assert forall|i: int, j: int| 0 <= i < j < v.len() implies text::before(
            #[trigger] v[i],
            #[trigger] v[j],
        ) by {
            assert(v[i] == all[i] && v[j] == all[j]);
        }
    }
    if all.len() == 0 {
        assert(all.to_set() =~= Set::<Seq<char>>::empty());
    } else {
        assert(all.to_set().contains(all[0]));
        assert(v.len() > 0);
    }
}

// ---------------------------------------------------------------------------
// Laws of pages

/// A page in which `href=` stands nowhere has no links.
pub proof fn law_no_links(html: Seq<char>)
    requires
        forall|i: int| !#[trigger] text::stands_at(html, "href="@, i),
    ensures
        href_targets(html) == Seq::<Seq<char>>::empty(),
{
    text::law_search(html, "href="@);
}

/// The text stands nowhere in what comes before and into what follows it.
pub open spec fn is_first(a: Seq<char>, p: Seq<char>, b: Seq<char>) -> bool {
    forall|i: int| 0 <= i < a.len() ==> !#[trigger] text::stands_at(a + p + b, p, i)
}

proof fn lemma_behind_href(a: Seq<char>, rest: Seq<char>)
    requires
        is_first(a, "href="@, rest),
    ensures
        ({
            let html = a + "href="@ + rest;
            &&& text::find_text(html, "href="@) == Some(a.len())
            &&& html.skip(a.len() as int + 5) == rest
        }),
{
    reveal_strlit("href=");
    text::law_search_behind(a, "href="@, rest);
    assert((a + "href="@ + rest).skip(a.len() as int + 5) =~= rest);
}

proof fn lemma_closing(t: Seq<char>, quote: char, rest: Seq<char>)
    requires
        !t.contains(quote),
    ensures
        text::find_text(t + seq![quote] + rest, seq![quote]) == Some(t.len()),
        (t + seq![quote] + rest).take(t.len() as int) == t,
        (t + seq![quote] + rest).skip(t.len() as int + 1) == rest,
{
    let s = t + seq![quote] + rest;
    assert forall|i: int| 0 <= i < t.len() implies !#[trigger] text::stands_at(s, seq![quote], i) by {
        assert(s[i] == t[i]);
        if text::stands_at(s, seq![quote], i) {
            assert(s.subrange(i, i + 1)[0] == quote);
            assert(t.contains(quote));
        }
    }
    text::law_search_behind(t, seq![quote], rest);
    assert(s.take(t.len() as int) =~= t);
    assert(s.skip(t.len() as int + 1) =~= rest);
}

/// The first link of a page is the quoted text behind the first `href=`; the
/// other links are those of what follows its closing quote.
pub proof fn law_first_link(a: Seq<char>, quote: char, target: Seq<char>, rest: Seq<char>)
    requires
        quote == '"' || quote == '\'',
        !target.contains(quote),
        is_first(a, "href="@, seq![quote] + (target + seq![quote] + rest)),
    ensures
        href_targets(a + "href="@ + (seq![quote] + (target + seq![quote] + rest))) == seq![target]
            + href_targets(rest),
{
    let inner = target + seq![quote] + rest;
    let behind = seq![quote] + inner;
    lemma_behind_href(a, behind);
    lemma_closing(target, quote, rest);
    assert(behind[0] == quote);
    assert(behind.skip(1) =~= inner);
}

/// Behind `href=` without a quote the search goes on; where nothing follows, or
/// the quote is not closed, it ends.
pub proof fn law_no_first_link(a: Seq<char>, rest: Seq<char>)
    requires
        is_first(a, "href="@, rest),
    ensures
        ({
            let html = a + "href="@ + rest;
            &&& rest.len() > 0 && rest[0] != '"' && rest[0] != '\'' ==> href_targets(html)
                == href_targets(rest)
            &&& rest.len() == 0 ==> href_targets(html) == Seq::<Seq<char>>::empty()
            &&& rest.len() > 0 && (rest[0] == '"' || rest[0] == '\'') && !rest.skip(1).contains(
                rest[0],
            ) ==> href_targets(html) == Seq::<Seq<char>>::empty()
        }),
{
    lemma_behind_href(a, rest);
    if rest.len() > 0 && !rest.skip(1).contains(rest[0]) {
        let inner = rest.skip(1);
        let quote = seq![rest[0]];
        text::law_search(inner, quote);
        if let Some(j) = text::find_text(inner, quote) {
            assert(inner.subrange(j as int, j as int + 1)[0] == rest[0]);
            assert(inner[j as int] == rest[0]);
        }
    }
}

/// The parts of a link with white space around it or not.
proof fn lemma_link(a: Seq<char>, link: Seq<char>, b: Seq<char>)
    requires
        text::all_in(a, text::CharClass::Space),
        text::all_in(b, text::CharClass::Space),
        text::bare(link, text::CharClass::Space),
    ensures
        text::trim(a + link + b) == link,
{
    text::law_trimming(a, link, b, text::CharClass::Space);
}

/// A link that ends in slashes names its last part.
pub proof fn law_directory_link(
    a: Seq<char>,
    p: Seq<char>,
    name: Seq<char>,
    slashes: Seq<char>,
    b: Seq<char>,
)
    requires
        text::all_in(a, text::CharClass::Space),
        text::all_in(b, text::CharClass::Space),
        text::bare(p + name + slashes, text::CharClass::Space),
        text::all_in(slashes, text::CharClass::Slash),
        slashes.len() > 0,
        name.len() > 0,
        !name.contains('/'),
        p.len() > 0 ==> p.last() == '/',
    ensures
        link_pieces(a + (p + name + slashes) + b).contains(name),
{
    let link = p + name + slashes;
    lemma_link(a, link, b);
    assert(link[link.len() - 1] == slashes[slashes.len() - 1]);
    assert(text::CharClass::Slash.has(slashes[slashes.len() - 1]));
    assert forall|i: int| (p + name).len() <= i < link.len() implies text::CharClass::Slash.has(
        #[trigger] link[i],
    ) by {
        assert(link[i] == slashes[i - (p + name).len()]);
    }
    let n = (p + name).len() as int;
    assert(link[n - 1] == name[name.len() - 1]);
    assert(name.contains(name[name.len() - 1]));
    text::lemma_tail_cut(link, text::CharClass::Slash, n);
    assert(link.take(n) =~= p + name);
    if p.len() == 0 {
        assert(p + name =~= name);
        text::lemma_split_single(name, '/');
    } else {
        let q = p.drop_last();
        assert(p + name =~= q + seq!['/'] + name);
        text::lemma_last_piece(q, '/', name);
    }
    assert(link_pieces(a + link + b)[0] == name);
}

/// A link through the path of the archive names what follows the path.
#[verifier::spinoff_prover]
pub proof fn law_path_link(a: Seq<char>, p: Seq<char>, tail: Seq<char>, b: Seq<char>)
    requires
        text::all_in(a, text::CharClass::Space),
        text::all_in(b, text::CharClass::Space),
        is_first(p, "daily/aggTrades/"@, tail),
        text::bare(p + "daily/aggTrades/"@ + tail, text::CharClass::Space),
    ensures
        link_pieces(a + (p + "daily/aggTrades/"@ + tail) + b).contains(tail),
{
    let marker = "daily/aggTrades/"@;
    let link = p + marker + tail;
    lemma_link(a, link, b);
    text::law_search_behind(p, marker, tail);
    assert(link.skip(p.len() + marker.len() as int) =~= tail);
    assert(tail_after(link, marker) =~= seq![tail]);
    let pieces = link_pieces(a + link + b);
    let k: int = if link.len() > 0 && link.last() == '/' {
        1
    } else {
        0
    };
    assert(pieces[k] == tail);
}

/// A link through the path of the archive with its slashes encoded names what
/// follows the path up to the next code.
#[verifier::spinoff_prover]
pub proof fn law_coded_link(
    a: Seq<char>,
    p: Seq<char>,
    name: Seq<char>,
    rest: Seq<char>,
    b: Seq<char>,
)
    requires
        text::all_in(a, text::CharClass::Space),
        text::all_in(b, text::CharClass::Space),
        !name.contains('%'),
        rest.len() > 0 ==> rest[0] == '%',
        is_first(p, "daily%2FaggTrades%2F"@, name + rest),
        text::bare(p + "daily%2FaggTrades%2F"@ + (name + rest), text::CharClass::Space),
    ensures
        link_pieces(a + (p + "daily%2FaggTrades%2F"@ + (name + rest)) + b).contains(name),
{
    let marker = "daily%2FaggTrades%2F"@;
    let tail = name + rest;
    let link = p + marker + tail;
    lemma_link(a, link, b);
    text::law_search_behind(p, marker, tail);
    assert(link.skip(p.len() + marker.len() as int) =~= tail);
    assert(tail_after(link, marker) =~= seq![tail]);
    if rest.len() == 0 {
        assert(tail =~= name);
        text::lemma_split_single(name, '%');
    } else {
        assert(tail =~= name + seq!['%'] + rest.drop_first());
        text::lemma_first_piece(name, '%', rest.drop_first());
    }
    let pieces = link_pieces(a + link + b);
    assert(pieces[pieces.len() - 1] == name);
}

/// A link names one piece for each of the three forms that it has, and nothing
/// else.
pub proof fn law_number_of_pieces(target: Seq<char>)
    ensures
        ({
            let link = text::trim(target);
            let n: int = if link.len() > 0 && link.last() == '/' {
                1
            } else {
                0
            };
            let m: int = if exists|i: int| #[trigger] text::stands_at(link, "daily/aggTrades/"@, i) {
                1
            } else {
                0
            };
            let k: int = if exists|i: int|
                #[trigger] text::stands_at(link, "daily%2FaggTrades%2F"@, i) {
                1
            } else {
                0
            };
            link_pieces(target).len() == n + m + k
        }),
{
    let link = text::trim(target);
    text::law_search(link, "daily/aggTrades/"@);
    text::law_search(link, "daily%2FaggTrades%2F"@);
}

/// Behind each place of the full path of the archive the letters and digits that
/// follow make a piece; the search goes on right behind the path.
pub proof fn law_paths_in_page(a: Seq<char>, token: Seq<char>, rest: Seq<char>)
    requires
        text::all_in(token, text::CharClass::Alphanumeric),
        rest.len() > 0 ==> !text::CharClass::Alphanumeric.has(rest[0]),
        is_first(a, "/data/futures/um/daily/aggTrades/"@, token + rest),
    ensures
        path_pieces(a + "/data/futures/um/daily/aggTrades/"@ + (token + rest)) == seq![token]
            + path_pieces(token + rest),
{
    let marker = "/data/futures/um/daily/aggTrades/"@;
    let html = a + marker + (token + rest);
    reveal_strlit("/data/futures/um/daily/aggTrades/");
    text::law_search_behind(a, marker, token + rest);
    assert(html.skip(a.len() as int + 33) =~= token + rest);
    text::law_leading_run(token, rest, text::CharClass::Alphanumeric);
}

/// A page in which the full path stands nowhere has no such pieces.
pub proof fn law_no_paths_in_page(html: Seq<char>)
    requires
        forall|i: int| !#[trigger] text::stands_at(html, "/data/futures/um/daily/aggTrades/"@, i),
    ensures
        path_pieces(html) == Seq::<Seq<char>>::empty(),
{
    text::law_search(html, "/data/futures/um/daily/aggTrades/"@);
}

proof fn lemma_pieces_of_links(targets: Seq<Seq<char>>, piece: Seq<char>)
    ensures
        links_pieces(targets).contains(piece) <==> exists|i: int|
            0 <= i < targets.len() && link_pieces(#[trigger] targets[i]).contains(piece),
    decreases targets.len(),
{
    let all = links_pieces(targets);
    if targets.len() > 0 {
        let front = targets.drop_last();
        let (p, q) = (links_pieces(front), link_pieces(targets.last()));
        lemma_pieces_of_links(front, piece);
        assert(all == p + q);
        if all.contains(piece) {
            let k = choose|k: int| 0 <= k < all.len() && all[k] == piece;
            if k < p.len() {
                assert(p[k] == piece);
                let i = choose|i: int|
                    0 <= i < front.len() && link_pieces(#[trigger] front[i]).contains(piece);
                assert(targets[i] == front[i]);
            } else {
                assert(q[k - p.len()] == piece);
                assert(link_pieces(targets[targets.len() - 1]).contains(piece));
            }
        }
        if exists|i: int|
            0 <= i < targets.len() && link_pieces(#[trigger] targets[i]).contains(piece) {
            let i = choose|i: int|
                0 <= i < targets.len() && link_pieces(#[trigger] targets[i]).contains(piece);
            if i < front.len() {
                assert(front[i] == targets[i]);
                let k = choose|k: int| 0 <= k < p.len() && p[k] == piece;
                assert(all[k] == piece);
            } else {
                let k = choose|k: int| 0 <= k < q.len() && q[k] == piece;
                assert(all[p.len() + k] == piece);
            }
        }
    }
}

/// The piece stands in a link of the page, or behind the full path in it.
pub open spec fn is_piece_of_page(html: Seq<char>, piece: Seq<char>) -> bool {
    ||| exists|i: int|
        0 <= i < href_targets(html).len() && link_pieces(
            #[trigger] href_targets(html)[i],
        ).contains(piece)
    ||| path_pieces(html).contains(piece)
}

/// A page names exactly the symbols that pieces of its links, and those behind
/// the full path in it, name.
pub proof fn law_symbols_of_page(html: Seq<char>, s: Seq<char>)
    ensures
        page_symbols(html).contains(s) <==> symbols::is_symbol(s) && exists|piece: Seq<char>|
            #[trigger] is_piece_of_page(html, piece) && symbols::candidate(piece) == s,
{
    let targets = href_targets(html);
    let (p, q) = (links_pieces(targets), path_pieces(html));
    let all = page_pieces(html);
    assert(all == p + q);
    if page_symbols(html).contains(s) {
        let k = choose|k: int|
            0 <= k < all.len() && symbols::candidate(#[trigger] all[k]) == s;
        let piece = all[k];
        lemma_pieces_of_links(targets, piece);
        if k < p.len() {
            assert(p[k] == piece);
            assert(p.contains(piece));
        } else {
            assert(q[k - p.len()] == piece);
            assert(q.contains(piece));
        }
        assert(is_piece_of_page(html, piece));
    }
    if symbols::is_symbol(s) && exists|piece: Seq<char>|
        #[trigger] is_piece_of_page(html, piece) && symbols::candidate(piece) == s {
        let piece = choose|piece: Seq<char>|
            #[trigger] is_piece_of_page(html, piece) && symbols::candidate(piece) == s;
        lemma_pieces_of_links(targets, piece);
        if q.contains(piece) {
            let k = choose|k: int| 0 <= k < q.len() && q[k] == piece;
            assert(all[p.len() + k] == piece);
        } else {
            assert(p.contains(piece));
            let k = choose|k: int| 0 <= k < p.len() && p[k] == piece;
            assert(all[k] == piece);
        }
    }
}

/// Of the symbols of a page the first ones in order are taken, as many as asked
/// for, or all of them: one that is left out comes behind all that are taken,
/// and is left out only where there is no room.
pub proof fn law_first_symbols_are_taken(html: Seq<char>, max: int, s: Seq<char>)
    requires
        max >= 0,
        page_symbols(html).contains(s),
    ensures
        discovered(Some(html), max) matches Ok(v) && (v.contains(s) || (max > 0 && v.len() == max
            && forall|i: int| 0 <= i < v.len() ==> text::before(#[trigger] v[i], s))),
{
    let all = symbols::in_order(page_symbols(html));
    symbols::law_symbols_have_order(page_pieces(html));
    assert(all.to_set().contains(s));
    let k = choose|k: int| 0 <= k < all.len() && all[k] == s;
    let v = limited(all, max);
    assert(v.len() > 0);
    if k < v.len() {
        assert(v[k] == s);
    } else {
        assert forall|i: int| 0 <= i < v.len() implies text::before(#[trigger] v[i], s) by {
            assert(v[i] == all[i]);
            assert(text::before(all[i], all[k]));
        }
    }
}

/// Without a page, and with one that names no symbols, nothing is discovered.
pub proof fn law_nothing_discovered(html: Seq<char>, max: int)
    requires
        page_symbols(html) == Set::<Seq<char>>::empty(),
        max >= 0,
    ensures
        discovered(None, max) == Err::<Seq<Seq<char>>, Seq<char>>(
            "cannot fetch symbol index: "@ + archive::index_address(),
        ),
        discovered(Some(html), max) == Err::<Seq<Seq<char>>, Seq<char>>(
            "all-assets found zero symbols; Binance directory format may have changed"@,
        ),
{
    law_discovered_symbols(html, max);
}

} // verus!
