//! Symbols: which names are symbols, sets of them in order, and the symbols that
//! pieces of links name.
use crate::text;
use vstd::prelude::*;

verus! {

/// The name of a symbol directory: 3 to 40 ASCII capitals and digits.
pub open spec fn is_symbol(s: Seq<char>) -> bool {
    3 <= s.len() <= 40 && forall|i: int|
        0 <= i < s.len() ==> text::is_upper(#[trigger] s[i]) || text::is_digit(s[i])
}

/// Whether `s` is the name of a symbol directory.
pub fn is_valid_symbol_dir(s: &str) -> (r: bool)
    ensures
        r == is_symbol(s@),
{
    let v = text::chars_of(s);
    if v.len() < 3 || v.len() > 40 {
        return false;
    }
    for i in 0..v.len()
        invariant
            v@ == s@,
            forall|j: int| 0 <= j < i ==> text::is_upper(#[trigger] s@[j]) || text::is_digit(s@[j]),
    {
        let c = v[i];
        if !(('A' <= c && c <= 'Z') || text::digit(c)) {
            return false;
        }
    }
    true
}

// ---------------------------------------------------------------------------
// Sets in order

/// Strictly in the order of texts.
pub open spec fn ascending(v: Seq<Seq<char>>) -> bool {
    forall|i: int, j: int|
        0 <= i < j < v.len() ==> text::before(#[trigger] v[i], #[trigger] v[j])
}

/// The members of a set in order.
pub open spec fn in_order(set: Set<Seq<char>>) -> Seq<Seq<char>> {
    choose|v: Seq<Seq<char>>| #[trigger] ascending(v) && v.to_set() == set
}

proof fn lemma_same_first(a: Seq<Seq<char>>, b: Seq<Seq<char>>)
    requires
        ascending(a),
        ascending(b),
        a.to_set() == b.to_set(),
        a.len() > 0,
    ensures
        b.len() > 0,
        a[0] == b[0],
{
    assert(a.to_set().contains(a[0]));
    assert(b.to_set().contains(a[0]));
    let j = choose|j: int| 0 <= j < b.len() && b[j] == a[0];
    assert(b.to_set().contains(b[0]));
    assert(a.to_set().contains(b[0]));
    let i = choose|i: int| 0 <= i < a.len() && a[i] == b[0];
    if j > 0 {
        assert(text::before(b[0], b[j]));
        if i > 0 {
            assert(text::before(a[0], a[i]));
            text::law_before_transitive(a[0], b[0], a[0]);
        }
        text::law_before_irreflexive(a[0]);
    }
}

proof fn lemma_tail_set(a: Seq<Seq<char>>)
    requires
        ascending(a),
        a.len() > 0,
    ensures
        ascending(a.drop_first()),
        a.drop_first().to_set() == a.to_set().remove(a[0]),
{
    let t = a.drop_first();
    assert forall|i: int, j: int| 0 <= i < j < t.len() implies text::before(
        #[trigger] t[i],
        #[trigger] t[j],
    ) by {
        assert(t[i] == a[i + 1] && t[j] == a[j + 1]);
    }
    assert forall|x: Seq<char>| t.to_set().contains(x) == a.to_set().remove(a[0]).contains(x) by {
        if t.contains(x) {
            let i = choose|i: int| 0 <= i < t.len() && t[i] == x;
            assert(a[i + 1] == x);
            assert(text::before(a[0], a[i + 1]));
            text::law_before_irreflexive(x);
        }
        if a.contains(x) && x != a[0] {
            let i = choose|i: int| 0 <= i < a.len() && a[i] == x;
            assert(t[i - 1] == x);
        }
    }
    assert(t.to_set() =~= a.to_set().remove(a[0]));
}

/// A set has only one order.
pub proof fn law_order_is_unique(a: Seq<Seq<char>>, b: Seq<Seq<char>>)
    requires
        ascending(a),
        ascending(b),
        a.to_set() == b.to_set(),
    ensures
        a == b,
    decreases a.len(),
{
    if a.len() > 0 {
        lemma_same_first(a, b);
        lemma_tail_set(a);
        lemma_tail_set(b);
        law_order_is_unique(a.drop_first(), b.drop_first());
        assert(a =~= seq![a[0]] + a.drop_first());
        assert(b =~= seq![b[0]] + b.drop_first());
    } else if b.len() > 0 {
        assert(b.to_set().contains(b[0]));
        assert(a.to_set().contains(b[0]));
    } else {
        assert(a =~= b);
    }
}

/// A list in order is the order of its set.
pub proof fn law_in_order(v: Seq<Seq<char>>)
    requires
        ascending(v),
    ensures
        in_order(v.to_set()) == v,
{
    law_order_is_unique(in_order(v.to_set()), v);
}

/// A text that is put where it belongs leaves the list in order.
proof fn lemma_insert_at(v: Seq<Seq<char>>, n: int, x: Seq<char>)
    requires
        ascending(v),
        0 <= n <= v.len(),
        forall|i: int| 0 <= i < n ==> text::before(#[trigger] v[i], x),
        n < v.len() ==> text::before(x, v[n]),
    ensures
        ascending(v.insert(n, x)),
        v.insert(n, x).to_set() == v.to_set().insert(x),
{
    let w = v.insert(n, x);
    assert forall|i: int, j: int| 0 <= i < j < w.len() implies text::before(
        #[trigger] w[i],
        #[trigger] w[j],
    ) by {
        if i < n && j == n {
            assert(w[i] == v[i]);
        } else if i < n && j > n {
            assert(w[i] == v[i] && w[j] == v[j - 1]);
        } else if j < n {
            assert(w[i] == v[i] && w[j] == v[j]);
        } else if i == n {
            assert(w[j] == v[j - 1]);
            if j - 1 > n {
                assert(text::before(v[n], v[j - 1]));
                text::law_before_transitive(x, v[n], v[j - 1]);
            }
        } else {
            assert(w[i] == v[i - 1] && w[j] == v[j - 1]);
        }
    }
    assert forall|y: Seq<char>| w.to_set().contains(y) == v.to_set().insert(x).contains(y) by {
        if v.contains(y) {
            let i = choose|i: int| 0 <= i < v.len() && v[i] == y;
            if i < n {
                assert(w[i] == y);
            } else {
                assert(w[i + 1] == y);
            }
        }
        assert(w[n] == x);
        if w.contains(y) {
            let i = choose|i: int| 0 <= i < w.len() && w[i] == y;
            if i < n {
                assert(v[i] == y);
            } else if i > n {
                assert(v[i - 1] == y);
            }
        }
    }
    assert(w.to_set() =~= v.to_set().insert(x));
}

/// A text can be put into a list in order, at or after a place before which
/// everything comes before it.
pub proof fn lemma_insert_after(v: Seq<Seq<char>>, n: int, x: Seq<char>) -> (w: Seq<Seq<char>>)
    requires
        ascending(v),
        0 <= n <= v.len(),
        forall|i: int| 0 <= i < n ==> text::before(#[trigger] v[i], x),
    ensures
        ascending(w),
        w.to_set() == v.to_set().insert(x),
    decreases v.len() - n,
{
    if n < v.len() {
        text::law_before_total(v[n], x);
        if v[n] == x {
            assert(v.to_set().contains(x));
            assert(v.to_set().insert(x) =~= v.to_set());
            return v;
        }
        if text::before(v[n], x) {
            return lemma_insert_after(v, n + 1, x);
        }
    }
    lemma_insert_at(v, n, x);
    v.insert(n, x)
}

/// A set of texts, kept in order.
pub struct SymbolSet {
    items: Vec<String>,
}

impl View for SymbolSet {
    type V = Set<Seq<char>>;

    closed spec fn view(&self) -> Set<Seq<char>> {
        text::texts(self.items@).to_set()
    }
}

impl SymbolSet {
    /// The members stand in order.
    pub closed spec fn wf(&self) -> bool {
        ascending(text::texts(self.items@))
    }

    /// The empty set.
    pub fn new() -> (r: SymbolSet)
        ensures
            r.wf(),
            r@ == Set::<Seq<char>>::empty(),
    {
        let r = SymbolSet { items: Vec::new() };
        assert(r@ =~= Set::<Seq<char>>::empty());
        r
    }

    /// Adds a member.
    pub fn insert(&mut self, s: String)
        requires
            old(self).wf(),
        ensures
            final(self).wf(),
            final(self)@ == old(self)@.insert(s@),
    {
        let ghost v = text::texts(self.items@);
        let ghost x = s@;
        let mut n: usize = 0;
        while n < self.items.len() && text::text_before(self.items[n].as_str(), s.as_str())
            invariant
                n <= self.items@.len(),
                v == text::texts(self.items@),
                x == s@,
                forall|i: int| 0 <= i < n ==> text::before(#[trigger] v[i], x),
            decreases self.items@.len() - n,
        {
            n = n + 1;
        }
        if n < self.items.len() && text::same_text(self.items[n].as_str(), s.as_str()) {
            assert(v[n as int] == x);
            assert(v.to_set().contains(x));
            assert(v.to_set().insert(x) =~= v.to_set());
            return;
        }
        self.items.insert(n, s);
        proof {
            assert(text::texts(self.items@) =~= v.insert(n as int, x));
            if n < v.len() {
                text::law_before_total(v[n as int], x);
            }
            lemma_insert_at(v, n as int, x);
        }
    }

    /// The members in order.
    pub fn into_list(self) -> (r: Vec<String>)
        requires
            self.wf(),
        ensures
            text::texts(r@) == in_order(self@),
            ascending(text::texts(r@)),
            text::texts(r@).to_set() == self@,
    {
        proof {
            law_in_order(text::texts(self.items@));
        }
        self.items
    }
}

// ---------------------------------------------------------------------------
// Candidates

/// The name in a piece of a link: trimmed, without slashes at either end, in
/// capitals, up to the first slash.
pub open spec fn candidate(raw: Seq<char>) -> Seq<char> {
    text::split_on(
        text::upper(text::trimmed(text::trim(raw), text::CharClass::Slash)),
        '/',
    )[0]
}

/// The symbols among the names in the given pieces.
pub open spec fn symbols_in(raws: Seq<Seq<char>>) -> Set<Seq<char>> {
    Set::new(
        |s: Seq<char>|
            is_symbol(s) && exists|i: int| 0 <= i < raws.len() && candidate(#[trigger] raws[i]) == s,
    )
}

/// Adds the name in a piece of a link, if it is a symbol.
pub fn add_symbol_candidate(set: &mut SymbolSet, raw: &str)
    requires
        old(set).wf(),
    ensures
        final(set).wf(),
        final(set)@ == if is_symbol(candidate(raw@)) {
            old(set)@.insert(candidate(raw@))
        } else {
            old(set)@
        },
{
    let chars = text::chars_of(raw);
    let kept = text::trim_class(chars.as_slice(), text::CharClass::Space);
    let bare = text::trim_class(kept.as_slice(), text::CharClass::Slash);
    let big = text::upper_text(text::string_of(bare.as_slice()).as_str());
    let mut pieces = text::split_text(big.as_str(), '/');
    assert(text::texts(pieces@)[0] == pieces@[0]@);
    let name = pieces.remove(0);
    if is_valid_symbol_dir(name.as_str()) {
        set.insert(name);
    }
}

/// No pieces name no symbols.
pub proof fn lemma_symbols_in_none()
    ensures
        symbols_in(Seq::empty()) == Set::<Seq<char>>::empty(),
{
    assert(symbols_in(Seq::empty()) =~= Set::<Seq<char>>::empty());
}

/// One more piece adds the symbol that it names.
pub proof fn lemma_symbols_in_push(raws: Seq<Seq<char>>, raw: Seq<char>)
    ensures
        symbols_in(raws.push(raw)) == if is_symbol(candidate(raw)) {
            symbols_in(raws).insert(candidate(raw))
        } else {
            symbols_in(raws)
        },
{
    let all = raws.push(raw);
    let want = if is_symbol(candidate(raw)) {
        symbols_in(raws).insert(candidate(raw))
    } else {
        symbols_in(raws)
    };
    assert forall|s: Seq<char>| symbols_in(all).contains(s) == want.contains(s) by {
        if symbols_in(all).contains(s) {
            let i = choose|i: int| 0 <= i < all.len() && candidate(#[trigger] all[i]) == s;
            if i < raws.len() {
                assert(raws[i] == all[i]);
            }
        }
        if symbols_in(raws).contains(s) {
            let i = choose|i: int| 0 <= i < raws.len() && candidate(#[trigger] raws[i]) == s;
            assert(all[i] == raws[i]);
        }
        assert(all[raws.len() as int] == raw);
    }
    assert(symbols_in(all) =~= want);
}

proof fn lemma_order_exists(raws: Seq<Seq<char>>) -> (v: Seq<Seq<char>>)
    ensures
        ascending(v),
        v.to_set() == symbols_in(raws),
    decreases raws.len(),
{
    if raws.len() == 0 {
        lemma_symbols_in_none();
        assert(raws =~= Seq::<Seq<char>>::empty());
        let v = Seq::<Seq<char>>::empty();
        assert(v.to_set() =~= Set::<Seq<char>>::empty());
        v
    } else {
        let v = lemma_order_exists(raws.drop_last());
        assert(raws.drop_last().push(raws.last()) =~= raws);
        lemma_symbols_in_push(raws.drop_last(), raws.last());
        if is_symbol(candidate(raws.last())) {
            lemma_insert_after(v, 0, candidate(raws.last()))
        } else {
            v
        }
    }
}

/// The symbols among the names in some pieces can be put in order.
pub proof fn law_symbols_have_order(raws: Seq<Seq<char>>)
    ensures
        ascending(in_order(symbols_in(raws))),
        in_order(symbols_in(raws)).to_set() == symbols_in(raws),
{
    let v = lemma_order_exists(raws);
    law_in_order(v);
}

// ---------------------------------------------------------------------------
// Laws of names

/// The names of symbols are the texts of 3 to 40 characters that are all ASCII
/// capitals or digits.
pub proof fn law_names_of_symbols(s: Seq<char>)
    ensures
        is_symbol(s) <==> 3 <= s.len() && s.len() <= 40 && forall|i: int|
            0 <= i < s.len() ==> 48 <= (#[trigger] s[i]) as int <= 57 || 65 <= s[i] as int <= 90,
{
    if is_symbol(s) {
        assert forall|i: int| 0 <= i < s.len() implies 48 <= (#[trigger] s[i]) as int <= 57 || 65
            <= s[i] as int <= 90 by {
            assert(text::is_upper(s[i]) || text::is_digit(s[i]));
        }
    }
}

proof fn lemma_upper_slash(s: Seq<char>)
    ensures
        text::upper(s).contains('/') <==> s.contains('/'),
{
    let t = text::upper(s);
    if s.contains('/') {
        let i = choose|i: int| 0 <= i < s.len() && s[i] == '/';
        assert(t[i] == '/');
    }
    if t.contains('/') {
        let i = choose|i: int| 0 <= i < t.len() && t[i] == '/';
        assert(t[i] == text::upper_char(s[i]));
        assert(s[i] == '/');
    }
}

/// The name in a piece of a link is what stands up to the first slash behind
/// leading ones, in capitals; white space around the piece and slashes at its
/// ends make no difference.
pub proof fn law_name_in_piece(
    a: Seq<char>,
    front: Seq<char>,
    name: Seq<char>,
    rest: Seq<char>,
    back: Seq<char>,
    b: Seq<char>,
)
    requires
        text::all_in(a, text::CharClass::Space),
        text::all_in(b, text::CharClass::Space),
        text::all_in(front, text::CharClass::Slash),
        text::all_in(back, text::CharClass::Slash),
        name.len() > 0,
        !name.contains('/'),
        rest.len() > 0 ==> rest[0] == '/',
        text::bare(name + rest, text::CharClass::Slash),
        text::bare(front + (name + rest) + back, text::CharClass::Space),
    ensures
        candidate(a + (front + (name + rest) + back) + b) == text::upper(name),
{
    let core = name + rest;
    let mid = front + core + back;
    text::law_trimming(a, mid, b, text::CharClass::Space);
    text::law_trimming(front, core, back, text::CharClass::Slash);
    let big = text::upper(core);
    let head = text::upper(name);
    lemma_upper_slash(name);
    if rest.len() == 0 {
        assert(big =~= head);
        text::lemma_split_single(head, '/');
    } else {
        let tail = text::upper(rest.drop_first());
        assert(big =~= head + seq!['/'] + tail);
        text::lemma_first_piece(head, '/', tail);
    }
}

/// A symbol is the name in itself, also in small letters.
pub proof fn law_symbol_names_itself(s: Seq<char>)
    requires
        is_symbol(s),
    ensures
        candidate(s) == s,
        candidate(text::lower(s)) == s,
{
    let none = Seq::<char>::empty();
    let t = text::lower(s);
    assert forall|i: int| 0 <= i < s.len() implies text::upper(s)[i] == s[i] && text::upper(t)[i]
        == s[i] && s[i] != '/' && t[i] != '/' && !text::is_white_space(s[i])
        && !text::is_white_space(t[i]) by {
        assert(text::is_upper(s[i]) || text::is_digit(s[i]));
        assert(t[i] == text::lower_char(s[i]));
        assert(text::upper(t)[i] == text::upper_char(t[i]));
    }
    assert(s[0] != '/' && t[0] != '/' && !text::is_white_space(s[0]));
    assert(s[s.len() - 1] != '/' && t[t.len() - 1] != '/');
    assert(!s.contains('/') && !t.contains('/'));
    assert(text::upper(s) =~= s);
    assert(text::upper(t) =~= s);
    law_name_in_piece(none, none, s, none, none, none);
    law_name_in_piece(none, none, t, none, none, none);
    assert(none + (none + (s + none) + none) + none =~= s);
    assert(none + (none + (t + none) + none) + none =~= t);
}

/// A piece of slashes alone, with white space around it or not, names nothing.
pub proof fn law_no_name_in_slashes(a: Seq<char>, slashes: Seq<char>, b: Seq<char>)
    requires
        text::all_in(a, text::CharClass::Space),
        text::all_in(b, text::CharClass::Space),
        text::all_in(slashes, text::CharClass::Slash),
    ensures
        candidate(a + slashes + b).len() == 0,
{
    let none = Seq::<char>::empty();
    assert(text::bare(slashes, text::CharClass::Space)) by {
        if slashes.len() > 0 {
            assert(text::CharClass::Slash.has(slashes[0]));
            assert(text::CharClass::Slash.has(slashes[slashes.len() - 1]));
        }
    }
    text::law_trimming(a, slashes, b, text::CharClass::Space);
    text::law_trimming(slashes, none, none, text::CharClass::Slash);
    assert(slashes + none + none =~= slashes);
    assert(text::upper(none) =~= none);
}

} // verus!
