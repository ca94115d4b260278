//! The keys of the rows that an output file already holds.
use crate::json;
use crate::options;
use crate::text;
use crate::trade;
use std::collections::HashMap;
use vstd::prelude::*;

verus! {

broadcast use vstd::std_specs::hash::group_hash_axioms;

/// The key of a row: symbol and trade id.
pub open spec fn key_of(x: trade::TradeView) -> (Seq<char>, int) {
    (x.s, x.a)
}

/// A set of keys, arranged by trade id.
pub struct SeenKeys {
    by_id: HashMap<i64, Vec<String>>,
}

impl View for SeenKeys {
    type V = Set<(Seq<char>, int)>;

    closed spec fn view(&self) -> Set<(Seq<char>, int)> {
        Set::new(
            |k: (Seq<char>, int)|
                i64::MIN <= k.1 <= i64::MAX && self.by_id@.contains_key(k.1 as i64)
                    && text::texts(self.by_id@[k.1 as i64]@).contains(k.0),
        )
    }
}

/// Whether the list holds the text.
fn holds(list: &Vec<String>, s: &str) -> (r: bool)
    ensures
        r == text::texts(list@).contains(s@),
{
    for i in 0..list.len()
        invariant
            forall|j: int| 0 <= j < i ==> (#[trigger] list@[j])@ != s@,
    {
        if text::same_text(list[i].as_str(), s) {
            assert(text::texts(list@)[i as int] == s@);
            return true;
        }
    }
    false
}

impl SeenKeys {
    /// No keys.
    pub fn new() -> (r: SeenKeys)
        ensures
            r@ == Set::<(Seq<char>, int)>::empty(),
    {
        let r = SeenKeys { by_id: HashMap::new() };
        assert(r@ =~= Set::<(Seq<char>, int)>::empty());
        r
    }

    /// Whether the key is in the set.
    pub fn contains(&self, s: &str, a: i64) -> (r: bool)
        ensures
            r == self@.contains((s@, a as int)),
    {
        match self.by_id.get(&a) {
            Some(list) => holds(list, s),
            None => false,
        }
    }

    /// Adds the key.
    pub fn insert(&mut self, s: String, a: i64)
        ensures
            final(self)@ == old(self)@.insert((s@, a as int)),
    {
        let mut list = match self.by_id.remove(&a) {
            Some(list) => list,
            None => Vec::new(),
        };
        let ghost had = list@;
        list.push(s);
        let ghost has = list@;
        self.by_id.insert(a, list);
        proof {
            assert(text::texts(has) =~= text::texts(had).push(s@));
            let new = old(self)@.insert((s@, a as int));
            assert forall|k: (Seq<char>, int)| self@.contains(k) == new.contains(k) by {
                if k.1 == a {
                    let (p, q) = (text::texts(had), text::texts(has));
                    if p.contains(k.0) {
                        let i = choose|i: int| 0 <= i < p.len() && p[i] == k.0;
                        assert(q[i] == k.0);
                    }
                    if k.0 == s@ {
                        assert(q[p.len() as int] == k.0);
                    }
                    if q.contains(k.0) {
                        let i = choose|i: int| 0 <= i < q.len() && q[i] == k.0;
                        if i < p.len() {
                            assert(p[i] == k.0);
                        }
                    }
                }
            }
            assert(self@ =~= new);
        }
    }
}

/// The key that a line of an output file is known by, if it has one.
pub open spec fn row_key(line: Seq<char>) -> Option<(Seq<char>, int)> {
    match (json::string_field(line, "s"@), json::int_field(line, "a"@)) {
        (Some(s), Some(a)) => Some((s, a)),
        _ => None,
    }
}

/// The keys of the given lines.
pub open spec fn keys_of(lines: Seq<Seq<char>>) -> Set<(Seq<char>, int)> {
    Set::new(
        |k: (Seq<char>, int)|
            exists|i: int| 0 <= i < lines.len() && row_key(#[trigger] lines[i]) == Some(k),
    )
}

/// Adds the keys of the given lines of an output file. Lines without a symbol or
/// a trade id are passed over.
pub fn load_seen_keys(lines: &Vec<String>, seen: &mut SeenKeys)
    ensures
        final(seen)@ == old(seen)@.union(keys_of(text::texts(lines@))),
{
    let ghost all = text::texts(lines@);
    assert(old(seen)@.union(keys_of(all.take(0))) =~= old(seen)@);
    for i in 0..lines.len()
        invariant
            all == text::texts(lines@),
            seen@ == old(seen)@.union(keys_of(all.take(i as int))),
    {
        let line = lines[i].as_str();
        if let Some(s) = json::extract_json_string(line, "s") {
            if let Some(a) = json::extract_json_i64(line, "a") {
                seen.insert(s, a);
            }
        }
        proof {
            let (p, q) = (all.take(i as int), all.take(i + 1));
            assert(q =~= p.push(line@));
            assert forall|k: (Seq<char>, int)|
                keys_of(q).contains(k) == (keys_of(p).contains(k) || row_key(line@) == Some(k)) by {
                if keys_of(p).contains(k) {
                    let j = choose|j: int| 0 <= j < p.len() && row_key(#[trigger] p[j]) == Some(k);
                    assert(q[j] == p[j]);
                }
                if row_key(line@) == Some(k) {
                    assert(q[i as int] == line@);
                }
                if keys_of(q).contains(k) {
                    let j = choose|j: int| 0 <= j < q.len() && row_key(#[trigger] q[j]) == Some(k);
                    if j < i {
                        assert(p[j] == q[j]);
                    }
                }
            }
            assert(seen@ =~= old(seen)@.union(keys_of(q)));
        }
    }
    assert(all.take(all.len() as int) =~= all);
}

/// The keys that need not be written again when a run starts, given the lines of
/// the output file: those of the lines if the run resumes, else none.
pub fn known_at_start(args: &options::Args, lines: &Vec<String>) -> (r: SeenKeys)
    ensures
        r@ == if args@.resume {
            keys_of(text::texts(lines@))
        } else {
            Set::empty()
        },
{
    let mut seen = SeenKeys::new();
    if args.resume {
        load_seen_keys(lines, &mut seen);
        assert(seen@ =~= keys_of(text::texts(lines@)));
    }
    seen
}

/// The row of a trade with a plain symbol is known by the key of the trade.
pub proof fn law_row_is_known_by_its_key(x: trade::TradeView)
    requires
        trade::is_trade(x),
        json::is_plain(x.s),
    ensures
        row_key(json::json_row(x)) == Some(key_of(x)),
{
    json::law_symbol_reads_back(x);
    json::law_trade_id_reads_back(x);
}

/// A line is known by a key exactly where its symbol and its trade id make it.
pub proof fn law_key_of_line(line: Seq<char>, s: Seq<char>, a: int)
    ensures
        row_key(line) == Some((s, a)) <==> json::string_field(line, seq!['s']) == Some(s)
            && json::int_field(line, seq!['a']) == Some(a),
{
    reveal_strlit("s");
    reveal_strlit("a");
    assert("s"@ =~= seq!['s']);
    assert("a"@ =~= seq!['a']);
}

/// Lines give their keys together as they give them one by one.
pub proof fn law_keys_of_lines(lines: Seq<Seq<char>>, more: Seq<Seq<char>>, line: Seq<char>)
    ensures
        keys_of(Seq::empty()) == Set::<(Seq<char>, int)>::empty(),
        keys_of(seq![line]) == match row_key(line) {
            Some(k) => Set::<(Seq<char>, int)>::empty().insert(k),
            None => Set::empty(),
        },
        keys_of(lines + more) == keys_of(lines).union(keys_of(more)),
{
    assert(keys_of(Seq::empty()) =~= Set::<(Seq<char>, int)>::empty());
    let one = match row_key(line) {
        Some(k) => Set::<(Seq<char>, int)>::empty().insert(k),
        None => Set::empty(),
    };
    assert forall|k: (Seq<char>, int)| keys_of(seq![line]).contains(k) == one.contains(k) by {
        assert(seq![line][0] == line);
    }
    assert(keys_of(seq![line]) =~= one);
    let all = lines + more;
    assert forall|k: (Seq<char>, int)|
        keys_of(all).contains(k) == keys_of(lines).union(keys_of(more)).contains(k) by {
        if keys_of(all).contains(k) {
            let i = choose|i: int| 0 <= i < all.len() && row_key(#[trigger] all[i]) == Some(k);
            if i < lines.len() {
                assert(lines[i] == all[i]);
            } else {
                assert(more[i - lines.len()] == all[i]);
            }
        }
        if keys_of(lines).contains(k) {
            let i = choose|i: int| 0 <= i < lines.len() && row_key(#[trigger] lines[i]) == Some(k);
            assert(all[i] == lines[i]);
        }
        if keys_of(more).contains(k) {
            let i = choose|i: int| 0 <= i < more.len() && row_key(#[trigger] more[i]) == Some(k);
            assert(all[i + lines.len()] == more[i]);
        }
    }
    assert(keys_of(all) =~= keys_of(lines).union(keys_of(more)));
}

/// The key of a trade is its symbol and its id.
pub proof fn law_key_of_trade(x: trade::TradeView, y: trade::TradeView)
    ensures
        key_of(x) == key_of(y) <==> x.s == y.s && x.a == y.a,
        key_of(x).0 == x.s,
        key_of(x).1 == x.a,
{
}

} // verus!
