//! Turning the lines of a trade file into output rows: each key is written once,
//! and no more rows than asked for.
use crate::json;
use crate::seen;
use crate::text;
use crate::trade;
use vstd::prelude::*;

verus! {

/// What is carried from file to file: the keys that need not be written again,
/// the number of rows written and their limit, zero for none.
pub struct Ingest {
    pub seen: seen::SeenKeys,
    pub total: usize,
    pub max_rows: usize,
}

#[verifier::ext_equal]
pub struct IngestView {
    pub seen: Set<(Seq<char>, int)>,
    pub total: int,
    pub max_rows: int,
}

impl View for Ingest {
    type V = IngestView;

    open spec fn view(&self) -> IngestView {
        IngestView {
            seen: self.seen@,
            total: self.total as int,
            max_rows: self.max_rows as int,
        }
    }
}

/// The rows written from one file, and whether the limit stopped it.
#[derive(Clone, Copy)]
pub struct DayTally {
    pub rows: usize,
    pub hit_limit: bool,
}

/// What became of some lines: the rows to write, and the fault of the line that
/// ended them, if one did.
pub struct Batch {
    pub rows: Vec<String>,
    pub fault: Option<trade::RowFault>,
}

impl Ingest {
    /// Nothing written yet.
    pub fn new(seen: seen::SeenKeys, max_rows: usize) -> (r: Ingest)
        ensures
            r@ == (IngestView { seen: seen@, total: 0, max_rows: max_rows as int }),
    {
        Ingest { seen, total: 0, max_rows }
    }
}

impl DayTally {
    /// Nothing written from this file yet.
    pub fn new() -> (r: DayTally)
        ensures
            r.rows == 0,
            !r.hit_limit,
    {
        DayTally { rows: 0, hit_limit: false }
    }
}

/// The trade of a line that is to be written: one whose key is not there yet.
pub open spec fn fresh_trade(
    symbol: Seq<char>,
    line: Seq<char>,
    known: Set<(Seq<char>, int)>,
) -> Result<Option<trade::TradeView>, trade::RowFaultView> {
    match trade::read_row(symbol, line) {
        Err(e) => Err(e),
        Ok(None) => Ok(None),
        Ok(Some(x)) => if known.contains(seen::key_of(x)) {
            Ok(None)
        } else {
            Ok(Some(x))
        },
    }
}

impl IngestView {
    /// The state after a trade has been written.
    pub open spec fn with(self, x: trade::TradeView) -> IngestView {
        IngestView { seen: self.seen.insert(seen::key_of(x)), total: self.total + 1, ..self }
    }

    /// The limit has been reached.
    pub open spec fn is_full(self) -> bool {
        self.max_rows > 0 && self.total >= self.max_rows
    }
}

/// What becomes of some lines.
#[verifier::ext_equal]
pub struct Outcome {
    pub written: Seq<trade::TradeView>,
    pub state: IngestView,
    pub fault: Option<trade::RowFaultView>,
    pub stopped: bool,
}

impl Outcome {
    pub open spec fn after(self, written: Seq<trade::TradeView>) -> Outcome {
        Outcome { written: written + self.written, ..self }
    }
}

/// Takes the lines one after the other, until one has a fault or the limit is
/// reached.
pub open spec fn ingest(symbol: Seq<char>, lines: Seq<Seq<char>>, st: IngestView) -> Outcome
    decreases lines.len(),
{
    if lines.len() == 0 {
        Outcome { written: Seq::empty(), state: st, fault: None, stopped: false }
    } else {
        match fresh_trade(symbol, lines[0], st.seen) {
            Err(e) => Outcome { written: Seq::empty(), state: st, fault: Some(e), stopped: false },
            Ok(None) => ingest(symbol, lines.drop_first(), st),
            Ok(Some(x)) => if st.with(x).is_full() {
                Outcome { written: seq![x], state: st.with(x), fault: None, stopped: true }
            } else {
                ingest(symbol, lines.drop_first(), st.with(x)).after(seq![x])
            },
        }
    }
}

/// The rows of some trades.
pub open spec fn rows_of(v: Seq<trade::TradeView>) -> Seq<Seq<char>> {
    Seq::new(v.len(), |i: int| json::json_row(v[i]))
}

pub open spec fn fault_view(f: Option<trade::RowFault>) -> Option<trade::RowFaultView> {
    match f {
        Some(e) => Some(e@),
        None => None,
    }
}

proof fn lemma_fault(
    symbol: Seq<char>,
    lines: Seq<Seq<char>>,
    i: int,
    st: IngestView,
    written: Seq<trade::TradeView>,
    e: trade::RowFaultView,
)
    requires
        0 <= i < lines.len(),
        fresh_trade(symbol, lines[i], st.seen) == Err::<
            Option<trade::TradeView>,
            trade::RowFaultView,
        >(e),
    ensures
        ingest(symbol, lines.skip(i), st).after(written) == (Outcome {
            written,
            state: st,
            fault: Some(e),
            stopped: false,
        }),
{
    assert(written + Seq::<trade::TradeView>::empty() =~= written);
}

proof fn lemma_skip(
    symbol: Seq<char>,
    lines: Seq<Seq<char>>,
    i: int,
    st: IngestView,
    written: Seq<trade::TradeView>,
)
    requires
        0 <= i < lines.len(),
        fresh_trade(symbol, lines[i], st.seen) == Ok::<
            Option<trade::TradeView>,
            trade::RowFaultView,
        >(None),
    ensures
        ingest(symbol, lines.skip(i), st).after(written) == ingest(
            symbol,
            lines.skip(i + 1),
            st,
        ).after(written),
{
    assert(lines.skip(i).drop_first() =~= lines.skip(i + 1));
}

proof fn lemma_write(
    symbol: Seq<char>,
    lines: Seq<Seq<char>>,
    i: int,
    st: IngestView,
    written: Seq<trade::TradeView>,
    x: trade::TradeView,
)
    requires
        0 <= i < lines.len(),
        fresh_trade(symbol, lines[i], st.seen) == Ok::<
            Option<trade::TradeView>,
            trade::RowFaultView,
        >(Some(x)),
    ensures
        ingest(symbol, lines.skip(i), st).after(written) == if st.with(x).is_full() {
            Outcome {
                written: written.push(x),
                state: st.with(x),
                fault: None,
                stopped: true,
            }
        } else {
            ingest(symbol, lines.skip(i + 1), st.with(x)).after(written.push(x))
        },
        rows_of(written.push(x)) == rows_of(written).push(json::json_row(x)),
{
    assert(lines.skip(i).drop_first() =~= lines.skip(i + 1));
    let rest = ingest(symbol, lines.skip(i + 1), st.with(x));
    assert(written + (seq![x] + rest.written) =~= written.push(x) + rest.written);
    assert(written + seq![x] =~= written.push(x));
    assert(rows_of(written.push(x)) =~= rows_of(written).push(json::json_row(x)));
}

impl Ingest {
    /// Takes one line: gives the trade to write, if the line has one that is not
    /// there yet, and counts it as written.
    pub fn process_line(&mut self, symbol: &str, line: &str) -> (r: Result<
        Option<trade::AggTrade>,
        trade::RowFault,
    >)
        requires
            old(self).total < usize::MAX,
        ensures
            match r {
                Err(e) => fresh_trade(symbol@, line@, old(self)@.seen) == Err::<
                    Option<trade::TradeView>,
                    trade::RowFaultView,
                >(e@) && final(self)@ == old(self)@,
                Ok(None) => fresh_trade(symbol@, line@, old(self)@.seen) == Ok::<
                    Option<trade::TradeView>,
                    trade::RowFaultView,
                >(None) && final(self)@ == old(self)@,
                Ok(Some(x)) => fresh_trade(symbol@, line@, old(self)@.seen) == Ok::<
                    Option<trade::TradeView>,
                    trade::RowFaultView,
                >(Some(x@)) && final(self)@ == old(self)@.with(x@),
            },
    {
        match trade::row_of(symbol, line) {
            Err(e) => Err(e),
            Ok(None) => Ok(None),
            Ok(Some(x)) => {
                if self.seen.contains(x.s.as_str(), x.a) {
                    return Ok(None);
                }
                self.seen.insert(x.s.clone(), x.a);
                self.total = self.total + 1;
                assert(self@ =~= old(self)@.with(x@));
                Ok(Some(x))
            },
        }
    }

    /// Takes lines of the trade file of a symbol, until one has a fault or the
    /// limit is reached, and gives the rows to write.
    pub fn process_lines(&mut self, symbol: &str, lines: &Vec<String>, day: &mut DayTally) -> (r:
        Batch)
        requires
            old(self).total + lines@.len() <= usize::MAX,
            old(day).rows + lines@.len() <= usize::MAX,
        ensures
            ({
                let o = ingest(symbol@, text::texts(lines@), old(self)@);
                &&& text::texts(r.rows@) == rows_of(o.written)
                &&& fault_view(r.fault) == o.fault
                &&& final(self)@ == o.state
                &&& final(day).rows == old(day).rows + o.written.len()
                &&& final(day).hit_limit == o.stopped
            }),
    {
        let ghost all = text::texts(lines@);
        let ghost st0 = self@;
        let ghost rows0 = day.rows;
        let ghost o = ingest(symbol@, all, st0);
        let ghost mut written: Seq<trade::TradeView> = Seq::empty();
        let mut rows: Vec<String> = Vec::new();
        day.hit_limit = false;
        let mut i: usize = 0;
        proof {
            assert(all.skip(0) =~= all);
            assert(Seq::<trade::TradeView>::empty() + o.written =~= o.written);
            assert(text::texts(rows@) =~= rows_of(written));
        }
        while i < lines.len()
            invariant
                i <= lines@.len(),
                all == text::texts(lines@),
                st0 == old(self)@,
                rows0 == old(day).rows,
                o == ingest(symbol@, all, st0),
                o == ingest(symbol@, all.skip(i as int), self@).after(written),
                text::texts(rows@) == rows_of(written),
                written.len() <= i,
                self.total == st0.total + written.len(),
                day.rows == rows0 + written.len(),
                !day.hit_limit,
                st0.total + lines@.len() <= usize::MAX,
                rows0 + lines@.len() <= usize::MAX,
            decreases lines@.len() - i,
        {
            let ghost st = self@;
            assert(all[i as int] == lines@[i as int]@);
            match self.process_line(symbol, lines[i].as_str()) {
                Err(e) => {
                    proof {
                        lemma_fault(symbol@, all, i as int, st, written, e@);
                    }
                    return Batch { rows, fault: Some(e) };
                },
                Ok(None) => {
                    proof {
                        lemma_skip(symbol@, all, i as int, st, written);
                    }
                },
                Ok(Some(x)) => {
                    let ghost rows1 = rows@;
                    rows.push(json::to_json_line(&x));
                    day.rows = day.rows + 1;
                    proof {
                        assert(text::texts(rows@) =~= text::texts(rows1).push(json::json_row(x@)));
                        lemma_write(symbol@, all, i as int, st, written, x@);
                        written = written.push(x@);
                    }
                    if self.max_rows > 0 && self.total >= self.max_rows {
                        day.hit_limit = true;
                        return Batch { rows, fault: None };
                    }
                },
            }
            i = i + 1;
        }
        proof {
            assert(all.skip(i as int).len() == 0);
            assert(written + Seq::<trade::TradeView>::empty() =~= written);
        }
        Batch { rows, fault: None }
    }
}

/// The message for an archive that could not be read to its end.
pub open spec fn unzip_failure(quoted_path: Seq<char>, status: Seq<char>) -> Seq<char> {
    "unzip failed for "@ + quoted_path + ": status="@ + status
}

/// A failure of the unpacking counts, unless the limit had ended the reading.
pub open spec fn unzip_fails(success: bool, hit_limit: bool) -> bool {
    !success && !hit_limit
}

/// Closes a file: a failure of the unpacking counts unless the limit had ended
/// the reading before.
pub fn finish_zip(success: bool, day: &DayTally, quoted_path: &str, status: &str) -> (r: Result<
    (usize, bool),
    String,
>)
    ensures
        match r {
            Ok((rows, hit)) => !unzip_fails(success, day.hit_limit) && rows == day.rows && hit
                == day.hit_limit,
            Err(e) => unzip_fails(success, day.hit_limit) && e@ == unzip_failure(
                quoted_path@,
                status@,
            ),
        },
{
    if !success && !day.hit_limit {
        let mut e = "unzip failed for ".to_owned();
        e.append(quoted_path);
        e.append(": status=");
        e.append(status);
        return Err(e);
    }
    Ok((day.rows, day.hit_limit))
}

// ---------------------------------------------------------------------------
// Laws

/// The keys of some trades.
pub open spec fn trade_keys(v: Seq<trade::TradeView>) -> Set<(Seq<char>, int)> {
    Set::new(
        |k: (Seq<char>, int)| exists|i: int| 0 <= i < v.len() && seen::key_of(#[trigger] v[i]) == k,
    )
}

proof fn lemma_keys_cons(x: trade::TradeView, v: Seq<trade::TradeView>)
    ensures
        trade_keys(seq![x] + v) == trade_keys(v).insert(seen::key_of(x)),
{
    let w = seq![x] + v;
    assert forall|k: (Seq<char>, int)|
        trade_keys(w).contains(k) == trade_keys(v).insert(seen::key_of(x)).contains(k) by {
        if trade_keys(w).contains(k) {
            let i = choose|i: int| 0 <= i < w.len() && seen::key_of(#[trigger] w[i]) == k;
            if i > 0 {
                assert(v[i - 1] == w[i]);
            }
        }
        if trade_keys(v).contains(k) {
            let i = choose|i: int| 0 <= i < v.len() && seen::key_of(#[trigger] v[i]) == k;
            assert(w[i + 1] == v[i]);
        }
        if k == seen::key_of(x) {
            assert(w[0] == x);
        }
    }
    assert(trade_keys(w) =~= trade_keys(v).insert(seen::key_of(x)));
}

/// Each key is written at most once, and never one that was there before; what
/// was written is known afterwards, and counted.
pub proof fn law_each_key_once(symbol: Seq<char>, lines: Seq<Seq<char>>, st: IngestView)
    ensures
        ({
            let o = ingest(symbol, lines, st);
            let w = o.written;
            &&& forall|i: int|
                0 <= i < w.len() ==> !st.seen.contains(seen::key_of(#[trigger] w[i]))
            &&& forall|i: int, j: int|
                0 <= i < j < w.len() ==> seen::key_of(#[trigger] w[i]) != seen::key_of(
                    #[trigger] w[j],
                )
            &&& o.state.seen == st.seen.union(trade_keys(w))
            &&& o.state.total == st.total + w.len()
            &&& o.state.max_rows == st.max_rows
        }),
    decreases lines.len(),
{
    let o = ingest(symbol, lines, st);
    let none = Seq::<trade::TradeView>::empty();
    assert(trade_keys(none) =~= Set::<(Seq<char>, int)>::empty());
    if lines.len() > 0 {
        match fresh_trade(symbol, lines[0], st.seen) {
            Err(e) => {},
            Ok(None) => {
                law_each_key_once(symbol, lines.drop_first(), st);
            },
            Ok(Some(x)) => {
                lemma_keys_cons(x, none);
                assert(seq![x] + none =~= seq![x]);
                if !st.with(x).is_full() {
                    let rest = ingest(symbol, lines.drop_first(), st.with(x));
                    law_each_key_once(symbol, lines.drop_first(), st.with(x));
                    lemma_keys_cons(x, rest.written);
                    let w = o.written;
                    assert(w == seq![x] + rest.written);
                    assert forall|i: int| 0 <= i < w.len() implies !st.seen.contains(
                        seen::key_of(#[trigger] w[i]),
                    ) by {
                        if i > 0 {
                            assert(w[i] == rest.written[i - 1]);
                        }
                    }
                    assert forall|i: int, j: int| 0 <= i < j < w.len() implies seen::key_of(
                        #[trigger] w[i],
                    ) != seen::key_of(#[trigger] w[j]) by {
                        assert(w[j] == rest.written[j - 1]);
                        if i > 0 {
                            assert(w[i] == rest.written[i - 1]);
                        }
                    }
                }
            },
        }
    }
    assert(o.state.seen =~= st.seen.union(trade_keys(o.written)));
}

/// Every row that is written is that of a trade of the symbol.
pub proof fn law_written_are_trades_of_symbol(
    symbol: Seq<char>,
    lines: Seq<Seq<char>>,
    st: IngestView,
)
    ensures
        forall|i: int|
            0 <= i < ingest(symbol, lines, st).written.len() ==> trade::is_trade(
                #[trigger] ingest(symbol, lines, st).written[i],
            ) && ingest(symbol, lines, st).written[i].s == symbol,
    decreases lines.len(),
{
    if lines.len() > 0 {
        trade::law_row_is_trade_of_symbol(symbol, lines[0]);
        match fresh_trade(symbol, lines[0], st.seen) {
            Err(e) => {},
            Ok(None) => {
                law_written_are_trades_of_symbol(symbol, lines.drop_first(), st);
            },
            Ok(Some(x)) => {
                law_written_are_trades_of_symbol(symbol, lines.drop_first(), st.with(x));
            },
        }
    }
}

/// A limit that was not reached before is never exceeded, and reaching it is
/// what stops the reading.
pub proof fn law_limit_is_kept(symbol: Seq<char>, lines: Seq<Seq<char>>, st: IngestView)
    requires
        !st.is_full(),
    ensures
        ({
            let o = ingest(symbol, lines, st);
            &&& st.max_rows > 0 ==> o.state.total <= st.max_rows
            &&& o.stopped <==> o.state.is_full()
            &&& o.stopped ==> o.state.total == st.max_rows && o.fault is None
        }),
    decreases lines.len(),
{
    if lines.len() > 0 {
        match fresh_trade(symbol, lines[0], st.seen) {
            Err(e) => {},
            Ok(None) => {
                law_limit_is_kept(symbol, lines.drop_first(), st);
            },
            Ok(Some(x)) => {
                if !st.with(x).is_full() {
                    law_limit_is_kept(symbol, lines.drop_first(), st.with(x));
                }
            },
        }
    }
}

/// Lines may be taken in portions: what follows is taken as if there had been
/// one portion.
pub proof fn law_portions(
    symbol: Seq<char>,
    first: Seq<Seq<char>>,
    second: Seq<Seq<char>>,
    st: IngestView,
)
    ensures
        ({
            let o = ingest(symbol, first, st);
            ingest(symbol, first + second, st) == if o.stopped || o.fault is Some {
                o
            } else {
                ingest(symbol, second, o.state).after(o.written)
            }
        }),
    decreases first.len(),
{
    let all = first + second;
    if first.len() == 0 {
        assert(all =~= second);
        let o = ingest(symbol, second, st);
        assert(Seq::<trade::TradeView>::empty() + o.written =~= o.written);
    } else {
        assert(all.drop_first() =~= first.drop_first() + second);
        assert(all[0] == first[0]);
        match fresh_trade(symbol, first[0], st.seen) {
            Err(e) => {},
            Ok(None) => {
                law_portions(symbol, first.drop_first(), second, st);
            },
            Ok(Some(x)) => {
                if !st.with(x).is_full() {
                    law_portions(symbol, first.drop_first(), second, st.with(x));
                    let o = ingest(symbol, first.drop_first(), st.with(x));
                    let p = ingest(symbol, second, o.state);
                    assert(seq![x] + (o.written + p.written) =~= (seq![x] + o.written)
                        + p.written);
                }
            },
        }
    }
}

/// The state of an unlimited run.
pub open spec fn unlimited(known: Set<(Seq<char>, int)>) -> IngestView {
    IngestView { seen: known, total: 0, max_rows: 0 }
}

proof fn lemma_unlimited_total(
    symbol: Seq<char>,
    lines: Seq<Seq<char>>,
    st: IngestView,
    su: IngestView,
)
    requires
        st.max_rows == 0,
        su.max_rows == 0,
        st.seen == su.seen,
    ensures
        ingest(symbol, lines, st).written == ingest(symbol, lines, su).written,
        ingest(symbol, lines, st).fault == ingest(symbol, lines, su).fault,
    decreases lines.len(),
{
    if lines.len() > 0 {
        match fresh_trade(symbol, lines[0], st.seen) {
            Err(e) => {},
            Ok(None) => {
                lemma_unlimited_total(symbol, lines.drop_first(), st, su);
            },
            Ok(Some(x)) => {
                lemma_unlimited_total(symbol, lines.drop_first(), st.with(x), su.with(x));
            },
        }
    }
}

/// A run that met no fault, followed by an unlimited run over the same lines
/// that knows what the first one knew and wrote, together write what one
/// unlimited run writes.
pub proof fn law_second_run_completes_first(
    symbol: Seq<char>,
    lines: Seq<Seq<char>>,
    st: IngestView,
)
    requires
        ingest(symbol, lines, st).fault is None,
    ensures
        ({
            let first = ingest(symbol, lines, st);
            let second = ingest(symbol, lines, unlimited(st.seen.union(trade_keys(first.written))));
            let single = ingest(symbol, lines, unlimited(st.seen));
            &&& single.written == first.written + second.written
            &&& single.fault == second.fault
        }),
    decreases lines.len(),
{
    let first = ingest(symbol, lines, st);
    let known = st.seen.union(trade_keys(first.written));
    let none = Seq::<trade::TradeView>::empty();
    assert(trade_keys(none) =~= Set::<(Seq<char>, int)>::empty());
    if lines.len() == 0 {
        assert(none + none =~= none);
    } else {
        let rest = lines.drop_first();
        match fresh_trade(symbol, lines[0], st.seen) {
            Err(e) => {},
            Ok(None) => {
                law_second_run_completes_first(symbol, rest, st);
            },
            Ok(Some(x)) => {
                let st1 = st.with(x);
                let start = unlimited(st.seen);
                lemma_unlimited_total(symbol, rest, start.with(x), unlimited(st1.seen));
                if st1.is_full() {
                    lemma_keys_cons(x, none);
                    assert(seq![x] + none =~= seq![x]);
                    assert(known =~= st1.seen);
                } else {
                    let tail = ingest(symbol, rest, st1);
                    law_second_run_completes_first(symbol, rest, st1);
                    lemma_keys_cons(x, tail.written);
                    assert(known =~= st1.seen.union(trade_keys(tail.written)));
                    let second = ingest(symbol, rest, unlimited(known));
                    assert(seq![x] + (tail.written + second.written) =~= (seq![x] + tail.written)
                        + second.written);
                }
                assert(known.contains(seen::key_of(x)));
            },
        }
    }
}

/// The keys that are read back from the rows of trades with a plain symbol are
/// the keys of the trades.
pub proof fn law_rows_give_back_keys(v: Seq<trade::TradeView>)
    requires
        forall|i: int|
            0 <= i < v.len() ==> trade::is_trade(#[trigger] v[i]) && json::is_plain(v[i].s),
    ensures
        seen::keys_of(rows_of(v)) == trade_keys(v),
{
    assert forall|k: (Seq<char>, int)|
        seen::keys_of(rows_of(v)).contains(k) == trade_keys(v).contains(k) by {
        if seen::keys_of(rows_of(v)).contains(k) {
            let i = choose|i: int|
                0 <= i < rows_of(v).len() && seen::row_key(#[trigger] rows_of(v)[i]) == Some(k);
            assert(trade::is_trade(v[i]));
            seen::law_row_is_known_by_its_key(v[i]);
            assert(seen::key_of(v[i]) == k);
        }
        if trade_keys(v).contains(k) {
            let i = choose|i: int| 0 <= i < v.len() && seen::key_of(#[trigger] v[i]) == k;
            assert(trade::is_trade(v[i]));
            seen::law_row_is_known_by_its_key(v[i]);
            assert(rows_of(v)[i] == json::json_row(v[i]));
        }
    }
    assert(seen::keys_of(rows_of(v)) =~= trade_keys(v));
}

/// Resuming: where the symbol is plain, a run that knows what the first one knew
/// and the keys read back from the rows that it wrote adds exactly what the
/// first one left out, and nothing where the first one had come to the end.
pub proof fn law_resume_adds_what_is_missing(
    symbol: Seq<char>,
    lines: Seq<Seq<char>>,
    st: IngestView,
)
    requires
        json::is_plain(symbol),
        ingest(symbol, lines, st).fault is None,
    ensures
        ({
            let first = ingest(symbol, lines, st);
            let known = st.seen.union(seen::keys_of(rows_of(first.written)));
            let second = ingest(symbol, lines, unlimited(known));
            &&& ingest(symbol, lines, unlimited(st.seen)).written == first.written + second.written
            &&& !first.stopped ==> second.written.len() == 0
        }),
{
    let first = ingest(symbol, lines, st);
    law_written_are_trades_of_symbol(symbol, lines, st);
    assert forall|i: int| 0 <= i < first.written.len() implies trade::is_trade(
        #[trigger] first.written[i],
    ) && json::is_plain(first.written[i].s) by {
        assert(first.written[i].s == symbol);
    }
    law_rows_give_back_keys(first.written);
    law_second_run_completes_first(symbol, lines, st);
    if !first.stopped {
        lemma_unstopped_is_unlimited(symbol, lines, st);
        let second = ingest(
            symbol,
            lines,
            unlimited(st.seen.union(trade_keys(first.written))),
        );
        assert((first.written + second.written).len() == first.written.len()
            + second.written.len());
    }
}

proof fn lemma_unstopped_is_unlimited(
    symbol: Seq<char>,
    lines: Seq<Seq<char>>,
    st: IngestView,
)
    requires
        !ingest(symbol, lines, st).stopped,
    ensures
        ingest(symbol, lines, unlimited(st.seen)).written == ingest(symbol, lines, st).written,
    decreases lines.len(),
{
    if lines.len() > 0 {
        let rest = lines.drop_first();
        match fresh_trade(symbol, lines[0], st.seen) {
            Err(e) => {},
            Ok(None) => {
                lemma_unstopped_is_unlimited(symbol, rest, st);
            },
            Ok(Some(x)) => {
                lemma_unstopped_is_unlimited(symbol, rest, st.with(x));
                lemma_unlimited_total(
                    symbol,
                    rest,
                    unlimited(st.seen).with(x),
                    unlimited(st.with(x).seen),
                );
            },
        }
    }
}

/// The keys of all the trades in some lines of the file of a symbol.
pub open spec fn line_keys(symbol: Seq<char>, lines: Seq<Seq<char>>) -> Set<(Seq<char>, int)> {
    Set::new(
        |k: (Seq<char>, int)|
            exists|i: int|
                0 <= i < lines.len() && (trade::read_row(symbol, #[trigger] lines[i]) matches Ok(
                    Some(x),
                ) && seen::key_of(x) == k),
    )
}

proof fn lemma_line_keys_cons(symbol: Seq<char>, lines: Seq<Seq<char>>)
    requires
        lines.len() > 0,
    ensures
        line_keys(symbol, lines) == match trade::read_row(symbol, lines[0]) {
            Ok(Some(x)) => line_keys(symbol, lines.drop_first()).insert(seen::key_of(x)),
            _ => line_keys(symbol, lines.drop_first()),
        },
{
    let rest = lines.drop_first();
    let want = match trade::read_row(symbol, lines[0]) {
        Ok(Some(x)) => line_keys(symbol, rest).insert(seen::key_of(x)),
        _ => line_keys(symbol, rest),
    };
    assert forall|k: (Seq<char>, int)| line_keys(symbol, lines).contains(k) == want.contains(k) by {
        if line_keys(symbol, lines).contains(k) {
            let i = choose|i: int|
                0 <= i < lines.len() && (trade::read_row(symbol, #[trigger] lines[i]) matches Ok(
                    Some(x),
                ) && seen::key_of(x) == k);
            if i > 0 {
                assert(rest[i - 1] == lines[i]);
            }
        }
        if line_keys(symbol, rest).contains(k) {
            let i = choose|i: int|
                0 <= i < rest.len() && (trade::read_row(symbol, #[trigger] rest[i]) matches Ok(
                    Some(x),
                ) && seen::key_of(x) == k);
            assert(lines[i + 1] == rest[i]);
        }
        assert(lines[0] == lines[0]);
    }
    assert(line_keys(symbol, lines) =~= want);
}

/// Lines that are taken to their end leave nothing out: afterwards exactly the
/// keys known before and those of all their trades are known.
pub proof fn law_nothing_is_left_out(symbol: Seq<char>, lines: Seq<Seq<char>>, st: IngestView)
    requires
        !ingest(symbol, lines, st).stopped,
        ingest(symbol, lines, st).fault is None,
    ensures
        ingest(symbol, lines, st).state.seen == st.seen.union(line_keys(symbol, lines)),
    decreases lines.len(),
{
    let o = ingest(symbol, lines, st);
    if lines.len() == 0 {
        assert(line_keys(symbol, lines) =~= Set::<(Seq<char>, int)>::empty());
    } else {
        lemma_line_keys_cons(symbol, lines);
        match fresh_trade(symbol, lines[0], st.seen) {
            Err(e) => {},
            Ok(None) => {
                law_nothing_is_left_out(symbol, lines.drop_first(), st);
            },
            Ok(Some(x)) => {
                law_nothing_is_left_out(symbol, lines.drop_first(), st.with(x));
            },
        }
    }
    assert(o.state.seen =~= st.seen.union(line_keys(symbol, lines)));
}

// ---------------------------------------------------------------------------
// Several files

/// Takes files, each with its symbol, one after the other, until a line has a
/// fault or the limit is reached.
pub open spec fn ingest_files(files: Seq<(Seq<char>, Seq<Seq<char>>)>, st: IngestView) -> Outcome
    decreases files.len(),
{
    if files.len() == 0 {
        Outcome { written: Seq::empty(), state: st, fault: None, stopped: false }
    } else {
        let o = ingest(files[0].0, files[0].1, st);
        if o.stopped || o.fault is Some {
            o
        } else {
            ingest_files(files.drop_first(), o.state).after(o.written)
        }
    }
}

/// The keys of all the trades in some files.
pub open spec fn file_keys(files: Seq<(Seq<char>, Seq<Seq<char>>)>) -> Set<(Seq<char>, int)>
    decreases files.len(),
{
    if files.len() == 0 {
        Set::empty()
    } else {
        line_keys(files[0].0, files[0].1).union(file_keys(files.drop_first()))
    }
}

/// No two of the trades have the same key, and none has a known one.
pub open spec fn all_new(v: Seq<trade::TradeView>, known: Set<(Seq<char>, int)>) -> bool {
    &&& forall|i: int| 0 <= i < v.len() ==> !known.contains(seen::key_of(#[trigger] v[i]))
    &&& forall|i: int, j: int|
        0 <= i < j < v.len() ==> seen::key_of(#[trigger] v[i]) != seen::key_of(#[trigger] v[j])
}

proof fn lemma_keys_append(v: Seq<trade::TradeView>, w: Seq<trade::TradeView>)
    ensures
        trade_keys(v + w) == trade_keys(v).union(trade_keys(w)),
    decreases v.len(),
{
    if v.len() == 0 {
        assert(v + w =~= w);
        assert(trade_keys(v) =~= Set::<(Seq<char>, int)>::empty());
        assert(trade_keys(v).union(trade_keys(w)) =~= trade_keys(w));
    } else {
        let t = v.drop_first();
        lemma_keys_append(t, w);
        lemma_keys_cons(v[0], t);
        lemma_keys_cons(v[0], t + w);
        assert(v =~= seq![v[0]] + t);
        assert(v + w =~= seq![v[0]] + (t + w));
        assert(trade_keys(v + w) =~= trade_keys(v).union(trade_keys(w)));
    }
}

proof fn lemma_new_append(
    v: Seq<trade::TradeView>,
    w: Seq<trade::TradeView>,
    known: Set<(Seq<char>, int)>,
)
    requires
        all_new(v, known),
        all_new(w, known.union(trade_keys(v))),
    ensures
        all_new(v + w, known),
{
    let all = v + w;
    assert forall|i: int| 0 <= i < all.len() implies !known.contains(
        seen::key_of(#[trigger] all[i]),
    ) by {
        if i < v.len() {
            assert(all[i] == v[i]);
        } else {
            assert(all[i] == w[i - v.len()]);
        }
    }
    assert forall|i: int, j: int| 0 <= i < j < all.len() implies seen::key_of(#[trigger] all[i])
        != seen::key_of(#[trigger] all[j]) by {
        if j < v.len() {
            assert(all[i] == v[i] && all[j] == v[j]);
        } else if i < v.len() {
            assert(all[i] == v[i] && all[j] == w[j - v.len()]);
            assert(trade_keys(v).contains(seen::key_of(v[i])));
        } else {
            assert(all[i] == w[i - v.len()] && all[j] == w[j - v.len()]);
        }
    }
}

/// Over several files, too, each key is written at most once and never one that
/// was there before, every row is that of a trade of the symbol of its file, and
/// what was written is known afterwards, and counted.
pub proof fn law_files_each_key_once(files: Seq<(Seq<char>, Seq<Seq<char>>)>, st: IngestView)
    ensures
        ({
            let o = ingest_files(files, st);
            &&& all_new(o.written, st.seen)
            &&& o.state.seen == st.seen.union(trade_keys(o.written))
            &&& o.state.total == st.total + o.written.len()
            &&& o.state.max_rows == st.max_rows
            &&& forall|i: int|
                0 <= i < o.written.len() ==> trade::is_trade(#[trigger] o.written[i]) && exists|
                    j: int,
                |
                    0 <= j < files.len() && (#[trigger] files[j]).0 == o.written[i].s
        }),
    decreases files.len(),
{
    let all = ingest_files(files, st);
    let none = Seq::<trade::TradeView>::empty();
    assert(trade_keys(none) =~= Set::<(Seq<char>, int)>::empty());
    if files.len() == 0 {
        assert(st.seen.union(trade_keys(none)) =~= st.seen);
    } else {
        let o = ingest(files[0].0, files[0].1, st);
        law_each_key_once(files[0].0, files[0].1, st);
        law_written_are_trades_of_symbol(files[0].0, files[0].1, st);
        assert(all_new(o.written, st.seen));
        if !(o.stopped || o.fault is Some) {
            let rest = files.drop_first();
            let p = ingest_files(rest, o.state);
            law_files_each_key_once(rest, o.state);
            lemma_new_append(o.written, p.written, st.seen);
            lemma_keys_append(o.written, p.written);
            assert(st.seen.union(trade_keys(o.written)).union(trade_keys(p.written))
                =~= st.seen.union(trade_keys(all.written)));
            assert forall|i: int| 0 <= i < all.written.len() implies trade::is_trade(
                #[trigger] all.written[i],
            ) && exists|j: int|
                0 <= j < files.len() && (#[trigger] files[j]).0 == all.written[i].s by {
                if i < o.written.len() {
                    assert(all.written[i] == o.written[i]);
                    assert(files[0].0 == all.written[i].s);
                } else {
                    let x = p.written[i - o.written.len()];
                    assert(all.written[i] == x);
                    let j = choose|j: int| 0 <= j < rest.len() && (#[trigger] rest[j]).0 == x.s;
                    assert(files[j + 1] == rest[j]);
                }
            }
        } else {
            assert forall|i: int| 0 <= i < all.written.len() implies trade::is_trade(
                #[trigger] all.written[i],
            ) && exists|j: int|
                0 <= j < files.len() && (#[trigger] files[j]).0 == all.written[i].s by {
                assert(files[0].0 == o.written[i].s);
            }
        }
    }
}

/// Files that are taken to their end leave nothing out.
pub proof fn law_files_leave_nothing_out(files: Seq<(Seq<char>, Seq<Seq<char>>)>, st: IngestView)
    requires
        !ingest_files(files, st).stopped,
        ingest_files(files, st).fault is None,
    ensures
        ingest_files(files, st).state.seen == st.seen.union(file_keys(files)),
    decreases files.len(),
{
    if files.len() == 0 {
        assert(st.seen.union(Set::empty()) =~= st.seen);
    } else {
        let o = ingest(files[0].0, files[0].1, st);
        law_nothing_is_left_out(files[0].0, files[0].1, st);
        law_files_leave_nothing_out(files.drop_first(), o.state);
        assert(st.seen.union(line_keys(files[0].0, files[0].1)).union(
            file_keys(files.drop_first()),
        ) =~= st.seen.union(file_keys(files)));
    }
}

proof fn lemma_unlimited_never_stops(symbol: Seq<char>, lines: Seq<Seq<char>>, st: IngestView)
    requires
        st.max_rows == 0,
    ensures
        !ingest(symbol, lines, st).stopped,
        ingest(symbol, lines, st).state.max_rows == 0,
    decreases lines.len(),
{
    if lines.len() > 0 {
        match fresh_trade(symbol, lines[0], st.seen) {
            Err(e) => {},
            Ok(None) => {
                lemma_unlimited_never_stops(symbol, lines.drop_first(), st);
            },
            Ok(Some(x)) => {
                lemma_unlimited_never_stops(symbol, lines.drop_first(), st.with(x));
            },
        }
    }
}

/// Without a limit of rows nothing but a fault ends a run.
pub proof fn law_no_limit_no_stop(files: Seq<(Seq<char>, Seq<Seq<char>>)>, st: IngestView)
    requires
        st.max_rows == 0,
    ensures
        !ingest_files(files, st).stopped,
    decreases files.len(),
{
    if files.len() > 0 {
        lemma_unlimited_never_stops(files[0].0, files[0].1, st);
        law_no_limit_no_stop(
            files.drop_first(),
            ingest(files[0].0, files[0].1, st).state,
        );
    }
}

/// Resuming a run over several files with plain symbols: a second run that knows
/// what the first one knew and the keys read back from the rows that it wrote
/// writes none of them again. If it meets no fault, both together have written
/// every key of the files that was not known at first; and if the first one had
/// come to the end, the second one writes nothing.
pub proof fn law_resume_over_files(files: Seq<(Seq<char>, Seq<Seq<char>>)>, st: IngestView)
    requires
        forall|j: int| 0 <= j < files.len() ==> json::is_plain((#[trigger] files[j]).0),
    ensures
        ({
            let first = ingest_files(files, st);
            let known = st.seen.union(seen::keys_of(rows_of(first.written)));
            let second = ingest_files(files, unlimited(known));
            let both = first.written + second.written;
            &&& all_new(both, st.seen)
            &&& second.fault is None ==> st.seen.union(trade_keys(both)) == st.seen.union(
                file_keys(files),
            )
            &&& !first.stopped && first.fault is None ==> second.written.len() == 0
                && second.fault is None
        }),
{
    let first = ingest_files(files, st);
    law_files_each_key_once(files, st);
    assert forall|i: int| 0 <= i < first.written.len() implies trade::is_trade(
        #[trigger] first.written[i],
    ) && json::is_plain(first.written[i].s) by {
        let j = choose|j: int|
            0 <= j < files.len() && (#[trigger] files[j]).0 == first.written[i].s;
        assert(json::is_plain(files[j].0));
    }
    law_rows_give_back_keys(first.written);
    let known = st.seen.union(trade_keys(first.written));
    let second = ingest_files(files, unlimited(known));
    let both = first.written + second.written;
    law_files_each_key_once(files, unlimited(known));
    law_no_limit_no_stop(files, unlimited(known));
    lemma_new_append(first.written, second.written, st.seen);
    lemma_keys_append(first.written, second.written);
    if !first.stopped && first.fault is None {
        lemma_clean_files(files, st, unlimited(known));
    }
    if second.fault is None {
        law_files_leave_nothing_out(files, unlimited(known));
        lemma_written_are_of_files(files, st);
        assert(st.seen.union(trade_keys(both)) =~= known.union(trade_keys(second.written)));
        assert(known.union(file_keys(files)) =~= st.seen.union(file_keys(files)));
        if !first.stopped && first.fault is None {
            law_files_leave_nothing_out(files, st);
            assert(known.union(trade_keys(second.written)) =~= known);
            if second.written.len() > 0 {
                assert(trade_keys(second.written).contains(seen::key_of(second.written[0])));
                assert(known.contains(seen::key_of(second.written[0])));
            }
        }
    }
}

proof fn lemma_clean_lines(
    symbol: Seq<char>,
    lines: Seq<Seq<char>>,
    st: IngestView,
    su: IngestView,
)
    requires
        !ingest(symbol, lines, st).stopped,
        ingest(symbol, lines, st).fault is None,
    ensures
        ingest(symbol, lines, su).fault is None,
    decreases lines.len(),
{
    if lines.len() > 0 {
        let rest = lines.drop_first();
        let st1 = match fresh_trade(symbol, lines[0], st.seen) {
            Ok(Some(x)) => st.with(x),
            _ => st,
        };
        let su1 = match fresh_trade(symbol, lines[0], su.seen) {
            Ok(Some(x)) => su.with(x),
            _ => su,
        };
        lemma_clean_lines(symbol, rest, st1, su1);
    }
}

proof fn lemma_clean_files(
    files: Seq<(Seq<char>, Seq<Seq<char>>)>,
    st: IngestView,
    su: IngestView,
)
    requires
        !ingest_files(files, st).stopped,
        ingest_files(files, st).fault is None,
    ensures
        ingest_files(files, su).fault is None,
    decreases files.len(),
{
    if files.len() > 0 {
        let (symbol, lines) = files[0];
        lemma_clean_lines(symbol, lines, st, su);
        lemma_clean_files(
            files.drop_first(),
            ingest(symbol, lines, st).state,
            ingest(symbol, lines, su).state,
        );
    }
}

proof fn lemma_written_are_of_lines(symbol: Seq<char>, lines: Seq<Seq<char>>, st: IngestView)
    ensures
        trade_keys(ingest(symbol, lines, st).written).subset_of(line_keys(symbol, lines)),
    decreases lines.len(),
{
    let none = Seq::<trade::TradeView>::empty();
    assert(trade_keys(none) =~= Set::<(Seq<char>, int)>::empty());
    if lines.len() > 0 {
        lemma_line_keys_cons(symbol, lines);
        match fresh_trade(symbol, lines[0], st.seen) {
            Err(e) => {},
            Ok(None) => {
                lemma_written_are_of_lines(symbol, lines.drop_first(), st);
            },
            Ok(Some(x)) => {
                let rest = ingest(symbol, lines.drop_first(), st.with(x));
                lemma_written_are_of_lines(symbol, lines.drop_first(), st.with(x));
                lemma_keys_cons(x, rest.written);
                lemma_keys_cons(x, none);
                assert(seq![x] + none =~= seq![x]);
            },
        }
    }
}

proof fn lemma_written_are_of_files(files: Seq<(Seq<char>, Seq<Seq<char>>)>, st: IngestView)
    ensures
        trade_keys(ingest_files(files, st).written).subset_of(file_keys(files)),
    decreases files.len(),
{
    let none = Seq::<trade::TradeView>::empty();
    assert(trade_keys(none) =~= Set::<(Seq<char>, int)>::empty());
    if files.len() > 0 {
        let o = ingest(files[0].0, files[0].1, st);
        lemma_written_are_of_lines(files[0].0, files[0].1, st);
        if !(o.stopped || o.fault is Some) {
            lemma_written_are_of_files(files.drop_first(), o.state);
            lemma_keys_append(o.written, ingest_files(files.drop_first(), o.state).written);
        }
    }
}

// ---------------------------------------------------------------------------
// The limit over several files

impl IngestView {
    /// The same without a limit of rows.
    pub open spec fn without_limit(self) -> IngestView {
        IngestView { max_rows: 0, ..self }
    }

    /// The rows that may still be written.
    pub open spec fn room(self) -> int {
        self.max_rows - self.total
    }
}

/// The first `n` of some trades, or all of them if there are fewer.
pub open spec fn first_of(v: Seq<trade::TradeView>, n: int) -> Seq<trade::TradeView> {
    if n < v.len() {
        v.take(n)
    } else {
        v
    }
}

/// Over several files, too, a limit that was not reached before is never
/// exceeded, and reaching it is what stops the reading.
pub proof fn law_files_keep_limit(files: Seq<(Seq<char>, Seq<Seq<char>>)>, st: IngestView)
    requires
        !st.is_full(),
    ensures
        ({
            let o = ingest_files(files, st);
            &&& st.max_rows > 0 ==> o.state.total <= st.max_rows
            &&& o.stopped <==> o.state.is_full()
            &&& o.stopped ==> o.state.total == st.max_rows && o.fault is None
        }),
    decreases files.len(),
{
    if files.len() > 0 {
        let o = ingest(files[0].0, files[0].1, st);
        law_limit_is_kept(files[0].0, files[0].1, st);
        law_each_key_once(files[0].0, files[0].1, st);
        if !(o.stopped || o.fault is Some) {
            law_files_keep_limit(files.drop_first(), o.state);
        }
    }
}

/// What a limited run makes of some lines, held against an unlimited one.
spec fn is_cut(o: Outcome, r: Outcome, room: int) -> bool {
    &&& o.written == first_of(r.written, room)
    &&& o.stopped <==> r.written.len() >= room
    &&& o.fault == if o.stopped {
        None
    } else {
        r.fault
    }
    &&& !o.stopped ==> o.state.seen == r.state.seen
}

proof fn lemma_lines_cut(
    symbol: Seq<char>,
    lines: Seq<Seq<char>>,
    st: IngestView,
    su: IngestView,
)
    requires
        0 <= st.total < st.max_rows,
        su.max_rows == 0,
        st.seen == su.seen,
    ensures
        is_cut(ingest(symbol, lines, st), ingest(symbol, lines, su), st.room()),
    decreases lines.len(),
{
    if lines.len() > 0 {
        let rest = lines.drop_first();
        match fresh_trade(symbol, lines[0], st.seen) {
            Err(e) => {},
            Ok(None) => {
                lemma_lines_cut(symbol, rest, st, su);
            },
            Ok(Some(x)) => {
                let r = ingest(symbol, rest, su.with(x));
                if st.with(x).is_full() {
                    assert(first_of(seq![x] + r.written, 1) =~= seq![x]);
                } else {
                    lemma_lines_cut(symbol, rest, st.with(x), su.with(x));
                    assert(first_of(seq![x] + r.written, st.room()) =~= seq![x] + first_of(
                        r.written,
                        st.room() - 1,
                    ));
                }
            },
        }
    }
}

proof fn lemma_files_cut(
    files: Seq<(Seq<char>, Seq<Seq<char>>)>,
    st: IngestView,
    su: IngestView,
)
    requires
        0 <= st.total < st.max_rows,
        su.max_rows == 0,
        st.seen == su.seen,
    ensures
        is_cut(ingest_files(files, st), ingest_files(files, su), st.room()),
    decreases files.len(),
{
    if files.len() > 0 {
        let (symbol, lines) = files[0];
        let rest = files.drop_first();
        let o = ingest(symbol, lines, st);
        let r = ingest(symbol, lines, su);
        lemma_lines_cut(symbol, lines, st, su);
        lemma_unlimited_never_stops(symbol, lines, su);
        law_each_key_once(symbol, lines, st);
        law_limit_is_kept(symbol, lines, st);
        let more = ingest_files(rest, r.state).written;
        if o.stopped {
            assert(first_of(r.written + more, st.room()) =~= first_of(r.written, st.room()));
        } else if o.fault is None {
            lemma_files_cut(rest, o.state, r.state);
            assert(o.written == r.written);
            assert(first_of(r.written + more, st.room()) =~= r.written + first_of(
                more,
                st.room() - r.written.len(),
            ));
        }
    }
}

/// A limited run writes the first rows of the unlimited one, as many as the
/// limit leaves room for. It is stopped exactly where the unlimited one fills
/// that room; else it ends as the unlimited one does.
pub proof fn law_limit_takes_first_rows(files: Seq<(Seq<char>, Seq<Seq<char>>)>, st: IngestView)
    requires
        0 <= st.total < st.max_rows,
    ensures
        ({
            let o = ingest_files(files, st);
            let r = ingest_files(files, st.without_limit());
            &&& o.written == first_of(r.written, st.room())
            &&& o.stopped <==> r.written.len() >= st.room()
            &&& o.fault == if o.stopped {
                None
            } else {
                r.fault
            }
        }),
{
    lemma_files_cut(files, st, st.without_limit());
}

// ---------------------------------------------------------------------------
// What is written, line by line

/// The trade is what the line at `j` reads as, in every field, and its key is
/// neither known nor that of an earlier line.
pub open spec fn is_new_at(
    symbol: Seq<char>,
    lines: Seq<Seq<char>>,
    known: Set<(Seq<char>, int)>,
    j: int,
    x: trade::TradeView,
) -> bool {
    &&& 0 <= j < lines.len()
    &&& trade::read_row(symbol, lines[j]) == Ok::<Option<trade::TradeView>, trade::RowFaultView>(
        Some(x),
    )
    &&& !known.contains((x.s, x.a))
    &&& forall|i: int|
        0 <= i < j ==> (trade::read_row(symbol, #[trigger] lines[i]) matches Ok(Some(y)) ==> (
        y.s,
        y.a,
    ) != (x.s, x.a))
}

/// Each trade is new at its line, and the lines come one after the other.
pub open spec fn are_new_at(
    symbol: Seq<char>,
    lines: Seq<Seq<char>>,
    known: Set<(Seq<char>, int)>,
    places: Seq<int>,
    v: Seq<trade::TradeView>,
) -> bool {
    &&& places.len() == v.len()
    &&& forall|i: int|
        0 <= i < v.len() ==> is_new_at(symbol, lines, known, #[trigger] places[i], v[i])
    &&& forall|i: int, j: int|
        0 <= i < j < places.len() ==> #[trigger] places[i] < #[trigger] places[j]
}

proof fn lemma_new_behind(
    symbol: Seq<char>,
    lines: Seq<Seq<char>>,
    known: Set<(Seq<char>, int)>,
    more: Set<(Seq<char>, int)>,
    j: int,
    x: trade::TradeView,
)
    requires
        lines.len() > 0,
        is_new_at(symbol, lines.drop_first(), more, j, x),
        known.subset_of(more),
        trade::read_row(symbol, lines[0]) matches Ok(Some(y)) ==> more.contains((y.s, y.a)),
    ensures
        is_new_at(symbol, lines, known, j + 1, x),
{
    let rest = lines.drop_first();
    assert(rest[j] == lines[j + 1]);
    assert forall|i: int| 0 <= i < j + 1 implies (trade::read_row(
        symbol,
        #[trigger] lines[i],
    ) matches Ok(Some(y)) ==> (y.s, y.a) != (x.s, x.a)) by {
        if i > 0 {
            assert(rest[i - 1] == lines[i]);
        }
    }
}

proof fn lemma_places(symbol: Seq<char>, lines: Seq<Seq<char>>, st: IngestView) -> (places: Seq<int>)
    ensures
        are_new_at(symbol, lines, st.seen, places, ingest(symbol, lines, st).written),
    decreases lines.len(),
{
    if lines.len() == 0 {
        Seq::empty()
    } else {
        let rest = lines.drop_first();
        let w = ingest(symbol, lines, st).written;
        match fresh_trade(symbol, lines[0], st.seen) {
            Err(e) => Seq::empty(),
            Ok(None) => {
                let p = lemma_places(symbol, rest, st);
                let q = Seq::new(p.len(), |i: int| p[i] + 1);
                assert forall|i: int| 0 <= i < w.len() implies is_new_at(
                    symbol,
                    lines,
                    st.seen,
                    #[trigger] q[i],
                    w[i],
                ) by {
                    assert(is_new_at(symbol, rest, st.seen, p[i], w[i]));
                    lemma_new_behind(symbol, lines, st.seen, st.seen, p[i], w[i]);
                }
                assert forall|i: int, j: int| 0 <= i < j < q.len() implies #[trigger] q[i]
                    < #[trigger] q[j] by {
                    assert(p[i] < p[j]);
                }
                q
            },
            Ok(Some(x)) => {
                assert(is_new_at(symbol, lines, st.seen, 0, x));
                if st.with(x).is_full() {
                    seq![0int]
                } else {
                    let p = lemma_places(symbol, rest, st.with(x));
                    let v = ingest(symbol, rest, st.with(x)).written;
                    let q = seq![0int] + Seq::new(p.len(), |i: int| p[i] + 1);
                    assert(w == seq![x] + v);
                    assert forall|i: int| 0 <= i < w.len() implies is_new_at(
                        symbol,
                        lines,
                        st.seen,
                        #[trigger] q[i],
                        w[i],
                    ) by {
                        if i > 0 {
                            assert(w[i] == v[i - 1]);
                            assert(is_new_at(symbol, rest, st.with(x).seen, p[i - 1], v[i - 1]));
                            lemma_new_behind(
                                symbol,
                                lines,
                                st.seen,
                                st.with(x).seen,
                                p[i - 1],
                                v[i - 1],
                            );
                        }
                    }
                    assert forall|i: int, j: int| 0 <= i < j < q.len() implies #[trigger] q[i]
                        < #[trigger] q[j] by {
                        assert(is_new_at(symbol, rest, st.with(x).seen, p[j - 1], v[j - 1]));
                        if i > 0 {
                            assert(p[i - 1] < p[j - 1]);
                        }
                    }
                    q
                }
            },
        }
    }
}

/// What is written are trades that lines read as, in every field, in the order
/// of the lines, each at the first line with its key.
pub proof fn law_written_are_read(symbol: Seq<char>, lines: Seq<Seq<char>>, st: IngestView)
    ensures
        exists|places: Seq<int>|
            #[trigger] are_new_at(
                symbol,
                lines,
                st.seen,
                places,
                ingest(symbol, lines, st).written,
            ),
{
    let places = lemma_places(symbol, lines, st);
}

/// Where the lines are taken to their end, every trade that is new at its line
/// is written.
pub proof fn law_new_trades_are_written(
    symbol: Seq<char>,
    lines: Seq<Seq<char>>,
    st: IngestView,
    j: int,
    x: trade::TradeView,
)
    requires
        !ingest(symbol, lines, st).stopped,
        ingest(symbol, lines, st).fault is None,
        is_new_at(symbol, lines, st.seen, j, x),
    ensures
        ingest(symbol, lines, st).written.contains(x),
{
    let w = ingest(symbol, lines, st).written;
    law_nothing_is_left_out(symbol, lines, st);
    law_each_key_once(symbol, lines, st);
    assert(trade::read_row(symbol, lines[j]) matches Ok(Some(y)) && seen::key_of(y)
        == seen::key_of(x));
    assert(line_keys(symbol, lines).contains(seen::key_of(x)));
    assert(ingest(symbol, lines, st).state.seen.contains(seen::key_of(x)));
    assert(st.seen.union(trade_keys(w)).contains(seen::key_of(x)));
    assert(!st.seen.contains(seen::key_of(x)));
    assert(trade_keys(w).contains(seen::key_of(x)));
    let i = choose|i: int| 0 <= i < w.len() && seen::key_of(#[trigger] w[i]) == seen::key_of(x);
    let places = lemma_places(symbol, lines, st);
    assert(is_new_at(symbol, lines, st.seen, places[i], w[i]));
    if places[i] < j {
        assert(trade::read_row(symbol, lines[places[i]]) matches Ok(Some(y)) && (y.s, y.a) == (
            x.s,
            x.a,
        ));
    }
    if j < places[i] {
        assert(trade::read_row(symbol, lines[j]) matches Ok(Some(y)) && (y.s, y.a) == (
            w[i].s,
            w[i].a,
        ));
    }
    assert(w[i] == x);
}

/// The first line with a fault, if the limit does not end the reading before it,
/// ends it with that fault, and what the lines before it come to stands.
pub proof fn law_first_fault_ends_reading(
    symbol: Seq<char>,
    lines: Seq<Seq<char>>,
    st: IngestView,
    n: int,
)
    requires
        0 <= n < lines.len(),
        trade::read_row(symbol, lines[n]) is Err,
        !ingest(symbol, lines.take(n), st).stopped,
        ingest(symbol, lines.take(n), st).fault is None,
    ensures
        ({
            let o = ingest(symbol, lines, st);
            let p = ingest(symbol, lines.take(n), st);
            &&& o.fault == Some(trade::read_row(symbol, lines[n])->Err_0)
            &&& o.written == p.written
            &&& o.state == p.state
            &&& !o.stopped
        }),
{
    let p = ingest(symbol, lines.take(n), st);
    law_portions(symbol, lines.take(n), lines.skip(n), st);
    assert(lines.take(n) + lines.skip(n) =~= lines);
    assert(lines.skip(n)[0] == lines[n]);
    assert(p.written + Seq::<trade::TradeView>::empty() =~= p.written);
}

/// Lines without a fault end without one.
pub proof fn law_no_fault_without_cause(symbol: Seq<char>, lines: Seq<Seq<char>>, st: IngestView)
    requires
        forall|i: int|
            0 <= i < lines.len() ==> trade::read_row(symbol, #[trigger] lines[i]) is Ok,
    ensures
        ingest(symbol, lines, st).fault is None,
    decreases lines.len(),
{
    if lines.len() > 0 {
        let rest = lines.drop_first();
        assert(trade::read_row(symbol, lines[0]) is Ok);
        assert forall|i: int| 0 <= i < rest.len() implies trade::read_row(
            symbol,
            #[trigger] rest[i],
        ) is Ok by {
            assert(rest[i] == lines[i + 1]);
        }
        match fresh_trade(symbol, lines[0], st.seen) {
            Err(e) => {},
            Ok(None) => {
                law_no_fault_without_cause(symbol, rest, st);
            },
            Ok(Some(x)) => {
                law_no_fault_without_cause(symbol, rest, st.with(x));
            },
        }
    }
}

/// A limit that was reached before still lets one row through, the first one.
pub proof fn law_full_state_takes_one_row(
    symbol: Seq<char>,
    lines: Seq<Seq<char>>,
    st: IngestView,
)
    requires
        st.is_full(),
    ensures
        ({
            let o = ingest(symbol, lines, st);
            let r = ingest(symbol, lines, st.without_limit());
            &&& o.written == first_of(r.written, 1)
            &&& o.stopped <==> r.written.len() > 0
        }),
    decreases lines.len(),
{
    if lines.len() > 0 {
        let rest = lines.drop_first();
        match fresh_trade(symbol, lines[0], st.seen) {
            Err(e) => {},
            Ok(None) => {
                law_full_state_takes_one_row(symbol, rest, st);
            },
            Ok(Some(x)) => {
                let r = ingest(symbol, rest, st.without_limit().with(x));
                assert(first_of(seq![x] + r.written, 1) =~= seq![x]);
            },
        }
    }
}

/// One file is taken as files of one are; and each row is that of its trade.
pub proof fn law_one_file(symbol: Seq<char>, lines: Seq<Seq<char>>, st: IngestView)
    ensures
        ingest_files(seq![(symbol, lines)], st) == ingest(symbol, lines, st),
        rows_of(ingest(symbol, lines, st).written).len() == ingest(symbol, lines, st).written.len(),
        forall|i: int|
            0 <= i < ingest(symbol, lines, st).written.len() ==> #[trigger] rows_of(
                ingest(symbol, lines, st).written,
            )[i] == json::json_row(ingest(symbol, lines, st).written[i]),
{
    let o = ingest(symbol, lines, st);
    let files = seq![(symbol, lines)];
    assert(files[0] == (symbol, lines));
    assert(files.drop_first().len() == 0);
    let none = ingest_files(files.drop_first(), o.state);
    assert(none.written =~= Seq::<trade::TradeView>::empty());
    assert(o.written + none.written =~= o.written);
    if !(o.stopped || o.fault is Some) {
        assert(none.after(o.written) =~= o);
    }
    assert(ingest_files(files, st) =~= o);
}

/// The message for an archive that was not read to its end names it and tells
/// how the unpacking ended.
pub proof fn law_unzip_message(path: Seq<char>, status: Seq<char>)
    ensures
        unzip_failure(path, status) == text::joined(
            seq!["unzip"@, "failed"@, "for"@, path + ":"@, "status="@ + status],
            ' ',
        ),
{
    reveal_with_fuel(text::joined, 5);
    reveal_strlit("unzip");
    reveal_strlit("failed");
    reveal_strlit("for");
    reveal_strlit(":");
    reveal_strlit("status=");
    reveal_strlit("unzip failed for ");
    reveal_strlit(": status=");
    let v = seq!["unzip"@, "failed"@, "for"@, path + ":"@, "status="@ + status];
    assert(v.drop_last() =~= seq!["unzip"@, "failed"@, "for"@, path + ":"@]);
    assert(v.drop_last().drop_last() =~= seq!["unzip"@, "failed"@, "for"@]);
    assert(v.drop_last().drop_last().drop_last() =~= seq!["unzip"@, "failed"@]);
    assert(v.drop_last().drop_last().drop_last().drop_last() =~= seq!["unzip"@]);
    assert(unzip_failure(path, status) =~= text::joined(v, ' '));
}

/// A failure of the unpacking counts exactly where the limit was not hit.
pub proof fn law_failed_unpacking(success: bool, hit_limit: bool)
    ensures
        unzip_fails(success, hit_limit) <==> !(success || hit_limit),
{
}

/// What is carried from file to file are the keys and the two numbers.
pub proof fn law_fields_of_ingest(x: Ingest, fault: trade::RowFault)
    ensures
        x@.seen == x.seen@ && x@.total == x.total && x@.max_rows == x.max_rows,
        fault_view(Some(fault)) == Some(fault@),
        fault_view(None) is None,
{
}

} // verus!
