//! A run as a whole: what it writes, given what the archive holds.
use crate::ingest;
use crate::json;
use crate::plan;
use crate::seen;
use crate::trade;
use vstd::prelude::*;

verus! {

/// What the archive holds for a symbol and a day: whether there is a file,
/// whether it passes the check, its lines, and whether it unpacks to its end.
pub struct DayFile {
    pub found: bool,
    pub genuine: bool,
    pub lines: Seq<Seq<char>>,
    pub unpacks: bool,
}

impl DayFile {
    /// The file is there, and passes the check if it is checked.
    pub open spec fn is_taken(self, verify: bool) -> bool {
        self.found && (verify ==> self.genuine)
    }
}

/// What a run comes to: what became of the lines, and whether a file that did
/// not unpack ended it.
#[verifier::ext_equal]
pub struct RunOutcome {
    pub rows: ingest::Outcome,
    pub broken: bool,
}

impl RunOutcome {
    pub open spec fn after(self, written: Seq<trade::TradeView>) -> RunOutcome {
        RunOutcome { rows: self.rows.after(written), ..self }
    }

    /// Neither a line nor a file ended the run with an error.
    pub open spec fn succeeds(self) -> bool {
        self.rows.fault is None && !self.broken
    }
}

/// Nothing written.
pub open spec fn nothing(ig: ingest::IngestView) -> RunOutcome {
    RunOutcome {
        rows: ingest::Outcome { written: Seq::empty(), state: ig, fault: None, stopped: false },
        broken: false,
    }
}

/// What becomes of the lines of one file, and whether its unpacking counts as
/// failed. A line with a fault ends the reading before that is known.
pub open spec fn of_file(
    symbol: Seq<char>,
    lines: Seq<Seq<char>>,
    unpacks: bool,
    ig: ingest::IngestView,
) -> RunOutcome {
    let o = ingest::ingest(symbol, lines, ig);
    RunOutcome { rows: o, broken: o.fault is None && ingest::unzip_fails(unpacks, o.stopped) }
}

/// A run that waits for a download goes through one day: the download, the
/// check if it is asked for, and the taking of the rows.
pub open spec fn through_day(st: plan::PlanView, ig: ingest::IngestView, f: DayFile) -> (
    plan::PlanView,
    RunOutcome,
) {
    let fetched = st.on_download(f.found).0;
    if !f.found {
        (fetched, nothing(ig))
    } else if st.verify && !f.genuine {
        (fetched.on_check(false).0, nothing(ig))
    } else {
        let opened = if st.verify {
            fetched.on_check(true).0
        } else {
            fetched
        };
        let o = of_file(opened.symbol(), f.lines, f.unpacks, ig);
        if !o.succeeds() {
            (opened, o)
        } else {
            (opened.on_rows(o.rows.written.len() as int, o.rows.stopped).0, o)
        }
    }
}

/// The next pair of a symbol and a day lies behind the one before it.
pub open spec fn moves_on(st: plan::PlanView, next: plan::PlanView) -> bool {
    &&& next.wf()
    &&& next.phase == plan::Phase::Fetching
    &&& next.symbols == st.symbols
    &&& next.days == st.days
    &&& next.verify == st.verify
    &&& (next.at_symbol == st.at_symbol && next.at_day == st.at_day + 1) || (next.at_symbol
        == st.at_symbol + 1 && next.at_day == 0 && st.at_day + 1 == st.days.len())
}

proof fn lemma_onward(st: plan::PlanView, told: Seq<plan::ReportView>, drop_zip: bool)
    requires
        st.wf(),
        st.phase != plan::Phase::Over,
    ensures
        ({
            let next = st.after_day().onward(told, drop_zip).0;
            if next.phase == plan::Phase::Over {
                st.at_day + 1 == st.days.len() && st.at_symbol + 1 == st.symbols.len()
            } else {
                moves_on(st, next)
            }
        }),
{
    reveal_with_fuel(plan::PlanView::onward, 2);
}

/// What a day comes to, and that the run then stands at the next pair or is over.
pub proof fn lemma_through_day(st: plan::PlanView, ig: ingest::IngestView, f: DayFile)
    requires
        st.wf(),
        st.phase == plan::Phase::Fetching,
    ensures
        ({
            let (next, o) = through_day(st, ig, f);
            &&& o == if f.is_taken(st.verify) {
                of_file(st.symbol(), f.lines, f.unpacks, ig)
            } else {
                nothing(ig)
            }
            &&& o.succeeds() ==> if next.phase == plan::Phase::Over {
                o.rows.stopped || (st.at_day + 1 == st.days.len() && st.at_symbol + 1
                    == st.symbols.len())
            } else {
                !o.rows.stopped && moves_on(st, next)
            }
        }),
{
    let fetched = st.on_download(f.found).0;
    let opened = if st.verify {
        fetched.on_check(true).0
    } else {
        fetched
    };
    if !f.found {
        lemma_onward(
            st,
            seq![plan::ReportView::NotFound { symbol: st.symbol(), day: st.day() }],
            true,
        );
    } else if st.verify && !f.genuine {
        lemma_onward(
            fetched,
            seq![plan::ReportView::ChecksumFailed { symbol: fetched.symbol(), day: fetched.day() }],
            true,
        );
    } else {
        let o = ingest::ingest(opened.symbol(), f.lines, ig);
        let rows = o.written.len() as int;
        if o.fault is None && !o.stopped {
            let counted = plan::PlanView { symbol_rows: opened.symbol_rows + rows, ..opened };
            lemma_onward(
                counted,
                seq![
                    plan::ReportView::DayDone { symbol: opened.symbol(), day: opened.day(), rows },
                ],
                !opened.keep_zip,
            );
        }
    }
}

/// What a run comes to from where it stands: it goes through its days until it
/// is over, a line has a fault or a file does not unpack.
pub open spec fn course(
    st: plan::PlanView,
    ig: ingest::IngestView,
    archive: spec_fn(Seq<char>, Seq<char>) -> DayFile,
) -> RunOutcome
    decreases st.symbols.len() - st.at_symbol, st.days.len() - st.at_day,
{
    if !st.wf() || st.phase != plan::Phase::Fetching {
        nothing(ig)
    } else {
        let (next, o) = through_day(st, ig, archive(st.symbol(), st.day()));
        proof {
            lemma_through_day(st, ig, archive(st.symbol(), st.day()));
        }
        if !o.succeeds() || next.phase == plan::Phase::Over {
            o
        } else {
            course(next, o.rows.state, archive).after(o.rows.written)
        }
    }
}

/// What a run comes to.
pub open spec fn run_rows(
    symbols: Seq<Seq<char>>,
    days: Seq<Seq<char>>,
    verify: bool,
    keep_zip: bool,
    ig: ingest::IngestView,
    archive: spec_fn(Seq<char>, Seq<char>) -> DayFile,
) -> RunOutcome {
    course(
        plan::PlanView::begun(symbols, days, verify, keep_zip).onward(Seq::empty(), false).0,
        ig,
        archive,
    )
}

// ---------------------------------------------------------------------------
// The files of a run

/// A file that a run takes: its symbol, its lines, and whether it unpacks.
pub struct TakenFile {
    pub symbol: Seq<char>,
    pub lines: Seq<Seq<char>>,
    pub unpacks: bool,
}

/// The files of the archive that are taken, from the given symbol and day on:
/// symbol by symbol, and day by day.
pub open spec fn files_from(
    symbols: Seq<Seq<char>>,
    days: Seq<Seq<char>>,
    i: int,
    j: int,
    verify: bool,
    archive: spec_fn(Seq<char>, Seq<char>) -> DayFile,
) -> Seq<TakenFile>
    decreases symbols.len() - i, days.len() - j,
{
    if i >= symbols.len() {
        Seq::empty()
    } else if j >= days.len() {
        files_from(symbols, days, i + 1, 0, verify, archive)
    } else {
        let f = archive(symbols[i], days[j]);
        let rest = files_from(symbols, days, i, j + 1, verify, archive);
        if f.is_taken(verify) {
            seq![TakenFile { symbol: symbols[i], lines: f.lines, unpacks: f.unpacks }] + rest
        } else {
            rest
        }
    }
}

/// All the files of the archive that a run takes if nothing ends it before.
pub open spec fn files_of(
    symbols: Seq<Seq<char>>,
    days: Seq<Seq<char>>,
    verify: bool,
    archive: spec_fn(Seq<char>, Seq<char>) -> DayFile,
) -> Seq<TakenFile> {
    files_from(symbols, days, 0, 0, verify, archive)
}

/// Takes files one after the other, until a line has a fault, the limit is
/// reached or a file does not unpack.
pub open spec fn take_files(files: Seq<TakenFile>, ig: ingest::IngestView) -> RunOutcome
    decreases files.len(),
{
    if files.len() == 0 {
        nothing(ig)
    } else {
        let o = of_file(files[0].symbol, files[0].lines, files[0].unpacks, ig);
        if !o.succeeds() || o.rows.stopped {
            o
        } else {
            take_files(files.drop_first(), o.rows.state).after(o.rows.written)
        }
    }
}

/// The files with their symbols and lines alone.
pub open spec fn contents(files: Seq<TakenFile>) -> Seq<(Seq<char>, Seq<Seq<char>>)> {
    Seq::new(files.len(), |i: int| (files[i].symbol, files[i].lines))
}

pub open spec fn all_unpack(files: Seq<TakenFile>) -> bool {
    forall|i: int| 0 <= i < files.len() ==> (#[trigger] files[i]).unpacks
}

/// The files up to the first one that does not unpack, and that one.
pub open spec fn readable(files: Seq<TakenFile>) -> Seq<TakenFile>
    decreases files.len(),
{
    if files.len() == 0 {
        Seq::empty()
    } else if !files[0].unpacks {
        seq![files[0]]
    } else {
        seq![files[0]] + readable(files.drop_first())
    }
}

/// The first file that does not unpack is the one at `n`.
pub open spec fn breaks_at(files: Seq<TakenFile>, n: int) -> bool {
    0 <= n < files.len() && !files[n].unpacks && all_unpack(files.take(n))
}

proof fn lemma_readable(files: Seq<TakenFile>)
    ensures
        all_unpack(files) ==> readable(files) == files,
        forall|n: int| #[trigger] breaks_at(files, n) ==> readable(files) == files.take(n + 1),
        all_unpack(files) || exists|n: int| breaks_at(files, n),
        readable(files).len() <= files.len(),
        forall|i: int|
            0 <= i < readable(files).len() ==> #[trigger] readable(files)[i] == files[i],
    decreases files.len(),
{
    if files.len() == 0 {
        assert(readable(files) =~= files);
    } else if !files[0].unpacks {
        assert(files.take(0).len() == 0);
        assert(breaks_at(files, 0));
        assert(files.take(1) =~= seq![files[0]]);
        assert forall|n: int| #[trigger] breaks_at(files, n) implies readable(files) == files.take(
            n + 1,
        ) by {
            if n > 0 {
                assert(files.take(n)[0] == files[0]);
            }
        }
    } else {
        let rest = files.drop_first();
        lemma_readable(rest);
        assert(files =~= seq![files[0]] + rest);
        if all_unpack(files) {
            assert forall|i: int| 0 <= i < rest.len() implies (#[trigger] rest[i]).unpacks by {
                assert(rest[i] == files[i + 1]);
            }
        }
        assert forall|n: int| #[trigger] breaks_at(files, n) implies readable(files) == files.take(
            n + 1,
        ) by {
            assert(n > 0);
            assert forall|i: int| 0 <= i < n - 1 implies (#[trigger] rest.take(n - 1)[i]).unpacks by {
                assert(rest.take(n - 1)[i] == files.take(n)[i + 1]);
            }
            assert(breaks_at(rest, n - 1));
            assert(seq![files[0]] + rest.take(n) =~= files.take(n + 1));
        }
        if all_unpack(rest) {
            assert forall|i: int| 0 <= i < files.len() implies (#[trigger] files[i]).unpacks by {
                if i > 0 {
                    assert(files[i] == rest[i - 1]);
                }
            }
        } else {
            let n = choose|n: int| breaks_at(rest, n);
            assert forall|i: int| 0 <= i < n + 1 implies (#[trigger] files.take(n + 1)[i]).unpacks by {
                if i > 0 {
                    assert(files.take(n + 1)[i] == rest.take(n)[i - 1]);
                }
            }
            assert(breaks_at(files, n + 1));
        }
        assert forall|i: int| 0 <= i < readable(files).len() implies #[trigger] readable(files)[i]
            == files[i] by {
            if i > 0 {
                assert(readable(files)[i] == readable(rest)[i - 1]);
                assert(rest[i - 1] == files[i]);
            }
        }
    }
}

/// What a run comes to is what its readable files come to; a file that does not
/// unpack ends it with an error unless something else has ended it before.
proof fn lemma_take_files(files: Seq<TakenFile>, ig: ingest::IngestView)
    ensures
        ({
            let o = ingest::ingest_files(contents(readable(files)), ig);
            take_files(files, ig) == RunOutcome {
                rows: o,
                broken: !all_unpack(files) && !o.stopped && o.fault is None,
            }
        }),
    decreases files.len(),
{
    let read = contents(readable(files));
    if files.len() > 0 {
        let rest = files.drop_first();
        let none = Seq::<trade::TradeView>::empty();
        let o = ingest::ingest(files[0].symbol, files[0].lines, ig);
        assert(o.written + none =~= o.written);
        assert(read[0] == (files[0].symbol, files[0].lines));
        if files[0].unpacks {
            let more = contents(readable(rest));
            assert(readable(files).drop_first() =~= readable(rest));
            assert(read.drop_first() =~= more);
            lemma_take_files(rest, o.state);
            assert(all_unpack(files) == all_unpack(rest)) by {
                assert(forall|i: int| 0 <= i < rest.len() ==> #[trigger] rest[i] == files[i + 1]);
                assert(forall|i: int| 0 < i < files.len() ==> #[trigger] files[i] == rest[i - 1]);
            }
            assert(ingest::ingest_files(read, ig) == if o.stopped || o.fault is Some {
                o
            } else {
                ingest::ingest_files(more, o.state).after(o.written)
            });
        } else {
            assert(read.drop_first().len() == 0);
            assert(ingest::ingest_files(read.drop_first(), o.state).written =~= none);
            assert(ingest::ingest_files(read, ig) == o);
            assert(!all_unpack(files));
        }
    }
}

proof fn lemma_course(
    st: plan::PlanView,
    ig: ingest::IngestView,
    archive: spec_fn(Seq<char>, Seq<char>) -> DayFile,
)
    requires
        st.wf(),
        st.phase == plan::Phase::Fetching,
    ensures
        course(st, ig, archive) == take_files(
            files_from(st.symbols, st.days, st.at_symbol, st.at_day, st.verify, archive),
            ig,
        ),
    decreases st.symbols.len() - st.at_symbol, st.days.len() - st.at_day,
{
    let f = archive(st.symbol(), st.day());
    let (next, o) = through_day(st, ig, f);
    lemma_through_day(st, ig, f);
    let none = Seq::<trade::TradeView>::empty();
    let files = files_from(st.symbols, st.days, st.at_symbol, st.at_day, st.verify, archive);
    let rest = files_from(st.symbols, st.days, st.at_symbol, st.at_day + 1, st.verify, archive);
    let over = !o.succeeds() || next.phase == plan::Phase::Over;
    if over && o.succeeds() && !o.rows.stopped {
        lemma_last_pair(st, archive);
    } else if !over {
        lemma_course(next, o.rows.state, archive);
        assert(rest == files_from(
            st.symbols,
            st.days,
            next.at_symbol,
            next.at_day,
            st.verify,
            archive,
        ));
    }
    if f.is_taken(st.verify) {
        let file = TakenFile { symbol: st.symbol(), lines: f.lines, unpacks: f.unpacks };
        assert(files == seq![file] + rest);
        assert(files.drop_first() =~= rest);
        assert(files[0] == file);
        assert(o.rows.written + none =~= o.rows.written);
        assert(take_files(files, ig) == if !o.succeeds() || o.rows.stopped {
            o
        } else {
            take_files(rest, o.rows.state).after(o.rows.written)
        });
    } else {
        assert(files == rest);
        if !over {
            let w = take_files(rest, ig).rows.written;
            assert(none + w =~= w);
        }
    }
}

/// Behind the last pair of a symbol and a day there are no files.
proof fn lemma_last_pair(
    st: plan::PlanView,
    archive: spec_fn(Seq<char>, Seq<char>) -> DayFile,
)
    requires
        st.at_day + 1 == st.days.len(),
        st.at_symbol + 1 == st.symbols.len(),
    ensures
        files_from(st.symbols, st.days, st.at_symbol, st.at_day + 1, st.verify, archive)
            == Seq::<TakenFile>::empty(),
{
    reveal_with_fuel(files_from, 2);
}

proof fn lemma_no_files(
    symbols: Seq<Seq<char>>,
    days: Seq<Seq<char>>,
    i: int,
    verify: bool,
    archive: spec_fn(Seq<char>, Seq<char>) -> DayFile,
)
    requires
        days.len() == 0,
    ensures
        files_from(symbols, days, i, 0, verify, archive).len() == 0,
    decreases symbols.len() - i,
{
    if i < symbols.len() {
        lemma_no_files(symbols, days, i + 1, verify, archive);
    }
}

proof fn lemma_symbols_of_files(
    symbols: Seq<Seq<char>>,
    days: Seq<Seq<char>>,
    i: int,
    j: int,
    verify: bool,
    archive: spec_fn(Seq<char>, Seq<char>) -> DayFile,
)
    requires
        0 <= i,
        0 <= j,
    ensures
        forall|k: int|
            0 <= k < files_from(symbols, days, i, j, verify, archive).len() ==> symbols.contains(
                (#[trigger] files_from(symbols, days, i, j, verify, archive)[k]).symbol,
            ),
    decreases symbols.len() - i, days.len() - j,
{
    if i < symbols.len() {
        if j >= days.len() {
            lemma_symbols_of_files(symbols, days, i + 1, 0, verify, archive);
            assert(files_from(symbols, days, i, j, verify, archive) == files_from(
                symbols,
                days,
                i + 1,
                0,
                verify,
                archive,
            ));
        } else {
            lemma_symbols_of_files(symbols, days, i, j + 1, verify, archive);
            let all = files_from(symbols, days, i, j, verify, archive);
            let rest = files_from(symbols, days, i, j + 1, verify, archive);
            assert forall|k: int| 0 <= k < all.len() implies symbols.contains(
                (#[trigger] all[k]).symbol,
            ) by {
                if archive(symbols[i], days[j]).is_taken(verify) {
                    if k > 0 {
                        assert(all[k] == rest[k - 1]);
                    } else {
                        assert(symbols.contains(symbols[i]));
                    }
                } else {
                    assert(all[k] == rest[k]);
                }
            }
        }
    }
}

// ---------------------------------------------------------------------------
// Laws

proof fn lemma_run(
    symbols: Seq<Seq<char>>,
    days: Seq<Seq<char>>,
    verify: bool,
    keep_zip: bool,
    ig: ingest::IngestView,
    archive: spec_fn(Seq<char>, Seq<char>) -> DayFile,
)
    ensures
        ({
            let files = files_of(symbols, days, verify, archive);
            let o = ingest::ingest_files(contents(readable(files)), ig);
            run_rows(symbols, days, verify, keep_zip, ig, archive) == take_files(files, ig)
                && take_files(files, ig) == RunOutcome {
                rows: o,
                broken: !all_unpack(files) && !o.stopped && o.fault is None,
            }
        }),
{
    let files = files_of(symbols, days, verify, archive);
    let st = plan::PlanView::begun(symbols, days, verify, keep_zip).onward(Seq::empty(), false).0;
    plan::law_run_starts_at_first(symbols, days, verify, keep_zip);
    lemma_take_files(files, ig);
    if symbols.len() > 0 && days.len() > 0 {
        lemma_course(st, ig, archive);
    } else if days.len() == 0 {
        lemma_no_files(symbols, days, 0, verify, archive);
    }
}

/// A run takes the files of the archive one after the other, symbol by symbol
/// and day by day, those left out that are missing or fail the check. Where all
/// of them unpack, it writes what their lines come to.
pub proof fn law_run_takes_files(
    symbols: Seq<Seq<char>>,
    days: Seq<Seq<char>>,
    verify: bool,
    keep_zip: bool,
    ig: ingest::IngestView,
    archive: spec_fn(Seq<char>, Seq<char>) -> DayFile,
)
    ensures
        ({
            let files = files_of(symbols, days, verify, archive);
            let run = run_rows(symbols, days, verify, keep_zip, ig, archive);
            &&& run == take_files(files, ig)
            &&& all_unpack(files) ==> !run.broken && run.rows == ingest::ingest_files(
                contents(files),
                ig,
            )
        }),
{
    lemma_run(symbols, days, verify, keep_zip, ig, archive);
    lemma_readable(files_of(symbols, days, verify, archive));
}

/// A run ends at the first file that does not unpack: the rows before it and
/// those of that file are written, and none after. It ends there with an error,
/// unless the limit was hit or a line had a fault up to the end of that file.
pub proof fn law_run_ends_at_broken_file(
    symbols: Seq<Seq<char>>,
    days: Seq<Seq<char>>,
    verify: bool,
    keep_zip: bool,
    ig: ingest::IngestView,
    archive: spec_fn(Seq<char>, Seq<char>) -> DayFile,
    n: int,
)
    requires
        breaks_at(files_of(symbols, days, verify, archive), n),
    ensures
        ({
            let files = files_of(symbols, days, verify, archive);
            let run = run_rows(symbols, days, verify, keep_zip, ig, archive);
            &&& run.rows == ingest::ingest_files(contents(files.take(n + 1)), ig)
            &&& run.broken <==> !run.rows.stopped && run.rows.fault is None
        }),
{
    let files = files_of(symbols, days, verify, archive);
    lemma_run(symbols, days, verify, keep_zip, ig, archive);
    lemma_readable(files);
    assert(!files[n].unpacks);
}

/// A run with a limit of rows writes the first rows of the run without one, as
/// many as the limit, counted over all symbols and days, or all of them if they
/// are fewer; and it succeeds where the run without a limit does.
pub proof fn law_limited_run_writes_first_rows(
    symbols: Seq<Seq<char>>,
    days: Seq<Seq<char>>,
    verify: bool,
    keep_zip: bool,
    known: Set<(Seq<char>, int)>,
    max_rows: int,
    archive: spec_fn(Seq<char>, Seq<char>) -> DayFile,
)
    requires
        max_rows > 0,
    ensures
        ({
            let start = ingest::IngestView { seen: known, total: 0, max_rows };
            let o = run_rows(symbols, days, verify, keep_zip, start, archive);
            let r = run_rows(
                symbols,
                days,
                verify,
                keep_zip,
                ingest::unlimited(known),
                archive,
            );
            &&& o.rows.written == ingest::first_of(r.rows.written, max_rows)
            &&& o.rows.written.len() <= max_rows
            &&& o.rows.stopped <==> r.rows.written.len() >= max_rows
            &&& o.succeeds() <==> o.rows.stopped || r.succeeds()
        }),
{
    let start = ingest::IngestView { seen: known, total: 0, max_rows };
    let read = contents(readable(files_of(symbols, days, verify, archive)));
    lemma_run(symbols, days, verify, keep_zip, start, archive);
    lemma_run(symbols, days, verify, keep_zip, ingest::unlimited(known), archive);
    ingest::law_limit_takes_first_rows(read, start);
    ingest::law_no_limit_no_stop(read, ingest::unlimited(known));
    assert(start.without_limit() == ingest::unlimited(known));
}

/// A run writes each key at most once, and none that was known at its start.
pub proof fn law_run_writes_each_key_once(
    symbols: Seq<Seq<char>>,
    days: Seq<Seq<char>>,
    verify: bool,
    keep_zip: bool,
    ig: ingest::IngestView,
    archive: spec_fn(Seq<char>, Seq<char>) -> DayFile,
)
    ensures
        ingest::all_new(
            run_rows(symbols, days, verify, keep_zip, ig, archive).rows.written,
            ig.seen,
        ),
{
    lemma_run(symbols, days, verify, keep_zip, ig, archive);
    ingest::law_files_each_key_once(
        contents(readable(files_of(symbols, days, verify, archive))),
        ig,
    );
}

/// A run with plain symbols, followed by a resumed one without a limit that
/// knows the keys of the rows in the output file: no key is written twice. If
/// the second run succeeds, the keys of all the files that a run takes are in
/// the output file; and if the first one had succeeded without being stopped by
/// its limit, the second one writes nothing.
pub proof fn law_resumed_run_completes(
    symbols: Seq<Seq<char>>,
    days: Seq<Seq<char>>,
    verify: bool,
    keep_zip: bool,
    max_rows: int,
    archive: spec_fn(Seq<char>, Seq<char>) -> DayFile,
)
    requires
        forall|i: int| 0 <= i < symbols.len() ==> json::is_plain(#[trigger] symbols[i]),
    ensures
        ({
            let files = files_of(symbols, days, verify, archive);
            let start = ingest::IngestView { seen: Set::empty(), total: 0, max_rows };
            let first = run_rows(symbols, days, verify, keep_zip, start, archive);
            let known = seen::keys_of(ingest::rows_of(first.rows.written));
            let second = run_rows(
                symbols,
                days,
                verify,
                keep_zip,
                ingest::unlimited(known),
                archive,
            );
            let both = first.rows.written + second.rows.written;
            &&& ingest::all_new(both, Set::empty())
            &&& second.succeeds() ==> ingest::trade_keys(both) == ingest::file_keys(
                contents(files),
            )
            &&& first.succeeds() && !first.rows.stopped ==> second.succeeds()
                && second.rows.written.len() == 0
        }),
{
    let start = ingest::IngestView { seen: Set::empty(), total: 0, max_rows };
    let files = files_of(symbols, days, verify, archive);
    let read = contents(readable(files));
    lemma_readable(files);
    lemma_run(symbols, days, verify, keep_zip, start, archive);
    lemma_symbols_of_files(symbols, days, 0, 0, verify, archive);
    assert forall|k: int| 0 <= k < read.len() implies json::is_plain((#[trigger] read[k]).0) by {
        assert(readable(files)[k] == files[k]);
        assert(symbols.contains(files[k].symbol));
    }
    ingest::law_resume_over_files(read, start);
    let first = ingest::ingest_files(read, start);
    let keys = seen::keys_of(ingest::rows_of(first.written));
    assert(start.seen.union(keys) =~= keys);
    lemma_run(symbols, days, verify, keep_zip, ingest::unlimited(keys), archive);
    ingest::law_no_limit_no_stop(read, ingest::unlimited(keys));
    let both = first.written + ingest::ingest_files(read, ingest::unlimited(keys)).written;
    assert(start.seen.union(ingest::trade_keys(both)) =~= ingest::trade_keys(both));
    assert(start.seen.union(ingest::file_keys(read)) =~= ingest::file_keys(read));
}

} // verus!
