//! The course of a run: for each symbol and each day fetch the file, check it,
//! take its rows, and tell what happened.
use crate::archive;
use crate::number;
use crate::options;
use crate::text;
use vstd::prelude::*;

verus! {

/// What the run waits for.
#[derive(Clone, Copy, Debug, PartialEq, Eq, Structural)]
pub enum Phase {
    /// A download.
    Fetching,
    /// The check of a downloaded file.
    Checking,
    /// The taking of the rows of a file.
    Reading,
    /// Nothing; the run is over.
    Over,
}

/// Where a run stands: the symbol and the day it is at, the rows of the symbol
/// so far, and how many symbols had rows and how many had none.
pub struct Plan {
    pub symbols: Vec<String>,
    pub days: Vec<String>,
    pub verify: bool,
    pub keep_zip: bool,
    pub at_symbol: usize,
    pub at_day: usize,
    pub symbol_rows: usize,
    pub assets_ok: usize,
    pub assets_empty: usize,
    pub phase: Phase,
}

#[verifier::ext_equal]
pub struct PlanView {
    pub symbols: Seq<Seq<char>>,
    pub days: Seq<Seq<char>>,
    pub verify: bool,
    pub keep_zip: bool,
    pub at_symbol: int,
    pub at_day: int,
    pub symbol_rows: int,
    pub assets_ok: int,
    pub assets_empty: int,
    pub phase: Phase,
}

impl View for Plan {
    type V = PlanView;

    open spec fn view(&self) -> PlanView {
        PlanView {
            symbols: text::texts(self.symbols@),
            days: text::texts(self.days@),
            verify: self.verify,
            keep_zip: self.keep_zip,
            at_symbol: self.at_symbol as int,
            at_day: self.at_day as int,
            symbol_rows: self.symbol_rows as int,
            assets_ok: self.assets_ok as int,
            assets_empty: self.assets_empty as int,
            phase: self.phase,
        }
    }
}

impl PlanView {
    /// The run stands at a symbol and a day, or behind the last symbol; every
    /// symbol that it has left behind is counted.
    pub open spec fn wf(self) -> bool {
        &&& 0 <= self.at_symbol <= self.symbols.len()
        &&& 0 <= self.at_day
        &&& 0 <= self.symbol_rows
        &&& 0 <= self.assets_ok
        &&& 0 <= self.assets_empty
        &&& self.assets_ok + self.assets_empty == self.at_symbol
        &&& self.phase != Phase::Over ==> self.at_symbol < self.symbols.len() && self.at_day
            < self.days.len()
    }
}

// ---------------------------------------------------------------------------
// What is told

/// Something to tell the user.
pub enum Report {
    NotFound { symbol: String, day: String },
    ChecksumFailed { symbol: String, day: String },
    DayDone { symbol: String, day: String, rows: usize },
    AssetDone { symbol: String, rows: usize },
    LimitReached,
    AllDone { assets_ok: usize, assets_empty: usize },
}

#[verifier::ext_equal]
pub enum ReportView {
    NotFound { symbol: Seq<char>, day: Seq<char> },
    ChecksumFailed { symbol: Seq<char>, day: Seq<char> },
    DayDone { symbol: Seq<char>, day: Seq<char>, rows: int },
    AssetDone { symbol: Seq<char>, rows: int },
    LimitReached,
    AllDone { assets_ok: int, assets_empty: int },
}

impl View for Report {
    type V = ReportView;

    open spec fn view(&self) -> ReportView {
        match self {
            Report::NotFound { symbol, day } => ReportView::NotFound { symbol: symbol@, day: day@ },
            Report::ChecksumFailed { symbol, day } => ReportView::ChecksumFailed {
                symbol: symbol@,
                day: day@,
            },
            Report::DayDone { symbol, day, rows } => ReportView::DayDone {
                symbol: symbol@,
                day: day@,
                rows: *rows as int,
            },
            Report::AssetDone { symbol, rows } => ReportView::AssetDone {
                symbol: symbol@,
                rows: *rows as int,
            },
            Report::LimitReached => ReportView::LimitReached,
            Report::AllDone { assets_ok, assets_empty } => ReportView::AllDone {
                assets_ok: *assets_ok as int,
                assets_empty: *assets_empty as int,
            },
        }
    }
}

impl ReportView {
    /// The line of a report, given the rows written in all and the quoted name
    /// of the output file.
    pub open spec fn line(self, total: int, quoted_out: Seq<char>) -> Seq<char> {
        match self {
            ReportView::NotFound { symbol, day } => "[SKIP] not found/download failed: "@ + symbol
                + " "@ + day,
            ReportView::ChecksumFailed { symbol, day } => "[SKIP] checksum failed: "@ + symbol
                + " "@ + day,
            ReportView::DayDone { symbol, day, rows } => "[OK] "@ + symbol + " "@ + day + " rows="@
                + number::int_text(rows),
            ReportView::AssetDone { symbol, rows } => "[ASSET] "@ + symbol + " total_rows="@
                + number::int_text(rows),
            ReportView::LimitReached => "[DONE] max rows reached: "@ + number::int_text(total),
            ReportView::AllDone { assets_ok, assets_empty } => "[DONE] wrote rows="@
                + number::int_text(total) + " file="@ + quoted_out + " assets_ok="@
                + number::int_text(assets_ok) + " assets_empty="@ + number::int_text(assets_empty),
        }
    }
}

fn count_text(n: usize) -> (r: String)
    ensures
        r@ == number::int_text(n as int),
{
    number::decimal_text(n as u128)
}

impl Report {
    /// The line of the report, given the rows written in all and the quoted name
    /// of the output file.
    pub fn line(&self, total: usize, quoted_out: &str) -> (r: String)
        ensures
            r@ == self@.line(total as int, quoted_out@),
    {
        match self {
            Report::NotFound { symbol, day } => {
                let mut r = "[SKIP] not found/download failed: ".to_owned();
                r.append(symbol.as_str());
                r.append(" ");
                r.append(day.as_str());
                r
            },
            Report::ChecksumFailed { symbol, day } => {
                let mut r = "[SKIP] checksum failed: ".to_owned();
                r.append(symbol.as_str());
                r.append(" ");
                r.append(day.as_str());
                r
            },
            Report::DayDone { symbol, day, rows } => {
                let mut r = "[OK] ".to_owned();
                r.append(symbol.as_str());
                r.append(" ");
                r.append(day.as_str());
                r.append(" rows=");
                r.append(count_text(*rows).as_str());
                r
            },
            Report::AssetDone { symbol, rows } => {
                let mut r = "[ASSET] ".to_owned();
                r.append(symbol.as_str());
                r.append(" total_rows=");
                r.append(count_text(*rows).as_str());
                r
            },
            Report::LimitReached => {
                let mut r = "[DONE] max rows reached: ".to_owned();
                r.append(count_text(total).as_str());
                r
            },
            Report::AllDone { assets_ok, assets_empty } => {
                let mut r = "[DONE] wrote rows=".to_owned();
                r.append(count_text(total).as_str());
                r.append(" file=");
                r.append(quoted_out);
                r.append(" assets_ok=");
                r.append(count_text(*assets_ok).as_str());
                r.append(" assets_empty=");
                r.append(count_text(*assets_empty).as_str());
                r
            },
        }
    }

    /// Whether the report is a complaint.
    pub fn is_complaint(&self) -> (r: bool)
        ensures
            r == (self@ is ChecksumFailed),
    {
        matches!(self, Report::ChecksumFailed { .. })
    }
}

/// The line that tells what a run is about to do.
pub open spec fn config_text(a: options::ArgsView, quoted_out: Seq<char>) -> Seq<char> {
    "[CONFIG] mode="@ + (if a.all_assets {
        "all-assets"@
    } else {
        "selected"@
    }) + " start="@ + a.start + " end="@ + a.end + " out="@ + quoted_out
}

/// The line that tells what a run is about to do, given the quoted name of the
/// output file.
pub fn config_line(args: &options::Args, quoted_out: &str) -> (r: String)
    ensures
        r@ == config_text(args@, quoted_out@),
{
    let mut r = "[CONFIG] mode=".to_owned();
    if args.all_assets {
        r.append("all-assets");
    } else {
        r.append("selected");
    }
    r.append(" start=");
    r.append(args.start.as_str());
    r.append(" end=");
    r.append(args.end.as_str());
    r.append(" out=");
    r.append(quoted_out);
    r
}

// ---------------------------------------------------------------------------
// The course

/// What is to be done next.
pub enum Task {
    /// Fetch the file at the address.
    Fetch { symbol: String, day: String, url: String },
    /// Check the fetched file against the checksum of the address.
    Check { url: String },
    /// Take the rows of the fetched file.
    Read { symbol: String },
    /// Nothing.
    Stop,
}

#[verifier::ext_equal]
pub enum TaskView {
    Fetch { symbol: Seq<char>, day: Seq<char>, url: Seq<char> },
    Check { url: Seq<char> },
    Read { symbol: Seq<char> },
    Stop,
}

impl View for Task {
    type V = TaskView;

    open spec fn view(&self) -> TaskView {
        match self {
            Task::Fetch { symbol, day, url } => TaskView::Fetch {
                symbol: symbol@,
                day: day@,
                url: url@,
            },
            Task::Check { url } => TaskView::Check { url: url@ },
            Task::Read { symbol } => TaskView::Read { symbol: symbol@ },
            Task::Stop => TaskView::Stop,
        }
    }
}

/// What follows from an event: things to tell, whether the fetched file can go,
/// and what is to be done next.
pub struct Turn {
    pub reports: Vec<Report>,
    pub drop_zip: bool,
    pub next: Task,
}

#[verifier::ext_equal]
pub struct TurnView {
    pub reports: Seq<ReportView>,
    pub drop_zip: bool,
    pub next: TaskView,
}

pub open spec fn report_views(v: Seq<Report>) -> Seq<ReportView> {
    Seq::new(v.len(), |i: int| v[i]@)
}

impl View for Turn {
    type V = TurnView;

    open spec fn view(&self) -> TurnView {
        TurnView {
            reports: report_views(self.reports@),
            drop_zip: self.drop_zip,
            next: self.next@,
        }
    }
}

impl PlanView {
    pub open spec fn symbol(self) -> Seq<char> {
        self.symbols[self.at_symbol]
    }

    pub open spec fn day(self) -> Seq<char> {
        self.days[self.at_day]
    }

    /// The symbol is done: it counts as one with rows or as an empty one.
    pub open spec fn after_symbol(self) -> PlanView {
        PlanView {
            at_symbol: self.at_symbol + 1,
            at_day: 0,
            symbol_rows: 0,
            assets_ok: self.assets_ok + if self.symbol_rows > 0 {
                1int
            } else {
                0int
            },
            assets_empty: self.assets_empty + if self.symbol_rows > 0 {
                0int
            } else {
                1int
            },
            ..self
        }
    }

    /// The run from where it stands, symbols without days left closed first: to
    /// the next download, or to its end. `told` is what there is to tell before.
    pub open spec fn onward(self, told: Seq<ReportView>, drop_zip: bool) -> (PlanView, TurnView)
        decreases self.symbols.len() - self.at_symbol,
    {
        if self.at_symbol >= self.symbols.len() {
            (
                PlanView { phase: Phase::Over, ..self },
                TurnView {
                    reports: told.push(
                        ReportView::AllDone {
                            assets_ok: self.assets_ok,
                            assets_empty: self.assets_empty,
                        },
                    ),
                    drop_zip,
                    next: TaskView::Stop,
                },
            )
        } else if self.at_day < self.days.len() {
            (
                PlanView { phase: Phase::Fetching, ..self },
                TurnView {
                    reports: told,
                    drop_zip,
                    next: TaskView::Fetch {
                        symbol: self.symbol(),
                        day: self.day(),
                        url: archive::zip_address(self.symbol(), self.day()),
                    },
                },
            )
        } else {
            self.after_symbol().onward(
                told.push(
                    ReportView::AssetDone { symbol: self.symbol(), rows: self.symbol_rows },
                ),
                drop_zip,
            )
        }
    }

    /// The run with its day left behind.
    pub open spec fn after_day(self) -> PlanView {
        PlanView { at_day: self.at_day + 1, ..self }
    }

    /// A download has ended: a file that was not found is passed over, one that
    /// was found is checked, if that is asked for, or read.
    pub open spec fn on_download(self, found: bool) -> (PlanView, TurnView) {
        if !found {
            self.after_day().onward(
                seq![ReportView::NotFound { symbol: self.symbol(), day: self.day() }],
                true,
            )
        } else if self.verify {
            (
                PlanView { phase: Phase::Checking, ..self },
                TurnView {
                    reports: Seq::empty(),
                    drop_zip: false,
                    next: TaskView::Check {
                        url: archive::zip_address(self.symbol(), self.day()),
                    },
                },
            )
        } else {
            (
                PlanView { phase: Phase::Reading, ..self },
                TurnView {
                    reports: Seq::empty(),
                    drop_zip: false,
                    next: TaskView::Read { symbol: self.symbol() },
                },
            )
        }
    }

    /// A check has ended: a file that failed is passed over.
    pub open spec fn on_check(self, pass: bool) -> (PlanView, TurnView) {
        if !pass {
            self.after_day().onward(
                seq![ReportView::ChecksumFailed { symbol: self.symbol(), day: self.day() }],
                true,
            )
        } else {
            (
                PlanView { phase: Phase::Reading, ..self },
                TurnView {
                    reports: Seq::empty(),
                    drop_zip: false,
                    next: TaskView::Read { symbol: self.symbol() },
                },
            )
        }
    }

    /// The rows of a file have been taken; the limit of rows ends the run.
    pub open spec fn on_rows(self, rows: int, hit_limit: bool) -> (PlanView, TurnView) {
        let told = seq![ReportView::DayDone { symbol: self.symbol(), day: self.day(), rows }];
        let counted = PlanView { symbol_rows: self.symbol_rows + rows, ..self };
        if hit_limit {
            (
                PlanView { phase: Phase::Over, ..counted },
                TurnView {
                    reports: told.push(ReportView::LimitReached),
                    drop_zip: !self.keep_zip,
                    next: TaskView::Stop,
                },
            )
        } else {
            counted.after_day().onward(told, !self.keep_zip)
        }
    }

    /// The start of a run.
    pub open spec fn begun(
        symbols: Seq<Seq<char>>,
        days: Seq<Seq<char>>,
        verify: bool,
        keep_zip: bool,
    ) -> PlanView {
        PlanView {
            symbols,
            days,
            verify,
            keep_zip,
            at_symbol: 0,
            at_day: 0,
            symbol_rows: 0,
            assets_ok: 0,
            assets_empty: 0,
            phase: Phase::Over,
        }
    }
}

fn push_report(reports: &mut Vec<Report>, r: Report)
    ensures
        report_views(final(reports)@) == report_views(old(reports)@).push(r@),
{
    reports.push(r);
    assert(report_views(reports@) =~= report_views(old(reports)@).push(r@));
}

impl Plan {
    fn symbol_now(&self) -> (r: String)
        requires
            self.at_symbol < self.symbols@.len(),
        ensures
            r@ == self@.symbol(),
    {
        self.symbols[self.at_symbol].clone()
    }

    fn day_now(&self) -> (r: String)
        requires
            self.at_day < self.days@.len(),
        ensures
            r@ == self@.day(),
            self.at_day < usize::MAX,
    {
        assert(self.at_day < self.days.len());
        self.days[self.at_day].clone()
    }

    fn go_on(&mut self, told: Vec<Report>, drop_zip: bool) -> (t: Turn)
        requires
            old(self)@.assets_ok + old(self)@.assets_empty == old(self)@.at_symbol,
            old(self)@.at_symbol <= old(self)@.symbols.len(),
        ensures
            (final(self)@, t@) == old(self)@.onward(report_views(told@), drop_zip),
            final(self)@.wf(),
    {
        let ghost goal = self@.onward(report_views(told@), drop_zip);
        let mut reports = told;
        while self.at_symbol < self.symbols.len() && self.at_day >= self.days.len()
            invariant
                goal == self@.onward(report_views(reports@), drop_zip),
                self.assets_ok + self.assets_empty == self.at_symbol,
                self.at_symbol <= self.symbols@.len(),
            decreases self.symbols@.len() - self.at_symbol,
        {
            let ghost before = self@;
            let symbol = self.symbol_now();
            push_report(&mut reports, Report::AssetDone { symbol, rows: self.symbol_rows });
            if self.symbol_rows > 0 {
                self.assets_ok = self.assets_ok + 1;
            } else {
                self.assets_empty = self.assets_empty + 1;
            }
            self.at_symbol = self.at_symbol + 1;
            self.at_day = 0;
            self.symbol_rows = 0;
            assert(self@ =~= before.after_symbol());
        }
        if self.at_symbol >= self.symbols.len() {
            push_report(
                &mut reports,
                Report::AllDone { assets_ok: self.assets_ok, assets_empty: self.assets_empty },
            );
            self.phase = Phase::Over;
            return Turn { reports, drop_zip, next: Task::Stop };
        }
        let symbol = self.symbol_now();
        let day = self.day_now();
        let url = archive::make_url(symbol.as_str(), day.as_str());
        self.phase = Phase::Fetching;
        Turn { reports, drop_zip, next: Task::Fetch { symbol, day, url } }
    }

    /// The start of a run, and what is to be done first.
    pub fn begin(symbols: Vec<String>, days: Vec<String>, verify: bool, keep_zip: bool) -> (r: (
        Plan,
        Turn,
    ))
        ensures
            (r.0@, r.1@) == PlanView::begun(
                text::texts(symbols@),
                text::texts(days@),
                verify,
                keep_zip,
            ).onward(Seq::empty(), false),
            r.0@.wf(),
    {
        let mut plan = Plan {
            symbols,
            days,
            verify,
            keep_zip,
            at_symbol: 0,
            at_day: 0,
            symbol_rows: 0,
            assets_ok: 0,
            assets_empty: 0,
            phase: Phase::Over,
        };
        let told: Vec<Report> = Vec::new();
        assert(report_views(told@) =~= Seq::<ReportView>::empty());
        let turn = plan.go_on(told, false);
        (plan, turn)
    }

    /// A download has ended.
    pub fn downloaded(&mut self, found: bool) -> (t: Turn)
        requires
            old(self)@.wf(),
            old(self)@.phase == Phase::Fetching,
        ensures
            (final(self)@, t@) == old(self)@.on_download(found),
            final(self)@.wf(),
    {
        let symbol = self.symbol_now();
        let day = self.day_now();
        if !found {
            let mut told: Vec<Report> = Vec::new();
            push_report(&mut told, Report::NotFound { symbol, day });
            assert(report_views(told@) =~= seq![
                ReportView::NotFound { symbol: self@.symbol(), day: self@.day() },
            ]);
            self.at_day = self.at_day + 1;
            return self.go_on(told, true);
        }
        let reports: Vec<Report> = Vec::new();
        assert(report_views(reports@) =~= Seq::<ReportView>::empty());
        if self.verify {
            let url = archive::make_url(symbol.as_str(), day.as_str());
            self.phase = Phase::Checking;
            Turn { reports, drop_zip: false, next: Task::Check { url } }
        } else {
            self.phase = Phase::Reading;
            Turn { reports, drop_zip: false, next: Task::Read { symbol } }
        }
    }

    /// The check of a file has ended.
    pub fn checked(&mut self, pass: bool) -> (t: Turn)
        requires
            old(self)@.wf(),
            old(self)@.phase == Phase::Checking,
        ensures
            (final(self)@, t@) == old(self)@.on_check(pass),
            final(self)@.wf(),
    {
        let symbol = self.symbol_now();
        if !pass {
            let day = self.day_now();
            let mut told: Vec<Report> = Vec::new();
            push_report(&mut told, Report::ChecksumFailed { symbol, day });
            assert(report_views(told@) =~= seq![
                ReportView::ChecksumFailed { symbol: self@.symbol(), day: self@.day() },
            ]);
            self.at_day = self.at_day + 1;
            return self.go_on(told, true);
        }
        let reports: Vec<Report> = Vec::new();
        assert(report_views(reports@) =~= Seq::<ReportView>::empty());
        self.phase = Phase::Reading;
        Turn { reports, drop_zip: false, next: Task::Read { symbol } }
    }

    /// The rows of a file have been taken.
    pub fn read(&mut self, rows: usize, hit_limit: bool) -> (t: Turn)
        requires
            old(self)@.wf(),
            old(self)@.phase == Phase::Reading,
            old(self).symbol_rows + rows <= usize::MAX,
        ensures
            (final(self)@, t@) == old(self)@.on_rows(rows as int, hit_limit),
            final(self)@.wf(),
    {
        let symbol = self.symbol_now();
        let day = self.day_now();
        let mut told: Vec<Report> = Vec::new();
        push_report(&mut told, Report::DayDone { symbol, day, rows });
        assert(report_views(told@) =~= seq![
            ReportView::DayDone { symbol: self@.symbol(), day: self@.day(), rows: rows as int },
        ]);
        self.symbol_rows = self.symbol_rows + rows;
        let drop_zip = !self.keep_zip;
        if hit_limit {
            push_report(&mut told, Report::LimitReached);
            self.phase = Phase::Over;
            return Turn { reports: told, drop_zip, next: Task::Stop };
        }
        self.at_day = self.at_day + 1;
        self.go_on(told, drop_zip)
    }
}

// ---------------------------------------------------------------------------
// Laws

impl PlanView {
    /// How many pairs of a symbol and a day lie before the one that the run
    /// stands at, symbol by symbol and day by day.
    pub open spec fn position(self) -> int {
        self.at_symbol * self.days.len() + self.at_day
    }
}

proof fn lemma_no_days(st: PlanView, told: Seq<ReportView>, drop_zip: bool)
    requires
        st.days.len() == 0,
        st.at_day == 0,
        0 <= st.at_symbol <= st.symbols.len(),
    ensures
        ({
            let next = st.onward(told, drop_zip).0;
            &&& next.phase == Phase::Over
            &&& next.at_day == 0
            &&& next.days == st.days
        }),
    decreases st.symbols.len() - st.at_symbol,
{
    if st.at_symbol < st.symbols.len() {
        lemma_no_days(
            st.after_symbol(),
            told.push(ReportView::AssetDone { symbol: st.symbol(), rows: st.symbol_rows }),
            drop_zip,
        );
    }
}

/// A run starts at the first pair of a symbol and a day, or is over at once
/// where there is none.
pub proof fn law_run_starts_at_first(
    symbols: Seq<Seq<char>>,
    days: Seq<Seq<char>>,
    verify: bool,
    keep_zip: bool,
)
    ensures
        ({
            let (st, turn) = PlanView::begun(symbols, days, verify, keep_zip).onward(
                Seq::empty(),
                false,
            );
            &&& st.position() == 0
            &&& st.phase == Phase::Over <==> symbols.len() == 0 || days.len() == 0
            &&& st.phase != Phase::Over ==> turn.next == (TaskView::Fetch {
                symbol: symbols[0],
                day: days[0],
                url: archive::zip_address(symbols[0], days[0]),
            })
            &&& turn.next == TaskView::Stop <==> st.phase == Phase::Over
        }),
{
    let start = PlanView::begun(symbols, days, verify, keep_zip);
    let st = start.onward(Seq::empty(), false).0;
    assert(0 * days.len() == 0);
    if days.len() == 0 {
        lemma_no_days(start, Seq::empty(), false);
        lemma_stop_means_over(start, Seq::empty(), false);
        assert(st.at_symbol * 0 == 0);
    }
}

proof fn lemma_stop_means_over(st: PlanView, told: Seq<ReportView>, drop_zip: bool)
    ensures
        ({
            let (next, turn) = st.onward(told, drop_zip);
            turn.next == TaskView::Stop <==> next.phase == Phase::Over
        }),
    decreases st.symbols.len() - st.at_symbol,
{
    if st.at_symbol < st.symbols.len() && st.at_day >= st.days.len() {
        lemma_stop_means_over(
            st.after_symbol(),
            told.push(ReportView::AssetDone { symbol: st.symbol(), rows: st.symbol_rows }),
            drop_zip,
        );
    }
}

/// From each pair of a symbol and a day a run goes on to the next, and is over
/// behind the last; then every symbol is counted once, as one with rows or as
/// an empty one.
pub proof fn law_pairs_in_order(st: PlanView, told: Seq<ReportView>, drop_zip: bool)
    requires
        st.wf(),
        st.phase != Phase::Over,
    ensures
        ({
            let (next, turn) = st.after_day().onward(told, drop_zip);
            &&& next.wf()
            &&& next.symbols == st.symbols && next.days == st.days
            &&& next.phase != Phase::Over ==> next.phase == Phase::Fetching && next.position()
                == st.position() + 1
            &&& next.phase == Phase::Over ==> st.position() + 1 == st.symbols.len()
                * st.days.len() && next.assets_ok + next.assets_empty == st.symbols.len()
            &&& turn.next == if next.phase == Phase::Over {
                TaskView::Stop
            } else {
                TaskView::Fetch {
                    symbol: next.symbol(),
                    day: next.day(),
                    url: archive::zip_address(next.symbol(), next.day()),
                }
            }
        }),
{
    let n = st.after_day();
    let size = st.days.len() as int;
    if n.at_day >= size {
        let c = n.after_symbol();
        reveal_with_fuel(PlanView::onward, 2);
        assert((st.at_symbol + 1) * size == st.at_symbol * size + size) by (nonlinear_arith);
        assert(c.at_symbol == st.at_symbol + 1);
    }
}

/// The rows of a symbol are those of its days: what a day adds is counted, and
/// a day without a file adds nothing.
pub proof fn law_rows_of_symbol(st: PlanView, rows: int)
    requires
        st.wf(),
        st.phase != Phase::Over,
        rows >= 0,
        st.at_day + 1 < st.days.len(),
    ensures
        st.on_rows(rows, false).0.symbol_rows == st.symbol_rows + rows,
        st.on_download(false).0.symbol_rows == st.symbol_rows,
        st.on_check(false).0.symbol_rows == st.symbol_rows,
        st.on_rows(rows, false).0.symbol() == st.symbol(),
{
}

/// Behind its last day a symbol is told with the rows of all its days, and
/// counts as one with rows or as an empty one.
pub proof fn law_symbol_is_counted(st: PlanView, rows: int)
    requires
        st.wf(),
        st.phase != Phase::Over,
        rows >= 0,
        st.at_day + 1 == st.days.len(),
    ensures
        ({
            let (next, turn) = st.on_rows(rows, false);
            let sum = st.symbol_rows + rows;
            &&& turn.reports.len() >= 2
            &&& turn.reports[0] == (ReportView::DayDone {
                symbol: st.symbol(),
                day: st.day(),
                rows,
            })
            &&& turn.reports[1] == (ReportView::AssetDone { symbol: st.symbol(), rows: sum })
            &&& sum > 0 ==> next.assets_ok == st.assets_ok + 1 && next.assets_empty
                == st.assets_empty
            &&& sum == 0 ==> next.assets_ok == st.assets_ok && next.assets_empty
                == st.assets_empty + 1
            &&& next.symbol_rows == 0
        }),
{
    reveal_with_fuel(PlanView::onward, 2);
}

/// Whatever happens, a fetched file is removed once the run leaves its day,
/// except one whose rows were taken and that is to be kept; and the first thing
/// told is then what became of the day.
pub proof fn law_files_are_removed(st: PlanView, rows: int, hit_limit: bool)
    requires
        st.wf(),
        st.phase != Phase::Over,
        rows >= 0,
    ensures
        st.on_download(false).1.drop_zip,
        st.on_check(false).1.drop_zip,
        st.on_rows(rows, hit_limit).1.drop_zip == !st.keep_zip,
        !st.on_download(true).1.drop_zip,
        !st.on_check(true).1.drop_zip,
        starts_with_report(
            st.on_download(false).1,
            ReportView::NotFound { symbol: st.symbol(), day: st.day() },
        ),
        starts_with_report(
            st.on_check(false).1,
            ReportView::ChecksumFailed { symbol: st.symbol(), day: st.day() },
        ),
        starts_with_report(
            st.on_rows(rows, hit_limit).1,
            ReportView::DayDone { symbol: st.symbol(), day: st.day(), rows },
        ),
{
    lemma_onward_keeps(
        st.after_day(),
        seq![ReportView::NotFound { symbol: st.symbol(), day: st.day() }],
        true,
    );
    lemma_onward_keeps(
        st.after_day(),
        seq![ReportView::ChecksumFailed { symbol: st.symbol(), day: st.day() }],
        true,
    );
    lemma_onward_keeps(
        PlanView { symbol_rows: st.symbol_rows + rows, ..st }.after_day(),
        seq![ReportView::DayDone { symbol: st.symbol(), day: st.day(), rows }],
        !st.keep_zip,
    );
}

/// The report is the first thing told.
pub open spec fn starts_with_report(t: TurnView, r: ReportView) -> bool {
    t.reports.len() > 0 && t.reports[0] == r
}

proof fn lemma_onward_keeps(st: PlanView, told: Seq<ReportView>, drop_zip: bool)
    requires
        told.len() > 0,
    ensures
        st.onward(told, drop_zip).1.drop_zip == drop_zip,
        starts_with_report(st.onward(told, drop_zip).1, told[0]),
    decreases st.symbols.len() - st.at_symbol,
{
    if st.at_symbol < st.symbols.len() && st.at_day >= st.days.len() {
        lemma_onward_keeps(
            st.after_symbol(),
            told.push(ReportView::AssetDone { symbol: st.symbol(), rows: st.symbol_rows }),
            drop_zip,
        );
    }
}

// ---------------------------------------------------------------------------
// Laws of the single steps

/// A file that was found is checked against the address that it was fetched
/// from, if checks are asked for, and else read; one that passes is read. The
/// run stays at its symbol and day, nothing is counted and nothing told.
pub proof fn law_found_file_is_checked_and_read(st: PlanView)
    ensures
        st.on_download(true).1.reports.len() == 0,
        st.on_check(true).1.reports.len() == 0,
        st.verify ==> st.on_download(true).1.next == (TaskView::Check {
            url: archive::zip_address(st.symbols[st.at_symbol], st.days[st.at_day]),
        }) && st.on_download(true).0.phase == Phase::Checking,
        !st.verify ==> st.on_download(true).1.next == (TaskView::Read {
            symbol: st.symbols[st.at_symbol],
        }) && st.on_download(true).0.phase == Phase::Reading,
        st.on_check(true).1.next == (TaskView::Read { symbol: st.symbols[st.at_symbol] }),
        st.on_check(true).0.phase == Phase::Reading,
        (PlanView { phase: st.phase, ..st.on_download(true).0 }) == st,
        (PlanView { phase: st.phase, ..st.on_check(true).0 }) == st,
{
}

/// What is told of a symbol when the run leaves a day to which `rows` rows were
/// added: nothing before its last day; then its rows, and behind the last symbol
/// how many symbols had rows and how many had none.
pub open spec fn told_of_symbol(st: PlanView, rows: int) -> Seq<ReportView> {
    let sum = st.symbol_rows + rows;
    let asset = ReportView::AssetDone { symbol: st.symbols[st.at_symbol], rows: sum };
    if st.at_day + 1 < st.days.len() {
        Seq::empty()
    } else if st.at_symbol + 1 < st.symbols.len() {
        seq![asset]
    } else {
        seq![
            asset,
            ReportView::AllDone {
                assets_ok: if sum > 0 {
                    st.assets_ok + 1
                } else {
                    st.assets_ok
                },
                assets_empty: if sum > 0 {
                    st.assets_empty
                } else {
                    st.assets_empty + 1
                },
            },
        ]
    }
}

/// The run behind a day to which `rows` rows were added.
pub open spec fn is_behind(next: PlanView, st: PlanView, rows: int) -> bool {
    let sum = st.symbol_rows + rows;
    if st.at_day + 1 < st.days.len() {
        &&& next.at_symbol == st.at_symbol && next.at_day == st.at_day + 1
        &&& next.symbol_rows == sum
        &&& next.assets_ok == st.assets_ok && next.assets_empty == st.assets_empty
        &&& next.phase == Phase::Fetching
    } else {
        &&& next.at_symbol == st.at_symbol + 1 && next.at_day == 0
        &&& next.symbol_rows == 0
        &&& next.assets_ok == st.assets_ok + if sum > 0 {
            1int
        } else {
            0int
        }
        &&& next.assets_empty == st.assets_empty + if sum > 0 {
            0int
        } else {
            1int
        }
        &&& next.phase == if st.at_symbol + 1 < st.symbols.len() {
            Phase::Fetching
        } else {
            Phase::Over
        }
    }
}

proof fn lemma_leaving_a_day(st: PlanView, rows: int, first: ReportView, drop_zip: bool)
    requires
        st.wf(),
        st.phase != Phase::Over,
        rows >= 0,
    ensures
        ({
            let counted = PlanView { symbol_rows: st.symbol_rows + rows, ..st };
            let (next, turn) = counted.after_day().onward(seq![first], drop_zip);
            &&& turn.reports == seq![first] + told_of_symbol(st, rows)
            &&& is_behind(next, st, rows)
        }),
{
    reveal_with_fuel(PlanView::onward, 2);
    let counted = PlanView { symbol_rows: st.symbol_rows + rows, ..st };
    let (next, turn) = counted.after_day().onward(seq![first], drop_zip);
    assert(turn.reports =~= seq![first] + told_of_symbol(st, rows));
}

/// When the run leaves a day it tells what became of it, and then of the symbol
/// what there is to tell; rows are counted only where they were taken.
pub proof fn law_leaving_a_day(st: PlanView, rows: int)
    requires
        st.wf(),
        st.phase != Phase::Over,
        rows >= 0,
    ensures
        st.on_rows(rows, false).1.reports == seq![
            ReportView::DayDone {
                symbol: st.symbols[st.at_symbol],
                day: st.days[st.at_day],
                rows,
            },
        ] + told_of_symbol(st, rows),
        is_behind(st.on_rows(rows, false).0, st, rows),
        st.on_download(false).1.reports == seq![
            ReportView::NotFound { symbol: st.symbols[st.at_symbol], day: st.days[st.at_day] },
        ] + told_of_symbol(st, 0),
        is_behind(st.on_download(false).0, st, 0),
        st.on_check(false).1.reports == seq![
            ReportView::ChecksumFailed {
                symbol: st.symbols[st.at_symbol],
                day: st.days[st.at_day],
            },
        ] + told_of_symbol(st, 0),
        is_behind(st.on_check(false).0, st, 0),
{
    let (symbol, day) = (st.symbol(), st.day());
    lemma_leaving_a_day(st, rows, ReportView::DayDone { symbol, day, rows }, !st.keep_zip);
    lemma_leaving_a_day(st, 0, ReportView::NotFound { symbol, day }, true);
    lemma_leaving_a_day(st, 0, ReportView::ChecksumFailed { symbol, day }, true);
    assert(PlanView { symbol_rows: st.symbol_rows + 0, ..st } == st);
}

/// The limit of rows ends the run on the spot, behind the report of the day.
pub proof fn law_limit_ends_run(st: PlanView, rows: int)
    ensures
        st.on_rows(rows, true).0.phase == Phase::Over,
        st.on_rows(rows, true).1.next == TaskView::Stop,
        st.on_rows(rows, true).1.reports == seq![
            ReportView::DayDone {
                symbol: st.symbols[st.at_symbol],
                day: st.days[st.at_day],
                rows,
            },
            ReportView::LimitReached,
        ],
{
    assert(st.on_rows(rows, true).1.reports =~= seq![
        ReportView::DayDone { symbol: st.symbols[st.at_symbol], day: st.days[st.at_day], rows },
        ReportView::LimitReached,
    ]);
}

/// A run with symbols and days starts with nothing to tell and nothing counted;
/// one without symbols tells only that it is done.
pub proof fn law_start_of_run(
    symbols: Seq<Seq<char>>,
    days: Seq<Seq<char>>,
    verify: bool,
    keep_zip: bool,
)
    ensures
        ({
            let (st, turn) = PlanView::begun(symbols, days, verify, keep_zip).onward(
                Seq::empty(),
                false,
            );
            &&& symbols.len() > 0 && days.len() > 0 ==> turn.reports.len() == 0 && st.symbols
                == symbols && st.days == days && st.verify == verify && st.keep_zip == keep_zip
                && st.symbol_rows == 0 && st.assets_ok == 0 && st.assets_empty == 0
                && st.at_symbol == 0 && st.at_day == 0
            &&& symbols.len() == 0 ==> turn.reports == seq![
                ReportView::AllDone { assets_ok: 0, assets_empty: 0 },
            ]
            &&& !turn.drop_zip || symbols.len() > 0
        }),
{
    if symbols.len() == 0 {
        let (st, turn) = PlanView::begun(symbols, days, verify, keep_zip).onward(
            Seq::empty(),
            false,
        );
        assert(turn.reports =~= seq![ReportView::AllDone { assets_ok: 0, assets_empty: 0 }]);
    }
}

/// The words of the reports.
pub proof fn law_words_of_reports(
    symbol: Seq<char>,
    day: Seq<char>,
    rows: int,
    ok: int,
    empty: int,
    total: int,
    out: Seq<char>,
)
    ensures
        (ReportView::NotFound { symbol, day }).line(total, out) == text::joined(
            seq!["[SKIP] not found/download failed:"@, symbol, day],
            ' ',
        ),
        (ReportView::ChecksumFailed { symbol, day }).line(total, out) == text::joined(
            seq!["[SKIP] checksum failed:"@, symbol, day],
            ' ',
        ),
        (ReportView::DayDone { symbol, day, rows }).line(total, out) == text::joined(
            seq!["[OK]"@, symbol, day, "rows="@ + number::int_text(rows)],
            ' ',
        ),
        (ReportView::AssetDone { symbol, rows }).line(total, out) == text::joined(
            seq!["[ASSET]"@, symbol, "total_rows="@ + number::int_text(rows)],
            ' ',
        ),
        ReportView::LimitReached.line(total, out) == text::joined(
            seq!["[DONE] max rows reached:"@, number::int_text(total)],
            ' ',
        ),
        (ReportView::AllDone { assets_ok: ok, assets_empty: empty }).line(total, out)
            == text::joined(
            seq![
                "[DONE] wrote rows="@ + number::int_text(total),
                "file="@ + out,
                "assets_ok="@ + number::int_text(ok),
                "assets_empty="@ + number::int_text(empty),
            ],
            ' ',
        ),
{
    let (r, t) = (number::int_text(rows), number::int_text(total));
    let (o, e) = (number::int_text(ok), number::int_text(empty));
    reveal_strlit(" ");
    reveal_strlit("[SKIP] not found/download failed:");
    reveal_strlit("[SKIP] not found/download failed: ");
    reveal_strlit("[SKIP] checksum failed:");
    reveal_strlit("[SKIP] checksum failed: ");
    reveal_strlit("[OK]");
    reveal_strlit("[OK] ");
    reveal_strlit("rows=");
    reveal_strlit(" rows=");
    reveal_strlit("[ASSET]");
    reveal_strlit("[ASSET] ");
    reveal_strlit("total_rows=");
    reveal_strlit(" total_rows=");
    reveal_strlit("[DONE] max rows reached:");
    reveal_strlit("[DONE] max rows reached: ");
    reveal_strlit("file=");
    reveal_strlit(" file=");
    reveal_strlit("assets_ok=");
    reveal_strlit(" assets_ok=");
    reveal_strlit("assets_empty=");
    reveal_strlit(" assets_empty=");
    let gap = seq![' '];
    assert(" "@ =~= gap);
    assert("[SKIP] not found/download failed: "@ =~= "[SKIP] not found/download failed:"@ + gap);
    assert("[SKIP] checksum failed: "@ =~= "[SKIP] checksum failed:"@ + gap);
    assert("[OK] "@ =~= "[OK]"@ + gap);
    assert(" rows="@ =~= gap + "rows="@);
    assert("[ASSET] "@ =~= "[ASSET]"@ + gap);
    assert(" total_rows="@ =~= gap + "total_rows="@);
    assert("[DONE] max rows reached: "@ =~= "[DONE] max rows reached:"@ + gap);
    assert(" file="@ =~= gap + "file="@);
    assert(" assets_ok="@ =~= gap + "assets_ok="@);
    assert(" assets_empty="@ =~= gap + "assets_empty="@);
    text::lemma_joined_three("[SKIP] not found/download failed:"@, symbol, day, ' ');
    text::lemma_joined_three("[SKIP] checksum failed:"@, symbol, day, ' ');
    text::lemma_joined_four("[OK]"@, symbol, day, "rows="@ + r, ' ');
    text::lemma_joined_three("[ASSET]"@, symbol, "total_rows="@ + r, ' ');
    text::lemma_joined_two("[DONE] max rows reached:"@, t, ' ');
    text::lemma_joined_four(
        "[DONE] wrote rows="@ + t,
        "file="@ + out,
        "assets_ok="@ + o,
        "assets_empty="@ + e,
        ' ',
    );
    assert((ReportView::DayDone { symbol, day, rows }).line(total, out) =~= "[OK]"@ + gap + symbol
        + gap + day + gap + ("rows="@ + r));
    assert((ReportView::AssetDone { symbol, rows }).line(total, out) =~= "[ASSET]"@ + gap + symbol
        + gap + ("total_rows="@ + r));
    assert((ReportView::AllDone { assets_ok: ok, assets_empty: empty }).line(total, out)
        =~= "[DONE] wrote rows="@ + t + gap + ("file="@ + out) + gap + ("assets_ok="@ + o) + gap + (
    "assets_empty="@ + e));
}

/// The words of the line that tells what a run is about to do.
pub proof fn law_words_of_config(a: options::ArgsView, out: Seq<char>)
    ensures
        config_text(a, out) == text::joined(
            seq![
                if a.all_assets {
                    "[CONFIG] mode=all-assets"@
                } else {
                    "[CONFIG] mode=selected"@
                },
                "start="@ + a.start,
                "end="@ + a.end,
                "out="@ + out,
            ],
            ' ',
        ),
{
    let gap = seq![' '];
    let mode = if a.all_assets {
        "[CONFIG] mode=all-assets"@
    } else {
        "[CONFIG] mode=selected"@
    };
    reveal_strlit("[CONFIG] mode=");
    reveal_strlit("all-assets");
    reveal_strlit("selected");
    reveal_strlit("[CONFIG] mode=all-assets");
    reveal_strlit("[CONFIG] mode=selected");
    reveal_strlit("start=");
    reveal_strlit(" start=");
    reveal_strlit("end=");
    reveal_strlit(" end=");
    reveal_strlit("out=");
    reveal_strlit(" out=");
    assert("[CONFIG] mode="@ + "all-assets"@ =~= "[CONFIG] mode=all-assets"@);
    assert("[CONFIG] mode="@ + "selected"@ =~= "[CONFIG] mode=selected"@);
    assert(" start="@ =~= gap + "start="@);
    assert(" end="@ =~= gap + "end="@);
    assert(" out="@ =~= gap + "out="@);
    text::lemma_joined_four(mode, "start="@ + a.start, "end="@ + a.end, "out="@ + out, ' ');
    assert(config_text(a, out) =~= mode + gap + ("start="@ + a.start) + gap + ("end="@ + a.end)
        + gap + ("out="@ + out));
}

/// What a plan and a turn hold are their fields.
pub proof fn law_fields_of_plan(p: Plan, t: Turn, i: int)
    ensures
        p@.symbols == text::texts(p.symbols@) && p@.days == text::texts(p.days@),
        p@.verify == p.verify && p@.keep_zip == p.keep_zip && p@.phase == p.phase,
        p@.at_symbol == p.at_symbol && p@.at_day == p.at_day,
        p@.symbol_rows == p.symbol_rows && p@.assets_ok == p.assets_ok && p@.assets_empty
            == p.assets_empty,
        t@.drop_zip == t.drop_zip && t@.next == t.next@,
        t@.reports.len() == t.reports@.len(),
        0 <= i < t.reports@.len() ==> t@.reports[i] == t.reports@[i]@,
{
}

/// What reports and tasks hold are their fields.
pub proof fn law_fields_of_reports(symbol: String, day: String, url: String, n: usize, m: usize)
    ensures
        (Report::NotFound { symbol, day })@ == (ReportView::NotFound { symbol: symbol@, day: day@ }),
        (Report::ChecksumFailed { symbol, day })@ == (ReportView::ChecksumFailed {
            symbol: symbol@,
            day: day@,
        }),
        (Report::DayDone { symbol, day, rows: n })@ == (ReportView::DayDone {
            symbol: symbol@,
            day: day@,
            rows: n as int,
        }),
        (Report::AssetDone { symbol, rows: n })@ == (ReportView::AssetDone {
            symbol: symbol@,
            rows: n as int,
        }),
        Report::LimitReached@ == ReportView::LimitReached,
        (Report::AllDone { assets_ok: n, assets_empty: m })@ == (ReportView::AllDone {
            assets_ok: n as int,
            assets_empty: m as int,
        }),
        (Task::Fetch { symbol, day, url })@ == (TaskView::Fetch {
            symbol: symbol@,
            day: day@,
            url: url@,
        }),
        (Task::Check { url })@ == (TaskView::Check { url: url@ }),
        (Task::Read { symbol })@ == (TaskView::Read { symbol: symbol@ }),
        Task::Stop@ == TaskView::Stop,
{
}

} // verus!
