//! The command line: its options, their defaults, and what they ask for.
use crate::clock;
use crate::number;
use crate::text;
use vstd::prelude::*;

verus! {

/// An option without a value.
#[derive(Clone, Copy, Debug, PartialEq, Eq, Structural)]
pub enum Flag {
    Append,
    Resume,
    Verify,
    KeepZip,
    AllAssets,
}

/// An option with a value.
#[derive(Clone, Copy, Debug, PartialEq, Eq, Structural)]
pub enum Key {
    Symbol,
    Symbols,
    Start,
    End,
    Out,
    MaxRows,
    TmpDir,
    MaxSymbols,
}

/// The options as they were given.
pub struct Given {
    pub symbol: Option<String>,
    pub symbols: Option<String>,
    pub start: Option<String>,
    pub end: Option<String>,
    pub out: Option<String>,
    pub max_rows: Option<String>,
    pub tmp_dir: Option<String>,
    pub max_symbols: Option<String>,
    pub append: bool,
    pub resume: bool,
    pub verify: bool,
    pub keep_zip: bool,
    pub all_assets: bool,
}

#[verifier::ext_equal]
pub struct GivenView {
    pub symbol: Option<Seq<char>>,
    pub symbols: Option<Seq<char>>,
    pub start: Option<Seq<char>>,
    pub end: Option<Seq<char>>,
    pub out: Option<Seq<char>>,
    pub max_rows: Option<Seq<char>>,
    pub tmp_dir: Option<Seq<char>>,
    pub max_symbols: Option<Seq<char>>,
    pub append: bool,
    pub resume: bool,
    pub verify: bool,
    pub keep_zip: bool,
    pub all_assets: bool,
}

impl View for Given {
    type V = GivenView;

    open spec fn view(&self) -> GivenView {
        GivenView {
            symbol: text::opt_text(self.symbol),
            symbols: text::opt_text(self.symbols),
            start: text::opt_text(self.start),
            end: text::opt_text(self.end),
            out: text::opt_text(self.out),
            max_rows: text::opt_text(self.max_rows),
            tmp_dir: text::opt_text(self.tmp_dir),
            max_symbols: text::opt_text(self.max_symbols),
            append: self.append,
            resume: self.resume,
            verify: self.verify,
            keep_zip: self.keep_zip,
            all_assets: self.all_assets,
        }
    }
}

impl GivenView {
    /// Nothing given.
    pub open spec fn nothing() -> GivenView {
        GivenView {
            symbol: None,
            symbols: None,
            start: None,
            end: None,
            out: None,
            max_rows: None,
            tmp_dir: None,
            max_symbols: None,
            append: false,
            resume: false,
            verify: false,
            keep_zip: false,
            all_assets: false,
        }
    }

    /// With a flag added.
    pub open spec fn with_flag(self, f: Flag) -> GivenView {
        match f {
            Flag::Append => GivenView { append: true, ..self },
            Flag::Resume => GivenView { resume: true, ..self },
            Flag::Verify => GivenView { verify: true, ..self },
            Flag::KeepZip => GivenView { keep_zip: true, ..self },
            Flag::AllAssets => GivenView { all_assets: true, ..self },
        }
    }

    /// With a value given, which replaces one given before.
    pub open spec fn with_value(self, k: Key, v: Seq<char>) -> GivenView {
        match k {
            Key::Symbol => GivenView { symbol: Some(v), ..self },
            Key::Symbols => GivenView { symbols: Some(v), ..self },
            Key::Start => GivenView { start: Some(v), ..self },
            Key::End => GivenView { end: Some(v), ..self },
            Key::Out => GivenView { out: Some(v), ..self },
            Key::MaxRows => GivenView { max_rows: Some(v), ..self },
            Key::TmpDir => GivenView { tmp_dir: Some(v), ..self },
            Key::MaxSymbols => GivenView { max_symbols: Some(v), ..self },
        }
    }
}

/// The flag that an argument is.
pub open spec fn flag_named(arg: Seq<char>) -> Option<Flag> {
    if arg == "--append"@ {
        Some(Flag::Append)
    } else if arg == "--resume"@ {
        Some(Flag::Resume)
    } else if arg == "--verify"@ {
        Some(Flag::Verify)
    } else if arg == "--keep-zip"@ {
        Some(Flag::KeepZip)
    } else if arg == "--all-assets"@ {
        Some(Flag::AllAssets)
    } else {
        None
    }
}

/// The option with a value that an argument names.
pub open spec fn key_named(arg: Seq<char>) -> Option<Key> {
    if arg == "--symbol"@ {
        Some(Key::Symbol)
    } else if arg == "--symbols"@ {
        Some(Key::Symbols)
    } else if arg == "--start"@ {
        Some(Key::Start)
    } else if arg == "--end"@ {
        Some(Key::End)
    } else if arg == "--out"@ {
        Some(Key::Out)
    } else if arg == "--max-rows"@ {
        Some(Key::MaxRows)
    } else if arg == "--tmp-dir"@ {
        Some(Key::TmpDir)
    } else if arg == "--max-symbols"@ {
        Some(Key::MaxSymbols)
    } else {
        None
    }
}

/// What a command line comes to.
pub enum Scan {
    Help,
    Bad(Seq<char>),
    Done(GivenView),
}

/// Reads the arguments from left to right.
pub open spec fn scan(argv: Seq<Seq<char>>, g: GivenView) -> Scan
    decreases argv.len(),
{
    if argv.len() == 0 {
        Scan::Done(g)
    } else if argv[0] == "--help"@ || argv[0] == "-h"@ {
        Scan::Help
    } else if !text::starts_with(argv[0], "--"@) {
        Scan::Bad("unexpected positional argument: "@ + argv[0])
    } else {
        match (flag_named(argv[0]), key_named(argv[0])) {
            (Some(f), _) => scan(argv.skip(1), g.with_flag(f)),
            (None, Some(k)) => if argv.len() == 1 {
                Scan::Bad("missing value after "@ + argv[0])
            } else {
                scan(argv.skip(2), g.with_value(k, argv[1]))
            },
            (None, None) => Scan::Bad("unknown option: "@ + argv[0]),
        }
    }
}

fn flag_of(arg: &str) -> (r: Option<Flag>)
    ensures
        r == flag_named(arg@),
{
    if text::same_text(arg, "--append") {
        Some(Flag::Append)
    } else if text::same_text(arg, "--resume") {
        Some(Flag::Resume)
    } else if text::same_text(arg, "--verify") {
        Some(Flag::Verify)
    } else if text::same_text(arg, "--keep-zip") {
        Some(Flag::KeepZip)
    } else if text::same_text(arg, "--all-assets") {
        Some(Flag::AllAssets)
    } else {
        None
    }
}

fn key_of(arg: &str) -> (r: Option<Key>)
    ensures
        r == key_named(arg@),
{
    if text::same_text(arg, "--symbol") {
        Some(Key::Symbol)
    } else if text::same_text(arg, "--symbols") {
        Some(Key::Symbols)
    } else if text::same_text(arg, "--start") {
        Some(Key::Start)
    } else if text::same_text(arg, "--end") {
        Some(Key::End)
    } else if text::same_text(arg, "--out") {
        Some(Key::Out)
    } else if text::same_text(arg, "--max-rows") {
        Some(Key::MaxRows)
    } else if text::same_text(arg, "--tmp-dir") {
        Some(Key::TmpDir)
    } else if text::same_text(arg, "--max-symbols") {
        Some(Key::MaxSymbols)
    } else {
        None
    }
}

impl Given {
    fn nothing() -> (r: Given)
        ensures
            r@ == GivenView::nothing(),
    {
        Given {
            symbol: None,
            symbols: None,
            start: None,
            end: None,
            out: None,
            max_rows: None,
            tmp_dir: None,
            max_symbols: None,
            append: false,
            resume: false,
            verify: false,
            keep_zip: false,
            all_assets: false,
        }
    }

    fn set_flag(&mut self, f: Flag)
        ensures
            final(self)@ == old(self)@.with_flag(f),
    {
        match f {
            Flag::Append => self.append = true,
            Flag::Resume => self.resume = true,
            Flag::Verify => self.verify = true,
            Flag::KeepZip => self.keep_zip = true,
            Flag::AllAssets => self.all_assets = true,
        }
    }

    fn set_value(&mut self, k: Key, v: String)
        ensures
            final(self)@ == old(self)@.with_value(k, v@),
    {
        match k {
            Key::Symbol => self.symbol = Some(v),
            Key::Symbols => self.symbols = Some(v),
            Key::Start => self.start = Some(v),
            Key::End => self.end = Some(v),
            Key::Out => self.out = Some(v),
            Key::MaxRows => self.max_rows = Some(v),
            Key::TmpDir => self.tmp_dir = Some(v),
            Key::MaxSymbols => self.max_symbols = Some(v),
        }
    }
}

/// A command line that asks for something.
enum Scanned {
    Help,
    Done(Given),
}

fn complaint(head: &str, arg: &str) -> (r: String)
    ensures
        r@ == head@ + arg@,
{
    let mut r = head.to_owned();
    r.append(arg);
    r
}

fn scan_args(argv: &Vec<String>) -> (r: Result<Scanned, String>)
    ensures
        match r {
            Ok(Scanned::Help) => scan(text::texts(argv@), GivenView::nothing()) == Scan::Help,
            Ok(Scanned::Done(g)) => scan(text::texts(argv@), GivenView::nothing()) == Scan::Done(
                g@,
            ),
            Err(e) => scan(text::texts(argv@), GivenView::nothing()) == Scan::Bad(e@),
        },
{
    let ghost all = text::texts(argv@);
    let mut g = Given::nothing();
    let mut i: usize = 0;
    assert(all.skip(0) =~= all);
    while i < argv.len()
        invariant
            i <= argv@.len(),
            all == text::texts(argv@),
            scan(all, GivenView::nothing()) == scan(all.skip(i as int), g@),
        decreases argv@.len() - i,
    {
        let arg = argv[i].as_str();
        assert(all.skip(i as int)[0] == arg@);
        if text::same_text(arg, "--help") || text::same_text(arg, "-h") {
            return Ok(Scanned::Help);
        }
        if !text::begins_with(arg, "--") {
            return Err(complaint("unexpected positional argument: ", arg));
        }
        if let Some(f) = flag_of(arg) {
            g.set_flag(f);
            assert(all.skip(i as int).skip(1) =~= all.skip(i + 1));
            i = i + 1;
        } else if let Some(k) = key_of(arg) {
            if argv.len() - i == 1 {
                return Err(complaint("missing value after ", arg));
            }
            assert(all.skip(i as int)[1] == argv@[i + 1]@);
            g.set_value(k, argv[i + 1].clone());
            assert(all.skip(i as int).skip(2) =~= all.skip(i + 2));
            i = i + 2;
        } else {
            return Err(complaint("unknown option: ", arg));
        }
    }
    Ok(Scanned::Done(g))
}

// ---------------------------------------------------------------------------
// Settings

/// The settings of a run. Without `tmp_dir` the temporary directory of the
/// system is meant.
#[derive(Clone, Debug)]
pub struct Args {
    pub symbol: String,
    pub symbols: Option<String>,
    pub all_assets: bool,
    pub max_symbols: usize,
    pub start: String,
    pub end: String,
    pub out: String,
    pub append: bool,
    pub resume: bool,
    pub verify: bool,
    pub keep_zip: bool,
    pub tmp_dir: Option<String>,
    pub max_rows: usize,
}

#[verifier::ext_equal]
pub struct ArgsView {
    pub symbol: Seq<char>,
    pub symbols: Option<Seq<char>>,
    pub all_assets: bool,
    pub max_symbols: int,
    pub start: Seq<char>,
    pub end: Seq<char>,
    pub out: Seq<char>,
    pub append: bool,
    pub resume: bool,
    pub verify: bool,
    pub keep_zip: bool,
    pub tmp_dir: Option<Seq<char>>,
    pub max_rows: int,
}

impl View for Args {
    type V = ArgsView;

    open spec fn view(&self) -> ArgsView {
        ArgsView {
            symbol: self.symbol@,
            symbols: text::opt_text(self.symbols),
            all_assets: self.all_assets,
            max_symbols: self.max_symbols as int,
            start: self.start@,
            end: self.end@,
            out: self.out@,
            append: self.append,
            resume: self.resume,
            verify: self.verify,
            keep_zip: self.keep_zip,
            tmp_dir: text::opt_text(self.tmp_dir),
            max_rows: self.max_rows as int,
        }
    }
}

impl Args {
    /// Whether rows are added to the output file rather than written anew.
    pub fn append_mode(&self) -> (r: bool)
        ensures
            r == (self@.append || self@.resume),
    {
        self.append || self.resume
    }
}

pub open spec fn given_or(v: Option<Seq<char>>, default: Seq<char>) -> Seq<char> {
    match v {
        Some(x) => x,
        None => default,
    }
}

/// A count; zero if none is given.
pub open spec fn count_of(v: Option<Seq<char>>) -> Result<int, number::IntError> {
    match v {
        Some(x) => number::read_usize(x),
        None => Ok(0),
    }
}

/// The settings that the given options come to. All assets are meant unless a
/// symbol is named. The first day is `default_day` unless it is given; the last
/// day is the first one if that is given, and else `default_day`, unless it is
/// given itself.
pub open spec fn settings(g: GivenView, default_day: Seq<char>) -> Result<ArgsView, Seq<char>> {
    match (count_of(g.max_rows), count_of(g.max_symbols)) {
        (Err(e), _) => Err("bad --max-rows: "@ + e.message()),
        (_, Err(e)) => Err("bad --max-symbols: "@ + e.message()),
        (Ok(max_rows), Ok(max_symbols)) => Ok(
            ArgsView {
                symbol: text::upper(given_or(g.symbol, "BTCUSDT"@)),
                symbols: g.symbols,
                all_assets: g.all_assets || (g.symbol is None && g.symbols is None),
                max_symbols,
                start: given_or(g.start, default_day),
                end: given_or(g.end, given_or(g.start, default_day)),
                out: given_or(g.out, "input-bn.txt"@),
                append: g.append,
                resume: g.resume,
                verify: g.verify,
                keep_zip: g.keep_zip,
                tmp_dir: g.tmp_dir,
                max_rows,
            },
        ),
    }
}

fn text_or(v: Option<String>, default: &str) -> (r: String)
    ensures
        r@ == given_or(text::opt_text(v), default@),
{
    match v {
        Some(x) => x,
        None => default.to_owned(),
    }
}

fn count(v: &Option<String>) -> (r: Result<usize, number::IntError>)
    ensures
        match r {
            Ok(n) => count_of(text::opt_text(*v)) == Ok::<int, number::IntError>(n as int),
            Err(e) => count_of(text::opt_text(*v)) == Err::<int, number::IntError>(e),
        },
{
    match v {
        Some(x) => number::parse_usize(x.as_str()),
        None => Ok(0),
    }
}

fn settle(g: Given, default_day: &str) -> (r: Result<Args, String>)
    ensures
        match r {
            Ok(a) => settings(g@, default_day@) == Ok::<ArgsView, Seq<char>>(a@),
            Err(e) => settings(g@, default_day@) == Err::<ArgsView, Seq<char>>(e@),
        },
{
    let max_rows: usize = match count(&g.max_rows) {
        Ok(n) => n,
        Err(e) => return Err(complaint("bad --max-rows: ", e.text())),
    };
    let max_symbols: usize = match count(&g.max_symbols) {
        Ok(n) => n,
        Err(e) => return Err(complaint("bad --max-symbols: ", e.text())),
    };
    let all_assets = g.all_assets || (g.symbol.is_none() && g.symbols.is_none());
    let start = text_or(g.start, default_day);
    let end = text_or(g.end, start.as_str());
    let symbol = text_or(g.symbol, "BTCUSDT");
    let args = Args {
        symbol: text::upper_text(symbol.as_str()),
        symbols: g.symbols,
        all_assets,
        max_symbols,
        start,
        end,
        out: text_or(g.out, "input-bn.txt"),
        append: g.append,
        resume: g.resume,
        verify: g.verify,
        keep_zip: g.keep_zip,
        tmp_dir: g.tmp_dir,
        max_rows,
    };
    Ok(args)
}

/// What a command line asks for.
pub enum Command {
    Help,
    Run(Args),
}

pub enum CommandView {
    Help,
    Run(ArgsView),
}

impl View for Command {
    type V = CommandView;

    open spec fn view(&self) -> CommandView {
        match self {
            Command::Help => CommandView::Help,
            Command::Run(a) => CommandView::Run(a@),
        }
    }
}

/// What the arguments ask for.
pub open spec fn command(argv: Seq<Seq<char>>, default_day: Seq<char>) -> Result<
    CommandView,
    Seq<char>,
> {
    match scan(argv, GivenView::nothing()) {
        Scan::Help => Ok(CommandView::Help),
        Scan::Bad(e) => Err(e),
        Scan::Done(g) => match settings(g, default_day) {
            Ok(a) => Ok(CommandView::Run(a)),
            Err(e) => Err(e),
        },
    }
}

/// Reads the arguments, without the name of the program; `default_day` is the
/// day to take where none is given.
pub fn parse_args_for_day(argv: &Vec<String>, default_day: &str) -> (r: Result<Command, String>)
    ensures
        match r {
            Ok(c) => command(text::texts(argv@), default_day@) == Ok::<CommandView, Seq<char>>(c@),
            Err(e) => command(text::texts(argv@), default_day@) == Err::<CommandView, Seq<char>>(
                e@,
            ),
        },
{
    match scan_args(argv) {
        Err(e) => Err(e),
        Ok(Scanned::Help) => Ok(Command::Help),
        Ok(Scanned::Done(g)) => match settle(g, default_day) {
            Ok(a) => Ok(Command::Run(a)),
            Err(e) => Err(e),
        },
    }
}

/// What the arguments ask for at a time, in seconds since the Unix epoch.
pub open spec fn asked_at(argv: Seq<Seq<char>>, secs: u64) -> Result<CommandView, Seq<char>> {
    command(argv, clock::day_before_text(secs))
}

/// Reads the arguments, without the name of the program; where no day is given,
/// yesterday in UTC is taken. Which day that is, is not stated.
pub fn parse_args(argv: &Vec<String>) -> (r: Result<Command, String>)
    ensures
        match r {
            Ok(c) => exists|secs: u64| #[trigger]
                asked_at(text::texts(argv@), secs) == Ok::<CommandView, Seq<char>>(c@),
            Err(e) => exists|secs: u64| #[trigger]
                asked_at(text::texts(argv@), secs) == Err::<CommandView, Seq<char>>(e@),
        },
{
    let day = clock::yesterday_utc_date();
    let r = parse_args_for_day(argv, day.as_str());
    proof {
        let secs = choose|secs: u64| day@ == #[trigger] clock::day_before_text(secs);
        assert(asked_at(text::texts(argv@), secs) == command(text::texts(argv@), day@));
    }
    r
}

// ---------------------------------------------------------------------------
// Laws

/// A command line that is read to its end can be continued.
pub proof fn law_scan_continues(a: Seq<Seq<char>>, b: Seq<Seq<char>>, g: GivenView)
    ensures
        scan(a, g) matches Scan::Done(h) ==> scan(a + b, g) == scan(b, h),
    decreases a.len(),
{
    if a.len() == 0 {
        assert(a + b =~= b);
    } else {
        assert((a + b)[0] == a[0]);
        if let Some(f) = flag_named(a[0]) {
            assert((a + b).skip(1) =~= a.skip(1) + b);
            law_scan_continues(a.skip(1), b, g.with_flag(f));
        } else if let Some(k) = key_named(a[0]) {
            if a.len() > 1 {
                assert((a + b)[1] == a[1]);
                assert((a + b).skip(2) =~= a.skip(2) + b);
                law_scan_continues(a.skip(2), b, g.with_value(k, a[1]));
            }
        }
    }
}

/// Of two values for one option the later one counts; the other options stay
/// as they were.
pub proof fn law_last_value_counts(
    a: Seq<Seq<char>>,
    name: Seq<char>,
    v: Seq<char>,
    g: GivenView,
)
    requires
        key_named(name) is Some,
    ensures
        scan(a, g) matches Scan::Done(h) ==> scan(a + seq![name, v], g) == Scan::Done(
            h.with_value(key_named(name)->0, v),
        ),
{
    if let Scan::Done(h) = scan(a, g) {
        let b = seq![name, v];
        law_scan_continues(a, b, g);
        lemma_names(name);
        assert(b.skip(2) =~= Seq::<Seq<char>>::empty());
        assert(scan(b.skip(2), h.with_value(key_named(name)->0, v)) == Scan::Done(
            h.with_value(key_named(name)->0, v),
        ));
    }
}

/// Options begin with two dashes, are no call for help, and are not both a flag
/// and an option with a value.
#[verifier::spinoff_prover]
proof fn lemma_names(name: Seq<char>)
    requires
        key_named(name) is Some || flag_named(name) is Some,
    ensures
        text::starts_with(name, "--"@),
        name != "--help"@,
        name != "-h"@,
        key_named(name) is None || flag_named(name) is None,
{
    reveal_strlit("--");
    reveal_strlit("-h");
    reveal_strlit("--help");
    reveal_strlit("--append");
    reveal_strlit("--resume");
    reveal_strlit("--verify");
    reveal_strlit("--keep-zip");
    reveal_strlit("--all-assets");
    reveal_strlit("--symbol");
    reveal_strlit("--symbols");
    reveal_strlit("--start");
    reveal_strlit("--end");
    reveal_strlit("--out");
    reveal_strlit("--max-rows");
    reveal_strlit("--tmp-dir");
    reveal_strlit("--max-symbols");
    assert(name.len() > 2);
    assert("-h"@.len() == 2);
    assert(name.take(2) =~= "--"@);
    assert(name.len() == 6 ==> name[2] != 'h');
    assert("--help"@[2] == 'h');
    assert(name[2] != 'h');
    assert(flag_named(name) is Some ==> name[2] == 'a' || name[2] == 'r' || name[2] == 'v'
        || name[2] == 'k');
    assert(key_named(name) is Some ==> name[2] == 's' || name[2] == 'e' || name[2] == 'o'
        || name[2] == 'm' || name[2] == 't');
}

/// Without options: all assets, the default day alone, written anew to the
/// default file, without limits.
pub proof fn law_defaults(default_day: Seq<char>)
    ensures
        command(Seq::empty(), default_day) == Ok::<CommandView, Seq<char>>(
            CommandView::Run(
                ArgsView {
                    symbol: text::upper("BTCUSDT"@),
                    symbols: None,
                    all_assets: true,
                    max_symbols: 0,
                    start: default_day,
                    end: default_day,
                    out: "input-bn.txt"@,
                    append: false,
                    resume: false,
                    verify: false,
                    keep_zip: false,
                    tmp_dir: None,
                    max_rows: 0,
                },
            ),
        ),
{
}

/// Naming a symbol turns the default of all assets off, unless all assets are
/// asked for as well.
pub proof fn law_named_symbol_is_not_all_assets(g: GivenView, default_day: Seq<char>)
    ensures
        settings(g, default_day) matches Ok(a) ==> (a.all_assets <==> g.all_assets || !(g.symbol
            is Some || g.symbols is Some)),
{
}

// ---------------------------------------------------------------------------
// The order of options

/// An option with all that belongs to it: a flag, or an option with its value.
pub enum Group {
    Flag { name: Seq<char> },
    Valued { name: Seq<char>, value: Seq<char> },
}

impl Group {
    pub open spec fn name(self) -> Seq<char> {
        match self {
            Group::Flag { name } => name,
            Group::Valued { name, value } => name,
        }
    }

    /// The name is that of a flag, or that of an option with a value.
    pub open spec fn is_known(self) -> bool {
        match self {
            Group::Flag { name } => flag_named(name) is Some,
            Group::Valued { name, value } => key_named(name) is Some,
        }
    }

    /// The arguments that the option is given with.
    pub open spec fn words(self) -> Seq<Seq<char>> {
        match self {
            Group::Flag { name } => seq![name],
            Group::Valued { name, value } => seq![name, value],
        }
    }

    /// What is given, with the option added.
    pub open spec fn added_to(self, g: GivenView) -> GivenView {
        match self {
            Group::Flag { name } => g.with_flag(flag_named(name)->0),
            Group::Valued { name, value } => g.with_value(key_named(name)->0, value),
        }
    }
}

/// The command line that is made of some options.
pub open spec fn line_of(groups: Seq<Group>) -> Seq<Seq<char>>
    decreases groups.len(),
{
    if groups.len() == 0 {
        Seq::empty()
    } else {
        groups[0].words() + line_of(groups.drop_first())
    }
}

pub open spec fn all_known(groups: Seq<Group>) -> bool {
    forall|i: int| 0 <= i < groups.len() ==> (#[trigger] groups[i]).is_known()
}

/// No option is given twice.
pub open spec fn each_once(groups: Seq<Group>) -> bool {
    forall|i: int, j: int|
        0 <= i < j < groups.len() ==> (#[trigger] groups[i]).name() != (#[trigger] groups[j]).name()
}

/// What is given by some options, one after the other.
spec fn all_added(groups: Seq<Group>, g: GivenView) -> GivenView
    decreases groups.len(),
{
    if groups.len() == 0 {
        g
    } else {
        all_added(groups.drop_first(), groups[0].added_to(g))
    }
}

proof fn lemma_scan_groups(groups: Seq<Group>, g: GivenView)
    requires
        all_known(groups),
    ensures
        scan(line_of(groups), g) == Scan::Done(all_added(groups, g)),
    decreases groups.len(),
{
    if groups.len() > 0 {
        let head = groups[0];
        let rest = groups.drop_first();
        let line = line_of(groups);
        assert(head.is_known());
        lemma_names(head.name());
        assert forall|i: int| 0 <= i < rest.len() implies (#[trigger] rest[i]).is_known() by {
            assert(rest[i] == groups[i + 1]);
        }
        lemma_scan_groups(rest, head.added_to(g));
        assert(line[0] == head.name());
        match head {
            Group::Flag { name } => {
                assert(line.skip(1) =~= line_of(rest));
            },
            Group::Valued { name, value } => {
                assert(line[1] == value);
                assert(line.skip(2) =~= line_of(rest));
            },
        }
    }
}

proof fn lemma_swap(x: Group, y: Group, g: GivenView)
    requires
        x.is_known(),
        y.is_known(),
        x.name() != y.name(),
    ensures
        x.added_to(y.added_to(g)) == y.added_to(x.added_to(g)),
{
}

/// An option that is given nowhere else can as well be given first.
proof fn lemma_to_front(groups: Seq<Group>, i: int, g: GivenView)
    requires
        all_known(groups),
        0 <= i < groups.len(),
        forall|j: int| 0 <= j < i ==> (#[trigger] groups[j]).name() != groups[i].name(),
    ensures
        all_added(groups, g) == all_added(groups.remove(i), groups[i].added_to(g)),
    decreases i,
{
    let rest = groups.drop_first();
    if i == 0 {
        assert(groups.remove(0) =~= rest);
    } else {
        let (first, moved) = (groups[0], groups[i]);
        assert(first.is_known() && moved.is_known());
        assert forall|j: int| 0 <= j < rest.len() implies (#[trigger] rest[j]).is_known() by {
            assert(rest[j] == groups[j + 1]);
        }
        assert forall|j: int| 0 <= j < i - 1 implies (#[trigger] rest[j]).name()
            != rest[i - 1].name() by {
            assert(rest[j] == groups[j + 1]);
        }
        lemma_to_front(rest, i - 1, first.added_to(g));
        lemma_swap(first, moved, g);
        assert(groups.remove(i).drop_first() =~= rest.remove(i - 1));
        assert(groups.remove(i)[0] == first);
    }
}

proof fn lemma_order(a: Seq<Group>, b: Seq<Group>, g: GivenView)
    requires
        all_known(a),
        each_once(a),
        a.to_multiset() == b.to_multiset(),
    ensures
        all_known(b),
        all_added(a, g) == all_added(b, g),
    decreases a.len(),
{
    a.to_multiset_ensures();
    b.to_multiset_ensures();
    assert(a.len() == a.to_multiset().len() && b.len() == b.to_multiset().len());
    assert forall|j: int| 0 <= j < b.len() implies (#[trigger] b[j]).is_known() by {
        assert(b.contains(b[j]));
        assert(b.to_multiset().count(b[j]) > 0);
        assert(a.contains(b[j]));
    }
    if a.len() > 0 {
        assert(a.contains(a[0]));
        assert(a.to_multiset().count(a[0]) > 0);
        assert(b.contains(a[0]));
        let i = choose|i: int| 0 <= i < b.len() && b[i] == a[0];
        let (rest, left) = (a.drop_first(), b.remove(i));
        assert(a.remove(0) =~= rest);
        rest.to_multiset_ensures();
        left.to_multiset_ensures();
        assert(rest.to_multiset() == left.to_multiset());
        assert forall|j: int| 0 <= j < i implies (#[trigger] b[j]).name() != b[i].name() by {
            assert(left[j] == b[j]);
            assert(left.contains(left[j]));
            assert(left.to_multiset().count(left[j]) > 0);
            assert(rest.contains(left[j]));
            let k = choose|k: int| 0 <= k < rest.len() && rest[k] == left[j];
            assert(a[k + 1] == rest[k]);
        }
        lemma_to_front(b, i, g);
        assert forall|j: int| 0 <= j < rest.len() implies (#[trigger] rest[j]).is_known() by {
            assert(rest[j] == a[j + 1]);
        }
        assert forall|j: int, k: int| 0 <= j < k < rest.len() implies (#[trigger] rest[j]).name()
            != (#[trigger] rest[k]).name() by {
            assert(rest[j] == a[j + 1] && rest[k] == a[k + 1]);
        }
        lemma_order(rest, left, a[0].added_to(g));
    }
}

/// The order of options does not matter: two command lines made of the same
/// options, none of them given twice, ask for the same.
pub proof fn law_order_does_not_matter(a: Seq<Group>, b: Seq<Group>, default_day: Seq<char>)
    requires
        all_known(a),
        each_once(a),
        a.to_multiset() == b.to_multiset(),
    ensures
        command(line_of(a), default_day) == command(line_of(b), default_day),
{
    lemma_order(a, b, GivenView::nothing());
    lemma_scan_groups(a, GivenView::nothing());
    lemma_scan_groups(b, GivenView::nothing());
}

proof fn lemma_groups(argv: Seq<Seq<char>>, g: GivenView) -> (groups: Seq<Group>)
    requires
        scan(argv, g) is Done,
    ensures
        all_known(groups),
        line_of(groups) == argv,
    decreases argv.len(),
{
    if argv.len() == 0 {
        assert(argv =~= Seq::<Seq<char>>::empty());
        Seq::empty()
    } else {
        let (head, rest) = match flag_named(argv[0]) {
            Some(f) => (
                Group::Flag { name: argv[0] },
                lemma_groups(argv.skip(1), g.with_flag(f)),
            ),
            None => (
                Group::Valued { name: argv[0], value: argv[1] },
                lemma_groups(argv.skip(2), g.with_value(key_named(argv[0])->0, argv[1])),
            ),
        };
        let groups = seq![head] + rest;
        assert(groups.drop_first() =~= rest);
        assert forall|i: int| 0 <= i < groups.len() implies (#[trigger] groups[i]).is_known() by {
            if i > 0 {
                assert(groups[i] == rest[i - 1]);
            }
        }
        assert(line_of(groups) =~= argv);
        groups
    }
}

/// Every command line that asks for a run is made of options.
pub proof fn law_run_is_asked_by_options(argv: Seq<Seq<char>>, default_day: Seq<char>)
    requires
        command(argv, default_day) matches Ok(CommandView::Run(_)),
    ensures
        exists|groups: Seq<Group>| all_known(groups) && #[trigger] line_of(groups) == argv,
{
    let groups = lemma_groups(argv, GivenView::nothing());
    assert(line_of(groups) == argv);
}

// ---------------------------------------------------------------------------
// What the options say

/// The flag is among the options.
pub open spec fn has_flag(groups: Seq<Group>, name: Seq<char>) -> bool {
    exists|i: int| 0 <= i < groups.len() && #[trigger] groups[i] == (Group::Flag { name })
}

/// The last value that is given for the option.
pub open spec fn last_value(groups: Seq<Group>, wanted: Seq<char>) -> Option<Seq<char>>
    decreases groups.len(),
{
    if groups.len() == 0 {
        None
    } else {
        match groups.last() {
            Group::Valued { name, value } => if name == wanted {
                Some(value)
            } else {
                last_value(groups.drop_last(), wanted)
            },
            _ => last_value(groups.drop_last(), wanted),
        }
    }
}

proof fn lemma_added_last(groups: Seq<Group>, x: Group, g: GivenView)
    ensures
        all_added(groups.push(x), g) == x.added_to(all_added(groups, g)),
    decreases groups.len(),
{
    let all = groups.push(x);
    if groups.len() == 0 {
        assert(all.drop_first().len() == 0);
        assert(all_added(all.drop_first(), x.added_to(g)) == x.added_to(g));
    } else {
        assert(all.drop_first() =~= groups.drop_first().push(x));
        lemma_added_last(groups.drop_first(), x, groups[0].added_to(g));
    }
}

proof fn lemma_has_flag(groups: Seq<Group>, name: Seq<char>)
    requires
        groups.len() > 0,
    ensures
        has_flag(groups, name) <==> has_flag(groups.drop_last(), name) || groups.last() == (
        Group::Flag { name }),
{
    let front = groups.drop_last();
    if has_flag(front, name) {
        let i = choose|i: int| 0 <= i < front.len() && #[trigger] front[i] == (Group::Flag { name });
        assert(groups[i] == front[i]);
    }
    if groups.last() == (Group::Flag { name }) {
        assert(groups[groups.len() - 1] == (Group::Flag { name }));
    }
    if has_flag(groups, name) {
        let i = choose|i: int|
            0 <= i < groups.len() && #[trigger] groups[i] == (Group::Flag { name });
        if i < front.len() {
            assert(front[i] == groups[i]);
        }
    }
}

/// What is given holds the flags that are among the options, and of each option
/// with a value the last one.
pub open spec fn holds_options(g: GivenView, groups: Seq<Group>) -> bool {
    &&& g.append == has_flag(groups, "--append"@)
    &&& g.resume == has_flag(groups, "--resume"@)
    &&& g.verify == has_flag(groups, "--verify"@)
    &&& g.keep_zip == has_flag(groups, "--keep-zip"@)
    &&& g.all_assets == has_flag(groups, "--all-assets"@)
    &&& g.symbol == last_value(groups, "--symbol"@)
    &&& g.symbols == last_value(groups, "--symbols"@)
    &&& g.start == last_value(groups, "--start"@)
    &&& g.end == last_value(groups, "--end"@)
    &&& g.out == last_value(groups, "--out"@)
    &&& g.max_rows == last_value(groups, "--max-rows"@)
    &&& g.tmp_dir == last_value(groups, "--tmp-dir"@)
    &&& g.max_symbols == last_value(groups, "--max-symbols"@)
}

/// The names of the options are all different.
#[verifier::spinoff_prover]
proof fn lemma_different_names()
    ensures
        flag_named("--append"@) == Some(Flag::Append),
        flag_named("--resume"@) == Some(Flag::Resume),
        flag_named("--verify"@) == Some(Flag::Verify),
        flag_named("--keep-zip"@) == Some(Flag::KeepZip),
        flag_named("--all-assets"@) == Some(Flag::AllAssets),
        key_named("--symbol"@) == Some(Key::Symbol),
        key_named("--symbols"@) == Some(Key::Symbols),
        key_named("--start"@) == Some(Key::Start),
        key_named("--end"@) == Some(Key::End),
        key_named("--out"@) == Some(Key::Out),
        key_named("--max-rows"@) == Some(Key::MaxRows),
        key_named("--tmp-dir"@) == Some(Key::TmpDir),
        key_named("--max-symbols"@) == Some(Key::MaxSymbols),
{
    reveal_strlit("--append");
    reveal_strlit("--resume");
    reveal_strlit("--verify");
    reveal_strlit("--keep-zip");
    reveal_strlit("--all-assets");
    reveal_strlit("--symbol");
    reveal_strlit("--symbols");
    reveal_strlit("--start");
    reveal_strlit("--end");
    reveal_strlit("--out");
    reveal_strlit("--max-rows");
    reveal_strlit("--tmp-dir");
    reveal_strlit("--max-symbols");
    assert("--append"@[2] == 'a' && "--append"@.len() == 8);
    assert("--resume"@[2] == 'r');
    assert("--verify"@[2] == 'v');
    assert("--keep-zip"@[2] == 'k');
    assert("--all-assets"@[2] == 'a' && "--all-assets"@.len() == 12);
    assert("--symbol"@[2] == 's' && "--symbol"@.len() == 8);
    assert("--symbols"@[2] == 's' && "--symbols"@.len() == 9);
    assert("--start"@[2] == 's' && "--start"@.len() == 7);
    assert("--end"@[2] == 'e');
    assert("--out"@[2] == 'o');
    assert("--max-rows"@[2] == 'm' && "--max-rows"@.len() == 10);
    assert("--tmp-dir"@[2] == 't');
    assert("--max-symbols"@[2] == 'm' && "--max-symbols"@.len() == 13);
}

#[verifier::spinoff_prover]
proof fn lemma_holds_one_more(g: GivenView, groups: Seq<Group>, x: Group)
    requires
        x.is_known(),
        holds_options(g, groups),
    ensures
        holds_options(x.added_to(g), groups.push(x)),
{
    let all = groups.push(x);
    lemma_different_names();
    assert(all.drop_last() =~= groups);
    assert(all.last() == x);
    lemma_has_flag(all, "--append"@);
    lemma_has_flag(all, "--resume"@);
    lemma_has_flag(all, "--verify"@);
    lemma_has_flag(all, "--keep-zip"@);
    lemma_has_flag(all, "--all-assets"@);
}

proof fn lemma_holds_options(groups: Seq<Group>)
    requires
        all_known(groups),
    ensures
        holds_options(all_added(groups, GivenView::nothing()), groups),
    decreases groups.len(),
{
    if groups.len() > 0 {
        let front = groups.drop_last();
        assert forall|i: int| 0 <= i < front.len() implies (#[trigger] front[i]).is_known() by {
            assert(front[i] == groups[i]);
        }
        lemma_holds_options(front);
        assert(front.push(groups.last()) =~= groups);
        assert(groups[groups.len() - 1].is_known());
        lemma_added_last(front, groups.last(), GivenView::nothing());
        lemma_holds_one_more(
            all_added(front, GivenView::nothing()),
            front,
            groups.last(),
        );
    }
}

/// A command line that is made of options gives exactly what they say.
pub proof fn law_options_are_given(groups: Seq<Group>)
    requires
        all_known(groups),
    ensures
        scan(line_of(groups), GivenView::nothing()) matches Scan::Done(g) && holds_options(
            g,
            groups,
        ),
{
    lemma_scan_groups(groups, GivenView::nothing());
    lemma_holds_options(groups);
}

/// The settings of a run, each from its own option alone: what is given, or else
/// the default. The day without an option is the default day, and the last day
/// without one the first day.
pub open spec fn follows(a: ArgsView, groups: Seq<Group>, default_day: Seq<char>) -> bool {
    &&& a.append == has_flag(groups, "--append"@)
    &&& a.resume == has_flag(groups, "--resume"@)
    &&& a.verify == has_flag(groups, "--verify"@)
    &&& a.keep_zip == has_flag(groups, "--keep-zip"@)
    &&& a.all_assets <==> has_flag(groups, "--all-assets"@) || (last_value(
        groups,
        "--symbol"@,
    ) is None && last_value(groups, "--symbols"@) is None)
    &&& a.symbols == last_value(groups, "--symbols"@)
    &&& a.tmp_dir == last_value(groups, "--tmp-dir"@)
    &&& last_value(groups, "--symbol"@) matches Some(v) ==> a.symbol == text::upper(v)
    &&& last_value(groups, "--symbol"@) is None ==> a.symbol == text::upper("BTCUSDT"@)
    &&& last_value(groups, "--out"@) matches Some(v) ==> a.out == v
    &&& last_value(groups, "--out"@) is None ==> a.out == "input-bn.txt"@
    &&& last_value(groups, "--start"@) matches Some(v) ==> a.start == v
    &&& last_value(groups, "--start"@) is None ==> a.start == default_day
    &&& last_value(groups, "--end"@) matches Some(v) ==> a.end == v
    &&& last_value(groups, "--end"@) is None ==> a.end == a.start
    &&& last_value(groups, "--max-rows"@) matches Some(v) ==> number::read_usize(v) == Ok::<
        int,
        number::IntError,
    >(a.max_rows)
    &&& last_value(groups, "--max-rows"@) is None ==> a.max_rows == 0
    &&& last_value(groups, "--max-symbols"@) matches Some(v) ==> number::read_usize(v) == Ok::<
        int,
        number::IntError,
    >(a.max_symbols)
    &&& last_value(groups, "--max-symbols"@) is None ==> a.max_symbols == 0
}

/// The last value of the option, if there is one, is no count.
pub open spec fn is_bad_count(groups: Seq<Group>, name: Seq<char>) -> bool {
    last_value(groups, name) matches Some(v) && number::read_usize(v) is Err
}

/// A command line that is made of options asks for a run whose settings follow
/// them, each its own option, whatever the others are; unless one of the two
/// counts is none, and then that is told, the count of rows first.
pub proof fn law_settings_follow_options(groups: Seq<Group>, default_day: Seq<char>)
    requires
        all_known(groups),
    ensures
        is_bad_count(groups, "--max-rows"@) ==> command(line_of(groups), default_day) == Err::<
            CommandView,
            Seq<char>,
        >(
            "bad --max-rows: "@ + number::read_usize(
                last_value(groups, "--max-rows"@)->0,
            )->Err_0.message(),
        ),
        !is_bad_count(groups, "--max-rows"@) && is_bad_count(groups, "--max-symbols"@) ==> command(
            line_of(groups),
            default_day,
        ) == Err::<CommandView, Seq<char>>(
            "bad --max-symbols: "@ + number::read_usize(
                last_value(groups, "--max-symbols"@)->0,
            )->Err_0.message(),
        ),
        !is_bad_count(groups, "--max-rows"@) && !is_bad_count(groups, "--max-symbols"@) ==> (
        command(line_of(groups), default_day) matches Ok(CommandView::Run(a)) && follows(
            a,
            groups,
            default_day,
        )),
{
    law_options_are_given(groups);
}

/// The same, of whatever is given: each setting depends on its own option alone.
pub proof fn law_each_setting_has_its_option(g: GivenView, default_day: Seq<char>)
    ensures
        settings(g, default_day) is Ok <==> count_of(g.max_rows) is Ok && count_of(
            g.max_symbols,
        ) is Ok,
        settings(g, default_day) matches Ok(a) ==> {
            &&& g.max_rows matches Some(v) ==> number::read_usize(v) == Ok::<int, number::IntError>(
                a.max_rows,
            )
            &&& g.max_rows is None ==> a.max_rows == 0
            &&& g.max_symbols matches Some(v) ==> number::read_usize(v) == Ok::<
                int,
                number::IntError,
            >(a.max_symbols)
            &&& g.max_symbols is None ==> a.max_symbols == 0
            &&& a.append == g.append && a.resume == g.resume && a.verify == g.verify && a.keep_zip
                == g.keep_zip
            &&& a.symbols == g.symbols && a.tmp_dir == g.tmp_dir
            &&& g.symbol matches Some(v) ==> a.symbol == text::upper(v)
            &&& g.out matches Some(v) ==> a.out == v
            &&& g.start matches Some(v) ==> a.start == v
            &&& g.start is None ==> a.start == default_day
            &&& g.end matches Some(v) ==> a.end == v
            &&& g.end is None ==> a.end == a.start
        },
{
}

/// Behind options, the first argument that is none ends the reading: a call for
/// help, an argument without two dashes in front, an option that is not known,
/// or one whose value is missing.
pub proof fn law_first_other_argument_ends(
    groups: Seq<Group>,
    arg: Seq<char>,
    rest: Seq<Seq<char>>,
    default_day: Seq<char>,
)
    requires
        all_known(groups),
    ensures
        ({
            let argv = line_of(groups) + (seq![arg] + rest);
            &&& arg == "--help"@ || arg == "-h"@ ==> command(argv, default_day) == Ok::<
                CommandView,
                Seq<char>,
            >(CommandView::Help)
            &&& arg != "-h"@ && !text::starts_with(arg, "--"@) ==> command(argv, default_day)
                == Err::<CommandView, Seq<char>>("unexpected positional argument: "@ + arg)
            &&& text::starts_with(arg, "--"@) && arg != "--help"@ && flag_named(arg) is None
                && key_named(arg) is None ==> command(argv, default_day) == Err::<
                CommandView,
                Seq<char>,
            >("unknown option: "@ + arg)
            &&& key_named(arg) is Some && rest.len() == 0 ==> command(argv, default_day) == Err::<
                CommandView,
                Seq<char>,
            >("missing value after "@ + arg)
        }),
{
    let g = all_added(groups, GivenView::nothing());
    let tail = seq![arg] + rest;
    lemma_scan_groups(groups, GivenView::nothing());
    law_scan_continues(line_of(groups), tail, GivenView::nothing());
    assert(tail[0] == arg);
    reveal_strlit("--");
    reveal_strlit("-h");
    reveal_strlit("--help");
    assert("-h"@[1] == 'h');
    if arg == "--help"@ {
        assert(arg.take(2) =~= "--"@);
    }
    if text::starts_with(arg, "--"@) {
        assert(arg.take(2)[1] == '-');
        assert(arg[1] == '-');
    }
    if key_named(arg) is Some {
        lemma_names(arg);
        if rest.len() == 0 {
            assert(tail.len() == 1);
        }
    }
    assert(scan(tail, g) == scan(line_of(groups) + tail, GivenView::nothing()));
}

/// The options of the command line, and no others.
pub proof fn law_names_of_options(name: Seq<char>)
    ensures
        flag_named(name) is Some <==> name == "--append"@ || name == "--resume"@ || name
            == "--verify"@ || name == "--keep-zip"@ || name == "--all-assets"@,
        key_named(name) is Some <==> name == "--symbol"@ || name == "--symbols"@ || name
            == "--start"@ || name == "--end"@ || name == "--out"@ || name == "--max-rows"@ || name
            == "--tmp-dir"@ || name == "--max-symbols"@,
{
    lemma_different_names();
}

/// What settings hold are their fields.
pub proof fn law_fields_of_settings(a: Args)
    ensures
        a@.symbol == a.symbol@ && a@.symbols == text::opt_text(a.symbols),
        a@.start == a.start@ && a@.end == a.end@ && a@.out == a.out@,
        a@.tmp_dir == text::opt_text(a.tmp_dir),
        a@.max_symbols == a.max_symbols && a@.max_rows == a.max_rows,
        a@.all_assets == a.all_assets && a@.append == a.append && a@.resume == a.resume,
        a@.verify == a.verify && a@.keep_zip == a.keep_zip,
        (Command::Run(a))@ == CommandView::Run(a@),
        Command::Help@ == CommandView::Help,
{
}

/// At every time the arguments ask for what they ask for with the day before as
/// the default.
pub proof fn law_default_day_is_yesterday(argv: Seq<Seq<char>>, secs: u64)
    ensures
        asked_at(argv, secs) == command(argv, clock::day_before_text(secs)),
{
}

} // verus!
