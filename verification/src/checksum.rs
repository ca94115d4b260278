//! Comparing the digest of a downloaded file with its published checksum.
use crate::archive;
use crate::text;
use vstd::prelude::*;

verus! {

/// The digest in what a tool or a checksum file says: its first word, in small
/// letters.
pub open spec fn digest_in(s: Seq<char>) -> Option<Seq<char>> {
    match text::first_word(s) {
        Some(w) => Some(text::lower(w)),
        None => None,
    }
}

fn digest_of(s: &str) -> (r: Option<String>)
    ensures
        text::opt_text(r) == digest_in(s@),
{
    match text::first_word_of(s) {
        Some(w) => Some(text::lower_text(w.as_str())),
        None => None,
    }
}

/// The first word of the output of a command that succeeded, in small letters.
pub fn command_output_first_word(success: bool, stdout: &str) -> (r: Option<String>)
    ensures
        text::opt_text(r) == if success {
            digest_in(stdout@)
        } else {
            None
        },
{
    if !success {
        return None;
    }
    digest_of(stdout)
}

// ---------------------------------------------------------------------------
// The digest of a file

/// How to go on with finding the digest of a file.
pub enum DigestStep {
    /// Run the command with these arguments.
    Run { command: String, arguments: Vec<String> },
    /// The digest, if one of the commands gave it.
    Found(Option<String>),
}

pub enum DigestStepView {
    Run { command: Seq<char>, arguments: Seq<Seq<char>> },
    Found(Option<Seq<char>>),
}

impl View for DigestStep {
    type V = DigestStepView;

    open spec fn view(&self) -> DigestStepView {
        match self {
            DigestStep::Run { command, arguments } => DigestStepView::Run {
                command: command@,
                arguments: text::texts(arguments@),
            },
            DigestStep::Found(d) => DigestStepView::Found(text::opt_text(*d)),
        }
    }
}

/// First `sha256sum` is asked, then `shasum`; the first answer counts.
pub open spec fn digest_step(
    path: Seq<char>,
    answers: Seq<Option<Seq<char>>>,
) -> DigestStepView {
    if answers.len() == 0 {
        DigestStepView::Run { command: "sha256sum"@, arguments: seq![path] }
    } else if answers[0] is Some {
        DigestStepView::Found(answers[0])
    } else if answers.len() == 1 {
        DigestStepView::Run { command: "shasum"@, arguments: seq!["-a"@, "256"@, path] }
    } else {
        DigestStepView::Found(answers[1])
    }
}

pub open spec fn answer_views(v: Seq<Option<String>>) -> Seq<Option<Seq<char>>> {
    Seq::new(v.len(), |i: int| text::opt_text(v[i]))
}

/// What to do next for the digest of a file, given what the commands run so far
/// have answered.
pub fn sha256_file(path: &str, answers: &Vec<Option<String>>) -> (r: DigestStep)
    ensures
        r@ == digest_step(path@, answer_views(answers@)),
{
    if answers.len() == 0 {
        let mut arguments: Vec<String> = Vec::new();
        arguments.push(path.to_owned());
        assert(text::texts(arguments@) =~= seq![path@]);
        return DigestStep::Run { command: "sha256sum".to_owned(), arguments };
    }
    assert(answer_views(answers@)[0] == text::opt_text(answers@[0]));
    if let Some(x) = &answers[0] {
        return DigestStep::Found(Some(x.clone()));
    }
    if answers.len() == 1 {
        let mut arguments: Vec<String> = Vec::new();
        arguments.push("-a".to_owned());
        arguments.push("256".to_owned());
        arguments.push(path.to_owned());
        assert(text::texts(arguments@) =~= seq!["-a"@, "256"@, path@]);
        return DigestStep::Run { command: "shasum".to_owned(), arguments };
    }
    assert(answer_views(answers@)[1] == text::opt_text(answers@[1]));
    match &answers[1] {
        Some(x) => DigestStep::Found(Some(x.clone())),
        None => DigestStep::Found(None),
    }
}

// ---------------------------------------------------------------------------
// The verdict

/// The published digest, or the reason why there is nothing to compare with.
pub open spec fn published(url: Seq<char>, reply: Option<Seq<char>>) -> Result<
    Seq<char>,
    Seq<char>,
> {
    match reply {
        None => Err("[WARN] checksum missing: "@ + archive::checksum_address(url)),
        Some(s) => match digest_in(s) {
            None => Err("[WARN] checksum empty: "@ + archive::checksum_address(url)),
            Some(d) => Ok(d),
        },
    }
}

fn published_digest(url: &str, reply: &Option<String>) -> (r: Result<String, String>)
    ensures
        match r {
            Ok(d) => published(url@, text::opt_text(*reply)) == Ok::<Seq<char>, Seq<char>>(d@),
            Err(w) => published(url@, text::opt_text(*reply)) == Err::<Seq<char>, Seq<char>>(w@),
        },
{
    match reply {
        None => {
            let mut w = "[WARN] checksum missing: ".to_owned();
            w.append(archive::checksum_url(url).as_str());
            Err(w)
        },
        Some(s) => match digest_of(s.as_str()) {
            None => {
                let mut w = "[WARN] checksum empty: ".to_owned();
                w.append(archive::checksum_url(url).as_str());
                Err(w)
            },
            Some(d) => Ok(d),
        },
    }
}

/// What there is to say about a file.
pub open spec fn remarks(url: Seq<char>, expected: Seq<char>, actual: Option<Seq<char>>) -> Seq<
    Seq<char>,
> {
    match actual {
        None => seq!["[WARN] sha256sum/shasum not found; skip checksum verification"@],
        Some(d) => if d == expected {
            Seq::empty()
        } else {
            seq![
                "[FAIL] checksum mismatch: "@ + url,
                "       expected="@ + expected,
                "       actual  ="@ + d,
            ]
        },
    }
}

fn remark(head: &str, s: &str) -> (r: String)
    ensures
        r@ == head@ + s@,
{
    let mut r = head.to_owned();
    r.append(s);
    r
}

fn remarks_on(url: &str, expected: &str, actual: &Option<String>) -> (r: (bool, Vec<String>))
    ensures
        r.0 == (text::opt_text(*actual) is None || text::opt_text(*actual) == Some(expected@)),
        text::texts(r.1@) == remarks(url@, expected@, text::opt_text(*actual)),
{
    let mut lines: Vec<String> = Vec::new();
    let mut pass = true;
    match actual {
        None => {
            lines.push("[WARN] sha256sum/shasum not found; skip checksum verification".to_owned());
        },
        Some(d) => {
            if !text::same_text(d.as_str(), expected) {
                pass = false;
                lines.push(remark("[FAIL] checksum mismatch: ", url));
                lines.push(remark("       expected=", expected));
                lines.push(remark("       actual  =", d.as_str()));
            }
        },
    }
    assert(text::texts(lines@) =~= remarks(url@, expected@, text::opt_text(*actual)));
    (pass, lines)
}

/// How to go on with the check of a file.
pub enum CheckStep {
    /// Fetch the text at the address.
    Fetch { url: String },
    /// Run the command with these arguments.
    Run { command: String, arguments: Vec<String> },
    /// Whether the file passes, and what there is to say about it.
    Done { pass: bool, lines: Vec<String> },
}

#[verifier::ext_equal]
pub enum CheckStepView {
    Fetch { url: Seq<char> },
    Run { command: Seq<char>, arguments: Seq<Seq<char>> },
    Done { pass: bool, lines: Seq<Seq<char>> },
}

impl View for CheckStep {
    type V = CheckStepView;

    open spec fn view(&self) -> CheckStepView {
        match self {
            CheckStep::Fetch { url } => CheckStepView::Fetch { url: url@ },
            CheckStep::Run { command, arguments } => CheckStepView::Run {
                command: command@,
                arguments: text::texts(arguments@),
            },
            CheckStep::Done { pass, lines } => CheckStepView::Done {
                pass: *pass,
                lines: text::texts(lines@),
            },
        }
    }
}

/// What a fetch came to, if it has been made.
pub open spec fn reply_view(reply: Option<Option<String>>) -> Option<Option<Seq<char>>> {
    match reply {
        Some(r) => Some(text::opt_text(r)),
        None => None,
    }
}

/// The check of the file at `url`, stored at `path`: first its checksum file is
/// fetched, then its own digest is found, then the two are compared. A file
/// passes where there is nothing to compare.
pub open spec fn check_step(
    url: Seq<char>,
    path: Seq<char>,
    reply: Option<Option<Seq<char>>>,
    answers: Seq<Option<Seq<char>>>,
) -> CheckStepView {
    match reply {
        None => CheckStepView::Fetch { url: archive::checksum_address(url) },
        Some(r) => match published(url, r) {
            Err(w) => CheckStepView::Done { pass: true, lines: seq![w] },
            Ok(expected) => match digest_step(path, answers) {
                DigestStepView::Run { command, arguments } => CheckStepView::Run {
                    command,
                    arguments,
                },
                DigestStepView::Found(actual) => CheckStepView::Done {
                    pass: actual is None || actual == Some(expected),
                    lines: remarks(url, expected, actual),
                },
            },
        },
    }
}

/// What to do next in the check of the file at `url`, stored at `path`, given
/// what the fetch of its checksum file came to, if it has been made, and what
/// the commands run so far have answered.
pub fn verify_checksum(
    url: &str,
    path: &str,
    reply: &Option<Option<String>>,
    answers: &Vec<Option<String>>,
) -> (r: CheckStep)
    ensures
        r@ == check_step(url@, path@, reply_view(*reply), answer_views(answers@)),
{
    match reply {
        None => CheckStep::Fetch { url: archive::checksum_url(url) },
        Some(text) => match published_digest(url, text) {
            Err(w) => {
                let mut lines: Vec<String> = Vec::new();
                lines.push(w);
                assert(text::texts(lines@) =~= seq![w@]);
                CheckStep::Done { pass: true, lines }
            },
            Ok(expected) => match sha256_file(path, answers) {
                DigestStep::Run { command, arguments } => CheckStep::Run { command, arguments },
                DigestStep::Found(actual) => {
                    let (pass, lines) = remarks_on(url, expected.as_str(), &actual);
                    CheckStep::Done { pass, lines }
                },
            },
        },
    }
}

// ---------------------------------------------------------------------------
// Laws

/// Whatever the fetch and the two commands come to, the check has come to its
/// end, and it refuses the file exactly where the checksum file names a digest,
/// one of the commands gave one, and the first that was given is another.
pub proof fn law_refused_on_mismatch_only(
    url: Seq<char>,
    path: Seq<char>,
    reply: Option<Seq<char>>,
    first: Option<Seq<char>>,
    second: Option<Seq<char>>,
)
    ensures
        ({
            let actual = if first is Some {
                first
            } else {
                second
            };
            &&& check_step(url, path, Some(reply), seq![first, second]) matches CheckStepView::Done {
                pass,
                lines,
            }
            &&& !pass <==> {
                &&& reply matches Some(r)
                &&& digest_in(r) matches Some(expected)
                &&& actual matches Some(d)
                &&& d != expected
            }
        }),
{
}

/// Once a command has answered, no other answer changes anything.
pub proof fn law_first_answer_counts(
    url: Seq<char>,
    path: Seq<char>,
    reply: Option<Seq<char>>,
    first: Seq<char>,
    more: Seq<Option<Seq<char>>>,
)
    ensures
        check_step(url, path, Some(reply), seq![Some(first)]) is Done,
        check_step(url, path, Some(reply), seq![Some(first)] + more) == check_step(
            url,
            path,
            Some(reply),
            seq![Some(first)],
        ),
{
    assert((seq![Some(first)] + more)[0] == Some(first));
}

/// The digest in a text is its first word, in small letters, however long it is
/// and whatever follows behind white space.
pub proof fn law_digest_is_first_word(a: Seq<char>, w: Seq<char>, rest: Seq<char>)
    requires
        text::all_in(a, text::CharClass::Space),
        text::all_in(w, text::CharClass::Word),
        w.len() > 0,
        rest.len() > 0 ==> text::is_white_space(rest[0]),
    ensures
        digest_in(a + w + rest) == Some(text::lower(w)),
{
    text::law_first_word(a, w, rest);
}

/// A checksum file that begins with a digest, behind white space or not, names
/// it: a file with that digest passes without a word, and a file with another
/// one is refused, and both digests are told.
pub proof fn law_digests_decide(
    url: Seq<char>,
    path: Seq<char>,
    a: Seq<char>,
    w: Seq<char>,
    rest: Seq<char>,
    actual: Seq<char>,
    more: Seq<Option<Seq<char>>>,
)
    requires
        text::all_in(a, text::CharClass::Space),
        text::all_in(w, text::CharClass::Word),
        w.len() > 0,
        rest.len() > 0 ==> text::is_white_space(rest[0]),
    ensures
        ({
            let want = if actual == text::lower(w) {
                CheckStepView::Done { pass: true, lines: Seq::empty() }
            } else {
                CheckStepView::Done {
                    pass: false,
                    lines: seq![
                        "[FAIL] checksum mismatch: "@ + url,
                        "       expected="@ + text::lower(w),
                        "       actual  ="@ + actual,
                    ],
                }
            };
            let reply = Some(Some(a + w + rest));
            &&& check_step(url, path, reply, seq![Some(actual)] + more) == want
            &&& check_step(url, path, reply, seq![None, Some(actual)] + more) == want
        }),
{
    law_digest_is_first_word(a, w, rest);
    let one = seq![Some(actual)] + more;
    let two = seq![None, Some(actual)] + more;
    assert(one[0] == Some(actual));
    assert(two[0] is None && two[1] == Some(actual));
}

/// Where nothing is published, or no command gives a digest, the file passes
/// with a warning.
pub proof fn law_nothing_to_compare(
    url: Seq<char>,
    path: Seq<char>,
    blank: Seq<char>,
    reply: Seq<char>,
    answers: Seq<Option<Seq<char>>>,
)
    requires
        text::all_in(blank, text::CharClass::Space),
        text::first_word(reply) is Some,
    ensures
        check_step(url, path, Some(None), answers) == (CheckStepView::Done {
            pass: true,
            lines: seq!["[WARN] checksum missing: "@ + (url + ".CHECKSUM"@)],
        }),
        check_step(url, path, Some(Some(blank)), answers) == (CheckStepView::Done {
            pass: true,
            lines: seq!["[WARN] checksum empty: "@ + (url + ".CHECKSUM"@)],
        }),
        check_step(url, path, Some(Some(reply)), seq![None, None]) == (CheckStepView::Done {
            pass: true,
            lines: seq!["[WARN] sha256sum/shasum not found; skip checksum verification"@],
        }),
{
    text::law_no_first_word(blank);
}

/// First the checksum file is fetched; then, where it names a digest,
/// `sha256sum` is run on the file, and `shasum` where that gave nothing.
pub proof fn law_steps_of_a_check(
    url: Seq<char>,
    path: Seq<char>,
    reply: Seq<char>,
    answers: Seq<Option<Seq<char>>>,
)
    requires
        text::first_word(reply) is Some,
    ensures
        check_step(url, path, None, answers) == (CheckStepView::Fetch { url: url + ".CHECKSUM"@ }),
        check_step(url, path, Some(Some(reply)), Seq::empty()) == (CheckStepView::Run {
            command: "sha256sum"@,
            arguments: seq![path],
        }),
        check_step(url, path, Some(Some(reply)), seq![None]) == (CheckStepView::Run {
            command: "shasum"@,
            arguments: seq!["-a"@, "256"@, path],
        }),
        digest_step(path, Seq::empty()) == (DigestStepView::Run {
            command: "sha256sum"@,
            arguments: seq![path],
        }),
        digest_step(path, seq![None]) == (DigestStepView::Run {
            command: "shasum"@,
            arguments: seq!["-a"@, "256"@, path],
        }),
{
}

/// The digest of a file is the first answer that a command gave.
pub proof fn law_first_digest_is_taken(
    path: Seq<char>,
    first: Seq<char>,
    second: Option<Seq<char>>,
    more: Seq<Option<Seq<char>>>,
)
    ensures
        digest_step(path, seq![Some(first)] + more) == DigestStepView::Found(Some(first)),
        digest_step(path, seq![None, second] + more) == DigestStepView::Found(second),
{
    assert((seq![Some(first)] + more)[0] == Some(first));
    assert((seq![None, second] + more)[0] is None && (seq![None, second] + more)[1] == second);
}

/// What steps and answers hold are their texts.
pub proof fn law_fields_of_steps(
    s: String,
    v: Vec<String>,
    d: Option<String>,
    pass: bool,
    answers: Seq<Option<String>>,
    i: int,
)
    ensures
        (CheckStep::Fetch { url: s })@ == (CheckStepView::Fetch { url: s@ }),
        (CheckStep::Run { command: s, arguments: v })@ == (CheckStepView::Run {
            command: s@,
            arguments: text::texts(v@),
        }),
        (CheckStep::Done { pass, lines: v })@ == (CheckStepView::Done {
            pass,
            lines: text::texts(v@),
        }),
        (DigestStep::Run { command: s, arguments: v })@ == (DigestStepView::Run {
            command: s@,
            arguments: text::texts(v@),
        }),
        (DigestStep::Found(d))@ == DigestStepView::Found(text::opt_text(d)),
        answer_views(answers).len() == answers.len(),
        0 <= i < answers.len() ==> answer_views(answers)[i] == text::opt_text(answers[i]),
        reply_view(Some(d)) == Some(text::opt_text(d)),
        reply_view(None) is None,
{
}

} // verus!
