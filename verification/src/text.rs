//! Text as sequences of characters: classes of characters, trimming,
//! splitting, searching, case folding and ordering.
use vstd::prelude::*;

verus! {

/// `String::push`: appends the given character to the end of the string.
pub assume_specification[ String::push ](s: &mut String, ch: char)
    ensures
        final(s)@ == old(s)@.push(ch),
;

/// The form in which `Debug` of `str` writes a text: in double quotes, with the
/// characters escaped that `char::escape_debug` escapes inside a string.
pub uninterp spec fn debug_text(s: Seq<char>) -> Seq<char>;

/// `Debug` of `str`, through the format `{:?}`. What it writes depends on the
/// text alone; which characters it escapes is not stated.
#[verifier::external_body]
pub(crate) fn debug_quoted(s: &str) -> (r: String)
    ensures
        r@ == debug_text(s@),
{
    format!("{:?}", s)
}

/// The characters with the Unicode property `White_Space`.
pub open spec fn is_white_space(c: char) -> bool {
    ||| '\u{9}' <= c <= '\u{d}'
    ||| c == '\u{20}'
    ||| c == '\u{85}'
    ||| c == '\u{a0}'
    ||| c == '\u{1680}'
    ||| '\u{2000}' <= c <= '\u{200a}'
    ||| c == '\u{2028}'
    ||| c == '\u{2029}'
    ||| c == '\u{202f}'
    ||| c == '\u{205f}'
    ||| c == '\u{3000}'
}

pub open spec fn is_digit(c: char) -> bool {
    '0' <= c <= '9'
}

pub open spec fn is_upper(c: char) -> bool {
    'A' <= c <= 'Z'
}

pub open spec fn is_lower(c: char) -> bool {
    'a' <= c <= 'z'
}

/// The characters of the Unicode general category `Cc`.
pub open spec fn is_control(c: char) -> bool {
    c <= '\u{1f}' || '\u{7f}' <= c <= '\u{9f}'
}

/// A set of characters that leading or trailing runs are made of.
#[derive(Clone, Copy)]
pub enum CharClass {
    /// Unicode white space.
    Space,
    /// Everything that is not Unicode white space.
    Word,
    /// The slash alone.
    Slash,
    /// ASCII letters and digits.
    Alphanumeric,
    /// ASCII digits and the minus sign.
    Numeral,
}

impl CharClass {
    pub open spec fn has(self, c: char) -> bool {
        match self {
            CharClass::Space => is_white_space(c),
            CharClass::Word => !is_white_space(c),
            CharClass::Slash => c == '/',
            CharClass::Alphanumeric => is_digit(c) || is_upper(c) || is_lower(c),
            CharClass::Numeral => c == '-' || is_digit(c),
        }
    }

    /// Whether `c` belongs to the class.
    pub fn contains(self, c: char) -> (r: bool)
        ensures
            r == self.has(c),
    {
        match self {
            CharClass::Space => white_space(c),
            CharClass::Word => !white_space(c),
            CharClass::Slash => c == '/',
            CharClass::Alphanumeric => digit(c) || ('A' <= c && c <= 'Z') || ('a' <= c && c <= 'z'),
            CharClass::Numeral => c == '-' || digit(c),
        }
    }
}

/// Whether `c` has the Unicode property `White_Space`.
pub fn white_space(c: char) -> (r: bool)
    ensures
        r == is_white_space(c),
{
    ('\u{9}' <= c && c <= '\u{d}') || c == '\u{20}' || c == '\u{85}' || c == '\u{a0}' || c
        == '\u{1680}' || ('\u{2000}' <= c && c <= '\u{200a}') || c == '\u{2028}' || c == '\u{2029}'
        || c == '\u{202f}' || c == '\u{205f}' || c == '\u{3000}'
}

/// Whether `c` is an ASCII digit.
pub fn digit(c: char) -> (r: bool)
    ensures
        r == is_digit(c),
{
    '0' <= c && c <= '9'
}

/// Whether `c` is a control character.
pub fn control(c: char) -> (r: bool)
    ensures
        r == is_control(c),
{
    c <= '\u{1f}' || ('\u{7f}' <= c && c <= '\u{9f}')
}

/// The characters of a string.
pub fn chars_of(s: &str) -> (v: Vec<char>)
    ensures
        v@ == s@,
{
    let mut v: Vec<char> = Vec::new();
    for c in it: s.chars()
        invariant
            it.seq() == s@,
            v@ == s@.take(it.index()),
    {
        v.push(c);
    }
    v
}

/// The string made of the given characters.
pub fn string_of(v: &[char]) -> (s: String)
    ensures
        s@ == v@,
{
    let mut s = String::new();
    for i in 0..v.len()
        invariant
            s@ == v@.take(i as int),
    {
        s.push(v[i]);
    }
    s
}

/// Whether two strings hold the same characters.
pub fn same_text(a: &str, b: &str) -> (r: bool)
    ensures
        r == (a@ == b@),
{
    a.to_owned() == b.to_owned()
}

// ---------------------------------------------------------------------------
// Runs of a class at either end

/// The longest prefix of `s` that lies in the class.
pub open spec fn lead(s: Seq<char>, k: CharClass) -> Seq<char>
    decreases s.len(),
{
    if s.len() > 0 && k.has(s[0]) {
        seq![s[0]] + lead(s.drop_first(), k)
    } else {
        Seq::empty()
    }
}

/// `s` without its longest prefix that lies in the class.
pub open spec fn skip_lead(s: Seq<char>, k: CharClass) -> Seq<char>
    decreases s.len(),
{
    if s.len() > 0 && k.has(s[0]) {
        skip_lead(s.drop_first(), k)
    } else {
        s
    }
}

/// `s` without its longest suffix that lies in the class.
pub open spec fn skip_tail(s: Seq<char>, k: CharClass) -> Seq<char>
    decreases s.len(),
{
    if s.len() > 0 && k.has(s.last()) {
        skip_tail(s.drop_last(), k)
    } else {
        s
    }
}

/// `s` without what lies in the class at either end.
pub open spec fn trimmed(s: Seq<char>, k: CharClass) -> Seq<char> {
    skip_tail(skip_lead(s, k), k)
}

/// `s` without the white space at either end.
pub open spec fn trim(s: Seq<char>) -> Seq<char> {
    trimmed(s, CharClass::Space)
}

/// The first run of characters that are not white space, if there is one.
pub open spec fn first_word(s: Seq<char>) -> Option<Seq<char>> {
    let rest = skip_lead(s, CharClass::Space);
    if rest.len() == 0 {
        None
    } else {
        Some(lead(rest, CharClass::Word))
    }
}

/// Where a run at the start ends, the text is cut there.
pub proof fn lemma_lead_cut(s: Seq<char>, k: CharClass, n: int)
    requires
        0 <= n <= s.len(),
        forall|i: int| 0 <= i < n ==> k.has(#[trigger] s[i]),
        n < s.len() ==> !k.has(s[n]),
    ensures
        lead(s, k) == s.take(n),
        skip_lead(s, k) == s.skip(n),
    decreases n,
{
    if n == 0 {
        assert(s.take(0) =~= Seq::<char>::empty());
        assert(s.skip(0) =~= s);
    } else {
        let t = s.drop_first();
        assert forall|i: int| 0 <= i < n - 1 implies k.has(#[trigger] t[i]) by {
            assert(t[i] == s[i + 1]);
        }
        lemma_lead_cut(t, k, n - 1);
        assert(seq![s[0]] + t.take(n - 1) =~= s.take(n));
        assert(t.skip(n - 1) =~= s.skip(n));
    }
}

/// Where a run at the end starts, the text is cut there.
pub proof fn lemma_tail_cut(s: Seq<char>, k: CharClass, n: int)
    requires
        0 <= n <= s.len(),
        forall|i: int| n <= i < s.len() ==> k.has(#[trigger] s[i]),
        n > 0 ==> !k.has(s[n - 1]),
    ensures
        skip_tail(s, k) == s.take(n),
    decreases s.len(),
{
    if n < s.len() {
        let t = s.drop_last();
        lemma_tail_cut(t, k, n);
        assert(t.take(n) =~= s.take(n));
    } else {
        assert(s.take(n) =~= s);
    }
}

/// The end of the run of class `k` that starts at `from`.
pub fn run_end(s: &[char], from: usize, k: CharClass) -> (n: usize)
    requires
        from <= s@.len(),
    ensures
        from <= n <= s@.len(),
        lead(s@.skip(from as int), k) == s@.subrange(from as int, n as int),
        skip_lead(s@.skip(from as int), k) == s@.skip(n as int),
{
    let mut n: usize = from;
    while n < s.len() && k.contains(s[n])
        invariant
            from <= n <= s@.len(),
            forall|i: int| from <= i < n ==> k.has(#[trigger] s@[i]),
        decreases s@.len() - n,
    {
        n = n + 1;
    }
    proof {
        let t = s@.skip(from as int);
        lemma_lead_cut(t, k, n - from);
        assert(t.take(n - from) =~= s@.subrange(from as int, n as int));
        assert(t.skip(n - from) =~= s@.skip(n as int));
    }
    n
}

/// The start of the run of class `k` that ends at the end of `s`.
pub fn tail_start(s: &[char], k: CharClass) -> (n: usize)
    ensures
        n <= s@.len(),
        skip_tail(s@, k) == s@.take(n as int),
{
    let mut n: usize = s.len();
    while n > 0 && k.contains(s[n - 1])
        invariant
            n <= s@.len(),
            forall|i: int| n <= i < s@.len() ==> k.has(#[trigger] s@[i]),
        decreases n,
    {
        n = n - 1;
    }
    proof {
        lemma_tail_cut(s@, k, n as int);
    }
    n
}

/// A copy of `s[from..to]`.
pub fn part(s: &[char], from: usize, to: usize) -> (v: Vec<char>)
    requires
        from <= to <= s@.len(),
    ensures
        v@ == s@.subrange(from as int, to as int),
{
    let mut v: Vec<char> = Vec::new();
    let mut i: usize = from;
    while i < to
        invariant
            from <= i <= to <= s@.len(),
            v@ == s@.subrange(from as int, i as int),
        decreases to - i,
    {
        v.push(s[i]);
        i = i + 1;
    }
    v
}

/// `s` without what lies in the class at either end.
pub fn trim_class(s: &[char], k: CharClass) -> (v: Vec<char>)
    ensures
        v@ == trimmed(s@, k),
{
    let start: usize = run_end(s, 0, k);
    let kept = part(s, start, s.len());
    let end: usize = tail_start(kept.as_slice(), k);
    proof {
        assert(s@.skip(0) =~= s@);
        assert(kept@ =~= s@.skip(start as int));
        assert(kept@.subrange(0, end as int) =~= kept@.take(end as int));
    }
    part(kept.as_slice(), 0, end)
}

/// `s` without the white space at either end.
pub fn trim_text(s: &str) -> (r: String)
    ensures
        r@ == trim(s@),
{
    let chars = chars_of(s);
    let kept = trim_class(chars.as_slice(), CharClass::Space);
    string_of(kept.as_slice())
}

/// The first run of characters that are not white space.
pub fn first_word_of(s: &str) -> (r: Option<String>)
    ensures
        match r {
            Some(w) => first_word(s@) == Some(w@),
            None => first_word(s@) is None,
        },
{
    let chars = chars_of(s);
    let start: usize = run_end(chars.as_slice(), 0, CharClass::Space);
    proof {
        assert(chars@.skip(0) =~= chars@);
    }
    if start == chars.len() {
        return None;
    }
    let end: usize = run_end(chars.as_slice(), start, CharClass::Word);
    Some(string_of(part(chars.as_slice(), start, end).as_slice()))
}

// ---------------------------------------------------------------------------
// Case

pub open spec fn lower_char(c: char) -> char {
    if is_upper(c) {
        ((c as u8) + 32) as char
    } else {
        c
    }
}

pub open spec fn upper_char(c: char) -> char {
    if is_lower(c) {
        ((c as u8) - 32) as char
    } else {
        c
    }
}

/// `s` with its ASCII capitals replaced by small letters.
pub open spec fn lower(s: Seq<char>) -> Seq<char> {
    Seq::new(s.len(), |i: int| lower_char(s[i]))
}

/// `s` with its ASCII small letters replaced by capitals.
pub open spec fn upper(s: Seq<char>) -> Seq<char> {
    Seq::new(s.len(), |i: int| upper_char(s[i]))
}

/// `s` with its ASCII capitals replaced by small letters.
pub fn lower_text(s: &str) -> (r: String)
    ensures
        r@ == lower(s@),
{
    let v = chars_of(s);
    let mut r = String::new();
    for i in 0..v.len()
        invariant
            v@ == s@,
            r@ == lower(s@).take(i as int),
    {
        let c = v[i];
        if 'A' <= c && c <= 'Z' {
            r.push(((c as u8) + 32) as char);
        } else {
            r.push(c);
        }
    }
    r
}

/// `s` with its ASCII small letters replaced by capitals.
pub fn upper_text(s: &str) -> (r: String)
    ensures
        r@ == upper(s@),
{
    let v = chars_of(s);
    let mut r = String::new();
    for i in 0..v.len()
        invariant
            v@ == s@,
            r@ == upper(s@).take(i as int),
    {
        let c = v[i];
        if 'a' <= c && c <= 'z' {
            r.push(((c as u8) - 32) as char);
        } else {
            r.push(c);
        }
    }
    r
}

// ---------------------------------------------------------------------------
// Splitting

/// The pieces of `s` between the occurrences of `c`; one more piece than there
/// are occurrences.
pub open spec fn split_on(s: Seq<char>, c: char) -> Seq<Seq<char>>
    decreases s.len(),
{
    if s.len() == 0 {
        seq![Seq::empty()]
    } else {
        let front = split_on(s.drop_last(), c);
        if s.last() == c {
            front.push(Seq::empty())
        } else {
            front.drop_last().push(front.last().push(s.last()))
        }
    }
}

/// What a list of strings holds.
pub open spec fn texts(v: Seq<String>) -> Seq<Seq<char>> {
    Seq::new(v.len(), |i: int| v[i]@)
}

/// What an optional string holds.
pub open spec fn opt_text(s: Option<String>) -> Option<Seq<char>> {
    match s {
        Some(x) => Some(x@),
        None => None,
    }
}

/// A text without the separator is its own only piece.
pub proof fn lemma_split_single(s: Seq<char>, c: char)
    requires
        !s.contains(c),
    ensures
        split_on(s, c) == seq![s],
    decreases s.len(),
{
    if s.len() > 0 {
        let t = s.drop_last();
        assert(!t.contains(c)) by {
            if t.contains(c) {
                let i = choose|i: int| 0 <= i < t.len() && t[i] == c;
                assert(s[i] == c);
            }
        }
        lemma_split_single(t, c);
        assert(s.last() != c);
        assert(t.push(s.last()) =~= s);
        assert(split_on(s, c) =~= seq![s]);
    } else {
        assert(s =~= Seq::<char>::empty());
    }
}

/// One more separator and a text without it make one more piece.
pub proof fn lemma_split_append(a: Seq<char>, c: char, b: Seq<char>)
    requires
        !b.contains(c),
    ensures
        split_on(a + seq![c] + b, c) == split_on(a, c).push(b),
    decreases b.len(),
{
    let s = a + seq![c] + b;
    if b.len() == 0 {
        assert(s.drop_last() =~= a);
        assert(b =~= Seq::<char>::empty());
    } else {
        let t = b.drop_last();
        assert(!t.contains(c)) by {
            if t.contains(c) {
                let i = choose|i: int| 0 <= i < t.len() && t[i] == c;
                assert(b[i] == c);
            }
        }
        lemma_split_append(a, c, t);
        assert(s.drop_last() =~= a + seq![c] + t);
        assert(s.last() == b.last());
        assert(b.last() != c);
        assert(t.push(b.last()) =~= b);
        assert(split_on(a, c).push(t).drop_last() =~= split_on(a, c));
    }
}

/// The pieces of `s` between the occurrences of `c`.
pub fn split_text(s: &str, c: char) -> (r: Vec<String>)
    ensures
        texts(r@) == split_on(s@, c),
        r@.len() >= 1,
{
    let v = chars_of(s);
    let mut done: Vec<String> = Vec::new();
    let mut open = String::new();
    for i in 0..v.len()
        invariant
            v@ == s@,
            split_on(s@.take(i as int), c) == texts(done@).push(open@),
    {
        let x = v[i];
        proof {
            assert(s@.take(i + 1).drop_last() =~= s@.take(i as int));
            assert(texts(done@).push(open@).drop_last() =~= texts(done@));
        }
        if x == c {
            let ghost before = done@;
            done.push(open);
            open = String::new();
            assert(texts(done@) =~= texts(before).push(done@.last()@));
        } else {
            open.push(x);
        }
    }
    proof {
        assert(s@.take(s@.len() as int) =~= s@);
    }
    let ghost before = done@;
    done.push(open);
    assert(texts(done@) =~= texts(before).push(done@.last()@));
    done
}

// ---------------------------------------------------------------------------
// Searching

pub open spec fn starts_with(s: Seq<char>, p: Seq<char>) -> bool {
    p.len() <= s.len() && s.take(p.len() as int) == p
}

/// Where `p` first occurs in `s`.
pub open spec fn find_text(s: Seq<char>, p: Seq<char>) -> Option<nat>
    decreases s.len(),
{
    if starts_with(s, p) {
        Some(0)
    } else if s.len() == 0 {
        None
    } else {
        match find_text(s.drop_first(), p) {
            Some(i) => Some(i + 1),
            None => None,
        }
    }
}

/// `p` occurs in `s` at `i`.
pub open spec fn occurs_at(s: Seq<char>, p: Seq<char>, i: int) -> bool {
    0 <= i <= s.len() && starts_with(s.skip(i), p)
}

/// The position that is found is that of the first occurrence.
pub proof fn lemma_find_at(s: Seq<char>, p: Seq<char>, n: int)
    requires
        occurs_at(s, p, n),
        forall|i: int| 0 <= i < n ==> !#[trigger] occurs_at(s, p, i),
    ensures
        find_text(s, p) == Some(n as nat),
    decreases n,
{
    assert(s.skip(0) =~= s);
    if n > 0 {
        assert(!occurs_at(s, p, 0));
        let t = s.drop_first();
        assert forall|i: int| 0 <= i <= t.len() implies occurs_at(t, p, i) == occurs_at(
            s,
            p,
            i + 1,
        ) by {
            assert(t.skip(i) =~= s.skip(i + 1));
        }
        assert(occurs_at(t, p, n - 1));
        assert forall|i: int| 0 <= i < n - 1 implies !#[trigger] occurs_at(t, p, i) by {
            assert(!occurs_at(s, p, i + 1));
        }
        lemma_find_at(t, p, n - 1);
    }
}

/// Nothing is found where there is no occurrence.
pub proof fn lemma_find_none(s: Seq<char>, p: Seq<char>)
    requires
        forall|i: int| 0 <= i <= s.len() ==> !#[trigger] occurs_at(s, p, i),
    ensures
        find_text(s, p) is None,
    decreases s.len(),
{
    assert(s.skip(0) =~= s);
    assert(!occurs_at(s, p, 0));
    if s.len() > 0 {
        let t = s.drop_first();
        assert forall|i: int| 0 <= i <= t.len() implies !#[trigger] occurs_at(t, p, i) by {
            assert(t.skip(i) =~= s.skip(i + 1));
            assert(!occurs_at(s, p, i + 1));
        }
        lemma_find_none(t, p);
    }
}

/// What is found is an occurrence, and lies inside the text.
pub proof fn lemma_find_sound(s: Seq<char>, p: Seq<char>)
    ensures
        find_text(s, p) matches Some(i) ==> i + p.len() <= s.len() && occurs_at(s, p, i as int),
    decreases s.len(),
{
    assert(s.skip(0) =~= s);
    if !starts_with(s, p) && s.len() > 0 {
        let t = s.drop_first();
        lemma_find_sound(t, p);
        if let Some(i) = find_text(t, p) {
            assert(t.skip(i as int) =~= s.skip(i as int + 1));
        }
    }
}

/// What is found does not lie behind any occurrence.
pub proof fn lemma_find_no_earlier(s: Seq<char>, p: Seq<char>, n: int)
    requires
        occurs_at(s, p, n),
    ensures
        find_text(s, p) matches Some(i) && i <= n,
    decreases s.len(),
{
    assert(s.skip(0) =~= s);
    if !starts_with(s, p) {
        let t = s.drop_first();
        assert(t.skip(n - 1) =~= s.skip(n));
        lemma_find_no_earlier(t, p, n - 1);
    }
}

/// Whether `p` stands in `s` at `at`.
pub fn matches_at(s: &[char], at: usize, p: &[char]) -> (r: bool)
    requires
        at <= s@.len(),
    ensures
        r == starts_with(s@.skip(at as int), p@),
{
    if p.len() > s.len() - at {
        return false;
    }
    for i in 0..p.len()
        invariant
            at + p@.len() <= s@.len() <= usize::MAX,
            forall|j: int| 0 <= j < i ==> s@[at + j] == p@[j],
    {
        if s[at + i] != p[i] {
            assert(s@.skip(at as int).take(p@.len() as int)[i as int] != p@[i as int]);
            return false;
        }
    }
    assert(s@.skip(at as int).take(p@.len() as int) =~= p@);
    true
}

/// Where `p` first occurs in `s` at or after `from`.
pub fn find_from(s: &[char], from: usize, p: &[char]) -> (r: Option<usize>)
    requires
        from <= s@.len(),
    ensures
        match r {
            Some(i) => from <= i && i + p@.len() <= s@.len() && find_text(
                s@.skip(from as int),
                p@,
            ) == Some((i - from) as nat),
            None => find_text(s@.skip(from as int), p@) is None,
        },
{
    let ghost t = s@.skip(from as int);
    let mut i: usize = from;
    loop
        invariant
            from <= i <= s@.len(),
            t == s@.skip(from as int),
            forall|j: int| 0 <= j < i - from ==> !#[trigger] occurs_at(t, p@, j),
        decreases s@.len() - i,
    {
        assert(t.skip(i - from) =~= s@.skip(i as int));
        if matches_at(s, i, p) {
            proof {
                assert(occurs_at(t, p@, i - from));
                lemma_find_at(t, p@, i - from);
            }
            return Some(i);
        }
        assert(!occurs_at(t, p@, i - from));
        if i == s.len() {
            proof {
                lemma_find_none(t, p@);
            }
            return None;
        }
        i = i + 1;
    }
}

/// Whether `s` begins with `p`.
pub fn begins_with(s: &str, p: &str) -> (r: bool)
    ensures
        r == starts_with(s@, p@),
{
    let a = chars_of(s);
    let b = chars_of(p);
    assert(a@.skip(0) =~= a@);
    matches_at(a.as_slice(), 0, b.as_slice())
}

// ---------------------------------------------------------------------------
// Order

/// The order of strings: by the first character in which they differ, a proper
/// prefix before what it is a prefix of.
pub open spec fn before(a: Seq<char>, b: Seq<char>) -> bool
    decreases a.len(),
{
    if b.len() == 0 {
        false
    } else if a.len() == 0 {
        true
    } else {
        a[0] < b[0] || (a[0] == b[0] && before(a.drop_first(), b.drop_first()))
    }
}

/// The order is irreflexive.
pub proof fn law_before_irreflexive(a: Seq<char>)
    ensures
        !before(a, a),
    decreases a.len(),
{
    if a.len() > 0 {
        law_before_irreflexive(a.drop_first());
    }
}

/// The order is transitive.
pub proof fn law_before_transitive(a: Seq<char>, b: Seq<char>, c: Seq<char>)
    requires
        before(a, b),
        before(b, c),
    ensures
        before(a, c),
    decreases a.len(),
{
    if a.len() > 0 && a[0] == b[0] && b[0] == c[0] {
        law_before_transitive(a.drop_first(), b.drop_first(), c.drop_first());
    }
}

/// Of two different texts one comes before the other.
pub proof fn law_before_total(a: Seq<char>, b: Seq<char>)
    ensures
        before(a, b) || before(b, a) || a == b,
    decreases a.len(),
{
    if a.len() > 0 && b.len() > 0 && a[0] == b[0] {
        law_before_total(a.drop_first(), b.drop_first());
        if a.drop_first() == b.drop_first() {
            assert(a =~= seq![a[0]] + a.drop_first());
            assert(b =~= seq![b[0]] + b.drop_first());
        }
    } else if a.len() == 0 && b.len() == 0 {
        assert(a =~= b);
    }
}

/// Whether `a` comes before `b`.
pub fn text_before(a: &str, b: &str) -> (r: bool)
    ensures
        r == before(a@, b@),
{
    let x = chars_of(a);
    let y = chars_of(b);
    let mut i: usize = 0;
    assert(x@.skip(0) =~= x@);
    assert(y@.skip(0) =~= y@);
    loop
        invariant
            i <= x@.len(),
            i <= y@.len(),
            before(a@, b@) == before(x@.skip(i as int), y@.skip(i as int)),
        decreases x@.len() - i,
    {
        if i == y.len() {
            return false;
        }
        if i == x.len() {
            return true;
        }
        if x[i] < y[i] {
            return true;
        }
        if x[i] > y[i] {
            return false;
        }
        assert(x@.skip(i as int).drop_first() =~= x@.skip(i + 1));
        assert(y@.skip(i as int).drop_first() =~= y@.skip(i + 1));
        i = i + 1;
    }
}

// ---------------------------------------------------------------------------
// Laws

/// The pieces with `c` between them.
pub open spec fn joined(pieces: Seq<Seq<char>>, c: char) -> Seq<char>
    decreases pieces.len(),
{
    if pieces.len() == 0 {
        Seq::empty()
    } else if pieces.len() == 1 {
        pieces[0]
    } else {
        joined(pieces.drop_last(), c) + seq![c] + pieces.last()
    }
}

/// All the characters lie in the class.
pub open spec fn all_in(s: Seq<char>, k: CharClass) -> bool {
    forall|i: int| 0 <= i < s.len() ==> k.has(#[trigger] s[i])
}

/// The text neither begins nor ends in the class.
pub open spec fn bare(s: Seq<char>, k: CharClass) -> bool {
    s.len() > 0 ==> !k.has(s[0]) && !k.has(s.last())
}

/// None of the pieces holds `c`.
pub open spec fn free_of(pieces: Seq<Seq<char>>, c: char) -> bool {
    forall|i: int| 0 <= i < pieces.len() ==> !(#[trigger] pieces[i]).contains(c)
}

/// Pieces that are joined come apart again at the separators.
pub proof fn law_joined_comes_apart(pieces: Seq<Seq<char>>, c: char)
    requires
        pieces.len() >= 1,
        free_of(pieces, c),
    ensures
        split_on(joined(pieces, c), c) == pieces,
    decreases pieces.len(),
{
    if pieces.len() == 1 {
        assert(!pieces[0].contains(c));
        lemma_split_single(pieces[0], c);
        assert(seq![pieces[0]] =~= pieces);
    } else {
        let front = pieces.drop_last();
        assert forall|i: int| 0 <= i < front.len() implies !(#[trigger] front[i]).contains(c) by {
            assert(front[i] == pieces[i]);
        }
        law_joined_comes_apart(front, c);
        assert(!pieces[pieces.len() - 1].contains(c));
        lemma_split_append(joined(front, c), c, pieces.last());
        assert(front.push(pieces.last()) =~= pieces);
    }
}

/// A text that is split is made of its pieces, and no piece holds the separator.
pub proof fn law_pieces_make_text(s: Seq<char>, c: char)
    ensures
        split_on(s, c).len() >= 1,
        free_of(split_on(s, c), c),
        joined(split_on(s, c), c) == s,
    decreases s.len(),
{
    let pieces = split_on(s, c);
    if s.len() == 0 {
        assert(pieces[0] =~= Seq::<char>::empty());
        assert(s =~= Seq::<char>::empty());
    } else {
        let t = s.drop_last();
        let front = split_on(t, c);
        law_pieces_make_text(t, c);
        assert(t.push(s.last()) =~= s);
        if s.last() == c {
            assert(pieces.drop_last() =~= front);
            assert(joined(pieces, c) =~= s);
            assert forall|i: int| 0 <= i < pieces.len() implies !(#[trigger] pieces[i]).contains(
                c,
            ) by {
                if i < front.len() {
                    assert(pieces[i] == front[i]);
                }
            }
        } else {
            let last = front.last().push(s.last());
            assert(pieces.drop_last() =~= front.drop_last());
            assert(pieces.last() == last);
            assert forall|i: int| 0 <= i < pieces.len() implies !(#[trigger] pieces[i]).contains(
                c,
            ) by {
                assert(!front[i].contains(c));
                if i == pieces.len() - 1 {
                    if last.contains(c) {
                        let j = choose|j: int| 0 <= j < last.len() && last[j] == c;
                        if j < front.last().len() {
                            assert(front.last()[j] == c);
                        }
                    }
                } else {
                    assert(pieces[i] == front[i]);
                }
            }
            if front.len() == 1 {
                assert(joined(pieces, c) =~= s);
            } else {
                assert(joined(pieces, c) =~= joined(front, c).push(s.last()));
            }
        }
    }
}

/// What lies in the class around a text is trimmed off, and nothing else.
pub proof fn law_trimming(a: Seq<char>, w: Seq<char>, b: Seq<char>, k: CharClass)
    requires
        all_in(a, k),
        all_in(b, k),
        bare(w, k),
    ensures
        trimmed(a + w + b, k) == w,
{
    let s = a + w + b;
    if w.len() == 0 {
        assert forall|i: int| 0 <= i < s.len() implies k.has(#[trigger] s[i]) by {
            if i < a.len() {
                assert(s[i] == a[i]);
            } else {
                assert(s[i] == b[i - a.len()]);
            }
        }
        lemma_lead_cut(s, k, s.len() as int);
        assert(s.skip(s.len() as int) =~= w);
        lemma_tail_cut(w, k, 0);
        assert(w.take(0) =~= w);
    } else {
        assert forall|i: int| 0 <= i < a.len() implies k.has(#[trigger] s[i]) by {
            assert(s[i] == a[i]);
        }
        assert(s[a.len() as int] == w[0]);
        lemma_lead_cut(s, k, a.len() as int);
        let t = s.skip(a.len() as int);
        assert(t =~= w + b);
        assert forall|i: int| w.len() <= i < t.len() implies k.has(#[trigger] t[i]) by {
            assert(t[i] == b[i - w.len()]);
        }
        lemma_tail_cut(t, k, w.len() as int);
        assert(t.take(w.len() as int) =~= w);
    }
}

/// The first word of a text is what stands up to the first white space behind
/// leading white space, however long it is.
pub proof fn law_first_word(a: Seq<char>, w: Seq<char>, rest: Seq<char>)
    requires
        all_in(a, CharClass::Space),
        all_in(w, CharClass::Word),
        w.len() > 0,
        rest.len() > 0 ==> is_white_space(rest[0]),
    ensures
        first_word(a + w + rest) == Some(w),
{
    let s = a + w + rest;
    assert forall|i: int| 0 <= i < a.len() implies CharClass::Space.has(#[trigger] s[i]) by {
        assert(s[i] == a[i]);
    }
    assert(s[a.len() as int] == w[0]);
    assert(CharClass::Word.has(w[0]));
    lemma_lead_cut(s, CharClass::Space, a.len() as int);
    assert(s.skip(a.len() as int) =~= w + rest);
    law_leading_run(w, rest, CharClass::Word);
}

/// White space alone has no first word.
pub proof fn law_no_first_word(s: Seq<char>)
    requires
        all_in(s, CharClass::Space),
    ensures
        first_word(s) is None,
{
    lemma_lead_cut(s, CharClass::Space, s.len() as int);
}

/// The leading run of a class ends where the class does.
pub proof fn law_leading_run(w: Seq<char>, rest: Seq<char>, k: CharClass)
    requires
        all_in(w, k),
        rest.len() > 0 ==> !k.has(rest[0]),
    ensures
        lead(w + rest, k) == w,
        skip_lead(w + rest, k) == rest,
{
    let s = w + rest;
    assert forall|i: int| 0 <= i < w.len() implies k.has(#[trigger] s[i]) by {
        assert(s[i] == w[i]);
    }
    lemma_lead_cut(s, k, w.len() as int);
    assert(s.take(w.len() as int) =~= w);
    assert(s.skip(w.len() as int) =~= rest);
}

/// Changing case moves the ASCII letters of the other case by 32 and leaves
/// everything else where and as it was.
pub proof fn law_case(s: Seq<char>, i: int)
    requires
        0 <= i < s.len(),
    ensures
        lower(s).len() == s.len(),
        upper(s).len() == s.len(),
        65 <= s[i] as int <= 90 ==> lower(s)[i] as int == s[i] as int + 32 && upper(s)[i] == s[i],
        97 <= s[i] as int <= 122 ==> upper(s)[i] as int == s[i] as int - 32 && lower(s)[i] == s[i],
        !(65 <= s[i] as int <= 90) && !(97 <= s[i] as int <= 122) ==> lower(s)[i] == s[i]
            && upper(s)[i] == s[i],
{
}

/// A text begins with another exactly where it continues it.
pub proof fn law_begins(s: Seq<char>, p: Seq<char>)
    ensures
        starts_with(s, p) <==> exists|t: Seq<char>| s == #[trigger] (p + t),
{
    if starts_with(s, p) {
        assert(s =~= p + s.skip(p.len() as int));
    }
    if exists|t: Seq<char>| s == #[trigger] (p + t) {
        let t = choose|t: Seq<char>| s == #[trigger] (p + t);
        assert(s.take(p.len() as int) =~= p);
    }
}

/// The text stands in another at `i`.
pub open spec fn stands_at(s: Seq<char>, p: Seq<char>, i: int) -> bool {
    0 <= i && i + p.len() <= s.len() && s.subrange(i, i + p.len()) == p
}

proof fn lemma_stands(s: Seq<char>, p: Seq<char>, i: int)
    requires
        0 <= i <= s.len(),
    ensures
        stands_at(s, p, i) <==> occurs_at(s, p, i),
{
    if i + p.len() <= s.len() {
        assert(s.skip(i).take(p.len() as int) =~= s.subrange(i, i + p.len()));
    }
}

/// A search finds the first place where the text stands, and nothing where it
/// stands nowhere.
pub proof fn law_search(s: Seq<char>, p: Seq<char>)
    ensures
        match find_text(s, p) {
            Some(n) => stands_at(s, p, n as int) && forall|i: int|
                0 <= i < n ==> !#[trigger] stands_at(s, p, i),
            None => forall|i: int| !#[trigger] stands_at(s, p, i),
        },
{
    lemma_find_sound(s, p);
    match find_text(s, p) {
        Some(n) => {
            lemma_stands(s, p, n as int);
            assert forall|i: int| 0 <= i < n implies !#[trigger] stands_at(s, p, i) by {
                lemma_stands(s, p, i);
                if occurs_at(s, p, i) {
                    lemma_find_no_earlier(s, p, i);
                }
            }
        },
        None => {
            assert forall|i: int| !#[trigger] stands_at(s, p, i) by {
                if stands_at(s, p, i) {
                    lemma_stands(s, p, i);
                    lemma_find_no_earlier(s, p, i);
                }
            }
        },
    }
}

/// A text that stands behind a beginning, and nowhere before it, is found there.
pub proof fn law_search_behind(a: Seq<char>, p: Seq<char>, b: Seq<char>)
    requires
        forall|i: int| 0 <= i < a.len() ==> !#[trigger] stands_at(a + p + b, p, i),
    ensures
        find_text(a + p + b, p) == Some(a.len()),
{
    let s = a + p + b;
    let n = a.len() as int;
    assert(s.subrange(n, n + p.len()) =~= p);
    law_search(s, p);
    assert(stands_at(s, p, n));
    if let Some(m) = find_text(s, p) {
        if m < n {
            assert(stands_at(s, p, m as int));
        }
    }
}

/// The order of two texts is that of the first characters in which they differ.
pub proof fn law_first_difference_decides(
    p: Seq<char>,
    x: char,
    a: Seq<char>,
    y: char,
    b: Seq<char>,
)
    requires
        x < y,
    ensures
        before(p + seq![x] + a, p + seq![y] + b),
    decreases p.len(),
{
    let (s, t) = (p + seq![x] + a, p + seq![y] + b);
    if p.len() > 0 {
        let q = p.drop_first();
        assert(s.drop_first() =~= q + seq![x] + a);
        assert(t.drop_first() =~= q + seq![y] + b);
        law_first_difference_decides(q, x, a, y, b);
    }
}

/// A text comes before every longer one that begins with it.
pub proof fn law_prefix_comes_first(p: Seq<char>, more: Seq<char>)
    requires
        more.len() > 0,
    ensures
        before(p, p + more),
    decreases p.len(),
{
    if p.len() > 0 {
        assert((p + more).drop_first() =~= p.drop_first() + more);
        law_prefix_comes_first(p.drop_first(), more);
    }
}

/// Two pieces joined.
pub proof fn lemma_joined_two(a: Seq<char>, b: Seq<char>, c: char)
    ensures
        joined(seq![a, b], c) == a + seq![c] + b,
{
    assert(seq![a, b].drop_last() =~= seq![a]);
    assert(joined(seq![a], c) == a);
}

/// Three pieces joined.
pub proof fn lemma_joined_three(a: Seq<char>, b: Seq<char>, d: Seq<char>, c: char)
    ensures
        joined(seq![a, b, d], c) == a + seq![c] + b + seq![c] + d,
{
    lemma_joined_two(a, b, c);
    assert(seq![a, b, d].drop_last() =~= seq![a, b]);
}

/// Four pieces joined.
pub proof fn lemma_joined_four(a: Seq<char>, b: Seq<char>, d: Seq<char>, e: Seq<char>, c: char)
    ensures
        joined(seq![a, b, d, e], c) == a + seq![c] + b + seq![c] + d + seq![c] + e,
{
    lemma_joined_three(a, b, d, c);
    assert(seq![a, b, d, e].drop_last() =~= seq![a, b, d]);
}

/// The first piece of a text ends at its first separator.
pub proof fn lemma_first_piece(x: Seq<char>, c: char, y: Seq<char>)
    requires
        !x.contains(c),
    ensures
        split_on(x + seq![c] + y, c).len() >= 2,
        split_on(x + seq![c] + y, c)[0] == x,
    decreases y.len(),
{
    let s = x + seq![c] + y;
    if y.len() == 0 {
        lemma_split_single(x, c);
        lemma_split_append(x, c, y);
    } else {
        lemma_first_piece(x, c, y.drop_last());
        assert(s.drop_last() =~= x + seq![c] + y.drop_last());
    }
}

/// The last piece of a text starts behind its last separator.
pub proof fn lemma_last_piece(x: Seq<char>, c: char, y: Seq<char>)
    requires
        !y.contains(c),
    ensures
        split_on(x + seq![c] + y, c).last() == y,
{
    lemma_split_append(x, c, y);
}

/// A list of strings holds the text of each of them in its place, and an
/// optional string its text.
pub proof fn law_texts(v: Seq<String>, i: int, s: String)
    ensures
        texts(v).len() == v.len(),
        0 <= i < v.len() ==> texts(v)[i] == v[i]@,
        opt_text(Some(s)) == Some(s@),
        opt_text(None) is None,
{
}

} // verus!
