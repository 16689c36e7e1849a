//! Recognizing a marker on a single line of text.
//!
//! A line matches a kind when, after arbitrary leading text, it holds the
//! kind's stem (`TOD` or `FIXM`), one or more repetitions of the kind's
//! terminal letter (`O` or `E`), a colon and a single space, then a message,
//! and finally an optional closing block-comment token (runs of `*` each
//! ended by one or more `/`). The priority of the record is the count of
//! terminal letters; the message is the text before the closing token,
//! trimmed of surrounding blanks. Only the first marker head on the line is
//! considered.

use vstd::prelude::*;

verus! {

/// The two marker kinds recognized in comments.
#[derive(Clone, Copy, Debug, PartialEq, Eq, Structural)]
pub enum Marker {
    Todo,
    Fixme,
}

impl Marker {
    /// The fixed stem of the marker word, before the repeated terminal letter.
    pub open spec fn stem(self) -> Seq<char> {
        match self {
            Marker::Todo => seq!['T', 'O', 'D'],
            Marker::Fixme => seq!['F', 'I', 'X', 'M'],
        }
    }

    /// The terminal letter whose repetition count gives the priority.
    pub open spec fn letter(self) -> char {
        match self {
            Marker::Todo => 'O',
            Marker::Fixme => 'E',
        }
    }

    /// The shortest line that can hold a head of this kind: stem, one
    /// terminal letter, colon, space.
    pub open spec fn min_head_len(self) -> int {
        self.stem().len() as int + 3
    }
}

/// A marker head of kind `kind` starts at position `i` of `line` with a run
/// of exactly `k` terminal letters: the stem, the letters, a colon, a space.
/// The colon after the run makes `k` the full run length, so `k` is unique
/// for a given position.
pub open spec fn head_at(line: Seq<char>, kind: Marker, i: int, k: int) -> bool {
    let s = kind.stem();
    &&& 0 <= i
    &&& 1 <= k
    &&& i + s.len() + k + 2 <= line.len()
    &&& line.subrange(i, i + s.len() as int) == s
    &&& (forall|j: int| i + s.len() <= j < i + s.len() + k ==> line[j] == kind.letter())
    &&& line[i + s.len() + k] == ':'
    &&& line[i + s.len() + k + 1] == ' '
}

/// The line holds a head of this kind with a run of exactly `k` letters.
pub open spec fn contains_head(line: Seq<char>, kind: Marker, k: int) -> bool {
    exists|i: int| head_at(line, kind, i, k)
}

/// Length of the message part of `rest`: the run of characters before the
/// first `*` or `/`.
pub open spec fn msg_len(rest: Seq<char>) -> int
    decreases rest.len(),
{
    if rest.len() == 0 {
        0
    } else if rest[0] == '*' || rest[0] == '/' {
        0
    } else {
        1 + msg_len(rest.drop_first())
    }
}

/// A well-formed closing token after the message: nothing at all, or `*` and
/// `/` characters only, ending in a `/` (runs of stars each closed by one or
/// more slashes).
pub open spec fn closer_ok(t: Seq<char>) -> bool {
    &&& (forall|j: int| 0 <= j < t.len() ==> t[j] == '*' || t[j] == '/')
    &&& (t.len() == 0 || t[t.len() - 1] == '/')
}

/// Blanks trimmed from both ends of a message.
pub open spec fn is_blank(c: char) -> bool {
    c == ' ' || c == '\t'
}

/// `s` without its leading blanks.
pub open spec fn trim_start(s: Seq<char>) -> Seq<char>
    decreases s.len(),
{
    if s.len() > 0 && is_blank(s[0]) {
        trim_start(s.drop_first())
    } else {
        s
    }
}

/// `s` without its trailing blanks.
pub open spec fn trim_end(s: Seq<char>) -> Seq<char>
    decreases s.len(),
{
    if s.len() > 0 && is_blank(s[s.len() - 1]) {
        trim_end(s.drop_last())
    } else {
        s
    }
}

/// `s` without leading or trailing blanks.
pub open spec fn trim(s: Seq<char>) -> Seq<char> {
    trim_end(trim_start(s))
}

/// What a head found at position `i` with run length `k` yields: the trimmed
/// message, provided the tail of the line is a message followed by a
/// well-formed closing token.
pub open spec fn tail_spec(line: Seq<char>, kind: Marker, i: int, k: int) -> Option<Seq<char>> {
    let rest = line.subrange(i + kind.stem().len() + k + 2, line.len() as int);
    let m = msg_len(rest);
    if closer_ok(rest.subrange(m, rest.len() as int)) {
        Some(trim(rest.subrange(0, m)))
    } else {
        None
    }
}

/// The match result considering only heads at position `i` or later: the
/// first head decides; its tail must parse, or the line yields nothing.
pub open spec fn match_from(line: Seq<char>, kind: Marker, i: int) -> Option<(int, Seq<char>)>
    decreases line.len() - i,
{
    if i < 0 || i + kind.min_head_len() > line.len() {
        None
    } else if exists|k: int| head_at(line, kind, i, k) {
        let k = choose|k: int| head_at(line, kind, i, k);
        match tail_spec(line, kind, i, k) {
            Some(m) => Some((k, m)),
            None => None,
        }
    } else {
        match_from(line, kind, i + 1)
    }
}

/// The record a line yields for a kind: the priority (count of terminal
/// letters) and the trimmed message of the first marker head, if the line is
/// well formed from there on.
pub open spec fn match_spec(line: Seq<char>, kind: Marker) -> Option<(int, Seq<char>)> {
    match_from(line, kind, 0)
}

/// At one position, only one run length forms a head: the colon that ends
/// the shorter run would have to be a terminal letter of the longer one.
pub proof fn lemma_head_run_unique(line: Seq<char>, kind: Marker, i: int, k1: int, k2: int)
    requires
        head_at(line, kind, i, k1),
        head_at(line, kind, i, k2),
    ensures
        k1 == k2,
{
    let s = kind.stem().len() as int;
    if k1 < k2 {
        assert(line[i + s + k1] == kind.letter());
        assert(line[i + s + k1] == ':');
    } else if k2 < k1 {
        assert(line[i + s + k2] == kind.letter());
        assert(line[i + s + k2] == ':');
    }
}

/// A run of exactly `k` terminal letters of a kind.
pub open spec fn letters(kind: Marker, k: int) -> Seq<char> {
    Seq::new(k as nat, |j: int| kind.letter())
}

/// A line assembled from leading text, a marker head and a well-formed tail.
pub open spec fn line_of(
    pre: Seq<char>,
    kind: Marker,
    k: int,
    msg: Seq<char>,
    closer: Seq<char>,
) -> Seq<char> {
    pre + kind.stem() + letters(kind, k) + seq![':', ' '] + msg + closer
}

proof fn lemma_match_skip_prefix(line: Seq<char>, kind: Marker, i: int, e: int)
    requires
        0 <= i <= e,
        forall|ii: int, kk: int| i <= ii < e ==> !head_at(line, kind, ii, kk),
    ensures
        match_from(line, kind, i) == match_from(line, kind, e),
    decreases e - i,
{
    if i < e {
        if i + kind.min_head_len() > line.len() {
            assert(e + kind.min_head_len() > line.len());
        } else {
            assert(!(exists|kk: int| head_at(line, kind, i, kk)));
            lemma_match_skip_prefix(line, kind, i + 1, e);
        }
    }
}

/// A line without any well-formed marker head of a kind yields no record for
/// that kind: matching is not fooled by stray text.
pub proof fn lemma_no_head_no_record(line: Seq<char>, kind: Marker)
    requires
        forall|i: int, k: int| !head_at(line, kind, i, k),
    ensures
        match_spec(line, kind) is None,
{
    let e = line.len() as int;
    lemma_match_skip_prefix(line, kind, 0, e);
    assert(match_from(line, kind, e) is None);
}

/// A record pins its head: priority `k` is returned only when the line holds
/// the stem followed by exactly `k` terminal letters, then a colon and a
/// space.
pub proof fn lemma_record_pins_head(line: Seq<char>, kind: Marker, k: int, msg: Seq<char>)
    requires
        match_spec(line, kind) == Some((k, msg)),
    ensures
        contains_head(line, kind, k),
{
    lemma_match_from_pins_head(line, kind, 0, k, msg);
}

proof fn lemma_match_from_pins_head(line: Seq<char>, kind: Marker, i: int, k: int, msg: Seq<char>)
    requires
        match_from(line, kind, i) == Some((k, msg)),
    ensures
        contains_head(line, kind, k),
    decreases line.len() - i,
{
    if i < 0 || i + kind.min_head_len() > line.len() {
        assert(false);
    } else if exists|kk: int| head_at(line, kind, i, kk) {
        let kk = choose|kk: int| head_at(line, kind, i, kk);
        assert(head_at(line, kind, i, k));
    } else {
        lemma_match_from_pins_head(line, kind, i + 1, k, msg);
    }
}

/// A line built from leading text, a head with `k` terminal letters, a clean
/// message and a closing token yields exactly the record `(k, trim(msg))`,
/// provided no marker head hides in the leading text.
pub proof fn lemma_well_formed_line_matches(
    pre: Seq<char>,
    kind: Marker,
    k: int,
    msg: Seq<char>,
    closer: Seq<char>,
)
    requires
        k >= 1,
        forall|d: int| 0 <= d < msg.len() ==> !(msg[d] == '*' || msg[d] == '/'),
        closer_ok(closer),
        forall|ii: int, kk: int|
            ii < pre.len() ==> !head_at(line_of(pre, kind, k, msg, closer), kind, ii, kk),
    ensures
        match_spec(line_of(pre, kind, k, msg, closer), kind) == Some((k, trim(msg))),
{
    let line = line_of(pre, kind, k, msg, closer);
    let i = pre.len() as int;
    let sl = kind.stem().len() as int;
    assert(line.len() == pre.len() + sl + k + 2 + msg.len() + closer.len());
    assert(line.subrange(i, i + sl) =~= kind.stem());
    assert forall|j: int| i + sl <= j < i + sl + k implies line[j] == kind.letter() by {
        assert(line[j] == letters(kind, k)[j - i - sl]);
    }
    assert(line[i + sl + k] == ':');
    assert(line[i + sl + k + 1] == ' ');
    assert(head_at(line, kind, i, k));
    lemma_match_skip_prefix(line, kind, 0, i);
    let kk = choose|kk: int| head_at(line, kind, i, kk);
    lemma_head_run_unique(line, kind, i, kk, k);
    let rest = line.subrange(i + sl + k + 2, line.len() as int);
    assert(rest =~= msg + closer);
    assert forall|d: int| 0 <= d < msg.len() implies !(rest[d] == '*' || rest[d] == '/') by {
        assert(rest[d] == msg[d]);
    }
    if msg.len() < rest.len() {
        assert(rest[msg.len() as int] == closer[0]);
    }
    lemma_msg_len_at(rest, msg.len() as int);
    assert(rest.subrange(msg.len() as int, rest.len() as int) =~= closer);
    assert(rest.subrange(0, msg.len() as int) =~= msg);
    assert(match_from(line, kind, i) == Some((k, trim(msg))));
}

proof fn lemma_msg_len_at(rest: Seq<char>, t: int)
    requires
        0 <= t <= rest.len(),
        forall|d: int| 0 <= d < t ==> !(rest[d] == '*' || rest[d] == '/'),
        t == rest.len() || rest[t] == '*' || rest[t] == '/',
    ensures
        msg_len(rest) == t,
    decreases t,
{
    if t == 0 {
    } else {
        assert(forall|d: int| 0 <= d < t - 1 ==> rest.drop_first()[d] == rest[d + 1]);
        lemma_msg_len_at(rest.drop_first(), t - 1);
    }
}

proof fn lemma_trim_start_at(s: Seq<char>, a: int)
    requires
        0 <= a <= s.len(),
        forall|d: int| 0 <= d < a ==> is_blank(s[d]),
        a == s.len() || !is_blank(s[a]),
    ensures
        trim_start(s) == s.subrange(a, s.len() as int),
    decreases a,
{
    if a == 0 {
        assert(s =~= s.subrange(0, s.len() as int));
    } else {
        assert(forall|d: int| 0 <= d < s.len() - 1 ==> s.drop_first()[d] == s[d + 1]);
        lemma_trim_start_at(s.drop_first(), a - 1);
        assert(s.drop_first().subrange(a - 1, s.len() - 1) =~= s.subrange(a, s.len() as int));
    }
}

proof fn lemma_trim_end_at(s: Seq<char>, b: int)
    requires
        0 <= b <= s.len(),
        forall|d: int| b <= d < s.len() ==> is_blank(s[d]),
        b == 0 || !is_blank(s[b - 1]),
    ensures
        trim_end(s) == s.subrange(0, b),
    decreases s.len() - b,
{
    if b == s.len() {
        assert(s =~= s.subrange(0, s.len() as int));
    } else {
        assert(forall|d: int| 0 <= d < s.len() - 1 ==> s.drop_last()[d] == s[d]);
        lemma_trim_end_at(s.drop_last(), b);
    }
}

fn stem_len_of(kind: Marker) -> (r: usize)
    ensures
        r == kind.stem().len(),
{
    match kind {
        Marker::Todo => 3,
        Marker::Fixme => 4,
    }
}

fn letter_of(kind: Marker) -> (c: char)
    ensures
        c == kind.letter(),
{
    match kind {
        Marker::Todo => 'O',
        Marker::Fixme => 'E',
    }
}

fn is_blank_char(c: char) -> (r: bool)
    ensures
        r == is_blank(c),
{
    c == ' ' || c == '\t'
}

fn stem_matches_at(line: &str, kind: Marker, i: usize) -> (r: bool)
    requires
        i + kind.stem().len() <= line@.len(),
        line@.len() <= usize::MAX,
    ensures
        r <==> line@.subrange(i as int, i as int + kind.stem().len() as int) == kind.stem(),
{
    let ghost sub = line@.subrange(i as int, i as int + kind.stem().len() as int);
    let r = match kind {
        Marker::Todo => {
            line.get_char(i) == 'T' && line.get_char(i + 1) == 'O' && line.get_char(i + 2) == 'D'
        },
        Marker::Fixme => {
            line.get_char(i) == 'F' && line.get_char(i + 1) == 'I' && line.get_char(i + 2) == 'X'
                && line.get_char(i + 3) == 'M'
        },
    };
    proof {
        if r {
            assert(sub =~= kind.stem());
        } else {
            if sub == kind.stem() {
                assert(forall|d: int|
                    0 <= d < kind.stem().len() ==> line@[i + d] == #[trigger] kind.stem()[d]);
            }
        }
    }
    r
}

/// Parses the tail of the line once a head of run length `k` stands at `i`:
/// finds the end of the message, checks the closing token, and trims.
fn finish_tail(line: &str, kind: Marker, i: usize, k: usize) -> (r: Option<(usize, String)>)
    requires
        head_at(line@, kind, i as int, k as int),
    ensures
        match r {
            Some((p, m)) => p == k && tail_spec(line@, kind, i as int, k as int) == Some(m@),
            None => tail_spec(line@, kind, i as int, k as int) is None,
        },
{
    let n = line.unicode_len();
    let sl = stem_len_of(kind);
    let m0 = i + sl + k + 2;
    let ghost rest = line@.subrange(m0 as int, n as int);
    // end of the message: the first '*' or '/'
    let mut j: usize = m0;
    while j < n && line.get_char(j) != '*' && line.get_char(j) != '/'
        invariant
            head_at(line@, kind, i as int, k as int),
            n == line@.len(),
            sl == kind.stem().len(),
            m0 == i + sl + k + 2,
            rest == line@.subrange(m0 as int, n as int),
            m0 <= j <= n,
            forall|d: int| m0 <= d < j ==> !(line@[d] == '*' || line@[d] == '/'),
        decreases n - j,
    {
        j = j + 1;
    }
    proof {
        assert(forall|d: int| 0 <= d < j - m0 ==> rest[d] == line@[m0 + d]);
        lemma_msg_len_at(rest, j - m0);
    }
    let ghost closer = rest.subrange(j - m0, rest.len() as int);
    proof {
        assert(closer =~= line@.subrange(j as int, n as int));
    }
    // the closing token may hold only '*' and '/'
    let mut j2: usize = j;
    while j2 < n
        invariant
            head_at(line@, kind, i as int, k as int),
            n == line@.len(),
            sl == kind.stem().len(),
            m0 == i + sl + k + 2,
            rest == line@.subrange(m0 as int, n as int),
            m0 <= j <= n,
            msg_len(rest) == j - m0,
            closer == rest.subrange(j - m0, rest.len() as int),
            closer == line@.subrange(j as int, n as int),
            j <= j2 <= n,
            forall|d: int| j <= d < j2 ==> line@[d] == '*' || line@[d] == '/',
        decreases n - j2,
    {
        let c = line.get_char(j2);
        if c != '*' && c != '/' {
            proof {
                assert(closer[j2 - j] == line@[j2 as int]);
                assert(!closer_ok(closer));
            }
            return None;
        }
        j2 = j2 + 1;
    }
    // and must end in '/'
    if j < n {
        if line.get_char(n - 1) != '/' {
            proof {
                assert(closer[closer.len() - 1] == line@[n - 1]);
                assert(!closer_ok(closer));
            }
            return None;
        }
    }
    proof {
        if closer.len() > 0 {
            assert(closer[closer.len() - 1] == line@[n - 1]);
        }
        assert(closer_ok(closer));
    }
    // trim the message
    let mut a = m0;
    while a < j && is_blank_char(line.get_char(a))
        invariant
            head_at(line@, kind, i as int, k as int),
            n == line@.len(),
            sl == kind.stem().len(),
            m0 == i + sl + k + 2,
            rest == line@.subrange(m0 as int, n as int),
            msg_len(rest) == j - m0,
            closer == rest.subrange(j - m0, rest.len() as int),
            closer_ok(closer),
            m0 <= a <= j <= n,
            forall|d: int| m0 <= d < a ==> is_blank(line@[d]),
        decreases j - a,
    {
        a = a + 1;
    }
    let mut b = j;
    while b > a && is_blank_char(line.get_char(b - 1))
        invariant
            head_at(line@, kind, i as int, k as int),
            n == line@.len(),
            sl == kind.stem().len(),
            m0 == i + sl + k + 2,
            rest == line@.subrange(m0 as int, n as int),
            msg_len(rest) == j - m0,
            closer == rest.subrange(j - m0, rest.len() as int),
            closer_ok(closer),
            m0 <= a <= b <= j <= n,
            forall|d: int| m0 <= d < a ==> is_blank(line@[d]),
            a == j || !is_blank(line@[a as int]),
            forall|d: int| b <= d < j ==> is_blank(line@[d]),
        decreases b,
    {
        b = b - 1;
    }
    let msg = line.substring_char(a, b).to_owned();
    proof {
        let raw = rest.subrange(0, j - m0);
        assert(raw =~= line@.subrange(m0 as int, j as int));
        assert(forall|d: int| 0 <= d < raw.len() ==> raw[d] == line@[m0 + d]);
        lemma_trim_start_at(raw, a - m0);
        let tail1 = raw.subrange(a - m0, raw.len() as int);
        assert(tail1 =~= line@.subrange(a as int, j as int));
        assert(forall|d: int| 0 <= d < tail1.len() ==> tail1[d] == line@[a + d]);
        lemma_trim_end_at(tail1, b - a);
        assert(tail1.subrange(0, b - a) =~= line@.subrange(a as int, b as int));
        assert(trim(raw) == line@.subrange(a as int, b as int));
        assert(msg@ == line@.subrange(a as int, b as int));
    }
    Some((k, msg))
}

/// Scans one line for a marker of the given kind. Returns the priority (the
/// count of repeated terminal letters) and the trimmed message of the first
/// marker head, or nothing when the line holds no well-formed marker.
pub fn match_marker(line: &str, kind: Marker) -> (r: Option<(usize, String)>)
    ensures
        match r {
            Some((p, m)) => match_spec(line@, kind) == Some((p as int, m@)),
            None => match_spec(line@, kind) is None,
        },
{
    let n = line.unicode_len();
    let sl = stem_len_of(kind);
    let min = sl + 3;
    if n < min {
        return None;
    }
    let letter = letter_of(kind);
    let mut i: usize = 0;
    while i <= n - min
        invariant
            n == line@.len(),
            min <= n,
            sl == kind.stem().len(),
            min == kind.min_head_len(),
            letter == kind.letter(),
            0 <= i <= n,
            match_from(line@, kind, 0) == match_from(line@, kind, i as int),
        decreases n - i,
    {
        if stem_matches_at(line, kind, i) {
            // count the terminal-letter run after the stem
            let mut k: usize = 0;
            while i + sl + k < n && line.get_char(i + sl + k) == letter
                invariant
                    n == line@.len(),
                    sl == kind.stem().len(),
                    letter == kind.letter(),
                    i + sl <= n,
                    i + sl + k <= n,
                    forall|d: int| i + sl <= d < i + sl + k ==> line@[d] == kind.letter(),
                decreases n - (i + sl + k),
            {
                k = k + 1;
            }
            let run_end = i + sl + k;
            if k >= 1 && run_end < n - 1 && line.get_char(run_end) == ':'
                && line.get_char(run_end + 1) == ' ' {
                proof {
                    assert(head_at(line@, kind, i as int, k as int));
                    let kk = choose|kk: int| head_at(line@, kind, i as int, kk);
                    lemma_head_run_unique(line@, kind, i as int, kk, k as int);
                }
                let r = finish_tail(line, kind, i, k);
                proof {
                    assert(match_from(line@, kind, i as int) == match tail_spec(
                        line@,
                        kind,
                        i as int,
                        k as int,
                    ) {
                        Some(m) => Some((k as int, m)),
                        None => None::<(int, Seq<char>)>,
                    });
                }
                return r;
            }
            proof {
                assert forall|kk: int| !head_at(line@, kind, i as int, kk) by {
                    if head_at(line@, kind, i as int, kk) {
                        if kk < k {
                            assert(line@[i + sl + kk] == kind.letter());
                            assert(line@[i + sl + kk] == ':');
                        } else if kk > k {
                            assert(i + sl + k < n);
                            assert(line@[i + sl + k] == kind.letter());
                        } else {
                            assert(i + sl + k + 2 <= n);
                            assert(line@[i + sl + k] == ':');
                            assert(line@[i + sl + k + 1] == ' ');
                        }
                    }
                }
            }
        } else {
            proof {
                assert forall|kk: int| !head_at(line@, kind, i as int, kk) by {
                    if head_at(line@, kind, i as int, kk) {
                    }
                }
            }
        }
        proof {
            assert(match_from(line@, kind, i as int) == match_from(line@, kind, i as int + 1));
        }
        i = i + 1;
    }
    proof {
        assert(match_from(line@, kind, i as int) is None);
    }
    None
}

} // verus!
