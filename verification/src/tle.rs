//! Structural parsing of two-line element (TLE) text blocks.
//!
//! The input text is modelled as a sequence of lines separated by `'\n'`;
//! each line is trimmed of leading and trailing blank characters and blank
//! lines are discarded.  The parser then consumes the remaining lines in
//! groups: an optional name line followed by a line starting with `'1'` and
//! a line starting with `'2'`.  Only this block structure is validated;
//! field contents are deferred to the orbital-state resolver.

use vstd::prelude::*;
use vstd::string::*;

verus! {

/// One parsed element record: an optional object name and the two data lines.
#[derive(Debug)]
pub struct TLE {
    pub name: Option<String>,
    pub line1: String,
    pub line2: String,
}

/// Mathematical model of a [`TLE`]: the same three components as sequences
/// of characters.
#[verifier::ext_equal]
pub ghost struct RecordModel {
    pub name: Option<Seq<char>>,
    pub line1: Seq<char>,
    pub line2: Seq<char>,
}

impl View for TLE {
    type V = RecordModel;

    open spec fn view(&self) -> RecordModel {
        RecordModel {
            name: match self.name {
                Some(n) => Some(n@),
                None => None,
            },
            line1: self.line1@,
            line2: self.line2@,
        }
    }
}

/// A structural failure of the parser.  Any such failure is fatal to the
/// whole input: once a group is malformed, record boundaries are ambiguous.
#[derive(Debug, Clone, Copy, PartialEq, Eq, Structural)]
pub enum ParseError {
    /// A group started with a line whose first character is `'2'`.
    UnexpectedLine2,
    /// A name line was not followed by a line whose first character is `'1'`.
    MissingLine1,
    /// A first data line was not followed by a line whose first character is `'2'`.
    MissingLine2,
}

impl ParseError {
    /// A human-readable diagnostic for this failure.
    pub fn message(&self) -> (s: String)
        ensures
            *self == ParseError::UnexpectedLine2 ==> s@ == "TLE group started with line 2, missing line 1"@,
            *self == ParseError::MissingLine1 ==> s@ == "Missing or invalid line 1 after name"@,
            *self == ParseError::MissingLine2 ==> s@ == "Missing or invalid line 2"@,
    {
        match self {
            ParseError::UnexpectedLine2 => "TLE group started with line 2, missing line 1".to_owned(),
            ParseError::MissingLine1 => "Missing or invalid line 1 after name".to_owned(),
            ParseError::MissingLine2 => "Missing or invalid line 2".to_owned(),
        }
    }
}

/// The characters stripped from both ends of each line: the Unicode
/// `White_Space` property, exactly what standard string trimming strips.
pub open spec fn is_blank(c: char) -> bool {
    c == ' ' || c == '\t' || c == '\n' || c == '\r' || c == '\u{000B}' || c == '\u{000C}' || c
        == '\u{0085}' || c == '\u{00A0}' || c == '\u{1680}' || (0x2000 <= c as u32 && c as u32
        <= 0x200A) || c == '\u{2028}' || c == '\u{2029}' || c == '\u{202F}' || c == '\u{205F}'
        || c == '\u{3000}'
}

/// The lines of `s`, split at `'\n'`.
pub open spec fn split_lines(s: Seq<char>) -> Seq<Seq<char>>
    decreases s.len(),
{
    if s.len() == 0 {
        Seq::empty()
    } else if s[0] == '\n' {
        seq![Seq::<char>::empty()] + split_lines(s.drop_first())
    } else {
        let rest = split_lines(s.drop_first());
        if rest.len() == 0 {
            seq![seq![s[0]]]
        } else {
            seq![seq![s[0]] + rest[0]] + rest.drop_first()
        }
    }
}

/// `l` with its leading blank characters removed.
pub open spec fn trim_front(l: Seq<char>) -> Seq<char>
    decreases l.len(),
{
    if l.len() > 0 && is_blank(l[0]) {
        trim_front(l.drop_first())
    } else {
        l
    }
}

/// `l` with its trailing blank characters removed.
pub open spec fn trim_back(l: Seq<char>) -> Seq<char>
    decreases l.len(),
{
    if l.len() > 0 && is_blank(l.last()) {
        trim_back(l.drop_last())
    } else {
        l
    }
}

/// `l` with blank characters removed from both ends.
pub open spec fn trimmed(l: Seq<char>) -> Seq<char> {
    trim_back(trim_front(l))
}

/// The trimmed, non-empty lines of `s`: what the parser consumes.
pub open spec fn cleaned_lines(s: Seq<char>) -> Seq<Seq<char>> {
    split_lines(s).map_values(|l: Seq<char>| trimmed(l)).filter(|l: Seq<char>| l.len() != 0)
}

/// Whether line `l` is non-empty and begins with the designator `d`.
pub open spec fn starts_with_char(l: Seq<char>, d: char) -> bool {
    l.len() > 0 && l[0] == d
}

/// The parser itself, over cleaned lines: consumes groups of two or three
/// lines and yields the records in input order, or the first structural
/// failure.
pub open spec fn parse_records(lines: Seq<Seq<char>>) -> Result<Seq<RecordModel>, ParseError>
    decreases lines.len(),
{
    if lines.len() == 0 {
        Ok(Seq::empty())
    } else if starts_with_char(lines[0], '1') {
        if lines.len() >= 2 && starts_with_char(lines[1], '2') {
            match parse_records(lines.skip(2)) {
                Ok(rest) => Ok(
                    seq![RecordModel { name: None, line1: lines[0], line2: lines[1] }] + rest,
                ),
                Err(e) => Err(e),
            }
        } else {
            Err(ParseError::MissingLine2)
        }
    } else if starts_with_char(lines[0], '2') {
        Err(ParseError::UnexpectedLine2)
    } else {
        if lines.len() >= 2 && starts_with_char(lines[1], '1') {
            if lines.len() >= 3 && starts_with_char(lines[2], '2') {
                match parse_records(lines.skip(3)) {
                    Ok(rest) => Ok(
                        seq![
                            RecordModel {
                                name: Some(lines[0]),
                                line1: lines[1],
                                line2: lines[2],
                            },
                        ] + rest,
                    ),
                    Err(e) => Err(e),
                }
            } else {
                Err(ParseError::MissingLine2)
            }
        } else {
            Err(ParseError::MissingLine1)
        }
    }
}

/// Removing leading blanks keeps exactly the characters from the first
/// non-blank position on.
proof fn lemma_trim_front_skip(l: Seq<char>, k: int)
    requires
        0 <= k <= l.len(),
        forall|j: int| 0 <= j < k ==> is_blank(#[trigger] l[j]),
        k == l.len() || !is_blank(l[k]),
    ensures
        trim_front(l) == l.skip(k),
    decreases k,
{
    if k == 0 {
        assert(l.skip(0) =~= l);
    } else {
        lemma_trim_front_skip(l.drop_first(), k - 1);
        assert(l.drop_first().skip(k - 1) =~= l.skip(k));
    }
}

/// Removing trailing blanks keeps exactly the characters up to the last
/// non-blank position.
proof fn lemma_trim_back_take(l: Seq<char>, k: int)
    requires
        0 <= k <= l.len(),
        forall|j: int| k <= j < l.len() ==> is_blank(#[trigger] l[j]),
        k == 0 || !is_blank(l[k - 1]),
    ensures
        trim_back(l) == l.take(k),
    decreases l.len() - k,
{
    if k == l.len() {
        assert(l.take(k) =~= l);
    } else {
        lemma_trim_back_take(l.drop_last(), k);
        assert(l.drop_last().take(k) =~= l.take(k));
    }
}

/// Trimming a line whose blank characters lie exactly outside `[a, b)`
/// yields that window.
proof fn lemma_trimmed_window(l: Seq<char>, a: int, b: int)
    requires
        0 <= a <= b <= l.len(),
        forall|j: int| 0 <= j < a ==> is_blank(#[trigger] l[j]),
        forall|j: int| b <= j < l.len() ==> is_blank(#[trigger] l[j]),
        a < b ==> !is_blank(l[a]) && !is_blank(l[b - 1]),
        a == b ==> a == l.len(),
    ensures
        trimmed(l) == l.subrange(a, b),
{
    lemma_trim_front_skip(l, a);
    let f = l.skip(a);
    lemma_trim_back_take(f, b - a);
    assert(f.take(b - a) =~= l.subrange(a, b));
}

/// The contribution of one raw line to [`cleaned_lines`]: its trimmed
/// text, kept only when non-empty.
spec fn cleaned_one(seg: Seq<char>) -> Seq<Seq<char>> {
    if trimmed(seg).len() == 0 {
        Seq::empty()
    } else {
        seq![trimmed(seg)]
    }
}

/// Splitting at the first newline peels off the first raw line.
proof fn lemma_split_lines_at_newline(s: Seq<char>, m: int)
    requires
        0 <= m < s.len(),
        s[m] == '\n',
        forall|k: int| 0 <= k < m ==> s[k] != '\n',
    ensures
        split_lines(s) == seq![s.take(m)] + split_lines(s.skip(m + 1)),
    decreases m,
{
    if m == 0 {
        assert(s.take(0) =~= Seq::<char>::empty());
        assert(s.skip(1) =~= s.drop_first());
    } else {
        lemma_split_lines_at_newline(s.drop_first(), m - 1);
        assert(s.drop_first().take(m - 1) =~= s.take(m).drop_first());
        assert(s.drop_first().skip(m) =~= s.skip(m + 1));
        let rest = split_lines(s.drop_first());
        assert(rest == seq![s.drop_first().take(m - 1)] + split_lines(s.skip(m + 1)));
        assert(rest.len() >= 1);
        assert(seq![s[0]] + rest[0] =~= s.take(m)) by {
            assert(rest[0] == s.take(m).drop_first());
            assert(s.take(m).len() >= 1);
            assert(s.take(m)[0] == s[0]);
        }
        assert(rest.drop_first() =~= split_lines(s.skip(m + 1)));
        assert(split_lines(s) =~= seq![s.take(m)] + split_lines(s.skip(m + 1)));
    }
}

/// A sequence without newlines is a single raw line (or no line at all).
proof fn lemma_split_lines_whole(s: Seq<char>)
    requires
        forall|k: int| 0 <= k < s.len() ==> s[k] != '\n',
    ensures
        split_lines(s) == if s.len() == 0 {
            Seq::<Seq<char>>::empty()
        } else {
            seq![s]
        },
    decreases s.len(),
{
    if s.len() > 0 {
        lemma_split_lines_whole(s.drop_first());
        if s.len() == 1 {
            assert(s =~= seq![s[0]]);
        } else {
            assert(seq![s[0]] + s.drop_first() =~= s);
            assert(split_lines(s) =~= seq![s]);
        }
    }
}

/// Filtering a one-line sequence keeps the line exactly when it is
/// non-empty.
proof fn lemma_filter_one(l: Seq<char>)
    ensures
        seq![l].filter(|x: Seq<char>| x.len() != 0) == if l.len() == 0 {
            Seq::<Seq<char>>::empty()
        } else {
            seq![l]
        },
{
    reveal_with_fuel(Seq::filter, 2);
    let nonempty = |x: Seq<char>| x.len() != 0;
    let single = seq![l];
    assert(single.drop_last() =~= Seq::<Seq<char>>::empty());
    assert(Seq::<Seq<char>>::empty().filter(nonempty) =~= Seq::<Seq<char>>::empty());
    assert(single.filter(nonempty) == if nonempty(l) {
        Seq::<Seq<char>>::empty().push(l)
    } else {
        Seq::<Seq<char>>::empty()
    });
    assert(Seq::<Seq<char>>::empty().push(l) =~= seq![l]);
}

/// `cleaned_lines` of a concatenation of raw lines decomposes into the
/// cleaning of the first raw line followed by the cleaning of the rest.
proof fn lemma_cleaned_lines_at_newline(s: Seq<char>, m: int)
    requires
        0 <= m < s.len(),
        s[m] == '\n',
        forall|k: int| 0 <= k < m ==> s[k] != '\n',
    ensures
        cleaned_lines(s) == cleaned_one(s.take(m)) + cleaned_lines(s.skip(m + 1)),
{
    lemma_split_lines_at_newline(s, m);
    let tr = |l: Seq<char>| trimmed(l);
    let nonempty = |l: Seq<char>| l.len() != 0;
    let head = seq![s.take(m)];
    let tail = split_lines(s.skip(m + 1));
    assert((head + tail).map_values(tr) =~= head.map_values(tr) + tail.map_values(tr));
    Seq::filter_distributes_over_add(head.map_values(tr), tail.map_values(tr), nonempty);
    assert(head.map_values(tr) =~= seq![trimmed(s.take(m))]);
    lemma_filter_one(trimmed(s.take(m)));
}

/// `cleaned_lines` of a newline-free sequence is the cleaning of that one
/// raw line.
proof fn lemma_cleaned_lines_whole(s: Seq<char>)
    requires
        forall|k: int| 0 <= k < s.len() ==> s[k] != '\n',
    ensures
        cleaned_lines(s) == cleaned_one(s),
{
    lemma_split_lines_whole(s);
    reveal_with_fuel(Seq::filter, 1);
    let tr = |l: Seq<char>| trimmed(l);
    let nonempty = |l: Seq<char>| l.len() != 0;
    if s.len() == 0 {
        assert(Seq::<Seq<char>>::empty().map_values(tr) =~= Seq::<Seq<char>>::empty());
        assert(Seq::<Seq<char>>::empty().filter(nonempty) =~= Seq::<Seq<char>>::empty());
        assert(trimmed(s) =~= s);
    } else {
        assert(seq![s].map_values(tr) =~= seq![trimmed(s)]);
        lemma_filter_one(trimmed(s));
    }
}

/// Whether `c` is one of the blank characters stripped by trimming.
fn is_blank_char(c: char) -> (r: bool)
    ensures
        r == is_blank(c),
{
    c == ' ' || c == '\t' || c == '\n' || c == '\r' || c == '\u{000B}' || c == '\u{000C}' || c
        == '\u{0085}' || c == '\u{00A0}' || c == '\u{1680}' || (0x2000 <= c as u32 && c as u32
        <= 0x200A) || c == '\u{2028}' || c == '\u{2029}' || c == '\u{202F}' || c == '\u{205F}'
        || c == '\u{3000}'
}

/// Splits the raw input into its trimmed, non-empty lines, in input order.
pub fn collect_clean_lines(s: &str) -> (lines: Vec<String>)
    ensures
        lines@.map_values(|l: String| l@) == cleaned_lines(s@),
{
    let n = s.unicode_len();
    let mut lines: Vec<String> = Vec::new();
    let mut p: usize = 0;
    proof {
        assert(s@.skip(0) =~= s@);
        assert(lines@.map_values(|l: String| l@) =~= Seq::<Seq<char>>::empty());
    }
    while p < n
        invariant
            p <= n,
            n == s@.len(),
            cleaned_lines(s@) == lines@.map_values(|l: String| l@) + cleaned_lines(
                s@.skip(p as int),
            ),
        decreases n - p,
    {
        let mut i: usize = p;
        while i < n && s.get_char(i) != '\n'
            invariant
                p <= i <= n,
                n == s@.len(),
                forall|j: int| p <= j < i ==> s@[j] != '\n',
            decreases n - i,
        {
            i = i + 1;
        }
        let mut a: usize = p;
        while a < i && is_blank_char(s.get_char(a))
            invariant
                p <= a <= i <= n,
                n == s@.len(),
                forall|j: int| p <= j < a ==> is_blank(#[trigger] s@[j]),
            decreases i - a,
        {
            a = a + 1;
        }
        let mut b: usize = i;
        while b > a && is_blank_char(s.get_char(b - 1))
            invariant
                p <= a <= b <= i <= n,
                n == s@.len(),
                forall|j: int| b <= j < i ==> is_blank(#[trigger] s@[j]),
            decreases b,
        {
            b = b - 1;
        }
        let ghost prev = lines@;
        let ghost seg = s@.subrange(p as int, i as int);
        proof {
            if a == b && a < i {
                assert(is_blank(s@[a as int]));
                assert(!is_blank(s@[a as int]));
            }
            lemma_trimmed_window(seg, a - p, b - p);
            assert(seg.subrange(a - p, b - p) =~= s@.subrange(a as int, b as int));
            let sub = s@.skip(p as int);
            if i < n {
                assert(sub[i - p] == '\n');
                lemma_cleaned_lines_at_newline(sub, i - p);
                assert(sub.take(i - p) =~= seg);
                assert(sub.skip(i - p + 1) =~= s@.skip(i + 1));
            } else {
                lemma_cleaned_lines_whole(sub);
                assert(sub =~= seg);
            }
        }
        if a < b {
            let piece = s.substring_char(a, b);
            lines.push(piece.to_owned());
            proof {
                assert(lines@.map_values(|l: String| l@) =~= prev.map_values(|l: String| l@)
                    + seq![s@.subrange(a as int, b as int)]);
            }
        }
        let ghost next_p: int = if i < n {
            i + 1
        } else {
            n as int
        };
        proof {
            assert(cleaned_lines(s@) == lines@.map_values(|l: String| l@) + cleaned_lines(
                s@.skip(next_p),
            )) by {
                assert(cleaned_lines(s@.skip(p as int)) == cleaned_one(seg) + cleaned_lines(
                    s@.skip(next_p),
                )) by {
                    if i == n {
                        assert(s@.skip(next_p) =~= Seq::<char>::empty());
                        lemma_cleaned_lines_whole(Seq::<char>::empty());
                        assert(cleaned_lines(Seq::<char>::empty())
                            =~= Seq::<Seq<char>>::empty());
                    }
                }
                assert(prev.map_values(|l: String| l@) + (cleaned_one(seg) + cleaned_lines(
                    s@.skip(next_p),
                )) =~= (prev.map_values(|l: String| l@) + cleaned_one(seg)) + cleaned_lines(
                    s@.skip(next_p),
                ));
                if a < b {
                    assert(cleaned_one(seg) =~= seq![s@.subrange(a as int, b as int)]);
                } else {
                    assert(cleaned_one(seg) =~= Seq::<Seq<char>>::empty());
                    assert(lines@.map_values(|l: String| l@) =~= prev.map_values(
                        |l: String| l@,
                    ) + cleaned_one(seg));
                }
            }
        }
        p = if i < n {
            i + 1
        } else {
            n
        };
    }
    proof {
        assert(s@.skip(p as int) =~= Seq::<char>::empty());
        lemma_cleaned_lines_whole(Seq::<char>::empty());
        assert(cleaned_lines(Seq::<char>::empty()) =~= Seq::<Seq<char>>::empty());
        assert(lines@.map_values(|l: String| l@) + Seq::<Seq<char>>::empty() =~= lines@.map_values(
            |l: String| l@,
        ));
    }
    lines
}

/// Combines records already parsed with the outcome of parsing the
/// remaining lines.
spec fn with_prefix(
    prefix: Seq<RecordModel>,
    rest: Result<Seq<RecordModel>, ParseError>,
) -> Result<Seq<RecordModel>, ParseError> {
    match rest {
        Ok(rs) => Ok(prefix + rs),
        Err(e) => Err(e),
    }
}

/// Whether the line is non-empty and begins with the designator `d`.
fn line_starts_with(l: &String, d: char) -> (r: bool)
    ensures
        r == starts_with_char(l@, d),
{
    if l.as_str().unicode_len() == 0 {
        false
    } else {
        l.as_str().get_char(0) == d
    }
}

/// Consumes cleaned lines in groups of two or three, yielding the records
/// in input order, or the first structural failure.
pub fn parse_line_groups(lines: &Vec<String>) -> (r: Result<Vec<TLE>, ParseError>)
    ensures
        ({
            let cl = lines@.map_values(|l: String| l@);
            match r {
                Ok(tles) => parse_records(cl) == Ok::<Seq<RecordModel>, ParseError>(
                    tles@.map_values(|t: TLE| t@),
                ),
                Err(e) => parse_records(cl) == Err::<Seq<RecordModel>, ParseError>(e),
            }
        }),
{
    let ghost cl = lines@.map_values(|l: String| l@);
    let ghost vt = |t: TLE| t@;
    let mut out: Vec<TLE> = Vec::new();
    let mut idx: usize = 0;
    proof {
        assert(cl.skip(0) =~= cl);
        assert(out@.map_values(vt) =~= Seq::<RecordModel>::empty());
    }
    while idx < lines.len()
        invariant
            idx <= lines.len(),
            cl == lines@.map_values(|l: String| l@),
            vt == (|t: TLE| t@),
            parse_records(cl) == with_prefix(out@.map_values(vt), parse_records(cl.skip(idx as int))),
        decreases lines.len() - idx,
    {
        let ghost rest = cl.skip(idx as int);
        let ghost prev = out@;
        if line_starts_with(&lines[idx], '1') {
            if idx + 1 < lines.len() && line_starts_with(&lines[idx + 1], '2') {
                out.push(
                    TLE {
                        name: None,
                        line1: lines[idx].clone(),
                        line2: lines[idx + 1].clone(),
                    },
                );
                proof {
                    let recm = RecordModel { name: None, line1: rest[0], line2: rest[1] };
                    assert(rest.skip(2) =~= cl.skip(idx + 2));
                    assert(out@.map_values(vt) =~= prev.map_values(vt).push(recm));
                    match parse_records(rest.skip(2)) {
                        Ok(rs) => {
                            assert(prev.map_values(vt) + (seq![recm] + rs) =~= out@.map_values(vt)
                                + rs);
                        },
                        Err(_e) => {},
                    }
                }
                idx = idx + 2;
            } else {
                return Err(ParseError::MissingLine2);
            }
        } else if line_starts_with(&lines[idx], '2') {
            return Err(ParseError::UnexpectedLine2);
        } else {
            if idx + 1 < lines.len() && line_starts_with(&lines[idx + 1], '1') {
                if idx + 2 < lines.len() && line_starts_with(&lines[idx + 2], '2') {
                    out.push(
                        TLE {
                            name: Some(lines[idx].clone()),
                            line1: lines[idx + 1].clone(),
                            line2: lines[idx + 2].clone(),
                        },
                    );
                    proof {
                        let recm = RecordModel {
                            name: Some(rest[0]),
                            line1: rest[1],
                            line2: rest[2],
                        };
                        assert(rest.skip(3) =~= cl.skip(idx + 3));
                        assert(out@.map_values(vt) =~= prev.map_values(vt).push(recm));
                        match parse_records(rest.skip(3)) {
                            Ok(rs) => {
                                assert(prev.map_values(vt) + (seq![recm] + rs)
                                    =~= out@.map_values(vt) + rs);
                            },
                            Err(_e) => {},
                        }
                    }
                    idx = idx + 3;
                } else {
                    return Err(ParseError::MissingLine2);
                }
            } else {
                return Err(ParseError::MissingLine1);
            }
        }
    }
    proof {
        assert(cl.skip(idx as int) =~= Seq::<Seq<char>>::empty());
        assert(out@.map_values(vt) + Seq::<RecordModel>::empty() =~= out@.map_values(vt));
    }
    Ok(out)
}

/// Parses raw element text into the element records it contains: the lines
/// are trimmed, blank lines are dropped, and the remaining lines are
/// consumed as records of an optional name line, a line starting with
/// `'1'` and a line starting with `'2'`.  A structurally malformed input
/// fails as a whole; an empty input yields no records.
pub fn parse_tles(tle_str: &str) -> (r: Result<Vec<TLE>, ParseError>)
    ensures
        match r {
            Ok(tles) => parse_records(cleaned_lines(tle_str@)) == Ok::<
                Seq<RecordModel>,
                ParseError,
            >(tles@.map_values(|t: TLE| t@)),
            Err(e) => parse_records(cleaned_lines(tle_str@)) == Err::<
                Seq<RecordModel>,
                ParseError,
            >(e),
        },
{
    let lines = collect_clean_lines(tle_str);
    parse_line_groups(&lines)
}

/// Law: a well-formed three-line input — a name line, then a line starting
/// with `'1'`, then a line starting with `'2'`, each free of newlines —
/// parses to a single record whose name is the trimmed first line.
pub proof fn lemma_named_input_parses(l0: Seq<char>, l1: Seq<char>, l2: Seq<char>)
    requires
        forall|k: int| 0 <= k < l0.len() ==> l0[k] != '\n',
        forall|k: int| 0 <= k < l1.len() ==> l1[k] != '\n',
        forall|k: int| 0 <= k < l2.len() ==> l2[k] != '\n',
        trimmed(l0).len() > 0,
        !starts_with_char(trimmed(l0), '1'),
        !starts_with_char(trimmed(l0), '2'),
        starts_with_char(trimmed(l1), '1'),
        starts_with_char(trimmed(l2), '2'),
    ensures
        parse_records(cleaned_lines(l0 + seq!['\n'] + l1 + seq!['\n'] + l2)) == Ok::<
            Seq<RecordModel>,
            ParseError,
        >(seq![RecordModel { name: Some(trimmed(l0)), line1: trimmed(l1), line2: trimmed(l2) }]),
{
    let s = l0 + seq!['\n'] + l1 + seq!['\n'] + l2;
    let s1 = l1 + seq!['\n'] + l2;
    assert(s[l0.len() as int] == '\n');
    lemma_cleaned_lines_at_newline(s, l0.len() as int);
    assert(s.take(l0.len() as int) =~= l0);
    assert(s.skip(l0.len() as int + 1) =~= s1);
    assert(s1[l1.len() as int] == '\n');
    lemma_cleaned_lines_at_newline(s1, l1.len() as int);
    assert(s1.take(l1.len() as int) =~= l1);
    assert(s1.skip(l1.len() as int + 1) =~= l2);
    lemma_cleaned_lines_whole(l2);
    let lines = cleaned_lines(s);
    assert(lines =~= seq![trimmed(l0), trimmed(l1), trimmed(l2)]);
    assert(lines.skip(3) =~= Seq::<Seq<char>>::empty());
    assert(parse_records(lines.skip(3)) == Ok::<Seq<RecordModel>, ParseError>(
        Seq::<RecordModel>::empty(),
    ));
    let recm = RecordModel { name: Some(trimmed(l0)), line1: trimmed(l1), line2: trimmed(l2) };
    assert(seq![recm] + Seq::<RecordModel>::empty() =~= seq![recm]);
}

/// Law: a well-formed two-line input — a line starting with `'1'` followed
/// by a line starting with `'2'`, each free of newlines — parses to a
/// single record without a name.
pub proof fn lemma_unnamed_input_parses(l1: Seq<char>, l2: Seq<char>)
    requires
        forall|k: int| 0 <= k < l1.len() ==> l1[k] != '\n',
        forall|k: int| 0 <= k < l2.len() ==> l2[k] != '\n',
        starts_with_char(trimmed(l1), '1'),
        starts_with_char(trimmed(l2), '2'),
    ensures
        parse_records(cleaned_lines(l1 + seq!['\n'] + l2)) == Ok::<Seq<RecordModel>, ParseError>(
            seq![RecordModel { name: None, line1: trimmed(l1), line2: trimmed(l2) }],
        ),
{
    let s = l1 + seq!['\n'] + l2;
    assert(s[l1.len() as int] == '\n');
    lemma_cleaned_lines_at_newline(s, l1.len() as int);
    assert(s.take(l1.len() as int) =~= l1);
    assert(s.skip(l1.len() as int + 1) =~= l2);
    lemma_cleaned_lines_whole(l2);
    let lines = cleaned_lines(s);
    assert(lines =~= seq![trimmed(l1), trimmed(l2)]);
    assert(lines.skip(2) =~= Seq::<Seq<char>>::empty());
    assert(parse_records(lines.skip(2)) == Ok::<Seq<RecordModel>, ParseError>(
        Seq::<RecordModel>::empty(),
    ));
    let recm = RecordModel { name: None, line1: trimmed(l1), line2: trimmed(l2) };
    assert(seq![recm] + Seq::<RecordModel>::empty() =~= seq![recm]);
}

/// Law: an input whose first cleaned line begins with `'2'` is rejected:
/// a group may never start mid-record.
pub proof fn lemma_leading_line2_rejected(lines: Seq<Seq<char>>)
    requires
        lines.len() > 0,
        starts_with_char(lines[0], '2'),
    ensures
        parse_records(lines) == Err::<Seq<RecordModel>, ParseError>(ParseError::UnexpectedLine2),
{
}

/// Law: a name line that is not followed by a line beginning with `'1'`
/// is rejected.
pub proof fn lemma_missing_line1_rejected(lines: Seq<Seq<char>>)
    requires
        lines.len() > 0,
        !starts_with_char(lines[0], '1'),
        !starts_with_char(lines[0], '2'),
        lines.len() >= 2 ==> !starts_with_char(lines[1], '1'),
    ensures
        parse_records(lines) == Err::<Seq<RecordModel>, ParseError>(ParseError::MissingLine1),
{
}

/// Law: an empty input cleans to no lines and parses to no records.
pub proof fn lemma_empty_input_parses_empty()
    ensures
        cleaned_lines(Seq::<char>::empty()) == Seq::<Seq<char>>::empty(),
        parse_records(Seq::<Seq<char>>::empty()) == Ok::<Seq<RecordModel>, ParseError>(
            Seq::<RecordModel>::empty(),
        ),
{
    lemma_cleaned_lines_whole(Seq::<char>::empty());
    assert(cleaned_lines(Seq::<char>::empty()) =~= Seq::<Seq<char>>::empty());
}

} // verus!
