use vstd::prelude::*;
use vstd::string::*;

verus! {

/// The ASCII-uppercase image of a character: lowercase letters are raised,
/// everything else is kept.
pub open spec fn ascii_upper(c: char) -> char {
    if 97 <= c as u32 <= 122 {
        ((c as u32 - 32) as u8) as char
    } else {
        c
    }
}

/// True of the ASCII whitespace trimmed from record lines.
pub open spec fn is_line_space(c: char) -> bool {
    c == ' ' || c == '\t' || c == '\r'
}

fn upper_char(c: char) -> (r: char)
    ensures
        r == ascii_upper(c),
{
    let u = c as u32;
    if 97 <= u && u <= 122 {
        ((u - 32) as u8) as char
    } else {
        c
    }
}

fn line_space(c: char) -> (r: bool)
    ensures
        r == is_line_space(c),
{
    c == ' ' || c == '\t' || c == '\r'
}

/// One parsed record: an identifier and its sequence, held uppercase.
#[derive(Debug)]
pub struct SeqRecord {
    pub identifier: String,
    pub length: usize,
    pub sequence: Vec<char>,
}

impl SeqRecord {
    /// Builds a record, raising the sequence to uppercase.
    pub fn new(identifier: &str, sequence: &str) -> (r: SeqRecord)
        ensures
            r.identifier@ == identifier@,
            r.length == sequence@.len(),
            r.sequence@.len() == sequence@.len(),
            forall|i: int|
                0 <= i < sequence@.len() ==> r.sequence@[i] == ascii_upper(#[trigger] sequence@[i]),
    {
        let len = sequence.unicode_len();
        let mut chars: Vec<char> = Vec::new();
        let mut i: usize = 0;
        while i < len
            invariant
                i <= len,
                len == sequence@.len(),
                chars@.len() == i,
                forall|j: int|
                    0 <= j < i ==> chars@[j] == ascii_upper(#[trigger] sequence@[j]),
            decreases len - i,
        {
            chars.push(upper_char(sequence.get_char(i)));
            i += 1;
        }
        SeqRecord { identifier: identifier.to_owned(), length: len, sequence: chars }
    }
}

impl PartialEq for SeqRecord {
    /// Two records are equal when identifier, length and sequence agree.
    fn eq(&self, other: &SeqRecord) -> (r: bool) {
        if self.length != other.length {
            return false;
        }
        if !(self.identifier == other.identifier) {
            return false;
        }
        char_vec_eq(&self.sequence, &other.sequence)
    }
}

impl vstd::std_specs::cmp::PartialEqSpecImpl for SeqRecord {
    open spec fn obeys_eq_spec() -> bool {
        true
    }

    open spec fn eq_spec(&self, other: &SeqRecord) -> bool {
        &&& self.identifier@ == other.identifier@
        &&& self.length == other.length
        &&& self.sequence@ == other.sequence@
    }
}

fn char_vec_eq(a: &Vec<char>, b: &Vec<char>) -> (r: bool)
    ensures
        r == (a@ == b@),
{
    if a.len() != b.len() {
        return false;
    }
    let mut i: usize = 0;
    while i < a.len()
        invariant
            a@.len() == b@.len(),
            i <= a@.len(),
            forall|j: int| 0 <= j < i ==> a@[j] == b@[j],
        decreases a@.len() - i,
    {
        if a[i] != b[i] {
            return false;
        }
        i += 1;
    }
    proof {
        assert(a@ =~= b@);
    }
    true
}

/// The position of the first newline at or past `from`, or the end of `s`.
pub open spec fn line_end_at(s: Seq<char>, from: int) -> int
    decreases s.len() - from,
{
    if from < 0 || from >= s.len() {
        s.len() as int
    } else if s[from] == '\n' {
        from
    } else {
        line_end_at(s, from + 1)
    }
}

/// The first position in `[from, to)` that does not carry a `>` mark.
pub open spec fn skip_marks(s: Seq<char>, from: int, to: int) -> int
    decreases to - from,
{
    if 0 <= from < to <= s.len() && s[from] == '>' {
        skip_marks(s, from + 1, to)
    } else {
        from
    }
}

/// The first position in `[from, to)` that does not carry a blank.
pub open spec fn skip_blanks(s: Seq<char>, from: int, to: int) -> int
    decreases to - from,
{
    if 0 <= from < to <= s.len() && is_line_space(s[from]) {
        skip_blanks(s, from + 1, to)
    } else {
        from
    }
}

/// The end of `[from, to)` with trailing blanks dropped.
pub open spec fn drop_blanks(s: Seq<char>, from: int, to: int) -> int
    decreases to - from,
{
    if 0 <= from < to <= s.len() && is_line_space(s[to - 1]) {
        drop_blanks(s, from, to - 1)
    } else {
        to
    }
}

/// The characters of `[from, to)`, raised to uppercase.
pub open spec fn upper_range(s: Seq<char>, from: int, to: int) -> Seq<char> {
    Seq::new((to - from) as nat, |i: int| ascii_upper(s[from + i]))
}

/// A finished parse: a record only where an identifier line with text and
/// at least one sequence character were seen.
pub open spec fn parsed_record(have_ident: bool, ident: Seq<char>, acc: Seq<char>) -> Option<
    (Seq<char>, Seq<char>),
> {
    if have_ident && acc.len() > 0 {
        Some((ident, acc))
    } else {
        None
    }
}

/// What parsing one record from position `p` of `s` yields, given the
/// identifier and sequence text gathered so far: line by line, an
/// identifier line (opening with `>`) either starts the record — its
/// leading marks and surrounding blanks dropped — or, where an identifier
/// was already seen, ends it and is left unconsumed; every other line
/// contributes its text, surrounding blanks dropped and raised to
/// uppercase.  The result carries the parsed record, if any, and the
/// position at which reading stops.
pub open spec fn parse_next(
    s: Seq<char>,
    p: int,
    have_ident: bool,
    ident: Seq<char>,
    acc: Seq<char>,
) -> (Option<(Seq<char>, Seq<char>)>, int)
    decreases s.len() - p,
    via parse_next_decreases
{
    if p < 0 || p >= s.len() {
        (parsed_record(have_ident, ident, acc), p)
    } else {
        let e = line_end_at(s, p);
        let np = if e < s.len() {
            e + 1
        } else {
            e
        };
        if e > p && s[p] == '>' {
            if have_ident {
                (parsed_record(have_ident, ident, acc), p)
            } else {
                let a = skip_blanks(s, skip_marks(s, p, e), e);
                let b = drop_blanks(s, a, e);
                if a < b {
                    parse_next(s, np, true, s.subrange(a, b), acc)
                } else {
                    parse_next(s, np, false, ident, acc)
                }
            }
        } else {
            let a = skip_blanks(s, p, e);
            let b = drop_blanks(s, a, e);
            if a < b {
                parse_next(s, np, have_ident, ident, acc + upper_range(s, a, b))
            } else {
                parse_next(s, np, have_ident, ident, acc)
            }
        }
    }
}

proof fn lemma_line_end_at_bounds(s: Seq<char>, from: int)
    requires
        0 <= from <= s.len(),
    ensures
        from <= line_end_at(s, from) <= s.len(),
    decreases s.len() - from,
{
    if from < s.len() && s[from] != '\n' {
        lemma_line_end_at_bounds(s, from + 1);
    }
}

#[via_fn]
proof fn parse_next_decreases(
    s: Seq<char>,
    p: int,
    have_ident: bool,
    ident: Seq<char>,
    acc: Seq<char>,
) {
    if 0 <= p < s.len() {
        lemma_line_end_at_bounds(s, p);
    }
}

proof fn lemma_line_end_at(s: Seq<char>, from: int, e: int)
    requires
        0 <= from <= e <= s.len(),
        forall|j: int| from <= j < e ==> s[j] != '\n',
        e == s.len() || s[e] == '\n',
    ensures
        line_end_at(s, from) == e,
    decreases e - from,
{
    if from < e {
        lemma_line_end_at(s, from + 1, e);
    }
}

proof fn lemma_skip_marks_at(s: Seq<char>, from: int, to: int, a: int)
    requires
        0 <= from <= a <= to <= s.len(),
        forall|j: int| from <= j < a ==> s[j] == '>',
        a == to || s[a] != '>',
    ensures
        skip_marks(s, from, to) == a,
    decreases a - from,
{
    if from < a {
        lemma_skip_marks_at(s, from + 1, to, a);
    }
}

proof fn lemma_skip_blanks_at(s: Seq<char>, from: int, to: int, a: int)
    requires
        0 <= from <= a <= to <= s.len(),
        forall|j: int| from <= j < a ==> is_line_space(s[j]),
        a == to || !is_line_space(s[a]),
    ensures
        skip_blanks(s, from, to) == a,
    decreases a - from,
{
    if from < a {
        lemma_skip_blanks_at(s, from + 1, to, a);
    }
}

proof fn lemma_drop_blanks_at(s: Seq<char>, from: int, to: int, b: int)
    requires
        0 <= from <= b <= to <= s.len(),
        forall|j: int| b <= j < to ==> is_line_space(s[j]),
        b == from || !is_line_space(s[b - 1]),
    ensures
        drop_blanks(s, from, to) == b,
    decreases to - b,
{
    if b < to {
        lemma_drop_blanks_at(s, from, to - 1, b);
    }
}

/// Loads records one at a time from a source held in memory.  The source is
/// drained from the reader once, up front; parsing itself is line-based:
/// a line opening with `>` carries the next record's identifier, every other
/// line a chunk of its sequence.
pub struct SeqLoader {
    pub content: String,
    pub position: usize,
}

impl SeqLoader {
    /// The read position stays inside the source.
    pub open spec fn wf(self) -> bool {
        self.position <= self.content@.len()
    }

    /// Builds a loader over a source already in memory.
    pub fn from_content(content: String) -> (loader: SeqLoader)
        ensures
            loader.wf(),
            loader.content@ == content@,
            loader.position == 0,
    {
        SeqLoader { content, position: 0 }
    }

    /// Builds a loader by draining the given reader.
    pub fn new<T: std::io::BufRead>(file: T) -> (loader: SeqLoader)
        ensures
            loader.wf(),
            loader.position == 0,
    {
        SeqLoader::from_content(read_source(file))
    }

    /// Parses the next record, as `parse_next` describes: an identifier
    /// line opening with `>` (leading `>` marks and surrounding blanks
    /// dropped), followed by sequence lines up to the next identifier line
    /// or the end, concatenated with their surrounding blanks dropped and
    /// raised to uppercase.  Nothing is returned where no identifier line
    /// with text, or no sequence text for it, is left.
    pub fn next(&mut self) -> (res: Option<SeqRecord>)
        requires
            old(self).wf(),
        ensures
            final(self).wf(),
            final(self).content == old(self).content,
            old(self).position <= final(self).position,
            final(self).position as int == parse_next(
                old(self).content@,
                old(self).position as int,
                false,
                Seq::empty(),
                Seq::empty(),
            ).1,
            res is Some <==> parse_next(
                old(self).content@,
                old(self).position as int,
                false,
                Seq::empty(),
                Seq::empty(),
            ).0 is Some,
            res matches Some(rec) ==> parse_next(
                old(self).content@,
                old(self).position as int,
                false,
                Seq::empty(),
                Seq::empty(),
            ).0 matches Some(pair) && rec.identifier@ == pair.0 && rec.sequence@ == pair.1
                && rec.length == pair.1.len() && rec.identifier@.len() > 0 && rec.sequence@.len()
                > 0,
    {
        let len = self.content.as_str().unicode_len();
        let ghost c = self.content@;
        let ghost content0 = self.content;
        let ghost pos0 = self.position;
        let ghost goal = parse_next(c, pos0 as int, false, Seq::empty(), Seq::empty());
        let mut identifier: String = String::new();
        let mut sequence: String = String::new();
        let mut have_identifier = false;
        let mut have_sequence = false;

        while self.position < len
            invariant
                self.content == content0,
                c == content0@,
                goal == parse_next(c, pos0 as int, false, Seq::empty(), Seq::empty()),
                len == c.len(),
                pos0 <= self.position <= len,
                have_sequence <==> sequence@.len() > 0,
                have_identifier ==> identifier@.len() > 0,
                goal == parse_next(
                    c,
                    self.position as int,
                    have_identifier,
                    identifier@,
                    sequence@,
                ),
            ensures
                self.content == content0,
                pos0 <= self.position <= len,
                have_sequence <==> sequence@.len() > 0,
                have_identifier ==> identifier@.len() > 0,
                goal == (
                    parsed_record(have_identifier, identifier@, sequence@),
                    self.position as int,
                ),
            decreases len - self.position,
        {
            // Find the end of the current line.
            let line_start = self.position;
            let mut line_end = line_start;
            while line_end < len && self.content.as_str().get_char(line_end) != '\n'
                invariant
                    self.content == content0,
                    c == content0@,
                    len == c.len(),
                    line_start <= line_end <= len,
                    forall|j: int| line_start <= j < line_end ==> c[j] != '\n',
                decreases len - line_end,
            {
                line_end += 1;
            }
            let ghost p = line_start as int;
            let ghost e = line_end as int;
            proof {
                lemma_line_end_at(c, p, e);
            }

            if line_end < line_start + 1 || self.content.as_str().get_char(line_start) != '>' {
                // A sequence line: keep its text without surrounding blanks.
                self.position = if line_end < len {
                    line_end + 1
                } else {
                    line_end
                };
                let mut a = line_start;
                while a < line_end && line_space(self.content.as_str().get_char(a))
                    invariant
                        self.content == content0,
                        c == content0@,
                        len == c.len(),
                        line_start <= a <= line_end <= len,
                        forall|j: int| line_start <= j < a ==> is_line_space(c[j]),
                    decreases line_end - a,
                {
                    a += 1;
                }
                let mut b = line_end;
                while b > a && line_space(self.content.as_str().get_char(b - 1))
                    invariant
                        self.content == content0,
                        c == content0@,
                        len == c.len(),
                        a <= b <= line_end <= len,
                        forall|j: int| b <= j < line_end ==> is_line_space(c[j]),
                    decreases b - a,
                {
                    b -= 1;
                }
                proof {
                    lemma_skip_blanks_at(c, p, e, a as int);
                    lemma_drop_blanks_at(c, a as int, e, b as int);
                }
                if a < b {
                    let chunk = upper_substring(self.content.as_str(), a, b);
                    proof {
                        assert(chunk@ =~= upper_range(c, a as int, b as int));
                    }
                    sequence.append(chunk.as_str());
                    have_sequence = true;
                }
            } else {
                // An identifier line.
                if have_identifier {
                    // The next record begins here: leave the line unread.
                    break ;
                }
                self.position = if line_end < len {
                    line_end + 1
                } else {
                    line_end
                };
                let mut a = line_start;
                while a < line_end && self.content.as_str().get_char(a) == '>'
                    invariant
                        self.content == content0,
                        c == content0@,
                        len == c.len(),
                        line_start <= a <= line_end <= len,
                        forall|j: int| line_start <= j < a ==> c[j] == '>',
                    decreases line_end - a,
                {
                    a += 1;
                }
                let ghost a0 = a as int;
                while a < line_end && line_space(self.content.as_str().get_char(a))
                    invariant
                        self.content == content0,
                        c == content0@,
                        len == c.len(),
                        a0 <= a <= line_end <= len,
                        forall|j: int| a0 <= j < a ==> is_line_space(c[j]),
                    decreases line_end - a,
                {
                    a += 1;
                }
                let mut b = line_end;
                while b > a && line_space(self.content.as_str().get_char(b - 1))
                    invariant
                        self.content == content0,
                        c == content0@,
                        len == c.len(),
                        a <= b <= line_end <= len,
                        forall|j: int| b <= j < line_end ==> is_line_space(c[j]),
                    decreases b - a,
                {
                    b -= 1;
                }
                proof {
                    lemma_skip_marks_at(c, p, e, a0);
                    lemma_skip_blanks_at(c, a0, e, a as int);
                    lemma_drop_blanks_at(c, a as int, e, b as int);
                }
                if a < b {
                    identifier = self.content.as_str().substring_char(a, b).to_owned();
                    have_identifier = true;
                }
            }
        }

        if have_identifier && have_sequence {
            let length = sequence.as_str().unicode_len();
            Some(
                SeqRecord {
                    identifier,
                    length,
                    sequence: to_char_vec(sequence.as_str()),
                },
            )
        } else {
            None
        }
    }
}

/// The characters of a slice of `s`, raised to uppercase.
fn upper_substring(s: &str, from: usize, to: usize) -> (r: String)
    requires
        from <= to <= s@.len(),
    ensures
        r@.len() == to - from,
        forall|i: int| 0 <= i < r@.len() ==> #[trigger] r@[i] == ascii_upper(s@[from + i]),
        forall|i: int| 0 <= i < r@.len() ==> #[trigger] r@[i] == ascii_upper(r@[i]),
    decreases to - from,
{
    let mut r = String::new();
    let mut i = from;
    while i < to
        invariant
            from <= i <= to <= s@.len(),
            r@.len() == i - from,
            forall|j: int| 0 <= j < r@.len() ==> #[trigger] r@[j] == ascii_upper(s@[from + j]),
            forall|j: int| 0 <= j < r@.len() ==> #[trigger] r@[j] == ascii_upper(r@[j]),
        decreases to - i,
    {
        let c = upper_char(s.get_char(i));
        push_char(&mut r, c);
        i += 1;
    }
    r
}

/// The characters of a sequence, in order.
fn to_char_vec(s: &str) -> (v: Vec<char>)
    ensures
        v@ == s@,
{
    let len = s.unicode_len();
    let mut v: Vec<char> = Vec::new();
    let mut i: usize = 0;
    while i < len
        invariant
            i <= len,
            len == s@.len(),
            v@.len() == i,
            forall|j: int| 0 <= j < i ==> v@[j] == s@[j],
        decreases len - i,
    {
        v.push(s.get_char(i));
        i += 1;
    }
    proof {
        assert(v@ =~= s@);
    }
    v
}

/// Relies on `String::push`: appends exactly the one character.
#[verifier::external_body]
pub fn push_char(s: &mut String, c: char)
    ensures
        final(s)@ == old(s)@.push(c),
{
    s.push(c)
}

/// Relies on `std::io::Read::read_to_string`: drains the reader into a
/// string.  What comes back depends on the outside source, so nothing is
/// assumed about the contents.
#[verifier::external_body]
fn read_source<T: std::io::BufRead>(mut file: T) -> (content: String) {
    let mut content = String::new();
    let _ = file.read_to_string(&mut content);
    content
}

} // verus!
