//! Parser for Debian control-file documents (deb822).
//!
//! Lines whose first non-whitespace character is `#` are dropped before
//! anything else. A stanza is a run of fields ended by the end of input or
//! by one or more blank lines. A field is a header line `name: value`
//! followed by the indented continuation lines under it.

pub mod copyright;

use vstd::prelude::*;
use crate::text::{chars_of, find_char, find_from, string_of};

verus! {

/// Horizontal whitespace: the only characters that indent a line.
pub open spec fn is_hws(c: char) -> bool {
    c == ' ' || c == '\t'
}

/// Characters with the Unicode `White_Space` property.
pub open spec fn is_ws(c: char) -> bool {
    let u = c as u32;
    (0x09 <= u && u <= 0x0D) || u == 0x20 || u == 0x85 || u == 0xA0 || u == 0x1680 || (0x2000 <= u
        && u <= 0x200A) || u == 0x2028 || u == 0x2029 || u == 0x202F || u == 0x205F || u == 0x3000
}

pub open spec fn is_blank(l: Seq<char>) -> bool {
    forall|k: int| 0 <= k < l.len() ==> is_ws(#[trigger] l[k])
}

/// The first character that is not whitespace is `#`.
pub open spec fn is_comment(l: Seq<char>) -> bool {
    exists|k: int|
        0 <= k < l.len() && #[trigger] l[k] == '#' && forall|j: int| 0 <= j < k ==> is_ws(#[trigger] l[j])
}

pub open spec fn starts_hws(l: Seq<char>) -> bool {
    l.len() > 0 && is_hws(l[0])
}

/// Lines completed, and the line being read, after the first `n`
/// characters of `s`.
pub open spec fn split_upto(s: Seq<char>, n: nat) -> (Seq<Seq<char>>, Seq<char>)
    decreases n,
{
    if n == 0 {
        (seq![], seq![])
    } else {
        let (done, cur) = split_upto(s, (n - 1) as nat);
        if s[n - 1] == '\n' {
            (done.push(cur), seq![])
        } else {
            (done, cur.push(s[n - 1]))
        }
    }
}

/// `s` split at each `\n`.
pub open spec fn split_lines(s: Seq<char>) -> Seq<Seq<char>> {
    let (done, cur) = split_upto(s, s.len());
    done.push(cur)
}

/// A line that survived comment removal, with its 1-based row in the text.
pub struct LineV {
    pub text: Seq<char>,
    pub row: int,
}

/// The lines of `ls` that are not comments, each with its row.
pub open spec fn retained(ls: Seq<Seq<char>>) -> Seq<LineV>
    decreases ls.len(),
{
    if ls.len() == 0 {
        seq![]
    } else {
        let r = retained(ls.drop_last());
        if is_comment(ls.last()) {
            r
        } else {
            r.push(LineV { text: ls.last(), row: ls.len() as int })
        }
    }
}

/// First index at or after `i` that is not horizontal whitespace.
pub open spec fn hws_run(l: Seq<char>, i: int) -> int
    decreases l.len() - i,
{
    if 0 <= i < l.len() && is_hws(l[i]) {
        hws_run(l, i + 1)
    } else {
        i
    }
}

/// Smallest `k` in `lo..=j` with `l[k..j]` all horizontal whitespace.
pub open spec fn hws_back(l: Seq<char>, j: int, lo: int) -> int
    decreases j - lo,
{
    if j > lo && is_hws(l[j - 1]) {
        hws_back(l, j - 1, lo)
    } else {
        j
    }
}

pub open spec fn trim_start_hws(l: Seq<char>) -> Seq<char> {
    l.subrange(hws_run(l, 0), l.len() as int)
}

pub open spec fn trim_hws(l: Seq<char>) -> Seq<char> {
    let a = hws_run(l, 0);
    l.subrange(a, hws_back(l, l.len() as int, a))
}

/// A field as contracts see it.
pub struct FieldV {
    pub same_line: Option<Seq<char>>,
    pub list: Seq<Seq<char>>,
}

pub type StanzaV = Seq<(Seq<char>, FieldV)>;

pub enum ParseErrorKindV {
    OutOfLines,
    HeaderStartsWithWhitespace,
    MissingColon,
    DuplicateField { name: Seq<char>, previous: FieldV },
}

pub struct ParseErrorV {
    pub row: int,
    pub col: int,
    pub kind: ParseErrorKindV,
}

pub open spec fn error_at(line: LineV, kind: ParseErrorKindV) -> ParseErrorV {
    ParseErrorV { row: line.row, col: 0, kind }
}

/// Number of lines from `i` on that start with horizontal whitespace.
pub open spec fn cont_count(ls: Seq<LineV>, i: int) -> nat
    decreases ls.len() - i,
{
    if 0 <= i < ls.len() && starts_hws(ls[i].text) {
        1 + cont_count(ls, i + 1)
    } else {
        0
    }
}

/// The continuation lines counted from `i` stay within the document.
pub proof fn lemma_cont_count_bound(ls: Seq<LineV>, i: int)
    requires
        0 <= i <= ls.len(),
    ensures
        i + cont_count(ls, i) <= ls.len(),
    decreases ls.len() - i,
{
    if i < ls.len() {
        lemma_cont_count_bound(ls, i + 1);
    }
}

/// The blank lines counted from `i` stay within the document.
pub proof fn lemma_blank_count_bound(ls: Seq<LineV>, i: int)
    requires
        0 <= i <= ls.len(),
    ensures
        i + blank_count(ls, i) <= ls.len(),
    decreases ls.len() - i,
{
    if i < ls.len() {
        lemma_blank_count_bound(ls, i + 1);
    }
}

/// Number of blank lines from `i` on.
pub open spec fn blank_count(ls: Seq<LineV>, i: int) -> nat
    decreases ls.len() - i,
{
    if 0 <= i < ls.len() && is_blank(ls[i].text) {
        1 + blank_count(ls, i + 1)
    } else {
        0
    }
}

/// Splits a line at its first `:` into the text before it and the text
/// after it with leading horizontal whitespace removed (`None` if that is
/// empty). `None` if the line holds no `:`.
pub open spec fn header_split(l: Seq<char>) -> Option<(Seq<char>, Option<Seq<char>>)> {
    let c = find_from(l, ':', 0);
    if c < 0 {
        None
    } else {
        let v = trim_start_hws(l.subrange(c + 1, l.len() as int));
        Some((l.subrange(0, c), if v.len() == 0 { None } else { Some(v) }))
    }
}

/// Name and same-line value of a header line.
pub open spec fn header_spec(line: LineV) -> Result<(Seq<char>, Option<Seq<char>>), ParseErrorV> {
    if starts_hws(line.text) {
        Err(error_at(line, ParseErrorKindV::HeaderStartsWithWhitespace))
    } else {
        match header_split(line.text) {
            Some(p) => Ok(p),
            None => Err(error_at(line, ParseErrorKindV::MissingColon)),
        }
    }
}

/// The values of the `n` continuation lines from `i` on.
pub open spec fn cont_values(ls: Seq<LineV>, i: int, n: nat) -> Seq<Seq<char>> {
    Seq::new(n, |t: int| trim_hws(ls[i + t].text))
}

/// The field whose header is line `i`; an error if no line is left,
/// reported at row 0.
pub open spec fn field_spec(ls: Seq<LineV>, i: int) -> Result<(Seq<char>, FieldV), ParseErrorV> {
    if i < 0 || i >= ls.len() {
        Err(ParseErrorV { row: 0, col: 0, kind: ParseErrorKindV::OutOfLines })
    } else {
        match header_spec(ls[i]) {
        Ok((name, same)) => Ok(
                (name, FieldV { same_line: same, list: cont_values(ls, i + 1, cont_count(ls, i + 1)) }),
            ),
            Err(e) => Err(e),
        }
    }
}

/// Index of the field called `name` in `fields[j..]`, or -1.
pub open spec fn find_name(fields: StanzaV, name: Seq<char>, j: int) -> int
    decreases fields.len() - j,
{
    if j < 0 || j >= fields.len() {
        -1
    } else if fields[j].0 == name {
        j
    } else {
        find_name(fields, name, j + 1)
    }
}

pub open spec fn prepend<E>(st: StanzaV, r: Result<Seq<StanzaV>, E>) -> Result<Seq<StanzaV>, E> {
    match r {
        Ok(rest) => Ok(seq![st] + rest),
        Err(e) => Err(e),
    }
}

/// Reads the rest of a stanza from line `i` on, where `cur` holds the
/// fields read so far: fields up to the end of input or a run of blank
/// lines, which is skipped. Gives the line after it and the fields.
pub open spec fn stanza_from(ls: Seq<LineV>, i: int, cur: StanzaV) -> Result<
    (int, StanzaV),
    ParseErrorV,
>
    decreases ls.len() - i,
{
    if i < 0 || i >= ls.len() {
        Ok((i, cur))
    } else {
        match field_spec(ls, i) {
            Err(e) => Err(e),
            Ok((name, f)) => {
                let j = find_name(cur, name, 0);
                if 0 <= j < cur.len() {
                    Err(
                        error_at(
                            ls[i],
                            ParseErrorKindV::DuplicateField { name, previous: cur[j].1 },
                        ),
                    )
                } else {
                    let cur2 = cur.push((name, f));
                    let next = i + 1 + cont_count(ls, i + 1);
                    proof {
                        lemma_cont_count_bound(ls, i + 1);
                    }
                    if next < ls.len() && is_blank(ls[next].text) {
                        Ok((next + blank_count(ls, next), cur2))
                    } else {
                        stanza_from(ls, next, cur2)
                    }
                }
            },
        }
    }
}

/// The stanza that starts at line `i`, and the line after it.
pub open spec fn read_stanza(ls: Seq<LineV>, i: int) -> Result<(int, StanzaV), ParseErrorV> {
    stanza_from(ls, i, seq![])
}

/// A stanza read from a line inside the document ends after that line.
pub proof fn lemma_stanza_from_advances(ls: Seq<LineV>, i: int, cur: StanzaV)
    requires
        0 <= i < ls.len(),
    ensures
        stanza_from(ls, i, cur) matches Ok((n, _)) ==> i < n <= ls.len(),
    decreases ls.len() - i,
{
    if field_spec(ls, i) is Ok {
        let (name, f) = field_spec(ls, i)->Ok_0;
        let next = i + 1 + cont_count(ls, i + 1);
        lemma_cont_count_bound(ls, i + 1);
        if next < ls.len() && is_blank(ls[next].text) {
            lemma_blank_count_bound(ls, next);
        } else if next < ls.len() {
            lemma_stanza_from_advances(ls, next, cur.push((name, f)));
        }
    }
}

/// The stanzas read from line `i` on.
pub open spec fn parse_from(ls: Seq<LineV>, i: int) -> Result<Seq<StanzaV>, ParseErrorV>
    decreases ls.len() - i,
{
    if i < 0 || i >= ls.len() {
        Ok(seq![])
    } else {
        match read_stanza(ls, i) {
            Err(e) => Err(e),
            Ok((n, st)) => {
                proof {
                    lemma_stanza_from_advances(ls, i, seq![]);
                }
                prepend(st, parse_from(ls, n))
            },
        }
    }
}

/// No two fields of the stanza share a name.
pub open spec fn names_unique(st: StanzaV) -> bool {
    forall|a: int, b: int| 0 <= a < b < st.len() ==> #[trigger] st[a].0 != #[trigger] st[b].0
}

proof fn lemma_find_name_absent(fields: StanzaV, name: Seq<char>, j: int)
    requires
        0 <= j,
        find_name(fields, name, j) == -1,
    ensures
        forall|t: int| j <= t < fields.len() ==> #[trigger] fields[t].0 != name,
    decreases fields.len() - j,
{
    if j < fields.len() {
        lemma_find_name_absent(fields, name, j + 1);
    }
}

proof fn lemma_find_name_range(fields: StanzaV, name: Seq<char>, j: int)
    requires
        0 <= j,
    ensures
        find_name(fields, name, j) == -1 || j <= find_name(fields, name, j) < fields.len(),
    decreases fields.len() - j,
{
    if j < fields.len() {
        lemma_find_name_range(fields, name, j + 1);
    }
}

proof fn lemma_stanza_from_unique(ls: Seq<LineV>, i: int, cur: StanzaV)
    requires
        names_unique(cur),
        stanza_from(ls, i, cur) is Ok,
    ensures
        names_unique(stanza_from(ls, i, cur)->Ok_0.1),
    decreases ls.len() - i,
{
    if 0 <= i < ls.len() {
        let (name, f) = field_spec(ls, i)->Ok_0;
        lemma_find_name_range(cur, name, 0);
        lemma_find_name_absent(cur, name, 0);
        let cur2 = cur.push((name, f));
        assert(names_unique(cur2)) by {
            assert forall|a: int, b: int| 0 <= a < b < cur2.len() implies #[trigger] cur2[a].0
                != #[trigger] cur2[b].0 by {
                assert(cur2[a] == cur[a]);
                if b < cur.len() {
                    assert(cur2[b] == cur[b]);
                }
            }
        }
        let next = i + 1 + cont_count(ls, i + 1);
        lemma_cont_count_bound(ls, i + 1);
        if !(next < ls.len() && is_blank(ls[next].text)) {
            lemma_stanza_from_unique(ls, next, cur2);
        }
    }
}

proof fn lemma_parse_from_unique(ls: Seq<LineV>, i: int)
    requires
        parse_from(ls, i) is Ok,
    ensures
        forall|k: int|
            0 <= k < parse_from(ls, i)->Ok_0.len() ==> names_unique(
                #[trigger] parse_from(ls, i)->Ok_0[k],
            ),
    decreases ls.len() - i,
{
    if 0 <= i < ls.len() {
        let (n, st) = read_stanza(ls, i)->Ok_0;
        lemma_stanza_from_advances(ls, i, seq![]);
        assert(names_unique(seq![])) by {}
        lemma_stanza_from_unique(ls, i, seq![]);
        lemma_parse_from_unique(ls, n);
        let rest = parse_from(ls, n)->Ok_0;
        assert forall|k: int| 0 <= k < (seq![st] + rest).len() implies names_unique(
            #[trigger] (seq![st] + rest)[k],
        ) by {
            if k > 0 {
                assert((seq![st] + rest)[k] == rest[k - 1]);
            }
        }
    }
}

/// Within each stanza of a parsed document, field names are unique.
pub proof fn lemma_parsed_names_unique(s: Seq<char>)
    requires
        parse_spec(s) is Ok,
    ensures
        forall|k: int|
            0 <= k < parse_spec(s)->Ok_0.len() ==> names_unique(#[trigger] parse_spec(s)->Ok_0[k]),
{
    lemma_parse_from_unique(retained(split_lines(s)), 0);
}

pub open spec fn prepend_all<E>(done: Seq<StanzaV>, r: Result<Seq<StanzaV>, E>) -> Result<
    Seq<StanzaV>,
    E,
> {
    match r {
        Ok(rest) => Ok(done + rest),
        Err(e) => Err(e),
    }
}

/// The document that the text `s` parses to.
pub open spec fn parse_spec(s: Seq<char>) -> Result<Seq<StanzaV>, ParseErrorV> {
    parse_from(retained(split_lines(s)), 0)
}


pub open spec fn strings_view(v: Seq<String>) -> Seq<Seq<char>> {
    v.map_values(|s: String| s@)
}

pub open spec fn opt_view(o: Option<String>) -> Option<Seq<char>> {
    match o {
        Some(s) => Some(s@),
        None => None,
    }
}

/// All value lines of a field: the same-line value, if any, then the
/// continuation values.
pub open spec fn field_lines(f: FieldV) -> Seq<Seq<char>> {
    match f.same_line {
        Some(v) => seq![v] + f.list,
        None => f.list,
    }
}

/// The value belonging to one field name.
#[derive(Debug, Clone)]
pub struct Field {
    /// Text after `name:` on the header line, if not empty.
    pub same_line_value: Option<String>,
    /// The indented lines under the header, stripped.
    pub list_values: Vec<String>,
}

impl View for Field {
    type V = FieldV;

    open spec fn view(&self) -> FieldV {
        FieldV { same_line: opt_view(self.same_line_value), list: strings_view(self.list_values@) }
    }
}

impl Field {
    /// The same-line value, if any, followed by the continuation values.
    pub fn iter_lines(&self) -> (r: Vec<String>)
        ensures
            strings_view(r@) == field_lines(self@),
    {
        let mut r: Vec<String> = Vec::new();
        match &self.same_line_value {
            Some(v) => {
                r.push(v.clone());
            },
            None => {},
        }
        let ghost start = strings_view(r@);
        let mut j: usize = 0;
        while j < self.list_values.len()
            invariant
                j <= self.list_values@.len(),
                strings_view(r@) == start + strings_view(self.list_values@).subrange(0, j as int),
            decreases self.list_values@.len() - j,
        {
            let ghost before = r@;
            r.push(self.list_values[j].clone());
            assert(strings_view(r@) =~= strings_view(before).push(self.list_values@[j as int]@));
            assert(strings_view(self.list_values@).subrange(0, j + 1) =~= strings_view(
                self.list_values@,
            ).subrange(0, j as int).push(self.list_values@[j as int]@));
            j += 1;
        }
        assert(strings_view(self.list_values@).subrange(0, j as int) =~= strings_view(
            self.list_values@,
        ));
        assert(strings_view(r@) =~= field_lines(self@));
        r
    }
}

/// A blank-line delimited group of fields; names are unique within it and
/// kept in the order of the text.
#[derive(Debug, Clone)]
pub struct Stanza {
    pub fields: Vec<(String, Field)>,
}

pub open spec fn stanza_view(v: Seq<(String, Field)>) -> StanzaV {
    v.map_values(|p: (String, Field)| (p.0@, p.1@))
}

impl View for Stanza {
    type V = StanzaV;

    open spec fn view(&self) -> StanzaV {
        stanza_view(self.fields@)
    }
}

/// A parsed document: its stanzas in source order.
#[derive(Debug, Clone)]
pub struct Deb822File {
    pub stanzas: Vec<Stanza>,
}

pub open spec fn doc_view(v: Seq<Stanza>) -> Seq<StanzaV> {
    v.map_values(|s: Stanza| s@)
}

impl View for Deb822File {
    type V = Seq<StanzaV>;

    open spec fn view(&self) -> Seq<StanzaV> {
        doc_view(self.stanzas@)
    }
}

/// What went wrong in a document.
#[derive(Debug, Clone)]
pub enum ParseErrorKind {
    /// A field was asked for past the last line.
    OutOfLines,
    /// A line where a field header was expected starts with a space or tab.
    HeaderStartsWithWhitespace,
    /// A header line holds no `:`.
    MissingColon,
    /// A stanza holds `name` twice; `previous` is the value seen first.
    DuplicateField { name: String, previous: Field },
}

/// A parse failure, at the 1-based row and 0-based column of the line
/// where it was found.
#[derive(Debug, Clone)]
pub struct ParseError {
    pub row: usize,
    pub col: usize,
    pub kind: ParseErrorKind,
}

impl View for ParseError {
    type V = ParseErrorV;

    open spec fn view(&self) -> ParseErrorV {
        ParseErrorV {
            row: self.row as int,
            col: self.col as int,
            kind: match self.kind {
                ParseErrorKind::OutOfLines => ParseErrorKindV::OutOfLines,
                ParseErrorKind::HeaderStartsWithWhitespace => ParseErrorKindV::HeaderStartsWithWhitespace,
                ParseErrorKind::MissingColon => ParseErrorKindV::MissingColon,
                ParseErrorKind::DuplicateField { name, previous } => ParseErrorKindV::DuplicateField {
                    name: name@,
                    previous: previous@,
                },
            },
        }
    }
}

/// A line of the text that is not a comment, with its 1-based row.
struct SourceLine {
    text: Vec<char>,
    row: usize,
}

impl View for SourceLine {
    type V = LineV;

    closed spec fn view(&self) -> LineV {
        LineV { text: self.text@, row: self.row as int }
    }
}

spec fn lines_view(v: Seq<SourceLine>) -> Seq<LineV> {
    v.map_values(|l: SourceLine| l@)
}

fn is_whitespace_char(c: char) -> (r: bool)
    ensures
        r == is_ws(c),
{
    let u = c as u32;
    (0x09 <= u && u <= 0x0D) || u == 0x20 || u == 0x85 || u == 0xA0 || u == 0x1680 || (0x2000 <= u
        && u <= 0x200A) || u == 0x2028 || u == 0x2029 || u == 0x202F || u == 0x205F || u == 0x3000
}

fn is_blank_line(l: &Vec<char>) -> (r: bool)
    ensures
        r == is_blank(l@),
{
    let mut k: usize = 0;
    while k < l.len()
        invariant
            k <= l@.len(),
            forall|t: int| 0 <= t < k ==> is_ws(#[trigger] l@[t]),
        decreases l@.len() - k,
    {
        if !is_whitespace_char(l[k]) {
            return false;
        }
        k += 1;
    }
    true
}

fn is_comment_line(l: &Vec<char>) -> (r: bool)
    ensures
        r == is_comment(l@),
{
    let mut k: usize = 0;
    while k < l.len()
        invariant
            k <= l@.len(),
            forall|t: int| 0 <= t < k ==> is_ws(#[trigger] l@[t]),
        decreases l@.len() - k,
    {
        if l[k] == '#' {
            return true;
        }
        if !is_whitespace_char(l[k]) {
            assert forall|t: int| 0 <= t < l@.len() && #[trigger] l@[t] == '#' implies !(forall|
                j: int,
            | 0 <= j < t ==> is_ws(#[trigger] l@[j])) by {
                if t < k {
                    assert(is_ws(l@[t]));
                } else {
                    assert(t != k);
                    assert(!is_ws(l@[k as int]));
                }
            }
            return false;
        }
        k += 1;
    }
    assert forall|t: int| 0 <= t < l@.len() implies #[trigger] l@[t] != '#' by {
        assert(is_ws(l@[t]));
    }
    false
}

/// Splits `text` at each `\n` and drops the comment lines.
fn split_source(text: &str) -> (r: Vec<SourceLine>)
    requires
        text@.len() < usize::MAX,
    ensures
        lines_view(r@) == retained(split_lines(text@)),
{
    let cs = chars_of(text);
    let mut out: Vec<SourceLine> = Vec::new();
    let mut cur: Vec<char> = Vec::new();
    let mut row: usize = 1;
    let ghost mut done: Seq<Seq<char>> = seq![];
    let mut i: usize = 0;
    assert(lines_view(out@) =~= seq![]);
    assert(cur@ =~= seq![]);
    while i < cs.len()
        invariant
            cs@ == text@,
            i <= cs@.len(),
            cs@.len() < usize::MAX,
            split_upto(text@, i as nat) == (done, cur@),
            row == done.len() + 1,
            done.len() <= i,
            lines_view(out@) == retained(done),
        decreases cs@.len() - i,
    {
        let c = cs[i];
        if c == '\n' {
            let ghost line = cur@;
            assert(done.push(line).drop_last() =~= done);
            if !is_comment_line(&cur) {
                let ghost before = out@;
                out.push(SourceLine { text: cur, row });
                assert(lines_view(out@) =~= lines_view(before).push(
                    LineV { text: line, row: row as int },
                ));
            }
            proof {
                done = done.push(line);
            }
            cur = Vec::new();
            assert(cur@ =~= seq![]);
            row += 1;
        } else {
            cur.push(c);
        }
        i += 1;
    }
    let ghost line = cur@;
    assert(done.push(line).drop_last() =~= done);
    if !is_comment_line(&cur) {
        let ghost before = out@;
        out.push(SourceLine { text: cur, row });
        assert(lines_view(out@) =~= lines_view(before).push(LineV { text: line, row: row as int }));
    }
    out
}

fn hws_run_exec(l: &Vec<char>, i: usize) -> (r: usize)
    requires
        i <= l@.len(),
    ensures
        r == hws_run(l@, i as int),
        i <= r <= l@.len(),
{
    let mut k = i;
    while k < l.len() && (l[k] == ' ' || l[k] == '\t')
        invariant
            i <= k <= l@.len(),
            hws_run(l@, i as int) == hws_run(l@, k as int),
        decreases l@.len() - k,
    {
        k += 1;
    }
    k
}

fn hws_back_exec(l: &Vec<char>, j: usize, lo: usize) -> (r: usize)
    requires
        lo <= j <= l@.len(),
    ensures
        r == hws_back(l@, j as int, lo as int),
        lo <= r <= j,
{
    let mut k = j;
    while k > lo && (l[k - 1] == ' ' || l[k - 1] == '\t')
        invariant
            lo <= k <= j,
            j <= l@.len(),
            hws_back(l@, j as int, lo as int) == hws_back(l@, k as int, lo as int),
        decreases k,
    {
        k -= 1;
    }
    k
}

fn starts_with_hws(l: &Vec<char>) -> (r: bool)
    ensures
        r == starts_hws(l@),
{
    l.len() > 0 && (l[0] == ' ' || l[0] == '\t')
}

/// Reads the header line of a field: its name and its same-line value.
fn parse_field_oneliner(line: &SourceLine) -> (r: Result<(String, Option<String>), ParseError>)
    ensures
        match r {
            Ok((name, value)) => header_split(line.text@) == Some((name@, opt_view(value))),
            Err(e) => header_split(line.text@) is None && e@ == error_at(
                line@,
                ParseErrorKindV::MissingColon,
            ),
        },
{
    let l = &line.text;
    let n = l.len();
    match find_char(l, ':', 0) {
        None => Err(ParseError { row: line.row, col: 0, kind: ParseErrorKind::MissingColon }),
        Some(c) => {
            let name = string_of(l, 0, c);
            let a = hws_run_exec(l, c + 1);
            let ghost rest = l@.subrange(c + 1, l@.len() as int);
            proof {
                lemma_hws_run_shift(l@, c + 1, 0);
            }
            assert(l@.subrange(a as int, l@.len() as int) =~= trim_start_hws(rest));
            let value = if a == n {
                None
            } else {
                Some(string_of(l, a, n))
            };
            Ok((name, value))
        },
    }
}

/// `hws_run` on a suffix is `hws_run` on the whole, shifted.
proof fn lemma_hws_run_shift(l: Seq<char>, off: int, i: int)
    requires
        0 <= off <= l.len(),
        0 <= i <= l.len() - off,
    ensures
        hws_run(l.subrange(off, l.len() as int), i) + off == hws_run(l, i + off),
    decreases l.len() - off - i,
{
    if i < l.len() - off {
        lemma_hws_run_shift(l, off, i + 1);
    }
}

/// Reads one continuation line, if `line` is one.
fn parse_multiline_field_line(line: &SourceLine) -> (r: Option<String>)
    ensures
        r is Some <==> starts_hws(line.text@),
        r matches Some(v) ==> v@ == trim_hws(line.text@),
{
    let l = &line.text;
    if !starts_with_hws(l) {
        return None;
    }
    let a = hws_run_exec(l, 0);
    let b = hws_back_exec(l, l.len(), a);
    Some(string_of(l, a, b))
}

/// Reads the continuation lines from `i` on.
fn eat_multiline_field_lines(lines: &Vec<SourceLine>, i: usize) -> (r: (usize, Vec<String>))
    requires
        i <= lines@.len(),
    ensures
        r.0 == i + cont_count(lines_view(lines@), i as int),
        strings_view(r.1@) == cont_values(
            lines_view(lines@),
            i as int,
            cont_count(lines_view(lines@), i as int),
        ),
{
    let ghost ls = lines_view(lines@);
    let mut j = i;
    let mut out: Vec<String> = Vec::new();
    assert(strings_view(out@) =~= cont_values(ls, i as int, 0));
    while j < lines.len()
        invariant
            ls == lines_view(lines@),
            i <= j <= lines@.len(),
            cont_count(ls, i as int) == (j - i) + cont_count(ls, j as int),
            strings_view(out@) == cont_values(ls, i as int, (j - i) as nat),
        ensures
            cont_count(ls, j as int) == 0,
            cont_count(ls, i as int) == (j - i) + cont_count(ls, j as int),
            strings_view(out@) == cont_values(ls, i as int, (j - i) as nat),
        decreases lines@.len() - j,
    {
        match parse_multiline_field_line(&lines[j]) {
            Some(v) => {
                let ghost before = out@;
                assert(ls[j as int].text == lines@[j as int].text@);
                out.push(v);
                assert(strings_view(out@) =~= strings_view(before).push(v@));
                assert forall|t: int| 0 <= t < j + 1 - i implies #[trigger] strings_view(out@)[t]
                    == cont_values(ls, i as int, (j + 1 - i) as nat)[t] by {
                    if t < j - i {
                        assert(strings_view(before)[t] == cont_values(ls, i as int, (j - i) as nat)[t]);
                    }
                }
                assert(strings_view(out@) =~= cont_values(ls, i as int, (j + 1 - i) as nat));
                j += 1;
            },
            None => {
                break ;
            },
        }
    }
    (j, out)
}

/// Reads the field whose header is line `i`.
fn eat_field(lines: &Vec<SourceLine>, i: usize) -> (r: Result<(usize, String, Field), ParseError>)
    requires
        i <= lines@.len(),
    ensures
        match r {
            Ok((next, name, f)) => field_spec(lines_view(lines@), i as int) == Ok::<_, ParseErrorV>(
                (name@, f@),
            ) && next == i + 1 + cont_count(lines_view(lines@), i + 1),
            Err(e) => field_spec(lines_view(lines@), i as int) == Err::<(Seq<char>, FieldV), _>(
                e@,
            ),
        },
{
    if i >= lines.len() {
        return Err(ParseError { row: 0, col: 0, kind: ParseErrorKind::OutOfLines });
    }
    let top = &lines[i];
    if starts_with_hws(&top.text) {
        return Err(
            ParseError { row: top.row, col: 0, kind: ParseErrorKind::HeaderStartsWithWhitespace },
        );
    }
    let (name, same_line_value) = match parse_field_oneliner(top) {
        Ok(p) => p,
        Err(e) => {
            return Err(e);
        },
    };
    let (next, list_values) = eat_multiline_field_lines(lines, i + 1);
    Ok((next, name, Field { same_line_value, list_values }))
}

/// Index of the field called `name` in `fields`.
pub(crate) fn find_field(fields: &Vec<(String, Field)>, name: &String) -> (r: Option<usize>)
    ensures
        match r {
            Some(j) => find_name(stanza_view(fields@), name@, 0) == j && j < fields@.len(),
            None => find_name(stanza_view(fields@), name@, 0) == -1,
        },
{
    let mut j: usize = 0;
    while j < fields.len()
        invariant
            j <= fields@.len(),
            find_name(stanza_view(fields@), name@, 0) == find_name(
                stanza_view(fields@),
                name@,
                j as int,
            ),
        decreases fields@.len() - j,
    {
        if fields[j].0 == *name {
            return Some(j);
        }
        j += 1;
    }
    None
}

fn skip_blank_lines(lines: &Vec<SourceLine>, i: usize) -> (r: usize)
    requires
        i <= lines@.len(),
    ensures
        r == i + blank_count(lines_view(lines@), i as int),
{
    let ghost ls = lines_view(lines@);
    let mut j = i;
    while j < lines.len() && is_blank_line(&lines[j].text)
        invariant
            ls == lines_view(lines@),
            i <= j <= lines@.len(),
            blank_count(ls, i as int) == (j - i) + blank_count(ls, j as int),
        decreases lines@.len() - j,
    {
        j += 1;
    }
    j
}

/// Reads the stanza that starts at line `start`, and the blank lines after it.
fn eat_stanza(lines: &Vec<SourceLine>, start: usize) -> (r: Result<(usize, Stanza), ParseError>)
    requires
        start < lines@.len(),
    ensures
        match r {
            Ok((next, st)) => read_stanza(lines_view(lines@), start as int) == Ok::<_, ParseErrorV>(
                (next as int, st@),
            ) && start < next <= lines@.len(),
            Err(e) => read_stanza(lines_view(lines@), start as int) == Err::<(int, StanzaV), _>(e@),
        },
{
    let ghost ls = lines_view(lines@);
    let mut out: Vec<(String, Field)> = Vec::new();
    let mut i = start;
    assert(stanza_view(out@) =~= seq![]);
    loop
        invariant
            ls == lines_view(lines@),
            start <= i <= lines@.len(),
            start < lines@.len(),
            stanza_from(ls, start as int, seq![]) == stanza_from(ls, i as int, stanza_view(out@)),
            i == start ==> out@.len() == 0,
            i > start ==> out@.len() > 0,
        decreases lines@.len() - i,
    {
        if i >= lines.len() {
            return Ok((i, Stanza { fields: out }));
        }
        let (next, name, field) = match eat_field(lines, i) {
            Ok(t) => t,
            Err(e) => {
                return Err(e);
            },
        };
        proof {
            lemma_cont_count_bound(ls, i + 1);
        }
        match find_field(&out, &name) {
            Some(j) => {
                let (_, previous) = out.remove(j);
                return Err(
                    ParseError {
                        row: lines[i].row,
                        col: 0,
                        kind: ParseErrorKind::DuplicateField { name, previous },
                    },
                );
            },
            None => {},
        }
        let ghost before = out@;
        out.push((name, field));
        assert(stanza_view(out@) =~= stanza_view(before).push((name@, field@)));
        if next < lines.len() && is_blank_line(&lines[next].text) {
            assert(ls[next as int].text == lines@[next as int].text@);
            let after = skip_blank_lines(lines, next);
            proof {
                lemma_blank_count_bound(ls, next as int);
            }
            return Ok((after, Stanza { fields: out }));
        }
        assert(next < lines@.len() ==> ls[next as int].text == lines@[next as int].text@);
        i = next;
    }
}

impl Deb822File {
    /// Parses a whole document. Any error aborts the parse.
    pub fn parse(text: &str) -> (r: Result<Deb822File, ParseError>)
        requires
            text@.len() < usize::MAX,
        ensures
            match r {
                Ok(d) => parse_spec(text@) == Ok::<_, ParseErrorV>(d@),
                Err(e) => parse_spec(text@) == Err::<Seq<StanzaV>, _>(e@),
            },
    {
        let lines = split_source(text);
        let ghost ls = lines_view(lines@);
        let mut stanzas: Vec<Stanza> = Vec::new();
        let mut i: usize = 0;
        assert(doc_view(stanzas@) + seq![] =~= doc_view(stanzas@));
        while i < lines.len()
            invariant
                ls == lines_view(lines@),
                ls == retained(split_lines(text@)),
                i <= lines@.len(),
                parse_spec(text@) == prepend_all(doc_view(stanzas@), parse_from(ls, i as int)),
            decreases lines@.len() - i,
        {
            match eat_stanza(&lines, i) {
                Ok((next, st)) => {
                    let ghost before = doc_view(stanzas@);
                    let ghost rest = parse_from(ls, next as int);
                    stanzas.push(st);
                    assert(doc_view(stanzas@) =~= before.push(st@));
                    proof {
                        if rest is Ok {
                            let tail = rest->Ok_0;
                            assert(before + (seq![st@] + tail) =~= before.push(st@) + tail);
                        }
                    }
                    i = next;
                },
                Err(e) => {
                    return Err(e);
                },
            }
        }
        assert(doc_view(stanzas@) + seq![] =~= doc_view(stanzas@));
        Ok(Deb822File { stanzas })
    }
}

} // verus!
