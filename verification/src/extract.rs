//! Fixed-column extraction of backbone-atom coordinate fields from the text
//! of a structure file: splitting it into lines, selecting the atom records
//! of a residue window, and reducing them to the fields of one terminus.

use crate::numtext::{spec_fixed4, spec_parse_i32};
use vstd::prelude::*;
use vstd::string::*;

verus! {

/// Which end of a helix a residue window describes: a head window runs
/// forward from the residue, a tail window backward onto it.
#[derive(Clone, Copy, PartialEq, Eq, Structural, Debug)]
pub enum Location {
    Head,
    Tail,
}

/// Why a structure file's text was rejected.
#[derive(Clone, Copy, PartialEq, Eq, Structural, Debug)]
pub enum ParseError {
    /// The residue argument is not a decimal integer whose whole window
    /// fits in 32 bits.
    BadResidueNumber,
    /// An atom record is too short for a field the extraction reads.
    MalformedLine,
}

impl ParseError {
    /// A short diagnostic line for the rejected text.
    pub fn message(&self) -> (m: &'static str)
        ensures
            *self == ParseError::BadResidueNumber ==> m@ == "invalid digit found in string"@,
            *self == ParseError::MalformedLine ==> m@ == "atom record too short"@,
    {
        match self {
            ParseError::BadResidueNumber => "invalid digit found in string",
            ParseError::MalformedLine => "atom record too short",
        }
    }
}

/// True when the two strings hold the same characters.
fn str_eq(a: &str, b: &str) -> (r: bool)
    ensures
        r == (a@ == b@),
{
    let n = a.unicode_len();
    let m = b.unicode_len();
    if n != m {
        return false;
    }
    let mut i: usize = 0;
    while i < n
        invariant
            i <= n,
            n == a@.len(),
            n == b@.len(),
            forall|k: int| 0 <= k < i ==> a@[k] == b@[k],
        decreases n - i,
    {
        if a.get_char(i) != b.get_char(i) {
            return false;
        }
        i += 1;
    }
    proof {
        assert(a@ =~= b@);
    }
    true
}

/// Index of the first newline of the sequence, its length when none occurs.
pub open spec fn newline_pos(s: Seq<char>) -> int
    decreases s.len(),
{
    if s.len() == 0 {
        0
    } else if s[0] == '\n' {
        0
    } else {
        1 + newline_pos(s.skip(1))
    }
}

proof fn lemma_newline_pos_bounds(s: Seq<char>)
    ensures
        0 <= newline_pos(s) <= s.len(),
        forall|k: int| 0 <= k < newline_pos(s) ==> s[k] != '\n',
        newline_pos(s) < s.len() ==> s[newline_pos(s)] == '\n',
    decreases s.len(),
{
    if s.len() == 0 {
    } else if s[0] == '\n' {
    } else {
        lemma_newline_pos_bounds(s.skip(1));
        assert(forall|k: int| 0 <= k < newline_pos(s.skip(1)) ==> s.skip(1)[k] != '\n');
        assert forall|k: int| 0 <= k < newline_pos(s) implies s[k] != '\n' by {
            if k > 0 {
                assert(s.skip(1)[k - 1] == s[k]);
            }
        }
        if newline_pos(s) < s.len() {
            assert(s.skip(1)[newline_pos(s) - 1] == s[newline_pos(s)]);
        }
    }
}

proof fn lemma_newline_pos_at(s: Seq<char>, p: int)
    requires
        0 <= p <= s.len(),
        forall|k: int| 0 <= k < p ==> s[k] != '\n',
        p < s.len() ==> s[p] == '\n',
    ensures
        newline_pos(s) == p,
    decreases s.len(),
{
    if s.len() == 0 {
    } else if s[0] == '\n' {
        assert(p == 0);
    } else {
        assert(p >= 1);
        assert forall|k: int| 0 <= k < p - 1 implies s.skip(1)[k] != '\n' by {
            assert(s.skip(1)[k] == s[k + 1]);
        }
        if p - 1 < s.skip(1).len() {
            assert(s.skip(1)[p - 1] == s[p]);
        }
        lemma_newline_pos_at(s.skip(1), p - 1);
    }
}

/// A line with a single trailing carriage return removed.
pub open spec fn chomp_cr(s: Seq<char>) -> Seq<char> {
    if s.len() > 0 && s.last() == '\r' {
        s.drop_last()
    } else {
        s
    }
}

/// The lines of a text: split at newlines, each ended line stripped of one
/// carriage return before its newline, no final empty line after a trailing
/// newline. A carriage return at the very end of the text, with no newline
/// after it, stays.
pub open spec fn spec_lines(s: Seq<char>) -> Seq<Seq<char>>
    decreases s.len(),
    when true
    via spec_lines_decreases
{
    if s.len() == 0 {
        Seq::empty()
    } else {
        let j = newline_pos(s);
        if j >= s.len() {
            seq![s]
        } else {
            seq![chomp_cr(s.take(j))] + spec_lines(s.skip(j + 1))
        }
    }
}

#[via_fn]
proof fn spec_lines_decreases(s: Seq<char>) {
    lemma_newline_pos_bounds(s);
}

/// The views of a sequence of strings.
pub open spec fn views_of(ss: Seq<String>) -> Seq<Seq<char>> {
    ss.map_values(|s: String| s@)
}

/// Splits a text into its lines.
pub fn lines_of(contents: &str) -> (r: Vec<String>)
    ensures
        views_of(r@) == spec_lines(contents@),
{
    let n = contents.unicode_len();
    let mut out: Vec<String> = Vec::new();
    let mut i: usize = 0;
    proof {
        assert(contents@.skip(0) =~= contents@);
        assert(views_of(out@) =~= Seq::empty());
        assert(views_of(out@) + spec_lines(contents@.skip(0)) =~= spec_lines(contents@));
    }
    while i < n
        invariant
            i <= n,
            n == contents@.len(),
            views_of(out@) + spec_lines(contents@.skip(i as int)) == spec_lines(contents@),
        decreases n - i,
    {
        let mut j = i;
        while j < n && contents.get_char(j) != '\n'
            invariant
                i <= j <= n,
                n == contents@.len(),
                forall|k: int| i <= k < j ==> contents@[k] != '\n',
            decreases n - j,
        {
            j += 1;
        }
        let ghost rest = contents@.skip(i as int);
        proof {
            assert forall|k: int| 0 <= k < j - i implies rest[k] != '\n' by {
                assert(rest[k] == contents@[i + k]);
            }
            if j < n {
                assert(rest[j - i] == contents@[j as int]);
            }
            lemma_newline_pos_at(rest, j - i);
        }
        let line_end = if j < n && j > i && contents.get_char(j - 1) == '\r' {
            j - 1
        } else {
            j
        };
        let line = contents.substring_char(i, line_end);
        proof {
            assert(rest.take(j - i) =~= contents@.subrange(i as int, j as int));
            if j < n {
                if j > i && contents@[j - 1] == '\r' {
                    assert(rest.take(j - i).drop_last() =~= contents@.subrange(
                        i as int,
                        line_end as int,
                    ));
                }
                assert(chomp_cr(rest.take(j - i)) == contents@.subrange(
                    i as int,
                    line_end as int,
                ));
            } else {
                assert(rest =~= contents@.subrange(i as int, j as int));
            }
        }
        let owned = String::from_str(line);
        out.push(owned);
        proof {
            let ghost prev = out@.drop_last();
            assert(views_of(out@) =~= views_of(prev) + seq![line@]);
            if j < n {
                assert(rest.skip(j - i + 1) =~= contents@.skip(j + 1));
                assert(spec_lines(rest) == seq![line@] + spec_lines(contents@.skip(j + 1)));
                assert(views_of(prev) + spec_lines(rest) =~= views_of(out@) + spec_lines(
                    contents@.skip(j + 1),
                ));
            } else {
                assert(spec_lines(rest) == seq![line@]);
                assert(views_of(prev) + spec_lines(rest) =~= views_of(out@));
                assert(contents@.skip(n as int) =~= Seq::empty());
                assert(views_of(out@) + spec_lines(contents@.skip(n as int)) =~= views_of(out@));
            }
        }
        i = if j < n {
            j + 1
        } else {
            n
        };
    }
    proof {
        assert(i == n);
        assert(contents@.skip(n as int) =~= Seq::empty());
        assert(views_of(out@) + spec_lines(contents@.skip(n as int)) =~= views_of(out@));
    }
    out
}

/// The orientation a positional argument stands for: the odd positions name
/// segment starts (head windows), the even ones segment ends (tail windows).
pub open spec fn spec_location_of_index(index: int) -> Location {
    if index % 2 == 0 {
        Location::Tail
    } else {
        Location::Head
    }
}

/// Chooses the window orientation from the position (one through four) of a
/// residue argument.
pub fn location_of_index(index: i32) -> (loc: Location)
    requires
        1 <= index <= 4,
    ensures
        loc == spec_location_of_index(index as int),
{
    if index % 2 == 0 {
        Location::Tail
    } else {
        Location::Head
    }
}

/// The whole residue window stays within 32 bits.
pub open spec fn spec_window_ok(v: int, loc: Location) -> bool {
    match loc {
        Location::Head => v + 3 <= i32::MAX,
        Location::Tail => v - 3 >= i32::MIN,
    }
}

/// The four residue numbers of a window, each rendered in the fixed
/// four-character column of an atom record: a head window runs from the
/// residue upward, a tail window from three below it up to it.
pub open spec fn spec_residue_tokens(v: int, loc: Location) -> Seq<Seq<char>> {
    match loc {
        Location::Head => seq![
            spec_fixed4(v),
            spec_fixed4(v + 1),
            spec_fixed4(v + 2),
            spec_fixed4(v + 3),
        ],
        Location::Tail => seq![
            spec_fixed4(v - 3),
            spec_fixed4(v - 2),
            spec_fixed4(v - 1),
            spec_fixed4(v),
        ],
    }
}

/// Renders the four-member residue window of a terminus as fixed-width
/// text tokens, ready for comparison against the residue-number column.
pub fn residues_list(residue: &str, location: &Location) -> (r: [String; 4])
    requires
        spec_parse_i32(residue@) is Some,
        spec_window_ok(spec_parse_i32(residue@)->Some_0, *location),
    ensures
        views_of(r@) == spec_residue_tokens(spec_parse_i32(residue@)->Some_0, *location),
{
    let v = crate::numtext::parse_i32(residue).unwrap();
    let r = match location {
        Location::Head => [
            crate::numtext::format_fixed4(v),
            crate::numtext::format_fixed4(v + 1),
            crate::numtext::format_fixed4(v + 2),
            crate::numtext::format_fixed4(v + 3),
        ],
        Location::Tail => [
            crate::numtext::format_fixed4(v - 3),
            crate::numtext::format_fixed4(v - 2),
            crate::numtext::format_fixed4(v - 1),
            crate::numtext::format_fixed4(v),
        ],
    };
    proof {
        assert(views_of(r@) =~= spec_residue_tokens(spec_parse_i32(residue@)->Some_0, *location));
    }
    r
}

/// One of the three backbone atom names, as the atom-name column holds them.
pub open spec fn is_backbone_name(name: Seq<char>) -> bool {
    name == " N  "@ || name == " CA "@ || name == " C  "@
}

/// The record tag names an atom record.
pub open spec fn spec_tag_ok(line: Seq<char>) -> bool {
    line.len() >= 4 && line.subrange(0, 4) == "ATOM"@
}

/// The atom-name column holds a backbone atom.
pub open spec fn spec_name_ok(line: Seq<char>) -> bool {
    line.len() >= 16 && is_backbone_name(line.subrange(12, 16))
}

/// The residue-number column matches one of the window's tokens.
pub open spec fn spec_residue_match(line: Seq<char>, toks: Seq<Seq<char>>) -> bool {
    line.len() >= 26 && toks.contains(line.subrange(22, 26))
}

/// The line is an atom record of a backbone atom in the window, long enough
/// to carry its coordinate field.
pub open spec fn spec_line_qualifies(line: Seq<char>, toks: Seq<Seq<char>>) -> bool {
    spec_tag_ok(line) && spec_name_ok(line) && spec_residue_match(line, toks) && line.len() >= 54
}

/// The line ends before a column the extraction would read: such a record
/// makes the whole file unusable.
pub open spec fn spec_line_bad(line: Seq<char>, toks: Seq<Seq<char>>) -> bool {
    ||| line.len() < 4
    ||| (spec_tag_ok(line) && line.len() < 16)
    ||| (spec_tag_ok(line) && spec_name_ok(line) && line.len() < 26)
    ||| (spec_tag_ok(line) && spec_name_ok(line) && spec_residue_match(line, toks) && line.len()
        < 54)
}

/// The 24-character coordinate field of an atom record.
pub open spec fn spec_coord_field(line: Seq<char>) -> Seq<char> {
    line.subrange(30, 54)
}

/// Reads one line against a residue window: its coordinate field when it
/// qualifies, nothing when it is of no interest, an error when it is too
/// short for a column the extraction reads.
fn line_field(line: &str, toks: &[String; 4]) -> (r: Result<Option<String>, ParseError>)
    ensures
        ({
            let tv = views_of(toks@);
            &&& (spec_line_bad(line@, tv) ==> r == Err::<Option<String>, ParseError>(
                ParseError::MalformedLine,
            ))
            &&& (!spec_line_bad(line@, tv) && spec_line_qualifies(line@, tv) ==> (r matches Ok(o)
                && o matches Some(f) && f@ == spec_coord_field(line@)))
            &&& (!spec_line_bad(line@, tv) && !spec_line_qualifies(line@, tv) ==> r == Ok::<
                Option<String>,
                ParseError,
            >(None))
        }),
{
    let ghost tv = views_of(toks@);
    let n = line.unicode_len();
    if n < 4 {
        return Err(ParseError::MalformedLine);
    }
    let tag = line.substring_char(0, 4);
    if !str_eq(tag, "ATOM") {
        return Ok(None);
    }
    if n < 16 {
        return Err(ParseError::MalformedLine);
    }
    let name = line.substring_char(12, 16);
    if !(str_eq(name, " N  ") || str_eq(name, " CA ") || str_eq(name, " C  ")) {
        return Ok(None);
    }
    if n < 26 {
        return Err(ParseError::MalformedLine);
    }
    let resf = line.substring_char(22, 26);
    let matches_window = str_eq(resf, toks[0].as_str()) || str_eq(resf, toks[1].as_str())
        || str_eq(resf, toks[2].as_str()) || str_eq(resf, toks[3].as_str());
    proof {
        assert(tv.len() == 4);
        assert(forall|k: int| 0 <= k < 4 ==> tv[k] == #[trigger] toks@[k]@);
        if !matches_window {
            assert forall|k: int| 0 <= k < tv.len() implies tv[k] != line@.subrange(22, 26) by {}
            assert(!tv.contains(line@.subrange(22, 26)));
        }
    }
    if !matches_window {
        return Ok(None);
    }
    proof {
        let sub = line@.subrange(22, 26);
        if sub == tv[0] {
            assert(tv[0] == sub);
        } else if sub == tv[1] {
            assert(tv[1] == sub);
        } else if sub == tv[2] {
            assert(tv[2] == sub);
        } else {
            assert(tv[3] == sub);
        }
        assert(tv.contains(sub));
    }
    if n < 54 {
        return Err(ParseError::MalformedLine);
    }
    let field = line.substring_char(30, 54);
    Ok(Some(String::from_str(field)))
}

/// The coordinate fields of the qualifying lines, in file order.
pub open spec fn spec_fields(lines: Seq<Seq<char>>, toks: Seq<Seq<char>>) -> Seq<Seq<char>>
    decreases lines.len(),
{
    if lines.len() == 0 {
        Seq::empty()
    } else {
        spec_fields(lines.drop_last(), toks) + (if spec_line_qualifies(lines.last(), toks) {
            seq![spec_coord_field(lines.last())]
        } else {
            Seq::empty()
        })
    }
}

/// Some line of the file is too short for a column the extraction reads.
pub open spec fn spec_any_bad(lines: Seq<Seq<char>>, toks: Seq<Seq<char>>) -> bool {
    exists|i: int| 0 <= i < lines.len() && spec_line_bad(#[trigger] lines[i], toks)
}

/// The residue argument parses and its whole window stays within 32 bits.
pub open spec fn spec_residue_input_ok(residue: Seq<char>, loc: Location) -> bool {
    &&& spec_parse_i32(residue) is Some
    &&& spec_window_ok(spec_parse_i32(residue)->Some_0, loc)
}

/// Collects, in file order, the coordinate fields of every backbone atom
/// of the residue window named by one positional residue argument.
pub fn find_position_fields(residue: &str, index: i32, contents: &str) -> (r: Result<
    Vec<String>,
    ParseError,
>)
    requires
        1 <= index <= 4,
    ensures
        ({
            let loc = spec_location_of_index(index as int);
            &&& (!spec_residue_input_ok(residue@, loc) ==> r == Err::<Vec<String>, ParseError>(
                ParseError::BadResidueNumber,
            ))
            &&& (spec_residue_input_ok(residue@, loc) ==> {
                let toks = spec_residue_tokens(spec_parse_i32(residue@)->Some_0, loc);
                let lines = spec_lines(contents@);
                &&& (spec_any_bad(lines, toks) ==> r == Err::<Vec<String>, ParseError>(
                    ParseError::MalformedLine,
                ))
                &&& (!spec_any_bad(lines, toks) ==> (r matches Ok(fs) && views_of(fs@)
                    == spec_fields(lines, toks)))
            })
        }),
{
    let loc = location_of_index(index);
    let v = match crate::numtext::parse_i32(residue) {
        Some(v) => v,
        None => {
            return Err(ParseError::BadResidueNumber);
        },
    };
    match loc {
        Location::Head => {
            if v > i32::MAX - 3 {
                return Err(ParseError::BadResidueNumber);
            }
        },
        Location::Tail => {
            if v < i32::MIN + 3 {
                return Err(ParseError::BadResidueNumber);
            }
        },
    }
    let toks = residues_list(residue, &loc);
    let ghost tv = views_of(toks@);
    let ghost lines = spec_lines(contents@);
    let lns = lines_of(contents);
    let mut fields: Vec<String> = Vec::new();
    let mut li: usize = 0;
    proof {
        assert(views_of(fields@) =~= spec_fields(lines.take(0), tv));
    }
    while li < lns.len()
        invariant
            li <= lns@.len(),
            lines == spec_lines(contents@),
            views_of(lns@) == lines,
            views_of(toks@) == tv,
            loc == spec_location_of_index(index as int),
            spec_residue_input_ok(residue@, loc),
            tv == spec_residue_tokens(spec_parse_i32(residue@)->Some_0, loc),
            forall|k: int| 0 <= k < li ==> !spec_line_bad(#[trigger] lines[k], tv),
            views_of(fields@) == spec_fields(lines.take(li as int), tv),
        decreases lns@.len() - li,
    {
        proof {
            assert(lns@[li as int]@ == lines[li as int]);
        }
        match line_field(lns[li].as_str(), &toks) {
            Err(e) => {
                proof {
                    assert(spec_line_bad(lines[li as int], tv));
                    assert(spec_any_bad(lines, tv));
                }
                return Err(e);
            },
            Ok(found) => {
                proof {
                    assert(lines.take(li + 1).drop_last() =~= lines.take(li as int));
                    assert(lines.take(li + 1).last() == lines[li as int]);
                }
                match found {
                    Some(f) => {
                        let ghost prev = fields@;
                        fields.push(f);
                        proof {
                            assert(views_of(fields@) =~= views_of(prev) + seq![f@]);
                            assert(views_of(fields@) =~= spec_fields(lines.take(li + 1), tv));
                        }
                    },
                    None => {
                        proof {
                            assert(views_of(fields@) + Seq::<Seq<char>>::empty() =~= views_of(
                                fields@,
                            ));
                            assert(views_of(fields@) =~= spec_fields(lines.take(li + 1), tv));
                        }
                    },
                }
            },
        }
        li += 1;
    }
    proof {
        assert(lines.take(lns@.len() as int) =~= lines);
    }
    Ok(fields)
}

/// Reduces the collected points of a terminus to its window of at most ten:
/// a head keeps the first ten in file order, a tail the last ten read
/// backward. Fewer than ten stay as they are, in the same orientation.
pub fn select_window<T>(points: Vec<T>, location: &Location) -> (r: Vec<T>)
    ensures
        r@.len() == (if points@.len() < 10 {
            points@.len() as int
        } else {
            10int
        }),
        *location == Location::Head ==> forall|i: int| 0 <= i < r@.len() ==> r@[i] == points@[i],
        *location == Location::Tail ==> forall|i: int|
            0 <= i < r@.len() ==> r@[i] == points@[points@.len() - 1 - i],
{
    match location {
        Location::Head => {
            let mut p = points;
            if p.len() > 10 {
                p.truncate(10);
            }
            p
        },
        Location::Tail => {
            let ghost all = points@;
            let mut p = points;
            let mut out: Vec<T> = Vec::new();
            while out.len() < 10 && p.len() > 0
                invariant
                    out@.len() <= 10,
                    out@.len() <= all.len(),
                    p@ == all.take(all.len() - out@.len()),
                    forall|i: int| 0 <= i < out@.len() ==> out@[i] == all[all.len() - 1 - i],
                decreases p@.len(),
            {
                let ghost k = out@.len() as int;
                let x = p.pop().unwrap();
                out.push(x);
                proof {
                    assert(all.take(all.len() - k).last() == all[all.len() - 1 - k]);
                    assert(all.take(all.len() - k).subrange(0, all.len() - k - 1) =~= all.take(
                        all.len() - (k + 1),
                    ));
                }
            }
            out
        },
    }
}

/// An ASCII whitespace character, as coordinate fields are delimited.
pub open spec fn is_ascii_ws(c: char) -> bool {
    c == ' ' || c == '\t' || c == '\n' || c == '\r' || c == '\u{c}'
}

/// Index of the first whitespace character, the length when none occurs.
pub open spec fn ws_pos(s: Seq<char>) -> int
    decreases s.len(),
{
    if s.len() == 0 {
        0
    } else if is_ascii_ws(s[0]) {
        0
    } else {
        1 + ws_pos(s.skip(1))
    }
}

proof fn lemma_ws_pos_at(s: Seq<char>, p: int)
    requires
        0 <= p <= s.len(),
        forall|k: int| 0 <= k < p ==> !is_ascii_ws(#[trigger] s[k]),
        p < s.len() ==> is_ascii_ws(s[p]),
    ensures
        ws_pos(s) == p,
    decreases s.len(),
{
    if s.len() == 0 {
    } else if is_ascii_ws(s[0]) {
        assert(p == 0);
    } else {
        assert(p >= 1);
        assert forall|k: int| 0 <= k < p - 1 implies !is_ascii_ws(s.skip(1)[k]) by {
            assert(s.skip(1)[k] == s[k + 1]);
        }
        if p - 1 < s.skip(1).len() {
            assert(s.skip(1)[p - 1] == s[p]);
        }
        lemma_ws_pos_at(s.skip(1), p - 1);
    }
}

/// The maximal whitespace-free runs of a text, in order: how a coordinate
/// field splits into its numbers.
pub open spec fn spec_ws_tokens(s: Seq<char>) -> Seq<Seq<char>>
    decreases s.len(),
    when true
    via spec_ws_tokens_decreases
{
    if s.len() == 0 {
        Seq::empty()
    } else if is_ascii_ws(s[0]) {
        spec_ws_tokens(s.skip(1))
    } else {
        let j = ws_pos(s);
        if j >= s.len() {
            seq![s]
        } else {
            seq![s.take(j)] + spec_ws_tokens(s.skip(j))
        }
    }
}

#[via_fn]
proof fn spec_ws_tokens_decreases(s: Seq<char>) {
    if s.len() > 0 && !is_ascii_ws(s[0]) {
        lemma_ws_pos_at_bounds(s);
    }
}

proof fn lemma_ws_pos_at_bounds(s: Seq<char>)
    ensures
        0 <= ws_pos(s) <= s.len(),
        s.len() > 0 && !is_ascii_ws(s[0]) ==> ws_pos(s) >= 1,
    decreases s.len(),
{
    if s.len() == 0 {
    } else if is_ascii_ws(s[0]) {
    } else {
        lemma_ws_pos_at_bounds(s.skip(1));
    }
}

/// True when the character is ASCII whitespace.
fn ws_char(c: char) -> (r: bool)
    ensures
        r == is_ascii_ws(c),
{
    c == ' ' || c == '\t' || c == '\n' || c == '\r' || c == '\u{c}'
}

/// Splits a coordinate field at ASCII whitespace into its tokens, in order:
/// a well-formed field yields its three coordinate numbers as text.
pub fn coord_tokens(field: &str) -> (r: Vec<String>)
    ensures
        views_of(r@) == spec_ws_tokens(field@),
{
    let n = field.unicode_len();
    let mut out: Vec<String> = Vec::new();
    let mut i: usize = 0;
    proof {
        assert(field@.skip(0) =~= field@);
        assert(views_of(out@) =~= Seq::empty());
        assert(views_of(out@) + spec_ws_tokens(field@.skip(0)) =~= spec_ws_tokens(field@));
    }
    while i < n
        invariant
            i <= n,
            n == field@.len(),
            views_of(out@) + spec_ws_tokens(field@.skip(i as int)) == spec_ws_tokens(field@),
        decreases n - i,
    {
        let c = field.get_char(i);
        if ws_char(c) {
            proof {
                let rest = field@.skip(i as int);
                assert(rest[0] == field@[i as int]);
                assert(rest.skip(1) =~= field@.skip(i + 1));
                assert(spec_ws_tokens(rest) == spec_ws_tokens(field@.skip(i + 1)));
            }
            i += 1;
        } else {
            let mut j = i + 1;
            while j < n && !ws_char(field.get_char(j))
                invariant
                    i < j <= n,
                    n == field@.len(),
                    !is_ascii_ws(field@[i as int]),
                    forall|k: int| i <= k < j ==> !is_ascii_ws(#[trigger] field@[k]),
                decreases n - j,
            {
                j += 1;
            }
            let ghost rest = field@.skip(i as int);
            proof {
                assert forall|k: int| 0 <= k < j - i implies !is_ascii_ws(rest[k]) by {
                    assert(rest[k] == field@[i + k]);
                }
                if j < n {
                    assert(rest[j - i] == field@[j as int]);
                }
                lemma_ws_pos_at(rest, j - i);
            }
            let tok = field.substring_char(i, j);
            let ghost prev = out@;
            out.push(String::from_str(tok));
            proof {
                assert(views_of(out@) =~= views_of(prev) + seq![tok@]);
                if j < n {
                    assert(rest.take(j - i) =~= field@.subrange(i as int, j as int));
                    assert(rest.skip(j - i) =~= field@.skip(j as int));
                    assert(spec_ws_tokens(rest) == seq![tok@] + spec_ws_tokens(
                        field@.skip(j as int),
                    ));
                    assert(views_of(prev) + spec_ws_tokens(rest) =~= views_of(out@)
                        + spec_ws_tokens(field@.skip(j as int)));
                } else {
                    assert(rest =~= field@.subrange(i as int, j as int));
                    assert(spec_ws_tokens(rest) == seq![rest]);
                    assert(views_of(prev) + spec_ws_tokens(rest) =~= views_of(out@));
                    assert(field@.skip(n as int) =~= Seq::empty());
                    assert(views_of(out@) + spec_ws_tokens(field@.skip(n as int)) =~= views_of(
                        out@,
                    ));
                }
            }
            i = j;
        }
    }
    proof {
        assert(field@.skip(n as int) =~= Seq::empty());
        assert(views_of(out@) + spec_ws_tokens(field@.skip(n as int)) =~= views_of(out@));
    }
    out
}

} // verus!
