//! Per-line hit reports: reading them and summing them up.
use crate::fuzzer::Coverage;
use crate::text::chars_of;
use crate::text::texts;
use std::collections::HashMap;
use std::collections::HashSet;
use vstd::prelude::*;
use vstd::std_specs::hash::group_hash_axioms;
use vstd::std_specs::iter::IteratorSpec;

verus! {

/// What a report says of one source line.
#[derive(Clone, Copy, Debug, PartialEq, Eq, Structural)]
pub enum Marker {
    /// The line ran this many times.
    Hits(u64),
    /// The line can run and did not.
    NotExecuted,
    /// The line holds no statement.
    NotInstrumented,
}

/// The character that ends a field of a report line.
pub const FIELD_END: char = ':';

/// The marker of a line that can run and did not, repeated at will.
pub const NOT_EXECUTED: char = '#';

/// The marker of a line without a statement, repeated at will.
pub const NOT_INSTRUMENTED: char = '-';

/// A character that may stand before a field and is not part of it.
pub open spec fn is_blank(c: char) -> bool {
    c == ' ' || c == '\t'
}

/// A decimal digit.
pub open spec fn is_digit(c: char) -> bool {
    '0' <= c <= '9'
}

/// The length of the longest start of `s` whose characters all meet `keep`.
pub open spec fn run_len(s: Seq<char>, keep: spec_fn(char) -> bool) -> nat
    decreases s.len(),
{
    if s.len() == 0 || !keep(s[0]) {
        0
    } else {
        1 + run_len(s.drop_first(), keep)
    }
}

/// How many characters stand before the first `FIELD_END` of `s`; the
/// length of `s` if it holds none.
pub open spec fn field_len(s: Seq<char>) -> nat {
    run_len(s, |c: char| c != FIELD_END)
}

/// `s` without the blanks it starts with.
pub open spec fn trimmed(s: Seq<char>) -> Seq<char> {
    s.skip(run_len(s, |c: char| is_blank(c)) as int)
}

/// Every character of `s` is `c`.
pub open spec fn all_are(s: Seq<char>, c: char) -> bool {
    forall|i: int| 0 <= i < s.len() ==> #[trigger] s[i] == c
}

/// Every character of `s` is a decimal digit.
pub open spec fn all_digits(s: Seq<char>) -> bool {
    forall|i: int| 0 <= i < s.len() ==> is_digit(#[trigger] s[i])
}

/// The number that a string of decimal digits writes.
pub open spec fn decimal(s: Seq<char>) -> nat
    decreases s.len(),
{
    if s.len() == 0 {
        0
    } else {
        (decimal(s.drop_last()) * 10 + (s.last() as u32 - '0' as u32)) as nat
    }
}

/// The marker that a field's text stands for, if any: digits are a hit
/// count (one too large for 64 bits counts as the largest), a run of
/// `NOT_EXECUTED` or of `NOT_INSTRUMENTED` is that marker.
pub open spec fn marker_of(text: Seq<char>) -> Option<Marker> {
    if text.len() == 0 {
        None
    } else if all_digits(text) {
        Some(
            Marker::Hits(
                if decimal(text) <= u64::MAX {
                    decimal(text) as u64
                } else {
                    u64::MAX
                },
            ),
        )
    } else if all_are(text, NOT_EXECUTED) {
        Some(Marker::NotExecuted)
    } else if all_are(text, NOT_INSTRUMENTED) {
        Some(Marker::NotInstrumented)
    } else {
        None
    }
}

/// The line number that a field's text stands for, if it is one that fits.
pub open spec fn line_number_of(text: Seq<char>) -> Option<i32> {
    if text.len() > 0 && all_digits(text) && decimal(text) <= i32::MAX {
        Some(decimal(text) as i32)
    } else {
        None
    }
}

/// What a report line says: it starts with a marker field and a line
/// number field, in that order, each ended by `FIELD_END` and each
/// possibly led by blanks. A line of any other shape says nothing.
pub open spec fn parsed_line(line: Seq<char>) -> Option<(i32, Marker)> {
    let first = field_len(line) as int;
    if first >= line.len() {
        None
    } else {
        let rest = line.skip(first + 1);
        let second = field_len(rest) as int;
        if second >= rest.len() {
            None
        } else {
            let marker = marker_of(trimmed(line.take(first)));
            let number = line_number_of(trimmed(rest.take(second)));
            match (number, marker) {
                (Some(number), Some(marker)) => Some((number, marker)),
                _ => None,
            }
        }
    }
}

/// The report that a file's lines add up to: each line that says
/// something sets the marker of its line number, a later line
/// overriding an earlier one.
pub open spec fn report_of(lines: Seq<Seq<char>>) -> Map<i32, Marker>
    decreases lines.len(),
{
    if lines.len() == 0 {
        Map::empty()
    } else {
        let earlier = report_of(lines.drop_last());
        match parsed_line(lines.last()) {
            Some((number, marker)) => earlier.insert(number, marker),
            None => earlier,
        }
    }
}

/// A line that can run: its marker is a hit count or `NotExecuted`.
pub open spec fn is_reachable(marker: Marker) -> bool {
    !(marker is NotInstrumented)
}

/// The reachable lines of a report, each with its marker.
pub open spec fn reachable_part(report: Map<i32, Marker>) -> Map<i32, Marker> {
    Map::new(|line: i32| report.contains_key(line) && is_reachable(report[line]), |line: i32| report[line])
}

/// The lines of a report that ran, each with its count.
pub open spec fn hit_part(report: Map<i32, Marker>) -> Map<i32, u64> {
    Map::new(
        |line: i32| report.contains_key(line) && report[line] is Hits,
        |line: i32| report[line]->Hits_0,
    )
}

/// The lines of a report that ran and are not among those seen before.
pub open spec fn novel_lines(report: Map<i32, Marker>, seen: Set<i32>) -> Set<i32> {
    hit_part(report).dom().difference(seen)
}

/// A run is as long as the first position that fails `keep`.
pub proof fn lemma_run_len(s: Seq<char>, keep: spec_fn(char) -> bool, n: int)
    requires
        0 <= n <= s.len(),
        forall|i: int| 0 <= i < n ==> keep(#[trigger] s[i]),
        n == s.len() || !keep(s[n]),
    ensures
        run_len(s, keep) == n,
    decreases n,
{
    if n > 0 {
        let rest = s.drop_first();
        assert forall|i: int| 0 <= i < n - 1 implies keep(#[trigger] rest[i]) by {
            assert(rest[i] == s[i + 1]);
        }
        lemma_run_len(rest, keep, n - 1);
    }
}

/// Once the new lines of a report have joined the lines seen, the same
/// report has nothing new: what is new must be asked before the lines
/// are merged.
pub proof fn lemma_merged_lines_are_not_novel(report: Map<i32, Marker>, seen: Set<i32>)
    ensures
        novel_lines(report, seen.union(novel_lines(report, seen))) == Set::<i32>::empty(),
{
}

/// A line that says nothing changes nothing: the report is the same
/// with it as without it, wherever in the file it stands.
pub proof fn lemma_report_skips(before: Seq<Seq<char>>, line: Seq<char>, after: Seq<Seq<char>>)
    requires
        parsed_line(line) is None,
    ensures
        report_of(before.push(line) + after) == report_of(before + after),
    decreases after.len(),
{
    if after.len() == 0 {
        assert(before.push(line).drop_last() =~= before);
    } else {
        let rest = after.drop_last();
        lemma_report_skips(before, line, rest);
        assert((before.push(line) + after).drop_last() =~= before.push(line) + rest);
        assert((before + after).drop_last() =~= before + rest);
    }
}

/// A report names finitely many lines, so finitely many of them are new,
/// and the covered lines stay finitely many.
pub proof fn lemma_novel_lines_finite(report: Map<i32, Marker>, seen: Set<i32>)
    requires
        report.dom().finite(),
    ensures
        reachable_part(report).dom().finite(),
        hit_part(report).dom().finite(),
        novel_lines(report, seen).finite(),
        seen.finite() ==> seen.union(novel_lines(report, seen)).finite(),
        novel_lines(report, seen).len() <= hit_part(report).dom().len(),
        hit_part(report).dom().len() <= reachable_part(report).dom().len(),
        reachable_part(report).dom().len() <= report.dom().len(),
{
    broadcast use vstd::set_lib::lemma_set_union_finite_iff;

    vstd::set_lib::lemma_len_subset(reachable_part(report).dom(), report.dom());
    vstd::set_lib::lemma_len_subset(hit_part(report).dom(), reachable_part(report).dom());
    vstd::set_lib::lemma_len_subset(novel_lines(report, seen), hit_part(report).dom());
}

/// Where the field that starts at `from` ends: at its `FIELD_END`, or at
/// the end of the line.
fn scan_field(chars: &Vec<char>, from: usize) -> (end: usize)
    requires
        from <= chars@.len(),
    ensures
        from <= end <= chars@.len(),
        end - from == field_len(chars@.skip(from as int)),
{
    let mut end: usize = from;
    while end < chars.len() && chars[end] != FIELD_END
        invariant
            from <= end <= chars@.len(),
            forall|i: int| from <= i < end ==> chars@[i] != FIELD_END,
        decreases chars@.len() - end,
    {
        end = end + 1;
    }
    proof {
        lemma_run_len(chars@.skip(from as int), |c: char| c != FIELD_END, end - from);
    }
    end
}

/// Where the text between `from` and `to` starts once its leading blanks
/// are left out.
fn skip_blanks(chars: &Vec<char>, from: usize, to: usize) -> (start: usize)
    requires
        from <= to <= chars@.len(),
    ensures
        from <= start <= to,
        chars@.subrange(start as int, to as int) == trimmed(chars@.subrange(from as int, to as int)),
{
    let mut start: usize = from;
    while start < to && (chars[start] == ' ' || chars[start] == '\t')
        invariant
            from <= start <= to,
            to <= chars@.len(),
            forall|i: int| from <= i < start ==> is_blank(chars@[i]),
        decreases to - start,
    {
        start = start + 1;
    }
    proof {
        let text = chars@.subrange(from as int, to as int);
        lemma_run_len(text, |c: char| is_blank(c), start - from);
    }
    start
}

/// Whether every character between `from` and `to` is `c`.
fn all_equal(chars: &Vec<char>, from: usize, to: usize, c: char) -> (same: bool)
    requires
        from <= to <= chars@.len(),
    ensures
        same == all_are(chars@.subrange(from as int, to as int), c),
{
    let ghost text = chars@.subrange(from as int, to as int);
    let mut i: usize = from;
    while i < to
        invariant
            from <= i <= to,
            to <= chars@.len(),
            text == chars@.subrange(from as int, to as int),
            forall|k: int| 0 <= k < i - from ==> #[trigger] text[k] == c,
        decreases to - i,
    {
        if chars[i] != c {
            assert(text[i - from] != c);
            return false;
        }
        i = i + 1;
    }
    true
}

/// The number written between `from` and `to`, if that text is made of
/// digits only; a number above `limit` comes back as `limit`.
fn read_decimal(chars: &Vec<char>, from: usize, to: usize, limit: u64) -> (value: Option<u64>)
    requires
        from <= to <= chars@.len(),
    ensures
        value is Some == all_digits(chars@.subrange(from as int, to as int)),
        value is Some ==> value->0 == if decimal(chars@.subrange(from as int, to as int)) <= limit {
            decimal(chars@.subrange(from as int, to as int))
        } else {
            limit as nat
        },
{
    let ghost text = chars@.subrange(from as int, to as int);
    let mut total: u64 = 0;
    let mut over: bool = false;
    let mut i: usize = from;
    while i < to
        invariant
            from <= i <= to,
            to <= chars@.len(),
            text == chars@.subrange(from as int, to as int),
            all_digits(text.take(i - from)),
            !over ==> total == decimal(text.take(i - from)) && total <= limit,
            over ==> decimal(text.take(i - from)) > limit,
        decreases to - i,
    {
        let c = chars[i];
        if c < '0' || c > '9' {
            assert(!is_digit(text[i - from]));
            return None;
        }
        let digit: u64 = (c as u32 - '0' as u32) as u64;
        proof {
            let longer = text.take(i - from + 1);
            assert(longer.drop_last() =~= text.take(i - from));
        }
        if !over {
            if digit > limit || total > (limit - digit) / 10 {
                over = true;
            } else {
                total = total * 10 + digit;
            }
        }
        i = i + 1;
    }
    proof {
        assert(text.take(to - from) =~= text);
    }
    if over {
        Some(limit)
    } else {
        Some(total)
    }
}

/// The marker that the text between `from` and `to` stands for.
fn read_marker(chars: &Vec<char>, from: usize, to: usize) -> (marker: Option<Marker>)
    requires
        from <= to <= chars@.len(),
    ensures
        marker == marker_of(chars@.subrange(from as int, to as int)),
{
    if from == to {
        return None;
    }
    match read_decimal(chars, from, to, u64::MAX) {
        Some(count) => Some(Marker::Hits(count)),
        None => {
            if all_equal(chars, from, to, NOT_EXECUTED) {
                Some(Marker::NotExecuted)
            } else if all_equal(chars, from, to, NOT_INSTRUMENTED) {
                Some(Marker::NotInstrumented)
            } else {
                None
            }
        },
    }
}

/// The line number that the text between `from` and `to` stands for.
fn read_line_number(chars: &Vec<char>, from: usize, to: usize) -> (number: Option<i32>)
    requires
        from <= to <= chars@.len(),
    ensures
        number == line_number_of(chars@.subrange(from as int, to as int)),
{
    if from == to {
        return None;
    }
    let limit: u64 = 0x8000_0000;
    match read_decimal(chars, from, to, limit) {
        Some(value) => {
            if value < limit {
                Some(value as i32)
            } else {
                None
            }
        },
        None => None,
    }
}

/// Reads the two leading fields of a report line: the marker and the
/// line number. A line of another shape gives `None`.
pub fn extract_hits_and_line_number(line: &str) -> (fields: Option<(i32, Marker)>)
    ensures
        fields == parsed_line(line@),
{
    let chars = chars_of(line);
    let first: usize = scan_field(&chars, 0);
    assert(chars@.skip(0) =~= chars@);
    if first >= chars.len() {
        return None;
    }
    let second: usize = scan_field(&chars, first + 1);
    if second >= chars.len() {
        return None;
    }
    proof {
        let rest = chars@.skip(first + 1);
        assert(chars@.subrange(first + 1, second as int) =~= rest.take(second - first - 1));
    }
    let marker_start: usize = skip_blanks(&chars, 0, first);
    let number_start: usize = skip_blanks(&chars, first + 1, second);
    let number = read_line_number(&chars, number_start, second);
    let marker = read_marker(&chars, marker_start, first);
    match (number, marker) {
        (Some(number), Some(marker)) => Some((number, marker)),
        _ => None,
    }
}

/// Reads a report from the lines of its file, in order. Lines of another
/// shape are passed over; of two lines with one line number the later
/// counts.
pub fn parse_coverage(lines: &Vec<String>) -> (map: HashMap<i32, Marker>)
    ensures
        map@ == report_of(texts(lines@)),
{
    broadcast use group_hash_axioms;

    let mut map: HashMap<i32, Marker> = HashMap::new();
    let mut i: usize = 0;
    while i < lines.len()
        invariant
            i <= lines@.len(),
            map@ == report_of(texts(lines@).take(i as int)),
        decreases lines@.len() - i,
    {
        proof {
            let upto = texts(lines@).take(i + 1);
            assert(upto.drop_last() =~= texts(lines@).take(i as int));
        }
        match extract_hits_and_line_number(lines[i].as_str()) {
            Some((number, marker)) => {
                map.insert(number, marker);
            },
            None => {},
        }
        i = i + 1;
    }
    proof {
        assert(texts(lines@).take(i as int) =~= texts(lines@));
    }
    map
}

/// The reachable lines of a report.
pub fn get_reachable_lines(map: HashMap<i32, Marker>) -> (reachable: HashMap<i32, Marker>)
    ensures
        reachable@ == reachable_part(map@),
{
    broadcast use group_hash_axioms;

    let mut reachable: HashMap<i32, Marker> = HashMap::new();
    for entry in it: map.iter()
        invariant
            it.seq() == map.iter().remaining(),
            forall|line: i32| #[trigger]
                reachable@.contains_key(line) ==> map@.contains_key(line) && is_reachable(
                    map@[line],
                ) && reachable@[line] == map@[line],
            forall|i: int|
                0 <= i < it.index() && is_reachable(*it.seq()[i].1) ==> reachable@.contains_key(
                    *#[trigger] it.seq()[i].0,
                ),
    {
        let (line, marker) = entry;
        match marker {
            Marker::NotInstrumented => {},
            _ => {
                reachable.insert(*line, *marker);
            },
        }
    }
    proof {
        let seq = map.iter().remaining();
        assert forall|line: i32|
            map@.contains_key(line) && is_reachable(map@[line]) implies reachable@.contains_key(
            line,
        ) by {
            assert(seq.contains((&line, &map@[line])));
            let i = choose|i: int| 0 <= i < seq.len() && seq[i] == (&line, &map@[line]);
            assert(*seq[i].0 == line);
        }
        assert(reachable@ =~= reachable_part(map@));
    }
    reachable
}

/// The lines of a report that ran, each with the number of times it ran.
pub fn get_hitted_lines(map: HashMap<i32, Marker>) -> (hits: HashMap<i32, u64>)
    ensures
        hits@ == hit_part(map@),
{
    broadcast use group_hash_axioms;

    let mut hits: HashMap<i32, u64> = HashMap::new();
    for entry in it: map.iter()
        invariant
            it.seq() == map.iter().remaining(),
            forall|line: i32| #[trigger]
                hits@.contains_key(line) ==> map@.contains_key(line) && map@[line] == Marker::Hits(
                    hits@[line],
                ),
            forall|i: int|
                0 <= i < it.index() && *it.seq()[i].1 is Hits ==> hits@.contains_key(
                    *#[trigger] it.seq()[i].0,
                ),
    {
        let (line, marker) = entry;
        match marker {
            Marker::Hits(count) => {
                hits.insert(*line, *count);
            },
            _ => {},
        }
    }
    proof {
        let seq = map.iter().remaining();
        assert forall|line: i32|
            map@.contains_key(line) && map@[line] is Hits implies hits@.contains_key(line) by {
            assert(seq.contains((&line, &map@[line])));
            let i = choose|i: int| 0 <= i < seq.len() && seq[i] == (&line, &map@[line]);
            assert(*seq[i].0 == line);
        }
        assert(hits@ =~= hit_part(map@));
    }
    hits
}

/// Sums a report up against the lines seen before: how many lines can
/// run, how many ran, and which of those that ran are new. Lines without
/// a statement count nowhere. `unique_hits_global` is only read.
pub fn get_cov(map: HashMap<i32, Marker>, unique_hits_global: &HashSet<i32>) -> (cov: Coverage)
    ensures
        cov.reachable_lines == reachable_part(map@).dom().len(),
        cov.hitted_lines == hit_part(map@).dom().len(),
        cov.unique_lines@ == novel_lines(map@, unique_hits_global@),
{
    broadcast use group_hash_axioms;

    let reachable = get_reachable_lines(map);
    let reachable_lines: usize = reachable.len();
    let hits = get_hitted_lines(reachable);
    assert(hits@ =~= hit_part(map@));
    let mut unique_lines: HashSet<i32> = HashSet::new();
    for entry in it: hits.iter()
        invariant
            it.seq() == hits.iter().remaining(),
            forall|line: i32| #[trigger]
                unique_lines@.contains(line) ==> hits@.contains_key(line)
                    && !unique_hits_global@.contains(line),
            forall|i: int|
                0 <= i < it.index() && !unique_hits_global@.contains(*it.seq()[i].0)
                    ==> unique_lines@.contains(*#[trigger] it.seq()[i].0),
    {
        let (line, _) = entry;
        if !unique_hits_global.contains(line) {
            unique_lines.insert(*line);
        }
    }
    proof {
        let seq = hits.iter().remaining();
        assert forall|line: i32|
            hits@.contains_key(line) && !unique_hits_global@.contains(
                line,
            ) implies unique_lines@.contains(line) by {
            assert(seq.contains((&line, &hits@[line])));
            let i = choose|i: int| 0 <= i < seq.len() && seq[i] == (&line, &hits@[line]);
            assert(*seq[i].0 == line);
        }
        assert(unique_lines@ =~= novel_lines(map@, unique_hits_global@));
    }
    Coverage { unique_lines, hitted_lines: hits.len(), reachable_lines }
}

} // verus!
