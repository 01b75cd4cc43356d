//! The available memory, as operating systems report it.

use crate::scan::{self, Span};
use crate::text;
use vstd::prelude::*;

verus! {

/// The run behind a field's name, in the first line from `from` on that begins
/// with the name.
pub open spec fn field(report: Seq<char>, name: Seq<char>, from: int) -> Option<(int, int)>
    decreases report.len() - from,
{
    let end = scan::line_end(report, from);
    if scan::occurs_at(report, name, from) && from + name.len() <= end {
        Some((from + name.len(), end))
    } else if end <= from - 1 || end >= report.len() {
        None
    } else {
        field(report, name, end + 1)
    }
}

/// A number in decimal, in 64 bits.
pub open spec fn number(word: Seq<char>) -> Option<u64> {
    match text::parsed(word, u64::MAX) {
        Ok(value) => Some(value),
        Err(_) => None,
    }
}

fn read_number(report: &str, span: Span) -> (value: Option<u64>)
    requires
        span.start <= span.end <= report@.len(),
    ensures
        value == number(span.of(report@)),
{
    match text::parse_unsigned(report.substring_char(span.start, span.end), u64::MAX) {
        Ok(value) => Some(value),
        Err(_) => None,
    }
}

/// The available memory that Linux reports, in bytes: the first word of the
/// field `MemAvailable`, in units of 1024.
pub open spec fn meminfo_bytes(report: Seq<char>) -> Option<u64> {
    match field(report, "MemAvailable:"@, 0) {
        None => None,
        Some((start, end)) => match scan::first_word_of(report, start, end) {
            None => None,
            Some(word) => match number(word) {
                None => None,
                Some(kib) => if kib * 1024 <= u64::MAX {
                    Some((kib * 1024) as u64)
                } else {
                    None
                },
            },
        },
    }
}

/// Finds a field.
fn find_field(chars: &Vec<char>, name: &Vec<char>) -> (place: Option<(usize, usize)>)
    ensures
        match place {
            Some((start, end)) => field(chars@, name@, 0) == Some((start as int, end as int))
                && start <= end <= chars.len(),
            None => field(chars@, name@, 0) is None,
        },
{
    let mut from: usize = 0;
    loop
        invariant
            from <= chars.len(),
            field(chars@, name@, from as int) == field(chars@, name@, 0),
        decreases chars.len() - from,
    {
        let end = scan::end_of_line(chars, from);
        if scan::stands_at(chars, name, from) && name.len() <= end - from {
            return Some((from + name.len(), end));
        }
        if end >= chars.len() {
            return None;
        }
        from = end + 1;
    }
}

/// The available memory that Linux reports, in bytes.
pub fn parse_meminfo(report: &str) -> (bytes: Option<u64>)
    ensures
        bytes == meminfo_bytes(report@),
{
    let chars = scan::chars_of(report);
    let name = scan::chars_of("MemAvailable:");
    let (start, end) = match find_field(&chars, &name) {
        Some(place) => place,
        None => {
            return None;
        },
    };
    let word = match scan::first_word(&chars, start, end) {
        Some(word) => word,
        None => {
            return None;
        },
    };
    match read_number(report, word) {
        Some(kib) => kib.checked_mul(1024),
        None => None,
    }
}

/// The size of a page: the first word behind the first "page size of " in the
/// first line, and before the second one.
pub open spec fn page_size(report: Seq<char>) -> Option<u64> {
    let end = scan::line_end(report, 0);
    let line = report.take(end);
    let label = "page size of "@;
    if scan::is_absent(line, label, 0) {
        None
    } else {
        let at = choose|at: int| scan::is_first(line, label, 0, at);
        let start = at + label.len();
        let stop = if scan::is_absent(line, label, start) {
            end
        } else {
            choose|stop: int| scan::is_first(line, label, start, stop)
        };
        match scan::first_word_of(line, start, stop) {
            Some(word) => number(word),
            None => None,
        }
    }
}

/// Whether a field counts pages that can be had.
pub open spec fn is_available(name: Seq<char>) -> bool {
    name == "Pages free"@ || name == "Pages inactive"@ || name == "Pages speculative"@ || name
        == "Pages purgeable"@
}

/// The first colon of a run, or its end.
pub open spec fn colon(text: Seq<char>, from: int, end: int) -> int
    decreases end - from,
{
    if from >= end || text[from] == ':' {
        from
    } else {
        colon(text, from + 1, end)
    }
}

/// The pages that one line adds.
pub open spec fn line_pages(report: Seq<char>, from: int, end: int) -> nat {
    let split = colon(report, from, end);
    if split < end && is_available(report.subrange(from, split)) {
        match number(scan::trimmed_value(report, split + 1, end)) {
            Some(pages) => pages as nat,
            None => 0,
        }
    } else {
        0
    }
}

/// The pages that the lines from `from` on add.
pub open spec fn pages_from(report: Seq<char>, from: int) -> nat
    decreases report.len() - from,
{
    let end = scan::line_end(report, from);
    if from >= report.len() || end < from {
        0
    } else if end >= report.len() {
        line_pages(report, from, end)
    } else {
        line_pages(report, from, end) + pages_from(report, end + 1)
    }
}

/// The available memory that macOS reports, in bytes: the pages that are free,
/// inactive, speculative or purgeable, times their size.  Nothing where that
/// cannot be counted in 64 bits.
pub open spec fn vm_stat_bytes(report: Seq<char>) -> Option<u64> {
    match page_size(report) {
        None => None,
        Some(size) => {
            let pages = pages_from(report, scan::line_end(report, 0) + 1);
            if pages <= u64::MAX && pages * size <= u64::MAX {
                Some((pages * size) as u64)
            } else {
                None
            }
        },
    }
}

fn find_colon(chars: &Vec<char>, from: usize, end: usize) -> (split: usize)
    requires
        from <= end <= chars.len(),
    ensures
        split == colon(chars@, from as int, end as int),
        from <= split <= end,
{
    let mut at: usize = from;
    while at < end && chars[at] != ':'
        invariant
            from <= at <= end <= chars.len(),
            colon(chars@, at as int, end as int) == colon(chars@, from as int, end as int),
        decreases end - at,
    {
        at = at + 1;
    }
    at
}

fn names_available(report: &str, from: usize, split: usize) -> (result: bool)
    requires
        from <= split <= report@.len(),
    ensures
        result == is_available(report@.subrange(from as int, split as int)),
{
    let name = String::from_str(report.substring_char(from, split));
    let free = String::from_str("Pages free");
    let inactive = String::from_str("Pages inactive");
    let speculative = String::from_str("Pages speculative");
    let purgeable = String::from_str("Pages purgeable");
    name.eq(&free) || name.eq(&inactive) || name.eq(&speculative) || name.eq(&purgeable)
}

fn pages_of_line(report: &str, chars: &Vec<char>, from: usize, end: usize) -> (pages: u64)
    requires
        chars@ == report@,
        from <= end <= chars.len(),
    ensures
        pages == line_pages(report@, from as int, end as int),
{
    let split = find_colon(chars, from, end);
    if split < end && names_available(report, from, split) {
        let value = scan::trim_value(chars, split + 1, end);
        match read_number(report, value) {
            Some(pages) => pages,
            None => 0,
        }
    } else {
        0
    }
}

fn read_page_size(report: &str, chars: &Vec<char>) -> (size: Option<u64>)
    requires
        chars@ == report@,
    ensures
        size == page_size(report@),
{
    let end = scan::end_of_line(chars, 0);
    let first = report.substring_char(0, end);
    let line = scan::chars_of(first);
    let label = scan::chars_of("page size of ");
    assert(line@ =~= report@.take(end as int));
    let at = match scan::find(&line, &label, 0) {
        Some(at) => at,
        None => {
            return None;
        },
    };
    let start: usize = at + label.len();
    let ghost chosen = choose|chosen: int| scan::is_first(line@, label@, 0, chosen);
    proof {
        scan::lemma_first_is_unique(line@, label@, 0, at as int, chosen);
    }
    let stop = match scan::find(&line, &label, start) {
        Some(stop) => {
            proof {
                let next = choose|next: int| scan::is_first(line@, label@, start as int, next);
                scan::lemma_first_is_unique(
                    line@,
                    label@,
                    start as int,
                    stop as int,
                    next,
                );
            }
            stop
        },
        None => line.len(),
    };
    match scan::first_word(&line, start, stop) {
        Some(word) => read_number(first, word),
        None => None,
    }
}

/// The available memory that macOS reports, in bytes.
pub fn parse_vm_stat(report: &str) -> (bytes: Option<u64>)
    ensures
        bytes == vm_stat_bytes(report@),
{
    let chars = scan::chars_of(report);
    let size = match read_page_size(report, &chars) {
        Some(size) => size,
        None => {
            return None;
        },
    };
    let first_end = scan::end_of_line(&chars, 0);
    let ghost whole = pages_from(report@, first_end + 1);
    let mut pages: u64 = 0;
    if first_end < chars.len() {
        let mut from: usize = first_end + 1;
        while from < chars.len()
            invariant
                chars@ == report@,
                page_size(report@) == Some(size),
                whole == pages_from(report@, scan::line_end(report@, 0) + 1),
                from <= chars.len(),
                whole == pages + pages_from(report@, from as int),
            decreases chars.len() - from,
        {
            let end = scan::end_of_line(&chars, from);
            let more = pages_of_line(report, &chars, from, end);
            match pages.checked_add(more) {
                Some(sum) => {
                    pages = sum;
                },
                None => {
                    return None;
                },
            }
            if end >= chars.len() {
                assert(whole == pages);
                assert(pages_from(report@, chars.len() as int) == 0);
                from = chars.len();
            } else {
                from = end + 1;
            }
        }
    }
    pages.checked_mul(size)
}

/// Whether a line of a report begins at a place.
pub open spec fn begins_line(report: Seq<char>, at: int) -> bool {
    0 <= at <= report.len() && (at == 0 || report[at - 1] == '\n')
}

proof fn field_is_first(report: Seq<char>, name: Seq<char>, from: int, at: int, end: int)
    requires
        begins_line(report, from),
        begins_line(report, at),
        from <= at,
        scan::occurs_at(report, name, at),
        scan::ends_line(report, at, end),
        at + name.len() <= end,
        forall|p: int|
            from <= p < at && begins_line(report, p) ==> !#[trigger] scan::occurs_at(
                report,
                name,
                p,
            ),
    ensures
        field(report, name, from) == Some((at + name.len(), end)),
    decreases at - from,
{
    if from == at {
        scan::lemma_lines_end_at_the_first_feed(report, at, end);
    } else {
        let stop = scan::line_end(report, from);
        scan::lemma_lines_end_at_the_first_feed(report, from, stop);
        if stop >= at {
            assert(report[at - 1] != '\n');
        }
        assert(begins_line(report, stop + 1));
        field_is_first(report, name, stop + 1, at, end);
    }
}

proof fn field_is_absent(report: Seq<char>, name: Seq<char>, from: int)
    requires
        begins_line(report, from),
        forall|p: int|
            from <= p && begins_line(report, p) ==> !#[trigger] scan::occurs_at(report, name, p),
    ensures
        field(report, name, from) is None,
    decreases report.len() - from,
{
    let stop = scan::line_end(report, from);
    scan::lemma_lines_end_at_the_first_feed(report, from, stop);
    if stop < report.len() {
        assert(begins_line(report, stop + 1));
        field_is_absent(report, name, stop + 1);
    }
}

proof fn decimals_are_no_space(n: nat, i: int)
    requires
        0 <= i < text::decimal(n).len(),
    ensures
        !scan::is_space(text::decimal(n)[i]),
        text::decimal(n)[i] != '.',
{
    text::lemma_decimal_digits(n);
    assert(text::is_digit(text::decimal(n)[i]));
}

/// Linux reports what can be had in the first line that begins with
/// `MemAvailable:`, wherever it stands: the number in it, in units of 1024.
pub proof fn lemma_available_memory_is_found(
    report: Seq<char>,
    at: int,
    end: int,
    start: int,
    kib: u64,
)
    requires
        begins_line(report, at),
        scan::occurs_at(report, "MemAvailable:"@, at),
        forall|p: int|
            0 <= p < at && begins_line(report, p) ==> !#[trigger] scan::occurs_at(
                report,
                "MemAvailable:"@,
                p,
            ),
        scan::ends_line(report, at, end),
        at + "MemAvailable:"@.len() <= start,
        forall|i: int|
            at + "MemAvailable:"@.len() <= i < start ==> scan::is_space(#[trigger] report[i]),
        start + text::decimal(kib as nat).len() <= end,
        scan::occurs_at(report, text::decimal(kib as nat), start),
        ({
            let stop = start + text::decimal(kib as nat).len();
            stop == end || scan::is_space(report[stop])
        }),
    ensures
        kib * 1024 <= u64::MAX ==> meminfo_bytes(report) == Some((kib * 1024) as u64),
        kib * 1024 > u64::MAX ==> meminfo_bytes(report) is None,
{
    let name = "MemAvailable:"@;
    let digits = text::decimal(kib as nat);
    let stop = start + digits.len();
    text::lemma_decimal_digits(kib as nat);
    field_is_first(report, name, 0, at, end);
    assert forall|i: int| start <= i < stop implies !scan::is_space(#[trigger] report[i]) by {
        assert(report.subrange(start, stop)[i - start] == report[i]);
        decimals_are_no_space(kib as nat, i - start);
    }
    scan::lemma_first_word_stands_between_spaces(
        report,
        (at + name.len()) as int,
        end,
        start,
        stop,
    );
    text::lemma_decimal_round_trip(kib, u64::MAX);
}

/// Without such a line nothing is known.
pub proof fn lemma_reports_without_the_field_say_nothing(report: Seq<char>)
    requires
        forall|p: int|
            begins_line(report, p) ==> !#[trigger] scan::occurs_at(report, "MemAvailable:"@, p),
    ensures
        meminfo_bytes(report) is None,
{
    field_is_absent(report, "MemAvailable:"@, 0);
}

proof fn colon_is_first(text: Seq<char>, from: int, end: int, at: int)
    requires
        0 <= from <= at < end <= text.len(),
        text[at] == ':',
        forall|i: int| from <= i < at ==> #[trigger] text[i] != ':',
    ensures
        colon(text, from, end) == at,
    decreases at - from,
{
    if from < at {
        assert(text[from] != ':');
        colon_is_first(text, from + 1, end, at);
    }
}

/// A line that names pages which can be had, free, inactive, speculative or
/// purgeable, adds the number behind its colon, with or without a full stop.
pub proof fn lemma_lines_add_their_pages(
    report: Seq<char>,
    from: int,
    split: int,
    start: int,
    end: int,
    pages: u64,
)
    requires
        0 <= from <= split < start <= end <= report.len(),
        report.subrange(from, split) == "Pages free"@ || report.subrange(from, split)
            == "Pages inactive"@ || report.subrange(from, split) == "Pages speculative"@
            || report.subrange(from, split) == "Pages purgeable"@,
        forall|i: int| from <= i < split ==> #[trigger] report[i] != ':',
        report[split] == ':',
        forall|i: int| split < i < start ==> scan::is_space(#[trigger] report[i]),
        scan::occurs_at(report, text::decimal(pages as nat), start),
        ({
            let stop = start + text::decimal(pages as nat).len();
            stop == end || stop + 1 == end && report[stop] == '.'
        }),
    ensures
        line_pages(report, from, end) == pages,
{
    let digits = text::decimal(pages as nat);
    let stop = start + digits.len();
    text::lemma_decimal_digits(pages as nat);
    colon_is_first(report, from, end, split);
    assert(report.subrange(start, stop)[0] == report[start]);
    assert(report.subrange(start, stop)[digits.len() - 1] == report[stop - 1]);
    decimals_are_no_space(pages as nat, 0);
    decimals_are_no_space(pages as nat, digits.len() - 1);
    scan::lemma_values_lose_spaces_and_stops(report, split + 1, end, start, stop, end);
    text::lemma_decimal_round_trip(pages, u64::MAX);
}

/// Every line of a report is counted: the pages from a line on are its own and
/// those of all lines behind it.
pub proof fn lemma_every_line_is_counted(report: Seq<char>, from: int, end: int)
    requires
        scan::ends_line(report, from, end),
    ensures
        end < report.len() ==> pages_from(report, from) == line_pages(report, from, end)
            + pages_from(report, end + 1),
        from < end == report.len() ==> pages_from(report, from) == line_pages(report, from, end),
        from == report.len() ==> pages_from(report, from) == 0,
{
    scan::lemma_lines_end_at_the_first_feed(report, from, end);
}

/// macOS reports what can be had as the pages of all lines behind the first, times
/// the size of a page, as long as that can be counted in 64 bits.
pub proof fn lemma_pages_are_multiplied_by_their_size(report: Seq<char>, end: int, size: u64)
    requires
        page_size(report) == Some(size),
        scan::ends_line(report, 0, end),
        pages_from(report, end + 1) <= u64::MAX,
    ensures
        pages_from(report, end + 1) * size <= u64::MAX ==> vm_stat_bytes(report) == Some(
            (pages_from(report, end + 1) * size) as u64,
        ),
        pages_from(report, end + 1) * size > u64::MAX ==> vm_stat_bytes(report) is None,
{
    scan::lemma_lines_end_at_the_first_feed(report, 0, end);
}

/// The size of a page is the number behind `page size of ` in the first line.
pub proof fn lemma_page_sizes_are_read(report: Seq<char>, end: int, at: int, size: u64)
    requires
        scan::ends_line(report, 0, end),
        scan::is_first(report.take(end), "page size of "@, 0, at),
        scan::is_absent(report.take(end), "page size of "@, at + "page size of "@.len()),
        scan::occurs_at(
            report.take(end),
            text::decimal(size as nat),
            at + "page size of "@.len(),
        ),
        ({
            let stop = at + "page size of "@.len() + text::decimal(size as nat).len();
            stop == end || scan::is_space(report[stop])
        }),
    ensures
        page_size(report) == Some(size),
{
    let line = report.take(end);
    let label = "page size of "@;
    let start = at + label.len();
    let digits = text::decimal(size as nat);
    let stop = start + digits.len();
    scan::lemma_lines_end_at_the_first_feed(report, 0, end);
    text::lemma_decimal_digits(size as nat);
    let chosen = choose|chosen: int| scan::is_first(line, label, 0, chosen);
    scan::lemma_first_is_unique(line, label, 0, at, chosen);
    assert forall|i: int| start <= i < stop implies !scan::is_space(#[trigger] line[i]) by {
        assert(line.subrange(start, stop)[i - start] == line[i]);
        decimals_are_no_space(size as nat, i - start);
    }
    if stop < end {
        assert(line[stop] == report[stop]);
    }
    scan::lemma_first_word_stands_between_spaces(line, start, end, start, stop);
    text::lemma_decimal_round_trip(size, u64::MAX);
}

} // verus!
