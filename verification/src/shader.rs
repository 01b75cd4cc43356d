//! The shader source: which parts of it a device is given.

use crate::scan;
use crate::solver::{ErrorKind, SolveError};
use vstd::prelude::*;

verus! {

/// The source with the portable node function replaced by a native one: what
/// stands before the end of the first begin marker, the native function on new
/// lines, and what stands from the first end marker on.
pub open spec fn spliced(source: Seq<char>, native: Seq<char>, begin: int, end: int) -> Seq<char> {
    source.take(begin + "// SIPHASH_ENDPOINT_BEGIN"@.len()) + "\n"@ + native + source.skip(end)
}

/// Whether a result is the source that a device is given.
pub open spec fn is_shader(
    source: Seq<char>,
    native: Seq<char>,
    native_int64: bool,
    result: Result<String, SolveError>,
) -> bool {
    let begin_marker = "// SIPHASH_ENDPOINT_BEGIN"@;
    let end_marker = "// SIPHASH_ENDPOINT_END"@;
    if !native_int64 {
        result matches Ok(text) && text@ == source
    } else if scan::is_absent(source, begin_marker, 0) {
        result matches Err(error) && error@ == (ErrorKind::Gpu, "missing SipHash begin marker"@)
    } else if scan::is_absent(source, end_marker, 0) {
        result matches Err(error) && error@ == (ErrorKind::Gpu, "missing SipHash end marker"@)
    } else {
        &&& result matches Ok(text)
        &&& forall|begin: int, end: int|
            #![trigger scan::is_first(source, begin_marker, 0, begin), scan::is_first(source, end_marker, 0, end)]
            scan::is_first(source, begin_marker, 0, begin) && scan::is_first(
                source,
                end_marker,
                0,
                end,
            ) ==> text@ == spliced(source, native, begin, end)
    }
}

/// The source that a device is given: as it is, or with a native node function
/// where the device computes in 64 bits.
pub fn shader_source(source: &str, native: &str, native_int64: bool) -> (result: Result<
    String,
    SolveError,
>)
    ensures
        is_shader(source@, native@, native_int64, result),
{
    if !native_int64 {
        return Ok(String::from_str(source));
    }
    let chars = scan::chars_of(source);
    let begin_marker = scan::chars_of("// SIPHASH_ENDPOINT_BEGIN");
    let end_marker = scan::chars_of("// SIPHASH_ENDPOINT_END");
    let begin = match scan::find(&chars, &begin_marker, 0) {
        Some(begin) => begin,
        None => {
            return Err(SolveError::Gpu(String::from_str("missing SipHash begin marker")));
        },
    };
    proof {
        scan::lemma_first_is_unique(chars@, begin_marker@, 0, begin as int, begin as int);
    }
    let end = match scan::find(&chars, &end_marker, 0) {
        Some(end) => end,
        None => {
            return Err(SolveError::Gpu(String::from_str("missing SipHash end marker")));
        },
    };
    assert(begin + begin_marker.len() <= chars.len());
    let mut text = String::from_str(source.substring_char(0, begin + begin_marker.len()));
    text.append("\n");
    text.append(native);
    text.append(source.substring_char(end, chars.len()));
    proof {
        assert(source@.subrange(0, begin + begin_marker@.len()) =~= source@.take(
            begin + begin_marker@.len(),
        ));
        assert(source@.subrange(end as int, chars@.len() as int) =~= source@.skip(end as int));
        scan::lemma_first_is_unique(chars@, end_marker@, 0, end as int, end as int);
        assert forall|b: int, e: int|
            #![trigger scan::is_first(source@, begin_marker@, 0, b), scan::is_first(source@, end_marker@, 0, e)]
            scan::is_first(source@, begin_marker@, 0, b) && scan::is_first(
                source@,
                end_marker@,
                0,
                e,
            ) implies text@ == spliced(source@, native@, b, e) by {
            scan::lemma_first_is_unique(chars@, begin_marker@, 0, begin as int, b);
            scan::lemma_first_is_unique(chars@, end_marker@, 0, end as int, e);
        }
    }
    Ok(text)
}

/// The source without its diagnostic kernels.  Each stands between two markers,
/// which go too.  Nothing where a marker is not closed.
pub open spec fn without_diagnostics(source: Seq<char>) -> Option<Seq<char>>
    decreases source.len(),
{
    let begin_marker = "// DIAGNOSTIC_KERNEL_BEGIN"@;
    let end_marker = "// DIAGNOSTIC_KERNEL_END"@;
    if scan::is_absent(source, begin_marker, 0) {
        Some(source)
    } else {
        let begin = choose|begin: int| scan::is_first(source, begin_marker, 0, begin);
        if scan::is_absent(source, end_marker, begin) {
            None
        } else {
            let end = choose|end: int| scan::is_first(source, end_marker, begin, end);
            let shorter = source.take(begin) + source.skip(end + end_marker.len());
            if shorter.len() < source.len() {
                without_diagnostics(shorter)
            } else {
                None
            }
        }
    }
}

/// The source without its diagnostic kernels.
pub fn without_diagnostic_kernels(source: String) -> (result: Option<String>)
    ensures
        match result {
            Some(text) => without_diagnostics(source@) == Some(text@),
            None => without_diagnostics(source@) is None,
        },
{
    let begin_marker = scan::chars_of("// DIAGNOSTIC_KERNEL_BEGIN");
    let end_marker = scan::chars_of("// DIAGNOSTIC_KERNEL_END");
    let mut text = source;
    loop
        invariant
            begin_marker@ == "// DIAGNOSTIC_KERNEL_BEGIN"@,
            end_marker@ == "// DIAGNOSTIC_KERNEL_END"@,
            without_diagnostics(text@) == without_diagnostics(source@),
        decreases text@.len(),
    {
        let chars = scan::chars_of(text.as_str());
        let begin = match scan::find(&chars, &begin_marker, 0) {
            Some(begin) => begin,
            None => {
                return Some(text);
            },
        };
        proof {
            let b = choose|b: int| scan::is_first(text@, begin_marker@, 0, b);
            scan::lemma_first_is_unique(text@, begin_marker@, 0, begin as int, b);
        }
        let end = match scan::find(&chars, &end_marker, begin) {
            Some(end) => end,
            None => {
                return None;
            },
        };
        proof {
            let e = choose|e: int| scan::is_first(text@, end_marker@, begin as int, e);
            scan::lemma_first_is_unique(text@, end_marker@, begin as int, end as int, e);
            reveal_strlit("// DIAGNOSTIC_KERNEL_END");
        }
        assert(end + end_marker.len() <= chars.len());
        let rest: usize = end + end_marker.len();
        let mut shorter = String::from_str(text.as_str().substring_char(0, begin));
        shorter.append(text.as_str().substring_char(rest, chars.len()));
        assert(shorter@ =~= text@.take(begin as int) + text@.skip(rest as int));
        text = shorter;
    }
}

/// No diagnostic kernel is left.
pub proof fn lemma_no_diagnostics_left(source: Seq<char>)
    requires
        without_diagnostics(source) is Some,
    ensures
        scan::is_absent(without_diagnostics(source)->0, "// DIAGNOSTIC_KERNEL_BEGIN"@, 0),
    decreases source.len(),
{
    let begin_marker = "// DIAGNOSTIC_KERNEL_BEGIN"@;
    let end_marker = "// DIAGNOSTIC_KERNEL_END"@;
    if !scan::is_absent(source, begin_marker, 0) {
        let begin = choose|begin: int| scan::is_first(source, begin_marker, 0, begin);
        let end = choose|end: int| scan::is_first(source, end_marker, begin, end);
        lemma_no_diagnostics_left(source.take(begin) + source.skip(end + end_marker.len()));
    }
}

/// A source without diagnostic kernels stays as it is.
pub proof fn lemma_plain_source_stays(source: Seq<char>)
    requires
        scan::is_absent(source, "// DIAGNOSTIC_KERNEL_BEGIN"@, 0),
    ensures
        without_diagnostics(source) == Some(source),
{
}

/// A diagnostic kernel is cut out with its two marks and nothing else, and the
/// rest is gone through in the same way.  Without the second mark there is no
/// result.
pub proof fn lemma_diagnostics_are_cut_out(source: Seq<char>, begin: int, end: int)
    requires
        scan::is_first(source, "// DIAGNOSTIC_KERNEL_BEGIN"@, 0, begin),
    ensures
        scan::is_first(source, "// DIAGNOSTIC_KERNEL_END"@, begin, end) ==> without_diagnostics(
            source,
        ) == without_diagnostics(
            source.take(begin) + source.skip(end + "// DIAGNOSTIC_KERNEL_END"@.len()),
        ),
        scan::is_absent(source, "// DIAGNOSTIC_KERNEL_END"@, begin) ==> without_diagnostics(source)
            is None,
{
    let begin_marker = "// DIAGNOSTIC_KERNEL_BEGIN"@;
    let end_marker = "// DIAGNOSTIC_KERNEL_END"@;
    reveal_strlit("// DIAGNOSTIC_KERNEL_END");
    let chosen = choose|chosen: int| scan::is_first(source, begin_marker, 0, chosen);
    scan::lemma_first_is_unique(source, begin_marker, 0, begin, chosen);
    if scan::is_first(source, end_marker, begin, end) {
        let closed = choose|closed: int| scan::is_first(source, end_marker, begin, closed);
        scan::lemma_first_is_unique(source, end_marker, begin, end, closed);
    }
}

/// The native endpoint stands in place of what was between the marks: all before
/// the first mark's end and all from the second mark on is kept.
pub proof fn lemma_native_endpoints_replace_what_is_marked(
    source: Seq<char>,
    native: Seq<char>,
    begin: int,
    end: int,
)
    requires
        scan::occurs_at(source, "// SIPHASH_ENDPOINT_BEGIN"@, begin),
        scan::occurs_at(source, "// SIPHASH_ENDPOINT_END"@, end),
    ensures
        ({
            let head = begin + "// SIPHASH_ENDPOINT_BEGIN"@.len();
            let whole = spliced(source, native, begin, end);
            &&& whole.len() == head + 1 + native.len() + source.len() - end
            &&& whole.take(head) == source.take(head)
            &&& whole[head] == '\n'
            &&& whole.subrange(head + 1, head + 1 + native.len()) == native
            &&& whole.skip(head + 1 + native.len()) == source.skip(end)
        }),
{
    reveal_strlit("\n");
    let head = begin + "// SIPHASH_ENDPOINT_BEGIN"@.len();
    let whole = spliced(source, native, begin, end);
    assert(whole.take(head) =~= source.take(head));
    assert(whole.subrange(head + 1, head + 1 + native.len()) =~= native);
    assert(whole.skip(head + 1 + native.len()) =~= source.skip(end));
}

} // verus!
