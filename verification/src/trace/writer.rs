//! Trace file formats.

use vstd::prelude::*;

verus! {

/// Output format for trace events.
#[derive(Debug, Clone, Copy, PartialEq, Eq, Structural)]
pub enum EventsFileFormat {
    Json,
    Protobuf,
}

/// The extension of a trace file of the given format.
pub open spec fn spec_extension(f: EventsFileFormat) -> Seq<char> {
    match f {
        EventsFileFormat::Json => "json"@,
        EventsFileFormat::Protobuf => "proto"@,
    }
}

/// ASCII case folding of a single character.
pub open spec fn ascii_lower(c: char) -> char {
    if 'A' <= c && c <= 'Z' {
        ((c as int) + 32) as char
    } else {
        c
    }
}

/// Equality of two strings ignoring ASCII case.
pub open spec fn eq_ignore_ascii_case(a: Seq<char>, b: Seq<char>) -> bool {
    a.len() == b.len() && forall|i: int| 0 <= i < a.len() ==> ascii_lower(#[trigger] a[i]) == ascii_lower(
        b[i],
    )
}

/// The format a name designates: `json` or `protobuf`, in any ASCII case.
pub open spec fn spec_format_named(s: Seq<char>) -> Option<EventsFileFormat> {
    if eq_ignore_ascii_case(s, "json"@) {
        Some(EventsFileFormat::Json)
    } else if eq_ignore_ascii_case(s, "protobuf"@) {
        Some(EventsFileFormat::Protobuf)
    } else {
        None
    }
}

fn lower(c: char) -> (r: char)
    ensures
        r == ascii_lower(c),
{
    if 'A' <= c && c <= 'Z' {
        let b: u8 = (c as u32 + 32) as u8;
        b as char
    } else {
        c
    }
}

fn same_ignoring_case(a: &[char], b: &[char]) -> (r: bool)
    ensures
        r == eq_ignore_ascii_case(a@, b@),
{
    if a.len() != b.len() {
        return false;
    }
    let mut i: usize = 0;
    while i < a.len()
        invariant
            a.len() == b.len(),
            i <= a.len(),
            forall|k: int| 0 <= k < i ==> ascii_lower(#[trigger] a@[k]) == ascii_lower(b@[k]),
        decreases a.len() - i,
    {
        if lower(a[i]) != lower(b[i]) {
            return false;
        }
        i += 1;
    }
    true
}

impl EventsFileFormat {
    /// The extension of a trace file of this format.
    pub fn extension(&self) -> (r: &'static str)
        ensures
            r@ == spec_extension(*self),
    {
        match self {
            EventsFileFormat::Json => "json",
            EventsFileFormat::Protobuf => "proto",
        }
    }

    /// The format named `s` (`json` or `protobuf`, in any ASCII case).
    pub fn from_name(s: &str) -> (r: Option<EventsFileFormat>)
        ensures
            r == spec_format_named(s@),
    {
        let name = crate::text::chars_of(s);
        let json = crate::text::chars_of("json");
        if same_ignoring_case(name.as_slice(), json.as_slice()) {
            return Some(EventsFileFormat::Json);
        }
        let protobuf = crate::text::chars_of("protobuf");
        if same_ignoring_case(name.as_slice(), protobuf.as_slice()) {
            return Some(EventsFileFormat::Protobuf);
        }
        None
    }
}

} // verus!
