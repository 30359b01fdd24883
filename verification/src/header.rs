//! The header of a document: the list of `- key: value` lines at its top.
use vstd::prelude::*;
use crate::errors::Error;
use crate::text::{
    chars_of, find_char, has_prefix, index_of, lowercase, same_text, starts_with, string_of, texts,
    to_lowercase, trim_range, trimmed,
};
use crate::tokens::{parse_multiple, parsed_field};

verus! {

/// The text up to its first line feed.
pub open spec fn first_line(text: Seq<char>) -> Seq<char> {
    text.take(index_of(text, '\n') as int)
}

/// The text after its first line feed; empty if it has none.
pub open spec fn after_first_line(text: Seq<char>) -> Seq<char> {
    if index_of(text, '\n') < text.len() {
        text.skip(index_of(text, '\n') as int + 1)
    } else {
        Seq::empty()
    }
}

/// What a header says of a document. A field is `None` where no line of the
/// header gives it.
pub struct Header {
    pub start_date: Option<Seq<char>>,
    pub feature_name: Option<Seq<Seq<char>>>,
    pub issues: Option<Seq<Seq<char>>>,
}

/// A header that says nothing.
pub open spec fn empty_header() -> Header {
    Header { start_date: None, feature_name: None, issues: None }
}

/// The key and the value of a header line. The line is trimmed and begins
/// with a dash. Its key is what stands between the dash and the first colon,
/// trimmed and in lower case; its value is what follows that colon, trimmed.
/// A line without a colon has neither.
pub open spec fn header_entry(line: Seq<char>) -> Option<(Seq<char>, Seq<char>)> {
    let body = trimmed(line.drop_first());
    let colon = index_of(body, ':');
    if colon < body.len() {
        Some((lowercase(trimmed(body.take(colon as int))), trimmed(body.skip(colon as int + 1))))
    } else {
        None
    }
}

/// The header `later` with one entry before it. The entry sets the field that
/// its key names, whatever `later` says of that field; an entry with another
/// key changes nothing.
pub open spec fn with_entry(later: Header, key: Seq<char>, value: Seq<char>) -> Header {
    if key == "start date"@ {
        Header { start_date: Some(value), ..later }
    } else if key == "feature name"@ {
        Header { feature_name: Some(parsed_field(value)), ..later }
    } else if key == "rust issue"@ || key == "tracking issues"@ {
        Header { issues: Some(parsed_field(value)), ..later }
    } else {
        later
    }
}

/// The header of a document's text, or `None` if a line of it is malformed.
///
/// The text is read line by line, each line trimmed. Empty lines are passed
/// over. The header ends before the first line that is not empty and does not
/// begin with "- ". Each line of the header must hold a colon. Where two
/// lines give the same field, the first one counts.
pub open spec fn header_of(text: Seq<char>) -> Option<Header>
    decreases text.len(),
{
    if text.len() == 0 {
        Some(empty_header())
    } else {
        let line = trimmed(first_line(text));
        let rest = after_first_line(text);
        if line.len() == 0 {
            header_of(rest)
        } else if !has_prefix(line, "- "@) {
            Some(empty_header())
        } else {
            match header_entry(line) {
                None => None,
                Some((key, value)) => match header_of(rest) {
                    None => None,
                    Some(later) => Some(with_entry(later, key, value)),
                },
            }
        }
    }
}

/// What a header says of a document.
#[derive(Debug)]
pub struct HeaderFields {
    pub start_date: Option<String>,
    pub feature_name: Option<Vec<String>>,
    pub issues: Option<Vec<String>>,
}

impl View for HeaderFields {
    type V = Header;

    open spec fn view(&self) -> Header {
        Header {
            start_date: match self.start_date {
                Some(s) => Some(s@),
                None => None,
            },
            feature_name: match self.feature_name {
                Some(l) => Some(texts(l@)),
                None => None,
            },
            issues: match self.issues {
                Some(l) => Some(texts(l@)),
                None => None,
            },
        }
    }
}

/// The header in which each field is taken from `first` where `first` gives
/// it, else from `later`.
pub open spec fn preferring(first: Header, later: Header) -> Header {
    Header {
        start_date: if first.start_date is Some {
            first.start_date
        } else {
            later.start_date
        },
        feature_name: if first.feature_name is Some {
            first.feature_name
        } else {
            later.feature_name
        },
        issues: if first.issues is Some {
            first.issues
        } else {
            later.issues
        },
    }
}

/// The header read so far, followed by what the rest of the text gives.
pub open spec fn continued(first: Header, rest: Option<Header>) -> Option<Header> {
    match rest {
        Some(later) => Some(preferring(first, later)),
        None => None,
    }
}

/// Reads one line of a header, which is trimmed and begins with a dash, and
/// enters it into `fields` unless they give its field already.
fn read_entry(fields: &mut HeaderFields, line: &Vec<char>) -> (r: Result<(), Error>)
    requires
        line.len() >= 1,
    ensures
        match r {
            Ok(_) => header_entry(line@) matches Some((key, value)) && forall|later: Header|
                preferring(old(fields)@, #[trigger] with_entry(later, key, value)) == preferring(
                    final(fields)@,
                    later,
                ),
            Err(e) => header_entry(line@) is None && e == Error::Parse && *final(fields) == *old(
                fields,
            ),
        },
{
    let body = trim_range(line, 1, line.len());
    let colon = find_char(&body, 0, body.len(), ':');
    assert(body@.subrange(0, body@.len() as int) == body@);
    if colon >= body.len() {
        return Err(Error::Parse);
    }
    let key_chars = trim_range(&body, 0, colon);
    let key = to_lowercase(string_of(&key_chars).as_str());
    let value = string_of(&trim_range(&body, colon + 1, body.len()));
    if same_text(key.as_str(), "start date") {
        if fields.start_date.is_none() {
            fields.start_date = Some(value);
        }
    } else if same_text(key.as_str(), "feature name") {
        if fields.feature_name.is_none() {
            fields.feature_name = Some(parse_multiple(value.as_str()));
        }
    } else if same_text(key.as_str(), "rust issue") || same_text(key.as_str(), "tracking issues") {
        if fields.issues.is_none() {
            fields.issues = Some(parse_multiple(value.as_str()));
        }
    }
    Ok(())
}

/// Reads the header of a document from its text. Fails with `Error::Parse`
/// if a line of the header holds no colon.
pub fn scan_header(text: &str) -> (r: Result<HeaderFields, Error>)
    ensures
        match r {
            Ok(fields) => header_of(text@) == Some(fields@),
            Err(e) => header_of(text@) is None && e == Error::Parse,
        },
{
    let chars = chars_of(text);
    let n = chars.len();
    let mut fields = HeaderFields { start_date: None, feature_name: None, issues: None };
    let bullet = chars_of("- ");
    let mut pos: usize = 0;
    assert(chars@.subrange(0, n as int) == text@);
    while pos < n
        invariant
            pos <= n == chars.len(),
            chars@ == text@,
            bullet@ == "- "@,
            header_of(text@) == continued(
                fields@,
                header_of(chars@.subrange(pos as int, n as int)),
            ),
        ensures
            header_of(text@) == Some(fields@),
        decreases n - pos,
    {
        let ghost rest = chars@.subrange(pos as int, n as int);
        let end = find_char(&chars, pos, n, '\n');
        let next: usize = if end < n {
            end + 1
        } else {
            n
        };
        proof {
            assert(first_line(rest) == chars@.subrange(pos as int, end as int));
            assert(after_first_line(rest) == chars@.subrange(next as int, n as int));
        }
        let line = trim_range(&chars, pos, end);
        if line.len() == 0 {
            pos = next;
        } else if !starts_with(&line, &bullet) {
            break;
        } else {
            match read_entry(&mut fields, &line) {
                Ok(_) => {},
                Err(e) => {
                    return Err(e);
                },
            }
            pos = next;
        }
    }
    Ok(fields)
}

} // verus!
