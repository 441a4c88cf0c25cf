//! What can go wrong in a scan, and how it is told.

use vstd::prelude::*;

verus! {

/// The reasons for which a scan fails.
#[derive(Debug, Clone)]
pub enum ScanError {
    /// The path to scan does not exist.
    PathNotFound { path: String },
    /// The path to scan could not be resolved.
    Canonicalize { path: String, cause: String },
    /// The metadata of the path could not be read.
    Metadata { path: String, cause: String },
    /// A walk came back with a wrong number of results.
    ResultLength,
    /// The job queue was given up by a worker that failed.
    QueuePoisoned,
    /// The results were given up by a worker that failed.
    ResultsPoisoned,
    /// A worker failed.
    WorkerPanicked,
    /// No result was recorded for the path at this index.
    MissingResult { index: usize },
    /// What the workers reported.
    Failures { messages: Vec<String> },
}

/// The texts of `strings`.
pub open spec fn texts(strings: Seq<String>) -> Seq<Seq<char>> {
    strings.map_values(|s: String| s@)
}

/// The texts one after the other, with `separator` between them.
pub open spec fn joined(parts: Seq<Seq<char>>, separator: Seq<char>) -> Seq<char>
    decreases parts.len(),
{
    if parts.len() == 0 {
        Seq::empty()
    } else if parts.len() == 1 {
        parts[0]
    } else {
        joined(parts.drop_last(), separator) + separator + parts.last()
    }
}

/// The decimal digit for `value`.
pub open spec fn digit(value: int) -> Seq<char> {
    if value == 0 {
        "0"@
    } else if value == 1 {
        "1"@
    } else if value == 2 {
        "2"@
    } else if value == 3 {
        "3"@
    } else if value == 4 {
        "4"@
    } else if value == 5 {
        "5"@
    } else if value == 6 {
        "6"@
    } else if value == 7 {
        "7"@
    } else if value == 8 {
        "8"@
    } else {
        "9"@
    }
}

/// The number in decimal digits.
pub open spec fn decimal(value: int) -> Seq<char>
    decreases value,
{
    if value < 10 {
        digit(value)
    } else {
        decimal(value / 10) + digit(value % 10)
    }
}

/// The message that tells of an error.
pub open spec fn message_of(error: ScanError) -> Seq<char> {
    match error {
        ScanError::PathNotFound { path } => "Path not found: "@ + path@,
        ScanError::Canonicalize { path, cause } => "canonicalize error "@ + path@ + ": "@ + cause@,
        ScanError::Metadata { path, cause } => "metadata error "@ + path@ + ": "@ + cause@,
        ScanError::ResultLength => "scan result length mismatch"@,
        ScanError::QueuePoisoned => "queue lock poisoned"@,
        ScanError::ResultsPoisoned => "result lock poisoned"@,
        ScanError::WorkerPanicked => "worker thread panicked"@,
        ScanError::MissingResult { index } => "Missing scan result at index "@ + decimal(
            index as int,
        ),
        ScanError::Failures { messages } => joined(texts(messages@), "; "@),
    }
}

fn digit_text(value: usize) -> (text: &'static str)
    requires
        value < 10,
    ensures
        text@ == digit(value as int),
{
    if value == 0 {
        "0"
    } else if value == 1 {
        "1"
    } else if value == 2 {
        "2"
    } else if value == 3 {
        "3"
    } else if value == 4 {
        "4"
    } else if value == 5 {
        "5"
    } else if value == 6 {
        "6"
    } else if value == 7 {
        "7"
    } else if value == 8 {
        "8"
    } else {
        "9"
    }
}

fn decimal_text(value: usize) -> (text: String)
    ensures
        text@ == decimal(value as int),
    decreases value,
{
    if value < 10 {
        digit_text(value).to_owned()
    } else {
        decimal_text(value / 10).concat(digit_text(value % 10))
    }
}

/// Joins the messages with `separator` between them.
pub fn join_messages(messages: &Vec<String>, separator: &str) -> (text: String)
    ensures
        text@ == joined(texts(messages@), separator@),
{
    let mut text = String::new();
    let mut i: usize = 0;
    assert(texts(messages@).take(0) =~= Seq::<Seq<char>>::empty());
    while i < messages.len()
        invariant
            i <= messages@.len(),
            text@ == joined(texts(messages@).take(i as int), separator@),
        decreases messages.len() - i,
    {
        if i > 0 {
            text.append(separator);
        }
        text.append(messages[i].as_str());
        proof {
            let parts = texts(messages@);
            assert(parts.take(i + 1).drop_last() =~= parts.take(i as int));
            assert(parts.take(i + 1).last() == parts[i as int]);
            if i == 0 {
                assert(text@ =~= parts[0]);
            }
        }
        i = i + 1;
    }
    assert(texts(messages@).take(messages@.len() as int) =~= texts(messages@));
    text
}

impl ScanError {
    /// The message that tells of the error.
    pub fn message(&self) -> (text: String)
        ensures
            text@ == message_of(*self),
    {
        match self {
            ScanError::PathNotFound { path } => "Path not found: ".to_owned().concat(path.as_str()),
            ScanError::Canonicalize { path, cause } => "canonicalize error ".to_owned().concat(
                path.as_str(),
            ).concat(": ").concat(cause.as_str()),
            ScanError::Metadata { path, cause } => "metadata error ".to_owned().concat(
                path.as_str(),
            ).concat(": ").concat(cause.as_str()),
            ScanError::ResultLength => "scan result length mismatch".to_owned(),
            ScanError::QueuePoisoned => "queue lock poisoned".to_owned(),
            ScanError::ResultsPoisoned => "result lock poisoned".to_owned(),
            ScanError::WorkerPanicked => "worker thread panicked".to_owned(),
            ScanError::MissingResult { index } => "Missing scan result at index ".to_owned().concat(
                decimal_text(*index).as_str(),
            ),
            ScanError::Failures { messages } => join_messages(messages, "; "),
        }
    }
}

/// Each error has its message, which tells the path and the cause whole, where there are
/// any.
pub proof fn law_messages_tell_path_and_cause(path: String, cause: String, index: usize)
    ensures
        message_of(ScanError::PathNotFound { path }) == "Path not found: "@ + path@,
        message_of(ScanError::Canonicalize { path, cause }) == "canonicalize error "@ + path@
            + ": "@ + cause@,
        message_of(ScanError::Metadata { path, cause }) == "metadata error "@ + path@ + ": "@
            + cause@,
        message_of(ScanError::ResultLength) == "scan result length mismatch"@,
        message_of(ScanError::QueuePoisoned) == "queue lock poisoned"@,
        message_of(ScanError::ResultsPoisoned) == "result lock poisoned"@,
        message_of(ScanError::WorkerPanicked) == "worker thread panicked"@,
        message_of(ScanError::MissingResult { index }) == "Missing scan result at index "@
            + decimal(index as int),
{
}

/// The message of several failures is their messages, one after the other.
pub proof fn law_failures_are_joined(messages: Vec<String>)
    ensures
        message_of(ScanError::Failures { messages }) == joined(texts(messages@), "; "@),
        texts(messages@).len() == messages@.len(),
        forall|i: int|
            0 <= i < messages@.len() ==> texts(messages@)[i] == (#[trigger] messages@[i])@,
{
}

/// Joined texts are whole: one text is itself, and each further one comes after a separator.
pub proof fn law_joined_texts_are_whole(parts: Seq<Seq<char>>, last: Seq<char>, separator: Seq<char>)
    ensures
        joined(Seq::empty(), separator).len() == 0,
        parts.len() == 0 ==> joined(parts.push(last), separator) == last,
        parts.len() > 0 ==> joined(parts.push(last), separator) == joined(parts, separator)
            + separator + last,
{
    assert(parts.push(last).drop_last() =~= parts);
}

/// The number that a text of decimal digits stands for.
pub open spec fn number_read(text: Seq<char>) -> int
    decreases text.len(),
{
    if text.len() == 0 {
        0
    } else {
        number_read(text.drop_last()) * 10 + (text.last() as int - '0' as int)
    }
}

/// A number is written in decimal digits that read back as the number, without a leading
/// zero.
pub proof fn law_numbers_read_back(value: int)
    requires
        0 <= value,
    ensures
        number_read(decimal(value)) == value,
        decimal(value).len() > 0,
        forall|i: int|
            0 <= i < decimal(value).len() ==> '0' as int <= #[trigger] decimal(value)[i] as int
                <= '9' as int,
        value > 0 ==> decimal(value)[0] != '0',
        value == 0 ==> decimal(value).len() == 1,
    decreases value,
{
    reveal_strlit("0");
    reveal_strlit("1");
    reveal_strlit("2");
    reveal_strlit("3");
    reveal_strlit("4");
    reveal_strlit("5");
    reveal_strlit("6");
    reveal_strlit("7");
    reveal_strlit("8");
    reveal_strlit("9");
    if value < 10 {
        let text = digit(value);
        assert(text.len() == 1);
        assert(text.drop_last() =~= Seq::<char>::empty());
        assert(number_read(text.drop_last()) == 0);
    } else {
        law_numbers_read_back(value / 10);
        let last = digit(value % 10);
        assert(last.len() == 1);
        assert(decimal(value).drop_last() =~= decimal(value / 10));
        assert(decimal(value).last() == last[0]);
        assert forall|i: int| 0 <= i < decimal(value).len() implies '0' as int
            <= #[trigger] decimal(value)[i] as int <= '9' as int by {
            if i < decimal(value / 10).len() {
                assert(decimal(value)[i] == decimal(value / 10)[i]);
            }
        }
    }
}

} // verus!
