//! Records: what one line of a score file says, and how lines are read.
use crate::number::{
    integer_value, is_digit, is_integer, lemma_parse_integer, parse_i64, parse_integer, unsigned_part,
    NumberError,
};
use crate::text::{
    contents, lemma_split_concat, lemma_split_len, lemma_split_without_separator, split,
    split_at_each, to_chars, to_string, trim_end, trimmed_end,
};
use vstd::prelude::*;

verus! {

/// What one line says.
pub enum Record {
    /// A test was missed: the line holds a name only.
    Missed { name: Seq<char> },
    /// A test was completed: the line holds a name and a score.
    Scored { name: Seq<char>, score: int },
}

impl Record {
    /// The person whom the record is about.
    pub open spec fn name(self) -> Seq<char> {
        match self {
            Record::Missed { name } => name,
            Record::Scored { name, .. } => name,
        }
    }
}

/// A score read in from a file.
#[derive(Debug, PartialEq, Eq)]
pub enum Score {
    /// A missed test: only the name of the person is present.
    Name(String),
    /// A completed test: a name and a score.
    WithScore(String, i64),
}

impl View for Score {
    type V = Record;

    open spec fn view(&self) -> Record {
        match self {
            Score::Name(name) => Record::Missed { name: name@ },
            Score::WithScore(name, score) => Record::Scored { name: name@, score: *score as int },
        }
    }
}

/// What is wrong with a line whose score is not an integer.
pub struct Malformed {
    pub text: Seq<char>,
    pub reason: NumberError,
}

/// The error for a line that holds a colon but no integer after it:
/// the text that stands in place of the score, and why it is none.
#[derive(Debug, PartialEq, Eq)]
pub struct MalformedScore {
    pub text: String,
    pub reason: NumberError,
}

impl View for MalformedScore {
    type V = Malformed;

    open spec fn view(&self) -> Malformed {
        Malformed { text: self.text@, reason: self.reason }
    }
}

/// Why a text is no integer, in words.
pub open spec fn description(reason: NumberError) -> Seq<char> {
    match reason {
        NumberError::Empty => "cannot parse integer from empty string"@,
        NumberError::InvalidDigit => "invalid digit found in string"@,
        NumberError::PosOverflow => "number too large to fit in target type"@,
        NumberError::NegOverflow => "number too small to fit in target type"@,
    }
}

impl MalformedScore {
    /// The error as a message for people.
    pub fn message(&self) -> (out: String)
        ensures
            out@ == "Error parsing number: "@ + description(self.reason),
    {
        let mut out = String::from_str("Error parsing number: ");
        match self.reason {
            NumberError::Empty => out.append("cannot parse integer from empty string"),
            NumberError::InvalidDigit => out.append("invalid digit found in string"),
            NumberError::PosOverflow => out.append("number too large to fit in target type"),
            NumberError::NegOverflow => out.append("number too small to fit in target type"),
        }
        out
    }
}

/// What a line means.
///
/// A line without a colon is a missed test, and the whole line is the
/// name. Any other line is cut at every colon: the first field is the
/// name, the second must be an integer and is the score, and further
/// fields are not looked at. Nothing is trimmed.
pub open spec fn parse_line(line: Seq<char>) -> Result<Record, Malformed> {
    let fields = split(line, ':');
    if !line.contains(':') {
        Ok(Record::Missed { name: line })
    } else {
        match parse_integer(fields[1]) {
            Ok(score) => Ok(Record::Scored { name: fields[0], score }),
            Err(reason) => Err(Malformed { text: fields[1], reason }),
        }
    }
}

/// What a list of lines means: the records of all of them in order, or
/// the error of the first line that has one.
pub open spec fn parse_lines(lines: Seq<Seq<char>>) -> Result<Seq<Record>, Malformed>
    decreases lines.len(),
{
    if lines.len() == 0 {
        Ok(Seq::empty())
    } else {
        match parse_lines(lines.drop_last()) {
            Err(error) => Err(error),
            Ok(records) => match parse_line(lines.last()) {
                Ok(record) => Ok(records.push(record)),
                Err(error) => Err(error),
            },
        }
    }
}

/// What the contents of a file mean: white space at the very end is
/// dropped, the rest is cut into lines at every line feed, and the lines
/// are read in order.
pub open spec fn parse_text(text: Seq<char>) -> Result<Seq<Record>, Malformed> {
    parse_lines(split(trim_end(text), '\n'))
}

/// What each score of a list says.
pub open spec fn records(scores: Seq<Score>) -> Seq<Record> {
    scores.map_values(|s: Score| s@)
}

impl Score {
    /// Reads one line.
    pub fn try_from(s: &str) -> (result: Result<Score, MalformedScore>)
        ensures
            match result {
                Ok(score) => parse_line(s@) == Ok::<Record, Malformed>(score@),
                Err(error) => parse_line(s@) == Err::<Record, Malformed>(error@),
            },
    {
        let chars = to_chars(s);
        Score::from_chars(chars.as_slice())
    }

    /// Reads one line that is given as characters.
    pub fn from_chars(line: &[char]) -> (result: Result<Score, MalformedScore>)
        ensures
            match result {
                Ok(score) => parse_line(line@) == Ok::<Record, Malformed>(score@),
                Err(error) => parse_line(line@) == Err::<Record, Malformed>(error@),
            },
    {
        let fields = split_at_each(line, ':');
        proof {
            lemma_split_len(line@, ':');
        }
        if fields.len() == 1 {
            Ok(Score::Name(to_string(line)))
        } else {
            match parse_i64(fields[1]) {
                Ok(score) => Ok(Score::WithScore(to_string(fields[0]), score)),
                Err(reason) => Err(MalformedScore { text: to_string(fields[1]), reason }),
            }
        }
    }
}

/// Reads the contents of a score file. The first line that cannot be
/// read ends the reading, and its error is all that is returned.
pub fn parse_contents(text: &str) -> (result: Result<Vec<Score>, MalformedScore>)
    ensures
        match result {
            Ok(scores) => parse_text(text@) == Ok::<Seq<Record>, Malformed>(records(scores@)),
            Err(error) => parse_text(text@) == Err::<Seq<Record>, Malformed>(error@),
        },
{
    let chars = to_chars(text);
    let kept = trimmed_end(chars.as_slice());
    let lines = split_at_each(kept, '\n');
    let ghost all = split(trim_end(text@), '\n');
    let mut scores: Vec<Score> = Vec::new();
    let mut i: usize = 0;
    assert(records(scores@) == Seq::<Record>::empty());
    while i < lines.len()
        invariant
            i <= lines.len(),
            all == split(trim_end(text@), '\n'),
            contents(lines@) == all,
            parse_lines(all.take(i as int)) == Ok::<Seq<Record>, Malformed>(records(scores@)),
        decreases lines.len() - i,
    {
        assert(all.take(i + 1).drop_last() == all.take(i as int));
        match Score::from_chars(lines[i]) {
            Ok(score) => {
                let ghost before = records(scores@);
                scores.push(score);
                assert(records(scores@) == before.push(score@));
            },
            Err(error) => {
                proof {
                    lemma_parse_lines_prefix(all, i + 1);
                }
                return Err(error);
            },
        }
        i += 1;
    }
    assert(all.take(i as int) == all);
    Ok(scores)
}

/// An error among the first lines is the error of the whole list.
pub proof fn lemma_parse_lines_prefix(lines: Seq<Seq<char>>, k: int)
    requires
        0 <= k <= lines.len(),
        parse_lines(lines.take(k)) is Err,
    ensures
        parse_lines(lines) == parse_lines(lines.take(k)),
    decreases lines.len(),
{
    if k < lines.len() {
        assert(lines.drop_last().take(k) == lines.take(k));
        lemma_parse_lines_prefix(lines.drop_last(), k);
    } else {
        assert(lines.take(k) == lines);
    }
}

/// Reading succeeds exactly if every line can be read, and then gives
/// the record of each line in its place; it fails with the error of the
/// first line that cannot be read.
pub proof fn lemma_parse_lines(lines: Seq<Seq<char>>)
    ensures
        match parse_lines(lines) {
            Ok(records) => {
                &&& records.len() == lines.len()
                &&& forall|i: int|
                    0 <= i < lines.len() ==> parse_line(#[trigger] lines[i]) == Ok::<
                        Record,
                        Malformed,
                    >(records[i])
            },
            Err(error) => exists|k: int|
                {
                    &&& 0 <= k < lines.len()
                    &&& #[trigger] parse_line(lines[k]) == Err::<Record, Malformed>(error)
                    &&& forall|j: int| 0 <= j < k ==> parse_line(#[trigger] lines[j]) is Ok
                },
        },
    decreases lines.len(),
{
    if lines.len() > 0 {
        let front = lines.drop_last();
        lemma_parse_lines(front);
        match parse_lines(front) {
            Err(error) => {
                let k = choose|k: int|
                    {
                        &&& 0 <= k < front.len()
                        &&& #[trigger] parse_line(front[k]) == Err::<Record, Malformed>(error)
                        &&& forall|j: int| 0 <= j < k ==> parse_line(#[trigger] front[j]) is Ok
                    };
                assert forall|j: int| 0 <= j < k implies parse_line(#[trigger] lines[j]) is Ok by {
                    assert(front[j] == lines[j]);
                }
            },
            Ok(records) => {
                assert forall|j: int| 0 <= j < front.len() implies parse_line(
                    #[trigger] lines[j],
                ) == Ok::<Record, Malformed>(records[j]) by {
                    assert(front[j] == lines[j]);
                }
                if parse_line(lines.last()) is Err {
                    assert(parse_line(lines[lines.len() - 1]) is Err);
                }
            },
        }
    }
}

/// A line without a colon is a missed test, and the line as it stands is
/// the name.
pub proof fn lemma_line_without_colon(line: Seq<char>)
    requires
        !line.contains(':'),
    ensures
        parse_line(line) == Ok::<Record, Malformed>(Record::Missed { name: line }),
{
}

/// The first two fields of a name without a colon, a colon and a text
/// without a colon are the name and the text.
proof fn lemma_line_fields(name: Seq<char>, text: Seq<char>)
    requires
        !name.contains(':'),
        !text.contains(':'),
    ensures
        (name.push(':') + text).contains(':'),
        split(name.push(':') + text, ':') == seq![name, text],
{
    let line = name.push(':') + text;
    assert(line[name.len() as int] == ':');
    lemma_split_concat(name, text, ':');
    lemma_split_without_separator(name, ':');
    lemma_split_without_separator(text, ':');
}

/// A name without a colon, a colon and an integer are a completed test
/// with that name and the integer's value as the score.
pub proof fn lemma_line_with_score(name: Seq<char>, text: Seq<char>)
    requires
        !name.contains(':'),
        is_integer(text),
    ensures
        parse_line(name.push(':') + text) == Ok::<Record, Malformed>(
            Record::Scored { name, score: integer_value(text) },
        ),
{
    let body = unsigned_part(text);
    if text.contains(':') {
        let k = choose|k: int| 0 <= k < text.len() && text[k] == ':';
        if body.len() == text.len() {
            assert(is_digit(body[k]));
        } else if k > 0 {
            assert(is_digit(body[k - 1]));
        }
    }
    lemma_line_fields(name, text);
    lemma_parse_integer(text);
}

/// A name without a colon, a colon and a text without a colon that is no
/// integer are an error that holds the text and says why it is none.
pub proof fn lemma_line_with_bad_score(name: Seq<char>, text: Seq<char>)
    requires
        !name.contains(':'),
        !text.contains(':'),
        !is_integer(text),
    ensures
        parse_integer(text) is Err,
        parse_line(name.push(':') + text) == Err::<Record, Malformed>(
            Malformed { text, reason: parse_integer(text)->Err_0 },
        ),
{
    lemma_line_fields(name, text);
    lemma_parse_integer(text);
}

} // verus!
