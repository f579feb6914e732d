//! Messages: parsing the raw bytes of one and counting its sender.

use vstd::prelude::*;
use mailparse::MailParseError;
use crate::header::{extract_sender, sender_of, Header};
use crate::table::{
    bump_rows,
    count_of,
    is_table,
    lemma_bump_rows,
    rows_map,
    rows_total,
    CountTable,
};

verus! {

/// The error of the message parser, carried through as it came.
#[verifier::external_type_specification]
#[verifier::external_body]
pub struct ExMailParseError(MailParseError);

/// The header fields that the message parser reads from the raw bytes of
/// a message, in the order in which they stand there; `None` for bytes
/// that it rejects.
pub uninterp spec fn parsed_headers(raw: Seq<u8>) -> Option<Seq<(Seq<char>, Seq<char>)>>;

/// A message that the parser rejected, with the parser's own error.
#[derive(Debug)]
pub struct ParseFailure {
    pub cause: MailParseError,
}

/// The rows after a message with the given sender was counted: a message
/// without a sender leaves them as they were.
pub open spec fn note(rows: Seq<(Seq<char>, nat)>, sender: Option<Seq<char>>) -> Seq<
    (Seq<char>, nat),
> {
    match sender {
        Some(key) => bump_rows(rows, key),
        None => rows,
    }
}

/// The mapping from key to count after a message with the given sender
/// was counted.
pub open spec fn note_map(m: Map<Seq<char>, nat>, sender: Option<Seq<char>>) -> Map<
    Seq<char>,
    nat,
> {
    match sender {
        Some(key) => m.insert(
            key,
            if m.contains_key(key) {
                m[key] + 1
            } else {
                1
            },
        ),
        None => m,
    }
}

/// A message adds at most one to the count of at most one key: noting a
/// sender keeps the rows a table, raises the count of that sender and the
/// sum of all counts by one and leaves every other count as it was;
/// noting none changes nothing. The mapping that the rows stand for
/// changes in step.
pub proof fn lemma_note(rows: Seq<(Seq<char>, nat)>, sender: Option<Seq<char>>)
    requires
        is_table(rows),
    ensures
        is_table(note(rows, sender)),
        rows_total(note(rows, sender)) == rows_total(rows) + if sender is Some {
            1nat
        } else {
            0nat
        },
        forall|key: Seq<char>|
            count_of(note(rows, sender), key) == count_of(rows, key) + if sender == Some(key) {
                1nat
            } else {
                0nat
            },
        rows_map(note(rows, sender)) == note_map(rows_map(rows), sender),
{
    match sender {
        Some(sent) => {
            lemma_bump_rows(rows, sent);
        },
        None => {},
    }
}

/// The sender of the message in the given bytes; `None` for a message
/// without a sender field and for bytes that the parser rejects.
pub open spec fn message_sender(raw: Seq<u8>) -> Option<Seq<char>> {
    match parsed_headers(raw) {
        Some(headers) => sender_of(headers),
        None => None,
    }
}

/// The outcome of counting one message: the rows, and whether the
/// message was parsed. A message that the parser rejects leaves the rows
/// as they were.
pub open spec fn count_one(rows: Seq<(Seq<char>, nat)>, raw: Seq<u8>) -> (
    Seq<(Seq<char>, nat)>,
    bool,
) {
    match parsed_headers(raw) {
        Some(headers) => (note(rows, sender_of(headers)), true),
        None => (rows, false),
    }
}

/// Parses the raw bytes of a message into its header fields.
///
/// Calls `mailparse::parse_mail` and reads every field of the top-level
/// header block through `MailHeader::get_key` and `MailHeader::get_value`.
/// The contract claims that these depend on the bytes alone, so that the
/// outcome is the one value `parsed_headers` of them, and that the call
/// returns for every byte string. What the fields hold is not stated.
#[verifier::external_body]
fn parse_headers(raw: &[u8]) -> (parsed: Result<Vec<Header>, MailParseError>)
    ensures
        match parsed {
            Ok(headers) => parsed_headers(raw@) == Some(headers.deep_view()),
            Err(_) => parsed_headers(raw@) is None,
        },
{
    let mail = mailparse::parse_mail(raw)?;
    Ok(mail.headers.iter().map(|h| Header { name: h.get_key(), value: h.get_value() }).collect())
}

/// Parses the raw bytes of a message into its header fields, in the
/// order in which they stand in the message.
pub fn parse_message(raw: &[u8]) -> (parsed: Result<Vec<Header>, ParseFailure>)
    ensures
        match parsed {
            Ok(headers) => parsed_headers(raw@) == Some(headers.deep_view()),
            Err(_) => parsed_headers(raw@) is None,
        },
{
    match parse_headers(raw) {
        Ok(headers) => Ok(headers),
        Err(cause) => Err(ParseFailure { cause }),
    }
}

/// Counts the sender of a message given by its header fields. Returns
/// whether the message had a sender; one without leaves the table as it
/// was.
pub fn count_headers(headers: &Vec<Header>, table: &mut CountTable) -> (counted: bool)
    requires
        old(table).wf(),
        sender_of(headers.deep_view()) is Some ==> rows_total(old(table)@) < u64::MAX,
    ensures
        final(table).wf(),
        final(table)@ == note(old(table)@, sender_of(headers.deep_view())),
        counted == sender_of(headers.deep_view()) is Some,
{
    match extract_sender(headers) {
        Some(sender) => {
            table.increment(sender);
            true
        },
        None => false,
    }
}

/// Parses the raw bytes of a message and counts its sender. Returns
/// whether the message had a sender; bytes that the parser rejects give
/// the error and leave the table untouched.
pub fn count_message(raw: &[u8], table: &mut CountTable) -> (outcome: Result<bool, ParseFailure>)
    requires
        old(table).wf(),
        rows_total(old(table)@) < u64::MAX,
    ensures
        final(table).wf(),
        (final(table)@, outcome is Ok) == count_one(old(table)@, raw@),
        match outcome {
            Ok(counted) => parsed_headers(raw@) matches Some(headers) && counted == sender_of(
                headers,
            ) is Some,
            Err(_) => *final(table) == *old(table),
        },
{
    match parse_message(raw) {
        Ok(headers) => Ok(count_headers(&headers, table)),
        Err(failure) => Err(failure),
    }
}

} // verus!
