//! Counting a run of messages, and what holds of the outcome.

use vstd::prelude::*;
use vstd::seq_lib::{lemma_fold_left_permutation, to_multiset_contains};
use crate::message::{count_one, lemma_note, message_sender, note_map, parsed_headers};
use crate::table::{count_of, is_table, rows_map, rows_total};

verus! {

/// The outcome of counting the given messages one after the other: the
/// rows, and whether every message was parsed. Counting stops at the
/// first message that the parser rejects, with the rows as they were
/// then.
pub open spec fn scan(rows: Seq<(Seq<char>, nat)>, files: Seq<Seq<u8>>) -> (
    Seq<(Seq<char>, nat)>,
    bool,
)
    decreases files.len(),
{
    if files.len() == 0 {
        (rows, true)
    } else {
        let before = scan(rows, files.drop_last());
        if before.1 {
            count_one(before.0, files.last())
        } else {
            before
        }
    }
}

/// Counting two runs of messages one after the other is counting the
/// first run and, if all of it was parsed, the second from there.
pub proof fn lemma_scan_concat(rows: Seq<(Seq<char>, nat)>, a: Seq<Seq<u8>>, b: Seq<Seq<u8>>)
    ensures
        scan(rows, a + b) == if scan(rows, a).1 {
            scan(scan(rows, a).0, b)
        } else {
            (scan(rows, a).0, false)
        },
    decreases b.len(),
{
    if b.len() == 0 {
        assert(a + b =~= a);
    } else {
        assert((a + b).last() == b.last());
        assert((a + b).drop_last() =~= a + b.drop_last());
        lemma_scan_concat(rows, a, b.drop_last());
    }
}

/// Counting a run of one message is counting that message.
pub proof fn lemma_scan_one(rows: Seq<(Seq<char>, nat)>, raw: Seq<u8>)
    ensures
        scan(rows, seq![raw]) == count_one(rows, raw),
{
    let files = seq![raw];
    assert(files.last() == raw);
    assert(files.drop_last().len() == 0);
    assert(scan(rows, files.drop_last()) == (rows, true));
}

/// Counting keeps the rows a table and adds at most one to the sum of
/// the counts for each message.
pub proof fn lemma_scan_bound(rows: Seq<(Seq<char>, nat)>, files: Seq<Seq<u8>>)
    requires
        is_table(rows),
    ensures
        is_table(scan(rows, files).0),
        rows_total(rows) <= rows_total(scan(rows, files).0) <= rows_total(rows) + files.len(),
    decreases files.len(),
{
    if files.len() > 0 {
        lemma_scan_bound(rows, files.drop_last());
        let before = scan(rows, files.drop_last());
        lemma_note(before.0, message_sender(files.last()));
    }
}

/// When counting stops within a run of messages, it stops at the same
/// rows however the run goes on.
pub proof fn lemma_scan_stops(rows: Seq<(Seq<char>, nat)>, a: Seq<Seq<u8>>, whole: Seq<Seq<u8>>)
    requires
        a.is_prefix_of(whole),
        !scan(rows, a).1,
    ensures
        scan(rows, whole) == scan(rows, a),
{
    let rest = whole.subrange(a.len() as int, whole.len() as int);
    assert(whole =~= a + rest);
    lemma_scan_concat(rows, a, rest);
}

/// Every message of a run is parsed if and only if the parser accepts
/// each of them.
pub proof fn lemma_scan_parses_all(rows: Seq<(Seq<char>, nat)>, files: Seq<Seq<u8>>)
    ensures
        scan(rows, files).1 <==> forall|i: int|
            0 <= i < files.len() ==> parsed_headers(#[trigger] files[i]) is Some,
    decreases files.len(),
{
    if files.len() > 0 {
        lemma_scan_parses_all(rows, files.drop_last());
        let head = files.drop_last();
        if scan(rows, files).1 {
            assert forall|i: int| 0 <= i < files.len() implies parsed_headers(
                #[trigger] files[i],
            ) is Some by {
                if i < head.len() {
                    assert(head[i] == files[i]);
                }
            }
        } else if scan(rows, head).1 {
            assert(parsed_headers(files[files.len() - 1]) is None);
        } else {
            let i = choose|i: int| 0 <= i < head.len() && !(parsed_headers(
                #[trigger] head[i],
            ) is Some);
            assert(head[i] == files[i]);
        }
    }
}

/// After a run in which every message was parsed, the sum of all counts
/// has grown by the number of messages that have a sender: a message
/// without one adds to no count.
pub proof fn lemma_scan_total(rows: Seq<(Seq<char>, nat)>, files: Seq<Seq<u8>>)
    requires
        is_table(rows),
        scan(rows, files).1,
    ensures
        rows_total(scan(rows, files).0) == rows_total(rows) + files.filter(
            |raw: Seq<u8>| message_sender(raw) is Some,
        ).len(),
    decreases files.len(),
{
    let has_sender = |raw: Seq<u8>| message_sender(raw) is Some;
    if files.len() == 0 {
        assert(files.filter(has_sender).len() == 0) by {
            files.lemma_filter_len(has_sender);
        }
    } else {
        let head = files.drop_last();
        lemma_scan_total(rows, head);
        lemma_scan_bound(rows, head);
        assert(head.push(files.last()) =~= files);
        head.lemma_filter_len_push(has_sender, files.last());
        lemma_note(scan(rows, head).0, message_sender(files.last()));
    }
}

/// After a run in which every message was parsed, the count of each key
/// has grown by the number of messages whose sender is that key.
pub proof fn lemma_scan_count(rows: Seq<(Seq<char>, nat)>, files: Seq<Seq<u8>>, key: Seq<char>)
    requires
        is_table(rows),
        scan(rows, files).1,
    ensures
        count_of(scan(rows, files).0, key) == count_of(rows, key) + files.filter(
            |raw: Seq<u8>| message_sender(raw) == Some(key),
        ).len(),
    decreases files.len(),
{
    let sent_by = |raw: Seq<u8>| message_sender(raw) == Some(key);
    if files.len() == 0 {
        assert(files.filter(sent_by).len() == 0) by {
            files.lemma_filter_len(sent_by);
        }
    } else {
        let head = files.drop_last();
        lemma_scan_count(rows, head, key);
        lemma_scan_bound(rows, head);
        assert(head.push(files.last()) =~= files);
        head.lemma_filter_len_push(sent_by, files.last());
        lemma_note(scan(rows, head).0, message_sender(files.last()));
    }
}

/// After a run in which every message was parsed, the mapping is the
/// one that results from noting the sender of each message in turn.
pub proof fn lemma_scan_map(rows: Seq<(Seq<char>, nat)>, files: Seq<Seq<u8>>)
    requires
        is_table(rows),
        scan(rows, files).1,
    ensures
        rows_map(scan(rows, files).0) == files.fold_left(
            rows_map(rows),
            |m: Map<Seq<char>, nat>, raw: Seq<u8>| note_map(m, message_sender(raw)),
        ),
    decreases files.len(),
{
    if files.len() > 0 {
        let head = files.drop_last();
        lemma_scan_map(rows, head);
        lemma_scan_bound(rows, head);
        lemma_note(scan(rows, head).0, message_sender(files.last()));
    }
}

/// The order in which the messages are counted does not matter: two runs
/// of the same messages, each as often in the one as in the other, are
/// parsed in full or not together, and if they are, they end in the same
/// mapping from key to count. The order of the rows may differ.
pub proof fn lemma_scan_order(
    rows: Seq<(Seq<char>, nat)>,
    files: Seq<Seq<u8>>,
    shuffled: Seq<Seq<u8>>,
)
    requires
        is_table(rows),
        files.to_multiset() == shuffled.to_multiset(),
    ensures
        scan(rows, files).1 == scan(rows, shuffled).1,
        scan(rows, files).1 ==> rows_map(scan(rows, files).0) == rows_map(
            scan(rows, shuffled).0,
        ),
{
    lemma_scan_parses_all(rows, files);
    lemma_scan_parses_all(rows, shuffled);
    assert forall|i: int| 0 <= i < files.len() && scan(rows, shuffled).1 implies parsed_headers(
        #[trigger] files[i],
    ) is Some by {
        to_multiset_contains(files, files[i]);
        to_multiset_contains(shuffled, files[i]);
        assert(files.contains(files[i]));
        let j = choose|j: int| 0 <= j < shuffled.len() && shuffled[j] == files[i];
        assert(parsed_headers(shuffled[j]) is Some);
    }
    assert forall|i: int| 0 <= i < shuffled.len() && scan(rows, files).1 implies parsed_headers(
        #[trigger] shuffled[i],
    ) is Some by {
        to_multiset_contains(files, shuffled[i]);
        to_multiset_contains(shuffled, shuffled[i]);
        assert(shuffled.contains(shuffled[i]));
        let j = choose|j: int| 0 <= j < files.len() && files[j] == shuffled[i];
        assert(parsed_headers(files[j]) is Some);
    }
    if scan(rows, files).1 {
        let f = |m: Map<Seq<char>, nat>, raw: Seq<u8>| note_map(m, message_sender(raw));
        assert forall|x: Seq<u8>, y: Seq<u8>, m: Map<Seq<char>, nat>| #[trigger]
            f(f(m, x), y) == f(f(m, y), x) by {
            assert(f(f(m, x), y) =~= f(f(m, y), x));
        }
        lemma_fold_left_permutation(files, shuffled, f, rows_map(rows));
        lemma_scan_map(rows, files);
        lemma_scan_map(rows, shuffled);
    }
}

} // verus!
