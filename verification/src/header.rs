//! Header fields, the sender classifier and the sender extractor.

use vstd::prelude::*;
use crate::text::str_eq;

verus! {

/// One header field of a message: its name and its raw value.
#[derive(Debug, PartialEq, Eq)]
pub struct Header {
    pub name: String,
    pub value: String,
}

/// A header field as contracts see it: the name, then the value.
pub type HeaderModel = (Seq<char>, Seq<char>);

impl DeepView for Header {
    type V = HeaderModel;

    open spec fn deep_view(&self) -> HeaderModel {
        (self.name@, self.value@)
    }
}

/// The field names that identify a sender. The match is exact: case
/// matters and nothing is trimmed.
pub open spec fn is_sender_name(name: Seq<char>) -> bool {
    ||| name == "From"@
    ||| name == "Sender"@
    ||| name == "Return-Path"@
    ||| name == "Reply-To"@
}

/// Whether `i` is the position of the earliest sender field in `headers`.
pub open spec fn is_first_sender(headers: Seq<HeaderModel>, i: int) -> bool {
    &&& 0 <= i < headers.len()
    &&& is_sender_name(headers[i].0)
    &&& forall|j: int| 0 <= j < i ==> !is_sender_name(#[trigger] headers[j].0)
}

/// The sender of a message: the value of its earliest sender field, if it
/// has one.
pub open spec fn sender_of(headers: Seq<HeaderModel>) -> Option<Seq<char>> {
    if exists|i: int| is_first_sender(headers, i) {
        Some(headers[choose|i: int| is_first_sender(headers, i)].1)
    } else {
        None
    }
}

/// At most one position is the earliest sender field.
pub proof fn lemma_first_sender_unique(headers: Seq<HeaderModel>, i: int, k: int)
    requires
        is_first_sender(headers, i),
        is_first_sender(headers, k),
    ensures
        i == k,
{
    if i < k {
        assert(!is_sender_name(headers[i].0));
    } else if k < i {
        assert(!is_sender_name(headers[k].0));
    }
}

/// Decides whether a header field names the sender of its message.
pub fn is_sender(h: &Header) -> (b: bool)
    ensures
        b == is_sender_name(h.name@),
{
    let name = h.name.as_str();
    if str_eq(name, "From") {
        return true;
    }
    if str_eq(name, "Sender") {
        return true;
    }
    if str_eq(name, "Return-Path") {
        return true;
    }
    if str_eq(name, "Reply-To") {
        return true;
    }
    false
}

/// Returns the value of the earliest sender field of a message, scanning
/// the fields in their given order and stopping at the first match.
pub fn extract_sender(headers: &Vec<Header>) -> (found: Option<String>)
    ensures
        match found {
            Some(v) => exists|i: int|
                is_first_sender(headers.deep_view(), i) && v@ == headers.deep_view()[i].1,
            None => forall|i: int|
                0 <= i < headers.len() ==> !is_sender_name(#[trigger] headers.deep_view()[i].0),
        },
        match found {
            Some(v) => sender_of(headers.deep_view()) == Some(v@),
            None => sender_of(headers.deep_view()) is None,
        },
{
    let ghost model = headers.deep_view();
    let mut i: usize = 0;
    while i < headers.len()
        invariant
            i <= headers.len(),
            model == headers.deep_view(),
            model.len() == headers.len(),
            forall|j: int| 0 <= j < i ==> !is_sender_name(#[trigger] model[j].0),
        decreases headers.len() - i,
    {
        assert(model[i as int] == headers[i as int].deep_view());
        if is_sender(&headers[i]) {
            let value = headers[i].value.clone();
            proof {
                assert(is_first_sender(model, i as int));
                let k = choose|k: int| is_first_sender(model, k);
                lemma_first_sender_unique(model, i as int, k);
            }
            return Some(value);
        }
        i += 1;
    }
    proof {
        assert forall|k: int| !is_first_sender(model, k) by {
            if 0 <= k < model.len() {
                assert(!is_sender_name(model[k].0));
            }
        }
    }
    None
}

} // verus!
