//! Directory trees: which entries hold messages, and the walk that counts
//! the senders of all of them.

use vstd::prelude::*;
use vstd::multiset::Multiset;
use vstd::seq_lib::{lemma_fold_left_permutation, lemma_multiset_commutative};
use crate::message::{count_message, message_sender, ParseFailure};
use crate::scan::{
    lemma_scan_bound,
    lemma_scan_concat,
    lemma_scan_one,
    lemma_scan_order,
    lemma_scan_stops,
    lemma_scan_total,
    scan,
};
use crate::table::{is_table, rows_map, rows_total, CountTable};
use crate::text::str_eq;

verus! {

/// What a directory entry is.
#[derive(Clone, Copy, Debug, PartialEq, Eq, Structural)]
pub enum EntryKind {
    /// A regular file.
    File,
    /// A directory.
    Directory,
    /// Anything else: a dangling link, a device, a socket.
    Other,
}

/// What the walk does with a directory entry.
#[derive(Clone, Copy, Debug, PartialEq, Eq, Structural)]
pub enum Action {
    /// Read the file and count the sender of the message in it.
    Parse,
    /// Walk the entries of the directory.
    Descend,
    /// Pass over the entry.
    Skip,
}

/// Whether `i` is the position of the last dot of `name`.
pub open spec fn is_last_dot(name: Seq<char>, i: int) -> bool {
    &&& 0 <= i < name.len()
    &&& name[i] == '.'
    &&& forall|j: int| i < j < name.len() ==> name[j] != '.'
}

/// The extension of a file name: what follows its last dot. A name
/// without a dot has none, nor has one whose only dot is its first
/// character, nor the name `..`.
pub open spec fn extension_of(name: Seq<char>) -> Option<Seq<char>> {
    if name != ".."@ && exists|i: int| 0 < i && is_last_dot(name, i) {
        let i = choose|i: int| 0 < i && is_last_dot(name, i);
        Some(name.subrange(i + 1, name.len() as int))
    } else {
        None
    }
}

/// Whether a file of this name holds a message: its extension is `eml`,
/// in exactly this case.
pub open spec fn is_eml_name(name: Seq<char>) -> bool {
    extension_of(name) == Some("eml"@)
}

/// What the walk does with an entry of the given kind and name.
pub open spec fn route_of(kind: EntryKind, name: Seq<char>) -> Action {
    match kind {
        EntryKind::File => if is_eml_name(name) {
            Action::Parse
        } else {
            Action::Skip
        },
        EntryKind::Directory => Action::Descend,
        EntryKind::Other => Action::Skip,
    }
}

/// A name has at most one last dot.
proof fn lemma_last_dot_unique(name: Seq<char>, i: int, k: int)
    requires
        is_last_dot(name, i),
        is_last_dot(name, k),
    ensures
        i == k,
{
}

/// Decides whether the extension of a file name is `eml`. The name is
/// that of the entry within its directory, without the path that leads
/// to it.
pub fn has_eml_extension(name: &str) -> (b: bool)
    ensures
        b == is_eml_name(name@),
{
    let n: usize = name.unicode_len();
    proof {
        reveal_strlit(".eml");
        reveal_strlit("eml");
        reveal_strlit("..");
    }
    if n <= 4 {
        proof {
            if exists|i: int| 0 < i && is_last_dot(name@, i) {
                let i = choose|i: int| 0 < i && is_last_dot(name@, i);
                assert(name@.subrange(i + 1, n as int).len() < 3);
            }
        }
        return false;
    }
    let tail = name.substring_char(n - 4, n);
    let b = str_eq(tail, ".eml");
    proof {
        let at = n - 4;
        if b {
            assert(tail@[0] == '.' && tail@[1] == 'e' && tail@[2] == 'm' && tail@[3] == 'l');
            assert(name@[at] == tail@[0]);
            assert(name@[at + 1] == tail@[1]);
            assert(name@[at + 2] == tail@[2]);
            assert(name@[at + 3] == tail@[3]);
            assert(is_last_dot(name@, at));
            let i = choose|i: int| 0 < i && is_last_dot(name@, i);
            lemma_last_dot_unique(name@, i, at);
            assert(name@.subrange(at + 1, n as int) =~= "eml"@);
        } else {
            if is_eml_name(name@) {
                let i = choose|i: int| 0 < i && is_last_dot(name@, i);
                let ext = name@.subrange(i + 1, n as int);
                assert(ext.len() == 3);
                assert(i == at);
                assert(ext[0] == 'e' && ext[1] == 'm' && ext[2] == 'l');
                assert(tail@ =~= ".eml"@);
            }
        }
    }
    b
}

/// Decides what the walk does with a directory entry: a regular file is
/// parsed if and only if its extension is `eml`, a directory is walked,
/// anything else is passed over.
pub fn route(kind: EntryKind, name: &str) -> (action: Action)
    ensures
        action == route_of(kind, name@),
{
    match kind {
        EntryKind::File => if has_eml_extension(name) {
            Action::Parse
        } else {
            Action::Skip
        },
        EntryKind::Directory => Action::Descend,
        EntryKind::Other => Action::Skip,
    }
}

/// An entry of a directory tree held in memory.
#[derive(Debug)]
pub enum Node {
    /// A regular file with its name and its full contents.
    File { name: String, contents: Vec<u8> },
    /// A directory with its name and its entries.
    Directory { name: String, entries: Vec<Node> },
    /// An entry that is neither.
    Other { name: String },
}

impl Node {
    /// The kind of the entry.
    pub open spec fn spec_kind(&self) -> EntryKind {
        match self {
            Node::File { .. } => EntryKind::File,
            Node::Directory { .. } => EntryKind::Directory,
            Node::Other { .. } => EntryKind::Other,
        }
    }

    /// The name of the entry.
    pub open spec fn spec_name(&self) -> Seq<char> {
        match self {
            Node::File { name, .. } => name@,
            Node::Directory { name, .. } => name@,
            Node::Other { name } => name@,
        }
    }

    /// The kind of the entry.
    pub fn kind(&self) -> (kind: EntryKind)
        ensures
            kind == self.spec_kind(),
    {
        match self {
            Node::File { .. } => EntryKind::File,
            Node::Directory { .. } => EntryKind::Directory,
            Node::Other { .. } => EntryKind::Other,
        }
    }

    /// The name of the entry.
    pub fn name(&self) -> (name: &str)
        ensures
            name@ == self.spec_name(),
    {
        match self {
            Node::File { name, .. } => name.as_str(),
            Node::Directory { name, .. } => name.as_str(),
            Node::Other { name } => name.as_str(),
        }
    }
}

/// The messages under one entry, in the order in which the walk reads
/// them: the contents of the entry itself if it is a file that holds a
/// message, the messages of its entries if it is a directory.
pub open spec fn node_files(node: Node) -> Seq<Seq<u8>>
    decreases node, 0nat,
{
    match node {
        Node::File { name, contents } => if is_eml_name(name@) {
            seq![contents@]
        } else {
            seq![]
        },
        Node::Directory { name, entries } => files_among(entries@, entries@.len()),
        Node::Other { name } => seq![],
    }
}

/// The messages under the first `n` of the given entries.
pub open spec fn files_among(entries: Seq<Node>, n: nat) -> Seq<Seq<u8>>
    decreases entries, n,
{
    if n == 0 || n > entries.len() {
        seq![]
    } else {
        files_among(entries, (n - 1) as nat) + node_files(entries[n - 1])
    }
}

/// The messages of a tree, at any depth.
pub open spec fn tree_files(entries: Seq<Node>) -> Seq<Seq<u8>> {
    files_among(entries, entries.len())
}

/// The messages under the first `k` entries come first among those under
/// the first `n`, for `k` up to `n`.
proof fn lemma_files_among_prefix(entries: Seq<Node>, k: nat, n: nat)
    requires
        k <= n <= entries.len(),
    ensures
        files_among(entries, k).is_prefix_of(files_among(entries, n)),
        files_among(entries, k).len() <= files_among(entries, n).len(),
    decreases n - k,
{
    if k < n {
        lemma_files_among_prefix(entries, k, (n - 1) as nat);
    }
}

/// The messages under the first `n` entries of a list are not changed
/// by what follows those entries.
proof fn lemma_files_among_concat(a: Seq<Node>, b: Seq<Node>, n: nat)
    requires
        n <= b.len(),
    ensures
        files_among(a + b, a.len() + n) == files_among(a, a.len()) + files_among(b, n),
        files_among(a + b, a.len()) == files_among(a, a.len()),
    decreases n,
{
    if n == 0 {
        lemma_files_among_same(a + b, a, a.len());
    } else {
        lemma_files_among_concat(a, b, (n - 1) as nat);
        assert((a + b)[a.len() + n - 1] == b[n - 1]);
    }
}

/// Two lists that agree on their first `n` entries hold the same
/// messages under those entries.
proof fn lemma_files_among_same(a: Seq<Node>, b: Seq<Node>, n: nat)
    requires
        n <= a.len(),
        n <= b.len(),
        forall|i: int| 0 <= i < n ==> a[i] == b[i],
    ensures
        files_among(a, n) == files_among(b, n),
    decreases n,
{
    if n > 0 {
        lemma_files_among_same(a, b, (n - 1) as nat);
    }
}

/// The messages of two lists of entries taken together are those of the
/// first list, then those of the second.
pub proof fn lemma_tree_files_concat(a: Seq<Node>, b: Seq<Node>)
    ensures
        tree_files(a + b) == tree_files(a) + tree_files(b),
{
    lemma_files_among_concat(a, b, b.len());
}

/// A single file holds one message, its contents, if its extension is
/// `eml`, and none otherwise; an entry that is neither file nor
/// directory holds none.
pub proof fn lemma_tree_files_leaf(node: Node)
    requires
        !(node is Directory),
    ensures
        tree_files(seq![node]) == match node {
            Node::File { name, contents } if is_eml_name(name@) => seq![contents@],
            _ => Seq::<Seq<u8>>::empty(),
        },
{
    let list = seq![node];
    assert(list[0] == node);
    assert(files_among(list, 0) =~= Seq::<Seq<u8>>::empty());
    assert(files_among(list, 1) =~= node_files(node));
}

/// Depth does not matter: a directory holds exactly the messages of its
/// entries, so a message is counted the same however deep it lies.
pub proof fn lemma_tree_files_nested(directory: Node, inner: Seq<Node>)
    requires
        directory matches Node::Directory { entries, .. } && entries@ == inner,
    ensures
        tree_files(seq![directory]) == tree_files(inner),
{
    let list = seq![directory];
    assert(list[0] == directory);
    assert(files_among(list, 0) =~= Seq::<Seq<u8>>::empty());
    assert(files_among(list, 1) =~= node_files(directory));
}

/// The messages of a list of entries, each as often as it occurs, are
/// gathered entry by entry.
proof fn lemma_tree_files_bag(entries: Seq<Node>)
    ensures
        tree_files(entries).to_multiset() == entries.fold_left(
            Multiset::<Seq<u8>>::empty(),
            |bag: Multiset<Seq<u8>>, node: Node| bag.add(node_files(node).to_multiset()),
        ),
    decreases entries.len(),
{
    if entries.len() == 0 {
        let none = tree_files(entries);
        assert(none + none =~= none);
        lemma_multiset_commutative(none, none);
        assert(none.to_multiset() =~= Multiset::<Seq<u8>>::empty());
    } else {
        let head = entries.drop_last();
        lemma_tree_files_bag(head);
        lemma_files_among_same(entries, head, head.len());
        lemma_multiset_commutative(tree_files(head), node_files(entries.last()));
    }
}

/// The order of the entries of a directory does not matter for which
/// messages it holds: two lists of the same entries hold the same
/// messages, each as often in the one as in the other.
pub proof fn lemma_tree_files_order(entries: Seq<Node>, shuffled: Seq<Node>)
    requires
        entries.to_multiset() == shuffled.to_multiset(),
    ensures
        tree_files(entries).to_multiset() == tree_files(shuffled).to_multiset(),
{
    let f = |bag: Multiset<Seq<u8>>, node: Node| bag.add(node_files(node).to_multiset());
    assert forall|x: Node, y: Node, bag: Multiset<Seq<u8>>| #[trigger]
        f(f(bag, x), y) == f(f(bag, y), x) by {
        assert(f(f(bag, x), y) =~= f(f(bag, y), x));
    }
    lemma_fold_left_permutation(entries, shuffled, f, Multiset::<Seq<u8>>::empty());
    lemma_tree_files_bag(entries);
    lemma_tree_files_bag(shuffled);
}

/// Walking the same entries in another order ends in the same counts:
/// both walks parse every message or both stop at one that the parser
/// rejects, and if they parse every message they end in the same mapping
/// from key to count. The order of the rows may differ.
pub proof fn lemma_walk_order(
    rows: Seq<(Seq<char>, nat)>,
    entries: Seq<Node>,
    shuffled: Seq<Node>,
)
    requires
        is_table(rows),
        entries.to_multiset() == shuffled.to_multiset(),
    ensures
        scan(rows, tree_files(entries)).1 == scan(rows, tree_files(shuffled)).1,
        scan(rows, tree_files(entries)).1 ==> rows_map(scan(rows, tree_files(entries)).0)
            == rows_map(scan(rows, tree_files(shuffled)).0),
{
    lemma_tree_files_order(entries, shuffled);
    lemma_scan_order(rows, tree_files(entries), tree_files(shuffled));
}

/// Counts the messages of a tree, at any depth: the regular files whose
/// extension is `eml`, whether or not they turn out to have a sender.
/// Returns `None` if there are more than the counter can hold.
pub fn count_message_files(entries: &Vec<Node>) -> (found: Option<u64>)
    ensures
        match found {
            Some(n) => n == tree_files(entries@).len(),
            None => tree_files(entries@).len() > u64::MAX,
        },
    decreases entries,
{
    let mut n: u64 = 0;
    let mut i: usize = 0;
    while i < entries.len()
        invariant
            i <= entries.len(),
            n == files_among(entries@, i as nat).len(),
        decreases entries.len() - i,
    {
        let node = &entries[i];
        proof {
            lemma_files_among_prefix(entries@, (i + 1) as nat, entries@.len());
            assert(files_among(entries@, (i + 1) as nat) == files_among(entries@, i as nat)
                + node_files(*node));
        }
        let here: Option<u64> = match route(node.kind(), node.name()) {
            Action::Parse => Some(1),
            Action::Descend => match node {
                Node::Directory { name, entries: inner } => count_message_files(inner),
                _ => Some(0),
            },
            Action::Skip => Some(0),
        };
        assert(match here {
            Some(m) => m == node_files(*node).len(),
            None => node_files(*node).len() > u64::MAX,
        });
        let sum: Option<u64> = match here {
            Some(m) => n.checked_add(m),
            None => None,
        };
        match sum {
            Some(total) => {
                n = total;
            },
            None => {
                return None;
            },
        }
        i += 1;
    }
    Some(n)
}

/// Walks a directory tree and counts the sender of every message in it.
///
/// The entries are taken in their given order. A regular file whose
/// extension is `eml` is parsed and its sender counted; a directory is
/// walked in full before the entry after it; anything else is passed
/// over. The first message that the parser rejects ends the walk with
/// its error, the table holding what was counted until then.
///
/// The table must have room for one more count for each message of the
/// tree; `count_message_files` tells how many there are.
pub fn parse_eml_files(entries: &Vec<Node>, table: &mut CountTable) -> (outcome: Result<
    (),
    ParseFailure,
>)
    requires
        old(table).wf(),
        rows_total(old(table)@) + tree_files(entries@).len() <= u64::MAX,
    ensures
        final(table).wf(),
        final(table)@ == scan(old(table)@, tree_files(entries@)).0,
        outcome is Ok <==> scan(old(table)@, tree_files(entries@)).1,
        outcome is Ok ==> rows_total(final(table)@) == rows_total(old(table)@) + tree_files(
            entries@,
        ).filter(|raw: Seq<u8>| message_sender(raw) is Some).len(),
    decreases entries,
{
    let ghost start = table@;
    let ghost whole = tree_files(entries@);
    let mut i: usize = 0;
    proof {
        table.lemma_wf();
    }
    while i < entries.len()
        invariant
            i <= entries.len(),
            table.wf(),
            start == old(table)@,
            is_table(start),
            whole == tree_files(entries@),
            rows_total(start) + whole.len() <= u64::MAX,
            scan(start, files_among(entries@, i as nat)) == (table@, true),
        decreases entries.len() - i,
    {
        let node = &entries[i];
        let ghost before = files_among(entries@, i as nat);
        let ghost here = node_files(*node);
        let ghost mid = table@;
        proof {
            assert(files_among(entries@, (i + 1) as nat) == before + here);
            lemma_files_among_prefix(entries@, (i + 1) as nat, entries@.len());
            lemma_scan_concat(start, before, here);
            lemma_scan_bound(start, before);
        }
        match route(node.kind(), node.name()) {
            Action::Parse => {
                if let Node::File { name, contents } = node {
                    proof {
                        assert(here =~= seq![contents@]);
                        lemma_scan_one(mid, contents@);
                    }
                    match count_message(contents.as_slice(), table) {
                        Ok(_) => {},
                        Err(failure) => {
                            proof {
                                lemma_scan_stops(start, before + here, whole);
                            }
                            return Err(failure);
                        },
                    }
                }
            },
            Action::Descend => {
                if let Node::Directory { name, entries: inner } = node {
                    match parse_eml_files(inner, table) {
                        Ok(()) => {},
                        Err(failure) => {
                            proof {
                                lemma_scan_stops(start, before + here, whole);
                            }
                            return Err(failure);
                        },
                    }
                }
            },
            Action::Skip => {
                assert(here =~= Seq::<Seq<u8>>::empty());
            },
        }
        i += 1;
    }
    proof {
        lemma_scan_total(start, whole);
    }
    Ok(())
}

} // verus!
