//! The built-in file browser: what it lists, in which order, and what a click comes to. It only
//! reads directories and leaves no trace of what was chosen.

use crate::text::lowercase;
use crate::wire::copied;
use vstd::prelude::*;
use vstd::string::*;
use vstd::utf8::encode_utf8;

verus! {

/// What the browser is to find.
#[derive(Clone, Copy, Debug, PartialEq, Eq, Structural)]
pub enum PickMode {
    /// An existing file.
    File,
    /// A directory for new files.
    Directory,
}

/// What the browser has come to. Paths are the bytes that the system knows them by.
pub enum PickOutcome {
    Pending,
    Cancelled,
    Chosen(Vec<u8>),
}

/// What the browser has come to, with the path as a sequence.
pub enum OutcomeView {
    Pending,
    Cancelled,
    Chosen(Seq<u8>),
}

impl PickOutcome {
    /// The outcome, with the path as a sequence.
    pub open spec fn view(&self) -> OutcomeView {
        match self {
            PickOutcome::Pending => OutcomeView::Pending,
            PickOutcome::Cancelled => OutcomeView::Cancelled,
            PickOutcome::Chosen(path) => OutcomeView::Chosen(path@),
        }
    }
}

/// An outcome is what stands in it.
pub proof fn law_pick_is_its_path(outcome: PickOutcome)
    ensures
        match outcome {
            PickOutcome::Pending => outcome@ is Pending,
            PickOutcome::Cancelled => outcome@ is Cancelled,
            PickOutcome::Chosen(path) => outcome@ == OutcomeView::Chosen(path@),
        },
{
}

/// An entry of a listing: the name to show and the path behind it.
pub struct PickEntry {
    pub name: String,
    pub path: Vec<u8>,
}

/// What kind of thing a directory entry is.
#[derive(Clone, Copy, Debug, PartialEq, Eq, Structural)]
pub enum EntryKind {
    Directory,
    /// Anything that is no directory.
    File,
    /// The system did not tell.
    Unknown,
}

/// An entry as the system lists it.
pub struct DirEntry {
    pub entry: PickEntry,
    pub kind: EntryKind,
}

// ---------------------------------------------------------------------------
// The order of entries
// ---------------------------------------------------------------------------

/// Whether `a` comes before `b` byte by byte.
pub open spec fn bytes_before(a: Seq<u8>, b: Seq<u8>) -> bool
    decreases b.len(),
{
    if b.len() == 0 {
        false
    } else if a.len() == 0 {
        true
    } else if a[0] != b[0] {
        a[0] < b[0]
    } else {
        bytes_before(a.drop_first(), b.drop_first())
    }
}

proof fn lemma_before_is_irreflexive(a: Seq<u8>)
    ensures
        !bytes_before(a, a),
    decreases a.len(),
{
    if a.len() > 0 {
        lemma_before_is_irreflexive(a.drop_first());
    }
}

proof fn lemma_before_is_transitive(a: Seq<u8>, b: Seq<u8>, c: Seq<u8>)
    requires
        bytes_before(a, b),
        bytes_before(b, c),
    ensures
        bytes_before(a, c),
    decreases c.len(),
{
    if a.len() > 0 && a[0] == b[0] && b[0] == c[0] {
        lemma_before_is_transitive(a.drop_first(), b.drop_first(), c.drop_first());
    }
}

proof fn lemma_before_is_total(a: Seq<u8>, b: Seq<u8>)
    requires
        !bytes_before(a, b),
        !bytes_before(b, a),
    ensures
        a == b,
    decreases a.len(),
{
    if a.len() > 0 {
        assert(b.len() > 0 && a[0] == b[0]);
        lemma_before_is_total(a.drop_first(), b.drop_first());
        assert(a =~= seq![a[0]] + a.drop_first());
        assert(b =~= seq![b[0]] + b.drop_first());
    } else {
        assert(a =~= b);
    }
}

/// The key by which an entry is ordered: its name in lower case.
pub open spec fn sort_key(e: PickEntry) -> Seq<u8> {
    encode_utf8(lowercase(e.name@))
}

/// Puts an entry in front of the first that does not come before it.
pub open spec fn insert_entry(sorted: Seq<PickEntry>, e: PickEntry) -> Seq<PickEntry>
    decreases sorted.len(),
{
    if sorted.len() == 0 || !bytes_before(sort_key(sorted[0]), sort_key(e)) {
        seq![e] + sorted
    } else {
        seq![sorted[0]] + insert_entry(sorted.drop_first(), e)
    }
}

/// The entries in the order of their keys; those with the same key stay in their order.
pub open spec fn sorted_entries(entries: Seq<PickEntry>) -> Seq<PickEntry>
    decreases entries.len(),
{
    if entries.len() == 0 {
        Seq::empty()
    } else {
        insert_entry(sorted_entries(entries.drop_first()), entries[0])
    }
}

/// No entry stands behind one that it comes before.
pub open spec fn in_order(entries: Seq<PickEntry>) -> bool {
    forall|i: int, j: int|
        0 <= i < j < entries.len() ==> !bytes_before(
            sort_key(#[trigger] entries[j]),
            sort_key(#[trigger] entries[i]),
        )
}

proof fn lemma_not_before_is_transitive(a: Seq<u8>, b: Seq<u8>, c: Seq<u8>)
    requires
        !bytes_before(b, a),
        !bytes_before(c, b),
    ensures
        !bytes_before(c, a),
{
    if bytes_before(c, a) {
        if bytes_before(a, b) {
            lemma_before_is_transitive(c, a, b);
        } else {
            lemma_before_is_total(a, b);
        }
    }
}

proof fn lemma_insert_keeps_order(sorted: Seq<PickEntry>, e: PickEntry)
    requires
        in_order(sorted),
    ensures
        in_order(insert_entry(sorted, e)),
        insert_entry(sorted, e).len() == sorted.len() + 1,
        forall|i: int|
            0 <= i < insert_entry(sorted, e).len() ==> (#[trigger] insert_entry(sorted, e)[i] == e
                || sorted.contains(insert_entry(sorted, e)[i])),
    decreases sorted.len(),
{
    let r = insert_entry(sorted, e);
    if sorted.len() == 0 {
    } else if !bytes_before(sort_key(sorted[0]), sort_key(e)) {
        assert forall|i: int, j: int| 0 <= i < j < r.len() implies !bytes_before(
            sort_key(#[trigger] r[j]),
            sort_key(#[trigger] r[i]),
        ) by {
            assert(r[j] == sorted[j - 1]);
            if i == 0 {
                if j > 1 {
                    assert(!bytes_before(sort_key(sorted[j - 1]), sort_key(sorted[0])));
                    lemma_not_before_is_transitive(
                        sort_key(e),
                        sort_key(sorted[0]),
                        sort_key(sorted[j - 1]),
                    );
                }
            } else {
                assert(r[i] == sorted[i - 1]);
            }
        }
        assert forall|i: int| 0 <= i < r.len() implies (#[trigger] r[i] == e || sorted.contains(
            r[i],
        )) by {
            if i > 0 {
                assert(r[i] == sorted[i - 1]);
            }
        }
    } else {
        let rest = sorted.drop_first();
        let tail = insert_entry(rest, e);
        assert(in_order(rest)) by {
            assert forall|i: int, j: int| 0 <= i < j < rest.len() implies !bytes_before(
                sort_key(#[trigger] rest[j]),
                sort_key(#[trigger] rest[i]),
            ) by {
                assert(rest[i] == sorted[i + 1] && rest[j] == sorted[j + 1]);
            }
        }
        lemma_insert_keeps_order(rest, e);
        assert forall|i: int, j: int| 0 <= i < j < r.len() implies !bytes_before(
            sort_key(#[trigger] r[j]),
            sort_key(#[trigger] r[i]),
        ) by {
            assert(r[j] == tail[j - 1]);
            if i == 0 {
                assert(r[0] == sorted[0]);
                if tail[j - 1] == e {
                    if bytes_before(sort_key(e), sort_key(sorted[0])) {
                        lemma_before_is_transitive(
                            sort_key(e),
                            sort_key(sorted[0]),
                            sort_key(e),
                        );
                        lemma_before_is_irreflexive(sort_key(e));
                    }
                } else {
                    let k = choose|k: int| 0 <= k < rest.len() && rest[k] == tail[j - 1];
                    assert(rest[k] == sorted[k + 1]);
                }
            } else {
                assert(r[i] == tail[i - 1]);
            }
        }
        assert forall|i: int| 0 <= i < r.len() implies (#[trigger] r[i] == e || sorted.contains(
            r[i],
        )) by {
            if i == 0 {
                assert(r[0] == sorted[0]);
            } else {
                assert(r[i] == tail[i - 1]);
                if tail[i - 1] != e {
                    let k = choose|k: int| 0 <= k < rest.len() && rest[k] == tail[i - 1];
                    assert(sorted[k + 1] == r[i]);
                }
            }
        }
    }
}

/// A listing is in the order of its keys.
pub proof fn law_listing_is_in_order(entries: Seq<PickEntry>)
    ensures
        in_order(sorted_entries(entries)),
        sorted_entries(entries).len() == entries.len(),
    decreases entries.len(),
{
    if entries.len() > 0 {
        law_listing_is_in_order(entries.drop_first());
        lemma_insert_keeps_order(sorted_entries(entries.drop_first()), entries[0]);
    }
}

/// `a` and `b` are the same before the place `i`, where `a` is at its end or has the smaller byte.
pub open spec fn first_difference(a: Seq<u8>, b: Seq<u8>, i: int) -> bool {
    &&& 0 <= i <= a.len()
    &&& i < b.len()
    &&& a.take(i) == b.take(i)
    &&& i == a.len() || a[i] < b[i]
}

/// One byte string comes before another exactly where it has the smaller byte in the first place in
/// which they differ, or ends there.
pub proof fn law_bytes_are_compared_from_the_front(a: Seq<u8>, b: Seq<u8>)
    ensures
        bytes_before(a, b) <==> exists|i: int| #[trigger] first_difference(a, b, i),
    decreases b.len(),
{
    if b.len() > 0 && a.len() > 0 && a[0] == b[0] {
        let x = a.drop_first();
        let y = b.drop_first();
        law_bytes_are_compared_from_the_front(x, y);
        if bytes_before(a, b) {
            let i = choose|i: int| #[trigger] first_difference(x, y, i);
            assert(a.take(i + 1) =~= seq![a[0]] + x.take(i));
            assert(b.take(i + 1) =~= seq![b[0]] + y.take(i));
            assert(first_difference(a, b, i + 1));
        }
        if exists|i: int| #[trigger] first_difference(a, b, i) {
            let i = choose|i: int| #[trigger] first_difference(a, b, i);
            assert(i > 0);
            assert(x.take(i - 1) =~= a.take(i).drop_first());
            assert(y.take(i - 1) =~= b.take(i).drop_first());
            assert(first_difference(x, y, i - 1));
        }
    } else if b.len() > 0 {
        assert(a.take(0) =~= b.take(0));
        if bytes_before(a, b) {
            assert(first_difference(a, b, 0));
        }
        if exists|i: int| #[trigger] first_difference(a, b, i) {
            let i = choose|i: int| #[trigger] first_difference(a, b, i);
            if i > 0 {
                assert(a.take(i)[0] == b.take(i)[0]);
            }
        }
    }
}

/// In a listing no name in lower case comes, byte by byte, before one that stands in front of it.
pub proof fn law_names_are_listed_in_order(entries: Seq<PickEntry>, i: int, j: int)
    requires
        0 <= i < j < entries.len(),
    ensures
        sorted_entries(entries).len() == entries.len(),
        !bytes_before(
            encode_utf8(lowercase(sorted_entries(entries)[j].name@)),
            encode_utf8(lowercase(sorted_entries(entries)[i].name@)),
        ),
{
    law_listing_is_in_order(entries);
}

proof fn lemma_insert_keeps_entries(sorted: Seq<PickEntry>, e: PickEntry)
    ensures
        insert_entry(sorted, e).to_multiset() == sorted.to_multiset().insert(e),
    decreases sorted.len(),
{
    broadcast use vstd::seq_lib::group_to_multiset_ensures;

    if sorted.len() == 0 || !bytes_before(sort_key(sorted[0]), sort_key(e)) {
        assert(seq![e] + sorted =~= sorted.insert(0, e));
    } else {
        let tail = insert_entry(sorted.drop_first(), e);
        lemma_insert_keeps_entries(sorted.drop_first(), e);
        assert(seq![sorted[0]] + tail =~= tail.insert(0, sorted[0]));
        assert(sorted =~= sorted.drop_first().insert(0, sorted[0]));
        assert(sorted.to_multiset().insert(e) =~= sorted.drop_first().to_multiset().insert(
            e,
        ).insert(sorted[0]));
    }
}

/// A listing holds every entry as often as it was there, and nothing else.
pub proof fn law_listing_keeps_entries(entries: Seq<PickEntry>)
    ensures
        sorted_entries(entries).to_multiset() == entries.to_multiset(),
    decreases entries.len(),
{
    broadcast use vstd::seq_lib::group_to_multiset_ensures;

    if entries.len() > 0 {
        let rest = entries.drop_first();
        law_listing_keeps_entries(rest);
        lemma_insert_keeps_entries(sorted_entries(rest), entries[0]);
        assert(entries =~= rest.insert(0, entries[0]));
    }
}

/// The entries with a given key, in their order.
pub open spec fn with_key(entries: Seq<PickEntry>, key: Seq<u8>) -> Seq<PickEntry>
    decreases entries.len(),
{
    if entries.len() == 0 {
        Seq::empty()
    } else if sort_key(entries[0]) == key {
        seq![entries[0]] + with_key(entries.drop_first(), key)
    } else {
        with_key(entries.drop_first(), key)
    }
}

proof fn lemma_insert_is_stable(sorted: Seq<PickEntry>, e: PickEntry, key: Seq<u8>)
    ensures
        with_key(insert_entry(sorted, e), key) == if sort_key(e) == key {
            seq![e] + with_key(sorted, key)
        } else {
            with_key(sorted, key)
        },
    decreases sorted.len(),
{
    let r = insert_entry(sorted, e);
    if sorted.len() == 0 || !bytes_before(sort_key(sorted[0]), sort_key(e)) {
        assert(r.drop_first() =~= sorted);
    } else {
        let tail = insert_entry(sorted.drop_first(), e);
        lemma_insert_is_stable(sorted.drop_first(), e, key);
        assert(r.drop_first() =~= tail);
        lemma_before_is_irreflexive(sort_key(e));
    }
}

/// Entries with the same key are listed in the order in which they came.
pub proof fn law_listing_is_stable(entries: Seq<PickEntry>, key: Seq<u8>)
    ensures
        with_key(sorted_entries(entries), key) == with_key(entries, key),
    decreases entries.len(),
{
    if entries.len() > 0 {
        law_listing_is_stable(entries.drop_first(), key);
        lemma_insert_is_stable(sorted_entries(entries.drop_first()), entries[0], key);
    }
}

fn is_before(a: &[u8], b: &[u8]) -> (r: bool)
    ensures
        r == bytes_before(a@, b@),
{
    let mut i: usize = 0;
    assert(a@.skip(0) =~= a@);
    assert(b@.skip(0) =~= b@);
    loop
        invariant
            i <= a@.len(),
            i <= b@.len(),
            bytes_before(a@, b@) == bytes_before(a@.skip(i as int), b@.skip(i as int)),
        decreases b@.len() - i,
    {
        if i >= b.len() {
            return false;
        }
        if i >= a.len() {
            return true;
        }
        if a[i] != b[i] {
            return a[i] < b[i];
        }
        assert(a@.skip(i as int).drop_first() =~= a@.skip(i + 1));
        assert(b@.skip(i as int).drop_first() =~= b@.skip(i + 1));
        i = i + 1;
    }
}

proof fn lemma_insert_at(sorted: Seq<PickEntry>, e: PickEntry, at: int)
    requires
        0 <= at <= sorted.len(),
        forall|i: int| 0 <= i < at ==> bytes_before(sort_key(#[trigger] sorted[i]), sort_key(e)),
        at < sorted.len() ==> !bytes_before(sort_key(sorted[at]), sort_key(e)),
    ensures
        insert_entry(sorted, e) == sorted.insert(at, e),
    decreases sorted.len(),
{
    if at == 0 {
        assert(seq![e] + sorted =~= sorted.insert(0, e));
    } else {
        let rest = sorted.drop_first();
        assert(bytes_before(sort_key(sorted[0]), sort_key(e)));
        assert forall|i: int| 0 <= i < at - 1 implies bytes_before(
            sort_key(#[trigger] rest[i]),
            sort_key(e),
        ) by {
            assert(rest[i] == sorted[i + 1]);
        }
        lemma_insert_at(rest, e, at - 1);
        assert(seq![sorted[0]] + rest.insert(at - 1, e) =~= sorted.insert(at, e));
    }
}

/// Sorts entries by their names in lower case. Entries with the same key stay in their order.
pub fn sort_entries(entries: Vec<PickEntry>) -> (r: Vec<PickEntry>)
    ensures
        r@ == sorted_entries(entries@),
{
    let ghost all = entries@;
    let mut left = entries;
    let mut out: Vec<PickEntry> = Vec::new();
    let mut keys: Vec<Vec<u8>> = Vec::new();
    assert(all.skip(all.len() as int) =~= Seq::<PickEntry>::empty());
    assert(left@ =~= all.take(left@.len() as int));
    while left.len() > 0
        invariant
            left@.len() <= all.len(),
            left@ == all.take(left@.len() as int),
            out@ == sorted_entries(all.skip(left@.len() as int)),
            keys@.len() == out@.len(),
            forall|i: int| 0 <= i < keys@.len() ==> #[trigger] keys@[i]@ == sort_key(out@[i]),
        decreases left@.len(),
    {
        let ghost n = left@.len() as int;
        let ghost before = out@;
        if let Some(e) = left.pop() {
            let name = e.name.as_str().to_lowercase();
            let key = copied(name.as_str().as_bytes());
            let mut at: usize = 0;
            while at < keys.len() && is_before(keys[at].as_slice(), key.as_slice())
                invariant
                    at <= keys@.len(),
                    keys@.len() == out@.len(),
                    out@ == before,
                    key@ == sort_key(e),
                    forall|i: int|
                        0 <= i < keys@.len() ==> #[trigger] keys@[i]@ == sort_key(out@[i]),
                    forall|i: int|
                        0 <= i < at ==> bytes_before(sort_key(#[trigger] out@[i]), sort_key(e)),
                ensures
                    at < keys@.len() ==> !bytes_before(sort_key(out@[at as int]), sort_key(e)),
                decreases keys@.len() - at,
            {
                assert(keys@[at as int]@ == sort_key(out@[at as int]));
                at = at + 1;
            }
            proof {
                lemma_insert_at(before, e, at as int);
                assert(all.skip(n - 1).drop_first() =~= all.skip(n));
                assert(e == all[n - 1]);
                assert(all.skip(n - 1)[0] == e);
            }
            out.insert(at, e);
            keys.insert(at, key);
            proof {
                assert(left@ =~= all.take(n - 1));
                assert forall|i: int| 0 <= i < keys@.len() implies #[trigger] keys@[i]@ == sort_key(
                    out@[i],
                ) by {
                }
            }
        }
    }
    assert(all.skip(0) =~= all);
    out
}

// ---------------------------------------------------------------------------
// The browser
// ---------------------------------------------------------------------------

/// Whether a name is hidden from listings.
pub open spec fn is_hidden(name: Seq<char>) -> bool {
    name.len() > 0 && name[0] == '.'
}

/// The entries of a kind that are not hidden, in the order of the system's listing.
pub open spec fn visible(listing: Seq<DirEntry>, kind: EntryKind) -> Seq<PickEntry>
    decreases listing.len(),
{
    if listing.len() == 0 {
        Seq::empty()
    } else {
        let first = listing[0];
        let rest = visible(listing.drop_first(), kind);
        if first.kind == kind && !is_hidden(first.entry.name@) {
            seq![first.entry] + rest
        } else {
            rest
        }
    }
}

/// Hidden entries are never listed.
pub proof fn law_hidden_entries_are_not_listed(listing: Seq<DirEntry>, kind: EntryKind, i: int)
    requires
        0 <= i < visible(listing, kind).len(),
    ensures
        !is_hidden(visible(listing, kind)[i].name@),
        exists|j: int| 0 <= j < listing.len() && #[trigger] listing[j].kind == kind
            && listing[j].entry == visible(listing, kind)[i],
    decreases listing.len(),
{
    let first = listing[0];
    let others = listing.drop_first();
    let rest = visible(others, kind);
    let kept = first.kind == kind && !is_hidden(first.entry.name@);
    if kept && i == 0 {
        assert(listing[0].kind == kind && listing[0].entry == visible(listing, kind)[0]);
    } else {
        let k = if kept {
            i - 1
        } else {
            i
        };
        law_hidden_entries_are_not_listed(others, kind, k);
        let j = choose|j: int| 0 <= j < others.len() && #[trigger] others[j].kind == kind
            && others[j].entry == rest[k];
        assert(listing[j + 1].kind == kind && listing[j + 1].entry == rest[k]);
    }
}

/// A name is hidden exactly where it begins with a dot.
pub proof fn law_hidden_names_begin_with_a_dot(name: Seq<char>)
    ensures
        is_hidden(name) <==> exists|rest: Seq<char>| name == #[trigger] (seq!['.'] + rest),
{
    if is_hidden(name) {
        assert(name =~= seq!['.'] + name.skip(1));
    }
}

/// Of a system's listing each entry is looked at by itself, and all that are of the kind and not
/// hidden are listed, in the order of the system.
pub proof fn law_visible_entries_are_listed(
    one: DirEntry,
    listing: Seq<DirEntry>,
    more: Seq<DirEntry>,
    kind: EntryKind,
)
    ensures
        visible(Seq::empty(), kind) == Seq::<PickEntry>::empty(),
        visible(seq![one], kind) == if one.kind == kind && !(one.entry.name@.len() > 0
            && one.entry.name@[0] == '.') {
            seq![one.entry]
        } else {
            Seq::empty()
        },
        visible(listing + more, kind) == visible(listing, kind) + visible(more, kind),
    decreases listing.len(),
{
    assert(seq![one].drop_first() =~= Seq::<DirEntry>::empty());
    assert(visible(seq![one].drop_first(), kind) =~= Seq::<PickEntry>::empty());
    assert(visible(seq![one], kind) =~= if one.kind == kind && !is_hidden(one.entry.name@) {
        seq![one.entry]
    } else {
        Seq::empty()
    });
    if listing.len() == 0 {
        assert(listing + more =~= more);
        assert(visible(listing, kind) + visible(more, kind) =~= visible(more, kind));
    } else {
        law_visible_entries_are_listed(one, listing.drop_first(), more, kind);
        assert((listing + more).drop_first() =~= listing.drop_first() + more);
        assert(visible(listing + more, kind) =~= visible(listing, kind) + visible(more, kind));
    }
}

fn starts_with_dot(name: &str) -> (r: bool)
    ensures
        r == is_hidden(name@),
{
    name.unicode_len() > 0 && name.get_char(0) == '.'
}

proof fn lemma_visible_skip(listing: Seq<DirEntry>, kind: EntryKind, n: int)
    requires
        0 < n <= listing.len(),
    ensures
        ({
            let first = listing[n - 1];
            let rest = visible(listing.skip(n), kind);
            visible(listing.skip(n - 1), kind) == if first.kind == kind && !is_hidden(
                first.entry.name@,
            ) {
                seq![first.entry] + rest
            } else {
                rest
            }
        }),
{
    assert(listing.skip(n - 1).drop_first() =~= listing.skip(n));
}

/// The entries of a listing from its end: directories and files, without what is hidden.
fn split_listing(listing: Vec<DirEntry>) -> (r: (Vec<PickEntry>, Vec<PickEntry>))
    ensures
        r.0@ == visible(listing@, EntryKind::Directory).reverse(),
        r.1@ == visible(listing@, EntryKind::File).reverse(),
{
    let ghost all = listing@;
    let mut left = listing;
    let mut dirs: Vec<PickEntry> = Vec::new();
    let mut files: Vec<PickEntry> = Vec::new();
    proof {
        assert(left@ =~= all.take(left@.len() as int));
        assert(all.skip(all.len() as int) =~= Seq::<DirEntry>::empty());
        assert(dirs@ =~= visible(all.skip(all.len() as int), EntryKind::Directory).reverse());
        assert(files@ =~= visible(all.skip(all.len() as int), EntryKind::File).reverse());
    }
    while left.len() > 0
        invariant
            left@.len() <= all.len(),
            left@ == all.take(left@.len() as int),
            dirs@ == visible(all.skip(left@.len() as int), EntryKind::Directory).reverse(),
            files@ == visible(all.skip(left@.len() as int), EntryKind::File).reverse(),
        decreases left@.len(),
    {
        let ghost n = left@.len() as int;
        let ghost dirs_before = dirs@;
        let ghost files_before = files@;
        if let Some(e) = left.pop() {
            proof {
                lemma_visible_skip(all, EntryKind::Directory, n);
                lemma_visible_skip(all, EntryKind::File, n);
                assert(e == all[n - 1]);
                assert(left@ =~= all.take(n - 1));
            }
            if !starts_with_dot(e.entry.name.as_str()) {
                match e.kind {
                    EntryKind::Directory => dirs.push(e.entry),
                    EntryKind::File => files.push(e.entry),
                    EntryKind::Unknown => {},
                }
            }
            proof {
                assert(dirs@ =~= visible(all.skip(n - 1), EntryKind::Directory).reverse());
                assert(files@ =~= visible(all.skip(n - 1), EntryKind::File).reverse());
            }
        }
    }
    assert(all.skip(0) =~= all);
    (dirs, files)
}

fn reversed(entries: Vec<PickEntry>) -> (r: Vec<PickEntry>)
    ensures
        r@ == entries@.reverse(),
{
    let ghost all = entries@;
    let mut left = entries;
    let mut r: Vec<PickEntry> = Vec::new();
    assert(left@ =~= all.take(left@.len() as int));
    while left.len() > 0
        invariant
            left@.len() + r@.len() == all.len(),
            left@ == all.take(left@.len() as int),
            r@ == all.reverse().take(r@.len() as int),
        decreases left@.len(),
    {
        let ghost n = left@.len() as int;
        if let Some(e) = left.pop() {
            r.push(e);
            assert(left@ =~= all.take(n - 1));
            assert(r@ =~= all.reverse().take(r@.len() as int));
        }
    }
    assert(r@ =~= all.reverse());
    r
}

/// Something that was clicked in the browser.
pub enum PickClick {
    /// A place to go to.
    Goto(Vec<u8>),
    /// The button for the parent directory, with the path of that, if there is one.
    Parent(Option<Vec<u8>>),
    /// A directory of the listing.
    Enter(Vec<u8>),
    /// A file of the listing.
    Choose(Vec<u8>),
    /// The button for the directory that is shown.
    ThisDirectory,
}

/// The file browser.
pub struct FilePicker {
    pub title: String,
    mode: PickMode,
    cwd: Vec<u8>,
    dirs: Vec<PickEntry>,
    files: Vec<PickEntry>,
    error: Option<String>,
}

/// The file browser, with its texts and paths as sequences.
pub struct PickerView {
    pub title: Seq<char>,
    pub mode: PickMode,
    /// The directory that is shown.
    pub cwd: Seq<u8>,
    pub dirs: Seq<PickEntry>,
    pub files: Seq<PickEntry>,
    /// Why the directory could not be read.
    pub error: Option<Seq<char>>,
}

impl PickerView {
    /// The browser with this listing of its directory, or the system's reason for having none.
    pub open spec fn listing(self, listing: Result<Seq<DirEntry>, Seq<char>>) -> PickerView {
        match listing {
            Ok(entries) => PickerView {
                dirs: sorted_entries(visible(entries, EntryKind::Directory)),
                files: sorted_entries(visible(entries, EntryKind::File)),
                error: None,
                ..self
            },
            Err(why) => PickerView {
                dirs: Seq::empty(),
                files: Seq::empty(),
                error: Some("Verzeichnis nicht lesbar: "@ + why),
                ..self
            },
        }
    }

    /// The browser in another directory, which has still to be read.
    pub open spec fn gone_to(self, path: Seq<u8>) -> PickerView {
        PickerView { cwd: path, ..self }
    }
}

/// The browser within a frame: what has become of it so far, the directory of the listing that is
/// to be entered, the path that was chosen, and whether a place was gone to.
pub struct FrameView {
    pub picker: PickerView,
    pub enter: Option<Seq<u8>>,
    pub chosen: Option<Seq<u8>>,
    pub moved: bool,
}

/// The bytes of a path that may be missing.
pub open spec fn path_view(path: Option<Vec<u8>>) -> Option<Seq<u8>> {
    match path {
        Some(p) => Some(p@),
        None => None,
    }
}

impl FrameView {
    /// The browser after one more click.
    pub open spec fn after(self, click: PickClick) -> FrameView {
        match click {
            PickClick::Goto(path) => FrameView {
                picker: self.picker.gone_to(path@),
                moved: true,
                ..self
            },
            PickClick::Parent(Some(path)) => FrameView {
                picker: self.picker.gone_to(path@),
                moved: true,
                ..self
            },
            PickClick::Parent(None) => self,
            PickClick::Enter(path) => FrameView { enter: Some(path@), ..self },
            PickClick::Choose(path) => if self.picker.mode == PickMode::File {
                FrameView { chosen: Some(path@), ..self }
            } else {
                self
            },
            PickClick::ThisDirectory => if self.picker.mode == PickMode::Directory {
                FrameView { chosen: Some(self.picker.cwd), ..self }
            } else {
                self
            },
        }
    }

    /// The browser at the end of the frame.
    pub open spec fn settled(self) -> PickerView {
        match self.enter {
            Some(path) => self.picker.gone_to(path),
            None => self.picker,
        }
    }

    /// What the frame has come to.
    pub open spec fn outcome(self, closed: bool) -> OutcomeView {
        if closed {
            OutcomeView::Cancelled
        } else {
            match self.chosen {
                Some(path) => OutcomeView::Chosen(path),
                None => OutcomeView::Pending,
            }
        }
    }
}

/// The browser after the clicks of a frame.
pub open spec fn after_clicks(picker: PickerView, clicks: Seq<PickClick>) -> FrameView
    decreases clicks.len(),
{
    if clicks.len() == 0 {
        FrameView { picker, enter: None, chosen: None, moved: false }
    } else {
        after_clicks(picker, clicks.drop_last()).after(clicks.last())
    }
}

/// A directory that could be read is shown with its directories and its files, each sorted, and one
/// that could not with nothing but the reason. Going elsewhere changes the directory alone.
pub proof fn law_browser_shows_its_directory(
    picker: PickerView,
    entries: Seq<DirEntry>,
    why: Seq<char>,
    path: Seq<u8>,
)
    ensures
        ({
            let read = picker.listing(Ok(entries));
            &&& read.dirs == sorted_entries(visible(entries, EntryKind::Directory))
            &&& read.files == sorted_entries(visible(entries, EntryKind::File))
            &&& read.error is None
            &&& read.cwd == picker.cwd && read.mode == picker.mode && read.title == picker.title
        }),
        ({
            let unread = picker.listing(Err(why));
            &&& unread.dirs.len() == 0 && unread.files.len() == 0
            &&& unread.error == Some("Verzeichnis nicht lesbar: "@ + why)
            &&& unread.cwd == picker.cwd && unread.mode == picker.mode && unread.title
                == picker.title
        }),
        picker.gone_to(path).cwd == path,
        (PickerView { cwd: picker.cwd, ..picker.gone_to(path) }) == picker,
{
}

/// The clicks of a frame are taken one after the other. A place and a parent directory are gone to
/// at once; a directory of the listing is kept for the end of the frame; a file is chosen where a
/// file is wanted, and the directory that is shown where a directory is wanted. Nothing else is
/// chosen.
pub proof fn law_clicks_do_what_they_say(
    picker: PickerView,
    clicks: Seq<PickClick>,
    click: PickClick,
)
    ensures
        after_clicks(picker, Seq::empty()) == (FrameView {
            picker,
            enter: None,
            chosen: None,
            moved: false,
        }),
        ({
            let was = after_clicks(picker, clicks);
            let is = after_clicks(picker, clicks.push(click));
            &&& is.picker.mode == was.picker.mode
            &&& click is Goto ==> {
                &&& is.picker == was.picker.gone_to(click->Goto_0@)
                &&& is.moved && is.enter == was.enter && is.chosen == was.chosen
            }
            &&& click matches PickClick::Parent(Some(path)) ==> {
                &&& is.picker == was.picker.gone_to(path@)
                &&& is.moved && is.enter == was.enter && is.chosen == was.chosen
            }
            &&& click matches PickClick::Parent(None) ==> is == was
            &&& click is Enter ==> is == (FrameView { enter: Some(click->Enter_0@), ..was })
            &&& click is Choose && was.picker.mode == PickMode::File ==> is == (FrameView {
                chosen: Some(click->Choose_0@),
                ..was
            })
            &&& click is Choose && was.picker.mode != PickMode::File ==> is == was
            &&& click is ThisDirectory && was.picker.mode == PickMode::Directory ==> is
                == (FrameView { chosen: Some(was.picker.cwd), ..was })
            &&& click is ThisDirectory && was.picker.mode != PickMode::Directory ==> is == was
        }),
{
    assert(clicks.push(click).drop_last() =~= clicks);
}

/// At the end of a frame a directory of the listing is entered. Closing wins over a choice, and
/// without either nothing has come of it yet.
pub proof fn law_frames_end(frame: FrameView)
    ensures
        frame.enter is None ==> frame.settled() == frame.picker,
        frame.enter is Some ==> frame.settled() == frame.picker.gone_to(frame.enter->0),
        frame.outcome(true) is Cancelled,
        frame.chosen is None ==> frame.outcome(false) is Pending,
        frame.chosen is Some ==> frame.outcome(false) == OutcomeView::Chosen(frame.chosen->0),
{
}

/// A result of the system as the specifications speak of it.
pub open spec fn listing_view(listing: Result<Vec<DirEntry>, String>) -> Result<
    Seq<DirEntry>,
    Seq<char>,
> {
    match listing {
        Ok(entries) => Ok(entries@),
        Err(why) => Err(why@),
    }
}

impl FilePicker {
    /// The browser, with its texts and paths as sequences.
    pub closed spec fn view(&self) -> PickerView {
        PickerView {
            title: self.title@,
            mode: self.mode,
            cwd: self.cwd@,
            dirs: self.dirs@,
            files: self.files@,
            error: match self.error {
                Some(s) => Some(s@),
                None => None,
            },
        }
    }

    /// A browser that shows the directory `start`, or the home directory where there is no
    /// `start` or it is no directory. It is filled by `refresh`.
    pub fn new(
        title: String,
        mode: PickMode,
        start: Option<Vec<u8>>,
        start_is_dir: bool,
        home: Vec<u8>,
    ) -> (r: FilePicker)
        ensures
            r@ == (PickerView {
                title: title@,
                mode,
                cwd: match start {
                    Some(path) => if start_is_dir {
                        path@
                    } else {
                        home@
                    },
                    None => home@,
                },
                dirs: Seq::empty(),
                files: Seq::empty(),
                error: None,
            }),
    {
        let cwd = match start {
            Some(path) => {
                if start_is_dir {
                    path
                } else {
                    home
                }
            },
            None => home,
        };
        FilePicker { title, mode, cwd, dirs: Vec::new(), files: Vec::new(), error: None }
    }

    /// Takes over what reading the directory gave.
    pub fn refresh(&mut self, listing: Result<Vec<DirEntry>, String>)
        ensures
            final(self)@ == old(self)@.listing(listing_view(listing)),
    {
        match listing {
            Ok(entries) => {
                let (dirs, files) = split_listing(entries);
                proof {
                    assert(visible(entries@, EntryKind::Directory).reverse().reverse() =~= visible(
                        entries@,
                        EntryKind::Directory,
                    ));
                    assert(visible(entries@, EntryKind::File).reverse().reverse() =~= visible(
                        entries@,
                        EntryKind::File,
                    ));
                }
                self.dirs = sort_entries(reversed(dirs));
                self.files = sort_entries(reversed(files));
                self.error = None;
            },
            Err(why) => {
                let mut text = "Verzeichnis nicht lesbar: ".to_string();
                text.append(why.as_str());
                self.dirs = Vec::new();
                self.files = Vec::new();
                self.error = Some(text);
            },
        }
    }

    /// Goes to another directory, which has still to be read.
    pub fn goto(&mut self, path: Vec<u8>)
        ensures
            final(self)@ == old(self)@.gone_to(path@),
    {
        self.cwd = path;
    }

    /// Takes account of what was clicked in one frame, in the order of the clicks, and of whether
    /// the browser was closed in it. Places are gone to at once, a directory of the listing after
    /// all else. Files can be chosen where a file is wanted, and the directory that is shown
    /// where a directory is wanted. Closing wins over a choice. The second result says whether
    /// the directory has to be read anew.
    pub fn frame(&mut self, clicks: &Vec<PickClick>, closed: bool) -> (r: (PickOutcome, bool))
        ensures
            ({
                let after = after_clicks(old(self)@, clicks@);
                &&& final(self)@ == after.settled()
                &&& r.0@ == after.outcome(closed)
                &&& r.1 == (after.moved || after.enter is Some)
            }),
    {
        let ghost start = self@;
        let mut enter: Option<Vec<u8>> = None;
        let mut chosen: Option<Vec<u8>> = None;
        let mut moved: bool = false;
        let mut i: usize = 0;
        assert(clicks@.take(0) =~= Seq::<PickClick>::empty());
        while i < clicks.len()
            invariant
                i <= clicks@.len(),
                start == old(self)@,
                after_clicks(start, clicks@.take(i as int)) == (FrameView {
                    picker: self@,
                    enter: path_view(enter),
                    chosen: path_view(chosen),
                    moved,
                }),
            decreases clicks@.len() - i,
        {
            assert(clicks@.take(i + 1).drop_last() =~= clicks@.take(i as int));
            match &clicks[i] {
                PickClick::Goto(path) => {
                    self.goto(copied(path.as_slice()));
                    moved = true;
                },
                PickClick::Parent(Some(path)) => {
                    self.goto(copied(path.as_slice()));
                    moved = true;
                },
                PickClick::Parent(None) => {},
                PickClick::Enter(path) => {
                    enter = Some(copied(path.as_slice()));
                },
                PickClick::Choose(path) => {
                    if self.mode == PickMode::File {
                        chosen = Some(copied(path.as_slice()));
                    }
                },
                PickClick::ThisDirectory => {
                    if self.mode == PickMode::Directory {
                        chosen = Some(copied(self.cwd.as_slice()));
                    }
                },
            }
            i = i + 1;
        }
        assert(clicks@.take(i as int) =~= clicks@);
        if let Some(path) = enter {
            self.goto(path);
            moved = true;
        }
        if closed {
            return (PickOutcome::Cancelled, moved);
        }
        match chosen {
            Some(path) => (PickOutcome::Chosen(path), moved),
            None => (PickOutcome::Pending, moved),
        }
    }

    /// What the browser is to find.
    pub fn mode(&self) -> (r: PickMode)
        ensures
            r == self@.mode,
    {
        self.mode
    }

    /// The directory that is shown.
    pub fn cwd(&self) -> (r: &[u8])
        ensures
            r@ == self@.cwd,
    {
        self.cwd.as_slice()
    }

    /// The directories that are shown.
    pub fn dirs(&self) -> (r: &[PickEntry])
        ensures
            r@ == self@.dirs,
    {
        self.dirs.as_slice()
    }

    /// The files that are shown, which are none where a directory is wanted.
    pub fn files(&self) -> (r: Option<&[PickEntry]>)
        ensures
            r is Some <==> self@.mode == PickMode::File,
            r matches Some(files) ==> files@ == self@.files,
    {
        if self.mode == PickMode::File {
            Some(self.files.as_slice())
        } else {
            None
        }
    }

    /// Why the directory could not be read.
    pub fn error(&self) -> (r: Option<&str>)
        ensures
            r is Some <==> self@.error is Some,
            r matches Some(s) ==> self@.error == Some(s@),
    {
        match &self.error {
            Some(s) => Some(s.as_str()),
            None => None,
        }
    }
}

// ---------------------------------------------------------------------------
// Places
// ---------------------------------------------------------------------------

/// The home directory: that which the environment names, if it is a directory, else the root.
pub fn home_dir(home: Option<Vec<u8>>, is_dir: bool) -> (r: Vec<u8>)
    ensures
        r@ == (match home {
            Some(path) => if is_dir {
                path@
            } else {
                seq![47u8]
            },
            None => seq![47u8],
        }),
{
    if let Some(path) = home {
        if is_dir {
            return path;
        }
    }
    let mut root: Vec<u8> = Vec::new();
    root.push(47);
    assert(root@ =~= seq![47u8]);
    root
}

/// A place that the browser offers, with its label.
pub struct Shortcut {
    pub label: String,
    pub path: String,
}

/// The places that the browser offers, labels and paths. Where there is no file system in memory,
/// the directory for temporary files takes its place, if the environment names one.
pub open spec fn shortcut_list(macos: bool, tmpdir: Option<Seq<char>>) -> Seq<
    (Seq<char>, Seq<char>),
> {
    let first = seq![
        ("Persistent (Tails)"@, "/home/amnesia/Persistent"@),
        ("Datentraeger"@, "/media"@),
        ("Volumes (macOS)"@, "/Volumes"@),
    ];
    let own = if macos {
        match tmpdir {
            Some(t) => seq![("Temporaer (Platte, kein RAM)"@, t)],
            None => Seq::empty(),
        }
    } else {
        seq![("RAM (/dev/shm)"@, "/dev/shm"@), ("/tmp"@, "/tmp"@)]
    };
    first + own + seq![("Wurzel /"@, "/"@)]
}

/// The places that are offered: three that do not depend on the system, those in memory or the
/// directory for temporary files, and the root.
pub proof fn law_places(tmpdir: Seq<char>)
    ensures
        forall|macos: bool, tmp: Option<Seq<char>>|
            {
                let list = #[trigger] shortcut_list(macos, tmp);
                &&& list.len() >= 4
                &&& list[0] == ("Persistent (Tails)"@, "/home/amnesia/Persistent"@)
                &&& list[1] == ("Datentraeger"@, "/media"@)
                &&& list[2] == ("Volumes (macOS)"@, "/Volumes"@)
                &&& list.last() == ("Wurzel /"@, "/"@)
            },
        forall|tmp: Option<Seq<char>>|
            {
                let list = #[trigger] shortcut_list(false, tmp);
                &&& list.len() == 6
                &&& list[3] == ("RAM (/dev/shm)"@, "/dev/shm"@)
                &&& list[4] == ("/tmp"@, "/tmp"@)
            },
        shortcut_list(true, None).len() == 4,
        shortcut_list(true, Some(tmpdir)).len() == 5,
        shortcut_list(true, Some(tmpdir))[3] == ("Temporaer (Platte, kein RAM)"@, tmpdir),
{
}

/// Labels and paths of shortcuts.
pub open spec fn shortcut_views(shortcuts: Seq<Shortcut>) -> Seq<(Seq<char>, Seq<char>)> {
    Seq::new(shortcuts.len(), |i: int| (shortcuts[i].label@, shortcuts[i].path@))
}

fn push_shortcut(out: &mut Vec<Shortcut>, label: &str, path: &str)
    ensures
        shortcut_views(final(out)@) == shortcut_views(old(out)@).push((label@, path@)),
{
    out.push(Shortcut { label: label.to_string(), path: path.to_string() });
    assert(shortcut_views(out@) =~= shortcut_views(old(out)@).push((label@, path@)));
}

/// The places that the browser offers.
pub fn shortcuts(macos: bool, tmpdir: Option<String>) -> (r: Vec<Shortcut>)
    ensures
        shortcut_views(r@) == shortcut_list(
            macos,
            match tmpdir {
                Some(t) => Some(t@),
                None => None,
            },
        ),
{
    let mut v: Vec<Shortcut> = Vec::new();
    push_shortcut(&mut v, "Persistent (Tails)", "/home/amnesia/Persistent");
    push_shortcut(&mut v, "Datentraeger", "/media");
    push_shortcut(&mut v, "Volumes (macOS)", "/Volumes");
    if macos {
        if let Some(t) = &tmpdir {
            push_shortcut(&mut v, "Temporaer (Platte, kein RAM)", t.as_str());
        }
    } else {
        push_shortcut(&mut v, "RAM (/dev/shm)", "/dev/shm");
        push_shortcut(&mut v, "/tmp", "/tmp");
    }
    push_shortcut(&mut v, "Wurzel /", "/");
    assert(shortcut_views(v@) =~= shortcut_list(
        macos,
        match tmpdir {
            Some(t) => Some(t@),
            None => None,
        },
    ));
    v
}

} // verus!
