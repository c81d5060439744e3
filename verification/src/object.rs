//! The higher-level object kinds layered over raw stored objects: data
//! blobs (small and large), directory subtrees, and commits. Each kind has a
//! deterministic payload encoding, so equal logical values give byte-equal
//! blobs and therefore equal digests.
//!
//! Payload layouts (tag is the first byte):
//!
//! ```text
//! small   := 0 || chunk bytes
//! large   := 1 || leb128(total_size) || leb128(n) || (leb128(child_size) || digest){n}
//! subtree := 2 || leb128(n) || (leb128(|name|) || name || entry){n}   names strictly sorted
//! entry   := 0 || digest || leb128(file_size)   (a file)
//!          | 1 || digest                        (an unexpanded subtree)
//! commit  := 3 || subtree_digest || leb128(p) || digest{p} || leb128(|msg|) || msg || timestamp
//! ```

use vstd::prelude::*;

use crate::bytes::{append_bytes, bytes_eq, clone_bytes, copy_range, lex_lt};
use crate::digest::{Sha3Digest, DIGEST_SIZE};
use crate::error::Error;
use crate::store::Object;
use crate::varint::{leb128_spec, leb128_read, leb128_write, lemma_leb128_prefix_free, starts_with};

verus! {

/// A reference out of a subtree: a file with its digest and size, or an
/// unexpanded subtree known only by digest.
#[derive(Debug)]
pub enum SubtreeEntry {
    File(Sha3Digest, u64),
    Subtree(Sha3Digest),
}

/// The mathematical content of a subtree entry.
pub enum SubtreeEntryView {
    File(Seq<u8>, u64),
    Subtree(Seq<u8>),
}

impl SubtreeEntryView {
    /// The digest the entry carries.
    pub open spec fn hash(self) -> Seq<u8> {
        match self {
            SubtreeEntryView::File(d, _) => d,
            SubtreeEntryView::Subtree(d) => d,
        }
    }

    /// Well-typed: the digest is full width.
    pub open spec fn wf(self) -> bool {
        self.hash().len() == DIGEST_SIZE
    }
}

impl View for SubtreeEntry {
    type V = SubtreeEntryView;

    open spec fn view(&self) -> SubtreeEntryView {
        match self {
            SubtreeEntry::File(d, sz) => SubtreeEntryView::File(d@, *sz),
            SubtreeEntry::Subtree(d) => SubtreeEntryView::Subtree(d@),
        }
    }
}

impl SubtreeEntry {
    /// The digest the entry carries.
    pub fn hash(&self) -> (d: Sha3Digest)
        ensures
            d@ == self@.hash(),
    {
        match self {
            SubtreeEntry::File(d, _) => d.duplicate(),
            SubtreeEntry::Subtree(d) => d.duplicate(),
        }
    }

    /// An explicit copy of the entry.
    pub fn duplicate(&self) -> (r: SubtreeEntry)
        ensures
            r@ == self@,
    {
        match self {
            SubtreeEntry::File(d, sz) => SubtreeEntry::File(d.duplicate(), *sz),
            SubtreeEntry::Subtree(d) => SubtreeEntry::Subtree(d.duplicate()),
        }
    }

    /// Every entry held by executable code is well-typed.
    pub fn confirm_wf(&self)
        ensures
            self@.wf(),
    {
        match self {
            SubtreeEntry::File(d, _) => {
                proof {
                    use_type_invariant(d);
                    d.lemma_full_width();
                }
            },
            SubtreeEntry::Subtree(d) => {
                proof {
                    use_type_invariant(d);
                    d.lemma_full_width();
                }
            },
        }
    }
}

/// The payload bytes of one subtree entry.
pub open spec fn entry_spec(e: SubtreeEntryView) -> Seq<u8> {
    match e {
        SubtreeEntryView::File(d, sz) => seq![0u8] + d + leb128_spec(sz as nat),
        SubtreeEntryView::Subtree(d) => seq![1u8] + d,
    }
}

/// The payload bytes of one named subtree entry: name length, name, entry.
pub open spec fn named_entry_spec(name: Seq<u8>, e: SubtreeEntryView) -> Seq<u8> {
    leb128_spec(name.len()) + name + entry_spec(e)
}

/// The payload bytes of a list of named entries, in order.
pub open spec fn entries_spec(es: Seq<(Seq<u8>, SubtreeEntryView)>) -> Seq<u8>
    decreases es.len(),
{
    if es.len() == 0 {
        Seq::empty()
    } else {
        named_entry_spec(es[0].0, es[0].1) + entries_spec(es.drop_first())
    }
}

/// The names are strictly increasing, so unique, and every entry and name
/// length is well-typed.
pub open spec fn entries_wf(es: Seq<(Seq<u8>, SubtreeEntryView)>) -> bool {
    &&& forall|i: int| 0 <= i < es.len() ==> (#[trigger] es[i]).1.wf() && es[i].0.len() <= u64::MAX
    &&& forall|i: int, j: int| 0 <= i < j < es.len() ==> lex_lt(es[i].0, es[j].0)
}

/// The full subtree payload: tag, count, entries.
pub open spec fn subtree_payload_spec(es: Seq<(Seq<u8>, SubtreeEntryView)>) -> Seq<u8> {
    seq![2u8] + leb128_spec(es.len()) + entries_spec(es)
}

/// The mathematical content of a subtree object: its named entries, sorted.
pub open spec fn subtree_wf(es: Seq<(Seq<u8>, SubtreeEntryView)>) -> bool {
    entries_wf(es) && es.len() <= u64::MAX
}

/// `s` is exactly the subtree payload of the well-formed entry list `es`.
pub open spec fn is_subtree_payload_of(s: Seq<u8>, es: Seq<(Seq<u8>, SubtreeEntryView)>) -> bool {
    subtree_wf(es) && s == subtree_payload_spec(es)
}

/// Some well-formed entry list has `s` as its subtree payload.
pub open spec fn subtree_decodable(s: Seq<u8>) -> bool {
    exists|es: Seq<(Seq<u8>, SubtreeEntryView)>| is_subtree_payload_of(s, es)
}

/// The unique entry list whose subtree payload is `s`.
pub open spec fn subtree_decoded(s: Seq<u8>) -> Seq<(Seq<u8>, SubtreeEntryView)> {
    choose|es: Seq<(Seq<u8>, SubtreeEntryView)>| is_subtree_payload_of(s, es)
}

/// The marshaled representation of a directory: a mapping from names to
/// entries, held sorted strictly by name.
#[derive(Debug)]
pub struct SubtreeObject {
    entries: Vec<(Vec<u8>, SubtreeEntry)>,
}

/// The views of a list of named entries.
spec fn pairs_view(v: Seq<(Vec<u8>, SubtreeEntry)>) -> Seq<(Seq<u8>, SubtreeEntryView)> {
    v.map_values(|p: (Vec<u8>, SubtreeEntry)| (p.0@, p.1@))
}

impl View for SubtreeObject {
    type V = Seq<(Seq<u8>, SubtreeEntryView)>;

    closed spec fn view(&self) -> Seq<(Seq<u8>, SubtreeEntryView)> {
        pairs_view(self.entries@)
    }
}

/// What inserting into a sorted entry list yields: an entry under an
/// existing name is replaced in place; a new name takes its sorted place.
pub open spec fn sorted_insert_spec(
    es: Seq<(Seq<u8>, SubtreeEntryView)>,
    name: Seq<u8>,
    e: SubtreeEntryView,
) -> Seq<(Seq<u8>, SubtreeEntryView)>
    decreases es.len(),
{
    if es.len() == 0 {
        seq![(name, e)]
    } else if lex_lt(es[0].0, name) {
        seq![es[0]] + sorted_insert_spec(es.drop_first(), name, e)
    } else if es[0].0 == name {
        seq![(name, e)] + es.drop_first()
    } else {
        seq![(name, e)] + es
    }
}

/// At the first position whose name is not below the new name, the sorted
/// insert is an in-place update or a positional insert.
proof fn lemma_sorted_insert_at(
    es: Seq<(Seq<u8>, SubtreeEntryView)>,
    j: int,
    name: Seq<u8>,
    e: SubtreeEntryView,
)
    requires
        0 <= j <= es.len(),
        forall|l: int| 0 <= l < j ==> lex_lt((#[trigger] es[l]).0, name),
        j < es.len() ==> !lex_lt(es[j].0, name),
    ensures
        sorted_insert_spec(es, name, e) == (if j < es.len() && es[j].0 == name {
            es.update(j, (name, e))
        } else {
            es.insert(j, (name, e))
        }),
    decreases j,
{
    if j == 0 {
        if es.len() == 0 {
            assert(sorted_insert_spec(es, name, e) =~= es.insert(0, (name, e)));
        } else {
            crate::bytes::lemma_lex_total(es[0].0, name);
            if es[0].0 == name {
                assert(sorted_insert_spec(es, name, e) =~= es.update(0, (name, e)));
            } else {
                assert(!lex_lt(es[0].0, name));
                assert(sorted_insert_spec(es, name, e) =~= es.insert(0, (name, e)));
            }
        }
    } else {
        let rest = es.drop_first();
        assert(lex_lt(es[0].0, name));
        assert forall|l: int| 0 <= l < j - 1 implies lex_lt((#[trigger] rest[l]).0, name) by {
            assert(rest[l] == es[l + 1]);
        }
        if j - 1 < rest.len() {
            assert(rest[j - 1] == es[j]);
        }
        lemma_sorted_insert_at(rest, j - 1, name, e);
        if j < es.len() && es[j].0 == name {
            assert(rest[j - 1] == es[j]);
            assert(sorted_insert_spec(es, name, e) == seq![es[0]] + rest.update(j - 1, (name, e)));
            assert(sorted_insert_spec(es, name, e) =~= es.update(j, (name, e)));
        } else {
            assert(sorted_insert_spec(es, name, e) == seq![es[0]] + rest.insert(j - 1, (name, e)));
            assert(sorted_insert_spec(es, name, e) =~= es.insert(j, (name, e)));
        }
    }
}

impl SubtreeObject {
    /// Sorted strictly by name.
    pub open spec fn wf(self) -> bool {
        subtree_wf(self@)
    }

    /// An empty subtree.
    pub fn new() -> (r: SubtreeObject)
        ensures
            r@ == Seq::<(Seq<u8>, SubtreeEntryView)>::empty(),
            r.wf(),
    {
        let r = SubtreeObject { entries: Vec::new() };
        proof {
            assert(r@ =~= Seq::<(Seq<u8>, SubtreeEntryView)>::empty());
        }
        r
    }

    /// The number of entries.
    pub fn len(&self) -> (n: usize)
        ensures
            n == self@.len(),
    {
        self.entries.len()
    }

    /// The entry at position `i`, in name order.
    pub fn entry_at(&self, i: usize) -> (r: (Vec<u8>, SubtreeEntry))
        requires
            i < self@.len(),
        ensures
            r.0@ == self@[i as int].0,
            r.1@ == self@[i as int].1,
    {
        let p = &self.entries[i];
        (clone_bytes(&p.0), p.1.duplicate())
    }

    /// Inserts `entry` under `name`, keeping the list sorted; an existing
    /// entry under the same name is replaced.
    #[verifier::rlimit(100)]
    pub fn insert(&mut self, name: Vec<u8>, entry: SubtreeEntry)
        requires
            old(self).wf(),
            old(self)@.len() < u64::MAX,
            name@.len() <= u64::MAX,
        ensures
            final(self).wf(),
            final(self)@ == sorted_insert_spec(old(self)@, name@, entry@),
            final(self)@.len() <= old(self)@.len() + 1,
            // the new name maps to the new entry
            exists|i: int| 0 <= i < final(self)@.len() && final(self)@[i] == (name@, entry@),
            // every other name keeps its entry, and nothing else appears
            forall|i: int| 0 <= i < final(self)@.len() && final(self)@[i].0 != name@ ==> exists|j: int|
                0 <= j < old(self)@.len() && old(self)@[j] == #[trigger] final(self)@[i],
            forall|j: int| 0 <= j < old(self)@.len() && old(self)@[j].0 != name@ ==> exists|i: int|
                0 <= i < final(self)@.len() && final(self)@[i] == #[trigger] old(self)@[j],
    {
        entry.confirm_wf();
        let ghost pre = self@;
        let mut i: usize = 0;
        loop
            invariant
                i <= self.entries@.len(),
                self@ == pre,
                subtree_wf(pre),
                pre.len() < u64::MAX,
                name@.len() <= u64::MAX,
                entry@.wf(),
                forall|j: int| 0 <= j < i ==> lex_lt((#[trigger] pre[j]).0, name@),
            ensures
                i <= self.entries@.len(),
                self@ == pre,
                forall|j: int| 0 <= j < i ==> lex_lt((#[trigger] pre[j]).0, name@),
                i < self.entries@.len() ==> !lex_lt(pre[i as int].0, name@),
            decreases self.entries@.len() - i,
        {
            if i == self.entries.len() {
                break;
            }
            let c = crate::bytes::bytes_cmp(&self.entries[i].0, &name);
            if c >= 0 {
                break;
            }
            proof {
                assert(pre[i as int].0 == self.entries@[i as int].0@);
            }
            i = i + 1;
        }
        if i < self.entries.len() && bytes_eq(&self.entries[i].0, &name) {
            // replace in place
            let ghost mid = self.entries@;
            self.entries.remove(i);
            self.entries.insert(i, (name, entry));
            proof {
                assert(self.entries@ =~= mid.update(i as int, self.entries@[i as int]));
                let post = self@;
                assert(post.len() == pre.len());
                assert(post[i as int] == (mid[i as int].0@, entry@));
                assert forall|j: int| 0 <= j < post.len() && j != i implies post[j] == pre[j] by {
                    assert(self.entries@[j] == mid[j]);
                }
                assert(post[i as int] == (name@, entry@));
                lemma_insert_frame(pre, post, i as int, name@);
                lemma_sorted_insert_at(pre, i as int, name@, entry@);
                assert(post =~= pre.update(i as int, (name@, entry@)));
            }
        } else {
            let ghost mid = self.entries@;
            self.entries.insert(i, (name, entry));
            proof {
                let post = self@;
                assert(post.len() == pre.len() + 1);
                assert(post[i as int] == (name@, entry@));
                assert forall|j: int| 0 <= j < post.len() && j != i implies post[j] == if j < i {
                    pre[j]
                } else {
                    pre[j - 1]
                } by {
                    if j < i {
                        assert(self.entries@[j] == mid[j]);
                    } else {
                        assert(self.entries@[j] == mid[j - 1]);
                    }
                }
                if i < pre.len() {
                    crate::bytes::lemma_lex_total(pre[i as int].0, name@);
                }
                lemma_insert_fresh_frame(pre, post, i as int, name@);
                lemma_sorted_insert_at(pre, i as int, name@, entry@);
                assert(post =~= pre.insert(i as int, (name@, entry@)));
            }
        }
    }
}

/// After replacing position `i` (whose name is `name`), the frame laws of
/// `SubtreeObject::insert` hold and sortedness is kept.
proof fn lemma_insert_frame(
    pre: Seq<(Seq<u8>, SubtreeEntryView)>,
    post: Seq<(Seq<u8>, SubtreeEntryView)>,
    i: int,
    name: Seq<u8>,
)
    requires
        subtree_wf(pre),
        0 <= i < pre.len(),
        post.len() == pre.len(),
        pre[i].0 == name,
        post[i].0 == name,
        post[i].1.wf(),
        name.len() <= u64::MAX,
        forall|j: int| 0 <= j < post.len() && j != i ==> post[j] == pre[j],
    ensures
        subtree_wf(post),
        forall|j: int| 0 <= j < post.len() && (#[trigger] post[j]).0 != name ==> exists|k: int|
            0 <= k < pre.len() && pre[k] == post[j],
        forall|k: int| 0 <= k < pre.len() && (#[trigger] pre[k]).0 != name ==> exists|j: int|
            0 <= j < post.len() && post[j] == pre[k],
{
    assert forall|a: int, b: int| 0 <= a < b < post.len() implies lex_lt(post[a].0, post[b].0) by {
        assert(post[a].0 == pre[a].0 && post[b].0 == pre[b].0);
    }
}

/// After inserting a fresh name at position `i` (every earlier name below
/// it, every later name above it), the frame laws of
/// `SubtreeObject::insert` hold and sortedness is kept.
proof fn lemma_insert_fresh_frame(
    pre: Seq<(Seq<u8>, SubtreeEntryView)>,
    post: Seq<(Seq<u8>, SubtreeEntryView)>,
    i: int,
    name: Seq<u8>,
)
    requires
        subtree_wf(pre),
        pre.len() < u64::MAX,
        0 <= i <= pre.len(),
        post.len() == pre.len() + 1,
        post[i].0 == name,
        post[i].1.wf(),
        name.len() <= u64::MAX,
        forall|j: int| 0 <= j < i ==> lex_lt((#[trigger] pre[j]).0, name),
        i < pre.len() ==> lex_lt(name, pre[i].0),
        forall|j: int| 0 <= j < post.len() && j != i ==> post[j] == (if j < i {
            pre[j]
        } else {
            pre[j - 1]
        }),
    ensures
        subtree_wf(post),
        forall|j: int| 0 <= j < post.len() && (#[trigger] post[j]).0 != name ==> exists|k: int|
            0 <= k < pre.len() && pre[k] == post[j],
        forall|k: int| 0 <= k < pre.len() && (#[trigger] pre[k]).0 != name ==> exists|j: int|
            0 <= j < post.len() && post[j] == pre[k],
{
    assert forall|a: int, b: int| 0 <= a < b < post.len() implies lex_lt(post[a].0, post[b].0) by {
        if a == i {
            assert(post[b] == pre[b - 1]);
            if b - 1 > i {
                crate::bytes::lemma_lex_trans(name, pre[i].0, pre[b - 1].0);
            }
        } else if b == i {
            assert(post[a] == pre[a]);
        } else if a < i && b > i {
            assert(post[a] == pre[a] && post[b] == pre[b - 1]);
            if a < b - 1 {
            } else {
                assert(a == b - 1);
                crate::bytes::lemma_lex_trans(pre[a].0, name, pre[i].0);
            }
        } else {
            assert(post[a].0 == (if a < i { pre[a] } else { pre[a - 1] }).0);
            assert(post[b].0 == (if b < i { pre[b] } else { pre[b - 1] }).0);
        }
    }
    assert forall|k: int| 0 <= k < pre.len() && (#[trigger] pre[k]).0 != name implies exists|j: int|
        0 <= j < post.len() && post[j] == pre[k] by {
        if k < i {
            assert(post[k] == pre[k]);
        } else {
            assert(post[k + 1] == pre[k]);
        }
    }
    assert forall|j: int| 0 <= j < post.len() && (#[trigger] post[j]).0 != name implies exists|k: int|
        0 <= k < pre.len() && pre[k] == post[j] by {
        if j < i {
            assert(post[j] == pre[j]);
        } else if j > i {
            assert(post[j] == pre[j - 1]);
        }
    }
}


/// Splitting an entry list splits its payload bytes.
pub proof fn lemma_entries_decomp(es: Seq<(Seq<u8>, SubtreeEntryView)>, k: int)
    requires
        0 <= k <= es.len(),
    ensures
        entries_spec(es) == entries_spec(es.take(k)) + entries_spec(es.skip(k)),
    decreases k,
{
    if k == 0 {
        assert(es.take(0) =~= Seq::<(Seq<u8>, SubtreeEntryView)>::empty());
        assert(es.skip(0) =~= es);
        assert(entries_spec(es) =~= entries_spec(es.take(0)) + entries_spec(es.skip(0)));
    } else {
        let rest = es.drop_first();
        lemma_entries_decomp(rest, k - 1);
        assert(rest.take(k - 1) =~= es.take(k).drop_first());
        assert(rest.skip(k - 1) =~= es.skip(k));
        assert(es.take(k)[0] == es[0]);
        assert(es.take(k).len() == k);
        assert(entries_spec(es.take(k)) == named_entry_spec(es[0].0, es[0].1) + entries_spec(rest.take(k - 1)));
        assert(entries_spec(es) =~= entries_spec(es.take(k)) + entries_spec(es.skip(k)));
    }
}

/// Appending one entry appends its payload bytes.
pub proof fn lemma_entries_spec_push(es: Seq<(Seq<u8>, SubtreeEntryView)>, p: (Seq<u8>, SubtreeEntryView))
    ensures
        entries_spec(es.push(p)) == entries_spec(es) + named_entry_spec(p.0, p.1),
    decreases es.len(),
{
    if es.len() == 0 {
        assert(es.push(p)[0] == p);
        assert(es.push(p).len() == 1);
        assert(es.push(p).drop_first() =~= Seq::<(Seq<u8>, SubtreeEntryView)>::empty());
        assert(entries_spec(Seq::<(Seq<u8>, SubtreeEntryView)>::empty()) =~= Seq::<u8>::empty());
        assert(entries_spec(es.push(p)) == named_entry_spec(p.0, p.1) + entries_spec(es.push(p).drop_first()));
        assert(entries_spec(es.push(p)) =~= entries_spec(es) + named_entry_spec(p.0, p.1));
    } else {
        assert(es.push(p).drop_first() =~= es.drop_first().push(p));
        assert(es.push(p)[0] == es[0]);
        lemma_entries_spec_push(es.drop_first(), p);
        assert(es.push(p).len() == es.len() + 1);
        assert(entries_spec(es.push(p)) == named_entry_spec(es[0].0, es[0].1) + entries_spec(
            es.push(p).drop_first(),
        ));
        assert(entries_spec(es.push(p).drop_first()) == entries_spec(es.drop_first()) + named_entry_spec(p.0, p.1));
        assert(entries_spec(es.push(p)) =~= entries_spec(es) + named_entry_spec(p.0, p.1));
    }
}

/// A named entry block determines its name, entry and length: no byte
/// sequence begins with two different blocks.
#[verifier::rlimit(100)]
#[verifier::spinoff_prover]
proof fn lemma_named_entry_unambiguous(
    s: Seq<u8>,
    n1: Seq<u8>,
    e1: SubtreeEntryView,
    n2: Seq<u8>,
    e2: SubtreeEntryView,
)
    requires
        e1.wf(),
        e2.wf(),
        starts_with(s, named_entry_spec(n1, e1)),
        starts_with(s, named_entry_spec(n2, e2)),
    ensures
        n1 == n2,
        e1 == e2,
{
    let l1 = leb128_spec(n1.len());
    let l2 = leb128_spec(n2.len());
    assert(s.skip(0) =~= s);
    assert(s.subrange(0, l1.len() as int) =~= l1);
    assert(s.subrange(0, l2.len() as int) =~= l2);
    assert(starts_with(s.skip(0), l2));
    lemma_leb128_prefix_free(s, 0, n1.len(), l1.len(), n2.len());
    assert(n1.len() == n2.len());
    let p = l1.len() as int + n1.len() as int;
    assert(n1 =~= s.subrange(l1.len() as int, p as int));
    assert(n2 =~= s.subrange(l1.len() as int, p as int));
    let t1 = entry_spec(e1);
    let t2 = entry_spec(e2);
    assert(s[p as int] == t1[0] && s[p as int] == t2[0]);
    match (e1, e2) {
        (SubtreeEntryView::File(d1, z1), SubtreeEntryView::File(d2, z2)) => {
            assert(d1 =~= s.subrange(p + 1, p + 1 + DIGEST_SIZE));
            assert(d2 =~= s.subrange(p + 1, p + 1 + DIGEST_SIZE));
            let q = p + 1 + DIGEST_SIZE as int;
            let z1s = leb128_spec(z1 as nat);
            let z2s = leb128_spec(z2 as nat);
            assert(s.subrange(q, q + z1s.len()) =~= z1s);
            assert(s.subrange(q, q + z2s.len()) =~= z2s);
            assert(starts_with(s.skip(q), z2s)) by {
                assert(s.skip(q).subrange(0, z2s.len() as int) =~= s.subrange(q, q + z2s.len()));
            }
            lemma_leb128_prefix_free(s, q, z1 as nat, z1s.len(), z2 as nat);
        },
        (SubtreeEntryView::Subtree(d1), SubtreeEntryView::Subtree(d2)) => {
            assert(d1 =~= s.subrange(p + 1, p + 1 + DIGEST_SIZE));
            assert(d2 =~= s.subrange(p + 1, p + 1 + DIGEST_SIZE));
        },
        (SubtreeEntryView::File(_, _), SubtreeEntryView::Subtree(_)) => {
            assert(t1[0] == 0u8 && t2[0] == 1u8);
        },
        (SubtreeEntryView::Subtree(_), SubtreeEntryView::File(_, _)) => {
            assert(t1[0] == 1u8 && t2[0] == 0u8);
        },
    }
}

/// Reads one named entry block from `input` at `pos`. Exact in both
/// directions: success returns precisely the block that sits there, and
/// failure means no well-typed block sits there.
#[verifier::rlimit(100)]
fn parse_entry(input: &Vec<u8>, pos: usize) -> (r: Result<(Vec<u8>, SubtreeEntry, usize), Error>)
    requires
        pos <= input.len(),
    ensures
        match r {
            Ok((name, e, end)) => {
                &&& pos < end <= input.len()
                &&& input@.subrange(pos as int, end as int) == named_entry_spec(name@, e@)
                &&& e@.wf()
                &&& name@.len() <= u64::MAX
            },
            Err(er) => {
                &&& er == Error::MalformedObject
                &&& forall|n: Seq<u8>, ev: SubtreeEntryView|
                    ev.wf() && n.len() <= u64::MAX ==> !starts_with(
                        input@.skip(pos as int),
                        #[trigger] named_entry_spec(n, ev),
                    )
            },
        },
{
    let ghost s = input@;
    proof {
        assert(s.skip(pos as int).skip(0) =~= s.skip(pos as int));
    }
    let (nlen, p1) = match leb128_read(input, pos) {
        Ok(v) => v,
        Err(_) => {
            proof {
                assert forall|n: Seq<u8>, ev: SubtreeEntryView|
                    ev.wf() && n.len() <= u64::MAX implies !starts_with(
                        s.skip(pos as int),
                        #[trigger] named_entry_spec(n, ev),
                    ) by {
                    if starts_with(s.skip(pos as int), named_entry_spec(n, ev)) {
                        let w64: u64 = n.len() as u64;
                        assert(leb128_spec(w64 as nat) == leb128_spec(n.len()));
                        assert(starts_with(s.skip(pos as int), leb128_spec(w64 as nat))) by {
                            assert(s.skip(pos as int).subrange(0, leb128_spec(n.len()).len() as int)
                                =~= named_entry_spec(n, ev).subrange(0, leb128_spec(n.len()).len() as int));
                            assert(named_entry_spec(n, ev).subrange(0, leb128_spec(n.len()).len() as int)
                                =~= leb128_spec(n.len()));
                        }
                    }
                }
            }
            return Err(Error::MalformedObject);
        },
    };
    proof {
        assert forall|n: Seq<u8>, ev: SubtreeEntryView|
            ev.wf() && n.len() <= u64::MAX && starts_with(s.skip(pos as int), #[trigger] named_entry_spec(n, ev))
            implies n.len() == nlen && named_entry_spec(n, ev).len() >= (p1 - pos) + n.len() + 1 + DIGEST_SIZE
                && n == s.subrange(p1 as int, p1 + n.len()) by {
            assert(s.skip(pos as int).subrange(0, leb128_spec(n.len()).len() as int)
                =~= named_entry_spec(n, ev).subrange(0, leb128_spec(n.len()).len() as int));
            assert(named_entry_spec(n, ev).subrange(0, leb128_spec(n.len()).len() as int) =~= leb128_spec(n.len()));
            assert(starts_with(s.skip(pos as int), leb128_spec(n.len())));
            lemma_leb128_prefix_free(s, pos as int, nlen as nat, (p1 - pos) as nat, n.len());
            assert(entry_spec(ev).len() >= 1 + DIGEST_SIZE);
            assert forall|x: int| 0 <= x < n.len() implies n[x] == s[p1 + x] by {
                assert(named_entry_spec(n, ev)[(p1 - pos) + x] == n[x]);
                assert(s.skip(pos as int)[(p1 - pos) + x] == s[p1 + x]);
                assert(s.skip(pos as int).subrange(0, named_entry_spec(n, ev).len() as int)[(p1 - pos) + x]
                    == named_entry_spec(n, ev)[(p1 - pos) + x]);
            }
            assert(n =~= s.subrange(p1 as int, p1 + n.len()));
        }
    }
    // the name, the tag and a digest must fit
    if nlen > (input.len() - p1) as u64 || (input.len() - p1) as u64 - nlen < (1 + DIGEST_SIZE as u64) {
        return Err(Error::MalformedObject);
    }
    let name_end: usize = p1 + nlen as usize;
    let name = copy_range(input, p1, name_end);
    let tag = input[name_end];
    if tag != 0 && tag != 1 {
        proof {
            assert forall|n: Seq<u8>, ev: SubtreeEntryView|
                ev.wf() && n.len() <= u64::MAX implies !starts_with(
                    s.skip(pos as int),
                    #[trigger] named_entry_spec(n, ev),
                ) by {
                if starts_with(s.skip(pos as int), named_entry_spec(n, ev)) {
                    let blk = named_entry_spec(n, ev);
                    assert(blk[(p1 - pos) + n.len() as int] == entry_spec(ev)[0]);
                    assert(s.skip(pos as int).subrange(0, blk.len() as int)[(p1 - pos) + n.len() as int]
                        == blk[(p1 - pos) + n.len() as int]);
                    assert(s[name_end as int] == entry_spec(ev)[0]);
                    assert(entry_spec(ev)[0] == 0u8 || entry_spec(ev)[0] == 1u8);
                }
            }
        }
        return Err(Error::MalformedObject);
    }
    let dig_end: usize = name_end + 1 + DIGEST_SIZE;
    let dig = copy_range(input, name_end + 1, dig_end);
    let d = Sha3Digest::from_bytes(&dig);
    if tag == 1 {
        let e = SubtreeEntry::Subtree(d);
        proof {
            assert(input@.subrange(pos as int, dig_end as int) =~= named_entry_spec(name@, e@)) by {
                assert(s.subrange(pos as int, p1 as int) == leb128_spec(nlen as nat));
                assert(name@ == s.subrange(p1 as int, name_end as int));
                assert(e@ == SubtreeEntryView::Subtree(dig@));
            }
        }
        Ok((name, e, dig_end))
    } else {
        let (sz, p2) = match leb128_read(input, dig_end) {
            Ok(v) => v,
            Err(_) => {
                proof {
                    assert forall|n: Seq<u8>, ev: SubtreeEntryView|
                        ev.wf() && n.len() <= u64::MAX implies !starts_with(
                            s.skip(pos as int),
                            #[trigger] named_entry_spec(n, ev),
                        ) by {
                        if starts_with(s.skip(pos as int), named_entry_spec(n, ev)) {
                            let blk = named_entry_spec(n, ev);
                            assert(blk[(p1 - pos) + n.len() as int] == entry_spec(ev)[0]);
                            assert(s.skip(pos as int).subrange(0, blk.len() as int)[(p1 - pos) + n.len() as int]
                                == blk[(p1 - pos) + n.len() as int]);
                            assert(s[name_end as int] == entry_spec(ev)[0]);
                            match ev {
                                SubtreeEntryView::File(dv, zv) => {
                                    let zs = leb128_spec(zv as nat);
                                    assert(starts_with(s.skip(dig_end as int), zs)) by {
                                        assert forall|x: int| 0 <= x < zs.len() implies s.skip(dig_end as int)[x]
                                            == zs[x] by {
                                            assert(blk[(dig_end - pos) + x] == zs[x]);
                                            assert(s.skip(pos as int).subrange(0, blk.len() as int)[(dig_end - pos)
                                                + x] == blk[(dig_end - pos) + x]);
                                        }
                                        assert(s.skip(dig_end as int).subrange(0, zs.len() as int) =~= zs);
                                    }
                                },
                                SubtreeEntryView::Subtree(_) => {
                                    assert(entry_spec(ev)[0] == 1u8);
                                },
                            }
                        }
                    }
                }
                return Err(Error::MalformedObject);
            },
        };
        let e = SubtreeEntry::File(d, sz);
        proof {
            assert(input@.subrange(pos as int, p2 as int) =~= named_entry_spec(name@, e@)) by {
                assert(s.subrange(pos as int, p1 as int) == leb128_spec(nlen as nat));
                assert(name@ == s.subrange(p1 as int, name_end as int));
                assert(s.subrange(dig_end as int, p2 as int) == leb128_spec(sz as nat));
                assert(e@ == SubtreeEntryView::File(dig@, sz));
            }
        }
        Ok((name, e, p2))
    }
}


/// Encodes the subtree payload of `o`.
pub fn encode_subtree_payload(o: &SubtreeObject) -> (out: Vec<u8>)
    requires
        o.wf(),
    ensures
        out@ == subtree_payload_spec(o@),
{
    let mut out: Vec<u8> = Vec::new();
    out.push(2u8);
    leb128_write(&mut out, o.entries.len() as u64);
    let ghost head = seq![2u8] + leb128_spec(o@.len());
    proof {
        assert(out@ =~= head);
        assert(pairs_view(o.entries@.subrange(0, 0)) =~= Seq::<(Seq<u8>, SubtreeEntryView)>::empty());
        assert(out@ =~= head + entries_spec(pairs_view(o.entries@.subrange(0, 0))));
    }
    let mut i: usize = 0;
    while i < o.entries.len()
        invariant
            i <= o.entries@.len(),
            o.wf(),
            out@ == head + entries_spec(pairs_view(o.entries@.subrange(0, i as int))),
        decreases o.entries@.len() - i,
    {
        let p = &o.entries[i];
        proof {
            assert(o@[i as int] == (p.0@, p.1@));
            assert(o@[i as int].0.len() <= u64::MAX && o@[i as int].1.wf());
        }
        leb128_write(&mut out, p.0.len() as u64);
        append_bytes(&mut out, &p.0);
        match &p.1 {
            SubtreeEntry::File(d, sz) => {
                out.push(0u8);
                append_bytes(&mut out, d.as_bytes());
                leb128_write(&mut out, *sz);
            },
            SubtreeEntry::Subtree(d) => {
                out.push(1u8);
                append_bytes(&mut out, d.as_bytes());
            },
        }
        proof {
            let pre = pairs_view(o.entries@.subrange(0, i as int));
            let post = pairs_view(o.entries@.subrange(0, i + 1));
            assert(post.drop_last() =~= pre);
            assert(post.last() == (p.0@, p.1@));
            assert(post =~= pre.push((p.0@, p.1@)));
            lemma_entries_spec_push(pre, (p.0@, p.1@));
            assert(out@ =~= head + entries_spec(post));
        }
        i = i + 1;
    }
    proof {
        assert(o.entries@.subrange(0, o.entries@.len() as int) =~= o.entries@);
        assert(out@ =~= subtree_payload_spec(o@));
    }
    out
}

/// Decodes a subtree payload. The whole of `input` must be consumed. Exact
/// in both directions: success returns precisely the entry list `input`
/// encodes, and failure means `input` encodes no well-formed subtree.
#[verifier::rlimit(100)]
pub fn decode_subtree_payload(input: &Vec<u8>) -> (r: Result<SubtreeObject, Error>)
    ensures
        match r {
            Ok(o) => is_subtree_payload_of(input@, o@) && o.wf(),
            Err(e) => e == Error::MalformedObject && !subtree_decodable(input@),
        },
{
    let ghost s = input@;
    proof {
        if subtree_decodable(s) {
            let es = subtree_decoded(s);
            assert(is_subtree_payload_of(s, es));
            assert(s[0] == 2u8);
            assert(s.len() >= 1);
        }
    }
    if input.len() == 0 || input[0] != 2 {
        return Err(Error::MalformedObject);
    }
    let (count, p1) = match leb128_read(input, 1) {
        Ok(v) => v,
        Err(_) => {
            proof {
                if subtree_decodable(s) {
                    let es = subtree_decoded(s);
                    let w64: u64 = es.len() as u64;
                    assert(leb128_spec(w64 as nat) == leb128_spec(es.len()));
                    assert(starts_with(s.skip(1), leb128_spec(w64 as nat))) by {
                        assert(s.skip(1).subrange(0, leb128_spec(es.len()).len() as int) =~= leb128_spec(es.len()));
                    }
                }
            }
            return Err(Error::MalformedObject);
        },
    };
    proof {
        if subtree_decodable(s) {
            let es = subtree_decoded(s);
            assert(s.subrange(1, 1 + leb128_spec(es.len()).len() as int) =~= leb128_spec(es.len()));
            assert(starts_with(s.skip(1), leb128_spec(es.len()))) by {
                assert(s.skip(1).subrange(0, leb128_spec(es.len()).len() as int) =~= leb128_spec(es.len()));
            }
            lemma_leb128_prefix_free(s, 1, count as nat, (p1 - 1) as nat, es.len());
            assert(count as nat == es.len());
            assert(p1 == 1 + leb128_spec(es.len()).len());
            lemma_entries_decomp(es, 0);
            assert(es.take(0) =~= Seq::<(Seq<u8>, SubtreeEntryView)>::empty());
            assert(entries_spec(es.take(0)) =~= Seq::<u8>::empty());
        }
    }
    let mut parsed: Vec<(Vec<u8>, SubtreeEntry)> = Vec::new();
    let mut pos: usize = p1;
    let mut k: u64 = 0;
    while k < count
        invariant
            k <= count,
            p1 <= pos <= input.len(),
            s == input@,
            parsed@.len() == k,
            forall|i: int| 0 <= i < parsed@.len() ==> (#[trigger] pairs_view(parsed@)[i]).1.wf()
                && pairs_view(parsed@)[i].0.len() <= u64::MAX,
            forall|i: int, j: int| 0 <= i < j < parsed@.len() ==> lex_lt(
                pairs_view(parsed@)[i].0,
                pairs_view(parsed@)[j].0,
            ),
            s.subrange(p1 as int, pos as int) == entries_spec(pairs_view(parsed@)),
            subtree_decodable(s) ==> {
                let es = subtree_decoded(s);
                &&& count as nat == es.len()
                &&& p1 == 1 + leb128_spec(es.len()).len()
                &&& pairs_view(parsed@) == es.take(k as int)
                &&& pos == p1 + entries_spec(es.take(k as int)).len()
            },
        decreases count - k,
    {
        let ghost pvs = pairs_view(parsed@);
        proof {
            if subtree_decodable(s) {
                let es = subtree_decoded(s);
                lemma_entries_decomp(es, k as int);
                assert(s.skip(pos as int) =~= entries_spec(es.skip(k as int)));
                assert(es.skip(k as int).len() > 0);
                assert(entries_spec(es.skip(k as int)) == named_entry_spec(
                    es.skip(k as int)[0].0,
                    es.skip(k as int)[0].1,
                ) + entries_spec(es.skip(k as int).drop_first()));
                assert(es.skip(k as int)[0] == es[k as int]);
                assert(starts_with(s.skip(pos as int), named_entry_spec(es[k as int].0, es[k as int].1))) by {
                    assert(s.skip(pos as int).subrange(
                        0,
                        named_entry_spec(es[k as int].0, es[k as int].1).len() as int,
                    ) =~= named_entry_spec(es[k as int].0, es[k as int].1));
                }
                assert(es[k as int].1.wf() && es[k as int].0.len() <= u64::MAX);
            }
        }
        let (name, e, end) = match parse_entry(input, pos) {
            Ok(v) => v,
            Err(_) => {
                return Err(Error::MalformedObject);
            },
        };
        proof {
            if subtree_decodable(s) {
                let es = subtree_decoded(s);
                assert(starts_with(s.skip(pos as int), named_entry_spec(name@, e@))) by {
                    assert(s.skip(pos as int).subrange(0, named_entry_spec(name@, e@).len() as int)
                        =~= s.subrange(pos as int, end as int));
                }
                lemma_named_entry_unambiguous(
                    s.skip(pos as int),
                    name@,
                    e@,
                    es[k as int].0,
                    es[k as int].1,
                );
                assert(name@ == es[k as int].0 && e@ == es[k as int].1);
            }
        }
        if parsed.len() > 0 {
            let c = crate::bytes::bytes_cmp(&parsed[parsed.len() - 1].0, &name);
            if c >= 0 {
                proof {
                    if subtree_decodable(s) {
                        let es = subtree_decoded(s);
                        assert(pairs_view(parsed@)[k as int - 1] == es.take(k as int)[k as int - 1]);
                        assert(es.take(k as int)[k as int - 1] == es[k as int - 1]);
                        assert(lex_lt(es[k as int - 1].0, es[k as int].0));
                        assert(parsed@[k as int - 1].0@ == pairs_view(parsed@)[k as int - 1].0);
                        crate::bytes::lemma_lex_total(parsed@[k as int - 1].0@, name@);
                    }
                }
                return Err(Error::MalformedObject);
            }
        }
        proof {
            let newpair = (name@, e@);
            let post = pairs_view(parsed@.push((name, e)));
            assert(post =~= pvs.push(newpair));
            lemma_entries_spec_push(pvs, newpair);
            // sortedness: the new name is above the previous, so above all
            assert forall|i: int| 0 <= i < pvs.len() implies lex_lt(pvs[i].0, name@) by {
                if i < pvs.len() - 1 {
                    crate::bytes::lemma_lex_trans(pvs[i].0, pvs[pvs.len() - 1].0, name@);
                } else {
                    assert(pvs[pvs.len() - 1].0 == parsed@[k as int - 1].0@);
                }
            }
            assert(s.subrange(p1 as int, end as int) =~= entries_spec(pvs) + named_entry_spec(name@, e@)) by {
                assert(s.subrange(p1 as int, pos as int) == entries_spec(pvs));
                assert(s.subrange(pos as int, end as int) == named_entry_spec(name@, e@));
            }
            if subtree_decodable(s) {
                let es = subtree_decoded(s);
                assert(es.take(k as int + 1) =~= es.take(k as int).push(es[k as int]));
                lemma_entries_spec_push(es.take(k as int), es[k as int]);
                assert(post =~= es.take(k as int + 1));
            }
        }
        parsed.push((name, e));
        pos = end;
        k = k + 1;
    }
    if pos != input.len() {
        proof {
            if subtree_decodable(s) {
                let es = subtree_decoded(s);
                assert(es.take(count as int) =~= es);
                assert(pos == p1 + entries_spec(es).len());
                assert(s.len() == p1 + entries_spec(es).len());
            }
        }
        return Err(Error::MalformedObject);
    }
    let o = SubtreeObject { entries: parsed };
    proof {
        assert(s =~= subtree_payload_spec(o@)) by {
            assert(s.subrange(1, p1 as int) == leb128_spec(count as nat));
            assert(s.subrange(p1 as int, pos as int) == entries_spec(o@));
            assert(o@.len() == count as nat);
        }
        assert(is_subtree_payload_of(s, o@));
    }
    Ok(o)
}

/// Subtree payloads are injective: equal bytes mean equal entry lists.
pub proof fn lemma_subtree_payload_injective(
    s: Seq<u8>,
    e1: Seq<(Seq<u8>, SubtreeEntryView)>,
    e2: Seq<(Seq<u8>, SubtreeEntryView)>,
)
    requires
        is_subtree_payload_of(s, e1),
        is_subtree_payload_of(s, e2),
    ensures
        e1 == e2,
    decreases e1.len(),
{
    let l1 = leb128_spec(e1.len());
    let l2 = leb128_spec(e2.len());
    assert(s.skip(1).subrange(0, l1.len() as int) =~= l1);
    assert(s.skip(1).subrange(0, l2.len() as int) =~= l2);
    assert(s.subrange(1, 1 + l1.len() as int) =~= l1);
    assert(starts_with(s.skip(1), l2));
    lemma_leb128_prefix_free(s, 1, e1.len(), l1.len(), e2.len());
    assert(e1.len() == e2.len());
    let t = s.skip(1 + l1.len() as int);
    assert(t =~= entries_spec(e1));
    assert(t =~= entries_spec(e2));
    lemma_entries_list_injective(t, e1, e2);
}

/// Entry lists with equal payload bytes and equal lengths are equal.
proof fn lemma_entries_list_injective(
    t: Seq<u8>,
    e1: Seq<(Seq<u8>, SubtreeEntryView)>,
    e2: Seq<(Seq<u8>, SubtreeEntryView)>,
)
    requires
        entries_wf(e1),
        entries_wf(e2),
        e1.len() == e2.len(),
        t == entries_spec(e1),
        t == entries_spec(e2),
    ensures
        e1 == e2,
    decreases e1.len(),
{
    if e1.len() == 0 {
        assert(e1 =~= e2);
    } else {
        let h1 = named_entry_spec(e1[0].0, e1[0].1);
        let h2 = named_entry_spec(e2[0].0, e2[0].1);
        assert(t.skip(0) =~= t);
        assert(starts_with(t, h1)) by {
            assert(t.subrange(0, h1.len() as int) =~= h1);
        }
        assert(starts_with(t, h2)) by {
            assert(t.subrange(0, h2.len() as int) =~= h2);
        }
        assert(e1[0].1.wf() && e2[0].1.wf());
        lemma_named_entry_unambiguous(t, e1[0].0, e1[0].1, e2[0].0, e2[0].1);
        assert(e1[0] == e2[0]);
        let r1 = e1.drop_first();
        let r2 = e2.drop_first();
        assert(t.skip(h1.len() as int) =~= entries_spec(r1));
        assert(t.skip(h1.len() as int) =~= entries_spec(r2));
        assert forall|i: int| 0 <= i < r1.len() implies (#[trigger] r1[i]).1.wf() && r1[i].0.len() <= u64::MAX by {
            assert(r1[i] == e1[i + 1]);
        }
        assert forall|i: int| 0 <= i < r2.len() implies (#[trigger] r2[i]).1.wf() && r2[i].0.len() <= u64::MAX by {
            assert(r2[i] == e2[i + 1]);
        }
        assert forall|i: int, j: int| 0 <= i < j < r1.len() implies lex_lt(r1[i].0, r1[j].0) by {
            assert(r1[i] == e1[i + 1] && r1[j] == e1[j + 1]);
        }
        assert forall|i: int, j: int| 0 <= i < j < r2.len() implies lex_lt(r2[i].0, r2[j].0) by {
            assert(r2[i] == e2[i + 1] && r2[j] == e2[j + 1]);
        }
        lemma_entries_list_injective(t.skip(h1.len() as int), r1, r2);
        assert forall|i: int| 0 <= i < e1.len() implies e1[i] == e2[i] by {
            if i > 0 {
                assert(e1[i] == r1[i - 1] && e2[i] == r2[i - 1]);
            }
        }
        assert(e1 =~= e2);
    }
}

/// A well-formed subtree decodes back from its own payload: the subtree
/// round-trip law.
pub proof fn lemma_subtree_round_trip(es: Seq<(Seq<u8>, SubtreeEntryView)>)
    requires
        subtree_wf(es),
    ensures
        subtree_decodable(subtree_payload_spec(es)),
        subtree_decoded(subtree_payload_spec(es)) == es,
{
    let s = subtree_payload_spec(es);
    assert(is_subtree_payload_of(s, es));
    lemma_subtree_payload_injective(s, subtree_decoded(s), es);
}


/// The digests of a subtree's entries, in name order: the `refs` list of
/// the stored object a subtree marshals to.
pub open spec fn subtree_refs_spec(es: Seq<(Seq<u8>, SubtreeEntryView)>) -> Seq<Seq<u8>> {
    es.map_values(|p: (Seq<u8>, SubtreeEntryView)| p.1.hash())
}

impl SubtreeObject {
    /// The raw stored object for this subtree: the payload as blob, the
    /// entries' digests as references, in name order.
    pub fn to_object(&self) -> (r: Object)
        requires
            self.wf(),
        ensures
            r@.blob == subtree_payload_spec(self@),
            r@.refs == subtree_refs_spec(self@),
            r@.wf(),
    {
        let blob = encode_subtree_payload(self);
        let mut refs: Vec<Sha3Digest> = Vec::new();
        let mut i: usize = 0;
        while i < self.entries.len()
            invariant
                i <= self.entries@.len(),
                refs@.len() == i,
                forall|j: int| 0 <= j < i ==> (#[trigger] refs@[j])@ == pairs_view(self.entries@)[j].1.hash(),
            decreases self.entries@.len() - i,
        {
            refs.push(self.entries[i].1.hash());
            proof {
                assert(pairs_view(self.entries@)[i as int].1 == self.entries@[i as int].1@);
            }
            i = i + 1;
        }
        let r = Object::new(blob, refs);
        r.confirm_wf();
        proof {
            assert(r@.refs =~= subtree_refs_spec(self@));
        }
        r
    }
}

/// A "small" data object: a single chunk of bytes.
#[derive(Debug)]
pub struct SmallObject {
    pub chunk: Vec<u8>,
}

/// The borrowed form of a small object: a chunk viewed in place.
#[derive(Clone, Copy)]
pub struct RawSmallObject<'a> {
    pub chunk: &'a [u8],
}

/// The payload of a small object: the tag, then the chunk bytes verbatim.
pub open spec fn small_payload_spec(chunk: Seq<u8>) -> Seq<u8> {
    seq![0u8] + chunk
}

impl SmallObject {
    /// The number of bytes the object stands for.
    pub fn size(&self) -> (n: u64)
        requires
            self.chunk@.len() <= u64::MAX,
        ensures
            n == self.chunk@.len(),
    {
        self.chunk.len() as u64
    }

    /// The borrowed form.
    pub fn as_raw(&self) -> (r: RawSmallObject<'_>)
        ensures
            r.chunk@ == self.chunk@,
    {
        RawSmallObject { chunk: self.chunk.as_slice() }
    }

    /// The raw stored object for this chunk: no references.
    pub fn to_object(&self) -> (r: Object)
        ensures
            r@.blob == small_payload_spec(self.chunk@),
            r@.refs == Seq::<Seq<u8>>::empty(),
            r@.wf(),
    {
        let mut blob: Vec<u8> = Vec::new();
        blob.push(0u8);
        append_bytes(&mut blob, &self.chunk);
        let r = Object::new(blob, Vec::new());
        r.confirm_wf();
        proof {
            assert(r@.blob =~= small_payload_spec(self.chunk@));
            assert(r@.refs =~= Seq::<Seq<u8>>::empty());
        }
        r
    }
}

/// Decodes a small-object payload: the tag byte, then the chunk verbatim.
/// Exact in both directions: success returns precisely the chunk `input`
/// carries, and failure means `input` is no small payload at all.
pub fn decode_small_payload(input: &Vec<u8>) -> (r: Result<SmallObject, Error>)
    ensures
        match r {
            Ok(o) => input@ == small_payload_spec(o.chunk@),
            Err(e) => e == Error::MalformedObject && forall|c: Seq<u8>| input@ != small_payload_spec(c),
        },
{
    if input.len() == 0 || input[0] != 0 {
        proof {
            assert forall|c: Seq<u8>| input@ != small_payload_spec(c) by {
                if input@ == small_payload_spec(c) {
                    assert(input@.len() >= 1);
                    assert(input@[0] == 0u8);
                }
            }
        }
        return Err(Error::MalformedObject);
    }
    let chunk = copy_range(input, 1, input.len());
    proof {
        assert(input@ =~= small_payload_spec(chunk@));
    }
    Ok(SmallObject { chunk })
}

/// A "large" data object: the total size and the ordered child chunks,
/// each with its own size and digest.
#[derive(Debug)]
pub struct LargeObject {
    pub size: u64,
    pub children: Vec<(u64, Sha3Digest)>,
}

/// The child list of a large object, as plain values.
pub open spec fn children_view(cs: Seq<(u64, Sha3Digest)>) -> Seq<(u64, Seq<u8>)> {
    cs.map_values(|p: (u64, Sha3Digest)| (p.0, p.1@))
}

/// The payload bytes of a large object's child list, in order.
pub open spec fn large_children_spec(cs: Seq<(u64, Seq<u8>)>) -> Seq<u8>
    decreases cs.len(),
{
    if cs.len() == 0 {
        Seq::empty()
    } else {
        leb128_spec(cs[0].0 as nat) + cs[0].1 + large_children_spec(cs.drop_first())
    }
}

/// Appending one child appends its bytes.
pub proof fn lemma_large_children_push(cs: Seq<(u64, Seq<u8>)>, p: (u64, Seq<u8>))
    ensures
        large_children_spec(cs.push(p)) == large_children_spec(cs) + (leb128_spec(p.0 as nat) + p.1),
    decreases cs.len(),
{
    if cs.len() == 0 {
        assert(cs.push(p)[0] == p);
        assert(cs.push(p).drop_first() =~= Seq::<(u64, Seq<u8>)>::empty());
        assert(large_children_spec(Seq::<(u64, Seq<u8>)>::empty()) =~= Seq::<u8>::empty());
        assert(large_children_spec(cs.push(p)) =~= large_children_spec(cs) + (leb128_spec(p.0 as nat) + p.1));
    } else {
        assert(cs.push(p).drop_first() =~= cs.drop_first().push(p));
        assert(cs.push(p)[0] == cs[0]);
        lemma_large_children_push(cs.drop_first(), p);
        assert(large_children_spec(cs.push(p)) =~= large_children_spec(cs) + (leb128_spec(p.0 as nat) + p.1));
    }
}

/// The payload of a large object: tag, total size, child count, children.
pub open spec fn large_payload_spec(size: u64, cs: Seq<(u64, Seq<u8>)>) -> Seq<u8> {
    seq![1u8] + leb128_spec(size as nat) + leb128_spec(cs.len()) + large_children_spec(cs)
}

impl LargeObject {
    /// The number of bytes the object stands for.
    pub fn size(&self) -> (n: u64)
        ensures
            n == self.size,
    {
        self.size
    }

    /// The raw stored object: the payload as blob, the child digests as
    /// references, in order.
    pub fn to_object(&self) -> (r: Object)
        ensures
            r@.blob == large_payload_spec(self.size, children_view(self.children@)),
            r@.refs.len() == self.children@.len(),
            forall|i: int| 0 <= i < self.children@.len() ==> r@.refs[i] == (#[trigger] self.children@[i]).1@,
            r@.wf(),
    {
        let mut blob: Vec<u8> = Vec::new();
        blob.push(1u8);
        leb128_write(&mut blob, self.size);
        leb128_write(&mut blob, self.children.len() as u64);
        let ghost head = seq![1u8] + leb128_spec(self.size as nat) + leb128_spec(self.children@.len());
        let ghost cv = children_view(self.children@);
        proof {
            assert(children_view(self.children@.subrange(0, 0)) =~= Seq::<(u64, Seq<u8>)>::empty());
            assert(large_children_spec(Seq::<(u64, Seq<u8>)>::empty()) =~= Seq::<u8>::empty());
            assert(blob@ =~= head + large_children_spec(children_view(self.children@.subrange(0, 0))));
        }
        let mut refs: Vec<Sha3Digest> = Vec::new();
        let mut i: usize = 0;
        while i < self.children.len()
            invariant
                i <= self.children@.len(),
                refs@.len() == i,
                forall|j: int| 0 <= j < i ==> (#[trigger] refs@[j])@ == self.children@[j].1@,
                blob@ == head + large_children_spec(children_view(self.children@.subrange(0, i as int))),
            decreases self.children@.len() - i,
        {
            let c = &self.children[i];
            leb128_write(&mut blob, c.0);
            append_bytes(&mut blob, c.1.as_bytes());
            refs.push(c.1.duplicate());
            proof {
                let pre = children_view(self.children@.subrange(0, i as int));
                let post = children_view(self.children@.subrange(0, i + 1));
                assert(post.drop_last() =~= pre);
                assert(post.last() == (c.0, c.1@));
                assert(post =~= pre.push((c.0, c.1@)));
                lemma_large_children_push(pre, (c.0, c.1@));
                assert(blob@ =~= head + large_children_spec(post));
            }
            i = i + 1;
        }
        proof {
            assert(self.children@.subrange(0, self.children@.len() as int) =~= self.children@);
        }
        let r = Object::new(blob, refs);
        r.confirm_wf();
        proof {
            assert(r@.blob =~= large_payload_spec(self.size, cv));
            assert forall|i2: int| 0 <= i2 < self.children@.len() implies r@.refs[i2] == (
            #[trigger] self.children@[i2]).1@ by {
                assert(r@.refs[i2] == refs@[i2]@);
            }
        }
        r
    }
}

/// Splitting a child list splits its payload bytes.
pub proof fn lemma_large_children_decomp(cs: Seq<(u64, Seq<u8>)>, k: int)
    requires
        0 <= k <= cs.len(),
    ensures
        large_children_spec(cs) == large_children_spec(cs.take(k)) + large_children_spec(cs.skip(k)),
    decreases k,
{
    if k == 0 {
        assert(cs.take(0) =~= Seq::<(u64, Seq<u8>)>::empty());
        assert(cs.skip(0) =~= cs);
        assert(large_children_spec(cs.take(0)) =~= Seq::<u8>::empty());
        assert(large_children_spec(cs) =~= large_children_spec(cs.take(0)) + large_children_spec(cs.skip(0)));
    } else {
        let rest = cs.drop_first();
        lemma_large_children_decomp(rest, k - 1);
        assert(rest.take(k - 1) =~= cs.take(k).drop_first());
        assert(rest.skip(k - 1) =~= cs.skip(k));
        assert(cs.take(k)[0] == cs[0]);
        assert(cs.take(k).len() == k);
        assert(large_children_spec(cs.take(k)) == leb128_spec(cs[0].0 as nat) + cs[0].1 + large_children_spec(
            rest.take(k - 1),
        ));
        assert(large_children_spec(cs) =~= large_children_spec(cs.take(k)) + large_children_spec(cs.skip(k)));
    }
}

/// A child block determines its size and digest: no byte sequence begins
/// with two different blocks.
proof fn lemma_large_child_unambiguous(s: Seq<u8>, z1: u64, d1: Seq<u8>, z2: u64, d2: Seq<u8>)
    requires
        d1.len() == DIGEST_SIZE,
        d2.len() == DIGEST_SIZE,
        starts_with(s, leb128_spec(z1 as nat) + d1),
        starts_with(s, leb128_spec(z2 as nat) + d2),
    ensures
        z1 == z2,
        d1 == d2,
{
    let l1 = leb128_spec(z1 as nat);
    let l2 = leb128_spec(z2 as nat);
    assert(s.skip(0) =~= s);
    assert(s.subrange(0, l1.len() as int) =~= l1);
    assert(s.subrange(0, l2.len() as int) =~= l2);
    assert(starts_with(s.skip(0), l2));
    lemma_leb128_prefix_free(s, 0, z1 as nat, l1.len(), z2 as nat);
    let p = l1.len() as int;
    assert(d1 =~= s.subrange(p, p + DIGEST_SIZE));
    assert(d2 =~= s.subrange(p, p + DIGEST_SIZE));
}

/// `s` is exactly the large payload of `(size, children)`, with full-width
/// digests and a count that fits the wire format.
pub open spec fn is_large_payload_of(s: Seq<u8>, size: u64, cs: Seq<(u64, Seq<u8>)>) -> bool {
    &&& forall|i: int| 0 <= i < cs.len() ==> (#[trigger] cs[i]).1.len() == DIGEST_SIZE
    &&& cs.len() <= u64::MAX
    &&& s == large_payload_spec(size, cs)
}

/// Some well-formed pair has `s` as its large payload.
pub open spec fn large_decodable(s: Seq<u8>) -> bool {
    exists|size: u64, cs: Seq<(u64, Seq<u8>)>| is_large_payload_of(s, size, cs)
}

/// Decodes a large-object payload. The whole of `input` must be consumed.
/// Exact in both directions: success returns precisely the size and child
/// list `input` encodes, and failure means `input` encodes none.
#[verifier::rlimit(100)]
pub fn decode_large_payload(input: &Vec<u8>) -> (r: Result<LargeObject, Error>)
    ensures
        match r {
            Ok(o) => is_large_payload_of(input@, o.size, children_view(o.children@)),
            Err(e) => e == Error::MalformedObject && !large_decodable(input@),
        },
{
    let ghost s = input@;
    proof {
        if large_decodable(s) {
            let (size0, cs0) = choose|size0: u64, cs0: Seq<(u64, Seq<u8>)>| is_large_payload_of(s, size0, cs0);
            assert(s[0] == 1u8 && s.len() >= 1);
        }
    }
    if input.len() == 0 || input[0] != 1 {
        return Err(Error::MalformedObject);
    }
    let (size, p1) = match leb128_read(input, 1) {
        Ok(v) => v,
        Err(_) => {
            proof {
                if large_decodable(s) {
                    let (size0, cs0) = choose|size0: u64, cs0: Seq<(u64, Seq<u8>)>|
                        is_large_payload_of(s, size0, cs0);
                    assert(starts_with(s.skip(1), leb128_spec(size0 as nat))) by {
                        assert(s.skip(1).subrange(0, leb128_spec(size0 as nat).len() as int) =~= leb128_spec(
                            size0 as nat,
                        ));
                    }
                }
            }
            return Err(Error::MalformedObject);
        },
    };
    let (count, p2) = match leb128_read(input, p1) {
        Ok(v) => v,
        Err(_) => {
            proof {
                if large_decodable(s) {
                    let (size0, cs0) = choose|size0: u64, cs0: Seq<(u64, Seq<u8>)>|
                        is_large_payload_of(s, size0, cs0);
                    assert(s.subrange(1, 1 + leb128_spec(size0 as nat).len() as int) =~= leb128_spec(size0 as nat));
                    assert(starts_with(s.skip(1), leb128_spec(size0 as nat))) by {
                        assert(s.skip(1).subrange(0, leb128_spec(size0 as nat).len() as int) =~= leb128_spec(
                            size0 as nat,
                        ));
                    }
                    lemma_leb128_prefix_free(s, 1, size as nat, (p1 - 1) as nat, size0 as nat);
                    let w64: u64 = cs0.len() as u64;
                    assert(leb128_spec(w64 as nat) == leb128_spec(cs0.len()));
                    assert(starts_with(s.skip(p1 as int), leb128_spec(w64 as nat))) by {
                        assert(s.skip(p1 as int).subrange(0, leb128_spec(cs0.len()).len() as int) =~= leb128_spec(
                            cs0.len(),
                        ));
                    }
                }
            }
            return Err(Error::MalformedObject);
        },
    };
    proof {
        if large_decodable(s) {
            let (size0, cs0) = choose|size0: u64, cs0: Seq<(u64, Seq<u8>)>| is_large_payload_of(s, size0, cs0);
            assert(s.subrange(1, 1 + leb128_spec(size0 as nat).len() as int) =~= leb128_spec(size0 as nat));
            assert(starts_with(s.skip(1), leb128_spec(size0 as nat))) by {
                assert(s.skip(1).subrange(0, leb128_spec(size0 as nat).len() as int) =~= leb128_spec(size0 as nat));
            }
            lemma_leb128_prefix_free(s, 1, size as nat, (p1 - 1) as nat, size0 as nat);
            assert(size == size0 && p1 == 1 + leb128_spec(size0 as nat).len());
            assert(s.subrange(p1 as int, p1 + leb128_spec(cs0.len()).len() as int) =~= leb128_spec(cs0.len()));
            assert(starts_with(s.skip(p1 as int), leb128_spec(cs0.len()))) by {
                assert(s.skip(p1 as int).subrange(0, leb128_spec(cs0.len()).len() as int) =~= leb128_spec(
                    cs0.len(),
                ));
            }
            lemma_leb128_prefix_free(s, p1 as int, count as nat, (p2 - p1) as nat, cs0.len());
            assert(count as nat == cs0.len() && p2 == p1 + leb128_spec(cs0.len()).len());
            lemma_large_children_decomp(cs0, 0);
            assert(cs0.take(0) =~= Seq::<(u64, Seq<u8>)>::empty());
            assert(large_children_spec(cs0.take(0)) =~= Seq::<u8>::empty());
        }
    }
    let mut children: Vec<(u64, Sha3Digest)> = Vec::new();
    let mut pos: usize = p2;
    let mut k: u64 = 0;
    while k < count
        invariant
            k <= count,
            p2 <= pos <= input.len(),
            s == input@,
            children@.len() == k,
            forall|i: int| 0 <= i < children@.len() ==> (#[trigger] children_view(children@)[i]).1.len()
                == DIGEST_SIZE,
            s.subrange(p2 as int, pos as int) == large_children_spec(children_view(children@)),
            large_decodable(s) ==> {
                let (size0, cs0) = choose|size0: u64, cs0: Seq<(u64, Seq<u8>)>|
                    is_large_payload_of(s, size0, cs0);
                &&& count as nat == cs0.len()
                &&& size == size0
                &&& p2 == 1 + leb128_spec(size0 as nat).len() + leb128_spec(cs0.len()).len()
                &&& children_view(children@) == cs0.take(k as int)
                &&& pos == p2 + large_children_spec(cs0.take(k as int)).len()
            },
        decreases count - k,
    {
        proof {
            if large_decodable(s) {
                let (size0, cs0) = choose|size0: u64, cs0: Seq<(u64, Seq<u8>)>| is_large_payload_of(s, size0, cs0);
                lemma_large_children_decomp(cs0, k as int);
                assert(s.skip(pos as int) =~= large_children_spec(cs0.skip(k as int)));
                assert(cs0.skip(k as int).len() > 0);
                assert(cs0.skip(k as int)[0] == cs0[k as int]);
                assert(large_children_spec(cs0.skip(k as int)) == leb128_spec(cs0[k as int].0 as nat) + cs0[
                    k as int].1 + large_children_spec(cs0.skip(k as int).drop_first()));
                let w64: u64 = cs0[k as int].0;
                assert(starts_with(s.skip(pos as int), leb128_spec(w64 as nat))) by {
                    assert(s.skip(pos as int).subrange(0, leb128_spec(w64 as nat).len() as int) =~= leb128_spec(
                        w64 as nat,
                    ));
                }
            }
        }
        let (csize, q1) = match leb128_read(input, pos) {
            Ok(v) => v,
            Err(_) => {
                return Err(Error::MalformedObject);
            },
        };
        if input.len() - q1 < DIGEST_SIZE {
            proof {
                if large_decodable(s) {
                    let (size0, cs0) = choose|size0: u64, cs0: Seq<(u64, Seq<u8>)>|
                        is_large_payload_of(s, size0, cs0);
                    assert(s.skip(pos as int).subrange(0, (q1 - pos) as int) =~= s.subrange(pos as int, q1 as int));
                    assert(s.skip(pos as int).skip(0) =~= s.skip(pos as int));
                    lemma_leb128_prefix_free(
                        s.skip(pos as int),
                        0,
                        csize as nat,
                        (q1 - pos) as nat,
                        cs0[k as int].0 as nat,
                    );
                    assert(s.len() - pos >= leb128_spec(cs0[k as int].0 as nat).len() + DIGEST_SIZE);
                }
            }
            return Err(Error::MalformedObject);
        }
        let dig = copy_range(input, q1, q1 + DIGEST_SIZE);
        let d = Sha3Digest::from_bytes(&dig);
        proof {
            if large_decodable(s) {
                let (size0, cs0) = choose|size0: u64, cs0: Seq<(u64, Seq<u8>)>| is_large_payload_of(s, size0, cs0);
                assert(s.skip(pos as int).subrange(0, (q1 - pos) as int) =~= s.subrange(pos as int, q1 as int));
                assert(s.skip(pos as int).skip(0) =~= s.skip(pos as int));
                lemma_large_children_decomp(cs0, k as int);
                assert(s.skip(pos as int) =~= large_children_spec(cs0.skip(k as int)));
                lemma_leb128_prefix_free(
                    s.skip(pos as int),
                    0,
                    csize as nat,
                    (q1 - pos) as nat,
                    cs0[k as int].0 as nat,
                );
                assert(csize == cs0[k as int].0);
                assert(q1 - pos == leb128_spec(cs0[k as int].0 as nat).len());
                assert(dig@ =~= cs0[k as int].1) by {
                    assert forall|x: int| 0 <= x < DIGEST_SIZE implies dig@[x] == cs0[k as int].1[x] by {
                        assert(dig@[x] == s[q1 + x]);
                        assert(s.skip(pos as int)[(q1 - pos) + x] == s[q1 + x]);
                        assert((leb128_spec(cs0[k as int].0 as nat) + cs0[k as int].1 + large_children_spec(
                            cs0.skip(k as int).drop_first(),
                        ))[(q1 - pos) + x] == cs0[k as int].1[x]);
                    }
                }
                let pre_cv = children_view(children@);
                let post_cv = children_view(children@.push((csize, d)));
                assert(post_cv =~= pre_cv.push((csize, d@)));
                lemma_large_children_push(pre_cv, (csize, d@));
                assert(cs0.take(k as int + 1) =~= cs0.take(k as int).push(cs0[k as int]));
                lemma_large_children_push(cs0.take(k as int), cs0[k as int]);
                assert(post_cv =~= cs0.take(k as int + 1));
            }
            let pre_cv = children_view(children@);
            let post_cv = children_view(children@.push((csize, d)));
            assert(post_cv =~= pre_cv.push((csize, d@)));
            lemma_large_children_push(pre_cv, (csize, d@));
            assert(s.subrange(p2 as int, q1 + DIGEST_SIZE) =~= large_children_spec(pre_cv) + (leb128_spec(
                csize as nat,
            ) + d@)) by {
                assert(s.subrange(p2 as int, pos as int) == large_children_spec(pre_cv));
                assert(s.subrange(pos as int, q1 as int) == leb128_spec(csize as nat));
                assert(d@ =~= s.subrange(q1 as int, q1 + DIGEST_SIZE));
            }
        }
        children.push((csize, d));
        pos = q1 + DIGEST_SIZE;
        k = k + 1;
    }
    if pos != input.len() {
        proof {
            if large_decodable(s) {
                let (size0, cs0) = choose|size0: u64, cs0: Seq<(u64, Seq<u8>)>| is_large_payload_of(s, size0, cs0);
                assert(cs0.take(count as int) =~= cs0);
                assert(s.len() == p2 + large_children_spec(cs0).len());
            }
        }
        return Err(Error::MalformedObject);
    }
    let o = LargeObject { size, children };
    proof {
        assert(s =~= large_payload_spec(o.size, children_view(o.children@))) by {
            assert(s.subrange(1, p1 as int) == leb128_spec(size as nat));
            assert(s.subrange(p1 as int, p2 as int) == leb128_spec(count as nat));
            assert(s.subrange(p2 as int, pos as int) == large_children_spec(children_view(o.children@)));
            assert(children_view(o.children@).len() == count as nat);
        }
    }
    Ok(o)
}

/// A data object: a single chunk, or a list of chunk references.
#[derive(Debug)]
pub enum DataObject {
    Small(SmallObject),
    Large(LargeObject),
}

impl DataObject {
    /// The number of bytes the object stands for.
    pub fn size(&self) -> (n: u64)
        requires
            self matches DataObject::Small(s) ==> s.chunk@.len() <= u64::MAX,
        ensures
            n == (match self {
                DataObject::Small(s) => s.chunk@.len() as u64,
                DataObject::Large(l) => l.size,
            }),
    {
        match self {
            DataObject::Small(small) => small.size(),
            DataObject::Large(large) => large.size(),
        }
    }

    /// Whether the object stands for no bytes at all.
    pub fn is_empty(&self) -> (r: bool)
        requires
            self matches DataObject::Small(s) ==> s.chunk@.len() <= u64::MAX,
        ensures
            r == ((match self {
                DataObject::Small(s) => s.chunk@.len() as u64,
                DataObject::Large(l) => l.size,
            }) == 0),
    {
        self.size() == 0
    }

    /// The raw stored object for this data object.
    pub fn to_object(&self) -> (r: Object)
        ensures
            r@.wf(),
            r@.blob == (match self {
                DataObject::Small(s) => small_payload_spec(s.chunk@),
                DataObject::Large(l) => large_payload_spec(l.size, children_view(l.children@)),
            }),
    {
        match self {
            DataObject::Small(small) => small.to_object(),
            DataObject::Large(large) => large.to_object(),
        }
    }
}

/// A reference to an object of known kind, as it appears inside other
/// objects: a data blob with its size, a subtree, or a commit.
#[derive(Debug)]
pub enum ShallowObject {
    Data(Sha3Digest, u64),
    Subtree(Sha3Digest),
    Commit(Sha3Digest),
}

impl ShallowObject {
    /// The digest the reference carries.
    pub fn hash(&self) -> (d: Sha3Digest)
        ensures
            d@ == (match self {
                ShallowObject::Data(x, _) => x@,
                ShallowObject::Subtree(x) => x@,
                ShallowObject::Commit(x) => x@,
            }),
    {
        match self {
            ShallowObject::Data(d, _) => d.duplicate(),
            ShallowObject::Subtree(d) => d.duplicate(),
            ShallowObject::Commit(d) => d.duplicate(),
        }
    }
}

/// A commit timestamp in civil Coordinated Universal Time, second
/// resolution, year 0 through 9999.
#[derive(Debug, Clone, Copy, PartialEq, Eq, Structural)]
pub struct Timestamp {
    pub year: u16,
    pub month: u8,
    pub day: u8,
    pub hour: u8,
    pub minute: u8,
    pub second: u8,
}

impl Timestamp {
    /// The fields form a date and time of day.
    pub open spec fn wf(self) -> bool {
        &&& self.year <= 9999
        &&& 1 <= self.month <= 12
        &&& 1 <= self.day <= 31
        &&& self.hour < 24
        &&& self.minute < 60
        &&& self.second < 60
    }
}

/// The decimal digit character for `n`.
pub open spec fn digit_spec(n: nat) -> u8 {
    (48 + n % 10) as u8
}

/// The fixed 20-byte timestamp encoding `YYYY-MM-DDTHH:MM:SSZ`.
pub open spec fn timestamp_spec(t: Timestamp) -> Seq<u8> {
    seq![
        digit_spec((t.year / 1000) as nat),
        digit_spec((t.year / 100) as nat),
        digit_spec((t.year / 10) as nat),
        digit_spec(t.year as nat),
        45u8,
        digit_spec((t.month / 10) as nat),
        digit_spec(t.month as nat),
        45u8,
        digit_spec((t.day / 10) as nat),
        digit_spec(t.day as nat),
        84u8,
        digit_spec((t.hour / 10) as nat),
        digit_spec(t.hour as nat),
        58u8,
        digit_spec((t.minute / 10) as nat),
        digit_spec(t.minute as nat),
        58u8,
        digit_spec((t.second / 10) as nat),
        digit_spec(t.second as nat),
        90u8,
    ]
}

/// Appends the 20-byte timestamp encoding of `t` to `out`.
#[verifier::rlimit(100)]
#[verifier::spinoff_prover]
pub fn encode_timestamp(out: &mut Vec<u8>, t: &Timestamp)
    ensures
        final(out)@ == old(out)@ + timestamp_spec(*t),
{
    out.push(48 + ((t.year / 1000) % 10) as u8);
    out.push(48 + ((t.year / 100) % 10) as u8);
    out.push(48 + ((t.year / 10) % 10) as u8);
    out.push(48 + (t.year % 10) as u8);
    out.push(45);
    out.push(48 + (t.month / 10) % 10);
    out.push(48 + t.month % 10);
    out.push(45);
    out.push(48 + (t.day / 10) % 10);
    out.push(48 + t.day % 10);
    out.push(84);
    out.push(48 + (t.hour / 10) % 10);
    out.push(48 + t.hour % 10);
    out.push(58);
    out.push(48 + (t.minute / 10) % 10);
    out.push(48 + t.minute % 10);
    out.push(58);
    out.push(48 + (t.second / 10) % 10);
    out.push(48 + t.second % 10);
    out.push(90);
    assert(out@ =~= old(out)@ + timestamp_spec(*t));
}

/// A commit: the subtree it captures, its parent commits, a message, and
/// the time it was made.
#[derive(Debug)]
pub struct CommitObject {
    pub subtree: Sha3Digest,
    pub parents: Vec<Sha3Digest>,
    pub message: Vec<u8>,
    pub timestamp: Timestamp,
}

/// The digests of a commit's parents.
pub open spec fn parents_view(ps: Seq<Sha3Digest>) -> Seq<Seq<u8>> {
    ps.map_values(|d: Sha3Digest| d@)
}

/// The concatenated digest bytes of a commit's parents.
pub open spec fn parents_bytes_spec(ps: Seq<Seq<u8>>) -> Seq<u8>
    decreases ps.len(),
{
    if ps.len() == 0 {
        Seq::empty()
    } else {
        ps[0] + parents_bytes_spec(ps.drop_first())
    }
}

/// Appending one parent appends its digest bytes.
pub proof fn lemma_parents_bytes_push(ps: Seq<Seq<u8>>, p: Seq<u8>)
    ensures
        parents_bytes_spec(ps.push(p)) == parents_bytes_spec(ps) + p,
    decreases ps.len(),
{
    if ps.len() == 0 {
        assert(ps.push(p)[0] == p);
        assert(ps.push(p).drop_first() =~= Seq::<Seq<u8>>::empty());
        assert(parents_bytes_spec(Seq::<Seq<u8>>::empty()) =~= Seq::<u8>::empty());
        assert(parents_bytes_spec(ps.push(p)) =~= parents_bytes_spec(ps) + p);
    } else {
        assert(ps.push(p).drop_first() =~= ps.drop_first().push(p));
        assert(ps.push(p)[0] == ps[0]);
        lemma_parents_bytes_push(ps.drop_first(), p);
        assert(parents_bytes_spec(ps.push(p)) =~= parents_bytes_spec(ps) + p);
    }
}

/// The payload of a commit: tag, subtree digest, parent count and digests,
/// message length and bytes, timestamp.
pub open spec fn commit_payload_spec(
    subtree: Seq<u8>,
    parents: Seq<Seq<u8>>,
    message: Seq<u8>,
    t: Timestamp,
) -> Seq<u8> {
    seq![3u8] + subtree + leb128_spec(parents.len()) + parents_bytes_spec(parents) + leb128_spec(message.len())
        + message + timestamp_spec(t)
}

impl CommitObject {
    /// The raw stored object for this commit: the subtree digest first,
    /// then the parent digests, as references.
    pub fn to_object(&self) -> (r: Object)
        requires
            self.message@.len() <= u64::MAX,
            self.timestamp.wf(),
        ensures
            r@.blob == commit_payload_spec(
                self.subtree@,
                parents_view(self.parents@),
                self.message@,
                self.timestamp,
            ),
            r@.refs == seq![self.subtree@] + parents_view(self.parents@),
            r@.wf(),
    {
        let mut blob: Vec<u8> = Vec::new();
        blob.push(3u8);
        append_bytes(&mut blob, self.subtree.as_bytes());
        leb128_write(&mut blob, self.parents.len() as u64);
        let ghost head = seq![3u8] + self.subtree@ + leb128_spec(self.parents@.len());
        let mut refs: Vec<Sha3Digest> = Vec::new();
        refs.push(self.subtree.duplicate());
        proof {
            assert(parents_view(self.parents@.subrange(0, 0)) =~= Seq::<Seq<u8>>::empty());
            assert(parents_bytes_spec(Seq::<Seq<u8>>::empty()) =~= Seq::<u8>::empty());
            assert(blob@ =~= head + parents_bytes_spec(parents_view(self.parents@.subrange(0, 0))));
        }
        let mut i: usize = 0;
        while i < self.parents.len()
            invariant
                i <= self.parents@.len(),
                refs@.len() == i + 1,
                refs@[0]@ == self.subtree@,
                forall|j: int| 0 <= j < i ==> (#[trigger] refs@[j + 1])@ == self.parents@[j]@,
                blob@ == head + parents_bytes_spec(parents_view(self.parents@.subrange(0, i as int))),
            decreases self.parents@.len() - i,
        {
            let p = &self.parents[i];
            append_bytes(&mut blob, p.as_bytes());
            refs.push(p.duplicate());
            proof {
                let pre = parents_view(self.parents@.subrange(0, i as int));
                let post = parents_view(self.parents@.subrange(0, i + 1));
                assert(post.drop_last() =~= pre);
                assert(post.last() == self.parents@[i as int]@);
                assert(post =~= pre.push(p@));
                lemma_parents_bytes_push(pre, p@);
                assert(blob@ =~= head + parents_bytes_spec(post));
            }
            i = i + 1;
        }
        proof {
            assert(self.parents@.subrange(0, self.parents@.len() as int) =~= self.parents@);
        }
        leb128_write(&mut blob, self.message.len() as u64);
        append_bytes(&mut blob, &self.message);
        encode_timestamp(&mut blob, &self.timestamp);
        let r = Object::new(blob, refs);
        r.confirm_wf();
        proof {
            assert(r@.blob =~= commit_payload_spec(
                self.subtree@,
                parents_view(self.parents@),
                self.message@,
                self.timestamp,
            ));
            assert forall|j: int| 0 <= j < r@.refs.len() implies r@.refs[j] == (seq![self.subtree@]
                + parents_view(self.parents@))[j] by {
                if j > 0 {
                    assert(refs@[(j - 1) + 1]@ == self.parents@[j - 1]@);
                    assert(refs@[j]@ == self.parents@[j - 1]@);
                }
            }
            assert(r@.refs =~= seq![self.subtree@] + parents_view(self.parents@));
        }
        r
    }
}


/// In a parent list of full-width digests, parent `j` occupies bytes
/// `j*32 .. (j+1)*32`.
proof fn lemma_parents_bytes_pieces(ps: Seq<Seq<u8>>)
    requires
        forall|i: int| 0 <= i < ps.len() ==> (#[trigger] ps[i]).len() == DIGEST_SIZE,
    ensures
        parents_bytes_spec(ps).len() == ps.len() * DIGEST_SIZE,
        forall|j: int| 0 <= j < ps.len() ==> parents_bytes_spec(ps).subrange(
            j * DIGEST_SIZE,
            j * DIGEST_SIZE + DIGEST_SIZE,
        ) == ps[j],
    decreases ps.len(),
{
    if ps.len() == 0 {
    } else {
        let rest = ps.drop_first();
        assert(forall|i: int| 0 <= i < rest.len() ==> (#[trigger] rest[i]).len() == DIGEST_SIZE);
        lemma_parents_bytes_pieces(rest);
        assert(ps[0].len() == DIGEST_SIZE);
        assert(ps.len() * DIGEST_SIZE == DIGEST_SIZE + rest.len() * DIGEST_SIZE) by (nonlinear_arith)
            requires ps.len() >= 1, rest.len() == ps.len() - 1;
        assert forall|j: int| 0 <= j < ps.len() implies parents_bytes_spec(ps).subrange(
            j * DIGEST_SIZE,
            j * DIGEST_SIZE + DIGEST_SIZE,
        ) == ps[j] by {
            if j == 0 {
                assert(parents_bytes_spec(ps).subrange(0, DIGEST_SIZE as int) =~= ps[0]);
            } else {
                assert((j - 1) * DIGEST_SIZE == j * DIGEST_SIZE - DIGEST_SIZE) by (nonlinear_arith);
                assert(0 <= (j - 1) * DIGEST_SIZE && (j - 1) * DIGEST_SIZE + DIGEST_SIZE <= parents_bytes_spec(
                    rest,
                ).len()) by (nonlinear_arith)
                    requires 0 < j < ps.len(), rest.len() == ps.len() - 1, parents_bytes_spec(rest).len()
                        == rest.len() * DIGEST_SIZE;
                assert(parents_bytes_spec(rest).subrange((j - 1) * DIGEST_SIZE, (j - 1) * DIGEST_SIZE
                    + DIGEST_SIZE) == rest[j - 1]);
                assert(parents_bytes_spec(ps).subrange(j * DIGEST_SIZE, j * DIGEST_SIZE + DIGEST_SIZE)
                    =~= parents_bytes_spec(rest).subrange((j - 1) * DIGEST_SIZE, (j - 1) * DIGEST_SIZE
                    + DIGEST_SIZE));
                assert(rest[j - 1] == ps[j]);
            }
        }
    }
}

/// Two digits below ten compose to a number below one hundred whose
/// quotient and remainder by ten are the digits again.
proof fn lemma_two_digit_compose(f: int, g: int)
    requires
        0 <= f < 10,
        0 <= g < 10,
    ensures
        0 <= f * 10 + g < 100,
        (f * 10 + g) / 10 == f,
        (f * 10 + g) % 10 == g,
{
    assert((f * 10 + g) / 10 == f && (f * 10 + g) % 10 == g) by (nonlinear_arith)
        requires 0 <= f < 10, 0 <= g < 10;
}

/// Four digits below ten compose to a number below ten thousand whose
/// decimal digits are the four again.
proof fn lemma_four_digit_compose(a: int, b: int, c: int, e: int)
    requires
        0 <= a < 10,
        0 <= b < 10,
        0 <= c < 10,
        0 <= e < 10,
    ensures
        0 <= a * 1000 + b * 100 + c * 10 + e <= 9999,
        (a * 1000 + b * 100 + c * 10 + e) / 1000 == a,
        ((a * 1000 + b * 100 + c * 10 + e) / 100) % 10 == b,
        ((a * 1000 + b * 100 + c * 10 + e) / 10) % 10 == c,
        (a * 1000 + b * 100 + c * 10 + e) % 10 == e,
{
    let n = a * 1000 + b * 100 + c * 10 + e;
    assert(n / 1000 == a && (n / 100) % 10 == b && (n / 10) % 10 == c && n % 10 == e) by (nonlinear_arith)
        requires n == a * 1000 + b * 100 + c * 10 + e, 0 <= a < 10, 0 <= b < 10, 0 <= c < 10, 0 <= e < 10;
}

/// The twenty bytes of a well-formed timestamp's encoding, position by
/// position: digit characters with the field digits inside, the fixed
/// separators between, and the fields recomposable from the digits.
#[verifier::rlimit(100)]
#[verifier::spinoff_prover]
proof fn lemma_timestamp_spec_bytes(t: Timestamp)
    requires
        t.wf(),
    ensures
        ({
            let ts = timestamp_spec(t);
            &&& ts.len() == 20
            &&& ts[0] == 48 + t.year as int / 1000
            &&& ts[1] == 48 + (t.year as int / 100) % 10
            &&& ts[2] == 48 + (t.year as int / 10) % 10
            &&& ts[3] == 48 + t.year as int % 10
            &&& ts[4] == 45u8
            &&& ts[5] == 48 + t.month as int / 10
            &&& ts[6] == 48 + t.month as int % 10
            &&& ts[7] == 45u8
            &&& ts[8] == 48 + t.day as int / 10
            &&& ts[9] == 48 + t.day as int % 10
            &&& ts[10] == 84u8
            &&& ts[11] == 48 + t.hour as int / 10
            &&& ts[12] == 48 + t.hour as int % 10
            &&& ts[13] == 58u8
            &&& ts[14] == 48 + t.minute as int / 10
            &&& ts[15] == 48 + t.minute as int % 10
            &&& ts[16] == 58u8
            &&& ts[17] == 48 + t.second as int / 10
            &&& ts[18] == 48 + t.second as int % 10
            &&& ts[19] == 90u8
            &&& 0 <= t.year as int / 1000 < 10
            &&& 0 <= (t.year as int / 100) % 10 < 10
            &&& 0 <= (t.year as int / 10) % 10 < 10
            &&& 0 <= t.year as int % 10 < 10
            &&& 0 <= t.month as int / 10 < 10
            &&& 0 <= t.day as int / 10 < 10
            &&& 0 <= t.hour as int / 10 < 10
            &&& 0 <= t.minute as int / 10 < 10
            &&& 0 <= t.second as int / 10 < 10
            &&& (t.year as int / 1000) * 1000 + ((t.year as int / 100) % 10) * 100 + ((t.year as int / 10) % 10)
                * 10 + t.year as int % 10 == t.year as int
            &&& (t.month as int / 10) * 10 + t.month as int % 10 == t.month as int
            &&& (t.day as int / 10) * 10 + t.day as int % 10 == t.day as int
            &&& (t.hour as int / 10) * 10 + t.hour as int % 10 == t.hour as int
            &&& (t.minute as int / 10) * 10 + t.minute as int % 10 == t.minute as int
            &&& (t.second as int / 10) * 10 + t.second as int % 10 == t.second as int
        }),
{
    lemma_four_digit_decompose(t.year as int);
    lemma_two_digit_recompose(t.month as int);
    lemma_two_digit_recompose(t.day as int);
    lemma_two_digit_recompose(t.hour as int);
    lemma_two_digit_recompose(t.minute as int);
    lemma_two_digit_recompose(t.second as int);
}

/// A number below 100 is its tens digit times ten plus its units digit,
/// and each digit is below ten.
proof fn lemma_two_digit_recompose(n: int)
    requires
        0 <= n < 100,
    ensures
        n == (n / 10) * 10 + n % 10,
        n / 10 < 10,
        n % 10 < 10,
        (n / 10) % 10 == n / 10,
{
}

/// The four decimal digits of a number below ten thousand recompose it,
/// and each digit is below ten.
proof fn lemma_four_digit_decompose(n: int)
    requires
        0 <= n <= 9999,
    ensures
        n == (n / 1000) * 1000 + ((n / 100) % 10) * 100 + ((n / 10) % 10) * 10 + n % 10,
        (n / 1000) % 10 == n / 1000,
        n / 1000 < 10,
        (n / 100) % 10 < 10,
        (n / 10) % 10 < 10,
        n % 10 < 10,
{
    assert(n == (n / 10) * 10 + n % 10);
    assert(n / 10 == ((n / 10) / 10) * 10 + (n / 10) % 10);
    assert((n / 10) / 10 == n / 100) by (nonlinear_arith)
        requires 0 <= n;
    assert(n / 100 == ((n / 100) / 10) * 10 + (n / 100) % 10);
    assert((n / 100) / 10 == n / 1000) by (nonlinear_arith)
        requires 0 <= n;
    assert(n / 1000 <= 9) by (nonlinear_arith)
        requires 0 <= n <= 9999;
    assert(n == (n / 1000) * 1000 + ((n / 100) % 10) * 100 + ((n / 10) % 10) * 10 + n % 10) by (nonlinear_arith)
        requires
            n == (n / 10) * 10 + n % 10,
            n / 10 == (n / 100) * 10 + (n / 10) % 10,
            n / 100 == (n / 1000) * 10 + (n / 100) % 10;
}

/// Reads the fixed 20-byte timestamp at `pos`. Exact in both directions:
/// success returns precisely the well-formed timestamp encoded there, and
/// failure means no well-formed timestamp is.
#[verifier::rlimit(100)]
#[verifier::spinoff_prover]
fn parse_timestamp(input: &Vec<u8>, pos: usize) -> (r: Result<Timestamp, Error>)
    requires
        pos + 20 <= input.len(),
    ensures
        match r {
            Ok(t) => t.wf() && input@.subrange(pos as int, pos + 20) == timestamp_spec(t),
            Err(e) => e == Error::MalformedObject && forall|t0: Timestamp|
                t0.wf() ==> input@.subrange(pos as int, pos + 20) != #[trigger] timestamp_spec(t0),
        },
{
    let ghost s = input@;
    let digits_ok = input[pos] >= 48 && input[pos] <= 57 && input[pos + 1] >= 48 && input[pos + 1] <= 57
        && input[pos + 2] >= 48 && input[pos + 2] <= 57 && input[pos + 3] >= 48 && input[pos + 3] <= 57
        && input[pos + 5] >= 48 && input[pos + 5] <= 57 && input[pos + 6] >= 48 && input[pos + 6] <= 57
        && input[pos + 8] >= 48 && input[pos + 8] <= 57 && input[pos + 9] >= 48 && input[pos + 9] <= 57
        && input[pos + 11] >= 48 && input[pos + 11] <= 57 && input[pos + 12] >= 48 && input[pos + 12] <= 57
        && input[pos + 14] >= 48 && input[pos + 14] <= 57 && input[pos + 15] >= 48 && input[pos + 15] <= 57
        && input[pos + 17] >= 48 && input[pos + 17] <= 57 && input[pos + 18] >= 48 && input[pos + 18] <= 57;
    let seps_ok = input[pos + 4] == 45 && input[pos + 7] == 45 && input[pos + 10] == 84 && input[pos + 13] == 58
        && input[pos + 16] == 58 && input[pos + 19] == 90;
    if !(digits_ok && seps_ok) {
        proof {
            assert forall|t0: Timestamp| t0.wf() implies s.subrange(pos as int, pos + 20)
                != #[trigger] timestamp_spec(t0) by {
                if s.subrange(pos as int, pos + 20) == timestamp_spec(t0) {
                    lemma_timestamp_spec_bytes(t0);
                    assert forall|k: int| 0 <= k < 20 implies s[pos + k] == timestamp_spec(t0)[k] by {
                        assert(s.subrange(pos as int, pos + 20)[k] == s[pos + k]);
                    }
                }
            }
        }
        return Err(Error::MalformedObject);
    }
    let year: u16 = (input[pos] - 48) as u16 * 1000 + (input[pos + 1] - 48) as u16 * 100 + (input[pos + 2]
        - 48) as u16 * 10 + (input[pos + 3] - 48) as u16;
    let month: u8 = (input[pos + 5] - 48) * 10 + (input[pos + 6] - 48);
    let day: u8 = (input[pos + 8] - 48) * 10 + (input[pos + 9] - 48);
    let hour: u8 = (input[pos + 11] - 48) * 10 + (input[pos + 12] - 48);
    let minute: u8 = (input[pos + 14] - 48) * 10 + (input[pos + 15] - 48);
    let second: u8 = (input[pos + 17] - 48) * 10 + (input[pos + 18] - 48);
    if !(1 <= month && month <= 12 && 1 <= day && day <= 31 && hour < 24 && minute < 60 && second < 60) {
        proof {
            assert forall|t0: Timestamp| t0.wf() implies s.subrange(pos as int, pos + 20)
                != #[trigger] timestamp_spec(t0) by {
                if s.subrange(pos as int, pos + 20) == timestamp_spec(t0) {
                    lemma_timestamp_spec_bytes(t0);
                    assert forall|k: int| 0 <= k < 20 implies s[pos + k] == timestamp_spec(t0)[k] by {
                        assert(s.subrange(pos as int, pos + 20)[k] == s[pos + k]);
                    }
                    lemma_two_digit_compose(t0.month as int / 10, t0.month as int % 10);
                    lemma_two_digit_compose(t0.day as int / 10, t0.day as int % 10);
                    lemma_two_digit_compose(t0.hour as int / 10, t0.hour as int % 10);
                    lemma_two_digit_compose(t0.minute as int / 10, t0.minute as int % 10);
                    lemma_two_digit_compose(t0.second as int / 10, t0.second as int % 10);
                }
            }
        }
        return Err(Error::MalformedObject);
    }
    let t = Timestamp { year, month, day, hour, minute, second };
    proof {
        lemma_four_digit_compose(
            (s[pos as int] - 48) as int,
            (s[pos + 1] - 48) as int,
            (s[pos + 2] - 48) as int,
            (s[pos + 3] - 48) as int,
        );
        lemma_two_digit_compose((s[pos + 5] - 48) as int, (s[pos + 6] - 48) as int);
        lemma_two_digit_compose((s[pos + 8] - 48) as int, (s[pos + 9] - 48) as int);
        lemma_two_digit_compose((s[pos + 11] - 48) as int, (s[pos + 12] - 48) as int);
        lemma_two_digit_compose((s[pos + 14] - 48) as int, (s[pos + 15] - 48) as int);
        lemma_two_digit_compose((s[pos + 17] - 48) as int, (s[pos + 18] - 48) as int);
        lemma_timestamp_spec_bytes(t);
        assert forall|k: int| 0 <= k < 20 implies s.subrange(pos as int, pos + 20)[k] == timestamp_spec(t)[k] by {
            assert(s.subrange(pos as int, pos + 20)[k] == s[pos + k]);
        }
        assert(s.subrange(pos as int, pos + 20) =~= timestamp_spec(t));
    }
    Ok(t)
}


/// `s` is exactly the commit payload of the given parts, all well-typed.
pub open spec fn is_commit_payload_of(
    s: Seq<u8>,
    subtree: Seq<u8>,
    parents: Seq<Seq<u8>>,
    message: Seq<u8>,
    t: Timestamp,
) -> bool {
    &&& subtree.len() == DIGEST_SIZE
    &&& forall|i: int| 0 <= i < parents.len() ==> (#[trigger] parents[i]).len() == DIGEST_SIZE
    &&& parents.len() <= u64::MAX
    &&& message.len() <= u64::MAX
    &&& t.wf()
    &&& s == commit_payload_spec(subtree, parents, message, t)
}

/// Some well-typed parts have `s` as their commit payload.
pub open spec fn commit_decodable(s: Seq<u8>) -> bool {
    exists|subtree: Seq<u8>, parents: Seq<Seq<u8>>, message: Seq<u8>, t: Timestamp|
        is_commit_payload_of(s, subtree, parents, message, t)
}

/// Decodes a commit payload. The whole of `input` must be consumed. Exact
/// in both directions: success returns precisely the subtree digest,
/// parents, message and timestamp `input` encodes, and failure means
/// `input` encodes no well-typed commit.
#[verifier::rlimit(100)]
#[verifier::spinoff_prover]
pub fn decode_commit_payload(input: &Vec<u8>) -> (r: Result<CommitObject, Error>)
    ensures
        match r {
            Ok(c) => is_commit_payload_of(
                input@,
                c.subtree@,
                parents_view(c.parents@),
                c.message@,
                c.timestamp,
            ),
            Err(e) => e == Error::MalformedObject && !commit_decodable(input@),
        },
{
    let ghost s = input@;
    proof {
        if commit_decodable(s) {
            let (st0, ps0, m0, t0) = choose|st0: Seq<u8>, ps0: Seq<Seq<u8>>, m0: Seq<u8>, t0: Timestamp|
                is_commit_payload_of(s, st0, ps0, m0, t0);
            lemma_parents_bytes_pieces(ps0);
            crate::varint::lemma_leb128_spec_len(ps0.len());
            crate::varint::lemma_leb128_spec_len(m0.len());
            assert(s[0] == 3u8 && s.len() >= 33 + 1 + 1 + 20);
        }
    }
    if input.len() < 55 || input[0] != 3 {
        return Err(Error::MalformedObject);
    }
    let st = copy_range(input, 1, 1 + DIGEST_SIZE);
    let subtree = Sha3Digest::from_bytes(&st);
    let (pcount, q1) = match leb128_read(input, 33) {
        Ok(v) => v,
        Err(_) => {
            proof {
                if commit_decodable(s) {
                    let (st0, ps0, m0, t0) = choose|st0: Seq<u8>, ps0: Seq<Seq<u8>>, m0: Seq<u8>, t0: Timestamp|
                        is_commit_payload_of(s, st0, ps0, m0, t0);
                    let w64: u64 = ps0.len() as u64;
                    assert(leb128_spec(w64 as nat) == leb128_spec(ps0.len()));
                    assert(starts_with(s.skip(33), leb128_spec(w64 as nat))) by {
                        assert(s.skip(33).subrange(0, leb128_spec(ps0.len()).len() as int) =~= leb128_spec(
                            ps0.len(),
                        ));
                    }
                }
            }
            return Err(Error::MalformedObject);
        },
    };
    proof {
        if commit_decodable(s) {
            let (st0, ps0, m0, t0) = choose|st0: Seq<u8>, ps0: Seq<Seq<u8>>, m0: Seq<u8>, t0: Timestamp|
                is_commit_payload_of(s, st0, ps0, m0, t0);
            lemma_parents_bytes_pieces(ps0);
            assert(s.subrange(33, 33 + leb128_spec(ps0.len()).len() as int) =~= leb128_spec(ps0.len()));
            assert(starts_with(s.skip(33), leb128_spec(ps0.len()))) by {
                assert(s.skip(33).subrange(0, leb128_spec(ps0.len()).len() as int) =~= leb128_spec(ps0.len()));
            }
            lemma_leb128_prefix_free(s, 33, pcount as nat, (q1 - 33) as nat, ps0.len());
            assert(pcount as nat == ps0.len());
            assert(q1 == 33 + leb128_spec(ps0.len()).len());
            assert(st0 =~= s.subrange(1, 1 + DIGEST_SIZE));
            crate::varint::lemma_leb128_spec_len(m0.len());
            assert(s.len() - q1 == ps0.len() * DIGEST_SIZE + leb128_spec(m0.len()).len() + m0.len() + 20);
            assert((s.len() - q1) as int / DIGEST_SIZE as int >= ps0.len()) by (nonlinear_arith)
                requires s.len() - q1 >= ps0.len() * DIGEST_SIZE, DIGEST_SIZE > 0;
        }
    }
    if pcount > ((input.len() - q1) / DIGEST_SIZE) as u64 {
        return Err(Error::MalformedObject);
    }
    let n: usize = pcount as usize;
    proof {
        assert(n * DIGEST_SIZE <= ((s.len() - q1) as int / DIGEST_SIZE as int) * DIGEST_SIZE
            <= s.len() - q1) by (nonlinear_arith)
            requires n <= (s.len() - q1) as int / DIGEST_SIZE as int, DIGEST_SIZE > 0, q1 <= s.len();
    }
    let mut parents: Vec<Sha3Digest> = Vec::new();
    let mut j: usize = 0;
    while j < n
        invariant
            j <= n,
            n * DIGEST_SIZE <= input.len() - q1,
            q1 <= input.len(),
            s == input@,
            parents@.len() == j,
            forall|i: int| 0 <= i < j ==> (#[trigger] parents_view(parents@)[i]).len() == DIGEST_SIZE,
            s.subrange(q1 as int, q1 + j * DIGEST_SIZE) == parents_bytes_spec(parents_view(parents@)),
        decreases n - j,
    {
        proof {
            assert(j * DIGEST_SIZE + DIGEST_SIZE <= n * DIGEST_SIZE) by (nonlinear_arith)
                requires j < n, DIGEST_SIZE > 0;
            assert(j * DIGEST_SIZE >= 0) by (nonlinear_arith)
                requires j >= 0, DIGEST_SIZE > 0;
        }
        let start: usize = q1 + j * DIGEST_SIZE;
        let chunk = copy_range(input, start, start + DIGEST_SIZE);
        let d = Sha3Digest::from_bytes(&chunk);
        proof {
            let pre_pv = parents_view(parents@);
            let post_pv = parents_view(parents@.push(d));
            assert(post_pv =~= pre_pv.push(d@));
            lemma_parents_bytes_push(pre_pv, d@);
            assert(s.subrange(q1 as int, start + DIGEST_SIZE) =~= parents_bytes_spec(pre_pv) + d@) by {
                assert(s.subrange(q1 as int, start as int) == parents_bytes_spec(pre_pv));
                assert(d@ =~= s.subrange(start as int, start + DIGEST_SIZE));
            }
        }
        parents.push(d);
        j = j + 1;
    }
    let q2: usize = q1 + n * DIGEST_SIZE;
    proof {
        if commit_decodable(s) {
            let (st0, ps0, m0, t0) = choose|st0: Seq<u8>, ps0: Seq<Seq<u8>>, m0: Seq<u8>, t0: Timestamp|
                is_commit_payload_of(s, st0, ps0, m0, t0);
            lemma_parents_bytes_pieces(ps0);
            assert(q2 == 33 + leb128_spec(ps0.len()).len() + ps0.len() * DIGEST_SIZE);
            assert(s.subrange(q2 as int, q2 + leb128_spec(m0.len()).len() as int) =~= leb128_spec(m0.len()));
            assert(starts_with(s.skip(q2 as int), leb128_spec(m0.len()))) by {
                assert(s.skip(q2 as int).subrange(0, leb128_spec(m0.len()).len() as int) =~= leb128_spec(
                    m0.len(),
                ));
            }
        }
    }
    let (mlen, q3) = match leb128_read(input, q2) {
        Ok(v) => v,
        Err(_) => {
            proof {
                if commit_decodable(s) {
                    let (st0, ps0, m0, t0) = choose|st0: Seq<u8>, ps0: Seq<Seq<u8>>, m0: Seq<u8>, t0: Timestamp|
                        is_commit_payload_of(s, st0, ps0, m0, t0);
                    let w64: u64 = m0.len() as u64;
                    assert(leb128_spec(w64 as nat) == leb128_spec(m0.len()));
                }
            }
            return Err(Error::MalformedObject);
        },
    };
    proof {
        if commit_decodable(s) {
            let (st0, ps0, m0, t0) = choose|st0: Seq<u8>, ps0: Seq<Seq<u8>>, m0: Seq<u8>, t0: Timestamp|
                is_commit_payload_of(s, st0, ps0, m0, t0);
            lemma_parents_bytes_pieces(ps0);
            lemma_leb128_prefix_free(s, q2 as int, mlen as nat, (q3 - q2) as nat, m0.len());
            assert(mlen as nat == m0.len());
            assert(q3 == q2 + leb128_spec(m0.len()).len());
            assert(s.len() - q3 == m0.len() + 20);
        }
    }
    if mlen > (input.len() - q3) as u64 {
        return Err(Error::MalformedObject);
    }
    let msg_end: usize = q3 + mlen as usize;
    if input.len() - msg_end != 20 {
        return Err(Error::MalformedObject);
    }
    let message = copy_range(input, q3, msg_end);
    let timestamp = match parse_timestamp(input, msg_end) {
        Ok(t) => t,
        Err(_) => {
            proof {
                if commit_decodable(s) {
                    let (st0, ps0, m0, t0) = choose|st0: Seq<u8>, ps0: Seq<Seq<u8>>, m0: Seq<u8>, t0: Timestamp|
                        is_commit_payload_of(s, st0, ps0, m0, t0);
                    assert(s.subrange(msg_end as int, msg_end + 20) =~= timestamp_spec(t0));
                }
            }
            return Err(Error::MalformedObject);
        },
    };
    let c = CommitObject { subtree, parents, message, timestamp };
    proof {
        let pv = parents_view(c.parents@);
        lemma_parents_bytes_pieces(pv);
        assert(s =~= commit_payload_spec(c.subtree@, pv, c.message@, c.timestamp)) by {
            assert(c.subtree@ == s.subrange(1, 1 + DIGEST_SIZE));
            assert(s.subrange(33, q1 as int) == leb128_spec(pcount as nat));
            assert(s.subrange(q1 as int, q2 as int) == parents_bytes_spec(pv));
            assert(s.subrange(q2 as int, q3 as int) == leb128_spec(mlen as nat));
            assert(c.message@ == s.subrange(q3 as int, msg_end as int));
            assert(s.subrange(msg_end as int, msg_end + 20) == timestamp_spec(c.timestamp));
            assert(pv.len() == pcount as nat);
            assert(c.message@.len() == mlen as nat);
        }
        assert(is_commit_payload_of(s, c.subtree@, pv, c.message@, c.timestamp));
    }
    Ok(c)
}

} // verus!
