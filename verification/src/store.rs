//! The object store: a deduplicating, content-addressed cache of immutable
//! objects over a key-value map, handing out lightweight handles, with a
//! named-branch compare-and-set on top.

use vstd::prelude::*;

use crate::bytes::{bytes_eq, clone_bytes};
use crate::canonical::{
    decodable, decode_parts, decoded, digests_view, encode_object_spec, encode_parts, is_encoding_of,
    lemma_canonical_round_trip, ObjectView,
};
use crate::digest::{sha3_256_of, Sha3Digest, DIGEST_SIZE};
use crate::error::Error;
use vstd::std_specs::cmp::PartialEqSpec;

verus! {

/// A stored object: immutable blob bytes plus the ordered digests of its
/// children.
#[derive(Debug)]
pub struct Object {
    pub blob: Vec<u8>,
    pub refs: Vec<Sha3Digest>,
}

impl View for Object {
    type V = ObjectView;

    open spec fn view(&self) -> ObjectView {
        ObjectView { blob: self.blob@, refs: digests_view(self.refs@) }
    }
}

/// The content address of an object: the digest of its canonical encoding.
pub open spec fn object_digest(o: ObjectView) -> Seq<u8> {
    sha3_256_of(encode_object_spec(o))
}

/// Digest stability: the content address depends on the `(blob, refs)` pair
/// alone, so equal pairs give equal digests on any host and any run.
pub proof fn lemma_digest_stability(o1: ObjectView, o2: ObjectView)
    requires
        o1.blob == o2.blob,
        o1.refs == o2.refs,
    ensures
        object_digest(o1) == object_digest(o2),
{
    assert(o1 =~= o2);
}

/// Every digest held by an executable object is full width.
fn digests_wf(refs: &Vec<Sha3Digest>)
    ensures
        forall|i: int| 0 <= i < refs@.len() ==> (#[trigger] refs@[i]@).len() == DIGEST_SIZE,
{
    let mut i: usize = 0;
    while i < refs.len()
        invariant
            i <= refs@.len(),
            forall|j: int| 0 <= j < i ==> (#[trigger] refs@[j]@).len() == DIGEST_SIZE,
        decreases refs.len() - i,
    {
        let d = &refs[i];
        proof {
            use_type_invariant(d);
            d.lemma_full_width();
        }
        i = i + 1;
    }
}

impl Object {
    /// Builds an object from its parts.
    pub fn new(blob: Vec<u8>, refs: Vec<Sha3Digest>) -> (r: Object)
        ensures
            r@ == (ObjectView { blob: blob@, refs: digests_view(refs@) }),
    {
        Object { blob, refs }
    }

    /// An object held by executable code is always well-typed.
    pub fn confirm_wf(&self)
        ensures
            self@.wf(),
    {
        digests_wf(&self.refs);
        assert forall|i: int| 0 <= i < self@.refs.len() implies (#[trigger] self@.refs[i]).len() == DIGEST_SIZE by {
            assert(self@.refs[i] == self.refs@[i]@);
        }
        // the counts are executable vector lengths, so they fit
        let nb = self.blob.len();
        let nr = self.refs.len();
        assert(self@.blob.len() == nb && self@.refs.len() == nr);
    }

    /// An explicit copy of the object.
    pub fn duplicate(&self) -> (r: Object)
        ensures
            r@ == self@,
    {
        let blob = clone_bytes(&self.blob);
        let mut refs: Vec<Sha3Digest> = Vec::new();
        let mut i: usize = 0;
        while i < self.refs.len()
            invariant
                i <= self.refs@.len(),
                refs@.len() == i,
                forall|j: int| 0 <= j < i ==> (#[trigger] refs@[j])@ == self.refs@[j]@,
            decreases self.refs.len() - i,
        {
            refs.push(self.refs[i].duplicate());
            i = i + 1;
        }
        let r = Object { blob, refs };
        proof {
            assert(digests_view(refs@) =~= digests_view(self.refs@));
            assert(r@ =~= self@);
        }
        r
    }

    /// The canonical encoding of this object.
    pub fn encode(&self) -> (out: Vec<u8>)
        ensures
            out@ == encode_object_spec(self@),
            self@.wf(),
    {
        self.confirm_wf();
        let mut out: Vec<u8> = Vec::new();
        encode_parts(&mut out, &self.blob, &self.refs);
        out
    }

    /// Decodes an object from its exact canonical encoding.
    pub fn decode(input: &Vec<u8>) -> (r: Result<Object, Error>)
        ensures
            match r {
                Ok(o) => decodable(input@) && o@ == decoded(input@) && o@.wf(),
                Err(e) => e == Error::MalformedObject && !decodable(input@),
            },
    {
        match decode_parts(input) {
            Ok((blob, refs)) => {
                let o = Object { blob, refs };
                proof {
                    lemma_canonical_round_trip(o@);
                    crate::canonical::lemma_encoding_injective(input@, decoded(input@), o@);
                }
                Ok(o)
            },
            Err(e) => Err(e),
        }
    }

    /// The number of bytes of the canonical encoding.
    pub fn encoded_size(&self) -> (n: u64)
        ensures
            n == encode_object_spec(self@).len(),
    {
        let enc = self.encode();
        enc.len() as u64
    }

    /// The content address of this object.
    pub fn digest(&self) -> (d: Sha3Digest)
        ensures
            d@ == object_digest(self@),
    {
        let enc = self.encode();
        Sha3Digest::hash_bytes(&enc)
    }
}

/// A lightweight reference to an object in a store: it carries the object's
/// digest, and nothing else distinguishes two handles.
#[derive(Debug)]
pub struct Handle {
    digest: Sha3Digest,
}

impl View for Handle {
    type V = Seq<u8>;

    closed spec fn view(&self) -> Seq<u8> {
        self.digest@
    }
}

impl Handle {
    /// The digest this handle stands for.
    pub fn digest(&self) -> (d: Sha3Digest)
        ensures
            d@ == self@,
    {
        self.digest.duplicate()
    }

    /// Three-way comparison of two handles, by digest.
    pub fn compare(&self, other: &Handle) -> (r: i8)
        ensures
            r < 0 <==> crate::bytes::lex_lt(self@, other@),
            r == 0 <==> self@ == other@,
            r > 0 <==> crate::bytes::lex_lt(other@, self@),
    {
        self.digest.compare(&other.digest)
    }

    fn for_digest(d: &Sha3Digest) -> (h: Handle)
        ensures
            h@ == d@,
    {
        Handle { digest: d.duplicate() }
    }
}

impl Clone for Handle {
    fn clone(&self) -> (r: Handle)
        ensures
            r@ == self@,
    {
        Handle { digest: self.digest.duplicate() }
    }
}

impl PartialEq for Handle {
    /// Handles are equal exactly when their digests are.
    fn eq(&self, other: &Handle) -> (r: bool) {
        self.digest == other.digest
    }
}

impl Eq for Handle {}

impl vstd::std_specs::cmp::PartialEqSpecImpl for Handle {
    open spec fn obeys_eq_spec() -> bool {
        true
    }

    open spec fn eq_spec(&self, other: &Handle) -> bool {
        self@ == other@
    }
}

/// A checked-out working state over some store: the current head commit,
/// and the two ways of moving it. An interface for layers above the store;
/// nothing in this crate implements it.
pub trait Workspace {
    /// The handle of the current head commit.
    fn head(&self) -> Result<Handle, Error>;

    /// Merges the given commit into the working state.
    fn merge(&mut self, handle: Handle) -> Result<(), Error>;

    /// Replaces the working state with the given commit's content.
    fn checkout(&mut self, handle: Handle) -> Result<(), Error>;
}

/// First-match lookup in an association list, by key view.
pub open spec fn assoc_at<K: View, V: View>(s: Seq<(K, V)>, k: <K as View>::V) -> Option<<V as View>::V>
    decreases s.len(),
{
    if s.len() == 0 {
        None
    } else if s[0].0@ == k {
        Some(s[0].1@)
    } else {
        assoc_at(s.drop_first(), k)
    }
}

/// Lookup distributes over concatenation: the front of the list wins.
pub proof fn lemma_assoc_concat<K: View, V: View>(a: Seq<(K, V)>, b: Seq<(K, V)>, k: <K as View>::V)
    ensures
        assoc_at(a + b, k) == if assoc_at(a, k) is Some {
            assoc_at(a, k)
        } else {
            assoc_at(b, k)
        },
    decreases a.len(),
{
    if a.len() == 0 {
        assert(a + b =~= b);
    } else {
        assert((a + b).drop_first() =~= a.drop_first() + b);
        assert((a + b)[0] == a[0]);
        lemma_assoc_concat(a.drop_first(), b, k);
    }
}


/// A successful lookup comes from some entry of the list.
pub proof fn lemma_assoc_some<K: View, V: View>(s: Seq<(K, V)>, k: <K as View>::V)
    requires
        assoc_at(s, k) is Some,
    ensures
        exists|i: int| 0 <= i < s.len() && (#[trigger] s[i]).0@ == k && Some(s[i].1@) == assoc_at(s, k),
    decreases s.len(),
{
    if s.len() > 0 {
        if s[0].0@ == k {
            assert(s[0].0@ == k && Some(s[0].1@) == assoc_at(s, k));
        } else {
            lemma_assoc_some(s.drop_first(), k);
            let i = choose|i: int|
                0 <= i < s.drop_first().len() && (#[trigger] s.drop_first()[i]).0@ == k && Some(
                    s.drop_first()[i].1@,
                ) == assoc_at(s.drop_first(), k);
            assert(s[i + 1] == s.drop_first()[i]);
            assert(s[i + 1].0@ == k && Some(s[i + 1].1@) == assoc_at(s, k));
        }
    }
}

/// No entry of `s` has key view `k` exactly when lookup fails.
pub proof fn lemma_assoc_none<K: View, V: View>(s: Seq<(K, V)>, k: <K as View>::V)
    ensures
        (assoc_at(s, k) is None) <==> (forall|i: int| 0 <= i < s.len() ==> (#[trigger] s[i]).0@ != k),
    decreases s.len(),
{
    if s.len() > 0 {
        lemma_assoc_none(s.drop_first(), k);
        assert(forall|i: int| 0 <= i < s.drop_first().len() ==> (#[trigger] s.drop_first()[i]) == s[i + 1]);
        if s[0].0@ != k && (forall|i: int| 0 <= i < s.drop_first().len() ==> (#[trigger] s.drop_first()[i]).0@ != k) {
            assert forall|i: int| 0 <= i < s.len() implies (#[trigger] s[i]).0@ != k by {
                if i > 0 {
                    assert(s[i] == s.drop_first()[i - 1]);
                }
            }
        }
    }
}

/// The first entry with key `k` is what lookup returns.
pub proof fn lemma_assoc_first_match<K: View, V: View>(s: Seq<(K, V)>, m: int, k: <K as View>::V)
    requires
        0 <= m < s.len(),
        s[m].0@ == k,
        forall|j: int| 0 <= j < m ==> (#[trigger] s[j]).0@ != k,
    ensures
        assoc_at(s, k) == Some(s[m].1@),
    decreases m,
{
    if m > 0 {
        assert forall|j: int| 0 <= j < m - 1 implies (#[trigger] s.drop_first()[j]).0@ != k by {
            assert(s.drop_first()[j] == s[j + 1]);
        }
        assert(s.drop_first()[m - 1] == s[m]);
        lemma_assoc_first_match(s.drop_first(), m - 1, k);
    }
}

/// Removing the first entry with key `k` leaves every other key's lookup
/// unchanged.
pub proof fn lemma_assoc_remove_first<K: View, V: View>(s: Seq<(K, V)>, m: int, k: <K as View>::V)
    requires
        0 <= m < s.len(),
        s[m].0@ == k,
        forall|j: int| 0 <= j < m ==> (#[trigger] s[j]).0@ != k,
    ensures
        forall|x: <K as View>::V| x != k ==> assoc_at(s.remove(m), x) == assoc_at(s, x),
    decreases s.len(),
{
    assert forall|x: <K as View>::V| x != k implies assoc_at(s.remove(m), x) == assoc_at(s, x) by {
        if m == 0 {
            assert(s.remove(0) =~= s.drop_first());
        } else {
            assert(s.remove(m).drop_first() =~= s.drop_first().remove(m - 1));
            assert(s.remove(m)[0] == s[0]);
            assert forall|j: int| 0 <= j < m - 1 implies (#[trigger] s.drop_first()[j]).0@ != k by {
                assert(s.drop_first()[j] == s[j + 1]);
            }
            assert(s.drop_first()[m - 1] == s[m]);
            lemma_assoc_remove_first(s.drop_first(), m - 1, k);
            assert(s.remove(m).len() == s.len() - 1);
            assert(assoc_at(s, x) == if s[0].0@ == x {
                Some(s[0].1@)
            } else {
                assoc_at(s.drop_first(), x)
            });
            assert(assoc_at(s.remove(m), x) == if s[0].0@ == x {
                Some(s[0].1@)
            } else {
                assoc_at(s.remove(m).drop_first(), x)
            });
        }
    }
}

/// What appending one entry does to every key's lookup.
pub proof fn lemma_assoc_push<K: View, V: View>(s: Seq<(K, V)>, p: (K, V))
    ensures
        forall|x: <K as View>::V|
            #[trigger] assoc_at(s.push(p), x) == if assoc_at(s, x) is Some {
                assoc_at(s, x)
            } else if p.0@ == x {
                Some(p.1@)
            } else {
                None
            },
{
    assert forall|x: <K as View>::V|
        #[trigger] assoc_at(s.push(p), x) == if assoc_at(s, x) is Some {
            assoc_at(s, x)
        } else if p.0@ == x {
            Some(p.1@)
        } else {
            None
        } by {
        assert(s.push(p) =~= s + seq![p]);
        lemma_assoc_concat(s, seq![p], x);
        assert(assoc_at(seq![p], x) == if p.0@ == x {
            Some(p.1@)
        } else {
            None
        }) by {
            assert(seq![p].len() == 1 && seq![p][0] == p);
            assert(seq![p].drop_first() =~= Seq::<(K, V)>::empty());
            assert(assoc_at(Seq::<(K, V)>::empty(), x) is None);
        }
    }
}

/// The in-memory state of a store: the registered handles, the resident
/// objects, the key-value map of canonical encodings, and the branches.
#[derive(Debug)]
pub struct Store {
    handles: Vec<Sha3Digest>,
    objects: Vec<(Sha3Digest, Object)>,
    db: Vec<(Vec<u8>, Vec<u8>)>,
    branches: Vec<(Vec<u8>, Sha3Digest)>,
}

impl Store {
    /// The canonical handle for digest `d` has been created.
    pub closed spec fn handle_registered(self, d: Seq<u8>) -> bool {
        exists|i: int| 0 <= i < self.handles@.len() && self.handles@[i]@ == d
    }

    /// The resident object for digest `d`, if one is cached.
    pub closed spec fn object_at(self, d: Seq<u8>) -> Option<ObjectView> {
        assoc_at(self.objects@, d)
    }

    /// The bytes stored in the key-value map under key `k`.
    pub closed spec fn db_at(self, k: Seq<u8>) -> Option<Seq<u8>> {
        assoc_at(self.db@, k)
    }

    /// The digest the named branch points to, if the branch exists.
    pub closed spec fn branch_at(self, n: Seq<u8>) -> Option<Seq<u8>> {
        assoc_at(self.branches@, n)
    }

    /// A fresh store: no handles, no objects, no data, no branches.
    pub fn new() -> (s: Store)
        ensures
            forall|x: Seq<u8>| !s.handle_registered(x),
            forall|x: Seq<u8>| s.object_at(x) is None,
            forall|x: Seq<u8>| s.db_at(x) is None,
            forall|x: Seq<u8>| s.branch_at(x) is None,
            content_addressed(s),
    {
        Store { handles: Vec::new(), objects: Vec::new(), db: Vec::new(), branches: Vec::new() }
    }

    /// Index of the first resident object with digest `d`.
    fn objects_find(&self, d: &Sha3Digest) -> (r: Option<usize>)
        ensures
            match r {
                Some(i) => i < self.objects@.len() && self.objects@[i as int].0@ == d@
                    && forall|j: int| 0 <= j < i ==> (#[trigger] self.objects@[j]).0@ != d@,
                None => self.object_at(d@) is None,
            },
    {
        let mut i: usize = 0;
        while i < self.objects.len()
            invariant
                i <= self.objects@.len(),
                forall|j: int| 0 <= j < i ==> (#[trigger] self.objects@[j]).0@ != d@,
            decreases self.objects.len() - i,
        {
            if bytes_eq(self.objects[i].0.as_bytes(), d.as_bytes()) {
                return Some(i);
            }
            i = i + 1;
        }
        proof {
            lemma_assoc_none(self.objects@, d@);
        }
        None
    }

    /// Drops every resident object with digest `d`.
    fn objects_remove(&mut self, d: &Sha3Digest)
        ensures
            final(self).object_at(d@) is None,
            forall|x: Seq<u8>| x != d@ ==> final(self).object_at(x) == old(self).object_at(x),
            final(self).handles == old(self).handles,
            final(self).db == old(self).db,
            final(self).branches == old(self).branches,
    {
        loop
            invariant
                forall|x: Seq<u8>| x != d@ ==> self.object_at(x) == old(self).object_at(x),
                self.handles == old(self).handles,
                self.db == old(self).db,
                self.branches == old(self).branches,
            decreases self.objects@.len(),
        {
            match self.objects_find(d) {
                None => {
                    return;
                },
                Some(i) => {
                    proof {
                        lemma_assoc_remove_first(self.objects@, i as int, d@);
                    }
                    self.objects.remove(i);
                },
            }
        }
    }

    /// Makes `o` the resident object for digest `d`, replacing any other.
    fn objects_put(&mut self, d: &Sha3Digest, o: Object)
        ensures
            final(self).object_at(d@) == Some(o@),
            forall|x: Seq<u8>| x != d@ ==> final(self).object_at(x) == old(self).object_at(x),
            final(self).handles == old(self).handles,
            final(self).db == old(self).db,
            final(self).branches == old(self).branches,
    {
        self.objects_remove(d);
        let key = d.duplicate();
        let ghost pre = self.objects@;
        let ghost gkey = key@;
        let ghost gobj = o@;
        self.objects.push((key, o));
        proof {
            let p = self.objects@.last();
            assert(self.objects@ == pre.push(p) && p.0@ == gkey && p.1@ == gobj);
            lemma_assoc_push(pre, p);
        }
    }
}


impl Store {
    /// Index of the first key-value entry under key `k`.
    fn db_find(&self, k: &Vec<u8>) -> (r: Option<usize>)
        ensures
            match r {
                Some(i) => i < self.db@.len() && self.db@[i as int].0@ == k@
                    && forall|j: int| 0 <= j < i ==> (#[trigger] self.db@[j]).0@ != k@,
                None => self.db_at(k@) is None,
            },
    {
        let mut i: usize = 0;
        while i < self.db.len()
            invariant
                i <= self.db@.len(),
                forall|j: int| 0 <= j < i ==> (#[trigger] self.db@[j]).0@ != k@,
            decreases self.db.len() - i,
        {
            if bytes_eq(&self.db[i].0, k) {
                return Some(i);
            }
            i = i + 1;
        }
        proof {
            lemma_assoc_none(self.db@, k@);
        }
        None
    }

    /// The bytes stored under key `k`, copied out.
    fn db_get(&self, k: &Vec<u8>) -> (r: Option<Vec<u8>>)
        ensures
            match r {
                Some(v) => self.db_at(k@) == Some(v@),
                None => self.db_at(k@) is None,
            },
    {
        match self.db_find(k) {
            None => None,
            Some(i) => {
                proof {
                    lemma_assoc_first_match(self.db@, i as int, k@);
                }
                Some(clone_bytes(&self.db[i].1))
            },
        }
    }

    /// Stores `v` under key `k`, overwriting any previous value.
    fn db_put(&mut self, k: &Vec<u8>, v: Vec<u8>)
        ensures
            final(self).db_at(k@) == Some(v@),
            forall|x: Seq<u8>| x != k@ ==> final(self).db_at(x) == old(self).db_at(x),
            final(self).handles == old(self).handles,
            final(self).objects == old(self).objects,
            final(self).branches == old(self).branches,
    {
        loop
            invariant
                forall|x: Seq<u8>| x != k@ ==> self.db_at(x) == old(self).db_at(x),
                self.handles == old(self).handles,
                self.objects == old(self).objects,
                self.branches == old(self).branches,
            ensures
                self.db_at(k@) is None,
                forall|x: Seq<u8>| x != k@ ==> self.db_at(x) == old(self).db_at(x),
                self.handles == old(self).handles,
                self.objects == old(self).objects,
                self.branches == old(self).branches,
            decreases self.db@.len(),
        {
            match self.db_find(k) {
                None => {
                    break;
                },
                Some(i) => {
                    proof {
                        lemma_assoc_remove_first(self.db@, i as int, k@);
                    }
                    self.db.remove(i);
                },
            }
        }
        let key = clone_bytes(k);
        let ghost pre = self.db@;
        self.db.push((key, v));
        proof {
            let p = self.db@.last();
            assert(self.db@ == pre.push(p) && p.0@ == k@ && p.1@ == v@);
            lemma_assoc_push(pre, p);
        }
    }

    /// Index of the first branch entry under name `n`.
    fn branches_find(&self, n: &Vec<u8>) -> (r: Option<usize>)
        ensures
            match r {
                Some(i) => i < self.branches@.len() && self.branches@[i as int].0@ == n@
                    && forall|j: int| 0 <= j < i ==> (#[trigger] self.branches@[j]).0@ != n@,
                None => self.branch_at(n@) is None,
            },
    {
        let mut i: usize = 0;
        while i < self.branches.len()
            invariant
                i <= self.branches@.len(),
                forall|j: int| 0 <= j < i ==> (#[trigger] self.branches@[j]).0@ != n@,
            decreases self.branches.len() - i,
        {
            if bytes_eq(&self.branches[i].0, n) {
                return Some(i);
            }
            i = i + 1;
        }
        proof {
            lemma_assoc_none(self.branches@, n@);
        }
        None
    }

    /// Points branch `n` at digest `d`, overwriting any previous target.
    fn branches_put(&mut self, n: &Vec<u8>, d: &Sha3Digest)
        ensures
            final(self).branch_at(n@) == Some(d@),
            forall|x: Seq<u8>| x != n@ ==> final(self).branch_at(x) == old(self).branch_at(x),
            final(self).handles == old(self).handles,
            final(self).objects == old(self).objects,
            final(self).db == old(self).db,
    {
        loop
            invariant
                forall|x: Seq<u8>| x != n@ ==> self.branch_at(x) == old(self).branch_at(x),
                self.handles == old(self).handles,
                self.objects == old(self).objects,
                self.db == old(self).db,
            ensures
                self.branch_at(n@) is None,
                forall|x: Seq<u8>| x != n@ ==> self.branch_at(x) == old(self).branch_at(x),
                self.handles == old(self).handles,
                self.objects == old(self).objects,
                self.db == old(self).db,
            decreases self.branches@.len(),
        {
            match self.branches_find(n) {
                None => {
                    break;
                },
                Some(i) => {
                    proof {
                        lemma_assoc_remove_first(self.branches@, i as int, n@);
                    }
                    self.branches.remove(i);
                },
            }
        }
        let name = clone_bytes(n);
        let ghost pre = self.branches@;
        self.branches.push((name, d.duplicate()));
        proof {
            let p = self.branches@.last();
            assert(self.branches@ == pre.push(p) && p.0@ == n@ && p.1@ == d@);
            lemma_assoc_push(pre, p);
        }
    }

    /// Registers the canonical handle for digest `d`.
    fn register_handle(&mut self, d: &Sha3Digest)
        ensures
            final(self).handle_registered(d@),
            forall|x: Seq<u8>| x != d@ ==> final(self).handle_registered(x) == old(self).handle_registered(x),
            final(self).objects == old(self).objects,
            final(self).db == old(self).db,
            final(self).branches == old(self).branches,
    {
        let mut i: usize = 0;
        while i < self.handles.len()
            invariant
                i <= self.handles@.len(),
                forall|j: int| 0 <= j < i ==> (#[trigger] self.handles@[j])@ != d@,
                self == old(self),
            decreases self.handles.len() - i,
        {
            if bytes_eq(self.handles[i].as_bytes(), d.as_bytes()) {
                return;
            }
            i = i + 1;
        }
        let ghost pre = self.handles@;
        self.handles.push(d.duplicate());
        proof {
            assert(self.handles@.last()@ == d@);
            assert(self.handles@[pre.len() as int]@ == d@);
            assert forall|x: Seq<u8>| x != d@ implies self.handle_registered(x) == old(
                self,
            ).handle_registered(x) by {
                if old(self).handle_registered(x) {
                    let w = choose|w: int| 0 <= w < pre.len() && pre[w]@ == x;
                    assert(self.handles@[w]@ == x);
                } else {
                    if self.handle_registered(x) {
                        let w = choose|w: int| 0 <= w < self.handles@.len() && self.handles@[w]@ == x;
                        assert(w < pre.len());
                        assert(pre[w]@ == x);
                    }
                }
            }
        }
    }
}


/// The store knows digest `d`: its handle exists, an object is resident
/// under it, and its encoding is stored.
pub open spec fn store_has(s: Store, d: Seq<u8>) -> bool {
    s.handle_registered(d) && s.object_at(d) is Some && s.db_at(d) is Some
}

/// Every entry the store holds is content-addressed: a resident object
/// under digest `d` has content address `d`, and a stored byte string
/// under key `k` is the canonical encoding of the object whose content
/// address is `k`. A fresh store has it, and every operation keeps it.
pub open spec fn content_addressed(s: Store) -> bool {
    &&& forall|d: Seq<u8>| (#[trigger] s.object_at(d)) matches Some(v) ==> object_digest(v) == d && v.wf()
    &&& forall|k: Seq<u8>| (#[trigger] s.db_at(k)) matches Some(bytes) ==> decodable(bytes) && object_digest(
        decoded(bytes),
    ) == k
}

/// Installing preserves the content-address invariant.
pub proof fn lemma_install_preserves_content(pre: Store, post: Store, o: ObjectView, h: Seq<u8>)
    requires
        content_addressed(pre),
        install_transition(pre, post, o, h),
        o.wf(),
    ensures
        content_addressed(post),
{
    let d = object_digest(o);
    lemma_canonical_round_trip(o);
    assert forall|x: Seq<u8>| (match #[trigger] post.object_at(x) {
        Some(v) => object_digest(v) == x && v.wf(),
        None => true,
    }) by {
        if x != d {
            assert(post.object_at(x) == pre.object_at(x));
        } else {
            if pre.object_at(d) is Some {
                assert(post.object_at(d) == pre.object_at(d));
            }
        }
    }
    assert forall|k: Seq<u8>| (match #[trigger] post.db_at(k) {
        Some(bytes) => decodable(bytes) && object_digest(decoded(bytes)) == k,
        None => true,
    }) by {
        if k != d {
            assert(post.db_at(k) == pre.db_at(k));
        }
    }
}

/// Under the content-address invariant, whatever the store can produce for
/// digest `d` is an object whose content address is `d`: a loaded blob and
/// reference list re-digest to the handle's digest.
pub proof fn lemma_content_addressed_lookup(s: Store, d: Seq<u8>)
    requires
        content_addressed(s),
    ensures
        match lookup_object(s, d) {
            Ok(Some(v)) => object_digest(v) == d && v.wf(),
            _ => true,
        },
{
}

/// A store whose objects and stored bytes are untouched keeps the
/// content-address invariant.
pub proof fn lemma_content_unchanged(pre: Store, post: Store)
    requires
        content_addressed(pre),
        forall|x: Seq<u8>| #[trigger] post.object_at(x) == pre.object_at(x),
        forall|k: Seq<u8>| #[trigger] post.db_at(k) == pre.db_at(k),
    ensures
        content_addressed(post),
{
    assert forall|x: Seq<u8>| (match #[trigger] post.object_at(x) {
        Some(v) => object_digest(v) == x && v.wf(),
        None => true,
    }) by {
        assert(post.object_at(x) == pre.object_at(x));
    }
    assert forall|k: Seq<u8>| (match #[trigger] post.db_at(k) {
        Some(bytes) => decodable(bytes) && object_digest(decoded(bytes)) == k,
        None => true,
    }) by {
        assert(post.db_at(k) == pre.db_at(k));
    }
}

/// No observable difference between two store states.
pub open spec fn same_state(pre: Store, post: Store) -> bool {
    &&& forall|x: Seq<u8>| post.handle_registered(x) == pre.handle_registered(x)
    &&& forall|x: Seq<u8>| post.object_at(x) == pre.object_at(x)
    &&& forall|x: Seq<u8>| post.db_at(x) == pre.db_at(x)
    &&& forall|x: Seq<u8>| post.branch_at(x) == pre.branch_at(x)
}

/// The object a store can produce for digest `d`: the resident copy first,
/// else whatever the key-value entry under `d` decodes to.
pub open spec fn lookup_object(pre: Store, d: Seq<u8>) -> Result<Option<ObjectView>, Error> {
    match pre.object_at(d) {
        Some(v) => Ok(Some(v)),
        None => match pre.db_at(d) {
            Some(bytes) => if decodable(bytes) {
                Ok(Some(decoded(bytes)))
            } else {
                Err(Error::MalformedObject)
            },
            None => Ok(None),
        },
    }
}

/// What installing object `o` does to a store: the canonical handle exists,
/// exactly one resident copy exists (an earlier one is preserved and the
/// argument discarded), the canonical encoding sits in the key-value map
/// under the content address, and nothing else changes.
pub open spec fn install_transition(pre: Store, post: Store, o: ObjectView, h: Seq<u8>) -> bool {
    let d = object_digest(o);
    &&& h == d
    &&& post.handle_registered(d)
    &&& post.object_at(d) == if pre.object_at(d) is Some {
        pre.object_at(d)
    } else {
        Some(o)
    }
    &&& post.db_at(d) == Some(encode_object_spec(o))
    &&& forall|x: Seq<u8>| x != d ==> post.handle_registered(x) == pre.handle_registered(x)
    &&& forall|x: Seq<u8>| x != d ==> post.object_at(x) == pre.object_at(x)
    &&& forall|x: Seq<u8>| x != d ==> post.db_at(x) == pre.db_at(x)
    &&& forall|x: Seq<u8>| post.branch_at(x) == pre.branch_at(x)
}

/// What a branch compare-and-set does: if the branch's current target equals
/// `prev`, it moves to `target`; otherwise nothing changes and the call
/// reports the conflict.
pub open spec fn swap_transition(
    pre: Store,
    post: Store,
    name: Seq<u8>,
    prev: Option<Seq<u8>>,
    target: Seq<u8>,
    r: Result<(), Error>,
) -> bool {
    if pre.branch_at(name) == prev {
        &&& r == Ok::<(), Error>(())
        &&& post.branch_at(name) == Some(target)
        &&& forall|x: Seq<u8>| x != name ==> post.branch_at(x) == pre.branch_at(x)
        &&& forall|x: Seq<u8>| post.handle_registered(x) == pre.handle_registered(x)
        &&& forall|x: Seq<u8>| post.object_at(x) == pre.object_at(x)
        &&& forall|x: Seq<u8>| post.db_at(x) == pre.db_at(x)
    } else {
        r == Err::<(), Error>(Error::BranchConflict) && same_state(pre, post)
    }
}

impl Store {
    /// Whether the canonical handle for `d` has been created.
    fn handles_contain(&self, d: &Sha3Digest) -> (r: bool)
        ensures
            r == self.handle_registered(d@),
    {
        let mut i: usize = 0;
        while i < self.handles.len()
            invariant
                i <= self.handles@.len(),
                forall|j: int| 0 <= j < i ==> (#[trigger] self.handles@[j])@ != d@,
            decreases self.handles.len() - i,
        {
            if bytes_eq(self.handles[i].as_bytes(), d.as_bytes()) {
                return true;
            }
            i = i + 1;
        }
        proof {
            if self.handle_registered(d@) {
                let w = choose|w: int| 0 <= w < self.handles@.len() && self.handles@[w]@ == d@;
                assert(self.handles@[w]@ != d@);
            }
        }
        false
    }

    /// The canonical handle for digest `d`, created on first use. Two calls
    /// with equal digests return equal handles.
    pub fn handle_for_digest(&mut self, d: &Sha3Digest) -> (h: Handle)
        ensures
            h@ == d@,
            final(self).handle_registered(d@),
            forall|x: Seq<u8>| x != d@ ==> final(self).handle_registered(x) == old(self).handle_registered(x),
            forall|x: Seq<u8>| final(self).object_at(x) == old(self).object_at(x),
            forall|x: Seq<u8>| final(self).db_at(x) == old(self).db_at(x),
            forall|x: Seq<u8>| final(self).branch_at(x) == old(self).branch_at(x),
            content_addressed(*old(self)) ==> content_addressed(*final(self)),
    {
        self.register_handle(d);
        proof {
            if content_addressed(*old(self)) {
                lemma_content_unchanged(*old(self), *self);
            }
        }
        Handle::for_digest(d)
    }

    /// Installs an object: canonicalise, digest, register the handle, keep a
    /// single resident copy, write the encoding to the key-value map, and
    /// return the handle. Installing the same object again changes nothing.
    pub fn install_object(&mut self, o: Object) -> (h: Handle)
        ensures
            install_transition(*old(self), *final(self), o@, h@),
            o@.wf(),
            content_addressed(*old(self)) ==> content_addressed(*final(self)),
    {
        let enc = o.encode();
        let d = Sha3Digest::hash_bytes(&enc);
        self.register_handle(&d);
        proof {
            assert(forall|x: Seq<u8>| self.object_at(x) == old(self).object_at(x));
        }
        match self.objects_find(&d) {
            Some(i) => {
                proof {
                    lemma_assoc_first_match(self.objects@, i as int, d@);
                }
            },
            None => {
                self.objects_put(&d, o);
            },
        }
        proof {
            assert(forall|x: Seq<u8>| x != d@ ==> self.object_at(x) == old(self).object_at(x));
        }
        self.db_put(d.as_bytes(), enc);
        proof {
            let pre = *old(self);
            let dd = object_digest(o@);
            assert(d@ == dd);
            assert(self.handle_registered(dd));
            assert(self.db_at(dd) == Some(encode_object_spec(o@)));
            assert(self.object_at(dd) == if pre.object_at(dd) is Some {
                pre.object_at(dd)
            } else {
                Some(o@)
            });
            assert(forall|x: Seq<u8>| x != dd ==> self.handle_registered(x) == pre.handle_registered(x));
            assert(forall|x: Seq<u8>| x != dd ==> self.object_at(x) == pre.object_at(x));
            assert(forall|x: Seq<u8>| x != dd ==> self.db_at(x) == pre.db_at(x));
            assert(forall|x: Seq<u8>| self.branch_at(x) == pre.branch_at(x));
            assert(install_transition(pre, *self, o@, d@));
            if content_addressed(pre) {
                lemma_install_preserves_content(pre, *self, o@, d@);
            }
        }
        Handle::for_digest(&d)
    }

    /// The object stored under digest `d`: the resident copy on a hit, else
    /// the key-value entry decoded and made resident; `None` when the store
    /// has never seen `d`.
    pub fn get_object(&mut self, d: &Sha3Digest) -> (r: Result<Option<Object>, Error>)
        ensures
            match r {
                Ok(Some(o)) => lookup_object(*old(self), d@) == Ok::<Option<ObjectView>, Error>(Some(o@)),
                Ok(None) => lookup_object(*old(self), d@) == Ok::<Option<ObjectView>, Error>(None::<ObjectView>),
                Err(e) => lookup_object(*old(self), d@) == Err::<Option<ObjectView>, Error>(e),
            },
            final(self).object_at(d@) == (match lookup_object(*old(self), d@) {
                Ok(Some(v)) => Some(v),
                _ => old(self).object_at(d@),
            }),
            forall|x: Seq<u8>| x != d@ ==> final(self).object_at(x) == old(self).object_at(x),
            forall|x: Seq<u8>| final(self).handle_registered(x) == old(self).handle_registered(x),
            forall|x: Seq<u8>| final(self).db_at(x) == old(self).db_at(x),
            forall|x: Seq<u8>| final(self).branch_at(x) == old(self).branch_at(x),
            content_addressed(*old(self)) ==> content_addressed(*final(self)),
    {
        proof {
            if content_addressed(*self) {
                assert(match self.db_at(d@) {
                    Some(bytes) => decodable(bytes) && object_digest(decoded(bytes)) == d@,
                    None => true,
                });
            }
        }
        match self.objects_find(d) {
            Some(i) => {
                proof {
                    lemma_assoc_first_match(self.objects@, i as int, d@);
                }
                Ok(Some(self.objects[i].1.duplicate()))
            },
            None => {
                match self.db_get(d.as_bytes()) {
                    Some(bytes) => {
                        match Object::decode(&bytes) {
                            Ok(o) => {
                                let copy = o.duplicate();
                                self.objects_put(d, o);
                                proof {
                                    if content_addressed(*old(self)) {
                                        assert(is_encoding_of(bytes@, decoded(bytes@)));
                                        assert forall|x: Seq<u8>| (match #[trigger] self.object_at(x) {
                                            Some(v) => object_digest(v) == x && v.wf(),
                                            None => true,
                                        }) by {
                                            if x != d@ {
                                                assert(self.object_at(x) == old(self).object_at(x));
                                            }
                                        }
                                        assert forall|k: Seq<u8>| (match #[trigger] self.db_at(k) {
                                            Some(b2) => decodable(b2) && object_digest(decoded(b2)) == k,
                                            None => true,
                                        }) by {
                                            assert(self.db_at(k) == old(self).db_at(k));
                                        }
                                    }
                                }
                                Ok(Some(copy))
                            },
                            Err(e) => Err(e),
                        }
                    },
                    None => Ok(None),
                }
            },
        }
    }

    /// Resolves a digest to its canonical handle: from the handle cache, or
    /// by finding the object (resident or stored) and registering the
    /// handle; `None` when the store has never seen `d`.
    pub fn resolve(&mut self, d: &Sha3Digest) -> (r: Result<Option<Handle>, Error>)
        ensures
            ({
                let pre = *old(self);
                let post = *final(self);
                let dd = d@;
                if pre.handle_registered(dd) {
                    (match r {
                        Ok(Some(h)) => h@ == dd,
                        _ => false,
                    }) && same_state(pre, post)
                } else {
                    match lookup_object(pre, dd) {
                        Ok(Some(v)) => {
                            &&& (match r {
                                Ok(Some(h)) => h@ == dd,
                                _ => false,
                            })
                            &&& post.handle_registered(dd)
                            &&& post.object_at(dd) == Some(v)
                            &&& forall|x: Seq<u8>| x != dd ==> post.handle_registered(x) == pre.handle_registered(x)
                            &&& forall|x: Seq<u8>| x != dd ==> post.object_at(x) == pre.object_at(x)
                            &&& forall|x: Seq<u8>| post.db_at(x) == pre.db_at(x)
                            &&& forall|x: Seq<u8>| post.branch_at(x) == pre.branch_at(x)
                        },
                        Ok(None) => r == Ok::<Option<Handle>, Error>(None::<Handle>) && same_state(pre, post),
                        Err(e) => r == Err::<Option<Handle>, Error>(e) && same_state(pre, post),
                    }
                }
            }),
            content_addressed(*old(self)) ==> content_addressed(*final(self)),
    {
        if self.handles_contain(d) {
            return Ok(Some(Handle::for_digest(d)));
        }
        match self.get_object(d) {
            Ok(Some(_)) => {
                let ghost mid = *self;
                self.register_handle(d);
                proof {
                    if content_addressed(*old(self)) {
                        lemma_content_unchanged(mid, *self);
                    }
                }
                Ok(Some(Handle::for_digest(d)))
            },
            Ok(None) => Ok(None),
            Err(e) => Err(e),
        }
    }

    /// Loads the content behind a handle: the blob bytes and one handle per
    /// child reference, in order. Fails with `HandleDangling` when the
    /// handle's digest is not present in the store.
    pub fn load(&mut self, h: &Handle) -> (r: Result<(Vec<u8>, Vec<Handle>), Error>)
        ensures
            ({
                let pre = *old(self);
                let post = *final(self);
                let dd = h@;
                match r {
                    Ok((blob, hs)) => {
                        match lookup_object(pre, dd) {
                            Ok(Some(v)) => {
                                &&& blob@ == v.blob
                                &&& hs@.len() == v.refs.len()
                                &&& forall|i: int| 0 <= i < hs@.len() ==> (#[trigger] hs@[i])@ == v.refs[i]
                                &&& post.object_at(dd) == Some(v)
                                &&& forall|x: Seq<u8>| x != dd ==> post.object_at(x) == pre.object_at(x)
                                &&& forall|x: Seq<u8>|
                                    post.handle_registered(x) == (pre.handle_registered(x) || exists|i: int|
                                        0 <= i < v.refs.len() && v.refs[i] == x)
                                &&& forall|x: Seq<u8>| post.db_at(x) == pre.db_at(x)
                                &&& forall|x: Seq<u8>| post.branch_at(x) == pre.branch_at(x)
                            },
                            _ => false,
                        }
                    },
                    Err(e) => {
                        &&& (if e == Error::HandleDangling {
                            lookup_object(pre, dd) == Ok::<Option<ObjectView>, Error>(None::<ObjectView>)
                        } else {
                            lookup_object(pre, dd) == Err::<Option<ObjectView>, Error>(e)
                        })
                        &&& same_state(pre, post)
                    },
                }
            }),
            content_addressed(*old(self)) ==> content_addressed(*final(self)),
    {
        let d = h.digest();
        match self.get_object(&d) {
            Ok(Some(o)) => {
                let ghost mid = *self;
                let ghost v = o@;
                let Object { blob, refs } = o;
                let mut hs: Vec<Handle> = Vec::new();
                let mut i: usize = 0;
                while i < refs.len()
                    invariant
                        i <= refs@.len(),
                        hs@.len() == i,
                        v.refs == digests_view(refs@),
                        v.refs.len() == refs@.len(),
                        forall|j: int| 0 <= j < i ==> (#[trigger] hs@[j])@ == refs@[j]@,
                        forall|x: Seq<u8>| self.object_at(x) == mid.object_at(x),
                        forall|x: Seq<u8>| self.db_at(x) == mid.db_at(x),
                        forall|x: Seq<u8>| self.branch_at(x) == mid.branch_at(x),
                        forall|j: int| 0 <= j < i ==> self.handle_registered((#[trigger] refs@[j])@),
                        forall|x: Seq<u8>| mid.handle_registered(x) ==> self.handle_registered(x),
                        forall|x: Seq<u8>|
                            self.handle_registered(x) && !mid.handle_registered(x) ==> exists|j: int|
                                0 <= j < i && (#[trigger] refs@[j])@ == x,
                    decreases refs.len() - i,
                {
                    let rd = &refs[i];
                    let ghost before = *self;
                    self.register_handle(rd);
                    hs.push(Handle::for_digest(rd));
                    proof {
                        assert forall|x: Seq<u8>|
                            self.handle_registered(x) && !mid.handle_registered(x) implies exists|j: int|
                                0 <= j < i + 1 && (#[trigger] refs@[j])@ == x by {
                            if x == rd@ {
                                assert(refs@[i as int]@ == x);
                            } else {
                                assert(before.handle_registered(x));
                                let j = choose|j: int| 0 <= j < i && (#[trigger] refs@[j])@ == x;
                                assert(0 <= j < i + 1 && refs@[j]@ == x);
                            }
                        }
                    }
                    i = i + 1;
                }
                proof {
                    assert forall|j: int| 0 <= j < hs@.len() implies (#[trigger] hs@[j])@ == v.refs[j] by {
                        assert(hs@[j]@ == refs@[j]@);
                    }
                    assert forall|x: Seq<u8>|
                        self.handle_registered(x) == (mid.handle_registered(x) || exists|j: int|
                            0 <= j < v.refs.len() && v.refs[j] == x) by {
                        if self.handle_registered(x) && !mid.handle_registered(x) {
                            let j = choose|j: int| 0 <= j < i && (#[trigger] refs@[j])@ == x;
                            assert(v.refs[j] == refs@[j]@);
                            assert(0 <= j < v.refs.len() && v.refs[j] == x);
                        }
                        if exists|j: int| 0 <= j < v.refs.len() && v.refs[j] == x {
                            let j = choose|j: int| 0 <= j < v.refs.len() && v.refs[j] == x;
                            assert(refs@[j]@ == v.refs[j]);
                            assert(self.handle_registered(refs@[j]@));
                        }
                    }
                }
                proof {
                    if content_addressed(*old(self)) {
                        lemma_content_unchanged(mid, *self);
                    }
                }
                Ok((blob, hs))
            },
            Ok(None) => Err(Error::HandleDangling),
            Err(e) => Err(e),
        }
    }

    /// Drops the resident copy of the object under `d`, if any; the data in
    /// the key-value map and every handle stay valid.
    pub fn evict(&mut self, d: &Sha3Digest)
        ensures
            final(self).object_at(d@) is None,
            forall|x: Seq<u8>| x != d@ ==> final(self).object_at(x) == old(self).object_at(x),
            forall|x: Seq<u8>| final(self).handle_registered(x) == old(self).handle_registered(x),
            forall|x: Seq<u8>| final(self).db_at(x) == old(self).db_at(x),
            forall|x: Seq<u8>| final(self).branch_at(x) == old(self).branch_at(x),
            content_addressed(*old(self)) ==> content_addressed(*final(self)),
    {
        self.objects_remove(d);
        proof {
            if content_addressed(*old(self)) {
                assert forall|x: Seq<u8>| (match #[trigger] self.object_at(x) {
                    Some(v) => object_digest(v) == x && v.wf(),
                    None => true,
                }) by {
                    if x != d@ {
                        assert(self.object_at(x) == old(self).object_at(x));
                    }
                }
                assert forall|k: Seq<u8>| (match #[trigger] self.db_at(k) {
                    Some(bytes) => decodable(bytes) && object_digest(decoded(bytes)) == k,
                    None => true,
                }) by {
                    assert(self.db_at(k) == old(self).db_at(k));
                }
            }
        }
    }

    /// A fresh builder for a new object in this store.
    pub fn handle_builder(&self) -> (b: HandleBuilder)
        ensures
            b@.blob == Seq::<u8>::empty(),
            b@.refs == Seq::<Seq<u8>>::empty(),
    {
        let b = HandleBuilder { blob: Vec::new(), refs: Vec::new() };
        proof {
            assert(b@.refs =~= Seq::<Seq<u8>>::empty());
        }
        b
    }

    /// The handle the named branch points to, if the branch exists.
    pub fn load_branch(&self, name: &Vec<u8>) -> (r: Option<Handle>)
        ensures
            match r {
                Some(h) => self.branch_at(name@) == Some(h@),
                None => self.branch_at(name@) is None,
            },
    {
        match self.branches_find(name) {
            Some(i) => {
                proof {
                    lemma_assoc_first_match(self.branches@, i as int, name@);
                }
                Some(Handle::for_digest(&self.branches[i].1))
            },
            None => None,
        }
    }

    /// Compare-and-set on a named branch: succeeds exactly when the branch's
    /// current target equals `previous` (both possibly absent), else fails
    /// with `BranchConflict` and changes nothing.
    pub fn swap_branch(&mut self, name: &Vec<u8>, previous: Option<&Handle>, target: &Handle) -> (r: Result<
        (),
        Error,
    >)
        ensures
            swap_transition(
                *old(self),
                *final(self),
                name@,
                match previous {
                    Some(p) => Some(p@),
                    None => None,
                },
                target@,
                r,
            ),
            content_addressed(*old(self)) ==> content_addressed(*final(self)),
    {
        let current = self.load_branch(name);
        let unchanged = match (&current, previous) {
            (None, None) => true,
            (Some(c), Some(p)) => c == p,
            _ => false,
        };
        if unchanged {
            let td = target.digest();
            self.branches_put(name, &td);
            proof {
                if content_addressed(*old(self)) {
                    lemma_content_unchanged(*old(self), *self);
                }
            }
            Ok(())
        } else {
            Err(Error::BranchConflict)
        }
    }
}

/// Accumulates the blob bytes and child references of a new object; `finish`
/// installs it and returns its handle.
#[derive(Debug)]
pub struct HandleBuilder {
    blob: Vec<u8>,
    refs: Vec<Handle>,
}

impl View for HandleBuilder {
    type V = ObjectView;

    closed spec fn view(&self) -> ObjectView {
        ObjectView { blob: self.blob@, refs: self.refs@.map_values(|h: Handle| h@) }
    }
}

impl HandleBuilder {
    /// A fresh, empty builder.
    pub fn new() -> (b: HandleBuilder)
        ensures
            b@.blob == Seq::<u8>::empty(),
            b@.refs == Seq::<Seq<u8>>::empty(),
    {
        let b = HandleBuilder { blob: Vec::new(), refs: Vec::new() };
        proof {
            assert(b@.refs =~= Seq::<Seq<u8>>::empty());
        }
        b
    }

    /// Appends bytes to the blob.
    pub fn write(&mut self, buf: &Vec<u8>)
        ensures
            final(self)@.blob == old(self)@.blob + buf@,
            final(self)@.refs == old(self)@.refs,
    {
        crate::bytes::append_bytes(&mut self.blob, buf);
        proof {
            assert(final(self)@.refs =~= old(self)@.refs);
        }
    }

    /// Appends a child reference.
    pub fn add_reference(&mut self, reference: Handle)
        ensures
            final(self)@.refs == old(self)@.refs.push(reference@),
            final(self)@.blob == old(self)@.blob,
    {
        self.refs.push(reference);
        proof {
            assert(final(self)@.refs =~= old(self)@.refs.push(reference@));
        }
    }

    /// Assembles the object and installs it in `store`.
    pub fn finish(self, store: &mut Store) -> (h: Handle)
        ensures
            install_transition(*old(store), *final(store), self@, h@),
    {
        let HandleBuilder { blob, refs } = self;
        let mut digests: Vec<Sha3Digest> = Vec::new();
        let mut i: usize = 0;
        while i < refs.len()
            invariant
                i <= refs@.len(),
                digests@.len() == i,
                forall|j: int| 0 <= j < i ==> (#[trigger] digests@[j])@ == refs@[j]@,
            decreases refs.len() - i,
        {
            digests.push(refs[i].digest());
            i = i + 1;
        }
        let o = Object { blob, refs: digests };
        proof {
            assert(o@ =~= self@);
        }
        store.install_object(o)
    }
}

/// Installing the same object twice yields equal handles and leaves the
/// store's observable state exactly as after the first install.
pub proof fn lemma_install_idempotent(s0: Store, s1: Store, s2: Store, o: ObjectView, h1: Seq<u8>, h2: Seq<u8>)
    requires
        install_transition(s0, s1, o, h1),
        install_transition(s1, s2, o, h2),
    ensures
        h1 == h2,
        same_state(s1, s2),
{
}

/// Installing an object registers its digest, stores its encoding, and
/// leaves a resident copy, so a following `resolve` of that digest finds the
/// handle and a following `load` finds the content. On a store where no
/// object was yet resident under the digest, the resident copy is the
/// installed object itself.
pub proof fn lemma_install_then_resolve(s0: Store, s1: Store, o: ObjectView, h: Seq<u8>)
    requires
        install_transition(s0, s1, o, h),
    ensures
        h == object_digest(o),
        s1.handle_registered(h),
        s1.db_at(h) == Some(encode_object_spec(o)),
        s1.object_at(h) is Some,
        s0.object_at(h) is None ==> s1.object_at(h) == Some(o)
            && lookup_object(s1, h) == Ok::<Option<ObjectView>, Error>(Some(o)),
{
}

/// Handle equality is value equality on the digest: any two handles for the
/// same digest are equal, however they were produced.
pub proof fn lemma_handle_equality(h1: Handle, h2: Handle)
    requires
        h1@ == h2@,
    ensures
        h1.eq_spec(&h2),
        h2.eq_spec(&h1),
{
}

/// Of two branch swaps asked from the same expected previous target, exactly
/// one succeeds: the first moves the branch, so the second (expecting the
/// old target) fails with `BranchConflict` and changes nothing.
pub proof fn lemma_branch_cas(
    s0: Store,
    s1: Store,
    s2: Store,
    name: Seq<u8>,
    prev: Option<Seq<u8>>,
    d1: Seq<u8>,
    d2: Seq<u8>,
    r1: Result<(), Error>,
    r2: Result<(), Error>,
)
    requires
        s0.branch_at(name) == prev,
        Some(d1) != prev,
        swap_transition(s0, s1, name, prev, d1, r1),
        swap_transition(s1, s2, name, prev, d2, r2),
    ensures
        r1 == Ok::<(), Error>(()),
        r2 == Err::<(), Error>(Error::BranchConflict),
        same_state(s1, s2),
{
}

} // verus!
