//! `MimeBlobs`: the `MIME type -> bytes` payloads of one copy.
//!
//! Each MIME type occurs at most once; the pairs keep the order in which they
//! were first inserted.

use vstd::prelude::*;

use crate::text::str_eq;

verus! {

/// One `(mime, bytes)` pair as character and byte sequences.
pub type BlobView = (Seq<char>, Seq<u8>);

/// The MIME types of a pair sequence.
pub open spec fn blob_keys(s: Seq<BlobView>) -> Seq<Seq<char>> {
    s.map_values(|p: BlobView| p.0)
}

/// No MIME type occurs twice.
pub open spec fn keys_distinct(s: Seq<BlobView>) -> bool {
    blob_keys(s).no_duplicates()
}

/// The bytes stored under `k`, looked up from the front.
pub open spec fn lookup(s: Seq<BlobView>, k: Seq<char>) -> Option<Seq<u8>>
    decreases s.len(),
{
    if s.len() == 0 {
        None
    } else if s[0].0 == k {
        Some(s[0].1)
    } else {
        lookup(s.drop_first(), k)
    }
}

/// The pairs as a map, which is what two payloads are compared by.
pub open spec fn blob_map(s: Seq<BlobView>) -> Map<Seq<char>, Seq<u8>> {
    Map::new(|k: Seq<char>| blob_keys(s).contains(k), |k: Seq<char>| lookup(s, k)->Some_0)
}

/// `HashMap::insert` on the pair sequence: replace the bytes of an existing
/// MIME type in place, or append a new pair.
pub open spec fn blob_insert(s: Seq<BlobView>, k: Seq<char>, v: Seq<u8>) -> Seq<BlobView> {
    if blob_keys(s).contains(k) {
        s.map_values(|p: BlobView| if p.0 == k { (k, v) } else { p })
    } else {
        s.push((k, v))
    }
}

/// `HashMap::entry(k).or_insert(v)`: keep an existing pair, else append.
pub open spec fn blob_insert_absent(s: Seq<BlobView>, k: Seq<char>, v: Seq<u8>) -> Seq<BlobView> {
    if blob_keys(s).contains(k) {
        s
    } else {
        s.push((k, v))
    }
}

pub proof fn lemma_lookup_index(s: Seq<BlobView>, i: int)
    requires
        keys_distinct(s),
        0 <= i < s.len(),
    ensures
        lookup(s, s[i].0) == Some(s[i].1),
    decreases s.len(),
{
    if i > 0 {
        assert(blob_keys(s)[0] == s[0].0 && blob_keys(s)[i] == s[i].0);
        assert(blob_keys(s.drop_first()) =~= blob_keys(s).drop_first());
        lemma_lookup_index(s.drop_first(), i - 1);
    }
}

pub proof fn lemma_lookup_absent(s: Seq<BlobView>, k: Seq<char>)
    requires
        !blob_keys(s).contains(k),
    ensures
        lookup(s, k) is None,
    decreases s.len(),
{
    if s.len() > 0 {
        assert(blob_keys(s)[0] == s[0].0);
        assert(blob_keys(s.drop_first()) =~= blob_keys(s).drop_first());
        if blob_keys(s.drop_first()).contains(k) {
            let j = choose|j: int|
                0 <= j < blob_keys(s.drop_first()).len() && blob_keys(s.drop_first())[j] == k;
            assert(blob_keys(s)[j + 1] == k);
        }
        lemma_lookup_absent(s.drop_first(), k);
    }
}

pub proof fn lemma_lookup_some(s: Seq<BlobView>, k: Seq<char>)
    requires
        lookup(s, k) is Some,
    ensures
        blob_keys(s).contains(k),
    decreases s.len(),
{
    if s.len() > 0 && s[0].0 != k {
        lemma_lookup_some(s.drop_first(), k);
        let j = choose|j: int|
            0 <= j < blob_keys(s.drop_first()).len() && blob_keys(s.drop_first())[j] == k;
        assert(blob_keys(s)[j + 1] == k);
    } else if s.len() > 0 {
        assert(blob_keys(s)[0] == k);
    }
}

pub proof fn lemma_push_distinct(s: Seq<BlobView>, p: BlobView)
    requires
        keys_distinct(s),
        !blob_keys(s).contains(p.0),
    ensures
        keys_distinct(s.push(p)),
        blob_keys(s.push(p)) == blob_keys(s).push(p.0),
{
    assert(blob_keys(s.push(p)) =~= blob_keys(s).push(p.0));
    let ks = blob_keys(s.push(p));
    assert forall|i: int, j: int| 0 <= i < ks.len() && 0 <= j < ks.len() && i != j implies ks[i]
        != ks[j] by {
        if i == s.len() as int {
            assert(blob_keys(s)[j] == ks[j]);
        } else if j == s.len() as int {
            assert(blob_keys(s)[i] == ks[i]);
        }
    }
}

/// The `mime -> bytes` payloads of one copy, at most one per MIME type.
#[derive(Debug)]
pub struct MimeBlobs {
    pairs: Vec<(String, Vec<u8>)>,
}

impl View for MimeBlobs {
    type V = Seq<BlobView>;

    closed spec fn view(&self) -> Seq<BlobView> {
        self.pairs@.map_values(|p: (String, Vec<u8>)| (p.0@, p.1@))
    }
}

impl MimeBlobs {
    /// No MIME type occurs twice.
    #[verifier::type_invariant]
    pub open spec fn inv(&self) -> bool {
        keys_distinct(self@)
    }

    /// An empty payload set.
    pub fn new() -> (r: Self)
        ensures
            r@ == Seq::<BlobView>::empty(),
    {
        let r = MimeBlobs { pairs: Vec::new() };
        assert(r@ =~= Seq::<BlobView>::empty());
        r
    }

    /// Number of MIME types.
    pub fn len(&self) -> (n: usize)
        ensures
            n == self@.len(),
    {
        self.pairs.len()
    }

    /// Whether no MIME type is stored.
    pub fn is_empty(&self) -> (b: bool)
        ensures
            b == (self@.len() == 0),
    {
        self.pairs.len() == 0
    }

    /// The MIME type of the `i`-th pair.
    pub fn mime_at(&self, i: usize) -> (m: &String)
        requires
            i < self@.len(),
        ensures
            m@ == self@[i as int].0,
    {
        &self.pairs[i].0
    }

    /// The bytes of the `i`-th pair.
    pub fn bytes_at(&self, i: usize) -> (b: &Vec<u8>)
        requires
            i < self@.len(),
        ensures
            b@ == self@[i as int].1,
    {
        &self.pairs[i].1
    }

    /// Position of `mime`, if stored.
    pub fn position(&self, mime: &str) -> (r: Option<usize>)
        ensures
            match r {
                Some(i) => i < self@.len() && self@[i as int].0 == mime@,
                None => !blob_keys(self@).contains(mime@),
            },
    {
        let mut i: usize = 0;
        while i < self.pairs.len()
            invariant
                0 <= i <= self@.len(),
                self@.len() == self.pairs@.len(),
                forall|j: int| 0 <= j < i ==> self@[j].0 != mime@,
            decreases self@.len() - i,
        {
            if str_eq(self.pairs[i].0.as_str(), mime) {
                return Some(i);
            }
            i = i + 1;
        }
        proof {
            if blob_keys(self@).contains(mime@) {
                let j = choose|j: int| 0 <= j < blob_keys(self@).len() && blob_keys(self@)[j] == mime@;
                assert(self@[j].0 == mime@);
            }
        }
        None
    }

    /// Whether `mime` is stored.
    pub fn contains_key(&self, mime: &str) -> (b: bool)
        ensures
            b == blob_keys(self@).contains(mime@),
    {
        match self.position(mime) {
            Some(i) => {
                assert(blob_keys(self@)[i as int] == mime@);
                true
            },
            None => false,
        }
    }

    /// The bytes stored under `mime`.
    pub fn get(&self, mime: &str) -> (r: Option<&Vec<u8>>)
        ensures
            match r {
                Some(b) => lookup(self@, mime@) == Some(b@),
                None => lookup(self@, mime@) is None,
            },
    {
        proof {
            use_type_invariant(self);
        }
        match self.position(mime) {
            Some(i) => {
                proof {
                    lemma_lookup_index(self@, i as int);
                }
                Some(&self.pairs[i].1)
            },
            None => {
                proof {
                    lemma_lookup_absent(self@, mime@);
                }
                None
            },
        }
    }

    /// Append a pair whose MIME type is not stored yet.
    pub(crate) fn push_new(&mut self, mime: String, bytes: Vec<u8>)
        requires
            !blob_keys(old(self)@).contains(mime@),
        ensures
            final(self)@ == old(self)@.push((mime@, bytes@)),
    {
        proof {
            use_type_invariant(&*self);
            lemma_push_distinct(self@, (mime@, bytes@));
        }
        let ghost m = mime@;
        let ghost b = bytes@;
        let mut pairs: Vec<(String, Vec<u8>)> = Vec::new();
        std::mem::swap(&mut pairs, &mut self.pairs);
        pairs.push((mime, bytes));
        assert(pairs@.map_values(|p: (String, Vec<u8>)| (p.0@, p.1@)) =~= old(self)@.push((m, b)));
        self.pairs = pairs;
        assert(self@ =~= old(self)@.push((m, b)));
    }

    /// Store `bytes` under `mime`, replacing what was stored there before
    /// (as `HashMap::insert` does).
    pub fn insert(&mut self, mime: String, bytes: Vec<u8>)
        ensures
            final(self)@ == blob_insert(old(self)@, mime@, bytes@),
    {
        proof {
            use_type_invariant(&*self);
        }
        match self.position(mime.as_str()) {
            Some(i) => {
                let ghost m = mime@;
                let ghost b = bytes@;
                let ghost before = self@;
                let mut pairs: Vec<(String, Vec<u8>)> = Vec::new();
                std::mem::swap(&mut pairs, &mut self.pairs);
                pairs.set(i, (mime, bytes));
                proof {
                    let after = pairs@.map_values(|p: (String, Vec<u8>)| (p.0@, p.1@));
                    assert(blob_keys(after) =~= blob_keys(before));
                }
                self.pairs = pairs;
                proof {
                    assert(blob_keys(before)[i as int] == m);
                    let expect = before.map_values(|p: BlobView| if p.0 == m { (m, b) } else { p });
                    assert forall|j: int| 0 <= j < before.len() implies #[trigger] self@[j]
                        == expect[j] by {
                        if j != i as int {
                            assert(blob_keys(before)[j] != blob_keys(before)[i as int]);
                            assert(before[j].0 == blob_keys(before)[j]);
                        }
                    }
                    assert(self@ =~= expect);
                    assert(blob_keys(self@) =~= blob_keys(before));
                }
            },
            None => {
                self.push_new(mime, bytes);
            },
        }
    }

    /// Store `bytes` under `mime` unless `mime` is stored already
    /// (as `HashMap::entry(..).or_insert(..)` does).
    pub fn insert_if_absent(&mut self, mime: String, bytes: Vec<u8>)
        ensures
            final(self)@ == blob_insert_absent(old(self)@, mime@, bytes@),
    {
        if !self.contains_key(mime.as_str()) {
            self.push_new(mime, bytes);
        }
    }

    /// A copy holding the same pairs in the same order.
    pub fn duplicate(&self) -> (r: Self)
        ensures
            r@ == self@,
    {
        proof {
            use_type_invariant(self);
        }
        let mut pairs: Vec<(String, Vec<u8>)> = Vec::new();
        let mut i: usize = 0;
        while i < self.pairs.len()
            invariant
                0 <= i <= self.pairs@.len(),
                pairs@.len() == i,
                forall|j: int|
                    0 <= j < i ==> (#[trigger] pairs@[j]).0@ == self.pairs@[j].0@ && pairs@[j].1@
                        == self.pairs@[j].1@,
            decreases self.pairs@.len() - i,
        {
            let m = self.pairs[i].0.clone();
            let b = copy_bytes(&self.pairs[i].1);
            pairs.push((m, b));
            i = i + 1;
        }
        assert(pairs@.map_values(|p: (String, Vec<u8>)| (p.0@, p.1@)) =~= self@);
        let r = MimeBlobs { pairs };
        r
    }

    /// Take the pairs out, in order.
    pub(crate) fn into_pairs(self) -> (v: Vec<(String, Vec<u8>)>)
        ensures
            v@.map_values(|p: (String, Vec<u8>)| (p.0@, p.1@)) == self@,
            keys_distinct(self@),
    {
        proof {
            use_type_invariant(&self);
        }
        self.pairs
    }
}

/// A byte-for-byte copy.
pub fn copy_bytes(b: &Vec<u8>) -> (r: Vec<u8>)
    ensures
        r@ == b@,
{
    let mut r: Vec<u8> = Vec::new();
    let mut i: usize = 0;
    while i < b.len()
        invariant
            0 <= i <= b@.len(),
            r@ == b@.take(i as int),
        decreases b@.len() - i,
    {
        r.push(b[i]);
        assert(b@.take(i + 1) =~= b@.take(i as int).push(b@[i as int]));
        i = i + 1;
    }
    assert(b@.take(b@.len() as int) =~= b@);
    r
}

/// Byte-wise equality.
pub fn bytes_eq(a: &Vec<u8>, b: &Vec<u8>) -> (r: bool)
    ensures
        r == (a@ == b@),
{
    if a.len() != b.len() {
        return false;
    }
    let mut i: usize = 0;
    while i < a.len()
        invariant
            a@.len() == b@.len(),
            0 <= i <= a@.len(),
            forall|j: int| 0 <= j < i ==> a@[j] == b@[j],
        decreases a@.len() - i,
    {
        if a[i] != b[i] {
            return false;
        }
        i = i + 1;
    }
    assert(a@ =~= b@);
    true
}

/// Whether both payload sets hold the same bytes under the same MIME types.
pub fn blobs_same(a: &MimeBlobs, b: &MimeBlobs) -> (r: bool)
    ensures
        r == (blob_map(a@) == blob_map(b@)),
{
    proof {
        use_type_invariant(a);
        use_type_invariant(b);
    }
    let mut i: usize = 0;
    while i < a.len()
        invariant
            keys_distinct(a@),
            keys_distinct(b@),
            0 <= i <= a@.len(),
            forall|j: int| 0 <= j < i ==> #[trigger] lookup(b@, a@[j].0) == Some(a@[j].1),
        decreases a@.len() - i,
    {
        match b.get(a.mime_at(i).as_str()) {
            Some(bytes) => {
                if !bytes_eq(bytes, a.bytes_at(i)) {
                    proof {
                        let key = a@[i as int].0;
                        lemma_lookup_index(a@, i as int);
                        assert(blob_keys(a@)[i as int] == key);
                        lemma_lookup_some(b@, key);
                        assert(blob_map(a@).dom().contains(key));
                        assert(blob_map(b@).dom().contains(key));
                        assert(blob_map(a@)[key] != blob_map(b@)[key]);
                    }
                    return false;
                }
            },
            None => {
                proof {
                    lemma_lookup_index(a@, i as int);
                    assert(blob_keys(a@)[i as int] == a@[i as int].0);
                    assert(blob_map(a@).dom().contains(a@[i as int].0));
                    if blob_keys(b@).contains(a@[i as int].0) {
                        let j = choose|j: int|
                            0 <= j < blob_keys(b@).len() && blob_keys(b@)[j] == a@[i as int].0;
                        lemma_lookup_index(b@, j);
                    }
                }
                return false;
            },
        }
        i = i + 1;
    }
    let mut k: usize = 0;
    while k < b.len()
        invariant
            keys_distinct(a@),
            keys_distinct(b@),
            0 <= k <= b@.len(),
            forall|j: int| 0 <= j < a@.len() ==> #[trigger] lookup(b@, a@[j].0) == Some(a@[j].1),
            forall|j: int| 0 <= j < k ==> #[trigger] blob_keys(a@).contains(b@[j].0),
        decreases b@.len() - k,
    {
        if !a.contains_key(b.mime_at(k).as_str()) {
            proof {
                assert(blob_keys(b@)[k as int] == b@[k as int].0);
                assert(blob_map(b@).dom().contains(b@[k as int].0));
            }
            return false;
        }
        k = k + 1;
    }
    proof {
        assert forall|key: Seq<char>| #[trigger] blob_map(a@).dom().contains(key) implies blob_map(
            b@,
        ).dom().contains(key) && blob_map(a@)[key] == blob_map(b@)[key] by {
            let j = choose|j: int| 0 <= j < blob_keys(a@).len() && blob_keys(a@)[j] == key;
            assert(a@[j].0 == key);
            lemma_lookup_index(a@, j);
            lemma_lookup_some(b@, key);
        }
        assert forall|key: Seq<char>| #[trigger] blob_map(b@).dom().contains(key) implies blob_map(
            a@,
        ).dom().contains(key) by {
            let j = choose|j: int| 0 <= j < blob_keys(b@).len() && blob_keys(b@)[j] == key;
            assert(b@[j].0 == key);
        }
        assert(blob_map(a@) =~= blob_map(b@));
    }
    true
}

} // verus!
