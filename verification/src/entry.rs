//! The catalog's record type and the total order its id key is sorted by.
//!
//! An `Entry` is one verified invite: its stable identifier (the invite
//! code, as bytes), the time it was last (re)verified, and the verified
//! details as an opaque attached payload that the core never interprets.

use vstd::prelude::*;

verus! {

/// One verified invite record of the catalog.
#[derive(Debug)]
pub struct Entry {
    /// Stable identifier of the invite (the invite code); the unique key of
    /// the whole catalog.
    pub id: Vec<u8>,
    /// Seconds since epoch when this entry was last (re)verified.
    pub observed_at: u64,
    /// Opaque verified-invite details, attached to the record but never
    /// interpreted by the core.
    pub payload: Vec<u8>,
}

/// Mathematical model of an [`Entry`].
#[verifier::ext_equal]
pub ghost struct EntryModel {
    pub id: Seq<u8>,
    pub observed_at: u64,
    pub payload: Seq<u8>,
}

impl View for Entry {
    type V = EntryModel;

    open spec fn view(&self) -> EntryModel {
        EntryModel { id: self.id@, observed_at: self.observed_at, payload: self.payload@ }
    }
}

/// The models of a sequence of entries, element by element.
pub open spec fn models(s: Seq<Entry>) -> Seq<EntryModel> {
    Seq::new(s.len(), |i: int| s[i]@)
}

impl Entry {
    /// An entry is created only from a successfully verified invite; the
    /// caller supplies the observation time.
    pub fn new(id: Vec<u8>, observed_at: u64, payload: Vec<u8>) -> (r: Entry)
        ensures
            r@ == (EntryModel { id: id@, observed_at, payload: payload@ }),
    {
        Entry { id, observed_at, payload }
    }

    /// The unique key under which this entry is indexed.
    pub fn uid(&self) -> (r: &Vec<u8>)
        ensures
            r@ == self@.id,
    {
        &self.id
    }
}

/// Strict lexicographic order on byte strings: the order of the catalog's
/// id keys.
pub open spec fn lex_lt(a: Seq<u8>, b: Seq<u8>) -> bool
    decreases a.len(),
{
    if b.len() == 0 {
        false
    } else if a.len() == 0 {
        true
    } else if a[0] < b[0] {
        true
    } else if a[0] > b[0] {
        false
    } else {
        lex_lt(a.skip(1), b.skip(1))
    }
}

pub proof fn lemma_lex_irrefl(a: Seq<u8>)
    ensures
        !lex_lt(a, a),
    decreases a.len(),
{
    if a.len() > 0 {
        lemma_lex_irrefl(a.skip(1));
    }
}

pub proof fn lemma_lex_trans(a: Seq<u8>, b: Seq<u8>, c: Seq<u8>)
    requires
        lex_lt(a, b),
        lex_lt(b, c),
    ensures
        lex_lt(a, c),
    decreases a.len(),
{
    if a.len() > 0 && b.len() > 0 && c.len() > 0 && a[0] == b[0] && b[0] == c[0] {
        lemma_lex_trans(a.skip(1), b.skip(1), c.skip(1));
    }
}

/// The order is total: two unordered keys are equal.
pub proof fn lemma_lex_connected(a: Seq<u8>, b: Seq<u8>)
    requires
        !lex_lt(a, b),
        !lex_lt(b, a),
    ensures
        a == b,
    decreases a.len(),
{
    if a.len() == 0 && b.len() == 0 {
        assert(a =~= b);
    } else if a.len() == 0 {
        assert(lex_lt(a, b));
    } else if b.len() == 0 {
        assert(lex_lt(b, a));
    } else {
        assert(a[0] == b[0]);
        lemma_lex_connected(a.skip(1), b.skip(1));
        assert(a.skip(1).len() == b.skip(1).len());
        assert(a.len() == b.len());
        assert forall|j: int| 0 <= j < a.len() implies a[j] == b[j] by {
            if j > 0 {
                assert(a[j] == a.skip(1)[j - 1]);
                assert(b[j] == b.skip(1)[j - 1]);
            }
        }
        assert(a =~= b);
    }
}

pub proof fn lemma_lex_asym(a: Seq<u8>, b: Seq<u8>)
    requires
        lex_lt(a, b),
    ensures
        !lex_lt(b, a),
    decreases a.len(),
{
    if a.len() > 0 && b.len() > 0 && a[0] == b[0] {
        lemma_lex_asym(a.skip(1), b.skip(1));
    }
}

/// Exact byte-string equality.
pub fn bytes_eq(a: &Vec<u8>, b: &Vec<u8>) -> (r: bool)
    ensures
        r == (a@ == b@),
{
    if a.len() != b.len() {
        proof {
            assert(a@ != b@);
        }
        return false;
    }
    let mut i: usize = 0;
    while i < a.len()
        invariant
            i <= a@.len(),
            a@.len() == b@.len(),
            forall|j: int| 0 <= j < i ==> a@[j] == b@[j],
        decreases a@.len() - i,
    {
        if a[i] != b[i] {
            proof {
                assert(a@ != b@);
            }
            return false;
        }
        i += 1;
    }
    proof {
        assert(a@ =~= b@);
    }
    true
}

/// Strict lexicographic comparison of two id keys.
pub fn bytes_lt(a: &Vec<u8>, b: &Vec<u8>) -> (r: bool)
    ensures
        r == lex_lt(a@, b@),
{
    proof {
        assert(a@.skip(0) =~= a@);
        assert(b@.skip(0) =~= b@);
    }
    let mut i: usize = 0;
    while i < a.len() && i < b.len()
        invariant
            i <= a@.len(),
            i <= b@.len(),
            forall|j: int| 0 <= j < i ==> a@[j] == b@[j],
            lex_lt(a@, b@) == lex_lt(a@.skip(i as int), b@.skip(i as int)),
        decreases a@.len() - i,
    {
        if a[i] < b[i] {
            return true;
        }
        if a[i] > b[i] {
            return false;
        }
        proof {
            assert(a@.skip(i as int).skip(1) =~= a@.skip(i + 1));
            assert(b@.skip(i as int).skip(1) =~= b@.skip(i + 1));
        }
        i += 1;
    }
    a.len() < b.len()
}

/// The catalog's total entry order: ascending by id, and for one id the
/// fresher observation first; equal keys with equal timestamps do not
/// precede each other.
pub open spec fn entry_precedes_spec(a: EntryModel, b: EntryModel) -> bool {
    lex_lt(a.id, b.id) || (a.id == b.id && a.observed_at > b.observed_at)
}

/// Whether `a` comes strictly before `b` in the catalog's entry order.
pub fn entry_precedes(a: &Entry, b: &Entry) -> (r: bool)
    ensures
        r == entry_precedes_spec(a@, b@),
{
    if bytes_lt(&a.id, &b.id) {
        true
    } else if bytes_eq(&a.id, &b.id) {
        a.observed_at > b.observed_at
    } else {
        false
    }
}

/// A verified deep copy of a byte string.
pub fn clone_bytes(v: &Vec<u8>) -> (r: Vec<u8>)
    ensures
        r@ == v@,
{
    let mut r: Vec<u8> = Vec::new();
    let mut i: usize = 0;
    while i < v.len()
        invariant
            i <= v@.len(),
            r@ == v@.take(i as int),
        decreases v@.len() - i,
    {
        r.push(v[i]);
        proof {
            assert(v@.take(i as int).push(v@[i as int]) =~= v@.take(i + 1));
        }
        i += 1;
    }
    proof {
        assert(v@.take(v@.len() as int) =~= v@);
    }
    r
}

impl Entry {
    /// A verified deep copy of an entry.
    pub fn duplicate(&self) -> (r: Entry)
        ensures
            r@ == self@,
    {
        let r = Entry {
            id: clone_bytes(&self.id),
            observed_at: self.observed_at,
            payload: clone_bytes(&self.payload),
        };
        proof {
            assert(r@ =~= self@);
        }
        r
    }
}

} // verus!
