//! Interned identifiers.

use vstd::prelude::*;
use crate::text::string_of_str;

verus! {

/// An interned identifier: a 32-bit id standing for one identifier text,
/// so identifiers compare as integers. Ids are handed out by an
/// [`IdentInterner`], which keeps them unique.
#[derive(Debug, Clone, Copy, PartialEq, Eq, Hash, Structural)]
pub struct InternedIdent(pub u32);

impl InternedIdent {
    /// The id reserved for the `self` receiver parameter, used wherever the
    /// name only serves as an identity.
    pub open spec fn spec_self_receiver() -> InternedIdent {
        InternedIdent(u32::MAX)
    }

    #[verifier::when_used_as_spec(spec_self_receiver)]
    pub fn self_receiver() -> (r: InternedIdent)
        ensures
            r == Self::spec_self_receiver(),
    {
        InternedIdent(u32::MAX)
    }
}

/// The pool of interned identifiers. The identifier with id `i` is
/// `idents[i]`; ids are handed out in order from 0.
#[derive(Debug, Clone, Default)]
pub struct IdentInterner {
    next_ident_id: u32,
    idents: Vec<String>,
}

impl View for IdentInterner {
    type V = Seq<Seq<char>>;

    closed spec fn view(&self) -> Seq<Seq<char>> {
        self.idents@.map_values(|s: String| s@)
    }
}

/// No identifier occurs twice in `names`.
pub open spec fn all_distinct(names: Seq<Seq<char>>) -> bool {
    forall|i: int, j: int| 0 <= i < j < names.len() ==> #[trigger] names[i] != #[trigger] names[j]
}

/// `id` is the one id of `ident` in `names`: it holds that text, and no
/// other id does.
pub open spec fn sole_id(names: Seq<Seq<char>>, ident: Seq<char>, id: int) -> bool {
    &&& 0 <= id < names.len()
    &&& names[id] == ident
    &&& forall|k: int| 0 <= k < names.len() && #[trigger] names[k] == ident ==> k == id
}

impl IdentInterner {
    /// Well-formed: each identifier appears once, and the next id is the
    /// number of identifiers.
    pub closed spec fn wf(&self) -> bool {
        &&& self.next_ident_id as nat == self.idents@.len()
        &&& all_distinct(self@)
    }

    /// A well-formed pool holds each identifier once.
    pub proof fn lemma_wf_distinct(&self)
        requires
            self.wf(),
        ensures
            all_distinct(self@),
    {
    }

    pub fn new() -> (r: Self)
        ensures
            r.wf(),
            r@ == Seq::<Seq<char>>::empty(),
    {
        let r = IdentInterner { next_ident_id: 0, idents: Vec::new() };
        assert(r@ =~= Seq::<Seq<char>>::empty());
        r
    }

    /// The number of interned identifiers; the next id handed out.
    pub fn len(&self) -> (r: usize)
        ensures
            r == self@.len(),
    {
        self.idents.len()
    }

    fn find(&self, ident: &str) -> (r: Option<u32>)
        requires
            self.wf(),
        ensures
            match r {
                Some(i) => i < self@.len() && self@[i as int] == ident@,
                None => forall|i: int| 0 <= i < self@.len() ==> self@[i] != ident@,
            },
    {
        let mut i: usize = 0;
        while i < self.idents.len()
            invariant
                self.wf(),
                i <= self@.len(),
                forall|k: int| 0 <= k < i ==> self@[k] != ident@,
            decreases self@.len() - i,
        {
            assert(self@[i as int] == self.idents@[i as int]@);
            if str_eq(self.idents[i].as_str(), ident) {
                return Some(i as u32);
            }
            i = i + 1;
        }
        None
    }

    /// The id of `ident`, interning it first when it is new.
    pub fn get_or_insert(&mut self, ident: &str) -> (r: InternedIdent)
        requires
            old(self).wf(),
            old(self)@.len() < u32::MAX,
        ensures
            final(self).wf(),
            sole_id(final(self)@, ident@, r.0 as int),
            r != InternedIdent::spec_self_receiver(),
            old(self)@.len() <= final(self)@.len(),
            final(self)@.subrange(0, old(self)@.len() as int) == old(self)@,
            old(self)@.contains(ident@) ==> final(self)@ == old(self)@,
            !old(self)@.contains(ident@) ==> final(self)@ == old(self)@.push(ident@)
                && r.0 == old(self)@.len(),
    {
        match self.find(ident) {
            Some(i) => {
                assert(self@.contains(ident@));
                proof { lemma_sole_id(self@, i as int); }
                InternedIdent(i)
            },
            None => {
                let interned = InternedIdent(self.next_ident_id);
                let ghost before = self@;
                self.idents.push(string_of_str(ident));
                self.next_ident_id = self.next_ident_id + 1;
                assert(self@ =~= before.push(ident@));
                assert(!before.contains(ident@));
                assert(all_distinct(self@)) by {
                    assert forall|a: int, b: int| 0 <= a < b < self@.len() implies
                        #[trigger] self@[a] != #[trigger] self@[b] by {
                        if b == before.len() {
                            assert(before[a] == self@[a]);
                        } else {
                            assert(before[a] == self@[a] && before[b] == self@[b]);
                        }
                    }
                }
                proof { lemma_sole_id(self@, interned.0 as int); }
                interned
            },
        }
    }

    /// The id of an identifier that is already interned.
    ///
    /// Nothing is added, so this takes `&self`. An identifier that is not
    /// found was never written by the source, which for name matching means
    /// "does not match".
    #[inline]
    pub fn get(&self, ident: &str) -> (r: Option<InternedIdent>)
        requires
            self.wf(),
        ensures
            match r {
                Some(i) => sole_id(self@, ident@, i.0 as int),
                None => !self@.contains(ident@),
            },
    {
        match self.find(ident) {
            Some(i) => {
                proof { lemma_sole_id(self@, i as int); }
                Some(InternedIdent(i))
            },
            None => None,
        }
    }

    /// The text of an interned identifier.
    #[inline]
    pub fn get_str(&self, interned: &InternedIdent) -> (r: Option<&str>)
        ensures
            match r {
                Some(s) => (interned.0 as int) < self@.len() && s@ == self@[interned.0 as int],
                None => interned.0 as int >= self@.len(),
            },
    {
        if (interned.0 as usize) < self.idents.len() {
            Some(self.idents[interned.0 as usize].as_str())
        } else {
            None
        }
    }
}

/// Text equality of two `&str`.
pub fn str_eq(a: &str, b: &str) -> (r: bool)
    ensures
        r == (a@ == b@),
{
    let ac = crate::text::chars_of(a);
    let bc = crate::text::chars_of(b);
    if ac.len() != bc.len() {
        return false;
    }
    let mut i: usize = 0;
    while i < ac.len()
        invariant
            i <= ac@.len(),
            ac@.len() == bc@.len(),
            ac@ == a@,
            bc@ == b@,
            forall|k: int| 0 <= k < i ==> ac@[k] == bc@[k],
        decreases ac@.len() - i,
    {
        if ac[i] != bc[i] {
            assert(ac@[i as int] != bc@[i as int]);
            assert(a@ != b@);
            return false;
        }
        i = i + 1;
    }
    assert(ac@ =~= bc@);
    true
}

/// In a pool where no identifier occurs twice, the text at an id has that
/// id alone.
proof fn lemma_sole_id(names: Seq<Seq<char>>, i: int)
    requires
        all_distinct(names),
        0 <= i < names.len(),
    ensures
        sole_id(names, names[i], i),
{
    assert forall|k: int| 0 <= k < names.len() && #[trigger] names[k] == names[i] implies k == i by {
        if k < i {
            assert(names[k] != names[i]);
        } else if i < k {
            assert(names[i] != names[k]);
        }
    }
}

/// Interning only appends: an id handed out earlier still reads back its
/// text after later insertions, and stays the one id of that text. `before`
/// is the pool when the id was handed out and `after` the pool later, as
/// `get_or_insert` leaves them.
pub proof fn lemma_id_reads_back_after_insertions(before: Seq<Seq<char>>, after: Seq<Seq<char>>, ident: Seq<char>, id: int)
    requires
        before.len() <= after.len(),
        after.subrange(0, before.len() as int) == before,
        all_distinct(after),
        sole_id(before, ident, id),
    ensures
        sole_id(after, ident, id),
{
    assert(after[id] == before[id]);
    lemma_sole_id(after, id);
}

/// `after` begins with `before`: the pool grew only at its end.
pub open spec fn grown_from(before: Seq<Seq<char>>, after: Seq<Seq<char>>) -> bool {
    before.len() <= after.len() && after.subrange(0, before.len() as int) == before
}

/// Growing only at the end, step after step, is growing only at the end.
proof fn lemma_grown_chain(pools: Seq<Seq<Seq<char>>>, k: int)
    requires
        1 <= k < pools.len(),
        forall|j: int| 0 <= j < pools.len() - 1 ==> grown_from(#[trigger] pools[j], pools[j + 1]),
    ensures
        grown_from(pools[0], pools[k]),
    decreases k,
{
    if k > 1 {
        lemma_grown_chain(pools, k - 1);
        assert(grown_from(pools[k - 1], pools[k]));
        let a = pools[0];
        assert(pools[k].subrange(0, a.len() as int) =~= pools[k - 1].subrange(0, a.len() as int));
    } else {
        assert(grown_from(pools[0], pools[1]));
    }
}

/// Over any number of `get_or_insert` calls, each leaving the pool grown
/// only at its end (`pools[0]` when the id was handed out, `pools.last()`
/// now), an id handed out once still reads back its text and stays the one
/// id of that text.
pub proof fn lemma_id_reads_back_through_calls(pools: Seq<Seq<Seq<char>>>, ident: Seq<char>, id: int)
    requires
        pools.len() >= 1,
        forall|j: int| 0 <= j < pools.len() - 1 ==> grown_from(#[trigger] pools[j], pools[j + 1]),
        all_distinct(pools.last()),
        sole_id(pools[0], ident, id),
    ensures
        sole_id(pools.last(), ident, id),
        pools.last()[id] == ident,
{
    if pools.len() > 1 {
        lemma_grown_chain(pools, pools.len() - 1);
        lemma_id_reads_back_after_insertions(pools[0], pools.last(), ident, id);
    }
}

} // verus!
