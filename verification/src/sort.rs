//! Stable insertion sorts: of `(PackageId, Hash64)` pairs by package id,
//! and of strings in `String` order.

use vstd::prelude::*;
use crate::hash::Hash64;
use crate::package::PackageId;
use crate::text::chars_of;

verus! {

/// Inserts `x` into `s` right after the last element whose id is not
/// greater than `x`'s, so equal ids keep their order.
pub open spec fn insert_by_id(s: Seq<(PackageId, Hash64)>, x: (PackageId, Hash64)) -> Seq<(PackageId, Hash64)>
    decreases s.len(),
{
    if s.len() == 0 {
        seq![x]
    } else if s.last().0.0 <= x.0.0 {
        s.push(x)
    } else {
        insert_by_id(s.drop_last(), x).push(s.last())
    }
}

/// `s.sort_by_key(|(id, _)| id.value())`: a stable sort by package id.
pub open spec fn sort_by_id(s: Seq<(PackageId, Hash64)>) -> Seq<(PackageId, Hash64)>
    decreases s.len(),
{
    if s.len() == 0 {
        Seq::empty()
    } else {
        insert_by_id(sort_by_id(s.drop_last()), s.last())
    }
}

proof fn lemma_insert_by_id_at(s: Seq<(PackageId, Hash64)>, x: (PackageId, Hash64), j: int)
    requires
        0 <= j <= s.len(),
        forall|k: int| j <= k < s.len() ==> #[trigger] s[k].0.0 > x.0.0,
        j == 0 || s[j - 1].0.0 <= x.0.0,
    ensures
        insert_by_id(s, x) == s.insert(j, x),
    decreases s.len(),
{
    if s.len() == 0 {
        assert(s.insert(j, x) =~= seq![x]);
    } else if j == s.len() {
        assert(s.insert(j, x) =~= s.push(x));
    } else {
        assert(s[s.len() - 1].0.0 > x.0.0);
        let t = s.drop_last();
        assert forall|k: int| j <= k < t.len() implies #[trigger] t[k].0.0 > x.0.0 by {
            assert(t[k] == s[k]);
        }
        lemma_insert_by_id_at(t, x, j);
        assert(t.insert(j, x).push(s.last()) =~= s.insert(j, x));
    }
}

/// Sorts by package id, keeping the order of equal ids.
pub fn sort_deps_by_id(v: &[(PackageId, Hash64)]) -> (r: Vec<(PackageId, Hash64)>)
    ensures
        r@ == sort_by_id(v@),
{
    let mut out: Vec<(PackageId, Hash64)> = Vec::new();
    let mut i: usize = 0;
    assert(v@.take(0) =~= Seq::<(PackageId, Hash64)>::empty());
    while i < v.len()
        invariant
            i <= v@.len(),
            out@ == sort_by_id(v@.take(i as int)),
        decreases v@.len() - i,
    {
        let x = v[i];
        let mut j: usize = out.len();
        while j > 0 && out[j - 1].0.0 > x.0.0
            invariant
                j <= out@.len(),
                forall|k: int| j <= k < out@.len() ==> #[trigger] out@[k].0.0 > x.0.0,
            decreases j,
        {
            j = j - 1;
        }
        proof {
            lemma_insert_by_id_at(out@, x, j as int);
            let t = v@.take(i + 1);
            assert(t.drop_last() =~= v@.take(i as int));
            assert(t.last() == x);
        }
        out.insert(j, x);
        i = i + 1;
    }
    assert(v@.take(v@.len() as int) =~= v@);
    out
}

/// Sorting by id twice is sorting once.
pub proof fn lemma_sorted_by_id_is_sorted(s: Seq<(PackageId, Hash64)>)
    ensures
        forall|a: int, b: int| 0 <= a < b < sort_by_id(s).len() ==>
            #[trigger] sort_by_id(s)[a].0.0 <= #[trigger] sort_by_id(s)[b].0.0,
        sort_by_id(s).len() == s.len(),
    decreases s.len(),
{
    if s.len() > 0 {
        lemma_sorted_by_id_is_sorted(s.drop_last());
        lemma_insert_keeps_sorted(sort_by_id(s.drop_last()), s.last());
    }
}

proof fn lemma_insert_keeps_sorted(s: Seq<(PackageId, Hash64)>, x: (PackageId, Hash64))
    requires
        forall|a: int, b: int| 0 <= a < b < s.len() ==> #[trigger] s[a].0.0 <= #[trigger] s[b].0.0,
    ensures
        forall|a: int, b: int| 0 <= a < b < insert_by_id(s, x).len() ==>
            #[trigger] insert_by_id(s, x)[a].0.0 <= #[trigger] insert_by_id(s, x)[b].0.0,
        insert_by_id(s, x).len() == s.len() + 1,
        s.len() > 0 ==> insert_by_id(s, x).last().0.0 == if s.last().0.0 <= x.0.0 { x.0.0 } else { s.last().0.0 },
    decreases s.len(),
{
    if s.len() > 0 && s.last().0.0 > x.0.0 {
        let t = s.drop_last();
        assert forall|a: int, b: int| 0 <= a < b < t.len() implies #[trigger] t[a].0.0 <= #[trigger] t[b].0.0 by {
            assert(t[a] == s[a] && t[b] == s[b]);
        }
        lemma_insert_keeps_sorted(t, x);
        let r = insert_by_id(t, x);
        let rr = r.push(s.last());
        assert forall|a: int, b: int| 0 <= a < b < rr.len() implies #[trigger] rr[a].0.0 <= #[trigger] rr[b].0.0 by {
            if b == rr.len() - 1 {
                // every element of r is an element of t or x, all <= s.last()
                assert(r.len() > 0);
                if t.len() > 0 {
                    assert(t.last() == s[s.len() - 2]);
                    assert(s[s.len() - 2].0.0 <= s[s.len() - 1].0.0);
                    assert(t.last().0.0 <= s.last().0.0);
                    assert(r.last().0.0 <= s.last().0.0);
                } else {
                    assert(r.last() == x);
                }
                assert(r[a].0.0 <= r.last().0.0 || a == r.len() - 1);
            } else {
                assert(rr[a] == r[a] && rr[b] == r[b]);
            }
        }
    } else if s.len() > 0 {
        let rr = s.push(x);
        assert forall|a: int, b: int| 0 <= a < b < rr.len() implies #[trigger] rr[a].0.0 <= #[trigger] rr[b].0.0 by {
            if b == rr.len() - 1 {
                assert(rr[a] == s[a] && rr[b] == x);
                assert(s.last() == s[s.len() - 1]);
                if a < s.len() - 1 {
                    assert(s[a].0.0 <= s[s.len() - 1].0.0);
                }
            } else {
                assert(rr[a] == s[a] && rr[b] == s[b]);
            }
        }
    }
}

/// No two entries name the same package.
pub open spec fn ids_distinct(s: Seq<(PackageId, Hash64)>) -> bool {
    forall|i: int, j: int| 0 <= i < j < s.len() ==> #[trigger] s[i].0.0 != #[trigger] s[j].0.0
}

/// The ids go up strictly.
pub open spec fn ids_increasing(s: Seq<(PackageId, Hash64)>) -> bool {
    forall|i: int, j: int| 0 <= i < j < s.len() ==> #[trigger] s[i].0.0 < #[trigger] s[j].0.0
}

proof fn lemma_insert_by_id_multiset(s: Seq<(PackageId, Hash64)>, x: (PackageId, Hash64))
    ensures
        insert_by_id(s, x).to_multiset() == s.to_multiset().insert(x),
    decreases s.len(),
{
    broadcast use vstd::seq_lib::group_to_multiset_ensures;
    if s.len() == 0 {
        assert(seq![x] =~= Seq::<(PackageId, Hash64)>::empty().push(x));
        assert(Seq::<(PackageId, Hash64)>::empty().to_multiset() =~= vstd::multiset::Multiset::empty()) by {
            assert(Seq::<(PackageId, Hash64)>::empty().to_multiset().len() == 0);
        }
    } else if s.last().0.0 <= x.0.0 {
    } else {
        let t = s.drop_last();
        lemma_insert_by_id_multiset(t, x);
        assert(s =~= t.push(s.last()));
        assert(t.to_multiset().insert(x).insert(s.last()) =~= t.to_multiset().insert(s.last()).insert(x));
    }
}

proof fn lemma_sort_by_id_multiset(s: Seq<(PackageId, Hash64)>)
    ensures
        sort_by_id(s).to_multiset() == s.to_multiset(),
    decreases s.len(),
{
    broadcast use vstd::seq_lib::group_to_multiset_ensures;
    if s.len() == 0 {
        assert(sort_by_id(s) =~= s);
    } else {
        lemma_sort_by_id_multiset(s.drop_last());
        lemma_insert_by_id_multiset(sort_by_id(s.drop_last()), s.last());
        assert(s =~= s.drop_last().push(s.last()));
    }
}

proof fn lemma_insert_by_id_increasing(s: Seq<(PackageId, Hash64)>, x: (PackageId, Hash64))
    requires
        ids_increasing(s),
        forall|k: int| 0 <= k < s.len() ==> #[trigger] s[k].0.0 != x.0.0,
    ensures
        ids_increasing(insert_by_id(s, x)),
        forall|k: int| 0 <= k < insert_by_id(s, x).len() ==>
            #[trigger] insert_by_id(s, x)[k] == x || s.contains(insert_by_id(s, x)[k]),
        insert_by_id(s, x).len() == s.len() + 1,
    decreases s.len(),
{
    if s.len() > 0 && s.last().0.0 > x.0.0 {
        let t = s.drop_last();
        assert forall|a: int, b: int| 0 <= a < b < t.len() implies #[trigger] t[a].0.0 < #[trigger] t[b].0.0 by {
            assert(t[a] == s[a] && t[b] == s[b]);
        }
        assert forall|k: int| 0 <= k < t.len() implies #[trigger] t[k].0.0 != x.0.0 by {
            assert(t[k] == s[k]);
        }
        lemma_insert_by_id_increasing(t, x);
        let r = insert_by_id(t, x);
        let rr = r.push(s.last());
        assert forall|k: int| 0 <= k < rr.len() implies #[trigger] rr[k] == x || s.contains(rr[k]) by {
            if k < r.len() {
                if r[k] != x {
                    let q = choose|q: int| 0 <= q < t.len() && t[q] == r[k];
                    assert(s[q] == r[k]);
                }
            } else {
                assert(s[s.len() - 1] == rr[k]);
            }
        }
        assert forall|a: int, b: int| 0 <= a < b < rr.len() implies #[trigger] rr[a].0.0 < #[trigger] rr[b].0.0 by {
            if b == rr.len() - 1 {
                if r[a] == x {
                } else {
                    let q = choose|q: int| 0 <= q < t.len() && t[q] == r[a];
                    assert(s[q] == r[a]);
                    assert(s[q].0.0 < s[s.len() - 1].0.0);
                }
            } else {
                assert(rr[a] == r[a] && rr[b] == r[b]);
            }
        }
    } else if s.len() > 0 {
        let rr = s.push(x);
        assert forall|a: int, b: int| 0 <= a < b < rr.len() implies #[trigger] rr[a].0.0 < #[trigger] rr[b].0.0 by {
            if b == rr.len() - 1 {
                assert(rr[a] == s[a]);
                if a < s.len() - 1 {
                    assert(s[a].0.0 < s[s.len() - 1].0.0);
                }
                assert(s[a].0.0 != x.0.0);
            } else {
                assert(rr[a] == s[a] && rr[b] == s[b]);
            }
        }
        assert forall|k: int| 0 <= k < rr.len() implies #[trigger] rr[k] == x || s.contains(rr[k]) by {
            if k < s.len() {
                assert(s[k] == rr[k]);
            }
        }
    }
}

proof fn lemma_sort_by_id_increasing(s: Seq<(PackageId, Hash64)>)
    requires
        ids_distinct(s),
    ensures
        ids_increasing(sort_by_id(s)),
        forall|k: int| 0 <= k < sort_by_id(s).len() ==> s.drop_last().contains(#[trigger] sort_by_id(s)[k])
            || sort_by_id(s)[k] == s.last(),
    decreases s.len(),
{
    if s.len() > 0 {
        let t = s.drop_last();
        assert forall|i: int, j: int| 0 <= i < j < t.len() implies #[trigger] t[i].0.0 != #[trigger] t[j].0.0 by {
            assert(t[i] == s[i] && t[j] == s[j]);
        }
        lemma_sort_by_id_increasing(t);
        let st = sort_by_id(t);
        assert forall|k: int| 0 <= k < st.len() implies #[trigger] st[k].0.0 != s.last().0.0 by {
            if t.len() > 0 {
                if t.drop_last().contains(st[k]) {
                    let q = choose|q: int| 0 <= q < t.drop_last().len() && t.drop_last()[q] == st[k];
                    assert(s[q] == st[k]);
                    assert(s[q].0.0 != s[s.len() - 1].0.0);
                } else {
                    assert(st[k] == t.last());
                    assert(s[t.len() - 1].0.0 != s[s.len() - 1].0.0);
                }
            }
        }
        lemma_insert_by_id_increasing(st, s.last());
        assert forall|k: int| 0 <= k < sort_by_id(s).len() implies s.drop_last().contains(#[trigger] sort_by_id(s)[k])
            || sort_by_id(s)[k] == s.last() by {
            let y = sort_by_id(s)[k];
            if y != s.last() {
                let q = choose|q: int| 0 <= q < st.len() && st[q] == y;
                if t.len() > 0 && t.drop_last().contains(y) {
                    let w = choose|w: int| 0 <= w < t.drop_last().len() && t.drop_last()[w] == y;
                    assert(t[w] == y);
                } else if t.len() > 0 {
                    assert(t[t.len() - 1] == y);
                }
            }
        }
    }
}

/// Two lists whose ids go up strictly and which hold the same entries are
/// the same list.
proof fn lemma_increasing_unique(s: Seq<(PackageId, Hash64)>, t: Seq<(PackageId, Hash64)>)
    requires
        ids_increasing(s),
        ids_increasing(t),
        s.to_multiset() == t.to_multiset(),
    ensures
        s == t,
    decreases s.len(),
{
    broadcast use vstd::seq_lib::group_to_multiset_ensures;
    broadcast use vstd::multiset::group_multiset_axioms;
    vstd::seq_lib::to_multiset_len(s);
    vstd::seq_lib::to_multiset_len(t);
    assert(s.len() == t.len());
    if s.len() == 0 {
        assert(s =~= t);
    } else {
        let x = s.last();
        let y = t.last();
        assert(s.to_multiset().count(x) > 0);
        assert(t.contains(x));
        let j = choose|j: int| 0 <= j < t.len() && t[j] == x;
        assert(t.to_multiset().count(y) > 0);
        assert(s.contains(y));
        let i = choose|i: int| 0 <= i < s.len() && s[i] == y;
        if i < s.len() - 1 {
            assert(s[i].0.0 < s[s.len() - 1].0.0);
        }
        if j < t.len() - 1 {
            assert(t[j].0.0 < t[t.len() - 1].0.0);
        }
        assert(x.0.0 == y.0.0);
        assert(i == s.len() - 1) by {
            if i < s.len() - 1 {
                assert(s[i].0.0 < s[s.len() - 1].0.0);
            }
        }
        assert(x == y);
        let s1 = s.drop_last();
        let t1 = t.drop_last();
        assert(s =~= s1.push(x));
        assert(t =~= t1.push(x));
        assert(s1.push(x).to_multiset() == s1.to_multiset().insert(x));
        assert(t1.push(x).to_multiset() == t1.to_multiset().insert(x));
        assert(s1.to_multiset() =~= t1.to_multiset()) by {
            assert forall|v| s1.to_multiset().count(v) == t1.to_multiset().count(v) by {
                assert(s.to_multiset().count(v) == t.to_multiset().count(v));
                assert(s1.to_multiset().insert(x).count(v) == t1.to_multiset().insert(x).count(v));
            }
        }
        assert forall|a: int, b: int| 0 <= a < b < s1.len() implies #[trigger] s1[a].0.0 < #[trigger] s1[b].0.0 by {
            assert(s1[a] == s[a] && s1[b] == s[b]);
        }
        assert forall|a: int, b: int| 0 <= a < b < t1.len() implies #[trigger] t1[a].0.0 < #[trigger] t1[b].0.0 by {
            assert(t1[a] == t[a] && t1[b] == t[b]);
        }
        lemma_increasing_unique(s1, t1);
    }
}

/// The order dependencies come in does not matter: two lists holding the
/// same entries, no package twice, sort to the same list.
pub proof fn lemma_sort_by_id_order_free(a: Seq<(PackageId, Hash64)>, b: Seq<(PackageId, Hash64)>)
    requires
        a.to_multiset() == b.to_multiset(),
        ids_distinct(a),
        ids_distinct(b),
    ensures
        sort_by_id(a) == sort_by_id(b),
{
    lemma_sort_by_id_increasing(a);
    lemma_sort_by_id_increasing(b);
    lemma_sort_by_id_multiset(a);
    lemma_sort_by_id_multiset(b);
    lemma_increasing_unique(sort_by_id(a), sort_by_id(b));
}

/// Sorting keeps the number of strings.
pub proof fn lemma_sort_strs_len(s: Seq<Seq<char>>)
    ensures
        sort_strs(s).len() == s.len(),
    decreases s.len(),
{
    if s.len() > 0 {
        lemma_sort_strs_len(s.drop_last());
        lemma_insert_str_len(sort_strs(s.drop_last()), s.last());
    }
}

proof fn lemma_insert_str_len(s: Seq<Seq<char>>, x: Seq<char>)
    ensures
        insert_str(s, x).len() == s.len() + 1,
    decreases s.len(),
{
    if s.len() > 0 && !lex_le(s.last(), x) {
        lemma_insert_str_len(s.drop_last(), x);
    }
}

/// `a <= b` in `String` order: code points compared lexicographically,
/// which for UTF-8 text is the order of the bytes.
pub open spec fn lex_le(a: Seq<char>, b: Seq<char>) -> bool
    decreases a.len(),
{
    if a.len() == 0 {
        true
    } else if b.len() == 0 {
        false
    } else if (a[0] as u32) < (b[0] as u32) {
        true
    } else if (a[0] as u32) > (b[0] as u32) {
        false
    } else {
        lex_le(a.drop_first(), b.drop_first())
    }
}

/// `a <= b` for text.
pub fn str_le(a: &str, b: &str) -> (r: bool)
    ensures
        r == lex_le(a@, b@),
{
    let ac = chars_of(a);
    let bc = chars_of(b);
    let mut i: usize = 0;
    assert(ac@.skip(0) =~= a@);
    assert(bc@.skip(0) =~= b@);
    while i < ac.len() && i < bc.len() && ac[i] == bc[i]
        invariant
            i <= ac@.len(),
            i <= bc@.len(),
            lex_le(a@, b@) == lex_le(ac@.skip(i as int), bc@.skip(i as int)),
        decreases ac@.len() - i,
    {
        assert(ac@.skip(i as int).drop_first() =~= ac@.skip(i + 1));
        assert(bc@.skip(i as int).drop_first() =~= bc@.skip(i + 1));
        assert((ac@[i as int] as u32) == (bc@[i as int] as u32));
        i = i + 1;
    }
    let ghost sa = ac@.skip(i as int);
    let ghost sb = bc@.skip(i as int);
    if i == ac.len() {
        assert(sa.len() == 0);
        true
    } else if i == bc.len() {
        assert(sb.len() == 0);
        false
    } else {
        assert(sa[0] == ac@[i as int] && sb[0] == bc@[i as int]);
        proof {
            vstd::utf8::char_u32_cast(ac@[i as int], ac@[i as int] as u32);
            vstd::utf8::char_u32_cast(bc@[i as int], bc@[i as int] as u32);
        }
        (ac[i] as u32) < (bc[i] as u32)
    }
}

/// Inserts `x` right after the last string not greater than it.
pub open spec fn insert_str(s: Seq<Seq<char>>, x: Seq<char>) -> Seq<Seq<char>>
    decreases s.len(),
{
    if s.len() == 0 {
        seq![x]
    } else if lex_le(s.last(), x) {
        s.push(x)
    } else {
        insert_str(s.drop_last(), x).push(s.last())
    }
}

/// `v.sort()` on strings.
pub open spec fn sort_strs(s: Seq<Seq<char>>) -> Seq<Seq<char>>
    decreases s.len(),
{
    if s.len() == 0 {
        Seq::empty()
    } else {
        insert_str(sort_strs(s.drop_last()), s.last())
    }
}

proof fn lemma_insert_str_at(s: Seq<Seq<char>>, x: Seq<char>, j: int)
    requires
        0 <= j <= s.len(),
        forall|k: int| j <= k < s.len() ==> !lex_le(#[trigger] s[k], x),
        j == 0 || lex_le(s[j - 1], x),
    ensures
        insert_str(s, x) == s.insert(j, x),
    decreases s.len(),
{
    if s.len() == 0 {
        assert(s.insert(j, x) =~= seq![x]);
    } else if j == s.len() {
        assert(s.insert(j, x) =~= s.push(x));
    } else {
        assert(!lex_le(s[s.len() - 1], x));
        let t = s.drop_last();
        assert forall|k: int| j <= k < t.len() implies !lex_le(#[trigger] t[k], x) by {
            assert(t[k] == s[k]);
        }
        lemma_insert_str_at(t, x, j);
        assert(t.insert(j, x).push(s.last()) =~= s.insert(j, x));
    }
}

proof fn lemma_insert_str_member(s: Seq<Seq<char>>, x: Seq<char>, y: Seq<char>)
    ensures
        insert_str(s, x).contains(y) <==> (s.contains(y) || y == x),
    decreases s.len(),
{
    if s.len() == 0 {
        assert(insert_str(s, x) =~= seq![x]);
        assert(insert_str(s, x)[0] == x);
    } else if lex_le(s.last(), x) {
        let r = s.push(x);
        if r.contains(y) {
            let k = choose|k: int| 0 <= k < r.len() && r[k] == y;
            if k < s.len() {
                assert(s[k] == y);
            }
        }
        if s.contains(y) {
            let k = choose|k: int| 0 <= k < s.len() && s[k] == y;
            assert(r[k] == y);
        }
        if y == x {
            assert(r[s.len() as int] == x);
        }
    } else {
        let t = s.drop_last();
        lemma_insert_str_member(t, x, y);
        let it = insert_str(t, x);
        let r = it.push(s.last());
        assert(insert_str(s, x) == r);
        if r.contains(y) {
            let k = choose|k: int| 0 <= k < r.len() && r[k] == y;
            if k < it.len() {
                assert(it[k] == y);
                if t.contains(y) {
                    let m = choose|m: int| 0 <= m < t.len() && t[m] == y;
                    assert(s[m] == y);
                }
            } else {
                assert(s[s.len() - 1] == y);
            }
        }
        if s.contains(y) {
            let k = choose|k: int| 0 <= k < s.len() && s[k] == y;
            if k < s.len() - 1 {
                assert(t[k] == y);
                let m = choose|m: int| 0 <= m < it.len() && it[m] == y;
                assert(r[m] == y);
            } else {
                assert(r[it.len() as int] == y);
            }
        }
        if y == x {
            let m = choose|m: int| 0 <= m < it.len() && it[m] == y;
            assert(r[m] == y);
        }
    }
}

/// Sorting keeps the strings there are.
pub proof fn lemma_sort_strs_member(s: Seq<Seq<char>>, y: Seq<char>)
    ensures
        sort_strs(s).contains(y) <==> s.contains(y),
    decreases s.len(),
{
    if s.len() > 0 {
        let t = s.drop_last();
        lemma_sort_strs_member(t, y);
        lemma_insert_str_member(sort_strs(t), s.last(), y);
        if s.contains(y) {
            let k = choose|k: int| 0 <= k < s.len() && s[k] == y;
            if k < s.len() - 1 {
                assert(t[k] == y);
            }
        }
        if t.contains(y) {
            let k = choose|k: int| 0 <= k < t.len() && t[k] == y;
            assert(s[k] == y);
        }
    }
}

pub open spec fn string_views(v: Seq<String>) -> Seq<Seq<char>> {
    v.map_values(|s: String| s@)
}

/// Sorts strings in `String` order.
pub fn sort_strings(v: Vec<String>) -> (r: Vec<String>)
    ensures
        string_views(r@) == sort_strs(string_views(v@)),
{
    let ghost sv = string_views(v@);
    let mut out: Vec<String> = Vec::new();
    let mut rest = v;
    let mut i: usize = 0;
    let n = rest.len();
    assert(sv.take(0) =~= Seq::<Seq<char>>::empty());
    assert(string_views(out@) =~= Seq::<Seq<char>>::empty());
    while i < n
        invariant
            n == rest@.len(),
            i <= n,
            sv == string_views(rest@),
            string_views(out@) == sort_strs(sv.take(i as int)),
        decreases n - i,
    {
        let mut j: usize = out.len();
        while j > 0 && !str_le(out[j - 1].as_str(), rest[i].as_str())
            invariant
                j <= out@.len(),
                i < rest@.len(),
                forall|k: int| j <= k < out@.len() ==> !lex_le(#[trigger] string_views(out@)[k], rest@[i as int]@),
            decreases j,
        {
            assert(string_views(out@)[j - 1] == out@[j - 1]@);
            j = j - 1;
        }
        let x = rest[i].clone();
        proof {
            let so = string_views(out@);
            if j > 0 {
                assert(so[j - 1] == out@[j - 1]@);
            }
            assert(sv[i as int] == rest@[i as int]@);
            lemma_insert_str_at(so, x@, j as int);
            let t = sv.take(i + 1);
            assert(t.drop_last() =~= sv.take(i as int));
            assert(t.last() == x@);
        }
        let ghost before = out@;
        out.insert(j, x);
        assert(string_views(out@) =~= string_views(before).insert(j as int, x@));
        i = i + 1;
    }
    assert(sv.take(n as int) =~= sv);
    out
}


// --- the order of strings, and sorting them ---

proof fn lemma_lex_refl(a: Seq<char>)
    ensures
        lex_le(a, a),
    decreases a.len(),
{
    if a.len() > 0 {
        lemma_lex_refl(a.drop_first());
    }
}

proof fn lemma_lex_total(a: Seq<char>, b: Seq<char>)
    ensures
        lex_le(a, b) || lex_le(b, a),
    decreases a.len(),
{
    if a.len() > 0 && b.len() > 0 && (a[0] as u32) == (b[0] as u32) {
        lemma_lex_total(a.drop_first(), b.drop_first());
    }
}

proof fn lemma_lex_antisym(a: Seq<char>, b: Seq<char>)
    requires
        lex_le(a, b),
        lex_le(b, a),
    ensures
        a == b,
    decreases a.len(),
{
    if a.len() == 0 {
        assert(b.len() == 0);
        assert(a =~= b);
    } else {
        assert(b.len() > 0);
        assert((a[0] as u32) == (b[0] as u32));
        lemma_lex_antisym(a.drop_first(), b.drop_first());
        assert(a[0] == b[0]) by {
            vstd::utf8::char_u32_cast(a[0], a[0] as u32);
            vstd::utf8::char_u32_cast(b[0], b[0] as u32);
        }
        assert(a.drop_first().len() == b.drop_first().len());
        assert(a.len() == b.len());
        assert(a =~= b) by {
            assert forall|k: int| 0 <= k < a.len() implies a[k] == b[k] by {
                if k > 0 {
                    assert(a.drop_first()[k - 1] == b.drop_first()[k - 1]);
                    assert(a[k] == a.drop_first()[k - 1]);
                    assert(b[k] == b.drop_first()[k - 1]);
                } else {
                    assert(a[0] == b[0]);
                }
            }
        }
    }
}

proof fn lemma_lex_trans(a: Seq<char>, b: Seq<char>, c: Seq<char>)
    requires
        lex_le(a, b),
        lex_le(b, c),
    ensures
        lex_le(a, c),
    decreases a.len(),
{
    if a.len() > 0 {
        assert(b.len() > 0);
        assert(c.len() > 0);
        if (a[0] as u32) == (b[0] as u32) && (b[0] as u32) == (c[0] as u32) {
            lemma_lex_trans(a.drop_first(), b.drop_first(), c.drop_first());
        }
    }
}

/// Strings in ascending `String` order.
pub open spec fn strs_sorted(s: Seq<Seq<char>>) -> bool {
    forall|i: int, j: int| 0 <= i < j < s.len() ==> lex_le(#[trigger] s[i], #[trigger] s[j])
}

proof fn lemma_insert_str_sorted(s: Seq<Seq<char>>, x: Seq<char>)
    requires
        strs_sorted(s),
    ensures
        strs_sorted(insert_str(s, x)),
        insert_str(s, x).to_multiset() == s.to_multiset().insert(x),
    decreases s.len(),
{
    broadcast use vstd::seq_lib::group_to_multiset_ensures;
    if s.len() == 0 {
        assert(seq![x] =~= Seq::<Seq<char>>::empty().push(x));
        assert(Seq::<Seq<char>>::empty().to_multiset() =~= vstd::multiset::Multiset::empty()) by {
            assert(Seq::<Seq<char>>::empty().to_multiset().len() == 0);
        }
    } else if lex_le(s.last(), x) {
        let r = s.push(x);
        assert forall|i: int, j: int| 0 <= i < j < r.len() implies lex_le(#[trigger] r[i], #[trigger] r[j]) by {
            if j == r.len() - 1 {
                if i < s.len() - 1 {
                    assert(lex_le(s[i], s[s.len() - 1]));
                    lemma_lex_trans(s[i], s.last(), x);
                }
            } else {
                assert(r[i] == s[i] && r[j] == s[j]);
            }
        }
    } else {
        let t = s.drop_last();
        assert forall|i: int, j: int| 0 <= i < j < t.len() implies lex_le(#[trigger] t[i], #[trigger] t[j]) by {
            assert(t[i] == s[i] && t[j] == s[j]);
        }
        lemma_insert_str_sorted(t, x);
        let it = insert_str(t, x);
        let r = it.push(s.last());
        lemma_lex_total(s.last(), x);
        assert forall|i: int, j: int| 0 <= i < j < r.len() implies lex_le(#[trigger] r[i], #[trigger] r[j]) by {
            if j == r.len() - 1 {
                let y = it[i];
                lemma_insert_str_member(t, x, y);
                assert(it.contains(y));
                if y != x {
                    let q = choose|q: int| 0 <= q < t.len() && t[q] == y;
                    assert(s[q] == y);
                    assert(lex_le(s[q], s[s.len() - 1]));
                }
            } else {
                assert(r[i] == it[i] && r[j] == it[j]);
            }
        }
        assert(s =~= t.push(s.last()));
        assert(t.to_multiset().insert(x).insert(s.last()) =~= t.to_multiset().insert(s.last()).insert(x));
    }
}

proof fn lemma_sort_strs_sorted(s: Seq<Seq<char>>)
    ensures
        strs_sorted(sort_strs(s)),
        sort_strs(s).to_multiset() == s.to_multiset(),
    decreases s.len(),
{
    broadcast use vstd::seq_lib::group_to_multiset_ensures;
    if s.len() == 0 {
        assert(sort_strs(s) =~= s);
    } else {
        lemma_sort_strs_sorted(s.drop_last());
        lemma_insert_str_sorted(sort_strs(s.drop_last()), s.last());
        assert(s =~= s.drop_last().push(s.last()));
    }
}

proof fn lemma_strs_sorted_unique(s: Seq<Seq<char>>, t: Seq<Seq<char>>)
    requires
        strs_sorted(s),
        strs_sorted(t),
        s.to_multiset() == t.to_multiset(),
    ensures
        s == t,
    decreases s.len(),
{
    broadcast use vstd::seq_lib::group_to_multiset_ensures;
    broadcast use vstd::multiset::group_multiset_axioms;
    vstd::seq_lib::to_multiset_len(s);
    vstd::seq_lib::to_multiset_len(t);
    if s.len() == 0 {
        assert(s =~= t);
    } else {
        let x = s.last();
        let y = t.last();
        assert(s.to_multiset().count(x) > 0);
        assert(t.contains(x));
        let j = choose|j: int| 0 <= j < t.len() && t[j] == x;
        assert(t.to_multiset().count(y) > 0);
        assert(s.contains(y));
        let i = choose|i: int| 0 <= i < s.len() && s[i] == y;
        lemma_lex_refl(x);
        if i < s.len() - 1 {
            assert(lex_le(s[i], s[s.len() - 1]));
        }
        if j < t.len() - 1 {
            assert(lex_le(t[j], t[t.len() - 1]));
        }
        lemma_lex_antisym(x, y);
        let s1 = s.drop_last();
        let t1 = t.drop_last();
        assert(s =~= s1.push(x));
        assert(t =~= t1.push(x));
        assert(s1.push(x).to_multiset() == s1.to_multiset().insert(x));
        assert(t1.push(x).to_multiset() == t1.to_multiset().insert(x));
        assert(s1.to_multiset() =~= t1.to_multiset()) by {
            assert forall|v| s1.to_multiset().count(v) == t1.to_multiset().count(v) by {
                assert(s1.to_multiset().insert(x).count(v) == t1.to_multiset().insert(x).count(v));
            }
        }
        assert forall|a: int, b: int| 0 <= a < b < s1.len() implies lex_le(#[trigger] s1[a], #[trigger] s1[b]) by {
            assert(s1[a] == s[a] && s1[b] == s[b]);
        }
        assert forall|a: int, b: int| 0 <= a < b < t1.len() implies lex_le(#[trigger] t1[a], #[trigger] t1[b]) by {
            assert(t1[a] == t[a] && t1[b] == t[b]);
        }
        lemma_strs_sorted_unique(s1, t1);
    }
}

/// Sorting strings does not depend on the order they come in: two lists
/// holding the same strings sort to the same list.
pub proof fn lemma_sort_strs_order_free(a: Seq<Seq<char>>, b: Seq<Seq<char>>)
    requires
        a.to_multiset() == b.to_multiset(),
    ensures
        sort_strs(a) == sort_strs(b),
{
    lemma_sort_strs_sorted(a);
    lemma_sort_strs_sorted(b);
    lemma_strs_sorted_unique(sort_strs(a), sort_strs(b));
}

/// Mapping two lists that hold the same elements gives two lists that hold
/// the same elements.
pub proof fn lemma_map_keeps_multiset<A, B>(a: Seq<A>, b: Seq<A>, f: spec_fn(A) -> B)
    requires
        a.to_multiset() == b.to_multiset(),
    ensures
        a.map_values(f).to_multiset() == b.map_values(f).to_multiset(),
    decreases a.len(),
{
    broadcast use vstd::seq_lib::group_to_multiset_ensures;
    broadcast use vstd::multiset::group_multiset_axioms;
    vstd::seq_lib::to_multiset_len(a);
    vstd::seq_lib::to_multiset_len(b);
    if a.len() == 0 {
        assert(a.map_values(f) =~= b.map_values(f));
    } else {
        let x = a.last();
        let a1 = a.drop_last();
        assert(a =~= a1.push(x));
        assert(a1.push(x).to_multiset() == a1.to_multiset().insert(x));
        assert(b.to_multiset().count(x) > 0);
        assert(b.contains(x));
        let j = choose|j: int| 0 <= j < b.len() && b[j] == x;
        let b1 = b.remove(j);
        vstd::seq_lib::to_multiset_remove(b, j);
        assert(a1.to_multiset() =~= b1.to_multiset()) by {
            assert forall|v| a1.to_multiset().count(v) == b1.to_multiset().count(v) by {
                assert(a.to_multiset().count(v) == b.to_multiset().count(v));
            }
        }
        lemma_map_keeps_multiset(a1, b1, f);
        assert(a.map_values(f) =~= a1.map_values(f).push(f(x)));
        assert(b.map_values(f) =~= b1.map_values(f).insert(j, f(x)));
        vstd::seq_lib::to_multiset_insert(b1.map_values(f), j, f(x));
        assert(a1.map_values(f).push(f(x)).to_multiset() == a1.map_values(f).to_multiset().insert(f(x)));
    }
}

} // verus!
