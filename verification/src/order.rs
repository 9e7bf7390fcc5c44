use vstd::prelude::*;
use vstd::string::StrSliceExecFns;
use vstd::utf8::char_u32_cast;
use crate::value::{csize, csize_members, Value};

verus! {

/// One object member: a key and its value.
pub type Member = (String, Value);

/// Strict lexicographic order on the raw Unicode scalar sequences of two
/// strings.  This is the one fixed total ordering by which object keys are
/// sorted; it coincides with byte order on the UTF-8 encodings.
pub open spec fn lex_lt(a: Seq<char>, b: Seq<char>) -> bool
    decreases a.len(),
{
    if b.len() == 0 {
        false
    } else if a.len() == 0 {
        true
    } else if a[0] != b[0] {
        (a[0] as u32) < (b[0] as u32)
    } else {
        lex_lt(a.drop_first(), b.drop_first())
    }
}

/// Reflexive closure of [`lex_lt`].
pub open spec fn lex_le(a: Seq<char>, b: Seq<char>) -> bool {
    lex_lt(a, b) || a == b
}

/// The key order is total: two strings are ordered one way or the other,
/// or they are equal.
pub proof fn lemma_lex_trichotomy(a: Seq<char>, b: Seq<char>)
    ensures
        lex_lt(a, b) || lex_lt(b, a) || a == b,
    decreases a.len(),
{
    if b.len() == 0 {
        if a.len() == 0 {
            assert(a =~= b);
        }
    } else if a.len() == 0 {
    } else if a[0] != b[0] {
        if !((a[0] as u32) < (b[0] as u32)) && !((b[0] as u32) < (a[0] as u32)) {
            char_u32_cast(a[0], a[0] as u32);
            char_u32_cast(b[0], b[0] as u32);
            assert(false);
        }
    } else {
        lemma_lex_trichotomy(a.drop_first(), b.drop_first());
        if a.drop_first() == b.drop_first() {
            assert(a =~= b) by {
                assert(a.drop_first().len() == a.len() - 1);
                assert(b.drop_first().len() == b.len() - 1);
                assert(a.len() == b.len());
                assert(forall|i: int|
                    1 <= i < a.len() ==> #[trigger] a[i] == a.drop_first()[i - 1]
                        && b[i] == b.drop_first()[i - 1]);
            }
        }
    }
}

/// The key order is asymmetric.
pub proof fn lemma_lex_asym(a: Seq<char>, b: Seq<char>)
    requires
        lex_lt(a, b),
    ensures
        !lex_lt(b, a),
    decreases a.len(),
{
    if b.len() == 0 {
    } else if a.len() == 0 {
    } else if a[0] != b[0] {
    } else {
        lemma_lex_asym(a.drop_first(), b.drop_first());
    }
}

/// The key order is transitive.
pub proof fn lemma_lex_trans(a: Seq<char>, b: Seq<char>, c: Seq<char>)
    requires
        lex_lt(a, b),
        lex_lt(b, c),
    ensures
        lex_lt(a, c),
    decreases a.len(),
{
    if a.len() == 0 {
    } else {
        // b and c are nonempty, else one hypothesis is false
        if a[0] == b[0] && b[0] == c[0] {
            lemma_lex_trans(a.drop_first(), b.drop_first(), c.drop_first());
        } else if a[0] != c[0] {
            // at least one strict head step, so the head codes strictly grow
        } else {
            // a[0] == c[0] with one strict head step in between: impossible
            char_u32_cast(a[0], a[0] as u32);
            char_u32_cast(b[0], b[0] as u32);
            char_u32_cast(c[0], c[0] as u32);
        }
    }
}

/// Transitivity of the reflexive order.
pub proof fn lemma_lex_le_trans(a: Seq<char>, b: Seq<char>, c: Seq<char>)
    requires
        lex_le(a, b),
        lex_le(b, c),
    ensures
        lex_le(a, c),
{
    if lex_lt(a, b) && lex_lt(b, c) {
        lemma_lex_trans(a, b, c);
    }
}

/// Antisymmetry of the reflexive order.
pub proof fn lemma_lex_le_antisym(a: Seq<char>, b: Seq<char>)
    requires
        lex_le(a, b),
        lex_le(b, a),
    ensures
        a == b,
{
    if a != b {
        lemma_lex_asym(a, b);
        lemma_lex_asym(b, a);
    }
}

/// Compare two strings in the key order.
pub fn str_lt(a: &str, b: &str) -> (r: bool)
    ensures
        r == lex_lt(a@, b@),
{
    let an = a.unicode_len();
    let bn = b.unicode_len();
    let mut i: usize = 0;
    proof {
        assert(a@.skip(0) =~= a@);
        assert(b@.skip(0) =~= b@);
    }
    while i < an && i < bn
        invariant
            an == a@.len(),
            bn == b@.len(),
            0 <= i <= an,
            i <= bn,
            lex_lt(a@, b@) == lex_lt(a@.skip(i as int), b@.skip(i as int)),
        decreases an - i,
    {
        let ca = a.get_char(i);
        let cb = b.get_char(i);
        proof {
            assert(a@.skip(i as int).len() > 0);
            assert(b@.skip(i as int).len() > 0);
            assert(a@.skip(i as int)[0] == ca);
            assert(b@.skip(i as int)[0] == cb);
        }
        if ca != cb {
            return (ca as u32) < (cb as u32);
        }
        proof {
            assert(a@.skip(i as int).drop_first() =~= a@.skip(i + 1int));
            assert(b@.skip(i as int).drop_first() =~= b@.skip(i + 1int));
        }
        i = i + 1;
    }
    proof {
        assert(a@.skip(i as int).len() == an - i);
        assert(b@.skip(i as int).len() == bn - i);
    }
    an < bn
}

/// Equality of two strings, decided through the key order.
pub fn str_eq(a: &str, b: &str) -> (r: bool)
    ensures
        r == (a@ == b@),
{
    let lt1 = str_lt(a, b);
    let lt2 = str_lt(b, a);
    proof {
        lemma_lex_trichotomy(a@, b@);
        if lex_lt(a@, b@) {
            lemma_lex_asym(a@, b@);
        }
    }
    !lt1 && !lt2
}

/// A member sequence sorted by key under [`lex_le`].
pub open spec fn sorted_keys(s: Seq<Member>) -> bool {
    forall|i: int, j: int|
        0 <= i < j < s.len() ==> lex_le(#[trigger] s[i].0@, #[trigger] s[j].0@)
}

/// No two members share a key.
pub open spec fn keys_unique(s: Seq<Member>) -> bool {
    forall|i: int, j: int|
        0 <= i < j < s.len() ==> (#[trigger] s[i].0@) != (#[trigger] s[j].0@)
}

/// The position at which a member with key `k` is inserted into `s`: the
/// first index whose key is not below `k`, or the length if there is none.
pub open spec fn find_pos(s: Seq<Member>, k: Seq<char>) -> int
    decreases s.len(),
{
    if s.len() == 0 {
        0
    } else if !lex_lt(s[0].0@, k) {
        0
    } else {
        1 + find_pos(s.drop_first(), k)
    }
}

pub proof fn lemma_find_pos_bounds(s: Seq<Member>, k: Seq<char>)
    ensures
        0 <= find_pos(s, k) <= s.len(),
        forall|i: int| 0 <= i < find_pos(s, k) ==> lex_lt(#[trigger] s[i].0@, k),
        find_pos(s, k) < s.len() ==> !lex_lt(s[find_pos(s, k)].0@, k),
    decreases s.len(),
{
    if s.len() == 0 {
    } else if !lex_lt(s[0].0@, k) {
    } else {
        lemma_find_pos_bounds(s.drop_first(), k);
        assert(forall|i: int|
            1 <= i < s.len() ==> #[trigger] s[i] == s.drop_first()[i - 1]);
    }
}

/// Insertion of one member at its sorted position.
pub open spec fn insert_member(s: Seq<Member>, p: Member) -> Seq<Member> {
    s.insert(find_pos(s, p.0@), p)
}

/// Sorting a member sequence by key: repeated sorted insertion.
pub open spec fn sort_members(s: Seq<Member>) -> Seq<Member>
    decreases s.len(),
{
    if s.len() == 0 {
        Seq::empty()
    } else {
        insert_member(sort_members(s.drop_last()), s[s.len() - 1])
    }
}

pub proof fn lemma_insert_member_ensures(s: Seq<Member>, p: Member)
    requires
        sorted_keys(s),
    ensures
        insert_member(s, p).len() == s.len() + 1,
        sorted_keys(insert_member(s, p)),
        forall|q: Member|
            #[trigger] insert_member(s, p).contains(q) <==> s.contains(q) || q == p,
{
    let j = find_pos(s, p.0@);
    let r = insert_member(s, p);
    lemma_find_pos_bounds(s, p.0@);
    s.insert_ensures(j, p);
    // sortedness: members below the insertion point are strictly below the
    // key; the member at the point and after are at or above it.
    assert forall|i1: int, i2: int| 0 <= i1 < i2 < r.len() implies lex_le(
        r[i1].0@,
        r[i2].0@,
    ) by {
        if i1 < j && i2 < j {
        } else if i1 < j && i2 == j {
        } else if i1 == j && i2 > j {
            lemma_lex_trichotomy(p.0@, s[i2 - 1].0@);
            if j < i2 - 1 {
                lemma_lex_trichotomy(p.0@, s[j].0@);
                lemma_lex_le_trans(p.0@, s[j].0@, s[i2 - 1].0@);
            }
        } else if i1 < j && i2 > j {
        } else {
            // both map to old members
        }
    }
    assert forall|q: Member| #[trigger] r.contains(q) <==> s.contains(q) || q == p by {
        if r.contains(q) {
            let i = choose|i: int| 0 <= i < r.len() && r[i] == q;
            if i < j {
                assert(s[i] == q);
                assert(s.contains(q));
            } else if i == j {
            } else {
                assert(s[i - 1] == q);
                assert(s.contains(q));
            }
        }
        if s.contains(q) {
            let i = choose|i: int| 0 <= i < s.len() && s[i] == q;
            if i < j {
                assert(r[i] == q);
            } else {
                assert(r[i + 1] == q);
            }
            assert(r.contains(q));
        }
        if q == p {
            assert(r[j] == q);
            assert(r.contains(q));
        }
    }
}

pub proof fn lemma_sort_members_ensures(s: Seq<Member>)
    ensures
        sort_members(s).len() == s.len(),
        sorted_keys(sort_members(s)),
        forall|q: Member| #[trigger] sort_members(s).contains(q) <==> s.contains(q),
    decreases s.len(),
{
    if s.len() == 0 {
    } else {
        let t = s.drop_last();
        let p = s[s.len() - 1];
        lemma_sort_members_ensures(t);
        lemma_insert_member_ensures(sort_members(t), p);
        assert forall|q: Member| #[trigger] sort_members(s).contains(q) <==> s.contains(
            q,
        ) by {
            if sort_members(s).contains(q) {
                if q == p {
                    assert(s[s.len() - 1] == q);
                    assert(s.contains(q));
                } else {
                    let i = choose|i: int| 0 <= i < t.len() && t[i] == q;
                    assert(s[i] == q);
                    assert(s.contains(q));
                }
            }
            if s.contains(q) {
                let i = choose|i: int| 0 <= i < s.len() && s[i] == q;
                if i < s.len() - 1 {
                    assert(t[i] == q);
                    assert(t.contains(q));
                }
            }
        }
    }
}

pub proof fn lemma_insert_preserves_unique(s: Seq<Member>, p: Member)
    requires
        keys_unique(s),
        forall|q: Member| #[trigger] s.contains(q) ==> q.0@ != p.0@,
    ensures
        keys_unique(insert_member(s, p)),
{
    let j = find_pos(s, p.0@);
    let r = insert_member(s, p);
    lemma_find_pos_bounds(s, p.0@);
    s.insert_ensures(j, p);
    assert forall|i1: int, i2: int| 0 <= i1 < i2 < r.len() implies (#[trigger] r[i1].0@)
        != (#[trigger] r[i2].0@) by {
        if i1 == j {
            let q = if i2 > j { s[i2 - 1] } else { s[i2] };
            assert(s.contains(q));
        } else if i2 == j {
            let q = if i1 > j { s[i1 - 1] } else { s[i1] };
            assert(s.contains(q));
        }
    }
}

pub proof fn lemma_sort_preserves_unique(s: Seq<Member>)
    requires
        keys_unique(s),
    ensures
        keys_unique(sort_members(s)),
    decreases s.len(),
{
    if s.len() > 0 {
        let t = s.drop_last();
        let p = s[s.len() - 1];
        lemma_sort_preserves_unique(t);
        lemma_sort_members_ensures(t);
        assert forall|q: Member| #[trigger] sort_members(t).contains(q) implies q.0@
            != p.0@ by {
            let i = choose|i: int| 0 <= i < t.len() && t[i] == q;
            assert(s[i] == q);
        }
        lemma_insert_preserves_unique(sort_members(t), p);
    }
}

/// Combined size of members over a concatenation.
pub proof fn lemma_csize_members_concat(a: Seq<Member>, b: Seq<Member>)
    ensures
        csize_members(a + b) == csize_members(a) + csize_members(b),
    decreases b.len(),
{
    if b.len() == 0 {
        assert(a + b =~= a);
    } else {
        lemma_csize_members_concat(a, b.drop_last());
        assert((a + b).drop_last() =~= a + b.drop_last());
        assert((a + b)[(a + b).len() - 1] == b[b.len() - 1]);
    }
}

pub proof fn lemma_insert_preserves_csize(s: Seq<Member>, p: Member)
    ensures
        csize_members(insert_member(s, p)) == csize_members(s) + 1 + csize(p.1),
{
    let j = find_pos(s, p.0@);
    lemma_find_pos_bounds(s, p.0@);
    let front = s.subrange(0, j);
    let back = s.subrange(j, s.len() as int);
    assert(insert_member(s, p) == front.push(p) + back);
    lemma_csize_members_concat(front.push(p), back);
    assert(front.push(p).drop_last() =~= front);
    assert(front.push(p)[front.push(p).len() - 1] == p);
    lemma_csize_members_concat(front, back);
    assert(front + back =~= s);
}

/// Sorting the members of an object preserves the size of the tree.
pub proof fn lemma_sort_preserves_csize(s: Seq<Member>)
    ensures
        csize_members(sort_members(s)) == csize_members(s),
    decreases s.len(),
{
    if s.len() > 0 {
        let t = s.drop_last();
        let p = s[s.len() - 1];
        lemma_sort_preserves_csize(t);
        lemma_insert_preserves_csize(sort_members(t), p);
    }
}

/// Each member's value is strictly smaller than the member sequence it
/// belongs to.
pub proof fn lemma_member_csize_bound(s: Seq<Member>, i: int)
    requires
        0 <= i < s.len(),
    ensures
        csize(s[i].1) < csize_members(s),
    decreases s.len(),
{
    if i == s.len() - 1 {
    } else {
        lemma_member_csize_bound(s.drop_last(), i);
        assert(s.drop_last()[i] == s[i]);
    }
}

/// Each element of a value sequence is strictly smaller than the sequence.
pub proof fn lemma_list_csize_bound(s: Seq<Value>, i: int)
    requires
        0 <= i < s.len(),
    ensures
        crate::value::csize(s[i]) < crate::value::csize_list(s),
    decreases s.len(),
{
    if i == s.len() - 1 {
    } else {
        lemma_list_csize_bound(s.drop_last(), i);
        assert(s.drop_last()[i] == s[i]);
    }
}

/// Two sequences sorted by key, with unique keys and the same members,
/// are the same sequence: the sorted order is canonical.
pub proof fn lemma_sorted_unique(a: Seq<Member>, b: Seq<Member>)
    requires
        sorted_keys(a),
        sorted_keys(b),
        keys_unique(a),
        keys_unique(b),
        forall|q: Member| #[trigger] a.contains(q) <==> b.contains(q),
    ensures
        a == b,
    decreases a.len(),
{
    if a.len() == 0 {
        if b.len() > 0 {
            assert(b.contains(b[0]));
            assert(!a.contains(b[0]));
            assert(false);
        }
        assert(a =~= b);
    } else if b.len() == 0 {
        assert(a.contains(a[0]));
        assert(!b.contains(a[0]));
        assert(false);
    } else {
        // the heads agree
        assert(a.contains(a[0]));
        assert(b.contains(b[0]));
        assert(b.contains(a[0]));
        assert(a.contains(b[0]));
        let ja = choose|i: int| 0 <= i < b.len() && b[i] == a[0];
        let jb = choose|i: int| 0 <= i < a.len() && a[i] == b[0];
        assert(b[ja] == a[0]);
        if ja > 0 {
            assert(lex_le(b[0].0@, b[ja].0@));
        }
        assert(lex_le(b[0].0@, a[0].0@));
        assert(a[jb] == b[0]);
        if jb > 0 {
            assert(lex_le(a[0].0@, a[jb].0@));
        }
        assert(lex_le(a[0].0@, b[0].0@));
        lemma_lex_le_antisym(a[0].0@, b[0].0@);
        if jb != 0 {
            assert(a[0].0@ != a[jb].0@);
            assert(false);
        }
        assert(a[0] == b[0]);
        // the tails contain the same members
        let at = a.drop_first();
        let bt = b.drop_first();
        assert(at.len() == a.len() - 1);
        assert(bt.len() == b.len() - 1);
        assert(forall|i: int| 0 <= i < at.len() ==> #[trigger] at[i] == a[i + 1]);
        assert(forall|i: int| 0 <= i < bt.len() ==> #[trigger] bt[i] == b[i + 1]);
        assert forall|q: Member| #[trigger] at.contains(q) implies bt.contains(q) by {
            let i = choose|i: int| 0 <= i < at.len() && at[i] == q;
            assert(a.contains(q));
            let j = choose|j: int| 0 <= j < b.len() && b[j] == q;
            if j == 0 {
                assert(q == a[0]);
                assert(a[0].0@ != a[i + 1].0@);
                assert(false);
            }
            assert(bt[j - 1] == q);
        }
        assert forall|q: Member| #[trigger] bt.contains(q) implies at.contains(q) by {
            let i = choose|i: int| 0 <= i < bt.len() && bt[i] == q;
            assert(b.contains(q));
            assert(a.contains(q));
            let j = choose|j: int| 0 <= j < a.len() && a[j] == q;
            if j == 0 {
                assert(q == b[0]);
                assert(b[0].0@ != b[i + 1].0@);
                assert(false);
            }
            assert(at[j - 1] == q);
        }
        assert forall|i: int, j: int| 0 <= i < j < at.len() implies lex_le(
            #[trigger] at[i].0@,
            #[trigger] at[j].0@,
        ) && at[i].0@ != at[j].0@ by {
            assert(at[i] == a[i + 1]);
            assert(at[j] == a[j + 1]);
            assert(lex_le(a[i + 1].0@, a[j + 1].0@));
            assert(a[i + 1].0@ != a[j + 1].0@);
        }
        assert forall|i: int, j: int| 0 <= i < j < bt.len() implies lex_le(
            #[trigger] bt[i].0@,
            #[trigger] bt[j].0@,
        ) && bt[i].0@ != bt[j].0@ by {
            assert(bt[i] == b[i + 1]);
            assert(bt[j] == b[j + 1]);
            assert(lex_le(b[i + 1].0@, b[j + 1].0@));
            assert(b[i + 1].0@ != b[j + 1].0@);
        }
        lemma_sorted_unique(at, bt);
        assert(a.len() == b.len());
        assert forall|i: int| 0 <= i < a.len() implies a[i] == b[i] by {
            if i > 0 {
                assert(at[i - 1] == a[i]);
                assert(bt[i - 1] == b[i]);
                assert(at[i - 1] == bt[i - 1]);
            }
        }
        assert(a =~= b);
    }
}

} // verus!
