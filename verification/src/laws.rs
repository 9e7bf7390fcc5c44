use vstd::prelude::*;
use crate::canon::{canon_of, obj_text, strip};
use crate::digest::identifier_of;
use crate::order::{
    keys_unique, lemma_sort_members_ensures, lemma_sort_preserves_unique, lemma_sorted_unique,
    sort_members, Member,
};
use crate::value::{entries_of, Value};

verus! {

/// Determinism: the canonical string is a pure function of the value's
/// content, so any two canonicalizations of one value are byte-identical.
pub proof fn lemma_canonicalize_deterministic(v: Value, s1: Seq<char>, s2: Seq<char>)
    requires
        s1 == canon_of(v),
        s2 == canon_of(v),
    ensures
        s1 == s2,
{
}

/// Key-order invariance: two member sequences holding the same members,
/// each with unique keys, in any two orders, canonicalize to the same
/// object text.  Sorting by key erases insertion order.
pub proof fn lemma_key_order_invariance(m1: Seq<Member>, m2: Seq<Member>)
    requires
        keys_unique(m1),
        keys_unique(m2),
        forall|q: Member| #[trigger] m1.contains(q) <==> #[trigger] m2.contains(q),
    ensures
        obj_text(m1) == obj_text(m2),
{
    lemma_sort_members_ensures(m1);
    lemma_sort_members_ensures(m2);
    lemma_sort_preserves_unique(m1);
    lemma_sort_preserves_unique(m2);
    assert forall|q: Member| #[trigger] sort_members(m1).contains(q) <==> #[trigger] sort_members(
        m2,
    ).contains(q) by {
        assert(sort_members(m1).contains(q) <==> m1.contains(q));
        assert(sort_members(m2).contains(q) <==> m2.contains(q));
    }
    lemma_sorted_unique(sort_members(m1), sort_members(m2));
}

/// Key-order invariance at the value level: two objects built from the same
/// members in any two orders have the same canonical string.
pub proof fn lemma_object_order_invariance(v1: Value, v2: Value)
    requires
        v1 is Object,
        v2 is Object,
        keys_unique(entries_of(v1)),
        keys_unique(entries_of(v2)),
        forall|q: Member| #[trigger] entries_of(v1).contains(q) <==> #[trigger] entries_of(
            v2,
        ).contains(q),
    ensures
        canon_of(v1) == canon_of(v2),
{
    lemma_key_order_invariance(entries_of(v1), entries_of(v2));
    match v1 {
        Value::Object(e1) => {
            match v2 {
                Value::Object(e2) => {
                    assert(canon_of(v1) == obj_text(e1@));
                    assert(canon_of(v2) == obj_text(e2@));
                },
                _ => {},
            }
        },
        _ => {},
    }
}

/// Removing or attaching `attestations` members is invisible to the
/// preimage: a member sequence extended by one such member strips to the
/// same kept members.
pub proof fn lemma_attestation_append(m: Seq<Member>, p: Member)
    requires
        p.0@ == "attestations"@,
    ensures
        strip(m.push(p)) == strip(m),
{
    assert(m.push(p).drop_last() =~= m);
    assert(m.push(p)[m.push(p).len() - 1] == p);
}

/// Attestation exclusion: two entries whose kept top-level members agree
/// have the same identifier, whatever attestations either carries.
pub proof fn lemma_attestation_exclusion(e1: Value, e2: Value)
    requires
        strip(entries_of(e1)) == strip(entries_of(e2)),
    ensures
        identifier_of(e1) == identifier_of(e2),
{
}

} // verus!
