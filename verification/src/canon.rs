use vstd::prelude::*;
use vstd::string::{StringExecFns, StrSliceExecFns};
use crate::order::{
    find_pos, insert_member, lemma_find_pos_bounds, lemma_member_csize_bound,
    lemma_sort_members_ensures, lemma_sort_preserves_csize, lex_lt, sort_members, str_lt, Member,
};
use crate::text::{int_text, push_char, push_int, push_quoted, quoted};
use crate::value::{canon_ok, csize, csize_list, csize_members, entries_of, members_ok, CanonError, Value};

verus! {

/// The canonical text of a value.  This is the single deterministic encoding
/// rule set: `null`, `true`, `false`, minimal decimal integers, quoted and
/// escaped strings, arrays in element order between brackets, and objects
/// between braces with members sorted by key, all joined by commas with no
/// whitespace.  Only meaningful for values accepted by
/// [`canon_ok`](crate::value::canon_ok); a rejected number encodes as the
/// empty sequence.
pub open spec fn canon_of(v: Value) -> Seq<char>
    decreases csize(v),
    via canon_of_dec
{
    match v {
        Value::Null => "null"@,
        Value::Bool(b) => if b {
            "true"@
        } else {
            "false"@
        },
        Value::Int(i) => int_text(i as int),
        Value::NonIntNumber => Seq::empty(),
        Value::Text(s) => quoted(s@),
        Value::Array(a) => seq!['['] + list_text(a@) + seq![']'],
        Value::Object(m) => seq!['{'] + members_text(sort_members(m@)) + seq!['}'],
    }
}

/// The canonical text of the elements of an array, joined by commas.
pub open spec fn list_text(s: Seq<Value>) -> Seq<char>
    decreases csize_list(s),
{
    if s.len() == 0 {
        Seq::empty()
    } else if s.len() == 1 {
        canon_of(s[0])
    } else {
        list_text(s.drop_last()) + seq![','] + canon_of(s[s.len() - 1])
    }
}

/// The text of a member sequence in its given order: quoted key, colon,
/// canonical value, joined by commas.
pub open spec fn members_text(s: Seq<Member>) -> Seq<char>
    decreases csize_members(s),
{
    if s.len() == 0 {
        Seq::empty()
    } else if s.len() == 1 {
        quoted(s[0].0@) + seq![':'] + canon_of(s[0].1)
    } else {
        members_text(s.drop_last()) + seq![','] + quoted(s[s.len() - 1].0@) + seq![':']
            + canon_of(s[s.len() - 1].1)
    }
}

#[via_fn]
proof fn canon_of_dec(v: Value) {
    match v {
        Value::Object(m) => lemma_sort_preserves_csize(m@),
        _ => (),
    }
}

/// The canonical text of an object with the given members.
pub open spec fn obj_text(s: Seq<Member>) -> Seq<char> {
    seq!['{'] + members_text(sort_members(s)) + seq!['}']
}

/// The top-level members kept by the preimage builder: all but those whose
/// key is `attestations`, in their given order.
pub open spec fn strip(s: Seq<Member>) -> Seq<Member>
    decreases s.len(),
{
    if s.len() == 0 {
        Seq::empty()
    } else if s[s.len() - 1].0@ == "attestations"@ {
        strip(s.drop_last())
    } else {
        strip(s.drop_last()).push(s[s.len() - 1])
    }
}

/// The members an object traversal works on: all of them, or all but the
/// excluded `attestations` members.
pub open spec fn kept(s: Seq<Member>, exclude: bool) -> Seq<Member> {
    if exclude {
        strip(s)
    } else {
        s
    }
}

proof fn lemma_kept_push(s: Seq<Member>, p: Member, exclude: bool)
    ensures
        kept(s.push(p), exclude) == if exclude && p.0@ == "attestations"@ {
            kept(s, exclude)
        } else {
            kept(s, exclude).push(p)
        },
{
    let t = s.push(p);
    assert(t.drop_last() =~= s);
    assert(t[t.len() - 1] == p);
    if !exclude {
        assert(kept(t, exclude) =~= kept(s, exclude).push(p));
    }
}

/// The members selected out of `entries` by a sequence of indices.
pub open spec fn sel(entries: Seq<Member>, order: Seq<usize>) -> Seq<Member> {
    Seq::new(order.len(), |j: int| entries[order[j] as int])
}

/// The position in the already sorted selection at which a member with the
/// given key is inserted: the first whose key is not below it.
fn insertion_pos(entries: &Vec<(String, Value)>, order: &Vec<usize>, key: &String) -> (j: usize)
    requires
        forall|t: int| 0 <= t < order@.len() ==> #[trigger] order@[t] < entries@.len(),
    ensures
        0 <= j <= order@.len(),
        forall|t: int| 0 <= t < j ==> lex_lt(#[trigger] sel(entries@, order@)[t].0@, key@),
        j < order@.len() ==> !lex_lt(sel(entries@, order@)[j as int].0@, key@),
{
    let mut j: usize = 0;
    while j < order.len()
        invariant
            forall|t: int| 0 <= t < order@.len() ==> #[trigger] order@[t] < entries@.len(),
            0 <= j <= order@.len(),
            forall|t: int| 0 <= t < j ==> lex_lt(#[trigger] sel(entries@, order@)[t].0@, key@),
        decreases order@.len() - j,
    {
        proof {
            assert(sel(entries@, order@)[j as int] == entries@[order@[j as int] as int]);
        }
        if !str_lt(entries[order[j]].0.as_str(), key.as_str()) {
            return j;
        }
        j = j + 1;
    }
    j
}

/// Canonicalize the object with the given members, optionally excluding the
/// `attestations` members, into `{`, the members sorted by key, `}`.
fn canon_object(entries: &Vec<(String, Value)>, exclude: bool) -> (r: Result<String, CanonError>)
    ensures
        match r {
            Ok(s) => members_ok(kept(entries@, exclude)) && s@ == obj_text(
                kept(entries@, exclude),
            ),
            Err(e) => !members_ok(kept(entries@, exclude)) && e
                == CanonError::NonCanonicalNumber,
        },
    decreases csize_members(entries@),
{
    let n = entries.len();
    // sorted insertion of the indices of the kept members
    let mut order: Vec<usize> = Vec::new();
    let mut k: usize = 0;
    proof {
        assert(entries@.take(0) =~= Seq::<Member>::empty());
        assert(kept(entries@.take(0), exclude) =~= Seq::<Member>::empty());
        assert(sel(entries@, order@) =~= Seq::<Member>::empty());
    }
    while k < n
        invariant
            n == entries@.len(),
            0 <= k <= n,
            forall|t: int| 0 <= t < order@.len() ==> #[trigger] order@[t] < n,
            sel(entries@, order@) == sort_members(kept(entries@.take(k as int), exclude)),
        decreases n - k,
    {
        let ghost prev = kept(entries@.take(k as int), exclude);
        let ghost sv = sel(entries@, order@);
        proof {
            assert(entries@.take(k + 1int).drop_last() =~= entries@.take(k as int));
            assert(entries@.take(k + 1int) =~= entries@.take(k as int).push(entries@[k as int]));
            lemma_kept_push(entries@.take(k as int), entries@[k as int], exclude);
        }
        let skip_this = exclude && crate::order::str_eq(entries[k].0.as_str(), "attestations");
        if !skip_this {
            let key: &String = &entries[k].0;
            let j: usize = insertion_pos(entries, &order, key);
            proof {
                // the scanned position is the spec insertion point: a spot
                // on either side of it would contradict one of the bounds
                lemma_sort_members_ensures(prev);
                lemma_find_pos_bounds(sv, entries@[k as int].0@);
                let fp = find_pos(sv, entries@[k as int].0@);
                if j < fp {
                    assert(lex_lt(sv[j as int].0@, entries@[k as int].0@));
                    assert(false);
                }
                if fp < j {
                    assert(lex_lt(sv[fp].0@, entries@[k as int].0@));
                    assert(false);
                }
            }
            let ghost oo = order@;
            order.insert(j, k);
            proof {
                let p = entries@[k as int];
                assert(order@ == oo.insert(j as int, k));
                oo.insert_ensures(j as int, k);
                sv.insert_ensures(j as int, p);
                assert forall|t: int| 0 <= t < order@.len() implies #[trigger] order@[t]
                    < n by {
                    if t < j {
                        assert(order@[t] == oo[t]);
                    } else if t == j {
                        assert(order@[t] == k);
                    } else {
                        assert(order@[t] == oo[t - 1]);
                    }
                }
                assert(sel(entries@, order@) =~= sv.insert(j as int, p));
                assert(kept(entries@.take(k + 1int), exclude) =~= prev.push(p));
                assert(sort_members(prev.push(p)) == insert_member(sort_members(prev), p)) by {
                    assert(prev.push(p).drop_last() =~= prev);
                    assert(prev.push(p)[prev.push(p).len() - 1] == p);
                }
                assert(sel(entries@, order@) == sort_members(
                    kept(entries@.take(k + 1int), exclude),
                ));
            }
        } else {
            proof {
                assert(kept(entries@.take(k + 1int), exclude) == prev);
            }
        }
        k = k + 1;
    }
    let ghost kept_all = kept(entries@, exclude);
    let ghost sv = sel(entries@, order@);
    proof {
        assert(entries@.take(n as int) =~= entries@);
        lemma_sort_members_ensures(kept_all);
    }
    // render the members in sorted order
    let mut out = String::new();
    push_char(&mut out, '{');
    let mut j: usize = 0;
    while j < order.len()
        invariant
            n == entries@.len(),
            forall|t: int| 0 <= t < order@.len() ==> #[trigger] order@[t] < n,
            sv == sel(entries@, order@),
            sv == sort_members(kept_all),
            kept_all == kept(entries@, exclude),
            0 <= j <= order@.len(),
            forall|t: int| 0 <= t < j ==> canon_ok(#[trigger] sv[t].1),
            out@ == seq!['{'] + members_text(sv.take(j as int)),
        decreases order@.len() - j,
    {
        let idx = order[j];
        proof {
            assert(sv[j as int] == entries@[idx as int]);
        }
        if j > 0 {
            push_char(&mut out, ',');
        }
        push_quoted(&mut out, entries[idx].0.as_str());
        push_char(&mut out, ':');
        proof {
            lemma_member_csize_bound(entries@, idx as int);
        }
        match canonicalize(&entries[idx].1) {
            Ok(vs) => {
                out.append(vs.as_str());
            },
            Err(e) => {
                proof {
                    lemma_sort_members_ensures(kept_all);
                    assert(sv.contains(sv[j as int]));
                    assert(sort_members(kept_all).contains(sv[j as int]));
                    assert(kept_all.contains(sv[j as int]));
                    let t = choose|t: int|
                        0 <= t < kept_all.len() && kept_all[t] == sv[j as int];
                    assert(!canon_ok(kept_all[t].1));
                    assert(!members_ok(kept_all));
                }
                return Err(e);
            },
        }
        proof {
            let t = sv.take(j + 1int);
            assert(t.drop_last() =~= sv.take(j as int));
            assert(t[t.len() - 1] == sv[j as int]);
            if j == 0 {
                assert(t.len() == 1);
                assert(t[0] == sv[0]);
                assert(out@ =~= seq!['{'] + members_text(sv.take(j + 1int)));
            } else {
                assert(out@ =~= seq!['{'] + members_text(sv.take(j + 1int)));
            }
        }
        j = j + 1;
    }
    push_char(&mut out, '}');
    proof {
        lemma_sort_members_ensures(kept_all);
        assert(sv.take(sv.len() as int) =~= sv);
        assert forall|i: int| 0 <= i < kept_all.len() implies canon_ok(
            #[trigger] kept_all[i].1,
        ) by {
            assert(kept_all.contains(kept_all[i]));
            assert(sort_members(kept_all).contains(kept_all[i]));
            assert(sv.contains(kept_all[i]));
            let t = choose|t: int| 0 <= t < sv.len() && sv[t] == kept_all[i];
            assert(canon_ok(sv[t].1));
        }
        assert(out@ =~= obj_text(kept_all));
    }
    Ok(out)
}

/// Map a value tree to its one canonical string.
///
/// Succeeds exactly when the tree holds no number without a signed 64-bit
/// integer representation; the failure is `NonCanonicalNumber`.
pub fn canonicalize(v: &Value) -> (r: Result<String, CanonError>)
    ensures
        match r {
            Ok(s) => canon_ok(*v) && s@ == canon_of(*v),
            Err(e) => !canon_ok(*v) && e == CanonError::NonCanonicalNumber,
        },
    decreases csize(*v),
{
    match v {
        Value::Null => Ok("null".to_owned()),
        Value::Bool(b) => if *b {
            Ok("true".to_owned())
        } else {
            Ok("false".to_owned())
        },
        Value::Int(i) => {
            let mut out = String::new();
            push_int(&mut out, *i);
            proof {
                assert(out@ =~= canon_of(*v));
            }
            Ok(out)
        },
        Value::NonIntNumber => Err(CanonError::NonCanonicalNumber),
        Value::Text(s) => {
            let mut out = String::new();
            push_quoted(&mut out, s.as_str());
            proof {
                assert(out@ =~= canon_of(*v));
            }
            Ok(out)
        },
        Value::Array(a) => {
            let mut out = String::new();
            push_char(&mut out, '[');
            let mut i: usize = 0;
            proof {
                assert(a@.take(0) =~= Seq::<Value>::empty());
            }
            while i < a.len()
                invariant
                    *v == Value::Array(*a),
                    0 <= i <= a@.len(),
                    forall|t: int| 0 <= t < i ==> canon_ok(#[trigger] a@[t]),
                    out@ == seq!['['] + list_text(a@.take(i as int)),
                decreases a@.len() - i,
            {
                if i > 0 {
                    push_char(&mut out, ',');
                }
                proof {
                    crate::order::lemma_list_csize_bound(a@, i as int);
                }
                match canonicalize(&a[i]) {
                    Ok(vs) => {
                        out.append(vs.as_str());
                    },
                    Err(e) => {
                        proof {
                            assert(!canon_ok(a@[i as int]));
                            assert(!canon_ok(*v));
                        }
                        return Err(e);
                    },
                }
                proof {
                    let t = a@.take(i + 1int);
                    assert(t.drop_last() =~= a@.take(i as int));
                    assert(t[t.len() - 1] == a@[i as int]);
                    assert(out@ =~= seq!['['] + list_text(a@.take(i + 1int)));
                }
                i = i + 1;
            }
            push_char(&mut out, ']');
            proof {
                assert(a@.take(a@.len() as int) =~= a@);
                assert(out@ =~= canon_of(*v));
            }
            Ok(out)
        },
        Value::Object(m) => {
            let r = canon_object(m, false);
            proof {
                assert(kept(m@, false) == m@);
            }
            r
        },
    }
}

/// The canonical preimage of an entry: the entry must be an object; its
/// top-level `attestations` members are removed (absence is a no-op, nested
/// occurrences are untouched) and the remainder is canonicalized.
pub fn preimage(entry: &Value) -> (r: Result<String, CanonError>)
    ensures
        match r {
            Ok(s) => (*entry) is Object && members_ok(strip(entries_of(*entry))) && s@
                == obj_text(strip(entries_of(*entry))),
            Err(e) => if (*entry) is Object {
                !members_ok(strip(entries_of(*entry))) && e == CanonError::NonCanonicalNumber
            } else {
                e == CanonError::InvalidEntryShape
            },
        },
{
    match entry {
        Value::Object(m) => canon_object(m, true),
        _ => Err(CanonError::InvalidEntryShape),
    }
}

} // verus!
