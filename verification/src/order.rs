//! Orders used by the store's reads and by week scheduling: a strict
//! lexicographic order on text, serial/id sort keys, and a verified sort.

use vstd::prelude::*;
use vstd::multiset::Multiset;
use vstd::string::StrSliceExecFns;

verus! {

/// Strict lexicographic order on text, by code point: the string with the
/// smaller first differing character is less, and a proper prefix is less
/// than what it prefixes.
pub open spec fn str_lt(a: Seq<char>, b: Seq<char>) -> bool
    decreases a.len(),
{
    if b.len() == 0 {
        false
    } else if a.len() == 0 {
        true
    } else if a[0] != b[0] {
        (a[0] as int) < (b[0] as int)
    } else {
        str_lt(a.drop_first(), b.drop_first())
    }
}

/// The order decides every pair: two distinct strings compare one way or
/// the other.
pub proof fn lemma_str_lt_total(a: Seq<char>, b: Seq<char>)
    ensures
        a != b ==> str_lt(a, b) || str_lt(b, a),
    decreases a.len(),
{
    if b.len() == 0 {
        if a.len() == 0 {
            assert(a =~= b);
        }
    } else if a.len() == 0 {
    } else if a[0] != b[0] {
        assert((a[0] as int) != (b[0] as int));
    } else {
        lemma_str_lt_total(a.drop_first(), b.drop_first());
        if !str_lt(a, b) && !str_lt(b, a) {
            assert(a.drop_first() == b.drop_first());
            assert forall|i: int| 0 <= i < a.len() implies a[i] == b[i] by {
                if i > 0 {
                    assert(a.drop_first()[i - 1] == b.drop_first()[i - 1]);
                }
            }
            assert(a =~= b);
        }
    }
}

/// The order is transitive.
pub proof fn lemma_str_lt_trans(a: Seq<char>, b: Seq<char>, c: Seq<char>)
    requires
        str_lt(a, b),
        str_lt(b, c),
    ensures
        str_lt(a, c),
    decreases a.len() + b.len() + c.len(),
{
    if a.len() > 0 && b.len() > 0 && c.len() > 0 {
        if a[0] == b[0] && b[0] == c[0] {
            lemma_str_lt_trans(a.drop_first(), b.drop_first(), c.drop_first());
        } else {
            assert((a[0] as int) <= (b[0] as int) && (b[0] as int) <= (c[0] as int));
            assert((a[0] as int) < (c[0] as int));
        }
    }
}

/// Whether `a` is lexicographically strictly before `b`.
pub fn str_less(a: &str, b: &str) -> (r: bool)
    ensures
        r == str_lt(a@, b@),
{
    let an = a.unicode_len();
    let bn = b.unicode_len();
    let mut i: usize = 0;
    proof {
        assert(a@.skip(0) =~= a@);
        assert(b@.skip(0) =~= b@);
    }
    while i < an && i < bn
        invariant
            i <= an == a@.len(),
            i <= bn == b@.len(),
            str_lt(a@, b@) == str_lt(a@.skip(i as int), b@.skip(i as int)),
        decreases an - i,
    {
        let ca = a.get_char(i);
        let cb = b.get_char(i);
        if ca != cb {
            proof {
                assert(a@.skip(i as int)[0] == ca && b@.skip(i as int)[0] == cb);
            }
            return (ca as u32) < (cb as u32);
        }
        proof {
            assert(a@.skip(i as int).drop_first() =~= a@.skip(i + 1));
            assert(b@.skip(i as int).drop_first() =~= b@.skip(i + 1));
        }
        i = i + 1;
    }
    proof {
        assert(a@.skip(i as int).len() == an - i && b@.skip(i as int).len() == bn - i);
    }
    an < bn
}

/// Sort key of a week or target row: the serial, then the id as a
/// tie-breaker, so that rows with equal serials still order deterministically.
#[derive(Clone, Copy)]
pub struct SerialKey {
    pub serial: i64,
    pub id: u64,
}

/// Strict lexicographic order on keys.
pub open spec fn key_lt(a: SerialKey, b: SerialKey) -> bool {
    a.serial < b.serial || (a.serial == b.serial && a.id < b.id)
}

/// Keys in strictly ascending order.
pub open spec fn keys_sorted(s: Seq<SerialKey>) -> bool {
    forall|i: int, j: int|
        #![trigger s[i], s[j]]
        0 <= i < j < s.len() ==> key_lt(s[i], s[j])
}

/// Pairwise distinct ids.
pub open spec fn keys_distinct(s: Seq<SerialKey>) -> bool {
    forall|i: int, j: int|
        #![trigger s[i], s[j]]
        0 <= i < j < s.len() ==> s[i].id != s[j].id
}

/// Sort keys into strictly ascending order. The result holds exactly the
/// given keys; ids must be pairwise distinct, which makes the order strict
/// and the result unique.
pub fn sort_keys(v: &Vec<SerialKey>) -> (r: Vec<SerialKey>)
    requires
        keys_distinct(v@),
    ensures
        r@.to_multiset() == v@.to_multiset(),
        r@.len() == v@.len(),
        keys_sorted(r@),
        keys_distinct(r@),
        forall|x: SerialKey| r@.contains(x) <==> v@.contains(x),
{
    broadcast use vstd::seq_lib::group_to_multiset_ensures;

    let mut rem: Vec<SerialKey> = Vec::new();
    let mut c: usize = 0;
    while c < v.len()
        invariant
            c <= v@.len(),
            rem@ =~= v@.take(c as int),
        decreases v@.len() - c,
    {
        rem.push(v[c]);
        c = c + 1;
    }
    proof {
        assert(rem@ =~= v@);
    }
    let mut out: Vec<SerialKey> = Vec::new();
    while rem.len() > 0
        invariant
            out@.to_multiset().add(rem@.to_multiset()) =~= v@.to_multiset(),
            out@.len() + rem@.len() == v@.len(),
            keys_sorted(out@),
            keys_distinct(out@),
            keys_distinct(rem@),
            forall|i: int, j: int|
                #![trigger out@[i], rem@[j]]
                0 <= i < out@.len() && 0 <= j < rem@.len() ==> key_lt(out@[i], rem@[j]) && out@[i].id
                    != rem@[j].id,
        decreases rem@.len(),
    {
        let mut m: usize = 0;
        let mut j: usize = 1;
        while j < rem.len()
            invariant
                m < j <= rem@.len(),
                rem@.len() > 0,
                keys_distinct(rem@),
                forall|k: int|
                    0 <= k < j && k != m ==> key_lt(rem@[m as int], #[trigger] rem@[k]),
            decreases rem@.len() - j,
        {
            if rem[j].serial < rem[m].serial || (rem[j].serial == rem[m].serial && rem[j].id
                < rem[m].id) {
                m = j;
            }
            j = j + 1;
        }
        let ghost old_rem = rem@;
        let ghost old_out = out@;
        let x = rem.remove(m);
        out.push(x);
        proof {
            broadcast use vstd::seq_lib::group_to_multiset_ensures;

            assert(out@.to_multiset() =~= old_out.to_multiset().insert(x));
            assert(rem@.to_multiset() =~= old_rem.to_multiset().remove(x));
            assert(old_rem.to_multiset().count(x) > 0);
            assert(out@.to_multiset().add(rem@.to_multiset()) =~= old_out.to_multiset().add(
                old_rem.to_multiset(),
            ));
        }
    }
    proof {
        broadcast use vstd::seq_lib::group_to_multiset_ensures;

        assert(rem@.to_multiset() =~= Multiset::<SerialKey>::empty());
        assert(out@.to_multiset().add(Multiset::<SerialKey>::empty()) =~= out@.to_multiset());
        assert forall|x: SerialKey| out@.contains(x) <==> v@.contains(x) by {
            assert(out@.contains(x) <==> out@.to_multiset().count(x) > 0);
            assert(v@.contains(x) <==> v@.to_multiset().count(x) > 0);
        }
    }
    out
}

} // verus!
