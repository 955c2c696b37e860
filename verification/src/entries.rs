//! The contents of a container as a mathematical sequence in key order, and
//! what a scan of it yields.

use crate::bytes::{
    lemma_lex_irreflexive, lemma_lex_le_lt, lemma_successor, lex_le, lex_lt, successor,
};
use vstd::prelude::*;

verus! {

/// What a container holds under a key: an entry of a map, or a key of a set.
pub trait Keyed: Sized {
    /// The key of this item.
    spec fn key(self) -> Seq<u8>;
}

impl Keyed for (Seq<u8>, u64) {
    open spec fn key(self) -> Seq<u8> {
        self.0
    }
}

impl Keyed for Seq<u8> {
    open spec fn key(self) -> Seq<u8> {
        self
    }
}

/// The keys of `s` ascend strictly in byte-lexicographic order. The
/// contents of every container do.
pub open spec fn ascending<T: Keyed>(s: Seq<T>) -> bool {
    forall|i: int, j: int|
        0 <= i < j < s.len() ==> lex_lt(#[trigger] s[i].key(), #[trigger] s[j].key())
}

/// `s` has an item under the key `k`.
pub open spec fn holds<T: Keyed>(s: Seq<T>, k: Seq<u8>) -> bool {
    exists|i: int| 0 <= i < s.len() && #[trigger] s[i].key() == k
}

/// The place of the key `k` in `s`, where `s` holds it.
pub open spec fn position<T: Keyed>(s: Seq<T>, k: Seq<u8>) -> int {
    choose|i: int| 0 <= i < s.len() && #[trigger] s[i].key() == k
}

/// The value that the entries hold for `k`, if any.
pub open spec fn lookup(e: Seq<(Seq<u8>, u64)>, k: Seq<u8>) -> Option<u64> {
    if holds(e, k) {
        Some(e[position(e, k)].1)
    } else {
        None
    }
}

/// `k` is at or after `from` and, where there is an `until`, before it.
pub open spec fn in_range(k: Seq<u8>, from: Seq<u8>, until: Option<Seq<u8>>) -> bool {
    lex_le(from, k) && (until matches Some(u) ==> lex_lt(k, u))
}

/// The items of `s` whose keys `keep` admits, in the order of `s`.
pub open spec fn select<T: Keyed>(s: Seq<T>, keep: spec_fn(Seq<u8>) -> bool) -> Seq<T>
    decreases s.len(),
{
    if s.len() == 0 {
        Seq::empty()
    } else if keep(s[0].key()) {
        seq![s[0]] + select(s.skip(1), keep)
    } else {
        select(s.skip(1), keep)
    }
}

/// The first item of `s`, if it has one.
pub open spec fn first<T>(s: Seq<T>) -> Option<T> {
    if s.len() == 0 {
        None
    } else {
        Some(s[0])
    }
}

/// What is left of `s` behind its first item.
pub open spec fn rest<T>(s: Seq<T>) -> Seq<T> {
    if s.len() == 0 {
        s
    } else {
        s.skip(1)
    }
}

/// The keys of the entries, in their order.
pub open spec fn keys_of(e: Seq<(Seq<u8>, u64)>) -> Seq<Seq<u8>> {
    e.map_values(|x: (Seq<u8>, u64)| x.0)
}

/// The values of the entries, in the order of their keys.
pub open spec fn entry_values(e: Seq<(Seq<u8>, u64)>) -> Seq<u64> {
    e.map_values(|x: (Seq<u8>, u64)| x.1)
}

/// The test that admits every key.
pub open spec fn any_key() -> spec_fn(Seq<u8>) -> bool {
    |k: Seq<u8>| true
}

/// The test of a scan: the keys in the range that `accept` admits.
pub open spec fn scan_test(
    accept: spec_fn(Seq<u8>) -> bool,
    from: Seq<u8>,
    until: Option<Seq<u8>>,
) -> spec_fn(Seq<u8>) -> bool {
    |k: Seq<u8>| in_range(k, from, until) && accept(k)
}

/// What a scan of `s` yields: the items whose keys lie in the range and
/// which `accept` admits, in key order.
pub open spec fn scan<T: Keyed>(
    s: Seq<T>,
    accept: spec_fn(Seq<u8>) -> bool,
    from: Seq<u8>,
    until: Option<Seq<u8>>,
) -> Seq<T> {
    select(s, scan_test(accept, from, until))
}

/// An entry as executable code holds it stands for the entry `x`.
pub open spec fn same_entry(r: Option<(Vec<u8>, u64)>, x: Option<(Seq<u8>, u64)>) -> bool {
    match (r, x) {
        (Some((k, v)), Some(e)) => k@ == e.0 && v == e.1,
        (None, None) => true,
        _ => false,
    }
}

/// A key as executable code holds it stands for the key `x`.
pub open spec fn same_key(r: Option<Vec<u8>>, x: Option<Seq<u8>>) -> bool {
    match (r, x) {
        (Some(k), Some(e)) => k@ == e,
        (None, None) => true,
        _ => false,
    }
}

/// A tail of an ascending sequence ascends.
pub proof fn lemma_ascending_skip<T: Keyed>(s: Seq<T>, n: int)
    requires
        ascending(s),
        0 <= n <= s.len(),
    ensures
        ascending(s.skip(n)),
{
    let t = s.skip(n);
    assert forall|i: int, j: int| 0 <= i < j < t.len() implies lex_lt(
        #[trigger] t[i].key(),
        #[trigger] t[j].key(),
    ) by {
        assert(t[i] == s[i + n] && t[j] == s[j + n]);
    }
}

/// An ascending sequence holds each key once.
pub proof fn lemma_ascending_distinct<T: Keyed>(s: Seq<T>, i: int, j: int)
    requires
        ascending(s),
        0 <= i < s.len(),
        0 <= j < s.len(),
        s[i].key() == s[j].key(),
    ensures
        i == j,
{
    lemma_lex_irreflexive(s[i].key());
}

/// What two tests admit alike, they select alike.
pub proof fn lemma_select_agree<T: Keyed>(
    s: Seq<T>,
    keep1: spec_fn(Seq<u8>) -> bool,
    keep2: spec_fn(Seq<u8>) -> bool,
)
    requires
        forall|i: int| 0 <= i < s.len() ==> keep1(#[trigger] s[i].key()) == keep2(s[i].key()),
    ensures
        select(s, keep1) == select(s, keep2),
    decreases s.len(),
{
    if s.len() > 0 {
        let t = s.skip(1);
        assert forall|i: int| 0 <= i < t.len() implies keep1(#[trigger] t[i].key()) == keep2(
            t[i].key(),
        ) by {
            assert(t[i] == s[i + 1]);
        }
        lemma_select_agree(t, keep1, keep2);
        assert(keep1(s[0].key()) == keep2(s[0].key()));
    }
}

/// A test that admits every key of `s` selects all of `s`.
pub proof fn lemma_select_all<T: Keyed>(s: Seq<T>, keep: spec_fn(Seq<u8>) -> bool)
    requires
        forall|i: int| 0 <= i < s.len() ==> keep(#[trigger] s[i].key()),
    ensures
        select(s, keep) == s,
    decreases s.len(),
{
    if s.len() > 0 {
        let t = s.skip(1);
        assert forall|i: int| 0 <= i < t.len() implies keep(#[trigger] t[i].key()) by {
            assert(t[i] == s[i + 1]);
        }
        lemma_select_all(t, keep);
        assert(keep(s[0].key()));
        assert(seq![s[0]] + t =~= s);
    } else {
        assert(select(s, keep) =~= s);
    }
}

/// What is selected comes from `s`, passes the test, and keeps its order:
/// each selected item stands in `s` at a place of its own, and the places
/// ascend.
pub proof fn lemma_select_members<T: Keyed>(s: Seq<T>, keep: spec_fn(Seq<u8>) -> bool)
    ensures
        forall|x: T| #[trigger] select(s, keep).contains(x) <==> s.contains(x) && keep(x.key()),
        ascending(s) ==> ascending(select(s, keep)),
        select(s, keep).len() <= s.len(),
    decreases s.len(),
{
    let r = select(s, keep);
    if s.len() == 0 {
        assert forall|x: T| #[trigger] r.contains(x) <==> s.contains(x) && keep(x.key()) by {}
    } else {
        let t = s.skip(1);
        let rt = select(t, keep);
        lemma_select_members(t, keep);
        assert forall|x: T| #[trigger] r.contains(x) <==> s.contains(x) && keep(x.key()) by {
            if r.contains(x) {
                let i = choose|i: int| 0 <= i < r.len() && r[i] == x;
                if keep(s[0].key()) {
                    if i == 0 {
                        assert(s[0] == x);
                    } else {
                        assert(rt[i - 1] == x);
                        assert(rt.contains(x));
                    }
                } else {
                    assert(rt.contains(x));
                }
                if t.contains(x) {
                    let j = choose|j: int| 0 <= j < t.len() && t[j] == x;
                    assert(s[j + 1] == x);
                }
            }
            if s.contains(x) && keep(x.key()) {
                let j = choose|j: int| 0 <= j < s.len() && s[j] == x;
                if j == 0 {
                    assert(r[0] == x);
                } else {
                    assert(t[j - 1] == x);
                    assert(t.contains(x));
                    assert(rt.contains(x));
                    let i = choose|i: int| 0 <= i < rt.len() && rt[i] == x;
                    if keep(s[0].key()) {
                        assert(r[i + 1] == x);
                    }
                }
            }
        }
        if ascending(s) {
            lemma_ascending_skip(s, 1);
            assert forall|i: int, j: int| 0 <= i < j < r.len() implies lex_lt(
                #[trigger] r[i].key(),
                #[trigger] r[j].key(),
            ) by {
                if keep(s[0].key()) {
                    if i == 0 {
                        assert(rt[j - 1] == r[j]);
                        assert(rt.contains(r[j]));
                        assert(t.contains(r[j]));
                        let m = choose|m: int| 0 <= m < t.len() && t[m] == r[j];
                        assert(s[m + 1] == r[j]);
                        assert(lex_lt(s[0].key(), s[m + 1].key()));
                    } else {
                        assert(rt[i - 1] == r[i] && rt[j - 1] == r[j]);
                    }
                }
            }
        }
    }
}

/// After the first selected item, a scan goes on behind its key: of an
/// ascending sequence, a test that admits what `keep` admits behind the key
/// of the first selected item selects the rest of the selection.
pub proof fn lemma_select_rest<T: Keyed>(
    s: Seq<T>,
    keep: spec_fn(Seq<u8>) -> bool,
    rest: spec_fn(Seq<u8>) -> bool,
)
    requires
        ascending(s),
        select(s, keep).len() > 0,
        forall|k: Seq<u8>| #[trigger] rest(k) == (keep(k) && lex_lt(select(s, keep)[0].key(), k)),
    ensures
        select(s, rest) == select(s, keep).skip(1),
    decreases s.len(),
{
    let head = select(s, keep)[0].key();
    let t = s.skip(1);
    lemma_ascending_skip(s, 1);
    if keep(s[0].key()) {
        assert(head == s[0].key());
        lemma_lex_irreflexive(head);
        assert(!rest(s[0].key()));
        assert forall|i: int| 0 <= i < t.len() implies rest(#[trigger] t[i].key()) == keep(
            t[i].key(),
        ) by {
            assert(t[i] == s[i + 1]);
            assert(lex_lt(s[0].key(), s[i + 1].key()));
        }
        lemma_select_agree(t, rest, keep);
        assert(select(s, keep).skip(1) =~= select(t, keep));
    } else {
        assert(!rest(s[0].key()));
        lemma_select_rest(t, keep, rest);
    }
}

/// A scan goes on behind what it found: from the successor of the key of
/// its first item it yields the rest.
pub proof fn lemma_scan_rest<T: Keyed>(
    s: Seq<T>,
    accept: spec_fn(Seq<u8>) -> bool,
    from: Seq<u8>,
    until: Option<Seq<u8>>,
)
    requires
        ascending(s),
        scan(s, accept, from, until).len() > 0,
    ensures
        scan(s, accept, successor(scan(s, accept, from, until)[0].key()), until) == scan(
            s,
            accept,
            from,
            until,
        ).skip(1),
{
    let keep = scan_test(accept, from, until);
    let found = select(s, keep);
    let head = found[0].key();
    let rest = scan_test(accept, successor(head), until);
    lemma_select_members(s, keep);
    assert(found.contains(found[0]));
    assert(keep(head));
    assert forall|k: Seq<u8>| #[trigger] rest(k) == (keep(k) && lex_lt(head, k)) by {
        lemma_successor(head, k);
        if lex_lt(head, k) {
            lemma_lex_le_lt(from, head, k);
        }
    }
    lemma_select_rest(s, keep, rest);
}

/// A scan from the empty key without an upper bound and with no test yields
/// everything.
pub proof fn lemma_scan_everything<T: Keyed>(s: Seq<T>)
    ensures
        scan(s, any_key(), Seq::<u8>::empty(), None) == s,
{
    let keep = scan_test(any_key(), Seq::<u8>::empty(), None);
    assert forall|i: int| 0 <= i < s.len() implies keep(#[trigger] s[i].key()) by {
        crate::bytes::lemma_empty_first(s[i].key());
    }
    lemma_select_all(s, keep);
}

} // verus!
