//! Range bounds on keys. The four optional bounds of a query are brought to
//! one form: an inclusive lower key and an optional exclusive upper key.

use crate::bytes::{
    bytes_lt, lemma_before_successor, lemma_empty_first, lemma_lex_le_transitive, lemma_lex_lt_le,
    lemma_lex_transitive, lemma_lex_trichotomy, lemma_successor, lex_le, lex_lt, successor_of,
    to_vec,
};
use crate::entries::in_range;
use vstd::prelude::*;

verus! {

/// The bytes of an optional byte slice.
pub open spec fn opt_bytes(o: Option<&[u8]>) -> Option<Seq<u8>> {
    match o {
        Some(b) => Some(b@),
        None => None,
    }
}

/// The bytes of an optional byte vector.
pub open spec fn opt_vec(o: Option<Vec<u8>>) -> Option<Seq<u8>> {
    match o {
        Some(b) => Some(b@),
        None => None,
    }
}

/// `k` meets each bound that is given: at or after `ge`, after `gt`, at or
/// before `le`, before `lt`.
pub open spec fn bounded(
    k: Seq<u8>,
    ge: Option<Seq<u8>>,
    gt: Option<Seq<u8>>,
    le: Option<Seq<u8>>,
    lt: Option<Seq<u8>>,
) -> bool {
    &&& ge matches Some(x) ==> lex_le(x, k)
    &&& gt matches Some(x) ==> lex_lt(x, k)
    &&& le matches Some(x) ==> lex_le(k, x)
    &&& lt matches Some(x) ==> lex_lt(k, x)
}

/// The keys that meet each bound that is given.
pub open spec fn bounds(
    ge: Option<Seq<u8>>,
    gt: Option<Seq<u8>>,
    le: Option<Seq<u8>>,
    lt: Option<Seq<u8>>,
) -> spec_fn(Seq<u8>) -> bool {
    |k: Seq<u8>| bounded(k, ge, gt, le, lt)
}

/// The test of a query: the keys that `accept` admits and that meet each
/// bound that is given.
pub open spec fn query_test(
    accept: spec_fn(Seq<u8>) -> bool,
    ge: Option<Seq<u8>>,
    gt: Option<Seq<u8>>,
    le: Option<Seq<u8>>,
    lt: Option<Seq<u8>>,
) -> spec_fn(Seq<u8>) -> bool {
    |k: Seq<u8>| accept(k) && bounded(k, ge, gt, le, lt)
}

/// The test that admits the keys that begin with `p`.
pub open spec fn has_prefix(p: Seq<u8>) -> spec_fn(Seq<u8>) -> bool {
    |k: Seq<u8>| crate::bytes::is_prefix(p, k)
}

/// The test that admits the keys in which the bytes of `p` occur in order.
pub open spec fn has_subsequence(p: Seq<u8>) -> spec_fn(Seq<u8>) -> bool {
    |k: Seq<u8>| crate::bytes::is_subsequence(p, k)
}

/// A range of keys: from `from` on, and up to but without `until`.
pub struct KeyRange {
    pub from: Vec<u8>,
    pub until: Option<Vec<u8>>,
}

impl KeyRange {
    /// `k` lies in the range.
    pub open spec fn contains(self, k: Seq<u8>) -> bool {
        in_range(k, self.from@, opt_vec(self.until))
    }
}

/// The range of the keys that meet every given bound. Where two bounds are
/// given on one side, the tighter one holds.
pub fn add_range(
    ge: Option<&[u8]>,
    gt: Option<&[u8]>,
    le: Option<&[u8]>,
    lt: Option<&[u8]>,
) -> (r: KeyRange)
    ensures
        forall|k: Seq<u8>|
            #[trigger] r.contains(k) <==> bounded(
                k,
                opt_bytes(ge),
                opt_bytes(gt),
                opt_bytes(le),
                opt_bytes(lt),
            ),
{
    let mut from: Vec<u8> = Vec::new();
    if let Some(ge) = ge {
        from = to_vec(ge);
    }
    proof {
        assert forall|k: Seq<u8>| #[trigger]
            lex_le(from@, k) <==> (opt_bytes(ge) matches Some(x) ==> lex_le(x, k)) by {
            lemma_empty_first(k);
        }
    }
    let ghost lower = from@;
    if let Some(gt) = gt {
        let after = successor_of(gt);
        if bytes_lt(from.as_slice(), after.as_slice()) {
            from = after;
        }
        proof {
            assert forall|k: Seq<u8>| #[trigger]
                lex_le(from@, k) <==> lex_le(lower, k) && lex_lt(gt@, k) by {
                lemma_successor(gt@, k);
                lemma_lex_trichotomy(lower, after@);
                if lex_le(from@, k) {
                    if lex_lt(lower, after@) {
                        lemma_lex_lt_le(lower, after@, k);
                    } else {
                        lemma_lex_le_transitive(after@, lower, k);
                    }
                }
            }
        }
    }
    let mut until: Option<Vec<u8>> = None;
    if let Some(lt) = lt {
        until = Some(to_vec(lt));
    }
    let ghost upper = opt_vec(until);
    if let Some(le) = le {
        let after = successor_of(le);
        let tighter = match &until {
            Some(u) => bytes_lt(after.as_slice(), u.as_slice()),
            None => true,
        };
        if tighter {
            until = Some(after);
        }
        proof {
            assert forall|k: Seq<u8>| #[trigger]
                lex_lt(k, opt_vec(until).unwrap()) <==> (upper matches Some(u) ==> lex_lt(k, u))
                    && lex_le(k, le@) by {
                lemma_before_successor(k, le@);
                if let Some(u) = upper {
                    lemma_lex_trichotomy(after@, u);
                    if lex_lt(after@, u) {
                        if lex_lt(k, after@) {
                            lemma_lex_transitive(k, after@, u);
                        }
                    } else if lex_lt(k, u) {
                        lemma_lex_lt_le(k, u, after@);
                    }
                }
            }
        }
    }
    let r = KeyRange { from, until };
    proof {
        assert forall|k: Seq<u8>| #[trigger]
            r.contains(k) <==> bounded(
                k,
                opt_bytes(ge),
                opt_bytes(gt),
                opt_bytes(le),
                opt_bytes(lt),
            ) by {
            assert(lex_le(lower, k) <==> (opt_bytes(ge) matches Some(x) ==> lex_le(x, k)));
            if gt is Some {
                assert(lex_le(r.from@, k) <==> lex_le(lower, k) && lex_lt(gt.unwrap()@, k));
            }
            if le is Some {
                assert(lex_lt(k, opt_vec(r.until).unwrap()) <==> (upper matches Some(u) ==> lex_lt(
                    k,
                    u,
                )) && lex_le(k, le.unwrap()@));
            }
        }
    }
    r
}

} // verus!
