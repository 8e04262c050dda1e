//! The enumerated specifier: a closed set of named tags encoded into the
//! minimum number of bits.
//!
//! Each tag carries a discriminant, either declared explicitly or implied as
//! one more than its predecessor's (the first implicit discriminant is 0).
//! When every discriminant is explicit the width is the bit length of the
//! largest one; otherwise it is `ceil(log2(count))`.  Every discriminant
//! must fit the derived width and no two tags may share one; both are
//! checked when the specifier is built, before any buffer exists.

use vstd::prelude::*;

verus! {

use crate::bits::{bit_len, bit_length, lemma_bit_len_le_iff};
use crate::error::{DecodeError, LayoutError};
use vstd::arithmetic::power2::{lemma2_to64, lemma_pow2_strictly_increases, pow2};

/// One declared tag: a name and an optional explicit discriminant.
#[derive(Debug)]
pub struct TagDecl {
    pub name: String,
    pub discriminant: Option<u128>,
}

/// The declared discriminants, in declaration order.
pub open spec fn decl_discs(decls: Seq<TagDecl>) -> Seq<Option<u128>> {
    decls.map_values(|t: TagDecl| t.discriminant)
}

/// The discriminant of each tag once implicit ones are resolved: an explicit
/// declaration stands as written, an implicit one is its predecessor's
/// discriminant plus one (0 for the first tag).
pub open spec fn resolve_discs(ds: Seq<Option<u128>>) -> Seq<nat>
    decreases ds.len(),
{
    if ds.len() == 0 {
        Seq::empty()
    } else {
        let prefix = resolve_discs(ds.drop_last());
        let d: nat = match ds.last() {
            Some(x) => x as nat,
            None => if prefix.len() == 0 {
                0
            } else {
                prefix.last() + 1
            },
        };
        prefix.push(d)
    }
}

/// The resolved discriminants of a declaration list.
pub open spec fn resolved_of(decls: Seq<TagDecl>) -> Seq<nat> {
    resolve_discs(decl_discs(decls))
}

/// True when every tag declares its discriminant explicitly.
pub open spec fn all_explicit(ds: Seq<Option<u128>>) -> bool {
    forall|i: int| 0 <= i < ds.len() ==> (#[trigger] ds[i]) is Some
}

/// The largest element of a sequence of naturals (0 when empty).
pub open spec fn max_val(s: Seq<nat>) -> nat
    decreases s.len(),
{
    if s.len() == 0 {
        0
    } else {
        let m = max_val(s.drop_last());
        if s.last() > m {
            s.last()
        } else {
            m
        }
    }
}

/// The bit width derived for a declaration list: the bit length of the
/// largest discriminant when all are explicit, else `ceil(log2(count))`.
pub open spec fn derived_width(ds: Seq<Option<u128>>) -> nat {
    if ds.len() == 0 {
        0
    } else if all_explicit(ds) {
        bit_len(max_val(resolve_discs(ds)))
    } else {
        bit_len((ds.len() - 1) as nat)
    }
}

/// Resolution yields one discriminant per declared tag.
pub proof fn lemma_resolve_len(ds: Seq<Option<u128>>)
    ensures
        resolve_discs(ds).len() == ds.len(),
    decreases ds.len(),
{
    if ds.len() > 0 {
        lemma_resolve_len(ds.drop_last());
    }
}

/// Each resolved discriminant is the explicit one, or the previous resolved
/// discriminant plus one (0 for the first tag).
pub proof fn lemma_resolve_index(ds: Seq<Option<u128>>, k: int)
    requires
        0 <= k < ds.len(),
    ensures
        resolve_discs(ds).len() == ds.len(),
        resolve_discs(ds)[k] == match ds[k] {
            Some(x) => x as nat,
            None => if k == 0 {
                0
            } else {
                resolve_discs(ds)[k - 1] + 1
            },
        },
    decreases ds.len(),
{
    lemma_resolve_len(ds);
    lemma_resolve_len(ds.drop_last());
    if k == ds.len() - 1 {
        if k > 0 {
            assert(resolve_discs(ds)[k - 1] == resolve_discs(ds.drop_last()).last());
        }
    } else {
        lemma_resolve_index(ds.drop_last(), k);
        assert(ds.drop_last()[k] == ds[k]);
        if k > 0 {
            assert(resolve_discs(ds)[k - 1] == resolve_discs(ds.drop_last())[k - 1]);
        }
    }
}

/// `max_val` is an upper bound, and is attained in a non-empty sequence.
pub proof fn lemma_max_val_props(s: Seq<nat>)
    ensures
        forall|i: int| 0 <= i < s.len() ==> #[trigger] s[i] <= max_val(s),
        s.len() > 0 ==> exists|i: int| 0 <= i < s.len() && #[trigger] s[i] == max_val(s),
    decreases s.len(),
{
    if s.len() > 0 {
        lemma_max_val_props(s.drop_last());
        assert(forall|i: int| 0 <= i < s.len() - 1 ==> s.drop_last()[i] == #[trigger] s[i]);
        if s.last() > max_val(s.drop_last()) {
            assert(s[s.len() - 1] == max_val(s));
        } else if s.len() == 1 {
            assert(s[0] == max_val(s));
        } else {
            let i = choose|i: int|
                0 <= i < s.drop_last().len() && #[trigger] s.drop_last()[i] == max_val(
                    s.drop_last(),
                );
            assert(s[i] == max_val(s));
        }
    }
}

/// An enumerated specifier that passed definition-time validation: its tag
/// names, their resolved discriminants, and the derived bit width.
#[derive(Debug)]
pub struct EnumSpec {
    names: Vec<String>,
    discs: Vec<u128>,
    width: usize,
}

impl EnumSpec {
    /// Validity of a built specifier: at least one tag, one discriminant per
    /// tag, every discriminant inside `[0, 2^width)`, no two tags sharing a
    /// discriminant, and a width a 128-bit buffer span can hold.
    #[verifier::type_invariant]
    pub closed spec fn valid(self) -> bool {
        &&& self.names@.len() == self.discs@.len()
        &&& self.names@.len() >= 1
        &&& self.width <= 128
        &&& forall|k: int|
            0 <= k < self.discs@.len() ==> (#[trigger] self.discs@[k] as nat) < pow2(
                self.width as nat,
            )
        &&& forall|i: int, j: int|
            0 <= i < j < self.discs@.len() ==> self.discs@[i] != self.discs@[j]
    }

    /// The number of declared tags.
    pub closed spec fn spec_count(self) -> nat {
        self.names@.len()
    }

    /// The derived bit width.
    pub closed spec fn spec_width(self) -> nat {
        self.width as nat
    }

    /// The resolved discriminant of tag `t`.
    pub closed spec fn spec_discriminant(self, t: int) -> nat {
        self.discs@[t] as nat
    }

    /// The name of tag `t`.
    pub closed spec fn spec_name(self, t: int) -> Seq<char> {
        self.names@[t]@
    }

    /// Consequences of validity, stated over the public views.
    pub proof fn lemma_valid_facts(self)
        requires
            self.valid(),
        ensures
            self.spec_count() >= 1,
            self.spec_width() <= 128,
            forall|t: int|
                0 <= t < self.spec_count() ==> #[trigger] self.spec_discriminant(t) < pow2(
                    self.spec_width(),
                ),
            forall|i: int, j: int|
                0 <= i < self.spec_count() && 0 <= j < self.spec_count() && i != j
                    ==> self.spec_discriminant(i) != self.spec_discriminant(j),
    {
    }

    /// The number of declared tags.
    pub fn count(&self) -> (r: usize)
        ensures
            r as nat == self.spec_count(),
            r >= 1,
    {
        proof {
            use_type_invariant(self);
        }
        self.names.len()
    }

    /// The derived bit width of the encoded field.
    pub fn width(&self) -> (r: usize)
        ensures
            r as nat == self.spec_width(),
            r <= 128,
    {
        proof {
            use_type_invariant(self);
        }
        self.width
    }

    /// The discriminant written to the buffer for tag `t`: a total mapping
    /// on the closed set of tags.
    pub fn discriminant(&self, t: usize) -> (r: u128)
        requires
            t < self.spec_count(),
        ensures
            r as nat == self.spec_discriminant(t as int),
            (r as nat) < pow2(self.spec_width()),
    {
        proof {
            use_type_invariant(self);
        }
        self.discs[t]
    }

    /// The name of tag `t`.
    pub fn tag_name(&self, t: usize) -> (r: &String)
        requires
            t < self.spec_count(),
        ensures
            r@ == self.spec_name(t as int),
    {
        proof {
            use_type_invariant(self);
        }
        &self.names[t]
    }

    /// Find the tag whose discriminant equals `raw`; fails exactly when no
    /// tag has that discriminant.
    pub fn decode(&self, raw: u128) -> (r: Result<usize, DecodeError>)
        ensures
            forall|t: int|
                0 <= t < self.spec_count() ==> ((r == Ok::<usize, DecodeError>(t as usize)) <==> (
                #[trigger] self.spec_discriminant(t) == raw as nat)),
            r is Err <==> (forall|t: int|
                0 <= t < self.spec_count() ==> #[trigger] self.spec_discriminant(t)
                    != raw as nat),
            r is Err ==> r == Err::<usize, DecodeError>(
                DecodeError::UnknownDiscriminant { raw },
            ),
    {
        proof {
            use_type_invariant(self);
        }
        let n = self.discs.len();
        let mut t: usize = 0;
        while t < n
            invariant
                self.valid(),
                t <= n,
                n == self.spec_count(),
                forall|m: int| 0 <= m < t ==> #[trigger] self.spec_discriminant(m) != raw as nat,
            decreases n - t,
        {
            if self.discs[t] == raw {
                proof {
                    assert(self.spec_discriminant(t as int) == raw as nat);
                }
                return Ok(t);
            }
            t = t + 1;
        }
        Err(DecodeError::UnknownDiscriminant { raw })
    }

    /// Tag round-trip law: within one codec each discriminant names one
    /// tag, so a written tag's discriminant decodes to that tag alone.
    pub proof fn lemma_tag_round_trip(self, t: int)
        requires
            self.valid(),
            0 <= t < self.spec_count(),
        ensures
            forall|u: int|
                0 <= u < self.spec_count() ==> ((self.spec_discriminant(u)
                    == self.spec_discriminant(t)) <==> u == t),
    {
        assert forall|u: int|
            0 <= u < self.spec_count() && u != t implies self.spec_discriminant(u)
            != self.spec_discriminant(t) by {
            if u < t {
                assert(self.discs@[u] != self.discs@[t]);
            } else {
                assert(self.discs@[t] != self.discs@[u]);
            }
        }
    }

    /// Build an enumerated specifier from a declaration list, resolving
    /// implicit discriminants, deriving the width, and validating every
    /// discriminant against it.
    pub fn new(decls: Vec<TagDecl>) -> (r: Result<EnumSpec, LayoutError>)
        ensures
            r is Ok <==> (decls@.len() >= 1 && (forall|k: int|
                0 <= k < decls@.len() ==> #[trigger] resolved_of(decls@)[k] < pow2(
                    derived_width(decl_discs(decls@)),
                )) && (forall|i: int, j: int|
                0 <= i < j < decls@.len() ==> resolved_of(decls@)[i] != resolved_of(decls@)[j])),
            r matches Ok(e) ==> {
                &&& e.spec_count() == decls@.len()
                &&& e.spec_width() == derived_width(decl_discs(decls@))
                &&& forall|k: int|
                    0 <= k < decls@.len() ==> #[trigger] e.spec_discriminant(k) == resolved_of(
                        decls@,
                    )[k]
                &&& forall|k: int|
                    0 <= k < decls@.len() ==> #[trigger] e.spec_name(k) == decls@[k].name@
            },
            r == Err::<EnumSpec, LayoutError>(LayoutError::EmptyEnum) <==> decls@.len() == 0,
            r is Err ==> (r == Err::<EnumSpec, LayoutError>(LayoutError::EmptyEnum) || r matches
                Err(LayoutError::DiscriminantOutOfRange { .. }) || r matches Err(
                LayoutError::DuplicateDiscriminant { .. },
            )),
            r matches Err(LayoutError::DiscriminantOutOfRange { tag, discriminant, width })
                ==> width as nat == derived_width(decl_discs(decls@)) && exists|k: int|
                0 <= k < decls@.len() && #[trigger] resolved_of(decls@)[k] == discriminant as nat
                    && resolved_of(decls@)[k] >= pow2(derived_width(decl_discs(decls@))) && tag@
                    == decls@[k].name@,
            r matches Err(LayoutError::DuplicateDiscriminant { tag, discriminant })
                ==> exists|k: int|
                0 <= k < decls@.len() && #[trigger] resolved_of(decls@)[k] == discriminant as nat
                    && tag@ == decls@[k].name@ && exists|i: int|
                    0 <= i < k && resolved_of(decls@)[i] == resolved_of(decls@)[k],
    {
        let ghost ds = decl_discs(decls@);
        let ghost rs = resolve_discs(ds);
        proof {
            lemma_resolve_len(ds);
        }
        let n = decls.len();
        if n == 0 {
            return Err(LayoutError::EmptyEnum);
        }
        // First pass: is every discriminant explicit, and what is the
        // largest one?
        let mut allx = true;
        let mut maxd: u128 = 0;
        let mut k: usize = 0;
        while k < n
            invariant
                n == decls@.len(),
                ds == decl_discs(decls@),
                rs == resolve_discs(ds),
                rs.len() == n,
                k <= n,
                allx == (forall|m: int| 0 <= m < k ==> (#[trigger] ds[m]) is Some),
                allx ==> (forall|m: int| 0 <= m < k ==> #[trigger] rs[m] <= maxd as nat),
                allx && k > 0 ==> exists|m: int| 0 <= m < k && #[trigger] rs[m] == maxd as nat,
                allx && k == 0 ==> maxd == 0,
            decreases n - k,
        {
            proof {
                lemma_resolve_index(ds, k as int);
                assert(ds[k as int] == decls@[k as int].discriminant);
            }
            match decls[k].discriminant {
                Some(x) => {
                    if allx && x > maxd {
                        maxd = x;
                        proof {
                            assert(rs[k as int] == x as nat);
                        }
                    }
                },
                None => {
                    allx = false;
                },
            }
            k = k + 1;
        }
        let width = if allx {
            bit_length(maxd)
        } else {
            bit_length((n - 1) as u128)
        };
        proof {
            if allx {
                lemma_max_val_props(rs);
                let i = choose|i: int| 0 <= i < rs.len() && #[trigger] rs[i] == max_val(rs);
                assert(rs[i] <= maxd as nat);
                assert(exists|m: int| 0 <= m < n && #[trigger] rs[m] == maxd as nat);
                let m = choose|m: int| 0 <= m < n && #[trigger] rs[m] == maxd as nat;
                assert(rs[m] <= max_val(rs));
                assert(maxd as nat == max_val(rs));
            }
            assert(width as nat == derived_width(ds));
        }
        // Second pass: resolve each discriminant, check it against the
        // width, and reject duplicates.
        let mut names: Vec<String> = Vec::new();
        let mut discs: Vec<u128> = Vec::new();
        let mut k: usize = 0;
        while k < n
            invariant
                n == decls@.len(),
                n >= 1,
                ds == decl_discs(decls@),
                rs == resolve_discs(ds),
                rs.len() == n,
                k <= n,
                width as nat == derived_width(ds),
                width <= 128,
                names@.len() == k,
                discs@.len() == k,
                forall|m: int| 0 <= m < k ==> (#[trigger] discs@[m] as nat) == rs[m],
                forall|m: int| 0 <= m < k ==> #[trigger] rs[m] < pow2(width as nat),
                forall|i: int, j: int| 0 <= i < j < k ==> discs@[i] != discs@[j],
                forall|m: int| 0 <= m < k ==> #[trigger] names@[m] == decls@[m].name,
            decreases n - k,
        {
            proof {
                lemma_resolve_index(ds, k as int);
                assert(ds[k as int] == decls@[k as int].discriminant);
            }
            let d: u128 = match decls[k].discriminant {
                Some(x) => x,
                None => {
                    if k == 0 {
                        0
                    } else {
                        // An implicit discriminant cannot overflow: the
                        // presence of an implicit tag caps the width at 64
                        // bits, and the predecessor fits that width.
                        let prev = discs[k - 1];
                        proof {
                            assert(!all_explicit(ds)) by {
                                assert(ds[k as int] is None);
                            }
                            lemma2_to64();
                            lemma_bit_len_le_iff((n - 1) as nat, 64);
                            if (width as nat) < 64 {
                                lemma_pow2_strictly_increases(width as nat, 64);
                            }
                            assert(prev as nat == rs[k - 1]);
                            assert((prev as nat) < pow2(64));
                        }
                        prev + 1
                    }
                },
            };
            proof {
                assert(d as nat == rs[k as int]);
                lemma_bit_len_le_iff(d as nat, width as nat);
            }
            let dlen = bit_length(d);
            if dlen > width {
                proof {
                    assert(resolved_of(decls@)[k as int] >= pow2(
                        derived_width(decl_discs(decls@)),
                    ));
                }
                return Err(
                    LayoutError::DiscriminantOutOfRange {
                        tag: decls[k].name.clone(),
                        discriminant: d,
                        width,
                    },
                );
            }
            let mut m: usize = 0;
            while m < k
                invariant
                    k < n,
                    n == decls@.len(),
                    ds == decl_discs(decls@),
                    rs == resolve_discs(ds),
                    rs.len() == n,
                    m <= k,
                    discs@.len() == k,
                    d as nat == rs[k as int],
                    forall|i: int| 0 <= i < k ==> (#[trigger] discs@[i] as nat) == rs[i],
                    forall|i: int| 0 <= i < m ==> #[trigger] discs@[i] != d,
                decreases k - m,
            {
                if discs[m] == d {
                    proof {
                        assert(rs[m as int] == rs[k as int]);
                        assert(resolved_of(decls@)[m as int] == resolved_of(decls@)[k as int]);
                        assert(resolved_of(decls@)[k as int] == d as nat);
                    }
                    return Err(
                        LayoutError::DuplicateDiscriminant {
                            tag: decls[k].name.clone(),
                            discriminant: d,
                        },
                    );
                }
                m = m + 1;
            }
            names.push(decls[k].name.clone());
            discs.push(d);
            k = k + 1;
        }
        proof {
            assert forall|j: int| 0 <= j < decls@.len() implies #[trigger] resolved_of(decls@)[j]
                < pow2(derived_width(decl_discs(decls@))) by {
                assert(resolved_of(decls@)[j] == rs[j]);
            }
            assert forall|i: int, j: int| 0 <= i < j < decls@.len() implies resolved_of(decls@)[i]
                != resolved_of(decls@)[j] by {
                assert(discs@[i] != discs@[j]);
                assert((discs@[i] as nat) == rs[i] && (discs@[j] as nat) == rs[j]);
            }
        }
        let e = EnumSpec { names, discs, width };
        proof {
            assert forall|j: int| 0 <= j < decls@.len() implies #[trigger] e.spec_discriminant(j)
                == resolved_of(decls@)[j] by {
                assert((discs@[j] as nat) == rs[j]);
            }
            assert(forall|j: int|
                0 <= j < decls@.len() ==> #[trigger] e.spec_name(j) == decls@[j].name@);
        }
        Ok(e)
    }
}

} // verus!
