//! An interrupt-style delivery-mode tag set.
//!
//! Eight tags whose first discriminant is declared as 1, the rest following
//! implicitly as 2 through 8.  Eight tags derive a width of 3 bits, and 8
//! lies outside `[0, 2^3)`, so building the enumerated codec for this set
//! fails at definition time — no buffer holding such a field can exist.

use vstd::prelude::*;

verus! {

use crate::bits::{bit_len, lemma_bit_len_le_iff};
use crate::enumspec::{
    all_explicit, decl_discs, derived_width, lemma_resolve_index, resolved_of, EnumSpec, TagDecl,
};
use crate::error::LayoutError;
use vstd::arithmetic::power2::{lemma2_to64, pow2};

/// The delivery mode of a message, one tag per mode.
#[derive(Debug, Clone, Copy, PartialEq, Eq, Structural)]
pub enum DeliveryMode {
    Fixed,
    Lowest,
    SMI,
    RemoteRead,
    NMI,
    Init,
    Startup,
    External,
}

impl DeliveryMode {
    /// The discriminant of each mode: `Fixed` is declared as 1 and the
    /// rest follow implicitly.
    pub open spec fn spec_discriminant(self) -> nat {
        match self {
            DeliveryMode::Fixed => 1,
            DeliveryMode::Lowest => 2,
            DeliveryMode::SMI => 3,
            DeliveryMode::RemoteRead => 4,
            DeliveryMode::NMI => 5,
            DeliveryMode::Init => 6,
            DeliveryMode::Startup => 7,
            DeliveryMode::External => 8,
        }
    }

    /// The discriminant of this mode.
    pub fn discriminant(self) -> (r: u128)
        ensures
            r as nat == self.spec_discriminant(),
    {
        match self {
            DeliveryMode::Fixed => 1,
            DeliveryMode::Lowest => 2,
            DeliveryMode::SMI => 3,
            DeliveryMode::RemoteRead => 4,
            DeliveryMode::NMI => 5,
            DeliveryMode::Init => 6,
            DeliveryMode::Startup => 7,
            DeliveryMode::External => 8,
        }
    }

    /// The tag declarations of this mode set, in order: `Fixed` explicit
    /// as 1, the other seven implicit.
    pub fn tag_decls() -> (r: Vec<TagDecl>)
        ensures
            r@.len() == 8,
            r@[0].discriminant == Some(1u128),
            forall|k: int| 1 <= k < 8 ==> (#[trigger] r@[k].discriminant) is None,
            r@[0].name@ == "Fixed"@,
            r@[1].name@ == "Lowest"@,
            r@[2].name@ == "SMI"@,
            r@[3].name@ == "RemoteRead"@,
            r@[4].name@ == "NMI"@,
            r@[5].name@ == "Init"@,
            r@[6].name@ == "Startup"@,
            r@[7].name@ == "External"@,
    {
        let mut decls: Vec<TagDecl> = Vec::new();
        decls.push(TagDecl { name: "Fixed".to_owned(), discriminant: Some(1) });
        decls.push(TagDecl { name: "Lowest".to_owned(), discriminant: None });
        decls.push(TagDecl { name: "SMI".to_owned(), discriminant: None });
        decls.push(TagDecl { name: "RemoteRead".to_owned(), discriminant: None });
        decls.push(TagDecl { name: "NMI".to_owned(), discriminant: None });
        decls.push(TagDecl { name: "Init".to_owned(), discriminant: None });
        decls.push(TagDecl { name: "Startup".to_owned(), discriminant: None });
        decls.push(TagDecl { name: "External".to_owned(), discriminant: None });
        decls
    }

    /// Building the codec for this mode set fails: eight tags derive a
    /// 3-bit width, and the last implicit discriminant, 8 — `External`'s —
    /// lies outside `[0, 2^3)`.
    pub fn enum_spec() -> (r: Result<EnumSpec, LayoutError>)
        ensures
            r matches Err(LayoutError::DiscriminantOutOfRange { tag, discriminant, width }) && tag@
                == "External"@ && discriminant == 8 && width == 3,
    {
        let decls = Self::tag_decls();
        let ghost ds = decl_discs(decls@);
        proof {
            assert(ds.len() == 8);
            lemma_resolve_index(ds, 0);
            assert(resolved_of(decls@)[0] == 1);
            lemma_resolve_index(ds, 1);
            assert(resolved_of(decls@)[1] == 2);
            lemma_resolve_index(ds, 2);
            assert(resolved_of(decls@)[2] == 3);
            lemma_resolve_index(ds, 3);
            assert(resolved_of(decls@)[3] == 4);
            lemma_resolve_index(ds, 4);
            assert(resolved_of(decls@)[4] == 5);
            lemma_resolve_index(ds, 5);
            assert(resolved_of(decls@)[5] == 6);
            lemma_resolve_index(ds, 6);
            assert(resolved_of(decls@)[6] == 7);
            lemma_resolve_index(ds, 7);
            assert(resolved_of(decls@)[7] == 8);
            assert(forall|m: int| 0 <= m < 8 ==> #[trigger] resolved_of(decls@)[m] == m + 1);
            assert(!all_explicit(ds)) by {
                assert(ds[1] is None);
            }
            assert(derived_width(ds) == bit_len(7));
            lemma2_to64();
            lemma_bit_len_le_iff(7, 3);
            lemma_bit_len_le_iff(7, 2);
            assert(bit_len(7) == 3);
            assert(pow2(derived_width(ds)) == 8);
            assert(resolved_of(decls@)[7] >= pow2(derived_width(decl_discs(decls@))));
        }
        let r = EnumSpec::new(decls);
        proof {
            assert(!(r is Ok));
            assert(r != Err::<EnumSpec, LayoutError>(LayoutError::EmptyEnum));
            match &r {
                Err(LayoutError::DuplicateDiscriminant { tag: t0, discriminant: d0 }) => {
                    let k = choose|k: int|
                        0 <= k < decls@.len() && #[trigger] resolved_of(decls@)[k] == d0 as nat
                            && t0@ == decls@[k].name@ && (exists|i: int|
                            0 <= i < k && resolved_of(decls@)[i] == resolved_of(decls@)[k]);
                    let i = choose|i: int|
                        0 <= i < k && resolved_of(decls@)[i] == resolved_of(decls@)[k];
                    assert(resolved_of(decls@)[i] == i + 1 && resolved_of(decls@)[k] == k + 1);
                    assert(false);
                },
                Err(LayoutError::DiscriminantOutOfRange { tag: t0, discriminant: d0, width: w0 }) => {
                    assert(w0 as nat == derived_width(ds));
                    let k = choose|k: int|
                        0 <= k < decls@.len() && #[trigger] resolved_of(decls@)[k] == d0 as nat
                            && resolved_of(decls@)[k] >= pow2(derived_width(decl_discs(decls@)))
                            && t0@ == decls@[k].name@;
                    assert(resolved_of(decls@)[k] == k + 1);
                    assert(k == 7);
                    assert(d0 == 8 && w0 == 3);
                    assert(t0@ == "External"@);
                },
                _ => {},
            }
        }
        r
    }
}

} // verus!
