//! The layout assembler: an ordered list of field specifiers packed into a
//! fixed-size byte buffer.
//!
//! Each field's span starts where the previous field's span ends; the first
//! field starts at bit 0.  The total bit width must be a multiple of eight,
//! checked when the layout is built; the byte length is the total divided by
//! eight.  An instance owns a zero-initialized buffer of that length and
//! reads or writes each field through the primitive bit engine at the
//! field's span.

use vstd::prelude::*;

verus! {

use crate::bits::{
    bit_of, field_value, get_bits, lemma_field_value_bound, lemma_field_value_congruence,
    lemma_field_value_zero, set_bits,
};
use crate::enumspec::EnumSpec;
use crate::error::{DecodeError, LayoutError};
use vstd::arithmetic::div_mod::{lemma_div_multiples_vanish, lemma_small_mod};
use vstd::arithmetic::power2::{lemma_pow2_pos, pow2};
use vstd::pervasive::arbitrary;

/// The location of one field inside the packed buffer: its first absolute
/// bit and its width in bits.
#[derive(Debug, Clone, Copy, PartialEq, Eq, Structural)]
pub struct BitSpan {
    pub offset: usize,
    pub width: usize,
}

/// What a field stores: a plain unsigned integer of a declared width, or an
/// enumerated value through a tag codec whose width is derived from its
/// tags.
#[derive(Debug)]
pub enum FieldKind {
    Unsigned { width: usize },
    Enumerated { codec: EnumSpec },
}

/// One declared field: a name and what it stores.
#[derive(Debug)]
pub struct FieldSpec {
    pub name: String,
    pub kind: FieldKind,
}

impl FieldSpec {
    /// The field's bit width: declared for unsigned fields, derived from
    /// the tags for enumerated fields.
    pub open spec fn spec_width(self) -> nat {
        match self.kind {
            FieldKind::Unsigned { width } => width as nat,
            FieldKind::Enumerated { codec } => codec.spec_width(),
        }
    }

    /// The tag codec of an enumerated field.
    pub open spec fn spec_codec(self) -> EnumSpec
        recommends
            self.kind is Enumerated,
    {
        match self.kind {
            FieldKind::Enumerated { codec } => codec,
            FieldKind::Unsigned { .. } => arbitrary(),
        }
    }

    /// A declared unsigned width must lie in `[1, 128]`; an enumerated
    /// field's derived width is validated when its codec is built.
    pub open spec fn wf(self) -> bool {
        match self.kind {
            FieldKind::Unsigned { width } => 1 <= width <= 128,
            FieldKind::Enumerated { .. } => true,
        }
    }

    /// A field storing a plain unsigned integer of the given width.
    pub fn unsigned(name: String, width: usize) -> (r: FieldSpec)
        ensures
            r.name == name,
            r.kind == (FieldKind::Unsigned { width }),
    {
        FieldSpec { name, kind: FieldKind::Unsigned { width } }
    }

    /// A field storing one tag of an enumerated codec.
    pub fn enumerated(name: String, codec: EnumSpec) -> (r: FieldSpec)
        ensures
            r.name == name,
            r.kind == (FieldKind::Enumerated { codec }),
    {
        FieldSpec { name, kind: FieldKind::Enumerated { codec } }
    }

    /// The field's bit width.
    pub fn width(&self) -> (r: usize)
        ensures
            r as nat == self.spec_width(),
            self.kind is Enumerated ==> r <= 128,
    {
        match &self.kind {
            FieldKind::Unsigned { width } => *width,
            FieldKind::Enumerated { codec } => codec.width(),
        }
    }
}

/// The sum of the widths of a list of fields.
pub open spec fn total_bits(fs: Seq<FieldSpec>) -> nat
    decreases fs.len(),
{
    if fs.len() == 0 {
        0
    } else {
        total_bits(fs.drop_last()) + fs.last().spec_width()
    }
}

/// Extending a prefix by one field adds that field's width.
pub proof fn lemma_total_bits_take_succ(fs: Seq<FieldSpec>, k: int)
    requires
        0 <= k < fs.len(),
    ensures
        total_bits(fs.take(k + 1)) == total_bits(fs.take(k)) + fs[k].spec_width(),
{
    assert(fs.take(k + 1).drop_last() =~= fs.take(k));
    assert(fs.take(k + 1).last() == fs[k]);
}

/// The width sum of a prefix never exceeds that of a longer prefix.
pub proof fn lemma_total_bits_take_mono(fs: Seq<FieldSpec>, a: int, b: int)
    requires
        0 <= a <= b <= fs.len(),
    ensures
        total_bits(fs.take(a)) <= total_bits(fs.take(b)),
    decreases b - a,
{
    if a < b {
        lemma_total_bits_take_succ(fs, a);
        lemma_total_bits_take_mono(fs, a + 1, b);
    }
}

/// A prefix's width sum never exceeds the whole list's.
pub proof fn lemma_total_bits_take_le(fs: Seq<FieldSpec>, k: int)
    requires
        0 <= k <= fs.len(),
    ensures
        total_bits(fs.take(k)) <= total_bits(fs),
{
    lemma_total_bits_take_mono(fs, k, fs.len() as int);
    assert(fs.take(fs.len() as int) =~= fs);
}

/// A built layout: the declared fields, each field's span, and the byte
/// length of the buffer.
#[derive(Debug)]
pub struct Layout {
    fields: Vec<FieldSpec>,
    spans: Vec<BitSpan>,
    nbytes: usize,
}

impl Layout {
    /// Validity of a built layout: one span per field, each span starting
    /// where the previous one ends and as wide as its field, a total width
    /// that is a multiple of eight and addressable, and a byte length of
    /// exactly an eighth of the total.
    #[verifier::type_invariant]
    pub closed spec fn valid(self) -> bool {
        &&& self.spans@.len() == self.fields@.len()
        &&& forall|i: int|
            0 <= i < self.fields@.len() ==> (#[trigger] self.spans@[i]).width as nat
                == self.fields@[i].spec_width()
        &&& forall|i: int|
            0 <= i < self.fields@.len() ==> (#[trigger] self.spans@[i]).offset as nat
                == total_bits(self.fields@.take(i))
        &&& forall|i: int| 0 <= i < self.fields@.len() ==> (#[trigger] self.spans@[i]).width <= 128
        &&& total_bits(self.fields@) % 8 == 0
        &&& total_bits(self.fields@) <= usize::MAX
        &&& (self.nbytes as nat) * 8 == total_bits(self.fields@)
    }

    /// The declared fields, in order.
    pub closed spec fn spec_fields(self) -> Seq<FieldSpec> {
        self.fields@
    }

    /// The number of declared fields.
    pub open spec fn spec_num_fields(self) -> nat {
        self.spec_fields().len()
    }

    /// The declaration of field `i`.
    pub open spec fn spec_field_decl(self, i: int) -> FieldSpec {
        self.spec_fields()[i]
    }

    /// The bit width of field `i`.
    pub open spec fn spec_field_width(self, i: int) -> nat {
        self.spec_field_decl(i).spec_width()
    }

    /// The bit offset of field `i`: the sum of the widths before it.
    pub open spec fn spec_field_offset(self, i: int) -> nat {
        total_bits(self.spec_fields().take(i))
    }

    /// The total bit width of the layout.
    pub open spec fn spec_total_bits(self) -> nat {
        total_bits(self.spec_fields())
    }

    /// The byte length of the layout's buffer.
    pub closed spec fn spec_byte_len(self) -> nat {
        self.nbytes as nat
    }

    /// The number of declared fields.
    pub fn num_fields(&self) -> (r: usize)
        ensures
            r as nat == self.spec_num_fields(),
    {
        proof {
            use_type_invariant(self);
        }
        self.fields.len()
    }

    /// The byte length of the buffer; size invariant: always exactly the
    /// total bit width divided by eight.
    pub fn byte_len(&self) -> (r: usize)
        ensures
            r as nat == self.spec_byte_len(),
            (r as nat) * 8 == self.spec_total_bits(),
            r as nat == self.spec_total_bits() / 8,
            self.spec_total_bits() % 8 == 0,
    {
        proof {
            use_type_invariant(self);
            lemma_div_multiples_vanish(self.nbytes as int, 8);
        }
        self.nbytes
    }

    /// The span of field `i`.
    pub fn span(&self, i: usize) -> (r: BitSpan)
        requires
            i < self.spec_num_fields(),
        ensures
            r.offset as nat == self.spec_field_offset(i as int),
            r.width as nat == self.spec_field_width(i as int),
            r.width <= 128,
    {
        proof {
            use_type_invariant(self);
        }
        self.spans[i]
    }

    /// The index of the first field with the given name, if any.
    pub fn field_index(&self, name: &String) -> (r: Option<usize>)
        ensures
            r matches Some(i) ==> i < self.spec_num_fields() && (#[trigger] self.spec_field_decl(
                i as int,
            )).name@ == name@ && (forall|m: int|
                0 <= m < i ==> (#[trigger] self.spec_field_decl(m)).name@ != name@),
            r is None ==> forall|m: int|
                0 <= m < self.spec_num_fields() ==> (#[trigger] self.spec_field_decl(m)).name@
                    != name@,
    {
        proof {
            use_type_invariant(self);
        }
        let n = self.fields.len();
        let mut k: usize = 0;
        while k < n
            invariant
                n == self.spec_num_fields(),
                k <= n,
                forall|m: int| 0 <= m < k ==> (#[trigger] self.spec_field_decl(m)).name@ != name@,
            decreases n - k,
        {
            if self.fields[k].name == *name {
                return Some(k);
            }
            k = k + 1;
        }
        None
    }

    /// The name of field `i`.
    pub fn field_name(&self, i: usize) -> (r: &String)
        requires
            i < self.spec_num_fields(),
        ensures
            r == self.spec_field_decl(i as int).name,
    {
        proof {
            use_type_invariant(self);
        }
        &self.fields[i].name
    }

    /// Consequences of a built layout's validity, stated over the public
    /// views: spans tile the buffer and the byte length is exact.
    pub proof fn lemma_valid_facts(self)
        requires
            self.valid(),
        ensures
            self.spec_total_bits() % 8 == 0,
            self.spec_byte_len() * 8 == self.spec_total_bits(),
            forall|i: int|
                0 <= i < self.spec_num_fields() ==> #[trigger] self.spec_field_offset(i)
                    + self.spec_field_width(i) <= self.spec_total_bits(),
    {
        assert forall|i: int| 0 <= i < self.spec_num_fields() implies #[trigger] self
            .spec_field_offset(i) + self.spec_field_width(i) <= self.spec_total_bits() by {
            lemma_total_bits_take_succ(self.spec_fields(), i);
            lemma_total_bits_take_le(self.spec_fields(), i + 1);
        }
    }

    /// Assemble a layout from an ordered list of fields: validate each
    /// width, derive each span, and require the total width to be a
    /// multiple of eight.
    pub fn new(fields: Vec<FieldSpec>) -> (r: Result<Layout, LayoutError>)
        ensures
            r is Ok <==> ((forall|i: int| 0 <= i < fields@.len() ==> (#[trigger] fields@[i]).wf())
                && total_bits(fields@) % 8 == 0 && total_bits(fields@) <= usize::MAX),
            r matches Ok(l) ==> l.spec_fields() == fields@ && l.spec_byte_len() * 8 == total_bits(
                fields@,
            ),
            r matches Err(LayoutError::WidthOutOfRange { field, width }) ==> exists|i: int|
                0 <= i < fields@.len() && !(#[trigger] fields@[i]).wf() && field == fields@[i].name
                    && width as nat == fields@[i].spec_width(),
            r matches Err(LayoutError::NotByteAligned { total_bits: t }) ==> t as nat == total_bits(
                fields@,
            ) && total_bits(fields@) % 8 != 0,
            r == Err::<Layout, LayoutError>(LayoutError::Oversized) ==> total_bits(fields@)
                > usize::MAX,
            r is Err ==> (r matches Err(LayoutError::WidthOutOfRange { .. }) || r matches Err(
                LayoutError::NotByteAligned { .. },
            ) || r == Err::<Layout, LayoutError>(LayoutError::Oversized)),
    {
        let n = fields.len();
        let mut spans: Vec<BitSpan> = Vec::new();
        let mut running: usize = 0;
        let mut k: usize = 0;
        while k < n
            invariant
                n == fields@.len(),
                k <= n,
                spans@.len() == k,
                running as nat == total_bits(fields@.take(k as int)),
                forall|m: int| 0 <= m < k ==> (#[trigger] fields@[m]).wf(),
                forall|m: int|
                    0 <= m < k ==> (#[trigger] spans@[m]).width as nat == fields@[m].spec_width(),
                forall|m: int|
                    0 <= m < k ==> (#[trigger] spans@[m]).offset as nat == total_bits(
                        fields@.take(m),
                    ),
                forall|m: int| 0 <= m < k ==> (#[trigger] spans@[m]).width <= 128,
            decreases n - k,
        {
            let w = match &fields[k].kind {
                FieldKind::Unsigned { width } => {
                    if *width < 1 || *width > 128 {
                        return Err(
                            LayoutError::WidthOutOfRange {
                                field: fields[k].name.clone(),
                                width: *width,
                            },
                        );
                    }
                    *width
                },
                FieldKind::Enumerated { codec } => codec.width(),
            };
            if w > usize::MAX - running {
                proof {
                    lemma_total_bits_take_succ(fields@, k as int);
                    lemma_total_bits_take_le(fields@, k as int + 1);
                }
                return Err(LayoutError::Oversized);
            }
            spans.push(BitSpan { offset: running, width: w });
            running = running + w;
            k = k + 1;
            proof {
                lemma_total_bits_take_succ(fields@, k as int - 1);
            }
        }
        proof {
            assert(fields@.take(n as int) =~= fields@);
        }
        if running % 8 != 0 {
            return Err(LayoutError::NotByteAligned { total_bits: running });
        }
        let nbytes = running / 8;
        Ok(Layout { fields, spans, nbytes })
    }
}

/// A live packed struct: a layout together with its exclusively owned,
/// fixed-length byte buffer.
#[derive(Debug)]
pub struct Instance {
    layout: Layout,
    data: Vec<u8>,
}

impl Instance {
    /// Well-formedness: the buffer has exactly the layout's byte length.
    pub open spec fn wf(self) -> bool {
        self.spec_bytes().len() == self.spec_layout().spec_byte_len()
    }

    /// The layout this instance was built from.
    pub closed spec fn spec_layout(self) -> Layout {
        self.layout
    }

    /// The buffer's bytes.
    pub closed spec fn spec_bytes(self) -> Seq<u8> {
        self.data@
    }

    /// The raw unsigned value stored in field `i`.
    pub open spec fn spec_field(self, i: int) -> nat {
        field_value(
            self.spec_bytes(),
            self.spec_layout().spec_field_offset(i),
            self.spec_layout().spec_field_width(i),
        )
    }

    /// Build an instance of the layout with a zero-filled buffer: every
    /// field reads as zero.
    pub fn new(layout: Layout) -> (r: Instance)
        ensures
            r.wf(),
            r.spec_layout() == layout,
            forall|i: int| 0 <= i < r.spec_bytes().len() ==> #[trigger] r.spec_bytes()[i] == 0u8,
            forall|i: int|
                0 <= i < layout.spec_num_fields() ==> #[trigger] r.spec_field(i) == 0,
    {
        proof {
            use_type_invariant(&layout);
        }
        let n = layout.nbytes;
        let mut data: Vec<u8> = Vec::new();
        while data.len() < n
            invariant
                data@.len() <= n,
                forall|i: int| 0 <= i < data@.len() ==> #[trigger] data@[i] == 0u8,
            decreases n - data@.len(),
        {
            data.push(0u8);
        }
        let r = Instance { layout, data };
        proof {
            r.layout.lemma_valid_facts();
            assert forall|i: int| 0 <= i < r.layout.spec_num_fields() implies #[trigger] r
                .spec_field(i) == 0 by {
                lemma_field_value_zero(
                    r.spec_bytes(),
                    r.layout.spec_field_offset(i),
                    r.layout.spec_field_width(i),
                );
            }
        }
        r
    }

    /// The layout of this instance.
    pub fn layout(&self) -> (r: &Layout)
        ensures
            *r == self.spec_layout(),
    {
        &self.layout
    }

    /// The buffer, exactly as persisted.
    pub fn bytes(&self) -> (r: &Vec<u8>)
        ensures
            r@ == self.spec_bytes(),
    {
        &self.data
    }

    /// Read field `i` as a raw unsigned value.  Reading mutates nothing, so
    /// reading twice yields the same value.
    pub fn get(&self, i: usize) -> (r: u128)
        requires
            self.wf(),
            i < self.spec_layout().spec_num_fields(),
        ensures
            r as nat == self.spec_field(i as int),
            (r as nat) < pow2(self.spec_layout().spec_field_width(i as int)),
    {
        proof {
            use_type_invariant(&self.layout);
            self.layout.lemma_valid_facts();
            lemma_field_value_bound(
                self.spec_bytes(),
                self.layout.spec_field_offset(i as int),
                self.layout.spec_field_width(i as int),
            );
        }
        let sp = self.layout.span(i);
        get_bits(&self.data, sp.offset, sp.width)
    }

    /// Write `val` into field `i`: the field then stores the low bits of
    /// `val` (exactly `val` whenever `val` fits the field's width), and no
    /// other field changes.
    pub fn set(&mut self, i: usize, val: u128)
        requires
            old(self).wf(),
            i < old(self).spec_layout().spec_num_fields(),
        ensures
            final(self).wf(),
            final(self).spec_layout() == old(self).spec_layout(),
            final(self).spec_field(i as int) == (val as nat) % pow2(
                old(self).spec_layout().spec_field_width(i as int),
            ),
            (val as nat) < pow2(old(self).spec_layout().spec_field_width(i as int))
                ==> final(self).spec_field(i as int) == val as nat,
            forall|j: int|
                0 <= j < old(self).spec_layout().spec_num_fields() && j != i
                    ==> final(self).spec_field(j) == old(self).spec_field(j),
    {
        proof {
            use_type_invariant(&self.layout);
            self.layout.lemma_valid_facts();
        }
        let ghost pre = self.data@;
        let sp = self.layout.span(i);
        set_bits(&mut self.data, sp.offset, sp.width, val);
        proof {
            let fs = self.layout.spec_fields();
            let off = self.layout.spec_field_offset(i as int);
            let w = self.layout.spec_field_width(i as int);
            lemma_pow2_pos(w);
            if (val as nat) < pow2(w) {
                lemma_small_mod(val as nat, pow2(w));
            }
            assert forall|j: int|
                0 <= j < self.layout.spec_num_fields() && j != i implies field_value(
                self.data@,
                self.layout.spec_field_offset(j),
                self.layout.spec_field_width(j),
            ) == field_value(pre, self.layout.spec_field_offset(j), self.layout.spec_field_width(j))
                by {
                let offj = self.layout.spec_field_offset(j);
                let wj = self.layout.spec_field_width(j);
                lemma_total_bits_take_succ(fs, j);
                lemma_total_bits_take_le(fs, j + 1);
                if j < i {
                    lemma_total_bits_take_mono(fs, j + 1, i as int);
                } else {
                    lemma_total_bits_take_succ(fs, i as int);
                    lemma_total_bits_take_mono(fs, i as int + 1, j);
                }
                assert forall|p: nat| offj <= p < offj + wj implies #[trigger] bit_of(self.data@, p)
                    == bit_of(pre, p) by {
                    assert(p < pre.len() * 8);
                    assert(!(off <= p < off + w));
                }
                lemma_field_value_congruence(self.data@, pre, offj, wj);
            }
        }
    }

    /// Decode field `i` as the tag of its enumerated codec; fails exactly
    /// when the stored bits equal no tag's discriminant.
    pub fn get_tag(&self, i: usize) -> (r: Result<usize, DecodeError>)
        requires
            self.wf(),
            i < self.spec_layout().spec_num_fields(),
            self.spec_layout().spec_field_decl(i as int).kind is Enumerated,
        ensures
            ({
                let codec = self.spec_layout().spec_field_decl(i as int).spec_codec();
                &&& forall|t: int|
                    0 <= t < codec.spec_count() ==> ((r == Ok::<usize, DecodeError>(t as usize))
                        <==> (#[trigger] codec.spec_discriminant(t) == self.spec_field(i as int)))
                &&& (r is Err <==> (forall|t: int|
                    0 <= t < codec.spec_count() ==> #[trigger] codec.spec_discriminant(t)
                        != self.spec_field(i as int)))
                &&& (r matches Err(e) ==> e matches DecodeError::UnknownDiscriminant {
                    raw,
                } && raw as nat == self.spec_field(i as int))
            }),
    {
        let raw = self.get(i);
        match &self.layout.fields[i].kind {
            FieldKind::Enumerated { codec } => {
                proof {
                    assert(*codec == self.spec_layout().spec_field_decl(i as int).spec_codec());
                    assert(raw as nat == self.spec_field(i as int));
                }
                codec.decode(raw)
            },
            FieldKind::Unsigned { .. } => {
                proof {
                    use_type_invariant(&self.layout);
                    assert(false);
                }
                Err(DecodeError::UnknownDiscriminant { raw })
            },
        }
    }

    /// Encode tag `t` into enumerated field `i`: the field then stores
    /// exactly the tag's discriminant, and no other field changes.
    pub fn set_tag(&mut self, i: usize, t: usize)
        requires
            old(self).wf(),
            i < old(self).spec_layout().spec_num_fields(),
            old(self).spec_layout().spec_field_decl(i as int).kind is Enumerated,
            t < old(self).spec_layout().spec_field_decl(i as int).spec_codec().spec_count(),
        ensures
            final(self).wf(),
            final(self).spec_layout() == old(self).spec_layout(),
            final(self).spec_field(i as int) == old(self).spec_layout().spec_field_decl(
                i as int,
            ).spec_codec().spec_discriminant(t as int),
            forall|j: int|
                0 <= j < old(self).spec_layout().spec_num_fields() && j != i
                    ==> final(self).spec_field(j) == old(self).spec_field(j),
    {
        let d = match &self.layout.fields[i].kind {
            FieldKind::Enumerated { codec } => codec.discriminant(t),
            FieldKind::Unsigned { .. } => {
                proof {
                    use_type_invariant(&self.layout);
                    assert(false);
                }
                0
            },
        };
        self.set(i, d);
    }
}

/// Idempotence law: reading a field mutates nothing, so two reads of one
/// field of one unchanged instance yield one value.
pub proof fn lemma_get_idempotent(inst: Instance, i: int, r1: u128, r2: u128)
    requires
        r1 as nat == inst.spec_field(i),
        r2 as nat == inst.spec_field(i),
    ensures
        r1 == r2,
{
}

} // verus!
