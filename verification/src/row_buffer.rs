//! A buffer of rows, each of which has a fixed schema.
//!
//! The schema describes the fields in each row, and the layout of the fields
//! in memory. Any field may be present or absent; an absent field holds the
//! zero value of its type. Presence is recorded in an occupancy bitfield at
//! the start of each row, unless the schema omits the bitfield, in which case
//! every field is always present.

use vstd::prelude::*;
use vstd::arithmetic::power2::is_pow2;
use crate::layout::{Layout, layout_ok, padding_for};
use vstd::string::*;
use crate::reflection::{ConcreteTy, FieldValue, Reflect, value_ty, is_zero_value, spec_is_zeroable, ty_size, ty_align};
use crate::dyn_type::{decimal, write_decimal};

verus! {

/// A zero-initialized block of bytes with a layout.
#[derive(Debug)]
pub struct AlignedBytes {
    data: Vec<u8>,
    layout: Layout,
}

impl AlignedBytes {
    /// The block holds exactly as many bytes as its layout's size.
    pub closed spec fn wf(&self) -> bool {
        &&& self.layout.valid()
        &&& self.layout.spec_size() > 0
        &&& self.data.len() == self.layout.spec_size()
    }

    /// The bytes of the block.
    pub closed spec fn bytes(&self) -> Seq<u8> {
        self.data@
    }

    /// The layout of the block.
    pub closed spec fn spec_layout(&self) -> Layout {
        self.layout
    }

    /// A well formed block holds as many bytes as its layout's size.
    pub proof fn lemma_len(&self)
        requires
            self.wf(),
        ensures
            self.bytes().len() == self.spec_layout().spec_size(),
            self.spec_layout().valid(),
    {
    }

    /// Allocates a zeroed block with the given layout, whose size must be
    /// greater than 0.
    pub fn new(layout: Layout) -> (r: Self)
        requires
            layout.valid(),
            layout.spec_size() > 0,
        ensures
            r.wf(),
            r.spec_layout() == layout,
            r.bytes() == Seq::new(layout.spec_size(), |i: int| 0u8),
    {
        let data = zeroed_bytes(layout.size());
        AlignedBytes { data, layout }
    }

    /// Increases the size of the buffer to be at least `new_size`. New bytes
    /// are initialized to zero. This function will not shrink the buffer.
    pub fn resize(&mut self, new_size: usize)
        requires
            old(self).wf(),
            new_size > old(self).spec_layout().spec_size() ==> layout_ok(
                new_size as int,
                old(self).spec_layout().spec_align() as int,
            ),
        ensures
            final(self).wf(),
            final(self).bytes().len() == final(self).spec_layout().spec_size(),
            final(self).spec_layout().spec_align() == old(self).spec_layout().spec_align(),
            new_size <= old(self).spec_layout().spec_size() ==> *final(self) == *old(self),
            new_size > old(self).spec_layout().spec_size() ==> {
                &&& final(self).spec_layout().spec_size() == new_size
                &&& final(self).bytes() == old(self).bytes() + Seq::new(
                    (new_size - old(self).bytes().len()) as nat,
                    |i: int| 0u8,
                )
            },
    {
        if new_size <= self.layout.size() {
            return;
        }
        let new_layout = Layout::from_size_align(new_size, self.layout.align()).unwrap();
        let ghost old_bytes = self.data@;
        let mut extra = new_size - self.data.len();
        while extra > 0
            invariant
                self.data.len() + extra == new_size,
                self.data@ =~= old_bytes + Seq::new((self.data.len() - old_bytes.len()) as nat, |i: int| 0u8),
                old_bytes.len() <= self.data.len(),
            decreases extra,
        {
            self.data.push(0);
            extra = extra - 1;
        }
        self.layout = new_layout;
    }

    pub fn layout(&self) -> (r: Layout)
        ensures
            r == self.spec_layout(),
    {
        self.layout
    }

    /// The number of bytes in the block.
    pub fn len(&self) -> (r: usize)
        ensures
            r == self.bytes().len(),
    {
        self.data.len()
    }

    /// The bytes of the block.
    pub fn as_slice(&self) -> (r: &[u8])
        ensures
            r@ == self.bytes(),
    {
        self.data.as_slice()
    }

    fn byte(&self, i: usize) -> (r: u8)
        requires
            i < self.bytes().len(),
        ensures
            r == self.bytes()[i as int],
    {
        self.data[i]
    }

    fn set_byte(&mut self, i: usize, v: u8)
        requires
            i < old(self).bytes().len(),
        ensures
            final(self).bytes() == old(self).bytes().update(i as int, v),
            final(self).spec_layout() == old(self).spec_layout(),
            old(self).wf() ==> final(self).wf(),
    {
        self.data.set(i, v);
    }
}

/// A vector of `n` zero bytes.
fn zeroed_bytes(n: usize) -> (r: Vec<u8>)
    ensures
        r@ == Seq::new(n as nat, |i: int| 0u8),
{
    let mut v: Vec<u8> = Vec::new();
    while v.len() < n
        invariant
            v.len() <= n,
            v@ =~= Seq::new(v.len() as nat, |i: int| 0u8),
        decreases n - v.len(),
    {
        v.push(0);
    }
    v
}

/// The description of one field of a row.
#[derive(Clone, Copy, Debug, PartialEq, Eq, Structural)]
pub struct RowSchemaField {
    pub offset: usize,
    pub ty: ConcreteTy,
    pub size: usize,
}

/// The fields of a row and the layout of a whole row.
#[derive(Debug)]
pub struct RowSchema {
    /// The length of the occupancy bitfield. If schema has fields that are
    /// always present, then this is zero.
    occupancy_bitfield_len: usize,
    fields: Vec<RowSchemaField>,
    /// The layout of an entire row. This includes padding to ensure that the
    /// next row is aligned.
    layout: Layout,
}

/// The number of bytes needed for one bit per field.
pub open spec fn bytes_for_bits(n: nat) -> nat {
    n / 8 + if n % 8 != 0 { 1nat } else { 0nat }
}

/// The layout of a row under construction: its size and alignment so far,
/// the fields placed so far, and whether every step stayed a valid layout.
pub ghost struct SchemaAcc {
    pub size: nat,
    pub align: nat,
    pub fields: Seq<RowSchemaField>,
    pub ok: bool,
}

/// Appends a field of type `t` to the row layout `acc`, padding it to the
/// field's alignment.
pub open spec fn schema_step(acc: SchemaAcc, t: ConcreteTy) -> SchemaAcc {
    let offset = acc.size + padding_for(acc.size as int, ty_align(t) as int);
    let new_size = offset + ty_size(t);
    let new_align = if acc.align >= ty_align(t) { acc.align } else { ty_align(t) };
    SchemaAcc {
        size: new_size as nat,
        align: new_align,
        fields: acc.fields.push(RowSchemaField { offset: offset as usize, ty: t, size: ty_size(t) as usize }),
        ok: acc.ok && layout_ok(new_size, new_align as int),
    }
}

/// The row layout after the first `k` fields of `types`, starting after a
/// bitfield of `bitfield_len` bytes.
pub open spec fn schema_prefix(types: Seq<ConcreteTy>, bitfield_len: nat, k: nat) -> SchemaAcc
    decreases k,
{
    if k == 0 {
        SchemaAcc { size: bitfield_len, align: 1, fields: Seq::empty(), ok: layout_ok(bitfield_len as int, 1) }
    } else {
        schema_step(schema_prefix(types, bitfield_len, (k - 1) as nat), types[k - 1])
    }
}

/// The bitfield length of a schema with `n` fields.
pub open spec fn spec_bitfield_len(n: nat, occupancy_bitfield: bool) -> nat {
    if occupancy_bitfield { bytes_for_bits(n) } else { 0 }
}

proof fn lemma_schema_ok_mono(types: Seq<ConcreteTy>, bitfield_len: nat, k: nat, n: nat)
    requires
        k <= n <= types.len(),
        schema_prefix(types, bitfield_len, n).ok,
    ensures
        schema_prefix(types, bitfield_len, k).ok,
    decreases n - k,
{
    if k < n {
        lemma_schema_ok_mono(types, bitfield_len, k + 1, n);
    }
}

proof fn lemma_schema_shape(types: Seq<ConcreteTy>, bitfield_len: nat, k: nat)
    requires
        k <= types.len(),
        schema_prefix(types, bitfield_len, k).ok,
    ensures
        schema_prefix(types, bitfield_len, k).size >= bitfield_len,
        schema_prefix(types, bitfield_len, k).align >= 1,
        schema_prefix(types, bitfield_len, k).fields.len() == k,
        forall|j: int| 0 <= j < k ==> {
            let f = #[trigger] schema_prefix(types, bitfield_len, k).fields[j];
            f.offset >= bitfield_len && f.offset + f.size <= schema_prefix(types, bitfield_len, k).size
        },
    decreases k,
{
    if k > 0 {
        lemma_schema_shape(types, bitfield_len, (k - 1) as nat);
        let prev = schema_prefix(types, bitfield_len, (k - 1) as nat);
        let t = types[k - 1];
        let cur = schema_prefix(types, bitfield_len, k);
        assert(layout_ok(cur.size as int, cur.align as int));
        assert(ty_align(t) > 0) by {
            if ty_align(t) == 0 {
                assert(cur.align == prev.align);
            }
        }
        assert(padding_for(prev.size as int, ty_align(t) as int) >= 0) by {
            assert((prev.size as int) % (ty_align(t) as int) < ty_align(t) as int) by (nonlinear_arith)
                requires
                    ty_align(t) > 0,
            ;
        }
    }
}

/// Every step of a layout that is valid in the end is valid too.
proof fn lemma_schema_prefix(types: Seq<ConcreteTy>, bitfield_len: nat, k: nat, n: nat)
    requires
        k <= n <= types.len(),
        schema_prefix(types, bitfield_len, n).ok,
    ensures
        schema_prefix(types, bitfield_len, k).ok,
        schema_prefix(types, bitfield_len, k).size >= bitfield_len,
        schema_prefix(types, bitfield_len, k).align >= 1,
        schema_prefix(types, bitfield_len, k).fields.len() == k,
        forall|j: int| 0 <= j < k ==> {
            let f = #[trigger] schema_prefix(types, bitfield_len, k).fields[j];
            f.offset >= bitfield_len && f.offset + f.size <= schema_prefix(types, bitfield_len, k).size
        },
{
    lemma_schema_ok_mono(types, bitfield_len, k, n);
    lemma_schema_shape(types, bitfield_len, k);
}

/// A power of two divides every power of two at least as large.
proof fn lemma_pow2_divides(a: int, b: int)
    requires
        is_pow2(a),
        is_pow2(b),
        b <= a,
    ensures
        a % b == 0,
    decreases a,
{
    reveal_with_fuel(is_pow2, 2);
    if b != 1 {
        assert(a != 1);
        assert(b / 2 <= a / 2);
        lemma_pow2_divides(a / 2, b / 2);
        let q = (a / 2) / (b / 2);
        vstd::arithmetic::div_mod::lemma_fundamental_div_mod(a / 2, b / 2);
        assert(a == q * b) by (nonlinear_arith)
            requires
                a / 2 == (b / 2) * q,
                a % 2 == 0,
                b % 2 == 0,
        ;
        vstd::arithmetic::div_mod::lemma_mod_multiples_basic(q, b);
    }
}

/// Padding `size` for `align` reaches a multiple of `align`.
proof fn lemma_padding_aligns(size: int, align: int)
    requires
        0 <= size,
        0 < align,
    ensures
        (size + padding_for(size, align)) % align == 0,
        padding_for(size, align) >= 0,
{
    assert((size + padding_for(size, align)) % align == 0 && padding_for(size, align) >= 0) by (nonlinear_arith)
        requires
            0 <= size,
            0 < align,
            padding_for(size, align) == if size % align == 0 { 0 } else { align - size % align },
    ;
}

/// The layout of the first `k` fields of a schema: each field has its
/// type's size and lies at an offset aligned for its type after the
/// bitfield, each starts after the one before it ends, and the row's
/// alignment is a multiple of every field's alignment.
#[verifier::rlimit(100)]
#[verifier::spinoff_prover]
pub proof fn law_schema_layout(types: Seq<ConcreteTy>, bitfield_len: nat, k: nat)
    requires
        k <= types.len(),
        schema_prefix(types, bitfield_len, types.len()).ok,
    ensures
        ({
            let acc = schema_prefix(types, bitfield_len, k);
            &&& acc.fields.len() == k
            &&& forall|j: int| 0 <= j < k ==> {
                let f = #[trigger] acc.fields[j];
                &&& f.ty == types[j]
                &&& f.size == ty_size(types[j])
                &&& f.offset >= bitfield_len
                &&& (f.offset as int) % (ty_align(types[j]) as int) == 0
                &&& f.offset + f.size <= acc.size
                &&& (acc.align as int) % (ty_align(types[j]) as int) == 0
            }
            &&& forall|j: int| 0 <= j < k - 1 ==> (#[trigger] acc.fields[j]).offset + acc.fields[j].size
                <= acc.fields[j + 1].offset
        }),
    decreases k,
{
    broadcast use vstd::layout::align_properties, vstd::layout::align_nonzero;

    lemma_schema_prefix(types, bitfield_len, k, types.len());
    if k > 0 {
        law_schema_layout(types, bitfield_len, (k - 1) as nat);
        let prev = schema_prefix(types, bitfield_len, (k - 1) as nat);
        let acc = schema_prefix(types, bitfield_len, k);
        let t = types[k - 1];
        let al = ty_align(t) as int;
        assert(al > 0 && is_pow2(al));
        lemma_padding_aligns(prev.size as int, al);
        lemma_schema_prefix(types, bitfield_len, (k - 1) as nat, types.len());
        assert forall|j: int| 0 <= j < k implies {
            let f = #[trigger] acc.fields[j];
            &&& f.ty == types[j]
            &&& f.size == ty_size(types[j])
            &&& f.offset >= bitfield_len
            &&& (f.offset as int) % (ty_align(types[j]) as int) == 0
            &&& f.offset + f.size <= acc.size
            &&& (acc.align as int) % (ty_align(types[j]) as int) == 0
        } by {
            if j < k - 1 {
                assert(acc.fields[j] == prev.fields[j]);
                let tj = ty_align(types[j]) as int;
                assert(tj > 0 && is_pow2(tj));
                if acc.align != prev.align {
                    assert((prev.align as int) % tj == 0);
                    assert(tj <= prev.align) by (nonlinear_arith)
                        requires
                            (prev.align as int) % tj == 0,
                            prev.align >= 1,
                            tj > 0,
                    ;
                    lemma_pow2_divides(al, tj);
                }
                assert(acc.fields[j].offset + acc.fields[j].size <= prev.size);
                assert(acc.fields[j].ty == types[j]);
                assert(acc.fields[j].size == ty_size(types[j]));
                assert(acc.fields[j].offset >= bitfield_len);
                assert((acc.fields[j].offset as int) % (ty_align(types[j]) as int) == 0);
                assert(acc.fields[j].offset + acc.fields[j].size <= acc.size);
                assert((acc.align as int) % (ty_align(types[j]) as int) == 0);
            } else {
                let off = prev.size + padding_for(prev.size as int, al);
                assert(layout_ok(acc.size as int, acc.align as int));
                assert(acc.size == off + ty_size(t));
                assert(acc.fields[j] == RowSchemaField { offset: off as usize, ty: t, size: ty_size(t) as usize });
                assert(off as usize == off);
                assert(ty_size(t) as usize == ty_size(t));
                if acc.align == prev.align {
                    assert(is_pow2(prev.align as int));
                    lemma_pow2_divides(prev.align as int, al);
                } else {
                    assert(al % al == 0) by (nonlinear_arith)
                        requires
                            al > 0,
                    ;
                }
                assert(acc.fields[j].ty == types[j]);
                assert(acc.fields[j].size == ty_size(types[j]));
                assert(acc.fields[j].offset >= bitfield_len);
                assert((acc.fields[j].offset as int) % (ty_align(types[j]) as int) == 0);
                assert(acc.fields[j].offset + acc.fields[j].size <= acc.size);
                assert((acc.align as int) % (ty_align(types[j]) as int) == 0);
            }
        }
    }
}

/// The stride of a schema's rows, its size padded to its alignment, is a
/// multiple of the alignment of every field, so every row keeps its fields
/// aligned.
#[verifier::rlimit(100)]
#[verifier::spinoff_prover]
pub proof fn law_schema_stride(types: Seq<ConcreteTy>, bitfield_len: nat)
    requires
        schema_prefix(types, bitfield_len, types.len()).ok,
    ensures
        ({
            let acc = schema_prefix(types, bitfield_len, types.len());
            let stride = acc.size + padding_for(acc.size as int, acc.align as int);
            forall|j: int| 0 <= j < types.len() ==> stride % (ty_align(#[trigger] types[j]) as int) == 0
        }),
{
    broadcast use vstd::layout::align_nonzero;

    let acc = schema_prefix(types, bitfield_len, types.len());
    law_schema_layout(types, bitfield_len, types.len());
    lemma_schema_prefix(types, bitfield_len, types.len(), types.len());
    let stride = acc.size + padding_for(acc.size as int, acc.align as int);
    lemma_padding_aligns(acc.size as int, acc.align as int);
    assert forall|j: int| 0 <= j < types.len() implies stride % (ty_align(#[trigger] types[j]) as int) == 0 by {
        let tj = ty_align(types[j]) as int;
        assert(acc.fields[j].ty == types[j]);
        assert((acc.align as int) % tj == 0);
        let q1 = stride / (acc.align as int);
        let q2 = (acc.align as int) / tj;
        vstd::arithmetic::div_mod::lemma_fundamental_div_mod(stride, acc.align as int);
        vstd::arithmetic::div_mod::lemma_fundamental_div_mod(acc.align as int, tj);
        assert(stride == (q2 * q1) * tj) by (nonlinear_arith)
            requires
                stride == (acc.align as int) * q1,
                (acc.align as int) == tj * q2,
        ;
        vstd::arithmetic::div_mod::lemma_mod_multiples_basic(q2 * q1, tj);
    }
}

impl RowSchema {
    /// The fields of the schema.
    pub closed spec fn spec_fields(&self) -> Seq<RowSchemaField> {
        self.fields@
    }

    /// The length of the occupancy bitfield; zero if all fields are always
    /// present.
    pub closed spec fn spec_bitfield_len(&self) -> nat {
        self.occupancy_bitfield_len as nat
    }

    /// The layout of a whole row.
    pub closed spec fn spec_layout(&self) -> Layout {
        self.layout
    }

    /// The invariant of a schema: the row layout is valid and padded to its
    /// alignment, the bitfield (if any) has a bit for every field and fits
    /// before the fields, and every field lies inside the row.
    pub closed spec fn wf(&self) -> bool {
        &&& self.layout.valid()
        &&& self.layout.spec_size() % self.layout.spec_align() == 0
        &&& self.occupancy_bitfield_len == 0 || self.occupancy_bitfield_len == bytes_for_bits(self.fields.len() as nat)
        &&& self.occupancy_bitfield_len <= self.layout.spec_size()
        &&& forall|j: int| 0 <= j < self.fields.len() ==> {
            let f = #[trigger] self.fields@[j];
            f.offset >= self.occupancy_bitfield_len && f.offset + f.size <= self.layout.spec_size()
        }
    }

    /// Lays out the given field types after an occupancy bitfield (if
    /// `occupancy_bitfield`), each at the next offset aligned for it, and
    /// pads the row to its alignment so that consecutive rows stay aligned.
    pub fn new(types_and_layouts: &[ConcreteTy], occupancy_bitfield: bool) -> (r: Self)
        requires
            schema_prefix(
                types_and_layouts@,
                spec_bitfield_len(types_and_layouts@.len(), occupancy_bitfield),
                types_and_layouts@.len(),
            ).ok,
        ensures
            r.wf(),
            ({
                let acc = schema_prefix(
                    types_and_layouts@,
                    spec_bitfield_len(types_and_layouts@.len(), occupancy_bitfield),
                    types_and_layouts@.len(),
                );
                &&& r.spec_fields() == acc.fields
                &&& r.spec_bitfield_len() == spec_bitfield_len(types_and_layouts@.len(), occupancy_bitfield)
                &&& r.spec_layout().spec_align() == acc.align
                &&& r.spec_layout().spec_size() == acc.size + padding_for(acc.size as int, acc.align as int)
            }),
    {
        let ghost types = types_and_layouts@;
        let n = types_and_layouts.len();
        // the length of the bitfield holding whether each field is present
        let occupancy_bitfield_len = if occupancy_bitfield {
            n / 8 + if n % 8 != 0 { 1 } else { 0 }
        } else {
            0
        };
        let ghost bl = occupancy_bitfield_len as nat;
        proof {
            lemma_schema_prefix(types, bl, 0, n as nat);
        }
        let mut fields: Vec<RowSchemaField> = Vec::new();
        let mut overall_layout = Layout::from_size_align(occupancy_bitfield_len, 1).unwrap();
        let mut k: usize = 0;
        while k < n
            invariant
                k <= n,
                n == types.len(),
                types == types_and_layouts@,
                schema_prefix(types, bl, n as nat).ok,
                overall_layout.valid(),
                ({
                    let acc = schema_prefix(types, bl, k as nat);
                    &&& overall_layout.spec_size() == acc.size
                    &&& overall_layout.spec_align() == acc.align
                    &&& fields@ == acc.fields
                }),
            decreases n - k,
        {
            let field_type = types_and_layouts[k];
            let field_layout = field_type.info().layout;
            proof {
                lemma_schema_prefix(types, bl, (k + 1) as nat, n as nat);
            }
            // append this field to the current layout
            let (new_layout, offset) = overall_layout.extend(field_layout).unwrap();
            fields.push(RowSchemaField { offset, ty: field_type, size: field_layout.size() });
            overall_layout = new_layout;
            k = k + 1;
        }
        // add padding at the end to align with itself
        let layout = overall_layout.pad_to_align();
        proof {
            lemma_schema_prefix(types, bl, n as nat, n as nat);
        }
        RowSchema { occupancy_bitfield_len, fields, layout }
    }

    /// Whether rows of this schema can be reinterpreted as values of `T`: no
    /// occupancy bitfield, exactly one field, of type `T` at offset 0, and a
    /// row layout equal to that of `T`.
    pub fn can_reinterpret_as<T: Reflect>(&self) -> (r: bool)
        ensures
            r == self.spec_can_reinterpret_as::<T>(),
    {
        // must have no occupancy bitfield (all fields always present)
        if self.occupancy_bitfield_len != 0 {
            return false;
        }
        // must have exactly one field
        if self.fields.len() != 1 {
            return false;
        }
        let field = self.fields[0];
        // field must be of type T and at offset 0
        if field.ty != T::CONCRETE_TY || field.offset != 0 {
            return false;
        }
        // overall layout must match T's layout
        let t_layout = Layout::new::<T>();
        self.layout == t_layout
    }

    /// The field at `field_idx`.
    pub fn field(&self, field_idx: usize) -> (r: &RowSchemaField)
        requires
            field_idx < self.spec_fields().len(),
        ensures
            *r == self.spec_fields()[field_idx as int],
    {
        &self.fields[field_idx]
    }

    /// The number of bytes from the start of one row to the start of the
    /// next.
    pub fn stride(&self) -> (r: usize)
        ensures
            r == self.spec_layout().spec_size(),
    {
        self.layout.size()
    }

    /// The number of fields.
    pub fn num_fields(&self) -> (r: usize)
        ensures
            r == self.spec_fields().len(),
    {
        self.fields.len()
    }
}

/// Whether bit `k` of `b` is set.
pub open spec fn bit_set(b: u8, k: u8) -> bool {
    b & (1u8 << k) != 0u8
}

proof fn lemma_set_bit(b: u8, k: u8, j: u8)
    requires
        k < 8,
        j < 8,
    ensures
        bit_set(b | (1u8 << k), k),
        j != k ==> bit_set(b | (1u8 << k), j) == bit_set(b, j),
{
    assert((b | (1u8 << k)) & (1u8 << k) != 0u8) by (bit_vector)
        requires
            k < 8,
    ;
    assert(j != k ==> (((b | (1u8 << k)) & (1u8 << j) != 0u8) == (b & (1u8 << j) != 0u8))) by (bit_vector)
        requires
            k < 8,
            j < 8,
    ;
}

proof fn lemma_clear_bit(b: u8, k: u8, j: u8)
    requires
        k < 8,
        j < 8,
    ensures
        !bit_set(b & !(1u8 << k), k),
        j != k ==> bit_set(b & !(1u8 << k), j) == bit_set(b, j),
{
    assert((b & !(1u8 << k)) & (1u8 << k) == 0u8) by (bit_vector)
        requires
            k < 8,
    ;
    assert(j != k ==> (((b & !(1u8 << k)) & (1u8 << j) != 0u8) == (b & (1u8 << j) != 0u8))) by (bit_vector)
        requires
            k < 8,
            j < 8,
    ;
}

/// Whether field `f` of the row starting at byte `base` is present: always,
/// if the schema omits the bitfield; otherwise if its occupancy bit is set.
pub open spec fn field_present(bitfield_len: nat, bytes: Seq<u8>, base: int, f: int) -> bool {
    bitfield_len == 0 || bit_set(bytes[base + f / 8], (f % 8) as u8)
}

/// The invariant of a row: it lies inside the bytes, holds one value of the
/// right type per field, and every absent field holds the zero value.
pub open spec fn row_wf(schema: &RowSchema, bytes: Seq<u8>, cells: Seq<FieldValue>, base: int) -> bool {
    &&& schema.wf()
    &&& 0 <= base
    &&& base + schema.spec_layout().spec_size() <= bytes.len()
    &&& cells.len() == schema.spec_fields().len()
    &&& forall|f: int|
        0 <= f < cells.len() ==> {
            &&& value_ty(#[trigger] cells[f]) == schema.spec_fields()[f].ty
            &&& !field_present(schema.spec_bitfield_len(), bytes, base, f) ==> is_zero_value(cells[f])
        }
}

proof fn lemma_bit_byte_in_row(schema: &RowSchema, f: int)
    requires
        schema.wf(),
        schema.spec_bitfield_len() > 0,
        0 <= f < schema.spec_fields().len(),
    ensures
        f / 8 < schema.spec_bitfield_len(),
        f / 8 < schema.spec_layout().spec_size(),
        0 <= f % 8 < 8,
{
    reveal_with_fuel(bytes_for_bits, 1);
    let n = schema.spec_fields().len();
    assert(f / 8 < bytes_for_bits(n as nat)) by (nonlinear_arith)
        requires
            0 <= f < n,
            bytes_for_bits(n as nat) == n / 8 + if n % 8 != 0 { 1nat } else { 0nat },
    ;
}

/// A shared view of one row.
pub struct RowRef<'a> {
    pub bytes: &'a AlignedBytes,
    pub cells: &'a Vec<FieldValue>,
    pub base: usize,
}

/// One row of a [`RowBuffer`], described by its schema.
pub struct Row<'a, B> {
    pub schema: &'a RowSchema,
    pub data: B,
}

/// Whether `field_idx` is present in the row starting at `base`.
fn has_field_at(schema: &RowSchema, bytes: &AlignedBytes, base: usize, field_idx: usize) -> (r: bool)
    requires
        schema.wf(),
        bytes.wf(),
        field_idx < schema.spec_fields().len(),
        base + schema.spec_layout().spec_size() <= bytes.bytes().len(),
    ensures
        r == field_present(schema.spec_bitfield_len(), bytes.bytes(), base as int, field_idx as int),
{
    // handle the case where the occupancy bitfield is omitted due to
    // always-present fields
    if schema.occupancy_bitfield_len == 0 {
        return true;
    }
    proof {
        lemma_bit_byte_in_row(schema, field_idx as int);
    }
    // check whether the bit at `field_idx` is set
    let byte_offset = field_idx / 8;
    let bit_offset = (field_idx % 8) as u8;
    bytes.byte(base + byte_offset) & (1u8 << bit_offset) != 0
}

impl<'a, 'b> Row<'a, RowRef<'b>> {
    /// The number of fields of the row.
    pub closed spec fn num_fields(&self) -> nat {
        self.schema.spec_fields().len()
    }

    /// The type of field `f`.
    pub closed spec fn field_ty(&self, f: int) -> ConcreteTy {
        self.schema.spec_fields()[f].ty
    }

    /// Whether field `f` is present.
    pub closed spec fn present(&self, f: int) -> bool {
        field_present(self.schema.spec_bitfield_len(), self.data.bytes.bytes(), self.data.base as int, f)
    }

    /// The value held by field `f` (the zero value if it is absent).
    pub closed spec fn value(&self, f: int) -> FieldValue {
        self.data.cells@[f]
    }

    /// The row is well formed.
    pub closed spec fn wf(&self) -> bool {
        &&& self.data.bytes.wf()
        &&& row_wf(self.schema, self.data.bytes.bytes(), self.data.cells@, self.data.base as int)
    }

    /// Whether the field at `field_idx` is present.
    pub fn has_field(&self, field_idx: usize) -> (r: bool)
        requires
            self.wf(),
            field_idx < self.num_fields(),
        ensures
            r == self.present(field_idx as int),
    {
        has_field_at(self.schema, self.data.bytes, self.data.base, field_idx)
    }

    /// The value of the field at `field_idx` if it is present. The field must
    /// have the type of `T`.
    pub fn get<T: Reflect>(&self, field_idx: usize) -> (r: Option<&'b T>)
        requires
            self.wf(),
            field_idx < self.num_fields(),
            self.field_ty(field_idx as int) == T::CONCRETE_TY,
        ensures
            r is Some <==> self.present(field_idx as int),
            r matches Some(x) ==> x.embed() == self.value(field_idx as int),
    {
        // verify that the type tag matches
        check_type(self.schema.fields[field_idx].ty, T::CONCRETE_TY);
        if self.has_field(field_idx) {
            let cells: &'b Vec<FieldValue> = self.data.cells;
            T::ref_field(&cells[field_idx])
        } else {
            None
        }
    }
}


/// Sets bit `k` of byte `i`.
fn set_bit_at(bytes: &mut AlignedBytes, i: usize, k: u8)
    requires
        i < old(bytes).bytes().len(),
        k < 8,
    ensures
        final(bytes).spec_layout() == old(bytes).spec_layout(),
        old(bytes).wf() ==> final(bytes).wf(),
        final(bytes).bytes() == old(bytes).bytes().update(i as int, old(bytes).bytes()[i as int] | (1u8 << k)),
{
    let b = bytes.byte(i);
    bytes.set_byte(i, b | (1u8 << k));
}

/// Clears bit `k` of byte `i`.
fn clear_bit_at(bytes: &mut AlignedBytes, i: usize, k: u8)
    requires
        i < old(bytes).bytes().len(),
        k < 8,
    ensures
        final(bytes).spec_layout() == old(bytes).spec_layout(),
        old(bytes).wf() ==> final(bytes).wf(),
        final(bytes).bytes() == old(bytes).bytes().update(i as int, old(bytes).bytes()[i as int] & !(1u8 << k)),
{
    let b = bytes.byte(i);
    bytes.set_byte(i, b & !(1u8 << k));
}

/// After the occupancy bit of `field_idx` is set (`set`) or cleared, that
/// field is present (or absent) and every other field of the row keeps its
/// presence.
proof fn lemma_presence_update(
    schema: &RowSchema,
    old_bytes: Seq<u8>,
    new_bytes: Seq<u8>,
    base: int,
    field_idx: int,
    set: bool,
)
    requires
        schema.wf(),
        schema.spec_bitfield_len() > 0,
        0 <= field_idx < schema.spec_fields().len(),
        0 <= base,
        base + schema.spec_layout().spec_size() <= old_bytes.len(),
        new_bytes == old_bytes.update(
            base + field_idx / 8,
            if set {
                old_bytes[base + field_idx / 8] | (1u8 << ((field_idx % 8) as u8))
            } else {
                old_bytes[base + field_idx / 8] & !(1u8 << ((field_idx % 8) as u8))
            },
        ),
    ensures
        forall|f: int|
            0 <= f < schema.spec_fields().len() ==> #[trigger] field_present(
                schema.spec_bitfield_len(),
                new_bytes,
                base,
                f,
            ) == if f == field_idx {
                set
            } else {
                field_present(schema.spec_bitfield_len(), old_bytes, base, f)
            },
{
    lemma_bit_byte_in_row(schema, field_idx);
    assert forall|f: int| 0 <= f < schema.spec_fields().len() implies #[trigger] field_present(
        schema.spec_bitfield_len(),
        new_bytes,
        base,
        f,
    ) == if f == field_idx {
        set
    } else {
        field_present(schema.spec_bitfield_len(), old_bytes, base, f)
    } by {
        lemma_bit_byte_in_row(schema, f);
        let k = (field_idx % 8) as u8;
        let j = (f % 8) as u8;
        let b = old_bytes[base + field_idx / 8];
        if f / 8 == field_idx / 8 {
            assert(f == field_idx <==> j == k);
            if set {
                lemma_set_bit(b, k, j);
            } else {
                lemma_clear_bit(b, k, j);
            }
        }
    }
}

/// An exclusive view of one row.
pub struct RowMut<'a> {
    pub bytes: &'a mut AlignedBytes,
    pub cells: &'a mut Vec<FieldValue>,
    pub base: usize,
}

impl<'a, 'b> Row<'a, RowMut<'b>> {
    /// The number of fields of the row.
    pub open spec fn num_fields(&self) -> nat {
        self.schema.spec_fields().len()
    }

    /// The type of field `f`.
    pub open spec fn field_ty(&self, f: int) -> ConcreteTy {
        self.schema.spec_fields()[f].ty
    }

    /// Whether the schema records presence in an occupancy bitfield.
    pub open spec fn has_bitfield(&self) -> bool {
        self.schema.spec_bitfield_len() > 0
    }

    /// Whether field `f` is present.
    pub open spec fn present(&self, f: int) -> bool {
        field_present(self.schema.spec_bitfield_len(), self.data.bytes.bytes(), self.data.base as int, f)
    }

    /// The value held by field `f` (the zero value if it is absent).
    pub open spec fn value(&self, f: int) -> FieldValue {
        self.data.cells@[f]
    }

    /// The row is well formed.
    pub open spec fn wf(&self) -> bool {
        &&& self.data.bytes.wf()
        &&& row_wf(self.schema, self.data.bytes.bytes(), self.data.cells@, self.data.base as int)
    }

    /// `self` is the same row as `other`, of the same schema, in the same
    /// buffer, and the bytes of the buffer outside this row are unchanged.
    pub open spec fn same_place(&self, other: &Self) -> bool {
        &&& self.schema == other.schema
        &&& self.data.base == other.data.base
        &&& self.data.bytes.spec_layout() == other.data.bytes.spec_layout()
        &&& self.data.bytes.bytes().len() == other.data.bytes.bytes().len()
        &&& forall|i: int|
            0 <= i < self.data.bytes.bytes().len() && !(self.data.base <= i < self.data.base
                + self.schema.spec_layout().spec_size()) ==> #[trigger] self.data.bytes.bytes()[i]
                == other.data.bytes.bytes()[i]
    }

    /// Field `field_idx` is the only one whose presence or value may differ
    /// between `self` and `other`.
    pub open spec fn others_unchanged(&self, other: &Self, field_idx: int) -> bool {
        forall|f: int|
            0 <= f < self.num_fields() && f != field_idx ==> #[trigger] self.present(f) == other.present(
                f,
            ) && self.value(f) == other.value(f)
    }

    /// Reading field `f` gives `r`: its value if it is present, `None`
    /// otherwise.
    pub open spec fn reads(&self, f: int, r: Option<FieldValue>) -> bool {
        r == if self.present(f) {
            Some(self.value(f))
        } else {
            None
        }
    }

    /// `self` is `before` with `v` written into field `f`.
    pub open spec fn written_from(&self, before: &Self, f: int, v: FieldValue) -> bool {
        &&& self.wf()
        &&& self.same_place(before)
        &&& self.others_unchanged(before, f)
        &&& self.present(f)
        &&& self.value(f) == v
    }

    /// `self` is `before` with field `f` taken out, which gave `r`: the field
    /// is left absent, holding its zero value.
    pub open spec fn taken_from(&self, before: &Self, f: int, r: Option<FieldValue>) -> bool {
        &&& before.reads(f, r)
        &&& self.wf()
        &&& self.same_place(before)
        &&& self.others_unchanged(before, f)
        &&& !self.present(f)
        &&& is_zero_value(self.value(f))
    }

    /// Whether the field at `field_idx` is present.
    pub fn has_field(&self, field_idx: usize) -> (r: bool)
        requires
            self.wf(),
            field_idx < self.num_fields(),
        ensures
            r == self.present(field_idx as int),
    {
        has_field_at(self.schema, self.data.bytes, self.data.base, field_idx)
    }

    /// The value of the field at `field_idx` if it is present. The field must
    /// have the type of `T`.
    pub fn get<T: Reflect>(&self, field_idx: usize) -> (r: Option<&T>)
        requires
            self.wf(),
            field_idx < self.num_fields(),
            self.field_ty(field_idx as int) == T::CONCRETE_TY,
        ensures
            r is Some <==> self.present(field_idx as int),
            r matches Some(x) ==> x.embed() == self.value(field_idx as int),
            self.reads(
                field_idx as int,
                match r {
                    Some(x) => Some(x.embed()),
                    None => None,
                },
            ),
    {
        check_type(self.schema.fields[field_idx].ty, T::CONCRETE_TY);
        if self.has_field(field_idx) {
            T::ref_field(&self.data.cells[field_idx])
        } else {
            None
        }
    }

    /// A mutable reference to the value of the field at `field_idx` if it is
    /// present. The field must have the type of `T`.
    pub fn get_mut<T: Reflect>(&mut self, field_idx: usize) -> (r: Option<&mut T>)
        requires
            old(self).wf(),
            field_idx < old(self).num_fields(),
            old(self).field_ty(field_idx as int) == T::CONCRETE_TY,
        ensures
            *final(final(self).data.bytes) == *final(old(self).data.bytes),
            *final(final(self).data.cells) == *final(old(self).data.cells),
            r is Some <==> old(self).present(field_idx as int),
            r is None ==> *final(self) == *old(self),
            r matches Some(x) ==> {
                &&& (*x).embed() == old(self).value(field_idx as int)
                &&& final(self).value(field_idx as int) == (*final(x)).embed()
                &&& final(self).present(field_idx as int)
                &&& final(self).wf()
                &&& final(self).same_place(old(self))
                &&& final(self).others_unchanged(old(self), field_idx as int)
            },
    {
        check_type(self.schema.fields[field_idx].ty, T::CONCRETE_TY);
        if has_field_at(self.schema, self.data.bytes, self.data.base, field_idx) {
            let cell = vec_cell_mut(self.data.cells, field_idx);
            T::mut_field(cell)
        } else {
            None
        }
    }
}

impl<'a, 'b> Row<'a, RowMut<'b>> {
    /// Writes `value` into the field at `field_idx`, which must be absent
    /// and of the type of `T`, and marks it present.
    pub fn insert<T: Reflect>(&mut self, field_idx: usize, value: T)
        requires
            old(self).wf(),
            field_idx < old(self).num_fields(),
            old(self).field_ty(field_idx as int) == T::CONCRETE_TY,
            !old(self).present(field_idx as int),
        ensures
            *final(final(self).data.bytes) == *final(old(self).data.bytes),
            *final(final(self).data.cells) == *final(old(self).data.cells),
            final(self).wf(),
            final(self).same_place(old(self)),
            final(self).others_unchanged(old(self), field_idx as int),
            final(self).present(field_idx as int),
            final(self).value(field_idx as int) == value.embed(),
            final(self).written_from(old(self), field_idx as int, value.embed()),
    {
        check_type(self.schema.fields[field_idx].ty, T::CONCRETE_TY);
        // a present field is never overwritten
        if has_field_at(self.schema, self.data.bytes, self.data.base, field_idx) {
            None::<()>.expect(index_message("field at index ", field_idx, " is already present").as_str());
        }
        let v = value.into_field();
        self.data.cells.set(field_idx, v);
        self.mark_present(field_idx);
        proof {
            assert forall|f: int| 0 <= f < self.num_fields() && f != field_idx implies #[trigger] self.present(f)
                == old(self).present(f) && self.value(f) == old(self).value(f) by {}
            assert forall|f: int| 0 <= f < self.data.cells@.len() implies {
                &&& value_ty(#[trigger] self.data.cells@[f]) == self.schema.spec_fields()[f].ty
                &&& !field_present(self.schema.spec_bitfield_len(), self.data.bytes.bytes(), self.data.base as int, f)
                    ==> is_zero_value(self.data.cells@[f])
            } by {
                if f != field_idx {
                    assert(self.present(f) == old(self).present(f));
                    assert(self.value(f) == old(self).value(f));
                }
            }
        }
    }

    /// Marks the field at `field_idx` present without writing it. The field's
    /// type must be valid at the zero bit pattern: an absent field then holds
    /// its zero value, and a present one keeps its value.
    pub fn insert_zeroable(&mut self, field_idx: usize)
        requires
            old(self).wf(),
            field_idx < old(self).num_fields(),
            spec_is_zeroable(old(self).field_ty(field_idx as int)),
        ensures
            *final(final(self).data.bytes) == *final(old(self).data.bytes),
            *final(final(self).data.cells) == *final(old(self).data.cells),
            final(self).wf(),
            final(self).same_place(old(self)),
            final(self).others_unchanged(old(self), field_idx as int),
            final(self).present(field_idx as int),
            final(self).value(field_idx as int) == old(self).value(field_idx as int),
            !old(self).present(field_idx as int) ==> is_zero_value(final(self).value(field_idx as int)),
    {
        let type_info = self.schema.fields[field_idx].ty.info();
        if !type_info.is_zeroable {
            None::<()>.expect(index_message("field at index ", field_idx, " is not zeroable").as_str());
        }
        self.mark_present(field_idx);
        proof {
            assert forall|f: int| 0 <= f < self.num_fields() && f != field_idx implies #[trigger] self.present(f)
                == old(self).present(f) && self.value(f) == old(self).value(f) by {}
            assert forall|f: int| 0 <= f < self.data.cells@.len() implies {
                &&& value_ty(#[trigger] self.data.cells@[f]) == self.schema.spec_fields()[f].ty
                &&& !field_present(self.schema.spec_bitfield_len(), self.data.bytes.bytes(), self.data.base as int, f)
                    ==> is_zero_value(self.data.cells@[f])
            } by {
                if f != field_idx {
                    assert(self.present(f) == old(self).present(f));
                    assert(self.value(f) == old(self).value(f));
                }
            }
        }
    }

    /// Takes the value out of the field at `field_idx`, leaving it absent;
    /// `None` if it was absent. The field must have the type of `T`, and the
    /// schema must record presence in a bitfield.
    pub fn take<T: Reflect>(&mut self, field_idx: usize) -> (r: Option<T>)
        requires
            old(self).wf(),
            field_idx < old(self).num_fields(),
            old(self).field_ty(field_idx as int) == T::CONCRETE_TY,
            old(self).has_bitfield(),
        ensures
            *final(final(self).data.bytes) == *final(old(self).data.bytes),
            *final(final(self).data.cells) == *final(old(self).data.cells),
            r is Some <==> old(self).present(field_idx as int),
            r is None ==> *final(self) == *old(self),
            r matches Some(x) ==> x.embed() == old(self).value(field_idx as int),
            final(self).wf(),
            final(self).same_place(old(self)),
            final(self).others_unchanged(old(self), field_idx as int),
            !final(self).present(field_idx as int),
            is_zero_value(final(self).value(field_idx as int)),
            final(self).taken_from(
                old(self),
                field_idx as int,
                match r {
                    Some(x) => Some(x.embed()),
                    None => None,
                },
            ),
    {
        check_type(self.schema.fields[field_idx].ty, T::CONCRETE_TY);
        if self.schema.occupancy_bitfield_len == 0 {
            None::<()>.expect("cannot take a field if the occupancy bitfield is omitted");
        }
        if !has_field_at(self.schema, self.data.bytes, self.data.base, field_idx) {
            return None;
        }
        let v = self.mark_absent(field_idx);
        T::from_field(v)
    }

    /// Sets the occupancy bit of the field at `field_idx`; nothing to do if
    /// the schema omits the bitfield.
    fn mark_present(&mut self, field_idx: usize)
        requires
            old(self).data.bytes.wf(),
            old(self).schema.wf(),
            old(self).data.base + old(self).schema.spec_layout().spec_size() <= old(self).data.bytes.bytes().len(),
            field_idx < old(self).num_fields(),
        ensures
            *final(final(self).data.bytes) == *final(old(self).data.bytes),
            *final(final(self).data.cells) == *final(old(self).data.cells),
            final(self).data.bytes.wf(),
            final(self).data.cells@ == old(self).data.cells@,
            final(self).same_place(old(self)),
            final(self).present(field_idx as int),
            forall|f: int|
                0 <= f < old(self).num_fields() && f != field_idx ==> #[trigger] final(self).present(f)
                    == old(self).present(f),
    {
        // handle the case where the occupancy bitfield is omitted due to
        // always-present fields
        if self.schema.occupancy_bitfield_len == 0 {
            return;
        }
        proof {
            lemma_bit_byte_in_row(self.schema, field_idx as int);
        }
        let byte_offset = field_idx / 8;
        let bit_offset = (field_idx % 8) as u8;
        set_bit_at(self.data.bytes, self.data.base + byte_offset, bit_offset);
        proof {
            lemma_presence_update(
                self.schema,
                old(self).data.bytes.bytes(),
                self.data.bytes.bytes(),
                self.data.base as int,
                field_idx as int,
                true,
            );
        }
    }

    /// Clears the occupancy bit of the field at `field_idx` and resets the
    /// field to its zero value, returning the value it held.
    fn mark_absent(&mut self, field_idx: usize) -> (r: FieldValue)
        requires
            old(self).wf(),
            old(self).has_bitfield(),
            field_idx < old(self).num_fields(),
        ensures
            *final(final(self).data.bytes) == *final(old(self).data.bytes),
            *final(final(self).data.cells) == *final(old(self).data.cells),
            r == old(self).value(field_idx as int),
            final(self).wf(),
            final(self).same_place(old(self)),
            final(self).others_unchanged(old(self), field_idx as int),
            !final(self).present(field_idx as int),
            is_zero_value(final(self).value(field_idx as int)),
            value_ty(final(self).value(field_idx as int)) == old(self).field_ty(field_idx as int),
    {
        clear_field(self.schema, self.data.bytes, self.data.cells, self.data.base, field_idx)
    }
}

/// What is written into a field reads back: after `insert` wrote `v` into
/// field `f`, reading the field gives `v`; taking it out then gives `v`
/// back and leaves the field absent, so that it reads as absent; and every
/// other field holds what it held before the write.
pub proof fn law_take_returns_inserted<'a, 'b>(
    before: Row<'a, RowMut<'b>>,
    written: Row<'a, RowMut<'b>>,
    after: Row<'a, RowMut<'b>>,
    f: int,
    v: FieldValue,
    r: Option<FieldValue>,
)
    requires
        0 <= f < before.num_fields(),
        written.written_from(&before, f, v),
        after.taken_from(&written, f, r),
    ensures
        written.reads(f, Some(v)),
        r == Some(v),
        after.reads(f, None),
        forall|g: int|
            0 <= g < before.num_fields() && g != f ==> #[trigger] after.present(g) == before.present(g)
                && after.value(g) == before.value(g),
{
    assert forall|g: int| 0 <= g < before.num_fields() && g != f implies #[trigger] after.present(g)
        == before.present(g) && after.value(g) == before.value(g) by {
        assert(written.present(g) == before.present(g));
        assert(after.present(g) == written.present(g));
    }
}

/// Marks field `field_idx` of the row at `base` absent in its occupancy
/// bitfield and resets the field to its zero value, returning the value it
/// held.
fn clear_field(
    schema: &RowSchema,
    bytes: &mut AlignedBytes,
    cells: &mut Vec<FieldValue>,
    base: usize,
    field_idx: usize,
) -> (r: FieldValue)
    requires
        old(bytes).wf(),
        row_wf(schema, old(bytes).bytes(), old(cells)@, base as int),
        schema.spec_bitfield_len() > 0,
        field_idx < schema.spec_fields().len(),
    ensures
        r == old(cells)@[field_idx as int],
        final(bytes).wf(),
        final(bytes).spec_layout() == old(bytes).spec_layout(),
        final(bytes).bytes() == old(bytes).bytes().update(
            base + field_idx / 8,
            old(bytes).bytes()[base + field_idx / 8] & !(1u8 << ((field_idx % 8) as u8)),
        ),
        row_wf(schema, final(bytes).bytes(), final(cells)@, base as int),
        final(cells)@.len() == old(cells)@.len(),
        forall|f: int|
            0 <= f < old(cells)@.len() && f != field_idx ==> #[trigger] final(cells)@[f] == old(cells)@[f],
        is_zero_value(final(cells)@[field_idx as int]),
        !field_present(schema.spec_bitfield_len(), final(bytes).bytes(), base as int, field_idx as int),
        forall|f: int|
            0 <= f < schema.spec_fields().len() && f != field_idx ==> #[trigger] field_present(
                schema.spec_bitfield_len(),
                final(bytes).bytes(),
                base as int,
                f,
            ) == field_present(schema.spec_bitfield_len(), old(bytes).bytes(), base as int, f),
{
    proof {
        lemma_bit_byte_in_row(schema, field_idx as int);
    }
    let byte_offset = field_idx / 8;
    let bit_offset = (field_idx % 8) as u8;
    clear_bit_at(bytes, base + byte_offset, bit_offset);
    proof {
        lemma_presence_update(schema, old(bytes).bytes(), bytes.bytes(), base as int, field_idx as int, false);
    }
    // reset the field to its zero value
    let mut v = schema.fields[field_idx].ty.zero_value();
    let cell = vec_cell_mut(cells, field_idx);
    core::mem::swap(cell, &mut v);
    proof {
        assert forall|f: int| 0 <= f < cells@.len() implies {
            &&& value_ty(#[trigger] cells@[f]) == schema.spec_fields()[f].ty
            &&& !field_present(schema.spec_bitfield_len(), bytes.bytes(), base as int, f) ==> is_zero_value(
                cells@[f],
            )
        } by {
            if f != field_idx {
                assert(field_present(schema.spec_bitfield_len(), bytes.bytes(), base as int, f)
                    == field_present(schema.spec_bitfield_len(), old(bytes).bytes(), base as int, f));
            }
        }
    }
    v
}

/// The text `prefix`, then the decimal digits of `idx`, then `suffix`.
fn index_message(prefix: &str, idx: usize, suffix: &str) -> (r: String)
    ensures
        r@ == prefix@ + decimal(idx as nat) + suffix@,
{
    let mut m = String::from_str(prefix);
    write_decimal(&mut m, idx);
    m.append(suffix);
    m
}

/// A mutable reference to element `i`.
pub(crate) fn vec_cell_mut<T>(v: &mut Vec<T>, i: usize) -> (r: &mut T)
    requires
        i < old(v).len(),
    ensures
        *r == old(v)@[i as int],
        final(v)@ == old(v)@.update(i as int, *final(r)),
{
    &mut v[i]
}


/// Rows of a fixed schema, stored one after another: the bytes of each row
/// start with its occupancy bitfield, and the values of its fields are held
/// beside the bytes.
#[derive(Debug)]
pub struct RowBuffer {
    /// The bytes of the rows.
    bytes: AlignedBytes,
    /// The values of the fields of each row.
    cells: Vec<Vec<FieldValue>>,
    /// The structure of each row in the array.
    schema: RowSchema,
}

/// `r * stride` and `(r + 1) * stride` fit in `n * stride` for a row `r`
/// below `n`.
proof fn lemma_row_in_bounds(r: int, n: int, stride: int)
    requires
        0 <= r < n,
        0 <= stride,
    ensures
        0 <= r * stride,
        r * stride + stride <= n * stride,
{
    assert(0 <= r * stride) by (nonlinear_arith)
        requires
            0 <= r,
            0 <= stride,
    ;
    assert(r * stride + stride <= n * stride) by (nonlinear_arith)
        requires
            r < n,
            0 <= stride,
    ;
}

/// Bytes of two different rows never coincide.
proof fn lemma_rows_disjoint(r1: int, r2: int, x: int, y: int, stride: int)
    requires
        r1 != r2,
        0 <= r1,
        0 <= r2,
        0 <= x < stride,
        0 <= y < stride,
    ensures
        r1 * stride + x != r2 * stride + y,
{
    if r1 < r2 {
        assert(r1 * stride + stride <= r2 * stride) by (nonlinear_arith)
            requires
                r1 < r2,
                0 <= stride,
        ;
    } else {
        assert(r2 * stride + stride <= r1 * stride) by (nonlinear_arith)
            requires
                r2 < r1,
                0 <= stride,
        ;
    }
}

/// A multiple of a multiple of `a` is a multiple of `a`.
proof fn lemma_multiple_of_aligned(k: int, s: int, a: int)
    requires
        a > 0,
        s % a == 0,
    ensures
        (k * s) % a == 0,
{
    vstd::arithmetic::div_mod::lemma_fundamental_div_mod(s, a);
    let q = s / a;
    assert(k * s == (k * q) * a) by (nonlinear_arith)
        requires
            s == a * q,
    ;
    vstd::arithmetic::div_mod::lemma_mod_multiples_basic(k * q, a);
}

/// No bit of a zero byte is set.
proof fn lemma_zero_byte(k: u8)
    requires
        k < 8,
    ensures
        !bit_set(0u8, k),
{
    assert(0u8 & (1u8 << k) == 0u8) by (bit_vector);
}

/// A row whose fields all hold their zero values.
pub open spec fn zero_row(schema: &RowSchema, cells: Seq<FieldValue>) -> bool {
    &&& cells.len() == schema.spec_fields().len()
    &&& forall|f: int|
        0 <= f < cells.len() ==> value_ty(#[trigger] cells[f]) == schema.spec_fields()[f].ty
            && is_zero_value(cells[f])
}

/// The values of a row whose fields all hold their zero values.
fn zero_values(schema: &RowSchema) -> (r: Vec<FieldValue>)
    ensures
        zero_row(schema, r@),
{
    let mut v: Vec<FieldValue> = Vec::new();
    let n = schema.fields.len();
    let mut f: usize = 0;
    while f < n
        invariant
            f <= n,
            n == schema.spec_fields().len(),
            v@.len() == f,
            forall|g: int|
                0 <= g < f ==> value_ty(#[trigger] v@[g]) == schema.spec_fields()[g].ty && is_zero_value(v@[g]),
        decreases n - f,
    {
        v.push(schema.fields[f].ty.zero_value());
        f = f + 1;
    }
    v
}

impl RowBuffer {
    /// The schema of the rows.
    pub closed spec fn spec_schema(&self) -> RowSchema {
        self.schema
    }

    /// The number of rows.
    pub open spec fn spec_num_rows(&self) -> nat {
        self.spec_cells().len()
    }

    /// The bytes of the rows.
    pub closed spec fn spec_bytes(&self) -> AlignedBytes {
        self.bytes
    }

    /// The values of the fields of each row.
    pub closed spec fn spec_cells(&self) -> Seq<Vec<FieldValue>> {
        self.cells@
    }

    /// Whether field `f` of row `r` is present.
    pub open spec fn present(&self, r: int, f: int) -> bool {
        field_present(
            self.spec_schema().spec_bitfield_len(),
            self.spec_bytes().bytes(),
            r * self.spec_schema().spec_layout().spec_size(),
            f,
        )
    }

    /// The value held by field `f` of row `r` (the zero value if it is
    /// absent).
    pub open spec fn value(&self, r: int, f: int) -> FieldValue {
        self.spec_cells()[r]@[f]
    }

    /// The invariant of the buffer: one row of bytes per row of values, each
    /// row well formed.
    pub closed spec fn wf(&self) -> bool {
        &&& self.schema.wf()
        &&& self.schema.spec_layout().spec_size() > 0
        &&& self.bytes.wf()
        &&& self.bytes.spec_layout().spec_align() == self.schema.spec_layout().spec_align()
        &&& self.bytes.bytes().len() == self.cells.len() * self.schema.spec_layout().spec_size()
        &&& forall|r: int|
            0 <= r < self.cells.len() ==> row_wf(
                &self.schema,
                self.bytes.bytes(),
                #[trigger] self.cells@[r]@,
                r * self.schema.spec_layout().spec_size(),
            )
    }

    /// Every row from `from` on is empty: its fields hold their zero values,
    /// and are present exactly when the schema omits the bitfield.
    pub open spec fn empty_from(&self, from: int) -> bool {
        forall|r: int, f: int|
            from <= r < self.spec_num_rows() && 0 <= f < self.spec_schema().spec_fields().len() ==> {
                &&& #[trigger] self.present(r, f) == (self.spec_schema().spec_bitfield_len() == 0)
                &&& is_zero_value(self.value(r, f))
            }
    }

    /// A zeroed block of bytes for `num_rows` rows, laid out one after
    /// another at the schema's stride.
    fn make_byte_buffer(schema: &RowSchema, num_rows: usize) -> (r: AlignedBytes)
        requires
            schema.wf(),
            schema.spec_layout().spec_size() > 0,
            num_rows >= 1,
            layout_ok(num_rows * schema.spec_layout().spec_size(), schema.spec_layout().spec_align() as int),
        ensures
            r.wf(),
            r.spec_layout().spec_align() == schema.spec_layout().spec_align(),
            r.spec_layout().spec_size() == num_rows * schema.spec_layout().spec_size(),
            r.bytes() == Seq::new(r.spec_layout().spec_size(), |i: int| 0u8),
    {
        let ghost s = schema.spec_layout().spec_size() as int;
        let ghost a = schema.spec_layout().spec_align() as int;
        let mut total_layout = schema.layout;
        let mut stride: Option<usize> = None;
        let mut k: usize = 1;
        while k < num_rows
            invariant
                1 <= k <= num_rows,
                schema.wf(),
                s == schema.spec_layout().spec_size(),
                a == schema.spec_layout().spec_align(),
                s > 0,
                layout_ok(num_rows * s, a),
                total_layout.valid(),
                total_layout.spec_size() == k * s,
                total_layout.spec_align() == a,
                k == 1 ==> stride is None,
                k > 1 ==> stride == Some(s as usize),
            decreases num_rows - k,
        {
            proof {
                lemma_multiple_of_aligned(k as int, s, a);
                assert((k + 1) * s <= num_rows * s) by (nonlinear_arith)
                    requires
                        k + 1 <= num_rows,
                        s > 0,
                ;
                assert((k + 1) * s == k * s + s) by (nonlinear_arith);
            }
            let (new_layout, offset_of_last_elem) = total_layout.extend(schema.layout).unwrap();
            total_layout = new_layout;
            match stride {
                Some(st) => {
                    // every row starts at a multiple of the stride
                    assert(offset_of_last_elem % st == 0) by (nonlinear_arith)
                        requires
                            offset_of_last_elem == k * s,
                            st == s,
                            s > 0,
                    ;
                },
                None => {
                    stride = Some(offset_of_last_elem);
                },
            }
            k = k + 1;
        }
        total_layout = total_layout.pad_to_align();
        proof {
            lemma_multiple_of_aligned(num_rows as int, s, a);
            assert(num_rows * s > 0) by (nonlinear_arith)
                requires
                    num_rows >= 1,
                    s > 0,
            ;
        }
        // this must be true because the layout size is used as the stride
        // in the other methods
        assert(stride matches Some(st) ==> schema.layout.spec_size() == st);
        AlignedBytes::new(total_layout)
    }

    /// Creates a buffer with some initial number of rows. See
    /// [`Self::new_with_capacity`].
    pub fn new(schema: RowSchema) -> (r: Self)
        requires
            schema.wf(),
            schema.spec_layout().spec_size() > 0,
            layout_ok(100 * schema.spec_layout().spec_size() as int, schema.spec_layout().spec_align() as int),
            schema.spec_bitfield_len() == 0 ==> forall|f: int|
                0 <= f < schema.spec_fields().len() ==> spec_is_zeroable(#[trigger] schema.spec_fields()[f].ty),
        ensures
            r.wf(),
            r.spec_schema() == schema,
            r.spec_num_rows() == 100,
            r.empty_from(0),
    {
        // arbitrary initial size
        let num_rows: usize = 100;
        Self::new_with_capacity(schema, num_rows)
    }

    /// Creates a buffer of `num_rows` empty rows (of one row when `num_rows`
    /// is 0, the least a buffer holds). When the schema omits the
    /// occupancy bitfield, every field is always present, so every field type
    /// must be valid at the zero bit pattern.
    pub fn new_with_capacity(schema: RowSchema, num_rows: usize) -> (r: Self)
        requires
            schema.wf(),
            schema.spec_layout().spec_size() > 0,
            layout_ok(
                (if num_rows == 0 { 1 } else { num_rows as int }) * schema.spec_layout().spec_size(),
                schema.spec_layout().spec_align() as int,
            ),
            schema.spec_bitfield_len() == 0 ==> forall|f: int|
                0 <= f < schema.spec_fields().len() ==> spec_is_zeroable(#[trigger] schema.spec_fields()[f].ty),
        ensures
            r.wf(),
            r.spec_schema() == schema,
            r.spec_num_rows() == if num_rows == 0 { 1 } else { num_rows as nat },
            r.empty_from(0),
    {
        let num_rows: usize = if num_rows == 0 { 1 } else { num_rows };
        // if the fields are always present, they must be valid at the zero
        // bit pattern
        if schema.occupancy_bitfield_len == 0 {
            let mut field_idx: usize = 0;
            while field_idx < schema.fields.len()
                invariant
                    schema.spec_bitfield_len() == 0 ==> forall|f: int|
                        0 <= f < schema.spec_fields().len() ==> spec_is_zeroable(
                            #[trigger] schema.spec_fields()[f].ty,
                        ),
                    schema.spec_bitfield_len() == 0,
                decreases schema.spec_fields().len() - field_idx,
            {
                if !schema.fields[field_idx].ty.info().is_zeroable {
                    None::<()>.expect(
                        index_message(
                            "cannot initialize an always-present row buffer when field at index ",
                            field_idx,
                            " is not zeroable",
                        ).as_str(),
                    );
                }
                field_idx = field_idx + 1;
            }
        }
        let bytes = Self::make_byte_buffer(&schema, num_rows);
        let mut cells: Vec<Vec<FieldValue>> = Vec::new();
        let ghost s = schema.spec_layout().spec_size() as int;
        let mut k: usize = 0;
        while k < num_rows
            invariant
                k <= num_rows,
                schema.wf(),
                s == schema.spec_layout().spec_size(),
                s > 0,
                bytes.wf(),
                bytes.bytes() == Seq::new(bytes.spec_layout().spec_size(), |i: int| 0u8),
                bytes.bytes().len() == num_rows * s,
                cells@.len() == k,
                forall|r: int| 0 <= r < k ==> zero_row(&schema, #[trigger] cells@[r]@),
            decreases num_rows - k,
        {
            cells.push(zero_values(&schema));
            k = k + 1;
        }
        let r = RowBuffer { bytes, cells, schema };
        proof {
            assert forall|row: int, f: int|
                0 <= row < num_rows && 0 <= f < r.schema.spec_fields().len() implies #[trigger] r.present(row, f)
                == (r.schema.spec_bitfield_len() == 0) && zero_row(&r.schema, r.cells@[row]@) by {
                lemma_row_in_bounds(row, num_rows as int, s);
                if r.schema.spec_bitfield_len() > 0 {
                    lemma_bit_byte_in_row(&r.schema, f);
                    lemma_zero_byte((f % 8) as u8);
                }
            }
            assert forall|row: int| 0 <= row < r.cells.len() implies row_wf(
                &r.schema,
                r.bytes.bytes(),
                #[trigger] r.cells@[row]@,
                row * s,
            ) by {
                lemma_row_in_bounds(row, num_rows as int, s);
                assert(zero_row(&r.schema, r.cells@[row]@));
            }
        }
        r
    }

    /// The number of rows.
    pub fn num_rows(&self) -> (r: usize)
        requires
            self.wf(),
        ensures
            r == self.spec_num_rows(),
    {
        proof {
            let n = self.cells.len() as int;
            let s = self.schema.spec_layout().spec_size() as int;
            assert((n * s) / s == n) by (nonlinear_arith)
                requires
                    s > 0,
            ;
        }
        self.bytes.len() / self.schema.layout.size()
    }

    /// The schema of the rows.
    pub fn schema(&self) -> (r: &RowSchema)
        ensures
            *r == self.spec_schema(),
    {
        &self.schema
    }

    /// A shared view of row `row_idx`, which must exist: call
    /// [`Self::ensure_capacity`] first if it may not.
    pub fn row(&self, row_idx: usize) -> (r: Row<'_, RowRef<'_>>)
        requires
            self.wf(),
            row_idx < self.spec_num_rows(),
        ensures
            r.wf(),
            r.num_fields() == self.spec_schema().spec_fields().len(),
            forall|f: int|
                0 <= f < r.num_fields() ==> {
                    &&& #[trigger] r.field_ty(f) == self.spec_schema().spec_fields()[f].ty
                    &&& r.present(f) == self.present(row_idx as int, f)
                    &&& r.value(f) == self.value(row_idx as int, f)
                },
            *r.schema == self.spec_schema(),
            r.data.base == row_idx * self.spec_schema().spec_layout().spec_size(),
            r.data.base + self.spec_schema().spec_layout().spec_size() <= self.spec_bytes().bytes().len(),
            *r.data.bytes == self.spec_bytes(),
            *r.data.cells == self.spec_cells()[row_idx as int],
    {
        proof {
            lemma_row_in_bounds(row_idx as int, self.cells.len() as int, self.schema.spec_layout().spec_size() as int);
            assert(row_wf(&self.schema, self.bytes.bytes(), self.cells@[row_idx as int]@, row_idx * self.schema.spec_layout().spec_size()));
        }
        let offset = row_idx * self.schema.layout.size();
        Row { schema: &self.schema, data: RowRef { bytes: &self.bytes, cells: &self.cells[row_idx], base: offset } }
    }

    /// An exclusive view of row `row_idx`, which must exist: call
    /// [`Self::ensure_capacity`] first if it may not. When the view is no
    /// longer used, the buffer holds the bytes and the values the view was
    /// left with; [`lemma_row_written_back`] tells what that means for the
    /// buffer's other rows.
    pub fn row_mut(&mut self, row_idx: usize) -> (r: Row<'_, RowMut<'_>>)
        requires
            old(self).wf(),
            row_idx < old(self).spec_num_rows(),
        ensures
            r.wf(),
            r.num_fields() == old(self).spec_schema().spec_fields().len(),
            r.has_bitfield() == (old(self).spec_schema().spec_bitfield_len() > 0),
            forall|f: int|
                0 <= f < r.num_fields() ==> {
                    &&& #[trigger] r.field_ty(f) == old(self).spec_schema().spec_fields()[f].ty
                    &&& r.present(f) == old(self).present(row_idx as int, f)
                    &&& r.value(f) == old(self).value(row_idx as int, f)
                },
            *r.schema == old(self).spec_schema(),
            r.data.base == row_idx * old(self).spec_schema().spec_layout().spec_size(),
            r.data.base + old(self).spec_schema().spec_layout().spec_size() <= old(self).spec_bytes().bytes().len(),
            *r.data.bytes == old(self).spec_bytes(),
            *r.data.cells == old(self).spec_cells()[row_idx as int],
            final(self).spec_schema() == old(self).spec_schema(),
            final(self).spec_bytes() == *final(r.data.bytes),
            final(self).spec_cells() == old(self).spec_cells().update(row_idx as int, *final(r.data.cells)),
    {
        proof {
            lemma_row_in_bounds(row_idx as int, self.cells.len() as int, self.schema.spec_layout().spec_size() as int);
            assert(row_wf(&self.schema, self.bytes.bytes(), self.cells@[row_idx as int]@, row_idx * self.schema.spec_layout().spec_size()));
        }
        let offset = row_idx * self.schema.layout.size();
        let cells = vec_cell_mut(&mut self.cells, row_idx);
        Row { schema: &self.schema, data: RowMut { bytes: &mut self.bytes, cells, base: offset } }
    }
}


/// The bytes `new` equal `old` outside the `len` bytes from `base`.
pub open spec fn same_outside(old: Seq<u8>, new: Seq<u8>, base: int, len: int) -> bool {
    &&& new.len() == old.len()
    &&& forall|i: int| 0 <= i < old.len() && !(base <= i < base + len) ==> #[trigger] new[i] == old[i]
}

/// The bytes `new` equal `old` outside row `row` of `stride` bytes.
pub open spec fn same_outside_row(old: Seq<u8>, new: Seq<u8>, row: int, stride: int) -> bool {
    &&& new.len() == old.len()
    &&& forall|i: int|
        0 <= i < old.len() && !(row * stride <= i < row * stride + stride) ==> #[trigger] new[i] == old[i]
}

/// Bytes that are unchanged outside row `row` leave the presence of the
/// fields of every other row unchanged.
proof fn lemma_other_rows_frame(schema: &RowSchema, old_bytes: Seq<u8>, new_bytes: Seq<u8>, row: int, r2: int)
    requires
        schema.wf(),
        same_outside_row(old_bytes, new_bytes, row, schema.spec_layout().spec_size() as int),
        0 <= row,
        0 <= r2,
        r2 != row,
        r2 * schema.spec_layout().spec_size() + schema.spec_layout().spec_size() <= old_bytes.len(),
    ensures
        forall|g: int|
            0 <= g < schema.spec_fields().len() ==> #[trigger] field_present(
                schema.spec_bitfield_len(),
                new_bytes,
                r2 * schema.spec_layout().spec_size(),
                g,
            ) == field_present(schema.spec_bitfield_len(), old_bytes, r2 * schema.spec_layout().spec_size(), g),
{
    let st = schema.spec_layout().spec_size() as int;
    if schema.spec_bitfield_len() > 0 {
        assert forall|g: int| 0 <= g < schema.spec_fields().len() implies #[trigger] field_present(
            schema.spec_bitfield_len(),
            new_bytes,
            r2 * st,
            g,
        ) == field_present(schema.spec_bitfield_len(), old_bytes, r2 * st, g) by {
            lemma_bit_byte_in_row(schema, g);
            let i = r2 * st + g / 8;
            if r2 < row {
                assert(r2 * st + st <= row * st) by (nonlinear_arith)
                    requires
                        r2 < row,
                        0 <= st,
                ;
            } else {
                assert(row * st + st <= r2 * st) by (nonlinear_arith)
                    requires
                        row < r2,
                        0 <= st,
                ;
            }
            assert(new_bytes[i] == old_bytes[i]);
        }
    }
}

/// Writing through one row: a buffer whose row `row_idx` was replaced by a
/// well formed row, with the bytes outside that row unchanged, is well
/// formed, and its other rows read as before.
pub proof fn lemma_row_written_back(old: &RowBuffer, new: &RowBuffer, row_idx: int)
    requires
        old.wf(),
        0 <= row_idx < old.spec_num_rows(),
        new.spec_schema() == old.spec_schema(),
        new.spec_cells() == old.spec_cells().update(row_idx, new.spec_cells()[row_idx]),
        new.spec_bytes().wf(),
        new.spec_bytes().spec_layout() == old.spec_bytes().spec_layout(),
        same_outside_row(
            old.spec_bytes().bytes(),
            new.spec_bytes().bytes(),
            row_idx,
            old.spec_schema().spec_layout().spec_size() as int,
        ),
        row_wf(
            &old.spec_schema(),
            new.spec_bytes().bytes(),
            new.spec_cells()[row_idx]@,
            row_idx * old.spec_schema().spec_layout().spec_size(),
        ),
    ensures
        new.wf(),
        new.spec_num_rows() == old.spec_num_rows(),
        forall|r: int, f: int|
            0 <= r < old.spec_num_rows() && r != row_idx && 0 <= f < old.spec_schema().spec_fields().len()
                ==> #[trigger] new.present(r, f) == old.present(r, f) && new.value(r, f) == old.value(r, f),
{
    let st = old.schema.spec_layout().spec_size() as int;
    assert forall|r: int| 0 <= r < new.cells.len() implies row_wf(
        &new.schema,
        new.bytes.bytes(),
        #[trigger] new.cells@[r]@,
        r * st,
    ) by {
        if r != row_idx {
            lemma_row_in_bounds(r, old.cells.len() as int, st);
            assert(row_wf(&old.schema, old.bytes.bytes(), old.cells@[r]@, r * st));
            lemma_other_rows_frame(&old.schema, old.bytes.bytes(), new.bytes.bytes(), row_idx, r);
            lemma_row_wf_frame(&old.schema, old.bytes.bytes(), new.bytes.bytes(), old.cells@[r]@, r * st);
        }
    }
    assert forall|r: int, f: int|
        0 <= r < old.spec_num_rows() && r != row_idx && 0 <= f < old.spec_schema().spec_fields().len()
            implies #[trigger] new.present(r, f) == old.present(r, f) && new.value(r, f) == old.value(r, f) by {
        lemma_row_in_bounds(r, old.cells.len() as int, st);
        lemma_other_rows_frame(&old.schema, old.bytes.bytes(), new.bytes.bytes(), row_idx, r);
    }
}

/// Reading back what was written: when a row view of `old` (as
/// [`RowBuffer::row_mut`] returns it) has `v` written into field `field`,
/// and the buffer `new` holds what the view was left with, field `field` of
/// that row is present in `new` and holds `v`, the other fields of the row
/// and every other row read as before, and `new` is well formed.
pub proof fn law_row_write_reads_back(
    old: &RowBuffer,
    new: &RowBuffer,
    before: &Row<RowMut>,
    after: &Row<RowMut>,
    row_idx: int,
    field: int,
    v: FieldValue,
)
    requires
        old.wf(),
        0 <= row_idx < old.spec_num_rows(),
        0 <= field < old.spec_schema().spec_fields().len(),
        *before.schema == old.spec_schema(),
        before.data.base == row_idx * old.spec_schema().spec_layout().spec_size(),
        *before.data.bytes == old.spec_bytes(),
        *before.data.cells == old.spec_cells()[row_idx],
        after.written_from(before, field, v),
        new.spec_schema() == old.spec_schema(),
        new.spec_bytes() == *after.data.bytes,
        new.spec_cells() == old.spec_cells().update(row_idx, *after.data.cells),
    ensures
        new.wf(),
        new.present(row_idx, field),
        new.value(row_idx, field) == v,
        forall|f: int|
            0 <= f < old.spec_schema().spec_fields().len() && f != field ==> #[trigger] new.present(row_idx, f)
                == old.present(row_idx, f) && new.value(row_idx, f) == old.value(row_idx, f),
        forall|r: int, f: int|
            0 <= r < old.spec_num_rows() && r != row_idx && 0 <= f < old.spec_schema().spec_fields().len()
                ==> #[trigger] new.present(r, f) == old.present(r, f) && new.value(r, f) == old.value(r, f),
{
    assert(new.spec_cells()[row_idx] == *after.data.cells);
    lemma_row_written_back(old, new, row_idx);
    assert forall|f: int|
        0 <= f < old.spec_schema().spec_fields().len() && f != field implies #[trigger] new.present(row_idx, f)
            == old.present(row_idx, f) && new.value(row_idx, f) == old.value(row_idx, f) by {
        assert(after.present(f) == before.present(f));
    }
}

/// Changing one byte of a row leaves the presence of the fields of every
/// other row unchanged.
proof fn lemma_update_other_row(
    schema: &RowSchema,
    old_bytes: Seq<u8>,
    new_bytes: Seq<u8>,
    row: int,
    x: int,
    r2: int,
)
    requires
        schema.wf(),
        schema.spec_bitfield_len() > 0,
        new_bytes.len() == old_bytes.len(),
        0 <= x < schema.spec_layout().spec_size(),
        forall|i: int| 0 <= i < old_bytes.len() && i != row * schema.spec_layout().spec_size() + x ==> new_bytes[i] == old_bytes[i],
        0 <= row,
        0 <= r2,
        r2 != row,
        0 <= r2 * schema.spec_layout().spec_size(),
        r2 * schema.spec_layout().spec_size() + schema.spec_layout().spec_size() <= old_bytes.len(),
    ensures
        forall|g: int|
            0 <= g < schema.spec_fields().len() ==> #[trigger] field_present(
                schema.spec_bitfield_len(),
                new_bytes,
                r2 * schema.spec_layout().spec_size(),
                g,
            ) == field_present(schema.spec_bitfield_len(), old_bytes, r2 * schema.spec_layout().spec_size(), g),
{
    let st = schema.spec_layout().spec_size() as int;
    assert forall|g: int| 0 <= g < schema.spec_fields().len() implies #[trigger] field_present(
        schema.spec_bitfield_len(),
        new_bytes,
        r2 * st,
        g,
    ) == field_present(schema.spec_bitfield_len(), old_bytes, r2 * st, g) by {
        lemma_bit_byte_in_row(schema, g);
        lemma_rows_disjoint(r2, row, g / 8, x, st);
    }
}

/// A row stays well formed when no field changes its presence.
proof fn lemma_row_wf_frame(schema: &RowSchema, b1: Seq<u8>, b2: Seq<u8>, cells: Seq<FieldValue>, base: int)
    requires
        row_wf(schema, b1, cells, base),
        b2.len() >= b1.len(),
        forall|f: int|
            0 <= f < schema.spec_fields().len() ==> #[trigger] field_present(schema.spec_bitfield_len(), b2, base, f)
                == field_present(schema.spec_bitfield_len(), b1, base, f),
    ensures
        row_wf(schema, b2, cells, base),
{
    assert forall|f: int| 0 <= f < cells.len() implies {
        &&& value_ty(#[trigger] cells[f]) == schema.spec_fields()[f].ty
        &&& !field_present(schema.spec_bitfield_len(), b2, base, f) ==> is_zero_value(cells[f])
    } by {
        assert(field_present(schema.spec_bitfield_len(), b2, base, f) == field_present(
            schema.spec_bitfield_len(),
            b1,
            base,
            f,
        ));
    }
}

impl RowBuffer {
    /// Grows the buffer to hold at least `num_rows` rows; the new rows are
    /// empty. This function will not shrink the buffer.
    pub fn ensure_capacity(&mut self, num_rows: usize)
        requires
            old(self).wf(),
            num_rows > old(self).spec_num_rows() ==> layout_ok(
                num_rows * old(self).spec_schema().spec_layout().spec_size(),
                old(self).spec_schema().spec_layout().spec_align() as int,
            ),
        ensures
            final(self).wf(),
            final(self).spec_schema() == old(self).spec_schema(),
            final(self).spec_num_rows() == if num_rows > old(self).spec_num_rows() {
                num_rows as nat
            } else {
                old(self).spec_num_rows()
            },
            forall|r: int, f: int|
                0 <= r < old(self).spec_num_rows() && 0 <= f < old(self).spec_schema().spec_fields().len() ==> {
                    &&& #[trigger] final(self).present(r, f) == old(self).present(r, f)
                    &&& final(self).value(r, f) == old(self).value(r, f)
                },
            final(self).empty_from(old(self).spec_num_rows() as int),
    {
        let ghost n0 = self.cells.len() as int;
        let ghost st = self.schema.spec_layout().spec_size() as int;
        let ghost old_bytes = self.bytes.bytes();
        let stride = self.schema.layout.size();
        proof {
            if num_rows <= n0 {
                assert(num_rows * st <= n0 * st) by (nonlinear_arith)
                    requires
                        num_rows <= n0,
                        st > 0,
                ;
            }
        }
        self.bytes.resize(num_rows * stride);
        let ghost target = if num_rows > n0 { num_rows as int } else { n0 };
        let ghost b1 = self.bytes;
        proof {
            if num_rows > n0 {
                assert(num_rows * st > n0 * st) by (nonlinear_arith)
                    requires
                        num_rows > n0,
                        st > 0,
                ;
            }
            assert(b1.bytes().len() == target * st);
        }
        while self.cells.len() < num_rows
            invariant
                self.bytes == b1,
                self.schema == old(self).schema,
                0 <= n0 <= self.cells.len() <= target,
                target == if num_rows > n0 { num_rows as int } else { n0 },
                self.schema.wf(),
                st == self.schema.spec_layout().spec_size(),
                forall|r: int| 0 <= r < n0 ==> #[trigger] self.cells@[r] == old(self).cells@[r],
                forall|r: int| n0 <= r < self.cells.len() ==> zero_row(&self.schema, #[trigger] self.cells@[r]@),
            decreases num_rows - self.cells.len(),
        {
            let ghost prev = self.cells@;
            let z = zero_values(&self.schema);
            self.cells.push(z);
            proof {
                assert forall|r: int| n0 <= r < self.cells.len() implies zero_row(
                    &self.schema,
                    #[trigger] self.cells@[r]@,
                ) by {
                    if r < prev.len() {
                        assert(self.cells@[r]@ == prev[r]@);
                    } else {
                        assert(self.cells@[r] == z);
                    }
                }
            }
        }
        proof {
            assert forall|r: int| 0 <= r < self.cells.len() implies row_wf(
                &self.schema,
                self.bytes.bytes(),
                #[trigger] self.cells@[r]@,
                r * st,
            ) by {
                lemma_row_in_bounds(r, target, st);
                if r < n0 {
                    lemma_row_in_bounds(r, n0, st);
                    assert(row_wf(&self.schema, old_bytes, old(self).cells@[r]@, r * st));
                    if self.schema.spec_bitfield_len() > 0 {
                        assert forall|f: int| 0 <= f < self.schema.spec_fields().len() implies #[trigger] field_present(
                            self.schema.spec_bitfield_len(),
                            self.bytes.bytes(),
                            r * st,
                            f,
                        ) == field_present(self.schema.spec_bitfield_len(), old_bytes, r * st, f) by {
                            lemma_bit_byte_in_row(&self.schema, f);
                        }
                    }
                    lemma_row_wf_frame(&self.schema, old_bytes, self.bytes.bytes(), self.cells@[r]@, r * st);
                } else {
                    assert(zero_row(&self.schema, self.cells@[r]@));
                }
            }
            assert forall|r: int, f: int|
                0 <= r < n0 && 0 <= f < self.schema.spec_fields().len() implies #[trigger] self.present(r, f)
                == old(self).present(r, f) && self.value(r, f) == old(self).value(r, f) by {
                lemma_row_in_bounds(r, n0, st);
                if self.schema.spec_bitfield_len() > 0 {
                    lemma_bit_byte_in_row(&self.schema, f);
                }
            }
            assert forall|r: int, f: int|
                n0 <= r < self.cells.len() && 0 <= f < self.schema.spec_fields().len() implies {
                &&& #[trigger] self.present(r, f) == (self.schema.spec_bitfield_len() == 0)
                &&& is_zero_value(self.value(r, f))
            } by {
                lemma_row_in_bounds(r, target, st);
                assert(zero_row(&self.schema, self.cells@[r]@));
                if self.schema.spec_bitfield_len() > 0 {
                    lemma_bit_byte_in_row(&self.schema, f);
                    assert(r * st >= n0 * st) by (nonlinear_arith)
                        requires
                            r >= n0,
                            st > 0,
                    ;
                    lemma_zero_byte((f % 8) as u8);
                }
            }
        }
    }
}


/// After field `f` of row `row` is cleared (its occupancy bit and its
/// value), the buffer stays well formed and every other field of every row
/// keeps its presence and value.
proof fn lemma_field_cleared(before: RowBuffer, after: RowBuffer, row: int, f: int)
    requires
        before.wf(),
        before.schema.spec_bitfield_len() > 0,
        after.schema == before.schema,
        after.cells.len() == before.cells.len(),
        0 <= row < before.cells.len(),
        0 <= f < before.schema.spec_fields().len(),
        after.bytes.wf(),
        after.bytes.spec_layout() == before.bytes.spec_layout(),
        after.bytes.bytes().len() == before.bytes.bytes().len(),
        forall|i: int|
            0 <= i < before.bytes.bytes().len() && i != row * before.schema.spec_layout().spec_size() + f / 8
                ==> after.bytes.bytes()[i] == before.bytes.bytes()[i],
        forall|k: int| 0 <= k < before.cells.len() && k != row ==> #[trigger] after.cells@[k] == before.cells@[k],
        row_wf(&after.schema, after.bytes.bytes(), after.cells@[row]@, row * before.schema.spec_layout().spec_size()),
        forall|g: int|
            0 <= g < before.schema.spec_fields().len() && g != f ==> #[trigger] after.cells@[row]@[g]
                == before.cells@[row]@[g],
        forall|g: int|
            0 <= g < before.schema.spec_fields().len() && g != f ==> #[trigger] after.present(row, g)
                == before.present(row, g),
    ensures
        after.wf(),
        forall|r: int, g: int|
            0 <= r < before.cells.len() && 0 <= g < before.schema.spec_fields().len() && (r != row || g != f)
                ==> #[trigger] after.present(r, g) == before.present(r, g) && after.value(r, g) == before.value(
                r,
                g,
            ),
{
    let st = before.schema.spec_layout().spec_size() as int;
    let n = before.cells.len() as int;
    lemma_row_in_bounds(row, n, st);
    lemma_bit_byte_in_row(&before.schema, f);
    assert forall|r: int| 0 <= r < after.cells.len() implies row_wf(
        &after.schema,
        after.bytes.bytes(),
        #[trigger] after.cells@[r]@,
        r * st,
    ) by {
        if r != row {
            lemma_row_in_bounds(r, n, st);
            assert(row_wf(&before.schema, before.bytes.bytes(), before.cells@[r]@, r * st));
            lemma_update_other_row(&before.schema, before.bytes.bytes(), after.bytes.bytes(), row, f / 8, r);
            lemma_row_wf_frame(&before.schema, before.bytes.bytes(), after.bytes.bytes(), after.cells@[r]@, r * st);
        }
    }
    assert forall|r: int, g: int|
        0 <= r < before.cells.len() && 0 <= g < before.schema.spec_fields().len() && (r != row || g != f)
            implies #[trigger] after.present(r, g) == before.present(r, g) && after.value(r, g) == before.value(
        r,
        g,
    ) by {
        if r != row {
            lemma_row_in_bounds(r, n, st);
            lemma_update_other_row(&before.schema, before.bytes.bytes(), after.bytes.bytes(), row, f / 8, r);
        }
    }
}

impl RowSchema {
    /// Whether rows of this schema can be reinterpreted as values of `T`.
    pub open spec fn spec_can_reinterpret_as<T: Reflect>(&self) -> bool {
        &&& self.spec_bitfield_len() == 0
        &&& self.spec_fields().len() == 1
        &&& self.spec_fields()[0].ty == T::CONCRETE_TY
        &&& self.spec_fields()[0].offset == 0
        &&& self.spec_layout() == Layout::spec_new::<T>()
    }
}

impl RowBuffer {
    /// Drops every field of every row, leaving all fields absent. The schema
    /// must record presence in a bitfield.
    pub fn clear(&mut self)
        requires
            old(self).wf(),
            old(self).spec_schema().spec_bitfield_len() > 0,
        ensures
            final(self).wf(),
            final(self).spec_schema() == old(self).spec_schema(),
            final(self).spec_num_rows() == old(self).spec_num_rows(),
            final(self).empty_from(0),
    {
        if self.schema.occupancy_bitfield_len == 0 {
            None::<()>.expect("cannot clear a row buffer where all fields must be always present");
        }
        self.drop_all_fields();
    }

    /// Field `g` of row `r` is absent and holds its zero value.
    closed spec fn cleared(&self, r: int, g: int) -> bool {
        !self.present(r, g) && is_zero_value(self.value(r, g))
    }

    /// Drops every present field of every row, marking it absent.
    fn drop_all_fields(&mut self)
        requires
            old(self).wf(),
            old(self).spec_schema().spec_bitfield_len() > 0,
        ensures
            final(self).wf(),
            final(self).spec_schema() == old(self).spec_schema(),
            final(self).spec_num_rows() == old(self).spec_num_rows(),
            final(self).empty_from(0),
    {
        let n = self.num_rows();
        let nf = self.schema.fields.len();
        let stride = self.schema.layout.size();
        let mut row_idx: usize = 0;
        while row_idx < n
            invariant
                self.wf(),
                self.schema == old(self).schema,
                self.schema.spec_bitfield_len() > 0,
                self.cells.len() == n,
                nf == self.schema.spec_fields().len(),
                stride == self.schema.spec_layout().spec_size(),
                row_idx <= n,
                forall|r: int, g: int| 0 <= r < row_idx && 0 <= g < nf ==> #[trigger] self.cleared(r, g),
            decreases n - row_idx,
        {
            proof {
                lemma_row_in_bounds(row_idx as int, n as int, stride as int);
            }
            let base = row_idx * stride;
            let mut f: usize = 0;
            while f < nf
                invariant
                    self.wf(),
                    self.schema == old(self).schema,
                    self.schema.spec_bitfield_len() > 0,
                    self.cells.len() == n,
                    nf == self.schema.spec_fields().len(),
                    stride == self.schema.spec_layout().spec_size(),
                    row_idx < n,
                    base == row_idx * stride,
                    base + stride <= self.bytes.bytes().len(),
                    f <= nf,
                    forall|r: int, g: int| 0 <= r < row_idx && 0 <= g < nf ==> #[trigger] self.cleared(r, g),
                    forall|g: int| 0 <= g < f ==> #[trigger] self.cleared(row_idx as int, g),
                decreases nf - f,
            {
                proof {
                    assert(row_wf(&self.schema, self.bytes.bytes(), self.cells@[row_idx as int]@, base as int));
                }
                if has_field_at(&self.schema, &self.bytes, base, f) {
                    let ghost before = *self;
                    let cells_r = vec_cell_mut(&mut self.cells, row_idx);
                    clear_field(&self.schema, &mut self.bytes, cells_r, base, f);
                    proof {
                        lemma_field_cleared(before, *self, row_idx as int, f as int);
                        assert forall|r: int, g: int| 0 <= r < row_idx && 0 <= g < nf implies #[trigger] self.cleared(
                            r,
                            g,
                        ) by {
                            assert(before.cleared(r, g));
                            assert(self.present(r, g) == before.present(r, g));
                        }
                        assert forall|g: int| 0 <= g < f implies #[trigger] self.cleared(row_idx as int, g) by {
                            assert(before.cleared(row_idx as int, g));
                            assert(self.present(row_idx as int, g) == before.present(row_idx as int, g));
                        }
                        assert(self.cleared(row_idx as int, f as int));
                    }
                } else {
                    proof {
                        let c = self.cells@[row_idx as int]@;
                        assert(value_ty(c[f as int]) == self.schema.spec_fields()[f as int].ty);
                        assert(self.cleared(row_idx as int, f as int));
                    }
                }
                f = f + 1;
            }
            row_idx = row_idx + 1;
        }
        proof {
            assert forall|r: int, f: int|
                0 <= r < self.spec_num_rows() && 0 <= f < self.spec_schema().spec_fields().len() implies {
                &&& #[trigger] self.present(r, f) == (self.spec_schema().spec_bitfield_len() == 0)
                &&& is_zero_value(self.value(r, f))
            } by {
                assert(self.cleared(r, f));
            }
        }
    }

    /// Takes all the values as an array of `T`, leaving every row holding
    /// zeroes. The schema must have a single always-present field of type
    /// `T` at offset 0, with the layout of `T`.
    pub fn take_array<T: Copy + Reflect>(&mut self) -> (r: Array<T>)
        requires
            old(self).wf(),
            old(self).spec_schema().spec_can_reinterpret_as::<T>(),
        ensures
            r@.len() == old(self).spec_num_rows(),
            forall|i: int| 0 <= i < r@.len() ==> (#[trigger] r@[i]).embed() == old(self).value(i, 0),
            final(self).wf(),
            final(self).spec_schema() == old(self).spec_schema(),
            final(self).spec_num_rows() == old(self).spec_num_rows(),
            final(self).empty_from(0),
    {
        if !self.schema.can_reinterpret_as::<T>() {
            let mut m = String::from_str("cannot reinterpret the row buffer as an array of type ");
            m.append(T::CONCRETE_TY.info().debug_name);
            None::<()>.expect(m.as_str());
        }
        let n = self.cells.len();
        let mut items: Vec<T> = Vec::new();
        let mut i: usize = 0;
        while i < n
            invariant
                self.wf(),
                self.schema.spec_can_reinterpret_as::<T>(),
                n == self.cells.len(),
                i <= n,
                items@.len() == i,
                forall|k: int| 0 <= k < i ==> (#[trigger] items@[k]).embed() == self.value(k, 0),
            decreases n - i,
        {
            let ghost st = self.schema.spec_layout().spec_size() as int;
            proof {
                lemma_row_in_bounds(i as int, n as int, st);
                assert(row_wf(&self.schema, self.bytes.bytes(), self.cells@[i as int]@, i * st));
            }
            match T::ref_field(&self.cells[i][0]) {
                Some(x) => items.push(*x),
                None => {},
            }
            i = i + 1;
        }
        // the rows are replaced by zeroed ones, which hold valid values of
        // `T` since the field is always present
        let new_bytes = AlignedBytes::new(self.bytes.layout());
        self.bytes = new_bytes;
        let mut k: usize = 0;
        let ghost st = self.schema.spec_layout().spec_size() as int;
        while k < n
            invariant
                self.schema == old(self).schema,
                self.schema.wf(),
                self.schema.spec_can_reinterpret_as::<T>(),
                st == self.schema.spec_layout().spec_size(),
                st > 0,
                self.bytes.wf(),
                self.bytes.spec_layout().spec_align() == self.schema.spec_layout().spec_align(),
                self.bytes.bytes().len() == n * st,
                n == self.cells.len(),
                k <= n,
                forall|r: int| 0 <= r < k ==> zero_row(&self.schema, #[trigger] self.cells@[r]@),
            decreases n - k,
        {
            let ghost prev = self.cells@;
            let z = zero_values(&self.schema);
            self.cells.set(k, z);
            proof {
                assert forall|r: int| 0 <= r <= k implies zero_row(&self.schema, #[trigger] self.cells@[r]@) by {
                    if r < k {
                        assert(self.cells@[r]@ == prev[r]@);
                    }
                }
            }
            k = k + 1;
        }
        proof {
            assert forall|r: int| 0 <= r < self.cells.len() implies row_wf(
                &self.schema,
                self.bytes.bytes(),
                #[trigger] self.cells@[r]@,
                r * st,
            ) by {
                lemma_row_in_bounds(r, n as int, st);
                assert(zero_row(&self.schema, self.cells@[r]@));
            }
            assert forall|r: int, f: int|
                0 <= r < self.cells.len() && 0 <= f < self.schema.spec_fields().len() implies {
                &&& #[trigger] self.present(r, f) == (self.schema.spec_bitfield_len() == 0)
                &&& is_zero_value(self.value(r, f))
            } by {
                assert(zero_row(&self.schema, self.cells@[r]@));
            }
        }
        Array { items }
    }
}

/// Values of `T` taken out of a [`RowBuffer`].
pub struct Array<T: Copy> {
    items: Vec<T>,
}

impl<T: Copy> View for Array<T> {
    type V = Seq<T>;

    closed spec fn view(&self) -> Seq<T> {
        self.items@
    }
}

impl<T: Copy> Array<T> {
    /// The number of values.
    pub fn len(&self) -> (r: usize)
        ensures
            r == self@.len(),
    {
        self.items.len()
    }

    /// Whether there are no values.
    pub fn is_empty(&self) -> (r: bool)
        ensures
            r == (self@.len() == 0),
    {
        self.len() == 0
    }

    /// The value at `index`.
    pub fn index(&self, index: usize) -> (r: &T)
        requires
            index < self@.len(),
        ensures
            *r == self@[index as int],
    {
        &self.items[index]
    }

    /// A mutable reference to the value at `index`.
    pub fn index_mut(&mut self, index: usize) -> (r: &mut T)
        requires
            index < old(self)@.len(),
        ensures
            *r == old(self)@[index as int],
            final(self)@ == old(self)@.update(index as int, *final(r)),
    {
        vec_cell_mut(&mut self.items, index)
    }
}


impl RowBuffer {
    /// Remaps every row of the buffer to `new_schema`: `map_fn` is called
    /// with each old row and the new, empty row of the same index, and the
    /// new rows replace the old ones.
    ///
    /// Row `r` of the result holds the values that `map_fn` left in the new
    /// row `r`; when every run of `map_fn` writes only the bytes of the new
    /// row it is given (as the methods of [`Row`] do), the bytes of row `r`,
    /// and so which of its fields are present, are also as `map_fn` left them.
    pub fn change_schema<F>(&mut self, new_schema: RowSchema, mut map_fn: F)
        where
            F: FnMut(Row<'_, RowMut<'_>>, Row<'_, RowMut<'_>>),
        requires
            old(self).wf(),
            new_schema.wf(),
            new_schema.spec_layout().spec_size() > 0,
            layout_ok(
                (old(self).spec_num_rows() * new_schema.spec_layout().spec_size()) as int,
                new_schema.spec_layout().spec_align() as int,
            ),
            new_schema.spec_bitfield_len() == 0 ==> forall|f: int|
                0 <= f < new_schema.spec_fields().len() ==> spec_is_zeroable(#[trigger] new_schema.spec_fields()[f].ty),
            forall|old_row: Row<RowMut>, new_row: Row<RowMut>| call_requires(map_fn, (old_row, new_row)),
        ensures
            final(self).spec_schema() == new_schema,
            final(self).spec_num_rows() == old(self).spec_num_rows(),
            (forall|o: Row<RowMut>, nw: Row<RowMut>|
                #[trigger] call_ensures(map_fn, (o, nw), ()) ==> same_outside(
                    (*nw.data.bytes).bytes(),
                    (*final(nw.data.bytes)).bytes(),
                    nw.data.base as int,
                    nw.schema.spec_layout().spec_size() as int,
                )) ==> final(self).spec_bytes().bytes().len() == old(self).spec_num_rows()
                * new_schema.spec_layout().spec_size(),
            forall|r: int|
                #![trigger final(self).spec_cells()[r]]
                0 <= r < old(self).spec_num_rows() ==> final(self).spec_cells()[r]@.len() >= 0 && exists|o: Row<RowMut>, nw: Row<RowMut>|
                    #![trigger call_ensures(map_fn, (o, nw), ())]
                    {
                        &&& call_ensures(map_fn, (o, nw), ())
                        &&& *o.schema == old(self).spec_schema()
                        &&& o.data.base == r * old(self).spec_schema().spec_layout().spec_size()
                        &&& *o.data.cells == old(self).spec_cells()[r]
                        &&& *nw.schema == new_schema
                        &&& nw.data.base == r * new_schema.spec_layout().spec_size()
                        &&& (*nw.data.cells)@.len() == new_schema.spec_fields().len()
                        &&& forall|f: int|
                            0 <= f < new_schema.spec_fields().len() ==> is_zero_value(#[trigger] (*nw.data.cells)@[f])
                        &&& final(self).spec_cells()[r] == *final(nw.data.cells)
                        &&& (forall|o: Row<RowMut>, nw: Row<RowMut>|
                            #[trigger] call_ensures(map_fn, (o, nw), ()) ==> same_outside(
                                (*nw.data.bytes).bytes(),
                                (*final(nw.data.bytes)).bytes(),
                                nw.data.base as int,
                                nw.schema.spec_layout().spec_size() as int,
                            )) ==> forall|i: int|
                            r * new_schema.spec_layout().spec_size() <= i < r * new_schema.spec_layout().spec_size()
                                + new_schema.spec_layout().spec_size() ==> #[trigger] final(self).spec_bytes().bytes()[i]
                                == (*final(nw.data.bytes)).bytes()[i]
                    },
    {
        let num_rows = self.num_rows();
        proof {
            self.bytes.lemma_len();
            if num_rows == 0 {
                assert(self.bytes.bytes().len() == 0 * self.schema.spec_layout().spec_size());
            }
        }
        let mut new_buffer = Self::new_with_capacity(new_schema, num_rows);
        proof {
            assert forall|r: int| 0 <= r < num_rows implies #[trigger] new_buffer.cells@[r]@.len()
                == new_schema.spec_fields().len() by {
                assert(row_wf(&new_buffer.schema, new_buffer.bytes.bytes(), new_buffer.cells@[r]@, r * new_buffer.schema.spec_layout().spec_size()));
            }
            assert forall|r: int, f: int|
                0 <= r < num_rows && 0 <= f < new_schema.spec_fields().len() implies is_zero_value(
                    #[trigger] new_buffer.cells@[r]@[f],
                ) by {
                assert(new_buffer.present(r, f) == (new_schema.spec_bitfield_len() == 0));
            }
        }
        let ghost new0 = new_buffer;
        assert(new0.bytes.bytes().len() == num_rows * new_schema.spec_layout().spec_size());
        Self::map_rows(self, &mut new_buffer, 0, map_fn);
        *self = new_buffer;
        proof {
            assert forall|r: int|
                #![trigger self.spec_cells()[r]]
                0 <= r < num_rows implies self.spec_cells()[r]@.len() >= 0 && exists|o: Row<RowMut>, nw: Row<RowMut>|
                    #![trigger call_ensures(map_fn, (o, nw), ())]
                    {
                        &&& call_ensures(map_fn, (o, nw), ())
                        &&& *o.schema == old(self).spec_schema()
                        &&& o.data.base == r * old(self).spec_schema().spec_layout().spec_size()
                        &&& *o.data.cells == old(self).spec_cells()[r]
                        &&& *nw.schema == new_schema
                        &&& nw.data.base == r * new_schema.spec_layout().spec_size()
                        &&& (*nw.data.cells)@.len() == new_schema.spec_fields().len()
                        &&& forall|f: int|
                            0 <= f < new_schema.spec_fields().len() ==> is_zero_value(#[trigger] (*nw.data.cells)@[f])
                        &&& self.spec_cells()[r] == *final(nw.data.cells)
                        &&& (forall|o: Row<RowMut>, nw: Row<RowMut>|
                            #[trigger] call_ensures(map_fn, (o, nw), ()) ==> same_outside(
                                (*nw.data.bytes).bytes(),
                                (*final(nw.data.bytes)).bytes(),
                                nw.data.base as int,
                                nw.schema.spec_layout().spec_size() as int,
                            )) ==> forall|i: int|
                            r * new_schema.spec_layout().spec_size() <= i < r * new_schema.spec_layout().spec_size()
                                + new_schema.spec_layout().spec_size() ==> #[trigger] self.spec_bytes().bytes()[i]
                                == (*final(nw.data.bytes)).bytes()[i]
                    } by {
                assert(new0.cells@[r]@.len() >= 0);
                lemma_row_in_bounds(r, num_rows as int, new_schema.spec_layout().spec_size() as int);
            }
        }
    }

    /// Calls `map_fn` on rows `from..` of `old_buf` and `new_buf`, one row
    /// after another, each old row with the new row of the same index.
    fn map_rows<F>(old_buf: &mut RowBuffer, new_buf: &mut RowBuffer, from: usize, map_fn: F)
        where
            F: FnMut(Row<'_, RowMut<'_>>, Row<'_, RowMut<'_>>),
        requires
            old(old_buf).cells.len() * old(old_buf).schema.spec_layout().spec_size() <= usize::MAX,
            old(new_buf).cells.len() == old(old_buf).cells.len(),
            old(old_buf).cells.len() * old(new_buf).schema.spec_layout().spec_size() <= usize::MAX,
            from <= old(old_buf).cells.len(),
            forall|old_row: Row<RowMut>, new_row: Row<RowMut>| call_requires(map_fn, (old_row, new_row)),
        ensures
            final(new_buf).schema == old(new_buf).schema,
            final(new_buf).cells.len() == old(new_buf).cells.len(),
            forall|r: int| 0 <= r < from ==> #[trigger] final(new_buf).cells@[r] == old(new_buf).cells@[r],
            (forall|o: Row<RowMut>, nw: Row<RowMut>|
                #[trigger] call_ensures(map_fn, (o, nw), ()) ==> same_outside(
                    (*nw.data.bytes).bytes(),
                    (*final(nw.data.bytes)).bytes(),
                    nw.data.base as int,
                    nw.schema.spec_layout().spec_size() as int,
                )) ==> {
                &&& final(new_buf).bytes.bytes().len() == old(new_buf).bytes.bytes().len()
                &&& forall|i: int|
                    0 <= i < from * old(new_buf).schema.spec_layout().spec_size() && i < old(new_buf).bytes.bytes().len()
                        ==> #[trigger] final(new_buf).bytes.bytes()[i] == old(new_buf).bytes.bytes()[i]
            },
            forall|r: int|
                #![trigger old(new_buf).cells@[r]]
                from <= r < old(old_buf).cells.len() ==> old(new_buf).cells@[r]@.len() >= 0 && exists|o: Row<RowMut>, nw: Row<RowMut>|
                    #![trigger call_ensures(map_fn, (o, nw), ())]
                    {
                        &&& call_ensures(map_fn, (o, nw), ())
                        &&& *o.schema == old(old_buf).schema
                        &&& o.data.base == r * old(old_buf).schema.spec_layout().spec_size()
                        &&& *o.data.cells == old(old_buf).cells@[r]
                        &&& *nw.schema == old(new_buf).schema
                        &&& nw.data.base == r * old(new_buf).schema.spec_layout().spec_size()
                        &&& *nw.data.cells == old(new_buf).cells@[r]
                        &&& final(new_buf).cells@[r] == *final(nw.data.cells)
                        &&& (forall|o: Row<RowMut>, nw: Row<RowMut>|
                            #[trigger] call_ensures(map_fn, (o, nw), ()) ==> same_outside(
                                (*nw.data.bytes).bytes(),
                                (*final(nw.data.bytes)).bytes(),
                                nw.data.base as int,
                                nw.schema.spec_layout().spec_size() as int,
                            )) ==> forall|i: int|
                            r * old(new_buf).schema.spec_layout().spec_size() <= i < r * old(new_buf).schema.spec_layout().spec_size()
                                + old(new_buf).schema.spec_layout().spec_size() && i < old(new_buf).bytes.bytes().len()
                                ==> #[trigger] final(new_buf).bytes.bytes()[i] == (*final(nw.data.bytes)).bytes()[i]
                    },
        decreases old(old_buf).cells.len() - from,
    {
        let ghost f0 = map_fn;
        let mut map_fn = map_fn;
        let num_rows = old_buf.cells.len();
        if from >= num_rows {
            return;
        }
        let old_stride = old_buf.schema.layout.size();
        let new_stride = new_buf.schema.layout.size();
        proof {
            lemma_row_in_bounds(from as int, num_rows as int, old_stride as int);
            lemma_row_in_bounds(from as int, num_rows as int, new_stride as int);
        }
        let ghost old_cells0 = old_buf.cells@;
        let ghost new_cells0 = new_buf.cells@;
        let ghost bytes0 = new_buf.bytes.bytes();
        let old_cells = vec_cell_mut(&mut old_buf.cells, from);
        let old_row = Row {
            schema: &old_buf.schema,
            data: RowMut { bytes: &mut old_buf.bytes, cells: old_cells, base: from * old_stride },
        };
        let new_cells = vec_cell_mut(&mut new_buf.cells, from);
        let new_row = Row {
            schema: &new_buf.schema,
            data: RowMut { bytes: &mut new_buf.bytes, cells: new_cells, base: from * new_stride },
        };
        let ghost g_old = old_row;
        let ghost g_new = new_row;
        assert((*g_new.data.bytes).bytes() == bytes0);
        map_fn(old_row, new_row);
        let ghost bytes1 = new_buf.bytes.bytes();
        assert(bytes1 == (*final(g_new.data.bytes)).bytes());
        let ghost new_cells1 = new_buf.cells@;
        let ghost old_cells1 = old_buf.cells@;
        assert(new_cells1 == new_cells0.update(from as int, *final(g_new.data.cells)));
        assert(old_cells1 == old_cells0.update(from as int, *final(g_old.data.cells)));
        assert(call_ensures(f0, (g_old, g_new), ()));
        Self::map_rows(old_buf, new_buf, from + 1, map_fn);
        proof {
            assert((from + 1) * new_stride == from * new_stride + new_stride) by (nonlinear_arith);
            assert(new_buf.cells@[from as int] == new_cells1[from as int]);
            assert forall|r: int|
                #![trigger old(new_buf).cells@[r]]
                from <= r < old(old_buf).cells.len() implies old(new_buf).cells@[r]@.len() >= 0 && exists|o: Row<RowMut>, nw: Row<RowMut>|
                    #![trigger call_ensures(f0, (o, nw), ())]
                    {
                        &&& call_ensures(f0, (o, nw), ())
                        &&& *o.schema == old(old_buf).schema
                        &&& o.data.base == r * old(old_buf).schema.spec_layout().spec_size()
                        &&& *o.data.cells == old(old_buf).cells@[r]
                        &&& *nw.schema == old(new_buf).schema
                        &&& nw.data.base == r * old(new_buf).schema.spec_layout().spec_size()
                        &&& *nw.data.cells == old(new_buf).cells@[r]
                        &&& final(new_buf).cells@[r] == *final(nw.data.cells)
                        &&& (forall|o: Row<RowMut>, nw: Row<RowMut>|
                            #[trigger] call_ensures(f0, (o, nw), ()) ==> same_outside(
                                (*nw.data.bytes).bytes(),
                                (*final(nw.data.bytes)).bytes(),
                                nw.data.base as int,
                                nw.schema.spec_layout().spec_size() as int,
                            )) ==> forall|i: int|
                            r * old(new_buf).schema.spec_layout().spec_size() <= i < r * old(new_buf).schema.spec_layout().spec_size()
                                + old(new_buf).schema.spec_layout().spec_size() && i < old(new_buf).bytes.bytes().len()
                                ==> #[trigger] final(new_buf).bytes.bytes()[i] == (*final(nw.data.bytes)).bytes()[i]
                    } by {
                if r == from {
                    assert(call_ensures(f0, (g_old, g_new), ()));
                    assert(*g_old.schema == old(old_buf).schema);
                    assert(g_old.data.base == r * old(old_buf).schema.spec_layout().spec_size());
                    assert(*g_old.data.cells == old(old_buf).cells@[r]);
                    assert(*g_new.schema == old(new_buf).schema);
                    assert(g_new.data.base == r * old(new_buf).schema.spec_layout().spec_size());
                    assert(*g_new.data.cells == old(new_buf).cells@[r]);
                    assert(new_buf.cells@[r] == *final(g_new.data.cells));
                    assert(final(new_buf).cells@[r] == new_buf.cells@[r]);
                } else {
                    assert(old_cells1[r] == old_cells0[r]);
                    assert(new_cells1[r] == new_cells0[r]);
                }
            }
        }
    }
}

/// Checks that a field of type `field_ty` is accessed as `accessed_ty`; the
/// check fails with "type mismatch" for callers that do not meet the
/// requirement.
fn check_type(field_ty: ConcreteTy, accessed_ty: ConcreteTy)
    requires
        field_ty == accessed_ty,
{
    if field_ty != accessed_ty {
        None::<()>.expect("type mismatch");
    }
}

} // verus!
