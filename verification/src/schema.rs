//! The field schema: what each type code says about the bytes that follow it.

use std::collections::HashMap;
use vstd::prelude::*;

verus! {

broadcast use vstd::std_specs::hash::group_hash_axioms;

/// What a descriptor says, as plain mathematical values.
pub struct DescriptorView {
    pub name: Seq<char>,
    pub byte_width: nat,
    pub signed: bool,
    pub divisor: nat,
}

impl DescriptorView {
    /// A descriptor can be used only if its field occupies at least one
    /// byte and its divisor is not zero.
    pub open spec fn is_valid(self) -> bool {
        self.byte_width > 0 && self.divisor > 0
    }
}

/// How one kind of field is laid out and scaled.
#[derive(Debug, PartialEq, Eq)]
pub struct FieldDescriptor {
    /// Human-readable identifier of the field.
    pub name: String,
    /// Number of payload bytes the field occupies in the stream.
    pub byte_width: usize,
    /// Whether the raw integer is two's-complement signed.
    pub signed: bool,
    /// The raw integer is divided by this to give the reading.
    pub divisor: u32,
}

impl View for FieldDescriptor {
    type V = DescriptorView;

    open spec fn view(&self) -> DescriptorView {
        DescriptorView {
            name: self.name@,
            byte_width: self.byte_width as nat,
            signed: self.signed,
            divisor: self.divisor as nat,
        }
    }
}

/// One line of the table a schema is built from: a type code and the
/// descriptor it selects.
#[derive(Debug, PartialEq, Eq)]
pub struct SchemaEntry {
    pub type_code: u8,
    pub name: String,
    pub byte_width: usize,
    pub signed: bool,
    pub divisor: u32,
}

impl SchemaEntry {
    /// The descriptor this entry gives to its type code.
    pub open spec fn descriptor(&self) -> DescriptorView {
        DescriptorView {
            name: self.name@,
            byte_width: self.byte_width as nat,
            signed: self.signed,
            divisor: self.divisor as nat,
        }
    }
}

/// A schema could not be built: the entry at `index` is the first one with
/// a zero byte width or a zero divisor.
#[derive(Debug, Clone, Copy, PartialEq, Eq)]
pub struct InvalidDescriptor {
    pub index: usize,
}

/// Whether every entry has a usable descriptor.
pub open spec fn all_valid(entries: Seq<SchemaEntry>) -> bool {
    forall|i: int| 0 <= i < entries.len() ==> (#[trigger] entries[i]).descriptor().is_valid()
}

/// The mapping that a list of entries describes. Where a type code occurs
/// more than once, the entry that comes last stands.
pub open spec fn table_of(entries: Seq<SchemaEntry>) -> Map<u8, DescriptorView>
    decreases entries.len(),
{
    if entries.len() == 0 {
        Map::empty()
    } else {
        table_of(entries.drop_last()).insert(
            entries.last().type_code,
            entries.last().descriptor(),
        )
    }
}

/// A type code that no entry names is not in the table.
pub proof fn lemma_table_of_absent(entries: Seq<SchemaEntry>, code: u8)
    requires
        forall|j: int| 0 <= j < entries.len() ==> (#[trigger] entries[j]).type_code != code,
    ensures
        !table_of(entries).contains_key(code),
    decreases entries.len(),
{
    if entries.len() > 0 {
        lemma_table_of_absent(entries.drop_last(), code);
    }
}

/// A type code stands for the descriptor of the last entry that names it.
pub proof fn lemma_table_of_last_wins(entries: Seq<SchemaEntry>, i: int)
    requires
        0 <= i < entries.len(),
        forall|j: int|
            i < j < entries.len() ==> (#[trigger] entries[j]).type_code != entries[i].type_code,
    ensures
        table_of(entries).contains_key(entries[i].type_code),
        table_of(entries)[entries[i].type_code] == entries[i].descriptor(),
    decreases entries.len(),
{
    if i < entries.len() - 1 {
        lemma_table_of_last_wins(entries.drop_last(), i);
    }
}

/// Valid entries make a table of valid descriptors.
pub proof fn lemma_table_of_is_valid(entries: Seq<SchemaEntry>, code: u8)
    requires
        all_valid(entries),
        table_of(entries).contains_key(code),
    ensures
        table_of(entries)[code].is_valid(),
    decreases entries.len(),
{
    if entries.len() > 0 {
        if entries.last().type_code != code {
            lemma_table_of_is_valid(entries.drop_last(), code);
        }
    }
}

/// The mathematical content of a descriptor table.
spec fn table_view(table: Map<u8, FieldDescriptor>) -> Map<u8, DescriptorView> {
    Map::new(|code: u8| table.contains_key(code), |code: u8| table[code]@)
}

/// An immutable mapping from type code to field descriptor.
///
/// Every descriptor in a schema is valid: a schema can only be made by
/// [`build_schema`], which admits no other.
#[derive(Debug)]
pub struct Schema {
    table: HashMap<u8, FieldDescriptor>,
}

impl View for Schema {
    type V = Map<u8, DescriptorView>;

    closed spec fn view(&self) -> Map<u8, DescriptorView> {
        table_view(self.table@)
    }
}

impl Schema {
    #[verifier::type_invariant]
    spec fn descriptors_are_valid(self) -> bool {
        forall|code: u8| #[trigger]
            self.table@.contains_key(code) ==> self.table@[code]@.is_valid()
    }

    /// Looks a type code up. The match is exact; a code without an entry
    /// gives `None`.
    pub fn lookup(&self, type_code: u8) -> (found: Option<&FieldDescriptor>)
        ensures
            match found {
                Some(descriptor) => {
                    &&& self@.contains_key(type_code)
                    &&& descriptor@ == self@[type_code]
                    &&& descriptor@.is_valid()
                },
                None => !self@.contains_key(type_code),
            },
    {
        proof {
            use_type_invariant(self);
        }
        self.table.get(&type_code)
    }
}

/// Builds the lookup table from its entries.
///
/// Fails on the first entry whose byte width or divisor is zero, and then
/// returns no schema at all. Otherwise every entry is in the schema, a later
/// entry replacing an earlier one with the same type code.
pub fn build_schema(entries: &[SchemaEntry]) -> (result: Result<Schema, InvalidDescriptor>)
    ensures
        result is Ok <==> all_valid(entries@),
        match result {
            Ok(schema) => schema@ == table_of(entries@),
            Err(error) => {
                &&& error.index < entries@.len()
                &&& !entries@[error.index as int].descriptor().is_valid()
                &&& all_valid(entries@.take(error.index as int))
            },
        },
{
    let mut table: HashMap<u8, FieldDescriptor> = HashMap::new();
    let mut i: usize = 0;
    while i < entries.len()
        invariant
            i <= entries@.len(),
            all_valid(entries@.take(i as int)),
            table_view(table@) == table_of(entries@.take(i as int)),
            forall|code: u8| #[trigger]
                table@.contains_key(code) ==> table@[code]@.is_valid(),
        decreases entries@.len() - i,
    {
        let entry = &entries[i];
        if entry.byte_width == 0 || entry.divisor == 0 {
            return Err(InvalidDescriptor { index: i });
        }
        let descriptor = FieldDescriptor {
            name: entry.name.clone(),
            byte_width: entry.byte_width,
            signed: entry.signed,
            divisor: entry.divisor,
        };
        proof {
            assert(entries@.take(i as int + 1).drop_last() == entries@.take(i as int));
        }
        table.insert(entry.type_code, descriptor);
        i += 1;
    }
    proof {
        assert(entries@.take(i as int) == entries@);
    }
    Ok(Schema { table })
}

} // verus!
