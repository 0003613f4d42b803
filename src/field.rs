use vstd::prelude::*;

use crate::field_type::FieldType;

verus! {

/// Defines a field of a line record, used to build one key of the record.
///
/// The index starts at 1; index 0 stands for the complete line.
#[derive(Clone, Debug)]
pub struct Field {
    name: String,
    index: usize,
    field_type: FieldType,
    ignore_blanks: bool,
    ignore_case: bool,
    random: bool,
}

/// What a field descriptor says, as plain values.
pub ghost struct FieldView {
    pub name: Seq<char>,
    pub index: nat,
    pub field_type: FieldType,
    pub ignore_blanks: bool,
    pub ignore_case: bool,
    pub random: bool,
}

impl View for Field {
    type V = FieldView;

    closed spec fn view(&self) -> FieldView {
        FieldView {
            name: self.name@,
            index: self.index as nat,
            field_type: self.field_type,
            ignore_blanks: self.ignore_blanks,
            ignore_case: self.ignore_case,
            random: self.random,
        }
    }
}

impl Field {
    /// What `new` gives.
    pub open spec fn new_spec(index: usize, field_type: FieldType) -> FieldView {
        FieldView {
            name: Seq::<char>::empty(),
            index: index as nat,
            field_type,
            ignore_blanks: false,
            ignore_case: false,
            random: false,
        }
    }

    /// A field at `index` of type `field_type`, with no name and every flag off.
    pub fn new(index: usize, field_type: FieldType) -> (r: Field)
        ensures
            r@ == Field::new_spec(index, field_type),
    {
        Field {
            name: String::new(),
            index,
            field_type,
            ignore_blanks: false,
            ignore_case: false,
            random: false,
        }
    }

    /// The name of this field.
    pub fn name(&self) -> (r: &String)
        ensures
            r@ == self@.name,
    {
        &self.name
    }

    /// The index of this field; 0 means the whole line.
    pub fn index(&self) -> (r: usize)
        ensures
            r as nat == self@.index,
    {
        self.index
    }

    /// The type of this field.
    pub fn field_type(&self) -> (r: &FieldType)
        ensures
            *r == self@.field_type,
    {
        &self.field_type
    }

    /// Whether surrounding blanks are removed before comparison.
    pub fn ignore_blanks(&self) -> (r: bool)
        ensures
            r == self@.ignore_blanks,
    {
        self.ignore_blanks
    }

    /// Whether the text is upper-cased before comparison.
    pub fn ignore_case(&self) -> (r: bool)
        ensures
            r == self@.ignore_case,
    {
        self.ignore_case
    }

    /// Whether the key is replaced by a random value.
    pub fn random(&self) -> (r: bool)
        ensures
            r == self@.random,
    {
        self.random
    }

    /// This field with `name` as its name.
    pub fn with_name(self, name: String) -> (r: Field)
        ensures
            r@ == (FieldView { name: name@, ..self@ }),
    {
        Field { name, ..self }
    }

    /// This field with a copy of `name` as its name.
    pub fn with_str_name(self, name: &str) -> (r: Field)
        ensures
            r@ == (FieldView { name: name@, ..self@ }),
    {
        Field { name: name.to_owned(), ..self }
    }

    /// This field at `index`.
    pub fn with_index(self, index: usize) -> (r: Field)
        ensures
            r@ == (FieldView { index: index as nat, ..self@ }),
    {
        Field { index, ..self }
    }

    /// This field with type `field_type`.
    pub fn with_field_type(self, field_type: FieldType) -> (r: Field)
        ensures
            r@ == (FieldView { field_type, ..self@ }),
    {
        Field { field_type, ..self }
    }

    /// This field with blanks ignored or not.
    pub fn with_ignore_blanks(self, ignore_blanks: bool) -> (r: Field)
        ensures
            r@ == (FieldView { ignore_blanks, ..self@ }),
    {
        Field { ignore_blanks, ..self }
    }

    /// This field with case ignored or not.
    pub fn with_ignore_case(self, ignore_case: bool) -> (r: Field)
        ensures
            r@ == (FieldView { ignore_case, ..self@ }),
    {
        Field { ignore_case, ..self }
    }

    /// This field with a random key or not; a random key shuffles the file.
    pub fn with_random(self, random: bool) -> (r: Field)
        ensures
            r@ == (FieldView { random, ..self@ }),
    {
        Field { random, ..self }
    }
}

} // verus!
