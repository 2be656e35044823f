use vstd::prelude::*;

verus! {

/// The stored entity: a name that identifies it, a weight in the unsigned
/// 16-bit range, and a diet. A record is a plain value: it is replaced
/// wholesale on update, never partially mutated.
#[derive(Debug)]
pub struct Record {
    pub name: String,
    pub weight: u16,
    pub diet: String,
}

/// Rejection of malformed external input, detected before a record is
/// constructed and so before it can reach the store.
#[derive(Debug, Clone, Copy, PartialEq, Eq, Structural)]
pub enum ValidationError {
    /// The weight does not fit the unsigned 16-bit range.
    WeightOutOfRange,
}

impl Record {
    /// Constructs a record from an external representation whose weight is an
    /// arbitrary non-negative integer. The only validation is that the weight
    /// fits the unsigned 16-bit range; out-of-range input is rejected and no
    /// partially-constructed record exists.
    pub fn from_parts(name: String, weight: u64, diet: String) -> (result: Result<Record, ValidationError>)
        ensures
            match result {
                Ok(record) => {
                    &&& weight <= 65535
                    &&& record.name == name
                    &&& record.weight as u64 == weight
                    &&& record.diet == diet
                },
                Err(e) => {
                    &&& weight > 65535
                    &&& e == ValidationError::WeightOutOfRange
                },
            },
    {
        if weight <= 65535 {
            Ok(Record { name, weight: weight as u16, diet })
        } else {
            Err(ValidationError::WeightOutOfRange)
        }
    }
}

impl Clone for Record {
    /// A clone is equal to the original; the store hands out such copies,
    /// never references into its own contents.
    fn clone(&self) -> (result: Self)
        ensures
            result == *self,
    {
        Record { name: self.name.clone(), weight: self.weight, diet: self.diet.clone() }
    }
}

impl PartialEq for Record {
    /// Equality of records is structural: name, weight and diet all agree.
    fn eq(&self, other: &Record) -> (result: bool)
    {
        self.name == other.name && self.weight == other.weight && self.diet == other.diet
    }
}

impl vstd::std_specs::cmp::PartialEqSpecImpl for Record {
    open spec fn obeys_eq_spec() -> bool {
        true
    }

    open spec fn eq_spec(&self, other: &Record) -> bool {
        self.name@ == other.name@ && self.weight == other.weight && self.diet@ == other.diet@
    }
}

} // verus!
