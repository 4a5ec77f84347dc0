//! The messages of the `pprof` profile format, as far as a heap profile fills them.
//!
//! Every integer that names a string is an index into `Profile::string_table`.

use vstd::prelude::*;

verus! {

/// The meaning of one sample value: what is measured and in which unit.
#[derive(Clone, Copy, Debug, PartialEq, Eq, Structural)]
pub struct ValueType {
    pub type_: i64,
    pub unit: i64,
}

/// A key and a string value attached to a sample.
#[derive(Clone, Copy, Debug, PartialEq, Eq, Structural)]
pub struct Label {
    pub key: i64,
    pub str: i64,
}

/// A source line inside a function.
#[derive(Clone, Copy, Debug, PartialEq, Eq, Structural)]
pub struct Line {
    pub function_id: u64,
    pub line: i64,
}

/// One function of the profiled program.
#[derive(Clone, Copy, Debug, PartialEq, Eq, Structural)]
pub struct Function {
    pub id: u64,
    pub name: i64,
    pub system_name: i64,
    pub filename: i64,
    pub start_line: i64,
}

/// One instruction address with the lines it belongs to.
#[derive(Clone, Debug, PartialEq, Eq)]
pub struct Location {
    pub id: u64,
    pub address: u64,
    pub line: Vec<Line>,
}

/// One measurement: the call stack it was taken at, its values and its labels.
#[derive(Clone, Debug, PartialEq, Eq)]
pub struct Sample {
    pub location_id: Vec<u64>,
    pub value: Vec<i64>,
    pub label: Vec<Label>,
}

/// A whole profile.
#[derive(Clone, Debug, PartialEq, Eq)]
pub struct Profile {
    pub sample_type: Vec<ValueType>,
    pub sample: Vec<Sample>,
    pub location: Vec<Location>,
    pub function: Vec<Function>,
    pub string_table: Vec<String>,
}

/// What a `Location` holds.
pub ghost struct LocationView {
    pub id: u64,
    pub address: u64,
    pub line: Seq<Line>,
}

/// What a `Sample` holds.
pub ghost struct SampleView {
    pub location_id: Seq<u64>,
    pub value: Seq<i64>,
    pub label: Seq<Label>,
}

/// What a `Profile` holds.
pub ghost struct ProfileView {
    pub sample_type: Seq<ValueType>,
    pub sample: Seq<SampleView>,
    pub location: Seq<LocationView>,
    pub function: Seq<Function>,
    pub string_table: Seq<Seq<char>>,
}

impl View for Location {
    type V = LocationView;

    open spec fn view(&self) -> LocationView {
        LocationView { id: self.id, address: self.address, line: self.line@ }
    }
}

impl View for Sample {
    type V = SampleView;

    open spec fn view(&self) -> SampleView {
        SampleView { location_id: self.location_id@, value: self.value@, label: self.label@ }
    }
}

impl View for Profile {
    type V = ProfileView;

    open spec fn view(&self) -> ProfileView {
        ProfileView {
            sample_type: self.sample_type@,
            sample: Seq::new(self.sample@.len(), |i: int| self.sample@[i]@),
            location: Seq::new(self.location@.len(), |i: int| self.location@[i]@),
            function: self.function@,
            string_table: Seq::new(self.string_table@.len(), |i: int| self.string_table@[i]@),
        }
    }
}

impl ProfileView {
    /// Whether the sample holds one value and one label, and refers to
    /// functions and strings of this profile only.
    pub open spec fn holds_sample(self, sample: SampleView) -> bool {
        &&& sample.value.len() == 1
        &&& sample.label.len() == 1
        &&& 0 <= sample.label[0].key < self.string_table.len()
        &&& 0 <= sample.label[0].str < self.string_table.len()
        &&& forall|j: int|
            0 <= j < sample.location_id.len() ==> 1 <= #[trigger] sample.location_id[j]
                <= self.function.len()
    }

    /// A heap profile is well formed when its string table starts with the
    /// empty string and holds no string twice; it has one sample type; the
    /// function at position `i` has the id `i + 1`, and so has the location at
    /// position `i`, whose one line is in that function; no two locations
    /// share an address; and every reference to a string or to a function is
    /// in range.
    pub open spec fn well_formed(self) -> bool {
        &&& self.string_table.len() > 0
        &&& self.string_table[0] == Seq::<char>::empty()
        &&& self.string_table.no_duplicates()
        &&& self.sample_type.len() == 1
        &&& 0 <= self.sample_type[0].type_ < self.string_table.len()
        &&& 0 <= self.sample_type[0].unit < self.string_table.len()
        &&& self.function.len() == self.location.len()
        &&& forall|i: int|
            0 <= i < self.function.len() ==> {
                &&& (#[trigger] self.function[i]).id == i + 1
                &&& 0 <= self.function[i].system_name < self.string_table.len()
                &&& 0 <= self.function[i].filename < self.string_table.len()
            }
        &&& forall|i: int|
            0 <= i < self.location.len() ==> {
                &&& (#[trigger] self.location[i]).id == i + 1
                &&& self.location[i].line.len() == 1
                &&& self.location[i].line[0].function_id == i + 1
            }
        &&& forall|i: int, j: int|
            0 <= i < j < self.location.len() ==> (#[trigger] self.location[i]).address != (
            #[trigger] self.location[j]).address
        &&& forall|k: int| 0 <= k < self.sample.len() ==> self.holds_sample(#[trigger] self.sample[k])
    }
}

} // verus!
