//! The columns of the sales table and the errors that its rows can raise.

use vstd::prelude::*;

verus! {

/// A column of the sales table.
#[derive(Clone, Copy, Debug, PartialEq, Eq, Structural)]
pub enum Field {
    PublishingYear,
    BookAverageRating,
    GrossSales,
    SalePrice,
    SalesRank,
    Publisher,
    UnitsSold,
    /// The average rating of the row's publisher; derived, not read.
    PublisherRating,
}

impl Field {
    /// The column's name in the table's header.
    pub open spec fn name(self) -> Seq<char> {
        match self {
            Field::PublishingYear => "Publishing Year"@,
            Field::BookAverageRating => "Book_average_rating"@,
            Field::GrossSales => "gross sales"@,
            Field::SalePrice => "sale price"@,
            Field::SalesRank => "sales rank"@,
            Field::Publisher => "Publisher"@,
            Field::UnitsSold => "units sold"@,
            Field::PublisherRating => "Publisher_rating"@,
        }
    }

    /// The column's name in the table's header.
    pub fn as_str(self) -> (name: &'static str)
        ensures
            name@ == self.name(),
    {
        match self {
            Field::PublishingYear => "Publishing Year",
            Field::BookAverageRating => "Book_average_rating",
            Field::GrossSales => "gross sales",
            Field::SalePrice => "sale price",
            Field::SalesRank => "sales rank",
            Field::Publisher => "Publisher",
            Field::UnitsSold => "units sold",
            Field::PublisherRating => "Publisher_rating",
        }
    }
}

/// The columns that a row must fill to be kept.
pub open spec fn required_fields() -> Seq<Field> {
    seq![
        Field::PublishingYear,
        Field::BookAverageRating,
        Field::GrossSales,
        Field::SalePrice,
        Field::SalesRank,
        Field::Publisher,
        Field::UnitsSold,
    ]
}

/// The columns of a feature vector, in the order of its entries.
pub open spec fn feature_fields() -> Seq<Field> {
    seq![
        Field::PublishingYear,
        Field::BookAverageRating,
        Field::GrossSales,
        Field::SalePrice,
        Field::PublisherRating,
    ]
}

/// The column that the model predicts.
pub open spec fn target_field() -> Field {
    Field::UnitsSold
}

/// The columns that a row must fill to be kept.
pub fn required() -> (fields: Vec<Field>)
    ensures
        fields@ == required_fields(),
{
    let fields = vec![
        Field::PublishingYear,
        Field::BookAverageRating,
        Field::GrossSales,
        Field::SalePrice,
        Field::SalesRank,
        Field::Publisher,
        Field::UnitsSold,
    ];
    assert(fields@ =~= required_fields());
    fields
}

/// The columns of a feature vector, in the order of its entries.
pub fn features() -> (fields: Vec<Field>)
    ensures
        fields@ == feature_fields(),
{
    let fields = vec![
        Field::PublishingYear,
        Field::BookAverageRating,
        Field::GrossSales,
        Field::SalePrice,
        Field::PublisherRating,
    ];
    assert(fields@ =~= feature_fields());
    fields
}

/// The column that the model predicts.
pub fn target() -> (field: Field)
    ensures
        field == target_field(),
{
    Field::UnitsSold
}

/// Why a table cannot be turned into numbers.
#[derive(Clone, Copy, Debug, PartialEq, Eq, Structural)]
pub enum DataError {
    /// The row at `record` has no value in column `field`.
    MissingField { record: usize, field: Field },
    /// The value of the row at `record` in column `field` is not a number.
    InvalidNumber { record: usize, field: Field },
    /// No rating is known for the publisher of the row at `record`.
    UnratedPublisher { record: usize },
}

/// Whether nothing in `faults` is a fault.
pub open spec fn faultless(faults: Seq<Option<DataError>>) -> bool {
    forall|i: int| 0 <= i < faults.len() ==> (#[trigger] faults[i]) is None
}

/// Whether `e` is the first fault in `faults`.
pub open spec fn is_first_fault(faults: Seq<Option<DataError>>, e: DataError) -> bool {
    exists|i: int|
        0 <= i < faults.len() && #[trigger] faults[i] == Some(e) && faultless(faults.take(i))
}

} // verus!
