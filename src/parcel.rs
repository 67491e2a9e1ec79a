use vstd::prelude::*;

verus! {

/// One assessed parcel as the structured-record stage describes it.
#[derive(Debug, Clone)]
pub struct Parcel {
    pub roll_year: String,
    pub county_name: String,
    pub primary_owner_first_name: Option<String>,
    pub primary_owner_last_name: String,
    pub municipality_name: String,
    pub print_key_code: String,
    pub deed_book: Option<String>,
    pub page: Option<String>,
    pub parcel_address: ParcelAddress,
    pub mailing_address: MailingAddress,
}

/// Where a parcel lies.
#[derive(Debug, Clone)]
pub struct ParcelAddress {
    pub number: Option<String>,
    pub street: Option<String>,
    pub suff: Option<String>,
}

/// Where the owner of a parcel receives mail.
#[derive(Debug, Clone)]
pub struct MailingAddress {
    pub city: Option<String>,
    pub state: Option<String>,
    pub street: Option<String>,
    pub number: Option<String>,
    pub suff: Option<String>,
    pub zip: Option<String>,
    pub country: Option<String>,
    pub po_box: Option<String>,
}

/// A roll as the search front end stores it: the print-key codes it covers,
/// comma-separated, and whether work on it is done.
#[derive(Debug, Clone, PartialEq, Eq)]
pub struct Roll {
    pub id: u16,
    pub sbls: String,
    pub completed: bool,
}

} // verus!
