use bbl_portfolios::bbl::BBL;
use bbl_portfolios::wow_api::{wow_address_api_url, wow_aggregate_api_url};

#[test]
fn test_wow_address_api_url_works() {
    assert_eq!(
        wow_address_api_url(&BBL::new(1, 5099, 39)),
        "https://whoownswhat.justfix.nyc/api/address?block=05099&lot=0039&borough=1"
    );
}

#[test]
fn test_wow_aggregate_api_url_works() {
    assert_eq!(
        wow_aggregate_api_url(&BBL::new(1, 5099, 39)),
        "https://whoownswhat.justfix.nyc/api/address/aggregate?bbl=1050990039"
    );
}
