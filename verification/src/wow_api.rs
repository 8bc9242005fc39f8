use vstd::prelude::*;
use vstd::string::StringExecFns;
use crate::bbl::{BBL, append_block5, append_lot4, append_boro1, block_chars, lot_chars, digit_char};

verus! {

/// The Who-Owns-What address-lookup URL for one parcel, as characters:
/// zero-padded block and lot, bare borough digit.
pub open spec fn spec_address_url(b: BBL) -> Seq<char> {
    "https://whoownswhat.justfix.nyc/api/address?block="@ + block_chars(b.block as int) + "&lot="@
        + lot_chars(b.lot as int) + "&borough="@ + seq![digit_char(b.boro as int)]
}

/// The Who-Owns-What aggregate URL for one parcel, as characters: the full
/// ten-character canonical BBL.
pub open spec fn spec_aggregate_url(b: BBL) -> Seq<char> {
    "https://whoownswhat.justfix.nyc/api/address/aggregate?bbl="@ + b.spec_format()
}

/// Build the address-lookup URL for a parcel.
pub fn wow_address_api_url(bbl: &BBL) -> (r: String)
    requires
        bbl.in_width(),
    ensures
        r@ == spec_address_url(*bbl),
{
    let mut out = String::from_str("https://whoownswhat.justfix.nyc/api/address?block=");
    append_block5(&mut out, bbl.block);
    out.append("&lot=");
    append_lot4(&mut out, bbl.lot);
    out.append("&borough=");
    append_boro1(&mut out, bbl.boro);
    proof {
        assert(out@ =~= spec_address_url(*bbl));
    }
    out
}

/// Build the aggregate URL for a parcel.
pub fn wow_aggregate_api_url(bbl: &BBL) -> (r: String)
    requires
        bbl.in_width(),
    ensures
        r@ == spec_aggregate_url(*bbl),
{
    let mut out = String::from_str("https://whoownswhat.justfix.nyc/api/address/aggregate?bbl=");
    append_boro1(&mut out, bbl.boro);
    append_block5(&mut out, bbl.block);
    append_lot4(&mut out, bbl.lot);
    proof {
        assert(out@ =~= spec_aggregate_url(*bbl));
    }
    out
}

} // verus!
