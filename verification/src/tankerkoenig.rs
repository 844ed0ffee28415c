//! Fuel-price data for the stations around a coordinate.
//!
//! The surrounding application fetches the price listing over HTTP and
//! hands the decoded rows in as plain values; turning those rows into
//! stations with their price lists — and deciding when a response is an
//! error — is done and specified here. Prices, distances and the search
//! radius are unsigned decimal magnitudes ([`UDecimal`]); station
//! coordinates are exact [`CoordValue`]s.

use vstd::prelude::*;

use crate::digits::dec_digits_of;
use crate::digits::digit_char;
use crate::locator::udec_chars;
use crate::locator::CoordValue;
use crate::locator::CoordinateLocation;
use crate::locator::UDecimal;
use crate::locator::render_units_spec;

verus! {

/// Available fuel types.
#[derive(Clone, Copy, Debug, PartialEq, Eq, Structural)]
pub enum TankerFuelType {
    /// Fuel with 10% ethanol.
    E10,
    /// Fuel with 5% ethanol.
    E5,
    /// Diesel fuel.
    Diesel,
}

impl TankerFuelType {
    /// The fuel type's display name.
    pub fn label(&self) -> (r: String)
        ensures
            *self == TankerFuelType::E10 ==> r@ == "E10"@,
            *self == TankerFuelType::E5 ==> r@ == "E5"@,
            *self == TankerFuelType::Diesel ==> r@ == "Diesel"@,
    {
        match self {
            TankerFuelType::E10 => String::from_str("E10"),
            TankerFuelType::E5 => String::from_str("E5"),
            TankerFuelType::Diesel => String::from_str("Diesel"),
        }
    }
}

/// A price entry for a single fuel type.
#[derive(Clone, Copy, Debug, PartialEq, Eq, Structural)]
pub struct TankerPrice {
    /// The fuel type this price is for.
    pub fuel_type: TankerFuelType,
    /// Price for this fuel, in currency units scaled by 10^15.
    pub price: UDecimal,
}

/// A station with all required information including prices.
#[derive(Debug)]
pub struct TankerStation {
    /// ID of the station, as the price service provides it.
    pub id: String,
    /// Name of the station.
    pub name: String,
    /// Brand of the station.
    pub brand: String,
    /// Is the station currently open?
    pub is_open: bool,
    /// Distance from the search center.
    pub dist: UDecimal,
    /// The fuel prices of this station.
    pub prices: Vec<TankerPrice>,
    /// The location of this station.
    pub location: CoordinateLocation,
}

/// One row of the decoded price-service response, as plain values.
#[derive(Debug)]
pub struct TankerAPIStation {
    /// ID of the station.
    pub id: String,
    /// Name of the station.
    pub name: String,
    /// Brand of the station.
    pub brand: String,
    /// Latitude of the station.
    pub lat: CoordValue,
    /// Longitude of the station.
    pub lng: CoordValue,
    /// Distance from the search center.
    pub dist: UDecimal,
    /// Price for one liter of diesel, when sold.
    pub diesel: Option<UDecimal>,
    /// Price for one liter of E5, when sold.
    pub e5: Option<UDecimal>,
    /// Price for one liter of E10, when sold.
    pub e10: Option<UDecimal>,
    /// Is the station currently open?
    pub is_open: bool,
}

/// The price list a response row yields: one entry per fuel type that
/// has a price, in the order Diesel, E5, E10.
pub open spec fn prices_of(
    diesel: Option<UDecimal>,
    e5: Option<UDecimal>,
    e10: Option<UDecimal>,
) -> Seq<TankerPrice> {
    (match diesel {
        Some(p) => seq![TankerPrice { fuel_type: TankerFuelType::Diesel, price: p }],
        None => Seq::<TankerPrice>::empty(),
    }) + (match e5 {
        Some(p) => seq![TankerPrice { fuel_type: TankerFuelType::E5, price: p }],
        None => Seq::<TankerPrice>::empty(),
    }) + (match e10 {
        Some(p) => seq![TankerPrice { fuel_type: TankerFuelType::E10, price: p }],
        None => Seq::<TankerPrice>::empty(),
    })
}

/// The station a response row denotes: fields carried over, prices
/// collected, the coordinate assembled.
pub open spec fn station_corresponds(s: TankerStation, api: TankerAPIStation) -> bool {
    &&& s.id == api.id
    &&& s.name == api.name
    &&& s.brand == api.brand
    &&& s.is_open == api.is_open
    &&& s.dist == api.dist
    &&& s.prices@ == prices_of(api.diesel, api.e5, api.e10)
    &&& s.location == (CoordinateLocation { lat: api.lat, long: api.lng })
}

impl TankerStation {
    /// Build a station from a response row.
    pub fn from(api_resp: TankerAPIStation) -> (r: TankerStation)
        ensures
            station_corresponds(r, api_resp),
    {
        let mut prices: Vec<TankerPrice> = Vec::new();
        if let Some(p) = api_resp.diesel {
            prices.push(TankerPrice { fuel_type: TankerFuelType::Diesel, price: p });
        }
        if let Some(p) = api_resp.e5 {
            prices.push(TankerPrice { fuel_type: TankerFuelType::E5, price: p });
        }
        if let Some(p) = api_resp.e10 {
            prices.push(TankerPrice { fuel_type: TankerFuelType::E10, price: p });
        }
        proof {
            assert(prices@ =~= prices_of(api_resp.diesel, api_resp.e5, api_resp.e10));
        }
        TankerStation {
            id: api_resp.id,
            name: api_resp.name,
            brand: api_resp.brand,
            is_open: api_resp.is_open,
            dist: api_resp.dist,
            prices,
            location: CoordinateLocation { lat: api_resp.lat, long: api_resp.lng },
        }
    }
}

/// Possible errors of the price service.
#[derive(Debug)]
pub enum TankerError {
    /// The request failed at the transport layer.
    ReqwestError,
    /// The service answered, but flagged the response as failed; its
    /// message, when it sent one.
    APIError(Option<String>),
}

/// A price query: API key, search radius and center.
#[derive(Debug)]
pub struct TankerKoenig {
    /// API key for the price service.
    pub api_key: String,
    /// Radius in km around the location.
    pub radius: UDecimal,
    /// Location (center point) of the search area.
    pub location: CoordinateLocation,
}

/// What deciding a decoded response must yield: a flagged-ok response
/// with station rows becomes the station list, row by row; anything
/// else is an `APIError` carrying the service's message.
pub open spec fn response_spec(
    ok: bool,
    stations: Option<Seq<TankerAPIStation>>,
    message: Option<String>,
    r: Result<Vec<TankerStation>, TankerError>,
) -> bool {
    match (ok, stations) {
        (true, Some(v)) => r matches Ok(out) && out@.len() == v.len() && (forall|i: int|
            0 <= i < v.len() ==> station_corresponds(#[trigger] out@[i], v[i])),
        _ => r matches Err(e) && e matches TankerError::APIError(m) && m == message,
    }
}

impl TankerKoenig {
    /// Decide a decoded price-service response.
    pub fn stations_from_response(
        ok: bool,
        stations: Option<Vec<TankerAPIStation>>,
        message: Option<String>,
    ) -> (r: Result<Vec<TankerStation>, TankerError>)
        ensures
            response_spec(
                ok,
                match stations {
                    Some(v) => Some(v@),
                    None => None,
                },
                message,
                r,
            ),
    {
        match (ok, stations) {
            (true, Some(v)) => {
                let ghost rows = v@;
                let mut v = v;
                let mut out: Vec<TankerStation> = Vec::new();
                while v.len() > 0
                    invariant
                        out@.len() + v@.len() == rows.len(),
                        v@ == rows.subrange(out@.len() as int, rows.len() as int),
                        forall|i: int|
                            0 <= i < out@.len() ==> station_corresponds(
                                #[trigger] out@[i],
                                rows[i],
                            ),
                    decreases v@.len(),
                {
                    let api = v.remove(0);
                    proof {
                        assert(api == rows[out@.len() as int]);
                        assert(v@ =~= rows.subrange(out@.len() as int + 1, rows.len() as int));
                    }
                    let st = TankerStation::from(api);
                    out.push(st);
                }
                Ok(out)
            },
            (_, st) => {
                proof {
                    if ok {
                        assert(st is None);
                    }
                }
                Err(TankerError::APIError(message))
            },
        }
    }
}

// ---------------------------------------------------------------------------
// Display text
// ---------------------------------------------------------------------------

/// A price rounded half-up to hundredths, as `"<units>.<dd>"`.
pub open spec fn cents_chars(p: UDecimal) -> Seq<char> {
    let c = (p.units + 5000000000000) / 10000000000000;
    dec_digits_of((c / 100) as int) + seq!['.', digit_char(((c / 10) % 10) as int), digit_char((
    c % 10) as int)]
}

/// One line of a station's price listing.
pub open spec fn price_line(p: TankerPrice) -> Seq<char> {
    "\t\t"@ + (match p.fuel_type {
        TankerFuelType::E10 => "E10"@,
        TankerFuelType::E5 => "E5"@,
        TankerFuelType::Diesel => "Diesel"@,
    }) + ": "@ + cents_chars(p.price) + "€\n"@
}

/// The price listing, one line per entry.
pub open spec fn price_lines(ps: Seq<TankerPrice>) -> Seq<char>
    decreases ps.len(),
{
    if ps.len() == 0 {
        Seq::<char>::empty()
    } else {
        price_lines(ps.drop_last()) + price_line(ps.last())
    }
}

/// The report text of a station, line by line: heading, location,
/// open flag, distance, then the prices.
pub open spec fn station_report(s: TankerStation) -> Seq<char> {
    s.brand@ + "/"@ + s.name@ + " ("@ + s.id@ + ")\n"@ + "\tlocation: "@ + render_units_spec(
        s.location.lat.neg,
        s.location.lat.units as int,
    ) + ","@ + render_units_spec(s.location.long.neg, s.location.long.units as int) + "\n"@
        + "\topen: "@ + (if s.is_open {
        "true"@
    } else {
        "false"@
    }) + "\n"@ + "\tdist: "@ + udec_chars(s.dist) + "\n"@ + "\tPrices:\n"@ + price_lines(
        s.prices@,
    )
}

/// Render a price rounded to hundredths.
pub fn cents_string(p: UDecimal) -> (r: String)
    requires
        p.wf(),
    ensures
        r@ == cents_chars(p),
{
    let c = (p.units + 5_000_000_000_000) / 10_000_000_000_000;
    let whole = crate::digits::u128_to_digits(c / 100);
    let d1 = crate::digits::char_of_digit(((c / 10) % 10) as u8);
    let d0 = crate::digits::char_of_digit((c % 10) as u8);
    let mut out = whole;
    out.push('.');
    out.push(d1);
    out.push(d0);
    proof {
        crate::digits::lemma_dec_digits_props((c / 100) as int);
        assert(out@ =~= cents_chars(p));
    }
    crate::locator::string_of_render(&out)
}

impl TankerPrice {
    /// The line text `"<fuel>: <price>€"` without indentation is part
    /// of the station report; this renders the price part.
    pub fn price_string(&self) -> (r: String)
        requires
            self.price.wf(),
        ensures
            r@ == cents_chars(self.price),
    {
        cents_string(self.price)
    }
}

impl TankerStation {
    /// Valid magnitudes in every numeric field.
    pub open spec fn wf(self) -> bool {
        &&& self.location.wf()
        &&& self.dist.wf()
        &&& (forall|i: int| 0 <= i < self.prices@.len() ==> (#[trigger] self.prices@[i]).price.wf())
    }

    /// The station's report text.
    pub fn report_string(&self) -> (r: String)
        requires
            self.wf(),
        ensures
            r@ == station_report(*self),
    {
        let mut s = self.brand.clone();
        s.append("/");
        s.append(self.name.as_str());
        s.append(" (");
        s.append(self.id.as_str());
        s.append(")\n");
        s.append("\tlocation: ");
        let lat = crate::locator::render_units(self.location.lat.neg, self.location.lat.units);
        proof {
            crate::locator::lemma_render_chars(self.location.lat.neg, self.location.lat.units as int);
        }
        let lat_s = crate::locator::string_of_render(&lat);
        s.append(lat_s.as_str());
        s.append(",");
        let lng = crate::locator::render_units(self.location.long.neg, self.location.long.units);
        proof {
            crate::locator::lemma_render_chars(self.location.long.neg, self.location.long.units as int);
        }
        let lng_s = crate::locator::string_of_render(&lng);
        s.append(lng_s.as_str());
        s.append("\n");
        s.append("\topen: ");
        if self.is_open {
            s.append("true");
        } else {
            s.append("false");
        }
        s.append("\n");
        s.append("\tdist: ");
        let dist = crate::locator::udec_string(self.dist);
        proof {
            crate::locator::lemma_udec_chars(self.dist);
        }
        let dist_s = crate::locator::string_of_render(&dist);
        s.append(dist_s.as_str());
        s.append("\n");
        s.append("\tPrices:\n");
        let ghost head = s@;
        let mut i: usize = 0;
        while i < self.prices.len()
            invariant
                i <= self.prices@.len(),
                forall|k: int|
                    0 <= k < self.prices@.len() ==> (#[trigger] self.prices@[k]).price.wf(),
                s@ == head + price_lines(self.prices@.subrange(0, i as int)),
            decreases self.prices@.len() - i,
        {
            let p = self.prices[i];
            s.append("\t\t");
            let label = p.fuel_type.label();
            s.append(label.as_str());
            s.append(": ");
            let price = cents_string(p.price);
            s.append(price.as_str());
            s.append("€\n");
            proof {
                let pre = self.prices@.subrange(0, i as int);
                let nxt = self.prices@.subrange(0, i + 1);
                assert(nxt.drop_last() =~= pre);
                assert(nxt.last() == self.prices@[i as int]);
                assert(s@ =~= head + price_lines(nxt));
            }
            i += 1;
        }
        proof {
            assert(self.prices@.subrange(0, self.prices@.len() as int) =~= self.prices@);
            assert(s@ =~= station_report(*self));
        }
        s
    }
}

} // verus!
