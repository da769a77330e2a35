//! Geohash codec over fixed-point coordinates.
//!
//! Coordinates are taken as integers in units of 1e-7 degree (the "E7"
//! convention), so the whole codec is exact integer arithmetic: a coordinate
//! pair is quantized to a cell index, the longitude and latitude bits are
//! interleaved, and the resulting bit string is written in base-32 digits.

use vstd::arithmetic::power2::*;
use vstd::prelude::*;

verus! {

/// Number of characters of a freshly encoded geohash (cell size about 7 m).
pub const PRECISION: usize = 9;

/// Largest northern latitude, in E7 units (90 degrees).
pub const LAT_BOUND_E7: i64 = 900_000_000;

/// Largest eastern longitude, in E7 units (180 degrees).
pub const LON_BOUND_E7: i64 = 1_800_000_000;

/// Failures of the codec.
#[derive(Clone, Copy, Debug, PartialEq, Eq, Structural)]
pub enum GeoError {
    /// The coordinates lie outside the valid latitude/longitude ranges.
    Encoding,
    /// The geohash string is malformed and cannot be decoded.
    Decoding,
}

/// An observation: a geohash cell together with a timestamp in milliseconds.
#[derive(Clone, Debug)]
pub struct GeoLocationTime {
    pub geohash: String,
    pub timestamp_ms: u64,
}

impl View for GeoLocationTime {
    type V = (Seq<char>, u64);

    open spec fn view(&self) -> (Seq<char>, u64) {
        (self.geohash@, self.timestamp_ms)
    }
}

/// The base-32 alphabet of geohashes (digits and lower-case letters,
/// skipping `a`, `i`, `l` and `o`).
pub open spec fn b32_char(d: int) -> char {
    if d == 0 { '0' } else if d == 1 { '1' } else if d == 2 { '2' } else if d == 3 { '3' }
    else if d == 4 { '4' } else if d == 5 { '5' } else if d == 6 { '6' } else if d == 7 { '7' }
    else if d == 8 { '8' } else if d == 9 { '9' } else if d == 10 { 'b' } else if d == 11 { 'c' }
    else if d == 12 { 'd' } else if d == 13 { 'e' } else if d == 14 { 'f' } else if d == 15 { 'g' }
    else if d == 16 { 'h' } else if d == 17 { 'j' } else if d == 18 { 'k' } else if d == 19 { 'm' }
    else if d == 20 { 'n' } else if d == 21 { 'p' } else if d == 22 { 'q' } else if d == 23 { 'r' }
    else if d == 24 { 's' } else if d == 25 { 't' } else if d == 26 { 'u' } else if d == 27 { 'v' }
    else if d == 28 { 'w' } else if d == 29 { 'x' } else if d == 30 { 'y' } else if d == 31 { 'z' }
    else { ' ' }
}

/// The inverse of [`b32_char`]: the digit value of a character, or -1 if the
/// character is not part of the alphabet.
pub open spec fn b32_value(c: char) -> int {
    if c == '0' { 0 } else if c == '1' { 1 } else if c == '2' { 2 } else if c == '3' { 3 }
    else if c == '4' { 4 } else if c == '5' { 5 } else if c == '6' { 6 } else if c == '7' { 7 }
    else if c == '8' { 8 } else if c == '9' { 9 } else if c == 'b' { 10 } else if c == 'c' { 11 }
    else if c == 'd' { 12 } else if c == 'e' { 13 } else if c == 'f' { 14 } else if c == 'g' { 15 }
    else if c == 'h' { 16 } else if c == 'j' { 17 } else if c == 'k' { 18 } else if c == 'm' { 19 }
    else if c == 'n' { 20 } else if c == 'p' { 21 } else if c == 'q' { 22 } else if c == 'r' { 23 }
    else if c == 's' { 24 } else if c == 't' { 25 } else if c == 'u' { 26 } else if c == 'v' { 27 }
    else if c == 'w' { 28 } else if c == 'x' { 29 } else if c == 'y' { 30 } else if c == 'z' { 31 }
    else { -1 }
}

/// The quantized longitude cell: the half-open range [-180, 180] degrees is
/// split into 2^23 equal columns, with the eastern boundary folded into the
/// last column.
pub open spec fn lon_index(lon_e7: int) -> int {
    let q = (lon_e7 + 1800000000) * 8388608 / 3600000000;
    if q > 8388607 { 8388607 } else { q }
}

/// The quantized latitude cell: the range [-90, 90] degrees is split into
/// 2^22 equal rows, with the north pole folded into the last row.
pub open spec fn lat_index(lat_e7: int) -> int {
    let q = (lat_e7 + 900000000) * 4194304 / 1800000000;
    if q > 4194303 { 4194303 } else { q }
}

/// The interleaved bit string of a cell, built from the least significant
/// end: stream position `j` (counting from the most significant bit of an
/// `nbits`-long stream) carries a longitude bit when `j` is even and a
/// latitude bit when `j` is odd.
pub open spec fn interleave(lon: int, lat: int, nbits: nat) -> int
    decreases nbits,
{
    if nbits == 0 {
        0
    } else if (nbits - 1) % 2 == 0 {
        interleave(lon / 2, lat, (nbits - 1) as nat) * 2 + lon % 2
    } else {
        interleave(lon, lat / 2, (nbits - 1) as nat) * 2 + lat % 2
    }
}

/// The longitude bits of an interleaved cell, undoing [`interleave`].
pub open spec fn cell_lon(cell: int, nbits: nat) -> int
    decreases nbits,
{
    if nbits == 0 {
        0
    } else if (nbits - 1) % 2 == 0 {
        cell_lon(cell / 2, (nbits - 1) as nat) * 2 + cell % 2
    } else {
        cell_lon(cell / 2, (nbits - 1) as nat)
    }
}

/// The latitude bits of an interleaved cell, undoing [`interleave`].
pub open spec fn cell_lat(cell: int, nbits: nat) -> int
    decreases nbits,
{
    if nbits == 0 {
        0
    } else if (nbits - 1) % 2 == 0 {
        cell_lat(cell / 2, (nbits - 1) as nat)
    } else {
        cell_lat(cell / 2, (nbits - 1) as nat) * 2 + cell % 2
    }
}

/// How many of the `5 * len` bits of a `len`-character geohash carry
/// longitude: the longitude gets the extra bit when the count is odd.
pub open spec fn lon_bit_count(len: nat) -> nat {
    ((5 * len + 1) / 2) as nat
}

/// How many of the `5 * len` bits of a `len`-character geohash carry
/// latitude.
pub open spec fn lat_bit_count(len: nat) -> nat {
    ((5 * len) / 2) as nat
}

/// The base-32 digit string of a cell value, `len` characters long, most
/// significant digit first.
pub open spec fn cell_chars(cell: int, len: nat) -> Seq<char>
    decreases len,
{
    if len == 0 {
        Seq::empty()
    } else {
        cell_chars(cell / 32, (len - 1) as nat).push(b32_char(cell % 32))
    }
}

/// The cell value written by a digit string (garbage on invalid digits).
pub open spec fn parse_cell(s: Seq<char>) -> int
    decreases s.len(),
{
    if s.len() == 0 {
        0
    } else {
        parse_cell(s.drop_last()) * 32 + b32_value(s.last())
    }
}

/// A well-formed geohash key: 1 to 12 characters, all from the base-32
/// alphabet.
pub open spec fn valid_geohash(s: Seq<char>) -> bool {
    1 <= s.len() <= 12 && forall|i: int| 0 <= i < s.len() ==> b32_value(s[i]) >= 0
}

/// The geohash of a coordinate pair at the fixed encoding precision.
pub open spec fn spec_encode(lon_e7: int, lat_e7: int) -> Seq<char> {
    cell_chars(interleave(lon_index(lon_e7), lat_index(lat_e7), 45), 9)
}

/// Whether a coordinate pair lies in the encodable range.
pub open spec fn in_coord_range(lon_e7: int, lat_e7: int) -> bool {
    -1800000000 <= lon_e7 <= 1800000000 && -900000000 <= lat_e7 <= 900000000
}

/// An interleaved value is a non-negative `nbits`-bit number.
pub proof fn lemma_interleave_bound(lon: int, lat: int, nbits: nat)
    requires
        lon >= 0,
        lat >= 0,
    ensures
        0 <= interleave(lon, lat, nbits) < pow2(nbits),
    decreases nbits,
{
    if nbits == 0 {
        assert(pow2(0) == 1) by { lemma2_to64(); }
    } else {
        lemma_pow2_unfold(nbits);
        if (nbits - 1) % 2 == 0 {
            lemma_interleave_bound(lon / 2, lat, (nbits - 1) as nat);
        } else {
            lemma_interleave_bound(lon, lat / 2, (nbits - 1) as nat);
        }
    }
}

/// The longitude half of a cell fits in its share of the bits.
pub proof fn lemma_cell_lon_bound(cell: int, nbits: nat)
    requires
        cell >= 0,
    ensures
        0 <= cell_lon(cell, nbits) < pow2(((nbits + 1) / 2) as nat),
    decreases nbits,
{
    if nbits == 0 {
        assert(pow2(0) == 1) by { lemma2_to64(); }
    } else {
        lemma_cell_lon_bound(cell / 2, (nbits - 1) as nat);
        if (nbits - 1) % 2 == 0 {
            lemma_pow2_unfold(((nbits + 1) / 2) as nat);
        } else if ((nbits + 1) / 2) > (nbits / 2) {
            lemma_pow2_strictly_increases((nbits / 2) as nat, ((nbits + 1) / 2) as nat);
        }
    }
}

/// Every digit of the alphabet maps back to itself.
pub proof fn lemma_b32_roundtrip()
    ensures
        forall|d: int| 0 <= d < 32 ==> #[trigger] b32_value(b32_char(d)) == d,
{
}

/// A digit string is made of alphabet characters, one per digit.
pub proof fn lemma_cell_chars_valid(cell: int, len: nat)
    requires
        cell >= 0,
    ensures
        cell_chars(cell, len).len() == len,
        forall|i: int| 0 <= i < len ==> b32_value(#[trigger] cell_chars(cell, len)[i]) >= 0,
    decreases len,
{
    lemma_b32_roundtrip();
    if len > 0 {
        lemma_cell_chars_valid(cell / 32, (len - 1) as nat);
    }
}

/// The latitude half of a cell fits in its share of the bits.
pub proof fn lemma_cell_lat_bound(cell: int, nbits: nat)
    requires
        cell >= 0,
    ensures
        0 <= cell_lat(cell, nbits) < pow2((nbits / 2) as nat),
    decreases nbits,
{
    if nbits == 0 {
        assert(pow2(0) == 1) by { lemma2_to64(); }
    } else {
        lemma_cell_lat_bound(cell / 2, (nbits - 1) as nat);
        if (nbits - 1) % 2 == 0 {
            if nbits / 2 > (nbits - 1) / 2 {
                lemma_pow2_strictly_increases(((nbits - 1) / 2) as nat, (nbits / 2) as nat);
            }
        } else {
            lemma_pow2_unfold((nbits / 2) as nat);
        }
    }
}

/// The power of two as a machine word.
fn two_pow(e: usize) -> (r: u64)
    requires
        e <= 63,
    ensures
        r as int == pow2(e as nat),
    decreases e,
{
    if e == 0 {
        proof { lemma2_to64(); }
        1
    } else {
        let rest = two_pow(e - 1);
        proof {
            lemma_pow2_unfold(e as nat);
            if ((e - 1) as nat) < 63 {
                lemma_pow2_strictly_increases((e - 1) as nat, 63);
            }
            lemma2_to64_rest();
        }
        rest * 2
    }
}

/// The one-character string of a base-32 digit.
fn b32_str(d: u64) -> (r: &'static str)
    requires
        d < 32,
    ensures
        r@.len() == 1,
        r@[0] == b32_char(d as int),
{
    if d == 0 { proof { reveal_strlit("0"); } "0" }
    else if d == 1 { proof { reveal_strlit("1"); } "1" }
    else if d == 2 { proof { reveal_strlit("2"); } "2" }
    else if d == 3 { proof { reveal_strlit("3"); } "3" }
    else if d == 4 { proof { reveal_strlit("4"); } "4" }
    else if d == 5 { proof { reveal_strlit("5"); } "5" }
    else if d == 6 { proof { reveal_strlit("6"); } "6" }
    else if d == 7 { proof { reveal_strlit("7"); } "7" }
    else if d == 8 { proof { reveal_strlit("8"); } "8" }
    else if d == 9 { proof { reveal_strlit("9"); } "9" }
    else if d == 10 { proof { reveal_strlit("b"); } "b" }
    else if d == 11 { proof { reveal_strlit("c"); } "c" }
    else if d == 12 { proof { reveal_strlit("d"); } "d" }
    else if d == 13 { proof { reveal_strlit("e"); } "e" }
    else if d == 14 { proof { reveal_strlit("f"); } "f" }
    else if d == 15 { proof { reveal_strlit("g"); } "g" }
    else if d == 16 { proof { reveal_strlit("h"); } "h" }
    else if d == 17 { proof { reveal_strlit("j"); } "j" }
    else if d == 18 { proof { reveal_strlit("k"); } "k" }
    else if d == 19 { proof { reveal_strlit("m"); } "m" }
    else if d == 20 { proof { reveal_strlit("n"); } "n" }
    else if d == 21 { proof { reveal_strlit("p"); } "p" }
    else if d == 22 { proof { reveal_strlit("q"); } "q" }
    else if d == 23 { proof { reveal_strlit("r"); } "r" }
    else if d == 24 { proof { reveal_strlit("s"); } "s" }
    else if d == 25 { proof { reveal_strlit("t"); } "t" }
    else if d == 26 { proof { reveal_strlit("u"); } "u" }
    else if d == 27 { proof { reveal_strlit("v"); } "v" }
    else if d == 28 { proof { reveal_strlit("w"); } "w" }
    else if d == 29 { proof { reveal_strlit("x"); } "x" }
    else if d == 30 { proof { reveal_strlit("y"); } "y" }
    else { proof { reveal_strlit("z"); } "z" }
}

/// The numeric value of a base-32 character, if it is in the alphabet.
fn b32_digit(c: char) -> (r: Option<u64>)
    ensures
        b32_value(c) >= 0 <==> r is Some,
        r is Some ==> r.unwrap() as int == b32_value(c),
{
    if c == '0' { Some(0) } else if c == '1' { Some(1) } else if c == '2' { Some(2) }
    else if c == '3' { Some(3) } else if c == '4' { Some(4) } else if c == '5' { Some(5) }
    else if c == '6' { Some(6) } else if c == '7' { Some(7) } else if c == '8' { Some(8) }
    else if c == '9' { Some(9) } else if c == 'b' { Some(10) } else if c == 'c' { Some(11) }
    else if c == 'd' { Some(12) } else if c == 'e' { Some(13) } else if c == 'f' { Some(14) }
    else if c == 'g' { Some(15) } else if c == 'h' { Some(16) } else if c == 'j' { Some(17) }
    else if c == 'k' { Some(18) } else if c == 'm' { Some(19) } else if c == 'n' { Some(20) }
    else if c == 'p' { Some(21) } else if c == 'q' { Some(22) } else if c == 'r' { Some(23) }
    else if c == 's' { Some(24) } else if c == 't' { Some(25) } else if c == 'u' { Some(26) }
    else if c == 'v' { Some(27) } else if c == 'w' { Some(28) } else if c == 'x' { Some(29) }
    else if c == 'y' { Some(30) } else if c == 'z' { Some(31) } else { None }
}

/// Interleaves the low bits of two machine words, mirroring [`interleave`].
fn interleave_bits(lon: u64, lat: u64, nbits: usize) -> (c: u64)
    requires
        nbits <= 60,
    ensures
        c as int == interleave(lon as int, lat as int, nbits as nat),
    decreases nbits,
{
    if nbits == 0 {
        0
    } else if (nbits - 1) % 2 == 0 {
        let rest = interleave_bits(lon / 2, lat, nbits - 1);
        proof {
            lemma_interleave_bound(lon as int / 2, lat as int, (nbits - 1) as nat);
            if ((nbits - 1) as nat) < 59 {
                lemma_pow2_strictly_increases((nbits - 1) as nat, 59);
            }
            lemma2_to64_rest();
        }
        rest * 2 + lon % 2
    } else {
        let rest = interleave_bits(lon, lat / 2, nbits - 1);
        proof {
            lemma_interleave_bound(lon as int, lat as int / 2, (nbits - 1) as nat);
            if ((nbits - 1) as nat) < 59 {
                lemma_pow2_strictly_increases((nbits - 1) as nat, 59);
            }
            lemma2_to64_rest();
        }
        rest * 2 + lat % 2
    }
}

/// Reads the longitude bits back out of a cell, mirroring [`cell_lon`].
fn split_lon(cell: u64, nbits: usize) -> (r: u64)
    requires
        nbits <= 60,
    ensures
        r as int == cell_lon(cell as int, nbits as nat),
    decreases nbits,
{
    if nbits == 0 {
        0
    } else if (nbits - 1) % 2 == 0 {
        let rest = split_lon(cell / 2, nbits - 1);
        proof {
            lemma_cell_lon_bound(cell as int / 2, (nbits - 1) as nat);
            if ((nbits - 1) as nat + 1) / 2 < 59 {
                lemma_pow2_strictly_increases((((nbits - 1) as nat + 1) / 2) as nat, 59);
            }
            lemma2_to64_rest();
        }
        rest * 2 + cell % 2
    } else {
        split_lon(cell / 2, nbits - 1)
    }
}

/// Reads the latitude bits back out of a cell, mirroring [`cell_lat`].
fn split_lat(cell: u64, nbits: usize) -> (r: u64)
    requires
        nbits <= 60,
    ensures
        r as int == cell_lat(cell as int, nbits as nat),
    decreases nbits,
{
    if nbits == 0 {
        0
    } else if (nbits - 1) % 2 == 0 {
        split_lat(cell / 2, nbits - 1)
    } else {
        let rest = split_lat(cell / 2, nbits - 1);
        proof {
            lemma_cell_lat_bound(cell as int / 2, (nbits - 1) as nat);
            if ((nbits - 1) as nat) / 2 < 59 {
                lemma_pow2_strictly_increases((((nbits - 1) as nat) / 2) as nat, 59);
            }
            lemma2_to64_rest();
        }
        rest * 2 + cell % 2
    }
}

/// Writes a cell value as a base-32 string, mirroring [`cell_chars`].
fn cell_to_string(cell: u64, len: usize) -> (s: String)
    ensures
        s@ == cell_chars(cell as int, len as nat),
    decreases len,
{
    if len == 0 {
        let s = String::new();
        proof {
            assert(s@ =~= cell_chars(cell as int, 0));
        }
        s
    } else {
        let mut s = cell_to_string(cell / 32, len - 1);
        let d = b32_str(cell % 32);
        s.append(d);
        proof {
            assert(s@ =~= cell_chars(cell as int / 32, (len - 1) as nat).push(
                b32_char(cell as int % 32)));
        }
        s
    }
}

/// Encodes a coordinate pair as a nine-character geohash key, in longitude,
/// latitude order (x before y). Coordinates are in E7 fixed point; out of
/// range coordinates are rejected.
pub fn ghash(lon_e7: i64, lat_e7: i64) -> (r: Result<String, GeoError>)
    ensures
        r is Ok <==> in_coord_range(lon_e7 as int, lat_e7 as int),
        r is Ok ==> r.unwrap()@ == spec_encode(lon_e7 as int, lat_e7 as int),
        r is Ok ==> valid_geohash(r.unwrap()@) && r.unwrap()@.len() == PRECISION,
        !in_coord_range(lon_e7 as int, lat_e7 as int) ==> r == Result::<String, GeoError>::Err(
            GeoError::Encoding,
        ),
{
    if lon_e7 < -LON_BOUND_E7 || lon_e7 > LON_BOUND_E7 || lat_e7 < -LAT_BOUND_E7 || lat_e7
        > LAT_BOUND_E7 {
        return Err(GeoError::Encoding);
    }
    let lon_q = ((lon_e7 + 1_800_000_000) as u64) * 8388608 / 3600000000;
    let lon_i = if lon_q > 8388607 { 8388607 } else { lon_q };
    let lat_q = ((lat_e7 + 900_000_000) as u64) * 4194304 / 1800000000;
    let lat_i = if lat_q > 4194303 { 4194303 } else { lat_q };
    let cell = interleave_bits(lon_i, lat_i, 45);
    let s = cell_to_string(cell, PRECISION);
    proof {
        lemma_interleave_bound(lon_i as int, lat_i as int, 45);
        lemma_cell_chars_valid(cell as int, PRECISION as nat);
    }
    Ok(s)
}

/// Halving a number built as twice a part plus a bit recovers the part and
/// the bit.
proof fn lemma_unstep(x: int, b: int)
    requires
        x >= 0,
        0 <= b < 2,
    ensures
        (x * 2 + b) / 2 == x,
        (x * 2 + b) % 2 == b,
{
    vstd::arithmetic::div_mod::lemma_fundamental_div_mod_converse(x * 2 + b, 2, x, b);
}

/// Splitting an interleaved cell gives back exactly the longitude and
/// latitude bits that built it.
pub proof fn lemma_interleave_roundtrip(lon: int, lat: int, nbits: nat)
    requires
        0 <= lon < pow2(((nbits + 1) / 2) as nat),
        0 <= lat < pow2((nbits / 2) as nat),
    ensures
        cell_lon(interleave(lon, lat, nbits), nbits) == lon,
        cell_lat(interleave(lon, lat, nbits), nbits) == lat,
    decreases nbits,
{
    if nbits == 0 {
        assert(pow2(0) == 1) by { lemma2_to64(); }
    } else if (nbits - 1) % 2 == 0 {
        // nbits is odd: the last stream bit is the longitude's lowest bit.
        lemma_pow2_unfold(((nbits + 1) / 2) as nat);
        assert(lon / 2 < pow2((((nbits - 1) + 1) / 2) as nat)) by {
            let p = pow2((((nbits - 1) + 1) / 2) as nat) as int;
            vstd::arithmetic::div_mod::lemma_div_is_ordered(lon, 2 * p - 1, 2);
            vstd::arithmetic::div_mod::lemma_fundamental_div_mod_converse(2 * p - 1, 2, p - 1, 1);
        }
        lemma_interleave_roundtrip(lon / 2, lat, (nbits - 1) as nat);
        lemma_interleave_bound(lon / 2, lat, (nbits - 1) as nat);
        lemma_unstep(interleave(lon / 2, lat, (nbits - 1) as nat), lon % 2);
        vstd::arithmetic::div_mod::lemma_fundamental_div_mod(lon, 2);
    } else {
        // nbits is even: the last stream bit is the latitude's lowest bit.
        lemma_pow2_unfold((nbits / 2) as nat);
        assert(lat / 2 < pow2((((nbits - 1)) / 2) as nat)) by {
            let p = pow2((((nbits - 1)) / 2) as nat) as int;
            vstd::arithmetic::div_mod::lemma_div_is_ordered(lat, 2 * p - 1, 2);
            vstd::arithmetic::div_mod::lemma_fundamental_div_mod_converse(2 * p - 1, 2, p - 1, 1);
        }
        lemma_interleave_roundtrip(lon, lat / 2, (nbits - 1) as nat);
        lemma_interleave_bound(lon, lat / 2, (nbits - 1) as nat);
        lemma_unstep(interleave(lon, lat / 2, (nbits - 1) as nat), lat % 2);
        vstd::arithmetic::div_mod::lemma_fundamental_div_mod(lat, 2);
    }
}

/// Parsing the digit string of a cell value gives the cell value back.
pub proof fn lemma_chars_roundtrip(cell: int, len: nat)
    requires
        0 <= cell < pow2(5 * len),
    ensures
        parse_cell(cell_chars(cell, len)) == cell,
    decreases len,
{
    if len == 0 {
        assert(pow2(0) == 1) by { lemma2_to64(); }
    } else {
        lemma_b32_roundtrip();
        assert(pow2(5 * len) == 32 * pow2(5 * (len - 1) as nat)) by {
            lemma_pow2_adds(5, 5 * (len - 1) as nat);
            lemma2_to64();
        }
        assert(cell / 32 < pow2(5 * (len - 1) as nat)) by {
            let p = pow2(5 * (len - 1) as nat) as int;
            vstd::arithmetic::div_mod::lemma_div_is_ordered(cell, 32 * p - 1, 32);
            vstd::arithmetic::div_mod::lemma_fundamental_div_mod_converse(32 * p - 1, 32, p - 1, 31);
        }
        lemma_chars_roundtrip(cell / 32, (len - 1) as nat);
        assert(cell_chars(cell, len).drop_last() =~= cell_chars(cell / 32, (len - 1) as nat));
        vstd::arithmetic::div_mod::lemma_fundamental_div_mod(cell, 32);
    }
}

/// Every alphabet character maps back to itself through its digit value.
proof fn lemma_b32_char_of_value()
    ensures
        forall|c: char| b32_value(c) >= 0 ==> #[trigger] b32_char(b32_value(c)) == c,
{
}

/// A well-formed key writes a non-negative cell value bounded by its bit
/// width.
pub proof fn lemma_parse_bound(s: Seq<char>)
    requires
        forall|i: int| 0 <= i < s.len() ==> b32_value(s[i]) >= 0,
    ensures
        0 <= parse_cell(s) < pow2(5 * s.len()),
    decreases s.len(),
{
    if s.len() == 0 {
        assert(pow2(0) == 1) by { lemma2_to64(); }
    } else {
        assert(forall|i: int| 0 <= i < s.drop_last().len() ==> s.drop_last()[i] == s[i]);
        lemma_parse_bound(s.drop_last());
        assert(pow2(5 * s.len()) == 32 * pow2(5 * (s.len() - 1) as nat)) by {
            lemma_pow2_adds(5, 5 * (s.len() - 1) as nat);
            lemma2_to64();
        }
    }
}

/// Printing the cell value a well-formed key parses to gives the key back.
pub proof fn lemma_parse_chars_roundtrip(s: Seq<char>)
    requires
        forall|i: int| 0 <= i < s.len() ==> b32_value(s[i]) >= 0,
    ensures
        cell_chars(parse_cell(s), s.len()) == s,
    decreases s.len(),
{
    lemma_b32_char_of_value();
    if s.len() == 0 {
        assert(cell_chars(parse_cell(s), 0) =~= s);
    } else {
        let d = s.drop_last();
        assert(forall|i: int| 0 <= i < d.len() ==> d[i] == s[i]);
        lemma_parse_bound(d);
        lemma_parse_chars_roundtrip(d);
        let cell = parse_cell(s);
        vstd::arithmetic::div_mod::lemma_fundamental_div_mod_converse(
            cell,
            32,
            parse_cell(d),
            b32_value(s.last()),
        );
        assert(cell_chars(cell, s.len()) =~= s);
    }
}

/// Re-interleaving the two split halves of a cell gives the cell back.
pub proof fn lemma_split_interleave_roundtrip(cell: int, nbits: nat)
    requires
        0 <= cell < pow2(nbits),
    ensures
        interleave(cell_lon(cell, nbits), cell_lat(cell, nbits), nbits) == cell,
    decreases nbits,
{
    if nbits == 0 {
        assert(pow2(0) == 1) by { lemma2_to64(); }
    } else {
        lemma_pow2_unfold(nbits);
        assert(cell / 2 < pow2((nbits - 1) as nat)) by {
            let p = pow2((nbits - 1) as nat) as int;
            vstd::arithmetic::div_mod::lemma_div_is_ordered(cell, 2 * p - 1, 2);
            vstd::arithmetic::div_mod::lemma_fundamental_div_mod_converse(2 * p - 1, 2, p - 1, 1);
        }
        lemma_split_interleave_roundtrip(cell / 2, (nbits - 1) as nat);
        if (nbits - 1) % 2 == 0 {
            lemma_cell_lon_bound(cell / 2, (nbits - 1) as nat);
            lemma_unstep(cell_lon(cell / 2, (nbits - 1) as nat), cell % 2);
        } else {
            lemma_cell_lat_bound(cell / 2, (nbits - 1) as nat);
            lemma_unstep(cell_lat(cell / 2, (nbits - 1) as nat), cell % 2);
        }
        vstd::arithmetic::div_mod::lemma_fundamental_div_mod(cell, 2);
    }
}

/// Round trip of the codec: decoding an encoded key recovers exactly the
/// quantized cell the coordinates fell in, so a point can never drift to
/// another cell by being written and read back.
pub proof fn lemma_encode_decode_roundtrip(lon_e7: int, lat_e7: int)
    requires
        in_coord_range(lon_e7, lat_e7),
    ensures
        cell_lon(parse_cell(spec_encode(lon_e7, lat_e7)), 45) == lon_index(lon_e7),
        cell_lat(parse_cell(spec_encode(lon_e7, lat_e7)), 45) == lat_index(lat_e7),
{
    let lon = lon_index(lon_e7);
    let lat = lat_index(lat_e7);
    assert(0 <= lon < 8388608 && 0 <= lat < 4194304) by {
        vstd::arithmetic::div_mod::lemma_div_is_ordered(0, (lon_e7 + 1800000000) * 8388608,
            3600000000);
        vstd::arithmetic::div_mod::lemma_div_is_ordered(0, (lat_e7 + 900000000) * 4194304,
            1800000000);
        assert((lon_e7 + 1800000000) * 8388608 >= 0) by (nonlinear_arith)
            requires
                lon_e7 + 1800000000 >= 0,
        ;
        assert((lat_e7 + 900000000) * 4194304 >= 0) by (nonlinear_arith)
            requires
                lat_e7 + 900000000 >= 0,
        ;
    }
    assert(pow2(23) == 8388608 && pow2(22) == 4194304) by {
        lemma2_to64();
    }
    let cell = interleave(lon, lat, 45);
    lemma_interleave_bound(lon, lat, 45);
    assert(5 * 9 == 45);
    lemma_chars_roundtrip(cell, 9);
    lemma_interleave_roundtrip(lon, lat, 45);
}

/// The same-length key of the cell `dx` columns east and `dy` rows north of
/// the one a key names, wrapping around at the edges of the grid.
pub open spec fn spec_neighbor(s: Seq<char>, dx: int, dy: int) -> Seq<char> {
    let nbits = (5 * s.len()) as nat;
    let cell = parse_cell(s);
    let lon2 = (cell_lon(cell, nbits) + dx) % (pow2(lon_bit_count(s.len())) as int);
    let lat2 = (cell_lat(cell, nbits) + dy) % (pow2(lat_bit_count(s.len())) as int);
    cell_chars(interleave(lon2, lat2, nbits), s.len())
}

/// A neighbor of a well-formed key is itself well formed, at the same
/// precision.
pub proof fn lemma_neighbor_valid(s: Seq<char>, dx: int, dy: int)
    requires
        valid_geohash(s),
    ensures
        valid_geohash(spec_neighbor(s, dx, dy)),
        spec_neighbor(s, dx, dy).len() == s.len(),
{
    let len = s.len();
    let nbits = (5 * len) as nat;
    lemma_pow2_pos(lon_bit_count(len));
    lemma_pow2_pos(lat_bit_count(len));
    let cell = parse_cell(s);
    lemma_parse_bound(s);
    let lon2 = (cell_lon(cell, nbits) + dx) % (pow2(lon_bit_count(len)) as int);
    let lat2 = (cell_lat(cell, nbits) + dy) % (pow2(lat_bit_count(len)) as int);
    vstd::arithmetic::div_mod::lemma_mod_division_less_than_divisor(
        cell_lon(cell, nbits) + dx,
        pow2(lon_bit_count(len)) as int,
    );
    vstd::arithmetic::div_mod::lemma_mod_division_less_than_divisor(
        cell_lat(cell, nbits) + dy,
        pow2(lat_bit_count(len)) as int,
    );
    lemma_interleave_bound(lon2, lat2, nbits);
    lemma_cell_chars_valid(interleave(lon2, lat2, nbits), len);
}

/// Stepping to a neighbor and back lands on the starting cell: for a
/// well-formed key, moving `(dx, dy)` on the wrapped grid and then
/// `(-dx, -dy)` is the identity. In particular each of the eight
/// neighbors has the original cell among its own neighbors.
pub proof fn lemma_neighbor_involution(s: Seq<char>, dx: int, dy: int)
    requires
        valid_geohash(s),
    ensures
        spec_neighbor(spec_neighbor(s, dx, dy), -dx, -dy) == s,
{
    let len = s.len();
    let nbits = (5 * len) as nat;
    let lonb = lon_bit_count(len);
    let latb = lat_bit_count(len);
    let pp = pow2(lonb) as int;
    let qq = pow2(latb) as int;
    lemma_pow2_pos(lonb);
    lemma_pow2_pos(latb);
    let cell = parse_cell(s);
    lemma_parse_bound(s);
    let lon = cell_lon(cell, nbits);
    let lat = cell_lat(cell, nbits);
    lemma_cell_lon_bound(cell, nbits);
    lemma_cell_lat_bound(cell, nbits);
    let lon2 = (lon + dx) % pp;
    let lat2 = (lat + dy) % qq;
    vstd::arithmetic::div_mod::lemma_mod_division_less_than_divisor(lon + dx, pp);
    vstd::arithmetic::div_mod::lemma_mod_division_less_than_divisor(lat + dy, qq);
    let mid_cell = interleave(lon2, lat2, nbits);
    lemma_interleave_bound(lon2, lat2, nbits);
    let n1 = spec_neighbor(s, dx, dy);
    assert(n1 == cell_chars(mid_cell, len));
    lemma_cell_chars_valid(mid_cell, len);
    assert(n1.len() == len);
    lemma_chars_roundtrip(mid_cell, len);
    assert(parse_cell(n1) == mid_cell);
    lemma_interleave_roundtrip(lon2, lat2, nbits);
    assert(cell_lon(mid_cell, nbits) == lon2);
    assert(cell_lat(mid_cell, nbits) == lat2);
    // undoing the step returns to the original column and row
    assert((lon2 + (-dx)) % pp == lon) by {
        vstd::arithmetic::div_mod::lemma_add_mod_noop_right(-dx, lon + dx, pp);
        vstd::arithmetic::div_mod::lemma_small_mod(lon as nat, pp as nat);
    }
    assert((lat2 + (-dy)) % qq == lat) by {
        vstd::arithmetic::div_mod::lemma_add_mod_noop_right(-dy, lat + dy, qq);
        vstd::arithmetic::div_mod::lemma_small_mod(lat as nat, qq as nat);
    }
    lemma_split_interleave_roundtrip(cell, nbits);
    lemma_parse_chars_roundtrip(s);
    assert(spec_neighbor(n1, -dx, -dy) == cell_chars(cell, len));
}

/// Reads a key back into its cell value, mirroring [`parse_cell`].
fn parse_key(s: &String) -> (r: Result<u64, GeoError>)
    ensures
        r is Ok <==> valid_geohash(s@),
        r is Ok ==> r.unwrap() as int == parse_cell(s@) && 0 <= parse_cell(s@) < pow2(
            (5 * s@.len()) as nat,
        ),
{
    let n = s.as_str().unicode_len();
    if n < 1 || n > 12 {
        return Err(GeoError::Decoding);
    }
    let mut acc: u64 = 0;
    let mut i: usize = 0;
    proof {
        lemma2_to64();
        assert(s@.take(0) =~= Seq::<char>::empty());
    }
    while i < n
        invariant
            0 <= i <= n == s@.len() <= 12,
            acc as int == parse_cell(s@.take(i as int)),
            acc < pow2((5 * i) as nat),
            forall|j: int| 0 <= j < i ==> b32_value(s@[j]) >= 0,
        decreases n - i,
    {
        let c = s.as_str().get_char(i);
        let d = match b32_digit(c) {
            Some(d) => d,
            None => {
                return Err(GeoError::Decoding);
            },
        };
        proof {
            lemma_pow2_adds((5 * i) as nat, 5);
            lemma2_to64();
            if 5 * i + 5 < 60 {
                lemma_pow2_strictly_increases((5 * i + 5) as nat, 60);
            }
            lemma2_to64_rest();
            assert(s@.take(i + 1).drop_last() =~= s@.take(i as int));
            assert(s@.take(i + 1).last() == s@[i as int]);
        }
        acc = acc * 32 + d;
        i = i + 1;
    }
    proof {
        assert(s@.take(n as int) =~= s@);
    }
    Ok(acc)
}

/// One step east on the circular grid of `m` columns.
fn wrap_add(v: u64, m: u64) -> (r: u64)
    requires
        1 <= m,
        v < m,
    ensures
        r as int == (v as int + 1) % (m as int),
        r < m,
{
    if v + 1 == m {
        proof {
            vstd::arithmetic::div_mod::lemma_mod_self_0(m as int);
        }
        0
    } else {
        proof {
            vstd::arithmetic::div_mod::lemma_small_mod((v + 1) as nat, m as nat);
        }
        v + 1
    }
}

/// One step west on the circular grid of `m` columns.
fn wrap_sub(v: u64, m: u64) -> (r: u64)
    requires
        1 <= m,
        v < m,
    ensures
        r as int == (v as int - 1) % (m as int),
        r < m,
{
    if v == 0 {
        proof {
            vstd::arithmetic::div_mod::lemma_mod_add_multiples_vanish(-1, m as int);
            vstd::arithmetic::div_mod::lemma_small_mod((m - 1) as nat, m as nat);
        }
        m - 1
    } else {
        proof {
            vstd::arithmetic::div_mod::lemma_small_mod((v - 1) as nat, m as nat);
        }
        v - 1
    }
}

/// The eight cells adjacent to a key's cell, in the order north, north-east,
/// east, south-east, south, south-west, west, north-west, all at the key's
/// own precision. A malformed key is rejected.
pub fn neighbors(geohash: &String) -> (r: Result<Vec<String>, GeoError>)
    ensures
        r is Ok <==> valid_geohash(geohash@),
        !valid_geohash(geohash@) ==> r == Result::<Vec<String>, GeoError>::Err(GeoError::Decoding),
        r is Ok ==> {
            let v = r.unwrap();
            &&& v@.len() == 8
            &&& v@[0]@ == spec_neighbor(geohash@, 0, 1)
            &&& v@[1]@ == spec_neighbor(geohash@, 1, 1)
            &&& v@[2]@ == spec_neighbor(geohash@, 1, 0)
            &&& v@[3]@ == spec_neighbor(geohash@, 1, -1)
            &&& v@[4]@ == spec_neighbor(geohash@, 0, -1)
            &&& v@[5]@ == spec_neighbor(geohash@, -1, -1)
            &&& v@[6]@ == spec_neighbor(geohash@, -1, 0)
            &&& v@[7]@ == spec_neighbor(geohash@, -1, 1)
        },
{
    let cell = match parse_key(geohash) {
        Ok(cell) => cell,
        Err(e) => {
            return Err(GeoError::Decoding);
        },
    };
    let len = geohash.as_str().unicode_len();
    let nbits = 5 * len;
    let lon_bits = (nbits + 1) / 2;
    let lat_bits = nbits / 2;
    let lon = split_lon(cell, nbits);
    let lat = split_lat(cell, nbits);
    let m_lon = two_pow(lon_bits);
    let m_lat = two_pow(lat_bits);
    proof {
        lemma_cell_lon_bound(cell as int, nbits as nat);
        lemma_cell_lat_bound(cell as int, nbits as nat);
        lemma_pow2_pos(lon_bits as nat);
        lemma_pow2_pos(lat_bits as nat);
        vstd::arithmetic::div_mod::lemma_small_mod(cell_lon(cell as int, nbits as nat) as nat,
            pow2(lon_bits as nat));
        vstd::arithmetic::div_mod::lemma_small_mod(cell_lat(cell as int, nbits as nat) as nat,
            pow2(lat_bits as nat));
    }
    let lon_e = wrap_add(lon, m_lon);
    let lon_w = wrap_sub(lon, m_lon);
    let lat_n = wrap_add(lat, m_lat);
    let lat_s = wrap_sub(lat, m_lat);
    let mut out: Vec<String> = Vec::new();
    out.push(cell_to_string(interleave_bits(lon, lat_n, nbits), len));
    out.push(cell_to_string(interleave_bits(lon_e, lat_n, nbits), len));
    out.push(cell_to_string(interleave_bits(lon_e, lat, nbits), len));
    out.push(cell_to_string(interleave_bits(lon_e, lat_s, nbits), len));
    out.push(cell_to_string(interleave_bits(lon, lat_s, nbits), len));
    out.push(cell_to_string(interleave_bits(lon_w, lat_s, nbits), len));
    out.push(cell_to_string(interleave_bits(lon_w, lat, nbits), len));
    out.push(cell_to_string(interleave_bits(lon_w, lat_n, nbits), len));
    Ok(out)
}

} // verus!
