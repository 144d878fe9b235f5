//! The query service: search, similarity and conversion over a store.

use vstd::prelude::*;
use vstd::string::*;

use crate::fixed::{div_round, edpi, edpi_of, lemma_round_div_error, magnitude, round_div};
use crate::fixed::UNITS_PER_THOUSANDTH;
use crate::name::{rank, Rank};
use crate::record::{PlayerRecord, PlayerView};
use crate::store::{is_nearest, matching, Store};
use crate::text::{i32_of, millionths_of, parse_decimal, parse_i32};

verus! {

/// Number of records that a similarity search returns at most.
pub const SIMILAR_LIMIT: usize = 10;

/// The first record of a list that has the given name.
pub open spec fn first_named(players: Seq<PlayerView>, name: Seq<char>) -> Option<PlayerView>
    decreases players.len(),
{
    if players.len() == 0 {
        None
    } else if players[0].name == name {
        Some(players[0])
    } else {
        first_named(players.drop_first(), name)
    }
}

/// A fixed-point value divided by a DPI and rounded to three decimal
/// places, in thousandths.
pub open spec fn per_dpi(units: int, dpi: int) -> int {
    round_div(units, dpi * UNITS_PER_THOUSANDTH)
}

/// The converted sensitivity, in thousandths.
///
/// Without a positive DPI and a positive sensitivity of one's own there is
/// none. With a positive target DPI it is one's own eDPI at that DPI.
/// Otherwise, with the name of a listed player, it is that player's eDPI
/// at one's own DPI.
pub open spec fn converted(
    players: Seq<PlayerView>,
    your_dpi: Option<i32>,
    your_sens: Option<i64>,
    target_dpi: Option<i32>,
    selected: Option<Seq<char>>,
) -> Option<int> {
    if your_dpi is Some && your_sens is Some && your_dpi->0 > 0 && your_sens->0 > 0 {
        let dpi = your_dpi->0 as int;
        if target_dpi is Some && target_dpi->0 > 0 {
            Some(per_dpi(edpi_of(dpi, your_sens->0 as int), target_dpi->0 as int))
        } else if selected is Some {
            match first_named(players, selected->0) {
                Some(p) => Some(per_dpi(p.edpi, dpi)),
                None => None,
            }
        } else {
            None
        }
    } else {
        None
    }
}

/// Scaling both sides of a rounded quotient by a positive factor leaves it
/// unchanged.
pub proof fn lemma_round_div_scaled(num: int, den: int, k: int)
    requires
        den > 0,
        k > 0,
    ensures
        round_div(k * num, k * den) == round_div(num, den),
{
    let m: int = if num >= 0 {
        num
    } else {
        -num
    };
    let q = (2 * m + den) / (2 * den);
    let r = (2 * m + den) % (2 * den);
    assert(2 * m + den == (2 * den) * q + r && 0 <= r < 2 * den) by (nonlinear_arith)
        requires
            q == (2 * m + den) / (2 * den),
            r == (2 * m + den) % (2 * den),
            den > 0,
    ;
    assert(2 * (k * m) + k * den == q * (2 * (k * den)) + k * r && 0 <= k * r < 2 * (k * den))
        by (nonlinear_arith)
        requires
            2 * m + den == (2 * den) * q + r,
            0 <= r < 2 * den,
            k > 0,
    ;
    vstd::arithmetic::div_mod::lemma_fundamental_div_mod_converse(
        2 * (k * m) + k * den,
        2 * (k * den),
        q,
        k * r,
    );
    assert(k * den > 0) by (nonlinear_arith)
        requires
            k > 0,
            den > 0,
    ;
    if num >= 0 {
        assert(k * num >= 0) by (nonlinear_arith)
            requires
                k > 0,
                num >= 0,
        ;
    } else {
        assert(k * num < 0 && -(k * num) == k * m) by (nonlinear_arith)
            requires
                k > 0,
                num < 0,
                m == -num,
        ;
    }
}

/// Converting to one's own DPI gives one's own sensitivity back, to within
/// a thousandth: the result differs from it by at most half a thousandth.
pub proof fn lemma_conversion_round_trip(
    players: Seq<PlayerView>,
    dpi: i32,
    sens: i64,
    selected: Option<Seq<char>>,
)
    requires
        dpi > 0,
        sens > 0,
    ensures
        converted(players, Some(dpi), Some(sens), Some(dpi), selected) matches Some(t) && magnitude(
            1000 * t - sens,
        ) <= 500,
{
    let t = per_dpi(edpi_of(dpi as int, sens as int), dpi as int);
    lemma_round_div_scaled(sens as int, 1000, dpi as int);
    lemma_round_div_error(sens as int, 1000);
    assert(t == round_div(sens as int, 1000));
    assert(t * 1000 == 1000 * t);
}

/// Every record, or those whose name starts with the query if there is one.
pub fn search(store: &Store, query: Option<&str>) -> (out: Vec<PlayerRecord>)
    ensures
        out.deep_view() == match query {
            Some(q) => matching(store@.players, q@),
            None => store@.players,
        },
{
    match query {
        Some(q) => store.search_by_prefix(q),
        None => store.get_all(),
    }
}

/// The ten records whose eDPI lies nearest to that of a sensitivity (in
/// millionths) at a DPI, the nearest first.
pub fn find_similar(store: &Store, dpi: i32, sens: i64) -> (out: Vec<PlayerRecord>)
    ensures
        is_nearest(out.deep_view(), store@.players, edpi_of(dpi as int, sens as int), 10),
{
    store.nearest_by_metric(edpi(dpi, sens), SIMILAR_LIMIT)
}

/// Looks up the first record of a list with a name.
pub fn find_named<'a>(players: &'a Vec<PlayerRecord>, name: &str) -> (found: Option<
    &'a PlayerRecord,
>)
    ensures
        found.deep_view() == first_named(players.deep_view(), name@),
{
    let wanted = name.as_bytes();
    let ghost all = players.deep_view();
    let mut i: usize = 0;
    assert(all.skip(0) =~= all);
    while i < players.len()
        invariant
            i <= players.len(),
            all == players.deep_view(),
            wanted@ == vstd::utf8::encode_utf8(name@),
            first_named(all, name@) == first_named(all.skip(i as int), name@),
        decreases players.len() - i,
    {
        let here = rank(players[i].name.as_str().as_bytes(), wanted);
        proof {
            let rest = all.skip(i as int);
            assert(rest[0] == players[i as int]@);
            assert(rest.drop_first() =~= all.skip(i + 1));
            vstd::utf8::encode_utf8_decode_utf8(name@);
            vstd::utf8::encode_utf8_decode_utf8(players[i as int].name@);
        }
        match here {
            Rank::Same => {
                return Some(&players[i]);
            },
            _ => {
                i += 1;
            },
        }
    }
    None
}

/// What a conversion request says and gives.
pub struct Conversion {
    /// One's own DPI, if the request holds one that can be read.
    pub your_dpi: Option<i32>,
    /// One's own sensitivity in millionths, if the request holds one.
    pub your_sens: Option<i64>,
    /// The target DPI, if the request holds one.
    pub target_dpi: Option<i32>,
    /// The converted sensitivity in thousandths, if there is one.
    pub converted: Option<i128>,
}

/// The number in an optional text, if it holds a 32-bit integer.
pub open spec fn optional_i32(text: Option<Seq<char>>) -> Option<i32> {
    match text {
        Some(t) => i32_of(t),
        None => None,
    }
}

/// The fixed-point number in an optional text, if it holds one.
pub open spec fn optional_millionths(text: Option<Seq<char>>) -> Option<i64> {
    match text {
        Some(t) => millionths_of(t),
        None => None,
    }
}

/// Reads an optional integer; a text that holds none counts as absent.
pub fn read_optional_i32(text: Option<&str>) -> (out: Option<i32>)
    ensures
        out == optional_i32(text.deep_view()),
{
    match text {
        Some(t) => parse_i32(t),
        None => None,
    }
}

/// Reads an optional decimal number as millionths; a text that holds none
/// counts as absent.
pub fn read_optional_millionths(text: Option<&str>) -> (out: Option<i64>)
    ensures
        out == optional_millionths(text.deep_view()),
{
    match text {
        Some(t) => parse_decimal(t),
        None => None,
    }
}

/// Serves a conversion request whose settings come as texts: reads them,
/// a text that cannot be read counting as absent, and converts.
pub fn convert_request(
    players: &Vec<PlayerRecord>,
    your_dpi: Option<&str>,
    your_sens: Option<&str>,
    target_dpi: Option<&str>,
    selected: Option<&str>,
) -> (out: Conversion)
    ensures
        out.your_dpi == optional_i32(your_dpi.deep_view()),
        out.your_sens == optional_millionths(your_sens.deep_view()),
        out.target_dpi == optional_i32(target_dpi.deep_view()),
        match out.converted {
            Some(t) => converted(
                players.deep_view(),
                out.your_dpi,
                out.your_sens,
                out.target_dpi,
                selected.deep_view(),
            ) == Some(t as int),
            None => converted(
                players.deep_view(),
                out.your_dpi,
                out.your_sens,
                out.target_dpi,
                selected.deep_view(),
            ) is None,
        },
{
    let dpi = read_optional_i32(your_dpi);
    let sens = read_optional_millionths(your_sens);
    let target = read_optional_i32(target_dpi);
    let converted = convert_sensitivity(players, dpi, sens, target, selected);
    Conversion { your_dpi: dpi, your_sens: sens, target_dpi: target, converted }
}

/// Serves the conversion page: the list of players that the search text
/// finds, and the conversion that the request asks for.
///
/// A selected player is looked up by exact name among all the records of
/// the store, whatever the search text leaves of the list.
pub fn convert_for_page(
    store: &Store,
    query: Option<&str>,
    your_dpi: Option<&str>,
    your_sens: Option<&str>,
    target_dpi: Option<&str>,
    selected: Option<&str>,
) -> (out: (Vec<PlayerRecord>, Conversion))
    ensures
        out.0.deep_view() == match query {
            Some(q) => matching(store@.players, q@),
            None => store@.players,
        },
        out.1.your_dpi == optional_i32(your_dpi.deep_view()),
        out.1.your_sens == optional_millionths(your_sens.deep_view()),
        out.1.target_dpi == optional_i32(target_dpi.deep_view()),
        match out.1.converted {
            Some(t) => converted(
                store@.players,
                out.1.your_dpi,
                out.1.your_sens,
                out.1.target_dpi,
                selected.deep_view(),
            ) == Some(t as int),
            None => converted(
                store@.players,
                out.1.your_dpi,
                out.1.your_sens,
                out.1.target_dpi,
                selected.deep_view(),
            ) is None,
        },
{
    let all = store.get_all();
    let conversion = convert_request(&all, your_dpi, your_sens, target_dpi, selected);
    let listed = match query {
        Some(q) => store.search_by_prefix(q),
        None => all,
    };
    (listed, conversion)
}

/// Converts a sensitivity across DPI values.
///
/// `your_sens` counts millionths; the result counts thousandths, rounded
/// half away from zero. `players` is the list in which a selected player
/// is looked up by exact name.
pub fn convert_sensitivity(
    players: &Vec<PlayerRecord>,
    your_dpi: Option<i32>,
    your_sens: Option<i64>,
    target_dpi: Option<i32>,
    selected: Option<&str>,
) -> (out: Option<i128>)
    ensures
        match out {
            Some(t) => converted(
                players.deep_view(),
                your_dpi,
                your_sens,
                target_dpi,
                selected.deep_view(),
            ) == Some(t as int),
            None => converted(
                players.deep_view(),
                your_dpi,
                your_sens,
                target_dpi,
                selected.deep_view(),
            ) is None,
        },
{
    let (dpi, sens) = match (your_dpi, your_sens) {
        (Some(dpi), Some(sens)) => (dpi, sens),
        _ => {
            return None;
        },
    };
    if dpi <= 0 || sens <= 0 {
        return None;
    }
    if let Some(target) = target_dpi {
        if target > 0 {
            return Some(div_round(edpi(dpi, sens), (target as i128) * UNITS_PER_THOUSANDTH));
        }
    }
    match selected {
        Some(name) => match find_named(players, name) {
            Some(player) => Some(div_round(player.edpi, (dpi as i128) * UNITS_PER_THOUSANDTH)),
            None => None,
        },
        None => None,
    }
}

} // verus!
