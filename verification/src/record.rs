//! Player records.

use vstd::prelude::*;

use crate::fixed::{edpi, edpi_of};

verus! {

/// One player of the leaderboard.
///
/// `sens` counts millionths of the in-game sensitivity multiplier, `dpi` is
/// the raw resolution of the mouse, and `edpi`, their product, counts
/// millionths of the effective DPI.
#[derive(Debug)]
pub struct PlayerRecord {
    pub name: String,
    pub team: String,
    pub sens: i64,
    pub dpi: i32,
    pub edpi: i128,
}

/// What a record says, as mathematical values.
pub struct PlayerView {
    pub name: Seq<char>,
    pub team: Seq<char>,
    pub sens: int,
    pub dpi: int,
    pub edpi: int,
}

impl PlayerView {
    /// The key under which the table holds the record: the UTF-8 bytes of
    /// the name.
    pub open spec fn key(self) -> Seq<u8> {
        vstd::utf8::encode_utf8(self.name)
    }

    /// A record may be persisted only if it has a name, its sensitivity is
    /// positive, and its eDPI is the product of its sensitivity and DPI,
    /// and positive.
    pub open spec fn valid(self) -> bool {
        &&& self.name.len() > 0
        &&& self.sens > 0
        &&& self.edpi == edpi_of(self.dpi, self.sens)
        &&& self.edpi > 0
    }
}

impl View for PlayerRecord {
    type V = PlayerView;

    open spec fn view(&self) -> PlayerView {
        PlayerView {
            name: self.name@,
            team: self.team@,
            sens: self.sens as int,
            dpi: self.dpi as int,
            edpi: self.edpi as int,
        }
    }
}

impl DeepView for PlayerRecord {
    type V = PlayerView;

    open spec fn deep_view(&self) -> PlayerView {
        self.view()
    }
}

impl Clone for PlayerRecord {
    fn clone(&self) -> (r: Self)
        ensures
            r == *self,
    {
        PlayerRecord {
            name: self.name.clone(),
            team: self.team.clone(),
            sens: self.sens,
            dpi: self.dpi,
            edpi: self.edpi,
        }
    }
}

impl PlayerRecord {
    /// A record with the eDPI that its sensitivity and DPI give.
    pub fn new(name: String, team: String, sens: i64, dpi: i32) -> (r: Self)
        ensures
            r.name == name,
            r.team == team,
            r.sens == sens,
            r.dpi == dpi,
            r.edpi == edpi_of(dpi as int, sens as int),
    {
        PlayerRecord { name, team, sens, dpi, edpi: edpi(dpi, sens) }
    }

    /// Tells whether the record may be persisted.
    pub fn is_valid(&self) -> (b: bool)
        ensures
            b == self@.valid(),
    {
        !self.name.as_str().is_empty() && self.sens > 0 && self.edpi > 0 && self.edpi == edpi(
            self.dpi,
            self.sens,
        )
    }
}

/// Two names with the same key are the same name.
pub proof fn lemma_key_determines_name(a: PlayerView, b: PlayerView)
    requires
        a.key() == b.key(),
    ensures
        a.name == b.name,
{
    vstd::utf8::encode_utf8_decode_utf8(a.name);
    vstd::utf8::encode_utf8_decode_utf8(b.name);
}

} // verus!
