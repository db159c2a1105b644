//! Entity identifiers. Every id is a 128-bit ULID value minted by the
//! `ulid` crate; the library keeps the raw value and compares ids by it.

use vstd::prelude::*;
use crate::assoc::MapKey;

verus! {

/// Crockford base-32 digit `d` (`0 <= d < 32`), as the `ulid` crate
/// writes it.
pub open spec fn crockford_digit(d: int) -> char {
    seq![
        '0', '1', '2', '3', '4', '5', '6', '7', '8', '9', 'A', 'B', 'C', 'D', 'E', 'F',
        'G', 'H', 'J', 'K', 'M', 'N', 'P', 'Q', 'R', 'S', 'T', 'V', 'W', 'X', 'Y', 'Z',
    ][d]
}

/// `32` to the power `n`.
pub open spec fn pow32(n: nat) -> int
    decreases n,
{
    if n == 0 { 1 } else { 32 * pow32((n - 1) as nat) }
}

/// The 26-character text of a ULID: its value in base 32, most
/// significant digit first.
pub open spec fn ulid_text(v: u128) -> Seq<char> {
    Seq::new(26, |i: int| crockford_digit((v as int / pow32((25 - i) as nat)) % 32))
}

/// Mints a fresh ULID value through `ulid::Ulid::new()`. The value
/// depends on the clock and on a random source, so nothing is stated of it.
#[verifier::external_body]
fn fresh_ulid() -> u128 {
    ulid::Ulid::new().0
}

/// Text of a ULID through `ulid::Ulid::to_string()`, which writes the
/// 128-bit value as 26 Crockford base-32 digits, most significant first.
#[verifier::external_body]
fn ulid_string(v: u128) -> (s: String)
    ensures
        s@ == ulid_text(v),
{
    ulid::Ulid(v).to_string()
}

/// Identifier of a node, unique within its parent.
#[derive(Debug, Clone, Copy, PartialEq, Eq, Hash, Structural)]
pub struct NodeId(pub u128);

/// Identifier of an edge.
#[derive(Debug, Clone, Copy, PartialEq, Eq, Hash, Structural)]
pub struct EdgeId(pub u128);

/// Identifier of an input slot.
#[derive(Debug, Clone, Copy, PartialEq, Eq, Hash, Structural)]
pub struct InputSlotId(pub u128);

/// Identifier of an output slot.
#[derive(Debug, Clone, Copy, PartialEq, Eq, Hash, Structural)]
pub struct OutputSlotId(pub u128);

impl View for NodeId {
    type V = u128;

    open spec fn view(&self) -> u128 {
        self.0
    }
}

impl View for EdgeId {
    type V = u128;

    open spec fn view(&self) -> u128 {
        self.0
    }
}

impl View for InputSlotId {
    type V = u128;

    open spec fn view(&self) -> u128 {
        self.0
    }
}

impl View for OutputSlotId {
    type V = u128;

    open spec fn view(&self) -> u128 {
        self.0
    }
}

impl NodeId {
    /// A fresh id.
    pub fn new() -> (r: Self) {
        NodeId(fresh_ulid())
    }

    /// The id with the given ULID value.
    pub fn from_ulid(v: u128) -> (r: Self)
        ensures
            r@ == v,
    {
        NodeId(v)
    }

    /// The ULID value of this id.
    pub fn id(&self) -> (r: u128)
        ensures
            r == self@,
    {
        self.0
    }

    /// The ULID text of this id.
    pub fn id_string(&self) -> (r: String)
        ensures
            r@ == ulid_text(self@),
    {
        ulid_string(self.0)
    }
}

impl EdgeId {
    /// A fresh id.
    pub fn new() -> (r: Self) {
        EdgeId(fresh_ulid())
    }

    /// The id with value `v`.
    pub fn from_ulid(v: u128) -> (r: Self)
        ensures
            r@ == v,
    {
        EdgeId(v)
    }

    /// The value.
    pub fn id(&self) -> (r: u128)
        ensures
            r == self@,
    {
        self.0
    }

    /// The ULID text of the value.
    pub fn id_string(&self) -> (r: String)
        ensures
            r@ == ulid_text(self@),
    {
        ulid_string(self.0)
    }
}

impl InputSlotId {
    /// A fresh id.
    pub fn new() -> (r: Self) {
        InputSlotId(fresh_ulid())
    }

    /// The id with value `v`.
    pub fn from_ulid(v: u128) -> (r: Self)
        ensures
            r@ == v,
    {
        InputSlotId(v)
    }

    /// The value.
    pub fn id(&self) -> (r: u128)
        ensures
            r == self@,
    {
        self.0
    }

    /// The ULID text of the value.
    pub fn id_string(&self) -> (r: String)
        ensures
            r@ == ulid_text(self@),
    {
        ulid_string(self.0)
    }
}

impl OutputSlotId {
    /// A fresh id.
    pub fn new() -> (r: Self) {
        OutputSlotId(fresh_ulid())
    }

    /// The id with value `v`.
    pub fn from_ulid(v: u128) -> (r: Self)
        ensures
            r@ == v,
    {
        OutputSlotId(v)
    }

    /// The value.
    pub fn id(&self) -> (r: u128)
        ensures
            r == self@,
    {
        self.0
    }

    /// The ULID text of the value.
    pub fn id_string(&self) -> (r: String)
        ensures
            r@ == ulid_text(self@),
    {
        ulid_string(self.0)
    }
}

impl MapKey for NodeId {
    fn same_key(&self, other: &Self) -> (r: bool) {
        self.0 == other.0
    }

    fn copy_key(&self) -> (r: Self) {
        *self
    }
}

impl MapKey for EdgeId {
    fn same_key(&self, other: &Self) -> (r: bool) {
        self.0 == other.0
    }

    fn copy_key(&self) -> (r: Self) {
        *self
    }
}

impl MapKey for InputSlotId {
    fn same_key(&self, other: &Self) -> (r: bool) {
        self.0 == other.0
    }

    fn copy_key(&self) -> (r: Self) {
        *self
    }
}

impl MapKey for OutputSlotId {
    fn same_key(&self, other: &Self) -> (r: bool) {
        self.0 == other.0
    }

    fn copy_key(&self) -> (r: Self) {
        *self
    }
}

/// Either side of a slot.
pub enum SlotId {
    Input(InputSlotId),
    Output(OutputSlotId),
}

} // verus!
