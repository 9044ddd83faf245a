//! Units of quantity: the canonical ones a purchase is stored in, and the ones
//! the entry form offers.
use vstd::prelude::*;

verus! {

/// The unit a quantity is expressed in.
#[derive(Clone, Copy, Debug, PartialEq, Eq, Structural)]
pub enum Unit {
    Kg,
    Liter,
    Piece,
}

impl Default for Unit {
    fn default() -> (u: Unit)
        ensures
            u == Unit::Piece,
    {
        Unit::Piece
    }
}

/// What [`Unit::suffix`] prints for each unit.
pub open spec fn suffix_text(unit: Unit) -> Seq<char> {
    match unit {
        Unit::Kg => "/kg"@,
        Unit::Liter => "/L"@,
        Unit::Piece => "/u"@,
    }
}

impl Unit {
    /// Suffix printed after a unit price, as in the `/kg` of `2,45 €/kg`.
    pub fn suffix(self) -> (s: &'static str)
        ensures
            s@ == suffix_text(self),
    {
        match self {
            Unit::Kg => "/kg",
            Unit::Liter => "/L",
            Unit::Piece => "/u",
        }
    }
}

/// What the form offers. Grams and millilitres are entry conveniences, not storage
/// units: a packet says "250 g", but only a price per kilo compares against the
/// 500 g tub at the other shop — so they are converted on the way in and a stored
/// purchase is always in a canonical [`Unit`].
#[derive(Clone, Copy, Debug, PartialEq, Eq, Structural)]
pub enum InputUnit {
    Kg,
    Gram,
    Liter,
    Milliliter,
    Piece,
}

impl Default for InputUnit {
    fn default() -> (u: InputUnit)
        ensures
            u == InputUnit::Piece,
    {
        InputUnit::Piece
    }
}

/// The form key of each entry unit, as [`InputUnit::key`] returns it.
pub open spec fn key_text(unit: InputUnit) -> Seq<char> {
    match unit {
        InputUnit::Kg => "kg"@,
        InputUnit::Gram => "g"@,
        InputUnit::Liter => "l"@,
        InputUnit::Milliliter => "ml"@,
        InputUnit::Piece => "piece"@,
    }
}

/// The unit an entry unit is stored in.
pub open spec fn canonical_unit_of(unit: InputUnit) -> Unit {
    match unit {
        InputUnit::Kg | InputUnit::Gram => Unit::Kg,
        InputUnit::Liter | InputUnit::Milliliter => Unit::Liter,
        InputUnit::Piece => Unit::Piece,
    }
}

/// How many of an entry unit make one of its canonical unit.
pub open spec fn per_canonical_of(unit: InputUnit) -> u32 {
    match unit {
        InputUnit::Gram | InputUnit::Milliliter => 1000,
        _ => 1,
    }
}

impl InputUnit {
    /// Every entry unit, in the order the form lists them.
    pub const ALL: [InputUnit; 5] = [
        InputUnit::Kg,
        InputUnit::Gram,
        InputUnit::Liter,
        InputUnit::Milliliter,
        InputUnit::Piece,
    ];

    pub fn key(self) -> (k: &'static str)
        ensures
            k@ == key_text(self),
    {
        match self {
            InputUnit::Kg => "kg",
            InputUnit::Gram => "g",
            InputUnit::Liter => "l",
            InputUnit::Milliliter => "ml",
            InputUnit::Piece => "piece",
        }
    }

    /// The entry unit whose key is `key`, looked up in the form's order.
    pub fn from_key(key: &str) -> (r: Option<Self>)
        ensures
            r == (if key@ == key_text(InputUnit::Kg) {
                Some(InputUnit::Kg)
            } else if key@ == key_text(InputUnit::Gram) {
                Some(InputUnit::Gram)
            } else if key@ == key_text(InputUnit::Liter) {
                Some(InputUnit::Liter)
            } else if key@ == key_text(InputUnit::Milliliter) {
                Some(InputUnit::Milliliter)
            } else if key@ == key_text(InputUnit::Piece) {
                Some(InputUnit::Piece)
            } else {
                None
            }),
    {
        let wanted = key.to_owned();
        let all = [
            InputUnit::Kg,
            InputUnit::Gram,
            InputUnit::Liter,
            InputUnit::Milliliter,
            InputUnit::Piece,
        ];
        let mut i: usize = 0;
        while i < 5
            invariant
                i <= 5,
                wanted@ == key@,
                all@ == seq![
                    InputUnit::Kg,
                    InputUnit::Gram,
                    InputUnit::Liter,
                    InputUnit::Milliliter,
                    InputUnit::Piece,
                ],
                forall|j: int| 0 <= j < i ==> key@ != key_text(#[trigger] all@[j]),
            decreases 5 - i,
        {
            let unit = all[i];
            if unit.key().to_owned() == wanted {
                return Some(unit);
            }
            i += 1;
        }
        assert(key@ != key_text(all@[0]));
        assert(key@ != key_text(all@[1]));
        assert(key@ != key_text(all@[2]));
        assert(key@ != key_text(all@[3]));
        assert(key@ != key_text(all@[4]));
        None
    }

    /// The unit an entered quantity is stored and compared in.
    pub fn canonical_unit(self) -> (u: Unit)
        ensures
            u == canonical_unit_of(self),
    {
        match self {
            InputUnit::Kg | InputUnit::Gram => Unit::Kg,
            InputUnit::Liter | InputUnit::Milliliter => Unit::Liter,
            InputUnit::Piece => Unit::Piece,
        }
    }

    /// How many of this unit make one of [`InputUnit::canonical_unit`]: an
    /// entered quantity is divided by it on the way in, so 250 g is stored as
    /// 0.25 kg.
    pub fn per_canonical_unit(self) -> (n: u32)
        ensures
            n == per_canonical_of(self),
    {
        match self {
            InputUnit::Gram | InputUnit::Milliliter => 1000,
            _ => 1,
        }
    }
}

/// Where the last price of a product sits against the one before it.
#[derive(Clone, Copy, Debug, PartialEq, Eq, Structural)]
pub enum Trend {
    Up,
    Down,
    Flat,
    /// Bought only once so far — nothing to compare against yet.
    Unknown,
}

} // verus!
