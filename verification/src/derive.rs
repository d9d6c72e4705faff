//! The decisions of the `PageFrame` derive: which types it supports, what it
//! says of the others, and under which path it finds this crate.

use vstd::prelude::*;

verus! {

/// The shape of a type definition.
#[derive(Debug, Clone, Copy, PartialEq, Eq, Structural)]
pub enum Shape {
    /// A tuple struct with this many fields.
    Tuple(usize),
    /// A struct with named fields, or without any.
    Named,
    /// An enum.
    Enumeration,
    /// A union.
    Union,
}

/// Why a type is not supported.
#[derive(Debug, Clone, Copy, PartialEq, Eq, Structural)]
pub enum Refusal {
    /// The type has generic parameters.
    Generic,
    /// The tuple struct has this many fields, not one.
    FieldCount(usize),
    /// The struct is no tuple struct.
    NotTuple,
    /// The type is an enum.
    Enumeration,
    /// The type is a union.
    Union,
}

/// The decimal digits of `n`, the most significant first.
pub open spec fn decimal_digits(n: nat) -> Seq<char>
    decreases n,
{
    let digit = seq!['0', '1', '2', '3', '4', '5', '6', '7', '8', '9'][(n % 10) as int];
    if n < 10 {
        seq![digit]
    } else {
        decimal_digits(n / 10).push(digit)
    }
}

/// Returns the decimal digits of `n`.
pub fn decimal(n: usize) -> (digits: String)
    ensures
        digits@ == decimal_digits(n as nat),
    decreases n,
{
    let last: &str = match n % 10 {
        0 => "0",
        1 => "1",
        2 => "2",
        3 => "3",
        4 => "4",
        5 => "5",
        6 => "6",
        7 => "7",
        8 => "8",
        _ => "9",
    };
    proof {
        reveal_strlit("0");
        reveal_strlit("1");
        reveal_strlit("2");
        reveal_strlit("3");
        reveal_strlit("4");
        reveal_strlit("5");
        reveal_strlit("6");
        reveal_strlit("7");
        reveal_strlit("8");
        reveal_strlit("9");
        let digit =
            seq!['0', '1', '2', '3', '4', '5', '6', '7', '8', '9'][(n as nat % 10) as int];
        assert(last@ =~= seq![digit]);
    }
    if n < 10 {
        String::from_str(last)
    } else {
        let digits = decimal(n / 10).concat(last);
        assert(digits@ =~= decimal_digits(n as nat));
        digits
    }
}

impl Refusal {
    /// The message for the refusal.
    pub open spec fn text(self) -> Seq<char> {
        match self {
            Refusal::Generic => "`#[derive(PageFrame)]` does not support generic types"@,
            Refusal::FieldCount(count) => "`#[derive(PageFrame)]` requires exactly one field, found "@
                + decimal_digits(count as nat),
            Refusal::NotTuple =>
                "`#[derive(PageFrame)]` only supports tuple structs with a single unnamed field, e.g. `struct Addr(u64)`"@,
            Refusal::Enumeration => "`#[derive(PageFrame)]` cannot be applied to an enum"@,
            Refusal::Union => "`#[derive(PageFrame)]` cannot be applied to a union"@,
        }
    }

    /// Returns the message for the refusal.
    pub fn message(&self) -> (message: String)
        ensures
            message@ == self.text(),
    {
        match self {
            Refusal::Generic => String::from_str(
                "`#[derive(PageFrame)]` does not support generic types",
            ),
            Refusal::FieldCount(count) => String::from_str(
                "`#[derive(PageFrame)]` requires exactly one field, found ",
            ).concat(decimal(*count).as_str()),
            Refusal::NotTuple => String::from_str(
                "`#[derive(PageFrame)]` only supports tuple structs with a single unnamed field, e.g. `struct Addr(u64)`",
            ),
            Refusal::Enumeration => String::from_str(
                "`#[derive(PageFrame)]` cannot be applied to an enum",
            ),
            Refusal::Union => String::from_str(
                "`#[derive(PageFrame)]` cannot be applied to a union",
            ),
        }
    }
}

/// Checks that a type with the given number of generic parameters and the
/// given shape is a tuple struct with a single field.
pub fn single_field(generics: usize, shape: Shape) -> (supported: Result<(), Refusal>)
    ensures
        supported == (if generics != 0 {
            Err(Refusal::Generic)
        } else {
            match shape {
                Shape::Tuple(count) => if count == 1 {
                    Ok(())
                } else {
                    Err(Refusal::FieldCount(count))
                },
                Shape::Named => Err(Refusal::NotTuple),
                Shape::Enumeration => Err(Refusal::Enumeration),
                Shape::Union => Err(Refusal::Union),
            }
        }),
{
    if generics != 0 {
        return Err(Refusal::Generic);
    }
    match shape {
        Shape::Tuple(count) => {
            if count == 1 {
                Ok(())
            } else {
                Err(Refusal::FieldCount(count))
            }
        },
        Shape::Named => Err(Refusal::NotTuple),
        Shape::Enumeration => Err(Refusal::Enumeration),
        Shape::Union => Err(Refusal::Union),
    }
}

/// Where a crate that uses the derive finds this crate.
#[derive(Debug, PartialEq, Eq)]
pub enum Found {
    /// It is this crate.
    Itself,
    /// Among its dependencies, under this name.
    Named(String),
    /// Nowhere.
    Missing,
}

/// The path prefix that leads to this crate.
pub fn crate_path(found: &Found) -> (path: String)
    ensures
        path@ == (match found {
            Found::Itself => "crate"@,
            Found::Named(name) => "::"@ + name@,
            Found::Missing => "::the_buddy_system"@,
        }),
{
    match found {
        Found::Itself => String::from_str("crate"),
        Found::Named(name) => String::from_str("::").concat(name.as_str()),
        Found::Missing => String::from_str("::the_buddy_system"),
    }
}

/// The digits of a number are decimal digits that give the number back, and
/// the first is zero only for zero itself.
pub proof fn law_decimal(n: nat)
    ensures
        decimal_digits(n).len() > 0,
        forall|i: int|
            0 <= i < decimal_digits(n).len() ==> '0' <= #[trigger] decimal_digits(n)[i] <= '9',
        decimal_digits(n)[0] == '0' ==> n == 0,
        decimal_digits(n).fold_left(0int, |a: int, c: char| 10 * a + (c as int - '0' as int)) == n,
    decreases n,
{
    let f = |a: int, c: char| 10 * a + (c as int - '0' as int);
    let digit = seq!['0', '1', '2', '3', '4', '5', '6', '7', '8', '9'][(n % 10) as int];
    let s = decimal_digits(n);
    assert(digit as int == '0' as int + n % 10);
    if n < 10 {
        assert(s.drop_last() =~= Seq::<char>::empty());
        assert(s.drop_last().fold_left(0int, f) == 0);
    } else {
        law_decimal(n / 10);
        assert(s.drop_last() =~= decimal_digits(n / 10));
        assert forall|i: int| 0 <= i < s.len() implies '0' <= #[trigger] s[i] <= '9' by {
            if i + 1 < s.len() {
                assert(s[i] == decimal_digits(n / 10)[i]);
            }
        }
        assert(s[0] == decimal_digits(n / 10)[0]);
    }
}

/// Only a tuple struct with one field and without generic parameters is
/// supported; of the others, generic parameters are reported first, then the
/// number of fields of a tuple struct or what else the type is.
pub proof fn law_single_field(generics: usize, shape: Shape, supported: Result<(), Refusal>)
    requires
        call_ensures(single_field, (generics, shape), supported),
    ensures
        supported is Ok <==> generics == 0 && shape == Shape::Tuple(1),
        supported == Err::<(), Refusal>(Refusal::Generic) <==> generics != 0,
        shape matches Shape::Tuple(count) ==> (supported == Err::<(), Refusal>(
            Refusal::FieldCount(count),
        ) <==> generics == 0 && count != 1),
        supported == Err::<(), Refusal>(Refusal::NotTuple) <==> generics == 0 && shape
            == Shape::Named,
        supported == Err::<(), Refusal>(Refusal::Enumeration) <==> generics == 0 && shape
            == Shape::Enumeration,
        supported == Err::<(), Refusal>(Refusal::Union) <==> generics == 0 && shape
            == Shape::Union,
{
}

} // verus!
