//! The names of fields can be read back.
use crate::symbol::{decimal, field_name};
use vstd::prelude::*;

verus! {

/// The number that some decimal digits stand for.
pub open spec fn number(digits: Seq<char>) -> int
    decreases digits.len(),
{
    if digits.len() == 0 {
        0
    } else {
        number(digits.drop_last()) * 10 + (digits.last() as u32 - '0' as u32)
    }
}

/// The decimal digits of a number are digits that stand for it, without a zero in front.
pub proof fn decimal_digits_read_back(n: nat)
    ensures
        number(decimal(n)) == n,
        decimal(n).len() > 0,
        forall|i: int| 0 <= i < decimal(n).len() ==> '0' <= #[trigger] decimal(n)[i] <= '9',
        n > 0 ==> decimal(n)[0] != '0',
    decreases n,
{
    if n < 10 {
        reveal_with_fuel(number, 2);
        assert(decimal(n).drop_last() =~= Seq::empty());
    } else {
        decimal_digits_read_back(n / 10);
        let front = decimal(n / 10);
        assert(decimal(n).drop_last() =~= front);
        assert forall|i: int| 0 <= i < decimal(n).len() implies '0' <= #[trigger] decimal(n)[i]
            <= '9' by {
            if i < front.len() {
                assert(decimal(n)[i] == front[i]);
            }
        }
        assert(decimal(n)[0] == front[0]);
    }
}

/// The name of a field is `field_val_` and its number, so that different fields have different
/// names.
pub proof fn field_names_read_back(index: nat, other: nat)
    ensures
        field_name(index).len() > 10,
        field_name(index).take(10) == seq!['f', 'i', 'e', 'l', 'd', '_', 'v', 'a', 'l', '_'],
        number(field_name(index).skip(10)) == index,
        field_name(index) == field_name(other) ==> index == other,
{
    reveal_strlit("field_val_");
    decimal_digits_read_back(index);
    decimal_digits_read_back(other);
    assert(field_name(index).take(10) =~= seq!['f', 'i', 'e', 'l', 'd', '_', 'v', 'a', 'l', '_']);
    assert(field_name(index).skip(10) =~= decimal(index));
    assert(field_name(other).skip(10) =~= decimal(other));
}

} // verus!
