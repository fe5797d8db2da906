//! What the forms accept: the resource counts typed in, and a new process
//! made of a name, its allocation and its maximum claim.

use vstd::prelude::*;

use crate::table::{Proc, RESOURCE_COUNT, decimal, digit_char};

verus! {

/// `c` is an ASCII decimal digit.
pub open spec fn is_digit(c: char) -> bool {
    '0' <= c && c <= '9'
}

/// The number that the decimal digits `s` spell, most significant first.
pub open spec fn digits_value(s: Seq<char>) -> int
    decreases s.len(),
{
    if s.len() == 0 {
        0
    } else {
        digits_value(s.drop_last()) * 10 + (s.last() as int - '0' as int)
    }
}

/// `s` without its leading `+`, if it has one.
pub open spec fn unsigned_digits(s: Seq<char>) -> Seq<char> {
    if s.len() > 0 && s[0] == '+' {
        s.drop_first()
    } else {
        s
    }
}

/// What `str::parse::<usize>` gives for `s`: an optional `+` followed by at
/// least one decimal digit and nothing else, whose value fits in `usize`.
pub open spec fn spec_parse_usize(s: Seq<char>) -> Option<usize> {
    let d = unsigned_digits(s);
    if d.len() > 0 && (forall|i: int| 0 <= i < d.len() ==> is_digit(#[trigger] d[i])) && digits_value(
        d,
    ) <= usize::MAX {
        Some(digits_value(d) as usize)
    } else {
        None
    }
}

proof fn lemma_digits_value_nonneg(s: Seq<char>)
    requires
        forall|i: int| 0 <= i < s.len() ==> is_digit(#[trigger] s[i]),
    ensures
        digits_value(s) >= 0,
    decreases s.len(),
{
    if s.len() > 0 {
        lemma_digits_value_nonneg(s.drop_last());
    }
}

/// More digits never spell a smaller number.
proof fn lemma_digits_value_grows(s: Seq<char>, k: int)
    requires
        0 <= k <= s.len(),
        forall|i: int| 0 <= i < s.len() ==> is_digit(#[trigger] s[i]),
    ensures
        digits_value(s.take(k)) <= digits_value(s),
    decreases s.len() - k,
{
    if k < s.len() {
        let t = s.take(k + 1);
        assert(t.drop_last() =~= s.take(k));
        assert(forall|i: int| 0 <= i < t.drop_last().len() ==> is_digit(#[trigger] t.drop_last()[i]));
        lemma_digits_value_nonneg(t.drop_last());
        assert(is_digit(t.last()));
        lemma_digits_value_grows(s, k + 1);
    } else {
        assert(s.take(k) =~= s);
    }
}

/// The decimal digits of `n` read back as `n`.
pub proof fn lemma_decimal_parses(n: nat)
    ensures
        decimal(n).len() > 0,
        forall|i: int| 0 <= i < decimal(n).len() ==> is_digit(#[trigger] decimal(n)[i]),
        digits_value(decimal(n)) == n,
    decreases n,
{
    let d = decimal(n);
    if n < 10 {
        assert(d =~= seq![digit_char(n)]);
        assert(d.drop_last() =~= Seq::<char>::empty());
        assert(digit_char(n) as int == 48 + n);
        assert('0' as int == 48);
        assert(digits_value(d.drop_last()) == 0);
        assert(d.last() == digit_char(n));
    } else {
        lemma_decimal_parses(n / 10);
        assert(d.drop_last() =~= decimal(n / 10));
        assert(digit_char(n % 10) as int == 48 + n % 10);
        assert(d.last() == digit_char(n % 10));
        assert('0' as int == 48);
        assert((n / 10) * 10 + n % 10 == n) by (nonlinear_arith);
        assert(digits_value(d) == digits_value(decimal(n / 10)) * 10 + (d.last() as int - '0' as int));
        assert forall|i: int| 0 <= i < d.len() implies is_digit(#[trigger] d[i]) by {
            if i < d.len() - 1 {
                assert(d[i] == decimal(n / 10)[i]);
            }
        }
    }
}

/// Parsing reads back the decimal digits of a count, with or without a
/// leading `+`.
pub proof fn lemma_parse_reads_decimal(n: usize)
    ensures
        spec_parse_usize(decimal(n as nat)) == Some(n),
        spec_parse_usize(seq!['+'] + decimal(n as nat)) == Some(n),
{
    let d = decimal(n as nat);
    lemma_decimal_parses(n as nat);
    assert(is_digit(d[0]));
    assert(unsigned_digits(d) == d);
    let pd = seq!['+'] + d;
    assert(pd.drop_first() =~= d);
    assert(unsigned_digits(pd) == d);
}

/// Parsing refuses the empty text, a lone `+`, and any text with a character
/// other than a decimal digit, save a leading `+`.
pub proof fn lemma_parse_rejects(s: Seq<char>)
    ensures
        s.len() == 0 ==> spec_parse_usize(s) is None,
        s =~= seq!['+'] ==> spec_parse_usize(s) is None,
        forall|i: int|
            0 <= i < s.len() && !('0' <= #[trigger] s[i] && s[i] <= '9') && !(i == 0 && s[i] == '+')
                ==> spec_parse_usize(s) is None,
{
    if s =~= seq!['+'] {
        assert(unsigned_digits(s) =~= Seq::<char>::empty());
    }
    assert forall|i: int|
        0 <= i < s.len() && !('0' <= #[trigger] s[i] && s[i] <= '9') && !(i == 0 && s[i] == '+')
            implies spec_parse_usize(s) is None by {
        let d = unsigned_digits(s);
        if s.len() > 0 && s[0] == '+' {
            assert(d[i - 1] == s[i]);
            assert(!is_digit(d[i - 1]));
        } else {
            assert(!is_digit(d[i]));
        }
    }
}

/// The first error of a row is the error of its first count that has one;
/// a row has none exactly when every count parses.
pub proof fn lemma_first_input_error(values: Seq<Seq<char>>)
    ensures
        first_input_error(values) is None <==> forall|i: int|
            0 <= i < values.len() ==> spec_parse_usize(#[trigger] values[i]) is Some,
        forall|e: InputError|
            first_input_error(values) == Some(e) ==> exists|i: int|
                0 <= i < values.len() && input_error(#[trigger] values[i]) == Some(e) && forall|
                    j: int,
                | 0 <= j < i ==> spec_parse_usize(#[trigger] values[j]) is Some,
    decreases values.len(),
{
    if values.len() > 0 {
        let rest = values.drop_first();
        lemma_first_input_error(rest);
        lemma_parse_rejects(values[0]);
        assert forall|i: int| 0 < i < values.len() implies #[trigger] values[i] == rest[i - 1] by {}
        if first_input_error(values) is None {
            assert forall|i: int| 0 <= i < values.len() implies spec_parse_usize(
                #[trigger] values[i],
            ) is Some by {
                if i > 0 {
                    assert(spec_parse_usize(rest[i - 1]) is Some);
                }
            }
        }
        if forall|i: int| 0 <= i < values.len() ==> spec_parse_usize(#[trigger] values[i]) is Some {
            assert(spec_parse_usize(values[0]) is Some);
            assert forall|i: int| 0 <= i < rest.len() implies spec_parse_usize(
                #[trigger] rest[i],
            ) is Some by {
                assert(spec_parse_usize(values[i + 1]) is Some);
            }
        }
        assert forall|e: InputError| first_input_error(values) == Some(e) implies exists|i: int|
            0 <= i < values.len() && input_error(#[trigger] values[i]) == Some(e) && forall|j: int|
                0 <= j < i ==> spec_parse_usize(#[trigger] values[j]) is Some by {
            if input_error(values[0]) is Some {
                assert(input_error(values[0]) == Some(e));
            } else {
                let i = choose|i: int|
                    0 <= i < rest.len() && input_error(#[trigger] rest[i]) == Some(e) && forall|
                        j: int,
                    | 0 <= j < i ==> spec_parse_usize(#[trigger] rest[j]) is Some;
                assert(input_error(values[i + 1]) == Some(e));
                assert forall|j: int| 0 <= j < i + 1 implies spec_parse_usize(
                    #[trigger] values[j],
                ) is Some by {
                    if j > 0 {
                        assert(spec_parse_usize(rest[j - 1]) is Some);
                    }
                }
            }
        }
    }
}

/// Parses a count as `str::parse::<usize>` does.
pub fn parse_usize(s: &str) -> (res: Option<usize>)
    ensures
        res == spec_parse_usize(s@),
{
    let n = s.unicode_len();
    let mut start: usize = 0;
    if n > 0 && s.get_char(0) == '+' {
        start = 1;
    }
    let ghost d = unsigned_digits(s@);
    assert(d =~= s@.subrange(start as int, n as int));
    if start == n {
        return None;
    }
    let mut value: usize = 0;
    let mut i: usize = start;
    while i < n
        invariant
            n == s@.len(),
            start < n,
            start <= i <= n,
            d == s@.subrange(start as int, n as int),
            d == unsigned_digits(s@),
            forall|j: int| 0 <= j < i - start ==> is_digit(#[trigger] d[j]),
            value == digits_value(d.take(i - start)),
        decreases n - i,
    {
        let c = s.get_char(i);
        if !('0' <= c && c <= '9') {
            assert(d[i - start] == c);
            assert(!is_digit(d[i - start]));

            return None;
        }
        let digit = (c as u32 - '0' as u32) as usize;
        assert(digit == c as int - '0' as int);
        assert(d.take(i - start + 1).drop_last() =~= d.take(i - start));
        assert(d.take(i - start + 1).last() == c);
        if value > (usize::MAX - digit) / 10 {
            proof {
                assert(value * 10 + digit > usize::MAX) by (nonlinear_arith)
                    requires
                        value > (usize::MAX - digit) / 10,
                        digit <= 9,
                ;
                if forall|j: int| 0 <= j < d.len() ==> is_digit(#[trigger] d[j]) {
                    lemma_digits_value_grows(d, i - start + 1);
                }
            }
            return None;
        }
        assert(value * 10 + digit <= usize::MAX) by (nonlinear_arith)
            requires
                value <= (usize::MAX - digit) / 10,
                digit <= 9,
        ;
        value = value * 10 + digit;
        i = i + 1;
    }
    assert(d.take(n - start) =~= d);
    Some(value)
}

/// Why a row of resource counts was refused.
#[derive(Debug, PartialEq, Eq, Structural)]
pub enum InputError {
    /// A count was left empty.
    Empty,
    /// A count is not a number that fits.
    NotANumber,
}

impl InputError {
    /// The text shown to the user.
    pub fn message(&self) -> (s: &'static str)
        ensures
            *self == InputError::Empty ==> s@ == "Inputs cannot be empty"@,
            *self == InputError::NotANumber ==> s@ == "Inputs must be positive numbers"@,
    {
        match self {
            InputError::Empty => "Inputs cannot be empty",
            InputError::NotANumber => "Inputs must be positive numbers",
        }
    }
}

/// What is wrong with the count `s`, if anything.
pub open spec fn input_error(s: Seq<char>) -> Option<InputError> {
    if s.len() == 0 {
        Some(InputError::Empty)
    } else if spec_parse_usize(s) is None {
        Some(InputError::NotANumber)
    } else {
        None
    }
}

/// The error of the first count of `values` that has one.
pub open spec fn first_input_error(values: Seq<Seq<char>>) -> Option<InputError>
    decreases values.len(),
{
    if values.len() == 0 {
        None
    } else {
        match input_error(values[0]) {
            Some(e) => Some(e),
            None => first_input_error(values.drop_first()),
        }
    }
}

/// The text of each count of a row.
pub open spec fn texts(values: [String; RESOURCE_COUNT]) -> Seq<Seq<char>> {
    values@.map_values(|s: String| s@)
}

/// Reads one count per resource, stopping at the first that is empty or not
/// a number.
fn parse_row(values: &[String; RESOURCE_COUNT]) -> (res: Result<
    [usize; RESOURCE_COUNT],
    InputError,
>)
    ensures
        match res {
            Ok(v) => {
                &&& first_input_error(texts(*values)) is None
                &&& forall|r: int|
                    0 <= r < RESOURCE_COUNT ==> spec_parse_usize(#[trigger] values@[r]@) == Some(
                        v@[r],
                    )
            },
            Err(e) => first_input_error(texts(*values)) == Some(e),
        },
{
    let ghost all = texts(*values);
    let mut result: [usize; RESOURCE_COUNT] = [0, 0, 0, 0, 0, 0];
    let mut i: usize = 0;
    assert(all.skip(0) =~= all);
    while i < RESOURCE_COUNT
        invariant
            i <= RESOURCE_COUNT,
            all == texts(*values),
            first_input_error(all) == first_input_error(all.skip(i as int)),
            forall|r: int|
                0 <= r < i ==> spec_parse_usize(#[trigger] values@[r]@) == Some(result@[r]),
        decreases RESOURCE_COUNT - i,
    {
        let val = values[i].as_str();
        assert(all.skip(i as int)[0] == val@);
        assert(all.skip(i as int).drop_first() =~= all.skip(i + 1));
        if val.is_empty() {
            return Err(InputError::Empty);
        }
        match parse_usize(val) {
            Some(v) => {
                result[i] = v;
            },
            None => {
                return Err(InputError::NotANumber);
            },
        }
        i = i + 1;
    }
    assert(all.skip(RESOURCE_COUNT as int) =~= Seq::<Seq<char>>::empty());
    Ok(result)
}

/// Reads one count per resource; the first count that is empty or not a
/// number decides the error.
pub fn parse_inputs(values: &[String; RESOURCE_COUNT]) -> (res: Result<
    [usize; RESOURCE_COUNT],
    InputError,
>)
    ensures
        match res {
            Ok(v) => {
                &&& first_input_error(texts(*values)) is None
                &&& forall|r: int|
                    0 <= r < RESOURCE_COUNT ==> spec_parse_usize(#[trigger] values@[r]@) == Some(
                        v@[r],
                    )
            },
            Err(e) => first_input_error(texts(*values)) == Some(e),
        },
        res is Ok <==> forall|r: int|
            0 <= r < RESOURCE_COUNT ==> spec_parse_usize(#[trigger] values@[r]@) is Some,
        res == Err::<[usize; RESOURCE_COUNT], InputError>(InputError::Empty) ==> exists|i: int|
            0 <= i < RESOURCE_COUNT && values@[i]@.len() == 0 && forall|j: int|
                0 <= j < i ==> spec_parse_usize(#[trigger] values@[j]@) is Some,
        res == Err::<[usize; RESOURCE_COUNT], InputError>(InputError::NotANumber) ==> exists|i: int|
            0 <= i < RESOURCE_COUNT && values@[i]@.len() > 0 && spec_parse_usize(values@[i]@) is None
                && forall|j: int| 0 <= j < i ==> spec_parse_usize(#[trigger] values@[j]@) is Some,
{
    let res = parse_row(values);
    proof {
        let all = texts(*values);
        lemma_first_input_error(all);
        assert forall|i: int| 0 <= i < RESOURCE_COUNT implies #[trigger] all[i] == values@[i]@ by {}
        if res is Err {
            let e = res->Err_0;
            let i = choose|i: int|
                0 <= i < all.len() && input_error(#[trigger] all[i]) == Some(e) && forall|j: int|
                    0 <= j < i ==> spec_parse_usize(#[trigger] all[j]) is Some;
            assert(all[i] == values@[i]@);
            assert forall|j: int| 0 <= j < i implies spec_parse_usize(
                #[trigger] values@[j]@,
            ) is Some by {
                assert(all[j] == values@[j]@);
                assert(spec_parse_usize(all[j]) is Some);
            }
        }
        if res is Ok {
            assert forall|r: int| 0 <= r < RESOURCE_COUNT implies spec_parse_usize(
                #[trigger] values@[r]@,
            ) is Some by {
                assert(all[r] == values@[r]@);
                assert(spec_parse_usize(all[r]) is Some);
            }
        }
        if forall|r: int| 0 <= r < RESOURCE_COUNT ==> spec_parse_usize(#[trigger] values@[r]@) is Some {
            assert forall|r: int| 0 <= r < all.len() implies spec_parse_usize(
                #[trigger] all[r],
            ) is Some by {
                assert(all[r] == values@[r]@);
            }
        }
    }
    res
}

/// Why the form of a new process was refused.
#[derive(Debug, PartialEq, Eq, Structural)]
pub enum FormError {
    /// The process has no name.
    EmptyName,
    /// A count of the allocation is wrong.
    Allocation(InputError),
    /// A count of the maximum claim is wrong.
    Max(InputError),
    /// The process would hold more of a resource than it may ever claim.
    AllocationExceedsMax,
}

impl FormError {
    /// The text shown to the user.
    pub fn message(&self) -> (s: &'static str)
        ensures
            *self == FormError::EmptyName ==> s@ == "Process name cannot be empty"@,
            *self == FormError::Allocation(InputError::Empty) ==> s@
                == "Allocation: Inputs cannot be empty"@,
            *self == FormError::Allocation(InputError::NotANumber) ==> s@
                == "Allocation: Inputs must be positive numbers"@,
            *self == FormError::Max(InputError::Empty) ==> s@ == "Max: Inputs cannot be empty"@,
            *self == FormError::Max(InputError::NotANumber) ==> s@
                == "Max: Inputs must be positive numbers"@,
            *self == FormError::AllocationExceedsMax ==> s@
                == "Allocation cannot be greater than Max"@,
    {
        match self {
            FormError::EmptyName => "Process name cannot be empty",
            FormError::Allocation(InputError::Empty) => "Allocation: Inputs cannot be empty",
            FormError::Allocation(InputError::NotANumber) =>
                "Allocation: Inputs must be positive numbers",
            FormError::Max(InputError::Empty) => "Max: Inputs cannot be empty",
            FormError::Max(InputError::NotANumber) => "Max: Inputs must be positive numbers",
            FormError::AllocationExceedsMax => "Allocation cannot be greater than Max",
        }
    }
}

/// The count of resource `r` typed in the row `values`, once the row parsed.
pub open spec fn count_of(values: [String; RESOURCE_COUNT], r: int) -> usize {
    spec_parse_usize(values@[r]@)->0
}

/// Some allocation of the rows exceeds the maximum claim, both rows being numbers.
pub open spec fn exceeds_max(allocation: [String; RESOURCE_COUNT], max: [String; RESOURCE_COUNT]) -> bool {
    exists|r: int| 0 <= r < RESOURCE_COUNT && count_of(allocation, r) > count_of(max, r)
}

/// Checks the form of a new process and builds it; its need is its maximum
/// claim minus its allocation.
pub fn new_process(
    name: &str,
    allocation: &[String; RESOURCE_COUNT],
    max: &[String; RESOURCE_COUNT],
) -> (res: Result<Proc, FormError>)
    ensures
        match res {
            Ok(p) => {
                &&& name@.len() > 0
                &&& first_input_error(texts(*allocation)) is None
                &&& first_input_error(texts(*max)) is None
                &&& !exceeds_max(*allocation, *max)
                &&& p.name@ == name@
                &&& forall|r: int|
                    0 <= r < RESOURCE_COUNT ==> spec_parse_usize(#[trigger] allocation@[r]@) == Some(
                        p.allocation@[r],
                    ) && spec_parse_usize(max@[r]@) == Some(p.max@[r]) && p.allocation@[r]
                        <= p.max@[r]
                &&& forall|r: int|
                    0 <= r < RESOURCE_COUNT ==> #[trigger] p.allocation@[r] == count_of(
                        *allocation,
                        r,
                    )
                &&& forall|r: int| 0 <= r < RESOURCE_COUNT ==> #[trigger] p.max@[r] == count_of(*max, r)
                &&& forall|r: int|
                    0 <= r < RESOURCE_COUNT ==> #[trigger] p.need@[r] == count_of(*max, r)
                        - count_of(*allocation, r)
            },
            Err(FormError::EmptyName) => name@.len() == 0,
            Err(FormError::Allocation(e)) => {
                &&& name@.len() > 0
                &&& first_input_error(texts(*allocation)) == Some(e)
            },
            Err(FormError::Max(e)) => {
                &&& name@.len() > 0
                &&& first_input_error(texts(*allocation)) is None
                &&& first_input_error(texts(*max)) == Some(e)
            },
            Err(FormError::AllocationExceedsMax) => {
                &&& name@.len() > 0
                &&& first_input_error(texts(*allocation)) is None
                &&& first_input_error(texts(*max)) is None
                &&& exceeds_max(*allocation, *max)
                &&& exists|r: int|
                    0 <= r < RESOURCE_COUNT && spec_parse_usize(#[trigger] allocation@[r]@)->0
                        > spec_parse_usize(max@[r]@)->0
            },
        },
{
    if name.is_empty() {
        return Err(FormError::EmptyName);
    }
    let alloc = match parse_inputs(allocation) {
        Ok(v) => v,
        Err(e) => {
            return Err(FormError::Allocation(e));
        },
    };
    let most = match parse_inputs(max) {
        Ok(v) => v,
        Err(e) => {
            return Err(FormError::Max(e));
        },
    };
    let mut i: usize = 0;
    while i < RESOURCE_COUNT
        invariant
            i <= RESOURCE_COUNT,
            name@.len() > 0,
            first_input_error(texts(*allocation)) is None,
            first_input_error(texts(*max)) is None,
            forall|r: int| 0 <= r < RESOURCE_COUNT ==> #[trigger] alloc@[r] == count_of(*allocation, r),
            forall|r: int| 0 <= r < RESOURCE_COUNT ==> #[trigger] most@[r] == count_of(*max, r),
            forall|r: int| 0 <= r < i ==> #[trigger] alloc@[r] <= most@[r],
        decreases RESOURCE_COUNT - i,
    {
        if alloc[i] > most[i] {
            assert(count_of(*allocation, i as int) > count_of(*max, i as int));
            assert(exceeds_max(*allocation, *max));
            return Err(FormError::AllocationExceedsMax);
        }
        i = i + 1;
    }
    let mut need: [usize; RESOURCE_COUNT] = [0, 0, 0, 0, 0, 0];
    let mut i: usize = 0;
    while i < RESOURCE_COUNT
        invariant
            i <= RESOURCE_COUNT,
            forall|r: int| 0 <= r < RESOURCE_COUNT ==> #[trigger] alloc@[r] <= most@[r],
            forall|r: int| 0 <= r < i ==> #[trigger] need@[r] == most@[r] - alloc@[r],
        decreases RESOURCE_COUNT - i,
    {
        need[i] = most[i] - alloc[i];
        i = i + 1;
    }
    Ok(Proc { name: name.to_owned(), allocation: alloc, max: most, need })
}

} // verus!
