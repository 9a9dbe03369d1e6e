use vstd::prelude::*;

verus! {

/// A blank: a space, a tab, a line feed, a vertical tab, a form feed or a
/// carriage return.
pub open spec fn is_blank(b: u8) -> bool {
    b == 32 || (9 <= b <= 13)
}

/// A decimal digit.
pub open spec fn is_digit(b: u8) -> bool {
    48 <= b <= 57
}

/// What ends a field: a comma or a line feed.
pub open spec fn is_separator(b: u8) -> bool {
    b == 44 || b == 10
}

/// The number of blanks at the start.
pub open spec fn leading_blanks(s: Seq<u8>) -> nat
    decreases s.len(),
{
    if s.len() > 0 && is_blank(s[0]) {
        1 + leading_blanks(s.drop_first())
    } else {
        0
    }
}

/// The number of blanks at the end.
pub open spec fn trailing_blanks(s: Seq<u8>) -> nat
    decreases s.len(),
{
    if s.len() > 0 && is_blank(s.last()) {
        1 + trailing_blanks(s.drop_last())
    } else {
        0
    }
}

/// The field without the blanks at its start and its end.
pub open spec fn trimmed(s: Seq<u8>) -> Seq<u8> {
    let rest = s.skip(leading_blanks(s) as int);
    rest.take(rest.len() - trailing_blanks(rest))
}

/// The number that a run of decimal digits stands for; 0 for the empty run.
pub open spec fn decimal_value(digits: Seq<u8>) -> nat
    decreases digits.len(),
{
    if digits.len() == 0 {
        0
    } else {
        decimal_value(digits.drop_last()) * 10 + (digits.last() - 48) as nat
    }
}

/// Every entry is a decimal digit.
pub open spec fn all_digits(s: Seq<u8>) -> bool {
    forall|i: int| 0 <= i < s.len() ==> is_digit(#[trigger] s[i])
}

/// The number of a run of one or more decimal digits that stand for a number
/// within `u64`; anything else has none.
pub open spec fn digits_number(digits: Seq<u8>) -> Option<u64> {
    if digits.len() > 0 && all_digits(digits) && decimal_value(digits) <= u64::MAX {
        Some(decimal_value(digits) as u64)
    } else {
        None
    }
}

/// The number of a field: between blanks, an optional plus sign and one or
/// more decimal digits that stand for a number within `u64`. Any other field
/// has none.
pub open spec fn field_number(field: Seq<u8>) -> Option<u64> {
    let t = trimmed(field);
    digits_number(
        if t.len() > 0 && t[0] == 43 {
            t.drop_first()
        } else {
            t
        },
    )
}

/// The length of the first field: the number of entries before the first
/// separator.
pub open spec fn first_field_len(s: Seq<u8>) -> nat
    decreases s.len(),
{
    if s.len() > 0 && !is_separator(s[0]) {
        1 + first_field_len(s.drop_first())
    } else {
        0
    }
}

/// The numbers of the fields of a text, in order. Fields are divided by
/// commas and line feeds; a field that has no number is passed over.
pub open spec fn numbers_in(text: Seq<u8>) -> Seq<u64>
    decreases text.len(),
{
    let len = first_field_len(text);
    let first = match field_number(text.take(len as int)) {
        Some(x) => seq![x],
        None => Seq::empty(),
    };
    if len < text.len() {
        first + numbers_in(text.skip(len as int + 1))
    } else {
        first
    }
}

/// The blanks at the start end at the first entry that is no blank.
pub proof fn lemma_leading_blanks(s: Seq<u8>, i: int)
    requires
        0 <= i <= s.len(),
        forall|k: int| 0 <= k < i ==> is_blank(#[trigger] s[k]),
        i == s.len() || !is_blank(s[i]),
    ensures
        leading_blanks(s) == i,
    decreases i,
{
    if i > 0 {
        let rest = s.drop_first();
        assert forall|k: int| 0 <= k < i - 1 implies is_blank(#[trigger] rest[k]) by {
            assert(rest[k] == s[k + 1]);
        }
        lemma_leading_blanks(rest, i - 1);
    }
}

/// The blanks at the end begin after the last entry that is no blank.
pub proof fn lemma_trailing_blanks(s: Seq<u8>, j: int)
    requires
        0 <= j <= s.len(),
        forall|k: int| j <= k < s.len() ==> is_blank(#[trigger] s[k]),
        j == 0 || !is_blank(s[j - 1]),
    ensures
        trailing_blanks(s) == s.len() - j,
    decreases s.len() - j,
{
    if j < s.len() {
        let rest = s.drop_last();
        assert forall|k: int| j <= k < rest.len() implies is_blank(#[trigger] rest[k]) by {
            assert(rest[k] == s[k]);
        }
        assert(is_blank(s[s.len() - 1]));
        lemma_trailing_blanks(rest, j);
    }
}

/// The first field ends at the first separator.
pub proof fn lemma_first_field_len(s: Seq<u8>, i: int)
    requires
        0 <= i <= s.len(),
        forall|k: int| 0 <= k < i ==> !is_separator(#[trigger] s[k]),
        i == s.len() || is_separator(s[i]),
    ensures
        first_field_len(s) == i,
    decreases i,
{
    if i > 0 {
        let rest = s.drop_first();
        assert forall|k: int| 0 <= k < i - 1 implies !is_separator(#[trigger] rest[k]) by {
            assert(rest[k] == s[k + 1]);
        }
        lemma_first_field_len(rest, i - 1);
    }
}

/// A run of digits stands for no less than any of its heads.
pub proof fn lemma_decimal_value_grows(digits: Seq<u8>, k: int)
    requires
        0 <= k <= digits.len(),
        all_digits(digits),
    ensures
        decimal_value(digits.take(k)) <= decimal_value(digits),
    decreases digits.len() - k,
{
    if k == digits.len() {
        assert(digits.take(k) =~= digits);
    } else {
        let rest = digits.drop_last();
        assert forall|i: int| 0 <= i < rest.len() implies is_digit(#[trigger] rest[i]) by {
            assert(rest[i] == digits[i]);
        }
        lemma_decimal_value_grows(rest, k);
        assert(rest.take(k) =~= digits.take(k));
        assert(is_digit(digits[digits.len() - 1]));
    }
}

/// The number of the field `text[from..to]`, if it has one.
fn parse_field(text: &[u8], from: usize, to: usize) -> (number: Option<u64>)
    requires
        from <= to <= text.len(),
    ensures
        number == field_number(text@.subrange(from as int, to as int)),
{
    let ghost field = text@.subrange(from as int, to as int);
    let mut a: usize = from;
    while a < to && (text[a] == 32 || (9 <= text[a] && text[a] <= 13))
        invariant
            from <= a <= to <= text.len(),
            forall|k: int| from <= k < a ==> is_blank(#[trigger] text@[k]),
        decreases to - a,
    {
        a = a + 1;
    }
    let mut b: usize = to;
    while b > a && (text[b - 1] == 32 || (9 <= text[b - 1] && text[b - 1] <= 13))
        invariant
            a <= b <= to <= text.len(),
            forall|k: int| b <= k < to ==> is_blank(#[trigger] text@[k]),
        decreases b - a,
    {
        b = b - 1;
    }
    proof {
        assert forall|k: int| 0 <= k < a - from implies is_blank(#[trigger] field[k]) by {
            assert(field[k] == text@[from + k]);
        }
        lemma_leading_blanks(field, a - from);
        let rest = field.skip(a - from);
        assert(rest =~= text@.subrange(a as int, to as int));
        assert forall|k: int| b - a <= k < rest.len() implies is_blank(#[trigger] rest[k]) by {
            assert(rest[k] == text@[a + k]);
        }
        lemma_trailing_blanks(rest, b - a);
        assert(trimmed(field) =~= text@.subrange(a as int, b as int));
    }
    let ghost t = text@.subrange(a as int, b as int);
    if a < b && text[a] == 43 {
        a = a + 1;
        assert(t.drop_first() =~= text@.subrange(a as int, b as int));
    }
    let ghost digits = text@.subrange(a as int, b as int);
    assert(field_number(field) == digits_number(digits));
    if a == b {
        return None;
    }
    let mut value: u64 = 0;
    let mut k: usize = a;
    assert(digits.take(0) =~= Seq::<u8>::empty());
    while k < b
        invariant
            a <= k <= b <= text.len(),
            digits == text@.subrange(a as int, b as int),
            field == text@.subrange(from as int, to as int),
            field_number(field) == digits_number(digits),
            all_digits(digits.take(k - a)),
            value == decimal_value(digits.take(k - a)),
        decreases b - k,
    {
        let c: u8 = text[k];
        if c < 48 || c > 57 {
            assert(!is_digit(digits[k - a]));
            return None;
        }
        proof {
            let next = digits.take(k - a + 1);
            assert(next.drop_last() =~= digits.take(k - a));
            assert(next.last() == c);
            assert forall|i: int| 0 <= i < next.len() implies is_digit(#[trigger] next[i]) by {
                if i < k - a {
                    assert(next[i] == digits.take(k - a)[i]);
                }
            }
            if all_digits(digits) {
                lemma_decimal_value_grows(digits, k - a + 1);
            }
        }
        let shifted = match value.checked_mul(10) {
            Some(shifted) => shifted,
            None => {
                return None;
            },
        };
        value =
        match shifted.checked_add((c - 48) as u64) {
            Some(sum) => sum,
            None => {
                return None;
            },
        };
        k = k + 1;
    }
    assert(digits.take(k - a) =~= digits);
    Some(value)
}

/// The numbers of a text of fields divided by commas and line feeds, in
/// order. A field holds a number where it is, between blanks, an optional
/// plus sign and decimal digits that fit a `u64`; other fields are passed
/// over.
pub fn parse_number_list(text: &[u8]) -> (numbers: Vec<u64>)
    ensures
        numbers@ == numbers_in(text@),
{
    let mut numbers: Vec<u64> = Vec::new();
    let mut start: usize = 0;
    assert(text@.skip(0) =~= text@);
    loop
        invariant
            start <= text.len(),
            numbers@ + numbers_in(text@.skip(start as int)) == numbers_in(text@),
        decreases text.len() - start,
    {
        let ghost rest = text@.skip(start as int);
        let ghost before = numbers@;
        let mut end: usize = start;
        while end < text.len() && !(text[end] == 44 || text[end] == 10)
            invariant
                start <= end <= text.len(),
                forall|k: int| start <= k < end ==> !is_separator(#[trigger] text@[k]),
            decreases text.len() - end,
        {
            end = end + 1;
        }
        proof {
            assert forall|k: int| 0 <= k < end - start implies !is_separator(#[trigger] rest[k]) by {
                assert(rest[k] == text@[start + k]);
            }
            lemma_first_field_len(rest, end - start);
            assert(rest.take(end - start) =~= text@.subrange(start as int, end as int));
        }
        match parse_field(text, start, end) {
            Some(x) => {
                numbers.push(x);
                assert(numbers@ =~= before + seq![x]);
            },
            None => {
                assert(numbers@ =~= before + Seq::<u64>::empty());
            },
        }
        if end == text.len() {
            return numbers;
        }
        proof {
            assert(rest.skip(end - start + 1) =~= text@.skip(end + 1));
            let first = match field_number(rest.take(end - start)) {
                Some(x) => seq![x],
                None => Seq::<u64>::empty(),
            };
            assert(before + (first + numbers_in(text@.skip(end + 1))) =~= (before + first)
                + numbers_in(text@.skip(end + 1)));
        }
        start = end + 1;
    }
}

} // verus!
