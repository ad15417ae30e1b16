//! Text helpers for user interfaces: money formatting and display names.

use vstd::prelude::*;

use crate::text::{decimal, digit_to_char, digits_value, law_decimal_is_base_ten, push_char, push_decimal};

pub mod wrap;

verus! {

// ---------------------------------------------------------------------------
// Money
// ---------------------------------------------------------------------------

/// Digits grouped by three from the right, groups separated by commas.
pub open spec fn group3(digits: Seq<char>) -> Seq<char>
    decreases digits.len(),
{
    if digits.len() <= 3 {
        digits
    } else {
        group3(digits.take(digits.len() - 3)) + seq![','] + digits.skip(digits.len() - 3)
    }
}

/// Grouped digits have a comma exactly every three digits from the right:
/// counting positions from the right end, position `j` is a comma when
/// `j % 4 == 3`, and otherwise the digit `j - j / 4` places from the right
/// end of `digits`; so the first group has one to three digits and every
/// later group exactly three, and dropping the commas gives `digits` back.
pub proof fn law_money_groups_of_three(digits: Seq<char>)
    requires
        digits.len() >= 1,
    ensures
        group3(digits).len() == digits.len() + (digits.len() - 1) / 3,
        forall|j: int|
            0 <= j < group3(digits).len() ==> #[trigger] group3(digits)[group3(digits).len() - 1 - j] == (if j
                % 4 == 3 {
                ','
            } else {
                digits[digits.len() - 1 - (j - j / 4)]
            }),
    decreases digits.len(),
{
    let n = digits.len();
    if n > 3 {
        let d1 = digits.take(n - 3);
        let last = digits.skip(n - 3);
        law_money_groups_of_three(d1);
        let g1 = group3(d1);
        let g = group3(digits);
        assert(g == g1 + seq![','] + last);
        let len = g.len();
        assert forall|j: int| 0 <= j < len implies #[trigger] g[len - 1 - j] == (if j % 4 == 3 {
            ','
        } else {
            digits[n - 1 - (j - j / 4)]
        }) by {
            if j < 3 {
                assert(g[len - 1 - j] == last[2 - j]);
            } else if j == 3 {
                assert(g[len - 1 - j] == ',');
            } else {
                let j1 = j - 4;
                assert(j1 % 4 == j % 4);
                assert(j1 / 4 == j / 4 - 1);
                assert(g[len - 1 - j] == g1[g1.len() - 1 - j1]);
                if j % 4 != 3 {
                    assert(d1[d1.len() - 1 - (j1 - j1 / 4)] == digits[n - 1 - (j - j / 4)]);
                }
            }
        }
    }
}

/// The absolute value of a money amount.
pub open spec fn money_abs(value: i64) -> nat {
    if value < 0 { (-value) as nat } else { value as nat }
}

/// A money amount with comma separators: an optional minus sign, a dollar
/// sign, then the grouped digits of the absolute value.
pub open spec fn money_text(value: i64) -> Seq<char> {
    let sign = if value < 0 { seq!['-'] } else { Seq::<char>::empty() };
    sign + seq!['$'] + group3(decimal(money_abs(value)))
}

/// The decimal digits of `n`.
fn decimal_digits(n: u64) -> (res: Vec<char>)
    ensures
        res@ == decimal(n as nat),
    decreases n,
{
    if n < 10 {
        let mut v: Vec<char> = Vec::new();
        v.push(digit_to_char(n));
        proof {
            assert(v@ =~= decimal(n as nat));
        }
        v
    } else {
        let mut v = decimal_digits(n / 10);
        v.push(digit_to_char(n % 10));
        v
    }
}

proof fn lemma_decimal_nonempty(n: nat)
    ensures
        decimal(n).len() >= 1,
    decreases n,
{
    if n >= 10 {
        lemma_decimal_nonempty(n / 10);
    }
}

/// Format an integer currency value with comma separators, such as
/// `-$1,234,567`.
pub fn format_money(value: i64) -> (res: String)
    requires
        value != i64::MIN,
    ensures
        res@ == money_text(value),
        res@[0] == (if value < 0 { '-' } else { '$' }),
        value < 0 ==> res@[1] == '$',
        ({
            let d = decimal(money_abs(value));
            let lead: int = if value < 0 { 2 } else { 1 };
            &&& res@.len() == lead + d.len() + (d.len() - 1) / 3
            &&& forall|j: int|
                0 <= j < res@.len() - lead ==> #[trigger] res@[res@.len() - 1 - j] == (if j % 4 == 3 {
                    ','
                } else {
                    d[d.len() - 1 - (j - j / 4)]
                })
        }),
{
    let abs: u64 = if value < 0 { (-value) as u64 } else { value as u64 };
    let mut digits = decimal_digits(abs);
    let ghost all = digits@;
    let mut result: Vec<char> = Vec::new();
    proof {
        lemma_decimal_nonempty(abs as nat);
    }
    while digits.len() > 3
        invariant
            digits@.len() >= 1,
            group3(all) == group3(digits@) + (if result@.len() == 0 {
                Seq::<char>::empty()
            } else {
                seq![','] + result@
            }),
        decreases digits@.len(),
    {
        let ghost d = digits@;
        let ghost old_result = result@;
        let tail = digits.split_off(digits.len() - 3);
        proof {
            assert(d.take(d.len() - 3) =~= digits@);
            assert(d.skip(d.len() - 3) =~= tail@);
        }
        if result.len() == 0 {
            result = tail;
        } else {
            let mut joined = tail;
            joined.push(',');
            let mut k: usize = 0;
            let ghost base = joined@;
            while k < result.len()
                invariant
                    k <= result@.len(),
                    joined@ == base + result@.take(k as int),
                decreases result@.len() - k,
            {
                joined.push(result[k]);
                k += 1;
                proof {
                    assert(joined@ =~= base + result@.take(k as int));
                }
            }
            proof {
                assert(result@.take(result@.len() as int) =~= result@);
            }
            result = joined;
        }
        proof {
            let suffix = if old_result.len() == 0 {
                Seq::<char>::empty()
            } else {
                seq![','] + old_result
            };
            assert(result@ =~= d.skip(d.len() - 3) + suffix);
            assert(group3(d) == group3(digits@) + seq![','] + d.skip(d.len() - 3));
            assert(group3(all) =~= group3(digits@) + (seq![','] + result@));
        }
    }
    let mut out = String::new();
    if value < 0 {
        push_char(&mut out, '-');
    }
    push_char(&mut out, '$');
    let ghost head = out@;
    let mut i: usize = 0;
    while i < digits.len()
        invariant
            i <= digits@.len(),
            out@ == head + digits@.take(i as int),
        decreases digits@.len() - i,
    {
        push_char(&mut out, digits[i]);
        i += 1;
        proof {
            assert(out@ =~= head + digits@.take(i as int));
        }
    }
    proof {
        assert(digits@.take(digits@.len() as int) =~= digits@);
    }
    if result.len() > 0 {
        push_char(&mut out, ',');
        let ghost head2 = out@;
        let mut j: usize = 0;
        while j < result.len()
            invariant
                j <= result@.len(),
                out@ == head2 + result@.take(j as int),
            decreases result@.len() - j,
        {
            push_char(&mut out, result[j]);
            j += 1;
            proof {
                assert(out@ =~= head2 + result@.take(j as int));
            }
        }
        proof {
            assert(result@.take(result@.len() as int) =~= result@);
        }
    }
    proof {
        let sign = if value < 0 { seq!['-'] } else { Seq::<char>::empty() };
        assert(abs as nat == money_abs(value));
        assert(group3(digits@) == digits@);
        assert(out@ =~= sign + seq!['$'] + group3(all));
        law_money_groups_of_three(all);
        let g = group3(all);
        let lead: int = if value < 0 { 2 } else { 1 };
        assert forall|j: int| 0 <= j < out@.len() - lead implies #[trigger] out@[out@.len() - 1 - j] == g[g.len()
            - 1 - j] by {}
    }
    out
}

/// The compact form of an amount below a million: an optional minus sign, a
/// dollar sign, then the whole thousands followed by `k`, or the amount
/// itself below a thousand.
pub open spec fn compact_money(value: i64) -> Seq<char> {
    let sign = if value < 0 { seq!['-'] } else { Seq::<char>::empty() };
    let abs = money_abs(value);
    if abs >= 1000 {
        sign + seq!['$'] + decimal(abs / 1000) + seq!['k']
    } else {
        sign + seq!['$'] + decimal(abs)
    }
}

/// The compact form is the amount rounded down to whole thousands: after
/// the optional minus sign and the dollar sign come decimal digits, then `k`
/// when the amount is a thousand or more; those digits stand for the number
/// of whole thousands in the absolute amount, or for the absolute amount
/// itself below a thousand.
pub proof fn law_compact_money_counts_thousands(value: i64)
    ensures
        ({
            let s = compact_money(value);
            let lead: int = if value < 0 { 2 } else { 1 };
            let abs = money_abs(value);
            &&& s[0] == (if value < 0 { '-' } else { '$' })
            &&& value < 0 ==> s[1] == '$'
            &&& if abs >= 1000 {
                &&& s.last() == 'k'
                &&& digits_value(s.subrange(lead, s.len() - 1)) * 1000 <= abs
                &&& abs < digits_value(s.subrange(lead, s.len() - 1)) * 1000 + 1000
            } else {
                digits_value(s.skip(lead)) == abs
            }
        }),
{
    let s = compact_money(value);
    let lead: int = if value < 0 { 2 } else { 1 };
    let abs = money_abs(value);
    let sign = if value < 0 { seq!['-'] } else { Seq::<char>::empty() };
    if abs >= 1000 {
        law_decimal_is_base_ten(abs / 1000);
        let d = decimal(abs / 1000);
        assert(s == sign + seq!['$'] + d + seq!['k']);
        assert(s.subrange(lead, s.len() - 1) =~= d);
    } else {
        law_decimal_is_base_ten(abs);
        assert(s.skip(lead) =~= decimal(abs));
    }
}

/// Format an amount compactly for dense UI when it is below a million in
/// absolute value (`$999`, `-$12k`); `None` for a million or more, whose
/// compact form shows millions with one decimal place.
pub fn compact_money_text(value: i64) -> (res: Option<String>)
    requires
        value != i64::MIN,
    ensures
        res is None <==> money_abs(value) >= 1_000_000,
        res matches Some(s) ==> s@ == compact_money(value),
{
    let abs: u64 = if value < 0 { (-value) as u64 } else { value as u64 };
    if abs >= 1_000_000 {
        return None;
    }
    let mut s = String::new();
    if value < 0 {
        push_char(&mut s, '-');
    }
    push_char(&mut s, '$');
    if abs >= 1000 {
        push_decimal(&mut s, abs / 1000);
        push_char(&mut s, 'k');
    } else {
        push_decimal(&mut s, abs);
    }
    proof {
        assert(s@ =~= compact_money(value));
    }
    Some(s)
}

// ---------------------------------------------------------------------------
// Display names
// ---------------------------------------------------------------------------

/// The ASCII upper-case form of a character; other characters are unchanged.
pub open spec fn ascii_upper(c: char) -> char {
    if 'a' <= c <= 'z' {
        ((c as u32) - 32) as char
    } else {
        c
    }
}

/// `s` with its first character in ASCII upper case.
pub open spec fn capitalized(s: Seq<char>) -> Seq<char> {
    if s.len() == 0 {
        s
    } else {
        s.update(0, ascii_upper(s[0]))
    }
}

/// A `snake_case` key as a display name: underscores become spaces and the
/// first character of each word is upper-cased.
pub open spec fn display_of(key: Seq<char>) -> Seq<char> {
    Seq::new(
        key.len(),
        |i: int|
            if key[i] == '_' {
                ' '
            } else if i == 0 || key[i - 1] == '_' {
                ascii_upper(key[i])
            } else {
                key[i]
            },
    )
}

fn upper_one(c: char) -> (res: char)
    ensures
        res == ascii_upper(c),
{
    if 'a' <= c && c <= 'z' {
        ((c as u8) - 32) as char
    } else {
        c
    }
}

/// Capitalize the first character of a string (ASCII only).
pub fn capitalize(s: &str) -> (res: String)
    ensures
        res@ == capitalized(s@),
{
    let n = s.unicode_len();
    let mut res = String::new();
    let mut i: usize = 0;
    while i < n
        invariant
            n == s@.len(),
            i <= n,
            res@ == capitalized(s@).take(i as int),
        decreases n - i,
    {
        let c = s.get_char(i);
        if i == 0 {
            push_char(&mut res, upper_one(c));
        } else {
            push_char(&mut res, c);
        }
        i += 1;
        proof {
            assert(res@ =~= capitalized(s@).take(i as int));
        }
    }
    proof {
        assert(capitalized(s@).take(n as int) =~= capitalized(s@));
    }
    res
}

/// Format a `snake_case` key as a display name in Title Case, such as
/// `health_potion` to `Health Potion`.
pub fn display_name(type_key: &str) -> (res: String)
    ensures
        res@ == display_of(type_key@),
{
    let n = type_key.unicode_len();
    let mut res = String::new();
    let mut prev_underscore = true;
    let mut i: usize = 0;
    while i < n
        invariant
            n == type_key@.len(),
            i <= n,
            res@ == display_of(type_key@).take(i as int),
            prev_underscore == (i == 0 || type_key@[i - 1] == '_'),
        decreases n - i,
    {
        let c = type_key.get_char(i);
        if c == '_' {
            push_char(&mut res, ' ');
        } else if prev_underscore {
            push_char(&mut res, upper_one(c));
        } else {
            push_char(&mut res, c);
        }
        prev_underscore = c == '_';
        i += 1;
        proof {
            assert(res@ =~= display_of(type_key@).take(i as int));
        }
    }
    proof {
        assert(display_of(type_key@).take(n as int) =~= display_of(type_key@));
    }
    res
}

// ---------------------------------------------------------------------------
// Buttons, toggles and steppers
// ---------------------------------------------------------------------------

/// Mouse event used by a button.
#[derive(Debug, Clone, Copy, PartialEq, Eq, Structural)]
pub enum ButtonTrigger {
    Press,
    Release,
}

/// How a button is drawn this frame.
#[derive(Debug, Clone, Copy, PartialEq, Eq, Structural)]
pub enum ButtonLook {
    Disabled,
    Pressed,
    Hovered,
    Normal,
}

/// Whether a button fires this frame: only when it is enabled and under the
/// mouse, on the press of the left button for `Press` buttons and on its
/// release for `Release` buttons.
pub fn button_activated(enabled: bool, hovered: bool, pressed: bool, released: bool, trigger: ButtonTrigger) -> (r:
    bool)
    ensures
        r == (enabled && hovered && match trigger {
            ButtonTrigger::Press => pressed,
            ButtonTrigger::Release => released,
        }),
{
    if !enabled || !hovered {
        return false;
    }
    match trigger {
        ButtonTrigger::Press => pressed,
        ButtonTrigger::Release => released,
    }
}

/// How a button looks: disabled when it is not enabled; otherwise pressed
/// while the mouse holds it down over it, hovered while the mouse is over it,
/// and normal else.
pub fn button_look(enabled: bool, hovered: bool, down: bool) -> (l: ButtonLook)
    ensures
        l == (if !enabled {
            ButtonLook::Disabled
        } else if hovered && down {
            ButtonLook::Pressed
        } else if hovered {
            ButtonLook::Hovered
        } else {
            ButtonLook::Normal
        }),
{
    if !enabled {
        ButtonLook::Disabled
    } else if hovered && down {
        ButtonLook::Pressed
    } else if hovered {
        ButtonLook::Hovered
    } else {
        ButtonLook::Normal
    }
}

/// The value of a toggle or checkbox after this frame: a click flips it.
pub fn toggled(value: bool, clicked: bool) -> (r: bool)
    ensures
        r == (value != clicked),
{
    if clicked {
        !value
    } else {
        value
    }
}

/// The direction a `-` / `+` stepper was clicked this frame: `-1`, `0` or
/// `+1`, the two cancelling when both were clicked.
pub fn stepper_direction(minus: bool, plus: bool) -> (d: i32)
    ensures
        d == (if plus { 1int } else { 0int }) - (if minus { 1int } else { 0int }),
{
    let mut direction: i32 = 0;
    if minus {
        direction -= 1;
    }
    if plus {
        direction += 1;
    }
    direction
}

} // verus!
