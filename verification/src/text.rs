//! Numbers as text, and text cut at separators.
//!
//! File names, paths and listings are built from numbers written in base ten or
//! sixteen, and file names are read back by cutting them into fields.
use vstd::arithmetic::div_mod::{lemma_div_decreases, lemma_fundamental_div_mod, lemma_mod_bound};
use vstd::arithmetic::power::pow;
use vstd::prelude::*;

verus! {

/// The character that stands between the fields of a file name.
pub const SEPARATOR: char = '_';

/// The digit that stands for `d`, below sixteen.
pub open spec fn digit_char(d: nat, upper: bool) -> char
    recommends
        d < 16,
{
    if d == 0 {
        '0'
    } else if d == 1 {
        '1'
    } else if d == 2 {
        '2'
    } else if d == 3 {
        '3'
    } else if d == 4 {
        '4'
    } else if d == 5 {
        '5'
    } else if d == 6 {
        '6'
    } else if d == 7 {
        '7'
    } else if d == 8 {
        '8'
    } else if d == 9 {
        '9'
    } else if d == 10 {
        if upper { 'A' } else { 'a' }
    } else if d == 11 {
        if upper { 'B' } else { 'b' }
    } else if d == 12 {
        if upper { 'C' } else { 'c' }
    } else if d == 13 {
        if upper { 'D' } else { 'd' }
    } else if d == 14 {
        if upper { 'E' } else { 'e' }
    } else {
        if upper { 'F' } else { 'f' }
    }
}

/// The number that a digit of base `radix` stands for. Letters of either case
/// are digits of base sixteen.
pub open spec fn digit_value(c: char, radix: nat) -> Option<nat> {
    let value: int = if '0' <= c <= '9' {
        c as int - '0' as int
    } else if 'a' <= c <= 'f' {
        c as int - 'a' as int + 10
    } else if 'A' <= c <= 'F' {
        c as int - 'A' as int + 10
    } else {
        16
    };
    if value < 16 && value < radix {
        Some(value as nat)
    } else {
        None
    }
}

/// `n` written in base `radix`, with zeros in front where it has fewer than
/// `width` digits.
pub open spec fn number_text(n: nat, radix: nat, upper: bool, width: nat) -> Seq<char>
    decreases n + width,
    when 2 <= radix
{
    if n < radix && width <= 1 {
        seq![digit_char(n, upper)]
    } else {
        proof {
            if n < radix {
                vstd::arithmetic::div_mod::lemma_basic_div(n as int, radix as int);
            } else {
                lemma_div_decreases(n as int, radix as int);
            }
        }
        number_text(
            n / radix,
            radix,
            upper,
            if width == 0 { 0 } else { (width - 1) as nat },
        ).push(digit_char(n % radix, upper))
    }
}

/// `n` in base ten.
pub open spec fn decimal(n: nat) -> Seq<char> {
    number_text(n, 10, true, 1)
}

/// `n` in base sixteen with capital letters, of `width` digits or more.
pub open spec fn upper_hex(n: nat, width: nat) -> Seq<char> {
    number_text(n, 16, true, width)
}

/// `n` in base sixteen with small letters, of `width` digits or more.
pub open spec fn lower_hex(n: nat, width: nat) -> Seq<char> {
    number_text(n, 16, false, width)
}

/// The value of a run of digits; `None` where a character is no digit.
pub open spec fn digits_value(s: Seq<char>, radix: nat) -> Option<nat>
    decreases s.len(),
{
    if s.len() == 0 {
        Some(0)
    } else {
        match (digits_value(s.drop_last(), radix), digit_value(s.last(), radix)) {
            (Some(high), Some(low)) => Some(high * radix + low),
            _ => None,
        }
    }
}

/// The digits of a number without the sign that may stand before them.
pub open spec fn unsigned_digits(s: Seq<char>) -> Seq<char> {
    if s.len() > 0 && s[0] == '+' {
        s.drop_first()
    } else {
        s
    }
}

/// The number that `s` is the text of: an optional `+` and then one or more
/// digits, with a value of at most `max`. Anything else is no number.
pub open spec fn parsed_number(s: Seq<char>, radix: nat, max: nat) -> Option<nat> {
    let digits = unsigned_digits(s);
    if digits.len() == 0 {
        None
    } else {
        match digits_value(digits, radix) {
            Some(value) => if value <= max { Some(value) } else { None },
            None => None,
        }
    }
}

/// Appends one digit.
fn push_digit(out: &mut String, d: u128, upper: bool)
    requires
        d < 16,
    ensures
        final(out)@ == old(out)@.push(digit_char(d as nat, upper)),
{
    proof {
        reveal_strlit("0");
        reveal_strlit("1");
        reveal_strlit("2");
        reveal_strlit("3");
        reveal_strlit("4");
        reveal_strlit("5");
        reveal_strlit("6");
        reveal_strlit("7");
        reveal_strlit("8");
        reveal_strlit("9");
        reveal_strlit("A");
        reveal_strlit("B");
        reveal_strlit("C");
        reveal_strlit("D");
        reveal_strlit("E");
        reveal_strlit("F");
        reveal_strlit("a");
        reveal_strlit("b");
        reveal_strlit("c");
        reveal_strlit("d");
        reveal_strlit("e");
        reveal_strlit("f");
    }
    let digit: &str = if d == 0 {
        "0"
    } else if d == 1 {
        "1"
    } else if d == 2 {
        "2"
    } else if d == 3 {
        "3"
    } else if d == 4 {
        "4"
    } else if d == 5 {
        "5"
    } else if d == 6 {
        "6"
    } else if d == 7 {
        "7"
    } else if d == 8 {
        "8"
    } else if d == 9 {
        "9"
    } else if d == 10 {
        if upper { "A" } else { "a" }
    } else if d == 11 {
        if upper { "B" } else { "b" }
    } else if d == 12 {
        if upper { "C" } else { "c" }
    } else if d == 13 {
        if upper { "D" } else { "d" }
    } else if d == 14 {
        if upper { "E" } else { "e" }
    } else {
        if upper { "F" } else { "f" }
    };
    assert(digit@ =~= seq![digit_char(d as nat, upper)]);
    out.append(digit);
    assert(out@ =~= old(out)@.push(digit_char(d as nat, upper)));
}

/// Appends `n` in base `radix`, with zeros in front up to `width` digits.
pub fn push_number(out: &mut String, n: u128, radix: u128, upper: bool, width: u32)
    requires
        2 <= radix <= 16,
    ensures
        final(out)@ == old(out)@ + number_text(n as nat, radix as nat, upper, width as nat),
    decreases n + width,
{
    proof {
        lemma_mod_bound(n as int, radix as int);
    }
    if n < radix && width <= 1 {
        push_digit(out, n, upper);
        assert(out@ =~= old(out)@ + number_text(n as nat, radix as nat, upper, width as nat));
    } else {
        let rest: u32 = if width == 0 { 0 } else { width - 1 };
        proof {
            if n < radix {
                vstd::arithmetic::div_mod::lemma_basic_div(n as int, radix as int);
            } else {
                lemma_div_decreases(n as int, radix as int);
            }
        }
        push_number(out, n / radix, radix, upper, rest);
        push_digit(out, n % radix, upper);
        assert(out@ =~= old(out)@ + number_text(n as nat, radix as nat, upper, width as nat));
    }
}

/// Appends `n` in base ten.
pub fn push_decimal(out: &mut String, n: u64)
    ensures
        final(out)@ == old(out)@ + decimal(n as nat),
{
    push_number(out, n as u128, 10, true, 1);
}

/// A digit's number in base `radix`.
fn digit_of(c: char, radix: u64) -> (value: Option<u64>)
    ensures
        match value {
            Some(v) => digit_value(c, radix as nat) == Some(v as nat),
            None => digit_value(c, radix as nat) is None,
        },
{
    let value: u64 = if '0' <= c && c <= '9' {
        (c as u64) - ('0' as u64)
    } else if 'a' <= c && c <= 'f' {
        (c as u64) - ('a' as u64) + 10
    } else if 'A' <= c && c <= 'F' {
        (c as u64) - ('A' as u64) + 10
    } else {
        16
    };
    if value < 16 && value < radix {
        Some(value)
    } else {
        None
    }
}

/// More digits never make a number smaller, and never mend one that is no
/// number.
proof fn lemma_digits_value_grows(s: Seq<char>, radix: nat, i: int)
    requires
        0 <= i <= s.len(),
        1 <= radix,
    ensures
        digits_value(s.take(i), radix) is None ==> digits_value(s, radix) is None,
        digits_value(s, radix) is Some ==> digits_value(s.take(i), radix)->0 <= digits_value(
            s,
            radix,
        )->0,
    decreases s.len() - i,
{
    if i < s.len() {
        lemma_digits_value_grows(s, radix, i + 1);
        let longer = s.take(i + 1);
        assert(longer.drop_last() =~= s.take(i));
        assert(longer.last() == s[i]);
        if digits_value(longer, radix) is Some {
            let high = digits_value(s.take(i), radix)->0;
            assert(high * radix >= high) by (nonlinear_arith)
                requires
                    1 <= radix,
            ;
        }
    } else {
        assert(s.take(i) =~= s);
    }
}

/// Reads a number of base `radix`.
pub fn parse_number(s: &Vec<char>, radix: u64, max: u64) -> (number: Option<u64>)
    requires
        2 <= radix <= 16,
    ensures
        match number {
            Some(v) => parsed_number(s@, radix as nat, max as nat) == Some(v as nat),
            None => parsed_number(s@, radix as nat, max as nat) is None,
        },
{
    let start: usize = if s.len() > 0 && s[0] == '+' { 1 } else { 0 };
    if s.len() == start {
        return None;
    }
    let ghost digits = unsigned_digits(s@);
    assert(digits =~= s@.skip(start as int));
    let mut value: u64 = 0;
    let mut i: usize = start;
    assert(digits.take(0) =~= Seq::empty());
    while i < s.len()
        invariant
            start <= i <= s.len(),
            start < s.len(),
            2 <= radix <= 16,
            digits == unsigned_digits(s@),
            digits =~= s@.skip(start as int),
            digits_value(digits.take(i - start), radix as nat) == Some(value as nat),
            value <= max,
        decreases s.len() - i,
    {
        let ghost longer = digits.take(i - start + 1);
        proof {
            assert(longer.drop_last() =~= digits.take(i - start));
            assert(longer.last() == s@[i as int]);
            lemma_digits_value_grows(digits, radix as nat, i - start + 1);
            assert(value * radix <= u64::MAX * 16) by (nonlinear_arith)
                requires
                    value <= u64::MAX,
                    radix <= 16,
            ;
        }
        match digit_of(s[i], radix) {
            Some(d) => {
                let next: u128 = (value as u128) * (radix as u128) + (d as u128);
                if next > max as u128 {
                    return None;
                }
                value = next as u64;
            },
            None => {
                return None;
            },
        }
        i += 1;
    }
    assert(digits.take(i - start) =~= digits);
    Some(value)
}

/// Whether every character of `s` is a digit of base `radix`.
pub open spec fn all_digits(s: Seq<char>, radix: nat) -> bool {
    forall|i: int| 0 <= i < s.len() ==> digit_value(#[trigger] s[i], radix) is Some
}

proof fn lemma_digit_char(d: nat, radix: nat, upper: bool)
    requires
        d < radix <= 16,
    ensures
        digit_value(digit_char(d, upper), radix) == Some(d),
{
}

/// Reading the digits of a written number gives the number.
pub proof fn lemma_number_text(n: nat, radix: nat, upper: bool, width: nat)
    requires
        2 <= radix <= 16,
    ensures
        number_text(n, radix, upper, width).len() > 0,
        digits_value(number_text(n, radix, upper, width), radix) == Some(n),
        all_digits(number_text(n, radix, upper, width), radix),
    decreases n + width,
{
    let s = number_text(n, radix, upper, width);
    if n < radix && width <= 1 {
        lemma_digit_char(n, radix, upper);
        assert(s.last() == digit_char(n, upper));
        assert(digits_value(s.drop_last(), radix) == Some(0nat));
        assert(0nat * radix == 0) by (nonlinear_arith);
    } else {
        let rest: nat = if width == 0 { 0 } else { (width - 1) as nat };
        if n < radix {
            vstd::arithmetic::div_mod::lemma_basic_div(n as int, radix as int);
        } else {
            lemma_div_decreases(n as int, radix as int);
        }
        lemma_mod_bound(n as int, radix as int);
        lemma_number_text(n / radix, radix, upper, rest);
        lemma_digit_char(n % radix, radix, upper);
        let high = number_text(n / radix, radix, upper, rest);
        assert(s =~= high.push(digit_char(n % radix, upper)));
        assert(s.drop_last() =~= high);
        lemma_fundamental_div_mod(n as int, radix as int);
        assert((n / radix) * radix == radix * (n / radix)) by (nonlinear_arith);
    }
}

/// A number that needs no more than `width` digits is written with that many.
pub proof fn lemma_number_len(n: nat, radix: nat, upper: bool, width: nat)
    requires
        2 <= radix <= 16,
        width > 0,
        n < pow(radix as int, width),
    ensures
        number_text(n, radix, upper, width).len() == width,
    decreases width,
{
    reveal(pow);
    if width == 1 {
        assert(pow(radix as int, 0) == 1);
    } else {
        let less = pow(radix as int, (width - 1) as nat);
        assert(n / radix < less) by (nonlinear_arith)
            requires
                n < radix * less,
                radix > 0,
        ;
        lemma_number_len(n / radix, radix, upper, (width - 1) as nat);
    }
}

/// A written number is read back as itself.
pub proof fn lemma_number_read_back(n: nat, radix: nat, upper: bool, width: nat, max: nat)
    requires
        2 <= radix <= 16,
        n <= max,
    ensures
        parsed_number(number_text(n, radix, upper, width), radix, max) == Some(n),
        number_text(n, radix, upper, width).len() > 0,
        all_digits(number_text(n, radix, upper, width), radix),
        !number_text(n, radix, upper, width).contains(SEPARATOR),
{
    let s = number_text(n, radix, upper, width);
    lemma_number_text(n, radix, upper, width);
    assert(digit_value(s[0], radix) is Some);
    assert(s[0] != '+');
    assert forall|i: int| 0 <= i < s.len() implies s[i] != SEPARATOR by {
        assert(digit_value(s[i], radix) is Some);
    }
}

/// The pieces of `s` between its separators. There is always at least one
/// piece, which may be empty.
pub open spec fn split_fields(s: Seq<char>) -> Seq<Seq<char>>
    decreases s.len(),
{
    if s.len() == 0 {
        seq![Seq::empty()]
    } else {
        let before = split_fields(s.drop_last());
        if s.last() == SEPARATOR {
            before.push(Seq::empty())
        } else {
            before.drop_last().push(before.last().push(s.last()))
        }
    }
}

/// The pieces with one separator between each two of them.
pub open spec fn join_fields(fields: Seq<Seq<char>>) -> Seq<char>
    decreases fields.len(),
{
    if fields.len() == 0 {
        Seq::empty()
    } else if fields.len() == 1 {
        fields[0]
    } else {
        join_fields(fields.drop_last()).push(SEPARATOR) + fields.last()
    }
}

/// The contents of each piece.
pub open spec fn field_views(fields: Seq<Vec<char>>) -> Seq<Seq<char>> {
    Seq::new(fields.len(), |i: int| fields[i]@)
}

/// The characters of a string.
pub fn chars_of(s: &str) -> (chars: Vec<char>)
    ensures
        chars@ == s@,
{
    let mut chars: Vec<char> = Vec::new();
    for c in iter: s.chars()
        invariant
            chars@ == iter.seq().take(iter.index() as int),
            iter.seq() == s@,
    {
        chars.push(c);
    }
    chars
}

/// Whether `chars` begin with `prefix`.
pub fn has_prefix(chars: &Vec<char>, prefix: &str) -> (found: bool)
    ensures
        found == prefix@.is_prefix_of(chars@),
{
    let wanted: Vec<char> = chars_of(prefix);
    if wanted.len() > chars.len() {
        return false;
    }
    let mut i: usize = 0;
    while i < wanted.len()
        invariant
            wanted@ == prefix@,
            i <= wanted.len() <= chars.len(),
            forall|j: int| 0 <= j < i ==> wanted@[j] == chars@[j],
        decreases wanted.len() - i,
    {
        if wanted[i] != chars[i] {
            assert(prefix@[i as int] != chars@.take(prefix@.len() as int)[i as int]);
            return false;
        }
        i += 1;
    }
    assert(prefix@ =~= chars@.take(prefix@.len() as int));
    true
}

/// Cuts what follows the first `from` characters at its separators.
pub fn split_from(chars: &Vec<char>, from: usize) -> (fields: Vec<Vec<char>>)
    requires
        from <= chars.len(),
    ensures
        field_views(fields@) == split_fields(chars@.skip(from as int)),
        fields.len() > 0,
{
    let ghost whole = chars@.skip(from as int);
    let mut fields: Vec<Vec<char>> = Vec::new();
    let mut field: Vec<char> = Vec::new();
    let mut i: usize = from;
    assert(whole.take(0) =~= Seq::empty());
    assert(field_views(fields@).push(field@) =~= split_fields(whole.take(0)));
    while i < chars.len()
        invariant
            from <= i <= chars.len(),
            whole == chars@.skip(from as int),
            field_views(fields@).push(field@) == split_fields(whole.take(i - from)),
        decreases chars.len() - i,
    {
        let ghost longer = whole.take(i - from + 1);
        let ghost before = field_views(fields@).push(field@);
        let ghost old_field = field@;
        let ghost old_fields = fields@;
        assert(longer.drop_last() =~= whole.take(i - from));
        assert(longer.last() == chars@[i as int]);
        if chars[i] == SEPARATOR {
            fields.push(field);
            field = Vec::new();
            assert(field_views(fields@) =~= before);
            assert(field_views(fields@).push(field@) =~= split_fields(longer));
        } else {
            field.push(chars[i]);
            assert(before.drop_last() =~= field_views(fields@));
            assert(field_views(fields@).push(field@) =~= split_fields(longer));
        }
        i += 1;
    }
    fields.push(field);
    assert(whole.take(i - from) =~= whole);
    assert(field_views(fields@) =~= split_fields(whole));
    fields
}

/// Joining one more piece.
pub proof fn lemma_join_pushed(fields: Seq<Seq<char>>, field: Seq<char>)
    ensures
        fields.len() == 0 ==> join_fields(fields.push(field)) == field,
        fields.len() > 0 ==> join_fields(fields.push(field)) == join_fields(fields).push(SEPARATOR)
            + field,
{
    assert(fields.push(field).drop_last() =~= fields);
}

/// Text without separators after a separator is one more piece.
proof fn lemma_split_appended(s: Seq<char>, field: Seq<char>)
    requires
        !field.contains(SEPARATOR),
    ensures
        split_fields(s.push(SEPARATOR) + field) == split_fields(s).push(field),
    decreases field.len(),
{
    let whole = s.push(SEPARATOR) + field;
    if field.len() == 0 {
        assert(whole.drop_last() =~= s);
        assert(field =~= Seq::empty());
    } else {
        let shorter = field.drop_last();
        assert(!shorter.contains(SEPARATOR)) by {
            assert forall|i: int| 0 <= i < shorter.len() implies shorter[i] != SEPARATOR by {
                assert(field[i] == shorter[i]);
            }
        }
        lemma_split_appended(s, shorter);
        assert(whole.drop_last() =~= s.push(SEPARATOR) + shorter);
        assert(whole.last() == field[field.len() - 1]);
        let before = split_fields(s).push(shorter);
        assert(before.drop_last() =~= split_fields(s));
        assert(shorter.push(field.last()) =~= field);
    }
}

proof fn lemma_split_single(field: Seq<char>)
    requires
        !field.contains(SEPARATOR),
    ensures
        split_fields(field) == seq![field],
    decreases field.len(),
{
    if field.len() == 0 {
        assert(field =~= Seq::empty());
    } else {
        let shorter = field.drop_last();
        assert(!shorter.contains(SEPARATOR)) by {
            assert forall|i: int| 0 <= i < shorter.len() implies shorter[i] != SEPARATOR by {
                assert(field[i] == shorter[i]);
            }
        }
        lemma_split_single(shorter);
        assert(field.last() == field[field.len() - 1]);
        assert(shorter.push(field.last()) =~= field);
        assert(split_fields(field) =~= seq![field]);
    }
}

/// Joined pieces are cut apart again where no piece holds a separator.
pub proof fn lemma_split_joined(fields: Seq<Seq<char>>)
    requires
        fields.len() > 0,
        forall|i: int| 0 <= i < fields.len() ==> !(#[trigger] fields[i]).contains(SEPARATOR),
    ensures
        split_fields(join_fields(fields)) == fields,
    decreases fields.len(),
{
    if fields.len() == 1 {
        lemma_split_single(fields[0]);
        assert(fields =~= seq![fields[0]]);
    } else {
        let before = fields.drop_last();
        assert forall|i: int| 0 <= i < before.len() implies !(#[trigger] before[i]).contains(
            SEPARATOR,
        ) by {
            assert(before[i] == fields[i]);
        }
        lemma_split_joined(before);
        lemma_split_appended(join_fields(before), fields.last());
        assert(before.push(fields.last()) =~= fields);
    }
}

/// Whether `a` sorts before `b` as text.
pub open spec fn text_before(a: Seq<char>, b: Seq<char>) -> bool
    decreases a.len(),
{
    if b.len() == 0 {
        false
    } else if a.len() == 0 {
        true
    } else if a[0] == b[0] {
        text_before(a.drop_first(), b.drop_first())
    } else {
        a[0] < b[0]
    }
}

/// What stands in front of both texts does not matter to their order.
pub proof fn lemma_before_same_front(front: Seq<char>, a: Seq<char>, b: Seq<char>)
    ensures
        text_before(front + a, front + b) == text_before(a, b),
    decreases front.len(),
{
    if front.len() == 0 {
        assert(front + a =~= a);
        assert(front + b =~= b);
    } else {
        assert((front + a).drop_first() =~= front.drop_first() + a);
        assert((front + b).drop_first() =~= front.drop_first() + b);
        lemma_before_same_front(front.drop_first(), a, b);
    }
}

/// What stands behind different texts of one length does not matter to their order.
pub proof fn lemma_before_other_front(a: Seq<char>, ra: Seq<char>, b: Seq<char>, rb: Seq<char>)
    requires
        a.len() == b.len(),
        a != b,
    ensures
        text_before(a + ra, b + rb) == text_before(a, b),
    decreases a.len(),
{
    if a.len() == 0 {
        assert(a =~= b);
    } else if a[0] == b[0] {
        assert((a + ra).drop_first() =~= a.drop_first() + ra);
        assert((b + rb).drop_first() =~= b.drop_first() + rb);
        if a.drop_first() == b.drop_first() {
            assert(a =~= seq![a[0]] + a.drop_first());
            assert(b =~= seq![b[0]] + b.drop_first());
        }
        lemma_before_other_front(a.drop_first(), ra, b.drop_first(), rb);
    }
}

/// Digits sort as text like numbers.
proof fn lemma_digit_order(x: nat, y: nat)
    requires
        x < 16,
        y < 16,
    ensures
        text_before(seq![digit_char(x, true)], seq![digit_char(y, true)]) <==> x < y,
{
    let a = seq![digit_char(x, true)];
    let b = seq![digit_char(y, true)];
    assert(a[0] == digit_char(x, true) && b[0] == digit_char(y, true));
    assert(!text_before(a.drop_first(), b.drop_first()));
}

/// Numbers that are written with the same number of digits, and capital letters for
/// the great ones, sort as text like numbers.
pub proof fn lemma_number_order(m: nat, n: nat, radix: nat, width: nat)
    requires
        2 <= radix <= 16,
        width > 0,
        m < pow(radix as int, width),
        n < pow(radix as int, width),
    ensures
        text_before(number_text(m, radix, true, width), number_text(n, radix, true, width)) <==> m
            < n,
        m != n ==> number_text(m, radix, true, width) != number_text(n, radix, true, width),
    decreases width,
{
    reveal(pow);
    let a = number_text(m, radix, true, width);
    let b = number_text(n, radix, true, width);
    lemma_number_text(m, radix, true, width);
    lemma_number_text(n, radix, true, width);
    lemma_number_len(m, radix, true, width);
    lemma_number_len(n, radix, true, width);
    if width == 1 {
        assert(pow(radix as int, 0) == 1);
        lemma_digit_order(m, n);
    } else {
        let less = pow(radix as int, (width - 1) as nat);
        let (mq, nq) = (m / radix, n / radix);
        assert(mq < less && nq < less) by (nonlinear_arith)
            requires
                m < radix * less,
                n < radix * less,
                radix > 0,
                mq == m / radix,
                nq == n / radix,
        ;
        let rest: nat = (width - 1) as nat;
        let qa = number_text(mq, radix, true, rest);
        let qb = number_text(nq, radix, true, rest);
        let da = seq![digit_char(m % radix, true)];
        let db = seq![digit_char(n % radix, true)];
        lemma_number_order(mq, nq, radix, rest);
        lemma_number_len(mq, radix, true, rest);
        lemma_number_len(nq, radix, true, rest);
        lemma_fundamental_div_mod(m as int, radix as int);
        lemma_fundamental_div_mod(n as int, radix as int);
        lemma_mod_bound(m as int, radix as int);
        lemma_mod_bound(n as int, radix as int);
        assert(a =~= qa + da);
        assert(b =~= qb + db);
        if mq == nq {
            lemma_before_same_front(qa, da, db);
            lemma_digit_order(m % radix, n % radix);
        } else {
            lemma_before_other_front(qa, da, qb, db);
            if mq < nq {
                assert(m < n) by (nonlinear_arith)
                    requires
                        m == radix * mq + m % radix,
                        n == radix * nq + n % radix,
                        0 <= m % radix < radix,
                        0 <= n % radix,
                        mq < nq,
                ;
            } else {
                assert(n < m) by (nonlinear_arith)
                    requires
                        m == radix * mq + m % radix,
                        n == radix * nq + n % radix,
                        0 <= n % radix < radix,
                        0 <= m % radix,
                        nq < mq,
                ;
            }
        }
    }
}

/// The digits from zero to nine follow each other, and so do the letters that come
/// after them, capital or small.
pub proof fn law_digit_chars(d: nat, upper: bool)
    requires
        d < 16,
    ensures
        d < 10 ==> digit_char(d, upper) as int == '0' as int + d,
        d >= 10 && upper ==> digit_char(d, upper) as int == 'A' as int + d - 10,
        d >= 10 && !upper ==> digit_char(d, upper) as int == 'a' as int + d - 10,
{
}

/// A character stands for a number below the base if and only if it is the digit of
/// that number, in either case.
pub proof fn law_digit_values(c: char, radix: nat, d: nat)
    requires
        radix <= 16,
    ensures
        digit_value(c, radix) == Some(d) <==> d < radix && (c == digit_char(d, true) || c
            == digit_char(d, false)),
{
}

/// One more digit multiplies the value by the base and adds its own. What holds a
/// character that is no digit has no value.
pub proof fn law_value_of_longer_digits(s: Seq<char>, c: char, radix: nat)
    ensures
        digits_value(Seq::empty(), radix) == Some(0nat),
        digits_value(s.push(c), radix) is Some <==> digits_value(s, radix) is Some && digit_value(
            c,
            radix,
        ) is Some,
        digits_value(s.push(c), radix) is Some ==> digits_value(s.push(c), radix)->0
            == digits_value(s, radix)->0 * radix + digit_value(c, radix)->0,
{
    assert(s.push(c).drop_last() =~= s);
}

/// Whether `c` is a digit of base `radix`, with letters of one case.
spec fn is_digit_of(c: char, radix: nat, upper: bool) -> bool {
    exists|d: nat| d < radix && c == #[trigger] digit_char(d, upper)
}

/// Whether `s` is made of the digits of base `radix`, with letters of one case.
spec fn is_written(s: Seq<char>, radix: nat, upper: bool) -> bool {
    forall|i: int| 0 <= i < s.len() ==> is_digit_of(#[trigger] s[i], radix, upper)
}

/// How a number is written: it has a digit, and no fewer digits than asked for; no
/// more either, but for those that it needs.
proof fn lemma_number_shape(n: nat, radix: nat, upper: bool, width: nat)
    requires
        2 <= radix <= 16,
    ensures
        number_text(n, radix, upper, width).len() > 0,
        number_text(n, radix, upper, width).len() >= width,
        is_written(number_text(n, radix, upper, width), radix, upper),
        digits_value(number_text(n, radix, upper, width), radix) == Some(n),
        n < radix ==> number_text(n, radix, upper, width).len() <= 1 || number_text(
            n,
            radix,
            upper,
            width,
        ).len() <= width,
        number_text(n, radix, upper, width).len() > 1 && number_text(n, radix, upper, width).len()
            > width ==> number_text(n, radix, upper, width)[0] != '0',
        number_text(n, radix, upper, width)[0] == '0' ==> n == 0 || number_text(
            n,
            radix,
            upper,
            width,
        ).len() <= width,
    decreases n + width,
{
    lemma_number_text(n, radix, upper, width);
    let s = number_text(n, radix, upper, width);
    if n < radix && width <= 1 {
        assert(s[0] == digit_char(n, upper));
    } else {
        let rest: nat = if width == 0 { 0 } else { (width - 1) as nat };
        if n < radix {
            vstd::arithmetic::div_mod::lemma_basic_div(n as int, radix as int);
        } else {
            lemma_div_decreases(n as int, radix as int);
            assert(n / radix > 0) by (nonlinear_arith)
                requires
                    n >= radix,
                    radix >= 2,
            ;
        }
        lemma_mod_bound(n as int, radix as int);
        let shorter = number_text(n / radix, radix, upper, rest);
        lemma_number_shape(n / radix, radix, upper, rest);
        assert(s == shorter.push(digit_char(n % radix, upper)));
        assert forall|i: int| 0 <= i < s.len() implies is_digit_of(
            #[trigger] s[i],
            radix,
            upper,
        ) by {
            if i < shorter.len() {
                assert(s[i] == shorter[i]);
            } else {
                assert(s[i] == digit_char(n % radix, upper));
            }
        }
        assert(s[0] == shorter[0]);
    }
}

/// A number in base ten is made of digits, has the value of the number, and has no
/// zero in front.
pub proof fn law_decimal(n: nat)
    ensures
        decimal(n).len() > 0,
        forall|i: int| 0 <= i < decimal(n).len() ==> '0' <= #[trigger] decimal(n)[i] <= '9',
        digits_value(decimal(n), 10) == Some(n),
        decimal(n).len() > 1 ==> decimal(n)[0] != '0',
{
    lemma_number_shape(n, 10, true, 1);
}

/// A number in base sixteen with capital letters has the value of the number. It has
/// as many digits as asked for, and more only where it needs them: there is no zero
/// in front then.
pub proof fn law_upper_hex(n: nat, width: nat)
    ensures
        upper_hex(n, width).len() > 0,
        upper_hex(n, width).len() >= width,
        forall|i: int|
            0 <= i < upper_hex(n, width).len() ==> '0' <= #[trigger] upper_hex(n, width)[i] <= '9'
                || 'A' <= upper_hex(n, width)[i] <= 'F',
        digits_value(upper_hex(n, width), 16) == Some(n),
        upper_hex(n, width).len() > 1 && upper_hex(n, width).len() > width ==> upper_hex(
            n,
            width,
        )[0] != '0',
{
    lemma_number_shape(n, 16, true, width);
}

/// A number in base sixteen with small letters has the value of the number. It has
/// as many digits as asked for, and more only where it needs them: there is no zero
/// in front then.
pub proof fn law_lower_hex(n: nat, width: nat)
    ensures
        lower_hex(n, width).len() > 0,
        lower_hex(n, width).len() >= width,
        forall|i: int|
            0 <= i < lower_hex(n, width).len() ==> '0' <= #[trigger] lower_hex(n, width)[i] <= '9'
                || 'a' <= lower_hex(n, width)[i] <= 'f',
        digits_value(lower_hex(n, width), 16) == Some(n),
        lower_hex(n, width).len() > 1 && lower_hex(n, width).len() > width ==> lower_hex(
            n,
            width,
        )[0] != '0',
{
    lemma_number_shape(n, 16, false, width);
}

/// A run of characters with a value starts with a digit.
proof fn lemma_first_digit(s: Seq<char>, radix: nat)
    requires
        s.len() > 0,
        digits_value(s, radix) is Some,
    ensures
        digit_value(s[0], radix) is Some,
    decreases s.len(),
{
    if s.len() > 1 {
        lemma_first_digit(s.drop_last(), radix);
    }
}

/// A text is read as a number if and only if it is one or more digits of that value,
/// with or without a plus sign in front, and the value is not above the limit.
pub proof fn law_parsed_number(s: Seq<char>, radix: nat, max: nat, n: nat)
    requires
        radix <= 16,
    ensures
        parsed_number(s, radix, max) == Some(n) <==> n <= max && exists|digits: Seq<char>|
            {
                &&& s == digits || s == seq!['+'] + digits
                &&& digits.len() > 0
                &&& #[trigger] digits_value(digits, radix) == Some(n)
            },
{
    let unsigned = unsigned_digits(s);
    if parsed_number(s, radix, max) == Some(n) {
        assert(s == unsigned || s =~= seq!['+'] + unsigned);
        assert(digits_value(unsigned, radix) == Some(n));
    }
    if exists|digits: Seq<char>|
        {
            &&& s == digits || s == seq!['+'] + digits
            &&& digits.len() > 0
            &&& #[trigger] digits_value(digits, radix) == Some(n)
        } {
        let digits = choose|digits: Seq<char>|
            {
                &&& s == digits || s == seq!['+'] + digits
                &&& digits.len() > 0
                &&& #[trigger] digits_value(digits, radix) == Some(n)
            };
        lemma_first_digit(digits, radix);
        if s == digits {
            assert(unsigned == digits);
        } else {
            assert((seq!['+'] + digits)[0] == '+');
            assert((seq!['+'] + digits).drop_first() =~= digits);
        }
    }
}

/// Pieces are joined with an underscore between each two of them.
pub proof fn law_joined_pieces(fields: Seq<Seq<char>>, field: Seq<char>)
    ensures
        join_fields(seq![field]) == field,
        fields.len() > 0 ==> join_fields(fields.push(field)) == join_fields(fields) + seq!['_']
            + field,
{
    lemma_join_pushed(fields, field);
    assert(join_fields(fields).push(SEPARATOR) =~= join_fields(fields) + seq!['_']);
}

/// Cutting a text at its underscores gives pieces without underscores, which joined
/// are the text again.
pub proof fn law_cut_pieces(s: Seq<char>)
    ensures
        split_fields(s).len() > 0,
        forall|i: int|
            0 <= i < split_fields(s).len() ==> !(#[trigger] split_fields(s)[i]).contains('_'),
        join_fields(split_fields(s)) == s,
    decreases s.len(),
{
    if s.len() == 0 {
        assert(split_fields(s) =~= seq![Seq::<char>::empty()]);
        assert(join_fields(split_fields(s)) =~= s);
    } else {
        let shorter = s.drop_last();
        let before = split_fields(shorter);
        law_cut_pieces(shorter);
        assert(shorter.push(s.last()) =~= s);
        let cut = split_fields(s);
        let front = before.drop_last();
        assert(front.push(before.last()) =~= before);
        if s.last() == '_' {
            lemma_join_pushed(before, Seq::empty());
            assert(join_fields(cut) =~= s);
        } else {
            let longer = before.last().push(s.last());
            lemma_join_pushed(front, before.last());
            lemma_join_pushed(front, longer);
            assert(join_fields(cut) =~= join_fields(before).push(s.last()));
            assert forall|i: int| 0 <= i < cut.len() implies !(#[trigger] cut[i]).contains('_') by {
                if i < front.len() {
                    assert(cut[i] == before[i]);
                } else {
                    assert(!before[before.len() - 1].contains('_'));
                    assert forall|j: int| 0 <= j < longer.len() implies longer[j] != '_' by {
                        if j < before.last().len() {
                            assert(longer[j] == before.last()[j]);
                        }
                    }
                }
            }
        }
    }
}

/// What is said of pieces is said of the characters of each.
pub proof fn law_pieces_as_texts(fields: Seq<Vec<char>>, i: int)
    requires
        0 <= i < fields.len(),
    ensures
        field_views(fields).len() == fields.len(),
        field_views(fields)[i] == fields[i]@,
{
}

} // verus!
