//! Events as lines of a log file.

use vstd::prelude::*;
use vstd::arithmetic::div_mod::lemma_div_denominator;
use vstd::arithmetic::power::{lemma_pow_positive, pow};
use vstd::string::*;
use crate::event::JitterEventJson;

verus! {

/// A decimal digit.
pub open spec fn digit(d: nat) -> char {
    if d == 0 {
        '0'
    } else if d == 1 {
        '1'
    } else if d == 2 {
        '2'
    } else if d == 3 {
        '3'
    } else if d == 4 {
        '4'
    } else if d == 5 {
        '5'
    } else if d == 6 {
        '6'
    } else if d == 7 {
        '7'
    } else if d == 8 {
        '8'
    } else {
        '9'
    }
}

/// A number in decimal notation, without leading zeros.
pub open spec fn decimal(n: nat) -> Seq<char>
    decreases n,
{
    if n < 10 {
        seq![digit(n)]
    } else {
        decimal(n / 10).push(digit(n % 10))
    }
}

/// The text of a digit.
fn digit_text(d: u64) -> (text: &'static str)
    requires
        d < 10,
    ensures
        text@ == seq![digit(d as nat)],
{
    proof {
        reveal_strlit("0");
        reveal_strlit("1");
        reveal_strlit("2");
        reveal_strlit("3");
        reveal_strlit("4");
        reveal_strlit("5");
        reveal_strlit("6");
        reveal_strlit("7");
        reveal_strlit("8");
        reveal_strlit("9");
    }
    let text = match d {
        0 => "0",
        1 => "1",
        2 => "2",
        3 => "3",
        4 => "4",
        5 => "5",
        6 => "6",
        7 => "7",
        8 => "8",
        _ => "9",
    };
    assert(text@ =~= seq![digit(d as nat)]);
    text
}

/// Appends a number in decimal notation.
pub fn push_decimal(text: &mut String, n: u64)
    ensures
        final(text)@ == old(text)@ + decimal(n as nat),
    decreases n,
{
    let ghost before = text@;
    if n >= 10 {
        push_decimal(text, n / 10);
    }
    text.append(digit_text(n % 10));
    assert(text@ =~= before + decimal(n as nat));
}

/// The line of an event in the log: its fields in order, separated by commas. The task names are
/// written as they are.
pub open spec fn csv_text(e: JitterEventJson) -> Seq<char> {
    decimal(e.timestamp_ns as nat) + (seq![','] + (decimal(e.duration_ns as nat) + (seq![','] + (
    decimal(e.cpu_id as nat) + (seq![','] + (decimal(e.victim_pid as nat) + (seq![','] + (decimal(
        e.aggressor_pid as nat,
    ) + (seq![','] + (e.victim_comm@ + (seq![','] + e.aggressor_comm@)))))))))))
}

/// The first line of the log.
pub fn csv_header() -> (line: String)
    ensures
        line@
            == "timestamp_ns,duration_ns,cpu_id,victim_pid,aggressor_pid,victim_comm,aggressor_comm"@,
{
    "timestamp_ns,duration_ns,cpu_id,victim_pid,aggressor_pid,victim_comm,aggressor_comm".to_owned()
}

/// Whether a log of this length, if it is known, still lacks its first line.
pub fn needs_header(log_len: Option<u64>) -> (needed: bool)
    ensures
        needed <==> log_len is None || log_len == Some(0u64),
{
    match log_len {
        Some(n) => n == 0,
        None => true,
    }
}

/// Appends a number and a comma. What is still to come after the comma is `rest`.
fn push_field(line: &mut String, n: u64, Ghost(rest): Ghost<Seq<char>>)
    ensures
        final(line)@ + rest == old(line)@ + (decimal(n as nat) + (seq![','] + rest)),
{
    let ghost before = line@;
    proof {
        reveal_strlit(",");
        assert(","@ =~= seq![',']);
    }
    push_decimal(line, n);
    line.append(",");
    assert(line@ + rest =~= before + (decimal(n as nat) + (seq![','] + rest)));
}

/// The line of an event in the log.
pub fn csv_line(e: &JitterEventJson) -> (line: String)
    ensures
        line@ == csv_text(*e),
{
    let ghost names = e.victim_comm@ + (seq![','] + e.aggressor_comm@);
    let ghost from_aggressor = decimal(e.aggressor_pid as nat) + (seq![','] + names);
    let ghost from_victim = decimal(e.victim_pid as nat) + (seq![','] + from_aggressor);
    let ghost from_cpu = decimal(e.cpu_id as nat) + (seq![','] + from_victim);
    let ghost from_duration = decimal(e.duration_ns as nat) + (seq![','] + from_cpu);
    let mut line = String::new();
    push_field(&mut line, e.timestamp_ns, Ghost(from_duration));
    push_field(&mut line, e.duration_ns, Ghost(from_cpu));
    push_field(&mut line, e.cpu_id as u64, Ghost(from_victim));
    push_field(&mut line, e.victim_pid as u64, Ghost(from_aggressor));
    push_field(&mut line, e.aggressor_pid as u64, Ghost(names));
    let ghost numbers = line@;
    proof {
        reveal_strlit(",");
        assert(","@ =~= seq![',']);
    }
    line.append(e.victim_comm.as_str());
    line.append(",");
    line.append(e.aggressor_comm.as_str());
    assert(line@ =~= numbers + names);
    assert(Seq::<char>::empty() + csv_text(*e) =~= csv_text(*e));
    line
}

/// The number that digits stand for.
spec fn value(digits: Seq<char>) -> int
    decreases digits.len(),
{
    if digits.len() == 0 {
        0
    } else {
        value(digits.drop_last()) * 10 + (digits.last() as int - '0' as int)
    }
}

/// Decimal notation gives the number back, and consists of digits.
proof fn lemma_decimal(n: nat)
    ensures
        value(decimal(n)) == n,
        decimal(n).len() > 0,
        forall|i: int| 0 <= i < decimal(n).len() ==> #[trigger] decimal(n)[i] != ',',
    decreases n,
{
    if n < 10 {
        reveal_with_fuel(value, 2);
        assert(decimal(n).drop_last() =~= Seq::<char>::empty());
    } else {
        lemma_decimal(n / 10);
        assert(decimal(n).drop_last() =~= decimal(n / 10));
    }
}

/// Different numbers look different.
pub proof fn law_decimal_is_injective(a: nat, b: nat)
    requires
        decimal(a) == decimal(b),
    ensures
        a == b,
{
    lemma_decimal(a);
    lemma_decimal(b);
}

/// A number before a comma can be told from what follows.
proof fn lemma_split(a: nat, b: nat, x: Seq<char>, y: Seq<char>)
    requires
        decimal(a) + (seq![','] + x) == decimal(b) + (seq![','] + y),
    ensures
        a == b,
        x == y,
{
    lemma_decimal(a);
    lemma_decimal(b);
    let left = decimal(a) + (seq![','] + x);
    let right = decimal(b) + (seq![','] + y);
    let m = decimal(a).len() as int;
    let n = decimal(b).len() as int;
    assert(left[m] == ',' && right[n] == ',');
    if m < n {
        assert(right[m] == decimal(b)[m]);
    }
    if n < m {
        assert(left[n] == decimal(a)[n]);
    }
    assert(decimal(a) =~= left.take(m));
    assert(decimal(b) =~= right.take(n));
    assert(x =~= left.skip(m + 1));
    assert(y =~= right.skip(n + 1));
}

/// A line of the log tells its event: lines are equal only if the numbers are, and the two task
/// names with the comma between them. Where the comma lies is told only by names without one.
pub proof fn law_csv_line_tells_its_event(a: JitterEventJson, b: JitterEventJson)
    requires
        csv_text(a) == csv_text(b),
    ensures
        a.timestamp_ns == b.timestamp_ns,
        a.duration_ns == b.duration_ns,
        a.cpu_id == b.cpu_id,
        a.victim_pid == b.victim_pid,
        a.aggressor_pid == b.aggressor_pid,
        a.victim_comm@ + (seq![','] + a.aggressor_comm@) == b.victim_comm@ + (seq![',']
            + b.aggressor_comm@),
{
    let p = a.victim_comm@ + (seq![','] + a.aggressor_comm@);
    let q = b.victim_comm@ + (seq![','] + b.aggressor_comm@);
    let p5 = decimal(a.aggressor_pid as nat) + (seq![','] + p);
    let q5 = decimal(b.aggressor_pid as nat) + (seq![','] + q);
    let p4 = decimal(a.victim_pid as nat) + (seq![','] + p5);
    let q4 = decimal(b.victim_pid as nat) + (seq![','] + q5);
    let p3 = decimal(a.cpu_id as nat) + (seq![','] + p4);
    let q3 = decimal(b.cpu_id as nat) + (seq![','] + q4);
    let p2 = decimal(a.duration_ns as nat) + (seq![','] + p3);
    let q2 = decimal(b.duration_ns as nat) + (seq![','] + q3);
    lemma_split(a.timestamp_ns as nat, b.timestamp_ns as nat, p2, q2);
    lemma_split(a.duration_ns as nat, b.duration_ns as nat, p3, q3);
    lemma_split(a.cpu_id as nat, b.cpu_id as nat, p4, q4);
    lemma_split(a.victim_pid as nat, b.victim_pid as nat, p5, q5);
    lemma_split(a.aggressor_pid as nat, b.aggressor_pid as nat, p, q);
}

/// Dividing by ten shifts the powers of ten.
proof fn lemma_shift(n: nat, k: nat)
    ensures
        pow(10, k) > 0,
        n as int / pow(10, k + 1) == (n / 10) as int / pow(10, k),
{
    lemma_pow_positive(10, k);
    lemma_pow_positive(10, k + 1);
    assert(pow(10, k + 1) == 10 * pow(10, k)) by {
        reveal(pow);
    }
    lemma_div_denominator(n as int, 10, pow(10, k));
}

/// The digit of a number under ten.
proof fn lemma_digit(d: nat)
    requires
        d < 10,
    ensures
        digit(d) as int == '0' as int + d,
{
}

/// In decimal notation each digit stands for its power of ten, and there are no more than needed.
pub proof fn law_digits_stand_for_powers_of_ten(n: nat)
    ensures
        decimal(n).len() > 0,
        n < pow(10, decimal(n).len()),
        decimal(n).len() > 1 ==> n >= pow(10, (decimal(n).len() - 1) as nat),
        forall|i: int|
            0 <= i < decimal(n).len() ==> (#[trigger] decimal(n)[i]) as int == '0' as int + (
            n as int / pow(10, (decimal(n).len() - 1 - i) as nat)) % 10,
    decreases n,
{
    let text = decimal(n);
    if n < 10 {
        lemma_digit(n);
        assert(pow(10, 0) == 1 && pow(10, 1) == 10) by {
            reveal_with_fuel(pow, 2);
        }
    } else {
        let front = decimal(n / 10);
        let len = front.len();
        law_digits_stand_for_powers_of_ten(n / 10);
        lemma_digit(n % 10);
        lemma_pow_positive(10, len);
        assert(pow(10, len + 1) == 10 * pow(10, len)) by {
            reveal(pow);
        }
        assert(pow(10, len) == 10 * pow(10, (len - 1) as nat)) by {
            reveal(pow);
        }
        assert(pow(10, 0) == 1) by {
            reveal(pow);
        }
        assert forall|i: int| 0 <= i < text.len() implies (#[trigger] text[i]) as int == '0' as int
            + (n as int / pow(10, (text.len() - 1 - i) as nat)) % 10 by {
            if i < len {
                assert(text[i] == front[i]);
                lemma_shift(n, (len - 1 - i) as nat);
            }
        }
    }
}

/// A number is appended in decimal notation: behind what was there come its digits, each standing for
/// its power of ten, and the first of several is not zero.
pub proof fn law_number_is_written_in_decimal(text: &mut String, n: u64, digits: Seq<char>)
    requires
        call_ensures(push_decimal, (text, n), ()),
        digits == final(text)@.skip(old(text)@.len() as int),
    ensures
        final(text)@ == old(text)@ + digits,
        digits.len() > 0,
        digits.len() > 1 ==> digits[0] != '0',
        n < pow(10, digits.len()),
        forall|i: int|
            0 <= i < digits.len() ==> (#[trigger] digits[i]) as int == '0' as int + (n as int / pow(
                10,
                (digits.len() - 1 - i) as nat,
            )) % 10,
{
    assert(digits =~= decimal(n as nat));
    law_digits_stand_for_powers_of_ten(n as nat);
    if digits.len() > 1 {
        let p = pow(10, (digits.len() - 1) as nat);
        lemma_pow_positive(10, (digits.len() - 1) as nat);
        assert(pow(10, digits.len()) == 10 * p) by {
            reveal(pow);
        }
        assert(1 <= n as int / p < 10) by (nonlinear_arith)
            requires
                p > 0,
                p <= n < 10 * p,
        ;
        assert(digits[0] as int == '0' as int + (n as int / p) % 10);
    }
}

/// A field of a line, with the comma behind it and the rest.
proof fn lemma_field(line: Seq<char>, at: int, field: Seq<char>, rest: Seq<char>)
    requires
        0 <= at <= line.len(),
        line.skip(at) == field + (seq![','] + rest),
    ensures
        line.len() == at + field.len() + 1 + rest.len(),
        line.subrange(at, at + field.len()) == field,
        line[at + field.len()] == ',',
        line.skip(at + field.len() + 1) == rest,
{
    let tail = line.skip(at);
    assert(tail.len() == field.len() + 1 + rest.len());
    assert(line.subrange(at, at + field.len()) =~= tail.take(field.len() as int));
    assert(tail.take(field.len() as int) =~= field);
    assert(line[at + field.len()] == tail[field.len() as int]);
    assert(line.skip(at + field.len() + 1) =~= tail.skip(field.len() as int + 1));
    assert(tail.skip(field.len() as int + 1) =~= rest);
}

/// A line of the log holds the fields of its event in the order of the first line: five numbers in
/// decimal notation, each before a comma, then the victim's name, a comma and the aggressor's name.
pub proof fn law_csv_line_holds_the_fields_in_order(e: JitterEventJson, line: String)
    requires
        call_ensures(csv_line, (&e,), line),
    ensures
        ({
            let a = decimal(e.timestamp_ns as nat).len() as int;
            let b = a + 1 + decimal(e.duration_ns as nat).len();
            let c = b + 1 + decimal(e.cpu_id as nat).len();
            let d = c + 1 + decimal(e.victim_pid as nat).len();
            let f = d + 1 + decimal(e.aggressor_pid as nat).len();
            let g = f + 1 + e.victim_comm@.len();
            &&& line@.len() == g + 1 + e.aggressor_comm@.len()
            &&& line@.subrange(0, a) == decimal(e.timestamp_ns as nat)
            &&& line@[a] == ','
            &&& line@.subrange(a + 1, b) == decimal(e.duration_ns as nat)
            &&& line@[b] == ','
            &&& line@.subrange(b + 1, c) == decimal(e.cpu_id as nat)
            &&& line@[c] == ','
            &&& line@.subrange(c + 1, d) == decimal(e.victim_pid as nat)
            &&& line@[d] == ','
            &&& line@.subrange(d + 1, f) == decimal(e.aggressor_pid as nat)
            &&& line@[f] == ','
            &&& line@.subrange(f + 1, g) == e.victim_comm@
            &&& line@[g] == ','
            &&& line@.skip(g + 1) == e.aggressor_comm@
        }),
{
    let a = decimal(e.timestamp_ns as nat).len() as int;
    let b = a + 1 + decimal(e.duration_ns as nat).len();
    let c = b + 1 + decimal(e.cpu_id as nat).len();
    let d = c + 1 + decimal(e.victim_pid as nat).len();
    let f = d + 1 + decimal(e.aggressor_pid as nat).len();
    let g = f + 1 + e.victim_comm@.len();
    let names = e.victim_comm@ + (seq![','] + e.aggressor_comm@);
    let p5 = decimal(e.aggressor_pid as nat) + (seq![','] + names);
    let p4 = decimal(e.victim_pid as nat) + (seq![','] + p5);
    let p3 = decimal(e.cpu_id as nat) + (seq![','] + p4);
    let p2 = decimal(e.duration_ns as nat) + (seq![','] + p3);
    assert(line@.skip(0) =~= line@);
    lemma_field(line@, 0, decimal(e.timestamp_ns as nat), p2);
    lemma_field(line@, a + 1, decimal(e.duration_ns as nat), p3);
    lemma_field(line@, b + 1, decimal(e.cpu_id as nat), p4);
    lemma_field(line@, c + 1, decimal(e.victim_pid as nat), p5);
    lemma_field(line@, d + 1, decimal(e.aggressor_pid as nat), names);
    lemma_field(line@, f + 1, e.victim_comm@, e.aggressor_comm@);
}

/// Only a log that is empty or cannot be looked at gets a first line, which names the fields.
pub proof fn law_new_log_gets_its_first_line(len: Option<u64>, needed: bool, line: String)
    requires
        call_ensures(needs_header, (len,), needed),
        call_ensures(csv_header, (), line),
    ensures
        len matches Some(n) ==> (needed <==> n == 0),
        len is None ==> needed,
        line@
            == "timestamp_ns,duration_ns,cpu_id,victim_pid,aggressor_pid,victim_comm,aggressor_comm"@,
{
}

} // verus!
