//! The name of the archive file.

use vstd::prelude::*;

verus! {

/// A moment of local time, to the minute.
#[derive(Clone, Copy, Debug, PartialEq, Eq, Structural)]
pub struct Timestamp {
    pub year: i32,
    pub month: u32,
    pub day: u32,
    pub hour: u32,
    pub minute: u32,
}

impl Timestamp {
    /// Whether the fields are in the ranges of a calendar date and a time of
    /// day.
    pub open spec fn on_calendar(self) -> bool {
        &&& 1 <= self.month <= 12
        &&& 1 <= self.day <= 31
        &&& self.hour <= 23
        &&& self.minute <= 59
    }
}

/// The character for a value below ten.
pub open spec fn digit(value: int) -> char {
    if value == 0 {
        '0'
    } else if value == 1 {
        '1'
    } else if value == 2 {
        '2'
    } else if value == 3 {
        '3'
    } else if value == 4 {
        '4'
    } else if value == 5 {
        '5'
    } else if value == 6 {
        '6'
    } else if value == 7 {
        '7'
    } else if value == 8 {
        '8'
    } else {
        '9'
    }
}

/// Whether a character is one of the ten digits.
pub open spec fn is_digit(c: char) -> bool {
    c == '0' || c == '1' || c == '2' || c == '3' || c == '4' || c == '5' || c == '6' || c == '7'
        || c == '8' || c == '9'
}

/// A number in decimal, without leading zeros.
pub open spec fn decimal(value: nat) -> Seq<char>
    decreases value,
{
    if value < 10 {
        seq![digit(value as int)]
    } else {
        decimal(value / 10).push(digit((value % 10) as int))
    }
}

/// A number in decimal, with a minus sign in front where it is negative.
pub open spec fn signed_decimal(value: int) -> Seq<char> {
    if value < 0 {
        seq!['-'] + decimal((-value) as nat)
    } else {
        decimal(value as nat)
    }
}

/// The name of the archive that is made at the given moment.
pub open spec fn name_text(moment: Timestamp) -> Seq<char> {
    "backup_"@ + signed_decimal(moment.year as int) + "_"@ + decimal(moment.month as nat) + "_"@
        + decimal(moment.day as nat) + " "@ + decimal(moment.hour as nat) + "-"@ + decimal(
        moment.minute as nat,
    ) + ".zip"@
}

/// `chrono::Local::now`, read through `Datelike::year`, `month` and `day` and
/// `Timelike::hour` and `minute`: the local time of the machine. Whatever the
/// clock says, the month is from 1 to 12, the day from 1 to 31, the hour from
/// 0 to 23 and the minute from 0 to 59. On a machine whose clock reads a time
/// before 1970, or for which no local offset can be chosen, the call does not
/// return: it unwinds.
#[verifier::external_body]
fn local_now() -> (now: Timestamp)
    ensures
        now.on_calendar(),
{
    let now = chrono::Local::now();
    Timestamp {
        year: chrono::Datelike::year(&now),
        month: chrono::Datelike::month(&now),
        day: chrono::Datelike::day(&now),
        hour: chrono::Timelike::hour(&now),
        minute: chrono::Timelike::minute(&now),
    }
}

/// The text of one digit.
fn digit_text(value: u64) -> (text: &'static str)
    requires
        value < 10,
    ensures
        text@ == seq![digit(value as int)],
{
    proof {
        reveal_strlit("0");
        reveal_strlit("1");
        reveal_strlit("2");
        reveal_strlit("3");
        reveal_strlit("4");
        reveal_strlit("5");
        reveal_strlit("6");
        reveal_strlit("7");
        reveal_strlit("8");
        reveal_strlit("9");
    }
    let text = if value == 0 {
        "0"
    } else if value == 1 {
        "1"
    } else if value == 2 {
        "2"
    } else if value == 3 {
        "3"
    } else if value == 4 {
        "4"
    } else if value == 5 {
        "5"
    } else if value == 6 {
        "6"
    } else if value == 7 {
        "7"
    } else if value == 8 {
        "8"
    } else {
        "9"
    };
    assert(text@ =~= seq![digit(value as int)]);
    text
}

/// Writes a number in decimal behind a text.
fn append_decimal(text: &mut String, value: u64)
    ensures
        final(text)@ == old(text)@ + decimal(value as nat),
    decreases value,
{
    if value >= 10 {
        append_decimal(text, value / 10);
    }
    text.append(digit_text(value % 10));
    assert(text@ =~= old(text)@ + decimal(value as nat));
}

/// The name of the archive that is made at the given moment: the word
/// `backup`, then year, month and day, then hour and minute, each as a plain
/// decimal number.
pub fn timestamp_name(moment: &Timestamp) -> (name: String)
    ensures
        name@ == name_text(*moment),
{
    let mut name = String::from_str("backup_");
    if moment.year < 0 {
        proof {
            reveal_strlit("-");
        }
        name.append("-");
        assert("-"@ =~= seq!['-']);
        append_decimal(&mut name, (-(moment.year as i64)) as u64);
    } else {
        append_decimal(&mut name, moment.year as u64);
    }
    assert(name@ =~= "backup_"@ + signed_decimal(moment.year as int));
    name.append("_");
    append_decimal(&mut name, moment.month as u64);
    name.append("_");
    append_decimal(&mut name, moment.day as u64);
    name.append(" ");
    append_decimal(&mut name, moment.hour as u64);
    name.append("-");
    append_decimal(&mut name, moment.minute as u64);
    name.append(".zip");
    name
}

/// The name of an archive that is made now, by the local time of the machine.
pub fn get_timestamp_name() -> (name: String)
    ensures
        exists|moment: Timestamp| moment.on_calendar() && name@ == #[trigger] name_text(moment),
{
    let now = local_now();
    timestamp_name(&now)
}

/// A number in decimal is at least one character long and made of digits.
pub proof fn lemma_decimal_is_digits(value: nat)
    ensures
        decimal(value).len() >= 1,
        forall|i: int| 0 <= i < decimal(value).len() ==> is_digit(#[trigger] decimal(value)[i]),
    decreases value,
{
    if value >= 10 {
        lemma_decimal_is_digits(value / 10);
    }
}

/// Two numbers with the same decimal form are the same number.
pub proof fn lemma_decimal_is_injective(a: nat, b: nat)
    requires
        decimal(a) == decimal(b),
    ensures
        a == b,
    decreases a,
{
    lemma_decimal_is_digits(a / 10);
    lemma_decimal_is_digits(b / 10);
    if a < 10 {
        assert(decimal(a).len() == 1);
        if b >= 10 {
            assert(decimal(b).len() == decimal(b / 10).len() + 1);
        }
        assert(digit(a as int) == decimal(a)[0]);
        assert(digit(b as int) == decimal(b)[0]);
    } else {
        assert(decimal(a).len() == decimal(a / 10).len() + 1);
        assert(b >= 10);
        assert(decimal(a).last() == digit((a % 10) as int));
        assert(decimal(b).last() == digit((b % 10) as int));
        assert(a % 10 == b % 10);
        assert(decimal(a).drop_last() =~= decimal(a / 10));
        assert(decimal(b).drop_last() =~= decimal(b / 10));
        lemma_decimal_is_injective(a / 10, b / 10);
    }
}

/// Two numbers with the same signed decimal form are the same number.
pub proof fn lemma_signed_decimal_is_injective(a: int, b: int)
    requires
        signed_decimal(a) == signed_decimal(b),
    ensures
        a == b,
{
    if a < 0 {
        lemma_decimal_is_digits((-a) as nat);
        assert(signed_decimal(a)[0] == '-');
        if b < 0 {
            lemma_decimal_is_digits((-b) as nat);
            assert(signed_decimal(a).skip(1) =~= decimal((-a) as nat));
            assert(signed_decimal(b).skip(1) =~= decimal((-b) as nat));
            lemma_decimal_is_injective((-a) as nat, (-b) as nat);
        } else {
            lemma_decimal_is_digits(b as nat);
            assert(is_digit(decimal(b as nat)[0]));
        }
    } else {
        lemma_decimal_is_digits(a as nat);
        assert(is_digit(decimal(a as nat)[0]));
        if b < 0 {
            lemma_decimal_is_digits((-b) as nat);
            assert(signed_decimal(b)[0] == '-');
        } else {
            lemma_decimal_is_injective(a as nat, b as nat);
        }
    }
}

/// A text, a mark and what follows.
pub open spec fn joined(text: Seq<char>, mark: char, rest: Seq<char>) -> Seq<char> {
    text + seq![mark] + rest
}

/// Where two texts without the mark are each followed by the mark and more,
/// and the whole is the same, the texts are the same and so is what follows.
pub proof fn lemma_joined_is_injective(
    a: Seq<char>,
    x: Seq<char>,
    b: Seq<char>,
    y: Seq<char>,
    mark: char,
)
    requires
        joined(a, mark, x) == joined(b, mark, y),
        forall|i: int| 0 <= i < a.len() ==> a[i] != mark,
        forall|i: int| 0 <= i < b.len() ==> b[i] != mark,
    ensures
        a == b,
        x == y,
{
    let left = joined(a, mark, x);
    let right = joined(b, mark, y);
    if a.len() < b.len() {
        assert(left[a.len() as int] == mark);
        assert(right[a.len() as int] == b[a.len() as int]);
    }
    if b.len() < a.len() {
        assert(right[b.len() as int] == mark);
        assert(left[b.len() as int] == a[b.len() as int]);
    }
    assert(a =~= b) by {
        assert forall|i: int| 0 <= i < a.len() implies a[i] == b[i] by {
            assert(left[i] == a[i]);
            assert(right[i] == b[i]);
        }
    }
    assert(left.len() == a.len() + 1 + x.len());
    assert(right.len() == b.len() + 1 + y.len());
    assert(x.len() == y.len());
    assert(x =~= y) by {
        assert forall|i: int| 0 <= i < x.len() implies x[i] == y[i] by {
            assert(left[a.len() + 1 + i] == x[i]);
            assert(right[b.len() + 1 + i] == y[i]);
        }
    }
}

/// The name of an archive, read as its parts: each number with the mark that
/// ends it.
pub open spec fn name_parts(moment: Timestamp) -> Seq<char> {
    joined(
        signed_decimal(moment.year as int),
        '_',
        joined(
            decimal(moment.month as nat),
            '_',
            joined(
                decimal(moment.day as nat),
                ' ',
                joined(
                    decimal(moment.hour as nat),
                    '-',
                    joined(decimal(moment.minute as nat), '.', "zip"@),
                ),
            ),
        ),
    )
}

/// The name of an archive is the word in front and then its parts.
pub proof fn lemma_name_is_its_parts(moment: Timestamp)
    ensures
        name_text(moment) == "backup_"@ + name_parts(moment),
{
    reveal_strlit("_");
    reveal_strlit(" ");
    reveal_strlit("-");
    reveal_strlit(".zip");
    reveal_strlit("zip");
    assert("_"@ =~= seq!['_']);
    assert(" "@ =~= seq![' ']);
    assert("-"@ =~= seq!['-']);
    assert(".zip"@ =~= seq!['.'] + "zip"@);
    assert(name_text(moment) =~= "backup_"@ + name_parts(moment));
}

/// Two moments have the same archive name only if they are the same minute:
/// archives made in different minutes never share a name.
pub proof fn lemma_name_tells_the_minute(first: Timestamp, second: Timestamp)
    requires
        name_text(first) == name_text(second),
    ensures
        first == second,
{
    lemma_name_is_its_parts(first);
    lemma_name_is_its_parts(second);
    let word = "backup_"@;
    assert(name_parts(first) =~= (word + name_parts(first)).skip(word.len() as int));
    assert(name_parts(second) =~= (word + name_parts(second)).skip(word.len() as int));
    assert(name_parts(first) == name_parts(second));

    lemma_decimal_is_digits(first.month as nat);
    lemma_decimal_is_digits(second.month as nat);
    lemma_decimal_is_digits(first.day as nat);
    lemma_decimal_is_digits(second.day as nat);
    lemma_decimal_is_digits(first.hour as nat);
    lemma_decimal_is_digits(second.hour as nat);
    lemma_decimal_is_digits(first.minute as nat);
    lemma_decimal_is_digits(second.minute as nat);
    lemma_signed_decimal_has_no_underscore(first.year as int);
    lemma_signed_decimal_has_no_underscore(second.year as int);

    let first_minute = joined(decimal(first.minute as nat), '.', "zip"@);
    let second_minute = joined(decimal(second.minute as nat), '.', "zip"@);
    let first_hour = joined(decimal(first.hour as nat), '-', first_minute);
    let second_hour = joined(decimal(second.hour as nat), '-', second_minute);
    let first_day = joined(decimal(first.day as nat), ' ', first_hour);
    let second_day = joined(decimal(second.day as nat), ' ', second_hour);
    let first_month = joined(decimal(first.month as nat), '_', first_day);
    let second_month = joined(decimal(second.month as nat), '_', second_day);
    lemma_joined_is_injective(
        signed_decimal(first.year as int),
        first_month,
        signed_decimal(second.year as int),
        second_month,
        '_',
    );
    lemma_joined_is_injective(
        decimal(first.month as nat),
        first_day,
        decimal(second.month as nat),
        second_day,
        '_',
    );
    lemma_joined_is_injective(
        decimal(first.day as nat),
        first_hour,
        decimal(second.day as nat),
        second_hour,
        ' ',
    );
    lemma_joined_is_injective(
        decimal(first.hour as nat),
        first_minute,
        decimal(second.hour as nat),
        second_minute,
        '-',
    );
    lemma_joined_is_injective(
        decimal(first.minute as nat),
        "zip"@,
        decimal(second.minute as nat),
        "zip"@,
        '.',
    );
    lemma_signed_decimal_is_injective(first.year as int, second.year as int);
    lemma_decimal_is_injective(first.month as nat, second.month as nat);
    lemma_decimal_is_injective(first.day as nat, second.day as nat);
    lemma_decimal_is_injective(first.hour as nat, second.hour as nat);
    lemma_decimal_is_injective(first.minute as nat, second.minute as nat);
}

/// A signed number in decimal holds no underscore.
pub proof fn lemma_signed_decimal_has_no_underscore(value: int)
    ensures
        forall|i: int|
            0 <= i < signed_decimal(value).len() ==> (#[trigger] signed_decimal(value)[i]) != '_',
{
    if value < 0 {
        lemma_decimal_is_digits((-value) as nat);
        assert forall|i: int| 0 <= i < signed_decimal(value).len() implies (
        #[trigger] signed_decimal(value)[i]) != '_' by {
            if i > 0 {
                assert(signed_decimal(value)[i] == decimal((-value) as nat)[i - 1]);
            }
        }
    } else {
        lemma_decimal_is_digits(value as nat);
    }
}

} // verus!
