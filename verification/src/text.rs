//! The texts that the profiler makes: the label of a block and the name of a
//! snapshot file.

use vstd::prelude::*;
use vstd::string::StrSliceExecFns;
use vstd::string::StringExecFns;

verus! {

/// The lower-case hexadecimal digit of a number below 16.
pub open spec fn hex_digit(d: int) -> char {
    if d == 0 {
        '0'
    } else if d == 1 {
        '1'
    } else if d == 2 {
        '2'
    } else if d == 3 {
        '3'
    } else if d == 4 {
        '4'
    } else if d == 5 {
        '5'
    } else if d == 6 {
        '6'
    } else if d == 7 {
        '7'
    } else if d == 8 {
        '8'
    } else if d == 9 {
        '9'
    } else if d == 10 {
        'a'
    } else if d == 11 {
        'b'
    } else if d == 12 {
        'c'
    } else if d == 13 {
        'd'
    } else if d == 14 {
        'e'
    } else {
        'f'
    }
}

/// The hexadecimal digits of `n`, most significant first, without leading
/// zeros; one `0` for zero.
pub open spec fn hex_digits(n: nat) -> Seq<char>
    decreases n,
{
    if n < 16 {
        seq![hex_digit(n as int)]
    } else {
        hex_digits(n / 16).push(hex_digit((n % 16) as int))
    }
}

/// The label of the block at `address`: `0x` and the address in hexadecimal,
/// with at least two digits.
pub open spec fn block_label(address: nat) -> Seq<char> {
    if address < 16 {
        seq!['0', 'x', '0'] + hex_digits(address)
    } else {
        seq!['0', 'x'] + hex_digits(address)
    }
}

/// The number that a hexadecimal digit stands for.
pub open spec fn hex_value(c: char) -> int {
    if c == '0' {
        0
    } else if c == '1' {
        1
    } else if c == '2' {
        2
    } else if c == '3' {
        3
    } else if c == '4' {
        4
    } else if c == '5' {
        5
    } else if c == '6' {
        6
    } else if c == '7' {
        7
    } else if c == '8' {
        8
    } else if c == '9' {
        9
    } else if c == 'a' {
        10
    } else if c == 'b' {
        11
    } else if c == 'c' {
        12
    } else if c == 'd' {
        13
    } else if c == 'e' {
        14
    } else {
        15
    }
}

/// The number that a run of hexadecimal digits stands for, the most
/// significant first.
pub open spec fn hex_number(digits: Seq<char>) -> int
    decreases digits.len(),
{
    if digits.len() == 0 {
        0
    } else {
        hex_number(digits.drop_last()) * 16 + hex_value(digits.last())
    }
}

/// The digits of a number stand for that number.
pub proof fn lemma_hex_number_of_digits(n: nat)
    ensures
        hex_number(hex_digits(n)) == n,
    decreases n,
{
    if n < 16 {
        let digits = hex_digits(n);
        assert(digits.drop_last() =~= Seq::<char>::empty());
        assert(hex_number(digits.drop_last()) == 0);
    } else {
        let digits = hex_digits(n);
        lemma_hex_number_of_digits(n / 16);
        assert(digits.drop_last() =~= hex_digits(n / 16));
        assert(digits.last() == hex_digit((n % 16) as int));
    }
}

/// A zero in front of a run of digits does not change the number.
proof fn lemma_hex_number_leading_zero(digits: Seq<char>)
    ensures
        hex_number(seq!['0'] + digits) == hex_number(digits),
    decreases digits.len(),
{
    let all = seq!['0'] + digits;
    if digits.len() == 0 {
        assert(all.drop_last() =~= Seq::<char>::empty());
        assert(hex_number(all.drop_last()) == 0);
    } else {
        lemma_hex_number_leading_zero(digits.drop_last());
        assert(all.drop_last() =~= seq!['0'] + digits.drop_last());
        assert(all.last() == digits.last());
    }
}

/// The label of a block tells its address: what follows `0x` stands for it.
pub proof fn lemma_block_label_tells_address(address: nat)
    ensures
        hex_number(block_label(address).skip(2)) == address,
{
    lemma_hex_number_of_digits(address);
    if address < 16 {
        assert(block_label(address).skip(2) =~= seq!['0'] + hex_digits(address));
        lemma_hex_number_leading_zero(hex_digits(address));
    } else {
        assert(block_label(address).skip(2) =~= hex_digits(address));
    }
}

/// Two blocks have the same label only if they have the same address.
pub proof fn lemma_block_label_injective(first: nat, second: nat)
    ensures
        block_label(first) == block_label(second) ==> first == second,
{
    lemma_block_label_tells_address(first);
    lemma_block_label_tells_address(second);
}

/// The digits of `n` are those of its quotient by 16, then the digit of the
/// remainder; below 16 there is the one digit.
proof fn lemma_hex_digits_step(n: nat)
    ensures
        n >= 16 ==> hex_digits(n) == hex_digits(n / 16).push(hex_digit((n % 16) as int)),
        n < 16 ==> hex_digits(n) == seq![hex_digit(n as int)],
{
}

/// The text of one hexadecimal digit.
fn hex_digit_text(d: usize) -> (text: &'static str)
    requires
        d < 16,
    ensures
        text@ == seq![hex_digit(d as int)],
{
    proof {
        reveal_strlit("0");
        reveal_strlit("1");
        reveal_strlit("2");
        reveal_strlit("3");
        reveal_strlit("4");
        reveal_strlit("5");
        reveal_strlit("6");
        reveal_strlit("7");
        reveal_strlit("8");
        reveal_strlit("9");
        reveal_strlit("a");
        reveal_strlit("b");
        reveal_strlit("c");
        reveal_strlit("d");
        reveal_strlit("e");
        reveal_strlit("f");
    }
    let text = if d == 0 {
        "0"
    } else if d == 1 {
        "1"
    } else if d == 2 {
        "2"
    } else if d == 3 {
        "3"
    } else if d == 4 {
        "4"
    } else if d == 5 {
        "5"
    } else if d == 6 {
        "6"
    } else if d == 7 {
        "7"
    } else if d == 8 {
        "8"
    } else if d == 9 {
        "9"
    } else if d == 10 {
        "a"
    } else if d == 11 {
        "b"
    } else if d == 12 {
        "c"
    } else if d == 13 {
        "d"
    } else if d == 14 {
        "e"
    } else {
        "f"
    };
    assert(text@ =~= seq![hex_digit(d as int)]);
    text
}

/// The label of the block at `address`.
pub fn format_block(address: usize) -> (label: String)
    ensures
        label@ == block_label(address as nat),
{
    // The digits below the leading one, least significant first.
    let mut low: Vec<usize> = Vec::new();
    let mut rest: usize = address;
    let ghost mut tail: Seq<char> = Seq::empty();
    while rest >= 16
        invariant
            hex_digits(address as nat) == hex_digits(rest as nat) + tail,
            tail.len() == low.len(),
            forall|k: int| 0 <= k < low.len() ==> low[k] < 16,
            forall|k: int| 0 <= k < low.len() ==> tail[k] == hex_digit(low[low.len() - 1 - k] as int),
        decreases rest,
    {
        proof {
            lemma_hex_digits_step(rest as nat);
            assert(hex_digits(rest as nat) + tail =~= hex_digits((rest / 16) as nat) + (
            seq![hex_digit((rest % 16) as int)] + tail));
            tail = seq![hex_digit((rest % 16) as int)] + tail;
        }
        low.push(rest % 16);
        rest = rest / 16;
    }
    let mut label: String = String::new();
    proof {
        reveal_strlit("0x");
        reveal_strlit("0x0");
        lemma_hex_digits_step(rest as nat);
    }
    if address < 16 {
        label.append("0x0");
    } else {
        label.append("0x");
    }
    label.append(hex_digit_text(rest));
    let ghost head: Seq<char> = label@;
    assert(head + tail =~= block_label(address as nat)) by {
        if address < 16 {
            assert(head =~= seq!['0', 'x', '0'] + hex_digits(rest as nat));
        } else {
            assert(head =~= seq!['0', 'x'] + hex_digits(rest as nat));
        }
    }
    let mut i: usize = low.len();
    while i > 0
        invariant
            i <= low.len(),
            tail.len() == low.len(),
            forall|k: int| 0 <= k < low.len() ==> low[k] < 16,
            forall|k: int| 0 <= k < low.len() ==> tail[k] == hex_digit(low[low.len() - 1 - k] as int),
            label@ == head + tail.take(low.len() - i),
        decreases i,
    {
        i = i - 1;
        label.append(hex_digit_text(low[i]));
        proof {
            let done = low.len() - 1 - i;
            assert(tail.take(done + 1) =~= tail.take(done).push(tail[done]));
            assert(label@ =~= head + tail.take(done + 1));
        }
    }
    assert(tail.take(low.len() as int) =~= tail);
    label
}

/// The character that stands in a file name for `c` of a timestamp: an
/// underscore for a hyphen, a colon, a space and a plus sign, else `c`.
pub open spec fn file_name_char(c: char) -> char {
    if c == '-' || c == ':' || c == ' ' || c == '+' {
        '_'
    } else {
        c
    }
}

/// The name of the file of a snapshot taken at `timestamp`, in the working
/// directory.
pub open spec fn snapshot_name(timestamp: Seq<char>) -> Seq<char> {
    "./memory."@ + timestamp.map_values(|c: char| file_name_char(c)) + ".pprof.pb"@
}

/// The name of the file of a snapshot taken at `timestamp`.
pub fn format_snapshot_name(timestamp: &str) -> (name: String)
    ensures
        name@ == snapshot_name(timestamp@),
{
    let mut name: String = String::new();
    name.append("./memory.");
    let ghost head: Seq<char> = name@;
    assert(head =~= "./memory."@);
    let ghost mapped: Seq<char> = timestamp@.map_values(|c: char| file_name_char(c));
    let len: usize = timestamp.unicode_len();
    let mut i: usize = 0;
    while i < len
        invariant
            i <= len,
            len == timestamp@.len(),
            mapped == timestamp@.map_values(|c: char| file_name_char(c)),
            name@ == head + mapped.take(i as int),
        decreases len - i,
    {
        let c = timestamp.get_char(i);
        if c == '-' || c == ':' || c == ' ' || c == '+' {
            proof {
                reveal_strlit("_");
            }
            name.append("_");
        } else {
            name.append(timestamp.substring_char(i, i + 1));
        }
        proof {
            assert(mapped.take(i as int + 1) =~= mapped.take(i as int).push(mapped[i as int]));
            assert(timestamp@.subrange(i as int, i as int + 1) =~= seq![timestamp@[i as int]]);
            assert("_"@ =~= seq!['_']) by {
                reveal_strlit("_");
            }
            assert(name@ =~= head + mapped.take(i as int + 1));
        }
        i = i + 1;
    }
    name.append(".pprof.pb");
    proof {
        assert(mapped.take(len as int) =~= mapped);
    }
    name
}

/// Whether `c` can stand in a timestamp: a digit, a hyphen, a colon, `T`, a
/// point or a plus sign.
pub open spec fn timestamp_char(c: char) -> bool {
    c == '0' || c == '1' || c == '2' || c == '3' || c == '4' || c == '5' || c == '6' || c == '7'
        || c == '8' || c == '9' || c == '-' || c == ':' || c == 'T' || c == '.' || c == '+'
}

/// Whether `text` has the form of a timestamp: a date, `T`, a time of day and
/// an offset from UTC take 25 characters at least, and there are no others
/// than those of a timestamp.
pub open spec fn is_timestamp(text: Seq<char>) -> bool {
    &&& text.len() >= 25
    &&& forall|i: int| 0 <= i < text.len() ==> timestamp_char(#[trigger] text[i])
}

/// The local time of the call: the time of `SystemTime::now`, which `chrono`
/// turns into a `DateTime<Local>` and `DateTime::format` writes with `%+`,
/// that is as the year, the month and the day with hyphens between, `T`, the
/// hour, the minute and the second with colons between, a point and the
/// fraction of the second where there is one, and the offset from UTC as a
/// sign, hours, a colon and minutes. Which time it is depends on the clock
/// and on the time zone of the machine; only the form of the text is claimed.
/// A clock before 1970 is provided for; one outside the dates that `chrono`
/// holds, some 262,000 years to either side, is not.
#[verifier::external_body]
fn local_timestamp() -> (timestamp: String)
    ensures
        is_timestamp(timestamp@),
{
    chrono::DateTime::<chrono::Local>::from(std::time::SystemTime::now()).format("%+").to_string()
}

/// The name of the file of a snapshot that is taken now: the name of a
/// snapshot file for a timestamp.
pub fn snapshot_file_name() -> (name: String)
    ensures
        exists|timestamp: Seq<char>|
            is_timestamp(timestamp) && name@ == #[trigger] snapshot_name(timestamp),
{
    let timestamp = local_timestamp();
    format_snapshot_name(timestamp.as_str())
}

} // verus!
