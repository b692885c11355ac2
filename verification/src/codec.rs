//! Numbers as bytes, in both byte orders, and as decimal text.

use vstd::prelude::*;

verus! {

/// The number of values that `count` bytes can take.
pub open spec fn byte_range(count: nat) -> nat
    decreases count,
{
    if count == 0 {
        1
    } else {
        256 * byte_range((count - 1) as nat)
    }
}

/// The last `count` bytes of a number, most significant first.
pub open spec fn big_endian(value: nat, count: nat) -> Seq<u8>
    decreases count,
{
    if count == 0 {
        Seq::empty()
    } else {
        big_endian(value / 256, (count - 1) as nat).push((value % 256) as u8)
    }
}

/// The number that bytes stand for, most significant first.
pub open spec fn from_big_endian(bytes: Seq<u8>) -> nat
    decreases bytes.len(),
{
    if bytes.len() == 0 {
        0
    } else {
        256 * from_big_endian(bytes.drop_last()) + bytes.last() as nat
    }
}

/// The last `count` bytes of a number, least significant first.
pub open spec fn little_endian(value: nat, count: nat) -> Seq<u8>
    decreases count,
{
    if count == 0 {
        Seq::empty()
    } else {
        seq![(value % 256) as u8] + little_endian(value / 256, (count - 1) as nat)
    }
}

/// The number that bytes stand for, least significant first.
pub open spec fn from_little_endian(bytes: Seq<u8>) -> nat
    decreases bytes.len(),
{
    if bytes.len() == 0 {
        0
    } else {
        bytes[0] as nat + 256 * from_little_endian(bytes.drop_first())
    }
}

/// The ranges of the common widths.
pub proof fn byte_ranges()
    ensures
        byte_range(4) == 0x1_0000_0000,
        byte_range(8) == 0x1_0000_0000_0000_0000,
{
    reveal_with_fuel(byte_range, 9);
}

/// Reading bytes, most significant first, gives back the number that was
/// written, if it fits in them.
pub proof fn big_endian_reads_back(value: nat, count: nat)
    ensures
        big_endian(value, count).len() == count,
        value < byte_range(count) ==> from_big_endian(big_endian(value, count)) == value,
    decreases count,
{
    if count > 0 {
        big_endian_reads_back(value / 256, (count - 1) as nat);
        let bytes = big_endian(value, count);
        assert(bytes.drop_last() =~= big_endian(value / 256, (count - 1) as nat));
    }
}

/// Bytes come before others of the same length in the order of a store: where they
/// first differ, they are lower.
pub open spec fn comes_before(a: Seq<u8>, b: Seq<u8>) -> bool {
    exists|i: int| 0 <= i < a.len() && i < b.len() && #[trigger] a[i] < b[i] && a.take(i) == b.take(i)
}

/// The bytes of numbers, most significant first, are ordered as the numbers are.
pub proof fn big_endian_keeps_order(a: nat, b: nat, count: nat)
    requires
        a < b < byte_range(count),
    ensures
        comes_before(big_endian(a, count), big_endian(b, count)),
    decreases count,
{
    if count > 0 {
        let x = big_endian(a, count);
        let y = big_endian(b, count);
        let rest = (count - 1) as nat;
        big_endian_reads_back(a / 256, rest);
        big_endian_reads_back(b / 256, rest);
        let u = big_endian(a / 256, rest);
        let v = big_endian(b / 256, rest);
        if a / 256 < b / 256 {
            big_endian_keeps_order(a / 256, b / 256, rest);
            let i = choose|i: int|
                0 <= i < u.len() && i < v.len() && #[trigger] u[i] < v[i] && u.take(i) == v.take(i);
            assert(x[i] < y[i]);
            assert(x.take(i) =~= u.take(i));
            assert(y.take(i) =~= v.take(i));
        } else {
            let i = rest as int;
            assert(x[i] < y[i]);
            assert(x.take(i) =~= u);
            assert(y.take(i) =~= v);
        }
    }
}

/// Reading bytes, least significant first, gives back the number that was
/// written, if it fits in them.
pub proof fn little_endian_reads_back(value: nat, count: nat)
    ensures
        little_endian(value, count).len() == count,
        value < byte_range(count) ==> from_little_endian(little_endian(value, count)) == value,
    decreases count,
{
    if count > 0 {
        little_endian_reads_back(value / 256, (count - 1) as nat);
        let bytes = little_endian(value, count);
        assert(bytes.drop_first() =~= little_endian(value / 256, (count - 1) as nat));
    }
}

/// What bytes stand for, least significant first, fits in as many bytes.
pub proof fn from_little_endian_is_bounded(bytes: Seq<u8>)
    ensures
        from_little_endian(bytes) < byte_range(bytes.len()),
    decreases bytes.len(),
{
    if bytes.len() > 0 {
        from_little_endian_is_bounded(bytes.drop_first());
    }
}

/// The bytes of a number, least significant first, appended to a buffer.
pub fn put_little_endian(buffer: &mut Vec<u8>, value: u64, count: usize)
    ensures
        final(buffer)@ == old(buffer)@ + little_endian(value as nat, count as nat),
{
    let mut rest: u64 = value;
    let mut left: usize = count;
    assert(buffer@ + little_endian(rest as nat, left as nat) =~= old(buffer)@ + little_endian(
        value as nat,
        count as nat,
    ));
    while left > 0
        invariant
            buffer@ + little_endian(rest as nat, left as nat) == old(buffer)@ + little_endian(
                value as nat,
                count as nat,
            ),
        decreases left,
    {
        let ghost before = buffer@;
        let low: u8 = (rest % 256) as u8;
        buffer.push(low);
        proof {
            let tail = little_endian(rest as nat / 256, (left - 1) as nat);
            assert(before + (seq![low] + tail) =~= buffer@ + tail);
        }
        rest = rest / 256;
        left = left - 1;
    }
    assert(buffer@ + little_endian(rest as nat, 0) =~= buffer@);
}

/// The number that `count` bytes from a position on stand for, least significant
/// first.
pub fn get_little_endian(bytes: &[u8], from: usize, count: usize) -> (value: u64)
    requires
        from + count <= bytes@.len(),
        count <= 8,
    ensures
        value == from_little_endian(bytes@.subrange(from as int, from + count)),
{
    let len: usize = bytes.len();
    let mut value: u64 = 0;
    let mut left: usize = count;
    proof {
        assert(bytes@.subrange(from + count, from + count) =~= Seq::<u8>::empty());
        reveal_with_fuel(byte_range, 9);
    }
    while left > 0
        invariant
            left <= count <= 8,
            from + count <= len,
            len == bytes@.len(),
            value == from_little_endian(bytes@.subrange(from + left, from + count)),
        decreases left,
    {
        left = left - 1;
        let low: u8 = bytes[from + left];
        proof {
            let rest = bytes@.subrange(from + left + 1, from + count);
            let more = bytes@.subrange(from + left, from + count);
            from_little_endian_is_bounded(rest);
            assert(more.drop_first() =~= rest);
            lemma_range_grows(rest.len(), 7);
            reveal_with_fuel(byte_range, 9);
        }
        value = low as u64 + 256 * value;
    }
    value
}

proof fn lemma_range_grows(few: nat, many: nat)
    requires
        few <= many,
    ensures
        byte_range(few) <= byte_range(many),
    decreases many,
{
    if few < many {
        lemma_range_grows(few, (many - 1) as nat);
    }
}

/// The character of a decimal digit.
pub open spec fn digit_char(digit: nat) -> char {
    (('0' as u32) + digit) as char
}

/// A number in decimal digits, without leading zeros.
pub open spec fn decimal(value: nat) -> Seq<char>
    decreases value,
{
    if value < 10 {
        seq![digit_char(value)]
    } else {
        decimal(value / 10).push(digit_char(value % 10))
    }
}

/// The text of a decimal digit.
fn digit_text(digit: u32) -> (text: &'static str)
    requires
        digit < 10,
    ensures
        text@ == seq![digit_char(digit as nat)],
{
    let text = if digit == 0 {
        "0"
    } else if digit == 1 {
        "1"
    } else if digit == 2 {
        "2"
    } else if digit == 3 {
        "3"
    } else if digit == 4 {
        "4"
    } else if digit == 5 {
        "5"
    } else if digit == 6 {
        "6"
    } else if digit == 7 {
        "7"
    } else if digit == 8 {
        "8"
    } else {
        "9"
    };
    proof {
        reveal_strlit("0");
        reveal_strlit("1");
        reveal_strlit("2");
        reveal_strlit("3");
        reveal_strlit("4");
        reveal_strlit("5");
        reveal_strlit("6");
        reveal_strlit("7");
        reveal_strlit("8");
        reveal_strlit("9");
    }
    assert(text@ =~= seq![digit_char(digit as nat)]);
    text
}

/// A number in decimal digits, without leading zeros.
pub fn decimal_text(value: u32) -> (text: String)
    ensures
        text@ == decimal(value as nat),
    decreases value,
{
    if value < 10 {
        String::from_str(digit_text(value))
    } else {
        let mut text = decimal_text(value / 10);
        text.append(digit_text(value % 10));
        assert(text@ =~= decimal(value as nat));
        text
    }
}

/// Bytes are written as they were read: a number that was read from bytes, most
/// significant first, gives these bytes.
pub proof fn big_endian_writes_back(bytes: Seq<u8>)
    ensures
        big_endian(from_big_endian(bytes), bytes.len()) == bytes,
    decreases bytes.len(),
{
    if bytes.len() > 0 {
        let rest = bytes.drop_last();
        big_endian_writes_back(rest);
        assert(from_big_endian(bytes) / 256 == from_big_endian(rest));
        assert(from_big_endian(bytes) % 256 == bytes.last());
        assert(rest.push(bytes.last()) =~= bytes);
    } else {
        assert(big_endian(from_big_endian(bytes), 0) =~= bytes);
    }
}

/// Bytes are written as they were read: a number that was read from bytes, least
/// significant first, gives these bytes.
pub proof fn little_endian_writes_back(bytes: Seq<u8>)
    ensures
        little_endian(from_little_endian(bytes), bytes.len()) == bytes,
    decreases bytes.len(),
{
    if bytes.len() > 0 {
        let rest = bytes.drop_first();
        little_endian_writes_back(rest);
        assert(from_little_endian(bytes) / 256 == from_little_endian(rest));
        assert(from_little_endian(bytes) % 256 == bytes[0]);
        assert(seq![bytes[0]] + rest =~= bytes);
    } else {
        assert(little_endian(from_little_endian(bytes), 0) =~= bytes);
    }
}

/// The first byte of a number, least significant first, is its remainder; the last byte,
/// most significant first, is.
pub proof fn ends_of_a_number(value: nat, count: nat)
    requires
        count > 0,
    ensures
        little_endian(value, count)[0] == value % 256,
        big_endian(value, count)[count - 1] == value % 256,
        little_endian(value, count).len() == count,
        big_endian(value, count).len() == count,
{
    big_endian_reads_back(value, count);
    big_endian_reads_back(value / 256, (count - 1) as nat);
    little_endian_reads_back(value, count);
}

/// Bytes, most significant first, stand for a number that fits in them.
pub proof fn from_big_endian_is_bounded(bytes: Seq<u8>)
    ensures
        from_big_endian(bytes) < byte_range(bytes.len()),
    decreases bytes.len(),
{
    if bytes.len() > 0 {
        from_big_endian_is_bounded(bytes.drop_last());
    }
}

/// The number that decimal digits stand for.
pub open spec fn from_decimal(text: Seq<char>) -> nat
    decreases text.len(),
{
    if text.len() == 0 {
        0
    } else {
        10 * from_decimal(text.drop_last()) + (text.last() as nat - '0' as nat) as nat
    }
}

/// Decimal digits stand for the number that was written, with no zero in front but for
/// zero itself.
pub proof fn decimals_read_back(value: nat)
    ensures
        from_decimal(decimal(value)) == value,
        decimal(value).len() > 0,
        forall|i: int| 0 <= i < decimal(value).len() ==> '0' <= #[trigger] decimal(value)[i] <= '9',
        value > 0 ==> decimal(value)[0] != '0',
    decreases value,
{
    let text = decimal(value);
    if value < 10 {
        assert(text.drop_last() =~= Seq::<char>::empty());
        assert(from_decimal(text.drop_last()) == 0);
    } else {
        decimals_read_back(value / 10);
        assert(text.drop_last() =~= decimal(value / 10));
        assert(text[0] == decimal(value / 10)[0]);
    }
}

} // verus!
