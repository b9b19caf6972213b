//! Numbers and lists as text, and text inside JSON.

use vstd::prelude::*;
use vstd::string::StrSliceExecFns;

verus! {

/// The character of a decimal digit.
pub open spec fn digit_char(digit: int) -> char {
    (48 + digit) as char
}

/// A number in decimal, without leading zeros.
pub open spec fn decimal(n: nat) -> Seq<char>
    decreases n,
{
    if n < 10 {
        seq![digit_char(n as int)]
    } else {
        decimal(n / 10).push(digit_char((n % 10) as int))
    }
}

/// A number in decimal, with a minus sign if it is negative.
pub open spec fn signed_decimal(n: int) -> Seq<char> {
    if n < 0 {
        seq!['-'] + decimal((-n) as nat)
    } else {
        decimal(n as nat)
    }
}

fn digit_str(digit: u8) -> (r: &'static str)
    requires
        digit < 10,
    ensures
        r@ == seq![digit_char(digit as int)],
{
    proof {
        reveal_strlit("0");
        reveal_strlit("1");
        reveal_strlit("2");
        reveal_strlit("3");
        reveal_strlit("4");
        reveal_strlit("5");
        reveal_strlit("6");
        reveal_strlit("7");
        reveal_strlit("8");
        reveal_strlit("9");
    }
    let r = match digit {
        0 => "0",
        1 => "1",
        2 => "2",
        3 => "3",
        4 => "4",
        5 => "5",
        6 => "6",
        7 => "7",
        8 => "8",
        _ => "9",
    };
    assert(r@ =~= seq![digit_char(digit as int)]);
    r
}

/// Appends a number in decimal.
pub fn push_decimal(out: &mut String, n: u64)
    ensures
        final(out)@ == old(out)@ + decimal(n as nat),
    decreases n,
{
    let ghost before = out@;
    if n >= 10 {
        push_decimal(out, n / 10);
    }
    out.append(digit_str((n % 10) as u8));
    assert(out@ =~= before + decimal(n as nat));
}

/// Appends a number in decimal, with a minus sign if it is negative.
pub fn push_signed_decimal(out: &mut String, n: i64)
    ensures
        final(out)@ == old(out)@ + signed_decimal(n as int),
{
    let ghost before = out@;
    if n < 0 {
        proof {
            reveal_strlit("-");
        }
        out.append("-");
        let magnitude: u64 = if n == i64::MIN {
            0x8000_0000_0000_0000u64
        } else {
            (-n) as u64
        };
        push_decimal(out, magnitude);
        assert("-"@ =~= seq!['-']);
        assert(out@ =~= before + signed_decimal(n as int));
    } else {
        push_decimal(out, n as u64);
    }
}

/// The character of a hexadecimal digit.
pub open spec fn hex_char(digit: int) -> char {
    if digit < 10 {
        digit_char(digit)
    } else {
        (87 + digit) as char
    }
}

/// A character as it stands inside a JSON string: quotes, backslashes and control characters
/// are escaped.
pub open spec fn json_char(c: char) -> Seq<char> {
    if c == '"' {
        "\\\""@
    } else if c == '\\' {
        "\\\\"@
    } else if (c as int) < 32 {
        "\\u00"@ + seq![digit_char(c as int / 16), hex_char(c as int % 16)]
    } else {
        seq![c]
    }
}

/// A text as it stands inside a JSON string.
pub open spec fn json_text(text: Seq<char>) -> Seq<char>
    decreases text.len(),
{
    if text.len() == 0 {
        Seq::empty()
    } else {
        json_text(text.drop_last()) + json_char(text.last())
    }
}

fn hex_str(digit: u8) -> (r: &'static str)
    requires
        digit < 16,
    ensures
        r@ == seq![hex_char(digit as int)],
{
    if digit < 10 {
        return digit_str(digit);
    }
    proof {
        reveal_strlit("a");
        reveal_strlit("b");
        reveal_strlit("c");
        reveal_strlit("d");
        reveal_strlit("e");
        reveal_strlit("f");
    }
    let r = match digit {
        10 => "a",
        11 => "b",
        12 => "c",
        13 => "d",
        14 => "e",
        _ => "f",
    };
    assert(r@ =~= seq![hex_char(digit as int)]);
    r
}

/// Appends a text as it stands inside a JSON string.
pub fn push_json(out: &mut String, text: &str)
    ensures
        final(out)@ == old(out)@ + json_text(text@),
{
    let ghost before = out@;
    let n: usize = text.unicode_len();
    let mut i: usize = 0;
    assert(text@.take(0) =~= Seq::empty());
    assert(before + json_text(text@.take(0)) =~= before);
    while i < n
        invariant
            i <= n,
            n == text@.len(),
            out@ == before + json_text(text@.take(i as int)),
        decreases n - i,
    {
        let c: char = text.get_char(i);
        let ghost so_far = out@;
        if c == '"' {
            out.append("\\\"");
        } else if c == '\\' {
            out.append("\\\\");
        } else if (c as u32) < 32 {
            let code: u8 = c as u8;
            out.append("\\u00");
            out.append(digit_str(code / 16));
            out.append(hex_str(code % 16));
        } else {
            out.append(text.substring_char(i, i + 1));
        }
        proof {
            let head = text@.take(i + 1);
            assert(head.drop_last() =~= text@.take(i as int));
            assert(text@.subrange(i as int, i + 1) =~= seq![c]);
            assert(out@ =~= so_far + json_char(c));
            assert(out@ =~= before + json_text(head));
        }
        i += 1;
    }
    assert(text@.take(n as int) =~= text@);
}

/// Whether two texts are equal.
pub fn text_eq(a: &String, b: &String) -> (r: bool)
    ensures
        r == (a@ == b@),
{
    *a == *b
}

/// The contents of a list of texts.
pub open spec fn texts_view(texts: Seq<String>) -> Seq<Seq<char>> {
    texts.map_values(|text: String| text@)
}

/// One more text is one more entry.
pub proof fn lemma_texts_push(texts: Seq<String>, text: String)
    ensures
        texts_view(texts.push(text)) == texts_view(texts).push(text@),
{
    assert(texts_view(texts.push(text)) =~= texts_view(texts).push(text@));
}

/// Texts one after the other, with commas between them.
pub open spec fn joined(texts: Seq<Seq<char>>) -> Seq<char>
    decreases texts.len(),
{
    if texts.len() == 0 {
        seq![]
    } else if texts.len() == 1 {
        texts[0]
    } else {
        joined(texts.drop_last()) + ", "@ + texts.last()
    }
}

/// Texts in brackets, with commas between them.
pub open spec fn listed(texts: Seq<Seq<char>>) -> Seq<char> {
    "["@ + joined(texts) + "]"@
}

/// Texts in brackets, with commas between them.
pub fn list_texts(texts: &Vec<String>) -> (r: String)
    ensures
        r@ == listed(texts_view(texts@)),
{
    let ghost all = texts_view(texts@);
    let mut out: String = "[".to_owned();
    let mut i: usize = 0;
    assert(all.take(0) =~= seq![]);
    assert(out@ =~= "["@ + joined(all.take(0)));
    while i < texts.len()
        invariant
            i <= texts@.len(),
            all == texts_view(texts@),
            out@ == "["@ + joined(all.take(i as int)),
        decreases texts@.len() - i,
    {
        let ghost next = all.take(i + 1);
        assert(next.last() == texts@[i as int]@);
        assert(next.drop_last() =~= all.take(i as int));
        if i > 0 {
            out.append(", ");
        }
        out.append(texts[i].as_str());
        assert(out@ =~= "["@ + joined(next));
        i += 1;
    }
    assert(all.take(i as int) =~= all);
    out.append("]");
    out
}

/// A number in decimal is made of digits, the first of which is no zero unless it is the only one.
/// One more digit makes ten times the number and the digit.
pub proof fn law_decimal_grows_by_digits(n: nat, digit: nat)
    requires
        digit < 10,
    ensures
        decimal(n).len() > 0,
        decimal(digit) == seq![digit_char(digit as int)],
        digit_char(digit as int) == "0123456789"@[digit as int],
        n > 0 ==> decimal(n * 10 + digit) == decimal(n).push(digit_char(digit as int)),
        n > 0 ==> decimal(n)[0] != '0',
    decreases n,
{
    reveal_strlit("0123456789");
    let ten = n * 10 + digit;
    assert(ten / 10 == n && ten % 10 == digit);
    if n >= 10 {
        law_decimal_grows_by_digits(n / 10, n % 10);
    } else {
        assert(digit_char(n as int) as int == 48 + n);
    }
    assert(digit_char(digit as int) as int == 48 + digit);
}

/// A negative number has a minus sign before the digits of its size, another has its digits.
pub proof fn law_sign_stands_before_the_digits(n: nat)
    ensures
        signed_decimal(n as int) == decimal(n),
        n > 0 ==> signed_decimal(-(n as int)) == seq!['-'] + decimal(n),
{
}

/// A hexadecimal digit is one of the sixteen, in their order.
pub proof fn law_hexadecimal_digits_are_in_order(digit: int)
    requires
        0 <= digit < 16,
    ensures
        hex_char(digit) == "0123456789abcdef"@[digit],
{
    reveal_strlit("0123456789abcdef");
    assert(hex_char(digit) as int == if digit < 10 {
        48 + digit
    } else {
        87 + digit
    });
}

/// Inside a JSON string a character stands as it is, unless it is a quote, a backslash or a control
/// character. These two have a backslash before them, and control characters are told by their
/// number, in four hexadecimal digits.
pub proof fn law_characters_are_escaped(c: char)
    ensures
        c != '"' && c != '\\' && (c as int) >= 32 ==> json_char(c) == seq![c],
        c == '"' || c == '\\' ==> json_char(c) == seq!['\\', c],
        (c as int) < 32 ==> exists|high: int, low: int|
            0 <= high < 16 && 0 <= low < 16 && high * 16 + low == c as int && json_char(c) == seq![
                '\\',
                'u',
                '0',
                '0',
                #[trigger] "0123456789abcdef"@[high],
                #[trigger] "0123456789abcdef"@[low],
            ],
{
    reveal_strlit("\\\"");
    reveal_strlit("\\\\");
    reveal_strlit("\\u00");
    if c == '"' {
        assert(json_char(c) =~= seq!['\\', c]);
    } else if c == '\\' {
        assert(json_char(c) =~= seq!['\\', c]);
    } else if (c as int) < 32 {
        let high = c as int / 16;
        let low = c as int % 16;
        law_hexadecimal_digits_are_in_order(high);
        law_hexadecimal_digits_are_in_order(low);
        assert(json_char(c) =~= seq![
            '\\',
            'u',
            '0',
            '0',
            "0123456789abcdef"@[high],
            "0123456789abcdef"@[low],
        ]);
    }
}

/// A text stands inside a JSON string character by character.
pub proof fn law_texts_are_escaped_in_order(a: Seq<char>, b: Seq<char>)
    ensures
        json_text(a + b) == json_text(a) + json_text(b),
        a.len() == 1 ==> json_text(a) == json_char(a[0]),
        json_text(Seq::empty()).len() == 0,
    decreases b.len(),
{
    if b.len() == 0 {
        assert(a + b =~= a);
    } else {
        law_texts_are_escaped_in_order(a, b.drop_last());
        assert((a + b).drop_last() =~= a + b.drop_last());
        assert(json_text(a + b) =~= json_text(a) + json_text(b));
    }
    if a.len() == 1 {
        assert(a.drop_last() =~= Seq::<char>::empty());
        assert(json_text(Seq::empty()) =~= Seq::<char>::empty());
        assert(json_text(a) =~= json_char(a[0]));
    }
}

/// Inside a JSON string nothing ends it: every character is no control character, and a quote
/// has a backslash before it.
pub proof fn law_escaped_text_stays_inside(text: Seq<char>, i: int)
    requires
        0 <= i < json_text(text).len(),
    ensures
        json_text(text)[i] as int >= 32,
        json_text(text)[i] == '"' ==> i > 0 && json_text(text)[i - 1] == '\\',
    decreases text.len(),
{
    if text.len() > 0 {
        let before = json_text(text.drop_last());
        let last = json_char(text.last());
        if i < before.len() {
            law_escaped_text_stays_inside(text.drop_last(), i);
        } else {
            assert(json_text(text)[i] == last[i - before.len()]);
            law_characters_are_escaped(text.last());
            reveal_strlit("0123456789abcdef");
            let c = text.last();
            if c == '"' || c == '\\' {
                assert(last == seq!['\\', c]);
                if i > before.len() {
                    assert(json_text(text)[i - 1] == last[0]);
                }
            } else if (c as int) < 32 {
                let (high, low) = choose|high: int, low: int|
                    0 <= high < 16 && 0 <= low < 16 && high * 16 + low == c as int && last == seq![
                        '\\',
                        'u',
                        '0',
                        '0',
                        #[trigger] "0123456789abcdef"@[high],
                        #[trigger] "0123456789abcdef"@[low],
                    ];
                let k = i - before.len();
                assert(last[k] == '\\' || last[k] == 'u' || last[k] == '0' || last[k]
                    == "0123456789abcdef"@[high] || last[k] == "0123456789abcdef"@[low]);
            } else {
                assert(last == seq![c]);
            }
        }
    }
}

/// Texts in a list stand one after the other, between brackets, with a comma and a space between
/// two of them.
pub proof fn law_listed_texts_are_parted_by_commas(texts: Seq<Seq<char>>, text: Seq<char>)
    ensures
        listed(Seq::empty()) == "[]"@,
        listed(seq![text]) == "["@ + text + "]"@,
        texts.len() > 0 ==> listed(texts.push(text)) == listed(texts).drop_last() + ", "@ + text
            + "]"@,
{
    reveal_strlit("[");
    reveal_strlit("]");
    reveal_strlit("[]");
    assert(joined(Seq::empty()) =~= Seq::<char>::empty());
    assert(listed(Seq::empty()) =~= "[]"@);
    assert(joined(seq![text]) =~= text);
    if texts.len() > 0 {
        assert(texts.push(text).drop_last() =~= texts);
        assert(joined(texts.push(text)) =~= joined(texts) + ", "@ + text);
        assert(listed(texts.push(text)) =~= listed(texts).drop_last() + ", "@ + text + "]"@);
    }
}

} // verus!
