//! Building texts out of numbers.

use vstd::prelude::*;

verus! {

/// `String::push`: the character comes behind what the text holds.
pub assume_specification[ String::push ](text: &mut String, c: char)
    ensures
        final(text)@ == old(text)@.push(c),
;

/// A text as `{:?}` writes it: in quotes, with what cannot stand there escaped.
pub uninterp spec fn quoted_text(text: Seq<char>) -> Seq<char>;

/// `<str as Debug>::fmt`: the text in quotes, with escapes.
#[verifier::external_body]
pub(crate) fn quote(text: &str) -> (quoted: String)
    ensures
        quoted@ == quoted_text(text@),
{
    format!("{text:?}")
}

/// The character of a decimal digit.
pub open spec fn digit(d: nat) -> char {
    (48 + d) as char
}

/// A number in decimal digits.
pub open spec fn decimal(n: nat) -> Seq<char>
    decreases n,
{
    if n < 10 {
        seq![digit(n)]
    } else {
        decimal(n / 10).push(digit(n % 10))
    }
}

/// A number in decimal digits, two at least.
pub open spec fn two_digits(n: nat) -> Seq<char> {
    if n < 10 {
        seq!['0', digit(n)]
    } else {
        decimal(n)
    }
}

/// Text with a comma before each group of three that more text precedes.
pub open spec fn grouped(text: Seq<char>) -> Seq<char>
    decreases text.len(),
{
    if text.len() == 0 {
        Seq::empty()
    } else {
        let behind = text.len() - 1;
        let lead = if behind > 0 && behind % 3 == 0 {
            seq![text[0], ',']
        } else {
            seq![text[0]]
        };
        lead + grouped(text.drop_first())
    }
}

/// Text without the zeros that it ends in.
pub open spec fn without_end_zeros(text: Seq<char>) -> Seq<char>
    decreases text.len(),
{
    if text.len() > 0 && text.last() == '0' {
        without_end_zeros(text.drop_last())
    } else {
        text
    }
}

fn digit_char(d: u8) -> (c: char)
    requires
        d < 10,
    ensures
        c == digit(d as nat),
{
    (48 + d) as char
}

/// Writes a number in decimal digits.
pub(crate) fn push_decimal(text: &mut String, n: u128)
    ensures
        final(text)@ == old(text)@ + decimal(n as nat),
    decreases n,
{
    if n >= 10 {
        push_decimal(text, n / 10);
    }
    text.push(digit_char((n % 10) as u8));
    assert(text@ =~= old(text)@ + decimal(n as nat));
}

/// Writes a number in decimal digits, two at least.
pub(crate) fn push_two_digits(text: &mut String, n: u64)
    ensures
        final(text)@ == old(text)@ + two_digits(n as nat),
{
    if n < 10 {
        text.push('0');
        text.push(digit_char(n as u8));
        assert(text@ =~= old(text)@ + two_digits(n as nat));
    } else {
        push_decimal(text, n as u128);
    }
}

/// Writes text with commas between groups of three.
pub(crate) fn push_grouped(text: &mut String, chars: &str)
    ensures
        final(text)@ == old(text)@ + grouped(chars@),
{
    let n = chars.unicode_len();
    let mut i: usize = 0;
    assert(chars@.skip(0) =~= chars@);
    while i < n
        invariant
            i <= n,
            n == chars@.len(),
            text@ + grouped(chars@.skip(i as int)) == old(text)@ + grouped(chars@),
        decreases n - i,
    {
        let ghost before = text@;
        let ghost left = chars@.skip(i as int);
        assert(left.drop_first() =~= chars@.skip(i + 1));
        text.push(chars.get_char(i));
        let behind: usize = n - i - 1;
        if behind > 0 && behind % 3 == 0 {
            text.push(',');
        }
        assert(text@ + grouped(left.drop_first()) =~= before + grouped(left));
        i = i + 1;
    }
    assert(chars@.skip(n as int) =~= Seq::empty());
    assert(text@ =~= old(text)@ + grouped(chars@));
}

/// Grouping adds commas and nothing else.
pub proof fn law_grouped_keeps(text: Seq<char>)
    requires
        !text.contains(','),
    ensures
        grouped(text).filter(|c: char| c != ',') == text,
    decreases text.len(),
{
    broadcast use vstd::seq_lib::group_filter_ensures;

    let keep = |c: char| c != ',';
    if text.len() > 0 {
        let rest = text.drop_first();
        assert(text.contains(text[0]));
        assert(!rest.contains(',')) by {
            if rest.contains(',') {
                let k = choose|k: int| 0 <= k < rest.len() && rest[k] == ',';
                assert(text[k + 1] == ',');
            }
        }
        law_grouped_keeps(rest);
        let behind = text.len() - 1;
        let lead = if behind > 0 && behind % 3 == 0 {
            seq![text[0], ',']
        } else {
            seq![text[0]]
        };
        Seq::<char>::filter_distributes_over_add(lead, grouped(rest), keep);
        reveal_with_fuel(Seq::filter, 3);
        assert(lead.filter(keep) =~= seq![text[0]]) by {
            if behind > 0 && behind % 3 == 0 {
                assert(lead.drop_last() =~= seq![text[0]]);
            }
            assert(seq![text[0]].drop_last() =~= Seq::empty());
        }
        assert(seq![text[0]] + rest =~= text);
    } else {
        reveal_with_fuel(Seq::filter, 1);
        assert(grouped(text).filter(keep) =~= text);
    }
}


/// The UTF-8 bytes of joined texts are the joined bytes.
pub(crate) proof fn lemma_encode_concat(a: Seq<char>, b: Seq<char>)
    ensures
        vstd::utf8::encode_utf8(a + b) == vstd::utf8::encode_utf8(a) + vstd::utf8::encode_utf8(b),
    decreases a.len(),
{
    if a.len() == 0 {
        assert(a + b =~= b);
        assert(vstd::utf8::encode_utf8(a) + vstd::utf8::encode_utf8(b) =~= vstd::utf8::encode_utf8(b));
    } else {
        assert((a + b).drop_first() =~= a.drop_first() + b);
        lemma_encode_concat(a.drop_first(), b);
        assert(vstd::utf8::encode_utf8(a + b) =~= vstd::utf8::encode_utf8(a) + vstd::utf8::encode_utf8(b));
    }
}

/// The number that decimal digits stand for.
pub open spec fn value_of(text: Seq<char>) -> int
    decreases text.len(),
{
    if text.len() == 0 {
        0
    } else {
        10 * value_of(text.drop_last()) + (text.last() as int - 48)
    }
}

/// A number in decimal digits is digits only, begins with no zero but for zero itself, and
/// stands for that number.
pub proof fn law_decimal(n: nat)
    ensures
        decimal(n).len() > 0,
        value_of(decimal(n)) == n,
        forall|i: int| 0 <= i < decimal(n).len() ==> '0' <= #[trigger] decimal(n)[i] <= '9',
        n > 0 ==> decimal(n)[0] != '0',
        n < 10 ==> decimal(n).len() == 1,
    decreases n,
{
    let text = decimal(n);
    if n < 10 {
        assert(text.drop_last().len() == 0);
        assert(value_of(text.drop_last()) == 0);
        assert(text.last() == (48 + n) as char);
    } else {
        law_decimal(n / 10);
        assert(text.drop_last() =~= decimal(n / 10));
        assert(text.last() == (48 + n % 10) as char);
        assert(text[0] == decimal(n / 10)[0]);
        assert forall|i: int| 0 <= i < text.len() implies '0' <= #[trigger] text[i] <= '9' by {
            if i < text.len() - 1 {
                assert(text[i] == decimal(n / 10)[i]);
            }
        }
    }
}

/// A number below a hundred in two digits has two of them, and they stand for it.
pub proof fn law_two_digits(n: nat)
    requires
        n < 100,
    ensures
        two_digits(n).len() == 2,
        value_of(two_digits(n)) == n,
        two_digits(n)[0] == (48 + n / 10) as char,
        two_digits(n)[1] == (48 + n % 10) as char,
{
    let text = two_digits(n);
    reveal_with_fuel(decimal, 2);
    reveal_with_fuel(value_of, 3);
    assert(text.len() == 2);
    assert(text.drop_last() =~= seq![text[0]]);
    assert(seq![text[0]].drop_last() =~= Seq::empty());
}

/// Up to three characters stand as they are; where there are more, a comma comes before
/// the last three, and before each three in front of these that more precede.
pub proof fn law_commas_every_three(front: Seq<char>, three: Seq<char>)
    requires
        three.len() == 3,
    ensures
        front.len() <= 3 ==> grouped(front) == front,
        front.len() > 0 ==> grouped(front + three) == grouped(front) + seq![','] + three,
    decreases front.len(),
{
    reveal_with_fuel(grouped, 4);
    if front.len() <= 3 {
        lemma_short_group(front);
    }
    if front.len() > 0 {
        let rest = front.drop_first();
        let whole = front + three;
        assert(whole.drop_first() =~= rest + three);
        if rest.len() == 0 {
            assert(rest + three =~= three);
            lemma_short_group(three);
            assert(front =~= seq![front[0]]);
            lemma_short_group(front);
            assert(grouped(whole) =~= grouped(front) + seq![','] + three);
        } else {
            law_commas_every_three(rest, three);
            assert(grouped(whole) =~= grouped(front) + seq![','] + three);
        }
    }
}

proof fn lemma_short_group(text: Seq<char>)
    requires
        text.len() <= 3,
    ensures
        grouped(text) == text,
    decreases text.len(),
{
    if text.len() > 0 {
        lemma_short_group(text.drop_first());
        assert(seq![text[0]] + text.drop_first() =~= text);
    }
}

/// What is left of a text without the zeros at its end does not end in one, and only zeros
/// have gone.
pub proof fn law_zeros_at_the_end(text: Seq<char>)
    ensures
        ({
            let left = without_end_zeros(text);
            &&& left.len() <= text.len()
            &&& left == text.take(left.len() as int)
            &&& left.len() > 0 ==> left.last() != '0'
            &&& forall|i: int| left.len() <= i < text.len() ==> #[trigger] text[i] == '0'
        }),
    decreases text.len(),
{
    if text.len() > 0 && text.last() == '0' {
        let init = text.drop_last();
        law_zeros_at_the_end(init);
        let left = without_end_zeros(text);
        assert(left =~= text.take(left.len() as int));
        assert forall|i: int| left.len() <= i < text.len() implies #[trigger] text[i] == '0' by {
            if i < init.len() {
                assert(init[i] == '0');
            }
        }
    } else {
        assert(text.take(text.len() as int) =~= text);
    }
}

} // verus!
