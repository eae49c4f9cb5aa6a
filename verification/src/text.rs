//! Building the texts that errors are shown with.

use vstd::prelude::*;
use vstd::string::*;

verus! {

/// `String::push`: appends one character.
#[verifier::external_body]
pub(crate) fn push_char(text: &mut String, c: char)
    ensures
        final(text)@ == old(text)@.push(c),
{
    text.push(c)
}

/// The character for a digit.
pub open spec fn digit_char(d: nat) -> char {
    if d == 0 {
        '0'
    } else if d == 1 {
        '1'
    } else if d == 2 {
        '2'
    } else if d == 3 {
        '3'
    } else if d == 4 {
        '4'
    } else if d == 5 {
        '5'
    } else if d == 6 {
        '6'
    } else if d == 7 {
        '7'
    } else if d == 8 {
        '8'
    } else {
        '9'
    }
}

/// A number in decimal, without leading zeros.
pub open spec fn decimal_text(n: nat) -> Seq<char>
    decreases n,
{
    if n < 10 {
        seq![digit_char(n)]
    } else {
        decimal_text(n / 10).push(digit_char(n % 10))
    }
}

/// SKUs in double quotes, separated by a comma and a space.
pub open spec fn quoted_list(skus: Seq<Seq<char>>) -> Seq<char>
    decreases skus.len(),
{
    if skus.len() == 0 {
        Seq::empty()
    } else if skus.len() == 1 {
        seq!['"'] + skus[0] + seq!['"']
    } else {
        quoted_list(skus.drop_last()) + seq![',', ' ', '"'] + skus.last() + seq!['"']
    }
}

/// The character for a digit.
fn digit(d: u64) -> (c: char)
    requires
        d < 10,
    ensures
        c == digit_char(d as nat),
{
    if d == 0 {
        '0'
    } else if d == 1 {
        '1'
    } else if d == 2 {
        '2'
    } else if d == 3 {
        '3'
    } else if d == 4 {
        '4'
    } else if d == 5 {
        '5'
    } else if d == 6 {
        '6'
    } else if d == 7 {
        '7'
    } else if d == 8 {
        '8'
    } else {
        '9'
    }
}

/// Appends `n` in decimal.
pub fn append_decimal(text: &mut String, n: u64)
    ensures
        final(text)@ == old(text)@ + decimal_text(n as nat),
    decreases n,
{
    if n >= 10 {
        append_decimal(text, n / 10);
    }
    push_char(text, digit(n % 10));
    proof {
        if n >= 10 {
            assert(text@ =~= old(text)@ + decimal_text(n as nat));
        } else {
            assert(text@ =~= old(text)@ + decimal_text(n as nat));
        }
    }
}

/// Appends the SKUs in double quotes, separated by a comma and a space.
pub fn append_quoted_list(text: &mut String, skus: &Vec<String>)
    ensures
        final(text)@ == old(text)@ + quoted_list(skus@.map_values(|s: String| s@)),
{
    let ghost views = skus@.map_values(|s: String| s@);
    let mut i: usize = 0;
    assert(views.subrange(0, 0) =~= Seq::<Seq<char>>::empty());
    assert(text@ =~= old(text)@ + quoted_list(views.subrange(0, 0)));
    while i < skus.len()
        invariant
            i <= skus.len(),
            views == skus@.map_values(|s: String| s@),
            text@ == old(text)@ + quoted_list(views.subrange(0, i as int)),
        decreases skus.len() - i,
    {
        let ghost before = text@;
        let ghost upto = views.subrange(0, i as int);
        let ghost next = views.subrange(0, i + 1);
        proof {
            assert(next.drop_last() =~= upto);
            assert(next.last() == skus@[i as int]@);
        }
        if i > 0 {
            text.append(", ");
            proof {
                reveal_strlit(", ");
                assert(", "@ =~= seq![',', ' ']);
            }
        }
        push_char(text, '"');
        text.append(skus[i].as_str());
        push_char(text, '"');
        proof {
            if i == 0 {
                assert(upto =~= Seq::<Seq<char>>::empty());
                assert(quoted_list(next) =~= seq!['"'] + next[0] + seq!['"']);
                assert(text@ =~= old(text)@ + quoted_list(next));
            } else {
                assert(quoted_list(next) =~= quoted_list(upto) + seq![',', ' ', '"'] + next.last()
                    + seq!['"']);
                assert(text@ =~= old(text)@ + quoted_list(next));
            }
        }
        i += 1;
    }
    assert(views.subrange(0, skus@.len() as int) =~= views);
}

} // verus!
