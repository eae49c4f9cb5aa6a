//! Syntax of product SKUs: one or more characters, each an upper-case ASCII
//! letter or an ASCII digit.

use vstd::prelude::*;
use vstd::string::*;

verus! {

/// A character that may occur in a SKU.
pub open spec fn is_sku_char(c: char) -> bool {
    ('A' <= c && c <= 'Z') || ('0' <= c && c <= '9')
}

/// Every character of `s` may occur in a SKU.
pub open spec fn all_sku_chars(s: Seq<char>) -> bool {
    forall|i: int| 0 <= i < s.len() ==> is_sku_char(#[trigger] s[i])
}

/// `s` is a well-formed SKU: not empty, and made of SKU characters only.
pub open spec fn sku_syntax_ok(s: Seq<char>) -> bool {
    s.len() > 0 && all_sku_chars(s)
}

/// Why a string is not a well-formed SKU.
#[derive(Debug, Clone, Copy, PartialEq, Eq, Structural)]
pub enum SkuError {
    /// The string has no characters.
    Empty,
    /// Some character is neither an upper-case ASCII letter nor an ASCII digit.
    NotAlphanumeric,
}

impl SkuError {
    /// The text shown to a caller for this error.
    pub fn message(&self) -> (text: &'static str)
        ensures
            text@ == match *self {
                SkuError::Empty => "Empty strings are not allowed"@,
                SkuError::NotAlphanumeric =>
                    "Product SKU can only contain alphanumeric characters"@,
            },
    {
        match self {
            SkuError::Empty => "Empty strings are not allowed",
            SkuError::NotAlphanumeric => "Product SKU can only contain alphanumeric characters",
        }
    }
}

/// Tells whether one character may occur in a SKU.
pub fn is_sku_character(c: char) -> (ok: bool)
    ensures
        ok == is_sku_char(c),
{
    ('A' <= c && c <= 'Z') || ('0' <= c && c <= '9')
}

/// What is wrong with `s` as a SKU, if anything: the empty string is
/// `Empty`; any other string holding a character outside `A`-`Z` and
/// `0`-`9` is `NotAlphanumeric`.
pub open spec fn sku_error(s: Seq<char>) -> Option<SkuError> {
    if s.len() == 0 {
        Some(SkuError::Empty)
    } else if !all_sku_chars(s) {
        Some(SkuError::NotAlphanumeric)
    } else {
        None
    }
}

/// The error of the first string at or after index `from` that is not a
/// well-formed SKU; `None` where all of them are.
pub open spec fn first_sku_error(skus: Seq<Seq<char>>, from: int) -> Option<SkuError>
    decreases skus.len() - from,
{
    if from < 0 || from >= skus.len() {
        None
    } else if sku_error(skus[from]) is Some {
        sku_error(skus[from])
    } else {
        first_sku_error(skus, from + 1)
    }
}

/// A string is a well-formed SKU exactly when nothing is wrong with it.
pub proof fn lemma_sku_error_none(s: Seq<char>)
    ensures
        sku_error(s) is None <==> sku_syntax_ok(s),
{
}

/// No error is found exactly when every string is a well-formed SKU.
pub proof fn lemma_first_sku_error_none(skus: Seq<Seq<char>>, from: int)
    requires
        0 <= from,
    ensures
        first_sku_error(skus, from) is None <==> forall|i: int|
            from <= i < skus.len() ==> sku_syntax_ok(#[trigger] skus[i]),
    decreases skus.len() - from,
{
    if from < skus.len() {
        lemma_first_sku_error_none(skus, from + 1);
        if first_sku_error(skus, from) is None {
            assert forall|i: int| from <= i < skus.len() implies sku_syntax_ok(
                #[trigger] skus[i],
            ) by {
                if i > from {
                }
            }
        } else if sku_error(skus[from]) is Some {
            assert(!sku_syntax_ok(skus[from]));
        }
    }
}

/// Checks the syntax of a SKU.
pub fn is_product_sku_valid(product: &str) -> (r: Result<(), SkuError>)
    ensures
        r == (match sku_error(product@) {
            None => Ok::<(), SkuError>(()),
            Some(e) => Err::<(), SkuError>(e),
        }),
{
    let n = product.unicode_len();
    if n == 0 {
        return Err(SkuError::Empty);
    }
    let mut i: usize = 0;
    while i < n
        invariant
            n == product@.len(),
            i <= n,
            forall|j: int| 0 <= j < i ==> is_sku_char(#[trigger] product@[j]),
        decreases n - i,
    {
        let c = product.get_char(i);
        if !is_sku_character(c) {
            return Err(SkuError::NotAlphanumeric);
        }
        i += 1;
    }
    Ok(())
}

} // verus!
