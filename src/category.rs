//! Classification of a character into one of five broad groups of Unicode
//! general categories.

use unicode_categories::UnicodeCategories;
use vstd::prelude::*;

verus! {

/// The general category of `c` is a letter category (Lu, Ll, Lt, Lm, Lo).
pub uninterp spec fn letter_class(c: char) -> bool;

/// The general category of `c` is a number category (Nd, Nl, No).
pub uninterp spec fn number_class(c: char) -> bool;

/// The general category of `c` is Space Separator (Zs).
pub uninterp spec fn space_class(c: char) -> bool;

/// The general category of `c` is a punctuation category (Pc, Pd, Ps, Pe, Pi, Pf, Po).
pub uninterp spec fn punctuation_class(c: char) -> bool;

/// The general category of `c` is a symbol category (Sm, Sc, Sk, So).
pub uninterp spec fn symbol_class(c: char) -> bool;

/// Relies on `UnicodeCategories::is_letter`: membership in a letter category.
#[verifier::external_body]
fn is_letter(c: char) -> (r: bool)
    ensures
        r == letter_class(c),
{
    UnicodeCategories::is_letter(c)
}

/// Relies on `UnicodeCategories::is_number`: membership in a number category.
#[verifier::external_body]
fn is_number(c: char) -> (r: bool)
    ensures
        r == number_class(c),
{
    UnicodeCategories::is_number(c)
}

/// Relies on `UnicodeCategories::is_separator_space`: membership in Zs.
#[verifier::external_body]
fn is_space(c: char) -> (r: bool)
    ensures
        r == space_class(c),
{
    UnicodeCategories::is_separator_space(c)
}

/// Relies on `UnicodeCategories::is_punctuation`: membership in a punctuation category.
#[verifier::external_body]
fn is_punctuation(c: char) -> (r: bool)
    ensures
        r == punctuation_class(c),
{
    UnicodeCategories::is_punctuation(c)
}

/// Relies on `UnicodeCategories::is_symbol`: membership in a symbol category.
#[verifier::external_body]
fn is_symbol(c: char) -> (r: bool)
    ensures
        r == symbol_class(c),
{
    UnicodeCategories::is_symbol(c)
}

/// The broad group a character falls into.
#[derive(Clone, Copy, Debug, PartialEq, Eq, Structural)]
pub enum Category {
    Alphanumeric,
    Space,
    Punctuation,
    Symbol,
    Other,
}

/// The group of `c`: the first of letter-or-number, space separator,
/// punctuation and symbol that `c` belongs to, and `Other` when none does.
pub open spec fn category_of(c: char) -> Category {
    if letter_class(c) || number_class(c) {
        Category::Alphanumeric
    } else if space_class(c) {
        Category::Space
    } else if punctuation_class(c) {
        Category::Punctuation
    } else if symbol_class(c) {
        Category::Symbol
    } else {
        Category::Other
    }
}

/// The printed name of a category.
pub open spec fn category_name(k: Category) -> Seq<char> {
    match k {
        Category::Alphanumeric => "Alphanumeric"@,
        Category::Space => "Space"@,
        Category::Punctuation => "Punctuation"@,
        Category::Symbol => "Symbol"@,
        Category::Other => "Other"@,
    }
}

impl Category {
    /// The name under which the category is reported.
    pub fn name(&self) -> (r: &'static str)
        ensures
            r@ == category_name(*self),
    {
        match self {
            Category::Alphanumeric => "Alphanumeric",
            Category::Space => "Space",
            Category::Punctuation => "Punctuation",
            Category::Symbol => "Symbol",
            Category::Other => "Other",
        }
    }
}

/// Classifies `c`. Defined for every scalar value.
pub fn get_character_category(c: char) -> (r: Category)
    ensures
        r == category_of(c),
{
    if is_letter(c) || is_number(c) {
        Category::Alphanumeric
    } else if is_space(c) {
        Category::Space
    } else if is_punctuation(c) {
        Category::Punctuation
    } else if is_symbol(c) {
        Category::Symbol
    } else {
        Category::Other
    }
}

} // verus!
