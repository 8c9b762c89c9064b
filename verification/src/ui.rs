//! Enums that the user edits through a dropdown: each visible variant has a
//! position in the dropdown and a label.
use vstd::prelude::*;

verus! {

/// Position given to variants that are hidden from the dropdown.
pub const INVISIBLE_INDEX: usize = 9999;

/// An enum that can be changed via dropdown.
///
/// Visible variants are numbered `0..LEN` in declaration order; hidden ones
/// all get [`INVISIBLE_INDEX`].
pub trait UiEditableEnum: Sized {
    const LEN: usize;

    /// Dropdown position of this variant.
    spec fn spec_as_index(&self) -> usize;

    /// Whether `idx` names a variant (a visible position or the hidden one).
    spec fn spec_valid_index(idx: usize) -> bool;

    /// The variant at dropdown position `idx`.
    spec fn spec_from_index(idx: usize) -> Self;

    /// The label of dropdown position `idx`: the variant's name.
    spec fn spec_label(idx: usize) -> Seq<char>;

    fn self_as_index(&self) -> (r: usize)
        ensures
            r == self.spec_as_index(),
            Self::spec_valid_index(r),
    ;

    fn index_as_self(&self, idx: usize) -> (r: Self)
        requires
            Self::spec_valid_index(idx),
        ensures
            r == Self::spec_from_index(idx),
    ;

    fn index_to_str(idx: usize) -> (r: &'static str)
        requires
            Self::spec_valid_index(idx),
        ensures
            r@ == Self::spec_label(idx),
    ;

    fn self_as_str(&self) -> (r: &'static str)
        ensures
            r@ == Self::spec_label(self.spec_as_index()),
    {
        Self::index_to_str(self.self_as_index())
    }

    /// Every visible variant is found again at its own dropdown position.
    proof fn lemma_index_round_trip(e: Self)
        requires
            e.spec_as_index() < Self::LEN,
        ensures
            Self::spec_from_index(e.spec_as_index()) == e,
    ;

    /// The dropdown positions `0..LEN` are exactly the visible variants.
    proof fn lemma_positions_visible(idx: usize)
        requires
            idx < Self::LEN,
        ensures
            Self::spec_valid_index(idx),
            Self::spec_from_index(idx).spec_as_index() == idx,
    ;
}

/// After the dropdown of `value` was shown and position `result` picked:
/// if that is not the position of `value`, `value` becomes the variant at
/// `result`; otherwise it is left as it is.
pub fn dropdown_post_show<T: UiEditableEnum>(result: usize, value: &mut T)
    requires
        T::spec_valid_index(result),
    ensures
        *final(value) == if old(value).spec_as_index() != result {
            T::spec_from_index(result)
        } else {
            *old(value)
        },
{
    if value.self_as_index() != result {
        *value = value.index_as_self(result);
    }
}

/// An enum that can be configured via dropdown, numbered like
/// [`UiEditableEnum`].
pub trait UiConfigurableEnum: Sized {
    const LEN: usize;

    /// Dropdown position of a value.
    spec fn spec_as_index(&self) -> usize;

    /// Label of dropdown position `idx`.
    spec fn spec_label(idx: usize) -> Seq<char>;

    fn self_as_index(&self) -> (r: usize)
        ensures
            r == self.spec_as_index(),
    ;

    fn index_as_self(&self, idx: usize) -> Self;

    fn index_to_str(idx: usize) -> (r: &'static str)
        ensures
            r@ == Self::spec_label(idx),
    ;

    /// The label of this value's dropdown position.
    fn self_as_str(&self) -> (r: &'static str)
        ensures
            r@ == Self::spec_label(self.spec_as_index()),
    {
        Self::index_to_str(self.self_as_index())
    }
}

} // verus!
