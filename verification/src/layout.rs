//! Size and alignment of a block of memory.
use crate::align::is_power_of_two;
use vstd::arithmetic::power2::is_pow2;
use vstd::prelude::*;

verus! {

/// Size and alignment of a block of memory, both in bytes.
#[derive(Clone, Copy, Debug, PartialEq, Eq, Structural)]
pub struct Layout {
    pub size: usize,
    pub align: usize,
}

/// The size and the alignment do not make up a layout.
#[derive(Clone, Copy, Debug, PartialEq, Eq, Structural)]
pub struct LayoutError;

/// Whether a block of `size` bytes aligned to `align` can exist: the alignment is a power of
/// two, and the size rounded up to it stays within `isize::MAX`.
pub open spec fn is_layout(size: int, align: int) -> bool {
    &&& is_pow2(align)
    &&& 0 <= size
    &&& size + align - 1 <= isize::MAX
}

/// The layout of one value of type `T`.
pub open spec fn layout_of<T>() -> Layout {
    Layout {
        size: vstd::layout::size_of::<T>() as usize,
        align: vstd::layout::align_of::<T>() as usize,
    }
}

/// The layout of `len` values of type `T` side by side, where they make up one.
pub open spec fn array_layout<T>(len: nat) -> Option<Layout> {
    let size = len * vstd::layout::size_of::<T>();
    let align = vstd::layout::align_of::<T>();
    if is_layout(size as int, align as int) {
        Some(Layout { size: size as usize, align: align as usize })
    } else {
        None
    }
}

/// The layout of `len` bytes that hold text, where they make up one.
pub open spec fn bytes_layout(len: nat) -> Option<Layout> {
    if is_layout(len as int, 1) {
        Some(Layout { size: len as usize, align: 1 })
    } else {
        None
    }
}

impl Layout {
    /// Whether this is the layout of a block that can exist.
    pub open spec fn valid(self) -> bool {
        is_layout(self.size as int, self.align as int)
    }

    /// Creates the layout of a block of `size` bytes aligned to `align`.
    pub fn from_size_align(size: usize, align: usize) -> (result: Result<Layout, LayoutError>)
        ensures
            result == if is_layout(size as int, align as int) {
                Ok(Layout { size, align })
            } else {
                Err(LayoutError)
            },
    {
        if !is_power_of_two(align) {
            return Err(LayoutError);
        }
        proof {
            reveal(is_pow2);
        }
        let greatest: usize = isize::MAX as usize;
        if align - 1 > greatest || size > greatest - (align - 1) {
            Err(LayoutError)
        } else {
            Ok(Layout { size, align })
        }
    }

    /// The layout of one value of type `T`.
    pub fn new<T>() -> (layout: Layout)
        ensures
            layout == layout_of::<T>(),
            layout.valid(),
            layout.size == vstd::layout::size_of::<T>(),
            layout.align == vstd::layout::align_of::<T>(),
            layout.size % layout.align == 0,
    {
        vstd::layout::layout_for_type_is_valid::<T>();
        proof {
            reveal(is_pow2);
            lemma_type_layout(
                vstd::layout::size_of::<T>() as usize,
                vstd::layout::align_of::<T>() as usize,
            );
        }
        Layout { size: core::mem::size_of::<T>(), align: core::mem::align_of::<T>() }
    }

    /// The layout of `len` values of type `T` side by side.
    pub fn array<T>(len: usize) -> (result: Result<Layout, LayoutError>)
        ensures
            result == match array_layout::<T>(len as nat) {
                Some(layout) => Ok::<Layout, LayoutError>(layout),
                None => Err(LayoutError),
            },
            result matches Ok(layout) ==> layout.valid() && layout.size % layout.align == 0,
    {
        let item = Layout::new::<T>();
        proof {
            reveal(is_pow2);
        }
        match len.checked_mul(item.size) {
            Some(size) => {
                proof {
                    assert(size == len * vstd::layout::size_of::<T>());
                    lemma_array_multiple(len as int, item.size as int, item.align as int);
                }
                Layout::from_size_align(size, item.align)
            },
            None => Err(LayoutError),
        }
    }

    /// The layout of the values in `slice`.
    pub fn for_value<T>(slice: &[T]) -> (result: Result<Layout, LayoutError>)
        ensures
            result == match array_layout::<T>(slice@.len()) {
                Some(layout) => Ok::<Layout, LayoutError>(layout),
                None => Err(LayoutError),
            },
            result matches Ok(layout) ==> layout.valid() && layout.size % layout.align == 0,
    {
        Layout::array::<T>(slice.len())
    }

    /// The layout of the bytes of `str`.
    pub fn for_str(str: &str) -> (result: Result<Layout, LayoutError>)
        ensures
            result == match bytes_layout(vstd::utf8::encode_utf8(str@).len()) {
                Some(layout) => Ok::<Layout, LayoutError>(layout),
                None => Err(LayoutError),
            },
            result matches Ok(layout) ==> layout.valid(),
    {
        Layout::from_size_align(str.as_bytes().len(), 1)
    }

    /// Size of the block in bytes.
    pub fn size(&self) -> (size: usize)
        ensures
            size == self.size,
    {
        self.size
    }

    /// Alignment of the block in bytes.
    pub fn align(&self) -> (align: usize)
        ensures
            align == self.align,
    {
        self.align
    }
}

/// The bound that types keep to is the bound of [`is_layout`].
pub(crate) proof fn lemma_type_layout(size: usize, align: usize)
    requires
        vstd::layout::valid_layout(size, align),
    ensures
        is_layout(size as int, align as int),
{
    let whole = usize::MAX as int + 1;
    assert(is_pow2(whole)) by {
        vstd::layout::unsigned_int_max_values();
        vstd::arithmetic::power2::is_pow2_equiv(whole);
        vstd::arithmetic::power2::lemma_pow2(usize::BITS as nat);
        assert(vstd::arithmetic::power::pow(2, usize::BITS as nat) == whole);
    }
    crate::align::lemma_half_at_least(whole, align as int);
    lemma_greatest_remainder(align as int);
}

/// One less than a greater power of two leaves the greatest remainder.
proof fn lemma_greatest_remainder(align: int)
    requires
        is_pow2(align),
        align <= isize::MAX as int + 1,
    ensures
        isize::MAX as int % align == align - 1,
{
    let whole = isize::MAX as int + 1;
    assert(is_pow2(whole)) by {
        vstd::layout::signed_int_min_max_values();
        vstd::arithmetic::power2::is_pow2_equiv(whole);
        assert(vstd::arithmetic::power::pow(2, (isize::BITS - 1) as nat) == whole) by {
            vstd::arithmetic::power2::lemma_pow2((isize::BITS - 1) as nat);
        }
    }
    reveal(is_pow2);
    vstd::arithmetic::div_mod::lemma_mod_self_0(whole);
    crate::align::lemma_coarser_multiple(whole, whole, align);
    vstd::arithmetic::div_mod::lemma_fundamental_div_mod(whole, align);
    let q = whole / align;
    assert(isize::MAX as int == align * (q - 1) + (align - 1)) by (nonlinear_arith)
        requires
            isize::MAX as int + 1 == align * q,
    ;
    vstd::arithmetic::div_mod::lemma_fundamental_div_mod_converse(
        isize::MAX as int,
        align,
        q - 1,
        align - 1,
    );
}

/// Values side by side take a multiple of their alignment.
proof fn lemma_array_multiple(len: int, size: int, align: int)
    requires
        align > 0,
        size % align == 0,
    ensures
        (len * size) % align == 0,
{
    vstd::arithmetic::div_mod::lemma_fundamental_div_mod(size, align);
    let q = size / align;
    assert(len * size == (len * q) * align) by (nonlinear_arith)
        requires
            size == align * q,
    ;
    vstd::arithmetic::div_mod::lemma_mod_multiples_basic(len * q, align);
}

/// There is a layout for so many values side by side exactly where they, and what aligning them
/// takes, stay within `isize::MAX` bytes. It is that of a block with room for them all.
pub proof fn lemma_array_layout<T>(len: nat)
    requires
        is_pow2(vstd::layout::align_of::<T>() as int),
    ensures
        array_layout::<T>(len) is Some <==> len * vstd::layout::size_of::<T>()
            + vstd::layout::align_of::<T>() <= isize::MAX + 1,
        array_layout::<T>(len) matches Some(layout) ==> {
            &&& layout.size == len * vstd::layout::size_of::<T>()
            &&& layout.align == vstd::layout::align_of::<T>()
        },
{
    assert(0 <= len * vstd::layout::size_of::<T>()) by (nonlinear_arith);
    reveal(is_pow2);
}

/// There is a layout for text of up to `isize::MAX` bytes.
pub proof fn lemma_bytes_layout(len: nat)
    ensures
        bytes_layout(len) is Some <==> len <= isize::MAX,
        bytes_layout(len) matches Some(layout) ==> layout.size == len && layout.align == 1,
{
    reveal(is_pow2);
}

} // verus!
