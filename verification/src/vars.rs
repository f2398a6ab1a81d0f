use vstd::prelude::*;

verus! {

broadcast use vstd::string::to_string_from_display_ensures_for_str;

/// The display color that the palette assigns to a color number: one of
/// seventeen fixed display values, and black for any number beyond them.
pub open spec fn color_display_spec(color: u32) -> Seq<char> {
    if color == 0 {
        "#01a120"@
    } else if color == 1 {
        "#ff106f"@
    } else if color == 2 {
        "#ff6f00"@
    } else if color == 3 {
        "#ffdf00"@
    } else if color == 4 {
        "#7fd0ff"@
    } else if color == 5 {
        "#3d7ddd"@
    } else if color == 6 {
        "#9fff0d"@
    } else if color == 7 {
        "#5d0f0f"@
    } else if color == 8 {
        "#601df0"@
    } else if color == 9 {
        "#3f3f00"@
    } else if color == 10 {
        "#ff3f3f"@
    } else if color == 11 {
        "#3fffff"@
    } else if color == 12 {
        "#ff3fff"@
    } else if color == 13 {
        "#3f117f"@
    } else if color == 14 {
        "#104a4f"@
    } else if color == 15 {
        "#3f3f3f"@
    } else if color == 16 {
        "#3f3fff"@
    } else {
        "#000000"@
    }
}

/// Looks a color number up in the fixed display palette, black beyond it.
#[allow(non_snake_case)]
pub fn getColor(color: u32) -> (r: String)
    ensures
        r@ == color_display_spec(color),
{
    if color == 0 {
        "#01a120".to_string()
    } else if color == 1 {
        "#ff106f".to_string()
    } else if color == 2 {
        "#ff6f00".to_string()
    } else if color == 3 {
        "#ffdf00".to_string()
    } else if color == 4 {
        "#7fd0ff".to_string()
    } else if color == 5 {
        "#3d7ddd".to_string()
    } else if color == 6 {
        "#9fff0d".to_string()
    } else if color == 7 {
        "#5d0f0f".to_string()
    } else if color == 8 {
        "#601df0".to_string()
    } else if color == 9 {
        "#3f3f00".to_string()
    } else if color == 10 {
        "#ff3f3f".to_string()
    } else if color == 11 {
        "#3fffff".to_string()
    } else if color == 12 {
        "#ff3fff".to_string()
    } else if color == 13 {
        "#3f117f".to_string()
    } else if color == 14 {
        "#104a4f".to_string()
    } else if color == 15 {
        "#3f3f3f".to_string()
    } else if color == 16 {
        "#3f3fff".to_string()
    } else {
        "#000000".to_string()
    }
}

} // verus!
