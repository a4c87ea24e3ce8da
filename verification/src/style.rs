use vstd::prelude::*;

verus! {

/// A colour's red, green and blue parts.
#[derive(PartialEq, Eq, Structural, Clone, Copy, Debug)]
pub struct Rgb {
    pub r: u8,
    pub g: u8,
    pub b: u8,
}

/// `x` less `amt`, stopping at zero.
pub open spec fn less(x: u8, amt: u8) -> u8 {
    if x > amt {
        (x - amt) as u8
    } else {
        0
    }
}

/// `x` plus `amt`, stopping at 255.
pub open spec fn more(x: u8, amt: u8) -> u8 {
    if x + amt > 255 {
        255
    } else {
        (x + amt) as u8
    }
}

/// Darkens `c` by `amt` on every channel, stopping at black.
pub fn dim(c: Rgb, amt: u8) -> (d: Rgb)
    ensures
        d == (Rgb { r: less(c.r, amt), g: less(c.g, amt), b: less(c.b, amt) }),
{
    Rgb { r: c.r.saturating_sub(amt), g: c.g.saturating_sub(amt), b: c.b.saturating_sub(amt) }
}

/// The rim drawn around a node of tag colour `c`: 38 lighter on every
/// channel, stopping at 255.
pub fn tag_rim(c: Rgb) -> (d: Rgb)
    ensures
        d == (Rgb { r: more(c.r, 38), g: more(c.g, 38), b: more(c.b, 38) }),
{
    let r: u16 = c.r as u16 + 38;
    let g: u16 = c.g as u16 + 38;
    let b: u16 = c.b as u16 + 38;
    Rgb {
        r: if r > 255 {
            255
        } else {
            r as u8
        },
        g: if g > 255 {
            255
        } else {
            g as u8
        },
        b: if b > 255 {
            255
        } else {
            b as u8
        },
    }
}

/// A node's body and rim before hover and fading: the colour of its first
/// tag (and a lighter rim) where tags are coloured and it has one, else the
/// theme's.
pub fn base_colors(show_tags: bool, first_tag: Option<Rgb>, node: Rgb, node_rim: Rgb) -> (r: (Rgb, Rgb))
    ensures
        r == (match first_tag {
            Some(t) if show_tags => (t, Rgb { r: more(t.r, 38), g: more(t.g, 38), b: more(t.b, 38) }),
            _ => (node, node_rim),
        }),
{
    if show_tags {
        if let Some(t) = first_tag {
            return (t, tag_rim(t));
        }
    }
    (node, node_rim)
}

/// The rim and body colours a node is drawn with: the theme's hover colours
/// for a hovered node that is not selected, its colours darkened by 70 where
/// faded (rim and body swap places), else its rim and body.
pub fn node_colors(body: Rgb, rim: Rgb, theme_rim: Rgb, theme_hover: Rgb, is_sel: bool, is_hov: bool, is_fade: bool) -> (r: (
    Rgb,
    Rgb,
))
    ensures
        r == (if is_hov && !is_sel {
            (theme_rim, theme_hover)
        } else if is_fade {
            (
                Rgb { r: less(rim.r, 70), g: less(rim.g, 70), b: less(rim.b, 70) },
                Rgb { r: less(body.r, 70), g: less(body.g, 70), b: less(body.b, 70) },
            )
        } else {
            (rim, body)
        }),
{
    if is_hov && !is_sel {
        return (theme_rim, theme_hover);
    }
    if is_fade {
        return (dim(rim, 70), dim(body, 70));
    }
    (rim, body)
}

/// A node is drawn faded: filtered out of view, or, while another node is
/// hovered, neither selected, hovered nor next to the hovered one.
pub fn node_faded(faded: bool, any_hovered: bool, near_hovered: bool, is_sel: bool, is_hov: bool) -> (r: bool)
    ensures
        r == (faded || (any_hovered && !near_hovered && !is_sel && !is_hov)),
{
    faded || (any_hovered && !near_hovered && !is_sel && !is_hov)
}

/// An edge is drawn: neither end hidden and not both ends faded.
pub fn edge_drawn(hidden_a: bool, hidden_b: bool, faded_a: bool, faded_b: bool) -> (r: bool)
    ensures
        r == (!hidden_a && !hidden_b && !(faded_a && faded_b)),
{
    !hidden_a && !hidden_b && !(faded_a && faded_b)
}

/// An edge is highlighted: both ends are by the hovered node, or one end is
/// the hovered node and the other by it.
pub fn edge_lit(near_a: bool, near_b: bool, a_hovered: bool, b_hovered: bool) -> (r: bool)
    ensures
        r == ((near_a && near_b) || (a_hovered && near_b) || (b_hovered && near_a)),
{
    (near_a && near_b) || (a_hovered && near_b) || (b_hovered && near_a)
}

/// The opacity of a label: a fifth of `base` where faded; `None` (not
/// drawn) where that is below 5.
pub fn label_alpha(base: u8, faded: bool) -> (r: Option<u8>)
    ensures
        ({
            let a = if faded {
                (base / 5) as u8
            } else {
                base
            };
            r == if a < 5 {
                None
            } else {
                Some(a)
            }
        }),
{
    let a = if faded {
        base / 5
    } else {
        base
    };
    if a < 5 {
        None
    } else {
        Some(a)
    }
}

/// The strength of a node's glow before age: 3 where faded, else 9.
pub fn glow_base(faded: bool) -> (r: u8)
    ensures
        r == (if faded {
            3u8
        } else {
            9u8
        }),
{
    if faded {
        3
    } else {
        9
    }
}

/// Darkening never lightens a channel, and darkening by zero changes nothing.
pub proof fn law_dim_darkens(c: Rgb, amt: u8)
    ensures
        less(c.r, amt) <= c.r && less(c.g, amt) <= c.g && less(c.b, amt) <= c.b,
        less(c.r, 0) == c.r && less(c.g, 0) == c.g && less(c.b, 0) == c.b,
{
}

} // verus!
