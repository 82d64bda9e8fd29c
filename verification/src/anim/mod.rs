//! The animations and what they share: the braille density ramp and color
//! gradients.

pub mod collapse;
pub mod conway;
pub mod cos;
pub mod saturn;

use vstd::prelude::*;

verus! {

// ---------------------------------------------------------------------------
// Braille characters ordered by how many dots they show
// ---------------------------------------------------------------------------

/// The number of one bits of `x`.
pub open spec fn popcount(x: nat) -> nat
    decreases x,
{
    if x == 0 {
        0
    } else {
        x % 2 + popcount(x / 2)
    }
}

/// The number of one bits of `x`.
fn count_ones(x: u32) -> (r: u32)
    ensures
        r == popcount(x as nat),
{
    proof {
        vstd::arithmetic::power2::lemma2_to64();
        lemma_popcount_bound(x as nat, 32);
    }
    let mut v = x;
    let mut c: u32 = 0;
    while v > 0
        invariant
            c + popcount(v as nat) == popcount(x as nat),
            popcount(x as nat) <= 32,
        decreases v,
    {
        c += v % 2;
        v /= 2;
    }
    c
}

/// The character with code point `v`, from `char::from_u32`. Its contract
/// claims what the standard library documents: `Some` exactly for the
/// Unicode scalar values, which are all code points but the surrogates.
#[verifier::external_body]
fn char_from_u32(v: u32) -> (r: Option<char>)
    ensures
        (v < 0xD800 || 0xE000 <= v <= 0x10FFFF) ==> r == Some(v as char),
        !(v < 0xD800 || 0xE000 <= v <= 0x10FFFF) ==> r is None,
{
    char::from_u32(v)
}

/// The dot patterns among `0..n` with exactly `dots` dots, in increasing
/// order.
pub open spec fn patterns_with_dots(n: nat, dots: nat) -> Seq<u32>
    decreases n,
{
    if n == 0 {
        Seq::empty()
    } else if popcount((n - 1) as nat) == dots {
        patterns_with_dots((n - 1) as nat, dots).push((n - 1) as u32)
    } else {
        patterns_with_dots((n - 1) as nat, dots)
    }
}

/// The 256 dot patterns with fewer than `dots` dots, by number of dots and
/// then by value.
pub open spec fn patterns_below(dots: nat) -> Seq<u32>
    decreases dots,
{
    if dots == 0 {
        Seq::empty()
    } else {
        patterns_below((dots - 1) as nat) + patterns_with_dots(256, (dots - 1) as nat)
    }
}

/// All 256 dot patterns, by number of dots and then by value.
pub open spec fn braille_order() -> Seq<u32> {
    patterns_below(9)
}

/// The braille character with dot pattern `p` (U+2800 onwards).
pub open spec fn braille_char(p: u32) -> char {
    (0x2800 + p) as char
}

/// A number below `2^k` has at most `k` one bits.
pub proof fn lemma_popcount_bound(x: nat, k: nat)
    requires
        x < vstd::arithmetic::power2::pow2(k),
    ensures
        popcount(x) <= k,
    decreases k,
{
    if k == 0 {
        vstd::arithmetic::power2::lemma2_to64();
    } else {
        vstd::arithmetic::power2::lemma_pow2_unfold(k);
        if x > 0 {
            lemma_popcount_bound(x / 2, (k - 1) as nat);
        }
    }
}

/// How many of `0..n` have fewer than `dots` dots.
pub open spec fn count_below(n: nat, dots: nat) -> nat
    decreases n,
{
    if n == 0 {
        0
    } else {
        count_below((n - 1) as nat, dots) + if popcount((n - 1) as nat) < dots {
            1nat
        } else {
            0nat
        }
    }
}

/// Groups over `0..n` for each number of dots below `dots`, laid end to end,
/// have `count_below(n, dots)` patterns.
proof fn lemma_groups_len(n: nat, dots: nat)
    ensures
        sum_groups(n, dots) == count_below(n, dots),
    decreases n, dots,
{
    if n > 0 {
        lemma_groups_len((n - 1) as nat, dots);
        lemma_groups_step((n - 1) as nat, dots);
    } else {
        lemma_groups_empty(dots);
    }
}

/// Over the empty range every group is empty.
proof fn lemma_groups_empty(dots: nat)
    ensures
        sum_groups(0, dots) == 0,
    decreases dots,
{
    if dots > 0 {
        lemma_groups_empty((dots - 1) as nat);
    }
}

/// The total length of the groups of `0..n` with `0..dots` dots.
pub open spec fn sum_groups(n: nat, dots: nat) -> nat
    decreases dots,
{
    if dots == 0 {
        0
    } else {
        sum_groups(n, (dots - 1) as nat) + patterns_with_dots(n, (dots - 1) as nat).len()
    }
}

/// Adding the value `n` to the range adds it to exactly one group.
proof fn lemma_groups_step(n: nat, dots: nat)
    ensures
        sum_groups(n + 1, dots) == sum_groups(n, dots) + if popcount(n) < dots {
            1nat
        } else {
            0nat
        },
    decreases dots,
{
    if dots > 0 {
        lemma_groups_step(n, (dots - 1) as nat);
    }
}

/// Every value below 256 has at most 8 dots, so the groups with 0 to 8 dots
/// hold all 256 patterns.
proof fn lemma_braille_order_len()
    ensures
        braille_order().len() == 256,
{
    assert forall|x: nat| x < 256 implies popcount(x) <= 8 by {
        vstd::arithmetic::power2::lemma2_to64();
        lemma_popcount_bound(x, 8);
    }
    lemma_count_all(256);
    lemma_groups_len(256, 9);
    lemma_order_len(9);
}

/// `count_below(n, 9) == n` for `n <= 256`.
proof fn lemma_count_all(n: nat)
    requires
        n <= 256,
        forall|x: nat| x < 256 ==> popcount(x) <= 8,
    ensures
        count_below(n, 9) == n,
    decreases n,
{
    if n > 0 {
        lemma_count_all((n - 1) as nat);
    }
}

/// The length of `patterns_below(dots)` is the sum of the group lengths.
proof fn lemma_order_len(dots: nat)
    ensures
        patterns_below(dots).len() == sum_groups(256, dots),
    decreases dots,
{
    if dots > 0 {
        lemma_order_len((dots - 1) as nat);
    }
}

/// The 256 braille characters, ordered by the number of dots they show and,
/// among equals, by code point: a density ramp from blank to full.
pub fn braille_texture() -> (r: [char; 256])
    ensures
        forall|k: int| 0 <= k < 256 ==> #[trigger] r[k] == braille_char(braille_order()[k]),
{
    let mut codes: Vec<u32> = Vec::new();
    let mut dots: u32 = 0;
    while dots < 9
        invariant
            dots <= 9,
            codes@ == patterns_below(dots as nat),
        decreases 9 - dots,
    {
        let mut i: u32 = 0;
        while i < 256
            invariant
                dots < 9,
                i <= 256,
                codes@ == patterns_below(dots as nat) + patterns_with_dots(i as nat, dots as nat),
            decreases 256 - i,
        {
            if count_ones(i) == dots {
                codes.push(i);
            }
            i += 1;
            assert(codes@ =~= patterns_below(dots as nat) + patterns_with_dots(i as nat, dots as nat));
        }
        dots += 1;
    }
    proof {
        lemma_braille_order_len();
        assert forall|k: int| 0 <= k < 256 implies #[trigger] codes@[k] < 256 by {
            lemma_order_values(9, k);
        }
    }
    let mut result = [' '; 256];
    let mut k: usize = 0;
    while k < 256
        invariant
            k <= 256,
            codes@ == braille_order(),
            codes@.len() == 256,
            forall|j: int| 0 <= j < 256 ==> #[trigger] codes@[j] < 256,
            forall|j: int| 0 <= j < k ==> #[trigger] result[j] == braille_char(braille_order()[j]),
        decreases 256 - k,
    {
        let c = char_from_u32(0x2800 + codes[k]).unwrap();
        result[k] = c;
        k += 1;
    }
    result
}

/// Every pattern in the groups below `dots` is below 256.
proof fn lemma_order_values(dots: nat, k: int)
    requires
        0 <= k < patterns_below(dots).len(),
    ensures
        patterns_below(dots)[k] < 256,
    decreases dots,
{
    if dots > 0 {
        let prev = patterns_below((dots - 1) as nat);
        if k < prev.len() {
            lemma_order_values((dots - 1) as nat, k);
        } else {
            lemma_group_values(256, (dots - 1) as nat, k - prev.len());
        }
    }
}

/// Every pattern in a group of `0..n` is below `n`.
proof fn lemma_group_values(n: nat, dots: nat, k: int)
    requires
        0 <= k < patterns_with_dots(n, dots).len(),
    ensures
        patterns_with_dots(n, dots)[k] < n,
    decreases n,
{
    if n > 0 {
        let prev = patterns_with_dots((n - 1) as nat, dots);
        if k < prev.len() {
            lemma_group_values((n - 1) as nat, dots, k);
        }
    }
}


/// Each group holds increasing patterns below `n`, all with `dots` dots.
proof fn lemma_group_sorted(n: nat, dots: nat)
    requires
        n <= 256,
    ensures
        forall|k: int|
            0 <= k < patterns_with_dots(n, dots).len() ==> (#[trigger] patterns_with_dots(n, dots)[k]) < n
                && popcount(patterns_with_dots(n, dots)[k] as nat) == dots,
        forall|a: int, b: int|
            0 <= a < b < patterns_with_dots(n, dots).len() ==> #[trigger] patterns_with_dots(n, dots)[a]
                < #[trigger] patterns_with_dots(n, dots)[b],
    decreases n,
{
    if n > 0 {
        lemma_group_sorted((n - 1) as nat, dots);
        let prev = patterns_with_dots((n - 1) as nat, dots);
        let cur = patterns_with_dots(n, dots);
        assert forall|k: int| 0 <= k < cur.len() implies (#[trigger] cur[k]) < n && popcount(
            cur[k] as nat,
        ) == dots by {
            if k < prev.len() {
                assert(cur[k] == prev[k]);
            }
        }
        assert forall|a: int, b: int| 0 <= a < b < cur.len() implies #[trigger] cur[a] < #[trigger] cur[b] by {
            if b < prev.len() {
                assert(cur[a] == prev[a] && cur[b] == prev[b]);
            } else {
                assert(cur[a] == prev[a]);
            }
        }
    }
}

/// The patterns below `dots` dots come in order of dots, then of value.
proof fn lemma_below_sorted(dots: nat)
    ensures
        forall|k: int|
            0 <= k < patterns_below(dots).len() ==> (#[trigger] patterns_below(dots)[k]) < 256
                && popcount(patterns_below(dots)[k] as nat) < dots,
        forall|a: int, b: int|
            0 <= a < b < patterns_below(dots).len() ==> {
                let pa = popcount(#[trigger] patterns_below(dots)[a] as nat);
                let pb = popcount(#[trigger] patterns_below(dots)[b] as nat);
                pa < pb || (pa == pb && patterns_below(dots)[a] < patterns_below(dots)[b])
            },
    decreases dots,
{
    if dots > 0 {
        let d = (dots - 1) as nat;
        lemma_below_sorted(d);
        lemma_group_sorted(256, d);
        let prev = patterns_below(d);
        let grp = patterns_with_dots(256, d);
        let all = patterns_below(dots);
        assert(all == prev + grp);
        assert forall|k: int| 0 <= k < all.len() implies (#[trigger] all[k]) < 256 && popcount(
            all[k] as nat,
        ) < dots by {
            if k < prev.len() {
                assert(all[k] == prev[k]);
            } else {
                assert(all[k] == grp[k - prev.len()]);
            }
        }
        assert forall|a: int, b: int| 0 <= a < b < all.len() implies {
            let pa = popcount(#[trigger] all[a] as nat);
            let pb = popcount(#[trigger] all[b] as nat);
            pa < pb || (pa == pb && all[a] < all[b])
        } by {
            if b < prev.len() {
                assert(all[a] == prev[a] && all[b] == prev[b]);
            } else if a < prev.len() {
                assert(all[a] == prev[a] && all[b] == grp[b - prev.len()]);
            } else {
                assert(all[a] == grp[a - prev.len()] && all[b] == grp[b - prev.len()]);
            }
        }
    }
}

/// The density ramp holds each of the 256 braille patterns exactly once,
/// in order of the number of dots and, among equals, of code point.
pub proof fn lemma_braille_order_by_dots()
    ensures
        braille_order().len() == 256,
        forall|k: int| 0 <= k < 256 ==> #[trigger] braille_order()[k] < 256,
        forall|a: int, b: int|
            0 <= a < b < 256 ==> {
                let pa = popcount(#[trigger] braille_order()[a] as nat);
                let pb = popcount(#[trigger] braille_order()[b] as nat);
                pa < pb || (pa == pb && braille_order()[a] < braille_order()[b])
            },
        braille_order().no_duplicates(),
{
    lemma_braille_order_len();
    lemma_below_sorted(9);
    let o = braille_order();
    assert forall|a: int, b: int| 0 <= a < o.len() && 0 <= b < o.len() && a != b implies o[a] != o[b] by {
        if a < b {
            assert(popcount(o[a] as nat) < popcount(o[b] as nat) || o[a] < o[b]);
        } else {
            assert(popcount(o[b] as nat) < popcount(o[a] as nat) || o[b] < o[a]);
        }
    }
}

// ---------------------------------------------------------------------------
// Color gradients
// ---------------------------------------------------------------------------

/// A color gradient: a background color and color stops, spread evenly
/// from one end to the other.
#[derive(Clone, Debug)]
pub struct Gradient {
    pub bg: Option<[u8; 3]>,
    pub stops: Vec<[u8; 3]>,
}

/// A value of a gradient's configuration that should be an integer.
#[derive(Clone, Copy, Debug, PartialEq, Eq, Structural)]
pub enum ConfigScalar {
    Integer(i64),
    /// Any value that is not an integer.
    Other,
}

/// An entry of a gradient's `stops` list, which should be an array.
#[derive(Clone, Debug)]
pub enum ConfigItem {
    Array(Vec<ConfigScalar>),
    /// Any value that is not an array.
    Other,
}

/// What the gradient configuration holds that matters: whether it is a
/// table, its `bg` array (absent when missing or not an array), and its
/// `stops` array (absent when missing or not an array).
#[derive(Clone, Debug)]
pub struct GradientConfig {
    pub is_table: bool,
    pub bg: Option<Vec<ConfigScalar>>,
    pub stops: Option<Vec<ConfigItem>>,
}

/// Why a gradient configuration was refused.
#[derive(Clone, Copy, Debug, PartialEq, Eq, Structural)]
pub enum GradientError {
    /// Gradient config must be a table
    NotATable,
    /// Gradient bg must be an array of 3 integers
    BgNotIntegers,
    /// Gradient bg color values must be between 0 and 255
    BgOutOfRange,
    /// Gradient config must have a stops array
    MissingStops,
    /// Gradient stops must be arrays of 3 integers
    StopNotIntegers,
    /// Gradient stop color values must be between 0 and 255
    StopOutOfRange,
}

/// Component `i` of an array read as a color: the integer there, 0 when the
/// array is shorter, `None` when the value there is not an integer.
pub open spec fn component(arr: Seq<ConfigScalar>, i: int) -> Option<i64> {
    if i < arr.len() {
        match arr[i] {
            ConfigScalar::Integer(v) => Some(v),
            ConfigScalar::Other => None,
        }
    } else {
        Some(0)
    }
}

/// The color that the first three entries of `arr` spell: `Err(not_ints)`
/// when one of them is not an integer, `Err(out_of_range)` when one lies
/// outside `0..256`.
pub open spec fn color_from(
    arr: Seq<ConfigScalar>,
    not_ints: GradientError,
    out_of_range: GradientError,
) -> Result<[u8; 3], GradientError> {
    match (component(arr, 0), component(arr, 1), component(arr, 2)) {
        (Some(r), Some(g), Some(b)) => if 0 <= r < 256 && 0 <= g < 256 && 0 <= b < 256 {
            Ok([r as u8, g as u8, b as u8])
        } else {
            Err(out_of_range)
        },
        _ => Err(not_ints),
    }
}

/// The color of one stop.
pub open spec fn stop_color(item: ConfigItem) -> Result<[u8; 3], GradientError> {
    match item {
        ConfigItem::Array(arr) => color_from(
            arr@,
            GradientError::StopNotIntegers,
            GradientError::StopOutOfRange,
        ),
        ConfigItem::Other => Err(GradientError::StopNotIntegers),
    }
}

/// The colors of the stops, or the error of the first stop that has one.
pub open spec fn stop_colors(items: Seq<ConfigItem>) -> Result<Seq<[u8; 3]>, GradientError>
    decreases items.len(),
{
    if items.len() == 0 {
        Ok(Seq::empty())
    } else {
        match stop_color(items[0]) {
            Err(e) => Err(e),
            Ok(c) => match stop_colors(items.skip(1)) {
                Err(e) => Err(e),
                Ok(rest) => Ok(seq![c] + rest),
            },
        }
    }
}

/// The background and stops that a configuration describes: the table comes
/// first, then the background (black when absent), then the stops.
pub open spec fn gradient_from(cfg: GradientConfig) -> Result<([u8; 3], Seq<[u8; 3]>), GradientError> {
    if !cfg.is_table {
        Err(GradientError::NotATable)
    } else {
        let bg_arr = match cfg.bg {
            Some(a) => a@,
            None => seq![ConfigScalar::Integer(0), ConfigScalar::Integer(0), ConfigScalar::Integer(0)],
        };
        match color_from(bg_arr, GradientError::BgNotIntegers, GradientError::BgOutOfRange) {
            Err(e) => Err(e),
            Ok(bg) => match cfg.stops {
                None => Err(GradientError::MissingStops),
                Some(items) => match stop_colors(items@) {
                    Err(e) => Err(e),
                    Ok(stops) => Ok((bg, stops)),
                },
            },
        }
    }
}

/// Component `i` of an array read as a color.
fn read_component(arr: &Vec<ConfigScalar>, i: usize) -> (r: Option<i64>)
    ensures
        r == component(arr@, i as int),
{
    if i < arr.len() {
        match arr[i] {
            ConfigScalar::Integer(v) => Some(v),
            ConfigScalar::Other => None,
        }
    } else {
        Some(0)
    }
}

/// The color that the first three entries of `arr` spell.
fn read_color(arr: &Vec<ConfigScalar>, not_ints: GradientError, out_of_range: GradientError) -> (r:
    Result<[u8; 3], GradientError>)
    ensures
        r == color_from(arr@, not_ints, out_of_range),
{
    let r = match read_component(arr, 0) {
        Some(v) => v,
        None => return Err(not_ints),
    };
    let g = match read_component(arr, 1) {
        Some(v) => v,
        None => return Err(not_ints),
    };
    let b = match read_component(arr, 2) {
        Some(v) => v,
        None => return Err(not_ints),
    };
    if !(0 <= r && r < 256 && 0 <= g && g < 256 && 0 <= b && b < 256) {
        return Err(out_of_range);
    }
    Ok([r as u8, g as u8, b as u8])
}

impl Gradient {
    /// Reads a gradient from its configuration.
    pub fn from_value(cfg: &GradientConfig) -> (r: Result<Self, GradientError>)
        ensures
            match gradient_from(*cfg) {
                Ok((bg, stops)) => r matches Ok(g) && g.bg == Some(bg) && g.stops@ == stops,
                Err(e) => r == Err::<Gradient, GradientError>(e),
            },
    {
        if !cfg.is_table {
            return Err(GradientError::NotATable);
        }
        let default_bg = vec![ConfigScalar::Integer(0), ConfigScalar::Integer(0), ConfigScalar::Integer(0)];
        let bg_arr = match &cfg.bg {
            Some(a) => a,
            None => &default_bg,
        };
        assert(default_bg@ =~= seq![ConfigScalar::Integer(0), ConfigScalar::Integer(0), ConfigScalar::Integer(0)]);
        let bg = match read_color(bg_arr, GradientError::BgNotIntegers, GradientError::BgOutOfRange) {
            Ok(c) => c,
            Err(e) => return Err(e),
        };
        let items = match &cfg.stops {
            Some(items) => items,
            None => return Err(GradientError::MissingStops),
        };
        let mut stops: Vec<[u8; 3]> = Vec::new();
        let mut k: usize = 0;
        assert(items@.skip(0) =~= items@);
        assert(gradient_from(*cfg) == match stop_colors(items@) {
            Err(e) => Err(e),
            Ok(st) => Ok((bg, st)),
        });
        while k < items.len()
            invariant
                k <= items@.len(),
                gradient_from(*cfg) == match stop_colors(items@) {
                    Err(e) => Err(e),
                    Ok(st) => Ok((bg, st)),
                },
                stop_colors(items@) == match stop_colors(items@.skip(k as int)) {
                    Err(e) => Err(e),
                    Ok(rest) => Ok(stops@ + rest),
                },
            decreases items@.len() - k,
        {
            let c = match &items[k] {
                ConfigItem::Array(arr) => read_color(
                    arr,
                    GradientError::StopNotIntegers,
                    GradientError::StopOutOfRange,
                ),
                ConfigItem::Other => Err(GradientError::StopNotIntegers),
            };
            proof {
                let rest = items@.skip(k as int);
                assert(rest[0] == items@[k as int]);
                assert(rest.skip(1) =~= items@.skip(k + 1));
                assert(stop_color(items@[k as int]) == c);
            }
            match c {
                Ok(color) => {
                    proof {
                        match stop_colors(items@.skip(k + 1)) {
                            Err(e) => {},
                            Ok(rest) => {
                                assert(stops@ + (seq![color] + rest) =~= stops@.push(color) + rest);
                            },
                        }
                    }
                    stops.push(color);
                },
                Err(e) => {
                    assert(stop_colors(items@.skip(k as int)) == Err::<Seq<[u8; 3]>, GradientError>(e));
                    return Err(e);
                },
            }
            k += 1;
        }
        assert(items@.skip(k as int) =~= Seq::<ConfigItem>::empty());
        assert(stops@ + Seq::<[u8; 3]>::empty() =~= stops@);
        Ok(Gradient { bg: Some(bg), stops })
    }

    pub fn ocean() -> (g: Self)
        ensures
            g.bg == Some([0u8, 0u8, 20u8]),
            g.stops@ == seq![[0u8, 0u8, 50u8], [0u8, 120u8, 200u8], [200u8, 240u8, 255u8]],
    {
        let g = Gradient { bg: Some([0, 0, 20]), stops: vec![[0, 0, 50], [0, 120, 200], [200, 240, 255]] };
        assert(g.stops@ =~= seq![[0u8, 0u8, 50u8], [0u8, 120u8, 200u8], [200u8, 240u8, 255u8]]);
        g
    }

    pub fn fire() -> (g: Self)
        ensures
            g.bg == Some([10u8, 0u8, 0u8]),
            g.stops@ == seq![[20u8, 0u8, 0u8], [200u8, 30u8, 0u8], [255u8, 150u8, 0u8], [255u8, 255u8, 100u8]],
    {
        let g = Gradient {
            bg: Some([10, 0, 0]),
            stops: vec![[20, 0, 0], [200, 30, 0], [255, 150, 0], [255, 255, 100]],
        };
        assert(g.stops@ =~= seq![[20u8, 0u8, 0u8], [200u8, 30u8, 0u8], [255u8, 150u8, 0u8], [255u8, 255u8, 100u8]]);
        g
    }

    pub fn vapor() -> (g: Self)
        ensures
            g.bg == Some([15u8, 0u8, 30u8]),
            g.stops@ == seq![[40u8, 0u8, 80u8], [200u8, 0u8, 150u8], [255u8, 100u8, 200u8], [0u8, 255u8, 255u8]],
    {
        let g = Gradient {
            bg: Some([15, 0, 30]),
            stops: vec![[40, 0, 80], [200, 0, 150], [255, 100, 200], [0, 255, 255]],
        };
        assert(g.stops@ =~= seq![[40u8, 0u8, 80u8], [200u8, 0u8, 150u8], [255u8, 100u8, 200u8], [0u8, 255u8, 255u8]]);
        g
    }

    pub fn mono() -> (g: Self)
        ensures
            g.bg == Some([0u8, 0u8, 0u8]),
            g.stops@ == seq![[20u8, 20u8, 20u8], [255u8, 255u8, 255u8]],
    {
        let g = Gradient { bg: Some([0, 0, 0]), stops: vec![[20, 20, 20], [255, 255, 255]] };
        assert(g.stops@ =~= seq![[20u8, 20u8, 20u8], [255u8, 255u8, 255u8]]);
        g
    }

    pub fn aurora() -> (g: Self)
        ensures
            g.bg == Some([0u8, 0u8, 15u8]),
            g.stops@ == seq![[0u8, 0u8, 40u8], [0u8, 200u8, 100u8], [0u8, 150u8, 200u8], [150u8, 0u8, 200u8]],
    {
        let g = Gradient {
            bg: Some([0, 0, 15]),
            stops: vec![[0, 0, 40], [0, 200, 100], [0, 150, 200], [150, 0, 200]],
        };
        assert(g.stops@ =~= seq![[0u8, 0u8, 40u8], [0u8, 200u8, 100u8], [0u8, 150u8, 200u8], [150u8, 0u8, 200u8]]);
        g
    }
}

} // verus!
