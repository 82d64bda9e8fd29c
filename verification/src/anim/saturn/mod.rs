pub mod layout;
pub mod romparse;

use vstd::prelude::*;

use crate::anim::saturn::romparse::{BackgroundEntry, DistortionEffect, SaturnBgData, BG_ENTRIES};

verus! {

/// Rust's remainder `x % d` on integers: the sign of the dividend, rounded
/// toward zero.
pub open spec fn trunc_rem(x: int, d: int) -> int {
    if x >= 0 && d > 0 {
        x % d
    } else if x < 0 && d < 0 {
        -((-x) % (-d))
    } else if x < 0 {
        -((-x) % d)
    } else {
        x % (-d)
    }
}

/// `n` brought into `0..m` for a positive `m`: the remainder of `n`,
/// shifted by `m` and reduced again.
pub open spec fn wrapped(n: int, m: int) -> int {
    trunc_rem(trunc_rem(n, m) + m, m)
}

/// For a positive modulus, `wrapped` is the mathematical (Euclidean) modulo.
pub proof fn lemma_wrapped_is_modulo(n: int, m: int)
    requires
        m > 0,
    ensures
        wrapped(n, m) == n % m,
        0 <= wrapped(n, m) < m,
{
    if n >= 0 {
        vstd::arithmetic::div_mod::lemma_mod_add_multiples_vanish(n % m, m);
        vstd::arithmetic::div_mod::lemma_small_mod((n % m) as nat, m as nat);
        vstd::arithmetic::div_mod::lemma_mod_bound(n, m);
    } else {
        let a = (-n) % m;
        vstd::arithmetic::div_mod::lemma_mod_bound(-n, m);
        vstd::arithmetic::div_mod::lemma_fundamental_div_mod(-n, m);
        vstd::arithmetic::div_mod::lemma_mod_bound(m - a, m);
        // n == m * (-((-n) / m)) + (-a), so n % m == (m - a) % m
        vstd::arithmetic::div_mod::lemma_mod_multiples_vanish(-((-n) / m) - 1, m - a, m);
        assert(m * (-((-n) / m) - 1) + (m - a) == n) by (nonlinear_arith)
            requires -n == m * ((-n) / m) + a;
    }
}

/// `n` modulo `m`, in `0..m` also for a negative `n`.
#[verifier::spinoff_prover]
pub fn modulo(n: i32, m: i32) -> (r: usize)
    requires
        m != 0,
        !(n == i32::MIN && m == -1),
        i32::MIN <= trunc_rem(n as int, m as int) + m <= i32::MAX,
    ensures
        r == wrapped(n as int, m as int) as usize,
        m > 0 ==> r as int == n as int % m as int,
{
    let a = n.checked_rem(m).unwrap();
    assert(a == trunc_rem(n as int, m as int));
    let b = (a + m).checked_rem(m).unwrap();
    assert(b == trunc_rem(a + m, m as int));
    proof {
        if m > 0 {
            lemma_wrapped_is_modulo(n as int, m as int);
        }
    }
    b as usize
}


/// The palette with colors `start..=end` moved one place forward and the
/// color at `end` wrapped round to `start`.
pub open spec fn rotated(p: Seq<[u8; 3]>, start: int, end: int) -> Seq<[u8; 3]> {
    Seq::new(
        p.len(),
        |i: int|
            if i == start {
                p[end]
            } else if start < i <= end {
                p[i - 1]
            } else {
                p[i]
            },
    )
}

/// Cycles colors `start..=end` of the palette one place forward.
pub fn rotate_palette(palette: &mut Vec<[u8; 3]>, start: usize, end: usize)
    requires
        start < end < old(palette)@.len(),
    ensures
        final(palette)@ == rotated(old(palette)@, start as int, end as int),
{
    let ghost p0 = palette@;
    let last = palette[end];
    let mut i = end;
    while i > start
        invariant
            start <= i <= end < p0.len(),
            palette@.len() == p0.len(),
            forall|k: int| 0 <= k <= i ==> #[trigger] palette@[k] == p0[k],
            forall|k: int| i < k <= end ==> #[trigger] palette@[k] == p0[k - 1],
            forall|k: int| end < k < p0.len() ==> #[trigger] palette@[k] == p0[k],
        decreases i - start,
    {
        let prev = palette[i - 1];
        palette.set(i, prev);
        i -= 1;
    }
    palette.set(start, last);
    assert(palette@ =~= rotated(p0, start as int, end as int));
}

/// How many ticks apart the palette cycles: the cycle speed divided by 1.5,
/// rounded down.
pub open spec fn cycle_period(cycle_speed: u8) -> int {
    (2 * cycle_speed as int) / 3
}

/// The palette cycles on this tick: the background cycles at all and the
/// tick is a multiple of the period (with only tick 0 a multiple of 0).
pub open spec fn cycles_at(tick: usize, cycle_speed: u8) -> bool {
    cycle_speed > 0 && if cycle_period(cycle_speed) == 0 {
        tick == 0
    } else {
        tick as int % cycle_period(cycle_speed) == 0
    }
}

/// The palette of a background after the palette cycling of one tick: each
/// of its two cycle ranges whose start lies before its end rotates one place.
pub open spec fn cycled(p: Seq<[u8; 3]>, bg: BackgroundEntry, tick: usize) -> Seq<[u8; 3]> {
    if cycles_at(tick, bg.cycle_speed) {
        let p1 = if bg.cycle1_start < bg.cycle1_end {
            rotated(p, bg.cycle1_start as int, bg.cycle1_end as int)
        } else {
            p
        };
        if bg.cycle2_start < bg.cycle2_end {
            rotated(p1, bg.cycle2_start as int, bg.cycle2_end as int)
        } else {
            p1
        }
    } else {
        p
    }
}

/// The cycle ranges of the background that cycle lie within the palette.
pub open spec fn cycle_ranges_fit(len: int, bg: BackgroundEntry) -> bool {
    &&& bg.cycle1_start < bg.cycle1_end ==> bg.cycle1_end < len
    &&& bg.cycle2_start < bg.cycle2_end ==> bg.cycle2_end < len
}

/// Whether the palette cycles on this tick.
pub fn palette_cycles_at(tick: usize, cycle_speed: u8) -> (r: bool)
    ensures
        r == cycles_at(tick, cycle_speed),
{
    if cycle_speed == 0 {
        return false;
    }
    let period = (2 * cycle_speed as usize) / 3;
    if period == 0 {
        tick == 0
    } else {
        tick % period == 0
    }
}

/// Cycles the palette of a background for one tick.
pub fn cycle_palette(palette: &mut Vec<[u8; 3]>, bg: &BackgroundEntry, tick: usize)
    requires
        cycles_at(tick, bg.cycle_speed) ==> cycle_ranges_fit(old(palette)@.len() as int, *bg),
    ensures
        final(palette)@ == cycled(old(palette)@, *bg, tick),
{
    if palette_cycles_at(tick, bg.cycle_speed) {
        if bg.cycle1_start < bg.cycle1_end {
            rotate_palette(palette, bg.cycle1_start as usize, bg.cycle1_end as usize);
        }
        if bg.cycle2_start < bg.cycle2_end {
            rotate_palette(palette, bg.cycle2_start as usize, bg.cycle2_end as usize);
        }
    }
}

/// The current effect has run its course: the tick, counted in seconds of
/// 60 ticks, tens of them, exceeds the duration read as an index (a negative
/// duration never runs out).
pub fn effect_expired(tick: usize, duration: i16) -> (r: bool)
    ensures
        r == ((tick / 60) / 10 > duration as usize),
{
    (tick / 60) / 10 > duration as usize
}


// ---------------------------------------------------------------------------
// The animation state of one background
// ---------------------------------------------------------------------------

/// The effect shown for slot `slot` of background `bg`: the slot's effect.
pub open spec fn shown_effect(data: SaturnBgData, bg: int, slot: int) -> DistortionEffect {
    data.slot_effect(bg, slot)
}

/// What the animation of one background keeps from tick to tick: the image
/// (palette indices, row by row) and the current palette, the background and
/// effect slot shown, the scroll speeds and positions, and the ticks since the
/// effect began.
pub struct SaturnState {
    pub framebuf: Vec<u8>,
    pub palette: Vec<[u8; 3]>,
    pub bg_index: usize,
    pub effect_index: usize,
    pub speed_x: u8,
    pub speed_y: u8,
    pub scroll_x: u32,
    pub scroll_y: u32,
    pub tick: usize,
}

impl SaturnState {
    /// The image is 256x256 and each of its pixels indexes a color of the
    /// palette.
    pub open spec fn wf(&self) -> bool {
        &&& self.framebuf@.len() == 256 * 256
        &&& forall|py: int, px: int|
            0 <= py < 256 && 0 <= px < 256 ==> (#[trigger] self.framebuf@[py * 256 + px]) < self.palette@.len()
    }

    /// The state shows a background of `data` that can be animated, with a
    /// palette as long as the background's.
    pub open spec fn shows(&self, data: SaturnBgData) -> bool {
        &&& self.wf()
        &&& data.spec_can_show(self.bg_index as int)
        &&& self.effect_index < 4
        &&& self.palette@.len() == data.palettes@[data.backgrounds@[self.bg_index as int].palette_index as int].unwrap().colors@.len()
    }

    /// The state is where background `bg_index` starts with effect slot
    /// `effect_index`: its image and palette, its initial scroll speeds, no
    /// scrolling yet and no ticks.
    pub open spec fn starts(&self, data: SaturnBgData, bg_index: int, effect_index: int) -> bool {
        let bg = data.backgrounds@[bg_index];
        &&& self.bg_index == bg_index
        &&& self.effect_index == effect_index
        &&& forall|py: int, px: int|
            0 <= py < 256 && 0 <= px < 256 ==> #[trigger] self.framebuf@[py * 256 + px]
                == data.framebuffer_pixel(bg_index, py, px)
        &&& self.palette@ == data.palettes@[bg.palette_index as int].unwrap().colors@
        &&& self.speed_x == bg.movement[0]
        &&& self.speed_y == bg.movement[1]
        &&& self.scroll_x == 0
        &&& self.scroll_y == 0
        &&& self.tick == 0
    }

    /// Starts background `bg_index` with effect slot `effect_index`.
    pub fn start(data: &SaturnBgData, bg_index: usize, effect_index: usize) -> (s: Self)
        requires
            data.spec_can_show(bg_index as int),
            effect_index < 4,
        ensures
            s.starts(*data, bg_index as int, effect_index as int),
            s.shows(*data),
    {
        let framebuf = data.get_framebuffer(bg_index);
        let palette = data.get_palette(bg_index);
        let bg = &data.backgrounds[bg_index];
        let s = SaturnState {
            framebuf,
            palette,
            bg_index,
            effect_index,
            speed_x: bg.movement[0],
            speed_y: bg.movement[1],
            scroll_x: 0,
            scroll_y: 0,
            tick: 0,
        };
        proof {
            let g = data.backgrounds@[bg_index as int].graphics_index as int;
            let p = data.backgrounds@[bg_index as int].palette_index as int;
            assert forall|py: int, px: int| 0 <= py < 256 && 0 <= px < 256 implies (#[trigger] s.framebuf@[py
                * 256 + px]) < s.palette@.len() by {
                let entry = data.arrangements@[g].grid[py / 8][px / 8];
                assert(0 <= py / 8 < 32 && 0 <= px / 8 < 32);
                assert(entry.tile_index < data.tiles@[g].unwrap().tiles@.len());
                let tx = if entry.h_flip { 7 - px % 8 } else { px % 8 };
                let ty = if entry.v_flip { 7 - py % 8 } else { py % 8 };
                assert(data.tiles@[g].unwrap().tiles@[entry.tile_index as int][ty][tx] < data.palettes@[p].unwrap().colors@.len());
            }
        }
        s
    }

    /// Picks, at random, one of the backgrounds offered (see
    /// `SaturnBgData::valid_indices`) and an effect slot, and starts it.
    /// `None` when no background is offered, or when the one drawn cannot be
    /// animated.
    pub fn pick(data: &SaturnBgData, no_giygas: bool) -> (r: Option<Self>)
        requires
            forall|i: int| 0 <= i < BG_ENTRIES ==> #[trigger] data.background_in_range(i),
        ensures
            data.offered_prefix(no_giygas, BG_ENTRIES as int).len() == 0 ==> r is None,
            data.offered_prefix(no_giygas, BG_ENTRIES as int).len() > 0 && (forall|i: int|
                0 <= i < BG_ENTRIES && #[trigger] data.offered(no_giygas, i) ==> data.spec_can_show(i)) ==> r is Some,
            r matches Some(s) ==> {
                &&& data.offered(no_giygas, s.bg_index as int)
                &&& s.effect_index < 4
                &&& s.starts(*data, s.bg_index as int, s.effect_index as int)
                &&& s.shows(*data)
            },
    {
        let indices = data.valid_indices(no_giygas);
        if indices.len() == 0 {
            return None;
        }
        proof {
            data.lemma_offered_prefix(no_giygas, BG_ENTRIES as int);
        }
        let k = crate::random::random_below(indices.len());
        let bg_index = indices[k];
        assert(data.offered(no_giygas, bg_index as int));
        Self::begin(data, bg_index)
    }

    /// Starts background `bg_index` with an effect slot drawn at random;
    /// `None` when the background cannot be animated.
    pub fn begin(data: &SaturnBgData, bg_index: usize) -> (r: Option<Self>)
        ensures
            r is Some <==> data.spec_can_show(bg_index as int),
            r matches Some(s) ==> {
                &&& s.effect_index < 4
                &&& s.starts(*data, bg_index as int, s.effect_index as int)
                &&& s.shows(*data)
            },
    {
        let effect_index = crate::random::random_below(4);
        if !data.can_show(bg_index) {
            return None;
        }
        Some(Self::start(data, bg_index, effect_index))
    }

    /// The first half of a tick: when the current effect has run its course
    /// the next slot's effect takes over (with the initial scroll speeds and
    /// the tick count restarted); the speeds then accelerate and the scroll
    /// positions advance, wrapping round; and the palette cycles. Returns the
    /// effect to draw with.
    pub fn begin_tick(&mut self, data: &SaturnBgData) -> (effect: DistortionEffect)
        requires
            old(self).shows(*data),
        ensures
            final(self).shows(*data),
            ({
                let bg = old(self).bg_index as int;
                let entry = data.backgrounds@[bg];
                let expired = (old(self).tick / 60) / 10 > shown_effect(*data, bg, old(self).effect_index as int).duration as usize;
                let slot = if expired { (old(self).effect_index + 1) % 4 } else { old(self).effect_index as int };
                let tick = if expired { 0 } else { old(self).tick };
                let sx = if expired { entry.movement[0] } else { old(self).speed_x };
                let sy = if expired { entry.movement[1] } else { old(self).speed_y };
                &&& effect == shown_effect(*data, bg, slot)
                &&& final(self).bg_index == old(self).bg_index
                &&& final(self).effect_index == slot
                &&& final(self).tick == tick
                &&& final(self).speed_x == (sx + entry.movement[2]) % 256
                &&& final(self).speed_y == (sy + entry.movement[3]) % 256
                &&& final(self).scroll_x == (old(self).scroll_x + final(self).speed_x) % 0x1_0000_0000
                &&& final(self).scroll_y == (old(self).scroll_y + final(self).speed_y) % 0x1_0000_0000
                &&& final(self).palette@ == cycled(old(self).palette@, entry, tick)
                &&& final(self).palette@.to_multiset() == old(self).palette@.to_multiset()
                &&& forall|i: int|
                    0 <= i < old(self).palette@.len() && !in_cycling_range(entry, tick, i)
                        ==> #[trigger] final(self).palette@[i] == old(self).palette@[i]
                &&& final(self).framebuf@ == old(self).framebuf@
            }),
    {
        let bg = &data.backgrounds[self.bg_index];
        let mut effect = *data.get_effect(self.bg_index, self.effect_index);
        if effect_expired(self.tick, effect.duration) {
            let new_idx = (self.effect_index + 1) % 4;
            effect = *data.get_effect(self.bg_index, new_idx);
            self.effect_index = new_idx;
            self.speed_x = bg.movement[0];
            self.speed_y = bg.movement[1];
            self.tick = 0;
        }
        let accel_x = bg.movement[2];
        let accel_y = bg.movement[3];
        self.speed_x = self.speed_x.wrapping_add(accel_x);
        self.speed_y = self.speed_y.wrapping_add(accel_y);
        self.scroll_x = self.scroll_x.wrapping_add(self.speed_x as u32);
        self.scroll_y = self.scroll_y.wrapping_add(self.speed_y as u32);
        let ghost before = self.palette@;
        cycle_palette(&mut self.palette, bg, self.tick);
        proof {
            lemma_cycled_len(before, *bg, self.tick);
            lemma_cycled_is_permutation(before, *bg, self.tick);
        }
        effect
    }

    /// The second half of a tick: the current effect has run one tick more.
    pub fn end_tick(&mut self)
        requires
            old(self).tick < usize::MAX,
        ensures
            final(self).tick == old(self).tick + 1,
            final(self).framebuf@ == old(self).framebuf@,
            final(self).palette@ == old(self).palette@,
            final(self).bg_index == old(self).bg_index,
            final(self).effect_index == old(self).effect_index,
            final(self).speed_x == old(self).speed_x,
            final(self).speed_y == old(self).speed_y,
            final(self).scroll_x == old(self).scroll_x,
            final(self).scroll_y == old(self).scroll_y,
    {
        self.tick += 1;
    }

    /// The color of the image at row `src_y` and column `src_x`, distorted
    /// by an effect of type `distortion_type` whose wave moves this row by
    /// `wave` pixels, with `compressed` the row that vertical compression
    /// maps `src_y` to. Rows and columns wrap round the 256x256 image.
    pub fn sample(&self, distortion_type: u8, wave: i32, compressed: i32, src_y: usize, src_x: usize) -> (color: [u8; 3])
        requires
            self.wf(),
            -0x4000_0000 < wave < 0x4000_0000,
            -0x4000_0000 < compressed < 0x4000_0000,
            src_y < 0x4000_0000,
            src_x < 0x4000_0000,
        ensures
            color == self.palette@[self.framebuf@[sample_line(distortion_type, wave as int, compressed as int, src_y as int) * 256
                + sample_column(distortion_type, wave as int, src_y as int, src_x as int)] as int],
    {
        let offset: i32 = if distortion_type == DistortionEffect::INTERLACE && src_y % 2 == 0 {
            -wave
        } else {
            wave
        };
        let line = if distortion_type == DistortionEffect::VERTICAL {
            modulo(offset + compressed, 256)
        } else {
            modulo(src_y as i32, 256)
        };
        let px = if distortion_type == DistortionEffect::HORIZONTAL || distortion_type == DistortionEffect::INTERLACE {
            modulo(src_x as i32 + offset, 256)
        } else {
            modulo(src_x as i32, 256)
        };
        let idx = self.framebuf[line * 256 + px] as usize;
        self.palette[idx]
    }
}

/// The horizontal shift that a wave of `wave` pixels gives row `src_y`:
/// interlaced effects shift the even rows the other way.
pub open spec fn wave_offset(distortion_type: u8, wave: int, src_y: int) -> int {
    if distortion_type == DistortionEffect::INTERLACE && src_y % 2 == 0 {
        -wave
    } else {
        wave
    }
}

/// The image row sampled for row `src_y`: vertical effects take the
/// compressed row moved by the wave, the others the row itself.
pub open spec fn sample_line(distortion_type: u8, wave: int, compressed: int, src_y: int) -> int {
    if distortion_type == DistortionEffect::VERTICAL {
        (wave_offset(distortion_type, wave, src_y) + compressed) % 256
    } else {
        src_y % 256
    }
}

/// The image column sampled for column `src_x`: horizontal and interlaced
/// effects move it by the wave, the others leave it.
pub open spec fn sample_column(distortion_type: u8, wave: int, src_y: int, src_x: int) -> int {
    if distortion_type == DistortionEffect::HORIZONTAL || distortion_type == DistortionEffect::INTERLACE {
        (src_x + wave_offset(distortion_type, wave, src_y)) % 256
    } else {
        src_x % 256
    }
}

/// The image tiles the plane: moving the sampled row or column by a whole
/// image (256 pixels) samples the same pixel.
pub proof fn lemma_sample_wraps(distortion_type: u8, wave: int, compressed: int, src_y: int, src_x: int)
    requires
        src_y >= 0,
        src_x >= 0,
    ensures
        sample_column(distortion_type, wave, src_y, src_x + 256) == sample_column(distortion_type, wave, src_y, src_x),
        sample_column(distortion_type, wave, src_y + 256, src_x) == sample_column(distortion_type, wave, src_y, src_x),
        sample_line(distortion_type, wave, compressed, src_y + 256) == sample_line(distortion_type, wave, compressed, src_y),
{
    let o = wave_offset(distortion_type, wave, src_y);
    assert(wave_offset(distortion_type, wave, src_y + 256) == o) by {
        vstd::arithmetic::div_mod::lemma_mod_add_multiples_vanish(src_y, 2);
        assert(src_y + 256 == 2 * 128 + src_y);
    }
    vstd::arithmetic::div_mod::lemma_mod_add_multiples_vanish(src_x + o, 256);
    vstd::arithmetic::div_mod::lemma_mod_add_multiples_vanish(src_x, 256);
    vstd::arithmetic::div_mod::lemma_mod_add_multiples_vanish(src_y, 256);
}

/// Where each kind of effect samples the image, written out: a horizontal
/// effect moves every row right by the wave; an interlaced one moves the
/// odd rows right and the even rows left, so the two rows of each pair
/// part in opposite directions; a vertical effect keeps the column and
/// takes the compressed row moved by the wave; any other effect samples
/// the pixel itself. Rows and columns are taken modulo 256.
pub proof fn lemma_distortion_offsets(distortion_type: u8, wave: int, compressed: int, src_y: int, src_x: int)
    ensures
        distortion_type == DistortionEffect::HORIZONTAL ==> {
            &&& sample_column(distortion_type, wave, src_y, src_x) == (src_x + wave) % 256
            &&& sample_line(distortion_type, wave, compressed, src_y) == src_y % 256
        },
        distortion_type == DistortionEffect::INTERLACE ==> {
            &&& src_y % 2 == 0 ==> sample_column(distortion_type, wave, src_y, src_x) == (src_x - wave) % 256
            &&& src_y % 2 == 1 ==> sample_column(distortion_type, wave, src_y, src_x) == (src_x + wave) % 256
            &&& sample_line(distortion_type, wave, compressed, src_y) == src_y % 256
        },
        distortion_type == DistortionEffect::VERTICAL ==> {
            &&& sample_column(distortion_type, wave, src_y, src_x) == src_x % 256
            &&& sample_line(distortion_type, wave, compressed, src_y) == (compressed + wave) % 256
        },
        distortion_type != DistortionEffect::HORIZONTAL && distortion_type != DistortionEffect::INTERLACE
            && distortion_type != DistortionEffect::VERTICAL ==> {
            &&& sample_column(distortion_type, wave, src_y, src_x) == src_x % 256
            &&& sample_line(distortion_type, wave, compressed, src_y) == src_y % 256
        },
{
}

/// The image row shown at half-row `half_row` of a screen `virt_h`
/// half-rows high (two per terminal row): the screen spread over the 256
/// rows, scrolled down by `scroll_y` in 128ths of a row, and lifted by 12.
pub fn source_row(half_row: usize, virt_h: usize, scroll_y: u32) -> (r: usize)
    requires
        half_row < virt_h,
        virt_h <= usize::MAX / 256,
    ensures
        r == (half_row * 256 / (virt_h as int) + scroll_y / 128 - 12) % 256,
{
    proof {
        assert(half_row * 256 < virt_h * 256) by (nonlinear_arith)
            requires
                half_row < virt_h,
        ;
        vstd::arithmetic::div_mod::lemma_multiply_divide_lt(half_row * 256, virt_h as int, 256);
    }
    let v = half_row * 256 / virt_h + (scroll_y / 128) as usize;
    modulo(v as i32 - 12, 256)
}

/// The image column shown at column `x` of a screen `cols` columns wide:
/// the screen spread over the 256 columns, scrolled right by `scroll_x` in
/// 256ths of a column.
pub fn source_column(x: usize, cols: usize, scroll_x: u32) -> (r: usize)
    requires
        x < cols,
        cols <= usize::MAX / 256,
    ensures
        r == x * 256 / (cols as int) + scroll_x / 256,
{
    proof {
        assert(x * 256 < cols * 256) by (nonlinear_arith)
            requires
                x < cols,
        ;
        vstd::arithmetic::div_mod::lemma_multiply_divide_lt(x * 256, cols as int, 256);
    }
    x * 256 / cols + (scroll_x / 256) as usize
}

/// Cycling keeps the length of the palette.
proof fn lemma_cycled_len(p: Seq<[u8; 3]>, bg: BackgroundEntry, tick: usize)
    ensures
        cycled(p, bg, tick).len() == p.len(),
{
}

/// Palette cycling only moves colors round: rotating colors `start..=end`
/// gives a permutation of the palette in which the color at `end` comes to
/// `start`, each other color of the range moves one place on, and the colors
/// outside the range stay where they are.
pub proof fn lemma_rotation_is_permutation(p: Seq<[u8; 3]>, start: int, end: int)
    requires
        0 <= start < end < p.len(),
    ensures
        rotated(p, start, end).len() == p.len(),
        rotated(p, start, end).to_multiset() == p.to_multiset(),
        rotated(p, start, end)[start] == p[end],
        forall|i: int| start < i <= end ==> #[trigger] rotated(p, start, end)[i] == p[i - 1],
        forall|i: int|
            0 <= i < p.len() && !(start <= i <= end) ==> #[trigger] rotated(p, start, end)[i] == p[i],
{
    let a = p.take(start);
    let b = p.subrange(start, end);
    let c = p.skip(end + 1);
    let last = seq![p[end]];
    assert(rotated(p, start, end) =~= a + (last + (b + c)));
    assert(p =~= a + (b + (last + c)));
    vstd::seq_lib::lemma_multiset_commutative(a, last + (b + c));
    vstd::seq_lib::lemma_multiset_commutative(last, b + c);
    vstd::seq_lib::lemma_multiset_commutative(b, c);
    vstd::seq_lib::lemma_multiset_commutative(a, b + (last + c));
    vstd::seq_lib::lemma_multiset_commutative(b, last + c);
    vstd::seq_lib::lemma_multiset_commutative(last, c);
    broadcast use vstd::multiset::group_multiset_axioms;

    assert(rotated(p, start, end).to_multiset() =~= p.to_multiset());
}

/// Color `i` lies in a range of the background that cycles on this tick.
pub open spec fn in_cycling_range(bg: BackgroundEntry, tick: usize, i: int) -> bool {
    &&& cycles_at(tick, bg.cycle_speed)
    &&& {
        ||| bg.cycle1_start < bg.cycle1_end && bg.cycle1_start <= i <= bg.cycle1_end
        ||| bg.cycle2_start < bg.cycle2_end && bg.cycle2_start <= i <= bg.cycle2_end
    }
}

/// A tick of palette cycling only reorders the palette: the colors after it
/// are a permutation of those before, and each color outside the ranges
/// that cycle on this tick stays where it is.
pub proof fn lemma_cycled_is_permutation(p: Seq<[u8; 3]>, bg: BackgroundEntry, tick: usize)
    requires
        cycles_at(tick, bg.cycle_speed) ==> cycle_ranges_fit(p.len() as int, bg),
    ensures
        cycled(p, bg, tick).len() == p.len(),
        cycled(p, bg, tick).to_multiset() == p.to_multiset(),
        forall|i: int|
            0 <= i < p.len() && !in_cycling_range(bg, tick, i) ==> #[trigger] cycled(p, bg, tick)[i] == p[i],
{
    if cycles_at(tick, bg.cycle_speed) {
        let p1 = if bg.cycle1_start < bg.cycle1_end {
            lemma_rotation_is_permutation(p, bg.cycle1_start as int, bg.cycle1_end as int);
            rotated(p, bg.cycle1_start as int, bg.cycle1_end as int)
        } else {
            p
        };
        if bg.cycle2_start < bg.cycle2_end {
            lemma_rotation_is_permutation(p1, bg.cycle2_start as int, bg.cycle2_end as int);
        }
    }
}

/// The palette after `k` rotations of colors `start..=end`.
pub open spec fn rotated_times(p: Seq<[u8; 3]>, start: int, end: int, k: nat) -> Seq<[u8; 3]>
    decreases k,
{
    if k == 0 {
        p
    } else {
        rotated(rotated_times(p, start, end, (k - 1) as nat), start, end)
    }
}

/// After `k` rotations each color of the range has moved `k` places
/// forward, wrapping round within the range.
proof fn lemma_rotated_times(p: Seq<[u8; 3]>, start: int, end: int, k: nat)
    requires
        0 <= start < end < p.len(),
    ensures
        rotated_times(p, start, end, k).len() == p.len(),
        forall|i: int|
            0 <= i < p.len() ==> #[trigger] rotated_times(p, start, end, k)[i] == if start <= i <= end {
                p[start + (i - start - k) % (end - start + 1)]
            } else {
                p[i]
            },
    decreases k,
{
    let n = end - start + 1;
    if k == 0 {
        assert forall|i: int| 0 <= i < p.len() implies #[trigger] rotated_times(p, start, end, k)[i] == if start <= i <= end {
            p[start + (i - start - k) % n]
        } else {
            p[i]
        } by {
            if start <= i <= end {
                vstd::arithmetic::div_mod::lemma_small_mod((i - start) as nat, n as nat);
            }
        }
    } else {
        lemma_rotated_times(p, start, end, (k - 1) as nat);
        let x = rotated_times(p, start, end, (k - 1) as nat);
        assert forall|i: int| 0 <= i < p.len() implies #[trigger] rotated_times(p, start, end, k)[i] == if start <= i <= end {
            p[start + (i - start - k) % n]
        } else {
            p[i]
        } by {
            if i == start {
                vstd::arithmetic::div_mod::lemma_mod_add_multiples_vanish(-(k as int), n);
                assert(end - start - (k - 1) == n + (-(k as int)));
            }
            vstd::arithmetic::div_mod::lemma_mod_bound(i - start - k, n);
        }
    }
}

/// Palette cycling comes round: rotating colors `start..=end` as many times
/// as the range has colors gives the palette back.
pub proof fn lemma_rotation_period(p: Seq<[u8; 3]>, start: int, end: int)
    requires
        0 <= start < end < p.len(),
    ensures
        rotated_times(p, start, end, (end - start + 1) as nat) == p,
{
    let n = end - start + 1;
    lemma_rotated_times(p, start, end, n as nat);
    assert forall|i: int| 0 <= i < p.len() implies #[trigger] rotated_times(p, start, end, n as nat)[i] == p[i] by {
        if start <= i <= end {
            vstd::arithmetic::div_mod::lemma_mod_add_multiples_vanish(i - start - n, n);
            vstd::arithmetic::div_mod::lemma_small_mod((i - start) as nat, n as nat);
        }
    }
    assert(rotated_times(p, start, end, n as nat) =~= p);
}

} // verus!
