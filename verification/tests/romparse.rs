use whoa::anim::saturn::romparse::{
    ArrangementEntry, DistortionEffect, MalformedRom, SaturnBgData, ARRANGEMENT_PTR_OFFSET,
    BG_ENTRY_OFFSET, DISTORTION_OFFSET, PALETTE_PTR_OFFSET, TILESET_PTR_OFFSET,
};
use whoa::anim::saturn::{source_column, source_row, SaturnState};

const ROM_LEN: usize = 0xB4000;
const PALETTE_AT: usize = 0xB1000;
const TILES_AT: usize = 0xB1100;
const ARRANGEMENT_AT: usize = 0xB1200;

/// The console address of a position in the data.
fn address_of(offset: usize) -> u32 {
    (offset - 0x200 + 0xC00000) as u32
}

fn put_pointer(rom: &mut [u8], table: usize, i: usize, offset: usize) {
    let addr = address_of(offset).to_le_bytes();
    rom[table + 4 * i..table + 4 * i + 4].copy_from_slice(&addr);
}

/// A data image with one real background (number 1): graphics 1, palette 2,
/// 2 bits per pixel, and the given compressed arrangement.
fn build_rom(arrangement: &[u8]) -> Vec<u8> {
    let mut rom = vec![0u8; ROM_LEN];
    let bg = BG_ENTRY_OFFSET + 17;
    let entry = [1u8, 2, 2, 0, 1, 3, 0, 0, 3, 1, 2, 3, 4, 5, 6, 7, 8];
    rom[bg..bg + 17].copy_from_slice(&entry);

    // palette 2: four colors
    put_pointer(&mut rom, PALETTE_PTR_OFFSET, 2, PALETTE_AT);
    let words: [u16; 4] = [0x7FFF, 0x001F, 0x03E0, 0x7C00];
    for (k, w) in words.iter().enumerate() {
        rom[PALETTE_AT + 2 * k..PALETTE_AT + 2 * k + 2].copy_from_slice(&w.to_le_bytes());
    }

    // tile set 1: one tile, row 0 has plane 0 = 0xFF and plane 1 = 0x0F
    put_pointer(&mut rom, TILESET_PTR_OFFSET, 1, TILES_AT);
    let mut tiles = vec![15u8, 0xFF, 0x0F];
    tiles.extend_from_slice(&[0u8; 14]);
    tiles.push(0xFF);
    rom[TILES_AT..TILES_AT + tiles.len()].copy_from_slice(&tiles);

    // arrangement 1
    put_pointer(&mut rom, ARRANGEMENT_PTR_OFFSET, 1, ARRANGEMENT_AT);
    rom[ARRANGEMENT_AT..ARRANGEMENT_AT + arrangement.len()].copy_from_slice(arrangement);

    // effect 5: duration 0x0102, horizontal, frequency -2, amplitude 100, speed 3
    let e = DISTORTION_OFFSET + 17 * 5;
    let effect = [0x02u8, 0x01, 1, 0xFE, 0xFF, 100, 0, 99, 0, 0, 0, 0, 0, 0, 3, 0, 0];
    rom[e..e + 17].copy_from_slice(&effect);
    rom
}

/// All 32x32 references with only the horizontal flip bit set.
fn flipped_arrangement() -> Vec<u8> {
    // two runs of the pair (0x00, 0x40), 1024 pairs each... one run of 1024 pairs is 2048 bytes
    vec![0xEB, 0xFF, 0x00, 0x40, 0xFF]
}

fn entry(a: &ArrangementEntry) -> (u16, u8, bool, bool) {
    (a.tile_index, a.sub_palette, a.h_flip, a.v_flip)
}

#[test]
fn from_rom_decodes_background_entries() {
    let data = SaturnBgData::from_rom(&build_rom(&flipped_arrangement())).unwrap();
    assert_eq!(data.backgrounds.len(), 327);
    let bg = &data.backgrounds[1];
    assert_eq!(bg.graphics_index, 1);
    assert_eq!(bg.palette_index, 2);
    assert_eq!(bg.bpp, 2);
    assert_eq!(bg.cycle1_start, 1);
    assert_eq!(bg.cycle1_end, 3);
    assert_eq!(bg.cycle_speed, 3);
    assert_eq!(bg.movement, [1, 2, 3, 4]);
    assert_eq!(bg.effects, [5, 6, 7, 8]);
}

#[test]
fn from_rom_decodes_palettes() {
    let data = SaturnBgData::from_rom(&build_rom(&flipped_arrangement())).unwrap();
    assert_eq!(data.palettes.len(), 114);
    let colors = &data.palettes[2].as_ref().unwrap().colors;
    assert_eq!(colors, &vec![[248, 248, 248], [248, 0, 0], [0, 248, 0], [0, 0, 248]]);
    // palette 0 is used with a null pointer; palette 1 is used by nobody
    assert!(data.palettes[0].is_none());
    assert!(data.palettes[1].is_none());
}

#[test]
fn from_rom_decodes_tiles() {
    let data = SaturnBgData::from_rom(&build_rom(&flipped_arrangement())).unwrap();
    assert_eq!(data.tiles.len(), 103);
    let tiles = &data.tiles[1].as_ref().unwrap().tiles;
    assert_eq!(tiles.len(), 1);
    assert_eq!(tiles[0][0], [1, 1, 1, 1, 3, 3, 3, 3]);
    assert_eq!(tiles[0][1], [0; 8]);
    assert!(data.tiles[0].is_none());
}

#[test]
fn from_rom_decodes_effects() {
    let data = SaturnBgData::from_rom(&build_rom(&flipped_arrangement())).unwrap();
    assert_eq!(data.effects.len(), 135);
    let e = &data.effects[5];
    assert_eq!(e.duration, 0x0102);
    assert_eq!(e.distortion_type, DistortionEffect::HORIZONTAL);
    assert_eq!(e.frequency, -2);
    assert_eq!(e.amplitude, 100);
    assert_eq!(e.speed, 3);
    assert!(!e.is_empty());
    assert!(data.effects[6].is_empty());
}

#[test]
fn decompressed_arrangement_with_pair_run() {
    let data = SaturnBgData::from_rom(&build_rom(&flipped_arrangement())).unwrap();
    assert_eq!(data.arrangements.len(), 103);
    for row in data.arrangements[1].grid.iter() {
        for e in row.iter() {
            assert_eq!(entry(e), (0, 0, true, false));
        }
    }
    // arrangement 0 has a null pointer: every reference is blank
    assert_eq!(entry(&data.arrangements[0].grid[5][5]), (0, 0, false, false));
}

#[test]
fn decompressed_forward_copy_repeats_with_period() {
    // two literal bytes, then 1024 and 1022 bytes copied from position 0
    let arrangement = vec![0x01, 0x01, 0x00, 0xF3, 0xFF, 0x00, 0x00, 0xF3, 0xFD, 0x00, 0x00, 0xFF];
    let data = SaturnBgData::from_rom(&build_rom(&arrangement)).unwrap();
    for row in data.arrangements[1].grid.iter() {
        for e in row.iter() {
            assert_eq!(entry(e), (1, 0, false, false));
        }
    }
}

#[test]
fn decompressed_bit_reversed_copy_alternates() {
    // literal (0x01, 0x80), 1024 bytes copied bit-reversed from 0, then 1022 copied from 0
    let arrangement = vec![0x01, 0x01, 0x80, 0xF7, 0xFF, 0x00, 0x00, 0xF3, 0xFD, 0x00, 0x00, 0xFF];
    let data = SaturnBgData::from_rom(&build_rom(&arrangement)).unwrap();
    let grid = &data.arrangements[1].grid;
    assert_eq!(entry(&grid[0][0]), (1, 0, false, true));
    assert_eq!(entry(&grid[0][1]), (0x180, 0, false, false));
    assert_eq!(entry(&grid[0][2]), (1, 0, false, true));
    assert_eq!(entry(&grid[0][3]), (0x180, 0, false, false));
}

#[test]
fn decompressed_backward_copy_and_counting_run() {
    // literal 1 2 3 4, 4 bytes read backwards from 3, a run 0xFE 0xFF 0x00 0x01,
    // then runs of zeros up to 2048 bytes
    let arrangement = vec![
        0x03, 1, 2, 3, 4, // literal
        0xC3, 0x00, 0x03, // backwards from position 3, 4 bytes
        0x63, 0xFE, // counting run of 4
        0xE7, 0xFF, 0x00, // 1024 zeros
        0xE7, 0xF3, 0x00, // 1012 zeros
        0xFF,
    ];
    let data = SaturnBgData::from_rom(&build_rom(&arrangement)).unwrap();
    let grid = &data.arrangements[1].grid;
    assert_eq!(entry(&grid[0][0]), (0x201, 0, false, false));
    assert_eq!(entry(&grid[0][1]), (0x003, 1, false, false));
    assert_eq!(entry(&grid[0][2]), (0x304, 0, false, false));
    assert_eq!(entry(&grid[0][3]), (0x102, 0, false, false));
    assert_eq!(entry(&grid[0][4]), (0x3FE, 7, true, true));
    assert_eq!(entry(&grid[0][5]), (0x100, 0, false, false));
    assert_eq!(entry(&grid[31][31]), (0, 0, false, false));
}

#[test]
fn from_rom_refuses_truncated_data() {
    assert_eq!(SaturnBgData::from_rom(&[0u8; 100]).err(), Some(MalformedRom));
    let rom = build_rom(&flipped_arrangement());
    assert!(SaturnBgData::from_rom(&rom[..DISTORTION_OFFSET + 17 * 135 - 1]).is_err());
}

#[test]
fn from_rom_refuses_bad_address() {
    let mut rom = build_rom(&flipped_arrangement());
    rom[PALETTE_PTR_OFFSET + 8..PALETTE_PTR_OFFSET + 12].copy_from_slice(&0x123456u32.to_le_bytes());
    assert!(SaturnBgData::from_rom(&rom).is_err());
}

#[test]
fn from_rom_refuses_unknown_command() {
    let mut rom = build_rom(&flipped_arrangement());
    rom[TILES_AT] = 0xFC;
    assert!(SaturnBgData::from_rom(&rom).is_err());
}

#[test]
fn from_rom_refuses_copy_outside_output() {
    let rom = build_rom(&[0x80, 0x00, 0x05, 0xFF]);
    assert!(SaturnBgData::from_rom(&rom).is_err());
}

#[test]
fn from_rom_refuses_short_arrangement() {
    let rom = build_rom(&[0x01, 0x00, 0x00, 0xFF]);
    assert!(SaturnBgData::from_rom(&rom).is_err());
}

#[test]
fn new_decodes_valid_data() {
    let data = SaturnBgData::new(&build_rom(&flipped_arrangement()));
    assert_eq!(data.backgrounds[1].palette_index, 2);
}

#[test]
fn valid_indices_skips_blacklisted_and_missing() {
    let data = SaturnBgData::from_rom(&build_rom(&flipped_arrangement())).unwrap();
    assert_eq!(data.valid_indices(false), vec![1]);
    assert_eq!(data.valid_indices(true), vec![1]);
    assert!(data.index_is_valid(1));
    assert!(!data.index_is_valid(2));
}

#[test]
fn valid_indices_filters_giygas() {
    let mut rom = build_rom(&flipped_arrangement());
    let bg = BG_ENTRY_OFFSET + 17 * 220;
    rom[bg] = 1;
    rom[bg + 1] = 2;
    rom[bg + 2] = 2;
    let data = SaturnBgData::from_rom(&rom).unwrap();
    assert_eq!(data.valid_indices(false), vec![1, 220]);
    assert_eq!(data.valid_indices(true), vec![1]);
    assert!(SaturnBgData::BLACKLISTED.contains(&0));
    assert!(SaturnBgData::GIYGAS.contains(&220));
}

#[test]
fn framebuffer_mirrors_flipped_tiles() {
    let data = SaturnBgData::from_rom(&build_rom(&flipped_arrangement())).unwrap();
    let f = data.get_framebuffer(1);
    assert_eq!(f.len(), 256 * 256);
    assert_eq!(&f[0..8], &[3, 3, 3, 3, 1, 1, 1, 1]);
    assert_eq!(&f[8..16], &[3, 3, 3, 3, 1, 1, 1, 1]);
    assert_eq!(f[256], 0);
    assert_eq!(f[8 * 256 + 4], 1);
}

#[test]
fn palette_of_background() {
    let data = SaturnBgData::from_rom(&build_rom(&flipped_arrangement())).unwrap();
    assert_eq!(data.get_palette(1), vec![[248, 248, 248], [248, 0, 0], [0, 248, 0], [0, 0, 248]]);
}

#[test]
fn get_effect_returns_the_asked_slot() {
    let data = SaturnBgData::from_rom(&build_rom(&flipped_arrangement())).unwrap();
    // slots 0..4 hold effects 5, 6, 7 and 8; only effect 5 is not empty
    assert_eq!(data.get_effect(1, 0), &data.effects[5]);
    assert_eq!(data.get_effect(1, 1), &data.effects[6]);
    assert!(data.get_effect(1, 1).is_empty());
    assert_eq!(data.get_effect(1, 3), &data.effects[8]);
}

#[test]
fn get_effect_all_empty_returns_asked_slot() {
    let data = SaturnBgData::from_rom(&build_rom(&flipped_arrangement())).unwrap();
    // background 2 uses effect 0 in all four slots, which is empty
    assert!(data.get_effect(2, 2).is_empty());
    assert_eq!(data.get_effect(2, 2), &data.effects[0]);
}

#[test]
fn distortion_effect_is_empty_ignores_duration_and_type() {
    let mut e = DistortionEffect::default();
    assert!(e.is_empty());
    e.duration = 40;
    e.distortion_type = DistortionEffect::VERTICAL;
    assert!(e.is_empty());
    e.comp_accel = 1;
    assert!(!e.is_empty());
    assert_eq!(DistortionEffect::INTERLACE, 2);
}

#[test]
fn can_show_only_complete_backgrounds() {
    let data = SaturnBgData::from_rom(&build_rom(&flipped_arrangement())).unwrap();
    assert!(data.can_show(1));
    assert!(!data.can_show(0));
    assert!(!data.can_show(2));
    assert!(!data.can_show(400));
}

#[test]
fn saturn_state_starts_at_rest() {
    let data = SaturnBgData::from_rom(&build_rom(&flipped_arrangement())).unwrap();
    let s = SaturnState::start(&data, 1, 2);
    assert_eq!(s.bg_index, 1);
    assert_eq!(s.effect_index, 2);
    assert_eq!((s.speed_x, s.speed_y), (1, 2));
    assert_eq!((s.scroll_x, s.scroll_y, s.tick), (0, 0, 0));
    assert_eq!(s.framebuf, data.get_framebuffer(1));
    assert_eq!(s.palette, data.get_palette(1));
}

#[test]
fn saturn_state_pick_takes_an_offered_background() {
    let data = SaturnBgData::from_rom(&build_rom(&flipped_arrangement())).unwrap();
    for no_giygas in [true, false] {
        let s = SaturnState::pick(&data, no_giygas).unwrap();
        assert_eq!(s.bg_index, 1);
        assert!(s.effect_index < 4);
        assert_eq!(s.tick, 0);
    }
}

#[test]
fn saturn_begin_tick_scrolls_and_cycles() {
    let data = SaturnBgData::from_rom(&build_rom(&flipped_arrangement())).unwrap();
    let mut s = SaturnState::start(&data, 1, 0);
    let e = s.begin_tick(&data);
    assert_eq!(e, data.effects[5]);
    assert_eq!(s.effect_index, 0);
    // movement [1, 2, 3, 4]: speeds accelerate by 3 and 4, then scroll
    assert_eq!((s.speed_x, s.speed_y), (4, 6));
    assert_eq!((s.scroll_x, s.scroll_y), (4, 6));
    // cycle speed 3 cycles every 2 ticks, colors 1..=3
    assert_eq!(s.palette, vec![[248, 248, 248], [0, 0, 248], [248, 0, 0], [0, 248, 0]]);
    s.tick += 1;
    s.begin_tick(&data);
    assert_eq!((s.speed_x, s.speed_y), (7, 10));
    assert_eq!((s.scroll_x, s.scroll_y), (11, 16));
    assert_eq!(s.palette, vec![[248, 248, 248], [0, 0, 248], [248, 0, 0], [0, 248, 0]]);
}

#[test]
fn saturn_begin_tick_moves_to_next_slot_when_effect_runs_out() {
    let data = SaturnBgData::from_rom(&build_rom(&flipped_arrangement())).unwrap();
    let mut s = SaturnState::start(&data, 1, 0);
    s.speed_x = 250;
    s.scroll_x = u32::MAX;
    // effect 5 lasts 0x0102 = 258; 259 tens of seconds have passed
    s.tick = 259 * 600;
    let e = s.begin_tick(&data);
    assert_eq!(s.effect_index, 1);
    assert_eq!(s.tick, 0);
    // slot 1 holds effect 6, which is empty
    assert_eq!(e, data.effects[6]);
    assert_eq!(s.speed_x, 4);
    assert_eq!(s.scroll_x, 3);
}

#[test]
fn saturn_begin_tick_wraps_speeds() {
    let data = SaturnBgData::from_rom(&build_rom(&flipped_arrangement())).unwrap();
    let mut s = SaturnState::start(&data, 1, 0);
    s.speed_x = 254;
    s.tick = 1;
    s.begin_tick(&data);
    assert_eq!(s.speed_x, 1);
    assert_eq!(s.scroll_x, 1);
}

#[test]
fn saturn_sample_follows_the_distortion() {
    let data = SaturnBgData::from_rom(&build_rom(&flipped_arrangement())).unwrap();
    let s = SaturnState::start(&data, 1, 0);
    let red = [248, 0, 0];
    let blue = [0, 0, 248];
    let white = [248, 248, 248];
    // no distortion: column 0 of row 0 is color 3
    assert_eq!(s.sample(0, 4, 0, 0, 0), blue);
    // horizontal: shifted right by 4
    assert_eq!(s.sample(DistortionEffect::HORIZONTAL, 4, 0, 0, 0), red);
    // interlaced: even rows shift the other way, column 252
    assert_eq!(s.sample(DistortionEffect::INTERLACE, 4, 0, 0, 0), red);
    // odd row 1 is blank
    assert_eq!(s.sample(DistortionEffect::INTERLACE, 4, 0, 1, 0), white);
    // vertical: the compressed row moved by the wave
    assert_eq!(s.sample(DistortionEffect::VERTICAL, 1, 7, 0, 0), blue);
    assert_eq!(s.sample(DistortionEffect::VERTICAL, 0, 1, 0, 0), white);
    // rows and columns wrap round
    assert_eq!(s.sample(0, 0, 0, 256, 260), red);
}

#[test]
fn source_rows_and_columns() {
    assert_eq!(source_row(0, 48, 0), 244);
    assert_eq!(source_row(47, 48, 128 * 10), 248);
    assert_eq!(source_row(24, 48, 0), 116);
    assert_eq!(source_column(79, 80, 512), 254);
    assert_eq!(source_column(0, 80, 0), 0);
    assert_eq!(source_column(40, 80, 255), 128);
}

#[test]
fn saturn_state_begin_only_complete_backgrounds() {
    let data = SaturnBgData::from_rom(&build_rom(&flipped_arrangement())).unwrap();
    let s = SaturnState::begin(&data, 1).unwrap();
    assert_eq!(s.bg_index, 1);
    assert!(s.effect_index < 4);
    assert!(SaturnState::begin(&data, 0).is_none());
    assert!(SaturnState::begin(&data, 1000).is_none());
}

#[test]
fn saturn_end_tick_counts_one_more_tick() {
    let data = SaturnBgData::from_rom(&build_rom(&flipped_arrangement())).unwrap();
    let mut s = SaturnState::start(&data, 1, 0);
    s.begin_tick(&data);
    let (sx, sy, cx, cy) = (s.speed_x, s.speed_y, s.scroll_x, s.scroll_y);
    s.end_tick();
    assert_eq!(s.tick, 1);
    assert_eq!((s.speed_x, s.speed_y, s.scroll_x, s.scroll_y), (sx, sy, cx, cy));
}

#[test]
fn decoding_the_same_data_twice_gives_the_same_backgrounds() {
    let rom = build_rom(&flipped_arrangement());
    let a = SaturnBgData::new(&rom);
    let b = SaturnBgData::new(&rom);
    assert_eq!(a.effects, b.effects);
    assert_eq!(a.get_palette(1), b.get_palette(1));
    assert_eq!(a.get_framebuffer(1), b.get_framebuffer(1));
    assert_eq!(a.valid_indices(true), b.valid_indices(true));
}
