use the_game::game::texture_column;
use the_game::{Game, Player, TextureAtlas};

fn flat_atlas() -> TextureAtlas {
    TextureAtlas::new(128, 64, vec![7u8; 128 * 64 * 3]).unwrap()
}

fn frame_rgba(frame: &[u8], x: usize, y: usize) -> (u8, u8, u8, u8) {
    let off = (y * 320 + x) * 4;
    (frame[off], frame[off + 1], frame[off + 2], frame[off + 3])
}

#[test]
fn atlas_new_checks_dimensions() {
    assert!(TextureAtlas::new(128, 64, vec![0u8; 128 * 64 * 3]).is_some());
    assert!(TextureAtlas::new(128, 64, vec![0u8; 128 * 64 * 3 - 1]).is_none());
    assert!(TextureAtlas::new(128, 64, vec![0u8; 128 * 64]).is_none());
}

#[test]
fn atlas_sample_reads_back() {
    let mut data = vec![0u8; 4 * 2 * 3];
    // texel (3, 1) of a 4 x 2 atlas
    let off = (1 * 4 + 3) * 3;
    data[off] = 11;
    data[off + 1] = 22;
    data[off + 2] = 33;
    let atlas = TextureAtlas::new(4, 2, data).unwrap();
    assert_eq!(atlas.sample(3, 1), (11, 22, 33));
    assert_eq!(atlas.sample(0, 0), (0, 0, 0));
}

#[test]
fn atlas_decodes_bmp_bytes() {
    let mut img = bmp::Image::new(4, 3);
    img.set_pixel(0, 0, bmp::Pixel::new(10, 20, 30));
    img.set_pixel(3, 2, bmp::Pixel::new(40, 50, 60));
    let mut bytes: Vec<u8> = Vec::new();
    img.to_writer(&mut bytes).unwrap();
    let atlas = TextureAtlas::from_bmp_bytes(&bytes).expect("well-formed bitmap");
    assert_eq!(atlas.width, 4);
    assert_eq!(atlas.height, 3);
    assert_eq!(atlas.sample(0, 0), (10, 20, 30));
    assert_eq!(atlas.sample(3, 2), (40, 50, 60));
    assert_eq!(atlas.sample(1, 1), (0, 0, 0));
}

#[test]
fn atlas_rejects_garbage_bytes() {
    assert!(TextureAtlas::from_bmp_bytes(&vec![1u8, 2, 3, 4]).is_none());
}

#[test]
fn atlas_rejects_palettized_header() {
    // valid magic and version-3 header, but 8 bits per pixel: the simple-
    // bitmap gate turns it away before the decoder ever sees it
    let mut b = vec![0u8; 54];
    b[0] = 66;
    b[1] = 77;
    b[14] = 40;
    b[18] = 4;
    b[22] = 4;
    b[26] = 1;
    b[28] = 8;
    assert!(TextureAtlas::from_bmp_bytes(&b).is_none());
}

#[test]
fn atlas_survives_truncated_pixel_data() {
    // a well-formed simple header whose pixel data is cut short decodes
    // without failing: the decoder pads the missing texels
    let img = bmp::Image::new(4, 3);
    let mut bytes: Vec<u8> = Vec::new();
    img.to_writer(&mut bytes).unwrap();
    bytes.truncate(58);
    let atlas = TextureAtlas::from_bmp_bytes(&bytes).expect("header is well-formed");
    assert_eq!(atlas.width, 4);
    assert_eq!(atlas.height, 3);
}

#[test]
fn new_game_spawns_player() {
    let g = Game::new(flat_atlas());
    assert_eq!(g.player.x, 70000);
    assert_eq!(g.player.y, 30000);
    assert_eq!(g.player.angle, 300000);
}

#[test]
fn render_twice_is_byte_identical() {
    let mut g = Game::new(flat_atlas());
    let first = g.render().clone();
    let second = g.render().clone();
    assert_eq!(first.len(), 320 * 240 * 4);
    assert_eq!(first, second);
}

#[test]
fn render_composes_backdrop_hud_and_marker() {
    let mut g = Game::new(flat_atlas());
    let frame = g.render().clone();
    // minimap: tile (0, 0) is a wall drawn black, tile (1, 1) open floor
    assert_eq!(frame_rgba(&frame, 0, 0), (0, 0, 0, 255));
    assert_eq!(frame_rgba(&frame, 5, 5), (50, 50, 150, 255));
    // player marker at the scaled spawn position, drawn last
    assert_eq!(frame_rgba(&frame, 28, 12), (255, 0, 0, 255));
    // sky above and ground below, outside every overlay and wall slice
    assert_eq!(frame_rgba(&frame, 319, 0), (50, 50, 180, 255));
    assert_eq!(frame_rgba(&frame, 319, 239), (50, 50, 40, 255));
}

#[test]
fn update_player_moves_forward_when_free() {
    let mut g = Game::new(flat_atlas());
    g.update_player(10000, 0, false);
    // heading stays 30 degrees: cos gives 8648/10000, sin exactly 1/2
    assert_eq!(g.player.angle, 300000);
    assert_eq!(g.player.x, 78648);
    assert_eq!(g.player.y, 35000);
}

#[test]
fn update_player_strafes_perpendicular_to_heading() {
    let mut g = Game::new(flat_atlas());
    g.update_player(10000, 0, true);
    // heading 30 degrees: strafe direction is (-sin 30, cos 30)
    assert_eq!(g.player.x, 65000);
    assert_eq!(g.player.y, 38648);
}

#[test]
fn update_player_rolls_back_colliding_move() {
    let mut g = Game::new(flat_atlas());
    // turn to 270 degrees and push 3 units toward the top wall
    g.update_player(30000, 2400000, false);
    assert_eq!(g.player.angle, 2700000);
    assert_eq!(g.player.x, 70000);
    assert_eq!(g.player.y, 30000);
}

#[test]
fn update_player_normalizes_heading() {
    let mut g = Game::new(flat_atlas());
    g.update_player(0, 3600000, false);
    assert_eq!(g.player.angle, 300000);
    g.update_player(0, -600000, false);
    assert_eq!(g.player.angle, 3300000);
}

#[test]
fn update_player_accepts_move_clear_of_walls() {
    let mut g = Game::new(flat_atlas());
    g.player = Player { x: 80000, y: 80000, angle: 0 };
    g.update_player(10000, 0, false);
    // interior of the map, far from every wall corner
    assert_eq!(g.player.x, 90000);
    assert_eq!(g.player.y, 80000);
}

#[test]
fn texture_column_stays_in_variant_block() {
    // fractional offset 0 maps to the first column of the variant's block
    assert_eq!(texture_column(0, 1), 0);
    assert_eq!(texture_column(0, 2), 64);
    // just below a tile boundary still lands at column 0
    assert_eq!(texture_column(-1, 1), 0);
    // the extreme offsets stay inside the 64-column block
    assert_eq!(texture_column(-5000, 1), 32);
    assert_eq!(texture_column(4999, 1), 31);
    assert_eq!(texture_column(-5000, 2), 96);
    assert_eq!(texture_column(4999, 2), 95);
}
