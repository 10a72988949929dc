use maze_raycaster::framebuffer::Color;
use maze_raycaster::textures::{
    encoding_of_name, first_loaded, load_texture, Encoding, ImageBuf, TextureAtlas, TextureFile,
    TextureKind, TextureSources, UV_ONE,
};

const RGBA_2X1: [u8; 74] = [
    137, 80, 78, 71, 13, 10, 26, 10, 0, 0, 0, 13, 73, 72, 68, 82, 0, 0, 0, 2, 0, 0, 0, 1, 8, 6, 0,
    0, 0, 244, 34, 127, 138, 0, 0, 0, 17, 73, 68, 65, 84, 120, 156, 99, 96, 100, 98, 102, 97, 101,
    99, 231, 0, 0, 0, 129, 0, 37, 152, 117, 208, 159, 0, 0, 0, 0, 73, 69, 78, 68, 174, 66, 96,
    130,
];

const RGB_1X2: [u8; 73] = [
    137, 80, 78, 71, 13, 10, 26, 10, 0, 0, 0, 13, 73, 72, 68, 82, 0, 0, 0, 1, 0, 0, 0, 2, 8, 2, 0,
    0, 0, 22, 227, 33, 112, 0, 0, 0, 16, 73, 68, 65, 84, 120, 156, 99, 224, 228, 96, 103, 96, 99,
    101, 1, 0, 0, 186, 0, 40, 114, 164, 97, 30, 0, 0, 0, 0, 73, 69, 78, 68, 174, 66, 96, 130,
];

fn rgba(r: u8, g: u8, b: u8, a: u8) -> Color {
    Color { r, g, b, a }
}

fn image(w: u32, h: u32, data: &[u8]) -> Option<ImageBuf> {
    Some(ImageBuf { w, h, data: data.to_vec() })
}

fn png(bytes: &[u8]) -> TextureFile {
    TextureFile { encoding: Encoding::Png, bytes: bytes.to_vec() }
}

fn no_sources() -> TextureSources {
    TextureSources {
        wall: Vec::new(),
        pillar: Vec::new(),
        npc: Vec::new(),
        sky: Vec::new(),
        floor: Vec::new(),
        menu: Vec::new(),
        game_over: Vec::new(),
        coin: Vec::new(),
        door_closed: Vec::new(),
        door_open: Vec::new(),
    }
}

#[test]
fn a_missing_wall_texture_is_a_chessboard() {
    let atlas = TextureAtlas::empty();
    let even = rgba(200, 180, 160, 255);
    let odd = rgba(140, 120, 100, 255);
    assert_eq!(UV_ONE, 65536);
    assert_eq!(atlas.sample(TextureKind::Wall, 0, 0), even);
    assert_eq!(atlas.sample(TextureKind::Wall, 8191, 0), even);
    assert_eq!(atlas.sample(TextureKind::Wall, 8192, 0), odd);
    assert_eq!(atlas.sample(TextureKind::Wall, 8192, 8192), even);
    assert_eq!(atlas.sample(TextureKind::Pillar, 32768, 40960), odd);
    assert_eq!(atlas.sample(TextureKind::DoorOpen, 65535, 0), odd);
    // Coordinates wrap.
    assert_eq!(atlas.sample(TextureKind::DoorClosed, 65536 + 8192, 65536 * 3), odd);
    assert_eq!(atlas.texture_height(TextureKind::Wall), 32);
}

#[test]
fn a_wall_texture_is_blended_between_its_pixels() {
    let mut atlas = TextureAtlas::empty();
    atlas.wall = image(2, 1, &[255, 0, 0, 255, 0, 0, 255, 255]);
    assert_eq!(atlas.sample(TextureKind::Wall, 0, 0), rgba(255, 0, 0, 255));
    assert_eq!(atlas.sample(TextureKind::Wall, 32768, 0), rgba(127, 0, 127, 255));
    assert_eq!(atlas.sample(TextureKind::Wall, 16384, 12345), rgba(191, 0, 63, 255));
    assert_eq!(atlas.sample(TextureKind::Wall, 65535, 0), rgba(0, 0, 254, 255));
    assert_eq!(atlas.texture_height(TextureKind::Wall), 1);
    atlas.pillar = image(1, 2, &[10, 20, 30, 255, 110, 120, 130, 55]);
    assert_eq!(atlas.sample(TextureKind::Pillar, 777, 32768), rgba(60, 70, 80, 155));
    assert_eq!(atlas.texture_height(TextureKind::Pillar), 2);
    // The other kinds have their own textures.
    atlas.door_open = image(1, 1, &[1, 2, 3, 4]);
    atlas.door_closed = image(1, 1, &[5, 6, 7, 8]);
    assert_eq!(atlas.sample(TextureKind::DoorOpen, 0, 0), rgba(1, 2, 3, 4));
    assert_eq!(atlas.sample(TextureKind::DoorClosed, 0, 0), rgba(5, 6, 7, 8));
}

#[test]
fn a_wall_pixel_without_opacity_counts_as_opaque() {
    let mut atlas = TextureAtlas::empty();
    atlas.wall = image(1, 1, &[10, 20, 30, 0]);
    assert_eq!(atlas.sample(TextureKind::Wall, 0, 0), rgba(10, 20, 30, 255));
    assert_eq!(atlas.sample(TextureKind::Wall, 40000, 50000), rgba(10, 20, 30, 255));
    atlas.wall = image(1, 1, &[10, 20, 30, 1]);
    assert_eq!(atlas.sample(TextureKind::Wall, 0, 0), rgba(10, 20, 30, 1));
}

#[test]
fn a_black_wall_sample_falls_back_to_the_pattern() {
    let mut atlas = TextureAtlas::empty();
    atlas.wall = image(1, 1, &[0, 0, 0, 255]);
    assert_eq!(atlas.sample(TextureKind::Wall, 0, 0), rgba(200, 180, 160, 255));
    assert_eq!(atlas.sample(TextureKind::Wall, 8192, 0), rgba(140, 120, 100, 255));
    atlas.wall = image(1, 1, &[0, 0, 1, 255]);
    assert_eq!(atlas.sample(TextureKind::Wall, 0, 0), rgba(0, 0, 1, 255));
}

#[test]
fn a_texture_without_pixels_falls_back_to_the_pattern() {
    let mut atlas = TextureAtlas::empty();
    let even = rgba(200, 180, 160, 255);
    atlas.wall = image(0, 5, &[1, 2, 3, 4]);
    assert_eq!(atlas.sample(TextureKind::Wall, 0, 0), even);
    atlas.wall = image(5, 0, &[1, 2, 3, 4]);
    assert_eq!(atlas.sample(TextureKind::Wall, 0, 0), even);
    atlas.wall = image(1, 1, &[1, 2, 3]);
    assert_eq!(atlas.sample(TextureKind::Wall, 0, 0), even);
    // Data that ends early reads as black, which falls back too.
    atlas.wall = image(2, 2, &[9, 9, 9, 9]);
    assert_eq!(atlas.sample(TextureKind::Wall, 65535, 65535), even);
    assert_eq!(atlas.sample(TextureKind::Wall, 0, 0), rgba(9, 9, 9, 9));
    atlas.npc = image(2, 2, &[9, 9, 9, 9]);
    assert_eq!(atlas.sample_npc(0, 0), Some(rgba(9, 9, 9, 9)));
    assert_eq!(atlas.sample_npc(40000, 0), None);
    atlas.npc = image(0, 1, &[9, 9, 9, 9]);
    assert_eq!(atlas.sample_npc(0, 0), None);
}

#[test]
fn a_sprite_keeps_its_own_opacity() {
    let mut atlas = TextureAtlas::empty();
    assert_eq!(atlas.sample_npc(0, 0), None);
    atlas.npc = image(2, 2, &[1, 1, 1, 0, 2, 2, 2, 20, 3, 3, 3, 30, 4, 4, 4, 40]);
    assert_eq!(atlas.sample_npc(0, 0), Some(rgba(1, 1, 1, 0)));
    assert_eq!(atlas.sample_npc(32767, 0), Some(rgba(1, 1, 1, 0)));
    assert_eq!(atlas.sample_npc(32768, 0), Some(rgba(2, 2, 2, 20)));
    assert_eq!(atlas.sample_npc(0, 32768), Some(rgba(3, 3, 3, 30)));
    assert_eq!(atlas.sample_npc(65535, 65535), Some(rgba(4, 4, 4, 40)));
    assert_eq!(atlas.sample_npc(65536, 65536 * 2), Some(rgba(1, 1, 1, 0)));
}

#[test]
fn the_sky_falls_back_to_a_gradient() {
    let mut atlas = TextureAtlas::empty();
    assert_eq!(atlas.sample_sky(0, 0), rgba(80, 160, 240, 255));
    assert_eq!(atlas.sample_sky(12345, 32768), rgba(120, 180, 240, 255));
    assert_eq!(atlas.sample_sky(0, 65535), rgba(159, 199, 240, 255));
    assert_eq!(atlas.sample_sky(0, 65536), rgba(80, 160, 240, 255));
    atlas.sky = image(1, 2, &[1, 2, 3, 4, 5, 6, 7, 8]);
    assert_eq!(atlas.sample_sky(0, 0), rgba(1, 2, 3, 4));
    assert_eq!(atlas.sample_sky(9, 40000), rgba(5, 6, 7, 8));
    // A sky pixel without any opacity counts as opaque.
    atlas.sky = image(1, 1, &[1, 2, 3, 0]);
    assert_eq!(atlas.sample_sky(0, 0), rgba(1, 2, 3, 255));
}

#[test]
fn the_floor_falls_back_to_a_chessboard() {
    let mut atlas = TextureAtlas::empty();
    assert_eq!(atlas.sample_floor(0, 0), rgba(120, 90, 60, 255));
    assert_eq!(atlas.sample_floor(10922, 0), rgba(120, 90, 60, 255));
    assert_eq!(atlas.sample_floor(10923, 0), rgba(100, 80, 60, 255));
    assert_eq!(atlas.sample_floor(10923, 10923), rgba(120, 90, 60, 255));
    // A floor pixel without any opacity counts as opaque, black too.
    atlas.floor = image(1, 1, &[0, 0, 0, 0]);
    assert_eq!(atlas.sample_floor(5, 5), rgba(0, 0, 0, 255));
    atlas.floor = image(1, 1, &[7, 8, 9, 3]);
    assert_eq!(atlas.sample_floor(5, 5), rgba(7, 8, 9, 3));
}

#[test]
fn the_screens_fall_back_to_gradients() {
    let mut atlas = TextureAtlas::empty();
    assert_eq!(atlas.sample_menu(0, 0), rgba(30, 20, 10, 255));
    assert_eq!(atlas.sample_menu(0, 32768), rgba(20, 15, 10, 255));
    assert_eq!(atlas.sample_gameover(0, 0), rgba(80, 10, 10, 255));
    assert_eq!(atlas.sample_gameover(0, 32768), rgba(50, 10, 10, 255));
    atlas.menu = image(1, 1, &[1, 2, 3, 4]);
    atlas.game_over = image(1, 1, &[5, 6, 7, 8]);
    assert_eq!(atlas.sample_menu(0, 32768), rgba(1, 2, 3, 4));
    assert_eq!(atlas.sample_gameover(0, 32768), rgba(5, 6, 7, 8));
}

#[test]
fn a_collectible_shows_the_frame_of_its_phase() {
    let mut atlas = TextureAtlas::empty();
    assert_eq!(atlas.sample_coin(0, 0, 0, 120), None);
    let mut data = Vec::new();
    for k in 0..24u8 {
        data.extend_from_slice(&[k, 0, 0, 255]);
    }
    atlas.coin = image(24, 1, &data);
    assert_eq!(atlas.sample_coin(0, 0, 0, 120), Some(rgba(0, 0, 0, 255)));
    assert_eq!(atlas.sample_coin(40000, 0, 0, 120), Some(rgba(1, 0, 0, 255)));
    assert_eq!(atlas.sample_coin(0, 0, 35, 120), Some(rgba(6, 0, 0, 255)));
    assert_eq!(atlas.sample_coin(40000, 0, 35, 120), Some(rgba(7, 0, 0, 255)));
    assert_eq!(atlas.sample_coin(65535, 65535, 119, 120), Some(rgba(23, 0, 0, 255)));
    assert_eq!(atlas.sample_coin(0, 0, 120, 120), Some(rgba(0, 0, 0, 255)));
    // A sheet too narrow for twelve frames shows nothing.
    atlas.coin = image(11, 1, &data);
    assert_eq!(atlas.sample_coin(0, 0, 0, 120), None);
}

#[test]
fn a_picture_is_decoded_to_four_bytes_a_pixel() {
    let img = load_texture(&vec![png(&RGBA_2X1)]).unwrap();
    assert_eq!((img.w, img.h), (2, 1));
    assert_eq!(img.data, vec![1, 2, 3, 4, 5, 6, 7, 8]);
    let img = load_texture(&vec![png(&RGB_1X2)]).unwrap();
    assert_eq!((img.w, img.h), (1, 2));
    assert_eq!(img.data, vec![9, 8, 7, 255, 6, 5, 4, 255]);
    assert_eq!(img.data.len(), 4 * img.w as usize * img.h as usize);
}

#[test]
fn the_first_candidate_that_decodes_is_taken() {
    assert!(load_texture(&Vec::new()).is_none());
    assert!(load_texture(&vec![png(&[1, 2, 3])]).is_none());
    assert!(load_texture(&vec![png(&[])]).is_none());
    let img = load_texture(&vec![png(&[1, 2, 3]), png(&RGB_1X2), png(&RGBA_2X1)]).unwrap();
    assert_eq!((img.w, img.h), (1, 2));
    let img = load_texture(&vec![png(&RGBA_2X1), png(&RGB_1X2)]).unwrap();
    assert_eq!((img.w, img.h), (2, 1));
    // Bytes of one encoding do not decode as the other.
    let wrong = TextureFile { encoding: Encoding::Jpeg, bytes: RGBA_2X1.to_vec() };
    let img = load_texture(&vec![wrong, png(&RGB_1X2)]).unwrap();
    assert_eq!((img.w, img.h), (1, 2));
    // A picture cut short does not decode.
    assert!(load_texture(&vec![png(&RGBA_2X1[..40])]).is_none());
}

#[test]
fn the_extension_names_the_encoding() {
    assert_eq!(encoding_of_name("wall.png"), Some(Encoding::Png));
    assert_eq!(encoding_of_name("Textura1_PARED.png"), Some(Encoding::Png));
    assert_eq!(encoding_of_name("floor.jpg"), Some(Encoding::Jpeg));
    assert_eq!(encoding_of_name("a.JPEG"), Some(Encoding::Jpeg));
    assert_eq!(encoding_of_name("a.JpG"), Some(Encoding::Jpeg));
    assert_eq!(encoding_of_name("a.jfif"), Some(Encoding::Jpeg));
    assert_eq!(encoding_of_name("a.b.apng"), Some(Encoding::Png));
    assert_eq!(encoding_of_name("Letra _R_ Amenazante en Pixel Art.png"), Some(Encoding::Png));
    assert_eq!(encoding_of_name("a.gif"), None);
    assert_eq!(encoding_of_name("a.pn"), None);
    assert_eq!(encoding_of_name("a.pngx"), None);
    assert_eq!(encoding_of_name("png"), None);
    assert_eq!(encoding_of_name(".png"), None);
    assert_eq!(encoding_of_name(".."), None);
    assert_eq!(encoding_of_name("."), None);
    assert_eq!(encoding_of_name("a..png"), Some(Encoding::Png));
    assert_eq!(encoding_of_name("a."), None);
    assert_eq!(encoding_of_name(""), None);
    assert_eq!(encoding_of_name("é.png"), Some(Encoding::Png));
    assert_eq!(encoding_of_name("a.pñg"), None);
}

#[test]
fn the_first_picture_of_a_list_is_kept() {
    assert!(first_loaded(Vec::new()).is_none());
    assert!(first_loaded(vec![None, None]).is_none());
    let got = first_loaded(vec![None, image(1, 1, &[1]), None, image(2, 2, &[2])]).unwrap();
    assert_eq!((got.w, got.h, got.data), (1, 1, vec![1]));
    let got = first_loaded(vec![image(3, 3, &[3])]).unwrap();
    assert_eq!(got.w, 3);
}

#[test]
fn an_atlas_loads_each_texture_from_its_candidates() {
    let mut sources = no_sources();
    sources.wall = vec![png(&[0]), png(&RGBA_2X1)];
    sources.coin = vec![png(&RGB_1X2)];
    sources.sky = vec![png(&[7, 7])];
    let atlas = TextureAtlas::new(&sources);
    assert_eq!(atlas.wall.as_ref().map(|i| (i.w, i.h)), Some((2, 1)));
    assert_eq!(atlas.coin.as_ref().map(|i| (i.w, i.h)), Some((1, 2)));
    assert!(atlas.sky.is_none());
    assert!(atlas.pillar.is_none());
    assert!(atlas.npc.is_none());
    assert!(atlas.floor.is_none());
    assert!(atlas.menu.is_none());
    assert!(atlas.game_over.is_none());
    assert!(atlas.door_closed.is_none());
    assert!(atlas.door_open.is_none());
    assert_eq!(atlas.sample(TextureKind::Wall, 0, 0), Color { r: 1, g: 2, b: 3, a: 4 });
}
