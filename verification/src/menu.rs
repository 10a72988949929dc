//! The menu before the game: what the keys do, and the picture behind
//! the choices.

use vstd::prelude::*;
use vstd::arithmetic::div_mod::lemma_multiply_divide_le;
use crate::framebuffer::{Color, Framebuffer};
use crate::geometry::{fit_inside, fitted};
use crate::textures::{TextureAtlas, UV_ONE};

verus! {

/// How the menu ends.
#[derive(Clone, Copy, Debug, PartialEq, Eq, Structural)]
pub enum MenuAction {
    StartLevel(i32),
    Quit,
}

/// Which page of the menu shows.
#[derive(Clone, Copy, Debug, PartialEq, Eq, Structural)]
pub enum MenuState {
    Main,
    LevelSelect,
}

/// The menu: its page, the choice marked on the first page (0 to play,
/// 1 to leave) and the level marked on the second (1 to 3).
#[derive(Clone, Copy, Debug, PartialEq, Eq, Structural)]
pub struct Menu {
    pub state: MenuState,
    pub main_selection: usize,
    pub level_selection: i32,
}

/// The keys that went down since the last look.
#[derive(Clone, Copy, Debug)]
pub struct MenuKeys {
    pub down: bool,
    pub up: bool,
    pub enter: bool,
    pub escape: bool,
    pub quit: bool,
}

/// The other choice of the first page.
pub open spec fn other_choice(selection: int) -> int {
    (selection + 1) % 2
}

/// The level after `level`, the first after the last.
pub open spec fn level_below(level: int) -> int {
    if level < 3 {
        level + 1
    } else {
        1
    }
}

/// The level before `level`, the last before the first.
pub open spec fn level_above(level: int) -> int {
    if level > 1 {
        level - 1
    } else {
        3
    }
}

/// The menu after a look at the keys, and how it ends if it does. The
/// keys count in this order: down, up, enter, escape, quit.
///
/// On the first page down and up both move the mark to the other
/// choice; enter opens the second page from "play" and ends the menu
/// from "leave". On the second page down and up move the mark through
/// the levels, round and round; enter starts the marked level; escape
/// goes back. Quit ends the menu on either page.
pub open spec fn menu_after(menu: Menu, keys: MenuKeys) -> (Menu, Option<MenuAction>) {
    match menu.state {
        MenuState::Main => {
            let s1 = if keys.down {
                other_choice(menu.main_selection as int)
            } else {
                menu.main_selection as int
            };
            let s2 = if keys.up {
                other_choice(s1)
            } else {
                s1
            };
            let marked = Menu { main_selection: s2 as usize, ..menu };
            if keys.enter && s2 != 0 {
                (marked, Some(MenuAction::Quit))
            } else {
                let turned = if keys.enter {
                    Menu { state: MenuState::LevelSelect, ..marked }
                } else {
                    marked
                };
                if keys.quit {
                    (turned, Some(MenuAction::Quit))
                } else {
                    (turned, None)
                }
            }
        },
        MenuState::LevelSelect => {
            let l1 = if keys.down {
                level_below(menu.level_selection as int)
            } else {
                menu.level_selection as int
            };
            let l2 = if keys.up {
                level_above(l1)
            } else {
                l1
            };
            let marked = Menu { level_selection: l2 as i32, ..menu };
            if keys.enter {
                (marked, Some(MenuAction::StartLevel(l2 as i32)))
            } else {
                let turned = if keys.escape {
                    Menu { state: MenuState::Main, ..marked }
                } else {
                    marked
                };
                if keys.quit {
                    (turned, Some(MenuAction::Quit))
                } else {
                    (turned, None)
                }
            }
        },
    }
}

impl Menu {
    /// The menu as it opens: the first page, "play" marked, and the first
    /// level.
    pub fn new() -> (menu: Menu)
        ensures
            menu == (Menu { state: MenuState::Main, main_selection: 0, level_selection: 1 }),
    {
        Menu { state: MenuState::Main, main_selection: 0, level_selection: 1 }
    }
}

/// Takes the keys into account, and says how the menu ends if it does.
pub fn menu_step(menu: &mut Menu, keys: &MenuKeys) -> (action: Option<MenuAction>)
    ensures
        (*final(menu), action) == menu_after(*old(menu), *keys),
{
    match menu.state {
        MenuState::Main => {
            if keys.down {
                menu.main_selection = (menu.main_selection % 2 + 1) % 2;
            }
            if keys.up {
                menu.main_selection = (menu.main_selection % 2 + 1) % 2;
            }
            if keys.enter {
                if menu.main_selection == 0 {
                    menu.state = MenuState::LevelSelect;
                } else {
                    return Some(MenuAction::Quit);
                }
            }
            if keys.quit {
                return Some(MenuAction::Quit);
            }
            None
        },
        MenuState::LevelSelect => {
            if keys.down {
                menu.level_selection = if menu.level_selection < 3 {
                    menu.level_selection + 1
                } else {
                    1
                };
            }
            if keys.up {
                menu.level_selection = if menu.level_selection > 1 {
                    menu.level_selection - 1
                } else {
                    3
                };
            }
            if keys.enter {
                return Some(MenuAction::StartLevel(menu.level_selection));
            }
            if keys.escape {
                menu.state = MenuState::Main;
            }
            if keys.quit {
                return Some(MenuAction::Quit);
            }
            None
        },
    }
}

/// The dark colour around the menu's picture.
pub open spec fn menu_surround() -> Color {
    Color { r: 8, g: 8, b: 16, a: 255 }
}

/// The part `x / steps` as a texture coordinate; `x` itself where
/// `steps` is less than 1.
pub open spec fn part_of(x: int, steps: int) -> int {
    (x * UV_ONE) / (if steps < 1 {
        1
    } else {
        steps
    })
}

/// The colour of pixel `(px, py)` of the menu's background in a frame
/// `width` by `height`. With a picture, the picture is fitted into the
/// middle of the frame, its corners on the corners of its place, and the
/// rest is dark. Without one, the pattern that stands in for it fills
/// the frame.
pub open spec fn menu_pixel(textures: &TextureAtlas, width: int, height: int, px: int, py: int) -> Color {
    match textures.menu {
        Some(img) => {
            let (tw, th) = fitted(width, height, img.w as int, img.h as int);
            let ox = (width - tw) / 2;
            let oy = (height - th) / 2;
            if ox <= px < ox + tw && oy <= py < oy + th {
                textures.menu_spec(part_of(px - ox, tw - 1), part_of(py - oy, th - 1))
            } else {
                menu_surround()
            }
        },
        None => textures.menu_spec(part_of(px, width), part_of(py, height)),
    }
}

/// The part `x / steps` as a texture coordinate.
fn part(x: u32, steps: u32) -> (u: u32)
    requires
        x <= steps || (steps == 0 && x == 0),
    ensures
        u == part_of(x as int, steps as int),
        u <= UV_ONE,
{
    let by: u64 = if steps < 1 { 1 } else { steps as u64 };
    proof {
        assert(0 <= x * 65536 <= by * 65536) by (nonlinear_arith)
            requires
                0 <= x <= by,
        ;
        lemma_multiply_divide_le(x * 65536, by as int, 65536);
        assert((x * 65536) / (by as int) >= 0) by (nonlinear_arith)
            requires
                x * 65536 >= 0,
                by > 0,
        ;
    }
    (((x as u64) * (UV_ONE as u64)) / by) as u32
}

/// The colour of one pixel of the menu's background.
fn menu_color(textures: &TextureAtlas, width: u32, height: u32, px: u32, py: u32) -> (c: Color)
    requires
        px < width,
        py < height,
    ensures
        c == menu_pixel(textures, width as int, height as int, px as int, py as int),
{
    match &textures.menu {
        Some(img) => {
            let (tw, th) = fit_inside(width, height, img.w, img.h);
            let ox: u32 = (width - tw) / 2;
            let oy: u32 = (height - th) / 2;
            if ox <= px && px - ox < tw && oy <= py && py - oy < th {
                textures.sample_menu(part(px - ox, tw - 1), part(py - oy, th - 1))
            } else {
                Color { r: 8, g: 8, b: 16, a: 255 }
            }
        },
        None => textures.sample_menu(part(px, width), part(py, height)),
    }
}

/// Fills the frame with the menu's background.
pub fn draw_menu_background(framebuffer: &mut Framebuffer, textures: &TextureAtlas)
    requires
        old(framebuffer).wf(),
    ensures
        final(framebuffer).wf(),
        final(framebuffer).same_frame(old(framebuffer)),
        forall|px: int, py: int|
            final(framebuffer).has_pixel(px, py) ==> #[trigger] final(framebuffer).pixel(px, py)
                == menu_pixel(
                textures,
                old(framebuffer).width as int,
                old(framebuffer).height as int,
                px,
                py,
            ),
{
    let width: u32 = framebuffer.width;
    let height: u32 = framebuffer.height;
    let mut y: u32 = 0;
    while y < height
        invariant
            framebuffer.wf(),
            framebuffer.same_frame(old(framebuffer)),
            width == framebuffer.width,
            height == framebuffer.height,
            y <= height,
            forall|px: int, py: int|
                framebuffer.has_pixel(px, py) && py < y ==> #[trigger] framebuffer.pixel(px, py)
                    == menu_pixel(textures, width as int, height as int, px, py),
        decreases height - y,
    {
        let mut x: u32 = 0;
        while x < width
            invariant
                framebuffer.wf(),
                framebuffer.same_frame(old(framebuffer)),
                width == framebuffer.width,
                height == framebuffer.height,
                y < height,
                x <= width,
                forall|px: int, py: int|
                    framebuffer.has_pixel(px, py) && (py < y || (py == y && px < x))
                        ==> #[trigger] framebuffer.pixel(px, py) == menu_pixel(
                        textures,
                        width as int,
                        height as int,
                        px,
                        py,
                    ),
            decreases width - x,
        {
            let c: Color = menu_color(textures, width, height, x, y);
            framebuffer.set_pixel_color(x, y, c);
            x = x + 1;
        }
        y = y + 1;
    }
}

/// The colour of pixel `(px, py)` of the closing screen in a frame
/// `width` by `height`: the closing picture stretched over the whole
/// frame, where there is one, and `under` where there is none.
pub open spec fn closing_pixel(
    textures: &TextureAtlas,
    width: int,
    height: int,
    under: Color,
    px: int,
    py: int,
) -> Color {
    if textures.game_over is Some {
        textures.gameover_spec(part_of(px, width), part_of(py, height))
    } else {
        under
    }
}

/// Fills the frame with the closing picture, stretched to the size of
/// the frame. Without a closing picture the frame stays as it is.
pub fn draw_closing_screen(framebuffer: &mut Framebuffer, textures: &TextureAtlas)
    requires
        old(framebuffer).wf(),
    ensures
        final(framebuffer).wf(),
        final(framebuffer).same_frame(old(framebuffer)),
        forall|px: int, py: int|
            final(framebuffer).has_pixel(px, py) ==> #[trigger] final(framebuffer).pixel(px, py)
                == closing_pixel(
                textures,
                old(framebuffer).width as int,
                old(framebuffer).height as int,
                old(framebuffer).pixel(px, py),
                px,
                py,
            ),
{
    if textures.game_over.is_none() {
        return;
    }
    let width: u32 = framebuffer.width;
    let height: u32 = framebuffer.height;
    let mut y: u32 = 0;
    while y < height
        invariant
            framebuffer.wf(),
            framebuffer.same_frame(old(framebuffer)),
            width == framebuffer.width,
            height == framebuffer.height,
            textures.game_over is Some,
            y <= height,
            forall|px: int, py: int|
                framebuffer.has_pixel(px, py) ==> #[trigger] framebuffer.pixel(px, py) == (if py
                    < y {
                    closing_pixel(
                        textures,
                        width as int,
                        height as int,
                        old(framebuffer).pixel(px, py),
                        px,
                        py,
                    )
                } else {
                    old(framebuffer).pixel(px, py)
                }),
        decreases height - y,
    {
        let v: u32 = part(y, height);
        let mut x: u32 = 0;
        while x < width
            invariant
                framebuffer.wf(),
                framebuffer.same_frame(old(framebuffer)),
                width == framebuffer.width,
                height == framebuffer.height,
                textures.game_over is Some,
                y < height,
                x <= width,
                v == part_of(y as int, height as int),
                forall|px: int, py: int|
                    framebuffer.has_pixel(px, py) ==> #[trigger] framebuffer.pixel(px, py) == (
                    if py < y || (py == y && px < x) {
                        closing_pixel(
                            textures,
                            width as int,
                            height as int,
                            old(framebuffer).pixel(px, py),
                            px,
                            py,
                        )
                    } else {
                        old(framebuffer).pixel(px, py)
                    }),
            decreases width - x,
        {
            let c: Color = textures.sample_gameover(part(x, width), v);
            framebuffer.set_pixel_color(x, y, c);
            x = x + 1;
        }
        y = y + 1;
    }
}

} // verus!
