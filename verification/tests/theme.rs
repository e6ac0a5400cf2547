//! The palettes.

use xfx::tui::theme::{
    decided, depth_from_env, detect, from_colorfgbg, is_background_reply, parse_osc11, Depth, Mode,
    Palette, DIVIDER, HINT, NOTICE,
};

#[test]
fn an_osc_eleven_reply_is_light_above_half_luminance() {
    // A luminance over 32768 is light.
    assert_eq!(
        parse_osc11("\u{1b}]11;rgb:ffff/ffff/ffff\u{1b}\\"),
        Some(Mode::Light)
    );
    assert_eq!(
        parse_osc11("\u{1b}]11;rgb:0000/0000/0000\u{1b}\\"),
        Some(Mode::Dark)
    );
    assert_eq!(
        parse_osc11("\u{1b}]11;rgb:1c1c/1c1c/1c1c\u{07}"),
        Some(Mode::Dark)
    );
    assert_eq!(parse_osc11("not a reply"), None);
}

#[test]
fn colorfgbg_is_read_when_the_terminal_will_not_answer() {
    assert_eq!(from_colorfgbg("15;0"), Some(Mode::Dark));
    assert_eq!(from_colorfgbg("0;15"), Some(Mode::Light));
    assert_eq!(from_colorfgbg("nonsense"), None);
}

#[test]
fn the_precedence_is_the_environment_then_the_query_then_colorfgbg_then_dark() {
    assert_eq!(
        detect(Some("light"), Some(Mode::Dark), Some("15;0")),
        Mode::Light
    );
    assert_eq!(detect(None, Some(Mode::Light), Some("15;0")), Mode::Light);
    assert_eq!(detect(None, None, Some("0;15")), Mode::Light);
    assert_eq!(detect(None, None, None), Mode::Dark);
    assert_eq!(detect(Some("nonsense"), None, None), Mode::Dark);
}

#[test]
fn truecolor_is_gated_on_colorterm_and_apple_terminal_is_downgraded() {
    assert_eq!(depth_from_env(Some("truecolor"), None), Depth::TrueColor);
    assert_eq!(depth_from_env(Some("24bit"), None), Depth::TrueColor);
    assert_eq!(
        depth_from_env(Some("truecolor"), Some("Apple_Terminal")),
        Depth::Ansi256
    );
    assert_eq!(depth_from_env(None, None), Depth::Ansi256);
}

#[test]
fn the_two_palettes_differ_and_both_end_a_run_the_same_way() {
    let dark = Palette {
        mode: Mode::Dark,
        depth: Depth::Ansi256,
    };
    let light = Palette {
        mode: Mode::Light,
        depth: Depth::Ansi256,
    };
    assert_eq!(dark.reset(), "\u{1b}[0m");
    assert_eq!(light.reset(), "\u{1b}[0m");
    assert_ne!(
        dark.hint(),
        light.hint(),
        "the two palettes paint identically"
    );
    assert_ne!(dark.divider(), light.divider());
}

#[test]
fn every_shade_is_spelled_the_same_in_both_notations() {
    // The greys are 256-colour indices, and the direct-colour spelling of each is
    // that index's own level on xterm's greyscale ramp -- index `i` in
    // `232..=255` is `8 + (i - 232) * 10` on all three channels. So these
    // are not two palettes but one, said twice, and the pairs are written
    // out because that claim is only checkable against the numbers: a
    // transposed digit in either column reads as a plausible grey and shows
    // up nowhere else.
    for (mode, role, index, level) in [
        (Mode::Dark, DIVIDER, 240u32, 88u32),
        (Mode::Dark, HINT, 255, 238),
        (Mode::Dark, NOTICE, 250, 188),
        (Mode::Light, DIVIDER, 250, 188),
        (Mode::Light, HINT, 235, 38),
        (Mode::Light, NOTICE, 241, 98),
    ] {
        assert_eq!(
            level,
            8 + (index - 232) * 10,
            "index {index} is not the ramp level this pair claims"
        );
        let ansi = Palette {
            mode,
            depth: Depth::Ansi256,
        };
        let direct = Palette {
            mode,
            depth: Depth::TrueColor,
        };
        assert_eq!(
            ansi.paint(role),
            format!("\u{1b}[38;5;{index}m"),
            "{mode:?} role {role} at 256 colours"
        );
        assert_eq!(
            direct.paint(role),
            format!("\u{1b}[38;2;{level};{level};{level}m"),
            "{mode:?} role {role} at direct colour"
        );
    }
    // and the two a reader will look for first, spelled outright
    let dark = Palette {
        mode: Mode::Dark,
        depth: Depth::TrueColor,
    };
    let light = Palette {
        mode: Mode::Light,
        depth: Depth::TrueColor,
    };
    assert_eq!(dark.divider(), "\u{1b}[38;2;88;88;88m");
    assert_eq!(light.hint(), "\u{1b}[38;2;38;38;38m");
}

#[test]
fn the_palette_is_decided_by_the_two_words_and_nothing_else() {
    assert!(decided(Some("light")));
    assert!(decided(Some("DARK")));
    assert!(!decided(Some("1")));
    assert!(!decided(Some(" dark")));
    assert!(!decided(Some("")));
    assert!(!decided(None));
}

#[test]
fn a_reply_is_told_by_its_number_whatever_it_says() {
    assert!(is_background_reply("\u{1b}]11;rgb:ffff/ffff/ffff\u{1b}\\"));
    assert!(is_background_reply("\u{1b}]11;nonsense\u{7}"));
    assert!(!is_background_reply("\u{1b}]10;rgb:ffff/ffff/ffff\u{1b}\\"));
    assert!(!is_background_reply("\u{1b}]11"));
    assert_eq!(parse_osc11("\u{1b}]11;nonsense\u{7}"), None);
}

#[test]
fn a_component_is_hexadecimal_digits_and_nothing_else() {
    assert_eq!(parse_osc11("\u{1b}]11;rgb:f/f/f\u{7}"), Some(Mode::Light));
    assert_eq!(
        parse_osc11("\u{1b}]11;rgb:fff/fff/fff\u{1b}\\"),
        Some(Mode::Light)
    );
    assert_eq!(parse_osc11("\u{1b}]11;rgb:0f/0f/0f\u{7}"), Some(Mode::Dark));
    // A sign is no digit.
    assert_eq!(parse_osc11("\u{1b}]11;rgb:+fff/+fff/+fff\u{1b}\\"), None);
    assert_eq!(parse_osc11("\u{1b}]11;rgb:+f/+f/+f\u{7}"), None);
    assert_eq!(parse_osc11("\u{1b}]11;rgb:-f/f/f\u{7}"), None);
    assert_eq!(parse_osc11("\u{1b}]11;rgb:+/f/f\u{7}"), None);
    assert_eq!(parse_osc11("\u{1b}]11;rgb:fffff/f/f\u{7}"), None);
    assert_eq!(parse_osc11("\u{1b}]11;rgb:f/f\u{7}"), None);
    assert_eq!(parse_osc11("\u{1b}]11;rgb:f/f/f/f\u{7}"), None);
}

#[test]
fn colorfgbg_is_a_list_of_numbers_or_no_answer() {
    assert_eq!(from_colorfgbg("nonsense;15"), None);
    assert_eq!(from_colorfgbg("15;default;0"), None);
    assert_eq!(from_colorfgbg(";15"), None);
    assert_eq!(from_colorfgbg("0;"), None);
    assert_eq!(from_colorfgbg("0;256"), None);
    assert_eq!(from_colorfgbg("15"), None);
    assert_eq!(from_colorfgbg("0;1;8"), Some(Mode::Light));
    assert_eq!(from_colorfgbg("99999999999999999999;7"), Some(Mode::Dark));
}

#[test]
fn both_depths_say_the_same_greys() {
    for mode in [Mode::Dark, Mode::Light] {
        for role in [DIVIDER, HINT, NOTICE] {
            let indexed = Palette {
                mode,
                depth: Depth::Ansi256,
            }
            .paint(role);
            let index: u32 = indexed
                .trim_start_matches("\u{1b}[38;5;")
                .trim_end_matches('m')
                .parse()
                .expect("an index");
            let level = 8 + (index - 232) * 10;
            assert_eq!(
                Palette {
                    mode,
                    depth: Depth::TrueColor,
                }
                .paint(role),
                format!("\u{1b}[38;2;{level};{level};{level}m")
            );
        }
    }
}
