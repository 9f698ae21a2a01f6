//! What the command lines ask for.

use rmp::command::{
    begin_images, default_output, either, font_candidates, image_of, image_path, merge, parse_size,
    picture_size, quantities, range_ends, refuse_overwrite, settings_note, silence, slug, task, Format,
    Given, Image, ImagePath, Outputs, ResidualRoute, Task,
};
use rmp::config::{ResidualErbSettings, ResidualPowerSettings, ResidualSettings};
use rmp::ieee::Double;
use rmp::residual::book::{ErbFilterKind, ErbNormalization, ErbSpacing, ResidualStorage};
use rmp::residual::power::ResidualPowerTimeMode;
use rmp::stats::Quantity;

#[test]
fn sizes_parse_or_explain_themselves() {
    assert_eq!(parse_size("1200x800").unwrap(), (1200, 800));
    assert_eq!(parse_size(" 64 X 48 ").unwrap(), (64, 48));
    assert!(parse_size("1200").is_err());
    assert!(parse_size("0x10").is_err());
    assert!(parse_size("axb").is_err());
}

#[test]
fn a_bad_size_is_told_what_is_wrong_with_it() {
    assert_eq!(parse_size("1200").unwrap_err(), "size '1200' wants WIDTHxHEIGHT");
    assert_eq!(parse_size("ax8").unwrap_err(), "bad width in 'ax8'");
    assert_eq!(parse_size("8xb").unwrap_err(), "bad height in '8xb'");
    assert_eq!(parse_size("8x4294967296").unwrap_err(), "bad height in '8x4294967296'");
    assert_eq!(parse_size("0x10").unwrap_err(), "size '0x10' must be positive");
    assert_eq!(parse_size("8x9x1").unwrap_err(), "bad height in '8x9x1'");
}

#[test]
fn a_single_quantity_may_name_its_file_directly() {
    let given = Given { is_dir: false, has_extension: true };
    let p = image_path(Some(given), "alpha", Format::Svg, false);
    assert!(matches!(p, ImagePath::Exactly));
}

#[test]
fn several_quantities_name_a_directory() {
    let given = Given { is_dir: false, has_extension: false };
    let p = image_path(Some(given), "alpha", Format::Png, true);
    assert!(matches!(p, ImagePath::Inside(file) if file == "alpha.png"));
}

#[test]
fn without_out_the_file_is_named_for_the_quantity() {
    let p = image_path(None, "bandwidth", Format::Svg, false);
    assert!(matches!(p, ImagePath::Here(file) if file == "bandwidth.svg"));
}

#[test]
fn a_directory_or_a_bare_name_holds_the_file() {
    for given in [
        Given { is_dir: true, has_extension: true },
        Given { is_dir: false, has_extension: false },
    ] {
        let p = image_path(Some(given), "f", Format::Svg, false);
        assert!(matches!(p, ImagePath::Inside(file) if file == "f.svg"));
    }
}

/// Every quantity has a distinct filename, or two histograms in one run would overwrite.
#[test]
fn slugs_are_unique() {
    let all = [
        Quantity::Alpha,
        Quantity::Bandwidth,
        Quantity::Beta,
        Quantity::AlphaBeta,
        Quantity::Freq,
        Quantity::AmpDb,
        Quantity::EnergyDb,
        Quantity::T0,
        Quantity::SupportMs,
        Quantity::FadeDurMs,
        Quantity::Q,
        Quantity::Rho,
        Quantity::Periods,
        Quantity::Block,
    ];
    let mut seen: Vec<String> = all.iter().map(|&q| slug(q)).collect();
    seen.sort();
    let n = seen.len();
    seen.dedup();
    assert_eq!(seen.len(), n);
    for q in all {
        assert_eq!(Quantity::from_str(&slug(q)).unwrap(), q);
    }
    assert_eq!(Quantity::from_str(&slug(Quantity::Sigma)).unwrap(), Quantity::Sigma);
}

#[test]
fn a_list_of_quantities_is_read_in_order() {
    assert_eq!(
        quantities(" alpha, ,F ,Fade_Dur").unwrap(),
        vec![Quantity::Alpha, Quantity::Freq, Quantity::FadeDurMs]
    );
    assert_eq!(quantities(" , ").unwrap_err(), "--of listed no quantities");
    assert_eq!(quantities("alpha,beat").unwrap_err(), "unknown quantity 'beat'");
}

#[test]
fn a_range_has_two_ends() {
    assert_eq!(range_ends(" 1 , 2,3").unwrap(), ("1".to_string(), "2,3".to_string()));
    assert_eq!(range_ends("12").unwrap_err(), "--range wants LO,HI");
}

#[test]
fn a_flag_not_typed_overrides_nothing() {
    assert_eq!(either(true, false), Some(true));
    assert_eq!(either(false, true), Some(false));
    assert_eq!(either(false, false), None);
}

#[test]
fn the_default_output_sits_beside_the_book_under_its_own_name() {
    for (book, want) in [
        ("dir/p.json.gz", "dir/p.partials.json.gz"),
        ("p.json", "p.partials.json.gz"),
        ("a.b.toml", "a.b.partials.json.gz"),
        ("book", "book.partials.json.gz"),
        ("dir/p.json.gz/", "dir/p.partials.json.gz"),
        ("dir/p.json.gz/.", "dir/p.partials.json.gz"),
        ("./b.json", "./b.partials.json.gz"),
        ("/b.json", "/b.partials.json.gz"),
        ("p.partials.json.gz", "p.partials.partials.json.gz"),
        (".", "./book.partials.json.gz"),
        ("a/..", "a/../book.partials.json.gz"),
        ("/", "/book.partials.json.gz"),
        ("", "book.partials.json.gz"),
    ] {
        assert_eq!(default_output(book), want, "{book}");
    }
}

#[test]
fn a_book_is_not_overwritten() {
    assert!(refuse_overwrite(false, "b").is_ok());
    assert_eq!(
        refuse_overwrite(true, "b.json").unwrap_err(),
        "refusing to overwrite the MP book b.json"
    );
}

#[test]
fn the_first_font_there_is_is_taken() {
    let names = font_candidates();
    let mut found = vec![false; names.len()];
    let why = begin_images(&found).unwrap_err();
    assert!(why.starts_with("no text font found — looked for /usr/share/fonts/truetype/dejavu/"));
    assert!(why.ends_with("Helvetica.ttc. Charts need one; the text reports do not, so `-f text` still works."));
    found[4] = true;
    found[2] = true;
    assert_eq!(begin_images(&found), Ok(2));
}

#[test]
fn a_format_names_its_image() {
    assert_eq!(image_of(Format::Png), Image::Png);
    assert_eq!(image_of(Format::Svg), Image::Svg);
    assert_eq!(picture_size(1200, 800), (1310, 910));
}

#[test]
fn a_stale_command_line_is_told_where_synthesis_went() {
    assert_eq!(task(true, Some("x"), None, false), Ok(Task::WriteConfig));
    assert_eq!(
        task(false, Some("out.wav"), None, true).unwrap_err(),
        "rmp no longer synthesises; render the book with `rmpsynth -b book.json -o out.wav`"
    );
    assert_eq!(
        task(false, Some("o.wav"), Some("b.toml"), true).unwrap_err(),
        "rmp no longer synthesises; render the book with `rmpsynth -b b.toml -o o.wav`"
    );
    assert_eq!(task(false, None, None, true), Ok(Task::Analyse));
    assert!(task(false, None, None, false).unwrap_err().starts_with("give an input soundfile"));
}

#[test]
fn a_run_has_somewhere_to_write() {
    let none = Outputs { book: false, residual: false, residual_book: false };
    assert!(none.check().unwrap_err().starts_with("nothing to write: "));
    let book = Outputs { book: true, ..none };
    assert!(book.check().is_ok());
    assert_eq!(none.route(true), ResidualRoute::Nowhere);
    assert_eq!(book.route(true), ResidualRoute::Embedded);
    assert_eq!(Outputs { residual_book: true, ..book }.route(true), ResidualRoute::Apart);
    assert_eq!(book.route(false), ResidualRoute::Off);
    assert!(ResidualRoute::Apart.runs() && ResidualRoute::Embedded.runs());
    assert!(!ResidualRoute::Nowhere.runs() && !ResidualRoute::Off.runs());
    assert!(ResidualRoute::Nowhere.warning().is_some());
    assert!(ResidualRoute::Off.warning().is_none());
}

fn d(x: f64) -> Double {
    Double { bits: x.to_bits() }
}

fn settings(enabled: bool) -> ResidualSettings {
    ResidualSettings {
        enabled,
        update_ms: d(10.0),
        storage: ResidualStorage::F32LinearPower,
        erb: ResidualErbSettings {
            bands: 40,
            min_freq_hz: d(50.0),
            max_freq_hz: d(16_000.0),
            spacing: ErbSpacing::ErbRate,
            filter: ErbFilterKind::Gammatone,
            order: 4,
            normalization: ErbNormalization::UnitNoisePower,
        },
        power: ResidualPowerSettings {
            mode: ResidualPowerTimeMode::Fixed,
            tau_ms: d(5.0),
            tau_scale: d(1.0),
            tau_min_ms: d(1.0),
            tau_max_ms: d(20.0),
        },
    }
}

#[test]
fn the_command_line_edits_the_settings() {
    let mut s = settings(false);
    merge(&mut s, None, None, false);
    assert_eq!(s, settings(false));
    merge(&mut s, None, Some(d(5.0)), true);
    assert!(s.enabled);
    assert_eq!(s.update_ms, d(5.0));
    let mut s = settings(true);
    merge(&mut s, Some(false), None, true);
    assert!(!s.enabled);
}

#[test]
fn silence_is_told_apart_from_a_silent_excerpt() {
    assert_eq!(silence(10, 10), "input is silent");
    assert_eq!(silence(5, 10), "the selected excerpt is silent");
}

#[test]
fn a_note_says_where_the_settings_came_from() {
    assert_eq!(settings_note(Some("s.toml")), "dictionary from s.toml");
    assert!(settings_note(None).starts_with("dictionary from the built-in defaults"));
}
