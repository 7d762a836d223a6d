use phonia::figure::{colormap_of, parse_format, theme_of, FigureColormap, FigureFormat, FigureTheme};
use phonia::paths::{extension_is_wav, extension_recognized, looks_like_wav, path_parts, recognized};

#[test]
fn formats_parse_from_lower_case_names() {
    assert_eq!(parse_format("svg"), Ok(FigureFormat::Svg));
    assert_eq!(parse_format("graphml"), Ok(FigureFormat::Graphml));
    assert_eq!(parse_format("r"), Ok(FigureFormat::R));
    assert_eq!(
        parse_format("SVG"),
        Err("unknown figure format: SVG".to_string())
    );
    assert_eq!(parse_format(""), Err("unknown figure format: ".to_string()));
}

#[test]
fn palettes_and_themes_fall_back_to_defaults() {
    assert_eq!(colormap_of("Magma"), FigureColormap::Magma);
    assert_eq!(colormap_of("Grayscale"), FigureColormap::Grayscale);
    assert_eq!(colormap_of("magma"), FigureColormap::Viridis);
    assert_eq!(theme_of("Dark"), FigureTheme::Dark);
    assert_eq!(theme_of("dark"), FigureTheme::Light);
}

#[test]
fn recognised_extensions_ignore_case() {
    assert!(extension_recognized("WAV"));
    assert!(extension_recognized("TextGrid"));
    assert!(extension_recognized("phxproj"));
    assert!(!extension_recognized("mp3"));
    assert!(extension_is_wav("Wav"));
    assert!(!extension_is_wav("wave"));
    assert!(recognized("/home/u/take.FLAC"));
    assert!(!recognized("/home/u/notes.txt"));
    assert!(!recognized("/home/u/noext"));
    assert!(looks_like_wav("media/take.wav"));
    assert!(!looks_like_wav("media/take.aiff"));
}

#[test]
fn path_parts_skip_empty_segments() {
    let rel = "/a//bc/d/";
    let parts: Vec<&str> = path_parts(rel).into_iter().map(|(s, e)| &rel[s..e]).collect();
    assert_eq!(parts, vec!["a", "bc", "d"]);
    assert!(path_parts("").is_empty());
    assert!(path_parts("///").is_empty());
}

#[test]
fn extensions_come_from_the_file_name_after_its_last_dot() {
    assert!(recognized("/home/u/take.backup.wav"));
    assert!(!recognized("/home/u/take.wav.bak"));
    assert!(!recognized("/home/u/.wav"));
    assert!(!recognized("/home/u/take."));
    assert!(recognized("/home/u/take.TextGrid/"));
    assert!(looks_like_wav("take.WAV"));
    assert!(!looks_like_wav("wav"));
    assert!(!looks_like_wav("dir.wav/take"));
}

#[test]
fn file_names_follow_component_normalisation() {
    assert!(looks_like_wav("media/take.wav/."));
    assert!(looks_like_wav("media//take.WAV//"));
    assert!(looks_like_wav("..wav"));
    assert!(!looks_like_wav("media/take.wav/.."));
    assert!(!looks_like_wav("./."));
    assert!(!looks_like_wav(""));
    assert!(recognized("x.y.flac"));
    assert!(!recognized("x.flac.y"));
}
