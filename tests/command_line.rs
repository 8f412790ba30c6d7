use bcdecode::cli::{parse_args, parse_variant, variant_from_lowercase, Command, CompressionVariant};

fn args(list: &[&str]) -> Vec<String> {
    list.iter().map(|s| s.to_string()).collect()
}

#[test]
fn format_names_ignore_case() {
    assert_eq!(
        parse_args(&args(&["compressor", "BC1", "image.png"])),
        Command::Compress { variant: CompressionVariant::Bc1, file_name: "image.png".to_string() }
    );
    assert_eq!(parse_variant("Bc6H"), Some(CompressionVariant::Bc6h));
    assert_eq!(parse_variant("bc7"), Some(CompressionVariant::Bc7));
}

#[test]
fn every_format_name_is_known() {
    let names = ["bc1", "bc2", "bc3", "bc4", "bc5", "bc6h", "bc7"];
    let variants = [
        CompressionVariant::Bc1,
        CompressionVariant::Bc2,
        CompressionVariant::Bc3,
        CompressionVariant::Bc4,
        CompressionVariant::Bc5,
        CompressionVariant::Bc6h,
        CompressionVariant::Bc7,
    ];
    for (name, variant) in names.iter().zip(variants.iter()) {
        assert_eq!(variant_from_lowercase(&name.to_string()), Some(*variant));
    }
}

#[test]
fn lowercase_lookup_is_exact() {
    assert_eq!(variant_from_lowercase(&"BC1".to_string()), None);
    assert_eq!(variant_from_lowercase(&"bc6".to_string()), None);
    assert_eq!(variant_from_lowercase(&"".to_string()), None);
}

#[test]
fn unknown_format_is_reported() {
    assert_eq!(parse_args(&args(&["compressor", "bc9", "image.png"])), Command::InvalidVariant);
}

#[test]
fn help_or_wrong_count_shows_usage() {
    assert_eq!(parse_args(&args(&["compressor"])), Command::Help);
    assert_eq!(parse_args(&args(&["compressor", "bc1"])), Command::Help);
    assert_eq!(parse_args(&args(&["compressor", "bc1", "a.png", "b.png"])), Command::Help);
    assert_eq!(parse_args(&args(&["compressor", "--help", "a.png"])), Command::Help);
    assert_eq!(parse_args(&args(&["compressor", "bc1", "--help"])), Command::Help);
}
