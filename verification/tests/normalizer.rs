use fixme_report::normalizer::{key_range, normalize, trim_byte};

#[test]
fn comment_punctuation_is_stripped_from_both_ends() {
    assert_eq!(normalize("    // FIXME: handle this."), "FIXME: handle this");
    assert_eq!(normalize("/* HACK - around it */"), "HACK - around it");
    assert_eq!(normalize("^^^ FIXME, later ..."), "FIXME, later");
}

#[test]
fn every_trim_byte_is_stripped_and_no_other() {
    assert_eq!(normalize("/* :-.^,x/* :-.^,"), "x");
    for b in 0..=255u8 {
        assert_eq!(trim_byte(b), b"/* :-.^,".contains(&b), "{b}");
    }
    assert_eq!(normalize("\tFIXME\t"), "\tFIXME\t");
    assert_eq!(normalize("#[cfg] // FIXME"), "#[cfg] // FIXME");
}

#[test]
fn line_of_trim_bytes_only_has_the_empty_key() {
    assert_eq!(normalize(""), "");
    assert_eq!(normalize("//"), "");
    assert_eq!(normalize(" - * - "), "");
    assert_eq!(key_range(b"////"), (4, 4));
}

#[test]
fn inside_of_the_line_is_left_alone() {
    assert_eq!(normalize("// FIXME:  Two  spaces, a/b - c."), "FIXME:  Two  spaces, a/b - c");
    assert_eq!(normalize("fixme"), "fixme");
    assert_ne!(normalize("// FIXME: x"), normalize("// fixme: x"));
    assert_ne!(normalize("// FIXME: a  b"), normalize("// FIXME: a b"));
}

#[test]
fn same_line_has_the_same_key_each_time() {
    let line = "  // FIXME(eddyb): this is a hack. ";
    assert_eq!(normalize(line), normalize(line));
    assert_eq!(normalize(line), "FIXME(eddyb): this is a hack");
}

#[test]
fn lines_share_a_key_when_same_after_trim() {
    assert_eq!(normalize("   // FIXME: x"), normalize("/* FIXME: x */"));
    assert_eq!(normalize("FIXME: x"), normalize("- FIXME: x ..."));
    assert_ne!(normalize("// FIXME: x"), normalize("// FIXME: y"));
    assert_ne!(normalize("// FIXME: x"), normalize("// FIXME: x y"));
}

#[test]
fn key_of_a_key_is_the_key() {
    for line in ["  // FIXME: a - b. ", "/**/", "x", ". HACK(é): ünï — ."] {
        assert_eq!(normalize(normalize(line)), normalize(line));
    }
}

#[test]
fn key_range_gives_the_offsets_of_the_key() {
    let line = "// FIXME: x.";
    assert_eq!(key_range(line.as_bytes()), (3, 11));
    assert_eq!(&line[3..11], "FIXME: x");
}

#[test]
fn trimming_agrees_with_std() {
    let chars: &[char] = &['/', '*', ' ', ':', '-', '.', '^', ','];
    for line in [
        "",
        "/",
        " x ",
        "// FIXME: something, anything. ",
        "ünï: ",
        "— dash —",
        ": é",
        "é :",
        "*/ HACK /*",
        "^,.-: */",
    ] {
        assert_eq!(normalize(line), line.trim_matches(chars), "{line}");
    }
}
