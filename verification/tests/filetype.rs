//! What files are called for people.

use disktree::filetype::describe;

#[test]
fn files_are_described_by_what_they_are() {
    assert_eq!(describe("guava-33.0.jar"), "Java archive");
    assert_eq!(describe("IMG_2041.HEIC"), "Image", "any case");
    assert_eq!(describe("backup.tar.gz"), "Archive", "the last extension");
    assert_eq!(describe("Makefile"), "Build script");
    assert_eq!(describe("Cargo.lock"), "Lock file");
    assert_eq!(describe("hiberfil.sys"), "Windows hibernation file");
}

#[test]
fn unknown_and_missing_extensions_still_say_something() {
    assert_eq!(describe("events.zarr"), "ZARR file");
    assert_eq!(describe("notes"), "File");
    assert_eq!(
        describe(".envrc"),
        "File",
        "a dot-name is not an extension"
    );
    assert_eq!(describe("trailing."), "File");
}

#[test]
fn each_kind_of_name_has_its_words() {
    for (name, words) in [
        ("README", "Read-me"),
        ("pnpm-lock.yaml", "Lock file"),
        (".zshrc", "Shell settings"),
        ("disk.vhdx", "Virtual disk"),
        ("libfoo.so", "Shared library"),
        ("main.RS", "Rust source"),
        ("run.sh", "Shell script"),
        ("model.gguf", "AI model"),
        ("paper.pdf", "PDF document"),
        ("take.opus", "Audio"),
        ("scene.usdz", "3D model"),
    ] {
        assert_eq!(describe(name), words, "{name}");
    }
}

#[test]
fn only_ascii_letters_change_their_case() {
    assert_eq!(describe("notes.über"), "üBER file");
    assert_eq!(describe("notes.Über"), "ÜBER file");
}

#[test]
fn an_extension_it_does_not_know_is_named() {
    assert_eq!(describe("data.parquet"), "PARQUET file");
    assert_eq!(describe("data.arrow"), "Columnar data");
}
